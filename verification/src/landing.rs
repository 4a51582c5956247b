//! Where landing pads go: what the id of a pad keeps of the id it is made from.

use vstd::prelude::*;
use vstd::string::*;

use crate::common::{
    base_of, landing_pads_distinct, no_break, pad_name, pad_shape, part_break, prefix_of, quote_free,
    trimmed_quoted, well_quoted,
};
use crate::sql::id_parts;
use crate::text::{joined, last_occurrence, occurs_at, split, trim_end, trim_start, trimmed, Text};

verus! {

/// A name that needs no quotes to be told apart from a qualified one.
pub open spec fn plain_name(name: Text) -> bool {
    name.len() > 0 && forall|i: int| 0 <= i < name.len() ==> (#[trigger] name[i]) != '.' && name[i] != '"'
}

/// A name in quotes.
pub open spec fn in_quotes(name: Text) -> Text {
    seq!['"'] + name + seq!['"']
}

/// Names in quotes.
pub open spec fn all_in_quotes(parts: Seq<Text>) -> Seq<Text> {
    parts.map_values(|p: Text| in_quotes(p))
}

/// A qualified id: its parts in quotes, with a dot between each two.
pub open spec fn qualified(parts: Seq<Text>) -> Text {
    joined(all_in_quotes(parts), "."@)
}

/// The id of a node: a plain name, or the parts of a qualified id.
pub open spec fn is_node_id(id: Text) -> bool {
    ||| plain_name(id)
    ||| exists|parts: Seq<Text>|
        parts.len() > 0 && (forall|i: int| 0 <= i < parts.len() ==> plain_name(#[trigger] parts[i])) && id
            == #[trigger] qualified(parts)
}

/// The last part of the id is quoted.
pub open spec fn is_quoted(id: Text) -> bool {
    base_of(id).len() > 0 && base_of(id)[0] == '"'
}

/// What can stand before the last part of a qualified id.
spec fn is_head(head: Text) -> bool {
    head.len() == 0 || (head.len() >= 2 && head[head.len() - 2] == '"' && head.last() == '.')
}

proof fn no_break_after(s: Text, from: nat, end: nat)
    requires
        from <= end,
        forall|q: int| from <= q < end ==> !#[trigger] occurs_at(s, part_break(), q),
    ensures
        last_occurrence(s, part_break(), end) == last_occurrence(s, part_break(), from),
    decreases end,
{
    if from < end {
        assert(!occurs_at(s, part_break(), end - 1));
        no_break_after(s, from, (end - 1) as nat);
    }
}

/// A plain name in quotes behind a head is the last part of an id.
proof fn last_part_is_base(head: Text, name: Text)
    requires
        is_head(head),
        plain_name(name),
    ensures
        prefix_of(head + in_quotes(name)) == head,
        base_of(head + in_quotes(name)) == in_quotes(name),
{
    let s = head + in_quotes(name);
    let l = head.len();
    let from: nat = if l == 0 {
        0
    } else {
        (l - 1) as nat
    };
    assert forall|q: int| from <= q < s.len() implies !#[trigger] occurs_at(s, part_break(), q) by {
        if occurs_at(s, part_break(), q) {
            let sub = s.subrange(q, q + 3);
            assert(sub[0] == s[q] && sub[1] == s[q + 1] && sub[2] == s[q + 2]);
            if q < l {
                assert(s[q] == head.last());
            } else if q == l {
                assert(s[q + 1] == name[0]);
            } else {
                assert(s[q] == name[q - l - 1]);
            }
        }
    }
    no_break_after(s, from, s.len());
    if l > 0 {
        let p = l - 2;
        assert(s.subrange(p, p + 3) =~= part_break());
        assert(occurs_at(s, part_break(), p));
        assert(last_occurrence(s, part_break(), from) == Some(p as nat));
        assert(s.take(p) + seq!['"', '.'] =~= head);
    } else {
        assert(head =~= Seq::<char>::empty());
    }
    assert(base_of(s) =~= in_quotes(name));
}

/// What stands behind the last dot is the last part.
proof fn last_of_split(head: Text, tail: Text)
    requires
        head.len() == 0 || head.last() == '.',
        forall|i: int| 0 <= i < tail.len() ==> (#[trigger] tail[i]) != '.',
    ensures
        split(head + tail, '.').len() > 0,
        split(head + tail, '.').last() == tail,
    decreases tail.len(),
{
    let s = head + tail;
    if tail.len() == 0 {
        assert(s =~= head);
        assert(tail =~= Seq::<char>::empty());
        if head.len() > 0 {
            assert(s.last() == '.');
        }
    } else {
        last_of_split(head, tail.drop_last());
        assert(s.drop_last() =~= head + tail.drop_last());
        assert(s.last() == tail.last());
        assert(tail.drop_last().push(tail.last()) =~= tail);
    }
}

/// The bare name of an id is its last part without the quotes.
proof fn bare_name(head: Text, name: Text)
    requires
        is_head(head),
        plain_name(name),
    ensures
        id_parts(head + in_quotes(name)).last() == name,
{
    let tail = in_quotes(name);
    assert forall|i: int| 0 <= i < tail.len() implies (#[trigger] tail[i]) != '.' by {
        if 1 <= i <= name.len() {
            assert(tail[i] == name[i - 1]);
        }
    }
    last_of_split(head, tail);
    assert(quote_free(name));
    trimmed_quoted(name);
}

proof fn plain_bare_name(name: Text)
    requires
        plain_name(name),
    ensures
        id_parts(name).last() == name,
{
    let head = Seq::<char>::empty();
    assert(head + name =~= name);
    last_of_split(head, name);
    assert(name[0] != '"' && name.last() != '"');
    assert(trim_start(name, '"') == name);
    assert(trim_end(name, '"') == name);
    assert(trimmed(name, '"') == name);
}

proof fn marked_name(name: Text)
    requires
        plain_name(name),
    ensures
        plain_name("lp_"@ + name),
{
    reveal_strlit("lp_");
    let marked = "lp_"@ + name;
    assert forall|i: int| 0 <= i < marked.len() implies (#[trigger] marked[i]) != '.' && marked[i] != '"' by {
        if i >= 3 {
            assert(marked[i] == name[i - 3]);
        }
    }
}

/// A qualified id is a head and a name in quotes.
proof fn qualified_splits(parts: Seq<Text>) -> (head: Text)
    requires
        parts.len() > 0,
    ensures
        is_head(head),
        qualified(parts) == head + in_quotes(parts.last()),
{
    let all = all_in_quotes(parts);
    assert(all.last() == in_quotes(parts.last()));
    if parts.len() == 1 {
        let head = Seq::<char>::empty();
        assert(head + in_quotes(parts.last()) =~= all[0]);
        head
    } else {
        reveal_strlit(".");
        let front = all.drop_last();
        let text = joined(front, "."@);
        assert(front.last() == in_quotes(parts[parts.len() - 2]));
        assert(front.last().last() == '"');
        assert(text.len() > 0 && text.last() == '"');
        let head = text + "."@;
        assert(head[head.len() - 2] == text.last());
        head
    }
}

/// A landing pad goes beside what it is made from: its id has the same
/// qualifiers, is quoted where the other is, and its bare name is the other's
/// behind `lp_`.
pub proof fn a_landing_pad_keeps_its_place(id: Text)
    requires
        is_node_id(id),
    ensures
        prefix_of(pad_name(id)) == prefix_of(id),
        is_quoted(pad_name(id)) == is_quoted(id),
        id_parts(pad_name(id)).last() == "lp_"@ + id_parts(id).last(),
{
    reveal_strlit("lp_");
    reveal_strlit("\"lp_");
    reveal_strlit("\"");
    let pad = pad_name(id);
    if plain_name(id) {
        marked_name(id);
        assert(quote_free(id));
        pad_shape(id);
        assert(pad == "lp_"@ + id);
        assert(quote_free(pad));
        no_break(id, id.len());
        no_break(pad, pad.len());
        assert(base_of(id) =~= id);
        assert(base_of(pad) =~= pad);
        assert(pad[0] == 'l');
        plain_bare_name(id);
        plain_bare_name(pad);
    } else {
        let parts = choose|parts: Seq<Text>|
            parts.len() > 0 && (forall|i: int| 0 <= i < parts.len() ==> plain_name(#[trigger] parts[i])) && id
                == #[trigger] qualified(parts);
        let head = qualified_splits(parts);
        let name = parts.last();
        let marked = "lp_"@ + name;
        assert(plain_name(parts[parts.len() - 1]));
        marked_name(name);
        last_part_is_base(head, name);
        last_part_is_base(head, marked);
        assert(quote_free(name));
        assert(well_quoted(id)) by {
            assert(base_of(id) == seq!['"'] + name + seq!['"']);
        }
        pad_shape(id);
        assert(pad =~= head + in_quotes(marked));
        bare_name(head, name);
        bare_name(head, marked);
    }
}

/// Two different nodes never share a landing pad.
pub proof fn nodes_do_not_share_a_landing_pad(a: Text, b: Text)
    requires
        is_node_id(a),
        is_node_id(b),
        a != b,
    ensures
        pad_name(a) != pad_name(b),
{
    node_ids_are_well_quoted(a);
    node_ids_are_well_quoted(b);
    if pad_name(a) == pad_name(b) {
        landing_pads_distinct(a, b);
    }
}

proof fn node_ids_are_well_quoted(id: Text)
    requires
        is_node_id(id),
    ensures
        well_quoted(id),
{
    if plain_name(id) {
        assert(quote_free(id));
    } else {
        let parts = choose|parts: Seq<Text>|
            parts.len() > 0 && (forall|i: int| 0 <= i < parts.len() ==> plain_name(#[trigger] parts[i])) && id
                == #[trigger] qualified(parts);
        let head = qualified_splits(parts);
        let name = parts.last();
        assert(plain_name(parts[parts.len() - 1]));
        last_part_is_base(head, name);
        assert(quote_free(name));
        assert(base_of(id) == seq!['"'] + name + seq!['"']);
    }
}

} // verus!
