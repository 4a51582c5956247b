//! Stable sorting by a caller's order.

use vstd::prelude::*;

use crate::text::{at_most, text_le, text_le_antisymmetric, text_le_total, text_le_transitive, texts, Text};

verus! {

/// `le` is a total, transitive order on the members of `items`.
pub open spec fn orders<T>(items: Seq<T>, le: spec_fn(T, T) -> bool) -> bool {
    &&& forall|i: int, j: int|
        0 <= i < items.len() && 0 <= j < items.len() ==> #[trigger] le(items[i], items[j]) || le(items[j], items[i])
    &&& forall|i: int, j: int, k: int|
        0 <= i < items.len() && 0 <= j < items.len() && 0 <= k < items.len() && #[trigger] le(items[i], items[j])
            && #[trigger] le(items[j], items[k]) ==> le(items[i], items[k])
}

/// `p` lists every position of `items` once, so that the members come in
/// ascending order of `le` and equal members keep their places.
pub open spec fn stable_order<T>(p: Seq<usize>, items: Seq<T>, le: spec_fn(T, T) -> bool) -> bool {
    &&& p.len() == items.len()
    &&& forall|i: int| 0 <= i < p.len() ==> (#[trigger] p[i]) < items.len()
    &&& forall|v: usize| v < items.len() ==> #[trigger] p.contains(v)
    &&& forall|i: int, j: int| 0 <= i < j < p.len() ==> (#[trigger] p[i]) != (#[trigger] p[j])
    &&& forall|i: int, j: int|
        0 <= i < j < p.len() ==> {
            &&& le(items[(#[trigger] p[i]) as int], items[(#[trigger] p[j]) as int])
            &&& le(items[p[j] as int], items[p[i] as int]) ==> p[i] < p[j]
        }
}

/// The members of `items` at the positions that `p` lists.
pub open spec fn picked<T>(items: Seq<T>, p: Seq<usize>) -> Seq<T> {
    p.map_values(|i: usize| items[i as int])
}

/// `out` is `items` in ascending order of `le`, equal members in their places.
pub open spec fn stably_sorted<T>(out: Seq<T>, items: Seq<T>, le: spec_fn(T, T) -> bool) -> bool {
    exists|p: Seq<usize>| #[trigger] stable_order(p, items, le) && out == picked(items, p)
}

/// The positions of `items` in stable ascending order; `before` decides the
/// order of two positions.
pub(crate) fn order_positions<T, F: Fn(usize, usize) -> bool>(
    Ghost(items): Ghost<Seq<T>>,
    Ghost(le): Ghost<spec_fn(T, T) -> bool>,
    n: usize,
    before: F,
) -> (p: Vec<usize>)
    requires
        n == items.len(),
        orders(items, le),
        forall|i: usize, j: usize| i < n && j < n ==> call_requires(before, (i, j)),
        forall|i: usize, j: usize, r: bool|
            i < n && j < n && call_ensures(before, (i, j), r) ==> r == le(items[i as int], items[j as int]),
    ensures
        stable_order(p@, items, le),
{
    let mut p: Vec<usize> = Vec::new();
    let mut k: usize = 0;
    while k < n
        invariant
            k <= n == items.len(),
            orders(items, le),
            forall|i: usize, j: usize| i < n && j < n ==> call_requires(before, (i, j)),
            forall|i: usize, j: usize, r: bool|
                i < n && j < n && call_ensures(before, (i, j), r) ==> r == le(items[i as int], items[j as int]),
            stable_order(p@, items.take(k as int), le),
        decreases n - k,
    {
        let ghost old_p = p@;
        let mut pos: usize = p.len();
        while pos > 0
            invariant
                pos <= p@.len() == k < n,
                n == items.len(),
                p@ == old_p,
                orders(items, le),
                stable_order(old_p, items.take(k as int), le),
                forall|i: usize, j: usize| i < n && j < n ==> call_requires(before, (i, j)),
                forall|i: usize, j: usize, r: bool|
                    i < n && j < n && call_ensures(before, (i, j), r) ==> r == le(items[i as int], items[j as int]),
                forall|j: int| pos <= j < old_p.len() ==> !le(items[(#[trigger] old_p[j]) as int], items[k as int]),
            ensures
                pos > 0 ==> le(items[old_p[pos - 1] as int], items[k as int]),
            decreases pos,
        {
            let stays = before(p[pos - 1], k);
            if stays {
                break;
            }
            pos = pos - 1;
        }
        p.insert(pos, k);
        proof {
            let next = items.take(k + 1);
            let kk = k as int;
            assert(p@ =~= old_p.insert(pos as int, k));
            assert forall|i: int| 0 <= i < old_p.len() implies items.take(kk)[old_p[i] as int] == items[old_p[i] as int] by {}
            assert forall|i: int| 0 <= i < pos implies le(items[(#[trigger] old_p[i]) as int], items[kk]) by {
                if i < pos - 1 {
                    assert(le(items.take(kk)[old_p[i] as int], items.take(kk)[old_p[pos - 1] as int]));
                }
            }
            assert forall|v: usize| v < next.len() implies #[trigger] p@.contains(v) by {
                if v == k {
                    assert(p@[pos as int] == v);
                } else {
                    assert(old_p.contains(v));
                    let q = choose|q: int| 0 <= q < old_p.len() && old_p[q] == v;
                    if q < pos {
                        assert(p@[q] == v);
                    } else {
                        assert(p@[q + 1] == v);
                    }
                }
            }
            assert forall|i: int, j: int| 0 <= i < j < p@.len() implies {
                &&& (#[trigger] p@[i]) != (#[trigger] p@[j])
                &&& le(next[p@[i] as int], next[p@[j] as int])
                &&& le(next[p@[j] as int], next[p@[i] as int]) ==> p@[i] < p@[j]
            } by {
                let oi = if i < pos { i } else { i - 1 };
                let oj = if j < pos { j } else { j - 1 };
                if i != pos && j != pos {
                    assert(p@[i] == old_p[oi] && p@[j] == old_p[oj]);
                    assert(le(items.take(kk)[old_p[oi] as int], items.take(kk)[old_p[oj] as int]));
                } else if i == pos {
                    assert(p@[j] == old_p[oj]);
                    assert(!le(items[old_p[oj] as int], items[kk]));
                    assert(le(items[kk], items[old_p[oj] as int]) || le(items[old_p[oj] as int], items[kk]));
                } else {
                    assert(p@[i] == old_p[oi]);
                    assert(le(items[old_p[oi] as int], items[kk]));
                }
            }
            assert(stable_order(p@, next, le));
        }
        k = k + 1;
    }
    proof {
        assert(items.take(n as int) =~= items);
    }
    p
}

/// Two stable orders of the same items are the same order.
pub proof fn stable_order_unique<T>(p: Seq<usize>, q: Seq<usize>, items: Seq<T>, le: spec_fn(T, T) -> bool)
    requires
        stable_order(p, items, le),
        stable_order(q, items, le),
        items.len() <= usize::MAX,
    ensures
        p == q,
{
    assert forall|k: int| 0 <= k < p.len() implies p.take(k) == q.take(k) by {
        stable_order_prefix(p, q, items, le, k);
    }
    if p.len() > 0 {
        stable_order_prefix(p, q, items, le, p.len() as int);
        assert(p.take(p.len() as int) =~= p);
        assert(q.take(q.len() as int) =~= q);
    } else {
        assert(p =~= q);
    }
}

proof fn stable_order_prefix<T>(
    p: Seq<usize>,
    q: Seq<usize>,
    items: Seq<T>,
    le: spec_fn(T, T) -> bool,
    k: int,
)
    requires
        stable_order(p, items, le),
        stable_order(q, items, le),
        items.len() <= usize::MAX,
        0 <= k <= p.len(),
    ensures
        p.take(k) == q.take(k),
    decreases k,
{
    if k == 0 {
        assert(p.take(0) =~= q.take(0));
    } else {
        let m = k - 1;
        stable_order_prefix(p, q, items, le, m);
        assert forall|i: int| 0 <= i < m implies p[i] == q[i] by {
            assert(p.take(m)[i] == q.take(m)[i]);
        }
        // The entry of `p` at `m` stands at some place of `q`, not before `m`;
        // and the other way round.
        assert(q.contains(p[m]));
        let b = choose|b: int| 0 <= b < q.len() && q[b] == p[m];
        assert(p.contains(q[m]));
        let a = choose|a: int| 0 <= a < p.len() && p[a] == q[m];
        if b < m {
            assert(p[b] == p[m]);
        }
        if a < m {
            assert(q[a] == q[m]);
        }
        if a != m && b != m {
            assert(le(items[p[m] as int], items[p[a] as int]));
            assert(le(items[q[m] as int], items[q[b] as int]));
            assert(p[m] < p[a]);
            assert(q[m] < q[b]);
        }
        assert(p[m] == q[m]);
        assert(p.take(k) =~= p.take(m).push(p[m]));
        assert(q.take(k) =~= q.take(m).push(q[m]));
    }
}

/// The lexicographic order of texts.
pub open spec fn alphabetical() -> spec_fn(Text, Text) -> bool {
    |a: Text, b: Text| text_le(a, b)
}

/// `list` in lexicographic order.
pub fn sort_texts(list: &Vec<String>) -> (r: Vec<String>)
    ensures
        stably_sorted(texts(r@), texts(list@), alphabetical()),
        texts(r@).to_set() == texts(list@).to_set(),
        r@.len() == list@.len(),
{
    let ghost items = texts(list@);
    let ghost le = alphabetical();
    proof {
        assert forall|i: int, j: int| 0 <= i < items.len() && 0 <= j < items.len() implies #[trigger] le(
            items[i],
            items[j],
        ) || le(items[j], items[i]) by {
            text_le_total(items[i], items[j]);
        }
        assert forall|i: int, j: int, k: int|
            0 <= i < items.len() && 0 <= j < items.len() && 0 <= k < items.len() && #[trigger] le(items[i], items[j])
                && #[trigger] le(items[j], items[k]) implies le(items[i], items[k]) by {
            text_le_transitive(items[i], items[j], items[k]);
        }
    }
    let before = |a: usize, b: usize| -> (r: bool)
        requires
            a < list@.len(),
            b < list@.len(),
        ensures
            r == text_le(list@[a as int]@, list@[b as int]@),
        { at_most(list[a].as_str(), list[b].as_str()) };
    proof {
        assert forall|a: usize, b: usize, r: bool|
            a < list@.len() && b < list@.len() && call_ensures(before, (a, b), r) implies r == le(
            items[a as int],
            items[b as int],
        ) by {
            assert(items[a as int] == list@[a as int]@);
            assert(items[b as int] == list@[b as int]@);
        }
    }
    let p = order_positions::<Text, _>(Ghost(items), Ghost(le), list.len(), before);
    let mut out: Vec<String> = Vec::new();
    let mut i: usize = 0;
    while i < p.len()
        invariant
            i <= p@.len(),
            items == texts(list@),
            stable_order(p@, items, le),
            texts(out@) == picked(items, p@).take(i as int),
        decreases p@.len() - i,
    {
        let ghost had = texts(out@);
        out.push(list[p[i]].clone());
        proof {
            let all = picked(items, p@);
            assert(texts(out@) =~= had.push(all[i as int]));
            assert(all.take(i + 1) =~= all.take(i as int).push(all[i as int]));
        }
        i = i + 1;
    }
    proof {
        let all = picked(items, p@);
        assert(all.take(p@.len() as int) =~= all);
        sorted_keeps_members(all, items, le);
    }
    out
}

/// Sorting keeps the members: what is sorted holds what was there, and no more.
pub proof fn sorted_keeps_members<T>(out: Seq<T>, items: Seq<T>, le: spec_fn(T, T) -> bool)
    requires
        stably_sorted(out, items, le),
        items.len() <= usize::MAX,
    ensures
        out.len() == items.len(),
        out.to_set() == items.to_set(),
        items.no_duplicates() ==> out.no_duplicates(),
{
    let p = choose|p: Seq<usize>| #[trigger] stable_order(p, items, le) && out == picked(items, p);
    assert forall|t: T| out.contains(t) == items.contains(t) by {
        if out.contains(t) {
            let i = choose|i: int| 0 <= i < out.len() && out[i] == t;
            assert(items[p[i] as int] == t);
        }
        if items.contains(t) {
            let i = choose|i: int| 0 <= i < items.len() && items[i] == t;
            assert(p.contains(i as usize));
            let k = choose|k: int| 0 <= k < p.len() && p[k] == i as usize;
            assert(out[k] == t);
        }
    }
    assert(out.to_set() =~= items.to_set());
    if items.no_duplicates() {
        assert forall|i: int, j: int| 0 <= i < out.len() && 0 <= j < out.len() && i != j implies out[i] != out[j] by {
            if i < j {
                assert(p[i] != p[j]);
            } else {
                assert(p[j] != p[i]);
            }
            assert(items[p[i] as int] != items[p[j] as int]);
        }
    }
}

/// Two lists that hold the same members, each once and in an order that tells
/// any two of them apart, are the same list.
pub proof fn sorted_lists_agree<T>(a: Seq<T>, b: Seq<T>, le: spec_fn(T, T) -> bool)
    requires
        a.no_duplicates(),
        b.no_duplicates(),
        forall|x: T| a.contains(x) == b.contains(x),
        forall|i: int, j: int| 0 <= i < j < a.len() ==> #[trigger] le(a[i], a[j]),
        forall|i: int, j: int| 0 <= i < j < b.len() ==> #[trigger] le(b[i], b[j]),
        forall|i: int, j: int|
            0 <= i < a.len() && 0 <= j < a.len() && #[trigger] le(a[i], a[j]) && le(a[j], a[i]) ==> a[i] == a[j],
    ensures
        a == b,
    decreases a.len(),
{
    if a.len() == 0 {
        if b.len() > 0 {
            assert(b.contains(b[0]));
            assert(a.contains(b[0]));
        }
        assert(a =~= b);
    } else {
        let x = a.last();
        assert(a.contains(x));
        let m = choose|m: int| 0 <= m < b.len() && b[m] == x;
        let y = b.last();
        assert(b.contains(y));
        let k = choose|k: int| 0 <= k < a.len() && a[k] == y;
        if m < b.len() - 1 {
            assert(le(b[m], b[b.len() - 1]));
            if k < a.len() - 1 {
                assert(le(a[k], a[a.len() - 1]));
                assert(le(a[a.len() - 1], a[k]));
            }
            assert(x == y);
            assert(b[m] == b[b.len() - 1]);
        }
        let p = a.drop_last();
        let q = b.drop_last();
        assert forall|z: T| p.contains(z) == q.contains(z) by {
            if p.contains(z) {
                let i = choose|i: int| 0 <= i < p.len() && p[i] == z;
                assert(a[i] == z);
                assert(a.contains(z));
                assert(b.contains(z));
                let j = choose|j: int| 0 <= j < b.len() && b[j] == z;
                if j == b.len() - 1 {
                    assert(a[i] == a[a.len() - 1]);
                }
                assert(q[j] == z);
            }
            if q.contains(z) {
                let i = choose|i: int| 0 <= i < q.len() && q[i] == z;
                assert(b[i] == z);
                assert(b.contains(z));
                assert(a.contains(z));
                let j = choose|j: int| 0 <= j < a.len() && a[j] == z;
                if j == a.len() - 1 {
                    assert(b[i] == b[b.len() - 1]);
                }
                assert(p[j] == z);
            }
        }
        assert forall|i: int, j: int| 0 <= i < j < p.len() implies #[trigger] le(p[i], p[j]) by {
            assert(le(a[i], a[j]));
        }
        assert forall|i: int, j: int| 0 <= i < j < q.len() implies #[trigger] le(q[i], q[j]) by {
            assert(le(b[i], b[j]));
        }
        assert forall|i: int, j: int|
            0 <= i < p.len() && 0 <= j < p.len() && #[trigger] le(p[i], p[j]) && le(p[j], p[i]) implies p[i] == p[j] by {
            assert(le(a[i], a[j]));
        }
        sorted_lists_agree(p, q, le);
        assert(a =~= p.push(x));
        assert(b =~= q.push(y));
    }
}

/// `list` holds the members of `set`, each once, in lexicographic order.
pub open spec fn listing(list: Seq<Text>, set: Set<Text>) -> bool {
    &&& list.no_duplicates()
    &&& list.to_set() == set
    &&& forall|i: int, j: int| 0 <= i <= j < list.len() ==> #[trigger] text_le(list[i], list[j])
}

/// A set has one listing.
pub proof fn listing_unique(a: Seq<Text>, b: Seq<Text>, set: Set<Text>)
    requires
        listing(a, set),
        listing(b, set),
    ensures
        a == b,
    decreases a.len(),
{
    a.unique_seq_to_set();
    b.unique_seq_to_set();
    if a.len() > 0 {
        let x = a.last();
        let y = b.last();
        assert(a.contains(x) && b.contains(y));
        assert(a.to_set().contains(x) && b.to_set().contains(y));
        let i = choose|i: int| 0 <= i < b.len() && b[i] == x;
        let j = choose|j: int| 0 <= j < a.len() && a[j] == y;
        assert(text_le(b[i], b[b.len() - 1]));
        assert(text_le(a[j], a[a.len() - 1]));
        text_le_antisymmetric(x, y);
        listing_drop_last(a, set);
        listing_drop_last(b, set);
        listing_unique(a.drop_last(), b.drop_last(), set.remove(x));
        assert(a =~= a.drop_last().push(x));
        assert(b =~= b.drop_last().push(y));
    } else {
        assert(a =~= b);
    }
}

proof fn listing_drop_last(a: Seq<Text>, set: Set<Text>)
    requires
        listing(a, set),
        a.len() > 0,
    ensures
        listing(a.drop_last(), set.remove(a.last())),
{
    let d = a.drop_last();
    assert forall|t: Text| d.to_set().contains(t) == set.remove(a.last()).contains(t) by {
        if d.contains(t) {
            let i = choose|i: int| 0 <= i < d.len() && d[i] == t;
            assert(a[i] == t);
            assert(a.to_set().contains(t));
        }
        if set.remove(a.last()).contains(t) {
            assert(a.to_set().contains(t));
            let i = choose|i: int| 0 <= i < a.len() && a[i] == t;
            assert(d[i] == t);
        }
    }
    assert(d.to_set() =~= set.remove(a.last()));
    assert forall|i: int, j: int| 0 <= i <= j < d.len() implies #[trigger] text_le(d[i], d[j]) by {
        assert(text_le(a[i], a[j]));
    }
}

/// The members of `list`, each once, in lexicographic order.
pub fn list_of(list: &Vec<String>) -> (r: Vec<String>)
    ensures
        listing(texts(r@), texts(list@).to_set()),
{
    let once = crate::dag::dedup(list);
    let sorted = sort_texts(&once);
    proof {
        crate::dag::firsts_hold(texts(list@));
        assert(once@.len() == once.len());
        sorted_keeps_members(texts(sorted@), texts(once@), alphabetical());
        assert(texts(once@).to_set() =~= texts(list@).to_set());
        let le = alphabetical();
        let p = choose|p: Seq<usize>|
            #[trigger] stable_order(p, texts(once@), le) && texts(sorted@) == picked(texts(once@), p);
        assert forall|a: int, b: int| 0 <= a <= b < sorted@.len() implies #[trigger] text_le(
            texts(sorted@)[a],
            texts(sorted@)[b],
        ) by {
            if a < b {
                assert(le(texts(once@)[p[a] as int], texts(once@)[p[b] as int]));
            } else {
                text_le_total(texts(sorted@)[a], texts(sorted@)[a]);
            }
        }
    }
    sorted
}

} // verus!
