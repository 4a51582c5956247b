//! Strings as sequences of characters: comparison, splitting, trimming and
//! printing, each against a specification over `Seq<char>`.

use vstd::prelude::*;
use vstd::string::*;

verus! {

/// A string as the specifications see it.
pub type Text = Seq<char>;

/// The texts that a sequence of strings holds.
pub open spec fn texts(s: Seq<String>) -> Seq<Text> {
    s.map_values(|x: String| x@)
}

/// `String::push` appends one character.
pub assume_specification[ String::push ](s: &mut String, c: char)
    ensures
        final(s)@ == old(s)@.push(c),
;

/// The characters of `s`, in order.
pub fn chars_of(s: &str) -> (r: Vec<char>)
    ensures
        r@ == s@,
{
    let mut out: Vec<char> = Vec::new();
    for c in it: s.chars()
        invariant
            out@ == s@.take(it.index()),
            it.seq() == s@,
    {
        proof {
            assert(s@.take(it.index() + 1) =~= s@.take(it.index()).push(c));
        }
        out.push(c);
    }
    proof {
        assert(s@.take(s@.len() as int) =~= s@);
    }
    out
}

/// The string made of `v`'s characters from `from` up to `to`.
pub fn string_of(v: &Vec<char>, from: usize, to: usize) -> (r: String)
    requires
        from <= to <= v@.len(),
    ensures
        r@ == v@.subrange(from as int, to as int),
{
    let mut out = String::new();
    let mut i: usize = from;
    while i < to
        invariant
            from <= i <= to <= v@.len(),
            out@ == v@.subrange(from as int, i as int),
        decreases to - i,
    {
        proof {
            assert(v@.subrange(from as int, i + 1) =~= v@.subrange(from as int, i as int).push(v@[i as int]));
        }
        out.push(v[i]);
        i = i + 1;
    }
    out
}

/// The pieces of `s` between occurrences of `sep`: one more piece than there
/// are separators, so the empty text has one empty piece.
pub open spec fn split(s: Text, sep: char) -> Seq<Text>
    decreases s.len(),
{
    if s.len() == 0 {
        seq![Seq::<char>::empty()]
    } else {
        let rest = split(s.drop_last(), sep);
        if s.last() == sep {
            rest.push(Seq::<char>::empty())
        } else {
            rest.update(rest.len() - 1, rest.last().push(s.last()))
        }
    }
}

/// `s` split at every `sep`.
pub fn split_on(s: &str, sep: char) -> (r: Vec<String>)
    ensures
        texts(r@) == split(s@, sep),
        r@.len() >= 1,
{
    let cs = chars_of(s);
    let mut out: Vec<String> = Vec::new();
    let mut cur = String::new();
    let mut i: usize = 0;
    proof {
        assert(texts(out@).push(cur@) =~= seq![Seq::<char>::empty()]);
        assert(cs@.take(0) =~= Seq::<char>::empty());
    }
    while i < cs.len()
        invariant
            i <= cs@.len(),
            texts(out@).push(cur@) == split(cs@.take(i as int), sep),
        decreases cs@.len() - i,
    {
        let c = cs[i];
        proof {
            let t = cs@.take(i + 1);
            assert(t.drop_last() =~= cs@.take(i as int));
            assert(t.last() == c);
        }
        if c == sep {
            let ghost before = texts(out@).push(cur@);
            let piece = cur;
            out.push(piece);
            cur = String::new();
            proof {
                assert(texts(out@) =~= before);
                assert(texts(out@).push(cur@) =~= split(cs@.take(i + 1), sep));
            }
        } else {
            let ghost before = texts(out@).push(cur@);
            cur.push(c);
            proof {
                assert(texts(out@).push(cur@) =~= before.update(before.len() - 1, before.last().push(c)));
            }
        }
        i = i + 1;
    }
    let ghost before = texts(out@).push(cur@);
    out.push(cur);
    proof {
        assert(cs@.take(cs@.len() as int) =~= cs@);
        assert(texts(out@) =~= before);
    }
    out
}

/// The texts of `parts` with `sep` between each two.
pub open spec fn joined(parts: Seq<Text>, sep: Text) -> Text
    decreases parts.len(),
{
    if parts.len() == 0 {
        Seq::<char>::empty()
    } else if parts.len() == 1 {
        parts[0]
    } else {
        joined(parts.drop_last(), sep) + sep + parts.last()
    }
}

/// `parts` put together with `sep` between each two.
pub fn join(parts: &Vec<String>, sep: &str) -> (r: String)
    ensures
        r@ == joined(texts(parts@), sep@),
{
    let mut out = String::new();
    let mut i: usize = 0;
    while i < parts.len()
        invariant
            i <= parts@.len(),
            out@ == joined(texts(parts@).take(i as int), sep@),
        decreases parts@.len() - i,
    {
        proof {
            let t = texts(parts@).take(i + 1);
            assert(t.drop_last() =~= texts(parts@).take(i as int));
            assert(t.last() == parts@[i as int]@);
        }
        if i > 0 {
            out.append(sep);
        }
        out.append(parts[i].as_str());
        proof {
            if i == 0 {
                assert(out@ =~= parts@[0]@);
            }
        }
        i = i + 1;
    }
    proof {
        assert(texts(parts@).take(parts@.len() as int) =~= texts(parts@));
    }
    out
}

/// Two strings hold the same characters.
pub fn text_eq(a: &str, b: &str) -> (r: bool)
    ensures
        r == (a@ == b@),
{
    let ca = chars_of(a);
    let cb = chars_of(b);
    if ca.len() != cb.len() {
        return false;
    }
    let mut i: usize = 0;
    while i < ca.len()
        invariant
            i <= ca@.len() == cb@.len(),
            ca@ == a@,
            cb@ == b@,
            forall|k: int| 0 <= k < i ==> ca@[k] == cb@[k],
        decreases ca@.len() - i,
    {
        if ca[i] != cb[i] {
            return false;
        }
        i = i + 1;
    }
    proof {
        assert(a@ =~= b@);
    }
    true
}

/// Lexicographic order on texts, characters ordered by code point.
pub open spec fn text_le(a: Text, b: Text) -> bool
    decreases a.len(),
{
    if a.len() == 0 {
        true
    } else if b.len() == 0 {
        false
    } else if a[0] != b[0] {
        (a[0] as int) < (b[0] as int)
    } else {
        text_le(a.drop_first(), b.drop_first())
    }
}

/// Of two texts one is at most the other.
pub proof fn text_le_total(a: Text, b: Text)
    ensures
        text_le(a, b) || text_le(b, a),
    decreases a.len(),
{
    if a.len() > 0 && b.len() > 0 && a[0] == b[0] {
        text_le_total(a.drop_first(), b.drop_first());
    }
}

/// Texts that are each at most the other are equal.
pub proof fn text_le_antisymmetric(a: Text, b: Text)
    requires
        text_le(a, b),
        text_le(b, a),
    ensures
        a == b,
    decreases a.len(),
{
    if a.len() == 0 || b.len() == 0 {
        assert(a =~= b);
    } else {
        text_le_antisymmetric(a.drop_first(), b.drop_first());
        assert(a =~= seq![a[0]] + a.drop_first());
        assert(b =~= seq![b[0]] + b.drop_first());
    }
}

/// The order on texts is transitive.
pub proof fn text_le_transitive(a: Text, b: Text, c: Text)
    requires
        text_le(a, b),
        text_le(b, c),
    ensures
        text_le(a, c),
    decreases a.len(),
{
    if a.len() > 0 && b.len() > 0 && c.len() > 0 && a[0] == b[0] && b[0] == c[0] {
        text_le_transitive(a.drop_first(), b.drop_first(), c.drop_first());
    }
}

/// Whether `a` comes before `b` in lexicographic order, or is equal to it.
pub fn at_most(a: &str, b: &str) -> (r: bool)
    ensures
        r == text_le(a@, b@),
{
    let ca = chars_of(a);
    let cb = chars_of(b);
    let mut i: usize = 0;
    proof {
        assert(a@.skip(0) =~= a@);
        assert(b@.skip(0) =~= b@);
    }
    while i < ca.len() && i < cb.len()
        invariant
            i <= ca@.len(),
            i <= cb@.len(),
            ca@ == a@,
            cb@ == b@,
            text_le(a@, b@) == text_le(a@.skip(i as int), b@.skip(i as int)),
        decreases ca@.len() - i,
    {
        proof {
            assert(a@.skip(i as int).drop_first() =~= a@.skip(i + 1));
            assert(b@.skip(i as int).drop_first() =~= b@.skip(i + 1));
        }
        if ca[i] != cb[i] {
            return ca[i] < cb[i];
        }
        i = i + 1;
    }
    i == ca.len()
}

/// Lexicographic order on lists of texts.
pub open spec fn list_le(a: Seq<Text>, b: Seq<Text>) -> bool
    decreases a.len(),
{
    if a.len() == 0 {
        true
    } else if b.len() == 0 {
        false
    } else if a[0] != b[0] {
        text_le(a[0], b[0])
    } else {
        list_le(a.drop_first(), b.drop_first())
    }
}

/// Of two lists one is at most the other.
pub proof fn list_le_total(a: Seq<Text>, b: Seq<Text>)
    ensures
        list_le(a, b) || list_le(b, a),
    decreases a.len(),
{
    if a.len() > 0 && b.len() > 0 {
        if a[0] == b[0] {
            list_le_total(a.drop_first(), b.drop_first());
        } else {
            text_le_total(a[0], b[0]);
        }
    }
}

/// Lists that are each at most the other are equal.
pub proof fn list_le_antisymmetric(a: Seq<Text>, b: Seq<Text>)
    requires
        list_le(a, b),
        list_le(b, a),
    ensures
        a == b,
    decreases a.len(),
{
    if a.len() == 0 || b.len() == 0 {
        assert(a =~= b);
    } else if a[0] == b[0] {
        list_le_antisymmetric(a.drop_first(), b.drop_first());
        assert(a =~= seq![a[0]] + a.drop_first());
        assert(b =~= seq![b[0]] + b.drop_first());
    } else {
        text_le_antisymmetric(a[0], b[0]);
    }
}

/// The order on lists of texts is transitive.
pub proof fn list_le_transitive(a: Seq<Text>, b: Seq<Text>, c: Seq<Text>)
    requires
        list_le(a, b),
        list_le(b, c),
    ensures
        list_le(a, c),
    decreases a.len(),
{
    if a.len() > 0 && b.len() > 0 && c.len() > 0 {
        if a[0] == b[0] && b[0] == c[0] {
            list_le_transitive(a.drop_first(), b.drop_first(), c.drop_first());
        } else if a[0] != b[0] && b[0] != c[0] {
            text_le_transitive(a[0], b[0], c[0]);
            if a[0] == c[0] {
                text_le_antisymmetric(a[0], b[0]);
            }
        }
    }
}

/// Whether list `a` comes before list `b`, or is equal to it.
pub fn list_at_most(a: &Vec<String>, b: &Vec<String>) -> (r: bool)
    ensures
        r == list_le(texts(a@), texts(b@)),
{
    let ghost ta = texts(a@);
    let ghost tb = texts(b@);
    let mut i: usize = 0;
    proof {
        assert(ta.skip(0) =~= ta);
        assert(tb.skip(0) =~= tb);
    }
    while i < a.len() && i < b.len()
        invariant
            i <= a@.len(),
            i <= b@.len(),
            ta == texts(a@),
            tb == texts(b@),
            list_le(ta, tb) == list_le(ta.skip(i as int), tb.skip(i as int)),
        decreases a@.len() - i,
    {
        proof {
            assert(ta.skip(i as int).drop_first() =~= ta.skip(i + 1));
            assert(tb.skip(i as int).drop_first() =~= tb.skip(i + 1));
            assert(ta.skip(i as int)[0] == a@[i as int]@);
            assert(tb.skip(i as int)[0] == b@[i as int]@);
        }
        if a[i] != b[i] {
            return at_most(a[i].as_str(), b[i].as_str());
        }
        i = i + 1;
    }
    i == a.len()
}

/// Whether some string of `list` is `s`.
pub fn contains_text(list: &Vec<String>, s: &str) -> (r: bool)
    ensures
        r == texts(list@).contains(s@),
{
    let mut i: usize = 0;
    while i < list.len()
        invariant
            i <= list@.len(),
            forall|k: int| 0 <= k < i ==> list@[k]@ != s@,
        decreases list@.len() - i,
    {
        if text_eq(list[i].as_str(), s) {
            proof {
                assert(texts(list@)[i as int] == s@);
            }
            return true;
        }
        i = i + 1;
    }
    proof {
        assert forall|k: int| 0 <= k < texts(list@).len() implies texts(list@)[k] != s@ by {
            assert(texts(list@)[k] == list@[k]@);
        }
    }
    false
}

/// A copy of `list`.
pub fn copy_texts(list: &Vec<String>) -> (r: Vec<String>)
    ensures
        r@ == list@,
{
    let mut out: Vec<String> = Vec::new();
    let mut i: usize = 0;
    while i < list.len()
        invariant
            i <= list@.len(),
            out@ == list@.take(i as int),
        decreases list@.len() - i,
    {
        out.push(list[i].clone());
        i = i + 1;
        proof {
            assert(list@.take(i as int) =~= list@.take(i - 1).push(list@[i - 1]));
        }
    }
    proof {
        assert(list@.take(list@.len() as int) =~= list@);
    }
    out
}

/// `s` without the `c` characters at its start.
pub open spec fn trim_start(s: Text, c: char) -> Text
    decreases s.len(),
{
    if s.len() > 0 && s[0] == c {
        trim_start(s.drop_first(), c)
    } else {
        s
    }
}

/// `s` without the `c` characters at its end.
pub open spec fn trim_end(s: Text, c: char) -> Text
    decreases s.len(),
{
    if s.len() > 0 && s.last() == c {
        trim_end(s.drop_last(), c)
    } else {
        s
    }
}

/// `s` without the `c` characters at either end.
pub open spec fn trimmed(s: Text, c: char) -> Text {
    trim_end(trim_start(s, c), c)
}

/// `s` without the `c` characters at either end.
pub fn trim_matches(s: &str, c: char) -> (r: String)
    ensures
        r@ == trimmed(s@, c),
{
    let cs = chars_of(s);
    let mut from: usize = 0;
    proof {
        assert(cs@.skip(0) =~= cs@);
    }
    while from < cs.len() && cs[from] == c
        invariant
            from <= cs@.len(),
            trim_start(cs@, c) == trim_start(cs@.skip(from as int), c),
        decreases cs@.len() - from,
    {
        proof {
            assert(cs@.skip(from as int).drop_first() =~= cs@.skip(from + 1));
        }
        from = from + 1;
    }
    let mut to: usize = cs.len();
    proof {
        assert(trim_start(cs@, c) == cs@.skip(from as int));
        assert(cs@.subrange(from as int, to as int) =~= cs@.skip(from as int));
    }
    while to > from && cs[to - 1] == c
        invariant
            from <= to <= cs@.len(),
            trim_end(cs@.skip(from as int), c) == trim_end(cs@.subrange(from as int, to as int), c),
        decreases to,
    {
        proof {
            assert(cs@.subrange(from as int, to as int).drop_last() =~= cs@.subrange(from as int, to - 1));
        }
        to = to - 1;
    }
    string_of(&cs, from, to)
}

/// The ASCII lower case of a character; other characters stay.
pub open spec fn ascii_lower_char(c: char) -> char {
    if 'A' <= c && c <= 'Z' {
        (c as int + 32) as char
    } else {
        c
    }
}

/// `s` with its ASCII letters in lower case.
pub open spec fn ascii_lower(s: Text) -> Text {
    s.map_values(|c: char| ascii_lower_char(c))
}

/// The ASCII lower case of `c`.
fn lower_char(c: char) -> (r: char)
    ensures
        r == ascii_lower_char(c),
{
    if 'A' <= c && c <= 'Z' {
        (c as u8 + 32u8) as char
    } else {
        c
    }
}

/// `s` with its ASCII letters in lower case.
pub fn to_ascii_lower(s: &str) -> (r: String)
    ensures
        r@ == ascii_lower(s@),
{
    let cs = chars_of(s);
    let mut out = String::new();
    let mut i: usize = 0;
    while i < cs.len()
        invariant
            i <= cs@.len(),
            cs@ == s@,
            out@ == ascii_lower(cs@.take(i as int)),
        decreases cs@.len() - i,
    {
        out.push(lower_char(cs[i]));
        i = i + 1;
        proof {
            assert(ascii_lower(cs@.take(i as int)) =~= ascii_lower(cs@.take(i - 1)).push(ascii_lower_char(cs@[i - 1])));
        }
    }
    proof {
        assert(cs@.take(cs@.len() as int) =~= cs@);
    }
    out
}

/// Whether two texts are equal but for the case of ASCII letters.
pub open spec fn same_ignoring_case(a: Text, b: Text) -> bool {
    ascii_lower(a) == ascii_lower(b)
}

/// Whether `a` and `b` are equal but for the case of ASCII letters.
pub fn eq_ignore_ascii_case(a: &str, b: &str) -> (r: bool)
    ensures
        r == same_ignoring_case(a@, b@),
{
    let la = to_ascii_lower(a);
    let lb = to_ascii_lower(b);
    la == lb
}

/// The decimal digit of `d`.
pub open spec fn digit(d: nat) -> char {
    (48 + d) as char
}

/// `n` in decimal.
pub open spec fn decimal(n: nat) -> Text
    decreases n,
{
    if n < 10 {
        seq![digit(n)]
    } else {
        decimal(n / 10).push(digit(n % 10))
    }
}

/// `n` in decimal.
pub fn decimal_wide(n: u128) -> (r: String)
    ensures
        r@ == decimal(n as nat),
    decreases n,
{
    let mut out = if n < 10 {
        String::new()
    } else {
        decimal_wide(n / 10)
    };
    out.push(((n % 10) as u8 + 48u8) as char);
    proof {
        if n < 10 {
            assert(out@ =~= seq![digit(n as nat)]);
        }
    }
    out
}

/// `n` in decimal.
pub fn decimal_text(n: u64) -> (r: String)
    ensures
        r@ == decimal(n as nat),
{
    decimal_wide(n as u128)
}

/// Different numbers are written differently.
pub proof fn decimal_injective(a: nat, b: nat)
    requires
        decimal(a) == decimal(b),
    ensures
        a == b,
    decreases a,
{
    decimal_some(a / 10);
    decimal_some(b / 10);
    if a < 10 && b < 10 {
        assert(seq![digit(a)][0] == seq![digit(b)][0]);
        assert(digit(a) as nat == 48 + a);
        assert(digit(b) as nat == 48 + b);
    } else if a >= 10 && b >= 10 {
        let p = decimal(a / 10);
        let q = decimal(b / 10);
        assert(p.push(digit(a % 10)).drop_last() =~= p);
        assert(q.push(digit(b % 10)).drop_last() =~= q);
        assert(p.push(digit(a % 10)).last() == digit(a % 10));
        assert(q.push(digit(b % 10)).last() == digit(b % 10));
        assert(digit(a % 10) as nat == 48 + a % 10);
        assert(digit(b % 10) as nat == 48 + b % 10);
        decimal_injective(a / 10, b / 10);
        assert(a == 10 * (a / 10) + a % 10);
        assert(b == 10 * (b / 10) + b % 10);
    } else {
        assert(decimal(a).len() == decimal(b).len());
        assert(decimal(if a < 10 { a } else { b }).len() == 1);
        assert(decimal(if a < 10 { b } else { a }).len() > 1);
    }
}

proof fn decimal_some(n: nat)
    ensures
        decimal(n).len() > 0,
    decreases n,
{
    if n >= 10 {
        decimal_some(n / 10);
    }
}

/// `n` in decimal, with a minus sign where it is negative.
pub open spec fn signed_decimal(n: int) -> Text {
    if n < 0 {
        seq!['-'] + decimal((-n) as nat)
    } else {
        decimal(n as nat)
    }
}

/// `n` in decimal, with a minus sign where it is negative.
pub fn signed_decimal_text(n: i64) -> (r: String)
    ensures
        r@ == signed_decimal(n as int),
{
    if n < 0 {
        let size: u64 = if n == i64::MIN {
            9223372036854775808u64
        } else {
            (-n) as u64
        };
        let mut out = String::new();
        out.push('-');
        out.append(decimal_text(size).as_str());
        proof {
            assert(out@ =~= seq!['-'] + decimal((-n) as nat));
        }
        out
    } else {
        decimal_text(n as u64)
    }
}

/// Whether `pat` stands in `s` at position `i`.
pub open spec fn occurs_at(s: Text, pat: Text, i: int) -> bool {
    0 <= i && i + pat.len() <= s.len() && s.subrange(i, i + pat.len()) == pat
}

/// The last position, before `end`, at which `pat` stands in `s`.
pub open spec fn last_occurrence(s: Text, pat: Text, end: nat) -> Option<nat>
    decreases end,
{
    if end == 0 {
        None
    } else if occurs_at(s, pat, end - 1) {
        Some((end - 1) as nat)
    } else {
        last_occurrence(s, pat, (end - 1) as nat)
    }
}

/// The last `places` decimal digits of `n`, with leading zeros.
pub open spec fn last_digits(n: nat, places: nat) -> Text
    decreases places,
{
    if places == 0 {
        Seq::<char>::empty()
    } else {
        last_digits(n / 10, (places - 1) as nat).push(digit(n % 10))
    }
}

/// `n` without its last `places` decimal digits.
pub open spec fn shifted(n: nat, places: nat) -> nat
    decreases places,
{
    if places == 0 {
        n
    } else {
        shifted(n / 10, (places - 1) as nat)
    }
}

/// `n` counts the units of the `places`-th decimal place: the number that it
/// stands for, in decimal.
pub open spec fn fixed_point(n: nat, places: nat) -> Text {
    decimal(shifted(n, places)) + "."@ + last_digits(n, places)
}

fn last_digits_text(n: u128, places: u8) -> (r: String)
    ensures
        r@ == last_digits(n as nat, places as nat),
    decreases places,
{
    if places == 0 {
        String::new()
    } else {
        let mut out = last_digits_text(n / 10, places - 1);
        out.push(((n % 10) as u8 + 48u8) as char);
        out
    }
}

fn shift(n: u128, places: u8) -> (r: u128)
    ensures
        r == shifted(n as nat, places as nat),
    decreases places,
{
    if places == 0 {
        n
    } else {
        shift(n / 10, places - 1)
    }
}

/// A number of units of the `places`-th decimal place, in decimal.
pub fn fixed_point_text(n: u128, places: u8) -> (r: String)
    ensures
        r@ == fixed_point(n as nat, places as nat),
{
    let mut out = decimal_wide(shift(n, places));
    out.append(".");
    out.append(last_digits_text(n, places).as_str());
    out
}

/// `a / b` to the nearest whole number, and to the even one where it lies in
/// the middle between two.
pub open spec fn rounded(a: nat, b: nat) -> nat {
    let q = a / b;
    let r = a % b;
    if 2 * r < b || (2 * r == b && q % 2 == 0) {
        q
    } else {
        q + 1
    }
}

/// `a / b` to the nearest whole number, and to the even one where it lies in
/// the middle between two.
pub fn round_div(a: u128, b: u128) -> (r: u128)
    requires
        0 < b,
    ensures
        r == rounded(a as nat, b as nat),
        r <= a,
{
    let q: u128 = a / b;
    let rest: u128 = a % b;
    proof {
        vstd::arithmetic::div_mod::lemma_fundamental_div_mod(a as int, b as int);
        assert(q <= a) by (nonlinear_arith)
            requires
                a == b * q + rest,
                b > 0,
                rest >= 0,
        ;
        assert(rest > 0 ==> q < a) by (nonlinear_arith)
            requires
                a == b * q + rest,
                b > 0,
                rest >= 0,
        ;
    }
    if rest < b - rest || (rest == b - rest && q % 2 == 0) {
        q
    } else {
        q + 1
    }
}

/// A text is its pieces with the separator between them, and no piece has the
/// separator in it.
pub proof fn joining_undoes_splitting(s: Text, sep: char)
    ensures
        joined(split(s, sep), seq![sep]) == s,
        split(s, sep).len() >= 1,
        forall|i: int| 0 <= i < split(s, sep).len() ==> !(#[trigger] split(s, sep)[i]).contains(sep),
    decreases s.len(),
{
    let pieces = split(s, sep);
    if s.len() == 0 {
        assert(pieces[0] =~= s);
        assert(!Seq::<char>::empty().contains(sep));
    } else {
        let rest = split(s.drop_last(), sep);
        joining_undoes_splitting(s.drop_last(), sep);
        assert(s =~= s.drop_last().push(s.last()));
        if s.last() == sep {
            assert(pieces.drop_last() =~= rest);
            assert(joined(pieces, seq![sep]) =~= s);
            assert(!Seq::<char>::empty().contains(sep));
            assert forall|i: int| 0 <= i < pieces.len() implies !(#[trigger] pieces[i]).contains(sep) by {
                if i < rest.len() {
                    assert(pieces[i] == rest[i]);
                }
            }
        } else {
            let grown = rest.last().push(s.last());
            assert(pieces.drop_last() =~= rest.drop_last());
            assert(pieces.last() == grown);
            assert(joined(pieces, seq![sep]) =~= joined(rest, seq![sep]).push(s.last()));
            assert forall|i: int| 0 <= i < pieces.len() implies !(#[trigger] pieces[i]).contains(sep) by {
                if i < rest.len() - 1 {
                    assert(pieces[i] == rest[i]);
                } else {
                    assert(!rest[rest.len() - 1].contains(sep));
                    if grown.contains(sep) {
                        let k = choose|k: int| 0 <= k < grown.len() && grown[k] == sep;
                        assert(rest.last()[k] == sep);
                    }
                }
            }
        }
    }
}

/// A further part is joined behind the separator, and a single part stands
/// alone.
pub proof fn a_further_part_is_joined_on(parts: Seq<Text>, part: Text, sep: Text)
    ensures
        parts.len() > 0 ==> joined(parts.push(part), sep) == joined(parts, sep) + sep + part,
        joined(seq![part], sep) == part,
{
    assert(parts.push(part).drop_last() =~= parts);
}

/// The quotient is rounded by no more than half, and to the even number where
/// it lies in the middle.
pub proof fn rounded_is_the_nearest(a: nat, b: nat)
    requires
        b > 0,
    ensures
        2 * (rounded(a, b) * b) <= 2 * a + b,
        2 * a <= 2 * (rounded(a, b) * b) + b,
        2 * a + b == 2 * (rounded(a, b) * b) || 2 * a == 2 * (rounded(a, b) * b) + b ==> rounded(a, b) % 2 == 0,
{
    let q = a / b;
    let r = a % b;
    vstd::arithmetic::div_mod::lemma_fundamental_div_mod(a as int, b as int);
    assert(b * q == q * b) by (nonlinear_arith);
    assert((q + 1) * b == q * b + b) by (nonlinear_arith);
    if 2 * r == b && q % 2 != 0 {
        assert((q + 1) % 2 == 0);
    }
}

/// Nothing but the character asked for is taken off, all of it, from both ends.
pub proof fn trimming_takes_off_both_ends(s: Text, c: char) -> (ends: (int, int))
    ensures
        0 <= ends.0 <= ends.1 <= s.len(),
        trimmed(s, c) == s.subrange(ends.0, ends.1),
        forall|i: int| 0 <= i < ends.0 || ends.1 <= i < s.len() ==> #[trigger] s[i] == c,
        trimmed(s, c).len() > 0 ==> trimmed(s, c)[0] != c && trimmed(s, c).last() != c,
{
    let start = trim_start_at(s, c);
    let rest = trim_start(s, c);
    let end = trim_end_at(rest, c);
    assert(trimmed(s, c) =~= s.subrange(start, start + end));
    assert forall|i: int| 0 <= i < start || start + end <= i < s.len() implies #[trigger] s[i] == c by {
        if start <= i {
            assert(rest[i - start] == s[i]);
        }
    }
    if trimmed(s, c).len() > 0 {
        assert(trimmed(s, c)[0] == rest[0]);
    }
    (start, start + end)
}

/// How many characters are taken off the start.
proof fn trim_start_at(s: Text, c: char) -> (at: int)
    ensures
        0 <= at <= s.len(),
        trim_start(s, c) == s.subrange(at, s.len() as int),
        forall|i: int| 0 <= i < at ==> #[trigger] s[i] == c,
        at < s.len() ==> s[at] != c,
    decreases s.len(),
{
    if s.len() > 0 && s[0] == c {
        let at = trim_start_at(s.drop_first(), c);
        assert(trim_start(s, c) =~= s.subrange(at + 1, s.len() as int));
        assert forall|i: int| 0 <= i < at + 1 implies #[trigger] s[i] == c by {
            if i > 0 {
                assert(s.drop_first()[i - 1] == s[i]);
            }
        }
        if at + 1 < s.len() {
            assert(s.drop_first()[at] == s[at + 1]);
        }
        at + 1
    } else {
        assert(s.subrange(0, s.len() as int) =~= s);
        0
    }
}

/// Where the characters begin that are taken off the end.
proof fn trim_end_at(s: Text, c: char) -> (at: int)
    ensures
        0 <= at <= s.len(),
        trim_end(s, c) == s.subrange(0, at),
        forall|i: int| at <= i < s.len() ==> #[trigger] s[i] == c,
        at > 0 ==> s[at - 1] != c,
    decreases s.len(),
{
    if s.len() > 0 && s.last() == c {
        let at = trim_end_at(s.drop_last(), c);
        assert(trim_end(s, c) =~= s.subrange(0, at));
        assert forall|i: int| at <= i < s.len() implies #[trigger] s[i] == c by {
            if i < s.len() - 1 {
                assert(s.drop_last()[i] == s[i]);
            }
        }
        if at > 0 {
            assert(s.drop_last()[at - 1] == s[at - 1]);
        }
        at
    } else {
        assert(s.subrange(0, s.len() as int) =~= s);
        s.len() as int
    }
}

/// Of two texts that begin alike, the one with the earlier character behind
/// comes first; a text comes before those that go on from it.
pub proof fn the_first_difference_decides(p: Text, x: char, y: char, a: Text, b: Text)
    requires
        (x as int) < (y as int),
    ensures
        text_le(p + seq![x] + a, p + seq![y] + b),
        !text_le(p + seq![y] + b, p + seq![x] + a),
        text_le(p, p + a),
        a.len() > 0 ==> !text_le(p + a, p),
    decreases p.len(),
{
    let left = p + seq![x] + a;
    let right = p + seq![y] + b;
    if p.len() == 0 {
        assert(left[0] == x);
        assert(right[0] == y);
        assert(p + a =~= a);
    } else {
        let q = p.drop_first();
        the_first_difference_decides(q, x, y, a, b);
        assert(left.drop_first() =~= q + seq![x] + a);
        assert(right.drop_first() =~= q + seq![y] + b);
        assert((p + a).drop_first() =~= q + a);
        assert(left[0] == p[0]);
        assert(right[0] == p[0]);
        assert((p + a)[0] == p[0]);
    }
}

/// Of two lists of texts that begin alike, the one with the earlier text behind
/// comes first; a list comes before those that go on from it.
pub proof fn the_first_differing_text_decides(p: Seq<Text>, x: Text, y: Text, a: Seq<Text>, b: Seq<Text>)
    requires
        x != y,
        text_le(x, y),
    ensures
        list_le(p + seq![x] + a, p + seq![y] + b),
        !list_le(p + seq![y] + b, p + seq![x] + a),
        list_le(p, p + a),
        a.len() > 0 ==> !list_le(p + a, p),
    decreases p.len(),
{
    let left = p + seq![x] + a;
    let right = p + seq![y] + b;
    if p.len() == 0 {
        assert(left[0] == x);
        assert(right[0] == y);
        assert(p + a =~= a);
        if text_le(y, x) {
            text_le_antisymmetric(x, y);
        }
    } else {
        let q = p.drop_first();
        the_first_differing_text_decides(q, x, y, a, b);
        assert(left.drop_first() =~= q + seq![x] + a);
        assert(right.drop_first() =~= q + seq![y] + b);
        assert((p + a).drop_first() =~= q + a);
        assert(left[0] == p[0]);
        assert(right[0] == p[0]);
        assert((p + a)[0] == p[0]);
    }
}

/// Where a text occurs before `end`, its last occurrence is one, and none lies
/// behind it.
pub proof fn the_last_occurrence_is_the_last(s: Text, pat: Text, end: nat)
    ensures
        last_occurrence(s, pat, end) is Some ==> {
            let at = last_occurrence(s, pat, end)->0;
            &&& at < end
            &&& occurs_at(s, pat, at as int)
            &&& forall|i: int| at < i < end ==> !#[trigger] occurs_at(s, pat, i)
        },
        last_occurrence(s, pat, end) is None ==> forall|i: int| 0 <= i < end ==> !#[trigger] occurs_at(s, pat, i),
    decreases end,
{
    if end > 0 && !occurs_at(s, pat, end - 1) {
        the_last_occurrence_is_the_last(s, pat, (end - 1) as nat);
    }
}

/// Nothing stays of nothing, however many digits are taken off.
proof fn nothing_shifted(places: nat)
    ensures
        shifted(0, places) == 0,
    decreases places,
{
    if places > 0 {
        nothing_shifted((places - 1) as nat);
    }
}

/// A number with decimal places has the digits of the count: those before the
/// point, and then as many as there are places.
pub proof fn a_point_only_parts_the_digits(n: nat, places: nat)
    ensures
        last_digits(n, places).len() == places,
        fixed_point(n, places) == decimal(shifted(n, places)) + "."@ + last_digits(n, places),
        shifted(n, places) > 0 ==> decimal(n) == decimal(shifted(n, places)) + last_digits(n, places),
    decreases places,
{
    if places > 0 {
        a_point_only_parts_the_digits(n / 10, (places - 1) as nat);
        nothing_shifted((places - 1) as nat);
        if shifted(n, places) > 0 {
            assert(n >= 10);
            assert(decimal(n) =~= decimal(shifted(n, places)) + last_digits(n, places));
        }
    } else {
        assert(decimal(n) =~= decimal(n) + last_digits(n, 0));
    }
}

/// A text with a separator in it has the pieces before the separator and then
/// those behind it.
pub proof fn splitting_at_a_separator(a: Text, b: Text, sep: char)
    ensures
        split(a + seq![sep] + b, sep) == split(a, sep) + split(b, sep),
    decreases b.len(),
{
    let s = a + seq![sep] + b;
    joining_undoes_splitting(a, sep);
    joining_undoes_splitting(b, sep);
    if b.len() == 0 {
        assert(s.drop_last() =~= a);
        assert(split(s, sep) =~= split(a, sep) + split(b, sep));
    } else {
        splitting_at_a_separator(a, b.drop_last(), sep);
        joining_undoes_splitting(b.drop_last(), sep);
        assert(s.drop_last() =~= a + seq![sep] + b.drop_last());
        assert(split(s, sep) =~= split(a, sep) + split(b, sep));
    }
}

/// A text without the separator is one piece.
pub proof fn splitting_without_a_separator(s: Text, sep: char)
    ensures
        !s.contains(sep) ==> split(s, sep) == seq![s],
    decreases s.len(),
{
    if s.len() == 0 {
        assert(s =~= Seq::<char>::empty());
        assert(split(s, sep) =~= seq![s]);
    } else if !s.contains(sep) {
        let short = s.drop_last();
        assert forall|i: int| 0 <= i < short.len() implies short[i] != sep by {
            assert(short[i] == s[i]);
        }
        assert(!short.contains(sep));
        splitting_without_a_separator(short, sep);
        assert(s.last() == s[s.len() - 1]);
        assert(s =~= short.push(s.last()));
        assert(split(s, sep) =~= seq![s]);
    }
}

/// `c` is an upper-case letter of ASCII and `d` the same letter in lower case.
pub open spec fn cases_of_one_letter(c: char, d: char) -> bool {
    65 <= c as int <= 90 && d as int == c as int + 32
}

/// Texts are equal but for case exactly where they are so character by
/// character, and only letters of ASCII have a case.
pub proof fn only_the_case_of_letters_is_ignored(a: Text, b: Text)
    ensures
        same_ignoring_case(a, b) <==> a.len() == b.len() && forall|i: int|
            0 <= i < a.len() ==> #[trigger] a[i] == b[i] || cases_of_one_letter(a[i], b[i]) || cases_of_one_letter(
                b[i],
                a[i],
            ),
{
    if same_ignoring_case(a, b) {
        assert(ascii_lower(a).len() == ascii_lower(b).len());
        assert forall|i: int| 0 <= i < a.len() implies #[trigger] a[i] == b[i] || cases_of_one_letter(a[i], b[i])
            || cases_of_one_letter(b[i], a[i]) by {
            assert(ascii_lower(a)[i] == ascii_lower_char(a[i]));
            assert(ascii_lower(b)[i] == ascii_lower_char(b[i]));
        }
    }
    if a.len() == b.len() && forall|i: int|
        0 <= i < a.len() ==> #[trigger] a[i] == b[i] || cases_of_one_letter(a[i], b[i]) || cases_of_one_letter(b[i], a[i]) {
        assert(ascii_lower(a) =~= ascii_lower(b)) by {
            assert forall|i: int| 0 <= i < a.len() implies ascii_lower(a)[i] == ascii_lower(b)[i] by {
                assert(a[i] == b[i] || cases_of_one_letter(a[i], b[i]) || cases_of_one_letter(b[i], a[i]));
            }
        }
    }
}

} // verus!
