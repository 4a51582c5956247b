//! Constant row counts: what the arithmetic of a LIMIT or an OFFSET comes to,
//! and whether it can be worked out in machine numbers.

use vstd::prelude::*;

use crate::text::{chars_of, decimal, signed_decimal, text_eq, Text};

verus! {

/// One node of an expression, which stands before what lies below it.
#[derive(Debug)]
pub struct SqlNode {
    /// A literal as it is written; of any other node, its kind.
    pub text: String,
    /// How many nodes it is made of, itself among them.
    pub size: usize,
}

/// A node of an expression, as the specifications see it.
#[verifier::ext_equal]
pub struct SqlModel {
    pub text: Text,
    pub size: usize,
}

impl View for SqlNode {
    type V = SqlModel;

    open spec fn view(&self) -> SqlModel {
        SqlModel { text: self.text@, size: self.size }
    }
}

/// The nodes of a list.
pub open spec fn sql_models(s: Seq<SqlNode>) -> Seq<SqlModel> {
    s.map_values(|n: SqlNode| n@)
}

/// What an expression comes to when its constants are worked out in machine
/// numbers.
#[derive(Debug, Clone, Copy, PartialEq, Eq, Structural)]
pub enum Folded {
    /// It is not made of whole numbers alone, or it divides by zero.
    Open,
    Number(i64),
    /// A step leaves the machine numbers.
    Overflow,
}

/// The operators that are worked out.
#[derive(Debug, Clone, Copy, PartialEq, Eq, Structural)]
pub enum Operator {
    Add,
    Sub,
    Mul,
    Div,
}

/// A number where it is a machine number.
pub open spec fn machine_number(x: int) -> Folded {
    if i64::MIN <= x <= i64::MAX {
        Folded::Number(x as i64)
    } else {
        Folded::Overflow
    }
}

/// The quotient, rounded towards zero.
pub open spec fn quotient(x: int, y: int) -> int
    recommends
        y != 0,
{
    let size = (if x < 0 { -x } else { x }) / (if y < 0 { -y } else { y });
    if (x < 0) == (y < 0) {
        size
    } else {
        -size
    }
}

/// What two numbers come to.
pub open spec fn applied(op: Operator, x: i64, y: i64) -> Folded {
    match op {
        Operator::Add => machine_number(x + y),
        Operator::Sub => machine_number(x - y),
        Operator::Mul => machine_number(x * y),
        Operator::Div => if y == 0 {
            Folded::Open
        } else {
            machine_number(quotient(x as int, y as int))
        },
    }
}

/// What two operands come to. The second is not looked at where the first is
/// not a number.
pub open spec fn combined(op: Operator, left: Folded, right: Folded) -> Folded {
    match (left, right) {
        (Folded::Number(x), Folded::Number(y)) => applied(op, x, y),
        (Folded::Number(_), _) => right,
        _ => left,
    }
}

/// What a kind of node works out.
pub open spec fn operator_of(kind: Text) -> Option<Operator> {
    if kind == "add"@ {
        Some(Operator::Add)
    } else if kind == "sub"@ {
        Some(Operator::Sub)
    } else if kind == "mul"@ {
        Some(Operator::Mul)
    } else if kind == "div"@ {
        Some(Operator::Div)
    } else {
        None
    }
}

/// The character is a decimal digit.
pub open spec fn is_digit(c: char) -> bool {
    '0' as u32 <= c as u32 <= '9' as u32
}

/// The number that digits stand for.
pub open spec fn digits_value(s: Text) -> nat
    decreases s.len(),
{
    if s.len() == 0 {
        0
    } else {
        digits_value(s.drop_last()) * 10 + (s.last() as u32 - '0' as u32) as nat
    }
}

/// The digits of a number, behind its sign.
pub open spec fn unsigned(s: Text) -> Text {
    if s.len() > 0 && (s[0] == '-' || s[0] == '+') {
        s.skip(1)
    } else {
        s
    }
}

/// The machine number that a text is, in decimal digits and perhaps a sign.
pub open spec fn whole_number(s: Text) -> Option<i64> {
    let digits = unsigned(s);
    let value = if s.len() > 0 && s[0] == '-' {
        -digits_value(digits)
    } else {
        digits_value(digits) as int
    };
    if digits.len() > 0 && (forall|i: int| 0 <= i < digits.len() ==> is_digit(#[trigger] digits[i])) && i64::MIN <= value
        <= i64::MAX {
        Some(value as i64)
    } else {
        None
    }
}

/// Where the part that begins at `at` ends, if it lies before `end`.
pub open spec fn part_end(nodes: Seq<SqlModel>, at: int, end: int) -> int {
    if nodes[at].size == 0 {
        at + 1
    } else if at + nodes[at].size <= end {
        at + nodes[at].size
    } else {
        end
    }
}

/// What the expression of the nodes from `at` to `end` comes to.
pub open spec fn folded(nodes: Seq<SqlModel>, at: int, end: int) -> Folded
    decreases end - at,
{
    if at >= end {
        Folded::Open
    } else if nodes[at].text == "paren"@ {
        folded(nodes, at + 1, end)
    } else {
        match operator_of(nodes[at].text) {
            Some(op) => if at + 1 >= end {
                Folded::Open
            } else {
                let mid = part_end(nodes, at + 1, end);
                if at < mid <= end {
                    combined(op, folded(nodes, at + 1, mid), folded(nodes, mid, end))
                } else {
                    Folded::Open
                }
            },
            None => match whole_number(nodes[at].text) {
                Some(x) => Folded::Number(x),
                None => Folded::Open,
            },
        }
    }
}

/// The count can be worked out, or need not be.
pub open spec fn count_fits(nodes: Seq<SqlModel>) -> bool {
    folded(nodes, 0, nodes.len() as int) != Folded::Overflow
}

/// So can each of the parts from `at` to `end`.
pub open spec fn parts_fit(nodes: Seq<SqlModel>, at: int, end: int) -> bool
    decreases end - at,
{
    at >= end || {
        let next = part_end(nodes, at, end);
        folded(nodes, at, next) != Folded::Overflow && (next <= at || parts_fit(nodes, next, end))
    }
}

/// A node of this kind may hold a row count among its parts.
pub open spec fn holds_count(kind: Text) -> bool {
    kind == "union"@ || kind == "intersect"@ || kind == "except"@ || kind == "limit"@ || kind == "fetch"@ || kind == "show"@
}

/// The counts below the nodes that may hold one can be worked out.
pub open spec fn held_counts_fit(nodes: Seq<SqlModel>) -> bool {
    forall|i: int|
        0 <= i < nodes.len() && holds_count((#[trigger] nodes[i]).text) ==> parts_fit(
            nodes,
            i + 1,
            part_end(nodes, i, nodes.len() as int),
        )
}

proof fn digits_grow(s: Text, n: int)
    requires
        0 <= n <= s.len(),
        forall|i: int| 0 <= i < s.len() ==> is_digit(#[trigger] s[i]),
    ensures
        digits_value(s.take(n)) <= digits_value(s),
    decreases s.len() - n,
{
    if n == s.len() {
        assert(s.take(n) =~= s);
    } else {
        digits_grow(s, n + 1);
        assert(s.take(n + 1).drop_last() =~= s.take(n));
        assert(is_digit(s[n]));
    }
}

/// The machine number that a text is.
pub fn read_number(s: &str) -> (r: Option<i64>)
    ensures
        r == whole_number(s@),
{
    let chars = chars_of(s);
    let ghost digits = unsigned(s@);
    let signed = chars.len() > 0 && (chars[0] == '-' || chars[0] == '+');
    let negative = signed && chars[0] == '-';
    let from: usize = if signed {
        1
    } else {
        0
    };
    if chars.len() == from {
        return None;
    }
    let mut value: u128 = 0;
    let mut i: usize = from;
    proof {
        assert(digits.len() == chars@.len() - from);
        assert(digits.take(0) =~= Seq::<char>::empty());
    }
    while i < chars.len()
        invariant
            from <= i <= chars@.len(),
            chars@ == s@,
            digits == unsigned(s@),
            digits.len() == chars@.len() - from,
            forall|k: int| 0 <= k < digits.len() ==> #[trigger] digits[k] == chars@[from + k],
            forall|k: int| 0 <= k < i - from ==> is_digit(#[trigger] digits[k]),
            value == digits_value(digits.take(i - from)),
            value <= 9223372036854775808,
        decreases chars@.len() - i,
    {
        let c: u32 = chars[i] as u32;
        proof {
            assert(digits[i - from] == chars@[i as int]);
        }
        if c < '0' as u32 || c > '9' as u32 {
            return None;
        }
        proof {
            assert(digits.take(i - from + 1).drop_last() =~= digits.take(i - from));
            assert(digits.take(i - from + 1).last() == chars@[i as int]);
        }
        value = value * 10 + (c - '0' as u32) as u128;
        i = i + 1;
        if value > 9223372036854775808 {
            proof {
                if whole_number(s@) is Some {
                    digits_grow(digits, i - from);
                }
            }
            return None;
        }
    }
    proof {
        assert(digits.take(digits.len() as int) =~= digits);
    }
    if negative {
        Some((0i128 - value as i128) as i64)
    } else if value <= 9223372036854775807 {
        Some(value as i64)
    } else {
        None
    }
}

/// A number where it is a machine number.
fn fit(x: i128) -> (r: Folded)
    ensures
        r == machine_number(x as int),
{
    if x < i64::MIN as i128 || x > i64::MAX as i128 {
        Folded::Overflow
    } else {
        Folded::Number(x as i64)
    }
}

/// How large a number is.
fn magnitude(x: i64) -> (r: u128)
    ensures
        r == (if x < 0 { -x } else { x as int }),
        r <= 9223372036854775808,
{
    if x < 0 {
        (0i128 - x as i128) as u128
    } else {
        x as u128
    }
}

/// What two numbers come to.
fn apply(op: Operator, x: i64, y: i64) -> (r: Folded)
    ensures
        r == applied(op, x, y),
{
    match op {
        Operator::Add => fit(x as i128 + y as i128),
        Operator::Sub => fit(x as i128 - y as i128),
        Operator::Mul => {
            proof {
                assert(-(9223372036854775808 * 9223372036854775808) <= x * y <= 9223372036854775808 * 9223372036854775808)
                    by (nonlinear_arith)
                    requires
                        -9223372036854775808 <= x <= 9223372036854775807,
                        -9223372036854775808 <= y <= 9223372036854775807,
                ;
            }
            fit(x as i128 * y as i128)
        },
        Operator::Div => {
            if y == 0 {
                return Folded::Open;
            }
            let (a, b) = (magnitude(x), magnitude(y));
            let size: u128 = a / b;
            proof {
                assert(size <= a) by (nonlinear_arith)
                    requires
                        b >= 1,
                        a >= 0,
                        size == a as int / b as int,
                ;
            }
            if (x < 0) == (y < 0) {
                fit(size as i128)
            } else {
                fit(0 - size as i128)
            }
        },
    }
}

fn read_operator(kind: &str) -> (r: Option<Operator>)
    ensures
        r == operator_of(kind@),
{
    if text_eq(kind, "add") {
        Some(Operator::Add)
    } else if text_eq(kind, "sub") {
        Some(Operator::Sub)
    } else if text_eq(kind, "mul") {
        Some(Operator::Mul)
    } else if text_eq(kind, "div") {
        Some(Operator::Div)
    } else {
        None
    }
}

/// Where the part that begins at `at` ends.
fn end_of_part(nodes: &Vec<SqlNode>, at: usize, end: usize) -> (r: usize)
    requires
        at < end <= nodes@.len(),
    ensures
        r == part_end(sql_models(nodes@), at as int, end as int),
        at < r <= end,
{
    let size: usize = nodes[at].size;
    proof {
        assert(sql_models(nodes@)[at as int] == nodes@[at as int]@);
    }
    if size == 0 {
        at + 1
    } else if size <= end - at {
        at + size
    } else {
        end
    }
}

/// What the expression of the nodes from `at` to `end` comes to.
pub fn fold(nodes: &Vec<SqlNode>, at: usize, end: usize) -> (r: Folded)
    requires
        end <= nodes@.len(),
    ensures
        r == folded(sql_models(nodes@), at as int, end as int),
    decreases end - at,
{
    if at >= end {
        return Folded::Open;
    }
    let ghost all = sql_models(nodes@);
    proof {
        assert(all[at as int] == nodes@[at as int]@);
    }
    let text = nodes[at].text.as_str();
    if text_eq(text, "paren") {
        return fold(nodes, at + 1, end);
    }
    match read_operator(text) {
        Some(op) => {
            if at + 1 >= end {
                return Folded::Open;
            }
            let mid = end_of_part(nodes, at + 1, end);
            match fold(nodes, at + 1, mid) {
                Folded::Number(x) => match fold(nodes, mid, end) {
                    Folded::Number(y) => apply(op, x, y),
                    other => other,
                },
                other => other,
            }
        },
        None => match read_number(text) {
            Some(x) => Folded::Number(x),
            None => Folded::Open,
        },
    }
}

/// Whether each of the counts can be worked out.
pub fn all_counts_fit(counts: &Vec<Vec<SqlNode>>) -> (r: bool)
    ensures
        r == forall|i: int| 0 <= i < counts@.len() ==> count_fits(sql_models(#[trigger] counts@[i]@)),
{
    let mut i: usize = 0;
    while i < counts.len()
        invariant
            i <= counts@.len(),
            forall|k: int| 0 <= k < i ==> count_fits(sql_models(#[trigger] counts@[k]@)),
        decreases counts@.len() - i,
    {
        if let Folded::Overflow = fold(&counts[i], 0, counts[i].len()) {
            proof {
                assert(!count_fits(sql_models(counts@[i as int]@)));
            }
            return false;
        }
        i = i + 1;
    }
    true
}

/// Whether each of the parts from `at` to `end` can be worked out.
fn check_parts(nodes: &Vec<SqlNode>, at: usize, end: usize) -> (r: bool)
    requires
        end <= nodes@.len(),
    ensures
        r == parts_fit(sql_models(nodes@), at as int, end as int),
{
    let ghost all = sql_models(nodes@);
    let mut i: usize = at;
    while i < end
        invariant
            end <= nodes@.len(),
            all == sql_models(nodes@),
            parts_fit(all, at as int, end as int) == parts_fit(all, i as int, end as int),
        decreases end - i,
    {
        let next = end_of_part(nodes, i, end);
        if let Folded::Overflow = fold(nodes, i, next) {
            return false;
        }
        i = next;
    }
    true
}

fn may_hold_count(kind: &str) -> (r: bool)
    ensures
        r == holds_count(kind@),
{
    text_eq(kind, "union") || text_eq(kind, "intersect") || text_eq(kind, "except") || text_eq(kind, "limit") || text_eq(
        kind,
        "fetch",
    ) || text_eq(kind, "show")
}

/// Whether the counts below the nodes that may hold one can be worked out.
pub fn all_held_counts_fit(nodes: &Vec<SqlNode>) -> (r: bool)
    ensures
        r == held_counts_fit(sql_models(nodes@)),
{
    let ghost all = sql_models(nodes@);
    let mut i: usize = 0;
    while i < nodes.len()
        invariant
            i <= nodes@.len(),
            all == sql_models(nodes@),
            forall|k: int|
                0 <= k < i && holds_count((#[trigger] all[k]).text) ==> parts_fit(
                    all,
                    k + 1,
                    part_end(all, k, all.len() as int),
                ),
        decreases nodes@.len() - i,
    {
        proof {
            assert(all[i as int] == nodes@[i as int]@);
        }
        if may_hold_count(nodes[i].text.as_str()) {
            let end = end_of_part(nodes, i, nodes.len());
            if !check_parts(nodes, i + 1, end) {
                return false;
            }
        }
        i = i + 1;
    }
    true
}

/// The quotient is what division gives, towards zero: what is left over is
/// smaller than the divisor, and has the sign of what was divided.
pub proof fn a_quotient_leaves_less_than_the_divisor(x: int, y: int)
    requires
        y != 0,
    ensures
        x >= 0 ==> 0 <= x - quotient(x, y) * y,
        x <= 0 ==> x - quotient(x, y) * y <= 0,
        y > 0 ==> -y < x - quotient(x, y) * y < y,
        y < 0 ==> y < x - quotient(x, y) * y < -y,
{
    let a = if x < 0 { -x } else { x };
    let b = if y < 0 { -y } else { y };
    let size = a / b;
    vstd::arithmetic::div_mod::lemma_fundamental_div_mod(a, b);
    assert(b * size == size * b) by (nonlinear_arith);
    assert((-size) * y == -(size * y)) by (nonlinear_arith);
    assert(size * (-y) == -(size * y)) by (nonlinear_arith);
}

/// A number that is put in decimal is read as that number.
pub proof fn decimals_are_read_back(n: nat)
    ensures
        digits_value(decimal(n)) == n,
        decimal(n).len() > 0,
        forall|i: int| 0 <= i < decimal(n).len() ==> is_digit(#[trigger] decimal(n)[i]),
    decreases n,
{
    if n < 10 {
        assert(decimal(n).drop_last() =~= Seq::<char>::empty());
        assert(digits_value(decimal(n).drop_last()) == 0);
    } else {
        decimals_are_read_back(n / 10);
        let s = decimal(n);
        assert(s.drop_last() =~= decimal(n / 10));
        assert forall|i: int| 0 <= i < s.len() implies is_digit(#[trigger] s[i]) by {
            if i < s.len() - 1 {
                assert(s[i] == decimal(n / 10)[i]);
            }
        }
    }
}

/// A machine number is read back from its decimal text, with its sign.
pub proof fn whole_numbers_are_read_back(n: i64)
    ensures
        whole_number(signed_decimal(n as int)) == Some(n),
{
    if n < 0 {
        let size = (-n) as nat;
        decimals_are_read_back(size);
        let s = signed_decimal(n as int);
        assert(s[0] == '-');
        assert(unsigned(s) =~= decimal(size));
    } else {
        decimals_are_read_back(n as nat);
        let s = signed_decimal(n as int);
        assert(is_digit(s[0]));
        assert(unsigned(s) == s);
    }
}

/// The number that two operands come to: the sum, the difference or the product
/// where it is a machine number, and an overflow where it is not.
pub proof fn two_numbers_come_to_their_result(nodes: Seq<SqlModel>, at: int, end: int, x: i64, y: i64)
    requires
        0 <= at < at + 1 < end <= nodes.len(),
        at + 1 < part_end(nodes, at + 1, end) <= end,
        folded(nodes, at + 1, part_end(nodes, at + 1, end)) == Folded::Number(x),
        folded(nodes, part_end(nodes, at + 1, end), end) == Folded::Number(y),
    ensures
        nodes[at].text == "add"@ && i64::MIN <= x + y <= i64::MAX ==> folded(nodes, at, end) == Folded::Number(
            (x + y) as i64,
        ),
        nodes[at].text == "add"@ && !(i64::MIN <= x + y <= i64::MAX) ==> folded(nodes, at, end) is Overflow,
        nodes[at].text == "sub"@ && i64::MIN <= x - y <= i64::MAX ==> folded(nodes, at, end) == Folded::Number(
            (x - y) as i64,
        ),
        nodes[at].text == "sub"@ && !(i64::MIN <= x - y <= i64::MAX) ==> folded(nodes, at, end) is Overflow,
        nodes[at].text == "mul"@ && i64::MIN <= x * y <= i64::MAX ==> folded(nodes, at, end) == Folded::Number(
            (x * y) as i64,
        ),
        nodes[at].text == "mul"@ && !(i64::MIN <= x * y <= i64::MAX) ==> folded(nodes, at, end) is Overflow,
        nodes[at].text == "div"@ && y == 0 ==> folded(nodes, at, end) is Open,
        nodes[at].text == "div"@ && y == -1 && x == i64::MIN ==> folded(nodes, at, end) is Overflow,
{
    reveal_strlit("add");
    reveal_strlit("sub");
    reveal_strlit("mul");
    reveal_strlit("div");
    reveal_strlit("paren");
    assert("add"@.len() != "paren"@.len());
    assert("sub"@.len() != "paren"@.len());
    assert("mul"@.len() != "paren"@.len());
    assert("div"@.len() != "paren"@.len());
    assert("add"@[0] != "sub"@[0]);
    assert("add"@[0] != "mul"@[0]);
    assert("sub"@[0] != "mul"@[0]);
    assert("add"@[0] != "div"@[0]);
    assert("sub"@[0] != "div"@[0]);
    assert("mul"@[0] != "div"@[0]);
    if nodes[at].text == "div"@ && y == -1 && x == i64::MIN {
        a_quotient_leaves_less_than_the_divisor(x as int, y as int);
        assert(quotient(x as int, y as int) == -x) by {
            assert(quotient(x as int, y as int) * (-1) == -quotient(x as int, y as int)) by (nonlinear_arith);
        }
    }
}

/// Brackets do not change what stands in them, and a number is itself.
pub proof fn brackets_change_nothing(nodes: Seq<SqlModel>, at: int, end: int)
    requires
        0 <= at < end <= nodes.len(),
    ensures
        nodes[at].text == "paren"@ ==> folded(nodes, at, end) == folded(nodes, at + 1, end),
        nodes[at].text != "paren"@ && operator_of(nodes[at].text) is None && whole_number(nodes[at].text) is Some
            ==> folded(nodes, at, end) == Folded::Number(whole_number(nodes[at].text)->0),
{
}

} // verus!
