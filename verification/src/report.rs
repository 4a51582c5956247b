//! Tables in plain text, with the columns lined up.

use vstd::prelude::*;
use vstd::string::*;

use crate::combo::text_lists;
use crate::explain::strings;
use crate::operators::{expected_rows, OperatorRankingRow};
use crate::plan::{rows_of, PlanNode};
use crate::ranking::{first_rows, NodeRankingRow};
use crate::step::{cost_text, seconds, seconds_text, show_cost};
use crate::text::{
    chars_of, decimal, decimal_text, decimal_wide, fixed_point, fixed_point_text, join, joined, round_div, rounded,
    texts, Text,
};

verus! {

/// The bytes that a character takes.
pub open spec fn char_bytes(c: char) -> nat {
    if (c as u32) < 0x80 {
        1
    } else if (c as u32) < 0x800 {
        2
    } else if (c as u32) < 0x10000 {
        3
    } else {
        4
    }
}

/// The bytes that the first `n` characters of a text take.
pub open spec fn bytes_of(s: Text, n: nat) -> nat
    decreases n,
{
    if n == 0 {
        0
    } else {
        bytes_of(s, (n - 1) as nat) + char_bytes(s[n - 1])
    }
}

/// How wide a cell asks its column to be: as many characters as it has bytes.
pub open spec fn cell_width(s: Text) -> nat {
    if bytes_of(s, s.len()) <= usize::MAX {
        bytes_of(s, s.len())
    } else {
        usize::MAX as nat
    }
}

fn width_of(s: &str) -> (r: usize)
    ensures
        r == cell_width(s@),
{
    let cs = chars_of(s);
    let mut total: usize = 0;
    let mut i: usize = 0;
    while i < cs.len()
        invariant
            i <= cs@.len(),
            cs@ == s@,
            total == (if bytes_of(s@, i as nat) <= usize::MAX {
                bytes_of(s@, i as nat)
            } else {
                usize::MAX as nat
            }),
        decreases cs@.len() - i,
    {
        let c = cs[i] as u32;
        let more: usize = if c < 0x80 {
            1
        } else if c < 0x800 {
            2
        } else if c < 0x10000 {
            3
        } else {
            4
        };
        if total <= usize::MAX - more {
            total = total + more;
        } else {
            total = usize::MAX;
        }
        i = i + 1;
    }
    total
}

/// The width of column `i`: that of its header or of its widest cell among the
/// first `n` rows.
pub open spec fn column_width(headers: Seq<Text>, rows: Seq<Seq<Text>>, i: int, n: nat) -> nat
    decreases n,
{
    if n == 0 {
        cell_width(headers[i])
    } else {
        let rest = column_width(headers, rows, i, (n - 1) as nat);
        let own = cell_width(rows[n - 1][i]);
        if own > rest {
            own
        } else {
            rest
        }
    }
}

/// `n` times the character `c`.
pub open spec fn run_of(c: char, n: nat) -> Text {
    Seq::new(n, |i: int| c)
}

/// A cell that stands at the left of its column, with two spaces behind it.
pub open spec fn padded(cell: Text, fill: char, width: nat) -> Text {
    let gap = if width > cell.len() {
        (width - cell.len()) as nat
    } else {
        0
    };
    cell + run_of(fill, gap) + "  "@
}

/// The first `n` cells of a line.
pub open spec fn line_of(cells: Seq<Text>, widths: Seq<nat>, n: nat) -> Text
    decreases n,
{
    if n == 0 {
        Seq::<char>::empty()
    } else {
        line_of(cells, widths, (n - 1) as nat) + padded(cells[n - 1], ' ', widths[n - 1])
    }
}

/// The first `n` columns of the line under the headers.
pub open spec fn rule_of(widths: Seq<nat>, n: nat) -> Text
    decreases n,
{
    if n == 0 {
        Seq::<char>::empty()
    } else {
        rule_of(widths, (n - 1) as nat) + padded(Seq::<char>::empty(), '-', widths[n - 1])
    }
}

/// The lines of the first `n` rows, each on a line of its own.
pub open spec fn body_of(rows: Seq<Seq<Text>>, widths: Seq<nat>, n: nat) -> Text
    decreases n,
{
    if n == 0 {
        Seq::<char>::empty()
    } else {
        body_of(rows, widths, (n - 1) as nat) + "\n"@ + line_of(rows[n - 1], widths, rows[n - 1].len())
    }
}

/// The widths of the columns.
pub open spec fn widths_of(headers: Seq<Text>, rows: Seq<Seq<Text>>) -> Seq<nat> {
    Seq::new(headers.len(), |i: int| column_width(headers, rows, i, rows.len()))
}

/// The whole table.
pub open spec fn aligned(headers: Seq<Text>, rows: Seq<Seq<Text>>) -> Text {
    let w = widths_of(headers, rows);
    line_of(headers, w, headers.len()) + "\n"@ + rule_of(w, headers.len()) + body_of(rows, w, rows.len())
}

fn append_padded(out: &mut String, cell: &str, fill: char, width: usize)
    ensures
        final(out)@ == old(out)@ + padded(cell@, fill, width as nat),
{
    let ghost before = out@;
    let count: usize = chars_of(cell).len();
    out.append(cell);
    let gap: usize = if width > count {
        width - count
    } else {
        0
    };
    let mut i: usize = 0;
    proof {
        assert(out@ =~= before + cell@ + run_of(fill, 0));
    }
    while i < gap
        invariant
            i <= gap,
            out@ == before + cell@ + run_of(fill, i as nat),
        decreases gap - i,
    {
        out.push(fill);
        proof {
            assert(out@ =~= before + cell@ + run_of(fill, (i + 1) as nat));
        }
        i = i + 1;
    }
    out.append("  ");
    proof {
        assert(out@ =~= before + padded(cell@, fill, width as nat));
    }
}

/// The numbers of a list.
spec fn numbers(s: Seq<usize>) -> Seq<nat> {
    s.map_values(|n: usize| n as nat)
}

fn append_line(out: &mut String, cells: &Vec<String>, widths: &Vec<usize>)
    requires
        cells@.len() == widths@.len(),
    ensures
        final(out)@ == old(out)@ + line_of(texts(cells@), numbers(widths@), cells@.len()),
{
    let ghost before = out@;
    let ghost all = texts(cells@);
    let ghost w = numbers(widths@);
    let mut i: usize = 0;
    proof {
        assert(out@ =~= before + line_of(all, w, 0));
    }
    while i < cells.len()
        invariant
            i <= cells@.len(),
            cells@.len() == widths@.len(),
            all == texts(cells@),
            w == numbers(widths@),
            out@ == before + line_of(all, w, i as nat),
        decreases cells@.len() - i,
    {
        append_padded(out, cells[i].as_str(), ' ', widths[i]);
        proof {
            assert(all[i as int] == cells@[i as int]@);
            assert(w[i as int] == widths@[i as int]);
            assert(out@ =~= before + line_of(all, w, (i + 1) as nat));
        }
        i = i + 1;
    }
}

/// The width of one column.
fn measure_column(headers: &Vec<String>, rows: &Vec<Vec<String>>, i: usize) -> (r: usize)
    requires
        i < headers@.len(),
        forall|k: int| 0 <= k < rows@.len() ==> (#[trigger] rows@[k])@.len() == headers@.len(),
    ensures
        r == column_width(texts(headers@), text_lists(rows@), i as int, rows@.len()),
{
    let ghost all = text_lists(rows@);
    let ghost names = texts(headers@);
    let mut best: usize = width_of(headers[i].as_str());
    let mut k: usize = 0;
    while k < rows.len()
        invariant
            k <= rows@.len(),
            i < headers@.len(),
            all == text_lists(rows@),
            names == texts(headers@),
            forall|j: int| 0 <= j < rows@.len() ==> (#[trigger] rows@[j])@.len() == headers@.len(),
            best == column_width(names, all, i as int, k as nat),
        decreases rows@.len() - k,
    {
        proof {
            assert(all[k as int] == texts(rows@[k as int]@));
            assert(rows@[k as int]@.len() == headers@.len());
        }
        let own = width_of(rows[k][i].as_str());
        if own > best {
            best = own;
        }
        k = k + 1;
    }
    best
}

/// A table in plain text, with the columns lined up.
pub fn format_table(headers: &Vec<String>, rows: &Vec<Vec<String>>) -> (r: String)
    requires
        forall|k: int| 0 <= k < rows@.len() ==> (#[trigger] rows@[k])@.len() == headers@.len(),
    ensures
        r@ == aligned(texts(headers@), text_lists(rows@)),
{
    let ghost names = texts(headers@);
    let ghost all = text_lists(rows@);
    let mut widths: Vec<usize> = Vec::new();
    let mut i: usize = 0;
    while i < headers.len()
        invariant
            i <= headers@.len(),
            names == texts(headers@),
            all == text_lists(rows@),
            forall|j: int| 0 <= j < rows@.len() ==> (#[trigger] rows@[j])@.len() == headers@.len(),
            widths@.len() == i,
            forall|j: int| 0 <= j < i ==> (#[trigger] widths@[j]) == column_width(names, all, j, rows@.len()),
        decreases headers@.len() - i,
    {
        widths.push(measure_column(headers, rows, i));
        i = i + 1;
    }
    let ghost w = widths_of(names, all);
    proof {
        assert(numbers(widths@) =~= w);
    }
    let mut out = String::new();
    append_line(&mut out, headers, &widths);
    out.append("\n");
    let ghost top = line_of(names, w, names.len()) + "\n"@;
    proof {
        assert(out@ =~= top);
        assert(out@ =~= top + rule_of(w, 0));
    }
    let mut j: usize = 0;
    while j < widths.len()
        invariant
            j <= widths@.len(),
            numbers(widths@) == w,
            out@ == top + rule_of(w, j as nat),
        decreases widths@.len() - j,
    {
        append_padded(&mut out, "", '-', widths[j]);
        proof {
            assert(w[j as int] == widths@[j as int]);
            reveal_strlit("");
            assert(""@ =~= Seq::<char>::empty());
            assert(out@ =~= top + rule_of(w, (j + 1) as nat));
        }
        j = j + 1;
    }
    let ghost head = top + rule_of(w, names.len());
    let mut k: usize = 0;
    proof {
        assert(out@ =~= head + body_of(all, w, 0));
    }
    while k < rows.len()
        invariant
            k <= rows@.len(),
            all == text_lists(rows@),
            numbers(widths@) == w,
            widths@.len() == headers@.len(),
            forall|j: int| 0 <= j < rows@.len() ==> (#[trigger] rows@[j])@.len() == headers@.len(),
            out@ == head + body_of(all, w, k as nat),
        decreases rows@.len() - k,
    {
        proof {
            assert(all[k as int] == texts(rows@[k as int]@));
            assert(rows@[k as int]@.len() == headers@.len());
        }
        out.append("\n");
        append_line(&mut out, &rows[k], &widths);
        proof {
            assert(out@ =~= head + body_of(all, w, (k + 1) as nat));
        }
        k = k + 1;
    }
    proof {
        assert(out@ =~= aligned(names, all));
    }
    out
}

/// What a View is ranked by, to four places.
pub open spec fn score_text(score: u128, timed: bool) -> Text {
    fixed_point(
        rounded(
            score as nat,
            if timed {
                100000000000000000
            } else {
                100000000
            },
        ),
        4,
    )
}

/// The rows that a View makes, to the nearest whole number.
pub open spec fn rows_text(cardinality: Option<u128>) -> Text {
    match cardinality {
        Some(c) => decimal(rounded(c as nat, 2)),
        None => "-"@,
    }
}

/// What a View is ranked by, to four places.
pub fn show_score(score: u128, timed: bool) -> (r: String)
    ensures
        r@ == score_text(score, timed),
{
    let unit: u128 = if timed {
        100000000000000000
    } else {
        100000000
    };
    fixed_point_text(round_div(score, unit), 4)
}

/// The rows that a View makes.
pub fn show_rows(cardinality: Option<u128>) -> (r: String)
    ensures
        r@ == rows_text(cardinality),
{
    match cardinality {
        Some(c) => decimal_wide(round_div(c, 2)),
        None => "-".to_owned(),
    }
}

/// A list in words, or a dash where it is empty.
pub open spec fn listed_text(list: Seq<Text>, sep: Text) -> Text {
    if list.len() == 0 {
        "-"@
    } else {
        joined(list, sep)
    }
}

/// A list in words, or a dash where it is empty.
pub fn show_list(list: &Vec<String>, sep: &str) -> (r: String)
    ensures
        r@ == listed_text(texts(list@), sep@),
{
    if list.len() == 0 {
        "-".to_owned()
    } else {
        join(list, sep)
    }
}

/// One View's line.
pub open spec fn node_cells(r: NodeRankingRow) -> Seq<Text> {
    seq![
        decimal(r.rank as nat),
        r.node@,
        cost_text(r.total, r.timed),
        rows_text(r.cardinality),
        score_text(r.score, r.timed),
    ]
}

/// The Views' lines.
pub open spec fn node_lines(rows: Seq<NodeRankingRow>) -> Seq<Seq<Text>> {
    rows.map_values(|r: NodeRankingRow| node_cells(r))
}

/// The headers over Views.
pub open spec fn node_headers() -> Seq<Text> {
    seq!["Rank"@, "Node"@, "Total CPU Time (s)"@, "Cardinality"@, "Ranking Score"@]
}

/// A ranking of Views in plain text.
pub fn format_node_table(rows: &Vec<NodeRankingRow>) -> (r: String)
    ensures
        r@ == aligned(node_headers(), node_lines(rows@)),
{
    let headers = strings(&["Rank", "Node", "Total CPU Time (s)", "Cardinality", "Ranking Score"]);
    proof {
        assert(texts(headers@) =~= node_headers());
    }
    let mut lines: Vec<Vec<String>> = Vec::new();
    let mut i: usize = 0;
    while i < rows.len()
        invariant
            i <= rows@.len(),
            lines@.len() == i,
            forall|k: int| 0 <= k < i ==> (#[trigger] lines@[k])@.len() == 5 && texts(lines@[k]@) == node_cells(rows@[k]),
        decreases rows@.len() - i,
    {
        let r = &rows[i];
        let mut cells: Vec<String> = Vec::new();
        cells.push(decimal_text(r.rank as u64));
        cells.push(r.node.clone());
        cells.push(show_cost(r.total, r.timed));
        cells.push(show_rows(r.cardinality));
        cells.push(show_score(r.score, r.timed));
        proof {
            assert(texts(cells@) =~= node_cells(*r));
        }
        lines.push(cells);
        i = i + 1;
    }
    proof {
        assert(text_lists(lines@) =~= node_lines(rows@));
        assert(texts(headers@).len() == headers@.len());
    }
    format_table(&headers, &lines)
}

/// One operator's line.
pub open spec fn operator_cells(r: OperatorRankingRow) -> Seq<Text> {
    seq![
        decimal(r.rank as nat),
        r.operator@,
        seconds_text(r.average as nat),
        decimal(r.table_occurrences as nat),
        listed_text(texts(r.traced_views@), ", "@),
    ]
}

/// The operators' lines.
pub open spec fn operator_lines(rows: Seq<OperatorRankingRow>) -> Seq<Seq<Text>> {
    rows.map_values(|r: OperatorRankingRow| operator_cells(r))
}

/// The headers over operators.
pub open spec fn operator_headers() -> Seq<Text> {
    seq!["Rank"@, "Operator"@, "Avg Runtime (s)"@, "Table Occurrences"@, "Traced View(s)"@]
}

/// A table of operators in plain text.
pub fn format_operator_table(rows: &Vec<OperatorRankingRow>) -> (r: String)
    ensures
        r@ == aligned(operator_headers(), operator_lines(rows@)),
{
    let headers = strings(&["Rank", "Operator", "Avg Runtime (s)", "Table Occurrences", "Traced View(s)"]);
    proof {
        assert(texts(headers@) =~= operator_headers());
    }
    let mut lines: Vec<Vec<String>> = Vec::new();
    let mut i: usize = 0;
    while i < rows.len()
        invariant
            i <= rows@.len(),
            lines@.len() == i,
            forall|k: int|
                0 <= k < i ==> (#[trigger] lines@[k])@.len() == 5 && texts(lines@[k]@) == operator_cells(rows@[k]),
        decreases rows@.len() - i,
    {
        let r = &rows[i];
        let mut cells: Vec<String> = Vec::new();
        cells.push(decimal_text(r.rank as u64));
        cells.push(r.operator.clone());
        cells.push(seconds(r.average));
        cells.push(decimal_text(r.table_occurrences as u64));
        cells.push(show_list(&r.traced_views, ", "));
        proof {
            assert(texts(cells@) =~= operator_cells(*r));
        }
        lines.push(cells);
        i = i + 1;
    }
    proof {
        assert(text_lists(lines@) =~= operator_lines(rows@));
        assert(texts(headers@).len() == headers@.len());
    }
    format_table(&headers, &lines)
}

/// A cell without letters of other scripts asks for as many characters as it
/// has.
pub proof fn plain_cells_fit(s: Text)
    requires
        forall|i: int| 0 <= i < s.len() ==> (#[trigger] s[i]) as u32 <= 0x7f,
        s.len() <= usize::MAX,
    ensures
        cell_width(s) == s.len(),
{
    plain_bytes(s, s.len());
}

proof fn plain_bytes(s: Text, n: nat)
    requires
        n <= s.len(),
        forall|i: int| 0 <= i < s.len() ==> (#[trigger] s[i]) as u32 <= 0x7f,
    ensures
        bytes_of(s, n) == n,
    decreases n,
{
    if n > 0 {
        plain_bytes(s, (n - 1) as nat);
    }
}

/// The bytes of two texts, one behind the other, add up; a character of ASCII
/// takes one.
pub proof fn every_character_takes_its_bytes(a: Text, b: Text)
    ensures
        bytes_of(a + b, (a + b).len()) == bytes_of(a, a.len()) + bytes_of(b, b.len()),
        a.len() == 1 ==> bytes_of(a, 1) == char_bytes(a[0]),
{
    bytes_behind(a, b, b.len());
    assert(bytes_of(a, 0) == 0);
}

/// The bytes of all of `a` and `n` characters of `b`.
proof fn bytes_behind(a: Text, b: Text, n: nat)
    requires
        n <= b.len(),
    ensures
        bytes_of(a + b, a.len() + n) == bytes_of(a, a.len()) + bytes_of(b, n),
    decreases n,
{
    if n == 0 {
        bytes_in_front(a, b, a.len());
    } else {
        bytes_behind(a, b, (n - 1) as nat);
        assert((a + b)[a.len() + n - 1] == b[n - 1]);
        assert((a.len() + n - 1) as nat == a.len() + (n - 1) as nat);
    }
}

/// The bytes of characters in front do not depend on those behind.
proof fn bytes_in_front(a: Text, b: Text, n: nat)
    requires
        n <= a.len(),
    ensures
        bytes_of(a + b, n) == bytes_of(a, n),
    decreases n,
{
    if n > 0 {
        bytes_in_front(a, b, (n - 1) as nat);
        assert((a + b)[n - 1] == a[n - 1]);
    }
}

/// A column is as wide as its header and as each of its cells at least, and as
/// one of them exactly.
pub proof fn a_column_is_as_wide_as_its_widest(headers: Seq<Text>, rows: Seq<Seq<Text>>, i: int, n: nat)
    requires
        n <= rows.len(),
    ensures
        column_width(headers, rows, i, n) >= cell_width(headers[i]),
        forall|k: int| 0 <= k < n ==> column_width(headers, rows, i, n) >= cell_width(#[trigger] rows[k][i]),
        column_width(headers, rows, i, n) == cell_width(headers[i]) || exists|k: int|
            0 <= k < n && column_width(headers, rows, i, n) == cell_width(#[trigger] rows[k][i]),
    decreases n,
{
    if n > 0 {
        a_column_is_as_wide_as_its_widest(headers, rows, i, (n - 1) as nat);
    }
}

/// A line has each cell at the left of a column of its own: `k` columns are
/// followed by the cell and by what is missing to the width, and by two spaces.
pub proof fn every_cell_is_on_its_line(cells: Seq<Text>, widths: Seq<nat>, a: nat, b: nat)
    requires
        a <= b <= cells.len(),
        b <= widths.len(),
    ensures
        line_of(cells, widths, a).len() <= line_of(cells, widths, b).len(),
        line_of(cells, widths, b).take(line_of(cells, widths, a).len() as int) == line_of(cells, widths, a),
        a < b && cells[a as int].len() <= widths[a as int] ==> line_of(cells, widths, a + 1).len() == line_of(
            cells,
            widths,
            a,
        ).len() + widths[a as int] + 2,
        a < b ==> line_of(cells, widths, a + 1).subrange(
            line_of(cells, widths, a).len() as int,
            line_of(cells, widths, a).len() as int + cells[a as int].len() as int,
        ) == cells[a as int],
    decreases b - a,
{
    reveal_strlit("  ");
    if a == b {
        assert(line_of(cells, widths, b).take(line_of(cells, widths, a).len() as int) =~= line_of(cells, widths, a));
    } else {
        every_cell_is_on_its_line(cells, widths, a + 1, b);
        let more = padded(cells[a as int], ' ', widths[a as int]);
        let first = line_of(cells, widths, a);
        let next = line_of(cells, widths, a + 1);
        let all = line_of(cells, widths, b);
        assert(next == first + more);
        assert(all.take(first.len() as int) =~= all.take(next.len() as int).take(first.len() as int));
        assert(next.take(first.len() as int) =~= first);
        assert(next.subrange(first.len() as int, first.len() as int + cells[a as int].len() as int) =~= cells[a as int]);
    }
}

/// A score that no cardinality divides reads like the cost itself.
pub proof fn an_undivided_score_reads_like_its_cost(total: u64, timed: bool)
    ensures
        score_text((total * 1000000000000) as u128, timed) == cost_text(total, timed),
{
    let score: nat = (total * 1000000000000) as nat;
    assert(total * 1000000000000 <= u128::MAX) by (nonlinear_arith)
        requires
            total <= u64::MAX,
    ;
    assert((total * 1000000000000) as u128 as nat == score);
    if timed {
        assert(score / 100000000000000000 == total as nat / 100000);
        assert(score % 100000000000000000 == (total as nat % 100000) * 1000000000000);
    } else {
        assert(score / 100000000 == total as nat * 10000);
        assert(score % 100000000 == 0);
    }
}

/// Twice a whole number of rows, as halves are counted, reads as that number.
pub proof fn whole_rows_read_as_they_are(rows: u64)
    ensures
        rows_text(Some((rows * 2) as u128)) == decimal(rows as nat),
{
    let halves: nat = (rows * 2) as nat;
    assert((rows * 2) as u128 as nat == halves);
    assert(halves / 2 == rows as nat && halves % 2 == 0);
}

/// A View's rows are shown as its plan's first root made them.
pub proof fn the_rows_of_a_plan_are_shown(roots: Seq<PlanNode>, n: u64)
    requires
        roots.len() > 0,
        rows_of(roots[0]) == Some(n),
    ensures
        rows_text(first_rows(roots)) == decimal(n as nat),
{
    whole_rows_read_as_they_are(n);
}

/// The rows that a plan was expected to make are shown as they were expected.
pub proof fn expected_rows_are_shown(roots: Seq<PlanNode>, n: u64)
    requires
        roots.len() > 0,
        roots[0].estimated_cardinality == Some(n),
    ensures
        rows_text(expected_rows(roots)) == decimal(n as nat),
{
    whole_rows_read_as_they_are(n);
}

} // verus!
