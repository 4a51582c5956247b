//! The HTML that a pass explains itself with.

use vstd::prelude::*;
use vstd::string::*;

use crate::combo::text_lists;
use crate::text::{chars_of, decimal, decimal_text, fixed_point, fixed_point_text, texts, Text};

verus! {

/// What stands for a character in HTML text.
pub open spec fn escaped_char(c: char) -> Text {
    if c == '&' {
        "&amp;"@
    } else if c == '<' {
        "&lt;"@
    } else if c == '>' {
        "&gt;"@
    } else if c == '"' {
        "&quot;"@
    } else if c == '\'' {
        "&#039;"@
    } else {
        seq![c]
    }
}

/// `s` as HTML text.
pub open spec fn escaped(s: Text) -> Text
    decreases s.len(),
{
    if s.len() == 0 {
        s
    } else {
        escaped(s.drop_last()) + escaped_char(s.last())
    }
}

/// `text` as HTML text.
pub fn escape_html(text: &str) -> (r: String)
    ensures
        r@ == escaped(text@),
{
    let cs = chars_of(text);
    let mut out = String::new();
    let mut i: usize = 0;
    proof {
        assert(out@ =~= escaped(cs@.take(0)));
    }
    while i < cs.len()
        invariant
            i <= cs@.len(),
            out@ == escaped(cs@.take(i as int)),
        decreases cs@.len() - i,
    {
        let c = cs[i];
        proof {
            assert(cs@.take(i + 1).drop_last() =~= cs@.take(i as int));
            assert(cs@.take(i + 1).last() == c);
        }
        let ghost had = out@;
        if c == '&' {
            out.append("&amp;");
        } else if c == '<' {
            out.append("&lt;");
        } else if c == '>' {
            out.append("&gt;");
        } else if c == '"' {
            out.append("&quot;");
        } else if c == '\'' {
            out.append("&#039;");
        } else {
            out.push(c);
        }
        proof {
            assert(out@ =~= had + escaped_char(c));
        }
        i = i + 1;
    }
    proof {
        assert(cs@.take(cs@.len() as int) =~= cs@);
    }
    out
}

/// Nothing in the text ends a tag, begins one, or ends an attribute.
pub open spec fn inert(s: Text) -> bool {
    forall|i: int|
        0 <= i < s.len() ==> (#[trigger] s[i]) != '<' && s[i] != '>' && s[i] != '"' && s[i] != '\''
}

/// Escaped text can neither open nor close a tag or an attribute.
pub proof fn escaped_is_inert(s: Text)
    ensures
        inert(escaped(s)),
    decreases s.len(),
{
    if s.len() > 0 {
        escaped_is_inert(s.drop_last());
        reveal_strlit("&amp;");
        reveal_strlit("&lt;");
        reveal_strlit("&gt;");
        reveal_strlit("&quot;");
        reveal_strlit("&#039;");
        let head = escaped(s.drop_last());
        let tail = escaped_char(s.last());
        assert(inert(tail));
        assert forall|i: int| 0 <= i < escaped(s).len() implies (#[trigger] escaped(s)[i]) != '<' && escaped(s)[i] != '>'
            && escaped(s)[i] != '"' && escaped(s)[i] != '\'' by {
            if i < head.len() {
                assert(escaped(s)[i] == head[i]);
            } else {
                assert(escaped(s)[i] == tail[i - head.len()]);
            }
        }
    }
}

/// A label and what stands under it.
#[derive(Debug)]
pub struct Card {
    pub label: String,
    pub value: String,
}

impl View for Card {
    type V = (Text, Text);

    open spec fn view(&self) -> (Text, Text) {
        (self.label@, self.value@)
    }
}

/// A label and what stands under it.
pub fn card(label: &str, value: String) -> (r: Card)
    ensures
        r@ == (label@, value@),
{
    Card { label: label.to_owned(), value }
}

/// Labels and what stands under them.
pub open spec fn card_texts(cards: Seq<Card>) -> Seq<(Text, Text)> {
    cards.map_values(|c: Card| c@)
}

/// One tile.
pub open spec fn card_html(c: (Text, Text)) -> Text {
    "<div class=\"card\"><div class=\"label\">"@ + escaped(c.0) + "</div><div class=\"value\">"@ + escaped(c.1)
        + "</div></div>"@
}

/// The first `n` tiles.
pub open spec fn cards_html(cards: Seq<(Text, Text)>, n: nat) -> Text
    decreases n,
{
    if n == 0 {
        Seq::<char>::empty()
    } else {
        cards_html(cards, (n - 1) as nat) + card_html(cards[n - 1])
    }
}

/// A row of tiles.
pub open spec fn card_grid(cards: Seq<(Text, Text)>) -> Text {
    "<div class=\"summary\">"@ + cards_html(cards, cards.len()) + "</div>"@
}

/// A row of tiles.
pub fn render_card_grid(cards: &Vec<Card>) -> (r: String)
    ensures
        r@ == card_grid(card_texts(cards@)),
{
    let mut out = "<div class=\"summary\">".to_owned();
    let ghost start = out@;
    let ghost all = card_texts(cards@);
    let mut i: usize = 0;
    proof {
        assert(out@ =~= start + cards_html(all, 0));
    }
    while i < cards.len()
        invariant
            i <= cards@.len(),
            all == card_texts(cards@),
            out@ == start + cards_html(all, i as nat),
        decreases cards@.len() - i,
    {
        let ghost had = out@;
        out.append("<div class=\"card\"><div class=\"label\">");
        out.append(escape_html(cards[i].label.as_str()).as_str());
        out.append("</div><div class=\"value\">");
        out.append(escape_html(cards[i].value.as_str()).as_str());
        out.append("</div></div>");
        proof {
            assert(out@ =~= had + card_html(all[i as int]));
            assert(out@ =~= start + cards_html(all, (i + 1) as nat));
        }
        i = i + 1;
    }
    out.append("</div>");
    out
}

/// The first `n` cells, each between `open` and `close`.
pub open spec fn cells_html(cells: Seq<Text>, open: Text, close: Text, n: nat) -> Text
    decreases n,
{
    if n == 0 {
        Seq::<char>::empty()
    } else {
        cells_html(cells, open, close, (n - 1) as nat) + (open + escaped(cells[n - 1]) + close)
    }
}

/// The first `n` rows.
pub open spec fn rows_html(rows: Seq<Seq<Text>>, n: nat) -> Text
    decreases n,
{
    if n == 0 {
        Seq::<char>::empty()
    } else {
        rows_html(rows, (n - 1) as nat) + ("<tr class=\"compare-row\">"@ + cells_html(
            rows[n - 1],
            "<td>"@,
            "</td>"@,
            rows[n - 1].len(),
        ) + "</tr>"@)
    }
}

/// A data table.
pub open spec fn ranked_table(headers: Seq<Text>, rows: Seq<Seq<Text>>) -> Text {
    "<div class=\"svg-wrap\" style=\"padding: 0; overflow-x: auto;\">\n      <table class=\"compare-table\">\n        <thead><tr>"@
        + cells_html(headers, "<th>"@, "</th>"@, headers.len()) + "</tr></thead>\n        <tbody>"@ + rows_html(
        rows,
        rows.len(),
    ) + "</tbody>\n      </table>\n    </div>"@
}

/// The cells, each between `open` and `close`.
fn write_cells(cells: &Vec<String>, open: &str, close: &str) -> (r: String)
    ensures
        r@ == cells_html(texts(cells@), open@, close@, cells@.len()),
{
    let mut out = String::new();
    let mut i: usize = 0;
    proof {
        assert(out@ =~= cells_html(texts(cells@), open@, close@, 0));
    }
    while i < cells.len()
        invariant
            i <= cells@.len(),
            out@ == cells_html(texts(cells@), open@, close@, i as nat),
        decreases cells@.len() - i,
    {
        let ghost had = out@;
        out.append(open);
        out.append(escape_html(cells[i].as_str()).as_str());
        out.append(close);
        proof {
            assert(texts(cells@)[i as int] == cells@[i as int]@);
            assert(out@ =~= had + (open@ + escaped(cells@[i as int]@) + close@));
        }
        i = i + 1;
    }
    out
}

/// A data table.
pub fn render_ranked_table(headers: &Vec<String>, rows: &Vec<Vec<String>>) -> (r: String)
    ensures
        r@ == ranked_table(texts(headers@), text_lists(rows@)),
{
    let mut out =
        "<div class=\"svg-wrap\" style=\"padding: 0; overflow-x: auto;\">\n      <table class=\"compare-table\">\n        <thead><tr>".to_owned();
    out.append(write_cells(headers, "<th>", "</th>").as_str());
    out.append("</tr></thead>\n        <tbody>");
    let ghost start = out@;
    let ghost all = text_lists(rows@);
    let mut i: usize = 0;
    proof {
        assert(out@ =~= start + rows_html(all, 0));
    }
    while i < rows.len()
        invariant
            i <= rows@.len(),
            all == text_lists(rows@),
            out@ == start + rows_html(all, i as nat),
        decreases rows@.len() - i,
    {
        let ghost had = out@;
        out.append("<tr class=\"compare-row\">");
        out.append(write_cells(&rows[i], "<td>", "</td>").as_str());
        out.append("</tr>");
        proof {
            let row = "<tr class=\"compare-row\">"@ + cells_html(all[i as int], "<td>"@, "</td>"@, all[i as int].len())
                + "</tr>"@;
            assert(out@ =~= had + row);
            assert(out@ =~= start + rows_html(all, (i + 1) as nat));
        }
        i = i + 1;
    }
    out.append("</tbody>\n      </table>\n    </div>");
    out
}

/// A list of these headers.
pub fn strings(list: &[&str]) -> (r: Vec<String>)
    ensures
        r@.len() == list@.len(),
        forall|i: int| 0 <= i < list@.len() ==> (#[trigger] r@[i])@ == list@[i]@,
{
    let mut out: Vec<String> = Vec::new();
    let mut i: usize = 0;
    while i < list.len()
        invariant
            i <= list@.len(),
            out@.len() == i,
            forall|k: int| 0 <= k < i ==> (#[trigger] out@[k])@ == list@[k]@,
        decreases list@.len() - i,
    {
        out.push(list[i].to_owned());
        i = i + 1;
    }
    out
}

/// The width of a bar: no more than the whole, in tenths of a hundredth.
pub open spec fn bar_width(tenths: u64) -> nat {
    if tenths <= 1000 {
        tenths as nat
    } else {
        1000
    }
}

/// A labelled bar, `tenths` tenths of a hundredth of the whole wide.
pub open spec fn bar_row(label: Text, value_label: Text, tenths: u64) -> Text {
    "<div class=\"plan-header\" style=\"cursor: default;\">\n      <span class=\"plan-type\">"@ + escaped(label)
        + "</span>\n      <div class=\"plan-impact-wrap\"><div class=\"plan-impact-bar\" style=\"width: "@ + fixed_point(
        bar_width(tenths),
        1,
    ) + "%\"></div></div>\n      <span class=\"plan-timing\">"@ + escaped(value_label) + "</span>\n    </div>"@
}

/// A labelled bar, `tenths` tenths of a hundredth of the whole wide, and no
/// wider than the whole.
pub fn render_bar_row(label: &str, value_label: &str, tenths: u64) -> (r: String)
    ensures
        r@ == bar_row(label@, value_label@, tenths),
{
    let width: u64 = if tenths <= 1000 {
        tenths
    } else {
        1000
    };
    let mut out = "<div class=\"plan-header\" style=\"cursor: default;\">\n      <span class=\"plan-type\">".to_owned();
    out.append(escape_html(label).as_str());
    out.append("</span>\n      <div class=\"plan-impact-wrap\"><div class=\"plan-impact-bar\" style=\"width: ");
    out.append(fixed_point_text(width as u128, 1).as_str());
    out.append("%\"></div></div>\n      <span class=\"plan-timing\">");
    out.append(escape_html(value_label).as_str());
    out.append("</span>\n    </div>");
    out
}

/// What one pass explains: a label and its HTML.
#[derive(Debug)]
pub struct Section {
    pub label: String,
    pub html: String,
}

/// The parts of a report page.
#[derive(Debug)]
pub struct ExplainReport {
    pub title: String,
    pub heading: String,
    pub subheading: String,
    pub subtitle_html: String,
    pub tabs_html: String,
    pub pages_html: String,
}

/// The tab of section `i`.
pub open spec fn tab_html(s: Seq<Section>, i: int) -> Text {
    (if i == 0 {
        "<button class=\"tab active\" data-index=\""@
    } else {
        "<button class=\"tab\" data-index=\""@
    }) + decimal(i as nat) + "\">"@ + escaped(s[i].label@) + "</button>"@
}

/// The tabs of the first `n` sections.
pub open spec fn tabs_of(s: Seq<Section>, n: nat) -> Text
    decreases n,
{
    if n == 0 {
        Seq::<char>::empty()
    } else {
        tabs_of(s, (n - 1) as nat) + tab_html(s, n - 1)
    }
}

/// The page of section `i`.
pub open spec fn page_html(s: Seq<Section>, i: int) -> Text {
    (if i == 0 {
        "<section class=\"page active\" data-page=\""@
    } else {
        "<section class=\"page\" data-page=\""@
    }) + decimal(i as nat) + "\">"@ + s[i].html@ + "</section>"@
}

/// The pages of the first `n` sections.
pub open spec fn pages_of(s: Seq<Section>, n: nat) -> Text
    decreases n,
{
    if n == 0 {
        Seq::<char>::empty()
    } else {
        pages_of(s, (n - 1) as nat) + page_html(s, n - 1)
    }
}

/// The report of all passes, a tab and a page for each.
pub fn render_explain_html(sections: &Vec<Section>) -> (r: ExplainReport)
    ensures
        r.title@ == "dee optimizer explain"@,
        r.heading@ == "dee optimizer"@,
        r.subheading@ == "optimization report"@,
        r.subtitle_html@ == "<p>"@ + decimal(sections@.len()) + " optimizer pass(es) explained below.</p>"@,
        r.tabs_html@ == tabs_of(sections@, sections@.len()),
        r.pages_html@ == pages_of(sections@, sections@.len()),
{
    let mut tabs = String::new();
    let mut pages = String::new();
    let mut i: usize = 0;
    proof {
        assert(tabs@ =~= tabs_of(sections@, 0));
        assert(pages@ =~= pages_of(sections@, 0));
    }
    while i < sections.len()
        invariant
            i <= sections@.len(),
            tabs@ == tabs_of(sections@, i as nat),
            pages@ == pages_of(sections@, i as nat),
        decreases sections@.len() - i,
    {
        let ghost had_tabs = tabs@;
        let ghost had_pages = pages@;
        let at = decimal_text(i as u64);
        if i == 0 {
            tabs.append("<button class=\"tab active\" data-index=\"");
            pages.append("<section class=\"page active\" data-page=\"");
        } else {
            tabs.append("<button class=\"tab\" data-index=\"");
            pages.append("<section class=\"page\" data-page=\"");
        }
        tabs.append(at.as_str());
        tabs.append("\">");
        tabs.append(escape_html(sections[i].label.as_str()).as_str());
        tabs.append("</button>");
        pages.append(at.as_str());
        pages.append("\">");
        pages.append(sections[i].html.as_str());
        pages.append("</section>");
        proof {
            assert(tabs@ =~= had_tabs + tab_html(sections@, i as int));
            assert(pages@ =~= had_pages + page_html(sections@, i as int));
        }
        i = i + 1;
    }
    let mut subtitle = "<p>".to_owned();
    subtitle.append(decimal_text(sections.len() as u64).as_str());
    subtitle.append(" optimizer pass(es) explained below.</p>");
    ExplainReport {
        title: "dee optimizer explain".to_owned(),
        heading: "dee optimizer".to_owned(),
        subheading: "optimization report".to_owned(),
        subtitle_html: subtitle,
        tabs_html: tabs,
        pages_html: pages,
    }
}

/// Texts are escaped part by part.
pub proof fn escaping_is_part_by_part(a: Text, b: Text)
    ensures
        escaped(a + b) == escaped(a) + escaped(b),
        a.len() == 1 ==> escaped(a) == escaped_char(a[0]),
    decreases b.len(),
{
    if a.len() == 1 {
        assert(a.drop_last() =~= Seq::<char>::empty());
        assert(escaped(a.drop_last()) =~= Seq::<char>::empty());
        assert(a.last() == a[0]);
        assert(escaped(a) =~= escaped_char(a[0]));
    }
    if b.len() == 0 {
        assert(a + b =~= a);
        assert(escaped(a) + escaped(b) =~= escaped(a));
    } else {
        escaping_is_part_by_part(a, b.drop_last());
        assert((a + b).drop_last() =~= a + b.drop_last());
        assert(escaped(a + b) =~= escaped(a) + escaped(b));
    }
}

/// The first `n` tiles of a list are those of a longer one.
proof fn first_cards(cards: Seq<(Text, Text)>, more: Seq<(Text, Text)>, n: nat)
    requires
        n <= cards.len(),
    ensures
        cards_html(cards + more, n) == cards_html(cards, n),
    decreases n,
{
    if n > 0 {
        first_cards(cards, more, (n - 1) as nat);
        assert((cards + more)[n - 1] == cards[n - 1]);
    }
}

/// A further tile comes behind the others, with its label and its value.
pub proof fn a_further_tile_is_shown(cards: Seq<(Text, Text)>, label: Text, value: Text)
    ensures
        cards_html(cards.push((label, value)), cards.len() + 1) == cards_html(cards, cards.len())
            + "<div class=\"card\"><div class=\"label\">"@ + escaped(label) + "</div><div class=\"value\">"@ + escaped(value)
            + "</div></div>"@,
        cards_html(cards, 0) == Seq::<char>::empty(),
{
    first_cards(cards, seq![(label, value)], cards.len());
    assert(cards + seq![(label, value)] =~= cards.push((label, value)));
    assert(((cards.len() + 1) - 1) as nat == cards.len());
    let all = cards.push((label, value));
    assert(all[cards.len() as int] == (label, value));
    assert(cards_html(all, cards.len() + 1) == cards_html(all, cards.len()) + card_html((label, value)));
    assert(cards_html(all, cards.len() + 1) =~= cards_html(cards, cards.len())
        + "<div class=\"card\"><div class=\"label\">"@ + escaped(label) + "</div><div class=\"value\">"@ + escaped(value)
        + "</div></div>"@);
}

/// The first `n` cells of a row are those of a longer one.
proof fn first_cells(cells: Seq<Text>, more: Seq<Text>, open: Text, close: Text, n: nat)
    requires
        n <= cells.len(),
    ensures
        cells_html(cells + more, open, close, n) == cells_html(cells, open, close, n),
    decreases n,
{
    if n > 0 {
        first_cells(cells, more, open, close, (n - 1) as nat);
        assert((cells + more)[n - 1] == cells[n - 1]);
    }
}

/// A further cell comes behind the others.
pub proof fn a_further_cell_is_shown(cells: Seq<Text>, cell: Text, open: Text, close: Text)
    ensures
        cells_html(cells.push(cell), open, close, cells.len() + 1) == cells_html(cells, open, close, cells.len()) + open
            + escaped(cell) + close,
        cells_html(cells, open, close, 0) == Seq::<char>::empty(),
{
    first_cells(cells, seq![cell], open, close, cells.len());
    assert(cells + seq![cell] =~= cells.push(cell));
    assert(((cells.len() + 1) - 1) as nat == cells.len());
    assert(cells_html(cells.push(cell), open, close, cells.len() + 1) =~= cells_html(cells, open, close, cells.len())
        + open + escaped(cell) + close);
}

/// The first `n` rows of a table are those of a longer one.
proof fn first_rows(rows: Seq<Seq<Text>>, more: Seq<Seq<Text>>, n: nat)
    requires
        n <= rows.len(),
    ensures
        rows_html(rows + more, n) == rows_html(rows, n),
    decreases n,
{
    if n > 0 {
        first_rows(rows, more, (n - 1) as nat);
        assert((rows + more)[n - 1] == rows[n - 1]);
    }
}

/// A further row comes under the others, with all of its cells.
pub proof fn a_further_row_is_shown(rows: Seq<Seq<Text>>, row: Seq<Text>)
    ensures
        rows_html(rows.push(row), rows.len() + 1) == rows_html(rows, rows.len()) + "<tr class=\"compare-row\">"@
            + cells_html(row, "<td>"@, "</td>"@, row.len()) + "</tr>"@,
        rows_html(rows, 0) == Seq::<char>::empty(),
{
    first_rows(rows, seq![row], rows.len());
    assert(rows + seq![row] =~= rows.push(row));
    assert(((rows.len() + 1) - 1) as nat == rows.len());
    assert(rows_html(rows.push(row), rows.len() + 1) =~= rows_html(rows, rows.len()) + "<tr class=\"compare-row\">"@
        + cells_html(row, "<td>"@, "</td>"@, row.len()) + "</tr>"@);
}

/// The tabs and pages of the first sections do not depend on those behind.
proof fn first_sections(s: Seq<Section>, more: Seq<Section>, n: nat)
    requires
        n <= s.len(),
    ensures
        tabs_of(s + more, n) == tabs_of(s, n),
        pages_of(s + more, n) == pages_of(s, n),
    decreases n,
{
    if n > 0 {
        first_sections(s, more, (n - 1) as nat);
        assert((s + more)[n - 1] == s[n - 1]);
    }
}

/// A section behind another gets one tab and one page more, both under its
/// number, and neither is the open one.
pub proof fn a_further_section_gets_a_tab_and_a_page(s: Seq<Section>, section: Section)
    requires
        s.len() > 0,
    ensures
        tabs_of(s.push(section), s.len() + 1) == tabs_of(s, s.len()) + "<button class=\"tab\" data-index=\""@ + decimal(
            s.len(),
        ) + "\">"@ + escaped(section.label@) + "</button>"@,
        pages_of(s.push(section), s.len() + 1) == pages_of(s, s.len()) + "<section class=\"page\" data-page=\""@ + decimal(
            s.len(),
        ) + "\">"@ + section.html@ + "</section>"@,
{
    first_sections(s, seq![section], s.len());
    let all = s.push(section);
    assert(s + seq![section] =~= all);
    assert(((s.len() + 1) - 1) as nat == s.len());
    assert(all[s.len() as int] == section);
    assert((s.len() as int) as nat == s.len());
    assert(tabs_of(all, s.len() + 1) == tabs_of(all, s.len()) + tab_html(all, s.len() as int));
    assert(pages_of(all, s.len() + 1) == pages_of(all, s.len()) + page_html(all, s.len() as int));
    assert(tabs_of(all, s.len() + 1) =~= tabs_of(s, s.len()) + "<button class=\"tab\" data-index=\""@ + decimal(s.len())
        + "\">"@ + escaped(section.label@) + "</button>"@);
    assert(pages_of(all, s.len() + 1) =~= pages_of(s, s.len()) + "<section class=\"page\" data-page=\""@ + decimal(
        s.len(),
    ) + "\">"@ + section.html@ + "</section>"@);
}

/// The first section is the open one.
pub proof fn the_first_section_is_open(section: Section)
    ensures
        tabs_of(seq![section], 1) == "<button class=\"tab active\" data-index=\""@ + decimal(0) + "\">"@ + escaped(
            section.label@,
        ) + "</button>"@,
        pages_of(seq![section], 1) == "<section class=\"page active\" data-page=\""@ + decimal(0) + "\">"@ + section.html@
            + "</section>"@,
{
    let all = seq![section];
    assert(tabs_of(all, 0) == Seq::<char>::empty());
    assert(pages_of(all, 0) == Seq::<char>::empty());
    assert(tabs_of(all, 1) =~= tab_html(all, 0));
    assert(pages_of(all, 1) =~= page_html(all, 0));
}

} // verus!
