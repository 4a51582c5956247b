use dee::explain::{
    card, escape_html, render_bar_row, render_card_grid, render_explain_html, render_ranked_table, strings, Section,
};

#[test]
fn markup_characters_are_escaped() {
    assert_eq!(escape_html("a < b & \"c\" > 'd'"), "a &lt; b &amp; &quot;c&quot; &gt; &#039;d&#039;");
    assert_eq!(escape_html("plain"), "plain");
    assert_eq!(escape_html(""), "");
}

#[test]
fn tiles_show_their_values() {
    let html = render_card_grid(&vec![card("Runs", "3/8".to_string()), card("<b>", "&".to_string())]);
    assert!(html.contains("Runs"));
    assert!(html.contains("3/8"));
    assert!(html.contains("&lt;b&gt;"), "labels are escaped: {html}");
}

#[test]
fn a_table_has_its_headers_and_rows() {
    let html = render_ranked_table(&strings(&["A", "B"]), &vec![strings(&["1", "<2>"])]);
    assert!(html.contains("A") && html.contains("B"));
    assert!(html.contains("&lt;2&gt;"), "cells are escaped: {html}");
}

#[test]
fn a_bar_is_at_most_the_whole() {
    assert!(render_bar_row("x", "1 ms", 500).contains("width: 50.0%"));
    assert!(render_bar_row("x", "1 ms", 4000).contains("width: 100.0%"));
    assert!(render_bar_row("x", "1 ms", 0).contains("width: 0.0%"));
}

#[test]
fn a_report_has_a_tab_and_a_page_for_each_section() {
    let sections = vec![
        Section { label: "First".to_string(), html: "<p>one</p>".to_string() },
        Section { label: "Second".to_string(), html: "<p>two</p>".to_string() },
    ];
    let r = render_explain_html(&sections);
    assert!(r.tabs_html.contains("First") && r.tabs_html.contains("Second"));
    assert!(r.pages_html.contains("<p>one</p>") && r.pages_html.contains("<p>two</p>"));
}
