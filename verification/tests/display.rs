use tageswort::chars::is_whitespace_char;
use tageswort::display::{format_tageswort_for_display, strip_html_break_tags};
use tageswort::quote::Tageswort;

fn shown(text: &str) -> String {
    Tageswort { text: text.to_string(), link: String::new() }.to_string()
}

#[test]
fn display_short_text_is_shown_as_is() {
    assert_eq!(shown("eins\nzwei<br>\ndrei"), "eins\nzwei\ndrei");
    assert_eq!(shown(""), "");
}

#[test]
fn display_blank_title_falls_back_to_plain_text() {
    assert_eq!(shown("<br>\nq\nname\ndetail"), "\nq\nname\ndetail");
}

#[test]
fn display_omits_blank_details() {
    assert_eq!(shown("T\nq1\nq2\nAutor\n  "), "T\n\n> q1\n> q2\n\n\u{2014} Autor");
    assert_eq!(shown("T\nq1\nAutor\n<br/>"), "T\n\n> q1\n\n\u{2014} Autor");
}

#[test]
fn display_uses_lines_with_crlf() {
    assert_eq!(shown("T\r\nq\r\nA\r\nD\r\n"), "T\n\n> q\n\n\u{2014} A\n  D");
}

#[test]
fn format_function_matches_method() {
    let text = "T\nq\nA\nD";
    assert_eq!(format_tageswort_for_display(text), shown(text));
}

#[test]
fn strip_breaks_applies_patterns_in_order() {
    assert_eq!(strip_html_break_tags("a<br />b<br/>c<br>d"), "abcd");
    // each removal is a single pass: what it leaves behind is not removed again
    assert_eq!(strip_html_break_tags("<br<br/> />"), "<br />");
    assert_eq!(strip_html_break_tags("<b<br>r>"), "<br>");
    // an earlier pattern is removed before a later one can match inside it
    assert_eq!(strip_html_break_tags("<br<br>/>"), "<br/>");
    assert_eq!(strip_html_break_tags("<BR>"), "<BR>");
}

#[test]
fn whitespace_agrees_with_std() {
    for c in (0u32..=0x10FFFF).filter_map(char::from_u32) {
        assert_eq!(is_whitespace_char(c), c.is_whitespace(), "{:?}", c);
    }
}
