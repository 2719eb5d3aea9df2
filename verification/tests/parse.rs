use tageswort::decode::decode_tageswort_response;
use tageswort::quote::{parse_tageswort_from_response, Tageswort, TageswortError};

fn sample_text() -> &'static str {
    "\
Dankbarkeit
Es ist schwer einzusehen, warum wir überschwänglich dankbar sein sollen für etwas, das wir nicht wollen, solange uns das, was wir wollen, vorenthalten wird.
Lisle de Vaux Matthewman
(1867 - 1903), Journalist und Schriftsteller
232285
11669
"
}

fn expected_text() -> &'static str {
    "Dankbarkeit\nEs ist schwer einzusehen, warum wir überschwänglich dankbar sein sollen für etwas, das wir nicht wollen, solange uns das, was wir wollen, vorenthalten wird.\nLisle de Vaux Matthewman\n(1867 - 1903), Journalist und Schriftsteller"
}

fn expected_display_text() -> &'static str {
    "Dankbarkeit\n\n> Es ist schwer einzusehen, warum wir überschwänglich dankbar sein sollen für etwas, das wir nicht wollen, solange uns das, was wir wollen, vorenthalten wird.\n\n— Lisle de Vaux Matthewman\n  (1867 - 1903), Journalist und Schriftsteller"
}

fn assert_sample_parse(text: String) {
    let tageswort = parse_tageswort_from_response(text).unwrap();
    assert_eq!(tageswort.text, expected_text());
    assert_eq!(tageswort.link, "https://aphorismen.de/zitat/232285");
}

#[test]
fn test_decode_tageswort_response() {
    let encoded = urlencoding::encode(sample_text()).into_owned();
    let decoded = decode_tageswort_response(&encoded).unwrap();
    assert_eq!(decoded, sample_text());
}

#[test]
fn test_parse_tageswort_from_response() {
    assert_sample_parse(String::from(sample_text()));
}

#[test]
fn test_parse_tageswort_without_trailing_newline() {
    assert_sample_parse(sample_text().trim_end_matches('\n').to_string());
}

#[test]
fn test_parse_tageswort_with_crlf_line_endings() {
    assert_sample_parse(sample_text().replace('\n', "\r\n"));
}

#[test]
fn test_parse_tageswort_ignores_outer_blank_lines() {
    let text = format!("\n\r\n{}\n\r\n", sample_text());
    assert_sample_parse(text);
}

#[test]
fn test_parse_tageswort_rejects_too_short_payload() {
    assert!(matches!(
        parse_tageswort_from_response("Dankbarkeit\n232285".to_string()),
        Err(TageswortError::ParseError)
    ));
}

#[test]
fn test_parse_tageswort_rejects_missing_link_footer() {
    let text = "\
Dankbarkeit
Es ist schwer einzusehen, warum wir überschwänglich dankbar sein sollen für etwas, das wir nicht wollen, solange uns das, was wir wollen, vorenthalten wird.
Lisle de Vaux Matthewman
(1867 - 1903), Journalist und Schriftsteller

11669
";
    assert!(matches!(
        parse_tageswort_from_response(text.to_string()),
        Err(TageswortError::ParseError)
    ));
}

#[test]
fn test_display_formats_title_quote_and_attribution() {
    let tageswort = parse_tageswort_from_response(sample_text().to_string()).unwrap();

    assert_eq!(tageswort.to_string(), expected_display_text());
}

#[test]
fn test_display_strips_html_break_variants() {
    let tageswort = Tageswort {
        text: "\
Leben
Hinweis:<br />
Zeile zwei<br/> und drei<br>
© KarlHeinz Karius
(*1935), Urheber, Mensch und Werbeberater"
            .to_string(),
        link: "https://aphorismen.de/zitat/213695".to_string(),
    };

    assert_eq!(
        tageswort.to_string(),
        "Leben\n\n> Hinweis:\n> Zeile zwei und drei\n\n— © KarlHeinz Karius\n  (*1935), Urheber, Mensch und Werbeberater"
    );
}

#[test]
fn decode_then_parse_gives_text_and_link() {
    let raw_body = "\
Dankbarkeit%0A\
Es%20ist%20schwer%20einzusehen%2C%20warum%20wir%20%C3%BCberschw%C3%A4nglich%20dankbar%20sein%20sollen%20f%C3%BCr%20etwas%2C%20das%20wir%20nicht%20wollen%2C%20solange%20uns%20das%2C%20was%20wir%20wollen%2C%20vorenthalten%20wird.%0A\
Lisle%20de%20Vaux%20Matthewman%0A\
%281867%20-%201903%29%2C%20Journalist%20und%20Schriftsteller%0A\
232285%0A\
11669%0A";
    let text = decode_tageswort_response(raw_body).unwrap();
    let tageswort = parse_tageswort_from_response(text).unwrap();
    assert_eq!(tageswort.to_string(), "Dankbarkeit\n\n> Es ist schwer einzusehen, warum wir überschwänglich dankbar sein sollen für etwas, das wir nicht wollen, solange uns das, was wir wollen, vorenthalten wird.\n\n— Lisle de Vaux Matthewman\n  (1867 - 1903), Journalist und Schriftsteller");
    assert_eq!(tageswort.link, "https://aphorismen.de/zitat/232285");
}

#[test]
fn parse_keeps_inner_blank_lines_and_untrimmed_id() {
    let tw = parse_tageswort_from_response("  \nTitel\n\nZitat\n  42 \nfooter\n \n".to_string()).unwrap();
    assert_eq!(tw.text, "Titel\n\nZitat");
    assert_eq!(tw.link, "https://aphorismen.de/zitat/  42 ");
}

#[test]
fn parse_three_lines_is_enough() {
    let tw = parse_tageswort_from_response("a\nb\nc".to_string()).unwrap();
    assert_eq!(tw.text, "a");
    assert_eq!(tw.link, "https://aphorismen.de/zitat/b");
}

#[test]
fn parse_rejects_empty_and_blank_input() {
    assert!(matches!(parse_tageswort_from_response(String::new()), Err(TageswortError::ParseError)));
    assert!(matches!(
        parse_tageswort_from_response(" \n\t\n\r\n".to_string()),
        Err(TageswortError::ParseError)
    ));
}

#[test]
fn parse_bare_carriage_return_stays_in_line() {
    // a lone `\r` does not end a line, and a final `\r` stays in the last line
    let tw = parse_tageswort_from_response("a\rb\nid\nfooter\r".to_string()).unwrap();
    assert_eq!(tw.text, "a\rb");
    assert_eq!(tw.link, "https://aphorismen.de/zitat/id");
}

#[test]
fn parse_rejects_whitespace_only_id() {
    assert!(matches!(
        parse_tageswort_from_response("a\nb\n\u{3000}\u{a0}\nfooter".to_string()),
        Err(TageswortError::ParseError)
    ));
}

#[test]
fn decode_keeps_plus_and_stray_percent() {
    assert_eq!(decode_tageswort_response("a+b").unwrap(), "a+b");
    assert_eq!(decode_tageswort_response("100%").unwrap(), "100%");
    assert_eq!(decode_tageswort_response("%4%41").unwrap(), "%4A");
    assert_eq!(decode_tageswort_response("%zz%2").unwrap(), "%zz%2");
    assert_eq!(decode_tageswort_response("%e2%80%94").unwrap(), "\u{2014}");
}

#[test]
fn decode_rejects_invalid_utf8() {
    assert!(matches!(decode_tageswort_response("%FF%FE"), Err(TageswortError::UrlEncoding(_))));
    assert!(matches!(decode_tageswort_response("ok%C3"), Err(TageswortError::UrlEncoding(_))));
}

#[test]
fn error_from_invalid_utf8_is_url_encoding() {
    let err = String::from_utf8(vec![0xc3]).unwrap_err();
    assert!(matches!(TageswortError::from(err), TageswortError::UrlEncoding(_)));
}
