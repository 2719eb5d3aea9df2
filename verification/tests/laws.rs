use tageswort::quote::parse_tageswort_from_response;

fn parsed(text: &str) -> Option<(String, String)> {
    parse_tageswort_from_response(text.to_string()).ok().map(|tw| (tw.text, tw.link))
}

const BLOCK: &str = "Titel\nZitat eins\n\nZitat zwei\nAutor\n4711\n99";

#[test]
fn crlf_parses_like_lf() {
    assert_eq!(parsed(&BLOCK.replace('\n', "\r\n")), parsed(BLOCK));
    assert!(parsed(BLOCK).is_some());
    assert_eq!(parsed("a\r\n"), parsed("a\n"));
}

#[test]
fn final_newline_does_not_matter() {
    assert_eq!(parsed(&format!("{}\n", BLOCK)), parsed(BLOCK));
    assert_eq!(parsed("a\nb\nc\r\n"), parsed("a\nb\nc\r"));
}

#[test]
fn leading_blank_lines_do_not_matter() {
    assert_eq!(parsed(&format!(" \t\n\u{2003}\n{}", BLOCK)), parsed(BLOCK));
    assert_eq!(parsed(&format!("\n{}", "a\nb")), parsed("a\nb"));
}

#[test]
fn trailing_blank_lines_do_not_matter() {
    assert_eq!(parsed(&format!("{}\n \n\t", BLOCK)), parsed(&format!("{}\n", BLOCK)));
    assert_eq!(parsed(&format!("{}\n\n", BLOCK)), parsed(&format!("{}\n", BLOCK)));
}

#[test]
fn line_endings_around_the_block_do_not_matter() {
    for b1 in ["", "\n", "\r\n", "\n\r\n", "\r\n\r\n\n"] {
        for b2 in ["", "\n", "\r\n", "\n\r\n", "\r\n\n"] {
            assert_eq!(parsed(&format!("{}{}{}", b1, BLOCK, b2)), parsed(BLOCK));
            assert_eq!(parsed(&format!("{}{}{}", b1, "a\nb\n", b2)), parsed("a\nb\n"));
        }
    }
}
