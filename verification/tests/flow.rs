use tageswort::fetch::{after_cache_read, after_fetch, FetchStep};
use tageswort::quote::{
    offline_fallback_tageswort, parse_cached_tageswort, Config, TageswortError, DEFAULT_URL,
    OFFLINE_FALLBACK_QUOTE,
};

const SAMPLE: &str = "Titel\nZitat\nAutor\nDetail\n232285\n11669\n";

#[test]
fn config_keeps_url_and_defaults() {
    assert_eq!(Config::new("https://example.invalid".to_string()).url(), "https://example.invalid");
    assert_eq!(Config::from_url_override(None).url(), "https://assets.aphorismen.de/tagesspruch/tageswort.txt");
    assert_eq!(Config::from_url_override(None).url(), DEFAULT_URL);
    assert_eq!(Config::from_url_override(Some("x".to_string())).url(), "x");
}

#[test]
fn offline_fallback_has_quote_and_no_link() {
    let tw = offline_fallback_tageswort();
    assert_eq!(tw.text, "No network today. The quote couldn't make the net work.");
    assert_eq!(tw.text, OFFLINE_FALLBACK_QUOTE);
    assert_eq!(tw.link, "");
}

#[test]
fn parse_cached_tageswort_treats_malformed_cache_as_miss() {
    assert!(parse_cached_tageswort("not enough lines".to_string()).is_none());
    let tw = parse_cached_tageswort(SAMPLE.to_string()).unwrap();
    assert_eq!(tw.link, "https://aphorismen.de/zitat/232285");
}

#[test]
fn fetched_quote_is_returned_and_cached() {
    match after_fetch(Ok(SAMPLE.to_string())) {
        FetchStep::Fetched { tageswort, cache_text } => {
            assert_eq!(tageswort.text, "Titel\nZitat\nAutor\nDetail");
            assert_eq!(tageswort.link, "https://aphorismen.de/zitat/232285");
            assert_eq!(cache_text, SAMPLE);
        }
        _ => panic!("expected a fetched quote"),
    }
}

#[test]
fn fetched_garbage_is_a_parse_error() {
    assert!(matches!(
        after_fetch(Ok("kaputt".to_string())),
        FetchStep::Failed(TageswortError::ParseError)
    ));
}

#[test]
fn network_failure_goes_offline() {
    assert!(matches!(
        after_fetch(Err(TageswortError::Reqwest("connection refused".to_string()))),
        FetchStep::Offline
    ));
}

#[test]
fn decoding_failure_is_passed_on() {
    let err = String::from_utf8(vec![0xff]).unwrap_err();
    assert!(matches!(
        after_fetch(Err(TageswortError::UrlEncoding(err))),
        FetchStep::Failed(TageswortError::UrlEncoding(_))
    ));
}

#[test]
fn offline_uses_todays_cache_then_fallback() {
    let tw = after_cache_read(Some(SAMPLE.to_string()));
    assert_eq!(tw.link, "https://aphorismen.de/zitat/232285");
    let tw = after_cache_read(Some("not enough lines".to_string()));
    assert_eq!(tw.text, OFFLINE_FALLBACK_QUOTE);
    assert_eq!(tw.link, "");
    let tw = after_cache_read(None);
    assert_eq!(tw.text, OFFLINE_FALLBACK_QUOTE);
}

#[test]
fn cached_fetch_reads_back_the_same_quote() {
    let (fetched, cached) = match after_fetch(Ok(SAMPLE.to_string())) {
        FetchStep::Fetched { tageswort, cache_text } => (tageswort, cache_text),
        _ => panic!("expected a fetched quote"),
    };
    let read_back = after_cache_read(Some(cached));
    assert_eq!(read_back.text, fetched.text);
    assert_eq!(read_back.link, fetched.link);
}
