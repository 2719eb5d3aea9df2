//! The decisions around a fetch of the daily word: what a fetched body
//! leads to, when today's cache is consulted and when the offline quote is
//! shown. The fetching, the clock and the cache files are the caller's.

use vstd::prelude::*;
use crate::quote::{
    OFFLINE_FALLBACK_QUOTE, Tageswort, TageswortError, offline_fallback_tageswort,
    parse_cached_tageswort, parse_spec, parse_tageswort_from_response,
};

verus! {

/// What follows a fetch.
pub enum FetchStep {
    /// The body parsed: `tageswort` is the answer, and `cache_text` is what to
    /// store as today's cache (a failure to store does not matter).
    Fetched { tageswort: Tageswort, cache_text: String },
    /// The answer is this error.
    Failed(TageswortError),
    /// The network failed: consult today's cache, then
    /// [`after_cache_read`] gives the answer.
    Offline,
}

/// The daily word given when the network failed and today's cache holds
/// `cached` (where it exists): the quote that the cache parses to, or else
/// the offline fallback, as text and link.
pub open spec fn offline_quote(cached: Option<Seq<char>>) -> (Seq<char>, Seq<char>) {
    match cached {
        Some(t) => match parse_spec(t) {
            Some(q) => q,
            None => (OFFLINE_FALLBACK_QUOTE@, Seq::<char>::empty()),
        },
        None => (OFFLINE_FALLBACK_QUOTE@, Seq::<char>::empty()),
    }
}

/// Decides what a fetch outcome leads to. A fetched body that parses is the
/// answer and is to be cached as fetched; one that does not parse is a
/// `ParseError`; a failed request (`Reqwest`) sends the caller to today's
/// cache; any other error is the answer as it is.
pub fn after_fetch(fetched: Result<String, TageswortError>) -> (step: FetchStep)
    ensures
        match fetched {
            Ok(t) => match parse_spec(t@) {
                Some((x, l)) => step matches FetchStep::Fetched { tageswort, cache_text } && tageswort.text@
                    == x && tageswort.link@ == l && cache_text@ == t@,
                None => step matches FetchStep::Failed(TageswortError::ParseError),
            },
            Err(TageswortError::Reqwest(_)) => step is Offline,
            Err(e) => step == FetchStep::Failed(e),
        },
{
    match fetched {
        Ok(text) => {
            match parse_tageswort_from_response(text.clone()) {
                Ok(tageswort) => FetchStep::Fetched { tageswort, cache_text: text },
                Err(e) => FetchStep::Failed(e),
            }
        },
        Err(TageswortError::Reqwest(_)) => FetchStep::Offline,
        Err(e) => FetchStep::Failed(e),
    }
}

/// The answer after a failed request, given what today's cache holds
/// (`None` where there is no cache or it cannot be read).
pub fn after_cache_read(cached: Option<String>) -> (r: Tageswort)
    ensures
        (r.text@, r.link@) == offline_quote(
            match cached {
                Some(t) => Some(t@),
                None => None,
            },
        ),
{
    match cached {
        Some(text) => match parse_cached_tageswort(text) {
            Some(tageswort) => tageswort,
            None => offline_fallback_tageswort(),
        },
        None => offline_fallback_tageswort(),
    }
}

} // verus!
