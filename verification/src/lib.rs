//! Fetching, parsing and formatting the daily word ("Tageswort") of aphorismen.de.
//!
//! The verified part of the crate holds the text logic: the line structure of a
//! response, its parsing into a quote and a link, the display layout, the
//! decoding of the percent-encoded body, and the decisions about cache and
//! offline fallback around a fetch.

pub mod chars;
pub mod lines;
pub mod quote;
pub mod display;
pub mod decode;
pub mod fetch;
pub mod cache;
pub mod laws;


pub use cache::cache_file_name;
pub use decode::decode_tageswort_response;
pub use display::format_tageswort_for_display;
pub use fetch::{after_cache_read, after_fetch, FetchStep};
pub use quote::{
    offline_fallback_tageswort, parse_cached_tageswort, parse_tageswort_from_response, Config,
    Tageswort, TageswortError,
};
