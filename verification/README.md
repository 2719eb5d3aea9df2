# tageswort

Fetches the daily word ("Tageswort") from aphorismen.de, parses it into a
quote text and a link, and prints it for the terminal. A successful fetch is
cached for the day; when the network fails, today's cache is used, and
without one a built-in offline quote.

Layout:

- `src/` is the library, verified with Verus:
  - `chars.rs`: whitespace, blank lines, characters of strings;
  - `lines.rs`: the line structure of a text (as `str::lines` sees it);
  - `quote.rs`: `Config`, `Tageswort`, `TageswortError`, and the parser of a
    decoded response;
  - `display.rs`: removing HTML line breaks and the terminal layout;
  - `decode.rs`: percent-decoding of the response body (through
    `urlencoding`);
  - `fetch.rs`: what a fetch outcome leads to (answer, cache, offline);
  - `cache.rs`: the name of a day's cache file (`YYYY-MM-DD.txt`);
  - `laws.rs`: properties of parsing across inputs.
- `app/main.rs` is the command: the request (`reqwest`), the date (`chrono`),
  the cache directory (`dirs`), the cache files and the environment.
- `tests/` runs the library on concrete inputs.

The request itself (`request_tageswort`, `get_tageswort`) lives in the
command, not in the library: a library user that has a response body calls
`decode_tageswort_response` and `parse_tageswort_from_response`, and drives a
fetch with `after_fetch` and `after_cache_read`.
