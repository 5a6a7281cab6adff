# koma_source_sdk

The SDK for Koma manga sources, with the bundled sources built on it, as a
library whose behaviour is stated in contracts and proved.

A source answers the host's requests (search, manga details, chapters,
pages, listings, lists, home, filters, settings, image requests) with JSON
envelopes written into a result buffer. Everything a source computes on
bytes lives in the library: reading requests and the JSON, HTML and script
text that sites return, building the HTTP requests handed to the host,
classifying fetch failures, escaping and encoding, signing API calls, and
writing every answer.

## Layout

- `src/` – the library.
  - `json_utils.rs`: scanning JSON text, escaping, URL encoding, the
    byte writers every answer is made with.
  - `request.rs`, `envelope.rs`, `result.rs`: request fields, response
    envelopes and the result buffer the host reads answers from.
  - `fetch.rs`: HTTP request JSON for the host, decoding its replies and
    mapping status codes to errors; the transport retry policy.
  - `source.rs`: the `Source` trait and the dispatchers that answer each
    host call with the source's own result.
  - `pieces.rs`: writing runs of text, escaped and numeric pieces, and
    comma-joined lists.
  - `sources/`: the bundled sources (bh3, dm5, dongmanmanhua,
    example_demo, hanman18, happymh, iqiyi, jiuermanhua, manhuagui,
    manhuaren, manhuashe, mh1234) and what they share (`site.rs`,
    `text.rs`).
- `app/` – the glue that talks to the host: its imports, the buffers of
  an operation, fetching through the host and its HTML parser, and
  handing what comes back to the library.
- `tests/` – tests run against the library.
