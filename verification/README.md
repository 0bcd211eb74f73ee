# anycubic

Verified building blocks for writing Anycubic resin-printer slice files.

- `src/cursor.rs` — an in-memory, seekable byte sink.
- `src/aff_layout.rs` — AFF container primitives (little-endian integers,
  NUL-padded names, named-table headers, in-place patches).
- `src/aff_metadata.rs` — the machine profile of each AFF extension.
- `src/pw0.rs` — the PW0 run-length layer codec, from raw masks and from
  rasterised runs, with its laws.
- `src/text.rs`, `src/codecs.rs`, `src/preview.rs` — preview thumbnails:
  base64 payloads, PNG decoding and encoding through the `base64` and `png`
  crates, RGB conversion and nearest-neighbour resizing.
- `app/` — the floating-point helpers that stay outside the verified library.

The tests under `tests/` run the library against the real outside crates.
