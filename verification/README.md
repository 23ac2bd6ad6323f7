# ciborium_ll

Low-level CBOR: reading and writing item headers, and the segments of
bytes and text items, over a byte reader and a byte writer.

- `src/header.rs`: the `Header` type, the wire format as spec functions
  (`encode_header`, `parse_header`) and the proof that every header reads
  back as written.
- `src/io.rs`: the `Read` and `Write` traits, modelled by the bytes a reader
  will deliver and the bytes a writer has accepted; `Write` for `Vec<u8>`.
- `src/slice.rs`: `SliceReader`, a reader over a borrowed slice.
- `src/enc.rs`: `Encoder`, which writes headers and whole bytes and text
  items, optionally split into segments (text segments end on UTF-8
  boundaries).
- `src/dec.rs`: `Decoder`, which reads headers, tracks the stream offset,
  and takes back one header to read again.
- `src/seg.rs`: `Segments`, the walk over the segments of a bytes or text
  item.
- `app/`: the header with an `f64` float payload, converted to and from the
  library's wire-bits form with the `half` crate.
