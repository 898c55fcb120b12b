# meif

MEIF (Minimally Efficient Image Format) is an indexed-colour image format: a palette of
up to 255 colours and run-length coded pixel indices. This crate reads, writes and
converts MEIF images, with every function proved against its contract by Verus.

Layout of a file: `MEIF`, four zero bytes, `0x69 0x42`, two zero bytes; `DIMN` and four
bytes giving width and height as `32 * b0 - b1`; `INDX` and three bytes per colour;
`DATA` and the coded pixels; `DONE!`.

- `src/rle.rs`: the run-length coder and decoder, the proof that decoding gives back
  what was coded, that regions are cut greedily, and a bound on the coded size.
- `src/image.rs`: the image, its byte layout (`to_bytes`), the DIMN size bytes.
- `src/parser.rs`: the reader, step by step, each step described by a spec function; the
  read position never passes the end of the buffer, and bytes after a complete file
  change nothing.
- `src/laws.rs`: reading the bytes that `to_bytes` wrote gives the image back, provided
  that width and height are at most 8160, the pixels are `width * height` indices into
  the palette, no palette colour starts where `DATA` would be read, and `DONE!` does not
  occur inside the coded pixels. Also: the RGB bytes of an image that was read are the
  INDX bytes of the colours its pixels name.
- `src/converter.rs`: building the palette and indices from true-colour pixels; the
  palette lists colours in the order in which the pixels first show them, and no two of
  its colours are similar.
- `src/size.rs`, `src/text.rs`: byte counts and numbers as text.
- `app/main.rs`: the command-line viewer and converter (file I/O, image decoding, window).
