# ematix_parquet_codec

Decoders and encoders for the pages of a columnar file format, and sidecar
indexes over its columns, written in Verus. Every function of the library has
a contract over mathematical models (sequences of bytes, indices and values),
and every contract is proved, but for those of the small wrappers around calls
into outside crates and `std`, which say what they take for granted.

- `src/` is the library.
  - `bits`, `bitpack`, `bitpack_kernels`, `bitpack_avx2`, `bitpack_neon`,
    `rle`, `dict`, `delta`, `plain`, `downcast`, `byte_stream_split`, `levels`:
    the encodings.
  - `compression`: the codecs, behind contracts over what their crates give
    back.
  - `bloom`, `page_index`, `column`, `adaptive`: filters, page selection,
    dictionary-preserving chunks, and the choice of a decode path.
  - `encrypted`, `parallel`: framing of encrypted modules, and what workers do.
  - `index`: sidecar indexes. `builder` makes them from a file, `reader` opens
    them, `lookup`, `materialize` and `query` answer from them; `laws`,
    `bloom_laws`, `sidecar_laws` and `manifest_laws` state what holds of the
    whole.
- `app/` is what stands around it: floating point, threads, the operating
  system, files.
- `tests/` runs it.

Functions whose names start with `law_` state what relates several functions.
