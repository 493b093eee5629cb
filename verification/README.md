# pdf_inspector (verified OCR fusion and rasterization core)

A Verus library holding the logic that sits between native PDF text
extraction, OCR and page rasterization, with its behaviour stated in
contracts and proved:

- `text`: the character model (`Seq<char>`) with trimming, line, word and
  Markdown-block splitting; the Unicode classes come from `char`'s methods.
- `compare`: comparison keys of Markdown blocks (lower-cased alphanumeric
  tokens and punctuation), token overlap, novel fragments, content overlap.
- `merge`: fusion of native Markdown with OCR Markdown, appending only the
  OCR blocks that add content.
- `layout`: recovery of blank lines between well-separated OCR lines,
  in fixed-point image units.
- `fusion`: page-set validation, the native/OCR/fused choice per page,
  adaptive comparison with trustworthy native candidates, hosted-pipeline
  recommendations and provenance.
- `timing`, `clock`: batch time shares and assembly timing.
- `raster`: page requests, row repacking, PNG encoding (through `image`) and
  the output limits.
- `bindings`: the value types and name conversions of the language bindings.

`app/` holds what stays outside the proofs: the floating-point thresholds,
scores and coordinate conversion, and error types with `std::error::Error`.
