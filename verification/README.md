# rustysoup

An HTML document library in the spirit of Beautiful Soup, verified with Verus.

- `src/` is the verified library: the node arena and its tree invariant (`dom`), editing,
  navigation and copying, the quick HTML parser and its model (`fast_parser`, `fast_model`),
  the steps the full parser's tree builder takes (`sink`), planning a parse (`html_parse`),
  serialization and pretty printing, text extraction, smoothing of adjacent text, `find`
  searches, the selector scanners and matchers, input decoding, and the laws that tie these
  together (`laws`). Calls into `encoding_rs` and `regex` go through small trusted wrappers in
  `input`.
- `tests/` runs the library on concrete documents.
- `app/` is the unverified shell: the html5ever tree sink, compiled selectors through the
  `selectors` crate, the pyo3 module and the callback formatters.
