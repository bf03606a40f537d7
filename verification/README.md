# nesstar-core

Reading Nesstar survey containers (`.Nesstar`) together with their DDI XML
codebooks, and rendering the decoded rows as CSV, TSV, JSON, JSON Lines,
fixed-width text, Stata `.dta` and SPSS `.sav`.

The library in `src/` is written in Verus: its functions state their
behaviour in `requires`/`ensures` and are proved against it. A few calls
into std and outside crates are trusted rather than proved; their
contracts are believed as written:

- `xml::xml_reader` and `xml::next_token` (quick-xml's `Reader`), whose
  events are the named function `xml_tokens` of the text, and
  `xml::utf8_text` (`String::from_utf8`), whose error is named
  `utf8_error_text`;
- `decode::lossy_utf8` (`String::from_utf8_lossy`), named `utf8_lossy`;
- `web::debug_quoted` (`format!("{:?}")`), named `str_debug`, and
  `web::json_object_line` (serde_json), named `json_object_text`;
- `String::push`, `core::char::from_u32` and `core::slice::from_ref`,
  through `assume_specification`.

Modules:

- `xml` — tokenising XML text into the events the DDI reader consumes.
- `ddi` — the DDI reader, a state machine over XML events.
- `layout` — the two binary layouts: the trailing resource index and the
  metadata-slot scan.
- `dataset` — a block's layout, whichever of the two it is.
- `decode` — checked, batch-wise decoding of cells.
- `formats` — byte-level rendering of the output formats.
- `web` — dataset summary, preview and whole-dataset export.
- `pipeline` — output formats, block choice and the conversion job that
  only publishes a finished file.
- `order`, `text`, `bytes`, `double` — stable ordering, text and UTF-16,
  little-endian integers and IEEE-754 doubles.

`app/` holds what stays outside the proofs: the command-line program, file
and memory-map access, floating-point formatting and parsing, the csv and
Parquet writers, and the browser bindings.
