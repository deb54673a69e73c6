# tomlp

A TOML parser whose parsing logic is verified with Verus.

`tomlp::parse` takes the text of a TOML file and gives its table, or the
first failure with its kind, line number and detail. Its contract states the
outcome exactly: the text is split into lines, each line into grapheme
clusters (as `unicode-segmentation` splits them), and `file_scan` in
`src/drafts/tomlparse.rs` describes, statement by statement, what the parse
does to the table, including values and keys that go on over several lines.
A separate law (`law_parse_outcome_defined`) shows that this outcome is
always determined.

## Layout

- `src/lib.rs`: `parse`, and the re-exported public types.
- `src/errors.rs`: the kinds of parse failures and the messages that report them.
- `src/tomltypes.rs`: TOML values and tables, their mathematical model,
  lookups and dotted-key insertion, with their laws.
- `src/parsedtoml.rs`: the parsed table, queries, and its rendering in the
  manner of the `tree` program (root `/`, each value one level below its key).
- `src/drafts/parsetools.rs`: grapheme segments (`TOMLSeg`), lines split into
  segments (`ParserLine`), key paths (`TPath`) and a line cursor.
- `src/drafts/tomlparse.rs` and `src/drafts/tomlparse/`: the parser: numbers,
  dates (read with `chrono`), strings, multi-line strings, keys, comments,
  arrays, inline tables, headers and key-value pairs, and the proofs that every
  step makes progress (`progress.rs`).
- `src/drafts/string_parse.rs`, `parse_funcs.rs`, `parsetooling.rs`,
  `tooling/`, `src/prototype/`, `src/bool_parse_proto.rs`: alternative
  designs of the same pieces (line readers, string scanners, a boolean
  reader), each with its own contract.
- `src/text.rs`: text helpers and the calls into `unicode-segmentation`.
- `app/lib.rs`: reading `.toml` files, error messages, printing, and float
  conversion.
- `tests/`: tests of the library.
