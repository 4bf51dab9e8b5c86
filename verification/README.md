# emend-lt

A grammar and spelling checker for English that reads LanguageTool's rule and
dictionary files (Morfologik `.dict` automata, `disambiguation.xml`,
`grammar.xml`, `segment.srx` and the spelling word lists) and answers the
`/v2/check` and `/v2/languages` requests of LanguageTool's HTTP interface.

The library under `src/` is written in Verus: every function carries a
contract, and the laws of the library (segments and word tokens concatenate
to the text and none is empty, disambiguation never empties a token, a speller and a
dictionary read from the same bytes agree on every word, findings come in document order without
nested ones, suggestions are dictionary words other than the word itself, the
context window shows the match) are proof functions checked by the verifier.
Calls into `fancy-regex`, `quick-xml` and a few `std` text functions go through
small trusted wrappers whose contracts name what those calls return.

Layout:

- `src/fsa.rs`, `src/dict.rs`, `src/speller.rs`, `src/synth.rs` — the CFSA2
  automaton reader, dictionary lookup, speller and synthesizer.
- `src/tokenizer.rs`, `src/token_laws.rs`, `src/tagger.rs`, `src/casing.rs`, `src/analyzer.rs` —
  word tokenization and tagging of a sentence.
- `src/srx.rs`, `src/segmenter.rs`, `src/regex_translate.rs` — sentence
  segmentation by SRX rules.
- `src/xml.rs`, `src/entities.rs`, `src/token.rs`, `src/pattern.rs`,
  `src/parse.rs` — rule patterns and how they are read and matched.
- `src/disambig.rs`, `src/grammar.rs`, `src/render.rs`, `src/findings.rs`,
  `src/spelling.rs` — disambiguation, grammar rules, suggestions and the
  spelling rule.
- `src/engine.rs`, `src/response.rs`, `src/cli.rs` — the whole pipeline, the
  response bodies and the command line.
- `app/` — the HTTP server (axum, tokio), file reading and JSON encoding.
- `tests/` — tests of the library.
