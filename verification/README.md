# rust_json_parser

A JSON parser whose behaviour is specified and proved with Verus.

## Layout

- `src/` — the verified library.
  - `text.rs`: byte and character helpers, and the few trusted calls into the
    standard library and `memchr`.
  - `error.rs`: `JsonError`, its view and its message.
  - `lexical.rs`: escape sequences, `\uXXXX` escapes and number literals,
    shared by both parsers.
  - `tokenizer.rs`: `Tokenizer`, specified by the lexical grammar `lex`.
  - `parser.rs`: `JsonParser`, a parser over tokens specified by
    `token_value`, and `parse_json`.
  - `stream.rs`: the single-pass parser over bytes, specified by `document`.
  - `value.rs`: `JsonValue` and `JsonObject` (insertion-ordered, each key at
    most once, last insertion wins), accessors, and compact serialization
    specified by `json_text`.
  - `laws.rs`: serializing then parsing gives the value back (through both
    parsers), parsed values are well formed, and every error position lies
    within the input.
  - `agreement.rs`: every document that `parse_json` accepts, `JsonParser`
    parses to the same value.
- `tests/` — the test suite.
- `app/` — the command-line demo and the Python bindings (PyO3), which hold
  the float conversions of numbers.

Numbers are kept as the text of their literal; a literal is accepted exactly
when it is a JSON number (no leading zeros, digits on both sides of a `.`).
Every error carries a byte offset into the input.
