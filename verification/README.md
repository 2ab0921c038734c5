# rustoml

A small TOML reader with schema validation, written in Verus. Each stage states
what it computes as a specification over mathematical values, and the code is
proved to compute exactly that.

## Layout

- `src/lex_spec.rs`, `src/lexer.rs`: the lexical grammar over the bytes of a
  document, and the lexer proved to follow it (`Lexer::tokenize`). Basic
  strings take the escapes `\b \t \n \f \r \" \\ \uXXXX \UXXXXXXXX`; a
  unicode escape must name a Unicode scalar value.
- `src/parse_spec.rs`, `src/parser.rs`: the grammar of a document over its
  tokens (tables, dotted headers, `[[arrays of tables]]`, arrays, inline
  tables), and the parser proved to follow it (`Parser::parse`).
- `src/toml_value.rs`: parsed values, the getters that read them, and their
  text forms.
- `src/field.rs`, `src/parse_schema.rs`, `src/validate_schema.rs`,
  `src/schema.rs`: schemas, reading them from a schema document, and checking
  a document against one. Regular expressions are compiled and run by the
  `regex` crate (`src/pattern.rs`).
- `src/config_error.rs`, `src/config_get_error.rs`: errors and their messages.
- `app/`: the command-line program. It reads the files, converts floats, runs
  the float comparisons that validation hands back, and prints the result.
- `tests/`: tests of the library on concrete documents.

## Floats

The library never computes with floating-point numbers. A float keeps the text
of its literal (`FloatValue`); comparing floats against schema bounds is left to
the caller, which receives the float fields met during validation as
`FloatCheck`s, in order.
