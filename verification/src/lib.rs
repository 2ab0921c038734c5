//! A small TOML reader: lexer, parser, value accessors and schema validation.
pub mod ascii;
pub mod config_error;
pub mod config_get_error;
pub mod field;
pub mod lex_laws;
pub mod lex_spec;
pub mod lexer;
pub mod parse_schema;
pub mod parse_spec;
pub mod parser;
pub mod pattern;
pub mod schema;
pub mod text;
pub mod token;
pub mod toml_value;
pub mod validate_schema;
