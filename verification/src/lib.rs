//! A small JSON library: a lexer, a recursive-descent parser and an indenting
//! writer, each specified against a mathematical model of its input and
//! output.

pub mod text;
pub mod builder;
pub mod json_type;
pub mod json_lexer;
pub mod lex_laws;
pub mod json_parser;
pub mod json_writer;
pub mod round_trip;
pub mod writer_laws;

pub use crate::json_type::JSONtype;
pub use crate::json_parser::parse_json;
pub use crate::json_writer::write_json;
