//! Text processing for a toolchain of web languages: the case of
//! identifiers and a natural order of strings, a YAML lexer, a JSON parser
//! that keeps every token, and layout decisions of the JavaScript formatter.

pub mod unicode;
pub mod case;
pub mod cases;
pub mod weights;
pub mod collate;
pub mod collate_order;
pub mod str_ext;
pub mod yaml_scope;
pub mod yaml_lexer;
pub mod template_element;
pub mod json_syntax;
pub mod js_program;
pub mod json_parser;
pub mod json_tree;
