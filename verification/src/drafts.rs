//! The parser proper and the tooling it is built on.
pub mod constants;
pub mod parsetools;
pub mod tomlparse;
pub mod string_parse;
pub mod tokens;
pub mod parsetooling;
pub mod parse_funcs;
pub mod tooling;
