pub mod ast;
pub mod parse_helpers;
