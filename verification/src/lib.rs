//! A front end for grammar descriptions: a scanner that turns ASCII text into
//! tokens, and a parser that turns tokens into constants and rulesets.

pub mod parser;
pub mod parser_lemmas;
pub mod scanner;
pub mod scanner_lemmas;
