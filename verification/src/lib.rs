//! A JSON syntax validator: a lexer that turns lines of text into tokens, and
//! a recursive-descent recognizer that decides whether the tokens form a JSON
//! object. Both are verified against mathematical definitions of what they
//! compute.

pub mod symbol;
pub mod token;
pub mod lexical;
pub mod lexer;
pub mod grammar;
pub mod analyser;
pub mod balance;
pub mod insertion;
pub mod reads;
