//! A small lexical tokenizer: it turns a character stream into a sequence of
//! classified tokens (words, numbers, punctuation), together with a couple of
//! small supporting types.

pub mod book;
pub mod laws;
pub mod parser;
pub mod person;
pub mod token;
