//! The token type produced by the tokenizer.

use vstd::prelude::*;

verus! {

/// Mathematical model of a token: each text is a sequence of characters.
pub enum TokenView {
    /// A word: a run of alphabetic characters.
    Word(Seq<char>),
    /// A numeric value accumulated from a run of decimal digits.
    Number(u32),
    /// A run of characters that are neither alphabetic nor digits.
    Punct(Seq<char>),
}

/// Whether two tokens are of the same kind (both words, both numbers, or
/// both punctuation), whatever they carry.
pub open spec fn same_kind(a: TokenView, b: TokenView) -> bool {
    match (a, b) {
        (TokenView::Word(_), TokenView::Word(_)) => true,
        (TokenView::Number(_), TokenView::Number(_)) => true,
        (TokenView::Punct(_), TokenView::Punct(_)) => true,
        _ => false,
    }
}

/// Token types.
#[derive(Debug, PartialEq, Eq)]
pub enum Token {
    /// A word
    ///
    /// Made up of consecutive alphabetic characters
    Word(String),

    /// A numeric value
    Number(u32),

    /// Punctuation
    ///
    /// Anything that's not alphanumeric
    Punct(String),
}

impl View for Token {
    type V = TokenView;

    open spec fn view(&self) -> TokenView {
        match self {
            Token::Word(text) => TokenView::Word(text@),
            Token::Number(value) => TokenView::Number(*value),
            Token::Punct(text) => TokenView::Punct(text@),
        }
    }
}

} // verus!
