use parsing::parser::parse;
use parsing::token::Token;

fn word(s: &str) -> Token {
    Token::Word(s.to_string())
}

fn punct(s: &str) -> Token {
    Token::Punct(s.to_string())
}

#[test]
fn empty_input_yields_no_tokens() {
    assert_eq!(parse(""), vec![]);
}

#[test]
fn digit_accumulation() {
    assert_eq!(parse("123"), vec![Token::Number(123)]);
}

#[test]
fn mixed_runs_with_trailing_flush() {
    assert_eq!(
        parse("abc123!!def"),
        vec![word("abc"), Token::Number(123), punct("!!"), word("def")]
    );
}

#[test]
fn whitespace_is_punctuation() {
    assert_eq!(parse("a b"), vec![word("a"), punct(" "), word("b")]);
}

#[test]
fn single_digit() {
    assert_eq!(parse("5"), vec![Token::Number(5)]);
}

#[test]
fn single_letter() {
    assert_eq!(parse("x"), vec![word("x")]);
}

#[test]
fn single_punctuation_mark() {
    assert_eq!(parse("#"), vec![punct("#")]);
}

#[test]
fn trailing_word_is_flushed() {
    assert_eq!(parse("abc"), vec![word("abc")]);
    assert_eq!(parse("abc!"), vec![word("abc"), punct("!")]);
}

#[test]
fn word_texts_concatenated_merge_into_one_word() {
    assert_eq!(parse("ab"), vec![word("ab")]);
    assert_eq!(parse("cd"), vec![word("cd")]);
    assert_eq!(parse("abcd"), vec![word("abcd")]);
}

#[test]
fn digit_texts_concatenated_merge_into_one_number() {
    assert_eq!(parse("12"), vec![Token::Number(12)]);
    assert_eq!(parse("34"), vec![Token::Number(34)]);
    assert_eq!(parse("1234"), vec![Token::Number(1234)]);
}

#[test]
fn punctuation_texts_concatenated_merge_into_one_run() {
    assert_eq!(parse("!?"), vec![punct("!?")]);
    assert_eq!(parse(".,"), vec![punct(".,")]);
    assert_eq!(parse("!?.,"), vec![punct("!?.,")]);
}

#[test]
fn long_digit_runs_wrap_around() {
    assert_eq!(parse("4294967295"), vec![Token::Number(4294967295)]);
    assert_eq!(parse("4294967296"), vec![Token::Number(0)]);
    assert_eq!(parse("4294967297"), vec![Token::Number(1)]);
}

#[test]
fn unicode_letters_form_words() {
    assert_eq!(parse("h\u{00E9}llo"), vec![word("h\u{00E9}llo")]);
}

#[test]
fn non_ascii_numeric_character_is_punctuation() {
    // U+00BD (one half) is alphanumeric but neither alphabetic nor an ASCII
    // digit, so it opens a punctuation run of its own.
    assert_eq!(parse("\u{00BD}"), vec![punct("\u{00BD}")]);
    assert_eq!(parse("!\u{00BD}"), vec![punct("!"), punct("\u{00BD}")]);
}

#[test]
fn adjacent_tokens_never_share_a_kind_on_plain_text() {
    let tokens = parse("abc123!!def 456,x");
    let kind = |t: &Token| -> u32 {
        match t {
            Token::Word(_) => 0,
            Token::Number(_) => 1,
            Token::Punct(_) => 2,
        }
    };
    let mut i: usize = 1;
    while i < tokens.len() {
        assert_ne!(kind(&tokens[i - 1]), kind(&tokens[i]));
        i += 1;
    }
}

#[test]
fn token_texts_reconstruct_the_input() {
    let input = "ab 12,cd!34";
    let mut rebuilt = String::new();
    for t in parse(input) {
        match t {
            Token::Word(s) => rebuilt.push_str(&s),
            Token::Number(n) => rebuilt.push_str(&format!("{}", n)),
            Token::Punct(s) => rebuilt.push_str(&s),
        }
    }
    assert_eq!(rebuilt, input);
}
