//! A finite-state scanner that splits a character stream into maximal runs of
//! alphabetic characters (words), decimal digits (numbers) and everything else
//! (punctuation), and emits one token per run.
//!
//! The scanner is total: every character sequence yields a token sequence and
//! every input character lands in exactly one run. Two deliberate choices are
//! documented here once and reflected in every contract below:
//!
//! - a run still in progress when the input ends is flushed, so the final run
//!   is emitted rather than dropped;
//! - the value of a number token is the value of its digit run reduced modulo
//!   `2^32`, so arbitrarily long digit runs wrap around instead of failing.

use vstd::prelude::*;
use vstd::arithmetic::div_mod::lemma_add_mod_noop;
use vstd::arithmetic::div_mod::lemma_mod_add_multiples_vanish;
use vstd::arithmetic::div_mod::lemma_mul_mod_noop_left;
use vstd::arithmetic::div_mod::lemma_small_mod;
use vstd::string::StrSliceExecFns;

use crate::token::Token;
use crate::token::TokenView;

verus! {

/// Whether `char::is_alphabetic` holds of `c`: the Unicode `Alphabetic`
/// property, which is a fixed function of the character alone.
pub uninterp spec fn is_alpha(c: char) -> bool;

/// Whether `char::is_alphanumeric` holds of `c`: `Alphabetic` or numeric,
/// again a fixed function of the character alone.
pub uninterp spec fn is_alnum(c: char) -> bool;

/// Relies on `char::is_alphabetic`: returns whether the character has the
/// Unicode `Alphabetic` property, named here by `is_alpha`.
pub assume_specification[ char::is_alphabetic ](c: char) -> (r: bool)
    ensures
        r == is_alpha(c),
;

/// Relies on `char::is_alphanumeric`: returns whether the character has the
/// Unicode `Alphabetic` property or is numeric, named here by `is_alnum`.
pub assume_specification[ char::is_alphanumeric ](c: char) -> (r: bool)
    ensures
        r == is_alnum(c),
;

/// An ASCII decimal digit, `'0'` through `'9'`. The scanner recognises
/// exactly this range as digits, not the broader Unicode numeric category.
pub open spec fn is_digit(c: char) -> bool {
    48 <= c as u32 <= 57
}

/// The base-10 value of an ASCII digit character.
pub open spec fn digit_val(c: char) -> nat {
    (c as u32 - 48) as nat
}

/// The value of a digit run read left to right: each new digit multiplies the
/// accumulator by ten and is added on.
pub open spec fn digits_value(ds: Seq<char>) -> nat
    decreases ds.len(),
{
    if ds.len() == 0 {
        0
    } else {
        digits_value(ds.drop_last()) * 10 + digit_val(ds.last())
    }
}

/// A digit-run value reduced to the 32 bits a number token carries.
pub open spec fn wrap32(n: nat) -> u32 {
    (n % 0x1_0000_0000) as u32
}

/// A maximal same-class span of the input, together with its text. A number
/// run keeps its digit characters here, so that the scanned input can be
/// reconstructed from the runs even though the emitted token only carries the
/// accumulated value.
pub enum Run {
    Word(Seq<char>),
    Number(Seq<char>),
    Punct(Seq<char>),
}

/// The characters a run covers.
pub open spec fn run_text(r: Run) -> Seq<char> {
    match r {
        Run::Word(t) => t,
        Run::Number(t) => t,
        Run::Punct(t) => t,
    }
}

/// The run started by `c` at a token boundary: classification tries the
/// alphabetic test first, then the ASCII digit range, and everything else
/// starts a punctuation run (whitespace included).
pub open spec fn enter(c: char) -> Run {
    if is_alpha(c) {
        Run::Word(seq![c])
    } else if is_digit(c) {
        Run::Number(seq![c])
    } else {
        Run::Punct(seq![c])
    }
}

/// Whether the run in progress absorbs `c`: a word continues on alphabetic
/// characters, a number on ASCII digits, and punctuation on anything that is
/// not alphanumeric.
pub open spec fn extends(r: Run, c: char) -> bool {
    match r {
        Run::Word(_) => is_alpha(c),
        Run::Number(_) => is_digit(c),
        Run::Punct(_) => !is_alnum(c),
    }
}

/// The run in progress with `c` appended.
pub open spec fn extend(r: Run, c: char) -> Run {
    match r {
        Run::Word(t) => Run::Word(t.push(c)),
        Run::Number(t) => Run::Number(t.push(c)),
        Run::Punct(t) => Run::Punct(t.push(c)),
    }
}

/// The runs produced by scanning `rest` with the run `st` already in
/// progress (`None` at a token boundary). A disqualifying character closes
/// the current run and immediately starts a new one with that same
/// character; a run still open at the end of the input is flushed.
pub open spec fn scan(st: Option<Run>, rest: Seq<char>) -> Seq<Run>
    decreases rest.len(),
{
    if rest.len() == 0 {
        match st {
            None => seq![],
            Some(r) => seq![r],
        }
    } else {
        let c = rest[0];
        match st {
            None => scan(Some(enter(c)), rest.drop_first()),
            Some(r) => if extends(r, c) {
                scan(Some(extend(r, c)), rest.drop_first())
            } else {
                seq![r] + scan(Some(enter(c)), rest.drop_first())
            },
        }
    }
}

/// The maximal runs of a whole input, scanned from a token boundary.
pub open spec fn runs_of(s: Seq<char>) -> Seq<Run> {
    scan(None, s)
}

/// The token a run is emitted as: words and punctuation keep their text, a
/// number run becomes its base-10 value modulo `2^32`.
pub open spec fn token_of_run(r: Run) -> TokenView {
    match r {
        Run::Word(t) => TokenView::Word(t),
        Run::Number(t) => TokenView::Number(wrap32(digits_value(t))),
        Run::Punct(t) => TokenView::Punct(t),
    }
}

/// The tokens of a run sequence, one per run, in order.
pub open spec fn run_views(rs: Seq<Run>) -> Seq<TokenView> {
    rs.map_values(|r: Run| token_of_run(r))
}

/// The token sequence of an input: one token per maximal run.
pub open spec fn tokens_of(s: Seq<char>) -> Seq<TokenView> {
    run_views(runs_of(s))
}

/// The views of a sequence of emitted tokens.
pub open spec fn views_of(ts: Seq<Token>) -> Seq<TokenView> {
    ts.map_values(|t: Token| t@)
}

/// Current Parser State
enum ParserState {
    /// At the boundary between two tokens
    Boundary,
    /// Parsing Word characters
    InWord(String),
    /// Parsing Number
    InNumber(u32),
    /// Parsing Punctuation
    InPunctuation(String),
}

/// The run a parser state stands for. A number state only holds the
/// accumulated 32-bit value, so the digit characters consumed so far are
/// supplied from outside as `digits`.
spec fn state_view(st: ParserState, digits: Seq<char>) -> Option<Run> {
    match st {
        ParserState::Boundary => None,
        ParserState::InWord(text) => Some(Run::Word(text@)),
        ParserState::InNumber(_) => Some(Run::Number(digits)),
        ParserState::InPunctuation(text) => Some(Run::Punct(text@)),
    }
}

/// A number state's accumulator is the value of its digit run modulo `2^32`.
spec fn state_ok(st: ParserState, digits: Seq<char>) -> bool {
    match st {
        ParserState::InNumber(value) => value == wrap32(digits_value(digits)),
        _ => true,
    }
}

/// Relies on `String::push`: appends the given character to the end of the
/// string.
#[verifier::external_body]
pub(crate) fn push_char(text: &mut String, c: char)
    ensures
        final(text)@ == old(text)@.push(c),
{
    text.push(c);
}

/// Next From Token Boundary
///
/// Returns the next parser state for a given character if there is no
/// context. This is used when a token has just been emitted to find
/// the next state without any context.
fn next_from_boundary(c: char) -> (st: ParserState)
    ensures
        state_view(st, seq![c]) == Some(enter(c)),
        state_ok(st, seq![c]),
{
    if c.is_alphabetic() {
        let mut text = String::new();
        push_char(&mut text, c);
        proof {
            assert(text@ =~= seq![c]);
        }
        ParserState::InWord(text)
    } else {
        let u = c as u32;
        if 48 <= u && u <= 57 {
            proof {
                assert(seq![c].drop_last() =~= Seq::<char>::empty());
                assert(digits_value(Seq::<char>::empty()) == 0);
                assert(digits_value(seq![c]) == digit_val(c));
                lemma_small_mod(digit_val(c), 0x1_0000_0000);
            }
            ParserState::InNumber(u - 48)
        } else {
            let mut text = String::new();
            push_char(&mut text, c);
            proof {
                assert(text@ =~= seq![c]);
            }
            ParserState::InPunctuation(text)
        }
    }
}

proof fn lemma_run_views_add(a: Seq<Run>, b: Seq<Run>)
    ensures
        run_views(a + b) == run_views(a) + run_views(b),
{
    assert(run_views(a + b) =~= run_views(a) + run_views(b));
}

proof fn lemma_views_push(ts: Seq<Token>, t: Token)
    ensures
        views_of(ts.push(t)) == views_of(ts).push(t@),
{
    assert(views_of(ts.push(t)) =~= views_of(ts).push(t@));
}

/// Emitting the closed run `r` as the token `t` moves one token from the
/// pending run sequence to the output sequence.
proof fn lemma_emit(ts: Seq<Token>, t: Token, r: Run, tail: Seq<Run>)
    requires
        t@ == token_of_run(r),
    ensures
        views_of(ts) + run_views(seq![r] + tail) == views_of(ts.push(t)) + run_views(tail),
{
    lemma_run_views_add(seq![r], tail);
    lemma_views_push(ts, t);
    assert(run_views(seq![r]) =~= seq![token_of_run(r)]);
    assert(views_of(ts) + (seq![t@] + run_views(tail)) =~= views_of(ts).push(t@) + run_views(
        tail,
    ));
}

/// One digit step of the accumulator: multiplying the wrapped value by ten
/// and adding the next digit, both modulo `2^32`, gives the wrapped value of
/// the extended digit run.
proof fn lemma_number_accumulate(ds: Seq<char>, c: char, value: u32)
    requires
        is_digit(c),
        value == wrap32(digits_value(ds)),
    ensures
        value.wrapping_mul(10).wrapping_add((c as u32 - 48) as u32) == wrap32(
            digits_value(ds.push(c)),
        ),
{
    let m = 0x1_0000_0000int;
    let dv = digits_value(ds) as int;
    let d = digit_val(c) as int;
    assert(ds.push(c).drop_last() =~= ds);
    assert(ds.push(c).last() == c);
    assert(digits_value(ds.push(c)) == dv * 10 + d);
    lemma_mul_mod_noop_left(dv, 10, m);
    let w1 = (dv * 10) % m;
    lemma_small_mod(d as nat, m as nat);
    lemma_add_mod_noop(dv * 10, d, m);
    assert((w1 + d) % m == (dv * 10 + d) % m);
    if w1 + d <= u32::MAX {
        lemma_small_mod((w1 + d) as nat, m as nat);
    } else {
        lemma_mod_add_multiples_vanish(w1 + d - m, m);
        lemma_small_mod((w1 + d - m) as nat, m as nat);
    }
}

/// The token sequence of an input string: the input is scanned left to
/// right, each maximal run is emitted as one token when the first character
/// that does not belong to it appears (that character immediately starts the
/// next run), and the run still open at the end of the input is flushed.
pub fn parse(input: &str) -> (tokens: Vec<Token>)
    ensures
        views_of(tokens@) == tokens_of(input@),
{
    let n: usize = input.unicode_len();
    let mut tokens: Vec<Token> = Vec::new();
    let mut state = ParserState::Boundary;
    let ghost mut digits: Seq<char> = Seq::empty();
    let mut i: usize = 0;

    proof {
        assert(input@.skip(0) =~= input@);
        assert(views_of(Seq::<Token>::empty()) =~= Seq::<TokenView>::empty());
    }

    while i < n
        invariant
            i <= n,
            n == input@.len(),
            state_ok(state, digits),
            tokens_of(input@) == views_of(tokens@) + run_views(
                scan(state_view(state, digits), input@.skip(i as int)),
            ),
        decreases n - i,
    {
        let c = input.get_char(i);
        let ghost rest = input@.skip(i as int);
        let ghost rest2 = input@.skip(i as int + 1);
        let ghost sv0 = state_view(state, digits);
        let ghost ts0 = tokens@;
        proof {
            assert(rest.len() == n - i);
            assert(rest[0] == c);
            assert(rest.drop_first() =~= rest2);
        }
        state = match state {
            ParserState::Boundary => {
                let st = next_from_boundary(c);
                proof {
                    digits = seq![c];
                    assert(scan(sv0, rest) == scan(Some(enter(c)), rest2));
                }
                st
            },
            ParserState::InWord(mut word) => {
                if c.is_alphabetic() {
                    let ghost w0 = word@;
                    push_char(&mut word, c);
                    proof {
                        assert(extend(Run::Word(w0), c) == Run::Word(word@));
                        assert(scan(sv0, rest) == scan(Some(Run::Word(word@)), rest2));
                    }
                    ParserState::InWord(word)
                } else {
                    let t = Token::Word(word);
                    proof {
                        assert(scan(sv0, rest) == seq![sv0.unwrap()] + scan(
                            Some(enter(c)),
                            rest2,
                        ));
                        lemma_emit(ts0, t, sv0.unwrap(), scan(Some(enter(c)), rest2));
                        digits = seq![c];
                    }
                    tokens.push(t);
                    next_from_boundary(c)
                }
            },
            ParserState::InNumber(num) => {
                let u = c as u32;
                if 48 <= u && u <= 57 {
                    let d = u - 48;
                    let value = num.wrapping_mul(10).wrapping_add(d);
                    proof {
                        lemma_number_accumulate(digits, c, num);
                        assert(extend(Run::Number(digits), c) == Run::Number(digits.push(c)));
                        digits = digits.push(c);
                        assert(scan(sv0, rest) == scan(Some(Run::Number(digits)), rest2));
                    }
                    ParserState::InNumber(value)
                } else {
                    let t = Token::Number(num);
                    proof {
                        assert(scan(sv0, rest) == seq![sv0.unwrap()] + scan(
                            Some(enter(c)),
                            rest2,
                        ));
                        lemma_emit(ts0, t, sv0.unwrap(), scan(Some(enter(c)), rest2));
                        digits = seq![c];
                    }
                    tokens.push(t);
                    next_from_boundary(c)
                }
            },
            ParserState::InPunctuation(mut punct) => {
                if c.is_alphanumeric() {
                    let t = Token::Punct(punct);
                    proof {
                        assert(scan(sv0, rest) == seq![sv0.unwrap()] + scan(
                            Some(enter(c)),
                            rest2,
                        ));
                        lemma_emit(ts0, t, sv0.unwrap(), scan(Some(enter(c)), rest2));
                        digits = seq![c];
                    }
                    tokens.push(t);
                    next_from_boundary(c)
                } else {
                    let ghost p0 = punct@;
                    push_char(&mut punct, c);
                    proof {
                        assert(extend(Run::Punct(p0), c) == Run::Punct(punct@));
                        assert(scan(sv0, rest) == scan(Some(Run::Punct(punct@)), rest2));
                    }
                    ParserState::InPunctuation(punct)
                }
            },
        };
        i = i + 1;
    }

    let ghost sv0 = state_view(state, digits);
    let ghost ts0 = tokens@;
    proof {
        assert(input@.skip(n as int) =~= Seq::<char>::empty());
    }
    match state {
        ParserState::Boundary => {
            proof {
                assert(run_views(scan(sv0, Seq::empty())) =~= Seq::<TokenView>::empty());
                assert(views_of(tokens@) + Seq::<TokenView>::empty() =~= views_of(tokens@));
            }
        },
        ParserState::InWord(word) => {
            let t = Token::Word(word);
            proof {
                lemma_emit(ts0, t, sv0.unwrap(), seq![]);
                assert(seq![sv0.unwrap()] + Seq::<Run>::empty() =~= seq![sv0.unwrap()]);
                assert(run_views(Seq::<Run>::empty()) =~= Seq::<TokenView>::empty());
                assert(views_of(ts0.push(t)) + Seq::<TokenView>::empty() =~= views_of(
                    ts0.push(t),
                ));
            }
            tokens.push(t);
        },
        ParserState::InNumber(num) => {
            let t = Token::Number(num);
            proof {
                lemma_emit(ts0, t, sv0.unwrap(), seq![]);
                assert(seq![sv0.unwrap()] + Seq::<Run>::empty() =~= seq![sv0.unwrap()]);
                assert(run_views(Seq::<Run>::empty()) =~= Seq::<TokenView>::empty());
                assert(views_of(ts0.push(t)) + Seq::<TokenView>::empty() =~= views_of(
                    ts0.push(t),
                ));
            }
            tokens.push(t);
        },
        ParserState::InPunctuation(punct) => {
            let t = Token::Punct(punct);
            proof {
                lemma_emit(ts0, t, sv0.unwrap(), seq![]);
                assert(seq![sv0.unwrap()] + Seq::<Run>::empty() =~= seq![sv0.unwrap()]);
                assert(run_views(Seq::<Run>::empty()) =~= Seq::<TokenView>::empty());
                assert(views_of(ts0.push(t)) + Seq::<TokenView>::empty() =~= views_of(
                    ts0.push(t),
                ));
            }
            tokens.push(t);
        },
    }
    tokens
}

} // verus!
