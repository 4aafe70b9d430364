//! Laws of the tokenizer, stated over the run model of `parser` and proved
//! for every input: reconstruction of the input from the runs, merging of
//! same-class texts into a single token, and alternation of token kinds.

use vstd::prelude::*;

use crate::parser::digits_value;
use crate::parser::enter;
use crate::parser::extend;
use crate::parser::extends;
use crate::parser::is_alnum;
use crate::parser::is_alpha;
use crate::parser::is_digit;
use crate::parser::run_text;
use crate::parser::run_views;
use crate::parser::runs_of;
use crate::parser::scan;
use crate::parser::token_of_run;
use crate::parser::tokens_of;
use crate::parser::wrap32;
use crate::parser::Run;
use crate::token::same_kind;
use crate::token::TokenView;

verus! {

/// The concatenation of the texts of a sequence of runs. For a number run
/// the text is its digit sequence.
pub open spec fn texts_concat(rs: Seq<Run>) -> Seq<char>
    decreases rs.len(),
{
    if rs.len() == 0 {
        Seq::empty()
    } else {
        run_text(rs[0]) + texts_concat(rs.drop_first())
    }
}

/// The characters held by the run still in progress.
pub open spec fn pending_text(st: Option<Run>) -> Seq<char> {
    match st {
        None => Seq::empty(),
        Some(r) => run_text(r),
    }
}

proof fn lemma_scan_text(st: Option<Run>, rest: Seq<char>)
    ensures
        texts_concat(scan(st, rest)) == pending_text(st) + rest,
    decreases rest.len(),
{
    if rest.len() == 0 {
        match st {
            None => {
                assert(texts_concat(scan(st, rest)) =~= pending_text(st) + rest);
            },
            Some(r) => {
                assert(seq![r].drop_first() =~= Seq::<Run>::empty());
                assert(texts_concat(Seq::<Run>::empty()) == Seq::<char>::empty());
                assert(texts_concat(seq![r]) =~= run_text(r));
                assert(run_text(r) =~= pending_text(st) + rest);
            },
        }
    } else {
        let c = rest[0];
        let rest2 = rest.drop_first();
        match st {
            None => {
                lemma_scan_text(Some(enter(c)), rest2);
                assert(pending_text(Some(enter(c))) == seq![c]);
                assert(seq![c] + rest2 =~= rest);
                assert(Seq::<char>::empty() + rest =~= rest);
            },
            Some(r) => {
                if extends(r, c) {
                    lemma_scan_text(Some(extend(r, c)), rest2);
                    assert(pending_text(Some(extend(r, c))) == run_text(r).push(c));
                    assert(run_text(r).push(c) + rest2 =~= run_text(r) + rest);
                } else {
                    lemma_scan_text(Some(enter(c)), rest2);
                    let tail = scan(Some(enter(c)), rest2);
                    assert((seq![r] + tail)[0] == r);
                    assert((seq![r] + tail).drop_first() =~= tail);
                    assert(texts_concat(seq![r] + tail) == run_text(r) + texts_concat(tail));
                    assert(texts_concat(tail) == seq![c] + rest2);
                    assert(seq![c] + rest2 =~= rest);
                }
            },
        }
    }
}

/// No character is lost, duplicated or reordered: with the final run flushed
/// at the end of the input, the concatenation of the texts of all runs — the
/// characters of each word and punctuation token, and the digit sequence
/// underlying each number token — is exactly the input.
pub proof fn lemma_reconstruction(s: Seq<char>)
    ensures
        texts_concat(runs_of(s)) == s,
{
    lemma_scan_text(None, s);
    assert(Seq::<char>::empty() + s =~= s);
}

/// Tokens and runs correspond one to one and in order: the token at each
/// position is the emitted form of the run at that position, so the
/// reconstruction above speaks of exactly the texts behind the tokens.
pub proof fn lemma_tokens_match_runs(s: Seq<char>)
    ensures
        tokens_of(s).len() == runs_of(s).len(),
        forall|j: int| 0 <= j < runs_of(s).len() ==> tokens_of(s)[j] == token_of_run(
            #[trigger] runs_of(s)[j],
        ),
{
}

/// The run `r` with the characters of `t` appended to its text.
pub open spec fn append_run(r: Run, t: Seq<char>) -> Run {
    match r {
        Run::Word(w) => Run::Word(w + t),
        Run::Number(w) => Run::Number(w + t),
        Run::Punct(w) => Run::Punct(w + t),
    }
}

proof fn lemma_scan_single(r: Run, rest: Seq<char>)
    requires
        forall|j: int| 0 <= j < rest.len() ==> extends(r, #[trigger] rest[j]),
    ensures
        scan(Some(r), rest) == seq![append_run(r, rest)],
    decreases rest.len(),
{
    if rest.len() == 0 {
        match r {
            Run::Word(w) => assert(w + rest =~= w),
            Run::Number(w) => assert(w + rest =~= w),
            Run::Punct(w) => assert(w + rest =~= w),
        }
        assert(append_run(r, rest) == r);
    } else {
        let c = rest[0];
        let rest2 = rest.drop_first();
        assert(extends(r, c));
        assert forall|j: int| 0 <= j < rest2.len() implies extends(extend(r, c), #[trigger] rest2[j]) by {
            assert(rest2[j] == rest[j + 1]);
        }
        lemma_scan_single(extend(r, c), rest2);
        match r {
            Run::Word(w) => assert(w.push(c) + rest2 =~= w + rest),
            Run::Number(w) => assert(w.push(c) + rest2 =~= w + rest),
            Run::Punct(w) => assert(w.push(c) + rest2 =~= w + rest),
        }
        assert(append_run(extend(r, c), rest2) == append_run(r, rest));
    }
}

proof fn lemma_single_run(s: Seq<char>)
    requires
        s.len() > 0,
        forall|j: int| 0 <= j < s.len() ==> extends(enter(s[0]), #[trigger] s[j]),
    ensures
        runs_of(s) == seq![append_run(enter(s[0]), s.drop_first())],
{
    let c = s[0];
    let rest2 = s.drop_first();
    assert forall|j: int| 0 <= j < rest2.len() implies extends(enter(c), #[trigger] rest2[j]) by {
        assert(rest2[j] == s[j + 1]);
    }
    lemma_scan_single(enter(c), rest2);
}

/// Tokenizing the concatenation of two word texts yields the single word
/// token of the concatenated text, not two word tokens: an alphabetic run is
/// extended as far as it reaches.
pub proof fn lemma_word_concat(t1: Seq<char>, t2: Seq<char>)
    requires
        t1.len() > 0,
        t2.len() > 0,
        forall|j: int| 0 <= j < t1.len() ==> is_alpha(#[trigger] t1[j]),
        forall|j: int| 0 <= j < t2.len() ==> is_alpha(#[trigger] t2[j]),
    ensures
        tokens_of(t1 + t2) == seq![TokenView::Word(t1 + t2)],
{
    let s = t1 + t2;
    assert forall|j: int| 0 <= j < s.len() implies is_alpha(#[trigger] s[j]) by {
        if j < t1.len() {
            assert(s[j] == t1[j]);
        } else {
            assert(s[j] == t2[j - t1.len()]);
        }
    }
    assert(is_alpha(s[0]));
    lemma_single_run(s);
    assert(seq![s[0]] + s.drop_first() =~= s);
    assert(append_run(enter(s[0]), s.drop_first()) == Run::Word(s));
    assert(run_views(seq![Run::Word(s)]) =~= seq![
        TokenView::Word(s),
    ]);
}

/// Tokenizing the concatenation of two digit texts yields the single number
/// token whose value is that of the concatenated digit run (modulo `2^32`),
/// not two number tokens.
pub proof fn lemma_number_concat(t1: Seq<char>, t2: Seq<char>)
    requires
        t1.len() > 0,
        t2.len() > 0,
        forall|j: int| 0 <= j < t1.len() ==> is_digit(#[trigger] t1[j]) && !is_alpha(t1[j]),
        forall|j: int| 0 <= j < t2.len() ==> is_digit(#[trigger] t2[j]) && !is_alpha(t2[j]),
    ensures
        tokens_of(t1 + t2) == seq![
            TokenView::Number(
                wrap32(digits_value(t1 + t2)),
            ),
        ],
{
    let s = t1 + t2;
    assert forall|j: int| 0 <= j < s.len() implies is_digit(#[trigger] s[j]) && !is_alpha(s[j]) by {
        if j < t1.len() {
            assert(s[j] == t1[j]);
        } else {
            assert(s[j] == t2[j - t1.len()]);
        }
    }
    lemma_single_run(s);
    assert(seq![s[0]] + s.drop_first() =~= s);
    assert(append_run(enter(s[0]), s.drop_first()) == Run::Number(s));
    assert(run_views(seq![Run::Number(s)]) =~= seq![
        TokenView::Number(
            wrap32(digits_value(s)),
        ),
    ]);
}

/// Tokenizing the concatenation of two punctuation texts yields the single
/// punctuation token of the concatenated text, not two punctuation tokens.
/// A punctuation character here is one that fails all three classification
/// tests: not alphabetic, not an ASCII digit, and not alphanumeric.
pub proof fn lemma_punct_concat(t1: Seq<char>, t2: Seq<char>)
    requires
        t1.len() > 0,
        t2.len() > 0,
        forall|j: int| 0 <= j < t1.len() ==> !is_alpha(#[trigger] t1[j]) && !is_digit(t1[j])
            && !is_alnum(t1[j]),
        forall|j: int| 0 <= j < t2.len() ==> !is_alpha(#[trigger] t2[j]) && !is_digit(t2[j])
            && !is_alnum(t2[j]),
    ensures
        tokens_of(t1 + t2) == seq![TokenView::Punct(t1 + t2)],
{
    let s = t1 + t2;
    assert forall|j: int| 0 <= j < s.len() implies !is_alpha(#[trigger] s[j]) && !is_digit(s[j])
        && !is_alnum(s[j]) by {
        if j < t1.len() {
            assert(s[j] == t1[j]);
        } else {
            assert(s[j] == t2[j - t1.len()]);
        }
    }
    lemma_single_run(s);
    assert(seq![s[0]] + s.drop_first() =~= s);
    assert(append_run(enter(s[0]), s.drop_first()) == Run::Punct(s));
    assert(run_views(seq![Run::Punct(s)]) =~= seq![
        TokenView::Punct(s),
    ]);
}

/// Whether two runs are of the same class.
pub open spec fn run_same_kind(a: Run, b: Run) -> bool {
    match (a, b) {
        (Run::Word(_), Run::Word(_)) => true,
        (Run::Number(_), Run::Number(_)) => true,
        (Run::Punct(_), Run::Punct(_)) => true,
        _ => false,
    }
}

/// No two adjacent tokens share a kind.
pub open spec fn kinds_alternate(ts: Seq<TokenView>) -> bool {
    forall|j: int| 0 <= j && j + 1 < ts.len() ==> !#[trigger] same_kind(ts[j], ts[j + 1])
}

/// No two adjacent runs share a class.
pub open spec fn runs_alternate(rs: Seq<Run>) -> bool {
    forall|j: int| 0 <= j && j + 1 < rs.len() ==> !#[trigger] run_same_kind(rs[j], rs[j + 1])
}

/// A character on which the punctuation test agrees with the boundary
/// classification: if it is alphanumeric, then it is alphabetic or an ASCII
/// digit. A character that is alphanumeric by way of a numeric category
/// beyond `'0'`–`'9'` closes a punctuation run and immediately opens another,
/// so on inputs holding such a character two punctuation tokens can be
/// adjacent.
pub open spec fn regular_char(c: char) -> bool {
    is_alnum(c) ==> is_alpha(c) || is_digit(c)
}

proof fn lemma_scan_head(r: Run, rest: Seq<char>)
    ensures
        scan(Some(r), rest).len() > 0,
        run_same_kind(scan(Some(r), rest)[0], r),
    decreases rest.len(),
{
    if rest.len() == 0 {
    } else {
        let c = rest[0];
        let rest2 = rest.drop_first();
        if extends(r, c) {
            lemma_scan_head(extend(r, c), rest2);
        } else {
            let tail = scan(Some(enter(c)), rest2);
            assert((seq![r] + tail)[0] == r);
        }
    }
}

proof fn lemma_scan_alternate(st: Option<Run>, rest: Seq<char>)
    requires
        forall|j: int| 0 <= j < rest.len() ==> regular_char(#[trigger] rest[j]),
    ensures
        runs_alternate(scan(st, rest)),
    decreases rest.len(),
{
    if rest.len() == 0 {
    } else {
        let c = rest[0];
        let rest2 = rest.drop_first();
        assert(regular_char(c));
        assert forall|j: int| 0 <= j < rest2.len() implies regular_char(#[trigger] rest2[j]) by {
            assert(rest2[j] == rest[j + 1]);
        }
        match st {
            None => {
                lemma_scan_alternate(Some(enter(c)), rest2);
            },
            Some(r) => {
                if extends(r, c) {
                    lemma_scan_alternate(Some(extend(r, c)), rest2);
                } else {
                    lemma_scan_alternate(Some(enter(c)), rest2);
                    lemma_scan_head(enter(c), rest2);
                    let tail = scan(Some(enter(c)), rest2);
                    let res = seq![r] + tail;
                    assert(!run_same_kind(r, enter(c)));
                    assert forall|j: int| 0 <= j && j + 1 < res.len() implies !#[trigger] run_same_kind(
                        res[j],
                        res[j + 1],
                    ) by {
                        if j == 0 {
                            assert(res[0] == r);
                            assert(res[1] == tail[0]);
                        } else {
                            let k = j - 1;
                            assert(!run_same_kind(tail[k], tail[k + 1]));
                            assert(res[j] == tail[k]);
                            assert(res[j + 1] == tail[k + 1]);
                        }
                    }
                }
            },
        }
    }
}

/// Adjacent tokens of the same kind never occur: the scanner extends a run
/// maximally before it switches class. This holds of every input whose
/// characters are classified consistently (see `regular_char`); on other
/// inputs the punctuation-run exception described there applies.
pub proof fn lemma_kinds_alternate(s: Seq<char>)
    requires
        forall|j: int| 0 <= j < s.len() ==> regular_char(#[trigger] s[j]),
    ensures
        kinds_alternate(tokens_of(s)),
{
    lemma_scan_alternate(None, s);
    let rs = runs_of(s);
    let ts = tokens_of(s);
    assert forall|j: int| 0 <= j && j + 1 < ts.len() implies !#[trigger] same_kind(
        ts[j],
        ts[j + 1],
    ) by {
        assert(ts[j] == token_of_run(rs[j]));
        assert(ts[j + 1] == token_of_run(rs[j + 1]));
        assert(!run_same_kind(rs[j], rs[j + 1]));
    }
}

/// A well-formed run: non-empty, a word run all alphabetic, a number run all
/// ASCII digits, and a punctuation run opened by a character that is neither
/// alphabetic nor an ASCII digit and continued only by non-alphanumeric
/// characters.
pub open spec fn run_wf(r: Run) -> bool {
    run_text(r).len() > 0 && match r {
        Run::Word(t) => forall|j: int| 0 <= j < t.len() ==> is_alpha(#[trigger] t[j]),
        Run::Number(t) => forall|j: int| 0 <= j < t.len() ==> is_digit(#[trigger] t[j]),
        Run::Punct(t) => !is_alpha(t[0]) && !is_digit(t[0]) && forall|j: int|
            1 <= j < t.len() ==> !is_alnum(#[trigger] t[j]),
    }
}

proof fn lemma_extend_wf(r: Run, c: char)
    requires
        run_wf(r),
        extends(r, c),
    ensures
        run_wf(extend(r, c)),
{
    match r {
        Run::Word(t) => {
            let t2 = t.push(c);
            assert forall|j: int| 0 <= j < t2.len() implies is_alpha(#[trigger] t2[j]) by {
                if j < t.len() {
                    assert(t2[j] == t[j]);
                } else {
                    assert(t2[j] == c);
                }
            }
        },
        Run::Number(t) => {
            let t2 = t.push(c);
            assert forall|j: int| 0 <= j < t2.len() implies is_digit(#[trigger] t2[j]) by {
                if j < t.len() {
                    assert(t2[j] == t[j]);
                } else {
                    assert(t2[j] == c);
                }
            }
        },
        Run::Punct(t) => {
            let t2 = t.push(c);
            assert(t2[0] == t[0]);
            assert forall|j: int| 1 <= j < t2.len() implies !is_alnum(#[trigger] t2[j]) by {
                if j < t.len() {
                    assert(t2[j] == t[j]);
                } else {
                    assert(t2[j] == c);
                }
            }
        },
    }
}

proof fn lemma_scan_wf(st: Option<Run>, rest: Seq<char>)
    requires
        st matches Some(r) ==> run_wf(r),
    ensures
        forall|j: int| 0 <= j < scan(st, rest).len() ==> run_wf(#[trigger] scan(st, rest)[j]),
    decreases rest.len(),
{
    if rest.len() == 0 {
        match st {
            None => {},
            Some(r) => {
                assert(scan(st, rest) == seq![r]);
                assert(seq![r][0] == r);
            },
        }
    } else {
        let c = rest[0];
        let rest2 = rest.drop_first();
        match st {
            None => {
                lemma_scan_wf(Some(enter(c)), rest2);
                assert(scan(st, rest) == scan(Some(enter(c)), rest2));
            },
            Some(r) => {
                if extends(r, c) {
                    lemma_extend_wf(r, c);
                    lemma_scan_wf(Some(extend(r, c)), rest2);
                    assert(scan(st, rest) == scan(Some(extend(r, c)), rest2));
                } else {
                    lemma_scan_wf(Some(enter(c)), rest2);
                    let tail = scan(Some(enter(c)), rest2);
                    assert forall|j: int| 0 <= j < (seq![r] + tail).len() implies run_wf(
                        #[trigger] (seq![r] + tail)[j],
                    ) by {
                        if j > 0 {
                            assert((seq![r] + tail)[j] == tail[j - 1]);
                            assert(run_wf(tail[j - 1]));
                        }
                    }
                    assert(scan(st, rest) == seq![r] + tail);
                }
            },
        }
    }
}

/// Every run of every input is well-formed: a word token's text is a
/// non-empty sequence of alphabetic characters, a number token's digit run a
/// non-empty sequence of ASCII digits, and a punctuation token's text a
/// non-empty sequence opened by a character of neither other class.
pub proof fn lemma_runs_wellformed(s: Seq<char>)
    ensures
        forall|j: int| 0 <= j < runs_of(s).len() ==> run_wf(#[trigger] runs_of(s)[j]),
{
    lemma_scan_wf(None, s);
}

} // verus!
