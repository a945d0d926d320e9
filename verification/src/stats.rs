//! Positional statistics over a target text and the typed prefix.
//!
//! All scores are exact integers; fractional quantities use milli-units
//! (one thousandth of a whole unit).
use vstd::prelude::*;

verus! {

/// What `char::is_alphanumeric` returns for a code point; the result depends
/// on the code point alone.
pub uninterp spec fn is_alnum(c: char) -> bool;

/// Relies on `char::is_alphanumeric` of std: whether a code point is a letter
/// or a digit under Unicode's categories. The result depends on the code
/// point alone, so it carries the name `is_alnum`.
#[verifier::external_body]
pub(crate) fn alnum(c: char) -> (r: bool)
    ensures
        r == is_alnum(c),
{
    c.is_alphanumeric()
}

/// Number of positions of `typed` that match `target` at the same position.
pub open spec fn count_correct(target: Seq<char>, typed: Seq<char>) -> int
    decreases typed.len(),
{
    if typed.len() == 0 {
        0
    } else {
        count_correct(target, typed.drop_last()) + if typed.last() == target[typed.len() - 1] {
            1int
        } else {
            0int
        }
    }
}

pub proof fn lemma_count_correct_bounds(target: Seq<char>, typed: Seq<char>)
    ensures
        0 <= count_correct(target, typed) <= typed.len(),
    decreases typed.len(),
{
    if typed.len() > 0 {
        lemma_count_correct_bounds(target, typed.drop_last());
    }
}

/// The milli-unit fraction of a completed word that was typed correctly:
/// `matched` of its `len` code points, floored to thousandths.
pub open spec fn word_fraction_milli(matched: int, len: int) -> int {
    1000 * matched / len
}

/// Completed-word score of the scan from position `i`, in milli-words, with a
/// current run of `run_len` alphanumeric target code points of which
/// `run_matched` were typed correctly. A maximal alphanumeric run of the
/// target that lies entirely inside the typed region contributes the fraction
/// of its code points that were typed correctly, counted once when the run's
/// right boundary (a non-alphanumeric code point or the end of the typed
/// region) is reached.
pub open spec fn word_score_scan(
    target: Seq<char>,
    typed: Seq<char>,
    i: int,
    run_len: int,
    run_matched: int,
) -> int
    decreases typed.len() - i,
{
    if i < 0 || i >= typed.len() {
        if run_len > 0 && (i >= target.len() || !is_alnum(target[i])) {
            word_fraction_milli(run_matched, run_len)
        } else {
            0
        }
    } else {
        let matched: int = if typed[i] == target[i] {
            1
        } else {
            0
        };
        if is_alnum(target[i]) {
            word_score_scan(target, typed, i + 1, run_len + 1, run_matched + matched)
        } else {
            (if run_len > 0 {
                word_fraction_milli(run_matched, run_len)
            } else {
                0int
            }) + word_score_scan(target, typed, i + 1, 0, 0)
        }
    }
}

/// Completed-word score of the whole typed prefix, in milli-words.
pub open spec fn word_score_milli(target: Seq<char>, typed: Seq<char>) -> int {
    word_score_scan(target, typed, 0, 0, 0)
}

pub proof fn lemma_word_fraction_milli_bounds(matched: int, len: int)
    requires
        0 < len,
        0 <= matched <= len,
    ensures
        0 <= word_fraction_milli(matched, len) <= 1000,
{
    assert(0 <= 1000 * matched <= 1000 * len) by (nonlinear_arith)
        requires
            0 <= matched <= len,
    ;
    vstd::arithmetic::div_mod::lemma_div_is_ordered(1000 * matched, 1000 * len, len);
    vstd::arithmetic::div_mod::lemma_div_by_multiple(1000, len);
    vstd::arithmetic::div_mod::lemma_div_pos_is_pos(1000 * matched, len);
}

pub proof fn lemma_word_score_scan_bounds(
    target: Seq<char>,
    typed: Seq<char>,
    i: int,
    run_len: int,
    run_matched: int,
)
    requires
        0 <= i <= typed.len(),
        0 <= run_matched <= run_len,
    ensures
        0 <= word_score_scan(target, typed, i, run_len, run_matched) <= 1000 * (typed.len() - i
            + 1),
    decreases typed.len() - i,
{
    if i >= typed.len() {
        if run_len > 0 && (i >= target.len() || !is_alnum(target[i])) {
            lemma_word_fraction_milli_bounds(run_matched, run_len);
        }
    } else {
        let matched: int = if typed[i] == target[i] {
            1
        } else {
            0
        };
        if is_alnum(target[i]) {
            lemma_word_score_scan_bounds(target, typed, i + 1, run_len + 1, run_matched + matched);
        } else {
            lemma_word_score_scan_bounds(target, typed, i + 1, 0, 0);
            if run_len > 0 {
                lemma_word_fraction_milli_bounds(run_matched, run_len);
            }
        }
    }
}

/// Counts the positions of `typed` that match `target`.
pub fn compute_correct(target: &Vec<char>, typed: &Vec<char>) -> (r: usize)
    requires
        typed@.len() <= target@.len(),
    ensures
        r == count_correct(target@, typed@),
{
    let mut count: usize = 0;
    let mut i: usize = 0;
    while i < typed.len()
        invariant
            0 <= i <= typed@.len() <= target@.len(),
            count == count_correct(target@, typed@.take(i as int)),
            count <= i,
        decreases typed@.len() - i,
    {
        proof {
            assert(typed@.take(i + 1).drop_last() =~= typed@.take(i as int));
        }
        if typed[i] == target[i] {
            count = count + 1;
        }
        i = i + 1;
    }
    proof {
        assert(typed@.take(typed@.len() as int) =~= typed@);
    }
    count
}

/// Computes the completed-word score of the typed prefix, in milli-words.
pub fn compute_word_score(target: &Vec<char>, typed: &Vec<char>) -> (r: u128)
    requires
        typed@.len() <= target@.len(),
    ensures
        r == word_score_milli(target@, typed@),
        r <= 1000 * (typed@.len() + 1),
{
    let ghost tgt = target@;
    let ghost tpd = typed@;
    proof {
        lemma_word_score_scan_bounds(tgt, tpd, 0, 0, 0);
    }
    let mut score: u128 = 0;
    let mut run_len: usize = 0;
    let mut run_matched: usize = 0;
    let mut i: usize = 0;
    while i < typed.len()
        invariant
            0 <= i <= tpd.len() <= tgt.len(),
            tgt == target@,
            tpd == typed@,
            run_matched <= run_len <= i,
            score + word_score_scan(tgt, tpd, i as int, run_len as int, run_matched as int)
                == word_score_milli(tgt, tpd),
            0 <= word_score_milli(tgt, tpd) <= 1000 * (tpd.len() + 1),
            score >= 0,
        decreases tpd.len() - i,
    {
        proof {
            lemma_word_score_scan_bounds(
                tgt,
                tpd,
                (i + 1) as int,
                run_len + 1 as int,
                run_matched + 1 as int,
            );
        }
        let matched: usize = if typed[i] == target[i] {
            1
        } else {
            0
        };
        if alnum(target[i]) {
            run_len = run_len + 1;
            run_matched = run_matched + matched;
        } else {
            if run_len > 0 {
                proof {
                    lemma_word_fraction_milli_bounds(run_matched as int, run_len as int);
                    lemma_word_score_scan_bounds(tgt, tpd, (i + 1) as int, 0, 0);
                }
                let bonus: u128 = (1000u128 * (run_matched as u128)) / (run_len as u128);
                score = score + bonus;
            }
            run_len = 0;
            run_matched = 0;
        }
        i = i + 1;
    }
    if run_len > 0 {
        let close_run: bool = if typed.len() == target.len() {
            true
        } else {
            !alnum(target[typed.len()])
        };
        if close_run {
            proof {
                lemma_word_fraction_milli_bounds(run_matched as int, run_len as int);
            }
            let bonus: u128 = (1000u128 * (run_matched as u128)) / (run_len as u128);
            score = score + bonus;
        }
    }
    score
}

} // verus!
