//! One practice run against a fixed target text: the diff/stats engine.
//!
//! The engine owns the target and typed code-point buffers, the two
//! monotonic-clock marks, and the letter ledger. Keystroke handlers take the
//! current monotonic clock reading in milliseconds; the caller reads the
//! clock, the engine never does.
use vstd::prelude::*;

verus! {

use crate::history::Record;
use crate::ledger::{
    avg_ms, ranked_view, tally_error, tally_hit, tally_in, tally_unhit, Ledger, Tally,
};
use crate::stats::{
    compute_correct, compute_word_score, count_correct, lemma_count_correct_bounds,
    word_score_milli,
};

/// The mathematical state of an attempt.
pub ghost struct Model {
    pub target: Seq<char>,
    pub typed: Seq<char>,
    /// Monotonic clock reading of the first keystroke, if any came.
    pub started: Option<u64>,
    /// Monotonic clock reading of the last ledger-charging keystroke.
    pub last: u64,
    pub ledger: Map<char, Tally>,
}

pub open spec fn model_wf(m: Model) -> bool {
    &&& m.target.len() > 0
    &&& m.typed.len() <= m.target.len()
    &&& (m.started is None ==> m.typed.len() == 0 && m.ledger == Map::<char, Tally>::empty()
        && m.last == 0)
    &&& (m.started matches Some(s) ==> s <= m.last)
    &&& (forall|c: char|
        m.ledger.dom().contains(c) ==> (#[trigger] m.ledger[c]).duration_ms <= m.last)
}

/// The state after one keystroke of `c` at monotonic time `now`. The first
/// keystroke starts both clock marks. The code point is appended only while
/// the typed buffer is shorter than the target; the ledger entry of the
/// target code point at the newly covered position is then charged: a hit
/// with the time since the previous keystroke when `c` matches it, an error
/// otherwise.
pub open spec fn spec_type_char(m: Model, c: char, now: u64) -> Model {
    let started: u64 = if m.started is None {
        now
    } else {
        m.started->0
    };
    if m.typed.len() < m.target.len() {
        let tc = m.target[m.typed.len() as int];
        let delta: u64 = if m.started is None {
            0
        } else {
            (now - m.last) as u64
        };
        let led = if c == tc {
            m.ledger.insert(tc, tally_hit(tally_in(m.ledger, tc), delta))
        } else {
            m.ledger.insert(tc, tally_error(tally_in(m.ledger, tc)))
        };
        Model {
            target: m.target,
            typed: m.typed.push(c),
            started: Some(started),
            last: now,
            ledger: led,
        }
    } else {
        Model {
            target: m.target,
            typed: m.typed,
            started: Some(started),
            last: if m.started is None {
                now
            } else {
                m.last
            },
            ledger: m.ledger,
        }
    }
}

/// The state after removing the last typed code point, if any. When the
/// removed code point had matched the target, one hit is taken back; the
/// duration already credited stays.
pub open spec fn spec_del_char(m: Model) -> Model {
    if m.typed.len() == 0 {
        m
    } else {
        let p = m.typed.len() - 1;
        let tc = m.target[p];
        let led = if m.typed[p] == tc && m.ledger.dom().contains(tc) {
            m.ledger.insert(tc, tally_unhit(m.ledger[tc]))
        } else {
            m.ledger
        };
        Model {
            target: m.target,
            typed: m.typed.drop_last(),
            started: m.started,
            last: m.last,
            ledger: led,
        }
    }
}

/// Accuracy of the typed prefix in milli-units; meaningful only while
/// something is typed.
pub open spec fn accuracy_milli_spec(m: Model) -> int {
    1000 * count_correct(m.target, m.typed) / m.typed.len() as int
}

/// Saturation of an exact value into a 64-bit result.
pub open spec fn sat64(v: int) -> u64 {
    if v > u64::MAX {
        u64::MAX
    } else {
        v as u64
    }
}

/// Characters per minute in milli-units: correctly typed code points over
/// elapsed minutes, exact except for the closing floor.
pub open spec fn cpm_milli_spec(m: Model, now: u64, s: u64) -> int {
    60_000_000 * count_correct(m.target, m.typed) / (now - s)
}

/// Words per minute in milli-units: the completed-word score over elapsed
/// minutes, exact except for the closing floor.
pub open spec fn wpm_milli_spec(m: Model, now: u64, s: u64) -> int {
    60_000 * word_score_milli(m.target, m.typed) / (now - s)
}

/// The diff/stats engine of one attempt.
pub struct TextManager {
    target: Vec<char>,
    typed: Vec<char>,
    started_ms: Option<u64>,
    last_ms: u64,
    ledger: Ledger,
}

impl View for TextManager {
    type V = Model;

    closed spec fn view(&self) -> Model {
        Model {
            target: self.target@,
            typed: self.typed@,
            started: self.started_ms,
            last: self.last_ms,
            ledger: self.ledger@,
        }
    }
}

impl TextManager {
    pub closed spec fn wf(&self) -> bool {
        model_wf(self@) && self.ledger.wf()
    }

    /// The well-formed states satisfy the model invariant.
    pub proof fn lemma_wf_model(&self)
        requires
            self.wf(),
        ensures
            model_wf(self@),
    {
    }

    /// A new attempt over a non-empty target text, with nothing typed and an
    /// empty ledger; the clock marks start on the first keystroke.
    pub fn new(target: Vec<char>) -> (r: TextManager)
        requires
            target@.len() > 0,
        ensures
            r.wf(),
            r@.target == target@,
            r@.typed == Seq::<char>::empty(),
            r@.started is None,
            r@.ledger == Map::<char, Tally>::empty(),
    {
        TextManager {
            target,
            typed: Vec::new(),
            started_ms: None,
            last_ms: 0,
            ledger: Ledger::new(),
        }
    }

    /// Handles one keystroke at monotonic time `now_ms`. The typed buffer
    /// never grows past the target's code-point count.
    pub fn type_char(&mut self, c: char, now_ms: u64)
        requires
            old(self).wf(),
            old(self)@.started matches Some(s) ==> now_ms >= old(self)@.last,
        ensures
            final(self).wf(),
            final(self)@ == spec_type_char(old(self)@, c, now_ms),
            final(self)@.typed.len() <= final(self)@.target.len(),
    {
        let ghost m = self@;
        let was_started: bool = self.started_ms.is_some();
        if !was_started {
            self.started_ms = Some(now_ms);
            self.last_ms = now_ms;
        }
        if self.typed.len() < self.target.len() {
            let p: usize = self.typed.len();
            let tc: char = self.target[p];
            self.typed.push(c);
            let delta: u64 = now_ms - self.last_ms;
            proof {
                if !was_started {
                    assert(delta == 0);
                }
                assert(tally_in(m.ledger, tc).duration_ms + delta <= now_ms);
            }
            if c == tc {
                self.ledger.record_hit(tc, delta);
            } else {
                self.ledger.record_error(tc);
            }
            self.last_ms = now_ms;
            proof {
                assert(self@ == spec_type_char(m, c, now_ms));
                assert forall|d: char| self@.ledger.dom().contains(d) implies (
                #[trigger] self@.ledger[d]).duration_ms <= self@.last by {
                    if d != tc {
                        assert(m.ledger.dom().contains(d));
                        assert(m.ledger[d].duration_ms <= m.last);
                    }
                }
            }
        } else {
            proof {
                assert(self@ == spec_type_char(m, c, now_ms));
            }
        }
    }

    /// Removes the last typed code point, if any. The typed buffer stays
    /// within the target's code-point count.
    pub fn del_char(&mut self)
        requires
            old(self).wf(),
        ensures
            final(self).wf(),
            final(self)@ == spec_del_char(old(self)@),
            final(self)@.typed.len() <= final(self)@.target.len(),
    {
        let ghost m = self@;
        if self.typed.len() > 0 {
            let popped: Option<char> = self.typed.pop();
            let p: usize = self.typed.len();
            let tc: char = self.target[p];
            match popped {
                Some(ch) => {
                    if ch == tc {
                        self.ledger.remove_hit(tc);
                    }
                },
                None => {},
            }
            proof {
                assert(self@.typed =~= m.typed.drop_last());
                assert(self@ == spec_del_char(m));
            }
        }
    }

    /// The stored accuracy: defined exactly when something is typed, and then
    /// the milli-unit fraction of typed positions that match the target,
    /// always within zero and one thousand.
    pub fn get_accuracy(&self) -> (r: Option<u64>)
        requires
            self.wf(),
        ensures
            r is Some <==> self@.typed.len() > 0,
            r matches Some(a) ==> a == accuracy_milli_spec(self@) && a <= 1000,
    {
        if self.typed.len() == 0 {
            None
        } else {
            let correct: usize = compute_correct(&self.target, &self.typed);
            proof {
                lemma_count_correct_bounds(self@.target, self@.typed);
                let n = self@.typed.len() as int;
                let c = count_correct(self@.target, self@.typed);
                assert(0 <= 1000 * c <= 1000 * n) by (nonlinear_arith)
                    requires
                        0 <= c <= n,
                ;
                vstd::arithmetic::div_mod::lemma_div_is_ordered(1000 * c, 1000 * n, n);
                vstd::arithmetic::div_mod::lemma_div_by_multiple(1000, n);
                vstd::arithmetic::div_mod::lemma_div_pos_is_pos(1000 * c, n);
            }
            let v: u128 = (correct as u128) * 1000 / (self.typed.len() as u128);
            Some(v as u64)
        }
    }

    /// Characters per minute: defined once the clock has started and moved,
    /// then the exact milli-cpm, saturating at the 64-bit ceiling.
    pub fn get_cpm(&self, now_ms: u64) -> (r: Option<u64>)
        requires
            self.wf(),
            self@.started matches Some(s) ==> now_ms >= self@.last,
        ensures
            r is Some <==> (self@.started matches Some(s) && now_ms > s),
            (self@.started matches Some(s) && now_ms > s) ==> r == Some(
                sat64(cpm_milli_spec(self@, now_ms, self@.started->0)),
            ),
    {
        match self.started_ms {
            None => None,
            Some(s) => {
                if now_ms == s {
                    None
                } else {
                    let correct: usize = compute_correct(&self.target, &self.typed);
                    proof {
                        lemma_count_correct_bounds(self@.target, self@.typed);
                        vstd::arithmetic::div_mod::lemma_div_pos_is_pos(
                            60_000_000 * count_correct(self@.target, self@.typed),
                            now_ms - s,
                        );
                    }
                    let elapsed: u64 = now_ms - s;
                    let v: u128 = (correct as u128) * 60_000_000u128 / (elapsed as u128);
                    if v > u64::MAX as u128 {
                        Some(u64::MAX)
                    } else {
                        Some(v as u64)
                    }
                }
            },
        }
    }

    /// Words per minute: defined once the clock has started and moved, then
    /// the exact milli-wpm of the completed-word score, saturating at the
    /// 64-bit ceiling.
    pub fn get_wpm(&self, now_ms: u64) -> (r: Option<u64>)
        requires
            self.wf(),
            self@.started matches Some(s) ==> now_ms >= self@.last,
        ensures
            r is Some <==> (self@.started matches Some(s) && now_ms > s),
            (self@.started matches Some(s) && now_ms > s) ==> r == Some(
                sat64(wpm_milli_spec(self@, now_ms, self@.started->0)),
            ),
    {
        match self.started_ms {
            None => None,
            Some(s) => {
                if now_ms == s {
                    None
                } else {
                    let n: usize = self.typed.len();
                    let score: u128 = compute_word_score(&self.target, &self.typed);
                    proof {
                        assert(score <= 1000 * (n + 1));
                        vstd::arithmetic::div_mod::lemma_div_pos_is_pos(
                            60_000 * word_score_milli(self@.target, self@.typed),
                            now_ms - s,
                        );
                    }
                    let elapsed: u64 = now_ms - s;
                    let v: u128 = score * 60_000u128 / (elapsed as u128);
                    if v > u64::MAX as u128 {
                        Some(u64::MAX)
                    } else {
                        Some(v as u64)
                    }
                }
            },
        }
    }

    /// Closes the run: when accuracy, wpm and cpm are all defined, the record
    /// to persist, with the given wall-clock timestamp; otherwise nothing,
    /// and nothing is persisted.
    pub fn end_run(&self, now_ms: u64, wall_s: u64) -> (r: Option<Record>)
        requires
            self.wf(),
            self@.started matches Some(s) ==> now_ms >= self@.last,
        ensures
            r is Some <==> (self@.typed.len() > 0 && (self@.started matches Some(s) && now_ms
                > s)),
            r matches Some(rec) ==> {
                &&& rec.time_s == wall_s
                &&& rec.accuracy_milli == accuracy_milli_spec(self@)
                &&& rec.wpm_milli == sat64(wpm_milli_spec(self@, now_ms, self@.started->0))
                &&& rec.cpm_milli == sat64(cpm_milli_spec(self@, now_ms, self@.started->0))
            },
    {
        let acc = self.get_accuracy();
        let wpm = self.get_wpm(now_ms);
        let cpm = self.get_cpm(now_ms);
        match (acc, wpm, cpm) {
            (Some(a), Some(w), Some(c)) => Some(
                Record { time_s: wall_s, accuracy_milli: a, wpm_milli: w, cpm_milli: c },
            ),
            _ => None,
        }
    }

    /// The display spans of the typed prefix against the target text.
    pub fn get_text_parts(&self) -> (r: Vec<Vec<char>>)
        requires
            self.wf(),
        ensures
            r.deep_view() == crate::segment::segments(self@.target, self@.typed),
    {
        crate::segment::text_parts(&self.target, &self.typed)
    }

    /// All tracked code points ranked by average correct-duration, slowest
    /// first, ties broken by ascending code point.
    pub fn get_slowest_letters(&self) -> (r: Vec<(char, u64)>)
        requires
            self.wf(),
        ensures
            ranked_view(self@.ledger, |t: Tally| avg_ms(t), r@),
    {
        self.ledger.slowest()
    }

    /// All tracked code points ranked by error count, most errors first,
    /// ties broken by ascending code point.
    pub fn get_most_error_letters(&self) -> (r: Vec<(char, u64)>)
        requires
            self.wf(),
        ensures
            ranked_view(self@.ledger, |t: Tally| t.errors, r@),
    {
        self.ledger.most_errors()
    }

    /// The historical trend of past runs, resampled onto `scale_x` buckets
    /// of height at most `scale_y`.
    pub fn get_improvement(records: &Vec<Record>, scale_x: usize, scale_y: usize) -> (r: Option<
        Vec<usize>,
    >)
        requires
            scale_x <= 65536,
            scale_y <= 65536,
            records@.len() <= 0x1_0000_0000,
        ensures
            r is Some <==> crate::resampler::improvement_spec(
                records@,
                scale_x as int,
                scale_y as int,
            ) is Some,
            r matches Some(v) ==> crate::resampler::improvement_spec(
                records@,
                scale_x as int,
                scale_y as int,
            ) == Some(v@),
    {
        crate::resampler::get_improvement(records, scale_x, scale_y)
    }
}

/// The ledger tracks exactly the target code points typed at least once:
/// each appending keystroke adds the covered target code point to the
/// tracked set, and no keystroke or deletion removes one.
pub proof fn lemma_ledger_tracks_typed(m: Model, c: char, now: u64)
    requires
        model_wf(m),
    ensures
        m.typed.len() < m.target.len() ==> spec_type_char(m, c, now).ledger.dom()
            == m.ledger.dom().insert(m.target[m.typed.len() as int]),
        m.typed.len() >= m.target.len() ==> spec_type_char(m, c, now).ledger.dom()
            == m.ledger.dom(),
        spec_del_char(m).ledger.dom() == m.ledger.dom(),
{
    if m.typed.len() < m.target.len() {
        assert(spec_type_char(m, c, now).ledger.dom() =~= m.ledger.dom().insert(
            m.target[m.typed.len() as int],
        ));
    }
    if m.typed.len() > 0 {
        let p = m.typed.len() - 1;
        if m.typed[p] == m.target[p] && m.ledger.dom().contains(m.target[p]) {
            assert(spec_del_char(m).ledger.dom() =~= m.ledger.dom());
        }
    }
}

/// Typing a code point that matches the target at the next position and
/// immediately deleting it restores the typed buffer, the correct count, the
/// accuracy, and every ledger hit and error count; only the duration
/// credited to that target code point grows by the elapsed time, the
/// documented forward-only asymmetry.
pub proof fn lemma_type_then_delete_restores(m: Model, c: char, now: u64)
    requires
        model_wf(m),
        m.typed.len() < m.target.len(),
        c == m.target[m.typed.len() as int],
        m.started matches Some(s) ==> now >= m.last,
        tally_in(m.ledger, m.target[m.typed.len() as int]).hits < u64::MAX,
    ensures
        ({
            let m2 = spec_del_char(spec_type_char(m, c, now));
            &&& m2.target == m.target
            &&& m2.typed == m.typed
            &&& count_correct(m2.target, m2.typed) == count_correct(m.target, m.typed)
            &&& m.typed.len() > 0 ==> accuracy_milli_spec(m2) == accuracy_milli_spec(m)
            &&& forall|d: char|
                tally_in(m2.ledger, d).hits == tally_in(m.ledger, d).hits
            &&& forall|d: char|
                tally_in(m2.ledger, d).errors == tally_in(m.ledger, d).errors
            &&& forall|d: char|
                d != c ==> tally_in(m2.ledger, d) == tally_in(m.ledger, d)
        }),
{
    let m1 = spec_type_char(m, c, now);
    let m2 = spec_del_char(m1);
    assert(m1.typed.len() == m.typed.len() + 1);
    assert(m1.typed[m.typed.len() as int] == c);
    assert(m2.typed =~= m.typed);
    let tc = m.target[m.typed.len() as int];
    let t0 = tally_in(m.ledger, tc);
    let delta: u64 = if m.started is None {
        0
    } else {
        (now - m.last) as u64
    };
    assert(m1.ledger == m.ledger.insert(tc, tally_hit(t0, delta)));
    assert(m1.ledger.dom().contains(tc));
    assert(m2.ledger == m1.ledger.insert(tc, tally_unhit(tally_hit(t0, delta))));
    assert(tally_unhit(tally_hit(t0, delta)).hits == t0.hits);
    assert(tally_unhit(tally_hit(t0, delta)).errors == t0.errors);
    assert forall|d: char| tally_in(m2.ledger, d).hits == tally_in(m.ledger, d).hits by {
        if d != tc {
            assert(tally_in(m2.ledger, d) == tally_in(m.ledger, d));
        }
    }
}

} // verus!
