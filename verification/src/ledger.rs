//! The letter ledger: per-code-point aggregates of typing time and errors.
//!
//! The ledger is an association list with pairwise-distinct code points; its
//! mathematical view is a finite map from code point to `Tally`.
use vstd::prelude::*;

verus! {

use vstd::pervasive::VecAdditionalExecFns;

/// One tracked code point: cumulative correct-duration in milliseconds, the
/// number of times it was typed correctly, and the number of errors made on
/// it.
pub struct LetterStat {
    pub cp: char,
    pub duration_ms: u64,
    pub hits: u64,
    pub errors: u64,
}

/// The mathematical content of one ledger entry.
pub ghost struct Tally {
    pub duration_ms: u64,
    pub hits: u64,
    pub errors: u64,
}

pub open spec fn tally_of_stat(e: LetterStat) -> Tally {
    Tally { duration_ms: e.duration_ms, hits: e.hits, errors: e.errors }
}

pub open spec fn zero_tally() -> Tally {
    Tally { duration_ms: 0, hits: 0, errors: 0 }
}

/// Increment saturating at the counter's ceiling.
pub open spec fn sat_inc(x: u64) -> u64 {
    if x == u64::MAX {
        x
    } else {
        (x + 1) as u64
    }
}

/// A correctly typed code point: one more hit, `delta` more milliseconds.
pub open spec fn tally_hit(t: Tally, delta: u64) -> Tally {
    Tally { duration_ms: (t.duration_ms + delta) as u64, hits: sat_inc(t.hits), errors: t.errors }
}

/// A mistyped code point: one more error, time uncharged.
pub open spec fn tally_error(t: Tally) -> Tally {
    Tally { duration_ms: t.duration_ms, hits: t.hits, errors: sat_inc(t.errors) }
}

/// Deleting a correctly typed code point takes one hit back; the duration
/// already credited stays, so latency reflects forward progress only.
pub open spec fn tally_unhit(t: Tally) -> Tally {
    Tally {
        duration_ms: t.duration_ms,
        hits: if t.hits > 0 {
            (t.hits - 1) as u64
        } else {
            0
        },
        errors: t.errors,
    }
}

pub open spec fn distinct_cps(s: Seq<LetterStat>) -> bool {
    forall|i: int, j: int| 0 <= i < j < s.len() ==> s[i].cp != s[j].cp
}

pub open spec fn ledger_map(s: Seq<LetterStat>) -> Map<char, Tally>
    decreases s.len(),
{
    if s.len() == 0 {
        Map::empty()
    } else {
        ledger_map(s.drop_last()).insert(s.last().cp, tally_of_stat(s.last()))
    }
}

/// The tally tracked for `c`, or the zero tally if `c` was never typed.
pub open spec fn tally_in(m: Map<char, Tally>, c: char) -> Tally {
    if m.dom().contains(c) {
        m[c]
    } else {
        zero_tally()
    }
}

pub proof fn lemma_ledger_map_dom(s: Seq<LetterStat>)
    ensures
        forall|c: char|
            ledger_map(s).dom().contains(c) <==> exists|i: int| 0 <= i < s.len() && s[i].cp == c,
    decreases s.len(),
{
    if s.len() > 0 {
        let dl = s.drop_last();
        lemma_ledger_map_dom(dl);
        assert forall|c: char| ledger_map(s).dom().contains(c) implies exists|i: int|
            0 <= i < s.len() && s[i].cp == c by {
            if c == s.last().cp {
                assert(s[s.len() - 1].cp == c);
            } else {
                assert(ledger_map(dl).dom().contains(c));
                let i = choose|i: int| 0 <= i < dl.len() && dl[i].cp == c;
                assert(s[i] == dl[i]);
                assert(s[i].cp == c);
            }
        }
        assert forall|c: char| (exists|i: int| 0 <= i < s.len() && s[i].cp == c) implies ledger_map(
            s,
        ).dom().contains(c) by {
            let i = choose|i: int| 0 <= i < s.len() && s[i].cp == c;
            if i < s.len() - 1 {
                assert(dl[i].cp == c);
                assert(exists|k: int| 0 <= k < dl.len() && dl[k].cp == c);
                assert(ledger_map(dl).dom().contains(c));
            }
        }
    }
}

pub proof fn lemma_ledger_map_index(s: Seq<LetterStat>, i: int)
    requires
        distinct_cps(s),
        0 <= i < s.len(),
    ensures
        ledger_map(s).dom().contains(s[i].cp),
        ledger_map(s)[s[i].cp] == tally_of_stat(s[i]),
    decreases s.len(),
{
    if i == s.len() - 1 {
    } else {
        lemma_ledger_map_index(s.drop_last(), i);
        assert(s.drop_last()[i] == s[i]);
        assert(s[i].cp != s.last().cp);
    }
}

pub proof fn lemma_ledger_map_update(s: Seq<LetterStat>, i: int, e: LetterStat)
    requires
        distinct_cps(s),
        0 <= i < s.len(),
        e.cp == s[i].cp,
    ensures
        distinct_cps(s.update(i, e)),
        ledger_map(s.update(i, e)) == ledger_map(s).insert(e.cp, tally_of_stat(e)),
    decreases s.len(),
{
    let su = s.update(i, e);
    if i == s.len() - 1 {
        assert(su.drop_last() =~= s.drop_last());
        assert(su.last() == e);
        assert(ledger_map(su) =~= ledger_map(s).insert(e.cp, tally_of_stat(e)));
    } else {
        assert(su.drop_last() =~= s.drop_last().update(i, e));
        assert(s.drop_last()[i] == s[i]);
        lemma_ledger_map_update(s.drop_last(), i, e);
        assert(su.last() == s.last());
        assert(e.cp != s.last().cp);
        assert(ledger_map(su) =~= ledger_map(s).insert(e.cp, tally_of_stat(e)));
    }
}

pub proof fn lemma_ledger_map_push(s: Seq<LetterStat>, e: LetterStat)
    requires
        forall|i: int| 0 <= i < s.len() ==> s[i].cp != e.cp,
    ensures
        ledger_map(s.push(e)) == ledger_map(s).insert(e.cp, tally_of_stat(e)),
{
    assert(s.push(e).drop_last() =~= s);
    assert(s.push(e).last() == e);
}

/// Per-code-point aggregates for one attempt, keyed by target code point.
pub struct Ledger {
    entries: Vec<LetterStat>,
}

impl View for Ledger {
    type V = Map<char, Tally>;

    closed spec fn view(&self) -> Map<char, Tally> {
        ledger_map(self.entries@)
    }
}

/// Average correct-duration of a tally: cumulative duration over hits, zero
/// when the code point has no hits.
pub open spec fn avg_ms(t: Tally) -> u64 {
    if t.hits == 0 {
        0
    } else {
        (t.duration_ms as int / t.hits as int) as u64
    }
}

/// Ranking order of the letter lists: larger value first, ties broken by
/// ascending code point.
pub open spec fn rank_le(a: (char, u64), b: (char, u64)) -> bool {
    a.1 > b.1 || (a.1 == b.1 && (a.0 as u32) <= (b.0 as u32))
}

pub open spec fn sorted_ranked(s: Seq<(char, u64)>) -> bool {
    forall|i: int, j: int| 0 <= i < j < s.len() ==> rank_le(s[i], s[j])
}

pub open spec fn pair_cps_distinct(s: Seq<(char, u64)>) -> bool {
    forall|i: int, j: int| 0 <= i < j < s.len() ==> s[i].0 != s[j].0
}

/// What a ranked list of the ledger must be: each listed code point is
/// tracked and carries the value `f` gives its tally, every tracked code
/// point is listed exactly once, and the list descends in the ranking order.
pub open spec fn ranked_view(m: Map<char, Tally>, f: spec_fn(Tally) -> u64, r: Seq<(char, u64)>) -> bool {
    &&& sorted_ranked(r)
    &&& pair_cps_distinct(r)
    &&& forall|i: int| 0 <= i < r.len() ==> m.dom().contains(#[trigger] r[i].0) && r[i].1 == f(m[r[i].0])
    &&& forall|c: char| m.dom().contains(c) ==> exists|i: int| 0 <= i < r.len() && r[i].0 == c
}

impl Ledger {
    pub closed spec fn wf(&self) -> bool {
        distinct_cps(self.entries@)
    }

    pub fn new() -> (r: Ledger)
        ensures
            r.wf(),
            r@ == Map::<char, Tally>::empty(),
    {
        Ledger { entries: Vec::new() }
    }

    fn find(&self, cp: char) -> (r: Option<usize>)
        ensures
            match r {
                Some(i) => i < self.entries@.len() && self.entries@[i as int].cp == cp,
                None => forall|i: int| 0 <= i < self.entries@.len() ==> self.entries@[i].cp != cp,
            },
    {
        let mut i: usize = 0;
        while i < self.entries.len()
            invariant
                i <= self.entries@.len(),
                forall|j: int| 0 <= j < i ==> self.entries@[j].cp != cp,
            decreases self.entries@.len() - i,
        {
            if self.entries[i].cp == cp {
                return Some(i);
            }
            i = i + 1;
        }
        None
    }

    /// Credits a correctly typed code point with `delta` milliseconds.
    pub fn record_hit(&mut self, cp: char, delta: u64)
        requires
            old(self).wf(),
            tally_in(old(self)@, cp).duration_ms + delta <= u64::MAX,
        ensures
            final(self).wf(),
            final(self)@ == old(self)@.insert(cp, tally_hit(tally_in(old(self)@, cp), delta)),
    {
        proof {
            lemma_ledger_map_dom(self.entries@);
        }
        match self.find(cp) {
            Some(i) => {
                proof {
                    lemma_ledger_map_index(self.entries@, i as int);
                }
                let e = LetterStat {
                    cp,
                    duration_ms: self.entries[i].duration_ms + delta,
                    hits: if self.entries[i].hits == u64::MAX {
                        u64::MAX
                    } else {
                        self.entries[i].hits + 1
                    },
                    errors: self.entries[i].errors,
                };
                proof {
                    lemma_ledger_map_update(self.entries@, i as int, e);
                }
                self.entries.set(i, e);
            },
            None => {
                let e = LetterStat { cp, duration_ms: delta, hits: 1, errors: 0 };
                proof {
                    lemma_ledger_map_push(self.entries@, e);
                }
                self.entries.push(e);
            },
        }
    }

    /// Charges an error against a code point; no time is credited.
    pub fn record_error(&mut self, cp: char)
        requires
            old(self).wf(),
        ensures
            final(self).wf(),
            final(self)@ == old(self)@.insert(cp, tally_error(tally_in(old(self)@, cp))),
    {
        proof {
            lemma_ledger_map_dom(self.entries@);
        }
        match self.find(cp) {
            Some(i) => {
                proof {
                    lemma_ledger_map_index(self.entries@, i as int);
                }
                let e = LetterStat {
                    cp,
                    duration_ms: self.entries[i].duration_ms,
                    hits: self.entries[i].hits,
                    errors: if self.entries[i].errors == u64::MAX {
                        u64::MAX
                    } else {
                        self.entries[i].errors + 1
                    },
                };
                proof {
                    lemma_ledger_map_update(self.entries@, i as int, e);
                }
                self.entries.set(i, e);
            },
            None => {
                let e = LetterStat { cp, duration_ms: 0, hits: 0, errors: 1 };
                proof {
                    lemma_ledger_map_push(self.entries@, e);
                }
                self.entries.push(e);
            },
        }
    }

    /// Takes back one hit after a correctly typed code point is deleted.
    pub fn remove_hit(&mut self, cp: char)
        requires
            old(self).wf(),
        ensures
            final(self).wf(),
            final(self)@ == if old(self)@.dom().contains(cp) {
                old(self)@.insert(cp, tally_unhit(old(self)@[cp]))
            } else {
                old(self)@
            },
    {
        proof {
            lemma_ledger_map_dom(self.entries@);
        }
        match self.find(cp) {
            Some(i) => {
                proof {
                    lemma_ledger_map_index(self.entries@, i as int);
                }
                let e = LetterStat {
                    cp,
                    duration_ms: self.entries[i].duration_ms,
                    hits: if self.entries[i].hits > 0 {
                        self.entries[i].hits - 1
                    } else {
                        0
                    },
                    errors: self.entries[i].errors,
                };
                proof {
                    lemma_ledger_map_update(self.entries@, i as int, e);
                }
                self.entries.set(i, e);
            },
            None => {},
        }
    }

    /// All tracked code points ranked by average correct-duration, slowest
    /// first, ties broken by ascending code point.
    pub fn slowest(&self) -> (r: Vec<(char, u64)>)
        requires
            self.wf(),
        ensures
            ranked_view(self@, |t: Tally| avg_ms(t), r@),
    {
        let mut pairs: Vec<(char, u64)> = Vec::new();
        let mut i: usize = 0;
        while i < self.entries.len()
            invariant
                self.wf(),
                i <= self.entries@.len(),
                pairs@.len() == i,
                forall|k: int|
                    0 <= k < i ==> (#[trigger] pairs@[k]).0 == self.entries@[k].cp && pairs@[k].1
                        == avg_ms(tally_of_stat(self.entries@[k])),
            decreases self.entries@.len() - i,
        {
            let e = &self.entries[i];
            let avg: u64 = if e.hits == 0 {
                0
            } else {
                e.duration_ms / e.hits
            };
            pairs.push((e.cp, avg));
            i = i + 1;
        }
        proof {
            self.lemma_pairs_ranked(pairs@, |t: Tally| avg_ms(t));
        }
        let r = sort_ranked(pairs);
        proof {
            self.lemma_sorted_pairs_ranked(pairs@, r@, |t: Tally| avg_ms(t));
        }
        r
    }

    /// All tracked code points ranked by error count, most errors first, ties
    /// broken by ascending code point.
    pub fn most_errors(&self) -> (r: Vec<(char, u64)>)
        requires
            self.wf(),
        ensures
            ranked_view(self@, |t: Tally| t.errors, r@),
    {
        let mut pairs: Vec<(char, u64)> = Vec::new();
        let mut i: usize = 0;
        while i < self.entries.len()
            invariant
                self.wf(),
                i <= self.entries@.len(),
                pairs@.len() == i,
                forall|k: int|
                    0 <= k < i ==> (#[trigger] pairs@[k]).0 == self.entries@[k].cp && pairs@[k].1
                        == tally_of_stat(self.entries@[k]).errors,
            decreases self.entries@.len() - i,
        {
            let e = &self.entries[i];
            pairs.push((e.cp, e.errors));
            i = i + 1;
        }
        proof {
            self.lemma_pairs_ranked(pairs@, |t: Tally| t.errors);
        }
        let r = sort_ranked(pairs);
        proof {
            self.lemma_sorted_pairs_ranked(pairs@, r@, |t: Tally| t.errors);
        }
        r
    }

    /// A permutation of a faithful enumeration of the ledger map, once
    /// sorted, is a ranked view of the map.
    proof fn lemma_sorted_pairs_ranked(
        &self,
        pairs: Seq<(char, u64)>,
        r: Seq<(char, u64)>,
        f: spec_fn(Tally) -> u64,
    )
        requires
            sorted_ranked(r),
            pair_cps_distinct(r),
            forall|i: int|
                0 <= i < pairs.len() ==> self@.dom().contains(#[trigger] pairs[i].0) && pairs[i].1
                    == f(self@[pairs[i].0]),
            forall|c: char| self@.dom().contains(c) ==> exists|i: int|
                0 <= i < pairs.len() && pairs[i].0 == c,
            forall|i: int| 0 <= i < r.len() ==> pairs.contains(#[trigger] r[i]),
            forall|k: int| 0 <= k < pairs.len() ==> r.contains(#[trigger] pairs[k]),
        ensures
            ranked_view(self@, f, r),
    {
        assert forall|i: int| 0 <= i < r.len() implies self@.dom().contains(#[trigger] r[i].0)
            && r[i].1 == f(self@[r[i].0]) by {
            assert(pairs.contains(r[i]));
            let k = choose|k: int| 0 <= k < pairs.len() && pairs[k] == r[i];
            assert(pairs[k].0 == r[i].0);
        }
        assert forall|c: char| self@.dom().contains(c) implies exists|i: int|
            0 <= i < r.len() && r[i].0 == c by {
            let k = choose|k: int| 0 <= k < pairs.len() && pairs[k].0 == c;
            assert(r.contains(pairs[k]));
            let i = choose|i: int| 0 <= i < r.len() && r[i] == pairs[k];
            assert(r[i].0 == c);
        }
    }

    /// A projection of the entries onto `(code point, f(tally))` pairs is a
    /// faithful unsorted enumeration of the ledger map.
    proof fn lemma_pairs_ranked(&self, pairs: Seq<(char, u64)>, f: spec_fn(Tally) -> u64)
        requires
            self.wf(),
            pairs.len() == self.entries@.len(),
            forall|k: int|
                0 <= k < pairs.len() ==> (#[trigger] pairs[k]).0 == self.entries@[k].cp
                    && pairs[k].1 == f(tally_of_stat(self.entries@[k])),
        ensures
            pair_cps_distinct(pairs),
            forall|i: int|
                0 <= i < pairs.len() ==> self@.dom().contains(#[trigger] pairs[i].0) && pairs[i].1
                    == f(self@[pairs[i].0]),
            forall|c: char| self@.dom().contains(c) ==> exists|i: int|
                0 <= i < pairs.len() && pairs[i].0 == c,
    {
        lemma_ledger_map_dom(self.entries@);
        assert forall|i: int| 0 <= i < pairs.len() implies self@.dom().contains(
            #[trigger] pairs[i].0,
        ) && pairs[i].1 == f(self@[pairs[i].0]) by {
            lemma_ledger_map_index(self.entries@, i);
        }
        assert forall|c: char| self@.dom().contains(c) implies exists|i: int|
            0 <= i < pairs.len() && pairs[i].0 == c by {
            let i = choose|i: int| 0 <= i < self.entries@.len() && self.entries@[i].cp == c;
            assert(pairs[i].0 == c);
        }
    }
}

/// Sorts ranking pairs descending by value, ties by ascending code point.
fn sort_ranked(input: Vec<(char, u64)>) -> (r: Vec<(char, u64)>)
    requires
        pair_cps_distinct(input@),
    ensures
        sorted_ranked(r@),
        pair_cps_distinct(r@),
        r@.to_multiset() == input@.to_multiset(),
        forall|i: int| 0 <= i < r@.len() ==> input@.contains(#[trigger] r@[i]),
        forall|k: int| 0 <= k < input@.len() ==> r@.contains(#[trigger] input@[k]),
{

    let mut out: Vec<(char, u64)> = Vec::new();
    let mut idx: usize = 0;
    proof {
        assert(out@ =~= input@.take(0));
    }
    while idx < input.len()
        invariant
            idx <= input@.len(),
            pair_cps_distinct(input@),
            sorted_ranked(out@),
            pair_cps_distinct(out@),
            out@.to_multiset() == input@.take(idx as int).to_multiset(),
        decreases input@.len() - idx,
    {
        let e = input[idx];
        let ghost prev = out@;
        let mut j: usize = 0;
        while j < out.len() && rank_le_exec(&out[j], &e)
            invariant
                j <= out@.len(),
                out@ == prev,
                forall|k: int| 0 <= k < j ==> rank_le(out@[k], e),
            decreases out@.len() - j,
        {
            j = j + 1;
        }
        // Capture why the scan stopped before the vector changes.
        let ghost fits_before = j == prev.len() || !rank_le(prev[j as int], e);
        proof {
            assert(fits_before);
        }
        out.insert(j, e);
        proof {
            let ghost now = out@;
            assert(now == prev.insert(j as int, e));
            prev.insert_ensures(j as int, e);
            // The new element lies between the smaller-ranked prefix and the
            // rest, so sortedness is kept.
            assert forall|a: int, b: int| 0 <= a < b < now.len() implies rank_le(now[a], now[b]) by {
                if a == j {
                    assert(j < prev.len());
                    assert(!rank_le(prev[j as int], e));
                    assert(rank_le(e, prev[j as int]));
                    if b - 1 > j {
                        assert(rank_le(prev[j as int], prev[b - 1]));
                    }
                    assert(rank_le(e, prev[b - 1]));
                } else if b == j {
                    assert(rank_le(prev[a], e));
                } else if a < j && b > j {
                    assert(rank_le(prev[a], prev[b - 1]));
                } else if a > j {
                    assert(rank_le(prev[a - 1], prev[b - 1]));
                }
            }
            // Inserted code point is fresh: it appears in the processed prefix
            // of the input at position idx only.
            assert forall|a: int, b: int| 0 <= a < b < now.len() implies now[a].0 != now[b].0 by {
                if a == j || b == j {
                    let y: int = if a == j {
                        b - 1
                    } else {
                        a
                    };
                    let x = prev[y];
                    if x.0 == e.0 {
                        assert(prev.contains(x));
                        vstd::seq_lib::to_multiset_contains(prev, x);
                        vstd::seq_lib::to_multiset_contains(input@.take(idx as int), x);
                        assert(input@.take(idx as int).contains(x));
                        let k = choose|k: int|
                            0 <= k < input@.take(idx as int).len() && input@.take(idx as int)[k]
                                == x;
                        assert(input@[k] == x);
                        assert(input@[idx as int] == e);
                        assert(false);
                    }
                } else {
                    let ya: int = if a < j {
                        a
                    } else {
                        a - 1
                    };
                    let yb: int = if b < j {
                        b
                    } else {
                        b - 1
                    };
                    assert(now[a] == prev[ya]);
                    assert(now[b] == prev[yb]);
                    assert(prev[ya].0 != prev[yb].0);
                }
            }
            // Multiset bookkeeping: inserting one element into the output
            // matches extending the processed prefix of the input by one.
            let ghost tk = prev.subrange(0, j as int);
            let ghost rest = prev.subrange(j as int, prev.len() as int);
            assert(prev =~= tk + rest);
            vstd::seq_lib::lemma_multiset_commutative(tk, rest);
            assert(now == tk.push(e) + rest);
            vstd::seq_lib::lemma_multiset_commutative(tk.push(e), rest);
            vstd::seq_lib::to_multiset_build(tk, e);
            assert(now.to_multiset() =~= prev.to_multiset().insert(e)) by {
                assert(now.to_multiset() =~= tk.push(e).to_multiset().add(rest.to_multiset()));
                assert(prev.to_multiset() =~= tk.to_multiset().add(rest.to_multiset()));
            }
            assert(input@.take(idx + 1) =~= input@.take(idx as int).push(e));
            vstd::seq_lib::to_multiset_build(input@.take(idx as int), e);
        }
        idx = idx + 1;
    }
    proof {
        assert(input@.take(input@.len() as int) =~= input@);
        assert forall|i: int| 0 <= i < out@.len() implies input@.contains(#[trigger] out@[i]) by {
            assert(out@.contains(out@[i]));
            vstd::seq_lib::to_multiset_contains(out@, out@[i]);
            vstd::seq_lib::to_multiset_contains(input@, out@[i]);
        }
        assert forall|k: int| 0 <= k < input@.len() implies out@.contains(#[trigger] input@[k]) by {
            assert(input@.contains(input@[k]));
            vstd::seq_lib::to_multiset_contains(input@, input@[k]);
            vstd::seq_lib::to_multiset_contains(out@, input@[k]);
        }
    }
    out
}

/// The executable ranking order.
fn rank_le_exec(a: &(char, u64), b: &(char, u64)) -> (r: bool)
    ensures
        r == rank_le(*a, *b),
{
    a.1 > b.1 || (a.1 == b.1 && (a.0 as u32) <= (b.0 as u32))
}

} // verus!
