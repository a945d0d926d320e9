//! The segmentation algorithm: partitions the target text into spans for
//! display.
//!
//! The typed prefix is scanned positionally against the target while a
//! "currently matching" flag, starting true, tracks whether the span being
//! built is matched or mismatched. Each disagreement between the flag and the
//! current position closes the span before that position and flips the flag.
//! Two trailing spans follow: the tail of the typed region under the last
//! flag, and everything of the target past the typed region. Spans hold whole
//! code points, so no span boundary can split a character.
use vstd::prelude::*;

verus! {

/// The spans from position `i` on, with the current span open since `start`
/// under `flag`.
pub open spec fn seg_from(
    target: Seq<char>,
    typed: Seq<char>,
    start: int,
    i: int,
    flag: bool,
) -> Seq<Seq<char>>
    recommends
        0 <= start <= i <= typed.len() <= target.len(),
    decreases typed.len() - i,
{
    if i < 0 || i >= typed.len() {
        seq![
            target.subrange(start, typed.len() as int),
            target.subrange(typed.len() as int, target.len() as int),
        ]
    } else if (typed[i] == target[i]) != flag {
        seq![target.subrange(start, i)] + seg_from(target, typed, i, i + 1, !flag)
    } else {
        seg_from(target, typed, start, i + 1, flag)
    }
}

/// The display spans of a typed prefix against its target.
pub open spec fn segments(target: Seq<char>, typed: Seq<char>) -> Seq<Seq<char>> {
    seg_from(target, typed, 0, 0, true)
}

proof fn lemma_flatten_cons(x: Seq<char>, rest: Seq<Seq<char>>)
    ensures
        (seq![x] + rest).flatten() == x + rest.flatten(),
{
    let s = seq![x] + rest;
    assert(s.len() > 0);
    assert(s.first() == x);
    assert(s.drop_first() =~= rest);
}

proof fn lemma_seg_from_flatten(
    target: Seq<char>,
    typed: Seq<char>,
    start: int,
    i: int,
    flag: bool,
)
    requires
        0 <= start <= i <= typed.len() <= target.len(),
    ensures
        seg_from(target, typed, start, i, flag).flatten() == target.subrange(
            start,
            target.len() as int,
        ),
    decreases typed.len() - i,
{
    let tl = typed.len() as int;
    let n = target.len() as int;
    if i >= typed.len() {
        let a = target.subrange(start, tl);
        let b = target.subrange(tl, n);
        lemma_flatten_cons(a, seq![b]);
        assert(seq![a, b] =~= seq![a] + seq![b]);
        lemma_flatten_cons(b, Seq::<Seq<char>>::empty());
        assert(seq![b] =~= seq![b] + Seq::<Seq<char>>::empty());
        assert(Seq::<Seq<char>>::empty().flatten() == Seq::<char>::empty());
        assert(seq![b].flatten() =~= b);
        assert(seq![a, b].flatten() =~= a + b);
        assert(a + b =~= target.subrange(start, n));
    } else if (typed[i] == target[i]) != flag {
        lemma_seg_from_flatten(target, typed, i, i + 1, !flag);
        lemma_flatten_cons(target.subrange(start, i), seg_from(target, typed, i, i + 1, !flag));
        assert(target.subrange(start, i) + target.subrange(i, n) =~= target.subrange(start, n));
    } else {
        lemma_seg_from_flatten(target, typed, start, i + 1, flag);
    }
}

/// Concatenating all display spans reproduces the target text exactly.
pub proof fn lemma_segments_cover_target(target: Seq<char>, typed: Seq<char>)
    requires
        typed.len() <= target.len(),
    ensures
        segments(target, typed).flatten() == target,
{
    lemma_seg_from_flatten(target, typed, 0, 0, true);
    assert(target.subrange(0, target.len() as int) =~= target);
}

/// Copies the code points of `v` between positions `a` and `b`.
fn copy_range(v: &Vec<char>, a: usize, b: usize) -> (r: Vec<char>)
    requires
        a <= b <= v@.len(),
    ensures
        r@ == v@.subrange(a as int, b as int),
{
    let mut r: Vec<char> = Vec::new();
    let mut i: usize = a;
    while i < b
        invariant
            a <= i <= b <= v@.len(),
            r@ =~= v@.subrange(a as int, i as int),
        decreases b - i,
    {
        r.push(v[i]);
        proof {
            assert(r@ =~= v@.subrange(a as int, i + 1));
        }
        i = i + 1;
    }
    r
}

/// Computes the display spans of the typed prefix against the target.
pub fn text_parts(target: &Vec<char>, typed: &Vec<char>) -> (r: Vec<Vec<char>>)
    requires
        typed@.len() <= target@.len(),
    ensures
        r.deep_view() == segments(target@, typed@),
{
    let ghost tgt = target@;
    let ghost tpd = typed@;
    let mut parts: Vec<Vec<char>> = Vec::new();
    let mut start: usize = 0;
    let mut flag: bool = true;
    let mut i: usize = 0;
    proof {
        assert(parts.deep_view() =~~= Seq::<Seq<char>>::empty());
        assert(parts.deep_view() + seg_from(tgt, tpd, 0, 0, true) =~~= seg_from(
            tgt,
            tpd,
            0,
            0,
            true,
        ));
    }
    while i < typed.len()
        invariant
            0 <= start <= i <= tpd.len() <= tgt.len(),
            tgt == target@,
            tpd == typed@,
            segments(tgt, tpd) == parts.deep_view() + seg_from(
                tgt,
                tpd,
                start as int,
                i as int,
                flag,
            ),
        decreases tpd.len() - i,
    {
        let m: bool = typed[i] == target[i];
        if m != flag {
            let ghost before = parts.deep_view();
            let span = copy_range(target, start, i);
            parts.push(span);
            proof {
                assert(parts.deep_view() =~~= before.push(tgt.subrange(start as int, i as int)));
                assert(parts.deep_view() + seg_from(tgt, tpd, i as int, i + 1, !flag) =~~= before
                    + (seq![tgt.subrange(start as int, i as int)] + seg_from(
                    tgt,
                    tpd,
                    i as int,
                    i + 1,
                    !flag,
                )));
            }
            start = i;
            flag = m;
        }
        i = i + 1;
    }
    let ghost before_tail = parts.deep_view();
    let tail = copy_range(target, start, typed.len());
    parts.push(tail);
    let rest = copy_range(target, typed.len(), target.len());
    parts.push(rest);
    proof {
        let tl = tpd.len() as int;
        let n = tgt.len() as int;
        assert(parts.deep_view() =~~= before_tail.push(tgt.subrange(start as int, tl)).push(
            tgt.subrange(tl, n),
        ));
        assert(seg_from(tgt, tpd, start as int, i as int, flag) =~~= seq![
            tgt.subrange(start as int, tl),
            tgt.subrange(tl, n),
        ]);
        assert(parts.deep_view() =~~= before_tail + seq![
            tgt.subrange(start as int, tl),
            tgt.subrange(tl, n),
        ]);
    }
    parts
}

} // verus!
