//! The improvement resampler: maps a series of historical cpm values onto a
//! fixed-width, fixed-height trend buffer.
//!
//! An empty series, and a series whose maximum cpm is zero, yield no data.
//! One output bucket per column: when the series length equals the width the
//! mapping is exact; a shorter series is linearly interpolated; a longer one
//! is averaged over a window. Every bucket is the exact value normalized
//! against the series maximum and scaled to the height, floored, so each
//! bucket lies between zero and the height.
use vstd::prelude::*;

verus! {

use crate::history::Record;
use vstd::arithmetic::div_mod::{
    lemma_div_by_multiple, lemma_div_is_ordered, lemma_div_pos_is_pos, lemma_fundamental_div_mod,
};

/// The maximum of a series of cpm values, zero when empty.
pub open spec fn max_cpm(cpms: Seq<u64>) -> u64
    decreases cpms.len(),
{
    if cpms.len() == 0 {
        0
    } else {
        let m = max_cpm(cpms.drop_last());
        if cpms.last() > m {
            cpms.last()
        } else {
            m
        }
    }
}

pub proof fn lemma_max_cpm_ge(cpms: Seq<u64>, j: int)
    requires
        0 <= j < cpms.len(),
    ensures
        cpms[j] <= max_cpm(cpms),
    decreases cpms.len(),
{
    if j < cpms.len() - 1 {
        lemma_max_cpm_ge(cpms.drop_last(), j);
    }
}

/// Sum of the cpm values with index in `[lo, hi)`.
pub open spec fn sum_range(cpms: Seq<u64>, lo: int, hi: int) -> int
    decreases hi - lo,
{
    if lo >= hi {
        0
    } else {
        cpms[lo] + sum_range(cpms, lo + 1, hi)
    }
}

pub proof fn lemma_sum_range_bounds(cpms: Seq<u64>, lo: int, hi: int, mx: int)
    requires
        0 <= lo <= hi <= cpms.len(),
        forall|j: int| 0 <= j < cpms.len() ==> cpms[j] <= mx,
    ensures
        0 <= sum_range(cpms, lo, hi) <= (hi - lo) * mx,
    decreases hi - lo,
{
    if lo < hi {
        lemma_sum_range_bounds(cpms, lo + 1, hi, mx);
        let rest = sum_range(cpms, lo + 1, hi);
        assert(sum_range(cpms, lo, hi) == cpms[lo] + rest);
        assert(0 <= cpms[lo] + rest <= (hi - lo) * mx) by (nonlinear_arith)
            requires
                0 <= cpms[lo] <= mx && 0 <= rest && rest <= (hi - (lo + 1)) * mx && lo < hi,
        ;
    } else {
        assert(sum_range(cpms, lo, hi) == 0);
        assert((hi - lo) * mx == 0) by (nonlinear_arith)
            requires
                lo == hi,
        ;
    }
}

/// A value `num/den` of at most one, normalized to the height `sy` and
/// floored, lies between zero and `sy`.
proof fn lemma_norm_le(num: int, den: int, sy: int)
    requires
        0 <= num <= den,
        0 < den,
        0 <= sy,
    ensures
        0 <= num * sy / den <= sy,
{
    assert(0 <= num * sy <= den * sy) by (nonlinear_arith)
        requires
            0 <= num <= den && 0 <= sy,
    ;
    lemma_div_is_ordered(num * sy, den * sy, den);
    lemma_div_by_multiple(sy, den);
    assert(den * sy == sy * den) by (nonlinear_arith);
    lemma_div_pos_is_pos(num * sy, den);
}

/// A quotient bound: `x <= d * q` gives `x / d <= q`.
proof fn lemma_div_bound(x: int, q: int, d: int)
    requires
        0 < d,
        0 <= q,
        0 <= x <= d * q,
    ensures
        x / d <= q,
{
    lemma_div_is_ordered(x, d * q, d);
    lemma_div_by_multiple(q, d);
    assert(d * q == q * d) by (nonlinear_arith);
    lemma_div_pos_is_pos(x, d);
}

/// With a nonzero remainder the quotient stays strictly under the bound.
proof fn lemma_div_bound_strict(x: int, q: int, d: int)
    requires
        0 < d,
        0 <= q,
        0 <= x <= d * q,
        x % d > 0,
    ensures
        x / d < q,
{
    lemma_div_bound(x, q, d);
    lemma_fundamental_div_mod(x, d);
    if x / d == q {
        assert(x == d * q + x % d);
    }
}

/// One output bucket of the resampled series, for width `sx >= 2`.
pub open spec fn bucket_spec(cpms: Seq<u64>, sx: int, sy: int, i: int) -> int
    recommends
        0 < cpms.len(),
        0 < max_cpm(cpms),
        2 <= sx,
        0 <= i < sx,
{
    let n = cpms.len() as int;
    let mx = max_cpm(cpms) as int;
    let d = sx - 1;
    if n == sx {
        cpms[i] * sy / mx
    } else if n < sx {
        let fnum = i * (n - 1);
        let lo = fnum / d;
        let t = fnum % d;
        let hi = if t > 0 {
            lo + 1
        } else {
            lo
        };
        ((d - t) * cpms[lo] + t * cpms[hi]) * sy / (d * mx)
    } else {
        let lo_arg = if i >= 1 {
            i - 1
        } else {
            0
        };
        let hi_arg = if i + 1 < sx - 1 {
            i + 1
        } else {
            sx - 1
        };
        let lo = (lo_arg * (n - 1)) / d;
        let hnum = hi_arg * (n - 1);
        let hi0 = hnum / d + (if hnum % d > 0 {
            1int
        } else {
            0
        });
        let hi = if hi0 > n - 1 {
            n - 1
        } else {
            hi0
        };
        sum_range(cpms, lo, hi + 1) * sy / ((hi + 1 - lo) * mx)
    }
}

/// The cpm series of a run of records, in order.
pub open spec fn cpm_series(records: Seq<Record>) -> Seq<u64> {
    records.map_values(|r: Record| r.cpm_milli)
}

/// The resampled trend: nothing when the series is empty or flat at zero;
/// for width one, the single normalized most recent value; otherwise one
/// bucket per column.
pub open spec fn improvement_spec(records: Seq<Record>, sx: int, sy: int) -> Option<Seq<usize>> {
    let cpms = cpm_series(records);
    if cpms.len() == 0 {
        None
    } else if max_cpm(cpms) == 0 {
        None
    } else if sx == 1 {
        Some(seq![(cpms.last() * sy / max_cpm(cpms) as int) as usize])
    } else {
        Some(Seq::new(sx as nat, |i: int| bucket_spec(cpms, sx, sy, i) as usize))
    }
}

/// Resamples the historical cpm series onto `scale_x` buckets of height at
/// most `scale_y`. The size bounds keep the exact rational arithmetic inside
/// machine integers.
pub fn get_improvement(records: &Vec<Record>, scale_x: usize, scale_y: usize) -> (r: Option<
    Vec<usize>,
>)
    requires
        scale_x <= 65536,
        scale_y <= 65536,
        records@.len() <= 0x1_0000_0000,
    ensures
        r is Some <==> improvement_spec(records@, scale_x as int, scale_y as int) is Some,
        r matches Some(v) ==> improvement_spec(records@, scale_x as int, scale_y as int) == Some(
            v@,
        ),
        r matches Some(v) ==> forall|k: int| 0 <= k < v@.len() ==> #[trigger] v@[k] <= scale_y,
{
    let ghost cpms = cpm_series(records@);
    let n: usize = records.len();
    if n == 0 {
        return None;
    }
    let mut mx: u64 = 0;
    let mut k: usize = 0;
    proof {
        assert(cpms.take(0) =~= Seq::<u64>::empty());
    }
    while k < n
        invariant
            k <= n == records@.len() <= 0x1_0000_0000,
            cpms == cpm_series(records@),
            mx == max_cpm(cpms.take(k as int)),
        decreases n - k,
    {
        proof {
            assert(cpms.take(k + 1).drop_last() =~= cpms.take(k as int));
            assert(cpms.take(k + 1).last() == cpms[k as int]);
        }
        if records[k].cpm_milli > mx {
            mx = records[k].cpm_milli;
        }
        k = k + 1;
    }
    proof {
        assert(cpms.take(n as int) =~= cpms);
    }
    if mx == 0 {
        return None;
    }
    proof {
        assert forall|j: int| 0 <= j < cpms.len() implies cpms[j] <= mx by {
            lemma_max_cpm_ge(cpms, j);
        }
    }
    if scale_x == 1 {
        let c: u64 = records[n - 1].cpm_milli;
        proof {
            lemma_norm_le(c as int, mx as int, scale_y as int);
            vstd::arithmetic::mul::lemma_mul_upper_bound(
                c as int,
                u64::MAX as int,
                scale_y as int,
                65536,
            );
        }
        let v: u128 = (c as u128) * (scale_y as u128) / (mx as u128);
        let mut out: Vec<usize> = Vec::new();
        out.push(v as usize);
        proof {
            assert(out@ =~= seq![(cpms.last() * scale_y as int / max_cpm(cpms) as int) as usize]);
        }
        return Some(out);
    }
    if scale_x == 0 {
        let out: Vec<usize> = Vec::new();
        proof {
            assert(out@ =~= Seq::new(
                0,
                |b: int| bucket_spec(cpms, scale_x as int, scale_y as int, b) as usize,
            ));
        }
        return Some(out);
    }
    let sy: usize = scale_y;
    let d: usize = scale_x - 1;
    let mut out: Vec<usize> = Vec::new();
    let mut i: usize = 0;
    while i < scale_x
        invariant
            0 < n == records@.len() <= 0x1_0000_0000,
            cpms == cpm_series(records@),
            cpms.len() == n,
            0 < mx == max_cpm(cpms),
            forall|j: int| 0 <= j < cpms.len() ==> cpms[j] <= mx,
            2 <= scale_x <= 65536,
            sy == scale_y <= 65536,
            d == scale_x - 1,
            i <= scale_x,
            out@.len() == i,
            forall|b: int|
                0 <= b < i ==> #[trigger] out@[b] == bucket_spec(
                    cpms,
                    scale_x as int,
                    sy as int,
                    b,
                ) as usize && out@[b] <= sy,
        decreases scale_x - i,
    {
        let bucket: u128 = if n == scale_x {
            let c: u64 = records[i].cpm_milli;
            proof {
                assert(c == cpms[i as int]);
                assert(c <= mx);
                lemma_norm_le(c as int, mx as int, sy as int);
                vstd::arithmetic::mul::lemma_mul_upper_bound(
                    c as int,
                    u64::MAX as int,
                    sy as int,
                    65536,
                );
            }
            (c as u128) * (sy as u128) / (mx as u128)
        } else if n < scale_x {
            proof {
                vstd::arithmetic::mul::lemma_mul_upper_bound(i as int, 65536, (n - 1) as int, 65536);
            }
            let fnum: u64 = (i as u64) * ((n - 1) as u64);
            proof {
                assert(fnum == (i as int) * ((n - 1) as int));
                vstd::arithmetic::mul::lemma_mul_inequality(i as int, d as int, (n - 1) as int);
                assert((n - 1) as int * (d as int) == (d as int) * ((n - 1) as int))
                    by (nonlinear_arith);
                assert(fnum as int <= (d as int) * ((n - 1) as int));
                lemma_div_bound(fnum as int, (n - 1) as int, d as int);
                if fnum as int % d as int > 0 {
                    lemma_div_bound_strict(fnum as int, (n - 1) as int, d as int);
                }
            }
            let lo: usize = (fnum / (d as u64)) as usize;
            let t: u64 = fnum % (d as u64);
            let hi: usize = if t > 0 {
                lo + 1
            } else {
                lo
            };
            let clo: u64 = records[lo].cpm_milli;
            let chi: u64 = records[hi].cpm_milli;
            proof {
                assert(clo == cpms[lo as int] && chi == cpms[hi as int]);
                assert(clo <= mx && chi <= mx);
                vstd::arithmetic::mul::lemma_mul_upper_bound(
                    (d - t as usize) as int,
                    65536,
                    clo as int,
                    u64::MAX as int,
                );
                vstd::arithmetic::mul::lemma_mul_upper_bound(
                    t as int,
                    65536,
                    chi as int,
                    u64::MAX as int,
                );
                vstd::arithmetic::mul::lemma_mul_upper_bound(
                    d as int,
                    65536,
                    mx as int,
                    u64::MAX as int,
                );
            }
            let vnum: u128 = ((d as u64 - t) as u128) * (clo as u128) + (t as u128) * (chi
                as u128);
            let den: u128 = (d as u128) * (mx as u128);
            proof {
                assert(vnum == ((d - t as usize) as int) * (clo as int) + (t as int) * (chi
                    as int));
                assert(den == (d as int) * (mx as int));
                assert(((d - t as usize) as int) * (clo as int) + (t as int) * (chi as int) <= (
                d as int) * (mx as int)) by (nonlinear_arith)
                    requires
                        0 <= t as int <= d as int && 0 <= clo as int <= mx as int && 0 <= chi
                            as int <= mx as int,
                ;
                assert((d as int) * (mx as int) > 0) by (nonlinear_arith)
                    requires
                        d as int >= 1 && mx as int >= 1,
                ;
                lemma_norm_le(vnum as int, den as int, sy as int);
                vstd::arithmetic::mul::lemma_mul_upper_bound(
                    vnum as int,
                    den as int,
                    sy as int,
                    65536,
                );
            }
            vnum * (sy as u128) / den
        } else {
            let lo_arg: usize = if i >= 1 {
                i - 1
            } else {
                0
            };
            let hi_arg: usize = if i + 1 < scale_x - 1 {
                i + 1
            } else {
                scale_x - 1
            };
            proof {
                vstd::arithmetic::mul::lemma_mul_upper_bound(
                    lo_arg as int,
                    65536,
                    (n - 1) as int,
                    0xFFFF_FFFF,
                );
                vstd::arithmetic::mul::lemma_mul_upper_bound(
                    hi_arg as int,
                    65536,
                    (n - 1) as int,
                    0xFFFF_FFFF,
                );
            }
            let lonum: u64 = (lo_arg as u64) * ((n - 1) as u64);
            let hnum: u64 = (hi_arg as u64) * ((n - 1) as u64);
            proof {
                assert(lonum == (lo_arg as int) * ((n - 1) as int));
                assert(hnum == (hi_arg as int) * ((n - 1) as int));
                vstd::arithmetic::mul::lemma_mul_inequality(
                    lo_arg as int,
                    d as int,
                    (n - 1) as int,
                );
                vstd::arithmetic::mul::lemma_mul_inequality(
                    hi_arg as int,
                    d as int,
                    (n - 1) as int,
                );
                vstd::arithmetic::mul::lemma_mul_inequality(
                    lo_arg as int,
                    hi_arg as int,
                    (n - 1) as int,
                );
                assert((n - 1) as int * (d as int) == (d as int) * ((n - 1) as int))
                    by (nonlinear_arith);
                lemma_div_bound(lonum as int, (n - 1) as int, d as int);
                lemma_div_is_ordered(lonum as int, hnum as int, d as int);
                lemma_div_pos_is_pos(lonum as int, d as int);
                lemma_div_pos_is_pos(hnum as int, d as int);
            }
            let lo: usize = (lonum / (d as u64)) as usize;
            let hi0: u64 = hnum / (d as u64) + if hnum % (d as u64) > 0 {
                1
            } else {
                0
            };
            let hi: usize = if hi0 > (n - 1) as u64 {
                n - 1
            } else {
                hi0 as usize
            };
            let cnt: usize = hi + 1 - lo;
            let mut sum: u128 = 0;
            let mut j: usize = lo;
            proof {
                lemma_sum_range_bounds(cpms, lo as int, hi + 1, mx as int);
            }
            while j < hi + 1
                invariant
                    lo <= j <= hi + 1 <= cpms.len() == n,
                    n <= 0x1_0000_0000,
                    cpms == cpm_series(records@),
                    n == records@.len(),
                    forall|q: int| 0 <= q < cpms.len() ==> cpms[q] <= mx,
                    sum == sum_range(cpms, lo as int, j as int),
                    sum <= (j - lo) * (mx as int),
                decreases hi + 1 - j,
            {
                proof {
                    lemma_sum_range_bounds(cpms, lo as int, j as int, mx as int);
                    assert(sum_range(cpms, lo as int, j + 1) == sum_range(cpms, lo as int, j as int)
                        + cpms[j as int]) by {
                        lemma_sum_range_snoc(cpms, lo as int, j as int);
                    }
                    assert((j - lo) * (mx as int) + mx == (j + 1 - lo) * (mx as int))
                        by (nonlinear_arith);
                    vstd::arithmetic::mul::lemma_mul_upper_bound(
                        j - lo,
                        0x1_0000_0000,
                        mx as int,
                        u64::MAX as int,
                    );
                }
                sum = sum + (records[j].cpm_milli as u128);
                j = j + 1;
            }
            proof {
                vstd::arithmetic::mul::lemma_mul_upper_bound(
                    cnt as int,
                    0x1_0000_0000,
                    mx as int,
                    u64::MAX as int,
                );
            }
            let den: u128 = (cnt as u128) * (mx as u128);
            proof {
                assert(den == (cnt as int) * (mx as int));
                assert(sum <= (cnt as int) * (mx as int));
                assert((cnt as int) * (mx as int) > 0) by (nonlinear_arith)
                    requires
                        cnt as int >= 1 && mx as int >= 1,
                ;
                lemma_norm_le(sum as int, den as int, sy as int);
                vstd::arithmetic::mul::lemma_mul_upper_bound(
                    sum as int,
                    den as int,
                    sy as int,
                    65536,
                );
            }
            sum * (sy as u128) / den
        };
        out.push(bucket as usize);
        proof {
            assert(out@[i as int] == bucket_spec(cpms, scale_x as int, sy as int, i as int)
                as usize);
        }
        i = i + 1;
    }
    proof {
        assert(out@ =~= Seq::new(
            scale_x as nat,
            |b: int| bucket_spec(cpms, scale_x as int, scale_y as int, b) as usize,
        ));
    }
    Some(out)
}

proof fn lemma_sum_range_snoc(cpms: Seq<u64>, lo: int, j: int)
    requires
        0 <= lo <= j < cpms.len(),
    ensures
        sum_range(cpms, lo, j + 1) == sum_range(cpms, lo, j) + cpms[j],
    decreases j - lo,
{
    if lo == j {
        assert(sum_range(cpms, lo, j) == 0);
        assert(sum_range(cpms, j + 1, j + 1) == 0);
        assert(sum_range(cpms, lo, j + 1) == cpms[j] + 0);
    } else {
        lemma_sum_range_snoc(cpms, lo + 1, j);
    }
}

/// With exactly as many data points as output buckets, each bucket is its
/// own point's cpm normalized against the series maximum, scaled to the
/// height, and floored.
pub proof fn lemma_improvement_exact(records: Seq<Record>, sx: int, sy: int, i: int)
    requires
        records.len() == sx,
        1 <= sx,
        0 <= sy,
        max_cpm(cpm_series(records)) > 0,
        0 <= i < sx,
    ensures
        improvement_spec(records, sx, sy) matches Some(v) && v[i] == (cpm_series(records)[i] * sy
            / max_cpm(cpm_series(records)) as int) as usize,
{
    let cpms = cpm_series(records);
    if sx == 1 {
        assert(cpms.last() == cpms[0]);
    }
}

/// A single data point spread over several buckets yields a flat series:
/// every bucket equals the one point's normalized value.
pub proof fn lemma_improvement_flat(records: Seq<Record>, sx: int, sy: int, i: int)
    requires
        records.len() == 1,
        2 <= sx,
        0 <= sy,
        max_cpm(cpm_series(records)) > 0,
        0 <= i < sx,
    ensures
        improvement_spec(records, sx, sy) matches Some(v) && v[i] == (cpm_series(records)[0] * sy
            / max_cpm(cpm_series(records)) as int) as usize,
{
    let cpms = cpm_series(records);
    let mx = max_cpm(cpms) as int;
    let d = sx - 1;
    let c0 = cpms[0] as int;
    assert(i * (1 - 1) == 0) by (nonlinear_arith);
    vstd::arithmetic::div_mod::lemma_div_of0(d);
    vstd::arithmetic::div_mod::lemma_small_mod(0, d as nat);
    assert(bucket_spec(cpms, sx, sy, i) == ((d - 0) * c0 + 0 * c0) * sy / (d * mx));
    assert(((d - 0) * c0 + 0 * c0) * sy == d * (c0 * sy)) by (nonlinear_arith);
    lemma_mul_div_factor(c0 * sy, d, mx);
}

/// Cancelling a common positive factor of the numerator and the denominator
/// leaves the floored quotient unchanged.
proof fn lemma_mul_div_factor(y: int, d: int, mx: int)
    requires
        0 <= y,
        0 < d,
        0 < mx,
    ensures
        (d * y) / (d * mx) == y / mx,
{
    assert(0 <= d * y) by (nonlinear_arith)
        requires
            0 <= y && 0 < d,
    ;
    vstd::arithmetic::div_mod::lemma_div_denominator(d * y, d, mx);
    vstd::arithmetic::div_mod::lemma_div_multiples_vanish(y, d);
}

} // verus!
