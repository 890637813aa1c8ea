//! The per-key aggregate: minimum, maximum, sum and count of the values seen.

use vstd::prelude::*;

verus! {

/// The aggregate of one or more values, as mathematical integers.
pub struct Summary {
    pub min: int,
    pub max: int,
    pub sum: int,
    pub count: nat,
}

impl Summary {
    /// The aggregate of one value.
    pub open spec fn single(v: int) -> Summary {
        Summary { min: v, max: v, sum: v, count: 1 }
    }

    /// The aggregate of everything that `self` and `other` stand for:
    /// minimum of minima, maximum of maxima, sum of sums, sum of counts.
    pub open spec fn combine(self, other: Summary) -> Summary {
        Summary {
            min: if self.min <= other.min { self.min } else { other.min },
            max: if self.max >= other.max { self.max } else { other.max },
            sum: self.sum + other.sum,
            count: self.count + other.count,
        }
    }

    /// The aggregate after one more value.
    pub open spec fn absorb(self, v: int) -> Summary {
        self.combine(Summary::single(v))
    }

    /// At least one value stands behind the aggregate, and its sum lies
    /// between `count` times the minimum and `count` times the maximum.
    pub open spec fn valid(self) -> bool {
        &&& self.count >= 1
        &&& self.min <= self.max
        &&& self.count * self.min <= self.sum <= self.count * self.max
    }

    /// Minimum and maximum fit in an `i64`, the count in a `u64`.
    pub open spec fn representable(self) -> bool {
        &&& i64::MIN <= self.min
        &&& self.max <= i64::MAX
        &&& self.count <= u64::MAX
    }

    /// The mean in the unit of the values, rounded to the nearest integer,
    /// a tie going away from zero.
    pub open spec fn mean(self) -> int {
        let count = self.count as int;
        if self.sum >= 0 {
            round_half_up(self.sum, count)
        } else {
            -round_half_up(-self.sum, count)
        }
    }
}

/// `n / d` rounded to the nearest integer, a tie going up, for `n >= 0`
/// and `d > 0`.
pub open spec fn round_half_up(n: int, d: int) -> int {
    if 2 * (n % d) >= d {
        n / d + 1
    } else {
        n / d
    }
}

/// Combining is commutative.
pub proof fn lemma_combine_commutative(a: Summary, b: Summary)
    ensures
        a.combine(b) == b.combine(a),
{
}

/// Combining is associative.
pub proof fn lemma_combine_associative(a: Summary, b: Summary, c: Summary)
    ensures
        a.combine(b).combine(c) == a.combine(b.combine(c)),
{
}

/// Combining two valid aggregates gives a valid one.
pub proof fn lemma_combine_valid(a: Summary, b: Summary)
    requires
        a.valid(),
        b.valid(),
    ensures
        a.combine(b).valid(),
{
    let c = a.combine(b);
    assert(a.count * c.min <= a.count * a.min) by (nonlinear_arith)
        requires
            c.min <= a.min,
    ;
    assert(b.count * c.min <= b.count * b.min) by (nonlinear_arith)
        requires
            c.min <= b.min,
    ;
    assert(a.count * a.max <= a.count * c.max) by (nonlinear_arith)
        requires
            a.max <= c.max,
    ;
    assert(b.count * b.max <= b.count * c.max) by (nonlinear_arith)
        requires
            b.max <= c.max,
    ;
    assert(c.count * c.min == a.count * c.min + b.count * c.min) by (nonlinear_arith)
        requires
            c.count == a.count + b.count,
    ;
    assert(c.count * c.max == a.count * c.max + b.count * c.max) by (nonlinear_arith)
        requires
            c.count == a.count + b.count,
    ;
}

/// The sum of a valid, representable aggregate fits in an `i128`.
pub proof fn lemma_sum_fits(a: Summary)
    requires
        a.valid(),
        a.representable(),
    ensures
        -0x7fff_ffff_ffff_ffff_8000_0000_0000_0000 <= a.sum
            <= 0x7fff_ffff_ffff_ffff_8000_0000_0000_0000,
{
    assert(a.count * a.min >= 0xffff_ffff_ffff_ffff * (-0x8000_0000_0000_0000)) by (nonlinear_arith)
        requires
            1 <= a.count <= 0xffff_ffff_ffff_ffff,
            -0x8000_0000_0000_0000 <= a.min,
    ;
    assert(a.count * a.max <= 0xffff_ffff_ffff_ffff * 0x8000_0000_0000_0000) by (nonlinear_arith)
        requires
            1 <= a.count <= 0xffff_ffff_ffff_ffff,
            a.max <= 0x8000_0000_0000_0000,
    ;
}

/// The mean of a valid aggregate lies between its minimum and its maximum.
pub proof fn lemma_mean_between(a: Summary)
    requires
        a.valid(),
    ensures
        a.min <= a.mean() <= a.max,
{
    let d = a.count as int;
    if a.sum >= 0 {
        lemma_round_bounds(a.sum, d, a.min, a.max);
    } else {
        assert(d * (-a.max) == -(d * a.max)) by (nonlinear_arith);
        assert(d * (-a.min) == -(d * a.min)) by (nonlinear_arith);
        lemma_round_bounds(-a.sum, d, -a.max, -a.min);
    }
}

/// A rounded quotient stays within any integer bounds that hold of the
/// exact quotient.
proof fn lemma_round_bounds(n: int, d: int, lo: int, hi: int)
    requires
        n >= 0,
        d >= 1,
        d * lo <= n <= d * hi,
    ensures
        lo <= round_half_up(n, d) <= hi,
{
    let q = n / d;
    let r = n % d;
    assert(n == d * q + r && 0 <= r < d) by {
        vstd::arithmetic::div_mod::lemma_fundamental_div_mod(n, d);
        vstd::arithmetic::div_mod::lemma_mod_bound(n, d);
    }
    assert(lo <= q) by (nonlinear_arith)
        requires
            d >= 1,
            d * lo <= d * q + r,
            0 <= r < d,
    ;
    assert(q <= hi) by (nonlinear_arith)
        requires
            d >= 1,
            d * q + r <= d * hi,
            0 <= r < d,
    ;
    if 2 * r >= d {
        assert(q + 1 <= hi) by (nonlinear_arith)
            requires
                d >= 1,
                d * q + r <= d * hi,
                0 < r < d,
        ;
    }
}

/// The aggregate of one or more values in machine integers: `i64` values,
/// their sum in an `i128`, their number in a `u64`.
#[derive(Clone, Copy, Debug)]
pub struct Stats {
    min: i64,
    max: i64,
    sum: i128,
    count: u64,
}

impl View for Stats {
    type V = Summary;

    closed spec fn view(&self) -> Summary {
        Summary {
            min: self.min as int,
            max: self.max as int,
            sum: self.sum as int,
            count: self.count as nat,
        }
    }
}

impl Stats {
    /// The aggregate is valid; every aggregate that this library hands out is.
    pub open spec fn wf(&self) -> bool {
        self@.valid()
    }

    /// Whatever a `Stats` holds fits its fields.
    pub broadcast proof fn lemma_representable(&self)
        ensures
            #[trigger] self@.representable(),
    {
    }

    /// The aggregate of the single value `v`.
    pub fn single(v: i64) -> (s: Stats)
        ensures
            s@ == Summary::single(v as int),
            s.wf(),
    {
        proof {
            assert(1 * (v as int) == v as int) by (nonlinear_arith);
        }
        Stats { min: v, max: v, sum: v as i128, count: 1 }
    }

    /// The aggregate after one more value, or `None` where the count would
    /// no longer fit in a `u64`.
    pub fn absorb(&self, v: i64) -> (r: Option<Stats>)
        requires
            self.wf(),
        ensures
            r is Some <==> self@.count < u64::MAX,
            r matches Some(s) ==> s.wf() && s@ == self@.absorb(v as int),
    {
        self.combine(&Stats::single(v))
    }

    /// The aggregate of both, or `None` where the count would no longer fit
    /// in a `u64`.
    pub fn combine(&self, other: &Stats) -> (r: Option<Stats>)
        requires
            self.wf(),
            other.wf(),
        ensures
            r is Some <==> self@.count + other@.count <= u64::MAX,
            r matches Some(s) ==> s.wf() && s@ == self@.combine(other@),
    {
        if other.count > u64::MAX - self.count {
            return None;
        }
        proof {
            let c = self@.combine(other@);
            lemma_combine_valid(self@, other@);
            assert(c.representable());
            lemma_sum_fits(c);
        }
        Some(
            Stats {
                min: if self.min <= other.min { self.min } else { other.min },
                max: if self.max >= other.max { self.max } else { other.max },
                sum: self.sum + other.sum,
                count: self.count + other.count,
            },
        )
    }

    /// The least value.
    pub fn min(&self) -> (v: i64)
        ensures
            v == self@.min,
    {
        self.min
    }

    /// The greatest value.
    pub fn max(&self) -> (v: i64)
        ensures
            v == self@.max,
    {
        self.max
    }

    /// The sum of the values.
    pub fn sum(&self) -> (v: i128)
        ensures
            v == self@.sum,
    {
        self.sum
    }

    /// The number of values.
    pub fn count(&self) -> (v: u64)
        ensures
            v == self@.count,
    {
        self.count
    }

    /// The mean, rounded to the nearest unit, a tie going away from zero.
    pub fn mean(&self) -> (m: i64)
        requires
            self.wf(),
        ensures
            m == self@.mean(),
            self@.min <= m <= self@.max,
    {
        proof {
            lemma_mean_between(self@);
            lemma_sum_fits(self@);
        }
        let d: u128 = self.count as u128;
        if self.sum >= 0 {
            let n: u128 = self.sum as u128;
            let q: u128 = n / d;
            let r: u128 = n % d;
            let rounded: u128 = if 2 * r >= d { q + 1 } else { q };
            rounded as i64
        } else {
            let n: u128 = (-self.sum) as u128;
            let q: u128 = n / d;
            let r: u128 = n % d;
            let rounded: u128 = if 2 * r >= d { q + 1 } else { q };
            if rounded == 0x8000_0000_0000_0000 {
                i64::MIN
            } else {
                -(rounded as i64)
            }
        }
    }
}

} // verus!
