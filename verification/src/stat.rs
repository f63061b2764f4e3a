//! The running minimum, maximum, sum and count of the values seen for one
//! key, in tenths, and the rule by which two of them are merged.

use vstd::prelude::*;

verus! {

/// What a `Stat` stands for.
pub struct StatModel {
    pub min: int,
    pub max: int,
    pub sum: int,
    pub count: nat,
}

/// `m / count`, rounded to the nearest integer, a half rounded up.
pub open spec fn round_div(m: nat, count: nat) -> nat {
    m / count + if 2 * (m % count) >= count {
        1nat
    } else {
        0nat
    }
}

impl StatModel {
    /// The statistics of a single value.
    pub open spec fn of(value: int) -> StatModel {
        StatModel { min: value, max: value, sum: value, count: 1 }
    }

    /// The statistics of the values of both operands together.
    pub open spec fn merge(self, other: StatModel) -> StatModel {
        StatModel {
            min: if self.min <= other.min {
                self.min
            } else {
                other.min
            },
            max: if self.max >= other.max {
                self.max
            } else {
                other.max
            },
            sum: self.sum + other.sum,
            count: self.count + other.count,
        }
    }

    /// At least one value was seen, and the sum lies between `count` times
    /// the minimum and `count` times the maximum.
    pub open spec fn wf(self) -> bool {
        &&& self.count >= 1
        &&& self.min <= self.max
        &&& self.count * self.min <= self.sum <= self.count * self.max
    }

    /// Whether the fields fit the machine types of a `Stat`.
    pub open spec fn fits(self) -> bool {
        &&& i64::MIN <= self.min
        &&& self.max <= i64::MAX
        &&& self.count <= u64::MAX
    }

    /// The arithmetic mean, rounded to the nearest tenth, a half rounded away
    /// from zero.
    pub open spec fn mean(self) -> int {
        if self.sum >= 0 {
            round_div(self.sum as nat, self.count) as int
        } else {
            -(round_div((-self.sum) as nat, self.count) as int)
        }
    }
}

/// Merging is commutative.
pub proof fn lemma_merge_commutes(a: StatModel, b: StatModel)
    ensures
        a.merge(b) == b.merge(a),
{
}

/// Merging is associative.
pub proof fn lemma_merge_associates(a: StatModel, b: StatModel, c: StatModel)
    ensures
        a.merge(b).merge(c) == a.merge(b.merge(c)),
{
}

/// A single value is well formed, and merging keeps well-formedness.
pub proof fn lemma_merge_wf(a: StatModel, b: StatModel)
    requires
        a.wf(),
        b.wf(),
    ensures
        a.merge(b).wf(),
{
    let m = a.merge(b);
    assert(a.count * m.min <= a.count * a.min) by (nonlinear_arith)
        requires
            m.min <= a.min,
            a.count >= 0,
    ;
    assert(b.count * m.min <= b.count * b.min) by (nonlinear_arith)
        requires
            m.min <= b.min,
            b.count >= 0,
    ;
    assert(a.count * m.max >= a.count * a.max) by (nonlinear_arith)
        requires
            m.max >= a.max,
            a.count >= 0,
    ;
    assert(b.count * m.max >= b.count * b.max) by (nonlinear_arith)
        requires
            m.max >= b.max,
            b.count >= 0,
    ;
    assert((a.count + b.count) * m.min == a.count * m.min + b.count * m.min)
        by (nonlinear_arith);
    assert((a.count + b.count) * m.max == a.count * m.max + b.count * m.max)
        by (nonlinear_arith);
}

/// The sum of a well-formed statistic that fits its machine types fits 128
/// bits.
pub proof fn lemma_sum_bounded(m: StatModel)
    requires
        m.wf(),
        m.fits(),
    ensures
        -0x7fff_ffff_ffff_ffff_8000_0000_0000_0000 <= m.sum
            <= 0x7fff_ffff_ffff_ffff_8000_0000_0000_0000,
{
    assert(m.count * m.max <= 0xffff_ffff_ffff_ffff * 0x7fff_ffff_ffff_ffff) by (nonlinear_arith)
        requires
            0 <= m.count <= 0xffff_ffff_ffff_ffff,
            m.max <= 0x7fff_ffff_ffff_ffff,
    ;
    assert(m.count * m.min >= 0xffff_ffff_ffff_ffff * (-0x8000_0000_0000_0000))
        by (nonlinear_arith)
        requires
            0 <= m.count <= 0xffff_ffff_ffff_ffff,
            m.min >= -0x8000_0000_0000_0000,
    ;
}

/// The mean of a well-formed statistic lies between its minimum and its
/// maximum.
pub proof fn lemma_mean_between(m: StatModel)
    requires
        m.wf(),
    ensures
        m.min <= m.mean() <= m.max,
{
    let c = m.count as int;
    if m.sum >= 0 {
        lemma_round_div_between(m.sum as nat, m.count, m.min, m.max);
    } else {
        assert(c * (-m.max) == -(c * m.max)) by (nonlinear_arith);
        assert(c * (-m.min) == -(c * m.min)) by (nonlinear_arith);
        lemma_round_div_between((-m.sum) as nat, m.count, -m.max, -m.min);
    }
}

/// A rounded quotient lies between any two integers that bound the exact
/// quotient.
pub proof fn lemma_round_div_between(m: nat, count: nat, low: int, high: int)
    requires
        count >= 1,
        count * low <= m <= count * high,
    ensures
        low <= round_div(m, count) <= high,
{
    let c = count as int;
    let q = (m / count) as int;
    let r = (m % count) as int;
    assert(m == c * q + r && 0 <= r < c) by {
        vstd::arithmetic::div_mod::lemma_fundamental_div_mod(m as int, c);
        vstd::arithmetic::div_mod::lemma_mod_bound(m as int, c);
    }
    assert(q >= low) by (nonlinear_arith)
        requires
            c * low <= c * q + r,
            0 <= r < c,
            c >= 1,
    ;
    assert(q <= high) by (nonlinear_arith)
        requires
            c * q + r <= c * high,
            0 <= r < c,
            c >= 1,
    ;
    if 2 * r >= c {
        assert(q + 1 <= high) by (nonlinear_arith)
            requires
                c * q + r <= c * high,
                2 * r >= c,
                c >= 1,
        ;
    }
}

/// The statistics of one key: every value seen so far, in tenths, folded
/// into a minimum, a maximum, a sum and a count.
#[derive(Clone, Copy, Debug, PartialEq, Eq)]
pub struct Stat {
    min: i64,
    max: i64,
    sum: i128,
    count: u64,
}

impl View for Stat {
    type V = StatModel;

    closed spec fn view(&self) -> StatModel {
        StatModel {
            min: self.min as int,
            max: self.max as int,
            sum: self.sum as int,
            count: self.count as nat,
        }
    }
}

impl Stat {
    /// Holds of every `Stat`: its fields are those of at least one value.
    #[verifier::type_invariant]
    pub open spec fn well_formed(self) -> bool {
        self@.wf()
    }

    /// The statistics of a first value.
    pub fn new(value: i64) -> (stat: Stat)
        ensures
            stat@ == StatModel::of(value as int),
            stat@.wf(),
    {
        proof {
            assert(1 * (value as int) == value as int);
        }
        Stat { min: value, max: value, sum: value as i128, count: 1 }
    }

    /// The smallest value seen.
    pub fn min(&self) -> (v: i64)
        ensures
            v == self@.min,
    {
        self.min
    }

    /// The largest value seen.
    pub fn max(&self) -> (v: i64)
        ensures
            v == self@.max,
    {
        self.max
    }

    /// The sum of the values seen.
    pub fn sum(&self) -> (v: i128)
        ensures
            v == self@.sum,
    {
        self.sum
    }

    /// How many values were seen.
    pub fn count(&self) -> (n: u64)
        ensures
            n == self@.count,
            n >= 1,
    {
        proof {
            use_type_invariant(self);
        }
        self.count
    }

    /// Both statistics in one, unless the counts together exceed a `u64`.
    pub fn merge(self, other: Stat) -> (merged: Option<Stat>)
        ensures
            merged is Some <==> self@.count + other@.count <= u64::MAX,
            merged matches Some(m) ==> m@ == self@.merge(other@) && m@.wf(),
    {
        proof {
            use_type_invariant(self);
            use_type_invariant(other);
            lemma_sum_bounded(self@);
            lemma_sum_bounded(other@);
            lemma_merge_wf(self@, other@);
        }
        match self.count.checked_add(other.count) {
            Some(count) => {
                proof {
                    lemma_sum_bounded(self@.merge(other@));
                }
                Some(
                    Stat {
                        min: if self.min <= other.min {
                            self.min
                        } else {
                            other.min
                        },
                        max: if self.max >= other.max {
                            self.max
                        } else {
                            other.max
                        },
                        sum: self.sum + other.sum,
                        count,
                    },
                )
            },
            None => None,
        }
    }

    /// The statistics with one more value, unless the count would exceed a
    /// `u64`.
    pub fn observe(self, value: i64) -> (seen: Option<Stat>)
        ensures
            seen is Some <==> self@.count < u64::MAX,
            seen matches Some(s) ==> s@ == self@.merge(StatModel::of(value as int)) && s@.wf(),
    {
        self.merge(Stat::new(value))
    }

    /// The arithmetic mean in tenths, a half rounded away from zero.
    pub fn mean(&self) -> (v: i64)
        ensures
            v == self@.mean(),
            self@.min <= v <= self@.max,
    {
        proof {
            use_type_invariant(self);
            lemma_sum_bounded(self@);
            lemma_mean_between(self@);
        }
        let count = self.count as u128;
        if self.sum >= 0 {
            let m = self.sum as u128;
            let q = m / count;
            let r = m % count;
            let up: u128 = if 2 * r >= count {
                1
            } else {
                0
            };
            (q + up) as i64
        } else {
            let m = (-self.sum) as u128;
            let q = m / count;
            let r = m % count;
            let up: u128 = if 2 * r >= count {
                1
            } else {
                0
            };
            let magnitude = (q + up) as i128;
            (-magnitude) as i64
        }
    }
}

} // verus!
