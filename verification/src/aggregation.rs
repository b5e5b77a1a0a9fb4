//! The accumulator of one station: minimum, maximum, sum and count.

use crate::temperature::is_temperature;
use vstd::prelude::*;

verus! {

/// What an accumulator stands for: the extrema, the exact sum and the number
/// of the temperatures folded into it, all in tenths of a degree.
pub struct Stats {
    pub min: int,
    pub max: int,
    pub sum: int,
    pub count: nat,
}

/// The lesser of two integers.
pub open spec fn lesser(a: int, b: int) -> int {
    if a <= b {
        a
    } else {
        b
    }
}

/// The greater of two integers.
pub open spec fn greater(a: int, b: int) -> int {
    if a >= b {
        a
    } else {
        b
    }
}

impl Stats {
    /// The state before any temperature: sentinel extrema, nothing summed.
    pub open spec fn empty() -> Stats {
        Stats { min: i32::MAX as int, max: i32::MIN as int, sum: 0, count: 0 }
    }

    /// The state after the one temperature `v`.
    pub open spec fn single(v: int) -> Stats {
        Stats { min: v, max: v, sum: v, count: 1 }
    }

    /// The state after one more temperature `v`.
    pub open spec fn update(self, v: int) -> Stats {
        Stats {
            min: lesser(self.min, v),
            max: greater(self.max, v),
            sum: self.sum + v,
            count: self.count + 1,
        }
    }

    /// The state that stands for the temperatures of both `self` and `other`.
    pub open spec fn merge(self, other: Stats) -> Stats {
        Stats {
            min: lesser(self.min, other.min),
            max: greater(self.max, other.max),
            sum: self.sum + other.sum,
            count: self.count + other.count,
        }
    }

    /// The mean in tenths.  The sum is brought to hundredths and divided by
    /// the count, dropping what is left; a last digit of five or more then
    /// rounds the tenths up.  A negative sum is divided towards zero, so its
    /// last digit never rounds.
    pub open spec fn mean(self) -> int {
        if self.sum >= 0 {
            (self.sum * 10 / (self.count as int) + 5) / 10
        } else {
            -((-self.sum) / (self.count as int))
        }
    }

    /// Whether the state is that of at least one temperature, each of them
    /// within the range of temperatures.
    pub open spec fn is_live(self) -> bool {
        &&& self.count >= 1
        &&& is_temperature(self.min)
        &&& is_temperature(self.max)
        &&& self.min <= self.max
        &&& self.min * self.count <= self.sum <= self.max * self.count
    }

    /// Whether the state can be held in an `Aggregation`.
    pub open spec fn fits(self) -> bool {
        &&& i32::MIN <= self.min <= i32::MAX
        &&& i32::MIN <= self.max <= i32::MAX
        &&& i32::MIN <= self.sum <= i32::MAX
        &&& self.count <= u32::MAX
    }
}

/// The accumulator of one station.
#[derive(Clone, Copy, Debug, PartialEq, Eq, Structural)]
pub struct Aggregation {
    pub min: i32,
    pub max: i32,
    pub sum: i32,
    pub count: u32,
}

impl View for Aggregation {
    type V = Stats;

    open spec fn view(&self) -> Stats {
        Stats {
            min: self.min as int,
            max: self.max as int,
            sum: self.sum as int,
            count: self.count as nat,
        }
    }
}

impl Aggregation {
    /// An accumulator that holds no temperature yet.
    pub fn new() -> (r: Self)
        ensures
            r@ == Stats::empty(),
    {
        Self { min: i32::MAX, max: i32::MIN, sum: 0, count: 0 }
    }

    /// Whether `update(value)` stays within the machine integers.
    pub fn can_update(&self, value: i32) -> (b: bool)
        ensures
            b == self@.update(value as int).fits(),
    {
        self.count < u32::MAX && self.sum.checked_add(value).is_some()
    }

    /// Folds one temperature into the accumulator.
    pub fn update(&mut self, value: i32)
        requires
            old(self)@.update(value as int).fits(),
        ensures
            final(self)@ == old(self)@.update(value as int),
    {
        if value < self.min {
            self.min = value;
        }
        if value > self.max {
            self.max = value;
        }
        self.sum = self.sum + value;
        self.count = self.count + 1;
    }

    /// Whether `merge(other)` stays within the machine integers.
    pub fn can_merge(&self, other: &Self) -> (b: bool)
        ensures
            b == self@.merge(other@).fits(),
    {
        self.count.checked_add(other.count).is_some() && self.sum.checked_add(
            other.sum,
        ).is_some()
    }

    /// Folds another accumulator into this one.
    pub fn merge(&mut self, other: &Self)
        requires
            old(self)@.merge(other@).fits(),
        ensures
            final(self)@ == old(self)@.merge(other@),
    {
        if other.min < self.min {
            self.min = other.min;
        }
        if other.max > self.max {
            self.max = other.max;
        }
        self.sum = self.sum + other.sum;
        self.count = self.count + other.count;
    }

    /// The mean of the temperatures in tenths, rounded as `Stats::mean` says.
    pub fn mean(&self) -> (m: i32)
        requires
            self.count > 0,
        ensures
            m == self@.mean(),
    {
        let count = self.count as i64;
        let sum = self.sum as i64;
        if sum >= 0 {
            let hundredths = sum * 10 / count;
            proof {
                lemma_mean_within(sum as int, count as int);
            }
            ((hundredths + 5) / 10) as i32
        } else {
            proof {
                lemma_mean_within(sum as int, count as int);
            }
            (-((-sum) / count)) as i32
        }
    }
}

/// The mean is no further from zero than the sum is, rounding included.
proof fn lemma_mean_within(sum: int, count: int)
    requires
        count >= 1,
    ensures
        sum >= 0 ==> 0 <= (sum * 10 / count + 5) / 10 <= sum,
        sum < 0 ==> 0 <= (-sum) / count <= -sum,
{
    if sum >= 0 {
        assert(0 <= sum * 10 / count <= sum * 10) by (nonlinear_arith)
            requires
                sum >= 0,
                count >= 1,
        ;
        if count >= 2 {
            assert(sum * 10 / count <= sum * 5) by (nonlinear_arith)
                requires
                    sum >= 0,
                    count >= 2,
            ;
        } else {
            assert(sum * 10 / count == sum * 10) by (nonlinear_arith)
                requires
                    count == 1,
            ;
        }
    } else {
        assert(0 <= (-sum) / count <= -sum) by (nonlinear_arith)
            requires
                sum < 0,
                count >= 1,
        ;
    }
}

/// Merging does not depend on the order or the grouping of the accumulators.
pub proof fn lemma_merge_order_free(a: Stats, b: Stats, c: Stats)
    ensures
        a.merge(b) == b.merge(a),
        a.merge(b).merge(c) == a.merge(b.merge(c)),
        a.merge(b).merge(c) == b.merge(a).merge(c),
{
}

/// Folding one temperature in is merging with the accumulator of that
/// temperature alone, and the first temperature replaces the sentinels.
pub proof fn lemma_update_is_merge(a: Stats, v: int)
    ensures
        a.update(v) == a.merge(Stats::single(v)),
        i32::MIN <= v <= i32::MAX ==> Stats::empty().update(v) == Stats::single(v),
        i32::MIN <= a.max && a.min <= i32::MAX ==> a.merge(Stats::empty()) == a,
{
}

/// A temperature folded into a fresh or live accumulator leaves it live.
pub proof fn lemma_update_live(a: Stats, v: int)
    requires
        a.is_live() || a == Stats::empty(),
        is_temperature(v),
    ensures
        a.update(v).is_live(),
{
    if a.is_live() {
        let r = a.update(v);
        assert(r.min * r.count <= r.sum <= r.max * r.count) by (nonlinear_arith)
            requires
                r.min <= a.min,
                r.min <= v,
                r.max >= a.max,
                r.max >= v,
                r.sum == a.sum + v,
                r.count == a.count + 1,
                a.min * a.count <= a.sum <= a.max * a.count,
        ;
    } else {
        assert(a.update(v) == Stats::single(v));
        assert(v * 1 == v);
    }
}

/// Two live accumulators merge into a live one.
pub proof fn lemma_merge_live(a: Stats, b: Stats)
    requires
        a.is_live(),
        b.is_live(),
    ensures
        a.merge(b).is_live(),
{
    let r = a.merge(b);
    assert(r.min * r.count <= r.sum <= r.max * r.count) by (nonlinear_arith)
        requires
            r.min <= a.min,
            r.min <= b.min,
            r.max >= a.max,
            r.max >= b.max,
            r.sum == a.sum + b.sum,
            r.count == a.count + b.count,
            a.min * a.count <= a.sum <= a.max * a.count,
            b.min * b.count <= b.sum <= b.max * b.count,
    ;
}

/// The mean of a live accumulator lies between its minimum and its maximum,
/// so it is a temperature too.
pub proof fn lemma_mean_between(a: Stats)
    requires
        a.is_live(),
    ensures
        a.min <= a.mean() <= a.max,
        is_temperature(a.mean()),
{
    let n = a.count as int;
    if a.sum >= 0 {
        let q = a.sum * 10 / n;
        assert(q <= a.max * 10) by (nonlinear_arith)
            requires
                q == a.sum * 10 / n,
                n >= 1,
                a.sum <= a.max * n,
        ;
        assert(q >= 0) by (nonlinear_arith)
            requires
                q == a.sum * 10 / n,
                n >= 1,
                a.sum >= 0,
        ;
        if a.min > 0 {
            assert(q >= a.min * 10) by (nonlinear_arith)
                requires
                    q == a.sum * 10 / n,
                    n >= 1,
                    a.sum >= a.min * n,
            ;
        }
    } else {
        let q = (-a.sum) / n;
        assert(q <= -a.min) by (nonlinear_arith)
            requires
                q == (-a.sum) / n,
                n >= 1,
                a.min * n <= a.sum,
        ;
        assert(q >= 0) by (nonlinear_arith)
            requires
                q == (-a.sum) / n,
                n >= 1,
                a.sum < 0,
        ;
        if a.max < 0 {
            assert(q >= -a.max) by (nonlinear_arith)
                requires
                    q == (-a.sum) / n,
                    n >= 1,
                    a.sum <= a.max * n,
            ;
        }
    }
}

/// Live statistics that do not fit the machine integers are those of more
/// temperatures than the largest sum can hold at their highest.
pub proof fn lemma_unfit_is_heavy(a: Stats)
    requires
        a.is_live(),
        !a.fits(),
    ensures
        crate::temperature::MAX_TENTHS * a.count > i32::MAX,
{
    let n = a.count as int;
    assert(-999 * n <= a.sum <= 999 * n) by (nonlinear_arith)
        requires
            n >= 1,
            -999 <= a.min <= a.max <= 999,
            a.min * n <= a.sum <= a.max * n,
    ;
}

/// The mean of a single temperature is that temperature.
pub proof fn lemma_mean_of_single(v: int)
    ensures
        Stats::single(v).mean() == v,
{
    if v >= 0 {
        assert((v * 10 / 1 + 5) / 10 == v);
    } else {
        assert((-v) / 1 == -v);
    }
}

} // verus!
