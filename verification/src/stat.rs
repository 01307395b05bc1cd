//! The running statistics of one station, in tenths of a degree.

use vstd::prelude::*;

verus! {

/// The lowest temperature, in tenths of a degree.
pub const MIN_TEMPERATURE: i32 = -999;

/// The highest temperature, in tenths of a degree.
pub const MAX_TEMPERATURE: i32 = 999;

/// The largest number of readings that one `Stat` can stand for. Up to this
/// count the sum of the readings fits its field.
pub const MAX_COUNT: u64 = 9_000_000_000_000_000;

/// Whether `tenths` is a temperature of the accepted range.
pub open spec fn is_temperature(tenths: int) -> bool {
    MIN_TEMPERATURE <= tenths <= MAX_TEMPERATURE
}

/// Minimum, maximum, sum and number of the readings of one station.
#[derive(Clone, Copy, Debug, PartialEq, Eq, Structural)]
pub struct Stat {
    pub min: i32,
    pub max: i32,
    pub sum: i64,
    pub count: u64,
}

/// The statistics of a single reading.
pub open spec fn stat_of(tenths: int) -> Stat {
    Stat { min: tenths as i32, max: tenths as i32, sum: tenths as i64, count: 1 }
}

/// The statistics of the readings of `stat` and one more reading.
pub open spec fn stat_with(stat: Stat, tenths: int) -> Stat {
    Stat {
        min: if tenths < stat.min { tenths as i32 } else { stat.min },
        max: if tenths > stat.max { tenths as i32 } else { stat.max },
        sum: (stat.sum + tenths) as i64,
        count: (stat.count + 1) as u64,
    }
}

/// The statistics of the readings of `a` and of `b` together.
pub open spec fn stat_join(a: Stat, b: Stat) -> Stat {
    Stat {
        min: if b.min < a.min { b.min } else { a.min },
        max: if b.max > a.max { b.max } else { a.max },
        sum: (a.sum + b.sum) as i64,
        count: (a.count + b.count) as u64,
    }
}

/// The mean of the readings in tenths, rounded to the nearest tenth, a half
/// going up: the floor of `sum / count + 1/2`.
pub open spec fn mean_tenths(stat: Stat) -> int {
    (2 * stat.sum + stat.count) / (2 * stat.count)
}

impl Stat {
    /// At least one reading and no more than `MAX_COUNT`, all of them
    /// temperatures, none below `min` or above `max`.
    pub open spec fn valid(&self) -> bool {
        &&& 1 <= self.count <= MAX_COUNT
        &&& MIN_TEMPERATURE <= self.min <= self.max <= MAX_TEMPERATURE
        &&& self.count * self.min <= self.sum <= self.count * self.max
    }

    /// Whether the fields can be those of a series of readings.
    pub fn is_valid(&self) -> (ok: bool)
        ensures
            ok == self.valid(),
    {
        if !(1 <= self.count && self.count <= MAX_COUNT) {
            return false;
        }
        if !(MIN_TEMPERATURE <= self.min && self.min <= self.max && self.max <= MAX_TEMPERATURE) {
            return false;
        }
        let count: i128 = self.count as i128;
        let low: i128 = self.min as i128;
        let high: i128 = self.max as i128;
        let sum: i128 = self.sum as i128;
        assert(-9_000_000_000_000_000_000 <= count * low <= 9_000_000_000_000_000_000
            && -9_000_000_000_000_000_000 <= count * high <= 9_000_000_000_000_000_000)
            by (nonlinear_arith)
            requires
                1 <= count <= 9_000_000_000_000_000,
                -999 <= low <= 999,
                -999 <= high <= 999,
        ;
        count * low <= sum && sum <= count * high
    }

    /// The statistics of a single reading.
    pub fn single(tenths: i32) -> (stat: Stat)
        requires
            is_temperature(tenths as int),
        ensures
            stat == stat_of(tenths as int),
            stat.valid(),
    {
        Stat { min: tenths, max: tenths, sum: tenths as i64, count: 1 }
    }

    /// Takes one more reading in.
    pub fn record(self, tenths: i32) -> (stat: Stat)
        requires
            self.valid(),
            self.count < MAX_COUNT,
            is_temperature(tenths as int),
        ensures
            stat == stat_with(self, tenths as int),
            stat.valid(),
    {
        proof {
            lemma_sum_bounds(self);
            lemma_with_valid(self, tenths as int);
        }
        Stat {
            min: if tenths < self.min { tenths } else { self.min },
            max: if tenths > self.max { tenths } else { self.max },
            sum: self.sum + tenths as i64,
            count: self.count + 1,
        }
    }

    /// Joins the readings of two series of one station.
    pub fn combine(self, other: Stat) -> (stat: Stat)
        requires
            self.valid(),
            other.valid(),
            self.count + other.count <= MAX_COUNT,
        ensures
            stat == stat_join(self, other),
            stat.valid(),
    {
        proof {
            lemma_sum_bounds(self);
            lemma_sum_bounds(other);
            lemma_join_valid(self, other);
        }
        Stat {
            min: if other.min < self.min { other.min } else { self.min },
            max: if other.max > self.max { other.max } else { self.max },
            sum: self.sum + other.sum,
            count: self.count + other.count,
        }
    }

    /// The rounded mean in tenths. It lies between the minimum and the
    /// maximum.
    pub fn mean(&self) -> (mean: i32)
        requires
            self.valid(),
        ensures
            mean == mean_tenths(*self),
            self.min <= mean <= self.max,
            self.sum < 0 ==> mean <= 0,
            self.sum >= 0 ==> mean >= 0,
    {
        proof {
            lemma_sum_bounds(*self);
            lemma_mean_between(*self);
        }
        let count: u64 = self.count;
        let twice: u64 = 2 * count;
        if self.sum >= 0 {
            let sum: u64 = self.sum as u64;
            let shifted: u64 = 2 * sum + count;
            let mean: u64 = shifted / twice;
            mean as i32
        } else {
            let debt: u64 = (-self.sum) as u64;
            let shifted: u64 = 2 * debt + count - 1;
            let magnitude: u64 = shifted / twice;
            proof {
                lemma_mean_of_negative(self.sum as int, count as int);
            }
            -(magnitude as i32)
        }
    }
}

/// The sum of a valid `Stat` is at most 999 per reading in size.
pub proof fn lemma_sum_bounds(stat: Stat)
    requires
        stat.valid(),
    ensures
        -999 * stat.count <= stat.sum <= 999 * stat.count,
        -8_991_000_000_000_000_000 <= stat.sum <= 8_991_000_000_000_000_000,
{
    let count = stat.count as int;
    let low = stat.min as int;
    let high = stat.max as int;
    assert(-999 * count <= count * low && count * high <= 999 * count) by (nonlinear_arith)
        requires
            count >= 1,
            -999 <= low,
            high <= 999,
    ;
}

/// One more reading keeps a `Stat` valid.
pub proof fn lemma_with_valid(stat: Stat, tenths: int)
    requires
        stat.valid(),
        stat.count < MAX_COUNT,
        is_temperature(tenths),
    ensures
        stat_with(stat, tenths).valid(),
        stat_with(stat, tenths).sum == stat.sum + tenths,
        stat_with(stat, tenths).count == stat.count + 1,
{
    lemma_sum_bounds(stat);
    let next = stat_with(stat, tenths);
    let count = stat.count as int;
    let low = stat.min as int;
    let high = stat.max as int;
    let new_low = next.min as int;
    let new_high = next.max as int;
    assert((count + 1) * new_low <= count * low + tenths) by (nonlinear_arith)
        requires
            count >= 1,
            new_low <= low,
            new_low <= tenths,
    ;
    assert(count * high + tenths <= (count + 1) * new_high) by (nonlinear_arith)
        requires
            count >= 1,
            high <= new_high,
            tenths <= new_high,
    ;
}

/// Joining two valid `Stat`s whose counts fit together gives a valid one.
pub proof fn lemma_join_valid(a: Stat, b: Stat)
    requires
        a.valid(),
        b.valid(),
        a.count + b.count <= MAX_COUNT,
    ensures
        stat_join(a, b).valid(),
        stat_join(a, b).sum == a.sum + b.sum,
        stat_join(a, b).count == a.count + b.count,
{
    lemma_sum_bounds(a);
    lemma_sum_bounds(b);
    let joined = stat_join(a, b);
    let (ca, cb) = (a.count as int, b.count as int);
    let (la, lb, low) = (a.min as int, b.min as int, joined.min as int);
    let (ha, hb, high) = (a.max as int, b.max as int, joined.max as int);
    assert((ca + cb) * low <= ca * la + cb * lb) by (nonlinear_arith)
        requires
            ca >= 1,
            cb >= 1,
            low <= la,
            low <= lb,
    ;
    assert(ca * ha + cb * hb <= (ca + cb) * high) by (nonlinear_arith)
        requires
            ca >= 1,
            cb >= 1,
            ha <= high,
            hb <= high,
    ;
}

/// The rounded mean of a valid `Stat` lies between its minimum and its
/// maximum, and has the sign of the sum or is zero.
pub proof fn lemma_mean_between(stat: Stat)
    requires
        stat.valid(),
    ensures
        stat.min <= mean_tenths(stat) <= stat.max,
        stat.sum < 0 ==> mean_tenths(stat) <= 0,
        stat.sum >= 0 ==> mean_tenths(stat) >= 0,
{
    let count = stat.count as int;
    let sum = stat.sum as int;
    let low = stat.min as int;
    let high = stat.max as int;
    let mean = (2 * sum + count) / (2 * count);
    assert(low <= mean <= high && (sum < 0 ==> mean <= 0) && (sum >= 0 ==> mean >= 0))
        by (nonlinear_arith)
        requires
            count >= 1,
            count * low <= sum <= count * high,
            mean == (2 * sum + count) / (2 * count),
    ;
}

/// Rounding a negative mean by way of its size.
proof fn lemma_mean_of_negative(sum: int, count: int)
    requires
        sum < 0,
        count >= 1,
    ensures
        (2 * sum + count) / (2 * count) == -((2 * (-sum) + count - 1) / (2 * count)),
{
    let divisor = 2 * count;
    let up = 2 * (-sum) + count - 1;
    let down = 2 * sum + count;
    let q = up / divisor;
    assert(down / divisor == -q) by (nonlinear_arith)
        requires
            divisor >= 2,
            up + down == divisor - 1,
            q == up / divisor,
    ;
}

} // verus!
