//! Running statistics of one key: minimum, maximum, sum and count of the
//! values seen, all in tenths.
use vstd::prelude::*;

verus! {

/// The mathematical content of a [`Station`].
pub struct StatsModel {
    pub min: int,
    pub max: int,
    pub total: int,
    pub count: int,
}

/// The statistics of a key seen once, with value `v`.
pub open spec fn single(v: int) -> StatsModel {
    StatsModel { min: v, max: v, total: v, count: 1 }
}

pub open spec fn min_int(a: int, b: int) -> int {
    if a <= b {
        a
    } else {
        b
    }
}

pub open spec fn max_int(a: int, b: int) -> int {
    if a >= b {
        a
    } else {
        b
    }
}

/// The statistics after one more observation `v`.
pub open spec fn add_obs(s: StatsModel, v: int) -> StatsModel {
    StatsModel {
        min: min_int(s.min, v),
        max: max_int(s.max, v),
        total: s.total + v,
        count: s.count + 1,
    }
}

/// The statistics of two disjoint groups of observations taken together.
pub open spec fn combine(a: StatsModel, b: StatsModel) -> StatsModel {
    StatsModel {
        min: min_int(a.min, b.min),
        max: max_int(a.max, b.max),
        total: a.total + b.total,
        count: a.count + b.count,
    }
}

pub open spec fn in_i32(v: int) -> bool {
    i32::MIN <= v <= i32::MAX
}

/// Statistics that some non-empty set of `i32` observations can have, with
/// a count that fits a `u64`: the mean lies between minimum and maximum.
pub open spec fn stats_wf(s: StatsModel) -> bool {
    &&& 1 <= s.count <= u64::MAX
    &&& in_i32(s.min)
    &&& in_i32(s.max)
    &&& s.min <= s.max
    &&& s.count * s.min <= s.total <= s.count * s.max
}

/// `total / count` rounded to the nearest integer, halves away from zero.
pub open spec fn rounded_mean(total: int, count: int) -> int {
    if total >= 0 {
        (2 * total + count) / (2 * count)
    } else {
        -((-2 * total + count) / (2 * count))
    }
}

pub proof fn lemma_add_obs_wf(s: StatsModel, v: int)
    requires
        stats_wf(s),
        in_i32(v),
        s.count < u64::MAX,
    ensures
        stats_wf(add_obs(s, v)),
{
    let r = add_obs(s, v);
    assert(s.count * r.min <= s.count * s.min) by (nonlinear_arith)
        requires
            r.min <= s.min,
            s.count >= 1,
    ;
    assert(s.count * s.max <= s.count * r.max) by (nonlinear_arith)
        requires
            r.max >= s.max,
            s.count >= 1,
    ;
    assert(r.count * r.min == s.count * r.min + r.min) by (nonlinear_arith)
        requires
            r.count == s.count + 1,
    ;
    assert(r.count * r.max == s.count * r.max + r.max) by (nonlinear_arith)
        requires
            r.count == s.count + 1,
    ;
}

pub proof fn lemma_combine_wf(a: StatsModel, b: StatsModel)
    requires
        stats_wf(a),
        stats_wf(b),
        a.count + b.count <= u64::MAX,
    ensures
        stats_wf(combine(a, b)),
{
    let r = combine(a, b);
    assert(a.count * r.min <= a.count * a.min && b.count * r.min <= b.count * b.min
        && r.count * r.min == a.count * r.min + b.count * r.min) by (nonlinear_arith)
        requires
            r.min <= a.min,
            r.min <= b.min,
            a.count >= 1,
            b.count >= 1,
            r.count == a.count + b.count,
    ;
    assert(a.count * r.max >= a.count * a.max && b.count * r.max >= b.count * b.max
        && r.count * r.max == a.count * r.max + b.count * r.max) by (nonlinear_arith)
        requires
            r.max >= a.max,
            r.max >= b.max,
            a.count >= 1,
            b.count >= 1,
            r.count == a.count + b.count,
    ;
}

/// Bounds that keep the exact sum of a well-formed record inside `i128`.
pub proof fn lemma_wf_total_bounds(s: StatsModel)
    requires
        stats_wf(s),
    ensures
        -0x1_0000_0000_0000_0000_0000_0000 <= s.total <= 0x1_0000_0000_0000_0000_0000_0000,
{
    assert(-0x1_0000_0000_0000_0000_0000_0000 <= s.count * s.min) by (nonlinear_arith)
        requires
            1 <= s.count <= u64::MAX,
            i32::MIN <= s.min,
    ;
    assert(s.count * s.max <= 0x1_0000_0000_0000_0000_0000_0000) by (nonlinear_arith)
        requires
            1 <= s.count <= u64::MAX,
            s.max <= i32::MAX,
    ;
}

/// The rounded mean of well-formed statistics lies between their minimum
/// and maximum.
pub proof fn lemma_rounded_mean_bounds(s: StatsModel)
    requires
        stats_wf(s),
    ensures
        s.min <= rounded_mean(s.total, s.count) <= s.max,
{
    let c = s.count;
    let t = s.total;
    let d = 2 * c;
    if t >= 0 {
        let x = 2 * t + c;
        let q = x / d;
        vstd::arithmetic::div_mod::lemma_fundamental_div_mod(x, d);
        assert(s.min <= q <= s.max) by (nonlinear_arith)
            requires
                x == d * q + x % d,
                0 <= x % d < d,
                d == 2 * c,
                x == 2 * t + c,
                c * s.min <= t <= c * s.max,
                c >= 1,
        ;
    } else {
        let x = -2 * t + c;
        let q = x / d;
        vstd::arithmetic::div_mod::lemma_fundamental_div_mod(x, d);
        assert(s.min <= -q <= s.max) by (nonlinear_arith)
            requires
                x == d * q + x % d,
                0 <= x % d < d,
                d == 2 * c,
                x == -2 * t + c,
                c * s.min <= t <= c * s.max,
                c >= 1,
        ;
    }
}

/// Running statistics of one key, with values in tenths.
#[derive(Clone, Copy, Debug)]
pub struct Station {
    pub min: i32,
    pub max: i32,
    pub total: i128,
    pub count: u64,
}

impl View for Station {
    type V = StatsModel;

    open spec fn view(&self) -> StatsModel {
        StatsModel {
            min: self.min as int,
            max: self.max as int,
            total: self.total as int,
            count: self.count as int,
        }
    }
}

impl Station {
    /// The statistics of a key seen once, with value `value`.
    pub fn new(value: i32) -> (r: Station)
        ensures
            r@ == single(value as int),
            stats_wf(r@),
    {
        Station { min: value, max: value, total: value as i128, count: 1 }
    }

    /// Takes one more observation into account.
    pub fn add_value(&mut self, value: i32)
        requires
            stats_wf(old(self)@),
            old(self).count < u64::MAX,
        ensures
            final(self)@ == add_obs(old(self)@, value as int),
            stats_wf(final(self)@),
    {
        proof {
            lemma_wf_total_bounds(self@);
            lemma_add_obs_wf(self@, value as int);
        }
        if value < self.min {
            self.min = value;
        }
        if value > self.max {
            self.max = value;
        }
        self.total = self.total + value as i128;
        self.count = self.count + 1;
    }

    /// Takes the observations summarised by `other` into account.
    pub fn add_station(&mut self, other: Station)
        requires
            stats_wf(old(self)@),
            stats_wf(other@),
            old(self).count + other.count <= u64::MAX,
        ensures
            final(self)@ == combine(old(self)@, other@),
            stats_wf(final(self)@),
    {
        proof {
            lemma_wf_total_bounds(self@);
            lemma_wf_total_bounds(other@);
            lemma_combine_wf(self@, other@);
        }
        if other.min < self.min {
            self.min = other.min;
        }
        if other.max > self.max {
            self.max = other.max;
        }
        self.total = self.total + other.total;
        self.count = self.count + other.count;
    }

    /// The mean in tenths, rounded to the nearest tenth, halves away from
    /// zero.
    pub fn mean(&self) -> (r: i32)
        requires
            stats_wf(self@),
        ensures
            r as int == rounded_mean(self.total as int, self.count as int),
            self.min <= r <= self.max,
    {
        proof {
            lemma_wf_total_bounds(self@);
            lemma_rounded_mean_bounds(self@);
        }
        let c = self.count as i128;
        let q = if self.total >= 0 {
            (2 * self.total + c) / (2 * c)
        } else {
            -((-2 * self.total + c) / (2 * c))
        };
        q as i32
    }
}

} // verus!
