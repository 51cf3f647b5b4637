use vstd::prelude::*;

verus! {

/// Mathematical form of a running statistic over scaled values.
pub struct Agg {
    pub sum: int,
    pub count: int,
    pub min: int,
    pub max: int,
}

pub open spec fn min_int(a: int, b: int) -> int {
    if a < b {
        a
    } else {
        b
    }
}

pub open spec fn max_int(a: int, b: int) -> int {
    if a > b {
        a
    } else {
        b
    }
}

/// The statistic of a single observation.
pub open spec fn single(v: int) -> Agg {
    Agg { sum: v, count: 1, min: v, max: v }
}

/// The statistic of two disjoint sets of observations taken together.
pub open spec fn union(a: Agg, b: Agg) -> Agg {
    Agg {
        sum: a.sum + b.sum,
        count: a.count + b.count,
        min: min_int(a.min, b.min),
        max: max_int(a.max, b.max),
    }
}

/// At least one observation, and the mean lies between minimum and maximum.
pub open spec fn agg_wf(a: Agg) -> bool {
    &&& a.count >= 1
    &&& a.min <= a.max
    &&& a.min * a.count <= a.sum <= a.max * a.count
}

/// Union keeps the invariant of a statistic.
pub proof fn lemma_union_wf(a: Agg, b: Agg)
    requires
        agg_wf(a),
        agg_wf(b),
    ensures
        agg_wf(union(a, b)),
{
    let lo = min_int(a.min, b.min);
    let hi = max_int(a.max, b.max);
    assert(lo * a.count <= a.min * a.count) by (nonlinear_arith)
        requires
            lo <= a.min,
            a.count >= 1,
    ;
    assert(lo * b.count <= b.min * b.count) by (nonlinear_arith)
        requires
            lo <= b.min,
            b.count >= 1,
    ;
    assert(a.max * a.count <= hi * a.count) by (nonlinear_arith)
        requires
            a.max <= hi,
            a.count >= 1,
    ;
    assert(b.max * b.count <= hi * b.count) by (nonlinear_arith)
        requires
            b.max <= hi,
            b.count >= 1,
    ;
    assert(lo * (a.count + b.count) == lo * a.count + lo * b.count) by (nonlinear_arith);
    assert(hi * (a.count + b.count) == hi * a.count + hi * b.count) by (nonlinear_arith);
}

/// Union of statistics is associative and commutative: three statistics
/// of one key combine to the same result in any grouping and order.
pub proof fn lemma_union_associative_commutative(a: Agg, b: Agg, c: Agg)
    ensures
        union(union(a, b), c) == union(a, union(b, c)),
        union(union(a, b), c) == union(union(a, c), b),
        union(a, b) == union(b, a),
{
}

/// Largest magnitude of a scaled value.
pub const VALUE_BOUND: i32 = 999_999_999;

/// Running statistic of one key: sum and count of its scaled values, and
/// the least and greatest of them.
#[derive(Clone, Copy, Debug)]
pub struct Data {
    sum: i128,
    count: u64,
    min: i32,
    max: i32,
}

impl View for Data {
    type V = Agg;

    closed spec fn view(&self) -> Agg {
        Agg { sum: self.sum as int, count: self.count as int, min: self.min as int, max: self.max as int }
    }
}

pub open spec fn value_in_bound(v: int) -> bool {
    -VALUE_BOUND <= v <= VALUE_BOUND
}

proof fn lemma_sum_bound(a: Agg)
    requires
        agg_wf(a),
        value_in_bound(a.min),
        value_in_bound(a.max),
        a.count <= u64::MAX,
    ensures
        -0x1_0000_0000_0000_0000_0000_0000 <= a.sum <= 0x1_0000_0000_0000_0000_0000_0000,
{
    assert(a.max * a.count <= 1_000_000_000 * 0x1_0000_0000_0000_0000) by (nonlinear_arith)
        requires
            a.max <= 999_999_999,
            0 <= a.count <= u64::MAX,
    ;
    assert(a.min * a.count >= -1_000_000_000 * 0x1_0000_0000_0000_0000) by (nonlinear_arith)
        requires
            a.min >= -999_999_999,
            0 <= a.count <= u64::MAX,
    ;
}

impl Data {
    /// A statistic of at least one value, with every value in bound.
    pub open spec fn wf(&self) -> bool {
        &&& agg_wf(self@)
        &&& value_in_bound(self@.min)
        &&& value_in_bound(self@.max)
    }

    /// The statistic of one observation.
    pub fn new(value: i32) -> (r: Data)
        requires
            value_in_bound(value as int),
        ensures
            r@ == single(value as int),
            r.wf(),
    {
        Data { sum: value as i128, count: 1, min: value, max: value }
    }

    /// Whether `other` can be folded into this statistic without the count
    /// leaving `u64`.
    pub fn can_union(&self, other: &Data) -> (r: bool)
        ensures
            r == (self@.count + other@.count <= u64::MAX),
    {
        self.count <= u64::MAX - other.count
    }

    /// Folds one more observation into the statistic.
    pub fn update(&mut self, value: i32)
        requires
            old(self).wf(),
            old(self)@.count < u64::MAX,
            value_in_bound(value as int),
        ensures
            final(self)@ == union(old(self)@, single(value as int)),
            final(self).wf(),
    {
        proof {
            lemma_union_wf(self@, single(value as int));
            lemma_sum_bound(self@);
        }
        self.sum = self.sum + value as i128;
        self.count = self.count + 1;
        if value < self.min {
            self.min = value;
        } else if value > self.max {
            self.max = value;
        }
    }

    /// Folds the statistic of other observations of the same key into this one.
    pub fn union(&mut self, other: &Data)
        requires
            old(self).wf(),
            other.wf(),
            old(self)@.count + other@.count <= u64::MAX,
        ensures
            final(self)@ == union(old(self)@, other@),
            final(self).wf(),
    {
        proof {
            lemma_union_wf(self@, other@);
            lemma_sum_bound(self@);
            lemma_sum_bound(other@);
        }
        self.sum = self.sum + other.sum;
        self.count = self.count + other.count;
        self.min = if self.min < other.min {
            self.min
        } else {
            other.min
        };
        self.max = if self.max > other.max {
            self.max
        } else {
            other.max
        };
    }

    pub fn sum(&self) -> (r: i128)
        ensures
            r == self@.sum,
    {
        self.sum
    }

    pub fn count(&self) -> (r: u64)
        ensures
            r == self@.count,
    {
        self.count
    }

    pub fn min(&self) -> (r: i32)
        ensures
            r == self@.min,
    {
        self.min
    }

    pub fn max(&self) -> (r: i32)
        ensures
            r == self@.max,
    {
        self.max
    }
}

} // verus!
