//! One aggregate bucket: the running `(total, count, max, min)` of every
//! scaled value folded in for one key, and the algebra of buckets (seed,
//! add, pairwise merge) together with its laws.
//!
//! All numeric fields hold values scaled by ten, as produced by the
//! fast-path parser; `total` is wide enough that no realizable number of
//! updates can overflow it.

use vstd::prelude::*;

verus! {

/// Mathematical model of one bucket.
pub ghost struct Bucket {
    pub total: int,
    pub count: nat,
    pub max: int,
    pub min: int,
}

/// The bucket created on the first occurrence of a key.
pub open spec fn bucket_seed(v: int) -> Bucket {
    Bucket { total: v, count: 1, max: v, min: v }
}

/// The bucket after folding one more value in.
pub open spec fn bucket_add(b: Bucket, v: int) -> Bucket {
    Bucket {
        total: b.total + v,
        count: b.count + 1,
        max: if v > b.max {
            v
        } else {
            b.max
        },
        min: if v < b.min {
            v
        } else {
            b.min
        },
    }
}

/// The pairwise merge of two buckets for the same key.
pub open spec fn bucket_merge(a: Bucket, b: Bucket) -> Bucket {
    Bucket {
        total: a.total + b.total,
        count: a.count + b.count,
        max: if b.max > a.max {
            b.max
        } else {
            a.max
        },
        min: if b.min < a.min {
            b.min
        } else {
            a.min
        },
    }
}

/// Every reachable bucket satisfies this: at least one value was folded in,
/// max and min are scaled values in range, and the total lies between
/// `count * min` and `count * max`.
pub open spec fn bucket_wf(b: Bucket) -> bool {
    &&& 1 <= b.count
    &&& -999 <= b.min
    &&& b.min <= b.max
    &&& b.max <= 999
    &&& b.count * b.min <= b.total
    &&& b.total <= b.count * b.max
}

/// The bucket obtained by folding a nonempty sequence of values, first one
/// seeding it.
pub open spec fn bucket_fold(vs: Seq<int>) -> Bucket
    recommends
        vs.len() > 0,
    decreases vs.len(),
{
    if vs.len() <= 1 {
        bucket_seed(vs[0])
    } else {
        bucket_add(bucket_fold(vs.drop_last()), vs.last())
    }
}

/// `total / count`, rounded to the nearest integer with halves away from
/// zero. This is the rounding the report uses for the mean; max and min
/// are exact so it never applies to them.
pub open spec fn round_half_away(t: int, c: int) -> int
    recommends
        c >= 1,
{
    if t >= 0 {
        t / c + if 2 * (t % c) >= c {
            1int
        } else {
            0int
        }
    } else {
        -((-t) / c + if 2 * ((-t) % c) >= c {
            1int
        } else {
            0int
        })
    }
}

/// The reported mean of a bucket, scaled by ten.
pub open spec fn bucket_avg(b: Bucket) -> int
    recommends
        b.count >= 1,
{
    round_half_away(b.total, b.count as int)
}

/// Rounding a quotient keeps it between any bounds the numerator respects.
pub proof fn lemma_round_bounds(t: int, c: int, lo: int, hi: int)
    requires
        c >= 1,
        c * lo <= t,
        t <= c * hi,
    ensures
        lo <= round_half_away(t, c) <= hi,
    decreases
            if t < 0 {
                1int
            } else {
                0int
            },
{
    if t >= 0 {
        let q = t / c;
        let r = t % c;
        vstd::arithmetic::div_mod::lemma_fundamental_div_mod(t, c);
        vstd::arithmetic::div_mod::lemma_mod_bound(t, c);
        assert(t == c * q + r);
        assert(0 <= r < c);
        assert(lo <= q) by (nonlinear_arith)
            requires
                t == c * q + r,
                0 <= r < c,
                c >= 1,
                c * lo <= t,
        ;
        if 2 * r >= c {
            assert(q + 1 <= hi) by (nonlinear_arith)
                requires
                    t == c * q + r,
                    0 <= r < c,
                    2 * r >= c,
                    c >= 1,
                    t <= c * hi,
            ;
        } else {
            assert(q <= hi) by (nonlinear_arith)
                requires
                    t == c * q + r,
                    0 <= r < c,
                    c >= 1,
                    t <= c * hi,
            ;
        }
    } else {
        let u = -t;
        assert(c * (-hi) <= u && u <= c * (-lo)) by (nonlinear_arith)
            requires
                u == -t,
                c * lo <= t,
                t <= c * hi,
        ;
        lemma_round_bounds(u, c, -hi, -lo);
        assert(round_half_away(t, c) == -round_half_away(u, c));
    }
}

/// Law: for every well-formed bucket, `min <= average <= max`.
pub proof fn lemma_avg_in_range(b: Bucket)
    requires
        bucket_wf(b),
    ensures
        b.min <= bucket_avg(b) <= b.max,
{
    lemma_round_bounds(b.total, b.count as int, b.min, b.max);
}

/// Law: a key seen exactly once with value `v` has average, max and min all
/// equal to `v`.
pub proof fn lemma_single_value_bucket(v: int)
    requires
        -999 <= v <= 999,
    ensures
        bucket_fold(seq![v]) == bucket_seed(v),
        bucket_avg(bucket_seed(v)) == v,
        bucket_seed(v).max == v,
        bucket_seed(v).min == v,
{
    let b = bucket_seed(v);
    if v >= 0 {
        vstd::arithmetic::div_mod::lemma_fundamental_div_mod(v, 1);
        vstd::arithmetic::div_mod::lemma_mod_bound(v, 1);
    } else {
        vstd::arithmetic::div_mod::lemma_fundamental_div_mod(-v, 1);
        vstd::arithmetic::div_mod::lemma_mod_bound(-v, 1);
    }
}

/// Law: folding a concatenation of two nonempty value sequences equals
/// merging the folds of the pieces; aggregating partitions and merging the
/// buckets pairwise loses nothing.
pub proof fn lemma_fold_concat(vs1: Seq<int>, vs2: Seq<int>)
    requires
        vs1.len() > 0,
        vs2.len() > 0,
    ensures
        bucket_fold(vs1 + vs2) == bucket_merge(bucket_fold(vs1), bucket_fold(vs2)),
    decreases vs2.len(),
{
    if vs2.len() == 1 {
        assert((vs1 + vs2).drop_last() =~= vs1);
        assert((vs1 + vs2).last() == vs2[0]);
        assert(bucket_fold(vs2) == bucket_seed(vs2[0]));
        assert(bucket_fold(vs1 + vs2) == bucket_add(bucket_fold(vs1), vs2[0]));
    } else {
        lemma_fold_concat(vs1, vs2.drop_last());
        assert((vs1 + vs2).drop_last() =~= vs1 + vs2.drop_last());
        assert((vs1 + vs2).last() == vs2.last());
    }
}

/// The running aggregate for one key.
#[derive(Clone, Copy)]
pub struct TemperatureStats {
    total: i128,
    count: u64,
    max: i64,
    min: i64,
}

impl View for TemperatureStats {
    type V = Bucket;

    closed spec fn view(&self) -> Bucket {
        Bucket {
            total: self.total as int,
            count: self.count as nat,
            max: self.max as int,
            min: self.min as int,
        }
    }
}

impl TemperatureStats {
    pub open spec fn wf(self) -> bool {
        bucket_wf(self@)
    }

    /// A new bucket seeded with its first value.
    pub fn new(temp: i64) -> (s: Self)
        requires
            -999 <= temp <= 999,
        ensures
            s@ == bucket_seed(temp as int),
            s.wf(),
    {
        TemperatureStats { total: temp as i128, count: 1, max: temp, min: temp }
    }

    pub fn count(&self) -> (c: u64)
        ensures
            c as nat == self@.count,
    {
        self.count
    }

    proof fn lemma_total_bounds(self)
        requires
            self.wf(),
        ensures
            -999 * self@.count <= self@.total <= 999 * self@.count,
    {
        let b = self@;
        assert(-999 * b.count <= b.total && b.total <= 999 * b.count) by (nonlinear_arith)
            requires
                b.count * b.min <= b.total,
                b.total <= b.count * b.max,
                -999 <= b.min,
                b.max <= 999,
                b.count >= 1,
        ;
    }

    /// Fold one more value into the bucket.
    pub fn update(&mut self, temp: i64)
        requires
            old(self).wf(),
            -999 <= temp <= 999,
            old(self)@.count < u64::MAX,
        ensures
            final(self)@ == bucket_add(old(self)@, temp as int),
            final(self).wf(),
    {
        proof {
            old(self).lemma_total_bounds();
        }
        self.total = self.total + temp as i128;
        self.count = self.count + 1;
        if temp > self.max {
            self.max = temp;
        }
        if temp < self.min {
            self.min = temp;
        }
        proof {
            let b0 = old(self)@;
            let b1 = self@;
            assert(b1.count * b1.min <= b1.total && b1.total <= b1.count * b1.max)
                by (nonlinear_arith)
                requires
                    b0.count * b0.min <= b0.total,
                    b0.total <= b0.count * b0.max,
                    b1.total == b0.total + temp,
                    b1.count == b0.count + 1,
                    b1.min <= b0.min,
                    b1.min <= temp,
                    b1.max >= b0.max,
                    b1.max >= temp,
                    b0.count >= 1,
            ;
        }
    }

    /// Merge another bucket for the same key into this one.
    pub fn merge_from(&mut self, other: &TemperatureStats)
        requires
            old(self).wf(),
            other.wf(),
            old(self)@.count + other@.count <= u64::MAX,
        ensures
            final(self)@ == bucket_merge(old(self)@, other@),
            final(self).wf(),
    {
        proof {
            old(self).lemma_total_bounds();
            other.lemma_total_bounds();
        }
        self.total = self.total + other.total;
        self.count = self.count + other.count;
        if other.max > self.max {
            self.max = other.max;
        }
        if other.min < self.min {
            self.min = other.min;
        }
        proof {
            let a = old(self)@;
            let b = other@;
            let m = self@;
            assert(m.count * m.min <= m.total && m.total <= m.count * m.max) by (nonlinear_arith)
                requires
                    a.count * a.min <= a.total,
                    a.total <= a.count * a.max,
                    b.count * b.min <= b.total,
                    b.total <= b.count * b.max,
                    m.total == a.total + b.total,
                    m.count == a.count + b.count,
                    m.min <= a.min,
                    m.min <= b.min,
                    m.max >= a.max,
                    m.max >= b.max,
                    a.count >= 1,
                    b.count >= 1,
            ;
        }
    }

    /// The reported mean, scaled by ten: `total / count` rounded half away
    /// from zero.
    pub fn average(&self) -> (r: i64)
        requires
            self.wf(),
        ensures
            r as int == bucket_avg(self@),
            -999 <= r <= 999,
    {
        proof {
            self.lemma_total_bounds();
            lemma_round_bounds(self@.total, self@.count as int, -999, 999);
        }
        let neg = self.total < 0;
        let a: u128 = if neg {
            (-self.total) as u128
        } else {
            self.total as u128
        };
        let c: u128 = self.count as u128;
        let q: u128 = a / c;
        let r: u128 = a % c;
        let rounded: u128 = if 2 * r >= c {
            q + 1
        } else {
            q
        };
        proof {
            if neg {
                assert(rounded as int == (-self@.total) / (self@.count as int) + if 2 * ((-self@.total) % (self@.count as int)) >= self@.count as int {
                    1int
                } else {
                    0int
                });
            }
            assert(rounded <= 999);
        }
        if neg {
            -(rounded as i64)
        } else {
            rounded as i64
        }
    }

    /// The largest value folded in, scaled by ten.
    pub fn max_value(&self) -> (r: i64)
        ensures
            r as int == self@.max,
    {
        self.max
    }

    /// The smallest value folded in, scaled by ten.
    pub fn min_value(&self) -> (r: i64)
        ensures
            r as int == self@.min,
    {
        self.min
    }
}

} // verus!
