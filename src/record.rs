use vstd::prelude::*;
use vstd::arithmetic::div_mod::{lemma_fundamental_div_mod, lemma_hoist_over_denominator};

use crate::temperature::{Temperature, MAX_TENTHS, MIN_TENTHS};

verus! {

/// The most observations that one record, or one store, may hold.
pub const MAX_COUNT: u64 = 1125899906842624;

/// What a record holds: least and greatest value, their sum, and how many.
pub ghost struct RecordView {
    pub min: int,
    pub max: int,
    pub sum: int,
    pub count: int,
}

/// The record of no observations: its bounds are the extremes of the range, so
/// that the first value replaces both.
pub open spec fn empty_view() -> RecordView {
    RecordView { min: MAX_TENTHS as int, max: MIN_TENTHS as int, sum: 0, count: 0 }
}

/// One more observation, compared against both bounds every time.
pub open spec fn observe(r: RecordView, v: int) -> RecordView {
    RecordView {
        min: if v < r.min { v } else { r.min },
        max: if v > r.max { v } else { r.max },
        sum: r.sum + v,
        count: r.count + 1,
    }
}

/// Two records of the same key, taken together.
pub open spec fn combine(a: RecordView, b: RecordView) -> RecordView {
    RecordView {
        min: if b.min < a.min { b.min } else { a.min },
        max: if b.max > a.max { b.max } else { a.max },
        sum: a.sum + b.sum,
        count: a.count + b.count,
    }
}

/// The mean in tenths, rounded half up: `floor(sum / count + 1/2)`.
pub open spec fn rounded_mean(sum: int, count: int) -> int {
    (2 * sum + count) / (2 * count)
}

/// Running statistics of one key.
#[derive(Debug, Clone, Copy)]
pub struct Record {
    pub min: Temperature,
    /// Set once `min` is the least representable value and cannot fall further.
    pub minned: bool,
    pub max: Temperature,
    /// Set once `max` is the greatest representable value and cannot rise further.
    pub maxed: bool,
    pub sum: i64,
    pub count: u64,
}

impl Record {
    pub open spec fn view(&self) -> RecordView {
        RecordView {
            min: self.min.tenths(),
            max: self.max.tenths(),
            sum: self.sum as int,
            count: self.count as int,
        }
    }

    pub open spec fn wf(&self) -> bool {
        &&& self.min.wf()
        &&& self.max.wf()
        &&& self.minned ==> self.min.0 == MIN_TENTHS
        &&& self.maxed ==> self.max.0 == MAX_TENTHS
        &&& self.count <= MAX_COUNT
        &&& -(MAX_TENTHS as int) * self.count <= self.sum <= MAX_TENTHS as int * self.count
    }

    /// The record of no observations.
    pub fn new() -> (r: Record)
        ensures
            r.wf(),
            r.view() == empty_view(),
    {
        Record {
            min: Temperature(MAX_TENTHS),
            minned: false,
            max: Temperature(MIN_TENTHS),
            maxed: false,
            sum: 0,
            count: 0,
        }
    }

    /// Folds one observation in. A bound that has reached the end of the range
    /// is no longer compared against, which changes nothing observable.
    pub fn add_measure(&mut self, measure: Temperature)
        requires
            old(self).wf(),
            measure.wf(),
            old(self).count < MAX_COUNT,
        ensures
            final(self).wf(),
            final(self).view() == observe(old(self).view(), measure.tenths()),
    {
        if !self.minned && measure.0 < self.min.0 {
            self.min = measure;
            if self.min.0 == MIN_TENTHS {
                self.minned = true;
            }
        }
        if !self.maxed && measure.0 > self.max.0 {
            self.max = measure;
            if self.max.0 == MAX_TENTHS {
                self.maxed = true;
            }
        }
        proof {
            assert(MAX_TENTHS as int * self.count + MAX_TENTHS as int == MAX_TENTHS as int * (
            self.count + 1)) by (nonlinear_arith);
        }
        self.sum = self.sum + measure.0 as i64;
        self.count = self.count + 1;
    }

    /// Takes in the observations of another record of the same key.
    pub fn add_assign(&mut self, rhs: &Record)
        requires
            old(self).wf(),
            rhs.wf(),
            old(self).count + rhs.count <= MAX_COUNT,
        ensures
            final(self).wf(),
            final(self).view() == combine(old(self).view(), rhs.view()),
    {
        proof {
            assert(MAX_TENTHS as int * self.count + MAX_TENTHS as int * rhs.count
                == MAX_TENTHS as int * (self.count + rhs.count)) by (nonlinear_arith);
        }
        self.count = self.count + rhs.count;
        self.sum = self.sum + rhs.sum;
        if rhs.max.0 > self.max.0 {
            self.max = rhs.max;
        }
        self.maxed = self.maxed || rhs.maxed;
        if rhs.min.0 < self.min.0 {
            self.min = rhs.min;
        }
        self.minned = self.minned || rhs.minned;
    }

    pub fn min(&self) -> (r: Temperature)
        ensures
            r == self.min,
    {
        self.min
    }

    pub fn max(&self) -> (r: Temperature)
        ensures
            r == self.max,
    {
        self.max
    }

    pub fn sum(&self) -> (r: i64)
        ensures
            r == self.sum,
    {
        self.sum
    }

    pub fn count(&self) -> (r: u64)
        ensures
            r == self.count,
    {
        self.count
    }

    /// The mean in tenths, rounded half up.
    pub fn mean(&self) -> (r: i64)
        requires
            self.wf(),
            self.count > 0,
        ensures
            r == rounded_mean(self.sum as int, self.count as int),
            MIN_TENTHS <= r <= MAX_TENTHS,
    {
        let c = self.count;
        let shifted: u64 = (self.sum + 999 * (c as i64)) as u64;
        let n: u64 = 2 * shifted + c;
        let d: u64 = 2 * c;
        let q: u64 = n / d;
        proof {
            let s = self.sum as int;
            let ci = c as int;
            lemma_hoist_over_denominator(2 * s + ci, 999, d as nat);
            assert(2 * s + ci + 999 * (d as int) == n as int) by (nonlinear_arith)
                requires
                    d == 2 * ci,
                    n == 2 * (s + 999 * ci) + ci,
            ;
            lemma_fundamental_div_mod(n as int, d as int);
            assert(q < 1999) by (nonlinear_arith)
                requires
                    n as int == d * q + n % d,
                    0 <= n % d,
                    n <= 2 * (1998 * ci) + ci,
                    d == 2 * ci,
                    ci > 0,
            ;
        }
        q as i64 - 999
    }
}

impl Default for Record {
    fn default() -> (r: Record)
        ensures
            r.wf(),
            r.view() == empty_view(),
    {
        Record::new()
    }
}

} // verus!
