//! Running per-key summaries: minimum, maximum, total and count.
//!
//! A summary starts in a sentinel state (`min` above every reading, `max`
//! below every reading, zero total and count) and grows monotonically as
//! readings are applied. Combining two summaries pointwise is associative
//! and commutative, which is what makes sharded scans mergeable.

use vstd::prelude::*;
use vstd::arithmetic::div_mod::lemma_fundamental_div_mod_converse;
use crate::reading::{TemperatureReading, MIN_READING, MAX_READING};

verus! {

/// Mathematical model of a summary.
pub ghost struct SummaryView {
    pub min: int,
    pub max: int,
    pub total: int,
    pub count: int,
}

/// The sentinel state before any reading was applied.
pub open spec fn sum_empty() -> SummaryView {
    SummaryView { min: i16::MAX as int, max: i16::MIN as int, total: 0, count: 0 }
}

/// One reading applied to a summary.
pub open spec fn sum_add(s: SummaryView, v: int) -> SummaryView {
    SummaryView {
        min: if v < s.min { v } else { s.min },
        max: if v > s.max { v } else { s.max },
        total: s.total + v,
        count: s.count + 1,
    }
}

/// The pointwise combination of two summaries.
pub open spec fn sum_merge(a: SummaryView, b: SummaryView) -> SummaryView {
    SummaryView {
        min: if a.min < b.min { a.min } else { b.min },
        max: if a.max > b.max { a.max } else { b.max },
        total: a.total + b.total,
        count: a.count + b.count,
    }
}

/// Well-formedness: the state is reachable from the sentinel by legal
/// readings, with the count still inside its machine bound.
pub open spec fn sum_wf(s: SummaryView) -> bool {
    &&& 0 <= s.count <= u32::MAX
    &&& MIN_READING * s.count <= s.total <= MAX_READING * s.count
    &&& (s.count == 0 ==> s == sum_empty())
    &&& (s.count > 0 ==> MIN_READING <= s.min <= s.max <= MAX_READING)
}

/// The exact average a summary reports: half the count is added to the
/// total before a Euclidean division by the count, which rounds half away
/// from zero at the fixed-point scale.
pub open spec fn sum_avg(s: SummaryView) -> int {
    (s.total + s.count / 2) / s.count
}

/// Combining summaries is commutative.
pub proof fn lemma_sum_merge_commutative(a: SummaryView, b: SummaryView)
    ensures
        sum_merge(a, b) == sum_merge(b, a),
{
}

/// Combining summaries is associative.
pub proof fn lemma_sum_merge_associative(a: SummaryView, b: SummaryView, c: SummaryView)
    ensures
        sum_merge(sum_merge(a, b), c) == sum_merge(a, sum_merge(b, c)),
{
}

/// The sentinel is the identity of combination.
pub proof fn lemma_sum_merge_empty(a: SummaryView)
    requires
        sum_wf(a),
    ensures
        sum_merge(a, sum_empty()) == a,
        sum_merge(sum_empty(), a) == a,
{
}

/// Applying a reading and then combining is the same as combining and then
/// applying the reading to either side.
pub proof fn lemma_sum_add_merge(a: SummaryView, b: SummaryView, v: int)
    ensures
        sum_merge(a, sum_add(b, v)) == sum_add(sum_merge(a, b), v),
{
}

/// Readings may be applied in either order.
pub proof fn lemma_sum_add_commutes(s: SummaryView, v: int, w: int)
    ensures
        sum_add(sum_add(s, v), w) == sum_add(sum_add(s, w), v),
{
}

/// A running summary over decoded readings.
#[derive(Clone, Copy, Debug)]
pub struct TemperatureSummary {
    pub min: TemperatureReading,
    pub max: TemperatureReading,
    pub total: i64,
    pub count: u32,
}

impl View for TemperatureSummary {
    type V = SummaryView;

    open spec fn view(&self) -> SummaryView {
        SummaryView {
            min: self.min@,
            max: self.max@,
            total: self.total as int,
            count: self.count as int,
        }
    }
}

impl TemperatureSummary {
    /// The sentinel summary.
    pub fn new() -> (r: Self)
        ensures
            r@ == sum_empty(),
            sum_wf(r@),
    {
        TemperatureSummary {
            min: TemperatureReading::new(i16::MAX),
            max: TemperatureReading::new(i16::MIN),
            total: 0,
            count: 0,
        }
    }

    /// Resets the summary to the sentinel state.
    pub fn initialize(&mut self)
        ensures
            final(self)@ == sum_empty(),
            sum_wf(final(self)@),
    {
        self.min = TemperatureReading::new(i16::MAX);
        self.max = TemperatureReading::new(i16::MIN);
        self.total = 0;
        self.count = 0;
    }

    pub fn min(&self) -> (r: TemperatureReading)
        ensures
            r@ == self@.min,
    {
        self.min
    }

    pub fn max(&self) -> (r: TemperatureReading)
        ensures
            r@ == self@.max,
    {
        self.max
    }

    /// Applies one reading.
    pub fn add_reading(&mut self, temp: TemperatureReading)
        requires
            sum_wf(old(self)@),
            old(self)@.count < u32::MAX,
            MIN_READING <= temp@ <= MAX_READING,
        ensures
            final(self)@ == sum_add(old(self)@, temp@),
            sum_wf(final(self)@),
    {
        if temp.reading() < self.min.reading() {
            self.min = temp;
        }
        if temp.reading() > self.max.reading() {
            self.max = temp;
        }
        self.total = self.total + temp.reading() as i64;
        self.count = self.count + 1;
    }

    /// Combines another summary into this one.
    pub fn merge(&mut self, other: &TemperatureSummary)
        requires
            sum_wf(old(self)@),
            sum_wf(other@),
            old(self)@.count + other@.count <= u32::MAX,
        ensures
            final(self)@ == sum_merge(old(self)@, other@),
            sum_wf(final(self)@),
    {
        if other.min.reading() < self.min.reading() {
            self.min = other.min;
        }
        if other.max.reading() > self.max.reading() {
            self.max = other.max;
        }
        self.total = self.total + other.total;
        self.count = self.count + other.count;
    }

    /// The rounded average of all readings applied so far.
    pub fn avg(&self) -> (r: TemperatureReading)
        requires
            sum_wf(self@),
            self@.count > 0,
        ensures
            r@ == sum_avg(self@),
            MIN_READING <= r@ <= MAX_READING,
    {
        let c: u64 = self.count as u64;
        let half: i64 = (c / 2) as i64;
        let num: i64 = self.total + half;
        proof {
            assert(num == self@.total + self@.count / 2);
        }
        if num >= 0 {
            let q: u64 = (num as u64) / c;
            proof {
                assert(q == num as int / c as int);
                assert(num < 1000 * c as int);
                assert(q < 1000) by {
                    lemma_fundamental_div_mod_converse(
                        num as int, c as int, num as int / c as int, num as int % c as int);
                    if q >= 1000 {
                        assert(q * c >= 1000 * c as int) by (nonlinear_arith)
                            requires q >= 1000, c >= 1;
                    }
                };
            }
            TemperatureReading::new(q as i16)
        } else {
            let m: u64 = (-num) as u64;
            let q0: u64 = (m + c - 1) / c;
            proof {
                let mi = m as int;
                let ci = c as int;
                let qi = q0 as int;
                assert(qi == (mi + ci - 1) / ci);
                assert(ci * qi + ((mi + ci - 1) % ci) == mi + ci - 1) by {
                    vstd::arithmetic::div_mod::lemma_fundamental_div_mod(mi + ci - 1, ci);
                };
                let r0 = (mi + ci - 1) % ci;
                assert(0 <= r0 < ci) by {
                    vstd::arithmetic::div_mod::lemma_mod_bound(mi + ci - 1, ci);
                };
                // q0 is the ceiling of m / c, so -q0 is the floor of num / c.
                assert(ci * qi >= mi);
                assert(ci * qi <= mi + ci - 1);
                let rem = ci * qi - mi;
                assert(0 <= rem < ci);
                assert((-mi) == (-qi) * ci + rem) by (nonlinear_arith)
                    requires rem == ci * qi - mi;
                lemma_fundamental_div_mod_converse(-mi, ci, -qi, rem);
                assert(-mi == num as int);
                assert(num as int / ci == -qi);
                // The magnitude stays within a legal reading.
                assert(mi <= 1000 * ci - 1);
                assert(qi < 1000) by {
                    if qi >= 1000 {
                        assert(ci * qi >= ci * 1000) by (nonlinear_arith)
                            requires qi >= 1000, ci >= 1;
                    }
                };
            }
            let qi16: i16 = q0 as i16;
            TemperatureReading::new(-qi16)
        }
    }
}

impl Default for TemperatureSummary {
    /// The sentinel summary.
    fn default() -> (r: Self)
        ensures
            r@ == sum_empty(),
            sum_wf(r@),
    {
        TemperatureSummary::new()
    }
}

} // verus!
