//! One slot of the aggregation table: a key and its running summary.

use vstd::prelude::*;
use crate::inline_string::{InlineString, MAX_STRING_LEN};
use crate::reading::{TemperatureReading, MIN_READING, MAX_READING};
use crate::summary::{TemperatureSummary, SummaryView, sum_add, sum_empty, sum_wf};

verus! {

/// A table slot. A slot whose key is empty is unoccupied.
#[derive(Debug)]
pub struct Entry {
    pub key: InlineString,
    pub temp_summary: TemperatureSummary,
}

/// Whether a slot holds a key.
pub open spec fn entry_occupied(e: Entry) -> bool {
    e.key@.len() > 0
}

impl Entry {
    /// An unoccupied slot with a sentinel summary.
    pub fn new() -> (r: Self)
        ensures
            !entry_occupied(r),
            r.temp_summary@ == sum_empty(),
    {
        Entry { key: InlineString::default(), temp_summary: TemperatureSummary::new() }
    }

    /// Resets the summary to the sentinel state, leaving the key alone.
    pub fn initialize_to_default(&mut self)
        ensures
            final(self).key == old(self).key,
            final(self).temp_summary@ == sum_empty(),
    {
        self.temp_summary.initialize();
    }

    /// Whether the slot is still unoccupied.
    pub fn is_default(&self) -> (r: bool)
        ensures
            r == !entry_occupied(*self),
    {
        self.key.is_default()
    }

    /// The slot's key and summary, copied out for enumeration.
    pub fn to_iter_pair(&self) -> (r: (InlineString, TemperatureSummary))
        ensures
            r.0@ == self.key@,
            r.1@ == self.temp_summary@,
    {
        (self.key.clone(), self.temp_summary)
    }

    /// Applies one reading to the slot's summary.
    pub fn add_reading(&mut self, reading: TemperatureReading)
        requires
            sum_wf(old(self).temp_summary@),
            old(self).temp_summary@.count < u32::MAX,
            MIN_READING <= reading@ <= MAX_READING,
        ensures
            final(self).key == old(self).key,
            final(self).temp_summary@ == sum_add(old(self).temp_summary@, reading@),
            sum_wf(final(self).temp_summary@),
    {
        self.temp_summary.add_reading(reading);
    }

    /// The claim-or-compare step of probing: an occupied slot answers
    /// whether its key matches; an unoccupied slot claims the key and
    /// answers yes.
    pub fn matches_key_or_initialize(&mut self, station: &[u8]) -> (r: bool)
        requires
            1 <= station@.len() <= MAX_STRING_LEN,
        ensures
            old(self).key@ == station@ ==> r && *final(self) == *old(self),
            old(self).key@.len() == 0 ==> {
                &&& r
                &&& final(self).key@ == station@
                &&& final(self).temp_summary == old(self).temp_summary
            },
            old(self).key@.len() > 0 && old(self).key@ != station@ ==> !r && *final(self) == *old(
                self,
            ),
    {
        if self.key.eq_foreign_str(station) {
            true
        } else if self.key.is_default() {
            self.key.initialize(station);
            true
        } else {
            false
        }
    }
}

impl Default for Entry {
    /// An unoccupied slot with a sentinel summary.
    fn default() -> (r: Self)
        ensures
            !entry_occupied(r),
            r.temp_summary@ == sum_empty(),
    {
        Entry::new()
    }
}

} // verus!
