//! The reporting cadence: how many samples make up one report.
use vstd::prelude::*;

verus! {

/// A configured period is accepted only when it is a positive number of seconds.
pub fn accept_period(value: i32) -> (r: Option<i32>)
    ensures
        r == (if value > 0 { Some(value) } else { None::<i32> }),
{
    if value > 0 {
        Some(value)
    } else {
        None
    }
}

/// Number of samples taken between two reports: the upload period divided by
/// the record period, truncated.
pub fn total_ticks(record_period: i32, upload_period: i32) -> (r: i32)
    requires
        record_period > 0,
        upload_period >= 0,
    ensures
        r == upload_period / record_period,
        0 <= r <= upload_period,
        r * record_period <= upload_period < (r + 1) * record_period,
{
    let r = upload_period / record_period;
    proof {
        lemma_truncated_ticks(record_period as int, upload_period as int);
    }
    r
}

/// Truncating division: the number of whole record periods that fit in the
/// upload period, and no more.
pub proof fn lemma_truncated_ticks(record_period: int, upload_period: int)
    requires
        record_period > 0,
        upload_period >= 0,
    ensures
        0 <= upload_period / record_period <= upload_period,
        (upload_period / record_period) * record_period <= upload_period < (upload_period
            / record_period + 1) * record_period,
{
    vstd::arithmetic::div_mod::lemma_fundamental_div_mod(upload_period, record_period);
    vstd::arithmetic::div_mod::lemma_div_pos_is_pos(upload_period, record_period);
    vstd::arithmetic::div_mod::lemma_div_is_ordered_by_denominator(upload_period, 1, record_period);
    assert(upload_period / record_period * record_period + upload_period % record_period == upload_period) by (nonlinear_arith)
        requires upload_period == record_period * (upload_period / record_period) + upload_period % record_period;
    assert((upload_period / record_period + 1) * record_period == upload_period / record_period * record_period + record_period) by (nonlinear_arith);
}

/// What the driver does next.
pub enum Step {
    /// Take a snapshot, feed it to the tracker, then wait one record period.
    Sample,
    /// Summarize the records and hand the report on.
    Report,
}

/// Where the driver stands in the current reporting cycle: `total_ticks`
/// samples, then one report, forever.
pub struct ReportCycle {
    pub total_ticks: i32,
    pub done: i32,
}

impl ReportCycle {
    /// No more samples are counted than one cycle holds.
    pub open spec fn wf(&self) -> bool {
        0 <= self.done <= self.total_ticks
    }

    /// The start of the first cycle.
    pub fn new(record_period: i32, upload_period: i32) -> (r: ReportCycle)
        requires
            record_period > 0,
            upload_period > 0,
        ensures
            r.wf(),
            r.total_ticks == upload_period / record_period,
            r.done == 0,
    {
        ReportCycle { total_ticks: total_ticks(record_period, upload_period), done: 0 }
    }

    /// The next step: a sample while the cycle has samples left, else a
    /// report, after which a new cycle starts.
    pub fn next_step(&mut self) -> (r: Step)
        requires
            old(self).wf(),
        ensures
            final(self).wf(),
            final(self).total_ticks == old(self).total_ticks,
            if old(self).done < old(self).total_ticks {
                r == Step::Sample && final(self).done == old(self).done + 1
            } else {
                r == Step::Report && final(self).done == 0
            },
    {
        if self.done < self.total_ticks {
            self.done = self.done + 1;
            Step::Sample
        } else {
            self.done = 0;
            Step::Report
        }
    }
}

} // verus!
