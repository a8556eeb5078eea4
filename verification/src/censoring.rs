//! Observations of a time to event, possibly censored.

use vstd::prelude::*;

pub mod surv_result;

verus! {

/// The time code that stands for "never": it is later than every other time.
pub const INFINITY: u64 = 0xFFFF_FFFF_FFFF_FFFF;

/// What an observation says, as plain values.
pub struct SurvView {
    /// 0 for a censored observation, 1 for an event.
    pub indicator: usize,
    /// When the subject came under observation.
    pub entry_time: u64,
    /// The earliest time at which the event can have happened.
    pub exit_l: u64,
    /// The latest time at which the event can have happened.
    pub exit_r: u64,
}

impl SurvView {
    /// The observation is censored: no event was seen.
    pub open spec fn is_censored(self) -> bool {
        self.indicator == 0
    }

    /// The observation only bounds the time by an interval.
    pub open spec fn is_interval_censored(self) -> bool {
        self.exit_l != self.exit_r
    }

    /// The observation is an event at an exactly known time.
    pub open spec fn is_exact_event(self) -> bool {
        self.indicator == 1 && self.exit_l == self.exit_r
    }

    /// The times are in order: entry, then the lower bound, then the upper.
    pub open spec fn is_valid(self) -> bool {
        self.entry_time <= self.exit_l && self.exit_l <= self.exit_r
    }

    /// The time `t` lies in the observation's interval.
    pub open spec fn admits(self, t: u64) -> bool {
        self.exit_l <= t && t <= self.exit_r
    }
}

/// One subject's record: when it entered, and the interval in which its event
/// or its censoring is known to lie.
#[derive(Debug, Clone, Copy)]
pub struct Surv {
    indicator: usize,
    entry_time: u64,
    exit_l: u64,
    exit_r: u64,
}

impl View for Surv {
    type V = SurvView;

    closed spec fn view(&self) -> SurvView {
        SurvView {
            indicator: self.indicator,
            entry_time: self.entry_time,
            exit_l: self.exit_l,
            exit_r: self.exit_r,
        }
    }
}

impl Surv {
    /// The general form. Nothing is checked here: `kaplan_meier` rejects an
    /// observation whose times are out of order.
    pub fn new(ind: usize, entry_time: u64, exit_l: u64, exit_r: u64) -> (s: Surv)
        ensures
            s@ == (SurvView { indicator: ind, entry_time, exit_l, exit_r }),
    {
        Surv { indicator: ind, entry_time, exit_l, exit_r }
    }

    /// An event, or a censoring, at a single instant.
    pub fn new_event(ind: usize, entry_time: u64, event_time: u64) -> (s: Surv)
        ensures
            s@ == (SurvView {
                indicator: ind,
                entry_time,
                exit_l: event_time,
                exit_r: event_time,
            }),
    {
        Surv { indicator: ind, entry_time, exit_l: event_time, exit_r: event_time }
    }

    /// A right-censored observation: the event had not happened by
    /// `event_time`.
    pub fn new_censor(entry_time: u64, event_time: u64) -> (s: Surv)
        ensures
            s@ == (SurvView {
                indicator: 0,
                entry_time,
                exit_l: event_time,
                exit_r: INFINITY,
            }),
    {
        Surv { indicator: 0, entry_time, exit_l: event_time, exit_r: INFINITY }
    }

    /// One observation for each pair of a time and an indicator, in order.
    /// Each enters at time 0 and is exact.
    pub fn from_exit_vec(vec: Vec<(u64, usize)>) -> (out: Vec<Surv>)
        ensures
            out.len() == vec.len(),
            forall|i: int|
                0 <= i < vec.len() ==> (#[trigger] out[i])@ == (SurvView {
                    indicator: vec[i].1,
                    entry_time: 0,
                    exit_l: vec[i].0,
                    exit_r: vec[i].0,
                }),
    {
        let mut out: Vec<Surv> = Vec::new();
        let mut i: usize = 0;
        while i < vec.len()
            invariant
                i <= vec.len(),
                out.len() == i,
                forall|k: int|
                    0 <= k < i ==> (#[trigger] out[k])@ == (SurvView {
                        indicator: vec[k].1,
                        entry_time: 0,
                        exit_l: vec[k].0,
                        exit_r: vec[k].0,
                    }),
            decreases vec.len() - i,
        {
            let pair: (u64, usize) = vec[i];
            out.push(Surv { indicator: pair.1, entry_time: 0, exit_l: pair.0, exit_r: pair.0 });
            i += 1;
        }
        out
    }

    /// Whether the observation is censored.
    pub fn is_censored(&self) -> (b: bool)
        ensures
            b == self@.is_censored(),
    {
        self.indicator == 0
    }

    /// Whether the observation bounds the time by an interval only.
    pub fn is_interval_censored(&self) -> (b: bool)
        ensures
            b == self@.is_interval_censored(),
    {
        !(self.exit_l == self.exit_r)
    }

    /// Whether the observation is an event at an exactly known time.
    pub fn is_exact_event(&self) -> (b: bool)
        ensures
            b == self@.is_exact_event(),
    {
        self.indicator == 1 && self.exit_l == self.exit_r
    }

    /// Whether the times are in order.
    pub fn is_valid(&self) -> (b: bool)
        ensures
            b == self@.is_valid(),
    {
        self.entry_time <= self.exit_l && self.exit_l <= self.exit_r
    }

    /// Whether `t` lies in the observation's interval.
    pub fn admits(&self, t: u64) -> (b: bool)
        ensures
            b == self@.admits(t),
    {
        self.exit_l <= t && t <= self.exit_r
    }

    /// When the subject came under observation.
    pub fn get_entry_time(&self) -> (t: u64)
        ensures
            t == self@.entry_time,
    {
        self.entry_time
    }

    /// The lower bound of the interval.
    pub fn get_exit_l(&self) -> (t: u64)
        ensures
            t == self@.exit_l,
    {
        self.exit_l
    }

    /// The upper bound of the interval.
    pub fn get_exit_time(&self) -> (t: u64)
        ensures
            t == self@.exit_r,
    {
        self.exit_r
    }
}

} // verus!
