//! Runs: single occurrences of a request, and the order they are emitted in.

use crate::name::{lemma_lex_total, lemma_lex_transitive, lex_less, Name};
use crate::random::RandomSource;
use crate::request::{lemma_total_duration_grows, total_duration, Request, ScheduleError};
use crate::usage::UsedPower;
use std::cmp::Ordering;
use vstd::prelude::*;

verus! {

/// One occurrence of a request.
#[derive(Debug)]
pub struct Run<'a> {
    pub name: &'a Name,
    pub request: &'a Request,
    /// In seconds since the start of the simulation.
    pub start_at: u64,
    /// The start and the durations of all segments.
    pub end_at: u64,
    /// Whether the end of another run set this one off.
    pub triggered: bool,
    pub consumption: Vec<UsedPower>,
}

impl<'a> Run<'a> {
    /// The run ends when its segments, taken one after the other from its
    /// start, are over, and the segments are a sample of its request.
    pub open spec fn wf(self) -> bool {
        &&& self.end_at == self.start_at + total_duration(self.consumption@)
        &&& self.request.yields(self.consumption@)
    }

    /// Whether the two runs have the same place in the order: the same start,
    /// both triggered or both not, and the same name.
    pub open spec fn ties(self, other: Run) -> bool {
        &&& self.start_at == other.start_at
        &&& self.triggered == other.triggered
        &&& self.name@ == other.name@
    }

    /// Whether this run is emitted before `other`: it starts earlier; or at
    /// the same time, without a trigger where the other has one; or, alike in
    /// both, under the name that is listed first.
    pub open spec fn before(self, other: Run) -> bool {
        ||| self.start_at < other.start_at
        ||| self.start_at == other.start_at && !self.triggered && other.triggered
        ||| self.start_at == other.start_at && self.triggered == other.triggered && lex_less(
            self.name@,
            other.name@,
        )
    }

    /// Whether this run is emitted before `other` or has the same place.
    pub open spec fn not_after(self, other: Run) -> bool {
        self.before(other) || self.ties(other)
    }

    /// Of two runs exactly one holds: the first comes before the second, they
    /// tie, or the second comes before the first.
    pub proof fn lemma_order_total(self, other: Run)
        ensures
            self.before(other) || self.ties(other) || other.before(self),
            !(self.before(other) && self.ties(other)),
            !(self.before(other) && other.before(self)),
            !(self.ties(other) && other.before(self)),
    {
        lemma_lex_total(self.name@, other.name@);
    }

    /// The order of runs is transitive.
    pub proof fn lemma_order_transitive(self, middle: Run, other: Run)
        requires
            self.not_after(middle),
            middle.not_after(other),
        ensures
            self.not_after(other),
            self.before(middle) || middle.before(other) ==> self.before(other),
    {
        if lex_less(self.name@, middle.name@) && lex_less(middle.name@, other.name@) {
            lemma_lex_transitive(self.name@, middle.name@, other.name@);
        }
    }

    /// A run of `request` from `start_at` with the segments `consumption`,
    /// unless it would end beyond the last second that can be counted.
    pub fn with_consumption(
        name: &'a Name,
        request: &'a Request,
        start_at: u64,
        triggered: bool,
        consumption: Vec<UsedPower>,
    ) -> (r: Result<Run<'a>, ScheduleError>)
        ensures
            match r {
                Ok(run) => {
                    &&& run.name == name
                    &&& run.request == request
                    &&& run.start_at == start_at
                    &&& run.triggered == triggered
                    &&& run.consumption@ == consumption@
                    &&& run.end_at == start_at + total_duration(consumption@)
                },
                Err(e) => e is NumericDegeneracy && start_at + total_duration(consumption@)
                    > u64::MAX,
            },
    {
        let mut end_at: u64 = start_at;
        let mut i: usize = 0;
        assert(consumption@.take(0) =~= Seq::<UsedPower>::empty());
        while i < consumption.len()
            invariant
                i <= consumption.len(),
                end_at == start_at + total_duration(consumption@.take(i as int)),
            decreases consumption.len() - i,
        {
            proof {
                assert(consumption@.take(i + 1).drop_last() =~= consumption@.take(i as int));
                lemma_total_duration_grows(consumption@, i + 1);
            }
            end_at = match end_at.checked_add(consumption[i].duration) {
                Some(t) => t,
                None => {
                    return Err(ScheduleError::NumericDegeneracy);
                },
            };
            i += 1;
        }
        assert(consumption@.take(i as int) =~= consumption@);
        Ok(Run { name, request, start_at, end_at, triggered, consumption })
    }

    /// A run of `request` from `start_at`, its segments sampled from `rng`.
    pub fn new<R: RandomSource>(
        name: &'a Name,
        request: &'a Request,
        start_at: u64,
        triggered: bool,
        rng: &mut R,
    ) -> (r: Result<Run<'a>, ScheduleError>)
        ensures
            match r {
                Ok(run) => {
                    &&& run.name == name
                    &&& run.request == request
                    &&& run.start_at == start_at
                    &&& run.triggered == triggered
                    &&& run.wf()
                },
                Err(e) => e is NumericDegeneracy && start_at + request.longest() > u64::MAX,
            },
    {
        let consumption = request.generate_consumption(rng);
        Run::with_consumption(name, request, start_at, triggered, consumption)
    }

    /// Whether this run is emitted before `other`.
    pub fn precedes(&self, other: &Run) -> (r: bool)
        ensures
            r == self.before(*other),
    {
        if self.start_at != other.start_at {
            self.start_at < other.start_at
        } else if self.triggered != other.triggered {
            !self.triggered
        } else {
            self.name.comes_before(other.name)
        }
    }

    /// Where this run stands against `other` in the order of emission.
    pub fn cmp(&self, other: &Run) -> (r: Ordering)
        ensures
            match r {
                Ordering::Less => self.before(*other),
                Ordering::Equal => self.ties(*other),
                Ordering::Greater => other.before(*self),
            },
    {
        proof {
            self.lemma_order_total(*other);
        }
        if self.precedes(other) {
            Ordering::Less
        } else if other.precedes(self) {
            Ordering::Greater
        } else {
            Ordering::Equal
        }
    }
}

impl<'a> PartialEq for Run<'a> {
    /// Whether the two runs tie. Their requests and segments are not
    /// compared.
    fn eq(&self, other: &Self) -> (r: bool) {
        self.start_at == other.start_at && self.triggered == other.triggered && self.name.same_as(
            other.name,
        )
    }
}

impl<'a> vstd::std_specs::cmp::PartialEqSpecImpl for Run<'a> {
    open spec fn obeys_eq_spec() -> bool {
        true
    }

    open spec fn eq_spec(&self, other: &Self) -> bool {
        self.ties(*other)
    }
}

impl<'a> Eq for Run<'a> {

}

impl<'a> PartialOrd for Run<'a> {
    /// Where this run stands against `other` in the order of emission.
    fn partial_cmp(&self, other: &Self) -> (r: Option<Ordering>) {
        Some(self.cmp(other))
    }
}

impl<'a> vstd::std_specs::cmp::PartialOrdSpecImpl for Run<'a> {
    open spec fn obeys_partial_cmp_spec() -> bool {
        true
    }

    open spec fn partial_cmp_spec(&self, other: &Self) -> Option<Ordering> {
        if self.before(*other) {
            Some(Ordering::Less)
        } else if self.ties(*other) {
            Some(Ordering::Equal)
        } else {
            Some(Ordering::Greater)
        }
    }
}

} // verus!
