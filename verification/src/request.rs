//! Requests: what an appliance does, when it recurs, and what it sets off.

use crate::name::Name;
use crate::random::RandomSource;
use crate::range::{restrict_whole_day, BasicRange, DayHours, Range, DAY};
use crate::usage::{Usage, UsedPower};
use vstd::prelude::*;

verus! {

/// What can go wrong while runs are scheduled.
#[derive(Debug, PartialEq, Eq)]
pub enum ScheduleError {
    /// A recurrence was asked of a request that has no schedule.
    MissingSchedule,
    /// A trigger names a request that does not exist.
    UnknownTriggerTarget(Name),
    /// A point in time lies beyond what a `u64` of seconds can hold.
    NumericDegeneracy,
}

/// When a request recurs.
#[derive(Clone, Copy, Debug)]
pub struct Schedule {
    /// How long to wait after one run has ended before the next starts.
    pub interval: Range<BasicRange>,
    /// The times of day, in seconds after midnight, at which a run may start.
    pub restrict_hours: Range<DayHours>,
    /// A run that had to be moved into the restricted hours starts up to this
    /// many seconds after they open.
    pub delay_up_to: u64,
}

impl Schedule {
    /// Both ranges have been admitted by their policies.
    pub open spec fn wf(self) -> bool {
        self.interval.wf() && self.restrict_hours.wf()
    }

    /// How far a run that would start at `tentative` has to be moved to reach
    /// the opening of the restricted hours: today's if it comes too early,
    /// tomorrow's if it comes too late. `None` if it may start as it is.
    pub open spec fn adjustment(self, tentative: int) -> Option<int> {
        let part_of_day = tentative % (DAY as int);
        if part_of_day < self.restrict_hours.lo() {
            Some(self.restrict_hours.lo() - part_of_day)
        } else if part_of_day > self.restrict_hours.hi() {
            Some(self.restrict_hours.lo() + (DAY - part_of_day))
        } else {
            None
        }
    }

    /// The bound of the extra delay of a moved run: `delay_up_to`, cut down to
    /// the length of the restricted hours.
    pub open spec fn max_delay(self) -> int {
        let len = self.restrict_hours.hi() - self.restrict_hours.lo();
        if len < self.delay_up_to {
            len
        } else {
            self.delay_up_to as int
        }
    }

    /// Whether the extra delay of a moved run can come out as `extra`: below
    /// the bound, and zero where the bound is zero.
    pub open spec fn slack_holds(self, extra: int) -> bool {
        if 0 < self.max_delay() {
            0 <= extra < self.max_delay()
        } else {
            extra == 0
        }
    }

    /// The start of the run that follows one ended at `end_time`, given the
    /// `delay` drawn from the interval and the `extra` delay drawn for the
    /// case that the run has to be moved.
    pub open spec fn placed(self, end_time: int, delay: int, extra: int) -> int {
        let tentative = end_time + delay;
        match self.adjustment(tentative) {
            Some(adjust) => tentative + adjust + extra,
            None => tentative,
        }
    }

    /// Whether the run that follows one ended at `end_time` can start at
    /// `start`: some draws that the schedule admits place it there.
    pub open spec fn allows(self, end_time: int, start: int) -> bool {
        exists|delay: int, extra: int|
            self.interval.holds(delay) && self.slack_holds(extra) && start == #[trigger] self.placed(
                end_time,
                delay,
                extra,
            )
    }

    /// No run starts later than this long after the one before it has ended.
    pub open spec fn reach(self) -> int {
        self.interval.hi() + DAY + self.max_delay()
    }

    /// A schedule with the given interval that admits every time of day.
    pub fn new(interval: Range<BasicRange>) -> (r: Schedule)
        ensures
            r.interval == interval,
            r.restrict_hours.lo() == 0,
            r.restrict_hours.hi() == DAY,
            r.delay_up_to == 0,
    {
        Schedule { interval, restrict_hours: restrict_whole_day(), delay_up_to: 0 }
    }

    /// How far a run that would start at `tentative` has to be moved.
    pub fn adjust(&self, tentative: u64) -> (r: Option<u64>)
        ensures
            match r {
                Some(adjust) => self.adjustment(tentative as int) == Some(adjust as int),
                None => self.adjustment(tentative as int) is None,
            },
            r matches Some(adjust) ==> 0 < adjust <= DAY,
    {
        proof {
            use_type_invariant(&self.restrict_hours);
        }
        let part_of_day: u64 = tentative % DAY;
        if part_of_day < self.restrict_hours.from() {
            Some(self.restrict_hours.from() - part_of_day)
        } else if part_of_day > self.restrict_hours.to() {
            Some(self.restrict_hours.from() + (DAY - part_of_day))
        } else {
            None
        }
    }

    /// The bound of the extra delay of a moved run.
    pub fn extra_bound(&self) -> (r: u64)
        ensures
            r == self.max_delay(),
            r <= DAY,
    {
        proof {
            use_type_invariant(&self.restrict_hours);
        }
        let len: u64 = self.restrict_hours.to() - self.restrict_hours.from();
        if len < self.delay_up_to {
            len
        } else {
            self.delay_up_to
        }
    }

    /// Places the run that follows one ended at `end_time`, given the draws
    /// `delay` and `extra`.
    pub fn place(&self, end_time: u64, delay: u64, extra: u64) -> (r: Result<u64, ScheduleError>)
        ensures
            match r {
                Ok(start) => start == self.placed(end_time as int, delay as int, extra as int),
                Err(e) => e is NumericDegeneracy && self.placed(
                    end_time as int,
                    delay as int,
                    extra as int,
                ) > u64::MAX,
            },
    {
        let tentative: u64 = match end_time.checked_add(delay) {
            Some(t) => t,
            None => {
                proof {
                    self.lemma_never_early(end_time as int, delay as int, extra as int);
                }
                return Err(ScheduleError::NumericDegeneracy);
            },
        };
        match self.adjust(tentative) {
            None => Ok(tentative),
            Some(adjust) => {
                let moved: u64 = match tentative.checked_add(adjust) {
                    Some(t) => t,
                    None => {
                        return Err(ScheduleError::NumericDegeneracy);
                    },
                };
                match moved.checked_add(extra) {
                    Some(start) => Ok(start),
                    None => Err(ScheduleError::NumericDegeneracy),
                }
            },
        }
    }

    /// Draws the extra delay of a moved run: a number below the bound, drawn
    /// from `rng`. Where the bound is zero there is nothing to draw from: the
    /// extra delay is zero, and `rng` is left alone.
    pub fn pick_extra<R: RandomSource>(&self, rng: &mut R) -> (extra: u64)
        ensures
            self.slack_holds(extra as int),
            if 0 < self.max_delay() {
                old(rng).draws(0, self.max_delay() as u64, extra, *final(rng))
            } else {
                *final(rng) == *old(rng)
            },
    {
        let bound: u64 = self.extra_bound();
        if 0 < bound {
            rng.uniform(0, bound)
        } else {
            0
        }
    }

    /// A placed run starts no earlier than the delay after the end of the one
    /// before, whatever the extra delay.
    pub proof fn lemma_never_early(self, end_time: int, delay: int, extra: int)
        requires
            0 <= extra,
        ensures
            end_time + delay <= self.placed(end_time, delay, extra),
    {
        self.restrict_hours.lemma_bounds();
    }

    /// No run starts before the one that it follows has ended.
    pub proof fn lemma_allowed_start(self, end_time: int, start: int)
        requires
            self.allows(end_time, start),
        ensures
            end_time <= start,
    {
        let (delay, extra) = choose|delay: int, extra: int|
            self.interval.holds(delay) && self.slack_holds(extra) && start
                == #[trigger] self.placed(end_time, delay, extra);
        self.interval.lemma_bounds();
        self.lemma_never_early(end_time, delay, extra);
    }

    /// No run is placed later than `reach` after the end of the one before.
    pub proof fn lemma_within_reach(self, end_time: int, delay: int, extra: int)
        requires
            self.wf(),
            self.interval.holds(delay),
            self.slack_holds(extra),
        ensures
            self.placed(end_time, delay, extra) <= end_time + self.reach(),
    {
        self.restrict_hours.lemma_ordered();
        self.interval.lemma_ordered();
    }

    /// Between the end of a run and the start of the next lies at least the
    /// lower bound of the interval; where the tentative start did not have to
    /// be moved, the gap is a value of the interval. Either way the next run
    /// starts at a time of day inside the restricted hours, provided they do
    /// not open at the very end of the day.
    pub proof fn lemma_recurrence(self, end_time: int, delay: int, extra: int)
        requires
            self.wf(),
            self.restrict_hours.lo() < DAY,
            self.interval.holds(delay),
            self.slack_holds(extra),
        ensures
            ({
                let start = self.placed(end_time, delay, extra);
                &&& self.interval.lo() <= start - end_time
                &&& self.adjustment(end_time + delay) is None ==> self.interval.holds(
                    start - end_time,
                )
                &&& self.restrict_hours.lo() <= start % (DAY as int) <= self.restrict_hours.hi()
            }),
    {
        self.restrict_hours.lemma_ordered();
        self.interval.lemma_ordered();
        let tentative = end_time + delay;
        let part_of_day = tentative % (DAY as int);
        let opening = self.restrict_hours.lo();
        if self.adjustment(tentative) is Some {
            let start = self.placed(end_time, delay, extra);
            let midnight = if part_of_day < opening {
                tentative - part_of_day
            } else {
                tentative - part_of_day + DAY
            };
            assert(midnight % (DAY as int) == 0);
            assert(start == midnight + opening + extra);
            assert(0 <= opening + extra < DAY);
            assert(start % (DAY as int) == opening + extra);
        }
    }
}

/// A link from one request to another: when a run of the owner ends, a run of
/// `other` starts.
#[derive(Debug)]
pub struct Trigger {
    pub other: Name,
}

/// How long, and how often, a request may be put off. Nothing in the
/// scheduling reads it.
#[derive(Clone, Copy, Debug)]
pub struct Delay {
    pub max_hours: usize,
    pub max_instances: usize,
}

/// One appliance: when it recurs, what it draws and what it sets off.
#[derive(Debug)]
pub struct Request {
    /// A request without a schedule runs only when another one triggers it.
    pub schedule: Option<Schedule>,
    /// The segments of one run, in the order in which they follow each other.
    pub usage: Vec<Usage>,
    pub trigger: Vec<Trigger>,
    pub delay: Option<Delay>,
}

/// The seconds that the segments `consumption` take, one after the other.
pub open spec fn total_duration(consumption: Seq<UsedPower>) -> int
    decreases consumption.len(),
{
    if consumption.len() == 0 {
        0
    } else {
        total_duration(consumption.drop_last()) + consumption.last().duration
    }
}

/// The seconds that a run of the segments `usage` takes at most.
pub open spec fn longest_duration(usage: Seq<Usage>) -> int
    decreases usage.len(),
{
    if usage.len() == 0 {
        0
    } else {
        longest_duration(usage.drop_last()) + usage.last().duration.hi()
    }
}

/// No run takes less than no time.
pub proof fn lemma_longest_duration_not_negative(usage: Seq<Usage>)
    ensures
        0 <= longest_duration(usage),
    decreases usage.len(),
{
    if usage.len() > 0 {
        lemma_longest_duration_not_negative(usage.drop_last());
        usage.last().duration.lemma_bounds();
    }
}

/// A run takes as long as any part of it, or longer.
pub proof fn lemma_total_duration_grows(consumption: Seq<UsedPower>, n: int)
    requires
        0 <= n <= consumption.len(),
    ensures
        0 <= total_duration(consumption.take(n)) <= total_duration(consumption),
    decreases consumption.len(),
{
    if n == consumption.len() {
        assert(consumption.take(n) =~= consumption);
        if n > 0 {
            lemma_total_duration_grows(consumption.drop_last(), n - 1);
            assert(consumption.drop_last().take(n - 1) =~= consumption.drop_last());
        }
    } else {
        lemma_total_duration_grows(consumption.drop_last(), n);
        assert(consumption.drop_last().take(n) =~= consumption.take(n));
    }
}

impl Request {
    /// The seconds that one run takes at most.
    pub open spec fn longest(self) -> int {
        longest_duration(self.usage@)
    }

    /// Whether `consumption` is a sample of the usage of this request, segment
    /// by segment.
    pub open spec fn yields(self, consumption: Seq<UsedPower>) -> bool {
        &&& consumption.len() == self.usage@.len()
        &&& forall|i: int|
            0 <= i < consumption.len() ==> (#[trigger] self.usage@[i]).yields(consumption[i])
    }

    /// Draws the start of the run that follows one ended at `end_time`; the
    /// first run of all follows time zero.
    ///
    /// The start is placed by [`Schedule::place`], from a delay drawn from the
    /// interval and, where the run has to be moved, an extra delay.
    pub fn next_after<R: RandomSource>(&self, end_time: u64, rng: &mut R) -> (r: Result<
        u64,
        ScheduleError,
    >)
        ensures
            match r {
                Ok(start) => self.schedule matches Some(schedule) && schedule.allows(
                    end_time as int,
                    start as int,
                ) && end_time + schedule.interval.lo() <= start <= end_time + schedule.reach(),
                Err(ScheduleError::MissingSchedule) => self.schedule is None,
                Err(ScheduleError::NumericDegeneracy) => self.schedule matches Some(schedule)
                    && end_time + schedule.reach() > u64::MAX,
                Err(ScheduleError::UnknownTriggerTarget(_)) => false,
            },
    {
        let schedule = match &self.schedule {
            Some(schedule) => schedule,
            None => {
                return Err(ScheduleError::MissingSchedule);
            },
        };
        proof {
            use_type_invariant(&schedule.interval);
            use_type_invariant(&schedule.restrict_hours);
        }
        let delay: u64 = schedule.interval.pick(rng);
        let moved: bool = match end_time.checked_add(delay) {
            Some(tentative) => schedule.adjust(tentative).is_some(),
            None => false,
        };
        let extra: u64 = if moved {
            schedule.pick_extra(rng)
        } else {
            0
        };
        proof {
            schedule.lemma_within_reach(end_time as int, delay as int, extra as int);
            schedule.lemma_never_early(end_time as int, delay as int, extra as int);
        }
        schedule.place(end_time, delay, extra)
    }

    /// Samples every segment of the usage, in order.
    pub fn generate_consumption<R: RandomSource>(&self, rng: &mut R) -> (consumption: Vec<
        UsedPower,
    >)
        ensures
            self.yields(consumption@),
            total_duration(consumption@) <= self.longest(),
    {
        let mut consumption: Vec<UsedPower> = Vec::new();
        let mut i: usize = 0;
        assert(self.usage@.take(0) =~= Seq::<Usage>::empty());
        while i < self.usage.len()
            invariant
                i <= self.usage.len(),
                consumption.len() == i,
                forall|j: int| 0 <= j < i ==> (#[trigger] self.usage@[j]).yields(consumption@[j]),
                total_duration(consumption@) <= longest_duration(self.usage@.take(i as int)),
            decreases self.usage.len() - i,
        {
            let used = self.usage[i].pick(rng);
            proof {
                assert(consumption@.push(used).drop_last() =~= consumption@);
                assert(self.usage@.take(i + 1).drop_last() =~= self.usage@.take(i as int));
            }
            consumption.push(used);
            i += 1;
        }
        assert(self.usage@.take(i as int) =~= self.usage@);
        consumption
    }
}

} // verus!
