//! The stream of runs: the earliest pending run is emitted, and what follows
//! from it is scheduled.

use crate::name::Name;
use crate::queue::RunQueue;
use crate::random::RandomSource;
use crate::range::DAY;
use crate::request::{
    lemma_longest_duration_not_negative, lemma_total_duration_grows, total_duration,
    ScheduleError,
};
use crate::requests::Requests;
use crate::run::Run;
use vstd::multiset::Multiset;
use vstd::prelude::*;
use vstd::seq_lib::to_multiset_build;

verus! {

/// Whether `next` can be the recurrence of `run`: the same request again,
/// not triggered, at a start that the schedule allows after the end of `run`.
pub open spec fn recurs(run: Run, next: Run) -> bool {
    &&& next.name == run.name
    &&& next.request == run.request
    &&& !next.triggered
    &&& next.wf()
    &&& run.request.schedule matches Some(schedule) && schedule.allows(
        run.end_at as int,
        next.start_at as int,
    )
}

/// Whether `next` can be the run that the `i`-th trigger of `run` sets off: a
/// run of the request that the trigger names, started when `run` ends.
pub open spec fn sets_off(requests: Requests, run: Run, i: int, next: Run) -> bool {
    &&& *next.name == run.request.trigger@[i].other
    &&& requests@.contains_key(next.name@)
    &&& *next.request == requests@[next.name@]
    &&& next.triggered
    &&& next.start_at == run.end_at
    &&& next.wf()
}

/// Whether `born` can be what the emission of `run` schedules: the recurrence
/// of `run` first, unless `run` was triggered itself, then one run for each of
/// its triggers, in their order.
pub open spec fn spawns(requests: Requests, run: Run, born: Seq<Run>) -> bool {
    let own: int = if run.triggered {
        0
    } else {
        1
    };
    &&& born.len() == own + run.request.trigger@.len()
    &&& !run.triggered ==> recurs(run, born[0])
    &&& forall|k: int| own <= k < born.len() ==> sets_off(requests, run, k - own, #[trigger] born[k])
}

/// Whether the time after the end of `run` has room for every run that its
/// emission schedules, however the draws come out.
pub open spec fn roomy(requests: Requests, run: Run) -> bool {
    &&& !run.triggered ==> (run.request.schedule matches Some(schedule) ==> run.end_at
        + schedule.reach() + run.request.longest() <= u64::MAX)
    &&& forall|i: int|
        0 <= i < run.request.trigger@.len() && requests@.contains_key(
            (#[trigger] run.request.trigger@[i]).other@,
        ) ==> run.end_at + requests@[run.request.trigger@[i].other@].longest() <= u64::MAX
}

/// The stream of the runs of a set of requests, in the order of their starts.
///
/// The stream does not end while a request with a schedule is pending: whoever
/// reads it decides where to stop.
#[derive(Debug)]
pub struct Iter<'a> {
    requests: &'a Requests,
    scheduled: RunQueue<'a>,
}

impl<'a> Iter<'a> {
    /// The requests that the runs are taken from.
    pub closed spec fn requests(self) -> Requests {
        *self.requests
    }

    /// The runs that are scheduled and not yet emitted.
    pub closed spec fn pending(self) -> Multiset<Run<'a>> {
        self.scheduled@
    }

    /// The run that is emitted next, if any is pending.
    pub closed spec fn upcoming(self) -> Option<Run<'a>> {
        self.scheduled.upcoming()
    }

    /// The queue keeps its order.
    pub closed spec fn ordered(self) -> bool {
        self.scheduled.wf()
    }

    /// Whether `run` is one that this stream can hold: it ends when its
    /// segments are over, it stands for the request under its name, and it
    /// recurs by itself only if that request has a schedule.
    pub open spec fn admits(self, run: Run<'a>) -> bool {
        &&& run.wf()
        &&& self.requests()@.contains_key(run.name@)
        &&& self.requests()@[run.name@] == *run.request
        &&& !run.triggered ==> run.request.schedule is Some
    }

    /// Every pending run is one that the stream can hold.
    pub open spec fn wf(self) -> bool {
        &&& self.ordered()
        &&& forall|run: Run<'a>| self.pending().count(run) > 0 ==> self.admits(run)
    }

    /// Whether this stream can emit `run` and be left as `post`: `run` is the
    /// upcoming run, and `post` holds the other pending runs and what the
    /// emission of `run` schedules.
    pub open spec fn emits(self, run: Run<'a>, post: Iter<'a>) -> bool {
        &&& self.upcoming() == Some(run)
        &&& post.requests() == self.requests()
        &&& exists|born: Seq<Run<'a>>| #[trigger]
            spawns(self.requests(), run, born) && post.pending() == self.pending().remove(run).add(
                born.to_multiset(),
            )
    }

    /// Whether the stream cannot go on, and `error` says why: the upcoming
    /// run has a trigger that names no request, or the time after it has no
    /// room for what its emission schedules.
    pub open spec fn stuck(self, error: ScheduleError) -> bool {
        &&& self.upcoming() matches Some(run)
        &&& match error {
            ScheduleError::UnknownTriggerTarget(missing) => exists|i: int|
                0 <= i < run.request.trigger@.len() && (#[trigger] run.request.trigger@[i]).other
                    == missing && !self.requests()@.contains_key(missing@),
            ScheduleError::NumericDegeneracy => !roomy(self.requests(), run),
            ScheduleError::MissingSchedule => false,
        }
    }

    /// Whether this stream can emit `runs`, one after the other, and be left
    /// as `post`.
    pub open spec fn leads(self, runs: Seq<Run<'a>>, post: Iter<'a>) -> bool
        decreases runs.len(),
    {
        if runs.len() == 0 {
            post == self
        } else {
            exists|mid: Iter<'a>|
                mid.wf() && self.leads(runs.drop_last(), mid) && #[trigger] mid.emits(
                    runs.last(),
                    post,
                )
        }
    }

    /// The upcoming run is a pending one, and no pending run is emitted
    /// before it. Only a stream without pending runs has none upcoming.
    pub proof fn lemma_upcoming(self)
        requires
            self.wf(),
        ensures
            match self.upcoming() {
                Some(run) => self.pending().count(run) > 0 && self.admits(run) && forall|
                    other: Run<'a>,
                |
                    self.pending().count(other) > 0 ==> run.not_after(other),
                None => self.pending() == Multiset::<Run<'a>>::empty(),
            },
    {
        self.scheduled.lemma_upcoming();
    }

    /// A stream of `requests` with the runs of `scheduled` pending.
    pub fn with_pending(requests: &'a Requests, scheduled: RunQueue<'a>) -> (r: Iter<'a>)
        ensures
            r.requests() == *requests,
            r.pending() == scheduled@,
            r.upcoming() == scheduled.upcoming(),
            r.ordered() == scheduled.wf(),
    {
        Iter { requests, scheduled }
    }

    /// The run that is emitted next, if any is pending.
    pub fn peek(&self) -> (r: Option<&Run<'a>>)
        ensures
            match r {
                Some(run) => self.upcoming() == Some(*run),
                None => self.upcoming() is None,
            },
    {
        self.scheduled.peek()
    }

    /// Samples what the emission of `run` schedules: its recurrence, unless
    /// it was triggered itself, and a run of every request that it triggers.
    pub fn successors<R: RandomSource>(&self, run: &Run<'a>, rng: &mut R) -> (r: Result<
        Vec<Run<'a>>,
        ScheduleError,
    >)
        requires
            self.admits(*run),
        ensures
            match r {
                Ok(born) => spawns(self.requests(), *run, born@) && forall|k: int|
                    0 <= k < born@.len() ==> self.admits(#[trigger] born@[k]),
                Err(ScheduleError::UnknownTriggerTarget(missing)) => exists|i: int|
                    0 <= i < run.request.trigger@.len() && (#[trigger] run.request.trigger@[i]).other
                        == missing && !self.requests()@.contains_key(missing@),
                Err(ScheduleError::NumericDegeneracy) => !roomy(self.requests(), *run),
                Err(ScheduleError::MissingSchedule) => false,
            },
    {
        let requests: &'a Requests = self.requests;
        let request = run.request;
        let end_at: u64 = run.end_at;
        let mut born: Vec<Run<'a>> = Vec::new();
        if !run.triggered {
            proof {
                lemma_longest_duration_not_negative(request.usage@);
            }
            let start: u64 = match request.next_after(end_at, rng) {
                Ok(start) => start,
                Err(e) => {
                    return Err(e);
                },
            };
            let next = match Run::new(run.name, request, start, false, rng) {
                Ok(next) => next,
                Err(e) => {
                    return Err(e);
                },
            };
            born.push(next);
        }
        let ghost own: int = born@.len() as int;
        let mut i: usize = 0;
        while i < request.trigger.len()
            invariant
                i <= request.trigger@.len(),
                requests == self.requests,
                request == run.request,
                end_at == run.end_at,
                own == (if run.triggered {
                    0int
                } else {
                    1int
                }),
                born@.len() == own + i,
                !run.triggered ==> recurs(*run, born@[0]),
                forall|k: int|
                    own <= k < born@.len() ==> sets_off(
                        self.requests(),
                        *run,
                        k - own,
                        #[trigger] born@[k],
                    ),
                forall|k: int| 0 <= k < born@.len() ==> self.admits(#[trigger] born@[k]),
            decreases request.trigger@.len() - i,
        {
            let other: &'a Name = &request.trigger[i].other;
            assert(request.trigger@[i as int].other == *other);
            let target = match requests.lookup(other) {
                Ok(target) => target,
                Err(e) => {
                    return Err(e);
                },
            };
            let next = match Run::new(other, target, end_at, true, rng) {
                Ok(next) => next,
                Err(e) => {
                    return Err(e);
                },
            };
            proof {
                let ghost before = born@;
                assert(sets_off(self.requests(), *run, i as int, next));
                assert forall|k: int| own <= k < before.len() + 1 implies sets_off(
                    self.requests(),
                    *run,
                    k - own,
                    #[trigger] before.push(next)[k],
                ) by {
                    if k < before.len() {
                        assert(before.push(next)[k] == before[k]);
                    }
                }
                assert forall|k: int| 0 <= k < before.len() + 1 implies self.admits(
                    #[trigger] before.push(next)[k],
                ) by {
                    if k < before.len() {
                        assert(before.push(next)[k] == before[k]);
                    }
                }
            }
            born.push(next);
            i += 1;
        }
        Ok(born)
    }

    /// Emits the upcoming run and schedules what follows from it. `None` if no
    /// run is pending.
    ///
    /// A trigger that names no request, or a point in time beyond the last
    /// second that can be counted, stops the stream: the error is handed back,
    /// the pending runs stay as they are, and a further call meets the same
    /// run again.
    pub fn next<R: RandomSource>(&mut self, rng: &mut R) -> (r: Result<
        Option<Run<'a>>,
        ScheduleError,
    >)
        requires
            old(self).wf(),
        ensures
            final(self).wf(),
            final(self).requests() == old(self).requests(),
            match r {
                Ok(Some(run)) => {
                    &&& old(self).emits(run, *final(self))
                    &&& old(self).admits(run)
                    &&& old(self).pending().count(run) > 0
                    &&& forall|other: Run<'a>| #[trigger]
                        old(self).pending().count(other) > 0 ==> run.not_after(other)
                },
                Ok(None) => old(self).upcoming() is None && *final(self) == *old(self),
                Err(e) => *final(self) == *old(self) && old(self).stuck(e),
            },
    {
        let ghost pre = *self;
        proof {
            pre.lemma_upcoming();
        }
        let mut born = match self.scheduled.peek() {
            None => {
                return Ok(None);
            },
            Some(run) => match self.successors(run, rng) {
                Ok(born) => born,
                Err(e) => {
                    return Err(e);
                },
            },
        };
        let run = match self.scheduled.pop() {
            Some(run) => run,
            None => {
                return Ok(None);
            },
        };
        let ghost all = born@;
        let ghost rest = pre.pending().remove(run);
        while born.len() > 0
            invariant
                self.requests == pre.requests,
                self.scheduled.wf(),
                self.scheduled@.add(born@.to_multiset()) == rest.add(all.to_multiset()),
                forall|other: Run<'a>| #[trigger]
                    self.scheduled@.count(other) > 0 ==> pre.admits(other),
                forall|k: int| 0 <= k < born@.len() ==> pre.admits(#[trigger] born@[k]),
            decreases born@.len(),
        {
            let ghost before = born@;
            let ghost queued = self.scheduled@;
            let next = born.pop().unwrap();
            self.scheduled.push(next);
            proof {
                assert(before == before.drop_last().push(next));
                to_multiset_build(before.drop_last(), next);
                assert(queued.insert(next).add(before.drop_last().to_multiset()) =~= queued.add(
                    before.to_multiset(),
                ));
                assert(pre.admits(before[before.len() - 1]));
            }
        }
        proof {
            assert(born@.to_multiset() =~= Multiset::<Run<'a>>::empty()) by {
                broadcast use vstd::seq_lib::group_to_multiset_ensures;

            }
            assert(self.scheduled@ =~= rest.add(all.to_multiset()));
            assert(spawns(pre.requests(), run, all));
        }
        Ok(Some(run))
    }
}

impl<'a> Iter<'a> {
    /// Whether `run` can be the first run of its request: not triggered, and
    /// started where the schedule allows after time zero.
    pub open spec fn first(self, run: Run<'a>) -> bool {
        &&& self.admits(run)
        &&& !run.triggered
        &&& run.request.schedule matches Some(schedule) && schedule.allows(
            0,
            run.start_at as int,
        )
    }

    /// Whether the stream is at its very start: for each request with a
    /// schedule its first run is pending, and nothing else.
    pub open spec fn seeded(self) -> bool {
        &&& forall|run: Run<'a>| #[trigger]
            self.pending().count(run) > 0 ==> self.first(run) && self.pending().count(run) == 1
        &&& forall|a: Run<'a>, b: Run<'a>|
            #[trigger] self.pending().count(a) > 0 && #[trigger] self.pending().count(b) > 0
                && a.name@ == b.name@ ==> a == b
        &&& forall|name: Seq<u8>| #[trigger]
            self.requests()@.contains_key(name) && self.requests()@[name].schedule is Some
                ==> exists|run: Run<'a>| #[trigger]
                self.pending().count(run) > 0 && run.name@ == name
    }
}

impl Requests {
    /// Whether the time from zero on has room for the first run of every
    /// request, however the draws come out.
    pub open spec fn roomy(self) -> bool {
        forall|name: Seq<u8>| #[trigger]
            self@.contains_key(name) ==> (self@[name].schedule matches Some(schedule)
                ==> schedule.reach() + self@[name].longest() <= u64::MAX)
    }

    /// Starts the stream of runs at time zero: the first run of every request
    /// that has a schedule is drawn and made pending.
    pub fn into_iter<'a, R: RandomSource>(&'a self, rng: &mut R) -> (r: Result<
        Iter<'a>,
        ScheduleError,
    >)
        ensures
            match r {
                Ok(iter) => iter.wf() && iter.requests() == *self && iter.seeded(),
                Err(e) => e is NumericDegeneracy && !self.roomy(),
            },
    {
        proof {
            use_type_invariant(self);
            self.lemma_walk();
        }
        let mut scheduled: RunQueue<'a> = RunQueue::new();
        let ghost shell = Iter { requests: self, scheduled };
        let mut i: usize = 0;
        while i < self.len()
            invariant
                i <= self.count(),
                self.wf(),
                scheduled.wf(),
                shell.requests() == *self,
                forall|run: Run<'a>| #[trigger]
                    scheduled@.count(run) > 0 ==> shell.first(run) && scheduled@.count(run) == 1
                        && exists|j: int| 0 <= j < i && #[trigger] self.name_at(j) == *run.name,
                forall|a: Run<'a>, b: Run<'a>|
                    #[trigger] scheduled@.count(a) > 0 && #[trigger] scheduled@.count(b) > 0
                        && a.name@ == b.name@ ==> a == b,
                forall|j: int|
                    0 <= j < i && (#[trigger] self.request_at(j)).schedule is Some ==> exists|
                        run: Run<'a>,
                    | #[trigger]
                        scheduled@.count(run) > 0 && *run.name == self.name_at(j),
            decreases self.count() - i,
        {
            let (name, request) = self.entry(i);
            if request.schedule.is_some() {
                proof {
                    self.lemma_walk();
                    lemma_longest_duration_not_negative(request.usage@);
                }
                let when: u64 = match request.next_after(0, rng) {
                    Ok(when) => when,
                    Err(e) => {
                        assert(self@.contains_key(name@));
                        return Err(e);
                    },
                };
                let run = match Run::new(name, request, when, false, rng) {
                    Ok(run) => run,
                    Err(e) => {
                        assert(self@.contains_key(name@));
                        return Err(e);
                    },
                };
                let ghost before = scheduled@;
                proof {
                    assert(shell.first(run));
                    assert(before.count(run) == 0) by {
                        if before.count(run) > 0 {
                            let j = choose|j: int|
                                0 <= j < i && #[trigger] self.name_at(j) == *run.name;
                            assert(self.name_at(j)@ != self.name_at(i as int)@);
                        }
                    }
                    assert forall|other: Run<'a>| #[trigger]
                        before.count(other) > 0 implies other.name@ != run.name@ by {
                        let j = choose|j: int|
                            0 <= j < i && #[trigger] self.name_at(j) == *other.name;
                        assert(self.name_at(j)@ != self.name_at(i as int)@);
                    }
                }
                scheduled.push(run);
                proof {
                    assert forall|other: Run<'a>| #[trigger]
                        scheduled@.count(other) > 0 implies shell.first(other) && scheduled@.count(
                        other,
                    ) == 1 && exists|j: int|
                        0 <= j < i + 1 && #[trigger] self.name_at(j) == *other.name by {
                        if other == run {
                            assert(self.name_at(i as int) == *other.name);
                        } else {
                            assert(before.count(other) > 0);
                            let j = choose|j: int|
                                0 <= j < i && #[trigger] self.name_at(j) == *other.name;
                            assert(0 <= j < i + 1 && self.name_at(j) == *other.name);
                        }
                    }
                    assert forall|j: int|
                        0 <= j < i + 1 && (#[trigger] self.request_at(
                            j,
                        )).schedule is Some implies exists|other: Run<'a>| #[trigger]
                        scheduled@.count(other) > 0 && *other.name == self.name_at(j) by {
                        if j < i {
                            let other = choose|other: Run<'a>| #[trigger]
                                before.count(other) > 0 && *other.name == self.name_at(j);
                            assert(scheduled@.count(other) > 0 && *other.name == self.name_at(j));
                        } else {
                            assert(scheduled@.count(run) > 0 && *run.name == self.name_at(j));
                        }
                    }
                }
            }
            i += 1;
        }
        let iter = Iter { requests: self, scheduled };
        proof {
            self.lemma_walk();
            assert forall|name: Seq<u8>| #[trigger]
                iter.requests()@.contains_key(name) && iter.requests()@[name].schedule
                    is Some implies exists|run: Run<'a>| #[trigger]
                iter.pending().count(run) > 0 && run.name@ == name by {
                let j = choose|j: int| 0 <= j < self.count() && (#[trigger] self.name_at(j))@ == name;
                assert(self.request_at(j).schedule is Some);
                let run = choose|run: Run<'a>| #[trigger]
                    scheduled@.count(run) > 0 && *run.name == self.name_at(j);
                assert(iter.pending().count(run) > 0 && run.name@ == name);
            }
            assert forall|run: Run<'a>| #[trigger] iter.pending().count(run) > 0 implies iter.first(
                run,
            ) && iter.pending().count(run) == 1 by {
                assert(shell.first(run));
            }
        }
        Ok(iter)
    }
}

/// The runs of the list start one no earlier than the one before.
pub open spec fn starts_in_order(runs: Seq<Run>) -> bool {
    forall|i: int, j: int| 0 <= i <= j < runs.len() ==> runs[i].start_at <= runs[j].start_at
}

impl<'a> Iter<'a> {
    /// Every run that is pending after an emission was pending before it or
    /// is one of those that the emission has scheduled.
    proof fn lemma_pending_after(self, run: Run<'a>, post: Iter<'a>, born: Seq<Run<'a>>)
        requires
            post.pending() == self.pending().remove(run).add(born.to_multiset()),
        ensures
            forall|other: Run<'a>| #[trigger]
                post.pending().count(other) > 0 ==> self.pending().count(other) > 0
                    || born.contains(other),
            forall|k: int| 0 <= k < born.len() ==> post.pending().count(#[trigger] born[k]) > 0,
    {
        broadcast use vstd::seq_lib::group_to_multiset_ensures;

        assert forall|k: int| 0 <= k < born.len() implies post.pending().count(#[trigger] born[k])
            > 0 by {
            assert(born.contains(born[k]));
        }
    }

    /// An emitted run ends when its segments, taken one after the other from
    /// its start, are over; so it does not end before it starts.
    pub proof fn lemma_emitted_run_spans_its_segments(self, run: Run<'a>, post: Iter<'a>)
        requires
            self.wf(),
            self.emits(run, post),
        ensures
            run.end_at == run.start_at + total_duration(run.consumption@),
            run.start_at <= run.end_at,
    {
        self.lemma_upcoming();
        lemma_total_duration_grows(run.consumption@, 0);
    }

    /// A run that was not triggered is a run of a request with a schedule: a
    /// request without one is emitted only as a triggered run.
    pub proof fn lemma_unscheduled_runs_are_triggered(self, run: Run<'a>, post: Iter<'a>)
        requires
            self.wf(),
            self.emits(run, post),
        ensures
            self.requests()@.contains_key(run.name@),
            self.requests()@[run.name@].schedule is None ==> run.triggered,
    {
        self.lemma_upcoming();
    }

    /// After the emission of a run, each of its triggers has a run pending:
    /// one of the request that the trigger names, marked as triggered, that
    /// starts exactly when the emitted run ends.
    pub proof fn lemma_trigger_fires(self, run: Run<'a>, post: Iter<'a>, i: int)
        requires
            self.emits(run, post),
            0 <= i < run.request.trigger@.len(),
        ensures
            exists|next: Run<'a>|
                #[trigger] post.pending().count(next) > 0 && next.triggered && next.start_at
                    == run.end_at && *next.name == run.request.trigger@[i].other,
    {
        let born = choose|born: Seq<Run<'a>>| #[trigger]
            spawns(self.requests(), run, born) && post.pending() == self.pending().remove(run).add(
                born.to_multiset(),
            );
        let own: int = if run.triggered {
            0
        } else {
            1
        };
        self.lemma_pending_after(run, post, born);
        let next = born[own + i];
        assert(sets_off(self.requests(), run, own + i - own, next));
        assert(post.pending().count(next) > 0);
    }

    /// After the emission of a run that was not triggered, its recurrence is
    /// pending: a run of the same request, not triggered either, at a start
    /// that the schedule allows after the end of the emitted run.
    pub proof fn lemma_recurrence_is_pending(self, run: Run<'a>, post: Iter<'a>)
        requires
            self.emits(run, post),
            !run.triggered,
        ensures
            exists|next: Run<'a>| #[trigger] post.pending().count(next) > 0 && recurs(run, next),
    {
        let born = choose|born: Seq<Run<'a>>| #[trigger]
            spawns(self.requests(), run, born) && post.pending() == self.pending().remove(run).add(
                born.to_multiset(),
            );
        self.lemma_pending_after(run, post, born);
        assert(post.pending().count(born[0]) > 0);
    }

    /// An emission leaves the pending runs such as the stream can hold.
    pub proof fn lemma_emission_keeps_runs_admitted(self, run: Run<'a>, post: Iter<'a>)
        requires
            self.wf(),
            self.emits(run, post),
        ensures
            forall|other: Run<'a>| #[trigger]
                post.pending().count(other) > 0 ==> post.admits(other) && run.start_at
                    <= other.start_at,
    {
        let born = choose|born: Seq<Run<'a>>| #[trigger]
            spawns(self.requests(), run, born) && post.pending() == self.pending().remove(run).add(
                born.to_multiset(),
            );
        let own: int = if run.triggered {
            0
        } else {
            1
        };
        self.lemma_upcoming();
        self.lemma_pending_after(run, post, born);
        lemma_total_duration_grows(run.consumption@, 0);
        assert forall|other: Run<'a>| #[trigger] post.pending().count(other) > 0 implies post.admits(
            other,
        ) && run.start_at <= other.start_at by {
            if self.pending().count(other) > 0 {
                assert(run.not_after(other));
                assert(self.admits(other));
            } else {
                assert(born.contains(other));
                let k = choose|k: int| 0 <= k < born.len() && born[k] == other;
                if k < own {
                    assert(recurs(run, other));
                    run.request.schedule.unwrap().lemma_allowed_start(
                        run.end_at as int,
                        other.start_at as int,
                    );
                } else {
                    assert(sets_off(self.requests(), run, k - own, born[k]));
                }
            }
        }
    }

    /// Of two runs that are emitted one right after the other, the second
    /// starts no earlier than the first.
    pub proof fn lemma_starts_never_decrease(
        self,
        first: Run<'a>,
        mid: Iter<'a>,
        second: Run<'a>,
        post: Iter<'a>,
    )
        requires
            self.wf(),
            mid.wf(),
            self.emits(first, mid),
            mid.emits(second, post),
        ensures
            first.start_at <= second.start_at,
    {
        self.lemma_emission_keeps_runs_admitted(first, mid);
        mid.lemma_upcoming();
    }

    /// However many runs a stream emits, they come in the order of their
    /// starts, and none of those left pending starts before the last of them.
    pub proof fn lemma_emitted_in_order(self, runs: Seq<Run<'a>>, post: Iter<'a>)
        requires
            self.wf(),
            self.leads(runs, post),
        ensures
            starts_in_order(runs),
            runs.len() > 0 ==> forall|other: Run<'a>| #[trigger]
                post.pending().count(other) > 0 ==> runs.last().start_at <= other.start_at,
        decreases runs.len(),
    {
        if runs.len() > 0 {
            let mid = choose|mid: Iter<'a>|
                mid.wf() && self.leads(runs.drop_last(), mid) && #[trigger] mid.emits(
                    runs.last(),
                    post,
                );
            self.lemma_emitted_in_order(runs.drop_last(), mid);
            mid.lemma_emission_keeps_runs_admitted(runs.last(), post);
            mid.lemma_upcoming();
            assert forall|i: int, j: int| 0 <= i <= j < runs.len() implies runs[i].start_at
                <= runs[j].start_at by {
                let n = runs.len() - 1;
                if j < n {
                    assert(runs.drop_last()[i].start_at <= runs.drop_last()[j].start_at);
                } else if i < n {
                    assert(runs.drop_last()[i].start_at <= runs.drop_last()[n - 1].start_at);
                    assert(runs.drop_last().last() == runs[n - 1]);
                    assert(mid.pending().count(runs[n]) > 0);
                }
            }
        }
    }
}

/// Why the reading of a stretch of the stream ended.
#[derive(Debug)]
pub enum End {
    /// The upcoming run starts after the stretch.
    Passed,
    /// No run is pending.
    Drained,
    /// As many runs were emitted as the reader allowed, and the upcoming one
    /// would still start within the stretch.
    Limit,
    /// The stream cannot go on.
    Failed(ScheduleError),
}

impl<'a> Iter<'a> {
    /// One more emission prolongs what a stream has emitted.
    proof fn lemma_leads_on(
        self,
        runs: Seq<Run<'a>>,
        mid: Iter<'a>,
        run: Run<'a>,
        post: Iter<'a>,
    )
        requires
            self.leads(runs, mid),
            mid.wf(),
            mid.emits(run, post),
        ensures
            self.leads(runs.push(run), post),
    {
        let longer = runs.push(run);
        assert(longer.drop_last() =~= runs);
        assert(mid.wf() && self.leads(longer.drop_last(), mid) && mid.emits(longer.last(), post));
    }

    /// Emits up to `n` runs. Fewer come only where the stream has no pending
    /// run left or cannot go on; what stopped it is then handed back with the
    /// runs that came before.
    pub fn take<R: RandomSource>(&mut self, n: usize, rng: &mut R) -> (r: (
        Vec<Run<'a>>,
        Option<ScheduleError>,
    ))
        requires
            old(self).wf(),
        ensures
            final(self).wf(),
            old(self).leads(r.0@, *final(self)),
            starts_in_order(r.0@),
            r.0@.len() <= n,
            match r.1 {
                Some(e) => final(self).stuck(e),
                None => r.0@.len() == n || final(self).upcoming() is None,
            },
    {
        let ghost pre = *self;
        let mut runs: Vec<Run<'a>> = Vec::new();
        while runs.len() < n
            invariant
                pre == *old(self),
                pre.wf(),
                self.wf(),
                pre.leads(runs@, *self),
                runs@.len() <= n,
            decreases n - runs@.len(),
        {
            let ghost mid = *self;
            match self.next(rng) {
                Ok(Some(run)) => {
                    proof {
                        pre.lemma_leads_on(runs@, mid, run, *self);
                    }
                    runs.push(run);
                },
                Ok(None) => {
                    proof {
                        pre.lemma_emitted_in_order(runs@, *self);
                    }
                    return (runs, None);
                },
                Err(e) => {
                    proof {
                        pre.lemma_emitted_in_order(runs@, *self);
                    }
                    return (runs, Some(e));
                },
            }
        }
        proof {
            pre.lemma_emitted_in_order(runs@, *self);
        }
        (runs, None)
    }

    /// Reads the stretch of the stream from `from` until `until`, both
    /// included: the runs that start before `from` are emitted and dropped,
    /// those that start no later than `until` are emitted and handed back,
    /// and the first one that starts later stays pending. No more than
    /// `limit` runs are emitted, dropped ones counted.
    pub fn between<R: RandomSource>(
        &mut self,
        from: u64,
        until: u64,
        limit: usize,
        rng: &mut R,
    ) -> (r: (Vec<Run<'a>>, End))
        requires
            old(self).wf(),
        ensures
            final(self).wf(),
            starts_in_order(r.0@),
            forall|i: int| 0 <= i < r.0@.len() ==> from <= (#[trigger] r.0@[i]).start_at <= until,
            exists|skipped: Seq<Run<'a>>|
                {
                    &&& #[trigger] old(self).leads(skipped + r.0@, *final(self))
                    &&& forall|i: int|
                        0 <= i < skipped.len() ==> (#[trigger] skipped[i]).start_at < from
                    &&& skipped.len() + r.0@.len() <= limit
                    &&& r.1 is Limit ==> skipped.len() + r.0@.len() == limit
                },
            match r.1 {
                End::Passed => final(self).upcoming() matches Some(run) && run.start_at > until,
                End::Drained => final(self).upcoming() is None,
                End::Limit => final(self).upcoming() matches Some(run) && run.start_at <= until,
                End::Failed(e) => final(self).stuck(e),
            },
    {
        let ghost pre = *self;
        let ghost mut skipped: Seq<Run<'a>> = Seq::empty();
        let mut runs: Vec<Run<'a>> = Vec::new();
        let mut emitted: usize = 0;
        assert(skipped + runs@ =~= Seq::<Run<'a>>::empty());
        loop
            invariant
                pre == *old(self),
                pre.wf(),
                self.wf(),
                pre.leads(skipped + runs@, *self),
                emitted == skipped.len() + runs@.len(),
                emitted <= limit,
                forall|i: int| 0 <= i < skipped.len() ==> (#[trigger] skipped[i]).start_at < from,
                forall|i: int|
                    0 <= i < runs@.len() ==> from <= (#[trigger] runs@[i]).start_at <= until,
                starts_in_order(runs@),
            decreases limit - emitted,
        {
            let start: u64 = match self.peek() {
                Some(run) => run.start_at,
                None => {
                    return (runs, End::Drained);
                },
            };
            if start > until {
                return (runs, End::Passed);
            }
            if emitted >= limit {
                return (runs, End::Limit);
            }
            let ghost mid = *self;
            let ghost trace = skipped + runs@;
            match self.next(rng) {
                Ok(Some(run)) => {
                    proof {
                        pre.lemma_emitted_in_order(trace, mid);
                        mid.lemma_upcoming();
                        pre.lemma_leads_on(trace, mid, run, *self);
                        pre.lemma_emitted_in_order(trace.push(run), *self);
                    }
                    if run.start_at >= from {
                        proof {
                            assert(skipped + runs@.push(run) =~= trace.push(run));
                            assert forall|i: int, j: int|
                                0 <= i <= j < runs@.len() + 1 implies runs@.push(run)[i].start_at
                                <= runs@.push(run)[j].start_at by {
                                assert(trace.push(run)[skipped.len() + i].start_at <= trace.push(
                                    run,
                                )[skipped.len() + j].start_at);
                            }
                        }
                        runs.push(run);
                    } else {
                        proof {
                            if runs@.len() > 0 {
                                assert(trace.last() == runs@.last());
                            }
                            assert(skipped.push(run) + runs@ =~= trace.push(run));
                            skipped = skipped.push(run);
                        }
                    }
                    emitted += 1;
                },
                Ok(None) => {
                    return (runs, End::Drained);
                },
                Err(e) => {
                    return (runs, End::Failed(e));
                },
            }
        }
    }
}

/// A recurrence follows the run before it as the schedule of their request
/// asks. A delay from the interval leads from the end of `run` to a tentative
/// start; `next` starts there, or later where that start had to be moved, and
/// no later than the reach of the schedule. It starts at a time of day inside
/// the restricted hours, provided they do not open at the very end of the day.
pub proof fn lemma_recurrence_follows_schedule(run: Run, next: Run)
    requires
        recurs(run, next),
        run.request.schedule.unwrap().wf(),
        run.request.schedule.unwrap().restrict_hours.lo() < DAY,
    ensures
        ({
            let schedule = run.request.schedule.unwrap();
            &&& exists|delay: int|
                {
                    &&& #[trigger] schedule.interval.holds(delay)
                    &&& run.end_at + delay <= next.start_at
                    &&& schedule.adjustment(run.end_at + delay) is None ==> run.end_at + delay
                        == next.start_at
                }
            &&& schedule.interval.lo() <= next.start_at - run.end_at <= schedule.reach()
            &&& schedule.restrict_hours.lo() <= next.start_at % DAY <= schedule.restrict_hours.hi()
        }),
{
    let schedule = run.request.schedule.unwrap();
    let (delay, extra) = choose|delay: int, extra: int|
        schedule.interval.holds(delay) && schedule.slack_holds(extra) && next.start_at as int
            == #[trigger] schedule.placed(run.end_at as int, delay, extra);
    schedule.lemma_recurrence(run.end_at as int, delay, extra);
    schedule.lemma_within_reach(run.end_at as int, delay, extra);
    schedule.lemma_never_early(run.end_at as int, delay, extra);
}

} // verus!
