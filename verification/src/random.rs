//! Where the random draws come from.

use rand::Rng;
use vstd::prelude::*;

verus! {

/// A source of whole numbers drawn from a given interval.
///
/// Sampling and recurrence take the source as a parameter, so that a caller
/// decides whether the draws are random or replayed.
pub trait RandomSource: Sized {
    /// Whether a draw from `from .. to` can yield `r` from the source as it
    /// is, and leave it as `after`.
    spec fn draws(self, from: u64, to: u64, r: u64, after: Self) -> bool;

    /// Draws a number from `from .. to`, the upper bound left out.
    fn uniform(&mut self, from: u64, to: u64) -> (r: u64)
        requires
            from < to,
        ensures
            from <= r < to,
            old(self).draws(from, to, r, *final(self)),
    ;
}

/// Calls `rand::Rng::gen_range` on the generator that `rand::thread_rng`
/// hands out, with the half-open range `from..to`.
///
/// Trusted: for a non-empty range of `u64` the sample lies in the range. The
/// outside function panics on an empty range, which `requires` leaves out; it
/// also panics where the system cannot seed the generator of the thread.
#[verifier::external_body]
fn thread_uniform(from: u64, to: u64) -> (r: u64)
    requires
        from < to,
    ensures
        from <= r < to,
{
    rand::thread_rng().gen_range(from..to)
}

/// The generator of the current thread, seeded by the system.
#[derive(Clone, Copy, Debug, Default)]
pub struct ThreadSource;

impl RandomSource for ThreadSource {
    /// Any number of the interval can come.
    open spec fn draws(self, from: u64, to: u64, r: u64, after: Self) -> bool {
        from <= r < to
    }

    fn uniform(&mut self, from: u64, to: u64) -> (r: u64) {
        thread_uniform(from, to)
    }
}

/// A source that replays a fixed list of numbers, round and round.
///
/// A draw from `from .. to` takes the next number of the list, reduces it
/// modulo the width `to - from` and adds `from`. An empty list yields `from`.
#[derive(Debug)]
pub struct Scripted {
    values: Vec<u64>,
    next: usize,
}

impl Scripted {
    /// The numbers that are replayed.
    pub closed spec fn script(self) -> Seq<u64> {
        self.values@
    }

    /// The index in the script of the number that the next draw takes.
    pub closed spec fn position(self) -> int {
        self.next as int
    }

    /// The position stays inside the script.
    #[verifier::type_invariant]
    pub open spec fn wf(self) -> bool {
        0 <= self.position() && (self.position() < self.script().len() || self.position() == 0)
    }

    /// What a draw from `from .. to` yields in this state.
    pub open spec fn draw(self, from: int, to: int) -> int {
        if self.script().len() == 0 {
            from
        } else {
            from + self.script()[self.position()] as int % (to - from)
        }
    }

    /// The position after a draw.
    pub open spec fn advanced(self) -> int {
        if self.position() + 1 < self.script().len() {
            self.position() + 1
        } else {
            0
        }
    }

    /// A source that replays `values` from the first one.
    pub fn new(values: Vec<u64>) -> (r: Self)
        ensures
            r.script() == values@,
            r.position() == 0,
            r.wf(),
    {
        Scripted { values, next: 0 }
    }

    /// Draws as [`RandomSource::uniform`] does, and says which number came.
    pub fn replay(&mut self, from: u64, to: u64) -> (r: u64)
        requires
            from < to,
        ensures
            r == old(self).draw(from as int, to as int),
            from <= r < to,
            final(self).script() == old(self).script(),
            final(self).position() == old(self).advanced(),
            final(self).wf(),
    {
        proof {
            use_type_invariant(&*self);
        }
        if self.values.len() == 0 {
            return from;
        }
        let value: u64 = self.values[self.next];
        let r: u64 = from + value % (to - from);
        self.next = if self.next + 1 < self.values.len() {
            self.next + 1
        } else {
            0
        };
        r
    }
}

impl RandomSource for Scripted {
    /// The number that comes is the one that the script gives at the
    /// position of the source, and the position moves on by one.
    open spec fn draws(self, from: u64, to: u64, r: u64, after: Self) -> bool {
        &&& r == self.draw(from as int, to as int)
        &&& after.script() == self.script()
        &&& after.position() == self.advanced()
    }

    fn uniform(&mut self, from: u64, to: u64) -> (r: u64) {
        self.replay(from, to)
    }
}

} // verus!
