//! What an appliance draws while it runs, as a description and as a sample.

use crate::random::RandomSource;
use crate::range::{BasicRange, Range};
use vstd::prelude::*;

verus! {

/// Where the power of a usage is taken from.
#[derive(Clone, Copy, Debug, PartialEq, Eq, Structural)]
pub enum Source {
    Line1,
    Line2,
    Line3,
    /// One of the three lines, chosen anew at each run.
    RandomLine,
    /// Whichever line, or lines, suit best; the consumer of the runs decides.
    AnyLine,
    /// All three lines in equal parts.
    AllLines,
    /// No electricity, but hot water of the same power.
    HotWater,
}

impl Source {
    /// The line with the number `die`, counted from one; the third for any
    /// other number.
    pub open spec fn line(die: int) -> Source {
        if die == 1 {
            Source::Line1
        } else if die == 2 {
            Source::Line2
        } else {
            Source::Line3
        }
    }

    /// The source of a run, given the `die` that was cast for it: a random
    /// line becomes the line of that number, any other source stays.
    pub open spec fn settled(self, die: int) -> Source {
        if self == Source::RandomLine {
            Source::line(die)
        } else {
            self
        }
    }

    /// Whether a run of a usage with this source can have the source `drawn`:
    /// one of the three lines for a random line, the source itself otherwise.
    pub open spec fn settles_to(self, drawn: Source) -> bool {
        if self == Source::RandomLine {
            drawn == Source::Line1 || drawn == Source::Line2 || drawn == Source::Line3
        } else {
            drawn == self
        }
    }

    /// Settles the source of one run with the `die` that was cast for it.
    pub fn settle(self, die: u64) -> (r: Source)
        requires
            1 <= die <= 3,
        ensures
            r == self.settled(die as int),
            self.settles_to(r),
    {
        match self {
            Source::RandomLine => {
                if die == 1 {
                    Source::Line1
                } else if die == 2 {
                    Source::Line2
                } else {
                    Source::Line3
                }
            },
            _ => self,
        }
    }
}

/// One segment of a request: how much power it may draw, for how long, and
/// from where.
#[derive(Clone, Copy, Debug)]
pub struct Usage {
    /// In watts.
    pub power: Range<BasicRange>,
    /// In seconds.
    pub duration: Range<BasicRange>,
    pub source: Source,
}

/// One segment of a run: a usage with every choice made.
#[derive(Clone, Copy, Debug, PartialEq, Eq, Structural)]
pub struct UsedPower {
    /// In watts.
    pub power: u64,
    /// In seconds.
    pub duration: u64,
    pub source: Source,
}

impl Usage {
    /// Whether `used` is a sample of this usage: power and duration lie in
    /// their ranges, and the source is this one, settled.
    pub open spec fn yields(self, used: UsedPower) -> bool {
        &&& self.power.holds(used.power as int)
        &&& self.duration.holds(used.duration as int)
        &&& self.source.settles_to(used.source)
    }

    /// Samples the usage: power and duration are drawn one after the other,
    /// and a random line is settled by a third draw.
    pub fn pick<R: RandomSource>(&self, rng: &mut R) -> (used: UsedPower)
        ensures
            self.yields(used),
            used.duration <= self.duration.hi(),
    {
        let power: u64 = self.power.pick(rng);
        let duration: u64 = self.duration.pick(rng);
        let source = if self.source == Source::RandomLine {
            let die: u64 = rng.uniform(1, 4);
            self.source.settle(die)
        } else {
            self.source
        };
        UsedPower { power, duration, source }
    }
}

} // verus!
