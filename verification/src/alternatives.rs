//! Alternatives: a compact way to write down many variants of one thing.

use vstd::prelude::*;

verus! {

/// The number of variants of an alternative that names none.
pub fn one() -> (r: usize)
    ensures
        r == 1,
{
    1
}

/// Values that can be moved on by an increment.
pub trait Advance<Inc>: Sized {
    /// The value moved on by `by`; `None` where the result cannot be held.
    spec fn advanced(self, by: Inc) -> Option<Self>;

    /// Moves the value on by `by`.
    fn advance(&self, by: &Inc) -> (r: Option<Self>)
        ensures
            r == self.advanced(*by),
    ;
}

impl Advance<usize> for usize {
    open spec fn advanced(self, by: usize) -> Option<usize> {
        if self + by <= usize::MAX {
            Some((self + by) as usize)
        } else {
            None
        }
    }

    fn advance(&self, by: &usize) -> (r: Option<usize>) {
        self.checked_add(*by)
    }
}

/// The items in reverse order, the last one first.
pub(crate) fn reversed<T>(items: Vec<T>) -> (r: Vec<T>)
    ensures
        r@.len() == items@.len(),
        forall|i: int| 0 <= i < r@.len() ==> r@[i] == items@[items@.len() - 1 - i],
{
    let ghost all = items@;
    let mut rest = items;
    let mut r: Vec<T> = Vec::new();
    while rest.len() > 0
        invariant
            all == items@,
            rest@ == all.take(rest@.len() as int),
            r@.len() + rest@.len() == all.len(),
            forall|i: int| 0 <= i < r@.len() ==> r@[i] == all[all.len() - 1 - i],
        decreases rest@.len(),
    {
        let last = rest.pop().unwrap();
        r.push(last);
        assert(rest@ =~= all.take(rest@.len() as int));
    }
    r
}

/// Either a choice among alternatives, or a series: `cnt` values, the first
/// of them `start`, each of the others its predecessor moved on by
/// `increment`.
#[derive(Debug)]
pub enum Alternatives<Of, Inc = Of> {
    Any(Vec<Alternatives<Of, Inc>>),
    Parametric { start: Of, increment: Inc, cnt: usize },
}

/// The series of `cnt` values from `start` on, each moved on from the one
/// before by `increment`; `None` if one of them cannot be held.
pub open spec fn series<Of: Advance<Inc>, Inc>(start: Of, increment: Inc, cnt: nat) -> Option<
    Seq<Of>,
>
    decreases cnt,
{
    if cnt == 0 {
        Some(Seq::empty())
    } else if cnt == 1 {
        Some(seq![start])
    } else {
        match start.advanced(increment) {
            Some(next) => match series(next, increment, (cnt - 1) as nat) {
                Some(rest) => Some(seq![start] + rest),
                None => None,
            },
            None => None,
        }
    }
}

impl<Of: Advance<Inc>, Inc> Alternatives<Of, Inc> {
    /// All the values that the alternative stands for, in the order in which
    /// it is written; `None` if one of them cannot be held.
    pub open spec fn expansion(self) -> Option<Seq<Of>>
        decreases self,
    {
        match self {
            Alternatives::Any(sub) => Self::expansion_of(sub@),
            Alternatives::Parametric { start, increment, cnt } => series(
                start,
                increment,
                cnt as nat,
            ),
        }
    }

    /// The values of all of `sub`, one alternative after the other.
    pub open spec fn expansion_of(sub: Seq<Self>) -> Option<Seq<Of>>
        decreases sub,
    {
        if sub.len() == 0 {
            Some(Seq::empty())
        } else {
            match (Self::expansion_of(sub.drop_last()), sub.last().expansion()) {
                (Some(before), Some(last)) => Some(before + last),
                _ => None,
            }
        }
    }

    /// Where the values of the first `n` alternatives cannot all be held, nor
    /// can the values of all of them.
    pub proof fn lemma_expansion_fails_early(sub: Seq<Self>, n: int)
        requires
            0 <= n <= sub.len(),
            Self::expansion_of(sub.take(n)) is None,
        ensures
            Self::expansion_of(sub) is None,
        decreases sub.len(),
    {
        if n == sub.len() {
            assert(sub.take(n) =~= sub);
        } else {
            assert(sub.drop_last().take(n) =~= sub.take(n));
            Self::lemma_expansion_fails_early(sub.drop_last(), n);
        }
    }

    /// Writes out all the values that the alternative stands for, in the
    /// order in which it is written; `None` if one of them cannot be held.
    pub fn expand(self) -> (r: Option<Vec<Of>>)
        ensures
            match r {
                Some(values) => self.expansion() == Some(values@),
                None => self.expansion() is None,
            },
        decreases self,
    {
        match self {
            Alternatives::Any(sub) => {
                let ghost all = sub@;
                let mut rest = reversed(sub);
                let mut values: Vec<Of> = Vec::new();
                let ghost mut done: int = 0;
                assert(all.take(0) =~= Seq::<Self>::empty());
                while rest.len() > 0
                    invariant
                        0 <= done <= all.len(),
                        rest@.len() == all.len() - done,
                        forall|i: int|
                            0 <= i < rest@.len() ==> rest@[i] == all[all.len() - 1 - i],
                        self.expansion() == Self::expansion_of(all),
                        Self::expansion_of(all.take(done)) == Some(values@),
                        forall|i: int| 0 <= i < all.len() ==> decreases_to!(self => all[i]),
                    decreases rest@.len(),
                {
                    let next = rest.pop().unwrap();
                    proof {
                        assert(next == all[done]);
                        assert(all.take(done + 1).drop_last() =~= all.take(done));
                    }
                    match next.expand() {
                        Some(mut more) => {
                            values.append(&mut more);
                        },
                        None => {
                            proof {
                                Self::lemma_expansion_fails_early(all, done + 1);
                            }
                            return None;
                        },
                    }
                    proof {
                        done = done + 1;
                    }
                }
                assert(all.take(done) =~= all);
                Some(values)
            },
            Alternatives::Parametric { start, increment, cnt } => {
                let mut values: Vec<Of> = Vec::new();
                if cnt == 0 {
                    return Some(values);
                }
                let ghost first = start;
                let mut current = start;
                let mut k: usize = 1;
                while k < cnt
                    invariant
                        1 <= k <= cnt,
                        self.expansion() == series(first, increment, cnt as nat),
                        series(first, increment, cnt as nat) == match series(
                            current,
                            increment,
                            (cnt - k + 1) as nat,
                        ) {
                            Some(rest) => Some(values@ + rest),
                            None => None,
                        },
                    decreases cnt - k,
                {
                    match current.advance(&increment) {
                        Some(next) => {
                            proof {
                                let rest = series(next, increment, (cnt - k) as nat);
                                if rest is Some {
                                    assert(values@ + (seq![current] + rest.unwrap())
                                        =~= values@.push(current) + rest.unwrap());
                                }
                            }
                            values.push(current);
                            current = next;
                        },
                        None => {
                            return None;
                        },
                    }
                    k += 1;
                }
                proof {
                    assert(values@ + seq![current] =~= values@.push(current));
                }
                values.push(current);
                Some(values)
            },
        }
    }
}

} // verus!
