//! The requests of one site, each under its name.

use crate::name::Name;
use crate::request::{Request, ScheduleError};
use vstd::prelude::*;

verus! {

/// No name stands in the list twice.
spec fn distinct(entries: Seq<(Name, Request)>) -> bool {
    forall|i: int, j: int|
        0 <= i < j < entries.len() ==> (#[trigger] entries[i]).0@ != (#[trigger] entries[j]).0@
}

/// Where in the list the entry of `name` stands, if it has one.
spec fn position(entries: Seq<(Name, Request)>, name: Seq<u8>) -> Option<int> {
    if exists|i: int| 0 <= i < entries.len() && (#[trigger] entries[i]).0@ == name {
        Some(choose|i: int| 0 <= i < entries.len() && (#[trigger] entries[i]).0@ == name)
    } else {
        None
    }
}

/// The mapping that the list spells out.
spec fn mapping(entries: Seq<(Name, Request)>) -> Map<Seq<u8>, Request> {
    Map::new(
        |name: Seq<u8>| position(entries, name) is Some,
        |name: Seq<u8>| entries[position(entries, name).unwrap()].1,
    )
}

/// The entry at `i` is the one that its name is found at.
proof fn lemma_position(entries: Seq<(Name, Request)>, i: int)
    requires
        distinct(entries),
        0 <= i < entries.len(),
    ensures
        position(entries, entries[i].0@) == Some(i),
{
    let name = entries[i].0@;
    assert(entries[i].0@ == name);
    let found = position(entries, name).unwrap();
    if found < i {
        assert(entries[found].0@ != entries[i].0@);
    } else if i < found {
        assert(entries[i].0@ != entries[found].0@);
    }
}

/// Taking one entry out, and putting one under its name at the end, rewrites
/// the mapping at that name and nowhere else.
proof fn lemma_replace(
    before: Seq<(Name, Request)>,
    found: Option<int>,
    name: Name,
    request: Request,
)
    requires
        distinct(before),
        found == position(before, name@),
    ensures
        ({
            let rest = if found is Some {
                before.remove(found.unwrap())
            } else {
                before
            };
            let after = rest.push((name, request));
            distinct(after) && mapping(after) == mapping(before).insert(name@, request)
        }),
{
    let rest = if found is Some {
        before.remove(found.unwrap())
    } else {
        before
    };
    let after = rest.push((name, request));
    let last = after.len() - 1;
    assert forall|i: int| 0 <= i < rest.len() implies (#[trigger] rest[i]).0@ != name@ by {
        let b = if found is Some && i >= found.unwrap() {
            i + 1
        } else {
            i
        };
        assert(rest[i] == before[b]);
        if before[b].0@ == name@ {
            lemma_position(before, b);
        }
    }
    assert forall|i: int, j: int| 0 <= i < j < after.len() implies (#[trigger] after[i]).0@ != (
    #[trigger] after[j]).0@ by {
        if j < last {
            let bi = if found is Some && i >= found.unwrap() {
                i + 1
            } else {
                i
            };
            let bj = if found is Some && j >= found.unwrap() {
                j + 1
            } else {
                j
            };
            assert(after[i] == before[bi] && after[j] == before[bj]);
        } else {
            assert(after[i] == rest[i]);
        }
    }
    lemma_position(after, last);
    assert forall|key: Seq<u8>| key != name@ implies (position(after, key) is Some) == (position(
        before,
        key,
    ) is Some) && (position(before, key) is Some ==> after[position(after, key).unwrap()].1
        == before[position(before, key).unwrap()].1) by {
        if position(before, key) is Some {
            let b = position(before, key).unwrap();
            let a = if found is Some && b > found.unwrap() {
                b - 1
            } else {
                b
            };
            assert(after[a] == before[b]);
            lemma_position(after, a);
        }
        if position(after, key) is Some {
            let a = position(after, key).unwrap();
            let b = if found is Some && a >= found.unwrap() {
                a + 1
            } else {
                a
            };
            assert(after[a] == before[b]);
            lemma_position(before, b);
        }
    }
    assert(mapping(after) =~= mapping(before).insert(name@, request));
}

/// The index of the entry of `name`, if there is one.
fn find(entries: &Vec<(Name, Request)>, name: &Name) -> (r: Option<usize>)
    requires
        distinct(entries@),
    ensures
        match r {
            Some(i) => i < entries@.len() && position(entries@, name@) == Some(i as int),
            None => position(entries@, name@) is None,
        },
{
    let mut i: usize = 0;
    while i < entries.len()
        invariant
            i <= entries@.len(),
            distinct(entries@),
            forall|j: int| 0 <= j < i ==> (#[trigger] entries@[j]).0@ != name@,
        decreases entries@.len() - i,
    {
        if entries[i].0.same_as(name) {
            proof {
                lemma_position(entries@, i as int);
            }
            return Some(i);
        }
        i += 1;
    }
    None
}

/// A mapping from names to requests.
#[derive(Debug)]
pub struct Requests {
    entries: Vec<(Name, Request)>,
}

impl View for Requests {
    type V = Map<Seq<u8>, Request>;

    /// The request under each name, the name taken by its bytes.
    closed spec fn view(&self) -> Map<Seq<u8>, Request> {
        mapping(self.entries@)
    }
}

impl Requests {
    /// No name is held twice. Every mapping that a program holds is such a
    /// one.
    #[verifier::type_invariant]
    pub closed spec fn wf(self) -> bool {
        distinct(self.entries@)
    }

    /// How many requests there are.
    pub closed spec fn count(self) -> nat {
        self.entries@.len()
    }

    /// The name of the `i`-th request, in the order in which they are walked.
    pub closed spec fn name_at(self, i: int) -> Name {
        self.entries@[i].0
    }

    /// The `i`-th request, in the order in which they are walked.
    pub closed spec fn request_at(self, i: int) -> Request {
        self.entries@[i].1
    }

    /// Walking the requests meets every name of the mapping once, with its
    /// request.
    pub proof fn lemma_walk(self)
        requires
            self.wf(),
        ensures
            forall|i: int|
                0 <= i < self.count() ==> self@.contains_key((#[trigger] self.name_at(i))@)
                    && self@[self.name_at(i)@] == self.request_at(i),
            forall|i: int, j: int|
                0 <= i < j < self.count() ==> (#[trigger] self.name_at(i))@ != (
                #[trigger] self.name_at(j))@,
            forall|name: Seq<u8>| #[trigger]
                self@.contains_key(name) ==> exists|i: int|
                    0 <= i < self.count() && (#[trigger] self.name_at(i))@ == name,
    {
        assert forall|i: int| 0 <= i < self.count() implies self@.contains_key(
            (#[trigger] self.name_at(i))@,
        ) && self@[self.name_at(i)@] == self.request_at(i) by {
            lemma_position(self.entries@, i);
        }
        assert forall|name: Seq<u8>| #[trigger] self@.contains_key(name) implies exists|i: int|
            0 <= i < self.count() && (#[trigger] self.name_at(i))@ == name by {
            let i = position(self.entries@, name).unwrap();
            assert(self.name_at(i)@ == name);
        }
    }

    /// No requests.
    pub fn new() -> (r: Requests)
        ensures
            r@ == Map::<Seq<u8>, Request>::empty(),
            r.count() == 0,
    {
        let r = Requests { entries: Vec::new() };
        assert(r@ =~= Map::<Seq<u8>, Request>::empty());
        r
    }

    /// How many requests there are.
    pub fn len(&self) -> (n: usize)
        ensures
            n == self.count(),
    {
        self.entries.len()
    }

    /// The request under `name`, if there is one.
    pub fn get(&self, name: &Name) -> (r: Option<&Request>)
        ensures
            match r {
                Some(request) => self@.contains_key(name@) && *request == self@[name@],
                None => !self@.contains_key(name@),
            },
    {
        proof {
            use_type_invariant(self);
        }
        match find(&self.entries, name) {
            Some(i) => Some(&self.entries[i].1),
            None => None,
        }
    }

    /// The request under `name`, or the error that names what is missing.
    pub fn lookup(&self, name: &Name) -> (r: Result<&Request, ScheduleError>)
        ensures
            match r {
                Ok(request) => self@.contains_key(name@) && *request == self@[name@],
                Err(ScheduleError::UnknownTriggerTarget(missing)) => missing == *name
                    && !self@.contains_key(name@),
                Err(_) => false,
            },
    {
        match self.get(name) {
            Some(request) => Ok(request),
            None => Err(ScheduleError::UnknownTriggerTarget(name.clone())),
        }
    }

    /// The name and the request at `i`, in the order in which they are walked.
    pub fn entry(&self, i: usize) -> (r: (&Name, &Request))
        requires
            i < self.count(),
        ensures
            *r.0 == self.name_at(i as int),
            *r.1 == self.request_at(i as int),
    {
        (&self.entries[i].0, &self.entries[i].1)
    }

    /// Puts `request` under `name`, and hands back the request that was there
    /// before, if there was one.
    pub fn insert(&mut self, name: Name, request: Request) -> (r: Option<Request>)
        ensures
            final(self)@ == old(self)@.insert(name@, request),
            match r {
                Some(previous) => old(self)@.contains_key(name@) && previous == old(self)@[name@],
                None => !old(self)@.contains_key(name@),
            },
    {
        proof {
            use_type_invariant(&*self);
        }
        let mut entries: Vec<(Name, Request)> = Vec::new();
        std::mem::swap(&mut self.entries, &mut entries);
        let found = find(&entries, &name);
        proof {
            lemma_replace(
                entries@,
                match found {
                    Some(i) => Some(i as int),
                    None => None,
                },
                name,
                request,
            );
        }
        let r = match found {
            Some(i) => Some(entries.remove(i).1),
            None => None,
        };
        entries.push((name, request));
        std::mem::swap(&mut self.entries, &mut entries);
        r
    }
}

} // verus!
