//! Power plants: panels on an invertor, the variants of a plant, and what a
//! plant yields over a stretch of time.

use crate::alternatives::{reversed, Advance, Alternatives};
use itertools::Itertools;
use std::sync::Arc;
use vstd::prelude::*;

verus! {

/// What a plant costs and yields.
#[derive(Clone, Copy, Debug, PartialEq, Eq, Structural)]
pub struct Report {
    pub price: usize,
    /// The power that passed the invertor, summed over all slots.
    pub power_generated: usize,
    /// The same, scaled from the slots that were given to the hours of a year.
    pub power_per_year: usize,
    /// The power that the invertor could not pass, summed over all slots.
    pub lost_to_invertor: usize,
}

/// The step from one variant of a part to the next.
#[derive(Clone, Copy, Debug, PartialEq, Eq, Structural)]
pub struct ExtraPower {
    pub power: usize,
    pub price: usize,
}

impl Default for ExtraPower {
    fn default() -> (r: ExtraPower)
        ensures
            r.power == 0,
            r.price == 0,
    {
        ExtraPower { power: 0, price: 0 }
    }
}

/// An array of panels. `reference` names the series of measurements that
/// tells how much of its power the array yields at a given time.
#[derive(Debug)]
pub struct Panels {
    pub power: usize,
    pub price: usize,
    pub reference: Arc<String>,
}

/// An invertor. It passes no more than its own power.
#[derive(Clone, Copy, Debug, PartialEq, Eq, Structural)]
pub struct Invertor {
    pub power: usize,
    pub price: usize,
    pub asymetric: bool,
}

/// Calls `Arc::clone`, which makes another pointer to the same allocation.
///
/// Trusted: the new pointer leads to the value that the given one leads to.
#[verifier::external_body]
fn share(text: &Arc<String>) -> (r: Arc<String>)
    ensures
        r == *text,
{
    Arc::clone(text)
}

impl Clone for Panels {
    fn clone(&self) -> (r: Self)
        ensures
            r == *self,
    {
        Panels { power: self.power, price: self.price, reference: share(&self.reference) }
    }
}

impl Advance<ExtraPower> for Panels {
    open spec fn advanced(self, by: ExtraPower) -> Option<Panels> {
        if self.power + by.power <= usize::MAX && self.price + by.price <= usize::MAX {
            Some(
                Panels {
                    power: (self.power + by.power) as usize,
                    price: (self.price + by.price) as usize,
                    reference: self.reference,
                },
            )
        } else {
            None
        }
    }

    fn advance(&self, by: &ExtraPower) -> (r: Option<Panels>) {
        match (self.power.checked_add(by.power), self.price.checked_add(by.price)) {
            (Some(power), Some(price)) => Some(
                Panels { power, price, reference: share(&self.reference) },
            ),
            _ => None,
        }
    }
}

impl Advance<ExtraPower> for Invertor {
    open spec fn advanced(self, by: ExtraPower) -> Option<Invertor> {
        if self.power + by.power <= usize::MAX && self.price + by.price <= usize::MAX {
            Some(
                Invertor {
                    power: (self.power + by.power) as usize,
                    price: (self.price + by.price) as usize,
                    asymetric: self.asymetric,
                },
            )
        } else {
            None
        }
    }

    fn advance(&self, by: &ExtraPower) -> (r: Option<Invertor>) {
        match (self.power.checked_add(by.power), self.price.checked_add(by.price)) {
            (Some(power), Some(price)) => Some(Invertor { power, price, asymetric: self.asymetric }),
            _ => None,
        }
    }
}

/// The hours of a year.
pub const HOURS_PER_YEAR: usize = 8760;

/// What the arrays cost together.
pub open spec fn price_of(arrays: Seq<Panels>) -> int
    decreases arrays.len(),
{
    if arrays.len() == 0 {
        0
    } else {
        price_of(arrays.drop_last()) + arrays.last().price
    }
}

/// The power that all arrays together yield in `slot`, where `yields` holds
/// for each array what it yields slot by slot.
pub open spec fn generated(yields: Seq<Vec<usize>>, slot: int) -> int
    decreases yields.len(),
{
    if yields.len() == 0 {
        0
    } else {
        generated(yields.drop_last(), slot) + yields.last()@[slot]
    }
}

/// The power that an invertor of the power `cap` passes in `slot`.
pub open spec fn produced(yields: Seq<Vec<usize>>, cap: int, slot: int) -> int {
    if generated(yields, slot) < cap {
        generated(yields, slot)
    } else {
        cap
    }
}

/// The power that the invertor passes in the first `slots` slots.
pub open spec fn passed(yields: Seq<Vec<usize>>, cap: int, slots: int) -> int
    decreases slots,
{
    if slots <= 0 {
        0
    } else {
        passed(yields, cap, slots - 1) + produced(yields, cap, slots - 1)
    }
}

/// The power that the invertor does not pass in the first `slots` slots.
pub open spec fn lost(yields: Seq<Vec<usize>>, cap: int, slots: int) -> int
    decreases slots,
{
    if slots <= 0 {
        0
    } else {
        lost(yields, cap, slots - 1) + (generated(yields, slots - 1) - produced(
            yields,
            cap,
            slots - 1,
        ))
    }
}

/// Whether `yields` holds, for each of `arrays` arrays, a value for every
/// slot that the first of them has one for, and the first has any.
pub open spec fn shaped(yields: Seq<Vec<usize>>, arrays: int) -> bool {
    &&& yields.len() == arrays
    &&& 0 < arrays
    &&& 0 < yields[0]@.len()
    &&& forall|a: int| 0 <= a < yields.len() ==> yields[0]@.len() <= (#[trigger] yields[a])@.len()
}

/// The arrays yield more together than some of them.
proof fn lemma_generated_grows(yields: Seq<Vec<usize>>, n: int, slot: int)
    requires
        0 <= n <= yields.len(),
    ensures
        0 <= generated(yields.take(n), slot) <= generated(yields, slot),
    decreases yields.len(),
{
    if n == yields.len() {
        assert(yields.take(n) =~= yields);
        if n > 0 {
            lemma_generated_grows(yields.drop_last(), n - 1, slot);
            assert(yields.drop_last().take(n - 1) =~= yields.drop_last());
        }
    } else {
        lemma_generated_grows(yields.drop_last(), n, slot);
        assert(yields.drop_last().take(n) =~= yields.take(n));
    }
}

/// Over more slots more power is passed, and more is lost.
proof fn lemma_totals_grow(yields: Seq<Vec<usize>>, cap: int, n: int, slots: int)
    requires
        0 <= n <= slots,
        0 <= cap,
    ensures
        0 <= passed(yields, cap, n) <= passed(yields, cap, slots),
        0 <= lost(yields, cap, n) <= lost(yields, cap, slots),
    decreases slots,
{
    if n < slots {
        lemma_totals_grow(yields, cap, n, slots - 1);
        lemma_generated_grows(yields, 0, slots - 1);
    } else if 0 < n {
        lemma_totals_grow(yields, cap, n - 1, slots - 1);
        lemma_generated_grows(yields, 0, slots - 1);
    }
}

/// One variant of a plant: an invertor and the arrays on it.
#[derive(Debug)]
pub struct PlantAlternative {
    pub invertor: Invertor,
    pub arrays: Vec<Panels>,
}

impl PlantAlternative {
    /// What the plant costs and yields, or `None` where `yields` does not fit
    /// the arrays or a number grows beyond what a `usize` holds.
    pub open spec fn simulated(self, yields: Seq<Vec<usize>>) -> Option<Report> {
        let slots = yields[0]@.len() as int;
        let cap = self.invertor.power as int;
        let price = self.invertor.price + price_of(self.arrays@);
        if !shaped(yields, self.arrays@.len() as int) {
            None
        } else if price > usize::MAX || lost(yields, cap, slots) > usize::MAX || passed(
            yields,
            cap,
            slots,
        ) * HOURS_PER_YEAR > usize::MAX {
            None
        } else if exists|slot: int| 0 <= slot < slots && #[trigger] generated(yields, slot) > usize::MAX {
            None
        } else {
            Some(
                Report {
                    price: price as usize,
                    power_generated: passed(yields, cap, slots) as usize,
                    power_per_year: (passed(yields, cap, slots) * HOURS_PER_YEAR / slots) as usize,
                    lost_to_invertor: lost(yields, cap, slots) as usize,
                },
            )
        }
    }

    /// What the invertor and the arrays cost together, if a `usize` holds it.
    pub fn price(&self) -> (r: Option<usize>)
        ensures
            match r {
                Some(price) => price == self.invertor.price + price_of(self.arrays@),
                None => self.invertor.price + price_of(self.arrays@) > usize::MAX,
            },
    {
        let mut price: usize = self.invertor.price;
        let mut i: usize = 0;
        assert(self.arrays@.take(0) =~= Seq::<Panels>::empty());
        while i < self.arrays.len()
            invariant
                i <= self.arrays@.len(),
                price == self.invertor.price + price_of(self.arrays@.take(i as int)),
            decreases self.arrays@.len() - i,
        {
            proof {
                assert(self.arrays@.take(i + 1).drop_last() =~= self.arrays@.take(i as int));
                lemma_price_grows(self.arrays@, i + 1);
            }
            price = match price.checked_add(self.arrays[i].price) {
                Some(price) => price,
                None => {
                    return None;
                },
            };
            i += 1;
        }
        assert(self.arrays@.take(i as int) =~= self.arrays@);
        Some(price)
    }

    /// Whether `yields` fits the arrays of this plant.
    fn fits(&self, yields: &Vec<Vec<usize>>) -> (r: bool)
        ensures
            r == shaped(yields@, self.arrays@.len() as int),
    {
        if yields.len() != self.arrays.len() || yields.len() == 0 {
            return false;
        }
        let slots: usize = yields[0].len();
        if slots == 0 {
            return false;
        }
        let mut a: usize = 0;
        while a < yields.len()
            invariant
                a <= yields@.len(),
                0 < yields@.len(),
                slots == yields@[0]@.len(),
                forall|b: int| 0 <= b < a ==> slots <= (#[trigger] yields@[b])@.len(),
            decreases yields@.len() - a,
        {
            if yields[a].len() < slots {
                return false;
            }
            a += 1;
        }
        true
    }

    /// The power that all arrays together yield in `slot`, if a `usize` holds
    /// it.
    fn generated_in(yields: &Vec<Vec<usize>>, slot: usize) -> (r: Option<usize>)
        requires
            forall|a: int| 0 <= a < yields@.len() ==> slot < (#[trigger] yields@[a])@.len(),
        ensures
            match r {
                Some(power) => power == generated(yields@, slot as int),
                None => generated(yields@, slot as int) > usize::MAX,
            },
    {
        let mut power: usize = 0;
        let mut a: usize = 0;
        assert(yields@.take(0) =~= Seq::<Vec<usize>>::empty());
        while a < yields.len()
            invariant
                a <= yields@.len(),
                forall|b: int| 0 <= b < yields@.len() ==> slot < (#[trigger] yields@[b])@.len(),
                power == generated(yields@.take(a as int), slot as int),
            decreases yields@.len() - a,
        {
            proof {
                assert(yields@.take(a + 1).drop_last() =~= yields@.take(a as int));
                lemma_generated_grows(yields@, a + 1, slot as int);
            }
            power = match power.checked_add(yields[a][slot]) {
                Some(power) => power,
                None => {
                    return None;
                },
            };
            a += 1;
        }
        assert(yields@.take(a as int) =~= yields@);
        Some(power)
    }

    /// Runs the plant over the slots of `yields`, which holds for each array,
    /// in their order, the power that it yields slot by slot. What the arrays
    /// yield together passes the invertor up to its power; the rest is lost.
    pub fn simulate(&self, yields: &Vec<Vec<usize>>) -> (r: Option<Report>)
        ensures
            r == self.simulated(yields@),
    {
        if !self.fits(yields) {
            return None;
        }
        let price: usize = match self.price() {
            Some(price) => price,
            None => {
                return None;
            },
        };
        let slots: usize = yields[0].len();
        let cap: usize = self.invertor.power;
        let mut power_generated: usize = 0;
        let mut lost_to_invertor: usize = 0;
        let mut i: usize = 0;
        while i < slots
            invariant
                i <= slots,
                slots == yields@[0]@.len(),
                cap == self.invertor.power,
                shaped(yields@, self.arrays@.len() as int),
                price == self.invertor.price + price_of(self.arrays@),
                power_generated == passed(yields@, cap as int, i as int),
                lost_to_invertor == lost(yields@, cap as int, i as int),
                forall|slot: int| 0 <= slot < i ==> #[trigger] generated(yields@, slot) <= usize::MAX,
            decreases slots - i,
        {
            proof {
                lemma_totals_grow(yields@, cap as int, i + 1, slots as int);
                lemma_generated_grows(yields@, 0, i as int);
            }
            let power: usize = match Self::generated_in(yields, i) {
                Some(power) => power,
                None => {
                    return None;
                },
            };
            let through: usize = if power < cap {
                power
            } else {
                cap
            };
            power_generated = match power_generated.checked_add(through) {
                Some(sum) => sum,
                None => {
                    proof {
                        assert(passed(yields@, cap as int, slots as int) * HOURS_PER_YEAR
                            > usize::MAX) by (nonlinear_arith)
                            requires
                                passed(yields@, cap as int, slots as int) > usize::MAX,
                        ;
                    }
                    return None;
                },
            };
            lost_to_invertor = match lost_to_invertor.checked_add(power - through) {
                Some(sum) => sum,
                None => {
                    return None;
                },
            };
            i += 1;
        }
        let scaled: usize = match power_generated.checked_mul(HOURS_PER_YEAR) {
            Some(scaled) => scaled,
            None => {
                return None;
            },
        };
        Some(
            Report { price, power_generated, power_per_year: scaled / slots, lost_to_invertor },
        )
    }
}

/// The arrays cost more together than some of them.
proof fn lemma_price_grows(arrays: Seq<Panels>, n: int)
    requires
        0 <= n <= arrays.len(),
    ensures
        0 <= price_of(arrays.take(n)) <= price_of(arrays),
    decreases arrays.len(),
{
    if n == arrays.len() {
        assert(arrays.take(n) =~= arrays);
        if n > 0 {
            lemma_price_grows(arrays.drop_last(), n - 1);
            assert(arrays.drop_last().take(n - 1) =~= arrays.drop_last());
        }
    } else {
        lemma_price_grows(arrays.drop_last(), n);
        assert(arrays.drop_last().take(n) =~= arrays.take(n));
    }
}

/// What `itertools::Itertools::multi_cartesian_product` yields, collected,
/// for the given lists.
pub uninterp spec fn multi_cartesian_product(lists: Seq<Seq<usize>>) -> Seq<Seq<usize>>;

/// Calls `itertools::Itertools::multi_cartesian_product` on the lists and
/// collects what it yields.
///
/// Trusted: what comes back is what that function yields for these lists; of
/// its shape nothing is claimed.
#[verifier::external_body]
fn index_tuples(lists: &Vec<Vec<usize>>) -> (r: Vec<Vec<usize>>)
    ensures
        r.deep_view() == multi_cartesian_product(lists.deep_view()),
{
    lists.iter().cloned().multi_cartesian_product().collect()
}

/// The indices of a list of `len` items.
pub open spec fn indices(len: nat) -> Seq<usize> {
    Seq::new(len, |j: int| j as usize)
}

/// For each of the lists, its indices.
pub open spec fn index_lists(lists: Seq<Seq<Panels>>) -> Seq<Seq<usize>> {
    Seq::new(lists.len(), |i: int| indices(lists[i].len()))
}

/// The arrays that `tuple` picks, one from each of the lists; `None` unless
/// it holds one index for each list.
pub open spec fn picked(lists: Seq<Seq<Panels>>, tuple: Seq<usize>) -> Option<Seq<Panels>> {
    if tuple.len() == lists.len() && forall|i: int|
        0 <= i < tuple.len() ==> (#[trigger] tuple[i]) < lists[i].len() {
        Some(Seq::new(tuple.len(), |i: int| lists[i][tuple[i] as int]))
    } else {
        None
    }
}

/// What each of the tuples picks; `None` if one of them does not fit the
/// lists.
pub open spec fn picked_all(lists: Seq<Seq<Panels>>, tuples: Seq<Seq<usize>>) -> Option<
    Seq<Seq<Panels>>,
> {
    if forall|t: int| 0 <= t < tuples.len() ==> picked(lists, #[trigger] tuples[t]) is Some {
        Some(Seq::new(tuples.len(), |t: int| picked(lists, tuples[t]).unwrap()))
    } else {
        None
    }
}

/// Every invertor with every pick of arrays: all picks with the first
/// invertor, then all with the second, and so on.
pub open spec fn plants(invertors: Seq<Invertor>, picks: Seq<Seq<Panels>>) -> Seq<
    (Invertor, Seq<Panels>),
>
    decreases invertors.len(),
{
    if invertors.len() == 0 {
        Seq::empty()
    } else {
        plants(invertors.drop_last(), picks) + Seq::new(
            picks.len(),
            |t: int| (invertors.last(), picks[t]),
        )
    }
}

/// The values of each of the alternatives; `None` if one of them has values
/// that cannot be held.
pub open spec fn expansions(arrays: Seq<Alternatives<Panels, ExtraPower>>) -> Option<
    Seq<Seq<Panels>>,
> {
    if forall|i: int| 0 <= i < arrays.len() ==> (#[trigger] arrays[i]).expansion() is Some {
        Some(Seq::new(arrays.len(), |i: int| arrays[i].expansion().unwrap()))
    } else {
        None
    }
}

impl PlantAlternative {
    /// The invertor, and the arrays in their order.
    pub open spec fn parts(self) -> (Invertor, Seq<Panels>) {
        (self.invertor, self.arrays@)
    }
}

/// The parts of each of the plants.
pub open spec fn parts_of(plants: Seq<PlantAlternative>) -> Seq<(Invertor, Seq<Panels>)> {
    Seq::new(plants.len(), |k: int| plants[k].parts())
}

/// The lists, each one by its items.
pub open spec fn items_of(lists: Seq<Vec<Panels>>) -> Seq<Seq<Panels>> {
    Seq::new(lists.len(), |i: int| lists[i]@)
}

/// A plant with alternatives for its invertor and for each of its arrays.
#[derive(Debug)]
pub struct Plant {
    pub invertor: Alternatives<Invertor, ExtraPower>,
    pub arrays: Vec<Alternatives<Panels, ExtraPower>>,
}

/// Copies the arrays.
fn copy_of(arrays: &Vec<Panels>) -> (r: Vec<Panels>)
    ensures
        r@ == arrays@,
{
    let mut r: Vec<Panels> = Vec::new();
    let mut i: usize = 0;
    while i < arrays.len()
        invariant
            i <= arrays@.len(),
            r@ == arrays@.take(i as int),
        decreases arrays@.len() - i,
    {
        r.push(arrays[i].clone());
        assert(arrays@.take(i as int).push(arrays@[i as int]) =~= arrays@.take(i + 1));
        i += 1;
    }
    assert(arrays@.take(i as int) =~= arrays@);
    r
}

/// The arrays that `tuple` picks from the lists, if it fits them.
fn pick(lists: &Vec<Vec<Panels>>, tuple: &Vec<usize>) -> (r: Option<Vec<Panels>>)
    ensures
        match r {
            Some(arrays) => picked(items_of(lists@), tuple@) == Some(arrays@),
            None => picked(items_of(lists@), tuple@) is None,
        },
{
    if tuple.len() != lists.len() {
        return None;
    }
    let mut arrays: Vec<Panels> = Vec::new();
    let mut i: usize = 0;
    while i < tuple.len()
        invariant
            i <= tuple@.len(),
            tuple@.len() == lists@.len(),
            arrays@.len() == i,
            forall|j: int| 0 <= j < i ==> (#[trigger] tuple@[j]) < lists@[j]@.len(),
            forall|j: int| 0 <= j < i ==> arrays@[j] == lists@[j]@[tuple@[j] as int],
        decreases tuple@.len() - i,
    {
        let at: usize = tuple[i];
        if at >= lists[i].len() {
            return None;
        }
        arrays.push(lists[i][at].clone());
        i += 1;
    }
    assert(arrays@ =~= picked(items_of(lists@), tuple@).unwrap());
    Some(arrays)
}

impl Plant {
    /// Builds the plants that the tuples of indices stand for: each tuple
    /// picks one array from each of the lists, and every invertor comes with
    /// every pick. `None` if a tuple does not fit the lists.
    pub fn combine(
        invertors: &Vec<Invertor>,
        lists: &Vec<Vec<Panels>>,
        tuples: &Vec<Vec<usize>>,
    ) -> (r: Option<Vec<PlantAlternative>>)
        ensures
            match r {
                Some(all) => picked_all(items_of(lists@), tuples.deep_view()) matches Some(picks)
                    && parts_of(all@) == plants(invertors@, picks),
                None => picked_all(items_of(lists@), tuples.deep_view()) is None,
            },
    {
        let ghost items = items_of(lists@);
        let mut picks: Vec<Vec<Panels>> = Vec::new();
        let mut t: usize = 0;
        while t < tuples.len()
            invariant
                t <= tuples@.len(),
                items == items_of(lists@),
                picks@.len() == t,
                forall|u: int|
                    0 <= u < t ==> picked(items, #[trigger] tuples.deep_view()[u]) == Some(
                        picks@[u]@,
                    ),
            decreases tuples@.len() - t,
        {
            assert(tuples.deep_view()[t as int] == tuples@[t as int]@);
            match pick(lists, &tuples[t]) {
                Some(arrays) => {
                    picks.push(arrays);
                },
                None => {
                    return None;
                },
            }
            t += 1;
        }
        let ghost chosen = picked_all(items, tuples.deep_view()).unwrap();
        assert(chosen =~= items_of(picks@));
        let mut all: Vec<PlantAlternative> = Vec::new();
        let mut i: usize = 0;
        assert(invertors@.take(0) =~= Seq::<Invertor>::empty());
        while i < invertors.len()
            invariant
                i <= invertors@.len(),
                chosen == items_of(picks@),
                parts_of(all@) == plants(invertors@.take(i as int), chosen),
            decreases invertors@.len() - i,
        {
            let ghost so_far = parts_of(all@);
            let mut u: usize = 0;
            while u < picks.len()
                invariant
                    u <= picks@.len(),
                    i < invertors@.len(),
                    chosen == items_of(picks@),
                    parts_of(all@) == so_far + Seq::new(
                        u as nat,
                        |t: int| (invertors@[i as int], chosen[t]),
                    ),
                decreases picks@.len() - u,
            {
                let ghost before = all@;
                let plant = PlantAlternative { invertor: invertors[i], arrays: copy_of(&picks[u]) };
                all.push(plant);
                proof {
                    let shorter = so_far + Seq::new(
                        u as nat,
                        |t: int| (invertors@[i as int], chosen[t]),
                    );
                    let longer = so_far + Seq::new(
                        (u + 1) as nat,
                        |t: int| (invertors@[i as int], chosen[t]),
                    );
                    assert(parts_of(before) == shorter);
                    assert(before.len() == so_far.len() + u);
                    assert(plant.parts() == (invertors@[i as int], chosen[u as int]));
                    assert forall|k: int| 0 <= k < longer.len() implies parts_of(
                        before.push(plant),
                    )[k] == longer[k] by {
                        if k < before.len() {
                            assert(before.push(plant)[k] == before[k]);
                            assert(parts_of(before)[k] == shorter[k]);
                        }
                    }
                    assert(parts_of(before.push(plant)) =~= longer);
                }
                u += 1;
            }
            proof {
                assert(invertors@.take(i + 1).drop_last() =~= invertors@.take(i as int));
                assert(invertors@.take(i + 1).last() == invertors@[i as int]);
            }
            i += 1;
        }
        assert(invertors@.take(i as int) =~= invertors@);
        Some(all)
    }
}

/// Writes out the values of each of the alternatives.
fn expand_all(arrays: Vec<Alternatives<Panels, ExtraPower>>) -> (r: Option<Vec<Vec<Panels>>>)
    ensures
        match r {
            Some(lists) => expansions(arrays@) == Some(items_of(lists@)),
            None => expansions(arrays@) is None,
        },
{
    let ghost all = arrays@;
    let mut rest = reversed(arrays);
    let mut lists: Vec<Vec<Panels>> = Vec::new();
    while rest.len() > 0
        invariant
            all == arrays@,
            lists@.len() + rest@.len() == all.len(),
            forall|i: int| 0 <= i < rest@.len() ==> rest@[i] == all[all.len() - 1 - i],
            forall|j: int|
                0 <= j < lists@.len() ==> (#[trigger] all[j]).expansion() == Some(lists@[j]@),
        decreases rest@.len(),
    {
        let ghost done = lists@.len() as int;
        let next = rest.pop().unwrap();
        proof {
            assert(next == all[done]);
        }
        match next.expand() {
            Some(values) => {
                lists.push(values);
            },
            None => {
                return None;
            },
        }
    }
    assert(expansions(all).unwrap() =~= items_of(lists@));
    Some(lists)
}

/// For each of the lists, its indices.
fn index_lists_of(lists: &Vec<Vec<Panels>>) -> (r: Vec<Vec<usize>>)
    ensures
        r.deep_view() == index_lists(items_of(lists@)),
{
    let mut r: Vec<Vec<usize>> = Vec::new();
    let mut i: usize = 0;
    while i < lists.len()
        invariant
            i <= lists@.len(),
            r@.len() == i,
            forall|k: int| 0 <= k < i ==> (#[trigger] r@[k])@ == indices(lists@[k]@.len()),
        decreases lists@.len() - i,
    {
        let mut of_list: Vec<usize> = Vec::new();
        let mut j: usize = 0;
        while j < lists[i].len()
            invariant
                i < lists@.len(),
                j <= lists@[i as int]@.len(),
                of_list@ == indices(j as nat),
            decreases lists@[i as int]@.len() - j,
        {
            of_list.push(j);
            assert(indices(j as nat).push(j) =~= indices((j + 1) as nat));
            j += 1;
        }
        r.push(of_list);
        i += 1;
    }
    assert(r.deep_view() =~= index_lists(items_of(lists@))) by {
        assert forall|k: int| 0 <= k < r@.len() implies r.deep_view()[k] == index_lists(
            items_of(lists@),
        )[k] by {
            assert(r@[k].deep_view() =~= r@[k]@);
        }
    }
    r
}

impl Plant {
    /// Writes out every variant of the plant: each value of the invertor with
    /// each way to take one value for every array. The ways are those that
    /// `multi_cartesian_product` yields for the indices of the values. `None`
    /// if a value cannot be held.
    pub fn into_alternatives(self) -> (r: Option<Vec<PlantAlternative>>)
        ensures
            match (self.invertor.expansion(), expansions(self.arrays@)) {
                (Some(invertors), Some(lists)) => match picked_all(
                    lists,
                    multi_cartesian_product(index_lists(lists)),
                ) {
                    Some(picks) => r matches Some(all) && parts_of(all@) == plants(invertors, picks),
                    None => r is None,
                },
                _ => r is None,
            },
    {
        let Plant { invertor, arrays } = self;
        let invertors = match invertor.expand() {
            Some(invertors) => invertors,
            None => {
                return None;
            },
        };
        let lists = match expand_all(arrays) {
            Some(lists) => lists,
            None => {
                return None;
            },
        };
        let tuples = index_tuples(&index_lists_of(&lists));
        Plant::combine(&invertors, &lists, &tuples)
    }
}

} // verus!
