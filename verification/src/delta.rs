//! Signed demand: what is still to be moved, component by component.
//!
//! A demand is written with negative quantities in both directions, as a
//! number of components still to be taken, from the target when it shrinks
//! and from the pool when it grows.
use crate::counts::{
    count_of, has_key, index_of, keys_distinct, lemma_index_of, lemma_with_entry, lookup, with_entry,
    ComponentCounts,
};
use crate::text::same_text;
use vstd::prelude::*;

verus! {

/// The quantity that `demand` holds for `key`, zero where it is missing.
pub open spec fn demand_of(demand: Seq<(Seq<char>, int)>, key: Seq<char>) -> int {
    match lookup(demand, key) {
        Some(q) => q,
        None => 0,
    }
}

/// A signed quantity per component.
#[derive(Clone, Debug)]
pub struct Delta {
    entries: Vec<(String, i128)>,
}

impl View for Delta {
    type V = Seq<(Seq<char>, int)>;

    closed spec fn view(&self) -> Seq<(Seq<char>, int)> {
        Seq::new(self.entries@.len(), |i: int| (self.entries@[i].0@, self.entries@[i].1 as int))
    }
}

impl Delta {
    /// No component occurs twice.
    pub open spec fn wf(&self) -> bool {
        keys_distinct(self@)
    }

    /// Every quantity is one that the machine holds.
    pub proof fn lemma_bounded(&self)
        ensures
            forall|i: int|
                0 <= i < self@.len() ==> i128::MIN <= (#[trigger] self@[i]).1 <= i128::MAX,
    {
    }

    pub fn new() -> (r: Self)
        ensures
            r@ == Seq::<(Seq<char>, int)>::empty(),
            r.wf(),
    {
        let r = Delta { entries: Vec::new() };
        assert(r@ =~= Seq::<(Seq<char>, int)>::empty());
        r
    }

    pub fn len(&self) -> (r: usize)
        ensures
            r == self@.len(),
    {
        self.entries.len()
    }

    /// The component of the entry at `i`.
    pub fn key(&self, i: usize) -> (r: &String)
        requires
            i < self@.len(),
        ensures
            r@ == self@[i as int].0,
    {
        &self.entries[i].0
    }

    /// The quantity of the entry at `i`.
    pub fn quantity(&self, i: usize) -> (r: i128)
        requires
            i < self@.len(),
        ensures
            r == self@[i as int].1,
    {
        self.entries[i].1
    }

    /// The position of the last entry under `key`.
    pub fn position(&self, key: &str) -> (r: Option<usize>)
        ensures
            match r {
                Some(i) => i == index_of(self@, key@),
                None => index_of(self@, key@) < 0,
            },
    {
        let mut i: usize = self.entries.len();
        proof {
            assert(self@.take(self@.len() as int) == self@);
        }
        while i > 0
            invariant
                i <= self.entries@.len(),
                index_of(self@, key@) == index_of(self@.take(i as int), key@),
            decreases i,
        {
            i = i - 1;
            proof {
                assert(self@.take(i + 1).drop_last() == self@.take(i as int));
            }
            if same_text(self.entries[i].0.as_str(), key) {
                return Some(i);
            }
        }
        None
    }

    /// The quantity entered for `key`.
    pub fn get(&self, key: &str) -> (r: Option<i128>)
        ensures
            r == match lookup(self@, key@) {
                Some(q) => Some(q as i128),
                None => None,
            },
            r is Some <==> has_key(self@, key@),
            r is Some ==> r->0 == demand_of(self@, key@),
    {
        proof {
            lemma_index_of(self@, key@);
        }
        match self.position(key) {
            Some(i) => Some(self.entries[i].1),
            None => None,
        }
    }

    /// Binds `key` to `quantity`: in place where the key is present, at the
    /// end where it is not.
    pub fn insert(&mut self, key: String, quantity: i128)
        ensures
            final(self)@ == with_entry(old(self)@, key@, quantity as int),
            old(self).wf() ==> final(self).wf(),
    {
        proof {
            lemma_with_entry(self@, key@, quantity as int);
            lemma_index_of(self@, key@);
        }
        match self.position(key.as_str()) {
            Some(i) => {
                self.entries[i] = (key, quantity);
            },
            None => {
                self.entries.push((key, quantity));
            },
        }
        assert(self@ =~= with_entry(old(self)@, key@, quantity as int));
    }

    /// A copy with the same entries.
    pub fn duplicate(&self) -> (r: Self)
        ensures
            r@ == self@,
    {
        let mut entries: Vec<(String, i128)> = Vec::new();
        let mut i: usize = 0;
        while i < self.entries.len()
            invariant
                i <= self.entries@.len(),
                entries@.len() == i,
                forall|k: int|
                    0 <= k < i ==> (#[trigger] entries@[k]).0@ == self.entries@[k].0@
                        && entries@[k].1 == self.entries@[k].1,
            decreases self.entries@.len() - i,
        {
            entries.push((self.entries[i].0.clone(), self.entries[i].1));
            i = i + 1;
        }
        let r = Delta { entries };
        assert(r@ =~= self@);
        r
    }
}

/// For each component of `desired` of which `totals` holds less, the missing
/// quantity, written negative.
pub open spec fn shortfalls(desired: Seq<(Seq<char>, nat)>, totals: Seq<(Seq<char>, nat)>) -> Seq<
    (Seq<char>, int),
>
    decreases desired.len(),
{
    if desired.len() == 0 {
        Seq::empty()
    } else {
        let rest = shortfalls(desired.drop_last(), totals);
        let e = desired.last();
        if e.1 > count_of(totals, e.0) {
            with_entry(rest, e.0, count_of(totals, e.0) - e.1)
        } else {
            rest
        }
    }
}

/// For each component of `desired` of which `totals` holds more, the excess,
/// written negative.
pub open spec fn surpluses(desired: Seq<(Seq<char>, nat)>, totals: Seq<(Seq<char>, nat)>) -> Seq<
    (Seq<char>, int),
>
    decreases desired.len(),
{
    if desired.len() == 0 {
        Seq::empty()
    } else {
        let rest = surpluses(desired.drop_last(), totals);
        let e = desired.last();
        if e.1 < count_of(totals, e.0) {
            with_entry(rest, e.0, e.1 - count_of(totals, e.0))
        } else {
            rest
        }
    }
}

pub proof fn lemma_shortfalls(desired: Seq<(Seq<char>, nat)>, totals: Seq<(Seq<char>, nat)>)
    ensures
        keys_distinct(shortfalls(desired, totals)),
        forall|i: int|
            0 <= i < shortfalls(desired, totals).len() ==> (#[trigger] shortfalls(
                desired,
                totals,
            )[i]).1 < 0,
        forall|key: Seq<char>|
            keys_distinct(desired) ==> #[trigger] demand_of(shortfalls(desired, totals), key) == (
            if count_of(desired, key) > count_of(totals, key) {
                count_of(totals, key) - count_of(desired, key)
            } else {
                0
            }),
    decreases desired.len(),
{
    let out = shortfalls(desired, totals);
    if desired.len() == 0 {
        assert(keys_distinct(out));
    } else {
        let front = desired.drop_last();
        let rest = shortfalls(front, totals);
        let e = desired.last();
        lemma_shortfalls(front, totals);
        lemma_with_entry(rest, e.0, count_of(totals, e.0) - e.1);
        lemma_index_of(rest, e.0);
        if keys_distinct(desired) {
            assert(keys_distinct(front)) by {
                assert forall|i: int, j: int| 0 <= i < j < front.len() implies (
                #[trigger] front[i]).0 != (#[trigger] front[j]).0 by {
                    assert(desired[i].0 != desired[j].0);
                }
            }
            assert forall|key: Seq<char>| #[trigger]
                demand_of(out, key) == (if count_of(desired, key) > count_of(totals, key) {
                    count_of(totals, key) - count_of(desired, key)
                } else {
                    0
                }) by {
                lemma_index_of(front, e.0);
                if key == e.0 {
                    if has_key(front, key) {
                        let at = index_of(front, key);
                        assert(desired[at].0 != desired[desired.len() - 1].0);
                    }
                    assert(demand_of(rest, key) == 0);
                } else {
                    assert(demand_of(rest, key) == (if count_of(front, key) > count_of(
                        totals,
                        key,
                    ) {
                        count_of(totals, key) - count_of(front, key)
                    } else {
                        0
                    }));
                }
            }
        }
    }
}

pub proof fn lemma_surpluses(desired: Seq<(Seq<char>, nat)>, totals: Seq<(Seq<char>, nat)>)
    ensures
        keys_distinct(surpluses(desired, totals)),
        forall|i: int|
            0 <= i < surpluses(desired, totals).len() ==> (#[trigger] surpluses(
                desired,
                totals,
            )[i]).1 < 0,
        forall|key: Seq<char>|
            keys_distinct(desired) ==> #[trigger] demand_of(surpluses(desired, totals), key) == (
            if count_of(desired, key) < count_of(totals, key) && has_key(desired, key) {
                count_of(desired, key) - count_of(totals, key)
            } else {
                0
            }),
    decreases desired.len(),
{
    let out = surpluses(desired, totals);
    if desired.len() == 0 {
        assert(keys_distinct(out));
    } else {
        let front = desired.drop_last();
        let rest = surpluses(front, totals);
        let e = desired.last();
        lemma_surpluses(front, totals);
        lemma_with_entry(rest, e.0, e.1 - count_of(totals, e.0));
        lemma_index_of(rest, e.0);
        if keys_distinct(desired) {
            assert(keys_distinct(front)) by {
                assert forall|i: int, j: int| 0 <= i < j < front.len() implies (
                #[trigger] front[i]).0 != (#[trigger] front[j]).0 by {
                    assert(desired[i].0 != desired[j].0);
                }
            }
            assert forall|key: Seq<char>| #[trigger]
                demand_of(out, key) == (if count_of(desired, key) < count_of(totals, key)
                    && has_key(desired, key) {
                    count_of(desired, key) - count_of(totals, key)
                } else {
                    0
                }) by {
                lemma_index_of(front, e.0);
                if key == e.0 {
                    if has_key(front, key) {
                        let at = index_of(front, key);
                        assert(desired[at].0 != desired[desired.len() - 1].0);
                    }
                    assert(demand_of(rest, key) == 0);
                } else {
                    assert(demand_of(rest, key) == (if count_of(front, key) < count_of(
                        totals,
                        key,
                    ) && has_key(front, key) {
                        count_of(front, key) - count_of(totals, key)
                    } else {
                        0
                    }));
                }
            }
        }
    }
}

/// Compares what is asked for with what a group holds. The first result
/// holds, for each component held in excess, the excess; the second, for
/// each component that is short, the shortage; both written negative.
/// A component that `totals` does not name counts as zero there.
pub fn calculate_all_deltas(desired: &ComponentCounts, totals: &ComponentCounts) -> (r: (
    Delta,
    Delta,
))
    ensures
        r.0@ == surpluses(desired@, totals@),
        r.1@ == shortfalls(desired@, totals@),
        r.0.wf(),
        r.1.wf(),
{
    let mut to_remove = Delta::new();
    let mut to_add = Delta::new();
    let mut i: usize = 0;
    proof {
        assert(desired@.take(0) == Seq::<(Seq<char>, nat)>::empty());
    }
    while i < desired.len()
        invariant
            i <= desired@.len(),
            to_remove@ == surpluses(desired@.take(i as int), totals@),
            to_add@ == shortfalls(desired@.take(i as int), totals@),
        decreases desired@.len() - i,
    {
        let key: &String = desired.key(i);
        let wanted: usize = desired.quantity(i);
        let held: usize = totals.count(key.as_str());
        proof {
            assert(desired@.take(i + 1).drop_last() == desired@.take(i as int));
        }
        if wanted > held {
            to_add.insert(key.clone(), held as i128 - wanted as i128);
        } else if wanted < held {
            to_remove.insert(key.clone(), wanted as i128 - held as i128);
        }
        i = i + 1;
    }
    proof {
        assert(desired@.take(desired@.len() as int) == desired@);
        lemma_surpluses(desired@, totals@);
        lemma_shortfalls(desired@, totals@);
    }
    (to_remove, to_add)
}

/// The demand that is left once a node with counters `node` has been moved:
/// an entry for a component that the node carries grows by the node's
/// quantity and is dropped once it is no longer negative; the other entries
/// stay.
pub open spec fn settled(demand: Seq<(Seq<char>, int)>, node: Seq<(Seq<char>, nat)>) -> Seq<
    (Seq<char>, int),
>
    decreases demand.len(),
{
    if demand.len() == 0 {
        Seq::empty()
    } else {
        let rest = settled(demand.drop_last(), node);
        let e = demand.last();
        if !has_key(node, e.0) {
            with_entry(rest, e.0, e.1)
        } else if e.1 + count_of(node, e.0) < 0 {
            with_entry(rest, e.0, e.1 + count_of(node, e.0))
        } else {
            rest
        }
    }
}

pub proof fn lemma_settled(demand: Seq<(Seq<char>, int)>, node: Seq<(Seq<char>, nat)>)
    ensures
        keys_distinct(settled(demand, node)),
        settled(demand, node).len() <= demand.len(),
        forall|key: Seq<char>|
            keys_distinct(demand) ==> #[trigger] demand_of(settled(demand, node), key) == (
            if !has_key(node, key) {
                demand_of(demand, key)
            } else if has_key(demand, key) && demand_of(demand, key) + count_of(node, key) < 0 {
                demand_of(demand, key) + count_of(node, key)
            } else {
                0
            }),
        forall|key: Seq<char>|
            #[trigger] has_key(settled(demand, node), key) ==> has_key(demand, key),
    decreases demand.len(),
{
    let out = settled(demand, node);
    if demand.len() == 0 {
        assert(keys_distinct(out));
    } else {
        let front = demand.drop_last();
        let rest = settled(front, node);
        let e = demand.last();
        lemma_settled(front, node);
        lemma_with_entry(rest, e.0, e.1);
        lemma_with_entry(rest, e.0, e.1 + count_of(node, e.0));
        lemma_index_of(rest, e.0);
        lemma_index_of(front, e.0);
        assert forall|key: Seq<char>| #[trigger] has_key(out, key) implies has_key(
            demand,
            key,
        ) by {
            if key != e.0 {
                assert(lookup(out, key) == lookup(rest, key));
                assert(has_key(rest, key));
            }
        }
        if keys_distinct(demand) {
            assert(keys_distinct(front)) by {
                assert forall|i: int, j: int| 0 <= i < j < front.len() implies (
                #[trigger] front[i]).0 != (#[trigger] front[j]).0 by {
                    assert(demand[i].0 != demand[j].0);
                }
            }
            if has_key(front, e.0) {
                let at = index_of(front, e.0);
                assert(demand[at].0 != demand[demand.len() - 1].0);
            }
            assert(!has_key(rest, e.0));
            assert forall|key: Seq<char>| #[trigger]
                demand_of(out, key) == (if !has_key(node, key) {
                    demand_of(demand, key)
                } else if has_key(demand, key) && demand_of(demand, key) + count_of(node, key)
                    < 0 {
                    demand_of(demand, key) + count_of(node, key)
                } else {
                    0
                }) by {
                if key != e.0 {
                    assert(lookup(out, key) == lookup(rest, key));
                    assert(demand_of(rest, key) == (if !has_key(node, key) {
                        demand_of(front, key)
                    } else if has_key(front, key) && demand_of(front, key) + count_of(node, key)
                        < 0 {
                        demand_of(front, key) + count_of(node, key)
                    } else {
                        0
                    }));
                }
            }
        }
    }
}

/// Takes the counters of a moved node off `demand`.
pub fn update_user_defined_hw_component_counters(demand: &Delta, node: &ComponentCounts) -> (r:
    Delta)
    ensures
        r@ == settled(demand@, node@),
        r.wf(),
{
    let mut out = Delta::new();
    let mut i: usize = 0;
    proof {
        assert(demand@.take(0) == Seq::<(Seq<char>, int)>::empty());
        node.lemma_bounded();
    }
    while i < demand.len()
        invariant
            i <= demand@.len(),
            out@ == settled(demand@.take(i as int), node@),
            forall|key: Seq<char>| #[trigger] count_of(node@, key) <= usize::MAX,
        decreases demand@.len() - i,
    {
        let key: &String = demand.key(i);
        let quantity: i128 = demand.quantity(i);
        proof {
            assert(demand@.take(i + 1).drop_last() == demand@.take(i as int));
        }
        match node.get(key.as_str()) {
            None => {
                out.insert(key.clone(), quantity);
            },
            Some(carried) => {
                if quantity < 0 && quantity + (carried as i128) < 0 {
                    out.insert(key.clone(), quantity + carried as i128);
                }
            },
        }
        i = i + 1;
    }
    proof {
        assert(demand@.take(demand@.len() as int) == demand@);
        lemma_settled(demand@, node@);
    }
    out
}

/// Whether some component of `node` has an entry in `demand`.
pub open spec fn touches(demand: Seq<(Seq<char>, int)>, node: Seq<(Seq<char>, nat)>) -> bool {
    exists|i: int| 0 <= i < node.len() && has_key(demand, (#[trigger] node[i]).0)
}

/// Whether `node` carries more of some component than `demand` still asks
/// for.
pub open spec fn overshoots(demand: Seq<(Seq<char>, int)>, node: Seq<(Seq<char>, nat)>) -> bool {
    exists|i: int|
        0 <= i < demand.len() && has_key(node, (#[trigger] demand[i]).0) && magnitude(demand[i].1)
            < count_of(node, demand[i].0)
}

pub open spec fn magnitude(q: int) -> nat {
    if q < 0 {
        (-q) as nat
    } else {
        q as nat
    }
}

/// Whether the shrinking of the target goes on with the candidate whose
/// counters are `node`: some component of the node is still in demand, and
/// the node carries no more of any component than is still in demand.
pub fn keep_iterating_downscale(demand: &Delta, node: &ComponentCounts) -> (r: bool)
    ensures
        r == (touches(demand@, node@) && !overshoots(demand@, node@)),
{
    let mut found: bool = false;
    let mut i: usize = 0;
    while i < node.len()
        invariant
            i <= node@.len(),
            found == exists|k: int| 0 <= k < i && has_key(demand@, (#[trigger] node@[k]).0),
        decreases node@.len() - i,
    {
        if demand.get(node.key(i).as_str()).is_some() {
            found = true;
        }
        i = i + 1;
    }
    if !found {
        return false;
    }
    let mut j: usize = 0;
    proof {
        node.lemma_bounded();
        demand.lemma_bounded();
    }
    while j < demand.len()
        invariant
            j <= demand@.len(),
            touches(demand@, node@),
            forall|key: Seq<char>| #[trigger] count_of(node@, key) <= usize::MAX,
            forall|k: int|
                0 <= k < j ==> !(has_key(node@, (#[trigger] demand@[k]).0) && magnitude(
                    demand@[k].1,
                ) < count_of(node@, demand@[k].0)),
        decreases demand@.len() - j,
    {
        let quantity: i128 = demand.quantity(j);
        match node.get(demand.key(j).as_str()) {
            Some(carried) => {
                let limit: i128 = carried as i128;
                if -limit < quantity && quantity < limit {
                    return false;
                }
            },
            None => {},
        }
        j = j + 1;
    }
    true
}

/// Whether some entry of `demand` is not zero.
pub open spec fn outstanding(demand: Seq<(Seq<char>, int)>) -> bool {
    exists|i: int| 0 <= i < demand.len() && (#[trigger] demand[i]).1 != 0
}

/// Whether the growing of the target goes on: some component is still in
/// demand.
pub fn keep_iterating_upscale(demand: &Delta) -> (r: bool)
    ensures
        r == outstanding(demand@),
{
    let mut i: usize = 0;
    while i < demand.len()
        invariant
            i <= demand@.len(),
            forall|k: int| 0 <= k < i ==> (#[trigger] demand@[k]).1 == 0,
        decreases demand@.len() - i,
    {
        if demand.quantity(i) != 0 {
            return true;
        }
        i = i + 1;
    }
    false
}

} // verus!
