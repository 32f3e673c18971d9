//! Scores: how much a candidate node is worth moving.
//!
//! The weight of a component is its share of all components of both groups,
//! on a scale of 100. A score is a sum of terms `100 - weight`, each with a
//! sign. All candidates of one plan share the divisor, the number of all
//! components; the library therefore keeps a score as an exact pair of sums
//! of `total - share`, and compares scores by these.
use crate::counts::{count_of, ComponentCounts};
use crate::delta::{demand_of, Delta};
use crate::aggregate::{calculate_hsm_hw_component_count, totals};
use crate::inventory::{total_of, GroupInventory, Nodes};
use vstd::prelude::*;

verus! {

/// The scale of the weights.
pub const SCARCITY_SCALE: usize = 100;

/// What the weights of the components are computed from: the quantity of
/// each component and the number of all components.
pub struct Shares {
    pub shares: Seq<(Seq<char>, nat)>,
    pub total: nat,
}

/// How far the component `key` is from making up all components: the
/// numerator of `100 - weight` over the divisor `total / 100`.
pub open spec fn rarity(weights: Shares, key: Seq<char>) -> nat {
    if weights.total >= count_of(weights.shares, key) {
        (weights.total - count_of(weights.shares, key)) as nat
    } else {
        0
    }
}

/// The weights of the components of a union of groups.
#[derive(Clone, Debug)]
pub struct ScarcityWeights {
    shares: ComponentCounts,
    total: usize,
}

impl View for ScarcityWeights {
    type V = Shares;

    closed spec fn view(&self) -> Shares {
        Shares { shares: self.shares@, total: self.total as nat }
    }
}

impl ScarcityWeights {
    /// The weights that follow from the quantity of each component and the
    /// number of all components.
    pub fn new(shares: ComponentCounts, total: usize) -> (r: Self)
        ensures
            r@ == (Shares { shares: shares@, total: total as nat }),
    {
        ScarcityWeights { shares, total }
    }

    /// The number of all components.
    pub fn total(&self) -> (r: usize)
        ensures
            r == self@.total,
    {
        self.total
    }

    /// The quantity of the component `key`.
    pub fn share(&self, key: &str) -> (r: usize)
        ensures
            r == count_of(self@.shares, key@),
    {
        self.shares.count(key)
    }

    /// `total - share` of the component `key`.
    pub fn rarity(&self, key: &str) -> (r: usize)
        ensures
            r == rarity(self@, key@),
            r <= self@.total,
    {
        let share: usize = self.shares.count(key);
        if self.total >= share {
            self.total - share
        } else {
            0
        }
    }

    /// The weight of the component `key` on the scale of 100, rounded
    /// down; nothing where there are no components at all.
    pub fn weight(&self, key: &str) -> (r: Option<u128>)
        ensures
            r == if self@.total == 0 {
                None
            } else {
                Some(((SCARCITY_SCALE * count_of(self@.shares, key@)) / (self@.total as int)) as u128)
            },
    {
        if self.total == 0 {
            None
        } else {
            let share: u128 = self.shares.count(key) as u128;
            Some((100 * share) / (self.total as u128))
        }
    }
}

/// The weights of the components whose quantities are `counts`, among
/// `total_number_hw_components` components in all.
pub fn calculate_hsm_hw_component_normalized_density_score_from_hsm_hw_component_count_hashmap(
    counts: ComponentCounts,
    total_number_hw_components: usize,
) -> (r: ScarcityWeights)
    ensures
        r@ == (Shares { shares: counts@, total: total_number_hw_components as nat }),
{
    ScarcityWeights::new(counts, total_number_hw_components)
}

/// The weights of the components of a group, among
/// `total_number_hw_components` components in all.
pub fn calculate_hsm_hw_component_normalized_density_score_from_hsm_node_hw_component_count_vec(
    inventory: &GroupInventory,
    total_number_hw_components: usize,
) -> (r: ScarcityWeights)
    requires
        forall|key: Seq<char>| #[trigger] total_of(inventory@, key) <= usize::MAX,
    ensures
        r@ == (Shares {
            shares: totals(inventory@),
            total: total_number_hw_components as nat,
        }),
{
    calculate_hsm_hw_component_normalized_density_score_from_hsm_hw_component_count_hashmap(
        calculate_hsm_hw_component_count(inventory),
        total_number_hw_components,
    )
}

/// The score of a candidate. A blocked candidate ranks below every other;
/// otherwise candidates rank by `gain - loss`.
#[derive(Clone, Copy, Debug, PartialEq, Eq, Structural)]
pub struct Score {
    pub blocked: bool,
    pub gain: u128,
    pub loss: u128,
}

/// A score, in numbers without bound.
pub struct Rating {
    pub blocked: bool,
    pub gain: nat,
    pub loss: nat,
}

impl View for Score {
    type V = Rating;

    open spec fn view(&self) -> Rating {
        Rating { blocked: self.blocked, gain: self.gain as nat, loss: self.loss as nat }
    }
}

/// Whether `a` ranks strictly above `b`.
pub open spec fn better(a: Rating, b: Rating) -> bool {
    if a.blocked {
        false
    } else if b.blocked {
        true
    } else {
        a.gain - a.loss > b.gain - b.loss
    }
}

impl Score {
    /// Whether this score ranks strictly above `other`.
    pub fn beats(&self, other: &Score) -> (r: bool)
        ensures
            r == better(self@, other@),
    {
        if self.blocked {
            false
        } else if other.blocked {
            true
        } else if self.gain >= self.loss {
            if other.gain >= other.loss {
                self.gain - self.loss > other.gain - other.loss
            } else {
                true
            }
        } else {
            if other.gain >= other.loss {
                false
            } else {
                self.loss - self.gain < other.loss - other.gain
            }
        }
    }
}

/// The sum of the rarities of the components of `node` that are still in
/// demand.
pub open spec fn gain_of(
    node: Seq<(Seq<char>, nat)>,
    demand: Seq<(Seq<char>, int)>,
    weights: Shares,
) -> nat
    decreases node.len(),
{
    if node.len() == 0 {
        0
    } else {
        gain_of(node.drop_last(), demand, weights) + if demand_of(demand, node.last().0) != 0 {
            rarity(weights, node.last().0)
        } else {
            0
        }
    }
}

/// The sum of the rarities of the components of `node` that are not in
/// demand.
pub open spec fn loss_of(
    node: Seq<(Seq<char>, nat)>,
    demand: Seq<(Seq<char>, int)>,
    weights: Shares,
) -> nat
    decreases node.len(),
{
    if node.len() == 0 {
        0
    } else {
        loss_of(node.drop_last(), demand, weights) + if demand_of(demand, node.last().0) != 0 {
            0
        } else {
            rarity(weights, node.last().0)
        }
    }
}

/// Whether taking `node` out of a group with the totals `totals` leaves
/// less of some component than `desired` asks for.
pub open spec fn violates(
    node: Seq<(Seq<char>, nat)>,
    desired: Seq<(Seq<char>, nat)>,
    totals: Seq<(Seq<char>, nat)>,
) -> bool {
    exists|i: int|
        0 <= i < desired.len() && count_of(totals, (#[trigger] desired[i]).0) - count_of(
            node,
            desired[i].0,
        ) < desired[i].1
}

/// The score of `node` as a candidate to leave the target.
pub open spec fn downscale_score(
    node: Seq<(Seq<char>, nat)>,
    demand: Seq<(Seq<char>, int)>,
    desired: Seq<(Seq<char>, nat)>,
    totals: Seq<(Seq<char>, nat)>,
    weights: Shares,
) -> Rating {
    if violates(node, desired, totals) {
        Rating { blocked: true, gain: 0, loss: 0 }
    } else {
        Rating {
            blocked: false,
            gain: gain_of(node, demand, weights),
            loss: loss_of(node, demand, weights),
        }
    }
}

/// The score of `node` as a candidate to enter the target.
pub open spec fn upscale_score(
    node: Seq<(Seq<char>, nat)>,
    demand: Seq<(Seq<char>, int)>,
    weights: Shares,
) -> Rating {
    Rating {
        blocked: false,
        gain: gain_of(node, demand, weights),
        loss: loss_of(node, demand, weights),
    }
}

/// Whether a group with the totals `totals` still holds what `desired` asks
/// for once `node` has left it. A component that `totals` or `node` does
/// not name counts as zero.
pub fn can_node_be_removed_without_violating_user_request(
    node: &ComponentCounts,
    desired: &ComponentCounts,
    totals: &ComponentCounts,
) -> (r: bool)
    ensures
        r == !violates(node@, desired@, totals@),
{
    let mut i: usize = 0;
    while i < desired.len()
        invariant
            i <= desired@.len(),
            forall|k: int|
                0 <= k < i ==> !(count_of(totals@, (#[trigger] desired@[k]).0) - count_of(
                    node@,
                    desired@[k].0,
                ) < desired@[k].1),
        decreases desired@.len() - i,
    {
        let key: &String = desired.key(i);
        let held: usize = totals.count(key.as_str());
        let carried: usize = node.count(key.as_str());
        let wanted: usize = desired.quantity(i);
        if (held as i128) - (carried as i128) < wanted as i128 {
            return false;
        }
        i = i + 1;
    }
    true
}

proof fn lemma_sum_bound(parts: nat, sum: nat, term: nat, limit: nat)
    requires
        sum <= parts * limit,
        term <= limit,
        parts < usize::MAX,
        limit <= usize::MAX,
    ensures
        sum + term <= (parts + 1) * limit,
        (parts + 1) * limit <= u128::MAX,
{
    assert((parts + 1) * limit == parts * limit + limit) by (nonlinear_arith);
    assert((parts + 1) * limit <= usize::MAX * usize::MAX) by (nonlinear_arith)
        requires
            parts + 1 <= usize::MAX,
            limit <= usize::MAX,
    ;
    assert(usize::MAX * usize::MAX <= u128::MAX) by (nonlinear_arith)
        requires
            usize::MAX <= 0xffff_ffff_ffff_ffff,
    ;
}

/// The two sums of which the score of `node` is made.
pub fn weigh(node: &ComponentCounts, demand: &Delta, weights: &ScarcityWeights) -> (r: (u128, u128))
    ensures
        r.0 == gain_of(node@, demand@, weights@),
        r.1 == loss_of(node@, demand@, weights@),
{
    let mut gain: u128 = 0;
    let mut loss: u128 = 0;
    let mut i: usize = 0;
    let count: usize = node.len();
    proof {
        assert(node@.take(0) == Seq::<(Seq<char>, nat)>::empty());
        assert(0 * weights@.total == 0) by (nonlinear_arith);
    }
    while i < count
        invariant
            i <= count,
            count == node@.len(),
            gain == gain_of(node@.take(i as int), demand@, weights@),
            loss == loss_of(node@.take(i as int), demand@, weights@),
            gain + loss <= i * weights@.total,
            i * weights@.total <= u128::MAX,
        decreases count - i,
    {
        let key: &String = node.key(i);
        let term: usize = weights.rarity(key.as_str());
        let wanted: bool = match demand.get(key.as_str()) {
            Some(q) => q != 0,
            None => false,
        };
        proof {
            assert(node@.take(i + 1).drop_last() == node@.take(i as int));
            lemma_sum_bound(i as nat, (gain + loss) as nat, term as nat, weights@.total);
        }
        if wanted {
            gain = gain + term as u128;
        } else {
            loss = loss + term as u128;
        }
        i = i + 1;
    }
    proof {
        assert(node@.take(node@.len() as int) == node@);
    }
    (gain, loss)
}

/// What a vector of scored candidates holds.
pub open spec fn ratings(scores: Seq<(String, Score)>) -> Seq<(Seq<char>, Rating)> {
    Seq::new(scores.len(), |i: int| (scores[i].0@, scores[i].1@))
}

/// Each node of `nodes`, in order, with its score as a candidate to leave
/// the target.
pub open spec fn downscale_scores(
    nodes: Nodes,
    demand: Seq<(Seq<char>, int)>,
    desired: Seq<(Seq<char>, nat)>,
    weights: Shares,
    totals: Seq<(Seq<char>, nat)>,
) -> Seq<(Seq<char>, Rating)> {
    Seq::new(
        nodes.len(),
        |i: int| (nodes[i].0, downscale_score(nodes[i].1, demand, desired, totals, weights)),
    )
}

/// Each node of `nodes`, in order, with its score as a candidate to enter
/// the target.
pub open spec fn upscale_scores(nodes: Nodes, demand: Seq<(Seq<char>, int)>, weights: Shares) -> Seq<
    (Seq<char>, Rating),
> {
    Seq::new(nodes.len(), |i: int| (nodes[i].0, upscale_score(nodes[i].1, demand, weights)))
}

/// Scores each node of the target as a candidate to leave it. A node whose
/// leaving would take the target below the request is blocked. Of the
/// others, each component that is still to be removed counts for the node
/// with `100 - weight`, and every other component against it.
pub fn calculate_hsm_hw_component_normalized_node_density_score_downscale(
    inventory: &GroupInventory,
    demand: &Delta,
    desired: &ComponentCounts,
    weights: &ScarcityWeights,
    totals: &ComponentCounts,
) -> (r: Vec<(String, Score)>)
    ensures
        ratings(r@) == downscale_scores(inventory@, demand@, desired@, weights@, totals@),
{
    let mut out: Vec<(String, Score)> = Vec::new();
    let mut i: usize = 0;
    while i < inventory.len()
        invariant
            i <= inventory@.len(),
            out@.len() == i,
            forall|k: int|
                0 <= k < i ==> (#[trigger] out@[k]).0@ == inventory@[k].0 && out@[k].1@
                    == downscale_score(inventory@[k].1, demand@, desired@, totals@, weights@),
        decreases inventory@.len() - i,
    {
        let node: &ComponentCounts = inventory.counts(i);
        let score: Score = if can_node_be_removed_without_violating_user_request(
            node,
            desired,
            totals,
        ) {
            let sums: (u128, u128) = weigh(node, demand, weights);
            Score { blocked: false, gain: sums.0, loss: sums.1 }
        } else {
            Score { blocked: true, gain: 0, loss: 0 }
        };
        out.push((inventory.id(i).clone(), score));
        i = i + 1;
    }
    assert(ratings(out@) =~= downscale_scores(inventory@, demand@, desired@, weights@, totals@));
    out
}

/// Scores each node of the pool as a candidate to enter the target: each
/// component that is still in demand counts for the node with
/// `100 - weight`, and every other component against it.
pub fn calculate_hsm_hw_component_normalized_node_density_score_upscale(
    inventory: &GroupInventory,
    demand: &Delta,
    weights: &ScarcityWeights,
) -> (r: Vec<(String, Score)>)
    ensures
        ratings(r@) == upscale_scores(inventory@, demand@, weights@),
{
    let mut out: Vec<(String, Score)> = Vec::new();
    let mut i: usize = 0;
    while i < inventory.len()
        invariant
            i <= inventory@.len(),
            out@.len() == i,
            forall|k: int|
                0 <= k < i ==> (#[trigger] out@[k]).0@ == inventory@[k].0 && out@[k].1@
                    == upscale_score(inventory@[k].1, demand@, weights@),
        decreases inventory@.len() - i,
    {
        let sums: (u128, u128) = weigh(inventory.counts(i), demand, weights);
        out.push((inventory.id(i).clone(), Score { blocked: false, gain: sums.0, loss: sums.1 }));
        i = i + 1;
    }
    assert(ratings(out@) =~= upscale_scores(inventory@, demand@, weights@));
    out
}

/// The position of the best of `scores`: the first of those that no other
/// ranks above.
pub open spec fn best_index(scores: Seq<(Seq<char>, Rating)>) -> int
    decreases scores.len(),
{
    if scores.len() <= 1 {
        0
    } else {
        let before = best_index(scores.drop_last());
        if better(scores.last().1, scores[before].1) {
            scores.len() - 1
        } else {
            before
        }
    }
}

pub proof fn lemma_best_index(scores: Seq<(Seq<char>, Rating)>)
    requires
        scores.len() > 0,
    ensures
        0 <= best_index(scores) < scores.len(),
        forall|i: int|
            0 <= i < scores.len() ==> !better((#[trigger] scores[i]).1, scores[best_index(scores)].1),
        forall|i: int|
            0 <= i < best_index(scores) ==> better(
                scores[best_index(scores)].1,
                (#[trigger] scores[i]).1,
            ),
    decreases scores.len(),
{
    if scores.len() > 1 {
        let front = scores.drop_last();
        lemma_best_index(front);
        let before = best_index(front);
        assert(front[before] == scores[before]);
        assert forall|i: int| 0 <= i < scores.len() implies !better(
            (#[trigger] scores[i]).1,
            scores[best_index(scores)].1,
        ) by {
            if i < front.len() {
                assert(front[i] == scores[i]);
                assert(!better(front[i].1, front[before].1));
            }
        }
        assert forall|i: int| 0 <= i < best_index(scores) implies better(
            scores[best_index(scores)].1,
            (#[trigger] scores[i]).1,
        ) by {
            assert(front[i] == scores[i]);
            if i < before {
                assert(better(front[before].1, front[i].1));
            }
        }
    }
}

/// The position of the best candidate: the highest score wins, and among
/// equal scores the first.
pub fn best_candidate(scores: &Vec<(String, Score)>) -> (r: usize)
    requires
        scores@.len() > 0,
    ensures
        r == best_index(ratings(scores@)),
        r < scores@.len(),
{
    let mut best: usize = 0;
    let mut i: usize = 1;
    proof {
        assert(ratings(scores@).take(1).len() == 1);
    }
    while i < scores.len()
        invariant
            1 <= i <= scores@.len(),
            best < i,
            best == best_index(ratings(scores@).take(i as int)),
        decreases scores@.len() - i,
    {
        proof {
            let r = ratings(scores@);
            assert(r.take(i + 1).drop_last() == r.take(i as int));
            assert(r.take(i + 1).last() == r[i as int]);
            assert(r.take(i + 1)[best as int] == r[best as int]);
        }
        if scores[i].1.beats(&scores[best].1) {
            best = i;
        }
        i = i + 1;
    }
    proof {
        assert(ratings(scores@).take(scores@.len() as int) == ratings(scores@));
    }
    best
}

} // verus!
