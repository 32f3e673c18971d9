//! Whole-number scores: a node scores with the quantity of each of its
//! components, for or against it.
use crate::counts::{sum_counts, ComponentCounts};
use crate::delta::{demand_of, magnitude, Delta};
use crate::inventory::{has_node, GroupInventory, Nodes};
use crate::text::{contains_text, is_substring};
use vstd::prelude::*;

verus! {

/// Whether some component that `demand` names occurs in the name of
/// `component`.
pub open spec fn related(demand: Seq<(Seq<char>, int)>, component: Seq<char>) -> bool {
    exists|i: int| 0 <= i < demand.len() && is_substring((#[trigger] demand[i]).0, component)
}

/// What one component adds to the score of its node: its quantity, counted
/// against the node where the demand for the component is below the
/// quantity and the component is related to the demand.
pub open spec fn component_score(demand: Seq<(Seq<char>, int)>, component: Seq<char>, quantity: nat) -> int {
    if magnitude(demand_of(demand, component)) >= quantity {
        quantity as int
    } else if related(demand, component) {
        -(quantity as int)
    } else {
        quantity as int
    }
}

/// The score of a node: the sum over its components.
pub open spec fn node_score(node: Seq<(Seq<char>, nat)>, demand: Seq<(Seq<char>, int)>) -> int
    decreases node.len(),
{
    if node.len() == 0 {
        0
    } else {
        node_score(node.drop_last(), demand) + component_score(
            demand,
            node.last().0,
            node.last().1,
        )
    }
}

/// Each node, in order, with its score.
pub open spec fn node_scores(nodes: Nodes, demand: Seq<(Seq<char>, int)>) -> Seq<(Seq<char>, int)> {
    Seq::new(nodes.len(), |i: int| (nodes[i].0, node_score(nodes[i].1, demand)))
}

/// What a vector of scored nodes holds.
pub open spec fn scored(scores: Seq<(String, isize)>) -> Seq<(Seq<char>, int)> {
    Seq::new(scores.len(), |i: int| (scores[i].0@, scores[i].1 as int))
}

pub proof fn lemma_node_score_bound(node: Seq<(Seq<char>, nat)>, demand: Seq<(Seq<char>, int)>)
    ensures
        -sum_counts(node) <= node_score(node, demand) <= sum_counts(node),
    decreases node.len(),
{
    if node.len() > 0 {
        lemma_node_score_bound(node.drop_last(), demand);
    }
}

fn is_related(demand: &Delta, component: &str) -> (r: bool)
    ensures
        r == related(demand@, component@),
{
    let mut i: usize = 0;
    while i < demand.len()
        invariant
            i <= demand@.len(),
            forall|k: int| 0 <= k < i ==> !is_substring((#[trigger] demand@[k]).0, component@),
        decreases demand@.len() - i,
    {
        if contains_text(component, demand.key(i).as_str()) {
            return true;
        }
        i = i + 1;
    }
    false
}

/// Scores each node of a group with whole numbers.
pub fn calculate_hsm_hw_component_node_scores(inventory: &GroupInventory, demand: &Delta) -> (r:
    Vec<(String, isize)>)
    requires
        forall|i: int|
            0 <= i < inventory@.len() ==> sum_counts((#[trigger] inventory@[i]).1) <= isize::MAX,
    ensures
        scored(r@) == node_scores(inventory@, demand@),
{
    let mut out: Vec<(String, isize)> = Vec::new();
    let mut i: usize = 0;
    while i < inventory.len()
        invariant
            i <= inventory@.len(),
            out@.len() == i,
            forall|k: int|
                0 <= k < inventory@.len() ==> sum_counts((#[trigger] inventory@[k]).1)
                    <= isize::MAX,
            forall|k: int|
                0 <= k < i ==> (#[trigger] out@[k]).0@ == inventory@[k].0 && out@[k].1
                    == node_score(inventory@[k].1, demand@),
        decreases inventory@.len() - i,
    {
        let node: &ComponentCounts = inventory.counts(i);
        let mut score: isize = 0;
        let mut j: usize = 0;
        proof {
            assert(node@.take(0) == Seq::<(Seq<char>, nat)>::empty());
            assert(sum_counts(inventory@[i as int].1) <= isize::MAX);
        }
        while j < node.len()
            invariant
                j <= node@.len(),
                sum_counts(node@) <= isize::MAX,
                score == node_score(node@.take(j as int), demand@),
            decreases node@.len() - j,
        {
            let key: &String = node.key(j);
            let quantity: usize = node.quantity(j);
            proof {
                assert(node@.take(j + 1).drop_last() == node@.take(j as int));
                crate::counts::lemma_sum_prefix(node@, j + 1);
                lemma_node_score_bound(node@.take(j as int), demand@);
                lemma_node_score_bound(node@.take(j + 1), demand@);
            }
            let wanted: i128 = match demand.get(key.as_str()) {
                Some(q) => q,
                None => 0,
            };
            let amount: i128 = quantity as i128;
            let covered: bool = wanted <= -amount || wanted >= amount;
            if covered || !is_related(demand, key.as_str()) {
                score = score + quantity as isize;
            } else {
                score = score - quantity as isize;
            }
            j = j + 1;
        }
        proof {
            assert(node@.take(node@.len() as int) == node@);
        }
        out.push((inventory.id(i).clone(), score));
        i = i + 1;
    }
    assert(scored(out@) =~= node_scores(inventory@, demand@));
    out
}

/// How many of `scores` have a score of at least `score`.
pub open spec fn score_rank(scores: Seq<(Seq<char>, int)>, score: int) -> int
    decreases scores.len(),
{
    if scores.len() == 0 {
        0
    } else {
        score_rank(scores.drop_last(), score) + if scores.last().1 >= score {
            1int
        } else {
            0int
        }
    }
}

/// `scores` with the highest score first; among equal scores the order
/// stays.
pub open spec fn by_score(scores: Seq<(Seq<char>, int)>) -> Seq<(Seq<char>, int)>
    decreases scores.len(),
{
    if scores.len() == 0 {
        Seq::empty()
    } else {
        let before = by_score(scores.drop_last());
        before.insert(score_rank(before, scores.last().1), scores.last())
    }
}

/// No score is above one that precedes it.
pub open spec fn falling(scores: Seq<(Seq<char>, int)>) -> bool {
    forall|i: int, j: int| 0 <= i < j < scores.len() ==> scores[i].1 >= scores[j].1
}

pub proof fn lemma_score_rank(scores: Seq<(Seq<char>, int)>, score: int)
    requires
        falling(scores),
    ensures
        0 <= score_rank(scores, score) <= scores.len(),
        forall|i: int| 0 <= i < score_rank(scores, score) ==> (#[trigger] scores[i]).1 >= score,
        forall|i: int|
            score_rank(scores, score) <= i < scores.len() ==> (#[trigger] scores[i]).1 < score,
    decreases scores.len(),
{
    if scores.len() > 0 {
        let front = scores.drop_last();
        assert(falling(front)) by {
            assert forall|i: int, j: int| 0 <= i < j < front.len() implies front[i].1
                >= front[j].1 by {
                assert(front[i] == scores[i] && front[j] == scores[j]);
            }
        }
        lemma_score_rank(front, score);
        let r = score_rank(front, score);
        if scores.last().1 >= score {
            assert forall|i: int| 0 <= i < front.len() implies (#[trigger] scores[i]).1
                >= score by {
                assert(scores[i].1 >= scores[scores.len() - 1].1);
            }
            assert(r == front.len()) by {
                if r < front.len() {
                    assert(front[r].1 < score);
                    assert(front[r] == scores[r]);
                }
            }
        } else {
            assert forall|i: int| 0 <= i < r implies (#[trigger] scores[i]).1 >= score by {
                assert(front[i] == scores[i]);
            }
            assert forall|i: int| r <= i < scores.len() implies (#[trigger] scores[i]).1
                < score by {
                if i < front.len() {
                    assert(front[i] == scores[i]);
                }
            }
        }
    }
}

/// What `by_score` gives falls from score to score and holds what it was
/// given.
pub proof fn lemma_by_score(scores: Seq<(Seq<char>, int)>)
    ensures
        falling(by_score(scores)),
        by_score(scores).len() == scores.len(),
        by_score(scores).to_multiset() == scores.to_multiset(),
    decreases scores.len(),
{
    if scores.len() > 0 {
        let front = scores.drop_last();
        let before = by_score(front);
        let x = scores.last();
        lemma_by_score(front);
        lemma_score_rank(before, x.1);
        let r = score_rank(before, x.1);
        let out = before.insert(r, x);
        assert forall|i: int, j: int| 0 <= i < j < out.len() implies out[i].1 >= out[j].1 by {
            if j == r {
                assert(out[i] == before[i]);
            } else if i == r {
                assert(out[j] == before[j - 1]);
            } else {
                let a = if i < r {
                    i
                } else {
                    i - 1
                };
                let b = if j < r {
                    j
                } else {
                    j - 1
                };
                assert(out[i] == before[a] && out[j] == before[b]);
            }
        }
        vstd::seq_lib::to_multiset_insert(before, r, x);
        vstd::seq_lib::to_multiset_build(front, x);
        assert(scores == front.push(x));
    } else {
        assert(by_score(scores) =~= scores);
    }
}

/// The position of the first of the highest scores.
pub open spec fn first_highest(scores: Seq<(Seq<char>, int)>) -> int
    decreases scores.len(),
{
    if scores.len() <= 1 {
        0
    } else {
        let before = first_highest(scores.drop_last());
        if scores.last().1 > scores[before].1 {
            scores.len() - 1
        } else {
            before
        }
    }
}

/// The first of the highest is one: no score is above it, and none before
/// it equals it.
pub proof fn lemma_first_highest(scores: Seq<(Seq<char>, int)>)
    requires
        scores.len() > 0,
    ensures
        0 <= first_highest(scores) < scores.len(),
        forall|i: int|
            0 <= i < scores.len() ==> (#[trigger] scores[i]).1 <= scores[first_highest(scores)].1,
        forall|i: int|
            0 <= i < first_highest(scores) ==> (#[trigger] scores[i]).1 < scores[first_highest(
                scores,
            )].1,
    decreases scores.len(),
{
    if scores.len() > 1 {
        let front = scores.drop_last();
        lemma_first_highest(front);
        let before = first_highest(front);
        assert(front[before] == scores[before]);
        assert forall|i: int| 0 <= i < scores.len() implies (#[trigger] scores[i]).1
            <= scores[first_highest(scores)].1 by {
            if i < front.len() {
                assert(front[i] == scores[i]);
            }
        }
        assert forall|i: int| 0 <= i < first_highest(scores) implies (#[trigger] scores[i]).1
            < scores[first_highest(scores)].1 by {
            assert(front[i] == scores[i]);
        }
    }
}

/// Puts the highest score first, keeping the order among equal scores.
pub fn sort_by_score(scores: &mut Vec<(String, isize)>)
    ensures
        scored(final(scores)@) == by_score(scored(old(scores)@)),
{
    let mut out: Vec<(String, isize)> = Vec::new();
    let mut i: usize = 0;
    proof {
        assert(scored(scores@).take(0) == Seq::<(Seq<char>, int)>::empty());
        assert(scored(out@) =~= Seq::<(Seq<char>, int)>::empty());
    }
    while i < scores.len()
        invariant
            i <= scores@.len(),
            scores@ == old(scores)@,
            scored(out@) == by_score(scored(scores@).take(i as int)),
        decreases scores@.len() - i,
    {
        let ghost before = scored(out@);
        let score: isize = scores[i].1;
        proof {
            let t = scored(scores@);
            assert(t.take(i + 1).drop_last() == t.take(i as int));
            assert(t.take(i + 1).last() == (scores@[i as int].0@, score as int));
            lemma_by_score(t.take(i as int));
            lemma_score_rank(before, score as int);
        }
        let mut at: usize = 0;
        while at < out.len() && out[at].1 >= score
            invariant
                at <= out@.len(),
                scored(out@) == before,
                forall|k: int| 0 <= k < at ==> (#[trigger] before[k]).1 >= score,
            decreases out@.len() - at,
        {
            assert(before[at as int].1 == out@[at as int].1);
            at = at + 1;
        }
        proof {
            if at < out@.len() {
                assert(before[at as int].1 == out@[at as int].1);
            }
            assert(score_rank(before, score as int) == at) by {
                if score_rank(before, score as int) < at {
                    assert(before[score_rank(before, score as int)].1 >= score);
                } else if score_rank(before, score as int) > at {
                    assert(before[at as int].1 >= score);
                }
            }
        }
        out.insert(at, (scores[i].0.clone(), score));
        proof {
            assert(scored(out@) =~= before.insert(at as int, (scores@[i as int].0@, score as int)));
        }
        i = i + 1;
    }
    proof {
        assert(scored(scores@).take(scores@.len() as int) == scored(scores@));
    }
    *scores = out;
}

fn pick(scores: &Vec<(String, isize)>) -> (r: usize)
    requires
        scores@.len() > 0,
    ensures
        r == first_highest(scored(scores@)),
        r < scores@.len(),
{
    let mut best: usize = 0;
    let mut i: usize = 1;
    proof {
        assert(scored(scores@).take(1).len() == 1);
    }
    while i < scores.len()
        invariant
            1 <= i <= scores@.len(),
            best < i,
            best == first_highest(scored(scores@).take(i as int)),
        decreases scores@.len() - i,
    {
        proof {
            let t = scored(scores@);
            assert(t.take(i + 1).drop_last() == t.take(i as int));
            assert(t.take(i + 1).last() == t[i as int]);
            assert(t.take(i + 1)[best as int] == t[best as int]);
        }
        if scores[i].1 > scores[best].1 {
            best = i;
        }
        i = i + 1;
    }
    proof {
        assert(scored(scores@).take(scores@.len() as int) == scored(scores@));
    }
    best
}

/// Whether `best` is the first of the highest of `scores`: it is one of
/// them, no score is above its score, and no entry before it has its
/// score.
pub open spec fn is_first_highest(scores: Seq<(Seq<char>, int)>, best: (Seq<char>, int)) -> bool {
    exists|at: int|
        {
            &&& 0 <= at < scores.len()
            &&& #[trigger] scores[at] == best
            &&& forall|i: int| 0 <= i < scores.len() ==> (#[trigger] scores[i]).1 <= best.1
            &&& forall|i: int| 0 <= i < at ==> (#[trigger] scores[i]).1 < best.1
        }
}

fn candidate(scores: &mut Vec<(String, isize)>, inventory: &GroupInventory) -> (r: (
    (String, isize),
    ComponentCounts,
))
    requires
        old(scores)@.len() > 0,
        has_node(inventory@, scored(old(scores)@)[first_highest(scored(old(scores)@))].0),
    ensures
        scored(final(scores)@) == by_score(scored(old(scores)@)),
        (r.0.0@, r.0.1 as int) == scored(old(scores)@)[first_highest(scored(old(scores)@))],
        is_first_highest(scored(old(scores)@), (r.0.0@, r.0.1 as int)),
        exists|i: int|
            0 <= i < inventory@.len() && (#[trigger] inventory@[i]).0 == r.0.0@ && inventory@[i].1
                == r.1@,
{
    let at: usize = pick(scores);
    let best: (String, isize) = (scores[at].0.clone(), scores[at].1);
    proof {
        lemma_first_highest(scored(scores@));
        assert(scored(scores@)[at as int] == (best.0@, best.1 as int));
    }
    sort_by_score(scores);
    let counters: ComponentCounts = match inventory.position(best.0.as_str()) {
        Some(found) => inventory.counts(found).duplicate(),
        None => ComponentCounts::new(),
    };
    (best, counters)
}

/// The candidate to leave the target: the first of those with the highest
/// score, and its counters. The scores are put in order, the highest
/// first.
pub fn get_best_candidate_to_downscale_migrate(
    target_hsm_score_vec: &mut Vec<(String, isize)>,
    target_hsm_hw_component_vec: &GroupInventory,
) -> (r: ((String, isize), ComponentCounts))
    requires
        old(target_hsm_score_vec)@.len() > 0,
        has_node(
            target_hsm_hw_component_vec@,
            scored(old(target_hsm_score_vec)@)[first_highest(
                scored(old(target_hsm_score_vec)@),
            )].0,
        ),
    ensures
        scored(final(target_hsm_score_vec)@) == by_score(scored(old(target_hsm_score_vec)@)),
        (r.0.0@, r.0.1 as int) == scored(old(target_hsm_score_vec)@)[first_highest(
            scored(old(target_hsm_score_vec)@),
        )],
        is_first_highest(scored(old(target_hsm_score_vec)@), (r.0.0@, r.0.1 as int)),
        exists|i: int|
            0 <= i < target_hsm_hw_component_vec@.len() && (
            #[trigger] target_hsm_hw_component_vec@[i]).0 == r.0.0@
                && target_hsm_hw_component_vec@[i].1 == r.1@,
{
    candidate(target_hsm_score_vec, target_hsm_hw_component_vec)
}

/// The candidate to enter the target: the first of those with the highest
/// score, and its counters. The scores are put in order, the highest
/// first.
pub fn get_best_candidate_to_upscale_migrate(
    parent_hsm_score_vec: &mut Vec<(String, isize)>,
    parent_hsm_hw_component_vec: &GroupInventory,
) -> (r: ((String, isize), ComponentCounts))
    requires
        old(parent_hsm_score_vec)@.len() > 0,
        has_node(
            parent_hsm_hw_component_vec@,
            scored(old(parent_hsm_score_vec)@)[first_highest(
                scored(old(parent_hsm_score_vec)@),
            )].0,
        ),
    ensures
        scored(final(parent_hsm_score_vec)@) == by_score(scored(old(parent_hsm_score_vec)@)),
        (r.0.0@, r.0.1 as int) == scored(old(parent_hsm_score_vec)@)[first_highest(
            scored(old(parent_hsm_score_vec)@),
        )],
        is_first_highest(scored(old(parent_hsm_score_vec)@), (r.0.0@, r.0.1 as int)),
        exists|i: int|
            0 <= i < parent_hsm_hw_component_vec@.len() && (
            #[trigger] parent_hsm_hw_component_vec@[i]).0 == r.0.0@
                && parent_hsm_hw_component_vec@[i].1 == r.1@,
{
    candidate(parent_hsm_score_vec, parent_hsm_hw_component_vec)
}

} // verus!
