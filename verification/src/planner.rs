//! The planner: which nodes leave the target, which enter it, and the two
//! memberships that result.
use crate::aggregate::{
    calculate_hsm_hw_component_count, calculate_hsm_total_number_hw_components, component_total,
    filtered_totals, get_hsm_hw_component_count_filtered_by_user_request, occurs, totals,
};
use crate::counts::{count_of, has_key, keys_of, with_entry, ComponentCounts};
use crate::delta::{
    calculate_all_deltas, keep_iterating_downscale, keep_iterating_upscale, outstanding,
    overshoots, settled, shortfalls, surpluses, touches,
    update_user_defined_hw_component_counters, Delta,
};
use crate::laws::{
    lemma_insufficient_names_shortage, lemma_moves_bounded, lemma_occurs_merged,
    lemma_plan_conserves, lemma_plan_equilibrium, lemma_plan_satisfies, lemma_planned_iff_enough,
    returned,
};
use crate::inventory::{
    counts_wf, disjoint, grand_total, lemma_merged, lemma_remove_totals, lemma_sorted_ids_distinct,
    lemma_total_le_grand, merged, node_views, GroupInventory, Nodes,
};
use crate::score::{
    best_candidate, best_index, calculate_hsm_hw_component_normalized_node_density_score_downscale,
    calculate_hsm_hw_component_normalized_node_density_score_upscale, downscale_scores,
    upscale_scores, ScarcityWeights, Shares,
};
use crate::text::{join_with, joined_by, texts};
use vstd::string::*;
use vstd::prelude::*;

verus! {

/// Why no plan was made.
#[derive(Clone, Debug, PartialEq, Eq)]
pub enum PlanError {
    /// The pattern does not follow the syntax.
    MalformedPattern,
    /// Both groups together hold less of a component than was asked for.
    InsufficientCapacity { component: String, requested: usize, available: usize },
}

/// The new memberships.
#[derive(Clone, Debug)]
pub struct Plan {
    pub target: GroupInventory,
    pub parent: GroupInventory,
}

/// A plan with the names of its groups.
#[derive(Clone, Debug)]
pub struct PlanLayout {
    pub target_group: String,
    pub target_members: Vec<String>,
    pub parent_group: String,
    pub parent_members: Vec<String>,
}

/// Of one component, what was asked for and what the new target holds.
#[derive(Clone, Debug)]
pub struct CountReport {
    pub component: String,
    pub requested: usize,
    pub held: usize,
}

/// One line of a printed plan: the group, the word `members` and the
/// identifiers with commas between them.
pub open spec fn members_line(group: Seq<char>, members: Seq<Seq<char>>) -> Seq<char> {
    group + " members: "@ + joined_by(members, ","@)
}

/// Writes the members of a group in one line.
pub fn render_members(group: &str, members: &Vec<String>) -> (r: String)
    ensures
        r@ == members_line(group@, texts(members@)),
{
    let mut out: String = group.to_owned();
    out.append(" members: ");
    let list: String = join_with(members, ",");
    out.append(list.as_str());
    out
}

impl Plan {
    /// The plan in two lines: the members of the target, then those of
    /// the pool.
    pub fn render(&self, target_group: &str, parent_group: &str) -> (r: String)
        ensures
            r@ == members_line(target_group@, crate::inventory::ids_of(self.target@)) + "\n"@
                + members_line(parent_group@, crate::inventory::ids_of(self.parent@)),
    {
        let mut out: String = render_members(target_group, &self.target.ids());
        out.append("\n");
        let second: String = render_members(parent_group, &self.parent.ids());
        out.append(second.as_str());
        out
    }

    /// The plan with the names of its groups.
    pub fn layout(&self, target_group: &str, parent_group: &str) -> (r: PlanLayout)
        ensures
            r.target_group@ == target_group@,
            r.parent_group@ == parent_group@,
            texts(r.target_members@) == crate::inventory::ids_of(self.target@),
            texts(r.parent_members@) == crate::inventory::ids_of(self.parent@),
    {
        PlanLayout {
            target_group: target_group.to_owned(),
            target_members: self.target.ids(),
            parent_group: parent_group.to_owned(),
            parent_members: self.parent.ids(),
        }
    }

    /// For each component of the request, in order, what was asked for and
    /// what the new target holds.
    pub fn report(&self, desired: &ComponentCounts) -> (r: Vec<CountReport>)
        requires
            grand_total(self.target@) <= usize::MAX,
        ensures
            r@.len() == desired@.len(),
            forall|i: int|
                0 <= i < r@.len() ==> (#[trigger] r@[i]).component@ == desired@[i].0
                    && r@[i].requested == desired@[i].1 && r@[i].held
                    == crate::inventory::total_of(self.target@, desired@[i].0),
    {
        let mut out: Vec<CountReport> = Vec::new();
        let mut i: usize = 0;
        while i < desired.len()
            invariant
                i <= desired@.len(),
                out@.len() == i,
                grand_total(self.target@) <= usize::MAX,
                forall|k: int|
                    0 <= k < i ==> (#[trigger] out@[k]).component@ == desired@[k].0
                        && out@[k].requested == desired@[k].1 && out@[k].held
                        == crate::inventory::total_of(self.target@, desired@[k].0),
            decreases desired@.len() - i,
        {
            proof {
                lemma_total_le_grand(self.target@, desired@[i as int].0);
            }
            let held: usize = component_total(&self.target, desired.key(i).as_str());
            out.push(
                CountReport {
                    component: desired.key(i).clone(),
                    requested: desired.quantity(i),
                    held,
                },
            );
            i = i + 1;
        }
        out
    }

    /// The identifiers of the new members of the target, sorted.
    pub fn target_members(&self) -> (r: Vec<String>)
        ensures
            texts(r@) == crate::inventory::ids_of(self.target@),
    {
        self.target.ids()
    }

    /// The identifiers of the new members of the pool, sorted.
    pub fn parent_members(&self) -> (r: Vec<String>)
        ensures
            texts(r@) == crate::inventory::ids_of(self.parent@),
    {
        self.parent.ids()
    }
}

/// The way a node goes.
#[derive(Clone, Copy, Debug, PartialEq, Eq, Structural)]
pub enum Direction {
    /// From the target to the pool.
    OutOfTarget,
    /// From the pool to the target.
    IntoTarget,
}

/// One move of a plan.
#[derive(Clone, Debug)]
pub struct Move {
    pub direction: Direction,
    pub node: String,
}

/// What a vector of moves holds.
pub open spec fn move_views(moves: Seq<Move>) -> Seq<(Direction, Seq<char>)> {
    Seq::new(moves.len(), |i: int| (moves[i].direction, moves[i].node@))
}

/// The moves of `nodes`, in order, all in one direction.
pub open spec fn marked(nodes: Nodes, direction: Direction) -> Seq<(Direction, Seq<char>)> {
    Seq::new(nodes.len(), |i: int| (direction, nodes[i].0))
}

/// What a plan comes to.
pub enum Outcome {
    Planned { target: Nodes, parent: Nodes },
    Insufficient { component: Seq<char>, requested: nat, available: nat },
}

/// The entries of `desired` whose component `totals` names.
pub open spec fn known(desired: Seq<(Seq<char>, nat)>, totals: Seq<(Seq<char>, nat)>) -> Seq<
    (Seq<char>, nat),
>
    decreases desired.len(),
{
    if desired.len() == 0 {
        Seq::empty()
    } else {
        let rest = known(desired.drop_last(), totals);
        if has_key(totals, desired.last().0) {
            with_entry(rest, desired.last().0, desired.last().1)
        } else {
            rest
        }
    }
}

/// The position of the first entry of `wanted` of which `totals` holds
/// less, or -1.
pub open spec fn first_short(wanted: Seq<(Seq<char>, nat)>, totals: Seq<(Seq<char>, nat)>) -> int
    decreases wanted.len(),
{
    if wanted.len() == 0 {
        -1
    } else {
        let before = first_short(wanted.drop_last(), totals);
        if before >= 0 {
            before
        } else if count_of(totals, wanted.last().0) < wanted.last().1 {
            wanted.len() - 1
        } else {
            -1
        }
    }
}

/// `base` with an entry for each component of `held` that `wanted` does not
/// name and of which `held` has any: the whole quantity, written negative.
pub open spec fn unrequested(
    base: Seq<(Seq<char>, int)>,
    wanted: Seq<(Seq<char>, nat)>,
    held: Seq<(Seq<char>, nat)>,
) -> Seq<(Seq<char>, int)>
    decreases held.len(),
{
    if held.len() == 0 {
        base
    } else {
        let rest = unrequested(base, wanted, held.drop_last());
        if !has_key(wanted, held.last().0) && held.last().1 > 0 {
            with_entry(rest, held.last().0, -(held.last().1 as int))
        } else {
            rest
        }
    }
}

/// What is to leave the target: what it holds beyond the request, and all
/// that was not asked for.
pub open spec fn removal_demand(wanted: Seq<(Seq<char>, nat)>, target: Nodes) -> Seq<
    (Seq<char>, int),
> {
    unrequested(
        surpluses(wanted, filtered_totals(keys_of(wanted), target)),
        wanted,
        totals(target),
    )
}

/// What is to enter the target: what it holds less than the request.
pub open spec fn addition_demand(wanted: Seq<(Seq<char>, nat)>, target: Nodes) -> Seq<
    (Seq<char>, int),
> {
    shortfalls(wanted, filtered_totals(keys_of(wanted), target))
}

/// The nodes that stay in the target and, in the order of their leaving,
/// those that leave it.
pub open spec fn downscale(
    candidates: Nodes,
    demand: Seq<(Seq<char>, int)>,
    wanted: Seq<(Seq<char>, nat)>,
    weights: Shares,
) -> (Nodes, Nodes)
    decreases candidates.len(),
{
    if candidates.len() == 0 {
        (candidates, Seq::empty())
    } else {
        let held = filtered_totals(keys_of(wanted), candidates);
        let best = best_index(downscale_scores(candidates, demand, wanted, weights, held));
        let node = candidates[best];
        if 0 <= best < candidates.len() && touches(demand, node.1) && !overshoots(demand, node.1) {
            let rest = downscale(candidates.remove(best), settled(demand, node.1), wanted, weights);
            (rest.0, seq![node] + rest.1)
        } else {
            (candidates, Seq::empty())
        }
    }
}

/// The nodes that stay in the pool and, in the order of their entering,
/// those that enter the target.
pub open spec fn upscale(candidates: Nodes, demand: Seq<(Seq<char>, int)>, weights: Shares) -> (
    Nodes,
    Nodes,
)
    decreases candidates.len(),
{
    if candidates.len() == 0 || !outstanding(demand) {
        (candidates, Seq::empty())
    } else {
        let best = best_index(upscale_scores(candidates, demand, weights));
        let node = candidates[best];
        if 0 <= best < candidates.len() {
            let rest = upscale(candidates.remove(best), settled(demand, node.1), weights);
            (rest.0, seq![node] + rest.1)
        } else {
            (candidates, Seq::empty())
        }
    }
}

/// The weights that the nodes of both groups give.
pub open spec fn union_weights(union: Nodes) -> Shares {
    Shares { shares: totals(union), total: grand_total(union) }
}

/// The request without the components that occur in neither group.
pub open spec fn request_of(desired: Seq<(Seq<char>, nat)>, target: Nodes, parent: Nodes) -> Seq<
    (Seq<char>, nat),
> {
    known(desired, totals(merged(target, parent)))
}

/// The nodes that stay in the target and those that leave it.
pub open spec fn leaving(desired: Seq<(Seq<char>, nat)>, target: Nodes, parent: Nodes) -> (
    Nodes,
    Nodes,
) {
    downscale(
        target,
        removal_demand(request_of(desired, target, parent), target),
        request_of(desired, target, parent),
        union_weights(merged(target, parent)),
    )
}

/// The nodes that stay in the pool and those that enter the target. The
/// nodes that left the target are candidates again.
pub open spec fn entering(desired: Seq<(Seq<char>, nat)>, target: Nodes, parent: Nodes) -> (
    Nodes,
    Nodes,
) {
    upscale(
        merged(parent, leaving(desired, target, parent).1),
        addition_demand(request_of(desired, target, parent), leaving(desired, target, parent).0),
        union_weights(merged(target, parent)),
    )
}

/// The moves of a plan, in order: first those out of the target, then
/// those into it.
pub open spec fn plan_moves(desired: Seq<(Seq<char>, nat)>, target: Nodes, parent: Nodes) -> Seq<
    (Direction, Seq<char>),
> {
    marked(leaving(desired, target, parent).1, Direction::OutOfTarget) + marked(
        entering(desired, target, parent).1,
        Direction::IntoTarget,
    )
}

/// The plan for a request and two groups.
pub open spec fn plan_outcome(desired: Seq<(Seq<char>, nat)>, target: Nodes, parent: Nodes) -> Outcome {
    let held = totals(merged(target, parent));
    let wanted = request_of(desired, target, parent);
    let short = first_short(wanted, held);
    if short >= 0 {
        Outcome::Insufficient {
            component: wanted[short].0,
            requested: wanted[short].1,
            available: count_of(held, wanted[short].0),
        }
    } else {
        Outcome::Planned {
            target: merged(
                leaving(desired, target, parent).0,
                entering(desired, target, parent).1,
            ),
            parent: entering(desired, target, parent).0,
        }
    }
}

/// The request without the components that occur in neither group.
pub fn retain_known(desired: &ComponentCounts, totals: &ComponentCounts) -> (r: ComponentCounts)
    ensures
        r@ == known(desired@, totals@),
        r.wf(),
{
    let mut out = ComponentCounts::new();
    let mut i: usize = 0;
    proof {
        assert(desired@.take(0) == Seq::<(Seq<char>, nat)>::empty());
    }
    while i < desired.len()
        invariant
            i <= desired@.len(),
            out.wf(),
            out@ == known(desired@.take(i as int), totals@),
        decreases desired@.len() - i,
    {
        proof {
            assert(desired@.take(i + 1).drop_last() == desired@.take(i as int));
        }
        if totals.contains_key(desired.key(i).as_str()) {
            out.insert(desired.key(i).clone(), desired.quantity(i));
        }
        i = i + 1;
    }
    proof {
        assert(desired@.take(desired@.len() as int) == desired@);
    }
    out
}

/// The first component of which both groups together hold less than was
/// asked for.
pub fn check_capacity(wanted: &ComponentCounts, totals: &ComponentCounts) -> (r: Result<
    (),
    PlanError,
>)
    ensures
        match r {
            Ok(_) => first_short(wanted@, totals@) < 0,
            Err(PlanError::InsufficientCapacity { component, requested, available }) => {
                let at = first_short(wanted@, totals@);
                &&& 0 <= at < wanted@.len()
                &&& component@ == wanted@[at].0
                &&& requested == wanted@[at].1
                &&& available == count_of(totals@, wanted@[at].0)
            },
            Err(PlanError::MalformedPattern) => false,
        },
{
    let mut i: usize = 0;
    proof {
        assert(wanted@.take(0) == Seq::<(Seq<char>, nat)>::empty());
    }
    while i < wanted.len()
        invariant
            i <= wanted@.len(),
            first_short(wanted@.take(i as int), totals@) < 0,
        decreases wanted@.len() - i,
    {
        let available: usize = totals.count(wanted.key(i).as_str());
        proof {
            assert(wanted@.take(i + 1).drop_last() == wanted@.take(i as int));
        }
        if available < wanted.quantity(i) {
            proof {
                lemma_first_short_prefix(wanted@, totals@, i + 1);
            }
            return Err(
                PlanError::InsufficientCapacity {
                    component: wanted.key(i).clone(),
                    requested: wanted.quantity(i),
                    available,
                },
            );
        }
        i = i + 1;
    }
    proof {
        assert(wanted@.take(wanted@.len() as int) == wanted@);
    }
    Ok(())
}

/// A shortage found in a prefix is the first of the whole.
pub proof fn lemma_first_short_prefix(
    wanted: Seq<(Seq<char>, nat)>,
    totals: Seq<(Seq<char>, nat)>,
    n: int,
)
    requires
        0 <= n <= wanted.len(),
        first_short(wanted.take(n), totals) >= 0,
    ensures
        first_short(wanted, totals) == first_short(wanted.take(n), totals),
    decreases wanted.len(),
{
    if n == wanted.len() {
        assert(wanted.take(n) == wanted);
    } else {
        assert(wanted.drop_last().take(n) == wanted.take(n));
        lemma_first_short_prefix(wanted.drop_last(), totals, n);
    }
}

/// Adds to `demand` all that the target holds and that was not asked for.
pub fn add_unrequested(demand: Delta, wanted: &ComponentCounts, held: &ComponentCounts) -> (r:
    Delta)
    requires
        demand.wf(),
    ensures
        r@ == unrequested(demand@, wanted@, held@),
        r.wf(),
{
    let mut out = demand;
    let mut i: usize = 0;
    proof {
        assert(held@.take(0) == Seq::<(Seq<char>, nat)>::empty());
    }
    while i < held.len()
        invariant
            i <= held@.len(),
            out.wf(),
            out@ == unrequested(demand@, wanted@, held@.take(i as int)),
        decreases held@.len() - i,
    {
        proof {
            assert(held@.take(i + 1).drop_last() == held@.take(i as int));
        }
        let quantity: usize = held.quantity(i);
        if !wanted.contains_key(held.key(i).as_str()) && quantity > 0 {
            out.insert(held.key(i).clone(), -(quantity as i128));
        }
        i = i + 1;
    }
    proof {
        assert(held@.take(held@.len() as int) == held@);
    }
    out
}

/// Takes nodes out of the target for as long as the best candidate carries
/// something that is to leave and nothing beyond what is to leave. Returns
/// the nodes taken out, in that order; `target` keeps the others, so no
/// more nodes leave than the target held.
pub fn downscale_node_migration(
    wanted: &ComponentCounts,
    target: &mut GroupInventory,
    demand: Delta,
    weights: &ScarcityWeights,
) -> (r: Vec<(String, ComponentCounts)>)
    requires
        old(target).wf(),
        grand_total(old(target)@) <= usize::MAX,
    ensures
        (final(target)@, node_views(r@)) == downscale(old(target)@, demand@, wanted@, weights@),
        final(target).wf(),
        counts_wf(node_views(r@)),
        grand_total(final(target)@) <= grand_total(old(target)@),
        final(target)@.len() + r@.len() == old(target)@.len(),
{
    let mut moved: Vec<(String, ComponentCounts)> = Vec::new();
    let mut demand = demand;
    let keys: Vec<String> = wanted.keys();
    let ghost start = downscale(target@, demand@, wanted@, weights@);
    proof {
        assert(node_views(moved@) =~= Seq::empty());
        assert(node_views(moved@) + start.1 =~= start.1);
    }
    loop
        invariant
            target.wf(),
            grand_total(target@) <= grand_total(old(target)@),
            grand_total(old(target)@) <= usize::MAX,
            target@.len() + moved@.len() == old(target)@.len(),
            texts(keys@) == keys_of(wanted@),
            counts_wf(node_views(moved@)),
            start.0 == downscale(target@, demand@, wanted@, weights@).0,
            start.1 == node_views(moved@) + downscale(target@, demand@, wanted@, weights@).1,
        ensures
            start == (target@, node_views(moved@)),
        decreases target@.len(),
    {
        if target.len() == 0 {
            proof {
                assert(node_views(moved@) + Seq::empty() =~= node_views(moved@));
            }
            break ;
        }
        proof {
            assert forall|i: int| 0 <= i < keys@.len() implies crate::inventory::total_of(
                target@,
                (#[trigger] keys@[i])@,
            ) <= usize::MAX by {
                lemma_total_le_grand(target@, keys@[i]@);
            }
        }
        let held: ComponentCounts = get_hsm_hw_component_count_filtered_by_user_request(
            &keys,
            target,
        );
        let scores: Vec<(String, crate::score::Score)> =
            calculate_hsm_hw_component_normalized_node_density_score_downscale(
            target,
            &demand,
            wanted,
            weights,
            &held,
        );
        let best: usize = best_candidate(&scores);
        if !keep_iterating_downscale(&demand, target.counts(best)) {
            proof {
                assert(node_views(moved@) + Seq::empty() =~= node_views(moved@));
            }
            break ;
        }
        let ghost before = target@;
        let ghost view_before = node_views(moved@);
        proof {
            lemma_remove_totals(before, best as int, Seq::empty());
        }
        let node: (String, ComponentCounts) = target.remove(best);
        demand = update_user_defined_hw_component_counters(&demand, &node.1);
        moved.push(node);
        proof {
            let rest = downscale(target@, demand@, wanted@, weights@);
            assert(node_views(moved@) =~= view_before.push(before[best as int]));
            assert(node_views(moved@) + rest.1 =~= view_before + (seq![before[best as int]]
                + rest.1));
            assert forall|i: int| 0 <= i < node_views(moved@).len() implies crate::counts::keys_distinct(
                (#[trigger] node_views(moved@)[i]).1,
            ) by {
                if i < view_before.len() {
                    assert(node_views(moved@)[i] == view_before[i]);
                }
            }
        }
    }
    moved
}

/// Takes nodes out of the pool, the best candidate first, for as long as
/// some component is still in demand. Returns the nodes taken out, in that
/// order; `candidates` keeps the others, so no more nodes enter the target
/// than there were candidates.
pub fn upscale_node_migration(
    candidates: &mut GroupInventory,
    demand: Delta,
    weights: &ScarcityWeights,
) -> (r: Vec<(String, ComponentCounts)>)
    requires
        old(candidates).wf(),
    ensures
        (final(candidates)@, node_views(r@)) == upscale(old(candidates)@, demand@, weights@),
        final(candidates).wf(),
        counts_wf(node_views(r@)),
        final(candidates)@.len() + r@.len() == old(candidates)@.len(),
{
    let mut moved: Vec<(String, ComponentCounts)> = Vec::new();
    let mut demand = demand;
    let ghost start = upscale(candidates@, demand@, weights@);
    proof {
        assert(node_views(moved@) =~= Seq::empty());
        assert(node_views(moved@) + start.1 =~= start.1);
    }
    loop
        invariant
            candidates.wf(),
            counts_wf(node_views(moved@)),
            candidates@.len() + moved@.len() == old(candidates)@.len(),
            start.0 == upscale(candidates@, demand@, weights@).0,
            start.1 == node_views(moved@) + upscale(candidates@, demand@, weights@).1,
        ensures
            start == (candidates@, node_views(moved@)),
        decreases candidates@.len(),
    {
        if candidates.len() == 0 || !keep_iterating_upscale(&demand) {
            proof {
                assert(node_views(moved@) + Seq::empty() =~= node_views(moved@));
            }
            break ;
        }
        let scores: Vec<(String, crate::score::Score)> =
            calculate_hsm_hw_component_normalized_node_density_score_upscale(
            candidates,
            &demand,
            weights,
        );
        let best: usize = best_candidate(&scores);
        let ghost before = candidates@;
        let ghost view_before = node_views(moved@);
        let node: (String, ComponentCounts) = candidates.remove(best);
        demand = update_user_defined_hw_component_counters(&demand, &node.1);
        moved.push(node);
        proof {
            let rest = upscale(candidates@, demand@, weights@);
            assert(node_views(moved@) =~= view_before.push(before[best as int]));
            assert(node_views(moved@) + rest.1 =~= view_before + (seq![before[best as int]]
                + rest.1));
            assert forall|i: int| 0 <= i < node_views(moved@).len() implies crate::counts::keys_distinct(
                (#[trigger] node_views(moved@)[i]).1,
            ) by {
                if i < view_before.len() {
                    assert(node_views(moved@)[i] == view_before[i]);
                }
            }
        }
    }
    moved
}

/// Appends to `moves` one move for each of `nodes`.
fn record(moves: &mut Vec<Move>, nodes: &Vec<(String, ComponentCounts)>, direction: Direction)
    ensures
        move_views(final(moves)@) == move_views(old(moves)@) + marked(node_views(nodes@), direction),
{
    let mut i: usize = 0;
    proof {
        assert(move_views(moves@) =~= move_views(old(moves)@) + marked(
            node_views(nodes@),
            direction,
        ).take(0));
    }
    while i < nodes.len()
        invariant
            i <= nodes@.len(),
            move_views(moves@) == move_views(old(moves)@) + marked(
                node_views(nodes@),
                direction,
            ).take(i as int),
        decreases nodes@.len() - i,
    {
        let ghost before = move_views(moves@);
        moves.push(Move { direction, node: nodes[i].0.clone() });
        proof {
            let all = marked(node_views(nodes@), direction);
            assert(move_views(moves@) =~= before.push(all[i as int]));
            assert(all.take(i + 1) =~= all.take(i as int).push(all[i as int]));
            assert(move_views(moves@) =~= move_views(old(moves)@) + all.take(i + 1));
        }
        i = i + 1;
    }
    proof {
        let all = marked(node_views(nodes@), direction);
        assert(all.take(nodes@.len() as int) == all);
    }
}

/// Plans the new memberships and keeps the record of the moves.
pub fn plan_with_moves(
    desired: &ComponentCounts,
    target: &GroupInventory,
    parent: &GroupInventory,
) -> (r: Result<(Plan, Vec<Move>), PlanError>)
    requires
        target.wf(),
        parent.wf(),
        disjoint(target@, parent@),
        grand_total(target@) + grand_total(parent@) <= usize::MAX,
    ensures
        match r {
            Ok(p) => plan_outcome(desired@, target@, parent@) == (Outcome::Planned {
                target: p.0.target@,
                parent: p.0.parent@,
            }) && p.0.target.wf() && p.0.parent.wf() && move_views(p.1@) == plan_moves(
                desired@,
                target@,
                parent@,
            ) && p.1@.len() <= target@.len() + parent@.len() + returned(
                leaving(desired@, target@, parent@).1,
                entering(desired@, target@, parent@).1,
            ),
            Err(PlanError::InsufficientCapacity { component, requested, available }) => plan_outcome(
                desired@,
                target@,
                parent@,
            ) == (Outcome::Insufficient {
                component: component@,
                requested: requested as nat,
                available: available as nat,
            }),
            Err(PlanError::MalformedPattern) => false,
        },
{
    let mut union: GroupInventory = target.duplicate();
    union.absorb(parent);
    proof {
        lemma_sorted_ids_distinct(parent@);
        lemma_merged(target@, parent@);
        assert forall|key: Seq<char>| #[trigger]
            crate::inventory::total_of(union@, key) <= usize::MAX by {
            lemma_total_le_grand(union@, key);
        }
        assert forall|key: Seq<char>| #[trigger]
            crate::inventory::total_of(target@, key) <= usize::MAX by {
            lemma_total_le_grand(target@, key);
        }
    }
    let union_totals: ComponentCounts = calculate_hsm_hw_component_count(&union);
    let total: usize = calculate_hsm_total_number_hw_components(&union);
    let weights: ScarcityWeights = ScarcityWeights::new(union_totals.duplicate(), total);
    let wanted: ComponentCounts = retain_known(desired, &union_totals);
    match check_capacity(&wanted, &union_totals) {
        Err(e) => {
            return Err(e);
        },
        Ok(_) => {},
    }
    let keys: Vec<String> = wanted.keys();
    proof {
        assert forall|i: int| 0 <= i < keys@.len() implies crate::inventory::total_of(
            target@,
            (#[trigger] keys@[i])@,
        ) <= usize::MAX by {
            lemma_total_le_grand(target@, keys@[i]@);
        }
    }
    let held: ComponentCounts = get_hsm_hw_component_count_filtered_by_user_request(&keys, target);
    let all_held: ComponentCounts = calculate_hsm_hw_component_count(target);
    let deltas: (Delta, Delta) = calculate_all_deltas(&wanted, &held);
    let to_remove: Delta = add_unrequested(deltas.0, &wanted, &all_held);
    let mut remaining: GroupInventory = target.duplicate();
    let moved_out: Vec<(String, ComponentCounts)> = downscale_node_migration(
        &wanted,
        &mut remaining,
        to_remove,
        &weights,
    );
    let mut candidates: GroupInventory = parent.duplicate();
    candidates.absorb_nodes(&moved_out);
    proof {
        assert forall|i: int| 0 <= i < keys@.len() implies crate::inventory::total_of(
            remaining@,
            (#[trigger] keys@[i])@,
        ) <= usize::MAX by {
            lemma_total_le_grand(remaining@, keys@[i]@);
        }
    }
    let still_held: ComponentCounts = get_hsm_hw_component_count_filtered_by_user_request(
        &keys,
        &remaining,
    );
    let to_add: (Delta, Delta) = calculate_all_deltas(&wanted, &still_held);
    let moved_in: Vec<(String, ComponentCounts)> = upscale_node_migration(
        &mut candidates,
        to_add.1,
        &weights,
    );
    remaining.absorb_nodes(&moved_in);
    let mut moves: Vec<Move> = Vec::new();
    record(&mut moves, &moved_out, Direction::OutOfTarget);
    record(&mut moves, &moved_in, Direction::IntoTarget);
    proof {
        assert(move_views(moves@) =~= plan_moves(desired@, target@, parent@));
        lemma_moves_bounded(desired@, target@, parent@);
    }
    Ok((Plan { target: remaining, parent: candidates }, moves))
}

/// Plans the new memberships of a target group and of the pool it draws
/// on, for the counts of components that the target is to hold.
///
/// A component that occurs in neither group is left out of the request.
/// Where both groups together hold less of a component than was asked for,
/// no plan is made, and the first such component of the request is named.
/// Otherwise nodes first leave the target, then nodes of the pool, and
/// those that left, enter it. The plan keeps every node, each in one
/// group, both groups sorted, and the new target holds of every component
/// that occurs at least what was asked for. Where the target holds of
/// every component that occurs just what was asked for, and so nothing of
/// any other, both groups stay as they are.
pub fn plan(desired: &ComponentCounts, target: &GroupInventory, parent: &GroupInventory) -> (r:
    Result<Plan, PlanError>)
    requires
        target.wf(),
        parent.wf(),
        disjoint(target@, parent@),
        grand_total(target@) + grand_total(parent@) <= usize::MAX,
    ensures
        match r {
            Ok(p) => {
                &&& plan_outcome(desired@, target@, parent@) == (Outcome::Planned {
                    target: p.target@,
                    parent: p.parent@,
                })
                &&& p.target.wf()
                &&& p.parent.wf()
                &&& disjoint(p.target@, p.parent@)
                &&& p.target@.len() + p.parent@.len() == target@.len() + parent@.len()
                &&& forall|n: (Seq<char>, Seq<(Seq<char>, nat)>)|
                    #![trigger p.target@.contains(n)]
                    #![trigger p.parent@.contains(n)]
                    #![trigger target@.contains(n)]
                    #![trigger parent@.contains(n)]
                    p.target@.contains(n) || p.parent@.contains(n) <==> target@.contains(n)
                        || parent@.contains(n)
                &&& forall|key: Seq<char>|
                    occurs(target@, key) || occurs(parent@, key) ==> #[trigger] crate::inventory::total_of(
                        p.target@,
                        key,
                    ) >= count_of(desired@, key)
            },
            Err(PlanError::InsufficientCapacity { component, requested, available }) => {
                &&& plan_outcome(desired@, target@, parent@) == (Outcome::Insufficient {
                    component: component@,
                    requested: requested as nat,
                    available: available as nat,
                })
                &&& occurs(target@, component@) || occurs(parent@, component@)
                &&& requested == count_of(desired@, component@)
                &&& available == crate::inventory::total_of(target@, component@)
                    + crate::inventory::total_of(parent@, component@)
                &&& requested > available
            },
            Err(PlanError::MalformedPattern) => false,
        },
        r is Ok <==> forall|key: Seq<char>|
            occurs(target@, key) || occurs(parent@, key) ==> count_of(desired@, key)
                <= #[trigger] crate::inventory::total_of(target@, key)
                + crate::inventory::total_of(parent@, key),
        (forall|key: Seq<char>|
            occurs(target@, key) || occurs(parent@, key) ==> #[trigger] crate::inventory::total_of(
                target@,
                key,
            ) == count_of(desired@, key)) ==> (r matches Ok(p) && p.target@ == target@ && p.parent@
            == parent@),
{
    proof {
        lemma_planned_iff_enough(desired@, target@, parent@);
        if forall|key: Seq<char>|
            occurs(target@, key) || occurs(parent@, key) ==> #[trigger] crate::inventory::total_of(
                target@,
                key,
            ) == count_of(desired@, key) {
            assert forall|key: Seq<char>|
                occurs(merged(target@, parent@), key) implies #[trigger] crate::inventory::total_of(
                target@,
                key,
            ) == count_of(desired@, key) by {
                lemma_occurs_merged(target@, parent@, key);
            }
            lemma_plan_equilibrium(desired@, target@, parent@);
        }
    }
    match plan_with_moves(desired, target, parent) {
        Ok(found) => {
            proof {
                let union = merged(target@, parent@);
                lemma_plan_conserves(
                    desired@,
                    target@,
                    parent@,
                    found.0.target@,
                    found.0.parent@,
                );
                lemma_plan_satisfies(
                    desired@,
                    target@,
                    parent@,
                    found.0.target@,
                    found.0.parent@,
                );
                assert forall|key: Seq<char>|
                    occurs(target@, key) || occurs(parent@, key) implies count_of(desired@, key)
                    <= #[trigger] crate::inventory::total_of(target@, key)
                    + crate::inventory::total_of(parent@, key) by {
                    lemma_occurs_merged(target@, parent@, key);
                    assert(occurs(union, key));
                    assert(count_of(desired@, key) <= crate::inventory::total_of(union, key));
                }
                assert forall|key: Seq<char>|
                    occurs(target@, key) || occurs(parent@, key) implies #[trigger] crate::inventory::total_of(
                    found.0.target@,
                    key,
                ) >= count_of(desired@, key) by {
                    lemma_occurs_merged(target@, parent@, key);
                    assert(occurs(union, key));
                }
            }
            Ok(found.0)
        },
        Err(e) => {
            proof {
                let union = merged(target@, parent@);
                if e is InsufficientCapacity {
                    lemma_occurs_merged(target@, parent@, e->component@);
                    lemma_insufficient_names_shortage(
                        desired@,
                        target@,
                        parent@,
                        e->component@,
                        e->requested as nat,
                        e->available as nat,
                    );
                    assert(crate::inventory::total_of(union, e->component@)
                        == crate::inventory::total_of(target@, e->component@)
                        + crate::inventory::total_of(parent@, e->component@));
                    assert(occurs(union, e->component@));
                }
            }
            Err(e)
        },
    }
}

/// The moves of the plan, in the order in which they are made: no more
/// than there are nodes in both groups and nodes that left the target and
/// entered it again.
pub fn explain(desired: &ComponentCounts, target: &GroupInventory, parent: &GroupInventory) -> (r:
    Result<Vec<Move>, PlanError>)
    requires
        target.wf(),
        parent.wf(),
        disjoint(target@, parent@),
        grand_total(target@) + grand_total(parent@) <= usize::MAX,
    ensures
        match r {
            Ok(moves) => plan_outcome(desired@, target@, parent@) is Planned && move_views(moves@)
                == plan_moves(desired@, target@, parent@) && moves@.len() <= target@.len()
                + parent@.len() + returned(
                leaving(desired@, target@, parent@).1,
                entering(desired@, target@, parent@).1,
            ),
            Err(PlanError::InsufficientCapacity { component, requested, available }) => plan_outcome(
                desired@,
                target@,
                parent@,
            ) == (Outcome::Insufficient {
                component: component@,
                requested: requested as nat,
                available: available as nat,
            }),
            Err(PlanError::MalformedPattern) => false,
        },
{
    match plan_with_moves(desired, target, parent) {
        Ok(found) => Ok(found.1),
        Err(e) => Err(e),
    }
}

/// Whether two inventories share no node and hold together no more
/// components than the machine counts: what a plan asks of its groups.
pub fn can_plan(target: &GroupInventory, parent: &GroupInventory) -> (r: bool)
    requires
        target.wf(),
        parent.wf(),
    ensures
        r == (disjoint(target@, parent@) && grand_total(target@) + grand_total(parent@)
            <= usize::MAX),
{
    let mut i: usize = 0;
    while i < target.len()
        invariant
            i <= target@.len(),
            forall|a: int, b: int|
                0 <= a < i && 0 <= b < parent@.len() ==> (#[trigger] target@[a]).0 != (
                #[trigger] parent@[b]).0,
        decreases target@.len() - i,
    {
        match parent.position(target.id(i).as_str()) {
            Some(_) => {
                return false;
            },
            None => {
                assert forall|b: int| 0 <= b < parent@.len() implies target@[i as int].0 != (
                #[trigger] parent@[b]).0 by {
                    if target@[i as int].0 == parent@[b].0 {
                        assert(crate::inventory::has_node(parent@, target@[i as int].0));
                    }
                }
            },
        }
        i = i + 1;
    }
    match (checked_total(target), checked_total(parent)) {
        (Some(a), Some(b)) => a <= usize::MAX - b,
        _ => false,
    }
}

/// How many components a group holds in all, where the machine counts that
/// far.
pub fn checked_total(inventory: &GroupInventory) -> (r: Option<usize>)
    ensures
        r == if grand_total(inventory@) <= usize::MAX {
            Some(grand_total(inventory@) as usize)
        } else {
            None
        },
{
    let mut sum: usize = 0;
    let mut i: usize = 0;
    proof {
        assert(inventory@.take(0) == Seq::<(Seq<char>, Seq<(Seq<char>, nat)>)>::empty());
    }
    while i < inventory.len()
        invariant
            i <= inventory@.len(),
            sum == grand_total(inventory@.take(i as int)),
        decreases inventory@.len() - i,
    {
        proof {
            assert(inventory@.take(i + 1).drop_last() == inventory@.take(i as int));
            crate::inventory::lemma_prefix_totals(inventory@, i + 1, Seq::empty());
        }
        let counts: &ComponentCounts = inventory.counts(i);
        let mut j: usize = 0;
        let ghost base = sum;
        proof {
            assert(counts@.take(0) == Seq::<(Seq<char>, nat)>::empty());
        }
        while j < counts.len()
            invariant
                j <= counts@.len(),
                counts@ == inventory@[i as int].1,
                i < inventory@.len(),
                base == grand_total(inventory@.take(i as int)),
                sum == base + crate::counts::sum_counts(counts@.take(j as int)),
                grand_total(inventory@.take(i + 1)) == base + crate::counts::sum_counts(counts@),
                grand_total(inventory@.take(i + 1)) <= grand_total(inventory@),
            decreases counts@.len() - j,
        {
            proof {
                assert(counts@.take(j + 1).drop_last() == counts@.take(j as int));
                crate::counts::lemma_sum_prefix(counts@, j + 1);
            }
            let q: usize = counts.quantity(j);
            if sum > usize::MAX - q {
                return None;
            }
            sum = sum + q;
            j = j + 1;
        }
        proof {
            assert(counts@.take(counts@.len() as int) == counts@);
        }
        i = i + 1;
    }
    proof {
        assert(inventory@.take(inventory@.len() as int) == inventory@);
    }
    Some(sum)
}

} // verus!
