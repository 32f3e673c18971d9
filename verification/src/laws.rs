//! What holds of every plan.
use crate::aggregate::{
    densities, filtered_totals, lemma_filtered_totals, lemma_totals, occurs, totals,
};
use crate::counts::{
    count_of, has_key, index_of, keys_distinct, keys_of, lemma_index_of, lemma_lookup_at,
    lemma_with_entry, lookup, sum_counts,
};
use crate::delta::{
    demand_of, lemma_settled, lemma_shortfalls, lemma_surpluses, outstanding, overshoots, settled,
    shortfalls, surpluses, touches,
};
use crate::inventory::{
    counts_wf, disjoint, grand_total, has_node, ids_distinct, inserted, lemma_inserted,
    lemma_merged, lemma_remove_totals, lemma_sorted_ids_distinct, merged, nodes_wf, sorted,
    total_of, Nodes,
};
use crate::planner::{
    addition_demand, downscale, entering, first_short, known, leaving, plan_outcome, removal_demand,
    request_of, union_weights, unrequested, upscale, Outcome,
};
use crate::score::Shares;
use crate::text::{id_less, lemma_id_less_total};
use vstd::prelude::*;

verus! {

/// `rest` and `moved` hold the nodes of `all` between them, each node once.
pub open spec fn splits(all: Nodes, rest: Nodes, moved: Nodes) -> bool {
    &&& sorted(rest)
    &&& ids_distinct(moved)
    &&& disjoint(rest, moved)
    &&& rest.len() + moved.len() == all.len()
    &&& counts_wf(all) ==> counts_wf(rest) && counts_wf(moved)
    &&& forall|n: (Seq<char>, Seq<(Seq<char>, nat)>)| #[trigger]
        all.contains(n) <==> rest.contains(n) || moved.contains(n)
    &&& forall|id: Seq<char>| #[trigger]
        has_node(all, id) <==> has_node(rest, id) || has_node(moved, id)
    &&& forall|key: Seq<char>| #[trigger]
        total_of(all, key) == total_of(rest, key) + total_of(moved, key)
}

pub proof fn lemma_total_concat(a: Nodes, b: Nodes, key: Seq<char>)
    ensures
        total_of(a + b, key) == total_of(a, key) + total_of(b, key),
    decreases b.len(),
{
    if b.len() == 0 {
        assert(a + b == a);
    } else {
        assert((a + b).drop_last() == a + b.drop_last());
        assert((a + b).last() == b.last());
        lemma_total_concat(a, b.drop_last(), key);
    }
}

/// Nothing moved: the nodes split into themselves and none.
pub proof fn lemma_splits_none(all: Nodes)
    requires
        sorted(all),
    ensures
        splits(all, all, Seq::empty()),
{
    let none = Seq::<(Seq<char>, Seq<(Seq<char>, nat)>)>::empty();
    assert forall|n: (Seq<char>, Seq<(Seq<char>, nat)>)| #[trigger]
        all.contains(n) <==> all.contains(n) || none.contains(n) by {}
    assert forall|id: Seq<char>| #[trigger]
        has_node(all, id) <==> has_node(all, id) || has_node(none, id) by {}
}

/// One more node moved: a split of the others extends to a split of all.
pub proof fn lemma_splits_step(all: Nodes, at: int, rest: Nodes, moved: Nodes)
    requires
        sorted(all),
        0 <= at < all.len(),
        splits(all.remove(at), rest, moved),
    ensures
        splits(all, rest, seq![all[at]] + moved),
{
    let others = all.remove(at);
    let node = all[at];
    let out = seq![node] + moved;
    lemma_sorted_ids_distinct(all);
    assert(!has_node(others, node.0)) by {
        if has_node(others, node.0) {
            let i = choose|i: int| 0 <= i < others.len() && (#[trigger] others[i]).0 == node.0;
            let j = if i < at {
                i
            } else {
                i + 1
            };
            assert(others[i] == all[j]);
            if j < at {
                assert(all[j].0 != all[at].0);
            } else {
                assert(all[at].0 != all[j].0);
            }
        }
    }
    assert forall|i: int, j: int| 0 <= i < j < out.len() implies (#[trigger] out[i]).0 != (
    #[trigger] out[j]).0 by {
        if i == 0 {
            assert(out[j] == moved[j - 1]);
            assert(has_node(moved, moved[j - 1].0));
        } else {
            assert(out[i] == moved[i - 1] && out[j] == moved[j - 1]);
        }
    }
    assert forall|i: int, j: int| 0 <= i < rest.len() && 0 <= j < out.len() implies (
    #[trigger] rest[i]).0 != (#[trigger] out[j]).0 by {
        if j == 0 {
            assert(has_node(rest, rest[i].0));
        } else {
            assert(out[j] == moved[j - 1]);
        }
    }
    if counts_wf(all) {
        assert(counts_wf(others)) by {
            assert forall|i: int| 0 <= i < others.len() implies keys_distinct(
                (#[trigger] others[i]).1,
            ) by {
                let j = if i < at {
                    i
                } else {
                    i + 1
                };
                assert(others[i] == all[j]);
            }
        }
        assert forall|i: int| 0 <= i < out.len() implies keys_distinct((#[trigger] out[i]).1) by {
            if i > 0 {
                assert(out[i] == moved[i - 1]);
            }
        }
    }
    assert forall|n: (Seq<char>, Seq<(Seq<char>, nat)>)| #[trigger]
        all.contains(n) <==> rest.contains(n) || out.contains(n) by {
        assert(others.contains(n) <==> rest.contains(n) || moved.contains(n));
        if all.contains(n) {
            let i = choose|i: int| 0 <= i < all.len() && all[i] == n;
            if i == at {
                assert(out[0] == n);
            } else {
                let j = if i < at {
                    i
                } else {
                    i - 1
                };
                assert(others[j] == n);
            }
        }
        if others.contains(n) {
            let i = choose|i: int| 0 <= i < others.len() && others[i] == n;
            let j = if i < at {
                i
            } else {
                i + 1
            };
            assert(all[j] == n);
        }
        if moved.contains(n) {
            let i = choose|i: int| 0 <= i < moved.len() && moved[i] == n;
            assert(out[i + 1] == n);
        }
        if out.contains(n) {
            let i = choose|i: int| 0 <= i < out.len() && out[i] == n;
            if i > 0 {
                assert(moved[i - 1] == n);
            }
        }
    }
    assert forall|id: Seq<char>| #[trigger]
        has_node(all, id) <==> has_node(rest, id) || has_node(out, id) by {
        assert(has_node(others, id) <==> has_node(rest, id) || has_node(moved, id));
        if has_node(all, id) {
            let i = choose|i: int| 0 <= i < all.len() && (#[trigger] all[i]).0 == id;
            if i == at {
                assert(out[0].0 == id);
            } else {
                let j = if i < at {
                    i
                } else {
                    i - 1
                };
                assert(others[j].0 == id);
            }
        }
        if has_node(others, id) {
            let i = choose|i: int| 0 <= i < others.len() && (#[trigger] others[i]).0 == id;
            let j = if i < at {
                i
            } else {
                i + 1
            };
            assert(all[j].0 == id);
        }
        if has_node(moved, id) {
            let i = choose|i: int| 0 <= i < moved.len() && (#[trigger] moved[i]).0 == id;
            assert(out[i + 1].0 == id);
        }
        if has_node(out, id) {
            let i = choose|i: int| 0 <= i < out.len() && (#[trigger] out[i]).0 == id;
            if i > 0 {
                assert(moved[i - 1].0 == id);
            }
        }
    }
    assert forall|key: Seq<char>| #[trigger]
        total_of(all, key) == total_of(rest, key) + total_of(out, key) by {
        lemma_remove_totals(all, at, key);
        lemma_total_concat(seq![node], moved, key);
        assert(seq![node].drop_last() == Seq::<(Seq<char>, Seq<(Seq<char>, nat)>)>::empty());
        assert(total_of(Seq::<(Seq<char>, Seq<(Seq<char>, nat)>)>::empty(), key) == 0);
        assert(seq![node].last() == node);
        assert(total_of(seq![node], key) == count_of(node.1, key));
        assert(total_of(others, key) == total_of(rest, key) + total_of(moved, key));
    }
}

pub proof fn lemma_sorted_remove(all: Nodes, at: int)
    requires
        sorted(all),
        0 <= at < all.len(),
    ensures
        sorted(all.remove(at)),
{
    let out = all.remove(at);
    assert forall|i: int, j: int| 0 <= i < j < out.len() implies id_less(
        (#[trigger] out[i]).0,
        (#[trigger] out[j]).0,
    ) by {
        let a = if i < at {
            i
        } else {
            i + 1
        };
        let b = if j < at {
            j
        } else {
            j + 1
        };
        assert(out[i] == all[a] && out[j] == all[b]);
    }
}

/// The nodes that stay and those that leave hold the candidates between
/// them.
pub proof fn lemma_downscale_splits(
    candidates: Nodes,
    demand: Seq<(Seq<char>, int)>,
    wanted: Seq<(Seq<char>, nat)>,
    weights: Shares,
)
    requires
        sorted(candidates),
    ensures
        splits(
            candidates,
            downscale(candidates, demand, wanted, weights).0,
            downscale(candidates, demand, wanted, weights).1,
        ),
    decreases candidates.len(),
{
    let out = downscale(candidates, demand, wanted, weights);
    if out.1.len() == 0 && out.0 == candidates {
        lemma_splits_none(candidates);
        assert(out.1 == Seq::<(Seq<char>, Seq<(Seq<char>, nat)>)>::empty());
    } else {
        let held = filtered_totals(keys_of(wanted), candidates);
        let best = crate::score::best_index(
            crate::score::downscale_scores(candidates, demand, wanted, weights, held),
        );
        let node = candidates[best];
        lemma_sorted_remove(candidates, best);
        lemma_downscale_splits(
            candidates.remove(best),
            settled(demand, node.1),
            wanted,
            weights,
        );
        let rest = downscale(candidates.remove(best), settled(demand, node.1), wanted, weights);
        lemma_splits_step(candidates, best, rest.0, rest.1);
    }
}

/// The nodes that stay in the pool and those that enter the target hold
/// the candidates between them.
pub proof fn lemma_upscale_splits(
    candidates: Nodes,
    demand: Seq<(Seq<char>, int)>,
    weights: Shares,
)
    requires
        sorted(candidates),
    ensures
        splits(
            candidates,
            upscale(candidates, demand, weights).0,
            upscale(candidates, demand, weights).1,
        ),
    decreases candidates.len(),
{
    let out = upscale(candidates, demand, weights);
    if out.1.len() == 0 && out.0 == candidates {
        lemma_splits_none(candidates);
        assert(out.1 == Seq::<(Seq<char>, Seq<(Seq<char>, nat)>)>::empty());
    } else {
        let best = crate::score::best_index(
            crate::score::upscale_scores(candidates, demand, weights),
        );
        let node = candidates[best];
        lemma_sorted_remove(candidates, best);
        lemma_upscale_splits(candidates.remove(best), settled(demand, node.1), weights);
        let rest = upscale(candidates.remove(best), settled(demand, node.1), weights);
        lemma_splits_step(candidates, best, rest.0, rest.1);
    }
}

/// The request keeps just the components that the groups name, each with
/// the quantity asked for.
pub proof fn lemma_known(desired: Seq<(Seq<char>, nat)>, held: Seq<(Seq<char>, nat)>)
    ensures
        keys_distinct(known(desired, held)),
        forall|key: Seq<char>| #[trigger]
            has_key(known(desired, held), key) <==> has_key(desired, key) && has_key(held, key),
        forall|key: Seq<char>| #[trigger]
            count_of(known(desired, held), key) == if has_key(held, key) {
                count_of(desired, key)
            } else {
                0
            },
    decreases desired.len(),
{
    let out = known(desired, held);
    if desired.len() == 0 {
        assert(keys_distinct(out));
    } else {
        let front = desired.drop_last();
        let rest = known(front, held);
        let e = desired.last();
        lemma_known(front, held);
        lemma_with_entry(rest, e.0, e.1);
        assert forall|key: Seq<char>| #[trigger]
            has_key(out, key) <==> has_key(desired, key) && has_key(held, key) by {
            assert(has_key(rest, key) <==> has_key(front, key) && has_key(held, key));
            if key != e.0 && has_key(held, e.0) {
                assert(lookup(out, key) == lookup(rest, key));
            }
        }
        assert forall|key: Seq<char>| #[trigger]
            count_of(out, key) == if has_key(held, key) {
                count_of(desired, key)
            } else {
                0
            } by {
            assert(count_of(rest, key) == if has_key(held, key) {
                count_of(front, key)
            } else {
                0
            });
            if key != e.0 && has_key(held, e.0) {
                assert(lookup(out, key) == lookup(rest, key));
            }
        }
    }
}

/// There is no shortage just where the groups hold of every component at
/// least what is asked for; a shortage that is found is one.
pub proof fn lemma_first_short(wanted: Seq<(Seq<char>, nat)>, held: Seq<(Seq<char>, nat)>)
    ensures
        -1 <= first_short(wanted, held) < wanted.len(),
        first_short(wanted, held) < 0 <==> forall|i: int|
            0 <= i < wanted.len() ==> count_of(held, (#[trigger] wanted[i]).0) >= wanted[i].1,
        first_short(wanted, held) >= 0 ==> count_of(held, wanted[first_short(wanted, held)].0)
            < wanted[first_short(wanted, held)].1,
    decreases wanted.len(),
{
    if wanted.len() > 0 {
        let front = wanted.drop_last();
        lemma_first_short(front, held);
        if first_short(front, held) < 0 {
            assert forall|i: int| 0 <= i < front.len() implies count_of(
                held,
                (#[trigger] wanted[i]).0,
            ) >= wanted[i].1 by {
                assert(front[i] == wanted[i]);
            }
            if count_of(held, wanted.last().0) < wanted.last().1 {
                assert(wanted[wanted.len() - 1] == wanted.last());
            }
        } else {
            let at = first_short(front, held);
            assert(front[at] == wanted[at]);
        }
    }
}

/// The keys of an association are the components that it names.
pub proof fn lemma_keys_of<V>(entries: Seq<(Seq<char>, V)>, key: Seq<char>)
    ensures
        keys_of(entries).contains(key) <==> has_key(entries, key),
{
    lemma_index_of(entries, key);
    if has_key(entries, key) {
        assert(keys_of(entries)[index_of(entries, key)] == key);
    }
    if keys_of(entries).contains(key) {
        let i = choose|i: int| 0 <= i < keys_of(entries).len() && keys_of(entries)[i] == key;
        assert(entries[i].0 == key);
    }
}

/// How much of `key` the nodes `have` lack of what `wanted` asks for,
/// written negative.
pub open spec fn shortage(wanted: Seq<(Seq<char>, nat)>, have: Nodes, key: Seq<char>) -> int {
    if count_of(wanted, key) > total_of(have, key) {
        total_of(have, key) - count_of(wanted, key)
    } else {
        0
    }
}

/// A demand that says of every component how much of it is lacking.
pub open spec fn tracks(demand: Seq<(Seq<char>, int)>, wanted: Seq<(Seq<char>, nat)>, have: Nodes) -> bool {
    &&& keys_distinct(demand)
    &&& forall|key: Seq<char>| #[trigger] demand_of(demand, key) == shortage(wanted, have, key)
}

pub proof fn lemma_addition_demand_tracks(wanted: Seq<(Seq<char>, nat)>, have: Nodes)
    requires
        keys_distinct(wanted),
    ensures
        tracks(addition_demand(wanted, have), wanted, have),
{
    let held = filtered_totals(keys_of(wanted), have);
    lemma_shortfalls(wanted, held);
    lemma_filtered_totals(keys_of(wanted), have);
    assert forall|key: Seq<char>| #[trigger]
        demand_of(addition_demand(wanted, have), key) == shortage(wanted, have, key) by {
        lemma_keys_of(wanted, key);
        if has_key(wanted, key) {
            assert(count_of(held, key) == total_of(have, key));
        }
    }
}

/// Once a node has entered, the settled demand says again how much is
/// lacking.
pub proof fn lemma_settled_tracks(
    demand: Seq<(Seq<char>, int)>,
    wanted: Seq<(Seq<char>, nat)>,
    have: Nodes,
    node: (Seq<char>, Seq<(Seq<char>, nat)>),
)
    requires
        tracks(demand, wanted, have),
    ensures
        tracks(settled(demand, node.1), wanted, have.push(node)),
{
    let after = have.push(node);
    lemma_settled(demand, node.1);
    assert(after.drop_last() == have);
    assert forall|key: Seq<char>| #[trigger]
        demand_of(settled(demand, node.1), key) == shortage(wanted, after, key) by {
        assert(demand_of(demand, key) == shortage(wanted, have, key));
        assert(total_of(after, key) == total_of(have, key) + count_of(node.1, key));
        lemma_index_of(demand, key);
    }
}

/// Where the target and the candidates together hold what is asked for,
/// the target holds it once the pool has been drawn on.
pub proof fn lemma_upscale_satisfies(
    candidates: Nodes,
    demand: Seq<(Seq<char>, int)>,
    weights: Shares,
    wanted: Seq<(Seq<char>, nat)>,
    have: Nodes,
)
    requires
        tracks(demand, wanted, have),
        forall|key: Seq<char>| #[trigger]
            total_of(have, key) + total_of(candidates, key) >= count_of(wanted, key),
    ensures
        forall|key: Seq<char>| #[trigger]
            total_of(have, key) + total_of(upscale(candidates, demand, weights).1, key) >= count_of(
                wanted,
                key,
            ),
    decreases candidates.len(),
{
    let out = upscale(candidates, demand, weights);
    if candidates.len() == 0 {
        assert forall|key: Seq<char>| #[trigger]
            total_of(have, key) + total_of(out.1, key) >= count_of(wanted, key) by {
            assert(total_of(have, key) + total_of(candidates, key) >= count_of(wanted, key));
        }
    } else if !outstanding(demand) {
        assert forall|key: Seq<char>| #[trigger]
            total_of(have, key) + total_of(out.1, key) >= count_of(wanted, key) by {
            lemma_index_of(demand, key);
            assert(demand_of(demand, key) == shortage(wanted, have, key));
            if has_key(demand, key) {
                assert(demand[index_of(demand, key)].1 == 0);
            }
        }
    } else {
        let best = crate::score::best_index(
            crate::score::upscale_scores(candidates, demand, weights),
        );
        if 0 <= best < candidates.len() {
            let node = candidates[best];
            let after = have.push(node);
            let rest = upscale(candidates.remove(best), settled(demand, node.1), weights);
            lemma_settled_tracks(demand, wanted, have, node);
            assert(after.drop_last() == have);
            assert forall|key: Seq<char>| #[trigger]
                total_of(after, key) + total_of(candidates.remove(best), key) >= count_of(
                    wanted,
                    key,
                ) by {
                lemma_remove_totals(candidates, best, key);
                assert(total_of(have, key) + total_of(candidates, key) >= count_of(wanted, key));
                assert(total_of(after, key) == total_of(have, key) + count_of(node.1, key));
            }
            lemma_upscale_satisfies(
                candidates.remove(best),
                settled(demand, node.1),
                weights,
                wanted,
                after,
            );
            assert forall|key: Seq<char>| #[trigger]
                total_of(have, key) + total_of(out.1, key) >= count_of(wanted, key) by {
                lemma_total_concat(seq![node], rest.1, key);
                assert(seq![node].drop_last() == Seq::<
                    (Seq<char>, Seq<(Seq<char>, nat)>),
                >::empty());
                assert(total_of(Seq::<(Seq<char>, Seq<(Seq<char>, nat)>)>::empty(), key) == 0);
                assert(seq![node].last() == node);
                assert(total_of(after, key) + total_of(rest.1, key) >= count_of(wanted, key));
                assert(total_of(after, key) == total_of(have, key) + count_of(node.1, key));
            }
        } else {
            crate::score::lemma_best_index(
                crate::score::upscale_scores(candidates, demand, weights),
            );
        }
    }
}

/// How the stages of a plan hang together.
pub open spec fn plan_facts(desired: Seq<(Seq<char>, nat)>, target: Nodes, parent: Nodes) -> bool {
    let down = leaving(desired, target, parent);
    let pool = merged(parent, down.1);
    let up = entering(desired, target, parent);
    let out = merged(down.0, up.1);
    &&& splits(target, down.0, down.1)
    &&& splits(pool, up.0, up.1)
    &&& sorted(pool)
    &&& sorted(out)
    &&& pool.len() == parent.len() + down.1.len()
    &&& out.len() == down.0.len() + up.1.len()
    &&& disjoint(out, up.0)
    &&& counts_wf(target) && counts_wf(parent) ==> counts_wf(out) && counts_wf(up.0)
    &&& forall|n: (Seq<char>, Seq<(Seq<char>, nat)>)| #[trigger]
        pool.contains(n) <==> parent.contains(n) || down.1.contains(n)
    &&& forall|n: (Seq<char>, Seq<(Seq<char>, nat)>)| #[trigger]
        out.contains(n) <==> down.0.contains(n) || up.1.contains(n)
    &&& forall|id: Seq<char>| #[trigger]
        has_node(pool, id) <==> has_node(parent, id) || has_node(down.1, id)
    &&& forall|id: Seq<char>| #[trigger]
        has_node(out, id) <==> has_node(down.0, id) || has_node(up.1, id)
    &&& forall|key: Seq<char>| #[trigger]
        total_of(pool, key) == total_of(parent, key) + total_of(down.1, key)
    &&& forall|key: Seq<char>| #[trigger]
        total_of(out, key) == total_of(down.0, key) + total_of(up.1, key)
}

/// Nodes with distinct identifiers of which each meets no node of `b`.
pub proof fn lemma_disjoint_by_ids(a: Nodes, b: Nodes)
    requires
        forall|id: Seq<char>| !(#[trigger] has_node(a, id) && has_node(b, id)),
    ensures
        disjoint(a, b),
{
    assert forall|i: int, j: int| 0 <= i < a.len() && 0 <= j < b.len() implies (#[trigger] a[i]).0
        != (#[trigger] b[j]).0 by {
        assert(has_node(a, a[i].0));
        assert(has_node(b, b[j].0));
    }
}

pub proof fn lemma_ids_by_disjoint(a: Nodes, b: Nodes, id: Seq<char>)
    requires
        disjoint(a, b),
    ensures
        !(has_node(a, id) && has_node(b, id)),
{
    if has_node(a, id) && has_node(b, id) {
        let i = choose|i: int| 0 <= i < a.len() && (#[trigger] a[i]).0 == id;
        let j = choose|j: int| 0 <= j < b.len() && (#[trigger] b[j]).0 == id;
        assert(a[i].0 != b[j].0);
    }
}

pub proof fn lemma_plan_facts(desired: Seq<(Seq<char>, nat)>, target: Nodes, parent: Nodes)
    requires
        sorted(target),
        sorted(parent),
        disjoint(target, parent),
    ensures
        plan_facts(desired, target, parent),
{
    let wanted = request_of(desired, target, parent);
    let weights = union_weights(merged(target, parent));
    let down = leaving(desired, target, parent);
    let pool = merged(parent, down.1);
    let up = entering(desired, target, parent);
    let out = merged(down.0, up.1);
    lemma_downscale_splits(target, removal_demand(wanted, target), wanted, weights);
    assert forall|id: Seq<char>| !(#[trigger] has_node(parent, id) && has_node(down.1, id)) by {
        lemma_ids_by_disjoint(target, parent, id);
        assert(has_node(target, id) <==> has_node(down.0, id) || has_node(down.1, id));
    }
    lemma_disjoint_by_ids(parent, down.1);
    lemma_merged(parent, down.1);
    lemma_upscale_splits(pool, addition_demand(wanted, down.0), weights);
    assert forall|id: Seq<char>| !(#[trigger] has_node(down.0, id) && has_node(up.1, id)) by {
        lemma_ids_by_disjoint(target, parent, id);
        lemma_ids_by_disjoint(down.0, down.1, id);
        assert(has_node(target, id) <==> has_node(down.0, id) || has_node(down.1, id));
        assert(has_node(pool, id) <==> has_node(parent, id) || has_node(down.1, id));
        assert(has_node(pool, id) <==> has_node(up.0, id) || has_node(up.1, id));
    }
    lemma_disjoint_by_ids(down.0, up.1);
    lemma_merged(down.0, up.1);
    assert forall|id: Seq<char>| !(#[trigger] has_node(out, id) && has_node(up.0, id)) by {
        lemma_ids_by_disjoint(target, parent, id);
        lemma_ids_by_disjoint(down.0, down.1, id);
        lemma_ids_by_disjoint(up.0, up.1, id);
        assert(has_node(target, id) <==> has_node(down.0, id) || has_node(down.1, id));
        assert(has_node(pool, id) <==> has_node(parent, id) || has_node(down.1, id));
        assert(has_node(pool, id) <==> has_node(up.0, id) || has_node(up.1, id));
        assert(has_node(out, id) <==> has_node(down.0, id) || has_node(up.1, id));
    }
    lemma_disjoint_by_ids(out, up.0);
    if counts_wf(target) && counts_wf(parent) {
        crate::inventory::lemma_merged_wf(parent, down.1);
        crate::inventory::lemma_merged_wf(down.0, up.1);
    }
}

/// Conservation: a plan keeps every node of the two groups, each with its
/// counters, puts none in both groups and adds none.
pub proof fn lemma_plan_conserves(
    desired: Seq<(Seq<char>, nat)>,
    target: Nodes,
    parent: Nodes,
    new_target: Nodes,
    new_parent: Nodes,
)
    requires
        nodes_wf(target),
        nodes_wf(parent),
        disjoint(target, parent),
        plan_outcome(desired, target, parent) == (Outcome::Planned {
            target: new_target,
            parent: new_parent,
        }),
    ensures
        forall|n: (Seq<char>, Seq<(Seq<char>, nat)>)|
            #![trigger new_target.contains(n)]
            #![trigger new_parent.contains(n)]
            #![trigger target.contains(n)]
            #![trigger parent.contains(n)]
            new_target.contains(n) || new_parent.contains(n) <==> target.contains(n)
                || parent.contains(n),
        forall|id: Seq<char>|
            #![trigger has_node(new_target, id)]
            #![trigger has_node(new_parent, id)]
            #![trigger has_node(target, id)]
            #![trigger has_node(parent, id)]
            has_node(new_target, id) || has_node(new_parent, id) <==> has_node(target, id)
                || has_node(parent, id),
        disjoint(new_target, new_parent),
        new_target.len() + new_parent.len() == target.len() + parent.len(),
        forall|key: Seq<char>|
            #![trigger total_of(new_target, key)]
            #![trigger total_of(new_parent, key)]
            #![trigger total_of(target, key)]
            #![trigger total_of(parent, key)]
            total_of(new_target, key) + total_of(new_parent, key) == total_of(target, key)
                + total_of(parent, key),
{
    lemma_plan_facts(desired, target, parent);
    let down = leaving(desired, target, parent);
    let pool = merged(parent, down.1);
    let up = entering(desired, target, parent);
    assert forall|n: (Seq<char>, Seq<(Seq<char>, nat)>)|
            #![trigger new_target.contains(n)]
            #![trigger new_parent.contains(n)]
            #![trigger target.contains(n)]
            #![trigger parent.contains(n)]
            new_target.contains(n) || new_parent.contains(n) <==> target.contains(n)
                || parent.contains(n) by {
        assert(target.contains(n) <==> down.0.contains(n) || down.1.contains(n));
        assert(pool.contains(n) <==> parent.contains(n) || down.1.contains(n));
        assert(pool.contains(n) <==> up.0.contains(n) || up.1.contains(n));
        assert(new_target.contains(n) <==> down.0.contains(n) || up.1.contains(n));
    }
    assert forall|id: Seq<char>|
            #![trigger has_node(new_target, id)]
            #![trigger has_node(new_parent, id)]
            #![trigger has_node(target, id)]
            #![trigger has_node(parent, id)]
            has_node(new_target, id) || has_node(new_parent, id) <==> has_node(target, id)
                || has_node(parent, id) by {
        assert(has_node(target, id) <==> has_node(down.0, id) || has_node(down.1, id));
        assert(has_node(pool, id) <==> has_node(parent, id) || has_node(down.1, id));
        assert(has_node(pool, id) <==> has_node(up.0, id) || has_node(up.1, id));
        assert(has_node(new_target, id) <==> has_node(down.0, id) || has_node(up.1, id));
    }
    assert forall|key: Seq<char>|
            #![trigger total_of(new_target, key)]
            #![trigger total_of(new_parent, key)]
            #![trigger total_of(target, key)]
            #![trigger total_of(parent, key)]
            total_of(new_target, key) + total_of(new_parent, key) == total_of(target, key)
                + total_of(parent, key) by {
        assert(total_of(target, key) == total_of(down.0, key) + total_of(down.1, key));
        assert(total_of(pool, key) == total_of(parent, key) + total_of(down.1, key));
        assert(total_of(pool, key) == total_of(up.0, key) + total_of(up.1, key));
        assert(total_of(new_target, key) == total_of(down.0, key) + total_of(up.1, key));
    }
}

/// Sortedness: both memberships of a plan are sorted by identifier, and
/// every node keeps counters without a repeated component.
pub proof fn lemma_plan_sorted(
    desired: Seq<(Seq<char>, nat)>,
    target: Nodes,
    parent: Nodes,
    new_target: Nodes,
    new_parent: Nodes,
)
    requires
        nodes_wf(target),
        nodes_wf(parent),
        disjoint(target, parent),
        plan_outcome(desired, target, parent) == (Outcome::Planned {
            target: new_target,
            parent: new_parent,
        }),
    ensures
        nodes_wf(new_target),
        nodes_wf(new_parent),
{
    lemma_plan_facts(desired, target, parent);
}

/// Feasibility: of every component that occurs in either group the new
/// target holds at least what was asked for.
pub proof fn lemma_plan_satisfies(
    desired: Seq<(Seq<char>, nat)>,
    target: Nodes,
    parent: Nodes,
    new_target: Nodes,
    new_parent: Nodes,
)
    requires
        nodes_wf(target),
        nodes_wf(parent),
        disjoint(target, parent),
        plan_outcome(desired, target, parent) == (Outcome::Planned {
            target: new_target,
            parent: new_parent,
        }),
    ensures
        forall|key: Seq<char>|
            occurs(merged(target, parent), key) ==> #[trigger] total_of(new_target, key)
                >= count_of(desired, key),
        forall|key: Seq<char>| #[trigger]
            total_of(new_target, key) >= count_of(request_of(desired, target, parent), key),
{
    let union = merged(target, parent);
    let held = totals(union);
    let wanted = request_of(desired, target, parent);
    let weights = union_weights(union);
    let down = leaving(desired, target, parent);
    let pool = merged(parent, down.1);
    let up = entering(desired, target, parent);
    lemma_plan_facts(desired, target, parent);
    lemma_known(desired, held);
    lemma_first_short(wanted, held);
    lemma_totals(union);
    lemma_sorted_ids_distinct(parent);
    lemma_merged(target, parent);
    lemma_addition_demand_tracks(wanted, down.0);
    assert forall|key: Seq<char>| #[trigger]
        total_of(down.0, key) + total_of(pool, key) >= count_of(wanted, key) by {
        assert(total_of(target, key) == total_of(down.0, key) + total_of(down.1, key));
        assert(total_of(pool, key) == total_of(parent, key) + total_of(down.1, key));
        assert(total_of(union, key) == total_of(target, key) + total_of(parent, key));
        assert(count_of(held, key) == total_of(union, key));
        lemma_index_of(wanted, key);
        if has_key(wanted, key) {
            let at = index_of(wanted, key);
            assert(count_of(held, wanted[at].0) >= wanted[at].1);
        }
    }
    lemma_upscale_satisfies(pool, addition_demand(wanted, down.0), weights, wanted, down.0);
    assert forall|key: Seq<char>| #[trigger]
        total_of(new_target, key) >= count_of(wanted, key) by {
        assert(total_of(new_target, key) == total_of(down.0, key) + total_of(up.1, key));
        assert(total_of(down.0, key) + total_of(up.1, key) >= count_of(wanted, key));
    }
    assert forall|key: Seq<char>| occurs(union, key) implies #[trigger] total_of(new_target, key)
        >= count_of(desired, key) by {
        assert(has_key(held, key));
        assert(count_of(wanted, key) == count_of(desired, key));
        assert(total_of(new_target, key) >= count_of(wanted, key));
    }
}

/// An association without entries where nothing is held beyond the
/// request.
pub proof fn lemma_no_surpluses(wanted: Seq<(Seq<char>, nat)>, held: Seq<(Seq<char>, nat)>)
    requires
        forall|i: int|
            0 <= i < wanted.len() ==> (#[trigger] wanted[i]).1 >= count_of(held, wanted[i].0),
    ensures
        surpluses(wanted, held) == Seq::<(Seq<char>, int)>::empty(),
    decreases wanted.len(),
{
    if wanted.len() > 0 {
        let front = wanted.drop_last();
        assert forall|i: int| 0 <= i < front.len() implies (#[trigger] front[i]).1 >= count_of(
            held,
            front[i].0,
        ) by {
            assert(front[i] == wanted[i]);
        }
        lemma_no_surpluses(front, held);
        assert(wanted[wanted.len() - 1] == wanted.last());
    }
}

pub proof fn lemma_no_shortfalls(wanted: Seq<(Seq<char>, nat)>, held: Seq<(Seq<char>, nat)>)
    requires
        forall|i: int|
            0 <= i < wanted.len() ==> (#[trigger] wanted[i]).1 <= count_of(held, wanted[i].0),
    ensures
        shortfalls(wanted, held) == Seq::<(Seq<char>, int)>::empty(),
    decreases wanted.len(),
{
    if wanted.len() > 0 {
        let front = wanted.drop_last();
        assert forall|i: int| 0 <= i < front.len() implies (#[trigger] front[i]).1 <= count_of(
            held,
            front[i].0,
        ) by {
            assert(front[i] == wanted[i]);
        }
        lemma_no_shortfalls(front, held);
        assert(wanted[wanted.len() - 1] == wanted.last());
    }
}

pub proof fn lemma_no_unrequested(
    base: Seq<(Seq<char>, int)>,
    wanted: Seq<(Seq<char>, nat)>,
    held: Seq<(Seq<char>, nat)>,
)
    requires
        forall|i: int|
            0 <= i < held.len() ==> has_key(wanted, (#[trigger] held[i]).0) || held[i].1 == 0,
    ensures
        unrequested(base, wanted, held) == base,
    decreases held.len(),
{
    if held.len() > 0 {
        let front = held.drop_last();
        assert forall|i: int| 0 <= i < front.len() implies has_key(
            wanted,
            (#[trigger] front[i]).0,
        ) || front[i].1 == 0 by {
            assert(front[i] == held[i]);
        }
        lemma_no_unrequested(base, wanted, front);
        assert(held[held.len() - 1] == held.last());
    }
}

/// Idempotence on equilibrium: where the target holds of every component
/// that occurs in either group exactly what is asked for, and so nothing
/// of a component that is not asked for, the plan is the two groups as
/// they are.
pub proof fn lemma_plan_equilibrium(desired: Seq<(Seq<char>, nat)>, target: Nodes, parent: Nodes)
    requires
        nodes_wf(target),
        nodes_wf(parent),
        disjoint(target, parent),
        forall|key: Seq<char>|
            occurs(merged(target, parent), key) ==> #[trigger] total_of(target, key) == count_of(
                desired,
                key,
            ),
    ensures
        plan_outcome(desired, target, parent) == (Outcome::Planned { target: target, parent: parent }),
{
    let union = merged(target, parent);
    let held = totals(union);
    let wanted = request_of(desired, target, parent);
    let weights = union_weights(union);
    let in_target = filtered_totals(keys_of(wanted), target);
    lemma_known(desired, held);
    lemma_totals(union);
    lemma_totals(target);
    lemma_sorted_ids_distinct(parent);
    lemma_merged(target, parent);
    lemma_filtered_totals(keys_of(wanted), target);
    lemma_first_short(wanted, held);
    assert forall|i: int| 0 <= i < wanted.len() implies count_of(
        in_target,
        (#[trigger] wanted[i]).0,
    ) == wanted[i].1 && count_of(held, wanted[i].0) >= wanted[i].1 by {
        let key = wanted[i].0;
        crate::counts::lemma_lookup_at(wanted, i);
        lemma_keys_of(wanted, key);
        assert(has_key(wanted, key));
        assert(has_key(held, key));
        assert(count_of(wanted, key) == count_of(desired, key));
        assert(total_of(target, key) == count_of(desired, key));
        assert(count_of(in_target, key) == total_of(target, key));
        assert(count_of(held, key) == total_of(union, key));
        assert(total_of(union, key) == total_of(target, key) + total_of(parent, key));
    }
    lemma_no_surpluses(wanted, in_target);
    lemma_no_shortfalls(wanted, in_target);
    assert forall|i: int| 0 <= i < totals(target).len() implies has_key(
        wanted,
        (#[trigger] totals(target)[i]).0,
    ) || totals(target)[i].1 == 0 by {
        let key = totals(target)[i].0;
        crate::counts::lemma_lookup_at(totals(target), i);
        assert(has_key(totals(target), key));
        assert(occurs(target, key));
        let at = choose|at: int| 0 <= at < target.len() && has_key((#[trigger] target[at]).1, key);
        assert(target.contains(target[at]));
        assert(union.contains(target[at]));
        let u = choose|u: int| 0 <= u < union.len() && union[u] == target[at];
        assert(has_key(union[u].1, key));
        assert(occurs(union, key));
        assert(has_key(held, key));
        assert(count_of(totals(target), key) == total_of(target, key));
        assert(total_of(target, key) == count_of(desired, key));
        if !has_key(wanted, key) {
            assert(!has_key(desired, key));
        }
    }
    lemma_no_unrequested(Seq::empty(), wanted, totals(target));
    let none = Seq::<(Seq<char>, int)>::empty();
    assert(removal_demand(wanted, target) == none);
    assert(addition_demand(wanted, target) == none);
    assert(forall|node: Seq<(Seq<char>, nat)>| !touches(none, node));
    assert(downscale(target, none, wanted, weights) == (
        target,
        Seq::<(Seq<char>, Seq<(Seq<char>, nat)>)>::empty(),
    ));
    assert(!outstanding(none));
    assert(merged(parent, Seq::empty()) == parent);
    assert(upscale(parent, none, weights) == (
        parent,
        Seq::<(Seq<char>, Seq<(Seq<char>, nat)>)>::empty(),
    ));
    assert(merged(target, Seq::empty()) == target);
}

/// A plan is made just where both groups together hold of every component
/// that occurs in them at least what is asked for.
pub proof fn lemma_planned_iff_enough(desired: Seq<(Seq<char>, nat)>, target: Nodes, parent: Nodes)
    ensures
        plan_outcome(desired, target, parent) is Planned <==> forall|key: Seq<char>|
            occurs(merged(target, parent), key) ==> count_of(desired, key) <= #[trigger] total_of(
                merged(target, parent),
                key,
            ),
{
    let union = merged(target, parent);
    let held = totals(union);
    let wanted = request_of(desired, target, parent);
    lemma_known(desired, held);
    lemma_totals(union);
    lemma_first_short(wanted, held);
    if plan_outcome(desired, target, parent) is Planned {
        assert forall|key: Seq<char>| occurs(union, key) implies count_of(desired, key)
            <= #[trigger] total_of(union, key) by {
            assert(has_key(held, key));
            assert(count_of(held, key) == total_of(union, key));
            assert(count_of(wanted, key) == count_of(desired, key));
            lemma_index_of(wanted, key);
            if has_key(wanted, key) {
                let at = index_of(wanted, key);
                assert(count_of(held, wanted[at].0) >= wanted[at].1);
            }
        }
    }
    if forall|key: Seq<char>|
        occurs(union, key) ==> count_of(desired, key) <= #[trigger] total_of(union, key) {
        assert forall|i: int| 0 <= i < wanted.len() implies count_of(
            held,
            (#[trigger] wanted[i]).0,
        ) >= wanted[i].1 by {
            let key = wanted[i].0;
            lemma_lookup_at(wanted, i);
            assert(has_key(wanted, key));
            assert(has_key(held, key));
            assert(occurs(union, key));
            assert(count_of(held, key) == total_of(union, key));
            assert(count_of(wanted, key) == count_of(desired, key));
            assert(count_of(desired, key) <= total_of(union, key));
        }
    }
}

/// Where no plan is made, the component that is named occurs in the
/// groups, the request that is named is what was asked for of it, what is
/// named as available is what both groups hold of it, and that is less.
pub proof fn lemma_insufficient_names_shortage(
    desired: Seq<(Seq<char>, nat)>,
    target: Nodes,
    parent: Nodes,
    component: Seq<char>,
    requested: nat,
    available: nat,
)
    requires
        plan_outcome(desired, target, parent) == (Outcome::Insufficient {
            component,
            requested,
            available,
        }),
    ensures
        occurs(merged(target, parent), component),
        requested == count_of(desired, component),
        available == total_of(merged(target, parent), component),
        requested > available,
{
    let union = merged(target, parent);
    let held = totals(union);
    let wanted = request_of(desired, target, parent);
    lemma_known(desired, held);
    lemma_totals(union);
    lemma_first_short(wanted, held);
    let at = first_short(wanted, held);
    lemma_lookup_at(wanted, at);
    assert(has_key(wanted, component));
    assert(has_key(held, component));
    assert(count_of(wanted, component) == count_of(desired, component));
    assert(count_of(held, component) == total_of(union, component));
}

/// Two sequences that hold the same nodes.
pub open spec fn same_nodes(a: Nodes, b: Nodes) -> bool {
    forall|n: (Seq<char>, Seq<(Seq<char>, nat)>)| a.contains(n) <==> b.contains(n)
}

/// A plan leaves both groups as they are just where the nodes that it
/// takes out of the target are the nodes that it takes back in.
pub proof fn lemma_plan_unchanged_iff(desired: Seq<(Seq<char>, nat)>, target: Nodes, parent: Nodes)
    requires
        nodes_wf(target),
        nodes_wf(parent),
        disjoint(target, parent),
        plan_outcome(desired, target, parent) is Planned,
    ensures
        plan_outcome(desired, target, parent) == (Outcome::Planned { target: target, parent: parent })
            <==> same_nodes(
            leaving(desired, target, parent).1,
            entering(desired, target, parent).1,
        ),
{
    lemma_plan_facts(desired, target, parent);
    let down = leaving(desired, target, parent);
    let pool = merged(parent, down.1);
    let up = entering(desired, target, parent);
    let out = merged(down.0, up.1);
    assert(plan_outcome(desired, target, parent) == (Outcome::Planned {
        target: out,
        parent: up.0,
    }));
    if same_nodes(down.1, up.1) {
        assert forall|n: (Seq<char>, Seq<(Seq<char>, nat)>)| out.contains(n) <==> target.contains(
            n,
        ) by {
            assert(down.1.contains(n) <==> up.1.contains(n));
            assert(target.contains(n) <==> down.0.contains(n) || down.1.contains(n));
            assert(out.contains(n) <==> down.0.contains(n) || up.1.contains(n));
        }
        lemma_sorted_same(out, target);
        assert forall|n: (Seq<char>, Seq<(Seq<char>, nat)>)| up.0.contains(n) <==> parent.contains(
            n,
        ) by {
            assert(down.1.contains(n) <==> up.1.contains(n));
            assert(target.contains(n) <==> down.0.contains(n) || down.1.contains(n));
            assert(pool.contains(n) <==> parent.contains(n) || down.1.contains(n));
            assert(pool.contains(n) <==> up.0.contains(n) || up.1.contains(n));
            if up.0.contains(n) && up.1.contains(n) {
                let i = choose|i: int| 0 <= i < up.0.len() && up.0[i] == n;
                let j = choose|j: int| 0 <= j < up.1.len() && up.1[j] == n;
                assert(up.0[i].0 != up.1[j].0);
            }
            if parent.contains(n) && target.contains(n) {
                let i = choose|i: int| 0 <= i < target.len() && target[i] == n;
                let j = choose|j: int| 0 <= j < parent.len() && parent[j] == n;
                assert(target[i].0 != parent[j].0);
            }
        }
        lemma_sorted_same(up.0, parent);
    }
    if out == target && up.0 == parent {
        assert forall|n: (Seq<char>, Seq<(Seq<char>, nat)>)| down.1.contains(n) <==> up.1.contains(
            n,
        ) by {
            assert(target.contains(n) <==> down.0.contains(n) || down.1.contains(n));
            assert(pool.contains(n) <==> parent.contains(n) || down.1.contains(n));
            assert(pool.contains(n) <==> up.0.contains(n) || up.1.contains(n));
            assert(out.contains(n) <==> down.0.contains(n) || up.1.contains(n));
            if down.0.contains(n) && down.1.contains(n) {
                let i = choose|i: int| 0 <= i < down.0.len() && down.0[i] == n;
                let j = choose|j: int| 0 <= j < down.1.len() && down.1[j] == n;
                assert(down.0[i].0 != down.1[j].0);
            }
            if up.0.contains(n) && up.1.contains(n) {
                let i = choose|i: int| 0 <= i < up.0.len() && up.0[i] == n;
                let j = choose|j: int| 0 <= j < up.1.len() && up.1[j] == n;
                assert(up.0[i].0 != up.1[j].0);
            }
            if parent.contains(n) && target.contains(n) {
                let i = choose|i: int| 0 <= i < target.len() && target[i] == n;
                let j = choose|j: int| 0 <= j < parent.len() && parent[j] == n;
                assert(target[i].0 != parent[j].0);
            }
        }
    }
}

/// Stability under a second plan: for the groups that a plan gives, a plan
/// is made again, and it changes nothing just where the nodes that it
/// takes out of the new target are the nodes that it takes back in.
pub proof fn lemma_replan_stable(
    desired: Seq<(Seq<char>, nat)>,
    target: Nodes,
    parent: Nodes,
    new_target: Nodes,
    new_parent: Nodes,
)
    requires
        nodes_wf(target),
        nodes_wf(parent),
        disjoint(target, parent),
        plan_outcome(desired, target, parent) == (Outcome::Planned {
            target: new_target,
            parent: new_parent,
        }),
    ensures
        plan_outcome(desired, new_target, new_parent) is Planned,
        plan_outcome(desired, new_target, new_parent) == (Outcome::Planned {
            target: new_target,
            parent: new_parent,
        }) <==> same_nodes(
            leaving(desired, new_target, new_parent).1,
            entering(desired, new_target, new_parent).1,
        ),
{
    lemma_plan_conserves(desired, target, parent, new_target, new_parent);
    lemma_plan_sorted(desired, target, parent, new_target, new_parent);
    let union = merged(target, parent);
    let again = merged(new_target, new_parent);
    lemma_sorted_ids_distinct(parent);
    lemma_sorted_ids_distinct(new_parent);
    lemma_merged(target, parent);
    lemma_merged(new_target, new_parent);
    assert forall|n: (Seq<char>, Seq<(Seq<char>, nat)>)| again.contains(n) <==> union.contains(
        n,
    ) by {
        assert(again.contains(n) <==> new_target.contains(n) || new_parent.contains(n));
        assert(union.contains(n) <==> target.contains(n) || parent.contains(n));
        assert(new_target.contains(n) || new_parent.contains(n) <==> target.contains(n)
            || parent.contains(n));
    }
    lemma_sorted_same(again, union);
    lemma_plan_unchanged_iff(desired, new_target, new_parent);
}

/// Stability under a second plan, from the counts alone: where the new
/// target holds of no component that occurs in either group more than was
/// asked for, planning again for the new groups changes nothing.
pub proof fn lemma_replan_stable_without_excess(
    desired: Seq<(Seq<char>, nat)>,
    target: Nodes,
    parent: Nodes,
    new_target: Nodes,
    new_parent: Nodes,
)
    requires
        nodes_wf(target),
        nodes_wf(parent),
        disjoint(target, parent),
        plan_outcome(desired, target, parent) == (Outcome::Planned {
            target: new_target,
            parent: new_parent,
        }),
        forall|key: Seq<char>|
            occurs(merged(target, parent), key) ==> #[trigger] total_of(new_target, key)
                <= count_of(desired, key),
    ensures
        plan_outcome(desired, new_target, new_parent) == (Outcome::Planned {
            target: new_target,
            parent: new_parent,
        }),
{
    lemma_plan_conserves(desired, target, parent, new_target, new_parent);
    lemma_plan_sorted(desired, target, parent, new_target, new_parent);
    lemma_plan_satisfies(desired, target, parent, new_target, new_parent);
    let union = merged(target, parent);
    let again = merged(new_target, new_parent);
    lemma_sorted_ids_distinct(parent);
    lemma_sorted_ids_distinct(new_parent);
    lemma_merged(target, parent);
    lemma_merged(new_target, new_parent);
    assert forall|key: Seq<char>| occurs(again, key) implies #[trigger] total_of(new_target, key)
        == count_of(desired, key) by {
        let at = choose|at: int| 0 <= at < again.len() && has_key((#[trigger] again[at]).1, key);
        let n = again[at];
        assert(again.contains(n));
        assert(new_target.contains(n) || new_parent.contains(n));
        assert(target.contains(n) || parent.contains(n));
        assert(union.contains(n));
        let u = choose|u: int| 0 <= u < union.len() && union[u] == n;
        assert(has_key(union[u].1, key));
        assert(occurs(union, key));
    }
    lemma_plan_equilibrium(desired, new_target, new_parent);
}

/// Empty pool: where the target holds less of a component that it names
/// than was asked for, and the pool is empty, no plan is made; the
/// component that is named is one of which the target holds less than was
/// asked for, with what was asked for and what the target holds.
pub proof fn lemma_empty_pool_is_short(
    desired: Seq<(Seq<char>, nat)>,
    target: Nodes,
    key: Seq<char>,
)
    requires
        occurs(target, key),
        count_of(desired, key) > total_of(target, key),
    ensures
        match plan_outcome(desired, target, Seq::empty()) {
            Outcome::Insufficient { component, requested, available } => {
                &&& occurs(target, component)
                &&& requested == count_of(desired, component)
                &&& available == total_of(target, component)
                &&& requested > available
            },
            Outcome::Planned { .. } => false,
        },
{
    let parent = Seq::<(Seq<char>, Seq<(Seq<char>, nat)>)>::empty();
    assert(merged(target, parent) == target);
    lemma_planned_iff_enough(desired, target, parent);
    match plan_outcome(desired, target, parent) {
        Outcome::Insufficient { component, requested, available } => {
            lemma_insufficient_names_shortage(
                desired,
                target,
                parent,
                component,
                requested,
                available,
            );
        },
        Outcome::Planned { .. } => {
            assert(count_of(desired, key) <= total_of(merged(target, parent), key));
        },
    }
}

/// Of nodes with distinct identifiers that all occur among `b`, there are
/// no more than `b` holds.
pub proof fn lemma_subset_len(a: Nodes, b: Nodes)
    requires
        ids_distinct(a),
        forall|i: int| 0 <= i < a.len() ==> has_node(b, (#[trigger] a[i]).0),
    ensures
        a.len() <= b.len(),
    decreases a.len(),
{
    if a.len() > 0 {
        let x = a.last();
        assert(has_node(b, a[a.len() - 1].0));
        let j = choose|j: int| 0 <= j < b.len() && (#[trigger] b[j]).0 == x.0;
        let front = a.drop_last();
        let others = b.remove(j);
        assert forall|i: int, k: int| 0 <= i < k < front.len() implies (#[trigger] front[i]).0 != (
        #[trigger] front[k]).0 by {
            assert(front[i] == a[i] && front[k] == a[k]);
        }
        assert forall|i: int| 0 <= i < front.len() implies has_node(
            others,
            (#[trigger] front[i]).0,
        ) by {
            assert(front[i] == a[i]);
            assert(has_node(b, a[i].0));
            let k = choose|k: int| 0 <= k < b.len() && (#[trigger] b[k]).0 == a[i].0;
            assert(a[i].0 != a[a.len() - 1].0);
            let m = if k < j {
                k
            } else {
                k - 1
            };
            assert(others[m] == b[k]);
        }
        lemma_subset_len(front, others);
    }
}

/// How many of the nodes `left` are among `entered`.
pub open spec fn returned(left: Nodes, entered: Nodes) -> nat
    decreases left.len(),
{
    if left.len() == 0 {
        0
    } else {
        returned(left.drop_last(), entered) + if has_node(entered, left.last().0) {
            1nat
        } else {
            0nat
        }
    }
}

/// The nodes `left` that are not among `entered`.
pub open spec fn stayed_out(left: Nodes, entered: Nodes) -> Nodes
    decreases left.len(),
{
    if left.len() == 0 {
        Seq::empty()
    } else if has_node(entered, left.last().0) {
        stayed_out(left.drop_last(), entered)
    } else {
        stayed_out(left.drop_last(), entered).push(left.last())
    }
}

/// The nodes that left are those that entered again and those that stayed
/// out; the latter are distinct, left, and did not enter.
pub proof fn lemma_stayed_out(left: Nodes, entered: Nodes)
    requires
        ids_distinct(left),
    ensures
        stayed_out(left, entered).len() + returned(left, entered) == left.len(),
        ids_distinct(stayed_out(left, entered)),
        forall|i: int|
            0 <= i < stayed_out(left, entered).len() ==> has_node(
                left,
                (#[trigger] stayed_out(left, entered)[i]).0,
            ) && !has_node(entered, stayed_out(left, entered)[i].0),
        disjoint(left, entered) ==> returned(left, entered) == 0,
    decreases left.len(),
{
    let out = stayed_out(left, entered);
    if left.len() == 0 {
        assert(ids_distinct(out));
    } else {
        let front = left.drop_last();
        let rest = stayed_out(front, entered);
        assert(ids_distinct(front)) by {
            assert forall|i: int, j: int| 0 <= i < j < front.len() implies (
            #[trigger] front[i]).0 != (#[trigger] front[j]).0 by {
                assert(front[i] == left[i] && front[j] == left[j]);
            }
        }
        lemma_stayed_out(front, entered);
        assert forall|i: int| 0 <= i < rest.len() implies has_node(left, (#[trigger] rest[i]).0) by {
            let k = choose|k: int| 0 <= k < front.len() && (#[trigger] front[k]).0 == rest[i].0;
            assert(left[k].0 == rest[i].0);
        }
        assert(has_node(left, left[left.len() - 1].0));
        assert forall|i: int| 0 <= i < out.len() implies has_node(left, (#[trigger] out[i]).0)
            && !has_node(entered, out[i].0) by {
            if i < rest.len() {
                assert(out[i] == rest[i]);
            }
        }
        assert forall|i: int, j: int| 0 <= i < j < out.len() implies (#[trigger] out[i]).0 != (
        #[trigger] out[j]).0 by {
            if j < rest.len() {
                assert(out[i] == rest[i] && out[j] == rest[j]);
            } else {
                assert(out[i] == rest[i]);
                let k = choose|k: int| 0 <= k < front.len() && (#[trigger] front[k]).0 == rest[i].0;
                assert(left[k].0 != left[left.len() - 1].0);
            }
        }
        if disjoint(left, entered) {
            assert(disjoint(front, entered)) by {
                assert forall|i: int, j: int|
                    0 <= i < front.len() && 0 <= j < entered.len() implies (#[trigger] front[i]).0
                    != (#[trigger] entered[j]).0 by {
                    assert(front[i] == left[i]);
                }
            }
            lemma_ids_by_disjoint(left, entered, left.last().0);
        }
    }
}

/// Bound on the moves: no more nodes leave the target than it holds, no
/// more enter it than the pool and the nodes that left hold, and the
/// moves of both kinds are no more than the nodes of both groups and the
/// nodes that left and entered again. Where no node that left enters
/// again, none is counted twice.
pub proof fn lemma_moves_bounded(desired: Seq<(Seq<char>, nat)>, target: Nodes, parent: Nodes)
    requires
        nodes_wf(target),
        nodes_wf(parent),
        disjoint(target, parent),
    ensures
        leaving(desired, target, parent).1.len() <= target.len(),
        entering(desired, target, parent).1.len() <= parent.len() + leaving(
            desired,
            target,
            parent,
        ).1.len(),
        leaving(desired, target, parent).1.len() + entering(desired, target, parent).1.len()
            <= target.len() + parent.len() + returned(
            leaving(desired, target, parent).1,
            entering(desired, target, parent).1,
        ),
        returned(leaving(desired, target, parent).1, entering(desired, target, parent).1)
            <= leaving(desired, target, parent).1.len(),
        disjoint(leaving(desired, target, parent).1, entering(desired, target, parent).1)
            ==> returned(
            leaving(desired, target, parent).1,
            entering(desired, target, parent).1,
        ) == 0,
{
    lemma_plan_facts(desired, target, parent);
    let down = leaving(desired, target, parent);
    let pool = merged(parent, down.1);
    let up = entering(desired, target, parent);
    let kept = stayed_out(down.1, up.1);
    lemma_stayed_out(down.1, up.1);
    assert forall|i: int| 0 <= i < kept.len() implies has_node(up.0, (#[trigger] kept[i]).0) by {
        let id = kept[i].0;
        assert(has_node(pool, id) <==> has_node(parent, id) || has_node(down.1, id));
        assert(has_node(pool, id) <==> has_node(up.0, id) || has_node(up.1, id));
    }
    lemma_subset_len(kept, up.0);
}

/// No overshoot of a surplus: a node that may leave the target carries of
/// no component that is still in demand more than the demand. So where the
/// demand for a component is what the target holds beyond the request, the
/// target holds the request still once the node has left.
pub proof fn lemma_step_keeps_floor(
    demand: Seq<(Seq<char>, int)>,
    node: Seq<(Seq<char>, nat)>,
    key: Seq<char>,
    requested: nat,
    held: nat,
)
    requires
        !overshoots(demand, node),
        demand_of(demand, key) == requested - held,
        demand_of(demand, key) < 0,
    ensures
        held - count_of(node, key) >= requested,
{
    lemma_index_of(demand, key);
    lemma_index_of(node, key);
    let at = index_of(demand, key);
    assert(demand[at].0 == key);
}

/// Sorted nodes are told by what they hold: two sorted sequences with the
/// same nodes are the same sequence.
pub proof fn lemma_sorted_same(a: Nodes, b: Nodes)
    requires
        sorted(a),
        sorted(b),
        forall|n: (Seq<char>, Seq<(Seq<char>, nat)>)| a.contains(n) <==> b.contains(n),
    ensures
        a == b,
    decreases a.len(),
{
    if a.len() == 0 {
        if b.len() > 0 {
            assert(b.contains(b[0]));
        }
        assert(a =~= b);
    } else {
        assert(a.contains(a[a.len() - 1]));
        let la = a.last();
        let j = choose|j: int| 0 <= j < b.len() && b[j] == la;
        assert(b.contains(b[b.len() - 1]));
        let lb = b.last();
        let i = choose|i: int| 0 <= i < a.len() && a[i] == lb;
        lemma_id_less_total(la.0, lb.0);
        if j < b.len() - 1 {
            assert(id_less(b[j].0, b[b.len() - 1].0));
            if i < a.len() - 1 {
                assert(id_less(a[i].0, a[a.len() - 1].0));
            }
        }
        assert(la == lb);
        let fa = a.drop_last();
        let fb = b.drop_last();
        lemma_sorted_remove(a, a.len() - 1);
        lemma_sorted_remove(b, b.len() - 1);
        assert(a.remove(a.len() - 1) == fa);
        assert(b.remove(b.len() - 1) == fb);
        assert forall|n: (Seq<char>, Seq<(Seq<char>, nat)>)| fa.contains(n) <==> fb.contains(
            n,
        ) by {
            if fa.contains(n) {
                let k = choose|k: int| 0 <= k < fa.len() && fa[k] == n;
                assert(a[k] == n);
                assert(a.contains(n));
                let m = choose|m: int| 0 <= m < b.len() && b[m] == n;
                assert(id_less(a[k].0, a[a.len() - 1].0));
                lemma_id_less_total(n.0, la.0);
                assert(fb[m] == n);
            }
            if fb.contains(n) {
                let k = choose|k: int| 0 <= k < fb.len() && fb[k] == n;
                assert(b[k] == n);
                assert(b.contains(n));
                let m = choose|m: int| 0 <= m < a.len() && a[m] == n;
                assert(id_less(b[k].0, b[b.len() - 1].0));
                lemma_id_less_total(n.0, lb.0);
                assert(fa[m] == n);
            }
        }
        lemma_sorted_same(fa, fb);
        assert(a == fa.push(la));
        assert(b == fb.push(lb));
    }
}

/// The order in which nodes are gathered makes no difference: nodes with
/// distinct identifiers give one inventory, in whatever order they come.
pub proof fn lemma_inventory_order_free(a: Nodes, b: Nodes)
    requires
        ids_distinct(a),
        ids_distinct(b),
        forall|n: (Seq<char>, Seq<(Seq<char>, nat)>)| a.contains(n) <==> b.contains(n),
    ensures
        merged(Seq::empty(), a) == merged(Seq::empty(), b),
{
    let none = Seq::<(Seq<char>, Seq<(Seq<char>, nat)>)>::empty();
    lemma_merged(none, a);
    lemma_merged(none, b);
    assert forall|n: (Seq<char>, Seq<(Seq<char>, nat)>)|
        merged(none, a).contains(n) <==> merged(none, b).contains(n) by {
        assert(merged(none, a).contains(n) <==> none.contains(n) || a.contains(n));
        assert(merged(none, b).contains(n) <==> none.contains(n) || b.contains(n));
    }
    lemma_sorted_same(merged(none, a), merged(none, b));
}

/// The quantities of the components `keys` in `counts`, summed.
pub open spec fn sum_in(keys: Seq<Seq<char>>, counts: Seq<(Seq<char>, nat)>) -> nat
    decreases keys.len(),
{
    if keys.len() == 0 {
        0
    } else {
        sum_in(keys.drop_last(), counts) + count_of(counts, keys.last())
    }
}

/// The quantities of the components `keys` in the whole of `nodes`,
/// summed.
pub open spec fn sum_totals(keys: Seq<Seq<char>>, nodes: Nodes) -> nat
    decreases keys.len(),
{
    if keys.len() == 0 {
        0
    } else {
        sum_totals(keys.drop_last(), nodes) + total_of(nodes, keys.last())
    }
}

proof fn lemma_sum_in_push(
    keys: Seq<Seq<char>>,
    counts: Seq<(Seq<char>, nat)>,
    key: Seq<char>,
    quantity: nat,
)
    requires
        keys.no_duplicates(),
        !has_key(counts, key),
    ensures
        sum_in(keys, counts.push((key, quantity))) == sum_in(keys, counts) + if keys.contains(
            key,
        ) {
            quantity
        } else {
            0
        },
    decreases keys.len(),
{
    let more = counts.push((key, quantity));
    assert(more.drop_last() == counts);
    if keys.len() > 0 {
        let front = keys.drop_last();
        lemma_sum_in_push(front, counts, key, quantity);
        if keys.last() == key {
            assert(keys[keys.len() - 1] == key);
            if front.contains(key) {
                let i = choose|i: int| 0 <= i < front.len() && front[i] == key;
                assert(keys[i] == keys[keys.len() - 1]);
            }
        } else {
            if keys.contains(key) {
                let i = choose|i: int| 0 <= i < keys.len() && keys[i] == key;
                assert(front[i] == key);
            }
            if front.contains(key) {
                let i = choose|i: int| 0 <= i < front.len() && front[i] == key;
                assert(keys[i] == key);
            }
        }
    }
}

proof fn lemma_sum_in_all(keys: Seq<Seq<char>>, counts: Seq<(Seq<char>, nat)>)
    requires
        keys.no_duplicates(),
        keys_distinct(counts),
        forall|i: int| 0 <= i < counts.len() ==> keys.contains((#[trigger] counts[i]).0),
    ensures
        sum_in(keys, counts) == sum_counts(counts),
    decreases counts.len(),
{
    if counts.len() == 0 {
        lemma_sum_in_none(keys);
        assert(counts =~= Seq::empty());
    } else {
        let front = counts.drop_last();
        let e = counts.last();
        assert(keys_distinct(front)) by {
            assert forall|i: int, j: int| 0 <= i < j < front.len() implies (
            #[trigger] front[i]).0 != (#[trigger] front[j]).0 by {
                assert(counts[i].0 != counts[j].0);
            }
        }
        assert forall|i: int| 0 <= i < front.len() implies keys.contains(
            (#[trigger] front[i]).0,
        ) by {
            assert(front[i] == counts[i]);
        }
        lemma_sum_in_all(keys, front);
        lemma_index_of(front, e.0);
        if has_key(front, e.0) {
            assert(counts[index_of(front, e.0)].0 != counts[counts.len() - 1].0);
        }
        assert(counts == front.push((e.0, e.1)));
        assert(keys.contains(counts[counts.len() - 1].0));
        lemma_sum_in_push(keys, front, e.0, e.1);
    }
}

proof fn lemma_sum_in_none(keys: Seq<Seq<char>>)
    ensures
        sum_in(keys, Seq::empty()) == 0,
    decreases keys.len(),
{
    if keys.len() > 0 {
        lemma_sum_in_none(keys.drop_last());
    }
}

proof fn lemma_sum_totals_step(keys: Seq<Seq<char>>, nodes: Nodes)
    requires
        nodes.len() > 0,
    ensures
        sum_totals(keys, nodes) == sum_totals(keys, nodes.drop_last()) + sum_in(
            keys,
            nodes.last().1,
        ),
    decreases keys.len(),
{
    if keys.len() > 0 {
        lemma_sum_totals_step(keys.drop_last(), nodes);
    }
}

proof fn lemma_sum_totals_all(keys: Seq<Seq<char>>, nodes: Nodes)
    requires
        keys.no_duplicates(),
        counts_wf(nodes),
        forall|key: Seq<char>| occurs(nodes, key) ==> keys.contains(key),
    ensures
        sum_totals(keys, nodes) == grand_total(nodes),
    decreases nodes.len(),
{
    if nodes.len() == 0 {
        lemma_sum_totals_none(keys);
        assert(nodes =~= Seq::empty());
    } else {
        let front = nodes.drop_last();
        assert(counts_wf(front)) by {
            assert forall|i: int| 0 <= i < front.len() implies keys_distinct(
                (#[trigger] front[i]).1,
            ) by {
                assert(front[i] == nodes[i]);
            }
        }
        assert forall|key: Seq<char>| occurs(front, key) implies keys.contains(key) by {
            let i = choose|i: int| 0 <= i < front.len() && has_key((#[trigger] front[i]).1, key);
            assert(has_key(nodes[i].1, key));
        }
        lemma_sum_totals_all(keys, front);
        lemma_sum_totals_step(keys, nodes);
        let c = nodes.last().1;
        assert(keys_distinct(nodes[nodes.len() - 1].1));
        assert forall|i: int| 0 <= i < c.len() implies keys.contains((#[trigger] c[i]).0) by {
            lemma_lookup_at(c, i);
            assert(has_key(nodes[nodes.len() - 1].1, c[i].0));
        }
        lemma_sum_in_all(keys, c);
    }
}

proof fn lemma_sum_totals_none(keys: Seq<Seq<char>>)
    ensures
        sum_totals(keys, Seq::empty()) == 0,
    decreases keys.len(),
{
    if keys.len() > 0 {
        lemma_sum_totals_none(keys.drop_last());
    }
}

proof fn lemma_sum_counts_by_key(entries: Seq<(Seq<char>, nat)>, nodes: Nodes)
    requires
        forall|i: int|
            0 <= i < entries.len() ==> (#[trigger] entries[i]).1 == total_of(nodes, entries[i].0),
    ensures
        sum_counts(entries) == sum_totals(keys_of(entries), nodes),
    decreases entries.len(),
{
    if entries.len() > 0 {
        let front = entries.drop_last();
        assert forall|i: int| 0 <= i < front.len() implies (#[trigger] front[i]).1 == total_of(
            nodes,
            front[i].0,
        ) by {
            assert(front[i] == entries[i]);
        }
        lemma_sum_counts_by_key(front, nodes);
        assert(keys_of(entries).drop_last() == keys_of(front));
        assert(entries[entries.len() - 1].1 == total_of(nodes, entries[entries.len() - 1].0));
    }
}

/// The totals of the components add up to the number of all components:
/// the weights of all components add up to the whole scale.
pub proof fn lemma_weights_add_up(nodes: Nodes)
    requires
        counts_wf(nodes),
    ensures
        sum_counts(totals(nodes)) == grand_total(nodes),
        forall|key: Seq<char>| #[trigger] count_of(totals(nodes), key) <= grand_total(nodes),
{
    let all = totals(nodes);
    lemma_totals(nodes);
    assert forall|i: int| 0 <= i < all.len() implies (#[trigger] all[i]).1 == total_of(
        nodes,
        all[i].0,
    ) by {
        lemma_lookup_at(all, i);
        assert(count_of(all, all[i].0) == total_of(nodes, all[i].0));
    }
    lemma_sum_counts_by_key(all, nodes);
    let keys = keys_of(all);
    assert(keys.no_duplicates()) by {
        assert forall|i: int, j: int| 0 <= i < keys.len() && 0 <= j < keys.len() && i
            != j implies keys[i] != keys[j] by {
            if i < j {
                assert(all[i].0 != all[j].0);
            } else {
                assert(all[j].0 != all[i].0);
            }
        }
    }
    assert forall|key: Seq<char>| occurs(nodes, key) implies keys.contains(key) by {
        assert(has_key(all, key));
        lemma_keys_of(all, key);
    }
    lemma_sum_totals_all(keys, nodes);
    assert forall|key: Seq<char>| #[trigger] count_of(all, key) <= grand_total(nodes) by {
        crate::inventory::lemma_total_le_grand(nodes, key);
    }
}

/// What is entered for components that were not asked for.
pub proof fn lemma_unrequested(
    base: Seq<(Seq<char>, int)>,
    wanted: Seq<(Seq<char>, nat)>,
    held: Seq<(Seq<char>, nat)>,
)
    requires
        keys_distinct(held),
    ensures
        keys_distinct(base) ==> keys_distinct(unrequested(base, wanted, held)),
        forall|key: Seq<char>| #[trigger]
            demand_of(unrequested(base, wanted, held), key) == if !has_key(wanted, key)
                && count_of(held, key) > 0 {
                -(count_of(held, key) as int)
            } else {
                demand_of(base, key)
            },
    decreases held.len(),
{
    let out = unrequested(base, wanted, held);
    if held.len() > 0 {
        let front = held.drop_last();
        let rest = unrequested(base, wanted, front);
        let e = held.last();
        assert(keys_distinct(front)) by {
            assert forall|i: int, j: int| 0 <= i < j < front.len() implies (
            #[trigger] front[i]).0 != (#[trigger] front[j]).0 by {
                assert(held[i].0 != held[j].0);
            }
        }
        lemma_unrequested(base, wanted, front);
        lemma_with_entry(rest, e.0, -(e.1 as int));
        lemma_index_of(front, e.0);
        if has_key(front, e.0) {
            assert(held[index_of(front, e.0)].0 != held[held.len() - 1].0);
        }
        assert forall|key: Seq<char>| #[trigger]
            demand_of(out, key) == if !has_key(wanted, key) && count_of(held, key) > 0 {
                -(count_of(held, key) as int)
            } else {
                demand_of(base, key)
            } by {
            assert(demand_of(rest, key) == if !has_key(wanted, key) && count_of(front, key) > 0 {
                -(count_of(front, key) as int)
            } else {
                demand_of(base, key)
            });
            if key != e.0 && !has_key(wanted, e.0) && e.1 > 0 {
                assert(lookup(out, key) == lookup(rest, key));
            }
        }
    }
}

/// The demand for removal, said directly: of a component that was asked
/// for, what the target holds beyond the request; of any other component,
/// all that the target holds. Both are written negative.
pub proof fn lemma_removal_demand(wanted: Seq<(Seq<char>, nat)>, target: Nodes)
    requires
        keys_distinct(wanted),
    ensures
        keys_distinct(removal_demand(wanted, target)),
        forall|key: Seq<char>| #[trigger]
            demand_of(removal_demand(wanted, target), key) == if has_key(wanted, key) {
                if total_of(target, key) > count_of(wanted, key) {
                    count_of(wanted, key) - total_of(target, key)
                } else {
                    0
                }
            } else {
                -(total_of(target, key) as int)
            },
{
    let in_target = filtered_totals(keys_of(wanted), target);
    let base = surpluses(wanted, in_target);
    lemma_surpluses(wanted, in_target);
    lemma_filtered_totals(keys_of(wanted), target);
    lemma_totals(target);
    lemma_unrequested(base, wanted, totals(target));
    assert forall|key: Seq<char>| #[trigger]
        demand_of(removal_demand(wanted, target), key) == if has_key(wanted, key) {
            if total_of(target, key) > count_of(wanted, key) {
                count_of(wanted, key) - total_of(target, key)
            } else {
                0
            }
        } else {
            -(total_of(target, key) as int)
        } by {
        lemma_keys_of(wanted, key);
        assert(count_of(totals(target), key) == total_of(target, key));
        if has_key(wanted, key) {
            assert(count_of(in_target, key) == total_of(target, key));
        }
        assert(demand_of(base, key) == (if count_of(wanted, key) < count_of(in_target, key)
            && has_key(wanted, key) {
            count_of(wanted, key) - count_of(in_target, key)
        } else {
            0
        }));
    }
}

/// Every node has one density: where no identifier comes twice, the
/// densities name each node once, in order, with the sum of its counters.
pub proof fn lemma_densities(nodes: Nodes)
    requires
        ids_distinct(nodes),
    ensures
        densities(nodes) == Seq::new(
            nodes.len(),
            |i: int| (nodes[i].0, sum_counts(nodes[i].1)),
        ),
    decreases nodes.len(),
{
    let want = Seq::new(nodes.len(), |i: int| (nodes[i].0, sum_counts(nodes[i].1)));
    if nodes.len() == 0 {
        assert(densities(nodes) =~= want);
    } else {
        let front = nodes.drop_last();
        assert(ids_distinct(front)) by {
            assert forall|i: int, j: int| 0 <= i < j < front.len() implies (
            #[trigger] front[i]).0 != (#[trigger] front[j]).0 by {
                assert(front[i] == nodes[i] && front[j] == nodes[j]);
            }
        }
        lemma_densities(front);
        let before = densities(front);
        lemma_index_of(before, nodes.last().0);
        if index_of(before, nodes.last().0) >= 0 {
            let at = index_of(before, nodes.last().0);
            assert(before[at].0 == front[at].0);
            assert(nodes[at].0 != nodes[nodes.len() - 1].0);
        }
        assert(densities(nodes) =~= want);
    }
}

/// A node without components adds nothing: entered into a group, a node
/// whose counters are all zero leaves every sum as it was.
pub proof fn lemma_empty_node_adds_nothing(
    nodes: Nodes,
    id: Seq<char>,
    counts: Seq<(Seq<char>, nat)>,
)
    requires
        sorted(nodes),
        forall|i: int| 0 <= i < counts.len() ==> (#[trigger] counts[i]).1 == 0,
    ensures
        forall|key: Seq<char>| #[trigger]
            total_of(inserted(nodes, id, counts), key) == total_of(nodes, key),
        grand_total(inserted(nodes, id, counts)) == grand_total(nodes),
{
    lemma_inserted(nodes, id, counts);
    lemma_all_zero(counts);
    assert forall|key: Seq<char>| #[trigger]
        total_of(inserted(nodes, id, counts), key) == total_of(nodes, key) by {
        lemma_index_of(counts, key);
    }
}

proof fn lemma_all_zero(counts: Seq<(Seq<char>, nat)>)
    requires
        forall|i: int| 0 <= i < counts.len() ==> (#[trigger] counts[i]).1 == 0,
    ensures
        sum_counts(counts) == 0,
    decreases counts.len(),
{
    if counts.len() > 0 {
        let front = counts.drop_last();
        assert forall|i: int| 0 <= i < front.len() implies (#[trigger] front[i]).1 == 0 by {
            assert(front[i] == counts[i]);
        }
        lemma_all_zero(front);
        assert(counts[counts.len() - 1].1 == 0);
    }
}

/// Reconciliation: the new target holds the nodes of the target that did
/// not leave and the nodes that entered; the new pool holds the nodes of
/// the pool and the nodes that left, but for those that entered.
pub proof fn lemma_plan_reconciles(
    desired: Seq<(Seq<char>, nat)>,
    target: Nodes,
    parent: Nodes,
    new_target: Nodes,
    new_parent: Nodes,
)
    requires
        nodes_wf(target),
        nodes_wf(parent),
        disjoint(target, parent),
        plan_outcome(desired, target, parent) == (Outcome::Planned {
            target: new_target,
            parent: new_parent,
        }),
    ensures
        forall|n: (Seq<char>, Seq<(Seq<char>, nat)>)| #[trigger]
            new_target.contains(n) <==> (target.contains(n) && !leaving(
                desired,
                target,
                parent,
            ).1.contains(n)) || entering(desired, target, parent).1.contains(n),
        forall|n: (Seq<char>, Seq<(Seq<char>, nat)>)| #[trigger]
            new_parent.contains(n) <==> (parent.contains(n) || leaving(
                desired,
                target,
                parent,
            ).1.contains(n)) && !entering(desired, target, parent).1.contains(n),
{
    lemma_plan_facts(desired, target, parent);
    let down = leaving(desired, target, parent);
    let pool = merged(parent, down.1);
    let up = entering(desired, target, parent);
    assert forall|n: (Seq<char>, Seq<(Seq<char>, nat)>)| #[trigger]
        new_target.contains(n) <==> (target.contains(n) && !down.1.contains(n)) || up.1.contains(
            n,
        ) by {
        assert(target.contains(n) <==> down.0.contains(n) || down.1.contains(n));
        assert(new_target.contains(n) <==> down.0.contains(n) || up.1.contains(n));
        if down.0.contains(n) && down.1.contains(n) {
            let i = choose|i: int| 0 <= i < down.0.len() && down.0[i] == n;
            let j = choose|j: int| 0 <= j < down.1.len() && down.1[j] == n;
            assert(down.0[i].0 != down.1[j].0);
        }
    }
    assert forall|n: (Seq<char>, Seq<(Seq<char>, nat)>)| #[trigger]
        new_parent.contains(n) <==> (parent.contains(n) || down.1.contains(n)) && !up.1.contains(
            n,
        ) by {
        assert(pool.contains(n) <==> parent.contains(n) || down.1.contains(n));
        assert(pool.contains(n) <==> up.0.contains(n) || up.1.contains(n));
        if up.0.contains(n) && up.1.contains(n) {
            let i = choose|i: int| 0 <= i < up.0.len() && up.0[i] == n;
            let j = choose|j: int| 0 <= j < up.1.len() && up.1[j] == n;
            assert(up.0[i].0 != up.1[j].0);
        }
    }
}

/// A demand that says of every component that is asked for and held in
/// excess how great the excess is.
pub open spec fn tracks_excess(
    demand: Seq<(Seq<char>, int)>,
    wanted: Seq<(Seq<char>, nat)>,
    held: Nodes,
) -> bool {
    &&& keys_distinct(demand)
    &&& forall|key: Seq<char>|
        has_key(wanted, key) && total_of(held, key) > count_of(wanted, key) ==> #[trigger] demand_of(
            demand,
            key,
        ) == count_of(wanted, key) - total_of(held, key)
}

/// Whether, at every step of the shrinking of the target, the node that
/// leaves takes no component that is asked for, and held in excess at
/// that step, below the request.
pub open spec fn never_overshoots(
    candidates: Nodes,
    demand: Seq<(Seq<char>, int)>,
    wanted: Seq<(Seq<char>, nat)>,
    weights: Shares,
) -> bool
    decreases candidates.len(),
{
    if candidates.len() == 0 {
        true
    } else {
        let held = filtered_totals(keys_of(wanted), candidates);
        let best = crate::score::best_index(
            crate::score::downscale_scores(candidates, demand, wanted, weights, held),
        );
        let node = candidates[best];
        if 0 <= best < candidates.len() && touches(demand, node.1) && !overshoots(demand, node.1) {
            &&& forall|key: Seq<char>|
                has_key(wanted, key) && #[trigger] total_of(candidates, key) > count_of(wanted, key)
                    ==> total_of(candidates, key) - count_of(node.1, key) >= count_of(wanted, key)
            &&& never_overshoots(candidates.remove(best), settled(demand, node.1), wanted, weights)
        } else {
            true
        }
    }
}

proof fn lemma_never_overshoots(
    candidates: Nodes,
    demand: Seq<(Seq<char>, int)>,
    wanted: Seq<(Seq<char>, nat)>,
    weights: Shares,
)
    requires
        tracks_excess(demand, wanted, candidates),
    ensures
        never_overshoots(candidates, demand, wanted, weights),
    decreases candidates.len(),
{
    if candidates.len() > 0 {
        let held = filtered_totals(keys_of(wanted), candidates);
        let best = crate::score::best_index(
            crate::score::downscale_scores(candidates, demand, wanted, weights, held),
        );
        let node = candidates[best];
        if 0 <= best < candidates.len() && touches(demand, node.1) && !overshoots(demand, node.1) {
            let others = candidates.remove(best);
            let after = settled(demand, node.1);
            lemma_settled(demand, node.1);
            assert forall|key: Seq<char>|
                has_key(wanted, key) && #[trigger] total_of(candidates, key) > count_of(
                    wanted,
                    key,
                ) implies total_of(candidates, key) - count_of(node.1, key) >= count_of(
                wanted,
                key,
            ) by {
                assert(demand_of(demand, key) == count_of(wanted, key) - total_of(candidates, key));
                lemma_step_keeps_floor(
                    demand,
                    node.1,
                    key,
                    count_of(wanted, key),
                    total_of(candidates, key),
                );
            }
            assert forall|key: Seq<char>|
                has_key(wanted, key) && total_of(others, key) > count_of(
                    wanted,
                    key,
                ) implies #[trigger] demand_of(after, key) == count_of(wanted, key) - total_of(
                others,
                key,
            ) by {
                lemma_remove_totals(candidates, best, key);
                assert(demand_of(demand, key) == count_of(wanted, key) - total_of(candidates, key));
                lemma_index_of(node.1, key);
            }
            lemma_never_overshoots(others, after, wanted, weights);
        }
    }
}

/// No overshoot: while the target shrinks, no node leaves that would take
/// a component that is asked for, and of which the target then holds more
/// than the request, below the request.
pub proof fn lemma_downscale_never_overshoots(
    desired: Seq<(Seq<char>, nat)>,
    target: Nodes,
    parent: Nodes,
)
    ensures
        never_overshoots(
            target,
            removal_demand(request_of(desired, target, parent), target),
            request_of(desired, target, parent),
            union_weights(merged(target, parent)),
        ),
{
    let wanted = request_of(desired, target, parent);
    lemma_known(desired, totals(merged(target, parent)));
    lemma_removal_demand(wanted, target);
    lemma_never_overshoots(
        target,
        removal_demand(wanted, target),
        wanted,
        union_weights(merged(target, parent)),
    );
}

/// Empty target: nothing leaves it; the new target is taken from the pool
/// and holds of every component that occurs in the pool at least what was
/// asked for, so it is not empty where something is asked for; the new
/// pool is the rest of the pool.
pub proof fn lemma_empty_target_is_filled(
    desired: Seq<(Seq<char>, nat)>,
    parent: Nodes,
    new_target: Nodes,
    new_parent: Nodes,
)
    requires
        nodes_wf(parent),
        plan_outcome(desired, Seq::empty(), parent) == (Outcome::Planned {
            target: new_target,
            parent: new_parent,
        }),
    ensures
        leaving(desired, Seq::empty(), parent).1 == Seq::<
            (Seq<char>, Seq<(Seq<char>, nat)>),
        >::empty(),
        forall|n: (Seq<char>, Seq<(Seq<char>, nat)>)| #[trigger]
            new_target.contains(n) ==> parent.contains(n),
        forall|n: (Seq<char>, Seq<(Seq<char>, nat)>)| #[trigger]
            new_parent.contains(n) <==> parent.contains(n) && !new_target.contains(n),
        forall|key: Seq<char>|
            occurs(parent, key) ==> #[trigger] total_of(new_target, key) >= count_of(desired, key),
        (exists|key: Seq<char>| occurs(parent, key) && count_of(desired, key) > 0)
            ==> new_target.len() > 0,
{
    let target = Seq::<(Seq<char>, Seq<(Seq<char>, nat)>)>::empty();
    assert(nodes_wf(target));
    assert(disjoint(target, parent));
    lemma_plan_conserves(desired, target, parent, new_target, new_parent);
    lemma_plan_satisfies(desired, target, parent, new_target, new_parent);
    lemma_plan_facts(desired, target, parent);
    let union = merged(target, parent);
    lemma_sorted_ids_distinct(parent);
    lemma_merged(target, parent);
    assert forall|n: (Seq<char>, Seq<(Seq<char>, nat)>)| #[trigger]
        new_target.contains(n) implies parent.contains(n) by {
        assert(new_target.contains(n) || new_parent.contains(n) <==> target.contains(n)
            || parent.contains(n));
    }
    assert forall|n: (Seq<char>, Seq<(Seq<char>, nat)>)| #[trigger]
        new_parent.contains(n) <==> parent.contains(n) && !new_target.contains(n) by {
        assert(new_target.contains(n) || new_parent.contains(n) <==> target.contains(n)
            || parent.contains(n));
        if new_target.contains(n) && new_parent.contains(n) {
            let i = choose|i: int| 0 <= i < new_target.len() && new_target[i] == n;
            let j = choose|j: int| 0 <= j < new_parent.len() && new_parent[j] == n;
            assert(new_target[i].0 != new_parent[j].0);
        }
    }
    assert forall|key: Seq<char>| occurs(parent, key) implies #[trigger] total_of(new_target, key)
        >= count_of(desired, key) by {
        let at = choose|at: int| 0 <= at < parent.len() && has_key((#[trigger] parent[at]).1, key);
        assert(parent.contains(parent[at]));
        assert(union.contains(parent[at]));
        let u = choose|u: int| 0 <= u < union.len() && union[u] == parent[at];
        assert(has_key(union[u].1, key));
        assert(occurs(union, key));
    }
    if exists|key: Seq<char>| occurs(parent, key) && count_of(desired, key) > 0 {
        let key = choose|key: Seq<char>| occurs(parent, key) && count_of(desired, key) > 0;
        assert(total_of(new_target, key) >= count_of(desired, key));
        if new_target.len() == 0 {
            assert(total_of(new_target, key) == 0);
        }
    }
}

/// A node without components takes nothing off the demand: where every
/// entry of the demand is negative and every counter of the node is zero,
/// the demand is the same once the node has moved.
pub proof fn lemma_empty_node_settles_nothing(
    demand: Seq<(Seq<char>, int)>,
    node: Seq<(Seq<char>, nat)>,
)
    requires
        keys_distinct(demand),
        forall|i: int| 0 <= i < demand.len() ==> (#[trigger] demand[i]).1 < 0,
        forall|i: int| 0 <= i < node.len() ==> (#[trigger] node[i]).1 == 0,
    ensures
        settled(demand, node) == demand,
    decreases demand.len(),
{
    if demand.len() == 0 {
        assert(settled(demand, node) =~= demand);
    } else {
        let front = demand.drop_last();
        let e = demand.last();
        assert(keys_distinct(front)) by {
            assert forall|i: int, j: int| 0 <= i < j < front.len() implies (
            #[trigger] front[i]).0 != (#[trigger] front[j]).0 by {
                assert(demand[i].0 != demand[j].0);
            }
        }
        assert forall|i: int| 0 <= i < front.len() implies (#[trigger] front[i]).1 < 0 by {
            assert(front[i] == demand[i]);
        }
        lemma_empty_node_settles_nothing(front, node);
        lemma_index_of(front, e.0);
        if index_of(front, e.0) >= 0 {
            assert(demand[index_of(front, e.0)].0 != demand[demand.len() - 1].0);
        }
        lemma_index_of(node, e.0);
        assert(count_of(node, e.0) == 0);
        assert(demand[demand.len() - 1].1 < 0);
        assert(settled(demand, node) =~= front.push(e));
        assert(front.push(e) =~= demand);
    }
}

/// A component occurs in two groups put together just where it occurs in
/// one of them, and what they hold of it together is the sum.
pub proof fn lemma_occurs_merged(target: Nodes, parent: Nodes, key: Seq<char>)
    requires
        sorted(target),
        sorted(parent),
        disjoint(target, parent),
    ensures
        occurs(merged(target, parent), key) <==> occurs(target, key) || occurs(parent, key),
        total_of(merged(target, parent), key) == total_of(target, key) + total_of(parent, key),
{
    let union = merged(target, parent);
    lemma_sorted_ids_distinct(parent);
    lemma_merged(target, parent);
    if occurs(union, key) {
        let at = choose|at: int| 0 <= at < union.len() && has_key((#[trigger] union[at]).1, key);
        let n = union[at];
        assert(union.contains(n));
        assert(target.contains(n) || parent.contains(n));
        if target.contains(n) {
            let i = choose|i: int| 0 <= i < target.len() && target[i] == n;
            assert(has_key(target[i].1, key));
        } else {
            let i = choose|i: int| 0 <= i < parent.len() && parent[i] == n;
            assert(has_key(parent[i].1, key));
        }
    }
    if occurs(target, key) {
        let at = choose|at: int| 0 <= at < target.len() && has_key((#[trigger] target[at]).1, key);
        assert(target.contains(target[at]));
        assert(union.contains(target[at]));
        let u = choose|u: int| 0 <= u < union.len() && union[u] == target[at];
        assert(has_key(union[u].1, key));
    }
    if occurs(parent, key) {
        let at = choose|at: int| 0 <= at < parent.len() && has_key((#[trigger] parent[at]).1, key);
        assert(parent.contains(parent[at]));
        assert(union.contains(parent[at]));
        let u = choose|u: int| 0 <= u < union.len() && union[u] == parent[at];
        assert(has_key(union[u].1, key));
    }
    assert(total_of(union, key) == total_of(target, key) + total_of(parent, key));
}

} // verus!
