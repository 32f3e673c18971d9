//! Sums over a group: per component, per node and over all.
use crate::counts::{
    count_of, has_key, keys_distinct, lemma_with_entry, lookup, sum_counts, with_entry,
    ComponentCounts,
};
use crate::inventory::{
    grand_total, lemma_prefix_totals, total_of, GroupInventory, Nodes,
};
use crate::text::texts;
use vstd::prelude::*;

verus! {

/// The quantity of the component `key` in the whole group.
pub fn component_total(inventory: &GroupInventory, key: &str) -> (r: usize)
    requires
        total_of(inventory@, key@) <= usize::MAX,
    ensures
        r == total_of(inventory@, key@),
{
    let mut sum: usize = 0;
    let mut i: usize = 0;
    proof {
        assert(inventory@.take(0) == Seq::<(Seq<char>, Seq<(Seq<char>, nat)>)>::empty());
    }
    while i < inventory.len()
        invariant
            i <= inventory@.len(),
            sum == total_of(inventory@.take(i as int), key@),
            total_of(inventory@, key@) <= usize::MAX,
        decreases inventory@.len() - i,
    {
        proof {
            assert(inventory@.take(i + 1).drop_last() == inventory@.take(i as int));
            lemma_prefix_totals(inventory@, i as int, key@);
        }
        sum = sum + inventory.counts(i).count(key);
        i = i + 1;
    }
    proof {
        assert(inventory@.take(inventory@.len() as int) == inventory@);
    }
    sum
}

/// For each of `keys`, in their order, its quantity in the whole group.
pub open spec fn filtered_totals(keys: Seq<Seq<char>>, nodes: Nodes) -> Seq<(Seq<char>, nat)>
    decreases keys.len(),
{
    if keys.len() == 0 {
        Seq::empty()
    } else {
        with_entry(filtered_totals(keys.drop_last(), nodes), keys.last(), total_of(nodes, keys.last()))
    }
}

/// The filtered totals name just the given components, each once and with
/// its sum.
pub proof fn lemma_filtered_totals(keys: Seq<Seq<char>>, nodes: Nodes)
    ensures
        keys_distinct(filtered_totals(keys, nodes)),
        forall|key: Seq<char>| #[trigger]
            has_key(filtered_totals(keys, nodes), key) <==> keys.contains(key),
        forall|key: Seq<char>|
            keys.contains(key) ==> #[trigger] count_of(filtered_totals(keys, nodes), key)
                == total_of(nodes, key),
    decreases keys.len(),
{
    let out = filtered_totals(keys, nodes);
    if keys.len() == 0 {
        assert(keys_distinct(out));
        assert forall|key: Seq<char>| #[trigger] has_key(out, key) <==> keys.contains(key) by {}
    } else {
        let front = keys.drop_last();
        let rest = filtered_totals(front, nodes);
        lemma_filtered_totals(front, nodes);
        lemma_with_entry(rest, keys.last(), total_of(nodes, keys.last()));
        assert forall|key: Seq<char>| #[trigger] has_key(out, key) <==> keys.contains(key) by {
            if key != keys.last() {
                assert(lookup(out, key) == lookup(rest, key));
                assert(has_key(rest, key) <==> front.contains(key));
                if front.contains(key) {
                    let i = choose|i: int| 0 <= i < front.len() && front[i] == key;
                    assert(keys[i] == key);
                }
                if keys.contains(key) {
                    let i = choose|i: int| 0 <= i < keys.len() && keys[i] == key;
                    assert(front[i] == key);
                }
            } else {
                assert(keys[keys.len() - 1] == key);
            }
        }
        assert forall|key: Seq<char>| keys.contains(key) implies #[trigger] count_of(out, key)
            == total_of(nodes, key) by {
            if key != keys.last() {
                assert(lookup(out, key) == lookup(rest, key));
                let i = choose|i: int| 0 <= i < keys.len() && keys[i] == key;
                assert(front[i] == key);
                assert(front.contains(key));
                assert(count_of(rest, key) == total_of(nodes, key));
            }
        }
    }
}

/// Sums the components that `keys` names over a group. A component named
/// twice is entered once.
pub fn get_hsm_hw_component_count_filtered_by_user_request(
    keys: &Vec<String>,
    inventory: &GroupInventory,
) -> (r: ComponentCounts)
    requires
        forall|i: int| 0 <= i < keys@.len() ==> total_of(inventory@, (#[trigger] keys@[i])@)
            <= usize::MAX,
    ensures
        r@ == filtered_totals(texts(keys@), inventory@),
        r.wf(),
{
    let mut out = ComponentCounts::new();
    let mut i: usize = 0;
    proof {
        assert(texts(keys@).take(0) == Seq::<Seq<char>>::empty());
    }
    while i < keys.len()
        invariant
            i <= keys@.len(),
            out@ == filtered_totals(texts(keys@).take(i as int), inventory@),
            forall|i: int| 0 <= i < keys@.len() ==> total_of(inventory@, (#[trigger] keys@[i])@)
                <= usize::MAX,
        decreases keys@.len() - i,
    {
        let sum: usize = component_total(inventory, keys[i].as_str());
        proof {
            let t = texts(keys@);
            assert(t.take(i + 1).drop_last() == t.take(i as int));
            assert(t.take(i + 1).last() == keys@[i as int]@);
        }
        out.insert(keys[i].clone(), sum);
        i = i + 1;
    }
    proof {
        assert(texts(keys@).take(keys@.len() as int) == texts(keys@));
        lemma_filtered_totals(texts(keys@), inventory@);
    }
    out
}

/// `acc` with the components of one node entered, each with its quantity
/// in `all`.
pub open spec fn tally_node(acc: Seq<(Seq<char>, nat)>, counts: Seq<(Seq<char>, nat)>, all: Nodes) -> Seq<
    (Seq<char>, nat),
>
    decreases counts.len(),
{
    if counts.len() == 0 {
        acc
    } else {
        with_entry(
            tally_node(acc, counts.drop_last(), all),
            counts.last().0,
            total_of(all, counts.last().0),
        )
    }
}

/// The components of the nodes `prefix`, in the order in which they first
/// occur, each with its quantity in `all`.
pub open spec fn tally(prefix: Nodes, all: Nodes) -> Seq<(Seq<char>, nat)>
    decreases prefix.len(),
{
    if prefix.len() == 0 {
        Seq::empty()
    } else {
        tally_node(tally(prefix.drop_last(), all), prefix.last().1, all)
    }
}

/// The components that occur in `nodes`, in the order in which they first
/// occur, each with its quantity in the whole.
pub open spec fn totals(nodes: Nodes) -> Seq<(Seq<char>, nat)> {
    tally(nodes, nodes)
}

/// Whether some node names the component `key`.
pub open spec fn occurs(nodes: Nodes, key: Seq<char>) -> bool {
    exists|i: int| 0 <= i < nodes.len() && has_key((#[trigger] nodes[i]).1, key)
}

pub proof fn lemma_tally_node(
    acc: Seq<(Seq<char>, nat)>,
    counts: Seq<(Seq<char>, nat)>,
    all: Nodes,
)
    requires
        keys_distinct(acc),
        forall|key: Seq<char>| #[trigger] has_key(acc, key) ==> count_of(acc, key) == total_of(all, key),
    ensures
        keys_distinct(tally_node(acc, counts, all)),
        forall|key: Seq<char>| #[trigger]
            has_key(tally_node(acc, counts, all), key) ==> count_of(
                tally_node(acc, counts, all),
                key,
            ) == total_of(all, key),
        forall|key: Seq<char>| #[trigger]
            has_key(tally_node(acc, counts, all), key) <==> has_key(acc, key) || has_key(
                counts,
                key,
            ),
    decreases counts.len(),
{
    let out = tally_node(acc, counts, all);
    if counts.len() > 0 {
        let rest = tally_node(acc, counts.drop_last(), all);
        let e = counts.last();
        lemma_tally_node(acc, counts.drop_last(), all);
        lemma_with_entry(rest, e.0, total_of(all, e.0));
        assert forall|key: Seq<char>| #[trigger] has_key(out, key) implies count_of(out, key)
            == total_of(all, key) by {
            if key != e.0 {
                assert(lookup(out, key) == lookup(rest, key));
                assert(has_key(rest, key));
            }
        }
        assert forall|key: Seq<char>| #[trigger]
            has_key(out, key) <==> has_key(acc, key) || has_key(counts, key) by {
            if key != e.0 {
                assert(lookup(out, key) == lookup(rest, key));
                assert(has_key(rest, key) <==> has_key(acc, key) || has_key(
                    counts.drop_last(),
                    key,
                ));
            }
        }
    }
}

pub proof fn lemma_tally(prefix: Nodes, all: Nodes)
    ensures
        keys_distinct(tally(prefix, all)),
        forall|key: Seq<char>| #[trigger]
            has_key(tally(prefix, all), key) ==> count_of(tally(prefix, all), key) == total_of(
                all,
                key,
            ),
        forall|key: Seq<char>| #[trigger] has_key(tally(prefix, all), key) <==> occurs(prefix, key),
    decreases prefix.len(),
{
    let out = tally(prefix, all);
    if prefix.len() == 0 {
        assert(keys_distinct(out));
        assert forall|key: Seq<char>| #[trigger] has_key(out, key) <==> occurs(prefix, key) by {}
    } else {
        let front = prefix.drop_last();
        lemma_tally(front, all);
        lemma_tally_node(tally(front, all), prefix.last().1, all);
        assert forall|key: Seq<char>| #[trigger] has_key(out, key) <==> occurs(prefix, key) by {
            assert(has_key(tally(front, all), key) <==> occurs(front, key));
            if occurs(front, key) {
                let i = choose|i: int| 0 <= i < front.len() && has_key((#[trigger] front[i]).1, key);
                assert(has_key(prefix[i].1, key));
            }
            if has_key(prefix.last().1, key) {
                assert(has_key(prefix[prefix.len() - 1].1, key));
            }
            if occurs(prefix, key) {
                let i = choose|i: int|
                    0 <= i < prefix.len() && has_key((#[trigger] prefix[i]).1, key);
                if i < front.len() {
                    assert(has_key(front[i].1, key));
                }
            }
        }
    }
}

/// A component that no node names sums to zero.
pub proof fn lemma_total_of_absent(nodes: Nodes, key: Seq<char>)
    requires
        !occurs(nodes, key),
    ensures
        total_of(nodes, key) == 0,
    decreases nodes.len(),
{
    if nodes.len() > 0 {
        let front = nodes.drop_last();
        assert(!has_key(nodes[nodes.len() - 1].1, key));
        assert(!occurs(front, key)) by {
            if occurs(front, key) {
                let i = choose|i: int| 0 <= i < front.len() && has_key((#[trigger] front[i]).1, key);
                assert(has_key(nodes[i].1, key));
            }
        }
        lemma_total_of_absent(front, key);
    }
}

/// The totals name each component that occurs once, with its sum; for every
/// component, present or not, they give the sum over the nodes.
pub proof fn lemma_totals(nodes: Nodes)
    ensures
        keys_distinct(totals(nodes)),
        forall|key: Seq<char>| #[trigger] has_key(totals(nodes), key) <==> occurs(nodes, key),
        forall|key: Seq<char>| #[trigger] count_of(totals(nodes), key) == total_of(nodes, key),
{
    lemma_tally(nodes, nodes);
    assert forall|key: Seq<char>| #[trigger] count_of(totals(nodes), key) == total_of(
        nodes,
        key,
    ) by {
        if !has_key(totals(nodes), key) {
            lemma_total_of_absent(nodes, key);
        }
    }
}

/// Sums each component over a group.
pub fn calculate_hsm_hw_component_count(inventory: &GroupInventory) -> (r: ComponentCounts)
    requires
        forall|key: Seq<char>| #[trigger] total_of(inventory@, key) <= usize::MAX,
    ensures
        r@ == totals(inventory@),
        r.wf(),
{
    let mut out = ComponentCounts::new();
    let mut i: usize = 0;
    proof {
        assert(inventory@.take(0) == Seq::<(Seq<char>, Seq<(Seq<char>, nat)>)>::empty());
    }
    while i < inventory.len()
        invariant
            i <= inventory@.len(),
            out@ == tally(inventory@.take(i as int), inventory@),
            forall|key: Seq<char>| #[trigger] total_of(inventory@, key) <= usize::MAX,
        decreases inventory@.len() - i,
    {
        let counts: &ComponentCounts = inventory.counts(i);
        let mut j: usize = 0;
        proof {
            assert(counts@.take(0) == Seq::<(Seq<char>, nat)>::empty());
        }
        while j < counts.len()
            invariant
                j <= counts@.len(),
                out@ == tally_node(
                    tally(inventory@.take(i as int), inventory@),
                    counts@.take(j as int),
                    inventory@,
                ),
                forall|key: Seq<char>| #[trigger] total_of(inventory@, key) <= usize::MAX,
            decreases counts@.len() - j,
        {
            let key: &String = counts.key(j);
            let sum: usize = component_total(inventory, key.as_str());
            proof {
                assert(counts@.take(j + 1).drop_last() == counts@.take(j as int));
            }
            out.insert(key.clone(), sum);
            j = j + 1;
        }
        proof {
            assert(counts@.take(counts@.len() as int) == counts@);
            assert(inventory@.take(i + 1).drop_last() == inventory@.take(i as int));
        }
        i = i + 1;
    }
    proof {
        assert(inventory@.take(inventory@.len() as int) == inventory@);
        lemma_totals(inventory@);
    }
    out
}

/// For each node, in order, the sum of its quantities.
pub open spec fn densities(nodes: Nodes) -> Seq<(Seq<char>, nat)>
    decreases nodes.len(),
{
    if nodes.len() == 0 {
        Seq::empty()
    } else {
        with_entry(densities(nodes.drop_last()), nodes.last().0, sum_counts(nodes.last().1))
    }
}

/// The density of each node: how many components it carries, of whatever
/// kind.
pub fn calculate_node_density_score(inventory: &GroupInventory) -> (r: ComponentCounts)
    requires
        forall|i: int| 0 <= i < inventory@.len() ==> sum_counts((#[trigger] inventory@[i]).1)
            <= usize::MAX,
    ensures
        r@ == densities(inventory@),
        r.wf(),
{
    let mut out = ComponentCounts::new();
    let mut i: usize = 0;
    proof {
        assert(inventory@.take(0) == Seq::<(Seq<char>, Seq<(Seq<char>, nat)>)>::empty());
    }
    while i < inventory.len()
        invariant
            i <= inventory@.len(),
            out.wf(),
            out@ == densities(inventory@.take(i as int)),
            forall|i: int| 0 <= i < inventory@.len() ==> sum_counts((#[trigger] inventory@[i]).1)
                <= usize::MAX,
        decreases inventory@.len() - i,
    {
        proof {
            assert(inventory@.take(i + 1).drop_last() == inventory@.take(i as int));
            assert(sum_counts(inventory@[i as int].1) <= usize::MAX);
        }
        let density: usize = inventory.counts(i).total();
        out.insert(inventory.id(i).clone(), density);
        i = i + 1;
    }
    proof {
        assert(inventory@.take(inventory@.len() as int) == inventory@);
    }
    out
}

/// How many components the group holds in all.
pub fn calculate_hsm_total_number_hw_components(inventory: &GroupInventory) -> (r: usize)
    requires
        grand_total(inventory@) <= usize::MAX,
    ensures
        r == grand_total(inventory@),
{
    let mut sum: usize = 0;
    let mut i: usize = 0;
    proof {
        assert(inventory@.take(0) == Seq::<(Seq<char>, Seq<(Seq<char>, nat)>)>::empty());
    }
    while i < inventory.len()
        invariant
            i <= inventory@.len(),
            sum == grand_total(inventory@.take(i as int)),
            grand_total(inventory@) <= usize::MAX,
        decreases inventory@.len() - i,
    {
        proof {
            assert(inventory@.take(i + 1).drop_last() == inventory@.take(i as int));
            lemma_prefix_totals(inventory@, i as int, Seq::empty());
        }
        sum = sum + inventory.counts(i).total();
        i = i + 1;
    }
    proof {
        assert(inventory@.take(inventory@.len() as int) == inventory@);
    }
    sum
}

} // verus!
