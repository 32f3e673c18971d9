//! Group inventories and what is summed over them.
use crate::counts::{count_of, keys_distinct, sum_counts, ComponentCounts};
use crate::text::{id_less, lemma_id_less_total, lemma_id_less_transitive, node_id_less, same_text};
use vstd::prelude::*;

verus! {

/// What a group inventory holds: node identifiers with their counters.
pub type Nodes = Seq<(Seq<char>, Seq<(Seq<char>, nat)>)>;

/// The identifiers rise strictly from node to node.
pub open spec fn sorted(nodes: Nodes) -> bool {
    forall|i: int, j: int|
        0 <= i < j < nodes.len() ==> id_less((#[trigger] nodes[i]).0, (#[trigger] nodes[j]).0)
}

/// Sorted, and no node names a component twice.
pub open spec fn nodes_wf(nodes: Nodes) -> bool {
    &&& sorted(nodes)
    &&& forall|i: int| 0 <= i < nodes.len() ==> keys_distinct((#[trigger] nodes[i]).1)
}

pub open spec fn has_node(nodes: Nodes, id: Seq<char>) -> bool {
    exists|i: int| 0 <= i < nodes.len() && (#[trigger] nodes[i]).0 == id
}

/// The identifiers of `nodes`, in order.
pub open spec fn ids_of(nodes: Nodes) -> Seq<Seq<char>> {
    Seq::new(nodes.len(), |i: int| nodes[i].0)
}

/// How many of `nodes` come before `id`.
pub open spec fn rank(nodes: Nodes, id: Seq<char>) -> int
    decreases nodes.len(),
{
    if nodes.len() == 0 {
        0
    } else {
        rank(nodes.drop_last(), id) + if id_less(nodes.last().0, id) {
            1int
        } else {
            0int
        }
    }
}

/// `nodes` with the node `id` at its place in the order; unchanged where a
/// node of that identifier is present.
pub open spec fn inserted(nodes: Nodes, id: Seq<char>, counts: Seq<(Seq<char>, nat)>) -> Nodes {
    if has_node(nodes, id) {
        nodes
    } else {
        nodes.insert(rank(nodes, id), (id, counts))
    }
}

/// The quantity of `key` summed over `nodes`.
pub open spec fn total_of(nodes: Nodes, key: Seq<char>) -> nat
    decreases nodes.len(),
{
    if nodes.len() == 0 {
        0
    } else {
        total_of(nodes.drop_last(), key) + count_of(nodes.last().1, key)
    }
}

/// All quantities of all `nodes`, summed.
pub open spec fn grand_total(nodes: Nodes) -> nat
    decreases nodes.len(),
{
    if nodes.len() == 0 {
        0
    } else {
        grand_total(nodes.drop_last()) + sum_counts(nodes.last().1)
    }
}

pub proof fn lemma_rank(nodes: Nodes, id: Seq<char>, p: int)
    requires
        0 <= p <= nodes.len(),
        forall|i: int| 0 <= i < p ==> id_less((#[trigger] nodes[i]).0, id),
        forall|i: int| p <= i < nodes.len() ==> !id_less((#[trigger] nodes[i]).0, id),
    ensures
        rank(nodes, id) == p,
    decreases nodes.len(),
{
    if nodes.len() > 0 {
        let front = nodes.drop_last();
        let q = if p == nodes.len() {
            p - 1
        } else {
            p
        };
        assert forall|i: int| 0 <= i < q implies id_less((#[trigger] front[i]).0, id) by {
            assert(front[i] == nodes[i]);
        }
        assert forall|i: int| q <= i < front.len() implies !id_less((#[trigger] front[i]).0, id) by {
            assert(front[i] == nodes[i]);
        }
        lemma_rank(front, id, q);
        assert(nodes.last() == nodes[nodes.len() - 1]);
    }
}

/// In sorted nodes those that come before `id` are the first `rank` ones.
pub proof fn lemma_rank_splits(nodes: Nodes, id: Seq<char>)
    requires
        sorted(nodes),
    ensures
        0 <= rank(nodes, id) <= nodes.len(),
        forall|i: int| 0 <= i < rank(nodes, id) ==> id_less((#[trigger] nodes[i]).0, id),
        forall|i: int| rank(nodes, id) <= i < nodes.len() ==> !id_less((#[trigger] nodes[i]).0, id),
    decreases nodes.len(),
{
    if nodes.len() > 0 {
        let front = nodes.drop_last();
        assert(sorted(front)) by {
            assert forall|i: int, j: int| 0 <= i < j < front.len() implies id_less(
                (#[trigger] front[i]).0,
                (#[trigger] front[j]).0,
            ) by {
                assert(front[i] == nodes[i] && front[j] == nodes[j]);
            }
        }
        lemma_rank_splits(front, id);
        let r = rank(front, id);
        if id_less(nodes.last().0, id) {
            assert forall|i: int| 0 <= i < nodes.len() implies id_less(
                (#[trigger] nodes[i]).0,
                id,
            ) by {
                if i < nodes.len() - 1 {
                    assert(id_less(nodes[i].0, nodes[nodes.len() - 1].0));
                    lemma_id_less_transitive(nodes[i].0, nodes.last().0, id);
                }
            }
            lemma_rank(nodes, id, nodes.len() as int);
        } else {
            assert forall|i: int| 0 <= i < r implies id_less((#[trigger] nodes[i]).0, id) by {
                assert(front[i] == nodes[i]);
            }
            assert forall|i: int| r <= i < nodes.len() implies !id_less(
                (#[trigger] nodes[i]).0,
                id,
            ) by {
                if i < front.len() {
                    assert(front[i] == nodes[i]);
                }
            }
        }
    }
}

pub proof fn lemma_inserted_wf(nodes: Nodes, id: Seq<char>, counts: Seq<(Seq<char>, nat)>)
    requires
        nodes_wf(nodes),
        keys_distinct(counts),
    ensures
        nodes_wf(inserted(nodes, id, counts)),
{
    if !has_node(nodes, id) {
        lemma_rank_splits(nodes, id);
        let r = rank(nodes, id);
        let out = nodes.insert(r, (id, counts));
        assert forall|i: int, j: int| 0 <= i < j < out.len() implies id_less(
            (#[trigger] out[i]).0,
            (#[trigger] out[j]).0,
        ) by {
            if j == r {
                assert(out[i] == nodes[i]);
            } else if i == r {
                assert(out[j] == nodes[j - 1]);
                assert(!id_less(nodes[j - 1].0, id));
                lemma_id_less_total(nodes[j - 1].0, id);
                assert(nodes[j - 1].0 != id);
            } else {
                let a = if i < r {
                    i
                } else {
                    i - 1
                };
                let b = if j < r {
                    j
                } else {
                    j - 1
                };
                assert(out[i] == nodes[a] && out[j] == nodes[b]);
            }
        }
        assert forall|i: int| 0 <= i < out.len() implies keys_distinct((#[trigger] out[i]).1) by {
            if i < r {
                assert(out[i] == nodes[i]);
            } else if i > r {
                assert(out[i] == nodes[i - 1]);
            }
        }
    }
}

pub proof fn lemma_removed_wf(nodes: Nodes, at: int)
    requires
        nodes_wf(nodes),
        0 <= at < nodes.len(),
    ensures
        nodes_wf(nodes.remove(at)),
{
    let out = nodes.remove(at);
    assert forall|i: int, j: int| 0 <= i < j < out.len() implies id_less(
        (#[trigger] out[i]).0,
        (#[trigger] out[j]).0,
    ) by {
        let a = if i < at {
            i
        } else {
            i + 1
        };
        let b = if j < at {
            j
        } else {
            j + 1
        };
        assert(out[i] == nodes[a] && out[j] == nodes[b]);
    }
    assert forall|i: int| 0 <= i < out.len() implies keys_distinct((#[trigger] out[i]).1) by {
        let a = if i < at {
            i
        } else {
            i + 1
        };
        assert(out[i] == nodes[a]);
    }
}

pub proof fn lemma_count_le_sum(counts: Seq<(Seq<char>, nat)>, key: Seq<char>)
    ensures
        count_of(counts, key) <= sum_counts(counts),
    decreases counts.len(),
{
    if counts.len() > 0 {
        lemma_count_le_sum(counts.drop_last(), key);
    }
}

pub proof fn lemma_total_le_grand(nodes: Nodes, key: Seq<char>)
    ensures
        total_of(nodes, key) <= grand_total(nodes),
    decreases nodes.len(),
{
    if nodes.len() > 0 {
        lemma_total_le_grand(nodes.drop_last(), key);
        lemma_count_le_sum(nodes.last().1, key);
    }
}

/// Sums over a prefix stay below the sums over the whole.
pub proof fn lemma_prefix_totals(nodes: Nodes, n: int, key: Seq<char>)
    requires
        0 <= n <= nodes.len(),
    ensures
        total_of(nodes.take(n), key) <= total_of(nodes, key),
        grand_total(nodes.take(n)) <= grand_total(nodes),
        n < nodes.len() ==> total_of(nodes.take(n), key) + count_of(nodes[n].1, key) <= total_of(
            nodes,
            key,
        ),
        n < nodes.len() ==> grand_total(nodes.take(n)) + sum_counts(nodes[n].1) <= grand_total(
            nodes,
        ),
        n < nodes.len() ==> sum_counts(nodes[n].1) <= grand_total(nodes),
    decreases nodes.len(),
{
    if n == nodes.len() {
        assert(nodes.take(n) == nodes);
    } else {
        let front = nodes.drop_last();
        assert(front.take(n) == nodes.take(n));
        lemma_prefix_totals(front, n, key);
        if n == front.len() {
            assert(front.take(n) == front);
        } else {
            assert(front[n] == nodes[n]);
        }
    }
}

/// Taking a node out takes its quantities off the sums.
pub proof fn lemma_remove_totals(nodes: Nodes, at: int, key: Seq<char>)
    requires
        0 <= at < nodes.len(),
    ensures
        total_of(nodes.remove(at), key) + count_of(nodes[at].1, key) == total_of(nodes, key),
        grand_total(nodes.remove(at)) + sum_counts(nodes[at].1) == grand_total(nodes),
    decreases nodes.len(),
{
    if at == nodes.len() - 1 {
        assert(nodes.remove(at) == nodes.drop_last());
    } else {
        let front = nodes.drop_last();
        lemma_remove_totals(front, at, key);
        assert(nodes.remove(at).drop_last() == front.remove(at));
        assert(nodes.remove(at).last() == nodes.last());
        assert(front[at] == nodes[at]);
    }
}

/// Entering a node adds its quantities to the sums.
pub proof fn lemma_insert_totals(
    nodes: Nodes,
    at: int,
    node: (Seq<char>, Seq<(Seq<char>, nat)>),
    key: Seq<char>,
)
    requires
        0 <= at <= nodes.len(),
    ensures
        total_of(nodes.insert(at, node), key) == total_of(nodes, key) + count_of(node.1, key),
        grand_total(nodes.insert(at, node)) == grand_total(nodes) + sum_counts(node.1),
{
    let out = nodes.insert(at, node);
    assert(out.remove(at) == nodes);
    lemma_remove_totals(out, at, key);
}

/// What entering a node does to the nodes that are present.
pub proof fn lemma_inserted(nodes: Nodes, id: Seq<char>, counts: Seq<(Seq<char>, nat)>)
    requires
        sorted(nodes),
    ensures
        forall|key: Seq<char>| #[trigger]
            total_of(inserted(nodes, id, counts), key) == total_of(nodes, key) + if has_node(
                nodes,
                id,
            ) {
                0
            } else {
                count_of(counts, key)
            },
        grand_total(inserted(nodes, id, counts)) == grand_total(nodes) + if has_node(nodes, id) {
            0
        } else {
            sum_counts(counts)
        },
        inserted(nodes, id, counts).len() == nodes.len() + if has_node(nodes, id) {
            0int
        } else {
            1int
        },
        forall|other: Seq<char>| #[trigger]
            has_node(inserted(nodes, id, counts), other) <==> has_node(nodes, other) || other == id,
        forall|n: (Seq<char>, Seq<(Seq<char>, nat)>)| #[trigger]
            inserted(nodes, id, counts).contains(n) <==> nodes.contains(n) || (!has_node(nodes, id)
                && n == (id, counts)),
{
    let out = inserted(nodes, id, counts);
    if !has_node(nodes, id) {
        lemma_rank_splits(nodes, id);
        let r = rank(nodes, id);
        assert forall|key: Seq<char>| #[trigger]
            total_of(out, key) == total_of(nodes, key) + count_of(counts, key) by {
            lemma_insert_totals(nodes, r, (id, counts), key);
        }
        lemma_insert_totals(nodes, r, (id, counts), Seq::empty());
        assert forall|other: Seq<char>| #[trigger]
            has_node(out, other) <==> has_node(nodes, other) || other == id by {
            if has_node(nodes, other) {
                let i = choose|i: int| 0 <= i < nodes.len() && (#[trigger] nodes[i]).0 == other;
                let j = if i < r {
                    i
                } else {
                    i + 1
                };
                assert(out[j] == nodes[i]);
            }
            if other == id {
                assert(out[r].0 == id);
            }
            if has_node(out, other) {
                let i = choose|i: int| 0 <= i < out.len() && (#[trigger] out[i]).0 == other;
                if i < r {
                    assert(out[i] == nodes[i]);
                } else if i > r {
                    assert(out[i] == nodes[i - 1]);
                }
            }
        }
        assert forall|n: (Seq<char>, Seq<(Seq<char>, nat)>)| #[trigger]
            out.contains(n) <==> nodes.contains(n) || n == (id, counts) by {
            if nodes.contains(n) {
                let i = choose|i: int| 0 <= i < nodes.len() && nodes[i] == n;
                let j = if i < r {
                    i
                } else {
                    i + 1
                };
                assert(out[j] == n);
            }
            if n == (id, counts) {
                assert(out[r] == n);
            }
            if out.contains(n) {
                let i = choose|i: int| 0 <= i < out.len() && out[i] == n;
                if i < r {
                    assert(nodes[i] == n);
                } else if i > r {
                    assert(nodes[i - 1] == n);
                }
            }
        }
    } else {
        assert forall|other: Seq<char>| #[trigger]
            has_node(out, other) <==> has_node(nodes, other) || other == id by {}
    }
}

/// `base` with the nodes of `extra` entered one after the other.
pub open spec fn merged(base: Nodes, extra: Nodes) -> Nodes
    decreases extra.len(),
{
    if extra.len() == 0 {
        base
    } else {
        inserted(merged(base, extra.drop_last()), extra.last().0, extra.last().1)
    }
}

/// No identifier occurs twice.
pub open spec fn ids_distinct(nodes: Nodes) -> bool {
    forall|i: int, j: int|
        0 <= i < j < nodes.len() ==> (#[trigger] nodes[i]).0 != (#[trigger] nodes[j]).0
}

/// No identifier occurs in both.
pub open spec fn disjoint(a: Nodes, b: Nodes) -> bool {
    forall|i: int, j: int|
        0 <= i < a.len() && 0 <= j < b.len() ==> (#[trigger] a[i]).0 != (#[trigger] b[j]).0
}

/// No node names a component twice.
pub open spec fn counts_wf(nodes: Nodes) -> bool {
    forall|i: int| 0 <= i < nodes.len() ==> keys_distinct((#[trigger] nodes[i]).1)
}

pub proof fn lemma_sorted_ids_distinct(nodes: Nodes)
    requires
        sorted(nodes),
    ensures
        ids_distinct(nodes),
{
    assert forall|i: int, j: int| 0 <= i < j < nodes.len() implies (#[trigger] nodes[i]).0 != (
    #[trigger] nodes[j]).0 by {
        lemma_id_less_total(nodes[i].0, nodes[j].0);
    }
}

pub proof fn lemma_merged_wf(base: Nodes, extra: Nodes)
    requires
        nodes_wf(base),
        counts_wf(extra),
    ensures
        nodes_wf(merged(base, extra)),
    decreases extra.len(),
{
    if extra.len() > 0 {
        let front = extra.drop_last();
        assert(counts_wf(front)) by {
            assert forall|i: int| 0 <= i < front.len() implies keys_distinct(
                (#[trigger] front[i]).1,
            ) by {
                assert(front[i] == extra[i]);
            }
        }
        lemma_merged_wf(base, front);
        assert(keys_distinct(extra[extra.len() - 1].1));
        lemma_inserted_wf(merged(base, front), extra.last().0, extra.last().1);
    }
}

/// Merging nodes whose identifiers are new and distinct keeps every node
/// and adds up the sums.
pub proof fn lemma_merged(base: Nodes, extra: Nodes)
    requires
        sorted(base),
        ids_distinct(extra),
        disjoint(base, extra),
    ensures
        sorted(merged(base, extra)),
        merged(base, extra).len() == base.len() + extra.len(),
        forall|key: Seq<char>| #[trigger]
            total_of(merged(base, extra), key) == total_of(base, key) + total_of(extra, key),
        grand_total(merged(base, extra)) == grand_total(base) + grand_total(extra),
        forall|id: Seq<char>| #[trigger]
            has_node(merged(base, extra), id) <==> has_node(base, id) || has_node(extra, id),
        forall|n: (Seq<char>, Seq<(Seq<char>, nat)>)| #[trigger]
            merged(base, extra).contains(n) <==> base.contains(n) || extra.contains(n),
    decreases extra.len(),
{
    let out = merged(base, extra);
    if extra.len() == 0 {
        assert forall|id: Seq<char>| #[trigger]
            has_node(out, id) <==> has_node(base, id) || has_node(extra, id) by {}
        assert forall|n: (Seq<char>, Seq<(Seq<char>, nat)>)| #[trigger]
            out.contains(n) <==> base.contains(n) || extra.contains(n) by {}
    } else {
        let front = extra.drop_last();
        let last = extra.last();
        let mid = merged(base, front);
        assert(ids_distinct(front)) by {
            assert forall|i: int, j: int| 0 <= i < j < front.len() implies (
            #[trigger] front[i]).0 != (#[trigger] front[j]).0 by {
                assert(front[i] == extra[i] && front[j] == extra[j]);
            }
        }
        assert(disjoint(base, front)) by {
            assert forall|i: int, j: int| 0 <= i < base.len() && 0 <= j < front.len() implies (
            #[trigger] base[i]).0 != (#[trigger] front[j]).0 by {
                assert(front[j] == extra[j]);
            }
        }
        lemma_merged(base, front);
        assert(!has_node(mid, last.0)) by {
            if has_node(base, last.0) {
                let i = choose|i: int| 0 <= i < base.len() && (#[trigger] base[i]).0 == last.0;
                assert(base[i].0 != extra[extra.len() - 1].0);
            }
            if has_node(front, last.0) {
                let i = choose|i: int| 0 <= i < front.len() && (#[trigger] front[i]).0 == last.0;
                assert(extra[i].0 != extra[extra.len() - 1].0);
            }
        }
        lemma_inserted(mid, last.0, last.1);
        lemma_rank_splits(mid, last.0);
        assert(sorted(out)) by {
            let r = rank(mid, last.0);
            assert forall|i: int, j: int| 0 <= i < j < out.len() implies id_less(
                (#[trigger] out[i]).0,
                (#[trigger] out[j]).0,
            ) by {
                if j == r {
                    assert(out[i] == mid[i]);
                } else if i == r {
                    assert(out[j] == mid[j - 1]);
                    lemma_id_less_total(mid[j - 1].0, last.0);
                    assert(has_node(mid, mid[j - 1].0));
                } else {
                    let a = if i < r {
                        i
                    } else {
                        i - 1
                    };
                    let b = if j < r {
                        j
                    } else {
                        j - 1
                    };
                    assert(out[i] == mid[a] && out[j] == mid[b]);
                }
            }
        }
        assert forall|key: Seq<char>| #[trigger]
            total_of(out, key) == total_of(base, key) + total_of(extra, key) by {
            assert(total_of(mid, key) == total_of(base, key) + total_of(front, key));
        }
        assert forall|id: Seq<char>| #[trigger]
            has_node(out, id) <==> has_node(base, id) || has_node(extra, id) by {
            assert(has_node(mid, id) <==> has_node(base, id) || has_node(front, id));
            if has_node(front, id) {
                let i = choose|i: int| 0 <= i < front.len() && (#[trigger] front[i]).0 == id;
                assert(extra[i].0 == id);
            }
            if id == last.0 {
                assert(extra[extra.len() - 1].0 == id);
            }
            if has_node(extra, id) {
                let i = choose|i: int| 0 <= i < extra.len() && (#[trigger] extra[i]).0 == id;
                if i < front.len() {
                    assert(front[i].0 == id);
                }
            }
        }
        assert forall|n: (Seq<char>, Seq<(Seq<char>, nat)>)| #[trigger]
            out.contains(n) <==> base.contains(n) || extra.contains(n) by {
            assert(mid.contains(n) <==> base.contains(n) || front.contains(n));
            if front.contains(n) {
                let i = choose|i: int| 0 <= i < front.len() && front[i] == n;
                assert(extra[i] == n);
            }
            if n == last {
                assert(extra[extra.len() - 1] == n);
            }
            if extra.contains(n) {
                let i = choose|i: int| 0 <= i < extra.len() && extra[i] == n;
                if i < front.len() {
                    assert(front[i] == n);
                }
            }
        }
    }
}

/// The nodes of a group with their counters, sorted by identifier.
#[derive(Clone, Debug)]
pub struct GroupInventory {
    nodes: Vec<(String, ComponentCounts)>,
}

impl View for GroupInventory {
    type V = Nodes;

    closed spec fn view(&self) -> Nodes {
        Seq::new(self.nodes@.len(), |i: int| (self.nodes@[i].0@, self.nodes@[i].1@))
    }
}

impl GroupInventory {
    /// The nodes are sorted by identifier, each occurs once, and no node
    /// names a component twice.
    pub open spec fn wf(&self) -> bool {
        nodes_wf(self@)
    }

    /// Every quantity is one that the machine holds.
    pub proof fn lemma_bounded(&self)
        ensures
            forall|i: int, key: Seq<char>|
                0 <= i < self@.len() ==> #[trigger] count_of((#[trigger] self@[i]).1, key)
                    <= usize::MAX,
    {
        assert forall|i: int, key: Seq<char>| 0 <= i < self@.len() implies #[trigger] count_of(
            (#[trigger] self@[i]).1,
            key,
        ) <= usize::MAX by {
            self.nodes@[i].1.lemma_bounded();
        }
    }

    pub fn new() -> (r: Self)
        ensures
            r@ == Seq::<(Seq<char>, Seq<(Seq<char>, nat)>)>::empty(),
            r.wf(),
    {
        let r = GroupInventory { nodes: Vec::new() };
        assert(r@ =~= Seq::<(Seq<char>, Seq<(Seq<char>, nat)>)>::empty());
        r
    }

    pub fn len(&self) -> (r: usize)
        ensures
            r == self@.len(),
    {
        self.nodes.len()
    }

    /// The identifier of the node at `i`.
    pub fn id(&self, i: usize) -> (r: &String)
        requires
            i < self@.len(),
        ensures
            r@ == self@[i as int].0,
    {
        &self.nodes[i].0
    }

    /// The counters of the node at `i`.
    pub fn counts(&self, i: usize) -> (r: &ComponentCounts)
        requires
            i < self@.len(),
        ensures
            r@ == self@[i as int].1,
            self.wf() ==> r.wf(),
    {
        &self.nodes[i].1
    }

    /// The position of the node `id`.
    pub fn position(&self, id: &str) -> (r: Option<usize>)
        ensures
            match r {
                Some(i) => i < self@.len() && self@[i as int].0 == id@,
                None => !has_node(self@, id@),
            },
    {
        let mut i: usize = 0;
        while i < self.nodes.len()
            invariant
                i <= self.nodes@.len(),
                forall|k: int| 0 <= k < i ==> (#[trigger] self@[k]).0 != id@,
            decreases self.nodes@.len() - i,
        {
            if same_text(self.nodes[i].0.as_str(), id) {
                return Some(i);
            }
            i = i + 1;
        }
        None
    }

    /// Enters a node at its place in the order. Returns whether it was
    /// entered: a node whose identifier is present is left out.
    pub fn insert(&mut self, id: String, counts: ComponentCounts) -> (r: bool)
        requires
            old(self).wf(),
            counts.wf(),
        ensures
            final(self)@ == inserted(old(self)@, id@, counts@),
            r == !has_node(old(self)@, id@),
            final(self).wf(),
    {
        proof {
            lemma_inserted_wf(self@, id@, counts@);
        }
        let mut at: usize = 0;
        while at < self.nodes.len() && node_id_less(self.nodes[at].0.as_str(), id.as_str())
            invariant
                at <= self.nodes@.len(),
                forall|k: int| 0 <= k < at ==> id_less((#[trigger] self@[k]).0, id@),
            decreases self.nodes@.len() - at,
        {
            at = at + 1;
        }
        proof {
            let nodes = self@;
            lemma_rank_splits(nodes, id@);
            if at < nodes.len() {
                assert(!id_less(nodes[at as int].0, id@));
            }
            assert(rank(nodes, id@) == at) by {
                if rank(nodes, id@) < at {
                    assert(id_less(nodes[rank(nodes, id@)].0, id@));
                } else if rank(nodes, id@) > at {
                    assert(id_less(nodes[at as int].0, id@));
                }
            }
        }
        if at < self.nodes.len() && same_text(self.nodes[at].0.as_str(), id.as_str()) {
            return false;
        }
        proof {
            let nodes = self@;
            assert(!has_node(nodes, id@)) by {
                if has_node(nodes, id@) {
                    let k = choose|k: int| 0 <= k < nodes.len() && (#[trigger] nodes[k]).0 == id@;
                    lemma_id_less_total(id@, id@);
                    if k > at {
                        assert(id_less(nodes[at as int].0, nodes[k].0));
                    }
                }
            }
        }
        self.nodes.insert(at, (id, counts));
        assert(self@ =~= inserted(old(self)@, id@, counts@));
        true
    }

    /// Takes the node at `at` out.
    pub fn remove(&mut self, at: usize) -> (r: (String, ComponentCounts))
        requires
            at < old(self)@.len(),
        ensures
            final(self)@ == old(self)@.remove(at as int),
            r.0@ == old(self)@[at as int].0,
            r.1@ == old(self)@[at as int].1,
            old(self).wf() ==> final(self).wf() && r.1.wf(),
    {
        proof {
            if self.wf() {
                lemma_removed_wf(self@, at as int);
            }
        }
        let node = self.nodes.remove(at);
        assert(self@ =~= old(self)@.remove(at as int));
        node
    }

    /// Enters the nodes of `other`, each at its place in the order; a node
    /// whose identifier is present is left out.
    pub fn absorb(&mut self, other: &GroupInventory)
        requires
            old(self).wf(),
            other.wf(),
        ensures
            final(self)@ == merged(old(self)@, other@),
            final(self).wf(),
    {
        let mut i: usize = 0;
        while i < other.len()
            invariant
                i <= other@.len(),
                self.wf(),
                other.wf(),
                self@ == merged(old(self)@, other@.take(i as int)),
            decreases other@.len() - i,
        {
            proof {
                assert(other@.take(i + 1).drop_last() == other@.take(i as int));
            }
            self.insert(other.id(i).clone(), other.counts(i).duplicate());
            i = i + 1;
        }
        proof {
            assert(other@.take(other@.len() as int) == other@);
        }
    }

    /// Enters `nodes`, each at its place in the order; a node whose
    /// identifier is present is left out.
    pub fn absorb_nodes(&mut self, nodes: &Vec<(String, ComponentCounts)>)
        requires
            old(self).wf(),
            counts_wf(node_views(nodes@)),
        ensures
            final(self)@ == merged(old(self)@, node_views(nodes@)),
            final(self).wf(),
    {
        let mut i: usize = 0;
        while i < nodes.len()
            invariant
                i <= nodes@.len(),
                self.wf(),
                counts_wf(node_views(nodes@)),
                self@ == merged(old(self)@, node_views(nodes@).take(i as int)),
            decreases nodes@.len() - i,
        {
            proof {
                let v = node_views(nodes@);
                assert(v.take(i + 1).drop_last() == v.take(i as int));
                assert(keys_distinct(v[i as int].1));
            }
            self.insert(nodes[i].0.clone(), nodes[i].1.duplicate());
            i = i + 1;
        }
        proof {
            assert(node_views(nodes@).take(nodes@.len() as int) == node_views(nodes@));
        }
    }

    /// The inventory of `nodes`, sorted; of two nodes with one identifier
    /// the first stays.
    pub fn from_nodes(nodes: &Vec<(String, ComponentCounts)>) -> (r: Self)
        requires
            counts_wf(node_views(nodes@)),
        ensures
            r@ == merged(Seq::empty(), node_views(nodes@)),
            r.wf(),
    {
        let mut out = GroupInventory::new();
        out.absorb_nodes(nodes);
        out
    }

    /// A copy with the same nodes.
    pub fn duplicate(&self) -> (r: Self)
        ensures
            r@ == self@,
    {
        let mut nodes: Vec<(String, ComponentCounts)> = Vec::new();
        let mut i: usize = 0;
        while i < self.nodes.len()
            invariant
                i <= self.nodes@.len(),
                nodes@.len() == i,
                forall|k: int|
                    0 <= k < i ==> (#[trigger] nodes@[k]).0@ == self.nodes@[k].0@ && nodes@[k].1@
                        == self.nodes@[k].1@,
            decreases self.nodes@.len() - i,
        {
            nodes.push((self.nodes[i].0.clone(), self.nodes[i].1.duplicate()));
            i = i + 1;
        }
        let r = GroupInventory { nodes };
        assert(r@ =~= self@);
        r
    }

    /// The identifiers of the nodes, in order.
    pub fn ids(&self) -> (r: Vec<String>)
        ensures
            crate::text::texts(r@) == ids_of(self@),
    {
        let mut out: Vec<String> = Vec::new();
        let mut i: usize = 0;
        while i < self.nodes.len()
            invariant
                i <= self.nodes@.len(),
                out@.len() == i,
                forall|k: int| 0 <= k < i ==> (#[trigger] out@[k])@ == self.nodes@[k].0@,
            decreases self.nodes@.len() - i,
        {
            out.push(self.nodes[i].0.clone());
            i = i + 1;
        }
        assert(crate::text::texts(out@) =~= ids_of(self@));
        out
    }
}

/// What a vector of nodes holds.
pub open spec fn node_views(nodes: Seq<(String, ComponentCounts)>) -> Nodes {
    Seq::new(nodes.len(), |i: int| (nodes[i].0@, nodes[i].1@))
}

} // verus!
