//! A sample cluster: a target group and a pool of free nodes.
use crate::counts::{with_entry, ComponentCounts};
use crate::inventory::{merged, node_views, GroupInventory, Nodes};
use vstd::prelude::*;

verus! {

/// The counters of a sample node: accelerators of two kinds and
/// processors where it has any, and its memory.
pub open spec fn sample_counts(a100: nat, instinct: nat, epyc: nat, memory: nat) -> Seq<
    (Seq<char>, nat),
> {
    let none = Seq::<(Seq<char>, nat)>::empty();
    let with_a100 = if a100 > 0 {
        with_entry(none, "a100"@, a100)
    } else {
        none
    };
    let with_instinct = if instinct > 0 {
        with_entry(with_a100, "instinct"@, instinct)
    } else {
        with_a100
    };
    let with_epyc = if epyc > 0 {
        with_entry(with_instinct, "epyc"@, epyc)
    } else {
        with_instinct
    };
    with_entry(with_epyc, "Memory 16384"@, memory)
}

fn sample_node(id: &str, a100: usize, instinct: usize, epyc: usize, memory: usize) -> (r: (
    String,
    ComponentCounts,
))
    ensures
        r.0@ == id@,
        r.1@ == sample_counts(a100 as nat, instinct as nat, epyc as nat, memory as nat),
        r.1.wf(),
{
    let mut counts = ComponentCounts::new();
    if a100 > 0 {
        counts.insert("a100".to_owned(), a100);
    }
    if instinct > 0 {
        counts.insert("instinct".to_owned(), instinct);
    }
    if epyc > 0 {
        counts.insert("epyc".to_owned(), epyc);
    }
    counts.insert("Memory 16384".to_owned(), memory);
    (id.to_owned(), counts)
}

/// The nodes of the sample target group.
pub open spec fn sample_target() -> Nodes {
    seq![
        ("x1001c1s5b0n0"@, sample_counts(0, 0, 2, 16)),
        ("x1001c1s5b0n1"@, sample_counts(0, 0, 2, 16)),
        ("x1001c1s5b1n0"@, sample_counts(0, 0, 2, 16)),
        ("x1001c1s5b1n1"@, sample_counts(0, 0, 2, 16)),
        ("x1001c1s6b0n0"@, sample_counts(0, 0, 2, 15)),
        ("x1001c1s6b0n1"@, sample_counts(0, 0, 2, 16)),
        ("x1001c1s6b1n0"@, sample_counts(0, 0, 2, 16)),
        ("x1001c1s6b1n1"@, sample_counts(0, 0, 2, 16)),
        ("x1001c1s7b0n0"@, sample_counts(0, 0, 2, 16)),
        ("x1001c1s7b0n1"@, sample_counts(0, 0, 2, 16)),
        ("x1001c1s7b1n0"@, sample_counts(0, 0, 2, 16)),
        ("x1001c1s7b1n1"@, sample_counts(0, 0, 2, 16)),
        ("x1005c0s4b0n0"@, sample_counts(4, 0, 1, 32)),
        ("x1005c0s4b0n1"@, sample_counts(4, 0, 1, 32)),
        ("x1006c1s4b0n0"@, sample_counts(0, 8, 1, 32)),
        ("x1006c1s4b1n0"@, sample_counts(0, 8, 1, 32)),
    ]
}

/// The nodes of the sample pool.
pub open spec fn sample_pool() -> Nodes {
    seq![
        ("x1000c1s7b0n0"@, sample_counts(0, 0, 2, 16)),
        ("x1000c1s7b0n1"@, sample_counts(0, 0, 2, 16)),
        ("x1000c1s7b1n0"@, sample_counts(0, 0, 2, 16)),
        ("x1000c1s7b1n1"@, sample_counts(0, 0, 2, 16)),
        ("x1001c1s1b0n0"@, sample_counts(0, 0, 2, 16)),
        ("x1001c1s1b0n1"@, sample_counts(0, 0, 2, 16)),
        ("x1001c1s1b1n0"@, sample_counts(0, 0, 2, 16)),
        ("x1001c1s1b1n1"@, sample_counts(0, 0, 2, 16)),
        ("x1001c1s2b0n0"@, sample_counts(0, 0, 2, 16)),
        ("x1001c1s2b0n1"@, sample_counts(0, 0, 2, 16)),
        ("x1001c1s4b0n0"@, sample_counts(0, 0, 2, 16)),
        ("x1001c1s4b0n1"@, sample_counts(0, 0, 2, 16)),
        ("x1001c1s4b1n0"@, sample_counts(0, 0, 2, 16)),
        ("x1001c1s4b1n1"@, sample_counts(0, 0, 2, 16)),
    ]
}

/// A sample cluster to try the library on: a target group of sixteen
/// nodes, four of them with accelerators, and a pool of fourteen nodes.
pub fn test_hsm_hw_management() -> (r: (GroupInventory, GroupInventory))
    ensures
        r.0@ == merged(Seq::empty(), sample_target()),
        r.1@ == merged(Seq::empty(), sample_pool()),
        r.0.wf(),
        r.1.wf(),
{
    let mut target: Vec<(String, ComponentCounts)> = Vec::new();
    target.push(sample_node("x1001c1s5b0n0", 0, 0, 2, 16));
    target.push(sample_node("x1001c1s5b0n1", 0, 0, 2, 16));
    target.push(sample_node("x1001c1s5b1n0", 0, 0, 2, 16));
    target.push(sample_node("x1001c1s5b1n1", 0, 0, 2, 16));
    target.push(sample_node("x1001c1s6b0n0", 0, 0, 2, 15));
    target.push(sample_node("x1001c1s6b0n1", 0, 0, 2, 16));
    target.push(sample_node("x1001c1s6b1n0", 0, 0, 2, 16));
    target.push(sample_node("x1001c1s6b1n1", 0, 0, 2, 16));
    target.push(sample_node("x1001c1s7b0n0", 0, 0, 2, 16));
    target.push(sample_node("x1001c1s7b0n1", 0, 0, 2, 16));
    target.push(sample_node("x1001c1s7b1n0", 0, 0, 2, 16));
    target.push(sample_node("x1001c1s7b1n1", 0, 0, 2, 16));
    target.push(sample_node("x1005c0s4b0n0", 4, 0, 1, 32));
    target.push(sample_node("x1005c0s4b0n1", 4, 0, 1, 32));
    target.push(sample_node("x1006c1s4b0n0", 0, 8, 1, 32));
    target.push(sample_node("x1006c1s4b1n0", 0, 8, 1, 32));
    let mut pool: Vec<(String, ComponentCounts)> = Vec::new();
    pool.push(sample_node("x1000c1s7b0n0", 0, 0, 2, 16));
    pool.push(sample_node("x1000c1s7b0n1", 0, 0, 2, 16));
    pool.push(sample_node("x1000c1s7b1n0", 0, 0, 2, 16));
    pool.push(sample_node("x1000c1s7b1n1", 0, 0, 2, 16));
    pool.push(sample_node("x1001c1s1b0n0", 0, 0, 2, 16));
    pool.push(sample_node("x1001c1s1b0n1", 0, 0, 2, 16));
    pool.push(sample_node("x1001c1s1b1n0", 0, 0, 2, 16));
    pool.push(sample_node("x1001c1s1b1n1", 0, 0, 2, 16));
    pool.push(sample_node("x1001c1s2b0n0", 0, 0, 2, 16));
    pool.push(sample_node("x1001c1s2b0n1", 0, 0, 2, 16));
    pool.push(sample_node("x1001c1s4b0n0", 0, 0, 2, 16));
    pool.push(sample_node("x1001c1s4b0n1", 0, 0, 2, 16));
    pool.push(sample_node("x1001c1s4b1n0", 0, 0, 2, 16));
    pool.push(sample_node("x1001c1s4b1n1", 0, 0, 2, 16));
    proof {
        assert(node_views(target@) =~= sample_target());
        assert(node_views(pool@) =~= sample_pool());
    }
    (GroupInventory::from_nodes(&target), GroupInventory::from_nodes(&pool))
}

} // verus!
