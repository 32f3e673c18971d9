use manta::counts::ComponentCounts;
use manta::delta::{
    calculate_all_deltas, keep_iterating_downscale, keep_iterating_upscale,
    update_user_defined_hw_component_counters, Delta,
};
use manta::inventory::GroupInventory;
use manta::planner::{
    add_unrequested, check_capacity, downscale_node_migration, retain_known,
    upscale_node_migration, PlanError,
};
use manta::score::ScarcityWeights;

fn counts(pairs: &[(&str, usize)]) -> ComponentCounts {
    ComponentCounts::from_pairs(pairs.iter().map(|(k, q)| (k.to_string(), *q)).collect())
}

fn demand(pairs: &[(&str, i128)]) -> Delta {
    let mut out = Delta::new();
    for (key, quantity) in pairs {
        out.insert(key.to_string(), *quantity);
    }
    out
}

fn entries(delta: &Delta) -> Vec<(String, i128)> {
    (0..delta.len()).map(|i| (delta.key(i).clone(), delta.quantity(i))).collect()
}

fn named(pairs: &[(&str, i128)]) -> Vec<(String, i128)> {
    pairs.iter().map(|(k, q)| (k.to_string(), *q)).collect()
}

#[test]
fn deltas_split_by_direction() {
    let desired = counts(&[("a100", 8), ("epyc", 2), ("instinct", 4), ("h100", 1)]);
    let held = counts(&[("a100", 4), ("epyc", 10), ("instinct", 4)]);
    let (to_remove, to_add) = calculate_all_deltas(&desired, &held);
    assert_eq!(entries(&to_remove), named(&[("epyc", -8)]));
    assert_eq!(entries(&to_add), named(&[("a100", -4), ("h100", -1)]));
}

#[test]
fn deltas_of_equal_counts_are_empty() {
    let desired = counts(&[("a100", 8)]);
    let (to_remove, to_add) = calculate_all_deltas(&desired, &counts(&[("a100", 8)]));
    assert_eq!(to_remove.len(), 0);
    assert_eq!(to_add.len(), 0);
}

#[test]
fn deltas_hold_the_greatest_counts() {
    let desired = counts(&[("a", usize::MAX), ("b", 0)]);
    let held = counts(&[("a", 0), ("b", usize::MAX)]);
    let (to_remove, to_add) = calculate_all_deltas(&desired, &held);
    assert_eq!(entries(&to_remove), named(&[("b", -(usize::MAX as i128))]));
    assert_eq!(entries(&to_add), named(&[("a", -(usize::MAX as i128))]));
}

#[test]
fn unrequested_components_are_to_leave() {
    let wanted = counts(&[("a100", 8)]);
    let held = counts(&[("a100", 8), ("epyc", 3), ("memory", 0), ("instinct", 8)]);
    let to_remove = add_unrequested(demand(&[("a100", -1)]), &wanted, &held);
    assert_eq!(entries(&to_remove), named(&[("a100", -1), ("epyc", -3), ("instinct", -8)]));
}

#[test]
fn request_keeps_the_known_components() {
    let desired = counts(&[("a100", 8), ("h100", 2), ("epyc", 1)]);
    let held = counts(&[("epyc", 3), ("a100", 0)]);
    let wanted = retain_known(&desired, &held);
    assert_eq!(wanted.keys(), vec!["a100", "epyc"]);
    assert_eq!(wanted.get("a100"), Some(8));
}

#[test]
fn capacity_names_the_first_shortage() {
    let wanted = counts(&[("a100", 4), ("epyc", 9), ("instinct", 9)]);
    let held = counts(&[("a100", 4), ("epyc", 8), ("instinct", 1)]);
    assert_eq!(
        check_capacity(&wanted, &held),
        Err(PlanError::InsufficientCapacity {
            component: "epyc".to_string(),
            requested: 9,
            available: 8
        })
    );
    assert_eq!(check_capacity(&counts(&[("a100", 4)]), &held), Ok(()));
}

#[test]
fn update_takes_the_node_off_the_demand() {
    let before = demand(&[("a100", -8), ("epyc", -2), ("instinct", -3), ("memory", -5)]);
    let node = counts(&[("a100", 4), ("epyc", 2), ("instinct", 8)]);
    let after = update_user_defined_hw_component_counters(&before, &node);
    assert_eq!(entries(&after), named(&[("a100", -4), ("memory", -5)]));
}

#[test]
fn update_drops_what_is_no_longer_negative() {
    let before = demand(&[("a100", 0), ("epyc", 3), ("memory", 0)]);
    let node = counts(&[("a100", 0), ("epyc", 0)]);
    let after = update_user_defined_hw_component_counters(&before, &node);
    assert_eq!(entries(&after), named(&[("memory", 0)]));
}

#[test]
fn downscale_goes_on_with_a_node_that_fits_the_demand() {
    let to_remove = demand(&[("epyc", -3), ("instinct", -8)]);
    assert!(keep_iterating_downscale(&to_remove, &counts(&[("instinct", 8), ("epyc", 1)])));
    assert!(keep_iterating_downscale(&to_remove, &counts(&[("a100", 4), ("epyc", 3)])));
}

#[test]
fn downscale_stops_at_a_node_that_carries_nothing_in_demand() {
    let to_remove = demand(&[("epyc", -3)]);
    assert!(!keep_iterating_downscale(&to_remove, &counts(&[("a100", 4)])));
    assert!(!keep_iterating_downscale(&to_remove, &counts(&[])));
    assert!(!keep_iterating_downscale(&demand(&[]), &counts(&[("a100", 4)])));
}

#[test]
fn downscale_stops_at_a_node_that_carries_more_than_the_demand() {
    let to_remove = demand(&[("epyc", -3), ("instinct", -7)]);
    assert!(!keep_iterating_downscale(&to_remove, &counts(&[("instinct", 8), ("epyc", 1)])));
    assert!(!keep_iterating_downscale(&to_remove, &counts(&[("epyc", 4)])));
}

#[test]
fn upscale_goes_on_while_something_is_in_demand() {
    assert!(keep_iterating_upscale(&demand(&[("a100", 0), ("epyc", -1)])));
    assert!(keep_iterating_upscale(&demand(&[("a100", 2)])));
    assert!(!keep_iterating_upscale(&demand(&[("a100", 0)])));
    assert!(!keep_iterating_upscale(&demand(&[])));
}

#[test]
fn migrations_move_the_nodes_told_by_the_plan() {
    let list: Vec<(String, ComponentCounts)> = vec![
        ("n1".to_string(), counts(&[("instinct", 8), ("epyc", 1)])),
        ("n2".to_string(), counts(&[("a100", 4), ("epyc", 1)])),
        ("n3".to_string(), counts(&[("a100", 4), ("epyc", 1)])),
    ];
    let mut target = GroupInventory::from_nodes(&list);
    let weights =
        ScarcityWeights::new(counts(&[("instinct", 8), ("epyc", 3), ("a100", 8)]), 19);
    let wanted = counts(&[("a100", 8)]);
    let moved = downscale_node_migration(
        &wanted,
        &mut target,
        demand(&[("instinct", -8)]),
        &weights,
    );
    assert_eq!(moved.iter().map(|n| n.0.as_str()).collect::<Vec<_>>(), vec!["n1"]);
    assert_eq!(target.ids(), vec!["n2", "n3"]);
    let mut pool = GroupInventory::from_nodes(&list);
    let entered = upscale_node_migration(&mut pool, demand(&[("a100", -5)]), &weights);
    assert_eq!(entered.iter().map(|n| n.0.as_str()).collect::<Vec<_>>(), vec!["n2", "n3"]);
    assert_eq!(pool.ids(), vec!["n1"]);
}
