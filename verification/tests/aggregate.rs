use manta::aggregate::{
    calculate_hsm_hw_component_count, calculate_hsm_total_number_hw_components,
    calculate_node_density_score, component_total,
    get_hsm_hw_component_count_filtered_by_user_request,
};
use manta::counts::ComponentCounts;
use manta::inventory::GroupInventory;
use manta::planner::checked_total;

fn counts(pairs: &[(&str, usize)]) -> ComponentCounts {
    ComponentCounts::from_pairs(pairs.iter().map(|(k, q)| (k.to_string(), *q)).collect())
}

fn group(nodes: &[(&str, &[(&str, usize)])]) -> GroupInventory {
    let list: Vec<(String, ComponentCounts)> =
        nodes.iter().map(|(id, c)| (id.to_string(), counts(c))).collect();
    GroupInventory::from_nodes(&list)
}

fn pairs(counts: &ComponentCounts) -> Vec<(String, usize)> {
    (0..counts.len()).map(|i| (counts.key(i).clone(), counts.quantity(i))).collect()
}

fn sample() -> GroupInventory {
    group(&[
        ("n2", &[("a100", 4), ("epyc", 1), ("memory", 32)]),
        ("n1", &[("instinct", 8), ("epyc", 1), ("memory", 32)]),
        ("n3", &[("epyc", 2), ("memory", 16)]),
    ])
}

#[test]
fn inventory_is_sorted_by_identifier() {
    assert_eq!(sample().ids(), vec!["n1", "n2", "n3"]);
}

#[test]
fn inventory_keeps_the_first_of_two_nodes_with_one_identifier() {
    let inventory = group(&[("n1", &[("a100", 4)]), ("n1", &[("epyc", 2)])]);
    assert_eq!(inventory.len(), 1);
    assert_eq!(inventory.counts(0).get("a100"), Some(4));
}

#[test]
fn inventory_orders_identifiers_by_their_bytes() {
    let inventory = group(&[("x10", &[]), ("x9", &[]), ("X1", &[]), ("x1", &[]), ("é", &[])]);
    assert_eq!(inventory.ids(), vec!["X1", "x1", "x10", "x9", "é"]);
}

#[test]
fn totals_name_components_in_order_of_first_occurrence() {
    assert_eq!(
        pairs(&calculate_hsm_hw_component_count(&sample())),
        vec![
            ("instinct".to_string(), 8),
            ("epyc".to_string(), 4),
            ("memory".to_string(), 80),
            ("a100".to_string(), 4)
        ]
    );
}

#[test]
fn totals_of_no_nodes_are_empty() {
    assert_eq!(calculate_hsm_hw_component_count(&group(&[])).len(), 0);
    assert_eq!(calculate_hsm_total_number_hw_components(&group(&[])), 0);
}

#[test]
fn filtered_totals_follow_the_request() {
    let keys = vec!["epyc".to_string(), "h100".to_string(), "a100".to_string(), "epyc".to_string()];
    assert_eq!(
        pairs(&get_hsm_hw_component_count_filtered_by_user_request(&keys, &sample())),
        vec![("epyc".to_string(), 4), ("h100".to_string(), 0), ("a100".to_string(), 4)]
    );
}

#[test]
fn component_total_sums_over_the_nodes() {
    assert_eq!(component_total(&sample(), "memory"), 80);
    assert_eq!(component_total(&sample(), "h100"), 0);
}

#[test]
fn density_is_the_sum_of_the_counters_of_a_node() {
    assert_eq!(
        pairs(&calculate_node_density_score(&sample())),
        vec![("n1".to_string(), 41), ("n2".to_string(), 37), ("n3".to_string(), 18)]
    );
}

#[test]
fn total_number_counts_every_component() {
    assert_eq!(calculate_hsm_total_number_hw_components(&sample()), 96);
    assert_eq!(checked_total(&sample()), Some(96));
}

#[test]
fn total_beyond_the_machine_is_told() {
    let inventory = group(&[("n1", &[("a", usize::MAX)]), ("n2", &[("a", 1)])]);
    assert_eq!(checked_total(&inventory), None);
}

#[test]
fn counts_replace_and_append() {
    let mut c = ComponentCounts::new();
    c.insert("a100".to_string(), 4);
    c.insert("epyc".to_string(), 2);
    c.insert("a100".to_string(), 8);
    assert_eq!(pairs(&c), vec![("a100".to_string(), 8), ("epyc".to_string(), 2)]);
    assert_eq!(c.get("a100"), Some(8));
    assert_eq!(c.get("instinct"), None);
    assert_eq!(c.count("instinct"), 0);
    assert!(c.contains_key("epyc"));
    assert_eq!(c.position("epyc"), Some(1));
    assert_eq!(c.total(), 10);
    assert_eq!(pairs(&c.duplicate()), pairs(&c));
}

#[test]
fn inventory_insert_and_remove() {
    let mut inventory = sample();
    assert!(!inventory.insert("n2".to_string(), counts(&[])));
    assert!(inventory.insert("n0".to_string(), counts(&[("a100", 1)])));
    assert_eq!(inventory.ids(), vec!["n0", "n1", "n2", "n3"]);
    assert_eq!(inventory.position("n2"), Some(2));
    assert_eq!(inventory.position("n9"), None);
    let taken = inventory.remove(1);
    assert_eq!(taken.0, "n1");
    assert_eq!(taken.1.get("instinct"), Some(8));
    assert_eq!(inventory.ids(), vec!["n0", "n2", "n3"]);
    let mut other = group(&[("n5", &[]), ("n2", &[("z", 1)])]);
    other.absorb(&inventory);
    assert_eq!(other.ids(), vec!["n0", "n2", "n3", "n5"]);
    assert_eq!(other.counts(1).get("z"), Some(1));
}
