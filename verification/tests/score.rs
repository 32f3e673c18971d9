use manta::counts::ComponentCounts;
use manta::delta::Delta;
use manta::inventory::GroupInventory;
use manta::score::{
    best_candidate, calculate_hsm_hw_component_normalized_density_score_from_hsm_hw_component_count_hashmap,
    calculate_hsm_hw_component_normalized_density_score_from_hsm_node_hw_component_count_vec,
    calculate_hsm_hw_component_normalized_node_density_score_downscale,
    calculate_hsm_hw_component_normalized_node_density_score_upscale,
    can_node_be_removed_without_violating_user_request, weigh, ScarcityWeights, Score,
};

fn counts(pairs: &[(&str, usize)]) -> ComponentCounts {
    ComponentCounts::from_pairs(pairs.iter().map(|(k, q)| (k.to_string(), *q)).collect())
}

fn demand(pairs: &[(&str, i128)]) -> Delta {
    let mut out = Delta::new();
    for (key, quantity) in pairs {
        out.insert(key.to_string(), *quantity);
    }
    out
}

fn group(nodes: &[(&str, &[(&str, usize)])]) -> GroupInventory {
    let list: Vec<(String, ComponentCounts)> =
        nodes.iter().map(|(id, c)| (id.to_string(), counts(c))).collect();
    GroupInventory::from_nodes(&list)
}

fn sample() -> GroupInventory {
    group(&[
        ("n1", &[("instinct", 8), ("epyc", 1)]),
        ("n2", &[("a100", 4), ("epyc", 1)]),
        ("n3", &[("a100", 4), ("epyc", 1)]),
    ])
}

fn weights() -> ScarcityWeights {
    calculate_hsm_hw_component_normalized_density_score_from_hsm_node_hw_component_count_vec(
        &sample(),
        19,
    )
}

fn free(gain: u128, loss: u128) -> Score {
    Score { blocked: false, gain, loss }
}

#[test]
fn weight_is_the_share_on_a_scale_of_100() {
    let w = weights();
    assert_eq!(w.total(), 19);
    assert_eq!(w.share("a100"), 8);
    assert_eq!(w.weight("a100"), Some(42));
    assert_eq!(w.weight("epyc"), Some(15));
    assert_eq!(w.weight("h100"), Some(0));
    assert_eq!(w.rarity("a100"), 11);
    assert_eq!(w.rarity("epyc"), 16);
    assert_eq!(w.rarity("h100"), 19);
}

#[test]
fn weight_of_nothing_is_none() {
    let w = calculate_hsm_hw_component_normalized_density_score_from_hsm_hw_component_count_hashmap(
        counts(&[("memory", 0)]),
        0,
    );
    assert_eq!(w.weight("memory"), None);
    assert_eq!(w.rarity("memory"), 0);
}

#[test]
fn weights_may_be_given_with_their_total() {
    let w = calculate_hsm_hw_component_normalized_density_score_from_hsm_hw_component_count_hashmap(
        counts(&[("a100", 1), ("epyc", 3)]),
        4,
    );
    assert_eq!(w.weight("a100"), Some(25));
    assert_eq!(w.weight("epyc"), Some(75));
}

#[test]
fn node_may_leave_where_the_rest_holds_the_request() {
    let desired = counts(&[("a100", 4), ("epyc", 2)]);
    let held = counts(&[("a100", 8), ("epyc", 3)]);
    assert!(can_node_be_removed_without_violating_user_request(
        &counts(&[("a100", 4), ("epyc", 1)]),
        &desired,
        &held
    ));
    assert!(!can_node_be_removed_without_violating_user_request(
        &counts(&[("a100", 1), ("epyc", 2)]),
        &desired,
        &held
    ));
    assert!(!can_node_be_removed_without_violating_user_request(
        &counts(&[("memory", 1)]),
        &counts(&[("a100", 9)]),
        &held
    ));
    assert!(can_node_be_removed_without_violating_user_request(
        &counts(&[("a100", 9)]),
        &counts(&[]),
        &held
    ));
}

#[test]
fn gain_and_loss_add_up_the_rarities() {
    let node = counts(&[("instinct", 8), ("epyc", 1), ("memory", 0)]);
    assert_eq!(weigh(&node, &demand(&[("epyc", -3), ("memory", 0)]), &weights()), (16, 30));
    assert_eq!(weigh(&node, &demand(&[]), &weights()), (0, 46));
    assert_eq!(weigh(&counts(&[]), &demand(&[("epyc", -3)]), &weights()), (0, 0));
}

#[test]
fn downscale_scores_block_what_the_request_needs() {
    let scores = calculate_hsm_hw_component_normalized_node_density_score_downscale(
        &sample(),
        &demand(&[("instinct", -8), ("epyc", -3)]),
        &counts(&[("a100", 8)]),
        &weights(),
        &counts(&[("a100", 8)]),
    );
    assert_eq!(
        scores,
        vec![
            ("n1".to_string(), free(27, 0)),
            ("n2".to_string(), Score { blocked: true, gain: 0, loss: 0 }),
            ("n3".to_string(), Score { blocked: true, gain: 0, loss: 0 }),
        ]
    );
    assert_eq!(best_candidate(&scores), 0);
}

#[test]
fn upscale_scores_favour_what_is_in_demand() {
    let scores = calculate_hsm_hw_component_normalized_node_density_score_upscale(
        &sample(),
        &demand(&[("a100", -8)]),
        &weights(),
    );
    assert_eq!(
        scores,
        vec![
            ("n1".to_string(), free(0, 27)),
            ("n2".to_string(), free(11, 16)),
            ("n3".to_string(), free(11, 16)),
        ]
    );
    assert_eq!(best_candidate(&scores), 1);
}

#[test]
fn best_candidate_is_the_first_of_the_highest() {
    let scores = vec![
        ("a".to_string(), Score { blocked: true, gain: 0, loss: 0 }),
        ("b".to_string(), free(3, 5)),
        ("c".to_string(), free(7, 2)),
        ("d".to_string(), free(5, 0)),
        ("e".to_string(), free(0, 9)),
    ];
    assert_eq!(best_candidate(&scores), 2);
    let blocked = vec![
        ("a".to_string(), Score { blocked: true, gain: 0, loss: 0 }),
        ("b".to_string(), Score { blocked: true, gain: 9, loss: 0 }),
    ];
    assert_eq!(best_candidate(&blocked), 0);
    assert_eq!(best_candidate(&vec![("a".to_string(), free(0, u128::MAX))]), 0);
}

#[test]
fn scores_compare_by_gain_less_loss() {
    assert!(free(1, 0).beats(&free(0, 0)));
    assert!(free(0, 1).beats(&free(0, 2)));
    assert!(free(u128::MAX, 0).beats(&free(0, u128::MAX)));
    assert!(!free(0, u128::MAX).beats(&free(u128::MAX, 0)));
    assert!(!free(5, 3).beats(&free(2, 0)));
    assert!(free(0, u128::MAX).beats(&Score { blocked: true, gain: 0, loss: 0 }));
    assert!(!Score { blocked: true, gain: 9, loss: 0 }.beats(&free(0, 9)));
}
