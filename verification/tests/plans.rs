use manta::counts::ComponentCounts;
use manta::inventory::GroupInventory;
use manta::planner::{can_plan, explain, plan, plan_with_moves, render_members, Direction, PlanError};
use manta::samples::test_hsm_hw_management;

fn counts(pairs: &[(&str, usize)]) -> ComponentCounts {
    ComponentCounts::from_pairs(pairs.iter().map(|(k, q)| (k.to_string(), *q)).collect())
}

fn group(nodes: &[(&str, &[(&str, usize)])]) -> GroupInventory {
    let list: Vec<(String, ComponentCounts)> =
        nodes.iter().map(|(id, c)| (id.to_string(), counts(c))).collect();
    GroupInventory::from_nodes(&list)
}

fn total(inventory: &GroupInventory, key: &str) -> usize {
    (0..inventory.len()).map(|i| inventory.counts(i).count(key)).sum()
}

#[test]
fn clean_downscale_moves_the_unrequested_node_out() {
    let target = group(&[("n1", &[("a100", 4)]), ("n2", &[("a100", 4)]), ("n3", &[("epyc", 2)])]);
    let parent = group(&[]);
    let desired = counts(&[("a100", 8)]);
    assert!(can_plan(&target, &parent));
    let made = plan(&desired, &target, &parent).unwrap();
    assert_eq!(made.target_members(), vec!["n1", "n2"]);
    assert_eq!(made.parent_members(), vec!["n3"]);
}

#[test]
fn exact_match_changes_nothing() {
    let target = group(&[("n1", &[("a100", 4), ("epyc", 2)])]);
    let parent = group(&[("n2", &[("epyc", 2)])]);
    let desired = counts(&[("a100", 4), ("epyc", 2)]);
    let made = plan(&desired, &target, &parent).unwrap();
    assert_eq!(made.target_members(), vec!["n1"]);
    assert_eq!(made.parent_members(), vec!["n2"]);
    assert!(explain(&desired, &target, &parent).unwrap().is_empty());
}

#[test]
fn upscale_draws_the_missing_component_from_the_pool() {
    let target = group(&[("n1", &[("epyc", 2)])]);
    let parent = group(&[("n2", &[("a100", 4)]), ("n3", &[("a100", 4), ("epyc", 2)])]);
    let desired = counts(&[("a100", 4), ("epyc", 2)]);
    let made = plan(&desired, &target, &parent).unwrap();
    // The target holds the requested processors already, so nothing is to
    // leave it; of the pool the node with accelerators alone scores best.
    assert_eq!(made.target_members(), vec!["n1", "n2"]);
    assert_eq!(made.parent_members(), vec!["n3"]);
    assert_eq!(total(&made.target, "a100"), 4);
    assert_eq!(total(&made.target, "epyc"), 2);
    let moves = explain(&desired, &target, &parent).unwrap();
    assert_eq!(moves.len(), 1);
    assert_eq!(moves[0].direction, Direction::IntoTarget);
    assert_eq!(moves[0].node, "n2");
}

#[test]
fn infeasible_request_names_the_component() {
    let target = group(&[("n1", &[("a100", 1)])]);
    let parent = group(&[("n2", &[("epyc", 2)])]);
    let desired = counts(&[("a100", 4)]);
    let failed = plan(&desired, &target, &parent).unwrap_err();
    assert_eq!(
        failed,
        PlanError::InsufficientCapacity {
            component: "a100".to_string(),
            requested: 4,
            available: 1
        }
    );
    assert!(explain(&desired, &target, &parent).is_err());
}

#[test]
fn scarcity_preference_keeps_the_requested_accelerators() {
    let target = group(&[
        ("n1", &[("instinct", 8), ("epyc", 1)]),
        ("n2", &[("a100", 4), ("epyc", 1)]),
        ("n3", &[("a100", 4), ("epyc", 1)]),
    ]);
    let parent = group(&[]);
    let desired = counts(&[("a100", 8)]);
    let made = plan(&desired, &target, &parent).unwrap();
    assert_eq!(made.target_members(), vec!["n2", "n3"]);
    assert_eq!(made.parent_members(), vec!["n1"]);
}

#[test]
fn scarcity_preference_moves_in_order() {
    let target = group(&[
        ("n1", &[("instinct", 8), ("epyc", 1)]),
        ("n2", &[("a100", 4), ("epyc", 1)]),
        ("n3", &[("a100", 4), ("epyc", 1)]),
    ]);
    let parent = group(&[]);
    let desired = counts(&[("a100", 8)]);
    let moves = explain(&desired, &target, &parent).unwrap();
    let told: Vec<(Direction, &str)> =
        moves.iter().map(|m| (m.direction, m.node.as_str())).collect();
    // The processors were not asked for and are still in demand once n1 has
    // left, so n2 and n3 leave too and come back for their accelerators.
    assert_eq!(
        told,
        vec![
            (Direction::OutOfTarget, "n1"),
            (Direction::OutOfTarget, "n2"),
            (Direction::OutOfTarget, "n3"),
            (Direction::IntoTarget, "n2"),
            (Direction::IntoTarget, "n3"),
        ]
    );
}

#[test]
fn empty_target_is_filled_from_the_pool() {
    let target = group(&[]);
    let parent = group(&[("f1", &[("a100", 4)]), ("f2", &[("epyc", 2)]), ("f3", &[("a100", 4)])]);
    let desired = counts(&[("a100", 8)]);
    let made = plan(&desired, &target, &parent).unwrap();
    assert_eq!(made.target_members(), vec!["f1", "f3"]);
    assert_eq!(made.parent_members(), vec!["f2"]);
}

#[test]
fn empty_pool_and_a_shortage_give_insufficient_capacity() {
    let target = group(&[("n1", &[("a100", 4)])]);
    let parent = group(&[]);
    let desired = counts(&[("a100", 5)]);
    assert_eq!(
        plan(&desired, &target, &parent).unwrap_err(),
        PlanError::InsufficientCapacity {
            component: "a100".to_string(),
            requested: 5,
            available: 4
        }
    );
}

#[test]
fn component_that_occurs_nowhere_is_left_out_of_the_request() {
    let target = group(&[("n1", &[("a100", 4)])]);
    let parent = group(&[("n2", &[("a100", 4)])]);
    let desired = counts(&[("a100", 4), ("h100", 2)]);
    let made = plan(&desired, &target, &parent).unwrap();
    assert_eq!(made.target_members(), vec!["n1"]);
    assert_eq!(made.parent_members(), vec!["n2"]);
}

#[test]
fn node_without_components_adds_nothing() {
    let target = group(&[("n1", &[("a100", 4)]), ("z", &[("memory", 0)])]);
    let parent = group(&[("f1", &[("a100", 4)])]);
    let desired = counts(&[("a100", 8)]);
    let made = plan(&desired, &target, &parent).unwrap();
    assert_eq!(total(&made.target, "a100"), 8);
    assert_eq!(made.target_members(), vec!["f1", "n1", "z"]);
    assert!(made.parent_members().is_empty());
}

#[test]
fn plan_keeps_every_node_once_and_sorted() {
    let (target, parent) = test_hsm_hw_management();
    let desired = counts(&[("a100", 4), ("epyc", 10), ("instinct", 8)]);
    assert!(can_plan(&target, &parent));
    let made = plan(&desired, &target, &parent).unwrap();
    let new_target = made.target_members();
    let new_parent = made.parent_members();
    assert_eq!(new_target.len() + new_parent.len(), 30);
    let mut before: Vec<String> = target.ids();
    before.extend(parent.ids());
    before.sort();
    let mut after: Vec<String> = new_target.clone();
    after.extend(new_parent.clone());
    after.sort();
    assert_eq!(before, after);
    assert!(new_target.windows(2).all(|w| w[0] < w[1]));
    assert!(new_parent.windows(2).all(|w| w[0] < w[1]));
    assert!(total(&made.target, "a100") >= 4);
    assert!(total(&made.target, "epyc") >= 10);
    assert!(total(&made.target, "instinct") >= 8);
}

#[test]
fn plan_is_the_same_for_the_same_inputs() {
    let (target, parent) = test_hsm_hw_management();
    let desired = counts(&[("a100", 8), ("epyc", 6)]);
    let first = plan(&desired, &target, &parent).unwrap();
    let second = plan(&desired, &target.duplicate(), &parent.duplicate()).unwrap();
    assert_eq!(first.target_members(), second.target_members());
    assert_eq!(first.parent_members(), second.parent_members());
}

#[test]
fn planning_again_at_equilibrium_changes_nothing() {
    let target = group(&[("n1", &[("a100", 4)]), ("n2", &[("a100", 4)]), ("n3", &[("epyc", 2)])]);
    let parent = group(&[]);
    let desired = counts(&[("a100", 8)]);
    let first = plan(&desired, &target, &parent).unwrap();
    let second = plan(&desired, &first.target, &first.parent).unwrap();
    assert_eq!(first.target_members(), second.target_members());
    assert_eq!(first.parent_members(), second.parent_members());
}

#[test]
fn planning_again_may_shed_a_surplus() {
    let target = group(&[]);
    let parent = group(&[("x", &[("a", 2)]), ("y", &[("a", 4)])]);
    let desired = counts(&[("a", 4)]);
    let first = plan(&desired, &target, &parent).unwrap();
    assert_eq!(first.target_members(), vec!["x", "y"]);
    let second = plan(&desired, &first.target, &first.parent).unwrap();
    assert_eq!(second.target_members(), vec!["y"]);
    assert_eq!(second.parent_members(), vec!["x"]);
}

#[test]
fn groups_that_share_a_node_cannot_be_planned() {
    let target = group(&[("n1", &[("a100", 4)])]);
    let parent = group(&[("n1", &[("a100", 4)])]);
    assert!(!can_plan(&target, &parent));
}

#[test]
fn sample_cluster_has_thirty_nodes() {
    let (target, parent) = test_hsm_hw_management();
    assert_eq!(target.len(), 16);
    assert_eq!(parent.len(), 14);
    assert_eq!(target.id(0), "x1001c1s5b0n0");
    assert_eq!(target.counts(4).get("Memory 16384"), Some(15));
    assert_eq!(target.counts(12).get("a100"), Some(4));
    assert_eq!(parent.id(13), "x1001c1s4b1n1");
}

#[test]
fn plan_is_printed_in_two_lines() {
    let target = group(&[("n1", &[("a100", 4)]), ("n2", &[("a100", 4)]), ("n3", &[("epyc", 2)])]);
    let parent = group(&[("f1", &[("epyc", 2)])]);
    let made = plan(&counts(&[("a100", 8)]), &target, &parent).unwrap();
    assert_eq!(made.render("zinal", "nodes_free"), "zinal members: n1,n2\nnodes_free members: f1,n3");
    assert_eq!(render_members("zinal", &vec![]), "zinal members: ");
    assert_eq!(render_members("", &vec!["n1".to_string()]), " members: n1");
}

#[test]
fn moves_and_plan_come_together() {
    let target = group(&[("n1", &[("epyc", 2)])]);
    let parent = group(&[("n2", &[("a100", 4)])]);
    let desired = counts(&[("a100", 4)]);
    let (made, moves) = plan_with_moves(&desired, &target, &parent).unwrap();
    assert_eq!(made.target_members(), vec!["n2"]);
    assert_eq!(made.parent_members(), vec!["n1"]);
    let told: Vec<(Direction, &str)> =
        moves.iter().map(|m| (m.direction, m.node.as_str())).collect();
    assert_eq!(told, vec![(Direction::OutOfTarget, "n1"), (Direction::IntoTarget, "n2")]);
}

#[test]
fn surplus_is_shed_down_to_the_request_and_not_below() {
    let target = group(&[
        ("n1", &[("a100", 4)]),
        ("n2", &[("a100", 4)]),
        ("n3", &[("a100", 4)]),
        ("n4", &[("a100", 3)]),
    ]);
    let parent = group(&[]);
    let desired = counts(&[("a100", 5)]);
    let (made, moves) = plan_with_moves(&desired, &target, &parent).unwrap();
    // Ten accelerators are beyond the request. Two nodes of four may leave;
    // a third would take the target below the request.
    assert_eq!(made.target_members(), vec!["n3", "n4"]);
    assert_eq!(made.parent_members(), vec!["n1", "n2"]);
    assert_eq!(total(&made.target, "a100"), 7);
    assert_eq!(moves.len(), 2);
}

#[test]
fn moves_are_no_more_than_nodes_where_none_comes_back() {
    let (target, parent) = test_hsm_hw_management();
    let desired = counts(&[("a100", 8), ("instinct", 16), ("epyc", 30)]);
    let moves = explain(&desired, &target, &parent).unwrap();
    let out: Vec<&str> = moves
        .iter()
        .filter(|m| m.direction == Direction::OutOfTarget)
        .map(|m| m.node.as_str())
        .collect();
    let back = moves
        .iter()
        .filter(|m| m.direction == Direction::IntoTarget && out.contains(&m.node.as_str()))
        .count();
    assert!(moves.len() <= 30 + back);
    assert!(out.len() <= 16);
}

#[test]
fn node_without_components_stays_in_the_pool_while_a_better_node_is_there() {
    let target = group(&[]);
    let parent = group(&[("f", &[("a100", 1), ("x", 1), ("y", 1)]), ("z", &[("memory", 0)])]);
    let made = plan(&counts(&[("a100", 1)]), &target, &parent).unwrap();
    assert_eq!(made.target_members(), vec!["f"]);
    assert_eq!(made.parent_members(), vec!["z"]);
}

#[test]
fn node_without_components_may_enter_before_a_node_with_much_else() {
    let target = group(&[]);
    let parent = group(&[
        ("f", &[("a100", 1), ("w", 1), ("x", 1), ("y", 1)]),
        ("z", &[("memory", 0)]),
    ]);
    let made = plan(&counts(&[("a100", 1)]), &target, &parent).unwrap();
    assert_eq!(made.target_members(), vec!["f", "z"]);
    assert!(made.parent_members().is_empty());
}

#[test]
fn plan_reports_what_is_held_beside_what_was_asked_for() {
    let target = group(&[("n1", &[("a100", 4), ("epyc", 1)]), ("n2", &[("a100", 4), ("epyc", 1)])]);
    let parent = group(&[]);
    let desired = counts(&[("a100", 5), ("h100", 2)]);
    let made = plan(&desired, &target, &parent).unwrap();
    let told: Vec<(String, usize, usize)> = made
        .report(&desired)
        .into_iter()
        .map(|c| (c.component, c.requested, c.held))
        .collect();
    assert_eq!(told, vec![("a100".to_string(), 5, 8), ("h100".to_string(), 2, 0)]);
    let layout = made.layout("zinal", "nodes_free");
    assert_eq!(layout.target_group, "zinal");
    assert_eq!(layout.target_members, vec!["n1", "n2"]);
    assert_eq!(layout.parent_group, "nodes_free");
    assert!(layout.parent_members.is_empty());
}

#[test]
fn moves_are_no_more_than_nodes_and_nodes_that_came_back() {
    let target = group(&[
        ("n1", &[("instinct", 8), ("epyc", 1)]),
        ("n2", &[("a100", 4), ("epyc", 1)]),
        ("n3", &[("a100", 4), ("epyc", 1)]),
    ]);
    let parent = group(&[]);
    let moves = explain(&counts(&[("a100", 8)]), &target, &parent).unwrap();
    let out: Vec<&str> = moves
        .iter()
        .filter(|m| m.direction == Direction::OutOfTarget)
        .map(|m| m.node.as_str())
        .collect();
    let back = moves
        .iter()
        .filter(|m| m.direction == Direction::IntoTarget && out.contains(&m.node.as_str()))
        .count();
    assert_eq!(out.len(), 3);
    assert_eq!(back, 2);
    assert_eq!(moves.len(), 5);
    assert!(moves.len() <= target.len() + parent.len() + back);
}

#[test]
fn planning_again_takes_back_what_it_takes_out() {
    let target = group(&[
        ("n1", &[("instinct", 8), ("epyc", 1)]),
        ("n2", &[("a100", 4), ("epyc", 1)]),
        ("n3", &[("a100", 4), ("epyc", 1)]),
    ]);
    let parent = group(&[]);
    let desired = counts(&[("a100", 8)]);
    let first = plan(&desired, &target, &parent).unwrap();
    let told: Vec<(Direction, String)> = explain(&desired, &first.target, &first.parent)
        .unwrap()
        .into_iter()
        .map(|m| (m.direction, m.node))
        .collect();
    // The second plan takes n2 and n3 out for their processors and back in
    // for their accelerators, so it changes nothing.
    assert_eq!(
        told,
        vec![
            (Direction::OutOfTarget, "n2".to_string()),
            (Direction::OutOfTarget, "n3".to_string()),
            (Direction::IntoTarget, "n2".to_string()),
            (Direction::IntoTarget, "n3".to_string()),
        ]
    );
    let second = plan(&desired, &first.target, &first.parent).unwrap();
    assert_eq!(second.target_members(), first.target_members());
    assert_eq!(second.parent_members(), first.parent_members());
}

#[test]
fn shortage_names_what_both_groups_hold() {
    let target = group(&[("n1", &[("a100", 1), ("epyc", 2)])]);
    let parent = group(&[("n2", &[("a100", 2)]), ("n3", &[("epyc", 1)])]);
    let desired = counts(&[("epyc", 3), ("a100", 4), ("h100", 9)]);
    assert_eq!(
        plan(&desired, &target, &parent).unwrap_err(),
        PlanError::InsufficientCapacity {
            component: "a100".to_string(),
            requested: 4,
            available: 3
        }
    );
}

#[test]
fn node_without_components_may_leave_before_a_node_with_some() {
    let target = group(&[("m", &[("junk", 5), ("a100", 0)]), ("z", &[("junk", 0)])]);
    let parent = group(&[]);
    let desired = counts(&[("a100", 0)]);
    let told: Vec<(Direction, String)> = explain(&desired, &target, &parent)
        .unwrap()
        .into_iter()
        .map(|m| (m.direction, m.node))
        .collect();
    // Both nodes name the component that is to leave; the node that names
    // nothing else scores higher.
    assert_eq!(
        told,
        vec![(Direction::OutOfTarget, "z".to_string()), (Direction::OutOfTarget, "m".to_string())]
    );
}
