use manta::artifact::{ArtifactSummary, ArtifactType, NodeSummary};
use manta::counts::ComponentCounts;
use manta::delta::Delta;
use manta::hsm_pattern::{leading_count, pattern_of, strip_whitespace};
use manta::inventory::GroupInventory;
use manta::node_quantity::{
    get_node_hw_properties, match_node_profile, match_profile, parse_profiles,
    rebalance_by_node_quantity, sort_by_length, RebalanceError,
};
use serde_json::Value;
use manta::profile::{
    check_node_complains_pattern, count_patterns, sort_texts, HsmHwPatternSummary,
};
use manta::simple_score::{
    calculate_hsm_hw_component_node_scores, get_best_candidate_to_downscale_migrate,
    get_best_candidate_to_upscale_migrate, sort_by_score,
};

fn strings(items: &[&str]) -> Vec<String> {
    items.iter().map(|s| s.to_string()).collect()
}

fn profiles() -> Vec<Vec<String>> {
    vec![strings(&["a100", "epyc"]), strings(&["epyc"]), strings(&["epyc", "instinct"])]
}

fn summary() -> HsmHwPatternSummary {
    let mut out = HsmHwPatternSummary::new(profiles());
    out.insert_node_hw_profile_counter("n3".to_string(), strings(&["epyc"]), 1);
    out.insert_node_hw_profile_counter("n1".to_string(), strings(&["a100", "epyc"]), 1);
    out.insert_node_hw_profile_counter("n2".to_string(), strings(&["epyc"]), 1);
    out.insert_node_hw_profile_counter("n4".to_string(), vec![], 1);
    out
}

#[test]
fn node_complies_where_it_has_all_properties() {
    assert_eq!(check_node_complains_pattern(&strings(&["epyc"]), &strings(&["a100", "epyc"])), 1);
    assert_eq!(check_node_complains_pattern(&strings(&["epyc", "a100"]), &strings(&["a100"])), 0);
    assert_eq!(check_node_complains_pattern(&strings(&["epyc"]), &vec![]), 0);
    assert_eq!(check_node_complains_pattern(&vec![], &vec![]), 0);
    assert_eq!(check_node_complains_pattern(&vec![], &strings(&["a100"])), 1);
}

#[test]
fn patterns_are_counted_for_each_node() {
    let nodes = vec![
        ("n1".to_string(), Some(strings(&["a100", "epyc"]))),
        ("n2".to_string(), None),
        ("n3".to_string(), Some(strings(&["instinct", "epyc"]))),
    ];
    assert_eq!(
        count_patterns(&profiles(), &nodes),
        vec![
            ("n1".to_string(), vec![1, 1, 0]),
            ("n2".to_string(), vec![0, 0, 0]),
            ("n3".to_string(), vec![0, 1, 1]),
        ]
    );
}

#[test]
fn profile_counters_match_the_whole_profile() {
    let found = summary();
    assert_eq!(
        found.get_hw_profile_counters(),
        vec![vec![0, 1, 0], vec![1, 0, 0], vec![0, 1, 0], vec![0, 0, 0]]
    );
    assert_eq!(found.node_ids(), vec!["n3", "n1", "n2", "n4"]);
    assert_eq!(found.profile_names(), vec!["a100:epyc", "epyc", "epyc:instinct"]);
    assert_eq!(found.profile_count(), 3);
}

#[test]
fn property_counters_match_each_profile_that_the_node_covers() {
    let mut found = HsmHwPatternSummary::new(profiles());
    found.insert_node_hw_properties_counter("n1".to_string(), strings(&["epyc", "a100"]), 2);
    found.insert_node_hw_properties_counter("n1".to_string(), strings(&["epyc"]), 3);
    assert_eq!(found.get_hw_profile_counters(), vec![vec![2, 2, 0], vec![2, 5, 0]]);
    assert!(found.insertion_fits("n1", &strings(&["epyc"]), 253, false));
    assert!(!found.insertion_fits("n1", &strings(&["epyc"]), 254, false));
    assert!(!found.insertion_fits("n1", &strings(&["epyc"]), 254, true));
    assert!(found.insertion_fits("n1", &strings(&["instinct"]), 255, true));
    assert!(found.insertion_fits("n9", &strings(&["epyc"]), 255, false));
}

#[test]
fn total_counters_sum_over_the_nodes() {
    let found = summary();
    assert_eq!(
        found.get_hw_profile_total_counters(),
        vec![("a100:epyc".to_string(), 1), ("epyc".to_string(), 2), ("epyc:instinct".to_string(), 0)]
    );
    assert_eq!(found.get_hw_profile_counters_total_count(strings(&["epyc"])), 2);
    assert_eq!(found.get_hw_profile_counters_total_count(strings(&["a100", "epyc"])), 1);
    assert_eq!(found.profile_position(&strings(&["epyc", "a100"])), None);
    assert!(found.totals_fit());
}

#[test]
fn totals_that_do_not_fit_are_told() {
    let mut found = HsmHwPatternSummary::new(vec![strings(&["epyc"])]);
    found.insert_node_hw_profile_counter("n1".to_string(), strings(&["epyc"]), 200);
    found.insert_node_hw_profile_counter("n2".to_string(), strings(&["epyc"]), 56);
    assert!(!found.totals_fit());
}

#[test]
fn candidates_are_the_first_in_the_order_of_identifiers() {
    let found = summary();
    assert_eq!(
        found.get_candidate_nodes_with_specific_hw_profile(&"epyc".to_string(), 1),
        vec!["n2"]
    );
    assert_eq!(
        found.get_candidate_nodes_with_specific_hw_profile(&"epyc".to_string(), 2),
        vec!["n2", "n3"]
    );
    assert!(found
        .get_candidate_nodes_with_specific_hw_profile(&"epyc".to_string(), 3)
        .is_empty());
    assert!(found
        .get_candidate_nodes_with_specific_hw_profile(&"epyc:instinct".to_string(), 0)
        .is_empty());
    assert_eq!(found.profile_named("a100:epyc"), Some(0));
    assert_eq!(found.profile_named("a100"), None);
}

#[test]
fn texts_are_sorted_by_their_bytes() {
    assert_eq!(sort_texts(&strings(&["b", "a", "é", "B", "a", ""])), vec!["", "B", "a", "a", "b", "é"]);
}

#[test]
fn profiles_are_read_from_the_parts_of_a_pattern() {
    let (found, quantities) =
        parse_profiles(&strings(&["a100", "epyc", "a100", "2", "epyc", "3", "epyc", "instinct", "8", "epyc", "5", "a100"]));
    assert_eq!(
        found,
        vec![strings(&["a100", "epyc"]), strings(&["epyc"]), strings(&["epyc", "instinct"]), strings(&["epyc"])]
    );
    assert_eq!(quantities.keys(), vec!["a100:epyc", "epyc", "epyc:instinct"]);
    assert_eq!(quantities.get("a100:epyc"), Some(2));
    assert_eq!(quantities.get("epyc"), Some(5));
    assert_eq!(quantities.get("epyc:instinct"), Some(8));
}

#[test]
fn count_above_255_is_a_property() {
    let (found, quantities) = parse_profiles(&strings(&["epyc", "256", "255"]));
    assert_eq!(found, vec![strings(&["epyc", "256"])]);
    assert_eq!(quantities.get("epyc:256"), Some(255));
}

#[test]
fn profiles_are_sorted_with_the_longest_first() {
    let sorted = sort_by_length(&vec![
        strings(&["epyc"]),
        strings(&["a100", "epyc"]),
        strings(&["instinct"]),
        strings(&["x", "y", "z"]),
        strings(&["epyc", "instinct"]),
    ]);
    assert_eq!(
        sorted,
        vec![
            strings(&["x", "y", "z"]),
            strings(&["a100", "epyc"]),
            strings(&["epyc", "instinct"]),
            strings(&["epyc"]),
            strings(&["instinct"]),
        ]
    );
}

#[test]
fn node_matches_the_longest_profile_that_occurs_in_it() {
    let list = vec![strings(&["epyc"]), strings(&["a100", "epyc"]), strings(&["instinct", "epyc"])];
    assert_eq!(
        match_node_profile(
            &strings(&["AMD EPYC 7713", "AMD EPYC 7713"]),
            &strings(&["NVIDIA A100"]),
            &list
        ),
        Some(strings(&["a100", "epyc"]))
    );
    assert_eq!(
        match_node_profile(&strings(&["AMD EPYC 7713"]), &vec![], &list),
        Some(strings(&["epyc"]))
    );
    assert_eq!(match_node_profile(&strings(&["Intel Xeon"]), &vec![], &list), None);
    let document: Value = serde_json::from_str(
        r#"{"Nodes": [{
            "Processors": [{"PopulatedFRU": {"ProcessorFRUInfo": {"Model": "AMD EPYC 7713"}}}],
            "NodeAccels": [{"PopulatedFRU": {"NodeAccelFRUInfo": {"Model": "AMD INSTINCT MI200"}}}]
        }]}"#,
    )
    .unwrap();
    assert_eq!(get_node_hw_properties(&document, &list), Some(strings(&["instinct", "epyc"])));
    let nothing: Value = serde_json::from_str("{}").unwrap();
    assert_eq!(get_node_hw_properties(&nothing, &list), None);
    assert_eq!(match_profile("AMD EPYC", &list), None);
    assert_eq!(match_profile("amd epyc", &list), Some(strings(&["epyc"])));
}

fn quantities(pairs: &[(&str, usize)]) -> ComponentCounts {
    ComponentCounts::from_pairs(pairs.iter().map(|(k, q)| (k.to_string(), *q)).collect())
}

#[test]
fn rebalancing_takes_from_the_pool_and_gives_to_it() {
    let target = summary();
    let mut free = HsmHwPatternSummary::new(profiles());
    free.insert_node_hw_profile_counter("f2".to_string(), strings(&["a100", "epyc"]), 1);
    free.insert_node_hw_profile_counter("f1".to_string(), strings(&["a100", "epyc"]), 1);
    free.insert_node_hw_profile_counter("f3".to_string(), strings(&["epyc", "instinct"]), 1);
    let done = rebalance_by_node_quantity(
        &quantities(&[("a100:epyc", 2), ("epyc", 1), ("epyc:instinct", 0)]),
        &target,
        &free,
        strings(&["n3", "n1", "n2", "n4"]),
        strings(&["f2", "f1", "f3"]),
    );
    assert_eq!(
        done,
        Ok((strings(&["f1", "n1", "n3", "n4"]), strings(&["f2", "f3", "n2"])))
    );
}

#[test]
fn rebalancing_fails_where_the_pool_is_short() {
    let target = summary();
    let free = HsmHwPatternSummary::new(profiles());
    let failed = rebalance_by_node_quantity(
        &quantities(&[("a100:epyc", 3), ("epyc", 2)]),
        &target,
        &free,
        strings(&["n3", "n1", "n2", "n4"]),
        vec![],
    );
    assert_eq!(
        failed,
        Err(RebalanceError::NotEnoughNodes {
            profile: "a100:epyc".to_string(),
            available: 0,
            needed: 2
        })
    );
}

#[test]
fn whole_number_scores_count_for_and_against_a_node() {
    let nodes: Vec<(String, ComponentCounts)> = vec![
        ("n1".to_string(), quantities(&[("a100", 4), ("epyc", 1)])),
        ("n2".to_string(), quantities(&[("nvidia a100", 4), ("memory", 32)])),
        ("n3".to_string(), quantities(&[("a100", 2)])),
    ];
    let inventory = GroupInventory::from_nodes(&nodes);
    let mut demand = Delta::new();
    demand.insert("a100".to_string(), -3);
    let scores = calculate_hsm_hw_component_node_scores(&inventory, &demand);
    assert_eq!(
        scores,
        vec![("n1".to_string(), -3), ("n2".to_string(), 28), ("n3".to_string(), 2)]
    );
}

#[test]
fn whole_number_candidates_are_the_first_of_the_highest() {
    let nodes: Vec<(String, ComponentCounts)> = vec![
        ("n1".to_string(), quantities(&[("a100", 4)])),
        ("n2".to_string(), quantities(&[("epyc", 2)])),
        ("n3".to_string(), quantities(&[("instinct", 8)])),
        ("n4".to_string(), quantities(&[("memory", 1)])),
    ];
    let inventory = GroupInventory::from_nodes(&nodes);
    let scores = vec![
        ("n1".to_string(), 3),
        ("n2".to_string(), 7),
        ("n3".to_string(), -2),
        ("n4".to_string(), 7),
        ("n1".to_string(), -2),
    ];
    let mut down = scores.clone();
    let (best, counters) = get_best_candidate_to_downscale_migrate(&mut down, &inventory);
    assert_eq!(best, ("n2".to_string(), 7));
    assert_eq!(counters.get("epyc"), Some(2));
    let sorted = vec![
        ("n2".to_string(), 7),
        ("n4".to_string(), 7),
        ("n1".to_string(), 3),
        ("n3".to_string(), -2),
        ("n1".to_string(), -2),
    ];
    assert_eq!(down, sorted);
    let mut up = scores.clone();
    let (best, counters) = get_best_candidate_to_upscale_migrate(&mut up, &inventory);
    assert_eq!(best, ("n2".to_string(), 7));
    assert_eq!(counters.get("epyc"), Some(2));
    assert_eq!(up, sorted);
    let mut again = scores;
    sort_by_score(&mut again);
    assert_eq!(again, sorted);
}

#[test]
fn artifact_kinds_have_names() {
    assert_eq!(ArtifactType::all().len(), 12);
    for kind in ArtifactType::all() {
        assert_eq!(ArtifactType::from_name(kind.name()), Some(kind));
    }
    assert_eq!(ArtifactType::NodeHsnNic.name(), "NodeHsnNic");
    assert_eq!(ArtifactType::from_name("CabinetPDU"), Some(ArtifactType::CabinetPDU));
    assert_eq!(ArtifactType::from_name("memory"), None);
    assert_eq!(ArtifactType::from_name(""), None);
}

fn artifact(kind: ArtifactType, info: &str) -> ArtifactSummary {
    ArtifactSummary { xname: "x1".to_string(), kind, info: info.to_string() }
}

fn node_summary(xname: &str, memory: &[&str]) -> NodeSummary {
    NodeSummary {
        xname: xname.to_string(),
        kind: "Node".to_string(),
        processors: vec![
            artifact(ArtifactType::Processor, "AMD EPYC 7713"),
            artifact(ArtifactType::Processor, "AMD\tEPYC 7713 "),
        ],
        memory: memory.iter().map(|m| artifact(ArtifactType::Memory, m)).collect(),
        node_accels: vec![artifact(ArtifactType::NodeAccel, "NVIDIA A100")],
        node_hsn_nics: vec![artifact(ArtifactType::NodeHsnNic, "Slingshot 11")],
    }
}

#[test]
fn pattern_of_a_group_counts_models_and_memory() {
    let nodes =
        vec![node_summary("x1", &["16384 MiB", "16384 MiB"]), node_summary("x2", &["8192"])];
    let found = pattern_of(&nodes).unwrap();
    assert_eq!(found.keys(), vec!["AMDEPYC7713", "NVIDIAA100", "memory"]);
    assert_eq!(found.get("AMDEPYC7713"), Some(4));
    assert_eq!(found.get("NVIDIAA100"), Some(2));
    assert_eq!(found.get("memory"), Some(40960));
    assert_eq!(pattern_of(&vec![]).unwrap().len(), 0);
}

#[test]
fn pattern_of_a_group_needs_numbers_for_memory() {
    assert!(pattern_of(&vec![node_summary("x1", &["sixteen MiB"])]).is_none());
    assert!(pattern_of(&vec![node_summary("x1", &[" 16384 MiB"])]).is_none());
    assert!(pattern_of(&vec![node_summary("x1", &[""])]).is_none());
    let big = usize::MAX.to_string();
    assert!(pattern_of(&vec![node_summary("x1", &[&big, "1 MiB"])]).is_none());
}

#[test]
fn white_space_is_taken_out() {
    assert_eq!(strip_whitespace(" AMD EPYC\t7713\u{a0}64-Core\n"), "AMDEPYC771364-Core");
    assert_eq!(strip_whitespace(""), "");
    assert_eq!(leading_count("16384 MiB"), Some(16384));
    assert_eq!(leading_count("16384"), Some(16384));
    assert_eq!(leading_count("16384\tMiB"), None);
    assert_eq!(leading_count(""), None);
}

fn node_entry() -> Value {
    serde_json::from_str(
        r#"{
            "ID": "x1001c1s5b0n0",
            "Type": "Node",
            "Processors": [
                {"ID": "x1001c1s5b0n0p0", "Type": "Processor",
                 "PopulatedFRU": {"ProcessorFRUInfo": {"Model": "AMD EPYC 7713"}}}
            ],
            "Memory": [
                {"ID": "x1001c1s5b0n0d0", "Type": "Memory",
                 "PopulatedFRU": {"MemoryFRUInfo": {"CapacityMiB": 16384}}},
                {"ID": "x1001c1s5b0n0d1", "Type": "Memory",
                 "PopulatedFRU": {"MemoryFRUInfo": {"CapacityMiB": 0}}}
            ],
            "NodeHsnNics": [
                {"ID": "x1001c1s5b0n0h0", "Type": "NodeHsnNic",
                 "NodeHsnNicLocationInfo": {"Description": "Slingshot 11"}}
            ]
        }"#,
    )
    .unwrap()
}

#[test]
fn node_summary_is_read_from_a_document() {
    let found = NodeSummary::from_csm_value(&node_entry()).unwrap();
    assert_eq!(found.xname, "x1001c1s5b0n0");
    assert_eq!(found.kind, "Node");
    assert_eq!(found.processors.len(), 1);
    assert_eq!(found.processors[0].xname, "x1001c1s5b0n0p0");
    assert_eq!(found.processors[0].kind, ArtifactType::Processor);
    assert_eq!(found.processors[0].info, "AMD EPYC 7713");
    assert_eq!(found.memory.len(), 2);
    assert_eq!(found.memory[0].kind, ArtifactType::Memory);
    assert_eq!(found.memory[0].info, "16384 MiB");
    assert_eq!(found.memory[1].info, "0 MiB");
    assert!(found.node_accels.is_empty());
    assert_eq!(found.node_hsn_nics[0].info, "Slingshot 11");
    let counts = pattern_of(&vec![found]).unwrap();
    assert_eq!(counts.get("AMDEPYC7713"), Some(1));
    assert_eq!(counts.get("memory"), Some(16384));
}

#[test]
fn node_summary_needs_every_field() {
    for text in [
        "{}",
        r#"{"ID": "x1"}"#,
        r#"{"Type": "Node"}"#,
        r#"{"ID": 1, "Type": "Node"}"#,
        r#"{"ID": "x1", "Type": "Node", "Processors": [{"ID": "p0", "Type": "Processor"}]}"#,
        r#"{"ID": "x1", "Type": "Node", "Processors": [{"ID": "p0", "Type": "Cpu",
            "PopulatedFRU": {"ProcessorFRUInfo": {"Model": "AMD"}}}]}"#,
        r#"{"ID": "x1", "Type": "Node", "Memory": [{"ID": "d0", "Type": "Memory",
            "PopulatedFRU": {"MemoryFRUInfo": {"CapacityMiB": "16384"}}}]}"#,
        r#"{"ID": "x1", "Type": "Node", "NodeAccels": [{"Type": "NodeAccel",
            "PopulatedFRU": {"NodeAccelFRUInfo": {"Model": "A100"}}}]}"#,
    ] {
        let found: Value = serde_json::from_str(text).unwrap();
        assert!(NodeSummary::from_csm_value(&found).is_none());
    }
    let bare: Value = serde_json::from_str(r#"{"ID": "x1", "Type": "Node"}"#).unwrap();
    let found = NodeSummary::from_csm_value(&bare).unwrap();
    assert!(found.processors.is_empty() && found.memory.is_empty());
    let odd: Value =
        serde_json::from_str(r#"{"ID": "x1", "Type": "Node", "Processors": "none"}"#).unwrap();
    assert!(NodeSummary::from_csm_value(&odd).unwrap().processors.is_empty());
}

#[test]
fn higher_score_wins_in_both_directions() {
    let nodes: Vec<(String, ComponentCounts)> = vec![
        ("n1".to_string(), quantities(&[("epyc", 2)])),
        ("n2".to_string(), quantities(&[("a100", 4)])),
    ];
    let inventory = GroupInventory::from_nodes(&nodes);
    let mut up = vec![("n1".to_string(), 2), ("n2".to_string(), 5)];
    let (best, counters) = get_best_candidate_to_upscale_migrate(&mut up, &inventory);
    assert_eq!(best, ("n2".to_string(), 5));
    assert_eq!(counters.keys(), vec!["a100"]);
    assert_eq!(counters.get("a100"), Some(4));
    assert_eq!(up, vec![("n2".to_string(), 5), ("n1".to_string(), 2)]);
    let mut down = vec![("n1".to_string(), 2), ("n2".to_string(), 5)];
    let (best, counters) = get_best_candidate_to_downscale_migrate(&mut down, &inventory);
    assert_eq!(best, ("n2".to_string(), 5));
    assert_eq!(counters.get("a100"), Some(4));
    let mut tied = vec![("n1".to_string(), 5), ("n2".to_string(), 5)];
    let (best, _) = get_best_candidate_to_upscale_migrate(&mut tied, &inventory);
    assert_eq!(best, ("n1".to_string(), 5));
}
