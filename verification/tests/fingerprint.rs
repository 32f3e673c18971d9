use manta::fetch::{FetchAction, Fetcher, FETCH_CONCURRENCY};
use manta::fingerprint::{
    calculate_lcm, classify_components, fingerprint, get_list_accelerator_model_from_hw_inventory_value,
    get_list_memory_capacity_from_hw_inventory_value,
    get_list_processor_model_from_hw_inventory_value, get_node_hw_properties_from_value, hw_inventory_from_value, label, memory_bucket, tally,
    HwInventory, MEMORY_QUANTUM,
};
use manta::json::{count_at, len_at, text_at, texts_in};
use manta::text::decimal_text;
use serde_json::Value;
use manta::text::{contains_text, join_with_colon, node_id_less, parse_count, same_text};

fn strings(items: &[&str]) -> Vec<String> {
    items.iter().map(|s| s.to_string()).collect()
}

fn node() -> HwInventory {
    HwInventory {
        processors: strings(&["AMD EPYC 7713 64-Core Processor", "AMD EPYC 7713 64-Core Processor"]),
        accelerators: strings(&["NVIDIA A100-SXM4-80GB", "NVIDIA A100-SXM4-80GB", "Nvidia H100"]),
        memory: vec![16384, 16384, 16384, 8192],
    }
}

#[test]
fn models_count_under_the_first_key_that_occurs_in_them() {
    let keys = strings(&["a100", "epyc", "nvidia"]);
    let (found, memory) = classify_components(&node(), &keys);
    assert_eq!(found, vec!["epyc", "epyc", "a100", "a100", "nvidia"]);
    assert_eq!(memory, vec![16384, 16384, 16384, 8192]);
}

#[test]
fn models_that_no_key_occurs_in_count_under_their_own_name() {
    let (found, _) = classify_components(&node(), &strings(&["instinct"]));
    assert_eq!(
        found,
        vec![
            "amd epyc 7713 64-core processor",
            "amd epyc 7713 64-core processor",
            "nvidia a100-sxm4-80gb",
            "nvidia a100-sxm4-80gb",
            "nvidia h100"
        ]
    );
}

#[test]
fn label_takes_the_model_as_it_is_given() {
    assert_eq!(label("nvidia a100", &strings(&["epyc", "a100"])), "a100");
    assert_eq!(label("NVIDIA A100", &strings(&["epyc", "a100"])), "NVIDIA A100");
    assert_eq!(label("nvidia a100", &strings(&["", "a100"])), "");
    assert_eq!(label("nvidia a100", &vec![]), "nvidia a100");
}

#[test]
fn fingerprint_counts_components_and_memory() {
    let found = fingerprint(&node(), &strings(&["a100", "epyc"]));
    assert_eq!(found.keys(), vec!["epyc", "a100", "nvidia h100", "memory"]);
    assert_eq!(found.get("epyc"), Some(2));
    assert_eq!(found.get("a100"), Some(2));
    assert_eq!(found.get("nvidia h100"), Some(1));
    assert_eq!(found.get("memory"), Some(3));
}

#[test]
fn fingerprint_of_nothing_is_memory_zero() {
    let nothing = HwInventory { processors: vec![], accelerators: vec![], memory: vec![] };
    let found = fingerprint(&nothing, &strings(&["a100"]));
    assert_eq!(found.keys(), vec!["memory"]);
    assert_eq!(found.get("memory"), Some(0));
}

#[test]
fn memory_key_gives_way_to_the_memory() {
    let odd = HwInventory {
        processors: strings(&["Memory", "Memory"]),
        accelerators: vec![],
        memory: vec![32768],
    };
    let found = fingerprint(&odd, &vec![]);
    assert_eq!(found.keys(), vec!["memory"]);
    assert_eq!(found.get("memory"), Some(2));
}

#[test]
fn memory_is_counted_in_whole_quanta() {
    assert_eq!(MEMORY_QUANTUM, 16384);
    assert_eq!(memory_bucket(&vec![]), 0);
    assert_eq!(memory_bucket(&vec![16383]), 0);
    assert_eq!(memory_bucket(&vec![16384]), 1);
    assert_eq!(memory_bucket(&vec![8192, 8192, 8191]), 1);
    assert_eq!(memory_bucket(&vec![u64::MAX, u64::MAX]), 2251799813685247);
}

#[test]
fn tally_counts_in_order_of_first_occurrence() {
    let found = tally(&strings(&["b", "a", "b", "b", "c", "a"]));
    assert_eq!(found.keys(), vec!["b", "a", "c"]);
    assert_eq!(found.get("b"), Some(3));
    assert_eq!(found.get("a"), Some(2));
    assert_eq!(found.get("c"), Some(1));
}

#[test]
fn unit_of_capacity_is_the_smallest_above_zero() {
    assert_eq!(calculate_lcm(&vec![32768, 16384, 0, 65536]), 16384);
    assert_eq!(calculate_lcm(&vec![]), u64::MAX);
    assert_eq!(calculate_lcm(&vec![0, 0]), u64::MAX);
    assert_eq!(calculate_lcm(&vec![u64::MAX, 7]), 7);
}

#[test]
fn fetcher_keeps_no_more_than_five_requests_out() {
    let members: Vec<String> = (0..8).map(|i| format!("n{}", i)).collect();
    let mut fetcher = Fetcher::new(members, strings(&["a100"]));
    let mut asked = Vec::new();
    loop {
        match fetcher.next_action() {
            FetchAction::Request(node) => asked.push(node),
            FetchAction::Wait => break,
            FetchAction::Done => panic!("requests are out"),
        }
    }
    assert_eq!(asked, vec!["n0", "n1", "n2", "n3", "n4"]);
    assert_eq!(fetcher.outstanding(), FETCH_CONCURRENCY);
    assert!(fetcher.completed("n3".to_string(), Some(node())));
    assert!(matches!(fetcher.next_action(), FetchAction::Request(n) if n == "n5"));
    assert!(matches!(fetcher.next_action(), FetchAction::Wait));
    assert!(fetcher.completed("n0".to_string(), None));
    assert!(fetcher.completed("n1".to_string(), Some(node())));
    assert!(matches!(fetcher.next_action(), FetchAction::Request(n) if n == "n6"));
    assert!(matches!(fetcher.next_action(), FetchAction::Request(n) if n == "n7"));
    assert!(matches!(fetcher.next_action(), FetchAction::Wait));
    for id in ["n2", "n4", "n5", "n6", "n7"] {
        assert!(!fetcher.is_done());
        assert!(fetcher.completed(id.to_string(), None));
    }
    assert!(fetcher.is_done());
    assert!(matches!(fetcher.next_action(), FetchAction::Done));
    assert!(!fetcher.completed("n9".to_string(), None));
    let inventory = fetcher.inventory();
    assert_eq!(inventory.ids(), vec!["n1", "n3"]);
    assert_eq!(inventory.counts(0).get("a100"), Some(2));
}

#[test]
fn fetcher_of_no_members_is_done() {
    let mut fetcher = Fetcher::new(vec![], vec![]);
    assert!(matches!(fetcher.next_action(), FetchAction::Done));
    assert_eq!(fetcher.inventory().len(), 0);
}

#[test]
fn text_helpers() {
    assert!(contains_text("nvidia a100", "a100"));
    assert!(contains_text("nvidia a100", ""));
    assert!(contains_text("", ""));
    assert!(!contains_text("a10", "a100"));
    assert!(!contains_text("nvidia a100", "A100"));
    assert!(contains_text("ééa", "éa"));
    assert!(same_text("a100", "a100"));
    assert!(!same_text("a100", "a10"));
    assert!(node_id_less("x1000c1", "x1001c1"));
    assert!(node_id_less("x1", "x10"));
    assert!(!node_id_less("x1", "x1"));
    assert!(!node_id_less("x9", "x10"));
    assert!(node_id_less("", "a"));
    assert!(node_id_less("z", "é"));
    assert_eq!(parse_count("0042"), Some(42));
    assert_eq!(parse_count(""), None);
    assert_eq!(parse_count("+4"), None);
    assert_eq!(parse_count("４"), None);
    assert_eq!(parse_count(&usize::MAX.to_string()), Some(usize::MAX));
    assert_eq!(parse_count(&format!("{}0", usize::MAX)), None);
    assert_eq!(join_with_colon(&strings(&["a100", "epyc"])), "a100:epyc");
    assert_eq!(join_with_colon(&strings(&["a100"])), "a100");
    assert_eq!(join_with_colon(&vec![]), "");
}

fn document() -> Value {
    serde_json::from_str(
        r#"{
            "XName": "x1001c1s5b0n0",
            "Nodes": [
                {
                    "ID": "x1001c1s5b0n0",
                    "Type": "Node",
                    "Processors": [
                        {"ID": "x1001c1s5b0n0p0", "Type": "Processor",
                         "PopulatedFRU": {"ProcessorFRUInfo": {"Model": "AMD EPYC 7713 64-Core Processor"}}},
                        {"ID": "x1001c1s5b0n0p1", "Type": "Processor",
                         "PopulatedFRU": {"ProcessorFRUInfo": {"Model": "AMD EPYC 7713 64-Core Processor"}}}
                    ],
                    "NodeAccels": [
                        {"ID": "x1001c1s5b0n0a0", "Type": "NodeAccel",
                         "PopulatedFRU": {"NodeAccelFRUInfo": {"Model": "NVIDIA A100-SXM4-80GB"}}}
                    ],
                    "Memory": [
                        {"ID": "x1001c1s5b0n0d0", "Type": "Memory",
                         "PopulatedFRU": {"MemoryFRUInfo": {"CapacityMiB": 16384}}},
                        {"ID": "x1001c1s5b0n0d1", "Type": "Memory",
                         "PopulatedFRU": {"MemoryFRUInfo": {"CapacityMiB": 16384}}},
                        {"ID": "x1001c1s5b0n0d2", "Type": "Memory",
                         "PopulatedFRU": {"MemoryFRUInfo": {"CapacityMiB": 8192}}}
                    ]
                },
                {"ID": "x1001c1s5b0n1", "Processors": [
                    {"PopulatedFRU": {"ProcessorFRUInfo": {"Model": "Intel Xeon"}}}
                ]}
            ]
        }"#,
    )
    .unwrap()
}

#[test]
fn lists_are_read_from_the_first_node_of_a_document() {
    let found = document();
    assert_eq!(
        get_list_processor_model_from_hw_inventory_value(&found),
        Some(strings(&["AMD EPYC 7713 64-Core Processor", "AMD EPYC 7713 64-Core Processor"]))
    );
    assert_eq!(
        get_list_accelerator_model_from_hw_inventory_value(&found),
        Some(strings(&["NVIDIA A100-SXM4-80GB"]))
    );
    assert_eq!(
        get_list_memory_capacity_from_hw_inventory_value(&found),
        Some(vec![16384, 16384, 8192])
    );
}

#[test]
fn document_gives_the_components_of_its_node() {
    let (found, memory) =
        get_node_hw_properties_from_value(&document(), &strings(&["a100", "epyc"]));
    assert_eq!(found, vec!["epyc", "epyc", "a100"]);
    assert_eq!(memory, vec![16384, 16384, 8192]);
    let counts = fingerprint(&hw_inventory_from_value(&document()), &strings(&["a100", "epyc"]));
    assert_eq!(counts.keys(), vec!["epyc", "a100", "memory"]);
    assert_eq!(counts.get("memory"), Some(2));
}

#[test]
fn document_that_lacks_its_lists_gives_nothing() {
    for text in [
        "{}",
        "[]",
        "null",
        r#"{"Nodes": []}"#,
        r#"{"Nodes": [{"Processors": {"0": 1}}]}"#,
        r#"{"Nodes": [{"Processors": [{"PopulatedFRU": {"ProcessorFRUInfo": {}}}]}]}"#,
        r#"{"Nodes": [{"Processors": [{"PopulatedFRU": {"ProcessorFRUInfo": {"Model": 7}}}]}]}"#,
        r#"{"Nodes": [{"Memory": [{"PopulatedFRU": {"MemoryFRUInfo": {"CapacityMiB": -1}}}]}]}"#,
        r#"{"Nodes": [{"Memory": [{"PopulatedFRU": {"MemoryFRUInfo": {"CapacityMiB": 1.5}}}]}]}"#,
        r#"{"Nodes": [{"Memory": [{"PopulatedFRU": {"MemoryFRUInfo": {"CapacityMiB": "16384"}}}]}]}"#,
    ] {
        let found: Value = serde_json::from_str(text).unwrap();
        assert_eq!(get_list_processor_model_from_hw_inventory_value(&found), None);
        assert_eq!(get_list_accelerator_model_from_hw_inventory_value(&found), None);
        assert_eq!(get_list_memory_capacity_from_hw_inventory_value(&found), None);
        let inventory = hw_inventory_from_value(&found);
        assert!(inventory.processors.is_empty());
        assert!(inventory.accelerators.is_empty());
        assert!(inventory.memory.is_empty());
        let counts = fingerprint(&inventory, &strings(&["a100"]));
        assert_eq!(counts.keys(), vec!["memory"]);
        assert_eq!(counts.get("memory"), Some(0));
    }
}

#[test]
fn empty_lists_are_lists() {
    let found: Value =
        serde_json::from_str(r#"{"Nodes": [{"Processors": [], "Memory": []}]}"#).unwrap();
    assert_eq!(get_list_processor_model_from_hw_inventory_value(&found), Some(vec![]));
    assert_eq!(get_list_accelerator_model_from_hw_inventory_value(&found), None);
    assert_eq!(get_list_memory_capacity_from_hw_inventory_value(&found), Some(vec![]));
}

#[test]
fn long_lists_are_read_to_their_end() {
    let items: Vec<String> = (0..123)
        .map(|i| format!(r#"{{"Model": "m{}", "Slot": {}}}"#, i, i))
        .collect();
    let found: Value =
        serde_json::from_str(&format!(r#"{{"List": [{}]}}"#, items.join(","))).unwrap();
    let models = texts_in(&found, "/List", "/Model").unwrap();
    assert_eq!(models.len(), 123);
    assert_eq!(models[0], "m0");
    assert_eq!(models[10], "m10");
    assert_eq!(models[122], "m122");
    assert_eq!(count_at(&found, "/List/101/Slot"), Some(101));
    assert_eq!(count_at(&found, "/List/0101/Slot"), None);
    assert_eq!(len_at(&found, "/List"), Some(123));
    assert_eq!(len_at(&found, "/List/0"), None);
    assert_eq!(len_at(&found, "List"), None);
    assert_eq!(text_at(&found, "/List/7/Model"), Some("m7".to_string()));
    assert_eq!(text_at(&found, "/List/7/Slot"), None);
    assert_eq!(text_at(&found, "/List/123/Model"), None);
}

#[test]
fn numbers_are_written_in_decimal_digits() {
    assert_eq!(decimal_text(0), "0");
    assert_eq!(decimal_text(7), "7");
    assert_eq!(decimal_text(10), "10");
    assert_eq!(decimal_text(16384), "16384");
    assert_eq!(decimal_text(u64::MAX), "18446744073709551615");
}
