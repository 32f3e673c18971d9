use manta::pattern::{parse_lowered_pattern, parse_pattern, split_at_colons};
use manta::planner::PlanError;

#[test]
fn pattern_with_three_components() {
    let (group, counts) = parse_pattern("zinal:a100:4:epyc:30:instinct:2").unwrap();
    assert_eq!(group, "zinal");
    assert_eq!(counts.len(), 3);
    assert_eq!(counts.get("a100"), Some(4));
    assert_eq!(counts.get("epyc"), Some(30));
    assert_eq!(counts.get("instinct"), Some(2));
    assert_eq!(counts.keys(), vec!["a100", "epyc", "instinct"]);
}

#[test]
fn pattern_is_put_in_lower_case() {
    let (group, counts) = parse_pattern("Test:NVIDIA:2:Amd:3").unwrap();
    assert_eq!(group, "test");
    assert_eq!(counts.get("nvidia"), Some(2));
    assert_eq!(counts.get("amd"), Some(3));
    assert_eq!(counts.get("NVIDIA"), None);
}

#[test]
fn lowered_pattern_is_read_as_it_stands() {
    assert_eq!(
        parse_lowered_pattern("Test:nvidia:2").map(|found| found.0),
        Ok("Test".to_string()).map_err(|_: ()| PlanError::MalformedPattern)
    );
    assert_eq!(parse_lowered_pattern("test:NVIDIA:2").unwrap_err(), PlanError::MalformedPattern);
}

#[test]
fn group_alone_asks_for_nothing() {
    let (group, counts) = parse_pattern("zinal").unwrap();
    assert_eq!(group, "zinal");
    assert_eq!(counts.len(), 0);
}

#[test]
fn missing_count_is_malformed() {
    assert_eq!(parse_pattern("g:a100").unwrap_err(), PlanError::MalformedPattern);
}

#[test]
fn trailing_colon_is_malformed() {
    assert_eq!(parse_pattern("g:").unwrap_err(), PlanError::MalformedPattern);
    assert_eq!(parse_pattern("g:a100:4:").unwrap_err(), PlanError::MalformedPattern);
}

#[test]
fn count_that_is_no_number_is_malformed() {
    assert_eq!(parse_pattern("g:a100:four").unwrap_err(), PlanError::MalformedPattern);
    assert_eq!(parse_pattern("g:a100:-4").unwrap_err(), PlanError::MalformedPattern);
    assert_eq!(parse_pattern("g:a100:").unwrap_err(), PlanError::MalformedPattern);
    assert_eq!(parse_pattern("g:a100:4.5").unwrap_err(), PlanError::MalformedPattern);
}

#[test]
fn count_beyond_the_machine_is_malformed() {
    assert_eq!(
        parse_pattern("g:a100:340282366920938463463374607431768211456").unwrap_err(),
        PlanError::MalformedPattern
    );
}

#[test]
fn key_that_is_a_number_is_malformed() {
    assert_eq!(parse_pattern("g:100:4").unwrap_err(), PlanError::MalformedPattern);
}

#[test]
fn key_with_other_characters_is_malformed() {
    assert_eq!(parse_pattern("g:a-100:4").unwrap_err(), PlanError::MalformedPattern);
    assert_eq!(parse_pattern("g::4").unwrap_err(), PlanError::MalformedPattern);
    assert_eq!(parse_pattern("g:a 100:4").unwrap_err(), PlanError::MalformedPattern);
}

#[test]
fn key_that_comes_twice_is_malformed() {
    assert_eq!(parse_pattern("g:a100:4:a100:2").unwrap_err(), PlanError::MalformedPattern);
    assert_eq!(parse_pattern("g:a100:4:A100:2").unwrap_err(), PlanError::MalformedPattern);
}

#[test]
fn empty_group_is_malformed() {
    assert_eq!(parse_pattern("").unwrap_err(), PlanError::MalformedPattern);
    assert_eq!(parse_pattern(":a100:4").unwrap_err(), PlanError::MalformedPattern);
}

#[test]
fn count_of_zero_and_leading_zeros() {
    let (_, counts) = parse_pattern("g:a100:0:epyc:007").unwrap();
    assert_eq!(counts.get("a100"), Some(0));
    assert_eq!(counts.get("epyc"), Some(7));
}

#[test]
fn split_gives_one_part_more_than_colons() {
    assert_eq!(split_at_colons(""), vec![""]);
    assert_eq!(split_at_colons("a"), vec!["a"]);
    assert_eq!(split_at_colons("a:b"), vec!["a", "b"]);
    assert_eq!(split_at_colons(":a::b:"), vec!["", "a", "", "b", ""]);
    assert_eq!(split_at_colons("é:ü"), vec!["é", "ü"]);
}
