//! Tests of the impact analyzer.

use bazel_differrous::impact::compute_distances;
use bazel_differrous::impact::compute_impacted_targets;
use bazel_differrous::impact::get_impacted_targets;
use bazel_differrous::jsonio::parse_dep_edges;
use bazel_differrous::jsonio::parse_target_hashes;
use bazel_differrous::models::DependencyEdges;
use bazel_differrous::models::TargetHash;
use bazel_differrous::models::TargetHashes;

fn hash(value: &str) -> TargetHash {
    TargetHash::parse(value).unwrap()
}

fn hashes(entries: &[(&str, &str)]) -> TargetHashes {
    let mut m = TargetHashes::new();
    for (label, value) in entries {
        m.insert(label.to_string(), hash(value));
    }
    m
}

fn edges(entries: &[(&str, &[&str])]) -> DependencyEdges {
    let mut m = DependencyEdges::new();
    for (label, deps) in entries {
        m.insert(
            label.to_string(),
            deps.iter().map(|d| d.to_string()).collect::<Vec<String>>(),
        );
    }
    m
}

#[test]
fn impacted_targets_include_added_changed_removed() {
    let start = hashes(&[("//pkg:a", "h1")]);
    let final_map = hashes(&[("//pkg:a", "h2"), ("//pkg:b", "h3")]);

    let impacted = compute_impacted_targets(&start, &final_map, &None).unwrap();
    assert_eq!(impacted, vec!["//pkg:a", "//pkg:b"]);
}

#[test]
fn target_type_filter_requires_type_info() {
    let start = hashes(&[("//pkg:a", "h1")]);
    let final_map = hashes(&[("//pkg:a", "h2")]);
    let res = compute_impacted_targets(&start, &final_map, &Some(vec!["Rule".to_string()]));
    assert!(res.is_err());
}

#[test]
fn computes_distances_for_indirect_changes() {
    let start = hashes(&[("//pkg:a", "Rule#old_a~d1"), ("//pkg:b", "Rule#b~d2")]);
    let final_map = hashes(&[("//pkg:a", "Rule#new_a~d1"), ("//pkg:b", "Rule#new_b~d3")]);

    let impacted = compute_impacted_targets(&start, &final_map, &None).unwrap();

    let deps = edges(&[("//pkg:a", &["//pkg:b"]), ("//pkg:b", &[])]);

    let distances = compute_distances(&start, &final_map, &deps, &impacted).unwrap();

    let mut sorted = distances;
    sorted.sort_by(|a, b| a.label.cmp(&b.label));

    let a_metrics = sorted.iter().find(|d| d.label == "//pkg:a").unwrap();
    assert_eq!(a_metrics.target_distance, 1);
    assert_eq!(a_metrics.package_distance, 0);

    let b_metrics = sorted.iter().find(|d| d.label == "//pkg:b").unwrap();
    assert_eq!(b_metrics.target_distance, 0);
}

#[test]
fn unchanged_labels_are_not_impacted() {
    let start = hashes(&[("//pkg:a", "h1"), ("//pkg:b", "h2")]);
    let final_map = hashes(&[("//pkg:a", "h1"), ("//pkg:b", "h2")]);
    let impacted = compute_impacted_targets(&start, &final_map, &None).unwrap();
    assert!(impacted.is_empty());
}

#[test]
fn impacted_list_sorts_by_kind_rank_then_label() {
    let start = hashes(&[
        ("//a:rule", "Rule#r1~d1"),
        ("//a:gen", "GeneratedFile#g1~d2"),
        ("//a:src", "SourceFile#s1~d3"),
        ("//a:zz", "SourceFile#s2~d4"),
    ]);
    let final_map = hashes(&[
        ("//a:rule", "Rule#r2~d1"),
        ("//a:gen", "GeneratedFile#g2~d2"),
        ("//a:src", "SourceFile#s3~d3"),
        ("//a:zz", "SourceFile#s4~d4"),
    ]);
    let impacted = compute_impacted_targets(&start, &final_map, &None).unwrap();
    assert_eq!(impacted, vec!["//a:src", "//a:zz", "//a:gen", "//a:rule"]);
}

#[test]
fn impacted_with_distances_crosses_one_hop() {
    let start = hashes(&[("//a:lib", "Rule#OLD_T~D1"), ("//a:dep", "Rule#T2~D2")]);
    let final_map = hashes(&[("//a:lib", "Rule#NEW_T~D1"), ("//a:dep", "Rule#T2_NEW~D3")]);
    let deps = edges(&[("//a:lib", &["//a:dep"]), ("//a:dep", &[])]);

    let result = get_impacted_targets(&start, &final_map, &Some(deps), &None).unwrap();
    assert_eq!(result.impacted, vec!["//a:dep", "//a:lib"]);
    let distances = result.distances.unwrap();
    assert_eq!(distances.len(), 2);
    assert_eq!(distances[0].label, "//a:dep");
    assert_eq!(distances[0].target_distance, 0);
    assert_eq!(distances[0].package_distance, 0);
    assert_eq!(distances[1].label, "//a:lib");
    assert_eq!(distances[1].target_distance, 1);
    assert_eq!(distances[1].package_distance, 0);
}

#[test]
fn cross_package_distance_counts_package_hops() {
    let start = hashes(&[("//a:lib", "Rule#OLD~D1"), ("//b:dep", "Rule#T2~D2")]);
    let final_map = hashes(&[("//a:lib", "Rule#NEW~D1"), ("//b:dep", "Rule#T2N~D3")]);
    let deps = edges(&[("//a:lib", &["//b:dep"]), ("//b:dep", &[])]);

    let result = get_impacted_targets(&start, &final_map, &Some(deps), &None).unwrap();
    let distances = result.distances.unwrap();
    let lib = distances.iter().find(|d| d.label == "//a:lib").unwrap();
    assert_eq!(lib.target_distance, 1);
    assert_eq!(lib.package_distance, 1);
}

#[test]
fn indirect_without_dep_entry_fails() {
    let start = hashes(&[("//a:lib", "Rule#OLD~D1")]);
    let final_map = hashes(&[("//a:lib", "Rule#NEW~D1")]);
    let deps = edges(&[]);
    let result = get_impacted_targets(&start, &final_map, &Some(deps), &None);
    assert!(result.is_err());
}

#[test]
fn indirect_without_impacted_dep_fails() {
    let start = hashes(&[("//a:lib", "Rule#OLD~D1"), ("//a:dep", "Rule#T~D")]);
    let final_map = hashes(&[("//a:lib", "Rule#NEW~D1"), ("//a:dep", "Rule#T~D")]);
    let deps = edges(&[("//a:lib", &["//a:dep"]), ("//a:dep", &[])]);
    let result = get_impacted_targets(&start, &final_map, &Some(deps), &None);
    assert!(result.is_err());
}

#[test]
fn cycle_in_impact_graph_fails() {
    let start = hashes(&[("//a:x", "Rule#O1~D"), ("//a:y", "Rule#O2~D")]);
    let final_map = hashes(&[("//a:x", "Rule#N1~D"), ("//a:y", "Rule#N2~D")]);
    let deps = edges(&[("//a:x", &["//a:y"]), ("//a:y", &["//a:x"])]);
    let result = get_impacted_targets(&start, &final_map, &Some(deps), &None);
    assert!(result.is_err());
}

#[test]
fn parses_hash_json_and_dep_edges_json() {
    let hashes_text = "{\"//a:x\": \"Rule#abc~def\", \"//a:y\": \"SourceFile#f0~0f\"}";
    let m = parse_target_hashes(hashes_text).unwrap();
    assert_eq!(m.get("//a:x").unwrap().transitive_hash, "abc");
    assert_eq!(m.get("//a:y").unwrap().target_type(), Some("SourceFile"));
    assert!(m.get("//a:z").is_none());

    let edges_text = "{\"//a:x\": [\"//a:y\"], \"//a:y\": []}";
    let e = parse_dep_edges(edges_text).unwrap();
    assert_eq!(e.get("//a:x").unwrap(), &vec!["//a:y".to_string()]);
    assert!(e.get("//a:y").unwrap().is_empty());

    assert!(parse_target_hashes("not json").is_err());
    assert!(parse_target_hashes("{\"//a:x\": \"\"}").is_err());
    assert!(parse_dep_edges("[1,2]").is_err());
}

#[test]
fn impact_type_filter_keeps_matching_kinds() {
    let start = hashes(&[("//a:rule", "Rule#r1~d1"), ("//a:src", "SourceFile#s1~d2")]);
    let final_map = hashes(&[("//a:rule", "Rule#r2~d1"), ("//a:src", "SourceFile#s2~d2")]);
    let impacted =
        compute_impacted_targets(&start, &final_map, &Some(vec!["Rule".to_string()])).unwrap();
    assert_eq!(impacted, vec!["//a:rule"]);
}
