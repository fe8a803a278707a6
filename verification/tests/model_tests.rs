//! Tests of the target-hash model and the label utilities.

use bazel_differrous::bazel::build_query_expression;
use bazel_differrous::bazel::bzlmod_repo_dir;
use bazel_differrous::bazel::normalize_flag;
use bazel_differrous::bazel::parse_bazel_version;
use bazel_differrous::bazel::repo_root_candidate;
use bazel_differrous::bazel::BazelOptions;
use bazel_differrous::bazel::BazelVersion;
use bazel_differrous::labels::is_not_main_repo;
use bazel_differrous::labels::normalize_repo;
use bazel_differrous::labels::package_segment;
use bazel_differrous::labels::resolve_main_repo;
use bazel_differrous::labels::split_external_label;
use bazel_differrous::labels::transform_rule_input;
use bazel_differrous::labels::trim_repo_name;
use bazel_differrous::models::TargetHash;

#[test]
fn parses_hash_with_type_and_direct() {
    let parsed = TargetHash::parse("Rule#abc~def").unwrap();
    assert_eq!(parsed.target_type(), Some("Rule"));
    assert_eq!(parsed.transitive_hash, "abc");
    assert_eq!(parsed.direct_hash.as_deref(), Some("def"));
}

#[test]
fn parses_hash_without_type() {
    let parsed = TargetHash::parse("abc123").unwrap();
    assert_eq!(parsed.target_type(), None);
    assert_eq!(parsed.transitive_hash, "abc123");
    assert_eq!(parsed.direct_hash, None);
}

#[test]
fn rejects_empty_transitive_hash() {
    assert!(TargetHash::parse("").is_err());
    assert!(TargetHash::parse("Rule#~def").is_err());
    assert!(TargetHash::parse("~def").is_err());
}

#[test]
fn render_round_trips_parsed_hashes() {
    for raw in ["Rule#abc~def", "abc123", "GeneratedFile#a0f~", "a~b", "SourceFile#ff~00"] {
        let parsed = TargetHash::parse(raw).unwrap();
        assert_eq!(parsed.render(), raw);
    }
}

#[test]
fn transform_rule_input_main_repo_is_identity() {
    let fine: Vec<String> = Vec::new();
    for label in ["//pkg:lib", "@//pkg:lib", "@@//pkg:lib"] {
        assert_eq!(transform_rule_input(label, &fine), label);
    }
}

#[test]
fn transform_rule_input_rewrites_fine_grained_repos() {
    let fine = vec!["depmod".to_string(), "depmod+".to_string()];
    assert_eq!(
        transform_rule_input("@depmod//pkg:lib", &fine),
        "@@depmod+//pkg:lib"
    );
    assert_eq!(
        transform_rule_input("@@depmod+//pkg:lib", &fine),
        "@@depmod+//pkg:lib"
    );
    assert_eq!(transform_rule_input("@other//pkg:lib", &fine), "//external:other");
}

#[test]
fn split_external_label_cases() {
    assert_eq!(split_external_label("//pkg:lib"), None);
    assert_eq!(
        split_external_label("@repo//pkg:lib"),
        Some(("repo".to_string(), "pkg/lib".to_string()))
    );
    assert_eq!(
        split_external_label("@@repo+//:file.bzl"),
        Some(("repo+".to_string(), "file.bzl".to_string()))
    );
}

#[test]
fn normalize_repo_strips_leading_ats() {
    assert_eq!(normalize_repo("@@dep+"), "dep+");
    assert_eq!(normalize_repo("@dep"), "dep");
    assert_eq!(trim_repo_name("dep"), "dep");
}

#[test]
fn resolve_main_repo_builds_paths() {
    let r = resolve_main_repo("//a:x.txt", "/ws").unwrap();
    assert_eq!(r.absolute, "/ws/a/x.txt");
    assert_eq!(r.workspace_relative, "a/x.txt");
    assert!(resolve_main_repo("@repo//a:x", "/ws").is_none());
    assert!(is_not_main_repo("@repo//a:x"));
    assert!(!is_not_main_repo("@@//a:x"));
}

#[test]
fn package_segment_stops_at_colon() {
    assert_eq!(package_segment("//pkg/sub:target"), "//pkg/sub");
    assert_eq!(package_segment("//pkg/sub"), "//pkg/sub");
}

#[test]
fn query_expression_quotes_and_joins() {
    let patterns = vec!["//...:all-targets".to_string(), "//external:all-targets".to_string()];
    assert_eq!(
        build_query_expression(&patterns),
        "'//...:all-targets' + '//external:all-targets'"
    );
    assert_eq!(build_query_expression(&Vec::new()), "");
}

#[test]
fn bazel_binary_defaults() {
    let mut opts = BazelOptions::default();
    assert_eq!(opts.bazel_binary(), "bazel");
    opts.bazel_path = "/usr/bin/bazel".to_string();
    assert_eq!(opts.bazel_binary(), "/usr/bin/bazel");
}

#[test]
fn version_comparison_is_lexicographic() {
    let v = BazelVersion::new(7, 2, 1);
    assert!(v.at_least(7, 2, 1));
    assert!(v.at_least(6, 9, 9));
    assert!(v.at_least(7, 1, 9));
    assert!(!v.at_least(7, 2, 2));
    assert!(!v.at_least(8, 0, 0));
}

#[test]
fn parses_version_lines() {
    let v = parse_bazel_version("bazel 7.2.1").unwrap();
    assert_eq!((v.major, v.minor, v.patch), (7, 2, 1));
    let v = parse_bazel_version("  bazel 8.0.0-pre.20240101 \n").unwrap();
    assert_eq!((v.major, v.minor, v.patch), (8, 0, 0));
    let v = parse_bazel_version("6.4").unwrap();
    assert_eq!((v.major, v.minor, v.patch), (6, 4, 0));
    assert!(parse_bazel_version("").is_none());
    assert!(parse_bazel_version("bazel x.y.z").is_none());
}

#[test]
fn normalize_flag_rewrites_short_forms() {
    assert_eq!(
        normalize_flag("-sh", "-sh", "--startingHashes"),
        Some("--startingHashes".to_string())
    );
    assert_eq!(
        normalize_flag("-sh=x.json", "-sh", "--startingHashes"),
        Some("--startingHashes=x.json".to_string())
    );
    assert_eq!(normalize_flag("-shx", "-sh", "--startingHashes"), None);
    assert_eq!(normalize_flag("--other", "-sh", "--startingHashes"), None);
}

#[test]
fn bzlmod_repo_dir_takes_first_component() {
    assert_eq!(
        bzlmod_repo_dir("/out/external", "/out/external/dep+/pkg/BUILD: rule x"),
        Some("/out/external/dep+".to_string())
    );
    assert_eq!(bzlmod_repo_dir("/out/external", "/elsewhere/dep/BUILD: y"), None);
    assert_eq!(bzlmod_repo_dir("/out/external", "/out/external"), None);
}

#[test]
fn repo_root_candidate_tries_each_fallback() {
    let root = "/out/external";
    assert_eq!(repo_root_candidate(root, "dep", true, false, None), "/out/external/dep");
    assert_eq!(repo_root_candidate(root, "dep", true, true, None), "/out/external/dep");
    assert_eq!(repo_root_candidate(root, "dep", false, true, None), "/out/external/dep+");
    assert_eq!(
        repo_root_candidate(root, "dep", false, false, Some("/out/external/dep+/BUILD: x")),
        "/out/external/dep+"
    );
    assert_eq!(
        repo_root_candidate(root, "dep", false, false, Some("/elsewhere/BUILD: x")),
        "/out/external/dep"
    );
    assert_eq!(repo_root_candidate(root, "dep", false, false, None), "/out/external/dep");
}
