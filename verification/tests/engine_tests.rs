//! End-to-end tests of the hash engine, with expected digests recomputed
//! directly through the hash and hex libraries.

use sha2::Digest;

use bazel_differrous::driver::generate_hashes;
use bazel_differrous::driver::GenerateHashesConfig;
use bazel_differrous::driver::WorkspaceData;
use bazel_differrous::graph::BazelAttribute;
use bazel_differrous::graph::BazelRule;
use bazel_differrous::graph::BazelSource;
use bazel_differrous::graph::BazelTarget;
use bazel_differrous::smap::SortedMap;
use bazel_differrous::source_hash::ExternalRepoResolver;
use bazel_differrous::source_hash::FileSnapshot;
use bazel_differrous::source_hash::SourceFileHasher;

fn sha(parts: &[&[u8]]) -> Vec<u8> {
    let mut h = sha2::Sha256::new();
    for p in parts {
        h.update(p);
    }
    h.finalize().to_vec()
}

fn base_config(workspace: &str) -> GenerateHashesConfig {
    GenerateHashesConfig {
        workspace: workspace.to_string(),
        ..GenerateHashesConfig::default()
    }
}

fn base_data(nodes: Vec<BazelTarget>, snapshot: FileSnapshot) -> WorkspaceData {
    WorkspaceData {
        nodes,
        output_base: "/out".to_string(),
        repo_roots: SortedMap::new(),
        fine_grained_file_text: None,
        content_hash_entries: None,
        seed_file_contents: None,
        modified_file_text: None,
        snapshot,
    }
}

fn source_node(name: &str) -> BazelTarget {
    BazelTarget::Source(BazelSource { name: name.to_string(), subincludes: Vec::new() })
}

fn rule_node(name: &str, class: &str, attrs: &[(&str, &[u8])], inputs: &[&str]) -> BazelTarget {
    BazelTarget::Rule(BazelRule {
        name: name.to_string(),
        rule_class: class.to_string(),
        skylark_environment_hash_code: None,
        attributes: attrs
            .iter()
            .map(|(n, b)| BazelAttribute { name: n.to_string(), encoded: b.to_vec() })
            .collect(),
        rule_inputs: inputs.iter().map(|s| s.to_string()).collect(),
        configured_rule_inputs: Vec::new(),
    })
}

/// The expected source value for a file with the given bytes and label,
/// with an empty run seed.
fn expected_source_value(label: &str, bytes: &[u8]) -> (Vec<u8>, String) {
    let per_source_seed = sha(&[label.as_bytes()]);
    let inner = sha(&[bytes, &[1u8], &per_source_seed, label.as_bytes()]);
    let outer = sha(&[&inner, b""]);
    let h = hex::encode(&outer);
    (inner, format!("{h}~{h}"))
}

#[test]
fn empty_graph_gives_empty_maps() {
    let config = base_config("/ws");
    let data = base_data(Vec::new(), SortedMap::new());
    let result = generate_hashes(&config, data).unwrap();
    assert_eq!(result.hashes.len(), 0);
    assert_eq!(result.dep_edges.len(), 0);
}

#[test]
fn single_source_hashes_file_bytes() {
    let mut snapshot: FileSnapshot = SortedMap::new();
    snapshot.insert("/ws/a/x.txt".to_string(), Some(b"hello".to_vec()));
    let config = base_config("/ws");
    let data = base_data(vec![source_node("//a:x.txt")], snapshot);
    let result = generate_hashes(&config, data).unwrap();

    let (_, expected) = expected_source_value("//a:x.txt", b"hello");
    assert_eq!(result.hashes.len(), 1);
    assert_eq!(result.hashes.get("//a:x.txt").unwrap(), &expected);
    assert_eq!(result.dep_edges.len(), 0);
}

#[test]
fn rule_mixes_source_digest_into_direct() {
    let mut snapshot: FileSnapshot = SortedMap::new();
    snapshot.insert("/ws/a/x.txt".to_string(), Some(b"hello".to_vec()));
    let config = base_config("/ws");
    let data = base_data(
        vec![
            rule_node("//a:lib", "cc_library", &[("srcs", b"[//a:x.txt]")], &["//a:x.txt"]),
            source_node("//a:x.txt"),
        ],
        snapshot,
    );
    let result = generate_hashes(&config, data).unwrap();

    let (source_digest, _) = expected_source_value("//a:x.txt", b"hello");
    let attr_sig = sha(&[b"cc_library", b"//a:lib", b"[//a:x.txt]"]);
    let direct = sha(&[&attr_sig, b"//a:x.txt".as_slice(), &source_digest]);
    let overall = sha(&[&direct]);
    let expected = format!("{}~{}", hex::encode(&overall), hex::encode(&direct));

    let value = result.hashes.get("//a:lib").unwrap();
    assert_eq!(value, &expected);
    let parsed = bazel_differrous::models::TargetHash::parse(value).unwrap();
    assert_ne!(parsed.transitive_hash, parsed.direct_hash.unwrap());
}

#[test]
fn ignored_attribute_bytes_do_not_change_hashes() {
    let build = |loc: &[u8]| {
        let mut snapshot: FileSnapshot = SortedMap::new();
        snapshot.insert("/ws/a/x.txt".to_string(), Some(b"hello".to_vec()));
        let data = base_data(
            vec![
                rule_node(
                    "//a:lib",
                    "cc_library",
                    &[("srcs", b"[//a:x.txt]"), ("generator_location", loc)],
                    &["//a:x.txt"],
                ),
                source_node("//a:x.txt"),
            ],
            snapshot,
        );
        generate_hashes(&base_config("/ws"), data).unwrap()
    };
    let r1 = build(b"here");
    let r2 = build(b"elsewhere");
    assert_eq!(r1.hashes.get("//a:lib").unwrap(), r2.hashes.get("//a:lib").unwrap());
}

#[test]
fn changed_attribute_bytes_change_the_direct_hash() {
    let build = |srcs: &[u8]| {
        let mut snapshot: FileSnapshot = SortedMap::new();
        snapshot.insert("/ws/a/x.txt".to_string(), Some(b"hello".to_vec()));
        let data = base_data(
            vec![
                rule_node("//a:lib", "cc_library", &[("srcs", srcs)], &["//a:x.txt"]),
                source_node("//a:x.txt"),
            ],
            snapshot,
        );
        generate_hashes(&base_config("/ws"), data).unwrap()
    };
    let r1 = build(b"[//a:x.txt]");
    let r2 = build(b"[//a:x.txt, //a:y.txt]");
    assert_ne!(r1.hashes.get("//a:lib").unwrap(), r2.hashes.get("//a:lib").unwrap());
}

#[test]
fn type_filter_keeps_only_requested_kinds() {
    let mut snapshot: FileSnapshot = SortedMap::new();
    snapshot.insert("/ws/a/x.txt".to_string(), Some(b"hello".to_vec()));
    let mut config = base_config("/ws");
    config.include_target_type = true;
    config.target_types = Some(vec!["SourceFile".to_string()]);
    let data = base_data(
        vec![
            rule_node("//a:lib", "cc_library", &[("srcs", b"[//a:x.txt]")], &["//a:x.txt"]),
            source_node("//a:x.txt"),
        ],
        snapshot,
    );
    let result = generate_hashes(&config, data).unwrap();
    assert_eq!(result.hashes.len(), 1);
    let value = result.hashes.get("//a:x.txt").unwrap();
    assert!(value.starts_with("SourceFile#"));
    assert!(result.hashes.get("//a:lib").is_none());
}

#[test]
fn circular_rule_inputs_fail_with_no_map() {
    let config = base_config("/ws");
    let data = base_data(
        vec![
            rule_node("//a:x", "cc_library", &[], &["//a:y"]),
            rule_node("//a:y", "cc_library", &[], &["//a:x"]),
        ],
        SortedMap::new(),
    );
    let result = generate_hashes(&config, data);
    assert!(result.is_err());
}

#[test]
fn generated_file_takes_its_rules_digest_and_edge() {
    let run = |track: bool| {
        let mut config = base_config("/ws");
        config.include_target_type = true;
        config.track_dep_edges = track;
        let data = base_data(
            vec![
                rule_node("//a:gen_rule", "genrule", &[("cmd", b"touch out")], &[]),
                BazelTarget::Generated(bazel_differrous::graph::BazelGenerated {
                    name: "//a:out.txt".to_string(),
                    generating_rule: "//a:gen_rule".to_string(),
                }),
            ],
            SortedMap::new(),
        );
        generate_hashes(&config, data).unwrap()
    };
    let untracked = run(false);
    let rule_value = untracked.hashes.get("//a:gen_rule").unwrap();
    let gen_value = untracked.hashes.get("//a:out.txt").unwrap();
    assert!(rule_value.starts_with("Rule#"));
    assert!(gen_value.starts_with("GeneratedFile#"));
    assert_eq!(
        rule_value.strip_prefix("Rule#").unwrap(),
        gen_value.strip_prefix("GeneratedFile#").unwrap()
    );
    assert_eq!(untracked.dep_edges.len(), 0);

    let with_edges = run(true);
    let edge = with_edges.dep_edges.get("//a:out.txt").unwrap();
    assert_eq!(edge, &Some(vec!["//a:gen_rule".to_string()]));
}

#[test]
fn missing_generating_rule_fails() {
    let config = base_config("/ws");
    let data = base_data(
        vec![BazelTarget::Generated(bazel_differrous::graph::BazelGenerated {
            name: "//a:out.txt".to_string(),
            generating_rule: "//a:nowhere".to_string(),
        })],
        SortedMap::new(),
    );
    assert!(generate_hashes(&config, data).is_err());
}

#[test]
fn duplicate_labels_keep_the_first_node() {
    let mut snapshot: FileSnapshot = SortedMap::new();
    snapshot.insert("/ws/a/x.txt".to_string(), Some(b"hello".to_vec()));
    let config = base_config("/ws");
    let data = base_data(
        vec![
            source_node("//a:x.txt"),
            rule_node("//a:x.txt", "cc_library", &[], &[]),
        ],
        snapshot,
    );
    let result = generate_hashes(&config, data).unwrap();
    let (_, expected) = expected_source_value("//a:x.txt", b"hello");
    assert_eq!(result.hashes.get("//a:x.txt").unwrap(), &expected);
}

#[test]
fn exclude_external_drops_at_labels() {
    let config = {
        let mut c = base_config("/ws");
        c.exclude_external_targets = true;
        c
    };
    let data = base_data(
        vec![
            rule_node("//a:lib", "cc_library", &[], &[]),
            rule_node("@repo//b:ext", "cc_library", &[], &[]),
        ],
        SortedMap::new(),
    );
    let result = generate_hashes(&config, data).unwrap();
    assert_eq!(result.hashes.len(), 1);
    assert!(result.hashes.get("//a:lib").is_some());
}

#[test]
fn seed_files_change_every_hash() {
    let run = |seed: Option<Vec<Vec<u8>>>| {
        let mut snapshot: FileSnapshot = SortedMap::new();
        snapshot.insert("/ws/a/x.txt".to_string(), Some(b"hello".to_vec()));
        let mut config = base_config("/ws");
        let mut data = base_data(vec![source_node("//a:x.txt")], snapshot);
        if seed.is_some() {
            config.seed_filepaths = Some("seeds.txt".to_string());
            data.seed_file_contents = seed;
        }
        generate_hashes(&config, data).unwrap()
    };
    let plain = run(None);
    let seeded = run(Some(vec![b"salt".to_vec()]));
    assert_ne!(
        plain.hashes.get("//a:x.txt").unwrap(),
        seeded.hashes.get("//a:x.txt").unwrap()
    );
}

#[test]
fn content_hash_overlay_replaces_file_reads() {
    let mut config = base_config("/ws");
    config.content_hash_path = Some("hashes.json".to_string());
    let mut data = base_data(vec![source_node("//a:x.txt")], SortedMap::new());
    data.content_hash_entries = Some(vec![("a/x.txt".to_string(), "cafe".to_string())]);
    let result = generate_hashes(&config, data).unwrap();

    let per_source_seed = sha(&[b"//a:x.txt"]);
    let inner = sha(&[b"cafe", &[1u8], &per_source_seed, b"//a:x.txt"]);
    let outer = sha(&[&inner, b""]);
    let h = hex::encode(&outer);
    assert_eq!(result.hashes.get("//a:x.txt").unwrap(), &format!("{h}~{h}"));
}

#[test]
fn fine_grained_gating_returns_the_empty_digest() {
    let resolver = ExternalRepoResolver {
        workspace: "/ws".to_string(),
        external_root: "/out/external".to_string(),
        repo_roots: SortedMap::new(),
    };
    let hasher = SourceFileHasher::new(resolver, None, Vec::new(), Vec::new(), SortedMap::new());
    let d = hasher.digest("@gated//pkg:file", &Vec::new());
    assert_eq!(
        hex::encode(&d),
        "e3b0c44298fc1c149afbf4c8996fb92427ae41e4649b934ca495991b7852b855"
    );
}

#[test]
fn soft_digest_skips_all_external_labels() {
    let resolver = ExternalRepoResolver {
        workspace: "/ws".to_string(),
        external_root: "/ws/out/external".to_string(),
        repo_roots: SortedMap::new(),
    };
    let hasher = SourceFileHasher::new(
        resolver,
        None,
        vec!["extrepo".to_string()],
        Vec::new(),
        SortedMap::new(),
    );
    let seed = b"seed".to_vec();
    for label in ["@extrepo//:file", "@@extrepo+//:file", "@depmod+//pkg:target"] {
        assert!(hasher.soft_digest(label, &seed).is_none());
    }
}

#[test]
fn soft_digest_hashes_main_repo_files() {
    let resolver = ExternalRepoResolver {
        workspace: "/ws".to_string(),
        external_root: "/ws/out/external".to_string(),
        repo_roots: SortedMap::new(),
    };
    let mut snapshot: FileSnapshot = SortedMap::new();
    snapshot.insert("/ws/hello.txt".to_string(), Some(b"hello bazel-differrous".to_vec()));
    let hasher = SourceFileHasher::new(resolver, None, Vec::new(), Vec::new(), snapshot);
    let digest = hasher.soft_digest("//hello.txt", &b"seed".to_vec());
    assert!(digest.is_some());
    assert!(!digest.unwrap().is_empty());
}

#[test]
fn modified_filter_skips_unlisted_file_bytes() {
    let run = |modified: Option<&str>| {
        let mut snapshot: FileSnapshot = SortedMap::new();
        snapshot.insert("/ws/a/x.txt".to_string(), Some(b"hello".to_vec()));
        let mut config = base_config("/ws");
        let mut data = base_data(vec![source_node("//a:x.txt")], snapshot);
        if let Some(m) = modified {
            config.modified_filepaths = Some("modified.txt".to_string());
            data.modified_file_text = Some(m.to_string());
        }
        generate_hashes(&config, data).unwrap()
    };
    let with_bytes = run(None);
    let listed = run(Some("a/x.txt\n"));
    let skipped = run(Some("b/other.txt\n"));
    assert_eq!(
        with_bytes.hashes.get("//a:x.txt").unwrap(),
        listed.hashes.get("//a:x.txt").unwrap()
    );
    assert_ne!(
        with_bytes.hashes.get("//a:x.txt").unwrap(),
        skipped.hashes.get("//a:x.txt").unwrap()
    );

    let per_source_seed = sha(&[b"//a:x.txt"]);
    let inner = sha(&[&[1u8], &per_source_seed, b"//a:x.txt"]);
    let outer = sha(&[&inner, b""]);
    let h = hex::encode(&outer);
    assert_eq!(skipped.hashes.get("//a:x.txt").unwrap(), &format!("{h}~{h}"));
}

#[test]
fn fine_grained_sources_use_both_config_forms() {
    let mut config = base_config("/ws");
    config.fine_grained_external_repos = vec!["@@dep".to_string()];
    config.fine_grained_external_repos_file = Some("repos.txt".to_string());
    let mut data = base_data(Vec::new(), SortedMap::new());
    data.fine_grained_file_text = Some("@@dep\n".to_string());
    assert!(generate_hashes(&config, data).is_err());
}

#[test]
fn track_dep_edges_records_rule_inputs() {
    let mut config = base_config("/ws");
    config.track_dep_edges = true;
    let data = base_data(
        vec![
            rule_node("//a:lib", "cc_library", &[], &["//a:dep"]),
            rule_node("//a:dep", "cc_library", &[], &[]),
        ],
        SortedMap::new(),
    );
    let result = generate_hashes(&config, data).unwrap();
    assert_eq!(
        result.dep_edges.get("//a:lib").unwrap(),
        &Some(vec!["//a:dep".to_string()])
    );
    assert_eq!(result.dep_edges.get("//a:dep").unwrap(), &Some(Vec::new()));
}

#[test]
fn reordering_unrelated_nodes_keeps_the_map() {
    let make = |order_flipped: bool| {
        let mut snapshot: FileSnapshot = SortedMap::new();
        snapshot.insert("/ws/a/x.txt".to_string(), Some(b"hello".to_vec()));
        snapshot.insert("/ws/b/y.txt".to_string(), Some(b"world".to_vec()));
        let mut nodes = vec![
            rule_node("//a:lib", "cc_library", &[], &["//a:x.txt"]),
            source_node("//a:x.txt"),
            source_node("//b:y.txt"),
        ];
        if order_flipped {
            nodes.reverse();
        }
        generate_hashes(&base_config("/ws"), base_data(nodes, snapshot)).unwrap()
    };
    let r1 = make(false);
    let r2 = make(true);
    assert_eq!(r1.hashes.entries, r2.hashes.entries);
}

#[test]
fn repeated_runs_are_deterministic() {
    let run = || {
        let mut snapshot: FileSnapshot = SortedMap::new();
        snapshot.insert("/ws/a/x.txt".to_string(), Some(b"hello".to_vec()));
        let data = base_data(
            vec![
                rule_node("//a:lib", "cc_library", &[("srcs", b"[//a:x.txt]")], &["//a:x.txt"]),
                source_node("//a:x.txt"),
            ],
            snapshot,
        );
        generate_hashes(&base_config("/ws"), data).unwrap()
    };
    let r1 = run();
    let r2 = run();
    assert_eq!(r1.hashes.entries, r2.hashes.entries);
    assert_eq!(r1.dep_edges.entries, r2.dep_edges.entries);
}

#[test]
fn library_reports_itself() {
    assert_eq!(bazel_differrous::version(), "0.1.0");
    assert_eq!(bazel_differrous::status(), "bazel-differrous ready");
}
