//! The per-run driver: the run configuration, the loaders that turn the
//! run's input texts into engine state, and the orchestration that loads
//! the graph and produces the fingerprint map.

use vstd::prelude::*;

use crate::digest::sha256;
use crate::digest::sha256_of;
use crate::engine::gen_refs;
use crate::engine::initial_digests;
use crate::engine::node_deps_spec;
use crate::engine::node_digest_pair;
use crate::engine::node_passes;
use crate::engine::node_value_str;
use crate::engine::EngineView;
use crate::engine::GenerateHashesResult;
use crate::engine::HashEngine;
use crate::errors::DiffError;
use crate::graph::load_spec;
use crate::graph::rules_of;
use crate::graph::sources_of;
use crate::graph::target_label;
use crate::graph::BazelGraph;
use crate::graph::BazelTarget;
use crate::impact::opt_strings_view;
use crate::labels::path_join;
use crate::labels::path_join_exec;
use crate::smap::SortedMap;
use crate::source_hash::append_bytes;
use crate::source_hash::ExternalRepoResolver;
use crate::source_hash::FileSnapshot;
use crate::source_hash::SourceFileHasher;
use crate::source_hash::SourceHasherView;
use crate::strutil::lines_spec;
use crate::strutil::push_string;
use crate::strutil::split_lines;
use crate::strutil::to_owned_str;
use crate::strutil::trim_exec;
use crate::strutil::trim_leading;
use crate::strutil::trim_leading_str;
use crate::strutil::trim_spec;

verus! {

/// The options of one `generate-hashes` run.
pub struct GenerateHashesConfig {
    pub workspace: String,
    pub include_target_type: bool,
    pub use_cquery: bool,
    pub keep_going: bool,
    pub bazel_path: String,
    pub startup_options: Vec<String>,
    pub command_options: Vec<String>,
    pub cquery_options: Vec<String>,
    pub exclude_external_targets: bool,
    pub ignored_attrs: Vec<String>,
    pub fine_grained_external_repos: Vec<String>,
    pub fine_grained_external_repos_file: Option<String>,
    pub content_hash_path: Option<String>,
    pub seed_filepaths: Option<String>,
    pub modified_filepaths: Option<String>,
    pub target_types: Option<Vec<String>>,
    pub track_dep_edges: bool,
}

impl Default for GenerateHashesConfig {
    /// The defaults of a run: everything off or empty, except
    /// `keep_going`, which is on.
    fn default() -> (r: GenerateHashesConfig)
        ensures
            r.workspace@ == Seq::<char>::empty(),
            !r.include_target_type,
            !r.use_cquery,
            r.keep_going,
            r.bazel_path@ == Seq::<char>::empty(),
            r.startup_options@.len() == 0,
            r.command_options@.len() == 0,
            r.cquery_options@.len() == 0,
            !r.exclude_external_targets,
            r.ignored_attrs@.len() == 0,
            r.fine_grained_external_repos@.len() == 0,
            r.fine_grained_external_repos_file is None,
            r.content_hash_path is None,
            r.seed_filepaths is None,
            r.modified_filepaths is None,
            r.target_types is None,
            !r.track_dep_edges,
    {
        GenerateHashesConfig {
            workspace: String::new(),
            include_target_type: false,
            use_cquery: false,
            keep_going: true,
            bazel_path: String::new(),
            startup_options: Vec::new(),
            command_options: Vec::new(),
            cquery_options: Vec::new(),
            exclude_external_targets: false,
            ignored_attrs: Vec::new(),
            fine_grained_external_repos: Vec::new(),
            fine_grained_external_repos_file: None,
            content_hash_path: None,
            seed_filepaths: None,
            modified_filepaths: None,
            target_types: None,
            track_dep_edges: false,
        }
    }
}

/// Everything a run reads from outside: the decoded graph nodes, the
/// discovered output base and external-repo roots, the configured input
/// file texts, and the file snapshot the source hasher consults.
pub struct WorkspaceData {
    pub nodes: Vec<BazelTarget>,
    pub output_base: String,
    pub repo_roots: SortedMap<String>,
    pub fine_grained_file_text: Option<String>,
    pub content_hash_entries: Option<Vec<(String, String)>>,
    pub seed_file_contents: Option<Vec<Vec<u8>>>,
    pub modified_file_text: Option<String>,
    pub snapshot: FileSnapshot,
}

/// The trimmed, non-blank entries of a line list.
pub open spec fn keep_nonblank(ls: Seq<Seq<char>>) -> Seq<Seq<char>>
    decreases ls.len(),
{
    if ls.len() == 0 {
        Seq::empty()
    } else {
        let prefix = keep_nonblank(ls.drop_last());
        if trim_spec(ls.last()).len() > 0 {
            prefix.push(trim_spec(ls.last()))
        } else {
            prefix
        }
    }
}

/// The trimmed, non-blank lines of a text.
pub open spec fn list_entries(s: Seq<char>) -> Seq<Seq<char>> {
    keep_nonblank(lines_spec(s))
}

/// Splits a text into its trimmed, non-blank lines.
pub fn parse_list_text(text: &str) -> (r: Vec<String>)
    ensures
        r.deep_view() == list_entries(text@),
{
    let lines = split_lines(text);
    let ghost ldv = lines.deep_view();
    let mut out: Vec<String> = Vec::new();
    let n = lines.len();
    let mut i: usize = 0;
    proof {
        assert(keep_nonblank(ldv.take(0)) =~= Seq::<Seq<char>>::empty());
        assert(out.deep_view() =~= keep_nonblank(ldv.take(0)));
    }
    while i < n
        invariant
            i <= n,
            n == ldv.len(),
            ldv == lines.deep_view(),
            out.deep_view() == keep_nonblank(ldv.take(i as int)),
        decreases n - i,
    {
        proof {
            assert(ldv.take(i + 1).drop_last() =~= ldv.take(i as int));
            assert(ldv.take(i + 1).last() == ldv[i as int]);
            assert(ldv[i as int] == lines@[i as int]@);
        }
        let trimmed = trim_exec(lines[i].as_str());
        if trimmed.as_str().unicode_len() > 0 {
            push_string(&mut out, trimmed);
            proof {
                assert(out.deep_view() =~= keep_nonblank(ldv.take(i + 1)));
            }
        } else {
            proof {
                assert(out.deep_view() =~= keep_nonblank(ldv.take(i + 1)));
            }
        }
        i = i + 1;
    }
    proof {
        assert(ldv.take(n as int) =~= ldv);
    }
    out
}

/// The fine-grained repository list of a run: the explicit list, or the
/// file's entries; both at once is a configuration error.
pub fn load_fine_grained_repos(cli_values: &Vec<String>, file_text: &Option<String>) -> (r:
    Result<Vec<String>, DiffError>)
    ensures
        match r {
            Ok(v) => match file_text {
                Some(t) => cli_values@.len() == 0 && v.deep_view() == list_entries(t@),
                None => v.deep_view() == cli_values.deep_view(),
            },
            Err(e) => e is ConfigInvalid && file_text is Some && cli_values@.len() > 0,
        },
{
    match file_text {
        Some(t) => {
            if cli_values.len() > 0 {
                Err(
                    DiffError::ConfigInvalid(
                        to_owned_str(
                            "fineGrainedHashExternalReposFile and fineGrainedHashExternalRepos are mutually exclusive",
                        ),
                    ),
                )
            } else {
                Ok(parse_list_text(t.as_str()))
            }
        },
        None => Ok(crate::graph::copy_strings(cli_values)),
    }
}

/// The concatenation of a byte-sequence list.
pub open spec fn concat_bytes(bs: Seq<Seq<u8>>) -> Seq<u8>
    decreases bs.len(),
{
    if bs.len() == 0 {
        Seq::empty()
    } else {
        concat_bytes(bs.drop_last()) + bs.last()
    }
}

/// The run's seed hash: the digest of the listed files' bytes in order,
/// or empty when no seed files were configured.
pub fn compute_seed_hash(seed_file_contents: &Option<Vec<Vec<u8>>>) -> (r: Vec<u8>)
    ensures
        match seed_file_contents {
            Some(files) => r@ == sha256_of(concat_bytes(files.deep_view())),
            None => r@ == Seq::<u8>::empty(),
        },
{
    match seed_file_contents {
        Some(files) => {
            let ghost fdv = files.deep_view();
            let mut input: Vec<u8> = Vec::new();
            let n = files.len();
            let mut i: usize = 0;
            proof {
                assert(input@ =~= concat_bytes(fdv.take(0)));
            }
            while i < n
                invariant
                    i <= n,
                    n == fdv.len(),
                    fdv == files.deep_view(),
                    input@ == concat_bytes(fdv.take(i as int)),
                decreases n - i,
            {
                proof {
                    assert(fdv.take(i + 1).drop_last() =~= fdv.take(i as int));
                    assert(fdv.take(i + 1).last() == fdv[i as int]);
                    assert(fdv[i as int] == files@[i as int].deep_view());
                    assert(files@[i as int].deep_view() =~= files@[i as int]@);
                }
                append_bytes(&mut input, &files[i]);
                proof {
                    assert(input@ =~= concat_bytes(fdv.take(i + 1)));
                }
                i = i + 1;
            }
            proof {
                assert(fdv.take(n as int) =~= fdv);
            }
            sha256(&input)
        },
        None => Vec::new(),
    }
}

/// The map denoted by a key-value pair list, later pairs winning.
pub open spec fn pairs_map(ps: Seq<(Seq<char>, Seq<char>)>) -> Map<Seq<char>, Seq<char>>
    decreases ps.len(),
{
    if ps.len() == 0 {
        Map::empty()
    } else {
        pairs_map(ps.drop_last()).insert(ps.last().0, ps.last().1)
    }
}

/// Builds the content-hash overlay from decoded key-value pairs.
pub fn build_content_hash_map(entries: &Option<Vec<(String, String)>>) -> (r: Option<
    SortedMap<String>,
>)
    ensures
        match entries {
            Some(es) => r matches Some(m) && m.wf() && m@ == pairs_map(es.deep_view()),
            None => r is None,
        },
{
    match entries {
        Some(es) => {
            let ghost edv = es.deep_view();
            let mut m: SortedMap<String> = SortedMap::new();
            let n = es.len();
            let mut i: usize = 0;
            proof {
                assert(m@ =~= pairs_map(edv.take(0)));
            }
            while i < n
                invariant
                    i <= n,
                    n == edv.len(),
                    edv == es.deep_view(),
                    m.wf(),
                    m@ == pairs_map(edv.take(i as int)),
                decreases n - i,
            {
                proof {
                    assert(edv.take(i + 1).drop_last() =~= edv.take(i as int));
                    assert(edv.take(i + 1).last() == edv[i as int]);
                    assert(edv[i as int] == es@[i as int].deep_view());
                }
                m.insert(es[i].0.clone(), es[i].1.clone());
                i = i + 1;
            }
            proof {
                assert(edv.take(n as int) =~= edv);
            }
            Some(m)
        },
        None => None,
    }
}

/// The built-in always-ignored attribute name.
pub open spec fn generator_location_chars() -> Seq<char> {
    seq!['g', 'e', 'n', 'e', 'r', 'a', 't', 'o', 'r', '_', 'l', 'o', 'c', 'a', 't', 'i', 'o', 'n']
}

/// The caller's ignored attributes together with the built-in one.
pub fn ignored_attrs_with_default(ignored: &Vec<String>) -> (r: Vec<String>)
    ensures
        r.deep_view() == ignored.deep_view().push(generator_location_chars()),
{
    let mut out = crate::graph::copy_strings(ignored);
    push_string(&mut out, to_owned_str("generator_location"));
    proof {
        reveal_strlit("generator_location");
        assert("generator_location"@ =~= generator_location_chars());
    }
    out
}

/// Each repository name normalized.
pub fn trim_repo_names(repos: &Vec<String>) -> (r: Vec<String>)
    ensures
        r.deep_view().len() == repos.deep_view().len(),
        forall|i: int|
            0 <= i < r.deep_view().len() ==> r.deep_view()[i] == trim_leading(
                #[trigger] repos.deep_view()[i],
                '@',
            ),
{
    let mut out: Vec<String> = Vec::new();
    let n = repos.len();
    let mut i: usize = 0;
    while i < n
        invariant
            i <= n,
            n == repos@.len(),
            out.deep_view().len() == i,
            forall|j: int|
                0 <= j < i ==> out.deep_view()[j] == trim_leading(
                    #[trigger] repos.deep_view()[j],
                    '@',
                ),
        decreases n - i,
    {
        proof {
            assert(repos.deep_view()[i as int] == repos@[i as int]@);
        }
        push_string(&mut out, to_owned_str(trim_leading_str(repos[i].as_str(), '@')));
        i = i + 1;
    }
    out
}

/// The fine-grained repository names of a run, as views: from the file
/// when configured, else the explicit list.
pub open spec fn fine_raw_of(config: &GenerateHashesConfig, data: &WorkspaceData) -> Seq<
    Seq<char>,
> {
    match data.fine_grained_file_text {
        Some(t) => list_entries(t@),
        None => config.fine_grained_external_repos.deep_view(),
    }
}

/// The normalized fine-grained repository names of a run.
pub open spec fn fine_trimmed_of(config: &GenerateHashesConfig, data: &WorkspaceData) -> Seq<
    Seq<char>,
> {
    Seq::new(
        fine_raw_of(config, data).len(),
        |i: int| trim_leading(fine_raw_of(config, data)[i], '@'),
    )
}

/// The source-hasher state of a run.
pub open spec fn hasher_of(config: &GenerateHashesConfig, data: &WorkspaceData)
    -> SourceHasherView {
    SourceHasherView {
        workspace: config.workspace@,
        external_root: path_join(
            data.output_base@,
            seq!['e', 'x', 't', 'e', 'r', 'n', 'a', 'l'],
        ),
        repo_roots: data.repo_roots@,
        content_hashes: match data.content_hash_entries {
            Some(es) => Some(pairs_map(es.deep_view())),
            None => None,
        },
        fine_grained: fine_trimmed_of(config, data),
        modified: match data.modified_file_text {
            Some(t) => list_entries(t@),
            None => Seq::empty(),
        },
        snapshot: data.snapshot@,
    }
}

/// The run's seed hash, as a view.
pub open spec fn seed_hash_of(data: &WorkspaceData) -> Seq<u8> {
    match data.seed_file_contents {
        Some(files) => sha256_of(concat_bytes(files.deep_view())),
        None => Seq::empty(),
    }
}

/// The kept nodes of a run.
pub open spec fn kept_nodes_of(config: &GenerateHashesConfig, data: &WorkspaceData) -> Seq<
    crate::graph::TargetView,
> {
    load_spec(data.nodes.deep_view(), config.exclude_external_targets)
}

/// The engine view of a run.
pub open spec fn ev_of(config: &GenerateHashesConfig, data: &WorkspaceData) -> EngineView {
    EngineView {
        rules: rules_of(kept_nodes_of(config, data)),
        source_digests: initial_digests(
            hasher_of(config, data),
            sources_of(kept_nodes_of(config, data)),
        ),
        hasher: hasher_of(config, data),
        seed_hash: seed_hash_of(data),
        ignored: config.ignored_attrs.deep_view().push(generator_location_chars()),
        fine_grained: fine_trimmed_of(config, data),
        use_cquery: config.use_cquery,
    }
}

/// What a successful run's result promises, relative to the run's view.
pub open spec fn run_result_ok(ev: EngineView, tdv: Seq<crate::graph::TargetView>, tf: Option<
    Seq<Seq<char>>,
>, include_kind: bool, track: bool, res: &GenerateHashesResult) -> bool {
    &&& res.hashes.wf()
    &&& res.dep_edges.wf()
    &&& forall|j: int| 0 <= j < tdv.len() ==> node_digest_pair(ev, #[trigger] tdv[j]) is Some
    &&& forall|l: Seq<char>| #[trigger]
        res.hashes@.contains_key(l) <==> (exists|j: int|
            0 <= j < tdv.len() && target_label(#[trigger] tdv[j]) == l && node_passes(tdv[j], tf))
    &&& forall|j: int|
        0 <= j < tdv.len() && node_passes(#[trigger] tdv[j], tf)
            ==> res.hashes@[target_label(tdv[j])] == node_value_str(ev, tdv[j], include_kind)
    &&& forall|l: Seq<char>| #[trigger]
        res.dep_edges@.contains_key(l) <==> (exists|j: int|
            0 <= j < tdv.len() && target_label(#[trigger] tdv[j]) == l && node_passes(tdv[j], tf)
                && node_deps_spec(ev, tdv[j], track) is Some)
    &&& forall|j: int|
        0 <= j < tdv.len() && node_passes(#[trigger] tdv[j], tf) && node_deps_spec(
            ev,
            tdv[j],
            track,
        ) is Some ==> res.dep_edges@[target_label(tdv[j])] == Some(
            node_deps_spec(ev, tdv[j], track)->0,
        )
}

/// One whole hashing run over already-fetched workspace data. The output
/// is a function of the configuration and the data alone, so two runs over
/// equal inputs give equal results.
pub fn generate_hashes(config: &GenerateHashesConfig, data: WorkspaceData) -> (r: Result<
    GenerateHashesResult,
    DiffError,
>)
    requires
        data.repo_roots.wf(),
        data.snapshot.wf(),
        config.fine_grained_external_repos_file is Some <==> data.fine_grained_file_text is Some,
        config.content_hash_path is Some <==> data.content_hash_entries is Some,
        config.seed_filepaths is Some <==> data.seed_file_contents is Some,
        config.modified_filepaths is Some <==> data.modified_file_text is Some,
    ensures
        match r {
            Ok(res) => {
                &&& !(config.fine_grained_external_repos_file is Some
                    && config.fine_grained_external_repos@.len() > 0)
                &&& run_result_ok(
                    ev_of(config, &data),
                    kept_nodes_of(config, &data),
                    opt_strings_view(&config.target_types),
                    config.include_target_type,
                    config.track_dep_edges,
                    &res,
                )
            },
            Err(e) => {
                &&& (e is ConfigInvalid ==> config.fine_grained_external_repos_file is Some
                    && config.fine_grained_external_repos@.len() > 0)
                &&& (e is ConfigInvalid || e is CircularDependency
                    || e is MissingGeneratingRule)
                &&& (e matches DiffError::MissingGeneratingRule(lab)
                    ==> !ev_of(config, &data).rules.contains_key(lab@) && exists|j: int|
                        0 <= j < kept_nodes_of(config, &data).len() && gen_refs(
                            #[trigger] kept_nodes_of(config, &data)[j],
                            lab@,
                        ))
                &&& ((e is CircularDependency || e is MissingGeneratingRule) ==> exists|j: int|
                    0 <= j < kept_nodes_of(config, &data).len() && node_digest_pair(
                        ev_of(config, &data),
                        #[trigger] kept_nodes_of(config, &data)[j],
                    ) is None)
                &&& (e is CircularDependency ==> exists|l: Seq<char>|
                    ev_of(config, &data).rules.contains_key(l) && (#[trigger] crate::engine::full_digest(
                        ev_of(config, &data),
                        l,
                    )) is None)
            },
        },
{
    let ghost gev = ev_of(config, &data);
    let fine_raw = match load_fine_grained_repos(
        &config.fine_grained_external_repos,
        &data.fine_grained_file_text,
    ) {
        Ok(v) => v,
        Err(e) => {
            return Err(e);
        },
    };
    let fine_trimmed = trim_repo_names(&fine_raw);
    proof {
        assert(fine_trimmed.deep_view() =~= fine_trimmed_of(config, &data));
    }
    let content_hashes = build_content_hash_map(&data.content_hash_entries);
    let seed_hash = compute_seed_hash(&data.seed_file_contents);
    let modified = match &data.modified_file_text {
        Some(t) => parse_list_text(t.as_str()),
        None => Vec::new(),
    };
    let ignored = ignored_attrs_with_default(&config.ignored_attrs);
    let external_root = path_join_exec(data.output_base.as_str(), "external");
    proof {
        reveal_strlit("external");
        assert("external"@ =~= seq!['e', 'x', 't', 'e', 'r', 'n', 'a', 'l']);
    }
    let resolver = ExternalRepoResolver {
        workspace: config.workspace.clone(),
        external_root,
        repo_roots: data.repo_roots,
    };
    let source_hasher = SourceFileHasher::new(
        resolver,
        content_hashes,
        crate::graph::copy_strings(&fine_trimmed),
        modified,
        data.snapshot,
    );
    proof {
        assert(source_hasher.view_spec() =~= hasher_of(config, &data)) by {
            assert(source_hasher.view_spec().modified =~= hasher_of(config, &data).modified);
            assert(source_hasher.view_spec().fine_grained =~= hasher_of(
                config,
                &data,
            ).fine_grained);
        }
    }
    let graph = BazelGraph::load(data.nodes, config.exclude_external_targets, config.use_cquery);
    let engine = HashEngine::new(
        config.include_target_type,
        match &config.target_types {
            Some(tt) => Some(crate::graph::copy_strings(tt)),
            None => None,
        },
        ignored,
        fine_trimmed,
        seed_hash,
        config.track_dep_edges,
        source_hasher,
    );
    proof {
        assert(engine.ev(&graph) =~= gev) by {
            assert(engine.ev(&graph).ignored =~= gev.ignored);
            assert(engine.ev(&graph).fine_grained =~= gev.fine_grained);
        }
        assert(opt_strings_view(&engine.target_types) =~= opt_strings_view(
            &config.target_types,
        )) by {
            match engine.target_types {
                Some(tt) => {
                    assert(config.target_types is Some);
                },
                None => {},
            }
        }
    }
    let res = match engine.compute(&graph) {
        Ok(v) => v,
        Err(e) => {
            proof {
                let j = choose|j: int|
                    0 <= j < graph.targets.deep_view().len() && node_digest_pair(
                        engine.ev(&graph),
                        #[trigger] graph.targets.deep_view()[j],
                    ) is None;
                assert(node_digest_pair(
                    ev_of(config, &data),
                    #[trigger] kept_nodes_of(config, &data)[j],
                ) is None);
                if e is CircularDependency {
                    let l = choose|l: Seq<char>|
                        engine.ev(&graph).rules.contains_key(l)
                            && (#[trigger] crate::engine::full_digest(engine.ev(&graph), l))
                            is None;
                    assert((#[trigger] crate::engine::full_digest(ev_of(config, &data), l))
                        is None);
                }
            }
            return Err(e);
        },
    };
    Ok(res)
}


/// Determinism: any two results that a run's contract admits carry the
/// same maps, so equal configurations and workspace data give equal
/// output.
pub proof fn lemma_generate_hashes_deterministic(ev: EngineView, tdv: Seq<
    crate::graph::TargetView,
>, tf: Option<Seq<Seq<char>>>, include_kind: bool, track: bool, r1: &GenerateHashesResult,
    r2: &GenerateHashesResult)
    requires
        run_result_ok(ev, tdv, tf, include_kind, track, r1),
        run_result_ok(ev, tdv, tf, include_kind, track, r2),
    ensures
        r1.hashes@ == r2.hashes@,
        r1.dep_edges@ == r2.dep_edges@,
{
    assert forall|l: Seq<char>| #[trigger]
        r1.hashes@.contains_key(l) implies r2.hashes@.contains_key(l) && r1.hashes@[l]
        == r2.hashes@[l] by {
        let j = choose|j: int|
            0 <= j < tdv.len() && target_label(#[trigger] tdv[j]) == l && node_passes(tdv[j], tf);
        assert(r1.hashes@[l] == node_value_str(ev, tdv[j], include_kind));
        assert(r2.hashes@[l] == node_value_str(ev, tdv[j], include_kind));
    }
    assert forall|l: Seq<char>| #[trigger]
        r2.hashes@.contains_key(l) implies r1.hashes@.contains_key(l) by {}
    assert(r1.hashes@ =~= r2.hashes@);
    assert forall|l: Seq<char>| #[trigger]
        r1.dep_edges@.contains_key(l) implies r2.dep_edges@.contains_key(l) && r1.dep_edges@[l]
        == r2.dep_edges@[l] by {
        let j = choose|j: int|
            0 <= j < tdv.len() && target_label(#[trigger] tdv[j]) == l && node_passes(tdv[j], tf)
                && node_deps_spec(ev, tdv[j], track) is Some;
        assert(r1.dep_edges@[l] == Some(node_deps_spec(ev, tdv[j], track)->0));
        assert(r2.dep_edges@[l] == Some(node_deps_spec(ev, tdv[j], track)->0));
    }
    assert forall|l: Seq<char>| #[trigger]
        r2.dep_edges@.contains_key(l) implies r1.dep_edges@.contains_key(l) by {}
    assert(r1.dep_edges@ =~= r2.dep_edges@);
}


/// Order independence: a run's contract carries over to any reordering of
/// the kept nodes, so (with the determinism law) reordering nodes whose
/// labels stay unique leaves the resulting maps equal.
pub proof fn lemma_order_independence(ev: EngineView, tdv1: Seq<crate::graph::TargetView>,
    tdv2: Seq<crate::graph::TargetView>, tf: Option<Seq<Seq<char>>>, include_kind: bool,
    track: bool, res: &GenerateHashesResult)
    requires
        forall|j: int| 0 <= j < tdv1.len() ==> tdv2.contains(#[trigger] tdv1[j]),
        forall|j: int| 0 <= j < tdv2.len() ==> tdv1.contains(#[trigger] tdv2[j]),
        run_result_ok(ev, tdv1, tf, include_kind, track, res),
    ensures
        run_result_ok(ev, tdv2, tf, include_kind, track, res),
{
    assert forall|j: int|
        0 <= j < tdv2.len() implies node_digest_pair(ev, #[trigger] tdv2[j]) is Some by {
        let j1 = choose|j1: int| 0 <= j1 < tdv1.len() && tdv1[j1] == tdv2[j];
    }
    assert forall|l: Seq<char>| #[trigger]
        res.hashes@.contains_key(l) <==> (exists|j: int|
            0 <= j < tdv2.len() && target_label(#[trigger] tdv2[j]) == l && node_passes(
                tdv2[j],
                tf,
            )) by {
        if res.hashes@.contains_key(l) {
            let j = choose|j: int|
                0 <= j < tdv1.len() && target_label(#[trigger] tdv1[j]) == l && node_passes(
                    tdv1[j],
                    tf,
                );
            assert(tdv2.contains(tdv1[j]));
            let j2 = choose|j2: int| 0 <= j2 < tdv2.len() && tdv2[j2] == tdv1[j];
            assert(target_label(tdv2[j2]) == l && node_passes(tdv2[j2], tf));
        }
        if exists|j: int|
            0 <= j < tdv2.len() && target_label(#[trigger] tdv2[j]) == l && node_passes(
                tdv2[j],
                tf,
            ) {
            let j = choose|j: int|
                0 <= j < tdv2.len() && target_label(#[trigger] tdv2[j]) == l && node_passes(
                    tdv2[j],
                    tf,
                );
            assert(tdv1.contains(tdv2[j]));
            let j1 = choose|j1: int| 0 <= j1 < tdv1.len() && tdv1[j1] == tdv2[j];
            assert(target_label(tdv1[j1]) == l && node_passes(tdv1[j1], tf));
        }
    }
    assert forall|j: int|
        0 <= j < tdv2.len() && node_passes(#[trigger] tdv2[j], tf)
            implies res.hashes@[target_label(tdv2[j])] == node_value_str(
        ev,
        tdv2[j],
        include_kind,
    ) by {
        let j1 = choose|j1: int| 0 <= j1 < tdv1.len() && tdv1[j1] == tdv2[j];
        assert(res.hashes@[target_label(tdv1[j1])] == node_value_str(
            ev,
            tdv1[j1],
            include_kind,
        ));
    }
    assert forall|l: Seq<char>| #[trigger]
        res.dep_edges@.contains_key(l) <==> (exists|j: int|
            0 <= j < tdv2.len() && target_label(#[trigger] tdv2[j]) == l && node_passes(
                tdv2[j],
                tf,
            ) && node_deps_spec(ev, tdv2[j], track) is Some) by {
        if res.dep_edges@.contains_key(l) {
            let j = choose|j: int|
                0 <= j < tdv1.len() && target_label(#[trigger] tdv1[j]) == l && node_passes(
                    tdv1[j],
                    tf,
                ) && node_deps_spec(ev, tdv1[j], track) is Some;
            assert(tdv2.contains(tdv1[j]));
            let j2 = choose|j2: int| 0 <= j2 < tdv2.len() && tdv2[j2] == tdv1[j];
            assert(target_label(tdv2[j2]) == l && node_passes(tdv2[j2], tf) && node_deps_spec(
                ev,
                tdv2[j2],
                track,
            ) is Some);
        }
        if exists|j: int|
            0 <= j < tdv2.len() && target_label(#[trigger] tdv2[j]) == l && node_passes(
                tdv2[j],
                tf,
            ) && node_deps_spec(ev, tdv2[j], track) is Some {
            let j = choose|j: int|
                0 <= j < tdv2.len() && target_label(#[trigger] tdv2[j]) == l && node_passes(
                    tdv2[j],
                    tf,
                ) && node_deps_spec(ev, tdv2[j], track) is Some;
            assert(tdv1.contains(tdv2[j]));
            let j1 = choose|j1: int| 0 <= j1 < tdv1.len() && tdv1[j1] == tdv2[j];
            assert(target_label(tdv1[j1]) == l && node_passes(tdv1[j1], tf) && node_deps_spec(
                ev,
                tdv1[j1],
                track,
            ) is Some);
        }
    }
    assert forall|j: int|
        0 <= j < tdv2.len() && node_passes(#[trigger] tdv2[j], tf) && node_deps_spec(
            ev,
            tdv2[j],
            track,
        ) is Some implies res.dep_edges@[target_label(tdv2[j])] == Some(
        node_deps_spec(ev, tdv2[j], track)->0,
    ) by {
        let j1 = choose|j1: int| 0 <= j1 < tdv1.len() && tdv1[j1] == tdv2[j];
        assert(res.dep_edges@[target_label(tdv1[j1])] == Some(
            node_deps_spec(ev, tdv1[j1], track)->0,
        ));
    }
}


/// Reordering the raw snapshot nodes, with labels unique, leaves a run's
/// output maps equal: the two loaded graphs hold the same nodes, so their
/// views coincide and the same contract pins both results.
pub proof fn lemma_reordered_nodes_same_result(h: SourceHasherView, seed: Seq<u8>, ignored: Seq<
    Seq<char>,
>, fine: Seq<Seq<char>>, use_cquery: bool, exclude_external: bool, n1: Seq<
    crate::graph::TargetView,
>, n2: Seq<crate::graph::TargetView>, tf: Option<Seq<Seq<char>>>, include_kind: bool,
    track: bool, r1: &GenerateHashesResult, r2: &GenerateHashesResult)
    requires
        forall|p: int, q: int|
            0 <= p < q < n1.len() ==> crate::graph::target_label(#[trigger] n1[p])
                != crate::graph::target_label(#[trigger] n1[q]),
        forall|j: int| 0 <= j < n1.len() ==> n2.contains(#[trigger] n1[j]),
        forall|j: int| 0 <= j < n2.len() ==> n1.contains(#[trigger] n2[j]),
        forall|p: int, q: int|
            0 <= p < q < n2.len() ==> crate::graph::target_label(#[trigger] n2[p])
                != crate::graph::target_label(#[trigger] n2[q]),
        run_result_ok(
            view_of_kept(h, seed, ignored, fine, use_cquery, load_spec(n1, exclude_external)),
            load_spec(n1, exclude_external),
            tf,
            include_kind,
            track,
            r1,
        ),
        run_result_ok(
            view_of_kept(h, seed, ignored, fine, use_cquery, load_spec(n2, exclude_external)),
            load_spec(n2, exclude_external),
            tf,
            include_kind,
            track,
            r2,
        ),
    ensures
        r1.hashes@ == r2.hashes@,
        r1.dep_edges@ == r2.dep_edges@,
{
    let k1 = load_spec(n1, exclude_external);
    let k2 = load_spec(n2, exclude_external);
    crate::graph::lemma_load_spec_unique(n1, exclude_external);
    crate::graph::lemma_load_spec_unique(n2, exclude_external);
    assert forall|j: int| 0 <= j < k1.len() implies k2.contains(#[trigger] k1[j]) by {
        crate::graph::lemma_load_spec_members(n1, exclude_external, j);
        crate::graph::lemma_load_spec_not_excluded(n1, exclude_external, j);
        let i1 = choose|i1: int| 0 <= i1 < n1.len() && #[trigger] n1[i1] == k1[j];
        assert(n2.contains(n1[i1]));
        let i2 = choose|i2: int| 0 <= i2 < n2.len() && n2[i2] == n1[i1];
        crate::graph::lemma_load_spec_complete(n2, exclude_external, i2);
    }
    assert forall|j: int| 0 <= j < k2.len() implies k1.contains(#[trigger] k2[j]) by {
        crate::graph::lemma_load_spec_members(n2, exclude_external, j);
        crate::graph::lemma_load_spec_not_excluded(n2, exclude_external, j);
        let i2 = choose|i2: int| 0 <= i2 < n2.len() && #[trigger] n2[i2] == k2[j];
        assert(n1.contains(n2[i2]));
        let i1 = choose|i1: int| 0 <= i1 < n1.len() && n1[i1] == n2[i2];
        crate::graph::lemma_load_spec_complete(n1, exclude_external, i1);
    }
    crate::engine::lemma_same_members_same_views(h, k1, k2);
    let ev1 = view_of_kept(h, seed, ignored, fine, use_cquery, k1);
    let ev2 = view_of_kept(h, seed, ignored, fine, use_cquery, k2);
    assert(ev1 == ev2);
    lemma_order_independence(ev1, k1, k2, tf, include_kind, track, r1);
    lemma_generate_hashes_deterministic(ev2, k2, tf, include_kind, track, r1, r2);
}

/// The engine view over a kept-node list.
pub open spec fn view_of_kept(h: SourceHasherView, seed: Seq<u8>, ignored: Seq<Seq<char>>,
    fine: Seq<Seq<char>>, use_cquery: bool, kept: Seq<crate::graph::TargetView>) -> EngineView {
    EngineView {
        rules: rules_of(kept),
        source_digests: initial_digests(h, sources_of(kept)),
        hasher: h,
        seed_hash: seed,
        ignored,
        fine_grained: fine,
        use_cquery,
    }
}

} // verus!
