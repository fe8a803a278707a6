//! The source-file hasher: digests a label's file bytes (or an override
//! content hash) mixed with a seed, honoring the modified-files filter and
//! the fine-grained external-repo gating. All filesystem facts come in as
//! a snapshot, so the digest is a function of its inputs.

use vstd::prelude::*;

use crate::digest::sha256;
use crate::digest::sha256_of;
use crate::labels::ext_split;
use crate::labels::path_join;
use crate::labels::path_join_exec;
use crate::labels::resolve_main_repo;
use crate::labels::resolve_main_repo_spec;
use crate::labels::split_external_label;
use crate::labels::ResolvedPath;
use crate::smap::SortedMap;
use crate::strutil::bytes_of;
use crate::strutil::contains_string;
use crate::strutil::ends_with_char;
use crate::strutil::push_string;
use crate::strutil::starts_with_str;
use crate::strutil::str_bytes;
use crate::strutil::str_eq;
use crate::strutil::to_owned_str;
use crate::strutil::trim_leading;
use crate::strutil::trim_leading_str;

verus! {

/// What the filesystem holds at an absolute path: `Some` bytes for a
/// regular file, `None` for a path that exists but is not a regular file.
/// A path absent from the snapshot does not exist.
pub type FileSnapshot = SortedMap<Option<Vec<u8>>>;

/// Maps an external repository name to its on-disk root under the build
/// tool's external directory; unknown repositories fall back to a child of
/// that directory. Discovery of the roots is the caller's business.
pub struct ExternalRepoResolver {
    pub workspace: String,
    pub external_root: String,
    pub repo_roots: SortedMap<String>,
}

/// The root directory resolved for a repository.
pub open spec fn resolve_repo_spec(roots: Map<Seq<char>, Seq<char>>, external_root: Seq<char>,
    repo: Seq<char>) -> Seq<char> {
    if roots.contains_key(repo) {
        roots[repo]
    } else {
        path_join(external_root, repo)
    }
}

impl ExternalRepoResolver {
    pub open spec fn wf(&self) -> bool {
        self.repo_roots.wf()
    }

    /// Resolves a repository name to a directory.
    pub fn resolve(&self, repo: &str) -> (r: String)
        requires
            self.wf(),
        ensures
            r@ == resolve_repo_spec(self.repo_roots@, self.external_root@, repo@),
    {
        match self.repo_roots.get(repo) {
            Some(dir) => dir.clone(),
            None => path_join_exec(self.external_root.as_str(), repo),
        }
    }
}

/// The hasher's state as a view.
pub struct SourceHasherView {
    pub workspace: Seq<char>,
    pub external_root: Seq<char>,
    pub repo_roots: Map<Seq<char>, Seq<char>>,
    pub content_hashes: Option<Map<Seq<char>, Seq<char>>>,
    pub fine_grained: Seq<Seq<char>>,
    pub modified: Seq<Seq<char>>,
    pub snapshot: Map<Seq<char>, Option<Seq<u8>>>,
}

/// Resolving a label to its absolute and workspace-relative paths:
/// main-repo labels resolve against the workspace; external labels resolve
/// only for fine-grained repositories, through the resolver.
pub open spec fn resolve_label_spec(h: SourceHasherView, label: Seq<char>) -> Option<
    (Seq<char>, Seq<char>),
> {
    match resolve_main_repo_spec(label, h.workspace) {
        Some(p) => Some(p),
        None => match ext_split(label) {
            Some((repo, rel)) => {
                let norm = trim_leading(repo, '@');
                if h.fine_grained.contains(norm) {
                    let root = resolve_repo_spec(h.repo_roots, h.external_root, norm);
                    Some(
                        (
                            path_join(root, rel),
                            seq!['e', 'x', 't', 'e', 'r', 'n', 'a', 'l', '/'] + norm + seq!['/']
                                + rel,
                        ),
                    )
                } else {
                    None
                }
            },
            None => None,
        },
    }
}

/// Whether the modified-files filter admits reading an absolute path.
pub open spec fn modified_admits(h: SourceHasherView, abs: Seq<char>) -> bool {
    h.modified.len() == 0 || exists|i: int|
        0 <= i < h.modified.len() && path_join(h.workspace, #[trigger] h.modified[i]) == abs
}

/// Whether the label is an external label of a canonical (`+`-suffixed)
/// repository, which short-circuits to the empty digest.
pub open spec fn canonical_external(label: Seq<char>) -> bool {
    ext_split(label) matches Some((repo, _)) && {
        let n = trim_leading(repo, '@');
        n.len() > 0 && n.last() == '+'
    }
}

/// The bytes fed into a source digest, per the algorithm: content-hash
/// override, else file bytes (gated by the modified filter) with a
/// presence byte, else an absence byte; then the seed and the label.
pub open spec fn source_digest_input(h: SourceHasherView, label: Seq<char>, seed: Seq<u8>) -> Seq<
    u8,
> {
    if canonical_external(label) {
        Seq::empty()
    } else {
        match resolve_label_spec(h, label) {
            None => Seq::empty(),
            Some((abs, rel)) => {
                if h.content_hashes matches Some(m) && m.contains_key(rel) {
                    str_bytes(h.content_hashes->0[rel]) + seq![1u8] + seed + str_bytes(label)
                } else if h.snapshot.contains_key(abs) {
                    match h.snapshot[abs] {
                        Some(data) => (if modified_admits(h, abs) {
                            data
                        } else {
                            Seq::empty()
                        }) + seq![1u8] + seed + str_bytes(label),
                        None => seed + str_bytes(label),
                    }
                } else {
                    seq![0u8] + seed + str_bytes(label)
                }
            },
        }
    }
}

/// The soft digest: nothing for external labels or labels whose path is
/// not a regular file on disk; else the ordinary digest.
pub open spec fn soft_digest_spec(h: SourceHasherView, label: Seq<char>, seed: Seq<u8>) -> Option<
    Seq<u8>,
> {
    if label.len() > 0 && label[0] == '@' {
        None
    } else {
        match resolve_label_spec(h, label) {
            None => None,
            Some((abs, rel)) => {
                if h.snapshot.contains_key(abs) && h.snapshot[abs] is Some {
                    Some(sha256_of(source_digest_input(h, label, seed)))
                } else {
                    None
                }
            },
        }
    }
}

/// The source-file hasher.
pub struct SourceFileHasher {
    pub resolver: ExternalRepoResolver,
    pub content_hashes: Option<SortedMap<String>>,
    pub fine_grained_external_repos: Vec<String>,
    pub modified_filepaths: Vec<String>,
    pub snapshot: FileSnapshot,
}

impl SourceFileHasher {
    pub open spec fn wf(&self) -> bool {
        &&& self.resolver.wf()
        &&& (self.content_hashes matches Some(m) ==> m.wf())
        &&& self.snapshot.wf()
    }

    pub open spec fn view_spec(&self) -> SourceHasherView {
        SourceHasherView {
            workspace: self.resolver.workspace@,
            external_root: self.resolver.external_root@,
            repo_roots: self.resolver.repo_roots@,
            content_hashes: match self.content_hashes {
                Some(m) => Some(m@),
                None => None,
            },
            fine_grained: self.fine_grained_external_repos.deep_view(),
            modified: self.modified_filepaths.deep_view(),
            snapshot: self.snapshot@,
        }
    }

    /// Assembles a hasher.
    pub fn new(resolver: ExternalRepoResolver, content_hashes: Option<SortedMap<String>>,
        fine_grained_external_repos: Vec<String>, modified_filepaths: Vec<String>,
        snapshot: FileSnapshot) -> (r: SourceFileHasher)
        requires
            resolver.wf(),
            content_hashes matches Some(m) ==> m.wf(),
            snapshot.wf(),
        ensures
            r.wf(),
            r.resolver == resolver,
            r.content_hashes == content_hashes,
            r.fine_grained_external_repos == fine_grained_external_repos,
            r.modified_filepaths == modified_filepaths,
            r.snapshot == snapshot,
    {
        SourceFileHasher {
            resolver,
            content_hashes,
            fine_grained_external_repos,
            modified_filepaths,
            snapshot,
        }
    }

    /// Resolves a label to its paths, as the digest algorithm does.
    pub fn resolve_label(&self, label: &str) -> (r: Option<ResolvedPath>)
        requires
            self.wf(),
        ensures
            match r {
                Some(p) => resolve_label_spec(self.view_spec(), label@) == Some(
                    (p.absolute@, p.workspace_relative@),
                ),
                None => resolve_label_spec(self.view_spec(), label@) is None,
            },
    {
        match resolve_main_repo(label, self.resolver.workspace.as_str()) {
            Some(p) => Some(p),
            None => {
                match split_external_label(label) {
                    Some((repo, rel)) => {
                        let norm = to_owned_str(trim_leading_str(repo.as_str(), '@'));
                        if contains_string(&self.fine_grained_external_repos, norm.as_str()) {
                            let root = self.resolver.resolve(norm.as_str());
                            let absolute = path_join_exec(root.as_str(), rel.as_str());
                            let mut workspace_relative = to_owned_str("external/");
                            workspace_relative.append(norm.as_str());
                            workspace_relative.append("/");
                            workspace_relative.append(rel.as_str());
                            proof {
                                reveal_strlit("external/");
                                reveal_strlit("/");
                                assert("external/"@ =~= seq![
                                    'e', 'x', 't', 'e', 'r', 'n', 'a', 'l', '/',
                                ]);
                                assert("/"@ =~= seq!['/']);
                                assert(workspace_relative@ =~= seq![
                                    'e', 'x', 't', 'e', 'r', 'n', 'a', 'l', '/',
                                ] + norm@ + seq!['/'] + rel@);
                            }
                            Some(ResolvedPath { absolute, workspace_relative })
                        } else {
                            None
                        }
                    },
                    None => None,
                }
            },
        }
    }

    /// Whether the modified-files filter admits this absolute path.
    fn modified_hit(&self, abs: &str) -> (r: bool)
        ensures
            r == (self.modified_filepaths@.len() == 0 || exists|i: int|
                0 <= i < self.view_spec().modified.len() && path_join(
                    self.view_spec().workspace,
                    #[trigger] self.view_spec().modified[i],
                ) == abs@),
    {
        let n = self.modified_filepaths.len();
        if n == 0 {
            return true;
        }
        let mut i: usize = 0;
        while i < n
            invariant
                i <= n,
                n == self.modified_filepaths@.len(),
                forall|j: int|
                    0 <= j < i ==> path_join(
                        self.view_spec().workspace,
                        #[trigger] self.view_spec().modified[j],
                    ) != abs@,
            decreases n - i,
        {
            proof {
                assert(self.view_spec().modified[i as int] == self.modified_filepaths@[
                    i as int
                ]@);
            }
            let joined = path_join_exec(
                self.resolver.workspace.as_str(),
                self.modified_filepaths[i].as_str(),
            );
            if str_eq(joined.as_str(), abs) {
                return true;
            }
            i = i + 1;
        }
        proof {
            if exists|j: int|
                0 <= j < self.view_spec().modified.len() && path_join(
                    self.view_spec().workspace,
                    #[trigger] self.view_spec().modified[j],
                ) == abs@ {
                let j = choose|j: int|
                    0 <= j < self.view_spec().modified.len() && path_join(
                        self.view_spec().workspace,
                        #[trigger] self.view_spec().modified[j],
                    ) == abs@;
            }
        }
        false
    }

    /// The digest of a label for a given seed: exactly the hash of the
    /// input bytes that the algorithm assembles.
    pub fn digest(&self, label: &str, seed: &Vec<u8>) -> (r: Vec<u8>)
        requires
            self.wf(),
        ensures
            r@ == sha256_of(source_digest_input(self.view_spec(), label@, seed@)),
            r@.len() == 32,
    {
        let mut input: Vec<u8> = Vec::new();
        let is_canonical: bool = match split_external_label(label) {
            Some((repo, _)) => {
                let norm = trim_leading_str(repo.as_str(), '@');
                ends_with_char(norm, '+')
            },
            None => false,
        };
        if is_canonical {
            return sha256(&input);
        }
        let resolved = match self.resolve_label(label) {
            Some(p) => p,
            None => {
                return sha256(&input);
            },
        };
        let ghost h = self.view_spec();
        let ghost abs = resolved.absolute@;
        let ghost rel = resolved.workspace_relative@;
        let overridden: bool = match &self.content_hashes {
            Some(m) => match m.get(resolved.workspace_relative.as_str()) {
                Some(content_hash) => {
                    append_bytes(&mut input, &bytes_of(content_hash.as_str()));
                    input.push(1u8);
                    append_bytes(&mut input, seed);
                    append_bytes(&mut input, &bytes_of(label));
                    proof {
                        assert(input@ =~= str_bytes(h.content_hashes->0[rel]) + seq![1u8] + seed@
                            + str_bytes(label@));
                    }
                    true
                },
                None => false,
            },
            None => false,
        };
        if overridden {
            return sha256(&input);
        }
        match self.snapshot.get(resolved.absolute.as_str()) {
            Some(entry) => {
                match entry {
                    Some(data) => {
                        if self.modified_hit(resolved.absolute.as_str()) {
                            append_bytes(&mut input, data);
                        }
                        input.push(1u8);
                        proof {
                            if modified_admits(h, abs) {
                                assert(input@ =~= h.snapshot[abs]->0 + seq![1u8]);
                            } else {
                                assert(input@ =~= Seq::<u8>::empty() + seq![1u8]);
                            }
                        }
                    },
                    None => {},
                }
            },
            None => {
                input.push(0u8);
                proof {
                    assert(input@ =~= seq![0u8]);
                }
            },
        }
        append_bytes(&mut input, seed);
        append_bytes(&mut input, &bytes_of(label));
        proof {
            assert(input@ =~= source_digest_input(h, label@, seed@));
        }
        sha256(&input)
    }

    /// The soft digest: nothing for external labels or paths that are not
    /// regular files; else the ordinary digest.
    pub fn soft_digest(&self, label: &str, seed: &Vec<u8>) -> (r: Option<Vec<u8>>)
        requires
            self.wf(),
        ensures
            match r {
                Some(d) => soft_digest_spec(self.view_spec(), label@, seed@) == Some(d@) && d@.len()
                    == 32,
                None => soft_digest_spec(self.view_spec(), label@, seed@) is None,
            },
    {
        let n = crate::strutil::str_len(label);
        if n > 0 && label.get_char(0) == '@' {
            return None;
        }
        let resolved = match self.resolve_label(label) {
            Some(p) => p,
            None => {
                return None;
            },
        };
        match self.snapshot.get(resolved.absolute.as_str()) {
            Some(entry) => match entry {
                Some(_) => Some(self.digest(label, seed)),
                None => None,
            },
            None => None,
        }
    }
}

/// Fine-grained repo gating: an external label whose normalized repository
/// name is not in the fine-grained set digests the empty input, whatever
/// the disk holds.
pub proof fn lemma_fine_grained_gating(h: SourceHasherView, label: Seq<char>, seed: Seq<u8>)
    requires
        label.len() > 0,
        label[0] == '@',
        !crate::labels::is_main_repo_ref(label),
        ext_split(label) matches Some(p) ==> !h.fine_grained.contains(trim_leading(p.0, '@')),
    ensures
        source_digest_input(h, label, seed) == Seq::<u8>::empty(),
{
    if !canonical_external(label) {
        assert(resolve_main_repo_spec(label, h.workspace) is None);
        assert(ext_split(label) is Some);
    }
}

/// Appends one byte vector to another.
pub fn append_bytes(dst: &mut Vec<u8>, src: &Vec<u8>)
    ensures
        final(dst)@ == old(dst)@ + src@,
{
    let n = src.len();
    let mut i: usize = 0;
    while i < n
        invariant
            i <= n,
            n == src@.len(),
            dst@ == old(dst)@ + src@.take(i as int),
        decreases n - i,
    {
        dst.push(src[i]);
        i = i + 1;
        proof {
            assert(dst@ =~= old(dst)@ + src@.take(i as int));
        }
    }
    proof {
        assert(old(dst)@ + src@.take(n as int) =~= old(dst)@ + src@);
    }
}


/// Source-change localization, source side: changing what the snapshot
/// holds at one path leaves every label that does not resolve to that path
/// with an unchanged digest input.
pub proof fn lemma_source_change_localized(h1: SourceHasherView, h2: SourceHasherView, p: Seq<
    char,
>, label: Seq<char>, seed: Seq<u8>)
    requires
        h1.workspace == h2.workspace,
        h1.external_root == h2.external_root,
        h1.repo_roots == h2.repo_roots,
        h1.content_hashes == h2.content_hashes,
        h1.fine_grained == h2.fine_grained,
        h1.modified == h2.modified,
        forall|q: Seq<char>|
            q != p ==> (h1.snapshot.contains_key(q) <==> h2.snapshot.contains_key(q)),
        forall|q: Seq<char>|
            q != p && h1.snapshot.contains_key(q) ==> h1.snapshot[q] == h2.snapshot[q],
        match resolve_label_spec(h1, label) {
            Some(pr) => pr.0 != p,
            None => true,
        },
    ensures
        source_digest_input(h1, label, seed) == source_digest_input(h2, label, seed),
        soft_digest_spec(h1, label, seed) == soft_digest_spec(h2, label, seed),
{
    assert(resolve_label_spec(h1, label) == resolve_label_spec(h2, label));
    match resolve_label_spec(h1, label) {
        Some(pr) => {
            let abs = pr.0;
            assert(abs != p);
            if h1.snapshot.contains_key(abs) {
                assert(h2.snapshot.contains_key(abs));
                assert(h1.snapshot[abs] == h2.snapshot[abs]);
            } else {
                assert(!h2.snapshot.contains_key(abs));
            }
            assert(modified_admits(h1, abs) == modified_admits(h2, abs));
        },
        None => {},
    }
}

} // verus!
