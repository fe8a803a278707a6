//! The build-tool collaborator's surface: invocation options, version
//! handling, query-expression building, exit-status policy, and the pure
//! parsing parts of the output-base and repository-location lookups.

use vstd::prelude::*;

use crate::labels::path_join;
use crate::labels::path_join_exec;
use crate::strutil::char_ix;
use crate::strutil::dec_val;
use crate::strutil::is_digits;
use crate::strutil::parse_u32;
use crate::strutil::split_char_spec;
use crate::strutil::split_on_char;
use crate::strutil::trim_exec;
use crate::strutil::trim_spec;
use crate::strutil::first_char_ix;
use crate::strutil::first_pair_ix;
use crate::strutil::pair_ix;
use crate::strutil::push_string;
use crate::strutil::starts_with;
use crate::strutil::starts_with_str;
use crate::strutil::str_len;
use crate::strutil::to_owned_str;

verus! {

/// How the build tool is invoked.
pub struct BazelOptions {
    pub workspace: String,
    pub bazel_path: String,
    pub startup_options: Vec<String>,
    pub command_options: Vec<String>,
    pub cquery_options: Vec<String>,
    pub use_cquery: bool,
    pub keep_going: bool,
}

impl Default for BazelOptions {
    /// Empty paths and option lists; plain query mode; keep-going off.
    fn default() -> (r: BazelOptions)
        ensures
            r.workspace@ == Seq::<char>::empty(),
            r.bazel_path@ == Seq::<char>::empty(),
            r.startup_options@.len() == 0,
            r.command_options@.len() == 0,
            r.cquery_options@.len() == 0,
            !r.use_cquery,
            !r.keep_going,
    {
        BazelOptions {
            workspace: String::new(),
            bazel_path: String::new(),
            startup_options: Vec::new(),
            command_options: Vec::new(),
            cquery_options: Vec::new(),
            use_cquery: false,
            keep_going: false,
        }
    }
}

impl BazelOptions {
    /// The binary to invoke: the configured path, or plain `bazel`.
    pub fn bazel_binary(&self) -> (r: &str)
        ensures
            self.bazel_path@.len() == 0 ==> r@ == "bazel"@,
            self.bazel_path@.len() > 0 ==> r@ == self.bazel_path@,
    {
        if self.bazel_path.as_str().unicode_len() == 0 {
            "bazel"
        } else {
            self.bazel_path.as_str()
        }
    }
}

/// A build-tool version, ordered lexicographically.
#[derive(Debug, Clone, Copy, PartialEq, Eq, Structural)]
pub struct BazelVersion {
    pub major: u32,
    pub minor: u32,
    pub patch: u32,
}

/// Whether `(a1, a2, a3)` is at least `(b1, b2, b3)` lexicographically.
pub open spec fn version_ge(a1: u32, a2: u32, a3: u32, b1: u32, b2: u32, b3: u32) -> bool {
    a1 > b1 || (a1 == b1 && (a2 > b2 || (a2 == b2 && a3 >= b3)))
}

impl BazelVersion {
    /// Wraps the three components.
    pub fn new(major: u32, minor: u32, patch: u32) -> (r: BazelVersion)
        ensures
            r.major == major,
            r.minor == minor,
            r.patch == patch,
    {
        BazelVersion { major, minor, patch }
    }

    /// Whether this version is at least the given one.
    pub fn at_least(&self, major: u32, minor: u32, patch: u32) -> (r: bool)
        ensures
            r == version_ge(self.major, self.minor, self.patch, major, minor, patch),
    {
        self.major > major || (self.major == major && (self.minor > minor || (self.minor == minor
            && self.patch >= patch)))
    }
}

/// The query expression for a pattern list: each pattern quoted, joined
/// with ` + `.
pub open spec fn query_expr_spec(patterns: Seq<Seq<char>>, i: int) -> Seq<char>
    decreases i,
{
    if i <= 0 {
        Seq::empty()
    } else if i == 1 {
        seq!['\''] + patterns[0] + seq!['\'']
    } else {
        query_expr_spec(patterns, i - 1) + seq![' ', '+', ' '] + (seq!['\''] + patterns[i - 1]
            + seq!['\''])
    }
}

/// Builds the query expression for a pattern list.
pub fn build_query_expression(patterns: &Vec<String>) -> (r: String)
    ensures
        r@ == query_expr_spec(patterns.deep_view(), patterns.deep_view().len() as int),
{
    let ghost pdv = patterns.deep_view();
    let mut out = String::new();
    let n = patterns.len();
    let mut i: usize = 0;
    proof {
        reveal_strlit("'");
        reveal_strlit(" + ");
        assert("'"@ =~= seq!['\'']);
        assert(" + "@ =~= seq![' ', '+', ' ']);
        assert(out@ =~= query_expr_spec(pdv, 0));
    }
    while i < n
        invariant
            i <= n,
            n == pdv.len(),
            pdv == patterns.deep_view(),
            "'"@ == seq!['\''],
            " + "@ == seq![' ', '+', ' '],
            out@ == query_expr_spec(pdv, i as int),
        decreases n - i,
    {
        proof {
            assert(pdv[i as int] == patterns@[i as int]@);
        }
        if i > 0 {
            out.append(" + ");
        }
        out.append("'");
        out.append(patterns[i].as_str());
        out.append("'");
        proof {
            assert(out@ =~= query_expr_spec(pdv, i + 1));
        }
        i = i + 1;
    }
    out
}

/// The exit-status policy: success, or the partial-failure code when
/// keep-going is on.
pub fn is_allowed_status(success: bool, code: Option<i32>, keep_going: bool) -> (r: bool)
    ensures
        r == (success || (keep_going && code == Some(3i32))),
{
    success || (keep_going && match code {
        Some(c) => c == 3,
        None => false,
    })
}

/// The repository directory named by the first line of a location query:
/// the part before `: `, stripped of the external root, reduced to its
/// first path component under that root.
pub open spec fn bzlmod_dir_spec(external_root: Seq<char>, line: Seq<char>) -> Option<Seq<char>> {
    let path = match pair_ix(line, ':', ' ') {
        Some(i) => line.take(i),
        None => line,
    };
    let prefix = external_root + seq!['/'];
    if starts_with(path, prefix) {
        let rel = path.skip(prefix.len() as int);
        if rel.len() == 0 {
            None
        } else {
            let component = match char_ix(rel, '/') {
                Some(j) => rel.take(j),
                None => rel,
            };
            Some(path_join(external_root, component))
        }
    } else {
        None
    }
}

/// Extracts the repository directory from the first line of a location
/// query against the given external root.
pub fn bzlmod_repo_dir(external_root: &str, line: &str) -> (r: Option<String>)
    ensures
        match r {
            Some(d) => bzlmod_dir_spec(external_root@, line@) == Some(d@),
            None => bzlmod_dir_spec(external_root@, line@) is None,
        },
{
    let n = str_len(line);
    let path: &str = match first_pair_ix(line, ':', ' ') {
        Some(i) => {
            let p = line.substring_char(0, i);
            proof {
                assert(p@ =~= line@.take(i as int));
            }
            p
        },
        None => line,
    };
    let mut prefix = to_owned_str(external_root);
    push_string_char(&mut prefix, '/');
    proof {
        assert(prefix@ =~= external_root@ + seq!['/']);
    }
    if !starts_with_str(path, prefix.as_str()) {
        return None;
    }
    let pn = str_len(path);
    let pl = prefix.as_str().unicode_len();
    let rel = path.substring_char(pl, pn);
    proof {
        assert(rel@ =~= path@.skip(prefix@.len() as int));
    }
    let rn = str_len(rel);
    if rn == 0 {
        return None;
    }
    let component: &str = match first_char_ix(rel, '/') {
        Some(j) => {
            let c = rel.substring_char(0, j);
            proof {
                assert(c@ =~= rel@.take(j as int));
            }
            c
        },
        None => rel,
    };
    Some(path_join_exec(external_root, component))
}


/// The root directory chosen for an external repository: the plain child
/// of the external root when it exists on disk, else the `+`-suffixed
/// child when that exists, else the directory named by the location
/// query's first line, else the plain child as a final fallback.
pub open spec fn repo_root_spec(external_root: Seq<char>, repo: Seq<char>, plain_exists: bool,
    canonical_exists: bool, locate_line: Option<Seq<char>>) -> Seq<char> {
    if plain_exists {
        path_join(external_root, repo)
    } else if canonical_exists {
        path_join(external_root, repo.push('+'))
    } else {
        match locate_line {
            Some(line) => match bzlmod_dir_spec(external_root, line) {
                Some(d) => d,
                None => path_join(external_root, repo),
            },
            None => path_join(external_root, repo),
        }
    }
}

/// Chooses an external repository's root directory from the two existence
/// probes and the optional first line of a location query; the caller
/// performs the probes and the query.
pub fn repo_root_candidate(external_root: &str, repo: &str, plain_exists: bool,
    canonical_exists: bool, locate_line: Option<&str>) -> (r: String)
    ensures
        r@ == repo_root_spec(
            external_root@,
            repo@,
            plain_exists,
            canonical_exists,
            match locate_line {
                Some(l) => Some(l@),
                None => None,
            },
        ),
{
    if plain_exists {
        return path_join_exec(external_root, repo);
    }
    if canonical_exists {
        let mut canonical = to_owned_str(repo);
        push_string_char(&mut canonical, '+');
        proof {
            assert(canonical@ =~= repo@.push('+'));
        }
        return path_join_exec(external_root, canonical.as_str());
    }
    match locate_line {
        Some(line) => match bzlmod_repo_dir(external_root, line) {
            Some(d) => d,
            None => path_join_exec(external_root, repo),
        },
        None => path_join_exec(external_root, repo),
    }
}

/// Appends one character to a string.
fn push_string_char(s: &mut String, c: char)
    ensures
        final(s)@ == old(s)@.push(c),
{
    crate::strutil::push_char(s, c);
}

/// The long form of a short flag: when the argument is the short flag,
/// alone or with an `=value` tail, the tail is carried over.
pub open spec fn normalize_flag_spec(input: Seq<char>, short: Seq<char>, long: Seq<char>)
    -> Option<Seq<char>> {
    if starts_with(input, short) && (input.len() == short.len() || input[short.len() as int]
        == '=') {
        Some(long + input.skip(short.len() as int))
    } else {
        None
    }
}

/// Rewrites a short-form flag to its long form.
pub fn normalize_flag(input: &str, short: &str, long: &str) -> (r: Option<String>)
    ensures
        match r {
            Some(s) => normalize_flag_spec(input@, short@, long@) == Some(s@),
            None => normalize_flag_spec(input@, short@, long@) is None,
        },
{
    if !starts_with_str(input, short) {
        return None;
    }
    let n = str_len(input);
    let sn = str_len(short);
    if n > sn && input.get_char(sn) != '=' {
        return None;
    }
    let rest = input.substring_char(sn, n);
    proof {
        assert(rest@ =~= input@.skip(short@.len() as int));
    }
    let mut out = to_owned_str(long);
    out.append(rest);
    Some(out)
}


/// The numeric value of the version component at `k`: a missing component
/// counts as zero; a malformed or out-of-range one has no value.
pub open spec fn version_component(parts: Seq<Seq<char>>, k: int) -> Option<int> {
    if k >= parts.len() {
        Some(0int)
    } else if is_digits(parts[k]) && dec_val(parts[k]) <= u32::MAX {
        Some(dec_val(parts[k]))
    } else {
        None
    }
}

/// The version named by a `bazel --version` line: the line is trimmed, an
/// optional `bazel ` prefix is stripped, anything from the first `-` on is
/// dropped, and the dot-separated components give major, minor and patch.
pub open spec fn bazel_version_spec(line: Seq<char>) -> Option<(int, int, int)> {
    let t = trim_spec(line);
    let v = if starts_with(t, seq!['b', 'a', 'z', 'e', 'l', ' ']) {
        t.skip(6)
    } else {
        t
    };
    let base = match char_ix(v, '-') {
        Some(i) => v.take(i),
        None => v,
    };
    let parts = split_char_spec(base, '.');
    match (version_component(parts, 0), version_component(parts, 1), version_component(
        parts,
        2,
    )) {
        (Some(a), Some(b), Some(c)) => Some((a, b, c)),
        _ => None,
    }
}

/// Parses the version line of the build tool.
pub fn parse_bazel_version(line: &str) -> (r: Option<BazelVersion>)
    ensures
        match r {
            Some(v) => bazel_version_spec(line@) == Some(
                (v.major as int, v.minor as int, v.patch as int),
            ),
            None => bazel_version_spec(line@) is None,
        },
{
    let trimmed = trim_exec(line);
    let tn = str_len(trimmed.as_str());
    proof {
        reveal_strlit("bazel ");
        assert("bazel "@ =~= seq!['b', 'a', 'z', 'e', 'l', ' ']);
    }
    let version_str: &str;
    if starts_with_str(trimmed.as_str(), "bazel ") {
        version_str = trimmed.as_str().substring_char(6, tn);
        proof {
            assert(version_str@ =~= trimmed@.skip(6));
        }
    } else {
        version_str = trimmed.as_str();
    }
    let vn = str_len(version_str);
    let base: &str = match first_char_ix(version_str, '-') {
        Some(i) => {
            let b = version_str.substring_char(0, i);
            proof {
                assert(b@ =~= version_str@.take(i as int));
            }
            b
        },
        None => version_str,
    };
    let parts = split_on_char(base, '.');
    let ghost pdv = parts.deep_view();
    let major = match component_value(&parts, 0) {
        Some(v) => v,
        None => {
            return None;
        },
    };
    let minor = match component_value(&parts, 1) {
        Some(v) => v,
        None => {
            return None;
        },
    };
    let patch = match component_value(&parts, 2) {
        Some(v) => v,
        None => {
            return None;
        },
    };
    Some(BazelVersion { major, minor, patch })
}

/// The value of one dot-separated component.
fn component_value(parts: &Vec<String>, k: usize) -> (r: Option<u32>)
    ensures
        match r {
            Some(v) => version_component(parts.deep_view(), k as int) == Some(v as int),
            None => version_component(parts.deep_view(), k as int) is None,
        },
{
    if k >= parts.len() {
        return Some(0);
    }
    proof {
        assert(parts.deep_view()[k as int] == parts@[k as int]@);
    }
    match parse_u32(parts[k].as_str()) {
        Some(v) => Some(v),
        None => None,
    }
}

} // verus!
