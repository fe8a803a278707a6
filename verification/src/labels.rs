//! Pure label utilities: classification of main-repo vs external-repo
//! labels, canonicalization, and the rewriting used when reconciling the
//! configured and unconfigured graph modes.

use vstd::prelude::*;

use crate::strutil::char_ix;
use crate::strutil::contains_string;
use crate::strutil::ends_with_char;
use crate::strutil::first_char_ix;
use crate::strutil::first_pair_ix;
use crate::strutil::pair_ix;
use crate::strutil::push_char;
use crate::strutil::replace_char_exec;
use crate::strutil::replace_chars;
use crate::strutil::starts_with;
use crate::strutil::starts_with_str;
use crate::strutil::str_len;
use crate::strutil::to_owned_str;
use crate::strutil::trim_leading;
use crate::strutil::trim_leading_str;

verus! {

/// How many characters the main-repo prefix of `s` spans: `//`, `@//` or
/// `@@//`.
pub open spec fn main_repo_prefix_len(s: Seq<char>) -> Option<int> {
    if starts_with(s, seq!['/', '/']) {
        Some(2int)
    } else if starts_with(s, seq!['@', '/', '/']) {
        Some(3int)
    } else if starts_with(s, seq!['@', '@', '/', '/']) {
        Some(4int)
    } else {
        None
    }
}

/// Whether `s` refers to the main repository.
pub open spec fn is_main_repo_ref(s: Seq<char>) -> bool {
    main_repo_prefix_len(s) is Some
}

/// A repository name with all leading `@` characters removed.
pub open spec fn normalize_repo_spec(repo: Seq<char>) -> Seq<char> {
    trim_leading(repo, '@')
}

/// Splitting an external label into its repository name and the
/// filesystem-relative remainder.
pub open spec fn ext_split(label: Seq<char>) -> Option<(Seq<char>, Seq<char>)> {
    if label.len() == 0 || label[0] != '@' {
        None
    } else {
        let t = trim_leading(label, '@');
        let repo = match pair_ix(t, '/', '/') {
            Some(i) => t.take(i),
            None => t,
        };
        let rest = match pair_ix(t, '/', '/') {
            Some(i) => t.skip(i + 2),
            None => Seq::<char>::empty(),
        };
        let rel = if rest.len() > 0 && rest[0] == ':' {
            trim_leading(rest, ':')
        } else {
            replace_chars(rest, ':', '/')
        };
        Some((repo, rel))
    }
}

/// Joining a relative path onto a base directory with a `/` separator.
pub open spec fn path_join(base: Seq<char>, rel: Seq<char>) -> Seq<char> {
    if base.len() > 0 && base.last() == '/' {
        base + rel
    } else {
        base + seq!['/'] + rel
    }
}

/// Resolving a main-repo label to its absolute and workspace-relative
/// paths.
pub open spec fn resolve_main_repo_spec(label: Seq<char>, workspace: Seq<char>) -> Option<
    (Seq<char>, Seq<char>),
> {
    match main_repo_prefix_len(label) {
        Some(p) => {
            let norm = trim_leading(label.skip(p), ':');
            let rel = replace_chars(norm, ':', '/');
            Some((path_join(workspace, rel), rel))
        },
        None => None,
    }
}

/// The rewriting of a rule input used when reconciling configured and
/// unconfigured query modes: main-repo labels pass through; labels of
/// fine-grained external repos become canonical `@@repo+//rest` form; all
/// other external labels collapse to the legacy `//external:repo` form.
pub open spec fn transform_spec(input: Seq<char>, fine_grained: Seq<Seq<char>>) -> Seq<char> {
    let trimmed = trim_leading(input, '@');
    if is_main_repo_ref(trimmed) {
        input
    } else {
        let repo = match pair_ix(trimmed, '/', '/') {
            Some(i) => trimmed.take(i),
            None => trimmed,
        };
        let rem = match pair_ix(trimmed, '/', '/') {
            Some(i) => trimmed.skip(i + 2),
            None => Seq::<char>::empty(),
        };
        let norm = trim_leading(repo, '@');
        if fine_grained.contains(norm) {
            let canonical = if repo.len() > 0 && repo.last() == '+' {
                repo
            } else {
                repo.push('+')
            };
            seq!['@', '@'] + canonical + seq!['/', '/'] + rem
        } else {
            seq!['/', '/', 'e', 'x', 't', 'e', 'r', 'n', 'a', 'l', ':'] + repo
        }
    }
}

/// The package part of a label: everything before the first `:`, or the
/// whole label if it has none.
pub open spec fn package_of(label: Seq<char>) -> Seq<char> {
    match char_ix(label, ':') {
        Some(i) => label.take(i),
        None => label,
    }
}

/// A label resolved to a location on disk.
pub struct ResolvedPath {
    /// Absolute path of the file.
    pub absolute: String,
    /// Path relative to the workspace root, used as the content-hash key.
    pub workspace_relative: String,
}

/// Whether the label does not refer to the main repository.
pub fn is_not_main_repo(input: &str) -> (r: bool)
    ensures
        r == !is_main_repo_ref(input@),
{
    let r = starts_with_str(input, "//") || starts_with_str(input, "@//") || starts_with_str(
        input,
        "@@//",
    );
    proof {
        reveal_strlit("//");
        reveal_strlit("@//");
        reveal_strlit("@@//");
        assert("//"@ =~= seq!['/', '/']);
        assert("@//"@ =~= seq!['@', '/', '/']);
        assert("@@//"@ =~= seq!['@', '@', '/', '/']);
    }
    !r
}

/// The repository name with leading `@` characters removed.
pub fn trim_repo_name(repo: &str) -> (r: String)
    ensures
        r@ == normalize_repo_spec(repo@),
{
    to_owned_str(trim_leading_str(repo, '@'))
}

/// Canonical form of a repository name; leading `@`s are stripped and a
/// trailing `+` is kept.
pub fn normalize_repo(repo: &str) -> (r: String)
    ensures
        r@ == normalize_repo_spec(repo@),
{
    trim_repo_name(repo)
}

/// Splits an external label into its repository name and relative path.
pub fn split_external_label(label: &str) -> (r: Option<(String, String)>)
    ensures
        match r {
            Some(p) => ext_split(label@) == Some((p.0@, p.1@)),
            None => ext_split(label@) is None,
        },
{
    let n = str_len(label);
    if n == 0 || label.get_char(0) != '@' {
        return None;
    }
    let t = trim_leading_str(label, '@');
    let tn = str_len(t);
    let repo: &str;
    let rest: &str;
    match first_pair_ix(t, '/', '/') {
        Some(i) => {
            repo = t.substring_char(0, i);
            rest = t.substring_char(i + 2, tn);
            proof {
                assert(repo@ =~= t@.take(i as int));
                assert(rest@ =~= t@.skip(i + 2));
            }
        },
        None => {
            repo = t;
            rest = t.substring_char(tn, tn);
            proof {
                assert(rest@ =~= Seq::<char>::empty());
            }
        },
    }
    let rn = str_len(rest);
    let rel: String = if rn > 0 && rest.get_char(0) == ':' {
        to_owned_str(trim_leading_str(rest, ':'))
    } else {
        replace_char_exec(rest, ':', '/')
    };
    Some((to_owned_str(repo), rel))
}

/// Joins a relative path onto a base directory.
pub fn path_join_exec(base: &str, rel: &str) -> (r: String)
    ensures
        r@ == path_join(base@, rel@),
{
    let bn = str_len(base);
    let mut out = to_owned_str(base);
    if !(bn > 0 && base.get_char(bn - 1) == '/') {
        push_char(&mut out, '/');
        proof {
            assert(out@ =~= base@ + seq!['/']);
        }
    }
    out.append(rel);
    proof {
        if bn > 0 && base@.last() == '/' {
            assert(out@ =~= base@ + rel@);
        } else {
            assert(out@ =~= base@ + seq!['/'] + rel@);
        }
    }
    out
}

/// Resolves a main-repo label against the workspace root; external labels
/// yield nothing.
pub fn resolve_main_repo(label: &str, workspace: &str) -> (r: Option<ResolvedPath>)
    ensures
        match r {
            Some(p) => resolve_main_repo_spec(label@, workspace@) == Some(
                (p.absolute@, p.workspace_relative@),
            ),
            None => resolve_main_repo_spec(label@, workspace@) is None,
        },
{
    let n = str_len(label);
    let prefix_len: usize;
    if starts_with_str(label, "//") {
        prefix_len = 2;
    } else if starts_with_str(label, "@//") {
        prefix_len = 3;
    } else if starts_with_str(label, "@@//") {
        prefix_len = 4;
    } else {
        proof {
            reveal_strlit("//");
            reveal_strlit("@//");
            reveal_strlit("@@//");
            assert("//"@ =~= seq!['/', '/']);
            assert("@//"@ =~= seq!['@', '/', '/']);
            assert("@@//"@ =~= seq!['@', '@', '/', '/']);
        }
        return None;
    }
    proof {
        reveal_strlit("//");
        reveal_strlit("@//");
        reveal_strlit("@@//");
        assert("//"@ =~= seq!['/', '/']);
        assert("@//"@ =~= seq!['@', '/', '/']);
        assert("@@//"@ =~= seq!['@', '@', '/', '/']);
        assert(main_repo_prefix_len(label@) == Some(prefix_len as int));
    }
    let t = label.substring_char(prefix_len, n);
    proof {
        assert(t@ =~= label@.skip(prefix_len as int));
    }
    let norm = trim_leading_str(t, ':');
    let rel = replace_char_exec(norm, ':', '/');
    let absolute = path_join_exec(workspace, rel.as_str());
    Some(ResolvedPath { absolute, workspace_relative: rel })
}

/// Rewrites a rule input per the configured/unconfigured reconciliation.
pub fn transform_rule_input(input: &str, fine_grained: &Vec<String>) -> (r: String)
    ensures
        r@ == transform_spec(input@, fine_grained.deep_view()),
{
    let trimmed = trim_leading_str(input, '@');
    if !is_not_main_repo(trimmed) {
        return to_owned_str(input);
    }
    let tn = str_len(trimmed);
    let repo: &str;
    let rem: &str;
    match first_pair_ix(trimmed, '/', '/') {
        Some(i) => {
            repo = trimmed.substring_char(0, i);
            rem = trimmed.substring_char(i + 2, tn);
            proof {
                assert(repo@ =~= trimmed@.take(i as int));
                assert(rem@ =~= trimmed@.skip(i + 2));
            }
        },
        None => {
            repo = trimmed;
            rem = trimmed.substring_char(tn, tn);
            proof {
                assert(rem@ =~= Seq::<char>::empty());
            }
        },
    }
    let norm = trim_repo_name(repo);
    if contains_string(fine_grained, norm.as_str()) {
        let mut out = to_owned_str("@@");
        out.append(repo);
        if !ends_with_char(repo, '+') {
            push_char(&mut out, '+');
        }
        out.append("//");
        out.append(rem);
        proof {
            reveal_strlit("@@");
            reveal_strlit("//");
            assert("@@"@ =~= seq!['@', '@']);
            assert("//"@ =~= seq!['/', '/']);
            if repo@.len() > 0 && repo@.last() == '+' {
                assert(out@ =~= seq!['@', '@'] + repo@ + seq!['/', '/'] + rem@);
            } else {
                assert(out@ =~= seq!['@', '@'] + repo@.push('+') + seq!['/', '/'] + rem@);
            }
        }
        out
    } else {
        let mut out = to_owned_str("//external:");
        out.append(repo);
        proof {
            reveal_strlit("//external:");
            assert("//external:"@ =~= seq![
                '/', '/', 'e', 'x', 't', 'e', 'r', 'n', 'a', 'l', ':',
            ]);
            assert(out@ =~= seq!['/', '/', 'e', 'x', 't', 'e', 'r', 'n', 'a', 'l', ':'] + repo@);
        }
        out
    }
}

/// The package part of a label: everything before the first `:`.
pub fn package_segment<'a>(label: &'a str) -> (r: &'a str)
    ensures
        r@ == package_of(label@),
{
    match first_char_ix(label, ':') {
        Some(i) => {
            let r = label.substring_char(0, i);
            proof {
                assert(r@ =~= label@.take(i as int));
            }
            r
        },
        None => label,
    }
}

} // verus!
