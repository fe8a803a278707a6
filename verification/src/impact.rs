//! The impact analyzer: set difference over two keyed hash maps,
//! classification of impacted labels, and shortest-distance labelling
//! through the dependency-edge graph.

use vstd::prelude::*;

use crate::errors::DiffError;
use crate::labels::package_of;
use crate::models::DependencyEdges;
use crate::models::HashParts;
use crate::models::ImpactedTargetDistance;
use crate::models::ImpactedTargetsResult;
use crate::models::TargetHash;
use crate::models::TargetHashes;
use crate::strutil::contains_string;
use crate::strutil::lemma_lex_lt_connected;
use crate::strutil::lemma_lex_lt_trans;
use crate::strutil::lex_lt;
use crate::strutil::str_eq;
use crate::strutil::str_lt;

verus! {

/// The entry of a hash map at a label, when present.
pub open spec fn map_get(m: Map<Seq<char>, HashParts>, l: Seq<char>) -> Option<HashParts> {
    if m.contains_key(l) {
        Some(m[l])
    } else {
        None
    }
}

/// Whether a label's hash differs between the two sides; absence on one
/// side counts as different.
pub open spec fn changed(sm: Map<Seq<char>, HashParts>, fm: Map<Seq<char>, HashParts>, l: Seq<
    char,
>) -> bool {
    match (map_get(sm, l), map_get(fm, l)) {
        (Some(a), Some(b)) => a.raw != b.raw,
        (None, Some(_)) => true,
        (Some(_), None) => true,
        (None, None) => false,
    }
}

/// The hash entry consulted for a label: the final side wins.
pub open spec fn sel_hash(sm: Map<Seq<char>, HashParts>, fm: Map<Seq<char>, HashParts>, l: Seq<
    char,
>) -> HashParts {
    if fm.contains_key(l) {
        fm[l]
    } else {
        sm[l]
    }
}

/// The node kind consulted for sorting: the final side's kind when it has
/// one, else the starting side's.
pub open spec fn sel_kind(sm: Map<Seq<char>, HashParts>, fm: Map<Seq<char>, HashParts>, l: Seq<
    char,
>) -> Option<Seq<char>> {
    if fm.contains_key(l) && fm[l].kind is Some {
        fm[l].kind
    } else if sm.contains_key(l) && sm[l].kind is Some {
        sm[l].kind
    } else {
        None
    }
}

/// The sort rank of a node kind.
pub open spec fn rank_of(t: Option<Seq<char>>) -> int {
    match t {
        Some(k) => if k == seq!['S', 'o', 'u', 'r', 'c', 'e', 'F', 'i', 'l', 'e'] {
            0
        } else if k == seq!['G', 'e', 'n', 'e', 'r', 'a', 't', 'e', 'd', 'F', 'i', 'l', 'e'] {
            1
        } else if k == seq!['R', 'u', 'l', 'e'] {
            2
        } else {
            3
        },
        None => 4,
    }
}

/// The strict order of the impacted list: by kind rank, then by label.
pub open spec fn impact_lt(sm: Map<Seq<char>, HashParts>, fm: Map<Seq<char>, HashParts>, a: Seq<
    char,
>, b: Seq<char>) -> bool {
    let ra = rank_of(sel_kind(sm, fm, a));
    let rb = rank_of(sel_kind(sm, fm, b));
    ra < rb || (ra == rb && lex_lt(a, b))
}

/// Whether a label belongs to the impacted output under an optional kind
/// filter.
pub open spec fn impacted_cond(sm: Map<Seq<char>, HashParts>, fm: Map<Seq<char>, HashParts>,
    filt: Option<Seq<Seq<char>>>, l: Seq<char>) -> bool {
    &&& changed(sm, fm, l)
    &&& (sm.contains_key(l) || fm.contains_key(l))
    &&& match filt {
        None => true,
        Some(f) => passes_filter(sel_hash(sm, fm, l), f),
    }
}

/// The kind filter as a view.
pub open spec fn opt_strings_view(t: &Option<Vec<String>>) -> Option<Seq<Seq<char>>> {
    match t {
        Some(v) => Some(v.deep_view()),
        None => None,
    }
}

/// Whether a hash entry carries a kind that the filter admits.
pub open spec fn passes_filter(h: HashParts, f: Seq<Seq<char>>) -> bool {
    h.kind matches Some(k) && f.contains(k)
}

/// Two distinct labels are always ordered one way or the other.
pub proof fn lemma_impact_lt_connected(sm: Map<Seq<char>, HashParts>, fm: Map<
    Seq<char>,
    HashParts,
>, a: Seq<char>, b: Seq<char>)
    ensures
        !impact_lt(sm, fm, a, b) && !impact_lt(sm, fm, b, a) ==> a == b,
        impact_lt(sm, fm, a, b) ==> !impact_lt(sm, fm, b, a),
{
    lemma_lex_lt_connected(a, b);
}

/// The impacted-list order is transitive.
pub proof fn lemma_impact_lt_trans(sm: Map<Seq<char>, HashParts>, fm: Map<Seq<char>, HashParts>,
    a: Seq<char>, b: Seq<char>, c: Seq<char>)
    requires
        impact_lt(sm, fm, a, b),
        impact_lt(sm, fm, b, c),
    ensures
        impact_lt(sm, fm, a, c),
{
    let ra = rank_of(sel_kind(sm, fm, a));
    let rb = rank_of(sel_kind(sm, fm, b));
    let rc = rank_of(sel_kind(sm, fm, c));
    if ra == rb && rb == rc {
        lemma_lex_lt_trans(a, b, c);
    }
}

/// The sort rank of a kind string.
fn kind_rank(t: Option<&str>) -> (r: u8)
    ensures
        r as int == rank_of(
            match t {
                Some(s) => Some(s@),
                None => None,
            },
        ),
{
    match t {
        Some(s) => {
            proof {
                reveal_strlit("SourceFile");
                reveal_strlit("GeneratedFile");
                reveal_strlit("Rule");
                assert("SourceFile"@ =~= seq!['S', 'o', 'u', 'r', 'c', 'e', 'F', 'i', 'l', 'e']);
                assert("GeneratedFile"@ =~= seq![
                    'G', 'e', 'n', 'e', 'r', 'a', 't', 'e', 'd', 'F', 'i', 'l', 'e',
                ]);
                assert("Rule"@ =~= seq!['R', 'u', 'l', 'e']);
            }
            if str_eq(s, "SourceFile") {
                0
            } else if str_eq(s, "GeneratedFile") {
                1
            } else if str_eq(s, "Rule") {
                2
            } else {
                3
            }
        },
        None => 4,
    }
}

/// The hash entry consulted for an impacted label: the final side wins.
fn target_hash_for_label<'a>(label: &str, start_hashes: &'a TargetHashes,
    final_hashes: &'a TargetHashes) -> (r: Option<&'a TargetHash>)
    requires
        start_hashes.wf(),
        final_hashes.wf(),
    ensures
        match r {
            Some(h) => (start_hashes@.contains_key(label@) || final_hashes@.contains_key(label@))
                && h@ == sel_hash(start_hashes@, final_hashes@, label@),
            None => !start_hashes@.contains_key(label@) && !final_hashes@.contains_key(label@),
        },
{
    match final_hashes.get(label) {
        Some(h) => Some(h),
        None => start_hashes.get(label),
    }
}

/// The node kind consulted for sorting a label.
fn target_type_for_label<'a>(label: &str, start_hashes: &'a TargetHashes,
    final_hashes: &'a TargetHashes) -> (r: Option<&'a str>)
    requires
        start_hashes.wf(),
        final_hashes.wf(),
    ensures
        match r {
            Some(s) => sel_kind(start_hashes@, final_hashes@, label@) == Some(s@),
            None => sel_kind(start_hashes@, final_hashes@, label@) is None,
        },
{
    match final_hashes.get(label) {
        Some(h) => match h.target_type() {
            Some(t) => Some(t),
            None => match start_hashes.get(label) {
                Some(h2) => h2.target_type(),
                None => None,
            },
        },
        None => match start_hashes.get(label) {
            Some(h2) => h2.target_type(),
            None => None,
        },
    }
}

/// Whether `a` sorts strictly before `b` in the impacted order.
fn compare_by_type_then_label(a: &str, b: &str, start_hashes: &TargetHashes,
    final_hashes: &TargetHashes) -> (r: bool)
    requires
        start_hashes.wf(),
        final_hashes.wf(),
    ensures
        r == impact_lt(start_hashes@, final_hashes@, a@, b@),
{
    let ra = kind_rank(target_type_for_label(a, start_hashes, final_hashes));
    let rb = kind_rank(target_type_for_label(b, start_hashes, final_hashes));
    if ra < rb {
        true
    } else if rb < ra {
        false
    } else {
        str_lt(a, b)
    }
}

/// The position at which a label is inserted to keep the list sorted.
fn insert_position(out: &Vec<String>, lab: &String, start_hashes: &TargetHashes,
    final_hashes: &TargetHashes) -> (p: usize)
    requires
        start_hashes.wf(),
        final_hashes.wf(),
    ensures
        p <= out.deep_view().len(),
        forall|q: int|
            0 <= q < p ==> impact_lt(start_hashes@, final_hashes@, #[trigger] out.deep_view()[q],
                lab@),
        p < out.deep_view().len() ==> !impact_lt(start_hashes@, final_hashes@,
            out.deep_view()[p as int], lab@),
{
    let n = out.len();
    let mut p: usize = 0;
    while p < n
        invariant
            p <= n,
            n == out.deep_view().len(),
            start_hashes.wf(),
            final_hashes.wf(),
            forall|q: int|
                0 <= q < p ==> impact_lt(start_hashes@, final_hashes@,
                    #[trigger] out.deep_view()[q], lab@),
        decreases n - p,
    {
        proof {
            assert(out.deep_view()[p as int] == out@[p as int]@);
        }
        if !compare_by_type_then_label(out[p].as_str(), lab.as_str(), start_hashes, final_hashes) {
            return p;
        }
        p = p + 1;
    }
    p
}

/// The union of both key sets, without duplicates.
fn union_labels(start_hashes: &TargetHashes, final_hashes: &TargetHashes) -> (r: Vec<String>)
    requires
        start_hashes.wf(),
        final_hashes.wf(),
    ensures
        forall|p: int, q: int|
            0 <= p < q < r.deep_view().len() ==> r.deep_view()[p] != r.deep_view()[q],
        forall|l: Seq<char>| #[trigger]
            r.deep_view().contains(l) <==> (start_hashes@.contains_key(l)
                || final_hashes@.contains_key(l)),
{
    let mut all_labels = start_hashes.keys();
    proof {
        assert forall|p: int, q: int|
            0 <= p < q < all_labels.deep_view().len() implies all_labels.deep_view()[p]
            != all_labels.deep_view()[q] by {
            lemma_lex_lt_connected(all_labels.deep_view()[p], all_labels.deep_view()[q]);
        }
    }
    let fkeys = final_hashes.keys();
    let n = fkeys.len();
    let ghost fdv = fkeys.deep_view();
    proof {
        assert forall|p: int, q: int| 0 <= p < q < fdv.len() implies fdv[p] != fdv[q] by {
            lemma_lex_lt_connected(fdv[p], fdv[q]);
        }
        assert forall|p: int|
            0 <= p < all_labels.deep_view().len() implies start_hashes@.contains_key(
            #[trigger] all_labels.deep_view()[p],
        ) by {
            assert(all_labels.deep_view().contains(all_labels.deep_view()[p]));
        }
    }
    let mut i: usize = 0;
    while i < n
        invariant
            i <= n,
            n == fkeys.deep_view().len(),
            fdv == fkeys.deep_view(),
            start_hashes.wf(),
            forall|l: Seq<char>| #[trigger]
                fkeys.deep_view().contains(l) <==> final_hashes@.contains_key(l),
            forall|p: int, q: int| 0 <= p < q < fdv.len() ==> fdv[p] != fdv[q],
            forall|p: int, q: int|
                0 <= p < q < all_labels.deep_view().len() ==> all_labels.deep_view()[p]
                    != all_labels.deep_view()[q],
            forall|p: int|
                0 <= p < all_labels.deep_view().len() ==> (start_hashes@.contains_key(
                    #[trigger] all_labels.deep_view()[p],
                ) || (exists|j: int| 0 <= j < i && fdv[j] == all_labels.deep_view()[p])),
            forall|l: Seq<char>| #[trigger]
                all_labels.deep_view().contains(l) <==> (start_hashes@.contains_key(l) || (
                exists|j: int| 0 <= j < i && fdv[j] == l)),
        decreases n - i,
    {
        let ghost pre_dv = all_labels.deep_view();
        let ghost pre = all_labels@;
        if !start_hashes.contains_key(fkeys[i].as_str()) {
            all_labels.push(fkeys[i].clone());
            proof {
                assert(fdv.contains(fdv[i as int]));
                assert forall|j: int|
                    0 <= j < all_labels.deep_view().len() implies all_labels.deep_view()[j] == (
                if j < pre_dv.len() {
                    pre_dv[j]
                } else {
                    fdv[i as int]
                }) by {
                    assert(all_labels.deep_view()[j] == all_labels@[j].deep_view());
                    if j < pre_dv.len() {
                        assert(all_labels@[j] == pre[j]);
                        assert(pre_dv[j] == pre[j].deep_view());
                    }
                }
                assert forall|p: int, q: int|
                    0 <= p < q < all_labels.deep_view().len() implies all_labels.deep_view()[p]
                    != all_labels.deep_view()[q] by {
                    if q == all_labels.deep_view().len() - 1 {
                        if start_hashes@.contains_key(pre_dv[p]) {
                        } else {
                            let j = choose|j: int| 0 <= j < i && fdv[j] == pre_dv[p];
                        }
                    }
                }
                assert forall|l: Seq<char>| #[trigger]
                    all_labels.deep_view().contains(l) <==> (start_hashes@.contains_key(l) || (
                exists|j: int| 0 <= j < i + 1 && fdv[j] == l)) by {
                    if all_labels.deep_view().contains(l) {
                        let p = choose|p: int|
                            0 <= p < all_labels.deep_view().len() && all_labels.deep_view()[p]
                                == l;
                        if p < pre_dv.len() {
                            assert(pre_dv.contains(l));
                        }
                    }
                    if start_hashes@.contains_key(l) || (exists|j: int|
                        0 <= j < i + 1 && fdv[j] == l) {
                        if pre_dv.contains(l) {
                            let p = choose|p: int| 0 <= p < pre_dv.len() && pre_dv[p] == l;
                            assert(all_labels.deep_view()[p] == l);
                        } else {
                            assert(all_labels.deep_view()[pre_dv.len() as int] == l);
                        }
                    }
                }
            }
        } else {
            proof {
                assert forall|l: Seq<char>| #[trigger]
                    all_labels.deep_view().contains(l) <==> (start_hashes@.contains_key(l) || (
                exists|j: int| 0 <= j < i + 1 && fdv[j] == l)) by {
                    if !all_labels.deep_view().contains(l) && (exists|j: int|
                        0 <= j < i + 1 && fdv[j] == l) {
                        let j = choose|j: int| 0 <= j < i + 1 && fdv[j] == l;
                        assert(j == i);
                        assert(!start_hashes@.contains_key(l));
                    }
                }
            }
        }
        i = i + 1;
    }
    proof {
        assert forall|l: Seq<char>| #[trigger]
            all_labels.deep_view().contains(l) <==> (start_hashes@.contains_key(l)
                || final_hashes@.contains_key(l)) by {
            if final_hashes@.contains_key(l) {
                assert(fdv.contains(l));
                let j = choose|j: int| 0 <= j < fdv.len() && fdv[j] == l;
            }
            if exists|j: int| 0 <= j < n && fdv[j] == l {
                assert(fdv.contains(l));
            }
        }
    }
    all_labels
}

/// The set difference of two hash maps, filtered by kind when requested and
/// sorted strictly by (kind rank, label). A label is in the output exactly
/// when its raw hash differs between the sides (absence counting as a
/// difference) and it passes the filter; with a filter, every impacted
/// label must carry a kind prefix.
pub fn compute_impacted_targets(start_hashes: &TargetHashes, final_hashes: &TargetHashes,
    target_types: &Option<Vec<String>>) -> (r: Result<Vec<String>, DiffError>)
    requires
        start_hashes.wf(),
        final_hashes.wf(),
    ensures
        match r {
            Ok(v) => {
                &&& forall|l: Seq<char>| #[trigger]
                    v.deep_view().contains(l) <==> impacted_cond(
                        start_hashes@,
                        final_hashes@,
                        opt_strings_view(target_types),
                        l,
                    )
                &&& forall|p: int, q: int|
                    0 <= p < q < v.deep_view().len() ==> impact_lt(
                        start_hashes@,
                        final_hashes@,
                        v.deep_view()[p],
                        v.deep_view()[q],
                    )
                &&& (target_types is Some ==> forall|l: Seq<char>| #[trigger]
                    changed(start_hashes@, final_hashes@, l) ==> sel_hash(
                        start_hashes@,
                        final_hashes@,
                        l,
                    ).kind is Some)
            },
            Err(e) => {
                &&& target_types is Some
                &&& e matches DiffError::MissingTargetType(lab) && changed(
                    start_hashes@,
                    final_hashes@,
                    lab@,
                ) && sel_hash(start_hashes@, final_hashes@, lab@).kind is None
            },
        },
{
    let ghost sm = start_hashes@;
    let ghost fm = final_hashes@;
    let all_labels = union_labels(start_hashes, final_hashes);
    let ghost adv = all_labels.deep_view();

    let mut impacted: Vec<String> = Vec::new();
    let n = all_labels.len();
    let mut i: usize = 0;
    while i < n
        invariant
            i <= n,
            n == adv.len(),
            adv == all_labels.deep_view(),
            start_hashes.wf(),
            final_hashes.wf(),
            sm == start_hashes@,
            fm == final_hashes@,
            forall|p: int, q: int| 0 <= p < q < adv.len() ==> adv[p] != adv[q],
            forall|l: Seq<char>| #[trigger]
                adv.contains(l) <==> (sm.contains_key(l) || fm.contains_key(l)),
            forall|p: int, q: int|
                0 <= p < q < impacted.deep_view().len() ==> impacted.deep_view()[p]
                    != impacted.deep_view()[q],
            forall|p: int|
                0 <= p < impacted.deep_view().len() ==> exists|j: int|
                    0 <= j < i && adv[j] == #[trigger] impacted.deep_view()[p],
            forall|l: Seq<char>| #[trigger]
                impacted.deep_view().contains(l) <==> (changed(sm, fm, l) && exists|j: int|
                    0 <= j < i && adv[j] == l),
        decreases n - i,
    {
        let lab = &all_labels[i];
        proof {
            assert(adv[i as int] == lab@);
            assert(adv.contains(adv[i as int]));
        }
        let ch: bool = match (start_hashes.get(lab.as_str()), final_hashes.get(lab.as_str())) {
            (Some(a), Some(b)) => !str_eq(a.raw.as_str(), b.raw.as_str()),
            (None, None) => false,
            _ => true,
        };
        let ghost pre_dv = impacted.deep_view();
        let ghost pre = impacted@;
        if ch {
            impacted.push(lab.clone());
            proof {
                assert forall|j: int|
                    0 <= j < impacted.deep_view().len() implies impacted.deep_view()[j] == (
                if j < pre_dv.len() {
                    pre_dv[j]
                } else {
                    adv[i as int]
                }) by {
                    assert(impacted.deep_view()[j] == impacted@[j].deep_view());
                    if j < pre_dv.len() {
                        assert(impacted@[j] == pre[j]);
                        assert(pre_dv[j] == pre[j].deep_view());
                    }
                }
                assert forall|p: int, q: int|
                    0 <= p < q < impacted.deep_view().len() implies impacted.deep_view()[p]
                    != impacted.deep_view()[q] by {
                    if q == impacted.deep_view().len() - 1 {
                        let j = choose|j: int| 0 <= j < i && adv[j] == pre_dv[p];
                    }
                }
                assert forall|l: Seq<char>| #[trigger]
                    impacted.deep_view().contains(l) <==> (changed(sm, fm, l) && exists|j: int|
                        0 <= j < i + 1 && adv[j] == l) by {
                    if impacted.deep_view().contains(l) {
                        let p = choose|p: int|
                            0 <= p < impacted.deep_view().len() && impacted.deep_view()[p] == l;
                        if p < pre_dv.len() {
                            assert(pre_dv.contains(l));
                        }
                    }
                    if changed(sm, fm, l) && (exists|j: int| 0 <= j < i + 1 && adv[j] == l) {
                        if pre_dv.contains(l) {
                            let p = choose|p: int| 0 <= p < pre_dv.len() && pre_dv[p] == l;
                            assert(impacted.deep_view()[p] == l);
                        } else {
                            let j = choose|j: int| 0 <= j < i + 1 && adv[j] == l;
                            assert(j == i);
                            assert(impacted.deep_view()[pre_dv.len() as int] == l);
                        }
                    }
                }
            }
        } else {
            proof {
                assert forall|l: Seq<char>| #[trigger]
                    impacted.deep_view().contains(l) <==> (changed(sm, fm, l) && exists|j: int|
                        0 <= j < i + 1 && adv[j] == l) by {
                    if !impacted.deep_view().contains(l) && changed(sm, fm, l) && (exists|j: int|
                        0 <= j < i + 1 && adv[j] == l) {
                        let j = choose|j: int| 0 <= j < i + 1 && adv[j] == l;
                        assert(j == i);
                        assert(!changed(sm, fm, adv[i as int]));
                    }
                }
            }
        }
        i = i + 1;
    }
    proof {
        assert forall|l: Seq<char>| #[trigger]
            impacted.deep_view().contains(l) <==> (changed(sm, fm, l) && (sm.contains_key(l)
                || fm.contains_key(l))) by {
            if changed(sm, fm, l) && (sm.contains_key(l) || fm.contains_key(l)) {
                assert(adv.contains(l));
                let j = choose|j: int| 0 <= j < adv.len() && adv[j] == l;
            }
            if exists|j: int| 0 <= j < n && adv[j] == l {
                assert(adv.contains(l));
            }
        }
    }

    let selected: Vec<String>;
    match target_types {
        Some(filt) => {
            let mut filtered: Vec<String> = Vec::new();
            let m = impacted.len();
            let ghost idv = impacted.deep_view();
            let mut k: usize = 0;
            while k < m
                invariant
                    k <= m,
                    m == idv.len(),
                    idv == impacted.deep_view(),
                    target_types is Some,
                    opt_strings_view(target_types) == Some(filt.deep_view()),
                    start_hashes.wf(),
                    final_hashes.wf(),
                    sm == start_hashes@,
                    fm == final_hashes@,
                    forall|p: int, q: int| 0 <= p < q < idv.len() ==> idv[p] != idv[q],
                    forall|l: Seq<char>| #[trigger]
                        idv.contains(l) <==> (changed(sm, fm, l) && (sm.contains_key(l)
                            || fm.contains_key(l))),
                    forall|j: int| 0 <= j < k ==> sel_hash(sm, fm, #[trigger] idv[j]).kind is Some,
                    forall|p: int, q: int|
                        0 <= p < q < filtered.deep_view().len() ==> filtered.deep_view()[p]
                            != filtered.deep_view()[q],
                    forall|p: int|
                        0 <= p < filtered.deep_view().len() ==> exists|j: int|
                            0 <= j < k && idv[j] == #[trigger] filtered.deep_view()[p],
                    forall|l: Seq<char>| #[trigger]
                        filtered.deep_view().contains(l) <==> ((exists|j: int|
                            0 <= j < k && idv[j] == l) && passes_filter(sel_hash(sm, fm, l), filt.deep_view())),
                decreases m - k,
            {
                let lab = &impacted[k];
                proof {
                    assert(idv[k as int] == lab@);
                    assert(idv.contains(idv[k as int]));
                }
                let hash: &TargetHash = match target_hash_for_label(
                    lab.as_str(),
                    start_hashes,
                    final_hashes,
                ) {
                    Some(h) => h,
                    None => {
                        proof {
                            assert(false);
                        }
                        return Err(DiffError::MissingTargetType(lab.clone()));
                    },
                };
                let ghost pre_dv = filtered.deep_view();
                let ghost pre = filtered@;
                match hash.target_type() {
                    None => {
                        proof {
                            assert(idv.contains(lab@));
                            assert(changed(sm, fm, lab@));
                            assert(hash@ == sel_hash(sm, fm, lab@));
                            assert(sel_hash(sm, fm, lab@).kind is None);
                        }
                        return Err(DiffError::MissingTargetType(lab.clone()));
                    },
                    Some(t) => {
                        if contains_string(filt, t) {
                            filtered.push(lab.clone());
                            proof {
                                assert forall|j: int|
                                    0 <= j < filtered.deep_view().len()
                                        implies filtered.deep_view()[j] == (
                                if j < pre_dv.len() {
                                    pre_dv[j]
                                } else {
                                    idv[k as int]
                                }) by {
                                    assert(filtered.deep_view()[j] == filtered@[j].deep_view());
                                    if j < pre_dv.len() {
                                        assert(filtered@[j] == pre[j]);
                                        assert(pre_dv[j] == pre[j].deep_view());
                                    }
                                }
                                assert forall|p: int, q: int|
                                    0 <= p < q < filtered.deep_view().len()
                                        implies filtered.deep_view()[p]
                                    != filtered.deep_view()[q] by {
                                    if q == filtered.deep_view().len() - 1 {
                                        let j = choose|j: int|
                                            0 <= j < k && idv[j] == pre_dv[p];
                                    }
                                }
                                assert forall|l: Seq<char>| #[trigger]
                                    filtered.deep_view().contains(l) <==> ((exists|j: int|
                                        0 <= j < k + 1 && idv[j] == l) && passes_filter(sel_hash(sm, fm, l), filt.deep_view())) by {
                                    if filtered.deep_view().contains(l) {
                                        let p = choose|p: int|
                                            0 <= p < filtered.deep_view().len()
                                                && filtered.deep_view()[p] == l;
                                        if p < pre_dv.len() {
                                            assert(pre_dv.contains(l));
                                        }
                                    }
                                    if ((exists|j: int| 0 <= j < k + 1 && idv[j] == l)
                                        && passes_filter(sel_hash(sm, fm, l), filt.deep_view())) {
                                        if pre_dv.contains(l) {
                                            let p = choose|p: int|
                                                0 <= p < pre_dv.len() && pre_dv[p] == l;
                                            assert(filtered.deep_view()[p] == l);
                                        } else {
                                            let j = choose|j: int|
                                                0 <= j < k + 1 && idv[j] == l;
                                            assert(j == k);
                                            assert(filtered.deep_view()[pre_dv.len() as int]
                                                == l);
                                        }
                                    }
                                }
                            }
                        } else {
                            proof {
                                assert forall|l: Seq<char>| #[trigger]
                                    filtered.deep_view().contains(l) <==> ((exists|j: int|
                                        0 <= j < k + 1 && idv[j] == l) && passes_filter(sel_hash(sm, fm, l), filt.deep_view())) by {
                                    if !filtered.deep_view().contains(l) && ((exists|j: int|
                                        0 <= j < k + 1 && idv[j] == l) && passes_filter(sel_hash(sm, fm, l), filt.deep_view())) {
                                        let j = choose|j: int| 0 <= j < k + 1 && idv[j] == l;
                                        assert(j == k);
                                    }
                                }
                            }
                        }
                    },
                }
                k = k + 1;
            }
            proof {
                assert forall|l: Seq<char>| #[trigger]
                    changed(sm, fm, l) implies sel_hash(sm, fm, l).kind is Some by {
                    if changed(sm, fm, l) {
                        assert(idv.contains(l));
                        let j = choose|j: int| 0 <= j < idv.len() && idv[j] == l;
                    }
                }
                assert forall|l: Seq<char>| #[trigger]
                    filtered.deep_view().contains(l) <==> impacted_cond(
                        sm,
                        fm,
                        opt_strings_view(target_types),
                        l,
                    ) by {
                    if exists|j: int| 0 <= j < idv.len() && idv[j] == l {
                        assert(idv.contains(l));
                    }
                    if impacted_cond(sm, fm, opt_strings_view(target_types), l) {
                        assert(idv.contains(l));
                        let j = choose|j: int| 0 <= j < idv.len() && idv[j] == l;
                    }
                }
            }
            selected = filtered;
        },
        None => {
            proof {
                assert forall|l: Seq<char>| #[trigger]
                    impacted.deep_view().contains(l) <==> impacted_cond(
                        sm,
                        fm,
                        opt_strings_view(target_types),
                        l,
                    ) by {}
            }
            selected = impacted;
        },
    }

    let ghost sdv = selected.deep_view();
    let mut out: Vec<String> = Vec::new();
    let m2 = selected.len();
    let mut k2: usize = 0;
    while k2 < m2
        invariant
            k2 <= m2,
            m2 == sdv.len(),
            sdv == selected.deep_view(),
            start_hashes.wf(),
            final_hashes.wf(),
            sm == start_hashes@,
            fm == final_hashes@,
            forall|p: int, q: int| 0 <= p < q < sdv.len() ==> sdv[p] != sdv[q],
            forall|p: int, q: int|
                0 <= p < q < out.deep_view().len() ==> impact_lt(
                    sm,
                    fm,
                    out.deep_view()[p],
                    out.deep_view()[q],
                ),
            forall|l: Seq<char>| #[trigger]
                out.deep_view().contains(l) <==> (exists|j: int| 0 <= j < k2 && sdv[j] == l),
        decreases m2 - k2,
    {
        let lab = selected[k2].clone();
        proof {
            assert(lab@ == sdv[k2 as int]);
            assert(!out.deep_view().contains(lab@)) by {
                if out.deep_view().contains(lab@) {
                    let j = choose|j: int| 0 <= j < k2 && sdv[j] == lab@;
                }
            }
        }
        let p = insert_position(&out, &lab, start_hashes, final_hashes);
        let ghost pre_dv = out.deep_view();
        let ghost pre = out@;
        proof {
            if (p as int) < pre_dv.len() {
                assert(!impact_lt(sm, fm, pre_dv[p as int], lab@));
                assert(pre_dv.contains(pre_dv[p as int]));
                assert(pre_dv[p as int] != lab@);
                lemma_impact_lt_connected(sm, fm, pre_dv[p as int], lab@);
                assert(impact_lt(sm, fm, lab@, pre_dv[p as int]));
            }
        }
        out.insert(p, lab);
        proof {
            assert(out@ == pre.insert(p as int, out@[p as int]));
            assert forall|j: int|
                0 <= j < out.deep_view().len() implies out.deep_view()[j] == (
            if j < p {
                pre_dv[j]
            } else if j == p {
                sdv[k2 as int]
            } else {
                pre_dv[j - 1]
            }) by {
                assert(out.deep_view()[j] == out@[j].deep_view());
                if j < p {
                    assert(out@[j] == pre[j]);
                    assert(pre_dv[j] == pre[j].deep_view());
                } else if j > p {
                    assert(out@[j] == pre[j - 1]);
                    assert(pre_dv[j - 1] == pre[j - 1].deep_view());
                }
            }
            assert forall|a: int, b: int|
                0 <= a < b < out.deep_view().len() implies impact_lt(
                sm,
                fm,
                out.deep_view()[a],
                out.deep_view()[b],
            ) by {
                if b < p {
                    assert(impact_lt(sm, fm, pre_dv[a], pre_dv[b]));
                } else if a < p && b == p {
                    assert(impact_lt(sm, fm, pre_dv[a], lab@));
                } else if a < p && b > p {
                    assert(impact_lt(sm, fm, pre_dv[a], pre_dv[b - 1]));
                } else if a == p {
                    assert(impact_lt(sm, fm, lab@, pre_dv[p as int]));
                    if b - 1 > p {
                        assert(impact_lt(sm, fm, pre_dv[p as int], pre_dv[b - 1]));
                        lemma_impact_lt_trans(sm, fm, lab@, pre_dv[p as int], pre_dv[b - 1]);
                    }
                } else {
                    assert(impact_lt(sm, fm, pre_dv[a - 1], pre_dv[b - 1]));
                }
            }
            assert forall|l: Seq<char>| #[trigger]
                out.deep_view().contains(l) <==> (exists|j: int|
                    0 <= j < k2 + 1 && sdv[j] == l) by {
                if out.deep_view().contains(l) {
                    let j = choose|j: int|
                        0 <= j < out.deep_view().len() && out.deep_view()[j] == l;
                    if j != p {
                        assert(pre_dv.contains(l));
                        let j2 = choose|j2: int| 0 <= j2 < k2 && sdv[j2] == l;
                    } else {
                        assert(sdv[k2 as int] == l);
                    }
                }
                if exists|j: int| 0 <= j < k2 + 1 && sdv[j] == l {
                    let j = choose|j: int| 0 <= j < k2 + 1 && sdv[j] == l;
                    if j < k2 {
                        assert(pre_dv.contains(l));
                        let q = choose|q: int| 0 <= q < pre_dv.len() && pre_dv[q] == l;
                        if q < p {
                            assert(out.deep_view()[q] == l);
                        } else {
                            assert(out.deep_view()[q + 1] == l);
                        }
                    } else {
                        assert(out.deep_view()[p as int] == l);
                    }
                }
            }
        }
        k2 = k2 + 1;
    }
    proof {
        assert forall|l: Seq<char>| #[trigger]
            out.deep_view().contains(l) <==> sdv.contains(l) by {
            if sdv.contains(l) {
                let j = choose|j: int| 0 <= j < sdv.len() && sdv[j] == l;
            }
            if exists|j: int| 0 <= j < m2 && sdv[j] == l {
                assert(sdv.contains(l));
            }
        }
    }
    Ok(out)
}

/// Whether an impacted label changed in its own right or only through its
/// dependencies.
#[derive(Debug, Clone, Copy, PartialEq, Eq, Structural)]
pub enum ImpactKind {
    Direct,
    Indirect,
}

impl DeepView for ImpactKind {
    type V = ImpactKind;

    open spec fn deep_view(&self) -> ImpactKind {
        *self
    }
}

/// A hash lookup result as a view.
pub open spec fn opt_hash_view(h: Option<&TargetHash>) -> Option<HashParts> {
    match h {
        Some(x) => Some(x@),
        None => None,
    }
}

/// Classification of one label: direct when it is present on only one side
/// or the direct hashes differ or are absent; indirect when both sides have
/// the same direct hash and only the overall hash moved.
pub open spec fn classify_spec(s: Option<HashParts>, f: Option<HashParts>) -> ImpactKind {
    match (s, f) {
        (Some(a), Some(b)) => match (a.direct, b.direct) {
            (Some(x), Some(y)) => if x == y {
                ImpactKind::Indirect
            } else {
                ImpactKind::Direct
            },
            _ => ImpactKind::Direct,
        },
        _ => ImpactKind::Direct,
    }
}

/// The kind map over a list of impacted labels.
pub open spec fn kinds_of(sm: Map<Seq<char>, HashParts>, fm: Map<Seq<char>, HashParts>,
    labels: Seq<Seq<char>>) -> Map<Seq<char>, ImpactKind> {
    Map::new(
        |l: Seq<char>| labels.contains(l),
        |l: Seq<char>| classify_spec(map_get(sm, l), map_get(fm, l)),
    )
}

/// One package hop when the dependency lies in another package.
pub open spec fn pkg_cost(a: Seq<char>, b: Seq<char>) -> int {
    if package_of(a) != package_of(b) {
        1
    } else {
        0
    }
}

/// What one memo entry promises: a direct label is at distance zero; an
/// indirect label's distances are the componentwise minima, over its
/// impacted dependencies, of the dependency's distances plus one hop.
pub open spec fn memo_entry_ok(memo: Map<Seq<char>, (Seq<char>, int, int)>, kinds: Map<
    Seq<char>,
    ImpactKind,
>, edges: Map<Seq<char>, Seq<Seq<char>>>, l: Seq<char>) -> bool {
    &&& kinds.contains_key(l)
    &&& memo[l].0 == l
    &&& 0 <= memo[l].2 <= memo[l].1 < memo.dom().len()
    &&& (kinds[l] == ImpactKind::Direct ==> memo[l].1 == 0 && memo[l].2 == 0)
    &&& (kinds[l] == ImpactKind::Indirect ==> {
        &&& edges.contains_key(l)
        &&& forall|j: int|
            0 <= j < edges[l].len() && kinds.contains_key(#[trigger] edges[l][j])
                ==> memo.contains_key(edges[l][j]) && memo[l].1 <= memo[edges[l][j]].1 + 1
                && memo[l].2 <= memo[edges[l][j]].2 + pkg_cost(l, edges[l][j])
        &&& (exists|j: int|
            0 <= j < edges[l].len() && kinds.contains_key(#[trigger] edges[l][j])
                && memo.contains_key(edges[l][j]) && memo[l].1 == memo[edges[l][j]].1 + 1)
        &&& (exists|j: int|
            0 <= j < edges[l].len() && kinds.contains_key(#[trigger] edges[l][j])
                && memo.contains_key(edges[l][j]) && memo[l].2 == memo[edges[l][j]].2 + pkg_cost(
                l,
                edges[l][j],
            ))
    })
}

/// The distance memo is consistent throughout.
pub open spec fn memo_ok(memo: Map<Seq<char>, (Seq<char>, int, int)>, kinds: Map<
    Seq<char>,
    ImpactKind,
>, edges: Map<Seq<char>, Seq<Seq<char>>>) -> bool {
    &&& memo.dom().finite()
    &&& forall|l: Seq<char>| #[trigger]
        memo.contains_key(l) ==> memo_entry_ok(memo, kinds, edges, l)
}

/// The triangle inequality of distances: an indirect label's target
/// distance is at most one more than that of any of its impacted
/// dependencies.
pub proof fn lemma_distance_triangle(memo: Map<Seq<char>, (Seq<char>, int, int)>, kinds: Map<
    Seq<char>,
    ImpactKind,
>, edges: Map<Seq<char>, Seq<Seq<char>>>, l: Seq<char>, j: int)
    requires
        memo_ok(memo, kinds, edges),
        memo.contains_key(l),
        kinds[l] == ImpactKind::Indirect,
        0 <= j < edges[l].len(),
        kinds.contains_key(edges[l][j]),
    ensures
        memo.contains_key(edges[l][j]),
        memo[l].1 <= memo[edges[l][j]].1 + 1,
        memo[l].2 <= memo[edges[l][j]].2 + pkg_cost(l, edges[l][j]),
{
    assert(memo_entry_ok(memo, kinds, edges, l));
}

/// Inserting a fresh, consistent entry keeps the memo consistent.
pub proof fn lemma_memo_ok_insert(memo: Map<Seq<char>, (Seq<char>, int, int)>, kinds: Map<
    Seq<char>,
    ImpactKind,
>, edges: Map<Seq<char>, Seq<Seq<char>>>, k: Seq<char>, v: (Seq<char>, int, int))
    requires
        memo_ok(memo, kinds, edges),
        !memo.contains_key(k),
        memo_entry_ok(memo.insert(k, v), kinds, edges, k),
    ensures
        memo_ok(memo.insert(k, v), kinds, edges),
{
    let m2 = memo.insert(k, v);
    assert(m2.dom() =~= memo.dom().insert(k));
    assert(memo.dom().len() < m2.dom().len());
    assert forall|l: Seq<char>| #[trigger]
        m2.contains_key(l) implies memo_entry_ok(m2, kinds, edges, l) by {
        if l != k {
            assert(memo_entry_ok(memo, kinds, edges, l));
            assert(m2[l] == memo[l]);
            if kinds[l] == ImpactKind::Indirect {
                assert forall|j: int|
                    0 <= j < edges[l].len() && kinds.contains_key(#[trigger] edges[l][j])
                        implies m2.contains_key(edges[l][j]) && m2[l].1 <= m2[edges[l][j]].1 + 1
                        && m2[l].2 <= m2[edges[l][j]].2 + pkg_cost(l, edges[l][j]) by {
                    assert(memo.contains_key(edges[l][j]));
                    assert(m2[edges[l][j]] == memo[edges[l][j]]);
                }
                let j1 = choose|j: int|
                    0 <= j < edges[l].len() && kinds.contains_key(#[trigger] edges[l][j])
                        && memo.contains_key(edges[l][j]) && memo[l].1 == memo[edges[l][j]].1 + 1;
                assert(m2[edges[l][j1]] == memo[edges[l][j1]]);
                let j2 = choose|j: int|
                    0 <= j < edges[l].len() && kinds.contains_key(#[trigger] edges[l][j])
                        && memo.contains_key(edges[l][j]) && memo[l].2 == memo[edges[l][j]].2
                        + pkg_cost(l, edges[l][j]);
                assert(m2[edges[l][j2]] == memo[edges[l][j2]]);
            }
        }
    }
}

/// One step of the distance walk: an indirect impacted label to one of
/// its impacted dependencies.
pub open spec fn impact_step(kinds: Map<Seq<char>, ImpactKind>, edges: Map<
    Seq<char>,
    Seq<Seq<char>>,
>, a: Seq<char>, b: Seq<char>) -> bool {
    &&& kinds.contains_key(a)
    &&& kinds[a] == ImpactKind::Indirect
    &&& edges.contains_key(a)
    &&& edges[a].contains(b)
    &&& kinds.contains_key(b)
}

/// A closed walk along impact steps: a cycle among indirect impacted
/// labels.
pub open spec fn impact_cycle(kinds: Map<Seq<char>, ImpactKind>, edges: Map<
    Seq<char>,
    Seq<Seq<char>>,
>, p: Seq<Seq<char>>) -> bool {
    &&& p.len() >= 2
    &&& p[0] == p[p.len() - 1]
    &&& forall|i: int|
        0 <= i < p.len() - 1 ==> impact_step(kinds, edges, #[trigger] p[i], p[i + 1])
}

/// The condition under which each distance error is returned: an indirect
/// label without a dep-edges entry, an indirect label whose entry holds no
/// impacted dependency, or a cycle among indirect impacted labels. No
/// other error occurs, so distances exist whenever none of these holds.
pub open spec fn distance_err_cond(kinds: Map<Seq<char>, ImpactKind>, edges: Map<
    Seq<char>,
    Seq<Seq<char>>,
>, e: DiffError) -> bool {
    match e {
        DiffError::IndirectWithoutDepGraph(l) => kinds.contains_key(l@) && kinds[l@]
            == ImpactKind::Indirect && !edges.contains_key(l@),
        DiffError::IndirectWithoutImpactedDep(l) => kinds.contains_key(l@) && kinds[l@]
            == ImpactKind::Indirect && edges.contains_key(l@) && (forall|q: int|
            0 <= q < edges[l@].len() ==> !kinds.contains_key(#[trigger] edges[l@][q])),
        DiffError::CycleInImpactGraph(_) => exists|p: Seq<Seq<char>>|
            impact_cycle(kinds, edges, p),
        _ => false,
    }
}

/// A field-for-field copy of a distance record.
fn copy_distance(d: &ImpactedTargetDistance) -> (r: ImpactedTargetDistance)
    ensures
        r.deep_view() == d.deep_view(),
{
    ImpactedTargetDistance {
        label: d.label.clone(),
        target_distance: d.target_distance,
        package_distance: d.package_distance,
    }
}

/// The recursive distance walk for one label: a direct label is at
/// distance zero; an indirect one takes the componentwise minimum over its
/// impacted dependencies of their distances plus one hop. Results are
/// memoized; a revisit of a label on the current walk is a cycle.
fn calculate_distance(label: &String, dep_edges: &DependencyEdges,
    impacted_kinds: &crate::smap::SortedMap<ImpactKind>,
    memo: &mut crate::smap::SortedMap<ImpactedTargetDistance>, visiting: &mut Vec<String>,
    fuel: Ghost<int>) -> (r: Result<ImpactedTargetDistance, DiffError>)
    requires
        fuel@ == impacted_kinds.entries@.len() - old(visiting)@.len(),
        0 <= fuel@,
        dep_edges.wf(),
        impacted_kinds.wf(),
        old(memo).wf(),
        memo_ok(old(memo)@, impacted_kinds@, dep_edges@),
        old(visiting).deep_view().no_duplicates(),
        forall|i: int|
            0 <= i < old(visiting).deep_view().len() ==> impacted_kinds@.contains_key(
                #[trigger] old(visiting).deep_view()[i],
            ),
        forall|l: Seq<char>| #[trigger]
            old(memo)@.contains_key(l) ==> !old(visiting).deep_view().contains(l),
        impacted_kinds@.contains_key(label@),
        forall|i: int|
            0 <= i < old(visiting).deep_view().len() - 1 ==> impact_step(
                impacted_kinds@,
                dep_edges@,
                #[trigger] old(visiting).deep_view()[i],
                old(visiting).deep_view()[i + 1],
            ),
        old(visiting).deep_view().len() > 0 ==> impact_step(
            impacted_kinds@,
            dep_edges@,
            old(visiting).deep_view().last(),
            label@,
        ),
    ensures
        final(memo).wf(),
        memo_ok(final(memo)@, impacted_kinds@, dep_edges@),
        forall|l: Seq<char>| #[trigger]
            old(memo)@.contains_key(l) ==> final(memo)@.contains_key(l) && final(memo)@[l] == old(
                memo,
            )@[l],
        match r {
            Ok(d) => {
                &&& final(visiting).deep_view() == old(visiting).deep_view()
                &&& final(memo)@.contains_key(label@)
                &&& final(memo)@[label@] == d.deep_view()
                &&& forall|l: Seq<char>| #[trigger]
                    final(memo)@.contains_key(l) ==> !final(visiting).deep_view().contains(l)
            },
            Err(e) => distance_err_cond(impacted_kinds@, dep_edges@, e),
        },
    decreases fuel@,
{
    proof {
        impacted_kinds.lemma_keys_unique();
        crate::smap::lemma_entries_map_card(impacted_kinds.entries@);
    }
    match memo.get(label.as_str()) {
        Some(cached) => {
            return Ok(copy_distance(cached));
        },
        None => {},
    }
    if contains_string(visiting, label.as_str()) {
        proof {
            let vdv = visiting.deep_view();
            let j = choose|j: int| 0 <= j < vdv.len() && vdv[j] == label@;
            let p = vdv.skip(j).push(label@);
            assert(impact_cycle(impacted_kinds@, dep_edges@, p)) by {
                assert(p.len() == vdv.len() - j + 1);
                assert(vdv.skip(j)[0] == vdv[j]);
                assert(p[0] == vdv[j]);
                assert(p[p.len() - 1] == label@);
                assert forall|i: int|
                    0 <= i < p.len() - 1 implies impact_step(
                    impacted_kinds@,
                    dep_edges@,
                    #[trigger] p[i],
                    p[i + 1],
                ) by {
                    assert(p[i] == vdv.skip(j)[i]);
                    assert(vdv.skip(j)[i] == vdv[j + i]);
                    if i < p.len() - 2 {
                        assert(p[i + 1] == vdv.skip(j)[i + 1]);
                        assert(vdv.skip(j)[i + 1] == vdv[j + i + 1]);
                        assert(impact_step(
                            impacted_kinds@,
                            dep_edges@,
                            vdv[j + i],
                            vdv[j + i + 1],
                        ));
                    } else {
                        assert(j + i == vdv.len() - 1);
                        assert(p[i + 1] == label@);
                        assert(impact_step(impacted_kinds@, dep_edges@, vdv.last(), label@));
                    }
                }
            }
        }
        return Err(DiffError::CycleInImpactGraph(label.clone()));
    }
    let ghost pre_visiting = visiting.deep_view();
    let ghost pre_memo = memo@;
    crate::strutil::push_string(visiting, label.clone());
    proof {
        assert(visiting.deep_view() == pre_visiting.push(label@));
        assert forall|i: int|
            0 <= i < visiting.deep_view().len() implies impacted_kinds@.contains_key(
            #[trigger] visiting.deep_view()[i],
        ) by {
            if i < pre_visiting.len() {
                assert(visiting.deep_view()[i] == pre_visiting[i]);
            }
        }
        assert(visiting.deep_view().no_duplicates()) by {
            assert(!pre_visiting.contains(label@));
        }
        assert forall|l: Seq<char>| #[trigger]
            memo@.contains_key(l) implies !visiting.deep_view().contains(l) by {
            if visiting.deep_view().contains(l) {
                let i = choose|i: int|
                    0 <= i < visiting.deep_view().len() && visiting.deep_view()[i] == l;
                if i < pre_visiting.len() {
                    assert(pre_visiting.contains(l));
                } else {
                    assert(l == label@);
                }
            }
        }
        assert forall|q: int|
            0 <= q < visiting.deep_view().len() - 1 implies impact_step(
            impacted_kinds@,
            dep_edges@,
            #[trigger] visiting.deep_view()[q],
            visiting.deep_view()[q + 1],
        ) by {
            if q < pre_visiting.len() - 1 {
                assert(visiting.deep_view()[q] == pre_visiting[q]);
                assert(visiting.deep_view()[q + 1] == pre_visiting[q + 1]);
            } else {
                assert(q == pre_visiting.len() - 1);
                assert(visiting.deep_view()[q] == pre_visiting.last());
                assert(visiting.deep_view()[q + 1] == label@);
            }
        }
        // the new stack is still within the key set, so the measure stays
        // nonnegative
        let vdv = visiting.deep_view();
        vdv.unique_seq_to_set();
        assert forall|l: Seq<char>| #[trigger]
            vdv.to_set().contains(l) implies impacted_kinds@.dom().contains(l) by {
            let i = choose|i: int| 0 <= i < vdv.len() && vdv[i] == l;
        }
        vstd::set_lib::lemma_len_subset(vdv.to_set(), impacted_kinds@.dom());
        assert(visiting@.len() <= impacted_kinds.entries@.len());
    }
    let kind: ImpactKind = match impacted_kinds.get(label.as_str()) {
        Some(k) => *k,
        None => {
            proof {
                assert(false);
            }
            ImpactKind::Direct
        },
    };
    let ghost kinds = impacted_kinds@;
    let ghost edges = dep_edges@;
    let result: ImpactedTargetDistance;
    match kind {
        ImpactKind::Direct => {
            result = ImpactedTargetDistance {
                label: label.clone(),
                target_distance: 0,
                package_distance: 0,
            };
        },
        ImpactKind::Indirect => {
            let deps: &Vec<String> = match dep_edges.get(label.as_str()) {
                Some(d) => d,
                None => {
                    proof {
                        assert(kinds[label@] == ImpactKind::Indirect);
                        assert(!edges.contains_key(label@));
                    }
                    return Err(DiffError::IndirectWithoutDepGraph(label.clone()));
                },
            };
            proof {
                memo.lemma_keys_unique();
                crate::smap::lemma_entries_map_card(memo.entries@);
            }
            let ghost ddv = deps.deep_view();
            let dn = deps.len();
            let mut best_t: usize = 0;
            let mut best_p: usize = 0;
            let mut found = false;
            let mut j: usize = 0;
            while j < dn
                invariant
                    j <= dn,
                    dn == ddv.len(),
                    ddv == deps.deep_view(),
                    dep_edges.wf(),
                    impacted_kinds.wf(),
                    kinds == impacted_kinds@,
                    edges == dep_edges@,
                    memo.wf(),
                    memo_ok(memo@, kinds, edges),
                    memo@.dom().len() == memo.entries@.len(),
                    visiting.deep_view().no_duplicates(),
                    forall|i: int|
                        0 <= i < visiting.deep_view().len() ==> kinds.contains_key(
                            #[trigger] visiting.deep_view()[i],
                        ),
                    forall|l: Seq<char>| #[trigger]
                        memo@.contains_key(l) ==> !visiting.deep_view().contains(l),
                    forall|l: Seq<char>| #[trigger]
                        pre_memo.contains_key(l) ==> memo@.contains_key(l) && memo@[l]
                            == pre_memo[l],
                    visiting.deep_view() == pre_visiting.push(label@),
                    visiting@.len() == pre_visiting.len() + 1,
                    visiting@.len() <= impacted_kinds.entries@.len(),
                    fuel@ == impacted_kinds.entries@.len() - pre_visiting.len(),
                    pre_memo == old(memo)@,
                    pre_visiting == old(visiting).deep_view(),
                    kinds.contains_key(label@),
                    kinds[label@] == ImpactKind::Indirect,
                    edges.contains_key(label@),
                    edges[label@] == ddv,
                    !memo@.contains_key(label@),
                    forall|q: int|
                        0 <= q < visiting.deep_view().len() - 1 ==> impact_step(
                            kinds,
                            edges,
                            #[trigger] visiting.deep_view()[q],
                            visiting.deep_view()[q + 1],
                        ),
                    forall|q: int|
                        0 <= q < j && kinds.contains_key(#[trigger] ddv[q]) ==> memo@.contains_key(
                            ddv[q],
                        ),
                    found ==> (exists|q: int|
                        0 <= q < j && kinds.contains_key(#[trigger] ddv[q])
                            && memo@.contains_key(ddv[q]) && best_t == memo@[ddv[q]].1 + 1),
                    found ==> (exists|q: int|
                        0 <= q < j && kinds.contains_key(#[trigger] ddv[q])
                            && memo@.contains_key(ddv[q]) && best_p == memo@[ddv[q]].2 + pkg_cost(
                            label@,
                            ddv[q],
                        )),
                    found ==> forall|q: int|
                        0 <= q < j && kinds.contains_key(#[trigger] ddv[q]) ==> best_t
                            <= memo@[ddv[q]].1 + 1 && best_p <= memo@[ddv[q]].2 + pkg_cost(
                            label@,
                            ddv[q],
                        ),
                    !found ==> forall|q: int|
                        0 <= q < j ==> !kinds.contains_key(#[trigger] ddv[q]),
                decreases dn - j,
            {
                let dep = &deps[j];
                proof {
                    assert(dep@ == ddv[j as int]);
                }
                if impacted_kinds.contains_key(dep.as_str()) {
                    let ghost memo_before = memo@;
                    proof {
                        assert(visiting@.len() == pre_visiting.len() + 1);
                        assert(visiting.deep_view().last() == label@);
                        assert(edges[label@].contains(dep@)) by {
                            assert(ddv[j as int] == dep@);
                        }
                        assert(impact_step(kinds, edges, label@, dep@));
                    }
                    let dd = match calculate_distance(dep, dep_edges, impacted_kinds, memo,
                        visiting, Ghost(fuel@ - 1)) {
                        Ok(d) => d,
                        Err(e) => {
                            return Err(e);
                        },
                    };
                    proof {
                        memo.lemma_keys_unique();
                        crate::smap::lemma_entries_map_card(memo.entries@);
                        assert(visiting@.len() == visiting.deep_view().len());
                        assert(visiting.deep_view().contains(label@)) by {
                            assert(visiting.deep_view()[pre_visiting.len() as int] == label@);
                        }
                        assert(!memo@.contains_key(label@));
                        assert(memo@.contains_key(dep@));
                        assert(memo_entry_ok(memo@, kinds, edges, dep@));
                        assert(dd.deep_view() == memo@[dep@]);
                        assert(dd.target_distance < memo@.dom().len());
                    }
                    let crosses = !str_eq(
                        crate::labels::package_segment(label.as_str()),
                        crate::labels::package_segment(dep.as_str()),
                    );
                    let t = dd.target_distance + 1;
                    let p = dd.package_distance + (if crosses {
                        1
                    } else {
                        0
                    });
                    proof {
                        assert(t as int == memo@[dep@].1 + 1);
                        assert(p as int == memo@[dep@].2 + pkg_cost(label@, dep@));
                    }
                    if !found {
                        found = true;
                        best_t = t;
                        best_p = p;
                    } else {
                        if t < best_t {
                            best_t = t;
                        }
                        if p < best_p {
                            best_p = p;
                        }
                    }
                }
                j = j + 1;
            }
            if !found {
                return Err(DiffError::IndirectWithoutImpactedDep(label.clone()));
            }
            result = ImpactedTargetDistance {
                label: label.clone(),
                target_distance: best_t,
                package_distance: best_p,
            };
        },
    }
    let ghost memo_end = memo@;
    crate::strutil::pop_string(visiting);
    proof {
        assert(visiting.deep_view() =~= pre_visiting);
    }
    let stored = copy_distance(&result);
    proof {
        memo.lemma_keys_unique();
        crate::smap::lemma_entries_map_card(memo.entries@);
        let m2 = memo_end.insert(label@, result.deep_view());
        assert(m2.dom() =~= memo_end.dom().insert(label@));
        assert(memo_entry_ok(m2, kinds, edges, label@)) by {
            if kinds[label@] == ImpactKind::Indirect {
                let q1 = choose|q: int|
                    0 <= q < edges[label@].len() && kinds.contains_key(
                        #[trigger] edges[label@][q],
                    ) && memo_end.contains_key(edges[label@][q]) && result.deep_view().1
                        == memo_end[edges[label@][q]].1 + 1;
                let q2 = choose|q: int|
                    0 <= q < edges[label@].len() && kinds.contains_key(
                        #[trigger] edges[label@][q],
                    ) && memo_end.contains_key(edges[label@][q]) && result.deep_view().2
                        == memo_end[edges[label@][q]].2 + pkg_cost(label@, edges[label@][q]);
                assert(memo_entry_ok(memo_end, kinds, edges, edges[label@][q1]));
                assert(memo_entry_ok(memo_end, kinds, edges, edges[label@][q2]));
                assert forall|q: int|
                    0 <= q < edges[label@].len() && kinds.contains_key(
                        #[trigger] edges[label@][q],
                    ) implies m2.contains_key(edges[label@][q]) && m2[label@].1
                    <= m2[edges[label@][q]].1 + 1 && m2[label@].2 <= m2[edges[label@][q]].2
                    + pkg_cost(label@, edges[label@][q]) by {
                    assert(memo_end.contains_key(edges[label@][q]));
                    assert(m2[edges[label@][q]] == memo_end[edges[label@][q]]);
                }
            }
        }
        lemma_memo_ok_insert(memo_end, kinds, edges, label@, result.deep_view());
    }
    memo.insert(label.clone(), stored);
    proof {
        assert forall|l: Seq<char>| #[trigger]
            memo@.contains_key(l) implies !visiting.deep_view().contains(l) by {
            if l == label@ {
                assert(!pre_visiting.contains(label@));
            } else {
                assert(memo_end.contains_key(l));
            }
        }
    }
    Ok(result)
}

/// What the distance records of an impacted list promise: some consistent
/// memo assigns every listed label its record, in order.
pub open spec fn distances_valid(sm: Map<Seq<char>, HashParts>, fm: Map<Seq<char>, HashParts>,
    edges: Map<Seq<char>, Seq<Seq<char>>>, labels: Seq<Seq<char>>, ds: Seq<
    (Seq<char>, int, int),
>) -> bool {
    exists|memo: Map<Seq<char>, (Seq<char>, int, int)>|
        {
            &&& #[trigger] memo_ok(memo, kinds_of(sm, fm, labels), edges)
            &&& ds.len() == labels.len()
            &&& forall|i: int|
                0 <= i < labels.len() ==> memo.contains_key(#[trigger] labels[i]) && ds[i]
                    == memo[labels[i]]
        }
}

/// The distance records for an impacted list: each direct label at zero,
/// each indirect label at the minimum over its impacted dependencies of
/// their distance plus one hop.
pub fn compute_distances(start_hashes: &TargetHashes, final_hashes: &TargetHashes,
    dep_edges: &DependencyEdges, impacted: &Vec<String>) -> (r: Result<
    Vec<ImpactedTargetDistance>,
    DiffError,
>)
    requires
        start_hashes.wf(),
        final_hashes.wf(),
        dep_edges.wf(),
    ensures
        match r {
            Ok(v) => distances_valid(
                start_hashes@,
                final_hashes@,
                dep_edges@,
                impacted.deep_view(),
                v.deep_view(),
            ),
            Err(e) => distance_err_cond(
                kinds_of(start_hashes@, final_hashes@, impacted.deep_view()),
                dep_edges@,
                e,
            ),
        },
{
    let ghost sm = start_hashes@;
    let ghost fm = final_hashes@;
    let ghost idv = impacted.deep_view();
    let n = impacted.len();

    let mut kind_map: crate::smap::SortedMap<ImpactKind> = crate::smap::SortedMap::new();
    let mut i: usize = 0;
    while i < n
        invariant
            i <= n,
            n == idv.len(),
            idv == impacted.deep_view(),
            start_hashes.wf(),
            final_hashes.wf(),
            sm == start_hashes@,
            fm == final_hashes@,
            kind_map.wf(),
            forall|l: Seq<char>| #[trigger]
                kind_map@.contains_key(l) <==> (exists|j: int| 0 <= j < i && idv[j] == l),
            forall|l: Seq<char>| #[trigger]
                kind_map@.contains_key(l) ==> kind_map@[l] == classify_spec(
                    map_get(sm, l),
                    map_get(fm, l),
                ),
        decreases n - i,
    {
        let lab = &impacted[i];
        proof {
            assert(lab@ == idv[i as int]);
        }
        let kind = classify_impact(start_hashes.get(lab.as_str()), final_hashes.get(lab.as_str()));
        kind_map.insert(lab.clone(), kind);
        proof {
            assert forall|l: Seq<char>| #[trigger]
                kind_map@.contains_key(l) <==> (exists|j: int| 0 <= j < i + 1 && idv[j] == l) by {
                if kind_map@.contains_key(l) && l != idv[i as int] {
                    let j = choose|j: int| 0 <= j < i && idv[j] == l;
                    assert(0 <= j < i + 1 && idv[j] == l);
                }
                if exists|j: int| 0 <= j < i + 1 && idv[j] == l {
                    let j = choose|j: int| 0 <= j < i + 1 && idv[j] == l;
                    if j < i {
                        assert(kind_map@.contains_key(l));
                    }
                }
            }
        }
        i = i + 1;
    }
    proof {
        assert(kind_map@ =~= kinds_of(sm, fm, idv)) by {
            assert forall|l: Seq<char>| #[trigger]
                kind_map@.contains_key(l) <==> kinds_of(sm, fm, idv).contains_key(l) by {
                if idv.contains(l) {
                    let j = choose|j: int| 0 <= j < idv.len() && idv[j] == l;
                }
                if exists|j: int| 0 <= j < n && idv[j] == l {
                    assert(idv.contains(l));
                }
            }
        }
    }
    let ghost kinds = kind_map@;
    let ghost edges = dep_edges@;

    let mut memo: crate::smap::SortedMap<ImpactedTargetDistance> = crate::smap::SortedMap::new();
    let mut visiting: Vec<String> = Vec::new();
    let mut results: Vec<ImpactedTargetDistance> = Vec::new();
    let mut k: usize = 0;
    while k < n
        invariant
            k <= n,
            n == idv.len(),
            idv == impacted.deep_view(),
            dep_edges.wf(),
            kind_map.wf(),
            kinds == kind_map@,
            edges == dep_edges@,
            sm == start_hashes@,
            fm == final_hashes@,
            kinds == kinds_of(sm, fm, idv),
            memo.wf(),
            memo_ok(memo@, kinds, edges),
            visiting.deep_view() == Seq::<Seq<char>>::empty(),
            visiting@.len() == 0,
            forall|l: Seq<char>| #[trigger] kinds.contains_key(l) <==> idv.contains(l),
            results.deep_view().len() == k,
            forall|j: int|
                0 <= j < k ==> memo@.contains_key(#[trigger] idv[j]) && results.deep_view()[j]
                    == memo@[idv[j]],
        decreases n - k,
    {
        let lab = &impacted[k];
        proof {
            assert(lab@ == idv[k as int]);
            assert(idv.contains(idv[k as int]));
            assert(kinds.contains_key(lab@));
        }
        let ghost memo_before = memo@;
        let d = match calculate_distance(lab, dep_edges, &kind_map, &mut memo, &mut visiting,
            Ghost(kind_map.entries@.len() as int)) {
            Ok(d) => d,
            Err(e) => {
                return Err(e);
            },
        };
        let ghost pre_rdv = results.deep_view();
        let ghost pre_r = results@;
        results.push(d);
        proof {
            assert forall|j: int|
                0 <= j < results.deep_view().len() implies results.deep_view()[j] == (
            if j < pre_rdv.len() {
                pre_rdv[j]
            } else {
                memo@[idv[k as int]]
            }) by {
                assert(results.deep_view()[j] == results@[j].deep_view());
                if j < pre_rdv.len() {
                    assert(results@[j] == pre_r[j]);
                    assert(pre_rdv[j] == pre_r[j].deep_view());
                }
            }
            assert forall|j: int|
                0 <= j < k + 1 implies memo@.contains_key(#[trigger] idv[j])
                && results.deep_view()[j] == memo@[idv[j]] by {
                if j < k {
                    assert(memo_before.contains_key(idv[j]));
                }
            }
        }
        k = k + 1;
    }
    proof {
        assert(memo_ok(memo@, kinds_of(sm, fm, idv), edges));
        assert(distances_valid(sm, fm, edges, idv, results.deep_view()));
    }
    Ok(results)
}

/// The kind map over exactly the impacted labels, as the analysis
/// classifies them.
pub open spec fn impact_kinds(sm: Map<Seq<char>, HashParts>, fm: Map<Seq<char>, HashParts>,
    tf: Option<Seq<Seq<char>>>) -> Map<Seq<char>, ImpactKind> {
    Map::new(
        |l: Seq<char>| impacted_cond(sm, fm, tf, l),
        |l: Seq<char>| classify_spec(map_get(sm, l), map_get(fm, l)),
    )
}

/// The full impact analysis: the sorted impacted list, with distance
/// records when dependency edges are supplied.
pub fn get_impacted_targets(start_hashes: &TargetHashes, final_hashes: &TargetHashes,
    dep_edges: &Option<DependencyEdges>, target_types: &Option<Vec<String>>) -> (r: Result<
    ImpactedTargetsResult,
    DiffError,
>)
    requires
        start_hashes.wf(),
        final_hashes.wf(),
        dep_edges matches Some(d) ==> d.wf(),
    ensures
        match r {
            Ok(res) => {
                &&& forall|l: Seq<char>| #[trigger]
                    res.impacted.deep_view().contains(l) <==> impacted_cond(
                        start_hashes@,
                        final_hashes@,
                        opt_strings_view(target_types),
                        l,
                    )
                &&& forall|p: int, q: int|
                    0 <= p < q < res.impacted.deep_view().len() ==> impact_lt(
                        start_hashes@,
                        final_hashes@,
                        res.impacted.deep_view()[p],
                        res.impacted.deep_view()[q],
                    )
                &&& match dep_edges {
                    Some(de) => res.distances matches Some(ds) && distances_valid(
                        start_hashes@,
                        final_hashes@,
                        de@,
                        res.impacted.deep_view(),
                        ds.deep_view(),
                    ),
                    None => res.distances is None,
                }
            },
            Err(e) => match e {
                DiffError::MissingTargetType(lab) => target_types is Some && changed(
                    start_hashes@,
                    final_hashes@,
                    lab@,
                ) && sel_hash(start_hashes@, final_hashes@, lab@).kind is None,
                _ => dep_edges matches Some(de) && distance_err_cond(
                    impact_kinds(
                        start_hashes@,
                        final_hashes@,
                        opt_strings_view(target_types),
                    ),
                    de@,
                    e,
                ),
            },
        },
{
    let ghost tf = opt_strings_view(target_types);
    let impacted = match compute_impacted_targets(start_hashes, final_hashes, target_types) {
        Ok(v) => v,
        Err(e) => {
            return Err(e);
        },
    };
    match dep_edges {
        Some(de) => {
            let distances = match compute_distances(start_hashes, final_hashes, de, &impacted) {
                Ok(v) => v,
                Err(e) => {
                    proof {
                        let k1 = kinds_of(start_hashes@, final_hashes@, impacted.deep_view());
                        let k2 = impact_kinds(start_hashes@, final_hashes@, tf);
                        assert(k1 =~= k2) by {
                            assert(forall|l: Seq<char>| #[trigger]
                                impacted.deep_view().contains(l) <==> impacted_cond(
                                    start_hashes@,
                                    final_hashes@,
                                    tf,
                                    l,
                                ));
                        }
                    }
                    return Err(e);
                },
            };
            Ok(ImpactedTargetsResult { impacted, distances: Some(distances) })
        },
        None => Ok(ImpactedTargetsResult { impacted, distances: None }),
    }
}

/// Classifies one label from its two hash entries.
pub fn classify_impact(start_hash: Option<&TargetHash>, final_hash: Option<&TargetHash>) -> (r:
    ImpactKind)
    ensures
        r == classify_spec(opt_hash_view(start_hash), opt_hash_view(final_hash)),
{
    match (start_hash, final_hash) {
        (Some(a), Some(b)) => match (&a.direct_hash, &b.direct_hash) {
            (Some(x), Some(y)) => if str_eq(x.as_str(), y.as_str()) {
                ImpactKind::Indirect
            } else {
                ImpactKind::Direct
            },
            _ => ImpactKind::Direct,
        },
        _ => ImpactKind::Direct,
    }
}

} // verus!
