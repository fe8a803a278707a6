//! The rule hasher and the hash-engine driver: the recursive two-state
//! digest over the rule graph, with cycle detection and memoization, and
//! the per-run orchestration that produces the keyed fingerprint map.

use vstd::prelude::*;

use crate::digest::sha256;
use crate::digest::sha256_of;
use crate::digest::DigestBuilder;
use crate::digest::TargetDigest;
use crate::errors::DiffError;
use crate::graph::AttrView;
use crate::graph::BazelRule;
use crate::graph::RuleView;
use crate::labels::transform_rule_input;
use crate::labels::transform_spec;
use crate::smap::SortedMap;
use crate::source_hash::soft_digest_spec;
use crate::source_hash::SourceFileHasher;
use crate::source_hash::SourceHasherView;
use crate::strutil::contains_char;
use crate::strutil::contains_string;
use crate::strutil::starts_with;
use crate::strutil::str_bytes;

verus! {

/// The three digest parts of a rule at the specification level.
pub struct DigestTriple {
    pub direct: Seq<u8>,
    pub overall: Seq<u8>,
    pub deps: Seq<Seq<char>>,
}

/// Everything a rule digest depends on.
pub struct EngineView {
    pub rules: Map<Seq<char>, RuleView>,
    pub source_digests: Map<Seq<char>, Seq<u8>>,
    pub hasher: SourceHasherView,
    pub seed_hash: Seq<u8>,
    pub ignored: Seq<Seq<char>>,
    pub fine_grained: Seq<Seq<char>>,
    pub use_cquery: bool,
}

/// The attribute bytes fed into a rule's attribute signature, in declared
/// order, skipping ignored attribute names.
pub open spec fn attrs_input(attrs: Seq<AttrView>, ignored: Seq<Seq<char>>) -> Seq<u8>
    decreases attrs.len(),
{
    if attrs.len() == 0 {
        Seq::empty()
    } else {
        attrs_input(attrs.drop_last(), ignored) + (if ignored.contains(attrs.last().name) {
            Seq::<u8>::empty()
        } else {
            attrs.last().bytes
        })
    }
}

/// The bytes fed into a rule's attribute signature: class, name, optional
/// environment hash, then the attribute bytes.
pub open spec fn rule_attr_input(r: RuleView, ignored: Seq<Seq<char>>) -> Seq<u8> {
    str_bytes(r.rule_class) + str_bytes(r.name) + (match r.env_hash {
        Some(e) => str_bytes(e),
        None => Seq::<u8>::empty(),
    }) + attrs_input(r.attrs, ignored)
}

/// Mutating only an ignored attribute's bytes leaves the attribute
/// signature unchanged.
pub proof fn lemma_ignored_attr_no_effect(r1: RuleView, r2: RuleView, ignored: Seq<Seq<char>>,
    i: int)
    requires
        r1.name == r2.name,
        r1.rule_class == r2.rule_class,
        r1.env_hash == r2.env_hash,
        r1.attrs.len() == r2.attrs.len(),
        0 <= i < r1.attrs.len(),
        forall|j: int| 0 <= j < r1.attrs.len() && j != i ==> r1.attrs[j] == r2.attrs[j],
        r1.attrs[i].name == r2.attrs[i].name,
        ignored.contains(r1.attrs[i].name),
    ensures
        rule_attr_input(r1, ignored) == rule_attr_input(r2, ignored),
{
    lemma_attrs_input_ignored(r1.attrs, r2.attrs, ignored, i);
}

/// The attribute-fold ignores the bytes of ignored attributes.
pub proof fn lemma_attrs_input_ignored(a1: Seq<AttrView>, a2: Seq<AttrView>, ignored: Seq<
    Seq<char>,
>, i: int)
    requires
        a1.len() == a2.len(),
        0 <= i < a1.len(),
        forall|j: int| 0 <= j < a1.len() && j != i ==> a1[j] == a2[j],
        a1[i].name == a2[i].name,
        ignored.contains(a1[i].name),
    ensures
        attrs_input(a1, ignored) == attrs_input(a2, ignored),
    decreases a1.len(),
{
    if a1.len() > 0 {
        if i == a1.len() - 1 {
            assert(a1.drop_last() =~= a2.drop_last());
            assert(ignored.contains(a1.last().name));
            assert(ignored.contains(a2.last().name));
        } else {
            assert(forall|j: int|
                0 <= j < a1.len() - 1 && j != i ==> a1.drop_last()[j] == a2.drop_last()[j]);
            lemma_attrs_input_ignored(a1.drop_last(), a2.drop_last(), ignored, i);
            assert(a1.last() == a2.last());
        }
    }
}

/// Keeps the first occurrence of each element.
pub open spec fn dedup_spec(s: Seq<Seq<char>>) -> Seq<Seq<char>>
    decreases s.len(),
{
    if s.len() == 0 {
        Seq::empty()
    } else {
        let prefix = dedup_spec(s.drop_last());
        if s.drop_last().contains(s.last()) {
            prefix
        } else {
            prefix.push(s.last())
        }
    }
}

/// Deduplication keeps exactly the members it was given.
pub proof fn lemma_dedup_contains(s: Seq<Seq<char>>, x: Seq<char>)
    ensures
        dedup_spec(s).contains(x) <==> s.contains(x),
    decreases s.len(),
{
    if s.len() > 0 {
        lemma_dedup_contains(s.drop_last(), x);
        if s.contains(x) && !s.drop_last().contains(x) {
            let j = choose|j: int| 0 <= j < s.len() && s[j] == x;
            if j < s.len() - 1 {
                assert(s.drop_last()[j] == x);
            }
            assert(j == s.len() - 1);
            assert(dedup_spec(s).last() == x);
        }
        if dedup_spec(s).contains(x) {
            if s.drop_last().contains(x) {
                let j = choose|j: int| 0 <= j < s.len() - 1 && s.drop_last()[j] == x;
                assert(s[j] == x);
            } else {
                if !s.drop_last().contains(s.last()) {
                    let k = choose|k: int|
                        0 <= k < dedup_spec(s).len() && dedup_spec(s)[k] == x;
                    if k < dedup_spec(s).len() - 1 {
                        assert(dedup_spec(s.drop_last()).contains(x));
                    } else {
                        assert(x == s.last());
                        assert(s[s.len() - 1] == x);
                    }
                }
            }
        }
        if s.contains(x) && s.drop_last().contains(x) {
            assert(dedup_spec(s.drop_last()).contains(x));
            let k = choose|k: int|
                0 <= k < dedup_spec(s.drop_last()).len() && dedup_spec(s.drop_last())[k] == x;
            if s.drop_last().contains(s.last()) {
                assert(dedup_spec(s)[k] == x);
            } else {
                assert(dedup_spec(s)[k] == x);
            }
        }
    }
}

/// The rewritten raw rule inputs in configured mode.
pub open spec fn transformed_inputs(raw: Seq<Seq<char>>, fine: Seq<Seq<char>>) -> Seq<Seq<char>> {
    Seq::new(raw.len(), |i: int| transform_spec(raw[i], fine))
}

/// The effective input list of a rule: the raw inputs in unconfigured
/// mode; in configured mode, the configured inputs followed by the
/// rewritten raw inputs, first occurrence winning.
pub open spec fn effective_inputs(r: RuleView, use_cquery: bool, fine: Seq<Seq<char>>) -> Seq<
    Seq<char>,
> {
    if use_cquery {
        dedup_spec(r.configured_rule_inputs + transformed_inputs(r.rule_inputs, fine))
    } else {
        r.rule_inputs
    }
}

impl BazelRule {
    /// The rule's attribute signature: class, name, environment hash and
    /// the bytes of every non-ignored attribute, digested.
    pub fn digest(&self, ignored_attrs: &Vec<String>) -> (r: Vec<u8>)
        ensures
            r@ == sha256_of(rule_attr_input(self.deep_view(), ignored_attrs.deep_view())),
            r@.len() == 32,
    {
        let ghost rv = self.deep_view();
        let ghost ig = ignored_attrs.deep_view();
        let mut input: Vec<u8> = Vec::new();
        crate::source_hash::append_bytes(&mut input, &crate::strutil::bytes_of(
            self.rule_class.as_str(),
        ));
        crate::source_hash::append_bytes(&mut input, &crate::strutil::bytes_of(
            self.name.as_str(),
        ));
        match &self.skylark_environment_hash_code {
            Some(e) => {
                crate::source_hash::append_bytes(&mut input, &crate::strutil::bytes_of(
                    e.as_str(),
                ));
            },
            None => {},
        }
        let ghost base = input@;
        proof {
            assert(base =~= str_bytes(rv.rule_class) + str_bytes(rv.name) + (match rv.env_hash {
                Some(e) => str_bytes(e),
                None => Seq::<u8>::empty(),
            }));
        }
        let n = self.attributes.len();
        let mut i: usize = 0;
        proof {
            assert(rv.attrs.take(0) =~= Seq::<AttrView>::empty());
            assert(input@ =~= base + attrs_input(rv.attrs.take(0), ig));
        }
        while i < n
            invariant
                i <= n,
                n == self.attributes@.len(),
                rv == self.deep_view(),
                ig == ignored_attrs.deep_view(),
                rv.attrs.len() == n,
                input@ == base + attrs_input(rv.attrs.take(i as int), ig),
            decreases n - i,
        {
            proof {
                assert(rv.attrs.take(i + 1).drop_last() =~= rv.attrs.take(i as int));
                assert(rv.attrs.take(i + 1).last() == rv.attrs[i as int]);
                assert(rv.attrs[i as int] == self.attributes@[i as int].deep_view());
            }
            let attr = &self.attributes[i];
            if !contains_string(ignored_attrs, attr.name.as_str()) {
                crate::source_hash::append_bytes(&mut input, &attr.encoded);
                proof {
                    assert(input@ =~= base + (attrs_input(rv.attrs.take(i as int), ig)
                        + rv.attrs[i as int].bytes));
                }
            } else {
                proof {
                    assert(input@ =~= base + (attrs_input(rv.attrs.take(i as int), ig)
                        + Seq::<u8>::empty()));
                }
            }
            i = i + 1;
        }
        proof {
            assert(rv.attrs.take(n as int) =~= rv.attrs);
        }
        sha256(&input)
    }

    /// The effective input list of the rule.
    pub fn rule_inputs(&self, use_cquery: bool, fine_grained: &Vec<String>) -> (r: Vec<String>)
        ensures
            r.deep_view() == effective_inputs(
                self.deep_view(),
                use_cquery,
                fine_grained.deep_view(),
            ),
    {
        if !use_cquery {
            return crate::graph::copy_strings(&self.rule_inputs);
        }
        let ghost rv = self.deep_view();
        let ghost fine = fine_grained.deep_view();
        let ghost full = rv.configured_rule_inputs + transformed_inputs(rv.rule_inputs, fine);
        let mut combined: Vec<String> = Vec::new();
        let cn = self.configured_rule_inputs.len();
        let rn = self.rule_inputs.len();
        let mut i: usize = 0;
        proof {
            assert(full.take(0) =~= Seq::<Seq<char>>::empty());
            assert(combined.deep_view() =~= dedup_spec(full.take(0)));
        }
        while i < cn
            invariant
                i <= cn,
                cn == self.configured_rule_inputs@.len(),
                rn == self.rule_inputs@.len(),
                rv == self.deep_view(),
                fine == fine_grained.deep_view(),
                full == rv.configured_rule_inputs + transformed_inputs(rv.rule_inputs, fine),
                full.len() == cn + rn,
                combined.deep_view() == dedup_spec(full.take(i as int)),
            decreases cn - i,
        {
            proof {
                assert(full.take(i + 1).drop_last() =~= full.take(i as int));
                assert(full.take(i + 1).last() == full[i as int]);
                assert(full[i as int] == rv.configured_rule_inputs[i as int]);
                assert(rv.configured_rule_inputs[i as int] == self.configured_rule_inputs@[
                    i as int
                ]@);
                lemma_dedup_contains(full.take(i as int), full[i as int]);
            }
            let ci = &self.configured_rule_inputs[i];
            if !contains_string(&combined, ci.as_str()) {
                crate::strutil::push_string(&mut combined, ci.clone());
                proof {
                    assert(combined.deep_view() =~= dedup_spec(full.take(i + 1)));
                }
            } else {
                proof {
                    assert(combined.deep_view() =~= dedup_spec(full.take(i + 1)));
                }
            }
            i = i + 1;
        }
        let mut k: usize = 0;
        while k < rn
            invariant
                k <= rn,
                cn == self.configured_rule_inputs@.len(),
                rn == self.rule_inputs@.len(),
                rv == self.deep_view(),
                fine == fine_grained.deep_view(),
                full == rv.configured_rule_inputs + transformed_inputs(rv.rule_inputs, fine),
                full.len() == cn + rn,
                combined.deep_view() == dedup_spec(full.take(cn + k as int)),
            decreases rn - k,
        {
            proof {
                assert(full.take(cn + k + 1).drop_last() =~= full.take(cn + k as int));
                assert(full.take(cn + k + 1).last() == full[cn + k as int]);
                assert(full[cn + k as int] == transformed_inputs(rv.rule_inputs, fine)[k as int]);
                assert(transformed_inputs(rv.rule_inputs, fine)[k as int] == transform_spec(
                    rv.rule_inputs[k as int],
                    fine,
                ));
                assert(rv.rule_inputs[k as int] == self.rule_inputs@[k as int]@);
                lemma_dedup_contains(full.take(cn + k as int), full[cn + k as int]);
            }
            let t = transform_rule_input(self.rule_inputs[k].as_str(), fine_grained);
            if !contains_string(&combined, t.as_str()) {
                crate::strutil::push_string(&mut combined, t);
                proof {
                    assert(combined.deep_view() =~= dedup_spec(full.take(cn + k + 1)));
                }
            } else {
                proof {
                    assert(combined.deep_view() =~= dedup_spec(full.take(cn + k + 1)));
                }
            }
            k = k + 1;
        }
        proof {
            assert(full.take(cn + rn as int) =~= full);
        }
        combined
    }
}

/// The digest a source node's per-source seed mixes into.
pub open spec fn source_seed_input(s: crate::graph::SourceView) -> Seq<u8>
    decreases s.subincludes.len(),
{
    subincludes_input(s.name, s.subincludes, s.subincludes.len() as int)
}

/// The name bytes followed by the subinclude bytes, in order.
pub open spec fn subincludes_input(name: Seq<char>, subs: Seq<Seq<char>>, i: int) -> Seq<u8>
    decreases i,
{
    if i <= 0 {
        str_bytes(name)
    } else {
        subincludes_input(name, subs, i - 1) + str_bytes(subs[i - 1])
    }
}

/// What a label contributes as a source: its precomputed digest when the
/// engine has one, else the soft digest of the label, seed-mixed when the
/// label is a canonical external one.
pub open spec fn source_contribution(ev: EngineView, l: Seq<char>) -> Option<Seq<u8>> {
    if ev.source_digests.contains_key(l) {
        Some(ev.source_digests[l])
    } else {
        match soft_digest_spec(ev.hasher, l, Seq::empty()) {
            Some(d) => Some(
                if starts_with(l, seq!['@', '@']) && contains_char(l, '+') {
                    sha256_of(d + ev.seed_hash)
                } else {
                    d
                },
            ),
            None => None,
        }
    }
}

/// The digest of a rule, walking its effective inputs; `avail` holds the
/// labels the walk may still enter, so a revisit (a cycle) yields nothing.
pub open spec fn rule_digest_spec(ev: EngineView, l: Seq<char>, avail: Set<Seq<char>>) -> Option<
    DigestTriple,
>
    decreases avail.len(), 0int,
        when avail.finite()
{
    if !(ev.rules.contains_key(l) && avail.contains(l)) {
        None
    } else {
        let r = ev.rules[l];
        let inputs = effective_inputs(r, ev.use_cquery, ev.fine_grained);
        match inputs_fold(ev, l, inputs, avail.remove(l), inputs.len() as int) {
            None => None,
            Some(acc) => {
                let base = sha256_of(rule_attr_input(r, ev.ignored)) + ev.seed_hash;
                let direct = sha256_of(base + acc.0);
                let overall = sha256_of(acc.1 + direct);
                Some(DigestTriple { direct, overall, deps: acc.2 })
            },
        }
    }
}

/// Folds the first `i` inputs of a rule into the direct bytes, the
/// transitive bytes, and the recorded dependency labels.
pub open spec fn inputs_fold(ev: EngineView, self_l: Seq<char>, inputs: Seq<Seq<char>>,
    avail: Set<Seq<char>>, i: int) -> Option<(Seq<u8>, Seq<u8>, Seq<Seq<char>>)>
    decreases avail.len(), i,
        when avail.finite() && 0 <= i <= inputs.len()
{
    if i <= 0 {
        Some((Seq::empty(), Seq::empty(), Seq::empty()))
    } else {
        match inputs_fold(ev, self_l, inputs, avail, i - 1) {
            None => None,
            Some(acc) => {
                let x = inputs[i - 1];
                if ev.rules.contains_key(x) {
                    if x != self_l {
                        match rule_digest_spec(ev, x, avail) {
                            None => None,
                            Some(d) => Some(
                                (acc.0 + str_bytes(x), acc.1 + d.overall, acc.2.push(x)),
                            ),
                        }
                    } else {
                        Some((acc.0 + str_bytes(x), acc.1, acc.2))
                    }
                } else {
                    match source_contribution(ev, x) {
                        Some(sd) => Some((acc.0 + str_bytes(x) + sd, acc.1, acc.2)),
                        None => Some((acc.0 + str_bytes(x), acc.1, acc.2)),
                    }
                }
            },
        }
    }
}

/// Whether a stored digest carries the triple's values, with dependency
/// labels exactly when tracking is on.
pub open spec fn digest_matches(td: (Seq<u8>, Seq<u8>, Option<Seq<Seq<char>>>), t: DigestTriple,
    track: bool) -> bool {
    &&& td.0 == t.overall
    &&& td.1 == t.direct
    &&& (track ==> td.2 == Some(t.deps))
    &&& (!track ==> td.2 is None)
}

/// Whether a stored digest is the successful digest of `x` under `avail`.
pub open spec fn spec_digest_at(ev: EngineView, x: Seq<char>, avail: Set<Seq<char>>, td: (
    Seq<u8>,
    Seq<u8>,
    Option<Seq<Seq<char>>>,
), track: bool) -> bool {
    rule_digest_spec(ev, x, avail) matches Some(t) && digest_matches(td, t, track)
}

/// The rule-digest memo is consistent: each entry is the digest its label
/// has under every availability that leaves the memoized labels open.
pub open spec fn memo_inv(ev: EngineView, memo: Map<
    Seq<char>,
    (Seq<u8>, Seq<u8>, Option<Seq<Seq<char>>>),
>, track: bool) -> bool {
    forall|x: Seq<char>| #[trigger]
        memo.contains_key(x) ==> {
            &&& ev.rules.contains_key(x)
            &&& forall|avail: Set<Seq<char>>|
                avail.finite() && memo.dom() <= avail ==> #[trigger] spec_digest_at(
                    ev,
                    x,
                    avail,
                    memo[x],
                    track,
                )
        }
}

/// A field-for-field copy of a digest.
fn copy_digest(d: &TargetDigest) -> (r: TargetDigest)
    ensures
        r.deep_view() == d.deep_view(),
{
    TargetDigest {
        overall: crate::digest::clone_bytes(&d.overall),
        direct: crate::digest::clone_bytes(&d.direct),
        deps: match &d.deps {
            Some(v) => Some(crate::graph::copy_strings(v)),
            None => None,
        },
    }
}

/// The engine state a rule digest runs against.
pub struct RuleHasher<'a> {
    pub graph_rules: &'a SortedMap<BazelRule>,
    pub source_digests: &'a SortedMap<Vec<u8>>,
    pub source_hasher: &'a SourceFileHasher,
    pub seed_hash: &'a Vec<u8>,
    pub ignored_attrs: &'a Vec<String>,
    pub fine_grained: &'a Vec<String>,
    pub use_cquery: bool,
    pub track_dep_edges: bool,
}

impl<'a> RuleHasher<'a> {
    pub open spec fn wf(&self) -> bool {
        &&& self.graph_rules.wf()
        &&& self.source_digests.wf()
        &&& self.source_hasher.wf()
        &&& forall|l: Seq<char>| #[trigger]
            self.graph_rules@.contains_key(l) ==> self.graph_rules@[l].name == l
    }

    /// The spec-level view of this state.
    pub open spec fn ev(&self) -> EngineView {
        EngineView {
            rules: self.graph_rules@,
            source_digests: self.source_digests@,
            hasher: self.source_hasher.view_spec(),
            seed_hash: self.seed_hash@,
            ignored: self.ignored_attrs.deep_view(),
            fine_grained: self.fine_grained.deep_view(),
            use_cquery: self.use_cquery,
        }
    }

    /// The source contribution of an input label, when it has one.
    fn source_input_digest(&self, label: &str) -> (r: Option<Vec<u8>>)
        requires
            self.wf(),
        ensures
            match r {
                Some(d) => source_contribution(self.ev(), label@) == Some(d@),
                None => source_contribution(self.ev(), label@) is None,
            },
    {
        match self.source_digests.get(label) {
            Some(d) => Some(crate::digest::clone_bytes(d)),
            None => {
                let empty_seed: Vec<u8> = Vec::new();
                match self.source_hasher.soft_digest(label, &empty_seed) {
                    Some(heuristic) => {
                        let canonical = crate::strutil::starts_with_str(label, "@@")
                            && crate::strutil::contains_char_exec(label, '+');
                        proof {
                            reveal_strlit("@@");
                            assert("@@"@ =~= seq!['@', '@']);
                        }
                        if canonical {
                            let mut mixed = crate::digest::clone_bytes(&heuristic);
                            crate::source_hash::append_bytes(&mut mixed, self.seed_hash);
                            Some(sha256(&mixed))
                        } else {
                            Some(heuristic)
                        }
                    },
                    None => None,
                }
            },
        }
    }

    /// The recursive rule digest: attribute signature and seed into the
    /// direct state, then each effective input in order; rule dependencies
    /// recurse and feed the transitive state. A revisit on the current
    /// walk is a circular dependency.
    pub fn digest(&self, rule: &BazelRule, memo: &mut SortedMap<TargetDigest>,
        stack: &mut Vec<String>, fuel: Ghost<int>) -> (r: Result<TargetDigest, DiffError>)
        requires
            self.wf(),
            old(memo).wf(),
            memo_inv(self.ev(), old(memo)@, self.track_dep_edges),
            old(stack).deep_view().no_duplicates(),
            forall|i: int|
                0 <= i < old(stack).deep_view().len() ==> self.ev().rules.contains_key(
                    #[trigger] old(stack).deep_view()[i],
                ),
            forall|l: Seq<char>| #[trigger]
                old(memo)@.contains_key(l) ==> !old(stack).deep_view().contains(l),
            self.ev().rules.contains_key(rule.deep_view().name),
            self.ev().rules[rule.deep_view().name] == rule.deep_view(),
            fuel@ == self.graph_rules.entries@.len() - old(stack)@.len(),
            0 <= fuel@,
        ensures
            final(memo).wf(),
            memo_inv(self.ev(), final(memo)@, self.track_dep_edges),
            forall|l: Seq<char>| #[trigger]
                old(memo)@.contains_key(l) ==> final(memo)@.contains_key(l) && final(memo)@[l]
                    == old(memo)@[l],
            match r {
                Ok(d) => {
                    &&& final(stack).deep_view() == old(stack).deep_view()
                    &&& final(memo)@.contains_key(rule.deep_view().name)
                    &&& final(memo)@[rule.deep_view().name] == d.deep_view()
                    &&& forall|l: Seq<char>| #[trigger]
                        final(memo)@.contains_key(l) ==> !final(stack).deep_view().contains(l)
                },
                Err(e) => e is CircularDependency && rule_digest_spec(
                    self.ev(),
                    rule.deep_view().name,
                    self.ev().rules.dom().difference(old(stack).deep_view().to_set()),
                ) is None,
            },
        decreases fuel@,
    {
        proof {
            self.graph_rules.lemma_keys_unique();
            crate::smap::lemma_entries_map_card(self.graph_rules.entries@);
        }
        let name = &rule.name;
        let ghost lname = name@;
        match memo.get(name.as_str()) {
            Some(cached) => {
                return Ok(copy_digest(cached));
            },
            None => {},
        }
        if contains_string(stack, name.as_str()) {
            proof {
                let avail = self.ev().rules.dom().difference(old(stack).deep_view().to_set());
                vstd::set::axiom_set_difference_finite(
                    self.ev().rules.dom(),
                    old(stack).deep_view().to_set(),
                );
                assert(old(stack).deep_view().to_set().contains(lname));
                assert(!avail.contains(lname));
                assert(rule_digest_spec(self.ev(), lname, avail) is None);
            }
            return Err(DiffError::CircularDependency(crate::graph::copy_strings(stack)));
        }
        let ghost pre_stack = stack.deep_view();
        let ghost pre_memo = memo@;
        crate::strutil::push_string(stack, name.clone());
        proof {
            assert(stack.deep_view() == pre_stack.push(lname));
            assert forall|q: int|
                0 <= q < stack.deep_view().len() implies self.ev().rules.contains_key(
                #[trigger] stack.deep_view()[q],
            ) by {
                if q < pre_stack.len() {
                    assert(stack.deep_view()[q] == pre_stack[q]);
                }
            }
            assert(stack.deep_view().no_duplicates()) by {
                assert(!pre_stack.contains(lname));
            }
            assert forall|l: Seq<char>| #[trigger]
                memo@.contains_key(l) implies !stack.deep_view().contains(l) by {
                if stack.deep_view().contains(l) {
                    let q = choose|q: int|
                        0 <= q < stack.deep_view().len() && stack.deep_view()[q] == l;
                    if q < pre_stack.len() {
                        assert(pre_stack.contains(l));
                    } else {
                        assert(l == lname);
                    }
                }
            }
            let sdv = stack.deep_view();
            sdv.unique_seq_to_set();
            assert forall|l: Seq<char>| #[trigger]
                sdv.to_set().contains(l) implies self.ev().rules.dom().contains(l) by {
                let q = choose|q: int| 0 <= q < sdv.len() && sdv[q] == l;
            }
            crate::smap::lemma_entries_map_card(self.graph_rules.entries@);
            vstd::set_lib::lemma_len_subset(sdv.to_set(), self.ev().rules.dom());
            assert(stack@.len() <= self.graph_rules.entries@.len());
        }
        let ghost ev = self.ev();
        let mut builder = DigestBuilder::new(self.track_dep_edges);
        let attr_sig = rule.digest(self.ignored_attrs);
        builder.put_direct(attr_sig.as_slice());
        builder.put_direct(self.seed_hash.as_slice());
        let ghost base = sha256_of(rule_attr_input(rule.deep_view(), ev.ignored)) + ev.seed_hash;
        proof {
            assert(builder.direct@ =~= base);
        }
        let inputs = rule.rule_inputs(self.use_cquery, self.fine_grained);
        let ghost inputs_dv = inputs.deep_view();
        let n = inputs.len();
        let mut i: usize = 0;
        let ghost mut dbuf: Seq<u8> = Seq::empty();
        let ghost mut obuf: Seq<u8> = Seq::empty();
        let ghost mut depsg: Seq<Seq<char>> = Seq::empty();
        proof {
            assert(builder.direct@ =~= base + dbuf);
            assert(builder.overall@ =~= obuf);
        }
        while i < n
            invariant
                i <= n,
                n == inputs_dv.len(),
                inputs_dv == inputs.deep_view(),
                self.wf(),
                ev == self.ev(),
                memo.wf(),
                memo_inv(ev, memo@, self.track_dep_edges),
                stack.deep_view().no_duplicates(),
                forall|q: int|
                    0 <= q < stack.deep_view().len() ==> ev.rules.contains_key(
                        #[trigger] stack.deep_view()[q],
                    ),
                forall|l: Seq<char>| #[trigger]
                    memo@.contains_key(l) ==> !stack.deep_view().contains(l),
                forall|l: Seq<char>| #[trigger]
                    pre_memo.contains_key(l) ==> memo@.contains_key(l) && memo@[l] == pre_memo[l],
                pre_memo == old(memo)@,
                pre_stack == old(stack).deep_view(),
                stack.deep_view() == pre_stack.push(lname),
                stack@.len() == pre_stack.len() + 1,
                stack@.len() <= self.graph_rules.entries@.len(),
                fuel@ == self.graph_rules.entries@.len() - pre_stack.len(),
                lname == rule.deep_view().name,
                ev.rules.contains_key(lname),
                ev.rules[lname] == rule.deep_view(),
                !memo@.contains_key(lname),
                inputs_dv == effective_inputs(rule.deep_view(), ev.use_cquery, ev.fine_grained),
                builder.direct@ == base + dbuf,
                builder.overall@ == obuf,
                base == sha256_of(rule_attr_input(rule.deep_view(), ev.ignored)) + ev.seed_hash,
                self.track_dep_edges ==> (builder.deps matches Some(d) && d.deep_view()
                    == depsg),
                !self.track_dep_edges ==> builder.deps is None,
                forall|bv: Set<Seq<char>>|
                    bv.finite() && memo@.dom() <= bv && !bv.contains(lname)
                        ==> #[trigger] inputs_fold(ev, lname, inputs_dv, bv, i as int) == Some(
                        (dbuf, obuf, depsg),
                    ),
            decreases n - i,
        {
            let input = &inputs[i];
            proof {
                assert(input@ == inputs_dv[i as int]);
            }
            let ghost dbuf_in = dbuf;
            let ghost obuf_in = obuf;
            let ghost depsg_in = depsg;
            let ghost memo_in = memo@;
            builder.put_direct(crate::strutil::bytes_of(input.as_str()).as_slice());
            proof {
                dbuf = dbuf + str_bytes(inputs_dv[i as int]);
            }
            match self.graph_rules.get(input.as_str()) {
                Some(dep_rule) => {
                    proof {
                        assert(ev.rules[input@] == dep_rule.deep_view());
                        assert(dep_rule.deep_view().name == input@);
                    }
                    if !crate::strutil::str_eq(dep_rule.name.as_str(), rule.name.as_str()) {
                        let ghost dom_g = ev.rules.dom();
                        let ghost preset_g = pre_stack.to_set();
                        let ghost availp_g = dom_g.difference(preset_g);
                        let ghost pushed_g = pre_stack.push(lname);
                        let ghost bv_g = availp_g.remove(lname);
                        proof {
                            self.graph_rules.lemma_keys_unique();
                            crate::smap::lemma_entries_map_card(self.graph_rules.entries@);
                            vstd::set::axiom_set_difference_finite(dom_g, preset_g);
                            vstd::set::axiom_set_difference_finite(dom_g, pushed_g.to_set());
                            assert(stack.deep_view() == pushed_g);
                            assert(pushed_g.no_duplicates());
                            assert(!pre_stack.contains(lname)) by {
                                if pre_stack.contains(lname) {
                                    let j = choose|j: int|
                                        0 <= j < pre_stack.len() && pre_stack[j] == lname;
                                    assert(pushed_g[j] == lname);
                                    assert(pushed_g[pre_stack.len() as int] == lname);
                                }
                            }
                            assert(bv_g =~= dom_g.difference(pushed_g.to_set())) by {
                                assert forall|y: Seq<char>|
                                    pushed_g.to_set().contains(y) <==> (preset_g.contains(y) || y
                                    == lname) by {
                                    if pushed_g.contains(y) {
                                        let j = choose|j: int|
                                            0 <= j < pushed_g.len() && pushed_g[j] == y;
                                        if j < pre_stack.len() {
                                            assert(pre_stack[j] == y);
                                        }
                                    }
                                    if pre_stack.contains(y) {
                                        let j = choose|j: int|
                                            0 <= j < pre_stack.len() && pre_stack[j] == y;
                                        assert(pushed_g[j] == y);
                                    }
                                    if y == lname {
                                        assert(pushed_g[pre_stack.len() as int] == y);
                                    }
                                }
                            }
                            assert(availp_g.contains(lname));
                        }
                        let dd = match self.digest(dep_rule, memo, stack, Ghost(fuel@ - 1)) {
                            Ok(d) => d,
                            Err(e) => {
                                proof {
                                    assert(rule_digest_spec(ev, input@, bv_g) is None);
                                    lemma_fold_poisoned(
                                        ev,
                                        lname,
                                        inputs_dv,
                                        bv_g,
                                        i as int,
                                        inputs_dv.len() as int,
                                    );
                                    assert(rule_digest_spec(ev, lname, availp_g) is None);
                                }
                                return Err(e);
                            },
                        };
                        let ghost pre_deps = builder.deps;
                        builder.put_transitive(input, dd.overall.as_slice());
                        proof {
                            obuf = obuf + dd.overall@;
                            depsg = depsg.push(input@);
                            assert(stack.deep_view().contains(lname)) by {
                                assert(stack.deep_view()[pre_stack.len() as int] == lname);
                            }
                            assert(!memo@.contains_key(lname));
                            if self.track_dep_edges {
                                assert(builder.deps matches Some(d) && d.deep_view() == depsg)
                                    by {
                                    match pre_deps {
                                        Some(pd) => {
                                            match builder.deps {
                                                Some(d) => {
                                                    assert(d@ == pd@.push(*input));
                                                    assert forall|q: int|
                                                        0 <= q < d.deep_view().len()
                                                            implies d.deep_view()[q] == depsg[q]
                                                        by {
                                                        assert(d.deep_view()[q] == d@[q]@);
                                                        if q < pd@.len() {
                                                            assert(d@[q] == pd@[q]);
                                                            assert(pd.deep_view()[q] == pd@[q]@);
                                                        }
                                                    }
                                                    assert(d.deep_view() =~= depsg);
                                                },
                                                None => {
                                                    assert(false);
                                                },
                                            }
                                        },
                                        None => {
                                            assert(false);
                                        },
                                    }
                                }
                            }
                            assert forall|bv: Set<Seq<char>>|
                                bv.finite() && memo@.dom() <= bv && !bv.contains(lname)
                                    implies #[trigger] inputs_fold(
                                ev,
                                lname,
                                inputs_dv,
                                bv,
                                i + 1,
                            ) == Some((dbuf, obuf, depsg)) by {
                                assert(memo_in.dom() <= bv);
                                assert(inputs_fold(ev, lname, inputs_dv, bv, i as int) == Some(
                                    (dbuf_in, obuf_in, depsg_in),
                                ));
                                assert(memo@.contains_key(input@));
                                assert(spec_digest_at(
                                    ev,
                                    input@,
                                    bv,
                                    memo@[input@],
                                    self.track_dep_edges,
                                ));
                                assert(memo@[input@] == dd.deep_view());
                            }
                        }
                    } else {
                        proof {
                            assert(dep_rule.name@ == rule.name@);
                            assert(rule.name@ == rule.deep_view().name);
                            assert(dep_rule.deep_view().name == dep_rule.name@);
                            assert(inputs_dv[i as int] == lname);
                            assert forall|bv: Set<Seq<char>>|
                                bv.finite() && memo@.dom() <= bv && !bv.contains(lname)
                                    implies #[trigger] inputs_fold(
                                ev,
                                lname,
                                inputs_dv,
                                bv,
                                i + 1,
                            ) == Some((dbuf, obuf, depsg)) by {
                                assert(inputs_fold(ev, lname, inputs_dv, bv, i as int) == Some(
                                    (dbuf_in, obuf_in, depsg_in),
                                ));
                            }
                        }
                    }
                },
                None => {
                    match self.source_input_digest(input.as_str()) {
                        Some(sd) => {
                            builder.put_direct(sd.as_slice());
                            proof {
                                dbuf = dbuf + sd@;
                                assert forall|bv: Set<Seq<char>>|
                                    bv.finite() && memo@.dom() <= bv && !bv.contains(lname)
                                        implies #[trigger] inputs_fold(
                                    ev,
                                    lname,
                                    inputs_dv,
                                    bv,
                                    i + 1,
                                ) == Some((dbuf, obuf, depsg)) by {
                                    assert(inputs_fold(ev, lname, inputs_dv, bv, i as int)
                                        == Some((dbuf_in, obuf_in, depsg_in)));
                                    assert(dbuf =~= dbuf_in + str_bytes(inputs_dv[i as int])
                                        + sd@);
                                }
                            }
                        },
                        None => {
                            proof {
                                assert forall|bv: Set<Seq<char>>|
                                    bv.finite() && memo@.dom() <= bv && !bv.contains(lname)
                                        implies #[trigger] inputs_fold(
                                    ev,
                                    lname,
                                    inputs_dv,
                                    bv,
                                    i + 1,
                                ) == Some((dbuf, obuf, depsg)) by {
                                    assert(inputs_fold(ev, lname, inputs_dv, bv, i as int)
                                        == Some((dbuf_in, obuf_in, depsg_in)));
                                }
                            }
                        },
                    }
                },
            }
            i = i + 1;
        }
        crate::strutil::pop_string(stack);
        proof {
            assert(stack.deep_view() =~= pre_stack);
        }
        let digest = builder.finish();
        let stored = copy_digest(&digest);
        proof {
            memo.lemma_keys_unique();
            let m2 = memo@.insert(lname, digest.deep_view());
            assert forall|avail: Set<Seq<char>>|
                avail.finite() && m2.dom() <= avail implies #[trigger] spec_digest_at(
                ev,
                lname,
                avail,
                m2[lname],
                self.track_dep_edges,
            ) by {
                let bv = avail.remove(lname);
                assert(avail.contains(lname)) by {
                    assert(m2.dom().contains(lname));
                }
                assert(memo@.dom() <= bv) by {
                    assert forall|l: Seq<char>| #[trigger]
                        memo@.dom().contains(l) implies bv.contains(l) by {
                        assert(m2.dom().contains(l));
                        assert(l != lname);
                    }
                }
                assert(!bv.contains(lname));
                assert(inputs_fold(ev, lname, inputs_dv, bv, n as int) == Some(
                    (dbuf, obuf, depsg),
                ));
                assert(rule_digest_spec(ev, lname, avail) == Some(
                    DigestTriple {
                        direct: sha256_of(base + dbuf),
                        overall: sha256_of(obuf + sha256_of(base + dbuf)),
                        deps: depsg,
                    },
                ));
                assert(digest.direct@ == sha256_of(base + dbuf));
                assert(digest.overall@ == sha256_of(obuf + sha256_of(base + dbuf)));
                if self.track_dep_edges {
                    assert(digest.deps matches Some(d) && d.deep_view() == depsg);
                }
            }
            assert forall|x: Seq<char>| #[trigger]
                m2.contains_key(x) implies ev.rules.contains_key(x) && (forall|
                avail: Set<Seq<char>>,
            |
                avail.finite() && m2.dom() <= avail ==> #[trigger] spec_digest_at(
                    ev,
                    x,
                    avail,
                    m2[x],
                    self.track_dep_edges,
                )) by {
                if x != lname {
                    assert(memo@.contains_key(x));
                    assert forall|avail: Set<Seq<char>>|
                        avail.finite() && m2.dom() <= avail implies #[trigger] spec_digest_at(
                        ev,
                        x,
                        avail,
                        m2[x],
                        self.track_dep_edges,
                    ) by {
                        assert(memo@.dom() <= avail) by {
                            assert forall|l: Seq<char>| #[trigger]
                                memo@.dom().contains(l) implies avail.contains(l) by {
                                assert(m2.dom().contains(l));
                            }
                        }
                        assert(m2[x] == memo@[x]);
                        assert(spec_digest_at(ev, x, avail, memo@[x], self.track_dep_edges));
                    }
                }
            }
            assert(memo_inv(ev, m2, self.track_dep_edges));
        }
        memo.insert(name.clone(), stored);
        proof {
            assert forall|l: Seq<char>| #[trigger]
                memo@.contains_key(l) implies !stack.deep_view().contains(l) by {
                if l == lname {
                    assert(!pre_stack.contains(lname));
                }
            }
        }
        Ok(digest)
    }
}


/// The node kinds as they appear in rendered hash values.
#[derive(Debug, Clone, Copy, PartialEq, Eq, Structural)]
pub enum TargetKind {
    Rule,
    GeneratedFile,
    SourceFile,
}

impl DeepView for TargetKind {
    type V = TargetKind;

    open spec fn deep_view(&self) -> TargetKind {
        *self
    }
}

impl TargetKind {
    /// The kind's textual form.
    pub open spec fn str_spec(&self) -> Seq<char> {
        match self {
            TargetKind::Rule => seq!['R', 'u', 'l', 'e'],
            TargetKind::GeneratedFile => seq![
                'G', 'e', 'n', 'e', 'r', 'a', 't', 'e', 'd', 'F', 'i', 'l', 'e',
            ],
            TargetKind::SourceFile => seq!['S', 'o', 'u', 'r', 'c', 'e', 'F', 'i', 'l', 'e'],
        }
    }

    /// The kind's textual form.
    pub fn as_str(&self) -> (r: &'static str)
        ensures
            r@ == self.str_spec(),
    {
        proof {
            reveal_strlit("Rule");
            reveal_strlit("GeneratedFile");
            reveal_strlit("SourceFile");
            assert("Rule"@ =~= seq!['R', 'u', 'l', 'e']);
            assert("GeneratedFile"@ =~= seq![
                'G', 'e', 'n', 'e', 'r', 'a', 't', 'e', 'd', 'F', 'i', 'l', 'e',
            ]);
            assert("SourceFile"@ =~= seq!['S', 'o', 'u', 'r', 'c', 'e', 'F', 'i', 'l', 'e']);
        }
        match self {
            TargetKind::Rule => "Rule",
            TargetKind::GeneratedFile => "GeneratedFile",
            TargetKind::SourceFile => "SourceFile",
        }
    }
}

/// A computed per-node value before rendering.
pub struct TargetHashValue {
    pub kind: TargetKind,
    pub overall: Vec<u8>,
    pub direct: Vec<u8>,
    pub deps: Option<Vec<String>>,
}

impl DeepView for TargetHashValue {
    type V = (TargetKind, Seq<u8>, Seq<u8>, Option<Seq<Seq<char>>>);

    open spec fn deep_view(&self) -> (TargetKind, Seq<u8>, Seq<u8>, Option<Seq<Seq<char>>>) {
        (
            self.kind,
            self.overall@,
            self.direct@,
            match &self.deps {
                Some(d) => Some(d.deep_view()),
                None => None,
            },
        )
    }
}

/// The rendered form of a per-node value.
pub open spec fn value_str(kind: Seq<char>, overall: Seq<u8>, direct: Seq<u8>,
    include_kind: bool) -> Seq<char> {
    (if include_kind {
        kind + seq!['#']
    } else {
        Seq::<char>::empty()
    }) + crate::digest::hex_of(overall) + seq!['~'] + crate::digest::hex_of(direct)
}

impl TargetHashValue {
    /// Wraps a finished digest with its kind.
    pub fn new(kind: TargetKind, digest: TargetDigest) -> (r: TargetHashValue)
        ensures
            r.kind == kind,
            r.overall@ == digest.overall@,
            r.direct@ == digest.direct@,
            r.deps == digest.deps,
    {
        TargetHashValue { kind, overall: digest.overall, direct: digest.direct, deps: digest.deps }
    }

    /// Renders the value as `kind#overall~direct`, or just `overall~direct`.
    pub fn render(&self, include_kind: bool) -> (r: String)
        ensures
            r@ == value_str(self.kind.str_spec(), self.overall@, self.direct@, include_kind),
    {
        let mut out = String::new();
        if include_kind {
            out.append(self.kind.as_str());
            out.append("#");
        }
        out.append(crate::digest::hex_encode(&self.overall).as_str());
        out.append("~");
        out.append(crate::digest::hex_encode(&self.direct).as_str());
        proof {
            reveal_strlit("#");
            reveal_strlit("~");
            assert("#"@ =~= seq!['#']);
            assert("~"@ =~= seq!['~']);
            assert(out@ =~= value_str(
                self.kind.str_spec(),
                self.overall@,
                self.direct@,
                include_kind,
            ));
        }
        out
    }
}

/// A field-for-field copy of a per-node value.
fn copy_value(v: &TargetHashValue) -> (r: TargetHashValue)
    ensures
        r.deep_view() == v.deep_view(),
        r.kind == v.kind,
{
    TargetHashValue {
        kind: v.kind,
        overall: crate::digest::clone_bytes(&v.overall),
        direct: crate::digest::clone_bytes(&v.direct),
        deps: match &v.deps {
            Some(d) => Some(crate::graph::copy_strings(d)),
            None => None,
        },
    }
}

/// The per-source seed: the digest of the source name and its subincludes.
pub fn seed_for_source(source: &crate::graph::BazelSource) -> (r: Vec<u8>)
    ensures
        r@ == sha256_of(source_seed_input(source.deep_view())),
{
    let ghost sv = source.deep_view();
    let mut input: Vec<u8> = Vec::new();
    crate::source_hash::append_bytes(&mut input, &crate::strutil::bytes_of(source.name.as_str()));
    let n = source.subincludes.len();
    let mut i: usize = 0;
    proof {
        assert(input@ =~= subincludes_input(sv.name, sv.subincludes, 0));
    }
    while i < n
        invariant
            i <= n,
            n == source.subincludes@.len(),
            sv == source.deep_view(),
            sv.subincludes.len() == n,
            input@ == subincludes_input(sv.name, sv.subincludes, i as int),
        decreases n - i,
    {
        proof {
            assert(sv.subincludes[i as int] == source.subincludes@[i as int]@);
        }
        crate::source_hash::append_bytes(&mut input, &crate::strutil::bytes_of(
            source.subincludes[i].as_str(),
        ));
        i = i + 1;
    }
    sha256(&input)
}

/// A source node's own digest mixed with the run seed; used for both the
/// overall and the direct part.
pub fn target_digest_from_source(source_digest: &Vec<u8>, seed_hash: &Vec<u8>) -> (r: TargetDigest)
    ensures
        r.overall@ == sha256_of(source_digest@ + seed_hash@),
        r.direct@ == sha256_of(source_digest@ + seed_hash@),
        r.deps is None,
{
    let mut input = crate::digest::clone_bytes(source_digest);
    crate::source_hash::append_bytes(&mut input, seed_hash);
    let d = sha256(&input);
    TargetDigest { overall: crate::digest::clone_bytes(&d), direct: d, deps: None }
}

/// The initial per-source digest of one source node.
pub open spec fn initial_source_digest(h: SourceHasherView, s: crate::graph::SourceView) -> Seq<
    u8,
> {
    sha256_of(crate::source_hash::source_digest_input(h, s.name, sha256_of(source_seed_input(s))))
}

/// The label-keyed map of initial per-source digests.
pub open spec fn initial_digests(h: SourceHasherView, sources: Seq<crate::graph::SourceView>)
    -> Map<Seq<char>, Seq<u8>>
    decreases sources.len(),
{
    if sources.len() == 0 {
        Map::empty()
    } else {
        initial_digests(h, sources.drop_last()).insert(
            sources.last().name,
            initial_source_digest(h, sources.last()),
        )
    }
}

/// The textual kind of a node.
pub open spec fn kind_str(t: crate::graph::TargetView) -> Seq<char> {
    match t {
        crate::graph::TargetView::Rule(_) => seq!['R', 'u', 'l', 'e'],
        crate::graph::TargetView::Generated(_) => seq![
            'G', 'e', 'n', 'e', 'r', 'a', 't', 'e', 'd', 'F', 'i', 'l', 'e',
        ],
        crate::graph::TargetView::Source(_) => seq![
            'S', 'o', 'u', 'r', 'c', 'e', 'F', 'i', 'l', 'e',
        ],
    }
}

/// The kind enum of a node.
pub open spec fn kind_of(t: crate::graph::TargetView) -> TargetKind {
    match t {
        crate::graph::TargetView::Rule(_) => TargetKind::Rule,
        crate::graph::TargetView::Generated(_) => TargetKind::GeneratedFile,
        crate::graph::TargetView::Source(_) => TargetKind::SourceFile,
    }
}

/// The digest of a rule label with the whole rule set available.
pub open spec fn full_digest(ev: EngineView, l: Seq<char>) -> Option<DigestTriple> {
    rule_digest_spec(ev, l, ev.rules.dom())
}

/// The overall and direct digests of a node, when they exist.
pub open spec fn node_digest_pair(ev: EngineView, t: crate::graph::TargetView) -> Option<
    (Seq<u8>, Seq<u8>),
> {
    match t {
        crate::graph::TargetView::Rule(r) => match full_digest(ev, r.name) {
            Some(d) => Some((d.overall, d.direct)),
            None => None,
        },
        crate::graph::TargetView::Source(s) => Some(
            (
                sha256_of(initial_source_digest(ev.hasher, s) + ev.seed_hash),
                sha256_of(initial_source_digest(ev.hasher, s) + ev.seed_hash),
            ),
        ),
        crate::graph::TargetView::Generated(g) => if ev.rules.contains_key(g.generating_rule) {
            match full_digest(ev, g.generating_rule) {
                Some(d) => Some((d.overall, d.direct)),
                None => None,
            }
        } else {
            None
        },
    }
}

/// The dependency labels recorded for a node.
pub open spec fn node_deps_spec(ev: EngineView, t: crate::graph::TargetView, track: bool)
    -> Option<Seq<Seq<char>>> {
    match t {
        crate::graph::TargetView::Rule(r) => if track {
            match full_digest(ev, r.name) {
                Some(d) => Some(d.deps),
                None => None,
            }
        } else {
            None
        },
        crate::graph::TargetView::Generated(g) => if track {
            Some(seq![g.generating_rule])
        } else {
            None
        },
        crate::graph::TargetView::Source(_) => None,
    }
}

/// The stored per-node result of a node whose digests exist.
pub open spec fn result_entry(ev: EngineView, t: crate::graph::TargetView, track: bool) -> (
    TargetKind,
    Seq<u8>,
    Seq<u8>,
    Option<Seq<Seq<char>>>,
) {
    let pair = node_digest_pair(ev, t)->0;
    (kind_of(t), pair.0, pair.1, node_deps_spec(ev, t, track))
}

/// Whether a node passes the kind filter.
pub open spec fn node_passes(t: crate::graph::TargetView, tf: Option<Seq<Seq<char>>>) -> bool {
    match tf {
        None => true,
        Some(f) => f.contains(kind_str(t)),
    }
}

/// The rendered output value of a node whose digests exist.
pub open spec fn node_value_str(ev: EngineView, t: crate::graph::TargetView,
    include_kind: bool) -> Seq<char> {
    let pair = node_digest_pair(ev, t)->0;
    value_str(kind_str(t), pair.0, pair.1, include_kind)
}

/// The result of one hashing run: the rendered hash map and the recorded
/// dependency edges.
pub struct GenerateHashesResult {
    pub hashes: SortedMap<String>,
    pub dep_edges: SortedMap<Option<Vec<String>>>,
}

/// The hash engine: the per-run options and the source hasher.
pub struct HashEngine {
    pub include_target_type: bool,
    pub target_types: Option<Vec<String>>,
    pub ignored_attrs: Vec<String>,
    pub fine_grained_external_repos: Vec<String>,
    pub seed_hash: Vec<u8>,
    pub track_dep_edges: bool,
    pub source_hasher: SourceFileHasher,
}

impl HashEngine {
    pub open spec fn wf(&self) -> bool {
        self.source_hasher.wf()
    }

    /// The engine's view against a loaded graph.
    pub open spec fn ev(&self, graph: &crate::graph::BazelGraph) -> EngineView {
        EngineView {
            rules: graph.rule_map@,
            source_digests: initial_digests(
                self.source_hasher.view_spec(),
                graph.sources.deep_view(),
            ),
            hasher: self.source_hasher.view_spec(),
            seed_hash: self.seed_hash@,
            ignored: self.ignored_attrs.deep_view(),
            fine_grained: self.fine_grained_external_repos.deep_view(),
            use_cquery: graph.use_cquery,
        }
    }

    /// Assembles an engine.
    pub fn new(include_target_type: bool, target_types: Option<Vec<String>>,
        ignored_attrs: Vec<String>, fine_grained_external_repos: Vec<String>,
        seed_hash: Vec<u8>, track_dep_edges: bool, source_hasher: SourceFileHasher) -> (r:
        HashEngine)
        requires
            source_hasher.wf(),
        ensures
            r.wf(),
            r == (HashEngine {
                include_target_type,
                target_types,
                ignored_attrs,
                fine_grained_external_repos,
                seed_hash,
                track_dep_edges,
                source_hasher,
            }),
    {
        HashEngine {
            include_target_type,
            target_types,
            ignored_attrs,
            fine_grained_external_repos,
            seed_hash,
            track_dep_edges,
            source_hasher,
        }
    }
}


impl HashEngine {
    /// The initial per-source digests, keyed by label.
    fn compute_source_digests(&self, graph: &crate::graph::BazelGraph) -> (r: SortedMap<Vec<u8>>)
        requires
            self.wf(),
            graph.wf(),
        ensures
            r.wf(),
            r@ == initial_digests(self.source_hasher.view_spec(), graph.sources.deep_view()),
    {
        let ghost h = self.source_hasher.view_spec();
        let ghost sdv = graph.sources.deep_view();
        let mut sd_map: SortedMap<Vec<u8>> = SortedMap::new();
        let n = graph.sources.len();
        let mut i: usize = 0;
        proof {
            assert(initial_digests(h, sdv.take(0)) =~= Map::<Seq<char>, Seq<u8>>::empty());
        }
        while i < n
            invariant
                i <= n,
                n == graph.sources@.len(),
                sdv == graph.sources.deep_view(),
                sdv.len() == n,
                self.wf(),
                h == self.source_hasher.view_spec(),
                sd_map.wf(),
                sd_map@ == initial_digests(h, sdv.take(i as int)),
            decreases n - i,
        {
            proof {
                assert(sdv.take(i + 1).drop_last() =~= sdv.take(i as int));
                assert(sdv.take(i + 1).last() == sdv[i as int]);
                assert(sdv[i as int] == graph.sources@[i as int].deep_view());
            }
            let s = &graph.sources[i];
            let seed = seed_for_source(s);
            let d = self.source_hasher.digest(s.name.as_str(), &seed);
            proof {
                assert(d.deep_view() =~= d@);
                assert(d@ == initial_source_digest(h, sdv[i as int]));
            }
            sd_map.insert(s.name.clone(), d);
            proof {
                assert(sd_map@ == initial_digests(h, sdv.take(i + 1)));
            }
            i = i + 1;
        }
        proof {
            assert(sdv.take(n as int) =~= sdv);
        }
        sd_map
    }

    /// Runs the hashers over the whole graph and collects the per-node
    /// values, keyed by label.
    fn compute_results(&self, graph: &crate::graph::BazelGraph) -> (r: Result<
        SortedMap<TargetHashValue>,
        DiffError,
    >)
        requires
            self.wf(),
            graph.wf(),
        ensures
            match r {
                Ok(results) => {
                    &&& results.wf()
                    &&& forall|l: Seq<char>| #[trigger]
                        results@.contains_key(l) <==> (exists|j: int|
                            0 <= j < graph.targets.deep_view().len() && crate::graph::target_label(
                                #[trigger] graph.targets.deep_view()[j],
                            ) == l)
                    &&& forall|j: int|
                        0 <= j < graph.targets.deep_view().len() ==> node_digest_pair(
                            self.ev(graph),
                            #[trigger] graph.targets.deep_view()[j],
                        ) is Some
                    &&& forall|j: int|
                        0 <= j < graph.targets.deep_view().len() ==> results@[crate::graph::target_label(
                            #[trigger] graph.targets.deep_view()[j],
                        )] == result_entry(
                            self.ev(graph),
                            graph.targets.deep_view()[j],
                            self.track_dep_edges,
                        )
                },
                Err(e) => {
                    &&& (e is CircularDependency || (e matches DiffError::MissingGeneratingRule(
                        lab,
                    ) && !self.ev(graph).rules.contains_key(lab@) && exists|j: int|
                        0 <= j < graph.targets.deep_view().len() && gen_refs(
                            #[trigger] graph.targets.deep_view()[j],
                            lab@,
                        )))
                    &&& exists|j: int|
                        0 <= j < graph.targets.deep_view().len() && node_digest_pair(
                            self.ev(graph),
                            #[trigger] graph.targets.deep_view()[j],
                        ) is None
                    &&& (e is CircularDependency ==> exists|l: Seq<char>|
                        self.ev(graph).rules.contains_key(l) && (#[trigger] full_digest(
                            self.ev(graph),
                            l,
                        )) is None)
                },
            },
    {
        let ghost ev = self.ev(graph);
        let ghost tdv = graph.targets.deep_view();
        let sd_map = self.compute_source_digests(graph);
        let rh = RuleHasher {
            graph_rules: &graph.rule_map,
            source_digests: &sd_map,
            source_hasher: &self.source_hasher,
            seed_hash: &self.seed_hash,
            ignored_attrs: &self.ignored_attrs,
            fine_grained: &self.fine_grained_external_repos,
            use_cquery: graph.use_cquery,
            track_dep_edges: self.track_dep_edges,
        };
        proof {
            assert forall|l: Seq<char>| #[trigger]
                graph.rule_map@.contains_key(l) implies graph.rule_map@[l].name == l by {
                crate::graph::lemma_rules_of_names(tdv, l);
            }
            assert(rh.wf());
            assert(rh.ev() == ev);
            graph.rule_map.lemma_keys_unique();
            crate::smap::lemma_entries_map_card(graph.rule_map.entries@);
            assert(ev.rules.dom().finite());
        }
        let mut results: SortedMap<TargetHashValue> = SortedMap::new();
        let mut memo: SortedMap<TargetDigest> = SortedMap::new();
        let mut stack: Vec<String> = Vec::new();
        let n = graph.targets.len();
        let mut j: usize = 0;
        while j < n
            invariant
                j <= n,
                n == tdv.len(),
                tdv == graph.targets.deep_view(),
                self.wf(),
                graph.wf(),
                ev == self.ev(graph),
                rh.wf(),
                rh.ev() == ev,
                rh.graph_rules == &graph.rule_map,
                rh.track_dep_edges == self.track_dep_edges,
                ev.rules.dom().finite(),
                sd_map.wf(),
                sd_map@ == ev.source_digests,
                rh.source_digests == &sd_map,
                memo.wf(),
                memo_inv(ev, memo@, self.track_dep_edges),
                stack.deep_view() == Seq::<Seq<char>>::empty(),
                stack@.len() == 0,
                results.wf(),
                forall|l: Seq<char>| #[trigger]
                    results@.contains_key(l) <==> (exists|q: int|
                        0 <= q < j && crate::graph::target_label(#[trigger] tdv[q]) == l),
                forall|q: int|
                    0 <= q < j ==> node_digest_pair(ev, #[trigger] tdv[q]) is Some,
                forall|q: int|
                    0 <= q < j ==> results@[crate::graph::target_label(#[trigger] tdv[q])]
                        == result_entry(ev, tdv[q], self.track_dep_edges),
            decreases n - j,
        {
            let node = &graph.targets[j];
            proof {
                assert(node.deep_view() == tdv[j as int]);
                match node {
                    crate::graph::BazelTarget::Rule(rule) => {
                        crate::graph::lemma_rules_of_member(tdv, j as int);
                    },
                    crate::graph::BazelTarget::Source(source) => {
                        lemma_initial_digests_member(
                            self.source_hasher.view_spec(),
                            graph.sources.deep_view(),
                            source.deep_view(),
                            tdv,
                            j as int,
                        );
                    },
                    crate::graph::BazelTarget::Generated(_) => {},
                }
            }
            let ghost pre_results = results@;
            let value = match node_value(&rh, node, &mut memo, &mut stack) {
                Ok(v) => v,
                Err(e) => {
                    proof {
                        if e is MissingGeneratingRule {
                            assert(gen_refs(tdv[j as int], e->MissingGeneratingRule_0@));
                        }
                        assert(node_digest_pair(ev, #[trigger] tdv[j as int]) is None);
                    }
                    return Err(e);
                },
            };
            results.insert(crate::strutil::to_owned_str(node.label()), value);
            proof {
                assert forall|l: Seq<char>| #[trigger]
                    results@.contains_key(l) <==> (exists|q: int|
                        0 <= q < j + 1 && crate::graph::target_label(#[trigger] tdv[q]) == l) by {
                    if results@.contains_key(l) && l != crate::graph::target_label(
                        tdv[j as int],
                    ) {
                        assert(pre_results.contains_key(l));
                        let q = choose|q: int|
                            0 <= q < j && crate::graph::target_label(#[trigger] tdv[q]) == l;
                        assert(0 <= q < j + 1 && crate::graph::target_label(tdv[q]) == l);
                    }
                    if exists|q: int|
                        0 <= q < j + 1 && crate::graph::target_label(#[trigger] tdv[q]) == l {
                        let q = choose|q: int|
                            0 <= q < j + 1 && crate::graph::target_label(#[trigger] tdv[q]) == l;
                        if q < j {
                            assert(pre_results.contains_key(l));
                        }
                    }
                }
                assert forall|q: int|
                    0 <= q < j + 1 implies results@[crate::graph::target_label(
                    #[trigger] tdv[q],
                )] == result_entry(ev, tdv[q], self.track_dep_edges) by {
                    if q < j {
                        assert(crate::graph::target_label(tdv[q]) != crate::graph::target_label(
                            tdv[j as int],
                        ));
                        assert(pre_results[crate::graph::target_label(tdv[q])] == result_entry(
                            ev,
                            tdv[q],
                            self.track_dep_edges,
                        ));
                    }
                }
            }
            j = j + 1;
        }
        Ok(results)
    }
}

/// Computes the per-node value of one graph node.
#[verifier::spinoff_prover]
#[verifier::rlimit(50)]
fn node_value(rh: &RuleHasher, node: &crate::graph::BazelTarget,
    memo: &mut SortedMap<TargetDigest>, stack: &mut Vec<String>) -> (r: Result<
    TargetHashValue,
    DiffError,
>)
    requires
        rh.wf(),
        old(memo).wf(),
        memo_inv(rh.ev(), old(memo)@, rh.track_dep_edges),
        old(stack).deep_view() == Seq::<Seq<char>>::empty(),
        old(stack)@.len() == 0,
        rh.ev().rules.dom().finite(),
        match node {
            crate::graph::BazelTarget::Rule(rule) => rh.ev().rules.contains_key(
                rule.deep_view().name,
            ) && rh.ev().rules[rule.deep_view().name] == rule.deep_view(),
            crate::graph::BazelTarget::Source(source) => rh.ev().source_digests.contains_key(
                source.name@,
            ) && rh.ev().source_digests[source.name@] == initial_source_digest(
                rh.ev().hasher,
                source.deep_view(),
            ),
            crate::graph::BazelTarget::Generated(_) => true,
        },
    ensures
        final(memo).wf(),
        memo_inv(rh.ev(), final(memo)@, rh.track_dep_edges),
        r is Ok ==> final(stack).deep_view() == Seq::<Seq<char>>::empty(),
        r is Ok ==> final(stack)@.len() == 0,
        r is Ok ==> node_digest_pair(rh.ev(), node.deep_view()) is Some,
        r matches Ok(v) ==> v.deep_view() == result_entry(
            rh.ev(),
            node.deep_view(),
            rh.track_dep_edges,
        ),
        r matches Err(e) ==> e is CircularDependency || (e matches DiffError::MissingGeneratingRule(
            lab,
        ) && gen_refs(node.deep_view(), lab@) && !rh.ev().rules.contains_key(lab@)),
        r is Err ==> node_digest_pair(rh.ev(), node.deep_view()) is None,
        r matches Err(e) && e is CircularDependency ==> exists|l: Seq<char>|
            rh.ev().rules.contains_key(l) && (#[trigger] full_digest(rh.ev(), l)) is None,
{
    let ghost ev = rh.ev();
    match node {
        crate::graph::BazelTarget::Rule(rule) => {
            let digest = match rh.digest(rule, memo, stack,
                Ghost(rh.graph_rules.entries@.len() as int)) {
                Ok(d) => d,
                Err(e) => {
                    proof {
                        assert(old(stack).deep_view().to_set() =~= Set::<Seq<char>>::empty());
                        assert(ev.rules.dom().difference(old(stack).deep_view().to_set())
                            =~= ev.rules.dom());
                        assert((#[trigger] full_digest(ev, rule.deep_view().name)) is None);
                    }
                    return Err(e);
                },
            };
            proof {
                assert(memo@.dom() <= ev.rules.dom()) by {
                    assert forall|l: Seq<char>| #[trigger]
                        memo@.dom().contains(l) implies ev.rules.dom().contains(l) by {
                        assert(memo@.contains_key(l));
                    }
                }
                assert(spec_digest_at(
                    ev,
                    rule.deep_view().name,
                    ev.rules.dom(),
                    memo@[rule.deep_view().name],
                    rh.track_dep_edges,
                ));
                assert(full_digest(ev, rule.deep_view().name) is Some);
            }
            let value = TargetHashValue::new(TargetKind::Rule, digest);
            proof {
                assert(value.deep_view() =~= result_entry(
                    ev,
                    node.deep_view(),
                    rh.track_dep_edges,
                ));
                assert(stack@.len() == stack.deep_view().len());
            }
            Ok(value)
        },
        crate::graph::BazelTarget::Generated(gen) => {
            let rule = match rh.graph_rules.get(gen.generating_rule.as_str()) {
                Some(rl) => rl,
                None => {
                    proof {
                        assert(node_digest_pair(ev, node.deep_view()) is None);
                    }
                    return Err(DiffError::MissingGeneratingRule(gen.generating_rule.clone()));
                },
            };
            proof {
                assert(ev.rules[gen.generating_rule@] == rule.deep_view());
                assert(rule.deep_view().name == gen.generating_rule@);
            }
            let digest = match rh.digest(rule, memo, stack,
                Ghost(rh.graph_rules.entries@.len() as int)) {
                Ok(d) => d,
                Err(e) => {
                    proof {
                        assert(old(stack).deep_view().to_set() =~= Set::<Seq<char>>::empty());
                        assert(ev.rules.dom().difference(old(stack).deep_view().to_set())
                            =~= ev.rules.dom());
                        assert((#[trigger] full_digest(ev, gen.generating_rule@)) is None);
                        assert(node_digest_pair(ev, node.deep_view()) is None);
                    }
                    return Err(e);
                },
            };
            proof {
                assert(memo@.dom() <= ev.rules.dom()) by {
                    assert forall|l: Seq<char>| #[trigger]
                        memo@.dom().contains(l) implies ev.rules.dom().contains(l) by {
                        assert(memo@.contains_key(l));
                    }
                }
                assert(spec_digest_at(
                    ev,
                    gen.generating_rule@,
                    ev.rules.dom(),
                    memo@[gen.generating_rule@],
                    rh.track_dep_edges,
                ));
                assert(full_digest(ev, gen.generating_rule@) is Some);
            }
            let deps: Option<Vec<String>> = if rh.track_dep_edges {
                let mut dep_list: Vec<String> = Vec::new();
                dep_list.push(gen.generating_rule.clone());
                proof {
                    assert(dep_list.deep_view() =~= seq![gen.generating_rule@]) by {
                        assert(dep_list.deep_view()[0] == dep_list@[0]@);
                    }
                }
                Some(dep_list)
            } else {
                None
            };
            let value = TargetHashValue::new(
                TargetKind::GeneratedFile,
                digest.clone_with_deps(deps),
            );
            proof {
                if rh.track_dep_edges {
                    assert(value.deep_view().3 matches Some(d) && d =~= seq![
                        gen.generating_rule@,
                    ]);
                    assert(node_deps_spec(ev, node.deep_view(), rh.track_dep_edges) == Some(
                        seq![gen.generating_rule@],
                    ));
                } else {
                    assert(value.deep_view().3 is None);
                }
                assert(value.deep_view() =~= result_entry(
                    ev,
                    node.deep_view(),
                    rh.track_dep_edges,
                ));
                assert(stack@.len() == stack.deep_view().len());
            }
            Ok(value)
        },
        crate::graph::BazelTarget::Source(source) => {
            let d0 = match rh.source_digests.get(source.name.as_str()) {
                Some(d) => d,
                None => {
                    proof {
                        assert(false);
                    }
                    return Err(DiffError::SnapshotDecodeError);
                },
            };
            proof {
                assert(d0.deep_view() =~= d0@);
                assert(d0@ == initial_source_digest(ev.hasher, source.deep_view()));
            }
            let td = target_digest_from_source(d0, rh.seed_hash);
            let value = TargetHashValue::new(TargetKind::SourceFile, td);
            proof {
                assert(value.deep_view() =~= result_entry(
                    ev,
                    node.deep_view(),
                    rh.track_dep_edges,
                ));
                assert(stack@.len() == stack.deep_view().len());
            }
            Ok(value)
        },
    }
}

/// Whether a node is a generated file referencing `lab` as its rule.
pub open spec fn gen_refs(t: crate::graph::TargetView, lab: Seq<char>) -> bool {
    t matches crate::graph::TargetView::Generated(g) && g.generating_rule == lab
}

/// Every loaded source has its digest in the initial map.
pub proof fn lemma_initial_digests_member(h: SourceHasherView, sources: Seq<
    crate::graph::SourceView,
>, s: crate::graph::SourceView, tdv: Seq<crate::graph::TargetView>, j: int)
    requires
        sources == crate::graph::sources_of(tdv),
        0 <= j < tdv.len(),
        tdv[j] == crate::graph::TargetView::Source(s),
        forall|p: int, q: int|
            0 <= p < q < tdv.len() ==> crate::graph::target_label(#[trigger] tdv[p])
                != crate::graph::target_label(#[trigger] tdv[q]),
    ensures
        initial_digests(h, sources).contains_key(s.name),
        initial_digests(h, sources)[s.name] == initial_source_digest(h, s),
{
    let k = lemma_sources_of_index(tdv, j);
    crate::graph::lemma_sources_of_unique(tdv);
    lemma_initial_digests_at(h, sources, k);
}

/// A source node of the target list occurs in the source list.
pub proof fn lemma_sources_of_index(tdv: Seq<crate::graph::TargetView>, j: int) -> (k: int)
    requires
        0 <= j < tdv.len(),
        tdv[j] is Source,
    ensures
        0 <= k < crate::graph::sources_of(tdv).len(),
        crate::graph::sources_of(tdv)[k] == tdv[j]->Source_0,
    decreases tdv.len(),
{
    if j == tdv.len() - 1 {
        crate::graph::sources_of(tdv).len() - 1
    } else {
        let k0 = lemma_sources_of_index(tdv.drop_last(), j);
        assert(tdv.drop_last()[j] == tdv[j]);
        match tdv.last() {
            crate::graph::TargetView::Source(s2) => {
                assert(crate::graph::sources_of(tdv)[k0] == crate::graph::sources_of(
                    tdv.drop_last(),
                )[k0]);
                k0
            },
            _ => {
                k0
            },
        }
    }
}

/// The initial-digest map holds each listed source under its name, with
/// the first occurrence winning (names are unique in loaded graphs).
pub proof fn lemma_initial_digests_at(h: SourceHasherView, sources: Seq<
    crate::graph::SourceView,
>, k: int)
    requires
        0 <= k < sources.len(),
        forall|p: int, q: int|
            0 <= p < q < sources.len() ==> sources[p].name != sources[q].name,
    ensures
        initial_digests(h, sources).contains_key(sources[k].name),
        initial_digests(h, sources)[sources[k].name] == initial_source_digest(h, sources[k]),
    decreases sources.len(),
{
    if k == sources.len() - 1 {
    } else {
        assert(forall|p: int, q: int|
            0 <= p < q < sources.len() - 1 ==> sources.drop_last()[p].name != sources.drop_last()[
                q
            ].name);
        lemma_initial_digests_at(h, sources.drop_last(), k);
        assert(sources.drop_last()[k] == sources[k]);
        assert(sources[k].name != sources.last().name);
    }
}


/// Keeps only the entries whose kind the filter admits.
fn filter_results(results: &SortedMap<TargetHashValue>, filter: &Vec<String>) -> (out: SortedMap<
    TargetHashValue,
>)
    requires
        results.wf(),
    ensures
        out.wf(),
        forall|l: Seq<char>| #[trigger]
            out@.contains_key(l) <==> (results@.contains_key(l) && filter.deep_view().contains(
                results@[l].0.str_spec(),
            )),
        forall|l: Seq<char>| #[trigger] out@.contains_key(l) ==> out@[l] == results@[l],
{
    let ghost edv = results.entries@;
    proof {
        results.lemma_keys_unique();
    }
    let mut out: SortedMap<TargetHashValue> = SortedMap::new();
    let n = results.entries.len();
    let mut i: usize = 0;
    while i < n
        invariant
            i <= n,
            n == edv.len(),
            edv == results.entries@,
            results.wf(),
            out.wf(),
            forall|p: int, q: int| 0 <= p < q < edv.len() ==> edv[p].0@ != edv[q].0@,
            forall|l: Seq<char>| #[trigger]
                out@.contains_key(l) <==> (exists|p: int|
                    0 <= p < i && (#[trigger] edv[p]).0@ == l && filter.deep_view().contains(
                        edv[p].1.deep_view().0.str_spec(),
                    )),
            forall|l: Seq<char>| #[trigger]
                out@.contains_key(l) ==> results@.contains_key(l) && out@[l] == results@[l],
        decreases n - i,
    {
        proof {
            crate::smap::lemma_entries_map_index(edv, i as int);
        }
        let entry_key = &results.entries[i].0;
        let entry_val = &results.entries[i].1;
        let ghost pre = out@;
        if contains_string(filter, entry_val.kind.as_str()) {
            out.insert(entry_key.clone(), copy_value(entry_val));
            proof {
                assert(entry_val.deep_view() == results@[entry_key@]);
                assert forall|l: Seq<char>| #[trigger]
                    out@.contains_key(l) <==> (exists|p: int|
                        0 <= p < i + 1 && (#[trigger] edv[p]).0@ == l
                            && filter.deep_view().contains(
                            edv[p].1.deep_view().0.str_spec(),
                        )) by {
                    if out@.contains_key(l) && l != entry_key@ {
                        assert(pre.contains_key(l));
                        let p = choose|p: int|
                            0 <= p < i && (#[trigger] edv[p]).0@ == l
                                && filter.deep_view().contains(
                                edv[p].1.deep_view().0.str_spec(),
                            );
                        assert(0 <= p < i + 1 && edv[p].0@ == l && filter.deep_view().contains(
                            edv[p].1.deep_view().0.str_spec(),
                        ));
                    }
                    if exists|p: int|
                        0 <= p < i + 1 && (#[trigger] edv[p]).0@ == l
                            && filter.deep_view().contains(edv[p].1.deep_view().0.str_spec()) {
                        let p = choose|p: int|
                            0 <= p < i + 1 && (#[trigger] edv[p]).0@ == l
                                && filter.deep_view().contains(
                                edv[p].1.deep_view().0.str_spec(),
                            );
                        if p < i {
                            assert(pre.contains_key(l));
                        }
                    }
                }
            }
        } else {
            proof {
                assert forall|l: Seq<char>| #[trigger]
                    out@.contains_key(l) <==> (exists|p: int|
                        0 <= p < i + 1 && (#[trigger] edv[p]).0@ == l
                            && filter.deep_view().contains(
                            edv[p].1.deep_view().0.str_spec(),
                        )) by {
                    if !out@.contains_key(l) && (exists|p: int|
                        0 <= p < i + 1 && (#[trigger] edv[p]).0@ == l
                            && filter.deep_view().contains(
                            edv[p].1.deep_view().0.str_spec(),
                        )) {
                        let p = choose|p: int|
                            0 <= p < i + 1 && (#[trigger] edv[p]).0@ == l
                                && filter.deep_view().contains(
                                edv[p].1.deep_view().0.str_spec(),
                            );
                        assert(p == i);
                        assert(edv[i as int].1.deep_view() == results@[edv[i as int].0@]);
                    }
                }
            }
        }
        i = i + 1;
    }
    proof {
        assert forall|l: Seq<char>| #[trigger]
            out@.contains_key(l) <==> (results@.contains_key(l) && filter.deep_view().contains(
                results@[l].0.str_spec(),
            )) by {
            crate::smap::lemma_entries_map_domain(edv, l);
            if results@.contains_key(l) {
                let p = choose|p: int| 0 <= p < edv.len() && (#[trigger] edv[p]).0@ == l;
                crate::smap::lemma_entries_map_index(edv, p);
                assert(edv[p].1.deep_view() == results@[l]);
                assert(edv[p].1.deep_view().0 == results@[l].0);
            }
            if out@.contains_key(l) {
                let p = choose|p: int|
                    0 <= p < n && (#[trigger] edv[p]).0@ == l && filter.deep_view().contains(
                        edv[p].1.deep_view().0.str_spec(),
                    );
                crate::smap::lemma_entries_map_index(edv, p);
            }
        }
    }
    out
}

/// Renders the selected values into the output maps.
fn render_results(selected: &SortedMap<TargetHashValue>, include_kind: bool) -> (out: (
    SortedMap<String>,
    SortedMap<Option<Vec<String>>>,
))
    requires
        selected.wf(),
    ensures
        out.0.wf(),
        out.1.wf(),
        forall|l: Seq<char>| #[trigger] out.0@.contains_key(l) <==> selected@.contains_key(l),
        forall|l: Seq<char>| #[trigger]
            out.0@.contains_key(l) ==> out.0@[l] == value_str(
                selected@[l].0.str_spec(),
                selected@[l].1,
                selected@[l].2,
                include_kind,
            ),
        forall|l: Seq<char>| #[trigger]
            out.1@.contains_key(l) <==> (selected@.contains_key(l) && selected@[l].3 is Some),
        forall|l: Seq<char>| #[trigger]
            out.1@.contains_key(l) ==> out.1@[l] == Some(selected@[l].3->0),
{
    let ghost edv = selected.entries@;
    proof {
        selected.lemma_keys_unique();
    }
    let mut hashes: SortedMap<String> = SortedMap::new();
    let mut dep_edges: SortedMap<Option<Vec<String>>> = SortedMap::new();
    let n = selected.entries.len();
    let mut i: usize = 0;
    while i < n
        invariant
            i <= n,
            n == edv.len(),
            edv == selected.entries@,
            selected.wf(),
            hashes.wf(),
            dep_edges.wf(),
            forall|p: int, q: int| 0 <= p < q < edv.len() ==> edv[p].0@ != edv[q].0@,
            forall|l: Seq<char>| #[trigger]
                hashes@.contains_key(l) <==> (exists|p: int|
                    0 <= p < i && (#[trigger] edv[p]).0@ == l),
            forall|l: Seq<char>| #[trigger]
                hashes@.contains_key(l) ==> selected@.contains_key(l) && hashes@[l] == value_str(
                    selected@[l].0.str_spec(),
                    selected@[l].1,
                    selected@[l].2,
                    include_kind,
                ),
            forall|l: Seq<char>| #[trigger]
                dep_edges@.contains_key(l) <==> (exists|p: int|
                    0 <= p < i && (#[trigger] edv[p]).0@ == l && edv[p].1.deep_view().3 is Some),
            forall|l: Seq<char>| #[trigger]
                dep_edges@.contains_key(l) ==> selected@.contains_key(l) && selected@[l].3
                    is Some && dep_edges@[l] == Some(selected@[l].3->0),
        decreases n - i,
    {
        proof {
            crate::smap::lemma_entries_map_index(edv, i as int);
        }
        let entry_key = &selected.entries[i].0;
        let entry_val = &selected.entries[i].1;
        let rendered = entry_val.render(include_kind);
        let ghost pre_h = hashes@;
        let ghost pre_d = dep_edges@;
        hashes.insert(entry_key.clone(), rendered);
        proof {
            assert(entry_val.deep_view() == selected@[entry_key@]);
            assert forall|l: Seq<char>| #[trigger]
                hashes@.contains_key(l) <==> (exists|p: int|
                    0 <= p < i + 1 && (#[trigger] edv[p]).0@ == l) by {
                if hashes@.contains_key(l) && l != entry_key@ {
                    assert(pre_h.contains_key(l));
                    let p = choose|p: int| 0 <= p < i && (#[trigger] edv[p]).0@ == l;
                    assert(0 <= p < i + 1 && edv[p].0@ == l);
                }
                if exists|p: int| 0 <= p < i + 1 && (#[trigger] edv[p]).0@ == l {
                    let p = choose|p: int| 0 <= p < i + 1 && (#[trigger] edv[p]).0@ == l;
                    if p < i {
                        assert(pre_h.contains_key(l));
                    }
                }
            }
        }
        match &entry_val.deps {
            Some(deps) => {
                dep_edges.insert(entry_key.clone(), Some(crate::graph::copy_strings(deps)));
                proof {
                    assert forall|l: Seq<char>| #[trigger]
                        dep_edges@.contains_key(l) <==> (exists|p: int|
                            0 <= p < i + 1 && (#[trigger] edv[p]).0@ == l
                                && edv[p].1.deep_view().3 is Some) by {
                        if dep_edges@.contains_key(l) && l != entry_key@ {
                            assert(pre_d.contains_key(l));
                            let p = choose|p: int|
                                0 <= p < i && (#[trigger] edv[p]).0@ == l
                                    && edv[p].1.deep_view().3 is Some;
                            assert(0 <= p < i + 1 && edv[p].0@ == l
                                && edv[p].1.deep_view().3 is Some);
                        }
                        if exists|p: int|
                            0 <= p < i + 1 && (#[trigger] edv[p]).0@ == l
                                && edv[p].1.deep_view().3 is Some {
                            let p = choose|p: int|
                                0 <= p < i + 1 && (#[trigger] edv[p]).0@ == l
                                    && edv[p].1.deep_view().3 is Some;
                            if p < i {
                                assert(pre_d.contains_key(l));
                            }
                        }
                    }
                }
            },
            None => {
                proof {
                    assert forall|l: Seq<char>| #[trigger]
                        dep_edges@.contains_key(l) <==> (exists|p: int|
                            0 <= p < i + 1 && (#[trigger] edv[p]).0@ == l
                                && edv[p].1.deep_view().3 is Some) by {
                        if !dep_edges@.contains_key(l) && (exists|p: int|
                            0 <= p < i + 1 && (#[trigger] edv[p]).0@ == l
                                && edv[p].1.deep_view().3 is Some) {
                            let p = choose|p: int|
                                0 <= p < i + 1 && (#[trigger] edv[p]).0@ == l
                                    && edv[p].1.deep_view().3 is Some;
                            assert(p == i);
                        }
                    }
                }
            },
        }
        i = i + 1;
    }
    proof {
        assert forall|l: Seq<char>| #[trigger]
            hashes@.contains_key(l) <==> selected@.contains_key(l) by {
            crate::smap::lemma_entries_map_domain(edv, l);
        }
        assert forall|l: Seq<char>| #[trigger]
            dep_edges@.contains_key(l) <==> (selected@.contains_key(l) && selected@[l].3
                is Some) by {
            crate::smap::lemma_entries_map_domain(edv, l);
            if selected@.contains_key(l) {
                let p = choose|p: int| 0 <= p < edv.len() && (#[trigger] edv[p]).0@ == l;
                crate::smap::lemma_entries_map_index(edv, p);
                assert(edv[p].1.deep_view() == selected@[l]);
            }
        }
    }
    (hashes, dep_edges)
}

impl HashEngine {
    /// Computes the keyed fingerprint map of a loaded graph, and, when
    /// dep-edge tracking is on, the dependency edges of rules and
    /// generated files.
    pub fn compute(&self, graph: &crate::graph::BazelGraph) -> (r: Result<
        GenerateHashesResult,
        DiffError,
    >)
        requires
            self.wf(),
            graph.wf(),
        ensures
            match r {
                Ok(res) => {
                    &&& res.hashes.wf()
                    &&& res.dep_edges.wf()
                    &&& forall|j: int|
                        0 <= j < graph.targets.deep_view().len() ==> node_digest_pair(
                            self.ev(graph),
                            #[trigger] graph.targets.deep_view()[j],
                        ) is Some
                    &&& forall|l: Seq<char>| #[trigger]
                        res.hashes@.contains_key(l) <==> (exists|j: int|
                            0 <= j < graph.targets.deep_view().len() && crate::graph::target_label(
                                #[trigger] graph.targets.deep_view()[j],
                            ) == l && node_passes(
                                graph.targets.deep_view()[j],
                                crate::impact::opt_strings_view(&self.target_types),
                            ))
                    &&& forall|j: int|
                        0 <= j < graph.targets.deep_view().len() && node_passes(
                            #[trigger] graph.targets.deep_view()[j],
                            crate::impact::opt_strings_view(&self.target_types),
                        ) ==> res.hashes@[crate::graph::target_label(
                            graph.targets.deep_view()[j],
                        )] == node_value_str(
                            self.ev(graph),
                            graph.targets.deep_view()[j],
                            self.include_target_type,
                        )
                    &&& forall|l: Seq<char>| #[trigger]
                        res.dep_edges@.contains_key(l) <==> (exists|j: int|
                            0 <= j < graph.targets.deep_view().len() && crate::graph::target_label(
                                #[trigger] graph.targets.deep_view()[j],
                            ) == l && node_passes(
                                graph.targets.deep_view()[j],
                                crate::impact::opt_strings_view(&self.target_types),
                            ) && node_deps_spec(
                                self.ev(graph),
                                graph.targets.deep_view()[j],
                                self.track_dep_edges,
                            ) is Some)
                    &&& forall|j: int|
                        0 <= j < graph.targets.deep_view().len() && node_passes(
                            #[trigger] graph.targets.deep_view()[j],
                            crate::impact::opt_strings_view(&self.target_types),
                        ) && node_deps_spec(
                            self.ev(graph),
                            graph.targets.deep_view()[j],
                            self.track_dep_edges,
                        ) is Some ==> res.dep_edges@[crate::graph::target_label(
                            graph.targets.deep_view()[j],
                        )] == Some(
                            node_deps_spec(
                                self.ev(graph),
                                graph.targets.deep_view()[j],
                                self.track_dep_edges,
                            )->0,
                        )
                },
                Err(e) => {
                    &&& (e is CircularDependency || (e matches DiffError::MissingGeneratingRule(
                        lab,
                    ) && !self.ev(graph).rules.contains_key(lab@) && exists|j: int|
                        0 <= j < graph.targets.deep_view().len() && gen_refs(
                            #[trigger] graph.targets.deep_view()[j],
                            lab@,
                        )))
                    &&& exists|j: int|
                        0 <= j < graph.targets.deep_view().len() && node_digest_pair(
                            self.ev(graph),
                            #[trigger] graph.targets.deep_view()[j],
                        ) is None
                    &&& (e is CircularDependency ==> exists|l: Seq<char>|
                        self.ev(graph).rules.contains_key(l) && (#[trigger] full_digest(
                            self.ev(graph),
                            l,
                        )) is None)
                },
            },
    {
        let ghost ev = self.ev(graph);
        let ghost tdv = graph.targets.deep_view();
        let ghost tf = crate::impact::opt_strings_view(&self.target_types);
        let results = match self.compute_results(graph) {
            Ok(v) => v,
            Err(e) => {
                return Err(e);
            },
        };
        let selected: SortedMap<TargetHashValue> = match &self.target_types {
            Some(filter) => {
                let f = filter_results(&results, filter);
                proof {
                    assert(tf == Some(filter.deep_view()));
                }
                f
            },
            None => results,
        };
        proof {
            assert forall|l: Seq<char>| #[trigger]
                selected@.contains_key(l) <==> (exists|j: int|
                    0 <= j < tdv.len() && crate::graph::target_label(#[trigger] tdv[j]) == l
                        && node_passes(tdv[j], tf)) by {
                if selected@.contains_key(l) {
                    let j = choose|j: int|
                        0 <= j < tdv.len() && crate::graph::target_label(#[trigger] tdv[j]) == l;
                    assert(selected@[l].0 == kind_of(tdv[j]));
                    assert(kind_of(tdv[j]).str_spec() == kind_str(tdv[j]));
                }
                if exists|j: int|
                    0 <= j < tdv.len() && crate::graph::target_label(#[trigger] tdv[j]) == l
                        && node_passes(tdv[j], tf) {
                    let j = choose|j: int|
                        0 <= j < tdv.len() && crate::graph::target_label(#[trigger] tdv[j]) == l
                            && node_passes(tdv[j], tf);
                    assert(results@.contains_key(l));
                    assert(results@[l].0 == kind_of(tdv[j]));
                    assert(kind_of(tdv[j]).str_spec() == kind_str(tdv[j]));
                }
            }
            assert forall|j: int|
                0 <= j < tdv.len() && node_passes(#[trigger] tdv[j], tf)
                    implies selected@.contains_key(crate::graph::target_label(tdv[j]))
                && selected@[crate::graph::target_label(tdv[j])] == result_entry(
                ev,
                tdv[j],
                self.track_dep_edges,
            ) by {
                let l = crate::graph::target_label(tdv[j]);
                assert(0 <= j < tdv.len() && crate::graph::target_label(tdv[j]) == l
                    && node_passes(tdv[j], tf));
                assert(selected@.contains_key(l));
                assert(results@[l] == result_entry(ev, tdv[j], self.track_dep_edges));
            }
        }
        let rendered = render_results(&selected, self.include_target_type);
        let hashes = rendered.0;
        let dep_edges = rendered.1;
        proof {
            assert forall|j: int|
                0 <= j < tdv.len() && node_passes(#[trigger] tdv[j], tf)
                    implies hashes@[crate::graph::target_label(tdv[j])] == node_value_str(
                ev,
                tdv[j],
                self.include_target_type,
            ) by {
                let l = crate::graph::target_label(tdv[j]);
                assert(hashes@.contains_key(l));
                assert(selected@[l] == result_entry(ev, tdv[j], self.track_dep_edges));
                assert(kind_of(tdv[j]).str_spec() == kind_str(tdv[j]));
            }
            assert forall|l: Seq<char>| #[trigger]
                dep_edges@.contains_key(l) <==> (exists|j: int|
                    0 <= j < tdv.len() && crate::graph::target_label(#[trigger] tdv[j]) == l
                        && node_passes(tdv[j], tf) && node_deps_spec(
                        ev,
                        tdv[j],
                        self.track_dep_edges,
                    ) is Some) by {
                if dep_edges@.contains_key(l) {
                    assert(selected@.contains_key(l));
                    let j = choose|j: int|
                        0 <= j < tdv.len() && crate::graph::target_label(#[trigger] tdv[j]) == l
                            && node_passes(tdv[j], tf);
                    assert(selected@[l] == result_entry(ev, tdv[j], self.track_dep_edges));
                }
                if exists|j: int|
                    0 <= j < tdv.len() && crate::graph::target_label(#[trigger] tdv[j]) == l
                        && node_passes(tdv[j], tf) && node_deps_spec(
                        ev,
                        tdv[j],
                        self.track_dep_edges,
                    ) is Some {
                    let j = choose|j: int|
                        0 <= j < tdv.len() && crate::graph::target_label(#[trigger] tdv[j]) == l
                            && node_passes(tdv[j], tf) && node_deps_spec(
                            ev,
                            tdv[j],
                            self.track_dep_edges,
                        ) is Some;
                    assert(selected@.contains_key(l));
                    assert(selected@[l] == result_entry(ev, tdv[j], self.track_dep_edges));
                }
            }
            assert forall|j: int|
                0 <= j < tdv.len() && node_passes(#[trigger] tdv[j], tf) && node_deps_spec(
                    ev,
                    tdv[j],
                    self.track_dep_edges,
                ) is Some implies dep_edges@[crate::graph::target_label(tdv[j])] == Some(
                node_deps_spec(ev, tdv[j], self.track_dep_edges)->0,
            ) by {
                let l = crate::graph::target_label(tdv[j]);
                assert(selected@.contains_key(l));
                assert(selected@[l] == result_entry(ev, tdv[j], self.track_dep_edges));
                assert(dep_edges@.contains_key(l));
            }
        }
        Ok(GenerateHashesResult { hashes, dep_edges })
    }
}


/// A cycle among rule inputs: consecutive labels are rules, each the next
/// one's effective input, distinct from their predecessor, and the path
/// closes on itself.
pub open spec fn rule_cycle(ev: EngineView, p: Seq<Seq<char>>) -> bool {
    &&& p.len() >= 2
    &&& p[0] == p[p.len() - 1]
    &&& forall|i: int| 0 <= i < p.len() ==> ev.rules.contains_key(#[trigger] p[i])
    &&& forall|i: int|
        0 <= i < p.len() - 1 ==> effective_inputs(
            ev.rules[#[trigger] p[i]],
            ev.use_cquery,
            ev.fine_grained,
        ).contains(p[i + 1]) && p[i + 1] != p[i]
}

/// A failed rule dependency poisons the whole input fold.
pub proof fn lemma_fold_poisoned(ev: EngineView, self_l: Seq<char>, inputs: Seq<Seq<char>>,
    avail: Set<Seq<char>>, k: int, i: int)
    requires
        avail.finite(),
        0 <= k < i <= inputs.len(),
        ev.rules.contains_key(inputs[k]),
        inputs[k] != self_l,
        rule_digest_spec(ev, inputs[k], avail) is None,
    ensures
        inputs_fold(ev, self_l, inputs, avail, i) is None,
    decreases i,
{
    if i - 1 > k {
        lemma_fold_poisoned(ev, self_l, inputs, avail, k, i - 1);
    }
}

/// A rule on a cycle has no digest, whatever is still available: the walk
/// re-enters the cycle and finds a label it has already left.
pub proof fn lemma_cycle_no_digest(ev: EngineView, p: Seq<Seq<char>>, avail: Set<Seq<char>>)
    requires
        rule_cycle(ev, p),
        avail.finite(),
    ensures
        rule_digest_spec(ev, p[0], avail) is None,
    decreases avail.len(),
{
    if avail.contains(p[0]) {
        let r = ev.rules[p[0]];
        let inputs = effective_inputs(r, ev.use_cquery, ev.fine_grained);
        assert(inputs.contains(p[1]));
        let k = choose|k: int| 0 <= k < inputs.len() && inputs[k] == p[1];
        let avail2 = avail.remove(p[0]);
        let p2 = p.subrange(1, p.len() as int).push(p[1]);
        assert(rule_cycle(ev, p2)) by {
            assert(p2.len() == p.len());
            assert forall|i: int| 0 <= i < p2.len() implies ev.rules.contains_key(
                #[trigger] p2[i],
            ) by {
                if i < p.len() - 1 {
                    assert(p2[i] == p[i + 1]);
                } else {
                    assert(p2[i] == p[1]);
                }
            }
            assert(p2[0] == p[1]);
            assert(p2[p2.len() - 1] == p[1]);
            assert forall|i: int|
                0 <= i < p2.len() - 1 implies effective_inputs(
                ev.rules[#[trigger] p2[i]],
                ev.use_cquery,
                ev.fine_grained,
            ).contains(p2[i + 1]) && p2[i + 1] != p2[i] by {
                if i < p.len() - 2 {
                    assert(p2[i] == p[i + 1]);
                    assert(p2[i + 1] == p[i + 2]);
                } else {
                    assert(i == p.len() - 2);
                    assert(p2[i] == p[p.len() - 1]);
                    assert(p2[i] == p[0]);
                    assert(p2[i + 1] == p[1]);
                }
            }
        }
        lemma_cycle_no_digest(ev, p2, avail2);
        assert(rule_digest_spec(ev, p[1], avail2) is None);
        lemma_fold_poisoned(ev, p[0], inputs, avail2, k, inputs.len() as int);
    }
}

/// A cyclic rule graph admits no successful run: some rule on the cycle
/// would need a digest it cannot have, so the driver reports an error and
/// emits no map.
pub proof fn lemma_cycle_forces_failure(ev: EngineView, tdv: Seq<crate::graph::TargetView>,
    p: Seq<Seq<char>>, j: int)
    requires
        rule_cycle(ev, p),
        ev.rules.dom().finite(),
        0 <= j < tdv.len(),
        tdv[j] matches crate::graph::TargetView::Rule(r) && r.name == p[0],
    ensures
        node_digest_pair(ev, tdv[j]) is None,
{
    lemma_cycle_no_digest(ev, p, ev.rules.dom());
}


/// Every key of the initial-digest map names some listed source.
pub proof fn lemma_initial_digests_domain(h: SourceHasherView, sources: Seq<
    crate::graph::SourceView,
>, nm: Seq<char>)
    requires
        initial_digests(h, sources).contains_key(nm),
    ensures
        exists|k: int| 0 <= k < sources.len() && (#[trigger] sources[k]).name == nm,
    decreases sources.len(),
{
    if sources.len() > 0 {
        if nm == sources.last().name {
            assert(sources[sources.len() - 1].name == nm);
        } else {
            lemma_initial_digests_domain(h, sources.drop_last(), nm);
            let k = choose|k: int|
                0 <= k < sources.len() - 1 && (#[trigger] sources.drop_last()[k]).name == nm;
            assert(sources[k].name == nm);
        }
    }
}

/// Two uniquely-labeled node lists with the same members load the same
/// rule map and the same initial source digests; only order differs.
pub proof fn lemma_same_members_same_views(h: SourceHasherView, ts1: Seq<
    crate::graph::TargetView,
>, ts2: Seq<crate::graph::TargetView>)
    requires
        forall|p: int, q: int|
            0 <= p < q < ts1.len() ==> crate::graph::target_label(#[trigger] ts1[p])
                != crate::graph::target_label(#[trigger] ts1[q]),
        forall|p: int, q: int|
            0 <= p < q < ts2.len() ==> crate::graph::target_label(#[trigger] ts2[p])
                != crate::graph::target_label(#[trigger] ts2[q]),
        forall|j: int| 0 <= j < ts1.len() ==> ts2.contains(#[trigger] ts1[j]),
        forall|j: int| 0 <= j < ts2.len() ==> ts1.contains(#[trigger] ts2[j]),
    ensures
        crate::graph::rules_of(ts1) == crate::graph::rules_of(ts2),
        initial_digests(h, crate::graph::sources_of(ts1)) == initial_digests(
            h,
            crate::graph::sources_of(ts2),
        ),
{
    lemma_rules_map_transfer(ts1, ts2);
    lemma_rules_map_transfer(ts2, ts1);
    assert(crate::graph::rules_of(ts1) =~= crate::graph::rules_of(ts2));
    lemma_digest_map_transfer(h, ts1, ts2);
    lemma_digest_map_transfer(h, ts2, ts1);
    assert(initial_digests(h, crate::graph::sources_of(ts1)) =~= initial_digests(
        h,
        crate::graph::sources_of(ts2),
    ));
}

/// Every rule-map entry of `ts1` is an entry of `ts2` with the same value.
proof fn lemma_rules_map_transfer(ts1: Seq<crate::graph::TargetView>, ts2: Seq<
    crate::graph::TargetView,
>)
    requires
        forall|p: int, q: int|
            0 <= p < q < ts1.len() ==> crate::graph::target_label(#[trigger] ts1[p])
                != crate::graph::target_label(#[trigger] ts1[q]),
        forall|p: int, q: int|
            0 <= p < q < ts2.len() ==> crate::graph::target_label(#[trigger] ts2[p])
                != crate::graph::target_label(#[trigger] ts2[q]),
        forall|j: int| 0 <= j < ts1.len() ==> ts2.contains(#[trigger] ts1[j]),
    ensures
        forall|l: Seq<char>| #[trigger]
            crate::graph::rules_of(ts1).contains_key(l) ==> crate::graph::rules_of(
                ts2,
            ).contains_key(l) && crate::graph::rules_of(ts2)[l] == crate::graph::rules_of(ts1)[l],
{
    assert forall|l: Seq<char>| #[trigger]
        crate::graph::rules_of(ts1).contains_key(l) implies crate::graph::rules_of(
        ts2,
    ).contains_key(l) && crate::graph::rules_of(ts2)[l] == crate::graph::rules_of(ts1)[l] by {
        crate::graph::lemma_rules_of_domain(ts1, l);
        let j = choose|j: int|
            0 <= j < ts1.len() && crate::graph::is_rule_named(#[trigger] ts1[j], l);
        crate::graph::lemma_rules_of_member(ts1, j);
        assert(ts2.contains(ts1[j]));
        let j2 = choose|j2: int| 0 <= j2 < ts2.len() && ts2[j2] == ts1[j];
        crate::graph::lemma_rules_of_member(ts2, j2);
    }
}

/// Every initial-digest entry of `ts1`'s sources is one of `ts2`'s.
proof fn lemma_digest_map_transfer(h: SourceHasherView, ts1: Seq<crate::graph::TargetView>,
    ts2: Seq<crate::graph::TargetView>)
    requires
        forall|p: int, q: int|
            0 <= p < q < ts1.len() ==> crate::graph::target_label(#[trigger] ts1[p])
                != crate::graph::target_label(#[trigger] ts1[q]),
        forall|p: int, q: int|
            0 <= p < q < ts2.len() ==> crate::graph::target_label(#[trigger] ts2[p])
                != crate::graph::target_label(#[trigger] ts2[q]),
        forall|j: int| 0 <= j < ts1.len() ==> ts2.contains(#[trigger] ts1[j]),
    ensures
        forall|nm: Seq<char>| #[trigger]
            initial_digests(h, crate::graph::sources_of(ts1)).contains_key(nm)
                ==> initial_digests(h, crate::graph::sources_of(ts2)).contains_key(nm)
                && initial_digests(h, crate::graph::sources_of(ts2))[nm] == initial_digests(
                h,
                crate::graph::sources_of(ts1),
            )[nm],
{
    let s1 = crate::graph::sources_of(ts1);
    let s2 = crate::graph::sources_of(ts2);
    crate::graph::lemma_sources_of_unique(ts1);
    crate::graph::lemma_sources_of_unique(ts2);
    assert forall|nm: Seq<char>| #[trigger]
        initial_digests(h, s1).contains_key(nm) implies initial_digests(h, s2).contains_key(nm)
        && initial_digests(h, s2)[nm] == initial_digests(h, s1)[nm] by {
        lemma_initial_digests_domain(h, s1, nm);
        let k = choose|k: int| 0 <= k < s1.len() && (#[trigger] s1[k]).name == nm;
        lemma_initial_digests_at(h, s1, k);
        crate::graph::lemma_sources_of_member(ts1, k);
        let j = choose|j: int|
            0 <= j < ts1.len() && #[trigger] ts1[j] == crate::graph::TargetView::Source(s1[k]);
        assert(ts2.contains(ts1[j]));
        let j2 = choose|j2: int| 0 <= j2 < ts2.len() && ts2[j2] == ts1[j];
        let k2 = lemma_sources_of_index(ts2, j2);
        assert(s2[k2] == s1[k]);
        lemma_initial_digests_at(h, s2, k2);
    }
}


/// Source-change localization, rule side: a rule digest is a function of
/// the rule map, the run options and the per-label source contributions
/// alone, so a change that leaves every consulted contribution equal
/// leaves every rule's direct and overall hash equal.
pub proof fn lemma_rule_digest_frame(ev1: EngineView, ev2: EngineView, l: Seq<char>, avail: Set<
    Seq<char>,
>)
    requires
        avail.finite(),
        ev1.rules == ev2.rules,
        ev1.seed_hash == ev2.seed_hash,
        ev1.ignored == ev2.ignored,
        ev1.fine_grained == ev2.fine_grained,
        ev1.use_cquery == ev2.use_cquery,
        forall|x: Seq<char>| #[trigger]
            source_contribution(ev1, x) == source_contribution(ev2, x),
    ensures
        rule_digest_spec(ev1, l, avail) == rule_digest_spec(ev2, l, avail),
    decreases avail.len(), 0int,
{
    if ev1.rules.contains_key(l) && avail.contains(l) {
        let r = ev1.rules[l];
        let inputs = effective_inputs(r, ev1.use_cquery, ev1.fine_grained);
        lemma_inputs_fold_frame(ev1, ev2, l, inputs, avail.remove(l), inputs.len() as int);
    }
}

/// The fold of a rule's inputs agrees across the two views.
proof fn lemma_inputs_fold_frame(ev1: EngineView, ev2: EngineView, self_l: Seq<char>, inputs: Seq<
    Seq<char>,
>, avail: Set<Seq<char>>, i: int)
    requires
        avail.finite(),
        0 <= i <= inputs.len(),
        ev1.rules == ev2.rules,
        ev1.seed_hash == ev2.seed_hash,
        ev1.ignored == ev2.ignored,
        ev1.fine_grained == ev2.fine_grained,
        ev1.use_cquery == ev2.use_cquery,
        forall|x: Seq<char>| #[trigger]
            source_contribution(ev1, x) == source_contribution(ev2, x),
    ensures
        inputs_fold(ev1, self_l, inputs, avail, i) == inputs_fold(ev2, self_l, inputs, avail, i),
    decreases avail.len(), i,
{
    if i > 0 {
        lemma_inputs_fold_frame(ev1, ev2, self_l, inputs, avail, i - 1);
        let x = inputs[i - 1];
        if ev1.rules.contains_key(x) && x != self_l {
            lemma_rule_digest_frame(ev1, ev2, x, avail);
        } else {
            assert(source_contribution(ev1, x) == source_contribution(ev2, x));
        }
    }
}

} // verus!
