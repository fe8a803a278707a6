//! The typed build-graph model and the loader that partitions a decoded
//! node sequence into rules, source files and generated files.

use vstd::prelude::*;

use crate::smap::SortedMap;
use crate::strutil::str_eq;

verus! {

/// A rule attribute: its name and its canonical serialized bytes, exactly
/// as they appeared in the snapshot.
pub struct BazelAttribute {
    pub name: String,
    pub encoded: Vec<u8>,
}

/// The view of an attribute.
pub struct AttrView {
    pub name: Seq<char>,
    pub bytes: Seq<u8>,
}

impl DeepView for BazelAttribute {
    type V = AttrView;

    open spec fn deep_view(&self) -> AttrView {
        AttrView { name: self.name@, bytes: self.encoded@ }
    }
}

/// A rule node.
pub struct BazelRule {
    pub name: String,
    pub rule_class: String,
    pub skylark_environment_hash_code: Option<String>,
    pub attributes: Vec<BazelAttribute>,
    pub rule_inputs: Vec<String>,
    pub configured_rule_inputs: Vec<String>,
}

/// The view of a rule node.
pub struct RuleView {
    pub name: Seq<char>,
    pub rule_class: Seq<char>,
    pub env_hash: Option<Seq<char>>,
    pub attrs: Seq<AttrView>,
    pub rule_inputs: Seq<Seq<char>>,
    pub configured_rule_inputs: Seq<Seq<char>>,
}

impl DeepView for BazelRule {
    type V = RuleView;

    open spec fn deep_view(&self) -> RuleView {
        RuleView {
            name: self.name@,
            rule_class: self.rule_class@,
            env_hash: match self.skylark_environment_hash_code {
                Some(e) => Some(e@),
                None => None,
            },
            attrs: self.attributes.deep_view(),
            rule_inputs: self.rule_inputs.deep_view(),
            configured_rule_inputs: self.configured_rule_inputs.deep_view(),
        }
    }
}

/// A source-file node.
pub struct BazelSource {
    pub name: String,
    pub subincludes: Vec<String>,
}

/// The view of a source-file node.
pub struct SourceView {
    pub name: Seq<char>,
    pub subincludes: Seq<Seq<char>>,
}

impl DeepView for BazelSource {
    type V = SourceView;

    open spec fn deep_view(&self) -> SourceView {
        SourceView { name: self.name@, subincludes: self.subincludes.deep_view() }
    }
}

/// A generated-file node.
pub struct BazelGenerated {
    pub name: String,
    pub generating_rule: String,
}

/// The view of a generated-file node.
pub struct GeneratedView {
    pub name: Seq<char>,
    pub generating_rule: Seq<char>,
}

impl DeepView for BazelGenerated {
    type V = GeneratedView;

    open spec fn deep_view(&self) -> GeneratedView {
        GeneratedView { name: self.name@, generating_rule: self.generating_rule@ }
    }
}

/// One decoded graph node.
pub enum BazelTarget {
    Rule(BazelRule),
    Source(BazelSource),
    Generated(BazelGenerated),
}

/// The view of a graph node.
pub enum TargetView {
    Rule(RuleView),
    Source(SourceView),
    Generated(GeneratedView),
}

impl DeepView for BazelTarget {
    type V = TargetView;

    open spec fn deep_view(&self) -> TargetView {
        match self {
            BazelTarget::Rule(r) => TargetView::Rule(r.deep_view()),
            BazelTarget::Source(s) => TargetView::Source(s.deep_view()),
            BazelTarget::Generated(g) => TargetView::Generated(g.deep_view()),
        }
    }
}

/// The label of a node view.
pub open spec fn target_label(t: TargetView) -> Seq<char> {
    match t {
        TargetView::Rule(r) => r.name,
        TargetView::Source(s) => s.name,
        TargetView::Generated(g) => g.name,
    }
}

impl BazelTarget {
    /// The node's label.
    pub fn label(&self) -> (r: &str)
        ensures
            r@ == target_label(self.deep_view()),
    {
        match self {
            BazelTarget::Rule(r) => r.name.as_str(),
            BazelTarget::Source(s) => s.name.as_str(),
            BazelTarget::Generated(g) => g.name.as_str(),
        }
    }
}

/// Whether a node is dropped by the external-target exclusion.
pub open spec fn excluded(t: TargetView, exclude_external: bool) -> bool {
    exclude_external && target_label(t).len() > 0 && target_label(t)[0] == '@'
}

/// The nodes kept by the loader: first occurrence of each label wins, and
/// excluded labels are dropped.
pub open spec fn load_spec(nodes: Seq<TargetView>, exclude_external: bool) -> Seq<TargetView>
    decreases nodes.len(),
{
    if nodes.len() == 0 {
        Seq::empty()
    } else {
        let prefix = load_spec(nodes.drop_last(), exclude_external);
        let nd = nodes.last();
        if !excluded(nd, exclude_external) && (forall|j: int|
            0 <= j < nodes.len() - 1 ==> target_label(#[trigger] nodes[j]) != target_label(nd)) {
            prefix.push(nd)
        } else {
            prefix
        }
    }
}

/// The rule map of a kept-node sequence.
pub open spec fn rules_of(ts: Seq<TargetView>) -> Map<Seq<char>, RuleView>
    decreases ts.len(),
{
    if ts.len() == 0 {
        Map::empty()
    } else {
        match ts.last() {
            TargetView::Rule(r) => rules_of(ts.drop_last()).insert(r.name, r),
            _ => rules_of(ts.drop_last()),
        }
    }
}

/// The source nodes of a kept-node sequence, in order.
pub open spec fn sources_of(ts: Seq<TargetView>) -> Seq<SourceView>
    decreases ts.len(),
{
    if ts.len() == 0 {
        Seq::empty()
    } else {
        match ts.last() {
            TargetView::Source(s) => sources_of(ts.drop_last()).push(s),
            _ => sources_of(ts.drop_last()),
        }
    }
}

/// The loaded graph: the kept nodes in order, the rules keyed by label,
/// and the sources in order.
pub struct BazelGraph {
    pub targets: Vec<BazelTarget>,
    pub rule_map: SortedMap<BazelRule>,
    pub sources: Vec<BazelSource>,
    pub use_cquery: bool,
}

impl BazelGraph {
    /// The loaded parts agree with the kept-node sequence.
    pub open spec fn wf(&self) -> bool {
        &&& self.rule_map.wf()
        &&& self.rule_map@ == rules_of(self.targets.deep_view())
        &&& self.sources.deep_view() == sources_of(self.targets.deep_view())
        &&& forall|p: int, q: int|
            0 <= p < q < self.targets.deep_view().len() ==> target_label(
                #[trigger] self.targets.deep_view()[p],
            ) != target_label(#[trigger] self.targets.deep_view()[q])
    }

    /// Partitions a decoded node sequence. Labels seen more than once keep
    /// their first occurrence; with `exclude_external`, labels starting
    /// with `@` are dropped.
    pub fn load(nodes: Vec<BazelTarget>, exclude_external: bool, use_cquery: bool) -> (r:
        BazelGraph)
        ensures
            r.wf(),
            r.targets.deep_view() == load_spec(nodes.deep_view(), exclude_external),
            r.use_cquery == use_cquery,
    {
        let ghost ndv = nodes.deep_view();
        let n = nodes.len();
        let mut targets: Vec<BazelTarget> = Vec::new();
        let mut rule_map: SortedMap<BazelRule> = SortedMap::new();
        let mut sources: Vec<BazelSource> = Vec::new();
        let mut i: usize = 0;
        proof {
            assert(load_spec(ndv.take(0), exclude_external) =~= Seq::<TargetView>::empty());
        }
        while i < n
            invariant
                i <= n,
                n == ndv.len(),
                ndv == nodes.deep_view(),
                targets.deep_view() == load_spec(ndv.take(i as int), exclude_external),
                rule_map.wf(),
                rule_map@ == rules_of(targets.deep_view()),
                sources.deep_view() == sources_of(targets.deep_view()),
                forall|p: int, q: int|
                    0 <= p < q < targets.deep_view().len() ==> target_label(
                        #[trigger] targets.deep_view()[p],
                    ) != target_label(#[trigger] targets.deep_view()[q]),
            decreases n - i,
        {
            proof {
                assert(ndv.take(i + 1).drop_last() =~= ndv.take(i as int));
                assert(ndv.take(i + 1).last() == ndv[i as int]);
            }
            let node = &nodes[i];
            proof {
                assert(node.deep_view() == ndv[i as int]);
            }
            let lab = node.label();
            let drop_external = exclude_external && {
                let ln = crate::strutil::str_len(lab);
                ln > 0 && lab.get_char(0) == '@'
            };
            let mut first = true;
            let mut j: usize = 0;
            while j < i
                invariant
                    j <= i,
                    i < n,
                    n == ndv.len(),
                    ndv == nodes.deep_view(),
                    lab@ == target_label(ndv[i as int]),
                    first == (forall|q: int|
                        0 <= q < j ==> target_label(#[trigger] ndv[q]) != target_label(
                            ndv[i as int],
                        )),
                decreases i - j,
            {
                proof {
                    assert(nodes@[j as int].deep_view() == ndv[j as int]);
                }
                if str_eq(nodes[j].label(), lab) {
                    first = false;
                    proof {
                        assert(target_label(ndv[j as int]) == target_label(ndv[i as int]));
                    }
                }
                j = j + 1;
            }
            if first && !drop_external {
                let kept_node = copy_target(node);
                let ghost pre_t = targets@;
                let ghost pre_tdv = targets.deep_view();
                match &kept_node {
                    BazelTarget::Rule(r) => {
                        rule_map.insert(r.name.clone(), copy_rule(r));
                    },
                    BazelTarget::Source(s) => {
                        let ghost pre_s = sources@;
                        let ghost pre_sdv = sources.deep_view();
                        sources.push(copy_source(s));
                        proof {
                            assert forall|q: int|
                                0 <= q < sources.deep_view().len()
                                    implies sources.deep_view()[q] == pre_sdv.push(
                                ndv[i as int]->Source_0,
                            )[q] by {
                                assert(sources.deep_view()[q] == sources@[q].deep_view());
                                if q < pre_s.len() {
                                    assert(sources@[q] == pre_s[q]);
                                    assert(pre_sdv[q] == pre_s[q].deep_view());
                                }
                            }
                            assert(sources.deep_view() =~= pre_sdv.push(ndv[i as int]->Source_0));
                        }
                    },
                    BazelTarget::Generated(_) => {},
                }
                targets.push(kept_node);
                proof {
                    assert forall|q: int|
                        0 <= q < targets.deep_view().len() implies targets.deep_view()[q]
                        == pre_tdv.push(ndv[i as int])[q] by {
                        assert(targets.deep_view()[q] == targets@[q].deep_view());
                        if q < pre_t.len() {
                            assert(targets@[q] == pre_t[q]);
                            assert(pre_tdv[q] == pre_t[q].deep_view());
                        }
                    }
                    assert(targets.deep_view() =~= pre_tdv.push(ndv[i as int]));
                    assert(load_spec(ndv.take(i + 1), exclude_external) == pre_tdv.push(
                        ndv[i as int],
                    ));
                    assert(targets.deep_view().drop_last() =~= pre_tdv);
                    assert(targets.deep_view().last() == ndv[i as int]);
                    assert(rules_of(targets.deep_view()) == rule_map@) by {
                        match ndv[i as int] {
                            TargetView::Rule(rv) => {
                                assert(rules_of(targets.deep_view()) == rules_of(pre_tdv).insert(
                                    rv.name,
                                    rv,
                                ));
                            },
                            TargetView::Source(sv) => {
                                assert(rules_of(targets.deep_view()) == rules_of(pre_tdv));
                            },
                            TargetView::Generated(gv) => {
                                assert(rules_of(targets.deep_view()) == rules_of(pre_tdv));
                            },
                        }
                    }
                    assert(sources_of(targets.deep_view()) == sources.deep_view()) by {
                        match ndv[i as int] {
                            TargetView::Rule(rv) => {
                                assert(sources_of(targets.deep_view()) == sources_of(pre_tdv));
                            },
                            TargetView::Source(sv) => {
                                assert(sources_of(targets.deep_view()) == sources_of(
                                    pre_tdv,
                                ).push(sv));
                            },
                            TargetView::Generated(gv) => {
                                assert(sources_of(targets.deep_view()) == sources_of(pre_tdv));
                            },
                        }
                    }
                    assert forall|p: int, q: int|
                        0 <= p < q < targets.deep_view().len() implies target_label(
                        #[trigger] targets.deep_view()[p],
                    ) != target_label(#[trigger] targets.deep_view()[q]) by {
                        if q == targets.deep_view().len() - 1 {
                            let tv = targets.deep_view()[p];
                            lemma_load_spec_members(ndv.take(i as int), exclude_external, p);
                        }
                    }
                }
            } else {
                proof {
                    assert(ndv.take(i + 1).drop_last() =~= ndv.take(i as int));
                    assert(ndv.take(i + 1).last() == ndv[i as int]);
                    if !first {
                        let q = choose|q: int|
                            0 <= q < i && target_label(#[trigger] ndv[q]) == target_label(
                                ndv[i as int],
                            );
                        assert(ndv.take(i + 1)[q] == ndv[q]);
                    } else {
                        assert(excluded(ndv[i as int], exclude_external));
                    }
                    assert(load_spec(ndv.take(i + 1), exclude_external) == targets.deep_view());
                }
            }
            i = i + 1;
        }
        proof {
            assert(ndv.take(n as int) =~= ndv);
        }
        BazelGraph { targets, rule_map, sources, use_cquery }
    }
}

/// Every kept node occurs among the input nodes.
pub proof fn lemma_load_spec_members(nodes: Seq<TargetView>, exclude_external: bool, p: int)
    requires
        0 <= p < load_spec(nodes, exclude_external).len(),
    ensures
        exists|j: int|
            0 <= j < nodes.len() && #[trigger] nodes[j] == load_spec(nodes, exclude_external)[p],
    decreases nodes.len(),
{
    if nodes.len() > 0 {
        let prefix = load_spec(nodes.drop_last(), exclude_external);
        if p < prefix.len() {
            lemma_load_spec_members(nodes.drop_last(), exclude_external, p);
            let j = choose|j: int|
                0 <= j < nodes.drop_last().len() && #[trigger] nodes.drop_last()[j] == prefix[p];
            assert(nodes[j] == prefix[p]);
        } else {
            assert(nodes[nodes.len() - 1] == load_spec(nodes, exclude_external)[p]);
        }
    }
}

/// Every rule value in the rule map carries its key as its name.
pub proof fn lemma_rules_of_names(ts: Seq<TargetView>, l: Seq<char>)
    requires
        rules_of(ts).contains_key(l),
    ensures
        rules_of(ts)[l].name == l,
    decreases ts.len(),
{
    if ts.len() > 0 {
        match ts.last() {
            TargetView::Rule(r) => {
                if l != r.name {
                    lemma_rules_of_names(ts.drop_last(), l);
                }
            },
            _ => {
                lemma_rules_of_names(ts.drop_last(), l);
            },
        }
    }
}

/// A rule node of a uniquely-labeled sequence is its map's entry.
pub proof fn lemma_rules_of_member(ts: Seq<TargetView>, j: int)
    requires
        0 <= j < ts.len(),
        ts[j] is Rule,
        forall|p: int, q: int|
            0 <= p < q < ts.len() ==> target_label(#[trigger] ts[p]) != target_label(
                #[trigger] ts[q],
            ),
    ensures
        rules_of(ts).contains_key(ts[j]->Rule_0.name),
        rules_of(ts)[ts[j]->Rule_0.name] == ts[j]->Rule_0,
    decreases ts.len(),
{
    if j == ts.len() - 1 {
    } else {
        assert(forall|p: int, q: int|
            0 <= p < q < ts.len() - 1 ==> target_label(#[trigger] ts.drop_last()[p])
                != target_label(#[trigger] ts.drop_last()[q]));
        lemma_rules_of_member(ts.drop_last(), j);
        match ts.last() {
            TargetView::Rule(r) => {
                assert(target_label(ts[j]) != target_label(ts[ts.len() - 1]));
                assert(r.name != ts[j]->Rule_0.name);
            },
            _ => {},
        }
        assert(ts.drop_last()[j] == ts[j]);
    }
}

/// Every source of a kept-node sequence occurs in it.
pub proof fn lemma_sources_of_member(ts: Seq<TargetView>, k: int)
    requires
        0 <= k < sources_of(ts).len(),
    ensures
        exists|j: int|
            0 <= j < ts.len() && #[trigger] ts[j] == TargetView::Source(sources_of(ts)[k]),
    decreases ts.len(),
{
    if ts.len() > 0 {
        let prefix = sources_of(ts.drop_last());
        if k < prefix.len() {
            lemma_sources_of_member(ts.drop_last(), k);
            let j = choose|j: int|
                0 <= j < ts.len() - 1 && #[trigger] ts.drop_last()[j] == TargetView::Source(
                    prefix[k],
                );
            assert(ts[j] == TargetView::Source(sources_of(ts)[k]));
        } else {
            match ts.last() {
                TargetView::Source(s) => {
                    assert(ts[ts.len() - 1] == TargetView::Source(sources_of(ts)[k]));
                },
                _ => {},
            }
        }
    }
}

/// The sources of a uniquely-labeled sequence have distinct names.
pub proof fn lemma_sources_of_unique(ts: Seq<TargetView>)
    requires
        forall|p: int, q: int|
            0 <= p < q < ts.len() ==> target_label(#[trigger] ts[p]) != target_label(
                #[trigger] ts[q],
            ),
    ensures
        forall|p: int, q: int|
            0 <= p < q < sources_of(ts).len() ==> sources_of(ts)[p].name != sources_of(
                ts,
            )[q].name,
    decreases ts.len(),
{
    if ts.len() > 0 {
        assert(forall|p: int, q: int|
            0 <= p < q < ts.len() - 1 ==> target_label(#[trigger] ts.drop_last()[p])
                != target_label(#[trigger] ts.drop_last()[q]));
        lemma_sources_of_unique(ts.drop_last());
        match ts.last() {
            TargetView::Source(s) => {
                assert(sources_of(ts) == sources_of(ts.drop_last()).push(s));
                assert forall|p: int, q: int|
                    0 <= p < q < sources_of(ts).len() implies sources_of(ts)[p].name
                    != sources_of(ts)[q].name by {
                    let prefix = sources_of(ts.drop_last());
                    if q == sources_of(ts).len() - 1 {
                        lemma_sources_of_member(ts.drop_last(), p);
                        let j = choose|j: int|
                            0 <= j < ts.len() - 1 && #[trigger] ts.drop_last()[j]
                                == TargetView::Source(prefix[p]);
                        assert(ts[j] == TargetView::Source(prefix[p]));
                        assert(target_label(ts[j]) != target_label(ts[ts.len() - 1]));
                    } else {
                        assert(prefix[p].name != prefix[q].name);
                    }
                }
            },
            _ => {
                assert(sources_of(ts) == sources_of(ts.drop_last()));
            },
        }
    }
}


/// Whether a node is a rule named `l`.
pub open spec fn is_rule_named(t: TargetView, l: Seq<char>) -> bool {
    t matches TargetView::Rule(r) && r.name == l
}

/// Every key of the rule map names some rule node.
pub proof fn lemma_rules_of_domain(ts: Seq<TargetView>, l: Seq<char>)
    requires
        rules_of(ts).contains_key(l),
    ensures
        exists|j: int| 0 <= j < ts.len() && is_rule_named(#[trigger] ts[j], l),
    decreases ts.len(),
{
    if ts.len() > 0 {
        match ts.last() {
            TargetView::Rule(r) => {
                if l == r.name {
                    assert(is_rule_named(ts[ts.len() - 1], l));
                } else {
                    lemma_rules_of_domain(ts.drop_last(), l);
                    let j = choose|j: int|
                        0 <= j < ts.len() - 1 && is_rule_named(#[trigger] ts.drop_last()[j], l);
                    assert(ts[j] == ts.drop_last()[j]);
                    assert(is_rule_named(ts[j], l));
                }
            },
            _ => {
                lemma_rules_of_domain(ts.drop_last(), l);
                let j = choose|j: int|
                    0 <= j < ts.len() - 1 && is_rule_named(#[trigger] ts.drop_last()[j], l);
                assert(ts[j] == ts.drop_last()[j]);
                assert(is_rule_named(ts[j], l));
            },
        }
    }
}


/// With unique labels, every node the exclusion keeps is loaded.
pub proof fn lemma_load_spec_complete(nodes: Seq<TargetView>, exclude_external: bool, j: int)
    requires
        forall|p: int, q: int|
            0 <= p < q < nodes.len() ==> target_label(#[trigger] nodes[p]) != target_label(
                #[trigger] nodes[q],
            ),
        0 <= j < nodes.len(),
        !excluded(nodes[j], exclude_external),
    ensures
        load_spec(nodes, exclude_external).contains(nodes[j]),
    decreases nodes.len(),
{
    if j == nodes.len() - 1 {
        assert(forall|p: int|
            0 <= p < nodes.len() - 1 ==> target_label(#[trigger] nodes[p]) != target_label(
                nodes.last(),
            ));
        let kept = load_spec(nodes, exclude_external);
        assert(kept.last() == nodes[j]);
        assert(kept[kept.len() - 1] == nodes[j]);
    } else {
        assert(forall|p: int, q: int|
            0 <= p < q < nodes.len() - 1 ==> target_label(#[trigger] nodes.drop_last()[p])
                != target_label(#[trigger] nodes.drop_last()[q]));
        assert(nodes.drop_last()[j] == nodes[j]);
        lemma_load_spec_complete(nodes.drop_last(), exclude_external, j);
        let prefix = load_spec(nodes.drop_last(), exclude_external);
        let k = choose|k: int| 0 <= k < prefix.len() && prefix[k] == nodes[j];
        assert(load_spec(nodes, exclude_external)[k] == nodes[j]);
    }
}

/// Every loaded node survived the exclusion.
pub proof fn lemma_load_spec_not_excluded(nodes: Seq<TargetView>, exclude_external: bool, p: int)
    requires
        0 <= p < load_spec(nodes, exclude_external).len(),
    ensures
        !excluded(load_spec(nodes, exclude_external)[p], exclude_external),
    decreases nodes.len(),
{
    if nodes.len() > 0 {
        let prefix = load_spec(nodes.drop_last(), exclude_external);
        if p < prefix.len() {
            lemma_load_spec_not_excluded(nodes.drop_last(), exclude_external, p);
        }
    }
}


/// The loaded nodes carry pairwise distinct labels, whatever the input.
pub proof fn lemma_load_spec_unique(nodes: Seq<TargetView>, exclude_external: bool)
    ensures
        forall|p: int, q: int|
            0 <= p < q < load_spec(nodes, exclude_external).len() ==> target_label(
                #[trigger] load_spec(nodes, exclude_external)[p],
            ) != target_label(#[trigger] load_spec(nodes, exclude_external)[q]),
    decreases nodes.len(),
{
    if nodes.len() > 0 {
        lemma_load_spec_unique(nodes.drop_last(), exclude_external);
        let prefix = load_spec(nodes.drop_last(), exclude_external);
        let kept = load_spec(nodes, exclude_external);
        assert forall|p: int, q: int|
            0 <= p < q < kept.len() implies target_label(#[trigger] kept[p]) != target_label(
            #[trigger] kept[q],
        ) by {
            if q == kept.len() - 1 && kept.len() == prefix.len() + 1 {
                lemma_load_spec_members(nodes.drop_last(), exclude_external, p);
                let j = choose|j: int|
                    0 <= j < nodes.len() - 1 && #[trigger] nodes.drop_last()[j] == prefix[p];
                assert(nodes[j] == prefix[p]);
                assert(target_label(nodes[j]) != target_label(nodes.last()));
            }
        }
    }
}

/// A field-for-field copy of an attribute.
fn copy_attr(a: &BazelAttribute) -> (r: BazelAttribute)
    ensures
        r.deep_view() == a.deep_view(),
{
    BazelAttribute { name: a.name.clone(), encoded: crate::digest::clone_bytes(&a.encoded) }
}

/// A copy of a string list that keeps the deep view.
pub fn copy_strings(v: &Vec<String>) -> (r: Vec<String>)
    ensures
        r.deep_view() == v.deep_view(),
        r@.len() == v@.len(),
{
    let mut out: Vec<String> = Vec::new();
    let n = v.len();
    let mut i: usize = 0;
    while i < n
        invariant
            i <= n,
            n == v@.len(),
            out.deep_view().len() == i,
            forall|j: int| 0 <= j < i ==> out.deep_view()[j] == v.deep_view()[j],
        decreases n - i,
    {
        let ghost pre = out@;
        let ghost pre_dv = out.deep_view();
        out.push(v[i].clone());
        proof {
            assert forall|j: int|
                0 <= j < i + 1 implies out.deep_view()[j] == v.deep_view()[j] by {
                assert(out.deep_view()[j] == out@[j].deep_view());
                if j < i {
                    assert(out@[j] == pre[j]);
                    assert(pre_dv[j] == pre[j].deep_view());
                }
            }
        }
        i = i + 1;
    }
    proof {
        assert(out.deep_view() =~= v.deep_view());
    }
    out
}

/// A field-for-field copy of a rule.
pub fn copy_rule(r: &BazelRule) -> (out: BazelRule)
    ensures
        out.deep_view() == r.deep_view(),
{
    let mut attrs: Vec<BazelAttribute> = Vec::new();
    let n = r.attributes.len();
    let mut i: usize = 0;
    while i < n
        invariant
            i <= n,
            n == r.attributes@.len(),
            attrs.deep_view().len() == i,
            forall|j: int| 0 <= j < i ==> attrs.deep_view()[j] == r.attributes.deep_view()[j],
        decreases n - i,
    {
        let ghost pre = attrs@;
        let ghost pre_dv = attrs.deep_view();
        attrs.push(copy_attr(&r.attributes[i]));
        proof {
            assert forall|j: int|
                0 <= j < i + 1 implies attrs.deep_view()[j] == r.attributes.deep_view()[j] by {
                assert(attrs.deep_view()[j] == attrs@[j].deep_view());
                if j < i {
                    assert(attrs@[j] == pre[j]);
                    assert(pre_dv[j] == pre[j].deep_view());
                }
            }
        }
        i = i + 1;
    }
    proof {
        assert(attrs.deep_view() =~= r.attributes.deep_view());
    }
    BazelRule {
        name: r.name.clone(),
        rule_class: r.rule_class.clone(),
        skylark_environment_hash_code: match &r.skylark_environment_hash_code {
            Some(e) => Some(e.clone()),
            None => None,
        },
        attributes: attrs,
        rule_inputs: copy_strings(&r.rule_inputs),
        configured_rule_inputs: copy_strings(&r.configured_rule_inputs),
    }
}

/// A field-for-field copy of a source node.
fn copy_source(s: &BazelSource) -> (r: BazelSource)
    ensures
        r.deep_view() == s.deep_view(),
{
    BazelSource { name: s.name.clone(), subincludes: copy_strings(&s.subincludes) }
}

/// A field-for-field copy of a node.
fn copy_target(t: &BazelTarget) -> (r: BazelTarget)
    ensures
        r.deep_view() == t.deep_view(),
{
    match t {
        BazelTarget::Rule(r) => BazelTarget::Rule(copy_rule(r)),
        BazelTarget::Source(s) => BazelTarget::Source(copy_source(s)),
        BazelTarget::Generated(g) => BazelTarget::Generated(
            BazelGenerated { name: g.name.clone(), generating_rule: g.generating_rule.clone() },
        ),
    }
}

} // verus!
