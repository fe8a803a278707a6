//! A string-keyed map kept as a vector of entries sorted by the
//! lexicographic order of the keys. All keyed data of the crate (hash maps,
//! dependency edges, caches) lives in this representation; its view is a
//! `Map` from key characters to the deep view of the value.

use vstd::prelude::*;

use crate::strutil::lemma_lex_lt_connected;
use crate::strutil::lemma_lex_lt_trans;
use crate::strutil::lex_lt;
use crate::strutil::str_eq;
use crate::strutil::str_lt;

verus! {

/// The map denoted by an entry sequence: later entries win.
pub open spec fn entries_map<V: DeepView>(s: Seq<(String, V)>) -> Map<Seq<char>, V::V>
    decreases s.len(),
{
    if s.len() == 0 {
        Map::empty()
    } else {
        entries_map(s.drop_last()).insert(s.last().0@, s.last().1.deep_view())
    }
}

/// A key outside every entry is outside the denoted map.
pub proof fn lemma_entries_map_absent<V: DeepView>(s: Seq<(String, V)>, k: Seq<char>)
    requires
        forall|i: int| 0 <= i < s.len() ==> s[i].0@ != k,
    ensures
        !entries_map(s).contains_key(k),
    decreases s.len(),
{
    if s.len() > 0 {
        lemma_entries_map_absent(s.drop_last(), k);
    }
}

/// The denoted map contains every entry's key; under unique keys it maps
/// each key to that entry's value.
pub proof fn lemma_entries_map_index<V: DeepView>(s: Seq<(String, V)>, i: int)
    requires
        0 <= i < s.len(),
        forall|p: int, q: int| 0 <= p < q < s.len() ==> s[p].0@ != s[q].0@,
    ensures
        entries_map(s).contains_key(s[i].0@),
        entries_map(s)[s[i].0@] == s[i].1.deep_view(),
    decreases s.len(),
{
    if i == s.len() - 1 {
    } else {
        lemma_entries_map_index(s.drop_last(), i);
        assert(s.drop_last()[i] == s[i]);
        assert(s[i].0@ != s.last().0@);
    }
}

/// The domain of the denoted map is exactly the set of entry keys.
pub proof fn lemma_entries_map_domain<V: DeepView>(s: Seq<(String, V)>, k: Seq<char>)
    ensures
        entries_map(s).contains_key(k) <==> exists|i: int| 0 <= i < s.len() && s[i].0@ == k,
    decreases s.len(),
{
    if s.len() > 0 {
        lemma_entries_map_domain(s.drop_last(), k);
        if entries_map(s).contains_key(k) {
            if k == s.last().0@ {
                assert(s[s.len() - 1].0@ == k);
            } else {
                let i = choose|i: int| 0 <= i < s.drop_last().len() && s.drop_last()[i].0@ == k;
                assert(s[i].0@ == k);
            }
        }
        if exists|i: int| 0 <= i < s.len() && s[i].0@ == k {
            let i = choose|i: int| 0 <= i < s.len() && s[i].0@ == k;
            if i < s.len() - 1 {
                assert(s.drop_last()[i].0@ == k);
            }
        }
    }
}

/// Updating the entry at `i` denotes an insert of the new value at the same
/// key, provided the keys are unique.
pub proof fn lemma_entries_map_update<V: DeepView>(s: Seq<(String, V)>, i: int, e: (String, V))
    requires
        0 <= i < s.len(),
        forall|p: int, q: int| 0 <= p < q < s.len() ==> s[p].0@ != s[q].0@,
        e.0@ == s[i].0@,
    ensures
        entries_map(s.update(i, e)) == entries_map(s).insert(e.0@, e.1.deep_view()),
    decreases s.len(),
{
    let su = s.update(i, e);
    if i == s.len() - 1 {
        assert(su.drop_last() =~= s.drop_last());
        assert(su.last() == e);
        assert(entries_map(su) == entries_map(s.drop_last()).insert(e.0@, e.1.deep_view()));
        assert(entries_map(s.drop_last()).insert(s.last().0@, s.last().1.deep_view()).insert(
            e.0@,
            e.1.deep_view(),
        ) =~= entries_map(s.drop_last()).insert(e.0@, e.1.deep_view()));
    } else {
        assert(su.drop_last() =~= s.drop_last().update(i, e));
        assert(su.last() == s.last());
        lemma_entries_map_update(s.drop_last(), i, e);
        assert(s[i].0@ != s.last().0@);
        assert(entries_map(su) == entries_map(s.drop_last()).insert(e.0@, e.1.deep_view()).insert(
            s.last().0@,
            s.last().1.deep_view(),
        ));
        assert(entries_map(s.drop_last()).insert(e.0@, e.1.deep_view()).insert(
            s.last().0@,
            s.last().1.deep_view(),
        ) =~= entries_map(s.drop_last()).insert(s.last().0@, s.last().1.deep_view()).insert(
            e.0@,
            e.1.deep_view(),
        ));
    }
}

/// Inserting an entry with a fresh key at position `i` denotes an insert
/// into the map.
pub proof fn lemma_entries_map_insert_at<V: DeepView>(s: Seq<(String, V)>, i: int, e: (String, V))
    requires
        0 <= i <= s.len(),
        forall|p: int| 0 <= p < s.len() ==> s[p].0@ != e.0@,
    ensures
        entries_map(s.insert(i, e)) == entries_map(s).insert(e.0@, e.1.deep_view()),
    decreases s.len(),
{
    let su = s.insert(i, e);
    if i == s.len() {
        assert(su.drop_last() =~= s);
        assert(su.last() == e);
    } else {
        assert(su.drop_last() =~= s.drop_last().insert(i, e));
        assert(su.last() == s.last());
        lemma_entries_map_insert_at(s.drop_last(), i, e);
        assert(s.last().0@ != e.0@);
        assert(entries_map(su) == entries_map(s.drop_last()).insert(e.0@, e.1.deep_view()).insert(
            s.last().0@,
            s.last().1.deep_view(),
        ));
        assert(entries_map(s.drop_last()).insert(e.0@, e.1.deep_view()).insert(
            s.last().0@,
            s.last().1.deep_view(),
        ) =~= entries_map(s.drop_last()).insert(s.last().0@, s.last().1.deep_view()).insert(
            e.0@,
            e.1.deep_view(),
        ));
    }
}

/// Under unique keys the denoted map's domain is finite, with one key per
/// entry.
pub proof fn lemma_entries_map_card<V: DeepView>(s: Seq<(String, V)>)
    requires
        forall|p: int, q: int| 0 <= p < q < s.len() ==> s[p].0@ != s[q].0@,
    ensures
        entries_map(s).dom().finite(),
        entries_map(s).dom().len() == s.len(),
    decreases s.len(),
{
    if s.len() == 0 {
        assert(entries_map(s).dom() =~= Set::<Seq<char>>::empty());
    } else {
        lemma_entries_map_card(s.drop_last());
        lemma_entries_map_absent(s.drop_last(), s.last().0@);
        assert(entries_map(s).dom() =~= entries_map(s.drop_last()).dom().insert(s.last().0@));
    }
}

/// A string-keyed map with entries sorted strictly by key.
pub struct SortedMap<V> {
    pub entries: Vec<(String, V)>,
}

impl<V: DeepView> SortedMap<V> {
    /// Entries are strictly increasing by key, so keys are unique.
    pub open spec fn wf(&self) -> bool {
        forall|i: int, j: int|
            0 <= i < j < self.entries.len() ==> lex_lt(
                #[trigger] self.entries@[i].0@,
                #[trigger] self.entries@[j].0@,
            )
    }

    /// Sorted keys are pairwise distinct.
    pub proof fn lemma_keys_unique(&self)
        requires
            self.wf(),
        ensures
            forall|p: int, q: int|
                0 <= p < q < self.entries.len() ==> self.entries@[p].0@ != self.entries@[q].0@,
    {
        assert forall|p: int, q: int|
            0 <= p < q < self.entries.len() implies self.entries@[p].0@ != self.entries@[q].0@ by {
            lemma_lex_lt_connected(self.entries@[p].0@, self.entries@[q].0@);
        }
    }

    /// An empty map.
    pub fn new() -> (r: SortedMap<V>)
        ensures
            r.wf(),
            r@ == Map::<Seq<char>, V::V>::empty(),
            r.entries@.len() == 0,
    {
        SortedMap { entries: Vec::new() }
    }

    /// The number of entries.
    pub fn len(&self) -> (r: usize)
        ensures
            r == self.entries@.len(),
    {
        self.entries.len()
    }

    /// Looks a key up.
    pub fn get<'a>(&'a self, key: &str) -> (r: Option<&'a V>)
        requires
            self.wf(),
        ensures
            match r {
                Some(v) => self@.contains_key(key@) && v.deep_view() == self@[key@],
                None => !self@.contains_key(key@),
            },
    {
        let n = self.entries.len();
        let mut i: usize = 0;
        while i < n
            invariant
                i <= n,
                n == self.entries@.len(),
                self.wf(),
                forall|j: int| 0 <= j < i ==> self.entries@[j].0@ != key@,
            decreases n - i,
        {
            if str_eq(self.entries[i].0.as_str(), key) {
                proof {
                    self.lemma_keys_unique();
                    lemma_entries_map_index(self.entries@, i as int);
                }
                return Some(&self.entries[i].1);
            }
            i = i + 1;
        }
        proof {
            lemma_entries_map_absent(self.entries@, key@);
        }
        None
    }

    /// Whether the key is present.
    pub fn contains_key(&self, key: &str) -> (r: bool)
        requires
            self.wf(),
        ensures
            r == self@.contains_key(key@),
    {
        match self.get(key) {
            Some(_) => true,
            None => false,
        }
    }

    /// Inserts a key and value; an existing entry with the same key is
    /// replaced.
    pub fn insert(&mut self, key: String, value: V)
        requires
            old(self).wf(),
        ensures
            final(self).wf(),
            final(self)@ == old(self)@.insert(key@, value.deep_view()),
    {
        let n = self.entries.len();
        let mut i: usize = 0;
        while i < n
            invariant
                i <= n,
                n == self.entries@.len(),
                self.wf(),
                self == old(self),
                forall|j: int| 0 <= j < i ==> lex_lt(self.entries@[j].0@, key@),
            decreases n - i,
        {
            if str_eq(self.entries[i].0.as_str(), key.as_str()) {
                proof {
                    self.lemma_keys_unique();
                    lemma_entries_map_update(
                        self.entries@,
                        i as int,
                        (key, value),
                    );
                }
                self.entries.set(i, (key, value));
                return ;
            }
            if str_lt(key.as_str(), self.entries[i].0.as_str()) {
                proof {
                    self.lemma_keys_unique();
                    assert forall|p: int|
                        0 <= p < self.entries@.len() implies self.entries@[p].0@ != key@ by {
                        if p < i {
                            lemma_lex_lt_connected(self.entries@[p].0@, key@);
                        } else {
                            if p > i {
                                lemma_lex_lt_trans(key@, self.entries@[i as int].0@, self.entries@[p].0@);
                            }
                            lemma_lex_lt_connected(key@, self.entries@[p].0@);
                        }
                    }
                    lemma_entries_map_insert_at(
                        self.entries@,
                        i as int,
                        (key, value),
                    );
                }
                let ghost pre = self.entries@;
                let ghost kview = key@;
                self.entries.insert(i, (key, value));
                proof {
                    assert forall|p: int, q: int|
                        0 <= p < q < self.entries@.len() implies lex_lt(
                        self.entries@[p].0@,
                        self.entries@[q].0@,
                    ) by {
                        if q < i {
                        } else if p < i && q == i {
                        } else if p < i && q > i {
                            assert(self.entries@[q].0@ == pre[q - 1].0@);
                            if q - 1 == i {
                                lemma_lex_lt_trans(self.entries@[p].0@, kview, pre[i as int].0@);
                            }
                        } else if p == i && q > i {
                            assert(self.entries@[q].0@ == pre[q - 1].0@);
                            if q - 1 > i {
                                lemma_lex_lt_trans(kview, pre[i as int].0@, pre[q - 1].0@);
                            }
                        } else {
                            assert(self.entries@[p].0@ == pre[p - 1].0@);
                            assert(self.entries@[q].0@ == pre[q - 1].0@);
                        }
                    }
                }
                return ;
            }
            proof {
                lemma_lex_lt_connected(key@, self.entries@[i as int].0@);
            }
            i = i + 1;
        }
        proof {
            assert forall|p: int| 0 <= p < self.entries@.len() implies self.entries@[p].0@
                != key@ by {
                lemma_lex_lt_connected(self.entries@[p].0@, key@);
            }
            lemma_entries_map_insert_at(self.entries@, n as int, (key, value));
            assert(self.entries@.insert(n as int, (key, value)) =~= self.entries@.push(
                (key, value),
            ));
        }
        self.entries.push((key, value));
    }
}

impl<V: DeepView> SortedMap<V> {
    /// The keys, in their sorted order.
    pub fn keys(&self) -> (r: Vec<String>)
        requires
            self.wf(),
        ensures
            r.deep_view().len() == self.entries@.len(),
            forall|i: int|
                0 <= i < r.deep_view().len() ==> r.deep_view()[i] == self.entries@[i].0@,
            forall|i: int, j: int|
                0 <= i < j < r.deep_view().len() ==> lex_lt(r.deep_view()[i], r.deep_view()[j]),
            forall|l: Seq<char>| #[trigger] r.deep_view().contains(l) <==> self@.contains_key(l),
    {
        let n = self.entries.len();
        let mut out: Vec<String> = Vec::new();
        let mut i: usize = 0;
        while i < n
            invariant
                i <= n,
                n == self.entries@.len(),
                self.wf(),
                out.deep_view().len() == i,
                forall|j: int| 0 <= j < i ==> out.deep_view()[j] == self.entries@[j].0@,
            decreases n - i,
        {
            let ghost pre = out@;
            let ghost pre_dv = out.deep_view();
            out.push(self.entries[i].0.clone());
            proof {
                assert forall|j: int|
                    0 <= j < i + 1 implies out.deep_view()[j] == self.entries@[j].0@ by {
                    assert(out.deep_view()[j] == out@[j].deep_view());
                    if j < i {
                        assert(out@[j] == pre[j]);
                        assert(pre_dv[j] == pre[j].deep_view());
                        assert(pre_dv[j] == self.entries@[j].0@);
                    }
                }
            }
            i = i + 1;
        }
        proof {
            assert forall|l: Seq<char>| #[trigger]
                out.deep_view().contains(l) <==> self@.contains_key(l) by {
                lemma_entries_map_domain(self.entries@, l);
                if out.deep_view().contains(l) {
                    let j = choose|j: int|
                        0 <= j < out.deep_view().len() && out.deep_view()[j] == l;
                    assert(self.entries@[j].0@ == l);
                }
                if self@.contains_key(l) {
                    let j = choose|j: int|
                        0 <= j < self.entries@.len() && self.entries@[j].0@ == l;
                    assert(out.deep_view()[j] == l);
                }
            }
        }
        out
    }
}

impl<V: DeepView> View for SortedMap<V> {
    type V = Map<Seq<char>, V::V>;

    open spec fn view(&self) -> Map<Seq<char>, V::V> {
        entries_map(self.entries@)
    }
}

} // verus!
