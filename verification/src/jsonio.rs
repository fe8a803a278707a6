//! Parsing the JSON input files of the impact analyzer: the two hash maps
//! and the dependency-edges map. The JSON decoding itself is done by an
//! outside library; everything after it is verified.

use vstd::prelude::*;

use crate::errors::DiffError;
use crate::models::parse_spec;
use crate::models::DependencyEdges;
use crate::models::TargetHash;
use crate::models::TargetHashes;
use crate::strutil::to_owned_str;

verus! {

/// What decoding a JSON object of strings yields on a given text: its
/// entries in the decoder's (sorted, duplicate-free) order, or nothing
/// when the text is not such an object.
pub uninterp spec fn json_string_map_of(s: Seq<char>) -> Option<Seq<(Seq<char>, Seq<char>)>>;

/// Relies on serde_json::from_str into a string-keyed BTreeMap of strings:
/// the outcome is a function of the text alone.
#[verifier::external_body]
fn parse_json_string_map(text: &str) -> (r: Option<Vec<(String, String)>>)
    ensures
        match r {
            Some(v) => json_string_map_of(text@) == Some(v.deep_view()),
            None => json_string_map_of(text@) is None,
        },
{
    match serde_json::from_str::<std::collections::BTreeMap<String, String>>(text) {
        Ok(m) => Some(m.into_iter().collect()),
        Err(_) => None,
    }
}

/// What decoding a JSON object of label lists yields on a given text.
pub uninterp spec fn json_edges_map_of(s: Seq<char>) -> Option<
    Seq<(Seq<char>, Seq<Seq<char>>)>,
>;

/// Relies on serde_json::from_str into a string-keyed BTreeMap of string
/// lists: the outcome is a function of the text alone.
#[verifier::external_body]
fn parse_json_edges_map(text: &str) -> (r: Option<Vec<(String, Vec<String>)>>)
    ensures
        match r {
            Some(v) => json_edges_map_of(text@) == Some(v.deep_view()),
            None => json_edges_map_of(text@) is None,
        },
{
    match serde_json::from_str::<std::collections::BTreeMap<String, Vec<String>>>(text) {
        Ok(m) => Some(m.into_iter().collect()),
        Err(_) => None,
    }
}

/// The hash map denoted by decoded entries whose values all parse; later
/// entries win.
pub open spec fn hashes_map_spec(es: Seq<(Seq<char>, Seq<char>)>) -> Map<
    Seq<char>,
    crate::models::HashParts,
>
    decreases es.len(),
{
    if es.len() == 0 {
        Map::empty()
    } else {
        hashes_map_spec(es.drop_last()).insert(es.last().0, parse_spec(es.last().1)->0)
    }
}

/// The edge map denoted by decoded entries; later entries win.
pub open spec fn edges_map_spec(es: Seq<(Seq<char>, Seq<Seq<char>>)>) -> Map<
    Seq<char>,
    Seq<Seq<char>>,
>
    decreases es.len(),
{
    if es.len() == 0 {
        Map::empty()
    } else {
        edges_map_spec(es.drop_last()).insert(es.last().0, es.last().1)
    }
}

/// Parses a hash-map JSON text into parsed target hashes. Fails exactly
/// when the text is not an object of strings or some value has an empty
/// transitive part.
pub fn parse_target_hashes(text: &str) -> (r: Result<TargetHashes, DiffError>)
    ensures
        match r {
            Ok(m) => {
                &&& m.wf()
                &&& json_string_map_of(text@) matches Some(es) && (forall|i: int|
                    0 <= i < es.len() ==> parse_spec((#[trigger] es[i]).1) is Some) && m@
                    == hashes_map_spec(es)
            },
            Err(e) => {
                &&& (e is ConfigInvalid ==> json_string_map_of(text@) is None)
                &&& (e is InvalidTargetHash ==> (json_string_map_of(text@) matches Some(es)
                    && exists|i: int|
                    0 <= i < es.len() && parse_spec((#[trigger] es[i]).1) is None))
                &&& (e is ConfigInvalid || e is InvalidTargetHash)
            },
        },
{
    let entries = match parse_json_string_map(text) {
        Some(es) => es,
        None => {
            return Err(DiffError::ConfigInvalid(to_owned_str("invalid hash JSON")));
        },
    };
    let ghost edv = entries.deep_view();
    let mut m: TargetHashes = crate::smap::SortedMap::new();
    let n = entries.len();
    let mut i: usize = 0;
    proof {
        assert(m@ =~= hashes_map_spec(edv.take(0)));
    }
    while i < n
        invariant
            i <= n,
            n == edv.len(),
            edv == entries.deep_view(),
            json_string_map_of(text@) == Some(edv),
            m.wf(),
            m@ == hashes_map_spec(edv.take(i as int)),
            forall|j: int| 0 <= j < i ==> parse_spec((#[trigger] edv[j]).1) is Some,
        decreases n - i,
    {
        proof {
            assert(edv.take(i + 1).drop_last() =~= edv.take(i as int));
            assert(edv.take(i + 1).last() == edv[i as int]);
            assert(edv[i as int] == entries@[i as int].deep_view());
        }
        let parsed = match TargetHash::parse(entries[i].1.as_str()) {
            Ok(h) => h,
            Err(_) => {
                proof {
                    assert(parse_spec((#[trigger] edv[i as int]).1) is None);
                }
                return Err(DiffError::InvalidTargetHash(entries[i].1.clone()));
            },
        };
        m.insert(entries[i].0.clone(), parsed);
        i = i + 1;
    }
    proof {
        assert(edv.take(n as int) =~= edv);
    }
    Ok(m)
}

/// Parses a dependency-edges JSON text. Fails exactly when the text is not
/// an object of label lists.
pub fn parse_dep_edges(text: &str) -> (r: Result<DependencyEdges, DiffError>)
    ensures
        match r {
            Ok(m) => {
                &&& m.wf()
                &&& json_edges_map_of(text@) matches Some(es) && m@ == edges_map_spec(es)
            },
            Err(e) => e is ConfigInvalid && json_edges_map_of(text@) is None,
        },
{
    let entries = match parse_json_edges_map(text) {
        Some(es) => es,
        None => {
            return Err(DiffError::ConfigInvalid(to_owned_str("invalid dep edges JSON")));
        },
    };
    let ghost edv = entries.deep_view();
    let mut m: DependencyEdges = crate::smap::SortedMap::new();
    let n = entries.len();
    let mut i: usize = 0;
    proof {
        assert(m@ =~= edges_map_spec(edv.take(0)));
    }
    while i < n
        invariant
            i <= n,
            n == edv.len(),
            edv == entries.deep_view(),
            json_edges_map_of(text@) == Some(edv),
            m.wf(),
            m@ == edges_map_spec(edv.take(i as int)),
        decreases n - i,
    {
        proof {
            assert(edv.take(i + 1).drop_last() =~= edv.take(i as int));
            assert(edv.take(i + 1).last() == edv[i as int]);
            assert(edv[i as int] == entries@[i as int].deep_view());
        }
        m.insert(entries[i].0.clone(), crate::graph::copy_strings(&entries[i].1));
        i = i + 1;
    }
    proof {
        assert(edv.take(n as int) =~= edv);
    }
    Ok(m)
}

} // verus!
