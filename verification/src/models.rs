//! The textual target-hash model: parsing the `kind#overall~direct` form
//! into structured parts and rendering it back, plus the result records of
//! the impact analyzer.

use vstd::prelude::*;

use crate::errors::DiffError;
use crate::strutil::char_ix;
use crate::strutil::first_char_ix;
use crate::strutil::lemma_char_ix;
use crate::strutil::str_len;
use crate::strutil::to_owned_str;

verus! {

/// The parts of a parsed target-hash string.
pub struct HashParts {
    pub raw: Seq<char>,
    pub kind: Option<Seq<char>>,
    pub transitive: Seq<char>,
    pub direct: Option<Seq<char>>,
}

/// Parsing a raw hash string: an optional `kind` before the first `#`, the
/// transitive hash, and an optional direct hash after the first `~`. An
/// empty transitive hash is rejected.
pub open spec fn parse_spec(raw: Seq<char>) -> Option<HashParts> {
    let kind = match char_ix(raw, '#') {
        Some(i) => Some(raw.take(i)),
        None => None,
    };
    let remainder = match char_ix(raw, '#') {
        Some(i) => raw.skip(i + 1),
        None => raw,
    };
    let transitive = match char_ix(remainder, '~') {
        Some(j) => remainder.take(j),
        None => remainder,
    };
    let direct = match char_ix(remainder, '~') {
        Some(j) => Some(remainder.skip(j + 1)),
        None => None,
    };
    if transitive.len() == 0 {
        None
    } else {
        Some(HashParts { raw, kind, transitive, direct })
    }
}

/// Rendering hash parts back to text.
pub open spec fn render_spec(kind: Option<Seq<char>>, transitive: Seq<char>, direct: Option<
    Seq<char>,
>) -> Seq<char> {
    (match kind {
        Some(k) => k + seq!['#'],
        None => Seq::<char>::empty(),
    }) + transitive + (match direct {
        Some(d) => seq!['~'] + d,
        None => Seq::<char>::empty(),
    })
}

/// Rendering the parts of any successfully parsed string gives the string
/// back.
pub proof fn lemma_parse_render_round_trip(raw: Seq<char>)
    ensures
        match parse_spec(raw) {
            Some(p) => render_spec(p.kind, p.transitive, p.direct) == raw,
            None => true,
        },
{
    lemma_char_ix(raw, '#');
    match char_ix(raw, '#') {
        Some(i) => {
            let remainder = raw.skip(i + 1);
            lemma_char_ix(remainder, '~');
            match char_ix(remainder, '~') {
                Some(j) => {
                    assert(raw.take(i) + seq!['#'] + (remainder.take(j) + (seq!['~']
                        + remainder.skip(j + 1))) =~= raw);
                    assert(render_spec(
                        Some(raw.take(i)),
                        remainder.take(j),
                        Some(remainder.skip(j + 1)),
                    ) =~= raw.take(i) + seq!['#'] + (remainder.take(j) + (seq!['~']
                        + remainder.skip(j + 1))));
                },
                None => {
                    assert(raw.take(i) + seq!['#'] + remainder =~= raw);
                    assert(render_spec(Some(raw.take(i)), remainder, None) =~= raw.take(i)
                        + seq!['#'] + remainder);
                },
            }
        },
        None => {
            lemma_char_ix(raw, '~');
            match char_ix(raw, '~') {
                Some(j) => {
                    assert(render_spec(None, raw.take(j), Some(raw.skip(j + 1))) =~= raw);
                },
                None => {
                    assert(render_spec(None, raw, None) =~= raw);
                },
            }
        },
    }
}

/// A parsed target-hash string.
#[derive(Debug, Clone, PartialEq, Eq)]
pub struct TargetHash {
    /// The string exactly as read.
    pub raw: String,
    /// The overall (transitive) hash text.
    pub transitive_hash: String,
    /// The direct hash text after `~`, when present.
    pub direct_hash: Option<String>,
    /// The node kind before `#`, when present.
    pub target_type: Option<String>,
}

impl View for TargetHash {
    type V = HashParts;

    open spec fn view(&self) -> HashParts {
        HashParts {
            raw: self.raw@,
            kind: match self.target_type {
                Some(k) => Some(k@),
                None => None,
            },
            transitive: self.transitive_hash@,
            direct: match self.direct_hash {
                Some(d) => Some(d@),
                None => None,
            },
        }
    }
}

impl DeepView for TargetHash {
    type V = HashParts;

    open spec fn deep_view(&self) -> HashParts {
        self.view()
    }
}

impl TargetHash {
    /// Parses a raw hash string; fails exactly when the transitive part is
    /// empty.
    pub fn parse(raw: &str) -> (r: Result<TargetHash, DiffError>)
        ensures
            match r {
                Ok(h) => parse_spec(raw@) == Some(h@),
                Err(e) => parse_spec(raw@) is None && e is InvalidTargetHash,
            },
    {
        let n = str_len(raw);
        let kind: Option<String>;
        let remainder: &str;
        match first_char_ix(raw, '#') {
            Some(i) => {
                let k = raw.substring_char(0, i);
                proof {
                    assert(k@ =~= raw@.take(i as int));
                }
                kind = Some(to_owned_str(k));
                remainder = raw.substring_char(i + 1, n);
                proof {
                    assert(remainder@ =~= raw@.skip(i + 1));
                }
            },
            None => {
                kind = None;
                remainder = raw;
            },
        }
        let rn = str_len(remainder);
        let transitive: String;
        let direct: Option<String>;
        match first_char_ix(remainder, '~') {
            Some(j) => {
                let t = remainder.substring_char(0, j);
                proof {
                    assert(t@ =~= remainder@.take(j as int));
                }
                transitive = to_owned_str(t);
                let d = remainder.substring_char(j + 1, rn);
                proof {
                    assert(d@ =~= remainder@.skip(j + 1));
                }
                direct = Some(to_owned_str(d));
            },
            None => {
                transitive = to_owned_str(remainder);
                direct = None;
            },
        }
        if transitive.as_str().unicode_len() == 0 {
            Err(DiffError::InvalidTargetHash(to_owned_str(raw)))
        } else {
            Ok(
                TargetHash {
                    raw: to_owned_str(raw),
                    transitive_hash: transitive,
                    direct_hash: direct,
                    target_type: kind,
                },
            )
        }
    }

    /// The node kind recorded in the hash string, when present.
    pub fn target_type(&self) -> (r: Option<&str>)
        ensures
            match r {
                Some(s) => self@.kind == Some(s@),
                None => self@.kind is None,
            },
    {
        match &self.target_type {
            Some(s) => Some(s.as_str()),
            None => None,
        }
    }

    /// Renders the parsed parts back to the textual form.
    pub fn render(&self) -> (r: String)
        ensures
            r@ == render_spec(self@.kind, self@.transitive, self@.direct),
    {
        let mut out = String::new();
        match &self.target_type {
            Some(k) => {
                out.append(k.as_str());
                out.append("#");
                proof {
                    reveal_strlit("#");
                    assert("#"@ =~= seq!['#']);
                }
            },
            None => {},
        }
        out.append(self.transitive_hash.as_str());
        match &self.direct_hash {
            Some(d) => {
                out.append("~");
                out.append(d.as_str());
                proof {
                    reveal_strlit("~");
                    assert("~"@ =~= seq!['~']);
                }
            },
            None => {},
        }
        proof {
            assert(out@ =~= render_spec(self@.kind, self@.transitive, self@.direct));
        }
        out
    }
}

/// A label-keyed map of parsed target hashes.
pub type TargetHashes = crate::smap::SortedMap<TargetHash>;

/// A label-keyed map of dependency labels.
pub type DependencyEdges = crate::smap::SortedMap<Vec<String>>;

/// The distance record of one impacted label.
#[derive(Debug, Clone, PartialEq, Eq)]
pub struct ImpactedTargetDistance {
    pub label: String,
    pub target_distance: usize,
    pub package_distance: usize,
}

impl View for ImpactedTargetDistance {
    type V = (Seq<char>, int, int);

    open spec fn view(&self) -> (Seq<char>, int, int) {
        (self.label@, self.target_distance as int, self.package_distance as int)
    }
}

impl DeepView for ImpactedTargetDistance {
    type V = (Seq<char>, int, int);

    open spec fn deep_view(&self) -> (Seq<char>, int, int) {
        self.view()
    }
}

/// The impact analyzer's result: the sorted impacted labels, and the
/// distance records when dep edges were supplied.
#[derive(Debug, Clone, PartialEq, Eq)]
pub struct ImpactedTargetsResult {
    pub impacted: Vec<String>,
    pub distances: Option<Vec<ImpactedTargetDistance>>,
}

} // verus!
