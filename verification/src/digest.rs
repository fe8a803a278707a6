//! Digest primitives: a fixed 256-bit content hash used as an append-only
//! accumulator, hex rendering of digests, and the two-state builder that
//! every rule digest goes through.

use sha2::Digest;
use vstd::prelude::*;

verus! {

/// The digest of a byte sequence under the crate's fixed 256-bit hash.
pub uninterp spec fn sha256_of(bytes: Seq<u8>) -> Seq<u8>;

/// Relies on sha2::Sha256 through the Digest trait's one-shot `digest`:
/// the output depends on the input bytes alone and is exactly 32 bytes.
#[verifier::external_body]
pub(crate) fn sha256(bytes: &Vec<u8>) -> (r: Vec<u8>)
    ensures
        r@ == sha256_of(bytes@),
        r@.len() == 32,
{
    sha2::Sha256::digest(bytes.as_slice()).to_vec()
}

/// The lowercase hex digit for a value below sixteen.
pub open spec fn hex_digit(n: u8) -> char {
    if n == 0 {
        '0'
    } else if n == 1 {
        '1'
    } else if n == 2 {
        '2'
    } else if n == 3 {
        '3'
    } else if n == 4 {
        '4'
    } else if n == 5 {
        '5'
    } else if n == 6 {
        '6'
    } else if n == 7 {
        '7'
    } else if n == 8 {
        '8'
    } else if n == 9 {
        '9'
    } else if n == 10 {
        'a'
    } else if n == 11 {
        'b'
    } else if n == 12 {
        'c'
    } else if n == 13 {
        'd'
    } else if n == 14 {
        'e'
    } else {
        'f'
    }
}

/// Lowercase hex rendering of a byte sequence: two digits per byte, in order.
pub open spec fn hex_of(bytes: Seq<u8>) -> Seq<char>
    decreases bytes.len(),
{
    if bytes.len() == 0 {
        Seq::empty()
    } else {
        seq![hex_digit(bytes[0] / 16), hex_digit(bytes[0] % 16)] + hex_of(bytes.skip(1))
    }
}

/// Relies on hex::encode: each input byte becomes two lowercase hex digits,
/// high nibble first, in input order.
#[verifier::external_body]
pub(crate) fn hex_encode(bytes: &Vec<u8>) -> (r: String)
    ensures
        r@ == hex_of(bytes@),
{
    hex::encode(bytes)
}

/// A finished per-node digest: the transitive (`overall`) and own (`direct`)
/// hashes, plus the labels of rule dependencies when edge tracking is on.
pub struct TargetDigest {
    pub overall: Vec<u8>,
    pub direct: Vec<u8>,
    pub deps: Option<Vec<String>>,
}

impl DeepView for TargetDigest {
    type V = (Seq<u8>, Seq<u8>, Option<Seq<Seq<char>>>);

    open spec fn deep_view(&self) -> (Seq<u8>, Seq<u8>, Option<Seq<Seq<char>>>) {
        (
            self.overall@,
            self.direct@,
            match &self.deps {
                Some(d) => Some(d.deep_view()),
                None => None,
            },
        )
    }
}

impl TargetDigest {
    /// The same digest with the dependency list replaced.
    pub fn clone_with_deps(&self, deps: Option<Vec<String>>) -> (r: TargetDigest)
        ensures
            r.overall@ == self.overall@,
            r.direct@ == self.direct@,
            deps is Some ==> r.deps is Some
                && r.deps->0.deep_view() == deps->0.deep_view(),
            deps is None ==> r.deps is None,
    {
        TargetDigest { overall: clone_bytes(&self.overall), direct: clone_bytes(&self.direct), deps }
    }
}

/// Copies a byte vector.
pub(crate) fn clone_bytes(v: &Vec<u8>) -> (r: Vec<u8>)
    ensures
        r@ == v@,
{
    let mut out: Vec<u8> = Vec::new();
    let mut i: usize = 0;
    while i < v.len()
        invariant
            i <= v.len(),
            out@ == v@.take(i as int),
        decreases v.len() - i,
    {
        out.push(v[i]);
        i = i + 1;
        proof {
            assert(out@ =~= v@.take(i as int));
        }
    }
    proof {
        assert(v@.take(v@.len() as int) =~= v@);
    }
    out
}

/// Accumulates the two hash states of a rule digest. `direct` and `overall`
/// hold the bytes fed so far; `deps` records dependency labels when enabled.
pub struct DigestBuilder {
    pub direct: Vec<u8>,
    pub overall: Vec<u8>,
    pub deps: Option<Vec<String>>,
}

impl DigestBuilder {
    /// An empty builder; `track_deps` turns dependency recording on.
    pub fn new(track_deps: bool) -> (r: DigestBuilder)
        ensures
            r.direct@ == Seq::<u8>::empty(),
            r.overall@ == Seq::<u8>::empty(),
            track_deps ==> r.deps is Some && r.deps->0@ == Seq::<String>::empty(),
            !track_deps ==> r.deps is None,
    {
        DigestBuilder {
            direct: Vec::new(),
            overall: Vec::new(),
            deps: if track_deps { Some(Vec::new()) } else { None },
        }
    }

    /// Appends bytes to the direct state.
    pub fn put_direct(&mut self, bytes: &[u8])
        ensures
            final(self).direct@ == old(self).direct@ + bytes@,
            final(self).overall@ == old(self).overall@,
            final(self).deps == old(self).deps,
    {
        let mut i: usize = 0;
        while i < bytes.len()
            invariant
                i <= bytes@.len(),
                self.direct@ == old(self).direct@ + bytes@.take(i as int),
                self.overall@ == old(self).overall@,
                self.deps == old(self).deps,
            decreases bytes@.len() - i,
        {
            self.direct.push(bytes[i]);
            i = i + 1;
            proof {
                assert(self.direct@ =~= old(self).direct@ + bytes@.take(i as int));
            }
        }
        proof {
            assert(old(self).direct@ + bytes@.take(bytes@.len() as int) =~= old(
                self,
            ).direct@ + bytes@);
        }
    }

    /// Appends a dependency's overall digest to the transitive state and
    /// records its label when tracking is on.
    pub fn put_transitive(&mut self, label: &String, bytes: &[u8])
        ensures
            final(self).overall@ == old(self).overall@ + bytes@,
            final(self).direct@ == old(self).direct@,
            old(self).deps is None ==> final(self).deps is None,
            old(self).deps is Some ==> final(self).deps is Some
                && final(self).deps->0@ == old(self).deps->0@.push(*label),
    {
        let mut i: usize = 0;
        while i < bytes.len()
            invariant
                i <= bytes@.len(),
                self.overall@ == old(self).overall@ + bytes@.take(i as int),
                self.direct@ == old(self).direct@,
                self.deps == old(self).deps,
            decreases bytes@.len() - i,
        {
            self.overall.push(bytes[i]);
            i = i + 1;
            proof {
                assert(self.overall@ =~= old(self).overall@ + bytes@.take(i as int));
            }
        }
        proof {
            assert(old(self).overall@ + bytes@.take(bytes@.len() as int) =~= old(
                self,
            ).overall@ + bytes@);
        }
        match &mut self.deps {
            Some(deps) => {
                deps.push(label.clone());
            },
            None => {},
        }
    }

    /// Finalizes both states: the direct hash is the digest of the direct
    /// bytes; the overall hash is the digest of the transitive bytes followed
    /// by the finished direct hash.
    pub fn finish(self) -> (r: TargetDigest)
        ensures
            r.direct@ == sha256_of(self.direct@),
            r.overall@ == sha256_of(self.overall@ + sha256_of(self.direct@)),
            r.deps == self.deps,
    {
        let direct_bytes = sha256(&self.direct);
        let mut overall_input = self.overall;
        let ghost overall_pre = overall_input@;
        let mut i: usize = 0;
        while i < direct_bytes.len()
            invariant
                i <= direct_bytes@.len(),
                overall_input@ == overall_pre + direct_bytes@.take(i as int),
                direct_bytes@ == sha256_of(self.direct@),
            decreases direct_bytes@.len() - i,
        {
            overall_input.push(direct_bytes[i]);
            i = i + 1;
            proof {
                assert(overall_input@ =~= overall_pre + direct_bytes@.take(i as int));
            }
        }
        proof {
            assert(overall_pre + direct_bytes@.take(direct_bytes@.len() as int) =~= overall_pre
                + direct_bytes@);
        }
        let overall_bytes = sha256(&overall_input);
        TargetDigest { overall: overall_bytes, direct: direct_bytes, deps: self.deps }
    }
}

} // verus!
