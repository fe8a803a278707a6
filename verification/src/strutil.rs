//! Character-level string helpers: prefix tests, scanning, trimming,
//! substitution, and the lexicographic order used to sort labels.

use vstd::prelude::*;

verus! {

/// The UTF-8 bytes of a character sequence; label bytes are fed to digests
/// in this encoding.
pub open spec fn str_bytes(s: Seq<char>) -> Seq<u8> {
    vstd::utf8::encode_utf8(s)
}

/// Whether `p` is a prefix of `s`.
pub open spec fn starts_with(s: Seq<char>, p: Seq<char>) -> bool {
    p.len() <= s.len() && s.take(p.len() as int) == p
}

/// `s` with every leading occurrence of `c` removed.
pub open spec fn trim_leading(s: Seq<char>, c: char) -> Seq<char>
    decreases s.len(),
{
    if s.len() > 0 && s[0] == c {
        trim_leading(s.skip(1), c)
    } else {
        s
    }
}

/// `s` with every occurrence of `a` replaced by `b`.
pub open spec fn replace_chars(s: Seq<char>, a: char, b: char) -> Seq<char> {
    Seq::new(s.len(), |i: int| if s[i] == a { b } else { s[i] })
}

/// Whether `c` occurs in `s`.
pub open spec fn contains_char(s: Seq<char>, c: char) -> bool {
    exists|i: int| 0 <= i < s.len() && s[i] == c
}

/// Strict lexicographic order on character sequences by code point; agrees
/// with the byte order of the UTF-8 encodings.
pub open spec fn lex_lt(a: Seq<char>, b: Seq<char>) -> bool
    decreases a.len(),
{
    if b.len() == 0 {
        false
    } else if a.len() == 0 {
        true
    } else if a[0] != b[0] {
        (a[0] as u32) < (b[0] as u32)
    } else {
        lex_lt(a.skip(1), b.skip(1))
    }
}

/// Two characters with the same code point are the same character.
pub proof fn lemma_char_cast_inj(c1: char, c2: char)
    ensures
        c1 as u32 == c2 as u32 ==> c1 == c2,
{
    vstd::utf8::char_u32_cast(c1, c1 as u32);
    vstd::utf8::char_u32_cast(c2, c2 as u32);
}

/// The lexicographic order is irreflexive and asymmetric, and two sequences
/// unrelated either way are equal.
pub proof fn lemma_lex_lt_connected(a: Seq<char>, b: Seq<char>)
    ensures
        lex_lt(a, b) ==> !lex_lt(b, a),
        !lex_lt(a, b) && !lex_lt(b, a) ==> a == b,
    decreases a.len(),
{
    if b.len() == 0 || a.len() == 0 {
        if !lex_lt(a, b) && !lex_lt(b, a) {
            assert(a =~= b);
        }
    } else if a[0] != b[0] {
        lemma_char_cast_inj(a[0], b[0]);
        assert(a[0] as u32 != b[0] as u32);
    } else {
        lemma_lex_lt_connected(a.skip(1), b.skip(1));
        if !lex_lt(a, b) && !lex_lt(b, a) {
            assert(a.skip(1) == b.skip(1));
            assert(a.skip(1).len() == b.skip(1).len());
            assert forall|i: int| 0 <= i < a.len() implies a[i] == b[i] by {
                if i > 0 {
                    assert(a.skip(1)[i - 1] == a[i]);
                    assert(b.skip(1)[i - 1] == b[i]);
                }
            }
            assert(a =~= b);
        }
    }
}

/// The lexicographic order is transitive.
pub proof fn lemma_lex_lt_trans(a: Seq<char>, b: Seq<char>, c: Seq<char>)
    requires
        lex_lt(a, b),
        lex_lt(b, c),
    ensures
        lex_lt(a, c),
    decreases a.len(),
{
    if c.len() == 0 {
        assert(false);
    } else if b.len() == 0 {
        assert(false);
    } else if a.len() == 0 {
    } else {
        if a[0] != b[0] {
            if b[0] != c[0] {
                assert((a[0] as u32) < (c[0] as u32));
                assert(a[0] != c[0]);
            } else {
                assert(a[0] != c[0]);
            }
        } else {
            if b[0] != c[0] {
                assert(a[0] != c[0] && (a[0] as u32) < (c[0] as u32));
            } else {
                lemma_lex_lt_trans(a.skip(1), b.skip(1), c.skip(1));
            }
        }
    }
}

/// The index of the first occurrence of `c` in `s`, if any.
pub open spec fn char_ix(s: Seq<char>, c: char) -> Option<int>
    decreases s.len(),
{
    if s.len() == 0 {
        None
    } else if s[0] == c {
        Some(0int)
    } else {
        match char_ix(s.skip(1), c) {
            Some(i) => Some(i + 1),
            None => None,
        }
    }
}

/// Characterizes `char_ix` as the first occurrence.
pub proof fn lemma_char_ix(s: Seq<char>, c: char)
    ensures
        match char_ix(s, c) {
            Some(i) => 0 <= i < s.len() && s[i] == c && forall|j: int| 0 <= j < i ==> s[j] != c,
            None => forall|j: int| 0 <= j < s.len() ==> s[j] != c,
        },
    decreases s.len(),
{
    if s.len() == 0 {
    } else if s[0] == c {
    } else {
        lemma_char_ix(s.skip(1), c);
        assert(forall|j: int| 0 <= j < s.len() - 1 ==> #[trigger] s.skip(1)[j] == s[j + 1]);
        match char_ix(s.skip(1), c) {
            Some(i) => {
                assert(char_ix(s, c) == Some(i + 1));
                assert(s[i + 1] == s.skip(1)[i]);
                assert forall|j: int| 0 <= j < i + 1 implies s[j] != c by {
                    if j > 0 {
                        assert(s.skip(1)[j - 1] != c);
                    }
                }
            },
            None => {
                assert forall|j: int| 0 <= j < s.len() implies s[j] != c by {
                    if j > 0 {
                        assert(s.skip(1)[j - 1] != c);
                    }
                }
            },
        }
    }
}

/// The index of the first position where `c1` is immediately followed by
/// `c2`, if any.
pub open spec fn pair_ix(s: Seq<char>, c1: char, c2: char) -> Option<int>
    decreases s.len(),
{
    if s.len() < 2 {
        None
    } else if s[0] == c1 && s[1] == c2 {
        Some(0int)
    } else {
        match pair_ix(s.skip(1), c1, c2) {
            Some(i) => Some(i + 1),
            None => None,
        }
    }
}

/// Characterizes `pair_ix` as the first occurrence of the pair.
pub proof fn lemma_pair_ix(s: Seq<char>, c1: char, c2: char)
    ensures
        match pair_ix(s, c1, c2) {
            Some(i) => 0 <= i && i + 1 < s.len() && s[i] == c1 && s[i + 1] == c2 && forall|j: int|
                0 <= j < i ==> !(#[trigger] s[j] == c1 && s[j + 1] == c2),
            None => forall|j: int|
                0 <= j < s.len() - 1 ==> !(#[trigger] s[j] == c1 && s[j + 1] == c2),
        },
    decreases s.len(),
{
    if s.len() < 2 {
    } else if s[0] == c1 && s[1] == c2 {
    } else {
        lemma_pair_ix(s.skip(1), c1, c2);
        assert(forall|j: int| 0 <= j < s.len() - 1 ==> #[trigger] s.skip(1)[j] == s[j + 1]);
        match pair_ix(s.skip(1), c1, c2) {
            Some(i) => {
                assert(pair_ix(s, c1, c2) == Some(i + 1));
                assert(s[i + 1] == s.skip(1)[i] && s[i + 2] == s.skip(1)[i + 1]);
                assert forall|j: int|
                    0 <= j < i + 1 implies !(#[trigger] s[j] == c1 && s[j + 1] == c2) by {
                    if j > 0 {
                        assert(!(s.skip(1)[j - 1] == c1 && s.skip(1)[j] == c2));
                        assert(s.skip(1)[j - 1] == s[j] && s.skip(1)[j] == s[j + 1]);
                    }
                }
            },
            None => {
                assert forall|j: int|
                    0 <= j < s.len() - 1 implies !(#[trigger] s[j] == c1 && s[j + 1] == c2) by {
                    if j > 0 {
                        assert(!(s.skip(1)[j - 1] == c1 && s.skip(1)[j] == c2));
                        assert(s.skip(1)[j - 1] == s[j] && s.skip(1)[j] == s[j + 1]);
                    }
                }
            },
        }
    }
}

/// Unfolds a prefix test into per-index equalities.
pub proof fn lemma_starts_with_iff(s: Seq<char>, p: Seq<char>)
    ensures
        starts_with(s, p) <==> (p.len() <= s.len() && forall|i: int|
            0 <= i < p.len() ==> s[i] == p[i]),
{
    if p.len() <= s.len() {
        if forall|i: int| 0 <= i < p.len() ==> s[i] == p[i] {
            assert(s.take(p.len() as int) =~= p);
        }
        if starts_with(s, p) {
            assert forall|i: int| 0 <= i < p.len() implies s[i] == p[i] by {
                assert(s.take(p.len() as int)[i] == s[i]);
            }
        }
    }
}

/// Relies on String::push: appends exactly one character.
#[verifier::external_body]
pub(crate) fn push_char(s: &mut String, c: char)
    ensures
        final(s)@ == old(s)@.push(c),
{
    s.push(c);
}

/// Character length of a string slice.
pub fn str_len(s: &str) -> (r: usize)
    ensures
        r == s@.len(),
{
    s.unicode_len()
}

/// Whether `p` is a prefix of `s`, by characters.
pub fn starts_with_str(s: &str, p: &str) -> (r: bool)
    ensures
        r == starts_with(s@, p@),
{
    let sn = s.unicode_len();
    let pn = p.unicode_len();
    if pn > sn {
        assert(!starts_with(s@, p@));
        return false;
    }
    let mut i: usize = 0;
    while i < pn
        invariant
            i <= pn <= sn,
            pn == p@.len(),
            sn == s@.len(),
            forall|j: int| 0 <= j < i ==> s@[j] == p@[j],
        decreases pn - i,
    {
        if s.get_char(i) != p.get_char(i) {
            assert(s@.take(pn as int)[i as int] != p@[i as int]);
            return false;
        }
        i = i + 1;
    }
    proof {
        assert(s@.take(pn as int) =~= p@);
    }
    true
}

/// Whether the last character of `s` is `c`.
pub fn ends_with_char(s: &str, c: char) -> (r: bool)
    ensures
        r == (s@.len() > 0 && s@.last() == c),
{
    let n = s.unicode_len();
    if n == 0 {
        false
    } else {
        s.get_char(n - 1) == c
    }
}

/// Whether `c` occurs anywhere in `s`.
pub fn contains_char_exec(s: &str, c: char) -> (r: bool)
    ensures
        r == contains_char(s@, c),
{
    let n = s.unicode_len();
    let mut i: usize = 0;
    while i < n
        invariant
            i <= n,
            n == s@.len(),
            forall|j: int| 0 <= j < i ==> s@[j] != c,
        decreases n - i,
    {
        if s.get_char(i) == c {
            return true;
        }
        i = i + 1;
    }
    false
}

/// The index of the first occurrence of `c` in `s` at or after `from`.
pub fn find_char_from(s: &str, c: char, from: usize) -> (r: Option<usize>)
    requires
        from <= s@.len(),
    ensures
        match r {
            Some(i) => from <= i < s@.len() && s@[i as int] == c && forall|j: int|
                from <= j < i ==> s@[j] != c,
            None => forall|j: int| from <= j < s@.len() ==> s@[j] != c,
        },
{
    let n = s.unicode_len();
    let mut i: usize = from;
    while i < n
        invariant
            from <= i <= n,
            n == s@.len(),
            forall|j: int| from <= j < i ==> s@[j] != c,
        decreases n - i,
    {
        if s.get_char(i) == c {
            return Some(i);
        }
        i = i + 1;
    }
    None
}

/// The index of the first position where `c1` is immediately followed by
/// `c2`.
pub fn find_pair(s: &str, c1: char, c2: char) -> (r: Option<usize>)
    ensures
        match r {
            Some(i) => i + 1 < s@.len() && s@[i as int] == c1 && s@[i + 1] == c2 && forall|j: int|
                0 <= j < i ==> !(#[trigger] s@[j] == c1 && s@[j + 1] == c2),
            None => forall|j: int|
                0 <= j < s@.len() - 1 ==> !(#[trigger] s@[j] == c1 && s@[j + 1] == c2),
        },
{
    let n = s.unicode_len();
    if n < 2 {
        return None;
    }
    let mut i: usize = 0;
    while i < n - 1
        invariant
            i <= n - 1,
            n == s@.len(),
            n >= 2,
            forall|j: int| 0 <= j < i ==> !(#[trigger] s@[j] == c1 && s@[j + 1] == c2),
        decreases n - i,
    {
        if s.get_char(i) == c1 && s.get_char(i + 1) == c2 {
            return Some(i);
        }
        i = i + 1;
    }
    None
}

/// The number of leading occurrences of `c` in `s`; trimming that many
/// characters removes exactly the leading run.
pub fn leading_run(s: &str, c: char) -> (r: usize)
    ensures
        r <= s@.len(),
        forall|j: int| 0 <= j < r ==> s@[j] == c,
        r < s@.len() ==> s@[r as int] != c,
        s@.skip(r as int) == trim_leading(s@, c),
{
    let n = s.unicode_len();
    let mut i: usize = 0;
    while i < n
        invariant
            i <= n,
            n == s@.len(),
            forall|j: int| 0 <= j < i ==> s@[j] == c,
        decreases n - i,
    {
        if s.get_char(i) != c {
            proof {
                lemma_trim_leading_run(s@, c, i as int);
            }
            return i;
        }
        i = i + 1;
    }
    proof {
        lemma_trim_leading_run(s@, c, n as int);
    }
    n
}

/// Relates the recursive trim to an index: if the first `k` characters are
/// `c` and the next one is not, the trim is the suffix from `k`.
pub proof fn lemma_trim_leading_run(s: Seq<char>, c: char, k: int)
    requires
        0 <= k <= s.len(),
        forall|j: int| 0 <= j < k ==> s[j] == c,
        k < s.len() ==> s[k] != c,
    ensures
        trim_leading(s, c) == s.skip(k),
    decreases k,
{
    if k == 0 {
        assert(s.skip(0) =~= s);
    } else {
        assert(s[0] == c);
        assert(forall|j: int| 0 <= j < k - 1 ==> #[trigger] s.skip(1)[j] == s[j + 1]);
        lemma_trim_leading_run(s.skip(1), c, k - 1);
        assert(s.skip(1).skip(k - 1) =~= s.skip(k));
    }
}

/// The suffix of `s` with the leading run of `c` removed.
pub fn trim_leading_str<'a>(s: &'a str, c: char) -> (r: &'a str)
    ensures
        r@ == trim_leading(s@, c),
{
    let k = leading_run(s, c);
    let n = s.unicode_len();
    s.substring_char(k, n)
}

/// `s` with every `a` replaced by `b`.
pub fn replace_char_exec(s: &str, a: char, b: char) -> (r: String)
    ensures
        r@ == replace_chars(s@, a, b),
{
    let n = s.unicode_len();
    let mut out = String::new();
    let mut i: usize = 0;
    while i < n
        invariant
            i <= n,
            n == s@.len(),
            out@ == replace_chars(s@, a, b).take(i as int),
        decreases n - i,
    {
        let ch = s.get_char(i);
        if ch == a {
            push_char(&mut out, b);
        } else {
            push_char(&mut out, ch);
        }
        i = i + 1;
        proof {
            assert(out@ =~= replace_chars(s@, a, b).take(i as int));
        }
    }
    proof {
        assert(replace_chars(s@, a, b).take(n as int) =~= replace_chars(s@, a, b));
    }
    out
}

/// Character-wise equality of two string slices.
pub fn str_eq(a: &str, b: &str) -> (r: bool)
    ensures
        r == (a@ == b@),
{
    let an = a.unicode_len();
    let bn = b.unicode_len();
    if an != bn {
        proof {
            if a@ == b@ {
                assert(a@.len() == b@.len());
            }
        }
        return false;
    }
    let mut i: usize = 0;
    while i < an
        invariant
            i <= an,
            an == a@.len() == b@.len(),
            forall|j: int| 0 <= j < i ==> a@[j] == b@[j],
        decreases an - i,
    {
        if a.get_char(i) != b.get_char(i) {
            return false;
        }
        i = i + 1;
    }
    proof {
        assert(a@ =~= b@);
    }
    true
}

/// Whether `a` is strictly before `b` in the lexicographic order.
pub fn str_lt(a: &str, b: &str) -> (r: bool)
    ensures
        r == lex_lt(a@, b@),
{
    let an = a.unicode_len();
    let bn = b.unicode_len();
    let mut i: usize = 0;
    proof {
        assert(a@.skip(0) =~= a@);
        assert(b@.skip(0) =~= b@);
    }
    loop
        invariant
            i <= an,
            i <= bn,
            an == a@.len(),
            bn == b@.len(),
            forall|j: int| 0 <= j < i ==> a@[j] == b@[j],
            lex_lt(a@, b@) == lex_lt(a@.skip(i as int), b@.skip(i as int)),
        decreases an - i,
    {
        if i == bn {
            assert(b@.skip(i as int).len() == 0);
            return false;
        }
        if i == an {
            assert(a@.skip(i as int).len() == 0 && b@.skip(i as int).len() > 0);
            return true;
        }
        let ca = a.get_char(i);
        let cb = b.get_char(i);
        if ca != cb {
            proof {
                assert(a@.skip(i as int)[0] == a@[i as int]);
                assert(b@.skip(i as int)[0] == b@[i as int]);
            }
            return (ca as u32) < (cb as u32);
        }
        proof {
            assert(a@.skip(i as int)[0] == a@[i as int]);
            assert(b@.skip(i as int)[0] == b@[i as int]);
            assert(a@.skip(i as int).skip(1) =~= a@.skip(i + 1));
            assert(b@.skip(i as int).skip(1) =~= b@.skip(i + 1));
        }
        i = i + 1;
    }
}

/// Copies a string slice into an owned string.
pub fn to_owned_str(s: &str) -> (r: String)
    ensures
        r@ == s@,
{
    String::from_str(s)
}

/// The UTF-8 bytes of a string slice, as an owned vector.
pub fn bytes_of(s: &str) -> (r: Vec<u8>)
    ensures
        r@ == str_bytes(s@),
{
    s.as_bytes_vec()
}

/// The first occurrence of `c`, as the spec-level index.
pub fn first_char_ix(s: &str, c: char) -> (r: Option<usize>)
    ensures
        match r {
            Some(i) => i < s@.len() && char_ix(s@, c) == Some(i as int),
            None => char_ix(s@, c) is None,
        },
{
    let r = find_char_from(s, c, 0);
    proof {
        lemma_char_ix(s@, c);
    }
    r
}

/// The first occurrence of the pair `c1`,`c2`, as the spec-level index.
pub fn first_pair_ix(s: &str, c1: char, c2: char) -> (r: Option<usize>)
    ensures
        match r {
            Some(i) => i + 1 < s@.len() && pair_ix(s@, c1, c2) == Some(i as int),
            None => pair_ix(s@, c1, c2) is None,
        },
{
    let r = find_pair(s, c1, c2);
    proof {
        lemma_pair_ix(s@, c1, c2);
    }
    r
}

/// The whitespace characters recognized when trimming list entries.
pub open spec fn is_space(c: char) -> bool {
    c == ' ' || c == '\t' || c == '\r' || c == '\n'
}

/// `s` without its leading whitespace.
pub open spec fn trim_front(s: Seq<char>) -> Seq<char>
    decreases s.len(),
{
    if s.len() > 0 && is_space(s[0]) {
        trim_front(s.skip(1))
    } else {
        s
    }
}

/// `s` without its trailing whitespace.
pub open spec fn trim_back(s: Seq<char>) -> Seq<char>
    decreases s.len(),
{
    if s.len() > 0 && is_space(s.last()) {
        trim_back(s.drop_last())
    } else {
        s
    }
}

/// `s` without leading or trailing whitespace.
pub open spec fn trim_spec(s: Seq<char>) -> Seq<char> {
    trim_back(trim_front(s))
}

/// Relates the recursive front trim to an index.
pub proof fn lemma_trim_front_run(s: Seq<char>, k: int)
    requires
        0 <= k <= s.len(),
        forall|j: int| 0 <= j < k ==> is_space(#[trigger] s[j]),
        k < s.len() ==> !is_space(s[k]),
    ensures
        trim_front(s) == s.skip(k),
    decreases k,
{
    if k == 0 {
        assert(s.skip(0) =~= s);
    } else {
        assert(is_space(s[0]));
        assert(forall|j: int| 0 <= j < k - 1 ==> #[trigger] s.skip(1)[j] == s[j + 1]);
        lemma_trim_front_run(s.skip(1), k - 1);
        assert(s.skip(1).skip(k - 1) =~= s.skip(k));
    }
}

/// Relates the recursive back trim to an index.
pub proof fn lemma_trim_back_run(s: Seq<char>, m: int)
    requires
        0 <= m <= s.len(),
        forall|j: int| m <= j < s.len() ==> is_space(#[trigger] s[j]),
        m > 0 ==> !is_space(s[m - 1]),
    ensures
        trim_back(s) == s.take(m),
    decreases s.len(),
{
    if m == s.len() {
        if s.len() > 0 && is_space(s.last()) {
            lemma_trim_back_run(s.drop_last(), m - 1);
            assert(s.drop_last() =~= s.take(m - 1));
            assert(false);
        } else {
            assert(s.take(m) =~= s);
        }
    } else {
        assert(is_space(s.last()));
        assert(forall|j: int| 0 <= j < s.len() - 1 ==> #[trigger] s.drop_last()[j] == s[j]);
        lemma_trim_back_run(s.drop_last(), m);
        assert(s.drop_last().take(m) =~= s.take(m));
    }
}

/// Whether a character is whitespace.
pub fn is_space_exec(c: char) -> (r: bool)
    ensures
        r == is_space(c),
{
    c == ' ' || c == '\t' || c == '\r' || c == '\n'
}

/// The length of the leading whitespace run.
fn leading_space_run(s: &str) -> (a: usize)
    ensures
        a <= s@.len(),
        forall|j: int| 0 <= j < a ==> is_space(#[trigger] s@[j]),
        a < s@.len() ==> !is_space(s@[a as int]),
{
    let n = s.unicode_len();
    let mut i: usize = 0;
    while i < n
        invariant
            i <= n,
            n == s@.len(),
            forall|j: int| 0 <= j < i ==> is_space(#[trigger] s@[j]),
        decreases n - i,
    {
        if !is_space_exec(s.get_char(i)) {
            return i;
        }
        i = i + 1;
    }
    n
}

/// The start of the trailing whitespace run, at or after `a`.
fn trailing_space_start(s: &str, a: usize) -> (b: usize)
    requires
        a <= s@.len(),
    ensures
        a <= b <= s@.len(),
        forall|j: int| b <= j < s@.len() ==> is_space(#[trigger] s@[j]),
        b > a ==> !is_space(s@[b - 1]),
{
    let n = s.unicode_len();
    let mut b: usize = n;
    while b > a
        invariant
            a <= b <= n,
            n == s@.len(),
            forall|j: int| b <= j < n ==> is_space(#[trigger] s@[j]),
        decreases b,
    {
        if !is_space_exec(s.get_char(b - 1)) {
            return b;
        }
        b = b - 1;
    }
    a
}

/// `s` without leading or trailing whitespace.
pub fn trim_exec(s: &str) -> (r: String)
    ensures
        r@ == trim_spec(s@),
{
    let n = s.unicode_len();
    let a = leading_space_run(s);
    proof {
        lemma_trim_front_run(s@, a as int);
    }
    let b = trailing_space_start(s, a);
    let r = s.substring_char(a, b);
    proof {
        let f = s@.skip(a as int);
        assert(forall|j: int| 0 <= j < f.len() ==> #[trigger] f[j] == s@[j + a]);
        lemma_trim_back_run(f, b - a);
        assert(f.take(b - a) =~= s@.subrange(a as int, b as int));
        assert(r@ =~= s@.subrange(a as int, b as int));
    }
    to_owned_str(r)
}

/// The lines of a text, split on newline characters.
pub open spec fn lines_spec(s: Seq<char>) -> Seq<Seq<char>>
    decreases s.len(),
    via lines_spec_decreases
{
    match char_ix(s, '\n') {
        Some(i) => seq![s.take(i)] + lines_spec(s.skip(i + 1)),
        None => seq![s],
    }
}

#[via_fn]
proof fn lines_spec_decreases(s: Seq<char>) {
    lemma_char_ix(s, '\n');
}

/// Splits a text into its lines.
pub fn split_lines(s: &str) -> (r: Vec<String>)
    ensures
        r.deep_view() == lines_spec(s@),
    decreases s@.len(),
{
    let n = s.unicode_len();
    match first_char_ix(s, '\n') {
        Some(i) => {
            let head = s.substring_char(0, i);
            let tail = s.substring_char(i + 1, n);
            proof {
                assert(head@ =~= s@.take(i as int));
                assert(tail@ =~= s@.skip(i + 1));
            }
            let mut out: Vec<String> = Vec::new();
            out.push(to_owned_str(head));
            let rest = split_lines(tail);
            let ghost pre = out@;
            let ghost pre_dv = out.deep_view();
            let m = rest.len();
            let mut k: usize = 0;
            while k < m
                invariant
                    k <= m,
                    m == rest@.len(),
                    rest.deep_view() == lines_spec(tail@),
                    tail@ == s@.skip(i + 1),
                    head@ == s@.take(i as int),
                    char_ix(s@, '\n') == Some(i as int),
                    out.deep_view().len() == 1 + k,
                    out.deep_view()[0] == s@.take(i as int),
                    forall|j: int| 0 <= j < k ==> out.deep_view()[j + 1] == rest.deep_view()[j],
                decreases m - k,
            {
                let ghost p = out@;
                let ghost p_dv = out.deep_view();
                out.push(rest[k].clone());
                proof {
                    assert forall|j: int|
                        0 <= j < out.deep_view().len() implies out.deep_view()[j] == (
                    if j < p_dv.len() {
                        p_dv[j]
                    } else {
                        rest.deep_view()[k as int]
                    }) by {
                        assert(out.deep_view()[j] == out@[j].deep_view());
                        if j < p.len() {
                            assert(out@[j] == p[j]);
                            assert(p_dv[j] == p[j].deep_view());
                        } else {
                            assert(out@[j] == rest@[k as int]);
                            assert(rest.deep_view()[k as int] == rest@[k as int].deep_view());
                        }
                    }
                }
                k = k + 1;
            }
            proof {
                assert(out.deep_view() =~= seq![s@.take(i as int)] + lines_spec(s@.skip(i + 1)));
            }
            out
        },
        None => {
            let mut out: Vec<String> = Vec::new();
            out.push(to_owned_str(s));
            proof {
                assert(out.deep_view() =~= seq![s@]);
            }
            out
        },
    }
}

/// Pushes a string, tracking the deep view.
pub fn push_string(v: &mut Vec<String>, s: String)
    ensures
        final(v)@ == old(v)@.push(s),
        final(v).deep_view() == old(v).deep_view().push(s@),
{
    let ghost pre = v@;
    let ghost pre_dv = v.deep_view();
    let ghost sv = s@;
    v.push(s);
    proof {
        assert forall|j: int|
            0 <= j < v.deep_view().len() implies v.deep_view()[j] == pre_dv.push(sv)[j] by {
            assert(v.deep_view()[j] == v@[j].deep_view());
            if j < pre.len() {
                assert(v@[j] == pre[j]);
                assert(pre_dv[j] == pre[j].deep_view());
            }
        }
        assert(v.deep_view() =~= pre_dv.push(sv));
    }
}

/// Pops the last string, tracking the deep view.
pub fn pop_string(v: &mut Vec<String>) -> (r: Option<String>)
    requires
        old(v)@.len() > 0,
    ensures
        final(v)@ == old(v)@.drop_last(),
        final(v).deep_view() == old(v).deep_view().drop_last(),
{
    let ghost pre = v@;
    let ghost pre_dv = v.deep_view();
    let r = v.pop();
    proof {
        assert(v@ =~= pre.drop_last());
        assert forall|j: int|
            0 <= j < v.deep_view().len() implies v.deep_view()[j] == pre_dv.drop_last()[j] by {
            assert(v.deep_view()[j] == v@[j].deep_view());
            assert(v@[j] == pre[j]);
            assert(pre_dv[j] == pre[j].deep_view());
        }
        assert(v.deep_view() =~= pre_dv.drop_last());
    }
    r
}

/// Whether `s` equals one of the strings in `v`.
pub fn contains_string(v: &Vec<String>, s: &str) -> (r: bool)
    ensures
        r == v.deep_view().contains(s@),
{
    let n = v.len();
    let mut i: usize = 0;
    while i < n
        invariant
            i <= n,
            n == v.len(),
            forall|j: int| 0 <= j < i ==> v.deep_view()[j] != s@,
        decreases n - i,
    {
        assert(v.deep_view()[i as int] == v@[i as int]@);
        if str_eq(v[i].as_str(), s) {
            return true;
        }
        i = i + 1;
    }
    proof {
        if v.deep_view().contains(s@) {
            let j = choose|j: int| 0 <= j < v.deep_view().len() && v.deep_view()[j] == s@;
            assert(v.deep_view()[j] != s@);
        }
    }
    false
}


/// The pieces of a text split on a separator character.
pub open spec fn split_char_spec(s: Seq<char>, c: char) -> Seq<Seq<char>>
    decreases s.len(),
    via split_char_spec_decreases
{
    match char_ix(s, c) {
        Some(i) => seq![s.take(i)] + split_char_spec(s.skip(i + 1), c),
        None => seq![s],
    }
}

#[via_fn]
proof fn split_char_spec_decreases(s: Seq<char>, c: char) {
    lemma_char_ix(s, c);
}

/// Splits a text on a separator character.
pub fn split_on_char(s: &str, c: char) -> (r: Vec<String>)
    ensures
        r.deep_view() == split_char_spec(s@, c),
    decreases s@.len(),
{
    let n = s.unicode_len();
    match first_char_ix(s, c) {
        Some(i) => {
            let head = s.substring_char(0, i);
            let tail = s.substring_char(i + 1, n);
            proof {
                assert(head@ =~= s@.take(i as int));
                assert(tail@ =~= s@.skip(i + 1));
            }
            let mut out: Vec<String> = Vec::new();
            out.push(to_owned_str(head));
            let rest = split_on_char(tail, c);
            let m = rest.len();
            let mut k: usize = 0;
            while k < m
                invariant
                    k <= m,
                    m == rest@.len(),
                    rest.deep_view() == split_char_spec(tail@, c),
                    tail@ == s@.skip(i + 1),
                    head@ == s@.take(i as int),
                    char_ix(s@, c) == Some(i as int),
                    out.deep_view().len() == 1 + k,
                    out.deep_view()[0] == s@.take(i as int),
                    forall|j: int| 0 <= j < k ==> out.deep_view()[j + 1] == rest.deep_view()[j],
                decreases m - k,
            {
                let ghost p = out@;
                let ghost p_dv = out.deep_view();
                out.push(rest[k].clone());
                proof {
                    assert forall|j: int|
                        0 <= j < out.deep_view().len() implies out.deep_view()[j] == (
                    if j < p_dv.len() {
                        p_dv[j]
                    } else {
                        rest.deep_view()[k as int]
                    }) by {
                        assert(out.deep_view()[j] == out@[j].deep_view());
                        if j < p.len() {
                            assert(out@[j] == p[j]);
                            assert(p_dv[j] == p[j].deep_view());
                        } else {
                            assert(out@[j] == rest@[k as int]);
                            assert(rest.deep_view()[k as int] == rest@[k as int].deep_view());
                        }
                    }
                }
                k = k + 1;
            }
            proof {
                assert(out.deep_view() =~= seq![s@.take(i as int)] + split_char_spec(
                    s@.skip(i + 1),
                    c,
                ));
            }
            out
        },
        None => {
            let mut out: Vec<String> = Vec::new();
            out.push(to_owned_str(s));
            proof {
                assert(out.deep_view() =~= seq![s@]);
            }
            out
        },
    }
}

/// Whether a character is a decimal digit.
pub open spec fn is_digit(c: char) -> bool {
    48 <= c as u32 <= 57
}

/// Whether a text is a nonempty run of decimal digits.
pub open spec fn is_digits(s: Seq<char>) -> bool {
    s.len() > 0 && forall|i: int| 0 <= i < s.len() ==> is_digit(#[trigger] s[i])
}

/// The value of a digit run.
pub open spec fn dec_val(s: Seq<char>) -> int
    decreases s.len(),
{
    if s.len() == 0 {
        0
    } else {
        dec_val(s.drop_last()) * 10 + (s.last() as u32 - 48)
    }
}

/// A digit run's value is nonnegative and grows along its prefixes.
pub proof fn lemma_dec_val_monotone(s: Seq<char>, i: int)
    requires
        0 <= i <= s.len(),
        forall|j: int| 0 <= j < s.len() ==> is_digit(#[trigger] s[j]),
    ensures
        0 <= dec_val(s.take(i)) <= dec_val(s),
    decreases s.len(),
{
    if s.len() == 0 {
        assert(s.take(i) =~= s);
    } else {
        assert(forall|j: int| 0 <= j < s.len() - 1 ==> #[trigger] s.drop_last()[j] == s[j]);
        lemma_dec_val_monotone(s.drop_last(), if i <= s.len() - 1 {
            i
        } else {
            s.len() - 1
        });
        if i <= s.len() - 1 {
            assert(s.drop_last().take(i) =~= s.take(i));
            assert(dec_val(s) == dec_val(s.drop_last()) * 10 + (s.last() as u32 - 48));
            assert(dec_val(s.drop_last()) <= dec_val(s.drop_last()) * 10 + (s.last() as u32
                - 48));
        } else {
            assert(s.take(i) =~= s);
        }
    }
}

/// Parses a nonempty digit run into a 32-bit value; anything else, or a
/// value out of range, yields nothing.
pub fn parse_u32(s: &str) -> (r: Option<u32>)
    ensures
        match r {
            Some(v) => is_digits(s@) && v as int == dec_val(s@),
            None => !(is_digits(s@) && dec_val(s@) <= u32::MAX),
        },
{
    let n = s.unicode_len();
    if n == 0 {
        return None;
    }
    let mut v: u32 = 0;
    let mut i: usize = 0;
    proof {
        assert(s@.take(0) =~= Seq::<char>::empty());
    }
    while i < n
        invariant
            i <= n,
            n == s@.len(),
            n > 0,
            forall|j: int| 0 <= j < i ==> is_digit(#[trigger] s@[j]),
            v as int == dec_val(s@.take(i as int)),
        decreases n - i,
    {
        let c = s.get_char(i);
        let code = c as u32;
        if !(48 <= code && code <= 57) {
            return None;
        }
        let d = code - 48;
        if v > 429496729 || (v == 429496729 && d > 5) {
            proof {
                assert(s@.take(i + 1).drop_last() =~= s@.take(i as int));
                assert(s@.take(i + 1).last() == s@[i as int]);
                assert(dec_val(s@.take(i + 1)) > u32::MAX);
                if is_digits(s@) {
                    lemma_dec_val_monotone(s@, i + 1);
                }
            }
            return None;
        }
        proof {
            assert(s@.take(i + 1).drop_last() =~= s@.take(i as int));
            assert(s@.take(i + 1).last() == s@[i as int]);
        }
        v = v * 10 + d;
        i = i + 1;
    }
    proof {
        assert(s@.take(n as int) =~= s@);
    }
    Some(v)
}

} // verus!
