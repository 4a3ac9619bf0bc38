//! Byte-sequence utilities shared by the header parser and the router:
//! pattern search, comparison (exact and ASCII-case-insensitive), whitespace
//! trimming, and small building blocks for byte buffers.

use vstd::prelude::*;

verus! {

/// True when `pat` occurs in `s` starting at index `i`.
pub open spec fn match_at(s: Seq<u8>, pat: Seq<u8>, i: int) -> bool {
    0 <= i && i + pat.len() <= s.len() && s.subrange(i, i + pat.len() as int) == pat
}

/// Index of the first occurrence of `pat` in `s`; `s.len()` when there is none.
pub open spec fn first_match(s: Seq<u8>, pat: Seq<u8>) -> int
    decreases s.len(),
{
    if s.len() < pat.len() || pat.len() == 0 {
        s.len() as int
    } else if s.subrange(0, pat.len() as int) == pat {
        0
    } else {
        1 + first_match(s.drop_first(), pat)
    }
}

/// `first_match` names the first occurrence: it is in bounds, a match stands
/// there if it is below `s.len()`, and no match stands before it.
pub proof fn lemma_first_match(s: Seq<u8>, pat: Seq<u8>)
    requires
        pat.len() > 0,
    ensures
        0 <= first_match(s, pat) <= s.len(),
        first_match(s, pat) < s.len() ==> match_at(s, pat, first_match(s, pat)),
        forall|j: int| 0 <= j < first_match(s, pat) ==> !match_at(s, pat, j),
    decreases s.len(),
{
    if s.len() < pat.len() {
        assert(forall|j: int| 0 <= j < s.len() ==> !match_at(s, pat, j));
    } else if s.subrange(0, pat.len() as int) == pat {
    } else {
        let t = s.drop_first();
        lemma_first_match(t, pat);
        let m = first_match(s, pat);
        assert(m == 1 + first_match(t, pat));
        if m < s.len() {
            let mt = first_match(t, pat);
            assert(match_at(t, pat, mt));
            assert(s.subrange(m, m + pat.len() as int) =~= t.subrange(mt, mt + pat.len() as int));
        }
        assert forall|j: int| 0 <= j < m implies !match_at(s, pat, j) by {
            if j == 0 {
                assert(s.subrange(0, pat.len() as int) != pat);
            } else if j + pat.len() <= s.len() {
                assert(!match_at(t, pat, j - 1));
                assert(s.subrange(j, j + pat.len() as int) =~= t.subrange(
                    j - 1,
                    j - 1 + pat.len() as int,
                ));
            }
        }
    }
}

/// Finds the first occurrence of `pat` at or after `from` in `v`.
/// Returns `from + first_match` of the suffix, so `v.len()` means "absent".
pub fn find_pattern_from(v: &[u8], pat: &[u8], from: usize) -> (r: usize)
    requires
        pat@.len() > 0,
        from <= v@.len(),
    ensures
        r == from + first_match(v@.skip(from as int), pat@),
{
    let ghost suffix = v@.skip(from as int);
    proof {
        lemma_first_match(suffix, pat@);
    }
    if v.len() < pat.len() || from > v.len() - pat.len() {
        assert(suffix.len() < pat@.len());
        return v.len();
    }
    let mut i: usize = from;
    while i <= v.len() - pat.len()
        invariant
            from <= i,
            i + pat@.len() <= v@.len() + 1,
            pat@.len() > 0,
            pat@.len() <= v@.len(),
            from <= v@.len(),
            suffix == v@.skip(from as int),
            forall|j: int| 0 <= j < i - from ==> !match_at(suffix, pat@, j),
        decreases v@.len() - i,
    {
        let w = subvec(v, i, i + pat.len());
        let ghost here = suffix.subrange(i - from, i - from + pat@.len() as int);
        proof {
            assert(here =~= v@.subrange(i as int, i + pat@.len() as int));
        }
        if bytes_eq(w.as_slice(), pat) {
            proof {
                assert(match_at(suffix, pat@, i - from));
                lemma_first_match(suffix, pat@);
                let m = first_match(suffix, pat@);
                if m < i - from {
                    assert(match_at(suffix, pat@, m));
                    assert(false);
                }
                if m > i - from {
                    assert(!match_at(suffix, pat@, i - from));
                    assert(false);
                }
            }
            return i;
        }
        proof {
            assert(!match_at(suffix, pat@, i - from));
        }
        i += 1;
    }
    proof {
        lemma_first_match(suffix, pat@);
        let m = first_match(suffix, pat@);
        if m < suffix.len() {
            assert(match_at(suffix, pat@, m));
            assert(m + pat@.len() <= suffix.len());
            assert(m < i - from);
            assert(false);
        }
    }
    v.len()
}

/// Returns true when the two byte slices hold the same bytes.
pub fn bytes_eq(a: &[u8], b: &[u8]) -> (r: bool)
    ensures
        r == (a@ == b@),
{
    if a.len() != b.len() {
        assert(a@ != b@);
        return false;
    }
    let mut i: usize = 0;
    while i < a.len()
        invariant
            i <= a@.len(),
            a@.len() == b@.len(),
            forall|j: int| 0 <= j < i ==> a@[j] == b@[j],
        decreases a@.len() - i,
    {
        if a[i] != b[i] {
            assert(a@ != b@);
            return false;
        }
        i += 1;
    }
    assert(a@ =~= b@);
    true
}

/// ASCII lower-casing of one byte: letters `A`..`Z` gain 32, all else unchanged.
pub open spec fn ascii_lower(b: u8) -> u8 {
    if 65 <= b <= 90 {
        (b + 32) as u8
    } else {
        b
    }
}

/// ASCII lower-casing of a whole byte sequence.
pub open spec fn seq_lower(s: Seq<u8>) -> Seq<u8> {
    Seq::new(s.len(), |i: int| ascii_lower(s[i]))
}

/// Lower-cases one byte as `ascii_lower` describes.
pub fn lower_byte(b: u8) -> (r: u8)
    ensures
        r == ascii_lower(b),
{
    if 65 <= b && b <= 90 {
        b + 32
    } else {
        b
    }
}

/// Returns true when the two byte slices are equal up to ASCII case.
pub fn eq_ignore_ascii_case(a: &[u8], b: &[u8]) -> (r: bool)
    ensures
        r == (seq_lower(a@) == seq_lower(b@)),
{
    if a.len() != b.len() {
        assert(seq_lower(a@).len() != seq_lower(b@).len());
        return false;
    }
    let mut i: usize = 0;
    while i < a.len()
        invariant
            i <= a@.len(),
            a@.len() == b@.len(),
            forall|j: int| 0 <= j < i ==> ascii_lower(a@[j]) == ascii_lower(b@[j]),
        decreases a@.len() - i,
    {
        if lower_byte(a[i]) != lower_byte(b[i]) {
            assert(seq_lower(a@)[i as int] != seq_lower(b@)[i as int]);
            return false;
        }
        i += 1;
    }
    assert(seq_lower(a@) =~= seq_lower(b@));
    true
}

/// True for the two horizontal whitespace bytes, space and tab.
pub open spec fn is_ws(b: u8) -> bool {
    b == 32 || b == 9
}

/// `s` with leading whitespace removed.
pub open spec fn trim_front(s: Seq<u8>) -> Seq<u8>
    decreases s.len(),
{
    if s.len() > 0 && is_ws(s[0]) {
        trim_front(s.drop_first())
    } else {
        s
    }
}

/// `s` with trailing whitespace removed.
pub open spec fn trim_back(s: Seq<u8>) -> Seq<u8>
    decreases s.len(),
{
    if s.len() > 0 && is_ws(s.last()) {
        trim_back(s.drop_last())
    } else {
        s
    }
}

/// `s` with surrounding whitespace removed.
pub open spec fn trim(s: Seq<u8>) -> Seq<u8> {
    trim_back(trim_front(s))
}

proof fn lemma_trim_front_skip(s: Seq<u8>, i: int)
    requires
        0 <= i <= s.len(),
        forall|j: int| 0 <= j < i ==> is_ws(s[j]),
    ensures
        trim_front(s) == trim_front(s.skip(i)),
    decreases i,
{
    if i > 0 {
        assert(is_ws(s[0]));
        assert(s.drop_first() =~= s.skip(1));
        lemma_trim_front_skip(s.skip(1), i - 1);
        assert(s.skip(1).skip(i - 1) =~= s.skip(i));
    } else {
        assert(s.skip(0) =~= s);
    }
}

proof fn lemma_trim_front_none(s: Seq<u8>)
    requires
        s.len() == 0 || !is_ws(s[0]),
    ensures
        trim_front(s) == s,
{
}

proof fn lemma_trim_back_take(s: Seq<u8>, i: int)
    requires
        0 <= i <= s.len(),
        forall|j: int| i <= j < s.len() ==> is_ws(s[j]),
    ensures
        trim_back(s) == trim_back(s.take(i)),
    decreases s.len() - i,
{
    if i < s.len() {
        assert(is_ws(s.last()));
        assert(s.drop_last() =~= s.take(s.len() - 1));
        lemma_trim_back_take(s.take(s.len() - 1), i);
        assert(s.take(s.len() - 1).take(i) =~= s.take(i));
    } else {
        assert(s.take(i) =~= s);
    }
}

proof fn lemma_trim_back_none(s: Seq<u8>)
    requires
        s.len() == 0 || !is_ws(s.last()),
    ensures
        trim_back(s) == s,
{
}

/// Copies `v[a..b]` into a fresh vector.
pub fn subvec(v: &[u8], a: usize, b: usize) -> (r: Vec<u8>)
    requires
        a <= b <= v@.len(),
    ensures
        r@ == v@.subrange(a as int, b as int),
{
    let mut r: Vec<u8> = Vec::new();
    let mut i: usize = a;
    while i < b
        invariant
            a <= i <= b <= v@.len(),
            r@ == v@.subrange(a as int, i as int),
        decreases b - i,
    {
        r.push(v[i]);
        proof {
            assert(r@ =~= v@.subrange(a as int, i + 1));
        }
        i += 1;
    }
    r
}

/// Copies a byte slice into a fresh vector.
pub fn copy_bytes(v: &[u8]) -> (r: Vec<u8>)
    ensures
        r@ == v@,
{
    let r = subvec(v, 0, v.len());
    proof {
        assert(v@.subrange(0, v@.len() as int) =~= v@);
    }
    r
}

/// Removes surrounding whitespace, as `trim` describes.
pub fn trim_bytes(v: &[u8]) -> (r: Vec<u8>)
    ensures
        r@ == trim(v@),
{
    let mut a: usize = 0;
    while a < v.len() && (v[a] == 32 || v[a] == 9)
        invariant
            a <= v@.len(),
            forall|j: int| 0 <= j < a ==> is_ws(v@[j]),
        decreases v@.len() - a,
    {
        a += 1;
    }
    proof {
        lemma_trim_front_skip(v@, a as int);
        lemma_trim_front_none(v@.skip(a as int));
    }
    let mut b: usize = v.len();
    while b > a && (v[b - 1] == 32 || v[b - 1] == 9)
        invariant
            a <= b <= v@.len(),
            forall|j: int| b <= j < v@.len() ==> is_ws(v@[j]),
            trim_front(v@) == v@.skip(a as int),
        decreases b,
    {
        b -= 1;
    }
    proof {
        let f = v@.skip(a as int);
        if b == a {
            lemma_trim_back_take(f, 0);
            assert(f.take(0) =~= Seq::<u8>::empty());
            lemma_trim_back_none(f.take(0));
            assert(v@.subrange(a as int, b as int) =~= f.take(0));
        } else {
            assert(!is_ws(f[b - a - 1]));
            lemma_trim_back_take(f, b - a);
            lemma_trim_back_none(f.take(b - a));
            assert(v@.subrange(a as int, b as int) =~= f.take(b - a));
        }
    }
    subvec(v, a, b)
}

/// Appends all of `s` to `v`.
pub fn push_bytes(v: &mut Vec<u8>, s: &[u8])
    ensures
        final(v)@ == old(v)@ + s@,
{
    let mut i: usize = 0;
    while i < s.len()
        invariant
            i <= s@.len(),
            v@ == old(v)@ + s@.take(i as int),
        decreases s@.len() - i,
    {
        v.push(s[i]);
        proof {
            assert(old(v)@ + s@.take(i + 1) =~= (old(v)@ + s@.take(i as int)).push(s@[i as int]));
        }
        i += 1;
    }
    proof {
        assert(s@.take(s@.len() as int) =~= s@);
    }
}

} // verus!
