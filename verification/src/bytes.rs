//! Small verified helpers over byte vectors: equality, prefix tests,
//! substring search and concatenation. All text handled by this crate is
//! ASCII, carried as bytes.

use vstd::prelude::*;

verus! {

/// The deep view of a byte vector is its view.
pub broadcast proof fn lemma_bytes_deep_view(v: Vec<u8>)
    ensures
        #[trigger] v.deep_view() == v@,
{
    assert(v.deep_view() =~= v@);
}

/// True when every byte is ASCII, so that text handed to string-keyed
/// outside interfaces survives UTF-8 decoding unchanged.
pub open spec fn ascii_bytes(s: Seq<u8>) -> bool {
    forall|i: int| 0 <= i < s.len() ==> #[trigger] s[i] < 128
}

/// Returns whether every byte of `s` is ASCII.
pub fn is_ascii_bytes(s: &[u8]) -> (r: bool)
    ensures
        r == ascii_bytes(s@),
{
    let mut i: usize = 0;
    while i < s.len()
        invariant
            i <= s@.len(),
            forall|j: int| 0 <= j < i ==> #[trigger] s@[j] < 128,
        decreases s.len() - i,
    {
        if s[i] >= 128 {
            return false;
        }
        i += 1;
    }
    true
}

/// True when `p` occurs in `s` starting at offset `i`.
pub open spec fn is_subseq_at(s: Seq<u8>, p: Seq<u8>, i: int) -> bool {
    0 <= i && i + p.len() <= s.len() && s.subrange(i, i + p.len() as int) == p
}

/// True when `p` occurs somewhere in `s`.
pub open spec fn contains_seq(s: Seq<u8>, p: Seq<u8>) -> bool {
    exists|i: int| is_subseq_at(s, p, i)
}

/// Returns true when the byte slices are equal element for element.
pub fn bytes_eq(a: &[u8], b: &[u8]) -> (r: bool)
    ensures
        r == (a@ == b@),
{
    if a.len() != b.len() {
        assert(a@.len() != b@.len());
        return false;
    }
    let mut i: usize = 0;
    while i < a.len()
        invariant
            i <= a.len(),
            a@.len() == b@.len(),
            forall|j: int| 0 <= j < i ==> a@[j] == b@[j],
        decreases a.len() - i,
    {
        if a[i] != b[i] {
            return false;
        }
        i += 1;
    }
    assert(a@ =~= b@);
    true
}

/// Returns true when `s` begins with `p`.
pub fn starts_with(s: &[u8], p: &[u8]) -> (r: bool)
    ensures
        r == (p@.len() <= s@.len() && s@.subrange(0, p@.len() as int) == p@),
{
    if p.len() > s.len() {
        return false;
    }
    let mut i: usize = 0;
    while i < p.len()
        invariant
            i <= p@.len() <= s@.len(),
            forall|j: int| 0 <= j < i ==> s@[j] == p@[j],
        decreases p.len() - i,
    {
        if s[i] != p[i] {
            assert(s@.subrange(0, p@.len() as int)[i as int] != p@[i as int]);
            return false;
        }
        i += 1;
    }
    assert(s@.subrange(0, p@.len() as int) =~= p@);
    true
}

/// Returns whether `needle` occurs anywhere in `hay`.
pub fn contains_subseq(hay: &[u8], needle: &[u8]) -> (r: bool)
    ensures
        r == contains_seq(hay@, needle@),
{
    let m = needle.len();
    let n = hay.len();
    if m == 0 {
        proof {
            assert(hay@.subrange(0, 0) =~= needle@);
            assert(is_subseq_at(hay@, needle@, 0));
        }
        return true;
    }
    if m > n {
        proof {
            if contains_seq(hay@, needle@) {
                let i = choose|i: int| is_subseq_at(hay@, needle@, i);
                assert(false);
            }
        }
        return false;
    }
    let mut i: usize = 0;
    while i <= n - m
        invariant
            m <= n,
            m == needle@.len(),
            n == hay@.len(),
            i <= n - m + 1,
            1 <= m,
            forall|q: int| 0 <= q < i ==> !is_subseq_at(hay@, needle@, q),
        decreases n - m + 1 - i,
    {
        let mut j: usize = 0;
        let mut hit = true;
        while j < m && hit
            invariant
                i + m <= n,
                m == needle@.len(),
                n == hay@.len(),
                j <= m,
                hit ==> forall|t: int| 0 <= t < j ==> hay@[i + t] == needle@[t],
                !hit ==> !is_subseq_at(hay@, needle@, i as int),
            decreases m - j,
        {
            if hay[i + j] != needle[j] {
                hit = false;
                proof {
                    assert(hay@.subrange(i as int, i + m as int)[j as int] != needle@[j as int]);
                    assert(!is_subseq_at(hay@, needle@, i as int));
                }
            }
            j += 1;
        }
        assert(hit ==> j == m);
        if hit {
            proof {
                assert(hay@.subrange(i as int, i + m as int) =~= needle@);
                assert(is_subseq_at(hay@, needle@, i as int));
            }
            return true;
        }
        i += 1;
    }
    proof {
        if contains_seq(hay@, needle@) {
            let q = choose|q: int| is_subseq_at(hay@, needle@, q);
            assert(q < i);
            assert(false);
        }
    }
    false
}

/// Appends all of `src` to `dst`.
pub fn push_all(dst: &mut Vec<u8>, src: &[u8])
    ensures
        final(dst)@ == old(dst)@ + src@,
{
    let mut i: usize = 0;
    while i < src.len()
        invariant
            i <= src@.len(),
            dst@ == old(dst)@ + src@.subrange(0, i as int),
        decreases src.len() - i,
    {
        dst.push(src[i]);
        assert(dst@ =~= old(dst)@ + src@.subrange(0, i + 1 as int));
        i += 1;
    }
    assert(dst@ =~= old(dst)@ + src@);
}

} // verus!
