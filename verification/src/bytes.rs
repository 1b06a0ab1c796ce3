//! Byte-string helpers: comparison, copying, and substring search.

use vstd::prelude::*;

verus! {

/// Whether `pat` occurs in `hay` starting at position `i`.
pub open spec fn is_match_at(hay: Seq<u8>, pat: Seq<u8>, i: int) -> bool {
    &&& 0 <= i
    &&& i + pat.len() <= hay.len()
    &&& hay.subrange(i, i + pat.len()) == pat
}

/// Whether `pat` occurs anywhere in `hay`; every byte string contains the
/// empty string.
pub open spec fn contains_bytes(hay: Seq<u8>, pat: Seq<u8>) -> bool {
    exists|i: int| is_match_at(hay, pat, i)
}

/// Byte-for-byte equality of two byte strings.
pub fn bytes_eq(a: &[u8], b: &[u8]) -> (r: bool)
    ensures
        r == (a@ == b@),
{
    let n: usize = a.len();
    if n != b.len() {
        proof {
            assert(a@ != b@);
        }
        return false;
    }
    let mut i: usize = 0;
    while i < n
        invariant
            n == a@.len(),
            n == b@.len(),
            0 <= i <= n,
            forall|j: int| 0 <= j < i ==> a@[j] == b@[j],
        decreases n - i,
    {
        if a[i] != b[i] {
            proof {
                assert(a@ != b@);
            }
            return false;
        }
        i += 1;
    }
    proof {
        assert(a@ =~= b@);
    }
    true
}

/// A fresh owned copy of a byte string.
pub fn copy_bytes(v: &[u8]) -> (r: Vec<u8>)
    ensures
        r@ == v@,
{
    let n: usize = v.len();
    let mut out: Vec<u8> = Vec::new();
    let mut i: usize = 0;
    while i < n
        invariant
            n == v@.len(),
            0 <= i <= n,
            out@ =~= v@.take(i as int),
        decreases n - i,
    {
        out.push(v[i]);
        i += 1;
    }
    proof {
        assert(out@ =~= v@);
    }
    out
}

/// An owned copy of the byte range `[a, b)` of a byte string.
pub fn copy_range(v: &[u8], a: usize, b: usize) -> (r: Vec<u8>)
    requires
        a <= b <= v@.len(),
    ensures
        r@ == v@.subrange(a as int, b as int),
{
    let mut out: Vec<u8> = Vec::new();
    let mut i: usize = a;
    while i < b
        invariant
            a <= i <= b <= v@.len(),
            out@ =~= v@.subrange(a as int, i as int),
        decreases b - i,
    {
        out.push(v[i]);
        proof {
            assert(out@ =~= v@.subrange(a as int, i + 1));
        }
        i += 1;
    }
    out
}

/// The index of the last path separator in a byte string, or -1.
pub open spec fn last_slash(s: Seq<u8>) -> int
    decreases s.len(),
{
    if s.len() == 0 {
        -1
    } else if s.last() == 47 {
        s.len() - 1
    } else {
        last_slash(s.drop_last())
    }
}

/// The final segment of a path: everything after the last separator, or
/// the whole path when it has none.
pub fn last_segment(path: &[u8]) -> (r: Vec<u8>)
    ensures
        r@ == path@.subrange(last_slash(path@) + 1, path@.len() as int),
{
    let n: usize = path.len();
    let mut cut: usize = 0;
    let mut i: usize = 0;
    while i < n
        invariant
            n == path@.len(),
            0 <= i <= n,
            cut as int == last_slash(path@.take(i as int)) + 1,
            cut <= i,
        decreases n - i,
    {
        proof {
            assert(path@.take(i + 1).drop_last() =~= path@.take(i as int));
            assert(path@.take(i + 1).last() == path@[i as int]);
        }
        if path[i] == 47 {
            cut = i + 1;
        }
        i += 1;
    }
    proof {
        assert(path@.take(n as int) =~= path@);
    }
    copy_range(path, cut, n)
}

/// A byte string appended in full to a buffer.
pub fn push_all(out: &mut Vec<u8>, s: &[u8])
    ensures
        final(out)@ == old(out)@ + s@,
{
    let n: usize = s.len();
    let mut i: usize = 0;
    while i < n
        invariant
            n == s@.len(),
            0 <= i <= n,
            out@ == old(out)@ + s@.take(i as int),
        decreases n - i,
    {
        out.push(s[i]);
        proof {
            assert(old(out)@ + s@.take(i as int) + seq![s@[i as int]] =~= old(out)@ + s@.take(
                i + 1,
            ));
        }
        i += 1;
    }
    proof {
        assert(s@.take(n as int) =~= s@);
    }
}

/// Whether `pat` occurs in `hay` at exactly the position `at`.
pub fn match_at(hay: &[u8], pat: &[u8], at: usize) -> (r: bool)
    requires
        at + pat@.len() <= hay@.len(),
    ensures
        r == is_match_at(hay@, pat@, at as int),
{
    let m: usize = pat.len();
    let hn: usize = hay.len();
    let mut j: usize = 0;
    while j < m
        invariant
            m == pat@.len(),
            hn == hay@.len(),
            at + m <= hn,
            0 <= j <= m,
            forall|l: int| 0 <= l < j ==> hay@[at + l] == pat@[l],
        decreases m - j,
    {
        if hay[at + j] != pat[j] {
            proof {
                assert(hay@.subrange(at as int, at + pat@.len())[j as int] == hay@[at + j]);
                assert(!is_match_at(hay@, pat@, at as int));
            }
            return false;
        }
        j += 1;
    }
    proof {
        assert(hay@.subrange(at as int, at + pat@.len()) =~= pat@);
    }
    true
}

/// Case-sensitive substring search: whether `pat` occurs anywhere in `hay`.
pub fn contains_sub(hay: &[u8], pat: &[u8]) -> (r: bool)
    ensures
        r == contains_bytes(hay@, pat@),
{
    let n: usize = hay.len();
    let m: usize = pat.len();
    if m > n {
        proof {
            assert(forall|i: int| !is_match_at(hay@, pat@, i));
        }
        return false;
    }
    if m == 0 {
        proof {
            assert(hay@.subrange(0, 0) =~= pat@);
            assert(is_match_at(hay@, pat@, 0));
        }
        return true;
    }
    let mut i: usize = 0;
    while n - i >= m
        invariant
            n == hay@.len(),
            m == pat@.len(),
            1 <= m <= n,
            0 <= i <= n,
            forall|l: int| 0 <= l < i ==> !is_match_at(hay@, pat@, l),
        decreases n - i,
    {
        if match_at(hay, pat, i) {
            return true;
        }
        i += 1;
    }
    proof {
        assert(forall|l: int| is_match_at(hay@, pat@, l) ==> 0 <= l && l + m <= n);
    }
    false
}

} // verus!
