//! Byte-level searching and slicing helpers shared by the substitution
//! engine and the metadata patcher.

use vstd::prelude::*;

verus! {

/// The pattern `pat` occurs in `hay` starting at index `i`.
pub open spec fn match_at(hay: Seq<u8>, pat: Seq<u8>, i: int) -> bool {
    0 <= i && i + pat.len() <= hay.len() && hay.subrange(i, i + pat.len()) == pat
}

/// No occurrence of `pat` starts in `hay` at any index of `[lo, hi)`.
pub open spec fn no_match_in(hay: Seq<u8>, pat: Seq<u8>, lo: int, hi: int) -> bool {
    forall|j: int| lo <= j < hi ==> !match_at(hay, pat, j)
}

/// Whether the bytes of `pat` stand at position `i` of `hay`.
pub fn matches_at(hay: &[u8], pat: &[u8], i: usize) -> (r: bool)
    requires
        i + pat@.len() <= hay@.len(),
    ensures
        r == match_at(hay@, pat@, i as int),
{
    let n = pat.len();
    let hlen = hay.len();
    let mut k: usize = 0;
    while k < n
        invariant
            n == pat@.len(),
            hlen == hay@.len(),
            i + n <= hlen,
            k <= n,
            forall|j: int| 0 <= j < k ==> hay@[i + j] == pat@[j],
        decreases n - k,
    {
        if hay[i + k] != pat[k] {
            assert(hay@.subrange(i as int, i + n) != pat@) by {
                assert(hay@.subrange(i as int, i + n)[k as int] == hay@[i + k]);
            }
            return false;
        }
        k += 1;
    }
    assert(hay@.subrange(i as int, i + n) =~= pat@);
    true
}

/// First index at or after `from` where `pat` occurs in `hay`.
pub fn find_from(hay: &[u8], pat: &[u8], from: usize) -> (r: Option<usize>)
    requires
        pat@.len() > 0,
    ensures
        match r {
            Some(i) => from <= i && match_at(hay@, pat@, i as int) && no_match_in(
                hay@,
                pat@,
                from as int,
                i as int,
            ),
            None => no_match_in(hay@, pat@, from as int, hay@.len() as int + 1),
        },
{
    let n = hay.len();
    let m = pat.len();
    if m > n || from > n - m {
        return None;
    }
    let last = n - m;
    let mut i: usize = from;
    while i <= last
        invariant
            n == hay@.len(),
            m == pat@.len(),
            0 < m,
            last == n - m,
            from <= i <= last + 1,
            no_match_in(hay@, pat@, from as int, i as int),
        decreases last + 1 - i,
    {
        if matches_at(hay, pat, i) {
            return Some(i);
        }
        i += 1;
    }
    None
}

/// The bytes of `s` in `[a, b)`, as a fresh vector.
pub fn sub_to_vec(s: &[u8], a: usize, b: usize) -> (r: Vec<u8>)
    requires
        a <= b <= s@.len(),
    ensures
        r@ == s@.subrange(a as int, b as int),
{
    let mut r: Vec<u8> = Vec::new();
    let mut k: usize = a;
    while k < b
        invariant
            a <= k <= b <= s@.len(),
            r@ =~= s@.subrange(a as int, k as int),
        decreases b - k,
    {
        r.push(s[k]);
        k += 1;
        assert(r@ =~= s@.subrange(a as int, k as int));
    }
    r
}

/// First index of `b` in `s`, or `-1` if `b` does not occur.
pub open spec fn first_idx(s: Seq<u8>, b: u8) -> int
    decreases s.len(),
{
    if s.len() == 0 {
        -1
    } else if s[0] == b {
        0
    } else {
        let r = first_idx(s.subrange(1, s.len() as int), b);
        if r < 0 {
            -1
        } else {
            r + 1
        }
    }
}

pub proof fn lemma_first_idx(s: Seq<u8>, b: u8)
    ensures
        first_idx(s, b) == -1 ==> forall|j: int| 0 <= j < s.len() ==> s[j] != b,
        first_idx(s, b) >= 0 ==> first_idx(s, b) < s.len() && s[first_idx(s, b)] == b && (forall|
            j: int,
        |
            0 <= j < first_idx(s, b) ==> s[j] != b),
    decreases s.len(),
{
    if s.len() == 0 {
    } else if s[0] == b {
    } else {
        let tail = s.subrange(1, s.len() as int);
        lemma_first_idx(tail, b);
        assert(forall|j: int| 1 <= j < s.len() ==> s[j] == tail[j - 1]);
        let r = first_idx(tail, b);
        if r < 0 {
            assert forall|j: int| 0 <= j < s.len() implies s[j] != b by {
                if j >= 1 {
                    assert(tail[j - 1] != b);
                }
            }
        } else {
            assert(first_idx(s, b) == r + 1);
            assert(s[r + 1] == tail[r]);
            assert forall|j: int| 0 <= j < r + 1 implies s[j] != b by {
                if j >= 1 {
                    assert(tail[j - 1] != b);
                }
            }
        }
    }
}

/// `first_idx` is exactly the index found by a left-to-right scan.
pub proof fn lemma_first_idx_is(s: Seq<u8>, b: u8, k: int)
    requires
        0 <= k < s.len(),
        s[k] == b,
        forall|j: int| 0 <= j < k ==> s[j] != b,
    ensures
        first_idx(s, b) == k,
{
    lemma_first_idx(s, b);
    if first_idx(s, b) == -1 {
        assert(false);
    } else {
        let f = first_idx(s, b);
        if f < k {
            assert(s[f] != b);
            assert(false);
        }
        if f > k {
            assert(s[k] != b);
            assert(false);
        }
    }
}

pub proof fn lemma_first_idx_none(s: Seq<u8>, b: u8)
    requires
        forall|j: int| 0 <= j < s.len() ==> s[j] != b,
    ensures
        first_idx(s, b) == -1,
{
    lemma_first_idx(s, b);
    if first_idx(s, b) >= 0 {
        assert(s[first_idx(s, b)] != b);
        assert(false);
    }
}

/// First index of `pat` in `s`, or `-1` if `pat` does not occur.
pub open spec fn sub_idx(s: Seq<u8>, pat: Seq<u8>) -> int
    decreases s.len(),
{
    if s.len() < pat.len() {
        -1
    } else if s.subrange(0, pat.len() as int) == pat {
        0
    } else if s.len() == 0 {
        -1
    } else {
        let r = sub_idx(s.subrange(1, s.len() as int), pat);
        if r < 0 {
            -1
        } else {
            r + 1
        }
    }
}

pub proof fn lemma_sub_idx(s: Seq<u8>, pat: Seq<u8>)
    ensures
        sub_idx(s, pat) == -1 ==> no_match_in(s, pat, 0, s.len() as int + 1),
        sub_idx(s, pat) >= 0 ==> match_at(s, pat, sub_idx(s, pat)) && no_match_in(
            s,
            pat,
            0,
            sub_idx(s, pat),
        ),
    decreases s.len(),
{
    let m = pat.len() as int;
    if s.len() < pat.len() {
        assert forall|j: int| 0 <= j < s.len() + 1 implies !match_at(s, pat, j) by {}
    } else if s.subrange(0, m) == pat {
        assert(match_at(s, pat, 0));
    } else if s.len() == 0 {
    } else {
        let tail = s.subrange(1, s.len() as int);
        lemma_sub_idx(tail, pat);
        assert forall|j: int| 1 <= j <= s.len() && match_at(s, pat, j) implies match_at(
            tail,
            pat,
            j - 1,
        ) by {
            assert(tail.subrange(j - 1, j - 1 + m) =~= s.subrange(j, j + m));
        }
        assert forall|j: int| 1 <= j <= s.len() && match_at(tail, pat, j - 1) implies match_at(
            s,
            pat,
            j,
        ) by {
            assert(tail.subrange(j - 1, j - 1 + m) =~= s.subrange(j, j + m));
        }
        let r = sub_idx(tail, pat);
        if r < 0 {
            assert forall|j: int| 0 <= j < s.len() + 1 implies !match_at(s, pat, j) by {
                if j == 0 {
                    if match_at(s, pat, 0) {
                        assert(s.subrange(0, m) == pat);
                    }
                } else {
                    assert(!match_at(tail, pat, j - 1));
                }
            }
        } else {
            assert(match_at(tail, pat, r));
            assert(match_at(s, pat, r + 1));
            assert forall|j: int| 0 <= j < r + 1 implies !match_at(s, pat, j) by {
                if j == 0 {
                    if match_at(s, pat, 0) {
                        assert(s.subrange(0, m) == pat);
                    }
                } else {
                    assert(!match_at(tail, pat, j - 1));
                }
            }
        }
    }
}

/// `sub_idx` is exactly the index found by a left-to-right scan.
pub proof fn lemma_sub_idx_is(s: Seq<u8>, pat: Seq<u8>, k: int)
    requires
        match_at(s, pat, k),
        no_match_in(s, pat, 0, k),
    ensures
        sub_idx(s, pat) == k,
{
    lemma_sub_idx(s, pat);
    if sub_idx(s, pat) == -1 {
        assert(!match_at(s, pat, k));
        assert(false);
    } else {
        let f = sub_idx(s, pat);
        if f < k {
            assert(!match_at(s, pat, f));
            assert(false);
        }
        if f > k {
            assert(!match_at(s, pat, k));
            assert(false);
        }
    }
}

pub proof fn lemma_sub_idx_none(s: Seq<u8>, pat: Seq<u8>)
    requires
        no_match_in(s, pat, 0, s.len() as int + 1),
    ensures
        sub_idx(s, pat) == -1,
{
    lemma_sub_idx(s, pat);
    if sub_idx(s, pat) >= 0 {
        assert(!match_at(s, pat, sub_idx(s, pat)));
        assert(false);
    }
}

/// Last index of `b` in `s`, or `-1` if `b` does not occur.
pub open spec fn last_idx(s: Seq<u8>, b: u8) -> int
    decreases s.len(),
{
    if s.len() == 0 {
        -1
    } else if s.last() == b {
        s.len() - 1
    } else {
        last_idx(s.drop_last(), b)
    }
}

pub proof fn lemma_last_idx(s: Seq<u8>, b: u8)
    ensures
        -1 <= last_idx(s, b) < s.len(),
        last_idx(s, b) == -1 ==> forall|j: int| 0 <= j < s.len() ==> s[j] != b,
        last_idx(s, b) >= 0 ==> last_idx(s, b) < s.len() && s[last_idx(s, b)] == b && (forall|
            j: int,
        |
            last_idx(s, b) < j < s.len() ==> s[j] != b),
    decreases s.len(),
{
    if s.len() == 0 {
    } else if s.last() == b {
    } else {
        let head = s.drop_last();
        lemma_last_idx(head, b);
        assert(forall|j: int| 0 <= j < head.len() ==> s[j] == head[j]);
        let r = last_idx(head, b);
        if r == -1 {
            assert forall|j: int| 0 <= j < s.len() implies s[j] != b by {
                if j < head.len() {
                    assert(head[j] != b);
                } else {
                    assert(j == s.len() - 1);
                    assert(s[j] == s.last());
                }
            }
        } else {
            assert(s[r] == head[r]);
            assert forall|j: int| r < j < s.len() implies s[j] != b by {
                if j < head.len() {
                    assert(head[j] != b);
                } else {
                    assert(s[j] == s.last());
                }
            }
        }
    }
}

/// `last_idx` is exactly the index found by a right-to-left scan.
pub proof fn lemma_last_idx_is(s: Seq<u8>, b: u8, k: int)
    requires
        0 <= k < s.len(),
        s[k] == b,
        forall|j: int| k < j < s.len() ==> s[j] != b,
    ensures
        last_idx(s, b) == k,
{
    lemma_last_idx(s, b);
    if last_idx(s, b) == -1 {
        assert(s[k] != b);
        assert(false);
    } else {
        let f = last_idx(s, b);
        if f < k {
            assert(s[k] != b);
            assert(false);
        }
        if f > k {
            assert(s[f] != b);
            assert(false);
        }
    }
}

pub proof fn lemma_last_idx_none(s: Seq<u8>, b: u8)
    requires
        forall|j: int| 0 <= j < s.len() ==> s[j] != b,
    ensures
        last_idx(s, b) == -1,
{
    lemma_last_idx(s, b);
    if last_idx(s, b) >= 0 {
        assert(s[last_idx(s, b)] != b);
        assert(false);
    }
}

/// Last index holding byte `b`, by a backward scan.
pub fn find_last_byte(s: &[u8], b: u8) -> (r: Option<usize>)
    ensures
        match r {
            Some(i) => i < s@.len() && s@[i as int] == b && (forall|j: int|
                i < j < s@.len() ==> s@[j] != b) && last_idx(s@, b) == i,
            None => last_idx(s@, b) == -1,
        },
{
    let n = s.len();
    let mut i: usize = n;
    while i > 0
        invariant
            n == s@.len(),
            i <= n,
            forall|j: int| i <= j < n ==> s@[j] != b,
        decreases i,
    {
        i -= 1;
        if s[i] == b {
            proof {
                lemma_last_idx_is(s@, b, i as int);
            }
            return Some(i);
        }
    }
    proof {
        lemma_last_idx_none(s@, b);
    }
    None
}

/// Whether two byte slices hold the same bytes.
pub fn bytes_eq(a: &[u8], b: &[u8]) -> (r: bool)
    ensures
        r == (a@ == b@),
{
    if a.len() != b.len() {
        return false;
    }
    let n = a.len();
    let mut i: usize = 0;
    while i < n
        invariant
            n == a@.len() == b@.len(),
            i <= n,
            forall|j: int| 0 <= j < i ==> a@[j] == b@[j],
        decreases n - i,
    {
        if a[i] != b[i] {
            return false;
        }
        i += 1;
    }
    proof {
        assert(a@ =~= b@);
    }
    true
}

/// First index at or after `from` holding byte `b`.
pub fn find_byte_from(s: &[u8], b: u8, from: usize) -> (r: Option<usize>)
    ensures
        match r {
            Some(i) => from <= i < s@.len() && s@[i as int] == b && (forall|j: int|
                from <= j < i ==> s@[j] != b),
            None => forall|j: int| from <= j < s@.len() ==> s@[j] != b,
        },
{
    let n = s.len();
    let mut i: usize = from;
    while i < n
        invariant
            n == s@.len(),
            from <= i,
            forall|j: int| from <= j < i ==> s@[j] != b,
        decreases n - i,
    {
        if s[i] == b {
            return Some(i);
        }
        i += 1;
    }
    None
}

/// The bytes of `s` as a fresh vector.
pub fn to_vec_bytes(s: &[u8]) -> (r: Vec<u8>)
    ensures
        r@ == s@,
{
    let r = sub_to_vec(s, 0, s.len());
    proof {
        assert(s@.subrange(0, s@.len() as int) =~= s@);
    }
    r
}

/// Appends all of `src` to `dst`.
pub fn append_bytes(dst: &mut Vec<u8>, src: &[u8])
    ensures
        final(dst)@ == old(dst)@ + src@,
{
    let mut k: usize = 0;
    while k < src.len()
        invariant
            k <= src@.len(),
            dst@ =~= old(dst)@ + src@.subrange(0, k as int),
        decreases src@.len() - k,
    {
        dst.push(src[k]);
        k += 1;
        assert(dst@ =~= old(dst)@ + src@.subrange(0, k as int));
    }
    assert(dst@ =~= old(dst)@ + src@);
}

} // verus!
