//! Byte-level substring search.
//!
//! Text in this crate is searched as its UTF-8 bytes: a pattern that begins
//! with an ASCII byte can only match where a character begins, so a byte
//! offset found here is the offset that `str::find` / `str::rfind` report.
use vstd::prelude::*;

verus! {

/// `pat` occurs in `hay` starting at byte `i`.
pub open spec fn matches_at(hay: Seq<u8>, pat: Seq<u8>, i: int) -> bool {
    0 <= i && i + pat.len() <= hay.len() && hay.subrange(i, i + pat.len()) == pat
}

/// `pat` occurs somewhere in `hay`.
pub open spec fn occurs_in(hay: Seq<u8>, pat: Seq<u8>) -> bool {
    exists|i: int| matches_at(hay, pat, i)
}

/// The first position at or after `i` where `pat` occurs in `hay`.
pub open spec fn first_match_from(hay: Seq<u8>, pat: Seq<u8>, i: int) -> Option<int>
    decreases hay.len() + 1 - i,
{
    if i < 0 || hay.len() < i + pat.len() {
        None
    } else if matches_at(hay, pat, i) {
        Some(i)
    } else {
        first_match_from(hay, pat, i + 1)
    }
}

/// The last position at or before `i` where `pat` occurs in `hay`.
pub open spec fn last_match_upto(hay: Seq<u8>, pat: Seq<u8>, i: int) -> Option<int>
    decreases i + 1,
{
    if i < 0 {
        None
    } else if matches_at(hay, pat, i) {
        Some(i)
    } else {
        last_match_upto(hay, pat, i - 1)
    }
}

/// The position of the first occurrence of `pat` in `hay` (what `str::find` reports).
pub open spec fn first_match(hay: Seq<u8>, pat: Seq<u8>) -> Option<int> {
    first_match_from(hay, pat, 0)
}

/// The position of the last occurrence of `pat` in `hay` (what `str::rfind` reports).
pub open spec fn last_match(hay: Seq<u8>, pat: Seq<u8>) -> Option<int> {
    last_match_upto(hay, pat, hay.len() - pat.len())
}

/// What `first_match_from` means: the least matching position at or after `i`.
pub proof fn lemma_first_match_from(hay: Seq<u8>, pat: Seq<u8>, i: int)
    requires
        0 <= i,
    ensures
        match first_match_from(hay, pat, i) {
            Some(k) => i <= k && matches_at(hay, pat, k) && forall|j: int|
                i <= j < k ==> !#[trigger] matches_at(hay, pat, j),
            None => forall|j: int| i <= j ==> !#[trigger] matches_at(hay, pat, j),
        },
    decreases hay.len() + 1 - i,
{
    if hay.len() < i + pat.len() {
    } else if matches_at(hay, pat, i) {
    } else {
        lemma_first_match_from(hay, pat, i + 1);
    }
}

/// What `last_match_upto` means: the greatest matching position at or before `i`.
pub proof fn lemma_last_match_upto(hay: Seq<u8>, pat: Seq<u8>, i: int)
    ensures
        match last_match_upto(hay, pat, i) {
            Some(k) => 0 <= k <= i && matches_at(hay, pat, k) && forall|j: int|
                k < j <= i ==> !#[trigger] matches_at(hay, pat, j),
            None => forall|j: int| j <= i ==> !#[trigger] matches_at(hay, pat, j),
        },
    decreases i + 1,
{
    if i < 0 {
    } else if matches_at(hay, pat, i) {
    } else {
        lemma_last_match_upto(hay, pat, i - 1);
    }
}

/// The first occurrence is the least matching position, and there is none
/// exactly when the pattern does not occur.
pub proof fn lemma_first_match(hay: Seq<u8>, pat: Seq<u8>)
    ensures
        match first_match(hay, pat) {
            Some(k) => matches_at(hay, pat, k) && forall|j: int|
                j < k ==> !#[trigger] matches_at(hay, pat, j),
            None => !occurs_in(hay, pat),
        },
        first_match(hay, pat) is Some <==> occurs_in(hay, pat),
{
    lemma_first_match_from(hay, pat, 0);
}

/// The last occurrence is the greatest matching position, and there is none
/// exactly when the pattern does not occur.
pub proof fn lemma_last_match(hay: Seq<u8>, pat: Seq<u8>)
    ensures
        match last_match(hay, pat) {
            Some(k) => matches_at(hay, pat, k) && forall|j: int|
                k < j ==> !#[trigger] matches_at(hay, pat, j),
            None => !occurs_in(hay, pat),
        },
        last_match(hay, pat) is Some <==> occurs_in(hay, pat),
{
    lemma_last_match_upto(hay, pat, hay.len() - pat.len());
}

/// Where a pattern occurs at one position only, that position is both its
/// first and its last occurrence.
pub proof fn lemma_only_match(hay: Seq<u8>, pat: Seq<u8>, k: int)
    requires
        matches_at(hay, pat, k),
        forall|j: int| #[trigger] matches_at(hay, pat, j) ==> j == k,
    ensures
        first_match(hay, pat) == Some(k),
        last_match(hay, pat) == Some(k),
{
    lemma_first_match(hay, pat);
    lemma_last_match(hay, pat);
}

/// Whether `pat` occurs in `hay` at byte `i`.
fn matches_at_exec(hay: &[u8], pat: &[u8], i: usize) -> (res: bool)
    requires
        i + pat@.len() <= hay@.len(),
    ensures
        res == matches_at(hay@, pat@, i as int),
{
    let m = pat.len();
    let n = hay.len();
    let mut k: usize = 0;
    while k < m
        invariant
            m == pat@.len(),
            n == hay@.len(),
            k <= m,
            i + m <= hay@.len(),
            forall|j: int| 0 <= j < k ==> hay@[i + j] == pat@[j],
        decreases m - k,
    {
        if hay[i + k] != pat[k] {
            assert(hay@.subrange(i as int, i + m)[k as int] != pat@[k as int]);
            return false;
        }
        k = k + 1;
    }
    assert(hay@.subrange(i as int, i + m) =~= pat@);
    true
}

/// The byte position of the first occurrence of `pat` in `hay`.
pub fn find_bytes(hay: &[u8], pat: &[u8]) -> (res: Option<usize>)
    ensures
        match res {
            Some(k) => first_match(hay@, pat@) == Some(k as int),
            None => first_match(hay@, pat@) is None,
        },
{
    let n = hay.len();
    let m = pat.len();
    if m > n {
        return None;
    }
    if m == 0 {
        assert(matches_at(hay@, pat@, 0)) by {
            assert(hay@.subrange(0, 0) =~= pat@);
        }
        return Some(0);
    }
    let mut i: usize = 0;
    while i <= n - m
        invariant
            n == hay@.len(),
            m == pat@.len(),
            1 <= m <= n,
            i <= n - m + 1,
            first_match(hay@, pat@) == first_match_from(hay@, pat@, i as int),
        decreases n - m + 1 - i,
    {
        if matches_at_exec(hay, pat, i) {
            return Some(i);
        }
        i = i + 1;
    }
    None
}

/// The byte position of the last occurrence of `pat` in `hay`.
pub fn rfind_bytes(hay: &[u8], pat: &[u8]) -> (res: Option<usize>)
    ensures
        match res {
            Some(k) => last_match(hay@, pat@) == Some(k as int),
            None => last_match(hay@, pat@) is None,
        },
{
    let n = hay.len();
    let m = pat.len();
    if m > n {
        return None;
    }
    if m == 0 {
        assert(matches_at(hay@, pat@, n as int)) by {
            assert(hay@.subrange(n as int, n as int) =~= pat@);
        }
        return Some(n);
    }
    // `k` is one past the next candidate position.
    let mut k: usize = n - m + 1;
    while k > 0
        invariant
            n == hay@.len(),
            m == pat@.len(),
            m <= n,
            k <= n - m + 1,
            last_match(hay@, pat@) == last_match_upto(hay@, pat@, k - 1),
        decreases k,
    {
        if matches_at_exec(hay, pat, k - 1) {
            return Some(k - 1);
        }
        k = k - 1;
    }
    None
}

/// Whether `pat` occurs anywhere in `hay`.
pub fn contains_bytes(hay: &[u8], pat: &[u8]) -> (res: bool)
    ensures
        res == occurs_in(hay@, pat@),
{
    proof {
        lemma_first_match(hay@, pat@);
    }
    find_bytes(hay, pat).is_some()
}

} // verus!
