//! The half-open interval of keys under a prefix.
//!
//! For a prefix `p`, the keys having `p` as a prefix are exactly the keys
//! `k` with `p <= k < upper_bound(p)` in the byte-wise lexicographic
//! order, where the upper bound increments the last incrementable byte of
//! `p`; a prefix of all maximal bytes (or the empty prefix) has no upper
//! bound.  This turns prefix scans and prefix deletes into ordinary range
//! queries on any backend that iterates keys in order.

use vstd::prelude::*;

use crate::ordering::{
    first_mismatch, is_prefix, lemma_first_mismatch, lemma_lex_lt_mismatch, lemma_prefix_le,
    lemma_prefix_mismatch, lex_le, lex_lt,
};

verus! {

/// One end of an interval of byte-string keys.
#[derive(Debug, PartialEq, Eq)]
pub enum Bound {
    /// The endpoint belongs to the interval.
    Included(Vec<u8>),
    /// The endpoint does not belong to the interval.
    Excluded(Vec<u8>),
    /// The interval does not stop at this end.
    Unbounded,
}

/// The greatest position below `i` holding a byte below the maximum, or
/// `-1` if every byte below `i` is maximal.
pub open spec fn last_low(p: Seq<u8>, i: int) -> int
    decreases i,
{
    if i <= 0 {
        -1
    } else if p[i - 1] < 255 {
        i - 1
    } else {
        last_low(p, i - 1)
    }
}

/// The exclusive upper bound of the keys under prefix `p`, or `None` when
/// every extension of `p` must be admitted.
pub open spec fn upper_bound_of(p: Seq<u8>) -> Option<Seq<u8>> {
    let j = last_low(p, p.len() as int);
    if j < 0 {
        None
    } else {
        Some(p.subrange(0, j + 1).update(j, (p[j] + 1) as u8))
    }
}

/// `k` lies below the upper bound of prefix `p`.
pub open spec fn below_upper(p: Seq<u8>, k: Seq<u8>) -> bool {
    match upper_bound_of(p) {
        None => true,
        Some(u) => lex_lt(k, u),
    }
}

/// `k` lies in the half-open interval of the keys under prefix `p`.
pub open spec fn in_interval(p: Seq<u8>, k: Seq<u8>) -> bool {
    lex_le(p, k) && below_upper(p, k)
}

/// Where `last_low` points: a non-maximal byte followed only by maximal
/// ones, or nothing but maximal bytes at all.
proof fn lemma_last_low(p: Seq<u8>, i: int)
    requires
        0 <= i <= p.len(),
    ensures
        -1 <= last_low(p, i) < i,
        last_low(p, i) >= 0 ==> p[last_low(p, i)] < 255,
        forall|x: int| last_low(p, i) < x < i ==> p[x] == 255,
    decreases i,
{
    if i > 0 && p[i - 1] >= 255 {
        lemma_last_low(p, i - 1);
    }
}

/// Two strings that agree strictly below `d` and disagree in `a`'s favor
/// at `d` stand in the strict lexicographic order.
proof fn lemma_lt_by_agreement(a: Seq<u8>, b: Seq<u8>, d: int)
    requires
        0 <= d < a.len(),
        d < b.len(),
        forall|x: int| 0 <= x < d ==> a[x] == b[x],
        a[d] < b[d],
    ensures
        lex_lt(a, b),
{
    lemma_first_mismatch(a, b, 0);
    lemma_lex_lt_mismatch(a, b, 0);
    let dm = first_mismatch(a, b, 0);
    if dm < d {
        assert(a[dm] != b[dm]);
    }
}

/// `k` starts with `p` exactly when `k` lies in `[p, upper_bound(p))`:
/// the interval is neither too narrow nor too wide for the prefix.
pub proof fn lemma_prefix_interval(p: Seq<u8>, k: Seq<u8>)
    ensures
        is_prefix(p, k) <==> in_interval(p, k),
{
    let n = p.len() as int;
    lemma_last_low(p, n);
    let j = last_low(p, n);
    if is_prefix(p, k) {
        lemma_prefix_le(p, k);
        if j >= 0 {
            let u = p.subrange(0, j + 1).update(j, (p[j] + 1) as u8);
            assert(forall|x: int| 0 <= x < n ==> k[x] == #[trigger] k.subrange(0, n)[x]);
            assert(forall|x: int| 0 <= x < j ==> u[x] == p[x]);
            lemma_lt_by_agreement(k, u, j);
        }
    }
    if !is_prefix(p, k) && lex_le(p, k) {
        lemma_prefix_mismatch(p, k);
        lemma_first_mismatch(p, k, 0);
        lemma_lex_lt_mismatch(p, k, 0);
        let d = first_mismatch(p, k, 0);
        if p == k {
            assert(is_prefix(p, k));
        }
        assert(lex_lt(p, k));
        assert(d < n && d < k.len() && p[d] < k[d]);
        assert(j >= d);
        let u = p.subrange(0, j + 1).update(j, (p[j] + 1) as u8);
        assert(forall|x: int| 0 <= x < j ==> u[x] == p[x]);
        if j > d {
            lemma_lt_by_agreement(u, k, d);
            crate::ordering::lemma_lex_trichotomy(u, k);
        } else {
            assert(j == d);
            if p[d] + 1 < k[d] {
                lemma_lt_by_agreement(u, k, d);
                crate::ordering::lemma_lex_trichotomy(u, k);
            } else {
                assert(u[d] == k[d]);
                assert(is_prefix(u, k)) by {
                    assert(k.subrange(0, j + 1) =~= u);
                }
                lemma_prefix_le(u, k);
                crate::ordering::lemma_lex_trichotomy(u, k);
            }
        }
    }
}

/// Compute the exclusive upper bound of the keys under `key_prefix`.
///
/// Scans from the last byte for the first byte below the maximum,
/// increments it and truncates the rest; a prefix of maximal bytes only
/// has no finite upper bound.
pub fn get_upper_bound(key_prefix: &[u8]) -> (r: Bound)
    ensures
        match r {
            Bound::Excluded(u) => upper_bound_of(key_prefix@) == Some(u@),
            Bound::Unbounded => upper_bound_of(key_prefix@) is None,
            Bound::Included(_) => false,
        },
{
    let len: usize = key_prefix.len();
    let mut i: usize = len;
    while i > 0
        invariant
            0 <= i <= len,
            len == key_prefix@.len(),
            last_low(key_prefix@, len as int) == last_low(key_prefix@, i as int),
        decreases i,
    {
        let val = key_prefix[i - 1];
        if val < 255 {
            let mut upper: Vec<u8> = Vec::new();
            let mut j: usize = 0;
            while j < i - 1
                invariant
                    0 <= j <= i - 1,
                    0 < i <= len,
                    len == key_prefix@.len(),
                    upper@ == key_prefix@.subrange(0, j as int),
                decreases i - 1 - j,
            {
                let b = key_prefix[j];
                upper.push(b);
                proof {
                    assert(upper@ =~= key_prefix@.subrange(0, j + 1));
                }
                j = j + 1;
            }
            upper.push(val + 1);
            proof {
                let p = key_prefix@;
                assert(last_low(p, i as int) == i - 1);
                assert(upper@ =~= p.subrange(0, i as int).update(i - 1, (p[i - 1] + 1) as u8));
            }
            return Bound::Excluded(upper);
        }
        i = i - 1;
    }
    Bound::Unbounded
}

/// The half-open interval `[key_prefix, upper_bound(key_prefix))` that
/// contains exactly the keys under `key_prefix`.
pub fn get_interval(key_prefix: Vec<u8>) -> (r: (Bound, Bound))
    ensures
        (r.0 matches Bound::Included(l) && l@ == key_prefix@),
        match r.1 {
            Bound::Excluded(u) => upper_bound_of(key_prefix@) == Some(u@),
            Bound::Unbounded => upper_bound_of(key_prefix@) is None,
            Bound::Included(_) => false,
        },
{
    let upper = get_upper_bound(key_prefix.as_slice());
    (Bound::Included(key_prefix), upper)
}

} // verus!
