//! Byte-wise lexicographic order on byte strings, and the prefix relation.
//!
//! The order defined here is the one a backend is assumed to iterate in;
//! every interval and scan contract of the crate is stated over it.

use vstd::prelude::*;

verus! {

/// Strict lexicographic order on the suffixes of `a` and `b` starting at
/// position `i`: the shorter string wins a tie, otherwise the first
/// differing byte decides.
pub open spec fn lex_lt_from(a: Seq<u8>, b: Seq<u8>, i: int) -> bool
    decreases b.len() - i,
{
    if i >= b.len() {
        false
    } else if i >= a.len() {
        true
    } else if a[i] < b[i] {
        true
    } else if a[i] > b[i] {
        false
    } else {
        lex_lt_from(a, b, i + 1)
    }
}

/// Strict byte-wise lexicographic order.
pub open spec fn lex_lt(a: Seq<u8>, b: Seq<u8>) -> bool {
    lex_lt_from(a, b, 0)
}

/// Non-strict byte-wise lexicographic order.
pub open spec fn lex_le(a: Seq<u8>, b: Seq<u8>) -> bool {
    lex_lt(a, b) || a == b
}

/// `p` is a prefix of `k`.
pub open spec fn is_prefix(p: Seq<u8>, k: Seq<u8>) -> bool {
    p.len() <= k.len() && k.subrange(0, p.len() as int) == p
}

/// The first position at or after `i` where `a` and `b` disagree, or the
/// length of the shorter string if one exhausts the other first.
pub open spec fn first_mismatch(a: Seq<u8>, b: Seq<u8>, i: int) -> int
    decreases b.len() - i,
{
    if i >= a.len() || i >= b.len() || a[i] != b[i] {
        i
    } else {
        first_mismatch(a, b, i + 1)
    }
}

/// The basic shape of `first_mismatch`: everything before it matches, and
/// it either sits at a genuine disagreement or at the end of a string.
pub proof fn lemma_first_mismatch(a: Seq<u8>, b: Seq<u8>, i: int)
    requires
        0 <= i <= a.len(),
        0 <= i <= b.len(),
    ensures
        i <= first_mismatch(a, b, i),
        first_mismatch(a, b, i) <= a.len(),
        first_mismatch(a, b, i) <= b.len(),
        forall|j: int| i <= j < first_mismatch(a, b, i) ==> a[j] == b[j],
        first_mismatch(a, b, i) < a.len() && first_mismatch(a, b, i) < b.len()
            ==> a[first_mismatch(a, b, i)] != b[first_mismatch(a, b, i)],
    decreases b.len() - i,
{
    if i < a.len() && i < b.len() && a[i] == b[i] {
        lemma_first_mismatch(a, b, i + 1);
    }
}

/// `lex_lt_from` decided at the first mismatch: the suffix of `a` is below
/// the suffix of `b` exactly when the mismatch position favors `a`.
pub proof fn lemma_lex_lt_mismatch(a: Seq<u8>, b: Seq<u8>, i: int)
    requires
        0 <= i <= a.len(),
        0 <= i <= b.len(),
    ensures
        lex_lt_from(a, b, i) <==> {
            let d = first_mismatch(a, b, i);
            if d < a.len() && d < b.len() {
                a[d] < b[d]
            } else {
                a.len() < b.len()
            }
        },
    decreases b.len() - i,
{
    if i < a.len() && i < b.len() && a[i] == b[i] {
        lemma_lex_lt_mismatch(a, b, i + 1);
    }
}

/// A prefix is the same thing as a mismatch only at or past its own end.
pub proof fn lemma_prefix_mismatch(p: Seq<u8>, k: Seq<u8>)
    ensures
        is_prefix(p, k) <==> (p.len() <= k.len() && first_mismatch(p, k, 0) == p.len()),
{
    lemma_first_mismatch(p, k, 0);
    if p.len() <= k.len() && first_mismatch(p, k, 0) == p.len() {
        assert(k.subrange(0, p.len() as int) =~= p);
    }
    if is_prefix(p, k) {
        let d = first_mismatch(p, k, 0);
        assert(forall|j: int| 0 <= j < p.len() ==> k[j] == #[trigger] k.subrange(
            0,
            p.len() as int,
        )[j]);
        if d < p.len() {
            assert(p[d] == k.subrange(0, p.len() as int)[d]);
        }
    }
}

/// A prefix of `k` never exceeds `k` in the lexicographic order.
pub proof fn lemma_prefix_le(p: Seq<u8>, k: Seq<u8>)
    requires
        is_prefix(p, k),
    ensures
        lex_le(p, k),
{
    lemma_prefix_mismatch(p, k);
    lemma_lex_lt_mismatch(p, k, 0);
    if p.len() == k.len() {
        assert(p =~= k);
    }
}

/// The lexicographic order is total: exactly one of `a < b`, `a == b`,
/// `b < a` holds.
pub proof fn lemma_lex_trichotomy(a: Seq<u8>, b: Seq<u8>)
    ensures
        lex_lt(a, b) || a == b || lex_lt(b, a),
        lex_lt(a, b) ==> !(a == b) && !lex_lt(b, a),
        a == b ==> !lex_lt(a, b) && !lex_lt(b, a),
{
    lemma_first_mismatch(a, b, 0);
    lemma_first_mismatch(b, a, 0);
    lemma_lex_lt_mismatch(a, b, 0);
    lemma_lex_lt_mismatch(b, a, 0);
    lemma_mismatch_symmetric(a, b, 0);
    let d = first_mismatch(a, b, 0);
    if d == a.len() && d == b.len() {
        assert(a =~= b);
    }
    if a == b {
        assert(first_mismatch(a, b, 0) == a.len()) by {
            lemma_first_mismatch(a, b, 0);
        }
    }
}

/// `first_mismatch` does not depend on the argument order.
pub proof fn lemma_mismatch_symmetric(a: Seq<u8>, b: Seq<u8>, i: int)
    requires
        0 <= i <= a.len(),
        0 <= i <= b.len(),
    ensures
        first_mismatch(a, b, i) == first_mismatch(b, a, i),
    decreases b.len() - i,
{
    if i < a.len() && i < b.len() && a[i] == b[i] {
        lemma_mismatch_symmetric(a, b, i + 1);
    }
}

/// The prefix relation is transitive.
pub proof fn lemma_prefix_transitive(p: Seq<u8>, q: Seq<u8>, k: Seq<u8>)
    requires
        is_prefix(p, q),
        is_prefix(q, k),
    ensures
        is_prefix(p, k),
{
    assert(forall|i: int| 0 <= i < p.len() ==> q[i] == #[trigger] q.subrange(0, p.len() as int)[i]);
    assert(forall|i: int| 0 <= i < q.len() ==> k[i] == #[trigger] k.subrange(0, q.len() as int)[i]);
    assert(k.subrange(0, p.len() as int) =~= p);
}

/// The lexicographic order is transitive.
pub proof fn lemma_lex_lt_transitive(a: Seq<u8>, b: Seq<u8>, c: Seq<u8>)
    requires
        lex_lt(a, b),
        lex_lt(b, c),
    ensures
        lex_lt(a, c),
{
    lemma_first_mismatch(a, b, 0);
    lemma_first_mismatch(b, c, 0);
    lemma_first_mismatch(a, c, 0);
    lemma_lex_lt_mismatch(a, b, 0);
    lemma_lex_lt_mismatch(b, c, 0);
    lemma_lex_lt_mismatch(a, c, 0);
    let dab = first_mismatch(a, b, 0);
    let dbc = first_mismatch(b, c, 0);
    let dac = first_mismatch(a, c, 0);
    assert(forall|j: int| 0 <= j < dab ==> a[j] == b[j]);
    assert(forall|j: int| 0 <= j < dbc ==> b[j] == c[j]);
    if dac < dab && dac < dbc {
        assert(a[dac] == b[dac] && b[dac] == c[dac]);
    }
}

/// Decide the order of two byte strings.
///
/// Returns `-1`, `0` or `1` as `a` is below, equal to, or above `b`.
pub fn cmp_bytes(a: &[u8], b: &[u8]) -> (r: i8)
    ensures
        r == -1 <==> lex_lt(a@, b@),
        r == 0 <==> a@ == b@,
        r == 1 <==> lex_lt(b@, a@),
{
    proof {
        lemma_lex_trichotomy(a@, b@);
        lemma_first_mismatch(a@, b@, 0);
    }
    let mut i: usize = 0;
    let a_len: usize = a.len();
    let b_len: usize = b.len();
    while i < a_len && i < b_len
        invariant
            0 <= i <= a_len,
            0 <= i <= b_len,
            a_len == a@.len(),
            b_len == b@.len(),
            forall|j: int| 0 <= j < i ==> a@[j] == b@[j],
            first_mismatch(a@, b@, 0) >= i,
        decreases a_len - i,
    {
        let x = a[i];
        let y = b[i];
        if x < y {
            proof {
                lemma_first_mismatch(a@, b@, 0);
                lemma_lex_lt_mismatch(a@, b@, 0);
                lemma_lex_trichotomy(a@, b@);
            }
            return -1;
        }
        if x > y {
            proof {
                lemma_first_mismatch(a@, b@, 0);
                lemma_lex_lt_mismatch(a@, b@, 0);
                lemma_lex_trichotomy(a@, b@);
            }
            return 1;
        }
        i = i + 1;
        proof {
            lemma_mismatch_step(a@, b@, i as int);
        }
    }
    proof {
        lemma_first_mismatch(a@, b@, 0);
        lemma_lex_lt_mismatch(a@, b@, 0);
        lemma_lex_trichotomy(a@, b@);
        if a@.len() == b@.len() {
            assert(a@ =~= b@);
        }
    }
    if a_len < b_len {
        -1
    } else if a_len > b_len {
        1
    } else {
        0
    }
}

/// If the first `i` bytes agree, the first mismatch lies at or past `i`.
proof fn lemma_mismatch_step(a: Seq<u8>, b: Seq<u8>, i: int)
    requires
        0 <= i <= a.len(),
        0 <= i <= b.len(),
        forall|j: int| 0 <= j < i ==> a[j] == b[j],
    ensures
        first_mismatch(a, b, 0) >= i,
{
    lemma_first_mismatch(a, b, 0);
    let d = first_mismatch(a, b, 0);
    if d < i {
        assert(a[d] == b[d]);
        if d < a.len() && d < b.len() {
            assert(false);
        }
    }
}

/// Decide whether `p` is a prefix of `k`.
pub fn starts_with(k: &[u8], p: &[u8]) -> (r: bool)
    ensures
        r == is_prefix(p@, k@),
{
    proof {
        lemma_prefix_mismatch(p@, k@);
        lemma_first_mismatch(p@, k@, 0);
    }
    if p.len() > k.len() {
        return false;
    }
    let mut i: usize = 0;
    let p_len: usize = p.len();
    while i < p_len
        invariant
            0 <= i <= p_len,
            p_len == p@.len(),
            p@.len() <= k@.len(),
            forall|j: int| 0 <= j < i ==> p@[j] == k@[j],
            first_mismatch(p@, k@, 0) >= i,
        decreases p_len - i,
    {
        if p[i] != k[i] {
            proof {
                lemma_first_mismatch(p@, k@, 0);
                lemma_prefix_mismatch(p@, k@);
            }
            return false;
        }
        i = i + 1;
        proof {
            lemma_mismatch_step(p@, k@, i as int);
        }
    }
    proof {
        lemma_first_mismatch(p@, k@, 0);
        lemma_prefix_mismatch(p@, k@);
    }
    true
}

} // verus!
