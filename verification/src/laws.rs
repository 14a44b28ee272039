//! The algebra of simplified batches.
//!
//! A canonical batch refolds to the pending state it was rendered from,
//! the canonical rendering of a pending state is unique, and applying a
//! canonical batch to an empty store leaves exactly its `Put` entries.
//! Together these give the laws a caller relies on: simplification is
//! idempotent, prefix deletes always come first, and a write followed by
//! a prefix scan returns exactly the surviving keys.

use vstd::prelude::*;

use crate::batch::{
    canonical_wrt, is_entry_op, lemma_lt_ne, matches_state, op_key, pending_entries,
    pending_prefixes, prefix_set, simplified_form, Op,
};
use crate::ordering::{is_prefix, lemma_lex_trichotomy, lemma_prefix_le, lex_lt};

verus! {

/// The operation that renders the pending effect of a key.
pub open spec fn entry_op_of(k: Seq<u8>, v: Option<Seq<u8>>) -> Op {
    match v {
        None => Op::Delete { key: k },
        Some(value) => Op::Put { key: k, value },
    }
}

/// Peeling the last point operation off a canonical batch: it carries
/// the greatest pending key, and the rest is canonical for the state
/// without that key.
proof fn lemma_peel_entry(r: Seq<Op>, m: Map<Seq<u8>, Option<Seq<u8>>>, s: Set<Seq<u8>>)
    requires
        canonical_wrt(r, m, s),
        r.len() > 0,
        is_entry_op(r.last()),
    ensures
        m.contains_key(op_key(r.last())),
        r.last() == entry_op_of(op_key(r.last()), m[op_key(r.last())]),
        forall|k: Seq<u8>|
            #[trigger] m.contains_key(k) ==> k == op_key(r.last()) || lex_lt(k, op_key(r.last())),
        canonical_wrt(r.drop_last(), m.remove(op_key(r.last())), s),
{
    let n = r.len() - 1;
    let k0 = op_key(r.last());
    assert(matches_state(r[n], m, s));
    assert forall|k: Seq<u8>| #[trigger] m.contains_key(k) implies k == k0 || lex_lt(k, k0) by {
        let i = choose|i: int| 0 <= i < r.len() && is_entry_op(#[trigger] r[i]) && op_key(r[i]) == k;
        if i < n {
            assert(lex_lt(op_key(r[i]), op_key(r[n])));
        }
    }
    let r2 = r.drop_last();
    let m2 = m.remove(k0);
    assert forall|i: int| 0 <= i < r2.len() implies matches_state(#[trigger] r2[i], m2, s) by {
        assert(r2[i] == r[i]);
        assert(matches_state(r[i], m, s));
        if is_entry_op(r[i]) {
            assert(lex_lt(op_key(r[i]), op_key(r[n])));
            lemma_lt_ne(op_key(r[i]), k0);
        }
    }
    assert forall|q: Seq<u8>| #[trigger] s.contains(q) implies exists|i: int|
        0 <= i < r2.len() && #[trigger] r2[i] == (Op::DeletePrefix { key_prefix: q }) by {
        let i = choose|i: int|
            0 <= i < r.len() && #[trigger] r[i] == (Op::DeletePrefix { key_prefix: q });
        assert(i < n);
        assert(r2[i] == (Op::DeletePrefix { key_prefix: q }));
    }
    assert forall|k: Seq<u8>| #[trigger] m2.contains_key(k) implies exists|i: int|
        0 <= i < r2.len() && is_entry_op(#[trigger] r2[i]) && op_key(r2[i]) == k by {
        let i = choose|i: int| 0 <= i < r.len() && is_entry_op(#[trigger] r[i]) && op_key(r[i]) == k;
        assert(i < n);
        assert(is_entry_op(r2[i]) && op_key(r2[i]) == k);
    }
    assert forall|i: int, j: int|
        0 <= i < j < r2.len() && (r2[i] is DeletePrefix <==> r2[j] is DeletePrefix) implies lex_lt(
        op_key(#[trigger] r2[i]),
        op_key(#[trigger] r2[j]),
    ) by {
        assert(lex_lt(op_key(r[i]), op_key(r[j])));
    }
}

/// Peeling the last prefix delete off a canonical batch: the batch holds
/// prefix deletes only, the pending point effects are empty, the peeled
/// prefix is the greatest pending one, and the rest is canonical for the
/// state without it.
proof fn lemma_peel_prefix(r: Seq<Op>, m: Map<Seq<u8>, Option<Seq<u8>>>, s: Set<Seq<u8>>)
    requires
        canonical_wrt(r, m, s),
        r.len() > 0,
        !is_entry_op(r.last()),
    ensures
        s.contains(op_key(r.last())),
        r.last() == (Op::DeletePrefix { key_prefix: op_key(r.last()) }),
        forall|i: int| 0 <= i < r.len() ==> (#[trigger] r[i]) is DeletePrefix,
        forall|k: Seq<u8>| !(#[trigger] m.contains_key(k)),
        forall|q: Seq<u8>|
            #[trigger] s.contains(q) ==> q == op_key(r.last()) || lex_lt(q, op_key(r.last())),
        canonical_wrt(r.drop_last(), m, s.remove(op_key(r.last()))),
{
    let n = r.len() - 1;
    let p0 = op_key(r.last());
    assert(matches_state(r[n], m, s));
    assert forall|i: int| 0 <= i < r.len() implies (#[trigger] r[i]) is DeletePrefix by {
        if i < n {
            assert(r[n] is DeletePrefix);
        }
    }
    assert forall|k: Seq<u8>| !(#[trigger] m.contains_key(k)) by {
        if m.contains_key(k) {
            let i = choose|i: int|
                0 <= i < r.len() && is_entry_op(#[trigger] r[i]) && op_key(r[i]) == k;
            assert(r[i] is DeletePrefix);
        }
    }
    assert forall|q: Seq<u8>| #[trigger] s.contains(q) implies q == p0 || lex_lt(q, p0) by {
        let i = choose|i: int|
            0 <= i < r.len() && #[trigger] r[i] == (Op::DeletePrefix { key_prefix: q });
        if i < n {
            assert(lex_lt(op_key(r[i]), op_key(r[n])));
        }
    }
    let r2 = r.drop_last();
    let s2 = s.remove(p0);
    assert forall|i: int| 0 <= i < r2.len() implies matches_state(#[trigger] r2[i], m, s2) by {
        assert(r2[i] == r[i]);
        assert(matches_state(r[i], m, s));
        assert(lex_lt(op_key(r[i]), op_key(r[n])));
        lemma_lt_ne(op_key(r[i]), p0);
    }
    assert forall|q: Seq<u8>| #[trigger] s2.contains(q) implies exists|i: int|
        0 <= i < r2.len() && #[trigger] r2[i] == (Op::DeletePrefix { key_prefix: q }) by {
        let i = choose|i: int|
            0 <= i < r.len() && #[trigger] r[i] == (Op::DeletePrefix { key_prefix: q });
        assert(i < n);
        assert(r2[i] == (Op::DeletePrefix { key_prefix: q }));
    }
    assert forall|i: int, j: int|
        0 <= i < j < r2.len() && (r2[i] is DeletePrefix <==> r2[j] is DeletePrefix) implies lex_lt(
        op_key(#[trigger] r2[i]),
        op_key(#[trigger] r2[j]),
    ) by {
        assert(lex_lt(op_key(r[i]), op_key(r[j])));
    }
}

/// A canonical batch folds back to the pending state it renders: its own
/// pending point effects are `m` and its pending prefix deletes are `s`.
pub proof fn lemma_refold(r: Seq<Op>, m: Map<Seq<u8>, Option<Seq<u8>>>, s: Set<Seq<u8>>)
    requires
        canonical_wrt(r, m, s),
    ensures
        pending_entries(r) == m,
        pending_prefixes(r) == s,
    decreases r.len(),
{
    if r.len() == 0 {
        assert forall|k: Seq<u8>| !(#[trigger] m.contains_key(k)) by {
            if m.contains_key(k) {
                let i = choose|i: int|
                    0 <= i < r.len() && is_entry_op(#[trigger] r[i]) && op_key(r[i]) == k;
            }
        }
        assert forall|q: Seq<u8>| !(#[trigger] s.contains(q)) by {
            if s.contains(q) {
                let i = choose|i: int|
                    0 <= i < r.len() && #[trigger] r[i] == (Op::DeletePrefix { key_prefix: q });
            }
        }
        assert(pending_entries(r) =~= m);
        assert(pending_prefixes(r) =~= s);
    } else if is_entry_op(r.last()) {
        lemma_peel_entry(r, m, s);
        let k0 = op_key(r.last());
        lemma_refold(r.drop_last(), m.remove(k0), s);
        assert(pending_entries(r) =~= m);
        assert(pending_prefixes(r) == s);
    } else {
        lemma_peel_prefix(r, m, s);
        let p0 = op_key(r.last());
        lemma_refold(r.drop_last(), m, s.remove(p0));
        assert(pending_entries(r) =~= m);
        assert forall|q: Seq<u8>| #[trigger] s.contains(q) && q != p0 implies !is_prefix(p0, q) by {
            if is_prefix(p0, q) {
                lemma_prefix_le(p0, q);
                assert(lex_lt(q, p0));
                lemma_lex_trichotomy(p0, q);
            }
        }
        assert(pending_prefixes(r) =~= s);
    }
}

/// A pending state has at most one canonical rendering.
pub proof fn lemma_canonical_unique(
    r1: Seq<Op>,
    r2: Seq<Op>,
    m: Map<Seq<u8>, Option<Seq<u8>>>,
    s: Set<Seq<u8>>,
)
    requires
        canonical_wrt(r1, m, s),
        canonical_wrt(r2, m, s),
    ensures
        r1 == r2,
    decreases r1.len(),
{
    if r1.len() == 0 && r2.len() == 0 {
        assert(r1 =~= r2);
    } else if r1.len() == 0 {
        if is_entry_op(r2.last()) {
            lemma_peel_entry(r2, m, s);
            let i = choose|i: int|
                0 <= i < r1.len() && is_entry_op(#[trigger] r1[i]) && op_key(r1[i]) == op_key(
                    r2.last(),
                );
            assert(false);
        } else {
            lemma_peel_prefix(r2, m, s);
            let i = choose|i: int|
                0 <= i < r1.len() && #[trigger] r1[i] == (Op::DeletePrefix {
                    key_prefix: op_key(r2.last()),
                });
            assert(false);
        }
    } else if r2.len() == 0 {
        lemma_canonical_unique(r2, r1, m, s);
    } else if is_entry_op(r1.last()) {
        lemma_peel_entry(r1, m, s);
        if !is_entry_op(r2.last()) {
            lemma_peel_prefix(r2, m, s);
            assert(false);
        }
        lemma_peel_entry(r2, m, s);
        let k1 = op_key(r1.last());
        let k2 = op_key(r2.last());
        lemma_lex_trichotomy(k1, k2);
        assert(k1 == k2);
        lemma_canonical_unique(r1.drop_last(), r2.drop_last(), m.remove(k1), s);
        assert(r1.last() == r2.last());
        assert(r1.drop_last().len() == r1.len() - 1);
        assert(r2.drop_last().len() == r2.len() - 1);
        assert(r1.len() == r2.len());
        assert forall|i: int| 0 <= i < r1.len() implies r1[i] == r2[i] by {
            if i < r1.len() - 1 {
                assert(r1[i] == r1.drop_last()[i]);
                assert(r2[i] == r2.drop_last()[i]);
            }
        }
        assert(r1 =~= r2);
    } else {
        if is_entry_op(r2.last()) {
            lemma_peel_entry(r2, m, s);
            lemma_peel_prefix(r1, m, s);
            assert(false);
        }
        lemma_peel_prefix(r1, m, s);
        lemma_peel_prefix(r2, m, s);
        let p1 = op_key(r1.last());
        let p2 = op_key(r2.last());
        lemma_lex_trichotomy(p1, p2);
        assert(p1 == p2);
        lemma_canonical_unique(r1.drop_last(), r2.drop_last(), m, s.remove(p1));
        assert(r1.last() == r2.last());
        assert(r1.drop_last().len() == r1.len() - 1);
        assert(r2.drop_last().len() == r2.len() - 1);
        assert(r1.len() == r2.len());
        assert forall|i: int| 0 <= i < r1.len() implies r1[i] == r2[i] by {
            if i < r1.len() - 1 {
                assert(r1[i] == r1.drop_last()[i]);
                assert(r2[i] == r2.drop_last()[i]);
            }
        }
        assert(r1 =~= r2);
    }
}

/// Simplification is idempotent: simplifying an already simplified batch
/// returns exactly the same operation sequence.
pub proof fn lemma_simplify_idempotent(ops: Seq<Op>, once: Seq<Op>, twice: Seq<Op>)
    requires
        simplified_form(ops, once),
        simplified_form(once, twice),
    ensures
        twice == once,
{
    let m = pending_entries(ops);
    let s = pending_prefixes(ops);
    lemma_refold(once, m, s);
    lemma_canonical_unique(twice, once, m, s);
}

/// In a simplified batch, every prefix delete precedes every point
/// operation.
pub proof fn lemma_prefix_deletes_first(ops: Seq<Op>, r: Seq<Op>, i: int, j: int)
    requires
        simplified_form(ops, r),
        0 <= i < j < r.len(),
        r[j] is DeletePrefix,
    ensures
        r[i] is DeletePrefix,
{
}

/// The store after one more operation: a put writes its key, a delete
/// drops its key, a prefix delete drops every key under its prefix.
pub open spec fn apply_op(st: Map<Seq<u8>, Seq<u8>>, op: Op) -> Map<Seq<u8>, Seq<u8>> {
    match op {
        Op::Delete { key } => st.remove(key),
        Op::Put { key, value } => st.insert(key, value),
        Op::DeletePrefix { key_prefix } => st.remove_keys(prefix_set(key_prefix)),
    }
}

/// The store after a whole sequence of operations, applied in order.
pub open spec fn apply_ops(st: Map<Seq<u8>, Seq<u8>>, ops: Seq<Op>) -> Map<Seq<u8>, Seq<u8>>
    decreases ops.len(),
{
    if ops.len() == 0 {
        st
    } else {
        apply_op(apply_ops(st, ops.drop_last()), ops.last())
    }
}

/// The keys whose pending effect is a write, each with its value.
pub open spec fn put_image(m: Map<Seq<u8>, Option<Seq<u8>>>) -> Map<Seq<u8>, Seq<u8>> {
    Map::new(|k: Seq<u8>| m.contains_key(k) && m[k] is Some, |k: Seq<u8>| m[k]->0)
}

/// Applying a canonical batch to the empty store leaves exactly the keys
/// whose pending effect is a write.
proof fn lemma_apply_canonical(r: Seq<Op>, m: Map<Seq<u8>, Option<Seq<u8>>>, s: Set<Seq<u8>>)
    requires
        canonical_wrt(r, m, s),
    ensures
        apply_ops(Map::empty(), r) == put_image(m),
    decreases r.len(),
{
    if r.len() == 0 {
        assert forall|k: Seq<u8>| !(#[trigger] m.contains_key(k)) by {
            if m.contains_key(k) {
                let i = choose|i: int|
                    0 <= i < r.len() && is_entry_op(#[trigger] r[i]) && op_key(r[i]) == k;
            }
        }
        assert(apply_ops(Map::empty(), r) =~= put_image(m));
    } else if is_entry_op(r.last()) {
        lemma_peel_entry(r, m, s);
        let k0 = op_key(r.last());
        lemma_apply_canonical(r.drop_last(), m.remove(k0), s);
        assert(apply_ops(Map::empty(), r) =~= put_image(m));
    } else {
        lemma_peel_prefix(r, m, s);
        let p0 = op_key(r.last());
        lemma_apply_canonical(r.drop_last(), m, s.remove(p0));
        assert(apply_ops(Map::empty(), r) =~= put_image(m));
    }
}

/// A key some pending prefix delete contains.
pub open spec fn covered(s: Set<Seq<u8>>, k: Seq<u8>) -> bool {
    exists|p: Seq<u8>| #[trigger] s.contains(p) && is_prefix(p, k)
}

/// The store that results from laying a pending state over a prior
/// store: pending writes win, pending deletes and covered keys are
/// gone, and every other key keeps its prior value.
pub open spec fn merge_pending(
    st: Map<Seq<u8>, Seq<u8>>,
    m: Map<Seq<u8>, Option<Seq<u8>>>,
    s: Set<Seq<u8>>,
) -> Map<Seq<u8>, Seq<u8>> {
    Map::new(
        |k: Seq<u8>|
            if m.contains_key(k) {
                m[k] is Some
            } else {
                !covered(s, k) && st.contains_key(k)
            },
        |k: Seq<u8>|
            if m.contains_key(k) {
                m[k]->0
            } else {
                st[k]
            },
    )
}

/// Applying a batch to a store is the same as laying the batch's
/// pending state over that store.
pub proof fn lemma_apply_is_merge(st: Map<Seq<u8>, Seq<u8>>, ops: Seq<Op>)
    ensures
        apply_ops(st, ops) == merge_pending(st, pending_entries(ops), pending_prefixes(ops)),
    decreases ops.len(),
{
    if ops.len() == 0 {
        assert(apply_ops(st, ops) =~= merge_pending(
            st,
            pending_entries(ops),
            pending_prefixes(ops),
        ));
    } else {
        lemma_apply_is_merge(st, ops.drop_last());
        let m0 = pending_entries(ops.drop_last());
        let s0 = pending_prefixes(ops.drop_last());
        let m = pending_entries(ops);
        let s = pending_prefixes(ops);
        match ops.last() {
            Op::Delete { key } => {
                assert(apply_ops(st, ops) =~= merge_pending(st, m, s));
            },
            Op::Put { key, value } => {
                assert(apply_ops(st, ops) =~= merge_pending(st, m, s));
            },
            Op::DeletePrefix { key_prefix } => {
                assert forall|k: Seq<u8>| !is_prefix(key_prefix, k) implies (covered(s, k)
                    == covered(s0, k)) by {
                    if covered(s0, k) {
                        let q = choose|q: Seq<u8>| #[trigger] s0.contains(q) && is_prefix(q, k);
                        if is_prefix(key_prefix, q) {
                            crate::ordering::lemma_prefix_transitive(key_prefix, q, k);
                        } else {
                            assert(s.contains(q) && is_prefix(q, k));
                        }
                    }
                    if covered(s, k) {
                        let q = choose|q: Seq<u8>| #[trigger] s.contains(q) && is_prefix(q, k);
                        assert(q != key_prefix);
                        assert(s0.contains(q) && is_prefix(q, k));
                    }
                }
                assert forall|k: Seq<u8>| is_prefix(key_prefix, k) implies covered(s, k) by {
                    assert(s.contains(key_prefix) && is_prefix(key_prefix, k));
                }
                assert(apply_ops(st, ops) =~= merge_pending(st, m, s));
            },
        }
    }
}

/// `simplify` preserves a batch's observable effect: applied to any
/// prior store state, the simplified batch leaves the same store as the
/// original would.
pub proof fn lemma_simplify_preserves_effect(
    ops: Seq<Op>,
    r: Seq<Op>,
    st: Map<Seq<u8>, Seq<u8>>,
)
    requires
        simplified_form(ops, r),
    ensures
        apply_ops(st, r) == apply_ops(st, ops),
{
    lemma_refold(r, pending_entries(ops), pending_prefixes(ops));
    lemma_apply_is_merge(st, ops);
    lemma_apply_is_merge(st, r);
}

/// The batch writes value `v` under key `k`.
pub open spec fn puts_key(r: Seq<Op>, k: Seq<u8>, v: Seq<u8>) -> bool {
    exists|i: int| 0 <= i < r.len() && #[trigger] r[i] == (Op::Put { key: k, value: v })
}

/// Writing a simplified batch into an empty store and then scanning any
/// prefix returns exactly the batch's surviving `Put` keys under that
/// prefix, each with the value the batch wrote for it.  The batch lists
/// those keys in ascending order, which is the order a scan yields.
pub proof fn lemma_write_then_scan_empty(ops: Seq<Op>, r: Seq<Op>, p: Seq<u8>)
    requires
        simplified_form(ops, r),
    ensures
        forall|k: Seq<u8>|
            (#[trigger] apply_ops(Map::empty(), r).contains_key(k) && is_prefix(p, k)) <==> (
            puts_key(r, k, apply_ops(Map::empty(), r)[k]) && is_prefix(p, k)),
{
    let m = pending_entries(ops);
    let s = pending_prefixes(ops);
    lemma_apply_canonical(r, m, s);
    let st = apply_ops(Map::empty(), r);
    assert forall|k: Seq<u8>| #[trigger] st.contains_key(k) && is_prefix(p, k) implies puts_key(
        r,
        k,
        st[k],
    ) by {
        let i = choose|i: int| 0 <= i < r.len() && is_entry_op(#[trigger] r[i]) && op_key(r[i]) == k;
        assert(matches_state(r[i], m, s));
        assert(r[i] == (Op::Put { key: k, value: st[k] }));
    }
    assert forall|k: Seq<u8>| puts_key(r, k, st[k]) && is_prefix(p, k) implies st.contains_key(
        k,
    ) by {
        let i = choose|i: int|
            0 <= i < r.len() && #[trigger] r[i] == (Op::Put { key: k, value: st[k] });
        assert(matches_state(r[i], m, s));
    }
}

} // verus!
