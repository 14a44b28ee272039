//! Write batches and their canonicalization.
//!
//! A batch is an ordered list of pending mutations: point puts, point
//! deletes, and prefix deletes.  `simplify` reduces a batch to the
//! canonical form a backend without duplicate-key tolerance can apply in
//! one pass: at most one operation per key, every prefix delete placed
//! before every point operation, and each group sorted by key.

use vstd::prelude::*;

use crate::ordering::{is_prefix, lemma_lex_lt_transitive, lemma_lex_trichotomy, lex_lt};
use crate::util::copy_bytes;

verus! {

/// A write operation requested by a view when persisting staged changes.
#[derive(Clone, Debug, PartialEq, Eq)]
pub enum WriteOperation {
    /// Delete the given key.
    Delete { key: Vec<u8> },
    /// Delete all the keys under the given prefix.
    DeletePrefix { key_prefix: Vec<u8> },
    /// Set the value of the given key.
    Put { key: Vec<u8>, value: Vec<u8> },
}

/// The mathematical form of a write operation.
pub ghost enum Op {
    /// Delete the given key.
    Delete { key: Seq<u8> },
    /// Delete all the keys under the given prefix.
    DeletePrefix { key_prefix: Seq<u8> },
    /// Set the value of the given key.
    Put { key: Seq<u8>, value: Seq<u8> },
}

impl View for WriteOperation {
    type V = Op;

    open spec fn view(&self) -> Op {
        match self {
            WriteOperation::Delete { key } => Op::Delete { key: key@ },
            WriteOperation::DeletePrefix { key_prefix } => Op::DeletePrefix {
                key_prefix: key_prefix@,
            },
            WriteOperation::Put { key, value } => Op::Put { key: key@, value: value@ },
        }
    }
}

/// The key an operation acts on: its point key, or its prefix.
pub open spec fn op_key(op: Op) -> Seq<u8> {
    match op {
        Op::Delete { key } => key,
        Op::DeletePrefix { key_prefix } => key_prefix,
        Op::Put { key, value } => key,
    }
}

/// An operation on a single key, as opposed to a prefix delete.
pub open spec fn is_entry_op(op: Op) -> bool {
    !(op is DeletePrefix)
}

/// The views of a sequence of write operations.
pub open spec fn ops_view(s: Seq<WriteOperation>) -> Seq<Op> {
    s.map_values(|op: WriteOperation| op@)
}

/// The keys having `p` as a prefix.
pub open spec fn prefix_set(p: Seq<u8>) -> Set<Seq<u8>> {
    Set::new(|k: Seq<u8>| is_prefix(p, k))
}

/// The pending point effects after one more operation: a put or delete
/// overrides the key's pending effect; a prefix delete drops every
/// pending effect under its prefix.
pub open spec fn step_entries(
    m: Map<Seq<u8>, Option<Seq<u8>>>,
    op: Op,
) -> Map<Seq<u8>, Option<Seq<u8>>> {
    match op {
        Op::Delete { key } => m.insert(key, None),
        Op::Put { key, value } => m.insert(key, Some(value)),
        Op::DeletePrefix { key_prefix } => m.remove_keys(prefix_set(key_prefix)),
    }
}

/// The pending prefix deletes after one more operation: a prefix delete
/// absorbs every pending prefix under it and takes their place.
pub open spec fn step_prefixes(s: Set<Seq<u8>>, op: Op) -> Set<Seq<u8>> {
    match op {
        Op::DeletePrefix { key_prefix } => Set::new(
            |q: Seq<u8>| (s.contains(q) && !is_prefix(key_prefix, q)) || q == key_prefix,
        ),
        _ => s,
    }
}

/// The pending point effect of each key after the whole batch, keyed by
/// the exact key written or deleted.
pub open spec fn pending_entries(ops: Seq<Op>) -> Map<Seq<u8>, Option<Seq<u8>>>
    decreases ops.len(),
{
    if ops.len() == 0 {
        Map::empty()
    } else {
        step_entries(pending_entries(ops.drop_last()), ops.last())
    }
}

/// The pending prefix deletes after the whole batch.
pub open spec fn pending_prefixes(ops: Seq<Op>) -> Set<Seq<u8>>
    decreases ops.len(),
{
    if ops.len() == 0 {
        Set::empty()
    } else {
        step_prefixes(pending_prefixes(ops.drop_last()), ops.last())
    }
}

/// The view of an optional byte string.
pub open spec fn opt_view(v: Option<Vec<u8>>) -> Option<Seq<u8>> {
    match v {
        Some(b) => Some(b@),
        None => None,
    }
}

/// One operation agrees with the pending state of the batch it came from.
pub open spec fn matches_state(
    op: Op,
    m: Map<Seq<u8>, Option<Seq<u8>>>,
    s: Set<Seq<u8>>,
) -> bool {
    match op {
        Op::DeletePrefix { key_prefix } => s.contains(key_prefix),
        Op::Delete { key } => m.contains_key(key) && m[key] is None,
        Op::Put { key, value } => m.contains_key(key) && m[key] == Some(value),
    }
}

/// `r` is the canonical rendering of the pending state `(m, s)`: it
/// holds exactly the prefix deletes of `s` and the point effects of `m`,
/// every prefix delete precedes every point operation, and each group is
/// strictly sorted by key.
pub open spec fn canonical_wrt(
    r: Seq<Op>,
    m: Map<Seq<u8>, Option<Seq<u8>>>,
    s: Set<Seq<u8>>,
) -> bool {
    &&& forall|i: int| 0 <= i < r.len() ==> matches_state(#[trigger] r[i], m, s)
    &&& forall|q: Seq<u8>|
        #[trigger] s.contains(q) ==> exists|i: int|
            0 <= i < r.len() && #[trigger] r[i] == (Op::DeletePrefix { key_prefix: q })
    &&& forall|k: Seq<u8>|
        #[trigger] m.contains_key(k) ==> exists|i: int|
            0 <= i < r.len() && is_entry_op(#[trigger] r[i]) && op_key(r[i]) == k
    &&& forall|i: int, j: int| 0 <= i < j < r.len() && r[j] is DeletePrefix ==> r[i] is DeletePrefix
    &&& forall|i: int, j: int|
        0 <= i < j < r.len() && (r[i] is DeletePrefix <==> r[j] is DeletePrefix) ==> lex_lt(
            op_key(#[trigger] r[i]),
            op_key(#[trigger] r[j]),
        )
}

/// `r` is the canonical form of the batch `ops`.
pub open spec fn simplified_form(ops: Seq<Op>, r: Seq<Op>) -> bool {
    canonical_wrt(r, pending_entries(ops), pending_prefixes(ops))
}

/// Strictly distinct keys follow from the strict order.
pub(crate) proof fn lemma_lt_ne(a: Seq<u8>, b: Seq<u8>)
    requires
        lex_lt(a, b),
    ensures
        a != b,
{
    lemma_lex_trichotomy(a, b);
}

/// Every element of a filtered sequence occurs in the sequence it was
/// filtered from.
proof fn lemma_filter_member<T>(s: Seq<T>, pred: spec_fn(T) -> bool)
    ensures
        forall|i: int|
            0 <= i < s.filter(pred).len() ==> exists|j: int|
                0 <= j < s.len() && s[j] == #[trigger] s.filter(pred)[i],
    decreases s.len(),
{
    reveal(Seq::filter);
    if s.len() > 0 {
        lemma_filter_member(s.drop_last(), pred);
        let f0 = s.drop_last().filter(pred);
        assert forall|i: int| 0 <= i < s.filter(pred).len() implies exists|j: int|
            0 <= j < s.len() && s[j] == #[trigger] s.filter(pred)[i] by {
            if i < f0.len() {
                let j = choose|j: int| 0 <= j < s.drop_last().len() && s.drop_last()[j] == f0[i];
                assert(s[j] == s.filter(pred)[i]);
            } else {
                assert(s[s.len() - 1] == s.filter(pred)[i]);
            }
        }
    }
}

/// Filtering keeps a strictly key-sorted sequence strictly key-sorted.
proof fn lemma_filter_sorted<T>(s: Seq<T>, pred: spec_fn(T) -> bool, key: spec_fn(T) -> Seq<u8>)
    requires
        forall|i: int, j: int| 0 <= i < j < s.len() ==> lex_lt(key(s[i]), key(s[j])),
    ensures
        forall|i: int, j: int|
            0 <= i < j < s.filter(pred).len() ==> lex_lt(
                key(#[trigger] s.filter(pred)[i]),
                key(#[trigger] s.filter(pred)[j]),
            ),
    decreases s.len(),
{
    reveal(Seq::filter);
    if s.len() > 0 {
        lemma_filter_sorted(s.drop_last(), pred, key);
        lemma_filter_member(s.drop_last(), pred);
        let f0 = s.drop_last().filter(pred);
        let f = s.filter(pred);
        assert forall|i: int, j: int| 0 <= i < j < f.len() implies lex_lt(
            key(#[trigger] f[i]),
            key(#[trigger] f[j]),
        ) by {
            if j < f0.len() {
                assert(f[i] == f0[i] && f[j] == f0[j]);
            } else {
                assert(f[j] == s.last());
                let a = choose|a: int| 0 <= a < s.drop_last().len() && s.drop_last()[a] == f0[i];
                assert(lex_lt(key(s[a]), key(s.last())));
            }
        }
    }
}

/// Strict ascending order of the entry keys.
pub open spec fn sorted_entries(s: Seq<(Vec<u8>, Option<Vec<u8>>)>) -> bool {
    forall|i: int, j: int| 0 <= i < j < s.len() ==> lex_lt(#[trigger] s[i].0@, #[trigger] s[j].0@)
}

/// Strict ascending order of a sequence of keys.
pub open spec fn sorted_keys(s: Seq<Vec<u8>>) -> bool {
    forall|i: int, j: int| 0 <= i < j < s.len() ==> lex_lt(#[trigger] s[i]@, #[trigger] s[j]@)
}

/// The sorted entry vector is exactly the graph of the pending-effect
/// map: each slot holds a pending key with its effect, and every pending
/// key has a slot.
pub open spec fn entries_match(
    s: Seq<(Vec<u8>, Option<Vec<u8>>)>,
    m: Map<Seq<u8>, Option<Seq<u8>>>,
) -> bool {
    &&& forall|i: int|
        0 <= i < s.len() ==> m.contains_key(#[trigger] s[i].0@) && m[s[i].0@] == opt_view(s[i].1)
    &&& forall|k: Seq<u8>|
        #[trigger] m.contains_key(k) ==> exists|i: int| 0 <= i < s.len() && #[trigger] s[i].0@ == k
}

/// The sorted prefix vector holds exactly the pending prefix deletes.
pub open spec fn prefixes_match(s: Seq<Vec<u8>>, ps: Set<Seq<u8>>) -> bool {
    &&& forall|i: int| 0 <= i < s.len() ==> ps.contains(#[trigger] s[i]@)
    &&& forall|q: Seq<u8>|
        #[trigger] ps.contains(q) ==> exists|i: int| 0 <= i < s.len() && #[trigger] s[i]@ == q
}

/// Record the pending effect of `key`, overriding any earlier one.
fn entry_insert(
    entries: &mut Vec<(Vec<u8>, Option<Vec<u8>>)>,
    key: Vec<u8>,
    value: Option<Vec<u8>>,
    Ghost(m): Ghost<Map<Seq<u8>, Option<Seq<u8>>>>,
)
    requires
        sorted_entries(old(entries)@),
        entries_match(old(entries)@, m),
    ensures
        sorted_entries(final(entries)@),
        entries_match(final(entries)@, m.insert(key@, opt_view(value))),
{
    let n: usize = entries.len();
    let mut pos: usize = 0;
    while pos < n && crate::ordering::cmp_bytes(entries[pos].0.as_slice(), key.as_slice()) == -1
        invariant
            0 <= pos <= n,
            n == entries@.len(),
            sorted_entries(entries@),
            entries_match(entries@, m),
            forall|j: int| 0 <= j < pos ==> lex_lt(#[trigger] entries@[j].0@, key@),
        decreases n - pos,
    {
        pos = pos + 1;
    }
    let ghost s0 = entries@;
    let ghost m1 = m.insert(key@, opt_view(value));
    if pos < n {
        let c = crate::ordering::cmp_bytes(entries[pos].0.as_slice(), key.as_slice());
        if c == 0 {
            entries[pos] = (key, value);
            proof {
                assert(entries@ =~= s0.update(pos as int, entries@[pos as int]));
                assert(entries@[pos as int].0@ == s0[pos as int].0@);
                assert forall|i: int, j: int| 0 <= i < j < entries@.len() implies lex_lt(
                    #[trigger] entries@[i].0@,
                    #[trigger] entries@[j].0@,
                ) by {
                    assert(lex_lt(s0[i].0@, s0[j].0@));
                }
                assert forall|i: int|
                    0 <= i < entries@.len() implies m1.contains_key(#[trigger] entries@[i].0@)
                    && m1[entries@[i].0@] == opt_view(entries@[i].1) by {
                    if i != pos {
                        if i < pos {
                            lemma_lt_ne(s0[i].0@, key@);
                        } else {
                            lemma_lt_ne(key@, s0[i].0@);
                        }
                    }
                }
                assert forall|k: Seq<u8>| #[trigger] m1.contains_key(k) implies exists|i: int|
                    0 <= i < entries@.len() && #[trigger] entries@[i].0@ == k by {
                    if k == key@ {
                        assert(entries@[pos as int].0@ == k);
                    } else {
                        let i = choose|i: int| 0 <= i < s0.len() && #[trigger] s0[i].0@ == k;
                        assert(entries@[i].0@ == k);
                    }
                }
            }
        } else {
            proof {
                lemma_lex_trichotomy(s0[pos as int].0@, key@);
            }
            entries.insert(pos, (key, value));
            proof {
                assert(lex_lt(key@, s0[pos as int].0@));
                assert forall|i: int, j: int| 0 <= i < j < entries@.len() implies lex_lt(
                    #[trigger] entries@[i].0@,
                    #[trigger] entries@[j].0@,
                ) by {
                    if i < pos && j == pos {
                    } else if i == pos && j > pos {
                        lemma_lex_lt_transitive_chain(key@, s0[pos as int].0@, s0[j - 1].0@);
                    } else if i < pos && j > pos {
                        assert(lex_lt(s0[i].0@, s0[j - 1].0@));
                    } else if i > pos && j > pos {
                        assert(lex_lt(s0[i - 1].0@, s0[j - 1].0@));
                    }
                }
                assert forall|i: int|
                    0 <= i < entries@.len() implies m1.contains_key(#[trigger] entries@[i].0@)
                    && m1[entries@[i].0@] == opt_view(entries@[i].1) by {
                    if i < pos {
                        lemma_lt_ne(s0[i].0@, key@);
                    } else if i > pos {
                        lemma_lt_ne(key@, s0[pos as int].0@);
                        if i - 1 > pos {
                            lemma_lex_lt_transitive(key@, s0[pos as int].0@, s0[i - 1].0@);
                        }
                        lemma_lt_ne(key@, s0[i - 1].0@);
                    }
                }
                assert forall|k: Seq<u8>| #[trigger] m1.contains_key(k) implies exists|i: int|
                    0 <= i < entries@.len() && #[trigger] entries@[i].0@ == k by {
                    if k == key@ {
                        assert(entries@[pos as int].0@ == k);
                    } else {
                        let i = choose|i: int| 0 <= i < s0.len() && #[trigger] s0[i].0@ == k;
                        if i < pos {
                            assert(entries@[i].0@ == k);
                        } else {
                            assert(entries@[i + 1].0@ == k);
                        }
                    }
                }
            }
        }
    } else {
        entries.push((key, value));
        proof {
            assert forall|i: int, j: int| 0 <= i < j < entries@.len() implies lex_lt(
                #[trigger] entries@[i].0@,
                #[trigger] entries@[j].0@,
            ) by {
                if j < s0.len() {
                    assert(lex_lt(s0[i].0@, s0[j].0@));
                }
            }
            assert forall|i: int|
                0 <= i < entries@.len() implies m1.contains_key(#[trigger] entries@[i].0@)
                && m1[entries@[i].0@] == opt_view(entries@[i].1) by {
                if i < s0.len() {
                    lemma_lt_ne(s0[i].0@, key@);
                }
            }
            assert forall|k: Seq<u8>| #[trigger] m1.contains_key(k) implies exists|i: int|
                0 <= i < entries@.len() && #[trigger] entries@[i].0@ == k by {
                if k == key@ {
                    assert(entries@[s0.len() as int].0@ == k);
                } else {
                    let i = choose|i: int| 0 <= i < s0.len() && #[trigger] s0[i].0@ == k;
                    assert(entries@[i].0@ == k);
                }
            }
        }
    }
}

/// A transitivity step used when an insertion shifts later entries.
proof fn lemma_lex_lt_transitive_chain(a: Seq<u8>, b: Seq<u8>, c: Seq<u8>)
    requires
        lex_lt(a, b),
        b == c || lex_lt(b, c),
    ensures
        lex_lt(a, c),
{
    if b != c {
        lemma_lex_lt_transitive(a, b, c);
    }
}

/// Drop the pending effect of every key under the prefix `p`.
fn entry_remove_prefix(
    entries: &mut Vec<(Vec<u8>, Option<Vec<u8>>)>,
    p: &Vec<u8>,
    Ghost(m): Ghost<Map<Seq<u8>, Option<Seq<u8>>>>,
)
    requires
        sorted_entries(old(entries)@),
        entries_match(old(entries)@, m),
    ensures
        sorted_entries(final(entries)@),
        entries_match(final(entries)@, m.remove_keys(prefix_set(p@))),
{
    let ghost s0 = entries@;
    let ghost pred = |e: (Vec<u8>, Option<Vec<u8>>)| !is_prefix(p@, e.0@);
    let mut out: Vec<(Vec<u8>, Option<Vec<u8>>)> = Vec::new();
    let ghost mut i: int = 0;
    while entries.len() > 0
        invariant
            0 <= i <= s0.len(),
            i + entries@.len() == s0.len(),
            entries@ == s0.skip(i),
            out@ == s0.take(i).filter(pred),
            pred == (|e: (Vec<u8>, Option<Vec<u8>>)| !is_prefix(p@, e.0@)),
        decreases entries@.len(),
    {
        let e = entries.remove(0);
        proof {
            assert(s0.skip(i).remove(0) =~= s0.skip(i + 1));
            assert(e == s0[i]);
        }
        let keep = !crate::ordering::starts_with(e.0.as_slice(), p.as_slice());
        if keep {
            out.push(e);
        }
        proof {
            reveal(Seq::filter);
            assert(s0.take(i + 1).drop_last() =~= s0.take(i));
            assert(s0.take(i + 1).last() == s0[i]);
            assert(out@ == s0.take(i + 1).filter(pred));
            i = i + 1;
        }
    }
    proof {
        assert(s0.take(s0.len() as int) =~= s0);
    }
    let ghost f = s0.filter(pred);
    proof {
        lemma_filter_sorted(s0, pred, |e: (Vec<u8>, Option<Vec<u8>>)| e.0@);
        lemma_filter_member(s0, pred);
        s0.filter_lemma(pred);
        let m1 = m.remove_keys(prefix_set(p@));
        assert forall|a: int, b: int| 0 <= a < b < f.len() implies lex_lt(
            #[trigger] f[a].0@,
            #[trigger] f[b].0@,
        ) by {
            let key = |e: (Vec<u8>, Option<Vec<u8>>)| e.0@;
            assert(lex_lt(key(f[a]), key(f[b])));
        }
        assert forall|a: int| 0 <= a < f.len() implies m1.contains_key(#[trigger] f[a].0@)
            && m1[f[a].0@] == opt_view(f[a].1) by {
            let j = choose|j: int| 0 <= j < s0.len() && s0[j] == f[a];
            assert(pred(f[a]));
        }
        assert forall|k: Seq<u8>| #[trigger] m1.contains_key(k) implies exists|a: int|
            0 <= a < f.len() && #[trigger] f[a].0@ == k by {
            let j = choose|j: int| 0 <= j < s0.len() && #[trigger] s0[j].0@ == k;
            assert(pred(s0[j]));
            assert(f.contains(s0[j]));
            let a = choose|a: int| 0 <= a < f.len() && f[a] == s0[j];
            assert(f[a].0@ == k);
        }
    }
    *entries = out;
}

/// Drop every pending prefix that lies under the new prefix `p`.
fn prefix_remove_covered(
    prefixes: &mut Vec<Vec<u8>>,
    p: &Vec<u8>,
    Ghost(ps): Ghost<Set<Seq<u8>>>,
)
    requires
        sorted_keys(old(prefixes)@),
        prefixes_match(old(prefixes)@, ps),
    ensures
        sorted_keys(final(prefixes)@),
        prefixes_match(
            final(prefixes)@,
            Set::new(|q: Seq<u8>| ps.contains(q) && !is_prefix(p@, q)),
        ),
{
    let ghost s0 = prefixes@;
    let ghost pred = |q: Vec<u8>| !is_prefix(p@, q@);
    let mut out: Vec<Vec<u8>> = Vec::new();
    let ghost mut i: int = 0;
    while prefixes.len() > 0
        invariant
            0 <= i <= s0.len(),
            i + prefixes@.len() == s0.len(),
            prefixes@ == s0.skip(i),
            out@ == s0.take(i).filter(pred),
            pred == (|q: Vec<u8>| !is_prefix(p@, q@)),
        decreases prefixes@.len(),
    {
        let q = prefixes.remove(0);
        proof {
            assert(s0.skip(i).remove(0) =~= s0.skip(i + 1));
            assert(q == s0[i]);
        }
        let keep = !crate::ordering::starts_with(q.as_slice(), p.as_slice());
        if keep {
            out.push(q);
        }
        proof {
            reveal(Seq::filter);
            assert(s0.take(i + 1).drop_last() =~= s0.take(i));
            assert(s0.take(i + 1).last() == s0[i]);
            assert(out@ == s0.take(i + 1).filter(pred));
            i = i + 1;
        }
    }
    proof {
        assert(s0.take(s0.len() as int) =~= s0);
    }
    let ghost f = s0.filter(pred);
    proof {
        lemma_filter_sorted(s0, pred, |q: Vec<u8>| q@);
        lemma_filter_member(s0, pred);
        s0.filter_lemma(pred);
        let ps1 = Set::new(|q: Seq<u8>| ps.contains(q) && !is_prefix(p@, q));
        assert forall|a: int, b: int| 0 <= a < b < f.len() implies lex_lt(
            #[trigger] f[a]@,
            #[trigger] f[b]@,
        ) by {
            let key = |q: Vec<u8>| q@;
            assert(lex_lt(key(f[a]), key(f[b])));
        }
        assert forall|a: int| 0 <= a < f.len() implies ps1.contains(#[trigger] f[a]@) by {
            let j = choose|j: int| 0 <= j < s0.len() && s0[j] == f[a];
            assert(pred(f[a]));
        }
        assert forall|q: Seq<u8>| #[trigger] ps1.contains(q) implies exists|a: int|
            0 <= a < f.len() && #[trigger] f[a]@ == q by {
            let j = choose|j: int| 0 <= j < s0.len() && #[trigger] s0[j]@ == q;
            assert(pred(s0[j]));
            assert(f.contains(s0[j]));
            let a = choose|a: int| 0 <= a < f.len() && f[a] == s0[j];
            assert(f[a]@ == q);
        }
    }
    *prefixes = out;
}

/// Record a pending prefix delete.
fn prefix_insert(prefixes: &mut Vec<Vec<u8>>, key: Vec<u8>, Ghost(ps): Ghost<Set<Seq<u8>>>)
    requires
        sorted_keys(old(prefixes)@),
        prefixes_match(old(prefixes)@, ps),
    ensures
        sorted_keys(final(prefixes)@),
        prefixes_match(final(prefixes)@, ps.insert(key@)),
{
    let n: usize = prefixes.len();
    let mut pos: usize = 0;
    while pos < n && crate::ordering::cmp_bytes(prefixes[pos].as_slice(), key.as_slice()) == -1
        invariant
            0 <= pos <= n,
            n == prefixes@.len(),
            sorted_keys(prefixes@),
            prefixes_match(prefixes@, ps),
            forall|j: int| 0 <= j < pos ==> lex_lt(#[trigger] prefixes@[j]@, key@),
        decreases n - pos,
    {
        pos = pos + 1;
    }
    let ghost s0 = prefixes@;
    let ghost ps1 = ps.insert(key@);
    if pos < n {
        let c = crate::ordering::cmp_bytes(prefixes[pos].as_slice(), key.as_slice());
        if c == 0 {
            proof {
                assert(s0[pos as int]@ == key@);
                assert forall|q: Seq<u8>| #[trigger] ps1.contains(q) implies exists|i: int|
                    0 <= i < s0.len() && #[trigger] s0[i]@ == q by {
                    if q == key@ {
                        assert(s0[pos as int]@ == q);
                    }
                }
            }
        } else {
            proof {
                lemma_lex_trichotomy(s0[pos as int]@, key@);
            }
            prefixes.insert(pos, key);
            proof {
                assert(lex_lt(key@, s0[pos as int]@));
                assert forall|i: int, j: int| 0 <= i < j < prefixes@.len() implies lex_lt(
                    #[trigger] prefixes@[i]@,
                    #[trigger] prefixes@[j]@,
                ) by {
                    if i < pos && j == pos {
                    } else if i == pos && j > pos {
                        lemma_lex_lt_transitive_chain(key@, s0[pos as int]@, s0[j - 1]@);
                    } else if i < pos && j > pos {
                        assert(lex_lt(s0[i]@, s0[j - 1]@));
                    } else if i > pos && j > pos {
                        assert(lex_lt(s0[i - 1]@, s0[j - 1]@));
                    }
                }
                assert forall|q: Seq<u8>| #[trigger] ps1.contains(q) implies exists|i: int|
                    0 <= i < prefixes@.len() && #[trigger] prefixes@[i]@ == q by {
                    if q == key@ {
                        assert(prefixes@[pos as int]@ == q);
                    } else {
                        let i = choose|i: int| 0 <= i < s0.len() && #[trigger] s0[i]@ == q;
                        if i < pos {
                            assert(prefixes@[i]@ == q);
                        } else {
                            assert(prefixes@[i + 1]@ == q);
                        }
                    }
                }
            }
        }
    } else {
        prefixes.push(key);
        proof {
            assert forall|i: int, j: int| 0 <= i < j < prefixes@.len() implies lex_lt(
                #[trigger] prefixes@[i]@,
                #[trigger] prefixes@[j]@,
            ) by {
                if j < s0.len() {
                    assert(lex_lt(s0[i]@, s0[j]@));
                }
            }
            assert forall|q: Seq<u8>| #[trigger] ps1.contains(q) implies exists|i: int|
                0 <= i < prefixes@.len() && #[trigger] prefixes@[i]@ == q by {
                if q == key@ {
                    assert(prefixes@[s0.len() as int]@ == q);
                } else {
                    let i = choose|i: int| 0 <= i < s0.len() && #[trigger] s0[i]@ == q;
                    assert(prefixes@[i]@ == q);
                }
            }
        }
    }
}

/// A batch of writes inside a transaction.
pub struct Batch {
    /// The pending operations, in append order.
    pub operations: Vec<WriteOperation>,
}

impl View for Batch {
    type V = Seq<Op>;

    open spec fn view(&self) -> Seq<Op> {
        ops_view(self.operations@)
    }
}

impl Default for Batch {
    /// The empty batch.
    fn default() -> (r: Self)
        ensures
            r@ == Seq::<Op>::empty(),
    {
        let operations: Vec<WriteOperation> = Vec::new();
        proof {
            assert(ops_view(Seq::<WriteOperation>::empty()) =~= Seq::<Op>::empty());
        }
        Batch { operations }
    }
}

impl Batch {
    /// Append a `Put { key, value }` to the batch.
    pub fn put_key_value_bytes(&mut self, key: Vec<u8>, value: Vec<u8>)
        ensures
            final(self)@ == old(self)@.push(Op::Put { key: key@, value: value@ }),
    {
        let ghost before = self.operations@;
        self.operations.push(WriteOperation::Put { key, value });
        proof {
            assert(ops_view(self.operations@) =~= ops_view(before).push(
                self.operations@.last()@,
            ));
        }
    }

    /// Append a `Put` whose value is the deterministic binary encoding
    /// of a typed value, or report the encoding error and leave the
    /// batch unchanged.
    pub fn put_key_value<V: serde::Serialize>(&mut self, key: Vec<u8>, value: &V) -> (r: Result<
        (),
        bcs::Error,
    >)
        ensures
            r is Ok ==> exists|b: Seq<u8>|
                final(self)@ == old(self)@.push(Op::Put { key: key@, value: b }),
            r is Err ==> final(self)@ == old(self)@,
    {
        match crate::codec::to_bytes(value) {
            Ok(bytes) => {
                let ghost b = bytes@;
                self.put_key_value_bytes(key, bytes);
                proof {
                    assert(self@ == old(self)@.push(Op::Put { key: key@, value: b }));
                }
                Ok(())
            },
            Err(e) => Err(e),
        }
    }

    /// Append a `Delete { key }` to the batch.
    pub fn delete_key(&mut self, key: Vec<u8>)
        ensures
            final(self)@ == old(self)@.push(Op::Delete { key: key@ }),
    {
        let ghost before = self.operations@;
        self.operations.push(WriteOperation::Delete { key });
        proof {
            assert(ops_view(self.operations@) =~= ops_view(before).push(
                self.operations@.last()@,
            ));
        }
    }

    /// Append a `DeletePrefix { key_prefix }` to the batch.
    pub fn delete_key_prefix(&mut self, key_prefix: Vec<u8>)
        ensures
            final(self)@ == old(self)@.push(Op::DeletePrefix { key_prefix: key_prefix@ }),
    {
        let ghost before = self.operations@;
        self.operations.push(WriteOperation::DeletePrefix { key_prefix });
        proof {
            assert(ops_view(self.operations@) =~= ops_view(before).push(
                self.operations@.last()@,
            ));
        }
    }

    /// Reduce the batch to its canonical form.
    ///
    /// A key may appear several times in a batch, and a prefix delete may
    /// overlap point writes; a backend without duplicate-key tolerance
    /// cannot apply such a batch directly.  The result carries the same
    /// pending effects with at most one operation per key, every prefix
    /// delete placed before every point operation, and both groups sorted
    /// by key.
    pub fn simplify(self) -> (r: Self)
        ensures
            simplified_form(self@, r@),
    {
        let ops = self.operations;
        let ghost full: Seq<Op> = ops_view(ops@);
        let n: usize = ops.len();
        let mut entries: Vec<(Vec<u8>, Option<Vec<u8>>)> = Vec::new();
        let mut prefixes: Vec<Vec<u8>> = Vec::new();
        let mut i: usize = 0;
        proof {
            assert(full.take(0) =~= Seq::<Op>::empty());
        }
        while i < n
            invariant
                0 <= i <= n,
                n == ops@.len(),
                full == ops_view(ops@),
                sorted_entries(entries@),
                entries_match(entries@, pending_entries(full.take(i as int))),
                sorted_keys(prefixes@),
                prefixes_match(prefixes@, pending_prefixes(full.take(i as int))),
            decreases n - i,
        {
            let ghost m = pending_entries(full.take(i as int));
            let ghost s = pending_prefixes(full.take(i as int));
            proof {
                assert(full.take(i + 1).drop_last() =~= full.take(i as int));
                assert(full.take(i + 1).last() == full[i as int]);
            }
            match &ops[i] {
                WriteOperation::Delete { key } => {
                    let k = copy_bytes(key);
                    entry_insert(&mut entries, k, None, Ghost(m));
                    proof {
                        assert(full[i as int] == (Op::Delete { key: key@ }));
                        assert(pending_entries(full.take(i + 1)) == m.insert(key@, None));
                        assert(pending_prefixes(full.take(i + 1)) == s);
                    }
                }
                WriteOperation::Put { key, value } => {
                    let k = copy_bytes(key);
                    let v = copy_bytes(value);
                    entry_insert(&mut entries, k, Some(v), Ghost(m));
                    proof {
                        assert(full[i as int] == (Op::Put { key: key@, value: value@ }));
                        assert(pending_entries(full.take(i + 1)) == m.insert(key@, Some(value@)));
                        assert(pending_prefixes(full.take(i + 1)) == s);
                    }
                }
                WriteOperation::DeletePrefix { key_prefix } => {
                    entry_remove_prefix(&mut entries, key_prefix, Ghost(m));
                    prefix_remove_covered(&mut prefixes, key_prefix, Ghost(s));
                    let ghost s1 = Set::new(
                        |q: Seq<u8>| s.contains(q) && !is_prefix(key_prefix@, q),
                    );
                    let p = copy_bytes(key_prefix);
                    prefix_insert(&mut prefixes, p, Ghost(s1));
                    proof {
                        assert(full[i as int] == (Op::DeletePrefix { key_prefix: key_prefix@ }));
                        assert(pending_entries(full.take(i + 1)) == m.remove_keys(
                            prefix_set(key_prefix@),
                        ));
                        assert(s1.insert(key_prefix@) =~= pending_prefixes(full.take(i + 1)));
                    }
                }
            }
            i = i + 1;
        }
        proof {
            assert(full.take(n as int) =~= full);
        }
        let ghost m = pending_entries(full);
        let ghost s = pending_prefixes(full);
        let ghost pseq = prefixes@;
        let ghost eseq = entries@;
        let np: usize = prefixes.len();
        let mut operations: Vec<WriteOperation> = Vec::new();
        let mut j: usize = 0;
        while j < np
            invariant
                0 <= j <= np,
                np == pseq.len(),
                prefixes@ == pseq,
                operations@.len() == j,
                forall|a: int|
                    0 <= a < j ==> #[trigger] operations@[a]@ == (Op::DeletePrefix {
                        key_prefix: pseq[a]@,
                    }),
            decreases np - j,
        {
            let p = copy_bytes(&prefixes[j]);
            operations.push(WriteOperation::DeletePrefix { key_prefix: p });
            j = j + 1;
        }
        let ne: usize = entries.len();
        let mut j2: usize = 0;
        while j2 < ne
            invariant
                0 <= j2 <= ne,
                ne == eseq.len(),
                np == pseq.len(),
                entries@ == eseq,
                operations@.len() == np + j2,
                forall|a: int|
                    0 <= a < np ==> #[trigger] operations@[a]@ == (Op::DeletePrefix {
                        key_prefix: pseq[a]@,
                    }),
                forall|a: int|
                    np <= a < np + j2 ==> is_entry_op(#[trigger] operations@[a]@) && op_key(
                        operations@[a]@,
                    ) == eseq[a - np].0@ && matches_entry(operations@[a]@, eseq[a - np]),
            decreases ne - j2,
        {
            let e = &entries[j2];
            let k = copy_bytes(&e.0);
            match &e.1 {
                Some(v) => {
                    let vv = copy_bytes(v);
                    operations.push(WriteOperation::Put { key: k, value: vv });
                }
                None => {
                    operations.push(WriteOperation::Delete { key: k });
                }
            }
            j2 = j2 + 1;
        }
        let r = Batch { operations };
        proof {
            let rv = r@;
            assert(rv.len() == np + ne);
            assert forall|a: int| 0 <= a < rv.len() implies matches_state(
                #[trigger] rv[a],
                m,
                s,
            ) by {
                if a < np {
                } else {
                    assert(matches_entry(rv[a], eseq[a - np]));
                }
            }
            assert forall|q: Seq<u8>| #[trigger] s.contains(q) implies exists|a: int|
                0 <= a < rv.len() && #[trigger] rv[a] == (Op::DeletePrefix {
                    key_prefix: q,
                }) by {
                let i0 = choose|i0: int| 0 <= i0 < pseq.len() && #[trigger] pseq[i0]@ == q;
                assert(rv[i0] == (Op::DeletePrefix { key_prefix: q }));
            }
            assert forall|k: Seq<u8>| #[trigger] m.contains_key(k) implies exists|a: int|
                0 <= a < rv.len() && is_entry_op(#[trigger] rv[a]) && op_key(rv[a]) == k by {
                let i0 = choose|i0: int| 0 <= i0 < eseq.len() && #[trigger] eseq[i0].0@ == k;
                assert(is_entry_op(rv[np + i0]) && op_key(rv[np + i0]) == k);
            }
            assert forall|a: int, b: int|
                0 <= a < b < rv.len() && (rv[a] is DeletePrefix <==> rv[b] is DeletePrefix)
                implies lex_lt(op_key(#[trigger] rv[a]), op_key(#[trigger] rv[b])) by {
                if a < np && b < np {
                    assert(lex_lt(pseq[a]@, pseq[b]@));
                } else {
                    assert(a >= np && b >= np);
                    assert(lex_lt(eseq[a - np].0@, eseq[b - np].0@));
                }
            }
        }
        r
    }
}

/// A rendered point operation carries the pending effect of its slot.
pub open spec fn matches_entry(op: Op, e: (Vec<u8>, Option<Vec<u8>>)) -> bool {
    match op {
        Op::Delete { key } => key == e.0@ && e.1 is None,
        Op::Put { key, value } => key == e.0@ && opt_view(e.1) == Some(value),
        Op::DeletePrefix { key_prefix } => false,
    }
}

} // verus!
