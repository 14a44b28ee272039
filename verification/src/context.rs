//! Contexts: key derivation scoped under a base address.
//!
//! A context binds a database client to the base key of one view's
//! subtree, plus caller-supplied extra data.  Every derivation below is
//! pure address arithmetic: keys are the base key followed by an
//! optional one-byte tag and an index encoding or raw suffix, so that
//! distinct views, and distinct tags within a view, own disjoint key
//! ranges under the byte-wise lexicographic order.

use vstd::prelude::*;

use crate::codec;
use crate::ordering::is_prefix;
use crate::util::{append_bytes, copy_bytes};

verus! {

/// A context over a database client implementing the raw key-value
/// operations: the client, the base key of the current view, and
/// user-defined extra data.
#[derive(Debug, Clone)]
pub struct ContextFromDb<E, DB> {
    /// The DB client, usually shared between views.
    pub db: DB,
    /// The key prefix for the current view.
    pub base_key: Vec<u8>,
    /// User-defined data attached to the view.
    pub extra: E,
}

impl<E, DB> ContextFromDb<E, DB> {
    /// The caller-supplied extra data.
    pub fn extra(&self) -> (r: &E)
        ensures
            r == &self.extra,
    {
        &self.extra
    }

    /// The address of the current view's subtree.
    pub fn base_key(&self) -> (r: Vec<u8>)
        ensures
            r@ == self.base_key@,
    {
        copy_bytes(&self.base_key)
    }

    /// The base key followed by a one-byte tag: a disjoint sub-namespace
    /// of this context's address.
    pub fn base_tag(&self, tag: u8) -> (r: Vec<u8>)
        ensures
            r@ == self.base_key@.push(tag),
    {
        let mut key = copy_bytes(&self.base_key);
        key.push(tag);
        key
    }

    /// The base key, a one-byte tag, and a raw index: a manually keyed
    /// entry of the tagged sub-namespace.
    pub fn base_tag_index(&self, tag: u8, index: &[u8]) -> (r: Vec<u8>)
        ensures
            r@ == self.base_key@.push(tag) + index@,
    {
        let mut key = self.base_tag(tag);
        append_bytes(&mut key, index);
        key
    }

    /// The base key followed by an already encoded index.
    ///
    /// The index encoding must not be empty: the derived key has to be
    /// strictly longer than the base key, or it would alias the
    /// context's own address and corrupt unrelated data.
    pub fn derive_key_from_bytes(&self, index_bytes: &[u8]) -> (r: Vec<u8>)
        requires
            index_bytes@.len() > 0,
        ensures
            r@ == self.base_key@ + index_bytes@,
            r@.len() > self.base_key@.len(),
    {
        let mut key = copy_bytes(&self.base_key);
        append_bytes(&mut key, index_bytes);
        key
    }

    /// The base key, a one-byte tag, and the deterministic encoding of a
    /// typed index.  The result always lies strictly under the tagged
    /// sub-namespace, whatever the index encodes to.
    pub fn derive_tag_key<I: serde::Serialize>(&self, tag: u8, index: &I) -> (r: Result<
        Vec<u8>,
        bcs::Error,
    >)
        ensures
            (r matches Ok(k) ==> is_prefix(self.base_key@.push(tag), k@)),
    {
        match codec::to_bytes(index) {
            Ok(bytes) => {
                let mut key = self.base_tag(tag);
                append_bytes(&mut key, bytes.as_slice());
                proof {
                    assert(key@.subrange(0, self.base_key@.push(tag).len() as int)
                        =~= self.base_key@.push(tag));
                }
                Ok(key)
            },
            Err(e) => Err(e),
        }
    }

    /// The deterministic encoding of a typed index alone, with no base
    /// prefix, for callers building keys not rooted at this context's
    /// address.
    pub fn derive_short_key<I: serde::Serialize>(&self, index: &I) -> Result<Vec<u8>, bcs::Error> {
        codec::to_bytes(index)
    }

    /// The base key followed by a raw suffix, with no encoding.
    pub fn derive_key_bytes(&self, index: &[u8]) -> (r: Vec<u8>)
        ensures
            r@ == self.base_key@ + index@,
    {
        let mut key = copy_bytes(&self.base_key);
        append_bytes(&mut key, index);
        key
    }

    /// Decode a stored value from its deterministic binary encoding.
    pub fn deserialize_value<Item: serde::de::DeserializeOwned>(bytes: &[u8]) -> Result<
        Item,
        bcs::Error,
    > {
        codec::from_bytes(bytes)
    }
}

impl<E: Clone, DB: Clone> ContextFromDb<E, DB> {
    /// A context over the same client and extra data, addressed at a new
    /// base key: an independently addressed sub-context for a nested
    /// structure.
    pub fn clone_with_base_key(&self, base_key: Vec<u8>) -> (r: Self)
        ensures
            r.base_key@ == base_key@,
    {
        ContextFromDb { db: self.db.clone(), base_key, extra: self.extra.clone() }
    }
}

} // verus!
