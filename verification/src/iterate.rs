//! Walking the results of a search query.
//!
//! A query returns its keys, or key-value pairs, as vectors in ascending
//! key order.  The traits below expose them position by position, and
//! the cursors hand the entries out by reference, one at a time.

use vstd::prelude::*;

verus! {

/// The views of a sequence of keys.
pub open spec fn key_views(s: Seq<Vec<u8>>) -> Seq<Seq<u8>> {
    s.map_values(|v: Vec<u8>| v@)
}

/// The views of a sequence of key-value pairs.
pub open spec fn key_value_views(s: Seq<(Vec<u8>, Vec<u8>)>) -> Seq<(Seq<u8>, Seq<u8>)> {
    s.map_values(|e: (Vec<u8>, Vec<u8>)| (e.0@, e.1@))
}

/// How to read the keys returned by a search query.
pub trait KeyIterable {
    /// The keys, in the order the query returned them.
    spec fn keys(&self) -> Seq<Seq<u8>>;

    /// The number of keys.
    fn key_count(&self) -> (n: usize)
        ensures
            n == self.keys().len(),
    ;

    /// The key at position `i`.
    fn key_at(&self, i: usize) -> (k: &[u8])
        requires
            i < self.keys().len(),
        ensures
            k@ == self.keys()[i as int],
    ;
}

impl KeyIterable for Vec<Vec<u8>> {
    open spec fn keys(&self) -> Seq<Seq<u8>> {
        key_views(self@)
    }

    fn key_count(&self) -> (n: usize) {
        self.len()
    }

    fn key_at(&self, i: usize) -> (k: &[u8]) {
        self[i].as_slice()
    }
}

/// How to read the key-value pairs returned by a search query.
pub trait KeyValueIterable {
    /// The key-value pairs, in the order the query returned them.
    spec fn key_values(&self) -> Seq<(Seq<u8>, Seq<u8>)>;

    /// The number of pairs.
    fn key_value_count(&self) -> (n: usize)
        ensures
            n == self.key_values().len(),
    ;

    /// The pair at position `i`.
    fn key_value_at(&self, i: usize) -> (e: (&[u8], &[u8]))
        requires
            i < self.key_values().len(),
        ensures
            e.0@ == self.key_values()[i as int].0,
            e.1@ == self.key_values()[i as int].1,
    ;
}

impl KeyValueIterable for Vec<(Vec<u8>, Vec<u8>)> {
    open spec fn key_values(&self) -> Seq<(Seq<u8>, Seq<u8>)> {
        key_value_views(self@)
    }

    fn key_value_count(&self) -> (n: usize) {
        self.len()
    }

    fn key_value_at(&self, i: usize) -> (e: (&[u8], &[u8])) {
        let entry = &self[i];
        (entry.0.as_slice(), entry.1.as_slice())
    }
}

/// A cursor over a vector of keys, handing each key out by reference.
pub struct SimpleKeyIterator<'a> {
    keys: &'a Vec<Vec<u8>>,
    pos: usize,
}

impl<'a> SimpleKeyIterator<'a> {
    /// The keys the cursor walks.
    pub closed spec fn keys_view(&self) -> Seq<Seq<u8>> {
        key_views(self.keys@)
    }

    /// The position of the next key to hand out.
    pub closed spec fn position(&self) -> int {
        self.pos as int
    }

    /// Start an iteration.
    pub fn new(keys: &'a Vec<Vec<u8>>) -> (r: Self)
        ensures
            r.keys_view() == key_views(keys@),
            r.position() == 0,
    {
        SimpleKeyIterator { keys, pos: 0 }
    }

    /// The next key, or `None` once every key has been handed out.
    pub fn next(&mut self) -> (r: Option<&'a [u8]>)
        ensures
            final(self).keys_view() == old(self).keys_view(),
            if old(self).position() < old(self).keys_view().len() {
                &&& final(self).position() == old(self).position() + 1
                &&& (r matches Some(k) && k@ == old(self).keys_view()[old(self).position()])
            } else {
                &&& r is None
                &&& final(self).position() == old(self).position()
            },
    {
        if self.pos < self.keys.len() {
            let k = self.keys[self.pos].as_slice();
            self.pos = self.pos + 1;
            Some(k)
        } else {
            None
        }
    }
}

/// A cursor over a vector of key-value pairs, handing each pair out by
/// reference.
pub struct SimpleKeyValueIterator<'a> {
    entries: &'a Vec<(Vec<u8>, Vec<u8>)>,
    pos: usize,
}

impl<'a> SimpleKeyValueIterator<'a> {
    /// The pairs the cursor walks.
    pub closed spec fn key_values_view(&self) -> Seq<(Seq<u8>, Seq<u8>)> {
        key_value_views(self.entries@)
    }

    /// The position of the next pair to hand out.
    pub closed spec fn position(&self) -> int {
        self.pos as int
    }

    /// Start an iteration.
    pub fn new(entries: &'a Vec<(Vec<u8>, Vec<u8>)>) -> (r: Self)
        ensures
            r.key_values_view() == key_value_views(entries@),
            r.position() == 0,
    {
        SimpleKeyValueIterator { entries, pos: 0 }
    }

    /// The next pair, or `None` once every pair has been handed out.
    pub fn next(&mut self) -> (r: Option<(&'a [u8], &'a [u8])>)
        ensures
            final(self).key_values_view() == old(self).key_values_view(),
            if old(self).position() < old(self).key_values_view().len() {
                &&& final(self).position() == old(self).position() + 1
                &&& (r matches Some(e) && e.0@ == old(self).key_values_view()[old(
                    self,
                ).position()].0 && e.1@ == old(self).key_values_view()[old(self).position()].1)
            } else {
                &&& r is None
                &&& final(self).position() == old(self).position()
            },
    {
        if self.pos < self.entries.len() {
            let entry = &self.entries[self.pos];
            self.pos = self.pos + 1;
            Some((entry.0.as_slice(), entry.1.as_slice()))
        } else {
            None
        }
    }
}

} // verus!
