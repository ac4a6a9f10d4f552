//! The index of the store: for each live key, where its `Set` record lies in
//! the log. It is kept in a concurrent ordered map, so that readers can look a
//! key up while the one writer changes the index.

use crossbeam_skiplist::SkipMap;
use std::sync::Arc;
use vstd::prelude::*;

verus! {

/// Where one record lies in the log: its offset and its length, in bytes.
#[derive(Clone, Copy, Debug, PartialEq, Eq, Structural)]
pub struct Meta(pub u64, pub u64);

impl Meta {
    /// The place of `l` bytes at the offset `p`.
    pub fn new(p: u64, l: u64) -> (m: Meta)
        ensures
            m == Meta(p, l),
    {
        Meta(p, l)
    }
}

/// `crossbeam_skiplist::SkipMap`, a map ordered by its keys.
#[verifier::external_type_specification]
#[verifier::external_body]
#[verifier::reject_recursive_types(K)]
#[verifier::reject_recursive_types(V)]
pub struct ExSkipMap<K, V>(SkipMap<K, V>);

/// The entries that the map holds.
pub uninterp spec fn skipmap_entries(m: SkipMap<String, Meta>) -> Map<Seq<char>, Meta>;

/// The keys of the map in the order in which it is walked, which is the order
/// of the keys.
pub uninterp spec fn skipmap_order(m: SkipMap<String, Meta>) -> Seq<Seq<char>>;

/// `items` lists each entry of `entries` once, in the order `order`.
pub open spec fn lists_entries(
    items: Seq<(String, Meta)>,
    entries: Map<Seq<char>, Meta>,
    order: Seq<Seq<char>>,
) -> bool {
    &&& items.len() == order.len()
    &&& order.no_duplicates()
    &&& forall|k: Seq<char>| entries.contains_key(k) <==> order.contains(k)
    &&& forall|i: int|
        0 <= i < items.len() ==> (#[trigger] items[i]).0@ == order[i] && items[i].1
            == entries[order[i]]
}

/// `SkipMap::new`: a map without entries.
#[verifier::external_body]
fn skipmap_new() -> (m: SkipMap<String, Meta>)
    ensures
        skipmap_entries(m) == (Map::<Seq<char>, Meta>::empty()),
{
    SkipMap::new()
}

/// `SkipMap::get`, through the handle of the one writer: the value that the
/// index holds for `key`, if it holds one.
#[verifier::external_body]
fn skipmap_get(index: &Index, key: &str) -> (found: Option<Meta>)
    ensures
        found == (if index@.contains_key(key@) {
            Some(index@[key@])
        } else {
            None
        }),
{
    index.map.get(key).map(|e| *e.value())
}

/// `SkipMap::get`, through the handle of a reader: the value that the map holds
/// for `key` at the moment of the call, if it holds one. The writer changes the
/// map from another thread, so nothing is known of the result beforehand.
#[verifier::external_body]
fn skipmap_peek(reader: &IndexReader, key: &str) -> Option<Meta> {
    reader.map.get(key).map(|e| *e.value())
}

/// `SkipMap::insert`: afterwards the map holds `meta` for `key`, in place of
/// what it held for `key` before, and its other entries as before.
#[verifier::external_body]
fn skipmap_insert(index: &mut Index, key: String, meta: Meta)
    ensures
        final(index)@ == old(index)@.insert(key@, meta),
{
    index.map.insert(key, meta);
}

/// `SkipMap::remove`: afterwards the map holds nothing for `key`, and its other
/// entries as before; the result is what it held for `key`.
#[verifier::external_body]
fn skipmap_remove(index: &mut Index, key: &str) -> (found: Option<Meta>)
    ensures
        final(index)@ == old(index)@.remove(key@),
        found == (if old(index)@.contains_key(key@) {
            Some(old(index)@[key@])
        } else {
            None
        }),
{
    index.map.remove(key).map(|e| *e.value())
}

/// `SkipMap::iter`, walked to its end through the handle of the one writer:
/// each entry of the index once, in the order of the keys.
#[verifier::external_body]
fn skipmap_items(index: &Index) -> (items: Vec<(String, Meta)>)
    ensures
        lists_entries(items@, index@, skipmap_order(*index.map)),
{
    index.map.iter().map(|e| (e.key().clone(), *e.value())).collect()
}

/// The index: a map from key to the place of the key's record. This is the
/// handle of the one writer: the map changes through it and through nothing
/// else.
pub struct Index {
    map: Arc<SkipMap<String, Meta>>,
}

/// The handle of a reader on the map of an index. A reader can look a key up,
/// and nothing else; what it finds is what the writer has put there by then.
pub struct IndexReader {
    map: Arc<SkipMap<String, Meta>>,
}

impl IndexReader {
    /// The place that the index holds for `key` at the moment of the call, if
    /// it holds one.
    pub fn get(&self, key: &str) -> Option<Meta> {
        skipmap_peek(self, key)
    }
}

impl View for Index {
    type V = Map<Seq<char>, Meta>;

    closed spec fn view(&self) -> Map<Seq<char>, Meta> {
        skipmap_entries(*self.map)
    }
}

impl Index {
    /// The keys of the index in the order in which `entries` lists them.
    pub closed spec fn order(&self) -> Seq<Seq<char>> {
        skipmap_order(*self.map)
    }

    /// An index without entries.
    pub fn new() -> (r: Index)
        ensures
            r@ == (Map::<Seq<char>, Meta>::empty()),
    {
        Index { map: Arc::new(skipmap_new()) }
    }

    /// The place of the record of `key`, if the index holds the key.
    pub fn get(&self, key: &str) -> (found: Option<Meta>)
        ensures
            found == (if self@.contains_key(key@) {
                Some(self@[key@])
            } else {
                None
            }),
    {
        skipmap_get(self, key)
    }

    /// Records `meta` as the place of `key`. The result is the place that the
    /// index held for the key before, if any.
    pub fn insert(&mut self, key: String, meta: Meta) -> (displaced: Option<Meta>)
        ensures
            final(self)@ == old(self)@.insert(key@, meta),
            displaced == (if old(self)@.contains_key(key@) {
                Some(old(self)@[key@])
            } else {
                None
            }),
    {
        let displaced = skipmap_get(self, key.as_str());
        skipmap_insert(self, key, meta);
        displaced
    }

    /// Takes `key` out of the index. The result is the place that the index
    /// held for the key, if any.
    pub fn remove(&mut self, key: &str) -> (found: Option<Meta>)
        ensures
            final(self)@ == old(self)@.remove(key@),
            found == (if old(self)@.contains_key(key@) {
                Some(old(self)@[key@])
            } else {
                None
            }),
    {
        skipmap_remove(self, key)
    }

    /// Every entry of the index, once, in the order `order`.
    pub fn entries(&self) -> (items: Vec<(String, Meta)>)
        ensures
            lists_entries(items@, self@, self.order()),
    {
        skipmap_items(self)
    }

    /// A handle on the map of the index for a reader in another thread. The
    /// reader finds there what the writer has put there by the time it looks.
    pub fn share(&self) -> IndexReader {
        IndexReader { map: self.map.clone() }
    }
}

} // verus!
