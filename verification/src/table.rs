//! Hash collections keyed by byte strings.
//!
//! The collections are those of `hashbrown`. Each is held in a private field
//! of a struct whose inside the verifier does not read; what a collection
//! holds is named by a specification function, and each method states over
//! that name what the `hashbrown` method it calls does. None of these
//! contracts is proved: they are the trusted base of the crate.

use hashbrown::{HashMap, HashSet};
use vstd::prelude::*;

verus! {

/// A hash map from byte strings to byte strings, a
/// `hashbrown::HashMap<Vec<u8>, Vec<u8>>`.
#[verifier::external_body]
#[derive(Debug)]
pub struct ByteMap {
    inner: HashMap<Vec<u8>, Vec<u8>>,
}

/// A hash set of byte strings, a `hashbrown::HashSet<Vec<u8>>`.
#[verifier::external_body]
#[derive(Debug)]
pub struct ByteSet {
    inner: HashSet<Vec<u8>>,
}

/// A hash map from byte strings to counts, a
/// `hashbrown::HashMap<Vec<u8>, usize>`.
#[verifier::external_body]
#[derive(Debug)]
pub struct CountMap {
    inner: HashMap<Vec<u8>, usize>,
}

/// The key-value pairs that a [`ByteMap`] holds.
pub uninterp spec fn byte_map_entries(m: ByteMap) -> Map<Seq<u8>, Seq<u8>>;

/// The byte strings that a [`ByteSet`] holds.
pub uninterp spec fn byte_set_items(s: ByteSet) -> Set<Seq<u8>>;

/// The key-count pairs that a [`CountMap`] holds.
pub uninterp spec fn count_map_entries(m: CountMap) -> Map<Seq<u8>, usize>;

/// `pairs` lists the entries of `m`: every pair is an entry of `m`, every
/// key of `m` occurs, and no key occurs twice. Nothing is said of the order.
pub open spec fn lists_bytes(pairs: Seq<(Vec<u8>, Vec<u8>)>, m: Map<Seq<u8>, Seq<u8>>) -> bool {
    &&& forall|i: int|
        0 <= i < pairs.len() ==> m.dom().contains(#[trigger] pairs[i].0@) && m[pairs[i].0@]
            == pairs[i].1@
    &&& forall|i: int, j: int|
        0 <= i < j < pairs.len() ==> #[trigger] pairs[i].0@ != #[trigger] pairs[j].0@
    &&& forall|k: Seq<u8>| #[trigger]
        m.dom().contains(k) ==> exists|i: int| 0 <= i < pairs.len() && #[trigger] pairs[i].0@ == k
}

impl View for ByteMap {
    type V = Map<Seq<u8>, Seq<u8>>;

    /// The key-value pairs that the map holds.
    open spec fn view(&self) -> Map<Seq<u8>, Seq<u8>> {
        byte_map_entries(*self)
    }
}

impl View for ByteSet {
    type V = Set<Seq<u8>>;

    /// The byte strings that the set holds.
    open spec fn view(&self) -> Set<Seq<u8>> {
        byte_set_items(*self)
    }
}

impl View for CountMap {
    type V = Map<Seq<u8>, usize>;

    /// The key-count pairs that the map holds.
    open spec fn view(&self) -> Map<Seq<u8>, usize> {
        count_map_entries(*self)
    }
}

impl ByteMap {
    /// `HashMap::new`: the new map holds nothing.
    #[verifier::external_body]
    pub(crate) fn new() -> (m: ByteMap)
        ensures
            byte_map_entries(m) =~= Map::empty(),
    {
        ByteMap { inner: HashMap::new() }
    }

    /// `HashMap::insert`: the key maps to the value afterwards and no other
    /// key is touched; the result is the value that the key had before, if
    /// it had one.
    #[verifier::external_body]
    pub(crate) fn insert(&mut self, key: Vec<u8>, value: Vec<u8>) -> (prior: Option<Vec<u8>>)
        ensures
            byte_map_entries(*final(self)) == byte_map_entries(*old(self)).insert(key@, value@),
            prior.is_some() == byte_map_entries(*old(self)).dom().contains(key@),
            prior matches Some(p) ==> p@ == byte_map_entries(*old(self))[key@],
    {
        self.inner.insert(key, value)
    }

    /// `HashMap::get`: the value of the key, if the map holds the key.
    #[verifier::external_body]
    pub(crate) fn get(&self, key: &[u8]) -> (value: Option<&Vec<u8>>)
        ensures
            value.is_some() == byte_map_entries(*self).dom().contains(key@),
            value matches Some(v) ==> v@ == byte_map_entries(*self)[key@],
    {
        self.inner.get(key)
    }

    /// `HashMap::contains_key`: whether the map holds the key.
    #[verifier::external_body]
    pub(crate) fn contains_key(&self, key: &[u8]) -> (found: bool)
        ensures
            found == byte_map_entries(*self).dom().contains(key@),
    {
        self.inner.contains_key(key)
    }

    /// `HashMap::remove`: the key is gone afterwards and no other key is
    /// touched; the result is the value that the key had, if it had one.
    #[verifier::external_body]
    pub(crate) fn remove(&mut self, key: &[u8]) -> (prior: Option<Vec<u8>>)
        ensures
            byte_map_entries(*final(self)) == byte_map_entries(*old(self)).remove(key@),
            prior.is_some() == byte_map_entries(*old(self)).dom().contains(key@),
            prior matches Some(p) ==> p@ == byte_map_entries(*old(self))[key@],
    {
        self.inner.remove(key)
    }

    /// `HashMap::len`: the number of keys of the map.
    #[verifier::external_body]
    pub(crate) fn len(&self) -> (len: usize)
        ensures
            len == byte_map_entries(*self).dom().len(),
    {
        self.inner.len()
    }

    /// `HashMap::iter`, each pair copied out: the pairs of the map, each
    /// once, in the order in which the map hands them out.
    #[verifier::external_body]
    pub(crate) fn entries(&self) -> (pairs: Vec<(Vec<u8>, Vec<u8>)>)
        ensures
            lists_bytes(pairs@, byte_map_entries(*self)),
    {
        self.inner.iter().map(|(k, v)| (k.clone(), v.clone())).collect()
    }
}

impl ByteSet {
    /// `HashSet::new`: the new set holds nothing.
    #[verifier::external_body]
    pub(crate) fn new() -> (s: ByteSet)
        ensures
            byte_set_items(s) =~= Set::empty(),
    {
        ByteSet { inner: HashSet::new() }
    }

    /// `HashSet::insert`: the set holds the item afterwards and is otherwise
    /// unchanged; the result says whether the item is new to the set.
    #[verifier::external_body]
    pub(crate) fn insert(&mut self, item: Vec<u8>) -> (fresh: bool)
        ensures
            byte_set_items(*final(self)) == byte_set_items(*old(self)).insert(item@),
            fresh == !byte_set_items(*old(self)).contains(item@),
    {
        self.inner.insert(item)
    }

    /// `HashSet::len`: the number of items of the set.
    #[verifier::external_body]
    pub(crate) fn len(&self) -> (len: usize)
        ensures
            len == byte_set_items(*self).len(),
    {
        self.inner.len()
    }

    /// `HashSet::contains`: whether the set holds the item.
    #[verifier::external_body]
    pub(crate) fn contains(&self, item: &[u8]) -> (found: bool)
        ensures
            found == byte_set_items(*self).contains(item@),
    {
        self.inner.contains(item)
    }
}

impl CountMap {
    /// `HashMap::new`: the new map holds nothing.
    #[verifier::external_body]
    pub(crate) fn new() -> (m: CountMap)
        ensures
            count_map_entries(m) =~= Map::empty(),
    {
        CountMap { inner: HashMap::new() }
    }

    /// `HashMap::insert`: the key maps to the count afterwards and no other
    /// key is touched; the result is the count that the key had before, if
    /// it had one.
    #[verifier::external_body]
    pub(crate) fn insert(&mut self, key: Vec<u8>, count: usize) -> (prior: Option<usize>)
        ensures
            count_map_entries(*final(self)) == count_map_entries(*old(self)).insert(key@, count),
            prior.is_some() == count_map_entries(*old(self)).dom().contains(key@),
            prior matches Some(p) ==> p == count_map_entries(*old(self))[key@],
    {
        self.inner.insert(key, count)
    }

    /// `HashMap::get`: the count of the key, if the map holds the key.
    #[verifier::external_body]
    pub(crate) fn get(&self, key: &[u8]) -> (count: Option<usize>)
        ensures
            count.is_some() == count_map_entries(*self).dom().contains(key@),
            count matches Some(c) ==> c == count_map_entries(*self)[key@],
    {
        self.inner.get(key).copied()
    }
}

} // verus!
