//! The unambiguous one-mismatch index of a set of sequences.
//!
//! Every sequence that differs from a parent sequence in one position, where
//! it holds a symbol of the nucleotide lexicon, is a one-off of that parent.
//! The index maps each one-off that has a single parent to that parent; the
//! parents themselves and the one-offs of several parents are set aside.

use crate::library::{lists_keys, views};
use crate::sequence::{
    at_distance_one, is_symbol, lemma_distance_one_off, lemma_one_off_distance,
    lemma_substitution_position, lexicon, one_off, over_lexicon, substitutes_at, BASE_A, BASE_C,
    BASE_G, BASE_N, BASE_T,
};
use crate::table::{ByteMap, ByteSet};
use vstd::prelude::*;
use vstd::slice::{slice_subrange, slice_to_vec};

verus! {

/// The sequence at index `g` of `keys` is a parent of `child`.
pub open spec fn is_parent(keys: Seq<Seq<u8>>, g: int, child: Seq<u8>) -> bool {
    0 <= g < keys.len() && one_off(keys[g], child)
}

/// `child` is none of `keys` and has exactly one parent among them. A
/// sequence that occurs twice in `keys` counts as two parents.
pub open spec fn unambiguous(keys: Seq<Seq<u8>>, child: Seq<u8>) -> bool {
    &&& !keys.contains(child)
    &&& exists|g: int| is_parent(keys, g, child)
    &&& forall|g: int, h: int|
        is_parent(keys, g, child) && is_parent(keys, h, child) ==> g == h
}

/// `child` has two parents or more among `keys`.
pub open spec fn ambiguous(keys: Seq<Seq<u8>>, child: Seq<u8>) -> bool {
    exists|g: int, h: int| g != h && is_parent(keys, g, child) && is_parent(keys, h, child)
}

/// `table` and `null` are the one-mismatch index of `keys`: `table` maps
/// each unambiguous one-off to its parent, and `null` holds the keys and the
/// ambiguous one-offs.
pub open spec fn indexes(
    table: Map<Seq<u8>, Seq<u8>>,
    null: Set<Seq<u8>>,
    keys: Seq<Seq<u8>>,
) -> bool {
    &&& forall|n: Seq<u8>| #[trigger] table.dom().contains(n) <==> unambiguous(keys, n)
    &&& forall|n: Seq<u8>, g: int|
        table.dom().contains(n) && #[trigger] is_parent(keys, g, n) ==> table[n] == keys[g]
    &&& forall|n: Seq<u8>| #[trigger] null.contains(n) <==> keys.contains(n) || ambiguous(keys, n)
}

/// No sequence is both in the map and set aside, and every key is set
/// aside.
pub open spec fn sets_keys_aside(
    table: Map<Seq<u8>, Seq<u8>>,
    null: Set<Seq<u8>>,
    keys: Seq<Seq<u8>>,
) -> bool {
    &&& table.dom().disjoint(null)
    &&& forall|k: Seq<u8>| keys.contains(k) ==> null.contains(k)
}

/// The map gives for each of its sequences a key at Hamming distance 1, and
/// for a sequence that is written in the symbols of the lexicon no other
/// key is at Hamming distance 1.
pub open spec fn maps_to_sole_parents(table: Map<Seq<u8>, Seq<u8>>, keys: Seq<Seq<u8>>) -> bool {
    &&& forall|n: Seq<u8>| #[trigger]
        table.dom().contains(n) ==> keys.contains(table[n]) && at_distance_one(table[n], n)
    &&& forall|n: Seq<u8>, s: Seq<u8>|
        table.dom().contains(n) && over_lexicon(n) && keys.contains(s)
            && #[trigger] at_distance_one(s, n) ==> s == table[n]
}

/// In the index of a list of keys, no sequence is both in the map and set
/// aside, every key is set aside, and the map gives for each of its
/// sequences the one key at Hamming distance 1. Where a sequence of the map
/// holds a byte that is no symbol of the lexicon, another key may be at
/// Hamming distance 1 as well: one that differs from it at that byte.
pub proof fn lemma_index_laws(
    table: Map<Seq<u8>, Seq<u8>>,
    null: Set<Seq<u8>>,
    keys: Seq<Seq<u8>>,
)
    requires
        indexes(table, null, keys),
    ensures
        sets_keys_aside(table, null, keys),
        maps_to_sole_parents(table, keys),
{
    assert forall|n: Seq<u8>| !(table.dom().contains(n) && null.contains(n)) by {
        if table.dom().contains(n) && null.contains(n) {
            assert(unambiguous(keys, n));
            assert(ambiguous(keys, n));
        }
    }
    assert forall|n: Seq<u8>| #[trigger] table.dom().contains(n) implies keys.contains(table[n])
        && at_distance_one(table[n], n) by {
        assert(unambiguous(keys, n));
        let g = choose|g: int| is_parent(keys, g, n);
        assert(table[n] == keys[g]);
        lemma_one_off_distance(keys[g], n);
    }
    assert forall|n: Seq<u8>, s: Seq<u8>|
        table.dom().contains(n) && over_lexicon(n) && keys.contains(s)
            && #[trigger] at_distance_one(s, n) implies s == table[n] by {
        assert(unambiguous(keys, n));
        let g = choose|g: int| is_parent(keys, g, n);
        assert(table[n] == keys[g]);
        let h = choose|h: int| 0 <= h < keys.len() && keys[h] == s;
        lemma_distance_one_off(s, n);
        assert(is_parent(keys, h, n));
    }
}

/// `child` is no key of the library and is a one-off of exactly one of its
/// keys.
pub open spec fn has_sole_parent(library: Map<Seq<u8>, Seq<u8>>, child: Seq<u8>) -> bool {
    &&& !library.dom().contains(child)
    &&& exists|k: Seq<u8>| library.dom().contains(k) && one_off(k, child)
    &&& forall|k: Seq<u8>, l: Seq<u8>|
        library.dom().contains(k) && one_off(k, child) && library.dom().contains(l) && one_off(
            l,
            child,
        ) ==> k == l
}

/// The one-mismatch index of the keys of a library: the map from each
/// sequence that has a sole parent among the keys to that parent.
pub open spec fn one_off_index(library: Map<Seq<u8>, Seq<u8>>) -> Map<Seq<u8>, Seq<u8>> {
    Map::new(
        |child: Seq<u8>| has_sole_parent(library, child),
        |child: Seq<u8>| choose|k: Seq<u8>| library.dom().contains(k) && one_off(k, child),
    )
}

/// The index of a list of the keys of a library is the one-mismatch index
/// of the library, whatever the order of the list.
pub proof fn lemma_index_of_keys(
    table: Map<Seq<u8>, Seq<u8>>,
    null: Set<Seq<u8>>,
    keys: Seq<Seq<u8>>,
    library: Map<Seq<u8>, Seq<u8>>,
)
    requires
        indexes(table, null, keys),
        lists_keys(keys, library),
    ensures
        table == one_off_index(library),
{
    let index = one_off_index(library);
    assert forall|n: Seq<u8>| table.dom().contains(n) == index.dom().contains(n) by {
        if keys.contains(n) {
            let i = choose|i: int| 0 <= i < keys.len() && keys[i] == n;
            assert(library.dom().contains(keys[i]));
        }
        if library.dom().contains(n) {
            let i = choose|i: int| 0 <= i < keys.len() && #[trigger] keys[i] == n;
            assert(keys[i] == n);
        }
        if unambiguous(keys, n) {
            let g = choose|g: int| is_parent(keys, g, n);
            assert(library.dom().contains(keys[g]));
            assert forall|k: Seq<u8>, l: Seq<u8>|
                library.dom().contains(k) && one_off(k, n) && library.dom().contains(l) && one_off(
                    l,
                    n,
                ) implies k == l by {
                let a = choose|a: int| 0 <= a < keys.len() && #[trigger] keys[a] == k;
                let b = choose|b: int| 0 <= b < keys.len() && #[trigger] keys[b] == l;
                assert(is_parent(keys, a, n) && is_parent(keys, b, n));
            }
            assert(has_sole_parent(library, n));
        }
        if has_sole_parent(library, n) {
            let k = choose|k: Seq<u8>| library.dom().contains(k) && one_off(k, n);
            let a = choose|a: int| 0 <= a < keys.len() && #[trigger] keys[a] == k;
            assert(is_parent(keys, a, n));
            assert forall|g: int, h: int|
                is_parent(keys, g, n) && is_parent(keys, h, n) implies g == h by {
                assert(library.dom().contains(keys[g]) && library.dom().contains(keys[h]));
                assert(keys[g] == keys[h]);
            }
            assert(unambiguous(keys, n));
        }
    }
    assert forall|n: Seq<u8>| table.dom().contains(n) implies table[n] == index[n] by {
        assert(unambiguous(keys, n));
        let g = choose|g: int| is_parent(keys, g, n);
        assert(library.dom().contains(keys[g]));
        assert(has_sole_parent(library, n));
    }
    assert(table =~= index);
}

/// The key at index `g` has claimed `n` when the keys before index `i` have
/// been worked through and the key at `i` has brought forth `partial`.
spec fn claims(keys: Seq<Seq<u8>>, i: int, partial: Seq<Seq<u8>>, g: int, n: Seq<u8>) -> bool {
    ||| 0 <= g < i && g < keys.len() && one_off(keys[g], n)
    ||| g == i && partial.contains(n)
}

/// Exactly one key has claimed `n`.
spec fn claimed_once(keys: Seq<Seq<u8>>, i: int, partial: Seq<Seq<u8>>, n: Seq<u8>) -> bool {
    &&& exists|g: int| claims(keys, i, partial, g, n)
    &&& forall|g: int, h: int|
        claims(keys, i, partial, g, n) && claims(keys, i, partial, h, n) ==> g == h
}

/// Two keys or more have claimed `n`.
spec fn claimed_twice(keys: Seq<Seq<u8>>, i: int, partial: Seq<Seq<u8>>, n: Seq<u8>) -> bool {
    exists|g: int, h: int|
        g != h && claims(keys, i, partial, g, n) && claims(keys, i, partial, h, n)
}

/// What holds of the two collections while the index is built.
spec fn partly_indexes(
    table: Map<Seq<u8>, Seq<u8>>,
    null: Set<Seq<u8>>,
    keys: Seq<Seq<u8>>,
    i: int,
    partial: Seq<Seq<u8>>,
) -> bool {
    &&& forall|n: Seq<u8>| #[trigger]
        table.dom().contains(n) <==> !keys.contains(n) && claimed_once(keys, i, partial, n)
    &&& forall|n: Seq<u8>, g: int|
        table.dom().contains(n) && #[trigger] claims(keys, i, partial, g, n) ==> 0 <= g
            < keys.len() && table[n] == keys[g]
    &&& forall|n: Seq<u8>| #[trigger]
        null.contains(n) <==> keys.contains(n) || claimed_twice(keys, i, partial, n)
}

/// `children` lists the one-offs of `parent`, each once.
pub open spec fn lists_one_offs(children: Seq<Seq<u8>>, parent: Seq<u8>) -> bool {
    &&& forall|k: int| 0 <= k < children.len() ==> one_off(parent, #[trigger] children[k])
    &&& forall|k: int, l: int|
        0 <= k < l < children.len() ==> #[trigger] children[k] != #[trigger] children[l]
    &&& forall|n: Seq<u8>| #[trigger] one_off(parent, n) ==> children.contains(n)
}

/// `child` is `parent` with a byte replaced at a position before `end`.
spec fn substitutes_before(parent: Seq<u8>, child: Seq<u8>, end: int) -> bool {
    exists|p: int| 0 <= p < end && substitutes_at(parent, child, p)
}

/// The index of a byte in the lexicon, or 5 if the byte is no symbol.
spec fn rank(c: u8) -> int {
    if c == BASE_A {
        0
    } else if c == BASE_C {
        1
    } else if c == BASE_G {
        2
    } else if c == BASE_T {
        3
    } else if c == BASE_N {
        4
    } else {
        5
    }
}

/// The symbol of the lexicon at the given index.
fn symbol(index: usize) -> (c: u8)
    requires
        index < 5,
    ensures
        c == lexicon()[index as int],
        is_symbol(c),
        rank(c) == index,
{
    if index == 0 {
        BASE_A
    } else if index == 1 {
        BASE_C
    } else if index == 2 {
        BASE_G
    } else if index == 3 {
        BASE_T
    } else {
        BASE_N
    }
}

/// A sequence with one more item holds that item and what it held before.
proof fn lemma_push_contains(s: Seq<Seq<u8>>, m: Seq<u8>, n: Seq<u8>)
    ensures
        s.push(m).contains(n) <==> s.contains(n) || n == m,
{
    if s.contains(n) {
        let k = choose|k: int| 0 <= k < s.len() && s[k] == n;
        assert(s.push(m)[k] == n);
    }
    if n == m {
        assert(s.push(m)[s.len() as int] == n);
    }
}

/// One step of the build keeps what holds while the index is built.
proof fn lemma_claim(
    table: Map<Seq<u8>, Seq<u8>>,
    null: Set<Seq<u8>>,
    keys: Seq<Seq<u8>>,
    i: int,
    partial: Seq<Seq<u8>>,
    m: Seq<u8>,
    table_after: Map<Seq<u8>, Seq<u8>>,
    null_after: Set<Seq<u8>>,
)
    requires
        0 <= i < keys.len(),
        partly_indexes(table, null, keys, i, partial),
        !partial.contains(m),
        null.contains(m) ==> table_after == table && null_after == null,
        !null.contains(m) && table.dom().contains(m) ==> table_after == table.remove(m)
            && null_after == null.insert(m),
        !null.contains(m) && !table.dom().contains(m) ==> table_after == table.insert(m, keys[i])
            && null_after == null,
    ensures
        partly_indexes(table_after, null_after, keys, i, partial.push(m)),
{
    let grown = partial.push(m);
    assert forall|g: int, n: Seq<u8>|
        claims(keys, i, grown, g, n) == (claims(keys, i, partial, g, n) || (g == i && n == m)) by {
        lemma_push_contains(partial, m, n);
    }
    assert(claims(keys, i, grown, i, m));
    assert(!claims(keys, i, partial, i, m));
    assert forall|n: Seq<u8>| n != m implies claimed_once(keys, i, grown, n) == claimed_once(
        keys,
        i,
        partial,
        n,
    ) && claimed_twice(keys, i, grown, n) == claimed_twice(keys, i, partial, n) by {
        if claimed_once(keys, i, partial, n) {
            let g = choose|g: int| claims(keys, i, partial, g, n);
            assert(claims(keys, i, grown, g, n));
        }
        if claimed_once(keys, i, grown, n) {
            let g = choose|g: int| claims(keys, i, grown, g, n);
            assert(claims(keys, i, partial, g, n));
        }
        if claimed_twice(keys, i, partial, n) {
            let (g, h) = choose|g: int, h: int|
                g != h && claims(keys, i, partial, g, n) && claims(keys, i, partial, h, n);
            assert(claims(keys, i, grown, g, n) && claims(keys, i, grown, h, n));
        }
        if claimed_twice(keys, i, grown, n) {
            let (g, h) = choose|g: int, h: int|
                g != h && claims(keys, i, grown, g, n) && claims(keys, i, grown, h, n);
            assert(claims(keys, i, partial, g, n) && claims(keys, i, partial, h, n));
        }
    }
    if null.contains(m) {
        if keys.contains(m) {
        } else {
            let (g, h) = choose|g: int, h: int|
                g != h && claims(keys, i, partial, g, m) && claims(keys, i, partial, h, m);
            assert(claims(keys, i, grown, g, m) && claims(keys, i, grown, h, m));
            assert(claimed_twice(keys, i, grown, m));
            assert(!claimed_once(keys, i, grown, m));
        }
    } else if table.dom().contains(m) {
        let g = choose|g: int| claims(keys, i, partial, g, m);
        assert(g != i);
        assert(claims(keys, i, grown, g, m) && claims(keys, i, grown, i, m));
        assert(claimed_twice(keys, i, grown, m));
        assert(!claimed_once(keys, i, grown, m));
    } else {
        assert(!keys.contains(m));
        assert(!claimed_twice(keys, i, partial, m));
        assert(!claimed_once(keys, i, partial, m));
        assert forall|g: int| !claims(keys, i, partial, g, m) by {
            if claims(keys, i, partial, g, m) {
                if forall|a: int, b: int|
                    claims(keys, i, partial, a, m) && claims(keys, i, partial, b, m) ==> a == b {
                    assert(claimed_once(keys, i, partial, m));
                } else {
                    let (a, b) = choose|a: int, b: int|
                        claims(keys, i, partial, a, m) && claims(keys, i, partial, b, m) && a != b;
                    assert(claimed_twice(keys, i, partial, m));
                }
            }
        }
        assert(claimed_once(keys, i, grown, m));
        assert(!claimed_twice(keys, i, grown, m)) by {
            if claimed_twice(keys, i, grown, m) {
                let (g, h) = choose|g: int, h: int|
                    g != h && claims(keys, i, grown, g, m) && claims(keys, i, grown, h, m);
                assert(g == i && h == i);
            }
        }
    }
    assert forall|n: Seq<u8>| #[trigger]
        table_after.dom().contains(n) <==> !keys.contains(n) && claimed_once(
            keys,
            i,
            grown,
            n,
        ) by {
        if n != m {
            assert(table_after.dom().contains(n) == table.dom().contains(n));
        }
    }
    assert forall|n: Seq<u8>, g: int|
        table_after.dom().contains(n) && #[trigger] claims(keys, i, grown, g, n) implies 0 <= g
        < keys.len() && table_after[n] == keys[g] by {
        if n != m {
            assert(table.dom().contains(n));
            assert(claims(keys, i, partial, g, n));
        } else {
            assert(!null.contains(m) && !table.dom().contains(m));
            assert(g == i);
        }
    }
    assert forall|n: Seq<u8>| #[trigger]
        null_after.contains(n) <==> keys.contains(n) || claimed_twice(keys, i, grown, n) by {
        if n != m {
            assert(null_after.contains(n) == null.contains(n));
        }
    }
}

/// When a key has brought forth all its one-offs, the build stands where
/// it begins with the next key.
proof fn lemma_next_key(
    table: Map<Seq<u8>, Seq<u8>>,
    null: Set<Seq<u8>>,
    keys: Seq<Seq<u8>>,
    i: int,
    children: Seq<Seq<u8>>,
)
    requires
        0 <= i < keys.len(),
        partly_indexes(table, null, keys, i, children),
        lists_one_offs(children, keys[i]),
    ensures
        partly_indexes(table, null, keys, i + 1, Seq::empty()),
{
    let none = Seq::<Seq<u8>>::empty();
    let next = i + 1;
    assert forall|g: int, n: Seq<u8>| claims(keys, i, children, g, n) == claims(
        keys,
        next,
        none,
        g,
        n,
    ) by {
        if children.contains(n) {
            let k = choose|k: int| 0 <= k < children.len() && children[k] == n;
            assert(one_off(keys[i], children[k]));
        }
    }
    assert forall|n: Seq<u8>| claimed_once(keys, i, children, n) == claimed_once(
        keys,
        next,
        none,
        n,
    ) && claimed_twice(keys, i, children, n) == claimed_twice(keys, next, none, n) by {
        if claimed_once(keys, i, children, n) {
            let g = choose|g: int| claims(keys, i, children, g, n);
            assert(claims(keys, next, none, g, n));
        }
        if claimed_once(keys, next, none, n) {
            let g = choose|g: int| claims(keys, next, none, g, n);
            assert(claims(keys, i, children, g, n));
        }
        if claimed_twice(keys, i, children, n) {
            let (g, h) = choose|g: int, h: int|
                g != h && claims(keys, i, children, g, n) && claims(keys, i, children, h, n);
            assert(claims(keys, next, none, g, n) && claims(keys, next, none, h, n));
        }
        if claimed_twice(keys, next, none, n) {
            let (g, h) = choose|g: int, h: int|
                g != h && claims(keys, next, none, g, n) && claims(keys, next, none, h, n);
            assert(claims(keys, i, children, g, n) && claims(keys, i, children, h, n));
        }
    }
    assert forall|n: Seq<u8>, g: int|
        table.dom().contains(n) && #[trigger] claims(keys, next, none, g, n) implies 0 <= g
        < keys.len() && table[n] == keys[g] by {
        assert(claims(keys, i, children, g, n));
    }
}

/// When every key has been worked through, the index is built.
proof fn lemma_built(table: Map<Seq<u8>, Seq<u8>>, null: Set<Seq<u8>>, keys: Seq<Seq<u8>>)
    requires
        partly_indexes(table, null, keys, keys.len() as int, Seq::empty()),
    ensures
        indexes(table, null, keys),
{
    let none = Seq::<Seq<u8>>::empty();
    let all = keys.len() as int;
    assert forall|g: int, n: Seq<u8>| claims(keys, all, none, g, n) == is_parent(keys, g, n) by {}
    assert forall|n: Seq<u8>| claimed_once(keys, all, none, n) == (unambiguous(keys, n)
        || (keys.contains(n) && claimed_once(keys, all, none, n))) && claimed_twice(
        keys,
        all,
        none,
        n,
    ) == ambiguous(keys, n) by {
        if claimed_once(keys, all, none, n) {
            let g = choose|g: int| claims(keys, all, none, g, n);
            assert(is_parent(keys, g, n));
            assert forall|a: int, b: int|
                is_parent(keys, a, n) && is_parent(keys, b, n) implies a == b by {
                assert(claims(keys, all, none, a, n) && claims(keys, all, none, b, n));
            }
        }
        if unambiguous(keys, n) {
            let g = choose|g: int| is_parent(keys, g, n);
            assert(claims(keys, all, none, g, n));
            assert forall|a: int, b: int|
                claims(keys, all, none, a, n) && claims(keys, all, none, b, n) implies a == b by {
                assert(is_parent(keys, a, n) && is_parent(keys, b, n));
            }
        }
        if claimed_twice(keys, all, none, n) {
            let (g, h) = choose|g: int, h: int|
                g != h && claims(keys, all, none, g, n) && claims(keys, all, none, h, n);
            assert(is_parent(keys, g, n) && is_parent(keys, h, n));
        }
        if ambiguous(keys, n) {
            let (g, h) = choose|g: int, h: int|
                g != h && is_parent(keys, g, n) && is_parent(keys, h, n);
            assert(claims(keys, all, none, g, n) && claims(keys, all, none, h, n));
        }
    }
    assert forall|n: Seq<u8>, g: int|
        table.dom().contains(n) && #[trigger] is_parent(keys, g, n) implies table[n]
        == keys[g] by {
        assert(claims(keys, all, none, g, n));
    }
}

/// The unambiguous one-mismatch index of a list of sequences.
pub struct Permuter {
    map: ByteMap,
    null: ByteSet,
    parents: Ghost<Seq<Seq<u8>>>,
}

impl View for Permuter {
    type V = Map<Seq<u8>, Seq<u8>>;

    /// The map from each unambiguous one-off to its parent.
    closed spec fn view(&self) -> Map<Seq<u8>, Seq<u8>> {
        self.map@
    }
}

impl Permuter {
    /// The sequences set aside: the parents and the ambiguous one-offs.
    pub closed spec fn null(&self) -> Set<Seq<u8>> {
        self.null@
    }

    /// The sequences that the index was built from.
    pub closed spec fn parents(&self) -> Seq<Seq<u8>> {
        self.parents@
    }

    /// The two collections are finite and are the index of the parents.
    pub open spec fn wf(&self) -> bool {
        &&& self@.dom().finite()
        &&& self.null().finite()
        &&& indexes(self@, self.null(), self.parents())
    }

    /// Builds the index of the given sequences.
    pub fn new(sequences: &Vec<Vec<u8>>) -> (permuter: Permuter)
        ensures
            permuter.wf(),
            permuter.parents() == views(sequences@),
            sets_keys_aside(permuter@, permuter.null(), views(sequences@)),
            maps_to_sole_parents(permuter@, views(sequences@)),
    {
        let (map, null) = Self::build(sequences);
        Permuter { map, null, parents: Ghost(views(sequences@)) }
    }

    /// The parent of a sequence, if the sequence is an unambiguous one-off.
    pub fn contains(&self, token: &[u8]) -> (parent: Option<&Vec<u8>>)
        ensures
            parent.is_some() == self@.dom().contains(token@),
            parent matches Some(p) ==> p@ == self@[token@],
    {
        self.map.get(token)
    }

    /// Whether a sequence is set aside: a parent, or an ambiguous one-off.
    pub fn is_null(&self, token: &[u8]) -> (found: bool)
        ensures
            found == self.null().contains(token@),
    {
        self.null.contains(token)
    }

    /// The number of unambiguous one-offs.
    pub fn len(&self) -> (len: usize)
        ensures
            len == self@.dom().len(),
    {
        self.map.len()
    }

    /// The number of sequences set aside.
    pub fn null_len(&self) -> (len: usize)
        ensures
            len == self.null().len(),
    {
        self.null.len()
    }

    /// A one-off in the map and a sequence set aside are never the same, and
    /// every parent is set aside.
    pub proof fn lemma_disjoint(self)
        requires
            self.wf(),
        ensures
            self@.dom().disjoint(self.null()),
            forall|k: Seq<u8>| self.parents().contains(k) ==> self.null().contains(k),
    {
        lemma_index_laws(self@, self.null(), self.parents());
    }

    /// A one-off in the map that is written in the symbols of the lexicon
    /// has exactly one parent at Hamming distance 1: the one that the map
    /// gives for it.
    pub proof fn lemma_unique_parent(self, n: Seq<u8>)
        requires
            self.wf(),
            self@.dom().contains(n),
            over_lexicon(n),
        ensures
            self.parents().contains(self@[n]),
            at_distance_one(self@[n], n),
            forall|s: Seq<u8>|
                self.parents().contains(s) && at_distance_one(s, n) ==> s == self@[n],
    {
        lemma_index_laws(self@, self.null(), self.parents());
    }

    /// Builds the two collections, the map and the set of the sequences set
    /// aside: first every sequence is set aside as a parent, then the
    /// one-offs of each sequence are worked through.
    pub fn build(sequences: &Vec<Vec<u8>>) -> (built: (ByteMap, ByteSet))
        ensures
            built.0@.dom().finite(),
            built.1@.finite(),
            indexes(built.0@, built.1@, views(sequences@)),
            sets_keys_aside(built.0@, built.1@, views(sequences@)),
            maps_to_sole_parents(built.0@, views(sequences@)),
    {
        let ghost keys = views(sequences@);
        let mut table = ByteMap::new();
        let mut null = ByteSet::new();
        let mut j: usize = 0;
        while j < sequences.len()
            invariant
                j <= sequences.len(),
                keys == views(sequences@),
                null@.finite(),
                forall|n: Seq<u8>| #[trigger]
                    null@.contains(n) <==> exists|k: int| 0 <= k < j && #[trigger] keys[k] == n,
            decreases sequences.len() - j,
        {
            let ghost before = null@;
            null.insert(slice_to_vec(sequences[j].as_slice()));
            proof {
                assert forall|n: Seq<u8>| #[trigger]
                    null@.contains(n) <==> exists|k: int| 0 <= k < j + 1 && #[trigger] keys[k]
                        == n by {
                    if before.contains(n) {
                        let k = choose|k: int| 0 <= k < j && #[trigger] keys[k] == n;
                        assert(keys[k] == n);
                    }
                    if n == keys[j as int] {
                        assert(keys[j as int] == n);
                    }
                }
            }
            j = j + 1;
        }
        proof {
            let none = Seq::<Seq<u8>>::empty();
            assert forall|g: int, n: Seq<u8>| !claims(keys, 0, none, g, n) by {}
            assert forall|n: Seq<u8>| !claimed_once(keys, 0, none, n) && !claimed_twice(
                keys,
                0,
                none,
                n,
            ) by {}
            assert forall|n: Seq<u8>| #[trigger] null@.contains(n) <==> keys.contains(n) by {
                if keys.contains(n) {
                    let k = choose|k: int| 0 <= k < keys.len() && keys[k] == n;
                    assert(keys[k] == n);
                }
            }
        }
        let mut i: usize = 0;
        while i < sequences.len()
            invariant
                i <= sequences.len(),
                keys == views(sequences@),
                table@.dom().finite(),
                null@.finite(),
                partly_indexes(table@, null@, keys, i as int, Seq::empty()),
            decreases sequences.len() - i,
        {
            let permutations = Self::permute_sequence(sequences[i].as_slice());
            let ghost children = views(permutations@);
            assert(children.take(0) =~= Seq::empty());
            let mut k: usize = 0;
            while k < permutations.len()
                invariant
                    i < sequences.len(),
                    k <= permutations.len(),
                    keys == views(sequences@),
                    children == views(permutations@),
                    lists_one_offs(children, keys[i as int]),
                    table@.dom().finite(),
                    null@.finite(),
                    partly_indexes(table@, null@, keys, i as int, children.take(k as int)),
                decreases permutations.len() - k,
            {
                let ghost table_before = table@;
                let ghost null_before = null@;
                Self::insert_sequence(
                    sequences[i].as_slice(),
                    &permutations[k],
                    &mut null,
                    &mut table,
                );
                proof {
                    let partial = children.take(k as int);
                    let m = children[k as int];
                    assert(!partial.contains(m)) by {
                        if partial.contains(m) {
                            let l = choose|l: int| 0 <= l < partial.len() && partial[l] == m;
                            assert(children[l] != children[k as int]);
                        }
                    }
                    lemma_claim(
                        table_before,
                        null_before,
                        keys,
                        i as int,
                        partial,
                        m,
                        table@,
                        null@,
                    );
                    assert(children.take(k + 1) == partial.push(m));
                }
                k = k + 1;
            }
            proof {
                assert(children.take(k as int) == children);
                lemma_next_key(table@, null@, keys, i as int, children);
            }
            i = i + 1;
        }
        proof {
            lemma_built(table@, null@, keys);
            lemma_index_laws(table@, null@, keys);
        }
        (table, null)
    }

    /// All the one-offs of a sequence.
    fn permute_sequence(sequence: &[u8]) -> (permutations: Vec<Vec<u8>>)
        ensures
            lists_one_offs(views(permutations@), sequence@),
    {
        let mut permutations: Vec<Vec<u8>> = Vec::new();
        let mut idx: usize = 0;
        while idx < sequence.len()
            invariant
                idx <= sequence.len(),
                forall|k: int|
                    0 <= k < permutations.len() ==> substitutes_before(
                        sequence@,
                        (#[trigger] permutations[k])@,
                        idx as int,
                    ),
                forall|k: int, l: int|
                    0 <= k < l < permutations.len() ==> (#[trigger] permutations[k])@
                        != (#[trigger] permutations[l])@,
                forall|n: Seq<u8>| #[trigger]
                    substitutes_before(sequence@, n, idx as int) ==> views(permutations@).contains(
                        n,
                    ),
            decreases sequence.len() - idx,
        {
            let (prefix, poschar, suffix) = Self::sequence_regions(sequence, idx);
            assert(suffix@ =~= poschar@.skip(1));
            assert(prefix@ + poschar@ =~= sequence@);
            let mut fresh = Self::build_permutations(prefix, suffix, poschar);
            let ghost before = permutations@;
            let ghost added = fresh@;
            let ghost end = idx as int;
            permutations.append(&mut fresh);
            proof {
                assert forall|k: int| 0 <= k < permutations.len() implies substitutes_before(
                    sequence@,
                    (#[trigger] permutations[k])@,
                    end + 1,
                ) by {
                    if k < before.len() {
                        assert(permutations[k] == before[k]);
                        let p = choose|p: int|
                            0 <= p < end && substitutes_at(sequence@, before[k]@, p);
                        assert(substitutes_at(sequence@, permutations[k]@, p));
                    } else {
                        assert(permutations[k] == added[k - before.len()]);
                        assert(substitutes_at(sequence@, permutations[k]@, end));
                    }
                }
                assert forall|k: int, l: int| 0 <= k < l < permutations.len() implies (
                #[trigger] permutations[k])@ != (#[trigger] permutations[l])@ by {
                    if l < before.len() {
                        assert(permutations[k] == before[k] && permutations[l] == before[l]);
                    } else if k >= before.len() {
                        assert(permutations[k] == added[k - before.len()]);
                        assert(permutations[l] == added[l - before.len()]);
                    } else {
                        assert(permutations[k] == before[k]);
                        assert(permutations[l] == added[l - before.len()]);
                        let p = choose|p: int|
                            0 <= p < end && substitutes_at(sequence@, before[k]@, p);
                        if permutations[k]@ == permutations[l]@ {
                            lemma_substitution_position(sequence@, permutations[k]@, p, end);
                        }
                    }
                }
                assert forall|n: Seq<u8>| #[trigger]
                    substitutes_before(sequence@, n, end + 1) implies views(
                    permutations@,
                ).contains(n) by {
                    let p = choose|p: int| 0 <= p < end + 1 && substitutes_at(sequence@, n, p);
                    if p < end {
                        assert(substitutes_before(sequence@, n, end));
                        assert(views(before).contains(n));
                        let k = choose|k: int| 0 <= k < before.len() && views(before)[k] == n;
                        assert(permutations[k] == before[k]);
                        assert(views(permutations@)[k] == n);
                    } else {
                        assert(views(added).contains(n));
                        let k = choose|k: int| 0 <= k < added.len() && views(added)[k] == n;
                        assert(permutations[before.len() + k] == added[k]);
                        assert(views(permutations@)[before.len() + k] == n);
                    }
                }
            }
            idx = idx + 1;
        }
        proof {
            let children = views(permutations@);
            assert forall|k: int| 0 <= k < children.len() implies one_off(
                sequence@,
                #[trigger] children[k],
            ) by {
                assert(substitutes_before(sequence@, permutations[k]@, idx as int));
                let p = choose|p: int|
                    0 <= p < idx && substitutes_at(sequence@, permutations[k]@, p);
                assert(substitutes_at(sequence@, children[k], p));
            }
            assert forall|n: Seq<u8>| #[trigger] one_off(sequence@, n) implies children.contains(
                n,
            ) by {
                let p = choose|p: int| substitutes_at(sequence@, n, p);
                assert(substitutes_before(sequence@, n, idx as int));
            }
        }
        permutations
    }

    /// Splits a sequence at an index: what stands before the index, what
    /// stands from the index on, and what stands after the index.
    fn sequence_regions(sequence: &[u8], idx: usize) -> (regions: (&[u8], &[u8], &[u8]))
        requires
            idx < sequence.len(),
        ensures
            regions.0@ == sequence@.subrange(0, idx as int),
            regions.1@ == sequence@.subrange(idx as int, sequence.len() as int),
            regions.2@ == sequence@.subrange(idx + 1, sequence.len() as int),
    {
        let prefix = slice_subrange(sequence, 0, idx);
        let poschar = slice_subrange(sequence, idx, sequence.len());
        let suffix = slice_subrange(sequence, idx + 1, sequence.len());
        (prefix, poschar, suffix)
    }

    /// The one-offs of a sequence at one position: the sequence is `prefix`
    /// followed by `poschar`, and `suffix` is `poschar` without its first
    /// byte, the byte that is replaced.
    fn build_permutations(prefix: &[u8], suffix: &[u8], poschar: &[u8]) -> (permutations: Vec<
        Vec<u8>,
    >)
        requires
            poschar@.len() > 0,
            suffix@ == poschar@.skip(1),
        ensures
            forall|k: int|
                0 <= k < permutations.len() ==> substitutes_at(
                    prefix@ + poschar@,
                    (#[trigger] permutations[k])@,
                    prefix@.len() as int,
                ),
            forall|k: int, l: int|
                0 <= k < l < permutations.len() ==> (#[trigger] permutations[k])@
                    != (#[trigger] permutations[l])@,
            forall|n: Seq<u8>| #[trigger]
                substitutes_at(prefix@ + poschar@, n, prefix@.len() as int) ==> views(
                    permutations@,
                ).contains(n),
    {
        let ghost whole = prefix@ + poschar@;
        let ghost at = prefix@.len() as int;
        let mut permutations: Vec<Vec<u8>> = Vec::new();
        let mut y: usize = 0;
        while y < 5
            invariant
                y <= 5,
                poschar@.len() > 0,
                suffix@ == poschar@.skip(1),
                whole == prefix@ + poschar@,
                at == prefix@.len(),
                forall|k: int|
                    0 <= k < permutations.len() ==> substitutes_at(
                        whole,
                        (#[trigger] permutations[k])@,
                        at,
                    ) && rank(permutations[k]@[at]) < y,
                forall|k: int, l: int|
                    0 <= k < l < permutations.len() ==> (#[trigger] permutations[k])@
                        != (#[trigger] permutations[l])@,
                forall|n: Seq<u8>| #[trigger]
                    substitutes_at(whole, n, at) && rank(n[at]) < y ==> views(
                        permutations@,
                    ).contains(n),
            decreases 5 - y,
        {
            let c = symbol(y);
            let ghost before = permutations@;
            if c != poschar[0] {
                let permutation = Self::build_permutation(prefix, suffix, c);
                proof {
                    assert(permutation@ =~= whole.update(at, c));
                    assert(substitutes_at(whole, permutation@, at));
                }
                permutations.push(permutation);
                proof {
                    assert(views(permutations@)[before.len() as int] == permutation@);
                    assert forall|n: Seq<u8>| #[trigger]
                        substitutes_at(whole, n, at) && rank(n[at]) == y implies views(
                        permutations@,
                    ).contains(n) by {
                        assert(n =~= permutation@);
                    }
                }
            } else {
                assert(whole[at] == poschar@[0]);
            }
            proof {
                assert forall|n: Seq<u8>| #[trigger]
                    substitutes_at(whole, n, at) && rank(n[at]) < y implies views(
                    permutations@,
                ).contains(n) by {
                    assert(views(before).contains(n));
                    let k = choose|k: int| 0 <= k < before.len() && views(before)[k] == n;
                    assert(views(permutations@)[k] == n);
                }
            }
            y = y + 1;
        }
        permutations
    }

    /// Stitches a prefix, one byte and a suffix together.
    fn build_permutation(prefix: &[u8], suffix: &[u8], insertion: u8) -> (sequence: Vec<u8>)
        ensures
            sequence@ == prefix@ + seq![insertion] + suffix@,
    {
        let mut sequence: Vec<u8> = slice_to_vec(prefix);
        sequence.push(insertion);
        let mut rest = slice_to_vec(suffix);
        sequence.append(&mut rest);
        sequence
    }

    /// Takes one one-off of a parent into the two collections. A one-off
    /// that is set aside is passed over. One that the map holds already has
    /// a second parent: it leaves the map and is set aside. Any other enters
    /// the map with its parent.
    fn insert_sequence(
        sequence: &[u8],
        permutation: &Vec<u8>,
        null: &mut ByteSet,
        table: &mut ByteMap,
    )
        requires
            old(null)@.finite(),
            old(table)@.dom().finite(),
        ensures
            final(null)@.finite(),
            final(table)@.dom().finite(),
            old(null)@.contains(permutation@) ==> final(table)@ == old(table)@ && final(null)@
                == old(null)@,
            !old(null)@.contains(permutation@) && old(table)@.dom().contains(permutation@)
                ==> final(table)@ == old(table)@.remove(permutation@) && final(null)@ == old(
                null,
            )@.insert(permutation@),
            !old(null)@.contains(permutation@) && !old(table)@.dom().contains(permutation@)
                ==> final(table)@ == old(table)@.insert(permutation@, sequence@) && final(null)@
                == old(null)@,
    {
        if !null.contains(permutation.as_slice()) {
            if table.contains_key(permutation.as_slice()) {
                Self::insert_to_null(permutation, null, table);
            } else {
                Self::insert_to_table(permutation, sequence, table);
            }
        }
    }

    /// Moves a one-off that has a second parent out of the map and sets it
    /// aside.
    fn insert_to_null(permutation: &Vec<u8>, null: &mut ByteSet, table: &mut ByteMap)
        ensures
            final(table)@ == old(table)@.remove(permutation@),
            final(null)@ == old(null)@.insert(permutation@),
    {
        table.remove(permutation.as_slice());
        null.insert(slice_to_vec(permutation.as_slice()));
    }

    /// Enters a one-off that was not seen before into the map, with its
    /// parent.
    fn insert_to_table(permutation: &Vec<u8>, sequence: &[u8], table: &mut ByteMap)
        ensures
            final(table)@ == old(table)@.insert(permutation@, sequence@),
    {
        table.insert(slice_to_vec(permutation.as_slice()), slice_to_vec(sequence));
    }
}

} // verus!
