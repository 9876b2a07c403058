//! The gene map: the gene of each guide alias, read from a table of two
//! columns.

use crate::library::{lists_values_by, views, Library};
use crate::lines::{
    byte_lines, find_byte, first_index_of, lemma_first_index_of, lines_of, TAB,
};
use crate::table::ByteMap;
use vstd::prelude::*;
use vstd::slice::{slice_subrange, slice_to_vec};

verus! {

/// Why a table is no gene map.
#[derive(Debug, Clone, Copy, PartialEq, Eq, Structural)]
pub enum GeneMapError {
    /// A line has no tab.
    MissingTab,
    /// Two lines give a gene for one alias.
    DuplicateAlias,
}

/// The line has a tab.
pub open spec fn has_tab(line: Seq<u8>) -> bool {
    first_index_of(line, TAB) < line.len()
}

/// The gene of a line: what stands before its first tab.
pub open spec fn gene_of(line: Seq<u8>) -> Seq<u8> {
    line.take(first_index_of(line, TAB))
}

/// The alias of a line: what stands after its first tab.
pub open spec fn alias_of(line: Seq<u8>) -> Seq<u8> {
    line.skip(first_index_of(line, TAB) + 1)
}

/// What is wrong with the line at index `i`, if anything is: it has no tab,
/// or its alias is that of an earlier line.
pub open spec fn fault(lines: Seq<Seq<u8>>, i: int) -> Option<GeneMapError> {
    if !has_tab(lines[i]) {
        Some(GeneMapError::MissingTab)
    } else if exists|j: int| 0 <= j < i && alias_of(#[trigger] lines[j]) == alias_of(lines[i]) {
        Some(GeneMapError::DuplicateAlias)
    } else {
        None
    }
}

/// Why the lines are no gene map, if they are none: what is wrong with the
/// first line with which anything is wrong.
pub open spec fn rejection(lines: Seq<Seq<u8>>) -> Option<GeneMapError> {
    if exists|i: int| 0 <= i < lines.len() && fault(lines, i) is Some {
        let first = choose|i: int|
            0 <= i < lines.len() && fault(lines, i) is Some && forall|j: int|
                0 <= j < i ==> fault(lines, j) is None;
        fault(lines, first)
    } else {
        None
    }
}

/// `m` maps the alias of each line to the gene of the line and holds
/// nothing else.
pub open spec fn maps_lines(m: Map<Seq<u8>, Seq<u8>>, lines: Seq<Seq<u8>>) -> bool {
    &&& forall|i: int|
        0 <= i < lines.len() ==> m.dom().contains(alias_of(#[trigger] lines[i])) && m[alias_of(
            lines[i],
        )] == gene_of(lines[i])
    &&& forall|k: Seq<u8>| #[trigger]
        m.dom().contains(k) ==> exists|i: int|
            0 <= i < lines.len() && alias_of(#[trigger] lines[i]) == k
}

/// The map that the pairs give when they are entered one after the other,
/// a later pair replacing an earlier one with the same key.
pub open spec fn map_of(pairs: Seq<(Vec<u8>, Vec<u8>)>) -> Map<Seq<u8>, Seq<u8>>
    decreases pairs.len(),
{
    if pairs.len() == 0 {
        Map::empty()
    } else {
        map_of(pairs.drop_last()).insert(pairs.last().0@, pairs.last().1@)
    }
}

/// The library has an alias that the map has no gene for.
pub open spec fn misses(genes: Map<Seq<u8>, Seq<u8>>, library: Map<Seq<u8>, Seq<u8>>) -> bool {
    exists|k: Seq<u8>| library.dom().contains(k) && !genes.dom().contains(#[trigger] library[k])
}

/// The gene of each guide alias.
#[derive(Debug)]
pub struct GeneMap {
    map: ByteMap,
}

impl View for GeneMap {
    type V = Map<Seq<u8>, Seq<u8>>;

    /// The map from each alias to its gene.
    closed spec fn view(&self) -> Map<Seq<u8>, Seq<u8>> {
        self.map@
    }
}

impl GeneMap {
    /// The gene map with the given pairs of an alias and its gene. Of two
    /// pairs with one alias the later one stands.
    pub fn from_hashmap(map: Vec<(Vec<u8>, Vec<u8>)>) -> (genemap: GeneMap)
        ensures
            genemap@ == map_of(map@),
    {
        let mut table = ByteMap::new();
        let mut i: usize = 0;
        assert(map@.take(0) =~= Seq::empty());
        while i < map.len()
            invariant
                i <= map.len(),
                table@ == map_of(map@.take(i as int)),
            decreases map.len() - i,
        {
            proof {
                assert(map@.take(i + 1).drop_last() =~= map@.take(i as int));
            }
            table.insert(slice_to_vec(map[i].0.as_slice()), slice_to_vec(map[i].1.as_slice()));
            i = i + 1;
        }
        assert(map@.take(i as int) =~= map@);
        GeneMap { map: table }
    }

    /// Reads a gene map from the bytes of a table: each line holds a gene, a
    /// tab and an alias. Fails on the first line without a tab or with the
    /// alias of an earlier line.
    pub fn new_from_buffer(buffer: &[u8]) -> (result: Result<GeneMap, GeneMapError>)
        ensures
            match result {
                Ok(genemap) => rejection(lines_of(buffer@)) is None && maps_lines(
                    genemap@,
                    lines_of(buffer@),
                ),
                Err(error) => rejection(lines_of(buffer@)) == Some(error),
            },
    {
        let lines = byte_lines(buffer);
        assert(views(lines@) =~= lines_of(buffer@));
        match Self::build(&lines) {
            Ok(map) => Ok(GeneMap { map }),
            Err(error) => Err(error),
        }
    }

    /// Enters the lines into a map, each alias with its gene, and fails on
    /// the first line without a tab or with the alias of an earlier line.
    fn build(lines: &Vec<Vec<u8>>) -> (result: Result<ByteMap, GeneMapError>)
        ensures
            match result {
                Ok(map) => rejection(views(lines@)) is None && maps_lines(map@, views(lines@)),
                Err(error) => rejection(views(lines@)) == Some(error),
            },
    {
        let ghost all = views(lines@);
        let mut map = ByteMap::new();
        let mut i: usize = 0;
        while i < lines.len()
            invariant
                i <= lines.len(),
                all == views(lines@),
                forall|j: int| 0 <= j < i ==> fault(all, j) is None,
                maps_lines(map@, all.take(i as int)),
            decreases lines.len() - i,
        {
            let line = lines[i].as_slice();
            proof {
                lemma_first_index_of(line@, TAB);
                assert(all[i as int] == line@);
            }
            let pos = match find_byte(line, TAB) {
                Some(pos) => pos,
                None => {
                    proof {
                        Self::lemma_first_fault(all, i as int);
                    }
                    return Err(GeneMapError::MissingTab);
                },
            };
            assert(pos < line.len());
            let gene = slice_subrange(line, 0, pos);
            let sgrna = slice_subrange(line, pos + 1, line.len());
            assert(gene@ =~= gene_of(line@));
            assert(sgrna@ =~= alias_of(line@));
            let ghost before = map@;
            let prior = map.insert(slice_to_vec(sgrna), slice_to_vec(gene));
            if prior.is_some() {
                proof {
                    let j = choose|j: int|
                        0 <= j < i && alias_of(#[trigger] all.take(i as int)[j]) == alias_of(
                            line@,
                        );
                    assert(alias_of(all[j]) == alias_of(all[i as int]));
                    Self::lemma_first_fault(all, i as int);
                }
                return Err(GeneMapError::DuplicateAlias);
            }
            proof {
                let seen = all.take(i as int);
                let grown = all.take(i + 1);
                assert(fault(all, i as int) is None) by {
                    if exists|j: int|
                        0 <= j < i && alias_of(#[trigger] all[j]) == alias_of(all[i as int]) {
                        let j = choose|j: int|
                            0 <= j < i && alias_of(#[trigger] all[j]) == alias_of(all[i as int]);
                        assert(before.dom().contains(alias_of(seen[j])));
                    }
                }
                assert forall|j: int| 0 <= j < grown.len() implies map@.dom().contains(
                    alias_of(#[trigger] grown[j]),
                ) && map@[alias_of(grown[j])] == gene_of(grown[j]) by {
                    if j < i {
                        assert(grown[j] == seen[j]);
                        assert(before.dom().contains(alias_of(seen[j])));
                    }
                }
                assert forall|k: Seq<u8>| #[trigger] map@.dom().contains(k) implies exists|j: int|
                    0 <= j < grown.len() && alias_of(#[trigger] grown[j]) == k by {
                    if k == sgrna@ {
                        assert(alias_of(grown[i as int]) == k);
                    } else {
                        assert(before.dom().contains(k));
                        let j = choose|j: int|
                            0 <= j < seen.len() && alias_of(#[trigger] seen[j]) == k;
                        assert(alias_of(grown[j]) == k);
                    }
                }
            }
            i = i + 1;
        }
        proof {
            assert(all.take(i as int) =~= all);
        }
        Ok(map)
    }

    /// The first line with which anything is wrong decides why the lines
    /// are no gene map.
    proof fn lemma_first_fault(lines: Seq<Seq<u8>>, i: int)
        requires
            0 <= i < lines.len(),
            fault(lines, i) is Some,
            forall|j: int| 0 <= j < i ==> fault(lines, j) is None,
        ensures
            rejection(lines) == fault(lines, i),
    {
        let first = choose|k: int|
            0 <= k < lines.len() && fault(lines, k) is Some && forall|j: int|
                0 <= j < k ==> fault(lines, j) is None;
        assert(first == i) by {
            if first < i {
                assert(fault(lines, first) is None);
            } else if i < first {
                assert(fault(lines, i) is None);
            }
        }
    }

    /// The gene of an alias, if the map has one for it.
    #[must_use]
    pub fn get(&self, sgrna: &[u8]) -> (gene: Option<&Vec<u8>>)
        ensures
            gene.is_some() == self@.dom().contains(sgrna@),
            gene matches Some(g) ==> g@ == self@[sgrna@],
    {
        self.map.get(sgrna)
    }

    /// An alias of the library that the map has no gene for, if there is
    /// one; nothing if the map has a gene for every alias of the library.
    #[must_use]
    pub fn missing_aliases(&self, library: &Library) -> (missing: Option<Vec<u8>>)
        ensures
            missing.is_some() == misses(self@, library@),
            missing matches Some(alias) ==> !self@.dom().contains(alias@) && exists|k: Seq<u8>|
                library@.dom().contains(k) && #[trigger] library@[k] == alias@,
    {
        let aliases = library.values();
        let ghost keys = choose|keys: Seq<Seq<u8>>|
            #![trigger lists_values_by(views(aliases@), keys, library@)]
            lists_values_by(views(aliases@), keys, library@);
        let mut i: usize = 0;
        while i < aliases.len()
            invariant
                i <= aliases.len(),
                lists_values_by(views(aliases@), keys, library@),
                forall|j: int| 0 <= j < i ==> self@.dom().contains((#[trigger] aliases[j])@),
            decreases aliases.len() - i,
        {
            if self.get(aliases[i].as_slice()).is_none() {
                proof {
                    assert(views(aliases@)[i as int] == library@[keys[i as int]]);
                    assert(library@.dom().contains(keys[i as int]));
                }
                return Some(slice_to_vec(aliases[i].as_slice()));
            }
            i = i + 1;
        }
        proof {
            if misses(self@, library@) {
                let k = choose|k: Seq<u8>|
                    library@.dom().contains(k) && !self@.dom().contains(#[trigger] library@[k]);
                let j = choose|j: int| 0 <= j < keys.len() && #[trigger] keys[j] == k;
                assert(views(aliases@)[j] == library@[keys[j]]);
                assert(self@.dom().contains(aliases[j]@));
            }
        }
        None
    }

    /// Whether the map has a gene for every alias of the library.
    #[must_use]
    pub fn validate_library(&self, library: &Library) -> (valid: bool)
        ensures
            valid == !misses(self@, library@),
    {
        self.missing_aliases(library).is_none()
    }
}

} // verus!
