//! The matcher: it takes the reads of one sample one by one, looks for the
//! guide in each at the offset of the sample, and counts the reads that each
//! guide accounts for.

use crate::library::{Library, Record};
use crate::offsetter::Offset;
use crate::permutes::Permuter;
use crate::sequence::{reverse_complement, reverse_complement_of};
use crate::table::CountMap;
use vstd::prelude::*;
use vstd::slice::{slice_subrange, slice_to_vec};

verus! {

/// How the reads of a sample are matched: the library, the one-mismatch
/// index if one is used, the offset and length of the guide in a read, and
/// whether a miss is tried again one base to either side.
pub struct Scheme {
    /// The map from each guide sequence to its alias.
    pub library: Map<Seq<u8>, Seq<u8>>,
    /// The map from each unambiguous one-off to its parent, if one is used.
    pub one_offs: Option<Map<Seq<u8>, Seq<u8>>>,
    /// Where the guide begins in a read.
    pub offset: Offset,
    /// The length of the guide.
    pub size: nat,
    /// Whether a miss is tried again one base to either side.
    pub recursion: bool,
}

/// The `size` bytes of a sequence from index `start` on, if the sequence is
/// long enough to hold them.
pub open spec fn window(seq: Seq<u8>, start: int, size: nat) -> Option<Seq<u8>> {
    if 0 <= start && start + size <= seq.len() {
        Some(seq.subrange(start, start + size))
    } else {
        None
    }
}

/// The alias of the window of a sequence, if the window is a guide of the
/// library.
pub open spec fn exact_match(
    library: Map<Seq<u8>, Seq<u8>>,
    seq: Seq<u8>,
    start: int,
    size: nat,
) -> Option<Seq<u8>> {
    match window(seq, start, size) {
        Some(candidate) => if library.dom().contains(candidate) {
            Some(library[candidate])
        } else {
            None
        },
        None => None,
    }
}

/// The read as it is matched: the read itself for a forward offset, its
/// reverse complement for a reverse offset.
pub open spec fn oriented(read: Seq<u8>, offset: Offset) -> Seq<u8> {
    match offset {
        Offset::Forward(_) => read,
        Offset::Reverse(_) => reverse_complement_of(read),
    }
}

/// The alias that a read is credited to, if it is credited to any.
///
/// A read that is too short for the window at the offset is credited to
/// none. A window that is a guide is credited to that guide. Otherwise, a
/// window that the one-mismatch index knows is credited to the alias that
/// the library has for its parent, if it has one. Otherwise, with
/// recursion, the window one base earlier and then the window one base
/// later are tried as guides, and the first that is one wins.
pub open spec fn assigned(scheme: Scheme, read: Seq<u8>) -> Option<Seq<u8>> {
    let seq = oriented(read, scheme.offset);
    let start = scheme.offset.spec_index() as int;
    match window(seq, start, scheme.size) {
        None => None,
        Some(candidate) => {
            if scheme.library.dom().contains(candidate) {
                Some(scheme.library[candidate])
            } else if scheme.one_offs is Some && scheme.one_offs->0.dom().contains(candidate) {
                let parent = scheme.one_offs->0[candidate];
                if scheme.library.dom().contains(parent) {
                    Some(scheme.library[parent])
                } else {
                    None
                }
            } else if scheme.recursion {
                match exact_match(scheme.library, seq, start - 1, scheme.size) {
                    Some(alias) => Some(alias),
                    None => exact_match(scheme.library, seq, start + 1, scheme.size),
                }
            } else {
                None
            }
        },
    }
}

/// The number of reads that are credited to the alias.
pub open spec fn credits(scheme: Scheme, reads: Seq<Seq<u8>>, alias: Seq<u8>) -> nat
    decreases reads.len(),
{
    if reads.len() == 0 {
        0
    } else if assigned(scheme, reads.last()) == Some(alias) {
        credits(scheme, reads.drop_last(), alias) + 1
    } else {
        credits(scheme, reads.drop_last(), alias)
    }
}

/// The number of reads that are credited to some alias.
pub open spec fn credited(scheme: Scheme, reads: Seq<Seq<u8>>) -> nat
    decreases reads.len(),
{
    if reads.len() == 0 {
        0
    } else if assigned(scheme, reads.last()) is Some {
        credited(scheme, reads.drop_last()) + 1
    } else {
        credited(scheme, reads.drop_last())
    }
}

/// The sum of the counts of a finite map.
pub open spec fn total_count(counts: Map<Seq<u8>, usize>) -> nat
    decreases counts.dom().len(),
    when counts.dom().finite()
{
    if counts.dom().len() == 0 {
        0
    } else {
        let key = counts.dom().choose();
        (counts[key] + total_count(counts.remove(key))) as nat
    }
}

/// The map that the pairs give when they are entered one after the other,
/// a later pair replacing an earlier one with the same key.
pub open spec fn counts_of(pairs: Seq<(Vec<u8>, usize)>) -> Map<Seq<u8>, usize>
    decreases pairs.len(),
{
    if pairs.len() == 0 {
        Map::empty()
    } else {
        counts_of(pairs.drop_last()).insert(pairs.last().0@, pairs.last().1)
    }
}

/// While the pairs are entered one after the other, the sum of the counts
/// never leaves the range of `usize`.
pub open spec fn sums_fit(pairs: Seq<(Vec<u8>, usize)>) -> bool {
    forall|i: int|
        0 <= i <= pairs.len() ==> total_count(#[trigger] counts_of(pairs.take(i))) <= usize::MAX
}

/// The sequences of the records, in their order.
pub open spec fn sequences(records: Seq<Record>) -> Seq<Seq<u8>> {
    Seq::new(records.len(), |i: int| records[i].seq@)
}

/// The library has the alias for one of its guides.
pub open spec fn is_alias(library: Map<Seq<u8>, Seq<u8>>, alias: Seq<u8>) -> bool {
    exists|k: Seq<u8>| library.dom().contains(k) && #[trigger] library[k] == alias
}

/// A read is credited to an alias of the library only.
pub proof fn lemma_assigned_alias(scheme: Scheme, read: Seq<u8>)
    ensures
        assigned(scheme, read) matches Some(alias) ==> is_alias(scheme.library, alias),
{
    let seq = oriented(read, scheme.offset);
    let start = scheme.offset.spec_index() as int;
    if assigned(scheme, read) is Some {
        let alias = assigned(scheme, read)->0;
        let candidate = window(seq, start, scheme.size)->0;
        if scheme.library.dom().contains(candidate) {
            assert(scheme.library[candidate] == alias);
        } else if scheme.one_offs is Some && scheme.one_offs->0.dom().contains(candidate) {
            assert(scheme.library[scheme.one_offs->0[candidate]] == alias);
        } else if exact_match(scheme.library, seq, start - 1, scheme.size) is Some {
            assert(scheme.library[window(seq, start - 1, scheme.size)->0] == alias);
        } else {
            assert(scheme.library[window(seq, start + 1, scheme.size)->0] == alias);
        }
    }
}

/// Reads are credited to aliases of the library only, and to one alias no
/// more reads are credited than to all.
pub proof fn lemma_credits(scheme: Scheme, reads: Seq<Seq<u8>>, alias: Seq<u8>)
    ensures
        credits(scheme, reads, alias) > 0 ==> is_alias(scheme.library, alias),
        credits(scheme, reads, alias) <= credited(scheme, reads) <= reads.len(),
    decreases reads.len(),
{
    if reads.len() > 0 {
        lemma_credits(scheme, reads.drop_last(), alias);
        lemma_assigned_alias(scheme, reads.last());
    }
}

/// The sum of the counts of a map is the count of any one key and the sum
/// of the counts of the others.
pub proof fn lemma_total_count_remove(counts: Map<Seq<u8>, usize>, key: Seq<u8>)
    requires
        counts.dom().finite(),
        counts.dom().contains(key),
    ensures
        total_count(counts) == counts[key] + total_count(counts.remove(key)),
    decreases counts.dom().len(),
{
    let chosen = counts.dom().choose();
    if chosen != key {
        lemma_total_count_remove(counts.remove(chosen), key);
        lemma_total_count_remove(counts.remove(key), chosen);
        assert(counts.remove(chosen).remove(key) =~= counts.remove(key).remove(chosen));
    }
}

/// Setting the count of one key changes the sum by the difference.
pub proof fn lemma_total_count_insert(counts: Map<Seq<u8>, usize>, key: Seq<u8>, count: usize)
    requires
        counts.dom().finite(),
    ensures
        total_count(counts.insert(key, count)) == count + total_count(counts.remove(key)),
{
    lemma_total_count_remove(counts.insert(key, count), key);
    assert(counts.insert(key, count).remove(key) =~= counts.remove(key));
}

/// The counts of one sample: for each alias the number of reads credited to
/// it, with the number of reads seen and the number of reads credited.
pub struct Counter {
    results: CountMap,
    total_reads: usize,
    matched_reads: usize,
}

impl View for Counter {
    type V = Map<Seq<u8>, usize>;

    /// The map from each alias that has a count to its count.
    closed spec fn view(&self) -> Map<Seq<u8>, usize> {
        self.results@
    }
}

impl Counter {
    /// The number of reads seen.
    pub closed spec fn spec_total_reads(&self) -> nat {
        self.total_reads as nat
    }

    /// The number of reads credited to an alias.
    pub closed spec fn spec_matched_reads(&self) -> nat {
        self.matched_reads as nat
    }

    /// The count of an alias: 0 for an alias without a count.
    pub open spec fn count(&self, alias: Seq<u8>) -> nat {
        if self@.dom().contains(alias) {
            self@[alias] as nat
        } else {
            0
        }
    }

    /// The counts are finitely many, they add up to the number of reads
    /// credited, and no more reads are credited than were seen.
    pub closed spec fn wf(&self) -> bool {
        &&& self.results@.dom().finite()
        &&& self.matched_reads == total_count(self.results@)
        &&& self.matched_reads <= self.total_reads
    }

    /// The scheme that the given parts make up.
    pub open spec fn scheme(
        library: &Library,
        permuter: &Option<Permuter>,
        offset: Offset,
        size: usize,
        position_recursion: bool,
    ) -> Scheme {
        Scheme {
            library: library@,
            one_offs: match *permuter {
                Some(p) => Some(p@),
                None => None,
            },
            offset,
            size: size as nat,
            recursion: position_recursion,
        }
    }

    /// A counter that has seen no read.
    pub fn empty() -> (counter: Counter)
        ensures
            counter.wf(),
            counter@ == Map::<Seq<u8>, usize>::empty(),
            counter.spec_total_reads() == 0,
            counter.spec_matched_reads() == 0,
    {
        Counter { results: CountMap::new(), total_reads: 0, matched_reads: 0 }
    }

    /// The counter with the given pairs of an alias and its count, as if
    /// every read seen had been credited. Of two pairs with one alias the
    /// later one stands. There is no such counter if the sum of the counts
    /// leaves the range of `usize` while the pairs are entered.
    pub fn from_hashmap(map: Vec<(Vec<u8>, usize)>) -> (counter: Option<Counter>)
        ensures
            counter is Some == sums_fit(map@),
            counter matches Some(c) ==> {
                &&& c.wf()
                &&& c@ == counts_of(map@)
                &&& c.spec_matched_reads() == total_count(counts_of(map@))
                &&& c.spec_total_reads() == c.spec_matched_reads()
            },
    {
        let mut results = CountMap::new();
        let mut total: usize = 0;
        let mut i: usize = 0;
        proof {
            assert(map@.take(0) =~= Seq::empty());
            assert(total_count(results@) == 0);
        }
        while i < map.len()
            invariant
                i <= map.len(),
                results@.dom().finite(),
                results@ == counts_of(map@.take(i as int)),
                total == total_count(results@),
                forall|k: int|
                    0 <= k <= i ==> total_count(#[trigger] counts_of(map@.take(k))) <= usize::MAX,
            decreases map.len() - i,
        {
            let ghost before = results@;
            let key = map[i].0.as_slice();
            let count = map[i].1;
            let prior = match results.get(key) {
                Some(prior) => prior,
                None => 0,
            };
            proof {
                assert(map@.take(i + 1).drop_last() =~= map@.take(i as int));
                if before.dom().contains(key@) {
                    lemma_total_count_remove(before, key@);
                } else {
                    assert(before.remove(key@) =~= before);
                }
                lemma_total_count_insert(before, key@, count);
            }
            let rest = total - prior;
            if count > usize::MAX - rest {
                assert(total_count(counts_of(map@.take(i + 1))) > usize::MAX);
                return None;
            }
            results.insert(slice_to_vec(key), count);
            total = rest + count;
            i = i + 1;
        }
        proof {
            assert(map@.take(i as int) =~= map@);
        }
        Some(Counter { results, total_reads: total, matched_reads: total })
    }

    /// Counts the reads of one sample: each record is one read.
    pub fn new(
        records: &Vec<Record>,
        library: &Library,
        permuter: &Option<Permuter>,
        offset: Offset,
        size: usize,
        position_recursion: bool,
    ) -> (counter: Counter)
        ensures
            counter.wf(),
            counter.spec_total_reads() == records.len(),
            counter.spec_matched_reads() == credited(
                Self::scheme(library, permuter, offset, size, position_recursion),
                sequences(records@),
            ),
            forall|alias: Seq<u8>| #[trigger]
                counter.count(alias) == credits(
                    Self::scheme(library, permuter, offset, size, position_recursion),
                    sequences(records@),
                    alias,
                ),
            forall|alias: Seq<u8>| #[trigger]
                counter@.dom().contains(alias) <==> credits(
                    Self::scheme(library, permuter, offset, size, position_recursion),
                    sequences(records@),
                    alias,
                ) > 0,
            forall|alias: Seq<u8>| #[trigger]
                counter@.dom().contains(alias) ==> is_alias(library@, alias)
                    && counter@[alias] >= 1,
    {
        let ghost scheme = Self::scheme(library, permuter, offset, size, position_recursion);
        let ghost reads = sequences(records@);
        let mut counter = Counter::empty();
        let mut i: usize = 0;
        assert(reads.take(0) =~= Seq::empty());
        while i < records.len()
            invariant
                i <= records.len(),
                scheme == Self::scheme(library, permuter, offset, size, position_recursion),
                reads == sequences(records@),
                counter.wf(),
                counter.spec_total_reads() == i,
                counter.spec_matched_reads() == credited(scheme, reads.take(i as int)),
                forall|alias: Seq<u8>| #[trigger]
                    counter.count(alias) == credits(scheme, reads.take(i as int), alias),
                forall|alias: Seq<u8>| #[trigger]
                    counter@.dom().contains(alias) <==> credits(
                        scheme,
                        reads.take(i as int),
                        alias,
                    ) > 0,
            decreases records.len() - i,
        {
            let ghost before = counter;
            let ghost grown = reads.take(i + 1);
            proof {
                assert(grown.drop_last() =~= reads.take(i as int));
                assert(grown.last() == records@[i as int].seq@);
            }
            counter.update(
                records[i].seq.as_slice(),
                library,
                permuter,
                offset,
                size,
                position_recursion,
            );
            proof {
                assert forall|alias: Seq<u8>| #[trigger]
                    counter.count(alias) == credits(scheme, grown, alias) by {
                    assert(before.count(alias) == credits(scheme, grown.drop_last(), alias));
                }
                assert forall|alias: Seq<u8>| #[trigger]
                    counter@.dom().contains(alias) <==> credits(scheme, grown, alias) > 0 by {
                    assert(before.count(alias) == credits(scheme, grown.drop_last(), alias));
                    assert(before@.dom().contains(alias) <==> credits(
                        scheme,
                        grown.drop_last(),
                        alias,
                    ) > 0);
                }
            }
            i = i + 1;
        }
        proof {
            assert(reads.take(i as int) =~= reads);
            assert forall|alias: Seq<u8>| #[trigger]
                counter@.dom().contains(alias) implies is_alias(library@, alias) && counter@[alias]
                >= 1 by {
                lemma_credits(scheme, reads, alias);
                assert(counter.count(alias) == credits(scheme, reads, alias));
            }
        }
        counter
    }

    /// Takes one read into the counts: the read is seen, and if it is
    /// credited to an alias, the count of that alias grows by one.
    pub fn update(
        &mut self,
        read: &[u8],
        library: &Library,
        permuter: &Option<Permuter>,
        offset: Offset,
        size: usize,
        position_recursion: bool,
    )
        requires
            old(self).wf(),
            old(self).spec_total_reads() < usize::MAX,
        ensures
            final(self).wf(),
            final(self).spec_total_reads() == old(self).spec_total_reads() + 1,
            match assigned(
                Self::scheme(library, permuter, offset, size, position_recursion),
                read@,
            ) {
                Some(alias) => {
                    &&& final(self).spec_matched_reads() == old(self).spec_matched_reads() + 1
                    &&& final(self)@ == old(self)@.insert(
                        alias,
                        (old(self).count(alias) + 1) as usize,
                    )
                    &&& old(self).count(alias) < usize::MAX
                },
                None => {
                    &&& final(self).spec_matched_reads() == old(self).spec_matched_reads()
                    &&& final(self)@ == old(self)@
                },
            },
    {
        let assignment = Self::assign(read, library, permuter, offset, size, position_recursion);
        self.total_reads = self.total_reads + 1;
        match assignment {
            Some(alias) => {
                let ghost before = self.results@;
                let count = self.get_value(alias.as_slice());
                proof {
                    if before.dom().contains(alias@) {
                        lemma_total_count_remove(before, alias@);
                    } else {
                        assert(before.remove(alias@) =~= before);
                    }
                    lemma_total_count_insert(before, alias@, (count + 1) as usize);
                }
                self.results.insert(slice_to_vec(alias.as_slice()), count + 1);
                self.matched_reads = self.matched_reads + 1;
            },
            None => {},
        }
    }

    /// The alias of a guide sequence, if the library has the sequence.
    fn check_library<'a>(token: &[u8], library: &'a Library) -> (alias: Option<&'a Vec<u8>>)
        ensures
            alias.is_some() == library@.dom().contains(token@),
            alias matches Some(a) ==> a@ == library@[token@],
    {
        library.contains(token)
    }

    /// The parent of a one-off, if there is an index and it has the one-off.
    fn check_permuter<'a>(token: &[u8], permuter: &'a Option<Permuter>) -> (parent: Option<
        &'a Vec<u8>,
    >)
        ensures
            parent.is_some() == (*permuter matches Some(p) && p@.dom().contains(token@)),
            parent matches Some(s) ==> *permuter matches Some(p) && s@ == p@[token@],
    {
        match permuter {
            Some(p) => p.contains(token),
            None => None,
        }
    }

    /// The alias of the window of a sequence, if the window is a guide.
    fn check_window<'a>(seq: &[u8], start: usize, size: usize, library: &'a Library) -> (alias:
        Option<&'a Vec<u8>>)
        ensures
            alias.is_some() == exact_match(library@, seq@, start as int, size as nat).is_some(),
            alias matches Some(a) ==> Some(a@) == exact_match(
                library@,
                seq@,
                start as int,
                size as nat,
            ),
    {
        if seq.len() >= start && seq.len() - start >= size {
            Self::check_library(slice_subrange(seq, start, start + size), library)
        } else {
            None
        }
    }

    /// The alias that a read is credited to, if it is credited to any.
    fn assign<'a>(
        read: &[u8],
        library: &'a Library,
        permuter: &Option<Permuter>,
        offset: Offset,
        size: usize,
        position_recursion: bool,
    ) -> (alias: Option<&'a Vec<u8>>)
        ensures
            alias.is_some() == assigned(
                Self::scheme(library, permuter, offset, size, position_recursion),
                read@,
            ).is_some(),
            alias matches Some(a) ==> Some(a@) == assigned(
                Self::scheme(library, permuter, offset, size, position_recursion),
                read@,
            ),
    {
        match offset {
            Offset::Forward(start) => Self::assign_oriented(
                read,
                start,
                library,
                permuter,
                size,
                position_recursion,
            ),
            Offset::Reverse(start) => {
                let reversed = reverse_complement(read);
                Self::assign_oriented(
                    reversed.as_slice(),
                    start,
                    library,
                    permuter,
                    size,
                    position_recursion,
                )
            },
        }
    }

    /// The alias that a read is credited to, once the read is oriented.
    fn assign_oriented<'a>(
        seq: &[u8],
        start: usize,
        library: &'a Library,
        permuter: &Option<Permuter>,
        size: usize,
        position_recursion: bool,
    ) -> (alias: Option<&'a Vec<u8>>)
        ensures
            forall|offset: Offset, read: Seq<u8>|
                offset.spec_index() == start && oriented(read, offset) == seq@ ==> {
                    &&& alias.is_some() == (#[trigger] assigned(
                        Self::scheme(library, permuter, offset, size, position_recursion),
                        read,
                    )).is_some()
                    &&& alias matches Some(a) ==> Some(a@) == assigned(
                        Self::scheme(library, permuter, offset, size, position_recursion),
                        read,
                    )
                },
    {
        if !(seq.len() >= start && seq.len() - start >= size) {
            return None;
        }
        let candidate = slice_subrange(seq, start, start + size);
        match Self::check_library(candidate, library) {
            Some(alias) => {
                return Some(alias);
            },
            None => {},
        }
        match Self::check_permuter(candidate, permuter) {
            Some(parent) => {
                return library.alias(parent.as_slice());
            },
            None => {},
        }
        if !position_recursion {
            return None;
        }
        if start > 0 {
            match Self::check_window(seq, start - 1, size, library) {
                Some(alias) => {
                    return Some(alias);
                },
                None => {},
            }
        }
        if start < usize::MAX {
            Self::check_window(seq, start + 1, size, library)
        } else {
            None
        }
    }

    /// The count of an alias: 0 for an alias without a count.
    pub fn get_value(&self, token: &[u8]) -> (count: usize)
        ensures
            count == self.count(token@),
    {
        match self.results.get(token) {
            Some(c) => c,
            None => 0,
        }
    }

    /// The number of reads seen.
    pub fn total_reads(&self) -> (total: usize)
        ensures
            total == self.spec_total_reads(),
    {
        self.total_reads
    }

    /// The number of reads credited to an alias.
    pub fn matched_reads(&self) -> (matched: usize)
        ensures
            matched == self.spec_matched_reads(),
    {
        self.matched_reads
    }

    /// The number of reads credited to no alias.
    pub fn unmatched_reads(&self) -> (unmatched: usize)
        requires
            self.wf(),
        ensures
            unmatched == self.spec_total_reads() - self.spec_matched_reads(),
    {
        self.total_reads - self.matched_reads
    }

    /// The reads seen are those credited and those not credited, and the
    /// reads credited are as many as the counts add up to.
    pub proof fn lemma_additivity(self)
        requires
            self.wf(),
        ensures
            self.spec_matched_reads() <= self.spec_total_reads(),
            self.spec_matched_reads() == total_count(self@),
            self@.dom().finite(),
    {
    }
}

} // verus!
