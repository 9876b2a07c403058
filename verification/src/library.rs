//! The guide library: a set of guide sequences of one common length, each
//! with its alias.

use crate::table::ByteMap;
use vstd::prelude::*;
use vstd::slice::slice_to_vec;

verus! {

/// One record of a sequence file: an identifier and a sequence.
#[derive(Debug)]
pub struct Record {
    /// The identifier of the record, without its leading marker.
    pub id: Vec<u8>,
    /// The sequence of the record.
    pub seq: Vec<u8>,
}

impl Record {
    /// A record with the given identifier and sequence.
    pub fn new(id: Vec<u8>, seq: Vec<u8>) -> (record: Record)
        ensures
            record.id == id,
            record.seq == seq,
    {
        Record { id, seq }
    }
}

impl Clone for Record {
    /// A record with the same identifier and the same sequence.
    fn clone(&self) -> (record: Record)
        ensures
            record.id@ == self.id@,
            record.seq@ == self.seq@,
    {
        Record { id: slice_to_vec(self.id.as_slice()), seq: slice_to_vec(self.seq.as_slice()) }
    }
}

/// Why a set of records is no guide library.
#[derive(Debug, Clone, Copy, PartialEq, Eq, Structural)]
pub enum LibraryError {
    /// Two guides differ in length.
    InconsistentSize,
    /// One sequence occurs in two records.
    DuplicateKey,
    /// There is no record, or the guides are empty sequences.
    Empty,
}

/// The sequences of a list of byte vectors.
pub open spec fn views(items: Seq<Vec<u8>>) -> Seq<Seq<u8>> {
    Seq::new(items.len(), |i: int| items[i]@)
}

/// `keys` lists the keys of `m`, each once. Nothing is said of the order.
pub open spec fn lists_keys(keys: Seq<Seq<u8>>, m: Map<Seq<u8>, Seq<u8>>) -> bool {
    &&& forall|i: int| 0 <= i < keys.len() ==> m.dom().contains(#[trigger] keys[i])
    &&& forall|i: int, j: int| 0 <= i < j < keys.len() ==> #[trigger] keys[i] != #[trigger] keys[j]
    &&& forall|k: Seq<u8>| #[trigger]
        m.dom().contains(k) ==> exists|i: int| 0 <= i < keys.len() && #[trigger] keys[i] == k
}

/// `values` lists the values of `m` in the order in which `keys` lists its
/// keys.
pub open spec fn lists_values_by(
    values: Seq<Seq<u8>>,
    keys: Seq<Seq<u8>>,
    m: Map<Seq<u8>, Seq<u8>>,
) -> bool {
    &&& lists_keys(keys, m)
    &&& keys.len() == values.len()
    &&& forall|i: int| 0 <= i < keys.len() ==> #[trigger] values[i] == m[keys[i]]
}

/// `values` lists the values of `m`, one for each key of `m`. Nothing is
/// said of the order.
pub open spec fn lists_values(values: Seq<Seq<u8>>, m: Map<Seq<u8>, Seq<u8>>) -> bool {
    exists|keys: Seq<Seq<u8>>| #[trigger] lists_values_by(values, keys, m)
}

/// One sequence occurs in two of the records.
pub open spec fn has_duplicate_key(records: Seq<Record>) -> bool {
    exists|i: int, j: int|
        0 <= i < j < records.len() && #[trigger] records[i].seq@ == #[trigger] records[j].seq@
}

/// All the records have sequences as long as that of the first.
pub open spec fn same_size(records: Seq<Record>) -> bool {
    forall|i: int|
        0 <= i < records.len() ==> (#[trigger] records[i]).seq@.len() == records[0].seq@.len()
}

/// Why the records are no library, if they are none. A duplicate is found
/// while the records are read, before their lengths are compared.
pub open spec fn rejection(records: Seq<Record>) -> Option<LibraryError> {
    if has_duplicate_key(records) {
        Some(LibraryError::DuplicateKey)
    } else if records.len() == 0 {
        Some(LibraryError::Empty)
    } else if !same_size(records) {
        Some(LibraryError::InconsistentSize)
    } else if records[0].seq@.len() == 0 {
        Some(LibraryError::Empty)
    } else {
        None
    }
}

/// `m` maps the sequence of each record to its identifier and holds nothing
/// else.
pub open spec fn maps_records(m: Map<Seq<u8>, Seq<u8>>, records: Seq<Record>) -> bool {
    &&& forall|i: int|
        0 <= i < records.len() ==> m.dom().contains(#[trigger] records[i].seq@)
            && m[records[i].seq@] == records[i].id@
    &&& forall|k: Seq<u8>| #[trigger]
        m.dom().contains(k) ==> exists|i: int|
            0 <= i < records.len() && #[trigger] records[i].seq@ == k
}

/// Container for the guide sequences of a library: a map from each sequence
/// to its alias.
pub struct Library {
    table: ByteMap,
    size: usize,
}

impl View for Library {
    type V = Map<Seq<u8>, Seq<u8>>;

    /// The map from each guide sequence to its alias.
    closed spec fn view(&self) -> Map<Seq<u8>, Seq<u8>> {
        self.table@
    }
}

impl Library {
    /// The common length of the sequences of the library.
    pub closed spec fn spec_size(&self) -> usize {
        self.size
    }

    /// The library holds a finite, nonempty set of sequences, all of the
    /// length `spec_size()`, which is not zero.
    pub closed spec fn wf(&self) -> bool {
        &&& self.table@.dom().finite()
        &&& self.table@.dom().len() > 0
        &&& self.size > 0
        &&& forall|k: Seq<u8>| #[trigger] self.table@.dom().contains(k) ==> k.len() == self.size
    }

    /// Builds the library from the records of a sequence file: each record
    /// gives a guide sequence and its alias. Fails if a sequence occurs
    /// twice, if there is no record, or if the sequences are not all of one
    /// length greater than zero.
    pub fn from_reader(records: Vec<Record>) -> (result: Result<Library, LibraryError>)
        ensures
            match result {
                Ok(library) => {
                    &&& rejection(records@) is None
                    &&& library.wf()
                    &&& maps_records(library@, records@)
                    &&& library.spec_size() == records@[0].seq@.len()
                },
                Err(error) => rejection(records@) == Some(error),
            },
    {
        let table = match Self::table_from_reader(&records) {
            Ok(table) => table,
            Err(error) => {
                return Err(error);
            },
        };
        let result = Self::calculate_base_size(&table);
        proof {
            let m = table@;
            let uneven = exists|k: Seq<u8>, l: Seq<u8>|
                m.dom().contains(k) && m.dom().contains(l) && k.len() != l.len();
            if records.len() > 0 {
                assert(m.dom().contains(records@[0].seq@));
            } else {
                assert(m.dom() =~= Set::empty());
            }
            if uneven {
                let (k, l) = choose|k: Seq<u8>, l: Seq<u8>|
                    m.dom().contains(k) && m.dom().contains(l) && k.len() != l.len();
                let i = choose|i: int| 0 <= i < records.len() && #[trigger] records[i].seq@ == k;
                let j = choose|j: int| 0 <= j < records.len() && #[trigger] records[j].seq@ == l;
                assert(records@[i].seq@.len() != records@[0].seq@.len() || records@[j].seq@.len()
                    != records@[0].seq@.len());
                assert(!same_size(records@));
            } else {
                assert forall|i: int| 0 <= i < records.len() implies (
                #[trigger] records@[i]).seq@.len() == records@[0].seq@.len() by {
                    assert(m.dom().contains(records@[i].seq@));
                    assert(m.dom().contains(records@[0].seq@));
                }
                assert(same_size(records@));
            }
        }
        match result {
            Ok(size) => Ok(Library { table, size }),
            Err(error) => Err(error),
        }
    }

    /// Enters the records into a map, each sequence with its identifier,
    /// and fails on a sequence that the map holds already.
    fn table_from_reader(records: &Vec<Record>) -> (result: Result<ByteMap, LibraryError>)
        ensures
            match result {
                Ok(table) => {
                    &&& !has_duplicate_key(records@)
                    &&& table@.dom().finite()
                    &&& maps_records(table@, records@)
                },
                Err(error) => error == LibraryError::DuplicateKey && has_duplicate_key(records@),
            },
    {
        let mut table = ByteMap::new();
        let mut i: usize = 0;
        while i < records.len()
            invariant
                i <= records.len(),
                table@.dom().finite(),
                maps_records(table@, records@.take(i as int)),
                !has_duplicate_key(records@.take(i as int)),
            decreases records.len() - i,
        {
            let ghost before = table@;
            let ghost seen = records@.take(i as int);
            let seq = slice_to_vec(records[i].seq.as_slice());
            let id = slice_to_vec(records[i].id.as_slice());
            let prior = table.insert(seq, id);
            if prior.is_some() {
                proof {
                    let j = choose|j: int|
                        0 <= j < i && (#[trigger] seen[j]).seq@ == records@[i as int].seq@;
                    assert(records@[j].seq@ == records@[i as int].seq@);
                }
                return Err(LibraryError::DuplicateKey);
            }
            proof {
                let next = records@.take(i + 1);
                assert(forall|j: int| 0 <= j < i ==> next[j] == seen[j]);
                assert(next[i as int] == records@[i as int]);
                assert forall|k: Seq<u8>| #[trigger] table@.dom().contains(k) implies exists|j: int|
                    0 <= j < next.len() && #[trigger] next[j].seq@ == k by {
                    if k == records@[i as int].seq@ {
                        assert(next[i as int].seq@ == k);
                    } else {
                        assert(before.dom().contains(k));
                        let j = choose|j: int| 0 <= j < i && (#[trigger] seen[j]).seq@ == k;
                        assert(next[j].seq@ == k);
                    }
                }
                assert forall|a: int, b: int|
                    0 <= a < b < next.len() implies #[trigger] next[a].seq@
                    != #[trigger] next[b].seq@ by {
                    if b < i {
                        assert(seen[a].seq@ != seen[b].seq@);
                    } else {
                        assert(before.dom().contains(seen[a].seq@));
                    }
                }
            }
            i = i + 1;
        }
        proof {
            assert(records@.take(i as int) == records@);
        }
        Ok(table)
    }

    /// Whether all the sequences are of one length.
    fn validate_unique_size(keys: &Vec<Vec<u8>>) -> (unique: bool)
        ensures
            unique == forall|i: int, j: int|
                0 <= i < keys.len() && 0 <= j < keys.len() ==> (#[trigger] keys[i]).len() == (
                #[trigger] keys[j]).len(),
    {
        let mut i: usize = 1;
        while i < keys.len()
            invariant
                1 <= i,
                forall|k: int| 0 <= k < i && k < keys.len() ==> (#[trigger] keys[k]).len()
                    == keys[0].len(),
            decreases keys.len() - i,
        {
            if keys[i - 1].len() != keys[i].len() {
                return false;
            }
            i = i + 1;
        }
        true
    }

    /// The length of one of the sequences.
    fn get_key_size(keys: &Vec<Vec<u8>>) -> (size: usize)
        requires
            keys.len() > 0,
        ensures
            size == keys[0].len(),
    {
        keys[0].len()
    }

    /// The common length of the sequences of the map. Fails if the map is
    /// empty, if its sequences differ in length, or if they are empty.
    fn calculate_base_size(table: &ByteMap) -> (result: Result<usize, LibraryError>)
        requires
            table@.dom().finite(),
        ensures
            match result {
                Ok(size) => {
                    &&& size > 0
                    &&& table@.dom().len() > 0
                    &&& forall|k: Seq<u8>| #[trigger] table@.dom().contains(k) ==> k.len() == size
                },
                Err(error) => {
                    if exists|k: Seq<u8>, l: Seq<u8>|
                        table@.dom().contains(k) && table@.dom().contains(l) && k.len() != l.len() {
                        error == LibraryError::InconsistentSize
                    } else {
                        &&& error == LibraryError::Empty
                        &&& forall|k: Seq<u8>| #[trigger] table@.dom().contains(k) ==> k.len() == 0
                    }
                },
            },
    {
        let pairs = table.entries();
        let mut keys: Vec<Vec<u8>> = Vec::new();
        let mut i: usize = 0;
        while i < pairs.len()
            invariant
                i <= pairs.len(),
                keys.len() == i,
                forall|k: int| 0 <= k < i ==> (#[trigger] keys[k])@ == pairs[k].0@,
            decreases pairs.len() - i,
        {
            keys.push(slice_to_vec(pairs[i].0.as_slice()));
            i = i + 1;
        }
        proof {
            assert forall|k: Seq<u8>| #[trigger] table@.dom().contains(k) implies exists|i: int|
                0 <= i < keys.len() && (#[trigger] keys[i])@ == k by {
                let i = choose|i: int| 0 <= i < pairs.len() && #[trigger] pairs[i].0@ == k;
                assert(keys[i]@ == k);
            }
            assert forall|i: int| 0 <= i < keys.len() implies table@.dom().contains(
                (#[trigger] keys[i])@,
            ) by {
                assert(table@.dom().contains(pairs[i].0@));
            }
        }
        if !Self::validate_unique_size(&keys) {
            proof {
                let (i, j) = choose|i: int, j: int|
                    0 <= i < keys.len() && 0 <= j < keys.len() && (#[trigger] keys[i]).len() != (
                    #[trigger] keys[j]).len();
                assert(table@.dom().contains(keys[i]@) && table@.dom().contains(keys[j]@));
            }
            return Err(LibraryError::InconsistentSize);
        }
        proof {
            assert forall|k: Seq<u8>, l: Seq<u8>|
                table@.dom().contains(k) && table@.dom().contains(l) implies k.len()
                == l.len() by {
                let i = choose|i: int| 0 <= i < keys.len() && (#[trigger] keys[i])@ == k;
                let j = choose|j: int| 0 <= j < keys.len() && (#[trigger] keys[j])@ == l;
                assert(keys[i].len() == keys[j].len());
            }
        }
        if keys.len() == 0 {
            return Err(LibraryError::Empty);
        }
        let size = Self::get_key_size(&keys);
        proof {
            assert(table@.dom().contains(keys[0]@));
            if table@.dom().len() == 0 {
                assert(table@.dom() =~= Set::empty());
            }
        }
        if size == 0 {
            return Err(LibraryError::Empty);
        }
        Ok(size)
    }

    /// The alias of a sequence, if the sequence is a guide of the library.
    #[must_use]
    pub fn contains(&self, token: &[u8]) -> (alias: Option<&Vec<u8>>)
        ensures
            alias.is_some() == self@.dom().contains(token@),
            alias matches Some(a) ==> a@ == self@[token@],
    {
        if self.table.contains_key(token) {
            self.alias(token)
        } else {
            None
        }
    }

    /// The alias of a sequence, looked up directly.
    #[must_use]
    pub fn alias(&self, token: &[u8]) -> (alias: Option<&Vec<u8>>)
        ensures
            alias.is_some() == self@.dom().contains(token@),
            alias matches Some(a) ==> a@ == self@[token@],
    {
        self.table.get(token)
    }

    /// The sequences of the library, each once, in no stated order.
    pub fn keys(&self) -> (keys: Vec<Vec<u8>>)
        requires
            self.wf(),
        ensures
            lists_keys(views(keys@), self@),
            forall|i: int| 0 <= i < keys.len() ==> (#[trigger] keys[i]).len() == self.spec_size(),
    {
        let pairs = self.table.entries();
        let mut keys: Vec<Vec<u8>> = Vec::new();
        let mut i: usize = 0;
        while i < pairs.len()
            invariant
                i <= pairs.len(),
                keys.len() == i,
                forall|k: int| 0 <= k < i ==> (#[trigger] keys[k])@ == pairs[k].0@,
            decreases pairs.len() - i,
        {
            keys.push(slice_to_vec(pairs[i].0.as_slice()));
            i = i + 1;
        }
        proof {
            let listed = views(keys@);
            assert forall|k: Seq<u8>| #[trigger] self@.dom().contains(k) implies exists|i: int|
                0 <= i < listed.len() && #[trigger] listed[i] == k by {
                let i = choose|i: int| 0 <= i < pairs.len() && #[trigger] pairs[i].0@ == k;
                assert(listed[i] == k);
            }
            assert forall|i: int| 0 <= i < keys.len() implies (#[trigger] keys[i]).len()
                == self.spec_size() by {
                assert(self@.dom().contains(pairs[i].0@));
            }
        }
        keys
    }

    /// The aliases of the library, one for each sequence, in no stated
    /// order.
    pub fn values(&self) -> (values: Vec<Vec<u8>>)
        ensures
            lists_values(views(values@), self@),
    {
        let pairs = self.table.entries();
        let mut values: Vec<Vec<u8>> = Vec::new();
        let mut i: usize = 0;
        while i < pairs.len()
            invariant
                i <= pairs.len(),
                values.len() == i,
                forall|k: int| 0 <= k < i ==> (#[trigger] values[k])@ == pairs[k].1@,
            decreases pairs.len() - i,
        {
            values.push(slice_to_vec(pairs[i].1.as_slice()));
            i = i + 1;
        }
        proof {
            let keys = Seq::new(pairs.len() as nat, |i: int| pairs[i].0@);
            assert forall|k: Seq<u8>| #[trigger] self@.dom().contains(k) implies exists|i: int|
                0 <= i < keys.len() && #[trigger] keys[i] == k by {
                let i = choose|i: int| 0 <= i < pairs.len() && #[trigger] pairs[i].0@ == k;
                assert(keys[i] == k);
            }
            assert(lists_keys(keys, self@));
            assert forall|i: int| 0 <= i < keys.len() implies #[trigger] views(values@)[i]
                == self@[keys[i]] by {
                assert(self@.dom().contains(pairs[i].0@));
            }
            assert(lists_values_by(views(values@), keys, self@));
        }
        values
    }

    /// The common length of the sequences of the library.
    #[must_use]
    pub fn size(&self) -> (size: usize)
        ensures
            size == self.spec_size(),
    {
        self.size
    }

    /// Every sequence of a library has the length that `size` reports.
    pub proof fn lemma_size_consistent(self)
        requires
            self.wf(),
        ensures
            self.spec_size() > 0,
            self@.dom().finite(),
            self@.dom().len() > 0,
            forall|k: Seq<u8>| #[trigger] self@.dom().contains(k) ==> k.len() == self.spec_size(),
    {
    }
}

} // verus!
