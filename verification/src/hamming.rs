//! Hamming distance between two strings.

use crate::sequence::hamming;
use crate::utils::characters;
use vstd::prelude::*;
use vstd::string::StringSliceAdditionalSpecFns;

verus! {

/// The Hamming distance between two strings of equal length: they have the
/// same number of characters and the same number of bytes.
pub fn hamming_distance(seq_a: &str, seq_b: &str) -> (distance: usize)
    requires
        seq_a@.len() == seq_b@.len(),
        seq_a.spec_bytes().len() == seq_b.spec_bytes().len(),
    ensures
        distance == hamming(seq_a@, seq_b@),
{
    let a = characters(seq_a);
    let b = characters(seq_b);
    let mut distance: usize = 0;
    let mut i: usize = 0;
    while i < a.len()
        invariant
            a.len() == b.len(),
            i <= a.len(),
            distance <= i,
            distance == hamming(a@.take(i as int), b@.take(i as int)),
        decreases a.len() - i,
    {
        proof {
            assert(a@.take(i + 1).drop_last() == a@.take(i as int));
            assert(b@.take(i + 1).drop_last() == b@.take(i as int));
        }
        if a[i] != b[i] {
            distance = distance + 1;
        }
        i = i + 1;
    }
    proof {
        assert(a@.take(i as int) == a@);
        assert(b@.take(i as int) == b@);
    }
    distance
}

} // verus!
