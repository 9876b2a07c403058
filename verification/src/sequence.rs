//! Specifications of nucleotide sequences: Hamming distance and single
//! substitutions over the nucleotide lexicon.

use vstd::prelude::*;

verus! {

/// The number of positions at which two sequences of equal length differ.
/// Of sequences of different lengths, the longer one counts without what
/// stands at its beginning and makes it longer.
pub open spec fn hamming<T>(a: Seq<T>, b: Seq<T>) -> nat
    decreases a.len(),
{
    if a.len() == 0 || b.len() == 0 {
        0
    } else if a.last() == b.last() {
        hamming(a.drop_last(), b.drop_last())
    } else {
        hamming(a.drop_last(), b.drop_last()) + 1
    }
}

/// Two sequences of one length at Hamming distance 1.
pub open spec fn at_distance_one<T>(a: Seq<T>, b: Seq<T>) -> bool {
    a.len() == b.len() && hamming(a, b) == 1
}

/// The nucleotide `A`.
pub const BASE_A: u8 = 0x41;

/// The nucleotide `C`.
pub const BASE_C: u8 = 0x43;

/// The nucleotide `G`.
pub const BASE_G: u8 = 0x47;

/// The nucleotide `T`.
pub const BASE_T: u8 = 0x54;

/// The unknown nucleotide `N`.
pub const BASE_N: u8 = 0x4e;

/// The nucleotide lexicon: `A`, `C`, `G`, `T` and `N`.
pub open spec fn lexicon() -> Seq<u8> {
    seq![BASE_A, BASE_C, BASE_G, BASE_T, BASE_N]
}

/// The byte is one of the five symbols of the lexicon.
pub open spec fn is_symbol(c: u8) -> bool {
    c == BASE_A || c == BASE_C || c == BASE_G || c == BASE_T || c == BASE_N
}

/// Every byte of the sequence is a symbol of the lexicon.
pub open spec fn over_lexicon(s: Seq<u8>) -> bool {
    forall|i: int| 0 <= i < s.len() ==> is_symbol(#[trigger] s[i])
}

/// `child` is `parent` with the byte at position `p` replaced by another
/// one, a symbol of the lexicon.
pub open spec fn substitutes_at(parent: Seq<u8>, child: Seq<u8>, p: int) -> bool {
    &&& 0 <= p < parent.len()
    &&& is_symbol(child[p])
    &&& child[p] != parent[p]
    &&& child == parent.update(p, child[p])
}

/// `child` is `parent` with one byte replaced by another one, a symbol of
/// the lexicon.
pub open spec fn one_off(parent: Seq<u8>, child: Seq<u8>) -> bool {
    exists|p: int| substitutes_at(parent, child, p)
}

/// The complement of a nucleotide: `A` and `T` change places, and so do `C`
/// and `G`. Any other byte, `N` among them, is its own complement.
pub open spec fn complement_of(c: u8) -> u8 {
    if c == BASE_A {
        BASE_T
    } else if c == BASE_T {
        BASE_A
    } else if c == BASE_C {
        BASE_G
    } else if c == BASE_G {
        BASE_C
    } else {
        c
    }
}

/// The reverse complement of a sequence: the complements of its bytes, from
/// the last byte to the first.
pub open spec fn reverse_complement_of(s: Seq<u8>) -> Seq<u8> {
    Seq::new(s.len(), |i: int| complement_of(s[s.len() - 1 - i]))
}

/// The complement of a nucleotide.
pub fn complement(c: u8) -> (complemented: u8)
    ensures
        complemented == complement_of(c),
{
    if c == BASE_A {
        BASE_T
    } else if c == BASE_T {
        BASE_A
    } else if c == BASE_C {
        BASE_G
    } else if c == BASE_G {
        BASE_C
    } else {
        c
    }
}

/// The reverse complement of a sequence.
pub fn reverse_complement(seq: &[u8]) -> (reversed: Vec<u8>)
    ensures
        reversed@ == reverse_complement_of(seq@),
{
    let mut reversed: Vec<u8> = Vec::new();
    let mut i: usize = seq.len();
    while i > 0
        invariant
            i <= seq.len(),
            reversed.len() == seq.len() - i,
            forall|k: int|
                0 <= k < reversed.len() ==> #[trigger] reversed[k] == complement_of(
                    seq[seq.len() - 1 - k],
                ),
        decreases i,
    {
        i = i - 1;
        reversed.push(complement(seq[i]));
    }
    assert(reversed@ =~= reverse_complement_of(seq@));
    reversed
}

/// Taking the reverse complement twice gives the sequence back.
pub proof fn lemma_reverse_complement_involution(s: Seq<u8>)
    ensures
        reverse_complement_of(reverse_complement_of(s)) == s,
{
    assert(reverse_complement_of(reverse_complement_of(s)) =~= s);
}

/// Sequences of one length are equal exactly if their Hamming distance is 0.
pub proof fn lemma_hamming_zero<T>(a: Seq<T>, b: Seq<T>)
    requires
        a.len() == b.len(),
    ensures
        hamming(a, b) == 0 <==> a == b,
    decreases a.len(),
{
    if a.len() > 0 {
        lemma_hamming_zero(a.drop_last(), b.drop_last());
        if a.last() == b.last() && a.drop_last() == b.drop_last() {
            assert(a =~= a.drop_last().push(a.last()));
            assert(b =~= b.drop_last().push(b.last()));
        }
    } else {
        assert(a =~= b);
    }
}

/// Replacing one element by another one gives a sequence at Hamming
/// distance 1.
pub proof fn lemma_hamming_update<T>(a: Seq<T>, p: int, c: T)
    requires
        0 <= p < a.len(),
        c != a[p],
    ensures
        at_distance_one(a, a.update(p, c)),
    decreases a.len(),
{
    let b = a.update(p, c);
    if p == a.len() - 1 {
        assert(b.drop_last() =~= a.drop_last());
        lemma_hamming_zero(a.drop_last(), a.drop_last());
    } else {
        assert(b.drop_last() =~= a.drop_last().update(p, c));
        lemma_hamming_update(a.drop_last(), p, c);
    }
}

/// Sequences at Hamming distance 1 differ at one position and nowhere else.
pub proof fn lemma_hamming_one<T>(a: Seq<T>, b: Seq<T>) -> (p: int)
    requires
        at_distance_one(a, b),
    ensures
        0 <= p < a.len(),
        a[p] != b[p],
        b == a.update(p, b[p]),
    decreases a.len(),
{
    if a.last() == b.last() {
        let p = lemma_hamming_one(a.drop_last(), b.drop_last());
        assert(b =~= a.update(p, b[p])) by {
            assert(b.drop_last() == a.drop_last().update(p, b[p]));
            assert forall|i: int| 0 <= i < b.len() implies b[i] == a.update(p, b[p])[i] by {
                if i < b.len() - 1 {
                    assert(b[i] == b.drop_last()[i]);
                }
            }
        }
        p
    } else {
        lemma_hamming_zero(a.drop_last(), b.drop_last());
        let p = a.len() - 1;
        assert(b =~= a.update(p, b[p])) by {
            assert forall|i: int| 0 <= i < b.len() implies b[i] == a.update(p, b[p])[i] by {
                if i < b.len() - 1 {
                    assert(b[i] == b.drop_last()[i]);
                    assert(a[i] == a.drop_last()[i]);
                }
            }
        }
        p
    }
}

/// A single substitution gives a sequence at Hamming distance 1.
pub proof fn lemma_one_off_distance(parent: Seq<u8>, child: Seq<u8>)
    requires
        one_off(parent, child),
    ensures
        at_distance_one(parent, child),
{
    let p = choose|p: int| substitutes_at(parent, child, p);
    lemma_hamming_update(parent, p, child[p]);
}

/// A sequence over the lexicon at Hamming distance 1 from another one is a
/// single substitution of it.
pub proof fn lemma_distance_one_off(parent: Seq<u8>, child: Seq<u8>)
    requires
        at_distance_one(parent, child),
        over_lexicon(child),
    ensures
        one_off(parent, child),
{
    let p = lemma_hamming_one(parent, child);
    assert(substitutes_at(parent, child, p));
}

/// A single substitution of a sequence replaces one position only.
pub proof fn lemma_substitution_position(parent: Seq<u8>, child: Seq<u8>, p: int, q: int)
    requires
        substitutes_at(parent, child, p),
        substitutes_at(parent, child, q),
    ensures
        p == q,
{
    if p != q {
        assert(parent.update(q, child[q])[p] == parent[p]);
    }
}

} // verus!
