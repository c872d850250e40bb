use vstd::prelude::*;

verus! {

/// The SHA-256 digest of a byte string, named: it is a function of the
/// input alone, too long to state, and pinned to the real hash only through
/// [`sha256`].
pub uninterp spec fn sha256_of(bytes: Seq<u8>) -> Seq<u8>;

/// Relies on sha2's `Sha256::digest`: a 32-byte digest that depends on the
/// input bytes alone.
#[verifier::external_body]
pub(crate) fn sha256(bytes: &Vec<u8>) -> (r: Vec<u8>)
    ensures
        r@ == sha256_of(bytes@),
        r@.len() == 32,
{
    <sha2::Sha256 as sha2::Digest>::digest(bytes.as_slice()).to_vec()
}

/// The permutation that a ChaCha-driven shuffle applies to a sequence under
/// a 32-byte seed, named: it is a function of the seed and the sequence
/// alone, and pinned to the real generator only through [`shuffle_deck`].
pub uninterp spec fn shuffle_of(cards: Seq<u8>, seed: Seq<u8>) -> Seq<u8>;

/// Relies on rand's `SliceRandom::shuffle` driven by rand_chacha's
/// `ChaChaRng::from_seed`: it permutes the slice in place, deterministically
/// in the seed and the prior contents (no other randomness is consumed), so
/// the result keeps the length, the multiset of elements, membership, and
/// distinctness.
#[verifier::external_body]
pub(crate) fn shuffle_deck(deck: &mut Vec<u8>, seed: &Vec<u8>)
    requires
        seed@.len() == 32,
    ensures
        final(deck)@ == shuffle_of(old(deck)@, seed@),
        final(deck)@.len() == old(deck)@.len(),
        final(deck)@.to_multiset() == old(deck)@.to_multiset(),
        forall|x: u8| final(deck)@.contains(x) <==> old(deck)@.contains(x),
        (forall|i: int, j: int|
            0 <= i < j < old(deck)@.len() ==> old(deck)@[i] != old(deck)@[j]) ==> (forall|
            i: int,
            j: int,
        |
            0 <= i < j < final(deck)@.len() ==> final(deck)@[i] != final(deck)@[j]),
{
    let mut s = [0u8; 32];
    s.copy_from_slice(seed.as_slice());
    let mut rng = <rand_chacha::ChaChaRng as rand::SeedableRng>::from_seed(s);
    rand::seq::SliceRandom::shuffle(deck.as_mut_slice(), &mut rng);
}

} // verus!
