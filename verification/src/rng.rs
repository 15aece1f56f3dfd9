//! The randomness capability the crackers consume: a uniformly random
//! permutation of the alphabet and random letter strings. Nothing is assumed
//! of the distribution; the contracts state only what holds of every outcome.

use rand::seq::SliceRandom;
use vstd::prelude::*;
use vstd::seq_lib::group_to_multiset_ensures;

use crate::english::{all_letters, identity_permutation, is_letter_symbol, is_permutation};

verus! {

/// Relies on rand's `SliceRandom::shuffle`: a Fisher-Yates shuffle that
/// permutes the slice in place by swaps, so the multiset of elements is
/// unchanged.
#[verifier::external_body]
fn shuffle_symbols(v: &mut Vec<u8>)
    ensures
        final(v)@.to_multiset() == old(v)@.to_multiset(),
{
    v.shuffle(&mut rand::thread_rng());
}

/// Relies on rand's `SliceRandom::choose`: on a nonempty slice it returns
/// `Some` of one of the slice's elements (`None` only on an empty slice).
#[verifier::external_body]
fn choose_symbol(v: &Vec<u8>) -> (r: u8)
    requires
        v@.len() > 0,
    ensures
        v@.contains(r),
{
    *v.as_slice().choose(&mut rand::thread_rng()).unwrap()
}

/// A random permutation of the 26 letter symbols.
pub fn random_permutation() -> (r: Vec<u8>)
    ensures
        is_permutation(r@),
{
    let mut key = identity_permutation();
    let ghost id = key@;
    shuffle_symbols(&mut key);
    proof {
        broadcast use group_to_multiset_ensures;

        assert(key@.len() == key@.to_multiset().len());
        assert(id.len() == id.to_multiset().len());
        assert forall|i: int| 0 <= i < 26 implies is_letter_symbol(#[trigger] key@[i]) by {
            assert(key@.to_multiset().count(key@[i]) > 0);
            assert(id.contains(key@[i]));
        }
        id.lemma_multiset_has_no_duplicates();
        key@.lemma_multiset_has_no_duplicates_conv();
        assert(key@.no_duplicates());
    }
    key
}

/// A random string of letter symbols of the given length.
pub fn random_letters(len: usize) -> (r: Vec<u8>)
    ensures
        r@.len() == len,
        all_letters(r@),
{
    let alphabet = identity_permutation();
    let mut r: Vec<u8> = Vec::new();
    let mut i: usize = 0;
    while i < len
        invariant
            i <= len,
            r@.len() == i,
            all_letters(r@),
            is_permutation(alphabet@),
        decreases len - i,
    {
        let s = choose_symbol(&alphabet);
        proof {
            let j = choose|j: int| 0 <= j < alphabet@.len() && alphabet@[j] == s;
            assert(is_letter_symbol(s));
        }
        r.push(s);
        i = i + 1;
    }
    r
}

} // verus!
