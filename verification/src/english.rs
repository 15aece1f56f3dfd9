//! Symbols and alphabet permutations.
//!
//! All text handled by the library is normalized into numeric symbols: a
//! letter `'a'..='z'` becomes `0..=25`, and a space (where a cipher allows
//! one) becomes `26`. Keys for the substitution and Enigma ciphers are
//! permutations of the 26 letter symbols.

use vstd::prelude::*;
use vstd::set_lib::{lemma_int_range, lemma_len_subset, lemma_subset_equality, set_int_range};

use crate::CipherError;

verus! {

/// Letter symbols are `0..=25`; `26` stands for a space.
pub open spec fn is_letter_symbol(s: u8) -> bool {
    s < 26
}

/// A symbol a cipher that keeps spaces can carry: a letter or a space.
pub open spec fn is_text_symbol(s: u8) -> bool {
    s <= 26
}

/// Every symbol of the sequence is a letter.
pub open spec fn all_letters(t: Seq<u8>) -> bool {
    forall|i: int| 0 <= i < t.len() ==> is_letter_symbol(#[trigger] t[i])
}

/// Every symbol of the sequence is a letter or a space.
pub open spec fn all_text(t: Seq<u8>) -> bool {
    forall|i: int| 0 <= i < t.len() ==> is_text_symbol(#[trigger] t[i])
}

/// The bytes that normalize into symbols: lowercase ASCII letters and the
/// space.
pub open spec fn is_supported_byte(b: u8) -> bool {
    b == 32 || (97 <= b && b <= 122)
}

/// The symbol a supported byte normalizes to.
pub open spec fn symbol_of_byte(b: u8) -> u8 {
    if b == 32 {
        26
    } else {
        (b - 97) as u8
    }
}

/// The byte a symbol renders back to.
pub open spec fn byte_of_symbol(s: u8) -> u8 {
    if s == 26 {
        32
    } else {
        (s + 97) as u8
    }
}

/// Normalizes ASCII text into symbols: `b'a'..=b'z'` become `0..=25` and a
/// space becomes `26`. Any other byte is rejected, naming the offender.
pub fn symbols_from_bytes(bytes: &Vec<u8>) -> (r: Result<Vec<u8>, CipherError>)
    ensures
        r is Ok <==> (forall|i: int| 0 <= i < bytes@.len() ==> is_supported_byte(#[trigger] bytes@[i])),
        r matches Ok(v) ==> v@.len() == bytes@.len()
            && (forall|i: int| 0 <= i < bytes@.len() ==> #[trigger] v@[i] == symbol_of_byte(bytes@[i]))
            && all_text(v@),
        r matches Err(e) ==> (exists|i: int|
            0 <= i < bytes@.len() && !is_supported_byte(#[trigger] bytes@[i])
                && e == CipherError::InvalidCharacter(bytes@[i])),
{
    let mut v: Vec<u8> = Vec::new();
    let n = bytes.len();
    for i in 0..n
        invariant
            n == bytes@.len(),
            v@.len() == i,
            forall|j: int| 0 <= j < i ==> is_supported_byte(#[trigger] bytes@[j]),
            forall|j: int| 0 <= j < i ==> #[trigger] v@[j] == symbol_of_byte(bytes@[j]),
            forall|j: int| 0 <= j < i ==> is_text_symbol(#[trigger] v@[j]),
    {
        let b = bytes[i];
        if b == 32 {
            v.push(26);
        } else if 97 <= b && b <= 122 {
            v.push(b - 97);
        } else {
            return Err(CipherError::InvalidCharacter(b));
        }
    }
    Ok(v)
}

/// Renders symbols back to ASCII bytes: `0..=25` become `b'a'..=b'z'` and
/// `26` becomes a space.
pub fn symbols_to_bytes(syms: &Vec<u8>) -> (r: Vec<u8>)
    requires
        all_text(syms@),
    ensures
        r@.len() == syms@.len(),
        forall|i: int| 0 <= i < syms@.len() ==> #[trigger] r@[i] == byte_of_symbol(syms@[i]),
{
    let mut r: Vec<u8> = Vec::new();
    let n = syms.len();
    for i in 0..n
        invariant
            n == syms@.len(),
            all_text(syms@),
            r@.len() == i,
            forall|j: int| 0 <= j < i ==> #[trigger] r@[j] == byte_of_symbol(syms@[j]),
    {
        let s = syms[i];
        if s == 26 {
            r.push(32);
        } else {
            r.push(s + 97);
        }
    }
    r
}

/// A permutation of the 26 letter symbols: 26 distinct letters.
pub open spec fn is_permutation(k: Seq<u8>) -> bool {
    &&& k.len() == 26
    &&& (forall|i: int| 0 <= i < 26 ==> is_letter_symbol(#[trigger] k[i]))
    &&& (forall|i: int, j: int| 0 <= i < 26 && 0 <= j < 26 && i != j ==> k[i] != k[j])
}

/// The symbol `v` appears somewhere in `k`.
pub open spec fn has_symbol(k: Seq<u8>, v: u8) -> bool {
    exists|i: int| 0 <= i < k.len() && k[i] == v
}

/// A permutation of the 26 letters reaches every letter: 26 distinct values
/// below 26 leave no letter out.
pub proof fn lemma_permutation_surjective(k: Seq<u8>)
    requires
        is_permutation(k),
    ensures
        forall|v: u8| v < 26 ==> #[trigger] has_symbol(k, v),
{
    let s = k.map_values(|x: u8| x as int);
    assert(s.no_duplicates());
    s.unique_seq_to_set();
    let image = s.to_set();
    let range = set_int_range(0, 26);
    lemma_int_range(0, 26);
    assert(image.subset_of(range)) by {
        assert forall|v: int| image.contains(v) implies range.contains(v) by {
            let i = choose|i: int| 0 <= i < s.len() && s[i] == v;
            assert(k[i] < 26);
        }
    }
    lemma_len_subset(image, range);
    lemma_subset_equality(image, range);
    assert forall|v: u8| v < 26 implies #[trigger] has_symbol(k, v) by {
        assert(range.contains(v as int));
        assert(image.contains(v as int));
        let i = choose|i: int| 0 <= i < s.len() && s[i] == v as int;
        assert(k[i] == v);
    }
}

/// Copies a symbol vector.
pub fn copy_symbols(v: &Vec<u8>) -> (r: Vec<u8>)
    ensures
        r@ == v@,
{
    let mut r: Vec<u8> = Vec::new();
    let n = v.len();
    for i in 0..n
        invariant
            n == v@.len(),
            r@ == v@.subrange(0, i as int),
    {
        r.push(v[i]);
        proof {
            assert(r@ =~= v@.subrange(0, i + 1));
        }
    }
    proof {
        assert(r@ =~= v@);
    }
    r
}

/// The identity permutation: each letter maps to itself.
pub fn identity_permutation() -> (r: Vec<u8>)
    ensures
        is_permutation(r@),
        r@.len() == 26,
        forall|i: int| 0 <= i < 26 ==> #[trigger] r@[i] == i,
{
    let mut r: Vec<u8> = Vec::new();
    let mut i: u8 = 0;
    while i < 26
        invariant
            i <= 26,
            r@.len() == i,
            forall|j: int| 0 <= j < i ==> #[trigger] r@[j] == j,
        decreases 26 - i,
    {
        r.push(i);
        i = i + 1;
    }
    r
}

/// Inverts a permutation: the result sends each image back to its source.
pub fn invert_permutation(key: &Vec<u8>) -> (r: Vec<u8>)
    requires
        is_permutation(key@),
    ensures
        is_permutation(r@),
        forall|i: int| 0 <= i < 26 ==> #[trigger] r@[key@[i] as int] == i,
        forall|i: int| 0 <= i < 26 ==> #[trigger] key@[r@[i] as int] == i,
{
    let mut r: Vec<u8> = Vec::new();
    let mut z: u8 = 0;
    while z < 26
        invariant
            z <= 26,
            r@.len() == z,
        decreases 26 - z,
    {
        r.push(0);
        z = z + 1;
    }
    for i in 0..26usize
        invariant
            r@.len() == 26,
            is_permutation(key@),
            forall|j: int| 0 <= j < i ==> #[trigger] r@[key@[j] as int] == j,
    {
        let dest = key[i] as usize;
        r[dest] = i as u8;
    }
    proof {
        lemma_permutation_surjective(key@);
        assert forall|v: int| 0 <= v < 26 implies is_letter_symbol(#[trigger] r@[v])
            && key@[r@[v] as int] == v by {
            assert(has_symbol(key@, v as u8));
            let j = choose|j: int| 0 <= j < key@.len() && key@[j] == v as u8;
            assert(r@[v] == j);
        }
        assert forall|a: int, b: int|
            0 <= a < 26 && 0 <= b < 26 && a != b implies r@[a] != r@[b] by {
            assert(key@[r@[a] as int] == a);
            assert(key@[r@[b] as int] == b);
        }
    }
    r
}

} // verus!
