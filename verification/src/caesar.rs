//! The Caesar shift cipher: a single shift of the whole alphabet. It sits
//! outside the hill-climbing core — a brute-force chi-squared crack over the
//! 26 shifts breaks it — but its transform and letter counting live here.

use vstd::prelude::*;

use crate::english::all_letters;
use crate::CipherError;

verus! {

/// One symbol shifted back by the key (the encryption direction here).
pub open spec fn caesar_enc_sym(x: u8, key: int) -> u8 {
    (((x + 26 - key) % 26) as u8)
}

/// One symbol shifted forward by the key (the decryption direction here).
pub open spec fn caesar_dec_sym(y: u8, key: int) -> u8 {
    (((y + key) % 26) as u8)
}

/// Caesar-encrypts a text: every letter moves down the alphabet by the key.
/// Keys outside 1 to 26 and symbols outside the letter alphabet are
/// rejected.
pub fn encrypt(plaintext: &Vec<u8>, key: usize) -> (r: Result<Vec<u8>, CipherError>)
    ensures
        r is Ok <==> (1 <= key <= 26 && all_letters(plaintext@)),
        r matches Ok(c) ==> c@.len() == plaintext@.len() && (forall|i: int|
            0 <= i < plaintext@.len() ==> #[trigger] c@[i] == caesar_enc_sym(
                plaintext@[i],
                key as int,
            )) && all_letters(c@),
        r matches Err(e) ==> e == (if key < 1 || key > 26 {
            CipherError::InvalidKey
        } else {
            CipherError::InvalidCharacter(first_invalid(plaintext@))
        }),
        r is Err && 1 <= key <= 26 ==> !all_letters(plaintext@),
{
    if key < 1 || key > 26 {
        return Err(CipherError::InvalidKey);
    }
    let mut c: Vec<u8> = Vec::new();
    let n = plaintext.len();
    for i in 0..n
        invariant
            n == plaintext@.len(),
            1 <= key <= 26,
            c@.len() == i,
            forall|j: int| 0 <= j < i ==> #[trigger] plaintext@[j] < 26,
            forall|j: int| 0 <= j < i ==> #[trigger] c@[j] == caesar_enc_sym(
                plaintext@[j],
                key as int,
            ),
            forall|j: int| 0 <= j < i ==> #[trigger] c@[j] < 26,
    {
        let x = plaintext[i];
        if x >= 26 {
            proof {
                lemma_first_invalid(plaintext@, i as int);
            }
            return Err(CipherError::InvalidCharacter(x));
        }
        c.push(((x as usize + 26 - key) % 26) as u8);
    }
    Ok(c)
}

/// Caesar-decrypts a text: every letter moves up the alphabet by the key.
/// Keys outside 1 to 26 and symbols outside the letter alphabet are
/// rejected.
pub fn decrypt(ciphertext: &Vec<u8>, key: usize) -> (r: Result<Vec<u8>, CipherError>)
    ensures
        r is Ok <==> (1 <= key <= 26 && all_letters(ciphertext@)),
        r matches Ok(p) ==> p@.len() == ciphertext@.len() && (forall|i: int|
            0 <= i < ciphertext@.len() ==> #[trigger] p@[i] == caesar_dec_sym(
                ciphertext@[i],
                key as int,
            )) && all_letters(p@),
        r matches Err(e) ==> e == (if key < 1 || key > 26 {
            CipherError::InvalidKey
        } else {
            CipherError::InvalidCharacter(first_invalid(ciphertext@))
        }),
        r is Err && 1 <= key <= 26 ==> !all_letters(ciphertext@),
{
    if key < 1 || key > 26 {
        return Err(CipherError::InvalidKey);
    }
    let mut p: Vec<u8> = Vec::new();
    let n = ciphertext.len();
    for i in 0..n
        invariant
            n == ciphertext@.len(),
            1 <= key <= 26,
            p@.len() == i,
            forall|j: int| 0 <= j < i ==> #[trigger] ciphertext@[j] < 26,
            forall|j: int| 0 <= j < i ==> #[trigger] p@[j] == caesar_dec_sym(
                ciphertext@[j],
                key as int,
            ),
            forall|j: int| 0 <= j < i ==> #[trigger] p@[j] < 26,
    {
        let y = ciphertext[i];
        if y >= 26 {
            proof {
                lemma_first_invalid(ciphertext@, i as int);
            }
            return Err(CipherError::InvalidCharacter(y));
        }
        p.push(((y as usize + key) % 26) as u8);
    }
    Ok(p)
}

/// The first symbol of the text that is no letter (0 where all are letters).
pub open spec fn first_invalid(t: Seq<u8>) -> u8
    decreases t.len(),
{
    if t.len() == 0 {
        0
    } else if t[0] >= 26 {
        t[0]
    } else {
        first_invalid(t.drop_first())
    }
}

proof fn lemma_first_invalid(t: Seq<u8>, i: int)
    requires
        0 <= i < t.len(),
        t[i] >= 26,
        forall|j: int| 0 <= j < i ==> #[trigger] t[j] < 26,
    ensures
        first_invalid(t) == t[i],
    decreases i,
{
    if i == 0 {
    } else {
        assert(t.drop_first()[i - 1] == t[i]);
        assert forall|j: int| 0 <= j < i - 1 implies #[trigger] t.drop_first()[j] < 26 by {
            assert(t.drop_first()[j] == t[j + 1]);
        }
        lemma_first_invalid(t.drop_first(), i - 1);
    }
}

/// Round trip: shifting up by the key undoes shifting down, for every key in
/// range and every letter text.
pub proof fn lemma_caesar_round_trip(p: Seq<u8>, key: int, c: Seq<u8>, p2: Seq<u8>)
    requires
        1 <= key <= 26,
        all_letters(p),
        c.len() == p.len(),
        forall|i: int| 0 <= i < p.len() ==> #[trigger] c[i] == caesar_enc_sym(p[i], key),
        p2.len() == c.len(),
        forall|i: int| 0 <= i < c.len() ==> #[trigger] p2[i] == caesar_dec_sym(c[i], key),
    ensures
        p2 == p,
{
    assert forall|i: int| 0 <= i < p.len() implies p2[i] == p[i] by {
        let x = p[i];
        if x + 26 - key < 26 {
            assert((x + 26 - key) % 26 == x + 26 - key);
        } else {
            assert((x + 26 - key) % 26 == x - key);
        }
    }
    assert(p2 =~= p);
}

/// How many of the first `n` symbols equal `c`.
pub open spec fn count_symbol(t: Seq<u8>, c: int, n: int) -> int
    decreases n,
{
    if n <= 0 {
        0
    } else {
        count_symbol(t, c, n - 1) + if t[n - 1] == c {
            1int
        } else {
            0int
        }
    }
}

proof fn lemma_count_symbol_le(t: Seq<u8>, c: int, n: int)
    ensures
        0 <= count_symbol(t, c, n),
        n >= 0 ==> count_symbol(t, c, n) <= n,
    decreases n,
{
    if n > 0 {
        lemma_count_symbol_le(t, c, n - 1);
    }
}

/// Counts how often each letter occurs in a text: the frequency table a
/// chi-squared crack compares against expected English frequencies.
pub fn counter(text: &Vec<u8>) -> (r: Vec<usize>)
    ensures
        r@.len() == 26,
        forall|c: int| 0 <= c < 26 ==> #[trigger] r@[c] == count_symbol(
            text@,
            c,
            text@.len() as int,
        ),
{
    let mut r: Vec<usize> = Vec::new();
    let mut z: usize = 0;
    while z < 26
        invariant
            z <= 26,
            r@.len() == z,
            forall|c: int| 0 <= c < z ==> #[trigger] r@[c] == 0,
        decreases 26 - z,
    {
        r.push(0);
        z = z + 1;
    }
    let n = text.len();
    for i in 0..n
        invariant
            n == text@.len(),
            r@.len() == 26,
            forall|c: int| 0 <= c < 26 ==> #[trigger] r@[c] == count_symbol(text@, c, i as int),
    {
        let s = text[i];
        if s < 26 {
            proof {
                lemma_count_symbol_le(text@, s as int, i as int);
            }
            let cur = r[s as usize];
            r[s as usize] = cur + 1;
        }
        proof {
            assert forall|c: int| 0 <= c < 26 implies #[trigger] r@[c] == count_symbol(
                text@,
                c,
                i + 1,
            ) by {}
        }
    }
    r
}

} // verus!
