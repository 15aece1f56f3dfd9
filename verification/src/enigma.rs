//! The three-rotor Enigma-like cipher and its cracker.
//!
//! A key is three independent permutations of the 26 letters. At position
//! `i` the three rotors are applied in sequence, each rotated by its own
//! schedule: rotor 0 by `i mod 26`, rotor 1 by `(i / 26) mod 26`, rotor 2 by
//! `(i / 676) mod 26`. The cracker precomputes all 26 rotations of every
//! reversed rotor in one flat table so that decrypting a position is three
//! direct lookups; a key move swaps two entries of one rotor, and since the
//! rotor's effect is position-dependent the rescoring after a move reads the
//! whole text again.

use vstd::prelude::*;

use crate::english::{all_letters, copy_symbols, invert_permutation, is_permutation};
use crate::fitness::{
    compute_fitness, fitness_sum, fitting_symbols, lemma_fitness_sum_bounds, FitnessMatrix,
};
use crate::rng::random_permutation;
use crate::substitution::lemma_swapped_is_permutation;
use crate::CipherError;

verus! {

/// An Enigma key: three rotor permutations.
pub struct EnigmaKey {
    pub r0: Vec<u8>,
    pub r1: Vec<u8>,
    pub r2: Vec<u8>,
}

impl EnigmaKey {
    /// Each rotor is a permutation of the 26 letters.
    pub open spec fn wf(self) -> bool {
        is_permutation(self.r0@) && is_permutation(self.r1@) && is_permutation(self.r2@)
    }
}

/// The rotor of a key with the given number.
pub open spec fn rotor_of(key: EnigmaKey, rn: int) -> Seq<u8> {
    if rn == 0 {
        key.r0@
    } else if rn == 1 {
        key.r1@
    } else {
        key.r2@
    }
}

/// The symbol position `i` of the plaintext encrypts to: each rotor applied
/// in sequence, rotated by its schedule.
pub open spec fn enigma_enc_sym(key: EnigmaKey, i: int, x: u8) -> u8 {
    let a = key.r0@[(x + i % 26) % 26];
    let b = key.r1@[(a + (i / 26) % 26) % 26];
    key.r2@[(b + (i / 676) % 26) % 26]
}

/// A whole plaintext under the Enigma transform.
pub open spec fn enigma_enc_map(key: EnigmaKey, p: Seq<u8>) -> Seq<u8> {
    Seq::new(p.len(), |i: int| enigma_enc_sym(key, i, p[i]))
}

/// `p` is a decryption of `ct`: letter symbols that encrypt back to `ct`.
pub open spec fn is_decryption(key: EnigmaKey, ct: Seq<u8>, p: Seq<u8>) -> bool {
    p.len() == ct.len() && (forall|i: int|
        0 <= i < ct.len() ==> #[trigger] p[i] < 26 && enigma_enc_sym(key, i, p[i]) == ct[i])
}

/// The decryption of a ciphertext under a key; rotors are injective, so at
/// most one text qualifies.
pub open spec fn enigma_dec_map(key: EnigmaKey, ct: Seq<u8>) -> Seq<u8> {
    choose|p: Seq<u8>| is_decryption(key, ct, p)
}

/// Two letters shifted by one rotation land on one slot only when they are
/// one letter.
proof fn lemma_shift_cancel(u: int, v: int, k: int)
    requires
        0 <= u < 26,
        0 <= v < 26,
        0 <= k < 26,
        (u + k) % 26 == (v + k) % 26,
    ensures
        u == v,
{
    if u + k < 26 {
        assert((u + k) % 26 == u + k);
    } else {
        assert((u + k) % 26 == u + k - 26);
    }
    if v + k < 26 {
        assert((v + k) % 26 == v + k);
    } else {
        assert((v + k) % 26 == v + k - 26);
    }
}

/// One position encrypts injectively: the rotor chain is a composition of
/// permutations.
proof fn lemma_enc_sym_injective(key: EnigmaKey, i: int, x1: u8, x2: u8)
    requires
        key.wf(),
        x1 < 26,
        x2 < 26,
        i >= 0,
        enigma_enc_sym(key, i, x1) == enigma_enc_sym(key, i, x2),
    ensures
        x1 == x2,
{
    let k1 = i % 26;
    let k2 = (i / 26) % 26;
    let k3 = (i / 676) % 26;
    let a1 = key.r0@[(x1 + k1) % 26];
    let a2 = key.r0@[(x2 + k1) % 26];
    let b1 = key.r1@[(a1 + k2) % 26];
    let b2 = key.r1@[(a2 + k2) % 26];
    if (b1 + k3) % 26 != (b2 + k3) % 26 {
        assert(key.r2@[(b1 + k3) % 26] != key.r2@[(b2 + k3) % 26]);
    }
    lemma_shift_cancel(b1 as int, b2 as int, k3);
    if (a1 + k2) % 26 != (a2 + k2) % 26 {
        assert(key.r1@[(a1 + k2) % 26] != key.r1@[(a2 + k2) % 26]);
    }
    lemma_shift_cancel(a1 as int, a2 as int, k2);
    if (x1 + k1) % 26 != (x2 + k1) % 26 {
        assert(key.r0@[(x1 + k1) % 26] != key.r0@[(x2 + k1) % 26]);
    }
    lemma_shift_cancel(x1 as int, x2 as int, k1);
}

/// At most one text decrypts a ciphertext under one key.
proof fn lemma_decryption_unique(key: EnigmaKey, ct: Seq<u8>, p1: Seq<u8>, p2: Seq<u8>)
    requires
        key.wf(),
        is_decryption(key, ct, p1),
        is_decryption(key, ct, p2),
    ensures
        p1 == p2,
{
    assert forall|i: int| 0 <= i < ct.len() implies p1[i] == p2[i] by {
        lemma_enc_sym_injective(key, i, p1[i], p2[i]);
    }
    assert(p1 =~= p2);
}

/// Round trip: the decryption of an encryption is the plaintext again, for
/// every well-formed key and every letter text.
pub proof fn lemma_enigma_round_trip(key: EnigmaKey, p: Seq<u8>)
    requires
        key.wf(),
        all_letters(p),
    ensures
        enigma_dec_map(key, enigma_enc_map(key, p)) == p,
{
    let ct = enigma_enc_map(key, p);
    assert(is_decryption(key, ct, p));
    let q = enigma_dec_map(key, ct);
    assert(is_decryption(key, ct, q));
    lemma_decryption_unique(key, ct, q, p);
}

/// A fresh Enigma key: three uniformly random rotors.
pub fn generate_enigmakey() -> (r: EnigmaKey)
    ensures
        r.wf(),
{
    EnigmaKey { r0: random_permutation(), r1: random_permutation(), r2: random_permutation() }
}

/// The slot of the flat rotation table that holds entry `j` of rotation `k`
/// of rotor `rn`.
pub open spec fn rk_at(rk: Seq<u8>, rn: int, k: int, j: int) -> u8 {
    rk[rn * 676 + k * 26 + j]
}

/// The flat table holds the 26 rotations of each of a key's rotors.
pub open spec fn is_rotation_table(rk: Seq<u8>, key: EnigmaKey) -> bool {
    rk.len() == 2028 && (forall|rn: int, k: int, j: int|
        0 <= rn < 3 && 0 <= k < 26 && 0 <= j < 26 ==> #[trigger] rk_at(rk, rn, k, j) == rotor_of(
            key,
            rn,
        )[(j + k) % 26])
}

/// Precomputes all 26 rotations of each rotor in one flat table: entry `j`
/// of rotation `k` of rotor `rn` is the rotor read at `(j + k) mod 26`.
pub fn rotate_key(key: &EnigmaKey) -> (r: Vec<u8>)
    requires
        key.wf(),
    ensures
        is_rotation_table(r@, *key),
        forall|idx: int| 0 <= idx < 2028 ==> #[trigger] r@[idx] < 26,
{
    let mut r: Vec<u8> = Vec::new();
    let mut rn: usize = 0;
    while rn < 3
        invariant
            key.wf(),
            rn <= 3,
            r@.len() == rn * 676,
            forall|rn2: int, k: int, j: int|
                0 <= rn2 < rn && 0 <= k < 26 && 0 <= j < 26 ==> #[trigger] rk_at(r@, rn2, k, j)
                    == rotor_of(*key, rn2)[(j + k) % 26],
            forall|idx: int| 0 <= idx < r@.len() ==> #[trigger] r@[idx] < 26,
        decreases 3 - rn,
    {
        let rotor = if rn == 0 {
            &key.r0
        } else if rn == 1 {
            &key.r1
        } else {
            &key.r2
        };
        let mut k: usize = 0;
        while k < 26
            invariant
                key.wf(),
                rn < 3,
                k <= 26,
                is_permutation(rotor@),
                rotor@ == rotor_of(*key, rn as int),
                r@.len() == rn * 676 + k * 26,
                forall|rn2: int, k2: int, j: int|
                    0 <= rn2 < rn && 0 <= k2 < 26 && 0 <= j < 26 ==> #[trigger] rk_at(
                        r@,
                        rn2,
                        k2,
                        j,
                    ) == rotor_of(*key, rn2)[(j + k2) % 26],
                forall|k2: int, j: int|
                    0 <= k2 < k && 0 <= j < 26 ==> #[trigger] rk_at(r@, rn as int, k2, j)
                        == rotor@[(j + k2) % 26],
                forall|idx: int| 0 <= idx < r@.len() ==> #[trigger] r@[idx] < 26,
            decreases 26 - k,
        {
            let mut j: usize = 0;
            while j < 26
                invariant
                    key.wf(),
                    rn < 3,
                    k < 26,
                    j <= 26,
                    is_permutation(rotor@),
                    rotor@ == rotor_of(*key, rn as int),
                    r@.len() == rn * 676 + k * 26 + j,
                    forall|rn2: int, k2: int, j2: int|
                        0 <= rn2 < rn && 0 <= k2 < 26 && 0 <= j2 < 26 ==> #[trigger] rk_at(
                            r@,
                            rn2,
                            k2,
                            j2,
                        ) == rotor_of(*key, rn2)[(j2 + k2) % 26],
                    forall|k2: int, j2: int|
                        0 <= k2 < k && 0 <= j2 < 26 ==> #[trigger] rk_at(r@, rn as int, k2, j2)
                            == rotor@[(j2 + k2) % 26],
                    forall|j2: int|
                        0 <= j2 < j ==> #[trigger] rk_at(r@, rn as int, k as int, j2)
                            == rotor@[(j2 + k as int) % 26],
                    forall|idx: int| 0 <= idx < r@.len() ==> #[trigger] r@[idx] < 26,
                decreases 26 - j,
            {
                let ghost r0 = r@;
                r.push(rotor[(j + k) % 26]);
                proof {
                    assert forall|rn2: int, k2: int, j2: int|
                        0 <= rn2 < rn && 0 <= k2 < 26 && 0 <= j2 < 26 implies #[trigger] rk_at(
                        r@,
                        rn2,
                        k2,
                        j2,
                    ) == rotor_of(*key, rn2)[(j2 + k2) % 26] by {
                        assert(rk_at(r0, rn2, k2, j2) == rotor_of(*key, rn2)[(j2 + k2) % 26]);
                        assert(rn2 * 676 + k2 * 26 + j2 < r0.len());
                    }
                    assert forall|k2: int, j2: int|
                        0 <= k2 < k && 0 <= j2 < 26 implies #[trigger] rk_at(
                        r@,
                        rn as int,
                        k2,
                        j2,
                    ) == rotor@[(j2 + k2) % 26] by {
                        assert(rk_at(r0, rn as int, k2, j2) == rotor@[(j2 + k2) % 26]);
                        assert(rn * 676 + k2 * 26 + j2 < r0.len());
                    }
                    assert forall|j2: int| 0 <= j2 < j implies #[trigger] rk_at(
                        r@,
                        rn as int,
                        k as int,
                        j2,
                    ) == rotor@[(j2 + k as int) % 26] by {
                        assert(rk_at(r0, rn as int, k as int, j2) == rotor@[(j2 + k as int)
                            % 26]);
                        assert(rn * 676 + k * 26 + j2 < r0.len());
                    }
                    assert(r@[rn * 676 + k * 26 + j] == rotor@[(j + k as int) % 26]);
                    assert(rk_at(r@, rn as int, k as int, j as int) == rotor@[(j + k as int)
                        % 26]);
                }
                j = j + 1;
            }
            k = k + 1;
        }
        rn = rn + 1;
    }
    r
}

/// The second table holds, for every rotation of every rotor, the inverse of
/// the first table's row.
pub open spec fn is_reversed_table(rev: Seq<u8>, rk: Seq<u8>) -> bool {
    rev.len() == 2028 && (forall|rn: int, k: int, v: int|
        0 <= rn < 3 && 0 <= k < 26 && 0 <= v < 26 ==> #[trigger] rk_at(rev, rn, k, v) < 26
            && rk_at(rk, rn, k, rk_at(rev, rn, k, v) as int) == v && rk_at(
            rev,
            rn,
            k,
            rk_at(rk, rn, k, v) as int,
        ) == v)
}

/// Inverts every rotation of every rotor of a flat rotation table: each
/// reversed row sends a rotated row's image back to its slot.
pub fn reverse_key(rk: &Vec<u8>) -> (r: Vec<u8>)
    requires
        rk@.len() == 2028,
        forall|rn: int, k: int|
            0 <= rn < 3 && 0 <= k < 26 ==> is_permutation(
                #[trigger] rk@.subrange(rn * 676 + k * 26, rn * 676 + k * 26 + 26),
            ),
    ensures
        is_reversed_table(r@, rk@),
{
    let mut r: Vec<u8> = Vec::new();
    let mut rn: usize = 0;
    while rn < 3
        invariant
            rk@.len() == 2028,
            forall|rn2: int, k: int|
                0 <= rn2 < 3 && 0 <= k < 26 ==> is_permutation(
                    #[trigger] rk@.subrange(rn2 * 676 + k * 26, rn2 * 676 + k * 26 + 26),
                ),
            rn <= 3,
            r@.len() == rn * 676,
            forall|rn2: int, k: int, v: int|
                0 <= rn2 < rn && 0 <= k < 26 && 0 <= v < 26 ==> #[trigger] rk_at(r@, rn2, k, v)
                    < 26 && rk_at(rk@, rn2, k, rk_at(r@, rn2, k, v) as int) == v && rk_at(
                    r@,
                    rn2,
                    k,
                    rk_at(rk@, rn2, k, v) as int,
                ) == v,
        decreases 3 - rn,
    {
        let mut k: usize = 0;
        while k < 26
            invariant
                rk@.len() == 2028,
                forall|rn2: int, k2: int|
                    0 <= rn2 < 3 && 0 <= k2 < 26 ==> is_permutation(
                        #[trigger] rk@.subrange(rn2 * 676 + k2 * 26, rn2 * 676 + k2 * 26 + 26),
                    ),
                rn < 3,
                k <= 26,
                r@.len() == rn * 676 + k * 26,
                forall|rn2: int, k2: int, v: int|
                    0 <= rn2 < rn && 0 <= k2 < 26 && 0 <= v < 26 ==> #[trigger] rk_at(
                        r@,
                        rn2,
                        k2,
                        v,
                    ) < 26 && rk_at(rk@, rn2, k2, rk_at(r@, rn2, k2, v) as int) == v && rk_at(
                        r@,
                        rn2,
                        k2,
                        rk_at(rk@, rn2, k2, v) as int,
                    ) == v,
                forall|k2: int, v: int|
                    0 <= k2 < k && 0 <= v < 26 ==> #[trigger] rk_at(r@, rn as int, k2, v) < 26
                        && rk_at(rk@, rn as int, k2, rk_at(r@, rn as int, k2, v) as int) == v
                        && rk_at(r@, rn as int, k2, rk_at(rk@, rn as int, k2, v) as int) == v,
            decreases 26 - k,
        {
            let base = rn * 676 + k * 26;
            let mut rotor: Vec<u8> = Vec::new();
            let mut j: usize = 0;
            while j < 26
                invariant
                    rk@.len() == 2028,
                    rn < 3,
                    k < 26,
                    base == rn * 676 + k * 26,
                    j <= 26,
                    rotor@.len() == j,
                    forall|j2: int| 0 <= j2 < j ==> #[trigger] rotor@[j2] == rk@[base + j2],
                decreases 26 - j,
            {
                rotor.push(rk[base + j]);
                j = j + 1;
            }
            proof {
                let sub = rk@.subrange(base as int, base + 26);
                assert(is_permutation(sub));
                assert(rotor@ =~= sub);
            }
            let inv = invert_permutation(&rotor);
            let ghost r0 = r@;
            let mut v: usize = 0;
            while v < 26
                invariant
                    rn < 3,
                    k < 26,
                    base == rn * 676 + k * 26,
                    v <= 26,
                    rk@.len() == 2028,
                    rotor@.len() == 26,
                    forall|j2: int| 0 <= j2 < 26 ==> #[trigger] rotor@[j2] == rk@[base + j2],
                    is_permutation(inv@),
                    forall|i: int| 0 <= i < 26 ==> #[trigger] inv@[rotor@[i] as int] == i,
                    forall|i: int| 0 <= i < 26 ==> #[trigger] rotor@[inv@[i] as int] == i,
                    r@.len() == base + v,
                    r@ == r0 + inv@.subrange(0, v as int),
                    r0.len() == base,
                decreases 26 - v,
            {
                r.push(inv[v]);
                proof {
                    assert(r@ =~= r0 + inv@.subrange(0, v + 1));
                }
                v = v + 1;
            }
            proof {
                assert forall|v2: int| 0 <= v2 < 26 implies #[trigger] r@[base + v2]
                    == inv@[v2] by {
                    assert(r@[base + v2] == (r0 + inv@.subrange(0, 26))[base + v2]);
                }
                assert forall|v2: int|
                    0 <= v2 < 26 implies #[trigger] rk_at(r@, rn as int, k as int, v2) < 26
                        && rk_at(rk@, rn as int, k as int, rk_at(r@, rn as int, k as int, v2) as int)
                        == v2 && rk_at(
                    r@,
                    rn as int,
                    k as int,
                    rk_at(rk@, rn as int, k as int, v2) as int,
                ) == v2 by {
                    assert(r@[base + v2] == inv@[v2]);
                    assert(rotor@[inv@[v2] as int] == v2);
                    assert(rotor@[v2] == rk@[base + v2]);
                    assert(inv@[rotor@[v2] as int] == v2);
                }
                assert forall|rn2: int, k2: int, v2: int|
                    0 <= rn2 < 3 && 0 <= k2 < 26 && 0 <= v2 < 26 && rn2 * 676 + k2 * 26
                        < base implies #[trigger] rk_at(r@, rn2, k2, v2) == rk_at(
                    r0,
                    rn2,
                    k2,
                    v2,
                ) by {
                    assert(rn2 * 676 + k2 * 26 + v2 < base);
                    assert(r@ == r0 + inv@.subrange(0, 26));
                    assert(r@[rn2 * 676 + k2 * 26 + v2] == r0[rn2 * 676 + k2 * 26 + v2]);
                }
                assert forall|rn2: int, k2: int, v2: int|
                    0 <= rn2 < rn && 0 <= k2 < 26 && 0 <= v2 < 26 implies #[trigger] rk_at(
                        r@,
                        rn2,
                        k2,
                        v2,
                    ) < 26 && rk_at(rk@, rn2, k2, rk_at(r@, rn2, k2, v2) as int) == v2 && rk_at(
                        r@,
                        rn2,
                        k2,
                        rk_at(rk@, rn2, k2, v2) as int,
                    ) == v2 by {
                    assert(rn2 * 676 + k2 * 26 < base);
                    assert(rk_at(r0, rn2, k2, v2) < 26);
                    assert(rk_at(r@, rn2, k2, v2) == rk_at(r0, rn2, k2, v2));
                    lemma_table_entry_letter(rk@, rn2, k2, v2);
                    assert(rk_at(r@, rn2, k2, rk_at(rk@, rn2, k2, v2) as int) == rk_at(
                        r0,
                        rn2,
                        k2,
                        rk_at(rk@, rn2, k2, v2) as int,
                    ));
                }
                assert forall|k2: int, v2: int|
                    0 <= k2 < k && 0 <= v2 < 26 implies #[trigger] rk_at(r@, rn as int, k2, v2)
                        < 26 && rk_at(rk@, rn as int, k2, rk_at(r@, rn as int, k2, v2) as int)
                        == v2 && rk_at(r@, rn as int, k2, rk_at(rk@, rn as int, k2, v2) as int)
                        == v2 by {
                    assert(rn * 676 + k2 * 26 < base);
                    assert(rk_at(r0, rn as int, k2, v2) < 26);
                    assert(rk_at(r@, rn as int, k2, v2) == rk_at(r0, rn as int, k2, v2));
                    lemma_table_entry_letter(rk@, rn as int, k2, v2);
                    assert(rk_at(r@, rn as int, k2, rk_at(rk@, rn as int, k2, v2) as int)
                        == rk_at(r0, rn as int, k2, rk_at(rk@, rn as int, k2, v2) as int));
                }
            }
            k = k + 1;
        }
        rn = rn + 1;
    }
    r
}


/// Every entry of a table whose rows are permutations is a letter.
proof fn lemma_table_entry_letter(rk: Seq<u8>, rn: int, k: int, v: int)
    requires
        rk.len() == 2028,
        0 <= rn < 3,
        0 <= k < 26,
        0 <= v < 26,
        is_permutation(rk.subrange(rn * 676 + k * 26, rn * 676 + k * 26 + 26)),
    ensures
        rk_at(rk, rn, k, v) < 26,
{
    let sub = rk.subrange(rn * 676 + k * 26, rn * 676 + k * 26 + 26);
    assert(sub[v] == rk[rn * 676 + k * 26 + v]);
}

/// The three reversed lookups that undo one position's encryption.
pub open spec fn rev_lookup(rr: Seq<u8>, i: int, y: u8) -> u8 {
    let s3 = rk_at(rr, 2, (i / 676) % 26, y as int);
    let s2 = rk_at(rr, 1, (i / 26) % 26, s3 as int);
    rk_at(rr, 0, i % 26, s2 as int)
}

/// Decrypts every position through a reversed rotation table, in place:
/// three direct lookups per symbol.
pub fn fast_decrypt(ciphertext: &Vec<u8>, rotated_rev: &Vec<u8>, plaintext: &mut Vec<u8>)
    requires
        rotated_rev@.len() == 2028,
        forall|idx: int| 0 <= idx < 2028 ==> #[trigger] rotated_rev@[idx] < 26,
        all_letters(ciphertext@),
        old(plaintext)@.len() == ciphertext@.len(),
    ensures
        final (plaintext)@.len() == ciphertext@.len(),
        forall|i: int|
            0 <= i < ciphertext@.len() ==> #[trigger] final (plaintext)@[i] == rev_lookup(
                rotated_rev@,
                i,
                ciphertext@[i],
            ) && final (plaintext)@[i] < 26,
{
    let n = ciphertext.len();
    for i in 0..n
        invariant
            n == ciphertext@.len(),
            rotated_rev@.len() == 2028,
            forall|idx: int| 0 <= idx < 2028 ==> #[trigger] rotated_rev@[idx] < 26,
            all_letters(ciphertext@),
            plaintext@.len() == n,
            forall|i2: int|
                0 <= i2 < i ==> #[trigger] plaintext@[i2] == rev_lookup(
                    rotated_rev@,
                    i2,
                    ciphertext@[i2],
                ) && plaintext@[i2] < 26,
    {
        let y = ciphertext[i];
        let s3 = rotated_rev[1352 + ((i / 676) % 26) * 26 + y as usize];
        let s2 = rotated_rev[676 + ((i / 26) % 26) * 26 + s3 as usize];
        let x = rotated_rev[(i % 26) * 26 + s2 as usize];
        plaintext[i] = x;
        proof {
            assert(plaintext@[i as int] == rev_lookup(rotated_rev@, i as int, ciphertext@[
                i as int]));
        }
    }
}

/// Swaps the images at two slots in every rotation of one rotor of a flat
/// rotation table, leaving the other rotors untouched.
pub fn fast_swap_key(rotated: &mut Vec<u8>, rotor_num: usize, from_sym: u8, to_sym: u8)
    requires
        old(rotated)@.len() == 2028,
        rotor_num < 3,
        from_sym < 26,
        to_sym < 26,
    ensures
        final (rotated)@.len() == 2028,
        forall|k: int|
            0 <= k < 26 ==> #[trigger] rk_at(
                final (rotated)@,
                rotor_num as int,
                k,
                from_sym as int,
            ) == rk_at(old(rotated)@, rotor_num as int, k, to_sym as int) && rk_at(
                final (rotated)@,
                rotor_num as int,
                k,
                to_sym as int,
            ) == rk_at(old(rotated)@, rotor_num as int, k, from_sym as int),
        forall|rn2: int, k: int, j: int|
            0 <= rn2 < 3 && 0 <= k < 26 && 0 <= j < 26 && (rn2 != rotor_num || (j != from_sym
                && j != to_sym)) ==> #[trigger] rk_at(final (rotated)@, rn2, k, j) == rk_at(
                old(rotated)@,
                rn2,
                k,
                j,
            ),
{
    let mut k: usize = 0;
    while k < 26
        invariant
            rotated@.len() == 2028,
            rotor_num < 3,
            from_sym < 26,
            to_sym < 26,
            k <= 26,
            forall|k2: int|
                0 <= k2 < k ==> #[trigger] rk_at(rotated@, rotor_num as int, k2, from_sym as int)
                    == rk_at(old(rotated)@, rotor_num as int, k2, to_sym as int) && rk_at(
                    rotated@,
                    rotor_num as int,
                    k2,
                    to_sym as int,
                ) == rk_at(old(rotated)@, rotor_num as int, k2, from_sym as int),
            forall|rn2: int, k2: int, j: int|
                0 <= rn2 < 3 && 0 <= k2 < 26 && 0 <= j < 26 && (rn2 != rotor_num || k2 >= k || (
                j != from_sym && j != to_sym)) ==> #[trigger] rk_at(rotated@, rn2, k2, j)
                    == rk_at(old(rotated)@, rn2, k2, j),
        decreases 26 - k,
    {
        let base = rotor_num * 676 + k * 26;
        let ghost r0 = rotated@;
        let a = rotated[base + from_sym as usize];
        let b = rotated[base + to_sym as usize];
        rotated[base + from_sym as usize] = b;
        rotated[base + to_sym as usize] = a;
        proof {
            assert forall|k2: int|
                0 <= k2 < k implies #[trigger] rk_at(rotated@, rotor_num as int, k2, from_sym as int)
                    == rk_at(old(rotated)@, rotor_num as int, k2, to_sym as int) && rk_at(
                rotated@,
                rotor_num as int,
                k2,
                to_sym as int,
            ) == rk_at(old(rotated)@, rotor_num as int, k2, from_sym as int) by {
                assert(rk_at(r0, rotor_num as int, k2, from_sym as int) == rk_at(
                    old(rotated)@,
                    rotor_num as int,
                    k2,
                    to_sym as int,
                ));
                assert(rotor_num * 676 + k2 * 26 + from_sym < base);
                assert(rotor_num * 676 + k2 * 26 + to_sym < base);
            }
            assert forall|rn2: int, k2: int, j: int|
                0 <= rn2 < 3 && 0 <= k2 < 26 && 0 <= j < 26 && (rn2 != rotor_num || k2 >= k + 1
                    || (j != from_sym && j != to_sym)) implies #[trigger] rk_at(
                rotated@,
                rn2,
                k2,
                j,
            ) == rk_at(old(rotated)@, rn2, k2, j) by {
                assert(rk_at(r0, rn2, k2, j) == rk_at(old(rotated)@, rn2, k2, j));
                if rn2 * 676 + k2 * 26 + j != base + from_sym && rn2 * 676 + k2 * 26 + j != base
                    + to_sym {
                    assert(rk_at(rotated@, rn2, k2, j) == rk_at(r0, rn2, k2, j));
                } else {
                    if rn2 < rotor_num {
                        assert(rn2 * 676 + k2 * 26 + j < rotor_num * 676);
                    } else if rn2 > rotor_num {
                        assert(rn2 * 676 + k2 * 26 + j >= rotor_num * 676 + 676);
                        assert(base + to_sym < rotor_num * 676 + 676);
                        assert(base + from_sym < rotor_num * 676 + 676);
                    } else if k2 < k {
                        assert(rn2 * 676 + k2 * 26 + j < base);
                    } else if k2 > k {
                        assert(rn2 * 676 + k2 * 26 + j >= base + 26);
                    }
                    assert(false);
                }
            }
            assert(rk_at(rotated@, rotor_num as int, k as int, from_sym as int) == rk_at(
                r0,
                rotor_num as int,
                k as int,
                to_sym as int,
            ));
            assert(rk_at(rotated@, rotor_num as int, k as int, to_sym as int) == rk_at(
                r0,
                rotor_num as int,
                k as int,
                from_sym as int,
            ));
            assert(rk_at(r0, rotor_num as int, k as int, to_sym as int) == rk_at(
                old(rotated)@,
                rotor_num as int,
                k as int,
                to_sym as int,
            ));
            assert(rk_at(r0, rotor_num as int, k as int, from_sym as int) == rk_at(
                old(rotated)@,
                rotor_num as int,
                k as int,
                from_sym as int,
            ));
        }
        k = k + 1;
    }
}

/// Enigma-encrypts a text; a symbol outside the letter alphabet is rejected,
/// naming the offender.
pub fn encrypt(plaintext: &Vec<u8>, key: &EnigmaKey) -> (r: Result<Vec<u8>, CipherError>)
    requires
        key.wf(),
    ensures
        r is Ok <==> all_letters(plaintext@),
        r matches Ok(c) ==> c@ == enigma_enc_map(*key, plaintext@) && all_letters(c@),
        r matches Err(e) ==> (exists|i: int|
            0 <= i < plaintext@.len() && #[trigger] plaintext@[i] >= 26 && e
                == CipherError::InvalidCharacter(plaintext@[i])),
{
    let mut c: Vec<u8> = Vec::new();
    let n = plaintext.len();
    for i in 0..n
        invariant
            n == plaintext@.len(),
            key.wf(),
            c@.len() == i,
            forall|j: int| 0 <= j < i ==> #[trigger] plaintext@[j] < 26,
            forall|j: int| 0 <= j < i ==> #[trigger] c@[j] == enigma_enc_sym(
                *key,
                j,
                plaintext@[j],
            ),
            forall|j: int| 0 <= j < i ==> #[trigger] c@[j] < 26,
    {
        let x = plaintext[i];
        if x >= 26 {
            return Err(CipherError::InvalidCharacter(x));
        }
        let a = key.r0[(x as usize + i % 26) % 26];
        let b = key.r1[(a as usize + (i / 26) % 26) % 26];
        let z = key.r2[(b as usize + (i / 676) % 26) % 26];
        c.push(z);
    }
    proof {
        assert(c@ =~= enigma_enc_map(*key, plaintext@));
    }
    Ok(c)
}

/// Enigma-decrypts a text through the precomputed reversed rotation table; a
/// symbol outside the letter alphabet is rejected, naming the offender. The
/// result is the one text that encrypts back to the ciphertext.
pub fn decrypt(ciphertext: &Vec<u8>, key: &EnigmaKey) -> (r: Result<Vec<u8>, CipherError>)
    requires
        key.wf(),
    ensures
        r is Ok <==> all_letters(ciphertext@),
        r matches Ok(p) ==> is_decryption(*key, ciphertext@, p@) && p@ == enigma_dec_map(
            *key,
            ciphertext@,
        ) && all_letters(p@),
        r matches Err(e) ==> (exists|i: int|
            0 <= i < ciphertext@.len() && #[trigger] ciphertext@[i] >= 26 && e
                == CipherError::InvalidCharacter(ciphertext@[i])),
{
    let n = ciphertext.len();
    for i in 0..n
        invariant
            n == ciphertext@.len(),
            forall|j: int| 0 <= j < i ==> #[trigger] ciphertext@[j] < 26,
    {
        if ciphertext[i] >= 26 {
            return Err(CipherError::InvalidCharacter(ciphertext[i]));
        }
    }
    let rotated = rotate_key(key);
    proof {
        lemma_rotation_table_rows(rotated@, *key);
    }
    let rev = reverse_key(&rotated);
    let mut plaintext: Vec<u8> = Vec::new();
    let mut z: usize = 0;
    while z < n
        invariant
            z <= n,
            plaintext@.len() == z,
        decreases n - z,
    {
        plaintext.push(0);
        z = z + 1;
    }
    proof {
        assert forall|idx: int| 0 <= idx < 2028 implies #[trigger] rev@[idx] < 26 by {
            let rn = idx / 676;
            let rest = idx % 676;
            let k = rest / 26;
            let v = rest % 26;
            assert(idx == rn * 676 + k * 26 + v);
            assert(rk_at(rev@, rn, k, v) < 26);
        }
    }
    fast_decrypt(ciphertext, &rev, &mut plaintext);
    proof {
        assert forall|i: int| 0 <= i < n implies #[trigger] plaintext@[i] < 26 && enigma_enc_sym(
            *key,
            i,
            plaintext@[i],
        ) == ciphertext@[i] by {
            let y = ciphertext@[i];
            let k1 = i % 26;
            let k2 = (i / 26) % 26;
            let k3 = (i / 676) % 26;
            let s3 = rk_at(rev@, 2, k3, y as int);
            let s2 = rk_at(rev@, 1, k2, s3 as int);
            let x = rk_at(rev@, 0, k1, s2 as int);
            assert(plaintext@[i] == rev_lookup(rev@, i, y));
            assert(rk_at(rotated@, 2, k3, s3 as int) == y);
            assert(rk_at(rotated@, 1, k2, s2 as int) == s3);
            assert(rk_at(rotated@, 0, k1, x as int) == s2);
            assert(rk_at(rotated@, 0, k1, x as int) == key.r0@[(x + k1) % 26]);
            assert(rk_at(rotated@, 1, k2, s2 as int) == key.r1@[(s2 + k2) % 26]);
            assert(rk_at(rotated@, 2, k3, s3 as int) == key.r2@[(s3 + k3) % 26]);
        }
        assert(is_decryption(*key, ciphertext@, plaintext@));
        let q = enigma_dec_map(*key, ciphertext@);
        assert(is_decryption(*key, ciphertext@, q));
        lemma_decryption_unique(*key, ciphertext@, plaintext@, q);
    }
    Ok(plaintext)
}

/// Every row of a rotation table is a permutation: a rotation of a
/// permutation only relabels its slots.
proof fn lemma_rotation_table_rows(rk: Seq<u8>, key: EnigmaKey)
    requires
        key.wf(),
        is_rotation_table(rk, key),
    ensures
        forall|rn: int, k: int|
            0 <= rn < 3 && 0 <= k < 26 ==> is_permutation(
                #[trigger] rk.subrange(rn * 676 + k * 26, rn * 676 + k * 26 + 26),
            ),
{
    assert forall|rn: int, k: int| 0 <= rn < 3 && 0 <= k < 26 implies is_permutation(
        #[trigger] rk.subrange(rn * 676 + k * 26, rn * 676 + k * 26 + 26),
    ) by {
        let sub = rk.subrange(rn * 676 + k * 26, rn * 676 + k * 26 + 26);
        let rotor = rotor_of(key, rn);
        assert(is_permutation(rotor));
        assert forall|j: int| 0 <= j < 26 implies #[trigger] sub[j] == rotor[(j + k) % 26] by {
            assert(sub[j] == rk_at(rk, rn, k, j));
        }
        assert forall|j1: int, j2: int|
            0 <= j1 < 26 && 0 <= j2 < 26 && j1 != j2 implies sub[j1] != sub[j2] by {
            lemma_distinct_rotated_slots(j1, j2, k);
        }
    }
}

/// Distinct slots stay distinct under one rotation.
proof fn lemma_distinct_rotated_slots(j1: int, j2: int, k: int)
    requires
        0 <= j1 < 26,
        0 <= j2 < 26,
        0 <= k < 26,
        j1 != j2,
    ensures
        (j1 + k) % 26 != (j2 + k) % 26,
{
    if (j1 + k) % 26 == (j2 + k) % 26 {
        lemma_shift_cancel(j1, j2, k);
    }
}

/// A copy of a key with two slots of one rotor swapped: the move the hill
/// climber tries.
fn swapped_key(key: &EnigmaKey, rn: usize, a: usize, b: usize) -> (r: EnigmaKey)
    requires
        key.wf(),
        rn < 3,
        a < 26,
        b < 26,
    ensures
        r.wf(),
{
    let mut r0 = copy_symbols(&key.r0);
    let mut r1 = copy_symbols(&key.r1);
    let mut r2 = copy_symbols(&key.r2);
    if rn == 0 {
        let x = r0[a];
        let y = r0[b];
        r0[a] = y;
        r0[b] = x;
        proof {
            lemma_swapped_is_permutation(key.r0@, r0@, a as int, b as int);
        }
    } else if rn == 1 {
        let x = r1[a];
        let y = r1[b];
        r1[a] = y;
        r1[b] = x;
        proof {
            lemma_swapped_is_permutation(key.r1@, r1@, a as int, b as int);
        }
    } else {
        let x = r2[a];
        let y = r2[b];
        r2[a] = y;
        r2[b] = x;
        proof {
            lemma_swapped_is_permutation(key.r2@, r2@, a as int, b as int);
        }
    }
    EnigmaKey { r0, r1, r2 }
}

/// Runs greedy hill climbing from one starting key: every pass tries each
/// swap of two slots within each rotor, keeps the swap exactly when the
/// score strictly improves, and stops at a pass with no improvement. A rotor
/// swap can change any plaintext position, so each trial decrypts and
/// rescores the whole text. The tracked score never decreases and stays
/// consistent with the tracked key.
pub fn hill_climb(ciphertext: &Vec<u8>, init_key: &EnigmaKey, matrix: &FitnessMatrix) -> (r: (
    u64,
    EnigmaKey,
))
    requires
        matrix.wf(),
        all_letters(ciphertext@),
        ciphertext@.len() >= 4,
        ciphertext@.len() <= 1000000,
        init_key.wf(),
    ensures
        r.1.wf(),
        r.0 == fitness_sum(*matrix, enigma_dec_map(r.1, ciphertext@)),
        r.0 >= fitness_sum(*matrix, enigma_dec_map(*init_key, ciphertext@)),
{
    let mut key = EnigmaKey {
        r0: copy_symbols(&init_key.r0),
        r1: copy_symbols(&init_key.r1),
        r2: copy_symbols(&init_key.r2),
    };
    let dec0 = decrypt(ciphertext, init_key);
    let p0 = dec0.unwrap();
    proof {
        lemma_letters_fit(p0@);
        assert(is_decryption(key, ciphertext@, p0@)) by {
            assert forall|i: int|
                0 <= i < ciphertext@.len() implies #[trigger] p0@[i] < 26 && enigma_enc_sym(
                key,
                i,
                p0@[i],
            ) == ciphertext@[i] by {
                assert(enigma_enc_sym(*init_key, i, p0@[i]) == ciphertext@[i]);
                assert(key.r0@ == init_key.r0@ && key.r1@ == init_key.r1@ && key.r2@
                    == init_key.r2@);
            }
        }
        let q = enigma_dec_map(key, ciphertext@);
        assert(is_decryption(key, ciphertext@, q));
        lemma_decryption_unique(key, ciphertext@, p0@, q);
    }
    let mut current = compute_fitness(&p0, matrix);
    let ghost init_sum = current as int;
    let ghost n3 = ciphertext@.len() - 3;
    proof {
        lemma_fitness_sum_bounds(*matrix, p0@);
    }
    let mut better = true;
    while better
        invariant
            matrix.wf(),
            all_letters(ciphertext@),
            ciphertext@.len() >= 4,
            ciphertext@.len() <= 1000000,
            n3 == ciphertext@.len() - 3,
            key.wf(),
            current == fitness_sum(*matrix, enigma_dec_map(key, ciphertext@)),
            current as int >= init_sum,
            init_sum == fitness_sum(*matrix, enigma_dec_map(*init_key, ciphertext@)),
            current <= 3 * n3,
        decreases 3 * n3 - current + (if better {
            1int
        } else {
            0int
        }),
    {
        let ghost entry_score = current;
        better = false;
        let mut rn: usize = 0;
        while rn < 3
            invariant
                matrix.wf(),
                all_letters(ciphertext@),
                ciphertext@.len() >= 4,
                ciphertext@.len() <= 1000000,
                n3 == ciphertext@.len() - 3,
                rn <= 3,
                key.wf(),
                current == fitness_sum(*matrix, enigma_dec_map(key, ciphertext@)),
                current as int >= init_sum,
                init_sum == fitness_sum(*matrix, enigma_dec_map(*init_key, ciphertext@)),
                current <= 3 * n3,
                better ==> current > entry_score,
                !better ==> current == entry_score,
            decreases 3 - rn,
        {
            let mut a: usize = 0;
            while a < 26
                invariant
                    matrix.wf(),
                    all_letters(ciphertext@),
                    ciphertext@.len() >= 4,
                    ciphertext@.len() <= 1000000,
                    n3 == ciphertext@.len() - 3,
                    rn < 3,
                    a <= 26,
                    key.wf(),
                    current == fitness_sum(*matrix, enigma_dec_map(key, ciphertext@)),
                    current as int >= init_sum,
                    init_sum == fitness_sum(*matrix, enigma_dec_map(*init_key, ciphertext@)),
                    current <= 3 * n3,
                    better ==> current > entry_score,
                    !better ==> current == entry_score,
                decreases 26 - a,
            {
                let mut b: usize = a + 1;
                while b < 26
                    invariant
                        matrix.wf(),
                        all_letters(ciphertext@),
                        ciphertext@.len() >= 4,
                        ciphertext@.len() <= 1000000,
                        n3 == ciphertext@.len() - 3,
                        rn < 3,
                        a < 26,
                        a < b,
                        key.wf(),
                        current == fitness_sum(*matrix, enigma_dec_map(key, ciphertext@)),
                        current as int >= init_sum,
                        init_sum == fitness_sum(*matrix, enigma_dec_map(*init_key, ciphertext@)),
                        current <= 3 * n3,
                        better ==> current > entry_score,
                        !better ==> current == entry_score,
                    decreases 26 - b,
                {
                    let trial = swapped_key(&key, rn, a, b);
                    let dect = decrypt(ciphertext, &trial);
                    let pt = dect.unwrap();
                    proof {
                        lemma_letters_fit(pt@);
                        lemma_fitness_sum_bounds(*matrix, pt@);
                    }
                    let proposal = compute_fitness(&pt, matrix);
                    if proposal > current {
                        key = trial;
                        current = proposal;
                        better = true;
                    }
                    b = b + 1;
                }
                a = a + 1;
            }
            rn = rn + 1;
        }
    }
    (current, key)
}

/// Letter symbols fit the padded scoring alphabet.
proof fn lemma_letters_fit(t: Seq<u8>)
    requires
        all_letters(t),
    ensures
        fitting_symbols(t),
{
    assert forall|i: int| 0 <= i < t.len() implies #[trigger] t[i] < 32 by {
        assert(t[i] < 26);
    }
}

/// One cracker outcome: the best raw score found, the key that produced it,
/// and how many restarts ran before stopping.
pub struct Crack {
    pub score: u64,
    pub key: EnigmaKey,
    pub restarts: usize,
}

/// Cracks an Enigma ciphertext by random-restart hill climbing. Ciphertexts
/// shorter than 10 or longer than 1000000 symbols are rejected before any
/// search work. Each restart climbs from a fresh random key; the best score
/// can only improve, a restart that exactly re-finds it counts toward the
/// plateau, and the search stops at `restart_cap` restarts or `plateau_cap`
/// plateau hits, whichever comes first. The reported score always matches
/// the reported key's decryption.
pub fn crack(
    ciphertext: &Vec<u8>,
    matrix: &FitnessMatrix,
    restart_cap: usize,
    plateau_cap: usize,
) -> (r: Result<Crack, CipherError>)
    requires
        matrix.wf(),
        all_letters(ciphertext@),
        restart_cap >= 1,
        plateau_cap >= 1,
    ensures
        r is Err <==> (ciphertext@.len() < 10 || ciphertext@.len() > 1000000),
        r matches Err(e) ==> e == (if ciphertext@.len() < 10 {
            CipherError::CiphertextTooShort
        } else {
            CipherError::CiphertextTooLong
        }),
        r matches Ok(c) ==> c.key.wf() && c.score == fitness_sum(
            *matrix,
            enigma_dec_map(c.key, ciphertext@),
        ) && 1 <= c.restarts <= restart_cap,
{
    if ciphertext.len() < 10 {
        return Err(CipherError::CiphertextTooShort);
    }
    if ciphertext.len() > 1000000 {
        return Err(CipherError::CiphertextTooLong);
    }
    let first = generate_enigmakey();
    let (s0, k0) = hill_climb(ciphertext, &first, matrix);
    let mut best_score = s0;
    let mut best_key = k0;
    let mut restarts: usize = 1;
    let mut hits: usize = 0;
    while restarts < restart_cap && hits < plateau_cap
        invariant
            matrix.wf(),
            all_letters(ciphertext@),
            10 <= ciphertext@.len() <= 1000000,
            best_key.wf(),
            best_score == fitness_sum(*matrix, enigma_dec_map(best_key, ciphertext@)),
            1 <= restarts <= restart_cap,
            hits <= plateau_cap,
        decreases restart_cap - restarts,
    {
        let start = generate_enigmakey();
        let (s, k) = hill_climb(ciphertext, &start, matrix);
        restarts = restarts + 1;
        if s > best_score {
            best_score = s;
            best_key = k;
        } else if s == best_score {
            hits = hits + 1;
        }
    }
    Ok(Crack { score: best_score, key: best_key, restarts })
}

} // verus!
