//! The Vigenere cipher and its cracker.
//!
//! A key is a nonempty string of letters of period `L`; position `i` of the
//! text is shifted by `key[i % L]`. Candidate key lengths come from Kasiski
//! examination: the distances between repeats of the most-repeating bigrams
//! share the period as a divisor. For one key length, hill climbing replaces
//! one key slot at a time; a move touches exactly the positions congruent to
//! that slot modulo the period, which drives the incremental rescoring.

use vstd::arithmetic::div_mod::{
    lemma_fundamental_div_mod, lemma_mod_multiples_vanish, lemma_small_mod,
};
use vstd::prelude::*;
use vstd::seq_lib::lemma_seq_contains_after_push;

use crate::english::{all_letters, copy_symbols};
use crate::fitness::{
    affected_window_sum, compute_fitness, fitness_sum, fitting_symbols, lemma_fitness_sum_bounds,
    lemma_incremental_rescore, lemma_push_increasing, strictly_increasing, FitnessMatrix,
};
use crate::substitution::merge_positions;
use crate::rng::random_letters;
use crate::CipherError;

verus! {

/// A Vigenere key: at least one letter, nothing but letters.
pub open spec fn is_vigenere_key(k: Seq<u8>) -> bool {
    k.len() >= 1 && all_letters(k)
}

/// One symbol shifted forward by a key letter.
pub open spec fn vig_enc_sym(x: u8, k: u8) -> u8 {
    (((x + k) % 26) as u8)
}

/// One symbol shifted backward by a key letter.
pub open spec fn vig_dec_sym(y: u8, k: u8) -> u8 {
    (((y + 26 - k) % 26) as u8)
}

/// A whole text shifted forward under a repeating key.
pub open spec fn vig_enc_map(t: Seq<u8>, k: Seq<u8>) -> Seq<u8> {
    Seq::new(t.len(), |i: int| vig_enc_sym(t[i], k[i % k.len() as int]))
}

/// A whole text shifted backward under a repeating key.
pub open spec fn vig_dec_map(t: Seq<u8>, k: Seq<u8>) -> Seq<u8> {
    Seq::new(t.len(), |i: int| vig_dec_sym(t[i], k[i % k.len() as int]))
}

/// Shifts every position of a text by its key letter, forward when
/// encrypting and backward when decrypting.
pub fn common(source: &Vec<u8>, key: &Vec<u8>, decrypting: bool) -> (r: Vec<u8>)
    requires
        all_letters(source@),
        is_vigenere_key(key@),
    ensures
        r@ == (if decrypting {
            vig_dec_map(source@, key@)
        } else {
            vig_enc_map(source@, key@)
        }),
        all_letters(r@),
{
    let mut r: Vec<u8> = Vec::new();
    let n = source.len();
    let klen = key.len();
    for i in 0..n
        invariant
            n == source@.len(),
            klen == key@.len(),
            all_letters(source@),
            is_vigenere_key(key@),
            r@.len() == i,
            forall|j: int| 0 <= j < i ==> #[trigger] r@[j] == (if decrypting {
                vig_dec_sym(source@[j], key@[j % klen as int])
            } else {
                vig_enc_sym(source@[j], key@[j % klen as int])
            }),
            forall|j: int| 0 <= j < i ==> #[trigger] r@[j] < 26,
    {
        let x = source[i];
        let k = key[i % klen];
        if decrypting {
            r.push((x + 26 - k) % 26);
        } else {
            r.push((x + k) % 26);
        }
    }
    proof {
        if decrypting {
            assert(r@ =~= vig_dec_map(source@, key@));
        } else {
            assert(r@ =~= vig_enc_map(source@, key@));
        }
    }
    r
}

/// Vigenere-encrypts a text; a symbol outside the letter alphabet is
/// rejected, naming the offender.
pub fn encrypt(plaintext: &Vec<u8>, key: &Vec<u8>) -> (r: Result<Vec<u8>, CipherError>)
    requires
        is_vigenere_key(key@),
    ensures
        r is Ok <==> all_letters(plaintext@),
        r matches Ok(c) ==> c@ == vig_enc_map(plaintext@, key@) && all_letters(c@),
        r matches Err(e) ==> (exists|i: int|
            0 <= i < plaintext@.len() && #[trigger] plaintext@[i] >= 26 && e
                == CipherError::InvalidCharacter(plaintext@[i])),
{
    let n = plaintext.len();
    for i in 0..n
        invariant
            n == plaintext@.len(),
            forall|j: int| 0 <= j < i ==> #[trigger] plaintext@[j] < 26,
    {
        if plaintext[i] >= 26 {
            return Err(CipherError::InvalidCharacter(plaintext[i]));
        }
    }
    Ok(common(plaintext, key, false))
}

/// Vigenere-decrypts a text; a symbol outside the letter alphabet is
/// rejected, naming the offender.
pub fn decrypt(ciphertext: &Vec<u8>, key: &Vec<u8>) -> (r: Result<Vec<u8>, CipherError>)
    requires
        is_vigenere_key(key@),
    ensures
        r is Ok <==> all_letters(ciphertext@),
        r matches Ok(p) ==> p@ == vig_dec_map(ciphertext@, key@) && all_letters(p@),
        r matches Err(e) ==> (exists|i: int|
            0 <= i < ciphertext@.len() && #[trigger] ciphertext@[i] >= 26 && e
                == CipherError::InvalidCharacter(ciphertext@[i])),
{
    let n = ciphertext.len();
    for i in 0..n
        invariant
            n == ciphertext@.len(),
            forall|j: int| 0 <= j < i ==> #[trigger] ciphertext@[j] < 26,
    {
        if ciphertext[i] >= 26 {
            return Err(CipherError::InvalidCharacter(ciphertext[i]));
        }
    }
    Ok(common(ciphertext, key, true))
}

/// Shifting back undoes shifting forward, one symbol at a time.
proof fn lemma_shift_round_trip(x: u8, k: u8)
    requires
        x < 26,
        k < 26,
    ensures
        vig_dec_sym(vig_enc_sym(x, k), k) == x,
{
    if x + k < 26 {
        assert((x + k) % 26 == x + k);
    } else {
        assert((x + k) % 26 == x + k - 26);
    }
}

/// Round trip: decrypting under the same key undoes encryption, for every
/// Vigenere key and every text over the letter alphabet.
pub proof fn lemma_vigenere_round_trip(p: Seq<u8>, key: Seq<u8>)
    requires
        all_letters(p),
        is_vigenere_key(key),
    ensures
        vig_dec_map(vig_enc_map(p, key), key) == p,
{
    let e = vig_enc_map(p, key);
    assert forall|i: int| 0 <= i < p.len() implies vig_dec_map(e, key)[i] == p[i] by {
        lemma_mod_bounds_key(i, key.len() as int);
        lemma_shift_round_trip(p[i], key[i % key.len() as int]);
    }
    assert(vig_dec_map(vig_enc_map(p, key), key) =~= p);
}

/// A nonnegative number's remainder by the key length indexes the key.
proof fn lemma_mod_bounds_key(i: int, klen: int)
    requires
        i >= 0,
        klen >= 1,
    ensures
        0 <= i % klen < klen,
{
}

/// The ascending list of the positions below `len` congruent to `slot`
/// modulo `step`: the positions one key slot governs.
pub fn congruent_positions(len: usize, slot: usize, step: usize) -> (r: Vec<usize>)
    requires
        slot < step,
        len <= 1000000,
        step <= 1000000,
    ensures
        strictly_increasing(r@),
        forall|k: int| 0 <= k < r@.len() ==> #[trigger] r@[k] < len && r@[k] % step == slot,
        forall|i: int| 0 <= i < len && i % (step as int) == slot ==> r@.contains(
            #[trigger] (i as usize),
        ),
{
    broadcast use lemma_seq_contains_after_push;

    let mut r: Vec<usize> = Vec::new();
    let mut i: usize = slot;
    proof {
        lemma_small_mod(slot as nat, step as nat);
        assert forall|i2: int| 0 <= i2 < slot implies #[trigger] (i2 % (step as int))
            != slot by {
            lemma_small_mod(i2 as nat, step as nat);
        }
    }
    while i < len
        invariant
            slot < step,
            len <= 1000000,
            step <= 1000000,
            i % step == slot,
            i <= len + step,
            strictly_increasing(r@),
            forall|k: int| 0 <= k < r@.len() ==> #[trigger] r@[k] < i && r@[k] < len && r@[k]
                % step == slot,
            forall|i2: int| 0 <= i2 < i && i2 < len && i2 % (step as int) == slot
                ==> r@.contains(#[trigger] (i2 as usize)),
            r@.len() > 0 ==> r@[r@.len() - 1] == i - step,
        decreases len + step - i,
    {
        proof {
            if r@.len() > 0 {
                assert(r@[r@.len() - 1] < i);
            }
            assert forall|m: int, n2: int| 0 <= m < n2 < r@.push(i).len()
                implies r@.push(i)[m] < r@.push(i)[n2] by {
                if n2 == r@.len() {
                    if m < r@.len() - 1 {
                        assert(r@[m] < r@[r@.len() - 1]);
                    }
                }
            }
        }
        let ghost r0 = r@;
        r.push(i);
        let next = i + step;
        proof {
            lemma_mod_multiples_vanish(1, i as int, step as int);
            assert((step as int) * 1 + i == next);
            assert(r@ == r0.push(i));
            assert forall|i2: int|
                0 <= i2 < next && i2 < len && i2 % (step as int) == slot
                    implies r@.contains(#[trigger] (i2 as usize)) by {
                lemma_seq_contains_after_push(r0, i, i2 as usize);
                if i2 < i {
                    assert(r0.contains(i2 as usize));
                } else if i2 == i {
                    assert(r@.contains(i as usize));
                } else {
                    lemma_congruent_gap(i as int, i2 - i, step as int, slot as int);
                }
            }
        }
        i = next;
    }
    proof {
        assert forall|i2: int| 0 <= i2 < len && i2 % (step as int) == slot
            implies r@.contains(#[trigger] (i2 as usize)) by {
            assert(i2 < i);
        }
    }
    r
}

/// Positions strictly between two consecutive members of a congruence class
/// lie outside the class.
proof fn lemma_congruent_gap(i: int, delta: int, step: int, slot: int)
    requires
        0 < step,
        0 <= slot < step,
        i >= 0,
        i % step == slot,
        0 < delta < step,
    ensures
        (i + delta) % step != slot,
{
    lemma_fundamental_div_mod(i, step);
    let q = i / step;
    assert(i == step * q + slot);
    lemma_mod_multiples_vanish(q, slot + delta, step);
    assert(step * q + (slot + delta) == i + delta);
    assert((i + delta) % step == (slot + delta) % step);
    if slot + delta < step {
        lemma_small_mod((slot + delta) as nat, step as nat);
    } else {
        lemma_mod_multiples_vanish(1, slot + delta - step, step);
        assert(step * 1 + (slot + delta - step) == slot + delta);
        lemma_small_mod((slot + delta - step) as nat, step as nat);
    }
}

/// Writes the backward shift of the ciphertext symbol at each listed
/// position, leaving every other position as it was.
fn set_shifted(plaintext: &mut Vec<u8>, ciphertext: &Vec<u8>, positions: &Vec<usize>, sym: u8)
    requires
        old(plaintext)@.len() == ciphertext@.len(),
        all_letters(ciphertext@),
        sym < 26,
        forall|k: int| 0 <= k < positions@.len() ==> #[trigger] positions@[k]
            < ciphertext@.len(),
    ensures
        final (plaintext)@.len() == old(plaintext)@.len(),
        forall|k: int| 0 <= k < positions@.len() ==> final (plaintext)@[
            #[trigger] positions@[k] as int
        ] == vig_dec_sym(ciphertext@[positions@[k] as int], sym),
        forall|i: int|
            0 <= i < old(plaintext)@.len() && !positions@.contains(i as usize)
                ==> final (plaintext)@[i] == old(plaintext)@[i],
{
    let n = positions.len();
    for k in 0..n
        invariant
            n == positions@.len(),
            plaintext@.len() == old(plaintext)@.len(),
            plaintext@.len() == ciphertext@.len(),
            all_letters(ciphertext@),
            sym < 26,
            forall|k2: int| 0 <= k2 < positions@.len() ==> #[trigger] positions@[k2]
                < ciphertext@.len(),
            forall|k2: int| 0 <= k2 < k ==> plaintext@[#[trigger] positions@[k2] as int]
                == vig_dec_sym(ciphertext@[positions@[k2] as int], sym),
            forall|i: int|
                0 <= i < old(plaintext)@.len() && !positions@.contains(i as usize)
                    ==> plaintext@[i] == old(plaintext)@[i],
    {
        let p = positions[k];
        plaintext[p] = (ciphertext[p] + 26 - sym) % 26;
        proof {
            assert(positions@.contains(positions@[k as int]));
        }
    }
}

/// Runs greedy hill climbing from one starting key of a fixed period: every
/// pass tries each (slot, letter) replacement, rescores only the congruent
/// positions, keeps the replacement exactly when the score strictly
/// improves, and stops at a pass with no improvement. The tracked score
/// never decreases and stays consistent with the tracked key.
pub fn hill_climb(ciphertext: &Vec<u8>, key: &Vec<u8>, matrix: &FitnessMatrix) -> (r: (
    u64,
    Vec<u8>,
))
    requires
        matrix.wf(),
        all_letters(ciphertext@),
        ciphertext@.len() >= 4,
        ciphertext@.len() <= 1000000,
        is_vigenere_key(key@),
        key@.len() <= 1000000,
    ensures
        is_vigenere_key(r.1@),
        r.1@.len() == key@.len(),
        r.0 == fitness_sum(*matrix, vig_dec_map(ciphertext@, r.1@)),
        r.0 >= fitness_sum(*matrix, vig_dec_map(ciphertext@, key@)),
{
    let mut plaintext = common(ciphertext, key, true);
    let mut key = copy_symbols(key);
    let klen = key.len();
    let mut current = compute_fitness(&plaintext, matrix);
    let ghost init_sum = current as int;
    let ghost n3 = ciphertext@.len() - 3;
    proof {
        lemma_fitness_sum_bounds(*matrix, plaintext@);
    }
    let mut better = true;
    while better
        invariant
            matrix.wf(),
            all_letters(ciphertext@),
            ciphertext@.len() >= 4,
            ciphertext@.len() <= 1000000,
            n3 == ciphertext@.len() - 3,
            klen == key@.len(),
            1 <= klen <= 1000000,
            all_letters(key@),
            plaintext@ == vig_dec_map(ciphertext@, key@),
            current == fitness_sum(*matrix, plaintext@),
            current as int >= init_sum,
            current <= 3 * n3,
        decreases 3 * n3 - current + (if better {
            1int
        } else {
            0int
        }),
    {
        let ghost entry_score = current;
        better = false;
        let mut slot: usize = 0;
        while slot < klen
            invariant
                matrix.wf(),
                all_letters(ciphertext@),
                ciphertext@.len() >= 4,
                ciphertext@.len() <= 1000000,
                n3 == ciphertext@.len() - 3,
                klen == key@.len(),
                1 <= klen <= 1000000,
                slot <= klen,
                all_letters(key@),
                plaintext@ == vig_dec_map(ciphertext@, key@),
                current == fitness_sum(*matrix, plaintext@),
                current as int >= init_sum,
                current <= 3 * n3,
                better ==> current > entry_score,
                !better ==> current == entry_score,
            decreases klen - slot,
        {
            let changed = congruent_positions(ciphertext.len(), slot, klen);
            let mut sym: u8 = 0;
            while sym < 26
                invariant
                    matrix.wf(),
                    all_letters(ciphertext@),
                    ciphertext@.len() >= 4,
                    ciphertext@.len() <= 1000000,
                    n3 == ciphertext@.len() - 3,
                    klen == key@.len(),
                    1 <= klen <= 1000000,
                    slot < klen,
                    sym <= 26,
                    all_letters(key@),
                    plaintext@ == vig_dec_map(ciphertext@, key@),
                    current == fitness_sum(*matrix, plaintext@),
                    current as int >= init_sum,
                    current <= 3 * n3,
                    better ==> current > entry_score,
                    !better ==> current == entry_score,
                    strictly_increasing(changed@),
                    forall|k: int| 0 <= k < changed@.len() ==> #[trigger] changed@[k]
                        < ciphertext@.len() && changed@[k] % klen == slot,
                    forall|i: int| 0 <= i < ciphertext@.len() && i % (klen as int) == slot
                        ==> changed@.contains(#[trigger] (i as usize)),
                decreases 26 - sym,
            {
                let ghost before = plaintext@;
                let ghost k2 = key@.update(slot as int, sym);
                proof {
                    assert(fitting_symbols(plaintext@)) by {
                        assert forall|i: int| 0 <= i < plaintext@.len()
                            implies #[trigger] plaintext@[i] < 32 by {
                            assert(plaintext@[i] == vig_dec_map(ciphertext@, key@)[i]);
                            lemma_mod_bounds_key(i, klen as int);
                        }
                    }
                }
                let minus = affected_window_sum(matrix, &plaintext, &changed);
                set_shifted(&mut plaintext, ciphertext, &changed, sym);
                proof {
                    assert forall|i: int| 0 <= i < ciphertext@.len()
                        implies #[trigger] plaintext@[i] == vig_dec_map(ciphertext@, k2)[i] by {
                        lemma_mod_bounds_key(i, klen as int);
                        if i % (klen as int) == slot {
                            assert(changed@.contains(i as usize));
                            let k = choose|k: int|
                                0 <= k < changed@.len() && changed@[k] == i as usize;
                            assert(plaintext@[changed@[k] as int] == vig_dec_sym(
                                ciphertext@[changed@[k] as int],
                                sym,
                            ));
                        } else {
                            assert(!changed@.contains(i as usize)) by {
                                if changed@.contains(i as usize) {
                                    let k = choose|k: int|
                                        0 <= k < changed@.len() && changed@[k] == i as usize;
                                    assert(changed@[k] % klen == slot);
                                }
                            }
                            assert(plaintext@[i] == before[i]);
                        }
                    }
                    assert(plaintext@ =~= vig_dec_map(ciphertext@, k2));
                    assert forall|i: int|
                        0 <= i < before.len() && before[i] != plaintext@[i]
                            implies changed@.contains(#[trigger] (i as usize)) by {}
                    assert(fitting_symbols(plaintext@)) by {
                        assert forall|i: int| 0 <= i < plaintext@.len()
                            implies #[trigger] plaintext@[i] < 32 by {
                            assert(plaintext@[i] == vig_dec_map(ciphertext@, k2)[i]);
                            lemma_mod_bounds_key(i, klen as int);
                        }
                    }
                    lemma_incremental_rescore(*matrix, before, plaintext@, changed@);
                    crate::fitness::lemma_affected_sum_le(*matrix, before, changed@);
                    lemma_fitness_sum_bounds(*matrix, plaintext@);
                }
                let plus = affected_window_sum(matrix, &plaintext, &changed);
                let proposal = current - minus + plus;
                if proposal > current {
                    key[slot] = sym;
                    current = proposal;
                    better = true;
                    proof {
                        assert(key@ =~= k2);
                    }
                } else {
                    let old_sym = key[slot];
                    let ghost trial = plaintext@;
                    set_shifted(&mut plaintext, ciphertext, &changed, old_sym);
                    proof {
                        assert forall|i: int| 0 <= i < ciphertext@.len()
                            implies #[trigger] plaintext@[i] == before[i] by {
                            lemma_mod_bounds_key(i, klen as int);
                            if i % (klen as int) == slot {
                                assert(changed@.contains(i as usize));
                                let k = choose|k: int|
                                    0 <= k < changed@.len() && changed@[k] == i as usize;
                                assert(plaintext@[changed@[k] as int] == vig_dec_sym(
                                    ciphertext@[changed@[k] as int],
                                    old_sym,
                                ));
                                assert(before[i] == vig_dec_map(ciphertext@, key@)[i]);
                            } else {
                                assert(!changed@.contains(i as usize)) by {
                                    if changed@.contains(i as usize) {
                                        let k = choose|k: int|
                                            0 <= k < changed@.len() && changed@[k] == i as usize;
                                        assert(changed@[k] % klen == slot);
                                    }
                                }
                                assert(plaintext@[i] == trial[i]);
                                assert(trial[i] == before[i]);
                            }
                        }
                        assert(plaintext@ =~= before);
                    }
                }
                sym = sym + 1;
            }
            slot = slot + 1;
        }
    }
    (current, key)
}

/// The bigrams starting at `f` and at `i` are the same two symbols.
pub open spec fn same_bigram(t: Seq<u8>, f: int, i: int) -> bool {
    t[f] == t[i] && t[f + 1] == t[i + 1]
}

/// No earlier position starts the same bigram.
pub open spec fn is_first_occurrence(t: Seq<u8>, f: int) -> bool {
    0 <= f < t.len() - 1 && (forall|j: int| 0 <= j < f ==> !same_bigram(t, f, j))
}

/// The bigram first seen at `f` appears again later.
pub open spec fn is_repeated_bigram(t: Seq<u8>, f: int) -> bool {
    is_first_occurrence(t, f) && (exists|i: int| f < i < t.len() - 1 && same_bigram(t, f, i))
}

/// `d` is the distance between two consecutive occurrences of the bigram
/// first seen at `f`.
#[verifier::opaque]
pub open spec fn is_consecutive_distance(t: Seq<u8>, f: int, d: int) -> bool {
    exists|i1: int, i2: int|
        #![trigger same_bigram(t, f, i1), same_bigram(t, f, i2)]
        f <= i1 < i2 < t.len() - 1 && same_bigram(t, f, i1) && same_bigram(t, f, i2) && (forall|
            m: int,
        | i1 < m < i2 ==> !same_bigram(t, f, m)) && d == i2 - i1
}

/// How many of the first `n` bigram positions start a distinct repeated
/// bigram.
pub open spec fn repeated_count(t: Seq<u8>, n: int) -> int
    decreases n,
{
    if n <= 0 {
        0
    } else {
        repeated_count(t, n - 1) + if is_repeated_bigram(t, n - 1) {
            1int
        } else {
            0int
        }
    }
}

/// `d` divides every consecutive-repeat distance of every repeated bigram.
pub open spec fn divides_all_repeat_distances(t: Seq<u8>, d: int) -> bool {
    forall|f: int, dd: int|
        is_repeated_bigram(t, f) && #[trigger] is_consecutive_distance(t, f, dd) ==> dd % d == 0
}

/// `d` divides some consecutive-repeat distance of some repeated bigram.
pub open spec fn divides_some_repeat_distance(t: Seq<u8>, d: int) -> bool {
    exists|f: int, dd: int|
        is_repeated_bigram(t, f) && #[trigger] is_consecutive_distance(t, f, dd) && dd % d == 0
}

/// `s` is exactly the divisor set of the consecutive-repeat distances of the
/// bigram first seen at `f`.
pub open spec fn divisor_set_of(t: Seq<u8>, f: int, s: Seq<usize>) -> bool {
    forall|d: usize| #[trigger] s.contains(d) <==> (d >= 1 && (exists|dd: int|
        is_consecutive_distance(t, f, dd) && dd % (d as int) == 0))
}

/// A well-formed divisor set: ascending, never without the divisor 1, and
/// the exact divisor set of some repeated bigram's distances.
pub open spec fn divisor_set_ok(t: Seq<u8>, s: Seq<usize>) -> bool {
    strictly_increasing(s) && s.contains(1usize) && (exists|f: int|
        #[trigger] is_repeated_bigram(t, f) && divisor_set_of(t, f, s))
}

/// The ascending occurrence list of the bigram that starts at `f`: every
/// position from `f` on that starts the same two symbols.
fn collect_occurrences(text: &Vec<u8>, f: usize) -> (r: Vec<usize>)
    requires
        f + 1 < text@.len(),
        text@.len() <= 1000000,
    ensures
        strictly_increasing(r@),
        r@.len() >= 1,
        r@[0] == f,
        forall|k: int| 0 <= k < r@.len() ==> f <= #[trigger] r@[k] && r@[k] + 1 < text@.len()
            && same_bigram(text@, f as int, r@[k] as int),
        forall|i: int|
            f <= i < text@.len() - 1 && same_bigram(text@, f as int, i) ==> r@.contains(
                #[trigger] (i as usize),
            ),
{
    let mut r: Vec<usize> = Vec::new();
    let n = text.len();
    let mut i: usize = f;
    while i < n - 1
        invariant
            n == text@.len(),
            f + 1 < n <= 1000000,
            f <= i,
            strictly_increasing(r@),
            i > f ==> r@.len() >= 1 && r@[0] == f,
            forall|k: int| 0 <= k < r@.len() ==> f <= #[trigger] r@[k] && r@[k] < i && r@[k] + 1
                < n && same_bigram(text@, f as int, r@[k] as int),
            forall|i2: int|
                f <= i2 < i && same_bigram(text@, f as int, i2) ==> r@.contains(
                    #[trigger] (i2 as usize),
                ),
        decreases n - 1 - i,
    {
        if text[i] == text[f] && text[i + 1] == text[f + 1] {
            let ghost r0 = r@;
            proof {
                if r0.len() > 0 {
                    assert(r0[r0.len() - 1] < i);
                }
                lemma_push_increasing(r0, i);
            }
            r.push(i);
            proof {
                assert forall|i2: int|
                    f <= i2 < i + 1 && same_bigram(text@, f as int, i2) implies r@.contains(
                    #[trigger] (i2 as usize),
                ) by {
                    lemma_seq_contains_after_push(r0, i, i2 as usize);
                }
            }
        }
        i = i + 1;
    }
    proof {
        assert(same_bigram(text@, f as int, f as int));
        assert(r@.contains(f));
        let k0 = choose|k: int| 0 <= k < r@.len() && r@[k] == f;
        assert(r@[0] >= f);
        assert(k0 > 0 ==> r@[0] < r@[k0]);
        assert(r@[0] == f);
    }
    r
}

/// The ascending list of the divisors of `d`.
fn divisors(d: usize) -> (r: Vec<usize>)
    requires
        1 <= d <= 1000000,
    ensures
        strictly_increasing(r@),
        forall|x: usize| #[trigger] r@.contains(x) <==> (1 <= x <= d && d % x == 0),
{
    let mut r: Vec<usize> = Vec::new();
    let mut x: usize = 1;
    while x <= d
        invariant
            1 <= x <= d + 1,
            d <= 1000000,
            strictly_increasing(r@),
            forall|k: int| 0 <= k < r@.len() ==> #[trigger] r@[k] < x,
            forall|y: usize| #[trigger] r@.contains(y) <==> (1 <= y < x && d % y == 0),
        decreases d + 1 - x,
    {
        if d % x == 0 {
            let ghost r0 = r@;
            proof {
                if r0.len() > 0 {
                    assert(r0[r0.len() - 1] < x);
                }
                lemma_push_increasing(r0, x);
            }
            r.push(x);
            proof {
                assert forall|y: usize| #[trigger] r@.contains(y) <==> (1 <= y < x + 1 && d % y
                    == 0) by {
                    lemma_seq_contains_after_push(r0, x, y);
                }
            }
        } else {
            proof {
                assert forall|y: usize| #[trigger] r@.contains(y) <==> (1 <= y < x + 1 && d % y
                    == 0) by {}
            }
        }
        x = x + 1;
    }
    r
}

proof fn lemma_intersect_push(
    r0: Seq<usize>,
    a: Seq<usize>,
    b: Seq<usize>,
    i0: int,
    j0: int,
    x: usize,
)
    requires
        0 <= i0 < a.len(),
        0 <= j0 < b.len(),
        a[i0] == x,
        b[j0] == x,
        forall|y: usize| #[trigger] r0.contains(y) <==> (exists|ii: int|
            0 <= ii < i0 && a[ii] == y) && (exists|jj: int| 0 <= jj < j0 && b[jj] == y),
    ensures
        forall|y: usize| #[trigger] r0.push(x).contains(y) <==> (exists|ii: int|
            0 <= ii < i0 + 1 && a[ii] == y) && (exists|jj: int| 0 <= jj < j0 + 1 && b[jj] == y),
{
    broadcast use lemma_seq_contains_after_push;

    assert forall|y: usize| #[trigger] r0.push(x).contains(y) implies ((exists|ii: int|
        0 <= ii < i0 + 1 && a[ii] == y) && (exists|jj: int| 0 <= jj < j0 + 1 && b[jj] == y)) by {
        if y == x {
            assert(0 <= i0 < i0 + 1 && a[i0] == y);
            assert(0 <= j0 < j0 + 1 && b[j0] == y);
        }
    }
    assert forall|y: usize|
        ((exists|ii: int| 0 <= ii < i0 + 1 && a[ii] == y) && (exists|jj: int|
            0 <= jj < j0 + 1 && b[jj] == y)) implies #[trigger] r0.push(x).contains(y) by {
        let ii = choose|ii: int| 0 <= ii < i0 + 1 && a[ii] == y;
        let jj = choose|jj: int| 0 <= jj < j0 + 1 && b[jj] == y;
        if ii == i0 || jj == j0 {
            assert(y == x);
        } else {
            assert(r0.contains(y));
        }
    }
}

proof fn lemma_intersect_skip(
    r0: Seq<usize>,
    a: Seq<usize>,
    b: Seq<usize>,
    i0: int,
    j0: int,
    i1: int,
    j1: int,
)
    requires
        0 <= i0 <= i1 <= a.len(),
        0 <= j0 <= j1 <= b.len(),
        i1 + j1 == i0 + j0 + 1,
        forall|y: usize| #[trigger] r0.contains(y) <==> (exists|ii: int|
            0 <= ii < i0 && a[ii] == y) && (exists|jj: int| 0 <= jj < j0 && b[jj] == y),
        i1 > i0 ==> forall|jj: int| 0 <= jj < j0 ==> b[jj] != a[i0],
        j1 > j0 ==> forall|ii: int| 0 <= ii < i0 ==> a[ii] != b[j0],
    ensures
        forall|y: usize| #[trigger] r0.contains(y) <==> (exists|ii: int|
            0 <= ii < i1 && a[ii] == y) && (exists|jj: int| 0 <= jj < j1 && b[jj] == y),
{
    assert forall|y: usize|
        ((exists|ii: int| 0 <= ii < i1 && a[ii] == y) && (exists|jj: int|
            0 <= jj < j1 && b[jj] == y)) implies #[trigger] r0.contains(y) by {
        let ii = choose|ii: int| 0 <= ii < i1 && a[ii] == y;
        let jj = choose|jj: int| 0 <= jj < j1 && b[jj] == y;
        if i1 > i0 && ii == i0 {
            assert(b[jj] == a[i0]);
        } else if j1 > j0 && jj == j0 {
            assert(a[ii] == b[j0]);
        }
    }
}

/// Intersects two ascending position lists into the ascending list of the
/// positions both hold.
fn intersect_sorted(a: &Vec<usize>, b: &Vec<usize>) -> (r: Vec<usize>)
    requires
        strictly_increasing(a@),
        strictly_increasing(b@),
    ensures
        strictly_increasing(r@),
        forall|x: usize| #[trigger] r@.contains(x) <==> a@.contains(x) && b@.contains(x),
{
    let mut r: Vec<usize> = Vec::new();
    let mut i: usize = 0;
    let mut j: usize = 0;
    while i < a.len() && j < b.len()
        invariant
            strictly_increasing(a@),
            strictly_increasing(b@),
            strictly_increasing(r@),
            i <= a@.len(),
            j <= b@.len(),
            forall|x: usize| #[trigger] r@.contains(x) <==> (exists|ii: int|
                0 <= ii < i && a@[ii] == x) && (exists|jj: int| 0 <= jj < j && b@[jj] == x),
            i < a@.len() ==> forall|jj: int| 0 <= jj < j ==> #[trigger] b@[jj] < a@[i as int],
            j < b@.len() ==> forall|ii: int| 0 <= ii < i ==> #[trigger] a@[ii] < b@[j as int],
            r@.len() > 0 && i < a@.len() ==> r@[r@.len() - 1] < a@[i as int],
            r@.len() > 0 && j < b@.len() ==> r@[r@.len() - 1] < b@[j as int],
        decreases a@.len() - i + b@.len() - j,
    {
        let ghost r0 = r@;
        if a[i] < b[j] {
            proof {
                lemma_intersect_skip(r0, a@, b@, i as int, j as int, i + 1, j as int);
            }
            i = i + 1;
        } else if b[j] < a[i] {
            proof {
                lemma_intersect_skip(r0, a@, b@, i as int, j as int, i as int, j + 1);
            }
            j = j + 1;
        } else {
            let x = a[i];
            proof {
                lemma_push_increasing(r0, x);
                lemma_intersect_push(r0, a@, b@, i as int, j as int, x);
            }
            r.push(x);
            i = i + 1;
            j = j + 1;
        }
    }
    proof {
        assert forall|x: usize| #[trigger] r@.contains(x) <==> (a@.contains(x) && b@.contains(
            x,
        )) by {
            if a@.contains(x) && b@.contains(x) {
                let ii = choose|ii: int| 0 <= ii < a@.len() && a@[ii] == x;
                let jj = choose|jj: int| 0 <= jj < b@.len() && b@[jj] == x;
                if i < a@.len() {
                    assert(jj < j ==> b@[jj] < a@[i as int]);
                    assert(jj < j ==> x < a@[i as int]);
                    assert(jj < j && ii >= i ==> a@[ii] >= a@[i as int]);
                }
                if j < b@.len() {
                    assert(ii < i ==> a@[ii] < b@[j as int]);
                    assert(ii < i && jj >= j ==> b@[jj] >= b@[j as int]);
                }
            }
        }
    }
    r
}

/// An occurrence list's consecutive gaps are exactly the bigram's
/// consecutive-repeat distances.
proof fn lemma_positions_give_distances(t: Seq<u8>, f: int, pos: Seq<usize>)
    requires
        t.len() <= usize::MAX,
        0 <= f,
        strictly_increasing(pos),
        pos.len() >= 1,
        pos[0] == f,
        forall|k: int| 0 <= k < pos.len() ==> f <= #[trigger] pos[k] && pos[k] + 1 < t.len()
            && same_bigram(t, f, pos[k] as int),
        forall|i: int|
            f <= i < t.len() - 1 && same_bigram(t, f, i) ==> pos.contains(
                #[trigger] (i as usize),
            ),
    ensures
        forall|dd: int| #[trigger] is_consecutive_distance(t, f, dd) <==> (exists|k: int|
            0 <= k < pos.len() - 1 && dd == #[trigger] pos[k + 1] - pos[k]),
{
    reveal(is_consecutive_distance);
    assert forall|dd: int| #[trigger] is_consecutive_distance(t, f, dd) implies (exists|k: int|
        0 <= k < pos.len() - 1 && dd == #[trigger] pos[k + 1] - pos[k]) by {
        let (i1, i2) = choose|i1: int, i2: int|
            #![trigger same_bigram(t, f, i1), same_bigram(t, f, i2)]
            f <= i1 < i2 < t.len() - 1 && same_bigram(t, f, i1) && same_bigram(t, f, i2) && (
            forall|m: int| i1 < m < i2 ==> !same_bigram(t, f, m)) && dd == i2 - i1;
        assert(pos.contains(i1 as usize));
        assert(pos.contains(i2 as usize));
        let x1 = choose|x: int| 0 <= x < pos.len() && pos[x] == i1 as usize;
        let x2 = choose|x: int| 0 <= x < pos.len() && pos[x] == i2 as usize;
        assert(x1 < x2);
        if x2 > x1 + 1 {
            let m = pos[x1 + 1];
            assert(pos[x1] < m < pos[x2]);
            assert(same_bigram(t, f, m as int));
            assert(false);
        }
        assert(0 <= x1 < pos.len() - 1 && dd == pos[x1 + 1] - pos[x1]);
    }
    assert forall|dd: int|
        (exists|k: int| 0 <= k < pos.len() - 1 && dd == #[trigger] pos[k + 1] - pos[k])
            implies #[trigger] is_consecutive_distance(t, f, dd) by {
        let k = choose|k: int| 0 <= k < pos.len() - 1 && dd == #[trigger] pos[k + 1] - pos[k];
        let i1 = pos[k] as int;
        let i2 = pos[k + 1] as int;
        assert(same_bigram(t, f, i1));
        assert(same_bigram(t, f, i2));
        assert forall|m: int| i1 < m < i2 implies !same_bigram(t, f, m) by {
            if same_bigram(t, f, m) {
                assert(f <= i1 < m);
                assert(pos.contains(m as usize));
                let y = choose|y: int| 0 <= y < pos.len() && pos[y] == m as usize;
                if y <= k {
                    assert(pos[y] <= pos[k]);
                } else {
                    assert(pos[y] >= pos[k + 1]);
                }
            }
        }
    }
}

/// The ascending divisor set of the consecutive gaps of an ascending
/// position list: every number that divides at least one gap.
fn distance_divisors(pos: &Vec<usize>) -> (r: Vec<usize>)
    requires
        strictly_increasing(pos@),
        pos@.len() >= 2,
        forall|k: int| 0 <= k < pos@.len() ==> #[trigger] pos@[k] <= 1000000,
    ensures
        strictly_increasing(r@),
        forall|y: usize| #[trigger] r@.contains(y) <==> (1 <= y && (exists|k2: int|
            0 <= k2 < pos@.len() - 1 && (#[trigger] pos@[k2 + 1] - pos@[k2]) % (y as int) == 0)),
{
    let mut divs = divisors(pos[1] - pos[0]);
    proof {
        assert forall|y: usize| #[trigger] divs@.contains(y) <==> (1 <= y && (exists|k2: int|
            0 <= k2 < 1 && (#[trigger] pos@[k2 + 1] - pos@[k2]) % (y as int) == 0)) by {
            if divs@.contains(y) {
                assert((pos@[0int + 1] - pos@[0int]) % (y as int) == 0);
            } else {
                if 1 <= y && (exists|k2: int|
                    0 <= k2 < 1 && (#[trigger] pos@[k2 + 1] - pos@[k2]) % (y as int) == 0) {
                    let dd0 = pos@[1] - pos@[0];
                    assert(dd0 >= 1);
                    if y > dd0 {
                        lemma_small_mod(dd0 as nat, y as nat);
                    }
                }
            }
        }
    }
    let mut k: usize = 1;
    while k < pos.len() - 1
        invariant
            strictly_increasing(pos@),
            pos@.len() >= 2,
            forall|k2: int| 0 <= k2 < pos@.len() ==> #[trigger] pos@[k2] <= 1000000,
            1 <= k <= pos@.len() - 1,
            strictly_increasing(divs@),
            forall|y: usize| #[trigger] divs@.contains(y) <==> (1 <= y && (exists|k2: int|
                0 <= k2 < k && (#[trigger] pos@[k2 + 1] - pos@[k2]) % (y as int) == 0)),
        decreases pos@.len() - 1 - k,
    {
        let dd = pos[k + 1] - pos[k];
        let dv = divisors(dd);
        let ghost divs0 = divs@;
        divs = merge_positions(&divs, &dv);
        proof {
            assert forall|y: usize| #[trigger] divs@.contains(y) <==> (1 <= y && (exists|k2: int|
                0 <= k2 < k + 1 && (#[trigger] pos@[k2 + 1] - pos@[k2]) % (y as int) == 0)) by {
                if divs@.contains(y) {
                    if !divs0.contains(y) {
                        assert(dv@.contains(y));
                        assert((pos@[k as int + 1] - pos@[k as int]) % (y as int) == 0);
                    }
                } else {
                    if 1 <= y && (exists|k2: int|
                        0 <= k2 < k + 1 && (#[trigger] pos@[k2 + 1] - pos@[k2]) % (y as int)
                            == 0) {
                        let k2 = choose|k2: int|
                            0 <= k2 < k + 1 && (#[trigger] pos@[k2 + 1] - pos@[k2]) % (y as int)
                                == 0;
                        if k2 < k {
                            assert(divs0.contains(y));
                        } else {
                            let ddk = pos@[k2 + 1] - pos@[k2];
                            assert(ddk >= 1);
                            if y > ddk {
                                lemma_small_mod(ddk as nat, y as nat);
                            }
                            assert(1 <= y <= ddk && (ddk as int) % (y as int) == 0);
                            assert(dv@.contains(y));
                        }
                    }
                }
            }
        }
        k = k + 1;
    }
    divs
}

/// The divisor set of the repeat distances of the bigram that starts at `f`,
/// or nothing when that bigram is no distinct repeated bigram: when it
/// appeared earlier or never appears again.
#[verifier::rlimit(100)]
fn bigram_divisor_set(ciphertext: &Vec<u8>, f: usize) -> (r: Option<Vec<usize>>)
    requires
        f + 1 < ciphertext@.len(),
        ciphertext@.len() <= 1000000,
    ensures
        r is Some <==> is_repeated_bigram(ciphertext@, f as int),
        r matches Some(s) ==> divisor_set_ok(ciphertext@, s@),
{
    let ghost t = ciphertext@;
    let mut is_first = true;
    let mut j: usize = 0;
    while j < f
        invariant
            t == ciphertext@,
            f + 1 < t.len(),
            t.len() <= 1000000,
            j <= f,
            is_first <==> (forall|j2: int| 0 <= j2 < j ==> !same_bigram(t, f as int, j2)),
        decreases f - j,
    {
        if ciphertext[j] == ciphertext[f] && ciphertext[j + 1] == ciphertext[f + 1] {
            is_first = false;
            proof {
                assert(same_bigram(t, f as int, j as int));
            }
        }
        j = j + 1;
    }
    if !is_first {
        proof {
            assert(!is_first_occurrence(t, f as int));
        }
        return None;
    }
    let pos = collect_occurrences(ciphertext, f);
    if pos.len() < 2 {
        proof {
            assert forall|i: int| f < i < t.len() - 1 implies !same_bigram(t, f as int, i) by {
                if same_bigram(t, f as int, i) {
                    assert(pos@.contains(i as usize));
                    let y = choose|y: int| 0 <= y < pos@.len() && pos@[y] == i as usize;
                    assert(y == 0);
                }
            }
            assert(!is_repeated_bigram(t, f as int));
        }
        return None;
    }
    let divs = distance_divisors(&pos);
    proof {
        lemma_divisor_set_bridge(t, f as int, pos@, divs@);
    }
    Some(divs)
}

/// A gap-divisor set of a full occurrence list is the repeated bigram's
/// well-formed divisor set.
#[verifier::rlimit(100)]
#[verifier::spinoff_prover]
proof fn lemma_divisor_set_bridge(t: Seq<u8>, f: int, pos: Seq<usize>, divs: Seq<usize>)
    requires
        t.len() <= usize::MAX,
        is_first_occurrence(t, f),
        strictly_increasing(pos),
        pos.len() >= 2,
        pos[0] == f,
        forall|k: int| 0 <= k < pos.len() ==> f <= #[trigger] pos[k] && pos[k] + 1 < t.len()
            && same_bigram(t, f, pos[k] as int),
        forall|i: int|
            f <= i < t.len() - 1 && same_bigram(t, f, i) ==> pos.contains(
                #[trigger] (i as usize),
            ),
        strictly_increasing(divs),
        forall|y: usize| #[trigger] divs.contains(y) <==> (1 <= y && (exists|k2: int|
            0 <= k2 < pos.len() - 1 && (#[trigger] pos[k2 + 1] - pos[k2]) % (y as int) == 0)),
    ensures
        is_repeated_bigram(t, f),
        divisor_set_ok(t, divs),
{
    assert(f < pos[1] < t.len() - 1);
    assert(same_bigram(t, f, pos[1] as int));
    assert(is_repeated_bigram(t, f));
    lemma_positions_give_distances(t, f, pos);
    assert forall|y: usize| #[trigger] divs.contains(y) <==> (y >= 1 && (exists|dd: int|
        is_consecutive_distance(t, f, dd) && dd % (y as int) == 0)) by {
        if y >= 1 && (exists|dd: int|
            is_consecutive_distance(t, f, dd) && dd % (y as int) == 0) {
            let dd = choose|dd: int|
                is_consecutive_distance(t, f, dd) && dd % (y as int) == 0;
            let k2 = choose|k2: int|
                0 <= k2 < pos.len() - 1 && dd == #[trigger] pos[k2 + 1] - pos[k2];
            assert((pos[k2 + 1] - pos[k2]) % (y as int) == 0);
        } else {
            if divs.contains(y) {
                let k2 = choose|k2: int|
                    0 <= k2 < pos.len() - 1 && (#[trigger] pos[k2 + 1] - pos[k2]) % (y as int)
                        == 0;
                assert(is_consecutive_distance(t, f, pos[k2 + 1] - pos[k2]));
            }
        }
    }
    assert(divisor_set_of(t, f, divs));
    let dd0 = pos[1] - pos[0];
    assert(0 <= 0int < pos.len() - 1 && dd0 == pos[0int + 1] - pos[0int]);
    assert(is_consecutive_distance(t, f, dd0));
    assert(dd0 % 1int == 0);
    assert(divs.contains(1usize));
}

/// Infers candidate Vigenere key lengths by Kasiski examination: each
/// distinct repeated bigram contributes the divisor set of the distances
/// between its consecutive repeats, and the sets of the three widest such
/// bigrams are intersected. The result always carries 1, carries every
/// length that divides all repeat distances of all repeated bigrams, and
/// carries only lengths that divide some repeat distance. Fewer than three
/// distinct repeated bigrams leave nothing to intersect and are reported as
/// insufficient evidence.
pub fn find_key_lengths(ciphertext: &Vec<u8>) -> (r: Result<Vec<usize>, CipherError>)
    requires
        ciphertext@.len() <= 1000000,
    ensures
        r is Err <==> repeated_count(ciphertext@, ciphertext@.len() - 1) < 3,
        r matches Err(e) ==> e == CipherError::InsufficientKasiskiEvidence,
        r matches Ok(v) ==> strictly_increasing(v@) && v@.contains(1usize) && (forall|d: usize|
            d >= 1 && divides_all_repeat_distances(ciphertext@, d as int)
                ==> #[trigger] v@.contains(d)) && (forall|x: int|
            0 <= x < v@.len() ==> #[trigger] v@[x] >= 1 && divides_some_repeat_distance(
                ciphertext@,
                v@[x] as int,
            )),
{
    let ghost t = ciphertext@;
    let n = ciphertext.len();
    let mut sets: Vec<Vec<usize>> = Vec::new();
    if n >= 2 {
        let mut f: usize = 0;
        while f < n - 1
            invariant
                n == t.len(),
                t == ciphertext@,
                2 <= n <= 1000000,
                f <= n - 1,
                sets@.len() == repeated_count(t, f as int),
                forall|idx: int| 0 <= idx < sets@.len() ==> divisor_set_ok(
                    t,
                    #[trigger] sets@[idx]@,
                ),
            decreases n - 1 - f,
        {
            let found = bigram_divisor_set(ciphertext, f);
            proof {
                assert(repeated_count(t, f + 1) == repeated_count(t, f as int) + (
                if is_repeated_bigram(t, f as int) {
                    1int
                } else {
                    0int
                }));
            }
            match found {
                Option::Some(divs) => {
                    sets.push(divs);
                },
                Option::None => {},
            }
            f = f + 1;
        }
    }
    if sets.len() < 3 {
        return Err(CipherError::InsufficientKasiskiEvidence);
    }
    let mut i1: usize = 0;
    let mut x: usize = 1;
    while x < sets.len()
        invariant
            i1 < sets@.len(),
            x <= sets@.len(),
        decreases sets@.len() - x,
    {
        if sets[x].len() > sets[i1].len() {
            i1 = x;
        }
        x = x + 1;
    }
    let mut i2: usize = if i1 == 0 {
        1
    } else {
        0
    };
    let mut x2: usize = 0;
    while x2 < sets.len()
        invariant
            sets@.len() >= 3,
            i1 < sets@.len(),
            i2 < sets@.len(),
            i2 != i1,
            x2 <= sets@.len(),
        decreases sets@.len() - x2,
    {
        if x2 != i1 && sets[x2].len() > sets[i2].len() {
            i2 = x2;
        }
        x2 = x2 + 1;
    }
    let mut i3: usize = if i1 != 0 && i2 != 0 {
        0
    } else if i1 != 1 && i2 != 1 {
        1
    } else {
        2
    };
    let mut x3: usize = 0;
    while x3 < sets.len()
        invariant
            sets@.len() >= 3,
            i1 < sets@.len(),
            i2 < sets@.len(),
            i3 < sets@.len(),
            i2 != i1,
            i3 != i1,
            i3 != i2,
            x3 <= sets@.len(),
        decreases sets@.len() - x3,
    {
        if x3 != i1 && x3 != i2 && sets[x3].len() > sets[i3].len() {
            i3 = x3;
        }
        x3 = x3 + 1;
    }
    let inter = intersect_sorted(&sets[i1], &sets[i2]);
    let v = intersect_sorted(&inter, &sets[i3]);
    proof {
        let s1 = sets@[i1 as int]@;
        let s2 = sets@[i2 as int]@;
        let s3 = sets@[i3 as int]@;
        assert(divisor_set_ok(t, s1));
        assert(divisor_set_ok(t, s2));
        assert(divisor_set_ok(t, s3));
        assert forall|d: usize|
            d >= 1 && divides_all_repeat_distances(t, d as int) implies #[trigger] v@.contains(
            d,
        ) by {
            lemma_all_divisor_sets_contain(t, s1, d);
            lemma_all_divisor_sets_contain(t, s2, d);
            lemma_all_divisor_sets_contain(t, s3, d);
        }
        assert(v@.contains(1usize));
        assert forall|x4: int| 0 <= x4 < v@.len() implies #[trigger] v@[x4] >= 1
            && divides_some_repeat_distance(t, v@[x4] as int) by {
            let d = v@[x4];
            assert(v@.contains(d));
            assert(s1.contains(d));
            let ff = choose|ff: int| #[trigger] is_repeated_bigram(t, ff) && divisor_set_of(
                t,
                ff,
                s1,
            );
            let dd = choose|dd: int|
                is_consecutive_distance(t, ff, dd) && dd % (d as int) == 0;
            assert(is_repeated_bigram(t, ff) && is_consecutive_distance(t, ff, dd) && dd % (
            d as int) == 0);
        }
    }
    Ok(v)
}


/// A length that divides every repeat distance sits in every well-formed
/// divisor set.
proof fn lemma_all_divisor_sets_contain(t: Seq<u8>, s: Seq<usize>, d: usize)
    requires
        divisor_set_ok(t, s),
        d >= 1,
        divides_all_repeat_distances(t, d as int),
    ensures
        s.contains(d),
{
    let f = choose|f: int| #[trigger] is_repeated_bigram(t, f) && divisor_set_of(t, f, s);
    assert(s.contains(1usize));
    let dd = choose|dd: int| is_consecutive_distance(t, f, dd) && dd % 1int == 0;
    assert(is_consecutive_distance(t, f, dd));
    assert(dd % (d as int) == 0);
}

/// One cracker outcome: the best raw score found, the key that produced it,
/// and how many key lengths were tried before stopping.
pub struct Crack {
    pub score: u64,
    pub key: Vec<u8>,
    pub trials: usize,
}

/// Cracks a Vigenere ciphertext. Ciphertexts shorter than 150 or longer than
/// 1000000 symbols are rejected before any search work. Candidate key
/// lengths come from Kasiski examination, falling back to every length from
/// 1 up when fewer than three repeated bigrams exist; each candidate length
/// gets one hill climb from a random key of that length. The best score can
/// only improve, a trial that exactly re-finds it counts toward the plateau,
/// and the search stops after `plateau_cap` plateau hits or when the lengths
/// run out. The reported score always matches the reported key's decryption.
pub fn crack(ciphertext: &Vec<u8>, matrix: &FitnessMatrix, plateau_cap: usize) -> (r: Result<
    Crack,
    CipherError,
>)
    requires
        matrix.wf(),
        all_letters(ciphertext@),
        plateau_cap >= 1,
    ensures
        r is Err <==> (ciphertext@.len() < 150 || ciphertext@.len() > 1000000),
        r matches Err(e) ==> e == (if ciphertext@.len() < 150 {
            CipherError::CiphertextTooShort
        } else {
            CipherError::CiphertextTooLong
        }),
        r matches Ok(c) ==> is_vigenere_key(c.key@) && c.score == fitness_sum(
            *matrix,
            vig_dec_map(ciphertext@, c.key@),
        ) && c.trials >= 1,
{
    if ciphertext.len() < 150 {
        return Err(CipherError::CiphertextTooShort);
    }
    if ciphertext.len() > 1000000 {
        return Err(CipherError::CiphertextTooLong);
    }
    let lengths: Vec<usize> = match find_key_lengths(ciphertext) {
        Ok(v) => {
            proof {
                assert(v@.contains(1usize));
                assert(v@.len() >= 1);
                assert forall|x: int| 0 <= x < v@.len() implies 1 <= #[trigger] v@[x]
                    <= 1000000 by {
                    assert(v@.contains(v@[x]));
                    lemma_sorted_divisor_bound(ciphertext@, v@, x);
                }
            }
            v
        },
        Err(_) => {
            let mut fallback: Vec<usize> = Vec::new();
            let n = ciphertext.len();
            let mut l: usize = 1;
            while l < n
                invariant
                    150 <= n <= 1000000,
                    1 <= l <= n,
                    fallback@.len() == l - 1,
                    forall|x: int| 0 <= x < fallback@.len() ==> 1 <= #[trigger] fallback@[x]
                        <= 1000000,
                decreases n - l,
            {
                fallback.push(l);
                l = l + 1;
            }
            fallback
        },
    };
    let first_len = lengths[0];
    let start = random_letters(first_len);
    let (s0, k0) = hill_climb(ciphertext, &start, matrix);
    let mut best_score = s0;
    let mut best_key = k0;
    let mut trials: usize = 1;
    let mut hits: usize = 0;
    let mut idx: usize = 1;
    while idx < lengths.len() && hits < plateau_cap
        invariant
            matrix.wf(),
            all_letters(ciphertext@),
            150 <= ciphertext@.len() <= 1000000,
            forall|x: int| 0 <= x < lengths@.len() ==> 1 <= #[trigger] lengths@[x] <= 1000000,
            is_vigenere_key(best_key@),
            best_key@.len() <= 1000000,
            best_score == fitness_sum(*matrix, vig_dec_map(ciphertext@, best_key@)),
            1 <= trials,
            trials <= idx,
            idx <= lengths@.len(),
        decreases lengths@.len() - idx,
    {
        let len = lengths[idx];
        let start2 = random_letters(len);
        let (s, k) = hill_climb(ciphertext, &start2, matrix);
        trials = trials + 1;
        idx = idx + 1;
        if s > best_score {
            best_score = s;
            best_key = k;
        } else if s == best_score {
            hits = hits + 1;
        }
    }
    Ok(Crack { score: best_score, key: best_key, trials })
}

/// Every member of a divisor list found by Kasiski examination fits the
/// ciphertext: a repeat distance never exceeds the text length.
proof fn lemma_sorted_divisor_bound(t: Seq<u8>, v: Seq<usize>, x: int)
    requires
        t.len() <= 1000000,
        0 <= x < v.len(),
        v[x] >= 1,
        divides_some_repeat_distance(t, v[x] as int),
    ensures
        1 <= v[x] <= 1000000,
{
    reveal(is_consecutive_distance);
    let (f, dd) = choose|f: int, dd: int|
        is_repeated_bigram(t, f) && #[trigger] is_consecutive_distance(t, f, dd) && dd % (
        v[x] as int) == 0;
    let (i1, i2) = choose|i1: int, i2: int|
        #![trigger same_bigram(t, f, i1), same_bigram(t, f, i2)]
        f <= i1 < i2 < t.len() - 1 && same_bigram(t, f, i1) && same_bigram(t, f, i2) && (forall|
            m: int,
        | i1 < m < i2 ==> !same_bigram(t, f, m)) && dd == i2 - i1;
    assert(1 <= dd <= t.len());
    if v[x] > dd {
        lemma_small_mod(dd as nat, v[x] as nat);
    }
}

} // verus!
