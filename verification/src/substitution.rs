//! The monoalphabetic substitution cipher and its cracker.
//!
//! A key is a permutation of the 26 letters; encryption maps each letter
//! through the permutation and keeps spaces. Cracking hill-climbs over the
//! key space: a move swaps two key entries, and its effect on the decrypted
//! text touches exactly the positions of the two ciphertext letters whose
//! images swapped, which drives the incremental rescoring.

use vstd::prelude::*;
use vstd::seq_lib::lemma_seq_contains_after_push;

use crate::english::{all_text, copy_symbols, is_permutation};
use crate::fitness::{
    affected_window_sum, compute_fitness, fitness_sum, fitting_symbols, lemma_fitness_sum_bounds,
    lemma_incremental_rescore, lemma_push_increasing, strictly_increasing, FitnessMatrix,
};
use crate::rng::random_permutation;
use crate::CipherError;

verus! {

/// The image of one symbol under a substitution key: a letter maps through
/// the permutation, a space stays a space.
pub open spec fn subst_sym(k: Seq<u8>, s: u8) -> u8 {
    if s == 26 {
        26
    } else {
        k[s as int]
    }
}

/// A whole text mapped through a substitution key.
pub open spec fn subst_map(k: Seq<u8>, t: Seq<u8>) -> Seq<u8> {
    Seq::new(t.len(), |i: int| subst_sym(k, t[i]))
}

/// Substitution-encrypts a text: each letter maps to its key image, spaces
/// stay. A symbol outside the alphabet is rejected, naming the offender.
pub fn encrypt(plaintext: &Vec<u8>, key: &Vec<u8>) -> (r: Result<Vec<u8>, CipherError>)
    requires
        is_permutation(key@),
    ensures
        r is Ok <==> all_text(plaintext@),
        r matches Ok(c) ==> c@ == subst_map(key@, plaintext@) && all_text(c@),
        r matches Err(e) ==> (exists|i: int|
            0 <= i < plaintext@.len() && #[trigger] plaintext@[i] > 26 && e
                == CipherError::InvalidCharacter(plaintext@[i])),
{
    let mut c: Vec<u8> = Vec::new();
    let n = plaintext.len();
    for i in 0..n
        invariant
            n == plaintext@.len(),
            is_permutation(key@),
            c@.len() == i,
            forall|j: int| 0 <= j < i ==> #[trigger] plaintext@[j] <= 26,
            forall|j: int| 0 <= j < i ==> #[trigger] c@[j] == subst_sym(key@, plaintext@[j]),
            forall|j: int| 0 <= j < i ==> #[trigger] c@[j] <= 26,
    {
        let s = plaintext[i];
        if s == 26 {
            c.push(26);
        } else if s < 26 {
            c.push(key[s as usize]);
        } else {
            return Err(CipherError::InvalidCharacter(s));
        }
    }
    proof {
        assert(c@ =~= subst_map(key@, plaintext@));
    }
    Ok(c)
}

/// Substitution-decrypts a text: mapping through the inverse permutation is
/// the same transform, so decryption is encryption under the reversed key.
pub fn decrypt(ciphertext: &Vec<u8>, rev_key: &Vec<u8>) -> (r: Result<Vec<u8>, CipherError>)
    requires
        is_permutation(rev_key@),
    ensures
        r is Ok <==> all_text(ciphertext@),
        r matches Ok(p) ==> p@ == subst_map(rev_key@, ciphertext@) && all_text(p@),
        r matches Err(e) ==> (exists|i: int|
            0 <= i < ciphertext@.len() && #[trigger] ciphertext@[i] > 26 && e
                == CipherError::InvalidCharacter(ciphertext@[i])),
{
    encrypt(ciphertext, rev_key)
}

/// Round trip: decrypting under the inverse key undoes encryption, for every
/// permutation key and every text over the supported alphabet.
pub proof fn lemma_substitution_round_trip(key: Seq<u8>, rev_key: Seq<u8>, p: Seq<u8>)
    requires
        is_permutation(key),
        rev_key.len() == 26,
        forall|i: int| 0 <= i < 26 ==> #[trigger] rev_key[key[i] as int] == i,
        all_text(p),
    ensures
        subst_map(rev_key, subst_map(key, p)) == p,
{
    let e = subst_map(key, p);
    assert forall|i: int| 0 <= i < p.len() implies subst_map(rev_key, e)[i] == p[i] by {
        if p[i] != 26 {
            assert(rev_key[key[p[i] as int] as int] == p[i]);
        }
    }
    assert(subst_map(rev_key, subst_map(key, p)) =~= p);
}

/// The position list of one letter: sound, complete and strictly ascending.
pub open spec fn positions_ok(t: Seq<u8>, c: int, pos: Seq<usize>) -> bool {
    &&& strictly_increasing(pos)
    &&& (forall|j: int| 0 <= j < pos.len() ==> #[trigger] pos[j] < t.len() && t[pos[j] as int]
        == c)
    &&& (forall|i: int| 0 <= i < t.len() && t[i] == c ==> pos.contains(#[trigger] (i as usize)))
}

/// For each letter, the ascending list of the ciphertext positions that hold
/// it; built once per ciphertext, it prices every later move.
pub fn generate_char_positions(text: &Vec<u8>) -> (r: Vec<Vec<usize>>)
    ensures
        r@.len() == 26,
        forall|c: int| 0 <= c < 26 ==> positions_ok(text@, c, #[trigger] r@[c]@),
{
    let mut r: Vec<Vec<usize>> = Vec::new();
    let mut c: u8 = 0;
    while c < 26
        invariant
            c <= 26,
            r@.len() == c,
            forall|c2: int| 0 <= c2 < c ==> positions_ok(text@, c2, #[trigger] r@[c2]@),
        decreases 26 - c,
    {
        let mut pos: Vec<usize> = Vec::new();
        let n = text.len();
        for i in 0..n
            invariant
                n == text@.len(),
                strictly_increasing(pos@),
                forall|j: int| 0 <= j < pos@.len() ==> #[trigger] pos@[j] < i,
                forall|j: int| 0 <= j < pos@.len() ==> text@[#[trigger] pos@[j] as int]
                    == c,
                forall|i2: int| 0 <= i2 < i && text@[i2] == c ==> pos@.contains(
                    #[trigger] (i2 as usize),
                ),
        {
            broadcast use lemma_seq_contains_after_push;

            if text[i] == c {
                pos.push(i);
            }
        }
        r.push(pos);
        c = c + 1;
    }
    r
}

/// Merges two ascending position lists into the ascending list of the
/// positions either holds.
pub fn merge_positions(a: &Vec<usize>, b: &Vec<usize>) -> (r: Vec<usize>)
    requires
        strictly_increasing(a@),
        strictly_increasing(b@),
    ensures
        strictly_increasing(r@),
        forall|x: usize| #[trigger] r@.contains(x) <==> a@.contains(x) || b@.contains(x),
{
    broadcast use lemma_seq_contains_after_push;

    let mut r: Vec<usize> = Vec::new();
    let mut i: usize = 0;
    let mut j: usize = 0;
    while i < a.len() || j < b.len()
        invariant
            strictly_increasing(a@),
            strictly_increasing(b@),
            strictly_increasing(r@),
            i <= a@.len(),
            j <= b@.len(),
            forall|x: usize| #[trigger] r@.contains(x) <==> (exists|ii: int|
                0 <= ii < i && a@[ii] == x) || (exists|jj: int| 0 <= jj < j && b@[jj] == x),
            r@.len() > 0 && i < a@.len() ==> r@[r@.len() - 1] < a@[i as int],
            r@.len() > 0 && j < b@.len() ==> r@[r@.len() - 1] < b@[j as int],
        decreases a@.len() - i + b@.len() - j,
    {
        let take_a = j >= b.len() || (i < a.len() && a[i] < b[j]);
        let take_b = i >= a.len() || (j < b.len() && b[j] < a[i]);
        if take_a {
            let ghost r0 = r@;
            let x = a[i];
            proof {
                lemma_push_increasing(r0, x);
                lemma_merge_push(r0, a@, b@, i as int, j as int, i + 1, j as int, x);
            }
            r.push(x);
            i = i + 1;
        } else if take_b {
            let ghost r0 = r@;
            let x = b[j];
            proof {
                lemma_push_increasing(r0, x);
                lemma_merge_push(r0, a@, b@, i as int, j as int, i as int, j + 1, x);
            }
            r.push(x);
            j = j + 1;
        } else {
            let x = a[i];
            assert(i < a@.len() && j < b@.len() && a@[i as int] == b@[j as int]);
            let ghost r0 = r@;
            proof {
                lemma_push_increasing(r0, x);
                lemma_merge_push(r0, a@, b@, i as int, j as int, i + 1, j + 1, x);
            }
            r.push(x);
            i = i + 1;
            j = j + 1;
        }
    }
    proof {
        assert forall|x: usize| #[trigger] r@.contains(x) implies a@.contains(x)
            || b@.contains(x) by {}
        assert forall|x: usize| a@.contains(x) || b@.contains(x) implies #[trigger] r@.contains(
            x,
        ) by {}
    }
    r
}

/// A position whose symbol differs from the list's letter is not in the
/// list.
proof fn lemma_not_in_positions(t: Seq<u8>, c: int, pos: Seq<usize>, i: int)
    requires
        positions_ok(t, c, pos),
        0 <= i < t.len(),
        t.len() <= usize::MAX,
        t[i] != c,
    ensures
        !pos.contains(i as usize),
{
    if pos.contains(i as usize) {
        let j = choose|j: int| 0 <= j < pos.len() && pos[j] == i as usize;
        assert(t[pos[j] as int] == c);
    }
}

/// Pushing the next element of either source list onto the merge keeps the
/// merged prefix characterization.
proof fn lemma_merge_push(
    r0: Seq<usize>,
    a: Seq<usize>,
    b: Seq<usize>,
    i0: int,
    j0: int,
    i1: int,
    j1: int,
    x: usize,
)
    requires
        0 <= i0 <= i1 <= a.len(),
        0 <= j0 <= j1 <= b.len(),
        forall|y: usize| #[trigger] r0.contains(y) <==> (exists|ii: int|
            0 <= ii < i0 && a[ii] == y) || (exists|jj: int| 0 <= jj < j0 && b[jj] == y),
        i1 == i0 + 1 || i1 == i0,
        j1 == j0 + 1 || j1 == j0,
        i1 > i0 ==> a[i0] == x,
        j1 > j0 ==> b[j0] == x,
        i1 > i0 || j1 > j0,
    ensures
        forall|y: usize| #[trigger] r0.push(x).contains(y) <==> (exists|ii: int|
            0 <= ii < i1 && a[ii] == y) || (exists|jj: int| 0 <= jj < j1 && b[jj] == y),
{
    broadcast use lemma_seq_contains_after_push;

    assert forall|y: usize| #[trigger] r0.push(x).contains(y) implies ((exists|ii: int|
        0 <= ii < i1 && a[ii] == y) || (exists|jj: int| 0 <= jj < j1 && b[jj] == y)) by {
        if y == x {
            if i1 > i0 {
                assert(0 <= i0 < i1 && a[i0] == y);
            } else {
                assert(0 <= j0 < j1 && b[j0] == y);
            }
        }
    }
    assert forall|y: usize|
        ((exists|ii: int| 0 <= ii < i1 && a[ii] == y) || (exists|jj: int|
            0 <= jj < j1 && b[jj] == y)) implies #[trigger] r0.push(x).contains(y) by {
        if exists|ii: int| 0 <= ii < i1 && a[ii] == y {
            let ii = choose|ii: int| 0 <= ii < i1 && a[ii] == y;
            if ii < i0 {
                assert(r0.contains(y));
            } else {
                assert(y == x);
            }
        } else {
            let jj = choose|jj: int| 0 <= jj < j1 && b[jj] == y;
            if jj < j0 {
                assert(r0.contains(y));
            } else {
                assert(y == x);
            }
        }
    }
}

/// Writes one value at each listed position, leaving every other position as
/// it was.
fn set_positions(text: &mut Vec<u8>, positions: &Vec<usize>, value: u8)
    requires
        forall|j: int| 0 <= j < positions@.len() ==> #[trigger] positions@[j] < old(
            text,
        )@.len(),
    ensures
        final (text)@.len() == old(text)@.len(),
        forall|j: int| 0 <= j < positions@.len() ==> final (text)@[#[trigger] positions@[j] as int]
            == value,
        forall|i: int|
            0 <= i < old(text)@.len() && !positions@.contains(i as usize)
                ==> final (text)@[i] == old(text)@[i],
{
    let n = positions.len();
    for j in 0..n
        invariant
            n == positions@.len(),
            text@.len() == old(text)@.len(),
            forall|j2: int| 0 <= j2 < positions@.len() ==> #[trigger] positions@[j2]
                < text@.len(),
            forall|j2: int| 0 <= j2 < j ==> text@[#[trigger] positions@[j2] as int] == value,
            forall|i: int|
                0 <= i < old(text)@.len() && !positions@.contains(i as usize)
                    ==> text@[i] == old(text)@[i],
    {
        let p = positions[j];
        text[p] = value;
        proof {
            assert(positions@.contains(positions@[j as int]));
        }
    }
}

/// One candidate decryption equals the text a key maps the ciphertext to,
/// provided the two letters' positions carry the key's images and every
/// other position already agrees with the key.
proof fn lemma_patched_matches_key(
    ct: Seq<u8>,
    ptext: Seq<u8>,
    k: Seq<u8>,
    to: int,
    from: int,
    pos_to: Seq<usize>,
    pos_from: Seq<usize>,
)
    requires
        all_text(ct),
        ct.len() <= usize::MAX,
        ptext.len() == ct.len(),
        k.len() == 26,
        0 <= to < 26,
        0 <= from < 26,
        positions_ok(ct, to, pos_to),
        positions_ok(ct, from, pos_from),
        forall|j: int| 0 <= j < pos_to.len() ==> ptext[#[trigger] pos_to[j] as int] == k[to],
        forall|j: int| 0 <= j < pos_from.len() ==> ptext[#[trigger] pos_from[j] as int]
            == k[from],
        forall|i: int|
            0 <= i < ct.len() && ct[i] != to && ct[i] != from ==> #[trigger] ptext[i]
                == subst_sym(k, ct[i]),
    ensures
        ptext == subst_map(k, ct),
{
    assert forall|i: int| 0 <= i < ct.len() implies ptext[i] == subst_sym(k, ct[i]) by {
        if ct[i] == to {
            assert(pos_to.contains(i as usize));
            let j = choose|j: int| 0 <= j < pos_to.len() && pos_to[j] == i as usize;
            assert(ptext[pos_to[j] as int] == k[to]);
        } else if ct[i] == from {
            assert(pos_from.contains(i as usize));
            let j = choose|j: int| 0 <= j < pos_from.len() && pos_from[j] == i as usize;
            assert(ptext[pos_from[j] as int] == k[from]);
        }
    }
    assert(ptext =~= subst_map(k, ct));
}

/// Runs greedy hill climbing from one starting key: every pass tries each
/// unordered pair swap of key entries, rescores only the touched windows,
/// keeps the swap exactly when the score strictly improves, and stops at a
/// pass with no improvement. The tracked score never decreases, stays
/// consistent with the tracked key, and the climb terminates because every
/// accepted move strictly increases a bounded integer score.
pub fn hill_climb(ciphertext: &Vec<u8>, rev_key: &Vec<u8>, matrix: &FitnessMatrix) -> (r: (
    u64,
    Vec<u8>,
))
    requires
        matrix.wf(),
        all_text(ciphertext@),
        ciphertext@.len() >= 4,
        ciphertext@.len() <= 0x1000000000000000,
        is_permutation(rev_key@),
    ensures
        is_permutation(r.1@),
        r.0 == fitness_sum(*matrix, subst_map(r.1@, ciphertext@)),
        r.0 >= fitness_sum(*matrix, subst_map(rev_key@, ciphertext@)),
{
    let ctn = ciphertext.len();
    proof {
        assert(ciphertext@.len() == ctn);
    }
    let char_positions = generate_char_positions(ciphertext);
    let dec = decrypt(ciphertext, rev_key);
    let mut plaintext = dec.unwrap();
    let mut key = copy_symbols(rev_key);
    let mut current = compute_fitness(&plaintext, matrix);
    let ghost init_sum = current as int;
    let ghost n3 = ciphertext@.len() - 3;
    proof {
        lemma_fitness_sum_bounds(*matrix, plaintext@);
    }
    let mut better = true;
    while better
        invariant
            matrix.wf(),
            all_text(ciphertext@),
            ciphertext@.len() >= 4,
            ciphertext@.len() <= 0x1000000000000000,
            ciphertext@.len() <= usize::MAX,
            n3 == ciphertext@.len() - 3,
            char_positions@.len() == 26,
            forall|c: int| 0 <= c < 26 ==> positions_ok(ciphertext@, c, #[trigger] char_positions@[c]@),
            is_permutation(key@),
            plaintext@ == subst_map(key@, ciphertext@),
            current == fitness_sum(*matrix, plaintext@),
            current as int >= init_sum,
            init_sum == fitness_sum(*matrix, subst_map(rev_key@, ciphertext@)),
            current <= 3 * n3,
        decreases 3 * n3 - current + (if better { 1int } else { 0int }),
    {
        let ghost entry_score = current;
        better = false;
        let mut to: usize = 0;
        while to < 26
            invariant
                matrix.wf(),
                all_text(ciphertext@),
                ciphertext@.len() >= 4,
                ciphertext@.len() <= 0x1000000000000000,
                ciphertext@.len() <= usize::MAX,
                n3 == ciphertext@.len() - 3,
                char_positions@.len() == 26,
                forall|c: int| 0 <= c < 26 ==> positions_ok(ciphertext@, c, #[trigger] char_positions@[c]@),
                is_permutation(key@),
                plaintext@ == subst_map(key@, ciphertext@),
                current == fitness_sum(*matrix, plaintext@),
                current as int >= init_sum,
                init_sum == fitness_sum(*matrix, subst_map(rev_key@, ciphertext@)),
                current <= 3 * n3,
                to <= 26,
                better ==> current > entry_score,
                !better ==> current == entry_score,
            decreases 26 - to,
        {
            let mut from: usize = to + 1;
            while from < 26
                invariant
                    matrix.wf(),
                    all_text(ciphertext@),
                    ciphertext@.len() >= 4,
                    ciphertext@.len() <= 0x1000000000000000,
                    ciphertext@.len() <= usize::MAX,
                    n3 == ciphertext@.len() - 3,
                    char_positions@.len() == 26,
                    forall|c: int| 0 <= c < 26 ==> positions_ok(ciphertext@, c, #[trigger] char_positions@[c]@),
                    is_permutation(key@),
                    plaintext@ == subst_map(key@, ciphertext@),
                    current == fitness_sum(*matrix, plaintext@),
                    current as int >= init_sum,
                    init_sum == fitness_sum(*matrix, subst_map(rev_key@, ciphertext@)),
                    current <= 3 * n3,
                    to < 26,
                    to < from,
                    better ==> current > entry_score,
                    !better ==> current == entry_score,
                decreases 26 - from,
            {
                let c1 = key[to];
                let c2 = key[from];
                let changed = merge_positions(&char_positions[to], &char_positions[from]);
                proof {
                    assert forall|kk: int| 0 <= kk < changed@.len() implies #[trigger] changed@[kk]
                        < ciphertext@.len() by {
                        assert(changed@.contains(changed@[kk]));
                    }
                    assert(fitting_symbols(plaintext@)) by {
                        assert forall|i: int| 0 <= i < plaintext@.len() implies #[trigger] plaintext@[i]
                            < 32 by {
                            assert(plaintext@[i] == subst_sym(key@, ciphertext@[i]));
                        }
                    }
                }
                let ghost before = plaintext@;
                let ghost k2 = key@.update(to as int, c2).update(from as int, c1);
                let minus = affected_window_sum(matrix, &plaintext, &changed);
                set_positions(&mut plaintext, &char_positions[to], c2);
                set_positions(&mut plaintext, &char_positions[from], c1);
                proof {
                    lemma_swapped_is_permutation(key@, k2, to as int, from as int);
                    assert forall|i: int|
                        0 <= i < ciphertext@.len() && ciphertext@[i] != to && ciphertext@[i]
                            != from implies #[trigger] plaintext@[i] == subst_sym(
                        k2,
                        ciphertext@[i],
                    ) by {
                        lemma_not_in_positions(
                            ciphertext@,
                            to as int,
                            char_positions@[to as int]@,
                            i,
                        );
                        lemma_not_in_positions(
                            ciphertext@,
                            from as int,
                            char_positions@[from as int]@,
                            i,
                        );
                        assert(plaintext@[i] == before[i]);
                        assert(before[i] == subst_sym(key@, ciphertext@[i]));
                    }
                    assert forall|j: int| 0 <= j < char_positions@[to as int]@.len()
                        implies plaintext@[#[trigger] char_positions@[to as int]@[j] as int]
                        == k2[to as int] by {
                        let pj = char_positions@[to as int]@[j];
                        assert(ciphertext@[pj as int] == to);
                        lemma_not_in_positions(
                            ciphertext@,
                            from as int,
                            char_positions@[from as int]@,
                            pj as int,
                        );
                    }
                    lemma_patched_matches_key(
                        ciphertext@,
                        plaintext@,
                        k2,
                        to as int,
                        from as int,
                        char_positions@[to as int]@,
                        char_positions@[from as int]@,
                    );
                    assert(plaintext@ == subst_map(k2, ciphertext@));
                    assert forall|i: int|
                        0 <= i < before.len() && before[i] != plaintext@[i]
                            implies changed@.contains(#[trigger] (i as usize)) by {
                        if !changed@.contains(i as usize) {
                            assert(!char_positions@[to as int]@.contains(i as usize));
                            assert(!char_positions@[from as int]@.contains(i as usize));
                        }
                    }
                    assert(fitting_symbols(plaintext@)) by {
                        assert forall|i: int| 0 <= i < plaintext@.len() implies #[trigger] plaintext@[i]
                            < 32 by {
                            assert(plaintext@[i] == subst_sym(k2, ciphertext@[i]));
                        }
                    }
                    lemma_incremental_rescore(*matrix, before, plaintext@, changed@);
                    crate::fitness::lemma_affected_sum_le(*matrix, before, changed@);
                    lemma_fitness_sum_bounds(*matrix, plaintext@);
                }
                let plus = affected_window_sum(matrix, &plaintext, &changed);
                let proposal = current - minus + plus;
                if proposal > current {
                    key[to] = c2;
                    key[from] = c1;
                    current = proposal;
                    better = true;
                } else {
                    let ghost trial = plaintext@;
                    set_positions(&mut plaintext, &char_positions[to], c1);
                    set_positions(&mut plaintext, &char_positions[from], c2);
                    proof {
                        assert forall|i: int|
                            0 <= i < ciphertext@.len() && ciphertext@[i] != to && ciphertext@[i]
                                != from implies #[trigger] plaintext@[i] == subst_sym(
                            key@,
                            ciphertext@[i],
                        ) by {
                            lemma_not_in_positions(
                                ciphertext@,
                                to as int,
                                char_positions@[to as int]@,
                                i,
                            );
                            lemma_not_in_positions(
                                ciphertext@,
                                from as int,
                                char_positions@[from as int]@,
                                i,
                            );
                            assert(plaintext@[i] == trial[i]);
                            assert(trial[i] == subst_sym(k2, ciphertext@[i]));
                            if ciphertext@[i] != 26 {
                                assert(k2[ciphertext@[i] as int] == key@[ciphertext@[i] as int]);
                            }
                        }
                        assert forall|j: int| 0 <= j < char_positions@[to as int]@.len()
                            implies plaintext@[#[trigger] char_positions@[to as int]@[j] as int]
                            == key@[to as int] by {
                            let pj = char_positions@[to as int]@[j];
                            assert(ciphertext@[pj as int] == to);
                            lemma_not_in_positions(
                                ciphertext@,
                                from as int,
                                char_positions@[from as int]@,
                                pj as int,
                            );
                        }
                        lemma_patched_matches_key(
                            ciphertext@,
                            plaintext@,
                            key@,
                            to as int,
                            from as int,
                            char_positions@[to as int]@,
                            char_positions@[from as int]@,
                        );
                        assert(plaintext@ == subst_map(key@, ciphertext@));
                        assert(plaintext@ == before);
                    }
                }
                from = from + 1;
            }
            to = to + 1;
        }
    }
    (current, key)
}

/// Swapping two entries of a permutation leaves a permutation.
pub proof fn lemma_swapped_is_permutation(k: Seq<u8>, k2: Seq<u8>, to: int, from: int)
    requires
        is_permutation(k),
        0 <= to < 26,
        0 <= from < 26,
        k2 == k.update(to, k[from]).update(from, k[to]),
    ensures
        is_permutation(k2),
{
}

/// One cracker outcome: the best raw score found, the reversed key that
/// produced it, and how many restarts ran before stopping.
pub struct Crack {
    pub score: u64,
    pub rev_key: Vec<u8>,
    pub restarts: usize,
}

/// Cracks a substitution ciphertext by random-restart hill climbing.
/// Ciphertexts shorter than 10 or longer than 1000000 symbols are rejected
/// before any search work. Each restart climbs from a fresh uniformly random
/// key; the best score can only improve, a restart that exactly re-finds the
/// best score counts toward the plateau, and the search stops at
/// `restart_cap` restarts or `plateau_cap` plateau hits, whichever comes
/// first. The reported score always matches the reported key's decryption.
pub fn crack(
    ciphertext: &Vec<u8>,
    matrix: &FitnessMatrix,
    restart_cap: usize,
    plateau_cap: usize,
) -> (r: Result<Crack, CipherError>)
    requires
        matrix.wf(),
        all_text(ciphertext@),
        restart_cap >= 1,
        plateau_cap >= 1,
    ensures
        r is Err <==> (ciphertext@.len() < 10 || ciphertext@.len() > 1000000),
        r matches Err(e) ==> e == (if ciphertext@.len() < 10 {
            CipherError::CiphertextTooShort
        } else {
            CipherError::CiphertextTooLong
        }),
        r matches Ok(c) ==> is_permutation(c.rev_key@) && c.score == fitness_sum(
            *matrix,
            subst_map(c.rev_key@, ciphertext@),
        ) && 1 <= c.restarts <= restart_cap,
{
    if ciphertext.len() < 10 {
        return Err(CipherError::CiphertextTooShort);
    }
    if ciphertext.len() > 1000000 {
        return Err(CipherError::CiphertextTooLong);
    }
    let first_key = random_permutation();
    let (s0, k0) = hill_climb(ciphertext, &first_key, matrix);
    let mut best_score = s0;
    let mut best_key = k0;
    let mut restarts: usize = 1;
    let mut hits: usize = 0;
    while restarts < restart_cap && hits < plateau_cap
        invariant
            matrix.wf(),
            all_text(ciphertext@),
            ciphertext@.len() >= 10,
            ciphertext@.len() <= 1000000,
            is_permutation(best_key@),
            best_score == fitness_sum(*matrix, subst_map(best_key@, ciphertext@)),
            1 <= restarts <= restart_cap,
            hits <= plateau_cap,
        decreases restart_cap - restarts,
    {
        let start = random_permutation();
        let (s, k) = hill_climb(ciphertext, &start, matrix);
        restarts = restarts + 1;
        if s > best_score {
            best_score = s;
            best_key = k;
        } else if s == best_score {
            hits = hits + 1;
        }
    }
    Ok(Crack { score: best_score, rev_key: best_key, restarts })
}

} // verus!
