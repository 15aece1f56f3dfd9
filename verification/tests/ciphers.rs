use ciphers::caesar;
use ciphers::english;
use ciphers::enigma;
use ciphers::fitness;
use ciphers::rng;
use ciphers::substitution;
use ciphers::vigenere;
use ciphers::CipherError;

fn syms(text: &str) -> Vec<u8> {
    english::symbols_from_bytes(&text.as_bytes().to_vec()).unwrap()
}

fn text_of(symbols: &Vec<u8>) -> String {
    String::from_utf8(english::symbols_to_bytes(symbols)).unwrap()
}

/// Builds a quantized fitness matrix from a training corpus, mirroring the
/// model-building pipeline: count quadgram windows, convert to shifted log
/// probabilities, normalize to a mean scale of 100, quantize to 2-bit codes.
fn train_matrix(corpus: &str) -> fitness::FitnessMatrix {
    let corpus_syms = syms(corpus);
    let counts = fitness::quadgram_counts(&corpus_syms).unwrap();
    let total = (corpus_syms.len() - 3) as f64;
    let min_value = counts.iter().filter(|c| **c != 0).min().unwrap();
    let offset = (*min_value as f64 / 10.0 / total).log10();
    let mut matrix = vec![0.0f64; counts.len()];
    let mut norm = 0.0f64;
    for (idx, value) in counts.iter().enumerate() {
        if *value == 0 {
            continue;
        }
        let prop = *value as f64 / total;
        let new_value = prop.log10() - offset;
        norm += prop * new_value;
        matrix[idx] = new_value;
    }
    let codes: Vec<u8> = matrix
        .into_iter()
        .map(|x| {
            let q = (x / norm * 100.0 / 100.0 * 2.0).round();
            if q < 0.0 {
                0
            } else if q > 3.0 {
                3
            } else {
                q as u8
            }
        })
        .collect();
    fitness::FitnessMatrix::from_codes(&codes).unwrap()
}

fn zero_matrix() -> fitness::FitnessMatrix {
    fitness::FitnessMatrix::from_codes(&vec![0u8; 1 << 20]).unwrap()
}

#[test]
fn symbol_conversion_round_trip() {
    let bytes = b"hello world".to_vec();
    let s = english::symbols_from_bytes(&bytes).unwrap();
    assert_eq!(s, vec![7, 4, 11, 11, 14, 26, 22, 14, 17, 11, 3]);
    assert_eq!(english::symbols_to_bytes(&s), bytes);
}

#[test]
fn symbol_conversion_rejects_unsupported_byte() {
    let bytes = b"ab!".to_vec();
    assert_eq!(
        english::symbols_from_bytes(&bytes),
        Err(CipherError::InvalidCharacter(b'!'))
    );
}

#[test]
fn substitution_round_trip() {
    let key = rng::random_permutation();
    let rev = english::invert_permutation(&key);
    let p = syms("attack at dawn");
    let c = substitution::encrypt(&p, &key).unwrap();
    let back = substitution::decrypt(&c, &rev).unwrap();
    assert_eq!(back, p);
}

#[test]
fn substitution_rejects_bad_symbol() {
    let key = english::identity_permutation();
    let p = vec![0u8, 30u8];
    assert_eq!(
        substitution::encrypt(&p, &key),
        Err(CipherError::InvalidCharacter(30))
    );
}

#[test]
fn vigenere_round_trip() {
    let p = syms("meetmeatthefountain");
    let key = syms("lemon");
    let c = vigenere::encrypt(&p, &key).unwrap();
    let back = vigenere::decrypt(&c, &key).unwrap();
    assert_eq!(back, p);
    assert_eq!(text_of(&c), "xiqhzpefhupjaiaeeub");
}

#[test]
fn enigma_round_trip() {
    let key = enigma::generate_enigmakey();
    let p = syms("tobeornottobethatisthequestion");
    let c = enigma::encrypt(&p, &key).unwrap();
    let back = enigma::decrypt(&c, &key).unwrap();
    assert_eq!(back, p);
}

#[test]
fn enigma_fast_swap_matches_rebuilt_tables() {
    let key = enigma::generate_enigmakey();
    let rotated = enigma::rotate_key(&key);
    // swap entries 1 and 5 of rotor 0 at the key level
    let mut r0 = key.r0.clone();
    r0.swap(1, 5);
    let key2 = enigma::EnigmaKey {
        r0,
        r1: key.r1.clone(),
        r2: key.r2.clone(),
    };
    // a key-level swap of slots propagates into every rotated copy as a swap
    // of the slots that rotate onto them; check via the reversed tables, as
    // the search uses them: swapping the two images in every reversed row
    // equals rebuilding the reversed table from the swapped key
    let mut rev = enigma::reverse_key(&rotated);
    enigma::fast_swap_key(&mut rev, 0, key.r0[1], key.r0[5]);
    let rev2 = enigma::reverse_key(&enigma::rotate_key(&key2));
    // reversed rows map images back to slots; the swapped images exchange
    for k in 0..26usize {
        for v in 0..26usize {
            assert_eq!(rev[k * 26 + v], rev2[k * 26 + v]);
        }
    }
}

#[test]
fn caesar_round_trip_and_errors() {
    let p = syms("helloworld");
    let c = caesar::encrypt(&p, 23).unwrap();
    let back = caesar::decrypt(&c, 23).unwrap();
    assert_eq!(back, p);
    assert_eq!(caesar::encrypt(&p, 0), Err(CipherError::InvalidKey));
    assert_eq!(caesar::encrypt(&p, 27), Err(CipherError::InvalidKey));
    let counts = caesar::counter(&p);
    assert_eq!(counts[11], 3); // three l's
    assert_eq!(counts[7], 1); // one h
}

#[test]
fn fitness_codes_are_two_bit_and_score_is_bounded() {
    let mut codes = vec![0u8; 1 << 20];
    codes[0] = 3;
    codes[1] = 2;
    codes[33] = 1;
    let m = fitness::FitnessMatrix::from_codes(&codes).unwrap();
    assert_eq!(m.lookup(0), 3);
    assert_eq!(m.lookup(1), 2);
    assert_eq!(m.lookup(33), 1);
    for q in 2..32usize {
        assert!(m.lookup(q) <= 3);
    }
    // text "aaaaa": windows (0,0,0,0) and (0,0,0,0) -> index 0 twice
    let t = syms("aaaaa");
    let sum = fitness::compute_fitness(&t, &m);
    assert_eq!(sum, 6);
    // on the conventional scale: sum / 2 * 100 / (len - 3)
    let score = sum as f64 / 2.0 * 100.0 / (t.len() - 3) as f64;
    assert!((0.0..=150.0).contains(&score));
    assert_eq!(score, 150.0);
}

#[test]
fn fitness_rejects_malformed_tables() {
    match fitness::FitnessMatrix::from_codes(&vec![0u8; 7]) {
        Err(CipherError::MalformedFitnessData) => {}
        _ => panic!("expected MalformedFitnessData"),
    }
    let mut codes = vec![0u8; 1 << 20];
    codes[5] = 4;
    match fitness::FitnessMatrix::from_codes(&codes) {
        Err(CipherError::MalformedFitnessData) => {}
        _ => panic!("expected MalformedFitnessData"),
    }
}

#[test]
fn quadgram_counts_requires_a_window() {
    match fitness::quadgram_counts(&syms("abc")) {
        Err(CipherError::InsufficientCorpus) => {}
        _ => panic!("expected InsufficientCorpus"),
    }
    let counts = fitness::quadgram_counts(&syms("aaaa")).unwrap();
    assert_eq!(counts[0], 1);
    assert_eq!(counts[1], 0);
}

#[test]
fn incremental_rescore_matches_full_rescore() {
    let m = train_matrix(
        "the quick brown fox jumps over the lazy dog and then the dog barks at the quick fox again and again until night falls over the quiet town",
    );
    let old_text = syms("the quick brown fox");
    let mut new_text = old_text.clone();
    // change positions 4 and 10
    new_text[4] = 16;
    new_text[10] = 3;
    let changed = vec![4usize, 10usize];
    let old_sum = fitness::compute_fitness(&old_text, &m);
    let inc = fitness::incremental_rescore(&m, old_sum, &old_text, &new_text, &changed);
    let full = fitness::compute_fitness(&new_text, &m);
    assert_eq!(inc, full);
}

#[test]
fn hill_climb_never_loses_score() {
    let m = train_matrix(
        "it was a bright cold day in april and the clocks were striking thirteen and winston smith slipped quickly through the glass doors",
    );
    let ct = syms("uifrvjdlcspxogpykvnqt");
    let start = rng::random_permutation();
    let dec = substitution::decrypt(&ct, &start).unwrap();
    let initial = fitness::compute_fitness(&dec, &m);
    let (best, _key) = substitution::hill_climb(&ct, &start, &m);
    assert!(best >= initial);
}

#[test]
fn kasiski_candidates_include_the_period() {
    // plaintext with period 4, encrypted with a period-4 key
    let p: Vec<u8> = syms("abcd").repeat(20);
    let key = vec![1u8, 2, 3, 4];
    let c = vigenere::encrypt(&p, &key).unwrap();
    let lengths = vigenere::find_key_lengths(&c).unwrap();
    assert!(lengths.contains(&4));
    assert!(lengths.contains(&1));
}

#[test]
fn kasiski_needs_three_repeated_bigrams() {
    assert_eq!(
        vigenere::find_key_lengths(&syms("abcdefg")),
        Err(CipherError::InsufficientKasiskiEvidence)
    );
}

#[test]
fn short_ciphertext_is_rejected_before_search() {
    let m = zero_matrix();
    let nine = syms("abcabcabc");
    assert_eq!(nine.len(), 9);
    match substitution::crack(&nine, &m, 10, 3) {
        Err(CipherError::CiphertextTooShort) => {}
        other => panic!("expected CiphertextTooShort, got {:?}", other.is_ok()),
    }
    match enigma::crack(&nine, &m, 10, 3) {
        Err(CipherError::CiphertextTooShort) => {}
        _ => panic!("expected CiphertextTooShort"),
    }
    match vigenere::crack(&syms("short"), &m, 3) {
        Err(CipherError::CiphertextTooShort) => {}
        _ => panic!("expected CiphertextTooShort"),
    }
}

#[test]
fn overlong_ciphertext_is_rejected() {
    let m = zero_matrix();
    let long = vec![0u8; 1000001];
    match substitution::crack(&long, &m, 10, 3) {
        Err(CipherError::CiphertextTooLong) => {}
        _ => panic!("expected CiphertextTooLong"),
    }
}

#[test]
fn plateau_stops_the_search_early() {
    // under an all-zero fitness model every key scores the same, so the
    // cracker must stop after the plateau cap, not run to the restart cap
    let m = zero_matrix();
    let ct = syms("plateauplateauplateau");
    let r = substitution::crack(&ct, &m, 1000, 3).unwrap();
    assert_eq!(r.restarts, 1 + 3);
    assert_eq!(r.score, 0);
}

#[test]
fn substitution_crack_recovers_known_plaintext() {
    let sentence = "the quick brown fox jumps over the lazy dog while the clever raven watches from a branch and counts every move below with patient eyes until the sun sets behind the hills and the small town grows quiet and dark and everyone sleeps";
    let m = train_matrix(sentence);
    let p = syms(sentence);
    assert!(p.len() >= 200);
    let key = rng::random_permutation();
    let c = substitution::encrypt(&p, &key).unwrap();
    let r = substitution::crack(&c, &m, 120, 6).unwrap();
    let recovered = substitution::decrypt(&c, &r.rev_key).unwrap();
    assert_eq!(text_of(&recovered), sentence);
}
