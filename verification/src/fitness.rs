//! The quantized quadgram fitness model and the scoring function.
//!
//! A quadgram is four symbols read at consecutive positions. Each of the
//! `32^4` quadgram indices (the alphabet is padded to 32 slots for index
//! arithmetic) carries a 2-bit naturalness code, packed 32 codes to a 64-bit
//! word. The score of a text is the sum of the codes of all its quadgram
//! windows; on the conventional 0-100 scale that sum reads as
//! `sum / 2 * 100 / (len - 3)`, a presentation step left to callers. The
//! crackers compare raw sums, which orders candidates exactly as the scaled
//! score does because every candidate of one search has the same length.

use vstd::prelude::*;

use crate::CipherError;

verus! {

/// The 2-bit code packed at slot `k` of word `w`.
pub open spec fn word_code(w: u64, k: u64) -> u64 {
    (w >> ((2 * k) as u64)) & 3
}

/// The quantized fitness model: 32768 words of 32 two-bit codes each, one
/// code per quadgram index in the padded `32^4` space.
pub struct FitnessMatrix {
    words: Vec<u64>,
}

impl FitnessMatrix {
    /// The matrix holds exactly `32^4 / 32` packed words.
    pub closed spec fn wf(self) -> bool {
        self.words@.len() == 32768
    }

    /// The 2-bit code stored for quadgram index `q`.
    pub closed spec fn code_at(self, q: int) -> u64 {
        word_code(self.words@[q / 32], (q % 32) as u64)
    }

    /// Every stored code is one of the four quantization levels 0 to 3.
    pub proof fn lemma_code_bounds(self, q: int)
        ensures
            0 <= self.code_at(q) <= 3,
    {
        let w = self.words@[q / 32];
        let k = (q % 32) as u64;
        assert((w >> ((2 * k) as u64)) & 3 <= 3) by (bit_vector);
    }

    /// Packs a table of 2-bit codes, one per quadgram index, into a matrix.
    /// The table must hold exactly `32^4` codes, each a quantization level
    /// 0 to 3; the packed matrix reproduces every code exactly.
    pub fn from_codes(codes: &Vec<u8>) -> (r: Result<FitnessMatrix, CipherError>)
        ensures
            r is Ok <==> (codes@.len() == 0x100000 && forall|i: int|
                0 <= i < codes@.len() ==> #[trigger] codes@[i] <= 3),
            r matches Ok(m) ==> m.wf() && (forall|q: int|
                0 <= q < 0x100000 ==> #[trigger] m.code_at(q) == codes@[q]),
            r matches Err(e) ==> e == CipherError::MalformedFitnessData,
    {
        if codes.len() != 0x100000 {
            return Err(CipherError::MalformedFitnessData);
        }
        let n = codes.len();
        for i in 0..n
            invariant
                n == codes@.len(),
                forall|j: int| 0 <= j < i ==> #[trigger] codes@[j] <= 3,
        {
            if codes[i] > 3 {
                return Err(CipherError::MalformedFitnessData);
            }
        }
        let mut words: Vec<u64> = Vec::new();
        for w in 0..32768usize
            invariant
                codes@.len() == 0x100000,
                forall|j: int| 0 <= j < codes@.len() ==> #[trigger] codes@[j] <= 3,
                words@.len() == w,
                forall|q: int| 0 <= q < 32 * w ==> #[trigger] word_code(
                    words@[q / 32],
                    (q % 32) as u64,
                ) == codes@[q],
        {
            let base = w * 32;
            let mut word: u64 = 0;
            proof {
                assert forall|k: u64| k < 32 implies #[trigger] word_code(0u64, k) == 0 by {
                    assert((0u64 >> ((2 * k) as u64)) & 3 == 0) by (bit_vector);
                }
            }
            for j in 0..32usize
                invariant
                    codes@.len() == 0x100000,
                    forall|jj: int| 0 <= jj < codes@.len() ==> #[trigger] codes@[jj] <= 3,
                    base == w * 32,
                    w < 32768,
                    forall|k: u64| k < j ==> #[trigger] word_code(word, k) == codes@[base + k],
                    forall|k: u64| j <= k < 32 ==> #[trigger] word_code(word, k) == 0,
            {
                let c = codes[base + j];
                let ghost prev = word;
                word = word | ((c as u64) << (2 * (j as u64)));
                proof {
                    assert(word_code(prev, j as u64) == 0);
                    assert forall|k: u64| k < 32 implies #[trigger] word_code(word, k) == (
                    if k < j {
                        codes@[base + k] as u64
                    } else if k == j {
                        c as u64
                    } else {
                        0u64
                    }) by {
                        lemma_pack_or(prev, c as u64, j as u64, k);
                    }
                }
            }
            words.push(word);
            proof {
                assert forall|q: int| 0 <= q < 32 * (w + 1) implies #[trigger] word_code(
                    words@[q / 32],
                    (q % 32) as u64,
                ) == codes@[q] by {
                    if q >= 32 * w {
                        assert(q / 32 == w && q % 32 == q - 32 * w);
                        assert(word_code(word, (q - 32 * w) as u64) == codes@[base + (q - 32
                            * w)]);
                    }
                }
            }
        }
        let m = FitnessMatrix { words };
        proof {
            assert forall|q: int| 0 <= q < 0x100000 implies #[trigger] m.code_at(q)
                == codes@[q] by {
                assert(word_code(m.words@[q / 32], (q % 32) as u64) == codes@[q]);
            }
        }
        Ok(m)
    }

    /// Reads the 2-bit code of one quadgram index.
    pub fn lookup(&self, q: usize) -> (r: u64)
        requires
            self.wf(),
            q < 0x100000,
        ensures
            r == self.code_at(q as int),
            r <= 3,
    {
        let w = self.words[q / 32];
        let sh = 2 * ((q % 32) as u64);
        let r = (w >> sh) & 3;
        proof {
            let k = ((q as int) % 32) as u64;
            assert(sh == (2 * k) as u64);
            assert((w >> sh) & 3 <= 3) by (bit_vector);
        }
        r
    }
}

/// Packing one more 2-bit code into a word leaves every other 2-bit slot as
/// it was and writes the code into its own slot.
proof fn lemma_pack_or(w: u64, c: u64, j: u64, k: u64)
    by (bit_vector)
    requires
        c <= 3,
        j < 32,
        k < 32,
    ensures
        k != j ==> word_code(w | (c << ((2 * j) as u64)), k) == word_code(w, k),
        word_code(w, j) == 0 ==> word_code(w | (c << ((2 * j) as u64)), j) == c,
{
}

/// Every symbol fits the padded 32-slot alphabet.
pub open spec fn fitting_symbols(t: Seq<u8>) -> bool {
    forall|i: int| 0 <= i < t.len() ==> #[trigger] t[i] < 32
}

/// The quadgram index of the window that starts at position `w`.
pub open spec fn quad_index(t: Seq<u8>, w: int) -> int {
    t[w] * 32768 + t[w + 1] * 1024 + t[w + 2] * 32 + t[w + 3]
}

/// The code the matrix assigns to the window starting at `w`.
pub open spec fn window_code(m: FitnessMatrix, t: Seq<u8>, w: int) -> u64 {
    m.code_at(quad_index(t, w))
}

/// The sum of the codes of the first `n` windows.
pub open spec fn fitness_prefix(m: FitnessMatrix, t: Seq<u8>, n: int) -> int
    decreases n,
{
    if n <= 0 {
        0
    } else {
        fitness_prefix(m, t, n - 1) + window_code(m, t, n - 1)
    }
}

/// The raw fitness of a text: the sum of the codes of all its quadgram
/// windows. A text of fewer than 4 symbols has no window and sums to 0.
pub open spec fn fitness_sum(m: FitnessMatrix, t: Seq<u8>) -> int {
    fitness_prefix(m, t, t.len() - 3)
}

proof fn lemma_fitness_prefix_bounds(m: FitnessMatrix, t: Seq<u8>, n: int)
    ensures
        0 <= fitness_prefix(m, t, n),
        n >= 0 ==> fitness_prefix(m, t, n) <= 3 * n,
    decreases n,
{
    if n > 0 {
        lemma_fitness_prefix_bounds(m, t, n - 1);
        m.lemma_code_bounds(quad_index(t, n - 1));
    }
}

/// The quantization levels bound every score: the raw fitness of a text of
/// `len >= 4` symbols lies between 0 and three codes per window, so the
/// scaled score `sum / 2 * 100 / (len - 3)` lies between 0 and 150.
pub proof fn lemma_fitness_sum_bounds(m: FitnessMatrix, t: Seq<u8>)
    ensures
        0 <= fitness_sum(m, t),
        t.len() >= 4 ==> fitness_sum(m, t) <= 3 * (t.len() - 3),
        t.len() < 4 ==> fitness_sum(m, t) == 0,
{
    lemma_fitness_prefix_bounds(m, t, t.len() - 3);
}

proof fn lemma_fitness_prefix_midscale(m: FitnessMatrix, t: Seq<u8>, n: int)
    requires
        fitting_symbols(t),
        n <= t.len() - 3,
        forall|q: int| 0 <= q < 0x100000 ==> #[trigger] m.code_at(q) <= 2,
    ensures
        n >= 0 ==> fitness_prefix(m, t, n) <= 2 * n,
    decreases n,
{
    if n > 0 {
        lemma_fitness_prefix_midscale(m, t, n - 1);
        lemma_fitness_prefix_bounds(m, t, n - 1);
        assert(0 <= quad_index(t, n - 1) < 0x100000);
    }
}

/// A matrix whose codes never exceed the scale midpoint 2 keeps every score
/// on the conventional scale: the raw fitness is at most two codes per
/// window, so `sum / 2 * 100 / (len - 3)` lies between 0 and 100.
pub proof fn lemma_fitness_sum_midscale(m: FitnessMatrix, t: Seq<u8>)
    requires
        fitting_symbols(t),
        forall|q: int| 0 <= q < 0x100000 ==> #[trigger] m.code_at(q) <= 2,
    ensures
        0 <= fitness_sum(m, t),
        t.len() >= 4 ==> fitness_sum(m, t) <= 2 * (t.len() - 3),
{
    lemma_fitness_prefix_bounds(m, t, t.len() - 3);
    lemma_fitness_prefix_midscale(m, t, t.len() - 3);
}

/// Computes the raw fitness of a text: one packed lookup per window.
pub fn compute_fitness(text: &Vec<u8>, matrix: &FitnessMatrix) -> (r: u64)
    requires
        matrix.wf(),
        text@.len() >= 4,
        text@.len() <= 0x1000000000000000,
        fitting_symbols(text@),
    ensures
        r == fitness_sum(*matrix, text@),
{
    let windows = text.len() - 3;
    let mut sum: u64 = 0;
    for w in 0..windows
        invariant
            matrix.wf(),
            text@.len() >= 4,
            text@.len() <= 0x1000000000000000,
            fitting_symbols(text@),
            windows == text@.len() - 3,
            sum == fitness_prefix(*matrix, text@, w as int),
            sum <= 3 * w,
    {
        let c = window_code_at(matrix, text, w);
        sum = sum + c;
    }
    sum
}

/// Reads the code of the window that starts at `w`.
fn window_code_at(matrix: &FitnessMatrix, text: &Vec<u8>, w: usize) -> (r: u64)
    requires
        matrix.wf(),
        w + 3 < text@.len(),
        text@.len() <= 0x1000000000000000,
        fitting_symbols(text@),
    ensures
        r == window_code(*matrix, text@, w as int),
        r <= 3,
{
    let n = text.len();
    assert(w + 3 < n);
    let q = (text[w] as usize) * 32768 + (text[w + 1] as usize) * 1024 + (text[w + 2] as usize)
        * 32 + (text[w + 3] as usize);
    matrix.lookup(q)
}

/// How many of the first `n` windows of `t` carry quadgram index `q`.
pub open spec fn window_count(t: Seq<u8>, q: int, n: int) -> int
    decreases n,
{
    if n <= 0 {
        0
    } else {
        window_count(t, q, n - 1) + if quad_index(t, n - 1) == q {
            1int
        } else {
            0int
        }
    }
}

proof fn lemma_window_count_le(t: Seq<u8>, q: int, n: int)
    ensures
        0 <= window_count(t, q, n),
        n >= 0 ==> window_count(t, q, n) <= n,
    decreases n,
{
    if n > 0 {
        lemma_window_count_le(t, q, n - 1);
    }
}

/// Counts every overlapping quadgram window of a corpus: the first, integral
/// step of building a fitness model. A corpus without a single complete
/// window is rejected.
pub fn quadgram_counts(corpus: &Vec<u8>) -> (r: Result<Vec<u32>, CipherError>)
    requires
        fitting_symbols(corpus@),
        corpus@.len() <= 0xFFFFFFFF,
    ensures
        r is Ok <==> corpus@.len() >= 4,
        r matches Ok(v) ==> v@.len() == 0x100000 && (forall|q: int|
            0 <= q < 0x100000 ==> #[trigger] v@[q] == window_count(
                corpus@,
                q,
                corpus@.len() - 3,
            )),
        r matches Err(e) ==> e == CipherError::InsufficientCorpus,
{
    if corpus.len() < 4 {
        return Err(CipherError::InsufficientCorpus);
    }
    let mut v: Vec<u32> = Vec::new();
    let mut z: usize = 0;
    while z < 0x100000
        invariant
            z <= 0x100000,
            v@.len() == z,
            forall|q: int| 0 <= q < z ==> #[trigger] v@[q] == 0,
        decreases 0x100000 - z,
    {
        v.push(0);
        z = z + 1;
    }
    let windows = corpus.len() - 3;
    for w in 0..windows
        invariant
            fitting_symbols(corpus@),
            corpus@.len() >= 4,
            corpus@.len() <= 0xFFFFFFFF,
            windows == corpus@.len() - 3,
            v@.len() == 0x100000,
            forall|q: int| 0 <= q < 0x100000 ==> #[trigger] v@[q] == window_count(
                corpus@,
                q,
                w as int,
            ),
    {
        let q = (corpus[w] as usize) * 32768 + (corpus[w + 1] as usize) * 1024 + (corpus[w
            + 2] as usize) * 32 + (corpus[w + 3] as usize);
        proof {
            lemma_window_count_le(corpus@, q as int, w as int);
        }
        let c = v[q];
        v[q] = c + 1;
    }
    Ok(v)
}

/// A window is touched by a set of changed positions when one of those
/// positions falls inside it.
pub open spec fn touches(changed: Seq<usize>, w: int) -> bool {
    exists|k: int| 0 <= k < changed.len() && w <= #[trigger] changed[k] <= w + 3
}

/// The sum of the codes of the touched windows among the first `n`.
pub open spec fn affected_prefix(m: FitnessMatrix, t: Seq<u8>, changed: Seq<usize>, n: int) -> int
    decreases n,
{
    if n <= 0 {
        0
    } else {
        affected_prefix(m, t, changed, n - 1) + if touches(changed, n - 1) {
            window_code(m, t, n - 1) as int
        } else {
            0int
        }
    }
}

/// The sum of the codes of every window touched by the changed positions.
pub open spec fn affected_sum(m: FitnessMatrix, t: Seq<u8>, changed: Seq<usize>) -> int {
    affected_prefix(m, t, changed, t.len() - 3)
}

proof fn lemma_affected_prefix_le(m: FitnessMatrix, t: Seq<u8>, changed: Seq<usize>, n: int)
    ensures
        0 <= affected_prefix(m, t, changed, n) <= fitness_prefix(m, t, n),
    decreases n,
{
    if n > 0 {
        lemma_affected_prefix_le(m, t, changed, n - 1);
        m.lemma_code_bounds(quad_index(t, n - 1));
    } else {
        lemma_fitness_prefix_bounds(m, t, n);
    }
}

/// The touched windows' codes never sum to more than the whole text's
/// fitness: the untouched windows only add.
pub proof fn lemma_affected_sum_le(m: FitnessMatrix, t: Seq<u8>, changed: Seq<usize>)
    ensures
        0 <= affected_sum(m, t, changed) <= fitness_sum(m, t),
{
    lemma_affected_prefix_le(m, t, changed, t.len() - 3);
}

proof fn lemma_affected_prefix_skip(
    m: FitnessMatrix,
    t: Seq<u8>,
    changed: Seq<usize>,
    a: int,
    b: int,
)
    requires
        a <= b,
        forall|w: int| a <= w < b ==> !touches(changed, w),
    ensures
        affected_prefix(m, t, changed, b) == affected_prefix(m, t, changed, a),
    decreases b - a,
{
    if a < b {
        lemma_affected_prefix_skip(m, t, changed, a, b - 1);
    }
}

/// The positions are strictly ascending.
pub open spec fn strictly_increasing(s: Seq<usize>) -> bool {
    forall|i: int, j: int| 0 <= i < j < s.len() ==> s[i] < s[j]
}

/// Pushing a value above the last element keeps a position list strictly
/// ascending.
pub proof fn lemma_push_increasing(s: Seq<usize>, x: usize)
    requires
        strictly_increasing(s),
        s.len() > 0 ==> s[s.len() - 1] < x,
    ensures
        strictly_increasing(s.push(x)),
{
    let s2 = s.push(x);
    assert forall|i: int, j: int| 0 <= i < j < s2.len() implies s2[i] < s2[j] by {
        if j == s.len() {
            if i < s.len() - 1 {
                assert(s[i] < s[s.len() - 1]);
            }
        }
    }
}

/// Sums the codes of exactly the windows touched by the changed positions,
/// visiting each touched window once.
pub fn affected_window_sum(matrix: &FitnessMatrix, text: &Vec<u8>, changed: &Vec<usize>) -> (r:
    u64)
    requires
        matrix.wf(),
        text@.len() >= 4,
        text@.len() <= 0x1000000000000000,
        fitting_symbols(text@),
        strictly_increasing(changed@),
        forall|k: int| 0 <= k < changed@.len() ==> #[trigger] changed@[k] < text@.len(),
    ensures
        r == affected_sum(*matrix, text@, changed@),
{
    let n = text.len();
    let n3 = n - 3;
    let mut sum: u64 = 0;
    let mut b: usize = 0;
    let mut k: usize = 0;
    while k < changed.len()
        invariant
            matrix.wf(),
            text@.len() >= 4,
            text@.len() <= 0x1000000000000000,
            fitting_symbols(text@),
            strictly_increasing(changed@),
            forall|k2: int| 0 <= k2 < changed@.len() ==> #[trigger] changed@[k2] < text@.len(),
            n == text@.len(),
            n3 == text@.len() - 3,
            k <= changed@.len(),
            b <= n3,
            sum == affected_prefix(*matrix, text@, changed@, b as int),
            sum <= 3 * b,
            b >= n3 || forall|k2: int| 0 <= k2 < k ==> #[trigger] changed@[k2] < b,
        decreases changed@.len() - k,
    {
        let p = changed[k];
        let lo0 = if p >= 3 {
            p - 3
        } else {
            0
        };
        let lo1 = if lo0 > b {
            lo0
        } else {
            b
        };
        let lo = if lo1 < n3 {
            lo1
        } else {
            n3
        };
        let hi = if p + 1 < n3 {
            p + 1
        } else {
            n3
        };
        proof {
            assert forall|w: int| b <= w < lo implies !touches(changed@, w) by {
                assert forall|k2: int| 0 <= k2 < changed@.len() implies !(w
                    <= #[trigger] changed@[k2] <= w + 3) by {
                    if k2 < k {
                        assert(changed@[k2] < b);
                    } else {
                        assert(changed@[k2] >= p);
                        assert(w < lo0);
                    }
                }
            }
            lemma_affected_prefix_skip(*matrix, text@, changed@, b as int, lo as int);
        }
        let mut w = lo;
        while w < hi
            invariant
                matrix.wf(),
                text@.len() >= 4,
                text@.len() <= 0x1000000000000000,
                fitting_symbols(text@),
                n3 == text@.len() - 3,
                k < changed@.len(),
                p == changed@[k as int],
                lo <= w,
                w <= n3,
                hi <= n3,
                hi <= p + 1,
                lo >= p - 3 || lo == n3,
                sum == affected_prefix(*matrix, text@, changed@, w as int),
                sum <= 3 * w,
            decreases hi - w,
        {
            let c = window_code_at(matrix, text, w);
            proof {
                assert(w <= changed@[k as int] <= w + 3);
                assert(touches(changed@, w as int));
            }
            sum = sum + c;
            w = w + 1;
        }
        proof {
            if w < n3 {
                assert(b <= lo);
                assert(b < n3);
                assert(forall|k2: int| 0 <= k2 < k ==> #[trigger] changed@[k2] < b);
                assert(hi == p + 1);
            }
        }
        b = w;
        k = k + 1;
    }
    proof {
        assert forall|w: int| b <= w < n3 implies !touches(changed@, w) by {
            if b < n3 {
                assert forall|k2: int| 0 <= k2 < changed@.len() implies !(w
                    <= #[trigger] changed@[k2] <= w + 3) by {
                    assert(changed@[k2] < b);
                }
            }
        }
        lemma_affected_prefix_skip(*matrix, text@, changed@, b as int, n3 as int);
    }
    sum
}

proof fn lemma_incremental_prefix(
    m: FitnessMatrix,
    told: Seq<u8>,
    tnew: Seq<u8>,
    changed: Seq<usize>,
    n: int,
)
    requires
        told.len() == tnew.len(),
        told.len() <= usize::MAX,
        n <= told.len() - 3,
        forall|i: int| 0 <= i < told.len() && told[i] != tnew[i] ==> changed.contains(
            #[trigger] (i as usize),
        ),
    ensures
        fitness_prefix(m, tnew, n) + affected_prefix(m, told, changed, n) == fitness_prefix(
            m,
            told,
            n,
        ) + affected_prefix(m, tnew, changed, n),
    decreases n,
{
    if n > 0 {
        lemma_incremental_prefix(m, told, tnew, changed, n - 1);
        if !touches(changed, n - 1) {
            assert forall|i: int| n - 1 <= i <= n + 2 implies told[i] == tnew[i] by {
                if told[i] != tnew[i] {
                    assert(changed.contains(i as usize));
                    let k = choose|k: int|
                        0 <= k < changed.len() && changed[k] == i as usize;
                    assert(n - 1 <= changed[k] <= (n - 1) + 3);
                }
            }
            assert(quad_index(told, n - 1) == quad_index(tnew, n - 1));
        }
    }
}

/// Incremental rescoring agrees with scoring from scratch: when two texts of
/// one length differ only at the changed positions, the fitness of the new
/// text is the fitness of the old text minus the old codes of the touched
/// windows plus their new codes.
pub proof fn lemma_incremental_rescore(
    m: FitnessMatrix,
    told: Seq<u8>,
    tnew: Seq<u8>,
    changed: Seq<usize>,
)
    requires
        told.len() == tnew.len(),
        told.len() <= usize::MAX,
        forall|i: int| 0 <= i < told.len() && told[i] != tnew[i] ==> changed.contains(
            #[trigger] (i as usize),
        ),
    ensures
        fitness_sum(m, tnew) == fitness_sum(m, told) - affected_sum(m, told, changed)
            + affected_sum(m, tnew, changed),
{
    lemma_incremental_prefix(m, told, tnew, changed, told.len() - 3);
}

/// Rescores after a bounded local edit: only the windows overlapping the
/// changed positions are read, on the old text and on the new. The result
/// equals the full fitness of the new text.
pub fn incremental_rescore(
    matrix: &FitnessMatrix,
    old_sum: u64,
    old_text: &Vec<u8>,
    new_text: &Vec<u8>,
    changed: &Vec<usize>,
) -> (r: u64)
    requires
        matrix.wf(),
        old_text@.len() == new_text@.len(),
        old_text@.len() >= 4,
        old_text@.len() <= 0x1000000000000000,
        fitting_symbols(old_text@),
        fitting_symbols(new_text@),
        strictly_increasing(changed@),
        forall|k: int| 0 <= k < changed@.len() ==> #[trigger] changed@[k] < old_text@.len(),
        old_sum == fitness_sum(*matrix, old_text@),
        forall|i: int| 0 <= i < old_text@.len() && old_text@[i] != new_text@[i]
            ==> changed@.contains(#[trigger] (i as usize)),
    ensures
        r == fitness_sum(*matrix, new_text@),
{
    let n = old_text.len();
    assert(old_text@.len() == n);
    let minus = affected_window_sum(matrix, old_text, changed);
    let plus = affected_window_sum(matrix, new_text, changed);
    proof {
        lemma_affected_prefix_le(*matrix, old_text@, changed@, old_text@.len() - 3);
        lemma_affected_prefix_le(*matrix, new_text@, changed@, new_text@.len() - 3);
        lemma_fitness_prefix_bounds(*matrix, new_text@, new_text@.len() - 3);
        lemma_incremental_rescore(*matrix, old_text@, new_text@, changed@);
    }
    old_sum - minus + plus
}

} // verus!
