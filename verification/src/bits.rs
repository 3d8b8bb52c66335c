//! Bit-level model shared by codewords and the stream encoder.
//!
//! A packed bit sequence is a sequence of 64-bit words; bit `i` of the
//! sequence is bit `i % 64` of word `i / 64`, least-significant bit first.

use vstd::prelude::*;

verus! {

/// Bit `j` of the word `w`, counting from the least significant bit.
pub open spec fn word_bit(w: u64, j: u64) -> bool
    recommends
        j < 64,
{
    (w >> j) & 1u64 == 1u64
}

/// Bit `i` of a sequence of words, read least-significant bit first within
/// each word, word 0 first. Total: `false` outside the stored range.
pub open spec fn seq_bit(ws: Seq<u64>, i: int) -> bool {
    0 <= i < 64 * ws.len() && word_bit(ws[i / 64], (i % 64) as u64)
}

/// The whole bit sequence held by a sequence of words.
pub open spec fn words_bits(ws: Seq<u64>) -> Seq<bool> {
    Seq::new((64 * ws.len()) as nat, |i: int| seq_bit(ws, i))
}

/// One run of the encoder: starting from the pending bits `pend0`, consuming
/// the input bits `bits`, it emitted the whole words `words` and left the
/// pending bits `pend1`.
pub open spec fn stream_step(
    pend0: Seq<bool>,
    words: Seq<u64>,
    pend1: Seq<bool>,
    bits: Seq<bool>,
) -> bool {
    words_bits(words) + pend1 == pend0 + bits
}

pub proof fn lemma_or_bit(a: u64, b: u64, j: u64)
    by (bit_vector)
    requires
        j < 64,
    ensures
        word_bit(a | b, j) == (word_bit(a, j) || word_bit(b, j)),
{
}

pub proof fn lemma_shl_bit(x: u64, k: u64, j: u64)
    by (bit_vector)
    requires
        k < 64,
        j < 64,
    ensures
        word_bit(x << k, j) == (j >= k && word_bit(x, (j - k) as u64)),
{
}

pub proof fn lemma_shr_bit(x: u64, k: u64, j: u64)
    by (bit_vector)
    requires
        k < 64,
        j < 64,
    ensures
        word_bit(x >> k, j) == (j + k < 64 && word_bit(x, (j + k) as u64)),
{
}

/// Setting one bit: or-ing in a bit value shifted to position `b` leaves
/// every other bit as it was.
pub proof fn lemma_set_bit(w: u64, v: u64, b: u64, j: u64)
    by (bit_vector)
    requires
        v <= 1,
        b < 64,
        j < 64,
    ensures
        word_bit(w | (v << b), j) == ((j == b && v == 1u64) || word_bit(w, j)),
{
}

/// Clearing one bit: and-ing with the complement of a single set bit.
pub proof fn lemma_clear_bit(w: u64, b: u64, j: u64)
    by (bit_vector)
    requires
        b < 64,
        j < 64,
    ensures
        word_bit(w & !(1u64 << b), j) == (j != b && word_bit(w, j)),
{
}

/// The zero word has no set bits.
pub proof fn lemma_zero_word()
    by (bit_vector)
    ensures
        forall|j: u64| j < 64 ==> #[trigger] word_bit(0u64, j) == false,
{
}

/// Word sequences concatenate bitwise.
pub proof fn lemma_words_bits_concat(a: Seq<u64>, b: Seq<u64>)
    ensures
        words_bits(a + b) == words_bits(a) + words_bits(b),
{
    let c = a + b;
    assert forall|i: int| 0 <= i < 64 * c.len() implies seq_bit(c, i) == (words_bits(a)
        + words_bits(b))[i] by {
        let wi = i / 64;
        let bi = i % 64;
        assert(i == 64 * wi + bi);
        if wi < a.len() {
            assert(c[wi] == a[wi]);
            assert(seq_bit(a, i) == (words_bits(a) + words_bits(b))[i]);
        } else {
            let k = i - 64 * a.len();
            assert(k / 64 == wi - a.len() && k % 64 == bi);
            assert(c[wi] == b[wi - a.len()]);
            assert(seq_bit(b, k) == (words_bits(a) + words_bits(b))[i]);
        }
    }
    assert(words_bits(a + b) =~= words_bits(a) + words_bits(b));
}

/// A word is determined by its 64 bits.
pub proof fn lemma_word_bits_inj(a: u64, b: u64)
    requires
        forall|j: u64| j < 64 ==> word_bit(a, j) == word_bit(b, j),
    ensures
        a == b,
{
    assert(a == b) by (bit_vector)
        requires
            word_bit(a, 0) == word_bit(b, 0),
            word_bit(a, 1) == word_bit(b, 1),
            word_bit(a, 2) == word_bit(b, 2),
            word_bit(a, 3) == word_bit(b, 3),
            word_bit(a, 4) == word_bit(b, 4),
            word_bit(a, 5) == word_bit(b, 5),
            word_bit(a, 6) == word_bit(b, 6),
            word_bit(a, 7) == word_bit(b, 7),
            word_bit(a, 8) == word_bit(b, 8),
            word_bit(a, 9) == word_bit(b, 9),
            word_bit(a, 10) == word_bit(b, 10),
            word_bit(a, 11) == word_bit(b, 11),
            word_bit(a, 12) == word_bit(b, 12),
            word_bit(a, 13) == word_bit(b, 13),
            word_bit(a, 14) == word_bit(b, 14),
            word_bit(a, 15) == word_bit(b, 15),
            word_bit(a, 16) == word_bit(b, 16),
            word_bit(a, 17) == word_bit(b, 17),
            word_bit(a, 18) == word_bit(b, 18),
            word_bit(a, 19) == word_bit(b, 19),
            word_bit(a, 20) == word_bit(b, 20),
            word_bit(a, 21) == word_bit(b, 21),
            word_bit(a, 22) == word_bit(b, 22),
            word_bit(a, 23) == word_bit(b, 23),
            word_bit(a, 24) == word_bit(b, 24),
            word_bit(a, 25) == word_bit(b, 25),
            word_bit(a, 26) == word_bit(b, 26),
            word_bit(a, 27) == word_bit(b, 27),
            word_bit(a, 28) == word_bit(b, 28),
            word_bit(a, 29) == word_bit(b, 29),
            word_bit(a, 30) == word_bit(b, 30),
            word_bit(a, 31) == word_bit(b, 31),
            word_bit(a, 32) == word_bit(b, 32),
            word_bit(a, 33) == word_bit(b, 33),
            word_bit(a, 34) == word_bit(b, 34),
            word_bit(a, 35) == word_bit(b, 35),
            word_bit(a, 36) == word_bit(b, 36),
            word_bit(a, 37) == word_bit(b, 37),
            word_bit(a, 38) == word_bit(b, 38),
            word_bit(a, 39) == word_bit(b, 39),
            word_bit(a, 40) == word_bit(b, 40),
            word_bit(a, 41) == word_bit(b, 41),
            word_bit(a, 42) == word_bit(b, 42),
            word_bit(a, 43) == word_bit(b, 43),
            word_bit(a, 44) == word_bit(b, 44),
            word_bit(a, 45) == word_bit(b, 45),
            word_bit(a, 46) == word_bit(b, 46),
            word_bit(a, 47) == word_bit(b, 47),
            word_bit(a, 48) == word_bit(b, 48),
            word_bit(a, 49) == word_bit(b, 49),
            word_bit(a, 50) == word_bit(b, 50),
            word_bit(a, 51) == word_bit(b, 51),
            word_bit(a, 52) == word_bit(b, 52),
            word_bit(a, 53) == word_bit(b, 53),
            word_bit(a, 54) == word_bit(b, 54),
            word_bit(a, 55) == word_bit(b, 55),
            word_bit(a, 56) == word_bit(b, 56),
            word_bit(a, 57) == word_bit(b, 57),
            word_bit(a, 58) == word_bit(b, 58),
            word_bit(a, 59) == word_bit(b, 59),
            word_bit(a, 60) == word_bit(b, 60),
            word_bit(a, 61) == word_bit(b, 61),
            word_bit(a, 62) == word_bit(b, 62),
            word_bit(a, 63) == word_bit(b, 63),
    ;
}

} // verus!
