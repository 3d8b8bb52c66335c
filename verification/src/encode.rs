//! The stateful, resumable bit-packing encoder.
//!
//! Codewords are merged into 64-bit output words, least-significant bit
//! first. Between calls the encoder carries one pending output word and the
//! number of valid bits in it, so encoding may be split across any number of
//! `encode` calls with any output buffer sizes.

use crate::bits::{
    lemma_or_bit, lemma_shl_bit, lemma_shr_bit, lemma_word_bits_inj, lemma_words_bits_concat,
    lemma_zero_word, seq_bit, stream_step, word_bit, words_bits,
};
use crate::tree::{
    build_tree, compute_frequencies, count_of, freq_table_of, huffman_tree, initial_heap,
    is_code_of, is_freq_table, lemma_has_leaf_count, lemma_table_len, lemma_table_symbols_count,
    merge_heap, tree_to_code, wf_code, wf_freq_table, Code, Codeword, HuffError, Tree,
    NUM_CODEWORD_WORDS,
};
use vstd::prelude::*;

verus! {

pub const WORD_SIZE_IN_BITS: usize = 64;

/// The codewords of the input symbols, concatenated in order.
pub open spec fn concat_codes(code: Seq<Codeword>, input: Seq<u8>) -> Seq<bool>
    decreases input.len(),
{
    if input.len() == 0 {
        Seq::empty()
    } else {
        concat_codes(code, input.drop_last()) + code[input.last() as int]@
    }
}

/// The bit at offset `i` of the merge of `off` pending bits of `buf0` with
/// the bits of the codeword words `cwb`.
spec fn merged_bit(buf0: u64, off: int, cwb: Seq<u64>, i: int) -> bool {
    if 0 <= i < off {
        word_bit(buf0, i as u64)
    } else {
        seq_bit(cwb, i - off)
    }
}

pub struct Encoder<'a> {
    pub code: &'a Code,
    /// Buffer of bits to output.
    pub buf: u64,
    /// Number of valid bits in the buffer.
    pub offset: usize,
}

impl<'a> Encoder<'a> {
    /// The encoder invariant: a well-formed code table, under one word of
    /// pending bits, and no stray bits above the pending count.
    pub open spec fn inv(&self) -> bool {
        &&& wf_code(self.code@)
        &&& self.offset < WORD_SIZE_IN_BITS
        &&& forall|j: u64| self.offset <= j < 64 ==> !word_bit(self.buf, j)
    }

    /// The pending bits, oldest first.
    pub open spec fn pending(&self) -> Seq<bool> {
        Seq::new(self.offset as nat, |i: int| word_bit(self.buf, i as u64))
    }

    pub fn new(code: &'a Code) -> (r: Encoder<'a>)
        requires
            wf_code(code@),
        ensures
            r.inv(),
            r.code == code,
            r.pending() == Seq::<bool>::empty(),
    {
        let r = Encoder { code, buf: 0, offset: 0 };
        proof {
            lemma_zero_word();
            assert(r.pending() =~= Seq::<bool>::empty());
        }
        r
    }

    /// Merge one codeword into the stream: write every completed output word
    /// starting at slot `written`, and keep the leftover bits pending.
    fn encode_symbol(&mut self, cw: &Codeword, output: &mut Vec<u64>, written: usize) -> (nw:
        usize)
        requires
            old(self).inv(),
            cw.wf(),
            written + (old(self).offset + cw.bit_len) / 64 <= old(output).len(),
        ensures
            final(self).inv(),
            final(self).code == old(self).code,
            nw == written + (old(self).offset + cw.bit_len) / 64int,
            final(self).offset == (old(self).offset + cw.bit_len) % 64int,
            final(output)@.len() == old(output)@.len(),
            forall|j: int|
                (0 <= j < written || nw <= j < old(output)@.len()) ==> final(output)@[j] == old(
                    output,
                )@[j],
            stream_step(
                old(self).pending(),
                final(output)@.subrange(written as int, nw as int),
                final(self).pending(),
                cw@,
            ),
    {
        let ghost buf0 = old(self).buf;
        let ghost off = old(self).offset as int;
        let ghost cwb = cw.bits@;
        let ghost ll = cw.bit_len as int;
        let num_words = (self.offset + cw.bit_len) / WORD_SIZE_IN_BITS;
        let ghost nn = num_words as int;
        let cap = output.len();
        let off_exec = self.offset;
        let mut w: usize = 0;
        let mut k = written;
        while w < num_words
            invariant
                self.inv(),
                self.code == old(self).code,
                self.offset == off,
                self.buf == buf0 || w > 0,
                cw.wf(),
                cwb == cw.bits@,
                ll == cw.bit_len as int,
                off_exec == off,
                nn == num_words as int,
                nn == (off + ll) / 64,
                w <= num_words,
                k == written + w,
                written + nn <= cap,
                cap == output@.len(),
                output@.len() == old(output)@.len(),
                forall|j: int|
                    (0 <= j < written || k <= j < output@.len()) ==> output@[j] == old(
                        output,
                    )@[j],
                forall|m: int, j: u64|
                    written <= m < k && j < 64 ==> #[trigger] word_bit(output@[m], j)
                        == merged_bit(buf0, off, cwb, 64 * (m - written) + j),
                forall|j: u64|
                    j < 64 ==> word_bit(self.buf, j) == (j < off && merged_bit(
                        buf0,
                        off,
                        cwb,
                        64 * (w as int) + j,
                    )),
            decreases num_words - w,
        {
            let ghost bufw = self.buf;
            let shifted = cw.bits[w] << (off_exec as u64);
            output[k] = self.buf | shifted;
            self.buf = if off_exec > 0 {
                cw.bits[w] >> ((WORD_SIZE_IN_BITS - off_exec) as u64)
            } else {
                0
            };
            proof {
                let wv = cwb[w as int];
                assert forall|j: u64| j < 64 implies word_bit(output@[k as int], j) == merged_bit(
                    buf0,
                    off,
                    cwb,
                    64 * (w as int) + j,
                ) by {
                    lemma_or_bit(bufw, wv << (off_exec as u64), j);
                    lemma_shl_bit(wv, off_exec as u64, j);
                    if j >= off {
                        assert(seq_bit(cwb, 64 * (w as int) + j - off) == word_bit(
                            wv,
                            (j - off) as u64,
                        ));
                    }
                }
                assert forall|j: u64| j < 64 implies word_bit(self.buf, j) == (j < off
                    && merged_bit(buf0, off, cwb, 64 * (w as int + 1) + j)) by {
                    if off_exec > 0 {
                        lemma_shr_bit(wv, (64 - off) as u64, j);
                        if j < off {
                            assert(seq_bit(cwb, 64 * (w as int) + 64 + j - off) == word_bit(
                                wv,
                                (j + 64 - off) as u64,
                            ));
                        }
                    } else {
                        lemma_zero_word();
                    }
                }
            }
            k = k + 1;
            w = w + 1;
        }
        if num_words < NUM_CODEWORD_WORDS {
            let ghost bufn = self.buf;
            let shifted = cw.bits[num_words] << (off_exec as u64);
            self.buf = self.buf | shifted;
            proof {
                let wv = cwb[nn];
                assert forall|j: u64| j < 64 implies word_bit(self.buf, j) == merged_bit(
                    buf0,
                    off,
                    cwb,
                    64 * nn + j,
                ) by {
                    lemma_or_bit(bufn, wv << (off_exec as u64), j);
                    lemma_shl_bit(wv, off_exec as u64, j);
                    if j >= off {
                        assert(seq_bit(cwb, 64 * nn + j - off) == word_bit(wv, (j - off) as u64));
                    }
                }
            }
        } else {
            proof {
                assert(nn == 4 && cwb.len() == 4);
                assert forall|j: u64| j < 64 implies word_bit(self.buf, j) == merged_bit(
                    buf0,
                    off,
                    cwb,
                    64 * nn + j,
                ) by {
                    if j >= off {
                        assert(!seq_bit(cwb, 64 * nn + j - off));
                    }
                }
            }
        }
        self.offset = (off_exec + cw.bit_len) % WORD_SIZE_IN_BITS;
        proof {
            let offp = self.offset as int;
            assert(off + ll == 64 * nn + offp);
            // the invariant: bits at or above the new offset are clear
            assert forall|j: u64| offp <= j < 64 implies !word_bit(self.buf, j) by {
                assert(word_bit(self.buf, j) == merged_bit(buf0, off, cwb, 64 * nn + j));
                if 64 * nn + j >= off {
                    assert(64 * nn + j - off >= ll);
                    assert(!seq_bit(cwb, 64 * nn + j - off));
                }
            }
            // the emitted words followed by the new pending bits equal the
            // old pending bits followed by the codeword
            let emitted = output@.subrange(written as int, written + nn);
            let lhs = words_bits(emitted) + self.pending();
            let rhs = old(self).pending() + cw@;
            assert forall|i: int| 0 <= i < off + ll implies lhs[i] == merged_bit(
                buf0,
                off,
                cwb,
                i,
            ) by {
                if i < 64 * nn {
                    let wi = i / 64;
                    let bi = i % 64;
                    assert(i == 64 * wi + bi);
                    assert(emitted[wi] == output@[written + wi]);
                    assert(word_bit(output@[written + wi], bi as u64) == merged_bit(
                        buf0,
                        off,
                        cwb,
                        64 * wi + bi,
                    ));
                } else {
                    assert(lhs[i] == self.pending()[i - 64 * nn]);
                    assert(word_bit(self.buf, (i - 64 * nn) as u64) == merged_bit(
                        buf0,
                        off,
                        cwb,
                        i,
                    ));
                }
            }
            assert forall|i: int| 0 <= i < off + ll implies rhs[i] == merged_bit(
                buf0,
                off,
                cwb,
                i,
            ) by {
                if i >= off {
                    assert(cw@[i - off] == seq_bit(cwb, i - off));
                }
            }
            assert(lhs =~= rhs);
        }
        k
    }
}

/// Chunk invariance, composition half: an encoder run over one input chunk
/// followed by a run over a second chunk emits the stream of the
/// concatenated chunks.
pub proof fn lemma_stream_compose(
    p0: Seq<bool>,
    w1: Seq<u64>,
    p1: Seq<bool>,
    b1: Seq<bool>,
    w2: Seq<u64>,
    p2: Seq<bool>,
    b2: Seq<bool>,
)
    requires
        stream_step(p0, w1, p1, b1),
        stream_step(p1, w2, p2, b2),
    ensures
        stream_step(p0, w1 + w2, p2, b1 + b2),
{
    lemma_words_bits_concat(w1, w2);
    assert(words_bits(w1 + w2) + p2 =~= p0 + (b1 + b2)) by {
        assert(words_bits(w1 + w2) + p2 =~= words_bits(w1) + (words_bits(w2) + p2));
        assert(words_bits(w1) + (p1 + b2) =~= (words_bits(w1) + p1) + b2);
        assert((p0 + b1) + b2 =~= p0 + (b1 + b2));
    }
}

/// Chunk invariance, uniqueness half: the pending bits before a run and the
/// bits consumed determine the words emitted and the pending bits after, so
/// any split of the input into runs yields the same words.
pub proof fn lemma_stream_deterministic(
    p0: Seq<bool>,
    w1: Seq<u64>,
    p1: Seq<bool>,
    w2: Seq<u64>,
    p2: Seq<bool>,
    bits: Seq<bool>,
)
    requires
        stream_step(p0, w1, p1, bits),
        stream_step(p0, w2, p2, bits),
        p1.len() < 64,
        p2.len() < 64,
    ensures
        w1 == w2,
        p1 == p2,
{
    assert((words_bits(w1) + p1).len() == (p0 + bits).len());
    assert((words_bits(w2) + p2).len() == (p0 + bits).len());
    assert(words_bits(w1).len() == 64 * w1.len());
    assert(words_bits(w2).len() == 64 * w2.len());
    assert(64 * w1.len() + p1.len() == 64 * w2.len() + p2.len());
    assert(w1.len() == w2.len());
    assert forall|m: int| 0 <= m < w1.len() implies w1[m] == w2[m] by {
        assert forall|j: u64| j < 64 implies word_bit(w1[m], j) == word_bit(w2[m], j) by {
            let i = 64 * m + j;
            assert(i / 64 == m && i % 64 == j);
            assert(words_bits(w1)[i] == (p0 + bits)[i]);
            assert(words_bits(w2)[i] == (p0 + bits)[i]);
        }
        lemma_word_bits_inj(w1[m], w2[m]);
    }
    assert(w1 =~= w2);
    assert forall|i: int| 0 <= i < p1.len() implies p1[i] == p2[i] by {
        assert(p1[i] == (p0 + bits)[64 * w1.len() + i]);
        assert(p2[i] == (p0 + bits)[64 * w2.len() + i]);
    }
    assert(p1 =~= p2);
}

/// Chunk invariance, flush half: encoders carrying the same pending bits
/// hold the same buffer word, so their final flushes also agree.
pub proof fn lemma_pending_determines_buf<'a, 'b>(a: Encoder<'a>, b: Encoder<'b>)
    requires
        a.inv(),
        b.inv(),
        a.pending() == b.pending(),
    ensures
        a.offset == b.offset,
        a.buf == b.buf,
{
    assert(a.pending().len() == a.offset);
    assert(b.pending().len() == b.offset);
    assert(a.offset == b.offset);
    assert forall|j: u64| j < 64 implies word_bit(a.buf, j) == word_bit(b.buf, j) by {
        if j < a.offset {
            assert(a.pending()[j as int] == word_bit(a.buf, j));
            assert(b.pending()[j as int] == word_bit(b.buf, j));
        } else {
            assert(!word_bit(a.buf, j));
            assert(!word_bit(b.buf, j));
        }
    }
    lemma_word_bits_inj(a.buf, b.buf);
}

impl<'a> Encoder<'a> {
    /// Encode a chunk of the input into the given output buffer.
    ///
    /// Stops when either the input is exhausted or the next symbol's
    /// codeword would not fit in the remaining buffer capacity. Returns the
    /// number of input bytes consumed and the number of words filled; a
    /// partial consumption is backpressure, not an error, and a later call
    /// resumes at the first unconsumed symbol with the pending bits intact.
    pub fn encode(&mut self, input: &[u8], output: &mut Vec<u64>) -> (r: (usize, usize))
        requires
            old(self).inv(),
            forall|i: int|
                0 <= i < input@.len() ==> (#[trigger] old(self).code@[input@[i] as int])@.len()
                    > 0,
        ensures
            final(self).inv(),
            final(self).code == old(self).code,
            r.0 <= input@.len(),
            r.1 <= old(output)@.len(),
            final(output)@.len() == old(output)@.len(),
            forall|j: int|
                r.1 <= j < final(output)@.len() ==> final(output)@[j] == old(output)@[j],
            stream_step(
                old(self).pending(),
                final(output)@.take(r.1 as int),
                final(self).pending(),
                concat_codes(old(self).code@, input@.take(r.0 as int)),
            ),
            r.0 < input@.len() ==> r.1 + (final(self).offset + old(self).code@[input@[r.0 as int] as int]@.len()) / 64 > old(output)@.len(),
    {
        let ghost p0 = old(self).pending();
        let ghost cs = old(self).code@;
        let code = self.code;
        let cap = output.len();
        let n = input.len();
        let mut written: usize = 0;
        let mut idx: usize = 0;
        proof {
            assert(output@.take(0) =~= Seq::<u64>::empty());
            assert(words_bits(Seq::<u64>::empty()) =~= Seq::<bool>::empty());
            assert(input@.take(0) =~= Seq::<u8>::empty());
            assert(words_bits(output@.take(0)) + self.pending() =~= p0 + concat_codes(
                cs,
                input@.take(0),
            ));
        }
        while idx < n
            invariant
                self.inv(),
                self.code == old(self).code,
                code == old(self).code,
                cs == old(self).code@,
                p0 == old(self).pending(),
                n == input@.len(),
                forall|i: int| 0 <= i < input@.len() ==> (#[trigger] cs[input@[i] as int])@.len() > 0,
                idx <= n,
                written <= cap,
                cap == output@.len(),
                output@.len() == old(output)@.len(),
                forall|j: int| written <= j < output@.len() ==> output@[j] == old(output)@[j],
                stream_step(
                    p0,
                    output@.take(written as int),
                    self.pending(),
                    concat_codes(cs, input@.take(idx as int)),
                ),
            decreases n - idx,
        {
            let sym = input[idx];
            let cw = &code[sym as usize];
            let num_words = (self.offset + cw.bit_len) / WORD_SIZE_IN_BITS;
            if num_words > cap - written {
                return (idx, written);
            }
            let ghost pend_before = self.pending();
            let ghost out_before = output@;
            let w2 = self.encode_symbol(cw, output, written);
            proof {
                assert(out_before.take(written as int) =~= output@.take(written as int));
                lemma_stream_compose(
                    p0,
                    output@.take(written as int),
                    pend_before,
                    concat_codes(cs, input@.take(idx as int)),
                    output@.subrange(written as int, w2 as int),
                    self.pending(),
                    cw@,
                );
                assert(output@.take(w2 as int) =~= output@.take(written as int)
                    + output@.subrange(written as int, w2 as int));
                assert(concat_codes(cs, input@.take(idx + 1)) =~= concat_codes(
                    cs,
                    input@.take(idx as int),
                ) + cw@) by {
                    assert(input@.take(idx + 1).drop_last() =~= input@.take(idx as int));
                    assert(input@.take(idx + 1).last() == input@[idx as int]);
                }
            }
            written = w2;
            idx = idx + 1;
        }
        proof {
            assert(input@.take(n as int) =~= input@);
        }
        (n, written)
    }

    /// Flush the pending bits, if any, as one zero-padded output word and
    /// reset the encoder; with no bits pending this writes nothing.
    pub fn finish(&mut self, output: &mut Vec<u64>) -> (r: usize)
        requires
            old(self).inv(),
            old(self).offset > 0 ==> old(output)@.len() >= 1,
        ensures
            final(self).inv(),
            final(self).code == old(self).code,
            final(self).offset == 0,
            final(self).pending() == Seq::<bool>::empty(),
            r == (if old(self).offset > 0 {
                1int
            } else {
                0int
            }),
            final(output)@.len() == old(output)@.len(),
            forall|j: int| r <= j < final(output)@.len() ==> final(output)@[j] == old(output)@[j],
            r == 1 ==> final(output)@[0] == old(self).buf,
            r == 1 ==> words_bits(final(output)@.take(1)) == old(self).pending() + Seq::new(
                (64 - old(self).offset) as nat,
                |i: int| false,
            ),
    {
        if self.offset > 0 {
            output[0] = self.buf;
            self.offset = 0;
            self.buf = 0;
            proof {
                lemma_zero_word();
                assert(self.pending() =~= Seq::<bool>::empty());
                let one = output@.take(1);
                assert(one[0] == old(self).buf);
                assert forall|i: int|
                    0 <= i < 64 implies words_bits(one)[i] == (old(self).pending() + Seq::new(
                    (64 - old(self).offset) as nat,
                    |k: int| false,
                ))[i] by {
                    assert(i / 64 == 0 && i % 64 == i);
                    assert(seq_bit(one, i) == word_bit(old(self).buf, i as u64));
                }
                assert(words_bits(one) =~= old(self).pending() + Seq::new(
                    (64 - old(self).offset) as nat,
                    |k: int| false,
                ));
            }
            1
        } else {
            proof {
                assert(self.pending() =~= Seq::<bool>::empty());
            }
            0
        }
    }
}

/// Frequency times codeword length, summed over the table's entries.
pub open spec fn weighted_len(tbl: Seq<(u8, usize)>, code: Seq<Codeword>) -> int
    decreases tbl.len(),
{
    if tbl.len() == 0 {
        0
    } else {
        weighted_len(tbl.drop_last(), code) + tbl.last().1 * code[tbl.last().0 as int]@.len()
    }
}

/// Frequency times codeword length, summed over the symbols below `hi`.
spec fn weighted_below(input: Seq<u8>, code: Seq<Codeword>, hi: int) -> int
    decreases hi,
{
    if hi <= 0 {
        0
    } else {
        weighted_below(input, code, hi - 1) + count_of(input, (hi - 1) as u8) * code[hi - 1]@.len()
    }
}

proof fn lemma_weighted_below_push(input: Seq<u8>, code: Seq<Codeword>, x: u8, hi: int)
    requires
        hi <= 256,
    ensures
        weighted_below(input.push(x), code, hi) == weighted_below(input, code, hi) + (if (
        x as int) < hi {
            code[x as int]@.len() as int
        } else {
            0int
        }),
    decreases hi,
{
    if hi > 0 {
        lemma_weighted_below_push(input, code, x, hi - 1);
        let sym = (hi - 1) as u8;
        assert(input.push(x).drop_last() =~= input);
        assert(count_of(input.push(x), sym) == count_of(input, sym) + (if sym == x {
            1nat
        } else {
            0nat
        }));
        assert((count_of(input, sym) + 1) * code[hi - 1]@.len() == count_of(input, sym) * code[hi
            - 1]@.len() + code[hi - 1]@.len()) by (nonlinear_arith);
    }
}

proof fn lemma_weighted_below_empty(code: Seq<Codeword>, hi: int)
    ensures
        weighted_below(Seq::<u8>::empty(), code, hi) == 0,
    decreases hi,
{
    if hi > 0 {
        lemma_weighted_below_empty(code, hi - 1);
        let c = count_of(Seq::<u8>::empty(), (hi - 1) as u8);
        assert(c == 0);
        assert(c * code[hi - 1]@.len() == 0);
    }
}

proof fn lemma_concat_is_weighted_below(input: Seq<u8>, code: Seq<Codeword>)
    requires
        code.len() == 256,
    ensures
        concat_codes(code, input).len() == weighted_below(input, code, 256),
    decreases input.len(),
{
    if input.len() == 0 {
        assert(input =~= Seq::<u8>::empty());
        lemma_weighted_below_empty(code, 256);
    } else {
        let s0 = input.drop_last();
        let x = input.last();
        lemma_concat_is_weighted_below(s0, code);
        lemma_weighted_below_push(s0, code, x, 256);
        assert(s0.push(x) =~= input);
    }
}

proof fn lemma_weighted_equiv(
    tbl: Seq<(u8, usize)>,
    code: Seq<Codeword>,
    input: Seq<u8>,
    hi: int,
)
    requires
        0 <= hi <= 256,
        wf_freq_table(tbl),
        forall|k: int| 0 <= k < tbl.len() ==> (#[trigger] tbl[k]).1 == count_of(input, tbl[k].0),
        forall|k: int| 0 <= k < tbl.len() ==> ((#[trigger] tbl[k]).0 as int) < hi,
        forall|sym: u8|
            (sym as int) < hi && #[trigger] count_of(input, sym) > 0 ==> exists|k: int|
                0 <= k < tbl.len() && (#[trigger] tbl[k]).0 == sym,
    ensures
        weighted_len(tbl, code) == weighted_below(input, code, hi),
    decreases hi,
{
    if hi == 0 {
        assert(tbl.len() == 0) by {
            if tbl.len() > 0 {
                assert((tbl[0].0 as int) < 0);
            }
        }
    } else {
        let sym = (hi - 1) as u8;
        if tbl.len() > 0 && tbl.last().0 == sym {
            let t0 = tbl.drop_last();
            assert(forall|k: int| 0 <= k < t0.len() ==> t0[k] == (#[trigger] tbl[k]));
            assert forall|k: int| 0 <= k < t0.len() implies ((#[trigger] t0[k]).0 as int) < hi
                - 1 by {
                assert(tbl[k].0 < tbl[tbl.len() - 1].0);
            }
            assert forall|s2: u8|
                (s2 as int) < hi - 1 && #[trigger] count_of(input, s2) > 0 implies exists|k: int|
                0 <= k < t0.len() && (#[trigger] t0[k]).0 == s2 by {
                let k = choose|k: int| 0 <= k < tbl.len() && (#[trigger] tbl[k]).0 == s2;
                assert(k < tbl.len() - 1);
                assert(t0[k].0 == s2);
            }
            lemma_weighted_equiv(t0, code, input, hi - 1);
        } else {
            assert(count_of(input, sym) == 0) by {
                if count_of(input, sym) > 0 {
                    let k = choose|k: int| 0 <= k < tbl.len() && (#[trigger] tbl[k]).0 == sym;
                    if k < tbl.len() - 1 {
                        assert(tbl[k].0 < tbl[tbl.len() - 1].0);
                        assert((tbl[tbl.len() - 1].0 as int) < hi);
                    }
                }
            }
            assert forall|k: int| 0 <= k < tbl.len() implies ((#[trigger] tbl[k]).0 as int) < hi
                - 1 by {
                assert(tbl[k].0 != sym);
            }
            assert forall|s2: u8|
                (s2 as int) < hi - 1 && #[trigger] count_of(input, s2) > 0 implies exists|k: int|
                0 <= k < tbl.len() && (#[trigger] tbl[k]).0 == s2 by {
                assert((s2 as int) < hi);
            }
            lemma_weighted_equiv(tbl, code, input, hi - 1);
        }
    }
}

/// Weighted length bound: summing frequency times codeword length over a
/// frequency table equals the total number of valid bits emitted when the
/// input that produced those frequencies is encoded.
pub proof fn lemma_weighted_length(tbl: Seq<(u8, usize)>, code: Seq<Codeword>, input: Seq<u8>)
    requires
        is_freq_table(tbl, input),
        wf_code(code),
    ensures
        weighted_len(tbl, code) == concat_codes(code, input).len(),
{
    lemma_concat_is_weighted_below(input, code);
    lemma_weighted_equiv(tbl, code, input, 256);
}

/// Single-symbol alphabet: under the code of a lone leaf, the whole input
/// encodes to zero bits only, one bit per occurrence.
pub proof fn lemma_single_symbol_stream(code: Seq<Codeword>, sym: u8, input: Seq<u8>)
    requires
        is_code_of(code, Tree::Leaf(sym)),
        forall|i: int| 0 <= i < input.len() ==> input[i] == sym,
    ensures
        code[sym as int]@.len() == 1,
        concat_codes(code, input) == Seq::new(input.len(), |i: int| false),
    decreases input.len(),
{
    assert(code[sym as int]@ == seq![false]);
    if input.len() == 0 {
        assert(concat_codes(code, input) =~= Seq::new(input.len(), |i: int| false));
    } else {
        let s0 = input.drop_last();
        lemma_single_symbol_stream(code, sym, s0);
        assert(input.last() == input[input.len() - 1]);
        assert(concat_codes(code, input) =~= Seq::new(input.len(), |i: int| false));
    }
}

/// A stream of zero bits only comes out as all-zero words with all-zero
/// pending bits.
pub proof fn lemma_zero_stream_words(w: Seq<u64>, p: Seq<bool>, n: int)
    requires
        n >= 0,
        stream_step(Seq::<bool>::empty(), w, p, Seq::new(n as nat, |i: int| false)),
        p.len() < 64,
    ensures
        w.len() == n / 64,
        forall|m: int| 0 <= m < w.len() ==> w[m] == 0u64,
        p =~= Seq::new((n % 64) as nat, |i: int| false),
{
    let zeros = Seq::new(n as nat, |i: int| false);
    let lhs = words_bits(w) + p;
    assert(lhs.len() == 64 * w.len() + p.len());
    assert((Seq::<bool>::empty() + zeros).len() == n);
    assert(64 * w.len() + p.len() == n);
    assert(w.len() == n / 64 && p.len() == n % 64);
    lemma_zero_word();
    assert forall|m: int| 0 <= m < w.len() implies w[m] == 0u64 by {
        assert forall|j: u64| j < 64 implies word_bit(w[m], j) == word_bit(0u64, j) by {
            let i = 64 * m + j;
            assert(i / 64 == m && i % 64 == j);
            assert(lhs[i] == (Seq::<bool>::empty() + zeros)[i]);
        }
        lemma_word_bits_inj(w[m], 0u64);
    }
    assert forall|i: int| 0 <= i < p.len() implies p[i] == false by {
        assert(lhs[64 * w.len() + i] == (Seq::<bool>::empty() + zeros)[64 * w.len() + i]);
    }
}

/// Codeword streams concatenate over input chunks.
proof fn lemma_concat_codes_add(code: Seq<Codeword>, a: Seq<u8>, b: Seq<u8>)
    ensures
        concat_codes(code, a + b) == concat_codes(code, a) + concat_codes(code, b),
    decreases b.len(),
{
    if b.len() == 0 {
        assert(a + b =~= a);
        assert(concat_codes(code, a) + concat_codes(code, b) =~= concat_codes(code, a));
    } else {
        lemma_concat_codes_add(code, a, b.drop_last());
        assert((a + b).drop_last() =~= a + b.drop_last());
        assert((a + b).last() == b.last());
        assert(concat_codes(code, a) + concat_codes(code, b) =~= (concat_codes(code, a)
            + concat_codes(code, b.drop_last())) + code[b.last() as int]@);
    }
}

/// Build the code for the input and encode the whole input with it,
/// returning the code and the packed words including the final flush.
pub fn full_encode(input: &[u8]) -> (r: Result<(Code, Vec<u64>), HuffError>)
    ensures
        match r {
            Result::Err(e) => e == HuffError::EmptyInput && input@.len() == 0,
            Result::Ok(pair) => {
                &&& input@.len() > 0
                &&& wf_code(pair.0@)
                &&& is_code_of(pair.0@, huffman_tree(input@))
                &&& huffman_tree(input@).wf()
                &&& forall|sym: u8|
                    (#[trigger] pair.0@[sym as int])@.len() == 0 <==> count_of(input@, sym) == 0
                &&& pair.1@.len() == (concat_codes(pair.0@, input@).len() + 63) / 64
                &&& words_bits(pair.1@) == concat_codes(pair.0@, input@) + Seq::new(
                    (64 * pair.1@.len() - concat_codes(pair.0@, input@).len()) as nat,
                    |i: int| false,
                )
            },
        },
{
    let n = input.len();
    let freqs = compute_frequencies(input);
    let tree = match build_tree(&freqs) {
        Result::Ok(t) => t,
        Result::Err(e) => {
            proof {
                if input@.len() > 0 {
                    lemma_count_pos(input@, 0);
                }
            }
            return Result::Err(e);
        },
    };
    proof {
        lemma_table_len(freqs@);
    }
    let code = tree_to_code(&tree);
    proof {
        assert(freqs@ == freq_table_of(input@));
        assert(tree == merge_heap(initial_heap(freqs@)));
        assert(tree == huffman_tree(input@));
        assert forall|sym: u8| (#[trigger] code@[sym as int])@.len() == 0 <==> count_of(
            input@,
            sym,
        ) == 0 by {
            lemma_has_leaf_count(tree, sym);
            lemma_table_symbols_count(freqs@, sym);
            if count_of(input@, sym) > 0 {
                assert(tree.has_leaf(sym));
                if !(tree is Leaf) {
                    assert(code@[sym as int]@ == tree.path_to(sym));
                    assert(tree.path_to(sym).len() > 0);
                }
            } else {
                if tree.has_leaf(sym) {
                    let k = choose|k: int|
                        0 <= k < freqs@.len() && (#[trigger] freqs@[k]).0 == sym;
                    assert(freqs@[k].1 > 0);
                }
            }
        }
    }
    let mut encoder = Encoder::new(&code);
    let mut output: Vec<u64> = Vec::new();
    let ghost total = concat_codes(code@, input@);
    proof {
        assert forall|i: int|
            0 <= i < input@.len() implies (#[trigger] code@[input@[i] as int])@.len() > 0 by {
            lemma_count_pos(input@, i);
        }
        assert(input@.take(0) =~= Seq::<u8>::empty());
        assert(output@ =~= Seq::<u64>::empty());
        assert(words_bits(output@) + encoder.pending() =~= Seq::<bool>::empty() + concat_codes(
            code@,
            input@.take(0),
        ));
    }
    let mut consumed: usize = 0;
    while consumed < n
        invariant
            n == input@.len(),
            consumed <= n,
            encoder.inv(),
            encoder.code == &code,
            wf_code(code@),
            forall|i: int| 0 <= i < input@.len() ==> (#[trigger] code@[input@[i] as int])@.len() > 0,
            stream_step(
                Seq::<bool>::empty(),
                output@,
                encoder.pending(),
                concat_codes(code@, input@.take(consumed as int)),
            ),
        decreases n - consumed,
    {
        let rest = &input[consumed..n];
        let mut buffer: Vec<u64> = vec![0u64; 8];
        let ghost out0 = output@;
        let ghost pend0 = encoder.pending();
        let res = encoder.encode(rest, &mut buffer);
        let c = res.0;
        let w = res.1;
        proof {
            // an eight-word buffer always admits at least one symbol
            if c == 0 {
                assert(rest@.take(0) =~= Seq::<u8>::empty());
                assert(buffer@.take(0) =~= Seq::<u64>::empty());
                assert((words_bits(buffer@.take(0)) + encoder.pending()).len() == (
                Seq::<bool>::empty() + concat_codes(code@, rest@.take(0))).len());
                assert(code@[rest@[0] as int].wf());
                assert((encoder.offset + code@[rest@[0] as int]@.len()) / 64 <= 4);
                assert(false);
            }
        }
        let mut k: usize = 0;
        while k < w
            invariant
                k <= w,
                w <= buffer@.len(),
                output@ == out0 + buffer@.take(k as int),
            decreases w - k,
        {
            output.push(buffer[k]);
            proof {
                assert(out0 + buffer@.take(k + 1) =~= (out0 + buffer@.take(k as int)).push(
                    buffer@[k as int],
                ));
            }
            k = k + 1;
        }
        proof {
            lemma_stream_compose(
                Seq::<bool>::empty(),
                out0,
                pend0,
                concat_codes(code@, input@.take(consumed as int)),
                buffer@.take(w as int),
                encoder.pending(),
                concat_codes(code@, rest@.take(c as int)),
            );
            lemma_concat_codes_add(code@, input@.take(consumed as int), rest@.take(c as int));
            assert(input@.take(consumed as int) + rest@.take(c as int) =~= input@.take(
                consumed + c,
            ));
            assert(output@ == out0 + buffer@.take(w as int));
        }
        consumed = consumed + c;
    }
    proof {
        assert(input@.take(n as int) =~= input@);
    }
    let ghost pend = encoder.pending();
    let ghost off = encoder.offset as int;
    let mut tail: Vec<u64> = vec![0u64; 1];
    let fin = encoder.finish(&mut tail);
    let ghost ww = output@;
    proof {
        assert(words_bits(ww) + pend =~= Seq::<bool>::empty() + total);
        assert(words_bits(ww) + pend =~= total);
        assert(total.len() == 64 * ww.len() + off);
    }
    if fin == 1 {
        output.push(tail[0]);
        proof {
            assert(output@ =~= ww + seq![tail@[0]]);
            lemma_words_bits_concat(ww, seq![tail@[0]]);
            assert(tail@.take(1) =~= seq![tail@[0]]);
            assert(words_bits(seq![tail@[0]]) == pend + Seq::new((64 - off) as nat, |i: int| false));
            assert(words_bits(output@) =~= total + Seq::new(
                (64 * output@.len() - total.len()) as nat,
                |i: int| false,
            ));
        }
    } else {
        proof {
            assert(off == 0);
            assert(pend.len() == 0);
            assert(words_bits(output@) =~= total);
            assert(words_bits(output@) =~= total + Seq::new(
                (64 * output@.len() - total.len()) as nat,
                |i: int| false,
            ));
        }
    }
    Result::Ok((code, output))
}

/// A symbol that occurs in the input is counted there.
proof fn lemma_count_pos(s: Seq<u8>, i: int)
    requires
        0 <= i < s.len(),
    ensures
        count_of(s, s[i]) > 0,
    decreases s.len(),
{
    if i < s.len() - 1 {
        lemma_count_pos(s.drop_last(), i);
    }
}

} // verus!
