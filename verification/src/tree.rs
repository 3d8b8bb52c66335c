//! Frequency counting, Huffman tree construction and codeword assignment.

use crate::bits::{lemma_clear_bit, lemma_set_bit, seq_bit, word_bit};
use crate::heap;
use crate::heap::Keyed;
use vstd::multiset::Multiset;
use vstd::prelude::*;

verus! {

pub const NUM_SYMBOLS: usize = 256;

pub const MAX_CODEWORD_BITS: usize = 256;

pub const NUM_CODEWORD_WORDS: usize = 4;

pub const B0: bool = false;

pub const B1: bool = true;

pub type Frequencies = Vec<(u8, usize)>;

/// How often `sym` occurs in `s`.
pub open spec fn count_of(s: Seq<u8>, sym: u8) -> nat
    decreases s.len(),
{
    if s.len() == 0 {
        0
    } else {
        count_of(s.drop_last(), sym) + (if s.last() == sym {
            1nat
        } else {
            0nat
        })
    }
}

/// A well-formed frequency table: strictly ascending symbols, positive counts.
pub open spec fn wf_freq_table(t: Seq<(u8, usize)>) -> bool {
    &&& forall|a: int, b: int|
        #![trigger t[a], t[b]]
        0 <= a < b < t.len() ==> t[a].0 < t[b].0
    &&& forall|k: int| 0 <= k < t.len() ==> (#[trigger] t[k]).1 > 0
}

/// `t` is exactly the frequency table of `input`: well formed, counts right,
/// and complete.
pub open spec fn is_freq_table(t: Seq<(u8, usize)>, input: Seq<u8>) -> bool {
    &&& wf_freq_table(t)
    &&& forall|k: int| 0 <= k < t.len() ==> (#[trigger] t[k]).1 == count_of(input, t[k].0)
    &&& forall|sym: u8|
        #[trigger] count_of(input, sym) > 0 ==> exists|k: int|
            0 <= k < t.len() && (#[trigger] t[k]).0 == sym
}

/// Sum of the counts in a frequency table.
pub open spec fn total_count(t: Seq<(u8, usize)>) -> int
    decreases t.len(),
{
    if t.len() == 0 {
        0
    } else {
        total_count(t.drop_last()) + t.last().1
    }
}

/// Sum of `count_of(input, sym)` over all symbols below `hi`.
spec fn total_below(input: Seq<u8>, hi: int) -> int
    decreases hi,
{
    if hi <= 0 {
        0
    } else {
        total_below(input, hi - 1) + count_of(input, (hi - 1) as u8)
    }
}

/// The frequency-table entries for the symbol values below `hi`, in
/// ascending order, zero counts omitted.
pub open spec fn freq_table_upto(input: Seq<u8>, hi: int) -> Seq<(u8, usize)>
    decreases hi,
{
    if hi <= 0 {
        Seq::empty()
    } else if count_of(input, (hi - 1) as u8) > 0 {
        freq_table_upto(input, hi - 1).push(
            ((hi - 1) as u8, count_of(input, (hi - 1) as u8) as usize),
        )
    } else {
        freq_table_upto(input, hi - 1)
    }
}

/// The frequency table of `input`: one entry per occurring symbol value, in
/// ascending order, carrying its count.
pub open spec fn freq_table_of(input: Seq<u8>) -> Seq<(u8, usize)> {
    freq_table_upto(input, 256)
}

proof fn lemma_count_le_len(s: Seq<u8>, sym: u8)
    ensures
        count_of(s, sym) <= s.len(),
    decreases s.len(),
{
    if s.len() > 0 {
        lemma_count_le_len(s.drop_last(), sym);
    }
}

proof fn lemma_count_push(s: Seq<u8>, x: u8, sym: u8)
    ensures
        count_of(s.push(x), sym) == count_of(s, sym) + (if sym == x {
            1nat
        } else {
            0nat
        }),
{
    assert(s.push(x).drop_last() =~= s);
    assert(s.push(x).last() == x);
}

proof fn lemma_total_below_push(s: Seq<u8>, x: u8, hi: int)
    requires
        hi <= 256,
    ensures
        total_below(s.push(x), hi) == total_below(s, hi) + (if (x as int) < hi {
            1int
        } else {
            0int
        }),
    decreases hi,
{
    if hi > 0 {
        lemma_total_below_push(s, x, hi - 1);
        lemma_count_push(s, x, (hi - 1) as u8);
    }
}

proof fn lemma_total_below_empty(hi: int)
    ensures
        total_below(Seq::<u8>::empty(), hi) == 0,
    decreases hi,
{
    if hi > 0 {
        lemma_total_below_empty(hi - 1);
    }
}

/// The per-symbol counts of `s` sum to its length.
proof fn lemma_total_is_len(s: Seq<u8>)
    ensures
        total_below(s, 256) == s.len(),
    decreases s.len(),
{
    if s.len() == 0 {
        assert(s =~= Seq::<u8>::empty());
        lemma_total_below_empty(256);
    } else {
        let s0 = s.drop_last();
        let x = s.last();
        lemma_total_is_len(s0);
        lemma_total_below_push(s0, x, 256);
        assert(s0.push(x) =~= s);
    }
}

/// Count the number of occurrences of each byte value in the input.
///
/// The frequencies are returned as a vector of (symbol, count) pairs,
/// ordered by ascending symbol, with zero-count symbols omitted.
pub fn compute_frequencies(input: &[u8]) -> (r: Frequencies)
    ensures
        r@ == freq_table_of(input@),
        is_freq_table(r@, input@),
        total_count(r@) == input@.len(),
{
    let n = input.len();
    let mut table: Vec<usize> = vec![0; NUM_SYMBOLS];
    let mut idx: usize = 0;
    while idx < n
        invariant
            n == input@.len(),
            idx <= n,
            table@.len() == NUM_SYMBOLS,
            forall|sym: u8| #![auto] table@[sym as int] == count_of(input@.take(idx as int), sym),
        decreases n - idx,
    {
        let sym = input[idx];
        let c = table[sym as usize];
        proof {
            lemma_count_le_len(input@.take(idx as int), sym);
        }
        table[sym as usize] = c + 1;
        proof {
            let ghost t1 = input@.take(idx + 1);
            assert(t1.drop_last() =~= input@.take(idx as int));
            assert(t1.last() == input@[idx as int]);
            assert forall|s2: u8| #![auto] table@[s2 as int] == count_of(t1, s2) by {
                if s2 != sym {
                    assert(table@[s2 as int] == count_of(input@.take(idx as int), s2));
                }
            }
        }
        idx = idx + 1;
    }
    proof {
        assert(input@.take(n as int) =~= input@);
    }
    let mut r: Frequencies = Vec::new();
    let mut s: usize = 0;
    while s < NUM_SYMBOLS
        invariant
            table@.len() == NUM_SYMBOLS,
            forall|sym: u8| #![auto] table@[sym as int] == count_of(input@, sym),
            s <= NUM_SYMBOLS,
            forall|k: int|
                0 <= k < r@.len() ==> ((#[trigger] r@[k]).0 as int) < s && r@[k].1 == count_of(
                    input@,
                    r@[k].0,
                ) && r@[k].1 > 0,
            forall|a: int, b: int| #![trigger r@[a], r@[b]] 0 <= a < b < r@.len() ==> r@[a].0 < r@[b].0,
            forall|sym: u8|
                (sym as int) < s && #[trigger] count_of(input@, sym) > 0 ==> exists|k: int|
                    0 <= k < r@.len() && (#[trigger] r@[k]).0 == sym,
            total_count(r@) == total_below(input@, s as int),
            r@ == freq_table_upto(input@, s as int),
        decreases NUM_SYMBOLS - s,
    {
        let c = table[s];
        let ghost r0 = r@;
        if c > 0 {
            r.push((s as u8, c));
            proof {
                assert(r@.drop_last() =~= r0);
                assert(r@.last() == (s as u8, c));
            }
        }
        proof {
            assert(r@ == freq_table_upto(input@, s + 1));
            assert forall|sym: u8|
                (sym as int) < s + 1 && #[trigger] count_of(input@, sym) > 0 implies exists|k: int|
                0 <= k < r@.len() && (#[trigger] r@[k]).0 == sym by {
                if (sym as int) < s as int {
                    let k0 = choose|k0: int| 0 <= k0 < r0.len() && (#[trigger] r0[k0]).0 == sym;
                    assert(r@[k0].0 == sym);
                } else {
                    assert(r@[r@.len() - 1].0 == sym);
                }
            }
        }
        s = s + 1;
    }
    proof {
        lemma_total_is_len(input@);
    }
    r
}

/// The Huffman tree: a leaf holds one symbol; a branch owns two subtrees.
#[derive(PartialEq, Eq, Debug)]
pub enum Tree {
    Branch(Box<Tree>, Box<Tree>),
    Leaf(u8),
}

impl Tree {
    /// Multiset of the leaf symbols of the tree.
    pub open spec fn leaves(self) -> Multiset<u8>
        decreases self,
    {
        match self {
            Tree::Leaf(s) => Multiset::empty().insert(s),
            Tree::Branch(l, r) => l.leaves().add(r.leaves()),
        }
    }

    pub open spec fn has_leaf(self, sym: u8) -> bool
        decreases self,
    {
        match self {
            Tree::Leaf(s) => s == sym,
            Tree::Branch(l, r) => l.has_leaf(sym) || r.has_leaf(sym),
        }
    }

    /// Every leaf symbol appears at most once across the whole tree.
    pub open spec fn wf(self) -> bool {
        forall|sym: u8| #[trigger] self.leaves().count(sym) <= 1
    }

    pub open spec fn height(self) -> nat
        decreases self,
    {
        match self {
            Tree::Leaf(_) => 0,
            Tree::Branch(l, r) => 1 + (if l.height() > r.height() {
                l.height()
            } else {
                r.height()
            }),
        }
    }

    /// The root-to-leaf path for `sym`, left branches as `false`, right as
    /// `true`; meaningful only when the tree has that leaf.
    pub open spec fn path_to(self, sym: u8) -> Seq<bool>
        decreases self,
    {
        match self {
            Tree::Leaf(_) => Seq::empty(),
            Tree::Branch(l, r) => if l.has_leaf(sym) {
                seq![false] + l.path_to(sym)
            } else {
                seq![true] + r.path_to(sym)
            },
        }
    }
}

/// A symbol is a leaf exactly when it is counted among the leaves.
pub proof fn lemma_has_leaf_count(t: Tree, sym: u8)
    ensures
        t.has_leaf(sym) <==> t.leaves().count(sym) > 0,
    decreases t,
{
    broadcast use vstd::multiset::group_multiset_axioms;

    match t {
        Tree::Leaf(_) => {},
        Tree::Branch(l, r) => {
            lemma_has_leaf_count(*l, sym);
            lemma_has_leaf_count(*r, sym);
        },
    }
}

/// A tree's height is below its number of leaves.
pub proof fn lemma_height_lt_leaves(t: Tree)
    ensures
        t.height() < t.leaves().len(),
    decreases t,
{
    broadcast use vstd::multiset::group_multiset_axioms;

    match t {
        Tree::Leaf(_) => {},
        Tree::Branch(l, r) => {
            lemma_height_lt_leaves(*l);
            lemma_height_lt_leaves(*r);
        },
    }
}

/// A sequence of bits of maximum length `MAX_CODEWORD_BITS`.
///
/// Stored as a fixed-length sequence of 64-bit words. Bits inside the words
/// are stored least-significant first: the first bit of the sequence is at
/// `1 << 0` of word 0, the second at `1 << 1`, and so on.
pub struct Codeword {
    pub bit_len: usize,
    pub bits: Vec<u64>,
}

impl View for Codeword {
    type V = Seq<bool>;

    open spec fn view(&self) -> Seq<bool> {
        Seq::new(self.bit_len as nat, |i: int| seq_bit(self.bits@, i))
    }
}

impl Codeword {
    /// Well-formed storage: four backing words, and every bit at index
    /// `bit_len` or beyond is zero.
    pub open spec fn wf(&self) -> bool {
        &&& self.bits@.len() == NUM_CODEWORD_WORDS
        &&& self.bit_len <= MAX_CODEWORD_BITS
        &&& forall|i: int| self.bit_len <= i ==> !seq_bit(self.bits@, i)
    }

    pub fn empty() -> (r: Codeword)
        ensures
            r.wf(),
            r@ == Seq::<bool>::empty(),
            r.bit_len == 0,
    {
        let mut bits: Vec<u64> = Vec::new();
        bits.push(0);
        bits.push(0);
        bits.push(0);
        bits.push(0);
        let r = Codeword { bit_len: 0, bits };
        proof {
            assert forall|i: int| 0 <= i implies !seq_bit(r.bits@, i) by {
                if i < 64 * r.bits@.len() {
                    let bi = (i % 64) as u64;
                    assert(!word_bit(0u64, bi)) by (bit_vector);
                }
            }
            assert(r@ =~= Seq::<bool>::empty());
        }
        r
    }

    pub fn from_bits(bits: &[bool]) -> (r: Codeword)
        requires
            bits@.len() <= MAX_CODEWORD_BITS,
        ensures
            r.wf(),
            r@ == bits@,
    {
        let mut cw = Self::empty();
        let n = bits.len();
        let mut k: usize = 0;
        while k < n
            invariant
                n == bits@.len() <= MAX_CODEWORD_BITS,
                k <= n,
                cw.wf(),
                cw.bit_len == k,
                cw@ == bits@.take(k as int),
            decreases n - k,
        {
            let bit = bits[k];
            cw.push_bit(bit);
            proof {
                assert(cw@ =~= bits@.take(k + 1));
            }
            k = k + 1;
        }
        proof {
            assert(bits@.take(n as int) =~= bits@);
        }
        cw
    }

    pub fn is_empty(&self) -> (r: bool)
        ensures
            r == (self@.len() == 0),
    {
        self.bit_len == 0
    }

    /// Adds a bit to the end of the sequence.
    pub fn push_bit(&mut self, bit: bool)
        requires
            old(self).wf(),
            old(self).bit_len < MAX_CODEWORD_BITS,
        ensures
            final(self).wf(),
            final(self)@ == old(self)@.push(bit),
            final(self).bit_len == old(self).bit_len + 1,
    {
        let index = self.bit_len;
        let w = index / 64;
        let b = (index % 64) as u64;
        let v: u64 = if bit {
            1
        } else {
            0
        };
        self.bits[w] = self.bits[w] | (v << b);
        self.bit_len = index + 1;
        proof {
            let ob = old(self).bits@;
            let nb = self.bits@;
            let idx = index as int;
            assert forall|i: int| 0 <= i < 64 * NUM_CODEWORD_WORDS implies seq_bit(nb, i) == (
            if i == idx {
                bit
            } else {
                seq_bit(ob, i)
            }) by {
                let wi = i / 64;
                let bi = (i % 64) as u64;
                assert(i == 64 * wi + bi);
                assert(idx == 64 * (w as int) + (b as int));
                assert(seq_bit(nb, i) == word_bit(nb[wi], bi));
                assert(seq_bit(ob, i) == word_bit(ob[wi], bi));
                if wi == w as int {
                    assert(nb[wi] == (ob[wi] | (v << b)));
                    lemma_set_bit(ob[wi], v, b, bi);
                    assert((i == idx) == (bi == b));
                } else {
                    assert(nb[wi] == ob[wi]);
                }
            }
            assert(self@ =~= old(self)@.push(bit));
        }
    }

    /// Removes a bit from the end of the sequence, without returning it.
    pub fn pop_bit(&mut self)
        requires
            old(self).wf(),
            old(self).bit_len > 0,
        ensures
            final(self).wf(),
            final(self)@ == old(self)@.drop_last(),
            final(self).bit_len == old(self).bit_len - 1,
    {
        let index = self.bit_len - 1;
        let w = index / 64;
        let b = (index % 64) as u64;
        self.bits[w] = self.bits[w] & !(1u64 << b);
        self.bit_len = index;
        proof {
            let ob = old(self).bits@;
            let nb = self.bits@;
            let idx = index as int;
            assert forall|i: int| 0 <= i < 64 * NUM_CODEWORD_WORDS implies seq_bit(nb, i) == (
            if i == idx {
                false
            } else {
                seq_bit(ob, i)
            }) by {
                let wi = i / 64;
                let bi = (i % 64) as u64;
                assert(i == 64 * wi + bi);
                assert(idx == 64 * (w as int) + (b as int));
                assert(seq_bit(nb, i) == word_bit(nb[wi], bi));
                assert(seq_bit(ob, i) == word_bit(ob[wi], bi));
                if wi == w as int {
                    assert(nb[wi] == (ob[wi] & !(1u64 << b)));
                    lemma_clear_bit(ob[wi], b, bi);
                    assert((i == idx) == (bi == b));
                } else {
                    assert(nb[wi] == ob[wi]);
                }
            }
            assert(self@ =~= old(self)@.drop_last());
        }
    }

}

impl Clone for Codeword {
    fn clone(&self) -> (r: Self)
        ensures
            r.bit_len == self.bit_len,
            r.bits@ == self.bits@,
            r@ == self@,
            r.wf() == self.wf(),
    {
        let mut bits: Vec<u64> = Vec::new();
        let mut k: usize = 0;
        while k < self.bits.len()
            invariant
                k <= self.bits@.len(),
                bits@ == self.bits@.take(k as int),
            decreases self.bits@.len() - k,
        {
            bits.push(self.bits[k]);
            proof {
                assert(bits@ =~= self.bits@.take(k + 1));
            }
            k = k + 1;
        }
        proof {
            assert(self.bits@.take(self.bits@.len() as int) =~= self.bits@);
        }
        Codeword { bit_len: self.bit_len, bits }
    }
}

/// Tree construction fails only on an empty frequency table.
#[derive(Clone, Copy, PartialEq, Eq, Debug, Structural)]
pub enum HuffError {
    EmptyInput,
}

/// Multiset of the symbols of a frequency table.
pub open spec fn table_symbols(t: Seq<(u8, usize)>) -> Multiset<u8>
    decreases t.len(),
{
    if t.len() == 0 {
        Multiset::empty()
    } else {
        table_symbols(t.drop_last()).insert(t.last().0)
    }
}

/// In a well-formed table each symbol occurs at most once, and occurs
/// exactly when some entry carries it.
pub proof fn lemma_table_symbols_count(t: Seq<(u8, usize)>, sym: u8)
    requires
        wf_freq_table(t),
    ensures
        table_symbols(t).count(sym) <= 1,
        table_symbols(t).count(sym) > 0 <==> exists|k: int|
            0 <= k < t.len() && (#[trigger] t[k]).0 == sym,
    decreases t.len(),
{
    broadcast use vstd::multiset::group_multiset_axioms;

    if t.len() > 0 {
        let t0 = t.drop_last();
        assert(wf_freq_table(t0)) by {
            assert(forall|k: int| 0 <= k < t0.len() ==> t0[k] == (#[trigger] t[k]));
        }
        lemma_table_symbols_count(t0, sym);
        let last = t.last();
        if last.0 == sym {
            assert(table_symbols(t0).count(sym) == 0) by {
                if table_symbols(t0).count(sym) > 0 {
                    let k = choose|k: int| 0 <= k < t0.len() && (#[trigger] t0[k]).0 == sym;
                    assert(t[k].0 < t[t.len() - 1].0);
                }
            }
        }
        if exists|k: int| 0 <= k < t.len() && (#[trigger] t[k]).0 == sym {
            let k = choose|k: int| 0 <= k < t.len() && (#[trigger] t[k]).0 == sym;
            if k < t.len() - 1 {
                assert(t0[k].0 == sym);
            }
        }
    }
}

proof fn lemma_table_symbols_len(t: Seq<(u8, usize)>)
    ensures
        table_symbols(t).len() == t.len(),
    decreases t.len(),
{
    broadcast use vstd::multiset::group_multiset_axioms;

    if t.len() > 0 {
        lemma_table_symbols_len(t.drop_last());
    }
}

/// Multiset of all leaf symbols across the heap items' trees.
spec fn items_leaves(s: Seq<Keyed<Tree>>) -> Multiset<u8>
    decreases s.len(),
{
    if s.len() == 0 {
        Multiset::empty()
    } else {
        items_leaves(s.drop_last()).add(s.last().value.leaves())
    }
}

proof fn lemma_items_leaves_remove(s: Seq<Keyed<Tree>>, j: int)
    requires
        0 <= j < s.len(),
    ensures
        items_leaves(s) == items_leaves(s.remove(j)).add(s[j].value.leaves()),
    decreases s.len(),
{
    broadcast use vstd::multiset::group_multiset_axioms;

    if j == s.len() - 1 {
        assert(s.remove(j) =~= s.drop_last());
    } else {
        lemma_items_leaves_remove(s.drop_last(), j);
        assert(s.remove(j).drop_last() =~= s.drop_last().remove(j));
        assert(s.remove(j).last() == s.last());
        assert(items_leaves(s.drop_last().remove(j)).add(
            s[j].value.leaves(),
        ).add(s.last().value.leaves()) =~= items_leaves(s.drop_last().remove(j)).add(
            s.last().value.leaves(),
        ).add(s[j].value.leaves()));
    }
}

/// Two sequences with the same multiset of items carry the same leaves.
proof fn lemma_items_leaves_permutation(s1: Seq<Keyed<Tree>>, s2: Seq<Keyed<Tree>>)
    requires
        s1.to_multiset() == s2.to_multiset(),
    ensures
        items_leaves(s1) == items_leaves(s2),
    decreases s1.len(),
{
    broadcast use vstd::seq_lib::group_to_multiset_ensures;
    broadcast use vstd::multiset::group_multiset_axioms;

    if s1.len() == 0 {
        assert(s1.to_multiset().len() == s1.len());
        assert(s2.to_multiset().len() == s2.len());
        assert(s2 =~= Seq::empty());
    } else {
        let x = s1.last();
        assert(s1.contains(x)) by {
            assert(s1[s1.len() - 1] == x);
        }
        assert(s1.to_multiset().count(x) > 0);
        assert(s2.contains(x));
        let j = choose|j: int| 0 <= j < s2.len() && s2[j] == x;
        assert(s1 =~= s1.drop_last().push(x));
        assert(s1.drop_last().push(x).to_multiset() == s1.drop_last().to_multiset().insert(x));
        assert(s2.remove(j).to_multiset() == s2.to_multiset().remove(x));
        assert(s1.drop_last().to_multiset() =~= s2.remove(j).to_multiset());
        lemma_items_leaves_permutation(s1.drop_last(), s2.remove(j));
        lemma_items_leaves_remove(s2, j);
    }
}

proof fn lemma_sum_keys_nonneg(s: Seq<Keyed<Tree>>)
    ensures
        heap::sum_keys(s) >= 0,
    decreases s.len(),
{
    if s.len() > 0 {
        lemma_sum_keys_nonneg(s.drop_last());
    }
}

/// The heap that holds one leaf per table entry, keyed by its count,
/// inserted in table order.
pub open spec fn initial_heap(fs: Seq<(u8, usize)>) -> Seq<Keyed<Tree>>
    decreases fs.len(),
{
    if fs.len() == 0 {
        Seq::empty()
    } else {
        heap::heap_with(
            initial_heap(fs.drop_last()),
            Keyed { key: fs.last().1, value: Tree::Leaf(fs.last().0) },
        )
    }
}

/// The item that joins two extracted heap items: a branch of their trees,
/// keyed by their combined weight.
pub open spec fn joined(left: Keyed<Tree>, right: Keyed<Tree>) -> Keyed<Tree> {
    Keyed {
        key: (left.key + right.key) as usize,
        value: Tree::Branch(Box::new(left.value), Box::new(right.value)),
    }
}

/// The tree left after repeatedly extracting the two lightest items from
/// the heap and reinserting their join, until one item remains.
pub open spec fn merge_heap(s: Seq<Keyed<Tree>>) -> Tree
    recommends
        s.len() >= 1,
    decreases s.len(),
    via merge_heap_decreases
{
    if s.len() <= 1 {
        s[0].value
    } else {
        let s1 = heap::heap_without(s);
        let s2 = heap::heap_without(s1);
        merge_heap(heap::heap_with(s2, joined(s[0], s1[0])))
    }
}

#[via_fn]
proof fn merge_heap_decreases(s: Seq<Keyed<Tree>>) {
    if s.len() > 1 {
        heap::lemma_heap_without_len(s);
        let s1 = heap::heap_without(s);
        heap::lemma_heap_without_len(s1);
        let s2 = heap::heap_without(s1);
        heap::lemma_heap_with_len(s2, joined(s[0], s1[0]));
    }
}

/// The Huffman tree that this crate's pipeline builds for `input`.
pub open spec fn huffman_tree(input: Seq<u8>) -> Tree {
    merge_heap(initial_heap(freq_table_of(input)))
}

/// Build the Huffman tree for a frequency table: one leaf per entry keyed by
/// its count; repeatedly join the two lightest trees under a branch keyed by
/// their combined weight, until one tree remains.
///
/// An empty table is rejected with `EmptyInput`. A one-entry table yields a
/// bare leaf. The finished tree holds each table symbol on exactly one leaf.
pub fn build_tree(frequencies: &Frequencies) -> (r: Result<Tree, HuffError>)
    requires
        wf_freq_table(frequencies@),
        total_count(frequencies@) <= usize::MAX,
    ensures
        match r {
            Result::Err(e) => e == HuffError::EmptyInput && frequencies@.len() == 0,
            Result::Ok(t) => {
                &&& frequencies@.len() > 0
                &&& t == merge_heap(initial_heap(frequencies@))
                &&& t.leaves() == table_symbols(frequencies@)
                &&& t.leaves().len() == frequencies@.len()
                &&& t.wf()
                &&& (frequencies@.len() == 1 ==> t == Tree::Leaf(frequencies@[0].0))
            },
        },
{
    let ghost fseq = frequencies@;
    let mut pq: Vec<Keyed<Tree>> = Vec::new();
    let n = frequencies.len();
    let mut idx: usize = 0;
    proof {
        broadcast use vstd::multiset::group_multiset_axioms;

        assert(pq@.to_multiset() =~= Multiset::empty()) by {
            broadcast use vstd::seq_lib::group_to_multiset_ensures;

            assert(pq@.to_multiset().len() == 0);
        }
        assert(items_leaves(pq@) =~= table_symbols(fseq.take(0)));
        assert(pq@ =~= Seq::<Keyed<Tree>>::empty());
        assert(pq@ == initial_heap(fseq.take(0)));
    }
    while idx < n
        invariant
            n == fseq.len(),
            fseq == frequencies@,
            wf_freq_table(fseq),
            total_count(fseq) <= usize::MAX,
            idx <= n,
            heap::is_heap(pq@),
            pq@.len() == idx,
            items_leaves(pq@) == table_symbols(fseq.take(idx as int)),
            heap::sum_keys(pq@) == total_count(fseq.take(idx as int)),
            pq@ == initial_heap(fseq.take(idx as int)),
            idx == 1 ==> pq@ =~= seq![Keyed { key: fseq[0].1, value: Tree::Leaf(fseq[0].0) }],
        decreases n - idx,
    {
        let e = frequencies[idx];
        let item = Keyed { key: e.1, value: Tree::Leaf(e.0) };
        let ghost pq0 = pq@;
        heap::insert(&mut pq, item);
        proof {
            broadcast use vstd::seq_lib::group_to_multiset_ensures;
            broadcast use vstd::multiset::group_multiset_axioms;

            assert(pq0.push(item).to_multiset() == pq0.to_multiset().insert(item));
            if idx == 0 {
                assert(pq0.to_multiset().len() == pq0.len());
                assert(pq@.contains(pq@[0])) by {
                    assert(pq@[0] == pq@[0]);
                }
                assert(pq@.to_multiset().count(pq@[0]) > 0);
                assert(pq@[0] == item);
                assert(pq@ =~= seq![item]);
            }
            lemma_items_leaves_permutation(pq@, pq0.push(item));
            assert(pq0.push(item).drop_last() =~= pq0);
            let ghost t1 = fseq.take(idx + 1);
            assert(t1.drop_last() =~= fseq.take(idx as int));
            assert(t1.last() == fseq[idx as int]);
            assert(items_leaves(pq@) =~= table_symbols(t1));
            assert(pq@ == initial_heap(t1));
        }
        idx = idx + 1;
    }
    let ghost h0 = initial_heap(fseq);
    proof {
        assert(fseq.take(n as int) =~= fseq);
        assert(pq@ == h0);
    }
    loop
        invariant
            fseq == frequencies@,
            wf_freq_table(fseq),
            heap::is_heap(pq@),
            items_leaves(pq@) == table_symbols(fseq),
            heap::sum_keys(pq@) == total_count(fseq),
            total_count(fseq) <= usize::MAX,
            fseq.len() == 0 ==> pq@.len() == 0,
            h0 == initial_heap(fseq),
            fseq.len() >= 1 ==> pq@.len() >= 1 && merge_heap(pq@) == merge_heap(h0),
            fseq.len() == 1 ==> pq@ =~= seq![
                Keyed { key: fseq[0].1, value: Tree::Leaf(fseq[0].0) },
            ],
        decreases pq@.len(),
    {
        let ghost pq0 = pq@;
        match heap::pop(&mut pq) {
            Option::None => {
                proof {
                    broadcast use vstd::multiset::group_multiset_axioms;

                    assert(items_leaves(pq@) =~= Multiset::empty());
                    if fseq.len() > 0 {
                        assert(table_symbols(fseq).count(fseq.last().0) > 0);
                    }
                }
                return Result::Err(HuffError::EmptyInput);
            },
            Option::Some(left) => {
                let ghost pq1 = pq@;
                proof {
                    broadcast use vstd::seq_lib::group_to_multiset_ensures;
                    broadcast use vstd::multiset::group_multiset_axioms;

                    assert(pq1.to_multiset() == pq0.to_multiset().remove(left));
                    assert(pq0.remove(0).to_multiset() == pq0.to_multiset().remove(left));
                    lemma_items_leaves_permutation(pq1, pq0.remove(0));
                    lemma_items_leaves_remove(pq0, 0);
                }
                match heap::pop(&mut pq) {
                    Option::None => {
                        proof {
                            broadcast use vstd::multiset::group_multiset_axioms;

                            assert(pq1.len() == 0);
                            assert(items_leaves(pq1) =~= Multiset::empty());
                            assert(left.value.leaves() =~= table_symbols(fseq));
                            lemma_table_symbols_len(fseq);
                            assert forall|sym: u8| #[trigger]
                                left.value.leaves().count(sym) <= 1 by {
                                lemma_table_symbols_count(fseq, sym);
                            }
                            if fseq.len() == 1 {
                                assert(pq0 =~= seq![
                                    Keyed { key: fseq[0].1, value: Tree::Leaf(fseq[0].0) },
                                ]);
                                assert(left == pq0[0]);
                            }
                            assert(pq0.len() == 1);
                            assert(merge_heap(pq0) == pq0[0].value);
                            assert(left.value == merge_heap(h0));
                            assert(merge_heap(initial_heap(fseq)) == merge_heap(h0));
                        }
                        return Result::Ok(left.value);
                    },
                    Option::Some(right) => {
                        let ghost pq2 = pq@;
                        proof {
                            broadcast use vstd::seq_lib::group_to_multiset_ensures;
                            broadcast use vstd::multiset::group_multiset_axioms;

                            assert(pq2.to_multiset() == pq1.to_multiset().remove(right));
                            assert(pq1.remove(0).to_multiset() == pq1.to_multiset().remove(
                                right,
                            ));
                            lemma_items_leaves_permutation(pq2, pq1.remove(0));
                            lemma_items_leaves_remove(pq1, 0);
                            lemma_sum_keys_nonneg(pq2);
                            if fseq.len() == 1 {
                                assert(pq0.to_multiset().len() == 1);
                                assert(false);
                            }
                        }
                        let combined = Keyed {
                            key: left.key + right.key,
                            value: Tree::Branch(Box::new(left.value), Box::new(right.value)),
                        };
                        let ghost pq2b = pq@;
                        heap::insert(&mut pq, combined);
                        proof {
                            broadcast use vstd::seq_lib::group_to_multiset_ensures;
                            broadcast use vstd::multiset::group_multiset_axioms;

                            assert(pq2b.push(combined).to_multiset() == pq2b.to_multiset().insert(
                                combined,
                            ));
                            lemma_items_leaves_permutation(pq@, pq2b.push(combined));
                            assert(pq2b.push(combined).drop_last() =~= pq2b);
                            assert(items_leaves(pq@) =~= table_symbols(fseq));
                            // the exec step mirrors one unfolding of the spec merge
                            assert(pq0.len() >= 2);
                            assert(combined == joined(pq0[0], pq1[0]));
                            assert(pq1 == heap::heap_without(pq0));
                            assert(pq2 == heap::heap_without(pq1));
                            assert(pq@ == heap::heap_with(pq2, joined(pq0[0], pq1[0])));
                            assert(merge_heap(pq0) == merge_heap(pq@));
                        }
                    },
                }
            },
        }
    }
}

/// A complete code table: one codeword per possible symbol value.
pub type Code = Vec<Codeword>;

/// The codeword a generated table assigns to `sym`: the root-to-leaf path,
/// except that the single leaf of a one-leaf tree gets the one-bit word `0`,
/// and absent symbols get the empty codeword.
pub open spec fn code_entry(t: Tree, sym: u8) -> Seq<bool> {
    if t.has_leaf(sym) {
        if t is Leaf {
            seq![false]
        } else {
            t.path_to(sym)
        }
    } else {
        Seq::empty()
    }
}

pub open spec fn wf_code(code: Seq<Codeword>) -> bool {
    &&& code.len() == NUM_SYMBOLS
    &&& forall|s: int| 0 <= s < code.len() ==> (#[trigger] code[s]).wf()
}

/// `code` is the table generated from `t`.
pub open spec fn is_code_of(code: Seq<Codeword>, t: Tree) -> bool {
    &&& wf_code(code)
    &&& forall|sym: u8| (#[trigger] code[sym as int])@ == code_entry(t, sym)
}

/// `a` is a bit-string prefix of `b`.
pub open spec fn is_prefix(a: Seq<bool>, b: Seq<bool>) -> bool {
    a.len() <= b.len() && a == b.take(a.len() as int)
}

/// A well-formed table has at most one entry per symbol value.
pub proof fn lemma_table_len(t: Seq<(u8, usize)>)
    requires
        wf_freq_table(t),
    ensures
        t.len() <= NUM_SYMBOLS,
{
    if t.len() > 256 {
        lemma_sorted_lower(t, 256);
    }
}

proof fn lemma_sorted_lower(t: Seq<(u8, usize)>, k: int)
    requires
        wf_freq_table(t),
        0 <= k < t.len(),
    ensures
        t[k].0 >= k,
    decreases k,
{
    if k > 0 {
        lemma_sorted_lower(t, k - 1);
        assert(t[k - 1].0 < t[k].0);
    }
}

/// In a well-formed tree, the paths of two distinct leaf symbols are never
/// prefixes of one another.
pub proof fn lemma_prefix_free(t: Tree, s1: u8, s2: u8)
    requires
        t.wf(),
        t.has_leaf(s1),
        t.has_leaf(s2),
        s1 != s2,
    ensures
        !is_prefix(t.path_to(s1), t.path_to(s2)),
    decreases t,
{
    broadcast use vstd::multiset::group_multiset_axioms;

    match t {
        Tree::Leaf(_) => {},
        Tree::Branch(l, r) => {
            lemma_has_leaf_count(*l, s1);
            lemma_has_leaf_count(*r, s1);
            lemma_has_leaf_count(*l, s2);
            lemma_has_leaf_count(*r, s2);
            assert(forall|sym: u8| #[trigger]
                l.leaves().count(sym) <= t.leaves().count(sym));
            assert(forall|sym: u8| #[trigger]
                r.leaves().count(sym) <= t.leaves().count(sym));
            let p1 = t.path_to(s1);
            let p2 = t.path_to(s2);
            if l.has_leaf(s1) && l.has_leaf(s2) {
                lemma_prefix_free(*l, s1, s2);
                if is_prefix(p1, p2) {
                    assert(p2.take(p1.len() as int) =~= seq![false] + l.path_to(s2).take(
                        l.path_to(s1).len() as int,
                    ));
                    assert(l.path_to(s1) =~= p1.subrange(1, p1.len() as int));
                    assert(l.path_to(s2).take(l.path_to(s1).len() as int) =~= p2.take(
                        p1.len() as int,
                    ).subrange(1, p1.len() as int));
                    assert(is_prefix(l.path_to(s1), l.path_to(s2)));
                }
            } else if r.has_leaf(s1) && r.has_leaf(s2) {
                lemma_prefix_free(*r, s1, s2);
                if is_prefix(p1, p2) {
                    assert(p2.take(p1.len() as int) =~= seq![true] + r.path_to(s2).take(
                        r.path_to(s1).len() as int,
                    ));
                    assert(r.path_to(s1) =~= p1.subrange(1, p1.len() as int));
                    assert(r.path_to(s2).take(r.path_to(s1).len() as int) =~= p2.take(
                        p1.len() as int,
                    ).subrange(1, p1.len() as int));
                    assert(is_prefix(r.path_to(s1), r.path_to(s2)));
                }
            } else {
                // the two leaves sit under different children: first bits differ
                if is_prefix(p1, p2) {
                    assert(p1[0] == p2.take(p1.len() as int)[0]);
                    assert(p1[0] == p2[0]);
                }
            }
        },
    }
}

/// Prefix-free law for a generated code table: distinct symbols with
/// non-empty codewords never assign one codeword as a prefix of the other.
pub proof fn lemma_code_prefix_free(code: Seq<Codeword>, t: Tree, s1: u8, s2: u8)
    requires
        is_code_of(code, t),
        t.wf(),
        s1 != s2,
        code[s1 as int]@.len() > 0,
        code[s2 as int]@.len() > 0,
    ensures
        !is_prefix(code[s1 as int]@, code[s2 as int]@),
{
    assert(t.has_leaf(s1));
    assert(t.has_leaf(s2));
    match t {
        Tree::Leaf(s) => {
            assert(s == s1 && s == s2);
        },
        Tree::Branch(_, _) => {
            lemma_prefix_free(t, s1, s2);
        },
    }
}

/// Walk the tree depth first, building each leaf's codeword from the path
/// taken: a left edge appends `0`, a right edge `1`. A lone root leaf gets
/// the one-bit codeword `0` so that its occurrences stay visible.
fn explore_tree(code: &mut Code, prefix: &mut Codeword, tree: &Tree)
    requires
        wf_code(old(code)@),
        old(prefix).wf(),
        old(prefix).bit_len + tree.height() <= MAX_CODEWORD_BITS,
        tree.wf(),
    ensures
        wf_code(final(code)@),
        final(prefix).wf(),
        final(prefix)@ == old(prefix)@,
        final(prefix).bit_len == old(prefix).bit_len,
        forall|sym: u8|
            tree.has_leaf(sym) ==> (#[trigger] final(code)@[sym as int])@ == (if old(
                prefix,
            )@.len() == 0 && tree is Leaf {
                seq![false]
            } else {
                old(prefix)@ + tree.path_to(sym)
            }),
        forall|sym: u8|
            !tree.has_leaf(sym) ==> #[trigger] final(code)@[sym as int] == old(code)@[sym as int],
    decreases *tree,
{
    match tree {
        Tree::Branch(left, right) => {
            proof {
                broadcast use vstd::multiset::group_multiset_axioms;

                assert(tree.height() >= 1);
                assert(left.height() < tree.height());
                assert(right.height() < tree.height());
                assert forall|sym: u8| #[trigger] left.leaves().count(sym) <= 1 by {
                    assert(tree.leaves().count(sym) <= 1);
                }
                assert forall|sym: u8| #[trigger] right.leaves().count(sym) <= 1 by {
                    assert(tree.leaves().count(sym) <= 1);
                }
            }
            let ghost p0 = prefix@;
            prefix.push_bit(false);
            explore_tree(code, prefix, left);
            prefix.pop_bit();
            proof {
                assert(prefix@ =~= p0);
            }
            let ghost code1 = code@;
            prefix.push_bit(true);
            explore_tree(code, prefix, right);
            prefix.pop_bit();
            proof {
                broadcast use vstd::multiset::group_multiset_axioms;

                assert(prefix@ =~= p0);
                assert forall|sym: u8|
                    tree.has_leaf(sym) implies (#[trigger] code@[sym as int])@ == p0
                    + tree.path_to(sym) by {
                    lemma_has_leaf_count(**left, sym);
                    lemma_has_leaf_count(**right, sym);
                    assert(tree.leaves().count(sym) == left.leaves().count(sym)
                        + right.leaves().count(sym));
                    if left.has_leaf(sym) {
                        assert(!right.has_leaf(sym));
                        assert(code@[sym as int] == code1[sym as int]);
                        assert(code1[sym as int]@ == (p0 + seq![false]) + left.path_to(sym));
                        assert((p0 + seq![false]) + left.path_to(sym) =~= p0 + (seq![false]
                            + left.path_to(sym)));
                    } else {
                        assert(right.has_leaf(sym));
                        assert(code@[sym as int]@ == (p0 + seq![true]) + right.path_to(sym));
                        assert((p0 + seq![true]) + right.path_to(sym) =~= p0 + (seq![true]
                            + right.path_to(sym)));
                    }
                }
            }
        },
        Tree::Leaf(symbol) => {
            let cw = if prefix.is_empty() {
                let mut one = Codeword::empty();
                one.push_bit(false);
                proof {
                    assert(one@ =~= seq![false]);
                }
                one
            } else {
                prefix.clone()
            };
            let s = *symbol;
            code[s as usize] = cw;
            proof {
                assert(tree.path_to(s) =~= Seq::<bool>::empty());
                assert(prefix@ + tree.path_to(s) =~= prefix@);
            }
        },
    }
}

/// Assign a codeword to every symbol of the tree; symbols absent from the
/// tree keep the empty codeword.
pub fn tree_to_code(tree: &Tree) -> (code: Code)
    requires
        tree.wf(),
        tree.leaves().len() <= NUM_SYMBOLS,
    ensures
        is_code_of(code@, *tree),
{
    let mut code: Code = Vec::new();
    let mut s: usize = 0;
    while s < NUM_SYMBOLS
        invariant
            s <= NUM_SYMBOLS,
            code@.len() == s,
            forall|k: int| 0 <= k < code@.len() ==> (#[trigger] code@[k]).wf(),
            forall|k: int| 0 <= k < code@.len() ==> (#[trigger] code@[k])@ == Seq::<bool>::empty(),
        decreases NUM_SYMBOLS - s,
    {
        code.push(Codeword::empty());
        s = s + 1;
    }
    let mut prefix = Codeword::empty();
    proof {
        lemma_height_lt_leaves(*tree);
    }
    explore_tree(&mut code, &mut prefix, tree);
    code
}

} // verus!
