//! Binary min-heap over keyed items, used as the priority queue during
//! Huffman tree construction.
//!
//! The heap lives in a plain `Vec`; slot `i`'s children sit at `2i + 1` and
//! `2i + 2`. Ordering compares the integer key only, with a non-strict rule:
//! equal keys never swap, so the relative order of equal-key items depends on
//! their positions, not on insertion order.

use vstd::multiset::Multiset;
use vstd::prelude::*;

verus! {

/// A value tagged with an ordering key; the heap compares keys only.
pub struct Keyed<V> {
    pub key: usize,
    pub value: V,
}

/// Index of the parent of the non-root heap slot `i`.
pub open spec fn parent_index(i: int) -> int {
    (i - 1) / 2
}

/// The binary min-heap shape: every non-root slot's key is at least its
/// parent's key.
pub open spec fn is_heap<V>(s: Seq<Keyed<V>>) -> bool {
    forall|i: int| 1 <= i < s.len() ==> s[parent_index(i)].key <= (#[trigger] s[i]).key
}

/// Sum of all keys in the backing sequence.
pub open spec fn sum_keys<V>(s: Seq<Keyed<V>>) -> int
    decreases s.len(),
{
    if s.len() == 0 {
        0
    } else {
        sum_keys(s.drop_last()) + s.last().key
    }
}

/// The backing sequence after the element at slot `i` sifts toward the
/// root: walking up, a slot whose key is strictly smaller than its parent's
/// swaps with it; equal keys do not swap.
pub open spec fn sift_up<V>(s: Seq<Keyed<V>>, i: int) -> Seq<Keyed<V>>
    decreases i,
{
    if i <= 0 {
        s
    } else {
        let p = parent_index(i);
        let s1 = if s[p].key <= s[i].key {
            s
        } else {
            s.update(i, s[p]).update(p, s[i])
        };
        sift_up(s1, p)
    }
}

/// The backing sequence after the element at slot `i` sifts down: at each
/// level the child with the smaller key is chosen, the right child on ties,
/// and a slot whose key is no greater than its chosen child's stops.
pub open spec fn sift_down<V>(s: Seq<Keyed<V>>, i: int) -> Seq<Keyed<V>>
    decreases s.len() - i,
{
    if i < 0 || 2 * i + 1 >= s.len() {
        s
    } else {
        let l = 2 * i + 1;
        let r = 2 * i + 2;
        let c = if r < s.len() && s[r].key <= s[l].key {
            r
        } else {
            l
        };
        if s[i].key <= s[c].key {
            s
        } else {
            sift_down(s.update(i, s[c]).update(c, s[i]), c)
        }
    }
}

/// The heap after an insert: the item is appended and its slot sifts up.
pub open spec fn heap_with<V>(s: Seq<Keyed<V>>, x: Keyed<V>) -> Seq<Keyed<V>> {
    sift_up(s.push(x), s.len() as int)
}

/// The heap after the root is removed: the last element moves to the root
/// slot and sifts down.
pub open spec fn heap_without<V>(s: Seq<Keyed<V>>) -> Seq<Keyed<V>>
    recommends
        s.len() >= 1,
{
    sift_down(s.update(0, s.last()).drop_last(), 0)
}

pub proof fn lemma_sift_up_len<V>(s: Seq<Keyed<V>>, i: int)
    requires
        i < s.len(),
    ensures
        sift_up(s, i).len() == s.len(),
    decreases i,
{
    if i > 0 {
        let p = parent_index(i);
        let s1 = if s[p].key <= s[i].key {
            s
        } else {
            s.update(i, s[p]).update(p, s[i])
        };
        assert(sift_up(s, i) == sift_up(s1, p));
        lemma_sift_up_len(s1, p);
    } else {
        assert(sift_up(s, i) == s);
    }
}

pub proof fn lemma_sift_down_len<V>(s: Seq<Keyed<V>>, i: int)
    ensures
        sift_down(s, i).len() == s.len(),
    decreases s.len() - i,
{
    if !(i < 0 || 2 * i + 1 >= s.len()) {
        let l = 2 * i + 1;
        let r = 2 * i + 2;
        let c = if r < s.len() && s[r].key <= s[l].key {
            r
        } else {
            l
        };
        if !(s[i].key <= s[c].key) {
            lemma_sift_down_len(s.update(i, s[c]).update(c, s[i]), c);
        }
    }
}

/// An insert grows the backing sequence by one slot.
pub proof fn lemma_heap_with_len<V>(s: Seq<Keyed<V>>, x: Keyed<V>)
    ensures
        heap_with(s, x).len() == s.len() + 1,
{
    lemma_sift_up_len(s.push(x), s.len() as int);
}

/// A root removal shrinks the backing sequence by one slot.
pub proof fn lemma_heap_without_len<V>(s: Seq<Keyed<V>>)
    requires
        s.len() >= 1,
    ensures
        heap_without(s).len() == s.len() - 1,
{
    lemma_sift_down_len(s.update(0, s.last()).drop_last(), 0);
}

/// The heap shape, except that slot `xi`'s own key may be smaller than its
/// parent's; if `xi` has a parent, that parent's key still bounds the keys of
/// `xi`'s children. This is the state while an inserted item sifts up.
spec fn heap_except_up<V>(s: Seq<Keyed<V>>, xi: int) -> bool {
    &&& forall|j: int|
        1 <= j < s.len() && j != xi ==> s[parent_index(j)].key <= (#[trigger] s[j]).key
    &&& xi > 0 ==> forall|j: int|
        1 <= j < s.len() && parent_index(j) == xi ==> s[parent_index(xi)].key <= (
        #[trigger] s[j]).key
}

/// The heap shape, except that slot `xi`'s key may exceed its children's;
/// if `xi` has a parent, that parent's key still bounds the keys of `xi`'s
/// children. This is the state while a relocated root sifts down.
spec fn heap_except_down<V>(s: Seq<Keyed<V>>, xi: int) -> bool {
    &&& forall|j: int|
        1 <= j < s.len() && parent_index(j) != xi ==> s[parent_index(j)].key <= (
        #[trigger] s[j]).key
    &&& xi > 0 ==> forall|j: int|
        1 <= j < s.len() && parent_index(j) == xi ==> s[parent_index(xi)].key <= (
        #[trigger] s[j]).key
}

proof fn lemma_sum_keys_update<V>(s: Seq<Keyed<V>>, i: int, x: Keyed<V>)
    requires
        0 <= i < s.len(),
    ensures
        sum_keys(s.update(i, x)) == sum_keys(s) - s[i].key + x.key,
    decreases s.len(),
{
    if i == s.len() - 1 {
        assert(s.update(i, x).drop_last() =~= s.drop_last());
    } else {
        lemma_sum_keys_update(s.drop_last(), i, x);
        assert(s.update(i, x).drop_last() =~= s.drop_last().update(i, x));
    }
}

/// Swapping two slots changes neither the multiset of items, the key sum,
/// nor the length.
proof fn lemma_swap_preserves<V>(s: Seq<Keyed<V>>, i: int, j: int)
    requires
        0 <= i < s.len(),
        0 <= j < s.len(),
        i != j,
    ensures
        s.update(i, s[j]).update(j, s[i]).to_multiset() == s.to_multiset(),
        sum_keys(s.update(i, s[j]).update(j, s[i])) == sum_keys(s),
{
    broadcast use vstd::seq_lib::group_to_multiset_ensures;
    broadcast use vstd::multiset::group_multiset_axioms;

    let s1 = s.update(i, s[j]);
    let s2 = s1.update(j, s[i]);
    lemma_sum_keys_update(s, i, s[j]);
    lemma_sum_keys_update(s1, j, s[i]);
    assert(s1[j] == s[j]);
    assert(s2.to_multiset() =~= s.to_multiset());
}

/// In a heap, the root key is the minimum.
pub proof fn lemma_heap_root_min<V>(s: Seq<Keyed<V>>, i: int)
    requires
        is_heap(s),
        0 <= i < s.len(),
    ensures
        s[0].key <= s[i].key,
    decreases i,
{
    if i > 0 {
        assert(0 <= parent_index(i) < i);
        lemma_heap_root_min(s, parent_index(i));
    }
}

/// Relies on `<[T]>::swap`: exchanges the elements at the two indices,
/// leaving every other element in place.
#[verifier::external_body]
fn vec_swap<T>(v: &mut Vec<T>, i: usize, j: usize)
    requires
        i < old(v).len(),
        j < old(v).len(),
    ensures
        final(v)@ == old(v)@.update(i as int, old(v)@[j as int]).update(
            j as int,
            old(v)@[i as int],
        ),
{
    v.swap(i, j);
}

fn parent(i: usize) -> (r: usize)
    requires
        1 <= i,
    ensures
        r == parent_index(i as int),
{
    (i - 1) / 2
}

fn left_child(i: usize) -> (r: usize)
    requires
        2 * i + 1 <= usize::MAX,
    ensures
        r == 2 * i + 1,
{
    i * 2 + 1
}

fn right_child(i: usize) -> (r: usize)
    requires
        2 * i + 2 <= usize::MAX,
    ensures
        r == 2 * i + 2,
{
    i * 2 + 2
}

/// Append an item and sift it toward the root until its key is no smaller
/// than its parent's; ties do not swap.
pub fn insert<V>(heap: &mut Vec<Keyed<V>>, x: Keyed<V>)
    requires
        is_heap(old(heap)@),
    ensures
        is_heap(final(heap)@),
        final(heap)@ == heap_with(old(heap)@, x),
        final(heap)@.len() == old(heap)@.len() + 1,
        final(heap)@.to_multiset() == old(heap)@.to_multiset().insert(x),
        sum_keys(final(heap)@) == sum_keys(old(heap)@) + x.key,
{
    broadcast use vstd::seq_lib::group_to_multiset_ensures;

    let ghost s0 = heap@;
    let ghost xkey = x.key;
    let mut i = heap.len();
    heap.push(x);
    proof {
        assert(heap@.drop_last() =~= s0);
        assert forall|j: int|
            1 <= j < heap@.len() && parent_index(j) == i as int implies heap@[parent_index(
            i as int,
        )].key <= heap@[j].key by {
            assert(j == 2 * i + 1 || j == 2 * i + 2);
        }
    }
    while i > 0
        invariant
            (i as int) < heap@.len(),
            heap@.len() == s0.len() + 1,
            heap@.to_multiset() == s0.to_multiset().insert(x),
            sum_keys(heap@) == sum_keys(s0) + xkey,
            heap_except_up(heap@, i as int),
            sift_up(heap@, i as int) == heap_with(s0, x),
        decreases i,
    {
        let p = parent(i);
        let ghost s = heap@;
        let ghost ii = i as int;
        let ghost pp = p as int;
        if !(heap[p].key <= heap[i].key) {
            vec_swap(heap, i, p);
            proof {
                assert(sift_up(s, ii) == sift_up(heap@, pp));
                lemma_swap_preserves(s, ii, pp);
                let t = heap@;
                assert forall|j: int|
                    1 <= j < t.len() && j != pp implies t[parent_index(j)].key <= t[j].key by {
                    if j == ii {
                        assert(t[parent_index(j)] == s[ii]);
                        assert(t[j] == s[pp]);
                    } else if parent_index(j) == pp {
                        // sibling of the sifting slot
                        assert(t[j] == s[j]);
                        assert(s[pp].key <= s[j].key);
                        assert(t[parent_index(j)] == s[ii]);
                    } else if parent_index(j) == ii {
                        // child of the sifting slot: bounded by the grandparent rule
                        assert(t[j] == s[j]);
                        assert(s[parent_index(ii)].key <= s[j].key);
                        assert(t[parent_index(j)] == s[pp]);
                    } else {
                        assert(t[j] == s[j]);
                        assert(t[parent_index(j)] == s[parent_index(j)]);
                    }
                }
                assert forall|j: int|
                    pp > 0 && 1 <= j < t.len() && parent_index(j) == pp implies t[parent_index(
                    pp,
                )].key <= t[j].key by {
                    assert(t[parent_index(pp)] == s[parent_index(pp)]);
                    assert(s[parent_index(pp)].key <= s[pp].key);
                    if j == ii {
                        assert(t[j] == s[pp]);
                    } else {
                        assert(t[j] == s[j]);
                        assert(s[pp].key <= s[j].key);
                    }
                }
            }
        } else {
            proof {
                assert(sift_up(s, ii) == sift_up(heap@, pp));
                let t = heap@;
                assert forall|j: int|
                    1 <= j < t.len() && j != pp implies t[parent_index(j)].key <= t[j].key by {
                    if j == ii {
                        assert(parent_index(j) == pp);
                    }
                }
                assert forall|j: int|
                    pp > 0 && 1 <= j < t.len() && parent_index(j) == pp implies t[parent_index(
                    pp,
                )].key <= t[j].key by {
                    assert(t[parent_index(pp)].key <= t[pp].key);
                    if j == ii {
                    } else {
                        assert(t[pp].key <= t[j].key);
                    }
                }
            }
        }
        i = p;
    }
    proof {
        assert(sift_up(heap@, 0) == heap@);
    }
}

/// One sift-down step: swapping a too-large slot with its chosen child
/// keeps the almost-heap shape, the item multiset and the key sum, and
/// leaves the sifted sequence unchanged.
proof fn lemma_sift_down_step<V>(s: Seq<Keyed<V>>, ii: int, nn: int)
    requires
        heap_except_down(s, ii),
        0 <= ii,
        2 * ii + 1 < s.len(),
        nn == (if 2 * ii + 2 < s.len() && s[2 * ii + 2].key <= s[2 * ii + 1].key {
            2 * ii + 2
        } else {
            2 * ii + 1
        }),
        s[ii].key > s[nn].key,
    ensures
        heap_except_down(s.update(ii, s[nn]).update(nn, s[ii]), nn),
        sift_down(s, ii) == sift_down(s.update(ii, s[nn]).update(nn, s[ii]), nn),
        s.update(ii, s[nn]).update(nn, s[ii]).to_multiset() == s.to_multiset(),
        sum_keys(s.update(ii, s[nn]).update(nn, s[ii])) == sum_keys(s),
        s.update(ii, s[nn]).update(nn, s[ii]).len() == s.len(),
{
    assert(parent_index(2 * ii + 1) == ii);
    assert(parent_index(2 * ii + 2) == ii);
    lemma_swap_preserves(s, ii, nn);
    let t = s.update(ii, s[nn]).update(nn, s[ii]);
    assert forall|j: int|
        1 <= j < t.len() && parent_index(j) != nn implies t[parent_index(j)].key <= t[j].key by {
        if j == nn {
            assert(t[parent_index(j)] == s[nn]);
            assert(t[j] == s[ii]);
        } else if parent_index(j) == ii {
            // sibling of the chosen child
            assert(j == 2 * ii + 1 || j == 2 * ii + 2);
            assert(t[j] == s[j]);
            assert(s[nn].key <= s[j].key);
            assert(t[parent_index(j)] == s[nn]);
        } else if j == ii {
            // the sifted slot itself, now holding the old child
            assert(ii >= 1);
            assert(t[j] == s[nn]);
            assert(t[parent_index(j)] == s[parent_index(ii)]);
            assert(s[parent_index(ii)].key <= s[nn].key);
        } else {
            assert(t[j] == s[j]);
            assert(t[parent_index(j)] == s[parent_index(j)]);
        }
    }
    assert forall|j: int|
        nn > 0 && 1 <= j < t.len() && parent_index(j) == nn implies t[parent_index(nn)].key
        <= t[j].key by {
        assert(parent_index(nn) == ii);
        assert(t[parent_index(nn)] == s[nn]);
        assert(t[j] == s[j]);
        assert(parent_index(j) == nn && parent_index(j) != ii);
        assert(s[nn].key <= s[j].key);
    }
}

/// Remove and return the root (a minimum-key item), moving the last item to
/// the root and sifting it down; on ties the right child is preferred, and a
/// slot whose key ties its chosen child's stops sifting.
#[verifier::rlimit(100)]
pub fn pop<V>(heap: &mut Vec<Keyed<V>>) -> (r: Option<Keyed<V>>)
    requires
        is_heap(old(heap)@),
    ensures
        match r {
            Option::None => old(heap)@.len() == 0 && final(heap)@ == old(heap)@,
            Option::Some(m) => {
                &&& old(heap)@.len() > 0
                &&& m == old(heap)@[0]
                &&& is_heap(final(heap)@)
                &&& final(heap)@ == heap_without(old(heap)@)
                &&& final(heap)@.len() == old(heap)@.len() - 1
                &&& final(heap)@.to_multiset() == old(heap)@.to_multiset().remove(m)
                &&& sum_keys(final(heap)@) == sum_keys(old(heap)@) - m.key
                &&& forall|j: int|
                    0 <= j < old(heap)@.len() ==> m.key <= (#[trigger] old(heap)@[j]).key
            },
        },
{
    broadcast use vstd::seq_lib::group_to_multiset_ensures;

    if heap.is_empty() {
        return None;
    }
    let ghost s0 = heap@;
    proof {
        assert forall|j: int| 0 <= j < s0.len() implies s0[0].key <= (#[trigger] s0[j]).key by {
            lemma_heap_root_min(s0, j);
        }
    }
    let item = heap.swap_remove(0);
    proof {
        let u = s0.update(0, s0.last());
        assert(heap@ =~= u.drop_last());
        assert(u.drop_last() =~= u.remove(u.len() - 1));
        lemma_sum_keys_update(s0, 0, s0.last());
        assert(sum_keys(u) == sum_keys(u.drop_last()) + u.last().key);
        assert(heap@.to_multiset() =~= s0.to_multiset().remove(item)) by {
            broadcast use vstd::multiset::group_multiset_axioms;

            assert(u.to_multiset() == s0.to_multiset().insert(s0.last()).remove(s0[0]));
            assert(u.remove(u.len() - 1).to_multiset() == u.to_multiset().remove(
                u[u.len() - 1],
            ));
        }
        assert forall|j: int|
            1 <= j < heap@.len() && parent_index(j) != 0 implies heap@[parent_index(j)].key
            <= heap@[j].key by {
            assert(1 <= parent_index(j));
            assert(heap@[j] == s0[j]);
            assert(heap@[parent_index(j)] == s0[parent_index(j)]);
        }
    }
    let ghost base = heap@;
    let mut i: usize = 0;
    loop
        invariant_except_break
            (i as int) < heap@.len() || heap@.len() == 0,
            heap_except_down(heap@, i as int),
        invariant
            heap@.len() == s0.len() - 1,
            heap@.to_multiset() == s0.to_multiset().remove(item),
            sum_keys(heap@) == sum_keys(s0) - item.key,
            sift_down(heap@, i as int) == sift_down(base, 0),
        ensures
            is_heap(heap@),
            heap@ == sift_down(base, 0),
        decreases heap@.len() - i,
    {
        let n = heap.len();
        if i >= n / 2 {
            proof {
                let t = heap@;
                assert(2 * (i as int) + 1 >= t.len());
                assert(sift_down(t, i as int) == t);
                assert forall|j: int|
                    1 <= j < t.len() && parent_index(j) == i as int implies t[parent_index(
                    j,
                )].key <= (#[trigger] t[j]).key by {
                    assert(j == 2 * (i as int) + 1 || j == 2 * (i as int) + 2);
                    assert(false);
                }
                assert(is_heap(t));
            }
            break ;
        }
        let l = left_child(i);
        let rt = l + 1;
        let next = if rt < n && heap[rt].key <= heap[l].key {
            rt
        } else {
            l
        };
        let ghost s = heap@;
        let ghost ii = i as int;
        let ghost nn = next as int;
        proof {
            assert(parent_index(2 * ii + 1) == ii);
            assert(parent_index(2 * ii + 2) == ii);
        }
        if heap[i].key <= heap[next].key {
            proof {
                assert(sift_down(s, ii) == s);
                let t = heap@;
                assert forall|j: int|
                    1 <= j < t.len() && parent_index(j) == ii implies t[parent_index(j)].key
                    <= (#[trigger] t[j]).key by {
                    assert(j == 2 * ii + 1 || j == 2 * ii + 2);
                    assert(t[nn].key <= t[j].key);
                }
                assert(is_heap(t));
            }
            break ;
        }
        vec_swap(heap, i, next);
        proof {
            lemma_sift_down_step(s, ii, nn);
            assert(heap@ == s.update(ii, s[nn]).update(nn, s[ii]));
        }
        i = next;
    }
    proof {
        assert(base =~= s0.update(0, s0.last()).drop_last());
    }
    Some(item)
}

/// Heap-sort: insert every item, then repeatedly extract a minimum. The
/// result holds exactly the input's multiset of items, with keys in
/// non-decreasing order.
pub fn heap_sort<V>(items: Vec<Keyed<V>>) -> (r: Vec<Keyed<V>>)
    ensures
        r@.to_multiset() == items@.to_multiset(),
        r@.len() == items@.len(),
        forall|a: int, b: int|
            #![trigger r@[a], r@[b]]
            0 <= a <= b < r@.len() ==> r@[a].key <= r@[b].key,
{
    broadcast use vstd::seq_lib::group_to_multiset_ensures;
    broadcast use vstd::multiset::group_multiset_axioms;

    let ghost total = items@.to_multiset();
    let mut items = items;
    let mut heap: Vec<Keyed<V>> = Vec::new();
    proof {
        assert(heap@.to_multiset() =~= Multiset::empty());
    }
    while items.len() > 0
        invariant
            is_heap(heap@),
            heap@.to_multiset().add(items@.to_multiset()) =~= total,
        decreases items@.len(),
    {
        let ghost before = items@;
        let ghost hbefore = heap@;
        let x = match items.pop() {
            Option::Some(x) => x,
            Option::None => vstd::pervasive::unreached(),
        };
        proof {
            broadcast use vstd::seq_lib::group_to_multiset_ensures;
            broadcast use vstd::multiset::group_multiset_axioms;

            assert(before =~= items@.push(x));
            assert(items@.push(x).to_multiset() =~= items@.to_multiset().insert(x));
        }
        insert(&mut heap, x);
        proof {
            broadcast use vstd::seq_lib::group_to_multiset_ensures;
            broadcast use vstd::multiset::group_multiset_axioms;

            assert(heap@.to_multiset().add(items@.to_multiset()) =~= total) by {
                assert(before.to_multiset() == items@.to_multiset().insert(x));
                assert(heap@.to_multiset() == hbefore.to_multiset().insert(x));
            }
        }
    }
    proof {
        assert(items@ =~= Seq::empty());
        assert(items@.to_multiset() =~= Multiset::empty()) by {
            assert forall|e: Keyed<V>| items@.to_multiset().count(e) == 0 by {
                assert(!items@.contains(e));
            }
        }
        assert(heap@.to_multiset() =~= total);
    }
    let mut out: Vec<Keyed<V>> = Vec::new();
    proof {
        assert(out@.to_multiset() =~= Multiset::empty());
    }
    loop
        invariant
            is_heap(heap@),
            out@.to_multiset().add(heap@.to_multiset()) =~= total,
            forall|a: int, b: int|
                #![trigger out@[a], out@[b]]
                0 <= a <= b < out@.len() ==> out@[a].key <= out@[b].key,
            forall|a: int, j: int|
                #![trigger out@[a], heap@[j]]
                0 <= a < out@.len() && 0 <= j < heap@.len() ==> out@[a].key <= heap@[j].key,
        ensures
            out@.to_multiset() == total,
        decreases heap@.len(),
    {
        let ghost h0 = heap@;
        match pop(&mut heap) {
            Option::None => {
                proof {
                    broadcast use vstd::seq_lib::group_to_multiset_ensures;
                    broadcast use vstd::multiset::group_multiset_axioms;

                    assert(heap@ =~= Seq::empty());
                    assert(heap@.to_multiset() =~= Multiset::empty()) by {
                        assert forall|e: Keyed<V>| heap@.to_multiset().count(e) == 0 by {
                            assert(!heap@.contains(e));
                        }
                    }
                    assert(out@.to_multiset() =~= total);
                    assert(out@.len() == out@.to_multiset().len());
                }
                break ;
            },
            Option::Some(m) => {
                proof {
                    broadcast use vstd::seq_lib::group_to_multiset_ensures;
                    broadcast use vstd::multiset::group_multiset_axioms;

                    assert forall|j: int| 0 <= j < heap@.len() implies m.key <= (
                    #[trigger] heap@[j]).key by {
                        assert(heap@.contains(heap@[j]));
                        assert(heap@.to_multiset().count(heap@[j]) > 0);
                        assert(h0.to_multiset().count(heap@[j]) > 0);
                        assert(h0.contains(heap@[j]));
                        let jj = choose|jj: int| 0 <= jj < h0.len() && h0[jj] == heap@[j];
                        assert(m.key <= h0[jj].key);
                    }
                }
                out.push(m);
            },
        }
    }
    proof {
        assert(out@.len() == out@.to_multiset().len());
    }
    out
}

} // verus!
