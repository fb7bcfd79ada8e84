use vstd::multiset::Multiset;
use vstd::prelude::*;

use crate::order::TotalOrder;

verus! {

/// Index of the parent of node `i` in the implicit binary-tree layout
/// of the backing sequence: the children of node `i` sit at indices
/// `2 * i + 1` and `2 * i + 2`.
pub open spec fn parent_index(i: int) -> int {
    (i - 1) / 2
}

/// The min-heap order: every node except the root is greater than or
/// equal to its parent.  Equivalently (see [`lemma_heap_children`]),
/// every node is less than or equal to both of its children.
pub open spec fn is_min_heap<T: TotalOrder>(s: Seq<T>) -> bool {
    forall|i: int| #![trigger s[i]] 1 <= i < s.len() ==> s[parent_index(i)].le(s[i])
}

/// Basic arithmetic facts about `parent_index`.
proof fn lemma_parent_index_bounds(i: int)
    requires
        1 <= i,
    ensures
        0 <= parent_index(i) < i,
        i == 2 * parent_index(i) + 1 || i == 2 * parent_index(i) + 2,
{
    assert(i - 1 == 2 * ((i - 1) / 2) + ((i - 1) % 2)) by (nonlinear_arith);
    assert(0 <= (i - 1) % 2 < 2) by (nonlinear_arith);
}

/// In a min-heap the root is a minimum: it is `le` every element.
pub proof fn lemma_root_is_min<T: TotalOrder>(s: Seq<T>, i: int)
    requires
        is_min_heap(s),
        0 <= i < s.len(),
    ensures
        s[0].le(s[i]),
    decreases i,
{
    if i == 0 {
        T::total(s[0], s[0]);
    } else {
        lemma_parent_index_bounds(i);
        lemma_root_is_min(s, parent_index(i));
        assert(s[parent_index(i)].le(s[i]));
        T::transitive(s[0], s[parent_index(i)], s[i]);
    }
}

/// Heap order stated over child indices: in a min-heap, the value at
/// every index `i` is `le` the values at indices `2 * i + 1` and
/// `2 * i + 2`, whenever those indices are in range.
pub proof fn lemma_heap_children<T: TotalOrder>(s: Seq<T>, i: int)
    requires
        is_min_heap(s),
        0 <= i < s.len(),
    ensures
        2 * i + 1 < s.len() ==> s[i].le(s[2 * i + 1]),
        2 * i + 2 < s.len() ==> s[i].le(s[2 * i + 2]),
{
    if 2 * i + 1 < s.len() {
        lemma_parent_index_bounds(2 * i + 1);
        assert(s[parent_index(2 * i + 1)].le(s[2 * i + 1]));
    }
    if 2 * i + 2 < s.len() {
        lemma_parent_index_bounds(2 * i + 2);
        assert(s[parent_index(2 * i + 2)].le(s[2 * i + 2]));
    }
}

/// Sorted extraction: when `a` is `le` everything in the contents `m`,
/// anything still present after one occurrence of `a` is removed is
/// bounded below by `a`.  Together with the contract of [`Heap::pop`]
/// — which returns a minimum of the contents and leaves the contents
/// minus that minimum — this makes the values returned by successive
/// pops non-decreasing.
pub proof fn lemma_sorted_extraction<T: TotalOrder>(m: Multiset<T>, a: T, b: T)
    requires
        forall|x: T| m.contains(x) ==> a.le(x),
        m.remove(a).contains(b),
    ensures
        a.le(b),
{
    assert(m.count(b) >= m.remove(a).count(b));
    assert(m.contains(b));
}

/// A binary min-heap over a growable array.
///
/// The abstract state is the backing sequence `self@`; a well-formed
/// heap keeps it in min-heap order ([`is_min_heap`]), so the minimum of
/// the contents always sits at index 0.
#[derive(Debug)]
pub struct Heap<T: TotalOrder> {
    data: Vec<T>,
}

impl<T: TotalOrder> Default for Heap<T> {
    /// Returns an empty heap, like [`Heap::new`].
    fn default() -> (r: Self)
        ensures
            r@ == Seq::<T>::empty(),
            r.wf(),
    {
        Heap::new()
    }
}

impl<T: TotalOrder> View for Heap<T> {
    type V = Seq<T>;

    closed spec fn view(&self) -> Seq<T> {
        self.data@
    }
}

impl<T: TotalOrder> Heap<T> {
    /// Well-formedness: the backing sequence is in min-heap order.
    pub open spec fn wf(&self) -> bool {
        is_min_heap(self@)
    }

    /// Returns an empty heap.
    pub fn new() -> (r: Self)
        ensures
            r@ == Seq::<T>::empty(),
            r.wf(),
    {
        Heap { data: Vec::new() }
    }

    /// True when the heap holds no elements.
    pub fn is_empty(&self) -> (r: bool)
        ensures
            r == (self@.len() == 0),
    {
        self.data.len() == 0
    }

    /// The number of elements currently held.
    pub fn len(&self) -> (r: usize)
        ensures
            r == self@.len(),
    {
        self.data.len()
    }
}

/// Min-heap order with one hole: every parent edge holds except
/// possibly the edge into node `h`, and in exchange the parent of `h`
/// is `le` the children of `h`, so that moving the value at `h` one
/// step toward the root keeps every other edge intact.
spec fn heap_except_up<T: TotalOrder>(s: Seq<T>, h: int) -> bool {
    &&& forall|j: int| #![trigger s[j]]
        1 <= j < s.len() && j != h ==> s[parent_index(j)].le(s[j])
    &&& forall|c: int| #![trigger s[c]]
        1 <= c < s.len() && 0 < h && parent_index(c) == h ==> s[parent_index(h)].le(s[c])
}

impl<T: TotalOrder> Heap<T> {
    /// Inserts `item`: appends it at the end of the backing sequence,
    /// then sifts it up until its parent is no greater.
    pub fn push(&mut self, item: T)
        requires
            old(self).wf(),
        ensures
            final(self).wf(),
            final(self)@.len() == old(self)@.len() + 1,
            final(self)@.to_multiset() == old(self)@.to_multiset().insert(item),
    {
        self.data.push(item);
        proof {
            broadcast use vstd::seq_lib::group_to_multiset_ensures;

            let s = self.data@;
            let h = s.len() - 1;
            assert forall|j: int| 1 <= j < s.len() && j != h implies s[parent_index(j)].le(
                s[j],
            ) by {
                lemma_parent_index_bounds(j);
                assert(old(self)@[parent_index(j)].le(old(self)@[j]));
            }
            assert forall|c: int| 1 <= c < s.len() && 0 < h && parent_index(c) == h implies s[
                parent_index(h)].le(s[c]) by {
                lemma_parent_index_bounds(c);
            }
        }
        self.shift_up();
    }

    /// Restores min-heap order after a push by moving the last element
    /// toward the root while its parent is not less than it.
    fn shift_up(&mut self)
        requires
            old(self)@.len() > 0,
            heap_except_up(old(self)@, old(self)@.len() - 1),
        ensures
            final(self)@.len() == old(self)@.len(),
            final(self)@.to_multiset() == old(self)@.to_multiset(),
            is_min_heap(final(self)@),
    {
        let mut i: usize = self.data.len() - 1;
        while i > 0
            invariant
                (i as int) < self.data@.len(),
                self.data@.len() == old(self)@.len(),
                self.data@.to_multiset() == old(self)@.to_multiset(),
                heap_except_up(self.data@, i as int),
            decreases i,
        {
            let parent_idx: usize = (i - 1) / 2;
            proof {
                lemma_parent_index_bounds(i as int);
            }
            if self.data[parent_idx].lt(&self.data[i]) {
                proof {
                    let s = self.data@;
                    T::total(s[parent_idx as int], s[i as int]);
                    assert(is_min_heap(s));
                }
                return;
            }
            let ghost s0 = self.data@;
            let ghost hi = i as int;
            let ghost p = parent_idx as int;
            vec_exchange(&mut self.data, parent_idx, i);
            proof {
                let s1 = self.data@;
                // the comparison came back false: the sifted value is le its parent
                assert(s0[hi].le(s0[p]));
                assert forall|j: int| 1 <= j < s1.len() && j != p implies s1[parent_index(j)].le(
                    s1[j],
                ) by {
                    lemma_parent_index_bounds(j);
                    let pj = parent_index(j);
                    if j == hi {
                        // the swapped edge itself
                    } else if pj == hi {
                        // a child of the old hole: bounded by the old bridge
                        assert(s0[parent_index(hi)].le(s0[j]));
                    } else if pj == p {
                        // the sibling of the old hole
                        assert(s0[pj].le(s0[j]));
                        T::transitive(s0[hi], s0[p], s0[j]);
                    } else {
                        // an edge the swap did not touch
                        assert(s0[pj].le(s0[j]));
                    }
                }
                assert forall|c: int| 1 <= c < s1.len() && 0 < p && parent_index(c) == p implies s1[
                    parent_index(p)].le(s1[c]) by {
                    lemma_parent_index_bounds(c);
                    lemma_parent_index_bounds(p);
                    let pp = parent_index(p);
                    assert(s0[pp].le(s0[p]));
                    if c == hi {
                        // the parent value moved down to the old hole
                    } else {
                        assert(s0[parent_index(c)].le(s0[c]));
                        T::transitive(s0[pp], s0[p], s0[c]);
                    }
                }
                assert(heap_except_up(s1, p));
            }
            i = parent_idx;
        }
    }
}

/// Min-heap order with the edges out of node `h` suspended: every
/// parent edge holds except possibly those from `h` to its children,
/// and in exchange the parent of `h` is `le` the children of `h`, so
/// that moving the value at `h` one step toward the leaves keeps every
/// other edge intact.
spec fn heap_except_down<T: TotalOrder>(s: Seq<T>, h: int) -> bool {
    &&& forall|j: int| #![trigger s[j]]
        1 <= j < s.len() && parent_index(j) != h ==> s[parent_index(j)].le(s[j])
    &&& forall|c: int| #![trigger s[c]]
        1 <= c < s.len() && 0 < h && parent_index(c) == h ==> s[parent_index(h)].le(s[c])
}

/// `c` is the index holding the smallest value among node `i` and its
/// children: `c` is one of them, and its value is `le` each of the
/// others.
spec fn picked_min<T: TotalOrder>(s: Seq<T>, i: int, c: int) -> bool {
    &&& i <= c < s.len()
    &&& c == i || c == 2 * i + 1 || c == 2 * i + 2
    &&& c != i ==> s[c].le(s[i])
    &&& 2 * i + 1 < s.len() && c != 2 * i + 1 ==> s[c].le(s[2 * i + 1])
    &&& 2 * i + 2 < s.len() && c != 2 * i + 2 ==> s[c].le(s[2 * i + 2])
}

/// Returns the index of the smallest value among node `i` and its
/// children (when they exist), preferring `i` itself on ties with the
/// left child and the left child on ties with the right.
fn pick_smallest<T: TotalOrder>(v: &Vec<T>, i: usize) -> (c: usize)
    requires
        i < v@.len(),
    ensures
        picked_min(v@, i as int, c as int),
{
    let len: usize = v.len();
    let mut c: usize = i;
    if i < len / 2 {
        let l: usize = i * 2 + 1;
        if v[l].lt(&v[i]) {
            proof {
                T::total(v@[l as int], v@[i as int]);
            }
            c = l;
        }
        let r: usize = l + 1;
        if r < len {
            if v[r].lt(&v[c]) {
                proof {
                    T::total(v@[r as int], v@[c as int]);
                    if c == i {
                        // the left child was not smaller, so chain through `i`
                        T::transitive(v@[r as int], v@[i as int], v@[l as int]);
                    } else {
                        T::transitive(v@[r as int], v@[l as int], v@[i as int]);
                    }
                }
                c = r;
            }
        }
    } else {
        proof {
            assert(len as int == 2 * (len as int / 2) + (len as int % 2));
            assert(2 * (i as int) + 1 >= len as int);
        }
    }
    c
}

/// Removing the root by a swap with the last element preserves the
/// rest of the contents: the resulting sequence holds the old multiset
/// with one occurrence of the old root taken out.
proof fn lemma_swap_remove_root_multiset<T>(s: Seq<T>)
    requires
        s.len() > 0,
    ensures
        s.update(0, s.last()).drop_last().to_multiset() == s.to_multiset().remove(s[0]),
{
    broadcast use vstd::seq_lib::group_to_multiset_ensures;

    let u = s.update(0, s.last());
    assert(u.drop_last() =~= u.remove(u.len() - 1));
    assert(u[u.len() - 1] == s.last());
    assert(s.contains(s[0]));
    assert(s.contains(s.last()));
    assert(u.remove(u.len() - 1).to_multiset() == u.to_multiset().remove(s.last()));
    assert(u.to_multiset() =~= s.to_multiset().insert(s.last()).remove(s[0]));
    assert(u.to_multiset().remove(s.last()) =~= s.to_multiset().remove(s[0]));
}

/// Every element of a min-heap's contents is bounded below by the
/// root.
pub proof fn lemma_root_min_of_contents<T: TotalOrder>(s: Seq<T>)
    requires
        is_min_heap(s),
        s.len() > 0,
    ensures
        forall|x: T| s.to_multiset().contains(x) ==> s[0].le(x),
{
    broadcast use vstd::seq_lib::group_to_multiset_ensures;

    assert forall|x: T| s.to_multiset().contains(x) implies s[0].le(x) by {
        assert(s.contains(x));
        let i = choose|i: int| 0 <= i < s.len() && s[i] == x;
        lemma_root_is_min(s, i);
    }
}

impl<T: TotalOrder> Heap<T> {
    /// Removes and returns the minimum element, or `None` when the
    /// heap is empty, which leaves the heap unchanged.  The root is
    /// swap-removed (the last element takes its place) and the new
    /// root is sifted down until no child is smaller.
    pub fn pop(&mut self) -> (r: Option<T>)
        requires
            old(self).wf(),
        ensures
            final(self).wf(),
            old(self)@.len() == 0 ==> r is None && final(self)@ == old(self)@,
            old(self)@.len() > 0 ==> {
                &&& r == Some(old(self)@[0])
                &&& old(self)@.to_multiset().contains(old(self)@[0])
                &&& forall|x: T| old(self)@.to_multiset().contains(x) ==> old(self)@[0].le(x)
                &&& final(self)@.len() == old(self)@.len() - 1
                &&& final(self)@.to_multiset() == old(self)@.to_multiset().remove(old(self)@[0])
            },
    {
        match self.data.len() {
            0 => None,
            _ => {
                let ghost s0 = self.data@;
                let result = self.data.swap_remove(0);
                proof {
                    broadcast use vstd::seq_lib::group_to_multiset_ensures;

                    lemma_swap_remove_root_multiset(s0);
                    lemma_root_min_of_contents(s0);
                    assert(s0.contains(s0[0]));
                    let s1 = self.data@;
                    assert forall|j: int| 1 <= j < s1.len() && parent_index(j) != 0 implies s1[
                        parent_index(j)].le(s1[j]) by {
                        lemma_parent_index_bounds(j);
                        assert(s0[parent_index(j)].le(s0[j]));
                    }
                    assert(heap_except_down(s1, 0));
                }
                self.shift_down();
                Some(result)
            },
        }
    }

    /// Restores min-heap order after a pop by moving the root toward
    /// the leaves while some child is smaller.
    fn shift_down(&mut self)
        requires
            heap_except_down(old(self)@, 0),
        ensures
            final(self)@.len() == old(self)@.len(),
            final(self)@.to_multiset() == old(self)@.to_multiset(),
            is_min_heap(final(self)@),
    {
        let mut i: usize = 0;
        let len: usize = self.data.len();
        while i < len
            invariant
                len == self.data@.len(),
                self.data@.len() == old(self)@.len(),
                self.data@.to_multiset() == old(self)@.to_multiset(),
                heap_except_down(self.data@, i as int),
            decreases len - i,
        {
            let swap_idx: usize = pick_smallest(&self.data, i);
            if swap_idx == i {
                proof {
                    let s = self.data@;
                    assert forall|j: int| 1 <= j < s.len() implies s[parent_index(j)].le(s[j]) by {
                        lemma_parent_index_bounds(j);
                    }
                }
                return;
            }
            let ghost s0 = self.data@;
            let ghost hi = i as int;
            let ghost c = swap_idx as int;
            vec_exchange(&mut self.data, swap_idx, i);
            proof {
                let s1 = self.data@;
                assert forall|j: int| 1 <= j < s1.len() && parent_index(j) != c implies s1[
                    parent_index(j)].le(s1[j]) by {
                    lemma_parent_index_bounds(j);
                    let pj = parent_index(j);
                    if j == c {
                        // the swapped edge itself: the chosen child was smallest
                    } else if j == hi {
                        // the old hole's parent edge: bounded by the old bridge
                        lemma_parent_index_bounds(c);
                        assert(s0[parent_index(hi)].le(s0[c]));
                    } else if pj == hi {
                        // the sibling of the chosen child
                        assert(s0[c].le(s0[j]));
                    } else {
                        // an edge the swap did not touch
                        assert(s0[pj].le(s0[j]));
                    }
                }
                assert forall|g: int| 1 <= g < s1.len() && 0 < c && parent_index(g) == c implies s1[
                    parent_index(c)].le(s1[g]) by {
                    lemma_parent_index_bounds(g);
                    assert(s0[parent_index(g)].le(s0[g]));
                }
                assert(heap_except_down(s1, c));
            }
            i = swap_idx;
        }
        proof {
            let s = self.data@;
            assert forall|j: int| 1 <= j < s.len() implies s[parent_index(j)].le(s[j]) by {
                lemma_parent_index_bounds(j);
            }
        }
    }
}

/// Exchanges the elements at `k` and at the last index, by removing at
/// `k` (which moves the last element into `k`) and appending the
/// removed element.
fn swap_with_last<T>(v: &mut Vec<T>, k: usize)
    requires
        old(v).len() > 0,
        k < old(v).len(),
    ensures
        final(v)@ == old(v)@.update(k as int, old(v)@.last()).update(
            old(v)@.len() - 1,
            old(v)@[k as int],
        ),
{
    let x = v.swap_remove(k);
    v.push(x);
    proof {
        assert(v@ =~= old(v)@.update(k as int, old(v)@.last()).update(
            old(v)@.len() - 1,
            old(v)@[k as int],
        ));
    }
}

/// Exchanges the elements at indices `i` and `j`; the contents are
/// unchanged as a multiset.
fn vec_exchange<T>(v: &mut Vec<T>, i: usize, j: usize)
    requires
        i < old(v).len(),
        j < old(v).len(),
    ensures
        final(v)@ == old(v)@.update(i as int, old(v)@[j as int]).update(j as int, old(v)@[i as int]),
        final(v)@.len() == old(v)@.len(),
        final(v)@.to_multiset() == old(v)@.to_multiset(),
{
    let ghost target = old(v)@.update(i as int, old(v)@[j as int]).update(
        j as int,
        old(v)@[i as int],
    );
    let last: usize = v.len() - 1;
    if i == j {
    } else if j == last {
        swap_with_last(v, i);
    } else if i == last {
        swap_with_last(v, j);
    } else {
        swap_with_last(v, i);
        swap_with_last(v, j);
        swap_with_last(v, i);
    }
    proof {
        assert(v@ =~= target);
        broadcast use vstd::seq_lib::group_to_multiset_ensures;

        assert(old(v)@.contains(old(v)@[i as int]));
        assert(old(v)@.contains(old(v)@[j as int]));
        assert(v@.to_multiset() =~= old(v)@.to_multiset());
    }
}

} // verus!
