//! An array-backed binary heap over `i64` that can act as a max-heap or a
//! min-heap, chosen at construction time.
//!
//! The elements are stored in level order: the children of the node at index
//! `i` sit at `2 * i + 1` and `2 * i + 2`, its parent at `(i - 1) / 2`.

use vstd::prelude::*;

verus! {

/// Which extreme the heap keeps at its root.
enum HeapDirection {
    MAX,
    MIN,
}

/// `a` is at least as extreme as `b`: `a >= b` for a max-heap,
/// `a <= b` for a min-heap.
pub open spec fn dominates(min: bool, a: i64, b: i64) -> bool {
    if min {
        a <= b
    } else {
        a >= b
    }
}

/// `a` is strictly more extreme than `b`: `a > b` for a max-heap,
/// `a < b` for a min-heap.
pub open spec fn strictly_beats(min: bool, a: i64, b: i64) -> bool {
    if min {
        a < b
    } else {
        a > b
    }
}

/// Index of the parent of the node at index `i` in the level-order layout.
pub open spec fn parent_index(i: int) -> int {
    (i - 1) / 2
}

/// The heap property: every non-root node is dominated by its parent.
pub open spec fn heap_ordered(min: bool, s: Seq<i64>) -> bool {
    forall|j: int| 1 <= j < s.len() ==> dominates(min, s[parent_index(j)], #[trigger] s[j])
}

/// The heap property everywhere except on the links from `xcl` down to its
/// children: the node at `xcl` may be less extreme than its children.
pub open spec fn heap_ordered_except_below(min: bool, s: Seq<i64>, xcl: int) -> bool {
    forall|j: int|
        1 <= j < s.len() && parent_index(j) != xcl ==> dominates(
            min,
            s[parent_index(j)],
            #[trigger] s[j],
        )
}

/// The heap property everywhere except on the link from the parent of `xcl`
/// down to `xcl`: the node at `xcl` may be more extreme than its parent.
pub open spec fn heap_ordered_except_at(min: bool, s: Seq<i64>, xcl: int) -> bool {
    forall|j: int|
        1 <= j < s.len() && j != xcl ==> dominates(min, s[parent_index(j)], #[trigger] s[j])
}

/// The children of `xcl` are dominated by the parent of `xcl` (vacuous when
/// `xcl` is the root). Together with [`heap_ordered_except_below`] this is
/// what a sift-down starting at `xcl` needs in order to restore the full
/// heap property.
pub open spec fn children_below_grandparent(min: bool, s: Seq<i64>, xcl: int) -> bool {
    xcl > 0 ==> forall|j: int|
        1 <= j < s.len() && parent_index(j) == xcl ==> dominates(
            min,
            s[parent_index(xcl)],
            #[trigger] s[j],
        )
}

/// The stored sequence as it stands right after a removal of the root has
/// moved the last element into the root slot and dropped the last slot, but
/// before the new root has been sifted down.
pub open spec fn after_root_removal(s: Seq<i64>) -> Seq<i64> {
    s.update(0, s.last()).drop_last()
}

/// The sequence with the elements at `a` and `b` exchanged.
pub open spec fn seq_swap(s: Seq<i64>, a: int, b: int) -> Seq<i64> {
    s.update(a, s[b]).update(b, s[a])
}

/// One full sift-up walk: the element at `i` trades places with its parent
/// for as long as it is strictly more extreme than that parent. This is
/// exactly the walk that `push` performs on the freshly appended element.
pub open spec fn sift_up(min: bool, s: Seq<i64>, i: int) -> Seq<i64>
    decreases i,
{
    if 1 <= i && strictly_beats(min, s[i], s[parent_index(i)]) {
        sift_up(min, seq_swap(s, i, parent_index(i)), parent_index(i))
    } else {
        s
    }
}

/// One full sift-down walk from `idx`: the node trades places with its most
/// extreme child for as long as such a child is strictly more extreme than
/// it. The left child is compared against the node first, then the right
/// child against the current winner. This is exactly the walk that
/// `heapify` performs.
pub open spec fn sift_down(min: bool, s: Seq<i64>, idx: int) -> Seq<i64>
    decreases s.len() - idx,
{
    let left = 2 * idx + 1;
    let right = 2 * idx + 2;
    let e1 = if left < s.len() && strictly_beats(min, s[left], s[idx]) {
        left
    } else {
        idx
    };
    let e2 = if right < s.len() && strictly_beats(min, s[right], s[e1]) {
        right
    } else {
        e1
    };
    if 0 <= idx && e2 != idx {
        sift_down(min, seq_swap(s, idx, e2), e2)
    } else {
        s
    }
}

/// An array-backed binary heap. Depending on the direction chosen at
/// construction it keeps the greatest (max-heap) or the smallest (min-heap)
/// element at the root.
pub struct BinaryHeap {
    data: Vec<i64>,
    _mode: HeapDirection,
}

impl View for BinaryHeap {
    type V = Seq<i64>;

    closed spec fn view(&self) -> Seq<i64> {
        self.data@
    }
}

impl BinaryHeap {
    /// True when the heap keeps the smallest element at the root.
    pub closed spec fn is_min(&self) -> bool {
        self._mode is MIN
    }

    /// The heap property for this heap's direction.
    pub open spec fn well_formed(&self) -> bool {
        heap_ordered(self.is_min(), self@)
    }

    /// Create an empty `BinaryHeap` as max-heap.
    pub fn new() -> (h: Self)
        ensures
            h@ == Seq::<i64>::empty(),
            !h.is_min(),
            h.well_formed(),
    {
        BinaryHeap { data: Vec::new(), _mode: HeapDirection::MAX }
    }

    /// Create an empty `BinaryHeap` as min-heap.
    pub fn min_heap() -> (h: Self)
        ensures
            h@ == Seq::<i64>::empty(),
            h.is_min(),
            h.well_formed(),
    {
        BinaryHeap { data: Vec::new(), _mode: HeapDirection::MIN }
    }

    /// Create an empty `BinaryHeap` as max-heap.
    pub fn max_heap() -> (h: Self)
        ensures
            h@ == Seq::<i64>::empty(),
            !h.is_min(),
            h.well_formed(),
    {
        BinaryHeap { data: Vec::new(), _mode: HeapDirection::MAX }
    }

    /// Returns the index to the parent of the given node index.
    pub fn parent(i: usize) -> (p: usize)
        requires
            i >= 1,
        ensures
            p == parent_index(i as int),
    {
        (i - 1) / 2
    }

    /// Returns the left child index of the given node index.
    fn left(idx: usize) -> (l: usize)
        requires
            2 * idx + 1 <= usize::MAX,
        ensures
            l == 2 * idx + 1,
    {
        2 * idx + 1
    }

    /// Returns the right child index of the given node index.
    fn right(idx: usize) -> (r: usize)
        requires
            2 * idx + 2 <= usize::MAX,
        ensures
            r == 2 * idx + 2,
    {
        2 * idx + 2
    }

    /// Swap the elements at indices `a` and `b`.
    fn swap_data(&mut self, a: usize, b: usize)
        requires
            a < old(self)@.len(),
            b < old(self)@.len(),
        ensures
            final(self).is_min() == old(self).is_min(),
            final(self)@ == seq_swap(old(self)@, a as int, b as int),
            final(self)@.len() == old(self)@.len(),
            final(self)@.to_multiset() == old(self)@.to_multiset(),
    {
        let ghost s0 = self.data@;
        let x: i64 = self.data[a];
        let y: i64 = self.data[b];
        self.data.set(a, y);
        self.data.set(b, x);
        proof {
            broadcast use vstd::seq_lib::group_to_multiset_ensures;

            let t = s0.update(a as int, s0[b as int]).update(b as int, s0[a as int]);
            if a == b {
                assert(t =~= s0);
                assert(t.to_multiset() == s0.to_multiset());
            } else {
                assert(s0.to_multiset().contains(s0[a as int]));
                assert(s0.to_multiset().insert(s0[b as int]).contains(s0[a as int]));
                assert(t.to_multiset() =~= s0.to_multiset());
            }
        }
    }

    /// Insert an item into the heap: the item is appended at the end of the
    /// storage and then sifted up towards the root while it is more extreme
    /// than its parent.
    ///
    /// The new storage is exactly the old storage with `item` appended and
    /// sifted up ([`sift_up`]); in particular the direction is kept, the
    /// length grows by one, and the stored multiset gains exactly `item`.
    /// When the heap order held on entry it holds again on return.
    pub fn push(&mut self, item: i64)
        ensures
            final(self).is_min() == old(self).is_min(),
            final(self)@ == sift_up(
                old(self).is_min(),
                old(self)@.push(item),
                old(self)@.len() as int,
            ),
            final(self)@.len() == old(self)@.len() + 1,
            final(self)@.to_multiset() == old(self)@.to_multiset().insert(item),
            old(self).well_formed() ==> final(self).well_formed(),
    {
        let ghost m = self.is_min();
        let ghost s0 = self@;
        let ghost entry_ok = heap_ordered(m, s0);
        self.data.push(item);
        proof {
            broadcast use vstd::seq_lib::group_to_multiset_ensures;

            if entry_ok {
                assert(heap_ordered_except_at(m, self@, s0.len() as int)) by {
                    assert forall|j: int|
                        1 <= j < self@.len() && j != s0.len() as int implies dominates(
                        m,
                        self@[parent_index(j)],
                        #[trigger] self@[j],
                    ) by {
                        assert(self@[j] == s0[j]);
                        assert(self@[parent_index(j)] == s0[parent_index(j)]);
                        assert(dominates(m, s0[parent_index(j)], s0[j]));
                    }
                }
                assert(children_below_grandparent(m, self@, s0.len() as int));
            }
        }
        let mut i: usize = self.data.len() - 1;
        while i != 0 && self.check_order(i, Self::parent(i))
            invariant
                self.is_min() == m,
                i < self@.len(),
                self@.len() == s0.len() + 1,
                sift_up(m, self@, i as int) == sift_up(m, s0.push(item), s0.len() as int),
                entry_ok ==> heap_ordered_except_at(m, self@, i as int),
                entry_ok ==> children_below_grandparent(m, self@, i as int),
                self@.to_multiset() == s0.to_multiset().insert(item),
            decreases i,
        {
            let p: usize = Self::parent(i);
            let ghost before = self@;
            proof {
                if entry_ok {
                    lemma_sift_up_step(m, self@, i as int);
                }
            }
            self.swap_data(i, p);
            proof {
                assert(sift_up(m, before, i as int) == sift_up(m, self@, p as int));
            }
            i = p;
        }
        proof {
            assert(sift_up(m, self@, i as int) == self@);
            if entry_ok {
                if i == 0 {
                    assert(heap_ordered(m, self@));
                } else {
                    assert(dominates(m, self@[parent_index(i as int)], self@[i as int]));
                    assert(heap_ordered(m, self@));
                }
            }
        }
    }

    /// Remove the greatest/smallest item from the binary heap
    /// depending on the selected heap, max-heap or min-heap, or `None` if
    /// empty.
    ///
    /// The root element is returned and taken out of the stored multiset.
    /// When the heap order held on entry it holds again on return; the same
    /// is promised whenever the order would hold everywhere below the root
    /// once the last element has moved into the root slot, which is what a
    /// removal through an arbitrary-index `delete` leaves behind.
    pub fn pop(&mut self) -> (r: Option<i64>)
        ensures
            final(self).is_min() == old(self).is_min(),
            old(self)@.len() == 0 ==> r is None && final(self)@ == old(self)@,
            old(self)@.len() > 0 ==> (r matches Some(x) && x == old(self)@[0]
                && final(self)@ == sift_down(
                old(self).is_min(),
                after_root_removal(old(self)@),
                0,
            ) && final(self)@.len() == old(self)@.len() - 1
                && final(self)@.to_multiset() == old(self)@.to_multiset().remove(old(self)@[0])),
            old(self)@.len() > 0 && heap_ordered_except_below(
                old(self).is_min(),
                after_root_removal(old(self)@),
                0,
            ) ==> final(self).well_formed(),
            old(self).well_formed() ==> final(self).well_formed(),
    {
        let ghost m = self.is_min();
        let ghost s0 = self@;
        if self.is_empty() {
            return None;
        }
        if self.data.len() == 1 {
            let r: Option<i64> = self.data.pop();
            proof {
                broadcast use vstd::seq_lib::group_to_multiset_ensures;

                assert(self@ =~= s0.remove(0));
                assert(s0.remove(0).to_multiset() == s0.to_multiset().remove(s0[0]));
                assert(self@ =~= after_root_removal(s0));
                assert(sift_down(m, after_root_removal(s0), 0) == after_root_removal(s0));
            }
            return r;
        }
        let size: usize = self.data.len() - 1;
        self.swap_data(0, size);
        let root: Option<i64> = self.data.pop();
        proof {
            broadcast use vstd::seq_lib::group_to_multiset_ensures;

            let s1 = self@;
            let sw = s0.update(0, s0[size as int]).update(size as int, s0[0]);
            assert(s1 =~= sw.remove(size as int));
            assert(sw.remove(size as int).to_multiset() == sw.to_multiset().remove(
                sw[size as int],
            ));
            assert(s1.to_multiset() == s0.to_multiset().remove(s0[0]));
            assert(s1 =~= after_root_removal(s0));
            if heap_ordered(m, s0) {
                assert forall|j: int|
                    1 <= j < s1.len() && parent_index(j) != 0 implies dominates(
                    m,
                    s1[parent_index(j)],
                    #[trigger] s1[j],
                ) by {
                    assert(s1[j] == s0[j]);
                    assert(s1[parent_index(j)] == s0[parent_index(j)]);
                    assert(dominates(m, s0[parent_index(j)], s0[j]));
                }
                assert(heap_ordered_except_below(m, s1, 0));
            }
            assert(children_below_grandparent(m, s1, 0));
        }
        self.heapify(0);
        root
    }

    /// Removes the item at the given index and returns it; `None` when the
    /// heap is empty or `idx` is out of bounds, in which case nothing
    /// changes.
    ///
    /// The element at `idx` is swapped into the root slot first and the
    /// removal then follows the same path as [`BinaryHeap::pop`]. For `idx`
    /// at the root, at one of its children, or at the very last slot this
    /// restores the heap order; for any other `idx` the former root is
    /// parked below its grandparent's level and the heap order is not
    /// guaranteed to survive, which is why the well-formedness clause below
    /// is limited to those indices.
    pub fn delete(&mut self, idx: usize) -> (r: Option<i64>)
        ensures
            final(self).is_min() == old(self).is_min(),
            idx >= old(self)@.len() ==> r is None && final(self)@ == old(self)@,
            idx < old(self)@.len() ==> (r matches Some(x) && x == old(self)@[idx as int]
                && final(self)@ == sift_down(
                old(self).is_min(),
                after_root_removal(seq_swap(old(self)@, 0, idx as int)),
                0,
            ) && final(self)@.len() == old(self)@.len() - 1
                && final(self)@.to_multiset() == old(self)@.to_multiset().remove(
                old(self)@[idx as int])),
            old(self).well_formed() && (idx <= 2 || idx as int == old(self)@.len() - 1)
                ==> final(self).well_formed(),
    {
        let ghost m = self.is_min();
        let ghost s0 = self@;
        if self.is_empty() || idx >= self.len() {
            return None;
        }
        self.swap_data(0, idx);
        proof {
            if heap_ordered(m, s0) && (idx <= 2 || idx as int == s0.len() - 1) {
                let s1 = self@;
                let t = after_root_removal(s1);
                assert forall|j: int|
                    1 <= j < t.len() && parent_index(j) != 0 implies dominates(
                    m,
                    t[parent_index(j)],
                    #[trigger] t[j],
                ) by {
                    let pj = parent_index(j);
                    assert(j != idx as int);
                    assert(t[j] == s1[j] && s1[j] == s0[j]);
                    assert(t[pj] == s1[pj]);
                    if pj == idx as int {
                        assert(s1[pj] == s0[0]);
                        lemma_root_extreme(m, s0, j);
                    } else {
                        assert(s1[pj] == s0[pj]);
                        assert(dominates(m, s0[pj], s0[j]));
                    }
                }
                assert(heap_ordered_except_below(m, t, 0));
            }
        }
        self.pop()
    }

    /// Checks and repairs the subtree at a given index: the node at `idx` is
    /// sifted down until neither of its children is more extreme than it.
    ///
    /// The new storage is exactly the old storage sifted down from `idx`
    /// ([`sift_down`]); in particular the length, the direction and the
    /// multiset of stored elements are always preserved. When on entry the
    /// heap order holds everywhere except possibly on the links from `idx`
    /// down to its children — and the children of `idx` are still dominated
    /// by the parent of `idx` — the heap order holds everywhere afterwards.
    pub fn heapify(&mut self, idx: usize)
        ensures
            final(self).is_min() == old(self).is_min(),
            final(self)@ == sift_down(old(self).is_min(), old(self)@, idx as int),
            final(self)@.len() == old(self)@.len(),
            final(self)@.to_multiset() == old(self)@.to_multiset(),
            forall|j: int|
                0 <= j < old(self)@.len() && !in_subtree(idx as int, j) ==> final(self)@[j]
                    == #[trigger] old(self)@[j],
            subtree_ordered(old(self).is_min(), old(self)@, 2 * (idx as int) + 1)
                && subtree_ordered(old(self).is_min(), old(self)@, 2 * (idx as int) + 2)
                ==> subtree_ordered(final(self).is_min(), final(self)@, idx as int),
            subtree_ordered(old(self).is_min(), old(self)@, idx as int)
                ==> final(self)@ == old(self)@,
            heap_ordered_except_below(old(self).is_min(), old(self)@, idx as int)
                && children_below_grandparent(old(self).is_min(), old(self)@, idx as int)
                ==> final(self).well_formed(),
        decreases old(self)@.len() - idx,
    {
        let ghost m = self.is_min();
        let ghost s0 = self@;
        let ghost entry_ok = heap_ordered_except_below(m, s0, idx as int)
            && children_below_grandparent(m, s0, idx as int);
        proof {
            lemma_sift_down_frame(m, s0, idx as int);
            if subtree_ordered(m, s0, 2 * (idx as int) + 1) && subtree_ordered(
                m,
                s0,
                2 * (idx as int) + 2,
            ) {
                lemma_sift_down_local(m, s0, idx as int);
            }
            if subtree_ordered(m, s0, idx as int) {
                lemma_sift_down_no_op(m, s0, idx as int);
            }
        }
        let len: usize = self.data.len();
        if len == 1 {
            proof {
                assert(sift_down(m, s0, idx as int) == s0);
            }
            return;
        }
        let mut edge_idx: usize = idx;
        if idx < len / 2 {
            let left: usize = Self::left(idx);
            if self.check_order(left, idx) {
                edge_idx = left;
            }
            let right: usize = Self::right(idx);
            if right < len && self.check_order(right, edge_idx) {
                edge_idx = right;
            }
        }
        if edge_idx != idx {
            proof {
                assert(sift_down(m, s0, idx as int) == sift_down(
                    m,
                    seq_swap(s0, idx as int, edge_idx as int),
                    edge_idx as int,
                ));
                if entry_ok {
                    lemma_sift_down_step(m, s0, idx as int, edge_idx as int);
                }
            }
            self.swap_data(idx, edge_idx);
            self.heapify(edge_idx);
        } else {
            proof {
                assert(sift_down(m, s0, idx as int) == s0);
                if entry_ok {
                    lemma_sift_down_done(m, s0, idx as int);
                }
            }
        }
    }

    /// Checks whether the element at `left_idx` is strictly more extreme than
    /// the element at `right_idx` under the heap's direction.
    pub fn check_order(&self, left_idx: usize, right_idx: usize) -> (r: bool)
        requires
            left_idx < self@.len(),
            right_idx < self@.len(),
        ensures
            r == strictly_beats(self.is_min(), self@[left_idx as int], self@[right_idx as int]),
    {
        match self._mode {
            HeapDirection::MAX => self.data[left_idx] > self.data[right_idx],
            HeapDirection::MIN => self.data[left_idx] < self.data[right_idx],
        }
    }

    /// Returns a reference to the top element of the heap: in an ordered
    /// heap that is the most extreme element currently stored.
    pub fn peek(&self) -> (r: Option<&i64>)
        ensures
            self@.len() == 0 ==> r is None,
            self@.len() > 0 ==> (r matches Some(x) && *x == self@[0]),
            self.well_formed() ==> forall|i: int|
                0 <= i < self@.len() ==> dominates(self.is_min(), self@[0], #[trigger] self@[i]),
    {
        proof {
            if self.well_formed() {
                assert forall|i: int| 0 <= i < self@.len() implies dominates(
                    self.is_min(),
                    self@[0],
                    #[trigger] self@[i],
                ) by {
                    lemma_root_extreme(self.is_min(), self@, i);
                }
            }
        }
        if self.data.len() == 0 {
            None
        } else {
            Some(&self.data[0])
        }
    }

    /// The number of elements in the heap.
    pub fn len(&self) -> (n: usize)
        ensures
            n == self@.len(),
    {
        self.data.len()
    }

    /// True when the heap holds no element.
    pub fn is_empty(&self) -> (r: bool)
        ensures
            r == (self@.len() == 0),
    {
        self.len() == 0
    }
}

/// `j` lies in the subtree rooted at `root` in the level-order layout.
pub open spec fn in_subtree(root: int, j: int) -> bool
    decreases j,
{
    if root < 0 || j < root {
        false
    } else if j == root {
        true
    } else {
        in_subtree(root, parent_index(j))
    }
}

/// The heap order restricted to the subtree rooted at `root`: every node of
/// that subtree other than its root is dominated by its parent.
pub open spec fn subtree_ordered(min: bool, s: Seq<i64>, root: int) -> bool {
    forall|j: int|
        1 <= j < s.len() && j != root && in_subtree(root, j) ==> dominates(
            min,
            s[parent_index(j)],
            #[trigger] s[j],
        )
}

/// A subtree's root is nonnegative and no member lies before it.
proof fn lemma_subtree_member_bounds(root: int, j: int)
    requires
        in_subtree(root, j),
    ensures
        0 <= root <= j,
{
}

/// Subtree membership is transitive along nesting: a member of a subtree
/// whose root is itself a member of a larger subtree belongs to the larger
/// one.
proof fn lemma_subtree_trans(r: int, c: int, j: int)
    requires
        in_subtree(r, c),
        in_subtree(c, j),
    ensures
        in_subtree(r, j),
    decreases j,
{
    lemma_subtree_member_bounds(r, c);
    lemma_subtree_member_bounds(c, j);
    if j != c {
        lemma_subtree_trans(r, c, parent_index(j));
    }
}

/// The subtrees of two distinct nodes that share a parent have no common
/// member.
proof fn lemma_subtree_disjoint(a: int, b: int, j: int)
    requires
        in_subtree(a, j),
        a != b,
        parent_index(a) == parent_index(b),
        1 <= a,
        1 <= b,
    ensures
        !in_subtree(b, j),
    decreases j,
{
    lemma_subtree_member_bounds(a, j);
    if in_subtree(b, j) {
        lemma_subtree_member_bounds(b, j);
        if j == a {
            lemma_subtree_member_bounds(b, parent_index(a));
        } else if j == b {
            lemma_subtree_member_bounds(a, parent_index(b));
        } else {
            lemma_subtree_disjoint(a, b, parent_index(j));
        }
    }
}

/// Every member of a subtree other than its root lies in the subtree of one
/// of the root's two children.
proof fn lemma_subtree_children(r: int, j: int)
    requires
        in_subtree(r, j),
        j != r,
    ensures
        in_subtree(2 * r + 1, j) || in_subtree(2 * r + 2, j),
    decreases j,
{
    lemma_subtree_member_bounds(r, j);
    let p = parent_index(j);
    if p == r {
        assert(j == 2 * r + 1 || j == 2 * r + 2);
        assert(in_subtree(j, j));
    } else {
        lemma_subtree_children(r, p);
        if in_subtree(2 * r + 1, p) {
            lemma_subtree_member_bounds(2 * r + 1, p);
            assert(in_subtree(2 * r + 1, j));
        } else {
            lemma_subtree_member_bounds(2 * r + 2, p);
            assert(in_subtree(2 * r + 2, j));
        }
    }
}

/// Frame property of sift-down, and so of `heapify`: the walk never grows
/// or shrinks the sequence, and every index outside the subtree rooted at
/// `idx` keeps its old value.
pub proof fn lemma_sift_down_frame(min: bool, s: Seq<i64>, idx: int)
    ensures
        sift_down(min, s, idx).len() == s.len(),
        forall|j: int|
            0 <= j < s.len() && !in_subtree(idx, j) ==> sift_down(min, s, idx)[j] == #[trigger] s[j],
    decreases s.len() - idx,
{
    let left = 2 * idx + 1;
    let right = 2 * idx + 2;
    let e1 = if left < s.len() && strictly_beats(min, s[left], s[idx]) {
        left
    } else {
        idx
    };
    let e2 = if right < s.len() && strictly_beats(min, s[right], s[e1]) {
        right
    } else {
        e1
    };
    if 0 <= idx && e2 != idx {
        let s2 = seq_swap(s, idx, e2);
        lemma_sift_down_frame(min, s2, e2);
        assert(parent_index(e2) == idx);
        assert(in_subtree(idx, idx));
        assert(in_subtree(idx, e2));
        assert forall|j: int|
            0 <= j < s.len() && !in_subtree(idx, j) implies sift_down(min, s, idx)[j] == #[trigger] s[j] by {
            if in_subtree(e2, j) {
                lemma_subtree_trans(idx, e2, j);
            }
            assert(s2[j] == s[j]);
        }
    }
}

/// Idempotence of sift-down, and so of `heapify`: when the subtree rooted
/// at `idx` already satisfies the heap order, the walk changes nothing.
pub proof fn lemma_sift_down_no_op(min: bool, s: Seq<i64>, idx: int)
    requires
        subtree_ordered(min, s, idx),
    ensures
        sift_down(min, s, idx) == s,
{
    let left = 2 * idx + 1;
    let right = 2 * idx + 2;
    if 0 <= idx {
        if left < s.len() {
            assert(parent_index(left) == idx);
            assert(in_subtree(idx, idx));
            assert(in_subtree(idx, left));
            assert(dominates(min, s[idx], s[left]));
        }
        if right < s.len() {
            assert(parent_index(right) == idx);
            assert(in_subtree(idx, idx));
            assert(in_subtree(idx, right));
            assert(dominates(min, s[idx], s[right]));
        }
    }
}

/// Swapping a node at `idx` with its child `e2` leaves the subtrees of
/// `e2`'s own children untouched and ordered, provided `e2`'s subtree was
/// ordered to begin with.
proof fn lemma_swap_preserves_child_subtree(min: bool, s: Seq<i64>, idx: int, e2: int, c: int)
    requires
        0 <= idx,
        e2 == 2 * idx + 1 || e2 == 2 * idx + 2,
        e2 < s.len(),
        subtree_ordered(min, s, e2),
        c == 2 * e2 + 1 || c == 2 * e2 + 2,
    ensures
        subtree_ordered(min, seq_swap(s, idx, e2), c),
{
    let s2 = seq_swap(s, idx, e2);
    assert(parent_index(e2) == idx);
    assert(parent_index(c) == e2);
    assert(in_subtree(e2, e2));
    assert(in_subtree(e2, c));
    assert forall|j: int| 1 <= j < s2.len() && j != c && in_subtree(c, j) implies dominates(
        min,
        s2[parent_index(j)],
        #[trigger] s2[j],
    ) by {
        lemma_subtree_member_bounds(c, j);
        assert(in_subtree(c, parent_index(j)));
        lemma_subtree_member_bounds(c, parent_index(j));
        lemma_subtree_trans(e2, c, j);
        assert(s2[j] == s[j] && s2[parent_index(j)] == s[parent_index(j)]);
        assert(dominates(min, s[parent_index(j)], s[j]));
    }
}

/// Local repair of sift-down, and so of `heapify`: when the two child
/// subtrees of `idx` each satisfy the heap order, the walk makes the whole
/// subtree rooted at `idx` satisfy it, and the element that ends up at
/// `idx` is the old node or one of its old children.
pub proof fn lemma_sift_down_local(min: bool, s: Seq<i64>, idx: int)
    requires
        0 <= idx,
        subtree_ordered(min, s, 2 * idx + 1),
        subtree_ordered(min, s, 2 * idx + 2),
    ensures
        subtree_ordered(min, sift_down(min, s, idx), idx),
        sift_down(min, s, idx)[idx] == s[idx] || (2 * idx + 1 < s.len() && sift_down(
            min,
            s,
            idx,
        )[idx] == s[2 * idx + 1]) || (2 * idx + 2 < s.len() && sift_down(min, s, idx)[idx] == s[2
            * idx + 2]),
    decreases s.len() - idx,
{
    let left = 2 * idx + 1;
    let right = 2 * idx + 2;
    let e1 = if left < s.len() && strictly_beats(min, s[left], s[idx]) {
        left
    } else {
        idx
    };
    let e2 = if right < s.len() && strictly_beats(min, s[right], s[e1]) {
        right
    } else {
        e1
    };
    let t = sift_down(min, s, idx);
    assert(parent_index(left) == idx && parent_index(right) == idx);
    assert(in_subtree(idx, idx));
    if e2 == idx {
        assert forall|j: int| 1 <= j < t.len() && j != idx && in_subtree(idx, j) implies dominates(
            min,
            t[parent_index(j)],
            #[trigger] t[j],
        ) by {
            lemma_subtree_children(idx, j);
            if parent_index(j) == idx {
                assert(j == left || j == right);
            } else if in_subtree(left, j) {
                assert(j != left);
                assert(dominates(min, s[parent_index(j)], s[j]));
            } else {
                assert(j != right);
                assert(dominates(min, s[parent_index(j)], s[j]));
            }
        }
    } else {
        let s2 = seq_swap(s, idx, e2);
        let cl = 2 * e2 + 1;
        let cr = 2 * e2 + 2;
        assert(parent_index(e2) == idx);
        assert(in_subtree(idx, e2));
        assert(parent_index(cl) == e2 && parent_index(cr) == e2);
        assert(in_subtree(e2, e2));
        assert(in_subtree(e2, cl) && in_subtree(e2, cr));
        assert(!in_subtree(e2, idx)) by {
            if in_subtree(e2, idx) {
                lemma_subtree_member_bounds(e2, idx);
            }
        }
        // The child subtrees of `e2` are untouched by the swap and were
        // ordered inside `e2`'s own subtree.
        lemma_swap_preserves_child_subtree(min, s, idx, e2, cl);
        lemma_swap_preserves_child_subtree(min, s, idx, e2, cr);
        lemma_sift_down_local(min, s2, e2);
        lemma_sift_down_frame(min, s2, e2);
        assert(t == sift_down(min, s2, e2));
        assert(t[idx] == s2[idx] && s2[idx] == s[e2]);
        // Everything `t[e2]` can be is dominated by the old `s[e2]`.
        if cl < s.len() {
            assert(in_subtree(e2, cl));
            assert(dominates(min, s[e2], s[cl]) && s2[cl] == s[cl]);
        }
        if cr < s.len() {
            assert(in_subtree(e2, cr));
            assert(dominates(min, s[e2], s[cr]) && s2[cr] == s[cr]);
        }
        assert(dominates(min, s[e2], t[e2]));
        assert forall|j: int| 1 <= j < t.len() && j != idx && in_subtree(idx, j) implies dominates(
            min,
            t[parent_index(j)],
            #[trigger] t[j],
        ) by {
            lemma_subtree_children(idx, j);
            let pj = parent_index(j);
            if pj == idx {
                assert(j == left || j == right);
                if j == e2 {
                    assert(dominates(min, t[idx], t[e2]));
                } else {
                    // `j` is the sibling of `e2`, untouched by swap and walk.
                    assert(in_subtree(j, j));
                    lemma_subtree_disjoint(j, e2, j);
                    assert(t[j] == s2[j] && s2[j] == s[j]);
                    assert(dominates(min, s[e2], s[j]));
                }
            } else if in_subtree(e2, j) {
                assert(j != e2);
                assert(dominates(min, t[parent_index(j)], t[j]));
            } else {
                // `j` lies strictly inside the sibling's subtree.
                let c = if in_subtree(left, j) {
                    left
                } else {
                    right
                };
                assert(in_subtree(c, j) && c != e2 && j != c);
                assert(in_subtree(c, pj));
                lemma_subtree_member_bounds(c, j);
                lemma_subtree_member_bounds(c, pj);
                lemma_subtree_disjoint(c, e2, j);
                lemma_subtree_disjoint(c, e2, pj);
                assert(!in_subtree(e2, pj));
                assert(j != e2 && pj != e2 && j != idx && pj != idx);
                assert(t[j] == s2[j] && s2[j] == s[j]);
                assert(t[pj] == s2[pj] && s2[pj] == s[pj]);
                assert(dominates(min, s[pj], s[j]));
            }
        }
    }
}

/// Extremum correctness: in a heap that satisfies the heap order, the root
/// is at least as extreme as every stored element — the greatest in a
/// max-heap, the smallest in a min-heap.
pub proof fn lemma_root_extreme(min: bool, s: Seq<i64>, i: int)
    requires
        heap_ordered(min, s),
        0 <= i < s.len(),
    ensures
        dominates(min, s[0], s[i]),
    decreases i,
{
    if i > 0 {
        lemma_root_extreme(min, s, parent_index(i));
    }
}

/// Drain-sortedness: when one ordered heap holds exactly the elements of
/// another minus that other's root — as is the case for the states before
/// and after a successful `pop` — its own root cannot be more extreme. So
/// repeatedly popping a max-heap yields a descending sequence, and a
/// min-heap an ascending one.
pub proof fn lemma_drain_ordered(min: bool, s: Seq<i64>, t: Seq<i64>)
    requires
        heap_ordered(min, s),
        s.len() > 0,
        t.len() > 0,
        t.to_multiset() == s.to_multiset().remove(s[0]),
    ensures
        dominates(min, s[0], t[0]),
{
    broadcast use vstd::seq_lib::group_to_multiset_ensures;

    assert(t.contains(t[0]));
    assert(t.to_multiset().count(t[0]) > 0);
    assert(s.to_multiset().count(t[0]) > 0);
    assert(s.contains(t[0]));
    let i: int = choose|k: int| 0 <= k < s.len() && s[k] == t[0];
    lemma_root_extreme(min, s, i);
}

/// One step of sift-up: when the node at `i` is strictly more extreme than
/// its parent, swapping the two moves the only possible order violation up
/// to the parent's position.
proof fn lemma_sift_up_step(min: bool, s: Seq<i64>, i: int)
    requires
        1 <= i < s.len(),
        heap_ordered_except_at(min, s, i),
        children_below_grandparent(min, s, i),
        strictly_beats(min, s[i], s[parent_index(i)]),
    ensures
        ({
            let p = parent_index(i);
            let t = s.update(i, s[p]).update(p, s[i]);
            heap_ordered_except_at(min, t, p) && children_below_grandparent(min, t, p)
        }),
{
    let p = parent_index(i);
    let t = s.update(i, s[p]).update(p, s[i]);
    assert forall|j: int| 1 <= j < t.len() && j != p implies dominates(
        min,
        t[parent_index(j)],
        #[trigger] t[j],
    ) by {
        let pj = parent_index(j);
        if j == i {
            assert(t[p] == s[i] && t[i] == s[p]);
        } else if pj == p {
            assert(dominates(min, s[p], s[j]));
        } else if pj == i {
            assert(dominates(min, s[p], s[j]));
        } else {
            assert(t[j] == s[j]);
            assert(t[pj] == s[pj]);
            assert(dominates(min, s[pj], s[j]));
        }
    }
    if p > 0 {
        assert forall|j: int| 1 <= j < t.len() && parent_index(j) == p implies dominates(
            min,
            t[parent_index(p)],
            #[trigger] t[j],
        ) by {
            let pp = parent_index(p);
            assert(t[pp] == s[pp]);
            if j == i {
                assert(dominates(min, s[pp], s[p]));
            } else {
                assert(dominates(min, s[p], s[j]));
                assert(dominates(min, s[pp], s[p]));
            }
        }
    }
}

/// One step of sift-down: when the most extreme of the node at `idx` and its
/// children is the child at `edge`, swapping the two moves the only possible
/// order violation down to `edge`.
proof fn lemma_sift_down_step(min: bool, s: Seq<i64>, idx: int, edge: int)
    requires
        heap_ordered_except_below(min, s, idx),
        children_below_grandparent(min, s, idx),
        0 <= idx < s.len(),
        edge == 2 * idx + 1 || edge == 2 * idx + 2,
        edge < s.len(),
        strictly_beats(min, s[edge], s[idx]),
        2 * idx + 1 < s.len() && edge != 2 * idx + 1 ==> dominates(min, s[edge], s[2 * idx + 1]),
        2 * idx + 2 < s.len() && edge != 2 * idx + 2 ==> dominates(min, s[edge], s[2 * idx + 2]),
    ensures
        ({
            let t = s.update(idx, s[edge]).update(edge, s[idx]);
            heap_ordered_except_below(min, t, edge) && children_below_grandparent(min, t, edge)
        }),
{
    let t = s.update(idx, s[edge]).update(edge, s[idx]);
    assert(parent_index(edge) == idx);
    assert forall|j: int| 1 <= j < t.len() && parent_index(j) != edge implies dominates(
        min,
        t[parent_index(j)],
        #[trigger] t[j],
    ) by {
        let pj = parent_index(j);
        if j == edge {
            assert(t[idx] == s[edge] && t[edge] == s[idx]);
        } else if j == idx {
            assert(dominates(min, s[parent_index(idx)], s[edge]));
            assert(t[j] == s[edge] && t[pj] == s[pj]);
        } else if pj == idx {
            assert(j == 2 * idx + 1 || j == 2 * idx + 2);
            assert(dominates(min, s[edge], s[j]));
        } else {
            assert(t[j] == s[j] && t[pj] == s[pj]);
            assert(dominates(min, s[pj], s[j]));
        }
    }
    assert forall|j: int| 1 <= j < t.len() && parent_index(j) == edge implies dominates(
        min,
        t[parent_index(edge)],
        #[trigger] t[j],
    ) by {
        assert(t[j] == s[j]);
        assert(dominates(min, s[edge], s[j]));
    }
}

/// End of sift-down: when the node at `idx` dominates both of its children,
/// the heap order that held everywhere else holds everywhere.
proof fn lemma_sift_down_done(min: bool, s: Seq<i64>, idx: int)
    requires
        heap_ordered_except_below(min, s, idx),
        0 <= idx,
        2 * idx + 1 < s.len() ==> dominates(min, s[idx], s[2 * idx + 1]),
        2 * idx + 2 < s.len() ==> dominates(min, s[idx], s[2 * idx + 2]),
    ensures
        heap_ordered(min, s),
{
    assert forall|j: int| 1 <= j < s.len() implies dominates(
        min,
        s[parent_index(j)],
        #[trigger] s[j],
    ) by {
        if parent_index(j) == idx {
            assert(j == 2 * idx + 1 || j == 2 * idx + 2);
        }
    }
}

} // verus!
