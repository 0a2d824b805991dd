//! An array-backed binary min-heap, generic over any totally ordered
//! element type, with verified insertion, minimum extraction, and linear-time
//! bulk construction.

use vstd::prelude::*;

pub mod order;

verus! {

use crate::order::{le, lt, lemma_le_properties};
use vstd::laws_cmp::obeys_cmp;
use vstd::std_specs::cmp::PartialOrdSpec;

/// Index of the parent of the node stored at index `i` of the flat tree.
/// Meaningful for `i >= 1`; the root has no parent.
pub open spec fn parent_idx(i: int) -> int {
    (i + 1) / 2 - 1
}

/// Every tree edge whose parent lies at index `k` or beyond respects the
/// min-heap order: the parent is less than or equal to the child.
pub open spec fn heap_from<T: Ord>(s: Seq<T>, k: int) -> bool {
    forall|c: int|
        1 <= c < s.len() && parent_idx(c) >= k ==> le(s[parent_idx(c)], #[trigger] s[c])
}

/// The min-heap property: every non-root element is greater than or equal
/// to its parent.
pub open spec fn is_heap<T: Ord>(s: Seq<T>) -> bool {
    heap_from(s, 0)
}

/// The sequence with the values at positions `a` and `b` exchanged.
pub open spec fn seq_swap<T>(s: Seq<T>, a: int, b: int) -> Seq<T> {
    s.update(a, s[b]).update(b, s[a])
}

/// Node `j` lies in the subtree rooted at node `root`: following parents
/// from `j` reaches `root`.
pub open spec fn in_subtree(root: int, j: int) -> bool
    decreases j,
{
    if j == root {
        true
    } else if j <= root || j < 1 {
        false
    } else {
        in_subtree(root, parent_idx(j))
    }
}

/// Lying in a subtree is transitive: a node of a subtree of `b` lies in
/// every subtree that `b` itself lies in.
proof fn lemma_subtree_trans(a: int, b: int, c: int)
    requires
        in_subtree(a, b),
        in_subtree(b, c),
    ensures
        in_subtree(a, c),
    decreases c,
{
    if c != b {
        lemma_parent_idx(c);
        lemma_subtree_trans(a, b, parent_idx(c));
    }
}

/// Two subtrees that share a node are nested, so two ancestors of one node
/// always lie on one descending path.
proof fn lemma_subtree_chain(a: int, b: int, c: int)
    requires
        in_subtree(a, c),
        in_subtree(b, c),
    ensures
        in_subtree(a, b) || in_subtree(b, a),
    decreases c,
{
    if c != a && c != b {
        lemma_parent_idx(c);
        lemma_subtree_chain(a, b, parent_idx(c));
    }
}

/// No child of node `j` that exists is strictly smaller than the value at
/// `j`: sinking from `j` would stop at once.
spec fn no_smaller_child<T: Ord>(s: Seq<T>, j: int) -> bool {
    forall|c: int| 1 <= c < s.len() && parent_idx(c) == j ==> !lt(#[trigger] s[c], s[j])
}

/// The parent index lies strictly below its child, and the child sits at
/// one of the two slots belonging to that parent.
proof fn lemma_parent_idx(c: int)
    requires
        1 <= c,
    ensures
        0 <= parent_idx(c) < c,
        2 * parent_idx(c) + 1 <= c <= 2 * parent_idx(c) + 2,
{
}

/// The two child slots of node `q` both map back to `q` as their parent.
proof fn lemma_child_idx(q: int, c: int)
    requires
        0 <= q,
        2 * q + 1 <= c <= 2 * q + 2,
    ensures
        parent_idx(c) == q,
{
}

/// Exchanging two positions of a sequence keeps its length and its
/// multiset of values.
proof fn lemma_swap_multiset<T>(s: Seq<T>, a: int, b: int)
    requires
        0 <= a < s.len(),
        0 <= b < s.len(),
    ensures
        seq_swap(s, a, b).len() == s.len(),
        seq_swap(s, a, b).to_multiset() == s.to_multiset(),
{
    broadcast use vstd::seq_lib::group_to_multiset_ensures;
    broadcast use vstd::multiset::group_multiset_axioms;

    if a == b {
        assert(seq_swap(s, a, b) =~= s);
    } else {
        let s1 = s.update(a, s[b]);
        assert(s1.to_multiset() == s.to_multiset().insert(s[b]).remove(s[a]));
        assert(s1[a] == s[b]);
        assert(seq_swap(s, a, b).to_multiset() == s1.to_multiset().insert(s[a]).remove(s1[b]));
        assert(seq_swap(s, a, b).to_multiset() =~= s.to_multiset());
    }
}

/// Relies on the standard library's `<[T]>::swap`: it exchanges the
/// elements at the two given positions of the vector and changes nothing
/// else; with both positions in bounds it does not panic.
#[verifier::external_body]
fn vec_swap<T>(v: &mut Vec<T>, a: usize, b: usize)
    requires
        a < old(v)@.len(),
        b < old(v)@.len(),
    ensures
        final(v)@ == seq_swap(old(v)@, a as int, b as int),
{
    v.swap(a, b);
}

/// The heap order holds on every edge except possibly the one leading
/// into node `j` from its parent.
spec fn heap_except_up<T: Ord>(s: Seq<T>, j: int) -> bool {
    forall|c: int|
        1 <= c < s.len() && c != j && parent_idx(c) >= 0 ==> le(
            s[parent_idx(c)],
            #[trigger] s[c],
        )
}

/// If node `j` has both a parent and children, the parent already sits at
/// or below the values in `j`'s child slots, so floating `j` past its
/// parent cannot break the edges underneath.
spec fn up_ok<T: Ord>(s: Seq<T>, j: int) -> bool {
    j >= 1 ==> forall|c: int|
        1 <= c < s.len() && parent_idx(c) == j ==> le(s[parent_idx(j)], #[trigger] s[c])
}

/// One step of floating: when the value at `j` is strictly below its
/// parent's, exchanging the two moves the violation up to the parent slot.
proof fn lemma_float_swap<T: Ord>(s: Seq<T>, j: int)
    requires
        obeys_cmp::<T>(),
        1 <= j < s.len(),
        heap_except_up(s, j),
        up_ok(s, j),
        lt(s[j], s[parent_idx(j)]),
    ensures
        heap_except_up(seq_swap(s, parent_idx(j), j), parent_idx(j)),
        up_ok(seq_swap(s, parent_idx(j), j), parent_idx(j)),
{
    lemma_le_properties::<T>();
    lemma_parent_idx(j);
    let p = parent_idx(j);
    let t = seq_swap(s, p, j);
    assert(le(s[j], s[p]));
    assert forall|c: int| 1 <= c < t.len() && c != p && parent_idx(c) >= 0 implies le(
        t[parent_idx(c)],
        t[c],
    ) by {
        lemma_parent_idx(c);
        let q = parent_idx(c);
        if c == j {
            assert(t[q] == s[j] && t[c] == s[p]);
        } else if q == j {
            assert(t[q] == s[p] && t[c] == s[c]);
            assert(le(s[p], s[c]));
        } else if q == p {
            assert(t[q] == s[j] && t[c] == s[c]);
            assert(le(s[p], s[c]));
        } else {
            assert(t[q] == s[q] && t[c] == s[c]);
        }
    }
    if p >= 1 {
        lemma_parent_idx(p);
        let g = parent_idx(p);
        assert forall|c: int| 1 <= c < t.len() && parent_idx(c) == p implies le(
            t[g],
            t[c],
        ) by {
            lemma_parent_idx(c);
            assert(t[g] == s[g]);
            if c == j {
                assert(t[c] == s[p]);
                assert(le(s[g], s[p]));
            } else {
                assert(t[c] == s[c]);
                assert(le(s[p], s[c]));
                assert(le(s[g], s[p]));
            }
        }
    }
}

/// Every edge whose parent lies at or beyond `k` respects the heap order,
/// except possibly the edges leading out of node `j` to its children.
spec fn sink_except<T: Ord>(s: Seq<T>, k: int, j: int) -> bool {
    forall|c: int|
        1 <= c < s.len() && parent_idx(c) >= k && parent_idx(c) != j ==> le(
            s[parent_idx(c)],
            #[trigger] s[c],
        )
}

/// If node `j` has a parent at or beyond `k`, that parent already sits at
/// or below the values in `j`'s child slots, so sinking `j` past a child
/// cannot break the edge coming into it.
spec fn down_ok<T: Ord>(s: Seq<T>, k: int, j: int) -> bool {
    (j >= 1 && parent_idx(j) >= k) ==> forall|c: int|
        1 <= c < s.len() && parent_idx(c) == j ==> le(s[parent_idx(j)], #[trigger] s[c])
}

/// One step of sinking: when the smallest child `c` of node `j` is
/// strictly below it, exchanging the two moves the violation down to the
/// child slot.
proof fn lemma_sink_swap<T: Ord>(s: Seq<T>, k: int, j: int, c: int)
    requires
        obeys_cmp::<T>(),
        0 <= k <= j,
        1 <= c < s.len(),
        parent_idx(c) == j,
        sink_except(s, k, j),
        down_ok(s, k, j),
        lt(s[c], s[j]),
        forall|o: int| 1 <= o < s.len() && parent_idx(o) == j ==> le(s[c], #[trigger] s[o]),
    ensures
        sink_except(seq_swap(s, j, c), k, c),
        down_ok(seq_swap(s, j, c), k, c),
{
    lemma_le_properties::<T>();
    lemma_parent_idx(c);
    let t = seq_swap(s, j, c);
    assert(le(s[c], s[j]));
    assert forall|d: int| 1 <= d < t.len() && parent_idx(d) >= k && parent_idx(d) != c implies le(
        t[parent_idx(d)],
        t[d],
    ) by {
        lemma_parent_idx(d);
        let q = parent_idx(d);
        if d == c {
            assert(t[q] == s[c] && t[d] == s[j]);
        } else if q == j {
            assert(t[q] == s[c] && t[d] == s[d]);
            assert(le(s[c], s[d]));
        } else if d == j {
            assert(t[q] == s[q] && t[d] == s[c]);
            assert(le(s[q], s[c]));
        } else {
            assert(t[q] == s[q] && t[d] == s[d]);
            assert(le(s[q], s[d]));
        }
    }
    assert forall|d: int| 1 <= d < t.len() && parent_idx(d) == c implies le(
        t[parent_idx(c)],
        t[d],
    ) by {
        lemma_parent_idx(d);
        assert(t[c] == s[j] && t[parent_idx(c)] == s[c] && t[d] == s[d]);
        assert(le(s[c], s[d]));
    }
}

/// Once neither child of node `j` is strictly smaller, the heap order
/// holds on every edge whose parent lies at or beyond `k`.
proof fn lemma_sink_done<T: Ord>(s: Seq<T>, k: int, j: int)
    requires
        obeys_cmp::<T>(),
        0 <= k <= j,
        sink_except(s, k, j),
        forall|c: int| 1 <= c < s.len() && parent_idx(c) == j ==> le(s[j], #[trigger] s[c]),
    ensures
        heap_from(s, k),
{
}

/// The root of a heap is a minimum of all its values.
pub proof fn lemma_root_is_min<T: Ord>(s: Seq<T>)
    requires
        obeys_cmp::<T>(),
        is_heap(s),
        s.len() > 0,
    ensures
        forall|i: int| 0 <= i < s.len() ==> le(s[0], #[trigger] s[i]),
{
    assert forall|i: int| 0 <= i < s.len() implies le(s[0], s[i]) by {
        lemma_root_le(s, i);
    }
}

/// Minimum extraction is monotone: once the root has been removed, every
/// value that can still come out of the heap sits at or above it, so a run
/// of extractions yields its values in non-decreasing order and each value
/// extracted was present in the heap.
pub proof fn lemma_pop_monotone<T: Ord>(before: Seq<T>, after: Seq<T>)
    requires
        obeys_cmp::<T>(),
        is_heap(before),
        before.len() > 0,
        after.to_multiset() == before.to_multiset().remove(before[0]),
    ensures
        forall|j: int| 0 <= j < after.len() ==> le(before[0], #[trigger] after[j]),
{
    broadcast use vstd::seq_lib::group_to_multiset_ensures;
    broadcast use vstd::multiset::group_multiset_axioms;

    lemma_le_properties::<T>();
    lemma_root_is_min(before);
    assert forall|j: int| 0 <= j < after.len() implies le(before[0], after[j]) by {
        let x = after[j];
        assert(after.contains(x));
        assert(after.to_multiset().count(x) > 0);
        if x != before[0] {
            assert(before.to_multiset().count(x) > 0);
            assert(before.contains(x));
            let k = choose|k: int| 0 <= k < before.len() && before[k] == x;
            assert(le(before[0], before[k]));
        }
    }
}

/// The root sits at or below the value at any index, following the chain
/// of parents.
proof fn lemma_root_le<T: Ord>(s: Seq<T>, i: int)
    requires
        obeys_cmp::<T>(),
        is_heap(s),
        0 <= i < s.len(),
    ensures
        le(s[0], s[i]),
    decreases i,
{
    lemma_le_properties::<T>();
    if i > 0 {
        lemma_parent_idx(i);
        lemma_root_le(s, parent_idx(i));
        assert(le(s[parent_idx(i)], s[i]));
    }
}

/// A min-heap of `T`, laid out as a complete binary tree in a flat vector:
/// the node at index `i` has its children at `2 * i + 1` and `2 * i + 2`.
pub struct BinaryHeap<T: Ord> {
    elems: Vec<T>,
}

impl<T: Ord> View for BinaryHeap<T> {
    type V = Seq<T>;

    closed spec fn view(&self) -> Seq<T> {
        self.elems@
    }
}

impl<T: Ord> BinaryHeap<T> {
    /// Creates an empty binary heap.
    pub fn new() -> (r: Self)
        ensures
            r@ == Seq::<T>::empty(),
            is_heap(r@),
    {
        BinaryHeap { elems: Vec::new() }
    }

    /// Creates an empty binary heap whose storage is reserved for at least
    /// `cap` elements.
    pub fn with_capacity(cap: usize) -> (r: Self)
        ensures
            r@ == Seq::<T>::empty(),
            is_heap(r@),
    {
        let new_vec = Vec::with_capacity(cap);
        BinaryHeap { elems: new_vec }
    }

    /// Returns the parent of a node, or `None` for the root.
    fn parent(index: usize) -> (r: Option<usize>)
        requires
            index < usize::MAX,
        ensures
            match r {
                None => index == 0,
                Some(p) => index >= 1 && p as int == parent_idx(index as int),
            },
    {
        if index == 0 {
            None
        } else {
            Some(((index + 1) / 2) - 1)
        }
    }

    /// Floats the value at index `i` up toward the root until its parent is
    /// no longer greater, restoring the heap order everywhere. Only the
    /// ancestor chain of `i` is touched, and nothing at all when the edge
    /// into `i` already respects the order.
    fn float(&mut self, i: usize)
        requires
            obeys_cmp::<T>(),
            i < old(self)@.len(),
            heap_except_up(old(self)@, i as int),
            up_ok(old(self)@, i as int),
        ensures
            final(self)@.len() == old(self)@.len(),
            final(self)@.to_multiset() == old(self)@.to_multiset(),
            is_heap(final(self)@),
            forall|j: int|
                0 <= j < old(self)@.len() && !in_subtree(j, i as int) ==> final(self)@[j]
                    == old(self)@[j],
            (i == 0 || le(old(self)@[parent_idx(i as int)], old(self)@[i as int]))
                ==> final(self)@ == old(self)@,
    {
        proof {
            lemma_le_properties::<T>();
        }
        let n: usize = self.elems.len();
        let mut cur_i: usize = i;
        loop
            invariant
                obeys_cmp::<T>(),
                T::obeys_partial_cmp_spec(),
                n == self@.len(),
                cur_i < n,
                i < n,
                in_subtree(cur_i as int, i as int),
                self@.len() == old(self)@.len(),
                self@.to_multiset() == old(self)@.to_multiset(),
                heap_except_up(self@, cur_i as int),
                up_ok(self@, cur_i as int),
                forall|j: int|
                    0 <= j < old(self)@.len() && !in_subtree(j, i as int) ==> self@[j]
                        == old(self)@[j],
                cur_i == i ==> self@ == old(self)@,
                (i == 0 || le(old(self)@[parent_idx(i as int)], old(self)@[i as int]))
                    ==> cur_i == i,
            ensures
                self@.len() == old(self)@.len(),
                self@.to_multiset() == old(self)@.to_multiset(),
                is_heap(self@),
                forall|j: int|
                    0 <= j < old(self)@.len() && !in_subtree(j, i as int) ==> self@[j]
                        == old(self)@[j],
                (i == 0 || le(old(self)@[parent_idx(i as int)], old(self)@[i as int]))
                    ==> self@ == old(self)@,
            decreases cur_i,
        {
            match Self::parent(cur_i) {
                None => {
                    break;
                },
                Some(parent) => {
                    proof {
                        lemma_le_properties::<T>();
                        lemma_parent_idx(cur_i as int);
                    }
                    let swap_needed = (&self.elems[parent]).gt(&self.elems[cur_i]);
                    proof {
                        assert(swap_needed <==> lt(self@[cur_i as int], self@[parent as int]));
                    }
                    if swap_needed {
                        proof {
                            assert(in_subtree(parent as int, parent as int));
                            assert(in_subtree(parent as int, cur_i as int));
                            lemma_subtree_trans(parent as int, cur_i as int, i as int);
                            if cur_i == i {
                                assert(lt(old(self)@[i as int], old(self)@[parent_idx(i as int)]));
                                assert(!le(old(self)@[parent_idx(i as int)], old(self)@[i as int]));
                            }
                            lemma_float_swap(self@, cur_i as int);
                            lemma_swap_multiset(self@, parent as int, cur_i as int);
                            let ghost pre = self@;
                            assert forall|j: int|
                                0 <= j < old(self)@.len() && !in_subtree(j, i as int) implies
                                seq_swap(pre, parent as int, cur_i as int)[j] == old(
                                self,
                            )@[j] by {
                                assert(j != cur_i as int && j != parent as int);
                                assert(pre[j] == old(self)@[j]);
                            }
                        }
                        vec_swap(&mut self.elems, parent, cur_i);
                        cur_i = parent;
                    } else {
                        proof {
                            assert(le(self@[parent as int], self@[cur_i as int]));
                        }
                        break;
                    }
                },
            }
        }
    }

    /// Inserts `value` into the heap, keeping the heap order.
    pub fn push(&mut self, value: T)
        requires
            obeys_cmp::<T>(),
            is_heap(old(self)@),
        ensures
            is_heap(final(self)@),
            final(self)@.len() == old(self)@.len() + 1,
            final(self)@.to_multiset() == old(self)@.to_multiset().insert(value),
    {
        proof {
            broadcast use vstd::seq_lib::group_to_multiset_ensures;
        }
        self.elems.push(value);
        let cur_index: usize = self.elems.len() - 1;
        proof {
            let s = self@;
            let j = cur_index as int;
            assert forall|c: int| 1 <= c < s.len() && c != j && parent_idx(c) >= 0 implies le(
                s[parent_idx(c)],
                s[c],
            ) by {
                lemma_parent_idx(c);
                assert(s[c] == old(self)@[c]);
            }
            assert forall|c: int| 1 <= c < s.len() && parent_idx(c) == j implies false by {
                lemma_parent_idx(c);
            }
        }
        self.float(cur_index);
    }

    /// Sinks the value at `index` down toward the leaves until no child is
    /// strictly smaller. Length and contents are always preserved, and the
    /// positions that change all lie on one descending path inside the
    /// subtree rooted at `index`; nothing changes when `index` lies past the
    /// end or when no child is strictly smaller. When, on entry, every edge
    /// whose parent lies beyond `index` respects the heap order, on exit the
    /// edges out of `index` itself do too.
    fn sink(&mut self, index: usize)
        requires
            obeys_cmp::<T>(),
        ensures
            final(self)@.len() == old(self)@.len(),
            final(self)@.to_multiset() == old(self)@.to_multiset(),
            forall|j: int|
                0 <= j < old(self)@.len() && !in_subtree(index as int, j) ==> final(self)@[j]
                    == old(self)@[j],
            index as int >= old(self)@.len() ==> final(self)@ == old(self)@,
            no_smaller_child(old(self)@, index as int) ==> final(self)@ == old(self)@,
            forall|j1: int, j2: int|
                0 <= j1 < old(self)@.len() && 0 <= j2 < old(self)@.len() && final(self)@[j1]
                    != old(self)@[j1] && final(self)@[j2] != old(self)@[j2] ==> in_subtree(j1, j2)
                    || in_subtree(j2, j1),
            heap_from(old(self)@, index as int + 1) ==> heap_from(final(self)@, index as int),
    {
        proof {
            lemma_le_properties::<T>();
            assert(in_subtree(index as int, index as int));
        }
        let n: usize = self.elems.len();
        let mut i: usize = index;
        loop
            invariant
                obeys_cmp::<T>(),
                T::obeys_partial_cmp_spec(),
                n == self@.len(),
                index <= i,
                i == index || parent_idx(i as int) >= index as int,
                in_subtree(index as int, i as int),
                self@.len() == old(self)@.len(),
                self@.to_multiset() == old(self)@.to_multiset(),
                heap_from(old(self)@, index as int + 1) ==> sink_except(
                    self@,
                    index as int,
                    i as int,
                ),
                heap_from(old(self)@, index as int + 1) ==> down_ok(
                    self@,
                    index as int,
                    i as int,
                ),
                forall|j: int|
                    0 <= j < old(self)@.len() && !in_subtree(index as int, j) ==> self@[j]
                        == old(self)@[j],
                forall|j: int|
                    0 <= j < old(self)@.len() && self@[j] != old(self)@[j] ==> in_subtree(
                        j,
                        i as int,
                    ),
                i == index ==> self@ == old(self)@,
                (index as int >= old(self)@.len() || no_smaller_child(old(self)@, index as int))
                    ==> i == index,
            ensures
                self@.len() == old(self)@.len(),
                self@.to_multiset() == old(self)@.to_multiset(),
                forall|j: int|
                    0 <= j < old(self)@.len() && !in_subtree(index as int, j) ==> self@[j]
                        == old(self)@[j],
                forall|j: int|
                    0 <= j < old(self)@.len() && self@[j] != old(self)@[j] ==> in_subtree(
                        j,
                        i as int,
                    ),
                index as int >= old(self)@.len() ==> self@ == old(self)@,
                no_smaller_child(old(self)@, index as int) ==> self@ == old(self)@,
                heap_from(old(self)@, index as int + 1) ==> heap_from(self@, index as int),
            decreases n - i,
        {
            proof {
                lemma_le_properties::<T>();
            }
            if i >= n / 2 {
                proof {
                    if heap_from(old(self)@, index as int + 1) {
                        assert forall|c: int|
                            1 <= c < self@.len() && parent_idx(c) == i as int implies le(
                            self@[i as int],
                            self@[c],
                        ) by {
                            lemma_parent_idx(c);
                        }
                        lemma_sink_done(self@, index as int, i as int);
                    }
                }
                break;
            }
            let left: usize = i * 2 + 1;
            let right: usize = left + 1;
            proof {
                lemma_child_idx(i as int, left as int);
                lemma_child_idx(i as int, right as int);
            }
            let mut child: usize = left;
            if right < n {
                let right_smaller = (&self.elems[right]).lt(&self.elems[left]);
                proof {
                    assert(right_smaller <==> lt(self@[right as int], self@[left as int]));
                }
                if right_smaller {
                    child = right;
                }
            }
            let descend = (&self.elems[child]).lt(&self.elems[i]);
            proof {
                assert(descend <==> lt(self@[child as int], self@[i as int]));
                assert(le(self@[child as int], self@[child as int]));
                assert forall|o: int|
                    1 <= o < self@.len() && parent_idx(o) == i as int implies le(
                    self@[child as int],
                    #[trigger] self@[o],
                ) by {
                    lemma_parent_idx(o);
                }
            }
            if descend {
                proof {
                    assert(parent_idx(child as int) == i as int);
                    assert(in_subtree(index as int, child as int));
                    if i == index {
                        assert(lt(old(self)@[child as int], old(self)@[i as int]));
                        assert(!no_smaller_child(old(self)@, index as int));
                        assert((index as int) < old(self)@.len());
                    }
                    if heap_from(old(self)@, index as int + 1) {
                        lemma_sink_swap(self@, index as int, i as int, child as int);
                    }
                    lemma_swap_multiset(self@, i as int, child as int);
                    let ghost pre = self@;
                    assert forall|j: int|
                        0 <= j < old(self)@.len() && !in_subtree(index as int, j) implies seq_swap(
                        pre,
                        i as int,
                        child as int,
                    )[j] == old(self)@[j] by {
                        assert(j != i as int && j != child as int);
                        assert(pre[j] == old(self)@[j]);
                    }
                    assert(in_subtree(i as int, i as int));
                    assert(in_subtree(i as int, child as int));
                    assert forall|j: int|
                        0 <= j < old(self)@.len() && seq_swap(pre, i as int, child as int)[j]
                            != old(self)@[j] implies in_subtree(j, child as int) by {
                        if j == i as int || j == child as int {
                            assert(in_subtree(child as int, child as int));
                        } else {
                            assert(pre[j] != old(self)@[j]);
                            lemma_subtree_trans(j, i as int, child as int);
                        }
                    }
                }
                vec_swap(&mut self.elems, i, child);
                i = child;
            } else {
                proof {
                    if heap_from(old(self)@, index as int + 1) {
                        assert forall|o: int|
                            1 <= o < self@.len() && parent_idx(o) == i as int implies le(
                            self@[i as int],
                            #[trigger] self@[o],
                        ) by {
                            lemma_parent_idx(o);
                        }
                        lemma_sink_done(self@, index as int, i as int);
                    }
                }
                break;
            }
        }
        proof {
            assert forall|j1: int, j2: int|
                0 <= j1 < old(self)@.len() && 0 <= j2 < old(self)@.len() && self@[j1] != old(
                    self,
                )@[j1] && self@[j2] != old(self)@[j2] implies in_subtree(j1, j2) || in_subtree(
                j2,
                j1,
            ) by {
                lemma_subtree_chain(j1, j2, i as int);
            }
        }
    }

    /// Removes and returns the minimum, or `None` when the heap is empty.
    /// The last value takes the root's place and is sunk back down, so the
    /// heap order survives the removal.
    pub fn pop(&mut self) -> (r: Option<T>)
        requires
            obeys_cmp::<T>(),
            is_heap(old(self)@),
        ensures
            is_heap(final(self)@),
            match r {
                None => old(self)@.len() == 0 && final(self)@ == old(self)@,
                Some(m) => {
                    &&& old(self)@.len() > 0
                    &&& m == old(self)@[0]
                    &&& final(self)@.len() == old(self)@.len() - 1
                    &&& final(self)@.to_multiset() == old(self)@.to_multiset().remove(m)
                    &&& forall|i: int| 0 <= i < old(self)@.len() ==> le(m, #[trigger] old(self)@[i])
                },
            },
    {
        if self.elems.is_empty() {
            None
        } else {
            proof {
                lemma_root_is_min(self@);
            }
            let rtn = self.elems.swap_remove(0);
            proof {
                broadcast use vstd::seq_lib::group_to_multiset_ensures;
                broadcast use vstd::multiset::group_multiset_axioms;

                let prior = old(self)@;
                let s1 = prior.update(0, prior.last());
                assert(self@ =~= s1.remove(s1.len() - 1));
                assert(self@.to_multiset() == s1.to_multiset().remove(s1[s1.len() - 1]));
                assert(s1.to_multiset() == prior.to_multiset().insert(prior.last()).remove(
                    prior[0],
                ));
                assert(self@.to_multiset() =~= prior.to_multiset().remove(prior[0]));
                assert forall|c: int|
                    1 <= c < self@.len() && parent_idx(c) >= 1 implies le(
                    self@[parent_idx(c)],
                    #[trigger] self@[c],
                ) by {
                    lemma_parent_idx(c);
                    assert(le(prior[parent_idx(c)], prior[c]));
                }
            }
            self.sink(0);
            Some(rtn)
        }
    }

    /// Builds a heap out of an arbitrary vector of values in one linear
    /// pass, sinking every index from the last down to the first.
    pub fn from(old_vec: Vec<T>) -> (r: Self)
        requires
            obeys_cmp::<T>(),
        ensures
            r@.len() == old_vec@.len(),
            r@.to_multiset() == old_vec@.to_multiset(),
            is_heap(r@),
    {
        let ghost orig = old_vec@;
        let mut new_b_heap = BinaryHeap { elems: old_vec };
        let n: usize = new_b_heap.elems.len();
        proof {
            assert forall|c: int|
                1 <= c < orig.len() && parent_idx(c) >= n as int implies le(
                orig[parent_idx(c)],
                #[trigger] orig[c],
            ) by {
                lemma_parent_idx(c);
            }
        }
        let mut i: usize = n;
        while i > 0
            invariant
                obeys_cmp::<T>(),
                i <= n,
                n == new_b_heap@.len(),
                new_b_heap@.len() == orig.len(),
                new_b_heap@.to_multiset() == orig.to_multiset(),
                heap_from(new_b_heap@, i as int),
            decreases i,
        {
            i = i - 1;
            new_b_heap.sink(i);
        }
        new_b_heap
    }
}

} // verus!
