//! A static bounding-volume tree, built once by recursive median partition
//! and queried for the leaves whose boxes meet a query box.

use crate::bounding_volume::{Aabb, lemma_merged_contains, lemma_contained_intersects, lemma_intersects_container};
use vstd::prelude::*;

verus! {

/// A node of a bounding-volume tree: a leaf with its payload, or an internal
/// node with two children, each with its bounding box.
pub enum BVTNode<B> {
    Internal(Aabb, Box<BVTNode<B>>, Box<BVTNode<B>>),
    Leaf(Aabb, B),
}

impl<B> BVTNode<B> {
    /// The node's bounding box.
    pub open spec fn bv(&self) -> Aabb {
        match self {
            BVTNode::Internal(bv, _, _) => *bv,
            BVTNode::Leaf(bv, _) => *bv,
        }
    }

    /// Every leaf box is valid and every internal box is exactly the merge
    /// of its children's boxes.
    pub open spec fn wf(&self) -> bool
        decreases self,
    {
        match self {
            BVTNode::Internal(bv, l, r) => l.wf() && r.wf() && *bv == l.bv().merged_spec(&r.bv()),
            BVTNode::Leaf(bv, _) => bv.valid(),
        }
    }

    /// The leaves below the node, left to right, as (payload, box) pairs.
    pub open spec fn leaves(&self) -> Seq<(B, Aabb)>
        decreases self,
    {
        match self {
            BVTNode::Internal(_, l, r) => l.leaves() + r.leaves(),
            BVTNode::Leaf(bv, b) => seq![(*b, *bv)],
        }
    }

    /// Each internal node splits its leaves into halves, the left one taking
    /// the extra leaf of an odd count.
    pub open spec fn balanced(&self) -> bool
        decreases self,
    {
        match self {
            BVTNode::Internal(_, l, r) => l.balanced() && r.balanced() && l.leaves().len() == (
            l.leaves().len() + r.leaves().len() + 1) / 2 && r.leaves().len() >= 1,
            BVTNode::Leaf(_, _) => true,
        }
    }
}

/// Along `axis`, no box center of `a` lies beyond a box center of `b`.
pub open spec fn separated_along<B>(a: Seq<(B, Aabb)>, b: Seq<(B, Aabb)>, axis: int) -> bool {
    forall|i: int, j: int|
        0 <= i < a.len() && 0 <= j < b.len() ==> #[trigger] a[i].1.center2(axis) <= #[trigger] b[j].1.center2(
            axis,
        )
}

impl<B> BVTNode<B> {
    /// At each internal node, the leaves of the left child lie, by their box
    /// centers along some axis, before those of the right child.
    pub open spec fn median_split(&self) -> bool
        decreases self,
    {
        match self {
            BVTNode::Internal(_, l, r) => l.median_split() && r.median_split() && exists|axis: int|
                0 <= axis < 3 && #[trigger] separated_along(l.leaves(), r.leaves(), axis),
            BVTNode::Leaf(_, _) => true,
        }
    }
}

/// The payloads of the leaves, left to right.
pub open spec fn payloads<B>(s: Seq<(B, Aabb)>) -> Seq<B> {
    s.map_values(|l: (B, Aabb)| l.0)
}

/// The payloads, left to right, of the leaves whose boxes meet `q`.
pub open spec fn hits<B>(s: Seq<(B, Aabb)>, q: Aabb) -> Seq<B> {
    payloads(s.filter(|l: (B, Aabb)| l.1.intersects_spec(&q)))
}

proof fn lemma_hits_add<B>(a: Seq<(B, Aabb)>, b: Seq<(B, Aabb)>, q: Aabb)
    ensures
        hits(a + b, q) == hits(a, q) + hits(b, q),
{
    let p = |l: (B, Aabb)| l.1.intersects_spec(&q);
    Seq::filter_distributes_over_add(a, b, p);
    assert(payloads(a.filter(p) + b.filter(p)) =~= payloads(a.filter(p)) + payloads(b.filter(p)));
}

proof fn lemma_payloads_add<B>(a: Seq<(B, Aabb)>, b: Seq<(B, Aabb)>)
    ensures
        payloads(a + b) == payloads(a) + payloads(b),
{
    assert(payloads(a + b) =~= payloads(a) + payloads(b));
}

proof fn lemma_hits_single<B>(b: B, bv: Aabb, q: Aabb)
    ensures
        hits(seq![(b, bv)], q) == if bv.intersects_spec(&q) { seq![b] } else { seq![] },
{
    let p = |l: (B, Aabb)| l.1.intersects_spec(&q);
    reveal_with_fuel(Seq::filter, 2);
    assert(seq![(b, bv)].drop_last() =~= Seq::<(B, Aabb)>::empty());
    if bv.intersects_spec(&q) {
        assert(hits(seq![(b, bv)], q) =~= seq![b]);
    } else {
        assert(hits(seq![(b, bv)], q) =~= Seq::<B>::empty());
    }
}

/// Every leaf box of a well-formed node lies in the node's box.
pub proof fn lemma_leaf_boxes_contained<B>(n: &BVTNode<B>, i: int)
    requires
        n.wf(),
        0 <= i < n.leaves().len(),
    ensures
        n.bv().contains_spec(&n.leaves()[i].1),
        n.leaves()[i].1.valid(),
    decreases n,
{
    match n {
        BVTNode::Internal(bv, l, r) => {
            lemma_merged_contains(l.bv(), r.bv());
            if i < l.leaves().len() {
                lemma_leaf_boxes_contained(l, i);
                assert(n.leaves()[i] == l.leaves()[i]);
            } else {
                lemma_leaf_boxes_contained(r, i - l.leaves().len());
                assert(n.leaves()[i] == r.leaves()[i - l.leaves().len()]);
            }
        },
        BVTNode::Leaf(bv, b) => {},
    }
}

/// A query box that misses a well-formed node's box misses all its leaves.
proof fn lemma_disjoint_no_hits<B>(n: &BVTNode<B>, q: Aabb)
    requires
        n.wf(),
        !n.bv().intersects_spec(&q),
    ensures
        hits(n.leaves(), q) == Seq::<B>::empty(),
{
    let p = |l: (B, Aabb)| l.1.intersects_spec(&q);
    assert forall|i: int| 0 <= i < n.leaves().len() implies !p(n.leaves()[i]) by {
        lemma_leaf_boxes_contained(n, i);
        if n.leaves()[i].1.intersects_spec(&q) {
            lemma_intersects_container(n.bv(), n.leaves()[i].1, q);
        }
    }
    n.leaves().lemma_all_neg_filter_empty(p);
    assert(hits(n.leaves(), q) =~= Seq::<B>::empty());
}

impl<B: Copy> BVTNode<B> {
    /// Appends to `out`, left to right, the payloads of the leaves whose
    /// boxes meet `q`, skipping each subtree whose box misses `q`.
    pub fn interferences_with_volume(&self, q: &Aabb, out: &mut Vec<B>)
        requires
            self.wf(),
        ensures
            final(out)@ == old(out)@ + hits(self.leaves(), *q),
        decreases self,
    {
        match self {
            BVTNode::Internal(bv, l, r) => {
                if bv.intersects(q) {
                    l.interferences_with_volume(q, out);
                    r.interferences_with_volume(q, out);
                    proof {
                        lemma_hits_add(l.leaves(), r.leaves(), *q);
                        assert(final(out)@ =~= old(out)@ + hits(self.leaves(), *q));
                    }
                } else {
                    proof {
                        lemma_disjoint_no_hits(self, *q);
                        assert(final(out)@ =~= old(out)@ + hits(self.leaves(), *q));
                    }
                }
            },
            BVTNode::Leaf(bv, b) => {
                proof {
                    lemma_hits_single(*b, *bv, *q);
                }
                if bv.intersects(q) {
                    out.push(*b);
                }
                proof {
                    assert(final(out)@ =~= old(out)@ + hits(self.leaves(), *q));
                }
            },
        }
    }
}


/// Every box in `s` is valid.
pub open spec fn all_valid<B>(s: Seq<(B, Aabb)>) -> bool {
    forall|i: int| 0 <= i < s.len() ==> (#[trigger] s[i]).1.valid()
}

/// The largest doubled center coordinate along `axis` in `s`.
pub open spec fn max_center<B>(s: Seq<(B, Aabb)>, axis: int) -> int
    decreases s.len(),
{
    if s.len() <= 1 {
        if s.len() == 0 { 0 } else { s[0].1.center2(axis) }
    } else {
        let m = max_center(s.drop_last(), axis);
        let c = s.last().1.center2(axis);
        if c > m { c } else { m }
    }
}

/// The smallest doubled center coordinate along `axis` in `s`.
pub open spec fn min_center<B>(s: Seq<(B, Aabb)>, axis: int) -> int
    decreases s.len(),
{
    if s.len() <= 1 {
        if s.len() == 0 { 0 } else { s[0].1.center2(axis) }
    } else {
        let m = min_center(s.drop_last(), axis);
        let c = s.last().1.center2(axis);
        if c < m { c } else { m }
    }
}

/// How far the box centers of `s` spread along `axis` (doubled).
pub open spec fn spread<B>(s: Seq<(B, Aabb)>, axis: int) -> int {
    max_center(s, axis) - min_center(s, axis)
}

/// The axis along which the box centers of `s` spread the most; the lowest
/// such axis on a tie.
pub open spec fn widest_axis<B>(s: Seq<(B, Aabb)>) -> int {
    if spread(s, 0) >= spread(s, 1) && spread(s, 0) >= spread(s, 2) {
        0
    } else if spread(s, 1) >= spread(s, 2) {
        1
    } else {
        2
    }
}

/// The box centers of `s` do not decrease along `axis`.
pub open spec fn sorted_along<B>(s: Seq<(B, Aabb)>, axis: int) -> bool {
    forall|i: int, j: int| 0 <= i < j < s.len() ==> s[i].1.center2(axis) <= s[j].1.center2(axis)
}

/// The smallest and largest doubled center coordinates along `axis`.
fn center_range<B>(leaves: &Vec<(B, Aabb)>, axis: usize) -> (r: (i128, i128))
    requires
        leaves@.len() >= 1,
        axis < 3,
    ensures
        r.0 == min_center(leaves@, axis as int),
        r.1 == max_center(leaves@, axis as int),
        i64::MIN + i64::MIN <= r.0 <= i64::MAX + i64::MAX,
        i64::MIN + i64::MIN <= r.1 <= i64::MAX + i64::MAX,
{
    let mut lo = leaves[0].1.center2_along(axis);
    let mut hi = lo;
    let mut i: usize = 1;
    proof {
        assert(leaves@.take(1).len() == 1);
    }
    while i < leaves.len()
        invariant
            1 <= i <= leaves@.len(),
            axis < 3,
            lo == min_center(leaves@.take(i as int), axis as int),
            hi == max_center(leaves@.take(i as int), axis as int),
            i64::MIN + i64::MIN <= lo <= i64::MAX + i64::MAX,
            i64::MIN + i64::MIN <= hi <= i64::MAX + i64::MAX,
        decreases leaves@.len() - i,
    {
        let c = leaves[i].1.center2_along(axis);
        proof {
            assert(leaves@.take(i + 1).drop_last() =~= leaves@.take(i as int));
            assert(leaves@.take(i + 1).last() == leaves@[i as int]);
        }
        if c < lo {
            lo = c;
        }
        if c > hi {
            hi = c;
        }
        i = i + 1;
    }
    proof {
        assert(leaves@.take(i as int) =~= leaves@);
    }
    (lo, hi)
}

/// The axis along which the box centers of `leaves` spread the most.
fn widest_axis_of<B>(leaves: &Vec<(B, Aabb)>) -> (axis: usize)
    requires
        leaves@.len() >= 1,
    ensures
        axis == widest_axis(leaves@),
{
    let (lo0, hi0) = center_range(leaves, 0);
    let (lo1, hi1) = center_range(leaves, 1);
    let (lo2, hi2) = center_range(leaves, 2);
    let s0 = hi0 - lo0;
    let s1 = hi1 - lo1;
    let s2 = hi2 - lo2;
    if s0 >= s1 && s0 >= s2 {
        0
    } else if s1 >= s2 {
        1
    } else {
        2
    }
}

/// The leaves ordered by their box centers along `axis`.
fn sort_by_center<B>(leaves: Vec<(B, Aabb)>, axis: usize) -> (r: Vec<(B, Aabb)>)
    requires
        axis < 3,
    ensures
        r@.to_multiset() == leaves@.to_multiset(),
        r@.len() == leaves@.len(),
        sorted_along(r@, axis as int),
{
    broadcast use vstd::seq_lib::group_to_multiset_ensures;
    broadcast use vstd::seq_lib::to_multiset_insert;

    let mut input = leaves;
    let mut sorted: Vec<(B, Aabb)> = Vec::new();
    while input.len() > 0
        invariant
            axis < 3,
            sorted@.to_multiset().add(input@.to_multiset()) == leaves@.to_multiset(),
            sorted@.len() + input@.len() == leaves@.len(),
            sorted_along(sorted@, axis as int),
        decreases input@.len(),
    {
        let ghost before = input@;
        let x = input.pop().unwrap();
        proof {
            assert(before =~= input@.push(x));
        }
        let key = x.1.center2_along(axis);
        let mut pos: usize = 0;
        while pos < sorted.len() && sorted[pos].1.center2_along(axis) <= key
            invariant
                0 <= pos <= sorted@.len(),
                axis < 3,
                forall|m: int| 0 <= m < pos ==> sorted@[m].1.center2(axis as int) <= key,
            decreases sorted@.len() - pos,
        {
            pos = pos + 1;
        }
        let ghost old_sorted = sorted@;
        sorted.insert(pos, x);
        proof {
            vstd::seq_lib::to_multiset_insert(old_sorted, pos as int, x);
            input@.to_multiset_ensures();
            assert(sorted@.to_multiset() == old_sorted.to_multiset().insert(x));
            assert(before.to_multiset() == input@.to_multiset().insert(x));
            assert(sorted@.to_multiset().add(input@.to_multiset()) =~= old_sorted.to_multiset().add(
                before.to_multiset(),
            ));
            old_sorted.insert_ensures(pos as int, x);
            assert forall|i: int, j: int| 0 <= i < j < sorted@.len() implies sorted@[i].1.center2(
                axis as int,
            ) <= sorted@[j].1.center2(axis as int) by {
                if j < pos {
                } else if j == pos {
                } else if i < pos {
                    assert(sorted@[j] == old_sorted[j - 1]);
                    assert(old_sorted[pos as int].1.center2(axis as int) > key);
                } else if i == pos {
                    assert(sorted@[j] == old_sorted[j - 1]);
                    assert(old_sorted[pos as int].1.center2(axis as int) > key);
                } else {
                    assert(sorted@[j] == old_sorted[j - 1]);
                    assert(sorted@[i] == old_sorted[i - 1]);
                }
            }
        }
    }
    sorted
}

/// Splits the leaves into two halves along the axis of greatest spread of
/// their box centers, at the median center: the first half holds the
/// `⌈k/2⌉` leaves with the lowest centers, the second the rest.
pub fn median_partitioner<B>(leaves: Vec<(B, Aabb)>) -> (r: (Vec<(B, Aabb)>, Vec<(B, Aabb)>))
    requires
        leaves@.len() >= 2,
    ensures
        r.0@.len() == (leaves@.len() + 1) / 2,
        r.1@.len() == leaves@.len() / 2,
        r.0@.to_multiset().add(r.1@.to_multiset()) == leaves@.to_multiset(),
        forall|i: int, j: int|
            0 <= i < r.0@.len() && 0 <= j < r.1@.len() ==> #[trigger] r.0@[i].1.center2(
                widest_axis(leaves@),
            ) <= #[trigger] r.1@[j].1.center2(widest_axis(leaves@)),
{
    let axis = widest_axis_of(&leaves);
    let n = leaves.len();
    let mut left = sort_by_center(leaves, axis);
    let ghost all = left@;
    let right = left.split_off(n - n / 2);
    proof {
        assert(all =~= left@ + right@);
        vstd::seq_lib::lemma_multiset_commutative(left@, right@);
        assert forall|i: int, j: int|
            0 <= i < left@.len() && 0 <= j < right@.len() implies #[trigger] left@[i].1.center2(
                axis as int,
            ) <= #[trigger] right@[j].1.center2(axis as int) by {
            assert(left@[i] == all[i]);
            assert(right@[j] == all[j + left@.len()]);
        }
    }
    (left, right)
}


/// Every element of `a` occurs in `b` when `a`'s multiset lies within `b`'s.
proof fn lemma_valid_from_multiset<B>(a: Seq<(B, Aabb)>, rest: Seq<(B, Aabb)>, b: Seq<(B, Aabb)>)
    requires
        a.to_multiset().add(rest.to_multiset()) == b.to_multiset(),
        all_valid(b),
    ensures
        all_valid(a),
{
    assert forall|i: int| 0 <= i < a.len() implies (#[trigger] a[i]).1.valid() by {
        a.to_multiset_ensures();
        b.to_multiset_ensures();
        assert(a.contains(a[i]));
        assert(b.to_multiset().count(a[i]) > 0);
        let k = choose|k: int| 0 <= k < b.len() && b[k] == a[i];
    }
}

impl<B> BVTNode<B> {
    /// The node's bounding box.
    pub fn bounding_volume(&self) -> (r: Aabb)
        ensures
            r == self.bv(),
    {
        match self {
            BVTNode::Internal(bv, _, _) => *bv,
            BVTNode::Leaf(bv, _) => *bv,
        }
    }

    /// Builds a balanced tree over the leaves by recursive median partition.
    pub fn build(leaves: Vec<(B, Aabb)>) -> (r: BVTNode<B>)
        requires
            leaves@.len() >= 1,
            all_valid(leaves@),
        ensures
            r.wf(),
            r.balanced(),
            r.median_split(),
            r.leaves().to_multiset() == leaves@.to_multiset(),
        decreases leaves@.len(),
    {
        if leaves.len() == 1 {
            let mut leaves = leaves;
            let ghost s = leaves@;
            let (b, bv) = leaves.pop().unwrap();
            proof {
                assert(s =~= seq![(b, bv)]);
                assert(s[0].1.valid());
            }
            BVTNode::Leaf(bv, b)
        } else {
            let ghost s = leaves@;
            let (left, right) = median_partitioner(leaves);
            proof {
                lemma_valid_from_multiset(left@, right@, s);
                assert(right@.to_multiset().add(left@.to_multiset()) =~= s.to_multiset());
                lemma_valid_from_multiset(right@, left@, s);
            }
            let l = BVTNode::build(left);
            let r = BVTNode::build(right);
            let bv = l.bounding_volume().merged(&r.bounding_volume());
            let node = BVTNode::Internal(bv, Box::new(l), Box::new(r));
            proof {
                vstd::seq_lib::lemma_multiset_commutative(l.leaves(), r.leaves());
                l.leaves().to_multiset_ensures();
                r.leaves().to_multiset_ensures();
                left@.to_multiset_ensures();
                right@.to_multiset_ensures();
                assert(l.leaves().len() == left@.len());
                assert(r.leaves().len() == right@.len());
                let axis = widest_axis(s);
                assert forall|i: int, j: int|
                    0 <= i < l.leaves().len() && 0 <= j < r.leaves().len() implies #[trigger] l.leaves()[i].1.center2(
                        axis,
                    ) <= #[trigger] r.leaves()[j].1.center2(axis) by {
                    assert(l.leaves().contains(l.leaves()[i]));
                    assert(left@.to_multiset().count(l.leaves()[i]) > 0);
                    let a = choose|a: int| 0 <= a < left@.len() && left@[a] == l.leaves()[i];
                    assert(r.leaves().contains(r.leaves()[j]));
                    assert(right@.to_multiset().count(r.leaves()[j]) > 0);
                    let b = choose|b: int| 0 <= b < right@.len() && right@[b] == r.leaves()[j];
                    assert(left@[a].1.center2(axis) <= right@[b].1.center2(axis));
                }
                assert(separated_along(l.leaves(), r.leaves(), axis));
            }
            node
        }
    }
}

/// A static bounding-volume tree over a non-empty set of leaves.
pub struct BVT<B> {
    pub tree: BVTNode<B>,
}

impl<B> BVT<B> {
    /// The tree is well formed.
    pub open spec fn wf(&self) -> bool {
        self.tree.wf()
    }

    /// Builds a balanced tree over the (payload, box) leaves by recursive
    /// median partition.
    pub fn new_balanced(leaves: Vec<(B, Aabb)>) -> (r: BVT<B>)
        requires
            leaves@.len() >= 1,
            all_valid(leaves@),
        ensures
            r.wf(),
            r.tree.balanced(),
            r.tree.median_split(),
            r.tree.leaves().to_multiset() == leaves@.to_multiset(),
    {
        BVT { tree: BVTNode::build(leaves) }
    }

    /// The box that bounds the whole tree.
    pub fn root_bounding_volume(&self) -> (r: Aabb)
        ensures
            r == self.tree.bv(),
    {
        self.tree.bounding_volume()
    }
}

impl<B: Copy> BVT<B> {
    /// The payloads, left to right, of the leaves whose boxes meet `q`.
    pub fn interferences_with_volume(&self, q: &Aabb) -> (r: Vec<B>)
        requires
            self.wf(),
        ensures
            r@ == hits(self.tree.leaves(), *q),
    {
        let mut out: Vec<B> = Vec::new();
        self.tree.interferences_with_volume(q, &mut out);
        proof {
            assert(out@ =~= hits(self.tree.leaves(), *q));
        }
        out
    }
}

/// Querying a well-formed node with a box that holds the node's box finds
/// every leaf.
proof fn lemma_container_hits_all<B>(n: &BVTNode<B>, q: Aabb)
    requires
        n.wf(),
        q.contains_spec(&n.bv()),
    ensures
        hits(n.leaves(), q) == payloads(n.leaves()),
{
    let p = |l: (B, Aabb)| l.1.intersects_spec(&q);
    let s = n.leaves();
    assert forall|i: int| 0 <= i < s.len() implies p(s[i]) by {
        lemma_leaf_boxes_contained(n, i);
        assert(q.contains_spec(&s[i].1));
        lemma_contained_intersects(q, s[i].1);
    }
    lemma_filter_all_true(s, p);
}

proof fn lemma_filter_all_true<A>(s: Seq<A>, p: spec_fn(A) -> bool)
    requires
        forall|i: int| 0 <= i < s.len() ==> p(s[i]),
    ensures
        s.filter(p) == s,
    decreases s.len(),
{
    reveal(Seq::filter);
    if s.len() > 0 {
        lemma_filter_all_true(s.drop_last(), p);
        assert(s.drop_last().push(s.last()) =~= s);
    } else {
        assert(s.filter(p) =~= s);
    }
}

/// A query with the root box of a well-formed tree returns the payload of
/// every leaf, and a query with a box disjoint from the root box returns none.
pub proof fn lemma_root_volume_query<B>(t: &BVT<B>, q: Aabb)
    requires
        t.wf(),
    ensures
        hits(t.tree.leaves(), t.tree.bv()) == payloads(t.tree.leaves()),
        hits(t.tree.leaves(), t.tree.bv()).len() == t.tree.leaves().len(),
        !q.intersects_spec(&t.tree.bv()) ==> hits(t.tree.leaves(), q).len() == 0,
{
    lemma_container_hits_all(&t.tree, t.tree.bv());
    if !q.intersects_spec(&t.tree.bv()) {
        lemma_disjoint_no_hits(&t.tree, q);
    }
}

} // verus!
