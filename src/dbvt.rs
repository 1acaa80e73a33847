//! A dynamic bounding-volume tree: leaves are inserted and removed one at a
//! time, and every internal box stays the exact merge of its children's.

use crate::bounding_volume::Aabb;
use crate::bvt::BVTNode;
use vstd::prelude::*;

verus! {

/// A leaf of the dynamic tree: its stable handle and its payload.
pub type DBVTLeaf<B> = (u64, B);

/// The sum of the extents of the merge of `a` and `b`, less that of `a`:
/// how much `a` must grow to hold `b`.
fn growth(a: &Aabb, b: &Aabb) -> i128 {
    let m = a.merged(b);
    let before = (a.maxs.x as i128 - a.mins.x as i128) + (a.maxs.y as i128 - a.mins.y as i128) + (
    a.maxs.z as i128 - a.mins.z as i128);
    let after = (m.maxs.x as i128 - m.mins.x as i128) + (m.maxs.y as i128 - m.mins.y as i128) + (
    m.maxs.z as i128 - m.mins.z as i128);
    after - before
}

/// Inserts a leaf below `node`, descending at each internal node into the
/// child whose box grows least, and refits the boxes on the way back up.
fn insert_node<T>(node: BVTNode<T>, leaf: (T, Aabb)) -> (r: BVTNode<T>)
    requires
        node.wf(),
        leaf.1.valid(),
    ensures
        r.wf(),
        r.leaves().to_multiset() == node.leaves().to_multiset().insert(leaf),
    decreases node,
{
    broadcast use vstd::seq_lib::lemma_multiset_commutative;

    proof {
        node.leaves().to_multiset_ensures();
        seq![leaf].to_multiset_ensures();
        assert(seq![leaf] =~= Seq::<(T, Aabb)>::empty().push(leaf));
        Seq::<(T, Aabb)>::empty().to_multiset_ensures();
        vstd::multiset::lemma_multiset_empty_len(Seq::<(T, Aabb)>::empty().to_multiset());
    }
    match node {
        BVTNode::Internal(bv, lb, rb) => {
            let l = *lb;
            let rt = *rb;
            proof {
                assert(l.wf() && rt.wf());
                l.leaves().to_multiset_ensures();
                rt.leaves().to_multiset_ensures();
            }
            if growth(&l.bounding_volume(), &leaf.1) <= growth(&rt.bounding_volume(), &leaf.1) {
                let nl = insert_node(l, leaf);
                let nbv = nl.bounding_volume().merged(&rt.bounding_volume());
                let res = BVTNode::Internal(nbv, Box::new(nl), Box::new(rt));
                proof {
                    assert(res.leaves() == nl.leaves() + rt.leaves());
                    assert(res.leaves().to_multiset() =~= nl.leaves().to_multiset().add(rt.leaves().to_multiset()));
                    assert(node.leaves().to_multiset() =~= l.leaves().to_multiset().add(rt.leaves().to_multiset()));
                    assert(res.leaves().to_multiset() =~= node.leaves().to_multiset().insert(leaf));
                }
                res
            } else {
                let nr = insert_node(rt, leaf);
                let nbv = l.bounding_volume().merged(&nr.bounding_volume());
                let res = BVTNode::Internal(nbv, Box::new(l), Box::new(nr));
                proof {
                    assert(res.leaves() == l.leaves() + nr.leaves());
                    assert(res.leaves().to_multiset() =~= l.leaves().to_multiset().add(nr.leaves().to_multiset()));
                    assert(node.leaves().to_multiset() =~= l.leaves().to_multiset().add(rt.leaves().to_multiset()));
                    assert(res.leaves().to_multiset() =~= node.leaves().to_multiset().insert(leaf));
                }
                res
            }
        },
        BVTNode::Leaf(bv, b) => {
            let nbv = bv.merged(&leaf.1);
            let (p, lbv) = leaf;
            let old_leaf = BVTNode::Leaf(bv, b);
            let new_leaf = BVTNode::Leaf(lbv, p);
            let res = BVTNode::Internal(nbv, Box::new(old_leaf), Box::new(new_leaf));
            proof {
                assert(old_leaf.wf() && new_leaf.wf());
                assert(old_leaf.leaves() == seq![(b, bv)]);
                assert(new_leaf.leaves() == seq![(p, lbv)]);
                assert(leaf == (p, lbv));
                assert(res.leaves() =~= node.leaves().push(leaf));
                node.leaves().to_multiset_ensures();
            }
            res
        },
    }
}

/// Whether a leaf's handle differs from `h`.
pub open spec fn handle_is_not<B>(h: u64) -> spec_fn((DBVTLeaf<B>, Aabb)) -> bool {
    |l: (DBVTLeaf<B>, Aabb)| l.0.0 != h
}

/// The leaves of `s` whose handle is not `h`.
pub open spec fn without_handle<B>(s: Seq<(DBVTLeaf<B>, Aabb)>, h: u64) -> Seq<(DBVTLeaf<B>, Aabb)> {
    s.filter(handle_is_not(h))
}

/// Removes from below `node` every leaf with handle `h`: a removed leaf's
/// sibling takes its parent's place, and the boxes above are refitted.
fn remove_node<B>(node: BVTNode<DBVTLeaf<B>>, h: u64) -> (r: Option<BVTNode<DBVTLeaf<B>>>)
    requires
        node.wf(),
    ensures
        r is None ==> without_handle(node.leaves(), h).len() == 0,
        r matches Some(n) ==> n.wf() && n.leaves() == without_handle(node.leaves(), h),
    decreases node,
{
    let ghost all = node.leaves();
    let ghost p = handle_is_not::<B>(h);
    match node {
        BVTNode::Internal(bv, l, r) => {
            let l = *l;
            let r = *r;
            proof {
                Seq::filter_distributes_over_add(l.leaves(), r.leaves(), p);
            }
            let nl = remove_node(l, h);
            let nr = remove_node(r, h);
            match (nl, nr) {
                (None, None) => None,
                (Some(a), None) => {
                    proof {
                        assert(without_handle(all, h) =~= a.leaves());
                    }
                    Some(a)
                },
                (None, Some(c)) => {
                    proof {
                        assert(without_handle(all, h) =~= c.leaves());
                    }
                    Some(c)
                },
                (Some(a), Some(c)) => {
                    let nbv = a.bounding_volume().merged(&c.bounding_volume());
                    Some(BVTNode::Internal(nbv, Box::new(a), Box::new(c)))
                },
            }
        },
        BVTNode::Leaf(bv, leaf) => {
            proof {
                reveal_with_fuel(Seq::filter, 2);
                assert(all.drop_last() =~= Seq::<(DBVTLeaf<B>, Aabb)>::empty());
            }
            if leaf.0 == h {
                None
            } else {
                let n = BVTNode::Leaf(bv, leaf);
                proof {
                    assert(without_handle(all, h) =~= all);
                }
                Some(n)
            }
        },
    }
}

/// A dynamic bounding-volume tree; each leaf carries the handle that
/// `insert` returned for it.
pub struct DBVT<B> {
    pub root: Option<BVTNode<DBVTLeaf<B>>>,
    pub next_handle: u64,
}

impl<B> DBVT<B> {
    /// The leaves, as ((handle, payload), box) pairs.
    pub open spec fn leaves(&self) -> Seq<(DBVTLeaf<B>, Aabb)> {
        match self.root {
            Some(n) => n.leaves(),
            None => seq![],
        }
    }

    /// Every box of the tree bounds its subtree exactly, and every handle is
    /// below the next one to be given out.
    pub open spec fn wf(&self) -> bool {
        &&& (self.root matches Some(n) ==> n.wf())
        &&& forall|i: int| 0 <= i < self.leaves().len() ==> (#[trigger] self.leaves()[i]).0.0 < self.next_handle
    }

    /// An empty tree.
    pub fn new() -> (r: DBVT<B>)
        ensures
            r.wf(),
            r.leaves().len() == 0,
    {
        DBVT { root: None, next_handle: 0 }
    }

    /// Whether the tree has no leaves.
    pub fn is_empty(&self) -> (r: bool)
        ensures
            r == (self.leaves().len() == 0),
    {
        match &self.root {
            None => true,
            Some(n) => {
                proof {
                    lemma_leaves_nonempty(n);
                }
                false
            },
        }
    }

    /// Inserts a leaf with box `bv` and payload `b`, and returns its handle,
    /// a value that no leaf of the tree has had before.
    pub fn insert(&mut self, bv: Aabb, b: B) -> (h: u64)
        requires
            old(self).wf(),
            bv.valid(),
            old(self).next_handle < u64::MAX,
        ensures
            final(self).wf(),
            h == old(self).next_handle,
            final(self).next_handle == h + 1,
            final(self).leaves().to_multiset() == old(self).leaves().to_multiset().insert(((h, b), bv)),
    {
        let h = self.next_handle;
        let ghost old_leaves = self.leaves();
        let root = self.root.take();
        let new_root = match root {
            None => {
                let n = BVTNode::Leaf(bv, (h, b));
                proof {
                    assert(old_leaves =~= Seq::<(DBVTLeaf<B>, Aabb)>::empty());
                    old_leaves.to_multiset_ensures();
                    vstd::multiset::lemma_multiset_empty_len(old_leaves.to_multiset());
                    Seq::<(DBVTLeaf<B>, Aabb)>::empty().to_multiset_ensures();
                    vstd::multiset::lemma_multiset_empty_len(Seq::<(DBVTLeaf<B>, Aabb)>::empty().to_multiset());
                    assert(n.leaves() =~= Seq::<(DBVTLeaf<B>, Aabb)>::empty().push(((h, b), bv)));
                }
                n
            },
            Some(n) => insert_node(n, ((h, b), bv)),
        };
        proof {
            let s = new_root.leaves();
            s.to_multiset_ensures();
            old_leaves.to_multiset_ensures();
            assert forall|i: int| 0 <= i < s.len() implies (#[trigger] s[i]).0.0 < h + 1 by {
                assert(s.contains(s[i]));
                assert(s.to_multiset().count(s[i]) > 0);
                if s[i] != ((h, b), bv) {
                    assert(old_leaves.to_multiset().count(s[i]) > 0);
                    assert(old_leaves.contains(s[i]));
                }
            }
        }
        self.root = Some(new_root);
        self.next_handle = h + 1;
        h
    }

    /// Removes the leaf with handle `h`; its sibling takes its parent's place
    /// and the boxes above it are refitted.
    pub fn remove(&mut self, h: u64)
        requires
            old(self).wf(),
            exists|i: int| 0 <= i < old(self).leaves().len() && (#[trigger] old(self).leaves()[i]).0.0 == h,
        ensures
            final(self).wf(),
            final(self).next_handle == old(self).next_handle,
            final(self).leaves() == without_handle(old(self).leaves(), h),
    {
        let ghost old_leaves = self.leaves();
        let root = self.root.take();
        match root {
            None => {},
            Some(n) => {
                self.root = remove_node(n, h);
            },
        }
        proof {
            let p = handle_is_not::<B>(h);
            let s = self.leaves();
            if self.root is None {
                assert(s =~= without_handle(old_leaves, h));
            }
            assert forall|i: int| 0 <= i < s.len() implies (#[trigger] s[i]).0.0 < self.next_handle by {
                assert(s.contains(s[i]));
                old_leaves.lemma_filter_contains_rev(p, s[i]);
                let k = choose|k: int| 0 <= k < old_leaves.len() && old_leaves[k] == s[i];
            }
        }
    }
}

proof fn lemma_leaves_nonempty<T>(n: &BVTNode<T>)
    ensures
        n.leaves().len() > 0,
    decreases n,
{
    match n {
        BVTNode::Internal(_, l, r) => {
            lemma_leaves_nonempty(l);
        },
        BVTNode::Leaf(_, _) => {},
    }
}


/// The leaves of `s` left after removing the handles of `hs`, in order.
pub open spec fn without_handles<B>(s: Seq<(DBVTLeaf<B>, Aabb)>, hs: Seq<u64>) -> Seq<(DBVTLeaf<B>, Aabb)>
    decreases hs.len(),
{
    if hs.len() == 0 {
        s
    } else {
        without_handle(without_handles(s, hs.drop_last()), hs.last())
    }
}

proof fn lemma_without_handles_elements<B>(s: Seq<(DBVTLeaf<B>, Aabb)>, hs: Seq<u64>, e: (DBVTLeaf<B>, Aabb))
    requires
        without_handles(s, hs).contains(e),
    ensures
        s.contains(e),
        !hs.contains(e.0.0),
    decreases hs.len(),
{
    if hs.len() > 0 {
        let prev = without_handles(s, hs.drop_last());
        let p = handle_is_not::<B>(hs.last());
        prev.lemma_filter_contains_rev(p, e);
        assert(prev.filter(p).contains(e));
        let k = choose|k: int| 0 <= k < prev.filter(p).len() && prev.filter(p)[k] == e;
        prev.lemma_filter_pred(p, k);
        lemma_without_handles_elements(s, hs.drop_last(), e);
        if hs.contains(e.0.0) {
            let m = choose|m: int| 0 <= m < hs.len() && hs[m] == e.0.0;
            if m < hs.len() - 1 {
                assert(hs.drop_last()[m] == e.0.0);
            }
        }
    }
}

/// Removing, in any order, the handles of every leaf leaves no leaf; each
/// removal keeps the tree well formed (see `DBVT::remove`).
pub proof fn lemma_remove_all_leaves_empty<B>(s: Seq<(DBVTLeaf<B>, Aabb)>, hs: Seq<u64>)
    requires
        forall|i: int| 0 <= i < s.len() ==> hs.contains(#[trigger] s[i].0.0),
    ensures
        without_handles(s, hs).len() == 0,
{
    let r = without_handles(s, hs);
    if r.len() > 0 {
        assert(r.contains(r[0]));
        lemma_without_handles_elements(s, hs, r[0]);
        let k = choose|k: int| 0 <= k < s.len() && s[k] == r[0];
        assert(hs.contains(s[k].0.0));
    }
}

} // verus!
