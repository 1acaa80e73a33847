//! Simultaneous descent of two bounding-volume trees, enumerating the pairs
//! of leaves whose boxes meet.

use crate::bounding_volume::{Aabb, lemma_intersects_container};
use crate::bvt::{BVT, BVTNode, lemma_leaf_boxes_contained};
use vstd::multiset::Multiset;
use vstd::prelude::*;

verus! {

/// The pairs `(x, y)` of payloads, `y` from `sb` in order, whose boxes meet.
pub open spec fn row_pairs<B>(x: (B, Aabb), sb: Seq<(B, Aabb)>) -> Seq<(B, B)>
    decreases sb.len(),
{
    if sb.len() == 0 {
        seq![]
    } else if x.1.intersects_spec(&sb.last().1) {
        row_pairs(x, sb.drop_last()).push((x.0, sb.last().0))
    } else {
        row_pairs(x, sb.drop_last())
    }
}

/// Every pair of payloads, one leaf from `sa` and one from `sb`, whose boxes
/// meet.
pub open spec fn cross_pairs<B>(sa: Seq<(B, Aabb)>, sb: Seq<(B, Aabb)>) -> Seq<(B, B)>
    decreases sa.len(),
{
    if sa.len() == 0 {
        seq![]
    } else {
        cross_pairs(sa.drop_last(), sb) + row_pairs(sa.last(), sb)
    }
}

/// Every unordered pair of distinct leaves of `s` whose boxes meet, once,
/// as `(later, earlier)`.
pub open spec fn self_pairs<B>(s: Seq<(B, Aabb)>) -> Seq<(B, B)>
    decreases s.len(),
{
    if s.len() == 0 {
        seq![]
    } else {
        self_pairs(s.drop_last()) + row_pairs(s.last(), s.drop_last())
    }
}

proof fn lemma_empty_to_multiset<A>(s: Seq<A>)
    requires
        s.len() == 0,
    ensures
        s.to_multiset() =~= Multiset::<A>::empty(),
{
    s.to_multiset_ensures();
    vstd::multiset::lemma_multiset_empty_len(s.to_multiset());
}

proof fn lemma_row_pairs_add<B>(x: (B, Aabb), b1: Seq<(B, Aabb)>, b2: Seq<(B, Aabb)>)
    ensures
        row_pairs(x, b1 + b2) == row_pairs(x, b1) + row_pairs(x, b2),
    decreases b2.len(),
{
    if b2.len() == 0 {
        assert(b1 + b2 =~= b1);
        assert(row_pairs(x, b1) + row_pairs(x, b2) =~= row_pairs(x, b1));
    } else {
        assert((b1 + b2).drop_last() =~= b1 + b2.drop_last());
        assert((b1 + b2).last() == b2.last());
        lemma_row_pairs_add(x, b1, b2.drop_last());
        assert(row_pairs(x, b1 + b2) =~= row_pairs(x, b1) + row_pairs(x, b2));
    }
}

proof fn lemma_cross_pairs_add_left<B>(a1: Seq<(B, Aabb)>, a2: Seq<(B, Aabb)>, sb: Seq<(B, Aabb)>)
    ensures
        cross_pairs(a1 + a2, sb) == cross_pairs(a1, sb) + cross_pairs(a2, sb),
    decreases a2.len(),
{
    if a2.len() == 0 {
        assert(a1 + a2 =~= a1);
        assert(cross_pairs(a1, sb) + cross_pairs(a2, sb) =~= cross_pairs(a1, sb));
    } else {
        assert((a1 + a2).drop_last() =~= a1 + a2.drop_last());
        assert((a1 + a2).last() == a2.last());
        lemma_cross_pairs_add_left(a1, a2.drop_last(), sb);
        assert(cross_pairs(a1 + a2, sb) =~= cross_pairs(a1, sb) + cross_pairs(a2, sb));
    }
}

proof fn lemma_cross_pairs_add_right<B>(sa: Seq<(B, Aabb)>, b1: Seq<(B, Aabb)>, b2: Seq<(B, Aabb)>)
    ensures
        cross_pairs(sa, b1 + b2).to_multiset() =~= cross_pairs(sa, b1).to_multiset().add(
            cross_pairs(sa, b2).to_multiset(),
        ),
    decreases sa.len(),
{
    broadcast use vstd::seq_lib::lemma_multiset_commutative;

    if sa.len() > 0 {
        lemma_cross_pairs_add_right(sa.drop_last(), b1, b2);
        lemma_row_pairs_add(sa.last(), b1, b2);
        vstd::seq_lib::lemma_multiset_commutative(cross_pairs(sa.drop_last(), b1 + b2), row_pairs(sa.last(), b1 + b2));
        vstd::seq_lib::lemma_multiset_commutative(row_pairs(sa.last(), b1), row_pairs(sa.last(), b2));
        vstd::seq_lib::lemma_multiset_commutative(cross_pairs(sa.drop_last(), b1), row_pairs(sa.last(), b1));
        vstd::seq_lib::lemma_multiset_commutative(cross_pairs(sa.drop_last(), b2), row_pairs(sa.last(), b2));
    } else {
        lemma_empty_to_multiset(cross_pairs(sa, b1 + b2));
        lemma_empty_to_multiset(cross_pairs(sa, b1));
        lemma_empty_to_multiset(cross_pairs(sa, b2));
    }
}

proof fn lemma_self_pairs_add<B>(l: Seq<(B, Aabb)>, r: Seq<(B, Aabb)>)
    ensures
        self_pairs(l + r).to_multiset() =~= self_pairs(l).to_multiset().add(
            self_pairs(r).to_multiset(),
        ).add(cross_pairs(r, l).to_multiset()),
    decreases r.len(),
{
    broadcast use vstd::seq_lib::lemma_multiset_commutative;

    if r.len() == 0 {
        assert(l + r =~= l);
        lemma_empty_to_multiset(self_pairs(r));
        lemma_empty_to_multiset(cross_pairs(r, l));
    } else {
        let x = r.last();
        let r0 = r.drop_last();
        assert((l + r).drop_last() =~= l + r0);
        assert((l + r).last() == x);
        lemma_self_pairs_add(l, r0);
        assert(self_pairs(l + r) == self_pairs(l + r0) + row_pairs(x, l + r0));
        assert(self_pairs(r) == self_pairs(r0) + row_pairs(x, r0));
        assert(cross_pairs(r, l) == cross_pairs(r0, l) + row_pairs(x, l));
        lemma_row_pairs_add(x, l, r0);
        vstd::seq_lib::lemma_multiset_commutative(self_pairs(l + r0), row_pairs(x, l + r0));
        vstd::seq_lib::lemma_multiset_commutative(row_pairs(x, l), row_pairs(x, r0));
        vstd::seq_lib::lemma_multiset_commutative(self_pairs(r0), row_pairs(x, r0));
        vstd::seq_lib::lemma_multiset_commutative(cross_pairs(r0, l), row_pairs(x, l));
    }
}

proof fn lemma_empty_row<B>(x: (B, Aabb), sb: Seq<(B, Aabb)>)
    requires
        forall|j: int| 0 <= j < sb.len() ==> !x.1.intersects_spec(&sb[j].1),
    ensures
        row_pairs(x, sb) == Seq::<(B, B)>::empty(),
    decreases sb.len(),
{
    if sb.len() > 0 {
        lemma_empty_row(x, sb.drop_last());
    } else {
        assert(row_pairs(x, sb) =~= Seq::<(B, B)>::empty());
    }
}

proof fn lemma_empty_rows<B>(sa: Seq<(B, Aabb)>, sb: Seq<(B, Aabb)>)
    requires
        forall|i: int, j: int|
            0 <= i < sa.len() && 0 <= j < sb.len() ==> !sa[i].1.intersects_spec(&sb[j].1),
    ensures
        cross_pairs(sa, sb) == Seq::<(B, B)>::empty(),
    decreases sa.len(),
{
    if sa.len() > 0 {
        let x = sa.last();
        assert forall|j: int| 0 <= j < sb.len() implies !x.1.intersects_spec(&sb[j].1) by {
            assert(x == sa[sa.len() - 1]);
        }
        lemma_empty_row(x, sb);
        lemma_empty_rows(sa.drop_last(), sb);
        assert(cross_pairs(sa, sb) =~= Seq::<(B, B)>::empty());
    } else {
        assert(cross_pairs(sa, sb) =~= Seq::<(B, B)>::empty());
    }
}

/// No pair of leaves meets when the boxes of two well-formed nodes do not.
proof fn lemma_disjoint_no_pairs<B>(a: &BVTNode<B>, b: &BVTNode<B>)
    requires
        a.wf(),
        b.wf(),
        !a.bv().intersects_spec(&b.bv()),
    ensures
        cross_pairs(a.leaves(), b.leaves()) == Seq::<(B, B)>::empty(),
{
    let sa = a.leaves();
    let sb = b.leaves();
    assert forall|i: int, j: int|
        0 <= i < sa.len() && 0 <= j < sb.len() implies !sa[i].1.intersects_spec(&sb[j].1) by {
        lemma_leaf_boxes_contained(a, i);
        lemma_leaf_boxes_contained(b, j);
        if sa[i].1.intersects_spec(&sb[j].1) {
            lemma_intersects_container(a.bv(), sa[i].1, sb[j].1);
            assert(sb[j].1.intersects_spec(&a.bv()));
            lemma_intersects_container(b.bv(), sb[j].1, a.bv());
        }
    }
    lemma_empty_rows(sa, sb);
}

/// The sum of the box's extents along the three axes.
fn extent_sum(bv: &Aabb) -> i128 {
    (bv.maxs.x as i128 - bv.mins.x as i128) + (bv.maxs.y as i128 - bv.mins.y as i128) + (
    bv.maxs.z as i128 - bv.mins.z as i128)
}

/// Appends to `out` every pair of payloads, one from a leaf of `a` and one
/// from a leaf of `b`, whose boxes meet. A pair of nodes whose boxes miss
/// each other is pruned; otherwise the side with the larger box (by the sum
/// of its extents) is expanded first.
fn visit_pair<B: Copy>(a: &BVTNode<B>, b: &BVTNode<B>, out: &mut Vec<(B, B)>)
    requires
        a.wf(),
        b.wf(),
    ensures
        final(out)@.to_multiset() =~= old(out)@.to_multiset().add(
            cross_pairs(a.leaves(), b.leaves()).to_multiset(),
        ),
    decreases a, b,
{
    broadcast use vstd::seq_lib::lemma_multiset_commutative;

    let ghost start = out@;
    if !a.bounding_volume().intersects(&b.bounding_volume()) {
        proof {
            lemma_disjoint_no_pairs(a, b);
            lemma_empty_to_multiset(cross_pairs(a.leaves(), b.leaves()));
        }
        return;
    }
    let expand_a = match (a, b) {
        (BVTNode::Leaf(_, _), _) => false,
        (_, BVTNode::Leaf(_, _)) => true,
        (_, _) => extent_sum(&a.bounding_volume()) >= extent_sum(&b.bounding_volume()),
    };
    match (a, b) {
        (BVTNode::Leaf(abv, ab), BVTNode::Leaf(bbv, bb)) => {
            out.push((*ab, *bb));
            proof {
                let x = (*ab, *abv);
                let sb = seq![(*bb, *bbv)];
                assert(sb.drop_last() =~= Seq::<(B, Aabb)>::empty());
                assert(a.bv().intersects_spec(&b.bv()));
                assert(row_pairs(x, sb.drop_last()) =~= Seq::<(B, B)>::empty());
                assert(row_pairs(x, sb) =~= seq![(*ab, *bb)]);
                assert(a.leaves().last() == x);
                assert(a.leaves().drop_last() =~= Seq::<(B, Aabb)>::empty());
                assert(cross_pairs(a.leaves().drop_last(), b.leaves()) =~= Seq::<(B, B)>::empty());
                assert(cross_pairs(a.leaves(), b.leaves()) =~= seq![(*ab, *bb)]);
                assert(out@ =~= start + seq![(*ab, *bb)]);
            }
        },
        _ => {
            if expand_a {
                match a {
                    BVTNode::Internal(_, l, r) => {
                        visit_pair(l, b, out);
                        visit_pair(r, b, out);
                        proof {
                            lemma_cross_pairs_add_left(l.leaves(), r.leaves(), b.leaves());
                        }
                    },
                    BVTNode::Leaf(_, _) => {},
                }
            } else {
                match b {
                    BVTNode::Internal(_, l, r) => {
                        visit_pair(a, l, out);
                        visit_pair(a, r, out);
                        proof {
                            lemma_cross_pairs_add_right(a.leaves(), l.leaves(), r.leaves());
                        }
                    },
                    BVTNode::Leaf(_, _) => {},
                }
            }
        },
    }
}


/// Appends to `out` every unordered pair of distinct leaves of `n` whose
/// boxes meet, once each, as `(later, earlier)` payloads.
fn visit_self<B: Copy>(n: &BVTNode<B>, out: &mut Vec<(B, B)>)
    requires
        n.wf(),
    ensures
        final(out)@.to_multiset() =~= old(out)@.to_multiset().add(self_pairs(n.leaves()).to_multiset()),
    decreases n,
{
    broadcast use vstd::seq_lib::lemma_multiset_commutative;

    match n {
        BVTNode::Internal(_, l, r) => {
            visit_self(l, out);
            visit_self(r, out);
            visit_pair(r, l, out);
            proof {
                lemma_self_pairs_add(l.leaves(), r.leaves());
            }
        },
        BVTNode::Leaf(_, _) => {
            proof {
                let s = n.leaves();
                assert(s.drop_last() =~= Seq::<(B, Aabb)>::empty());
                assert(row_pairs(s.last(), s.drop_last()) =~= Seq::<(B, B)>::empty());
                assert(self_pairs(s.drop_last()) =~= Seq::<(B, B)>::empty());
                assert(self_pairs(s) =~= Seq::<(B, B)>::empty());
                lemma_empty_to_multiset(self_pairs(s));
            }
        },
    }
}

impl<B: Copy> BVT<B> {
    /// Every pair of payloads, one from a leaf of this tree and one from a
    /// leaf of `other`, whose boxes meet, each pair as often as it occurs.
    pub fn interferences_with_tree(&self, other: &BVT<B>) -> (r: Vec<(B, B)>)
        requires
            self.wf(),
            other.wf(),
        ensures
            r@.to_multiset() == cross_pairs(self.tree.leaves(), other.tree.leaves()).to_multiset(),
    {
        let mut out: Vec<(B, B)> = Vec::new();
        proof {
            lemma_empty_to_multiset(out@);
        }
        visit_pair(&self.tree, &other.tree, &mut out);
        out
    }

    /// Every unordered pair of distinct leaves of this tree whose boxes
    /// meet, once each, as `(later, earlier)` payloads in leaf order.
    pub fn self_interferences(&self) -> (r: Vec<(B, B)>)
        requires
            self.wf(),
        ensures
            r@.to_multiset() == self_pairs(self.tree.leaves()).to_multiset(),
    {
        let mut out: Vec<(B, B)> = Vec::new();
        proof {
            lemma_empty_to_multiset(out@);
        }
        visit_self(&self.tree, &mut out);
        out
    }
}


/// No two leaves of `s` carry the same payload.
pub open spec fn distinct_payloads<B>(s: Seq<(B, Aabb)>) -> bool {
    forall|a: int, b: int| 0 <= a < b < s.len() ==> s[a].0 != s[b].0
}

/// Some leaf of `s` carries the payload `p`.
pub open spec fn payload_in<B>(s: Seq<(B, Aabb)>, p: B) -> bool {
    exists|k: int| 0 <= k < s.len() && s[k].0 == p
}

proof fn lemma_concat_no_duplicates<A>(a: Seq<A>, b: Seq<A>)
    requires
        a.no_duplicates(),
        b.no_duplicates(),
        forall|e: A| a.contains(e) ==> !b.contains(e),
    ensures
        (a + b).no_duplicates(),
{
    let c = a + b;
    assert forall|i: int, j: int| 0 <= i < c.len() && 0 <= j < c.len() && i != j implies c[i]
        != c[j] by {
        if i < a.len() && j >= a.len() {
            assert(a.contains(c[i]));
            assert(b[j - a.len()] == c[j]);
        } else if j < a.len() && i >= a.len() {
            assert(a.contains(c[j]));
            assert(b[i - a.len()] == c[i]);
        } else if i >= a.len() {
            assert(b[i - a.len()] == c[i] && b[j - a.len()] == c[j]);
        }
    }
}

/// What a row holds: pairs led by `x`'s payload, closed by a payload of `sb`.
proof fn lemma_row_elements<B>(x: (B, Aabb), sb: Seq<(B, Aabb)>, e: (B, B))
    requires
        row_pairs(x, sb).contains(e),
    ensures
        e.0 == x.0,
        payload_in(sb, e.1),
    decreases sb.len(),
{
    let s0 = sb.drop_last();
    if x.1.intersects_spec(&sb.last().1) && e == (x.0, sb.last().0) {
        assert(sb[sb.len() - 1].0 == e.1);
    } else {
        if x.1.intersects_spec(&sb.last().1) {
            let k = choose|k: int| 0 <= k < row_pairs(x, sb).len() && row_pairs(x, sb)[k] == e;
            assert(row_pairs(x, s0)[k] == e);
        }
        assert(row_pairs(x, s0).contains(e));
        lemma_row_elements(x, s0, e);
        let k = choose|k: int| 0 <= k < s0.len() && s0[k].0 == e.1;
        assert(sb[k] == s0[k]);
    }
}

/// A row over leaves with distinct payloads holds no pair twice, and holds
/// the pair of `x` with leaf `k` exactly when their boxes meet.
proof fn lemma_row_exact<B>(x: (B, Aabb), sb: Seq<(B, Aabb)>, k: int)
    requires
        distinct_payloads(sb),
    ensures
        row_pairs(x, sb).no_duplicates(),
        0 <= k < sb.len() ==> (row_pairs(x, sb).contains((x.0, sb[k].0)) <==> x.1.intersects_spec(
            &sb[k].1,
        )),
    decreases sb.len(),
{
    if sb.len() > 0 {
        let s0 = sb.drop_last();
        let y = sb.last();
        let n = sb.len() - 1;
        assert(distinct_payloads(s0));
        lemma_row_exact(x, s0, k);
        let r0 = row_pairs(x, s0);
        if r0.contains((x.0, y.0)) {
            lemma_row_elements(x, s0, (x.0, y.0));
            let m = choose|m: int| 0 <= m < s0.len() && s0[m].0 == y.0;
            assert(sb[m] == s0[m]);
        }
        if x.1.intersects_spec(&y.1) {
            assert(r0.push((x.0, y.0)) =~= r0 + seq![(x.0, y.0)]);
            lemma_concat_no_duplicates(r0, seq![(x.0, y.0)]);
            assert(r0.push((x.0, y.0))[r0.len() as int] == (x.0, y.0));
        }
        if 0 <= k < n {
            assert(sb[k] == s0[k]);
            if row_pairs(x, sb).contains((x.0, sb[k].0)) && !r0.contains((x.0, sb[k].0)) {
                let m = choose|m: int| 0 <= m < row_pairs(x, sb).len() && row_pairs(x, sb)[m] == (x.0, sb[k].0);
                if m < r0.len() {
                    assert(row_pairs(x, sb)[m] == r0[m]);
                }
            }
            if r0.contains((x.0, sb[k].0)) && x.1.intersects_spec(&y.1) {
                let m = choose|m: int| 0 <= m < r0.len() && r0[m] == (x.0, sb[k].0);
                assert(row_pairs(x, sb)[m] == r0[m]);
            }
        }
        if k == n {
            if row_pairs(x, sb).contains((x.0, sb[k].0)) && !x.1.intersects_spec(&y.1) {
                lemma_row_elements(x, s0, (x.0, y.0));
                let m = choose|m: int| 0 <= m < s0.len() && s0[m].0 == y.0;
                assert(sb[m] == s0[m]);
            }
        }
    }
}

/// What the self pairs hold: pairs of payloads of `s`.
proof fn lemma_self_elements<B>(s: Seq<(B, Aabb)>, e: (B, B))
    requires
        self_pairs(s).contains(e),
    ensures
        payload_in(s, e.0),
        payload_in(s, e.1),
    decreases s.len(),
{
    let s0 = s.drop_last();
    let a = self_pairs(s0);
    let b = row_pairs(s.last(), s0);
    let m = choose|m: int| 0 <= m < (a + b).len() && (a + b)[m] == e;
    if m < a.len() {
        assert(a.contains(e));
        lemma_self_elements(s0, e);
        let k1 = choose|k: int| 0 <= k < s0.len() && s0[k].0 == e.0;
        let k2 = choose|k: int| 0 <= k < s0.len() && s0[k].0 == e.1;
        assert(s[k1] == s0[k1] && s[k2] == s0[k2]);
    } else {
        assert(b[m - a.len()] == e);
        assert(b.contains(e));
        lemma_row_elements(s.last(), s0, e);
        let k2 = choose|k: int| 0 <= k < s0.len() && s0[k].0 == e.1;
        assert(s[k2] == s0[k2]);
        assert(s[s.len() - 1].0 == e.0);
    }
}

/// On leaves with distinct payloads, the self pairs hold no pair twice;
/// they hold `(s[i], s[j])` for `j < i` exactly when the two boxes meet, and
/// never `(s[j], s[i])`.
proof fn lemma_self_exact<B>(s: Seq<(B, Aabb)>, i: int, j: int)
    requires
        distinct_payloads(s),
    ensures
        self_pairs(s).no_duplicates(),
        0 <= j < i < s.len() ==> (self_pairs(s).contains((s[i].0, s[j].0)) <==> s[i].1.intersects_spec(
            &s[j].1,
        )),
        0 <= j < i < s.len() ==> !self_pairs(s).contains((s[j].0, s[i].0)),
    decreases s.len(),
{
    if s.len() > 0 {
        let s0 = s.drop_last();
        let x = s.last();
        let n = s.len() - 1;
        let a = self_pairs(s0);
        let b = row_pairs(x, s0);
        assert(distinct_payloads(s0));
        lemma_self_exact(s0, i, j);
        lemma_row_exact(x, s0, j);
        assert forall|e: (B, B)| a.contains(e) implies !b.contains(e) by {
            lemma_self_elements(s0, e);
            if b.contains(e) {
                lemma_row_elements(x, s0, e);
                let k = choose|k: int| 0 <= k < s0.len() && s0[k].0 == e.0;
                assert(s[k] == s0[k]);
            }
        }
        lemma_concat_no_duplicates(a, b);
        assert(self_pairs(s) == a + b);
        if 0 <= j < i < s.len() {
            assert(s[j] == s0[j]);
            // A pair that lies in the concatenation lies in one of its parts.
            assert forall|e: (B, B)| (a + b).contains(e) implies a.contains(e) || b.contains(e) by {
                let m = choose|m: int| 0 <= m < (a + b).len() && (a + b)[m] == e;
                if m < a.len() {
                    assert(a[m] == e);
                } else {
                    assert(b[m - a.len()] == e);
                }
            }
            assert forall|e: (B, B)| a.contains(e) || b.contains(e) implies (a + b).contains(e) by {
                if a.contains(e) {
                    let m = choose|m: int| 0 <= m < a.len() && a[m] == e;
                    assert((a + b)[m] == e);
                } else {
                    let m = choose|m: int| 0 <= m < b.len() && b[m] == e;
                    assert((a + b)[m + a.len()] == e);
                }
            }
            if i == n {
                if a.contains((s[i].0, s[j].0)) {
                    lemma_self_elements(s0, (s[i].0, s[j].0));
                    let k = choose|k: int| 0 <= k < s0.len() && s0[k].0 == s[i].0;
                    assert(s[k] == s0[k]);
                }
                if a.contains((s[j].0, s[i].0)) {
                    lemma_self_elements(s0, (s[j].0, s[i].0));
                    let k = choose|k: int| 0 <= k < s0.len() && s0[k].0 == s[i].0;
                    assert(s[k] == s0[k]);
                }
                if b.contains((s[j].0, s[i].0)) {
                    lemma_row_elements(x, s0, (s[j].0, s[i].0));
                }
            } else {
                assert(s[i] == s0[i]);
                if b.contains((s[i].0, s[j].0)) {
                    lemma_row_elements(x, s0, (s[i].0, s[j].0));
                }
                if b.contains((s[j].0, s[i].0)) {
                    lemma_row_elements(x, s0, (s[j].0, s[i].0));
                }
            }
        }
    }
}

/// Among leaves with distinct payloads, the self pairs report every
/// unordered pair of distinct leaves whose boxes meet exactly once (as
/// `(later, earlier)`), and no pair whose boxes miss each other.
pub proof fn lemma_self_pairs_exactly_once<B>(s: Seq<(B, Aabb)>, i: int, j: int)
    requires
        distinct_payloads(s),
        0 <= j < i < s.len(),
    ensures
        self_pairs(s).to_multiset().count((s[i].0, s[j].0)) == if s[i].1.intersects_spec(&s[j].1) {
            1nat
        } else {
            0nat
        },
        self_pairs(s).to_multiset().count((s[j].0, s[i].0)) == 0,
{
    lemma_self_exact(s, i, j);
    self_pairs(s).lemma_multiset_has_no_duplicates();
    self_pairs(s).to_multiset_ensures();
}

} // verus!
