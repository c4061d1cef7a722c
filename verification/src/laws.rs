//! The laws the tree obeys, each stated and proved over the model in
//! `model`: uniqueness of the represented shape, what insertion does to the
//! point multiset, preservation of the discriminator invariant, and the
//! round-trip law — under the invariant, lookup answers exactly membership,
//! so membership depends only on which points were inserted, not their order.

use vstd::prelude::*;
use vstd::multiset::Multiset;
use generational_arena::Index;
use crate::Point;
use crate::Node;
use crate::model::TreeModel;
use crate::model::coord;
use crate::model::root_idx;
use crate::model::idxs;
use crate::model::points;
use crate::model::represents;
use crate::model::tree_model;
use crate::model::tree_in;
use crate::model::search_model;
use crate::model::insert_model;
use crate::model::kd_wf;

verus! {

broadcast use vstd::multiset::group_multiset_axioms;

/// An arena and a root describe at most one shape: two trees held by the
/// same arena at the same root are equal. `tree_model` is therefore the one
/// shape an arena and a root hold, whenever any shape exists at all.
pub proof fn lemma_represents_unique(m: Map<Index, Node>, t1: TreeModel, t2: TreeModel)
    requires
        tree_in(m, t1),
        tree_in(m, t2),
        root_idx(t1) == root_idx(t2),
    ensures
        t1 == t2,
    decreases t1,
{
    match t1 {
        TreeModel::Empty => {
            assert(t2 is Empty);
        }
        TreeModel::Branch { idx, point, left, right } => {
            match t2 {
                TreeModel::Empty => {
                    assert(false);
                }
                TreeModel::Branch { idx: idx2, point: point2, left: left2, right: right2 } => {
                    assert(idx2 == idx);
                    lemma_represents_unique(m, *left, *left2);
                    lemma_represents_unique(m, *right, *right2);
                }
            }
        }
    }
}

/// Every index occurring in a shape an arena holds is live in that arena.
pub proof fn lemma_tree_in_dom(m: Map<Index, Node>, t: TreeModel)
    requires
        tree_in(m, t),
    ensures
        forall|k: Index| #[trigger] idxs(t).contains(k) ==> m.contains_key(k),
    decreases t,
{
    match t {
        TreeModel::Empty => {}
        TreeModel::Branch { idx, point, left, right } => {
            lemma_tree_in_dom(m, *left);
            lemma_tree_in_dom(m, *right);
            assert(idxs(t) == idxs(*left).union(idxs(*right)).insert(idx));
            assert forall|k: Index| #[trigger] idxs(t).contains(k) implies m.contains_key(k) by {
                if k != idx {
                    assert(idxs(*left).contains(k) || idxs(*right).contains(k));
                }
            }
        }
    }
}

/// A shape held by one arena is held by any arena that agrees with it on
/// every index occurring in the shape.
pub proof fn lemma_tree_in_frame(m1: Map<Index, Node>, m2: Map<Index, Node>, t: TreeModel)
    requires
        tree_in(m1, t),
        forall|k: Index| #[trigger] idxs(t).contains(k) ==> m2.contains_key(k) && m2[k] == m1[k],
    ensures
        tree_in(m2, t),
    decreases t,
{
    match t {
        TreeModel::Empty => {}
        TreeModel::Branch { idx, point, left, right } => {
            assert(idxs(t).contains(idx));
            assert forall|k: Index| #[trigger] idxs(*left).contains(k) implies m2.contains_key(k)
                && m2[k] == m1[k] by {
                assert(idxs(t).contains(k));
            }
            assert forall|k: Index| #[trigger] idxs(*right).contains(k) implies m2.contains_key(k)
                && m2[k] == m1[k] by {
                assert(idxs(t).contains(k));
            }
            lemma_tree_in_frame(m1, m2, *left);
            lemma_tree_in_frame(m1, m2, *right);
        }
    }
}

/// Insertion keeps the root where the tree was not empty, and roots the tree
/// at the fresh index where it was.
pub proof fn lemma_insert_model_root(t: TreeModel, q: Point, d: nat, j: Index)
    ensures
        root_idx(insert_model(t, q, d, j)) == (if t is Empty {
            Some(j)
        } else {
            root_idx(t)
        }),
{
}

/// The indices of a tree after insertion are its old indices plus the fresh
/// one.
pub proof fn lemma_insert_model_idxs(t: TreeModel, q: Point, d: nat, j: Index)
    ensures
        idxs(insert_model(t, q, d, j)) == idxs(t).insert(j),
    decreases t,
{
    match t {
        TreeModel::Empty => {
            assert(idxs(insert_model(t, q, d, j)) =~= idxs(t).insert(j));
        }
        TreeModel::Branch { idx, point, left, right } => {
            if coord(q, d) < coord(point, d) {
                lemma_insert_model_idxs(*left, q, d + 1, j);
            } else {
                lemma_insert_model_idxs(*right, q, d + 1, j);
            }
            assert(idxs(insert_model(t, q, d, j)) =~= idxs(t).insert(j));
        }
    }
}

/// Insertion adds exactly the inserted point to the tree's points, with
/// multiplicity: no point is lost, none is merged.
pub proof fn lemma_insert_model_points(t: TreeModel, q: Point, d: nat, j: Index)
    ensures
        points(insert_model(t, q, d, j)) == points(t).insert(q),
    decreases t,
{
    match t {
        TreeModel::Empty => {
            assert(points(insert_model(t, q, d, j)) =~= points(t).insert(q));
        }
        TreeModel::Branch { idx, point, left, right } => {
            if coord(q, d) < coord(point, d) {
                lemma_insert_model_points(*left, q, d + 1, j);
            } else {
                lemma_insert_model_points(*right, q, d + 1, j);
            }
            assert(points(insert_model(t, q, d, j)) =~= points(t).insert(q));
        }
    }
}

/// Insertion preserves the discriminator invariant: descending left exactly
/// on a strictly smaller discriminator coordinate keeps every node's bound
/// over both subtrees, at every depth.
pub proof fn lemma_insert_model_wf(t: TreeModel, q: Point, d: nat, j: Index)
    requires
        kd_wf(t, d),
    ensures
        kd_wf(insert_model(t, q, d, j), d),
    decreases t,
{
    match t {
        TreeModel::Empty => {
            let nt = insert_model(t, q, d, j);
            assert(forall|p: Point| !(#[trigger] points(TreeModel::Empty).contains(p)));
            assert(kd_wf(TreeModel::Empty, (d + 1) as nat));
            assert(kd_wf(nt, d));
        }
        TreeModel::Branch { idx, point, left, right } => {
            if coord(q, d) < coord(point, d) {
                lemma_insert_model_wf(*left, q, d + 1, j);
                lemma_insert_model_points(*left, q, d + 1, j);
                assert forall|p: Point|
                    points(insert_model(*left, q, d + 1, j)).contains(p) implies coord(p, d)
                    < coord(point, d) by {
                    if p != q {
                        assert(points(*left).contains(p));
                    }
                }
            } else {
                lemma_insert_model_wf(*right, q, d + 1, j);
                lemma_insert_model_points(*right, q, d + 1, j);
                assert forall|p: Point|
                    points(insert_model(*right, q, d + 1, j)).contains(p) implies coord(p, d)
                    >= coord(point, d) by {
                    if p != q {
                        assert(points(*right).contains(p));
                    }
                }
            }
        }
    }
}

/// The empty tree satisfies the discriminator invariant at every depth:
/// together with `lemma_insert_model_wf` this gives the invariant after any
/// sequence of insertions into an initially empty tree.
pub proof fn lemma_empty_wf(d: nat)
    ensures
        kd_wf(TreeModel::Empty, d),
{
}

/// Any arena holds the empty tree at root `None`: every walk may start from
/// an empty tree, and an empty tree holds no point at all.
pub proof fn lemma_empty_tree_valid(m: Map<Index, Node>)
    ensures
        crate::model::valid(m, None),
        tree_model(m, None) == TreeModel::Empty,
        points(TreeModel::Empty) == Multiset::<Point>::empty(),
{
    assert(represents(m, None, TreeModel::Empty));
    assert(represents(m, None, tree_model(m, None)));
    assert(tree_model(m, None) is Empty);
}

/// The round-trip law: under the discriminator invariant, lookup answers
/// membership exactly. Every point the tree holds is found — insertion
/// placed it along the very path lookup retraces — and no point it does not
/// hold is ever reported found.
pub proof fn lemma_search_is_membership(t: TreeModel, q: Point, d: nat)
    requires
        kd_wf(t, d),
    ensures
        search_model(t, q, d) <==> points(t).contains(q),
    decreases t,
{
    match t {
        TreeModel::Empty => {}
        TreeModel::Branch { idx, point, left, right } => {
            lemma_search_is_membership(*left, q, d + 1);
            lemma_search_is_membership(*right, q, d + 1);
            if point == q {
                assert(points(t).contains(q));
            } else if coord(q, d) < coord(point, d) {
                if points(*right).contains(q) {
                    assert(false);
                }
                assert(points(t).contains(q) <==> points(*left).contains(q));
            } else {
                if points(*left).contains(q) {
                    assert(false);
                }
                assert(points(t).contains(q) <==> points(*right).contains(q));
            }
        }
    }
}

/// Order-independence of membership: two trees built from the same multiset
/// of points — in whatever order, so possibly of different shape — answer
/// every lookup identically.
pub proof fn lemma_membership_order_independent(t1: TreeModel, t2: TreeModel, q: Point)
    requires
        kd_wf(t1, 0),
        kd_wf(t2, 0),
        points(t1) == points(t2),
    ensures
        search_model(t1, q, 0) == search_model(t2, q, 0),
{
    lemma_search_is_membership(t1, q, 0);
    lemma_search_is_membership(t2, q, 0);
}

/// Lookup depends on the depth only through its parity: the discriminator
/// cycles with period two.
pub proof fn lemma_search_model_parity(t: TreeModel, q: Point, d1: nat, d2: nat)
    requires
        d1 % 2 == d2 % 2,
    ensures
        search_model(t, q, d1) == search_model(t, q, d2),
    decreases t,
{
    match t {
        TreeModel::Empty => {}
        TreeModel::Branch { idx, point, left, right } => {
            lemma_search_model_parity(*left, q, d1 + 1, d2 + 1);
            lemma_search_model_parity(*right, q, d1 + 1, d2 + 1);
        }
    }
}

/// Insertion depends on the depth only through its parity.
pub proof fn lemma_insert_model_parity(t: TreeModel, q: Point, d1: nat, d2: nat, j: Index)
    requires
        d1 % 2 == d2 % 2,
    ensures
        insert_model(t, q, d1, j) == insert_model(t, q, d2, j),
    decreases t,
{
    match t {
        TreeModel::Empty => {}
        TreeModel::Branch { idx, point, left, right } => {
            lemma_insert_model_parity(*left, q, d1 + 1, d2 + 1, j);
            lemma_insert_model_parity(*right, q, d1 + 1, d2 + 1, j);
        }
    }
}

} // verus!

