//! The mathematical model of a k-d tree.
//!
//! `TreeModel` is the abstract shape of one tree: the point at every node,
//! the arena index the node lives at, and the two subtrees. `tree_in` says
//! that an arena holds such a shape, `distinct` that no index appears twice
//! in it, and `tree_model` names the one shape an arena and a root describe.
//! The contracts of `insert` and `search` speak entirely in terms of this
//! model; the proof functions at the end state the laws the tree obeys.

use vstd::prelude::*;
use vstd::multiset::Multiset;
use generational_arena::Index;
use crate::Point;
use crate::Node;

verus! {

/// The abstract shape of a (sub)tree held in an arena.
pub enum TreeModel {
    Empty,
    Branch { idx: Index, point: Point, left: Box<TreeModel>, right: Box<TreeModel> },
}

/// The coordinate of `p` compared at depth `d`: the discriminator cycles
/// through the two axes, `x` at even depths and `y` at odd ones.
pub open spec fn coord(p: Point, d: nat) -> u64 {
    if d % 2 == 0 {
        p.x
    } else {
        p.y
    }
}

/// The arena index of the root of `t`, if `t` is not empty.
pub open spec fn root_idx(t: TreeModel) -> Option<Index> {
    match t {
        TreeModel::Empty => None,
        TreeModel::Branch { idx, .. } => Some(idx),
    }
}

/// The left subtree of `t` (empty for an empty tree).
pub open spec fn left_of(t: TreeModel) -> TreeModel {
    match t {
        TreeModel::Empty => TreeModel::Empty,
        TreeModel::Branch { left, .. } => *left,
    }
}

/// The right subtree of `t` (empty for an empty tree).
pub open spec fn right_of(t: TreeModel) -> TreeModel {
    match t {
        TreeModel::Empty => TreeModel::Empty,
        TreeModel::Branch { right, .. } => *right,
    }
}

/// The point at the root of `t`; meaningful only when `t` is a branch.
pub open spec fn point_of(t: TreeModel) -> Point {
    match t {
        TreeModel::Empty => Point { x: 0, y: 0 },
        TreeModel::Branch { point, .. } => point,
    }
}

/// Every arena index that occurs in `t`.
pub open spec fn idxs(t: TreeModel) -> Set<Index>
    decreases t,
{
    match t {
        TreeModel::Empty => Set::empty(),
        TreeModel::Branch { idx, left, right, .. } => {
            idxs(*left).union(idxs(*right)).insert(idx)
        }
    }
}

/// The points of `t`, with multiplicity: inserting a point twice yields two
/// nodes with the same coordinates.
pub open spec fn points(t: TreeModel) -> Multiset<Point>
    decreases t,
{
    match t {
        TreeModel::Empty => Multiset::empty(),
        TreeModel::Branch { point, left, right, .. } => {
            points(*left).add(points(*right)).insert(point)
        }
    }
}

/// The arena `m` holds the shape `t`: at every branch, the node at the
/// branch's index carries the branch's point and links to the roots of the
/// two subtrees.
pub open spec fn tree_in(m: Map<Index, Node>, t: TreeModel) -> bool
    decreases t,
{
    match t {
        TreeModel::Empty => true,
        TreeModel::Branch { idx, point, left, right } => {
            &&& m.contains_key(idx)
            &&& m[idx].point == point
            &&& m[idx].left == root_idx(*left)
            &&& m[idx].right == root_idx(*right)
            &&& tree_in(m, *left)
            &&& tree_in(m, *right)
        }
    }
}

/// No arena index occurs twice in `t`: each node owns its slot alone.
pub open spec fn distinct(t: TreeModel) -> bool
    decreases t,
{
    match t {
        TreeModel::Empty => true,
        TreeModel::Branch { idx, left, right, .. } => {
            &&& !idxs(*left).contains(idx)
            &&& !idxs(*right).contains(idx)
            &&& idxs(*left).disjoint(idxs(*right))
            &&& distinct(*left)
            &&& distinct(*right)
        }
    }
}

/// The arena `m` with root `root` holds exactly the shape `t`.
pub open spec fn represents(m: Map<Index, Node>, root: Option<Index>, t: TreeModel) -> bool {
    &&& tree_in(m, t)
    &&& root_idx(t) == root
    &&& distinct(t)
}

/// The arena `m` with root `root` holds some well-linked tree. This is the
/// precondition of every tree walk; it holds of any root returned by
/// `insert` into an arena it held of, and of `root == None` in any arena.
pub open spec fn valid(m: Map<Index, Node>, root: Option<Index>) -> bool {
    exists|t: TreeModel| represents(m, root, t)
}

/// The one shape that `m` with root `root` holds (see
/// `lemma_represents_unique`).
pub open spec fn tree_model(m: Map<Index, Node>, root: Option<Index>) -> TreeModel {
    choose|t: TreeModel| represents(m, root, t)
}

/// Exact-match lookup on the model: at each branch compare the whole point,
/// then descend by the discriminator coordinate of the current depth.
pub open spec fn search_model(t: TreeModel, q: Point, d: nat) -> bool
    decreases t,
{
    match t {
        TreeModel::Empty => false,
        TreeModel::Branch { point, left, right, .. } => {
            if point == q {
                true
            } else if coord(q, d) < coord(point, d) {
                search_model(*left, q, d + 1)
            } else {
                search_model(*right, q, d + 1)
            }
        }
    }
}

/// Insertion on the model: descend by the discriminator coordinate — left on
/// strictly smaller, right otherwise, duplicates included — and place the new
/// point, at fresh index `j`, where an empty subtree is reached.
pub open spec fn insert_model(t: TreeModel, q: Point, d: nat, j: Index) -> TreeModel
    decreases t,
{
    match t {
        TreeModel::Empty => TreeModel::Branch {
            idx: j,
            point: q,
            left: Box::new(TreeModel::Empty),
            right: Box::new(TreeModel::Empty),
        },
        TreeModel::Branch { idx, point, left, right } => {
            if coord(q, d) < coord(point, d) {
                TreeModel::Branch { idx, point, left: Box::new(insert_model(*left, q, d + 1, j)), right }
            } else {
                TreeModel::Branch { idx, point, left, right: Box::new(insert_model(*right, q, d + 1, j)) }
            }
        }
    }
}

/// What one insertion does to an arena: `m0` and `m1` are the arena's nodes
/// before and after, `t` the shape walked, `q` the point inserted at depth
/// `d`, `j` the fresh index the new node was stored at, and `r` the returned
/// root. Every index outside the walked shape keeps its node untouched.
pub open spec fn inserted(
    m0: Map<Index, Node>,
    m1: Map<Index, Node>,
    t: TreeModel,
    q: Point,
    d: nat,
    j: Index,
    r: Index,
) -> bool {
    &&& !m0.contains_key(j)
    &&& m1.dom() == m0.dom().insert(j)
    &&& (forall|k: Index|
        m0.contains_key(k) && k != j && !idxs(t).contains(k) ==> #[trigger] m1[k] == m0[k])
    &&& represents(m1, Some(r), insert_model(t, q, d, j))
}

/// The discriminator invariant at depth `d`: at every branch, every point of
/// the left subtree is strictly smaller than the branch's point on the
/// discriminator coordinate of that depth, and every point of the right
/// subtree is greater than or equal on it.
pub open spec fn kd_wf(t: TreeModel, d: nat) -> bool
    decreases t,
{
    match t {
        TreeModel::Empty => true,
        TreeModel::Branch { point, left, right, .. } => {
            &&& (forall|q: Point| points(*left).contains(q) ==> coord(q, d) < coord(point, d))
            &&& (forall|q: Point| points(*right).contains(q) ==> coord(q, d) >= coord(point, d))
            &&& kd_wf(*left, d + 1)
            &&& kd_wf(*right, d + 1)
        }
    }
}

} // verus!
