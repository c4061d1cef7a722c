//! A two-dimensional k-d tree: a binary spatial index over points, supporting
//! insertion and exact-match lookup, with a lookup variant that compares both
//! coordinates of a point in one wide machine word instead of one at a time.
//!
//! Nodes are stored in a `generational_arena::Arena`; a tree is just the
//! arena plus an optional root index that every caller threads through
//! `insert`. Coordinates are 64-bit keys whose order and equality are the
//! order and equality of `u64`; a caller indexing floating-point data maps
//! each coordinate to its order-preserving key first.

use vstd::prelude::*;
use generational_arena::Arena;
use generational_arena::Index;

mod arena;
pub mod model;
pub mod laws;

use crate::arena::arena_nodes;
use crate::arena::arena_get;
use crate::arena::arena_set;
use crate::arena::arena_alloc;
use crate::model::TreeModel;
use crate::model::coord;
use crate::model::root_idx;
use crate::model::left_of;
use crate::model::right_of;
use crate::model::point_of;
use crate::model::idxs;
use crate::model::points;
use crate::model::tree_in;
use crate::model::distinct;
use crate::model::represents;
use crate::model::valid;
use crate::model::tree_model;
use crate::model::search_model;
use crate::model::insert_model;
use crate::model::inserted;
use crate::model::kd_wf;
use crate::laws::lemma_represents_unique;
use crate::laws::lemma_tree_in_dom;
use crate::laws::lemma_tree_in_frame;
use crate::laws::lemma_insert_model_idxs;
use crate::laws::lemma_insert_model_points;
use crate::laws::lemma_insert_model_wf;
use crate::laws::lemma_search_is_membership;
use crate::laws::lemma_search_model_parity;
use crate::laws::lemma_insert_model_parity;

verus! {

/// The number of coordinates of every point.
pub const K: usize = 2;

/// A point: `K` coordinates, each a 64-bit order key. Two points are the
/// same exactly when both coordinates are equal.
#[derive(Clone, Copy, Debug, PartialEq, Eq, Structural)]
pub struct Point {
    pub x: u64,
    pub y: u64,
}

/// One tree node: its point and the optional arena indices of its children.
#[derive(Clone, Copy)]
pub struct Node {
    pub point: Point,
    pub left: Option<Index>,
    pub right: Option<Index>,
}

impl Node {
    /// A node holding `point` with no children yet.
    pub fn new(point: Point) -> (n: Node)
        ensures
            n.point == point,
            n.left is None,
            n.right is None,
    {
        Node { point, left: None, right: None }
    }
}

/// Scalar point equality: both coordinates compared one at a time.
pub fn are_points_same(point1: Point, point2: Point) -> (r: bool)
    ensures
        r == (point1 == point2),
{
    point1.x == point2.x && point1.y == point2.y
}

/// Wide point equality: both coordinates of each point are packed into one
/// 128-bit word and the two words are compared in a single step. Returns the
/// same answer as `are_points_same` on every input.
pub fn are_points_same_simd(point1: Point, point2: Point) -> (r: bool)
    ensures
        r == (point1 == point2),
{
    let a: u128 = ((point1.x as u128) << 64) | (point1.y as u128);
    let b: u128 = ((point2.x as u128) << 64) | (point2.y as u128);
    proof {
        let x1: u64 = point1.x;
        let y1: u64 = point1.y;
        let x2: u64 = point2.x;
        let y2: u64 = point2.y;
        assert((((x1 as u128) << 64) | (y1 as u128)) == (((x2 as u128) << 64) | (y2 as u128))
            <==> (x1 == x2 && y1 == y2)) by (bit_vector);
    }
    a == b
}

/// Recursive lookup below one subtree. `t` is the ghost shape of that
/// subtree; the result is exactly what `search_model` says of the shape,
/// starting from `depth` (of which only the parity matters, since the
/// discriminator cycles through the `K` axes).
pub fn search_rec(
    arena: &Arena<Node>,
    node: Option<Index>,
    point: Point,
    depth: u32,
    t: Ghost<TreeModel>,
) -> (r: bool)
    requires
        tree_in(arena_nodes(*arena), t@),
        root_idx(t@) == node,
    ensures
        r == search_model(t@, point, depth as nat),
    decreases t@,
{
    match node {
        Some(i) => {
            proof {
                assert(t@ is Branch);
            }
            let n = arena_get(arena, i).unwrap();
            if are_points_same(n.point, point) {
                true
            } else {
                let cd: u32 = depth % (K as u32);
                let pc: u64 = if cd == 0 {
                    point.x
                } else {
                    point.y
                };
                let nc: u64 = if cd == 0 {
                    n.point.x
                } else {
                    n.point.y
                };
                proof {
                    assert(pc == coord(point, depth as nat));
                    assert(nc == coord(point_of(t@), depth as nat));
                }
                if pc < nc {
                    let r = search_rec(arena, n.left, point, cd + 1, Ghost(left_of(t@)));
                    proof {
                        lemma_search_model_parity(
                            left_of(t@),
                            point,
                            (cd + 1) as nat,
                            depth as nat + 1,
                        );
                    }
                    r
                } else {
                    let r = search_rec(arena, n.right, point, cd + 1, Ghost(right_of(t@)));
                    proof {
                        lemma_search_model_parity(
                            right_of(t@),
                            point,
                            (cd + 1) as nat,
                            depth as nat + 1,
                        );
                    }
                    r
                }
            }
        }
        None => false,
    }
}

/// Exact-match lookup: whether some node of the tree rooted at `node` holds
/// exactly `point`. Under the discriminator invariant this answers
/// membership: true exactly when the tree's points include `point`. On an
/// empty tree (`node == None`) it returns false for every point. The result
/// is a function of the arena, root and point alone: repeated calls with no
/// intervening insertion return the same answer.
pub fn search(arena: &Arena<Node>, node: Option<Index>, point: Point) -> (r: bool)
    requires
        valid(arena_nodes(*arena), node),
    ensures
        r == search_model(tree_model(arena_nodes(*arena), node), point, 0),
        kd_wf(tree_model(arena_nodes(*arena), node), 0) ==> (r <==> points(
            tree_model(arena_nodes(*arena), node),
        ).contains(point)),
        node is None ==> r == false,
{
    let ghost m = arena_nodes(*arena);
    let ghost t = tree_model(m, node);
    proof {
        assert(represents(m, node, t));
        if node is None {
            assert(t is Empty);
        }
        if kd_wf(t, 0) {
            lemma_search_is_membership(t, point, 0);
        }
    }
    search_rec(arena, node, point, 0, Ghost(t))
}

/// `search_rec` with the wide point comparison in place of the scalar one.
/// Its contract is `search_rec`'s: the two return identical results on
/// every input.
pub fn search_rec_simd(
    arena: &Arena<Node>,
    node: Option<Index>,
    point: Point,
    depth: u32,
    t: Ghost<TreeModel>,
) -> (r: bool)
    requires
        tree_in(arena_nodes(*arena), t@),
        root_idx(t@) == node,
    ensures
        r == search_model(t@, point, depth as nat),
    decreases t@,
{
    match node {
        Some(i) => {
            proof {
                assert(t@ is Branch);
            }
            let n = arena_get(arena, i).unwrap();
            if are_points_same_simd(n.point, point) {
                true
            } else {
                let cd: u32 = depth % (K as u32);
                let pc: u64 = if cd == 0 {
                    point.x
                } else {
                    point.y
                };
                let nc: u64 = if cd == 0 {
                    n.point.x
                } else {
                    n.point.y
                };
                proof {
                    assert(pc == coord(point, depth as nat));
                    assert(nc == coord(point_of(t@), depth as nat));
                }
                if pc < nc {
                    let r = search_rec_simd(arena, n.left, point, cd + 1, Ghost(left_of(t@)));
                    proof {
                        lemma_search_model_parity(
                            left_of(t@),
                            point,
                            (cd + 1) as nat,
                            depth as nat + 1,
                        );
                    }
                    r
                } else {
                    let r = search_rec_simd(arena, n.right, point, cd + 1, Ghost(right_of(t@)));
                    proof {
                        lemma_search_model_parity(
                            right_of(t@),
                            point,
                            (cd + 1) as nat,
                            depth as nat + 1,
                        );
                    }
                    r
                }
            }
        }
        None => false,
    }
}

/// `search` on the wide comparison path. Its contract is `search`'s, word
/// for word: on every tree and every query the two variants return
/// identical results.
pub fn search_simd(arena: &Arena<Node>, node: Option<Index>, point: Point) -> (r: bool)
    requires
        valid(arena_nodes(*arena), node),
    ensures
        r == search_model(tree_model(arena_nodes(*arena), node), point, 0),
        kd_wf(tree_model(arena_nodes(*arena), node), 0) ==> (r <==> points(
            tree_model(arena_nodes(*arena), node),
        ).contains(point)),
        node is None ==> r == false,
{
    let ghost m = arena_nodes(*arena);
    let ghost t = tree_model(m, node);
    proof {
        assert(represents(m, node, t));
        if node is None {
            assert(t is Empty);
        }
        if kd_wf(t, 0) {
            lemma_search_is_membership(t, point, 0);
        }
    }
    search_rec_simd(arena, node, point, 0, Ghost(t))
}

/// Recursive insertion below one subtree. `t` is the ghost shape of that
/// subtree before the call. Descends by the discriminator coordinate — left
/// on strictly smaller, right otherwise, duplicates included — stores the
/// new node where an empty subtree is reached, and returns the subtree's
/// (possibly new) root index. The arena afterwards holds exactly
/// `insert_model` of the shape, at a fresh index; nodes outside the walked
/// shape are untouched.
pub fn insert_rec(
    arena: &mut Arena<Node>,
    node: Option<Index>,
    point: Point,
    depth: u32,
    t: Ghost<TreeModel>,
) -> (r: Index)
    requires
        represents(arena_nodes(*old(arena)), node, t@),
    ensures
        exists|j: Index|
            #[trigger] inserted(
                arena_nodes(*old(arena)),
                arena_nodes(*final(arena)),
                t@,
                point,
                depth as nat,
                j,
                r,
            ),
        node is Some ==> r == node.unwrap(),
    decreases t@,
{
    match node {
        None => {
            proof {
                assert(t@ is Empty);
            }
            let r = arena_alloc(arena, Node::new(point));
            proof {
                let m0 = arena_nodes(*old(arena));
                let m1 = arena_nodes(*arena);
                let nt = insert_model(t@, point, depth as nat, r);
                assert(nt == (TreeModel::Branch {
                    idx: r,
                    point: point,
                    left: Box::new(TreeModel::Empty),
                    right: Box::new(TreeModel::Empty),
                }));
                assert(tree_in(m1, TreeModel::Empty));
                assert(idxs(TreeModel::Empty) =~= Set::<Index>::empty());
                assert(distinct(TreeModel::Empty));
                assert(tree_in(m1, nt));
                assert(idxs(nt) =~= Set::<Index>::empty().insert(r));
                assert(distinct(nt));
                assert(m1.dom() =~= m0.dom().insert(r));
                assert(inserted(m0, m1, t@, point, depth as nat, r, r));
            }
            r
        }
        Some(i) => {
            proof {
                assert(t@ is Branch);
            }
            let ghost m0 = arena_nodes(*arena);
            let n = arena_get(arena, i).unwrap();
            let cd: u32 = depth % (K as u32);
            let pc: u64 = if cd == 0 {
                point.x
            } else {
                point.y
            };
            let nc: u64 = if cd == 0 {
                n.point.x
            } else {
                n.point.y
            };
            proof {
                assert(pc == coord(point, depth as nat));
                assert(nc == coord(point_of(t@), depth as nat));
                lemma_tree_in_dom(m0, t@);
            }
            if pc < nc {
                let ghost sub = left_of(t@);
                let l = insert_rec(arena, n.left, point, cd + 1, Ghost(sub));
                let ghost m1 = arena_nodes(*arena);
                let ghost j = choose|j: Index|
                    #[trigger] inserted(m0, m1, sub, point, (cd + 1) as nat, j, l);
                proof {
                    lemma_insert_model_parity(sub, point, (cd + 1) as nat, depth as nat + 1, j);
                }
                let ghost nsub = insert_model(sub, point, depth as nat + 1, j);
                arena_set(arena, i, Node { point: n.point, left: Some(l), right: n.right });
                proof {
                    let m2 = arena_nodes(*arena);
                    let nt = insert_model(t@, point, depth as nat, j);
                    lemma_insert_model_idxs(sub, point, depth as nat + 1, j);
                    lemma_tree_in_dom(m0, right_of(t@));
                    // the parent's slot is outside the new left shape, so the
                    // write to it leaves that shape in place
                    assert forall|k: Index| #[trigger] idxs(nsub).contains(k) implies
                        m2.contains_key(k) && m2[k] == m1[k] by {
                        lemma_tree_in_dom(m1, nsub);
                    }
                    lemma_tree_in_frame(m1, m2, nsub);
                    // the right sibling shares no index with the walked left
                    // shape, the fresh slot, or the parent's slot
                    assert forall|k: Index| #[trigger] idxs(right_of(t@)).contains(k) implies
                        m2.contains_key(k) && m2[k] == m0[k] by {
                        assert(idxs(t@).contains(k));
                        assert(!idxs(sub).contains(k));
                        assert(m1[k] == m0[k]);
                    }
                    lemma_tree_in_frame(m0, m2, right_of(t@));
                    assert(tree_in(m2, nt));
                    assert(distinct(nt));
                    assert(m2.dom() =~= m0.dom().insert(j));
                    assert forall|k: Index|
                        m0.contains_key(k) && k != j && !idxs(t@).contains(k) implies #[trigger] m2[k]
                        == m0[k] by {
                        assert(!idxs(sub).contains(k));
                        assert(m1[k] == m0[k]);
                        assert(idxs(t@).contains(i));
                    }
                    assert(inserted(m0, m2, t@, point, depth as nat, j, i));
                }
                i
            } else {
                let ghost sub = right_of(t@);
                let l = insert_rec(arena, n.right, point, cd + 1, Ghost(sub));
                let ghost m1 = arena_nodes(*arena);
                let ghost j = choose|j: Index|
                    #[trigger] inserted(m0, m1, sub, point, (cd + 1) as nat, j, l);
                proof {
                    lemma_insert_model_parity(sub, point, (cd + 1) as nat, depth as nat + 1, j);
                }
                let ghost nsub = insert_model(sub, point, depth as nat + 1, j);
                arena_set(arena, i, Node { point: n.point, left: n.left, right: Some(l) });
                proof {
                    let m2 = arena_nodes(*arena);
                    let nt = insert_model(t@, point, depth as nat, j);
                    lemma_insert_model_idxs(sub, point, depth as nat + 1, j);
                    lemma_tree_in_dom(m0, left_of(t@));
                    assert forall|k: Index| #[trigger] idxs(nsub).contains(k) implies
                        m2.contains_key(k) && m2[k] == m1[k] by {
                        lemma_tree_in_dom(m1, nsub);
                    }
                    lemma_tree_in_frame(m1, m2, nsub);
                    assert forall|k: Index| #[trigger] idxs(left_of(t@)).contains(k) implies
                        m2.contains_key(k) && m2[k] == m0[k] by {
                        assert(idxs(t@).contains(k));
                        assert(!idxs(sub).contains(k));
                        assert(m1[k] == m0[k]);
                    }
                    lemma_tree_in_frame(m0, m2, left_of(t@));
                    assert(tree_in(m2, nt));
                    assert(distinct(nt));
                    assert(m2.dom() =~= m0.dom().insert(j));
                    assert forall|k: Index|
                        m0.contains_key(k) && k != j && !idxs(t@).contains(k) implies #[trigger] m2[k]
                        == m0[k] by {
                        assert(!idxs(sub).contains(k));
                        assert(m1[k] == m0[k]);
                        assert(idxs(t@).contains(i));
                    }
                    assert(inserted(m0, m2, t@, point, depth as nat, j, i));
                }
                i
            }
        }
    }
}

/// Insertion: stores `point` as a new node of the tree rooted at `node` and
/// returns the new root index, which the caller must retain — inserting into
/// an empty tree (`node == None`) roots the tree at the new node, and
/// otherwise the root is unchanged. Afterwards the tree's points are the old
/// points plus `point`, with multiplicity — duplicates get a node of their
/// own — every other node of the arena is untouched, and the discriminator
/// invariant, if it held, still holds.
pub fn insert(arena: &mut Arena<Node>, node: Option<Index>, point: Point) -> (r: Index)
    requires
        valid(arena_nodes(*old(arena)), node),
    ensures
        valid(arena_nodes(*final(arena)), Some(r)),
        node is Some ==> r == node.unwrap(),
        exists|j: Index|
            (!arena_nodes(*old(arena)).contains_key(j) && arena_nodes(*final(arena)).dom()
                == arena_nodes(*old(arena)).dom().insert(j) && tree_model(
                arena_nodes(*final(arena)),
                Some(r),
            ) == insert_model(tree_model(arena_nodes(*old(arena)), node), point, 0, j) && (
            forall|k: Index|
                arena_nodes(*old(arena)).contains_key(k) && k != j && !idxs(
                    tree_model(arena_nodes(*old(arena)), node),
                ).contains(k) ==> #[trigger] arena_nodes(*final(arena))[k] == arena_nodes(
                    *old(arena),
                )[k])),
        points(tree_model(arena_nodes(*final(arena)), Some(r))) == points(
            tree_model(arena_nodes(*old(arena)), node),
        ).insert(point),
        kd_wf(tree_model(arena_nodes(*old(arena)), node), 0) ==> kd_wf(
            tree_model(arena_nodes(*final(arena)), Some(r)),
            0,
        ),
        arena_nodes(*final(arena)).contains_key(r),
        node is None ==> arena_nodes(*final(arena))[r].point == point,
        node is Some ==> arena_nodes(*final(arena))[r].point == arena_nodes(*old(arena))[r].point,
{
    let ghost m0 = arena_nodes(*arena);
    let ghost t0 = tree_model(m0, node);
    proof {
        assert(represents(m0, node, t0));
    }
    let r = insert_rec(arena, node, point, 0, Ghost(t0));
    proof {
        let m1 = arena_nodes(*arena);
        let j = choose|j: Index| #[trigger] inserted(m0, m1, t0, point, 0, j, r);
        let nt = insert_model(t0, point, 0, j);
        let t1 = tree_model(m1, Some(r));
        assert(represents(m1, Some(r), t1));
        lemma_represents_unique(m1, t1, nt);
        lemma_insert_model_points(t0, point, 0, j);
        if kd_wf(t0, 0) {
            lemma_insert_model_wf(t0, point, 0, j);
        }
    }
    r
}

/// The point of the node at a live arena index, `None` at a dead one.
pub fn node_point(arena: &Arena<Node>, i: Index) -> (r: Option<Point>)
    ensures
        r == (if arena_nodes(*arena).contains_key(i) {
            Some(arena_nodes(*arena)[i].point)
        } else {
            Option::<Point>::None
        }),
{
    match arena_get(arena, i) {
        Some(n) => Some(n.point),
        None => None,
    }
}

/// The left child link of the node at a live arena index, `None` at a dead
/// one.
pub fn node_left(arena: &Arena<Node>, i: Index) -> (r: Option<Option<Index>>)
    ensures
        r == (if arena_nodes(*arena).contains_key(i) {
            Some(arena_nodes(*arena)[i].left)
        } else {
            Option::<Option<Index>>::None
        }),
{
    match arena_get(arena, i) {
        Some(n) => Some(n.left),
        None => None,
    }
}

/// The right child link of the node at a live arena index, `None` at a dead
/// one.
pub fn node_right(arena: &Arena<Node>, i: Index) -> (r: Option<Option<Index>>)
    ensures
        r == (if arena_nodes(*arena).contains_key(i) {
            Some(arena_nodes(*arena)[i].right)
        } else {
            Option::<Option<Index>>::None
        }),
{
    match arena_get(arena, i) {
        Some(n) => Some(n.right),
        None => None,
    }
}

} // verus!

