//! Snapping a position to the nearest node of the map.
use rstar::primitives::GeomWithData;
use rstar::RTree;
use vstd::prelude::*;

use crate::graph::{Coord, NodeID};

verus! {

/// A spatial index of node positions, each point carrying its node index.
/// Verus refuses to declare `RTree` itself (its bounds name traits of
/// `rstar`), so the tree is held here, out of Verus's sight.
#[verifier::external_body]
pub struct NodeTree {
    tree: RTree<GeomWithData<[i128; 2], u32>>,
}

/// The points that a tree holds: `(x, y, node index)`.
pub uninterp spec fn tree_points(t: NodeTree) -> Set<(i128, i128, u32)>;

/// The squared Euclidean distance from a tree point to `(x, y)`.
pub open spec fn dist2(p: (i128, i128, u32), x: int, y: int) -> int {
    (p.0 - x) * (p.0 - x) + (p.1 - y) * (p.1 - y)
}

pub open spec fn in_i32(v: int) -> bool {
    i32::MIN <= v <= i32::MAX
}

/// Relies on `RTree::bulk_load`: the tree holds exactly the given points.
#[verifier::external_body]
fn bulk_load_points(points: Vec<(i128, i128, u32)>) -> (r: NodeTree)
    ensures
        tree_points(r) == points@.to_set(),
{
    NodeTree {
        tree: RTree::bulk_load(
            points.into_iter().map(|(x, y, id)| GeomWithData::new([x, y], id)).collect(),
        ),
    }
}

/// Relies on `RTree::nearest_neighbor`: a point of the tree with the least
/// squared Euclidean distance to the query, `None` only for an empty tree.
/// With every coordinate within `i32`, no square or sum it forms overflows
/// `i128`.
#[verifier::external_body]
fn nearest_point(t: &NodeTree, x: i128, y: i128) -> (r: Option<(i128, i128, u32)>)
    requires
        in_i32(x as int),
        in_i32(y as int),
        forall|p: (i128, i128, u32)|
            #[trigger] tree_points(*t).contains(p) ==> in_i32(p.0 as int) && in_i32(p.1 as int),
    ensures
        r matches Some(p) ==> tree_points(*t).contains(p) && forall|q: (i128, i128, u32)|
            #[trigger] tree_points(*t).contains(q) ==> dist2(q, x as int, y as int) >= dist2(
                p,
                x as int,
                y as int,
            ),
        r is None ==> forall|q: (i128, i128, u32)| !(#[trigger] tree_points(*t).contains(q)),
{
    t.tree.nearest_neighbor(&[x, y]).map(|g| (g.geom()[0], g.geom()[1], g.data))
}

/// The index point of node `i`.
pub open spec fn node_point(nodes: Seq<Coord>, i: int) -> (i128, i128, u32) {
    (nodes[i].x as i128, nodes[i].y as i128, i as u32)
}

/// The squared distance in micro-degrees between two positions.
pub open spec fn coord_dist2(a: Coord, b: Coord) -> int {
    (a.x - b.x) * (a.x - b.x) + (a.y - b.y) * (a.y - b.y)
}

/// Whether node `n` is one of the nodes closest to `pt`.
pub open spec fn is_nearest_node(nodes: Seq<Coord>, pt: Coord, n: NodeID) -> bool {
    &&& n.0 < nodes.len()
    &&& forall|m: int| 0 <= m < nodes.len() ==> coord_dist2(#[trigger] nodes[m], pt) >= coord_dist2(
        nodes[n.0 as int],
        pt,
    )
}

/// The nodes of a map, indexed by position.
pub struct NodeIndex {
    pub tree: NodeTree,
}

impl NodeIndex {
    /// The index holds one point per node, at the node's position.
    pub open spec fn indexes(&self, nodes: Seq<Coord>) -> bool {
        &&& nodes.len() <= u32::MAX + 1
        &&& forall|p: (i128, i128, u32)|
            #[trigger] self.tree_points_contains(p) <==> (0 <= p.2 < nodes.len() && p == node_point(
                nodes,
                p.2 as int,
            ))
    }

    pub open spec fn tree_points_contains(&self, p: (i128, i128, u32)) -> bool {
        tree_points(self.tree).contains(p)
    }

    pub fn new(nodes: &Vec<Coord>) -> (r: NodeIndex)
        requires
            nodes@.len() <= u32::MAX + 1,
        ensures
            r.indexes(nodes@),
    {
        let n = nodes.len();
        let mut points: Vec<(i128, i128, u32)> = Vec::new();
        let mut i: usize = 0;
        while i < n
            invariant
                n == nodes@.len(),
                n <= u32::MAX + 1,
                0 <= i <= n,
                points@.len() == i,
                forall|j: int| 0 <= j < i ==> #[trigger] points@[j] == node_point(nodes@, j),
            decreases n - i,
        {
            let c = nodes[i];
            points.push((c.x as i128, c.y as i128, i as u32));
            i += 1;
        }
        let tree = bulk_load_points(points);
        let r = NodeIndex { tree };
        proof {
            assert forall|p: (i128, i128, u32)| #[trigger] r.tree_points_contains(p) <==> (0 <= p.2
                < n && p == node_point(nodes@, p.2 as int)) by {
                if r.tree_points_contains(p) {
                    assert(points@.contains(p));
                    let j = choose|j: int| 0 <= j < points@.len() && points@[j] == p;
                    assert(points@[j] == node_point(nodes@, j));
                }
                if 0 <= p.2 < n && p == node_point(nodes@, p.2 as int) {
                    assert(points@[p.2 as int] == p);
                }
            }
        }
        r
    }

    /// A node closest to `pt`; `None` only when the map has no nodes.
    pub fn nearest(&self, nodes: &Vec<Coord>, pt: Coord) -> (r: Option<NodeID>)
        requires
            self.indexes(nodes@),
        ensures
            r matches Some(n) ==> is_nearest_node(nodes@, pt, n),
            r is None ==> nodes@.len() == 0,
    {
        proof {
            assert forall|p: (i128, i128, u32)| #[trigger]
                tree_points(self.tree).contains(p) implies in_i32(p.0 as int) && in_i32(
                p.1 as int,
            ) by {
                assert(self.tree_points_contains(p));
            }
        }
        let found = nearest_point(&self.tree, pt.x as i128, pt.y as i128);
        match found {
            Some(p) => {
                proof {
                    assert(self.tree_points_contains(p));
                    assert forall|m: int| 0 <= m < nodes@.len() implies coord_dist2(
                        #[trigger] nodes@[m],
                        pt,
                    ) >= coord_dist2(nodes@[p.2 as int], pt) by {
                        let q = node_point(nodes@, m);
                        assert(self.tree_points_contains(q));
                        assert(tree_points(self.tree).contains(q));
                    }
                }
                Some(NodeID(p.2))
            },
            None => {
                proof {
                    if nodes@.len() > 0 {
                        assert(self.tree_points_contains(node_point(nodes@, 0)));
                    }
                }
                None
            },
        }
    }
}

} // verus!
