//! The road graph: nodes with coordinates and edges with geometry, names and
//! per-direction costs.
use vstd::prelude::*;

verus! {

/// A node of the road graph, indexing `RouteSnapperMap::nodes`.
#[derive(Clone, Copy, PartialEq, Eq, Structural, Debug, Hash, PartialOrd, Ord)]
pub struct NodeID(pub u32);

/// An edge of the road graph, indexing `RouteSnapperMap::edges`.
#[derive(Clone, Copy, PartialEq, Eq, Structural, Debug, Hash, PartialOrd, Ord)]
pub struct EdgeID(pub u32);

/// A WGS84 position in micro-degrees: `x` is the longitude and `y` the
/// latitude, each multiplied by 1_000_000 and rounded.
#[derive(Clone, Copy, PartialEq, Eq, Structural, Debug)]
pub struct Coord {
    pub x: i32,
    pub y: i32,
}

/// The largest number of edges a map may hold, so that the cost of any path
/// fits in a `u64`.
pub const MAX_EDGES: usize = 0x1000_0000;

/// A road between two nodes.
pub struct Edge {
    pub node1: NodeID,
    pub node2: NodeID,
    /// The polyline from `node1` to `node2`.
    pub geometry: Vec<Coord>,
    pub name: Option<String>,
    /// The great-circle length of `geometry`, in millimetres.
    pub length_mm: u32,
    /// The cost of going from `node1` to `node2`; `None` if that direction
    /// cannot be routed.
    pub forward_cost: Option<u32>,
    /// The cost of going from `node2` to `node1`; `None` if that direction
    /// cannot be routed.
    pub backward_cost: Option<u32>,
}

/// The road graph: nodes by index and edges by index. Immutable once
/// loaded.
pub struct RouteSnapperMap {
    pub nodes: Vec<Coord>,
    pub edges: Vec<Edge>,
    /// Empty, or one cost per edge for the forward direction.
    pub override_forward_costs: Vec<Option<u32>>,
    /// Empty, or one cost per edge for the backward direction.
    pub override_backward_costs: Vec<Option<u32>>,
}

/// Why a map cannot be loaded.
#[derive(Clone, Copy, PartialEq, Eq, Structural, Debug)]
pub enum MapError {
    /// The blob does not describe a map: it failed to decode, an edge names a
    /// node that does not exist, or it holds more than `MAX_EDGES` edges.
    BadBlob,
    /// A non-empty list of override costs does not have one entry per edge.
    LengthMismatch,
}

impl MapError {
    /// A message for the host.
    pub fn message(&self) -> (r: String)
        ensures
            *self == MapError::BadBlob ==> r@ == "bad map blob"@,
            *self == MapError::LengthMismatch ==> r@ == "override costs don't match the number of edges"@,
    {
        match self {
            MapError::BadBlob => "bad map blob".to_string(),
            MapError::LengthMismatch => "override costs don't match the number of edges".to_string(),
        }
    }
}

/// Whether every edge names existing nodes and the map is small enough.
pub open spec fn edges_in_bounds(nodes_len: nat, edges: Seq<Edge>) -> bool {
    &&& edges.len() <= MAX_EDGES
    &&& forall|i: int|
        0 <= i < edges.len() ==> {
            &&& (#[trigger] edges[i]).node1.0 < nodes_len
            &&& edges[i].node2.0 < nodes_len
        }
}

/// The cost that an edge gets in one direction: the override when overrides
/// are given, otherwise its length.
pub open spec fn spec_direction_cost(overrides: Seq<Option<u32>>, i: int, length_mm: u32) -> Option<
    u32,
> {
    if overrides.len() == 0 {
        Some(length_mm)
    } else {
        overrides[i]
    }
}

impl RouteSnapperMap {
    /// A map whose edges refer to its nodes and whose costs are set.
    pub open spec fn wf(&self) -> bool {
        &&& edges_in_bounds(self.nodes@.len(), self.edges@)
        &&& self.nodes@.len() <= u32::MAX + 1
    }

    pub fn edge(&self, id: EdgeID) -> (r: &Edge)
        requires
            id.0 < self.edges@.len(),
        ensures
            *r == self.edges@[id.0 as int],
    {
        &self.edges[id.0 as usize]
    }

    pub fn node(&self, id: NodeID) -> (r: Coord)
        requires
            id.0 < self.nodes@.len(),
        ensures
            r == self.nodes@[id.0 as int],
    {
        self.nodes[id.0 as usize]
    }

    /// Checks the map and fills in each edge's per-direction costs: the
    /// override when one is given, otherwise the edge's length.
    pub fn finalize(&mut self) -> (r: Result<(), MapError>)
        ensures
            r is Ok <==> {
                &&& edges_in_bounds(old(self).nodes@.len(), old(self).edges@)
                &&& old(self).nodes@.len() <= u32::MAX + 1
                &&& (old(self).override_forward_costs@.len() == 0
                    || old(self).override_forward_costs@.len() == old(self).edges@.len())
                &&& (old(self).override_backward_costs@.len() == 0
                    || old(self).override_backward_costs@.len() == old(self).edges@.len())
            },
            r == Err::<(), MapError>(MapError::LengthMismatch) <==> {
                &&& edges_in_bounds(old(self).nodes@.len(), old(self).edges@)
                &&& old(self).nodes@.len() <= u32::MAX + 1
                &&& (!(old(self).override_forward_costs@.len() == 0
                    || old(self).override_forward_costs@.len() == old(self).edges@.len())
                    || !(old(self).override_backward_costs@.len() == 0
                    || old(self).override_backward_costs@.len() == old(self).edges@.len()))
            },
            r is Ok ==> final(self).wf(),
            final(self).nodes@ == old(self).nodes@,
            final(self).override_forward_costs@ == old(self).override_forward_costs@,
            final(self).override_backward_costs@ == old(self).override_backward_costs@,
            final(self).edges@.len() == old(self).edges@.len(),
            forall|i: int|
                0 <= i < old(self).edges@.len() ==> {
                    let e = #[trigger] final(self).edges@[i];
                    let o = old(self).edges@[i];
                    &&& e.node1 == o.node1
                    &&& e.node2 == o.node2
                    &&& e.geometry@ == o.geometry@
                    &&& e.name == o.name
                    &&& e.length_mm == o.length_mm
                    &&& r is Ok ==> e.forward_cost == spec_direction_cost(
                        old(self).override_forward_costs@,
                        i,
                        o.length_mm,
                    )
                    &&& r is Ok ==> e.backward_cost == spec_direction_cost(
                        old(self).override_backward_costs@,
                        i,
                        o.length_mm,
                    )
                    &&& r is Err ==> e.forward_cost == o.forward_cost
                    &&& r is Err ==> e.backward_cost == o.backward_cost
                },
    {
        let n_nodes = self.nodes.len();
        let n_edges = self.edges.len();
        if n_nodes as u128 > 0x1_0000_0000u128 || n_edges > MAX_EDGES {
            return Err(MapError::BadBlob);
        }
        let mut i: usize = 0;
        while i < n_edges
            invariant
                n_edges == self.edges@.len(),
                n_nodes == self.nodes@.len(),
                0 <= i <= n_edges,
                forall|j: int|
                    0 <= j < i ==> {
                        &&& (#[trigger] self.edges@[j]).node1.0 < n_nodes
                        &&& self.edges@[j].node2.0 < n_nodes
                    },
            decreases n_edges - i,
        {
            let e = &self.edges[i];
            if e.node1.0 as usize >= n_nodes || e.node2.0 as usize >= n_nodes {
                return Err(MapError::BadBlob);
            }
            i += 1;
        }
        let nf = self.override_forward_costs.len();
        let nb = self.override_backward_costs.len();
        if !(nf == 0 || nf == n_edges) || !(nb == 0 || nb == n_edges) {
            return Err(MapError::LengthMismatch);
        }
        let ghost before = self.edges@;
        let mut i: usize = 0;
        while i < n_edges
            invariant
                n_edges == self.edges@.len(),
                n_edges == before.len(),
                before == old(self).edges@,
                self.nodes@ == old(self).nodes@,
                self.override_forward_costs@ == old(self).override_forward_costs@,
                self.override_backward_costs@ == old(self).override_backward_costs@,
                n_nodes == self.nodes@.len(),
                n_nodes <= u32::MAX + 1,
                forall|j: int|
                    0 <= j < n_edges ==> {
                        &&& (#[trigger] before[j]).node1.0 < n_nodes
                        &&& before[j].node2.0 < n_nodes
                    },
                nf == self.override_forward_costs@.len(),
                nb == self.override_backward_costs@.len(),
                nf == 0 || nf == n_edges,
                nb == 0 || nb == n_edges,
                0 <= i <= n_edges,
                forall|j: int|
                    0 <= j < n_edges ==> {
                        let e = #[trigger] self.edges@[j];
                        let o = before[j];
                        &&& e.node1 == o.node1
                        &&& e.node2 == o.node2
                        &&& e.geometry@ == o.geometry@
                        &&& e.name == o.name
                        &&& e.length_mm == o.length_mm
                        &&& j < i ==> e.forward_cost == spec_direction_cost(
                            self.override_forward_costs@,
                            j,
                            o.length_mm,
                        )
                        &&& j < i ==> e.backward_cost == spec_direction_cost(
                            self.override_backward_costs@,
                            j,
                            o.length_mm,
                        )
                        &&& j >= i ==> e.forward_cost == o.forward_cost
                        &&& j >= i ==> e.backward_cost == o.backward_cost
                    },
            decreases n_edges - i,
        {
            let len = self.edges[i].length_mm;
            let fwd = if nf == 0 {
                Some(len)
            } else {
                self.override_forward_costs[i]
            };
            let back = if nb == 0 {
                Some(len)
            } else {
                self.override_backward_costs[i]
            };
            self.edges[i].forward_cost = fwd;
            self.edges[i].backward_cost = back;
            i += 1;
        }
        Ok(())
    }
}

} // verus!
