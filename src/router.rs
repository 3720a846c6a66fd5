//! The directed graph derived from the map, and shortest paths on it.
use std::collections::hash_map::RandomState;

use petgraph::graphmap::GraphMap;
use petgraph::Directed;
use vstd::prelude::*;

use crate::graph::{Edge, EdgeID, NodeID, RouteSnapperMap, MAX_EDGES};
use crate::route::{DirectedEdge, PathEntry};

verus! {

/// `petgraph`'s graph keyed by node values, seen from here as opaque.
#[verifier::external_type_specification]
#[verifier::external_body]
#[verifier::reject_recursive_types(N)]
#[verifier::reject_recursive_types(E)]
#[verifier::reject_recursive_types(Ty)]
#[verifier::reject_recursive_types(S)]
pub struct ExGraphMap<N, E, Ty, S: std::hash::BuildHasher>(GraphMap<N, E, Ty, S>);

/// `petgraph`'s marker for directed graphs.
#[verifier::external_type_specification]
#[verifier::external_body]
pub struct ExDirected(Directed);

/// Arcs between node indices, each labelled with an edge index and whether the
/// edge is traversed forwards.
pub type ArcGraph = GraphMap<u32, (u32, bool), Directed, RandomState>;

/// The arcs that a graph holds, by source and target node.
pub uninterp spec fn graph_arcs(g: GraphMap<u32, (u32, bool), Directed, RandomState>) -> Map<
    (u32, u32),
    (u32, bool),
>;

pub open spec fn no_arcs() -> Map<(u32, u32), (u32, bool)> {
    Map::empty()
}

/// Relies on `GraphMap::new`: the new graph has no arcs.
#[verifier::external_body]
fn new_graph() -> (r: ArcGraph)
    ensures
        graph_arcs(r) == no_arcs(),
{
    GraphMap::new()
}

/// Relies on `GraphMap::add_edge`: the arc from `a` to `b` gets the label `w`,
/// replacing the label of an earlier arc between them.
#[verifier::external_body]
fn add_arc(g: &mut ArcGraph, a: u32, b: u32, w: (u32, bool))
    ensures
        graph_arcs(*final(g)) == graph_arcs(*old(g)).insert((a, b), w),
{
    g.add_edge(a, b, w);
}

/// Relies on `GraphMap::edge_weight`: the label of the arc from `a` to `b`.
#[verifier::external_body]
fn arc_label(g: &ArcGraph, a: u32, b: u32) -> (r: Option<(u32, bool)>)
    ensures
        graph_arcs(*g).contains_key((a, b)) ==> r == Some(graph_arcs(*g)[(a, b)]),
        !graph_arcs(*g).contains_key((a, b)) ==> r is None,
{
    g.edge_weight(a, b).copied()
}

/// The weight of traversing edge `e`: its length, doubled when it is marked in
/// `avoid`.
pub open spec fn spec_arc_cost(lengths: Seq<u32>, avoid: Seq<bool>, e: u32) -> int {
    if e < lengths.len() {
        if e < avoid.len() && avoid[e as int] {
            2 * lengths[e as int]
        } else {
            lengths[e as int] as int
        }
    } else {
        0
    }
}

fn arc_cost(lengths: &Vec<u32>, avoid: &Vec<bool>, e: u32) -> (r: u64)
    ensures
        r == spec_arc_cost(lengths@, avoid@, e),
{
    if (e as usize) < lengths.len() {
        let len = lengths[e as usize] as u64;
        if (e as usize) < avoid.len() && avoid[e as usize] {
            2 * len
        } else {
            len
        }
    } else {
        0
    }
}

fn is_node(n: u32, goal: u32) -> (r: bool)
    ensures
        r == (n == goal),
{
    n == goal
}

/// The search uses no estimate of the remaining cost.
fn no_estimate(n: u32) -> (r: u64)
    ensures
        r == 0,
{
    0
}

/// Whether `p` is a walk along arcs from `a` to `b`.
pub open spec fn is_path(arcs: Map<(u32, u32), (u32, bool)>, p: Seq<u32>, a: u32, b: u32) -> bool {
    &&& p.len() >= 1
    &&& p[0] == a
    &&& p.last() == b
    &&& forall|i: int| 0 <= i < p.len() - 1 ==> arcs.contains_key((#[trigger] p[i], p[i + 1]))
}

/// A shortest path is a path.
pub proof fn lemma_shortest_is_path(
    arcs: Map<(u32, u32), (u32, bool)>,
    lengths: Seq<u32>,
    avoid: Seq<bool>,
    p: Seq<u32>,
    a: u32,
    b: u32,
)
    requires
        is_shortest_path(arcs, lengths, avoid, p, a, b),
    ensures
        is_path(arcs, p, a, b),
{
    reveal(is_shortest_path);
}

pub open spec fn reachable(arcs: Map<(u32, u32), (u32, bool)>, a: u32, b: u32) -> bool {
    exists|p: Seq<u32>| is_path(arcs, p, a, b)
}

/// The sum of the weights of the arcs along `p`.
pub open spec fn path_cost(
    arcs: Map<(u32, u32), (u32, bool)>,
    lengths: Seq<u32>,
    avoid: Seq<bool>,
    p: Seq<u32>,
) -> int
    decreases p.len(),
{
    if p.len() < 2 {
        0
    } else {
        path_cost(arcs, lengths, avoid, p.drop_last()) + spec_arc_cost(
            lengths,
            avoid,
            arcs[(p[p.len() - 2], p.last())].0,
        )
    }
}

/// Whether `p` is a path from `a` to `b` that no other path undercuts.
#[verifier::opaque]
pub open spec fn is_shortest_path(
    arcs: Map<(u32, u32), (u32, bool)>,
    lengths: Seq<u32>,
    avoid: Seq<bool>,
    p: Seq<u32>,
    a: u32,
    b: u32,
) -> bool {
    &&& is_path(arcs, p, a, b)
    &&& forall|q: Seq<u32>|
        #[trigger] is_path(arcs, q, a, b) ==> path_cost(arcs, lengths, avoid, q) >= path_cost(
            arcs,
            lengths,
            avoid,
            p,
        )
}

/// Relies on `petgraph::algo::astar`, run with an estimate of zero: it returns
/// a cheapest path from `start` to `goal` under the arc weights of
/// `arc_cost`, with its cost, or `None` when `goal` cannot be reached. The
/// cost of any path it explores is at most the sum of all arc weights, which
/// the bound on the number of arcs keeps within `u64`.
#[verifier::external_body]
fn astar_path(g: &ArcGraph, start: u32, goal: u32, lengths: &Vec<u32>, avoid: &Vec<bool>) -> (r:
    Option<(u64, Vec<u32>)>)
    requires
        graph_arcs(*g).dom().finite(),
        graph_arcs(*g).dom().len() <= 2 * MAX_EDGES,
    ensures
        match r {
            Some((c, p)) => {
                &&& is_shortest_path(graph_arcs(*g), lengths@, avoid@, p@, start, goal)
                &&& c == path_cost(graph_arcs(*g), lengths@, avoid@, p@)
            },
            None => !reachable(graph_arcs(*g), start, goal),
        },
{
    petgraph::algo::astar(
        g,
        start,
        |n| is_node(n, goal),
        |e| arc_cost(lengths, avoid, e.2.0),
        no_estimate,
    )
}


/// How routes are computed and edited.
#[derive(Clone, Copy, PartialEq, Eq, Structural, Debug)]
pub struct Config {
    /// With several waypoints, prefer edges that earlier parts of the route
    /// have not used yet.
    pub avoid_doubling_back: bool,
    /// Whether more waypoints may be appended once a route has two.
    pub extend_route: bool,
    /// Whether the route is a closed area; set only by `set_area_mode`.
    pub area_mode: bool,
}

impl Config {
    pub open spec fn new_spec() -> Config {
        Config { avoid_doubling_back: false, extend_route: false, area_mode: false }
    }

    /// Every option off.
    pub fn new() -> (r: Config)
        ensures
            r == Config::new_spec(),
    {
        Config { avoid_doubling_back: false, extend_route: false, area_mode: false }
    }
}

/// The arcs that the first edges of a map produce: for edge `i`, an arc from
/// `node1` to `node2` labelled `(i, true)` when it has a forward cost, and one
/// from `node2` to `node1` labelled `(i, false)` when it has a backward cost.
/// A later arc between the same two nodes replaces an earlier one.
pub open spec fn map_arcs(edges: Seq<Edge>) -> Map<(u32, u32), (u32, bool)>
    decreases edges.len(),
{
    if edges.len() == 0 {
        Map::empty()
    } else {
        let i = edges.len() - 1;
        let e = edges[i];
        let m = map_arcs(edges.drop_last());
        let m1 = if e.forward_cost is Some {
            m.insert((e.node1.0, e.node2.0), (i as u32, true))
        } else {
            m
        };
        if e.backward_cost is Some {
            m1.insert((e.node2.0, e.node1.0), (i as u32, false))
        } else {
            m1
        }
    }
}

/// Every arc joins nodes below `n_nodes` and is labelled with an edge index.
pub open spec fn arcs_in_bounds(arcs: Map<(u32, u32), (u32, bool)>, n_nodes: nat, n_edges: nat) -> bool {
    &&& arcs.dom().finite()
    &&& arcs.dom().len() <= 2 * n_edges
    &&& forall|k: (u32, u32)|
        #[trigger] arcs.contains_key(k) ==> k.0 < n_nodes && k.1 < n_nodes && arcs[k].0 < n_edges
}

proof fn lemma_map_arcs_bounds(edges: Seq<Edge>, n_nodes: nat)
    requires
        edges.len() <= u32::MAX,
        forall|i: int|
            0 <= i < edges.len() ==> (#[trigger] edges[i]).node1.0 < n_nodes && edges[i].node2.0
                < n_nodes,
    ensures
        arcs_in_bounds(map_arcs(edges), n_nodes, edges.len()),
    decreases edges.len(),
{
    if edges.len() > 0 {
        let prefix = edges.drop_last();
        assert forall|i: int| 0 <= i < prefix.len() implies (#[trigger] prefix[i]).node1.0 < n_nodes
            && prefix[i].node2.0 < n_nodes by {
            assert(prefix[i] == edges[i]);
        }
        lemma_map_arcs_bounds(prefix, n_nodes);
    }
}

/// The lengths of the edges, in order.
pub open spec fn edge_lengths(edges: Seq<Edge>) -> Seq<u32> {
    Seq::new(edges.len(), |i: int| edges[i].length_mm)
}

/// Whether `path` traverses edge `e` in either direction.
pub open spec fn uses_edge(path: Seq<PathEntry>, e: u32) -> bool {
    exists|k: int|
        0 <= k < path.len() && (#[trigger] path[k]) is Edge && path[k]->Edge_0.edge.0 == e
}

/// The edges whose weight is doubled when routing after `prev_path`.
pub open spec fn avoid_flags(config: Config, prev_path: Seq<PathEntry>, n_edges: nat) -> Seq<bool> {
    Seq::new(n_edges, |e: int| config.avoid_doubling_back && uses_edge(prev_path, e as u32))
}

/// The entries for a node path: its nodes, with the arc between each two.
pub open spec fn expand(arcs: Map<(u32, u32), (u32, bool)>, p: Seq<u32>) -> Seq<PathEntry> {
    Seq::new(
        (2 * p.len() - 1) as nat,
        |k: int|
            if k % 2 == 0 {
                PathEntry::SnappedPoint(NodeID(p[k / 2]))
            } else {
                let w = arcs[(p[k / 2], p[k / 2 + 1])];
                PathEntry::Edge(DirectedEdge { edge: EdgeID(w.0), forwards: w.1 })
            },
    )
}

/// Entries `2j` and `2j + 1` hold node `j` of `p` and the arc that leaves it.
pub open spec fn step_expanded(
    arcs: Map<(u32, u32), (u32, bool)>,
    p: Seq<u32>,
    entries: Seq<PathEntry>,
    j: int,
) -> bool {
    &&& entries[2 * j] == PathEntry::SnappedPoint(NodeID(p[j]))
    &&& entries[2 * j + 1] == PathEntry::Edge(
        DirectedEdge { edge: EdgeID(arcs[(p[j], p[j + 1])].0), forwards: arcs[(p[j], p[j + 1])].1 },
    )
}

proof fn lemma_expanded(arcs: Map<(u32, u32), (u32, bool)>, p: Seq<u32>, entries: Seq<PathEntry>)
    requires
        p.len() >= 1,
        entries.len() == 2 * p.len() - 1,
        forall|j: int| 0 <= j < p.len() - 1 ==> #[trigger] step_expanded(arcs, p, entries, j),
        entries[2 * (p.len() - 1)] == PathEntry::SnappedPoint(NodeID(p.last())),
    ensures
        entries == expand(arcs, p),
{
    let x = expand(arcs, p);
    assert forall|k: int| 0 <= k < x.len() implies #[trigger] entries[k] == x[k] by {
        let j = k / 2;
        if k % 2 == 0 {
            assert(k == 2 * j);
            if j < p.len() - 1 {
                assert(step_expanded(arcs, p, entries, j));
            }
        } else {
            assert(k == 2 * j + 1);
            assert(step_expanded(arcs, p, entries, j));
        }
    }
    assert(entries =~= x);
}

/// Owns the map, its directed graph and the configuration.
pub struct Router {
    pub map: RouteSnapperMap,
    pub graph: ArcGraph,
    /// The length of each edge, for the search's arc weights.
    pub lengths: Vec<u32>,
    pub config: Config,
}

impl Router {
    /// The arcs of the directed graph.
    pub open spec fn arcs(&self) -> Map<(u32, u32), (u32, bool)> {
        graph_arcs(self.graph)
    }

    pub open spec fn wf(&self) -> bool {
        &&& self.map.wf()
        &&& self.arcs() == map_arcs(self.map.edges@)
        &&& arcs_in_bounds(self.arcs(), self.map.nodes@.len(), self.map.edges@.len())
        &&& self.lengths@ == edge_lengths(self.map.edges@)
    }

    /// Builds the directed graph of a loaded map.
    pub fn new(map: RouteSnapperMap, config: Config) -> (r: Router)
        requires
            map.wf(),
        ensures
            r.wf(),
            r.map == map,
            r.config == config,
    {
        let mut graph = new_graph();
        let mut lengths: Vec<u32> = Vec::new();
        let n = map.edges.len();
        let mut i: usize = 0;
        while i < n
            invariant
                n == map.edges@.len(),
                n <= MAX_EDGES,
                0 <= i <= n,
                graph_arcs(graph) == map_arcs(map.edges@.take(i as int)),
                lengths@ == edge_lengths(map.edges@.take(i as int)),
            decreases n - i,
        {
            let e = &map.edges[i];
            if e.forward_cost.is_some() {
                add_arc(&mut graph, e.node1.0, e.node2.0, (i as u32, true));
            }
            if e.backward_cost.is_some() {
                add_arc(&mut graph, e.node2.0, e.node1.0, (i as u32, false));
            }
            lengths.push(e.length_mm);
            proof {
                assert(map.edges@.take(i + 1).drop_last() =~= map.edges@.take(i as int));
                assert(edge_lengths(map.edges@.take(i + 1)) =~= edge_lengths(
                    map.edges@.take(i as int),
                ).push(e.length_mm));
            }
            i += 1;
        }
        proof {
            assert(map.edges@.take(n as int) =~= map.edges@);
            lemma_map_arcs_bounds(map.edges@, map.nodes@.len());
        }
        Router { map, graph, lengths, config }
    }

    /// Marks the edges whose weight is doubled when routing after `prev_path`.
    fn avoided_edges(&self, prev_path: &Vec<PathEntry>) -> (r: Vec<bool>)
        requires
            self.wf(),
        ensures
            r@ == avoid_flags(self.config, prev_path@, self.map.edges@.len()),
    {
        let n = self.map.edges.len();
        let mut avoid: Vec<bool> = Vec::new();
        let mut e: usize = 0;
        while e < n
            invariant
                n == self.map.edges@.len(),
                0 <= e <= n,
                avoid@ =~= Seq::new(e as nat, |_i: int| false),
            decreases n - e,
        {
            avoid.push(false);
            e += 1;
        }
        if self.config.avoid_doubling_back {
            let m = prev_path.len();
            let mut i: usize = 0;
            while i < m
                invariant
                    n == self.map.edges@.len(),
                    m == prev_path@.len(),
                    n <= MAX_EDGES,
                    self.config.avoid_doubling_back,
                    0 <= i <= m,
                    avoid@.len() == n,
                    forall|e: int|
                        0 <= e < n ==> (#[trigger] avoid@[e] <==> uses_edge(
                            prev_path@.take(i as int),
                            e as u32,
                        )),
                decreases m - i,
            {
                let ghost before = avoid@;
                if let PathEntry::Edge(de) = prev_path[i] {
                    if (de.edge.0 as usize) < n {
                        avoid.set(de.edge.0 as usize, true);
                    }
                }
                proof {
                    let pre = prev_path@.take(i as int);
                    let post = prev_path@.take(i + 1);
                    assert forall|e: int| 0 <= e < n implies (#[trigger] avoid@[e] <==> uses_edge(
                        post,
                        e as u32,
                    )) by {
                        assert(before[e] <==> uses_edge(pre, e as u32));
                        if uses_edge(pre, e as u32) {
                            let k = choose|k: int|
                                0 <= k < pre.len() && (#[trigger] pre[k]) is Edge
                                    && pre[k]->Edge_0.edge.0 == e as u32;
                            assert(post[k] == pre[k]);
                        }
                        if uses_edge(post, e as u32) {
                            let k = choose|k: int|
                                0 <= k < post.len() && (#[trigger] post[k]) is Edge
                                    && post[k]->Edge_0.edge.0 == e as u32;
                            if k < i {
                                assert(pre[k] == post[k]);
                            }
                        }
                        if prev_path@[i as int] is Edge && prev_path@[i as int]->Edge_0.edge.0
                            == e as u32 {
                            assert(post[i as int] == prev_path@[i as int]);
                        }
                    }
                }
                i += 1;
            }
            proof {
                assert(prev_path@.take(m as int) =~= prev_path@);
            }
        }
        proof {
            assert(avoid@ =~= avoid_flags(self.config, prev_path@, n as nat));
        }
        avoid
    }

    /// A cheapest path from `node1` to `node2`, as the sequence
    /// `SnappedPoint, Edge, SnappedPoint, ..., SnappedPoint`. An edge already
    /// used by `prev_path` weighs double when the configuration asks to avoid
    /// doubling back. `None` when `node2` cannot be reached.
    pub fn pathfind(&self, node1: NodeID, node2: NodeID, prev_path: &Vec<PathEntry>) -> (r: Option<
        Vec<PathEntry>,
    >)
        requires
            self.wf(),
        ensures
            match r {
                Some(v) => exists|p: Seq<u32>|
                    {
                        &&& #[trigger] is_shortest_path(
                            self.arcs(),
                            edge_lengths(self.map.edges@),
                            avoid_flags(self.config, prev_path@, self.map.edges@.len()),
                            p,
                            node1.0,
                            node2.0,
                        )
                        &&& v@ == expand(self.arcs(), p)
                    },
                None => !reachable(self.arcs(), node1.0, node2.0),
            },
    {
        let avoid = self.avoided_edges(prev_path);
        let found = astar_path(&self.graph, node1.0, node2.0, &self.lengths, &avoid);
        match found {
            None => None,
            Some((_, path)) => {
                let ghost arcs = self.arcs();
                proof {
                    lemma_shortest_is_path(
                        arcs,
                        edge_lengths(self.map.edges@),
                        avoid_flags(self.config, prev_path@, self.map.edges@.len()),
                        path@,
                        node1.0,
                        node2.0,
                    );
                }
                let m = path.len();
                let mut entries: Vec<PathEntry> = Vec::new();
                let mut i: usize = 0;
                while i + 1 < m
                    invariant
                        m == path@.len(),
                        m >= 1,
                        arcs == graph_arcs(self.graph),
                        is_path(arcs, path@, node1.0, node2.0),
                        0 <= i < m,
                        entries@.len() == 2 * i,
                        forall|j: int| 0 <= j < i ==> #[trigger] step_expanded(arcs, path@, entries@, j),
                    decreases m - i,
                {
                    let a = path[i];
                    let b = path[i + 1];
                    assert(arcs.contains_key((path@[i as int], path@[i + 1])));
                    let ghost old_entries = entries@;
                    let label = arc_label(&self.graph, a, b);
                    let w = label.unwrap();
                    entries.push(PathEntry::SnappedPoint(NodeID(a)));
                    entries.push(
                        PathEntry::Edge(DirectedEdge { edge: EdgeID(w.0), forwards: w.1 }),
                    );
                    proof {
                        assert(step_expanded(arcs, path@, entries@, i as int));
                        assert forall|j: int| 0 <= j < i + 1 implies #[trigger] step_expanded(
                            arcs,
                            path@,
                            entries@,
                            j,
                        ) by {
                            if j < i {
                                assert(step_expanded(arcs, path@, old_entries, j));
                            }
                        }
                    }
                    i += 1;
                }
                let ghost body = entries@;
                entries.push(PathEntry::SnappedPoint(NodeID(path[m - 1])));
                proof {
                    assert forall|j: int| 0 <= j < m - 1 implies #[trigger] step_expanded(
                        arcs,
                        path@,
                        entries@,
                        j,
                    ) by {
                        assert(step_expanded(arcs, path@, body, j));
                    }
                    lemma_expanded(arcs, path@, entries@);
                    assert(is_shortest_path(
                        arcs,
                        edge_lengths(self.map.edges@),
                        avoid_flags(self.config, prev_path@, self.map.edges@.len()),
                        path@,
                        node1.0,
                        node2.0,
                    ));
                }
                Some(entries)
            },
        }
    }
}

} // verus!
