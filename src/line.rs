//! The geometry of a route: the line through its full path.
use vstd::prelude::*;

use crate::graph::{Coord, RouteSnapperMap};
use crate::route::{
    is_closed, expands_prefix, lemma_find_segment, segment_at, waypoint_at, DirectedEdge, PathEntry,
    Waypoint,
};
use crate::router::{
    avoid_flags, edge_lengths, expand, lemma_shortest_is_path, reachable, Router,
};
use crate::snapper::{all_valid, waypoint_valid, JsRouteSnapper};

verus! {

pub open spec fn reversed(s: Seq<Coord>) -> Seq<Coord> {
    Seq::new(s.len(), |i: int| s[s.len() - 1 - i])
}

/// The polyline of an edge in the direction it is traversed.
pub open spec fn directed_geometry(map: RouteSnapperMap, de: DirectedEdge) -> Seq<Coord> {
    let g = map.edges@[de.edge.0 as int].geometry@;
    if de.forwards {
        g
    } else {
        reversed(g)
    }
}

/// The points that one entry of a full path contributes.
pub open spec fn entry_points(map: RouteSnapperMap, e: PathEntry) -> Seq<Coord> {
    match e {
        PathEntry::SnappedPoint(n) => seq![map.nodes@[n.0 as int]],
        PathEntry::FreePoint(c) => seq![c],
        PathEntry::Edge(de) => directed_geometry(map, de),
    }
}

/// The points of the entries in order, before duplicates are merged.
pub open spec fn path_points(map: RouteSnapperMap, fp: Seq<PathEntry>) -> Seq<Coord>
    decreases fp.len(),
{
    if fp.len() == 0 {
        Seq::empty()
    } else {
        path_points(map, fp.drop_last()) + entry_points(map, fp.last())
    }
}

/// `s` with each run of equal neighbours merged into one point.
pub open spec fn dedup(s: Seq<Coord>) -> Seq<Coord>
    decreases s.len(),
{
    if s.len() == 0 {
        Seq::empty()
    } else {
        let d = dedup(s.drop_last());
        if d.len() > 0 && d.last() == s.last() {
            d
        } else {
            d.push(s.last())
        }
    }
}

/// Whether every entry names an existing node or edge.
pub open spec fn entries_valid(map: RouteSnapperMap, fp: Seq<PathEntry>) -> bool {
    forall|k: int|
        0 <= k < fp.len() ==> match #[trigger] fp[k] {
            PathEntry::SnappedPoint(n) => n.0 < map.nodes@.len(),
            PathEntry::FreePoint(_) => true,
            PathEntry::Edge(de) => de.edge.0 < map.edges@.len(),
        }
}

/// The line of a full path, if it has two distinct points.
pub open spec fn spec_line_string(map: RouteSnapperMap, fp: Seq<PathEntry>) -> Option<Seq<Coord>> {
    let pts = dedup(path_points(map, fp));
    if fp.len() == 0 || pts.len() < 2 {
        None
    } else {
        Some(pts)
    }
}

proof fn lemma_entry_valid_at(
    r: Router,
    wps: Seq<Waypoint>,
    fp: Seq<PathEntry>,
    pos: Seq<int>,
    segs: Seq<Seq<u32>>,
    k: int,
)
    requires
        r.wf(),
        expands_prefix(r, wps, wps.len() as int, fp, pos, segs),
        all_valid(r.map.nodes@.len(), wps),
        0 <= k < fp.len(),
    ensures
        match fp[k] {
            PathEntry::SnappedPoint(n) => n.0 < r.map.nodes@.len(),
            PathEntry::FreePoint(_) => true,
            PathEntry::Edge(de) => de.edge.0 < r.map.edges@.len(),
        },
{
    let n = wps.len() as int;
    let nn = r.map.nodes@.len();
    if k == fp.len() - 1 {
        assert(waypoint_at(wps, fp, pos, n - 1));
        assert(waypoint_valid(nn, wps[n - 1]));
    } else {
        let i = lemma_find_segment(r, wps, fp, pos, segs, k, n - 1);
        assert(segment_at(r, wps, fp, pos, segs, i));
        assert(waypoint_at(wps, fp, pos, i));
        assert(waypoint_valid(nn, wps[i]));
        let a = wps[i];
        let b = wps[i + 1];
        let lo = pos[i];
        let hi = pos[i + 1];
        if a is Snapped && b is Snapped && reachable(r.arcs(), a->Snapped_0.0, b->Snapped_0.0) {
            let p = segs[i];
            lemma_shortest_is_path(
                r.arcs(),
                edge_lengths(r.map.edges@),
                avoid_flags(r.config, fp.take(lo + 1), r.map.edges@.len()),
                p,
                a->Snapped_0.0,
                b->Snapped_0.0,
            );
            let e = expand(r.arcs(), p);
            assert(fp.subrange(lo, hi + 1) == e);
            assert(fp[k] == e[k - lo]);
            let t = (k - lo) / 2;
            assert(t < p.len() - 1) by {
                assert(k - lo < e.len() - 1);
            }
            assert(r.arcs().contains_key((p[t], p[t + 1])));
        } else {
            assert(k == lo);
        }
    }
}

/// The entries of a snapper's full path name existing nodes and edges.
pub proof fn lemma_entries_valid(s: JsRouteSnapper)
    requires
        s.wf(),
    ensures
        entries_valid(s.router.map, s.fp()),
{
    if s.fp().len() > 0 {
        let (pos, segs) = choose|pos: Seq<int>, segs: Seq<Seq<u32>>|
            expands_prefix(s.router, s.wps(), s.wps().len() as int, s.fp(), pos, segs);
        assert forall|k: int| 0 <= k < s.fp().len() implies match #[trigger] s.fp()[k] {
            PathEntry::SnappedPoint(n) => n.0 < s.router.map.nodes@.len(),
            PathEntry::FreePoint(_) => true,
            PathEntry::Edge(de) => de.edge.0 < s.router.map.edges@.len(),
        } by {
            lemma_entry_valid_at(s.router, s.wps(), s.fp(), pos, segs, k);
        }
    }
}

/// A piece of a drawn route: a line, and whether it follows the graph.
#[derive(Debug)]
pub struct LinePiece {
    pub points: Vec<Coord>,
    pub snapped: bool,
}

/// `result` with the line through `pts` appended, if that line has two
/// distinct points.
pub open spec fn add_piece(result: Seq<(Seq<Coord>, bool)>, pts: Seq<Coord>, snapped: bool) -> Seq<
    (Seq<Coord>, bool),
> {
    let d = dedup(pts);
    if d.len() >= 2 {
        result.push((d, snapped))
    } else {
        result
    }
}

/// The pieces finished after the first `i` entries, the points of the piece
/// under way, and whether that piece follows the graph. A free point ends a
/// snapped piece (the free piece starting at the last snapped point) and a
/// snapped point ends a free piece (the snapped piece starting there). Two
/// snapped points with no edge between them (the graph does not join them)
/// end the snapped piece too: the straight step between them is a piece of
/// its own, not following the graph, and a new snapped piece starts at the
/// second point.
pub open spec fn broken_fold(map: RouteSnapperMap, fp: Seq<PathEntry>, i: int) -> (
    Seq<(Seq<Coord>, bool)>,
    Seq<Coord>,
    bool,
)
    decreases i,
{
    if i <= 0 {
        (Seq::empty(), Seq::empty(), !(fp[0] is FreePoint))
    } else {
        let (res, pts, prev) = broken_fold(map, fp, i - 1);
        let e = fp[i - 1];
        match e {
            PathEntry::Edge(de) => (res, pts + directed_geometry(map, de), prev),
            _ => {
                let pt = entry_points(map, e)[0];
                let snapped = !(e is FreePoint);
                if snapped && prev && i >= 2 && fp[i - 2] is SnappedPoint {
                    (
                        add_piece(add_piece(res, pts, true), seq![pts.last(), pt], false),
                        seq![pt],
                        true,
                    )
                } else if prev == snapped {
                    (res, pts.push(pt), prev)
                } else if prev {
                    (add_piece(res, pts, true), seq![pts.last(), pt], false)
                } else {
                    (add_piece(res, pts.push(pt), false), seq![pt], true)
                }
            },
        }
    }
}

/// The route's line, cut where it switches between following the graph and
/// running straight (to or from a free point, or between snapped points that
/// the graph does not join).
pub open spec fn spec_broken_down(map: RouteSnapperMap, fp: Seq<PathEntry>) -> Seq<
    (Seq<Coord>, bool),
> {
    if fp.len() == 0 {
        Seq::empty()
    } else {
        let (res, pts, prev) = broken_fold(map, fp, fp.len() as int);
        add_piece(res, pts, prev)
    }
}

pub open spec fn pieces_view(v: Seq<LinePiece>) -> Seq<(Seq<Coord>, bool)> {
    v.map_values(|p: LinePiece| (p.points@, p.snapped))
}

fn dedup_points(v: &Vec<Coord>) -> (r: Vec<Coord>)
    ensures
        r@ == dedup(v@),
{
    let mut out: Vec<Coord> = Vec::new();
    let n = v.len();
    let mut i: usize = 0;
    while i < n
        invariant
            n == v@.len(),
            0 <= i <= n,
            out@ == dedup(v@.take(i as int)),
        decreases n - i,
    {
        proof {
            assert(v@.take(i + 1) =~= v@.take(i as int).push(v@[i as int]));
        }
        push_point(&mut out, v[i], Ghost(v@.take(i as int)));
        i += 1;
    }
    proof {
        assert(v@.take(n as int) =~= v@);
    }
    out
}

fn add_piece_exec(result: &mut Vec<LinePiece>, pts: &Vec<Coord>, snapped: bool)
    ensures
        pieces_view(final(result)@) == add_piece(pieces_view(old(result)@), pts@, snapped),
{
    let d = dedup_points(pts);
    if d.len() >= 2 {
        let ghost before = result@;
        result.push(LinePiece { points: d, snapped });
        proof {
            assert(pieces_view(result@) =~= pieces_view(before).push((d@, snapped)));
        }
    }
}

/// Appends `c` unless it repeats the last point.
fn push_point(out: &mut Vec<Coord>, c: Coord, raw: Ghost<Seq<Coord>>)
    requires
        old(out)@ == dedup(raw@),
    ensures
        final(out)@ == dedup(raw@.push(c)),
{
    proof {
        assert(raw@.push(c).drop_last() =~= raw@);
    }
    let n = out.len();
    if n == 0 || out[n - 1] != c {
        out.push(c);
    }
}

/// The polyline of an edge in the direction it is traversed.
pub fn edge_geometry(map: &RouteSnapperMap, dir_edge: DirectedEdge) -> (r: Vec<Coord>)
    requires
        dir_edge.edge.0 < map.edges@.len(),
    ensures
        r@ == directed_geometry(*map, dir_edge),
{
    let g = &map.edge(dir_edge.edge).geometry;
    let n = g.len();
    let mut pts: Vec<Coord> = Vec::new();
    let mut i: usize = 0;
    while i < n
        invariant
            n == g@.len(),
            0 <= i <= n,
            pts@.len() == i,
            forall|j: int|
                0 <= j < i ==> #[trigger] pts@[j] == if dir_edge.forwards {
                    g@[j]
                } else {
                    g@[n - 1 - j]
                },
        decreases n - i,
    {
        if dir_edge.forwards {
            pts.push(g[i]);
        } else {
            pts.push(g[n - 1 - i]);
        }
        i += 1;
    }
    proof {
        assert(pts@ =~= directed_geometry(*map, dir_edge));
    }
    pts
}

impl JsRouteSnapper {
    /// The line through the full path: each snapped point's node, each free
    /// point, and each edge's polyline in its direction, with equal
    /// neighbouring points merged. `None` unless it has two distinct points.
    pub fn entire_line_string(&self) -> (r: Option<Vec<Coord>>)
        requires
            self.wf(),
        ensures
            r matches Some(v) ==> spec_line_string(self.router.map, self.fp()) == Some(v@),
            r is None ==> spec_line_string(self.router.map, self.fp()) is None,
    {
        proof {
            lemma_entries_valid(*self);
        }
        let fp = &self.route.full_path;
        let map = &self.router.map;
        if fp.len() == 0 {
            return None;
        }
        let n = fp.len();
        let mut pts: Vec<Coord> = Vec::new();
        let mut i: usize = 0;
        while i < n
            invariant
                n == fp@.len(),
                0 <= i <= n,
                entries_valid(*map, fp@),
                pts@ == dedup(path_points(*map, fp@.take(i as int))),
            decreases n - i,
        {
            let ghost before = path_points(*map, fp@.take(i as int));
            let e = fp[i];
            let ghost step = entry_points(*map, e);
            proof {
                assert(fp@.take(i + 1).drop_last() =~= fp@.take(i as int));
                assert(path_points(*map, fp@.take(i + 1)) == before + step);
            }
            match e {
                PathEntry::SnappedPoint(node) => {
                    push_point(&mut pts, map.node(node), Ghost(before));
                    proof {
                        assert(before + step =~= before.push(map.nodes@[node.0 as int]));
                    }
                },
                PathEntry::FreePoint(c) => {
                    push_point(&mut pts, c, Ghost(before));
                    proof {
                        assert(before + step =~= before.push(c));
                    }
                },
                PathEntry::Edge(de) => {
                    let g = edge_geometry(map, de);
                    let m = g.len();
                    let mut j: usize = 0;
                    while j < m
                        invariant
                            m == g@.len(),
                            0 <= j <= m,
                            g@ == step,
                            pts@ == dedup(before + step.take(j as int)),
                        decreases m - j,
                    {
                        proof {
                            assert(before + step.take(j + 1) =~= (before + step.take(
                                j as int,
                            )).push(g@[j as int]));
                        }
                        push_point(&mut pts, g[j], Ghost(before + step.take(j as int)));
                        j += 1;
                    }
                    proof {
                        assert(step.take(m as int) =~= step);
                    }
                },
            }
            i += 1;
        }
        proof {
            assert(fp@.take(n as int) =~= fp@);
        }
        if pts.len() < 2 {
            return None;
        }
        Some(pts)
    }

    /// The closed ring of an area: the route's line when the route is closed.
    pub fn into_polygon_area(&self) -> (r: Option<Vec<Coord>>)
        requires
            self.wf(),
        ensures
            !is_closed(self.wps()) ==> r is None,
            is_closed(self.wps()) ==> (r matches Some(v) ==> spec_line_string(
                self.router.map,
                self.fp(),
            ) == Some(v@)) && (r is None ==> spec_line_string(self.router.map, self.fp()) is None),
    {
        if !self.route.is_closed_area() {
            return None;
        }
        self.entire_line_string()
    }

    /// The route's line in pieces, each marked with whether it follows the
    /// graph; see `spec_broken_down`.
    pub fn line_string_broken_down(&self) -> (r: Vec<LinePiece>)
        requires
            self.wf(),
        ensures
            pieces_view(r@) == spec_broken_down(self.router.map, self.fp()),
    {
        let mut result: Vec<LinePiece> = Vec::new();
        let fp = &self.route.full_path;
        let map = &self.router.map;
        let n = fp.len();
        if n == 0 {
            proof {
                assert(pieces_view(result@) =~= Seq::<(Seq<Coord>, bool)>::empty());
            }
            return result;
        }
        proof {
            lemma_entries_valid(*self);
            let (pos, segs) = choose|pos: Seq<int>, segs: Seq<Seq<u32>>|
                expands_prefix(self.router, self.wps(), self.wps().len() as int, self.fp(), pos, segs);
            assert(waypoint_at(self.wps(), self.fp(), pos, 0));
        }
        let mut prev_snapped = !matches!(fp[0], PathEntry::FreePoint(_));
        let mut pts: Vec<Coord> = Vec::new();
        let mut i: usize = 0;
        proof {
            assert(pieces_view(result@) =~= Seq::<(Seq<Coord>, bool)>::empty());
        }
        while i < n
            invariant
                n == fp@.len(),
                n > 0,
                !(fp@[0] is Edge),
                0 <= i <= n,
                entries_valid(*map, fp@),
                (pieces_view(result@), pts@, prev_snapped) == broken_fold(*map, fp@, i as int),
                i > 0 ==> pts@.len() > 0,
            decreases n - i,
        {
            let e = fp[i];
            match e {
                PathEntry::Edge(de) => {
                    let g = edge_geometry(map, de);
                    let m = g.len();
                    let ghost start = pts@;
                    let mut j: usize = 0;
                    while j < m
                        invariant
                            m == g@.len(),
                            0 <= j <= m,
                            pts@ == start + g@.take(j as int),
                        decreases m - j,
                    {
                        pts.push(g[j]);
                        proof {
                            assert(start + g@.take(j + 1) =~= (start + g@.take(j as int)).push(
                                g@[j as int],
                            ));
                        }
                        j += 1;
                    }
                    proof {
                        assert(g@.take(m as int) =~= g@);
                        assert(i > 0);
                    }
                },
                _ => {
                    let pt = match e {
                        PathEntry::SnappedPoint(node) => map.node(node),
                        PathEntry::FreePoint(c) => c,
                        PathEntry::Edge(_) => unreached(),
                    };
                    let snapped = !matches!(e, PathEntry::FreePoint(_));
                    let straight_after_snapped = snapped && prev_snapped && i >= 1 && matches!(
                        fp[i - 1],
                        PathEntry::SnappedPoint(_)
                    );
                    if straight_after_snapped {
                        let last_pt = pts[pts.len() - 1];
                        add_piece_exec(&mut result, &pts, true);
                        let step = vec![last_pt, pt];
                        proof {
                            assert(step@ =~= seq![last_pt, pt]);
                        }
                        add_piece_exec(&mut result, &step, false);
                        pts = vec![pt];
                        proof {
                            assert(pts@ =~= seq![pt]);
                        }
                    } else if prev_snapped == snapped {
                        pts.push(pt);
                    } else if prev_snapped {
                        let last_pt = pts[pts.len() - 1];
                        add_piece_exec(&mut result, &pts, true);
                        prev_snapped = false;
                        pts = vec![last_pt, pt];
                        proof {
                            assert(pts@ =~= seq![last_pt, pt]);
                        }
                    } else {
                        pts.push(pt);
                        add_piece_exec(&mut result, &pts, false);
                        prev_snapped = true;
                        pts = vec![pt];
                        proof {
                            assert(pts@ =~= seq![pt]);
                        }
                    }
                },
            }
            i += 1;
        }
        add_piece_exec(&mut result, &pts, prev_snapped);
        result
    }
}

} // verus!
