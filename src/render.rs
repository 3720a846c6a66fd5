//! What to draw for the current state: circles for points, and a preview of
//! the next part of the route.
use vstd::prelude::*;

use crate::graph::{Coord, RouteSnapperMap};
use crate::line::{directed_geometry, edge_geometry, lemma_entries_valid, pieces_view, LinePiece};
use crate::route::{is_closed, lemma_expand_parity, PathEntry, Waypoint};
use crate::router::{
    avoid_flags, edge_lengths, expand, is_path, is_shortest_path, lemma_shortest_is_path, reachable,
};
use crate::snapper::{path_contains, waypoint_valid, JsRouteSnapper, Mode};

verus! {

/// How a circle is drawn; later styles cover earlier ones.
#[derive(Clone, Copy, PartialEq, Eq, Structural, Debug)]
pub enum CircleStyle {
    /// A node of the route that is not a waypoint.
    Node,
    FreeWaypoint,
    SnappedWaypoint,
}

/// A point to draw, with the waypoint whose name it shows, if any.
#[derive(Clone, Copy, PartialEq, Eq, Structural, Debug)]
pub struct Circle {
    pub pt: Coord,
    pub style: CircleStyle,
    pub named: Option<Waypoint>,
    pub hovered: bool,
}

pub open spec fn priority(s: CircleStyle) -> int {
    match s {
        CircleStyle::Node => 1,
        CircleStyle::FreeWaypoint => 2,
        CircleStyle::SnappedWaypoint => 3,
    }
}

pub open spec fn waypoint_style(w: Waypoint) -> CircleStyle {
    match w {
        Waypoint::Snapped(_) => CircleStyle::SnappedWaypoint,
        Waypoint::Free(_) => CircleStyle::FreeWaypoint,
    }
}

/// Drawing order: by style, then by position.
pub open spec fn circle_before(a: Circle, b: Circle) -> bool {
    priority(a.style) < priority(b.style) || (priority(a.style) == priority(b.style) && (a.pt.x
        < b.pt.x || (a.pt.x == b.pt.x && a.pt.y < b.pt.y)))
}

/// Whether `a` comes before `b` by position alone.
pub open spec fn pt_before(a: Coord, b: Coord) -> bool {
    a.x < b.x || (a.x == b.x && a.y < b.y)
}

/// A circle request: position, style and the waypoint to name.
pub type Mark = (Coord, CircleStyle, Option<Waypoint>);

/// The style and name that the last request at each position asks for.
pub open spec fn marks_map(marks: Seq<Mark>) -> Map<Coord, (CircleStyle, Option<Waypoint>)>
    decreases marks.len(),
{
    if marks.len() == 0 {
        Map::empty()
    } else {
        let m = marks.last();
        marks_map(marks.drop_last()).insert(m.0, (m.1, m.2))
    }
}

/// The requests for the snapped points of `fp`.
pub open spec fn node_marks(s: JsRouteSnapper, fp: Seq<PathEntry>) -> Seq<Mark>
    decreases fp.len(),
{
    if fp.len() == 0 {
        Seq::empty()
    } else {
        let rest = node_marks(s, fp.drop_last());
        match fp.last() {
            PathEntry::SnappedPoint(n) => rest.push(
                (s.nodes()[n.0 as int], CircleStyle::Node, None::<Waypoint>),
            ),
            _ => rest,
        }
    }
}

/// The request for a waypoint: its position, style and name.
pub open spec fn waypoint_mark(s: JsRouteSnapper, w: Waypoint) -> Mark {
    (s.coord_of(w), waypoint_style(w), Some(w))
}

/// The request for what the pointer is on.
pub open spec fn current_marks(s: JsRouteSnapper) -> Seq<Mark> {
    match s.mode {
        Mode::Hovering(h) => seq![waypoint_mark(s, h)],
        Mode::Dragging { idx, at } => seq![waypoint_mark(s, at)],
        Mode::Freehand(pt) => seq![(pt, CircleStyle::FreeWaypoint, None::<Waypoint>)],
        Mode::Neutral => Seq::empty(),
    }
}

/// The circle requests of a state, in order: the nodes of the full path, the
/// waypoints, then whatever the pointer is on.
pub open spec fn marks_of(s: JsRouteSnapper) -> Seq<Mark> {
    node_marks(s, s.fp()) + s.wps().map_values(|w: Waypoint| waypoint_mark(s, w)) + current_marks(
        s,
    )
}

/// Where the pointer is, if anywhere.
pub open spec fn hover_point(s: JsRouteSnapper) -> Option<Coord> {
    match s.mode {
        Mode::Neutral => None,
        Mode::Hovering(h) => Some(s.coord_of(h)),
        Mode::Dragging { idx, at } => Some(s.coord_of(at)),
        Mode::Freehand(pt) => Some(pt),
    }
}

/// Sorted by position, at most one entry per position.
pub open spec fn sorted_by_pt(v: Seq<Mark>) -> bool {
    forall|i: int, j: int| 0 <= i < j < v.len() ==> pt_before((#[trigger] v[i]).0, (#[trigger] v[j]).0)
}

pub open spec fn map_of_sorted(v: Seq<Mark>) -> Map<Coord, (CircleStyle, Option<Waypoint>)> {
    Map::new(
        |c: Coord| exists|i: int| 0 <= i < v.len() && (#[trigger] v[i]).0 == c,
        |c: Coord| {
            let i = choose|i: int| 0 <= i < v.len() && (#[trigger] v[i]).0 == c;
            (v[i].1, v[i].2)
        },
    )
}

proof fn lemma_sorted_unique(v: Seq<Mark>, i: int, j: int)
    requires
        sorted_by_pt(v),
        0 <= i < v.len(),
        0 <= j < v.len(),
        v[i].0 == v[j].0,
    ensures
        i == j,
{
    if i < j {
        assert(pt_before(v[i].0, v[j].0));
    } else if j < i {
        assert(pt_before(v[j].0, v[i].0));
    }
}

/// Records a circle request in `v`, kept sorted by position: the request
/// replaces an earlier one at the same position.
fn upsert(v: &mut Vec<Mark>, m: Mark)
    requires
        sorted_by_pt(old(v)@),
    ensures
        sorted_by_pt(final(v)@),
        map_of_sorted(final(v)@) == map_of_sorted(old(v)@).insert(m.0, (m.1, m.2)),
{
    let n = v.len();
    let mut p: usize = 0;
    while p < n
        invariant
            n == v@.len(),
            0 <= p <= n,
            forall|k: int| 0 <= k < p ==> pt_before((#[trigger] v@[k]).0, m.0),
        ensures
            0 <= p <= n,
            forall|k: int| 0 <= k < p ==> pt_before((#[trigger] v@[k]).0, m.0),
            p < n ==> !pt_before(v@[p as int].0, m.0),
        decreases n - p,
    {
        let c = v[p].0;
        if !(c.x < m.0.x || (c.x == m.0.x && c.y < m.0.y)) {
            break;
        }
        p += 1;
    }
    let ghost old_v = v@;
    if p < n && v[p].0 == m.0 {
        v.set(p, m);
        proof {
            let nv = v@;
            assert forall|i: int, j: int| 0 <= i < j < nv.len() implies pt_before(
                (#[trigger] nv[i]).0,
                (#[trigger] nv[j]).0,
            ) by {
                assert(pt_before(old_v[i].0, old_v[j].0));
            }
            assert forall|c: Coord| #[trigger]
                map_of_sorted(nv).contains_key(c) <==> map_of_sorted(old_v).insert(
                    m.0,
                    (m.1, m.2),
                ).contains_key(c) by {
                if map_of_sorted(nv).contains_key(c) {
                    let i = choose|i: int| 0 <= i < nv.len() && (#[trigger] nv[i]).0 == c;
                    if i != p {
                        assert(old_v[i].0 == c);
                    }
                }
                if map_of_sorted(old_v).contains_key(c) {
                    let i = choose|i: int| 0 <= i < old_v.len() && (#[trigger] old_v[i]).0 == c;
                    assert(nv[i].0 == c);
                }
            }
            assert forall|c: Coord| #[trigger]
                map_of_sorted(nv).contains_key(c) implies map_of_sorted(nv)[c] == map_of_sorted(
                old_v,
            ).insert(m.0, (m.1, m.2))[c] by {
                let i = choose|i: int| 0 <= i < nv.len() && (#[trigger] nv[i]).0 == c;
                if c == m.0 {
                    lemma_sorted_unique(nv, i, p as int);
                } else {
                    let j = choose|j: int| 0 <= j < old_v.len() && (#[trigger] old_v[j]).0 == c;
                    assert(nv[j].0 == c);
                    lemma_sorted_unique(nv, i, j);
                }
            }
            assert(map_of_sorted(nv) =~= map_of_sorted(old_v).insert(m.0, (m.1, m.2)));
        }
        return;
    }
    v.insert(p, m);
    proof {
        let nv = v@;
        assert(nv =~= old_v.insert(p as int, m));
        assert forall|i: int, j: int| 0 <= i < j < nv.len() implies pt_before(
            (#[trigger] nv[i]).0,
            (#[trigger] nv[j]).0,
        ) by {
            if j < p {
                assert(pt_before(old_v[i].0, old_v[j].0));
            } else if j == p {
            } else if i < p {
                assert(pt_before(old_v[i].0, m.0));
                assert(!pt_before(old_v[p as int].0, m.0));
                if j - 1 > p {
                    assert(pt_before(old_v[p as int].0, old_v[j - 1].0));
                }
            } else if i == p {
                assert(!pt_before(old_v[p as int].0, m.0));
                if j - 1 > p {
                    assert(pt_before(old_v[p as int].0, old_v[j - 1].0));
                }
            } else {
                assert(pt_before(old_v[i - 1].0, old_v[j - 1].0));
            }
        }
        assert forall|c: Coord| #[trigger]
            map_of_sorted(nv).contains_key(c) <==> map_of_sorted(old_v).insert(
                m.0,
                (m.1, m.2),
            ).contains_key(c) by {
            if map_of_sorted(nv).contains_key(c) {
                let i = choose|i: int| 0 <= i < nv.len() && (#[trigger] nv[i]).0 == c;
                if i < p {
                    assert(old_v[i].0 == c);
                } else if i > p {
                    assert(old_v[i - 1].0 == c);
                }
            }
            if map_of_sorted(old_v).contains_key(c) {
                let i = choose|i: int| 0 <= i < old_v.len() && (#[trigger] old_v[i]).0 == c;
                if i < p {
                    assert(nv[i].0 == c);
                } else {
                    assert(nv[i + 1].0 == c);
                }
            }
            if c == m.0 {
                assert(nv[p as int].0 == c);
            }
        }
        assert forall|c: Coord| #[trigger]
            map_of_sorted(nv).contains_key(c) implies map_of_sorted(nv)[c] == map_of_sorted(
            old_v,
        ).insert(m.0, (m.1, m.2))[c] by {
            let i = choose|i: int| 0 <= i < nv.len() && (#[trigger] nv[i]).0 == c;
            if c == m.0 {
                lemma_sorted_unique(nv, i, p as int);
            } else {
                let j = choose|j: int| 0 <= j < old_v.len() && (#[trigger] old_v[j]).0 == c;
                if j < p {
                    assert(nv[j].0 == c);
                    lemma_sorted_unique(nv, i, j);
                } else {
                    assert(nv[j + 1].0 == c);
                    lemma_sorted_unique(nv, i, j + 1);
                }
            }
        }
        assert(map_of_sorted(nv) =~= map_of_sorted(old_v).insert(m.0, (m.1, m.2)));
    }
}


proof fn lemma_marks_push(marks: Seq<Mark>, m: Mark)
    ensures
        marks_map(marks.push(m)) == marks_map(marks).insert(m.0, (m.1, m.2)),
{
    assert(marks.push(m).drop_last() =~= marks);
}

/// Whether circle `c` draws a request of `v`, marked when the pointer is on it.
pub open spec fn drawn_from(v: Seq<Mark>, hover: Option<Coord>, c: Circle) -> bool {
    &&& exists|k: int| 0 <= k < v.len() && v[k] == (c.pt, c.style, c.named)
    &&& c.hovered == (hover == Some(c.pt))
}

/// Whether some circle of `out` is at position `p`.
pub open spec fn drawn_at(out: Seq<Circle>, p: Coord) -> bool {
    exists|i: int| 0 <= i < out.len() && out[i].pt == p
}

/// Appends, in order of position, a circle for each request in `v` with the
/// given style.
fn append_style(v: &Vec<Mark>, style: CircleStyle, hover: Option<Coord>, out: &mut Vec<Circle>)
    requires
        sorted_by_pt(v@),
        forall|i: int, j: int|
            0 <= i < j < old(out)@.len() ==> circle_before(#[trigger] old(out)@[i], #[trigger] old(out)@[j]),
        forall|i: int| 0 <= i < old(out)@.len() ==> priority((#[trigger] old(out)@[i]).style) < priority(style),
        forall|i: int| 0 <= i < old(out)@.len() ==> drawn_from(v@, hover, #[trigger] old(out)@[i]),
        forall|k: int|
            0 <= k < v@.len() && priority((#[trigger] v@[k]).1) < priority(style) ==> drawn_at(old(out)@, v@[k].0),
    ensures
        forall|i: int, j: int|
            0 <= i < j < final(out)@.len() ==> circle_before(#[trigger] final(out)@[i], #[trigger] final(out)@[j]),
        forall|i: int| 0 <= i < final(out)@.len() ==> priority((#[trigger] final(out)@[i]).style) <= priority(style),
        forall|i: int| 0 <= i < final(out)@.len() ==> drawn_from(v@, hover, #[trigger] final(out)@[i]),
        forall|k: int|
            0 <= k < v@.len() && priority((#[trigger] v@[k]).1) <= priority(style) ==> drawn_at(final(out)@, v@[k].0),
{
    let n = v.len();
    let ghost start = out@.len();
    let mut k: usize = 0;
    while k < n
        invariant
            n == v@.len(),
            0 <= k <= n,
            sorted_by_pt(v@),
            out@.len() >= start,
            forall|i: int, j: int|
                0 <= i < j < out@.len() ==> circle_before(#[trigger] out@[i], #[trigger] out@[j]),
            forall|i: int| 0 <= i < out@.len() ==> priority((#[trigger] out@[i]).style) <= priority(style),
            forall|i: int| 0 <= i < start ==> priority((#[trigger] out@[i]).style) < priority(style),
            forall|i: int| 0 <= i < out@.len() ==> drawn_from(v@, hover, #[trigger] out@[i]),
            forall|i: int|
                start <= i < out@.len() ==> (#[trigger] out@[i]).style == style && exists|j: int|
                    0 <= j < k && v@[j].0 == out@[i].pt,
            forall|j: int|
                0 <= j < n && priority((#[trigger] v@[j]).1) < priority(style) ==> drawn_at(out@, v@[j].0),
            forall|j: int| 0 <= j < k && (#[trigger] v@[j]).1 == style ==> drawn_at(out@, v@[j].0),
        decreases n - k,
    {
        let m = v[k];
        if m.1 == style {
            let hovered = match hover {
                Some(h) => h == m.0,
                None => false,
            };
            let ghost before = out@;
            let c = Circle { pt: m.0, style: m.1, named: m.2, hovered };
            out.push(c);
            proof {
                assert forall|i: int, j: int| 0 <= i < j < out@.len() implies circle_before(
                    #[trigger] out@[i],
                    #[trigger] out@[j],
                ) by {
                    if j == out@.len() - 1 && i >= start {
                        let jj = choose|jj: int| 0 <= jj < k && v@[jj].0 == before[i].pt;
                        assert(pt_before(v@[jj].0, v@[k as int].0));
                    } else if j < out@.len() - 1 {
                        assert(out@[i] == before[i] && out@[j] == before[j]);
                    }
                }
                assert(drawn_from(v@, hover, c)) by {
                    assert(v@[k as int] == (c.pt, c.style, c.named));
                }
                assert forall|i: int| 0 <= i < out@.len() implies drawn_from(v@, hover, #[trigger] out@[i]) by {
                    if i < before.len() {
                        assert(out@[i] == before[i]);
                    }
                }
                assert forall|i: int|
                    start <= i < out@.len() implies (#[trigger] out@[i]).style == style && exists|j: int|
                        0 <= j < k + 1 && v@[j].0 == out@[i].pt by {
                    if i < before.len() {
                        assert(out@[i] == before[i]);
                    } else {
                        assert(v@[k as int].0 == out@[i].pt);
                    }
                }
                assert forall|j: int|
                    0 <= j < n && priority((#[trigger] v@[j]).1) < priority(style) implies drawn_at(out@, v@[j].0) by {
                    assert(drawn_at(before, v@[j].0));
                    let i = choose|i: int| 0 <= i < before.len() && before[i].pt == v@[j].0;
                    assert(out@[i] == before[i]);
                }
                assert forall|j: int| 0 <= j < k + 1 && (#[trigger] v@[j]).1 == style implies drawn_at(out@, v@[j].0) by {
                    if j < k {
                        assert(drawn_at(before, v@[j].0));
                        let i = choose|i: int| 0 <= i < before.len() && before[i].pt == v@[j].0;
                        assert(out@[i] == before[i]);
                    } else {
                        assert(out@[out@.len() - 1].pt == v@[j].0);
                    }
                }
            }
        }
        k += 1;
    }
    proof {
        assert forall|j: int|
            0 <= j < n && priority((#[trigger] v@[j]).1) <= priority(style) implies drawn_at(out@, v@[j].0) by {
            if priority(v@[j].1) == priority(style) {
                assert(v@[j].1 == style);
            }
        }
    }
}

proof fn lemma_expand_edge_valid(s: JsRouteSnapper, p: Seq<u32>, a: u32, b: u32, k: int)
    requires
        s.wf(),
        is_path(s.router.arcs(), p, a, b),
        0 <= k < 2 * p.len() - 1,
        expand(s.router.arcs(), p)[k] is Edge,
    ensures
        expand(s.router.arcs(), p)[k]->Edge_0.edge.0 < s.router.map.edges@.len(),
{
    let t = k / 2;
    lemma_expand_parity(s.router.arcs(), p, k);
    assert(k % 2 == 1);
    assert(t < p.len() - 1);
    assert(s.router.arcs().contains_key((p[t], p[t + 1])));
}

proof fn lemma_circles_match(
    v: Seq<Mark>,
    out: Seq<Circle>,
    mm: Map<Coord, (CircleStyle, Option<Waypoint>)>,
    hover: Option<Coord>,
)
    requires
        sorted_by_pt(v),
        map_of_sorted(v) == mm,
        forall|i: int| 0 <= i < out.len() ==> drawn_from(v, hover, #[trigger] out[i]),
        forall|k: int| 0 <= k < v.len() ==> drawn_at(out, (#[trigger] v[k]).0),
    ensures
        forall|i: int|
            0 <= i < out.len() ==> {
                &&& mm.contains_key((#[trigger] out[i]).pt)
                &&& mm[out[i].pt] == (out[i].style, out[i].named)
            },
        forall|c: Coord| #[trigger] mm.contains_key(c) ==> exists|i: int| 0 <= i < out.len() && out[i].pt == c,
{
    assert forall|i: int| 0 <= i < out.len() implies {
        &&& mm.contains_key((#[trigger] out[i]).pt)
        &&& mm[out[i].pt] == (out[i].style, out[i].named)
    } by {
        assert(drawn_from(v, hover, out[i]));
        let k = choose|k: int| 0 <= k < v.len() && v[k] == (out[i].pt, out[i].style, out[i].named);
        assert(v[k].0 == out[i].pt);
        assert(map_of_sorted(v).contains_key(out[i].pt));
        let kk = choose|kk: int| 0 <= kk < v.len() && (#[trigger] v[kk]).0 == out[i].pt;
        lemma_sorted_unique(v, k, kk);
    }
    assert forall|c: Coord| #[trigger] mm.contains_key(c) implies exists|i: int|
        0 <= i < out.len() && out[i].pt == c by {
        assert(map_of_sorted(v).contains_key(c));
        let k = choose|k: int| 0 <= k < v.len() && (#[trigger] v[k]).0 == c;
        assert(drawn_at(out, v[k].0));
    }
}

/// One circle per request of `v`, in drawing order.
fn circles_from(v: &Vec<Mark>, hover: Option<Coord>) -> (r: Vec<Circle>)
    requires
        sorted_by_pt(v@),
    ensures
        forall|i: int| 0 <= i < r@.len() ==> drawn_from(v@, hover, #[trigger] r@[i]),
        forall|k: int| 0 <= k < v@.len() ==> drawn_at(r@, (#[trigger] v@[k]).0),
        forall|i: int, j: int| 0 <= i < j < r@.len() ==> circle_before(#[trigger] r@[i], #[trigger] r@[j]),
{
    let mut out: Vec<Circle> = Vec::new();
    append_style(v, CircleStyle::Node, hover, &mut out);
    append_style(v, CircleStyle::FreeWaypoint, hover, &mut out);
    append_style(v, CircleStyle::SnappedWaypoint, hover, &mut out);
    proof {
        assert forall|k: int| 0 <= k < v@.len() implies drawn_at(out@, (#[trigger] v@[k]).0) by {
            assert(priority(v@[k].1) <= 3);
        }
    }
    out
}

/// One snapped piece for each edge among `entries`, along the edge.
pub open spec fn edge_pieces(map: RouteSnapperMap, entries: Seq<PathEntry>) -> Seq<(Seq<Coord>, bool)>
    decreases entries.len(),
{
    if entries.len() == 0 {
        Seq::empty()
    } else {
        let rest = edge_pieces(map, entries.drop_last());
        match entries.last() {
            PathEntry::Edge(de) => rest.push((directed_geometry(map, de), true)),
            _ => rest,
        }
    }
}

/// Whether `r` previews the route's next part: from the last waypoint to a
/// hovered new node, along a cheapest path when the graph joins them (edge by
/// edge) and straight otherwise; from the last waypoint to a freehand point,
/// straight. Nothing on a closed area, when dragging, or with no waypoints.
pub open spec fn preview_ok(s: JsRouteSnapper, r: Seq<(Seq<Coord>, bool)>) -> bool {
    let wps = s.wps();
    match s.mode {
        Mode::Hovering(Waypoint::Snapped(cur)) => if wps.len() > 0 && !is_closed(wps) && !s.fp().contains(
            PathEntry::SnappedPoint(cur),
        ) {
            match wps.last() {
                Waypoint::Snapped(l) => if reachable(s.router.arcs(), l.0, cur.0) {
                    exists|p: Seq<u32>|
                        #[trigger] is_shortest_path(
                            s.router.arcs(),
                            edge_lengths(s.router.map.edges@),
                            avoid_flags(s.router.config, s.fp(), s.router.map.edges@.len()),
                            p,
                            l.0,
                            cur.0,
                        ) && r == edge_pieces(s.router.map, expand(s.router.arcs(), p))
                } else {
                    r == seq![(seq![s.nodes()[l.0 as int], s.nodes()[cur.0 as int]], false)]
                },
                Waypoint::Free(pt) => r == seq![(seq![pt, s.nodes()[cur.0 as int]], false)],
            }
        } else {
            r.len() == 0
        },
        Mode::Freehand(pt) => if wps.len() > 0 {
            r == seq![(seq![s.coord_of(wps.last()), pt], false)]
        } else {
            r.len() == 0
        },
        _ => r.len() == 0,
    }
}

impl JsRouteSnapper {
    /// The preview of the route's next part; see `preview_ok`.
    pub fn preview_pieces(&self) -> (r: Vec<LinePiece>)
        requires
            self.wf(),
        ensures
            preview_ok(*self, pieces_view(r@)),
    {
        let mut result: Vec<LinePiece> = Vec::new();
        let n = self.route.waypoints.len();
        proof {
            assert(pieces_view(result@) =~= Seq::<(Seq<Coord>, bool)>::empty());
        }
        if n == 0 {
            return result;
        }
        let last = self.route.waypoints[n - 1];
        proof {
            assert(waypoint_valid(self.nodes().len(), self.wps()[n - 1]));
        }
        match self.mode {
            Mode::Hovering(Waypoint::Snapped(current)) => {
                if self.route.is_closed_area() || path_contains(
                    &self.route.full_path,
                    PathEntry::SnappedPoint(current),
                ) {
                    return result;
                }
                let cur_pt = self.router.map.node(current);
                match last {
                    Waypoint::Snapped(l) => {
                        match self.router.pathfind(l, current, &self.route.full_path) {
                            Some(entries) => {
                                let ghost p = choose|p: Seq<u32>|
                                    #[trigger] is_shortest_path(
                                        self.router.arcs(),
                                        edge_lengths(self.router.map.edges@),
                                        avoid_flags(
                                            self.router.config,
                                            self.fp(),
                                            self.router.map.edges@.len(),
                                        ),
                                        p,
                                        l.0,
                                        current.0,
                                    ) && entries@ == expand(self.router.arcs(), p);
                                proof {
                                    lemma_shortest_is_path(
                                        self.router.arcs(),
                                        edge_lengths(self.router.map.edges@),
                                        avoid_flags(
                                            self.router.config,
                                            self.fp(),
                                            self.router.map.edges@.len(),
                                        ),
                                        p,
                                        l.0,
                                        current.0,
                                    );
                                }
                                result = self.edge_pieces_of(&entries, Ghost(p), Ghost(l.0), Ghost(current.0));
                                proof {
                                    assert(reachable(self.router.arcs(), l.0, current.0));
                                }
                            },
                            None => {
                                let lp = self.router.map.node(l);
                                result.push(LinePiece { points: vec![lp, cur_pt], snapped: false });
                                proof {
                                    assert(pieces_view(result@) =~= seq![
                                        (seq![lp, cur_pt], false),
                                    ]);
                                }
                            },
                        }
                    },
                    Waypoint::Free(pt) => {
                        result.push(LinePiece { points: vec![pt, cur_pt], snapped: false });
                        proof {
                            assert(pieces_view(result@) =~= seq![(seq![pt, cur_pt], false)]);
                        }
                    },
                }
            },
            Mode::Freehand(pt) => {
                let last_pt = self.to_pt(last);
                result.push(LinePiece { points: vec![last_pt, pt], snapped: false });
                proof {
                    assert(pieces_view(result@) =~= seq![(seq![last_pt, pt], false)]);
                }
            },
            _ => {},
        }
        result
    }

    fn edge_pieces_of(
        &self,
        entries: &Vec<PathEntry>,
        p: Ghost<Seq<u32>>,
        a: Ghost<u32>,
        b: Ghost<u32>,
    ) -> (r: Vec<LinePiece>)
        requires
            self.wf(),
            entries@ == expand(self.router.arcs(), p@),
            is_path(self.router.arcs(), p@, a@, b@),
        ensures
            pieces_view(r@) == edge_pieces(self.router.map, entries@),
    {
        let mut result: Vec<LinePiece> = Vec::new();
        let m = entries.len();
        let mut i: usize = 0;
        proof {
            assert(pieces_view(result@) =~= edge_pieces(self.router.map, entries@.take(0)));
        }
        while i < m
            invariant
                m == entries@.len(),
                0 <= i <= m,
                self.wf(),
                entries@ == expand(self.router.arcs(), p@),
                is_path(self.router.arcs(), p@, a@, b@),
                pieces_view(result@) == edge_pieces(self.router.map, entries@.take(i as int)),
            decreases m - i,
        {
            proof {
                assert(entries@.take(i + 1).drop_last() =~= entries@.take(i as int));
            }
            if let PathEntry::Edge(de) = entries[i] {
                proof {
                    lemma_expand_edge_valid(*self, p@, a@, b@, i as int);
                }
                let g = edge_geometry(&self.router.map, de);
                let ghost before = result@;
                result.push(LinePiece { points: g, snapped: true });
                proof {
                    assert(pieces_view(result@) =~= pieces_view(before).push((g@, true)));
                }
            }
            i += 1;
        }
        proof {
            assert(entries@.take(m as int) =~= entries@);
        }
        result
    }

    fn collect_marks(&self) -> (r: (Vec<Mark>, Option<Coord>))
        requires
            self.wf(),
        ensures
            sorted_by_pt(r.0@),
            map_of_sorted(r.0@) == marks_map(marks_of(*self)),
            r.1 == hover_point(*self),
    {
        proof {
            lemma_entries_valid(*self);
        }
        let mut v: Vec<Mark> = Vec::new();
        let ghost mut marks: Seq<Mark> = Seq::empty();
        let fp = &self.route.full_path;
        let n = fp.len();
        let mut i: usize = 0;
        proof {
            assert(map_of_sorted(v@) =~= marks_map(marks));
        }
        while i < n
            invariant
                n == fp@.len(),
                0 <= i <= n,
                self.wf(),
                crate::line::entries_valid(self.router.map, fp@),
                sorted_by_pt(v@),
                marks == node_marks(*self, fp@.take(i as int)),
                map_of_sorted(v@) == marks_map(marks),
            decreases n - i,
        {
            proof {
                assert(fp@.take(i + 1).drop_last() =~= fp@.take(i as int));
            }
            if let PathEntry::SnappedPoint(node) = fp[i] {
                let m = (self.router.map.node(node), CircleStyle::Node, None);
                upsert(&mut v, m);
                proof {
                    lemma_marks_push(marks, m);
                    marks = marks.push(m);
                }
            }
            i += 1;
        }
        proof {
            assert(fp@.take(n as int) =~= fp@);
        }
        let ghost node_part = marks;
        let wps = &self.route.waypoints;
        let nw = wps.len();
        let mut j: usize = 0;
        while j < nw
            invariant
                nw == wps@.len(),
                wps@ == self.wps(),
                0 <= j <= nw,
                self.wf(),
                sorted_by_pt(v@),
                marks == node_part + wps@.take(j as int).map_values(|w: Waypoint| waypoint_mark(*self, w)),
                map_of_sorted(v@) == marks_map(marks),
            decreases nw - j,
        {
            let w = wps[j];
            proof {
                assert(waypoint_valid(self.nodes().len(), wps@[j as int]));
            }
            let m = (self.to_pt(w), match w {
                Waypoint::Snapped(_) => CircleStyle::SnappedWaypoint,
                Waypoint::Free(_) => CircleStyle::FreeWaypoint,
            }, Some(w));
            upsert(&mut v, m);
            proof {
                lemma_marks_push(marks, m);
                assert(node_part + wps@.take(j + 1).map_values(|w: Waypoint| waypoint_mark(*self, w))
                    =~= marks.push(m));
                marks = marks.push(m);
            }
            j += 1;
        }
        proof {
            assert(wps@.take(nw as int) =~= wps@);
        }
        let hover: Option<Coord> = match self.mode {
            Mode::Neutral => None,
            Mode::Hovering(h) => {
                let c = self.to_pt(h);
                let m = (c, match h {
                    Waypoint::Snapped(_) => CircleStyle::SnappedWaypoint,
                    Waypoint::Free(_) => CircleStyle::FreeWaypoint,
                }, Some(h));
                upsert(&mut v, m);
                proof {
                    lemma_marks_push(marks, m);
                    marks = marks.push(m);
                }
                Some(c)
            },
            Mode::Dragging { at, .. } => {
                let c = self.to_pt(at);
                let m = (c, match at {
                    Waypoint::Snapped(_) => CircleStyle::SnappedWaypoint,
                    Waypoint::Free(_) => CircleStyle::FreeWaypoint,
                }, Some(at));
                upsert(&mut v, m);
                proof {
                    lemma_marks_push(marks, m);
                    marks = marks.push(m);
                }
                Some(c)
            },
            Mode::Freehand(pt) => {
                let m = (pt, CircleStyle::FreeWaypoint, None);
                upsert(&mut v, m);
                proof {
                    lemma_marks_push(marks, m);
                    marks = marks.push(m);
                }
                Some(pt)
            },
        };
        proof {
            assert(marks =~= marks_of(*self));
            assert(hover == hover_point(*self));
        }
        (v, hover)
    }

    /// The circles to draw, one per position: each with the style and name of
    /// the last request at that position (see `marks_of`), marked when the
    /// pointer is there, and in drawing order (see `circle_before`), so that
    /// waypoints cover plain nodes.
    pub fn render_circles(&self) -> (r: Vec<Circle>)
        requires
            self.wf(),
        ensures
            forall|i: int|
                0 <= i < r@.len() ==> {
                    &&& marks_map(marks_of(*self)).contains_key((#[trigger] r@[i]).pt)
                    &&& marks_map(marks_of(*self))[r@[i].pt] == (r@[i].style, r@[i].named)
                    &&& r@[i].hovered == (hover_point(*self) == Some(r@[i].pt))
                },
            forall|c: Coord|
                #[trigger] marks_map(marks_of(*self)).contains_key(c) ==> exists|i: int|
                    0 <= i < r@.len() && r@[i].pt == c,
            forall|i: int, j: int| 0 <= i < j < r@.len() ==> circle_before(#[trigger] r@[i], #[trigger] r@[j]),
    {
        let (v, hover) = self.collect_marks();
        let out = circles_from(&v, hover);
        proof {
            lemma_circles_match(v@, out@, marks_map(marks_of(*self)), hover);
        }
        out
    }
}

} // verus!
