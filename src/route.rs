//! Waypoints, path entries and the route that keeps them consistent.
use vstd::prelude::*;

use crate::graph::{Coord, EdgeID, NodeID};
use crate::router::{
    avoid_flags, edge_lengths, expand, is_path, is_shortest_path, lemma_shortest_is_path, reachable,
    Router,
};

verus! {

/// An edge traversed in one direction: forwards goes from `node1` to `node2`.
#[derive(Clone, Copy, PartialEq, Eq, Structural, Debug)]
pub struct DirectedEdge {
    pub edge: EdgeID,
    pub forwards: bool,
}

/// A point that the user placed: on a graph node, or anywhere.
#[derive(Clone, Copy, PartialEq, Eq, Structural, Debug)]
pub enum Waypoint {
    Snapped(NodeID),
    Free(Coord),
}

/// One step of the expanded route.
#[derive(Clone, Copy, PartialEq, Eq, Structural, Debug)]
pub enum PathEntry {
    SnappedPoint(NodeID),
    FreePoint(Coord),
    Edge(DirectedEdge),
}

pub open spec fn entry_of(w: Waypoint) -> PathEntry {
    match w {
        Waypoint::Snapped(n) => PathEntry::SnappedPoint(n),
        Waypoint::Free(c) => PathEntry::FreePoint(c),
    }
}

pub open spec fn waypoint_of(e: PathEntry) -> Option<Waypoint> {
    match e {
        PathEntry::SnappedPoint(n) => Some(Waypoint::Snapped(n)),
        PathEntry::FreePoint(c) => Some(Waypoint::Free(c)),
        PathEntry::Edge(_) => None,
    }
}

impl Waypoint {
    pub fn to_path_entry(self) -> (r: PathEntry)
        ensures
            r == entry_of(self),
    {
        match self {
            Waypoint::Snapped(x) => PathEntry::SnappedPoint(x),
            Waypoint::Free(x) => PathEntry::FreePoint(x),
        }
    }

    /// The style under which the waypoint is drawn.
    pub fn to_color_name(self) -> (r: &'static str)
        ensures
            self is Snapped ==> r@ == "snapped-waypoint"@,
            self is Free ==> r@ == "free-waypoint"@,
    {
        match self {
            Waypoint::Snapped(_) => "snapped-waypoint",
            Waypoint::Free(_) => "free-waypoint",
        }
    }
}

impl PathEntry {
    pub fn to_waypt(self) -> (r: Option<Waypoint>)
        ensures
            r == waypoint_of(self),
    {
        match self {
            PathEntry::SnappedPoint(x) => Some(Waypoint::Snapped(x)),
            PathEntry::FreePoint(x) => Some(Waypoint::Free(x)),
            PathEntry::Edge(_) => None,
        }
    }
}


/// The segment of `fp` from `lo` to `hi` joins waypoint `a` to waypoint `b`:
/// a cheapest path `seg` when both are snapped and `b` can be reached from
/// `a` (with the weights that the path so far gives), otherwise nothing
/// between them, `b` sharing `a`'s entry when the two are the same.
pub open spec fn segment_ok(
    r: Router,
    a: Waypoint,
    b: Waypoint,
    fp: Seq<PathEntry>,
    lo: int,
    hi: int,
    seg: Seq<u32>,
) -> bool {
    if a is Snapped && b is Snapped && reachable(r.arcs(), a->Snapped_0.0, b->Snapped_0.0) {
        &&& is_shortest_path(
            r.arcs(),
            edge_lengths(r.map.edges@),
            avoid_flags(r.config, fp.take(lo + 1), r.map.edges@.len()),
            seg,
            a->Snapped_0.0,
            b->Snapped_0.0,
        )
        &&& 0 <= lo <= hi < fp.len()
        &&& fp.subrange(lo, hi + 1) == expand(r.arcs(), seg)
    } else if entry_of(a) == entry_of(b) {
        hi == lo
    } else {
        hi == lo + 1
    }
}

/// Waypoint `i` stands at position `pos[i]` of `fp`.
pub open spec fn waypoint_at(
    wps: Seq<Waypoint>,
    fp: Seq<PathEntry>,
    pos: Seq<int>,
    i: int,
) -> bool {
    0 <= pos[i] < fp.len() && fp[pos[i]] == entry_of(wps[i])
}

/// The part of `fp` between waypoints `i` and `i + 1` is as `segment_ok` says.
pub open spec fn segment_at(
    r: Router,
    wps: Seq<Waypoint>,
    fp: Seq<PathEntry>,
    pos: Seq<int>,
    segs: Seq<Seq<u32>>,
    i: int,
) -> bool {
    segment_ok(r, wps[i], wps[i + 1], fp, pos[i], pos[i + 1], segs[i])
}

/// `fp` expands the first `m` waypoints of `wps`: waypoint `i` stands at
/// `pos[i]`, the first at the start and the last at the end, and `segs[i]` is
/// the node path from waypoint `i` to waypoint `i + 1` where they are joined
/// by the graph.
pub open spec fn expands_prefix(
    r: Router,
    wps: Seq<Waypoint>,
    m: int,
    fp: Seq<PathEntry>,
    pos: Seq<int>,
    segs: Seq<Seq<u32>>,
) -> bool {
    &&& 1 <= m <= wps.len()
    &&& pos.len() == m
    &&& segs.len() + 1 == m
    &&& pos[0] == 0
    &&& pos[m - 1] == fp.len() - 1
    &&& forall|i: int| 0 <= i < m ==> #[trigger] waypoint_at(wps, fp, pos, i)
    &&& forall|i: int| 0 <= i < m - 1 ==> #[trigger] segment_at(r, wps, fp, pos, segs, i)
}

/// `fp` expands all of the non-empty `wps`.
pub open spec fn expands(r: Router, wps: Seq<Waypoint>, fp: Seq<PathEntry>) -> bool {
    exists|pos: Seq<int>, segs: Seq<Seq<u32>>| expands_prefix(r, wps, wps.len() as int, fp, pos, segs)
}

/// Whether `fp` is a full path for the waypoints `wps`: empty for no
/// waypoints; for one, empty (as placed) or that waypoint's entry; for more,
/// the waypoints' entries in order with a cheapest path between each two
/// snapped neighbours that the graph joins.
pub open spec fn full_path_of(r: Router, wps: Seq<Waypoint>, fp: Seq<PathEntry>) -> bool {
    if wps.len() == 0 {
        fp.len() == 0
    } else if wps.len() == 1 && fp.len() == 0 {
        true
    } else {
        expands(r, wps, fp)
    }
}

/// The waypoints the user placed, and the path that they expand to.
pub struct Route {
    pub waypoints: Vec<Waypoint>,
    pub full_path: Vec<PathEntry>,
}

proof fn lemma_frame(
    r: Router,
    wps: Seq<Waypoint>,
    fp: Seq<PathEntry>,
    fp2: Seq<PathEntry>,
    pos: Seq<int>,
    segs: Seq<Seq<u32>>,
    n: int,
    limit: int,
)
    requires
        0 <= n <= wps.len(),
        pos.len() >= n,
        segs.len() + 1 >= n,
        0 <= limit < fp.len(),
        limit < fp2.len(),
        fp.take(limit + 1) == fp2.take(limit + 1),
        forall|i: int| 0 <= i < n ==> pos[i] <= limit,
        forall|i: int| 0 <= i < n ==> #[trigger] waypoint_at(wps, fp, pos, i),
        forall|i: int| 0 <= i < n - 1 ==> #[trigger] segment_at(r, wps, fp, pos, segs, i),
    ensures
        forall|i: int| 0 <= i < n ==> #[trigger] waypoint_at(wps, fp2, pos, i),
        forall|i: int| 0 <= i < n - 1 ==> #[trigger] segment_at(r, wps, fp2, pos, segs, i),
{
    assert forall|i: int| 0 <= i < n implies #[trigger] waypoint_at(wps, fp2, pos, i) by {
        assert(waypoint_at(wps, fp, pos, i));
        let k = pos[i];
        assert(0 <= k <= limit);
        assert(fp.take(limit + 1)[k] == fp[k]);
        assert(fp2.take(limit + 1)[k] == fp2[k]);
    }
    assert forall|i: int| 0 <= i < n - 1 implies #[trigger] segment_at(r, wps, fp2, pos, segs, i) by {
        assert(segment_at(r, wps, fp, pos, segs, i));
        let lo = pos[i];
        let hi = pos[i + 1];
        assert(lo <= limit && hi <= limit);
        let a = wps[i];
        let b = wps[i + 1];
        if a is Snapped && b is Snapped && reachable(r.arcs(), a->Snapped_0.0, b->Snapped_0.0) {
            assert(fp2.take(lo + 1) =~= fp.take(limit + 1).take(lo + 1));
            assert(fp.take(lo + 1) =~= fp.take(limit + 1).take(lo + 1));
            assert(fp2.subrange(lo, hi + 1) =~= fp.take(limit + 1).subrange(lo, hi + 1));
            assert(fp.subrange(lo, hi + 1) =~= fp.take(limit + 1).subrange(lo, hi + 1));
        }
    }
}


/// `fp` with `e` appended, unless `e` is already its last entry.
pub open spec fn with_entry(fp: Seq<PathEntry>, e: PathEntry) -> Seq<PathEntry> {
    if fp.len() > 0 && fp.last() == e {
        fp
    } else {
        fp.push(e)
    }
}

fn push_unless_last(fp: &mut Vec<PathEntry>, e: PathEntry)
    ensures
        final(fp)@ == with_entry(old(fp)@, e),
{
    let n = fp.len();
    if n == 0 || fp[n - 1] != e {
        fp.push(e);
    }
}

proof fn lemma_push_pos(
    r: Router,
    wps: Seq<Waypoint>,
    fp: Seq<PathEntry>,
    pos: Seq<int>,
    segs: Seq<Seq<u32>>,
    m: int,
    x: int,
    y: Seq<u32>,
)
    requires
        pos.len() == m,
        segs.len() + 1 == m,
        forall|i: int| 0 <= i < m ==> #[trigger] waypoint_at(wps, fp, pos, i),
        forall|i: int| 0 <= i < m - 1 ==> #[trigger] segment_at(r, wps, fp, pos, segs, i),
    ensures
        forall|i: int| 0 <= i < m ==> #[trigger] waypoint_at(wps, fp, pos.push(x), i),
        forall|i: int| 0 <= i < m - 1 ==> #[trigger] segment_at(r, wps, fp, pos.push(x), segs.push(y), i),
{
    assert forall|i: int| 0 <= i < m implies #[trigger] waypoint_at(wps, fp, pos.push(x), i) by {
        assert(waypoint_at(wps, fp, pos, i));
        assert(pos.push(x)[i] == pos[i]);
    }
    assert forall|i: int| 0 <= i < m - 1 implies #[trigger] segment_at(r, wps, fp, pos.push(x), segs.push(y), i) by {
        assert(segment_at(r, wps, fp, pos, segs, i));
        assert(pos.push(x)[i] == pos[i]);
        assert(pos.push(x)[i + 1] == pos[i + 1]);
        assert(segs.push(y)[i] == segs[i]);
    }
}

#[verifier::rlimit(60)]
proof fn lemma_step_routed(
    r: Router,
    wps: Seq<Waypoint>,
    i: int,
    fp: Seq<PathEntry>,
    pos: Seq<int>,
    segs: Seq<Seq<u32>>,
    p: Seq<u32>,
)
    requires
        expands_prefix(r, wps, i + 1, fp, pos, segs),
        i + 1 < wps.len(),
        wps[i] is Snapped,
        wps[i + 1] is Snapped,
        is_shortest_path(
            r.arcs(),
            edge_lengths(r.map.edges@),
            avoid_flags(r.config, fp, r.map.edges@.len()),
            p,
            wps[i]->Snapped_0.0,
            wps[i + 1]->Snapped_0.0,
        ),
    ensures
        ({
            let fp2 = fp.drop_last() + expand(r.arcs(), p);
            expands_prefix(r, wps, i + 2, fp2, pos.push(fp2.len() - 1), segs.push(p))
        }),
{
    let a = wps[i]->Snapped_0;
    let b = wps[i + 1]->Snapped_0;
    let e = expand(r.arcs(), p);
    lemma_shortest_is_path(
        r.arcs(),
        edge_lengths(r.map.edges@),
        avoid_flags(r.config, fp, r.map.edges@.len()),
        p,
        a.0,
        b.0,
    );
    assert(waypoint_at(wps, fp, pos, i));
    let fp2 = fp.drop_last() + e;
    let lo = fp.len() - 1;
    let hi = fp2.len() - 1;
    assert(e[0] == PathEntry::SnappedPoint(NodeID(p[0])));
    assert(fp2[lo] == e[0]);
    assert(fp2.take(lo + 1) =~= fp.take(lo + 1));
    assert(fp.take(lo + 1) =~= fp);
    assert forall|j: int| 0 <= j < i + 1 implies pos[j] <= lo by {
        assert(waypoint_at(wps, fp, pos, j));
    }
    lemma_frame(r, wps, fp, fp2, pos, segs, i + 1, lo);
    lemma_push_pos(r, wps, fp2, pos, segs, i + 1, hi, p);
    let pos2 = pos.push(hi);
    let segs2 = segs.push(p);
    assert(e[e.len() - 1] == PathEntry::SnappedPoint(NodeID(p[p.len() - 1])));
    assert(fp2[hi] == e[e.len() - 1]);
    assert(waypoint_at(wps, fp2, pos2, i + 1));
    assert(reachable(r.arcs(), a.0, b.0));
    assert(fp2.subrange(lo, hi + 1) =~= e);
    assert(fp2.take(lo + 1) =~= fp);
    assert(segment_at(r, wps, fp2, pos2, segs2, i));
    assert forall|j: int| 0 <= j < i + 2 implies #[trigger] waypoint_at(wps, fp2, pos2, j) by {
        if j < i + 1 {
            assert(waypoint_at(wps, fp2, pos2, j));
        }
    }
    assert forall|j: int| 0 <= j < i + 1 implies #[trigger] segment_at(r, wps, fp2, pos2, segs2, j) by {
        if j < i {
            assert(segment_at(r, wps, fp2, pos2, segs2, j));
        }
    }
}

proof fn lemma_step_straight(
    r: Router,
    wps: Seq<Waypoint>,
    i: int,
    fp: Seq<PathEntry>,
    pos: Seq<int>,
    segs: Seq<Seq<u32>>,
)
    requires
        expands_prefix(r, wps, i + 1, fp, pos, segs),
        i + 1 < wps.len(),
        !(wps[i] is Snapped && wps[i + 1] is Snapped && reachable(
            r.arcs(),
            wps[i]->Snapped_0.0,
            wps[i + 1]->Snapped_0.0,
        )),
    ensures
        ({
            let fp2 = with_entry(fp, entry_of(wps[i + 1]));
            expands_prefix(r, wps, i + 2, fp2, pos.push(fp2.len() - 1), segs.push(Seq::empty()))
        }),
{
    let e2 = entry_of(wps[i + 1]);
    let fpv = with_entry(fp, e2);
    let lo = fp.len() - 1;
    let hi = fpv.len() - 1;
    assert(waypoint_at(wps, fp, pos, i));
    assert forall|j: int| 0 <= j < i + 1 implies pos[j] <= lo by {
        assert(waypoint_at(wps, fp, pos, j));
    }
    if fpv != fp {
        assert(fpv.take(lo + 1) =~= fp.take(lo + 1));
        lemma_frame(r, wps, fp, fpv, pos, segs, i + 1, lo);
    }
    lemma_push_pos(r, wps, fpv, pos, segs, i + 1, hi, Seq::empty());
    let pos2 = pos.push(hi);
    let segs2 = segs.push(Seq::empty());
    assert(waypoint_at(wps, fpv, pos2, i + 1));
    assert(segment_at(r, wps, fpv, pos2, segs2, i));
}

/// The first index at or after `i` that holds `w`.
pub open spec fn find_waypoint(wps: Seq<Waypoint>, w: Waypoint, i: int) -> Option<int>
    decreases wps.len() - i,
{
    if i < 0 || i >= wps.len() {
        None
    } else if wps[i] == w {
        Some(i)
    } else {
        find_waypoint(wps, w, i + 1)
    }
}

/// The first index at or after `i` whose waypoint has the entry `e`.
pub open spec fn find_entry(wps: Seq<Waypoint>, e: PathEntry, i: int) -> Option<int>
    decreases wps.len() - i,
{
    if i < 0 || i >= wps.len() {
        None
    } else if entry_of(wps[i]) == e {
        Some(i)
    } else {
        find_entry(wps, e, i + 1)
    }
}

/// Whether the route is a closed area: at least two waypoints, the first equal
/// to the last.
pub open spec fn is_closed(wps: Seq<Waypoint>) -> bool {
    wps.len() >= 2 && wps[0] == wps.last()
}

/// Where a waypoint dragged from the middle of a computed path goes: scanning
/// the full path from `k`, before the first waypoint met, or before the last
/// waypoint once a closed area's scan reaches the end.
pub open spec fn insert_target(wps: Seq<Waypoint>, fp: Seq<PathEntry>, k: int, closed: bool) -> Option<
    int,
>
    decreases fp.len() - k,
{
    if k < 0 || k >= fp.len() {
        None
    } else if closed && k == fp.len() - 1 {
        Some(wps.len() - 1)
    } else if find_entry(wps, fp[k], 0) is Some {
        find_entry(wps, fp[k], 0)
    } else {
        insert_target(wps, fp, k + 1, closed)
    }
}

/// The waypoints after the point at `full_idx` of the full path is moved to
/// `new_w`: a lone waypoint is replaced; an existing waypoint is replaced in
/// place (both ends of a closed area when it is the first); a node in the
/// middle of a computed path becomes a new waypoint before the next one.
pub open spec fn moved_waypoints(
    wps: Seq<Waypoint>,
    fp: Seq<PathEntry>,
    full_idx: int,
    new_w: Waypoint,
) -> Seq<Waypoint> {
    if wps.len() == 1 {
        seq![new_w]
    } else {
        let old_w = waypoint_of(fp[full_idx])->Some_0;
        match find_waypoint(wps, old_w, 0) {
            Some(i) => if is_closed(wps) && i == 0 {
                wps.update(0, new_w).update(wps.len() - 1, new_w)
            } else {
                wps.update(i, new_w)
            },
            None => match insert_target(wps, fp, full_idx, is_closed(wps)) {
                Some(t) => wps.insert(t, new_w),
                None => wps,
            },
        }
    }
}

proof fn lemma_find_entry_range(wps: Seq<Waypoint>, e: PathEntry, i: int)
    ensures
        find_entry(wps, e, i) matches Some(j) ==> i <= j < wps.len() && entry_of(wps[j]) == e,
    decreases wps.len() - i,
{
    if 0 <= i < wps.len() && entry_of(wps[i]) != e {
        lemma_find_entry_range(wps, e, i + 1);
    }
}

proof fn lemma_find_entry_found(wps: Seq<Waypoint>, e: PathEntry, i: int, j: int)
    requires
        0 <= i <= j < wps.len(),
        entry_of(wps[j]) == e,
    ensures
        find_entry(wps, e, i) is Some,
    decreases j - i,
{
    if entry_of(wps[i]) != e {
        lemma_find_entry_found(wps, e, i + 1, j);
    }
}

pub proof fn lemma_find_waypoint_range(wps: Seq<Waypoint>, w: Waypoint, i: int)
    ensures
        find_waypoint(wps, w, i) matches Some(j) ==> i <= j < wps.len() && wps[j] == w,
    decreases wps.len() - i,
{
    if 0 <= i < wps.len() && wps[i] != w {
        lemma_find_waypoint_range(wps, w, i + 1);
    }
}

proof fn lemma_insert_target_found(wps: Seq<Waypoint>, fp: Seq<PathEntry>, k: int, closed: bool)
    requires
        wps.len() >= 1,
        0 <= k < fp.len(),
        fp.last() == entry_of(wps.last()),
    ensures
        insert_target(wps, fp, k, closed) matches Some(t) && 0 <= t < wps.len(),
    decreases fp.len() - k,
{
    lemma_find_entry_range(wps, fp[k], 0);
    if closed && k == fp.len() - 1 {
    } else if find_entry(wps, fp[k], 0) is Some {
    } else if k == fp.len() - 1 {
        lemma_find_entry_found(wps, fp[k], 0, wps.len() - 1);
    } else {
        lemma_insert_target_found(wps, fp, k + 1, closed);
    }
}

pub proof fn lemma_insert_target_range(wps: Seq<Waypoint>, fp: Seq<PathEntry>, k: int, closed: bool)
    requires
        wps.len() >= 1,
    ensures
        insert_target(wps, fp, k, closed) matches Some(t) ==> 0 <= t < wps.len(),
    decreases fp.len() - k,
{
    if 0 <= k < fp.len() {
        lemma_find_entry_range(wps, fp[k], 0);
        lemma_insert_target_range(wps, fp, k + 1, closed);
    }
}

/// Dragging the first waypoint of a closed area keeps the area closed.
pub proof fn lemma_drag_first_keeps_closed(
    wps: Seq<Waypoint>,
    fp: Seq<PathEntry>,
    full_idx: int,
    new_w: Waypoint,
)
    requires
        is_closed(wps),
        0 <= full_idx < fp.len(),
        fp[full_idx] == entry_of(wps[0]),
    ensures
        is_closed(moved_waypoints(wps, fp, full_idx, new_w)),
        moved_waypoints(wps, fp, full_idx, new_w)[0] == new_w,
{
    assert(waypoint_of(fp[full_idx])->Some_0 == wps[0]);
}

pub fn find_waypoint_index(wps: &Vec<Waypoint>, w: Waypoint) -> (r: Option<usize>)
    ensures
        r matches Some(i) ==> find_waypoint(wps@, w, 0) == Some(i as int),
        r is None ==> find_waypoint(wps@, w, 0) is None,
{
    let n = wps.len();
    let mut i: usize = 0;
    while i < n
        invariant
            n == wps@.len(),
            0 <= i <= n,
            find_waypoint(wps@, w, 0) == find_waypoint(wps@, w, i as int),
        decreases n - i,
    {
        if wps[i] == w {
            return Some(i);
        }
        i += 1;
    }
    None
}

fn find_entry_index(wps: &Vec<Waypoint>, e: PathEntry) -> (r: Option<usize>)
    ensures
        r matches Some(i) ==> find_entry(wps@, e, 0) == Some(i as int),
        r is None ==> find_entry(wps@, e, 0) is None,
{
    let n = wps.len();
    let mut i: usize = 0;
    while i < n
        invariant
            n == wps@.len(),
            0 <= i <= n,
            find_entry(wps@, e, 0) == find_entry(wps@, e, i as int),
        decreases n - i,
    {
        if wps[i].to_path_entry() == e {
            return Some(i);
        }
        i += 1;
    }
    None
}

fn scan_insert_target(wps: &Vec<Waypoint>, fp: &Vec<PathEntry>, from: usize, closed: bool) -> (r:
    Option<usize>)
    requires
        wps@.len() >= 1,
        from <= fp@.len(),
    ensures
        r matches Some(t) ==> insert_target(wps@, fp@, from as int, closed) == Some(t as int),
        r is None ==> insert_target(wps@, fp@, from as int, closed) is None,
{
    let n = wps.len();
    let fp_len = fp.len();
    let mut k: usize = from;
    while k < fp_len
        invariant
            n == wps@.len(),
            n >= 1,
            fp_len == fp@.len(),
            from <= k <= fp_len,
            insert_target(wps@, fp@, from as int, closed) == insert_target(wps@, fp@, k as int, closed),
        decreases fp_len - k,
    {
        if closed && k == fp_len - 1 {
            return Some(n - 1);
        }
        match find_entry_index(wps, fp[k]) {
            Some(i) => {
                return Some(i);
            },
            None => {},
        }
        k += 1;
    }
    None
}

impl Route {
    pub fn new() -> (r: Route)
        ensures
            r.waypoints@.len() == 0,
            r.full_path@.len() == 0,
    {
        Route { waypoints: Vec::new(), full_path: Vec::new() }
    }

    /// The full path is the one that the waypoints expand to.
    pub open spec fn wf(&self, r: Router) -> bool {
        full_path_of(r, self.waypoints@, self.full_path@)
    }

    pub fn is_closed_area(&self) -> (r: bool)
        ensures
            r == is_closed(self.waypoints@),
    {
        let n = self.waypoints.len();
        n >= 2 && self.waypoints[0] == self.waypoints[n - 1]
    }

    /// Appends a waypoint. The first waypoint leaves the full path empty;
    /// later ones rebuild it.
    pub fn add_waypoint(&mut self, router: &Router, waypt: Waypoint)
        requires
            router.wf(),
            old(self).wf(*router),
        ensures
            final(self).waypoints@ == old(self).waypoints@.push(waypt),
            final(self).wf(*router),
            old(self).waypoints@.len() == 0 ==> final(self).full_path@.len() == 0,
            old(self).waypoints@.len() > 0 ==> expands(
                *router,
                final(self).waypoints@,
                final(self).full_path@,
            ),
    {
        if self.waypoints.len() == 0 {
            self.waypoints.push(waypt);
        } else {
            self.waypoints.push(waypt);
            self.recalculate_full_path(router);
        }
    }

    /// Moves the point at `full_idx` of the full path to `new_waypt` (see
    /// `moved_waypoints`), rebuilds the full path and returns the first index
    /// of the new waypoint's entry in it. With one waypoint the full path is
    /// left empty and the result is 0.
    pub fn move_waypoint(&mut self, router: &Router, full_idx: usize, new_waypt: Waypoint) -> (r:
        usize)
        requires
            router.wf(),
            old(self).wf(*router),
            old(self).waypoints@.len() >= 1,
            old(self).waypoints@.len() == 1 || (full_idx < old(self).full_path@.len()
                && !(old(self).full_path@[full_idx as int] is Edge)),
        ensures
            final(self).waypoints@ == moved_waypoints(
                old(self).waypoints@,
                old(self).full_path@,
                full_idx as int,
                new_waypt,
            ),
            final(self).wf(*router),
            old(self).waypoints@.len() == 1 ==> r == 0 && final(self).full_path@.len() == 0,
            old(self).waypoints@.len() > 1 ==> {
                &&& r < final(self).full_path@.len()
                &&& final(self).full_path@[r as int] == entry_of(new_waypt)
                &&& forall|k: int| 0 <= k < r ==> final(self).full_path@[k] != entry_of(new_waypt)
            },
    {
        let n = self.waypoints.len();
        if n == 1 {
            self.waypoints = vec![new_waypt];
            self.full_path.clear();
            proof {
                assert(self.waypoints@ =~= seq![new_waypt]);
            }
            return 0;
        }
        let ghost wps = self.waypoints@;
        let ghost fp = self.full_path@;
        proof {
            let (pos, segs) = choose|pos: Seq<int>, segs: Seq<Seq<u32>>|
                expands_prefix(*router, wps, wps.len() as int, fp, pos, segs);
            assert(waypoint_at(wps, fp, pos, n - 1));
        }
        let old_waypt = self.full_path[full_idx].to_waypt().unwrap();
        let closed = self.is_closed_area();
        let ghost new_index: int;
        match find_waypoint_index(&self.waypoints, old_waypt) {
            Some(way_idx) => {
                proof {
                    lemma_find_waypoint_range(wps, old_waypt, 0);
                }
                if closed && way_idx == 0 {
                    self.waypoints.set(0, new_waypt);
                    self.waypoints.set(n - 1, new_waypt);
                } else {
                    self.waypoints.set(way_idx, new_waypt);
                }
                proof {
                    new_index = way_idx as int;
                }
            },
            None => {
                let target = scan_insert_target(&self.waypoints, &self.full_path, full_idx, closed);
                proof {
                    lemma_insert_target_found(wps, fp, full_idx as int, closed);
                    if let Some(t) = insert_target(wps, fp, full_idx as int, closed) {
                        new_index = t;
                    } else {
                        new_index = 0;
                    }
                }
                if let Some(t) = target {
                    self.waypoints.insert(t, new_waypt);
                }
            },
        }
        proof {
            assert(self.waypoints@ == moved_waypoints(wps, fp, full_idx as int, new_waypt));
            assert(0 <= new_index < self.waypoints@.len());
            assert(self.waypoints@[new_index] == new_waypt);
        }
        self.recalculate_full_path(router);
        let m = self.full_path.len();
        let target = new_waypt.to_path_entry();
        let mut k: usize = 0;
        while k < m
            invariant
                m == self.full_path@.len(),
                0 <= k <= m,
                target == entry_of(new_waypt),
                n > 1,
                n == old(self).waypoints@.len(),
                router.wf(),
                wps == old(self).waypoints@,
                fp == old(self).full_path@,
                self.waypoints@ == moved_waypoints(wps, fp, full_idx as int, new_waypt),
                self.waypoints@.len() > 0 ==> expands(*router, self.waypoints@, self.full_path@),
                self.wf(*router),
                0 <= new_index < self.waypoints@.len(),
                self.waypoints@[new_index] == new_waypt,
                forall|j: int| 0 <= j < k ==> self.full_path@[j] != target,
            decreases m - k,
        {
            if self.full_path[k] == target {
                return k;
            }
            k += 1;
        }
        proof {
            let w2 = self.waypoints@;
            let fp2 = self.full_path@;
            let (pos, segs) = choose|pos: Seq<int>, segs: Seq<Seq<u32>>|
                expands_prefix(*router, w2, w2.len() as int, fp2, pos, segs);
            assert(waypoint_at(w2, fp2, pos, new_index));
            assert(fp2[pos[new_index]] == target);
        }
        0
    }

    /// Rebuilds the full path from the waypoints: each waypoint's entry in
    /// turn, with a cheapest path between two snapped neighbours that the graph
    /// joins (its weights taking in the path built so far), and a straight
    /// step between any others.
    pub fn recalculate_full_path(&mut self, router: &Router)
        requires
            router.wf(),
        ensures
            final(self).waypoints@ == old(self).waypoints@,
            final(self).waypoints@.len() == 0 ==> final(self).full_path@.len() == 0,
            final(self).waypoints@.len() > 0 ==> expands(
                *router,
                final(self).waypoints@,
                final(self).full_path@,
            ),
            final(self).wf(*router),
    {
        self.full_path.clear();
        let n = self.waypoints.len();
        if n == 0 {
            return;
        }
        let ghost wps = self.waypoints@;
        let ghost mut pos: Seq<int> = seq![0];
        let ghost mut segs: Seq<Seq<u32>> = Seq::empty();
        let mut i: usize = 0;
        proof {
            let fpv = with_entry(self.full_path@, entry_of(wps[0]));
            assert(waypoint_at(wps, fpv, pos, 0));
        }
        while i + 1 < n
            invariant
                router.wf(),
                wps == self.waypoints@,
                n == wps.len(),
                0 <= i < n,
                expands_prefix(
                    *router,
                    wps,
                    i + 1,
                    with_entry(self.full_path@, entry_of(wps[i as int])),
                    pos,
                    segs,
                ),
            decreases n - i,
        {
            let w = self.waypoints[i];
            let next = self.waypoints[i + 1];
            push_unless_last(&mut self.full_path, w.to_path_entry());
            let ghost fp = self.full_path@;
            let ghost lo = fp.len() - 1;
            let mut routed = false;
            if let (Waypoint::Snapped(a), Waypoint::Snapped(b)) = (w, next) {
                if let Some(mut entries) = router.pathfind(a, b, &self.full_path) {
                    let ghost p = choose|p: Seq<u32>|
                        {
                            &&& #[trigger] is_shortest_path(
                                router.arcs(),
                                edge_lengths(router.map.edges@),
                                avoid_flags(router.config, fp, router.map.edges@.len()),
                                p,
                                a.0,
                                b.0,
                            )
                            &&& entries@ == expand(router.arcs(), p)
                        };
                    self.full_path.pop();
                    self.full_path.append(&mut entries);
                    routed = true;
                    proof {
                        lemma_step_routed(*router, wps, i as int, fp, pos, segs, p);
                        assert(self.full_path@ =~= fp.drop_last() + expand(router.arcs(), p));
                        pos = pos.push(self.full_path@.len() - 1);
                        segs = segs.push(p);
                        assert(waypoint_at(wps, self.full_path@, pos, i + 1));
                        assert(with_entry(self.full_path@, entry_of(wps[i + 1])) == self.full_path@);
                    }
                }
            }
            if !routed {
                proof {
                    lemma_step_straight(*router, wps, i as int, fp, pos, segs);
                    pos = pos.push(with_entry(fp, entry_of(wps[i + 1])).len() - 1);
                    segs = segs.push(Seq::empty());
                }
            }
            i += 1;
        }
        push_unless_last(&mut self.full_path, self.waypoints[n - 1].to_path_entry());
    }
}


proof fn lemma_segment_order(
    r: Router,
    wps: Seq<Waypoint>,
    fp: Seq<PathEntry>,
    pos: Seq<int>,
    segs: Seq<Seq<u32>>,
    i: int,
)
    requires
        expands_prefix(r, wps, wps.len() as int, fp, pos, segs),
        0 <= i < wps.len() - 1,
    ensures
        pos[i] <= pos[i + 1],
{
    assert(segment_at(r, wps, fp, pos, segs, i));
    let a = wps[i];
    let b = wps[i + 1];
    if a is Snapped && b is Snapped && reachable(r.arcs(), a->Snapped_0.0, b->Snapped_0.0) {
    }
}

proof fn lemma_positions_ordered(
    r: Router,
    wps: Seq<Waypoint>,
    fp: Seq<PathEntry>,
    pos: Seq<int>,
    segs: Seq<Seq<u32>>,
    i: int,
    j: int,
)
    requires
        expands_prefix(r, wps, wps.len() as int, fp, pos, segs),
        0 <= i <= j < wps.len(),
    ensures
        pos[i] <= pos[j],
    decreases j - i,
{
    if i < j {
        lemma_segment_order(r, wps, fp, pos, segs, j - 1);
        lemma_positions_ordered(r, wps, fp, pos, segs, i, j - 1);
    }
}

pub proof fn lemma_expand_parity(arcs: Map<(u32, u32), (u32, bool)>, p: Seq<u32>, k: int)
    requires
        p.len() >= 1,
        0 <= k < 2 * p.len() - 1,
    ensures
        k % 2 == 0 ==> expand(arcs, p)[k] is SnappedPoint,
        k % 2 == 1 ==> expand(arcs, p)[k] is Edge,
{
}

/// Finds the segment that holds positions `j` and `j + 1`.
pub proof fn lemma_find_segment(
    r: Router,
    wps: Seq<Waypoint>,
    fp: Seq<PathEntry>,
    pos: Seq<int>,
    segs: Seq<Seq<u32>>,
    j: int,
    k: int,
) -> (i: int)
    requires
        expands_prefix(r, wps, wps.len() as int, fp, pos, segs),
        0 < k < wps.len(),
        0 <= j < pos[k],
    ensures
        0 <= i < k,
        pos[i] <= j < pos[i + 1],
    decreases k,
{
    if pos[k - 1] <= j {
        k - 1
    } else {
        lemma_find_segment(r, wps, fp, pos, segs, j, k - 1)
    }
}

/// Every waypoint's entry appears in the full path, in the order of the
/// waypoints (save for a lone waypoint that was just placed, whose full path
/// is still empty).
pub proof fn lemma_waypoints_in_order(r: Router, wps: Seq<Waypoint>, fp: Seq<PathEntry>)
    requires
        full_path_of(r, wps, fp),
        fp.len() > 0 || wps.len() != 1,
    ensures
        exists|pos: Seq<int>|
            {
                &&& pos.len() == wps.len()
                &&& forall|i: int|
                    0 <= i < wps.len() ==> 0 <= #[trigger] pos[i] < fp.len() && fp[pos[i]]
                        == entry_of(wps[i])
                &&& forall|i: int, j: int| 0 <= i <= j < wps.len() ==> pos[i] <= pos[j]
            },
{
    if wps.len() > 0 {
        let (pos, segs) = choose|pos: Seq<int>, segs: Seq<Seq<u32>>|
            expands_prefix(r, wps, wps.len() as int, fp, pos, segs);
        assert forall|i: int| 0 <= i < wps.len() implies 0 <= #[trigger] pos[i] < fp.len()
            && fp[pos[i]] == entry_of(wps[i]) by {
            assert(waypoint_at(wps, fp, pos, i));
        }
        assert forall|i: int, j: int| 0 <= i <= j < wps.len() implies pos[i] <= pos[j] by {
            lemma_positions_ordered(r, wps, fp, pos, segs, i, j);
        }
    } else {
        assert(Seq::<int>::empty().len() == wps.len());
    }
}

#[verifier::rlimit(100)]
proof fn lemma_no_repeat_at(
    r: Router,
    wps: Seq<Waypoint>,
    fp: Seq<PathEntry>,
    pos: Seq<int>,
    segs: Seq<Seq<u32>>,
    j: int,
)
    requires
        expands_prefix(r, wps, wps.len() as int, fp, pos, segs),
        0 <= j < fp.len() - 1,
    ensures
        !(fp[j] is SnappedPoint && fp[j] == fp[j + 1]),
{
    let n = wps.len() as int;
    if n == 1 {
        assert(pos[0] == 0 && pos[0] == fp.len() - 1);
    } else {
        let i = lemma_find_segment(r, wps, fp, pos, segs, j, n - 1);
        assert(segment_at(r, wps, fp, pos, segs, i));
        assert(waypoint_at(wps, fp, pos, i));
        assert(waypoint_at(wps, fp, pos, i + 1));
        let a = wps[i];
        let b = wps[i + 1];
        let lo = pos[i];
        let hi = pos[i + 1];
        if a is Snapped && b is Snapped && reachable(r.arcs(), a->Snapped_0.0, b->Snapped_0.0) {
            let e = expand(r.arcs(), segs[i]);
            lemma_shortest_is_path(
                r.arcs(),
                edge_lengths(r.map.edges@),
                avoid_flags(r.config, fp.take(lo + 1), r.map.edges@.len()),
                segs[i],
                a->Snapped_0.0,
                b->Snapped_0.0,
            );
            assert(fp.subrange(lo, hi + 1) == e);
            assert(e.len() == hi - lo + 1);
            assert(e.len() == 2 * segs[i].len() - 1);
            assert(fp[j] == fp.subrange(lo, hi + 1)[j - lo]);
            assert(fp[j + 1] == fp.subrange(lo, hi + 1)[j + 1 - lo]);
            lemma_expand_parity(r.arcs(), segs[i], j - lo);
            lemma_expand_parity(r.arcs(), segs[i], j + 1 - lo);
        } else {
            assert(j == lo);
            assert(fp[j + 1] == entry_of(b));
        }
    }
}

/// No two neighbouring entries of a full path are the same snapped point.
pub proof fn lemma_no_repeated_snapped_points(r: Router, wps: Seq<Waypoint>, fp: Seq<PathEntry>)
    requires
        full_path_of(r, wps, fp),
    ensures
        forall|j: int|
            0 <= j < fp.len() - 1 ==> !((#[trigger] fp[j]) is SnappedPoint && fp[j] == fp[j + 1]),
{
    if wps.len() > 0 && fp.len() > 0 {
        let (pos, segs) = choose|pos: Seq<int>, segs: Seq<Seq<u32>>|
            expands_prefix(r, wps, wps.len() as int, fp, pos, segs);
        assert forall|j: int| 0 <= j < fp.len() - 1 implies !((#[trigger] fp[j]) is SnappedPoint
            && fp[j] == fp[j + 1]) by {
            lemma_no_repeat_at(r, wps, fp, pos, segs, j);
        }
    }
}

/// Between two consecutive snapped waypoints that the graph joins, the full
/// path holds a path of the graph: their entries with the arcs and nodes
/// between them, `SnappedPoint, Edge, SnappedPoint, ..., Edge, SnappedPoint`.
pub proof fn lemma_snapped_pairs_follow_arcs(r: Router, wps: Seq<Waypoint>, fp: Seq<PathEntry>)
    requires
        full_path_of(r, wps, fp),
        wps.len() >= 2,
    ensures
        exists|pos: Seq<int>|
            {
                &&& pos.len() == wps.len()
                &&& forall|i: int|
                    0 <= i < wps.len() ==> 0 <= #[trigger] pos[i] < fp.len() && fp[pos[i]]
                        == entry_of(wps[i])
                &&& forall|i: int|
                    #![trigger wps[i], wps[i + 1]]
                    0 <= i < wps.len() - 1 && wps[i] is Snapped && wps[i + 1] is Snapped
                        && reachable(r.arcs(), wps[i]->Snapped_0.0, wps[i + 1]->Snapped_0.0)
                        ==> exists|p: Seq<u32>|
                        {
                            &&& is_path(r.arcs(), p, wps[i]->Snapped_0.0, wps[i + 1]->Snapped_0.0)
                            &&& #[trigger] fp.subrange(pos[i], pos[i + 1] + 1) == expand(r.arcs(), p)
                        }
            },
{
    let (pos, segs) = choose|pos: Seq<int>, segs: Seq<Seq<u32>>|
        expands_prefix(r, wps, wps.len() as int, fp, pos, segs);
    assert forall|i: int| 0 <= i < wps.len() implies 0 <= #[trigger] pos[i] < fp.len()
        && fp[pos[i]] == entry_of(wps[i]) by {
        assert(waypoint_at(wps, fp, pos, i));
    }
    assert forall|i: int|
        #![trigger wps[i], wps[i + 1]]
        0 <= i < wps.len() - 1 && wps[i] is Snapped && wps[i + 1] is Snapped && reachable(
            r.arcs(),
            wps[i]->Snapped_0.0,
            wps[i + 1]->Snapped_0.0,
        ) implies exists|p: Seq<u32>|
        {
            &&& is_path(r.arcs(), p, wps[i]->Snapped_0.0, wps[i + 1]->Snapped_0.0)
            &&& #[trigger] fp.subrange(pos[i], pos[i + 1] + 1) == expand(r.arcs(), p)
        } by {
        assert(segment_at(r, wps, fp, pos, segs, i));
        let lo = pos[i];
        lemma_shortest_is_path(
            r.arcs(),
            edge_lengths(r.map.edges@),
            avoid_flags(r.config, fp.take(lo + 1), r.map.edges@.len()),
            segs[i],
            wps[i]->Snapped_0.0,
            wps[i + 1]->Snapped_0.0,
        );
    }
}


/// Two consecutive snapped waypoints that the graph does not join stand next
/// to each other in the full path: the route runs straight between them.
pub proof fn lemma_disconnected_pair_adjacent(
    r: Router,
    wps: Seq<Waypoint>,
    fp: Seq<PathEntry>,
    i: int,
)
    requires
        full_path_of(r, wps, fp),
        0 <= i < wps.len() - 1,
        wps[i] is Snapped,
        wps[i + 1] is Snapped,
        wps[i] != wps[i + 1],
        !reachable(r.arcs(), wps[i]->Snapped_0.0, wps[i + 1]->Snapped_0.0),
    ensures
        exists|k: int|
            0 <= k < fp.len() - 1 && #[trigger] fp[k] == entry_of(wps[i]) && fp[k + 1] == entry_of(
                wps[i + 1],
            ),
{
    let (pos, segs) = choose|pos: Seq<int>, segs: Seq<Seq<u32>>|
        expands_prefix(r, wps, wps.len() as int, fp, pos, segs);
    assert(segment_at(r, wps, fp, pos, segs, i));
    assert(waypoint_at(wps, fp, pos, i));
    assert(waypoint_at(wps, fp, pos, i + 1));
    let k = pos[i];
    assert(fp[k] == entry_of(wps[i]));
}


/// A route whose first two waypoints are distinct snapped points that the
/// graph joins starts with the first waypoint and then an edge.
pub proof fn lemma_route_starts_with_edge(r: Router, wps: Seq<Waypoint>, fp: Seq<PathEntry>)
    requires
        full_path_of(r, wps, fp),
        wps.len() >= 2,
        wps[0] is Snapped,
        wps[1] is Snapped,
        wps[0] != wps[1],
        reachable(r.arcs(), wps[0]->Snapped_0.0, wps[1]->Snapped_0.0),
    ensures
        fp.len() >= 2,
        fp[0] == entry_of(wps[0]),
        fp[1] is Edge,
{
    let (pos, segs) = choose|pos: Seq<int>, segs: Seq<Seq<u32>>|
        expands_prefix(r, wps, wps.len() as int, fp, pos, segs);
    assert(segment_at(r, wps, fp, pos, segs, 0));
    assert(waypoint_at(wps, fp, pos, 0));
    let a = wps[0]->Snapped_0.0;
    let b = wps[1]->Snapped_0.0;
    let lo = pos[0];
    let hi = pos[1];
    let p = segs[0];
    lemma_shortest_is_path(
        r.arcs(),
        edge_lengths(r.map.edges@),
        avoid_flags(r.config, fp.take(lo + 1), r.map.edges@.len()),
        p,
        a,
        b,
    );
    assert(p.len() >= 2) by {
        if p.len() == 1 {
            assert(p[0] == a && p[0] == b);
            assert(wps[0] == Waypoint::Snapped(NodeID(a)));
            assert(wps[1] == Waypoint::Snapped(NodeID(b)));
        }
    }
    let e = expand(r.arcs(), p);
    assert(fp.subrange(lo, hi + 1) == e);
    assert(e.len() == hi - lo + 1);
    lemma_expand_parity(r.arcs(), p, 1);
    assert(fp[1] == e[1]);
}

} // verus!
