//! The interaction engine: a state machine over mouse moves, clicks, drags,
//! snapping toggles and undo, keeping the route consistent under every edit.
use vstd::prelude::*;

use crate::graph::{Coord, MapError, NodeID, RouteSnapperMap};
use crate::route::{
    entry_of, find_waypoint, find_waypoint_index, is_closed, lemma_find_waypoint_range,
    moved_waypoints, PathEntry,
    Route, Waypoint,
};
use crate::router::{Config, Router};
use crate::snap::{coord_dist2, is_nearest_node, NodeIndex};

verus! {

/// How many earlier waypoint lists `undo` can go back to.
pub const MAX_PREVIOUS_STATES: usize = 100;

/// What the pointer is doing.
#[derive(Clone, Copy, PartialEq, Eq, Structural, Debug)]
pub enum Mode {
    Neutral,
    /// Over a waypoint, a node of the route, or a node that could be added.
    Hovering(Waypoint),
    /// Dragging the point at `idx` of the full path, now at `at`.
    Dragging { idx: usize, at: Waypoint },
    /// About to add a free point here.
    Freehand(Coord),
}

/// A waypoint as recorded in a finished route, so that it can be edited
/// again: its position in micro-degrees and whether it was snapped.
#[derive(Clone, Copy, PartialEq, Eq, Structural, Debug)]
pub struct RouteWaypoint {
    pub lon: i32,
    pub lat: i32,
    pub snapped: bool,
}

/// Why an edit could not be made.
#[derive(Clone, Copy, PartialEq, Eq, Structural, Debug)]
pub enum SnapError {
    /// A snapped waypoint found no node to snap to.
    SnapFailed,
}

impl SnapError {
    /// A message for the host.
    pub fn message(&self) -> (r: String)
        ensures
            r@ == "A waypoint didn't snap"@,
    {
        "A waypoint didn't snap".to_string()
    }
}

/// Whether a snapped waypoint names an existing node.
pub open spec fn waypoint_valid(n_nodes: nat, w: Waypoint) -> bool {
    w matches Waypoint::Snapped(n) ==> n.0 < n_nodes
}

pub open spec fn all_valid(n_nodes: nat, wps: Seq<Waypoint>) -> bool {
    forall|i: int| 0 <= i < wps.len() ==> waypoint_valid(n_nodes, #[trigger] wps[i])
}

/// The history after a snapshot of `wps` is taken: pushed on top, the oldest
/// dropped beyond the capacity.
pub open spec fn snapshot_pushed(
    before: Seq<Seq<Waypoint>>,
    after: Seq<Seq<Waypoint>>,
    wps: Seq<Waypoint>,
) -> bool {
    if before.len() < MAX_PREVIOUS_STATES {
        after == before.push(wps)
    } else {
        after == before.push(wps).drop_first()
    }
}

/// The first free waypoint at or after `i` that the pointer is over.
pub open spec fn first_near_free(wps: Seq<Waypoint>, near: Seq<bool>, i: int) -> Option<int>
    decreases wps.len() - i,
{
    if i < 0 || i >= wps.len() {
        None
    } else if wps[i] is Free && i < near.len() && near[i] {
        Some(i)
    } else {
        first_near_free(wps, near, i + 1)
    }
}

/// `i` is the first index of `e` in `fp`.
pub open spec fn first_index_of(fp: Seq<PathEntry>, e: PathEntry, i: int) -> bool {
    &&& 0 <= i < fp.len()
    &&& fp[i] == e
    &&& forall|k: int| 0 <= k < i ==> fp[k] != e
}

/// Whether a waypoint is one that a click appends rather than one on the
/// route: its entry is not in the full path.
pub open spec fn is_new_point(fp: Seq<PathEntry>, w: Waypoint) -> bool {
    !fp.contains(entry_of(w))
}

/// The interactive snapper: the router, the spatial index, the route being
/// edited, the pointer's mode and the undo history.
pub struct JsRouteSnapper {
    pub router: Router,
    pub snap_to_nodes: NodeIndex,
    pub route: Route,
    pub mode: Mode,
    /// Whether new points snap to nodes (the default) or are placed freely.
    pub snap_mode: bool,
    /// Earlier waypoint lists, the latest last.
    pub previous_states: Vec<Vec<Waypoint>>,
}

/// The position of a recorded waypoint.
pub open spec fn record_coord(rec: RouteWaypoint) -> Coord {
    Coord { x: rec.lon, y: rec.lat }
}

/// Whether `w` restores the recorded waypoint `rec`: snapped to a node nearest
/// its position, or free at its position.
pub open spec fn restores(nodes: Seq<Coord>, rec: RouteWaypoint, w: Waypoint) -> bool {
    if rec.snapped {
        w is Snapped && is_nearest_node(nodes, record_coord(rec), w->Snapped_0)
    } else {
        w == Waypoint::Free(record_coord(rec))
    }
}

impl JsRouteSnapper {
    pub open spec fn nodes(&self) -> Seq<Coord> {
        self.router.map.nodes@
    }

    pub open spec fn wps(&self) -> Seq<Waypoint> {
        self.route.waypoints@
    }

    pub open spec fn fp(&self) -> Seq<PathEntry> {
        self.route.full_path@
    }

    /// The undo history as waypoint lists.
    pub open spec fn history(&self) -> Seq<Seq<Waypoint>> {
        self.previous_states@.map_values(|v: Vec<Waypoint>| v@)
    }

    pub open spec fn wf(&self) -> bool {
        &&& self.router.wf()
        &&& self.route.wf(self.router)
        &&& self.snap_to_nodes.indexes(self.nodes())
        &&& all_valid(self.nodes().len(), self.wps())
        &&& self.previous_states@.len() <= MAX_PREVIOUS_STATES
        &&& forall|i: int|
            0 <= i < self.previous_states@.len() ==> all_valid(
                self.nodes().len(),
                (#[trigger] self.previous_states@[i])@,
            )
        &&& match self.mode {
            Mode::Hovering(w) => waypoint_valid(self.nodes().len(), w),
            Mode::Dragging { idx, at } => waypoint_valid(self.nodes().len(), at) && self.wps().len()
                >= 1,
            _ => true,
        }
    }

    pub open spec fn spec_can_extend(&self) -> bool {
        self.wps().len() < 2 || self.router.config.extend_route
    }

    /// The mode once hovering over a point that cannot be added is dropped.
    pub open spec fn without_new_hover(&self, m: Mode) -> Mode {
        match m {
            Mode::Hovering(w) => if !self.spec_can_extend() && is_new_point(self.fp(), w) {
                Mode::Neutral
            } else {
                m
            },
            _ => m,
        }
    }

    /// Whether the point at `idx` of the full path can be moved.
    pub open spec fn drag_index_ok(&self, idx: usize) -> bool {
        self.wps().len() == 1 || (idx < self.fp().len() && !(self.fp()[idx as int] is Edge))
    }

    /// The position of a waypoint.
    pub open spec fn coord_of(&self, w: Waypoint) -> Coord {
        match w {
            Waypoint::Snapped(n) => self.nodes()[n.0 as int],
            Waypoint::Free(c) => c,
        }
    }

    /// Whether a click in the current mode deletes a waypoint of a route that
    /// is not a closed area.
    pub open spec fn click_deletes_from_line(&self) -> bool {
        &&& self.mode matches Mode::Hovering(h)
        &&& find_waypoint(self.wps(), h, 0) is Some
        &&& !is_closed(self.wps())
        &&& self.wps().len() > 1
    }

    /// The waypoints after a click, or `None` when the click changes nothing.
    /// A click in freehand mode appends a free point (not on areas). A click
    /// on a waypoint deletes it, keeping at least one waypoint, and on a
    /// closed area keeping three and the shared first and last. A click on a
    /// node in the middle of the route does nothing. Any other hovered point
    /// is appended, and an area gets closed once it has three waypoints.
    pub open spec fn click_result(&self) -> Option<Seq<Waypoint>> {
        let wps = self.wps();
        match self.mode {
            Mode::Freehand(pt) => if !self.router.config.area_mode {
                Some(wps.push(Waypoint::Free(pt)))
            } else {
                None
            },
            Mode::Hovering(h) => match find_waypoint(wps, h, 0) {
                Some(i) => if is_closed(wps) {
                    if wps.len() > 3 && i != 0 && i != wps.len() - 1 {
                        Some(wps.remove(i))
                    } else {
                        None
                    }
                } else if wps.len() > 1 {
                    Some(wps.remove(i))
                } else {
                    None
                },
                None => if self.fp().contains(entry_of(h)) {
                    None
                } else {
                    let w1 = wps.push(h);
                    if self.router.config.area_mode && !is_closed(w1) && w1.len() == 3 {
                        Some(w1.push(w1[0]))
                    } else {
                        Some(w1)
                    }
                },
            },
            _ => None,
        }
    }

    /// Whether `h` is what the pointer at `pt` is over: the first free
    /// waypoint within reach, else a nearest node (on a closed area, only one
    /// already on the route), else nothing.
    pub open spec fn hover_target_ok(&self, pt: Coord, near: Seq<bool>, h: Option<Waypoint>) -> bool {
        match first_near_free(self.wps(), near, 0) {
            Some(i) => h == Some(self.wps()[i]),
            None => match h {
                Some(w) => {
                    &&& w is Snapped
                    &&& is_nearest_node(self.nodes(), pt, w->Snapped_0)
                    &&& is_closed(self.wps()) ==> self.fp().contains(entry_of(w))
                },
                None => self.nodes().len() == 0 || (is_closed(self.wps()) && exists|n: NodeID|
                    #[trigger] is_nearest_node(self.nodes(), pt, n) && !self.fp().contains(
                        PathEntry::SnappedPoint(n),
                    )),
            },
        }
    }
}


proof fn lemma_moved_valid(
    n: nat,
    wps: Seq<Waypoint>,
    fp: Seq<PathEntry>,
    full_idx: int,
    new_w: Waypoint,
)
    requires
        all_valid(n, wps),
        waypoint_valid(n, new_w),
        wps.len() >= 1,
    ensures
        all_valid(n, moved_waypoints(wps, fp, full_idx, new_w)),
{
    crate::route::lemma_insert_target_range(wps, fp, full_idx, is_closed(wps));
    let m = moved_waypoints(wps, fp, full_idx, new_w);
    assert forall|i: int| 0 <= i < m.len() implies waypoint_valid(n, #[trigger] m[i]) by {
        if wps.len() != 1 {
            let old_w = crate::route::waypoint_of(fp[full_idx])->Some_0;
            lemma_find_waypoint_range(wps, old_w, 0);
            match find_waypoint(wps, old_w, 0) {
                Some(j) => {},
                None => match crate::route::insert_target(wps, fp, full_idx, is_closed(wps)) {
                    Some(t) => {
                        if i < t {
                            assert(m[i] == wps[i]);
                        } else if i > t {
                            assert(m[i] == wps[i - 1]);
                        }
                    },
                    None => {},
                },
            }
        }
    }
}

fn copy_waypoints(wps: &Vec<Waypoint>) -> (r: Vec<Waypoint>)
    ensures
        r@ == wps@,
{
    let mut r: Vec<Waypoint> = Vec::new();
    let n = wps.len();
    let mut i: usize = 0;
    while i < n
        invariant
            n == wps@.len(),
            0 <= i <= n,
            r@ == wps@.take(i as int),
        decreases n - i,
    {
        r.push(wps[i]);
        proof {
            assert(wps@.take(i + 1) =~= wps@.take(i as int).push(wps@[i as int]));
        }
        i += 1;
    }
    proof {
        assert(wps@.take(n as int) =~= wps@);
    }
    r
}

pub fn path_contains(fp: &Vec<PathEntry>, e: PathEntry) -> (r: bool)
    ensures
        r == fp@.contains(e),
{
    let n = fp.len();
    let mut i: usize = 0;
    while i < n
        invariant
            n == fp@.len(),
            0 <= i <= n,
            forall|j: int| 0 <= j < i ==> fp@[j] != e,
        decreases n - i,
    {
        if fp[i] == e {
            return true;
        }
        i += 1;
    }
    false
}

impl JsRouteSnapper {
    /// Loads a map: checks it, fills in edge costs and builds the directed
    /// graph and the spatial index. Starts with no route, snapping on, and
    /// every option off.
    pub fn new(map: RouteSnapperMap) -> (r: Result<JsRouteSnapper, MapError>)
        ensures
            r matches Ok(s) ==> {
                &&& s.wf()
                &&& s.wps().len() == 0
                &&& s.mode == Mode::Neutral
                &&& s.snap_mode
                &&& s.previous_states@.len() == 0
                &&& s.router.config == Config::new_spec()
                &&& s.nodes() == map.nodes@
                &&& s.router.map.override_forward_costs@ == map.override_forward_costs@
                &&& s.router.map.override_backward_costs@ == map.override_backward_costs@
                &&& s.router.map.edges@.len() == map.edges@.len()
                &&& forall|i: int|
                    0 <= i < map.edges@.len() ==> {
                        let e = #[trigger] s.router.map.edges@[i];
                        let o = map.edges@[i];
                        &&& e.node1 == o.node1
                        &&& e.node2 == o.node2
                        &&& e.geometry@ == o.geometry@
                        &&& e.name == o.name
                        &&& e.length_mm == o.length_mm
                        &&& e.forward_cost == crate::graph::spec_direction_cost(
                            map.override_forward_costs@,
                            i,
                            o.length_mm,
                        )
                        &&& e.backward_cost == crate::graph::spec_direction_cost(
                            map.override_backward_costs@,
                            i,
                            o.length_mm,
                        )
                    }
            },
            r is Ok <==> {
                &&& crate::graph::edges_in_bounds(map.nodes@.len(), map.edges@)
                &&& map.nodes@.len() <= u32::MAX + 1
                &&& (map.override_forward_costs@.len() == 0 || map.override_forward_costs@.len()
                    == map.edges@.len())
                &&& (map.override_backward_costs@.len() == 0 || map.override_backward_costs@.len()
                    == map.edges@.len())
            },
            r matches Err(e) ==> e == MapError::BadBlob || e == MapError::LengthMismatch,
            r == Err::<JsRouteSnapper, MapError>(MapError::LengthMismatch) <==> {
                &&& crate::graph::edges_in_bounds(map.nodes@.len(), map.edges@)
                &&& map.nodes@.len() <= u32::MAX + 1
                &&& (!(map.override_forward_costs@.len() == 0 || map.override_forward_costs@.len()
                    == map.edges@.len()) || !(map.override_backward_costs@.len() == 0
                    || map.override_backward_costs@.len() == map.edges@.len()))
            },
    {
        let mut loaded = map;
        match loaded.finalize() {
            Ok(()) => {},
            Err(e) => {
                return Err(e);
            },
        }
        let router = Router::new(loaded, Config::new());
        let snap_to_nodes = NodeIndex::new(&router.map.nodes);
        let route = Route::new();
        Ok(JsRouteSnapper {
            router,
            snap_to_nodes,
            route,
            mode: Mode::Neutral,
            snap_mode: true,
            previous_states: Vec::new(),
        })
    }

    /// Whether more waypoints may be appended: fewer than two so far, or the
    /// configuration allows extending.
    pub fn can_extend_route(&self) -> (r: bool)
        ensures
            r == self.spec_can_extend(),
    {
        self.route.waypoints.len() < 2 || self.router.config.extend_route
    }

    /// A node nearest to `pt`; `None` only when the map has no nodes.
    pub fn mouseover_node(&self, pt: Coord) -> (r: Option<NodeID>)
        requires
            self.wf(),
        ensures
            r matches Some(n) ==> is_nearest_node(self.nodes(), pt, n),
            r is None ==> self.nodes().len() == 0,
    {
        self.snap_to_nodes.nearest(&self.router.map.nodes, pt)
    }

    /// What the pointer at `pt` is over: the first free waypoint within reach
    /// (`near[i]` says whether waypoint `i` is), else a nearest node, except
    /// that a closed area only offers nodes already on its route.
    pub fn mouseover_something(&self, pt: Coord, near: &Vec<bool>) -> (r: Option<Waypoint>)
        requires
            self.wf(),
        ensures
            self.hover_target_ok(pt, near@, r),
            r matches Some(w) ==> waypoint_valid(self.nodes().len(), w),
    {
        let n = self.route.waypoints.len();
        let mut i: usize = 0;
        while i < n
            invariant
                n == self.wps().len(),
                0 <= i <= n,
                first_near_free(self.wps(), near@, 0) == first_near_free(self.wps(), near@, i as int),
            decreases n - i,
        {
            let w = self.route.waypoints[i];
            if let Waypoint::Free(_) = w {
                if i < near.len() && near[i] {
                    return Some(w);
                }
            }
            i += 1;
        }
        let node = match self.mouseover_node(pt) {
            Some(node) => node,
            None => {
                return None;
            },
        };
        if self.route.is_closed_area() && !path_contains(
            &self.route.full_path,
            PathEntry::SnappedPoint(node),
        ) {
            proof {
                assert(is_nearest_node(self.nodes(), pt, node));
            }
            return None;
        }
        Some(Waypoint::Snapped(node))
    }

    /// Follows the pointer to `pt`; `near[i]` says whether the pointer is
    /// within reach of waypoint `i`. Returns whether anything changed.
    pub fn on_mouse_move(&mut self, pt: Coord, near: &Vec<bool>) -> (r: bool)
        requires
            old(self).wf(),
        ensures
            final(self).wf(),
            final(self).router == old(self).router,
            final(self).snap_to_nodes == old(self).snap_to_nodes,
            final(self).snap_mode == old(self).snap_mode,
            final(self).previous_states == old(self).previous_states,
            !old(self).spec_can_extend() && !(old(self).mode is Dragging) ==> !(final(self).mode is Freehand),
            if old(self).spec_can_extend() && !old(self).snap_mode && !(old(self).mode is Dragging) {
                &&& r
                &&& final(self).mode == Mode::Freehand(pt)
                &&& final(self).route == old(self).route
            } else {
                match old(self).mode {
                    Mode::Dragging { idx, at } => {
                        &&& r ==> exists|w2: Waypoint|
                            {
                                &&& #[trigger] waypoint_valid(old(self).nodes().len(), w2)
                                &&& w2 != at
                                &&& at is Free ==> w2 == Waypoint::Free(pt)
                                &&& at is Snapped ==> w2 is Snapped && is_nearest_node(
                                    old(self).nodes(),
                                    pt,
                                    w2->Snapped_0,
                                )
                                &&& final(self).wps() == moved_waypoints(
                                    old(self).wps(),
                                    old(self).fp(),
                                    idx as int,
                                    w2,
                                )
                                &&& final(self).mode matches Mode::Dragging { idx: i2, at: a2 }
                                    && a2 == w2 && (old(self).wps().len() == 1 ==> i2 == 0) && (
                                old(self).wps().len() > 1 ==> first_index_of(
                                    final(self).fp(),
                                    entry_of(w2),
                                    i2 as int,
                                ))
                            }
                        &&& !r ==> final(self).route == old(self).route && final(self).mode == old(self).mode
                        &&& !r ==> !old(self).drag_index_ok(idx) || (at is Free && at
                            == Waypoint::Free(pt)) || (at is Snapped && (old(self).nodes().len()
                            == 0 || is_nearest_node(old(self).nodes(), pt, at->Snapped_0)))
                    },
                    Mode::Hovering(_) => {
                        &&& r
                        &&& final(self).route == old(self).route
                        &&& exists|h: Option<Waypoint>|
                            {
                                &&& #[trigger] old(self).hover_target_ok(pt, near@, h)
                                &&& final(self).mode == old(self).without_new_hover(
                                    match h {
                                        Some(w) => Mode::Hovering(w),
                                        None => Mode::Neutral,
                                    },
                                )
                            }
                    },
                    _ => {
                        &&& final(self).route == old(self).route
                        &&& exists|h: Option<Waypoint>|
                            {
                                &&& #[trigger] old(self).hover_target_ok(pt, near@, h)
                                &&& match h {
                                    Some(w) => r && final(self).mode == old(self).without_new_hover(
                                        Mode::Hovering(w),
                                    ),
                                    None => if old(self).spec_can_extend() {
                                        !r && final(self).mode == old(self).mode
                                    } else {
                                        r == !(old(self).mode is Neutral) && final(self).mode
                                            == Mode::Neutral
                                    },
                                }
                            }
                    },
                }
            },
    {
        if self.can_extend_route() && !self.snap_mode && !matches!(self.mode, Mode::Dragging { .. }) {
            self.mode = Mode::Freehand(pt);
            return true;
        }
        let mut changed = false;
        match self.mode {
            Mode::Neutral | Mode::Freehand(_) => {
                let h = self.mouseover_something(pt, near);
                if let Some(waypt) = h {
                    self.mode = Mode::Hovering(waypt);
                    changed = true;
                } else if !self.can_extend_route() {
                    // Nothing to hover and nothing may be appended.
                    changed = !matches!(self.mode, Mode::Neutral);
                    self.mode = Mode::Neutral;
                }
                let ghost mid = *self;
                self.dont_hover_new_points();
                proof {
                    assert(mid.without_new_hover(mid.mode) == old(self).without_new_hover(mid.mode));
                    assert(old(self).hover_target_ok(pt, near@, h));
                    if h is None && old(self).spec_can_extend() {
                        assert(mid.mode == old(self).mode);
                        assert(old(self).mode is Neutral || old(self).mode is Freehand);
                    }
                }
            },
            Mode::Hovering(_) => {
                let h = self.mouseover_something(pt, near);
                if let Some(waypt) = h {
                    self.mode = Mode::Hovering(waypt);
                } else {
                    self.mode = Mode::Neutral;
                }
                changed = true;
                let ghost mid = *self;
                self.dont_hover_new_points();
                proof {
                    assert(mid.without_new_hover(mid.mode) == old(self).without_new_hover(mid.mode));
                    assert(old(self).hover_target_ok(pt, near@, h));
                }
            },
            Mode::Dragging { idx, at } => {
                let new_waypt = match at {
                    Waypoint::Snapped(_) => match self.mouseover_node(pt) {
                        Some(node) => Some(Waypoint::Snapped(node)),
                        None => None,
                    },
                    Waypoint::Free(_) => Some(Waypoint::Free(pt)),
                };
                if let Some(new_waypt) = new_waypt {
                    if new_waypt != at && self.drag_index_valid(idx) {
                        proof {
                            lemma_moved_valid(
                                self.nodes().len(),
                                self.wps(),
                                self.fp(),
                                idx as int,
                                new_waypt,
                            );
                        }
                        let new_idx = self.route.move_waypoint(&self.router, idx, new_waypt);
                        self.mode = Mode::Dragging { idx: new_idx, at: new_waypt };
                        changed = true;
                        proof {
                            assert(waypoint_valid(old(self).nodes().len(), new_waypt));
                        }
                    }
                }
            },
        }
        changed
    }

    /// Acts on a click; see `click_result` for what becomes of the
    /// waypoints. A change records the previous waypoints for `undo`.
    pub fn on_click(&mut self)
        requires
            old(self).wf(),
        ensures
            final(self).wf(),
            final(self).router == old(self).router,
            final(self).snap_to_nodes == old(self).snap_to_nodes,
            final(self).snap_mode == old(self).snap_mode,
            match old(self).click_result() {
                Some(w) => {
                    &&& final(self).wps() == w
                    &&& snapshot_pushed(old(self).history(), final(self).history(), old(self).wps())
                },
                None => {
                    &&& final(self).route == old(self).route
                    &&& final(self).previous_states == old(self).previous_states
                },
            },
            final(self).mode == if old(self).click_deletes_from_line() {
                final(self).without_new_hover(old(self).mode)
            } else {
                old(self).mode
            },
    {
        if !self.router.config.area_mode {
            if let Mode::Freehand(pt) = self.mode {
                self.before_update();
                self.route.add_waypoint(&self.router, Waypoint::Free(pt));
                proof {
                    assert(all_valid(self.nodes().len(), self.wps()));
                }
                return;
            }
        }
        if let Mode::Hovering(hover) = self.mode {
            proof {
                lemma_find_waypoint_range(self.wps(), hover, 0);
            }
            match find_waypoint_index(&self.route.waypoints, hover) {
                Some(idx) => {
                    let n = self.route.waypoints.len();
                    if self.route.is_closed_area() {
                        if n > 3 && idx != 0 && idx != n - 1 {
                            self.before_update();
                            self.route.waypoints.remove(idx);
                            self.route.recalculate_full_path(&self.router);
                            proof {
                                assert(all_valid(self.nodes().len(), self.wps())) by {
                                    assert forall|i: int| 0 <= i < self.wps().len() implies waypoint_valid(
                                        self.nodes().len(),
                                        #[trigger] self.wps()[i],
                                    ) by {
                                        if i >= idx {
                                            assert(self.wps()[i] == old(self).wps()[i + 1]);
                                        } else {
                                            assert(self.wps()[i] == old(self).wps()[i]);
                                        }
                                    }
                                }
                            }
                        }
                    } else if n > 1 {
                        self.before_update();
                        self.route.waypoints.remove(idx);
                        self.route.recalculate_full_path(&self.router);
                        proof {
                            assert(all_valid(self.nodes().len(), self.wps())) by {
                                assert forall|i: int| 0 <= i < self.wps().len() implies waypoint_valid(
                                    self.nodes().len(),
                                    #[trigger] self.wps()[i],
                                ) by {
                                    if i >= idx {
                                        assert(self.wps()[i] == old(self).wps()[i + 1]);
                                    } else {
                                        assert(self.wps()[i] == old(self).wps()[i]);
                                    }
                                }
                            }
                        }
                        self.dont_hover_new_points();
                    }
                },
                None => {
                    if path_contains(&self.route.full_path, hover.to_path_entry()) {
                        return;
                    }
                    self.before_update();
                    self.route.add_waypoint(&self.router, hover);
                    proof {
                        assert(all_valid(self.nodes().len(), self.wps())) by {
                            assert forall|i: int| 0 <= i < self.wps().len() implies waypoint_valid(
                                self.nodes().len(),
                                #[trigger] self.wps()[i],
                            ) by {
                                if i < old(self).wps().len() {
                                    assert(self.wps()[i] == old(self).wps()[i]);
                                }
                            }
                        }
                    }
                    if self.router.config.area_mode && !self.route.is_closed_area()
                        && self.route.waypoints.len() == 3 {
                        let first = self.route.waypoints[0];
                        self.route.add_waypoint(&self.router, first);
                        proof {
                            assert(all_valid(self.nodes().len(), self.wps())) by {
                                assert forall|i: int| 0 <= i < self.wps().len() implies waypoint_valid(
                                    self.nodes().len(),
                                    #[trigger] self.wps()[i],
                                ) by {
                                    if i < 3 {
                                        assert(self.wps()[i] == self.wps().drop_last()[i]);
                                    }
                                }
                            }
                        }
                    }
                },
            }
        }
    }

    /// Moves the dragged point to `new_waypt`, keeping the drag going.
    fn drag_to(&mut self, idx: usize, new_waypt: Waypoint)
        requires
            old(self).wf(),
            old(self).mode is Dragging,
            waypoint_valid(old(self).nodes().len(), new_waypt),
        ensures
            final(self).wf(),
            final(self).router == old(self).router,
            final(self).snap_to_nodes == old(self).snap_to_nodes,
            final(self).snap_mode == old(self).snap_mode,
            final(self).previous_states == old(self).previous_states,
            old(self).drag_index_ok(idx) ==> {
                &&& final(self).wps() == moved_waypoints(
                    old(self).wps(),
                    old(self).fp(),
                    idx as int,
                    new_waypt,
                )
                &&& final(self).mode matches Mode::Dragging { idx: i2, at: a2 } && a2 == new_waypt
                    && (old(self).wps().len() == 1 ==> i2 == 0) && (old(self).wps().len() > 1
                    ==> first_index_of(final(self).fp(), entry_of(new_waypt), i2 as int))
            },
            !old(self).drag_index_ok(idx) ==> final(self).route == old(self).route && final(self).mode == old(self).mode,
    {
        if self.drag_index_valid(idx) {
            proof {
                lemma_moved_valid(self.nodes().len(), self.wps(), self.fp(), idx as int, new_waypt);
            }
            let new_idx = self.route.move_waypoint(&self.router, idx, new_waypt);
            self.mode = Mode::Dragging { idx: new_idx, at: new_waypt };
        }
    }

    /// Flips between snapping to nodes and placing points freely (not for
    /// areas), converting the point under the pointer at once: a new hovered
    /// point becomes a freehand point, a dragged point changes kind, and a
    /// freehand point snaps to a nearest node. Where no node exists to snap
    /// to, snapping is switched off instead.
    pub fn toggle_snap_mode(&mut self)
        requires
            old(self).wf(),
        ensures
            final(self).wf(),
            final(self).router == old(self).router,
            final(self).snap_to_nodes == old(self).snap_to_nodes,
            final(self).previous_states == old(self).previous_states,
            old(self).router.config.area_mode ==> {
                &&& final(self).route == old(self).route
                &&& final(self).mode == old(self).mode
                &&& final(self).snap_mode == old(self).snap_mode
            },
            !old(self).router.config.area_mode ==> match old(self).mode {
                Mode::Neutral => {
                    &&& final(self).route == old(self).route
                    &&& final(self).mode == old(self).mode
                    &&& final(self).snap_mode == !old(self).snap_mode
                },
                Mode::Hovering(w) => {
                    &&& final(self).route == old(self).route
                    &&& final(self).snap_mode == !old(self).snap_mode
                    &&& final(self).mode == if is_new_point(old(self).fp(), w) {
                        Mode::Freehand(old(self).coord_of(w))
                    } else {
                        old(self).mode
                    }
                },
                Mode::Freehand(pt) => {
                    &&& final(self).route == old(self).route
                    &&& old(self).nodes().len() == 0 ==> !final(self).snap_mode && final(self).mode
                        == old(self).mode
                    &&& old(self).nodes().len() > 0 ==> final(self).snap_mode == !old(self).snap_mode
                        && (final(self).mode matches Mode::Hovering(Waypoint::Snapped(n))
                        && is_nearest_node(old(self).nodes(), pt, n))
                },
                Mode::Dragging { idx, at } => match at {
                    Waypoint::Snapped(n) => {
                        let w2 = Waypoint::Free(old(self).nodes()[n.0 as int]);
                        &&& final(self).snap_mode == !old(self).snap_mode
                        &&& old(self).drag_index_ok(idx) ==> final(self).wps() == moved_waypoints(
                            old(self).wps(),
                            old(self).fp(),
                            idx as int,
                            w2,
                        ) && (final(self).mode matches Mode::Dragging { idx: _, at: a2 } && a2 == w2)
                        &&& !old(self).drag_index_ok(idx) ==> final(self).route == old(self).route
                            && final(self).mode == old(self).mode
                    },
                    Waypoint::Free(pt) => {
                        &&& old(self).nodes().len() == 0 ==> !final(self).snap_mode && final(self).mode == old(self).mode && final(self).route == old(self).route
                        &&& old(self).nodes().len() > 0 ==> final(self).snap_mode
                            == !old(self).snap_mode
                        &&& old(self).nodes().len() > 0 && old(self).drag_index_ok(idx) ==> exists|
                            n: NodeID,
                        |
                            #[trigger] is_nearest_node(old(self).nodes(), pt, n) && final(self).wps()
                                == moved_waypoints(
                                old(self).wps(),
                                old(self).fp(),
                                idx as int,
                                Waypoint::Snapped(n),
                            ) && (final(self).mode matches Mode::Dragging { idx: _, at: a2 } && a2
                                == Waypoint::Snapped(n))
                        &&& !old(self).drag_index_ok(idx) ==> final(self).route == old(self).route
                            && final(self).mode == old(self).mode
                    },
                },
            },
    {
        if self.router.config.area_mode {
            return;
        }
        self.snap_mode = !self.snap_mode;
        match self.mode {
            Mode::Neutral => {},
            Mode::Hovering(waypt) => {
                if !path_contains(&self.route.full_path, waypt.to_path_entry()) {
                    let c = self.to_pt(waypt);
                    self.mode = Mode::Freehand(c);
                }
            },
            Mode::Dragging { at, idx } => {
                let new_waypt = match at {
                    Waypoint::Snapped(node) => Waypoint::Free(self.router.map.node(node)),
                    Waypoint::Free(pt) => {
                        if let Some(node) = self.mouseover_node(pt) {
                            Waypoint::Snapped(node)
                        } else {
                            self.snap_mode = false;
                            return;
                        }
                    },
                };
                self.drag_to(idx, new_waypt);
            },
            Mode::Freehand(pt) => {
                if let Some(node) = self.mouseover_node(pt) {
                    self.mode = Mode::Hovering(Waypoint::Snapped(node));
                } else {
                    self.snap_mode = false;
                }
            },
        }
    }

    /// The position of a waypoint.
    pub fn to_pt(&self, waypt: Waypoint) -> (r: Coord)
        requires
            waypoint_valid(self.nodes().len(), waypt),
        ensures
            r == self.coord_of(waypt),
    {
        match waypt {
            Waypoint::Snapped(node) => self.router.map.node(node),
            Waypoint::Free(pt) => pt,
        }
    }

    /// Appends a waypoint snapped to a node nearest to `pt` (not for areas,
    /// nor on a map without nodes), recording the previous waypoints for
    /// `undo`.
    pub fn add_snapped_waypoint(&mut self, pt: Coord)
        requires
            old(self).wf(),
        ensures
            final(self).wf(),
            final(self).router == old(self).router,
            final(self).snap_to_nodes == old(self).snap_to_nodes,
            final(self).mode == old(self).mode,
            final(self).snap_mode == old(self).snap_mode,
            old(self).router.config.area_mode || old(self).nodes().len() == 0 ==> {
                &&& final(self).route == old(self).route
                &&& final(self).previous_states == old(self).previous_states
            },
            !old(self).router.config.area_mode && old(self).nodes().len() > 0 ==> {
                &&& exists|n: NodeID|
                    #[trigger] is_nearest_node(old(self).nodes(), pt, n) && final(self).wps() == old(self).wps().push(Waypoint::Snapped(n))
                &&& snapshot_pushed(old(self).history(), final(self).history(), old(self).wps())
            },
    {
        if self.router.config.area_mode {
            return;
        }
        if let Some(node) = self.mouseover_node(pt) {
            self.before_update();
            self.route.add_waypoint(&self.router, Waypoint::Snapped(node));
            proof {
                assert(is_nearest_node(old(self).nodes(), pt, node));
                assert(all_valid(self.nodes().len(), self.wps())) by {
                    assert forall|i: int| 0 <= i < self.wps().len() implies waypoint_valid(
                        self.nodes().len(),
                        #[trigger] self.wps()[i],
                    ) by {
                        if i < old(self).wps().len() {
                            assert(self.wps()[i] == old(self).wps()[i]);
                        }
                    }
                }
            }
        }
    }

    /// Starts over from recorded waypoints, snapping each snapped one to a
    /// node nearest its position. Fails when a snapped one finds no node.
    pub fn edit_existing(&mut self, waypoints: &Vec<RouteWaypoint>) -> (r: Result<(), SnapError>)
        requires
            old(self).wf(),
        ensures
            final(self).wf(),
            final(self).router == old(self).router,
            final(self).snap_to_nodes == old(self).snap_to_nodes,
            final(self).mode == Mode::Neutral,
            final(self).snap_mode,
            final(self).previous_states@.len() == 0,
            r is Ok <==> (old(self).nodes().len() > 0 || forall|i: int|
                0 <= i < waypoints@.len() ==> !(#[trigger] waypoints@[i]).snapped),
            r is Err ==> exists|k: int|
                {
                    &&& 0 <= k < waypoints@.len()
                    &&& (#[trigger] waypoints@[k]).snapped
                    &&& final(self).wps().len() == k
                    &&& forall|j: int|
                        0 <= j < k ==> restores(
                            old(self).nodes(),
                            #[trigger] waypoints@[j],
                            final(self).wps()[j],
                        )
                },
            r is Ok ==> {
                &&& final(self).wps().len() == waypoints@.len()
                &&& forall|i: int|
                    0 <= i < waypoints@.len() ==> restores(
                        old(self).nodes(),
                        #[trigger] waypoints@[i],
                        final(self).wps()[i],
                    )
            },
    {
        self.clear_state();
        let n = waypoints.len();
        let mut i: usize = 0;
        while i < n
            invariant
                n == waypoints@.len(),
                0 <= i <= n,
                self.wf(),
                self.router == old(self).router,
                self.snap_to_nodes == old(self).snap_to_nodes,
                self.mode == Mode::Neutral,
                self.snap_mode,
                self.previous_states@.len() == 0,
                self.wps().len() == i,
                forall|j: int|
                    0 <= j < i ==> restores(old(self).nodes(), #[trigger] waypoints@[j], self.wps()[j]),
                old(self).nodes().len() == 0 ==> forall|j: int|
                    0 <= j < i ==> !(#[trigger] waypoints@[j]).snapped,
            decreases n - i,
        {
            let rec = waypoints[i];
            let pt = Coord { x: rec.lon, y: rec.lat };
            let ghost before = self.wps();
            if rec.snapped {
                match self.mouseover_node(pt) {
                    Some(node) => {
                        self.route.add_waypoint(&self.router, Waypoint::Snapped(node));
                    },
                    None => {
                        proof {
                            assert(waypoints@[i as int].snapped);
                        }
                        return Err(SnapError::SnapFailed);
                    },
                }
            } else {
                self.route.add_waypoint(&self.router, Waypoint::Free(pt));
            }
            proof {
                assert forall|j: int| 0 <= j < i + 1 implies restores(
                    old(self).nodes(),
                    #[trigger] waypoints@[j],
                    self.wps()[j],
                ) by {
                    if j < i {
                        assert(self.wps()[j] == before[j]);
                    }
                }
                assert(all_valid(self.nodes().len(), self.wps())) by {
                    assert forall|j: int| 0 <= j < self.wps().len() implies waypoint_valid(
                        self.nodes().len(),
                        #[trigger] self.wps()[j],
                    ) by {
                        if j < i {
                            assert(self.wps()[j] == before[j]);
                        }
                    }
                }
            }
            i += 1;
        }
        Ok(())
    }

    /// Sets whether new points snap to nodes.
    pub fn set_snap_mode(&mut self, snap_mode: bool)
        requires
            old(self).wf(),
        ensures
            final(self).wf(),
            final(self).snap_mode == snap_mode,
            final(self).router == old(self).router,
            final(self).snap_to_nodes == old(self).snap_to_nodes,
            final(self).route == old(self).route,
            final(self).mode == old(self).mode,
            final(self).previous_states == old(self).previous_states,
    {
        self.snap_mode = snap_mode;
    }

    /// The pointer to show: "inherit" when idle, "pointer" when hovering,
    /// "grabbing" when dragging, "crosshair" in freehand mode.
    pub fn cursor(&self) -> (r: &'static str)
        ensures
            self.mode is Neutral ==> r@ == "inherit"@,
            self.mode is Hovering ==> r@ == "pointer"@,
            self.mode is Dragging ==> r@ == "grabbing"@,
            self.mode is Freehand ==> r@ == "crosshair"@,
    {
        match self.mode {
            Mode::Neutral => "inherit",
            Mode::Hovering(_) => "pointer",
            Mode::Dragging { .. } => "grabbing",
            Mode::Freehand(_) => "crosshair",
        }
    }

    /// How many earlier states `undo` can go back to.
    pub fn undo_length(&self) -> (r: usize)
        ensures
            r == self.previous_states@.len(),
    {
        self.previous_states.len()
    }

    /// The waypoints as records that `edit_existing` restores.
    pub fn route_waypoints(&self) -> (r: Vec<RouteWaypoint>)
        requires
            self.wf(),
        ensures
            r@.len() == self.wps().len(),
            forall|i: int|
                0 <= i < r@.len() ==> {
                    let c = self.coord_of(self.wps()[i]);
                    &&& (#[trigger] r@[i]).lon == c.x
                    &&& r@[i].lat == c.y
                    &&& r@[i].snapped == self.wps()[i] is Snapped
                },
    {
        let n = self.route.waypoints.len();
        let mut out: Vec<RouteWaypoint> = Vec::new();
        let mut i: usize = 0;
        while i < n
            invariant
                n == self.wps().len(),
                0 <= i <= n,
                self.wf(),
                out@.len() == i,
                forall|j: int|
                    0 <= j < i ==> {
                        let c = self.coord_of(self.wps()[j]);
                        &&& (#[trigger] out@[j]).lon == c.x
                        &&& out@[j].lat == c.y
                        &&& out@[j].snapped == self.wps()[j] is Snapped
                    },
            decreases n - i,
        {
            let w = self.route.waypoints[i];
            proof {
                assert(waypoint_valid(self.nodes().len(), self.wps()[i as int]));
            }
            let c = self.to_pt(w);
            let snapped = match w {
                Waypoint::Snapped(_) => true,
                Waypoint::Free(_) => false,
            };
            out.push(RouteWaypoint { lon: c.x, lat: c.y, snapped });
            i += 1;
        }
        out
    }

    fn drag_index_valid(&self, idx: usize) -> (r: bool)
        ensures
            r == self.drag_index_ok(idx),
    {
        self.route.waypoints.len() == 1 || (idx < self.route.full_path.len() && !matches!(
            self.route.full_path[idx],
            PathEntry::Edge(_)
        ))
    }

    /// Forgets the route, the history and the pointer's state.
    pub fn clear_state(&mut self)
        requires
            old(self).wf(),
        ensures
            final(self).wf(),
            final(self).router == old(self).router,
            final(self).snap_to_nodes == old(self).snap_to_nodes,
            final(self).wps().len() == 0,
            final(self).fp().len() == 0,
            final(self).mode == Mode::Neutral,
            final(self).snap_mode,
            final(self).previous_states@.len() == 0,
    {
        self.route = Route::new();
        self.mode = Mode::Neutral;
        self.snap_mode = true;
        self.previous_states.clear();
    }

    /// Records the current waypoints for `undo`.
    fn before_update(&mut self)
        requires
            old(self).wf(),
        ensures
            final(self).wf(),
            final(self).router == old(self).router,
            final(self).snap_to_nodes == old(self).snap_to_nodes,
            final(self).route == old(self).route,
            final(self).mode == old(self).mode,
            final(self).snap_mode == old(self).snap_mode,
            snapshot_pushed(old(self).history(), final(self).history(), old(self).wps()),
    {
        let snapshot = copy_waypoints(&self.route.waypoints);
        let ghost h0 = self.history();
        self.previous_states.push(snapshot);
        proof {
            assert(self.history() =~= h0.push(self.wps()));
        }
        if self.previous_states.len() > MAX_PREVIOUS_STATES {
            let ghost h1 = self.history();
            self.previous_states.remove(0);
            proof {
                assert(self.history() =~= h1.drop_first());
            }
        }
    }

    /// Goes back to the waypoints before the last change, unless a drag is
    /// under way or there is nothing to go back to.
    pub fn undo(&mut self)
        requires
            old(self).wf(),
        ensures
            final(self).wf(),
            final(self).router == old(self).router,
            final(self).snap_to_nodes == old(self).snap_to_nodes,
            final(self).mode == old(self).mode,
            final(self).snap_mode == old(self).snap_mode,
            if !(old(self).mode is Dragging) && old(self).history().len() > 0 {
                &&& final(self).wps() == old(self).history().last()
                &&& final(self).history() == old(self).history().drop_last()
            } else {
                &&& final(self).route == old(self).route
                &&& final(self).history() == old(self).history()
            },
    {
        if let Mode::Dragging { .. } = self.mode {
            return;
        }
        let ghost h0 = self.history();
        if let Some(state) = self.previous_states.pop() {
            proof {
                assert(self.history() =~= h0.drop_last());
                assert(state@ == h0.last());
                assert(all_valid(self.nodes().len(), old(self).previous_states@[h0.len() - 1]@));
            }
            self.route.waypoints = state;
            self.route.recalculate_full_path(&self.router);
        }
    }

    /// Stops hovering over a point that cannot be added right now.
    fn dont_hover_new_points(&mut self)
        requires
            old(self).wf(),
        ensures
            final(self).wf(),
            final(self).router == old(self).router,
            final(self).snap_to_nodes == old(self).snap_to_nodes,
            final(self).route == old(self).route,
            final(self).snap_mode == old(self).snap_mode,
            final(self).previous_states == old(self).previous_states,
            final(self).mode == old(self).without_new_hover(old(self).mode),
    {
        if !self.can_extend_route() {
            if let Mode::Hovering(waypt) = self.mode {
                if !path_contains(&self.route.full_path, waypt.to_path_entry()) {
                    self.mode = Mode::Neutral;
                }
            }
        }
    }

    /// Replaces the configuration (never area mode) and rebuilds the path.
    pub fn set_route_config(&mut self, config: Config)
        requires
            old(self).wf(),
            !config.area_mode,
        ensures
            final(self).wf(),
            final(self).router.config == config,
            final(self).router.map == old(self).router.map,
            final(self).wps() == old(self).wps(),
            final(self).mode == old(self).mode,
            final(self).snap_mode == old(self).snap_mode,
            final(self).previous_states == old(self).previous_states,
    {
        self.router.config = config;
        self.route.recalculate_full_path(&self.router);
    }

    /// Switches to drawing closed areas: snapping on, doubling back avoided,
    /// extending allowed.
    pub fn set_area_mode(&mut self)
        requires
            old(self).wf(),
        ensures
            final(self).wf(),
            final(self).router.config == (Config {
                avoid_doubling_back: true,
                extend_route: true,
                area_mode: true,
            }),
            final(self).router.map == old(self).router.map,
            final(self).snap_mode,
            final(self).wps() == old(self).wps(),
            final(self).mode == old(self).mode,
            final(self).previous_states == old(self).previous_states,
    {
        self.snap_mode = true;
        self.router.config = Config { avoid_doubling_back: true, extend_route: true, area_mode: true };
        self.route.recalculate_full_path(&self.router);
    }

    pub fn get_config(&self) -> (r: Config)
        ensures
            r == self.router.config,
    {
        self.router.config
    }

    /// Ends a drag, hovering where it ended. Whether a drag was under way.
    pub fn on_mouse_up(&mut self) -> (r: bool)
        requires
            old(self).wf(),
        ensures
            final(self).wf(),
            final(self).router == old(self).router,
            final(self).snap_to_nodes == old(self).snap_to_nodes,
            final(self).route == old(self).route,
            final(self).snap_mode == old(self).snap_mode,
            final(self).previous_states == old(self).previous_states,
            r == old(self).mode is Dragging,
            old(self).mode matches Mode::Dragging { idx, at } ==> final(self).mode == Mode::Hovering(
                at,
            ),
            !(old(self).mode is Dragging) ==> final(self).mode == old(self).mode,
    {
        if let Mode::Dragging { at, .. } = self.mode {
            self.mode = Mode::Hovering(at);
            return true;
        }
        false
    }

    /// Starts dragging the hovered point when it is on the route, recording
    /// the waypoints for `undo` and snapping as the point does. Whether the
    /// host should hand the drag over.
    pub fn on_drag_start(&mut self) -> (r: bool)
        requires
            old(self).wf(),
        ensures
            final(self).wf(),
            final(self).router == old(self).router,
            final(self).snap_to_nodes == old(self).snap_to_nodes,
            final(self).route == old(self).route,
            match old(self).mode {
                Mode::Hovering(at) => if old(self).fp().contains(entry_of(at)) {
                    &&& r
                    &&& final(self).mode matches Mode::Dragging { idx, at: at2 } && at2 == at
                        && first_index_of(old(self).fp(), entry_of(at), idx as int)
                    &&& final(self).snap_mode == (at is Snapped)
                    &&& snapshot_pushed(old(self).history(), final(self).history(), old(self).wps())
                } else {
                    &&& !r
                    &&& final(self).mode == old(self).mode
                    &&& final(self).snap_mode == old(self).snap_mode
                    &&& final(self).previous_states == old(self).previous_states
                },
                _ => {
                    &&& !r
                    &&& final(self).mode == old(self).mode
                    &&& final(self).snap_mode == old(self).snap_mode
                    &&& final(self).previous_states == old(self).previous_states
                },
            },
    {
        if let Mode::Hovering(at) = self.mode {
            let target = at.to_path_entry();
            let n = self.route.full_path.len();
            let mut idx: usize = 0;
            while idx < n
                invariant
                    n == self.route.full_path@.len(),
                    0 <= idx <= n,
                    target == entry_of(at),
                    forall|k: int| 0 <= k < idx ==> self.route.full_path@[k] != target,
                ensures
                    0 <= idx <= n,
                    forall|k: int| 0 <= k < idx ==> self.route.full_path@[k] != target,
                    idx < n ==> self.route.full_path@[idx as int] == target,
                decreases n - idx,
            {
                if self.route.full_path[idx] == target {
                    break;
                }
                idx += 1;
            }
            if idx < n {
                proof {
                    if self.wps().len() == 0 {
                        assert(self.fp().len() == 0);
                    }
                    assert(self.fp().contains(target));
                }
                self.before_update();
                self.mode = Mode::Dragging { idx, at };
                self.snap_mode = match at {
                    Waypoint::Snapped(_) => true,
                    Waypoint::Free(_) => false,
                };
                return true;
            }
            proof {
                if self.fp().contains(target) {
                    let k = choose|k: int| 0 <= k < self.fp().len() && self.fp()[k] == target;
                    assert(self.route.full_path@[k] != target);
                }
            }
        }
        false
    }
}


/// Undo is a left inverse of a change: after a change that recorded a
/// snapshot of the waypoints, undoing it brings back the waypoints from before
/// the change, and the history from before it unless the history was full.
pub proof fn lemma_undo_reverts_change(
    before: JsRouteSnapper,
    changed: JsRouteSnapper,
    undone: JsRouteSnapper,
)
    requires
        snapshot_pushed(before.history(), changed.history(), before.wps()),
        undone.wps() == changed.history().last(),
        undone.history() == changed.history().drop_last(),
    ensures
        undone.wps() == before.wps(),
        before.history().len() < MAX_PREVIOUS_STATES ==> undone.history() == before.history(),
{
    if before.history().len() < MAX_PREVIOUS_STATES {
        assert(changed.history().drop_last() =~= before.history());
    }
}

/// Clicking the only waypoint of a route does not delete it.
pub proof fn lemma_click_keeps_sole_waypoint(s: JsRouteSnapper)
    requires
        s.wps().len() == 1,
        s.mode == Mode::Hovering(s.wps()[0]),
    ensures
        s.click_result() is None,
{
}

/// Dragging the only waypoint of a route moves it in place.
pub proof fn lemma_drag_sole_waypoint(
    wps: Seq<Waypoint>,
    fp: Seq<PathEntry>,
    full_idx: int,
    new_w: Waypoint,
)
    requires
        wps.len() == 1,
    ensures
        moved_waypoints(wps, fp, full_idx, new_w) == seq![new_w],
{
}

/// With extending switched off, a route of two waypoints takes no new point:
/// a click with the pointer as a mouse move leaves it (neither freehand nor
/// over a point that cannot be added) changes nothing unless it is over one of
/// the two waypoints.
pub proof fn lemma_locked_route_ignores_new_points(s: JsRouteSnapper)
    requires
        s.wps().len() == 2,
        !s.router.config.extend_route,
        !(s.mode is Freehand),
        s.mode == s.without_new_hover(s.mode),
        !(s.mode matches Mode::Hovering(w) && s.wps().contains(w)),
    ensures
        s.click_result() is None,
{
    if let Mode::Hovering(h) = s.mode {
        lemma_find_waypoint_range(s.wps(), h, 0);
        if let Some(i) = find_waypoint(s.wps(), h, 0) {
            assert(s.wps()[i] == h);
            assert(s.wps().contains(h));
        }
    }
}


/// Restoring recorded waypoints gives back the same waypoints: a free one
/// exactly, and a snapped one as long as no other node shares its node's
/// position.
pub proof fn lemma_records_restore_waypoints(
    s: JsRouteSnapper,
    records: Seq<RouteWaypoint>,
    restored: Seq<Waypoint>,
)
    requires
        s.wf(),
        records.len() == s.wps().len(),
        forall|i: int|
            0 <= i < records.len() ==> {
                let c = s.coord_of(s.wps()[i]);
                &&& (#[trigger] records[i]).lon == c.x
                &&& records[i].lat == c.y
                &&& records[i].snapped == s.wps()[i] is Snapped
            },
        restored.len() == records.len(),
        forall|i: int| 0 <= i < records.len() ==> restores(s.nodes(), #[trigger] records[i], restored[i]),
        forall|i: int, m: int|
            0 <= i < s.wps().len() && 0 <= m < s.nodes().len() && (#[trigger] s.wps()[i]) is Snapped
                && m != s.wps()[i]->Snapped_0.0 ==> #[trigger] s.nodes()[m] != s.nodes()[s.wps()[
                i]->Snapped_0.0 as int],
    ensures
        restored == s.wps(),
{
    assert forall|i: int| 0 <= i < restored.len() implies restored[i] == s.wps()[i] by {
        let w = s.wps()[i];
        assert(restores(s.nodes(), records[i], restored[i]));
        assert(waypoint_valid(s.nodes().len(), w));
        if let Waypoint::Snapped(n) = w {
            let m = restored[i]->Snapped_0;
            let c = record_coord(records[i]);
            assert(c == s.nodes()[n.0 as int]);
            assert(is_nearest_node(s.nodes(), c, m));
            assert(coord_dist2(s.nodes()[n.0 as int], c) == 0);
            assert(coord_dist2(s.nodes()[m.0 as int], c) <= 0);
            let a = s.nodes()[m.0 as int];
            assert((a.x - c.x) * (a.x - c.x) >= 0) by (nonlinear_arith);
            assert((a.y - c.y) * (a.y - c.y) >= 0) by (nonlinear_arith);
            assert((a.x - c.x) * (a.x - c.x) == 0);
            assert(a.x == c.x) by (nonlinear_arith)
                requires (a.x - c.x) * (a.x - c.x) == 0;
            assert(a.y == c.y) by (nonlinear_arith)
                requires (a.y - c.y) * (a.y - c.y) >= 0, (a.x - c.x) * (a.x - c.x) + (a.y - c.y) * (a.y - c.y) <= 0;
            if m.0 != n.0 {
                assert(s.nodes()[m.0 as int] != s.nodes()[n.0 as int]);
            }
        }
    }
    assert(restored =~= s.wps());
}

} // verus!
