use route_snapper::graph::{Coord, Edge, NodeID, RouteSnapperMap};
use route_snapper::render::CircleStyle;
use route_snapper::route::{PathEntry, Waypoint};
use route_snapper::router::Config;
use route_snapper::snapper::{JsRouteSnapper, Mode};

const WAYPT1: Waypoint = Waypoint::Snapped(NodeID(1));
const WAYPT2: Waypoint = Waypoint::Snapped(NodeID(2));
const WAYPT3: Waypoint = Waypoint::Snapped(NodeID(3));
const WAYPT4: Waypoint = Waypoint::Snapped(NodeID(4));
const WAYPT5: Waypoint = Waypoint::Snapped(NodeID(5));

const BASE_X: i32 = -90_000;
const BASE_Y: i32 = 51_500_000;

fn at(dx: i32, dy: i32) -> Coord {
    Coord {
        x: BASE_X + dx,
        y: BASE_Y + dy,
    }
}

fn edge(n1: u32, n2: u32, nodes: &[Coord], name: &str) -> Edge {
    let a = nodes[n1 as usize];
    let b = nodes[n2 as usize];
    let dx = (a.x - b.x) as i64;
    let dy = (a.y - b.y) as i64;
    // Rough length in millimetres; only its relative size matters here.
    let len = (((dx * dx + dy * dy) as f64).sqrt() * 100.0) as u32;
    Edge {
        node1: NodeID(n1),
        node2: NodeID(n2),
        geometry: vec![a, b],
        name: if name.is_empty() {
            None
        } else {
            Some(name.to_string())
        },
        length_mm: len,
        forward_cost: None,
        backward_cost: None,
    }
}

// Nodes 1 to 5 are the waypoints of the scenarios; node 211 lies on the path
// between nodes 1 and 2; the other nodes are far away and unconnected.
fn test_map() -> RouteSnapperMap {
    let mut nodes = Vec::new();
    for i in 0..212 {
        nodes.push(at(50_000 + 3_000 * i, 80_000));
    }
    nodes[1] = at(0, 0);
    nodes[2] = at(2_000, 0);
    nodes[3] = at(2_000, 1_500);
    nodes[4] = at(1_000, -1_500);
    nodes[5] = at(-1_500, 0);
    nodes[211] = at(1_000, 0);
    let edges = vec![
        edge(1, 211, &nodes, "Long Lane"),
        edge(211, 2, &nodes, "Long Lane"),
        edge(2, 3, &nodes, "Borough Road"),
        edge(3, 1, &nodes, ""),
        edge(1, 4, &nodes, "Tabard Street"),
        edge(4, 2, &nodes, "Tabard Street"),
        edge(5, 4, &nodes, "Great Dover Street"),
        edge(3, 5, &nodes, "Great Dover Street"),
        edge(5, 1, &nodes, "Great Dover Street"),
    ];
    RouteSnapperMap {
        nodes,
        edges,
        override_forward_costs: Vec::new(),
        override_backward_costs: Vec::new(),
    }
}

fn new_snapper() -> JsRouteSnapper {
    JsRouteSnapper::new(test_map()).ok().unwrap()
}

fn near_flags(snapper: &JsRouteSnapper, pt: Coord) -> Vec<bool> {
    snapper
        .route
        .waypoints
        .iter()
        .map(|w| matches!(w, Waypoint::Free(c) if *c == pt))
        .collect()
}

// Simulate the mouse being somewhere
fn optionally_mouseover_waypt(snapper: &mut JsRouteSnapper, waypt: Waypoint) {
    let pt = snapper.to_pt(waypt);
    let near = near_flags(snapper, pt);
    snapper.on_mouse_move(pt, &near);
}

// Simulate the mouse being somewhere, then check the tool is hovering on that waypoint
fn must_mouseover_waypt(snapper: &mut JsRouteSnapper, waypt: Waypoint) {
    optionally_mouseover_waypt(snapper, waypt);
    assert_eq!(snapper.mode, Mode::Hovering(waypt));
}

// After the route contains two waypoints, find some point in the middle of the two
fn find_intermediate_point(snapper: &JsRouteSnapper, pt1: Waypoint, pt2: Waypoint) -> Waypoint {
    let all_points: Vec<Waypoint> = snapper
        .route
        .full_path
        .iter()
        .flat_map(|path_entry| path_entry.to_waypt())
        .collect();
    let idx1 = all_points.iter().position(|x| *x == pt1).unwrap();
    let idx2 = all_points.iter().position(|x| *x == pt2).unwrap();
    assert!(idx1 < idx2);
    let middle = idx1 + ((idx2 - idx1) as f64 / 2.0) as usize;
    assert_ne!(middle, idx1);
    all_points[middle]
}

fn drag(snapper: &mut JsRouteSnapper, from: Waypoint, to: Waypoint) {
    must_mouseover_waypt(snapper, from);
    snapper.on_drag_start();
    optionally_mouseover_waypt(snapper, to);
    snapper.on_mouse_up();
}

fn set_extend(snapper: &mut JsRouteSnapper, extend_route: bool) {
    snapper.set_route_config(Config {
        avoid_doubling_back: false,
        extend_route,
        area_mode: false,
    });
}

#[test]
fn test_route_delete() {
    let mut snapper = new_snapper();

    // Add a waypoint
    must_mouseover_waypt(&mut snapper, WAYPT1);
    snapper.on_click();
    assert_eq!(snapper.route.waypoints, vec![WAYPT1]);

    // Click again to delete it -- shouldn't work, it's the only one
    snapper.on_click();
    assert_eq!(snapper.route.waypoints, vec![WAYPT1]);

    // Add a second
    must_mouseover_waypt(&mut snapper, WAYPT2);
    snapper.on_click();
    assert_eq!(snapper.route.waypoints, vec![WAYPT1, WAYPT2]);

    // Delete the first waypoint
    must_mouseover_waypt(&mut snapper, WAYPT1);
    snapper.on_click();
    assert_eq!(snapper.route.waypoints, vec![WAYPT2]);
}

#[test]
fn test_route_extend() {
    let mut snapper = new_snapper();
    set_extend(&mut snapper, true);

    must_mouseover_waypt(&mut snapper, WAYPT1);
    snapper.on_click();
    assert_eq!(snapper.route.waypoints, vec![WAYPT1]);

    must_mouseover_waypt(&mut snapper, WAYPT2);
    snapper.on_click();
    assert_eq!(snapper.route.waypoints, vec![WAYPT1, WAYPT2]);

    must_mouseover_waypt(&mut snapper, WAYPT3);
    snapper.on_click();
    assert_eq!(snapper.route.waypoints, vec![WAYPT1, WAYPT2, WAYPT3]);

    must_mouseover_waypt(&mut snapper, WAYPT4);
    snapper.on_click();
    assert_eq!(
        snapper.route.waypoints,
        vec![WAYPT1, WAYPT2, WAYPT3, WAYPT4]
    );

    // The full path starts with the first waypoint, then an edge
    assert_eq!(snapper.route.full_path[0], PathEntry::SnappedPoint(NodeID(1)));
    assert!(matches!(snapper.route.full_path[1], PathEntry::Edge(_)));
}

#[test]
fn test_route_extend_then_delete() {
    let mut snapper = new_snapper();
    set_extend(&mut snapper, true);

    for waypt in [WAYPT1, WAYPT2, WAYPT3, WAYPT4] {
        must_mouseover_waypt(&mut snapper, waypt);
        snapper.on_click();
    }
    assert_eq!(
        snapper.route.waypoints,
        vec![WAYPT1, WAYPT2, WAYPT3, WAYPT4]
    );

    // Clicking an existing waypoint will delete it
    must_mouseover_waypt(&mut snapper, WAYPT2);
    snapper.on_click();
    assert_eq!(snapper.route.waypoints, vec![WAYPT1, WAYPT3, WAYPT4]);
}

#[test]
fn test_route_dont_extend() {
    let mut snapper = new_snapper();
    set_extend(&mut snapper, false);

    // The first two waypoints work normally
    must_mouseover_waypt(&mut snapper, WAYPT1);
    snapper.on_click();
    assert_eq!(snapper.route.waypoints, vec![WAYPT1]);

    must_mouseover_waypt(&mut snapper, WAYPT2);
    snapper.on_click();
    assert_eq!(snapper.route.waypoints, vec![WAYPT1, WAYPT2]);

    // But then we can't add another one
    optionally_mouseover_waypt(&mut snapper, WAYPT3);
    snapper.on_click();
    assert_eq!(snapper.route.waypoints, vec![WAYPT1, WAYPT2]);

    // Delete the first waypoint
    must_mouseover_waypt(&mut snapper, WAYPT1);
    snapper.on_click();
    assert_eq!(snapper.route.waypoints, vec![WAYPT2]);

    // Then add a different endpoint
    must_mouseover_waypt(&mut snapper, WAYPT4);
    snapper.on_click();
    assert_eq!(snapper.route.waypoints, vec![WAYPT2, WAYPT4]);
}

#[test]
fn test_area() {
    let mut snapper = new_snapper();
    snapper.set_area_mode();

    // The first two points just make a line
    must_mouseover_waypt(&mut snapper, WAYPT1);
    snapper.on_click();
    assert_eq!(snapper.route.waypoints, vec![WAYPT1]);

    must_mouseover_waypt(&mut snapper, WAYPT2);
    snapper.on_click();
    assert_eq!(snapper.route.waypoints, vec![WAYPT1, WAYPT2]);

    // The third creates the polygon, and the first and last waypoints are now the same
    must_mouseover_waypt(&mut snapper, WAYPT3);
    snapper.on_click();
    assert_eq!(
        snapper.route.waypoints,
        vec![WAYPT1, WAYPT2, WAYPT3, WAYPT1]
    );

    // Drag something in between 1 and 2
    let intermediate = find_intermediate_point(&snapper, WAYPT1, WAYPT2);
    assert_eq!(intermediate, Waypoint::Snapped(NodeID(211)));
    drag(&mut snapper, intermediate, WAYPT4);
    // We should've introduced a new waypoint
    assert_eq!(
        snapper.route.waypoints,
        vec![WAYPT1, WAYPT4, WAYPT2, WAYPT3, WAYPT1]
    );

    // We can't delete the first/last waypoint
    must_mouseover_waypt(&mut snapper, WAYPT1);
    snapper.on_click();
    assert_eq!(
        snapper.route.waypoints,
        vec![WAYPT1, WAYPT4, WAYPT2, WAYPT3, WAYPT1]
    );

    // If we modify the first point, the last stays in sync
    drag(&mut snapper, WAYPT1, WAYPT5);
    assert_eq!(
        snapper.route.waypoints,
        vec![WAYPT5, WAYPT4, WAYPT2, WAYPT3, WAYPT5]
    );

    // We can delete an intermediate point
    must_mouseover_waypt(&mut snapper, WAYPT2);
    snapper.on_click();
    assert_eq!(
        snapper.route.waypoints,
        vec![WAYPT5, WAYPT4, WAYPT3, WAYPT5]
    );
}

#[test]
fn undo_reverts_each_scenario_step() {
    let mut snapper = new_snapper();
    set_extend(&mut snapper, true);
    for waypt in [WAYPT1, WAYPT2, WAYPT3, WAYPT4] {
        must_mouseover_waypt(&mut snapper, waypt);
        snapper.on_click();
    }
    must_mouseover_waypt(&mut snapper, WAYPT2);
    snapper.on_click();
    assert_eq!(snapper.route.waypoints, vec![WAYPT1, WAYPT3, WAYPT4]);
    assert_eq!(snapper.undo_length(), 5);

    snapper.undo();
    assert_eq!(
        snapper.route.waypoints,
        vec![WAYPT1, WAYPT2, WAYPT3, WAYPT4]
    );
    snapper.undo();
    assert_eq!(snapper.route.waypoints, vec![WAYPT1, WAYPT2, WAYPT3]);
    assert_eq!(snapper.undo_length(), 3);
}

#[test]
fn undo_after_area_drag() {
    let mut snapper = new_snapper();
    snapper.set_area_mode();
    for waypt in [WAYPT1, WAYPT2, WAYPT3] {
        must_mouseover_waypt(&mut snapper, waypt);
        snapper.on_click();
    }
    drag(&mut snapper, Waypoint::Snapped(NodeID(211)), WAYPT4);
    assert_eq!(
        snapper.route.waypoints,
        vec![WAYPT1, WAYPT4, WAYPT2, WAYPT3, WAYPT1]
    );
    snapper.undo();
    assert_eq!(
        snapper.route.waypoints,
        vec![WAYPT1, WAYPT2, WAYPT3, WAYPT1]
    );
}

#[test]
fn undo_is_ignored_while_dragging() {
    let mut snapper = new_snapper();
    set_extend(&mut snapper, true);
    for waypt in [WAYPT1, WAYPT2] {
        must_mouseover_waypt(&mut snapper, waypt);
        snapper.on_click();
    }
    must_mouseover_waypt(&mut snapper, WAYPT2);
    assert!(snapper.on_drag_start());
    optionally_mouseover_waypt(&mut snapper, WAYPT3);
    assert_eq!(snapper.route.waypoints, vec![WAYPT1, WAYPT3]);
    snapper.undo();
    assert_eq!(snapper.route.waypoints, vec![WAYPT1, WAYPT3]);
    assert!(snapper.on_mouse_up());
    snapper.undo();
    assert_eq!(snapper.route.waypoints, vec![WAYPT1, WAYPT2]);
}

#[test]
fn undo_history_is_bounded() {
    let mut snapper = new_snapper();
    set_extend(&mut snapper, true);
    for i in 0..120 {
        snapper.add_snapped_waypoint(snapper.router.map.nodes[1 + (i % 2)]);
    }
    assert_eq!(snapper.route.waypoints.len(), 120);
    assert_eq!(snapper.undo_length(), 100);
    snapper.undo();
    assert_eq!(snapper.route.waypoints.len(), 119);
}

#[test]
fn sole_waypoint_drags_in_place() {
    let mut snapper = new_snapper();
    set_extend(&mut snapper, true);
    for waypt in [WAYPT1, WAYPT2] {
        must_mouseover_waypt(&mut snapper, waypt);
        snapper.on_click();
    }
    // Deleting down to one waypoint leaves its entry on the full path
    must_mouseover_waypt(&mut snapper, WAYPT1);
    snapper.on_click();
    assert_eq!(snapper.route.waypoints, vec![WAYPT2]);
    must_mouseover_waypt(&mut snapper, WAYPT2);
    assert!(snapper.on_drag_start());
    optionally_mouseover_waypt(&mut snapper, WAYPT3);
    optionally_mouseover_waypt(&mut snapper, WAYPT4);
    assert!(snapper.on_mouse_up());
    assert_eq!(snapper.route.waypoints, vec![WAYPT4]);
    assert_eq!(snapper.mode, Mode::Hovering(WAYPT4));
}

#[test]
fn clicking_intermediate_node_does_nothing() {
    let mut snapper = new_snapper();
    set_extend(&mut snapper, true);
    for waypt in [WAYPT1, WAYPT2] {
        must_mouseover_waypt(&mut snapper, waypt);
        snapper.on_click();
    }
    let mid = Waypoint::Snapped(NodeID(211));
    must_mouseover_waypt(&mut snapper, mid);
    snapper.on_click();
    assert_eq!(snapper.route.waypoints, vec![WAYPT1, WAYPT2]);
    assert_eq!(snapper.undo_length(), 2);
}

#[test]
fn full_path_expands_shortest_path() {
    let mut snapper = new_snapper();
    set_extend(&mut snapper, true);
    for waypt in [WAYPT1, WAYPT2] {
        must_mouseover_waypt(&mut snapper, waypt);
        snapper.on_click();
    }
    let fp = &snapper.route.full_path;
    assert_eq!(fp.len(), 5);
    assert_eq!(fp[0], PathEntry::SnappedPoint(NodeID(1)));
    assert_eq!(fp[2], PathEntry::SnappedPoint(NodeID(211)));
    assert_eq!(fp[4], PathEntry::SnappedPoint(NodeID(2)));
    match (fp[1], fp[3]) {
        (PathEntry::Edge(a), PathEntry::Edge(b)) => {
            assert_eq!(a.edge.0, 0);
            assert!(a.forwards);
            assert_eq!(b.edge.0, 1);
            assert!(b.forwards);
        }
        _ => panic!("expected edges"),
    }
}

#[test]
fn backwards_edges_are_reversed_in_line() {
    let mut snapper = new_snapper();
    set_extend(&mut snapper, true);
    for waypt in [WAYPT2, WAYPT1] {
        must_mouseover_waypt(&mut snapper, waypt);
        snapper.on_click();
    }
    let fp = &snapper.route.full_path;
    assert_eq!(fp[0], PathEntry::SnappedPoint(NodeID(2)));
    match fp[1] {
        PathEntry::Edge(de) => assert!(!de.forwards),
        _ => panic!("expected an edge"),
    }
    let line = snapper.entire_line_string().unwrap();
    let nodes = &snapper.router.map.nodes;
    assert_eq!(line, vec![nodes[2], nodes[211], nodes[1]]);
}

#[test]
fn no_repeated_snapped_points_between_segments() {
    let mut snapper = new_snapper();
    set_extend(&mut snapper, true);
    for waypt in [WAYPT1, WAYPT2, WAYPT3] {
        must_mouseover_waypt(&mut snapper, waypt);
        snapper.on_click();
    }
    let fp = &snapper.route.full_path;
    for pair in fp.windows(2) {
        assert!(!(matches!(pair[0], PathEntry::SnappedPoint(_)) && pair[0] == pair[1]));
    }
    let wps: Vec<PathEntry> = fp
        .iter()
        .copied()
        .filter(|e| {
            matches!(
                e,
                PathEntry::SnappedPoint(NodeID(1))
                    | PathEntry::SnappedPoint(NodeID(2))
                    | PathEntry::SnappedPoint(NodeID(3))
            )
        })
        .collect();
    assert_eq!(
        wps,
        vec![
            PathEntry::SnappedPoint(NodeID(1)),
            PathEntry::SnappedPoint(NodeID(2)),
            PathEntry::SnappedPoint(NodeID(3)),
        ]
    );
}

#[test]
fn disconnected_pair_stays_neighbours() {
    let mut snapper = new_snapper();
    set_extend(&mut snapper, true);
    let far = Waypoint::Snapped(NodeID(100));
    must_mouseover_waypt(&mut snapper, WAYPT1);
    snapper.on_click();
    must_mouseover_waypt(&mut snapper, far);
    snapper.on_click();
    assert_eq!(snapper.route.waypoints, vec![WAYPT1, far]);
    assert_eq!(
        snapper.route.full_path,
        vec![
            PathEntry::SnappedPoint(NodeID(1)),
            PathEntry::SnappedPoint(NodeID(100))
        ]
    );
    // The straight step is drawn as a piece that does not follow the graph
    let pieces = snapper.line_string_broken_down();
    assert_eq!(pieces.len(), 1);
    assert!(!pieces[0].snapped);
    assert_eq!(
        pieces[0].points,
        vec![at(0, 0), snapper.router.map.nodes[100]]
    );
}

#[test]
fn disconnected_pair_after_routed_part_gives_two_pieces() {
    let mut snapper = new_snapper();
    set_extend(&mut snapper, true);
    let far = Waypoint::Snapped(NodeID(100));
    for waypt in [WAYPT1, WAYPT2, far] {
        must_mouseover_waypt(&mut snapper, waypt);
        snapper.on_click();
    }
    assert_eq!(snapper.route.waypoints, vec![WAYPT1, WAYPT2, far]);
    let pieces = snapper.line_string_broken_down();
    assert_eq!(pieces.len(), 2);
    assert!(pieces[0].snapped);
    assert_eq!(pieces[0].points, vec![at(0, 0), at(1_000, 0), at(2_000, 0)]);
    assert!(!pieces[1].snapped);
    assert_eq!(
        pieces[1].points,
        vec![at(2_000, 0), snapper.router.map.nodes[100]]
    );
}

#[test]
fn leftover_freehand_is_dropped_when_route_is_locked() {
    // A map without nodes: nothing can ever be hovered
    let mut snapper = JsRouteSnapper::new(RouteSnapperMap {
        nodes: Vec::new(),
        edges: Vec::new(),
        override_forward_costs: Vec::new(),
        override_backward_costs: Vec::new(),
    })
    .ok()
    .unwrap();
    snapper.set_snap_mode(false);
    let q = at(10, 10);
    assert!(snapper.on_mouse_move(q, &Vec::new()));
    snapper.on_click();
    assert!(snapper.on_mouse_move(q, &vec![false]));
    snapper.on_click();
    assert_eq!(snapper.route.waypoints, vec![Waypoint::Free(q), Waypoint::Free(q)]);
    assert_eq!(snapper.mode, Mode::Freehand(q));
    // Two waypoints and no extending: the pointer leaves freehand mode
    snapper.set_snap_mode(true);
    assert!(snapper.on_mouse_move(at(500, 500), &vec![false, false]));
    assert_eq!(snapper.mode, Mode::Neutral);
    snapper.on_click();
    assert_eq!(snapper.route.waypoints, vec![Waypoint::Free(q), Waypoint::Free(q)]);
}

#[test]
fn freehand_points_break_the_line() {
    let mut snapper = new_snapper();
    set_extend(&mut snapper, true);
    must_mouseover_waypt(&mut snapper, WAYPT1);
    snapper.on_click();
    must_mouseover_waypt(&mut snapper, WAYPT2);
    snapper.on_click();
    snapper.toggle_snap_mode();
    assert!(!snapper.snap_mode);
    let free = at(2_500, 500);
    let near = near_flags(&snapper, free);
    assert!(snapper.on_mouse_move(free, &near));
    assert_eq!(snapper.mode, Mode::Freehand(free));
    assert_eq!(snapper.cursor(), "crosshair");
    snapper.on_click();
    assert_eq!(
        snapper.route.waypoints,
        vec![WAYPT1, WAYPT2, Waypoint::Free(free)]
    );
    let pieces = snapper.line_string_broken_down();
    assert_eq!(pieces.len(), 2);
    assert!(pieces[0].snapped);
    assert_eq!(pieces[0].points.len(), 3);
    assert!(!pieces[1].snapped);
    assert_eq!(pieces[1].points, vec![at(2_000, 0), free]);
    // Hovering the free waypoint finds it
    snapper.toggle_snap_mode();
    let near = near_flags(&snapper, free);
    snapper.on_mouse_move(free, &near);
    assert_eq!(snapper.mode, Mode::Hovering(Waypoint::Free(free)));
}

#[test]
fn toggle_snap_converts_hover_and_freehand() {
    let mut snapper = new_snapper();
    must_mouseover_waypt(&mut snapper, WAYPT1);
    // A new hovered node becomes a freehand point at its position
    snapper.toggle_snap_mode();
    assert_eq!(snapper.mode, Mode::Freehand(at(0, 0)));
    assert!(!snapper.snap_mode);
    // A freehand point snaps back to the nearest node
    snapper.toggle_snap_mode();
    assert_eq!(snapper.mode, Mode::Hovering(WAYPT1));
    assert!(snapper.snap_mode);
}

#[test]
fn toggle_snap_is_ignored_in_area_mode() {
    let mut snapper = new_snapper();
    snapper.set_area_mode();
    snapper.toggle_snap_mode();
    assert!(snapper.snap_mode);
}

#[test]
fn area_ignores_nodes_off_the_route() {
    let mut snapper = new_snapper();
    snapper.set_area_mode();
    for waypt in [WAYPT1, WAYPT2, WAYPT3] {
        must_mouseover_waypt(&mut snapper, waypt);
        snapper.on_click();
    }
    assert!(snapper.route.is_closed_area());
    optionally_mouseover_waypt(&mut snapper, WAYPT5);
    assert_eq!(snapper.mode, Mode::Neutral);
    let ring = snapper.into_polygon_area().unwrap();
    assert_eq!(ring.first(), ring.last());
}

#[test]
fn mouse_move_without_target_goes_neutral() {
    let mut snapper = JsRouteSnapper::new(RouteSnapperMap {
        nodes: Vec::new(),
        edges: Vec::new(),
        override_forward_costs: Vec::new(),
        override_backward_costs: Vec::new(),
    })
    .ok()
    .unwrap();
    assert!(!snapper.on_mouse_move(at(0, 0), &Vec::new()));
    assert_eq!(snapper.mode, Mode::Neutral);
    assert_eq!(snapper.cursor(), "inherit");
    assert_eq!(snapper.mouseover_node(at(0, 0)), None);
}

#[test]
fn entire_line_string_needs_two_points() {
    let mut snapper = new_snapper();
    assert_eq!(snapper.entire_line_string(), None);
    must_mouseover_waypt(&mut snapper, WAYPT1);
    snapper.on_click();
    assert_eq!(snapper.entire_line_string(), None);
    must_mouseover_waypt(&mut snapper, WAYPT2);
    snapper.on_click();
    let line = snapper.entire_line_string().unwrap();
    assert_eq!(line, vec![at(0, 0), at(1_000, 0), at(2_000, 0)]);
    assert_eq!(snapper.into_polygon_area(), None);
}

#[test]
fn drag_start_needs_a_point_on_the_route() {
    let mut snapper = new_snapper();
    must_mouseover_waypt(&mut snapper, WAYPT1);
    // Not on the route yet: the full path of a lone placed waypoint is empty
    assert!(!snapper.on_drag_start());
    snapper.on_click();
    assert!(!snapper.on_drag_start());
    assert!(!snapper.on_mouse_up());
}

#[test]
fn circles_cover_route_nodes_and_waypoints() {
    let mut snapper = new_snapper();
    set_extend(&mut snapper, true);
    for waypt in [WAYPT1, WAYPT2] {
        must_mouseover_waypt(&mut snapper, waypt);
        snapper.on_click();
    }
    // Still hovering the second waypoint
    let circles = snapper.render_circles();
    assert_eq!(circles.len(), 3);
    // The plain node first, then the waypoints in order of position
    assert_eq!(circles[0].style, CircleStyle::Node);
    assert_eq!(circles[0].pt, at(1_000, 0));
    assert_eq!(circles[0].named, None);
    assert_eq!(circles[1].style, CircleStyle::SnappedWaypoint);
    assert_eq!(circles[1].pt, at(0, 0));
    assert_eq!(circles[1].named, Some(WAYPT1));
    assert!(!circles[1].hovered);
    assert_eq!(circles[2].pt, at(2_000, 0));
    assert!(circles[2].hovered);
    assert_eq!(snapper.cursor(), "pointer");
}

#[test]
fn preview_follows_the_graph_to_a_new_node() {
    let mut snapper = new_snapper();
    set_extend(&mut snapper, true);
    must_mouseover_waypt(&mut snapper, WAYPT1);
    snapper.on_click();
    must_mouseover_waypt(&mut snapper, WAYPT2);
    let preview = snapper.preview_pieces();
    assert_eq!(preview.len(), 2);
    assert!(preview[0].snapped && preview[1].snapped);
    assert_eq!(preview[0].points, vec![at(0, 0), at(1_000, 0)]);
    assert_eq!(preview[1].points, vec![at(1_000, 0), at(2_000, 0)]);

    // A node that cannot be reached is previewed as a straight line
    let far = Waypoint::Snapped(NodeID(150));
    must_mouseover_waypt(&mut snapper, far);
    let preview = snapper.preview_pieces();
    assert_eq!(preview.len(), 1);
    assert!(!preview[0].snapped);
    assert_eq!(preview[0].points[0], at(0, 0));
}

#[test]
fn preview_of_freehand_point_is_straight() {
    let mut snapper = new_snapper();
    set_extend(&mut snapper, true);
    must_mouseover_waypt(&mut snapper, WAYPT1);
    snapper.on_click();
    snapper.set_snap_mode(false);
    let free = at(300, 300);
    let near = near_flags(&snapper, free);
    snapper.on_mouse_move(free, &near);
    let preview = snapper.preview_pieces();
    assert_eq!(preview.len(), 1);
    assert_eq!(preview[0].points, vec![at(0, 0), free]);
    assert!(!preview[0].snapped);
    assert!(snapper.render_circles().iter().any(|c| c.pt == free && c.hovered));
}
