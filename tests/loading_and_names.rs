use route_snapper::graph::{Coord, Edge, MapError, NodeID, RouteSnapperMap};
use route_snapper::names::plain_list_names;
use route_snapper::route::Waypoint;
use route_snapper::router::Config;
use route_snapper::snapper::{JsRouteSnapper, RouteWaypoint, SnapError};

fn c(x: i32, y: i32) -> Coord {
    Coord { x, y }
}

fn edge(n1: u32, n2: u32, a: Coord, b: Coord, name: Option<&str>, len: u32) -> Edge {
    Edge {
        node1: NodeID(n1),
        node2: NodeID(n2),
        geometry: vec![a, b],
        name: name.map(|s| s.to_string()),
        length_mm: len,
        forward_cost: None,
        backward_cost: None,
    }
}

// A cross: node 0 in the middle, nodes 1 to 4 around it.
fn cross_map() -> RouteSnapperMap {
    let nodes = vec![c(0, 0), c(-1000, 0), c(1000, 0), c(0, 1000), c(0, -1000)];
    let edges = vec![
        edge(0, 1, nodes[0], nodes[1], Some("West Street"), 1000),
        edge(0, 2, nodes[0], nodes[2], Some("East Street"), 1000),
        edge(0, 3, nodes[0], nodes[3], Some("North Road"), 1000),
        edge(0, 4, nodes[0], nodes[4], None, 1000),
    ];
    RouteSnapperMap {
        nodes,
        edges,
        override_forward_costs: Vec::new(),
        override_backward_costs: Vec::new(),
    }
}

fn names(list: &[&str]) -> Vec<String> {
    list.iter().map(|s| s.to_string()).collect()
}

#[test]
fn plain_list_names_in_words() {
    assert_eq!(plain_list_names(&names(&[])), "");
    assert_eq!(plain_list_names(&names(&["A"])), "A");
    assert_eq!(plain_list_names(&names(&["A", "B"])), "A and B");
    assert_eq!(plain_list_names(&names(&["A", "B", "C"])), "A, B, and C");
    assert_eq!(
        plain_list_names(&names(&["A", "B", "C", "D"])),
        "A, B, C, and D"
    );
}

#[test]
fn waypoint_names_are_sorted_road_names() {
    let snapper = JsRouteSnapper::new(cross_map()).ok().unwrap();
    assert_eq!(
        snapper.name_waypoint(&Waypoint::Snapped(NodeID(0))),
        "East Street, North Road, and West Street"
    );
    assert_eq!(snapper.name_waypoint(&Waypoint::Snapped(NodeID(1))), "West Street");
    // Unnamed roads give no name
    assert_eq!(snapper.name_waypoint(&Waypoint::Snapped(NodeID(4))), "???");
    assert_eq!(snapper.name_waypoint(&Waypoint::Free(c(5, 5))), "???");
}

#[test]
fn repeated_road_names_appear_once() {
    let mut map = cross_map();
    map.edges[1].name = Some("West Street".to_string());
    let snapper = JsRouteSnapper::new(map).ok().unwrap();
    assert_eq!(
        snapper.name_waypoint(&Waypoint::Snapped(NodeID(0))),
        "North Road and West Street"
    );
}

#[test]
fn route_names_from_records() {
    let snapper = JsRouteSnapper::new(cross_map()).ok().unwrap();
    let records = vec![
        RouteWaypoint {
            lon: -990,
            lat: 10,
            snapped: true,
        },
        RouteWaypoint {
            lon: 500,
            lat: 500,
            snapped: false,
        },
        RouteWaypoint {
            lon: 1010,
            lat: -5,
            snapped: true,
        },
    ];
    assert_eq!(
        snapper.route_name_for_waypoints(&records),
        Ok("Route from West Street to East Street".to_string())
    );
    let free_only = vec![RouteWaypoint {
        lon: 1,
        lat: 2,
        snapped: false,
    }];
    assert_eq!(
        snapper.route_name_for_waypoints(&free_only),
        Ok("Route from ??? to ???".to_string())
    );
}

#[test]
fn route_name_of_current_route() {
    let mut snapper = JsRouteSnapper::new(cross_map()).ok().unwrap();
    snapper.add_snapped_waypoint(c(-1000, 0));
    snapper.add_snapped_waypoint(c(0, 990));
    assert_eq!(
        snapper.route_name_of_waypoints(),
        "Route from West Street to North Road"
    );
}

#[test]
fn edit_existing_round_trip() {
    let mut snapper = JsRouteSnapper::new(cross_map()).ok().unwrap();
    snapper.set_route_config(Config {
        avoid_doubling_back: false,
        extend_route: true,
        area_mode: false,
    });
    snapper.add_snapped_waypoint(c(-1000, 0));
    snapper.add_snapped_waypoint(c(1000, 0));
    snapper.toggle_snap_mode();
    let free = c(1500, 300);
    snapper.on_mouse_move(free, &vec![false, false]);
    snapper.on_click();
    let before = snapper.route.waypoints.clone();
    assert_eq!(before.len(), 3);
    let records = snapper.route_waypoints();
    assert_eq!(
        records[2],
        RouteWaypoint {
            lon: 1500,
            lat: 300,
            snapped: false
        }
    );
    assert_eq!(records[0].lon, -1000);
    assert!(records[0].snapped);

    assert_eq!(snapper.edit_existing(&records), Ok(()));
    assert_eq!(snapper.route.waypoints, before);
    assert_eq!(snapper.undo_length(), 0);
    assert!(snapper.snap_mode);
}

#[test]
fn edit_existing_fails_to_snap_without_nodes() {
    let mut snapper = JsRouteSnapper::new(RouteSnapperMap {
        nodes: Vec::new(),
        edges: Vec::new(),
        override_forward_costs: Vec::new(),
        override_backward_costs: Vec::new(),
    })
    .ok()
    .unwrap();
    let records = vec![
        RouteWaypoint {
            lon: 1,
            lat: 1,
            snapped: false,
        },
        RouteWaypoint {
            lon: 2,
            lat: 2,
            snapped: true,
        },
    ];
    assert_eq!(snapper.edit_existing(&records), Err(SnapError::SnapFailed));
    assert_eq!(SnapError::SnapFailed.message(), "A waypoint didn't snap");
    assert_eq!(
        snapper.route_name_for_waypoints(&records),
        Err(SnapError::SnapFailed)
    );
}

#[test]
fn override_costs_must_match_edges() {
    let mut map = cross_map();
    map.override_forward_costs = vec![Some(1), None];
    match JsRouteSnapper::new(map) {
        Err(e) => assert_eq!(e, MapError::LengthMismatch),
        Ok(_) => panic!("expected a mismatch"),
    }
    assert_eq!(
        MapError::LengthMismatch.message(),
        "override costs don't match the number of edges"
    );
}

#[test]
fn edges_must_name_existing_nodes() {
    let mut map = cross_map();
    map.edges[0].node2 = NodeID(9);
    match JsRouteSnapper::new(map) {
        Err(e) => assert_eq!(e, MapError::BadBlob),
        Ok(_) => panic!("expected a bad blob"),
    }
    assert_eq!(MapError::BadBlob.message(), "bad map blob");
}

#[test]
fn costs_default_to_lengths() {
    let mut map = cross_map();
    assert_eq!(map.finalize(), Ok(()));
    assert_eq!(map.edges[0].forward_cost, Some(1000));
    assert_eq!(map.edges[0].backward_cost, Some(1000));
}

#[test]
fn overridden_costs_and_one_way_edges() {
    let mut map = cross_map();
    map.override_forward_costs = vec![Some(7), Some(8), Some(9), Some(10)];
    map.override_backward_costs = vec![None, Some(1), Some(2), Some(3)];
    assert_eq!(map.finalize(), Ok(()));
    assert_eq!(map.edges[0].forward_cost, Some(7));
    assert_eq!(map.edges[0].backward_cost, None);

    // Edge 0 runs from node 0 to node 1 only: the way back goes around.
    let mut map = cross_map();
    map.override_forward_costs = vec![Some(1), Some(1), Some(1), Some(1)];
    map.override_backward_costs = vec![None, Some(1), Some(1), Some(1)];
    let mut snapper = JsRouteSnapper::new(map).ok().unwrap();
    snapper.set_route_config(Config {
        avoid_doubling_back: false,
        extend_route: true,
        area_mode: false,
    });
    snapper.add_snapped_waypoint(c(-1000, 0));
    snapper.add_snapped_waypoint(c(0, 0));
    // Node 1 cannot reach node 0, so the route runs straight between them
    assert_eq!(snapper.route.full_path.len(), 2);
    assert_eq!(snapper.mouseover_node(c(-900, 10)), Some(NodeID(1)));
}

#[test]
fn doubling_back_is_avoided_when_asked() {
    // A square 0-1-2-3 with a spur 1-4; going 0 -> 4 -> 2 doubles back on
    // the spur, and a second route around the square is also possible.
    let nodes = vec![c(0, 0), c(1000, 0), c(1000, 1000), c(0, 1000), c(2000, 0)];
    let edges = vec![
        edge(0, 1, nodes[0], nodes[1], None, 1000),
        edge(1, 2, nodes[1], nodes[2], None, 1000),
        edge(2, 3, nodes[2], nodes[3], None, 1000),
        edge(3, 0, nodes[3], nodes[0], None, 1000),
        edge(1, 4, nodes[1], nodes[4], None, 1000),
        edge(4, 2, nodes[4], nodes[2], None, 2500),
    ];
    let map = RouteSnapperMap {
        nodes,
        edges,
        override_forward_costs: Vec::new(),
        override_backward_costs: Vec::new(),
    };
    let mut snapper = JsRouteSnapper::new(map).ok().unwrap();
    snapper.set_route_config(Config {
        avoid_doubling_back: false,
        extend_route: true,
        area_mode: false,
    });
    snapper.add_snapped_waypoint(c(0, 0));
    snapper.add_snapped_waypoint(c(2000, 0));
    snapper.add_snapped_waypoint(c(1000, 1000));
    // Without avoidance the way back from 4 to 2 reuses edge 4 (1-4): cost 2000 < 2500
    let used: Vec<u32> = snapper
        .route
        .full_path
        .iter()
        .filter_map(|e| match e {
            route_snapper::route::PathEntry::Edge(de) => Some(de.edge.0),
            _ => None,
        })
        .collect();
    assert_eq!(used, vec![0, 4, 4, 1]);

    snapper.set_route_config(Config {
        avoid_doubling_back: true,
        extend_route: true,
        area_mode: false,
    });
    let used: Vec<u32> = snapper
        .route
        .full_path
        .iter()
        .filter_map(|e| match e {
            route_snapper::route::PathEntry::Edge(de) => Some(de.edge.0),
            _ => None,
        })
        .collect();
    // Doubled, going back over edges 4 and 1 would cost 2000 + 1000 > 2500
    assert_eq!(used, vec![0, 4, 5]);
    assert_eq!(snapper.get_config().avoid_doubling_back, true);
}
