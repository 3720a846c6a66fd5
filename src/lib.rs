//! An interactive route snapper: draws routes and closed areas along a road
//! network, snapping waypoints to graph nodes and expanding the path between
//! them with shortest-path searches.
//!
//! Coordinates are fixed-point micro-degrees (one millionth of a degree), which
//! is also how the serialized map stores them. Lengths are whole millimetres.
pub mod graph;
pub mod route;
pub mod router;
pub mod snap;
pub mod snapper;
pub mod line;
pub mod names;
pub mod render;
