//! Walking reachability and routing over a street network.
//!
//! The network is a graph of intersections joined by roads. Every road has a
//! length, from which its walking cost follows, and carries the amenities that
//! lie nearest to it. Two questions are answered over an assembled graph: which
//! amenities a group of people can each reach within their own time budget, and
//! along which roads a person walks to a given intersection.
//!
//! Coordinates never enter this crate. Whoever assembles a graph measures the
//! roads and finds the road nearest to each amenity, and hands over lengths in
//! millimetres and identifiers.

pub mod ids;
pub mod tags;
pub mod amenity;
pub mod graph;
pub mod queue;
pub mod search;
pub mod find;
pub mod scrape;
pub mod hierarchy;
pub mod nodes;
pub mod route;
pub mod model;
