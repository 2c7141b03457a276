//! Obstacle-aware path hulls: for each leg of a waypoint path, grows a convex
//! boundary around the obstacle polygons that the leg must clear.
//!
//! All coordinates are exact integer grid coordinates, so every geometric
//! predicate (orientation, intersection, distance comparison) is exact.

pub mod coord;
pub mod error;
pub mod hull;
pub mod leg;
pub mod orientation;
pub mod planner;
pub mod polygon;
pub mod quickhull;
pub mod segment;
