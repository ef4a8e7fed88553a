//! Applies the editing intents of a road-network planner to a snapshot of
//! the plan: drawing and continuing roads, selecting ranges of lanes,
//! moving, deleting and duplicating them. The library is generic over the
//! geometry of points, paths and arc lengths, which it consumes through the
//! `geometry::Geometry` trait.

pub mod geometry;
pub mod model;
pub mod continuation;
pub mod move_selection;
pub mod selection;
pub mod edit;
pub mod intent;
