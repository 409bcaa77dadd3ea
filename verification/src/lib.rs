//! The combinatorial core of a straight-skeleton polygon buffering engine.
//!
//! A wavefront moves away from the edges of a set of polygons at unit speed.
//! Its vertices live in a circular, doubly linked
//! [`vertex_queue::VertexQueue`]. The events that reshape it, two neighbours
//! that meet or a vertex that strikes an edge, wait in a
//! [`priority_queue::PriorityQueue`] and are fired by a
//! [`wavefront::Wavefront`]. The trajectories that the vertices sweep out
//! form the forest kept by a [`skeleton::Skeleton`], from which the
//! wavefront of any moment can be read back.
//!
//! Every quantity that is measured (a time, a distance, a coordinate) enters
//! this crate as a key: an integer that orders as the quantity does, with one
//! key for quantities that are to count as equal. Each decision that the
//! engine takes is thus a function of integers alone.
pub mod at_rest;
pub mod bones;
pub mod event;
pub mod priority_queue;
pub mod reconstruction;
pub mod schedule;
pub mod skeleton;
pub mod vertex_queue;
pub mod wavefront;
