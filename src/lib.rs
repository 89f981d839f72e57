//! k-nearest-neighbour classification over scored training points.
//!
//! Each training point reaches the library with its dimension, its distance to
//! the query as an unsigned key whose order is the order of the distances, and
//! its label, a free-form string. The library selects the nearest points (ties
//! keep training order) and takes a majority vote over their labels (ties go
//! to the label of the nearer point).
pub mod neighbors;
pub mod vote;
pub mod classify;
pub mod laws;
