//! A verified quadtree spatial index over exact integer coordinates.
//!
//! The index accelerates proximity and collision queries among many
//! variably-shaped entities: adaptive subdivision, insertion (single and
//! batch), removal with eager merging, query-by-region, nearest-neighbour
//! lookup, and all-pairs intersection detection, together with the shape
//! geometry layer (axis-aligned rectangles, circles and capsules with their
//! pairwise intersection predicates and bounding boxes).

pub mod geom;
pub mod laws;
pub mod quad_val;
pub mod quadtree;
pub mod state;
