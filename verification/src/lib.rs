//! A region quadtree: an index of points in the plane that splits a square
//! into four quadrants wherever more points gather than one leaf may hold.
//!
//! A tree is built over an [`AABB`] with [`QuadTree::new`] and filled with
//! [`QuadTree::insert`]. Coordinates are integers of any type that is a
//! [`QTNumber`]; the stored values are of any type that is a [`Point`].
//!
//! What the functions promise is stated over a mathematical picture of the
//! data: a square is a [`aabb::Region`] of the integer plane and a tree is a
//! [`model::Tree`]. The module `laws` holds what follows for every tree.
//!
//! Halving an odd side rounds down, so the quadrants of such a square stop
//! one unit short of its far edges. A point in that gap can be inserted into
//! no child, and more than `cutoff` points at one position can never be told
//! apart by splitting: [`QuadTree::admits`] says whether a point can be
//! taken, and [`QuadTree::try_insert`] inserts only where it can.

pub mod aabb;
pub mod cardinal;
pub mod laws;
pub mod lemmas;
pub mod model;
pub mod number;
pub mod point;
pub mod tree;

pub use crate::aabb::AABB;
pub use crate::cardinal::Cardinal;
pub use crate::cardinal::Quadrant;
pub use crate::number::QTNumber;
pub use crate::point::Point;
pub use crate::tree::QuadTree;
