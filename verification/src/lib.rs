//! A sparse store keyed by 3D integer coordinates. Space is cut into 2x2x2
//! cubes; one index entry per cube leads to its leader node in a
//! generational arena, and the cube's other corners hang off the leader by
//! forward links, so that neighbours can be walked to without a lookup.

pub mod arena;
pub mod coord;
pub mod direction;
pub mod graphmat;
pub mod hops;
pub mod iterators;
pub mod laws;
pub mod layout;
pub mod model;
pub mod node;

pub use direction::Direction;
pub use graphmat::GraphMat;
pub use iterators::{GraphMatFreeIterator, GraphMatIterator};
