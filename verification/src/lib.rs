//! Incremental wave-function-collapse generation of an unbounded 2-D tile
//! grid around a moving observer.
//!
//! Cells start with every tile type as a candidate; adjacency rules prune
//! candidates as neighbors become fixed, and the cell with the fewest
//! remaining candidates is resolved first by a weighted random draw.

pub mod catalogs;
pub mod cell;
pub mod collapse;
pub mod engine;
pub mod generation;
pub mod propagate;
pub mod rules;
pub mod seq_facts;
pub mod spatial;
pub mod streaming;
pub mod tiles;

pub use tiles::Chest;
pub use tiles::Direction;
pub use tiles::Ground;
pub use tiles::TileType;
pub use tiles::Tree;
pub use tiles::get_opposite_direction;
