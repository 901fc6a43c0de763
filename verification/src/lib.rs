//! A collection of different maze generation algorithms.
//!
//! Four interchangeable algorithms (recursive backtracking, Eller's algorithm,
//! Prim's algorithm and a parameterized growing-tree family) build a spanning
//! structure over a rectangular grid of cells.  The result is exposed as an
//! immutable [`maze::Maze`] that answers field queries through a narrow
//! read-only interface.

pub mod coordinates;
pub mod direction;
pub mod field;
pub mod rng;
pub mod graph;
pub mod connectivity;
pub mod maze;
pub mod generator;
pub mod recursive_backtracking;
pub mod prims_algorithm;
pub mod growing_tree;
pub mod ellers_algorithm;
pub mod svgoptions;

pub use coordinates::Coordinates;
pub use direction::Direction;
pub use field::{Field, FieldType};
pub use maze::Maze;
pub use generator::{Generator, GenericGeneratorError};
pub use svgoptions::SvgOptions;
pub use ellers_algorithm::EllersGenerator;
pub use growing_tree::{GrowingTreeGenerator, GrowingTreeSelectionMethod};
pub use prims_algorithm::PrimsGenerator;
pub use recursive_backtracking::RbGenerator;
pub use rng::MazeRng;
