//! Route search through a cubic cost grid, and one-hot QUBO selection among
//! alternative routes through a window of a path.

pub mod walk;
pub mod grid;
pub mod search;
pub mod enumerate;
pub mod qubo;
pub mod refine;
pub mod plan;

pub use enumerate::enumerate_paths;
