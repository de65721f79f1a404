//! Lazy discovery of a grid graph through a neighbor oracle, with
//! minimal-turn-count relaxation over the discovered cells.
//!
//! The oracle itself (a remote service reached over a socket) is not part of
//! this crate's verified surface: callers query it and hand the parsed
//! answers to [`maze::Maze::pop_queue_front_field`] as plain values.

pub mod laws;
pub mod maze;

pub use maze::Direction;
pub use maze::FieldState;
pub use maze::Maze;
pub use maze::MazeField;
pub use maze::NeighborReport;
pub use maze::Point;
