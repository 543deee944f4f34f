//! Backgammon rules and legal move generation, and the one-sided bearoff database's
//! position index, quantization and file format.

pub mod combinatorial;
pub mod disk;
pub mod moves;
pub mod one_sided;
pub mod position;
pub mod quantize;

pub use moves::{CheckerMove, Destination, Die, Origin, Ply, PointIndex, Roll};
pub use position::{Position, PositionError};
