//! Core of a grid-based tile-removal puzzle: a square board of cells, each
//! optionally holding a directional arrow, where an arrow may be removed only
//! while no other arrow stands between it and the board edge in its own
//! direction. The generator builds a randomized board that is proved solvable
//! by construction, and the removability oracle decides each requested
//! removal; the surrounding application supplies only cell coordinates and a
//! board size.

pub mod gamestate;
pub mod generator;
pub mod grid;
pub mod removal;
