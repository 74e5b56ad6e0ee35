//! A Tak engine on bitboards: positions, move validation, execution and undo, move
//! generation, end-of-game detection, position hashing and the textual move formats.

pub mod bits;
pub mod coverage;
pub mod fnv64;
pub mod game;
pub mod laws;
pub mod movegen;
pub mod playtak;
pub mod position;
pub mod ptn;
pub mod readback;
pub mod reversal;
pub mod roads;
pub mod tables;
pub mod text;
pub mod tokens;
pub mod tps;
