//! Bit-level building blocks: stack words, bitboards and the facts about them that the
//! engine's proofs rest on.

use vstd::prelude::*;

use crate::game::Player;

pub mod board;
pub mod game;
pub mod play;
pub mod stack;

pub use self::game::Game;
pub use self::stack::{Stack, StackIter};

verus! {

/// The word that holds a stack's owners, one bit per stone.
pub type StackRepr = u128;

/// The bit of a player inside a stack word.
pub fn binary(p: Player) -> (r: StackRepr)
    ensures
        r == p.bit(),
{
    match p {
        Player::White => 0,
        Player::Black => 1,
    }
}

/// The player that a bit of a stack word stands for.
pub open spec fn player_of(bin: StackRepr) -> Player {
    if bin == 0 {
        Player::White
    } else {
        Player::Black
    }
}

pub fn from_binary(bin: StackRepr) -> (r: Player)
    ensures
        r == player_of(bin),
{
    match bin {
        0 => Player::White,
        _ => Player::Black,
    }
}

} // verus!
