//! The value types of the game: players, pieces, squares, moves, reserves and outcomes.

use vstd::prelude::*;

pub use crate::bits::game::Game;

verus! {

/// One of the two sides.
#[derive(Debug, Clone, Copy, PartialEq, Eq, Hash, Structural)]
pub enum Player {
    White,
    Black,
}

impl Player {
    /// The other side.
    pub open spec fn other(self) -> Player {
        match self {
            Player::White => Player::Black,
            Player::Black => Player::White,
        }
    }

    /// The bit that stands for this player inside a stack word: 0 for White, 1 for Black.
    pub open spec fn bit(self) -> nat {
        match self {
            Player::White => 0,
            Player::Black => 1,
        }
    }

    #[inline]
    pub fn opponent(self) -> (r: Player)
        ensures
            r == self.other(),
    {
        match self {
            Player::White => Player::Black,
            Player::Black => Player::White,
        }
    }
}

/// The kind of a stone. Only the top stone of a stack has a kind other than `Flat`.
#[derive(Debug, Clone, Copy, PartialEq, Eq, Hash, Structural)]
pub enum Piece {
    Flat,
    Wall,
    Cap,
}

/// A direction on the board: `Up` is towards higher `y`, `Right` towards higher `x`.
#[derive(Debug, Clone, Copy, PartialEq, Eq, Hash, Structural)]
pub enum Dir {
    Up,
    Down,
    Left,
    Right,
}

impl Dir {
    /// The change of `x` for one step in this direction.
    pub open spec fn dx(self) -> int {
        match self {
            Dir::Left => -1,
            Dir::Right => 1,
            _ => 0,
        }
    }

    /// The change of `y` for one step in this direction.
    pub open spec fn dy(self) -> int {
        match self {
            Dir::Down => -1,
            Dir::Up => 1,
            _ => 0,
        }
    }
}

/// A square, by column `x` and row `y`, both counted from 0.
#[derive(Debug, Clone, Copy, PartialEq, Eq, Hash, Structural)]
pub struct Loc {
    pub x: u8,
    pub y: u8,
}

impl Loc {
    /// The square `dist` steps away, with coordinates that wrap around at 256.
    pub open spec fn offset_spec(self, dir: Dir, dist: u8) -> Loc {
        match dir {
            Dir::Up => Loc { x: self.x, y: vstd::wrapping::u8_specs::wrapping_add(self.y, dist) },
            Dir::Down => Loc { x: self.x, y: vstd::wrapping::u8_specs::wrapping_sub(self.y, dist) },
            Dir::Left => Loc { x: vstd::wrapping::u8_specs::wrapping_sub(self.x, dist), y: self.y },
            Dir::Right => Loc { x: vstd::wrapping::u8_specs::wrapping_add(self.x, dist), y: self.y },
        }
    }

    pub fn offset(self, dir: Dir, dist: u8) -> (r: Loc)
        ensures
            r == self.offset_spec(dir, dist),
            0 <= self.x + dir.dx() * dist < 256 && 0 <= self.y + dir.dy() * dist < 256 ==> r.x
                == self.x + dir.dx() * dist && r.y == self.y + dir.dy() * dist,
    {
        match dir {
            Dir::Up => Loc { x: self.x, y: self.y.wrapping_add(dist) },
            Dir::Down => Loc { x: self.x, y: self.y.wrapping_sub(dist) },
            Dir::Left => Loc { x: self.x.wrapping_sub(dist), y: self.y },
            Dir::Right => Loc { x: self.x.wrapping_add(dist), y: self.y },
        }
    }
}

/// The sum of the first `n` drop counts.
pub open spec fn drops_sum(drops: [u8; 7], n: nat) -> nat
    decreases n,
{
    if n == 0 || n > 7 {
        0
    } else {
        drops_sum(drops, (n - 1) as nat) + drops[n - 1] as nat
    }
}

/// The number of stones that a slide over `range` squares lifts: the sum of the drop
/// counts of the squares it covers, of which there are at most seven.
pub open spec fn lifted(range: u8, drops: [u8; 7]) -> nat {
    drops_sum(
        drops,
        if range <= 7 {
            range as nat
        } else {
            7
        },
    )
}

/// The sums of the drop counts grow with the number of squares.
pub proof fn lemma_sums_grow(drops: [u8; 7], a: nat, b: nat)
    requires
        a <= b <= 7,
    ensures
        drops_sum(drops, a) <= drops_sum(drops, b),
    decreases b - a,
{
    if a < b {
        lemma_sums_grow(drops, a, (b - 1) as nat);
    }
}

/// A move: a stone placed on a square, or a stack slid along a line.
///
/// `Move(origin, dir, range, drops, smashed)` carries stones from `origin` over `range`
/// squares; `drops[i]` of them are left on the square `i + 1` steps away. `smashed` is
/// written when the move is executed and read when it is undone.
#[derive(Debug, Clone, PartialEq, Hash)]
pub enum Move {
    Place(Loc, Piece),
    Move(Loc, Dir, u8, [u8; 7], bool),
}

impl Move {
    /// A slide covers at least one square and leaves at least one stone on each square
    /// it covers. A placement is always well formed.
    pub open spec fn well_formed(self) -> bool {
        match self {
            Move::Place(_, _) => true,
            Move::Move(_, _, range, drops, _) => range >= 1 && forall|i: int|
                0 <= i < 7 && i < range ==> #[trigger] drops[i] >= 1,
        }
    }

    /// The same move with its smash flag set to `flag`; a placement is left as it is.
    pub open spec fn with_smash(self, flag: bool) -> Move {
        match self {
            Move::Place(loc, piece) => Move::Place(loc, piece),
            Move::Move(origin, dir, range, drops, _) => Move::Move(origin, dir, range, drops, flag),
        }
    }

    /// Tells whether the move is well formed.
    pub fn is_well_formed(&self) -> (r: bool)
        ensures
            r == self.well_formed(),
    {
        match self {
            Move::Place(_, _) => true,
            Move::Move(_, _, range, drops, _) => *range >= 1 && drops_positive(*range, drops),
        }
    }
}

/// Tells whether each of the first `range` drop counts is at least 1.
fn drops_positive(range: u8, drops: &[u8; 7]) -> (r: bool)
    ensures
        r == forall|i: int| 0 <= i < 7 && i < range ==> #[trigger] drops[i] >= 1,
{
    let mut i: usize = 0;
    while i < 7 && i < range as usize
        invariant
            i <= 7,
            forall|j: int| 0 <= j < i ==> #[trigger] drops[j] >= 1,
        decreases 7 - i,
    {
        if drops[i] < 1 {
            return false;
        }
        i += 1;
    }
    true
}

/// The verdict on a move in a position.
#[derive(Debug, Clone, Copy, PartialEq, Eq, Structural)]
pub enum MoveValidity {
    Valid,
    InvalidSquare,
    SquareOccupied,
    DontControlStack,
    NotEnoughPieces,
    NeedCapToSmash,
    CapMustSmashAlone,
    SmashMustBeLast,
    CantMoveIntoCap,
    NotEnough(Piece),
    MustPlaceFlatFirstRound,
    EndOutOfBounds,
    CarryLimit,
}

/// The stones a player has not placed yet, as a pair of counts.
pub struct Pool {
    pub flats: nat,
    pub caps: nat,
}

impl Pool {
    /// The pool a player starts with on a board of `size` by `size` squares.
    pub open spec fn initial(size: nat) -> Pool {
        if size == 3 {
            Pool { flats: 10, caps: 0 }
        } else if size == 4 {
            Pool { flats: 15, caps: 0 }
        } else if size == 5 {
            Pool { flats: 21, caps: 1 }
        } else if size == 6 {
            Pool { flats: 30, caps: 1 }
        } else if size == 7 {
            Pool { flats: 40, caps: 2 }
        } else {
            Pool { flats: 50, caps: 2 }
        }
    }

    /// How many stones are left for a piece kind: capstones come from `caps`, flats and
    /// walls from `flats`.
    pub open spec fn count(self, p: Piece) -> nat {
        match p {
            Piece::Cap => self.caps,
            _ => self.flats,
        }
    }

    /// The pool with one more stone of kind `p`.
    pub open spec fn put(self, p: Piece) -> Pool {
        match p {
            Piece::Cap => Pool { flats: self.flats, caps: self.caps + 1 },
            _ => Pool { flats: self.flats + 1, caps: self.caps },
        }
    }

    /// The pool with one stone of kind `p` less.
    pub open spec fn take(self, p: Piece) -> Pool {
        match p {
            Piece::Cap => Pool { flats: self.flats, caps: (self.caps - 1) as nat },
            _ => Pool { flats: (self.flats - 1) as nat, caps: self.caps },
        }
    }

    /// All stones of the pool, of both kinds.
    pub open spec fn total(self) -> nat {
        self.flats + self.caps
    }

    pub open spec fn is_empty(self) -> bool {
        self.flats == 0 && self.caps == 0
    }
}

/// A player's remaining flats and capstones.
#[derive(Debug, Clone, Copy)]
pub struct Reserves {
    flats: u8,
    caps: u8,
}

impl View for Reserves {
    type V = Pool;

    closed spec fn view(&self) -> Pool {
        Pool { flats: self.flats as nat, caps: self.caps as nat }
    }
}

impl Reserves {
    /// The reserves for a board of the given size; `None` unless the size is 3 to 8.
    pub fn new(size: usize) -> (r: Option<Self>)
        ensures
            r is Some <==> 3 <= size <= 8,
            r is Some ==> r->0@ == Pool::initial(size as nat),
    {
        match size {
            3 => Some(Reserves { flats: 10, caps: 0 }),
            4 => Some(Reserves { flats: 15, caps: 0 }),
            5 => Some(Reserves { flats: 21, caps: 1 }),
            6 => Some(Reserves { flats: 30, caps: 1 }),
            7 => Some(Reserves { flats: 40, caps: 2 }),
            8 => Some(Reserves { flats: 50, caps: 2 }),
            _ => None,
        }
    }

    pub fn empty(&self) -> (r: bool)
        ensures
            r == self@.is_empty(),
    {
        self.flats == 0 && self.caps == 0
    }

    pub fn count(&self, p: Piece) -> (r: u8)
        ensures
            r == self@.count(p),
    {
        match p {
            Piece::Cap => self.caps,
            _ => self.flats,
        }
    }

    /// Puts one stone of kind `p` back.
    pub fn add(&mut self, p: Piece)
        requires
            old(self)@.count(p) < 255,
        ensures
            final(self)@ == old(self)@.put(p),
    {
        match p {
            Piece::Cap => self.caps += 1,
            _ => self.flats += 1,
        };
    }

    /// Takes one stone of kind `p` out.
    pub fn remove(&mut self, p: Piece)
        requires
            old(self)@.count(p) > 0,
        ensures
            final(self)@ == old(self)@.take(p),
    {
        match p {
            Piece::Cap => self.caps -= 1,
            _ => self.flats -= 1,
        };
    }
}

/// How a game ended.
#[derive(Debug, Clone, Copy, PartialEq, Eq, Structural)]
pub enum Winner {
    Road(Player),
    Flat(Player),
    /// A win by forfeit or on time.
    Other(Player),
    Draw,
}

/// A fresh game on a board of `size` by `size` squares; `None` unless the size is 3 to 8.
pub fn new(size: usize) -> (r: Option<Game>)
    ensures
        r is Some <==> 3 <= size <= 8,
        r is Some ==> r->0.wf() && r->0@ == crate::position::Position::initial(size as nat),
{
    Game::new(size)
}

} // verus!
