//! The mathematical model of a position and the rules of the game stated over it.
//!
//! A position is the board as a sequence of squares in row-major order, each square a
//! stack of owners (bottom stone first) and the kind of its top stone, together with the
//! round, the side to move and both players' pools. Everything the engine computes is
//! specified here as a function of that model.

use vstd::prelude::*;

use crate::bits::stack::stack_bytes;
use crate::fnv64::{absorb, le_bytes, mix, BASE};
use crate::game::{lifted, Dir, Loc, Move, MoveValidity, Piece, Player, Pool};

verus! {

/// One square of the board.
pub struct Square {
    /// The owners of the stones, bottom stone first.
    pub stack: Seq<Player>,
    /// The kind of the top stone; `Flat` on an empty square.
    pub top: Piece,
}

impl Square {
    pub open spec fn vacant() -> Square {
        Square { stack: Seq::empty(), top: Piece::Flat }
    }

    pub open spec fn is_empty(self) -> bool {
        self.stack.len() == 0
    }

    pub open spec fn height(self) -> nat {
        self.stack.len()
    }

    /// The owner of the top stone.
    pub open spec fn owner(self) -> Player {
        self.stack.last()
    }

    /// The square holds stones and the top one belongs to `p`.
    pub open spec fn owned_by(self, p: Player) -> bool {
        !self.is_empty() && self.owner() == p
    }
}

/// The number of stones on the first `k` squares.
pub open spec fn stones(squares: Seq<Square>, k: nat) -> nat
    decreases k,
{
    if k == 0 {
        0
    } else {
        stones(squares, (k - 1) as nat) + squares[k - 1].height()
    }
}

/// What square `i` contributes to the board hash: its seed with the stack mixed in.
pub open spec fn square_hash(stack: Seq<Player>, i: int) -> u64 {
    absorb(BASE[i], stack_bytes(stack))
}

/// The xor of the contributions of the first `k` squares.
pub open spec fn board_hash(squares: Seq<Square>, k: nat) -> u64
    decreases k,
{
    if k == 0 {
        0
    } else {
        board_hash(squares, (k - 1) as nat) ^ square_hash(squares[k - 1].stack, k - 1)
    }
}

/// The bitboard of the squares among the first `k` whose top stone is of kind `piece`:
/// bit `i` stands for square `i`.
pub open spec fn kind_mask(squares: Seq<Square>, piece: Piece, k: nat) -> u64
    decreases k,
{
    if k == 0 {
        0
    } else {
        let below = kind_mask(squares, piece, (k - 1) as nat);
        if squares[k - 1].top == piece {
            below | (1u64 << ((k - 1) as u64))
        } else {
            below
        }
    }
}

/// A position of the game.
pub struct Position {
    /// The board has `size` by `size` squares.
    pub size: nat,
    /// The round, counted from 1; a round is one move of each player.
    pub round: nat,
    /// The side to move.
    pub player: Player,
    pub white: Pool,
    pub black: Pool,
    /// The squares by index `x + size * y`.
    pub squares: Seq<Square>,
}

impl Position {
    pub open spec fn area(self) -> nat {
        self.size * self.size
    }

    pub open spec fn on_board(self, x: int, y: int) -> bool {
        0 <= x < self.size && 0 <= y < self.size
    }

    pub open spec fn index(self, x: int, y: int) -> int {
        x + self.size * y
    }

    pub open spec fn holds(self, loc: Loc) -> bool {
        self.on_board(loc.x as int, loc.y as int)
    }

    pub open spec fn index_of(self, loc: Loc) -> int {
        self.index(loc.x as int, loc.y as int)
    }

    pub open spec fn at(self, loc: Loc) -> Square {
        self.squares[self.index_of(loc)]
    }

    /// Whether the square `k` steps from `origin` in direction `dir` is on the board.
    pub open spec fn step_holds(self, origin: Loc, dir: Dir, k: int) -> bool {
        self.on_board(origin.x + dir.dx() * k, origin.y + dir.dy() * k)
    }

    /// The index of the square `k` steps from `origin` in direction `dir`.
    pub open spec fn step_index(self, origin: Loc, dir: Dir, k: int) -> int {
        self.index(origin.x + dir.dx() * k, origin.y + dir.dy() * k)
    }

    pub open spec fn pool(self, p: Player) -> Pool {
        match p {
            Player::White => self.white,
            Player::Black => self.black,
        }
    }

    pub open spec fn with_pool(self, p: Player, pool: Pool) -> Position {
        match p {
            Player::White => Position { white: pool, ..self },
            Player::Black => Position { black: pool, ..self },
        }
    }

    /// The position a game starts from: an empty board, White to move in round 1.
    pub open spec fn initial(size: nat) -> Position {
        Position {
            size,
            round: 1,
            player: Player::White,
            white: Pool::initial(size),
            black: Pool::initial(size),
            squares: Seq::new(size * size, |i: int| Square::vacant()),
        }
    }

    /// In round 1 each move puts down one flat of the opponent: White's pool is untouched,
    /// and Black's lacks one flat once White has moved.
    pub open spec fn opening_ok(self) -> bool {
        self.round == 1 ==> {
            &&& self.white == Pool::initial(self.size)
            &&& self.black == if self.player == Player::White {
                Pool::initial(self.size)
            } else {
                Pool::initial(self.size).take(Piece::Flat)
            }
        }
    }

    /// Every stone is either on the board or in a pool, and the pools of round 1 are those
    /// of an opening.
    pub open spec fn counts_ok(self) -> bool {
        &&& stones(self.squares, self.area()) + self.white.total() + self.black.total() == 2
            * Pool::initial(self.size).total()
        &&& self.opening_ok()
    }

    /// What holds of every position of a game: the board has the right shape, an empty
    /// square has no wall or capstone, and the stones are accounted for.
    pub open spec fn wf(self) -> bool {
        &&& 3 <= self.size <= 8
        &&& self.round >= 1
        &&& self.squares.len() == self.area()
        &&& forall|i: int|
            0 <= i < self.area() ==> (#[trigger] self.squares[i]).is_empty() ==> self.squares[i].top
                == Piece::Flat
        &&& self.counts_ok()
    }

    // ----- validation -----

    /// The verdict on a move: the first rule it breaks, in the order of the checks, or
    /// `Valid`. A slide of the mover's own stack that lifts more stones than the board is
    /// wide breaks the carry limit, wherever it leads and however high the stack is.
    pub open spec fn validate(self, m: Move) -> MoveValidity {
        match m {
            Move::Place(loc, piece) => {
                if !self.holds(loc) {
                    MoveValidity::InvalidSquare
                } else if !self.at(loc).is_empty() {
                    MoveValidity::SquareOccupied
                } else if self.pool(self.player).count(piece) == 0 {
                    MoveValidity::NotEnough(piece)
                } else if self.round == 1 && piece != Piece::Flat {
                    MoveValidity::MustPlaceFlatFirstRound
                } else {
                    MoveValidity::Valid
                }
            },
            Move::Move(origin, dir, range, drops, _) => {
                if !self.holds(origin) {
                    MoveValidity::InvalidSquare
                } else if self.round == 1 {
                    MoveValidity::MustPlaceFlatFirstRound
                } else if self.at(origin).is_empty() {
                    MoveValidity::DontControlStack
                } else if self.at(origin).owner() == self.player && lifted(range, drops)
                    > self.size {
                    MoveValidity::CarryLimit
                } else if !self.step_holds(origin, dir, range as int) {
                    MoveValidity::EndOutOfBounds
                } else if self.at(origin).owner() != self.player {
                    MoveValidity::DontControlStack
                } else {
                    self.validate_steps(origin, dir, range, drops, 1, 0)
                }
            },
        }
    }

    /// The verdict on the steps `i..=range` of a slide, `moved` stones having been dropped
    /// on the steps before `i`.
    pub open spec fn validate_steps(
        self,
        origin: Loc,
        dir: Dir,
        range: u8,
        drops: [u8; 7],
        i: nat,
        moved: nat,
    ) -> MoveValidity
        decreases range + 1 - i,
    {
        if i > range || i > 7 {
            MoveValidity::Valid
        } else {
            let sq = self.squares[self.step_index(origin, dir, i as int)];
            let drop = drops[i - 1];
            let total = moved + drop as nat;
            if !sq.is_empty() && sq.top == Piece::Cap {
                MoveValidity::CantMoveIntoCap
            } else if !sq.is_empty() && sq.top == Piece::Wall && self.at(origin).top != Piece::Cap {
                MoveValidity::NeedCapToSmash
            } else if !sq.is_empty() && sq.top == Piece::Wall && drop != 1 {
                MoveValidity::CapMustSmashAlone
            } else if !sq.is_empty() && sq.top == Piece::Wall && i != range {
                MoveValidity::SmashMustBeLast
            } else if total > self.at(origin).height() {
                MoveValidity::NotEnoughPieces
            } else {
                self.validate_steps(origin, dir, range, drops, i + 1, total)
            }
        }
    }

    // ----- execution -----

    /// Whose stone a placement puts down: the opponent's in round 1, the mover's after.
    pub open spec fn placing_owner(self) -> Player {
        if self.round == 1 {
            self.player.other()
        } else {
            self.player
        }
    }

    /// The turn passes; a new round starts when it passes to White.
    pub open spec fn advance(self) -> Position {
        Position {
            player: self.player.other(),
            round: if self.player == Player::Black {
                self.round + 1
            } else {
                self.round
            },
            ..self
        }
    }

    /// The board after a stone of kind `piece` went from its owner's pool onto `loc`.
    pub open spec fn place(self, loc: Loc, piece: Piece) -> Position {
        let owner = self.placing_owner();
        let i = self.index_of(loc);
        let sq = Square { stack: self.squares[i].stack.push(owner), top: piece };
        Position { squares: self.squares.update(i, sq), ..self }.with_pool(
            owner,
            self.pool(owner).take(piece),
        )
    }

    /// The board after the top `n` stones of square `from` went onto square `to`, in the
    /// same order. Both squares are left with a flat on top.
    pub open spec fn transfer(self, from: int, to: int, n: nat) -> Position {
        let src = self.squares[from].stack;
        let dst = self.squares[to].stack;
        let keep = src.len() - n;
        Position {
            squares: self.squares.update(
                from,
                Square { stack: src.take(keep), top: Piece::Flat },
            ).update(to, Square { stack: dst + src.skip(keep), top: Piece::Flat }),
            ..self
        }
    }

    pub open spec fn set_top(self, i: int, piece: Piece) -> Position {
        Position {
            squares: self.squares.update(i, Square { stack: self.squares[i].stack, top: piece }),
            ..self
        }
    }

    /// The board after the drops on the steps `i`, `i - 1`, ..., 1 of a slide, made in that
    /// order: each takes `drops[k - 1]` stones off the top of the origin.
    pub open spec fn spread(self, origin: Loc, dir: Dir, drops: [u8; 7], i: nat) -> Position
        decreases i,
    {
        if i == 0 {
            self
        } else {
            self.transfer(
                self.index_of(origin),
                self.step_index(origin, dir, i as int),
                drops[i - 1] as nat,
            ).spread(origin, dir, drops, (i - 1) as nat)
        }
    }

    /// The board after a slide: the stones are spread, and the origin's top stone, which
    /// ends on the last square, keeps its kind.
    pub open spec fn slide(self, origin: Loc, dir: Dir, range: u8, drops: [u8; 7]) -> Position {
        self.spread(origin, dir, drops, range as nat).set_top(
            self.step_index(origin, dir, range as int),
            self.at(origin).top,
        )
    }

    /// The position after a valid move.
    pub open spec fn execute(self, m: Move) -> Position {
        match m {
            Move::Place(loc, piece) => self.place(loc, piece).advance(),
            Move::Move(origin, dir, range, drops, _) => self.slide(origin, dir, range, drops).advance(),
        }
    }

    /// Whether the move flattens a wall: a slide does when its last square has a wall on
    /// top.
    pub open spec fn smashes(self, m: Move) -> bool {
        match m {
            Move::Place(_, _) => false,
            Move::Move(origin, dir, range, _, _) => {
                let end = self.squares[self.step_index(origin, dir, range as int)];
                !end.is_empty() && end.top == Piece::Wall
            },
        }
    }

    // ----- undo -----

    /// The turn goes back; the round goes back with it when it goes back from White.
    pub open spec fn retreat(self) -> Position {
        Position {
            player: self.player.other(),
            round: if self.player == Player::White {
                (self.round - 1) as nat
            } else {
                self.round
            },
            ..self
        }
    }

    /// The board after the stone on `loc` went back to its owner's pool.
    pub open spec fn unplace(self, loc: Loc, piece: Piece) -> Position {
        let owner = self.placing_owner();
        let i = self.index_of(loc);
        let sq = Square { stack: self.squares[i].stack.drop_last(), top: Piece::Flat };
        Position { squares: self.squares.update(i, sq), ..self }.with_pool(
            owner,
            self.pool(owner).put(piece),
        )
    }

    /// The board after the drops on the steps `i`, `i + 1`, ..., `range` of a slide were
    /// taken back in that order: each puts `drops[k - 1]` stones back on the origin.
    pub open spec fn gather(
        self,
        origin: Loc,
        dir: Dir,
        drops: [u8; 7],
        i: nat,
        range: nat,
    ) -> Position
        decreases range + 1 - i,
    {
        if i > range {
            self
        } else {
            self.transfer(
                self.step_index(origin, dir, i as int),
                self.index_of(origin),
                drops[i - 1] as nat,
            ).gather(origin, dir, drops, i + 1, range)
        }
    }

    /// The board after a slide was taken back: the stones are gathered, the top stone of
    /// the last square gives its kind back to the origin, and a flattened wall stands up
    /// again.
    pub open spec fn unslide(
        self,
        origin: Loc,
        dir: Dir,
        range: u8,
        drops: [u8; 7],
        smashed: bool,
    ) -> Position {
        let end = self.step_index(origin, dir, range as int);
        let gathered = self.gather(origin, dir, drops, 1, range as nat).set_top(
            self.index_of(origin),
            self.squares[end].top,
        );
        if smashed {
            gathered.set_top(end, Piece::Wall)
        } else {
            gathered
        }
    }

    /// The position before the move `m`, given the position after it.
    pub open spec fn undo(self, m: Move) -> Position {
        match m {
            Move::Place(loc, piece) => self.retreat().unplace(loc, piece),
            Move::Move(origin, dir, range, drops, smashed) => self.retreat().unslide(
                origin,
                dir,
                range,
                drops,
                smashed,
            ),
        }
    }

    /// What taking a move back needs of the position: a turn to go back to, the stones of
    /// the move where the move left them, and, where it leads back into round 1, the pools
    /// of an opening.
    pub open spec fn can_undo(self, m: Move) -> bool {
        &&& self.player == Player::White ==> self.round >= 2
        &&& self.undo(m).opening_ok()
        &&& match m {
            Move::Place(loc, piece) => self.holds(loc) && self.at(loc).height() == 1,
            Move::Move(origin, dir, range, drops, smashed) => {
                &&& m.well_formed()
                &&& self.holds(origin)
                &&& self.step_holds(origin, dir, range as int)
                &&& forall|k: int|
                    1 <= k <= range ==> (#[trigger] self.squares[self.step_index(
                        origin,
                        dir,
                        k,
                    )]).height() >= drops[k - 1]
                &&& smashed ==> self.squares[self.step_index(origin, dir, range as int)].height()
                    > drops[range - 1]
            },
        }
    }

    // ----- hashing -----

    /// The hash of the position: the board hash with the capstone bitboard, the wall
    /// bitboard and the side to move mixed in.
    pub open spec fn hash(self) -> u64 {
        let seed = board_hash(self.squares, self.area());
        let caps = kind_mask(self.squares, Piece::Cap, self.area());
        let walls = kind_mask(self.squares, Piece::Wall, self.area());
        mix(
            absorb(absorb(seed, le_bytes(caps as u128, 8)), le_bytes(walls as u128, 8)),
            self.player.bit() as u8,
        )
    }
}

} // verus!
