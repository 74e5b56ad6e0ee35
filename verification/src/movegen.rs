//! Move generation: which moves a position offers, in which order, and a cursor that
//! walks through them without building a list.

use vstd::prelude::*;

use crate::bits::game::Game;
use crate::bits::play::lemma_step_bounds;
use crate::game::{Dir, Loc, Move, Piece};
use crate::position::Position;
use crate::tables::{drop_table, DropCount};

verus! {

/// The directions in the order in which slides are generated.
pub open spec fn dir_of(p: int) -> Dir {
    if p == 0 {
        Dir::Up
    } else if p == 1 {
        Dir::Down
    } else if p == 2 {
        Dir::Left
    } else {
        Dir::Right
    }
}

impl Position {
    /// The square with index `i`.
    pub open spec fn loc_of(self, i: int) -> Loc {
        Loc { x: (i % (self.size as int)) as u8, y: (i / (self.size as int)) as u8 }
    }

    /// How many squares beyond the `k`-th a stack on `origin` can move in direction `dir`:
    /// it passes empty squares and flats, it stops before a capstone and before the edge,
    /// and it stops before a wall unless it has a capstone on top, which may step onto the
    /// wall and go no further.
    pub open spec fn reach(self, origin: Loc, dir: Dir, k: nat) -> nat
        decreases self.size - k,
    {
        if k >= self.size || !self.step_holds(origin, dir, k + 1 as int) {
            0
        } else {
            let sq = self.squares[self.step_index(origin, dir, k + 1 as int)];
            if sq.is_empty() || sq.top == Piece::Flat {
                1 + self.reach(origin, dir, k + 1)
            } else if sq.top == Piece::Wall && self.at(origin).top == Piece::Cap {
                1
            } else {
                0
            }
        }
    }

    /// Whether the way of a stack on `origin` in direction `dir`, from the `k`-th square
    /// on, ends on a wall that the stack can flatten.
    pub open spec fn wall_ahead(self, origin: Loc, dir: Dir, k: nat) -> bool
        decreases self.size - k,
    {
        if k >= self.size || !self.step_holds(origin, dir, k + 1 as int) {
            false
        } else {
            let sq = self.squares[self.step_index(origin, dir, k + 1 as int)];
            if sq.is_empty() || sq.top == Piece::Flat {
                self.wall_ahead(origin, dir, k + 1)
            } else {
                sq.top == Piece::Wall && self.at(origin).top == Piece::Cap
            }
        }
    }

    /// How many stones of the stack on `origin` may move: all of them, up to the carry
    /// limit, which is the size of the board.
    pub open spec fn mobile(self, origin: Loc) -> nat {
        if self.at(origin).height() < self.size {
            self.at(origin).height()
        } else {
            self.size
        }
    }

    /// How far the stack on `origin` can slide in direction `dir`.
    pub open spec fn slide_dist(self, origin: Loc, dir: Dir) -> nat {
        if self.mobile(origin) < self.reach(origin, dir, 0) {
            self.mobile(origin)
        } else {
            self.reach(origin, dir, 0)
        }
    }

    /// The slides of the stack on `origin` in direction `dir`, in the order of the table.
    pub open spec fn slides(self, origin: Loc, dir: Dir) -> Seq<Move> {
        drop_table(
            self.mobile(origin),
            self.slide_dist(origin, dir),
            self.wall_ahead(origin, dir, 0),
        ).map_values(|e: DropCount| Move::Move(origin, dir, e.0, e.1, false))
    }

    /// The placements on the empty square `loc`: a flat in round 1; after that a flat and
    /// a wall while the mover has flats, else a capstone if the mover has one.
    pub open spec fn placements(self, loc: Loc) -> Seq<Move> {
        if self.round == 1 {
            seq![Move::Place(loc, Piece::Flat)]
        } else if self.pool(self.player).flats > 0 {
            seq![Move::Place(loc, Piece::Flat), Move::Place(loc, Piece::Wall)]
        } else if self.pool(self.player).caps > 0 {
            seq![Move::Place(loc, Piece::Cap)]
        } else {
            Seq::empty()
        }
    }

    /// Part `p` of the moves on square `i`. An empty square has its placements in part 0;
    /// from round 2 on, a square whose top stone is the mover's has its slides in
    /// direction `dir_of(p)` in part `p`.
    pub open spec fn part(self, i: int, p: int) -> Seq<Move> {
        let sq = self.squares[i];
        if sq.is_empty() {
            if p == 0 {
                self.placements(self.loc_of(i))
            } else {
                Seq::empty()
            }
        } else if self.round >= 2 && sq.owner() == self.player {
            self.slides(self.loc_of(i), dir_of(p))
        } else {
            Seq::empty()
        }
    }

    /// The moves on square `i`: its four parts, one after the other.
    pub open spec fn square_moves(self, i: int) -> Seq<Move> {
        self.part(i, 0) + self.part(i, 1) + self.part(i, 2) + self.part(i, 3)
    }

    /// The moves on the first `k` squares, square by square.
    pub open spec fn moves_upto(self, k: nat) -> Seq<Move>
        decreases k,
    {
        if k == 0 {
            Seq::empty()
        } else {
            self.moves_upto((k - 1) as nat) + self.square_moves(k - 1)
        }
    }

    /// The moves that the position offers, in the order in which they are generated:
    /// square by square in the order of the index, placements before slides, slides by
    /// direction (up, down, left, right) and within a direction in the order of the table.
    pub open spec fn moves(self) -> Seq<Move> {
        self.moves_upto(self.area())
    }

    /// How many moves of square `i` come before its part `p`.
    pub open spec fn part_offset(self, i: int, p: nat) -> nat
        decreases p,
    {
        if p == 0 {
            0
        } else {
            self.part_offset(i, (p - 1) as nat) + self.part(i, p - 1).len()
        }
    }

    /// How many moves come before item `j` of part `p` of square `i`.
    pub open spec fn place_of(self, i: int, p: nat, j: nat) -> nat {
        self.moves_upto(i as nat).len() + self.part_offset(i, p) + j
    }
}

/// Where an item of a part of a square stands among the moves of the square.
pub proof fn lemma_part_in_square(pos: Position, i: int, p: nat, j: int)
    requires
        p < 4,
        0 <= j < pos.part(i, p as int).len(),
    ensures
        pos.part_offset(i, p) + j < pos.square_moves(i).len(),
        pos.square_moves(i)[pos.part_offset(i, p) + j] == pos.part(i, p as int)[j],
        pos.part_offset(i, 4) == pos.square_moves(i).len(),
{
    reveal_with_fuel(Position::part_offset, 5);
}

/// The moves of a square are as many as its parts together.
pub proof fn lemma_square_len(pos: Position, i: int)
    ensures
        pos.part_offset(i, 4) == pos.square_moves(i).len(),
{
    reveal_with_fuel(Position::part_offset, 5);
}

/// Where a move of a square stands among the moves of the first `k` squares.
pub proof fn lemma_square_in_moves(pos: Position, k: nat, i: int, t: int)
    requires
        0 <= i < k,
        0 <= t < pos.square_moves(i).len(),
    ensures
        pos.moves_upto(i as nat).len() + t < pos.moves_upto(k).len(),
        pos.moves_upto(k)[pos.moves_upto(i as nat).len() + t] == pos.square_moves(i)[t],
    decreases k,
{
    if i < k - 1 {
        lemma_square_in_moves(pos, (k - 1) as nat, i, t);
    }
}

/// Where an item of a part of a square stands among all moves.
pub proof fn lemma_place_of(pos: Position, i: int, p: nat, j: nat)
    requires
        0 <= i < pos.area(),
        p < 4,
        j < pos.part(i, p as int).len(),
    ensures
        pos.place_of(i, p, j) < pos.moves().len(),
        pos.moves()[pos.place_of(i, p, j) as int] == pos.part(i, p as int)[j as int],
{
    lemma_part_in_square(pos, i, p, j as int);
    lemma_square_in_moves(pos, pos.area(), i, (pos.part_offset(i, p) + j) as int);
}

/// The place right behind the last item of a part is the place of the first item of the
/// next part, or of the next square's first part.
pub proof fn lemma_advance(pos: Position, i: int, p: nat)
    requires
        0 <= i,
        p < 4,
    ensures
        p < 3 ==> pos.place_of(i, p + 1, 0) == pos.place_of(i, p, pos.part(i, p as int).len()),
        p == 3 ==> pos.place_of(i + 1, 0, 0) == pos.place_of(i, p, pos.part(i, p as int).len()),
{
    reveal_with_fuel(Position::part_offset, 5);
    lemma_square_len(pos, i);
    assert(pos.moves_upto((i + 1) as nat) == pos.moves_upto(i as nat) + pos.square_moves(i));
}

/// A place in the moves of a position: an item of a part of a square.
pub struct Cursor {
    square: usize,
    part: u8,
    item: usize,
}

impl Cursor {
    /// The cursor stands on a part of a square and on an item of that part, or right
    /// behind its last item; or it stands behind the last square.
    pub closed spec fn wf(&self, pos: Position) -> bool {
        &&& self.square <= pos.area()
        &&& self.part < 4
        &&& if self.square < pos.area() {
            self.item <= pos.part(self.square as int, self.part as int).len()
        } else {
            self.part == 0 && self.item == 0
        }
    }

    /// How many moves come before the cursor.
    pub closed spec fn count(&self, pos: Position) -> nat {
        pos.place_of(self.square as int, self.part as nat, self.item as nat)
    }

    /// The cursor before the first move.
    pub fn start() -> (r: Cursor)
        ensures
            forall|pos: Position| #[trigger] r.count(pos) == 0,
            forall|pos: Position| #[trigger] r.wf(pos),
    {
        Cursor { square: 0, part: 0, item: 0 }
    }
}

impl Game {
    /// Walks from `origin` in direction `dir` and tells how far a stack on `origin` can
    /// go, and whether its way ends on a wall that it can flatten.
    fn probe(&self, origin: Loc, dir: Dir) -> (r: (usize, bool))
        requires
            self.board_ok(),
            self@.holds(origin),
        ensures
            r.0 == self@.reach(origin, dir, 0),
            r.1 == self@.wall_ahead(origin, dir, 0),
            r.0 <= 7,
    {
        proof {
            self.lemma_view_wf();
        }
        let start_idx = self.idx(origin);
        let is_cap = self.get_top(start_idx) == Piece::Cap;
        let mut dist: u8 = 0;
        let mut smash = false;
        let mut done = false;
        while !done
            invariant
                self.board_ok(),
                self@.holds(origin),
                start_idx == self@.index_of(origin),
                is_cap == (self@.at(origin).top == Piece::Cap),
                dist <= 7,
                self@.step_holds(origin, dir, dist as int),
                !done ==> self@.reach(origin, dir, 0) == dist + self@.reach(origin, dir, dist as nat)
                    && self@.wall_ahead(origin, dir, 0) == self@.wall_ahead(
                    origin,
                    dir,
                    dist as nat,
                ) && dist < self.size && !smash,
                done ==> self@.reach(origin, dir, 0) == dist && self@.wall_ahead(origin, dir, 0)
                    == smash,
            decreases
                    8 - dist + if done {
                        0int
                    } else {
                        1int
                    },
        {
            if !self.reaches(origin, dir, dist + 1) {
                done = true;
            } else {
                proof {
                    self.lemma_view_wf();
                    lemma_step_bounds(self@, origin, dir, dist + 1);
                    crate::bits::play::lemma_range_bound(self@, origin, dir, dist + 1);
                }
                let idx = self.offset(start_idx, dir, dist + 1);
                let vacant = self.owners[idx].is_empty();
                let top = self.get_top(idx);
                proof {
                    assert(self@.squares[idx as int] == self.square(idx as int));
                    assert(idx == self@.step_index(origin, dir, dist + 1 as int));
                }
                if vacant || top == Piece::Flat {
                    dist += 1;
                    if dist as usize >= self.size {
                        done = true;
                    }
                } else if top == Piece::Wall && is_cap {
                    dist += 1;
                    smash = true;
                    done = true;
                } else {
                    done = true;
                }
            }
        }
        (dist as usize, smash)
    }

    /// The square with index `idx`.
    fn loc_at(&self, idx: usize) -> (r: Loc)
        requires
            3 <= self.size <= 8,
            idx < self.size * self.size,
        ensures
            r == self@.loc_of(idx as int),
            self@.holds(r),
            self@.index_of(r) == idx,
    {
        proof {
            let n = self.size as int;
            vstd::arithmetic::div_mod::lemma_fundamental_div_mod(idx as int, n);
            assert(idx as int / n < n) by (nonlinear_arith)
                requires
                    0 <= idx < n * n,
                    n > 0,
            ;
            assert(n * (idx as int / n) >= 0) by (nonlinear_arith)
                requires
                    idx >= 0,
                    n > 0,
            ;
        }
        Loc { x: (idx % self.size) as u8, y: (idx / self.size) as u8 }
    }

    /// Item `item` of the placements on the empty square `loc`, if there is one.
    fn placement_at(&self, loc: Loc, item: usize) -> (r: Option<Move>)
        requires
            self.board_ok(),
        ensures
            match r {
                Some(m) => item < self@.placements(loc).len() && m == self@.placements(
                    loc,
                )[item as int] && item < usize::MAX,
                None => item >= self@.placements(loc).len(),
            },
    {
        let piece = if self.round == 1 {
            if item == 0 {
                Some(Piece::Flat)
            } else {
                None
            }
        } else if self.reserves(self.player).count(Piece::Flat) > 0 {
            if item == 0 {
                Some(Piece::Flat)
            } else if item == 1 {
                Some(Piece::Wall)
            } else {
                None
            }
        } else if self.reserves(self.player).count(Piece::Cap) > 0 {
            if item == 0 {
                Some(Piece::Cap)
            } else {
                None
            }
        } else {
            None
        };
        match piece {
            Some(piece) => Some(Move::Place(loc, piece)),
            None => None,
        }
    }

    /// Item `item` of the slides of the stack on `loc` in direction `dir`, if there is one.
    fn slide_at(&self, loc: Loc, dir: Dir, item: usize) -> (r: Option<Move>)
        requires
            self.board_ok(),
            self@.holds(loc),
        ensures
            match r {
                Some(m) => item < self@.slides(loc, dir).len() && m == self@.slides(
                    loc,
                    dir,
                )[item as int] && item < usize::MAX,
                None => item >= self@.slides(loc, dir).len(),
            },
    {
        proof {
            self.lemma_view_wf();
        }
        let idx = self.idx(loc);
        proof {
            assert(self@.squares[idx as int] == self.square(idx as int));
        }
        let (max_dist, smash) = self.probe(loc, dir);
        let height = self.owners[idx].len();
        let mobile = if height < self.size {
            height
        } else {
            self.size
        };
        let dist = if mobile < max_dist {
            mobile
        } else {
            max_dist
        };
        let table = self.tables.get(mobile, dist, smash);
        if item < table.len() {
            let DropCount(range, drops) = table[item];
            Some(Move::Move(loc, dir, range, drops, false))
        } else {
            None
        }
    }

    /// Item `item` of part `part` of the moves on square `idx`, if there is one.
    fn part_at(&self, idx: usize, part: u8, item: usize) -> (r: Option<Move>)
        requires
            self.board_ok(),
            idx < self@.area(),
            part < 4,
        ensures
            match r {
                Some(m) => item < self@.part(idx as int, part as int).len() && m == self@.part(
                    idx as int,
                    part as int,
                )[item as int] && item < usize::MAX,
                None => item >= self@.part(idx as int, part as int).len(),
            },
    {
        proof {
            self.lemma_view_wf();
        }
        let loc = self.loc_at(idx);
        proof {
            assert(self.square_ok(idx as int));
            assert(self@.squares[idx as int] == self.square(idx as int));
        }
        if self.owners[idx].is_empty() {
            if part == 0 {
                self.placement_at(loc, item)
            } else {
                None
            }
        } else if self.round >= 2 && self.owners[idx].get(0) == self.player {
            let dir = match part {
                0 => Dir::Up,
                1 => Dir::Down,
                2 => Dir::Left,
                _ => Dir::Right,
            };
            self.slide_at(loc, dir, item)
        } else {
            None
        }
    }

    /// The move under the cursor, if there is one; the cursor moves on to the next. A
    /// cursor that starts before the first move yields the moves one by one, in order.
    pub fn next_move(&self, cursor: &mut Cursor) -> (r: Option<Move>)
        requires
            self.wf(),
            old(cursor).wf(self@),
        ensures
            final(cursor).wf(self@),
            match r {
                Some(m) => old(cursor).count(self@) < self@.moves().len() && m == self@.moves()[old(
                    cursor,
                ).count(self@) as int] && final(cursor).count(self@) == old(cursor).count(self@)
                    + 1,
                None => old(cursor).count(self@) == self@.moves().len(),
            },
    {
        proof {
            self.lemma_view_wf();
        }
        let area = self.size * self.size;
        let ghost pos = self@;
        loop
            invariant
                self.board_ok(),
                pos == self@,
                area == pos.area(),
                area <= 64,
                cursor.wf(pos),
                cursor.count(pos) == old(cursor).count(pos),
            decreases area - cursor.square, 4 - cursor.part, 1int,
        {
            if cursor.square >= area {
                return None;
            }
            let found = self.part_at(cursor.square, cursor.part, cursor.item);
            if found.is_some() {
                proof {
                    lemma_place_of(
                        pos,
                        cursor.square as int,
                        cursor.part as nat,
                        cursor.item as nat,
                    );
                }
                cursor.item += 1;
                return found;
            }
            proof {
                lemma_advance(pos, cursor.square as int, cursor.part as nat);
            }
            cursor.item = 0;
            if cursor.part < 3 {
                cursor.part += 1;
            } else {
                cursor.part = 0;
                cursor.square += 1;
            }
        }
    }

    /// The moves that the position offers, in order.
    pub fn moves(&self) -> (r: Vec<Move>)
        requires
            self.wf(),
        ensures
            r@ == self@.moves(),
    {
        proof {
            self.lemma_view_wf();
        }
        let mut out: Vec<Move> = Vec::new();
        let mut cursor = Cursor::start();
        loop
            invariant
                self.wf(),
                cursor.wf(self@),
                out@.len() == cursor.count(self@),
                out@.len() <= self@.moves().len(),
                out@ == self@.moves().take(out@.len() as int),
            decreases self@.moves().len() - out@.len(),
        {
            match self.next_move(&mut cursor) {
                None => {
                    proof {
                        assert(self@.moves().take(out@.len() as int) =~= self@.moves());
                    }
                    return out;
                },
                Some(m) => {
                    let ghost before = out@;
                    out.push(m);
                    proof {
                        assert(out@ =~= self@.moves().take(before.len() + 1 as int));
                    }
                },
            }
        }
    }

    /// Calls `f` on each move that the position offers, in order, until `f` fails or the
    /// moves are used up; the first failure of `f` is returned.
    pub fn foreach_move<E, F: FnMut(Move) -> Result<(), E>>(&self, f: F) -> (r: Result<(), E>)
        requires
            self.wf(),
            forall|m: Move| call_requires(f, (m,)),
        ensures
            match r {
                Ok(_) => accepted(f, self@.moves(), self@.moves().len() as int),
                Err(e) => exists|n: int|
                    0 <= n < self@.moves().len() && accepted(f, self@.moves(), n) && call_ensures(
                        f,
                        (#[trigger] self@.moves()[n],),
                        Err::<(), E>(e),
                    ),
            },
    {
        let mut cursor = Cursor::start();
        let ghost callee = f;
        let ghost all = self@.moves();
        let mut call = f;
        proof {
            lemma_accept_none(callee, all);
        }
        loop
            invariant
                self.wf(),
                cursor.wf(self@),
                all == self@.moves(),
                cursor.count(self@) <= all.len(),
                call == callee,
                callee == f,
                forall|m: Move| call_requires(callee, (m,)),
                accepted(callee, all, cursor.count(self@) as int),
            decreases all.len() - cursor.count(self@),
        {
            let ghost n = cursor.count(self@) as int;
            match self.next_move(&mut cursor) {
                None => {
                    return Ok(());
                },
                Some(m) => {
                    let res = call(m);
                    match res {
                        Ok(done) => {
                            proof {
                                assert(done == ());
                                lemma_accept_one(callee, all, n);
                            }
                        },
                        Err(e) => {
                            proof {
                                assert(call_ensures(callee, (all[n],), Err::<(), E>(e)));
                            }
                            return Err(e);
                        },
                    }
                },
            }
        }
    }
}

/// `f` returns `Ok` on each of the first `n` of the moves.
#[verifier::opaque]
pub open spec fn accepted<E, F: FnMut(Move) -> Result<(), E>>(f: F, moves: Seq<Move>, n: int) -> bool {
    forall|j: int| 0 <= j < n ==> call_ensures(f, (#[trigger] moves[j],), Ok::<(), E>(()))
}

proof fn lemma_accept_one<E, F: FnMut(Move) -> Result<(), E>>(f: F, moves: Seq<Move>, n: int)
    requires
        accepted(f, moves, n),
        call_ensures(f, (moves[n],), Ok::<(), E>(())),
    ensures
        accepted(f, moves, n + 1),
{
    reveal(accepted);
}

proof fn lemma_accept_none<E, F: FnMut(Move) -> Result<(), E>>(f: F, moves: Seq<Move>)
    ensures
        accepted(f, moves, 0),
{
    reveal(accepted);
}

} // verus!
