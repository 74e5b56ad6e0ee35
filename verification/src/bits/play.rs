//! Judging a move, making it, and taking it back.

use vstd::prelude::*;

use crate::bits::board::{lemma_set_clear, lemma_test};
use crate::bits::game::{
    lemma_frame, lemma_hash_same, lemma_hash_update, lemma_index, lemma_step_index,
    lemma_stones_same, lemma_stones_update, Game,
};
use crate::game::{drops_sum, lifted, Dir, Loc, Move, MoveValidity, Piece, Player, Pool};
use crate::position::{board_hash, square_hash, stones, Position, Square};

verus! {

/// The squares between two squares of a line that are on the board are on the board.
pub proof fn lemma_steps_hold(pos: Position, origin: Loc, dir: Dir, range: int, k: int)
    requires
        pos.holds(origin),
        pos.step_holds(origin, dir, range),
        0 <= k <= range,
    ensures
        pos.step_holds(origin, dir, k),
{
}

/// A line that stays on a board of at most 8 by 8 squares has at most 7 steps.
pub proof fn lemma_range_bound(pos: Position, origin: Loc, dir: Dir, range: int)
    requires
        pos.size <= 8,
        pos.holds(origin),
        pos.step_holds(origin, dir, range),
        0 <= range,
    ensures
        range <= 7,
{
    match dir {
        Dir::Up => {},
        Dir::Down => {},
        Dir::Left => {},
        Dir::Right => {},
    }
}

/// A step that is on the board has an index on the board.
pub proof fn lemma_step_bounds(pos: Position, origin: Loc, dir: Dir, k: int)
    requires
        pos.step_holds(origin, dir, k),
    ensures
        0 <= pos.step_index(origin, dir, k) < pos.area(),
        pos.step_index(origin, dir, k) == pos.index_of(origin) + (dir.dx() + pos.size * dir.dy())
            * k,
{
    lemma_index(pos, origin.x + dir.dx() * k, origin.y + dir.dy() * k);
    lemma_step_index(pos, origin, dir, k);
}

/// Different steps of a line lead to different squares.
pub proof fn lemma_steps_distinct(pos: Position, origin: Loc, dir: Dir, a: int, b: int)
    requires
        pos.step_holds(origin, dir, a),
        pos.step_holds(origin, dir, b),
        a != b,
    ensures
        pos.step_index(origin, dir, a) != pos.step_index(origin, dir, b),
{
    lemma_index(pos, origin.x + dir.dx() * a, origin.y + dir.dy() * a);
    lemma_index(pos, origin.x + dir.dx() * b, origin.y + dir.dy() * b);
    match dir {
        Dir::Up => {
            assert(origin.y + 1 * a != origin.y + 1 * b);
        },
        Dir::Down => {
            assert(origin.y + (-1) * a != origin.y + (-1) * b);
        },
        Dir::Left => {
            assert(origin.x + (-1) * a != origin.x + (-1) * b);
        },
        Dir::Right => {
            assert(origin.x + 1 * a != origin.x + 1 * b);
        },
    }
}

/// The sum of the first `i` drop counts is the sum of the first `i - 1` and the last.
pub proof fn lemma_drops_sum_grows(drops: [u8; 7], i: nat)
    requires
        1 <= i <= 7,
    ensures
        drops_sum(drops, i) == drops_sum(drops, (i - 1) as nat) + drops[i - 1],
{
}

/// Gathering stones changes nothing but the squares.
pub proof fn lemma_gather_frame(
    pos: Position,
    origin: Loc,
    dir: Dir,
    drops: [u8; 7],
    i: nat,
    range: nat,
)
    ensures
        pos.gather(origin, dir, drops, i, range) == (Position {
            squares: pos.gather(origin, dir, drops, i, range).squares,
            ..pos
        }),
    decreases range + 1 - i,
{
    if i <= range {
        let next = pos.transfer(
            pos.step_index(origin, dir, i as int),
            pos.index_of(origin),
            drops[i - 1] as nat,
        );
        lemma_gather_frame(next, origin, dir, drops, i + 1, range);
    }
}

/// Spreading stones changes nothing but the squares.
pub proof fn lemma_spread_frame(pos: Position, origin: Loc, dir: Dir, drops: [u8; 7], i: nat)
    ensures
        pos.spread(origin, dir, drops, i) == (Position {
            squares: pos.spread(origin, dir, drops, i).squares,
            ..pos
        }),
    decreases i,
{
    if i > 0 {
        let next = pos.transfer(
            pos.index_of(origin),
            pos.step_index(origin, dir, i as int),
            drops[i - 1] as nat,
        );
        lemma_spread_frame(next, origin, dir, drops, (i - 1) as nat);
    }
}

/// What a valid slide is: the facts that the checks of its steps establish.
pub open spec fn slide_facts(pos: Position, origin: Loc, dir: Dir, range: u8, drops: [u8; 7]) -> bool {
    &&& pos.holds(origin)
    &&& pos.round >= 2
    &&& 1 <= range <= 7
    &&& pos.step_holds(origin, dir, range as int)
    &&& pos.at(origin).owned_by(pos.player)
    &&& drops_sum(drops, range as nat) <= pos.at(origin).height()
    &&& drops_sum(drops, range as nat) <= pos.size
    &&& forall|k: int|
        1 <= k <= range ==> {
            let sq = #[trigger] pos.squares[pos.step_index(origin, dir, k)];
            &&& !sq.is_empty() ==> sq.top != Piece::Cap
            &&& !sq.is_empty() && sq.top == Piece::Wall ==> pos.at(origin).top == Piece::Cap && k
                == range && drops[k - 1] == 1
        }
}

proof fn lemma_valid_steps(
    pos: Position,
    origin: Loc,
    dir: Dir,
    range: u8,
    drops: [u8; 7],
    i: nat,
    moved: nat,
)
    requires
        1 <= i <= range + 1,
        range <= 7,
        moved == drops_sum(drops, (i - 1) as nat),
        moved <= pos.at(origin).height(),
        pos.validate_steps(origin, dir, range, drops, i, moved) == MoveValidity::Valid,
    ensures
        drops_sum(drops, range as nat) <= pos.at(origin).height(),
        forall|k: int|
            i <= k <= range ==> {
                let sq = #[trigger] pos.squares[pos.step_index(origin, dir, k)];
                &&& !sq.is_empty() ==> sq.top != Piece::Cap
                &&& !sq.is_empty() && sq.top == Piece::Wall ==> pos.at(origin).top == Piece::Cap
                    && k == range && drops[k - 1] == 1
            },
    decreases range + 1 - i,
{
    if i <= range {
        lemma_valid_steps(pos, origin, dir, range, drops, i + 1, moved + drops[i - 1] as nat);
    }
}

/// A slide that is judged valid has the facts of a valid slide.
pub proof fn lemma_valid_slide(pos: Position, m: Move)
    requires
        3 <= pos.size <= 8,
        pos.round >= 1,
        m.well_formed(),
        m is Move,
        pos.validate(m) == MoveValidity::Valid,
    ensures
        slide_facts(pos, m->Move_0, m->Move_1, m->Move_2, m->Move_3),
{
    let origin = m->Move_0;
    let dir = m->Move_1;
    let range = m->Move_2;
    let drops = m->Move_3;
    lemma_range_bound(pos, origin, dir, range as int);
    lemma_valid_steps(pos, origin, dir, range, drops, 1, 0);
}

/// The number of stones that a slide lifts.
fn lifted_by(range: u8, drops: &[u8; 7]) -> (r: usize)
    ensures
        r == lifted(range, *drops),
{
    let mut sum: usize = 0;
    let mut i: usize = 0;
    while i < 7 && i < range as usize
        invariant
            i <= 7,
            i <= range,
            sum == drops_sum(*drops, i as nat),
            sum <= 255 * i,
        decreases 7 - i,
    {
        sum += drops[i] as usize;
        i += 1;
    }
    sum
}

impl Game {
    /// The running hash is the hash of the board.
    pub open(crate) spec fn hash_ok(&self) -> bool {
        self.partial_hash == board_hash(self@.squares, self@.area())
    }

    /// The running hash is the hash of the board without the share of square `open`.
    pub open(crate) spec fn hash_ok_but(&self, open: int) -> bool {
        self.partial_hash == board_hash(self@.squares, self@.area()) ^ square_hash(
            self.owners[open]@,
            open,
        )
    }

    /// Judges a move: `Valid`, or the first rule that it breaks. Any move can be judged;
    /// only a well-formed move that is judged valid can be made.
    pub fn validate(&self, m: &Move) -> (r: MoveValidity)
        requires
            self.wf(),
        ensures
            r == self@.validate(*m),
    {
        proof {
            self.lemma_view_wf();
        }
        match m {
            Move::Place(loc, piece) => {
                if loc.x as usize >= self.size || loc.y as usize >= self.size {
                    return MoveValidity::InvalidSquare;
                }
                let idx = self.idx(*loc);
                if !self.owners[idx].is_empty() {
                    return MoveValidity::SquareOccupied;
                }
                if self.reserves(self.player).count(*piece) == 0 {
                    return MoveValidity::NotEnough(*piece);
                }
                if self.round == 1 && !(*piece == Piece::Flat) {
                    return MoveValidity::MustPlaceFlatFirstRound;
                }
                MoveValidity::Valid
            },
            Move::Move(origin, dir, range, drops, _) => {
                let origin = *origin;
                let dir = *dir;
                let range = *range;
                if origin.x as usize >= self.size || origin.y as usize >= self.size {
                    return MoveValidity::InvalidSquare;
                }
                if self.round == 1 {
                    return MoveValidity::MustPlaceFlatFirstRound;
                }
                let start_idx = self.idx(origin);
                if self.owners[start_idx].is_empty() {
                    return MoveValidity::DontControlStack;
                }
                proof {
                    assert(self.square_ok(start_idx as int));
                }
                let own = self.owners[start_idx].get(0) == self.player;
                if own && lifted_by(range, drops) > self.size {
                    return MoveValidity::CarryLimit;
                }
                if !self.reaches(origin, dir, range) {
                    return MoveValidity::EndOutOfBounds;
                }
                proof {
                    lemma_range_bound(self@, origin, dir, range as int);
                }
                if !own {
                    return MoveValidity::DontControlStack;
                }
                let is_cap = self.get_top(start_idx) == Piece::Cap;
                let height = self.owners[start_idx].len();
                let mut moved: usize = 0;
                let mut i: u8 = 1;
                while i <= range
                    invariant
                        self.board_ok(),
                        self@.holds(origin),
                        self@.step_holds(origin, dir, range as int),
                        start_idx == self@.index_of(origin),
                        is_cap == (self@.at(origin).top == Piece::Cap),
                        height == self@.at(origin).height(),
                        1 <= i <= range + 1,
                        range <= 7,
                        moved <= 255 * (i - 1),
                        self@.validate(*m) == self@.validate_steps(
                            origin,
                            dir,
                            range,
                            *drops,
                            i as nat,
                            moved as nat,
                        ),
                    decreases range + 1 - i,
                {
                    proof {
                        self.lemma_view_wf();
                        lemma_steps_hold(self@, origin, dir, range as int, i as int);
                        lemma_step_bounds(self@, origin, dir, i as int);
                    }
                    let idx = self.offset(start_idx, dir, i);
                    let drop = drops[(i - 1) as usize];
                    moved += drop as usize;
                    if !self.owners[idx].is_empty() {
                        match self.get_top(idx) {
                            Piece::Cap => return MoveValidity::CantMoveIntoCap,
                            Piece::Wall => {
                                if !is_cap {
                                    return MoveValidity::NeedCapToSmash;
                                }
                                if drop != 1 {
                                    return MoveValidity::CapMustSmashAlone;
                                }
                                if i != range {
                                    return MoveValidity::SmashMustBeLast;
                                }
                            },
                            Piece::Flat => {},
                        }
                    }
                    if moved > height {
                        return MoveValidity::NotEnoughPieces;
                    }
                    i += 1;
                }
                MoveValidity::Valid
            },
        }
    }

    /// Whether the square `range` steps from `origin` is on the board.
    pub(crate) fn reaches(&self, origin: Loc, dir: Dir, range: u8) -> (r: bool)
        requires
            3 <= self.size <= 8,
            self@.holds(origin),
        ensures
            r == self@.step_holds(origin, dir, range as int),
    {
        let x = origin.x as usize;
        let y = origin.y as usize;
        let k = range as usize;
        match dir {
            Dir::Up => y + k < self.size,
            Dir::Down => k <= y,
            Dir::Left => k <= x,
            Dir::Right => x + k < self.size,
        }
    }

    /// Makes `p` the kind of the top stone of a square that holds stones, or clears the
    /// kind of any square.
    fn crown(&mut self, idx: usize, p: Piece)
        requires
            old(self).board_ok(),
            idx < old(self).size * old(self).size,
            p != Piece::Flat ==> old(self).owners[idx as int]@.len() > 0,
        ensures
            final(self).board_ok(),
            final(self)@ == old(self)@.set_top(idx as int, p),
            final(self).partial_hash == old(self).partial_hash,
            final(self).owners == old(self).owners,
            board_hash(final(self)@.squares, final(self)@.area()) == board_hash(
                old(self)@.squares,
                old(self)@.area(),
            ),
            stones(final(self)@.squares, final(self)@.area()) == stones(
                old(self)@.squares,
                old(self)@.area(),
            ),
    {
        proof {
            self.lemma_view_wf();
        }
        self.set_top(idx, p);
        proof {
            let before = old(self)@;
            let after = before.set_top(idx as int, p);
            assert forall|j: int| 0 <= j < 64 implies #[trigger] self.square_ok(j) by {
                assert(old(self).square_ok(j));
            }
            assert(self@.squares =~= after.squares) by {
                assert forall|j: int| 0 <= j < self@.squares.len() implies self@.squares[j]
                    == after.squares[j] by {
                    assert(old(self).square_ok(j));
                }
            }
            lemma_stones_same(before.squares, after.squares, before.area());
            lemma_hash_same(before.squares, after.squares, before.area());
        }
    }

    /// Puts a stone of kind `piece` from its owner's reserves onto the empty square `loc`.
    fn place_stone(&mut self, loc: Loc, piece: Piece)
        requires
            old(self).board_ok(),
            old(self).hash_ok(),
            old(self)@.holds(loc),
            old(self)@.at(loc).is_empty(),
            old(self)@.pool(old(self)@.placing_owner()).count(piece) > 0,
        ensures
            final(self).board_ok(),
            final(self).hash_ok(),
            final(self)@ == old(self)@.place(loc, piece),
    {
        proof {
            self.lemma_view_wf();
        }
        let idx = self.idx(loc);
        proof {
            assert(self.square_ok(idx as int));
        }
        self.update_hash(idx);
        let player = if self.round == 1 {
            self.player.opponent()
        } else {
            self.player
        };
        match player {
            Player::White => self.white_reserves.remove(piece),
            Player::Black => self.black_reserves.remove(piece),
        }
        let mut stack = self.owners[idx];
        stack.push(player);
        self.owners[idx] = stack;
        self.fix_top(idx);
        self.set_top(idx, piece);
        self.update_hash(idx);
        proof {
            let before = old(self)@;
            let after = before.place(loc, piece);
            let sq = Square { stack: before.squares[idx as int].stack.push(player), top: piece };
            assert forall|i: int| 0 <= i < 64 implies #[trigger] self.square_ok(i) by {
                assert(old(self).square_ok(i));
            }
            assert(self@.squares =~= after.squares) by {
                assert forall|i: int| 0 <= i < self@.squares.len() implies self@.squares[i]
                    == after.squares[i] by {
                    assert(old(self).square_ok(i));
                }
            }
            assert(self@ == after);
            lemma_hash_update(before.squares, before.area(), idx as int, sq);
            let h0 = square_hash(before.squares[idx as int].stack, idx as int);
            let h1 = square_hash(sq.stack, idx as int);
            let ph = old(self).partial_hash;
            assert((ph ^ h0) ^ h1 == ph ^ h0 ^ h1) by (bit_vector);
        }
    }

    /// Slides a stack; the result tells whether the last square had a wall on top.
    fn slide_stack(&mut self, origin: Loc, dir: Dir, range: u8, drops: [u8; 7]) -> (smash: bool)
        requires
            old(self).wf(),
            slide_facts(old(self)@, origin, dir, range, drops),
            forall|k: int| 0 <= k < 7 && k < range ==> #[trigger] drops[k] >= 1,
        ensures
            final(self).wf(),
            final(self)@ == old(self)@.slide(origin, dir, range, drops),
            smash == old(self)@.smashes(Move::Move(origin, dir, range, drops, false)),
    {
        proof {
            self.lemma_view_wf();
            lemma_step_bounds(self@, origin, dir, range as int);
            lemma_steps_distinct(self@, origin, dir, 0, range as int);
        }
        let start_idx = self.idx(origin);
        let end_idx = self.offset(start_idx, dir, range);
        proof {
            assert(self.square_ok(start_idx as int));
            assert(self.square_ok(end_idx as int));
            lemma_test(self.walls, end_idx as int);
        }
        self.update_hash(start_idx);
        let smash = self.walls & (1u64 << (end_idx as u64)) != 0;
        let top = self.get_top(start_idx);
        let ghost height = self.owners[start_idx as int]@.len();
        let mut i: u8 = range;
        while i >= 1
            invariant
                0 <= i <= range <= 7,
                slide_facts(old(self)@, origin, dir, range, drops),
                forall|k: int| 0 <= k < 7 && k < range ==> #[trigger] drops[k] >= 1,
                self.consistent(),
                self@.size == old(self)@.size,
                self@.round == old(self)@.round,
                self@.player == old(self)@.player,
                self@.white == old(self)@.white,
                self@.black == old(self)@.black,
                start_idx == self@.index_of(origin),
                end_idx == self@.step_index(origin, dir, range as int),
                start_idx != end_idx,
                end_idx < self.size * self.size,
                start_idx < self.size * self.size,
                self.hash_ok_but(start_idx as int),
                old(self)@.spread(origin, dir, drops, range as nat) == self@.spread(
                    origin,
                    dir,
                    drops,
                    i as nat,
                ),
                height == old(self)@.at(origin).height(),
                self.owners[start_idx as int]@.len() + drops_sum(drops, range as nat) == height
                    + drops_sum(drops, i as nat),
                i < range ==> self.owners[end_idx as int]@.len() >= 1,
            decreases i,
        {
            proof {
                self.lemma_view_wf();
                lemma_steps_hold(self@, origin, dir, range as int, i as int);
                lemma_step_bounds(self@, origin, dir, i as int);
                lemma_steps_distinct(self@, origin, dir, 0, i as int);
                if i < range {
                    lemma_steps_distinct(self@, origin, dir, i as int, range as int);
                }
                lemma_drops_sum_grows(drops, i as nat);
            }
            let idx = self.offset(start_idx, dir, i);
            let ghost before = *self;
            proof {
                assert(drops[i - 1] >= 1);
                assert(before@.squares[start_idx as int].stack == before.owners[start_idx as int]@);
                assert(before@.squares[end_idx as int].stack == before.owners[end_idx as int]@);
            }
            self.carry(start_idx, idx, drops[(i - 1) as usize], start_idx);
            proof {
                assert(self@.squares[start_idx as int].stack == self.owners[start_idx as int]@);
                assert(self@.squares[end_idx as int].stack == self.owners[end_idx as int]@);
            }
            i -= 1;
        }
        proof {
            self.lemma_view_wf();
        }
        self.crown(end_idx, top);
        proof {
            assert(self.square_ok(start_idx as int));
        }
        self.update_hash(start_idx);
        proof {
            let bh = board_hash(self@.squares, self@.area());
            let hs = square_hash(self.owners[start_idx as int]@, start_idx as int);
            assert((bh ^ hs) ^ hs == bh) by (bit_vector);
        }
        smash
    }

    /// Makes a move that was judged valid. A slide is told whether it flattened a wall.
    /// The round is counted in 32 bits, so the last round that can be counted has no
    /// successor: a move is made only before it.
    pub fn execute(&mut self, m: &mut Move)
        requires
            old(self).wf(),
            old(m).well_formed(),
            old(self)@.validate(*old(m)) == MoveValidity::Valid,
            old(self)@.round < u32::MAX,
        ensures
            final(self).wf(),
            final(self)@ == old(self)@.execute(*old(m)),
            *final(m) == old(m).with_smash(old(self)@.smashes(*old(m))),
    {
        proof {
            self.lemma_view_wf();
        }
        match m {
            Move::Place(loc, piece) => {
                proof {
                    lemma_index(self@, loc.x as int, loc.y as int);
                    lemma_stones_update(
                        self@.squares,
                        self@.area(),
                        self@.index_of(*loc),
                        self@.place(*loc, *piece).squares[self@.index_of(*loc)],
                    );
                }
                self.place_stone(*loc, *piece);
            },
            Move::Move(origin, dir, range, drops, smashed) => {
                proof {
                    lemma_valid_slide(self@, Move::Move(*origin, *dir, *range, *drops, *smashed));
                    lemma_spread_frame(self@, *origin, *dir, *drops, *range as nat);
                }
                let smash = self.slide_stack(*origin, *dir, *range, *drops);
                *smashed = smash;
            },
        }
        let ghost moved = *self;
        proof {
            assert(moved@.round == old(self)@.round);
            assert(moved@.player == old(self)@.player);
            assert(stones(moved@.squares, moved@.area()) + moved@.white.total()
                + moved@.black.total() == 2 * Pool::initial(moved@.size).total());
        }
        self.player = self.player.opponent();
        if self.player == Player::White {
            self.round += 1;
        }
        proof {
            lemma_frame(moved, *self);
            assert(self@ == moved@.advance());
        }
    }

    /// Judges a move and makes it if it is valid. The verdict is returned; a move that is
    /// not valid leaves the game and the move as they were.
    pub fn try_execute(&mut self, m: &mut Move) -> (r: MoveValidity)
        requires
            old(self).wf(),
            old(m).well_formed(),
            old(self)@.round < u32::MAX,
        ensures
            r == old(self)@.validate(*old(m)),
            final(self).wf(),
            r == MoveValidity::Valid ==> final(self)@ == old(self)@.execute(*old(m)) && *final(m)
                == old(m).with_smash(old(self)@.smashes(*old(m))),
            r != MoveValidity::Valid ==> final(self)@ == old(self)@ && *final(m) == *old(m),
    {
        let verdict = self.validate(m);
        match verdict {
            MoveValidity::Valid => {
                self.execute(m);
            },
            _ => {},
        }
        verdict
    }

    /// Takes the single stone on square `loc` back into its owner's reserves.
    fn take_stone(&mut self, loc: Loc, piece: Piece)
        requires
            old(self).board_ok(),
            old(self).hash_ok(),
            old(self)@.holds(loc),
            old(self)@.at(loc).height() == 1,
            old(self)@.pool(old(self)@.placing_owner()).count(piece) < 255,
        ensures
            final(self).board_ok(),
            final(self).hash_ok(),
            final(self)@ == old(self)@.unplace(loc, piece),
    {
        proof {
            self.lemma_view_wf();
        }
        let idx = self.idx(loc);
        proof {
            assert(self.square_ok(idx as int));
            lemma_set_clear(self.walls, idx as int);
            lemma_set_clear(self.caps, idx as int);
            lemma_set_clear(self.white, idx as int);
            lemma_set_clear(self.black, idx as int);
        }
        self.update_hash(idx);
        let player = if self.round == 1 {
            self.player.opponent()
        } else {
            self.player
        };
        match player {
            Player::White => self.white_reserves.add(piece),
            Player::Black => self.black_reserves.add(piece),
        }
        let mut stack = self.owners[idx];
        let _ = stack.pop_stack(1);
        self.owners[idx] = stack;
        let mask: u64 = 1u64 << (idx as u64);
        self.walls &= !mask;
        self.caps &= !mask;
        self.white &= !mask;
        self.black &= !mask;
        self.update_hash(idx);
        proof {
            let before = old(self)@;
            let after = before.unplace(loc, piece);
            let sq = after.squares[idx as int];
            assert forall|i: int| 0 <= i < 64 implies #[trigger] self.square_ok(i) by {
                assert(old(self).square_ok(i));
            }
            assert(self@.squares =~= after.squares) by {
                assert forall|i: int| 0 <= i < self@.squares.len() implies self@.squares[i]
                    == after.squares[i] by {
                    assert(old(self).square_ok(i));
                }
            }
            assert(self@ == after);
            lemma_hash_update(before.squares, before.area(), idx as int, sq);
            let h0 = square_hash(before.squares[idx as int].stack, idx as int);
            let h1 = square_hash(sq.stack, idx as int);
            let ph = old(self).partial_hash;
            assert((ph ^ h0) ^ h1 == ph ^ h0 ^ h1) by (bit_vector);
        }
    }

    /// Takes a slide back.
    fn unslide_stack(&mut self, origin: Loc, dir: Dir, range: u8, drops: [u8; 7], smashed: bool)
        requires
            old(self).wf(),
            1 <= range,
            forall|k: int| 0 <= k < 7 && k < range ==> #[trigger] drops[k] >= 1,
            old(self)@.holds(origin),
            old(self)@.step_holds(origin, dir, range as int),
            forall|k: int|
                1 <= k <= range ==> (#[trigger] old(self)@.squares[old(self)@.step_index(
                    origin,
                    dir,
                    k,
                )]).height() >= drops[k - 1],
            smashed ==> old(self)@.squares[old(self)@.step_index(
                origin,
                dir,
                range as int,
            )].height() > drops[range - 1],
        ensures
            final(self).wf(),
            final(self)@ == old(self)@.unslide(origin, dir, range, drops, smashed),
    {
        proof {
            self.lemma_view_wf();
            lemma_range_bound(self@, origin, dir, range as int);
            lemma_step_bounds(self@, origin, dir, range as int);
            lemma_steps_distinct(self@, origin, dir, 0, range as int);
        }
        let start_idx = self.idx(origin);
        let end_idx = self.offset(start_idx, dir, range);
        let top = self.get_top(end_idx);
        proof {
            assert(self.square_ok(start_idx as int));
        }
        self.update_hash(start_idx);
        let mut i: u8 = 1;
        while i <= range
            invariant
                1 <= i <= range + 1,
                range <= 7,
                forall|k: int| 0 <= k < 7 && k < range ==> #[trigger] drops[k] >= 1,
                old(self)@.holds(origin),
                old(self)@.step_holds(origin, dir, range as int),
                forall|k: int|
                    1 <= k <= range ==> (#[trigger] old(self)@.squares[old(self)@.step_index(
                        origin,
                        dir,
                        k,
                    )]).height() >= drops[k - 1],
                self.consistent(),
                self@.size == old(self)@.size,
                self@.round == old(self)@.round,
                self@.player == old(self)@.player,
                self@.white == old(self)@.white,
                self@.black == old(self)@.black,
                start_idx == self@.index_of(origin),
                end_idx == self@.step_index(origin, dir, range as int),
                start_idx != end_idx,
                end_idx < self.size * self.size,
                start_idx < self.size * self.size,
                self.hash_ok_but(start_idx as int),
                old(self)@.gather(origin, dir, drops, 1, range as nat) == self@.gather(
                    origin,
                    dir,
                    drops,
                    i as nat,
                    range as nat,
                ),
                forall|k: int|
                    i <= k <= range ==> self@.squares[#[trigger] old(self)@.step_index(
                        origin,
                        dir,
                        k,
                    )] == old(self)@.squares[old(self)@.step_index(origin, dir, k)],
                i > 1 ==> self.owners[start_idx as int]@.len() >= 1,
                i > range ==> self.owners[end_idx as int]@.len() + drops[range - 1] == old(
                    self,
                )@.squares[end_idx as int].height(),
            decreases range + 1 - i,
        {
            let ghost first = old(self)@;
            let ghost before = *self;
            proof {
                self.lemma_view_wf();
                lemma_steps_hold(first, origin, dir, range as int, i as int);
                lemma_step_bounds(first, origin, dir, i as int);
                lemma_steps_distinct(first, origin, dir, 0, i as int);
                assert(first.step_index(origin, dir, i as int) == self@.step_index(
                    origin,
                    dir,
                    i as int,
                ));
                assert forall|k: int| i < k <= range implies #[trigger] first.step_index(
                    origin,
                    dir,
                    k,
                ) != first.step_index(origin, dir, i as int) && first.step_index(origin, dir, k)
                    != start_idx && 0 <= first.step_index(origin, dir, k) < first.area() by {
                    lemma_steps_hold(first, origin, dir, range as int, k);
                    lemma_steps_distinct(first, origin, dir, k, i as int);
                    lemma_steps_distinct(first, origin, dir, 0, k);
                    lemma_step_bounds(first, origin, dir, k);
                }
                assert(drops[i - 1] >= 1);
            }
            let idx = self.offset(start_idx, dir, i);
            proof {
                assert(idx == first.step_index(origin, dir, i as int));
                assert(before@.squares[idx as int] == first.squares[idx as int]);
                assert(before@.squares[idx as int].stack == before.owners[idx as int]@);
                assert(before@.squares[start_idx as int].stack == before.owners[start_idx as int]@);
            }
            self.carry(idx, start_idx, drops[(i - 1) as usize], start_idx);
            proof {
                assert(self@.squares[start_idx as int].stack == self.owners[start_idx as int]@);
                assert(self@.squares[end_idx as int].stack == self.owners[end_idx as int]@);
                assert forall|k: int| i + 1 <= k <= range implies self@.squares[#[trigger] first.step_index(
                    origin,
                    dir,
                    k,
                )] == first.squares[first.step_index(origin, dir, k)] by {
                    assert(before@.squares[first.step_index(origin, dir, k)]
                        == first.squares[first.step_index(origin, dir, k)]);
                }
            }
            i += 1;
        }
        proof {
            self.lemma_view_wf();
            assert(self.square_ok(end_idx as int));
        }
        self.crown(start_idx, top);
        if smashed {
            self.crown(end_idx, Piece::Wall);
        }
        proof {
            assert(self.square_ok(start_idx as int));
        }
        self.update_hash(start_idx);
        proof {
            let bh = board_hash(self@.squares, self@.area());
            let hs = square_hash(self.owners[start_idx as int]@, start_idx as int);
            assert((bh ^ hs) ^ hs == bh) by (bit_vector);
        }
    }

    /// Takes back the move that led to this position.
    pub fn undo(&mut self, m: &Move)
        requires
            old(self).wf(),
            old(self)@.can_undo(*m),
        ensures
            final(self).wf(),
            final(self)@ == old(self)@.undo(*m),
    {
        proof {
            self.lemma_view_wf();
        }
        if self.player == Player::White {
            self.round -= 1;
        }
        self.player = self.player.opponent();
        proof {
            lemma_frame(*old(self), *self);
            assert(self@ == old(self)@.retreat());
        }
        match m {
            Move::Place(loc, piece) => {
                proof {
                    lemma_index(self@, loc.x as int, loc.y as int);
                    lemma_stones_update(
                        self@.squares,
                        self@.area(),
                        self@.index_of(*loc),
                        self@.unplace(*loc, *piece).squares[self@.index_of(*loc)],
                    );
                }
                self.take_stone(*loc, *piece);
            },
            Move::Move(origin, dir, range, drops, smashed) => {
                proof {
                    lemma_gather_frame(self@, *origin, *dir, *drops, 1, *range as nat);
                    let first = old(self)@;
                    assert forall|k: int| 1 <= k <= *range implies (#[trigger] self@.squares[self@.step_index(
                        *origin,
                        *dir,
                        k,
                    )]).height() >= drops[k - 1] by {
                        assert(first.squares[first.step_index(*origin, *dir, k)].height()
                            >= drops[k - 1]);
                    }
                }
                self.unslide_stack(*origin, *dir, *range, *drops, *smashed);
            },
        }
    }
}

} // verus!
