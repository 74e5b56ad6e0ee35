//! What holds of the game as a whole: theorems about the model of a position that relate
//! validation, execution, undo, move generation, status and hashing to each other.

use vstd::prelude::*;

use crate::bits::play::lemma_spread_frame;
use crate::bits::game::lemma_index;
use crate::game::{
    drops_sum, lemma_sums_grow, lifted, Dir, Loc, Move, MoveValidity, Piece, Player, Winner,
};
use crate::movegen::dir_of;
use crate::position::Position;
use crate::tables::{drop_table, entry_ok, lemma_table_entry, DropCount};

verus! {

// ----- hashing -----

/// Positions with the same board and the same side to move have the same hash, whatever
/// their rounds and pools.
pub proof fn lemma_hash_stable(a: Position, b: Position)
    requires
        a.size == b.size,
        a.squares == b.squares,
        a.player == b.player,
    ensures
        a.hash() == b.hash(),
{
}

// ----- status -----

/// A path on one board is a path on every board with the same squares.
proof fn lemma_joins_same(a: Position, b: Position, p: Player, vertical: bool)
    requires
        a.size == b.size,
        a.squares == b.squares,
        a.joins(p, vertical),
    ensures
        b.joins(p, vertical),
{
    let path = choose|path: Seq<int>|
        #[trigger] a.is_path(p, path) && a.edge_start(vertical, path.first()) && a.edge_end(
            vertical,
            path.last(),
        );
    assert forall|k: int| 0 <= k < path.len() implies b.road_square(p, #[trigger] path[k]) by {
        assert(a.road_square(p, path[k]));
    }
    assert forall|k: int| 0 <= k < path.len() - 1 implies b.adjacent(
        #[trigger] path[k],
        path[k + 1],
    ) by {
        assert(a.adjacent(path[k], path[k + 1]));
    }
    assert(b.is_path(p, path));
}

/// The status of a position depends on nothing but its board, its side to move and its
/// pools: positions that agree in these have the same status.
pub proof fn lemma_status_determined(a: Position, b: Position)
    requires
        a.size == b.size,
        a.squares == b.squares,
        a.player == b.player,
        a.white == b.white,
        a.black == b.black,
    ensures
        a.status() == b.status(),
{
    if a.joins(Player::White, true) {
        lemma_joins_same(a, b, Player::White, true);
    }
    if b.joins(Player::White, true) {
        lemma_joins_same(b, a, Player::White, true);
    }
    if a.joins(Player::White, false) {
        lemma_joins_same(a, b, Player::White, false);
    }
    if b.joins(Player::White, false) {
        lemma_joins_same(b, a, Player::White, false);
    }
    if a.joins(Player::Black, true) {
        lemma_joins_same(a, b, Player::Black, true);
    }
    if b.joins(Player::Black, true) {
        lemma_joins_same(b, a, Player::Black, true);
    }
    if a.joins(Player::Black, false) {
        lemma_joins_same(a, b, Player::Black, false);
    }
    if b.joins(Player::Black, false) {
        lemma_joins_same(b, a, Player::Black, false);
    }
    lemma_flats_same(a, b, Player::White, a.area());
    lemma_flats_same(a, b, Player::Black, a.area());
    if a.board_full() {
        assert forall|i: int| 0 <= i < b.area() implies !(#[trigger] b.squares[i]).is_empty() by {
            assert(!a.squares[i].is_empty());
        }
    }
    if b.board_full() {
        assert forall|i: int| 0 <= i < a.area() implies !(#[trigger] a.squares[i]).is_empty() by {
            assert(!b.squares[i].is_empty());
        }
    }
}

/// Boards with the same squares have the same flats on top.
proof fn lemma_flats_same(a: Position, b: Position, p: Player, k: nat)
    requires
        a.squares == b.squares,
    ensures
        a.flat_count(p, k) == b.flat_count(p, k),
    decreases k,
{
    if k > 0 {
        lemma_flats_same(a, b, p, (k - 1) as nat);
    }
}

/// The turn passes with every move.
pub proof fn lemma_turn_passes(p: Position, m: Move)
    ensures
        p.execute(m).player == p.player.other(),
{
    match m {
        Move::Place(loc, piece) => {},
        Move::Move(origin, dir, range, drops, _) => {
            lemma_spread_frame(p, origin, dir, drops, range as nat);
        },
    }
}

/// The dragon rule: where a move makes a road for both players, the player who made the
/// move has won.
pub proof fn lemma_dragon_rule(p: Position, m: Move)
    requires
        p.execute(m).has_road(Player::White),
        p.execute(m).has_road(Player::Black),
    ensures
        p.execute(m).status() == Some(Winner::Road(p.player)),
{
    lemma_turn_passes(p, m);
}

// ----- move generation -----

/// The number of empty squares among the first `k`.
pub open spec fn empty_squares(p: Position, k: nat) -> nat
    decreases k,
{
    if k == 0 {
        0
    } else {
        empty_squares(p, (k - 1) as nat) + if p.squares[k - 1].is_empty() {
            1nat
        } else {
            0nat
        }
    }
}

proof fn lemma_opening_upto(p: Position, k: nat)
    requires
        p.round == 1,
    ensures
        p.moves_upto(k).len() == empty_squares(p, k),
    decreases k,
{
    if k > 0 {
        lemma_opening_upto(p, (k - 1) as nat);
    }
}

/// In round 1 the moves are as many as the empty squares.
pub proof fn lemma_opening_moves(p: Position)
    requires
        p.round == 1,
    ensures
        p.moves().len() == empty_squares(p, p.area()),
{
    lemma_opening_upto(p, p.area());
}

/// Every move stems from a part of a square: the result names the square, the part and
/// the place in the part.
pub proof fn lemma_move_source(p: Position, k: nat, j: int) -> (r: (int, int, int))
    requires
        0 <= j < p.moves_upto(k).len(),
    ensures
        0 <= r.0 < k,
        0 <= r.1 < 4,
        0 <= r.2 < p.part(r.0, r.1).len(),
        p.moves_upto(k)[j] == p.part(r.0, r.1)[r.2],
        j == p.place_of(r.0, r.1 as nat, r.2 as nat),
    decreases k,
{
    let before = p.moves_upto((k - 1) as nat);
    if j < before.len() {
        lemma_move_source(p, (k - 1) as nat, j)
    } else {
        let t = j - before.len();
        let i = k - 1;
        let a = p.part(i, 0).len();
        let b = p.part(i, 1).len();
        let c = p.part(i, 2).len();
        reveal_with_fuel(Position::part_offset, 5);
        if t < a {
            (i, 0, t)
        } else if t < a + b {
            (i, 1, t - a)
        } else if t < a + b + c {
            (i, 2, t - a - b)
        } else {
            (i, 3, t - a - b - c)
        }
    }
}

/// The square of an index is on the board and has that index.
pub proof fn lemma_loc_of(p: Position, i: int)
    requires
        3 <= p.size <= 8,
        0 <= i < p.area(),
    ensures
        p.holds(p.loc_of(i)),
        p.index_of(p.loc_of(i)) == i,
{
    let n = p.size as int;
    vstd::arithmetic::div_mod::lemma_fundamental_div_mod(i, n);
    assert(i / n < n) by (nonlinear_arith)
        requires
            0 <= i < n * n,
            n > 0,
    ;
    assert(i / n >= 0) by (nonlinear_arith)
        requires
            0 <= i,
            n > 0,
    ;
}

/// What the way of a stack is like, as far as it reaches: every square of it is on the
/// board; all but the last are empty or have a flat on top; the last one too, unless it
/// has a wall on top, the stack a capstone, and the way ends there on that wall.
proof fn lemma_reach(p: Position, origin: Loc, dir: Dir, from: nat, k: int)
    requires
        p.holds(origin),
        from < k <= from + p.reach(origin, dir, from),
    ensures
        p.step_holds(origin, dir, k),
        ({
            let sq = p.squares[p.step_index(origin, dir, k)];
            sq.is_empty() || sq.top == Piece::Flat || (sq.top == Piece::Wall && p.at(origin).top
                == Piece::Cap && k == from + p.reach(origin, dir, from) && p.wall_ahead(
                origin,
                dir,
                from,
            ))
        }),
    decreases p.size - from,
{
    if k > from + 1 {
        lemma_reach(p, origin, dir, from + 1, k);
    }
}

/// The steps of a generated slide pass the checks of validation.
proof fn lemma_slide_steps(
    p: Position,
    origin: Loc,
    dir: Dir,
    e: DropCount,
    i: nat,
)
    requires
        p.wf(),
        p.holds(origin),
        entry_ok(e, p.mobile(origin), p.slide_dist(origin, dir), p.wall_ahead(origin, dir, 0)),
        1 <= i <= e.0 + 1,
        p.slide_dist(origin, dir) <= 7,
    ensures
        p.validate_steps(origin, dir, e.0, e.1, i, drops_sum(e.1, (i - 1) as nat))
            == MoveValidity::Valid,
    decreases e.0 + 1 - i,
{
    if i <= e.0 {
        lemma_reach(p, origin, dir, 0, i as int);
        lemma_sums_grow(e.1, i, e.0 as nat);
        assert(e.1[i - 1] >= 1);
        lemma_slide_steps(p, origin, dir, e, i + 1);
    }
}

/// The reach of a stack stays on the board, so it is at most 7 squares.
pub proof fn lemma_reach_bound(p: Position, origin: Loc, dir: Dir)
    requires
        3 <= p.size <= 8,
        p.holds(origin),
    ensures
        p.reach(origin, dir, 0) <= 7,
{
    let r = p.reach(origin, dir, 0);
    if r > 0 {
        lemma_reach(p, origin, dir, 0, r as int);
        crate::bits::play::lemma_range_bound(p, origin, dir, r as int);
    }
}

/// Every move of a part of a square is valid.
proof fn lemma_part_valid(p: Position, i: int, part: int, t: int)
    requires
        p.wf(),
        0 <= i < p.area(),
        0 <= part < 4,
        0 <= t < p.part(i, part).len(),
    ensures
        p.part(i, part)[t].well_formed(),
        p.validate(p.part(i, part)[t]) == MoveValidity::Valid,
        p.part(i, part)[t] matches Move::Move(origin, _, range, drops, _) ==> range <= 7
            && drops_sum(drops, range as nat) <= p.size && drops_sum(drops, range as nat)
            <= p.at(origin).height(),
{
    lemma_loc_of(p, i);
    let loc = p.loc_of(i);
    let sq = p.squares[i];
    if sq.is_empty() {
    } else {
        let dir = dir_of(part);
        lemma_reach_bound(p, loc, dir);
        let mobile = p.mobile(loc);
        let dist = p.slide_dist(loc, dir);
        let smash = p.wall_ahead(loc, dir, 0);
        lemma_table_entry(mobile, dist, smash, t);
        let e = drop_table(mobile, dist, smash)[t];
        assert(p.part(i, part)[t] == Move::Move(loc, dir, e.0, e.1, false));
        lemma_reach(p, loc, dir, 0, e.0 as int);
        lemma_slide_steps(p, loc, dir, e, 1);
    }
}

/// Generator completeness: every move that is generated is well formed and valid.
pub proof fn lemma_generated_valid(p: Position, j: int)
    requires
        p.wf(),
        0 <= j < p.moves().len(),
    ensures
        p.moves()[j].well_formed(),
        p.validate(p.moves()[j]) == MoveValidity::Valid,
{
    let (i, part, t) = lemma_move_source(p, p.area(), j);
    lemma_part_valid(p, i, part, t);
}

/// The carry limit in validation: a slide is judged to break the carry limit exactly when
/// it starts on the board after the first round from a stack that the mover controls and
/// lifts more stones than the board is wide. Where it leads and how high the stack is
/// play no part.
pub proof fn lemma_over_limit(p: Position, m: Move)
    ensures
        p.validate(m) == MoveValidity::CarryLimit <==> (m matches Move::Move(
            origin,
            _,
            range,
            drops,
            _,
        ) && p.holds(origin) && p.round != 1 && p.at(origin).owned_by(p.player) && lifted(
            range,
            drops,
        ) > p.size),
{
    if let Move::Move(origin, dir, range, drops, _) = m {
        lemma_steps_within(p, origin, dir, range, drops, 1, 0);
    }
}

/// The checks of the steps of a slide never find the carry limit broken.
proof fn lemma_steps_within(
    p: Position,
    origin: Loc,
    dir: Dir,
    range: u8,
    drops: [u8; 7],
    i: nat,
    moved: nat,
)
    ensures
        p.validate_steps(origin, dir, range, drops, i, moved) != MoveValidity::CarryLimit,
    decreases range + 1 - i,
{
    if i <= range && i <= 7 {
        lemma_steps_within(p, origin, dir, range, drops, i + 1, moved + drops[i - 1] as nat);
    }
}

/// The carry limit: a slide that is generated lifts no more stones than the board is
/// wide, and no more than its stack holds.
pub proof fn lemma_carry_limit(p: Position, j: int)
    requires
        p.wf(),
        0 <= j < p.moves().len(),
    ensures
        p.moves()[j] matches Move::Move(origin, _, range, drops, _) ==> drops_sum(
            drops,
            range as nat,
        ) <= p.size && drops_sum(drops, range as nat) <= p.at(origin).height(),
{
    let (i, part, t) = lemma_move_source(p, p.area(), j);
    lemma_part_valid(p, i, part, t);
}

} // verus!
