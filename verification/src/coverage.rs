//! What move generation covers: every valid slide and every valid placement that the
//! rules of generation offer is generated, and no move is generated twice.

use vstd::prelude::*;

use crate::bits::game::lemma_index;
use crate::bits::play::{lemma_step_bounds, lemma_steps_hold, lemma_valid_slide, slide_facts};
use crate::game::{drops_sum, lemma_sums_grow, Dir, Loc, Move, MoveValidity, Piece};
use crate::laws::{lemma_loc_of, lemma_move_source, lemma_reach_bound};
use crate::movegen::{dir_of, lemma_place_of};
use crate::position::Position;
use crate::tables::{
    completions, drop_table, entry_ok, lemma_completions, no_drops, slides_of_range, slides_upto,
    with_drop, DropCount,
};

verus! {

// ----- the tables -----

/// Drop counts of at least one stone each add up to at least their number.
proof fn lemma_sum_at_least(drops: [u8; 7], a: nat, b: nat)
    requires
        a <= b <= 7,
        forall|i: int| a <= i < b ==> #[trigger] drops[i] >= 1,
    ensures
        drops_sum(drops, b) >= drops_sum(drops, a) + (b - a),
    decreases b - a,
{
    if a < b {
        lemma_sum_at_least(drops, a, (b - 1) as nat);
        assert(drops[b - 1] >= 1);
    }
}

/// The completions hold every way to go on that the definition describes: the result is
/// the place of `d` among them.
proof fn lemma_completions_hold(
    drops: [u8; 7],
    k: nat,
    range: nat,
    v: nat,
    budget: nat,
    last_one: bool,
    d: [u8; 7],
) -> (j: int)
    requires
        k <= range <= 7,
        1 <= v,
        budget <= 255,
        forall|i: int| 0 <= i < k ==> #[trigger] d[i] == drops[i],
        forall|i: int| range <= i < 7 ==> #[trigger] d[i] == drops[i],
        forall|i: int| k <= i < range ==> #[trigger] d[i] >= 1,
        k < range ==> d[k as int] >= v,
        drops_sum(d, range) <= drops_sum(d, k) + budget,
        last_one && k < range ==> d[range - 1] == 1,
    ensures
        0 <= j < completions(drops, k, range, v, budget, last_one).len(),
        completions(drops, k, range, v, budget, last_one)[j] == d,
    decreases range - k, budget + 1 - v,
{
    if k >= range {
        assert(d@ =~= drops@);
        0
    } else {
        lemma_sum_at_least(d, k + 1, range);
        assert(d[k as int] + (range - k - 1) <= budget);
        let next = with_drop(drops, k as int, v as u8);
        let first = completions(next, k + 1, range, 1, (budget - v) as nat, last_one);
        if d[k as int] == v {
            assert forall|i: int| 0 <= i < k + 1 implies #[trigger] d[i] == next[i] by {}
            assert forall|i: int| range <= i < 7 implies #[trigger] d[i] == next[i] by {}
            lemma_completions_hold(next, k + 1, range, 1, (budget - v) as nat, last_one, d)
        } else {
            let j = lemma_completions_hold(drops, k, range, v + 1, budget, last_one, d);
            first.len() + j
        }
    }
}

/// No way to go on stands twice among the completions.
proof fn lemma_completions_distinct(
    drops: [u8; 7],
    k: nat,
    range: nat,
    v: nat,
    budget: nat,
    last_one: bool,
    a: int,
    b: int,
)
    requires
        k <= range <= 7,
        1 <= v,
        budget <= 255,
        0 <= a < b < completions(drops, k, range, v, budget, last_one).len(),
    ensures
        completions(drops, k, range, v, budget, last_one)[a] != completions(
            drops,
            k,
            range,
            v,
            budget,
            last_one,
        )[b],
    decreases range - k, budget + 1 - v,
{
    if k >= range {
    } else if v + (range - k - 1) > budget {
    } else if last_one && k + 1 == range && v > 1 {
    } else {
        let next = with_drop(drops, k as int, v as u8);
        let first = completions(next, k + 1, range, 1, (budget - v) as nat, last_one);
        if b < first.len() {
            lemma_completions_distinct(next, k + 1, range, 1, (budget - v) as nat, last_one, a, b);
        } else if a >= first.len() {
            lemma_completions_distinct(
                drops,
                k,
                range,
                v + 1,
                budget,
                last_one,
                a - first.len(),
                b - first.len(),
            );
        } else {
            lemma_completions(next, k + 1, range, 1, (budget - v) as nat, last_one, a);
            lemma_completions(drops, k, range, v + 1, budget, last_one, b - first.len());
            assert(first[a][k as int] == next[k as int]);
        }
    }
}

/// Every entry of the slides over up to `upto` squares covers at most `upto` squares.
proof fn lemma_slides_ranges(mobile: nat, dist: nat, smash: bool, upto: nat, j: int)
    requires
        upto <= 7,
        0 <= j < slides_upto(mobile, dist, smash, upto).len(),
    ensures
        1 <= slides_upto(mobile, dist, smash, upto)[j].0 <= upto,
    decreases upto,
{
    let shorter = slides_upto(mobile, dist, smash, (upto - 1) as nat);
    if j < shorter.len() {
        lemma_slides_ranges(mobile, dist, smash, (upto - 1) as nat, j);
    }
}

/// The slides over up to `upto` squares hold every entry of the table's kind that covers
/// at most `upto` squares: the result is its place.
proof fn lemma_slides_hold(mobile: nat, dist: nat, smash: bool, upto: nat, e: DropCount) -> (j: int)
    requires
        upto <= dist <= 7,
        mobile <= 255,
        entry_ok(e, mobile, dist, smash),
        e.0 <= upto,
    ensures
        0 <= j < slides_upto(mobile, dist, smash, upto).len(),
        slides_upto(mobile, dist, smash, upto)[j] == e,
    decreases upto,
{
    let shorter = slides_upto(mobile, dist, smash, (upto - 1) as nat);
    if e.0 < upto {
        lemma_slides_hold(mobile, dist, smash, (upto - 1) as nat, e)
    } else {
        assert forall|i: int| 0 <= i < 0 implies #[trigger] e.1[i] == no_drops()[i] by {}
        assert forall|i: int| upto <= i < 7 implies #[trigger] e.1[i] == no_drops()[i] by {}
        assert(e.1[0] >= 1);
        let j = lemma_completions_hold(
            no_drops(),
            0,
            upto,
            1,
            mobile,
            smash && upto == dist,
            e.1,
        );
        assert(slides_of_range(mobile, dist, smash, upto)[j] == e);
        shorter.len() + j
    }
}

/// No entry stands twice among the slides over up to `upto` squares.
proof fn lemma_slides_distinct(mobile: nat, dist: nat, smash: bool, upto: nat, a: int, b: int)
    requires
        upto <= 7,
        mobile <= 255,
        0 <= a < b < slides_upto(mobile, dist, smash, upto).len(),
    ensures
        slides_upto(mobile, dist, smash, upto)[a] != slides_upto(mobile, dist, smash, upto)[b],
    decreases upto,
{
    let shorter = slides_upto(mobile, dist, smash, (upto - 1) as nat);
    if b < shorter.len() {
        lemma_slides_distinct(mobile, dist, smash, (upto - 1) as nat, a, b);
    } else if a >= shorter.len() {
        lemma_completions_distinct(
            no_drops(),
            0,
            upto,
            1,
            mobile,
            smash && upto == dist,
            a - shorter.len(),
            b - shorter.len(),
        );
    } else {
        lemma_slides_ranges(mobile, dist, smash, (upto - 1) as nat, a);
    }
}

/// A table holds every entry of its kind: the result is the place of the entry.
pub proof fn lemma_table_holds(mobile: nat, dist: nat, smash: bool, e: DropCount) -> (j: int)
    requires
        dist <= 7,
        mobile <= 255,
        entry_ok(e, mobile, dist, smash),
    ensures
        0 <= j < drop_table(mobile, dist, smash).len(),
        drop_table(mobile, dist, smash)[j] == e,
{
    lemma_slides_hold(mobile, dist, smash, dist, e)
}

/// No entry stands twice in a table.
pub proof fn lemma_table_distinct(mobile: nat, dist: nat, smash: bool, a: int, b: int)
    requires
        dist <= 7,
        mobile <= 255,
        0 <= a < b < drop_table(mobile, dist, smash).len(),
    ensures
        drop_table(mobile, dist, smash)[a] != drop_table(mobile, dist, smash)[b],
{
    lemma_slides_distinct(mobile, dist, smash, dist, a, b);
}

// ----- the way of a stack -----

/// A step that is on the board is shorter than the board is wide.
proof fn lemma_step_short(p: Position, origin: Loc, dir: Dir, k: int)
    requires
        p.holds(origin),
        p.step_holds(origin, dir, k),
        0 <= k,
    ensures
        k < p.size,
{
    match dir {
        Dir::Up => {},
        Dir::Down => {},
        Dir::Left => {},
        Dir::Right => {},
    }
}

/// Where the way of a stack ends on a wall that the stack can flatten, the last square
/// that the stack reaches has that wall on top.
proof fn lemma_wall_end(p: Position, origin: Loc, dir: Dir, k: nat)
    requires
        p.wall_ahead(origin, dir, k),
    ensures
        p.reach(origin, dir, k) >= 1,
        ({
            let sq = p.squares[p.step_index(origin, dir, (k + p.reach(origin, dir, k)) as int)];
            !sq.is_empty() && sq.top == Piece::Wall
        }),
    decreases p.size - k,
{
    let sq = p.squares[p.step_index(origin, dir, k + 1 as int)];
    if sq.is_empty() || sq.top == Piece::Flat {
        lemma_wall_end(p, origin, dir, k + 1);
    }
}

/// A valid slide is an entry of the table for its stack and its direction.
proof fn lemma_valid_entry(p: Position, origin: Loc, dir: Dir, range: u8, drops: [u8; 7])
    requires
        p.wf(),
        slide_facts(p, origin, dir, range, drops),
        forall|i: int| 0 <= i < range ==> #[trigger] drops[i] >= 1,
        forall|i: int| range <= i < 7 ==> #[trigger] drops[i] == 0,
    ensures
        entry_ok(
            DropCount(range, drops),
            p.mobile(origin),
            p.slide_dist(origin, dir),
            p.wall_ahead(origin, dir, 0),
        ),
        p.slide_dist(origin, dir) <= 7,
{
    let r = range as nat;
    lemma_sum_at_least(drops, 0, r);
    assert forall|j: int| 0 < j <= r implies p.step_holds(origin, dir, j) && ({
        let sq = #[trigger] p.squares[p.step_index(origin, dir, j)];
        sq.is_empty() || sq.top == Piece::Flat || (sq.top == Piece::Wall && p.at(origin).top
            == Piece::Cap && j == r)
    }) by {
        lemma_steps_hold(p, origin, dir, range as int, j);
        let sq = p.squares[p.step_index(origin, dir, j)];
        lemma_step_bounds(p, origin, dir, j);
        assert(sq.is_empty() ==> sq.top == Piece::Flat);
    }
    lemma_reach_limit(p, origin, dir, 0, r);
    lemma_sums_grow(drops, (r - 1) as nat, r);
    lemma_sum_at_least(drops, 0, (r - 1) as nat);
    if p.wall_ahead(origin, dir, 0) && r == p.slide_dist(origin, dir) {
        if r == p.reach(origin, dir, 0) {
            lemma_wall_end(p, origin, dir, 0);
            let sq = p.squares[p.step_index(origin, dir, range as int)];
            assert(!sq.is_empty() && sq.top == Piece::Wall);
        }
    }
    lemma_reach_bound(p, origin, dir);
}

/// A way whose squares let a stack pass, with a wall on the last one at most, is no
/// longer than the stack reaches.
proof fn lemma_reach_limit(p: Position, origin: Loc, dir: Dir, k: nat, range: nat)
    requires
        p.holds(origin),
        k <= range,
        forall|j: int|
            k < j <= range ==> p.step_holds(origin, dir, j) && ({
                let sq = #[trigger] p.squares[p.step_index(origin, dir, j)];
                sq.is_empty() || sq.top == Piece::Flat || (sq.top == Piece::Wall && p.at(origin).top
                    == Piece::Cap && j == range)
            }),
    ensures
        p.reach(origin, dir, k) >= range - k,
    decreases range - k,
{
    if k < range {
        lemma_step_short(p, origin, dir, k + 1 as int);
        assert(p.step_holds(origin, dir, k + 1 as int));
        let sq = p.squares[p.step_index(origin, dir, k + 1 as int)];
        if sq.is_empty() || sq.top == Piece::Flat {
            lemma_reach_limit(p, origin, dir, k + 1, range);
        }
    }
}

// ----- the moves -----

/// The place of a direction in the order of generation.
pub open spec fn dir_index(dir: Dir) -> int {
    match dir {
        Dir::Up => 0,
        Dir::Down => 1,
        Dir::Left => 2,
        Dir::Right => 3,
    }
}

/// A move as move generation writes it: a slide has no note of a flattened wall, and no
/// stones beyond the squares it covers.
pub open spec fn plain(m: Move) -> bool {
    match m {
        Move::Place(_, _) => true,
        Move::Move(_, _, range, drops, smashed) => !smashed && forall|i: int|
            range <= i < 7 ==> #[trigger] drops[i] == 0,
    }
}

/// The square that a move starts on.
pub open spec fn square_of(m: Move) -> Loc {
    match m {
        Move::Place(loc, _) => loc,
        Move::Move(origin, _, _, _, _) => origin,
    }
}

/// A square on the board is the square of its index.
proof fn lemma_loc_index(p: Position, loc: Loc)
    requires
        3 <= p.size <= 8,
        p.holds(loc),
    ensures
        0 <= p.index_of(loc) < p.area(),
        p.loc_of(p.index_of(loc)) == loc,
{
    lemma_index(p, loc.x as int, loc.y as int);
}

/// Every valid move that the rules of generation offer is generated: every valid slide,
/// every valid placement of a flat or a wall, and every valid placement of a capstone when
/// the mover has no flats left. The result is the place of the move among the moves.
pub proof fn lemma_valid_generated(p: Position, m: Move) -> (j: int)
    requires
        p.wf(),
        m.well_formed(),
        plain(m),
        p.validate(m) == MoveValidity::Valid,
        m matches Move::Place(_, piece) ==> piece == Piece::Cap ==> p.pool(p.player).flats == 0,
    ensures
        0 <= j < p.moves().len(),
        p.moves()[j] == m,
{
    match m {
        Move::Place(loc, piece) => {
            lemma_loc_index(p, loc);
            let i = p.index_of(loc);
            let t: nat = if piece == Piece::Wall && p.round >= 2 {
                1
            } else {
                0
            };
            assert(p.part(i, 0) == p.placements(loc));
            lemma_place_of(p, i, 0, t);
            p.place_of(i, 0, t) as int
        },
        Move::Move(origin, dir, range, drops, smashed) => {
            lemma_valid_slide(p, m);
            lemma_loc_index(p, origin);
            let i = p.index_of(origin);
            let part = dir_index(dir);
            lemma_valid_entry(p, origin, dir, range, drops);
            let t = lemma_table_holds(
                p.mobile(origin),
                p.slide_dist(origin, dir),
                p.wall_ahead(origin, dir, 0),
                DropCount(range, drops),
            );
            assert(dir_of(part) == dir);
            assert(p.part(i, part) == p.slides(origin, dir));
            assert(p.slides(origin, dir)[t] == m);
            lemma_place_of(p, i, part as nat, t as nat);
            p.place_of(i, part as nat, t as nat) as int
        },
    }
}

/// A move of a part of a square starts on that square.
proof fn lemma_part_square(p: Position, i: int, part: int, t: int)
    requires
        0 <= t < p.part(i, part).len(),
    ensures
        square_of(p.part(i, part)[t]) == p.loc_of(i),
{
}

/// No move is generated twice.
pub proof fn lemma_moves_distinct(p: Position, a: int, b: int)
    requires
        p.wf(),
        0 <= a < b < p.moves().len(),
    ensures
        p.moves()[a] != p.moves()[b],
{
    let (i, part, t) = lemma_move_source(p, p.area(), a);
    let (i2, part2, t2) = lemma_move_source(p, p.area(), b);
    lemma_part_square(p, i, part, t);
    lemma_part_square(p, i2, part2, t2);
    lemma_loc_of(p, i);
    lemma_loc_of(p, i2);
    if i == i2 {
        let sq = p.squares[i];
        if sq.is_empty() {
            assert(part == 0 && part2 == 0);
            assert(t != t2);
        } else {
            let loc = p.loc_of(i);
            if part == part2 {
                let dir = dir_of(part);
                lemma_reach_bound(p, loc, dir);
                assert(t != t2);
                if t < t2 {
                    lemma_table_distinct(
                        p.mobile(loc),
                        p.slide_dist(loc, dir),
                        p.wall_ahead(loc, dir, 0),
                        t,
                        t2,
                    );
                } else {
                    lemma_table_distinct(
                        p.mobile(loc),
                        p.slide_dist(loc, dir),
                        p.wall_ahead(loc, dir, 0),
                        t2,
                        t,
                    );
                }
            } else {
                assert(dir_of(part) != dir_of(part2));
            }
        }
    }
}

} // verus!
