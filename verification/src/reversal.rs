//! Undo is the inverse of execute: the proof that taking a valid move back leads to the
//! position it was made in.

use vstd::prelude::*;

use crate::bits::game::lemma_index;
use crate::bits::play::{
    lemma_gather_frame, lemma_spread_frame, lemma_step_bounds, lemma_steps_distinct,
    lemma_steps_hold, lemma_valid_slide, };
use crate::game::{drops_sum, Dir, Loc, Move, MoveValidity, Piece};
use crate::position::{Position, Square};

verus! {

/// Square `j` is one of the first `i` squares of the way from `origin` in direction `dir`.
pub open spec fn on_way(p: Position, origin: Loc, dir: Dir, i: nat, j: int) -> bool {
    exists|k: int| 1 <= k <= i && j == #[trigger] p.step_index(origin, dir, k)
}

/// The board has its shape, and the way from `origin` over `i` squares is on it.
pub open spec fn way_fits(p: Position, origin: Loc, dir: Dir, i: nat) -> bool {
    &&& 3 <= p.size <= 8
    &&& p.squares.len() == p.area()
    &&& p.holds(origin)
    &&& p.step_holds(origin, dir, i as int)
}

/// The position with a flat on top of the origin and of the first `i` squares of the way,
/// if the way has a square at all.
pub open spec fn flattened(p: Position, origin: Loc, dir: Dir, i: nat) -> Position {
    Position {
        squares: Seq::new(
            p.squares.len(),
            |j: int|
                if i >= 1 && (j == p.index_of(origin) || on_way(p, origin, dir, i, j)) {
                    Square { stack: p.squares[j].stack, top: Piece::Flat }
                } else {
                    p.squares[j]
                },
        ),
        ..p
    }
}

/// The squares of a way and the origin are different squares of the board.
proof fn lemma_way(p: Position, origin: Loc, dir: Dir, i: nat, k: int)
    requires
        way_fits(p, origin, dir, i),
        1 <= k <= i,
    ensures
        0 <= p.index_of(origin) < p.area(),
        0 <= p.step_index(origin, dir, k) < p.area(),
        p.step_index(origin, dir, k) != p.index_of(origin),
        forall|l: int|
            1 <= l <= i && l != k ==> #[trigger] p.step_index(origin, dir, l) != p.step_index(
                origin,
                dir,
                k,
            ),
{
    lemma_steps_hold(p, origin, dir, i as int, k);
    lemma_step_bounds(p, origin, dir, k);
    lemma_step_bounds(p, origin, dir, 0);
    lemma_steps_distinct(p, origin, dir, 0, k);
    assert forall|l: int| 1 <= l <= i && l != k implies #[trigger] p.step_index(origin, dir, l)
        != p.step_index(origin, dir, k) by {
        lemma_steps_hold(p, origin, dir, i as int, l);
        lemma_steps_distinct(p, origin, dir, l, k);
    }
}

/// Gathering up to a square is gathering up to the square before it, and then that
/// square.
proof fn lemma_gather_last(p: Position, origin: Loc, dir: Dir, drops: [u8; 7], i: nat, r: nat)
    requires
        1 <= i <= r,
    ensures
        p.gather(origin, dir, drops, i, r) == p.gather(origin, dir, drops, i, (r - 1) as nat).transfer(
            p.step_index(origin, dir, r as int),
            p.index_of(origin),
            drops[r - 1] as nat,
        ),
    decreases r - i,
{
    let next = p.transfer(p.step_index(origin, dir, i as int), p.index_of(origin), drops[i - 1] as nat);
    if i < r {
        lemma_gather_last(next, origin, dir, drops, i + 1, r);
        lemma_gather_frame(next, origin, dir, drops, i + 1, (r - 1) as nat);
    } else {
        assert(next.gather(origin, dir, drops, i + 1, r) == next);
        assert(p.gather(origin, dir, drops, i, (r - 1) as nat) == p);
    }
    lemma_gather_frame(p, origin, dir, drops, i, (r - 1) as nat);
}

/// Spreading leaves every square alone that is neither the origin nor on the way, and
/// puts on each square of the way as many stones as its drop count.
proof fn lemma_spread_shape(
    p: Position,
    origin: Loc,
    dir: Dir,
    drops: [u8; 7],
    i: nat,
    j: int,
)
    requires
        way_fits(p, origin, dir, i),
        i <= 7,
        drops_sum(drops, i) <= p.at(origin).height(),
        0 <= j < p.area(),
    ensures
        p.spread(origin, dir, drops, i).squares.len() == p.squares.len(),
        j != p.index_of(origin) && !on_way(p, origin, dir, i, j) ==> p.spread(
            origin,
            dir,
            drops,
            i,
        ).squares[j] == p.squares[j],
        on_way(p, origin, dir, i, j) ==> exists|k: int|
            1 <= k <= i && j == p.step_index(origin, dir, k) && #[trigger] drops[k - 1]
                + p.squares[j].height() == p.spread(origin, dir, drops, i).squares[j].height(),
    decreases i,
{
    if i > 0 {
        let o = p.index_of(origin);
        let s = p.step_index(origin, dir, i as int);
        let next = p.transfer(o, s, drops[i - 1] as nat);
        lemma_way(p, origin, dir, i, i as int);
        lemma_steps_hold(p, origin, dir, i as int, i - 1);
        assert(way_fits(next, origin, dir, (i - 1) as nat));
        lemma_spread_shape(next, origin, dir, drops, (i - 1) as nat, j);
        if on_way(p, origin, dir, i, j) {
            let k = choose|k: int| 1 <= k <= i && j == #[trigger] p.step_index(origin, dir, k);
            if k < i {
                lemma_way(p, origin, dir, i, k);
                assert(next.squares[j] == p.squares[j]);
                assert(p.spread(origin, dir, drops, i) == next.spread(
                    origin,
                    dir,
                    drops,
                    (i - 1) as nat,
                ));
                assert(next.step_index(origin, dir, k) == j);
                assert(on_way(next, origin, dir, (i - 1) as nat, j));
                let l = choose|l: int|
                    1 <= l <= i - 1 && j == next.step_index(origin, dir, l) && #[trigger] drops[l
                        - 1] + next.squares[j].height() == next.spread(
                        origin,
                        dir,
                        drops,
                        (i - 1) as nat,
                    ).squares[j].height();
                assert(p.step_index(origin, dir, l) == j);
                assert(1 <= l <= i && j == p.step_index(origin, dir, l) && drops[l - 1]
                    + p.squares[j].height() == p.spread(origin, dir, drops, i).squares[j].height());
            } else {
                if on_way(next, origin, dir, (i - 1) as nat, j) {
                    let l = choose|l: int|
                        1 <= l <= i - 1 && j == #[trigger] next.step_index(origin, dir, l);
                    assert(p.step_index(origin, dir, l) == j);
                }
                assert(1 <= i <= i && j == p.step_index(origin, dir, i as int) && drops[i - 1]
                    + p.squares[j].height() == p.spread(origin, dir, drops, i).squares[j].height());
            }
        } else if j != o {
            if on_way(next, origin, dir, (i - 1) as nat, j) {
                let l = choose|l: int|
                    1 <= l <= i - 1 && j == #[trigger] next.step_index(origin, dir, l);
                assert(p.step_index(origin, dir, l) == j);
            }
        }
    }
}

/// Spreading stones and gathering them again leaves every stack as it was, with a flat on
/// top of each square that was touched.
proof fn lemma_gather_spread(p: Position, origin: Loc, dir: Dir, drops: [u8; 7], i: nat)
    requires
        way_fits(p, origin, dir, i),
        i <= 7,
        drops_sum(drops, i) <= p.at(origin).height(),
    ensures
        p.spread(origin, dir, drops, i).gather(origin, dir, drops, 1, i) == flattened(
            p,
            origin,
            dir,
            i,
        ),
    decreases i,
{
    if i == 0 {
        assert(flattened(p, origin, dir, 0).squares =~= p.squares);
    } else {
        let o = p.index_of(origin);
        let s = p.step_index(origin, dir, i as int);
        let d = drops[i - 1] as nat;
        let next = p.transfer(o, s, d);
        lemma_way(p, origin, dir, i, i as int);
        lemma_steps_hold(p, origin, dir, i as int, i - 1);
        assert(way_fits(next, origin, dir, (i - 1) as nat));
        lemma_gather_spread(next, origin, dir, drops, (i - 1) as nat);
        let spread = p.spread(origin, dir, drops, i);
        assert(spread == next.spread(origin, dir, drops, (i - 1) as nat));
        lemma_gather_last(spread, origin, dir, drops, 1, i);
        lemma_spread_frame(next, origin, dir, drops, (i - 1) as nat);
        let inner = flattened(next, origin, dir, (i - 1) as nat);
        let got = inner.transfer(s, o, d);
        let want = flattened(p, origin, dir, i);
        assert(spread.gather(origin, dir, drops, 1, i) == got);
        let src = p.squares[o].stack;
        let dst = p.squares[s].stack;
        assert(!on_way(next, origin, dir, (i - 1) as nat, s)) by {
            if on_way(next, origin, dir, (i - 1) as nat, s) {
                let l = choose|l: int|
                    1 <= l <= i - 1 && s == #[trigger] next.step_index(origin, dir, l);
                assert(p.step_index(origin, dir, l) == s);
            }
        }
        assert(got.squares =~= want.squares) by {
            assert forall|j: int| 0 <= j < want.squares.len() implies got.squares[j]
                == want.squares[j] by {
                if j == o {
                    assert(got.squares[o].stack =~= src);
                } else if j == s {
                    assert(got.squares[s].stack =~= dst);
                    assert(on_way(p, origin, dir, i, s));
                } else {
                    if on_way(next, origin, dir, (i - 1) as nat, j) {
                        let l = choose|l: int|
                            1 <= l <= i - 1 && j == #[trigger] next.step_index(origin, dir, l);
                        assert(p.step_index(origin, dir, l) == j);
                    }
                    if on_way(p, origin, dir, i, j) {
                        let l = choose|l: int|
                            1 <= l <= i && j == #[trigger] p.step_index(origin, dir, l);
                        assert(next.step_index(origin, dir, l) == j);
                        assert(l <= i - 1);
                    }
                }
            }
        }
    }
}

/// The kind of the top stone of a square off the way does not matter to gathering.
proof fn lemma_gather_top_off_way(
    p: Position,
    origin: Loc,
    dir: Dir,
    drops: [u8; 7],
    n: nat,
    a: int,
    t: Piece,
)
    requires
        p.squares.len() == p.area(),
        0 <= a < p.area(),
        a != p.index_of(origin),
        !on_way(p, origin, dir, n, a),
        0 <= p.index_of(origin) < p.area(),
        forall|k: int| 1 <= k <= n ==> 0 <= #[trigger] p.step_index(origin, dir, k) < p.area(),
    ensures
        p.set_top(a, t).gather(origin, dir, drops, 1, n) == p.gather(origin, dir, drops, 1, n).set_top(
            a,
            t,
        ),
    decreases n,
{
    let marked = p.set_top(a, t);
    if n == 0 {
    } else {
        let o = p.index_of(origin);
        let s = p.step_index(origin, dir, n as int);
        assert(s != a);
        assert(!on_way(p, origin, dir, (n - 1) as nat, a)) by {
            if on_way(p, origin, dir, (n - 1) as nat, a) {
                let l = choose|l: int|
                    1 <= l <= n - 1 && a == #[trigger] p.step_index(origin, dir, l);
                assert(1 <= l <= n && a == p.step_index(origin, dir, l));
            }
        }
        lemma_gather_top_off_way(p, origin, dir, drops, (n - 1) as nat, a, t);
        lemma_gather_last(p, origin, dir, drops, 1, n);
        lemma_gather_last(marked, origin, dir, drops, 1, n);
        lemma_gather_frame(p, origin, dir, drops, 1, (n - 1) as nat);
        let before = p.gather(origin, dir, drops, 1, (n - 1) as nat);
        let d = drops[n - 1] as nat;
        lemma_gather_squares(p, origin, dir, drops, 1, (n - 1) as nat);
        assert(before.set_top(a, t).transfer(s, o, d).squares =~= before.transfer(s, o, d).set_top(
            a,
            t,
        ).squares);
    }
}

/// Gathering keeps the number of squares.
proof fn lemma_gather_squares(p: Position, origin: Loc, dir: Dir, drops: [u8; 7], i: nat, r: nat)
    requires
        p.squares.len() == p.area(),
        0 <= p.index_of(origin) < p.area(),
        forall|k: int| 1 <= k <= r ==> 0 <= #[trigger] p.step_index(origin, dir, k) < p.area(),
        1 <= i,
    ensures
        p.gather(origin, dir, drops, i, r).squares.len() == p.squares.len(),
    decreases r + 1 - i,
{
    if i <= r {
        let next = p.transfer(
            p.step_index(origin, dir, i as int),
            p.index_of(origin),
            drops[i - 1] as nat,
        );
        assert(0 <= p.step_index(origin, dir, i as int) < p.area());
        assert forall|k: int| 1 <= k <= r implies 0 <= #[trigger] next.step_index(origin, dir, k)
            < next.area() by {
            assert(0 <= p.step_index(origin, dir, k) < p.area());
        }
        lemma_gather_squares(next, origin, dir, drops, i + 1, r);
    }
}

/// The kind of the top stone of the last square of the way does not matter to gathering.
proof fn lemma_gather_top_on_end(
    p: Position,
    origin: Loc,
    dir: Dir,
    drops: [u8; 7],
    r: nat,
    t: Piece,
)
    requires
        way_fits(p, origin, dir, r),
        1 <= r,
    ensures
        p.set_top(p.step_index(origin, dir, r as int), t).gather(origin, dir, drops, 1, r)
            == p.gather(origin, dir, drops, 1, r),
{
    let o = p.index_of(origin);
    let s = p.step_index(origin, dir, r as int);
    let marked = p.set_top(s, t);
    lemma_way(p, origin, dir, r, r as int);
    assert(!on_way(p, origin, dir, (r - 1) as nat, s)) by {
        if on_way(p, origin, dir, (r - 1) as nat, s) {
            let l = choose|l: int| 1 <= l <= r - 1 && s == #[trigger] p.step_index(origin, dir, l);
            assert(p.step_index(origin, dir, l) != p.step_index(origin, dir, r as int));
        }
    }
    assert forall|k: int| 1 <= k <= r - 1 implies 0 <= #[trigger] p.step_index(origin, dir, k)
        < p.area() by {
        lemma_way(p, origin, dir, r, k);
    }
    lemma_gather_top_off_way(p, origin, dir, drops, (r - 1) as nat, s, t);
    lemma_gather_last(p, origin, dir, drops, 1, r);
    lemma_gather_last(marked, origin, dir, drops, 1, r);
    lemma_gather_frame(p, origin, dir, drops, 1, (r - 1) as nat);
    lemma_gather_squares(p, origin, dir, drops, 1, (r - 1) as nat);
    let before = p.gather(origin, dir, drops, 1, (r - 1) as nat);
    let d = drops[r - 1] as nat;
    assert(before.set_top(s, t).transfer(s, o, d).squares =~= before.transfer(s, o, d).squares);
}

/// Taking a placement back leads to the position it was made in.
proof fn lemma_undo_place(p: Position, loc: Loc, piece: Piece)
    requires
        p.wf(),
        p.validate(Move::Place(loc, piece)) == MoveValidity::Valid,
    ensures
        p.execute(Move::Place(loc, piece)).can_undo(Move::Place(loc, piece)),
        p.execute(Move::Place(loc, piece)).undo(Move::Place(loc, piece)) == p,
{
    let m = Move::Place(loc, piece);
    let q = p.execute(m);
    let back = q.undo(m);
    lemma_index(p, loc.x as int, loc.y as int);
    let i = p.index_of(loc);
    assert(q.retreat() == p.place(loc, piece));
    assert(back.squares =~= p.squares) by {
        assert(p.squares[i].stack.push(p.placing_owner()).drop_last() =~= p.squares[i].stack);
    }
    assert(back == p);
}

/// Taking a slide back leads to the position it was made in.
proof fn lemma_undo_slide(p: Position, origin: Loc, dir: Dir, range: u8, drops: [u8; 7], flag: bool)
    requires
        p.wf(),
        Move::Move(origin, dir, range, drops, flag).well_formed(),
        p.validate(Move::Move(origin, dir, range, drops, flag)) == MoveValidity::Valid,
    ensures
        ({
            let m = Move::Move(origin, dir, range, drops, flag);
            let done = m.with_smash(p.smashes(m));
            p.execute(m).can_undo(done) && p.execute(m).undo(done) == p
        }),
{
    let m = Move::Move(origin, dir, range, drops, flag);
    let smashed = p.smashes(m);
    let done = Move::Move(origin, dir, range, drops, smashed);
    lemma_valid_slide(p, m);
    let r = range as nat;
    let o = p.index_of(origin);
    let end = p.step_index(origin, dir, range as int);
    let top = p.at(origin).top;
    let spread = p.spread(origin, dir, drops, r);
    let slid = p.slide(origin, dir, range, drops);
    let q = p.execute(m);
    lemma_spread_frame(p, origin, dir, drops, r);
    assert(way_fits(p, origin, dir, r));
    lemma_way(p, origin, dir, r, range as int);
    lemma_spread_shape(p, origin, dir, drops, r, end);
    assert(way_fits(spread, origin, dir, r));
    assert(q.retreat() == slid);
    assert(on_way(p, origin, dir, r, end));
    assert(slid.squares[end].top == top);
    lemma_gather_top_on_end(spread, origin, dir, drops, r, top);
    lemma_gather_spread(p, origin, dir, drops, r);
    let flat = flattened(p, origin, dir, r);
    assert(slid.gather(origin, dir, drops, 1, r) == flat);
    let back = q.undo(done);
    assert(back.squares =~= p.squares) by {
        assert forall|j: int| 0 <= j < p.squares.len() implies back.squares[j] == p.squares[j] by {
            if j == o {
            } else if on_way(p, origin, dir, r, j) {
                let k = choose|k: int| 1 <= k <= r && j == #[trigger] p.step_index(origin, dir, k);
                let sq = p.squares[p.step_index(origin, dir, k)];
                assert(!sq.is_empty() ==> sq.top != Piece::Cap);
                if k != r {
                    lemma_way(p, origin, dir, r, k);
                }
            }
        }
    }
    assert(back == p);
    assert forall|k: int| 1 <= k <= range implies (#[trigger] q.squares[q.step_index(
        origin,
        dir,
        k,
    )]).height() >= drops[k - 1] by {
        let j = p.step_index(origin, dir, k);
        lemma_way(p, origin, dir, r, k);
        lemma_spread_shape(p, origin, dir, drops, r, j);
        assert(on_way(p, origin, dir, r, j));
        let l = choose|l: int|
            1 <= l <= r && j == p.step_index(origin, dir, l) && #[trigger] drops[l - 1]
                + p.squares[j].height() == spread.squares[j].height();
        if l != k {
            lemma_way(p, origin, dir, r, l);
        }
    }
    if smashed {
        lemma_spread_shape(p, origin, dir, drops, r, end);
        let l = choose|l: int|
            1 <= l <= r && end == p.step_index(origin, dir, l) && #[trigger] drops[l - 1]
                + p.squares[end].height() == spread.squares[end].height();
        if l != r {
            lemma_way(p, origin, dir, r, l);
        }
    }
}

/// Undo inverts execute: after a valid move, the move, with its note of a flattened wall,
/// can be taken back, and taking it back leads to the position in which it was made;
/// so the hash and the text of the position are those from before the move.
pub proof fn lemma_undo_inverts_execute(p: Position, m: Move)
    requires
        p.wf(),
        m.well_formed(),
        p.validate(m) == MoveValidity::Valid,
    ensures
        p.execute(m).can_undo(m.with_smash(p.smashes(m))),
        p.execute(m).undo(m.with_smash(p.smashes(m))) == p,
        p.execute(m).undo(m.with_smash(p.smashes(m))).hash() == p.hash(),
        p.execute(m).undo(m.with_smash(p.smashes(m))).tps() == p.tps(),
{
    match m {
        Move::Place(loc, piece) => {
            lemma_undo_place(p, loc, piece);
        },
        Move::Move(origin, dir, range, drops, flag) => {
            lemma_undo_slide(p, origin, dir, range, drops, flag);
        },
    }
}

/// The position after each of the first `n` moves of `moves` was made in `p` and taken
/// back, one after the other.
pub open spec fn tried(p: Position, moves: Seq<Move>, n: nat) -> Position
    decreases n,
{
    if n == 0 {
        p
    } else {
        let before = tried(p, moves, (n - 1) as nat);
        let m = moves[n - 1];
        before.execute(m).undo(m.with_smash(before.smashes(m)))
    }
}

/// Reserve conservation: after any number of valid moves, each made and taken back, the
/// pools of both players are what they were, as is the rest of the position.
pub proof fn lemma_reserves_return(p: Position, moves: Seq<Move>, n: nat)
    requires
        p.wf(),
        n <= moves.len(),
        forall|k: int|
            0 <= k < n ==> (#[trigger] moves[k]).well_formed() && p.validate(moves[k])
                == MoveValidity::Valid,
    ensures
        tried(p, moves, n).white == p.white,
        tried(p, moves, n).black == p.black,
        tried(p, moves, n) == p,
    decreases n,
{
    if n > 0 {
        lemma_reserves_return(p, moves, (n - 1) as nat);
        lemma_undo_inverts_execute(p, moves[n - 1]);
    }
}

} // verus!
