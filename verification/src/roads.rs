//! The end of the game: roads, full boards, empty reserves and the count of flats.

use vstd::prelude::*;

use crate::bits::board::{
    bit, lemma_bit_nonzero, lemma_ops, lemma_same_bits, lemma_some_bit, lemma_superset_greater,
};
use crate::bits::game::Game;
use crate::game::{Piece, Player, Winner};
use crate::position::Position;

verus! {

impl Position {
    /// Square `i` is part of the roads of player `p`: its top stone is `p`'s and no wall.
    pub open spec fn road_square(self, p: Player, i: int) -> bool {
        0 <= i < self.area() && self.squares[i].owned_by(p) && self.squares[i].top != Piece::Wall
    }

    /// Squares `a` and `b` share a side.
    pub open spec fn adjacent(self, a: int, b: int) -> bool {
        let n = self.size as int;
        &&& 0 <= a < self.area()
        &&& 0 <= b < self.area()
        &&& (b == a + 1 && b % n != 0) || (a == b + 1 && a % n != 0) || b == a + n || a == b + n
    }

    /// A path of player `p`: a walk over squares of `p`'s roads, each sharing a side with
    /// the next.
    pub open spec fn is_path(self, p: Player, path: Seq<int>) -> bool {
        &&& path.len() > 0
        &&& forall|k: int| 0 <= k < path.len() ==> self.road_square(p, #[trigger] path[k])
        &&& forall|k: int| 0 <= k < path.len() - 1 ==> self.adjacent(#[trigger] path[k], path[k + 1])
    }

    /// The edge that a road starts from: the bottom row of a vertical road, the left
    /// column of a horizontal one.
    pub open spec fn edge_start(self, vertical: bool, i: int) -> bool {
        let n = self.size as int;
        if vertical {
            0 <= i < n
        } else {
            0 <= i < n * n && i % n == 0
        }
    }

    /// The edge that a road ends on: the top row of a vertical road, the right column of a
    /// horizontal one.
    pub open spec fn edge_end(self, vertical: bool, i: int) -> bool {
        let n = self.size as int;
        if vertical {
            n * n - n <= i < n * n
        } else {
            0 <= i < n * n && i % n == n - 1
        }
    }

    /// Square `i` can be reached by a path of player `p` that starts on the starting edge.
    pub open spec fn reached(self, p: Player, vertical: bool, i: int) -> bool {
        exists|path: Seq<int>|
            self.is_path(p, path) && self.edge_start(vertical, path.first()) && #[trigger] path.last()
                == i
    }

    /// Player `p` has a path from the starting edge to the opposite edge.
    pub open spec fn joins(self, p: Player, vertical: bool) -> bool {
        exists|path: Seq<int>|
            #[trigger] self.is_path(p, path) && self.edge_start(vertical, path.first())
                && self.edge_end(vertical, path.last())
    }

    /// Player `p` has a road: a path from the bottom row to the top row, or from the left
    /// column to the right column.
    pub open spec fn has_road(self, p: Player) -> bool {
        self.joins(p, true) || self.joins(p, false)
    }

    /// The number of squares among the first `k` whose top stone is a flat of player `p`.
    pub open spec fn flat_count(self, p: Player, k: nat) -> nat
        decreases k,
    {
        if k == 0 {
            0
        } else {
            self.flat_count(p, (k - 1) as nat) + if self.squares[k - 1].owned_by(p)
                && self.squares[k - 1].top == Piece::Flat {
                1nat
            } else {
                0nat
            }
        }
    }

    /// No square is empty.
    pub open spec fn board_full(self) -> bool {
        forall|i: int| 0 <= i < self.area() ==> !(#[trigger] self.squares[i]).is_empty()
    }

    /// The winner by flats: who has more flats on top, or a draw.
    pub open spec fn flat_result(self) -> Winner {
        let white = self.flat_count(Player::White, self.area());
        let black = self.flat_count(Player::Black, self.area());
        if white > black {
            Winner::Flat(Player::White)
        } else if white < black {
            Winner::Flat(Player::Black)
        } else {
            Winner::Draw
        }
    }

    /// How the game stands. A road of the player who just moved wins, even if the move
    /// made a road for the other player too; then a road of the side to move; then, on a
    /// full board or with a pool used up, the count of flats. Otherwise the game goes on.
    pub open spec fn status(self) -> Option<Winner> {
        if self.has_road(self.player.other()) {
            Some(Winner::Road(self.player.other()))
        } else if self.has_road(self.player) {
            Some(Winner::Road(self.player))
        } else if self.board_full() || self.white.is_empty() || self.black.is_empty() {
            Some(self.flat_result())
        } else {
            None
        }
    }
}

/// One step of the flood: every square of `val`, and every square of `mask` next to one.
pub open spec fn grow_word(val: u64, mask: u64, left: u64, right: u64, n: u64) -> u64 {
    (val | ((val >> 1) & !right) | ((val << 1) & !left) | (val >> n) | (val << n)) & mask
}

proof fn lemma_grow_bv(val: u64, mask: u64, left: u64, right: u64, n: u64, j: u64)
    by (bit_vector)
    requires
        3 <= n <= 8,
        j < 64,
    ensures
        ((grow_word(val, mask, left, right, n) >> j) & 1 == 1) == ((mask >> j) & 1 == 1 && ((val >> j)
            & 1 == 1 || (j < 63 && (val >> ((j + 1) as u64)) & 1 == 1 && (right >> j) & 1 != 1) || (j
            >= 1 && (val >> ((j - 1) as u64)) & 1 == 1 && (left >> j) & 1 != 1) || (j + n < 64 && (val
            >> ((j + n) as u64)) & 1 == 1) || (j >= n && (val >> ((j - n) as u64)) & 1 == 1))),
{
}

proof fn lemma_grow_holds_bv(val: u64, mask: u64, left: u64, right: u64, n: u64)
    by (bit_vector)
    requires
        val & mask == val,
    ensures
        grow_word(val, mask, left, right, n) & val == val,
        grow_word(val, mask, left, right, n) & mask == grow_word(val, mask, left, right, n),
{
}

/// The squares of one step of the flood: a square of `mask` that is in `val` or has a
/// neighbour in `val`, where the left and right neighbours are those of the same row.
proof fn lemma_grow(val: u64, mask: u64, left: u64, right: u64, n: u64)
    requires
        3 <= n <= 8,
    ensures
        forall|j: int| #[trigger]
            bit(grow_word(val, mask, left, right, n), j) == (bit(mask, j) && (bit(val, j) || (bit(
                val,
                j + 1,
            ) && !bit(right, j)) || (bit(val, j - 1) && !bit(left, j)) || bit(val, j + n) || bit(
                val,
                j - n,
            ))),
{
    assert forall|j: int| #[trigger]
        bit(grow_word(val, mask, left, right, n), j) == (bit(mask, j) && (bit(val, j) || (bit(
            val,
            j + 1,
        ) && !bit(right, j)) || (bit(val, j - 1) && !bit(left, j)) || bit(val, j + n) || bit(
            val,
            j - n,
        ))) by {
        if 0 <= j < 64 {
            lemma_grow_bv(val, mask, left, right, n, j as u64);
        }
    }
}

/// A path that starts inside a set of squares which holds every road square next to one
/// of its own stays inside the set.
proof fn lemma_path_inside(pos: Position, p: Player, cur: u64, path: Seq<int>, k: int)
    requires
        pos.is_path(p, path),
        bit(cur, path.first()),
        forall|a: int, b: int|
            bit(cur, a) && #[trigger] pos.adjacent(a, b) && pos.road_square(p, b) ==> bit(cur, b),
        0 <= k < path.len(),
    ensures
        bit(cur, path[k]),
    decreases k,
{
    if k > 0 {
        lemma_path_inside(pos, p, cur, path, k - 1);
        assert(pos.adjacent(path[k - 1], path[k - 1 + 1]));
    }
}

/// A path that is longer by one square of the player's roads next to its end is a path.
proof fn lemma_path_push(pos: Position, p: Player, path: Seq<int>, j: int)
    requires
        pos.is_path(p, path),
        pos.adjacent(path.last(), j),
        pos.road_square(p, j),
    ensures
        pos.is_path(p, path.push(j)),
        path.push(j).first() == path.first(),
        path.push(j).last() == j,
{
    let longer = path.push(j);
    assert forall|k: int| 0 <= k < longer.len() - 1 implies pos.adjacent(
        #[trigger] longer[k],
        longer[k + 1],
    ) by {
        if k < path.len() - 1 {
            assert(pos.adjacent(path[k], path[k + 1]));
        }
    }
}

/// The bitboards of a flood describe the position: `mask` the road squares of `p`, `e1`
/// and `e2` the edges to join, `left` and `right` the outer columns.
#[verifier::opaque]
pub open spec fn masks_ok(
    pos: Position,
    p: Player,
    vertical: bool,
    mask: u64,
    e1: u64,
    e2: u64,
    left: u64,
    right: u64,
) -> bool {
    let n = pos.size as int;
    &&& 3 <= n <= 8
    &&& pos.area() == n * n
    &&& forall|j: int| #[trigger] bit(mask, j) == pos.road_square(p, j)
    &&& forall|j: int| #[trigger] bit(e1, j) == pos.edge_start(vertical, j)
    &&& forall|j: int| #[trigger] bit(e2, j) == pos.edge_end(vertical, j)
    &&& forall|j: int| #[trigger] bit(left, j) == (0 <= j < n * n && j % n == 0)
    &&& forall|j: int| #[trigger] bit(right, j) == (0 <= j < n * n && j % n == n - 1)
}

/// The flood `cur` holds every road square of the starting edge, and only squares that a
/// path from the starting edge reaches.
#[verifier::opaque]
pub open spec fn flood_ok(pos: Position, p: Player, vertical: bool, mask: u64, cur: u64) -> bool {
    &&& cur & mask == cur
    &&& forall|j: int| pos.edge_start(vertical, j) && pos.road_square(p, j) ==> #[trigger] bit(cur, j)
    &&& forall|j: int| #[trigger] bit(cur, j) ==> pos.reached(p, vertical, j)
}

/// The road squares of the starting edge are a flood.
proof fn lemma_flood_start(
    pos: Position,
    p: Player,
    vertical: bool,
    mask: u64,
    e1: u64,
    e2: u64,
    left: u64,
    right: u64,
)
    requires
        masks_ok(pos, p, vertical, mask, e1, e2, left, right),
    ensures
        flood_ok(pos, p, vertical, mask, e1 & mask),
{
    reveal(masks_ok);
    reveal(flood_ok);
    let cur = e1 & mask;
    lemma_ops(e1, mask);
    assert forall|j: int| #[trigger] bit(cur, j) implies pos.reached(p, vertical, j) by {
        let path = seq![j];
        assert(pos.is_path(p, path));
        assert(path.first() == j && path.last() == j);
    }
    assert(cur & mask == cur) by (bit_vector)
        requires
            cur == e1 & mask,
    ;
}

/// Squares that share a side, by their indices: the right and the left neighbour are in
/// the same row, the upper and the lower one a row away.
proof fn lemma_side_by_side(pos: Position, a: int, b: int)
    requires
        3 <= pos.size <= 8,
        0 <= a < pos.area(),
        0 <= b < pos.area(),
    ensures
        pos.adjacent(a, b) == ((a == b + 1 && b % (pos.size as int) != pos.size - 1) || (a == b - 1
            && b % (pos.size as int) != 0) || a == b + pos.size || a == b - pos.size),
{
    let n = pos.size as int;
    assert(n == 3 || n == 4 || n == 5 || n == 6 || n == 7 || n == 8);
}

/// Every square of one step of a flood is reached by a path from the starting edge.
proof fn lemma_step_reached(
    pos: Position,
    p: Player,
    vertical: bool,
    mask: u64,
    left: u64,
    right: u64,
    cur: u64,
    j: int,
)
    requires
        3 <= pos.size <= 8,
        pos.area() == pos.size * pos.size,
        forall|i: int| #[trigger] bit(mask, i) == pos.road_square(p, i),
        forall|i: int| #[trigger]
            bit(left, i) == (0 <= i < pos.size * pos.size && i % (pos.size as int) == 0),
        forall|i: int| #[trigger]
            bit(right, i) == (0 <= i < pos.size * pos.size && i % (pos.size as int) == pos.size - 1),
        forall|i: int| #[trigger] bit(cur, i) ==> pos.reached(p, vertical, i) && bit(mask, i),
        bit(grow_word(cur, mask, left, right, pos.size as u64), j),
    ensures
        pos.reached(p, vertical, j),
{
    let n = pos.size as int;
    lemma_grow(cur, mask, left, right, pos.size as u64);
    if !bit(cur, j) {
        let k = if bit(cur, j + 1) && !bit(right, j) {
            j + 1
        } else if bit(cur, j - 1) && !bit(left, j) {
            j - 1
        } else if bit(cur, j + n) {
            j + n
        } else {
            j - n
        };
        assert(bit(cur, k));
        assert(bit(mask, k));
        assert(bit(mask, j));
        lemma_side_by_side(pos, k, j);
        let path = choose|path: Seq<int>|
            pos.is_path(p, path) && pos.edge_start(vertical, path.first()) && #[trigger] path.last()
                == k;
        lemma_path_push(pos, p, path, j);
        assert(path.push(j).last() == j);
    }
}

/// One step of a flood holds every road square next to a square of the flood.
proof fn lemma_step_holds_next(
    pos: Position,
    p: Player,
    mask: u64,
    left: u64,
    right: u64,
    cur: u64,
    a: int,
    b: int,
)
    requires
        3 <= pos.size <= 8,
        pos.area() == pos.size * pos.size,
        forall|i: int| #[trigger] bit(mask, i) == pos.road_square(p, i),
        forall|i: int| #[trigger]
            bit(left, i) == (0 <= i < pos.size * pos.size && i % (pos.size as int) == 0),
        forall|i: int| #[trigger]
            bit(right, i) == (0 <= i < pos.size * pos.size && i % (pos.size as int) == pos.size - 1),
        bit(cur, a),
        pos.adjacent(a, b),
        pos.road_square(p, b),
    ensures
        bit(grow_word(cur, mask, left, right, pos.size as u64), b),
{
    lemma_grow(cur, mask, left, right, pos.size as u64);
    lemma_side_by_side(pos, a, b);
    assert(bit(mask, b));
}

/// One step of a flood is a flood that holds the flood before it, and holds every road
/// square next to a square of the flood before it.
proof fn lemma_flood_step(
    pos: Position,
    p: Player,
    vertical: bool,
    mask: u64,
    e1: u64,
    e2: u64,
    left: u64,
    right: u64,
    cur: u64,
)
    requires
        masks_ok(pos, p, vertical, mask, e1, e2, left, right),
        flood_ok(pos, p, vertical, mask, cur),
    ensures
        flood_ok(pos, p, vertical, mask, grow_word(cur, mask, left, right, pos.size as u64)),
        grow_word(cur, mask, left, right, pos.size as u64) & cur == cur,
        forall|a: int, b: int|
            bit(cur, a) && #[trigger] pos.adjacent(a, b) && pos.road_square(p, b) ==> bit(
                grow_word(cur, mask, left, right, pos.size as u64),
                b,
            ),
{
    reveal(masks_ok);
    reveal(flood_ok);
    let next = grow_word(cur, mask, left, right, pos.size as u64);
    lemma_grow_holds_bv(cur, mask, left, right, pos.size as u64);
    lemma_ops(cur, mask);
    lemma_ops(next, cur);
    assert forall|j: int| #[trigger] bit(next, j) implies pos.reached(p, vertical, j) by {
        lemma_step_reached(pos, p, vertical, mask, left, right, cur, j);
    }
    assert forall|j: int| pos.edge_start(vertical, j) && pos.road_square(p, j) implies #[trigger] bit(
        next,
        j,
    ) by {
        assert(bit(cur, j));
    }
    assert forall|a: int, b: int|
        bit(cur, a) && #[trigger] pos.adjacent(a, b) && pos.road_square(p, b) implies bit(
        next,
        b,
    ) by {
        lemma_step_holds_next(pos, p, mask, left, right, cur, a, b);
    }
}

/// A flood that touches the far edge shows a road.
proof fn lemma_flood_hit(
    pos: Position,
    p: Player,
    vertical: bool,
    mask: u64,
    e1: u64,
    e2: u64,
    left: u64,
    right: u64,
    cur: u64,
)
    requires
        masks_ok(pos, p, vertical, mask, e1, e2, left, right),
        flood_ok(pos, p, vertical, mask, cur),
        cur & e2 != 0,
    ensures
        pos.joins(p, vertical),
{
    reveal(masks_ok);
    reveal(flood_ok);
    lemma_ops(cur, e2);
    lemma_some_bit(cur & e2);
    let j = choose|j: int| 0 <= j < 64 && bit(cur & e2, j);
    assert(bit(cur, j) && bit(e2, j));
    let path = choose|path: Seq<int>|
        pos.is_path(p, path) && pos.edge_start(vertical, path.first()) && #[trigger] path.last() == j;
    assert(pos.is_path(p, path) && pos.edge_start(vertical, path.first()) && pos.edge_end(
        vertical,
        path.last(),
    ));
}

/// A flood that no step makes larger and that does not touch the far edge shows that
/// there is no road.
proof fn lemma_flood_closed(
    pos: Position,
    p: Player,
    vertical: bool,
    mask: u64,
    e1: u64,
    e2: u64,
    left: u64,
    right: u64,
    cur: u64,
)
    requires
        masks_ok(pos, p, vertical, mask, e1, e2, left, right),
        flood_ok(pos, p, vertical, mask, cur),
        grow_word(cur, mask, left, right, pos.size as u64) == cur,
        cur & e2 == 0,
    ensures
        !pos.joins(p, vertical),
{
    lemma_flood_step(pos, p, vertical, mask, e1, e2, left, right, cur);
    reveal(masks_ok);
    reveal(flood_ok);
    lemma_ops(cur, e2);
    if pos.joins(p, vertical) {
        let path = choose|path: Seq<int>|
            #[trigger] pos.is_path(p, path) && pos.edge_start(vertical, path.first())
                && pos.edge_end(vertical, path.last());
        assert(pos.road_square(p, path[0]));
        assert(bit(cur, path.first()));
        lemma_path_inside(pos, p, cur, path, path.len() - 1);
        assert(bit(cur & e2, path.last()));
        lemma_bit_nonzero(cur & e2, path.last());
    }
}

impl Game {
    /// One step of the flood from the squares `val` over the squares `mask`.
    fn grow(&self, val: u64, mask: u64) -> (r: u64)
        requires
            3 <= self.size <= 8,
        ensures
            r == grow_word(val, mask, self.left_mask, self.right_mask, self.size as u64),
    {
        let n: u64 = self.size as u64;
        let mut res = val;
        res |= (val >> 1) & (!self.right_mask);
        res |= (val << 1) & (!self.left_mask);
        res |= val >> n;
        res |= val << n;
        res & mask
    }

    /// Tells whether `player` has a path from the bottom row to the top row (`vertical`),
    /// or from the left column to the right column.
    fn check_road(&self, player: Player, vertical: bool) -> (r: bool)
        requires
            self.board_ok(),
        ensures
            r == self@.joins(player, vertical),
    {
        let bits = match player {
            Player::White => self.white,
            Player::Black => self.black,
        };
        let e1 = if vertical {
            self.bottom_mask
        } else {
            self.left_mask
        };
        let e2 = if vertical {
            self.top_mask
        } else {
            self.right_mask
        };
        let mask = bits & !self.walls;
        let mut cur = e1 & mask;
        let ghost pos = self@;
        proof {
            self.lemma_view_wf();
            lemma_ops(bits, !self.walls);
            lemma_ops(self.walls, 0);
            assert forall|j: int| #[trigger] bit(mask, j) == pos.road_square(player, j) by {
                if 0 <= j < 64 {
                    assert(self.square_ok(j));
                    if j < pos.area() {
                        assert(pos.squares[j] == self.square(j));
                    }
                }
            }
            reveal(masks_ok);
            assert(masks_ok(pos, player, vertical, mask, e1, e2, self.left_mask, self.right_mask));
            lemma_flood_start(pos, player, vertical, mask, e1, e2, self.left_mask, self.right_mask);
        }
        loop
            invariant
                3 <= self.size <= 8,
                pos.size == self.size,
                masks_ok(pos, player, vertical, mask, e1, e2, self.left_mask, self.right_mask),
                flood_ok(pos, player, vertical, mask, cur),
                pos == self@,
            decreases u64::MAX - cur,
        {
            let next = self.grow(cur, mask);
            proof {
                lemma_flood_step(
                    pos,
                    player,
                    vertical,
                    mask,
                    e1,
                    e2,
                    self.left_mask,
                    self.right_mask,
                    cur,
                );
            }
            if next & e2 != 0 {
                proof {
                    lemma_flood_hit(
                        pos,
                        player,
                        vertical,
                        mask,
                        e1,
                        e2,
                        self.left_mask,
                        self.right_mask,
                        next,
                    );
                }
                return true;
            }
            if next == cur {
                proof {
                    lemma_flood_closed(
                        pos,
                        player,
                        vertical,
                        mask,
                        e1,
                        e2,
                        self.left_mask,
                        self.right_mask,
                        cur,
                    );
                }
                return false;
            }
            proof {
                lemma_superset_greater(cur, next);
            }
            cur = next;
        }
    }

    /// The number of flats of player `p` on top of a square, given the bitboard `bits` of
    /// the squares that have one.
    fn count_flats(&self, bits: u64, p: Player) -> (r: u32)
        requires
            self.board_ok(),
            forall|j: int|
                0 <= j < self@.area() ==> #[trigger] bit(bits, j) == (self@.squares[j].owned_by(p)
                    && self@.squares[j].top == Piece::Flat),
        ensures
            r == self@.flat_count(p, self@.area()),
    {
        proof {
            self.lemma_view_wf();
        }
        let area = self.size * self.size;
        let mut count: u32 = 0;
        let mut i: usize = 0;
        while i < area
            invariant
                i <= area <= 64,
                area == self@.area(),
                count == self@.flat_count(p, i as nat),
                count <= i,
                forall|j: int|
                    0 <= j < self@.area() ==> #[trigger] bit(bits, j) == (self@.squares[j].owned_by(
                        p,
                    ) && self@.squares[j].top == Piece::Flat),
            decreases area - i,
        {
            proof {
                crate::bits::board::lemma_test(bits, i as int);
            }
            if bits & (1u64 << (i as u64)) != 0 {
                count += 1;
            }
            i += 1;
        }
        count
    }

    /// How the game stands: who has won, whether it is drawn, or `None` while it goes on.
    pub fn status(&self) -> (r: Option<Winner>)
        requires
            self.wf(),
        ensures
            r == self@.status(),
    {
        let opponent = self.player.opponent();
        if self.check_road(opponent, true) || self.check_road(opponent, false) {
            return Some(Winner::Road(opponent));
        }
        if self.check_road(self.player, true) || self.check_road(self.player, false) {
            return Some(Winner::Road(self.player));
        }
        proof {
            self.lemma_view_wf();
            lemma_ops(self.white, self.black);
            if (self.white | self.black) == self.full_mask {
                assert forall|i: int| 0 <= i < self@.area() implies !(#[trigger] self@.squares[i]).is_empty() by {
                    assert(self.square_ok(i));
                    assert(bit(self.white | self.black, i) == bit(self.full_mask, i));
                }
            }
            if self@.board_full() {
                assert forall|j: int| 0 <= j < 64 implies bit(self.white | self.black, j) == bit(
                    self.full_mask,
                    j,
                ) by {
                    assert(self.square_ok(j));
                    if j < self@.area() {
                        assert(!self@.squares[j].is_empty());
                    }
                }
                lemma_same_bits(self.white | self.black, self.full_mask);
            }
        }
        if (self.white | self.black) == self.full_mask || self.white_reserves.empty()
            || self.black_reserves.empty() {
            let white_flats = self.white & !self.walls & !self.caps;
            let black_flats = self.black & !self.walls & !self.caps;
            proof {
                lemma_ops(self.white, !self.walls);
                lemma_ops(self.white & !self.walls, !self.caps);
                lemma_ops(self.black, !self.walls);
                lemma_ops(self.black & !self.walls, !self.caps);
                lemma_ops(self.walls, 0);
                lemma_ops(self.caps, 0);
                assert forall|j: int| 0 <= j < self@.area() implies #[trigger] bit(white_flats, j) == (
                self@.squares[j].owned_by(Player::White) && self@.squares[j].top == Piece::Flat) by {
                    assert(self.square_ok(j));
                }
                assert forall|j: int| 0 <= j < self@.area() implies #[trigger] bit(black_flats, j) == (
                self@.squares[j].owned_by(Player::Black) && self@.squares[j].top == Piece::Flat) by {
                    assert(self.square_ok(j));
                }
            }
            let wcount = self.count_flats(white_flats, Player::White);
            let bcount = self.count_flats(black_flats, Player::Black);
            if wcount > bcount {
                return Some(Winner::Flat(Player::White));
            } else if wcount < bcount {
                return Some(Winner::Flat(Player::Black));
            } else {
                return Some(Winner::Draw);
            }
        }
        None
    }
}

} // verus!
