//! The position on bitboards: who owns the top of each square, where the walls and
//! capstones stand, the stack of every square, and a hash that follows every change.

use vstd::prelude::*;

use crate::bits::board::{
    bit, left_column, lemma_edges, lemma_none, lemma_same_bits, lemma_set_clear,
    lemma_test, lemma_xor, low_mask,
};
use crate::bits::stack::Stack;
use crate::bits::binary;
use crate::fnv64::{Fnv64, BASE};
use crate::game::{Dir, Loc, Piece, Player, Pool, Reserves};
use crate::position::{board_hash, kind_mask, square_hash, stones, Position, Square};
use crate::tables::DropTables;

verus! {

/// A position of the game, with everything that the engine keeps of it.
#[derive(Debug)]
pub struct Game {
    /// The board has `size` by `size` squares.
    pub(crate) size: usize,
    /// The current round; a round is one move of each player.
    pub(crate) round: u32,
    /// The side to move.
    pub(crate) player: Player,
    pub(crate) white_reserves: Reserves,
    pub(crate) black_reserves: Reserves,
    pub(crate) left_mask: u64,
    pub(crate) right_mask: u64,
    pub(crate) top_mask: u64,
    pub(crate) bottom_mask: u64,
    pub(crate) full_mask: u64,
    /// The squares with a capstone on top.
    pub(crate) caps: u64,
    /// The squares with a wall on top.
    pub(crate) walls: u64,
    /// The squares whose top stone is White's.
    pub(crate) white: u64,
    /// The squares whose top stone is Black's.
    pub(crate) black: u64,
    /// The stack of each square.
    pub(crate) owners: Vec<Stack>,
    /// The xor of the hashes of all squares.
    pub(crate) partial_hash: u64,
    /// The drop counts for every stack, ready for move generation.
    pub(crate) tables: DropTables,
}

impl View for Game {
    type V = Position;

    open(crate) spec fn view(&self) -> Position {
        Position {
            size: self.size as nat,
            round: self.round as nat,
            player: self.player,
            white: self.white_reserves@,
            black: self.black_reserves@,
            squares: Seq::new(self.owners.len() as nat, |i: int| self.square(i)),
        }
    }
}

impl Clone for Game {
    /// A copy that shares nothing with the game it was made from.
    fn clone(&self) -> (r: Self)
        ensures
            r@ == self@,
            self.wf() ==> r.wf(),
    {
        let r = Game {
            size: self.size,
            round: self.round,
            player: self.player,
            white_reserves: self.white_reserves,
            black_reserves: self.black_reserves,
            left_mask: self.left_mask,
            right_mask: self.right_mask,
            top_mask: self.top_mask,
            bottom_mask: self.bottom_mask,
            full_mask: self.full_mask,
            caps: self.caps,
            walls: self.walls,
            white: self.white,
            black: self.black,
            owners: self.copy_owners(),
            partial_hash: self.partial_hash,
            tables: self.tables.clone(),
        };
        proof {
            assert(r@.squares =~= self@.squares);
            if self.wf() {
                assert forall|i: int| 0 <= i < 64 implies #[trigger] r.square_ok(i) by {
                    assert(self.square_ok(i));
                }
            }
        }
        r
    }
}

// ----- facts about the model that the engine's proofs share -----

/// Replacing one square changes the number of stones by the change of its height.
pub proof fn lemma_stones_update(squares: Seq<Square>, k: nat, i: int, sq: Square)
    requires
        0 <= i < k <= squares.len(),
    ensures
        stones(squares.update(i, sq), k) + squares[i].height() == stones(squares, k) + sq.height(),
    decreases k,
{
    if k - 1 == i {
        lemma_stones_same(squares, squares.update(i, sq), (k - 1) as nat);
    } else {
        lemma_stones_update(squares, (k - 1) as nat, i, sq);
    }
}

/// Boards that agree on the first `k` squares hold the same number of stones there.
pub proof fn lemma_stones_same(a: Seq<Square>, b: Seq<Square>, k: nat)
    requires
        k <= a.len(),
        k <= b.len(),
        forall|j: int| 0 <= j < k ==> a[j].height() == b[j].height(),
    ensures
        stones(a, k) == stones(b, k),
    decreases k,
{
    if k > 0 {
        lemma_stones_same(a, b, (k - 1) as nat);
    }
}

/// Two different squares together hold no more stones than the board.
pub proof fn lemma_two_heights(squares: Seq<Square>, k: nat, a: int, b: int)
    requires
        0 <= a < k <= squares.len(),
        0 <= b < k,
        a != b,
    ensures
        squares[a].height() + squares[b].height() <= stones(squares, k),
    decreases k,
{
    if k - 1 == a {
        lemma_one_height(squares, (k - 1) as nat, b);
    } else if k - 1 == b {
        lemma_one_height(squares, (k - 1) as nat, a);
    } else {
        lemma_two_heights(squares, (k - 1) as nat, a, b);
    }
}

/// A square holds no more stones than the board.
pub proof fn lemma_one_height(squares: Seq<Square>, k: nat, a: int)
    requires
        0 <= a < k <= squares.len(),
    ensures
        squares[a].height() <= stones(squares, k),
    decreases k,
{
    if k - 1 != a {
        lemma_one_height(squares, (k - 1) as nat, a);
    }
}

/// Replacing the stack of one square swaps its contribution to the board hash.
pub proof fn lemma_hash_update(squares: Seq<Square>, k: nat, i: int, sq: Square)
    requires
        0 <= i < k <= squares.len(),
    ensures
        board_hash(squares.update(i, sq), k) == board_hash(squares, k) ^ square_hash(
            squares[i].stack,
            i,
        ) ^ square_hash(sq.stack, i),
    decreases k,
{
    let new = squares.update(i, sq);
    let old_h = square_hash(squares[i].stack, i);
    let new_h = square_hash(sq.stack, i);
    if k - 1 == i {
        lemma_hash_same(squares, new, (k - 1) as nat);
        let below = board_hash(squares, (k - 1) as nat);
        lemma_xor(below, old_h, new_h, 0, 0);
        assert((below ^ old_h) ^ old_h ^ new_h == below ^ new_h) by (bit_vector);
    } else {
        lemma_hash_update(squares, (k - 1) as nat, i, sq);
        let below = board_hash(squares, (k - 1) as nat);
        let last = square_hash(squares[k - 1].stack, k - 1);
        assert(((below ^ old_h) ^ new_h) ^ last == ((below ^ last) ^ old_h) ^ new_h) by (bit_vector);
    }
}

/// Boards with the same stacks on the first `k` squares have the same hash there.
pub proof fn lemma_hash_same(a: Seq<Square>, b: Seq<Square>, k: nat)
    requires
        k <= a.len(),
        k <= b.len(),
        forall|j: int| 0 <= j < k ==> a[j].stack == b[j].stack,
    ensures
        board_hash(a, k) == board_hash(b, k),
    decreases k,
{
    if k > 0 {
        lemma_hash_same(a, b, (k - 1) as nat);
    }
}

/// Bit `j` of a kind bitboard says that square `j` has that kind on top.
pub proof fn lemma_kind_mask(squares: Seq<Square>, piece: Piece, k: nat)
    requires
        k <= 64,
        k <= squares.len(),
    ensures
        forall|j: int|
            0 <= j < 64 ==> #[trigger] bit(kind_mask(squares, piece, k), j) == (j < k && squares[j].top
                == piece),
    decreases k,
{
    if k == 0 {
        lemma_none();
    } else {
        let below = kind_mask(squares, piece, (k - 1) as nat);
        lemma_kind_mask(squares, piece, (k - 1) as nat);
        lemma_set_clear(below, k - 1);
    }
}

impl Game {
    /// The model of square `i`: its stack, and the kind that the bitboards give its top.
    pub open(crate) spec fn square(&self, i: int) -> Square {
        Square {
            stack: self.owners[i]@,
            top: if bit(self.caps, i) {
                Piece::Cap
            } else if bit(self.walls, i) {
                Piece::Wall
            } else {
                Piece::Flat
            },
        }
    }

    /// The bitboards agree with the stack of square `i`, and are clear beyond the board.
    pub open(crate) spec fn square_ok(&self, i: int) -> bool {
        if i < self.size * self.size {
            &&& self.owners[i].wf()
            &&& bit(self.white, i) == self.square(i).owned_by(Player::White)
            &&& bit(self.black, i) == self.square(i).owned_by(Player::Black)
            &&& bit(self.caps, i) || bit(self.walls, i) ==> !self.square(i).is_empty()
            &&& !(bit(self.caps, i) && bit(self.walls, i))
        } else {
            !bit(self.white, i) && !bit(self.black, i) && !bit(self.caps, i) && !bit(
                self.walls,
                i,
            )
        }
    }

    /// The edge bitboards stand for the columns and rows at the rim of the board.
    pub open(crate) spec fn edges_ok(&self) -> bool {
        let n = self.size as int;
        &&& forall|i: int| #[trigger] bit(self.left_mask, i) == (0 <= i < n * n && i % n == 0)
        &&& forall|i: int| #[trigger] bit(self.right_mask, i) == (0 <= i < n * n && i % n == n - 1)
        &&& forall|i: int| #[trigger] bit(self.bottom_mask, i) == (0 <= i < n)
        &&& forall|i: int| #[trigger] bit(self.top_mask, i) == (n * n - n <= i < n * n)
        &&& forall|i: int| #[trigger] bit(self.full_mask, i) == (0 <= i < n * n)
    }

    /// The bitboards and the stacks describe one and the same board.
    pub open(crate) spec fn board_ok(&self) -> bool {
        &&& 3 <= self.size <= 8
        &&& self.owners.len() == self.size * self.size
        &&& self.round >= 1
        &&& self.edges_ok()
        &&& self.tables.wf()
        &&& forall|i: int| 0 <= i < 64 ==> #[trigger] self.square_ok(i)
    }

    /// Everything that holds of a game but for the running hash.
    pub open(crate) spec fn consistent(&self) -> bool {
        &&& self.board_ok()
        &&& self@.counts_ok()
    }

    /// The bitboards, the stacks and the running hash describe one and the same position.
    pub open(crate) spec fn wf(&self) -> bool {
        &&& self.consistent()
        &&& self.partial_hash == board_hash(self@.squares, self@.area())
    }

    /// The model of a well-formed game is a well-formed position.
    pub proof fn lemma_view_wf(&self)
        requires
            self.board_ok(),
        ensures
            self@.counts_ok() ==> self@.wf(),
            self@.squares.len() == self@.area(),
            3 <= self@.size <= 8,
            self@.area() <= 64,
            forall|i: int|
                0 <= i < self@.area() ==> (#[trigger] self@.squares[i]).is_empty()
                    ==> self@.squares[i].top == Piece::Flat,
    {
        assert(self.size * self.size <= 64) by (nonlinear_arith)
            requires
                self.size <= 8,
        ;
        assert forall|i: int| 0 <= i < self@.area() && (#[trigger] self@.squares[i]).is_empty()
            implies self@.squares[i].top == Piece::Flat by {
            assert(self.square_ok(i));
        }
    }

    /// A copy of the stacks.
    fn copy_owners(&self) -> (r: Vec<Stack>)
        ensures
            r@ == self.owners@,
    {
        let mut out: Vec<Stack> = Vec::new();
        let mut i: usize = 0;
        while i < self.owners.len()
            invariant
                i <= self.owners.len(),
                out@ == self.owners@.take(i as int),
            decreases self.owners.len() - i,
        {
            out.push(self.owners[i]);
            proof {
                assert(out@ =~= self.owners@.take(i + 1));
            }
            i += 1;
        }
        proof {
            assert(self.owners@.take(i as int) =~= self.owners@);
        }
        out
    }

    /// A fresh game on a board of `size` by `size` squares; `None` unless the size is 3 to 8.
    pub fn new(size: usize) -> (r: Option<Self>)
        ensures
            r is Some <==> 3 <= size <= 8,
            r is Some ==> r->0.wf() && r->0@ == Position::initial(size as nat),
    {
        if size < 3 || size > 8 {
            return None;
        }
        assert(size * size <= 64 && size * size >= size) by (nonlinear_arith)
            requires
                3 <= size <= 8,
        ;
        let n: u64 = size as u64;
        let mut left_mask: u64 = 1;
        let mut k: u64 = 1;
        let ghost mut built: u64 = 1;
        proof {
            lemma_column_start(n);
        }
        while k < n
            invariant
                3 <= n <= 8,
                1 <= k <= n,
                built == (k - 1) * n + 1,
                left_mask == left_column(n) & (((1u64 << built) - 1) as u64),
            decreases n - k,
        {
            proof {
                lemma_column_step(n, k, built, left_mask);
                assert(k * n + 1 == (k - 1) * n + 1 + n) by (nonlinear_arith);
                built = (built + n) as u64;
            }
            left_mask |= left_mask << n;
            k += 1;
        }
        proof {
            lemma_column_step(n, n, built, left_mask);
        }
        assert((1u64 << n) >= 1) by (bit_vector)
            requires
                3 <= n <= 8,
        ;
        let bottom_mask: u64 = (1u64 << n) - 1;
        assert(n * n == size * size && n <= n * n <= 64) by (nonlinear_arith)
            requires
                3 <= n <= 8,
                n == size,
        ;
        let full_mask: u64 = if size < 8 {
            assert(n * n < 64) by (nonlinear_arith)
                requires
                    3 <= n < 8,
            ;
            assert((1u64 << ((n * n) as u64)) >= 1) by (bit_vector)
                requires
                    3 <= n < 8,
            ;
            (1u64 << (n * n)) - 1
        } else {
            u64::MAX
        };
        let mut owners: Vec<Stack> = Vec::new();
        let mut partial_hash: u64 = 0;
        let mut i: usize = 0;
        let ghost vacant = Seq::new((size * size) as nat, |j: int| Square::vacant());
        while i < size * size
            invariant
                i <= size * size <= 64,
                owners.len() == i,
                forall|j: int|
                    0 <= j < i ==> (#[trigger] owners@[j]).wf() && owners@[j]@ == Seq::<
                        Player,
                    >::empty(),
                partial_hash == board_hash(vacant, i as nat),
                vacant.len() == size * size,
                forall|j: int| 0 <= j < size * size ==> #[trigger] vacant[j] == Square::vacant(),
            decreases size * size - i,
        {
            let stack = Stack::new();
            let mut hasher = Fnv64::new(BASE[i]);
            stack.hash(&mut hasher);
            partial_hash ^= hasher.finish();
            owners.push(stack);
            i += 1;
        }
        let game = Game {
            size,
            round: 1,
            player: Player::White,
            white_reserves: Reserves::new(size).unwrap(),
            black_reserves: Reserves::new(size).unwrap(),
            left_mask,
            right_mask: left_mask << (n - 1),
            top_mask: bottom_mask << (n * n - n),
            bottom_mask,
            full_mask,
            caps: 0,
            walls: 0,
            white: 0,
            black: 0,
            owners,
            partial_hash,
            tables: DropTables::new(),
        };
        proof {
            lemma_edges(n);
            lemma_none();
            assert(game@.squares =~= vacant);
            assert(game@ == Position::initial(size as nat));
            lemma_no_stones(vacant, (size * size) as nat);
            assert forall|j: int| 0 <= j < 64 implies #[trigger] game.square_ok(j) by {}
            assert(n == 8 ==> n * n == 64) by (nonlinear_arith);
            assert(game.full_mask == low_mask((n * n) as nat));
            assert(game.bottom_mask == low_mask(n as nat));
            assert(game.top_mask == low_mask(n as nat) << ((n * n - n) as u64));
        }
        Some(game)
    }

    /// The hash of the position. Positions with the same board and the same side to move
    /// have the same hash, however they were reached.
    pub fn hash(&self) -> (r: u64)
        requires
            self.wf(),
        ensures
            r == self@.hash(),
    {
        let mut hasher = Fnv64::new(self.partial_hash);
        hasher.write_u64(self.caps);
        hasher.write_u64(self.walls);
        hasher.write_u8(binary(self.player) as u8);
        proof {
            self.lemma_view_wf();
            let caps = kind_mask(self@.squares, Piece::Cap, self@.area());
            let walls = kind_mask(self@.squares, Piece::Wall, self@.area());
            lemma_kind_mask(self@.squares, Piece::Cap, self@.area());
            lemma_kind_mask(self@.squares, Piece::Wall, self@.area());
            assert forall|j: int| 0 <= j < 64 implies bit(self.caps, j) == bit(caps, j) by {
                assert(self.square_ok(j));
            }
            assert forall|j: int| 0 <= j < 64 implies bit(self.walls, j) == bit(walls, j) by {
                assert(self.square_ok(j));
            }
            lemma_same_bits(self.caps, caps);
            lemma_same_bits(self.walls, walls);
        }
        hasher.finish()
    }

    #[inline]
    pub fn round(&self) -> (r: u32)
        ensures
            r == self@.round,
    {
        self.round
    }

    #[inline]
    pub fn cur_player(&self) -> (r: Player)
        ensures
            r == self@.player,
    {
        self.player
    }

    #[inline]
    pub fn reserves(&self, player: Player) -> (r: &Reserves)
        ensures
            r@ == self@.pool(player),
    {
        match player {
            Player::White => &self.white_reserves,
            Player::Black => &self.black_reserves,
        }
    }
}

/// A game that differs from another only in its round, side to move, pools and running
/// hash has the same board, and is consistent if the other is and its counts are right.
pub(crate) proof fn lemma_frame(a: Game, b: Game)
    requires
        b == (Game {
            round: b.round,
            player: b.player,
            white_reserves: b.white_reserves,
            black_reserves: b.black_reserves,
            partial_hash: b.partial_hash,
            ..a
        }),
    ensures
        b@.squares == a@.squares,
        b@.size == a@.size,
        a.board_ok() && b.round >= 1 ==> b.board_ok(),
{
    assert(b@.squares =~= a@.squares);
    if a.board_ok() && b.round >= 1 {
        assert forall|i: int| 0 <= i < 64 implies #[trigger] b.square_ok(i) by {
            assert(a.square_ok(i));
        }
    }
}

/// The index of a square some steps away is the index of the origin plus the steps times
/// the stride of the direction.
pub proof fn lemma_step_index(pos: Position, origin: Loc, dir: Dir, k: int)
    ensures
        pos.step_index(origin, dir, k) == pos.index_of(origin) + (dir.dx() + pos.size * dir.dy())
            * k,
{
    let n = pos.size as int;
    let y = origin.y as int;
    match dir {
        Dir::Up => {
            assert(n * (y + 1 * k) == n * y + (0 + n * 1) * k) by (nonlinear_arith);
        },
        Dir::Down => {
            assert(n * (y + (-1) * k) == n * y + (0 + n * (-1)) * k) by (nonlinear_arith);
        },
        Dir::Left => {
            assert(n * (y + 0 * k) == n * y && (-1 + n * 0) * k == -k) by (nonlinear_arith);
        },
        Dir::Right => {
            assert(n * (y + 0 * k) == n * y && (1 + n * 0) * k == k) by (nonlinear_arith);
        },
    }
}

/// A square on the board has an index below the area, and different squares have
/// different indices.
pub proof fn lemma_index(pos: Position, x: int, y: int)
    requires
        pos.on_board(x, y),
    ensures
        0 <= pos.index(x, y) < pos.area(),
        pos.index(x, y) % (pos.size as int) == x,
        pos.index(x, y) / (pos.size as int) == y,
{
    let n = pos.size as int;
    assert(0 <= n * y <= n * (n - 1) && n * (n - 1) == n * n - n) by (nonlinear_arith)
        requires
            0 <= y < n,
    ;
    vstd::arithmetic::div_mod::lemma_fundamental_div_mod_converse(x + n * y, n, y, x);
}

impl Game {
    #[inline]
    pub(crate) fn idx(&self, loc: Loc) -> (r: usize)
        requires
            3 <= self.size <= 8,
            self@.holds(loc),
        ensures
            r == self@.index_of(loc),
            r < self.size * self.size <= 64,
    {
        proof {
            lemma_index(self@, loc.x as int, loc.y as int);
            assert(self.size * self.size <= 64) by (nonlinear_arith)
                requires
                    self.size <= 8,
            ;
        }
        loc.x as usize + self.size * loc.y as usize
    }

    /// The index `dist` steps from square `idx` in direction `dir`.
    #[inline]
    pub(crate) fn offset(&self, idx: usize, dir: Dir, dist: u8) -> (r: usize)
        requires
            self.size <= 8,
            0 <= idx + (dir.dx() + self.size * dir.dy()) * dist < 64,
        ensures
            r == idx + (dir.dx() + self.size * dir.dy()) * dist,
    {
        proof {
            let n = self.size as int;
            let d = dist as int;
            assert((0 + n * 1) * d == n * d && (0 + n * (-1)) * d == -(n * d) && (-1 + n * 0) * d
                == -d && (1 + n * 0) * d == d && 0 <= n * d <= 8 * 255) by (nonlinear_arith)
                requires
                    0 <= n <= 8,
                    0 <= d <= 255,
            ;
        }
        match dir {
            Dir::Up => idx + self.size * dist as usize,
            Dir::Down => idx - self.size * dist as usize,
            Dir::Left => idx - dist as usize,
            Dir::Right => idx + dist as usize,
        }
    }

    /// Xors the hash of square `idx` into the running hash: out if it was in, in if it
    /// was out.
    pub(crate) fn update_hash(&mut self, idx: usize)
        requires
            idx < old(self).owners.len(),
            idx < 64,
            old(self).owners[idx as int].wf(),
        ensures
            *final(self) == (Game {
                partial_hash: old(self).partial_hash ^ square_hash(
                    old(self).owners[idx as int]@,
                    idx as int,
                ),
                ..*old(self)
            }),
            final(self)@ == old(self)@,
            old(self).board_ok() ==> final(self).board_ok(),
    {
        let mut hasher = Fnv64::new(BASE[idx]);
        self.owners[idx].hash(&mut hasher);
        self.partial_hash ^= hasher.finish();
        proof {
            lemma_frame(*old(self), *self);
        }
    }

    /// The kind of the top stone of square `idx`.
    #[inline]
    pub(crate) fn get_top(&self, idx: usize) -> (r: Piece)
        requires
            idx < 64,
        ensures
            r == self.square(idx as int).top,
    {
        proof {
            lemma_test(self.caps, idx as int);
            lemma_test(self.walls, idx as int);
        }
        if self.caps & (1u64 << (idx as u64)) != 0 {
            Piece::Cap
        } else if self.walls & (1u64 << (idx as u64)) != 0 {
            Piece::Wall
        } else {
            Piece::Flat
        }
    }

    /// Makes `p` the kind of the top stone of square `idx`.
    #[inline]
    pub(crate) fn set_top(&mut self, idx: usize, p: Piece)
        requires
            idx < 64,
        ensures
            *final(self) == (Game { caps: final(self).caps, walls: final(self).walls, ..*old(self) }),
            forall|j: int| #[trigger]
                bit(final(self).caps, j) == (if j == idx {
                    p == Piece::Cap
                } else {
                    bit(old(self).caps, j)
                }),
            forall|j: int| #[trigger]
                bit(final(self).walls, j) == (if j == idx {
                    p == Piece::Wall
                } else {
                    bit(old(self).walls, j)
                }),
    {
        let mask: u64 = 1u64 << (idx as u64);
        proof {
            lemma_set_clear(self.caps, idx as int);
            lemma_set_clear(self.walls, idx as int);
            lemma_set_clear(self.caps & !mask, idx as int);
            lemma_set_clear(self.walls & !mask, idx as int);
        }
        self.caps &= !mask;
        self.walls &= !mask;
        match p {
            Piece::Cap => self.caps |= mask,
            Piece::Wall => self.walls |= mask,
            Piece::Flat => {},
        }
    }

    /// Makes the bitboards say of square `idx` what its stack says: who owns the top
    /// stone, if there is one, and that the top stone is a flat.
    #[inline]
    pub(crate) fn fix_top(&mut self, idx: usize)
        requires
            idx < 64,
            idx < old(self).owners.len(),
            old(self).owners[idx as int].wf(),
        ensures
            *final(self) == (Game {
                caps: final(self).caps,
                walls: final(self).walls,
                white: final(self).white,
                black: final(self).black,
                ..*old(self)
            }),
            forall|j: int| #[trigger] bit(final(self).caps, j) == (j != idx && bit(old(self).caps, j)),
            forall|j: int| #[trigger]
                bit(final(self).walls, j) == (j != idx && bit(old(self).walls, j)),
            forall|j: int| #[trigger]
                bit(final(self).white, j) == (if j == idx {
                    old(self).square(j).owned_by(Player::White)
                } else {
                    bit(old(self).white, j)
                }),
            forall|j: int| #[trigger]
                bit(final(self).black, j) == (if j == idx {
                    old(self).square(j).owned_by(Player::Black)
                } else {
                    bit(old(self).black, j)
                }),
    {
        self.set_top(idx, Piece::Flat);
        let mask: u64 = 1u64 << (idx as u64);
        proof {
            lemma_set_clear(self.white, idx as int);
            lemma_set_clear(self.black, idx as int);
        }
        if self.owners[idx].is_empty() {
            self.white &= !mask;
            self.black &= !mask;
        } else {
            match self.owners[idx].get(0) {
                Player::White => {
                    self.white |= mask;
                    self.black &= !mask;
                },
                Player::Black => {
                    self.white &= !mask;
                    self.black |= mask;
                },
            }
        }
    }

    /// Moves the top `amount` stones of square `from` onto square `to`.
    #[inline]
    pub(crate) fn transfer(&mut self, from: usize, to: usize, amount: u8)
        requires
            old(self).consistent(),
            from < old(self).size * old(self).size,
            to < old(self).size * old(self).size,
            from != to,
            amount <= old(self).owners[from as int]@.len(),
        ensures
            final(self).consistent(),
            final(self)@ == old(self)@.transfer(from as int, to as int, amount as nat),
            final(self).partial_hash == old(self).partial_hash,
    {
        proof {
            self.lemma_view_wf();
            lemma_two_heights(self@.squares, self@.area(), from as int, to as int);
            assert(self.square_ok(from as int));
            assert(self.square_ok(to as int));
        }
        let mut source = self.owners[from];
        let mut target = self.owners[to];
        let pieces = source.pop_stack(amount);
        target.push_stack(pieces);
        self.owners[from] = source;
        self.owners[to] = target;
        self.fix_top(from);
        self.fix_top(to);
        proof {
            let before = old(self)@;
            let after = before.transfer(from as int, to as int, amount as nat);
            assert forall|i: int| 0 <= i < 64 implies #[trigger] self.square_ok(i) by {
                assert(old(self).square_ok(i));
            }
            assert(self@.squares =~= after.squares) by {
                assert forall|i: int| 0 <= i < self@.squares.len() implies self@.squares[i]
                    == after.squares[i] by {
                    assert(old(self).square_ok(i));
                }
            }
            let step = before.squares.update(
                from as int,
                Square { stack: source@, top: Piece::Flat },
            );
            lemma_stones_update(
                before.squares,
                before.area(),
                from as int,
                Square { stack: source@, top: Piece::Flat },
            );
            lemma_stones_update(
                step,
                before.area(),
                to as int,
                Square { stack: target@, top: Piece::Flat },
            );
        }
    }

    /// Moves the top `amount` stones of square `from` onto square `to`, while the hash of
    /// square `open`, one of the two, is left out of the running hash; the hash of the
    /// other one follows the change.
    pub(crate) fn carry(&mut self, from: usize, to: usize, amount: u8, open: usize)
        requires
            old(self).consistent(),
            from < old(self).size * old(self).size,
            to < old(self).size * old(self).size,
            from != to,
            open == from || open == to,
            amount <= old(self).owners[from as int]@.len(),
            old(self).partial_hash == board_hash(old(self)@.squares, old(self)@.area())
                ^ square_hash(old(self).owners[open as int]@, open as int),
        ensures
            final(self).consistent(),
            final(self)@ == old(self)@.transfer(from as int, to as int, amount as nat),
            final(self).partial_hash == board_hash(final(self)@.squares, final(self)@.area())
                ^ square_hash(final(self).owners[open as int]@, open as int),
    {
        let other = if open == from {
            to
        } else {
            from
        };
        proof {
            self.lemma_view_wf();
            assert(self.square_ok(other as int));
        }
        self.update_hash(other);
        self.transfer(from, to, amount);
        proof {
            assert(self.square_ok(other as int));
        }
        self.update_hash(other);
        proof {
            let before = old(self)@;
            lemma_hash_update(
                before.squares,
                before.area(),
                from as int,
                self@.squares[from as int],
            );
            lemma_hash_update(
                before.squares.update(from as int, self@.squares[from as int]),
                before.area(),
                to as int,
                self@.squares[to as int],
            );
            let bh = board_hash(before.squares, before.area());
            let hf = square_hash(before.squares[from as int].stack, from as int);
            let hf2 = square_hash(self@.squares[from as int].stack, from as int);
            let ht = square_hash(before.squares[to as int].stack, to as int);
            let ht2 = square_hash(self@.squares[to as int].stack, to as int);
            assert(((bh ^ hf) ^ ht) ^ ht2 == ((((bh ^ hf) ^ hf2) ^ ht) ^ ht2) ^ hf2) by (bit_vector);
            assert(((bh ^ ht) ^ hf) ^ hf2 == ((((bh ^ hf) ^ hf2) ^ ht) ^ ht2) ^ ht2) by (bit_vector);
        }
    }
}

/// One more round of the loop that builds the left column: the part built so far, joined
/// with itself one row up, is the part one row longer; the last part is the whole column.
proof fn lemma_column_step(n: u64, k: u64, built: u64, part: u64)
    by (bit_vector)
    requires
        3 <= n <= 8,
        1 <= k <= n,
        built == (k - 1) * n + 1,
        part == left_column(n) & (((1u64 << built) - 1) as u64),
    ensures
        k < n ==> part | (part << n) == left_column(n) & (((1u64 << ((built + n) as u64)) - 1) as u64),
        k == n ==> part == left_column(n),
{
}

/// The first square of the left column is square 0.
proof fn lemma_column_start(n: u64)
    by (bit_vector)
    requires
        3 <= n <= 8,
    ensures
        1 == left_column(n) & (((1u64 << 1) - 1) as u64),
{
}

/// A board of empty squares holds no stones.
proof fn lemma_no_stones(squares: Seq<Square>, k: nat)
    requires
        k <= squares.len(),
        forall|j: int| 0 <= j < k ==> squares[j].height() == 0,
    ensures
        stones(squares, k) == 0,
    decreases k,
{
    if k > 0 {
        lemma_no_stones(squares, (k - 1) as nat);
    }
}

} // verus!
