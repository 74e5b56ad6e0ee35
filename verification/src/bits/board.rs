//! Bitboards: one bit per square, bit `i` for square `i`, and the facts about single bits
//! that connect a bitboard to the squares it describes.

use vstd::prelude::*;

verus! {

/// Whether bit `i` of a bitboard is set.
pub open spec fn bit(m: u64, i: int) -> bool {
    0 <= i < 64 && (m >> (i as u64)) & 1 == 1
}

/// The bitboard with the lowest `k` bits set.
pub open spec fn low_mask(k: nat) -> u64 {
    if k >= 64 {
        u64::MAX
    } else {
        ((1u64 << (k as u64)) - 1) as u64
    }
}

/// The bitboard of the left column of a board of `n` by `n` squares.
pub open spec fn left_column(n: u64) -> u64 {
    if n == 3 {
        0x49
    } else if n == 4 {
        0x1111
    } else if n == 5 {
        0x10_8421
    } else if n == 6 {
        0x4104_1041
    } else if n == 7 {
        0x0408_1020_4081
    } else {
        0x0101_0101_0101_0101
    }
}

proof fn lemma_set_bv(m: u64, i: u64, j: u64)
    by (bit_vector)
    requires
        i < 64,
        j < 64,
    ensures
        (((m | (1u64 << i)) >> j) & 1 == 1) == (j == i || (m >> j) & 1 == 1),
        (((m & !(1u64 << i)) >> j) & 1 == 1) == (j != i && (m >> j) & 1 == 1),
{
}

proof fn lemma_test_bv(m: u64, i: u64)
    by (bit_vector)
    requires
        i < 64,
    ensures
        (m & (1u64 << i) != 0) == ((m >> i) & 1 == 1),
        (0u64 >> i) & 1 == 0,
{
}

proof fn lemma_ops_bv(a: u64, b: u64, j: u64)
    by (bit_vector)
    requires
        j < 64,
    ensures
        (((a & b) >> j) & 1 == 1) == ((a >> j) & 1 == 1 && (b >> j) & 1 == 1),
        (((a | b) >> j) & 1 == 1) == ((a >> j) & 1 == 1 || (b >> j) & 1 == 1),
        (((!a) >> j) & 1 == 1) == !((a >> j) & 1 == 1),
{
}

proof fn lemma_low_step_bv(a: u64, k: u64)
    by (bit_vector)
    requires
        k < 63,
    ensures
        a & (((1u64 << ((k + 1) as u64)) - 1) as u64) == (a & (((1u64 << k) - 1) as u64)) | (((a >> k)
            & 1) << k),
        ((a >> k) & 1) == 0 || ((a >> k) & 1) == 1,
        a & (((1u64 << 0) - 1) as u64) == 0,
{
}

proof fn lemma_low_last_bv(a: u64)
    by (bit_vector)
    ensures
        a == (a & (((1u64 << 63) - 1) as u64)) | (((a >> 63) & 1) << 63),
        ((a >> 63) & 1) == 0 || ((a >> 63) & 1) == 1,
{
}

proof fn lemma_one_bit_bv(a: u64, k: u64)
    by (bit_vector)
    requires
        k < 64,
    ensures
        (a | (0u64 << k)) == a,
        (a | (1u64 << k)) != 0,
{
}

proof fn lemma_edges_bv(n: u64, i: u64)
    by (bit_vector)
    requires
        3 <= n <= 8,
        i < 64,
    ensures
        ((left_column(n) >> i) & 1 == 1) == (i < n * n && i % n == 0),
        (((left_column(n) << ((n - 1) as u64)) >> i) & 1 == 1) == (i < n * n && i % n == n - 1),
        ((((1u64 << n) - 1) as u64 >> i) & 1 == 1) == (i < n),
        ((((((1u64 << n) - 1) as u64) << ((n * n - n) as u64)) >> i) & 1 == 1) == (n * n - n <= i
            && i < n * n),
        n < 8 ==> ((((1u64 << ((n * n) as u64)) - 1) as u64 >> i) & 1 == 1) == (i < n * n),
        (0xffff_ffff_ffff_ffffu64 >> i) & 1 == 1,
{
}

proof fn lemma_superset_bv(a: u64, b: u64)
    by (bit_vector)
    requires
        b & a == a,
        b != a,
    ensures
        b > a,
{
}

proof fn lemma_xor_bv(a: u64, s: u64, t: u64, t2: u64, s2: u64)
    by (bit_vector)
    ensures
        (a ^ s ^ s) == a,
        ((a ^ s) ^ t) ^ t2 == (((a ^ s) ^ s2) ^ t) ^ t2 ^ s2,
        (a ^ s) ^ t == (a ^ t) ^ s,
        a ^ 0 == a,
{
}

/// Setting and clearing one bit leaves the others as they were.
pub proof fn lemma_set_clear(m: u64, i: int)
    requires
        0 <= i < 64,
    ensures
        forall|j: int| #[trigger] bit(m | (1u64 << (i as u64)), j) == (j == i || bit(m, j)),
        forall|j: int| #[trigger] bit(m & !(1u64 << (i as u64)), j) == (j != i && bit(m, j)),
{
    assert forall|j: int| #[trigger] bit(m | (1u64 << (i as u64)), j) == (j == i || bit(m, j)) by {
        if 0 <= j < 64 {
            lemma_set_bv(m, i as u64, j as u64);
        }
    }
    assert forall|j: int| #[trigger]
        bit(m & !(1u64 << (i as u64)), j) == (j != i && bit(m, j)) by {
        if 0 <= j < 64 {
            lemma_set_bv(m, i as u64, j as u64);
        }
    }
}

/// Testing a bit with a one-bit mask reads that bit.
pub proof fn lemma_test(m: u64, i: int)
    requires
        0 <= i < 64,
    ensures
        (m & (1u64 << (i as u64)) != 0) == bit(m, i),
{
    lemma_test_bv(m, i as u64);
}

/// The empty bitboard has no bit set.
pub proof fn lemma_none()
    ensures
        forall|j: int| !#[trigger] bit(0, j),
{
    assert forall|j: int| !#[trigger] bit(0, j) by {
        if 0 <= j < 64 {
            lemma_test_bv(0, j as u64);
        }
    }
}

/// The bits of an intersection, a union and a complement.
pub proof fn lemma_ops(a: u64, b: u64)
    ensures
        forall|j: int| #[trigger] bit(a & b, j) == (bit(a, j) && bit(b, j)),
        forall|j: int| #[trigger] bit(a | b, j) == (bit(a, j) || bit(b, j)),
        forall|j: int| 0 <= j < 64 ==> #[trigger] bit(!a, j) == !bit(a, j),
{
    assert forall|j: int| #[trigger] bit(a & b, j) == (bit(a, j) && bit(b, j)) by {
        if 0 <= j < 64 {
            lemma_ops_bv(a, b, j as u64);
        }
    }
    assert forall|j: int| #[trigger] bit(a | b, j) == (bit(a, j) || bit(b, j)) by {
        if 0 <= j < 64 {
            lemma_ops_bv(a, b, j as u64);
        }
    }
    assert forall|j: int| 0 <= j < 64 implies #[trigger] bit(!a, j) == !bit(a, j) by {
        lemma_ops_bv(a, b, j as u64);
    }
}

/// The low `k` bits of two bitboards agree when each of those bits does.
proof fn lemma_low_agree(a: u64, b: u64, k: nat)
    requires
        k <= 63,
        forall|j: int| 0 <= j < k ==> bit(a, j) == bit(b, j),
    ensures
        a & low_mask(k) == b & low_mask(k),
    decreases k,
{
    if k == 0 {
        lemma_low_step_bv(a, 0);
        lemma_low_step_bv(b, 0);
    } else {
        let j = (k - 1) as nat;
        lemma_low_agree(a, b, j);
        lemma_low_step_bv(a, j as u64);
        lemma_low_step_bv(b, j as u64);
        assert(bit(a, j as int) == bit(b, j as int));
    }
}

/// Two bitboards with the same bits are the same bitboard.
pub proof fn lemma_same_bits(a: u64, b: u64)
    requires
        forall|j: int| 0 <= j < 64 ==> bit(a, j) == bit(b, j),
    ensures
        a == b,
{
    lemma_low_agree(a, b, 63);
    lemma_low_last_bv(a);
    lemma_low_last_bv(b);
    assert(bit(a, 63) == bit(b, 63));
}

proof fn lemma_low_some_bit(a: u64, k: nat)
    requires
        k <= 63,
        a & low_mask(k) != 0,
    ensures
        exists|j: int| 0 <= j < k && bit(a, j),
    decreases k,
{
    if k == 0 {
        lemma_low_step_bv(a, 0);
    } else {
        let j = (k - 1) as nat;
        lemma_low_step_bv(a, j as u64);
        if bit(a, j as int) {
        } else {
            lemma_one_bit_bv(a & low_mask(j), j as u64);
            lemma_low_some_bit(a, j);
        }
    }
}

/// A bitboard that is not empty has a bit set.
pub proof fn lemma_some_bit(a: u64)
    requires
        a != 0,
    ensures
        exists|j: int| 0 <= j < 64 && bit(a, j),
{
    lemma_low_last_bv(a);
    if bit(a, 63) {
    } else {
        lemma_one_bit_bv(a & low_mask(63), 63);
        lemma_low_some_bit(a, 63);
    }
}

/// A bitboard with a bit set is not empty.
pub proof fn lemma_bit_nonzero(a: u64, j: int)
    requires
        bit(a, j),
    ensures
        a != 0,
{
    lemma_test_bv(a, j as u64);
}

/// The squares that the edge bitboards of a board of `n` by `n` squares stand for.
pub proof fn lemma_edges(n: u64)
    requires
        3 <= n <= 8,
    ensures
        forall|i: int| #[trigger] bit(left_column(n), i) == (0 <= i < n * n && i % (n as int) == 0),
        forall|i: int| #[trigger]
            bit(left_column(n) << ((n - 1) as u64), i) == (0 <= i < n * n && i % (n as int) == n
                - 1),
        forall|i: int| #[trigger] bit(low_mask(n as nat), i) == (0 <= i < n),
        forall|i: int| #[trigger]
            bit(low_mask(n as nat) << ((n * n - n) as u64), i) == (n * n - n <= i < n * n),
        forall|i: int| #[trigger] bit(low_mask((n * n) as nat), i) == (0 <= i < n * n),
{
    assert(n == 3 || n == 4 || n == 5 || n == 6 || n == 7 || n == 8);
    assert(n * n >= n) by (nonlinear_arith)
        requires
            n >= 1,
    ;
    assert forall|i: int| #[trigger]
        bit(left_column(n), i) == (0 <= i < n * n && i % (n as int) == 0) by {
        if 0 <= i < 64 {
            lemma_edges_bv(n, i as u64);
        }
    }
    assert forall|i: int| #[trigger]
        bit(left_column(n) << ((n - 1) as u64), i) == (0 <= i < n * n && i % (n as int) == n
            - 1) by {
        if 0 <= i < 64 {
            lemma_edges_bv(n, i as u64);
        }
    }
    assert forall|i: int| #[trigger] bit(low_mask(n as nat), i) == (0 <= i < n) by {
        if 0 <= i < 64 {
            lemma_edges_bv(n, i as u64);
        }
    }
    assert forall|i: int| #[trigger]
        bit(low_mask(n as nat) << ((n * n - n) as u64), i) == (n * n - n <= i < n * n) by {
        if 0 <= i < 64 {
            lemma_edges_bv(n, i as u64);
        }
    }
    assert forall|i: int| #[trigger] bit(low_mask((n * n) as nat), i) == (0 <= i < n * n) by {
        if 0 <= i < 64 {
            lemma_edges_bv(n, i as u64);
        }
    }
}

/// A bitboard that holds another and differs from it is the greater number.
pub proof fn lemma_superset_greater(a: u64, b: u64)
    requires
        b & a == a,
        b != a,
    ensures
        b > a,
{
    lemma_superset_bv(a, b);
}

/// Xor cancels and commutes.
pub proof fn lemma_xor(a: u64, s: u64, t: u64, t2: u64, s2: u64)
    ensures
        (a ^ s ^ s) == a,
        ((a ^ s) ^ t) ^ t2 == (((a ^ s) ^ s2) ^ t) ^ t2 ^ s2,
        (a ^ s) ^ t == (a ^ t) ^ s,
        a ^ 0 == a,
{
    lemma_xor_bv(a, s, t, t2, s2);
}

} // verus!
