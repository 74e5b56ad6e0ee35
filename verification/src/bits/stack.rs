//! A stack of stones, packed into one word: one bit per stone says who owns it.

use vstd::prelude::*;

use crate::bits::{binary, from_binary, player_of, StackRepr};
use crate::fnv64::{absorb, le_bytes, Fnv64};
use crate::game::Player;

verus! {

/// The most stones a stack can hold. The highest bit of the word stays free, so that a
/// shift by the height is always a shift within the word.
pub const MAX_HEIGHT: usize = 127;

/// The owners of a stack's stones. Bit 0 of the word is the bottom stone, bit `size - 1`
/// the top one; the bits from `size` upwards are zero.
#[derive(Debug, Clone, Copy)]
pub struct Stack {
    owners: StackRepr,
    size: u8,
}

/// The word of a sequence of owners: the bottom stone in bit 0.
pub open spec fn word_of(s: Seq<Player>) -> StackRepr
    decreases s.len(),
{
    if s.len() == 0 {
        0
    } else {
        word_of(s.drop_last()) | ((s.last().bit() as StackRepr) << ((s.len() - 1) as StackRepr))
    }
}

/// The bytes that stand for a stack in a hash: the sixteen bytes of its word, least
/// significant first, then its height.
pub open spec fn stack_bytes(s: Seq<Player>) -> Seq<u8> {
    le_bytes(word_of(s), 16).push(s.len() as u8)
}

proof fn lemma_push_bits(w: u128, s: u128, p: u128, i: u128)
    by (bit_vector)
    requires
        s < 127,
        p <= 1,
        i < s,
        w >> s == 0,
    ensures
        ((w | (p << s)) >> i) & 1 == (w >> i) & 1,
        ((w | (p << s)) >> s) & 1 == p,
        (w | (p << s)) >> ((s + 1) as u128) == 0,
{
}

proof fn lemma_push_top(w: u128, s: u128, p: u128)
    by (bit_vector)
    requires
        s < 127,
        p <= 1,
        w >> s == 0,
    ensures
        ((w | (p << s)) >> s) & 1 == p,
        (w | (p << s)) >> ((s + 1) as u128) == 0,
{
}

proof fn lemma_split_low(w: u128, k: u128, i: u128)
    by (bit_vector)
    requires
        k <= 127,
        i < k,
    ensures
        ((w & (((1u128 << k) - 1) as u128)) >> i) & 1 == (w >> i) & 1,
{
}

proof fn lemma_split_low_clear(w: u128, k: u128)
    by (bit_vector)
    requires
        k <= 127,
    ensures
        (w & (((1u128 << k) - 1) as u128)) >> k == 0,
{
}

proof fn lemma_split_high(w: u128, s: u128, k: u128, i: u128)
    by (bit_vector)
    requires
        k <= s <= 127,
        i < s - k,
        w >> s == 0,
    ensures
        ((w >> k) >> i) & 1 == (w >> ((k + i) as u128)) & 1,
{
}

proof fn lemma_split_high_clear(w: u128, s: u128, k: u128)
    by (bit_vector)
    requires
        k <= s <= 127,
        w >> s == 0,
    ensures
        (w >> k) >> ((s - k) as u128) == 0,
{
}

proof fn lemma_join_low(w: u128, s: u128, v: u128, i: u128)
    by (bit_vector)
    requires
        s <= 127,
        i < s,
        w >> s == 0,
    ensures
        ((w | (v << s)) >> i) & 1 == (w >> i) & 1,
{
}

proof fn lemma_join_high(w: u128, s: u128, v: u128, t: u128, i: u128)
    by (bit_vector)
    requires
        s + t <= 127,
        i < t,
        w >> s == 0,
        v >> t == 0,
    ensures
        ((w | (v << s)) >> ((s + i) as u128)) & 1 == (v >> i) & 1,
{
}

proof fn lemma_join_clear(w: u128, s: u128, v: u128, t: u128)
    by (bit_vector)
    requires
        s + t <= 127,
        w >> s == 0,
        v >> t == 0,
    ensures
        (w | (v << s)) >> ((s + t) as u128) == 0,
{
}

proof fn lemma_bit_is_01(w: u128, i: u128)
    by (bit_vector)
    requires
        i < 128,
    ensures
        (w >> i) & 1 == 0 || (w >> i) & 1 == 1,
{
}

proof fn lemma_low_step(w: u128, k: u128)
    by (bit_vector)
    requires
        k < 127,
    ensures
        w & (((1u128 << ((k + 1) as u128)) - 1) as u128) == (w & (((1u128 << k) - 1) as u128)) | (((w
            >> k) & 1) << k),
{
}

proof fn lemma_low_all(w: u128, s: u128)
    by (bit_vector)
    requires
        s <= 127,
        w >> s == 0,
    ensures
        w & (((1u128 << s) - 1) as u128) == w,
        w & (((1u128 << 0) - 1) as u128) == 0,
{
}

impl View for Stack {
    type V = Seq<Player>;

    /// The owners from the bottom stone to the top stone.
    closed spec fn view(&self) -> Seq<Player> {
        Seq::new(self.size as nat, |i: int| player_of((self.owners >> (i as u128)) & 1))
    }
}

impl Stack {
    /// The height fits the word, and no bit is set at or above it.
    pub closed spec fn wf(&self) -> bool {
        &&& self.size <= MAX_HEIGHT
        &&& self.owners >> (self.size as u128) == 0
    }

    /// A well-formed stack holds at most `MAX_HEIGHT` stones.
    pub proof fn lemma_height(&self)
        requires
            self.wf(),
        ensures
            self@.len() <= MAX_HEIGHT,
    {
    }

    /// The owner of the stone `index` places below the top, and White where the stack has
    /// no such stone.
    pub open spec fn spec_get(&self, index: int) -> Player {
        if 0 <= index < self@.len() {
            self@[self@.len() - 1 - index]
        } else {
            Player::White
        }
    }

    /// The word of a well-formed stack is the word of its owners.
    proof fn lemma_word(&self)
        requires
            self.wf(),
        ensures
            word_of(self@) == self.owners,
            self@.len() == self.size,
    {
        self.lemma_word_prefix(self.size as nat);
        assert(self@.take(self.size as int) =~= self@);
        lemma_low_all(self.owners, self.size as u128);
    }

    proof fn lemma_word_prefix(&self, k: nat)
        requires
            self.wf(),
            k <= self.size,
        ensures
            word_of(self@.take(k as int)) == self.owners & (((1u128 << (k as u128)) - 1) as u128),
        decreases k,
    {
        let w = self.owners;
        if k == 0 {
            lemma_low_all(w, self.size as u128);
        } else {
            let j = (k - 1) as nat;
            self.lemma_word_prefix(j);
            let s = self@.take(k as int);
            assert(s.drop_last() =~= self@.take(j as int));
            assert(s.last() == player_of((w >> (j as u128)) & 1));
            lemma_bit_is_01(w, j as u128);
            assert(s.last().bit() as u128 == (w >> (j as u128)) & 1);
            lemma_low_step(w, j as u128);
        }
    }

    /// The empty stack.
    pub fn new() -> (r: Self)
        ensures
            r.wf(),
            r@ == Seq::<Player>::empty(),
    {
        let r = Stack { owners: 0, size: 0 };
        proof {
            assert(0u128 >> 0u128 == 0) by (bit_vector);
            assert(r@ =~= Seq::<Player>::empty());
        }
        r
    }

    #[inline]
    pub fn len(&self) -> (r: usize)
        ensures
            r == self@.len(),
    {
        self.size as usize
    }

    #[inline]
    pub fn is_empty(&self) -> (r: bool)
        ensures
            r == (self@.len() == 0),
    {
        self.size == 0
    }

    /// The owner of the stone `index` places below the top: `get(0)` is the top stone.
    #[inline]
    pub fn get(&self, index: usize) -> (r: Player)
        requires
            self.wf(),
        ensures
            r == self.spec_get(index as int),
    {
        if index < self.size as usize {
            let at: u128 = (self.size as usize - 1 - index) as u128;
            from_binary((self.owners >> at) & 1)
        } else {
            Player::White
        }
    }

    /// Takes the top `n` stones off and returns them as a stack, in the same order.
    #[inline]
    pub fn pop_stack(&mut self, n: u8) -> (r: Stack)
        requires
            old(self).wf(),
            n <= old(self)@.len(),
        ensures
            final(self).wf(),
            r.wf(),
            final(self)@ == old(self)@.take(old(self)@.len() - n),
            r@ == old(self)@.skip(old(self)@.len() - n),
    {
        let keep: u8 = self.size - n;
        let top: u128 = self.owners >> (keep as u128);
        assert((1u128 << (keep as u128)) >= 1) by (bit_vector)
            requires
                keep <= 127,
        ;
        let rest: u128 = self.owners & ((1u128 << (keep as u128)) - 1);
        let r = Stack { owners: top, size: n };
        proof {
            let w = self.owners;
            let s = self.size as u128;
            let k = keep as u128;
            assert((1u128 << k) - 1 == ((1u128 << k) - 1) as u128);
            lemma_split_low_clear(w, k);
            lemma_split_high_clear(w, s, k);
            assert forall|i: int| 0 <= i < n implies #[trigger] r@[i] == old(self)@[keep + i] by {
                lemma_split_high(w, s, k, i as u128);
            }
            assert(r@ =~= old(self)@.skip(old(self)@.len() - n));
        }
        self.owners = rest;
        self.size = keep;
        proof {
            assert forall|i: int| 0 <= i < keep implies #[trigger] self@[i] == old(self)@[i] by {
                lemma_split_low(old(self).owners, keep as u128, i as u128);
            }
            assert(self@ =~= old(self)@.take(old(self)@.len() - n));
        }
        r
    }

    /// Puts the stones of `s` on top, in the same order.
    #[inline]
    pub fn push_stack(&mut self, s: Stack)
        requires
            old(self).wf(),
            s.wf(),
            old(self)@.len() + s@.len() <= MAX_HEIGHT,
        ensures
            final(self).wf(),
            final(self)@ == old(self)@ + s@,
    {
        let joined: u128 = self.owners | (s.owners << (self.size as u128));
        proof {
            let w = self.owners;
            let h = self.size as u128;
            let v = s.owners;
            let t = s.size as u128;
            lemma_join_clear(w, h, v, t);
        }
        self.owners = joined;
        self.size += s.size;
        proof {
            let w = old(self).owners;
            let h = old(self).size as u128;
            assert forall|i: int| 0 <= i < h + s.size implies #[trigger] self@[i] == (old(self)@
                + s@)[i] by {
                if i < h {
                    lemma_join_low(w, h, s.owners, i as u128);
                } else {
                    lemma_join_high(w, h, s.owners, s.size as u128, (i - h) as u128);
                }
            }
            assert(self@ =~= old(self)@ + s@);
        }
    }

    /// Puts one stone of player `p` on top.
    #[inline]
    pub fn push(&mut self, p: Player)
        requires
            old(self).wf(),
            old(self)@.len() < MAX_HEIGHT,
        ensures
            final(self).wf(),
            final(self)@ == old(self)@.push(p),
    {
        let b = binary(p);
        let joined: u128 = self.owners | (b << (self.size as u128));
        proof {
            let w = self.owners;
            let h = self.size as u128;
            lemma_push_top(w, h, b);
        }
        self.owners = joined;
        self.size += 1;
        proof {
            let w = old(self).owners;
            let h = old(self).size as u128;
            assert forall|i: int| 0 <= i < h + 1 implies #[trigger] self@[i] == old(self)@.push(
                p,
            )[i] by {
                if i < h {
                    lemma_push_bits(w, h, b, i as u128);
                }
            }
            assert(self@ =~= old(self)@.push(p));
        }
    }

    /// The stack with the given owners, bottom stone first.
    pub fn from_slice(players: &[Player]) -> (r: Stack)
        requires
            players@.len() <= MAX_HEIGHT,
        ensures
            r.wf(),
            r@ == players@,
    {
        let mut s = Stack::new();
        let mut i: usize = 0;
        while i < players.len()
            invariant
                i <= players@.len() <= MAX_HEIGHT,
                s.wf(),
                s@ == players@.take(i as int),
            decreases players.len() - i,
        {
            s.push(players[i]);
            proof {
                assert(players@.take(i as int).push(players@[i as int]) =~= players@.take(i + 1));
            }
            i += 1;
        }
        proof {
            assert(players@.take(i as int) =~= players@);
        }
        s
    }

    /// Mixes the stack into a running hash: its word, then its height.
    #[inline]
    pub fn hash(&self, hasher: &mut Fnv64)
        requires
            self.wf(),
        ensures
            final(hasher)@ == absorb(old(hasher)@, stack_bytes(self@)),
    {
        hasher.write_u128(self.owners);
        hasher.write_u8(self.size);
        proof {
            self.lemma_word();
            assert(stack_bytes(self@).drop_last() =~= le_bytes(self.owners, 16));
        }
    }

    /// A cursor over the stones, from the top stone at the front to the bottom stone at
    /// the back.
    pub fn into_iter(&self) -> (r: StackIter<'_>)
        requires
            self.wf(),
        ensures
            r.wf(),
            r.remaining() == self@.reverse(),
    {
        let r = StackIter { front: 0, back: self.len(), stack: self };
        proof {
            assert(r.remaining() =~= self@.reverse());
        }
        r
    }
}

impl Default for Stack {
    fn default() -> (r: Self)
        ensures
            r.wf(),
            r@ == Seq::<Player>::empty(),
    {
        Self::new()
    }
}

/// A cursor over a stack that can be advanced from both ends.
pub struct StackIter<'a> {
    front: usize,
    back: usize,
    stack: &'a Stack,
}

impl<'a> StackIter<'a> {
    pub closed spec fn wf(&self) -> bool {
        &&& self.stack.wf()
        &&& self.front <= self.back <= self.stack@.len()
    }

    /// The stones still to come, front first: the higher stone comes before the lower.
    pub closed spec fn remaining(&self) -> Seq<Player> {
        Seq::new((self.back - self.front) as nat, |i: int| self.stack.spec_get(self.front + i))
    }

    /// The stone at the front, if any is left; the cursor moves past it.
    pub fn next(&mut self) -> (r: Option<Player>)
        requires
            old(self).wf(),
        ensures
            final(self).wf(),
            old(self).remaining().len() == 0 ==> r is None && final(self).remaining() == old(
                self,
            ).remaining(),
            old(self).remaining().len() > 0 ==> r == Some(old(self).remaining().first())
                && final(self).remaining() == old(self).remaining().drop_first(),
    {
        if self.front < self.back {
            let res = Some(self.stack.get(self.front));
            self.front += 1;
            proof {
                assert(self.remaining() =~= old(self).remaining().drop_first());
            }
            res
        } else {
            None
        }
    }

    /// The stone at the back, if any is left; the cursor moves past it.
    pub fn next_back(&mut self) -> (r: Option<Player>)
        requires
            old(self).wf(),
        ensures
            final(self).wf(),
            old(self).remaining().len() == 0 ==> r is None && final(self).remaining() == old(
                self,
            ).remaining(),
            old(self).remaining().len() > 0 ==> r == Some(old(self).remaining().last())
                && final(self).remaining() == old(self).remaining().drop_last(),
    {
        if self.front < self.back {
            self.back -= 1;
            proof {
                assert(self.remaining() =~= old(self).remaining().drop_last());
            }
            Some(self.stack.get(self.back))
        } else {
            None
        }
    }
}

} // verus!
