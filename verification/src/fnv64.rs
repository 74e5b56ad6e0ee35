//! The hash function behind position hashes: FNV-style mixing of bytes into a 64-bit
//! state, and the per-square seeds.

use vstd::prelude::*;

verus! {

/// One seed per square, by square index.
pub const BASE: [u64; 64] = [
    0x7c3b_57bf_837d_04e6, 0xd924_4b92_8d93_faea,
    0x6fdb_5f71_960d_526d, 0xc43e_9c5a_95f7_0002,
    0xba6a_7d0e_5b20_e0d0, 0x3fa9_0333_21f2_cb46,
    0x87ac_bf43_3b10_e9fb, 0xe2cf_e649_9c46_8b89,
    0x86dc_f3bb_0e86_9a7a, 0xd5a6_8467_30ac_08f3,
    0x450b_c1f6_c2cc_f7d8, 0xf917_6056_3e5a_70a3,
    0xed1b_7d46_71f8_247e, 0xe825_6b87_3bac_c9d8,
    0x27c8_2854_21c1_1f8f, 0x2eb7_4959_fb1e_0b1f,
    0x8624_d91e_6328_3c54, 0xf777_7ce8_134a_64ce,
    0x1cff_8bb4_887b_613e, 0xc07b_d839_514f_90d7,
    0xf7c7_d7e3_305b_2653, 0xb6e3_6f88_edb8_d9e2,
    0x3dc1_9ad1_fad5_f094, 0xa6c2_3347_f47f_3739,
    0x4aec_0a16_4c2a_c2f7, 0xd8cb_953d_783a_5372,
    0xc875_5ec8_0405_5012, 0x3fb6_0577_25e9_4dda,
    0x61b7_1a74_521a_203d, 0xb062_c38e_c447_2232,
    0xa25c_6d97_86a4_d298, 0x4d6c_497f_2e00_901a,
    0x0dea_728a_d7fe_460f, 0xfec7_196d_45a0_7561,
    0xe9b5_fe05_091f_d05f, 0xb89f_49ba_a733_7191,
    0x190c_d409_07ad_c68f, 0x2318_1f04_0b6c_0fdc,
    0xdbce_4b65_e1d4_66ae, 0x4d98_8803_29ac_3ffe,
    0x93e7_8ff7_f174_c251, 0x1b14_b126_0bb0_c1bd,
    0xde99_8fcb_7872_78c3, 0xbcaa_0c55_7792_41af,
    0x4582_ebd8_da8d_c5e0, 0xcf9b_bb89_f4df_ddbc,
    0x85f9_95fd_0c26_7cdb, 0x37f8_8d55_1623_6a07,
    0x74f5_588e_1bd2_22d3, 0x312f_6f21_0bc6_dbe8,
    0xf4b2_0eed_1152_ebd1, 0xe8b0_42a6_9a3e_8bdb,
    0xb65f_db0f_9290_9433, 0x7aff_3584_5c48_f21c,
    0x1fb0_3462_fcf1_f412, 0xb65d_3df2_d5a9_b05a,
    0xc5dd_5ad6_eaad_a6b7, 0xb7e5_528b_517b_bfb2,
    0x7bee_ba46_b26e_3efd, 0x7cc2_d49e_df17_9f04,
    0xdb77_22d0_4b07_a322, 0xd507_e2e6_a6ef_4350,
    0xdd84_f103_bcda_57b8, 0x3a0a_b8ef_41e4_aa26,
];

/// The multiplier of the mixing step.
pub const PRIME: u64 = 0x0000_0100_0000_01B3;

/// The state after one byte: xor the byte in, then multiply modulo 2^64.
pub open spec fn mix(h: u64, b: u8) -> u64 {
    vstd::wrapping::u64_specs::wrapping_mul(h ^ (b as u64), PRIME)
}

/// The state after a sequence of bytes, taken first to last.
pub open spec fn absorb(h: u64, bytes: Seq<u8>) -> u64
    decreases bytes.len(),
{
    if bytes.len() == 0 {
        h
    } else {
        mix(absorb(h, bytes.drop_last()), bytes.last())
    }
}

/// Byte `k` of a word, counted from the least significant.
pub open spec fn le_byte(x: u128, k: nat) -> u8 {
    ((x >> ((8 * k) as u128)) & 0xff) as u8
}

/// The `n` least significant bytes of a word, least significant first.
pub open spec fn le_bytes(x: u128, n: nat) -> Seq<u8> {
    Seq::new(n, |k: int| le_byte(x, k as nat))
}

/// A running hash.
pub struct Fnv64 {
    hash: u64,
}

impl View for Fnv64 {
    type V = u64;

    closed spec fn view(&self) -> u64 {
        self.hash
    }
}

impl Fnv64 {
    /// A hasher whose state is `init`.
    pub fn new(init: u64) -> (r: Self)
        ensures
            r@ == init,
    {
        Fnv64 { hash: init }
    }

    /// The current state.
    pub fn finish(&self) -> (r: u64)
        ensures
            r == self@,
    {
        self.hash
    }

    pub fn write_u8(&mut self, b: u8)
        ensures
            final(self)@ == mix(old(self)@, b),
    {
        self.hash ^= b as u64;
        self.hash = self.hash.wrapping_mul(PRIME);
    }

    /// Mixes the bytes in, first to last.
    pub fn write(&mut self, bytes: &[u8])
        ensures
            final(self)@ == absorb(old(self)@, bytes@),
    {
        let mut i: usize = 0;
        while i < bytes.len()
            invariant
                i <= bytes.len(),
                self@ == absorb(old(self)@, bytes@.take(i as int)),
            decreases bytes.len() - i,
        {
            proof {
                assert(bytes@.take(i + 1).drop_last() =~= bytes@.take(i as int));
            }
            self.write_u8(bytes[i]);
            i += 1;
        }
        proof {
            assert(bytes@.take(i as int) =~= bytes@);
        }
    }

    /// Mixes in the `n` low bytes of `x`, least significant first.
    fn write_word(&mut self, x: u128, n: usize)
        requires
            n <= 16,
        ensures
            final(self)@ == absorb(old(self)@, le_bytes(x, n as nat)),
    {
        let mut k: usize = 0;
        while k < n
            invariant
                k <= n <= 16,
                self@ == absorb(old(self)@, le_bytes(x, k as nat)),
            decreases n - k,
        {
            proof {
                assert(le_bytes(x, (k + 1) as nat).drop_last() =~= le_bytes(x, k as nat));
            }
            let shifted: u128 = (x >> (8 * k as u128)) & 0xff;
            assert(shifted <= 0xff) by (bit_vector)
                requires
                    shifted == (x >> ((8 * k) as u128)) & 0xff,
            ;
            self.write_u8(shifted as u8);
            k += 1;
        }
    }

    /// Mixes in the eight bytes of `x`, least significant first.
    pub fn write_u64(&mut self, x: u64)
        ensures
            final(self)@ == absorb(old(self)@, le_bytes(x as u128, 8)),
    {
        self.write_word(x as u128, 8);
    }

    /// Mixes in the sixteen bytes of `x`, least significant first.
    pub fn write_u128(&mut self, x: u128)
        ensures
            final(self)@ == absorb(old(self)@, le_bytes(x, 16)),
    {
        self.write_word(x, 16);
    }
}

} // verus!
