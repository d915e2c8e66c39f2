//! The word-keystream engine behind the cipher stream adapters.
//!
//! The engine follows the SNOW 2.0 design: a 16-word LFSR over GF(2^32)
//! (feedback `s16 = alpha*s0 ^ s2 ^ alpha^-1*s11`) combined with a
//! two-register FSM whose substitution box is the AES round function
//! (S-box followed by MixColumn).  It is loaded from the 128-byte keys the
//! derivation functions produce and then emits keystream words in blocks of
//! 16.
//!
//! Every executable piece has a specification-level mirror, so the word at
//! any position of the keystream is a mathematical function [`ks_word`] of
//! the key alone; the cipher adapters' contracts are stated over it.

use vstd::prelude::*;

verus! {

use vstd::wrapping::u32_specs;

/// Multiplication by `x` in GF(2^8) modulo the given reduction byte
/// (the low 8 bits of the field polynomial).
pub open spec fn spec_xtime(b: u8, red: u8) -> u8 {
    if b >= 0x80 {
        ((b << 1) ^ red) as u8
    } else {
        (b << 1) as u8
    }
}

fn xtime(b: u8, red: u8) -> (r: u8)
    ensures
        r == spec_xtime(b, red),
{
    if b >= 0x80 {
        (b << 1) ^ red
    } else {
        b << 1
    }
}

/// Russian-peasant product of `a` and the low `k` bits of `b` in GF(2^8)
/// modulo `red`.
pub open spec fn spec_gf_mul_rec(a: u8, b: u8, red: u8, k: nat) -> u8
    decreases k,
{
    if k == 0 {
        0
    } else {
        (if b & 1 == 1 {
            a
        } else {
            0
        }) ^ spec_gf_mul_rec(spec_xtime(a, red), b >> 1, red, (k - 1) as nat)
    }
}

/// The product of `a` and `b` in GF(2^8) modulo `red`.
pub open spec fn spec_gf_mul(a: u8, b: u8, red: u8) -> u8 {
    spec_gf_mul_rec(a, b, red, 8)
}

fn gf_mul_rec(a: u8, b: u8, red: u8, k: u32) -> (r: u8)
    ensures
        r == spec_gf_mul_rec(a, b, red, k as nat),
    decreases k,
{
    if k == 0 {
        0
    } else {
        (if b & 1 == 1 {
            a
        } else {
            0
        }) ^ gf_mul_rec(xtime(a, red), b >> 1, red, k - 1)
    }
}

fn gf_mul(a: u8, b: u8, red: u8) -> (r: u8)
    ensures
        r == spec_gf_mul(a, b, red),
{
    gf_mul_rec(a, b, red, 8)
}

/// The AES field's reduction byte (polynomial `x^8+x^4+x^3+x+1`).
pub open spec fn aes_red() -> u8 {
    0x1B
}

/// The SNOW field's reduction byte (polynomial `x^8+x^7+x^5+x^3+1`).
pub open spec fn snow_red() -> u8 {
    0xA9
}

/// `a^e` in the AES field.
pub open spec fn spec_gf_pow(a: u8, e: nat) -> u8
    decreases e,
{
    if e == 0 {
        1
    } else {
        spec_gf_mul(a, spec_gf_pow(a, (e - 1) as nat), aes_red())
    }
}

fn gf_pow(a: u8, e: u32) -> (r: u8)
    ensures
        r == spec_gf_pow(a, e as nat),
    decreases e,
{
    if e == 0 {
        1
    } else {
        gf_mul(a, gf_pow(a, e - 1), 0x1B)
    }
}

/// The AES S-box: multiplicative inverse (as `a^254`) followed by the
/// affine transformation.
pub open spec fn spec_sbox(b: u8) -> u8 {
    let inv = spec_gf_pow(b, 254);
    (inv ^ ((inv << 1) | (inv >> 7)) ^ ((inv << 2) | (inv >> 6)) ^ ((inv << 3) | (inv >> 5)) ^ ((
    inv << 4) | (inv >> 4)) ^ 0x63) as u8
}

fn sbox(b: u8) -> (r: u8)
    ensures
        r == spec_sbox(b),
{
    let inv = gf_pow(b, 254);
    inv ^ ((inv << 1) | (inv >> 7)) ^ ((inv << 2) | (inv >> 6)) ^ ((inv << 3) | (inv >> 5)) ^ ((
    inv << 4) | (inv >> 4)) ^ 0x63
}

/// `beta^k` in the SNOW field, where `beta` is the field generator `x`.
pub open spec fn spec_beta_pow(k: nat) -> u8
    decreases k,
{
    if k == 0 {
        1
    } else {
        spec_xtime(spec_beta_pow((k - 1) as nat), snow_red())
    }
}

fn beta_pow(k: u32) -> (r: u8)
    ensures
        r == spec_beta_pow(k as nat),
    decreases k,
{
    if k == 0 {
        1
    } else {
        xtime(beta_pow(k - 1), 0xA9)
    }
}

/// Byte `k` (little-endian) of a 32-bit word.
pub open spec fn spec_byte0(w: u32) -> u8 {
    (w & 0xFF) as u8
}

pub open spec fn spec_byte1(w: u32) -> u8 {
    ((w >> 8) & 0xFF) as u8
}

pub open spec fn spec_byte2(w: u32) -> u8 {
    ((w >> 16) & 0xFF) as u8
}

pub open spec fn spec_byte3(w: u32) -> u8 {
    ((w >> 24) & 0xFF) as u8
}

/// Packs four bytes into a word, byte 0 lowest.
pub open spec fn spec_pack(b0: u8, b1: u8, b2: u8, b3: u8) -> u32 {
    (b0 as u32) | ((b1 as u32) << 8) | ((b2 as u32) << 16) | ((b3 as u32) << 24)
}

/// Multiplication by `alpha` in GF(2^32): shift the coefficient bytes up
/// and fold the overflowing byte back through `alpha`'s minimal polynomial
/// `x^4 + beta^23 x^3 + beta^245 x^2 + beta^48 x + beta^239`.
pub open spec fn spec_mul_alpha(w: u32) -> u32 {
    let c3 = spec_byte3(w);
    (w << 8) ^ spec_pack(
        spec_gf_mul(c3, spec_beta_pow(239), snow_red()),
        spec_gf_mul(c3, spec_beta_pow(48), snow_red()),
        spec_gf_mul(c3, spec_beta_pow(245), snow_red()),
        spec_gf_mul(c3, spec_beta_pow(23), snow_red()),
    )
}

/// Division by `alpha` in GF(2^32): shift the coefficient bytes down and
/// fold the dropped byte back through `alpha^-1`'s expansion
/// `beta^16 x^3 + beta^39 x^2 + beta^6 x + beta^64`.
pub open spec fn spec_div_alpha(w: u32) -> u32 {
    let c0 = spec_byte0(w);
    (w >> 8) ^ spec_pack(
        spec_gf_mul(c0, spec_beta_pow(64), snow_red()),
        spec_gf_mul(c0, spec_beta_pow(6), snow_red()),
        spec_gf_mul(c0, spec_beta_pow(39), snow_red()),
        spec_gf_mul(c0, spec_beta_pow(16), snow_red()),
    )
}

fn byte0(w: u32) -> (r: u8)
    ensures
        r == spec_byte0(w),
{
    #[verifier::truncate]
    let r = (w & 0xFF) as u8;
    r
}

fn byte3(w: u32) -> (r: u8)
    ensures
        r == spec_byte3(w),
{
    #[verifier::truncate]
    let r = ((w >> 24) & 0xFF) as u8;
    r
}

fn pack(b0: u8, b1: u8, b2: u8, b3: u8) -> (r: u32)
    ensures
        r == spec_pack(b0, b1, b2, b3),
{
    (b0 as u32) | ((b1 as u32) << 8) | ((b2 as u32) << 16) | ((b3 as u32) << 24)
}

fn mul_alpha(w: u32) -> (r: u32)
    ensures
        r == spec_mul_alpha(w),
{
    let c3 = byte3(w);
    (w << 8) ^ pack(
        gf_mul(c3, beta_pow(239), 0xA9),
        gf_mul(c3, beta_pow(48), 0xA9),
        gf_mul(c3, beta_pow(245), 0xA9),
        gf_mul(c3, beta_pow(23), 0xA9),
    )
}

fn div_alpha(w: u32) -> (r: u32)
    ensures
        r == spec_div_alpha(w),
{
    let c0 = byte0(w);
    (w >> 8) ^ pack(
        gf_mul(c0, beta_pow(64), 0xA9),
        gf_mul(c0, beta_pow(6), 0xA9),
        gf_mul(c0, beta_pow(39), 0xA9),
        gf_mul(c0, beta_pow(16), 0xA9),
    )
}

/// The FSM's 32-bit substitution: AES S-box on each byte, then MixColumn.
pub open spec fn spec_snow_s(w: u32) -> u32 {
    let s0 = spec_sbox(spec_byte0(w));
    let s1 = spec_sbox(spec_byte1(w));
    let s2 = spec_sbox(spec_byte2(w));
    let s3 = spec_sbox(spec_byte3(w));
    let g2_0 = spec_xtime(s0, aes_red());
    let g2_1 = spec_xtime(s1, aes_red());
    let g2_2 = spec_xtime(s2, aes_red());
    let g2_3 = spec_xtime(s3, aes_red());
    spec_pack(
        (g2_0 ^ (g2_1 ^ s1) ^ s2 ^ s3) as u8,
        (s0 ^ g2_1 ^ (g2_2 ^ s2) ^ s3) as u8,
        (s0 ^ s1 ^ g2_2 ^ (g2_3 ^ s3)) as u8,
        ((g2_0 ^ s0) ^ s1 ^ s2 ^ g2_3) as u8,
    )
}

fn snow_s(w: u32) -> (r: u32)
    ensures
        r == spec_snow_s(w),
{
    #[verifier::truncate]
    let b1 = ((w >> 8) & 0xFF) as u8;
    #[verifier::truncate]
    let b2 = ((w >> 16) & 0xFF) as u8;
    let s0 = sbox(byte0(w));
    let s1 = sbox(b1);
    let s2 = sbox(b2);
    let s3 = sbox(byte3(w));
    let g2_0 = xtime(s0, 0x1B);
    let g2_1 = xtime(s1, 0x1B);
    let g2_2 = xtime(s2, 0x1B);
    let g2_3 = xtime(s3, 0x1B);
    pack(
        g2_0 ^ (g2_1 ^ s1) ^ s2 ^ s3,
        s0 ^ g2_1 ^ (g2_2 ^ s2) ^ s3,
        s0 ^ s1 ^ g2_2 ^ (g2_3 ^ s3),
        (g2_0 ^ s0) ^ s1 ^ s2 ^ g2_3,
    )
}

/// The whole engine state: the 16 LFSR words and the two FSM registers.
pub struct SnowState {
    pub lfsr: Seq<u32>,
    pub r1: u32,
    pub r2: u32,
}

/// The FSM output for a state: `(s15 + R1) ^ R2` with wrapping addition.
pub open spec fn spec_fsm_out(st: SnowState) -> u32 {
    u32_specs::wrapping_add(st.lfsr[15], st.r1) ^ st.r2
}

/// One clock: shift the LFSR with its feedback (folding in the FSM output
/// during initialization), and step the FSM.
pub open spec fn spec_step(st: SnowState, init: bool) -> SnowState {
    let f = spec_fsm_out(st);
    let v0 = spec_mul_alpha(st.lfsr[0]) ^ st.lfsr[2] ^ spec_div_alpha(st.lfsr[11]);
    let v = if init {
        v0 ^ f
    } else {
        v0
    };
    SnowState {
        lfsr: st.lfsr.skip(1).push(v),
        r1: u32_specs::wrapping_add(st.r2, st.lfsr[5]),
        r2: spec_snow_s(st.r1),
    }
}

/// A little-endian 32-bit word read at `off` in a byte sequence.
pub open spec fn spec_le_word(bytes: Seq<u8>, off: int) -> u32 {
    (bytes[off] + bytes[off + 1] * 0x100 + bytes[off + 2] * 0x10000 + bytes[off + 3]
        * 0x1000000) as u32
}

/// The state right after filling the LFSR from the 128-byte key, before
/// the initialization clocks: word `i` is the `i`-th key word xored with
/// the complement of the `(16+i)`-th.
pub open spec fn spec_key_fill(key: Seq<u8>) -> SnowState {
    SnowState {
        lfsr: Seq::new(16, |i: int| spec_le_word(key, 4 * i) ^ !spec_le_word(key, 64 + 4 * i)),
        r1: 0,
        r2: 0,
    }
}

/// `n` initialization clocks applied to a state.
pub open spec fn spec_init_rounds(st: SnowState, n: nat) -> SnowState
    decreases n,
{
    if n == 0 {
        st
    } else {
        spec_step(spec_init_rounds(st, (n - 1) as nat), true)
    }
}

/// The working state derived from a 128-byte key: key fill plus 32
/// initialization clocks.
pub open spec fn spec_init_state(key: Seq<u8>) -> SnowState {
    spec_init_rounds(spec_key_fill(key), 32)
}

/// The state before keystream word `n` is emitted.
pub open spec fn spec_state_at(key: Seq<u8>, n: nat) -> SnowState
    decreases n,
{
    if n == 0 {
        spec_init_state(key)
    } else {
        spec_step(spec_state_at(key, (n - 1) as nat), false)
    }
}

/// Keystream word `n` for a key: `(s15 + R1) ^ R2 ^ s0` at the `n`-th
/// state.  The cipher adapters' contracts are all stated over this
/// function.
pub open spec fn ks_word(key: Seq<u8>, n: nat) -> u32 {
    spec_fsm_out(spec_state_at(key, n)) ^ spec_state_at(key, n).lfsr[0]
}

/// The executable keystream engine.
pub struct KeystreamEngine {
    lfsr: Vec<u32>,
    r1: u32,
    r2: u32,
    key: Ghost<Seq<u8>>,
    words: Ghost<nat>,
}

impl KeystreamEngine {
    /// The key the engine was loaded from.
    pub closed spec fn key(self) -> Seq<u8> {
        self.key@
    }

    /// How many keystream words have been emitted so far.
    pub closed spec fn words(self) -> nat {
        self.words@
    }

    /// The engine's state is exactly the mathematical state for its key
    /// and position.
    pub closed spec fn wf(self) -> bool {
        &&& self.lfsr@.len() == 16
        &&& SnowState { lfsr: self.lfsr@, r1: self.r1, r2: self.r2 } == spec_state_at(
            self.key@,
            self.words@,
        )
    }

    /// Initializes the engine state from a 128-byte key.
    pub fn load_key(key: &Vec<u8>) -> (e: Self)
        requires
            key@.len() == 128,
        ensures
            e.wf(),
            e.key() == key@,
            e.words() == 0,
    {
        let mut lfsr: Vec<u32> = Vec::new();
        let mut i: usize = 0;
        while i < 16
            invariant
                key@.len() == 128,
                i <= 16,
                lfsr@.len() == i,
                forall|j: int| 0 <= j < i ==> lfsr@[j] == spec_key_fill(key@).lfsr[j],
            decreases 16 - i,
        {
            let a = le_word_at(key, 4 * i);
            let b = le_word_at(key, 64 + 4 * i);
            lfsr.push(a ^ !b);
            i = i + 1;
        }
        let mut r1: u32 = 0;
        let mut r2: u32 = 0;
        proof {
            assert(lfsr@ =~= spec_key_fill(key@).lfsr);
        }
        let mut n: usize = 0;
        while n < 32
            invariant
                n <= 32,
                lfsr@.len() == 16,
                (SnowState { lfsr: lfsr@, r1: r1, r2: r2 }) == spec_init_rounds(
                    spec_key_fill(key@),
                    n as nat,
                ),
            decreases 32 - n,
        {
            step_raw(&mut lfsr, &mut r1, &mut r2, true);
            n = n + 1;
        }
        KeystreamEngine { lfsr, r1, r2, key: Ghost(key@), words: Ghost(0) }
    }

    /// Emits the next 16 keystream words and advances the state.
    pub fn generate(&mut self) -> (ks: Vec<u32>)
        requires
            old(self).wf(),
        ensures
            final(self).wf(),
            final(self).key() == old(self).key(),
            final(self).words() == old(self).words() + 16,
            ks@.len() == 16,
            forall|j: int| 0 <= j < 16 ==> ks@[j] == ks_word(old(self).key(), (old(
            self).words() + j) as nat),
    {
        let ghost key = self.key@;
        let ghost base = self.words@;
        let mut ks: Vec<u32> = Vec::new();
        let mut j: usize = 0;
        while j < 16
            invariant
                j <= 16,
                self.key@ == key,
                self.words@ == base,
                self.lfsr@.len() == 16,
                (SnowState { lfsr: self.lfsr@, r1: self.r1, r2: self.r2 }) == spec_state_at(
                    key,
                    base + j as nat,
                ),
                ks@.len() == j,
                forall|t: int| 0 <= t < j ==> ks@[t] == ks_word(key, (base + t) as nat),
            decreases 16 - j,
        {
            let z = self.lfsr[15].wrapping_add(self.r1) ^ self.r2 ^ self.lfsr[0];
            proof {
                assert(z == ks_word(key, base + j as nat));
            }
            ks.push(z);
            step_raw(&mut self.lfsr, &mut self.r1, &mut self.r2, false);
            proof {
                assert(spec_state_at(key, base + j as nat + 1) == spec_step(
                    spec_state_at(key, base + j as nat),
                    false,
                ));
            }
            j = j + 1;
        }
        proof {
            self.words@ = base + 16;
        }
        ks
    }
}

/// A little-endian word read from a key vector.
fn le_word_at(bytes: &Vec<u8>, off: usize) -> (r: u32)
    requires
        off + 4 <= bytes@.len(),
    ensures
        r == spec_le_word(bytes@, off as int),
{
    proof {
        vstd::std_specs::vec::axiom_spec_len(bytes);
    }
    bytes[off] as u32 + bytes[off + 1] as u32 * 0x100 + bytes[off + 2] as u32 * 0x10000 + bytes[off
        + 3] as u32 * 0x1000000
}

/// One executable clock of the engine state.
fn step_raw(lfsr: &mut Vec<u32>, r1: &mut u32, r2: &mut u32, init: bool)
    requires
        old(lfsr)@.len() == 16,
    ensures
        final(lfsr)@.len() == 16,
        (SnowState { lfsr: final(lfsr)@, r1: *final(r1), r2: *final(r2) }) == spec_step(
            SnowState { lfsr: old(lfsr)@, r1: *old(r1), r2: *old(r2) },
            init,
        ),
{
    let f = lfsr[15].wrapping_add(*r1) ^ *r2;
    let v0 = mul_alpha(lfsr[0]) ^ lfsr[2] ^ div_alpha(lfsr[11]);
    let v = if init {
        v0 ^ f
    } else {
        v0
    };
    let new_r1 = (*r2).wrapping_add(lfsr[5]);
    let new_r2 = snow_s(*r1);
    lfsr.remove(0);
    lfsr.push(v);
    *r1 = new_r1;
    *r2 = new_r2;
    proof {
        assert(lfsr@ =~= old(lfsr)@.skip(1).push(v));
    }
}

} // verus!
