//! Key and offset derivation, and the word-granular cipher stream adapters.
//!
//! Every key and offset of the container is a pure function of the archive's
//! ASCII-lowercased base filename, optionally extended by a salt string, or
//! of an entry's name and stored key material.  The functions here state
//! those formulas exactly, over UTF-16 code-unit sequences.

use vstd::prelude::*;

verus! {

use vstd::arithmetic::div_mod::lemma_mod_mod;
use vstd::wrapping::u32_specs;
use crate::keystream::KeystreamEngine;
use crate::keystream::ks_word;
use crate::keystream::spec_le_word;
use crate::errors::CodecError;
use crate::text::ascii_lower_units;
use crate::text::lower_units;
use crate::text::units_sum;
use crate::text::units_sum_exec;
use crate::text::utf16_encode;
use crate::text::utf16_units;
use crate::text::lemma_units_sum_bounds;

/// Wrapping 16-bit addition.
pub open spec fn w16_add(a: u16, b: u16) -> u16 {
    ((a + b) % 0x10000) as u16
}

/// Wrapping 16-bit multiplication.
pub open spec fn w16_mul(a: u16, b: u16) -> u16 {
    ((a * b) % 0x10000) as u16
}

/// The low 8 bits of a 16-bit value.
pub open spec fn low8(a: u16) -> u8 {
    (a % 0x100) as u8
}

/// The code units the header and entries keys are derived from: the
/// lowercased base filename followed by the salt.
pub open spec fn key_input(name: Seq<char>, skey: Seq<char>) -> Seq<u16> {
    lower_units(utf16_encode(name)) + utf16_encode(skey)
}

/// The code units the offsets are derived from: the lowercased base
/// filename alone.
pub open spec fn base_units(name: Seq<char>) -> Seq<u16> {
    lower_units(utf16_encode(name))
}

/// Byte `i` of the header key: the low 8 bits of `W[i mod L] + i` in
/// wrapping 16-bit arithmetic.
pub open spec fn spec_header_key_byte(w: Seq<u16>, i: int) -> u8 {
    low8(w16_add(w[i % w.len() as int], i as u16))
}

/// Byte `i` of the entries key:
/// `(i + (i mod 3 + 2) * W[L - 1 - (i mod L)]) mod 256`.
pub open spec fn spec_entries_key_byte(w: Seq<u16>, i: int) -> u8 {
    ((i + (i % 3 + 2) * w[w.len() - 1 - (i % w.len() as int)]) % 0x100) as u8
}

/// The inner 8-bit factor of the per-entry file key:
/// `key2[i mod 16] - (i/5)*5 + 2 + i` in wrapping 8-bit arithmetic.
pub open spec fn spec_file_key_factor(key2: Seq<u8>, i: int) -> u8 {
    ((key2[i % 16] - (i / 5) * 5 + 2 + i) % 0x100) as u8
}

/// Byte `i` of the per-entry file key: the low 8 bits of
/// `N[i mod |N|] * factor + i` in wrapping 16-bit arithmetic, where `N` is
/// the entry name's UTF-16 encoding (not lowercased).
pub open spec fn spec_file_key_byte(n: Seq<u16>, key2: Seq<u8>, i: int) -> u8 {
    low8(w16_add(w16_mul(n[i % n.len() as int], spec_file_key_factor(key2, i) as u16), i as u16))
}

/// The absolute header offset: `(sum of W') mod 312 + 30`.
pub open spec fn spec_header_offset(w: Seq<u16>) -> int {
    units_sum(w) % 312 + 30
}

/// The entries-region offset relative to the header offset:
/// `(3 * sum of W') mod 212 + 42`.
pub open spec fn spec_entries_offset(w: Seq<u16>) -> int {
    (units_sum(w) * 3) % 212 + 42
}

/// The 128-byte header key derived from the base filename and a salt.
pub fn gen_header_key(name: &str, skey: &str) -> (r: Vec<u8>)
    requires
        name@.len() + skey@.len() > 0,
    ensures
        r@.len() == 128,
        forall|i: int| 0 <= i < 128 ==> r@[i] == spec_header_key_byte(key_input(name@, skey@), i),
{
    let mut w = utf16_units(name);
    ascii_lower_units(&mut w);
    let mut tail = utf16_units(skey);
    w.append(&mut tail);
    proof {
        crate::text::lemma_utf16_encode_len(name@);
        crate::text::lemma_utf16_encode_len(skey@);
        assert(w@ == key_input(name@, skey@));
        assert(w@.len() > 0);
    }
    let len = w.len();
    let mut r: Vec<u8> = Vec::new();
    let mut i: usize = 0;
    while i < 128
        invariant
            w@ == key_input(name@, skey@),
            len == w@.len(),
            len > 0,
            i <= 128,
            r@.len() == i,
            forall|j: int| 0 <= j < i ==> r@[j] == spec_header_key_byte(w@, j),
        decreases 128 - i,
    {
        let u = w[i % len];
        let b = ((u as u32 + i as u32) % 0x100) as u8;
        proof {
            lemma_mod_mod(u + i, 0x100, 0x100);
            assert(spec_header_key_byte(w@, i as int) == b);
        }
        r.push(b);
        i = i + 1;
    }
    r
}

/// The absolute header offset derived from the base filename.
pub fn gen_header_offset(name: &str) -> (r: usize)
    ensures
        r == spec_header_offset(base_units(name@)),
        30 <= r < 342,
{
    let mut w = utf16_units(name);
    ascii_lower_units(&mut w);
    let sum = units_sum_exec(&w);
    proof {
        lemma_units_sum_bounds(w@);
    }
    (sum % 312 + 30) as usize
}

/// The 128-byte entries key derived from the base filename and a salt.
pub fn gen_entries_key(name: &str, skey: &str) -> (r: Vec<u8>)
    requires
        name@.len() + skey@.len() > 0,
    ensures
        r@.len() == 128,
        forall|i: int|
            0 <= i < 128 ==> r@[i] == spec_entries_key_byte(key_input(name@, skey@), i),
{
    let mut w = utf16_units(name);
    ascii_lower_units(&mut w);
    let mut tail = utf16_units(skey);
    w.append(&mut tail);
    proof {
        crate::text::lemma_utf16_encode_len(name@);
        crate::text::lemma_utf16_encode_len(skey@);
        assert(w@ == key_input(name@, skey@));
        assert(w@.len() > 0);
    }
    let len = w.len();
    let mut r: Vec<u8> = Vec::new();
    let mut i: usize = 0;
    while i < 128
        invariant
            w@ == key_input(name@, skey@),
            len == w@.len(),
            len > 0,
            i <= 128,
            r@.len() == i,
            forall|j: int| 0 <= j < i ==> r@[j] == spec_entries_key_byte(w@, j),
        decreases 128 - i,
    {
        let u = w[len - 1 - i % len];
        let m: u32 = i as u32 % 3 + 2;
        proof {
            assert(m * (u as u32) <= 4 * 0xFFFF) by (nonlinear_arith)
                requires
                    m <= 4,
                    u as u32 <= 0xFFFF,
            ;
        }
        let b = ((i as u32 + m * u as u32) % 0x100) as u8;
        proof {
            assert(spec_entries_key_byte(w@, i as int) == b);
        }
        r.push(b);
        i = i + 1;
    }
    r
}

/// The entries-region offset (relative to the header offset) derived from
/// the base filename.
pub fn gen_entries_offset(name: &str) -> (r: usize)
    ensures
        r == spec_entries_offset(base_units(name@)),
        42 <= r < 254,
{
    let mut w = utf16_units(name);
    ascii_lower_units(&mut w);
    let n_units = w.len();
    let sum = units_sum_exec(&w);
    proof {
        lemma_units_sum_bounds(w@);
        assert(sum <= n_units * 0xFFFF);
        assert(n_units * 0xFFFF <= (usize::MAX as int) * 0xFFFF) by (nonlinear_arith)
            requires
                n_units <= usize::MAX as int,
        ;
        assert(sum * 3 <= u128::MAX) by (nonlinear_arith)
            requires
                0 <= sum <= (usize::MAX as int) * 0xFFFF,
        ;
    }
    let tripled = sum * 3;
    (tripled % 212 + 42) as usize
}

/// The 128-byte per-entry file key derived from the entry's name (not
/// lowercased) and its 16 bytes of stored key material.
pub fn gen_file_key(name: &str, key2: &Vec<u8>) -> (r: Vec<u8>)
    requires
        name@.len() > 0,
        key2@.len() == 16,
    ensures
        r@.len() == 128,
        forall|i: int|
            0 <= i < 128 ==> r@[i] == spec_file_key_byte(utf16_encode(name@), key2@, i),
{
    let w = utf16_units(name);
    proof {
        crate::text::lemma_utf16_encode_len(name@);
    }
    let len = w.len();
    let mut r: Vec<u8> = Vec::new();
    let mut i: usize = 0;
    while i < 128
        invariant
            w@ == utf16_encode(name@),
            key2@.len() == 16,
            len == w@.len(),
            len > 0,
            i <= 128,
            r@.len() == i,
            forall|j: int| 0 <= j < i ==> r@[j] == spec_file_key_byte(w@, key2@, j),
        decreases 128 - i,
    {
        let k2 = key2[i % 16];
        let sub5 = (i as u32 / 5) * 5;
        let factor = ((k2 as u32 + 0x100 - sub5 + 2 + i as u32) % 0x100) as u8;
        proof {
            assert((k2 + 0x100 - sub5 + 2 + i) % 0x100 == (k2 - sub5 + 2 + i) % 0x100) by {
                vstd::arithmetic::div_mod::lemma_mod_multiples_vanish(
                    1,
                    k2 - sub5 + 2 + i,
                    0x100,
                );
            }
            assert(factor == spec_file_key_factor(key2@, i as int));
        }
        let n = w[i % len];
        proof {
            assert((n as u32) * (factor as u32) <= 0xFFFF * 0xFF) by (nonlinear_arith)
                requires
                    n as u32 <= 0xFFFF,
                    factor as u32 <= 0xFF,
            ;
        }
        let prod = ((n as u32 * factor as u32) % 0x10000) as u16;
        let b = ((prod as u32 + i as u32) % 0x100) as u8;
        proof {
            assert(prod == w16_mul(w@[i as int % len as int], factor as u16));
            lemma_mod_mod(prod + i, 0x100, 0x100);
            assert(b == spec_file_key_byte(w@, key2@, i as int));
        }
        r.push(b);
        i = i + 1;
    }
    r
}

// ---------------------------------------------------------------------------
// The word-granular cipher stream model.
// ---------------------------------------------------------------------------

/// The four little-endian bytes of a 32-bit word.
pub open spec fn word_bytes(w: u32) -> Seq<u8> {
    seq![
        (w % 0x100) as u8,
        ((w / 0x100) % 0x100) as u8,
        ((w / 0x10000) % 0x100) as u8,
        ((w / 0x1000000) % 0x100) as u8,
    ]
}

/// A byte sequence zero-padded at the end to a multiple of four bytes.
pub open spec fn pad4(p: Seq<u8>) -> Seq<u8> {
    if p.len() % 4 == 0 {
        p
    } else {
        p + Seq::new((4 - p.len() % 4) as nat, |i: int| 0u8)
    }
}

/// Word `j` of the decryption of a cipher byte stream: the little-endian
/// word at offset `4j` minus keystream word `j`, wrapping.
pub open spec fn decrypted_word(key: Seq<u8>, src: Seq<u8>, j: int) -> u32 {
    u32_specs::wrapping_sub(spec_le_word(src, 4 * j), ks_word(key, j as nat))
}

/// The decryption of a cipher byte stream, covering its whole-word prefix.
#[verifier::opaque]
pub open spec fn decrypt_stream(key: Seq<u8>, src: Seq<u8>) -> Seq<u8> {
    Seq::new((4 * (src.len() as int / 4)) as nat, |i: int| word_bytes(decrypted_word(key, src, i / 4))[i % 4])
}

/// The length of a decrypted stream: the whole-word prefix of the source.
pub proof fn lemma_decrypt_len(key: Seq<u8>, src: Seq<u8>)
    ensures
        decrypt_stream(key, src).len() == 4 * (src.len() as int / 4),
{
    reveal(decrypt_stream);
}

/// A decrypted stream, byte by byte.
pub proof fn lemma_decrypt_at(key: Seq<u8>, src: Seq<u8>, i: int)
    requires
        0 <= i < 4 * (src.len() as int / 4),
    ensures
        decrypt_stream(key, src)[i] == word_bytes(decrypted_word(key, src, i / 4))[i % 4],
{
    reveal(decrypt_stream);
}

/// Word `j` of the encryption of a (4-byte-aligned) plain byte stream.
pub open spec fn encrypted_word(key: Seq<u8>, p: Seq<u8>, j: int) -> u32 {
    u32_specs::wrapping_add(spec_le_word(p, 4 * j), ks_word(key, j as nat))
}

/// The encryption of a 4-byte-aligned plain byte stream.
#[verifier::opaque]
pub open spec fn encrypt_stream(key: Seq<u8>, p: Seq<u8>) -> Seq<u8> {
    Seq::new((4 * (p.len() as int / 4)) as nat, |i: int| word_bytes(encrypted_word(key, p, i / 4))[i % 4])
}

/// The length of an encrypted stream: the whole-word prefix of the input.
pub proof fn lemma_encrypt_len(key: Seq<u8>, p: Seq<u8>)
    ensures
        encrypt_stream(key, p).len() == 4 * (p.len() as int / 4),
{
    reveal(encrypt_stream);
}

/// An encrypted stream, byte by byte.
pub proof fn lemma_encrypt_at(key: Seq<u8>, p: Seq<u8>, i: int)
    requires
        0 <= i < 4 * (p.len() as int / 4),
    ensures
        encrypt_stream(key, p)[i] == word_bytes(encrypted_word(key, p, i / 4))[i % 4],
{
    reveal(encrypt_stream);
}

/// Little-endian decomposition: reading back the four bytes of a word
/// recovers the word, and the four bytes of the word read at `off` are the
/// four source bytes.
pub proof fn lemma_word_bytes_le(b: Seq<u8>, off: int)
    requires
        0 <= off,
        off + 4 <= b.len(),
    ensures
        word_bytes(spec_le_word(b, off)) =~= b.subrange(off, off + 4),
{
    let w = b[off] + b[off + 1] * 0x100 + b[off + 2] * 0x10000 + b[off + 3] * 0x1000000;
    assert(0 <= w < 0x100000000);
    assert(spec_le_word(b, off) == w as u32);
    assert(w % 0x100 == b[off] && (w / 0x100) % 0x100 == b[off + 1] && (w / 0x10000) % 0x100 == b[
    off + 2] && (w / 0x1000000) % 0x100 == b[off + 3]) by (nonlinear_arith)
        requires
            w == b[off] + b[off + 1] * 0x100 + b[off + 2] * 0x10000 + b[off + 3] * 0x1000000,
            0 <= b[off] < 0x100,
            0 <= b[off + 1] < 0x100,
            0 <= b[off + 2] < 0x100,
            0 <= b[off + 3] < 0x100,
    ;
}

/// Reassembling the four little-endian bytes of a word gives the word back.
pub proof fn lemma_le_word_bytes(w: u32)
    ensures
        spec_le_word(word_bytes(w), 0) == w,
{
    assert(w % 0x100 + (w / 0x100) % 0x100 * 0x100 + (w / 0x10000) % 0x100 * 0x10000 + (w
        / 0x1000000) % 0x100 * 0x1000000 == w) by (nonlinear_arith)
        requires
            0 <= w < 0x100000000,
    ;
}

/// Adding and then subtracting the same keystream word is the identity.
pub proof fn lemma_wrapping_cancel(a: u32, k: u32)
    ensures
        u32_specs::wrapping_sub(u32_specs::wrapping_add(a, k), k) == a,
{
}

/// Cipher duality: decrypting an encryption of a 4-byte-aligned stream
/// under the same key gives the stream back.  Together with [`pad4`] this
/// is the exact statement for the byte-level adapters: an encoder's output
/// decodes to the plaintext zero-padded to a word boundary, so a caller
/// that knows the plain length recovers it exactly.
#[verifier::rlimit(100)]
pub proof fn lemma_cipher_duality(key: Seq<u8>, p: Seq<u8>)
    ensures
        decrypt_stream(key, encrypt_stream(key, pad4(p))) =~= pad4(p),
        pad4(p).subrange(0, p.len() as int) =~= p,
        p.len() <= pad4(p).len() <= p.len() + 3,
        pad4(p).len() % 4 == 0,
{
    reveal(decrypt_stream);
    reveal(encrypt_stream);
    let q = pad4(p);
    let e = encrypt_stream(key, q);
    assert(q.len() % 4 == 0);
    assert(e.len() == q.len());
    assert forall|i: int| 0 <= i < q.len() implies decrypt_stream(key, e)[i] == q[i] by {
        let j = i / 4;
        assert(0 <= j && 4 * j + 4 <= q.len()) by (nonlinear_arith)
            requires
                0 <= i < q.len(),
                j == i / 4,
                q.len() % 4 == 0,
        ;
        // the four cipher bytes at word j are exactly the bytes of the
        // encrypted word
        assert forall|k: int| 0 <= k < 4 implies e[4 * j + k] == word_bytes(
            encrypted_word(key, q, j),
        )[k] by {
            assert((4 * j + k) / 4 == j && (4 * j + k) % 4 == k) by (nonlinear_arith)
                requires
                    0 <= k < 4,
            ;
        }
        assert(e.subrange(4 * j, 4 * j + 4) =~= word_bytes(encrypted_word(key, q, j)));
        lemma_word_bytes_le(e, 4 * j);
        assert(word_bytes(spec_le_word(e, 4 * j)) =~= e.subrange(4 * j, 4 * j + 4));
        // hence the little-endian word read back from the cipher stream is
        // the encrypted word
        lemma_le_word_bytes(encrypted_word(key, q, j));
        assert(spec_le_word(e, 4 * j) == encrypted_word(key, q, j)) by {
            assert(spec_le_word(word_bytes(encrypted_word(key, q, j)), 0) == encrypted_word(
                key,
                q,
                j,
            ));
            assert(e.subrange(4 * j, 4 * j + 4)[0] == e[4 * j]);
            assert(spec_le_word(e, 4 * j) == spec_le_word(e.subrange(4 * j, 4 * j + 4), 0));
        }
        lemma_wrapping_cancel(spec_le_word(q, 4 * j), ks_word(key, j as nat));
        assert(decrypted_word(key, e, j) == spec_le_word(q, 4 * j));
        lemma_word_bytes_le(q, 4 * j);
        assert(i == 4 * j + i % 4 && 0 <= i % 4 < 4) by (nonlinear_arith)
            requires
                0 <= i,
                j == i / 4,
        ;
        assert(decrypt_stream(key, e)[i] == word_bytes(decrypted_word(key, e, j))[i % 4]);
        assert(word_bytes(spec_le_word(q, 4 * j))[i % 4] == q.subrange(4 * j, 4 * j + 4)[i % 4]);
        assert(q.subrange(4 * j, 4 * j + 4)[i % 4] == q[i]);
    }
}

/// A 4-byte-aligned prefix consumed from a region never exceeds the
/// region's whole-word prefix.
proof fn lemma_aligned_floor(c: int, len: int)
    requires
        0 <= c <= len,
        c % 4 == 0,
    ensures
        c <= 4 * (len / 4),
        4 * (len / 4) - c == 4 * ((len - c) / 4),
    decreases c,
{
    if c >= 4 {
        lemma_aligned_floor(c - 4, len - 4);
        assert((len - 4) / 4 == len / 4 - 1) by (nonlinear_arith)
            requires
                len >= 4,
        ;
        assert(((len - 4) - (c - 4)) / 4 == (len - c) / 4);
    }
}

/// Appending the bytes of the next decrypted word extends a plaintext
/// window by one word.
proof fn lemma_scratch_extend(key: Seq<u8>, region: Seq<u8>, lo: int, jabs: int, pre: Seq<u8>, pw: u32)
    requires
        pw == decrypted_word(key, region, jabs),
        0 <= lo <= 4 * jabs,
        4 * jabs + 4 <= decrypt_stream(key, region).len(),
        pre == decrypt_stream(key, region).subrange(lo, 4 * jabs),
    ensures
        pre + word_bytes(pw) == decrypt_stream(key, region).subrange(lo, 4 * jabs + 4),
{
    let plain = decrypt_stream(key, region);
    lemma_decrypt_len(key, region);
    assert forall|i: int| 4 * jabs <= i < 4 * jabs + 4 implies plain[i] == word_bytes(pw)[i - 4
        * jabs] by {
        lemma_decrypt_at(key, region, i);
        assert(i / 4 == jabs && i % 4 == i - 4 * jabs) by (nonlinear_arith)
            requires
                4 * jabs <= i < 4 * jabs + 4,
                jabs >= 0,
        ;
    }
    assert(pre + word_bytes(pw) =~= plain.subrange(lo, 4 * jabs + 4));
}

/// Whether `rem` more bytes can be covered by whole words from `avail`
/// source bytes.
proof fn lemma_need_vs_floor(rem: int, avail: int)
    requires
        rem >= 0,
        avail >= 0,
    ensures
        (4 * ((rem + 3) / 4) <= avail) <==> (rem <= 4 * (avail / 4)),
{
    assert((4 * ((rem + 3) / 4) <= avail) <==> (rem <= 4 * (avail / 4))) by (nonlinear_arith)
        requires
            rem >= 0,
            avail >= 0,
    ;
}

// ---------------------------------------------------------------------------
// The decrypting stream adapter.
// ---------------------------------------------------------------------------

/// A seek request for the decoder, mirroring the byte-stream convention:
/// absolute from the start of the cipher stream, relative to the current
/// position, or relative to the end (which a stream cipher cannot serve).
#[derive(Clone, Copy, Debug)]
pub enum SeekFrom {
    Start(u64),
    Current(i64),
    End(i64),
}

/// A byte-oriented decrypting reader over an in-memory byte source.
///
/// The cipher stream covers `src[origin..]`; the adapter subtracts one
/// keystream word from each little-endian 32-bit word and hands out bytes,
/// retaining up to three decrypted bytes between sub-word reads.
pub struct Snow2Decoder<'a> {
    src: &'a [u8],
    origin: usize,
    src_pos: usize,
    engine: KeystreamEngine,
    ks: Vec<u32>,
    cur_index: usize,
    left: Vec<u8>,
    stream_pos: usize,
    key_bytes: Vec<u8>,
}

impl<'a> Snow2Decoder<'a> {
    /// The 128-byte cipher key.
    pub closed spec fn key(self) -> Seq<u8> {
        self.key_bytes@
    }

    /// The whole underlying byte source.
    pub closed spec fn src_data(self) -> Seq<u8> {
        self.src@
    }

    /// Where in the source the cipher stream begins.
    pub closed spec fn origin_at(self) -> int {
        self.origin as int
    }

    /// The bytes the cipher stream covers.
    pub open spec fn cipher_region(self) -> Seq<u8> {
        self.src_data().skip(self.origin_at())
    }

    /// The decrypted byte stream this adapter produces.
    pub open spec fn plaintext(self) -> Seq<u8> {
        decrypt_stream(self.key(), self.cipher_region())
    }

    /// How many decrypted bytes have been produced so far.
    pub closed spec fn pos(self) -> nat {
        self.stream_pos as nat
    }

    /// How many decrypted bytes sit in the sub-word leftover buffer.
    pub closed spec fn left_len(self) -> nat {
        self.left@.len()
    }

    /// Whether `n` more bytes of plaintext exist from the current position.
    pub open spec fn can_serve(self, n: int) -> bool {
        self.pos() + n <= self.plaintext().len()
    }

    pub closed spec fn wf(self) -> bool {
        &&& self.key_bytes@.len() == 128
        &&& self.engine.wf()
        &&& self.engine.key() == self.key_bytes@
        &&& self.origin <= self.src_pos <= self.src@.len()
        &&& (self.src_pos - self.origin) % 4 == 0
        &&& self.cur_index < 16
        &&& self.engine.words() == (self.src_pos - self.origin) / 4 + 16 - self.cur_index
        &&& self.engine.words() >= 16
        &&& self.ks@.len() == 16
        &&& (forall|j: int|
            0 <= j < 16 ==> self.ks@[j] == ks_word(
                self.key_bytes@,
                (self.engine.words() - 16 + j) as nat,
            ))
        &&& self.left@.len() <= 3
        &&& self.stream_pos + self.left@.len() == self.src_pos - self.origin
        &&& self.left@ == self.plaintext().subrange(
            self.pos() as int,
            self.pos() as int + self.left@.len() as int,
        )
    }

    /// Creates a decoder whose cipher stream starts at `start` in `src`.
    pub fn new(key: &Vec<u8>, src: &'a [u8], start: usize) -> (r: Self)
        requires
            key@.len() == 128,
            start <= src@.len(),
        ensures
            r.wf(),
            r.key() == key@,
            r.src_data() == src@,
            r.origin_at() == start,
            r.pos() == 0,
            r.left_len() == 0,
    {
        let mut engine = KeystreamEngine::load_key(key);
        let ks = engine.generate();
        let r = Snow2Decoder {
            src,
            origin: start,
            src_pos: start,
            engine,
            ks,
            cur_index: 0,
            left: Vec::new(),
            stream_pos: 0,
            key_bytes: key.clone(),
        };
        proof {
            assert(r.left@ =~= r.plaintext().subrange(0, 0));
        }
        r
    }

    /// The number of decrypted bytes produced so far.
    pub fn stream_position(&self) -> (r: u64)
        ensures
            r as int == self.pos(),
    {
        self.stream_pos as u64
    }

    /// The absolute position in the underlying source up to which raw
    /// bytes have been consumed: the origin plus the consumed whole words.
    pub fn source_position(&self) -> (r: usize)
        requires
            self.wf(),
        ensures
            r == self.origin_at() + self.pos() + self.left_len(),
            (r - self.origin_at()) % 4 == 0,
            r == self.origin_at() + 4 * ((self.pos() + 3) / 4),
            r <= self.src_data().len(),
    {
        proof {
            assert(self.stream_pos + self.left@.len() == 4 * ((self.stream_pos + 3) / 4))
                by (nonlinear_arith)
                requires
                    (self.stream_pos + self.left@.len()) % 4 == 0,
                    0 <= self.left@.len() <= 3,
            ;
        }
        self.src_pos
    }

    /// Reads up to `n` decrypted bytes.
    ///
    /// When `n` bytes of plaintext remain they are all returned.  When the
    /// source falls short, any bytes still in the sub-word leftover buffer
    /// are returned instead, and only if there are none the read fails.
    #[verifier::rlimit(100)]
    pub fn read(&mut self, n: usize) -> (r: Result<Vec<u8>, CodecError>)
        requires
            old(self).wf(),
            old(self).pos() + n + 4 <= usize::MAX,
        ensures
            final(self).wf(),
            final(self).key() == old(self).key(),
            final(self).src_data() == old(self).src_data(),
            final(self).origin_at() == old(self).origin_at(),
            r is Err ==> {
                &&& !old(self).can_serve(n as int)
                &&& old(self).left_len() == 0
                &&& r->Err_0 == CodecError::IoShort
                &&& final(self).pos() == old(self).pos()
                &&& final(self).left_len() == 0
            },
            r is Ok ==> ({
                let served = if old(self).can_serve(n as int) {
                    n as int
                } else {
                    old(self).left_len() as int
                };
                &&& r->Ok_0@ == old(self).plaintext().subrange(
                    old(self).pos() as int,
                    old(self).pos() + served,
                )
                &&& final(self).pos() == old(self).pos() + served
            }),
            old(self).can_serve(n as int) || old(self).left_len() > 0 ==> r is Ok,
            !old(self).can_serve(n as int) && old(self).left_len() == 0 ==> r is Err,
    {
        let ghost plain = self.plaintext();
        let ghost pos0 = self.stream_pos as int;
        let ghost key = self.key_bytes@;
        let ghost region = self.cipher_region();

        proof {
            lemma_decrypt_len(key, region);
            lemma_aligned_floor(
                self.src_pos - self.origin,
                self.src@.len() - self.origin,
            );
        }

        let mut out: Vec<u8> = Vec::new();
        // 1. drain the leftover buffer
        let d = if n < self.left.len() {
            n
        } else {
            self.left.len()
        };
        let mut t: usize = 0;
        while t < d
            invariant
                d <= self.left@.len(),
                t <= d,
                out@ == self.left@.take(t as int),
            decreases d - t,
        {
            out.push(self.left[t]);
            proof {
                assert(out@ =~= self.left@.take(t + 1));
            }
            t = t + 1;
        }
        let mut kept: Vec<u8> = Vec::new();
        let mut u = d;
        while u < self.left.len()
            invariant
                d <= u <= self.left@.len(),
                kept@ == self.left@.subrange(d as int, u as int),
            decreases self.left@.len() - u,
        {
            kept.push(self.left[u]);
            proof {
                assert(kept@ =~= self.left@.subrange(d as int, u + 1));
            }
            u = u + 1;
        }
        proof {
            assert(kept@ =~= self.left@.subrange(d as int, self.left@.len() as int));
        }
        let ghost left0 = self.left@;
        self.left = kept;
        self.stream_pos = self.stream_pos + d;
        proof {
            assert(out@ =~= plain.subrange(pos0, pos0 + d));
            assert(self.left@ =~= plain.subrange(
                self.stream_pos as int,
                self.stream_pos + self.left@.len(),
            ));
        }

        if d == n {
            proof {
                assert(old(self).can_serve(n as int));
            }
            return Ok(out);
        }
        // here the leftover is fully drained and more bytes are needed
        let rem = n - d;
        let words = (rem + 3) / 4;
        let need = 4 * words;
        proof {
            assert(4 * ((rem + 3) / 4) <= rem + 3) by (nonlinear_arith)
                requires
                    rem >= 1,
            ;
        }
        let avail = self.src.len() - self.src_pos;
        proof {
            lemma_need_vs_floor(rem as int, avail as int);
            lemma_aligned_floor(
                self.src_pos - self.origin,
                self.src@.len() - self.origin,
            );
            // relate availability to can_serve
            assert(plain.len() == 4 * (region.len() / 4));
            assert(region.len() == self.src@.len() - self.origin);
            assert(self.stream_pos == self.src_pos - self.origin);
            assert((rem <= 4 * (avail as int / 4)) <==> old(self).can_serve(n as int));
        }
        if avail < need {
            if d > 0 {
                return Ok(out);
            } else {
                return Err(CodecError::IoShort);
            }
        }
        // 2. decrypt exactly the words that cover the remainder
        let ghost srcp0 = self.src_pos as int;
        proof {
            lemma_aligned_floor(
                srcp0 + 4 * words - self.origin,
                self.src@.len() - self.origin,
            );
            assert(pos0 + d + 4 * words <= plain.len());
        }
        let mut scratch: Vec<u8> = Vec::new();
        let mut k: usize = 0;
        while k < words
            invariant
                k <= words,
                pos0 + d + 4 * words <= plain.len(),
                self.key_bytes@ == key,
                self.key_bytes@.len() == 128,
                self.src@ == old(self).src_data(),
                self.origin == old(self).origin_at(),
                region == self.cipher_region(),
                plain == self.plaintext(),
                self.engine.wf(),
                self.engine.key() == key,
                self.src_pos == srcp0 + 4 * k,
                srcp0 + 4 * words <= self.src@.len(),
                self.origin <= self.src_pos,
                (self.src_pos - self.origin) % 4 == 0,
                self.cur_index < 16,
                self.engine.words() == (self.src_pos - self.origin) / 4 + 16 - self.cur_index,
                self.engine.words() >= 16,
                self.ks@.len() == 16,
                forall|j: int|
                    0 <= j < 16 ==> self.ks@[j] == ks_word(
                        key,
                        (self.engine.words() - 16 + j) as nat,
                    ),
                self.stream_pos == pos0 + d,
                self.left@.len() == 0,
                self.stream_pos == srcp0 - self.origin,
                scratch@ == plain.subrange(pos0 + d, pos0 + d + 4 * k),
            decreases words - k,
        {
            let sp = self.src_pos;
            let b0 = self.src[sp];
            let b1 = self.src[sp + 1];
            let b2 = self.src[sp + 2];
            let b3 = self.src[sp + 3];
            let cw: u32 = b0 as u32 + b1 as u32 * 0x100 + b2 as u32 * 0x10000 + b3 as u32
                * 0x1000000;
            let ghost jabs = (sp - self.origin) / 4;
            proof {
                assert(region[4 * jabs] == self.src@[sp as int] && region[4 * jabs + 1]
                    == self.src@[sp + 1] && region[4 * jabs + 2] == self.src@[sp + 2] && region[4
                    * jabs + 3] == self.src@[sp + 3]) by {
                    assert(4 * jabs == sp - self.origin);
                }
                assert(cw == spec_le_word(region, 4 * jabs));
            }
            let pw = cw.wrapping_sub(self.ks[self.cur_index]);
            proof {
                assert(self.engine.words() - 16 + self.cur_index == jabs);
                assert(pw == decrypted_word(key, region, jabs));
            }
            let ghost scratch0 = scratch@;
            let o0 = (pw % 0x100) as u8;
            let o1 = ((pw / 0x100) % 0x100) as u8;
            let o2 = ((pw / 0x10000) % 0x100) as u8;
            let o3 = ((pw / 0x1000000) % 0x100) as u8;
            scratch.push(o0);
            scratch.push(o1);
            scratch.push(o2);
            scratch.push(o3);
            proof {
                assert(4 * jabs == pos0 + d + 4 * k);
                assert(scratch@ =~= scratch0 + word_bytes(pw));
                lemma_scratch_extend(key, region, pos0 + d, jabs, scratch0, pw);
                assert(scratch@ == plain.subrange(pos0 + d, pos0 + d + 4 * (k + 1)));
            }
            self.src_pos = sp + 4;
            self.cur_index = self.cur_index + 1;
            if self.cur_index == 16 {
                self.ks = self.engine.generate();
                self.cur_index = 0;
            }
            k = k + 1;
        }
        // 3. hand out the needed bytes, stash the tail of the last word
        let mut t2: usize = 0;
        while t2 < rem
            invariant
                rem <= scratch@.len(),
                t2 <= rem,
                out@ == plain.subrange(pos0, pos0 + d) + scratch@.take(t2 as int),
                scratch@ == plain.subrange(pos0 + d, pos0 + d + scratch@.len()),
            decreases rem - t2,
        {
            out.push(scratch[t2]);
            proof {
                assert(out@ =~= plain.subrange(pos0, pos0 + d) + scratch@.take(t2 + 1));
            }
            t2 = t2 + 1;
        }
        let mut nl: Vec<u8> = Vec::new();
        let mut t3 = rem;
        while t3 < scratch.len()
            invariant
                rem <= t3 <= scratch@.len(),
                nl@ == scratch@.subrange(rem as int, t3 as int),
            decreases scratch@.len() - t3,
        {
            nl.push(scratch[t3]);
            proof {
                assert(nl@ =~= scratch@.subrange(rem as int, t3 + 1));
            }
            t3 = t3 + 1;
        }
        proof {
            assert(nl@ =~= scratch@.subrange(rem as int, scratch@.len() as int));
        }
        self.left = nl;
        self.stream_pos = self.stream_pos + rem;
        proof {
            assert(out@ =~= plain.subrange(pos0, pos0 + n));
            assert(self.left@.len() == 4 * (words as int) - rem);
            assert(4 * ((rem + 3) / 4) - rem <= 3) by (nonlinear_arith)
                requires
                    rem >= 1,
            ;
            assert(self.left@ =~= plain.subrange(
                self.stream_pos as int,
                self.stream_pos + self.left@.len(),
            ));
        }
        Ok(out)
    }

    /// The total number of plaintext bytes this decoder can ever produce.
    pub fn plain_len(&self) -> (r: usize)
        requires
            self.wf(),
        ensures
            r == self.plaintext().len(),
    {
        proof {
            lemma_decrypt_len(self.key(), self.cipher_region());
        }
        let avail = self.src.len() - self.origin;
        4 * (avail / 4)
    }

    /// Reads exactly `n` decrypted bytes, or fails without reading fewer.
    pub fn read_exact(&mut self, n: usize) -> (r: Result<Vec<u8>, CodecError>)
        requires
            old(self).wf(),
            old(self).pos() + n + 4 <= usize::MAX,
        ensures
            final(self).wf(),
            final(self).key() == old(self).key(),
            final(self).src_data() == old(self).src_data(),
            final(self).origin_at() == old(self).origin_at(),
            r is Ok <==> old(self).can_serve(n as int),
            r is Ok ==> r->Ok_0@ == old(self).plaintext().subrange(
                old(self).pos() as int,
                old(self).pos() + n,
            ) && final(self).pos() == old(self).pos() + n,
            r is Err ==> r->Err_0 == CodecError::IoShort,
    {
        proof {
            lemma_decrypt_len(old(self).key(), old(self).cipher_region());
            lemma_aligned_floor(
                old(self).src_pos - old(self).origin,
                old(self).src@.len() - old(self).origin,
            );
            if !old(self).can_serve(n as int) {
                // the leftover buffer never reaches past the plaintext end
                assert(old(self).pos() + old(self).left_len() <= old(self).plaintext().len());
                assert(old(self).left_len() < n);
            }
        }
        match self.read(n) {
            Ok(v) => {
                if v.len() == n {
                    Ok(v)
                } else {
                    Err(CodecError::IoShort)
                }
            },
            Err(e) => Err(e),
        }
    }

    /// Where a seek request lands, measured in plaintext bytes; `None` for
    /// end-relative requests, which a stream cipher cannot serve.
    pub open spec fn seek_target(self, whence: SeekFrom) -> Option<int> {
        match whence {
            SeekFrom::Start(k) => Some(k as int),
            SeekFrom::Current(dd) => Some(
                if self.pos() + dd >= 0 {
                    self.pos() + dd
                } else {
                    0
                },
            ),
            SeekFrom::End(_) => None,
        }
    }

    /// Repositions the decoder.  A stream cipher has no keyed random
    /// access, so any move that is not a plain skip forward reloads the
    /// key, regenerates the first keystream block and discards bytes from
    /// the origin.  A backward-overshooting relative seek saturates at the
    /// stream start; a target beyond the plaintext fails and leaves the
    /// position where it was.
    pub fn seek(&mut self, whence: SeekFrom) -> (r: Result<u64, CodecError>)
        requires
            old(self).wf(),
            old(self).src_data().len() + 8 <= usize::MAX,
        ensures
            final(self).wf(),
            final(self).key() == old(self).key(),
            final(self).src_data() == old(self).src_data(),
            final(self).origin_at() == old(self).origin_at(),
            old(self).seek_target(whence) is None ==> r is Err && r->Err_0 == CodecError::IoSeek
                && final(self).pos() == old(self).pos(),
            old(self).seek_target(whence) is Some ==> {
                let t = old(self).seek_target(whence)->Some_0;
                if t <= old(self).plaintext().len() {
                    &&& r is Ok
                    &&& r->Ok_0 as int == t
                    &&& final(self).pos() == t
                } else {
                    &&& r is Err
                    &&& r->Err_0 == CodecError::IoShort
                    &&& final(self).pos() == old(self).pos()
                }
            },
    {
        let pl = self.plain_len();
        proof {
            assert(4 * ((self.src@.len() - self.origin) as int / 4) <= self.src@.len()
                - self.origin) by (nonlinear_arith)
                requires
                    self.src@.len() - self.origin >= 0,
            ;
            lemma_decrypt_len(self.key(), self.cipher_region());
            assert(self.plaintext().len() <= self.src_data().len());
        }
        match whence {
            SeekFrom::End(_) => Err(CodecError::IoSeek),
            SeekFrom::Start(k) => {
                if k > pl as u64 {
                    return Err(CodecError::IoShort);
                }
                self.reset();
                self.discard(k as usize)?;
                Ok(k)
            },
            SeekFrom::Current(dd) => {
                if dd >= 0 {
                    let want = self.stream_pos as u128 + dd as u128;
                    if want > pl as u128 {
                        return Err(CodecError::IoShort);
                    }
                    let step = dd as usize;
                    let target = self.stream_pos + step;
                    self.discard(step)?;
                    Ok(target as u64)
                } else {
                    let mag = (-(dd as i128)) as u128;
                    let target: usize = if (self.stream_pos as u128) > mag {
                        self.stream_pos - mag as usize
                    } else {
                        0
                    };
                    self.reset();
                    self.discard(target)?;
                    Ok(target as u64)
                }
            },
        }
    }

    /// A well-formed decoder's position, plus its leftover bytes, always
    /// lies within the plaintext.
    pub proof fn lemma_pos_bounds(self)
        requires
            self.wf(),
        ensures
            self.pos() + self.left_len() <= self.plaintext().len(),
            self.plaintext().len() <= self.src_data().len(),
    {
        lemma_decrypt_len(self.key(), self.cipher_region());
        lemma_aligned_floor(self.src_pos - self.origin, self.src@.len() - self.origin);
        assert(4 * ((self.src@.len() - self.origin) as int / 4) <= self.src@.len() - self.origin)
            by (nonlinear_arith)
            requires
                self.src@.len() - self.origin >= 0,
        ;
    }

    /// Rewinds to the origin with a fresh keystream.
    fn reset(&mut self)
        requires
            old(self).wf(),
        ensures
            final(self).wf(),
            final(self).key() == old(self).key(),
            final(self).src_data() == old(self).src_data(),
            final(self).origin_at() == old(self).origin_at(),
            final(self).pos() == 0,
    {
        let mut engine = KeystreamEngine::load_key(&self.key_bytes);
        let ks = engine.generate();
        self.engine = engine;
        self.ks = ks;
        self.cur_index = 0;
        self.left = Vec::new();
        self.stream_pos = 0;
        self.src_pos = self.origin;
        proof {
            assert(self.left@ =~= self.plaintext().subrange(0, 0));
        }
    }

    /// Discards `k` plaintext bytes by reading them into the void.
    fn discard(&mut self, k: usize) -> (r: Result<(), CodecError>)
        requires
            old(self).wf(),
            old(self).pos() + k + 8 <= usize::MAX,
        ensures
            final(self).wf(),
            final(self).key() == old(self).key(),
            final(self).src_data() == old(self).src_data(),
            final(self).origin_at() == old(self).origin_at(),
            r is Ok <==> old(self).can_serve(k as int),
            r is Ok ==> final(self).pos() == old(self).pos() + k,
            r is Err ==> r->Err_0 == CodecError::IoShort,
    {
        let mut remaining = k;
        while remaining > 0
            invariant
                self.wf(),
                self.key() == old(self).key(),
                self.src_data() == old(self).src_data(),
                self.origin_at() == old(self).origin_at(),
                remaining <= k,
                old(self).pos() + k + 8 <= usize::MAX,
                self.pos() == old(self).pos() + (k - remaining),
                old(self).plaintext() == self.plaintext(),
                old(self).can_serve(k as int) <==> self.can_serve(remaining as int),
            decreases remaining,
        {
            let chunk = if remaining < 1024 {
                remaining
            } else {
                1024
            };
            proof {
                self.lemma_pos_bounds();
            }
            let got = match self.read(chunk) {
                Ok(v) => v.len(),
                Err(_) => {
                    return Err(CodecError::IoShort);
                },
            };
            if got < chunk {
                return Err(CodecError::IoShort);
            }
            assert(got == chunk);
            remaining = remaining - chunk;
        }
        proof {
            lemma_decrypt_len(self.key(), self.cipher_region());
            lemma_aligned_floor(
                self.src_pos - self.origin,
                self.src@.len() - self.origin,
            );
            assert(self.pos() <= self.plaintext().len());
        }
        Ok(())
    }
}

// ---------------------------------------------------------------------------
// The encrypting stream adapter.
// ---------------------------------------------------------------------------

/// Two inputs that agree on their whole-word prefix encrypt identically.
proof fn lemma_encrypt_agree(key: Seq<u8>, p1: Seq<u8>, p2: Seq<u8>)
    requires
        p1.len() as int / 4 == p2.len() as int / 4,
        forall|i: int| 0 <= i < 4 * (p1.len() as int / 4) ==> p1[i] == p2[i],
    ensures
        encrypt_stream(key, p1) == encrypt_stream(key, p2),
{
    reveal(encrypt_stream);
    let f = 4 * (p1.len() as int / 4);
    assert forall|i: int| 0 <= i < f implies encrypt_stream(key, p1)[i] == encrypt_stream(
        key,
        p2,
    )[i] by {
        let j = i / 4;
        assert(0 <= j && 4 * j + 4 <= f) by (nonlinear_arith)
            requires
                0 <= i < f,
                j == i / 4,
                f % 4 == 0,
        ;
        assert(spec_le_word(p1, 4 * j) == spec_le_word(p2, 4 * j));
    }
    assert(encrypt_stream(key, p1) =~= encrypt_stream(key, p2));
}

/// Encrypting one more whole word appends the encrypted word's bytes.
proof fn lemma_encrypt_append_word(key: Seq<u8>, p: Seq<u8>)
    requires
        p.len() % 4 == 0,
        p.len() >= 4,
    ensures
        encrypt_stream(key, p) == encrypt_stream(key, p.take(p.len() - 4)) + word_bytes(
            encrypted_word(key, p, p.len() as int / 4 - 1),
        ),
{
    reveal(encrypt_stream);
    let n = p.len() as int;
    let q = p.take(n - 4);
    assert(q.len() % 4 == 0);
    assert(q.len() as int / 4 == n / 4 - 1) by (nonlinear_arith)
        requires
            n % 4 == 0,
            n >= 4,
            q.len() == n - 4,
    ;
    let lhs = encrypt_stream(key, p);
    let rhs = encrypt_stream(key, q) + word_bytes(encrypted_word(key, p, n / 4 - 1));
    assert(lhs.len() == n && rhs.len() == n);
    assert forall|i: int| 0 <= i < n implies lhs[i] == rhs[i] by {
        let j = i / 4;
        assert(0 <= j <= n / 4 - 1 && 4 * j + 4 <= n && i == 4 * j + i % 4 && 0 <= i % 4 < 4)
            by (nonlinear_arith)
            requires
                0 <= i < n,
                j == i / 4,
                n % 4 == 0,
        ;
        if i < n - 4 {
            assert(spec_le_word(q, 4 * j) == spec_le_word(p, 4 * j));
        } else {
            assert(j == n / 4 - 1);
            assert(rhs[i] == word_bytes(encrypted_word(key, p, j))[i - (n - 4)]);
            assert(i - (n - 4) == i % 4) by (nonlinear_arith)
                requires
                    n % 4 == 0,
                    n - 4 <= i < n,
            ;
        }
    }
    assert(lhs =~= rhs);
}

/// A byte-oriented encrypting writer that accumulates its ciphertext in
/// memory.
///
/// Writes are buffered until a whole 32-bit word is available; each word is
/// emitted as the little-endian word plus one keystream word.  Ending the
/// encoding zero-pads and flushes the final sub-word remainder.
pub struct Snow2Encoder {
    engine: KeystreamEngine,
    ks: Vec<u32>,
    cur_index: usize,
    out: Vec<u8>,
    left: Vec<u8>,
    written: Ghost<Seq<u8>>,
}

impl Snow2Encoder {
    /// The 128-byte cipher key.
    pub closed spec fn key(self) -> Seq<u8> {
        self.engine.key()
    }

    /// All plaintext bytes written so far.
    pub closed spec fn written(self) -> Seq<u8> {
        self.written@
    }

    pub closed spec fn wf(self) -> bool {
        &&& self.engine.wf()
        &&& self.key().len() == 128
        &&& self.cur_index < 16
        &&& self.engine.words() == self.written@.len() as int / 4 + 16 - self.cur_index
        &&& self.engine.words() >= 16
        &&& self.ks@.len() == 16
        &&& (forall|j: int|
            0 <= j < 16 ==> self.ks@[j] == ks_word(
                self.key(),
                (self.engine.words() - 16 + j) as nat,
            ))
        &&& self.left@.len() <= 3
        &&& self.left@ == self.written@.skip(4 * (self.written@.len() as int / 4))
        &&& self.out@ == encrypt_stream(self.key(), self.written@)
    }

    /// Creates an encoder for a 128-byte key.
    pub fn new(key: &Vec<u8>) -> (r: Self)
        requires
            key@.len() == 128,
        ensures
            r.wf(),
            r.key() == key@,
            r.written() == Seq::<u8>::empty(),
    {
        let mut engine = KeystreamEngine::load_key(key);
        let ks = engine.generate();
        let r = Snow2Encoder {
            engine,
            ks,
            cur_index: 0,
            out: Vec::new(),
            left: Vec::new(),
            written: Ghost(Seq::empty()),
        };
        proof {
            reveal(encrypt_stream);
            assert(r.left@ =~= r.written@.skip(0));
            assert(r.out@ =~= encrypt_stream(key@, Seq::<u8>::empty()));
        }
        r
    }

    /// Appends plaintext bytes to the cipher stream.
    pub fn write(&mut self, buf: &[u8])
        requires
            old(self).wf(),
        ensures
            final(self).wf(),
            final(self).key() == old(self).key(),
            final(self).written() == old(self).written() + buf@,
    {
        let ghost key = self.key();
        proof {
            let w0 = self.written@;
            let x0 = 4 * (w0.len() as int / 4);
            assert(w0.len() - x0 == w0.len() % 4 && x0 % 4 == 0 && x0 >= 0) by (nonlinear_arith)
                requires
                    x0 == 4 * (w0.len() as int / 4),
                    w0.len() >= 0,
            ;
            assert(self.left@.len() == w0.len() % 4);
            assert(w0.take(x0).len() as int / 4 == w0.len() as int / 4) by (nonlinear_arith)
                requires
                    x0 == 4 * (w0.len() as int / 4),
                    0 <= x0 <= w0.len(),
            ;
            lemma_encrypt_agree(key, w0.take(x0), w0);
            assert(self.out@ == encrypt_stream(key, w0.take(x0)));
            assert(buf@.take(0) =~= Seq::<u8>::empty());
            assert(self.written@ == old(self).written() + buf@.take(0));
        }
        let mut bp: usize = 0;
        // 1. top up a pending sub-word remainder
        if self.left.len() > 0 {
            while self.left.len() < 4 && bp < buf.len()
                invariant
                    self.engine.wf(),
                    self.key() == key,
                    key.len() == 128,
                    self.cur_index < 16,
                    self.engine.words() == (self.written@.len() - self.left@.len()) / 4 + 16
                        - self.cur_index,
                    self.engine.words() >= 16,
                    self.ks@.len() == 16,
                    forall|j: int|
                        0 <= j < 16 ==> self.ks@[j] == ks_word(
                            key,
                            (self.engine.words() - 16 + j) as nat,
                        ),
                    bp <= buf.len(),
                    1 <= self.left@.len() <= 4,
                    self.written@ == old(self).written() + buf@.take(bp as int),
                    self.left@.len() <= self.written@.len(),
                    self.left@ == self.written@.skip(self.written@.len() - self.left@.len()),
                    (self.written@.len() - self.left@.len()) % 4 == 0,
                    self.out@ == encrypt_stream(
                        key,
                        self.written@.take(self.written@.len() - self.left@.len()),
                    ),
                decreases buf.len() - bp,
            {
                let b = buf[bp];
                let ghost wprev = self.written@;
                let ghost x = self.written@.len() - self.left@.len();
                self.left.push(b);
                proof {
                    self.written@ = self.written@.push(b);
                    assert(self.written@ == old(self).written() + buf@.take(bp + 1)) by {
                        assert(old(self).written() + buf@.take(bp + 1) =~= (old(
                        self).written() + buf@.take(bp as int)).push(b));
                    }
                    assert(self.written@.len() - self.left@.len() == x);
                    assert(self.left@ =~= self.written@.skip(x));
                    assert(self.written@.take(x) =~= wprev.take(x));
                }
                bp = bp + 1;
            }
            if self.left.len() == 4 {
                let w: u32 = self.left[0] as u32 + self.left[1] as u32 * 0x100 + self.left[2]
                    as u32 * 0x10000 + self.left[3] as u32 * 0x1000000;
                proof {
                    let wr = self.written@;
                    let x = wr.len() - 4;
                    assert(wr.len() % 4 == 0) by (nonlinear_arith)
                        requires
                            (wr.len() - 4) % 4 == 0,
                            wr.len() >= 4,
                    ;
                    assert((wr.len() - 4) / 4 == wr.len() as int / 4 - 1) by (nonlinear_arith)
                        requires
                            wr.len() % 4 == 0,
                            wr.len() >= 4,
                    ;
                    assert(self.left@[0] == wr[x] && self.left@[1] == wr[x + 1] && self.left@[2]
                        == wr[x + 2] && self.left@[3] == wr[x + 3]);
                    assert(w == spec_le_word(wr, x));
                    assert(wr.take(x as int) == wr.take(wr.len() as int - 4));
                }
                self.emit_word(w);
                self.left = Vec::new();
                proof {
                    assert(self.left@ =~= self.written@.skip(self.written@.len() as int));
                }
            }
        }
        if self.left.len() == 0 {
            // 2. whole words straight from the input
            while 4 <= buf.len() - bp
                invariant
                    self.engine.wf(),
                    self.key() == key,
                    key.len() == 128,
                    self.cur_index < 16,
                    self.engine.words() == self.written@.len() as int / 4 + 16 - self.cur_index,
                    self.engine.words() >= 16,
                    self.ks@.len() == 16,
                    forall|j: int|
                        0 <= j < 16 ==> self.ks@[j] == ks_word(
                            key,
                            (self.engine.words() - 16 + j) as nat,
                        ),
                    bp <= buf.len(),
                    self.left@.len() == 0,
                    self.written@ == old(self).written() + buf@.take(bp as int),
                    self.written@.len() % 4 == 0,
                    self.out@ == encrypt_stream(key, self.written@),
                decreases buf.len() - bp,
            {
                let w: u32 = buf[bp] as u32 + buf[bp + 1] as u32 * 0x100 + buf[bp + 2] as u32
                    * 0x10000 + buf[bp + 3] as u32 * 0x1000000;
                proof {
                    let wr0 = self.written@;
                    self.written@ = self.written@ + buf@.subrange(bp as int, bp + 4);
                    assert(self.written@ == old(self).written() + buf@.take(bp + 4)) by {
                        assert(old(self).written() + buf@.take(bp + 4) =~= (old(
                        self).written() + buf@.take(bp as int)) + buf@.subrange(
                            bp as int,
                            bp + 4,
                        ));
                    }
                    let wr = self.written@;
                    assert(wr.len() == wr0.len() + 4);
                    assert(wr.len() % 4 == 0 && wr.len() as int / 4 == wr0.len() as int / 4 + 1)
                        by (nonlinear_arith)
                        requires
                            wr0.len() % 4 == 0,
                            wr.len() == wr0.len() + 4,
                    ;
                    assert(wr[wr0.len() as int] == buf@[bp as int] && wr[wr0.len() as int + 1]
                        == buf@[bp + 1] && wr[wr0.len() as int + 2] == buf@[bp + 2] && wr[wr0.len()
                        as int + 3] == buf@[bp + 3]);
                    assert(w == spec_le_word(wr, wr.len() - 4));
                    assert(wr.take(wr.len() as int - 4) =~= wr0);
                }
                self.emit_word(w);
                proof {
                    assert(self.left@ =~= self.written@.skip(self.written@.len() as int));
                }
                bp = bp + 4;
            }
            // 3. stash the remainder
            proof {
                assert(self.written@.take(self.written@.len() - self.left@.len())
                    =~= self.written@);
            }
            while bp < buf.len()
                invariant
                    self.engine.wf(),
                    self.key() == key,
                    key.len() == 128,
                    self.cur_index < 16,
                    self.engine.words() == (self.written@.len() - self.left@.len()) / 4 + 16
                        - self.cur_index,
                    self.engine.words() >= 16,
                    self.ks@.len() == 16,
                    forall|j: int|
                        0 <= j < 16 ==> self.ks@[j] == ks_word(
                            key,
                            (self.engine.words() - 16 + j) as nat,
                        ),
                    bp <= buf.len(),
                    buf@.len() - bp + self.left@.len() < 4,
                    self.written@ == old(self).written() + buf@.take(bp as int),
                    self.left@.len() <= self.written@.len(),
                    (self.written@.len() - self.left@.len()) % 4 == 0,
                    self.left@ == self.written@.skip(self.written@.len() - self.left@.len()),
                    self.out@ == encrypt_stream(
                        key,
                        self.written@.take(self.written@.len() - self.left@.len()),
                    ),
                decreases buf.len() - bp,
            {
                let b = buf[bp];
                let ghost wprev = self.written@;
                let ghost x = self.written@.len() - self.left@.len();
                self.left.push(b);
                proof {
                    self.written@ = self.written@.push(b);
                    assert(self.written@ == old(self).written() + buf@.take(bp + 1)) by {
                        assert(old(self).written() + buf@.take(bp + 1) =~= (old(
                        self).written() + buf@.take(bp as int)).push(b));
                    }
                    assert(self.written@.len() - self.left@.len() == x);
                    assert(self.left@ =~= self.written@.skip(x));
                    assert(self.written@.take(x) =~= wprev.take(x));
                }
                bp = bp + 1;
            }
        }
        proof {
            assert(buf@.take(buf@.len() as int) =~= buf@);
            assert(self.written@ == old(self).written() + buf@);
            let w = self.written@;
            let x = w.len() - self.left@.len();
            assert(x % 4 == 0 && self.left@.len() <= 3);
            assert(x == 4 * (w.len() as int / 4)) by (nonlinear_arith)
                requires
                    x == w.len() - self.left@.len(),
                    x % 4 == 0,
                    0 <= self.left@.len() <= 3,
                    x >= 0,
            ;
            if self.left@.len() == 0 {
                assert(w.take(x as int) =~= w);
            } else {
                lemma_encrypt_agree(key, w.take(x as int), w);
            }
        }
    }

    /// Encrypts one whole word whose plaintext bytes are already counted in
    /// `written` (as the last four bytes), and appends its ciphertext.
    fn emit_word(&mut self, w: u32)
        requires
            old(self).engine.wf(),
            old(self).engine.key().len() == 128,
            old(self).cur_index < 16,
            old(self).engine.words() == old(self).written@.len() as int / 4 - 1 + 16 - old(
                self
            ).cur_index,
            old(self).engine.words() >= 16,
            old(self).ks@.len() == 16,
            forall|j: int|
                0 <= j < 16 ==> old(self).ks@[j] == ks_word(
                    old(self).engine.key(),
                    (old(self).engine.words() - 16 + j) as nat,
                ),
            old(self).written@.len() % 4 == 0,
            old(self).written@.len() >= 4,
            w == spec_le_word(old(self).written@, old(self).written@.len() - 4),
            old(self).out@ == encrypt_stream(
                old(self).engine.key(),
                old(self).written@.take(old(self).written@.len() - 4),
            ),
        ensures
            final(self).engine.wf(),
            final(self).engine.key() == old(self).engine.key(),
            final(self).cur_index < 16,
            final(self).engine.words() == final(self).written@.len() as int / 4 + 16 - final(
                self
            ).cur_index,
            final(self).engine.words() >= 16,
            final(self).ks@.len() == 16,
            forall|j: int|
                0 <= j < 16 ==> final(self).ks@[j] == ks_word(
                    final(self).engine.key(),
                    (final(self).engine.words() - 16 + j) as nat,
                ),
            final(self).written@ == old(self).written@,
            final(self).left@ == old(self).left@,
            final(self).out@ == encrypt_stream(old(self).engine.key(), old(self).written@),
    {
        let ghost key = self.engine.key();
        let ghost wr = self.written@;
        let z = self.ks[self.cur_index];
        let c = w.wrapping_add(z);
        proof {
            assert(self.engine.words() - 16 + self.cur_index == wr.len() as int / 4 - 1);
            assert(4 * (wr.len() as int / 4 - 1) == wr.len() - 4) by (nonlinear_arith)
                requires
                    wr.len() % 4 == 0,
                    wr.len() >= 4,
            ;
            assert(c == encrypted_word(key, wr, wr.len() as int / 4 - 1));
        }
        let o0 = (c % 0x100) as u8;
        let o1 = ((c / 0x100) % 0x100) as u8;
        let o2 = ((c / 0x10000) % 0x100) as u8;
        let o3 = ((c / 0x1000000) % 0x100) as u8;
        let ghost out0 = self.out@;
        self.out.push(o0);
        self.out.push(o1);
        self.out.push(o2);
        self.out.push(o3);
        proof {
            assert(self.out@ =~= out0 + word_bytes(c));
            lemma_encrypt_append_word(key, wr);
            assert(wr.take(wr.len() - 4) == wr.take(wr.len() as int - 4));
            assert(self.out@ == encrypt_stream(key, wr));
        }
        self.cur_index = self.cur_index + 1;
        if self.cur_index == 16 {
            self.ks = self.engine.generate();
            self.cur_index = 0;
        }
    }

    /// Flushes the zero-padded final word, if any, and hands back the whole
    /// ciphertext: the encryption of the written stream padded to a word
    /// boundary.
    pub fn end_encoding(self) -> (r: Vec<u8>)
        requires
            self.wf(),
        ensures
            r@ == encrypt_stream(self.key(), pad4(self.written())),
            r@.len() == pad4(self.written()).len(),
    {
        let ghost key = self.key();
        let ghost wr0 = self.written@;
        let mut s = self;
        proof {
            lemma_encrypt_len(key, pad4(wr0));
        }
        if s.left.len() == 0 {
            proof {
                assert(wr0.len() % 4 == 0) by {
                    assert(s.left@.len() == 0);
                    assert(s.left@ == wr0.skip(4 * (wr0.len() as int / 4)));
                    assert(wr0.len() - 4 * (wr0.len() as int / 4) == wr0.len() % 4)
                        by (nonlinear_arith)
                    ;
                }
                assert(pad4(wr0) == wr0);
            }
            s.out
        } else {
            let mut padded: Vec<u8> = Vec::new();
            let mut t: usize = 0;
            while t < s.left.len()
                invariant
                    t <= s.left@.len(),
                    padded@ == s.left@.take(t as int),
                decreases s.left@.len() - t,
            {
                padded.push(s.left[t]);
                proof {
                    assert(padded@ =~= s.left@.take(t + 1));
                }
                t = t + 1;
            }
            while padded.len() < 4
                invariant
                    s.left@.len() <= padded@.len() <= 4,
                    padded@.take(s.left@.len() as int) == s.left@,
                    forall|j: int| s.left@.len() <= j < padded@.len() ==> padded@[j] == 0u8,
                decreases 4 - padded@.len(),
            {
                padded.push(0u8);
                proof {
                    assert(padded@.take(s.left@.len() as int) =~= s.left@);
                }
            }
            let w: u32 = padded[0] as u32 + padded[1] as u32 * 0x100 + padded[2] as u32 * 0x10000
                + padded[3] as u32 * 0x1000000;
            proof {
                let q = pad4(wr0);
                assert(q.len() == wr0.len() + (4 - wr0.len() % 4));
                assert(q.len() % 4 == 0 && q.len() >= 4) by (nonlinear_arith)
                    requires
                        q.len() == wr0.len() + (4 - wr0.len() % 4),
                        wr0.len() % 4 != 0,
                        wr0.len() >= 0,
                ;
                let x = wr0.len() - s.left@.len();
                assert(s.left@.len() == wr0.len() % 4) by (nonlinear_arith)
                    requires
                        x == 4 * (wr0.len() as int / 4),
                        x == wr0.len() - s.left@.len(),
                ;
                assert(q.len() == x + 4);
                // the final padded word's bytes inside pad4(written)
                assert forall|j: int| 0 <= j < 4 implies q[x + j] == padded@[j] by {
                    if j < s.left@.len() {
                        assert(q[x + j] == wr0[x + j]);
                        assert(s.left@[j] == wr0[x + j]);
                        assert(padded@[j] == padded@.take(s.left@.len() as int)[j]);
                    } else {
                        assert(q[x + j] == 0u8);
                    }
                }
                assert(w == spec_le_word(q, x)) by {
                    assert(q[x] == padded@[0] && q[x + 1] == padded@[1] && q[x + 2] == padded@[2]
                        && q[x + 3] == padded@[3]);
                }
                // written@ and pad4 agree on the first x bytes
                assert(wr0.take(x as int) =~= q.take(x as int));
                lemma_encrypt_agree(key, wr0, q.take(x as int));
                assert(wr0.len() as int / 4 == x / 4) by (nonlinear_arith)
                    requires
                        x == 4 * (wr0.len() as int / 4),
                ;
                assert(q.take(x as int).len() as int / 4 == x / 4) by (nonlinear_arith)
                    requires
                        x % 4 == 0,
                        x >= 0,
                        q.take(x as int).len() == x,
                ;
            }
            let mut s2 = s;
            proof {
                s2.written@ = pad4(wr0);
            }
            s2.emit_word(w);
            s2.out
        }
    }
}

/// Key derivation determinism: the derived keys and offsets are functions
/// of the code-unit input alone — two calls whose lowercased-name-plus-salt
/// sequences agree derive identical material, whatever else differs.
pub proof fn lemma_key_derivation_deterministic(
    n1: Seq<char>,
    s1: Seq<char>,
    n2: Seq<char>,
    s2: Seq<char>,
)
    requires
        key_input(n1, s1) == key_input(n2, s2),
    ensures
        forall|i: int|
            0 <= i < 128 ==> spec_header_key_byte(key_input(n1, s1), i) == spec_header_key_byte(
                key_input(n2, s2),
                i,
            ),
        forall|i: int|
            0 <= i < 128 ==> spec_entries_key_byte(key_input(n1, s1), i) == spec_entries_key_byte(
                key_input(n2, s2),
                i,
            ),
{
}

/// Sub-word reads compose: however a span of the decrypted stream is cut
/// into consecutive reads, the bytes concatenate to the one bulk read.
/// Together with the decoder's contract — every read returns an exact
/// subrange of the plaintext stream — this is the statement that many
/// short reads equal one long one.
pub proof fn lemma_subword_reads_compose(p: Seq<u8>, a: int, b: int, c: int)
    requires
        0 <= a <= b <= c <= p.len(),
    ensures
        p.subrange(a, b) + p.subrange(b, c) == p.subrange(a, c),
{
    assert(p.subrange(a, b) + p.subrange(b, c) =~= p.subrange(a, c));
}

} // verus!
