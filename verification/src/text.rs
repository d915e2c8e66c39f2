//! UTF-16 encoding and decoding, ASCII case folding on code units, and sums
//! of code units.
//!
//! All keys and offsets of the container are derived from UTF-16LE code-unit
//! sequences of the archive's base filename (ASCII-lowercased) and a salt,
//! and entry names are stored on disk as UTF-16 code units, so these
//! functions are the foundation of the whole codec.

use vstd::prelude::*;

verus! {

use vstd::utf8::char_u32_cast;
use vstd::utf8::char_is_scalar;
use vstd::utf8::is_scalar;

/// The UTF-16 code units of a single character: one unit for the basic
/// multilingual plane, a surrogate pair above it.
pub open spec fn utf16_of_char(c: char) -> Seq<u16> {
    if (c as u32) < 0x10000 {
        seq![(c as u32) as u16]
    } else {
        seq![
            (0xD800 + (((c as u32) - 0x10000) / 0x400)) as u16,
            (0xDC00 + (((c as u32) - 0x10000) % 0x400)) as u16,
        ]
    }
}

/// The UTF-16 code units of a character sequence.
pub open spec fn utf16_encode(s: Seq<char>) -> Seq<u16>
    decreases s.len(),
{
    if s.len() == 0 {
        Seq::empty()
    } else {
        utf16_encode(s.drop_last()) + utf16_of_char(s.last())
    }
}

/// Unfolds [`utf16_encode`] at the front instead of the back.
pub proof fn lemma_utf16_encode_head(s: Seq<char>)
    requires
        s.len() > 0,
    ensures
        utf16_encode(s) == utf16_of_char(s[0]) + utf16_encode(s.skip(1)),
    decreases s.len(),
{
    if s.len() == 1 {
        assert(s.drop_last() =~= Seq::<char>::empty());
        assert(s.skip(1) =~= Seq::<char>::empty());
        assert(utf16_encode(s) =~= utf16_of_char(s[0]) + utf16_encode(s.skip(1)));
    } else {
        lemma_utf16_encode_head(s.drop_last());
        assert(s.drop_last()[0] == s[0]);
        assert(s.drop_last().skip(1) =~= s.skip(1).drop_last());
        assert(s.skip(1).last() == s.last());
        assert(utf16_encode(s) =~= utf16_of_char(s[0]) + utf16_encode(s.skip(1)));
    }
}

/// ASCII case folding on one UTF-16 code unit: `A`..`Z` gain 32, everything
/// else is untouched.  Folding units commutes with encoding because the
/// affected units are plain ASCII and never part of a surrogate pair.
pub open spec fn lower_unit(u: u16) -> u16 {
    if 65 <= u <= 90 {
        (u + 32) as u16
    } else {
        u
    }
}

/// ASCII case folding over a whole unit sequence.
pub open spec fn lower_units(w: Seq<u16>) -> Seq<u16> {
    w.map_values(|u: u16| lower_unit(u))
}

/// The integer sum of a sequence of code units.
pub open spec fn units_sum(w: Seq<u16>) -> int
    decreases w.len(),
{
    if w.len() == 0 {
        0
    } else {
        units_sum(w.drop_last()) + w.last()
    }
}

pub proof fn lemma_units_sum_bounds(w: Seq<u16>)
    ensures
        0 <= units_sum(w) <= w.len() * 0xFFFF,
    decreases w.len(),
{
    if w.len() > 0 {
        lemma_units_sum_bounds(w.drop_last());
    }
}

/// Decodes UTF-16 code units back into characters; `None` on a lone or
/// misordered surrogate.
pub open spec fn utf16_decode(w: Seq<u16>) -> Option<Seq<char>>
    decreases w.len(),
{
    if w.len() == 0 {
        Some(Seq::empty())
    } else if 0xD800 <= w[0] < 0xDC00 {
        if w.len() >= 2 && 0xDC00 <= w[1] < 0xE000 {
            match utf16_decode(w.skip(2)) {
                Some(rest) => Some(
                    seq![
                        ((0x10000 + (w[0] - 0xD800) * 0x400 + (w[1] - 0xDC00)) as u32) as char,
                    ] + rest,
                ),
                None => None,
            }
        } else {
            None
        }
    } else if 0xDC00 <= w[0] < 0xE000 {
        None
    } else {
        match utf16_decode(w.skip(1)) {
            Some(rest) => Some(seq![(w[0] as u32) as char] + rest),
            None => None,
        }
    }
}

/// Decoding inverts encoding: every character sequence survives the
/// round trip through its UTF-16 code units.
pub proof fn lemma_utf16_decode_encode(s: Seq<char>)
    ensures
        utf16_decode(utf16_encode(s)) == Some(s),
    decreases s.len(),
{
    if s.len() == 0 {
        assert(utf16_encode(s) =~= Seq::<u16>::empty());
    } else {
        let c = s[0];
        let w = utf16_encode(s);
        lemma_utf16_encode_head(s);
        char_is_scalar(c);
        lemma_utf16_decode_encode(s.skip(1));
        if (c as u32) < 0x10000 {
            assert(w[0] == (c as u32) as u16);
            // a char is a scalar value, so a single-unit encoding is never
            // in the surrogate range
            assert(!(0xD800 <= w[0] < 0xE000));
            assert(w.skip(1) =~= utf16_encode(s.skip(1)));
            assert((w[0] as u32) == c as u32);
            char_u32_cast(c, c as u32);
            assert(utf16_decode(w) == Some(seq![c] + s.skip(1)));
            assert(seq![c] + s.skip(1) =~= s);
        } else {
            let v = (c as u32) - 0x10000;
            assert(w[0] == (0xD800 + v / 0x400) as u16);
            assert(w[1] == (0xDC00 + v % 0x400) as u16);
            assert(0 <= v < 0x100000);
            assert(0 <= v / 0x400 < 0x400);
            assert(0xD800 <= w[0] < 0xDC00);
            assert(0xDC00 <= w[1] < 0xE000);
            assert(w.skip(2) =~= utf16_encode(s.skip(1)));
            assert((w[0] - 0xD800) * 0x400 + (w[1] - 0xDC00) == v) by {
                assert(v / 0x400 * 0x400 + v % 0x400 == v) by (nonlinear_arith);
            }
            assert(0x10000 + (w[0] - 0xD800) * 0x400 + (w[1] - 0xDC00) == c as u32);
            char_u32_cast(c, c as u32);
            assert(utf16_decode(w) == Some(seq![c] + s.skip(1)));
            assert(seq![c] + s.skip(1) =~= s);
        }
    }
}

/// Encoding a character yields one or two units, so a nonempty string has a
/// nonempty encoding.
pub proof fn lemma_utf16_encode_len(s: Seq<char>)
    ensures
        s.len() <= utf16_encode(s).len() <= 2 * s.len(),
    decreases s.len(),
{
    if s.len() > 0 {
        lemma_utf16_encode_len(s.drop_last());
    }
}

/// Relies on std's `char::from_u32`: returns `Some` exactly on Unicode
/// scalar values, and the resulting character casts back to the argument.
#[verifier::external_body]
pub fn char_from_u32(v: u32) -> (r: Option<char>)
    ensures
        r is Some <==> is_scalar(v),
        r is Some ==> (r->0 as u32) == v && r->0 == (v as char),
{
    char::from_u32(v)
}

/// Relies on std's `String::push`: appends exactly one character.
#[verifier::external_body]
pub fn string_push(s: &mut String, c: char)
    ensures
        final(s)@ == old(s)@.push(c),
{
    s.push(c);
}

/// The UTF-16 code units of a string.
pub fn utf16_units(s: &str) -> (r: Vec<u16>)
    ensures
        r@ == utf16_encode(s@),
{
    let n = s.unicode_len();
    let mut r: Vec<u16> = Vec::new();
    let mut i: usize = 0;
    while i < n
        invariant
            n == s@.len(),
            i <= n,
            r@ == utf16_encode(s@.take(i as int)),
        decreases n - i,
    {
        let c = s.get_char(i);
        let v = c as u32;
        proof {
            char_is_scalar(c);
            assert(s@.take(i + 1).drop_last() =~= s@.take(i as int));
            assert(s@.take(i + 1).last() == s@[i as int]);
        }
        if v < 0x10000 {
            r.push(v as u16);
        } else {
            let off = v - 0x10000;
            r.push((0xD800 + off / 0x400) as u16);
            r.push((0xDC00 + off % 0x400) as u16);
        }
        assert(r@ =~= utf16_encode(s@.take(i + 1)));
        i = i + 1;
    }
    proof {
        assert(s@.take(n as int) =~= s@);
    }
    r
}

/// ASCII case folding in place over a unit vector.
pub fn ascii_lower_units(w: &mut Vec<u16>)
    ensures
        final(w)@ == lower_units(old(w)@),
{
    let n = w.len();
    let mut i: usize = 0;
    while i < n
        invariant
            n == w@.len(),
            i <= n,
            forall|j: int| 0 <= j < i ==> w@[j] == lower_unit(old(w)@[j]),
            forall|j: int| i <= j < n ==> w@[j] == old(w)@[j],
        decreases n - i,
    {
        let u = w[i];
        if 65 <= u && u <= 90 {
            w.set(i, u + 32);
        }
        i = i + 1;
    }
    assert(w@ =~= lower_units(old(w)@));
}

/// The sum of a vector of code units, wide enough never to overflow.
pub fn units_sum_exec(w: &Vec<u16>) -> (r: u128)
    ensures
        r == units_sum(w@),
{
    let n = w.len();
    let mut sum: u128 = 0;
    let mut i: usize = 0;
    while i < n
        invariant
            n == w@.len(),
            i <= n,
            sum == units_sum(w@.take(i as int)),
            sum <= i * 0xFFFF,
        decreases n - i,
    {
        proof {
            assert(w@.take(i + 1).drop_last() =~= w@.take(i as int));
            assert(w@.take(i + 1).last() == w@[i as int]);
        }
        sum = sum + w[i] as u128;
        i = i + 1;
    }
    proof {
        assert(w@.take(n as int) =~= w@);
    }
    sum
}

/// Rebuilds a string from UTF-16 code units; fails on malformed UTF-16.
pub fn utf16_to_string(w: &Vec<u16>) -> (r: Result<String, crate::errors::CodecError>)
    ensures
        r is Ok <==> utf16_decode(w@) is Some,
        r is Ok ==> r->Ok_0@ == utf16_decode(w@)->Some_0,
        r is Err ==> r->Err_0 == crate::errors::CodecError::Utf16Decode,
{
    let n = w.len();
    let mut out = String::new();
    let mut i: usize = 0;
    proof {
        assert(w@.skip(0) =~= w@);
    }
    while i < n
        invariant
            n == w@.len(),
            i <= n,
            utf16_decode(w@) is Some <==> utf16_decode(w@.skip(i as int)) is Some,
            utf16_decode(w@) is Some ==> utf16_decode(w@) == Some(
                out@ + utf16_decode(w@.skip(i as int))->Some_0,
            ),
        decreases n - i,
    {
        let ghost pre = w@.skip(i as int);
        let ghost out0 = out@;
        let u0 = w[i];
        assert(pre[0] == u0);
        if 0xD800 <= u0 && u0 < 0xDC00 {
            if i + 1 < n {
                let u1 = w[i + 1];
                assert(pre[1] == u1);
                if 0xDC00 <= u1 && u1 < 0xE000 {
                    let v: u32 = 0x10000 + (u0 as u32 - 0xD800) * 0x400 + (u1 as u32 - 0xDC00);
                    assert(is_scalar(v));
                    let c = char_from_u32(v).unwrap();
                    string_push(&mut out, c);
                    proof {
                        assert(pre.skip(2) =~= w@.skip(i + 2));
                        assert(utf16_decode(pre) is Some <==> utf16_decode(w@.skip(i + 2))
                            is Some);
                        if utf16_decode(w@.skip(i + 2)) is Some {
                            let rest = utf16_decode(w@.skip(i + 2))->Some_0;
                            assert(utf16_decode(pre) == Some(seq![c] + rest));
                            assert(out0 + (seq![c] + rest) =~= out@ + rest);
                        }
                    }
                    i = i + 2;
                } else {
                    assert(utf16_decode(pre) is None);
                    return Err(crate::errors::CodecError::Utf16Decode);
                }
            } else {
                assert(pre.len() == 1);
                assert(utf16_decode(pre) is None);
                return Err(crate::errors::CodecError::Utf16Decode);
            }
        } else if 0xDC00 <= u0 && u0 < 0xE000 {
            assert(utf16_decode(pre) is None);
            return Err(crate::errors::CodecError::Utf16Decode);
        } else {
            let v = u0 as u32;
            assert(is_scalar(v));
            let c = char_from_u32(v).unwrap();
            string_push(&mut out, c);
            proof {
                assert(pre.skip(1) =~= w@.skip(i + 1));
                assert(utf16_decode(pre) is Some <==> utf16_decode(w@.skip(i + 1)) is Some);
                if utf16_decode(w@.skip(i + 1)) is Some {
                    let rest = utf16_decode(w@.skip(i + 1))->Some_0;
                    assert(utf16_decode(pre) == Some(seq![c] + rest));
                    assert(out0 + (seq![c] + rest) =~= out@ + rest);
                }
            }
            i = i + 1;
        }
    }
    proof {
        assert(w@.skip(n as int) =~= Seq::<u16>::empty());
        if utf16_decode(w@) is Some {
            assert(out@ + Seq::<char>::empty() =~= out@);
        }
    }
    Ok(out)
}

} // verus!
