//! UTF-16, the unit every command-line index counts in: encoding a string
//! into code units, and decoding units back with each unpaired surrogate
//! replaced by U+FFFD.

use vstd::prelude::*;
use crate::text::{chars_of, string_from_chars};

verus! {

/// A Unicode scalar value: a code point that is not a surrogate.
pub open spec fn is_scalar(v: int) -> bool {
    (0 <= v < 0xD800) || (0xE000 <= v <= 0x10FFFF)
}

/// `char::from_u32`: the character with scalar value `v`, or `None` when `v`
/// is a surrogate or above U+10FFFF.
#[verifier::external_body]
pub fn char_from_u32(v: u32) -> (r: Option<char>)
    ensures
        r is Some <==> is_scalar(v as int),
        r matches Some(c) ==> c as u32 == v,
{
    char::from_u32(v)
}

pub open spec fn is_high_surrogate(u: u16) -> bool {
    0xD800 <= u < 0xDC00
}

pub open spec fn is_low_surrogate(u: u16) -> bool {
    0xDC00 <= u < 0xE000
}

pub open spec fn is_surrogate(u: u16) -> bool {
    0xD800 <= u < 0xE000
}

/// The code units of one character: itself below U+10000, a surrogate pair
/// above.
pub open spec fn char_units(c: char) -> Seq<u16> {
    let v = c as u32 as int;
    if v < 0x10000 {
        seq![v as u16]
    } else {
        let w = v - 0x10000;
        seq![(0xD800 + w / 1024) as u16, (0xDC00 + w % 1024) as u16]
    }
}

/// A string's UTF-16 code units.
pub open spec fn utf16(s: Seq<char>) -> Seq<u16>
    decreases s.len(),
{
    if s.len() == 0 {
        Seq::empty()
    } else {
        utf16(s.drop_last()) + char_units(s.last())
    }
}

/// The scalar value a surrogate pair stands for.
pub open spec fn pair_value(hi: u16, lo: u16) -> int {
    0x10000 + (hi - 0xD800) * 1024 + (lo - 0xDC00)
}

/// Units decoded front to back: a high surrogate followed by a low one is
/// one character; any other surrogate is U+FFFD; every other unit is the
/// character with its value.
pub open spec fn decode_lossy(u: Seq<u16>) -> Seq<char>
    decreases u.len(),
{
    if u.len() == 0 {
        Seq::empty()
    } else if u.len() >= 2 && is_high_surrogate(u[0]) && is_low_surrogate(u[1]) {
        seq![(pair_value(u[0], u[1]) as u32) as char] + decode_lossy(u.skip(2))
    } else if is_surrogate(u[0]) {
        seq!['\u{FFFD}'] + decode_lossy(u.skip(1))
    } else {
        seq![(u[0] as u32) as char] + decode_lossy(u.skip(1))
    }
}

/// `str::encode_utf16`, collected.
pub fn encode_utf16(s: &str) -> (r: Vec<u16>)
    ensures
        r@ == utf16(s@),
{
    let cs = chars_of(s);
    let mut out: Vec<u16> = Vec::new();
    let n = cs.len();
    let mut i: usize = 0;
    while i < n
        invariant
            n == cs@.len(),
            cs@ == s@,
            i <= n,
            out@ == utf16(cs@.take(i as int)),
        decreases n - i,
    {
        let c = cs[i];
        let v = c as u32;
        proof {
            assert(cs@.take(i + 1).drop_last() =~= cs@.take(i as int));
            assert(cs@.take(i + 1).last() == c);
        }
        if v < 0x10000 {
            out.push(v as u16);
        } else {
            let w = v - 0x10000;
            proof {
                vstd::utf8::char_is_scalar(c);
                assert(v <= 0x10FFFF);
                assert(w / 1024 < 1024) by (nonlinear_arith)
                    requires
                        w <= 0xFFFFF,
                ;
            }
            out.push((0xD800 + w / 1024) as u16);
            out.push((0xDC00 + w % 1024) as u16);
        }
        proof {
            assert(out@ =~= utf16(cs@.take(i + 1)));
        }
        i = i + 1;
    }
    proof {
        assert(cs@.take(n as int) =~= cs@);
    }
    out
}

/// `String::from_utf16_lossy`.
pub fn from_utf16_lossy(units: &[u16]) -> (r: String)
    ensures
        r@ == decode_lossy(units@),
{
    let n = units.len();
    let mut out: Vec<char> = Vec::new();
    let mut i: usize = 0;
    proof {
        assert(units@.skip(0) =~= units@);
    }
    while i < n
        invariant
            n == units@.len(),
            i <= n,
            out@ + decode_lossy(units@.skip(i as int)) == decode_lossy(units@),
        decreases n - i,
    {
        let u = units[i];
        let rest = Ghost(units@.skip(i as int));
        if i + 1 < n && 0xD800 <= u && u < 0xDC00 && 0xDC00 <= units[i + 1] && units[i + 1] < 0xE000 {
            let lo = units[i + 1];
            let v: u32 = 0x10000 + ((u - 0xD800) as u32) * 1024 + ((lo - 0xDC00) as u32);
            let c = match char_from_u32(v) {
                Some(c) => c,
                None => '\u{FFFD}',
            };
            proof {
                assert(rest@[0] == u && rest@[1] == lo);
                assert(rest@.skip(2) =~= units@.skip(i + 2));
                assert(is_scalar(v as int));
                assert(v as int == pair_value(u, lo));
                vstd::utf8::char_u32_cast(c, v);
                assert(c == (pair_value(u, lo) as u32) as char);
                assert(out@.push(c) + decode_lossy(units@.skip(i + 2)) =~= out@ + decode_lossy(rest@));
            }
            out.push(c);
            i = i + 2;
        } else if 0xD800 <= u && u < 0xE000 {
            proof {
                assert(rest@[0] == u);
                assert(rest@.skip(1) =~= units@.skip(i + 1));
                assert(out@.push('\u{FFFD}') + decode_lossy(units@.skip(i + 1)) =~= out@ + decode_lossy(rest@));
            }
            out.push('\u{FFFD}');
            i = i + 1;
        } else {
            let c = match char_from_u32(u as u32) {
                Some(c) => c,
                None => '\u{FFFD}',
            };
            proof {
                assert(rest@[0] == u);
                assert(rest@.skip(1) =~= units@.skip(i + 1));
                vstd::utf8::char_u32_cast(c, u as u32);
                assert(c == (u as u32) as char);
                assert(out@.push(c) + decode_lossy(units@.skip(i + 1)) =~= out@ + decode_lossy(rest@));
            }
            out.push(c);
            i = i + 1;
        }
    }
    proof {
        assert(units@.skip(n as int) =~= Seq::<u16>::empty());
        assert(out@ + decode_lossy(Seq::<u16>::empty()) =~= out@);
    }
    string_from_chars(&out)
}

/// Encoding a concatenation encodes each part.
pub proof fn lemma_utf16_concat(a: Seq<char>, b: Seq<char>)
    ensures
        utf16(a + b) == utf16(a) + utf16(b),
    decreases b.len(),
{
    if b.len() == 0 {
        assert(a + b =~= a);
        assert(utf16(a) + utf16(b) =~= utf16(a));
    } else {
        lemma_utf16_concat(a, b.drop_last());
        assert((a + b).drop_last() =~= a + b.drop_last());
        assert((a + b).last() == b.last());
        assert(utf16(a) + utf16(b.drop_last()) + char_units(b.last()) =~= utf16(a) + (utf16(b.drop_last()) + char_units(b.last())));
    }
}

/// Decoding one character's units, before more units, gives the character
/// back first.
proof fn lemma_decode_char_units(c: char, rest: Seq<u16>)
    ensures
        decode_lossy(char_units(c) + rest) == seq![c] + decode_lossy(rest),
{
    let v = c as u32;
    vstd::utf8::char_is_scalar(c);
    vstd::utf8::char_u32_cast(c, v);
    let u = char_units(c) + rest;
    if (v as int) < 0x10000 {
        assert(u[0] == v as u16);
        assert(u[0] as u32 == v);
        assert(!is_surrogate(u[0]));
        assert(u.skip(1) =~= rest);
    } else {
        let w = v as int - 0x10000;
        assert(w / 1024 < 1024) by (nonlinear_arith)
            requires
                0 <= w <= 0xFFFFF,
        ;
        assert(0 <= w % 1024 < 1024);
        let hi = (0xD800 + w / 1024) as u16;
        let lo = (0xDC00 + w % 1024) as u16;
        assert(u[0] == hi && u[1] == lo);
        assert(hi as int == 0xD800 + w / 1024);
        assert(lo as int == 0xDC00 + w % 1024);
        assert(pair_value(hi, lo) == v as int) by (nonlinear_arith)
            requires
                hi as int == 0xD800 + w / 1024,
                lo as int == 0xDC00 + w % 1024,
                w == v as int - 0x10000,
        ;
        assert(u.skip(2) =~= rest);
    }
}

/// Decoding a string's UTF-16 units gives the string back: no character
/// is lost or replaced.
pub proof fn lemma_decode_utf16(s: Seq<char>)
    ensures
        decode_lossy(utf16(s)) == s,
    decreases s.len(),
{
    if s.len() > 0 {
        let rest = s.skip(1);
        assert(s =~= seq![s[0]] + rest);
        lemma_utf16_concat(seq![s[0]], rest);
        let one = seq![s[0]];
        assert(one.drop_last() =~= Seq::<char>::empty());
        assert(one.last() == s[0]);
        assert(utf16(one.drop_last()) =~= Seq::<u16>::empty());
        assert(utf16(one) =~= char_units(s[0]));
        lemma_decode_char_units(s[0], utf16(rest));
        lemma_decode_utf16(rest);
    }
}

} // verus!
