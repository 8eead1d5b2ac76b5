//! The modified UTF-8 of class files: the text of a `CONSTANT_Utf8` entry is a sequence of
//! UTF-16 code units, each written in one, two or three bytes, where the character
//! U+0000 takes the two bytes `C0 80` and a character outside the Basic Multilingual Plane
//! is a surrogate pair of code units.

use vstd::arithmetic::div_mod::{
    lemma_div_denominator, lemma_fundamental_div_mod, lemma_fundamental_div_mod_converse,
    lemma_mod_pos_bound,
};
use vstd::prelude::*;

verus! {

/// True for the bytes of the form `10xxxxxx` that continue a code unit.
pub open spec fn is_continuation(c: u8) -> bool {
    0x80 <= c <= 0xbf
}

/// `Some(s + t)` where `o` is `Some(t)`, else `None`.
pub open spec fn prepend_units(s: Seq<u16>, o: Option<Seq<u16>>) -> Option<Seq<u16>> {
    match o {
        Some(t) => Some(s + t),
        None => None,
    }
}

/// The code unit that a two-byte form with the leading byte `c` and the continuation byte
/// `c1` gives: their eleven payload bits.
pub open spec fn two_byte_unit(c: u8, c1: u8) -> int {
    (c - 0xc0) * 0x40 + (c1 - 0x80)
}

/// The code unit that a three-byte form with the leading byte `c` and the continuation
/// bytes `c1`, `c2` gives: their sixteen payload bits.
pub open spec fn three_byte_unit(c: u8, c1: u8, c2: u8) -> int {
    (c - 0xe0) * 0x1000 + (c1 - 0x80) * 0x40 + (c2 - 0x80)
}

/// The code units that bytes `i` to `end` of `b` spell in modified UTF-8, or `None` where
/// they spell none.
///
/// A byte from `01` to `7F` is a code unit of its own. A byte `110xxxxx` and one
/// continuation byte give the code unit of their eleven payload bits, which must be `0`
/// (the form `C0 80` of U+0000) or at least `0x80`; a byte `1110xxxx` and two continuation
/// bytes give that of their sixteen, which must be at least `0x800`. Every other form that
/// is longer than the code unit needs, the byte `00`, a continuation byte where a code
/// unit should begin, a byte from `F0` on, and a code unit cut short by the end are errors.
pub open spec fn modified_utf8_units(b: Seq<u8>, i: int, end: int) -> Option<Seq<u16>>
    decreases end - i,
{
    if i >= end {
        Some(Seq::empty())
    } else {
        let c = b[i];
        if 0x01 <= c <= 0x7f {
            prepend_units(seq![c as u16], modified_utf8_units(b, i + 1, end))
        } else if 0xc0 <= c <= 0xdf && i + 2 <= end && is_continuation(b[i + 1]) {
            let v = two_byte_unit(c, b[i + 1]);
            if v == 0 || v >= 0x80 {
                prepend_units(seq![v as u16], modified_utf8_units(b, i + 2, end))
            } else {
                None
            }
        } else if 0xe0 <= c <= 0xef && i + 3 <= end && is_continuation(b[i + 1])
            && is_continuation(b[i + 2]) {
            let v = three_byte_unit(c, b[i + 1], b[i + 2]);
            if v >= 0x800 {
                prepend_units(seq![v as u16], modified_utf8_units(b, i + 3, end))
            } else {
                None
            }
        } else {
            None
        }
    }
}

/// A code unit that opens a surrogate pair.
pub open spec fn is_high_surrogate(u: u16) -> bool {
    0xd800 <= u <= 0xdbff
}

/// A code unit that closes a surrogate pair.
pub open spec fn is_low_surrogate(u: u16) -> bool {
    0xdc00 <= u <= 0xdfff
}

/// The character that the surrogate pair `hi`, `lo` stands for.
pub open spec fn pair_scalar(hi: u16, lo: u16) -> u32 {
    (0x10000 + (hi - 0xd800) * 0x400 + (lo - 0xdc00)) as u32
}

/// `Some(s + t)` where `o` is `Some(t)`, else `None`.
pub open spec fn prepend_chars(s: Seq<char>, o: Option<Seq<char>>) -> Option<Seq<char>> {
    match o {
        Some(t) => Some(s + t),
        None => None,
    }
}

/// The characters that the code units of `u` from `i` on stand for, or `None` where a
/// surrogate is not part of a pair, which no `char` can hold.
pub open spec fn units_text(u: Seq<u16>, i: int) -> Option<Seq<char>>
    decreases u.len() - i,
{
    if i < 0 || i >= u.len() {
        Some(Seq::empty())
    } else if is_high_surrogate(u[i]) {
        if i + 1 < u.len() && is_low_surrogate(u[i + 1]) {
            prepend_chars(seq![pair_scalar(u[i], u[i + 1]) as char], units_text(u, i + 2))
        } else {
            None
        }
    } else if is_low_surrogate(u[i]) {
        None
    } else {
        prepend_chars(seq![(u[i] as u32) as char], units_text(u, i + 1))
    }
}

/// The text that bytes `i` to `end` of `b` hold in modified UTF-8, or `None` where they
/// hold no text.
pub open spec fn modified_utf8_text(b: Seq<u8>, i: int, end: int) -> Option<Seq<char>> {
    match modified_utf8_units(b, i, end) {
        Some(u) => units_text(u, 0),
        None => None,
    }
}

/// `char::from_u32`: the character with the number `u`, where `u` is a Unicode scalar
/// value (at most `0x10FFFF` and not a surrogate), else `None`.
#[verifier::external_body]
fn char_from_u32(u: u32) -> (r: Option<char>)
    ensures
        r is Some <==> (u <= 0x10ffff && !(0xd800 <= u <= 0xdfff)),
        r matches Some(c) ==> c as u32 == u,
{
    char::from_u32(u)
}

/// `String::push`: `c` appended to the end of `s`.
#[verifier::external_body]
fn push_char(s: &mut String, c: char)
    ensures
        final(s)@ == old(s)@.push(c),
{
    s.push(c)
}

/// The code units that bytes `start` to `end` of `b` spell in modified UTF-8.
fn decode_units(b: &[u8], start: usize, end: usize) -> (r: Option<Vec<u16>>)
    requires
        start <= end <= b@.len(),
    ensures
        match modified_utf8_units(b@, start as int, end as int) {
            Some(u) => r matches Some(v) && v@ == u,
            None => r is None,
        },
{
    let ghost s = b@;
    let mut units: Vec<u16> = Vec::new();
    let mut i = start;
    proof {
        if let Some(all) = modified_utf8_units(s, start as int, end as int) {
            assert(Seq::<u16>::empty() + all =~= all);
        }
    }
    while i < end
        invariant
            s == b@,
            start <= i <= end <= s.len(),
            modified_utf8_units(s, start as int, end as int) == prepend_units(
                units@,
                modified_utf8_units(s, i as int, end as int),
            ),
        decreases end - i,
    {
        let ghost before = units@;
        let c = b[i];
        let unit: u16;
        let width: usize;
        if 0x01 <= c && c <= 0x7f {
            unit = c as u16;
            width = 1;
        } else if 0xc0 <= c && c <= 0xdf && end - i >= 2 && 0x80 <= b[i + 1] && b[i + 1] <= 0xbf {
            unit = (c - 0xc0) as u16 * 0x40 + (b[i + 1] - 0x80) as u16;
            if !(unit == 0 || unit >= 0x80) {
                return None;
            }
            width = 2;
        } else if 0xe0 <= c && c <= 0xef && end - i >= 3 && 0x80 <= b[i + 1] && b[i + 1] <= 0xbf
            && 0x80 <= b[i + 2] && b[i + 2] <= 0xbf {
            unit = (c - 0xe0) as u16 * 0x1000 + (b[i + 1] - 0x80) as u16 * 0x40 + (b[i + 2]
                - 0x80) as u16;
            if unit < 0x800 {
                return None;
            }
            width = 3;
        } else {
            return None;
        }
        units.push(unit);
        i = i + width;
        proof {
            if let Some(rest) = modified_utf8_units(s, i as int, end as int) {
                assert(before + (seq![unit] + rest) =~= before.push(unit) + rest);
            }
        }
    }
    proof {
        assert(units@ + Seq::<u16>::empty() =~= units@);
    }
    Some(units)
}

/// The text that the code units `u` stand for, where every surrogate is part of a pair.
fn text_of_units(u: &Vec<u16>) -> (r: Option<String>)
    ensures
        match units_text(u@, 0) {
            Some(t) => r matches Some(s) && s@ == t,
            None => r is None,
        },
{
    let ghost v = u@;
    let mut text = String::new();
    let mut i: usize = 0;
    proof {
        if let Some(all) = units_text(v, 0) {
            assert(Seq::<char>::empty() + all =~= all);
        }
    }
    while i < u.len()
        invariant
            v == u@,
            i <= v.len(),
            units_text(v, 0) == prepend_chars(text@, units_text(v, i as int)),
        decreases v.len() - i,
    {
        let ghost before = text@;
        let x = u[i];
        let scalar: u32;
        let width: usize;
        if 0xd800 <= x && x <= 0xdbff {
            if i + 1 < u.len() && 0xdc00 <= u[i + 1] && u[i + 1] <= 0xdfff {
                scalar = 0x10000 + (x - 0xd800) as u32 * 0x400 + (u[i + 1] - 0xdc00) as u32;
                width = 2;
            } else {
                return None;
            }
        } else if 0xdc00 <= x && x <= 0xdfff {
            return None;
        } else {
            scalar = x as u32;
            width = 1;
        }
        let c = char_from_u32(scalar).unwrap();
        proof {
            vstd::utf8::char_u32_cast(c, scalar);
        }
        push_char(&mut text, c);
        i = i + width;
        proof {
            if let Some(rest) = units_text(v, i as int) {
                assert(before + (seq![c] + rest) =~= before.push(c) + rest);
            }
        }
    }
    proof {
        assert(text@ + Seq::<char>::empty() =~= text@);
    }
    Some(text)
}

/// The text that bytes `start` to `end` of `bytes` hold in modified UTF-8, or `None` where
/// they hold no text.
pub fn decode_modified_utf8(bytes: &[u8], start: usize, end: usize) -> (r: Option<String>)
    requires
        start <= end <= bytes@.len(),
    ensures
        match modified_utf8_text(bytes@, start as int, end as int) {
            Some(t) => r matches Some(s) && s@ == t,
            None => r is None,
        },
{
    match decode_units(bytes, start, end) {
        Some(units) => text_of_units(&units),
        None => None,
    }
}

/// Only bytes `i` to `end` of `b` decide what they spell: bytes after them change nothing.
pub proof fn lemma_modified_utf8_extend(b: Seq<u8>, more: Seq<u8>, i: int, end: int)
    requires
        0 <= i,
        end <= b.len(),
    ensures
        modified_utf8_text(b + more, i, end) == modified_utf8_text(b, i, end),
{
    lemma_units_extend(b, more, i, end);
}

proof fn lemma_units_extend(b: Seq<u8>, more: Seq<u8>, i: int, end: int)
    requires
        0 <= i,
        end <= b.len(),
    ensures
        modified_utf8_units(b + more, i, end) == modified_utf8_units(b, i, end),
    decreases end - i,
{
    if i < end {
        let c = b + more;
        assert(c[i] == b[i]);
        if i + 1 < end {
            assert(c[i + 1] == b[i + 1]);
        }
        if i + 2 < end {
            assert(c[i + 2] == b[i + 2]);
        }
        lemma_units_extend(b, more, i + 1, end);
        if i + 2 <= end {
            lemma_units_extend(b, more, i + 2, end);
        }
        if i + 3 <= end {
            lemma_units_extend(b, more, i + 3, end);
        }
    }
}

/// The modified UTF-8 bytes of one code unit, as the class-file format writes them: a unit
/// from `01` to `7F` in one byte; the unit `0` and those from `80` to `7FF` in two, `110`
/// and the high five bits, then `10` and the low six; those from `800` on in three, `1110`
/// and the high four bits, then `10` and the middle six, then `10` and the low six.
pub open spec fn encode_unit(u: u16) -> Seq<u8> {
    if 0x01 <= u <= 0x7f {
        seq![u as u8]
    } else if u <= 0x7ff {
        seq![(0xc0 + u / 0x40) as u8, (0x80 + u % 0x40) as u8]
    } else {
        seq![(0xe0 + u / 0x1000) as u8, (0x80 + (u / 0x40) % 0x40) as u8, (0x80 + u % 0x40) as u8]
    }
}

/// The modified UTF-8 bytes of a sequence of code units, one after another.
pub open spec fn encode_units(us: Seq<u16>) -> Seq<u8>
    decreases us.len(),
{
    if us.len() == 0 {
        Seq::empty()
    } else {
        encode_unit(us[0]) + encode_units(us.subrange(1, us.len() as int))
    }
}

/// The UTF-16 code units of one character: itself below U+10000, else a surrogate pair.
pub open spec fn char_units(c: char) -> Seq<u16> {
    let x = c as u32;
    if x < 0x10000 {
        seq![x as u16]
    } else {
        seq![(0xd800 + (x - 0x10000) / 0x400) as u16, (0xdc00 + (x - 0x10000) % 0x400) as u16]
    }
}

/// The UTF-16 code units of a text, character by character.
pub open spec fn utf16_units(s: Seq<char>) -> Seq<u16>
    decreases s.len(),
{
    if s.len() == 0 {
        Seq::empty()
    } else {
        char_units(s[0]) + utf16_units(s.subrange(1, s.len() as int))
    }
}

proof fn lemma_decode_encoded_unit(b: Seq<u8>, i: int, end: int, u: u16)
    requires
        0 <= i,
        i + encode_unit(u).len() <= end <= b.len(),
        b.subrange(i, i + encode_unit(u).len()) == encode_unit(u),
    ensures
        modified_utf8_units(b, i, end) == prepend_units(
            seq![u],
            modified_utf8_units(b, i + encode_unit(u).len(), end),
        ),
{
    let e = encode_unit(u);
    assert forall|j: int| 0 <= j < e.len() implies b[i + j] == e[j] by {
        assert(b.subrange(i, i + e.len())[j] == b[i + j]);
    }
    let x = u as int;
    lemma_split_digits(x);
    if 0x01 <= u <= 0x7f {
        assert(b[i] == e[0]);
    } else if u <= 0x7ff {
        assert(b[i] == e[0] && b[i + 1] == e[1]);
    } else {
        assert(b[i] == e[0] && b[i + 1] == e[1] && b[i + 2] == e[2]);
    }
}

/// The base-64 digits of a 16-bit number.
proof fn lemma_split_digits(x: int)
    requires
        0 <= x < 0x10000,
    ensures
        x == 0x40 * (x / 0x40) + x % 0x40,
        0 <= x % 0x40 < 0x40,
        x / 0x40 == 0x40 * (x / 0x1000) + (x / 0x40) % 0x40,
        0 <= (x / 0x40) % 0x40 < 0x40,
        0 <= x / 0x1000 < 0x10,
        x < 0x800 ==> x / 0x40 < 0x20,
        x / 0x40 >= 0,
{
    lemma_fundamental_div_mod(x, 0x40);
    lemma_mod_pos_bound(x, 0x40);
    let m = x / 0x40;
    lemma_fundamental_div_mod(m, 0x40);
    lemma_mod_pos_bound(m, 0x40);
    lemma_div_denominator(x, 0x40, 0x40);
    lemma_fundamental_div_mod(x, 0x1000);
    lemma_mod_pos_bound(x, 0x1000);
}

proof fn lemma_decode_encoded_units(b: Seq<u8>, i: int, end: int, us: Seq<u16>)
    requires
        0 <= i <= end <= b.len(),
        b.subrange(i, end) == encode_units(us),
    ensures
        modified_utf8_units(b, i, end) == Some(us),
    decreases us.len(),
{
    if us.len() == 0 {
        assert(us =~= Seq::<u16>::empty());
    } else {
        let e = encode_unit(us[0]);
        let rest = us.subrange(1, us.len() as int);
        let w = e.len() as int;
        let whole = b.subrange(i, end);
        assert(whole == e + encode_units(rest));
        assert(1 <= w <= 3);
        assert(whole.len() == end - i);
        assert(b.subrange(i, i + w) =~= e) by {
            assert forall|j: int| 0 <= j < w implies b.subrange(i, i + w)[j] == e[j] by {
                assert(whole[j] == b[i + j]);
            }
        }
        assert(b.subrange(i + w, end) =~= encode_units(rest)) by {
            assert forall|j: int| 0 <= j < end - (i + w) implies b.subrange(i + w, end)[j]
                == encode_units(rest)[j] by {
                assert(whole[w + j] == b[i + w + j]);
            }
        }
        lemma_decode_encoded_unit(b, i, end, us[0]);
        lemma_decode_encoded_units(b, i + w, end, rest);
        assert(seq![us[0]] + rest =~= us);
    }
}

/// Decoding gives back what was encoded: the modified UTF-8 bytes of any sequence of code
/// units, each written as the class-file format writes it, decode to exactly those code
/// units.
pub proof fn lemma_units_roundtrip(us: Seq<u16>)
    ensures
        modified_utf8_units(encode_units(us), 0, encode_units(us).len() as int) == Some(us),
{
    let b = encode_units(us);
    assert(b.subrange(0, b.len() as int) =~= b);
    lemma_decode_encoded_units(b, 0, b.len() as int, us);
}

proof fn lemma_units_of_text(u: Seq<u16>, i: int, s: Seq<char>)
    requires
        0 <= i <= u.len(),
        u.subrange(i, u.len() as int) == utf16_units(s),
    ensures
        units_text(u, i) == Some(s),
    decreases s.len(),
{
    if s.len() == 0 {
        assert(s =~= Seq::<char>::empty());
    } else {
        let c = s[0];
        let x = c as u32;
        let e = char_units(c);
        let rest = s.subrange(1, s.len() as int);
        let w = e.len() as int;
        let whole = u.subrange(i, u.len() as int);
        assert(whole == e + utf16_units(rest));
        assert(1 <= w <= 2);
        assert(whole.len() == u.len() - i);
        assert forall|j: int| 0 <= j < w implies u[i + j] == e[j] by {
            assert(whole[j] == u[i + j]);
        }
        assert(u.subrange(i + w, u.len() as int) =~= utf16_units(rest)) by {
            assert forall|j: int| 0 <= j < u.len() - (i + w) implies u.subrange(
                i + w,
                u.len() as int,
            )[j] == utf16_units(rest)[j] by {
                assert(whole[w + j] == u[i + w + j]);
            }
        }
        vstd::utf8::char_is_scalar(c);
        vstd::utf8::char_u32_cast(c, x);
        if x < 0x10000 {
            assert(u[i] == e[0]);
            assert(u[i] as u32 == x);
        } else {
            let y = x - 0x10000;
            lemma_fundamental_div_mod(y, 0x400);
            lemma_mod_pos_bound(y, 0x400);
            assert(u[i] == e[0] && u[i + 1] == e[1]);
        }
        lemma_units_of_text(u, i + w, rest);
        assert(seq![c] + rest =~= s);
    }
}

/// Decoding gives back the text that was encoded: the modified UTF-8 bytes of the UTF-16
/// code units of any text decode to that text.
pub proof fn lemma_text_roundtrip(s: Seq<char>)
    ensures
        modified_utf8_text(
            encode_units(utf16_units(s)),
            0,
            encode_units(utf16_units(s)).len() as int,
        ) == Some(s),
{
    let u = utf16_units(s);
    lemma_units_roundtrip(u);
    assert(u.subrange(0, u.len() as int) =~= u);
    lemma_units_of_text(u, 0, s);
}

/// Bytes that decode are exactly the encoding of what they decode to: where bytes `i` to
/// `end` of `b` spell the code units `us`, they are the modified UTF-8 of `us`, each unit
/// written in the one form the class-file format gives it, so no longer form of a unit is
/// ever accepted.
pub proof fn lemma_units_canonical(b: Seq<u8>, i: int, end: int)
    requires
        0 <= i <= end <= b.len(),
        modified_utf8_units(b, i, end) is Some,
    ensures
        b.subrange(i, end) == encode_units(modified_utf8_units(b, i, end)->0),
    decreases end - i,
{
    let us = modified_utf8_units(b, i, end)->0;
    if i == end {
        assert(b.subrange(i, end) =~= encode_units(us));
    } else {
        let c = b[i];
        let w: int = if 0x01 <= c <= 0x7f {
            1
        } else if 0xc0 <= c <= 0xdf {
            2
        } else {
            3
        };
        let rest = modified_utf8_units(b, i + w, end)->0;
        lemma_units_canonical(b, i + w, end);
        let v = us[0];
        assert(us == seq![v] + rest);
        assert(us.subrange(1, us.len() as int) =~= rest);
        if w == 2 {
            let x = v as int;
            lemma_fundamental_div_mod_converse(x, 0x40, c - 0xc0, b[i + 1] - 0x80);
        } else if w == 3 {
            let x = v as int;
            lemma_fundamental_div_mod_converse(x, 0x40, (c - 0xe0) * 0x40 + b[i + 1] - 0x80, b[i
                + 2] - 0x80);
            lemma_fundamental_div_mod_converse(
                (c - 0xe0) * 0x40 + b[i + 1] - 0x80,
                0x40,
                c - 0xe0,
                b[i + 1] - 0x80,
            );
            lemma_div_denominator(x, 0x40, 0x40);
        }
        let e = encode_unit(v);
        assert(e.len() == w);
        assert forall|j: int| 0 <= j < w implies e[j] == b[i + j] by {}
        assert(b.subrange(i, end) =~= e + b.subrange(i + w, end));
    }
}

/// Code units that stand for a text are exactly the UTF-16 code units of that text: a
/// surrogate pair stands for the character of its two halves, and every other unit for
/// itself.
pub proof fn lemma_units_text_canonical(u: Seq<u16>, i: int)
    requires
        0 <= i <= u.len(),
        units_text(u, i) is Some,
    ensures
        u.subrange(i, u.len() as int) == utf16_units(units_text(u, i)->0),
    decreases u.len() - i,
{
    let s = units_text(u, i)->0;
    if i == u.len() {
        assert(u.subrange(i, u.len() as int) =~= utf16_units(s));
    } else {
        let w: int = if is_high_surrogate(u[i]) {
            2
        } else {
            1
        };
        let rest = units_text(u, i + w)->0;
        lemma_units_text_canonical(u, i + w);
        let c = s[0];
        assert(s == seq![c] + rest);
        assert(s.subrange(1, s.len() as int) =~= rest);
        if w == 2 {
            let p = pair_scalar(u[i], u[i + 1]);
            assert(c == p as char);
            assert(c as u32 == p);
            lemma_fundamental_div_mod_converse(
                p - 0x10000,
                0x400,
                u[i] - 0xd800,
                u[i + 1] - 0xdc00,
            );
        } else {
            assert(c == (u[i] as u32) as char);
            assert(c as u32 == u[i] as u32);
        }
        let e = char_units(c);
        assert(e.len() == w);
        assert forall|j: int| 0 <= j < w implies e[j] == u[i + j] by {}
        assert(u.subrange(i, u.len() as int) =~= e + u.subrange(i + w, u.len() as int));
    }
}

} // verus!
