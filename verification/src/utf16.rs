//! UTF-16: the code units of characters, and the characters of code units.

use vstd::prelude::*;
use vstd::utf8::*;

verus! {

broadcast use {char_is_scalar, char_u32_cast};

pub open spec fn is_high_surrogate(u: u16) -> bool {
    0xD800 <= u <= 0xDBFF
}

pub open spec fn is_low_surrogate(u: u16) -> bool {
    0xDC00 <= u <= 0xDFFF
}

pub open spec fn is_surrogate(u: u16) -> bool {
    0xD800 <= u <= 0xDFFF
}

/// The scalar value that a surrogate pair stands for.
pub open spec fn pair_value(hi: u16, lo: u16) -> u32 {
    (0x10000 + (hi - 0xD800) * 0x400 + (lo - 0xDC00)) as u32
}

/// The UTF-16 code units of one character.
pub open spec fn char_units(c: char) -> Seq<u16> {
    let v = c as u32;
    if v < 0x10000 {
        seq![v as u16]
    } else {
        seq![(0xD800 + (v - 0x10000) / 0x400) as u16, (0xDC00 + (v - 0x10000) % 0x400) as u16]
    }
}

/// The UTF-16 code units of a character sequence.
pub open spec fn utf16_encode(s: Seq<char>) -> Seq<u16>
    decreases s.len(),
{
    if s.len() == 0 {
        Seq::empty()
    } else {
        char_units(s[0]) + utf16_encode(s.drop_first())
    }
}

/// The characters of UTF-16 code units, or `None` when an unpaired surrogate occurs.
pub open spec fn utf16_decode(units: Seq<u16>) -> Option<Seq<char>>
    decreases units.len(),
{
    if units.len() == 0 {
        Some(Seq::empty())
    } else if !is_surrogate(units[0]) {
        match utf16_decode(units.drop_first()) {
            Some(rest) => Some(seq![(units[0] as u32) as char] + rest),
            None => None,
        }
    } else if is_high_surrogate(units[0]) && units.len() >= 2 && is_low_surrogate(units[1]) {
        match utf16_decode(units.subrange(2, units.len() as int)) {
            Some(rest) => Some(seq![pair_value(units[0], units[1]) as char] + rest),
            None => None,
        }
    } else {
        None
    }
}

/// Decoding the UTF-16 code units of a character sequence gives the sequence back.
pub proof fn lemma_utf16_round_trip(s: Seq<char>)
    ensures
        utf16_decode(utf16_encode(s)) == Some(s),
    decreases s.len(),
{
    if s.len() > 0 {
        let c = s[0];
        let v = c as u32;
        let rest = s.drop_first();
        lemma_utf16_round_trip(rest);
        let units = utf16_encode(s);
        char_is_scalar(c);
        char_u32_cast(c, v);
        assert(is_scalar(v));
        if v < 0x10000 {
            assert(units =~= seq![v as u16] + utf16_encode(rest));
            assert(units.drop_first() =~= utf16_encode(rest));
            assert(!is_surrogate(units[0]));
            assert((units[0] as u32) == v);
            assert(seq![(units[0] as u32) as char] + rest =~= s);
        } else {
            let hi = (0xD800 + (v - 0x10000) / 0x400) as u16;
            let lo = (0xDC00 + (v - 0x10000) % 0x400) as u16;
            assert(units =~= seq![hi, lo] + utf16_encode(rest));
            assert(units.subrange(2, units.len() as int) =~= utf16_encode(rest));
            assert(is_high_surrogate(hi));
            assert(is_low_surrogate(lo));
            assert(pair_value(hi, lo) == v);
            assert(seq![pair_value(hi, lo) as char] + rest =~= s);
        }
    }
}

pub proof fn lemma_utf16_encode_append(a: Seq<char>, b: Seq<char>)
    ensures
        utf16_encode(a + b) == utf16_encode(a) + utf16_encode(b),
    decreases a.len(),
{
    if a.len() == 0 {
        assert(a + b =~= b);
    } else {
        lemma_utf16_encode_append(a.drop_first(), b);
        assert((a + b).drop_first() =~= a.drop_first() + b);
    }
}

} // verus!
