//! Null-terminated UTF-16 strings, the form in which Windows takes text.
use vstd::prelude::*;
use crate::text::chars_of;

verus! {

/// The UTF-16 code units of one character: one unit below U+10000, else a
/// surrogate pair.
pub open spec fn utf16_units(c: char) -> Seq<u16> {
    let v = c as u32;
    if v < 0x10000 {
        seq![v as u16]
    } else {
        let w = v - 0x10000;
        seq![(0xD800 + w / 0x400) as u16, (0xDC00 + w % 0x400) as u16]
    }
}

/// The UTF-16 encoding of a string.
pub open spec fn utf16(s: Seq<char>) -> Seq<u16>
    decreases s.len(),
{
    if s.len() == 0 {
        Seq::<u16>::empty()
    } else {
        utf16(s.drop_last()) + utf16_units(s.last())
    }
}

/// The UTF-16 encoding of `s` followed by a terminating zero unit.
pub fn to_wide_chars(s: &str) -> (w: Vec<u16>)
    ensures
        w@ == utf16(s@).push(0u16),
{
    let v = chars_of(s);
    let mut w: Vec<u16> = Vec::new();
    let mut i: usize = 0;
    while i < v.len()
        invariant
            i <= v.len(),
            w@ == utf16(v@.take(i as int)),
        decreases v.len() - i,
    {
        let c = v[i];
        let x = c as u32;
        proof {
            vstd::utf8::char_is_scalar(c);
        }
        let ghost before = w@;
        assert(v@.take(i + 1).drop_last() =~= v@.take(i as int));
        if x < 0x10000 {
            w.push(x as u16);
            assert(w@ =~= before + utf16_units(c));
        } else {
            let y = x - 0x10000;
            assert(y <= 0xFFFFF);
            let hi = (0xD800 + y / 0x400) as u16;
            let lo = (0xDC00 + y % 0x400) as u16;
            w.push(hi);
            w.push(lo);
            assert(w@ =~= before + utf16_units(c));
        }
        i = i + 1;
    }
    assert(v@.take(v.len() as int) =~= v@);
    w.push(0);
    w
}

/// A path in the null-terminated UTF-16 form that Windows calls take.
pub fn path_to_wide(path: &str) -> (w: Vec<u16>)
    ensures
        w@ == utf16(path@).push(0u16),
{
    to_wide_chars(path)
}

} // verus!
