//! Characters and strings: UTF-16 code units, the characters of a `&str`,
//! and the two conversions that only std can make.
use vstd::prelude::*;

verus! {

/// Whether `x` is the number of a Unicode scalar value.
pub open spec fn is_scalar(x: u32) -> bool {
    x < 0xD800 || (0xE000 <= x && x <= 0x10FFFF)
}

/// The character numbered `x`, or NUL where `x` numbers none.
pub open spec fn code_char(x: u32) -> char {
    if is_scalar(x) {
        x as char
    } else {
        '\0'
    }
}

/// The UTF-16 code units of one character.
pub open spec fn utf16_of(c: char) -> Seq<u16> {
    let x = c as u32;
    if x < 0x10000 {
        seq![x as u16]
    } else {
        let y = (x - 0x10000) as u32;
        seq![(0xD800 + y / 0x400) as u16, (0xDC00 + y % 0x400) as u16]
    }
}

/// The UTF-16 code units of a string.
pub open spec fn utf16_units(s: Seq<char>) -> Seq<u16>
    decreases s.len(),
{
    if s.len() == 0 {
        Seq::empty()
    } else {
        utf16_units(s.drop_last()) + utf16_of(s.last())
    }
}

/// `char::from_u32`: std documents that it returns `None` exactly when `x` is
/// not a Unicode scalar value (above 0x10FFFF or a surrogate), and otherwise
/// the character numbered `x`.
#[verifier::external_body]
pub(crate) fn char_from_u32(x: u32) -> (r: Option<char>)
    ensures
        r is Some <==> is_scalar(x),
        r matches Some(c) ==> c as u32 == x,
{
    char::from_u32(x)
}

/// `String: FromIterator<char>` (`collect`): std documents that the string
/// holds the collected characters in order.
#[verifier::external_body]
pub(crate) fn string_from_chars(v: &Vec<char>) -> (s: String)
    ensures
        s@ == v@,
{
    v.iter().collect()
}

/// The character numbered `x`, or NUL where `x` numbers none.
pub fn character_of(x: u32) -> (c: char)
    ensures
        c == code_char(x),
{
    match char_from_u32(x) {
        Some(c) => {
            proof {
                vstd::utf8::char_u32_cast(c, x);
            }
            c
        },
        None => '\0',
    }
}

/// The characters of a string.
pub fn collect_chars(s: &str) -> (v: Vec<char>)
    ensures
        v@ == s@,
{
    let mut v: Vec<char> = Vec::new();
    for c in it: s.chars()
        invariant
            it.seq() == s@,
            v@ == it.seq().take(it.index() as int),
    {
        v.push(c);
    }
    proof {
        assert(s@.take(s@.len() as int) =~= s@);
    }
    v
}

/// The UTF-16 code units of a string.
pub fn encode_utf16(s: &str) -> (units: Vec<u16>)
    ensures
        units@ == utf16_units(s@),
{
    let mut units: Vec<u16> = Vec::new();
    for c in it: s.chars()
        invariant
            it.seq() == s@,
            units@ == utf16_units(it.seq().take(it.index() as int)),
    {
        let ghost prev = it.seq().take(it.index() as int);
        let x = c as u32;
        if x < 0x10000 {
            units.push(x as u16);
        } else {
            let y = x - 0x10000;
            units.push((0xD800 + y / 0x400) as u16);
            units.push((0xDC00 + y % 0x400) as u16);
        }
        proof {
            let next = it.seq().take(it.index() + 1);
            assert(next.drop_last() =~= prev);
            assert(next.last() == c);
            assert(units@ =~= utf16_units(prev) + utf16_of(c));
        }
    }
    proof {
        assert(s@.take(s@.len() as int) =~= s@);
    }
    units
}

} // verus!
