//! The strict decoder: it accepts only well-formed Base32768 text and says
//! why it refuses the rest.
//!
//! The text is read as UTF-16 code units. Every unit but the last must be a
//! fifteen-bit character; the last may be a fifteen- or a seven-bit one. The
//! bits of the characters, concatenated, are cut into bytes; the bits left
//! over after the last whole byte are padding and must all be ones.
//!
//! A text is refused for its last unit where that is in neither repertoire.
//! Otherwise the units before it are read in groups (of eight, then of two,
//! then one alone), and the first group that holds a unit that is not a
//! fifteen-bit character decides: an unrecognised unit in it is named, and
//! otherwise its first seven-bit unit is reported by its position.
use vstd::prelude::*;

use crate::bits::{
    acc_holds, acc_holds128, bits_to_bytes, byte_at, lemma_acc_holds_own, lemma_acc_push,
    lemma_byte_at_same_prefix, lemma_byte_at_subrange, lemma_holds_fewer, lemma_push_bound,
    lemma_top_byte, lemma_top_byte128, ubit, ubit128, value_bits,
};
use crate::error::DecodeError;
use crate::repertoire::{code_value, code_width, lemma_code_inverse, lookup, MAX_7BIT_CODEPOINT};
use crate::text::{character_of, code_char, encode_utf16, utf16_units};

verus! {

/// Bits per fifteen-bit character.
const BITS_PER_CHAR: u32 = 15;

/// Marks a seven-bit character in the value `decode_char` returns.
const SEVEN_BIT_FLAG: u16 = 0x8000;

/// Characters the fast path takes at a time.
const FAST_PATH_CHARS: usize = 8;

/// Bytes the fast path writes at a time (8 characters of 15 bits).
const FAST_PATH_BYTES: usize = 15;

// ===========================================================================
// Specification
// ===========================================================================
/// The width of code unit `u`: 15, 7, or 0 where it is in neither repertoire.
pub open spec fn unit_width(u: u16) -> u32 {
    code_width(u as int)
}

/// The value code unit `u` carries.
pub open spec fn unit_value(u: u16) -> u32 {
    code_value(u as int)
}

/// The value `decode_char` gives for a recognised unit: seven-bit values carry `SEVEN_BIT_FLAG`.
pub open spec fn flagged_value(u: u16) -> u16 {
    if unit_width(u) == 7 {
        (unit_value(u) as u16) | 0x8000u16
    } else {
        unit_value(u) as u16
    }
}

/// The error for an unrecognised unit; a lone surrogate is reported as NUL.
pub open spec fn unit_error(u: u16) -> DecodeError {
    DecodeError::UnrecognizedCharacter(code_char(u as u32))
}

/// The number of bits a text of units `us` carries: fifteen for each unit but
/// the last, and the width of the last.
pub open spec fn total_bits(us: Seq<u16>) -> int {
    15 * (us.len() - 1) + unit_width(us[us.len() - 1])
}

/// The bits a text carries: the fifteen bits of each unit but the last, then
/// the bits of the last.
pub open spec fn strict_bits(us: Seq<u16>) -> Seq<bool> {
    let m = us.len() - 1;
    let w = unit_width(us[m]);
    Seq::new(
        total_bits(us) as nat,
        |p: int|
            if p < 15 * m {
                ubit(unit_value(us[p / 15]) as u64, (14 - p % 15) as u64)
            } else {
                ubit(unit_value(us[m]) as u64, (w - 1 - (p - 15 * m)) as u64)
            },
    )
}

/// The first unit among positions `lo .. hi` that is not a fifteen-bit character.
pub open spec fn first_offending(us: Seq<u16>, lo: int, hi: int) -> Option<int>
    decreases hi - lo,
{
    if lo >= hi {
        None
    } else if unit_width(us[lo]) != 15 {
        Some(lo)
    } else {
        first_offending(us, lo + 1, hi)
    }
}

/// The first unit among positions `lo .. hi` that is in neither repertoire.
pub open spec fn first_unknown(us: Seq<u16>, lo: int, hi: int) -> Option<int>
    decreases hi - lo,
{
    if lo >= hi {
        None
    } else if unit_width(us[lo]) == 0 {
        Some(lo)
    } else {
        first_unknown(us, lo + 1, hi)
    }
}

/// Why units `lo .. hi`, read together as one group, are refused: an
/// unrecognised unit, wherever it stands in the group, is named first;
/// otherwise the first seven-bit unit is reported by its position.
pub open spec fn group_error(us: Seq<u16>, lo: int, hi: int) -> Option<DecodeError> {
    match first_unknown(us, lo, hi) {
        Some(k) => Some(unit_error(us[k])),
        None => match first_offending(us, lo, hi) {
            Some(k) => Some(DecodeError::UnexpectedSecondaryCharacter(k as usize)),
            None => None,
        },
    }
}

/// The error of the first refused group among `count` groups of `size`
/// units from `lo`.
pub open spec fn groups_error(us: Seq<u16>, lo: int, count: int, size: int) -> Option<
    DecodeError,
>
    decreases count,
{
    if count <= 0 {
        None
    } else if group_error(us, lo, lo + size) is Some {
        group_error(us, lo, lo + size)
    } else {
        groups_error(us, lo + size, count - 1, size)
    }
}

/// How many of `count` groups of `size` units from `lo` are accepted before
/// the first refused one.
pub open spec fn groups_done(us: Seq<u16>, lo: int, count: int, size: int) -> int
    decreases count,
{
    if count <= 0 {
        0
    } else if group_error(us, lo, lo + size) is Some {
        0
    } else {
        1 + groups_done(us, lo + size, count - 1, size)
    }
}

/// Why the units before the last are refused, read as the decoder reads
/// them: in groups of eight up to the last multiple of eight, then in pairs
/// while two are left, then the one left alone.
pub open spec fn strict_error(us: Seq<u16>) -> Option<DecodeError> {
    let m = us.len() - 1;
    let f = fast_path_end(m);
    let mp = medium_pairs(m, f);
    let s2 = f + 2 * mp;
    match groups_error(us, 0, f / 8, 8) {
        Some(e) => Some(e),
        None => match groups_error(us, f, mp, 2) {
            Some(e) => Some(e),
            None => groups_error(us, s2, m - s2, 1),
        },
    }
}

/// Success, or the error `e`.
pub open spec fn err_result(e: Option<DecodeError>) -> Result<(), DecodeError> {
    match e {
        Some(x) => Err(x),
        None => Ok(()),
    }
}

/// The smaller of two numbers.
pub open spec fn least(a: int, b: int) -> int {
    if a <= b {
        a
    } else {
        b
    }
}

/// The bytes free in an output of `len` bytes from `oi` on.
pub open spec fn room(len: int, oi: int) -> int {
    if oi < len {
        len - oi
    } else {
        0
    }
}

/// `x - 1`, saturating at 0.
pub open spec fn sat_pred(x: int) -> int {
    if x >= 1 {
        x - 1
    } else {
        0
    }
}

/// The last multiple of eight not above `m`.
pub open spec fn fast_path_end(m: int) -> int {
    (m / 8) * 8
}

/// The groups of eight the fast path reads from `s0`, of `cbl` units.
pub open spec fn fast_groups(cbl: int, s0: int) -> int {
    if s0 < fast_path_end(cbl) {
        (fast_path_end(cbl) - s0) / 8
    } else {
        0
    }
}

/// The pairs the medium path reads from `s0`, of `cbl` units.
pub open spec fn medium_pairs(cbl: int, s0: int) -> int {
    if s0 < sat_pred(cbl) {
        (sat_pred(cbl) - s0 + 1) / 2
    } else {
        0
    }
}

/// The fifteen bits of each of the units `lo .. hi`, in order.
pub open spec fn unit_bits(us: Seq<u16>, lo: int, hi: int) -> Seq<bool>
    decreases hi - lo,
{
    if hi <= lo {
        Seq::empty()
    } else {
        unit_bits(us, lo, hi - 1) + value_bits(unit_value(us[hi - 1]) as u64, 15)
    }
}

/// An accumulator after the values of units `lo .. hi` are shifted into it,
/// fifteen bits each.
pub open spec fn pushed(acc: u64, us: Seq<u16>, lo: int, hi: int) -> u64
    decreases hi - lo,
{
    if hi <= lo {
        acc
    } else {
        (pushed(acc, us, lo, hi - 1) << 15u64) | (unit_value(us[hi - 1]) as u64)
    }
}

/// The bits after the last whole byte are all ones.
pub open spec fn padding_ok(bits: Seq<bool>) -> bool {
    forall|p: int| 8 * (bits.len() / 8) <= p < bits.len() ==> #[trigger] bits[p]
}

/// What decoding the code units `us` gives.
pub open spec fn spec_decode_units(us: Seq<u16>) -> Result<Seq<u8>, DecodeError> {
    if us.len() == 0 {
        Ok(Seq::empty())
    } else if unit_width(us[us.len() - 1]) == 0 {
        Err(unit_error(us[us.len() - 1]))
    } else if strict_error(us) is Some {
        Err(strict_error(us).unwrap())
    } else if !padding_ok(strict_bits(us)) {
        Err(DecodeError::PaddingMismatch)
    } else {
        Ok(bits_to_bytes(strict_bits(us)))
    }
}

/// What decoding text `s` gives.
pub open spec fn spec_decode(s: Seq<char>) -> Result<Seq<u8>, DecodeError> {
    spec_decode_units(utf16_units(s))
}

/// `r` is the executable form of the outcome `s`.
pub open spec fn decoded_as(r: Result<Vec<u8>, DecodeError>, s: Result<Seq<u8>, DecodeError>) -> bool {
    match (r, s) {
        (Ok(v), Ok(w)) => v@ == w,
        (Err(e), Err(f)) => e == f,
        _ => false,
    }
}

/// The 120 bits of eight fifteen-bit values, first value in the top bits.
pub open spec fn pack120(
    v0: u16,
    v1: u16,
    v2: u16,
    v3: u16,
    v4: u16,
    v5: u16,
    v6: u16,
    v7: u16,
) -> u128 {
    ((v0 as u128) << 105u128) | ((v1 as u128) << 90u128) | ((v2 as u128) << 75u128) | ((
    v3 as u128) << 60u128) | ((v4 as u128) << 45u128) | ((v5 as u128) << 30u128) | ((v6 as u128)
        << 15u128) | (v7 as u128)
}

/// `pack120` of the eight values of an array.
pub open spec fn pack_values(v: [u16; 8]) -> u128 {
    pack120(v[0], v[1], v[2], v[3], v[4], v[5], v[6], v[7])
}

// ===========================================================================
// Facts
// ===========================================================================
/// What a recognised unit carries, and how its flag tells the widths apart.
pub proof fn lemma_unit(u: u16)
    ensures
        unit_width(u) == 0 || unit_width(u) == 7 || unit_width(u) == 15,
        unit_width(u) == 15 ==> unit_value(u) < 0x8000 && flagged_value(u) == unit_value(u)
            && flagged_value(u) & 0x8000u16 == 0 && (u as u32) > MAX_7BIT_CODEPOINT,
        unit_width(u) == 7 ==> unit_value(u) < 0x80 && flagged_value(u) & 0x8000u16 != 0
            && flagged_value(u) & 0x7FFFu16 == unit_value(u) && (u as u32) <= MAX_7BIT_CODEPOINT,
        unit_width(u) != 0 ==> (unit_value(u) as u64) >> (unit_width(u) as u64) == 0,
{
    lemma_code_inverse(u as int);
    let v = unit_value(u) as u16;
    let w = unit_width(u) as u64;
    assert((v < 0x8000 ==> v & 0x8000u16 == 0 && (v as u64) >> 15u64 == 0) && (v < 0x80 ==> (v
        | 0x8000u16) & 0x8000u16 != 0 && (v | 0x8000u16) & 0x7FFFu16 == v && (v as u64) >> 7u64
        == 0)) by (bit_vector);
}

proof fn bv_pack_bits(
    v0: u16,
    v1: u16,
    v2: u16,
    v3: u16,
    v4: u16,
    v5: u16,
    v6: u16,
    v7: u16,
    s: u128,
)
    requires
        v0 < 0x8000,
        v1 < 0x8000,
        v2 < 0x8000,
        v3 < 0x8000,
        v4 < 0x8000,
        v5 < 0x8000,
        v6 < 0x8000,
        v7 < 0x8000,
        s < 15,
    ensures
        ubit128(pack120(v0, v1, v2, v3, v4, v5, v6, v7), (105 + s) as u128) == ubit(
            v0 as u64,
            s as u64,
        ),
        ubit128(pack120(v0, v1, v2, v3, v4, v5, v6, v7), (90 + s) as u128) == ubit(
            v1 as u64,
            s as u64,
        ),
        ubit128(pack120(v0, v1, v2, v3, v4, v5, v6, v7), (75 + s) as u128) == ubit(
            v2 as u64,
            s as u64,
        ),
        ubit128(pack120(v0, v1, v2, v3, v4, v5, v6, v7), (60 + s) as u128) == ubit(
            v3 as u64,
            s as u64,
        ),
        ubit128(pack120(v0, v1, v2, v3, v4, v5, v6, v7), (45 + s) as u128) == ubit(
            v4 as u64,
            s as u64,
        ),
        ubit128(pack120(v0, v1, v2, v3, v4, v5, v6, v7), (30 + s) as u128) == ubit(
            v5 as u64,
            s as u64,
        ),
        ubit128(pack120(v0, v1, v2, v3, v4, v5, v6, v7), (15 + s) as u128) == ubit(
            v6 as u64,
            s as u64,
        ),
        ubit128(pack120(v0, v1, v2, v3, v4, v5, v6, v7), s) == ubit(v7 as u64, s as u64),
        pack120(v0, v1, v2, v3, v4, v5, v6, v7) >> 120u128 == 0,
{
    assert(ubit128(pack120(v0, v1, v2, v3, v4, v5, v6, v7), (105 + s) as u128) == ubit(
        v0 as u64,
        s as u64,
    ) && ubit128(pack120(v0, v1, v2, v3, v4, v5, v6, v7), (90 + s) as u128) == ubit(
        v1 as u64,
        s as u64,
    ) && ubit128(pack120(v0, v1, v2, v3, v4, v5, v6, v7), (75 + s) as u128) == ubit(
        v2 as u64,
        s as u64,
    ) && ubit128(pack120(v0, v1, v2, v3, v4, v5, v6, v7), (60 + s) as u128) == ubit(
        v3 as u64,
        s as u64,
    )) by (bit_vector)
        requires
            v0 < 0x8000,
            v1 < 0x8000,
            v2 < 0x8000,
            v3 < 0x8000,
            v4 < 0x8000,
            v5 < 0x8000,
            v6 < 0x8000,
            v7 < 0x8000,
            s < 15,
    ;
    assert(ubit128(pack120(v0, v1, v2, v3, v4, v5, v6, v7), (45 + s) as u128) == ubit(
        v4 as u64,
        s as u64,
    ) && ubit128(pack120(v0, v1, v2, v3, v4, v5, v6, v7), (30 + s) as u128) == ubit(
        v5 as u64,
        s as u64,
    ) && ubit128(pack120(v0, v1, v2, v3, v4, v5, v6, v7), (15 + s) as u128) == ubit(
        v6 as u64,
        s as u64,
    ) && ubit128(pack120(v0, v1, v2, v3, v4, v5, v6, v7), s) == ubit(v7 as u64, s as u64)
        && pack120(v0, v1, v2, v3, v4, v5, v6, v7) >> 120u128 == 0) by (bit_vector)
        requires
            v0 < 0x8000,
            v1 < 0x8000,
            v2 < 0x8000,
            v3 < 0x8000,
            v4 < 0x8000,
            v5 < 0x8000,
            v6 < 0x8000,
            v7 < 0x8000,
            s < 15,
    ;
}

/// Bit `119 - p` of the packed values is bit `p` of the eight values read in
/// order, most significant first.
pub proof fn lemma_pack_bit(v: [u16; 8], p: int)
    requires
        forall|k: int| 0 <= k < 8 ==> #[trigger] v[k] < 0x8000,
        0 <= p < 120,
    ensures
        ubit128(pack_values(v), (119 - p) as u128) == ubit(v[p / 15] as u64, (14 - p % 15) as u64),
        pack_values(v) >> 120u128 == 0,
{
    let k = p / 15;
    let s = (14 - p % 15) as u128;
    assert(v[0] < 0x8000 && v[1] < 0x8000 && v[2] < 0x8000 && v[3] < 0x8000);
    assert(v[4] < 0x8000 && v[5] < 0x8000 && v[6] < 0x8000 && v[7] < 0x8000);
    bv_pack_bits(v[0], v[1], v[2], v[3], v[4], v[5], v[6], v[7], s);
    assert(119 - p == 15 * (7 - k) + s);
}

/// `first_offending` finds the first unit that is not fifteen-bit, or says
/// that there is none.
pub proof fn lemma_first_offending(us: Seq<u16>, lo: int, hi: int)
    requires
        lo <= hi,
    ensures
        first_offending(us, lo, hi) is None <==> forall|k: int|
            lo <= k < hi ==> #[trigger] unit_width(us[k]) == 15,
        first_offending(us, lo, hi) matches Some(k) ==> lo <= k < hi && unit_width(us[k]) != 15
            && forall|i: int| lo <= i < k ==> #[trigger] unit_width(us[i]) == 15,
    decreases hi - lo,
{
    if lo < hi {
        lemma_first_offending(us, lo + 1, hi);
        if unit_width(us[lo]) == 15 {
            assert forall|k: int| lo + 1 <= k < hi && (forall|i: int|
                lo <= i < hi ==> #[trigger] unit_width(us[i]) == 15) implies #[trigger] unit_width(
                us[k],
            ) == 15 by {}
        }
    }
}

/// The search over `lo .. hi` meets `lo .. mid` first: what it finds there,
/// or else what it finds over `mid .. hi`.
pub proof fn lemma_first_offending_split(us: Seq<u16>, lo: int, mid: int, hi: int)
    requires
        lo <= mid <= hi,
    ensures
        first_offending(us, lo, mid) is Some ==> first_offending(us, lo, hi) == first_offending(
            us,
            lo,
            mid,
        ),
        first_offending(us, lo, mid) is None ==> first_offending(us, lo, hi) == first_offending(
            us,
            mid,
            hi,
        ),
    decreases mid - lo,
{
    if lo < mid {
        lemma_first_offending_split(us, lo + 1, mid, hi);
    }
}

/// A unit that is not fifteen-bit, after fifteen-bit ones only, is the first offending one.
pub proof fn lemma_first_offending_at(us: Seq<u16>, lo: int, k: int, hi: int)
    requires
        lo <= k < hi,
        forall|i: int| lo <= i < k ==> #[trigger] unit_width(us[i]) == 15,
        unit_width(us[k]) != 15,
    ensures
        first_offending(us, lo, hi) == Some(k),
{
    lemma_first_offending(us, lo, k);
    lemma_first_offending_split(us, lo, k, hi);
}

/// `first_unknown` finds the first unrecognised unit, or says that there is none.
pub proof fn lemma_first_unknown(us: Seq<u16>, lo: int, hi: int)
    requires
        lo <= hi,
    ensures
        first_unknown(us, lo, hi) is None <==> forall|k: int|
            lo <= k < hi ==> #[trigger] unit_width(us[k]) != 0,
        first_unknown(us, lo, hi) matches Some(k) ==> lo <= k < hi && unit_width(us[k]) == 0,
    decreases hi - lo,
{
    if lo < hi {
        lemma_first_unknown(us, lo + 1, hi);
        if unit_width(us[lo]) != 0 {
            assert forall|k: int| lo + 1 <= k < hi && (forall|i: int|
                lo <= i < hi ==> #[trigger] unit_width(us[i]) != 0) implies #[trigger] unit_width(
                us[k],
            ) != 0 by {}
        }
    }
}

/// An unrecognised unit, after recognised ones only, is the first unrecognised one.
pub proof fn lemma_first_unknown_at(us: Seq<u16>, lo: int, k: int, hi: int)
    requires
        lo <= k < hi,
        forall|i: int| lo <= i < k ==> #[trigger] unit_width(us[i]) != 0,
        unit_width(us[k]) == 0,
    ensures
        first_unknown(us, lo, hi) == Some(k),
    decreases k - lo,
{
    if lo < k {
        lemma_first_unknown_at(us, lo + 1, k, hi);
    }
}

/// A group is accepted exactly when all its units are fifteen-bit.
pub proof fn lemma_group_wide(us: Seq<u16>, lo: int, hi: int)
    requires
        lo <= hi,
    ensures
        group_error(us, lo, hi) is None <==> forall|k: int|
            lo <= k < hi ==> #[trigger] unit_width(us[k]) == 15,
{
    lemma_first_unknown(us, lo, hi);
    lemma_first_offending(us, lo, hi);
}

/// A run of groups is accepted exactly when all its units are fifteen-bit.
pub proof fn lemma_groups_wide(us: Seq<u16>, lo: int, count: int, size: int)
    requires
        0 <= count,
        1 <= size,
    ensures
        groups_error(us, lo, count, size) is None <==> forall|k: int|
            lo <= k < lo + count * size ==> #[trigger] unit_width(us[k]) == 15,
    decreases count,
{
    if count > 0 {
        lemma_group_wide(us, lo, lo + size);
        lemma_groups_wide(us, lo + size, count - 1, size);
        assert(lo + count * size == lo + size + (count - 1) * size) by (nonlinear_arith);
        assert(lo + size <= lo + count * size) by (nonlinear_arith)
            requires
                count >= 1,
                size >= 1,
        ;
        if groups_error(us, lo, count, size) is None {
            assert forall|k: int| lo <= k < lo + count * size implies #[trigger] unit_width(us[k])
                == 15 by {
                if k < lo + size {
                }
            }
        }
    }
}

/// The units before the last are accepted exactly when all are fifteen-bit.
pub proof fn lemma_strict_error_wide(us: Seq<u16>)
    requires
        us.len() >= 1,
    ensures
        strict_error(us) is None <==> forall|k: int|
            0 <= k < us.len() - 1 ==> #[trigger] unit_width(us[k]) == 15,
{
    let m = us.len() - 1;
    let f = fast_path_end(m);
    let mp = medium_pairs(m, f);
    let s2 = f + 2 * mp;
    assert(f == (f / 8) * 8 && f <= m && f >= 0) by (nonlinear_arith)
        requires
            f == (m / 8) * 8,
            m >= 0,
    ;
    assert(f <= s2 <= m);
    lemma_groups_wide(us, 0, f / 8, 8);
    lemma_groups_wide(us, f, mp, 2);
    lemma_groups_wide(us, s2, m - s2, 1);
    if strict_error(us) is None {
        assert forall|k: int| 0 <= k < m implies #[trigger] unit_width(us[k]) == 15 by {
            if k < f {
            } else if k < s2 {
            } else {
            }
        }
    }
}

/// The fifteen bits of each unit of `lo .. hi`, read bit by bit.
pub proof fn lemma_unit_bits(us: Seq<u16>, lo: int, hi: int)
    requires
        lo <= hi,
    ensures
        unit_bits(us, lo, hi).len() == 15 * (hi - lo),
        forall|p: int|
            0 <= p < 15 * (hi - lo) ==> #[trigger] unit_bits(us, lo, hi)[p] == ubit(
                unit_value(us[lo + p / 15]) as u64,
                (14 - p % 15) as u64,
            ),
    decreases hi - lo,
{
    if lo < hi {
        lemma_unit_bits(us, lo, hi - 1);
        let d = hi - 1 - lo;
        assert forall|p: int| 0 <= p < 15 * (hi - lo) implies #[trigger] unit_bits(us, lo, hi)[p]
            == ubit(unit_value(us[lo + p / 15]) as u64, (14 - p % 15) as u64) by {
            if p >= 15 * d {
                let q = p - 15 * d;
                assert(p / 15 == d && p % 15 == q) by (nonlinear_arith)
                    requires
                        p == 15 * d + q,
                        0 <= q < 15,
                ;
            }
        }
    }
}

/// Bit `14 - t` of unit `k`'s fifteen is bit `t` of its value.
pub proof fn lemma_unit_bits_at(us: Seq<u16>, lo: int, hi: int, k: int, t: int)
    requires
        lo <= k < hi,
        0 <= t < 15,
    ensures
        unit_bits(us, lo, hi)[15 * (k - lo) + 14 - t] == ubit(unit_value(us[k]) as u64, t as u64),
{
    lemma_unit_bits(us, lo, hi);
    let p = 15 * (k - lo) + 14 - t;
    assert(p / 15 == k - lo && p % 15 == 14 - t) by (nonlinear_arith)
        requires
            p == 15 * (k - lo) + 14 - t,
            0 <= t < 15,
    ;
}

/// The bits of units `lo .. mid` begin the bits of units `lo .. hi`.
pub proof fn lemma_unit_bits_prefix(us: Seq<u16>, lo: int, mid: int, hi: int)
    requires
        lo <= mid <= hi,
    ensures
        forall|p: int|
            0 <= p < 15 * (mid - lo) ==> #[trigger] unit_bits(us, lo, hi)[p] == unit_bits(
                us,
                lo,
                mid,
            )[p],
{
    lemma_unit_bits(us, lo, mid);
    lemma_unit_bits(us, lo, hi);
}

/// Bit `14 - t` of the fifteen of unit `k`, before the last, in the strict
/// stream is bit `t` of its value.
pub proof fn lemma_strict_at(us: Seq<u16>, k: int, t: int)
    requires
        0 <= k < us.len() - 1,
        0 <= t < 15,
    ensures
        strict_bits(us)[15 * k + 14 - t] == ubit(unit_value(us[k]) as u64, t as u64),
{
    let m = us.len() - 1;
    lemma_unit(us[m]);
    let p = 15 * k + 14 - t;
    assert(p / 15 == k && p % 15 == 14 - t) by (nonlinear_arith)
        requires
            p == 15 * k + 14 - t,
            0 <= t < 15,
    ;
}

/// The bits of units `lo .. hi`, before the last, are a stretch of the strict stream.
pub proof fn lemma_unit_bits_strict(us: Seq<u16>, lo: int, hi: int)
    requires
        0 <= lo <= hi <= us.len() - 1,
    ensures
        unit_bits(us, lo, hi) =~= strict_bits(us).subrange(15 * lo, 15 * hi),
{
    let m = us.len() - 1;
    lemma_unit(us[m]);
    lemma_unit_bits(us, lo, hi);
    assert forall|p: int| 0 <= p < 15 * (hi - lo) implies #[trigger] unit_bits(us, lo, hi)[p]
        == strict_bits(us)[15 * lo + p] by {
        let k = lo + p / 15;
        let t = 14 - p % 15;
        assert(15 * lo + p == 15 * k + 14 - t && 0 <= t < 15 && lo <= k < hi) by (nonlinear_arith)
            requires
                k == lo + p / 15,
                t == 14 - p % 15,
                0 <= p < 15 * (hi - lo),
        ;
        lemma_strict_at(us, k, t);
    }
}

/// The bits of eight fifteen-bit units packed are the last 120 bits of the
/// units read from `s0` up to the end of the group.
proof fn lemma_pack_holds(us: Seq<u16>, v: [u16; 8], s0: int, start: int)
    requires
        s0 <= start,
        forall|k: int| 0 <= k < 8 ==> #[trigger] v[k] as u32 == unit_value(us[start + k]),
        forall|k: int| 0 <= k < 8 ==> #[trigger] unit_width(us[start + k]) == 15,
    ensures
        acc_holds128(pack_values(v), 120, unit_bits(us, s0, start + 8), 15 * (start + 8 - s0)),
{
    let bits = unit_bits(us, s0, start + 8);
    lemma_unit_bits(us, s0, start + 8);
    assert forall|k: int| 0 <= k < 8 implies #[trigger] v[k] < 0x8000 by {
        lemma_unit(us[start + k]);
    }
    assert forall|t: int| 0 <= t < 120 implies #[trigger] ubit128(pack_values(v), t as u128)
        == bits[15 * (start + 8 - s0) - 1 - t] by {
        let p = 119 - t;
        lemma_pack_bit(v, p);
        let k = p / 15;
        let s = 14 - p % 15;
        assert(p == 15 * k + 14 - s && 0 <= k < 8 && 0 <= s < 15) by (nonlinear_arith)
            requires
                k == p / 15,
                s == 14 - p % 15,
                0 <= p < 120,
        ;
        lemma_unit_bits_at(us, s0, start + 8, start + k, s);
        assert(15 * (start + 8 - s0) - 1 - t == 15 * (start + k - s0) + 14 - s);
    }
}

/// Pushing two fifteen-bit values one at a time is pushing their thirty bits at once.
proof fn bv_push_pair(a: u64, x0: u64, x1: u64)
    requires
        x0 < 0x8000,
        x1 < 0x8000,
    ensures
        (((a << 15u64) | x0) << 15u64) | x1 == (a << 30u64) | ((x0 << 15u64) | x1),
{
    assert((((a << 15u64) | x0) << 15u64) | x1 == (a << 30u64) | ((x0 << 15u64) | x1))
        by (bit_vector)
        requires
            x0 < 0x8000,
            x1 < 0x8000,
    ;
}

// ===========================================================================
// Public API
// ===========================================================================
/// Decodes Base32768 text into bytes, refusing text that is not well formed.
///
/// The text is read as UTF-16 code units, so a character outside the Basic
/// Multilingual Plane shows up as two surrogates, each reported as NUL.
#[verifier::rlimit(40)]
pub fn decode(src: &str) -> (r: Result<Vec<u8>, DecodeError>)
    requires
        utf16_units(src@).len() * 15 <= u32::MAX,
    ensures
        decoded_as(r, spec_decode(src@)),
{
    let chars = encode_utf16(src);
    if chars.len() == 0 {
        return Ok(Vec::new());
    }
    let ghost us = chars@;
    let ghost m = us.len() - 1;
    let output_len = match calculate_output_length(&chars) {
        Ok(n) => n,
        Err(e) => return Err(e),
    };
    let mut output: Vec<u8> = vec![0u8; output_len];
    let mut state = DecodeState::new(&chars);
    proof {
        lemma_unit(us[m]);
    }
    match decode_main_loop(&mut state, &chars, output.as_mut_slice()) {
        Ok(()) => {},
        Err(e) => return Err(e),
    }
    let ghost bits = strict_bits(us);
    let ghost acc0 = state.accumulator;
    let ghost bc0 = state.bit_count;
    let ghost oi0 = state.out_index;
    let ghost out0 = output@;
    match decode_last_char(&mut state, &chars, output.as_mut_slice()) {
        Ok(()) => {},
        Err(e) => return Err(e),
    }
    let ghost total = total_bits(us);
    proof {
        let w = unit_width(us[m]);
        let x = unit_value(us[m]) as u64;
        let n = bc0 + w;
        assert forall|t: int| 0 <= t < w implies #[trigger] ubit(x, t as u64) == bits[15 * m + w
            - 1 - t] by {}
        lemma_acc_push(acc0, bc0 as nat, x, w as nat, bits, 15 * m);
        assert(8 * oi0 + n == total);
        assert(n / 8 == output@.len() - oi0);
        assert forall|j: int| 0 <= j < output@.len() implies #[trigger] output@[j] == byte_at(
            bits,
            j,
        ) by {
            if j < oi0 {
                assert(output@[j] == out0[j]);
            } else {
                lemma_top_byte(state.accumulator, n as nat, bits, total, j - oi0);
                assert(output@[oi0 + (j - oi0)] == output@[j]);
            }
        }
        lemma_holds_fewer(state.accumulator, n as nat, state.bit_count as nat, bits, total);
    }
    match validate_padding(&state) {
        Ok(()) => {},
        Err(e) => {
            proof {
                let acc = state.accumulator;
                let nb = state.bit_count as u64;
                bv_padding_mask(acc, nb);
                let t0 = choose|t: int| 0 <= t < nb && !#[trigger] ubit(acc, t as u64);
                assert(!bits[bits.len() - 1 - t0]);
                assert(!padding_ok(bits));
            }
            return Err(e);
        },
    }
    proof {
        let acc = state.accumulator;
        let nb = state.bit_count as u64;
        bv_padding_mask(acc, nb);
        assert forall|p: int| 8 * (bits.len() / 8) <= p < bits.len() implies #[trigger] bits[p] by {
            let t = bits.len() - 1 - p;
            assert(ubit(acc, t as u64));
        }
        assert(output@ =~= bits_to_bytes(bits));
    }
    Ok(output)
}

/// For fewer than eight bits, the mask test on the low bits is the test of each bit.
proof fn bv_padding_mask(acc: u64, n: u64)
    requires
        n < 8,
    ensures
        (n == 0 || acc & (((1u64 << n) - 1u64) as u64) == (((1u64 << n) - 1u64) as u64))
            <==> forall|t: int| 0 <= t < n ==> #[trigger] ubit(acc, t as u64),
{
    assert(1 <= n < 8 ==> ((acc & (((1u64 << n) - 1u64) as u64)) == (((1u64 << n) - 1u64) as u64)
        <==> (ubit(acc, 0) && (n > 1 ==> ubit(acc, 1)) && (n > 2 ==> ubit(acc, 2)) && (n > 3
        ==> ubit(acc, 3)) && (n > 4 ==> ubit(acc, 4)) && (n > 5 ==> ubit(acc, 5)) && (n > 6
        ==> ubit(acc, 6))))) by (bit_vector);
    if n == 0 || acc & (((1u64 << n) - 1u64) as u64) == (((1u64 << n) - 1u64) as u64) {
        assert forall|t: int| 0 <= t < n implies #[trigger] ubit(acc, t as u64) by {
            if t == 0 {
            } else if t == 1 {
            } else if t == 2 {
            } else if t == 3 {
            } else if t == 4 {
            } else if t == 5 {
            } else {
            }
        }
    } else {
        let t0: int = if !ubit(acc, 0) {
            0
        } else if !ubit(acc, 1) {
            1
        } else if !ubit(acc, 2) {
            2
        } else if !ubit(acc, 3) {
            3
        } else if !ubit(acc, 4) {
            4
        } else if !ubit(acc, 5) {
            5
        } else {
            6
        };
        assert(0 <= t0 < n && !ubit(acc, t0 as u64));
    }
}

// ===========================================================================
// Decoder state
// ===========================================================================
/// Where decoding stands.
struct DecodeState {
    /// The next unit to read.
    src_index: usize,
    /// The next byte to write.
    out_index: usize,
    /// Bits read but not yet written, in its low `bit_count` bits.
    accumulator: u64,
    /// How many bits the accumulator holds.
    bit_count: u32,
    /// The number of units before the last one.
    chars_before_last: usize,
}

impl DecodeState {
    fn new(chars: &[u16]) -> (st: Self)
        ensures
            st.src_index == 0,
            st.out_index == 0,
            st.accumulator == 0,
            st.bit_count == 0,
            st.chars_before_last == sat_pred(chars@.len() as int),
    {
        Self {
            src_index: 0,
            out_index: 0,
            accumulator: 0,
            bit_count: 0,
            chars_before_last: chars.len().saturating_sub(1),
        }
    }
}

// ===========================================================================
// Output length
// ===========================================================================
/// The number of bytes a text of units `chars` decodes to; the last unit
/// must be recognised.
fn calculate_output_length(chars: &[u16]) -> (r: Result<usize, DecodeError>)
    requires
        chars@.len() >= 1,
        chars@.len() * 15 <= u32::MAX,
    ensures
        unit_width(chars@[chars@.len() - 1]) == 0 ==> r == Err::<usize, DecodeError>(
            unit_error(chars@[chars@.len() - 1]),
        ),
        unit_width(chars@[chars@.len() - 1]) != 0 ==> r == Ok::<usize, DecodeError>(
            (total_bits(chars@) / 8) as usize,
        ),
{
    let n = chars.len();
    let last_char = chars[n - 1] as u32;
    let last_bits = match get_char_bit_width(last_char) {
        Ok(b) => b,
        Err(e) => return Err(e),
    };
    proof {
        lemma_unit(chars@[n - 1]);
    }
    let is_7bit_final = last_char <= MAX_7BIT_CODEPOINT;
    let total_bits = if is_7bit_final {
        (n as u32 - 1) * BITS_PER_CHAR + last_bits
    } else {
        n as u32 * BITS_PER_CHAR
    };
    Ok((total_bits / 8) as usize)
}

/// The width code point `codepoint` carries, or why it carries none.
fn get_char_bit_width(codepoint: u32) -> (r: Result<u32, DecodeError>)
    ensures
        code_width(codepoint as int) == 0 ==> r == Err::<u32, DecodeError>(
            DecodeError::UnrecognizedCharacter(code_char(codepoint)),
        ),
        code_width(codepoint as int) != 0 ==> r == Ok::<u32, DecodeError>(
            code_width(codepoint as int),
        ),
{
    if codepoint >= 0x10000 {
        proof {
            lemma_code_inverse(codepoint as int);
        }
        return Err(DecodeError::UnrecognizedCharacter(character_of(codepoint)));
    }
    let (bits, _value) = lookup(codepoint);
    if bits == 0 {
        return Err(DecodeError::UnrecognizedCharacter(character_of(codepoint)));
    }
    Ok(bits)
}

/// The value of one code unit, with `SEVEN_BIT_FLAG` set for a seven-bit one.
fn decode_char(char_code: u16) -> (r: Result<u16, DecodeError>)
    ensures
        unit_width(char_code) == 0 ==> r == Err::<u16, DecodeError>(unit_error(char_code)),
        unit_width(char_code) != 0 ==> r == Ok::<u16, DecodeError>(flagged_value(char_code)),
{
    let (bits, value) = lookup(char_code as u32);
    if bits == 0 {
        return Err(DecodeError::UnrecognizedCharacter(character_of(char_code as u32)));
    }
    proof {
        lemma_code_inverse(char_code as int);
    }
    if bits == 7 {
        Ok((value as u16) | SEVEN_BIT_FLAG)
    } else {
        Ok(value as u16)
    }
}

// ===========================================================================
// Main loop
// ===========================================================================
/// Reads every unit but the last: eight at a time, then two at a time, then
/// the one left, if any.
#[verifier::rlimit(60)]
fn decode_main_loop(state: &mut DecodeState, chars: &[u16], output: &mut [u8]) -> (r: Result<
    (),
    DecodeError,
>)
    requires
        chars@.len() >= 1,
        chars@.len() * 15 <= u32::MAX,
        unit_width(chars@[chars@.len() - 1]) != 0,
        old(state).src_index == 0,
        old(state).out_index == 0,
        old(state).accumulator == 0,
        old(state).bit_count == 0,
        old(state).chars_before_last == chars@.len() - 1,
        old(output)@.len() == total_bits(chars@) / 8,
    ensures
        final(output)@.len() == old(output)@.len(),
        final(state).chars_before_last == old(state).chars_before_last,
        match strict_error(chars@) {
            Some(e) => r == Err::<(), DecodeError>(e),
            None => {
                &&& r is Ok
                &&& 8 * final(state).out_index + final(state).bit_count == 15 * (chars@.len() - 1)
                &&& final(state).bit_count < 8
                &&& final(state).out_index <= final(output)@.len()
                &&& acc_holds(
                    final(state).accumulator,
                    final(state).bit_count as nat,
                    strict_bits(chars@),
                    15 * (chars@.len() - 1),
                )
                &&& forall|j: int|
                    0 <= j < final(state).out_index ==> #[trigger] final(output)@[j] == byte_at(
                        strict_bits(chars@),
                        j,
                    )
            },
        },
{
    let ghost us = chars@;
    let ghost m = us.len() - 1;
    let ghost bits = strict_bits(us);
    let ghost len = output@.len();
    let ghost f = fast_path_end(m);
    let ghost g = fast_groups(m, 0);
    proof {
        lemma_unit(us[m]);
        assert(f % 8 == 0 && f <= m && m - f < 8 && (f > 0 ==> g == f / 8) && (f == 0 ==> g == 0)
            && 8 * g == f) by (nonlinear_arith)
            requires
                f == (m / 8) * 8,
                m >= 0,
                g == (if 0 < f {
                    (f - 0) / 8
                } else {
                    0
                }),
        ;
        assert(8 * len >= 15 * m) by (nonlinear_arith)
            requires
                len == (15 * m + unit_width(us[m])) / 8,
                unit_width(us[m]) >= 7,
                m >= 0,
        ;
    }
    // the fast path: eight units at a time
    match decode_fast_path_8chars(state, chars, output) {
        Ok(()) => {},
        Err(e) => return Err(e),
    }
    let ghost out1 = output@;
    proof {
        lemma_unit_bits_strict(us, 0, f);
        assert forall|j: int| 0 <= j < state.out_index implies #[trigger] out1[j] == byte_at(bits, j) by {
            assert(out1[0 + j] == byte_at(unit_bits(us, 0, f), j));
            lemma_byte_at_subrange(bits, 0, 15 * f, j);
        }
    }
    // the medium path: two units at a time
    let ghost oi1 = state.out_index;
    let ghost mp = medium_pairs(m, f);
    let ghost lim = sat_pred(m);
    proof {
        assert(30 * mp <= 15 * (m - f));
    }
    match decode_medium_path_2chars(state, chars, output) {
        Ok(()) => {},
        Err(e) => return Err(e),
    }
    let ghost s2 = f + 2 * mp;
    let ghost out2 = output@;
    proof {
        assert(s2 == m || s2 == m - 1);
        lemma_unit_bits_strict(us, f, s2);
        let sub = unit_bits(us, f, s2);
        assert(value_bits(0u64, 0) + sub =~= sub);
        assert(8 * oi1 == 15 * f);
        assert forall|j: int| 0 <= j < state.out_index implies #[trigger] out2[j] == byte_at(bits, j) by {
            if j < oi1 {
                assert(out2[j] == out1[j]);
            } else {
                assert(out2[oi1 + (j - oi1)] == byte_at(sub, j - oi1));
                lemma_byte_at_subrange(bits, 15 * f, 15 * s2, j - oi1);
            }
        }
        assert forall|t: int| 0 <= t < state.bit_count implies #[trigger] ubit(
            state.accumulator,
            t as u64,
        ) == bits[15 * s2 - 1 - t] by {
            assert(sub[15 * (s2 - f) - 1 - t] == bits[15 * f + (15 * (s2 - f) - 1 - t)]);
        }
    }
    // the one unit left before the last, if any
    let ghost acc2 = state.accumulator;
    let ghost bc2 = state.bit_count;
    let ghost oi2 = state.out_index;
    proof {
        assert forall|k: int| 0 <= k < s2 implies #[trigger] unit_width(us[k]) == 15 by {
            if k < f {
            } else {
            }
        }
    }
    match decode_remaining_single_char(state, chars, output) {
        Ok(()) => {},
        Err(e) => return Err(e),
    }
    proof {
        if s2 == m - 1 {
            let n = bc2 + 15;
            let x = unit_value(us[s2]) as u64;
            lemma_unit(us[s2]);
            assert forall|t: int| 0 <= t < 15 implies #[trigger] ubit(x, t as u64) == bits[15 * s2
                + 15 - 1 - t] by {
                lemma_strict_at(us, s2, t);
            }
            lemma_acc_push(acc2, bc2 as nat, x, 15, bits, 15 * s2);
            assert(n / 8 <= len - oi2);
            assert forall|j: int| 0 <= j < state.out_index implies #[trigger] output@[j] == byte_at(
                bits,
                j,
            ) by {
                if j < oi2 {
                    assert(output@[j] == out2[j]);
                } else {
                    lemma_top_byte(state.accumulator, n as nat, bits, 15 * m, j - oi2);
                    assert(output@[oi2 + (j - oi2)] == output@[j]);
                }
            }
            lemma_holds_fewer(state.accumulator, n as nat, state.bit_count as nat, bits, 15 * m);
            assert forall|k: int| 0 <= k < m implies #[trigger] unit_width(us[k]) == 15 by {
                if k < s2 {
                }
            }
        }
        lemma_strict_error_wide(us);
    }
    Ok(())
}

// ===========================================================================
// Fast path: eight units at a time
// ===========================================================================
/// Where the bytes the fast path has written end, after `t` groups from
/// `oi0` into an output of `len` bytes: each group writes its first eight
/// bytes where they fit and all fifteen where those fit.
pub open spec fn fast_written_end(oi0: int, t: int, len: int) -> int {
    if oi0 + 15 * t <= len {
        oi0 + 15 * t
    } else if len < oi0 {
        oi0
    } else if oi0 + 15 * ((len - oi0) / 15) + 8 <= len {
        oi0 + 15 * ((len - oi0) / 15) + 8
    } else {
        oi0 + 15 * ((len - oi0) / 15)
    }
}

/// How the end of what the fast path has written moves with one more group.
proof fn lemma_fast_written_step(oi0: int, i: int, len: int)
    requires
        0 <= oi0,
        0 <= i,
    ensures
        oi0 <= fast_written_end(oi0, i, len) <= oi0 + 15 * i,
        oi0 + 15 * i + 15 <= len ==> fast_written_end(oi0, i, len) == oi0 + 15 * i
            && fast_written_end(oi0, i + 1, len) == oi0 + 15 * i + 15,
        oi0 + 15 * i + 8 <= len < oi0 + 15 * i + 15 ==> fast_written_end(oi0, i, len) == oi0 + 15
            * i && fast_written_end(oi0, i + 1, len) == oi0 + 15 * i + 8,
        len < oi0 + 15 * i + 8 ==> fast_written_end(oi0, i + 1, len) == fast_written_end(
            oi0,
            i,
            len,
        ),
{
    let d = (len - oi0) / 15;
    if len >= oi0 {
        assert(0 <= d && 15 * d <= len - oi0 < 15 * d + 15) by (nonlinear_arith)
            requires
                d == (len - oi0) / 15,
                len >= oi0,
        ;
        assert(oi0 + 15 * i <= len ==> d >= i) by (nonlinear_arith)
            requires
                15 * d <= len - oi0 < 15 * d + 15,
        ;
        assert(len < oi0 + 15 * i + 15 ==> d <= i) by (nonlinear_arith)
            requires
                15 * d <= len - oi0 < 15 * d + 15,
        ;
        assert(len < oi0 + 15 * i ==> d + 1 <= i) by (nonlinear_arith)
            requires
                15 * d <= len - oi0 < 15 * d + 15,
        ;
    }
}

/// Reads units in groups of eight, up to the last multiple of eight before
/// `chars_before_last`, writing fifteen bytes for each group; it stops at the
/// first group with a unit that is not fifteen-bit.
///
/// The accumulator is not touched: each group fills whole bytes.
fn decode_fast_path_8chars(state: &mut DecodeState, chars: &[u16], output: &mut [u8]) -> (r:
    Result<(), DecodeError>)
    requires
        old(state).src_index % 8 == 0,
        fast_path_end(old(state).chars_before_last as int) <= chars@.len(),
        old(state).out_index + 15 * fast_groups(
            old(state).chars_before_last as int,
            old(state).src_index as int,
        ) <= usize::MAX,
    ensures
        ({
            let us = chars@;
            let s0 = old(state).src_index as int;
            let oi0 = old(state).out_index as int;
            let g = fast_groups(old(state).chars_before_last as int, s0);
            let t = groups_done(us, s0, g, 8);
            let w = fast_written_end(oi0, t, old(output)@.len() as int);
            &&& r == err_result(groups_error(us, s0, g, 8))
            &&& 0 <= t <= g
            &&& r is Ok ==> t == g
            &&& forall|k: int| s0 <= k < s0 + 8 * t ==> #[trigger] unit_width(us[k]) == 15
            &&& final(state).src_index == s0 + 8 * t
            &&& final(state).out_index == oi0 + 15 * t
            &&& final(state).accumulator == old(state).accumulator
            &&& final(state).bit_count == old(state).bit_count
            &&& final(state).chars_before_last == old(state).chars_before_last
            &&& final(output)@.len() == old(output)@.len()
            &&& forall|j: int|
                0 <= j < w - oi0 ==> #[trigger] final(output)@[oi0 + j] == byte_at(
                    unit_bits(us, s0, s0 + 8 * t),
                    j,
                )
            &&& forall|i: int|
                0 <= i < old(output)@.len() && !(oi0 <= i < w) ==> #[trigger] final(output)@[i]
                    == old(output)@[i]
        }),
{
    let ghost us = chars@;
    let ghost s0 = state.src_index as int;
    let ghost oi0 = state.out_index as int;
    let ghost out0 = output@;
    let ghost cbl = state.chars_before_last as int;
    let ghost g = fast_groups(cbl, s0);
    let ghost hi = s0 + 8 * g;
    let fast_end = state.chars_before_last & !7usize;
    proof {
        let c = state.chars_before_last;
        assert(c & !7usize == (c / 8) * 8) by (bit_vector);
        assert((s0 < fast_path_end(cbl) ==> hi == fast_path_end(cbl)) && (s0 >= fast_path_end(cbl)
            ==> g == 0) && (s0 < fast_path_end(cbl) <==> 0 < g)) by (nonlinear_arith)
            requires
                s0 % 8 == 0,
                s0 >= 0,
                cbl >= 0,
                fast_path_end(cbl) == (cbl / 8) * 8,
                g == (if s0 < fast_path_end(cbl) {
                    (fast_path_end(cbl) - s0) / 8
                } else {
                    0
                }),
                hi == s0 + 8 * g,
        ;
    }
    let ghost mut i: int = 0;
    while state.src_index < fast_end
        invariant
            us == chars@,
            0 <= i <= g,
            hi == s0 + 8 * g,
            g == 0 || hi == fast_end,
            fast_end == fast_path_end(old(state).chars_before_last as int),
            (state.src_index < fast_end) == (i < g),
            fast_end <= chars@.len(),
            state.src_index == s0 + 8 * i,
            state.out_index == oi0 + 15 * i,
            oi0 + 15 * g <= usize::MAX,
            0 <= oi0,
            state.accumulator == old(state).accumulator,
            state.bit_count == old(state).bit_count,
            state.chars_before_last == old(state).chars_before_last,
            s0 == old(state).src_index,
            oi0 == old(state).out_index,
            out0 == old(output)@,
            g == fast_groups(old(state).chars_before_last as int, s0),
            groups_error(us, s0, g, 8) == groups_error(us, s0 + 8 * i, g - i, 8),
            groups_done(us, s0, g, 8) == i + groups_done(us, s0 + 8 * i, g - i, 8),
            output@.len() == out0.len(),
            forall|k: int| s0 <= k < s0 + 8 * i ==> #[trigger] unit_width(us[k]) == 15,
            forall|j: int|
                0 <= j < fast_written_end(oi0, i, out0.len() as int) - oi0 ==> #[trigger] output@[oi0
                    + j] == byte_at(unit_bits(us, s0, s0 + 8 * i), j),
            forall|q: int|
                0 <= q < out0.len() && !(oi0 <= q < fast_written_end(oi0, i, out0.len() as int))
                    ==> #[trigger] output@[q] == out0[q],
        decreases g - i,
    {
        let start = state.src_index;
        let values = match decode_8_chars(chars, start) {
            Ok(v) => v,
            Err(e) => return Err(e),
        };
        match validate_no_7bit_flag(&values, start) {
            Ok(()) => {},
            Err(e) => {
                proof {
                    let k = choose|k: int|
                        0 <= k < 8 && values[k] & 0x8000u16 != 0 && (forall|q: int|
                            0 <= q < k ==> #[trigger] values[q] & 0x8000u16 == 0) && e
                            == DecodeError::UnexpectedSecondaryCharacter((start + k) as usize);
                    lemma_first_unknown(us, start as int, start + 8);
                    assert forall|q: int| start <= q < start + k implies #[trigger] unit_width(us[q])
                        == 15 by {
                        assert(values[q - start] & 0x8000u16 == 0);
                        lemma_unit(us[start + (q - start)]);
                    }
                    lemma_unit(us[start + k]);
                    lemma_first_offending_at(us, start as int, start + k, start + 8);
                }
                return Err(e);
            },
        }
        proof {
            lemma_first_unknown(us, start as int, start + 8);
            assert forall|k: int| 0 <= k < 8 implies #[trigger] unit_width(us[start + k]) == 15
                && values[k] as u32 == unit_value(us[start + k]) && values[k] < 0x8000 by {
                lemma_unit(us[start + k]);
                assert(values[k] & 0x8000u16 == 0);
                assert(values[k] == flagged_value(us[start + k]));
                assert(unit_width(us[start + k]) != 0);
            }
            assert forall|q: int| start <= q < start + 8 implies #[trigger] unit_width(us[q]) == 15 by {
                assert(unit_width(us[start + (q - start)]) == 15);
            }
            lemma_group_wide(us, start as int, start + 8);
        }
        let oi = state.out_index;
        let ghost len = out0.len() as int;
        let ghost before = output@;
        write_15_bytes_from_8_values(&values, output, oi);
        proof {
            let both = oi + 15 <= len;
            let w0 = fast_written_end(oi0, i, len);
            let w1 = fast_written_end(oi0, i + 1, len);
            lemma_fast_written_step(oi0, i, len);
            assert forall|q: int|
                0 <= q < 15 && (if q < 8 {
                    oi + 8 <= len
                } else {
                    oi + 15 <= len
                }) implies #[trigger] output@[oi + q] == ((pack_values(values) >> ((112 - 8 * q)
                as u128)) as u8) by {
                lemma_word_bytes(values, q, both);
            }
            let u1 = unit_bits(us, s0, start + 8);
            lemma_pack_holds(us, values, s0, start as int);
            lemma_unit_bits_prefix(us, s0, start as int, start + 8);
            lemma_unit_bits(us, s0, start as int);
            assert forall|j: int| 0 <= j < w1 - oi0 implies #[trigger] output@[oi0 + j] == byte_at(
                u1,
                j,
            ) by {
                if j < w0 - oi0 {
                    assert(output@[oi0 + j] == before[oi0 + j]);
                    lemma_byte_at_same_prefix(unit_bits(us, s0, start as int), u1, j);
                } else {
                    let q = j - 15 * i;
                    assert(15 * (start - s0) == 8 * (15 * i));
                    lemma_top_byte128(pack_values(values), 120, u1, 15 * (start + 8 - s0), q);
                    assert(output@[oi + q] == output@[oi0 + j]);
                }
            }
            assert forall|q: int| 0 <= q < out0.len() && !(oi0 <= q < w1) implies #[trigger] output@[q]
                == out0[q] by {
                assert(output@[q] == before[q]);
            }
            assert forall|k: int| s0 <= k < s0 + 8 * (i + 1) implies #[trigger] unit_width(us[k])
                == 15 by {
                if k >= start {
                    assert(unit_width(us[start + (k - start)]) == 15);
                }
            }
            i = i + 1;
        }
        state.src_index = start + FAST_PATH_CHARS;
        state.out_index = oi + FAST_PATH_BYTES;
    }
    Ok(())
}

/// The values of units `start .. start + 8`, each with `SEVEN_BIT_FLAG` set
/// where it is seven-bit, or the error of the first unrecognised one.
fn decode_8_chars(chars: &[u16], start: usize) -> (r: Result<[u16; 8], DecodeError>)
    requires
        start + 8 <= chars.len(),
    ensures
        r is Ok <==> first_unknown(chars@, start as int, start + 8) is None,
        r matches Ok(v) ==> forall|k: int| 0 <= k < 8 ==> #[trigger] v[k] == flagged_value(
            chars@[start + k],
        ),
        r matches Err(e) ==> e == unit_error(
            chars@[first_unknown(chars@, start as int, start + 8).unwrap()],
        ),
{
    let ghost us = chars@;
    let mut values = [0u16; 8];
    let mut k: usize = 0;
    while k < 8
        invariant
            us == chars@,
            start + 8 <= chars.len(),
            k <= 8,
            forall|i: int| 0 <= i < k ==> #[trigger] values[i] == flagged_value(us[start + i]),
            forall|i: int| start <= i < start + k ==> #[trigger] unit_width(us[i]) != 0,
        decreases 8 - k,
    {
        match decode_char(chars[start + k]) {
            Ok(v) => {
                values[k] = v;
            },
            Err(e) => {
                proof {
                    lemma_first_unknown_at(us, start as int, start + k, start + 8);
                }
                return Err(e);
            },
        }
        k = k + 1;
    }
    proof {
        lemma_first_unknown(us, start as int, start + 8);
    }
    Ok(values)
}

/// Refuses a group of eight values where one carries `SEVEN_BIT_FLAG`,
/// naming the position of the first such unit; the group starts at `start`.
fn validate_no_7bit_flag(values: &[u16; 8], start: usize) -> (r: Result<(), DecodeError>)
    requires
        start + 8 <= usize::MAX,
    ensures
        r is Ok <==> forall|k: int| 0 <= k < 8 ==> #[trigger] values[k] & 0x8000u16 == 0,
        r matches Err(e) ==> exists|k: int|
            0 <= k < 8 && values[k] & 0x8000u16 != 0 && (forall|q: int|
                0 <= q < k ==> #[trigger] values[q] & 0x8000u16 == 0) && e
                == DecodeError::UnexpectedSecondaryCharacter((start + k) as usize),
{
    let mut k: usize = 0;
    while k < 8
        invariant
            start + 8 <= usize::MAX,
            k <= 8,
            forall|q: int| 0 <= q < k ==> #[trigger] values[q] & 0x8000u16 == 0,
        decreases 8 - k,
    {
        if values[k] & SEVEN_BIT_FLAG != 0 {
            return Err(DecodeError::UnexpectedSecondaryCharacter(start + k));
        }
        k = k + 1;
    }
    Ok(())
}

proof fn bv_split_words(v: [u16; 8])
    requires
        forall|k: int| 0 <= k < 8 ==> #[trigger] v[k] < 0x8000,
    ensures
        ({
            let w0: u64 = ((v[0] as u64) << 49u64) | ((v[1] as u64) << 34u64) | ((v[2] as u64)
                << 19u64) | ((v[3] as u64) << 4u64) | ((v[4] as u64) >> 11u64);
            let w1: u64 = ((w0 & 0xFFu64) << 56u64) | (((v[4] as u64) & 0x7FFu64) << 45u64) | ((
            v[5] as u64) << 30u64) | ((v[6] as u64) << 15u64) | (v[7] as u64);
            &&& w0 == (pack_values(v) >> 56u128) as u64
            &&& w1 == pack_values(v) as u64
        }),
{
    let (v0, v1, v2, v3, v4, v5, v6, v7) = (v[0], v[1], v[2], v[3], v[4], v[5], v[6], v[7]);
    assert(v0 < 0x8000 && v1 < 0x8000 && v2 < 0x8000 && v3 < 0x8000);
    assert(v4 < 0x8000 && v5 < 0x8000 && v6 < 0x8000 && v7 < 0x8000);
    let w0: u64 = ((v0 as u64) << 49u64) | ((v1 as u64) << 34u64) | ((v2 as u64) << 19u64) | ((
    v3 as u64) << 4u64) | ((v4 as u64) >> 11u64);
    let w1: u64 = ((w0 & 0xFFu64) << 56u64) | (((v4 as u64) & 0x7FFu64) << 45u64) | ((v5 as u64)
        << 30u64) | ((v6 as u64) << 15u64) | (v7 as u64);
    assert(w0 == (pack120(v0, v1, v2, v3, v4, v5, v6, v7) >> 56u128) as u64) by (bit_vector)
        requires
            v0 < 0x8000,
            v1 < 0x8000,
            v2 < 0x8000,
            v3 < 0x8000,
            v4 < 0x8000,
            w0 == ((v0 as u64) << 49u64) | ((v1 as u64) << 34u64) | ((v2 as u64) << 19u64) | ((
            v3 as u64) << 4u64) | ((v4 as u64) >> 11u64),
    ;
    assert(w1 == pack120(v0, v1, v2, v3, v4, v5, v6, v7) as u64) by (bit_vector)
        requires
            v0 < 0x8000,
            v1 < 0x8000,
            v2 < 0x8000,
            v3 < 0x8000,
            v4 < 0x8000,
            v5 < 0x8000,
            v6 < 0x8000,
            v7 < 0x8000,
            w0 == ((v0 as u64) << 49u64) | ((v1 as u64) << 34u64) | ((v2 as u64) << 19u64) | ((
            v3 as u64) << 4u64) | ((v4 as u64) >> 11u64),
            w1 == ((w0 & 0xFFu64) << 56u64) | (((v4 as u64) & 0x7FFu64) << 45u64) | ((v5 as u64)
                << 30u64) | ((v6 as u64) << 15u64) | (v7 as u64),
    ;
}

proof fn bv_word_bytes(p: u128, k: u64)
    requires
        k < 8,
    ensures
        ((((p >> 56u128) as u64) >> ((56 - 8 * k) as u64)) as u8) == ((p >> ((112 - 8 * k) as u128))
            as u8),
        (((p as u64) >> ((56 - 8 * k) as u64)) as u8) == ((p >> ((56 - 8 * k) as u128)) as u8),
{
    assert(((((p >> 56u128) as u64) >> ((56 - 8 * k) as u64)) as u8) == ((p >> ((112 - 8 * k)
        as u128)) as u8) && (((p as u64) >> ((56 - 8 * k) as u64)) as u8) == ((p >> ((56 - 8 * k)
        as u128)) as u8)) by (bit_vector)
        requires
            k < 8,
    ;
}

/// The first word `write_15_bytes_from_8_values` writes: the first four
/// values and the top four bits of the fifth.
pub open spec fn first_word(v: [u16; 8]) -> u64 {
    ((v[0] as u64) << 49u64) | ((v[1] as u64) << 34u64) | ((v[2] as u64) << 19u64) | ((v[3] as u64)
        << 4u64) | ((v[4] as u64) >> 11u64)
}

/// The second word: the last byte of the first again, the low eleven bits
/// of the fifth value, and the last three values.
pub open spec fn second_word(v: [u16; 8]) -> u64 {
    ((first_word(v) & 0xFFu64) << 56u64) | (((v[4] as u64) & 0x7FFu64) << 45u64) | ((v[5] as u64)
        << 30u64) | ((v[6] as u64) << 15u64) | (v[7] as u64)
}

/// Byte `q` of the fifteen written from eight values: from the second word
/// where that was written too (`both`), else from the first.
pub open spec fn word_byte(v: [u16; 8], q: int, both: bool) -> u8 {
    if q >= 7 && both {
        (second_word(v) >> ((56 - 8 * (q - 7)) as u64)) as u8
    } else {
        (first_word(v) >> ((56 - 8 * q) as u64)) as u8
    }
}

/// For fifteen-bit values, the bytes of the two words are the bytes of the
/// 120 packed bits.
proof fn lemma_word_bytes(v: [u16; 8], q: int, both: bool)
    requires
        forall|k: int| 0 <= k < 8 ==> #[trigger] v[k] < 0x8000,
        0 <= q < 15,
        q >= 8 ==> both,
    ensures
        word_byte(v, q, both) == ((pack_values(v) >> ((112 - 8 * q) as u128)) as u8),
{
    bv_split_words(v);
    let p = pack_values(v);
    if q >= 7 && both {
        bv_word_bytes(p, (q - 7) as u64);
    } else {
        bv_word_bytes(p, q as u64);
    }
}

/// Writes the fifteen bytes of eight values at `offset`, as two overlapping
/// eight-byte words, the second over the last byte of the first; a word
/// that does not fit is not written.
fn write_15_bytes_from_8_values(values: &[u16; 8], output: &mut [u8], offset: usize)
    requires
        offset + 15 <= usize::MAX,
    ensures
        final(output)@.len() == old(output)@.len(),
        forall|q: int|
            0 <= q < 15 && (if q < 8 {
                offset + 8 <= old(output)@.len()
            } else {
                offset + 15 <= old(output)@.len()
            }) ==> #[trigger] final(output)@[offset + q] == word_byte(
                *values,
                q,
                offset + 15 <= old(output)@.len(),
            ),
        forall|i: int|
            0 <= i < old(output)@.len() && !(offset <= i < offset + 8 && offset + 8
                <= old(output)@.len()) && !(offset + 7 <= i < offset + 15 && offset + 15
                <= old(output)@.len()) ==> #[trigger] final(output)@[i] == old(output)@[i],
{
    let v0 = values[0];
    let v1 = values[1];
    let v2 = values[2];
    let v3 = values[3];
    let v4 = values[4];
    let v5 = values[5];
    let v6 = values[6];
    let v7 = values[7];
    // w0: v0, v1, v2, v3 and the top four bits of v4 = 64 bits
    let w0: u64 = ((v0 as u64) << 49) | ((v1 as u64) << 34) | ((v2 as u64) << 19) | ((v3 as u64)
        << 4) | ((v4 as u64) >> 11);
    // w1: the last byte of w0 again, the low eleven bits of v4, v5, v6, v7
    let w1: u64 = ((w0 & 0xFF) << 56) | (((v4 as u64) & 0x7FF) << 45) | ((v5 as u64) << 30) | ((
    v6 as u64) << 15) | (v7 as u64);
    proof {
        assert(w0 == first_word(*values));
        assert(w1 == second_word(*values));
    }
    let ghost before = output@;
    write_u64_be(output, offset, w0);
    let ghost middle = output@;
    write_u64_be(output, offset + 7, w1);
    proof {
        let both = offset + 15 <= before.len();
        assert forall|q: int|
            0 <= q < 15 && (if q < 8 {
                offset + 8 <= before.len()
            } else {
                offset + 15 <= before.len()
            }) implies #[trigger] output@[offset + q] == word_byte(*values, q, both) by {
            if q >= 7 && both {
                assert(output@[offset + 7 + (q - 7)] == ((w1 >> ((56 - 8 * (q - 7)) as u64)) as u8));
            } else {
                assert(middle[offset + q] == ((w0 >> ((56 - 8 * q) as u64)) as u8));
            }
        }
    }
}

// ===========================================================================
// Medium path: two units at a time
// ===========================================================================
/// The bits the medium path has seen once it has read units `s0 .. src`:
/// those the accumulator held at the start, then fifteen for each unit.
pub open spec fn medium_stream(acc0: u64, bc0: nat, us: Seq<u16>, s0: int, src: int) -> Seq<bool> {
    value_bits(acc0, bc0) + unit_bits(us, s0, src)
}

/// One pair read by the medium path: shifting the pair's thirty bits into the
/// accumulator extends the stream it holds by them, and pushes it two units further.
proof fn lemma_medium_step(
    acc0: u64,
    bc0: int,
    us: Seq<u16>,
    s0: int,
    start: int,
    acc: u64,
    bc: int,
    end: int,
)
    requires
        0 <= bc0 <= 34,
        0 <= bc <= 34,
        s0 <= start,
        start + 2 <= us.len(),
        end == bc0 + 15 * (start - s0),
        acc == pushed(acc0, us, s0, start),
        acc_holds(acc, bc as nat, medium_stream(acc0, bc0 as nat, us, s0, start), end),
        unit_width(us[start]) == 15,
        unit_width(us[start + 1]) == 15,
    ensures
        ({
            let x0 = unit_value(us[start]) as u64;
            let x1 = unit_value(us[start + 1]) as u64;
            let acc1 = (acc << 30u64) | ((x0 << 15u64) | x1);
            let st0 = medium_stream(acc0, bc0 as nat, us, s0, start);
            let st1 = medium_stream(acc0, bc0 as nat, us, s0, start + 2);
            &&& acc1 == pushed(acc0, us, s0, start + 2)
            &&& acc_holds(acc1, (bc + 30) as nat, st1, end + 30)
            &&& st0.len() == end
            &&& st1.len() == end + 30
            &&& forall|q: int| 0 <= q < end ==> #[trigger] st1[q] == st0[q]
        }),
{
    let x0 = unit_value(us[start]) as u64;
    let x1 = unit_value(us[start + 1]) as u64;
    let st0 = medium_stream(acc0, bc0 as nat, us, s0, start);
    let st1 = medium_stream(acc0, bc0 as nat, us, s0, start + 2);
    lemma_unit(us[start]);
    lemma_unit(us[start + 1]);
    lemma_unit_bits(us, s0, start);
    lemma_unit_bits(us, s0, start + 2);
    lemma_unit_bits_prefix(us, s0, start, start + 2);
    assert forall|q: int| 0 <= q < end implies #[trigger] st1[q] == st0[q] by {
        if q >= bc0 {
            assert(unit_bits(us, s0, start + 2)[q - bc0] == unit_bits(us, s0, start)[q - bc0]);
        }
    }
    assert forall|t: int| 0 <= t < bc implies #[trigger] ubit(acc, t as u64) == st1[end - 1 - t] by {
        assert(st1[end - 1 - t] == st0[end - 1 - t]);
    }
    assert forall|t: int| 0 <= t < 15 implies #[trigger] ubit(x0, t as u64) == st1[end + 15 - 1
        - t] by {
        lemma_unit_bits_at(us, s0, start + 2, start, t);
        assert(st1[end + 15 - 1 - t] == unit_bits(us, s0, start + 2)[15 * (start - s0) + 14 - t]);
    }
    assert forall|t: int| 0 <= t < 15 implies #[trigger] ubit(x1, t as u64) == st1[end + 30 - 1
        - t] by {
        lemma_unit_bits_at(us, s0, start + 2, start + 1, t);
        assert(st1[end + 30 - 1 - t] == unit_bits(us, s0, start + 2)[15 * (start + 1 - s0) + 14
            - t]);
    }
    lemma_acc_push(x0, 15, x1, 15, st1, end + 15);
    lemma_push_bound(x0, 15, x1, 15);
    lemma_acc_push(acc, bc as nat, (x0 << 15u64) | x1, 30, st1, end);
    bv_push_pair(acc, x0, x1);
    assert(pushed(acc0, us, s0, start + 1) == (acc << 15u64) | x0);
}

/// Reads units in pairs while at least two are left before
/// `chars_before_last - 1`, shifting thirty bits into the accumulator for
/// each pair and writing every whole byte that fits; it stops at the first
/// pair with a unit that is not fifteen-bit.
fn decode_medium_path_2chars(state: &mut DecodeState, chars: &[u16], output: &mut [u8]) -> (r:
    Result<(), DecodeError>)
    requires
        old(state).bit_count <= 34,
        old(state).out_index <= old(output)@.len(),
        old(state).chars_before_last <= chars@.len(),
        old(state).bit_count + 30 * medium_pairs(
            old(state).chars_before_last as int,
            old(state).src_index as int,
        ) < 8 * (old(output)@.len() - old(state).out_index) + 8,
    ensures
        ({
            let us = chars@;
            let s0 = old(state).src_index as int;
            let oi0 = old(state).out_index as int;
            let bc0 = old(state).bit_count as int;
            let mp = medium_pairs(old(state).chars_before_last as int, s0);
            let t = groups_done(us, s0, mp, 2);
            let n = bc0 + 30 * t;
            let stream = medium_stream(old(state).accumulator, bc0 as nat, us, s0, s0 + 2 * t);
            &&& r == err_result(groups_error(us, s0, mp, 2))
            &&& 0 <= t <= mp
            &&& r is Ok ==> t == mp
            &&& forall|k: int| s0 <= k < s0 + 2 * t ==> #[trigger] unit_width(us[k]) == 15
            &&& final(state).src_index == s0 + 2 * t
            &&& final(state).accumulator == pushed(old(state).accumulator, us, s0, s0 + 2 * t)
            &&& t == 0 ==> final(state).out_index == oi0 && final(state).bit_count == bc0
            &&& t > 0 ==> final(state).out_index == oi0 + n / 8 && final(state).bit_count == n % 8
            &&& final(state).chars_before_last == old(state).chars_before_last
            &&& acc_holds(final(state).accumulator, final(state).bit_count as nat, stream, n)
            &&& final(output)@.len() == old(output)@.len()
            &&& forall|j: int|
                0 <= j < final(state).out_index - oi0 ==> #[trigger] final(output)@[oi0 + j]
                    == byte_at(stream, j)
            &&& forall|i: int|
                0 <= i < old(output)@.len() && !(oi0 <= i < final(state).out_index)
                    ==> #[trigger] final(output)@[i] == old(output)@[i]
        }),
{
    let ghost us = chars@;
    let ghost s0 = state.src_index as int;
    let ghost oi0 = state.out_index as int;
    let ghost acc0 = state.accumulator;
    let ghost bc0 = state.bit_count as int;
    let ghost out0 = output@;
    let ghost mp = medium_pairs(state.chars_before_last as int, s0);
    let limit = state.chars_before_last.saturating_sub(1);
    proof {
        lemma_acc_holds_own(acc0, bc0 as nat);
        lemma_unit_bits(us, s0, s0);
        assert(medium_stream(acc0, bc0 as nat, us, s0, s0) =~= value_bits(acc0, bc0 as nat));
        assert((s0 < limit) == (0 < mp)) by (nonlinear_arith)
            requires
                limit == sat_pred(state.chars_before_last as int),
                mp == (if s0 < limit {
                    (limit - s0 + 1) / 2
                } else {
                    0
                }),
        ;
    }
    let ghost mut i: int = 0;
    while state.src_index < limit
        invariant
            us == chars@,
            s0 == old(state).src_index,
            oi0 == old(state).out_index,
            acc0 == old(state).accumulator,
            bc0 == old(state).bit_count,
            out0 == old(output)@,
            mp == medium_pairs(old(state).chars_before_last as int, s0),
            groups_error(us, s0, mp, 2) == groups_error(us, s0 + 2 * i, mp - i, 2),
            groups_done(us, s0, mp, 2) == i + groups_done(us, s0 + 2 * i, mp - i, 2),
            limit == sat_pred(old(state).chars_before_last as int),
            old(state).chars_before_last <= chars@.len(),
            bc0 <= 34,
            bc0 + 30 * mp < 8 * (out0.len() - oi0) + 8,
            0 <= i <= mp,
            (state.src_index < limit) == (i < mp),
            state.src_index == s0 + 2 * i,
            state.chars_before_last == old(state).chars_before_last,
            state.accumulator == pushed(acc0, us, s0, s0 + 2 * i),
            8 * (state.out_index - oi0) + state.bit_count == bc0 + 30 * i,
            i == 0 ==> state.out_index == oi0 && state.bit_count == bc0,
            i > 0 ==> state.out_index == oi0 + (bc0 + 30 * i) / 8 && state.bit_count == (bc0 + 30
                * i) % 8,
            oi0 <= state.out_index <= out0.len(),
            acc_holds(
                state.accumulator,
                state.bit_count as nat,
                medium_stream(acc0, bc0 as nat, us, s0, s0 + 2 * i),
                bc0 + 30 * i,
            ),
            output@.len() == out0.len(),
            forall|k: int| s0 <= k < s0 + 2 * i ==> #[trigger] unit_width(us[k]) == 15,
            forall|j: int|
                0 <= j < state.out_index - oi0 ==> #[trigger] output@[oi0 + j] == byte_at(
                    medium_stream(acc0, bc0 as nat, us, s0, s0 + 2 * i),
                    j,
                ),
            forall|q: int|
                0 <= q < out0.len() && !(oi0 <= q < state.out_index) ==> #[trigger] output@[q]
                    == out0[q],
        decreases mp - i,
    {
        let start = state.src_index;
        let ghost lo = start as int;
        let v0 = match decode_char(chars[start]) {
            Ok(v) => v,
            Err(e) => {
                proof {
                    lemma_first_unknown_at(us, lo, lo, lo + 2);
                }
                return Err(e);
            },
        };
        let v1 = match decode_char(chars[start + 1]) {
            Ok(v) => v,
            Err(e) => {
                proof {
                    lemma_first_unknown_at(us, lo, lo + 1, lo + 2);
                }
                return Err(e);
            },
        };
        proof {
            lemma_unit(us[lo]);
            lemma_unit(us[lo + 1]);
            lemma_first_unknown(us, lo, lo + 2);
        }
        if v0 & SEVEN_BIT_FLAG != 0 {
            proof {
                lemma_first_offending_at(us, lo, lo, lo + 2);
            }
            return Err(DecodeError::UnexpectedSecondaryCharacter(start));
        }
        if v1 & SEVEN_BIT_FLAG != 0 {
            proof {
                lemma_first_offending_at(us, lo, lo + 1, lo + 2);
            }
            return Err(DecodeError::UnexpectedSecondaryCharacter(start + 1));
        }
        proof {
            lemma_group_wide(us, lo, lo + 2);
        }
        let ghost st0 = medium_stream(acc0, bc0 as nat, us, s0, start as int);
        let ghost st1 = medium_stream(acc0, bc0 as nat, us, s0, start + 2);
        let ghost end = bc0 + 30 * i;
        let ghost bc = state.bit_count as int;
        let ghost oi = state.out_index as int;
        proof {
            lemma_unit(us[start as int]);
            lemma_unit(us[start + 1]);
            lemma_medium_step(acc0, bc0, us, s0, start as int, state.accumulator, bc, end);
        }
        state.accumulator = (state.accumulator << 30) | (((v0 as u64) << 15) | (v1 as u64));
        state.bit_count = state.bit_count + 30;
        let ghost out_mid = output@;
        flush_bytes(state, output);
        state.src_index = start + 2;
        proof {
            let n = bc + 30;
            let acc1 = state.accumulator;
            assert(bc < 8 || i == 0);
            assert(n / 8 <= out0.len() - oi && state.out_index == oi0 + (bc0 + 30 * (i + 1)) / 8
                && state.bit_count == (bc0 + 30 * (i + 1)) % 8) by (nonlinear_arith)
                requires
                    8 * (oi - oi0) + bc == bc0 + 30 * i,
                    n == bc + 30,
                    i + 1 <= mp,
                    bc0 + 30 * mp < 8 * (out0.len() - oi0) + 8,
                    state.out_index == oi + least(n / 8, out0.len() - oi),
                    state.bit_count == n - 8 * least(n / 8, out0.len() - oi),
                    least(n / 8, out0.len() - oi) == if n / 8 <= out0.len() - oi {
                        n / 8
                    } else {
                        out0.len() - oi
                    },
            ;
            assert((s0 + 2 * (i + 1) < limit) == (i + 1 < mp)) by (nonlinear_arith)
                requires
                    mp == (limit - s0 + 1) / 2,
                    s0 < limit,
            ;
            assert forall|j: int| 0 <= j < state.out_index - oi0 implies #[trigger] output@[oi0
                + j] == byte_at(st1, j) by {
                if j < oi - oi0 {
                    assert(output@[oi0 + j] == out_mid[oi0 + j]);
                    lemma_byte_at_same_prefix(st0, st1, j);
                } else {
                    let q = j - (oi - oi0);
                    lemma_top_byte(acc1, n as nat, st1, end + 30, q);
                    assert(output@[oi + q] == output@[oi0 + j]);
                }
            }
            lemma_holds_fewer(acc1, n as nat, state.bit_count as nat, st1, end + 30);
            assert forall|k: int| s0 <= k < s0 + 2 * (i + 1) implies #[trigger] unit_width(us[k])
                == 15 by {
                if k == start {
                } else if k == start + 1 {
                } else {
                }
            }
            assert forall|q: int| 0 <= q < out0.len() && !(oi0 <= q < state.out_index) implies #[trigger] output@[q]
                == out0[q] by {
                assert(output@[q] == out_mid[q]);
            }
            i = i + 1;
        }
    }
    Ok(())
}

/// Writes whole bytes off the top of the accumulator, three at once where
/// they fit and then one at a time, as many as there are and as fit.
fn flush_bytes(state: &mut DecodeState, output: &mut [u8])
    requires
        old(state).bit_count <= 64,
        old(state).out_index <= old(output)@.len(),
    ensures
        ({
            let bc = old(state).bit_count as int;
            let oi = old(state).out_index as int;
            let k = least(bc / 8, old(output)@.len() - oi);
            &&& final(state).out_index == oi + k
            &&& final(state).bit_count == bc - 8 * k
            &&& final(state).src_index == old(state).src_index
            &&& final(state).accumulator == old(state).accumulator
            &&& final(state).chars_before_last == old(state).chars_before_last
            &&& final(output)@.len() == old(output)@.len()
            &&& forall|j: int|
                0 <= j < k ==> #[trigger] final(output)@[oi + j] == ((old(state).accumulator >> ((bc
                    - 8 * (j + 1)) as u64)) as u8)
            &&& forall|i: int|
                0 <= i < old(output)@.len() && !(oi <= i < oi + k) ==> #[trigger] final(output)@[i]
                    == old(output)@[i]
        }),
{
    let ghost acc = state.accumulator;
    let ghost bc0 = state.bit_count as int;
    let ghost oi0 = state.out_index as int;
    let ghost out0 = output@;
    // three bytes at once, where they fit
    if state.bit_count >= 24 && state.out_index < output.len() && output.len() - state.out_index
        >= 3 {
        let oi = state.out_index;
        let bc = state.bit_count;
        output[oi] = (state.accumulator >> (bc - 8)) as u8;
        output[oi + 1] = (state.accumulator >> (bc - 16)) as u8;
        output[oi + 2] = (state.accumulator >> (bc - 24)) as u8;
        state.out_index = oi + 3;
        state.bit_count = bc - 24;
    }
    // then one at a time
    while state.bit_count >= 8 && state.out_index < output.len()
        invariant
            acc == old(state).accumulator,
            bc0 == old(state).bit_count,
            oi0 == old(state).out_index,
            out0 == old(output)@,
            bc0 <= 64,
            state.accumulator == acc,
            state.src_index == old(state).src_index,
            state.chars_before_last == old(state).chars_before_last,
            8 * (state.out_index - oi0) + state.bit_count == bc0,
            oi0 <= state.out_index <= out0.len(),
            output@.len() == out0.len(),
            forall|j: int|
                0 <= j < state.out_index - oi0 ==> #[trigger] output@[oi0 + j] == ((acc >> ((bc0 - 8
                    * (j + 1)) as u64)) as u8),
            forall|i: int|
                0 <= i < out0.len() && !(oi0 <= i < state.out_index) ==> #[trigger] output@[i]
                    == out0[i],
        decreases state.bit_count,
    {
        let oi = state.out_index;
        let bc = state.bit_count;
        output[oi] = (state.accumulator >> (bc - 8)) as u8;
        state.out_index = oi + 1;
        state.bit_count = bc - 8;
    }
}

// ===========================================================================
// The unit left before the last
// ===========================================================================
/// Reads the unit at `src_index` if it stands before `chars_before_last`,
/// shifting its fifteen bits into the accumulator and writing up to two
/// whole bytes that fit. `src_index` is left where it is.
fn decode_remaining_single_char(state: &mut DecodeState, chars: &[u16], output: &mut [u8]) -> (r:
    Result<(), DecodeError>)
    requires
        old(state).src_index < old(state).chars_before_last ==> old(state).src_index
            < chars@.len(),
        old(state).src_index < old(state).chars_before_last && unit_width(
            chars@[old(state).src_index as int],
        ) == 15 ==> old(state).bit_count + 15 <= u32::MAX && (old(state).out_index < old(
            output,
        )@.len() ==> old(state).bit_count <= 56),
    ensures
        ({
            let us = chars@;
            let st = *old(state);
            let s = st.src_index as int;
            let n = st.bit_count + 15;
            let k = least(2, least(n / 8, room(old(output)@.len() as int, st.out_index as int)));
            let acc = (st.accumulator << 15u64) | (unit_value(us[s]) as u64);
            if s >= st.chars_before_last {
                &&& r == Ok::<(), DecodeError>(())
                &&& *final(state) == st
                &&& final(output)@ == old(output)@
            } else if unit_width(us[s]) != 15 {
                &&& r == err_result(group_error(us, s, s + 1))
                &&& *final(state) == st
                &&& final(output)@ == old(output)@
            } else {
                &&& r == Ok::<(), DecodeError>(())
                &&& final(state).accumulator == acc
                &&& final(state).out_index == st.out_index + k
                &&& final(state).bit_count == n - 8 * k
                &&& final(state).src_index == st.src_index
                &&& final(state).chars_before_last == st.chars_before_last
                &&& final(output)@.len() == old(output)@.len()
                &&& forall|j: int|
                    0 <= j < k ==> #[trigger] final(output)@[st.out_index + j] == ((acc >> ((n - 8
                        * (j + 1)) as u64)) as u8)
                &&& forall|i: int|
                    0 <= i < old(output)@.len() && !(st.out_index <= i < st.out_index + k)
                        ==> #[trigger] final(output)@[i] == old(output)@[i]
            }
        }),
{
    if state.src_index >= state.chars_before_last {
        return Ok(());
    }
    let ghost us = chars@;
    let start = state.src_index;
    let ghost lo = start as int;
    let value = match decode_char(chars[start]) {
        Ok(v) => v,
        Err(e) => {
            proof {
                lemma_first_unknown_at(us, lo, lo, lo + 1);
            }
            return Err(e);
        },
    };
    proof {
        lemma_unit(us[lo]);
        lemma_first_unknown(us, lo, lo + 1);
    }
    if value & SEVEN_BIT_FLAG != 0 {
        proof {
            lemma_first_offending_at(us, lo, lo, lo + 1);
        }
        return Err(DecodeError::UnexpectedSecondaryCharacter(start));
    }
    state.accumulator = (state.accumulator << BITS_PER_CHAR) | (value as u64);
    state.bit_count = state.bit_count + BITS_PER_CHAR;
    let ghost oi0 = state.out_index as int;
    let ghost n = state.bit_count as int;
    // at most two bytes
    if state.bit_count >= 8 && state.out_index < output.len() {
        let oi = state.out_index;
        let bc = state.bit_count;
        output[oi] = (state.accumulator >> (bc - 8)) as u8;
        state.out_index = oi + 1;
        state.bit_count = bc - 8;
    }
    if state.bit_count >= 8 && state.out_index < output.len() {
        let oi = state.out_index;
        let bc = state.bit_count;
        output[oi] = (state.accumulator >> (bc - 8)) as u8;
        state.out_index = oi + 1;
        state.bit_count = bc - 8;
    }
    proof {
        let k = state.out_index - oi0;
        assert(k == least(2, least(n / 8, room(output@.len() as int, oi0))));
    }
    Ok(())
}

// ===========================================================================
// The last unit
// ===========================================================================
/// Reads the last unit, shifting its bits into the accumulator, and writes
/// every whole byte that fits.
fn decode_last_char(state: &mut DecodeState, chars: &[u16], output: &mut [u8]) -> (r: Result<
    (),
    DecodeError,
>)
    requires
        chars@.len() >= 1,
        unit_width(chars@[chars@.len() - 1]) != 0 ==> old(state).bit_count + unit_width(
            chars@[chars@.len() - 1],
        ) <= u32::MAX && (old(state).out_index < old(output)@.len() ==> old(state).bit_count
            + unit_width(chars@[chars@.len() - 1]) <= 71),
    ensures
        ({
            let u = chars@[chars@.len() - 1];
            let w = unit_width(u);
            let st = *old(state);
            let n = st.bit_count + w;
            let k = least(n / 8, room(old(output)@.len() as int, st.out_index as int));
            let acc = (st.accumulator << (w as u64)) | (unit_value(u) as u64);
            if w == 0 {
                &&& r == Err::<(), DecodeError>(unit_error(u))
                &&& *final(state) == st
                &&& final(output)@ == old(output)@
            } else {
                &&& r == Ok::<(), DecodeError>(())
                &&& final(state).accumulator == acc
                &&& final(state).out_index == st.out_index + k
                &&& final(state).bit_count == n - 8 * k
                &&& final(state).src_index == st.src_index
                &&& final(state).chars_before_last == st.chars_before_last
                &&& final(output)@.len() == old(output)@.len()
                &&& forall|j: int|
                    0 <= j < k ==> #[trigger] final(output)@[st.out_index + j] == ((acc >> ((n - 8
                        * (j + 1)) as u64)) as u8)
                &&& forall|i: int|
                    0 <= i < old(output)@.len() && !(st.out_index <= i < st.out_index + k)
                        ==> #[trigger] final(output)@[i] == old(output)@[i]
            }
        }),
{
    let ghost u = chars@[chars@.len() - 1];
    let last_index = chars.len() - 1;
    let last_char = chars[last_index] as u32;
    let last_value = match decode_char(chars[last_index]) {
        Ok(v) => v,
        Err(e) => return Err(e),
    };
    let last_bits = match get_char_bit_width(last_char) {
        Ok(b) => b,
        Err(e) => return Err(e),
    };
    // the value without its flag
    let value_without_flag = last_value & 0x7FFF;
    proof {
        lemma_unit(u);
        let v = unit_value(u) as u16;
        if last_bits == 15 {
            assert(v < 0x8000 ==> v & 0x7FFFu16 == v) by (bit_vector);
        }
        assert(value_without_flag as u64 == unit_value(u) as u64);
    }
    state.accumulator = (state.accumulator << last_bits) | (value_without_flag as u64);
    state.bit_count = state.bit_count + last_bits;
    let ghost acc = state.accumulator;
    let ghost n = state.bit_count as int;
    let ghost oi0 = state.out_index as int;
    let ghost out0 = output@;
    // every byte left
    while state.bit_count >= 8 && state.out_index < output.len()
        invariant
            state.accumulator == acc,
            state.src_index == old(state).src_index,
            state.chars_before_last == old(state).chars_before_last,
            oi0 < out0.len() ==> n <= 71,
            n <= u32::MAX,
            0 <= oi0,
            8 * (state.out_index - oi0) + state.bit_count == n,
            oi0 <= state.out_index,
            oi0 < out0.len() ==> state.out_index <= out0.len(),
            oi0 >= out0.len() ==> state.out_index == oi0,
            output@.len() == out0.len(),
            forall|j: int|
                0 <= j < state.out_index - oi0 ==> #[trigger] output@[oi0 + j] == ((acc >> ((n - 8
                    * (j + 1)) as u64)) as u8),
            forall|i: int|
                0 <= i < out0.len() && !(oi0 <= i < state.out_index) ==> #[trigger] output@[i]
                    == out0[i],
        decreases state.bit_count,
    {
        let oi = state.out_index;
        let bc = state.bit_count - 8;
        output[oi] = (state.accumulator >> bc) as u8;
        state.bit_count = bc;
        state.out_index = oi + 1;
    }
    proof {
        let k = state.out_index - oi0;
        let bc = state.bit_count as int;
        let len = out0.len() as int;
        assert(k == least(n / 8, room(len, oi0))) by (nonlinear_arith)
            requires
                8 * k + bc == n,
                0 <= k,
                0 <= bc,
                bc < 8 || state.out_index >= len,
                oi0 >= len ==> k == 0,
                oi0 < len ==> oi0 + k <= len,
                room(len, oi0) == (if oi0 < len {
                    len - oi0
                } else {
                    0
                }),
                least(n / 8, room(len, oi0)) == (if n / 8 <= room(len, oi0) {
                    n / 8
                } else {
                    room(len, oi0)
                }),
                state.out_index == oi0 + k,
        ;
    }
    Ok(())
}

// ===========================================================================
// Padding
// ===========================================================================
/// Accepts the bits left in the accumulator only where all of them are ones.
fn validate_padding(state: &DecodeState) -> (r: Result<(), DecodeError>)
    requires
        state.bit_count < 64,
    ensures
        r is Ok <==> (state.bit_count == 0 || state.accumulator & (((1u64 << state.bit_count)
            - 1u64) as u64) == (((1u64 << state.bit_count) - 1u64) as u64)),
        r is Err ==> r == Err::<(), DecodeError>(DecodeError::PaddingMismatch),
{
    if state.bit_count == 0 {
        return Ok(());
    }
    proof {
        let n = state.bit_count;
        assert(n < 64 ==> 1u64 << n >= 1u64) by (bit_vector);
    }
    let padding_mask = (1u64 << state.bit_count) - 1;
    let padding_bits = state.accumulator & padding_mask;
    if padding_bits != padding_mask {
        return Err(DecodeError::PaddingMismatch);
    }
    Ok(())
}

// ===========================================================================
// Utilities
// ===========================================================================
/// Writes `value` big-endian at `offset`, where eight bytes fit there.
fn write_u64_be(output: &mut [u8], offset: usize, value: u64)
    requires
        offset + 8 <= usize::MAX,
    ensures
        final(output)@.len() == old(output)@.len(),
        offset + 8 <= old(output)@.len() ==> forall|k: int|
            0 <= k < 8 ==> #[trigger] final(output)@[offset + k] == ((value >> ((56 - 8 * k)
                as u64)) as u8),
        forall|i: int|
            0 <= i < old(output)@.len() && !(offset <= i < offset + 8 && offset + 8
                <= old(output)@.len()) ==> #[trigger] final(output)@[i] == old(output)@[i],
{
    if offset + 8 <= output.len() {
        output[offset] = (value >> 56) as u8;
        output[offset + 1] = (value >> 48) as u8;
        output[offset + 2] = (value >> 40) as u8;
        output[offset + 3] = (value >> 32) as u8;
        output[offset + 4] = (value >> 24) as u8;
        output[offset + 5] = (value >> 16) as u8;
        output[offset + 6] = (value >> 8) as u8;
        output[offset + 7] = value as u8;
        proof {
            assert(value >> 0u64 == value) by (bit_vector);
            assert forall|k: int| 0 <= k < 8 implies #[trigger] output@[offset + k] == ((value >> ((
            56 - 8 * k) as u64)) as u8) by {
                if k == 0 {
                } else if k == 1 {
                } else if k == 2 {
                } else if k == 3 {
                } else if k == 4 {
                } else if k == 5 {
                } else if k == 6 {
                } else {
                }
            }
        }
    }
}

} // verus!
