//! The two repertoires of Base32768.
//!
//! Fifteen-bit values are written with one of 32768 characters, seven-bit
//! values (which may only end a text) with one of 128 characters. Each
//! repertoire is a list of blocks of consecutive code points, taken in order:
//! value `v` is the `v`-th code point of the concatenated blocks.
use vstd::prelude::*;

use crate::text::char_from_u32;

verus! {

/// First code point of each block of the fifteen-bit repertoire.
pub const Z15_STARTS: [u32; 52] = [
    0x04a0, 0x0500, 0x0680, 0x0760, 0x07c0, 0x1000, 0x10a0, 0x1100, 0x1180, 0x11e0,
    0x1260, 0x12e0, 0x1320, 0x13a0, 0x1420, 0x16a0, 0x1780, 0x1820, 0x18c0, 0x1980,
    0x19e0, 0x1a20, 0x1bc0, 0x1c00, 0x1d00, 0x21e0, 0x22c0, 0x2340, 0x2400, 0x2500,
    0x2780, 0x2800, 0x29a0, 0x2a20, 0x2a80, 0x2ae0, 0x2c00, 0x2c80, 0x2d00, 0x2d40,
    0x2ea0, 0x31c0, 0x3400, 0x4dc0, 0xa000, 0xa4a0, 0xa500, 0xa640, 0xa6a0, 0xa700,
    0xa780, 0xa840,
];

/// Number of code points in each block of the fifteen-bit repertoire.
pub const Z15_COUNTS: [u32; 52] = [
    32, 32, 64, 64, 32, 32, 32, 96, 32, 96,
    32, 32, 32, 64, 576, 64, 32, 64, 32, 32,
    32, 32, 32, 32, 32, 32, 32, 160, 32, 608,
    64, 384, 32, 64, 64, 128, 32, 96, 32, 32,
    64, 32, 6560, 20992, 1152, 32, 256, 32, 64, 96,
    32, 32,
];

/// First code point of each block of the seven-bit repertoire.
pub const Z7_STARTS: [u32; 2] = [0x0180, 0x0240];

/// Number of code points in each block of the seven-bit repertoire.
pub const Z7_COUNTS: [u32; 2] = [32, 96];

/// The largest code point of the seven-bit repertoire; every fifteen-bit
/// character lies above it.
pub const MAX_7BIT_CODEPOINT: u32 = 0x29F;

// ---------------------------------------------------------------------------
// Block lists in general
// ---------------------------------------------------------------------------
/// The `v`-th code point of the blocks from block `i` on.
pub open spec fn range_code(starts: Seq<u32>, counts: Seq<u32>, i: int, v: int) -> int
    decreases starts.len() - i,
{
    if i < 0 || i >= starts.len() {
        0
    } else if v < counts[i] {
        starts[i] + v
    } else {
        range_code(starts, counts, i + 1, v - counts[i])
    }
}

/// The number of code points in the blocks from block `i` on.
pub open spec fn range_total(counts: Seq<u32>, i: int) -> int
    decreases counts.len() - i,
{
    if i < 0 || i >= counts.len() {
        0
    } else {
        counts[i] + range_total(counts, i + 1)
    }
}

/// The position of code point `c` among the blocks from block `i` on.
pub open spec fn range_index(starts: Seq<u32>, counts: Seq<u32>, i: int, c: int) -> Option<int>
    decreases starts.len() - i,
{
    if i < 0 || i >= starts.len() {
        None
    } else if starts[i] <= c < starts[i] + counts[i] {
        Some(c - starts[i])
    } else {
        match range_index(starts, counts, i + 1, c) {
            Some(v) => Some(v + counts[i]),
            None => None,
        }
    }
}

/// From block `i` on, blocks are non-empty and each ends before the next begins.
pub open spec fn ranges_ok(starts: Seq<u32>, counts: Seq<u32>, i: int) -> bool
    decreases starts.len() - i,
{
    if i < 0 || i + 1 >= starts.len() {
        true
    } else {
        &&& counts[i] > 0
        &&& starts[i] + counts[i] <= starts[i + 1]
        &&& ranges_ok(starts, counts, i + 1)
    }
}

/// One past the last code point of the last block.
pub open spec fn range_end(starts: Seq<u32>, counts: Seq<u32>) -> int {
    starts[starts.len() - 1] + counts[counts.len() - 1]
}

proof fn lemma_total_nonneg(counts: Seq<u32>, i: int)
    ensures
        range_total(counts, i) >= 0,
        i >= counts.len() ==> range_total(counts, i) == 0,
    decreases counts.len() - i,
{
    if 0 <= i < counts.len() {
        lemma_total_nonneg(counts, i + 1);
    }
}

proof fn lemma_block_end(starts: Seq<u32>, counts: Seq<u32>, i: int)
    requires
        starts.len() == counts.len(),
        0 <= i < starts.len(),
        ranges_ok(starts, counts, i),
    ensures
        starts[i] + counts[i] <= range_end(starts, counts),
    decreases starts.len() - i,
{
    if i + 1 < starts.len() {
        lemma_block_end(starts, counts, i + 1);
    }
}

/// The `v`-th code point lies in the blocks, and is found again at position `v`.
proof fn lemma_code_index(starts: Seq<u32>, counts: Seq<u32>, i: int, v: int)
    requires
        starts.len() == counts.len(),
        0 <= i < starts.len(),
        ranges_ok(starts, counts, i),
        0 <= v < range_total(counts, i),
    ensures
        starts[i] <= range_code(starts, counts, i, v) < range_end(starts, counts),
        range_index(starts, counts, i, range_code(starts, counts, i, v)) == Some(v),
    decreases starts.len() - i,
{
    lemma_total_nonneg(counts, i + 1);
    if v < counts[i] {
        lemma_block_end(starts, counts, i);
    } else {
        lemma_code_index(starts, counts, i + 1, v - counts[i]);
    }
}

/// A code point found at position `v` is the `v`-th one.
proof fn lemma_index_code(starts: Seq<u32>, counts: Seq<u32>, i: int, c: int)
    requires
        starts.len() == counts.len(),
        0 <= i,
        range_index(starts, counts, i, c) is Some,
    ensures
        0 <= range_index(starts, counts, i, c).unwrap() < range_total(counts, i),
        range_code(starts, counts, i, range_index(starts, counts, i, c).unwrap()) == c,
    decreases starts.len() - i,
{
    lemma_total_nonneg(counts, i + 1);
    if !(starts[i] <= c < starts[i] + counts[i]) {
        lemma_index_code(starts, counts, i + 1, c);
    }
}

// ---------------------------------------------------------------------------
// The two repertoires
// ---------------------------------------------------------------------------
/// The code point of fifteen-bit value `v`.
pub open spec fn z15_code(v: int) -> int {
    range_code(Z15_STARTS@, Z15_COUNTS@, 0, v)
}

/// The code point of seven-bit value `v`.
pub open spec fn z7_code(v: int) -> int {
    range_code(Z7_STARTS@, Z7_COUNTS@, 0, v)
}

/// The character of fifteen-bit value `v`.
pub open spec fn z15_char(v: int) -> char {
    (z15_code(v) as u32) as char
}

/// The character of seven-bit value `v`.
pub open spec fn z7_char(v: int) -> char {
    (z7_code(v) as u32) as char
}

/// How many bits code point `c` carries: 15, 7, or 0 where it is in neither repertoire.
pub open spec fn code_width(c: int) -> u32 {
    if range_index(Z15_STARTS@, Z15_COUNTS@, 0, c) is Some {
        15
    } else if range_index(Z7_STARTS@, Z7_COUNTS@, 0, c) is Some {
        7
    } else {
        0
    }
}

/// The value that code point `c` carries (0 where it carries none).
pub open spec fn code_value(c: int) -> u32 {
    match range_index(Z15_STARTS@, Z15_COUNTS@, 0, c) {
        Some(v) => v as u32,
        None => match range_index(Z7_STARTS@, Z7_COUNTS@, 0, c) {
            Some(v) => v as u32,
            None => 0,
        },
    }
}

proof fn lemma_tables()
    ensures
        ranges_ok(Z15_STARTS@, Z15_COUNTS@, 0),
        range_total(Z15_COUNTS@, 0) == 32768,
        range_end(Z15_STARTS@, Z15_COUNTS@) == 0xa860,
        Z15_STARTS@[0] == 0x04a0,
        ranges_ok(Z7_STARTS@, Z7_COUNTS@, 0),
        range_total(Z7_COUNTS@, 0) == 128,
        range_end(Z7_STARTS@, Z7_COUNTS@) == 0x02a0,
        Z7_STARTS@[0] == 0x0180,
{
    reveal_with_fuel(ranges_ok, 53);
    reveal_with_fuel(range_total, 53);
}

/// Every fifteen-bit value has its own character, above the seven-bit
/// repertoire and below the surrogates, which reads back as that value.
pub proof fn lemma_z15_roundtrip(v: int)
    requires
        0 <= v < 32768,
    ensures
        MAX_7BIT_CODEPOINT < z15_code(v) < 0xa860,
        code_width(z15_code(v)) == 15,
        code_value(z15_code(v)) == v,
{
    lemma_tables();
    lemma_code_index(Z15_STARTS@, Z15_COUNTS@, 0, v);
}

/// Every seven-bit value has its own character, at most `MAX_7BIT_CODEPOINT`,
/// which reads back as that value.
pub proof fn lemma_z7_roundtrip(v: int)
    requires
        0 <= v < 128,
    ensures
        0x0180 <= z7_code(v) <= MAX_7BIT_CODEPOINT,
        code_width(z7_code(v)) == 7,
        code_value(z7_code(v)) == v,
{
    lemma_tables();
    lemma_code_index(Z7_STARTS@, Z7_COUNTS@, 0, v);
    let c = z7_code(v);
    if range_index(Z15_STARTS@, Z15_COUNTS@, 0, c) is Some {
        lemma_index_code(Z15_STARTS@, Z15_COUNTS@, 0, c);
        lemma_code_index(
            Z15_STARTS@,
            Z15_COUNTS@,
            0,
            range_index(Z15_STARTS@, Z15_COUNTS@, 0, c).unwrap(),
        );
    }
}

/// The last seven-bit value, 127 (all seven bits set), is written U+029F.
pub proof fn lemma_z7_last()
    ensures
        z7_code(127) == 0x029f,
{
    reveal_with_fuel(range_code, 3);
    assert(Z7_STARTS@[1] == 0x0240 && Z7_COUNTS@[0] == 32 && Z7_COUNTS@[1] == 96);
}

/// A recognised code point is the character of the value it carries, and its
/// width tells the repertoires apart by code point.
pub proof fn lemma_code_inverse(c: int)
    ensures
        code_width(c) == 0 || code_width(c) == 7 || code_width(c) == 15,
        code_width(c) == 15 ==> code_value(c) < 32768 && z15_code(code_value(c) as int) == c
            && MAX_7BIT_CODEPOINT < c < 0xa860,
        code_width(c) == 7 ==> code_value(c) < 128 && z7_code(code_value(c) as int) == c && 0x0180
            <= c <= MAX_7BIT_CODEPOINT,
        code_width(c) == 0 ==> code_value(c) == 0,
{
    lemma_tables();
    if range_index(Z15_STARTS@, Z15_COUNTS@, 0, c) is Some {
        let v = range_index(Z15_STARTS@, Z15_COUNTS@, 0, c).unwrap();
        lemma_index_code(Z15_STARTS@, Z15_COUNTS@, 0, c);
        lemma_code_index(Z15_STARTS@, Z15_COUNTS@, 0, v);
    } else if range_index(Z7_STARTS@, Z7_COUNTS@, 0, c) is Some {
        let v = range_index(Z7_STARTS@, Z7_COUNTS@, 0, c).unwrap();
        lemma_index_code(Z7_STARTS@, Z7_COUNTS@, 0, c);
        lemma_code_index(Z7_STARTS@, Z7_COUNTS@, 0, v);
    }
}

// ---------------------------------------------------------------------------
// The repertoires are their blocks, value by value
// ---------------------------------------------------------------------------
/// The number of code points in blocks `0 .. i`.
pub open spec fn count_before(counts: Seq<u32>, i: int) -> int
    decreases i,
{
    if i <= 0 {
        0
    } else {
        count_before(counts, i - 1) + counts[i - 1]
    }
}

proof fn lemma_count_before_mono(counts: Seq<u32>, a: int, b: int)
    requires
        0 <= a <= b <= counts.len(),
    ensures
        count_before(counts, a) <= count_before(counts, b),
    decreases b - a,
{
    if a < b {
        lemma_count_before_mono(counts, a, b - 1);
    }
}

proof fn lemma_count_before_total(counts: Seq<u32>, i: int)
    requires
        0 <= i <= counts.len(),
    ensures
        count_before(counts, i) + range_total(counts, i) == range_total(counts, 0),
    decreases i,
{
    if i > 0 {
        lemma_count_before_total(counts, i - 1);
    }
}

/// Counting from block `j`, the code point of the value `d` places into
/// block `i` is `starts[i] + d`.
proof fn lemma_code_at(starts: Seq<u32>, counts: Seq<u32>, j: int, i: int, d: int)
    requires
        starts.len() == counts.len(),
        0 <= j <= i < starts.len(),
        0 <= d < counts[i],
    ensures
        range_code(starts, counts, j, count_before(counts, i) - count_before(counts, j) + d)
            == starts[i] + d,
    decreases i - j,
{
    if j < i {
        lemma_count_before_mono(counts, j + 1, i);
        lemma_code_at(starts, counts, j + 1, i, d);
    }
}

/// A code point found among the blocks lies in one of them.
proof fn lemma_index_in_block(starts: Seq<u32>, counts: Seq<u32>, j: int, c: int)
    requires
        0 <= j,
        range_index(starts, counts, j, c) is Some,
    ensures
        exists|i: int| j <= i < starts.len() && #[trigger] starts[i] <= c < starts[i] + counts[i],
    decreases starts.len() - j,
{
    if !(starts[j] <= c < starts[j] + counts[j]) {
        lemma_index_in_block(starts, counts, j + 1, c);
    }
}

/// Block `i`, offset `d`, of well-ordered blocks: that code point is the
/// `count_before(i) + d`-th, and is read back as that value.
proof fn lemma_block_point(starts: Seq<u32>, counts: Seq<u32>, i: int, d: int)
    requires
        starts.len() == counts.len(),
        starts.len() > 0,
        ranges_ok(starts, counts, 0),
        0 <= i < starts.len(),
        0 <= d < counts[i],
    ensures
        range_code(starts, counts, 0, count_before(counts, i) + d) == starts[i] + d,
        range_index(starts, counts, 0, starts[i] + d) == Some(count_before(counts, i) + d),
        0 <= count_before(counts, i) + d < range_total(counts, 0),
{
    lemma_code_at(starts, counts, 0, i, d);
    lemma_count_before_total(counts, i);
    lemma_total_nonneg(counts, i + 1);
    lemma_count_before_mono(counts, 0, i);
    lemma_code_index(starts, counts, 0, count_before(counts, i) + d);
}

/// The fifteen-bit repertoire is its blocks taken in order: the code point
/// at offset `d` of block `i` writes the value `d` plus the sizes of the
/// blocks before it, and is read back as fifteen bits of that value.
pub proof fn law_z15_blocks(i: int, d: int)
    requires
        0 <= i < 52,
        0 <= d < Z15_COUNTS@[i],
    ensures
        z15_code(count_before(Z15_COUNTS@, i) + d) == Z15_STARTS@[i] + d,
        code_width(Z15_STARTS@[i] + d) == 15,
        code_value(Z15_STARTS@[i] + d) == count_before(Z15_COUNTS@, i) + d,
{
    lemma_tables();
    lemma_block_point(Z15_STARTS@, Z15_COUNTS@, i, d);
}

/// The seven-bit repertoire is its blocks taken in order, in the same way.
pub proof fn law_z7_blocks(i: int, d: int)
    requires
        0 <= i < 2,
        0 <= d < Z7_COUNTS@[i],
    ensures
        z7_code(count_before(Z7_COUNTS@, i) + d) == Z7_STARTS@[i] + d,
        code_width(Z7_STARTS@[i] + d) == 7,
        code_value(Z7_STARTS@[i] + d) == count_before(Z7_COUNTS@, i) + d,
{
    lemma_tables();
    lemma_block_point(Z7_STARTS@, Z7_COUNTS@, i, d);
    let c = Z7_STARTS@[i] + d;
    assert(Z7_STARTS@[1] == 0x0240 && Z7_COUNTS@[1] == 96);
    if range_index(Z15_STARTS@, Z15_COUNTS@, 0, c) is Some {
        lemma_code_inverse(c);
    }
}

/// Seven-bit value `v` is written U+0180 + `v` below 32 and U+0240 + (`v` - 32)
/// from 32 on.
pub proof fn law_z7_values(v: int)
    requires
        0 <= v < 128,
    ensures
        z7_code(v) == if v < 32 {
            0x0180 + v
        } else {
            0x0240 + (v - 32)
        },
{
    assert(Z7_STARTS@[0] == 0x0180 && Z7_COUNTS@[0] == 32 && Z7_STARTS@[1] == 0x0240
        && Z7_COUNTS@[1] == 96);
    assert(count_before(Z7_COUNTS@, 0) == 0);
    assert(count_before(Z7_COUNTS@, 1) == 32);
    if v < 32 {
        law_z7_blocks(0, v);
    } else {
        law_z7_blocks(1, v - 32);
    }
}

/// A code point is read as a fifteen-bit character exactly where it lies in
/// a block of the fifteen-bit repertoire, and as a seven-bit one exactly
/// where it lies in a block of the seven-bit repertoire.
pub proof fn law_repertoire_members(c: int)
    ensures
        code_width(c) == 15 <==> exists|i: int|
            0 <= i < 52 && #[trigger] Z15_STARTS@[i] <= c < Z15_STARTS@[i] + Z15_COUNTS@[i],
        code_width(c) == 7 <==> exists|i: int|
            0 <= i < 2 && #[trigger] Z7_STARTS@[i] <= c < Z7_STARTS@[i] + Z7_COUNTS@[i],
{
    lemma_tables();
    if range_index(Z15_STARTS@, Z15_COUNTS@, 0, c) is Some {
        lemma_index_in_block(Z15_STARTS@, Z15_COUNTS@, 0, c);
    }
    if range_index(Z7_STARTS@, Z7_COUNTS@, 0, c) is Some {
        lemma_index_in_block(Z7_STARTS@, Z7_COUNTS@, 0, c);
    }
    if exists|i: int| 0 <= i < 52 && #[trigger] Z15_STARTS@[i] <= c < Z15_STARTS@[i] + Z15_COUNTS@[i] {
        let i = choose|i: int| 0 <= i < 52 && #[trigger] Z15_STARTS@[i] <= c < Z15_STARTS@[i] + Z15_COUNTS@[i];
        law_z15_blocks(i, c - Z15_STARTS@[i]);
    }
    if exists|i: int| 0 <= i < 2 && #[trigger] Z7_STARTS@[i] <= c < Z7_STARTS@[i] + Z7_COUNTS@[i] {
        let i = choose|i: int| 0 <= i < 2 && #[trigger] Z7_STARTS@[i] <= c < Z7_STARTS@[i] + Z7_COUNTS@[i];
        law_z7_blocks(i, c - Z7_STARTS@[i]);
    }
}

// ---------------------------------------------------------------------------
// Executable lookups
// ---------------------------------------------------------------------------
fn block_code(starts: &[u32], counts: &[u32], v: u32) -> (c: u32)
    requires
        starts@.len() == counts@.len(),
        starts@.len() > 0,
        ranges_ok(starts@, counts@, 0),
        v < range_total(counts@, 0),
        range_end(starts@, counts@) <= u32::MAX,
    ensures
        c == range_code(starts@, counts@, 0, v as int),
{
    let mut i: usize = 0;
    let mut rest: u32 = v;
    while rest >= counts[i]
        invariant
            starts@.len() == counts@.len(),
            0 <= i < starts@.len(),
            ranges_ok(starts@, counts@, i as int),
            rest < range_total(counts@, i as int),
            range_code(starts@, counts@, 0, v as int) == range_code(
                starts@,
                counts@,
                i as int,
                rest as int,
            ),
            range_end(starts@, counts@) <= u32::MAX,
        decreases starts@.len() - i,
    {
        proof {
            lemma_total_nonneg(counts@, i + 1);
        }
        rest = rest - counts[i];
        i = i + 1;
    }
    proof {
        lemma_block_end(starts@, counts@, i as int);
    }
    starts[i] + rest
}

fn block_index(starts: &[u32], counts: &[u32], c: u32) -> (r: Option<u32>)
    requires
        starts@.len() == counts@.len(),
        range_total(counts@, 0) <= u32::MAX,
    ensures
        match r {
            Some(v) => range_index(starts@, counts@, 0, c as int) == Some(v as int),
            None => range_index(starts@, counts@, 0, c as int) is None,
        },
{
    let mut i: usize = 0;
    let mut offset: u32 = 0;
    while i < starts.len()
        invariant
            starts@.len() == counts@.len(),
            0 <= i <= starts@.len(),
            offset + range_total(counts@, i as int) == range_total(counts@, 0),
            range_total(counts@, 0) <= u32::MAX,
            range_index(starts@, counts@, 0, c as int) == match range_index(
                starts@,
                counts@,
                i as int,
                c as int,
            ) {
                Some(v) => Some(v + offset),
                None => None,
            },
        decreases starts@.len() - i,
    {
        proof {
            lemma_total_nonneg(counts@, i + 1);
        }
        if starts[i] <= c && c - starts[i] < counts[i] {
            return Some(offset + (c - starts[i]));
        }
        offset = offset + counts[i];
        i = i + 1;
    }
    None
}

/// The character that writes fifteen-bit value `v`.
pub fn z15_character(v: u16) -> (c: char)
    requires
        v < 32768,
    ensures
        c == z15_char(v as int),
        MAX_7BIT_CODEPOINT < (c as u32) < 0xa860,
{
    proof {
        lemma_tables();
        lemma_z15_roundtrip(v as int);
    }
    let code = block_code(&Z15_STARTS, &Z15_COUNTS, v as u32);
    match char_from_u32(code) {
        Some(c) => {
            proof {
                vstd::utf8::char_u32_cast(c, code);
            }
            c
        },
        None => '\0',
    }
}

/// The character that writes seven-bit value `v`.
pub fn z7_character(v: u8) -> (c: char)
    requires
        v < 128,
    ensures
        c == z7_char(v as int),
        (c as u32) <= MAX_7BIT_CODEPOINT,
{
    proof {
        lemma_tables();
        lemma_z7_roundtrip(v as int);
    }
    let code = block_code(&Z7_STARTS, &Z7_COUNTS, v as u32);
    match char_from_u32(code) {
        Some(c) => {
            proof {
                vstd::utf8::char_u32_cast(c, code);
            }
            c
        },
        None => '\0',
    }
}

/// The width and value that code point `c` carries; width 0 where `c` is in
/// neither repertoire.
pub fn lookup(c: u32) -> (r: (u32, u32))
    ensures
        r.0 == code_width(c as int),
        r.1 == code_value(c as int),
{
    proof {
        lemma_tables();
    }
    match block_index(&Z15_STARTS, &Z15_COUNTS, c) {
        Some(v) => (15, v),
        None => match block_index(&Z7_STARTS, &Z7_COUNTS, c) {
            Some(v) => (7, v),
            None => (0, 0),
        },
    }
}

} // verus!
