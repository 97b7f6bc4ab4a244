//! Base32768: binary data as text, fifteen bits to a character.
//!
//! `encode` writes bytes as text; `decode` reads text back leniently,
//! skipping characters outside the repertoires; `decoder::decode` reads it
//! strictly and reports why it refuses a text.
use vstd::prelude::*;

pub mod bits;
pub mod decoder;
pub mod encoder;
pub mod error;
pub mod laws;
pub mod repertoire;
pub mod text;

pub use crate::encoder::encode;
pub use crate::error::DecodeError;

use crate::bits::{
    acc_holds128, bits_to_bytes, byte_at, lemma_acc_holds128_same_prefix, lemma_acc_push128,
    lemma_byte_at_same_prefix, lemma_holds128_fewer, lemma_top_byte128, ubit, ubit128, value_bits,
};
use crate::decoder::{lemma_pack_bit, pack_values};
use crate::repertoire::{code_value, code_width, lemma_code_inverse, lookup};
use crate::text::collect_chars;

verus! {

/// The width character `c` carries: 15, 7, or 0 where it is in neither repertoire.
pub open spec fn char_width(c: char) -> u32 {
    code_width(c as int)
}

/// The value character `c` carries.
pub open spec fn char_value(c: char) -> u32 {
    code_value(c as int)
}

/// The bits a text carries when characters outside the repertoires are skipped
/// and seven-bit characters may stand anywhere.
pub open spec fn lenient_bits(cs: Seq<char>) -> Seq<bool>
    decreases cs.len(),
{
    if cs.len() == 0 {
        Seq::empty()
    } else {
        lenient_bits(cs.drop_last()) + value_bits(
            char_value(cs.last()) as u64,
            char_width(cs.last()) as nat,
        )
    }
}

/// Characters `j .. j + 8` are all fifteen-bit ones.
pub open spec fn wide_window(cs: Seq<char>, j: int) -> bool {
    forall|k: int| j <= k < j + 8 ==> #[trigger] char_width(cs[k]) == 15
}

/// The first group of eight characters, counted in eights from `j`, that is
/// not made of fifteen-bit characters only (or where fewer than eight are left).
pub open spec fn slow_start(cs: Seq<char>, j: int) -> int
    decreases cs.len() - j,
{
    if j < 0 || j + 8 > cs.len() || !wide_window(cs, j) {
        j
    } else {
        slow_start(cs, j + 8)
    }
}

/// Text outside the domain of `decode`: its first group of eight characters
/// that is not all fifteen-bit holds a character beyond the Basic
/// Multilingual Plane. `decode` reads such a group through a table of the
/// 65536 code points of that plane, which has no entry for it.
pub open spec fn lenient_out_of_table(cs: Seq<char>) -> bool {
    let j = slow_start(cs, 0);
    &&& j + 8 <= cs.len()
    &&& exists|k: int| j <= k < j + 8 && (cs[k] as u32) >= 0x10000
}

/// What the lenient decoder gives for text `cs`.
pub open spec fn spec_decode_lenient(cs: Seq<char>) -> Seq<u8> {
    bits_to_bytes(lenient_bits(cs))
}

proof fn lemma_lenient_append(cs: Seq<char>, i: int)
    requires
        0 <= i < cs.len(),
    ensures
        lenient_bits(cs.take(i + 1)) == lenient_bits(cs.take(i)) + value_bits(
            char_value(cs[i]) as u64,
            char_width(cs[i]) as nat,
        ),
{
    assert(cs.take(i + 1).drop_last() =~= cs.take(i));
}

/// Eight fifteen-bit characters add their 120 bits, first character first.
proof fn lemma_lenient_wide(cs: Seq<char>, i: int, k: int)
    requires
        0 <= i,
        0 <= k,
        i + k <= cs.len(),
        forall|j: int| i <= j < i + k ==> #[trigger] char_width(cs[j]) == 15,
    ensures
        lenient_bits(cs.take(i + k)).len() == lenient_bits(cs.take(i)).len() + 15 * k,
        forall|p: int|
            0 <= p < lenient_bits(cs.take(i)).len() ==> #[trigger] lenient_bits(cs.take(i + k))[p]
                == lenient_bits(cs.take(i))[p],
        forall|p: int|
            0 <= p < 15 * k ==> #[trigger] lenient_bits(cs.take(i + k))[lenient_bits(
                cs.take(i),
            ).len() + p] == ubit(char_value(cs[i + p / 15]) as u64, (14 - p % 15) as u64),
    decreases k,
{
    if k > 0 {
        lemma_lenient_wide(cs, i, k - 1);
        lemma_lenient_append(cs, i + k - 1);
        let base = lenient_bits(cs.take(i)).len();
        let prev = lenient_bits(cs.take(i + k - 1));
        let next = lenient_bits(cs.take(i + k));
        assert forall|p: int| 0 <= p < 15 * k implies #[trigger] next[base + p] == ubit(
            char_value(cs[i + p / 15]) as u64,
            (14 - p % 15) as u64,
        ) by {
            if p >= 15 * (k - 1) {
                let r = p - 15 * (k - 1);
                assert(p / 15 == k - 1 && p % 15 == r) by (nonlinear_arith)
                    requires
                        r == p - 15 * (k - 1),
                        0 <= r < 15,
                ;
            }
        }
    }
}

/// What `lookup` gives for the code point of `c` is what `c` carries.
proof fn lemma_lookup_char(c: char, w: u32, x: u32)
    requires
        w == code_width((c as u32) as int),
        x == code_value((c as u32) as int),
    ensures
        char_width(c) == w,
        char_value(c) == x,
        w == 0 || w == 7 || w == 15,
        w == 15 ==> x < 32768 && (x as u16) as u32 == x,
        w == 7 ==> x < 128,
        (c as u32) >= 65536 ==> w == 0,
{
    assert((c as u32) as int == c as int);
    lemma_code_inverse(c as int);
}

proof fn bv_widen_bit(x: u32, t: u64)
    requires
        t < 32,
    ensures
        ubit128(x as u128, t as u128) == ubit(x as u64, t),
        (x as u128) >> (t as u128) == 0 <==> (x as u64) >> t == 0,
{
    assert((((x as u128) >> (t as u128)) & 1u128 == 1u128 <==> ((x as u64) >> t) & 1u64 == 1u64)
        && ((x as u128) >> (t as u128) == 0 <==> (x as u64) >> t == 0)) by (bit_vector)
        requires
            t < 32,
    ;
}

/// Decodes Base32768 text into bytes, leniently: characters outside both
/// repertoires are skipped, a seven-bit character may stand anywhere, and
/// bits left over after the last whole byte are dropped.
pub fn decode(src: &str) -> (r: Vec<u8>)
    requires
        !lenient_out_of_table(src@),
    ensures
        r@ == spec_decode_lenient(src@),
{
    if src.is_empty() {
        proof {
            assert(lenient_bits(src@) =~= Seq::<bool>::empty());
        }
        return Vec::new();
    }
    let chars_vec = collect_chars(src);
    let ghost cs = src@;
    let len = chars_vec.len();
    let mut result: Vec<u8> = Vec::with_capacity(len / 15 * 8 + 8);
    let mut buf: u128 = 0;
    let mut bit_count: u32 = 0;
    let mut i: usize = 0;
    proof {
        assert(cs.take(0) =~= Seq::<char>::empty());
        assert(lenient_bits(cs.take(0)) =~= Seq::<bool>::empty());
    }
    // Fast path: eight fifteen-bit characters at a time.
    while len - i >= 8 && bit_count <= 8
        invariant
            cs == src@,
            chars_vec@ == cs,
            len == cs.len(),
            i <= len,
            bit_count == 0,
            8 * result@.len() + bit_count == lenient_bits(cs.take(i as int)).len(),
            acc_holds128(buf, bit_count as nat, lenient_bits(cs.take(i as int)), lenient_bits(
                cs.take(i as int),
            ).len() as int),
            forall|j: int| 0 <= j < result@.len() ==> #[trigger] result@[j] == byte_at(
                lenient_bits(cs.take(i as int)),
                j,
            ),
        decreases len - i,
    {
        let (w0, x0) = lookup(chars_vec[i] as u32);
        let (w1, x1) = lookup(chars_vec[i + 1] as u32);
        let (w2, x2) = lookup(chars_vec[i + 2] as u32);
        let (w3, x3) = lookup(chars_vec[i + 3] as u32);
        let (w4, x4) = lookup(chars_vec[i + 4] as u32);
        let (w5, x5) = lookup(chars_vec[i + 5] as u32);
        let (w6, x6) = lookup(chars_vec[i + 6] as u32);
        let (w7, x7) = lookup(chars_vec[i + 7] as u32);
        if w0 == 15 && w1 == 15 && w2 == 15 && w3 == 15 && w4 == 15 && w5 == 15 && w6 == 15 && w7
            == 15 {
            proof {
                lemma_lookup_char(cs[i as int], w0, x0);
                lemma_lookup_char(cs[i + 1], w1, x1);
                lemma_lookup_char(cs[i + 2], w2, x2);
                lemma_lookup_char(cs[i + 3], w3, x3);
                lemma_lookup_char(cs[i + 4], w4, x4);
                lemma_lookup_char(cs[i + 5], w5, x5);
                lemma_lookup_char(cs[i + 6], w6, x6);
                lemma_lookup_char(cs[i + 7], w7, x7);
            }
            let vals: [u16; 8] = [
                x0 as u16,
                x1 as u16,
                x2 as u16,
                x3 as u16,
                x4 as u16,
                x5 as u16,
                x6 as u16,
                x7 as u16,
            ];
            let packed: u128 = ((vals[0] as u128) << 105) | ((vals[1] as u128) << 90) | ((
            vals[2] as u128) << 75) | ((vals[3] as u128) << 60) | ((vals[4] as u128) << 45) | ((
            vals[5] as u128) << 30) | ((vals[6] as u128) << 15) | (vals[7] as u128);
            let ghost s0 = lenient_bits(cs.take(i as int));
            let ghost s1 = lenient_bits(cs.take(i + 8));
            proof {
                assert forall|j: int| i <= j < i + 8 implies #[trigger] char_width(cs[j]) == 15
                    && vals[j - i] as u32 == char_value(cs[j]) && vals[j - i] < 0x8000 by {
                    if j == i {
                    } else if j == i + 1 {
                    } else if j == i + 2 {
                    } else if j == i + 3 {
                    } else if j == i + 4 {
                    } else if j == i + 5 {
                    } else if j == i + 6 {
                    } else {
                    }
                }
                assert forall|k: int| 0 <= k < 8 implies #[trigger] vals[k] < 0x8000 by {
                    assert(vals[(i + k) - i] < 0x8000);
                }
                lemma_lenient_wide(cs, i as int, 8);
                assert(packed == pack_values(vals));
                lemma_pack_bit(vals, 0);
                assert forall|t: int| 0 <= t < 120 implies #[trigger] ubit128(packed, t as u128)
                    == s1[s0.len() + 120 - 1 - t] by {
                    let p = 119 - t;
                    lemma_pack_bit(vals, p);
                    let k = p / 15;
                    assert(0 <= k < 8);
                    assert(vals[(i + k) - i] as u32 == char_value(cs[i + k]));
                    assert(s1[s0.len() + p] == ubit(char_value(cs[i + p / 15]) as u64, (14 - p % 15) as u64));
                    assert(s0.len() + p == s0.len() + 120 - 1 - t);
                }
                lemma_acc_holds128_same_prefix(buf, 0, s0, s1, s0.len() as int);
                lemma_acc_push128(buf, 0, packed, 120, s1, s0.len() as int);
                assert forall|j: int| 0 <= j < result@.len() implies #[trigger] result@[j]
                    == byte_at(s1, j) by {
                    lemma_byte_at_same_prefix(s0, s1, j);
                }
            }
            let ghost r0 = result@;
            buf = (buf << 120) | packed;
            bit_count = bit_count + 120;
            extract_bytes(&mut buf, &mut bit_count, &mut result);
            proof {
                lemma_top_bytes_stream(buf, 120, s1, r0, 15);
                assert forall|j: int| 0 <= j < result@.len() implies #[trigger] result@[j]
                    == byte_at(s1, j) by {
                    if j < r0.len() {
                        assert(result@[j] == r0[j]);
                    }
                }
            }
            i = i + 8;
        } else {
            break;
        }
    }
    // The characters left, one at a time.
    while i < len
        invariant
            cs == src@,
            chars_vec@ == cs,
            len == cs.len(),
            i <= len,
            bit_count < 8,
            8 * result@.len() + bit_count == lenient_bits(cs.take(i as int)).len(),
            acc_holds128(buf, bit_count as nat, lenient_bits(cs.take(i as int)), lenient_bits(
                cs.take(i as int),
            ).len() as int),
            forall|j: int| 0 <= j < result@.len() ==> #[trigger] result@[j] == byte_at(
                lenient_bits(cs.take(i as int)),
                j,
            ),
        decreases len - i,
    {
        let idx = chars_vec[i] as u32;
        let ghost s0 = lenient_bits(cs.take(i as int));
        let ghost s1 = lenient_bits(cs.take(i + 1));
        proof {
            lemma_lenient_append(cs, i as int);
            lemma_lookup_char(cs[i as int], code_width(idx as int), code_value(idx as int));
            assert forall|j: int| 0 <= j < result@.len() implies #[trigger] result@[j] == byte_at(
                s1,
                j,
            ) by {
                lemma_byte_at_same_prefix(s0, s1, j);
            }
            lemma_acc_holds128_same_prefix(buf, bit_count as nat, s0, s1, s0.len() as int);
        }
        if idx < 65536 {
            let (width, val) = lookup(idx);
            if width > 0 {
                proof {
                    let w = width as nat;
                    let v = val as u64;
                    if width == 15 {
                        assert(val < 32768 ==> (val as u64) >> 15u64 == 0) by (bit_vector);
                    } else {
                        assert(val < 128 ==> (val as u64) >> 7u64 == 0) by (bit_vector);
                    }
                    bv_widen_bit(val, width as u64);
                    assert forall|t: int| 0 <= t < w implies #[trigger] ubit128(
                        val as u128,
                        t as u128,
                    ) == s1[s0.len() + w - 1 - t] by {
                        bv_widen_bit(val, t as u64);
                    }
                }
                let ghost r0 = result@;
                let ghost n = bit_count + width;
                proof {
                    lemma_acc_push128(
                        buf,
                        bit_count as nat,
                        val as u128,
                        width as nat,
                        s1,
                        s0.len() as int,
                    );
                }
                feed_bits(&mut buf, &mut bit_count, width, val, &mut result);
                proof {
                    lemma_top_bytes_stream(buf, n as nat, s1, r0, n / 8);
                    assert forall|j: int| 0 <= j < result@.len() implies #[trigger] result@[j]
                        == byte_at(s1, j) by {
                        if j < r0.len() {
                            assert(result@[j] == r0[j]);
                        }
                    }
                    lemma_holds128_fewer(buf, n as nat, bit_count as nat, s1, s0.len() + width);
                }
            } else {
                proof {
                    assert(s1 =~= s0);
                }
            }
        } else {
            proof {
                assert(s1 =~= s0);
            }
        }
        i = i + 1;
    }
    proof {
        assert(cs.take(len as int) =~= cs);
        assert(result@ =~= bits_to_bytes(lenient_bits(cs)));
    }
    result
}

/// The `count` bytes at the top of the `n` low bits of `buf`, most significant first.
pub open spec fn top_bytes128(buf: u128, n: int, count: int) -> Seq<u8> {
    Seq::new(count as nat, |j: int| (buf >> ((n - 8 * (j + 1)) as u128)) as u8)
}

/// Bytes taken off the top of the bits a buffer holds, where those bits start
/// at byte `r.len()` of the stream, are the stream's next bytes.
proof fn lemma_top_bytes_stream(buf: u128, n: nat, s: Seq<bool>, r: Seq<u8>, count: int)
    requires
        acc_holds128(buf, n, s, (8 * r.len() + n) as int),
        n <= 128,
        0 <= count,
        8 * count <= n,
    ensures
        forall|j: int|
            r.len() <= j < r.len() + count ==> #[trigger] (r + top_bytes128(buf, n as int, count))[j]
                == byte_at(s, j),
{
    assert forall|j: int| r.len() <= j < r.len() + count implies #[trigger] (r + top_bytes128(
        buf,
        n as int,
        count,
    ))[j] == byte_at(s, j) by {
        lemma_top_byte128(buf, n, s, (8 * r.len() + n) as int, j - r.len());
    }
}

/// Taking `a` bytes off the top of `n` bits and then `b` off the `n - 8a`
/// left takes `a + b` bytes off the top.
proof fn lemma_top_bytes_concat(buf: u128, n: int, a: int, b: int)
    requires
        0 <= a,
        0 <= b,
    ensures
        top_bytes128(buf, n, a) + top_bytes128(buf, n - 8 * a, b) =~= top_bytes128(buf, n, a + b),
{
    assert forall|j: int| a <= j < a + b implies #[trigger] top_bytes128(buf, n, a + b)[j]
        == top_bytes128(buf, n - 8 * a, b)[j - a] by {
        assert(n - 8 * a - 8 * (j - a + 1) == n - 8 * (j + 1));
    }
}

/// Appends the top `count` bytes of the `n` low bits of `buf`.
fn emit_bytes(buf: u128, n: u32, count: u32, result: &mut Vec<u8>)
    requires
        8 * count <= n <= 128,
    ensures
        final(result)@ == old(result)@ + top_bytes128(buf, n as int, count as int),
{
    let ghost r0 = result@;
    let mut k: u32 = 0;
    while k < count
        invariant
            8 * count <= n <= 128,
            k <= count,
            result@ == r0 + top_bytes128(buf, n as int, k as int),
        decreases count - k,
    {
        result.push((buf >> (n - 8 * (k + 1))) as u8);
        proof {
            assert(top_bytes128(buf, n as int, k + 1) =~= top_bytes128(buf, n as int, k as int).push(
                (buf >> ((n - 8 * (k + 1)) as u128)) as u8,
            ));
            assert(r0 + top_bytes128(buf, n as int, k + 1) =~= (r0 + top_bytes128(
                buf,
                n as int,
                k as int,
            )).push((buf >> ((n - 8 * (k + 1)) as u128)) as u8));
        }
        k = k + 1;
    }
}

/// Writes whole bytes from the top of the `bit_count` low bits of `buf`:
/// eight, four, two and one at a time, which takes every whole byte of fewer
/// than 128 bits and all but one of 128. `buf` keeps its value.
fn extract_bytes(buf: &mut u128, bit_count: &mut u32, result: &mut Vec<u8>)
    requires
        *old(bit_count) <= 128,
    ensures
        *final(buf) == *old(buf),
        *final(bit_count) == if *old(bit_count) == 128 {
            8
        } else {
            *old(bit_count) % 8
        },
        final(result)@ == old(result)@ + top_bytes128(
            *old(buf),
            *old(bit_count) as int,
            (*old(bit_count) - *final(bit_count)) / 8,
        ),
{
    let ghost n = *bit_count as int;
    let ghost r0 = result@;
    let ghost b = *buf;
    // eight bytes
    if *bit_count >= 64 {
        emit_bytes(*buf, *bit_count, 8, result);
        *bit_count = *bit_count - 64;
    }
    let ghost c1 = (n - *bit_count) / 8;
    proof {
        lemma_top_bytes_concat(b, n, 0, c1);
        assert(top_bytes128(b, n, 0) =~= Seq::<u8>::empty());
        assert(result@ =~= r0 + top_bytes128(b, n, c1));
    }
    // four bytes
    if *bit_count >= 32 {
        emit_bytes(*buf, *bit_count, 4, result);
        *bit_count = *bit_count - 32;
    }
    let ghost c2 = (n - *bit_count) / 8;
    proof {
        lemma_top_bytes_concat(b, n, c1, c2 - c1);
        assert(result@ =~= r0 + top_bytes128(b, n, c2));
    }
    // two bytes
    if *bit_count >= 16 {
        emit_bytes(*buf, *bit_count, 2, result);
        *bit_count = *bit_count - 16;
    }
    let ghost c3 = (n - *bit_count) / 8;
    proof {
        lemma_top_bytes_concat(b, n, c2, c3 - c2);
        assert(result@ =~= r0 + top_bytes128(b, n, c3));
    }
    // one byte
    if *bit_count >= 8 {
        emit_bytes(*buf, *bit_count, 1, result);
        *bit_count = *bit_count - 8;
    }
    proof {
        let c4 = (n - *bit_count) / 8;
        lemma_top_bytes_concat(b, n, c3, c4 - c3);
        assert(result@ =~= r0 + top_bytes128(b, n, c4));
    }
}

/// Shifts the `width` bits of `val` into the buffer and writes every whole
/// byte, keeping the bits left over in the `bit_count % 8` lowest.
fn feed_bits(buf: &mut u128, bit_count: &mut u32, width: u32, val: u32, result: &mut Vec<u8>)
    requires
        width < 128,
        *old(bit_count) + width < 136,
    ensures
        *final(buf) == (*old(buf) << (width as u128)) | (val as u128),
        *final(bit_count) == (*old(bit_count) + width) % 8,
        final(result)@ == old(result)@ + top_bytes128(
            *final(buf),
            *old(bit_count) + width,
            (*old(bit_count) + width) / 8,
        ),
{
    let ghost r0 = result@;
    *buf = (*buf << width) | (val as u128);
    *bit_count = *bit_count + width;
    let ghost n = *bit_count as int;
    let ghost b = *buf;
    while *bit_count >= 8
        invariant
            *buf == b,
            n < 136,
            *bit_count <= n,
            (n - *bit_count) % 8 == 0,
            result@ == r0 + top_bytes128(b, n, (n - *bit_count) / 8),
        decreases *bit_count,
    {
        let ghost c = (n - *bit_count) / 8;
        *bit_count = *bit_count - 8;
        result.push((*buf >> *bit_count) as u8);
        proof {
            assert(n - 8 * (c + 1) == *bit_count);
            assert(top_bytes128(b, n, c + 1) =~= top_bytes128(b, n, c).push(
                (b >> ((n - 8 * (c + 1)) as u128)) as u8,
            ));
            assert(r0 + top_bytes128(b, n, c + 1) =~= (r0 + top_bytes128(b, n, c)).push(
                (b >> ((n - 8 * (c + 1)) as u128)) as u8,
            ));
        }
    }
}

} // verus!
