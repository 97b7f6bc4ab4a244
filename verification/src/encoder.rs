//! Encoding bytes as Base32768 text.
use vstd::prelude::*;

use crate::bits::{
    acc_holds, bits_value, bytes_bits, lemma_acc_mask, lemma_acc_pop_chunk, lemma_acc_push,
    lemma_push_bound,
    lemma_bits_value_eq, ones, ubit,
};
use crate::repertoire::{z15_char, z15_character, z7_char, z7_character};
use crate::text::string_from_chars;

verus! {

/// Bits per fifteen-bit character.
pub const BITS_PER_CHAR: u64 = 15;

/// Bits per byte.
pub const BITS_PER_BYTE: u64 = 8;

/// The bits of `b` followed by enough one bits to fill a last character.
pub open spec fn padded_bits(b: Seq<u8>) -> Seq<bool> {
    bytes_bits(b) + ones(15)
}

/// The number of characters that encode `n` bytes: one per started group of fifteen bits.
pub open spec fn encoded_len(n: nat) -> nat {
    (8 * n + 14) / 15
}

/// Character `k` of the encoding of `b`.
///
/// It writes bits `15 * k ..` of `b`, padded with one bits: fifteen of them
/// where at least eight bits of `b` are left, seven where fewer are.
pub open spec fn encode_chunk(b: Seq<u8>, k: int) -> char {
    if 8 * b.len() - 15 * k >= 8 {
        z15_char(bits_value(padded_bits(b).subrange(15 * k, 15 * k + 15)) as int)
    } else {
        z7_char(bits_value(padded_bits(b).subrange(15 * k, 15 * k + 7)) as int)
    }
}

/// The Base32768 text of `b`.
pub open spec fn spec_encode(b: Seq<u8>) -> Seq<char> {
    Seq::new(encoded_len(b.len()), |k: int| encode_chunk(b, k))
}

proof fn bv_pad_bit(acc: u64, n: u64, w: u64, t: u64)
    requires
        n <= w < 64,
        t < w,
        acc >> n == 0,
    ensures
        ubit((acc << ((w - n) as u64)) | (((1u64 << w) - 1u64) as u64 >> n), t) == if t < w - n {
            true
        } else {
            ubit(acc, (t - (w - n)) as u64)
        },
        ((acc << ((w - n) as u64)) | (((1u64 << w) - 1u64) as u64 >> n)) >> w == 0,
{
    if t < w - n {
        assert(((((acc << ((w - n) as u64)) | (((1u64 << w) - 1u64) as u64 >> n)) >> t) & 1u64)
            == 1u64) by (bit_vector)
            requires
                n <= w < 64,
                t < w - n,
        ;
    } else {
        assert(((((acc << ((w - n) as u64)) | (((1u64 << w) - 1u64) as u64 >> n)) >> t) & 1u64)
            == (acc >> ((t - (w - n)) as u64)) & 1u64) by (bit_vector)
            requires
                n <= w < 64,
                w - n <= t < w,
                acc >> n == 0,
        ;
    }
    assert(((acc << ((w - n) as u64)) | (((1u64 << w) - 1u64) as u64 >> n)) >> w == 0)
        by (bit_vector)
        requires
            n <= w < 64,
            acc >> n == 0,
    ;
}

/// The `n` held bits followed by one bits up to width `w` spell the next `w`
/// bits of a stream that continues with ones.
proof fn lemma_acc_pad(acc: u64, n: nat, w: nat, s: Seq<bool>, end: int)
    requires
        acc_holds(acc, n, s, end),
        1 <= w,
        n <= w < 64,
        acc >> (n as u64) == 0,
        end + w - n <= s.len(),
        forall|p: int| end <= p < end + w - n ==> s[p],
    ensures
        ((acc << ((w - n) as u64)) | (((1u64 << (w as u64)) - 1u64) as u64 >> (n as u64)))
            as nat == bits_value(s.subrange(end - n, end - n + w)),
        ((acc << ((w - n) as u64)) | (((1u64 << (w as u64)) - 1u64) as u64 >> (n as u64))) >> (
        w as u64) == 0,
{
    let x = (acc << ((w - n) as u64)) | (((1u64 << (w as u64)) - 1u64) as u64 >> (n as u64));
    let sub = s.subrange(end - n, end - n + w);
    bv_pad_bit(acc, n as u64, w as u64, 0);
    assert forall|t: int| 0 <= t < w implies sub[w - 1 - t] == #[trigger] ubit(x, t as u64) by {
        bv_pad_bit(acc, n as u64, w as u64, t as u64);
        if t >= w - n {
            assert(ubit(acc, (t - (w - n)) as u64) == s[end - 1 - (t - (w - n))]);
        }
    }
    lemma_bits_value_eq(sub, x);
}

proof fn lemma_byte_bits_in_stream(b: Seq<u8>, i: int, x: u64)
    requires
        0 <= i < b.len(),
        x == b[i] as u64,
    ensures
        x >> 8u64 == 0,
        forall|t: int| 0 <= t < 8 ==> #[trigger] ubit(x, t as u64) == padded_bits(b)[8 * i + 8 - 1 - t],
{
    assert(x >> 8u64 == 0) by (bit_vector)
        requires
            x <= 255,
    ;
    assert forall|t: int| 0 <= t < 8 implies #[trigger] ubit(x, t as u64) == padded_bits(b)[8 * i
        + 8 - 1 - t] by {
        let p = 8 * i + 7 - t;
        assert(p / 8 == i && p % 8 == 7 - t) by (nonlinear_arith)
            requires
                p == 8 * i + 7 - t,
                0 <= t < 8,
        ;
        assert(padded_bits(b)[p] == bytes_bits(b)[p]);
    }
}

/// Encodes bytes as Base32768 text: each fifteen bits become one character,
/// and the bits left at the end, padded with ones, become one more.
pub fn encode(b: &[u8]) -> (s: String)
    ensures
        s@ == spec_encode(b@),
        s@.len() == encoded_len(b@.len()),
{
    if b.len() == 0 {
        let s = String::new();
        proof {
            assert(s@ =~= spec_encode(b@));
        }
        return s;
    }
    let ghost bits = padded_bits(b@);
    let mut code_points: Vec<char> = Vec::with_capacity(b.len() / 15 * 8 + 8);
    // The bits read but not yet written, right-aligned.
    let mut remaining: u64 = 0;
    let mut remaining_count: u64 = 0;
    let mut i: usize = 0;
    assert(((1u64 << 15u64) - 1u64) as u64 == 0x7FFFu64) by (bit_vector);
    assert(0u64 >> 0u64 == 0) by (bit_vector);
    while i < b.len()
        invariant
            bits == padded_bits(b@),
            0 <= i <= b.len(),
            remaining_count < BITS_PER_CHAR,
            8 * i == 15 * code_points@.len() + remaining_count,
            remaining >> remaining_count == 0,
            acc_holds(remaining, remaining_count as nat, bits, 8 * i),
            forall|k: int| 0 <= k < code_points@.len() ==> #[trigger] code_points@[k] == encode_chunk(b@, k),
            ((1u64 << 15u64) - 1u64) as u64 == 0x7FFFu64,
        decreases b.len() - i,
    {
        let byte = b[i];
        proof {
            lemma_byte_bits_in_stream(b@, i as int, byte as u64);
            lemma_acc_push(remaining, remaining_count as nat, byte as u64, 8, bits, 8 * i);
            lemma_push_bound(remaining, remaining_count as nat, byte as u64, 8);
        }
        remaining = (remaining << BITS_PER_BYTE) | byte as u64;
        remaining_count = remaining_count + BITS_PER_BYTE;
        if remaining_count >= BITS_PER_CHAR {
            let ghost held = remaining_count;
            let ghost k = code_points@.len() as int;
            remaining_count = remaining_count - BITS_PER_CHAR;
            let v = (remaining >> remaining_count) & 0x7FFF;
            proof {
                lemma_acc_pop_chunk(remaining, held as nat, 15, bits, 8 * (i + 1));
                assert((remaining >> remaining_count) & 0x7FFFu64 <= 0x7FFFu64) by (bit_vector);
                assert(remaining_count < 64 ==> 1u64 << remaining_count >= 1u64) by (bit_vector);
                lemma_acc_mask(remaining, remaining_count as nat, bits, 8 * (i + 1));
                assert(8 * (i + 1) - held == 15 * k);
            }
            let c = z15_character(v as u16);
            code_points.push(c);
            remaining = remaining & ((1u64 << remaining_count) - 1u64);
            proof {
                assert(code_points@[k] == encode_chunk(b@, k));
            }
        }
        i = i + 1;
    }
    let ghost n = b.len() as int;
    let ghost full = code_points@.len() as int;
    if remaining_count >= BITS_PER_BYTE {
        proof {
            lemma_acc_pad(remaining, remaining_count as nat, 15, bits, 8 * n);
            let v = (remaining << ((15 - remaining_count) as u64)) | (0x7FFFu64 >> remaining_count);
            assert(v >> 15u64 == 0 ==> v < 32768) by (bit_vector);
        }
        let v = (remaining << (BITS_PER_CHAR - remaining_count)) | (0x7FFFu64 >> remaining_count);
        let c = z15_character(v as u16);
        code_points.push(c);
        proof {
            assert(code_points@[full] == encode_chunk(b@, full));
        }
    } else if remaining_count > 0 {
        proof {
            assert(((1u64 << 7u64) - 1u64) as u64 == 0x7Fu64) by (bit_vector);
            lemma_acc_pad(remaining, remaining_count as nat, 7, bits, 8 * n);
            let v = (remaining << ((7 - remaining_count) as u64)) | (0x7Fu64 >> remaining_count);
            assert(v >> 7u64 == 0 ==> v < 128) by (bit_vector);
        }
        let v = (remaining << (7 - remaining_count)) | (0x7Fu64 >> remaining_count);
        let c = z7_character(v as u8);
        code_points.push(c);
        proof {
            assert(code_points@[full] == encode_chunk(b@, full));
        }
    }
    proof {
        assert(encoded_len(b@.len()) == code_points@.len()) by (nonlinear_arith)
            requires
                8 * n == 15 * full + remaining_count,
                remaining_count < 15,
                remaining_count > 0 ==> code_points@.len() == full + 1,
                remaining_count == 0 ==> code_points@.len() == full,
                n == b@.len(),
        ;
        assert(code_points@ =~= spec_encode(b@));
    }
    string_from_chars(&code_points)
}

} // verus!
