//! Laws of the codec: both decoders give back what was encoded, they agree
//! on every text the strict decoder accepts, and a text the strict decoder
//! accepts is the encoding of what it gives, or that followed by U+029F.
use vstd::prelude::*;

use crate::bits::{
    bits_to_bytes, bits_value, byte_at, bytes_bits, lemma_bits_value_bits,
    lemma_byte_at_same_prefix, lemma_bytes_bits_roundtrip, ones, value_bits,
};
use crate::decoder::{
    lemma_strict_error_wide, lemma_unit, padding_ok, spec_decode, spec_decode_units, strict_bits,
    strict_error, total_bits, unit_value, unit_width,
};
use crate::encoder::{encoded_len, padded_bits, spec_encode};
use crate::error::DecodeError;
use crate::repertoire::{
    code_value, code_width, lemma_code_inverse, lemma_z15_roundtrip, lemma_z7_last,
    lemma_z7_roundtrip, z15_code, z7_code, MAX_7BIT_CODEPOINT,
};
use crate::text::{utf16_of, utf16_units};
use crate::{
    char_value, char_width, lenient_bits, lenient_out_of_table, slow_start, spec_decode_lenient,
    wide_window,
};

verus! {

/// How many bits character `k` of the encoding of `b` writes.
pub open spec fn chunk_width(b: Seq<u8>, k: int) -> nat {
    if 8 * b.len() - 15 * k >= 8 {
        15
    } else {
        7
    }
}

/// The value character `k` of the encoding of `b` writes.
pub open spec fn chunk_value(b: Seq<u8>, k: int) -> nat {
    bits_value(padded_bits(b).subrange(15 * k, 15 * k + chunk_width(b, k)))
}

/// The number of bits the first `k` characters of the encoding of `b` write.
pub open spec fn bits_upto(b: Seq<u8>, k: int) -> int {
    if k <= 0 {
        0
    } else {
        15 * (k - 1) + chunk_width(b, k - 1)
    }
}

/// Character `k` of an encoding is in the Basic Multilingual Plane, below
/// the surrogates, and carries the bits it was written from.
proof fn lemma_encode_char(b: Seq<u8>, k: int)
    requires
        0 <= k < encoded_len(b.len()),
    ensures
        (spec_encode(b)[k] as u32) < 0xa860,
        code_width((spec_encode(b)[k] as u32) as int) == chunk_width(b, k),
        code_value((spec_encode(b)[k] as u32) as int) == chunk_value(b, k),
        chunk_value(b, k) < 32768,
        value_bits(chunk_value(b, k) as u64, chunk_width(b, k)) == padded_bits(b).subrange(
            15 * k,
            15 * k + chunk_width(b, k),
        ),
        chunk_width(b, k) == 15 <==> (spec_encode(b)[k] as u32) > MAX_7BIT_CODEPOINT,
{
    let n = b.len();
    let w = chunk_width(b, k);
    let pb = padded_bits(b);
    assert(15 * k < 8 * n) by (nonlinear_arith)
        requires
            0 <= k < (8 * n + 14) / 15,
    ;
    let sub = pb.subrange(15 * k, 15 * k + w);
    lemma_bits_value_bits(sub);
    let v = bits_value(sub) as u64;
    if w == 15 {
        assert(v >> 15u64 == 0 ==> v < 32768) by (bit_vector);
        lemma_z15_roundtrip(v as int);
        assert(((z15_code(v as int) as u32) as char) as u32 == z15_code(v as int) as u32);
    } else {
        assert(v >> 7u64 == 0 ==> v < 128) by (bit_vector);
        lemma_z7_roundtrip(v as int);
        assert(((z7_code(v as int) as u32) as char) as u32 == z7_code(v as int) as u32);
    }
}

/// An encoding of non-empty input: every character but the last writes
/// fifteen bits, and all of them together write the input and fewer than
/// eight bits of padding.
proof fn lemma_encode_shape(b: Seq<u8>)
    requires
        b.len() >= 1,
    ensures
        encoded_len(b.len()) >= 1,
        forall|k: int| 0 <= k < encoded_len(b.len()) - 1 ==> #[trigger] chunk_width(b, k) == 15,
        8 * b.len() <= bits_upto(b, encoded_len(b.len()) as int) < 8 * b.len() + 8,
        bits_upto(b, encoded_len(b.len()) as int) <= 8 * b.len() + 15,
{
    let n = b.len();
    let l = encoded_len(n) as int;
    assert(l >= 1 && 15 * (l - 1) < 8 * n && 8 * n <= 15 * l) by (nonlinear_arith)
        requires
            n >= 1,
            l == (8 * n + 14) / 15,
    ;
    assert forall|k: int| 0 <= k < l - 1 implies #[trigger] chunk_width(b, k) == 15 by {
        assert(8 * n - 15 * k >= 8) by (nonlinear_arith)
            requires
                15 * (l - 1) < 8 * n,
                0 <= k < l - 1,
        ;
    }
}

/// The UTF-16 code units of text inside the Basic Multilingual Plane are its
/// code points.
proof fn lemma_utf16_bmp(s: Seq<char>)
    requires
        forall|k: int| 0 <= k < s.len() ==> (#[trigger] s[k] as u32) < 0x10000,
    ensures
        utf16_units(s).len() == s.len(),
        forall|k: int| 0 <= k < s.len() ==> #[trigger] utf16_units(s)[k] as u32 == s[k] as u32,
    decreases s.len(),
{
    if s.len() > 0 {
        let s2 = s.drop_last();
        assert forall|k: int| 0 <= k < s2.len() implies (#[trigger] s2[k] as u32) < 0x10000 by {
            assert(s2[k] == s[k]);
        }
        lemma_utf16_bmp(s2);
        assert(utf16_of(s.last()) == seq![(s.last() as u32) as u16]);
        assert forall|k: int| 0 <= k < s.len() implies #[trigger] utf16_units(s)[k] as u32
            == s[k] as u32 by {
            if k < s2.len() {
                assert(utf16_units(s)[k] == utf16_units(s2)[k]);
                assert(s2[k] == s[k]);
            }
        }
    }
}

/// The bits of an encoding, read back, are the input's bits and its padding.
proof fn lemma_written_bits(b: Seq<u8>, bits: Seq<bool>)
    requires
        b.len() >= 1,
        bits == padded_bits(b).subrange(0, bits_upto(b, encoded_len(b.len()) as int)),
    ensures
        padding_ok(bits),
        bits_to_bytes(bits) == b,
{
    let n = b.len();
    let pb = padded_bits(b);
    lemma_encode_shape(b);
    let t = bits.len() as int;
    assert(t / 8 == n) by (nonlinear_arith)
        requires
            8 * n <= t < 8 * n + 8,
    ;
    assert forall|p: int| 8 * (bits.len() / 8) <= p < bits.len() implies #[trigger] bits[p] by {
        assert(pb[p] == ones(15)[p - 8 * n]);
    }
    lemma_bytes_bits_roundtrip(b);
    assert forall|j: int| 0 <= j < n implies #[trigger] byte_at(bits, j) == b[j] by {
        lemma_byte_at_same_prefix(bits, bytes_bits(b), j);
        assert(bits_to_bytes(bytes_bits(b))[j] == byte_at(bytes_bits(b), j));
    }
    assert(bits_to_bytes(bits) =~= b);
}

/// Decoding an encoding gives back the bytes encoded: the strict decoder
/// accepts every encoding, and its UTF-16 form has one unit per character.
pub proof fn law_strict_roundtrip(b: Seq<u8>)
    ensures
        spec_decode(spec_encode(b)) == Ok::<Seq<u8>, DecodeError>(b),
        utf16_units(spec_encode(b)).len() == encoded_len(b.len()),
{
    let e = spec_encode(b);
    let l = encoded_len(b.len()) as int;
    assert forall|k: int| 0 <= k < e.len() implies (#[trigger] e[k] as u32) < 0x10000 by {
        lemma_encode_char(b, k);
    }
    lemma_utf16_bmp(e);
    let us = utf16_units(e);
    if b.len() == 0 {
        assert(b =~= Seq::<u8>::empty());
    } else {
        lemma_encode_shape(b);
        let m = l - 1;
        assert forall|k: int| 0 <= k < l implies #[trigger] unit_width(us[k]) == chunk_width(b, k)
            && unit_value(us[k]) == chunk_value(b, k) by {
            lemma_encode_char(b, k);
            assert(us[k] as u32 == e[k] as u32);
        }
        assert forall|k: int| 0 <= k < m implies #[trigger] unit_width(us[k]) == 15 by {
            assert(chunk_width(b, k) == 15);
        }
        assert(strict_error(us) is None) by {
            lemma_strict_error_wide(us);
        }
        let pb = padded_bits(b);
        let t = bits_upto(b, l);
        let bits = strict_bits(us);
        assert(total_bits(us) == t);
        assert forall|p: int| 0 <= p < t implies #[trigger] bits[p] == pb[p] by {
            if p < 15 * m {
                let k = p / 15;
                let r = p % 15;
                assert(0 <= k < m && 15 * k + r == p && 0 <= r < 15) by (nonlinear_arith)
                    requires
                        k == p / 15,
                        r == p % 15,
                        0 <= p < 15 * m,
                ;
                lemma_encode_char(b, k);
                assert(value_bits(chunk_value(b, k) as u64, 15)[r] == pb.subrange(
                    15 * k,
                    15 * k + 15,
                )[r]);
            } else {
                let r = p - 15 * m;
                lemma_encode_char(b, m);
                assert(value_bits(chunk_value(b, m) as u64, chunk_width(b, m))[r] == pb.subrange(
                    15 * m,
                    15 * m + chunk_width(b, m),
                )[r]);
            }
        }
        assert(bits =~= pb.subrange(0, t));
        lemma_written_bits(b, bits);
        assert(spec_decode_units(us) == Ok::<Seq<u8>, DecodeError>(bits_to_bytes(bits)));
    }
}

proof fn lemma_slow_start_from(cs: Seq<char>, j: int)
    requires
        0 <= j,
    ensures
        j <= slow_start(cs, j),
    decreases cs.len() - j,
{
    if j + 8 <= cs.len() && wide_window(cs, j) {
        lemma_slow_start_from(cs, j + 8);
    }
}

proof fn lemma_lenient_prefix(b: Seq<u8>, k: int)
    requires
        b.len() >= 1,
        0 <= k <= encoded_len(b.len()),
    ensures
        lenient_bits(spec_encode(b).take(k)) == padded_bits(b).subrange(0, bits_upto(b, k)),
    decreases k,
{
    let e = spec_encode(b);
    let pb = padded_bits(b);
    lemma_encode_shape(b);
    if k == 0 {
        assert(e.take(0) =~= Seq::<char>::empty());
        assert(pb.subrange(0, 0) =~= Seq::<bool>::empty());
    } else {
        lemma_lenient_prefix(b, k - 1);
        lemma_encode_char(b, k - 1);
        assert(e.take(k).drop_last() =~= e.take(k - 1));
        assert(e.take(k).last() == e[k - 1]);
        assert(char_width(e[k - 1]) == chunk_width(b, k - 1));
        assert(char_value(e[k - 1]) == chunk_value(b, k - 1));
        assert(bits_upto(b, k - 1) == 15 * (k - 1));
        assert(pb.subrange(0, bits_upto(b, k - 1)) + pb.subrange(
            15 * (k - 1),
            15 * (k - 1) + chunk_width(b, k - 1),
        ) =~= pb.subrange(0, bits_upto(b, k)));
    }
}

/// The lenient decoder also gives back the bytes encoded, and every encoding
/// stays within its lookup table.
pub proof fn law_lenient_roundtrip(b: Seq<u8>)
    ensures
        !lenient_out_of_table(spec_encode(b)),
        spec_decode_lenient(spec_encode(b)) == b,
{
    let e = spec_encode(b);
    assert forall|k: int| 0 <= k < e.len() implies (#[trigger] e[k] as u32) < 0x10000 by {
        lemma_encode_char(b, k);
    }
    if lenient_out_of_table(e) {
        let j = slow_start(e, 0);
        lemma_slow_start_from(e, 0);
        let k = choose|k: int| j <= k < j + 8 && (e[k] as u32) >= 0x10000;
        assert((e[k] as u32) < 0x10000);
    }
    if b.len() == 0 {
        assert(e =~= Seq::<char>::empty());
        assert(lenient_bits(e) =~= Seq::<bool>::empty());
        assert(spec_decode_lenient(e) =~= b);
    } else {
        let l = encoded_len(b.len()) as int;
        lemma_lenient_prefix(b, l);
        assert(e.take(l) =~= e);
        lemma_written_bits(b, lenient_bits(e));
    }
}

/// Where no UTF-16 unit of a text is a surrogate, the text lies in the Basic
/// Multilingual Plane.
proof fn lemma_utf16_no_surrogate(s: Seq<char>)
    requires
        forall|k: int| 0 <= k < utf16_units(s).len() ==> (#[trigger] utf16_units(s)[k]) < 0xD800,
    ensures
        forall|k: int| 0 <= k < s.len() ==> (#[trigger] s[k] as u32) < 0x10000,
    decreases s.len(),
{
    if s.len() > 0 {
        let s2 = s.drop_last();
        let u2 = utf16_units(s2);
        assert forall|k: int| 0 <= k < u2.len() implies (#[trigger] u2[k]) < 0xD800 by {
            assert(utf16_units(s)[k] == u2[k]);
        }
        lemma_utf16_no_surrogate(s2);
        let x = s.last() as u32;
        if x >= 0x10000 {
            vstd::utf8::char_is_scalar(s.last());
            assert(utf16_units(s)[u2.len() as int] == utf16_of(s.last())[0]);
            assert(false);
        }
        assert forall|k: int| 0 <= k < s.len() implies (#[trigger] s[k] as u32) < 0x10000 by {
            if k < s2.len() {
                assert(s2[k] == s[k]);
            }
        }
    }
}

/// The bits of the whole bytes of a stream are the stream's first bits.
proof fn lemma_bytes_of_bits(st: Seq<bool>, p: int)
    requires
        0 <= p < 8 * (st.len() / 8),
    ensures
        bytes_bits(bits_to_bytes(st))[p] == st[p],
{
    let j = p / 8;
    let r = p % 8;
    assert(0 <= j < st.len() / 8 && 8 * j + r == p && 0 <= r < 8) by (nonlinear_arith)
        requires
            j == p / 8,
            r == p % 8,
            0 <= p < 8 * (st.len() / 8),
    ;
    let sub = st.subrange(8 * j, 8 * j + 8);
    lemma_bits_value_bits(sub);
    assert(value_bits(bits_value(sub) as u64, 8)[r] == sub[r]);
    let x = bits_value(sub) as u64;
    assert(x >> 8u64 == 0 ==> (x as u8) as u64 == x) by (bit_vector);
}

/// What a text accepted by the strict decoder is made of: recognised units,
/// one per character, fifteen-bit ones before the last.
proof fn lemma_accepted_text(s: Seq<char>)
    requires
        spec_decode(s) is Ok,
    ensures
        utf16_units(s).len() == s.len(),
        forall|k: int| 0 <= k < s.len() ==> #[trigger] utf16_units(s)[k] as u32 == s[k] as u32,
        forall|k: int| 0 <= k < s.len() ==> (#[trigger] s[k] as u32) < 0xa860,
        s.len() >= 1 ==> unit_width(utf16_units(s)[s.len() - 1]) != 0,
        forall|k: int| 0 <= k < s.len() - 1 ==> #[trigger] unit_width(utf16_units(s)[k]) == 15,
{
    let us = utf16_units(s);
    if us.len() >= 1 {
        lemma_strict_error_wide(us);
    }
    assert forall|k: int| 0 <= k < us.len() implies (#[trigger] us[k]) < 0xD800 && unit_width(
        us[k],
    ) != 0 by {
        lemma_code_inverse(us[k] as int);
        if k < us.len() - 1 {
            assert(unit_width(us[k]) == 15);
        }
    }
    lemma_utf16_no_surrogate(s);
    lemma_utf16_bmp(s);
    assert forall|k: int| 0 <= k < s.len() implies (#[trigger] s[k] as u32) < 0xa860 by {
        lemma_code_inverse(us[k] as int);
        assert(us[k] as u32 == s[k] as u32);
    }
}

/// The lenient decoder reads every text the strict decoder accepts, and
/// gives the same bytes.
pub proof fn law_decoders_agree(s: Seq<char>, b: Seq<u8>)
    requires
        spec_decode(s) == Ok::<Seq<u8>, DecodeError>(b),
    ensures
        !lenient_out_of_table(s),
        spec_decode_lenient(s) == b,
{
    lemma_accepted_text(s);
    let us = utf16_units(s);
    if lenient_out_of_table(s) {
        let j = slow_start(s, 0);
        lemma_slow_start_from(s, 0);
        let k = choose|k: int| j <= k < j + 8 && (s[k] as u32) >= 0x10000;
        assert((s[k] as u32) < 0xa860);
    }
    if s.len() == 0 {
        assert(lenient_bits(s) =~= Seq::<bool>::empty());
        assert(spec_decode_lenient(s) =~= b);
    } else {
        let st = strict_bits(us);
        lemma_lenient_strict_prefix(s, s.len() as int);
        assert(s.take(s.len() as int) =~= s);
        assert(st.subrange(0, st.len() as int) =~= st);
    }
}

/// The first `k` characters of an accepted text carry the first bits of its
/// strict stream.
proof fn lemma_lenient_strict_prefix(s: Seq<char>, k: int)
    requires
        spec_decode(s) is Ok,
        s.len() >= 1,
        0 <= k <= s.len(),
    ensures
        lenient_bits(s.take(k)) == strict_bits(utf16_units(s)).subrange(
            0,
            if k < s.len() {
                15 * k
            } else {
                total_bits(utf16_units(s))
            },
        ),
    decreases k,
{
    lemma_accepted_text(s);
    let us = utf16_units(s);
    let st = strict_bits(us);
    let m = s.len() - 1;
    if k == 0 {
        assert(s.take(0) =~= Seq::<char>::empty());
        assert(st.subrange(0, 0) =~= Seq::<bool>::empty());
    } else {
        lemma_lenient_strict_prefix(s, k - 1);
        let c = s[k - 1];
        let u = us[k - 1];
        assert(s.take(k).drop_last() =~= s.take(k - 1));
        assert(s.take(k).last() == c);
        assert(u as u32 == c as u32);
        lemma_char_as_int(c);
        assert(c as int == u as int);
        assert(char_width(c) == unit_width(u) && char_value(c) == unit_value(u));
        let w = unit_width(u);
        let lo = 15 * (k - 1);
        let vb = value_bits(unit_value(u) as u64, w as nat);
        assert forall|r: int| 0 <= r < w implies #[trigger] vb[r] == st[lo + r] by {
            let p = lo + r;
            if k - 1 < m {
                assert(p / 15 == k - 1 && p % 15 == r) by (nonlinear_arith)
                    requires
                        p == 15 * (k - 1) + r,
                        0 <= r < 15,
                ;
            }
        }
        assert(st.subrange(0, lo) + vb =~= st.subrange(0, lo + w));
    }
}

/// A text the strict decoder reads as `a` and ending in a seven-bit character
/// whose seven bits are all padding: such a text is accepted, but encoding
/// `a` writes no character for the padding.
pub open spec fn ends_with_empty_char(s: Seq<char>) -> bool {
    let us = utf16_units(s);
    &&& us.len() >= 1
    &&& unit_width(us[us.len() - 1]) == 7
    &&& total_bits(us) % 8 == 7
}

/// Strict decoding is canonical: a text it accepts is the encoding of the
/// bytes it gives, unless its last character carries only padding.
pub proof fn law_canonical(s: Seq<char>, b: Seq<u8>)
    requires
        spec_decode(s) == Ok::<Seq<u8>, DecodeError>(b),
        !ends_with_empty_char(s),
    ensures
        spec_encode(b) == s,
{
    lemma_accepted_text(s);
    let us = utf16_units(s);
    if s.len() == 0 {
        assert(spec_encode(b) =~= s);
    } else {
        let m = s.len() - 1;
        let st = strict_bits(us);
        let t = total_bits(us);
        let n = b.len();
        let w_last = unit_width(us[m]);
        lemma_unit_width_cases(us[m]);
        assert(n == t / 8);
        assert(encoded_len(n) == s.len() && 15 * m + 8 <= 8 * n + 7 && (w_last == 15 ==> 8 * n
            - 15 * m >= 8) && (w_last == 7 ==> 8 * n - 15 * m < 8)) by (nonlinear_arith)
            requires
                n == t / 8,
                t == 15 * m + w_last,
                w_last == 15 || w_last == 7,
                w_last == 7 ==> t % 8 != 7,
                encoded_len(n) == (8 * n + 14) / 15,
                s.len() == m + 1,
        ;
        let pb = padded_bits(b);
        assert forall|p: int| 0 <= p < t implies #[trigger] pb[p] == st[p] by {
            if p < 8 * n {
                lemma_bytes_of_bits(st, p);
                assert(bits_to_bytes(st) == b);
            } else {
                assert(padding_ok(st));
                assert(st[p]);
            }
        }
        let e = spec_encode(b);
        assert forall|k: int| 0 <= k < s.len() implies #[trigger] e[k] == s[k] by {
            let w = unit_width(us[k]);
            lemma_unit_width_cases(us[k]);
            let vb = value_bits(unit_value(us[k]) as u64, w as nat);
            let sub = pb.subrange(15 * k, 15 * k + w);
            assert forall|r: int| 0 <= r < w implies #[trigger] sub[r] == vb[r] by {
                let p = 15 * k + r;
                if k < m {
                    assert(p / 15 == k && p % 15 == r) by (nonlinear_arith)
                        requires
                            p == 15 * k + r,
                            0 <= r < 15,
                    ;
                }
                assert(pb[p] == st[p]);
            }
            assert(sub =~= vb);
            lemma_code_inverse(us[k] as int);
            lemma_unit(us[k]);
            crate::bits::lemma_value_bits_value(unit_value(us[k]) as u64, w as nat);
            assert(us[k] as u32 == s[k] as u32);
            vstd::utf8::char_u32_cast(s[k], us[k] as u32);
            if w == 15 {
                assert(8 * n - 15 * k >= 8) by (nonlinear_arith)
                    requires
                        k <= m,
                        w_last == 15 ==> 8 * n - 15 * m >= 8,
                        k < m ==> 15 * m + 8 <= 8 * n + 7,
                        k == m ==> w_last == 15,
                ;
            }
        }
        assert(e =~= s);
    }
}

/// The other text strict decoding accepts: the encoding of the bytes it
/// gives followed by U+029F, the seven-bit character whose seven bits are all
/// padding, which encoding never writes.
pub proof fn law_canonical_padding_char(s: Seq<char>, b: Seq<u8>)
    requires
        spec_decode(s) == Ok::<Seq<u8>, DecodeError>(b),
        ends_with_empty_char(s),
    ensures
        s == spec_encode(b).push('\u{29f}'),
{
    lemma_accepted_text(s);
    let us = utf16_units(s);
    let m = s.len() - 1;
    let st = strict_bits(us);
    let t = total_bits(us);
    let n = b.len();
    assert(unit_width(us[m]) == 7);
    assert(t == 15 * m + 7);
    assert(8 * n == 15 * m && encoded_len(n) == m) by (nonlinear_arith)
        requires
            n == t / 8,
            t == 15 * m + 7,
            t % 8 == 7,
            encoded_len(n) == (8 * n + 14) / 15,
            m >= 0,
    ;
    let pb = padded_bits(b);
    assert forall|p: int| 0 <= p < 8 * n implies #[trigger] pb[p] == st[p] by {
        lemma_bytes_of_bits(st, p);
        assert(bits_to_bytes(st) == b);
    }
    let e = spec_encode(b);
    assert forall|k: int| 0 <= k < m implies #[trigger] e[k] == s[k] by {
        lemma_unit_width_cases(us[k]);
        let vb = value_bits(unit_value(us[k]) as u64, 15);
        let sub = pb.subrange(15 * k, 15 * k + 15);
        assert forall|r: int| 0 <= r < 15 implies #[trigger] sub[r] == vb[r] by {
            let p = 15 * k + r;
            assert(p / 15 == k && p % 15 == r && p < 8 * n) by (nonlinear_arith)
                requires
                    p == 15 * k + r,
                    0 <= r < 15,
                    k < m,
                    8 * n == 15 * m,
            ;
            assert(pb[p] == st[p]);
        }
        assert(sub =~= vb);
        lemma_code_inverse(us[k] as int);
        lemma_unit(us[k]);
        crate::bits::lemma_value_bits_value(unit_value(us[k]) as u64, 15);
        assert(us[k] as u32 == s[k] as u32);
        vstd::utf8::char_u32_cast(s[k], us[k] as u32);
        assert(8 * n - 15 * k >= 8);
    }
    // the last character carries seven padding bits, all ones: value 127
    let x = unit_value(us[m]) as u64;
    lemma_unit(us[m]);
    assert(padding_ok(st));
    assert forall|r: int| 0 <= r < 7 implies #[trigger] value_bits(x, 7)[r] == ones(7)[r] by {
        let p = 15 * m + r;
        assert(8 * (t / 8) <= p < t);
        assert(st[p]);
    }
    assert(value_bits(x, 7) =~= ones(7));
    crate::bits::lemma_value_bits_value(x, 7);
    assert(bits_value(ones(7)) == 127) by {
        reveal_with_fuel(bits_value, 8);
        assert(ones(7).drop_last() =~= ones(6));
        assert(ones(6).drop_last() =~= ones(5));
        assert(ones(5).drop_last() =~= ones(4));
        assert(ones(4).drop_last() =~= ones(3));
        assert(ones(3).drop_last() =~= ones(2));
        assert(ones(2).drop_last() =~= ones(1));
        assert(ones(1).drop_last() =~= ones(0));
    }
    lemma_code_inverse(us[m] as int);
    lemma_z7_last();
    assert(us[m] as u32 == 0x029f);
    assert(s[m] as u32 == 0x029f);
    vstd::utf8::char_u32_cast(s[m], 0x029f);
    assert(s =~= e.push('\u{29f}'));
}

/// What strict decoding accepts is the encoding of the bytes it gives,
/// possibly followed by U+029F.
pub proof fn law_accepted_forms(s: Seq<char>, b: Seq<u8>)
    requires
        spec_decode(s) == Ok::<Seq<u8>, DecodeError>(b),
    ensures
        s == spec_encode(b) || s == spec_encode(b).push('\u{29f}'),
{
    if ends_with_empty_char(s) {
        law_canonical_padding_char(s, b);
    } else {
        law_canonical(s, b);
    }
}

proof fn lemma_char_as_int(c: char)
    ensures
        (c as u32) as int == c as int,
{
}

proof fn lemma_unit_width_cases(u: u16)
    ensures
        unit_width(u) == 0 || unit_width(u) == 7 || unit_width(u) == 15,
        unit_width(u) == 15 ==> unit_value(u) < 32768 && z15_code(unit_value(u) as int) == u,
        unit_width(u) == 7 ==> unit_value(u) < 128 && z7_code(unit_value(u) as int) == u,
{
    lemma_code_inverse(u as int);
}

} // verus!
