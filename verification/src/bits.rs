//! Bit streams: the mathematical model that both directions of the codec
//! are stated over.
//!
//! A bit stream is a `Seq<bool>`, most significant bit first. Bytes and
//! repertoire values are read from and written to such streams, and the
//! executable accumulators are related to them by `acc_holds`.
use vstd::prelude::*;

verus! {

/// Bit `i` of `x`, counted from the least significant end.
pub open spec fn ubit(x: u64, i: u64) -> bool {
    (x >> i) & 1u64 == 1u64
}

/// Bit `i` of a 128-bit `x`, counted from the least significant end.
pub open spec fn ubit128(x: u128, i: u128) -> bool {
    (x >> i) & 1u128 == 1u128
}

/// The number that a bit stream spells, most significant bit first.
pub open spec fn bits_value(s: Seq<bool>) -> nat
    decreases s.len(),
{
    if s.len() == 0 {
        0
    } else {
        2 * bits_value(s.drop_last()) + (if s.last() {
            1nat
        } else {
            0nat
        })
    }
}

/// The `w` low bits of `x`, most significant first.
pub open spec fn value_bits(x: u64, w: nat) -> Seq<bool> {
    Seq::new(w, |i: int| ubit(x, (w - 1 - i) as u64))
}

/// The bits of a byte string, each byte most significant bit first.
pub open spec fn bytes_bits(b: Seq<u8>) -> Seq<bool> {
    Seq::new(8 * b.len(), |i: int| ubit(b[i / 8] as u64, (7 - i % 8) as u64))
}

/// A run of `n` one bits.
pub open spec fn ones(n: nat) -> Seq<bool> {
    Seq::new(n, |i: int| true)
}

/// The byte spelled by bits `8 * j .. 8 * j + 8` of `s`.
pub open spec fn byte_at(s: Seq<bool>, j: int) -> u8 {
    bits_value(s.subrange(8 * j, 8 * j + 8)) as u8
}

/// The whole bytes of a bit stream; trailing bits that do not fill a byte are dropped.
pub open spec fn bits_to_bytes(s: Seq<bool>) -> Seq<u8> {
    Seq::new(s.len() / 8, |j: int| byte_at(s, j))
}

/// The `n` low bits of `acc` are the `n` bits of `s` that end just before `end`.
pub open spec fn acc_holds(acc: u64, n: nat, s: Seq<bool>, end: int) -> bool {
    &&& n <= end <= s.len()
    &&& forall|t: int| 0 <= t < n ==> #[trigger] ubit(acc, t as u64) == s[end - 1 - t]
}

/// The 128-bit form of `acc_holds`.
pub open spec fn acc_holds128(acc: u128, n: nat, s: Seq<bool>, end: int) -> bool {
    &&& n <= end <= s.len()
    &&& forall|t: int| 0 <= t < n ==> #[trigger] ubit128(acc, t as u128) == s[end - 1 - t]
}

// ---------------------------------------------------------------------------
// Bit-vector facts
// ---------------------------------------------------------------------------
proof fn bv_shr_zero(x: u64)
    ensures
        x >> 0u64 == x,
{
    assert(x >> 0u64 == x) by (bit_vector);
}

proof fn bv_shr_step(x: u64, n: u64)
    requires
        1 <= n < 64,
        x >> n == 0,
    ensures
        (x >> 1u64) >> ((n - 1) as u64) == 0,
{
    assert((x >> 1u64) >> ((n - 1) as u64) == x >> n) by (bit_vector)
        requires
            1 <= n < 64,
    ;
}

proof fn bv_bit_shift_one(x: u64, t: u64)
    requires
        t < 63,
    ensures
        ubit(x >> 1u64, t) == ubit(x, (t + 1) as u64),
{
    assert(((x >> 1u64) >> t) & 1u64 == (x >> ((t + 1) as u64)) & 1u64) by (bit_vector)
        requires
            t < 63,
    ;
}

proof fn bv_split_low(x: u64)
    ensures
        x == 2 * (x >> 1u64) + (if ubit(x, 0) {
            1int
        } else {
            0int
        }),
{
    assert(x == 2 * (x >> 1u64) + (x & 1u64) && (x >> 0u64) & 1u64 == x & 1u64 && (x & 1u64 == 0u64
        || x & 1u64 == 1u64)) by (bit_vector);
}

proof fn bv_join_low(y: u64, b: u64, n: u64)
    requires
        1 <= n < 64,
        b <= 1,
        y >> ((n - 1) as u64) == 0,
    ensures
        2 * y + b <= u64::MAX,
        ((2 * y + b) as u64) >> n == 0,
        ubit((2 * y + b) as u64, 0) == (b == 1),
        forall|t: u64| t < 63 ==> ubit((2 * y + b) as u64, (t + 1) as u64) == #[trigger] ubit(y, t),
{
    assert(2 * y + b <= u64::MAX && ((2 * y + b) as u64) >> n == 0 && (((2 * y + b) as u64)
        >> 0u64) & 1u64 == b) by (bit_vector)
        requires
            1 <= n < 64,
            b <= 1,
            y >> ((n - 1) as u64) == 0,
    ;
    assert forall|t: u64| t < 63 implies ubit((2 * y + b) as u64, (t + 1) as u64) == #[trigger] ubit(
        y,
        t,
    ) by {
        assert((((2 * y + b) as u64) >> ((t + 1) as u64)) & 1u64 == (y >> t) & 1u64)
            by (bit_vector)
            requires
                1 <= n < 64,
                b <= 1,
                y >> ((n - 1) as u64) == 0,
                t < 63,
        ;
    }
}

// ---------------------------------------------------------------------------
// Values and bit strings
// ---------------------------------------------------------------------------
/// A bit string of fewer than 64 bits spells the number whose low bits it lists.
pub proof fn lemma_bits_value_eq(s: Seq<bool>, x: u64)
    requires
        s.len() < 64,
        x >> (s.len() as u64) == 0,
        forall|t: int| 0 <= t < s.len() ==> s[s.len() - 1 - t] == #[trigger] ubit(x, t as u64),
    ensures
        bits_value(s) == x,
    decreases s.len(),
{
    if s.len() == 0 {
        bv_shr_zero(x);
    } else {
        let n = s.len();
        let s2 = s.drop_last();
        let x2 = x >> 1u64;
        bv_shr_step(x, n as u64);
        assert forall|t: int| 0 <= t < s2.len() implies s2[s2.len() - 1 - t] == #[trigger] ubit(
            x2,
            t as u64,
        ) by {
            bv_bit_shift_one(x, t as u64);
            assert(s[n - 1 - (t + 1)] == ubit(x, (t + 1) as u64));
        }
        lemma_bits_value_eq(s2, x2);
        bv_split_low(x);
        assert(s[n - 1 - 0] == ubit(x, 0));
    }
}

/// Reading back the `w` bits of `x` gives `x` again.
pub proof fn lemma_value_bits_value(x: u64, w: nat)
    requires
        w < 64,
        x >> (w as u64) == 0,
    ensures
        bits_value(value_bits(x, w)) == x,
{
    let s = value_bits(x, w);
    assert forall|t: int| 0 <= t < s.len() implies s[s.len() - 1 - t] == #[trigger] ubit(
        x,
        t as u64,
    ) by {}
    lemma_bits_value_eq(s, x);
}

/// The value of a short bit string fits its width, and its bits are the string.
pub proof fn lemma_bits_value_bits(s: Seq<bool>)
    requires
        s.len() < 64,
    ensures
        bits_value(s) <= u64::MAX,
        (bits_value(s) as u64) >> (s.len() as u64) == 0,
        value_bits(bits_value(s) as u64, s.len()) == s,
    decreases s.len(),
{
    let n = s.len();
    if n == 0 {
        bv_shr_zero(0);
        assert(value_bits(0, 0) =~= s);
    } else {
        let s2 = s.drop_last();
        lemma_bits_value_bits(s2);
        let y = bits_value(s2) as u64;
        let b: u64 = if s.last() {
            1
        } else {
            0
        };
        bv_join_low(y, b, n as u64);
        let x = (2 * y + b) as u64;
        assert(bits_value(s) == 2 * y + b);
        let v = value_bits(x, n);
        assert forall|i: int| 0 <= i < n implies v[i] == s[i] by {
            if i == n - 1 {
                assert(v[i] == ubit(x, 0));
            } else {
                let t = (n - 2 - i) as u64;
                assert(v[i] == ubit(x, (t + 1) as u64));
                assert(ubit(x, (t + 1) as u64) == ubit(y, t));
                assert(value_bits(y, (n - 1) as nat)[i] == ubit(y, t));
                assert(s2[i] == s[i]);
            }
        }
        assert(v =~= s);
    }
}

/// Splitting a byte string into bits and reading the bytes back gives it again.
pub proof fn lemma_bytes_bits_roundtrip(b: Seq<u8>)
    ensures
        bits_to_bytes(bytes_bits(b)) == b,
{
    let s = bytes_bits(b);
    assert(s.len() / 8 == b.len());
    assert forall|j: int| 0 <= j < b.len() implies #[trigger] byte_at(s, j) == b[j] by {
        lemma_byte_of_bits(b, j);
    }
    assert(bits_to_bytes(s) =~= b);
}

proof fn lemma_byte_of_bits(b: Seq<u8>, j: int)
    requires
        0 <= j < b.len(),
    ensures
        byte_at(bytes_bits(b), j) == b[j],
{
    let s = bytes_bits(b);
    let sub = s.subrange(8 * j, 8 * j + 8);
    let x = b[j] as u64;
    assert(x >> 8u64 == 0) by (bit_vector)
        requires
            x <= 255,
    ;
    assert forall|t: int| 0 <= t < 8 implies sub[8 - 1 - t] == #[trigger] ubit(x, t as u64) by {
        let p = 8 * j + 7 - t;
        assert(p / 8 == j && p % 8 == 7 - t) by (nonlinear_arith)
            requires
                p == 8 * j + 7 - t,
                0 <= t < 8,
        ;
    }
    lemma_bits_value_eq(sub, x);
}

// ---------------------------------------------------------------------------
// Accumulators
// ---------------------------------------------------------------------------
proof fn bv_push_bit(acc: u64, x: u64, w: u64, t: u64)
    requires
        w < 64,
        t < 64,
        x >> w == 0,
    ensures
        ubit((acc << w) | x, t) == if t < w {
            ubit(x, t)
        } else {
            ubit(acc, (t - w) as u64)
        },
{
    assert((((acc << w) | x) >> t) & 1u64 == if t < w {
        (x >> t) & 1u64
    } else {
        (acc >> ((t - w) as u64)) & 1u64
    }) by (bit_vector)
        requires
            w < 64,
            t < 64,
            x >> w == 0,
    ;
}

/// Shifting `w` new bits into an accumulator extends the run of stream bits it holds.
pub proof fn lemma_acc_push(acc: u64, n: nat, x: u64, w: nat, s: Seq<bool>, end: int)
    requires
        acc_holds(acc, n, s, end),
        n + w <= 64,
        w < 64,
        x >> (w as u64) == 0,
        end + w <= s.len(),
        forall|t: int| 0 <= t < w ==> #[trigger] ubit(x, t as u64) == s[end + w - 1 - t],
    ensures
        acc_holds((acc << (w as u64)) | x, n + w, s, end + w),
{
    let a2 = (acc << (w as u64)) | x;
    assert forall|t: int| 0 <= t < n + w implies #[trigger] ubit(a2, t as u64) == s[end + w - 1
        - t] by {
        bv_push_bit(acc, x, w as u64, t as u64);
        if t >= w {
            assert(ubit(acc, (t - w) as u64) == s[end - 1 - (t - w)]);
        }
    }
}

/// Shifting `w` bits into an accumulator of `n` bits leaves `n + w` bits.
pub proof fn lemma_push_bound(acc: u64, n: nat, x: u64, w: nat)
    requires
        acc >> (n as u64) == 0,
        x >> (w as u64) == 0,
        n + w < 64,
    ensures
        ((acc << (w as u64)) | x) >> ((n + w) as u64) == 0,
{
    let nn = n as u64;
    let ww = w as u64;
    assert(((acc << ww) | x) >> ((nn + ww) as u64) == 0) by (bit_vector)
        requires
            acc >> nn == 0,
            x >> ww == 0,
            nn + ww < 64,
    ;
}

proof fn bv_pop_bit(acc: u64, k: u64, t: u64)
    requires
        k + 8 <= 64,
        t < 8,
    ensures
        ubit(((acc >> k) as u8) as u64, t) == ubit(acc, (k + t) as u64),
        ((acc >> k) as u8) as u64 >> 8u64 == 0,
{
    assert((((acc >> k) as u8) as u64 >> t) & 1u64 == (acc >> ((k + t) as u64)) & 1u64 && ((acc
        >> k) as u8) as u64 >> 8u64 == 0) by (bit_vector)
        requires
            k + 8 <= 64,
            t < 8,
    ;
}

/// The top byte of the bits an accumulator holds is the next byte of the stream.
pub proof fn lemma_acc_pop_byte(acc: u64, n: nat, s: Seq<bool>, end: int)
    requires
        acc_holds(acc, n, s, end),
        8 <= n <= 64,
    ensures
        ((acc >> ((n - 8) as u64)) as u8) as nat == bits_value(s.subrange(end - n, end - n + 8)),
        acc_holds(acc, (n - 8) as nat, s, end),
{
    let k = (n - 8) as u64;
    let x = ((acc >> k) as u8) as u64;
    let sub = s.subrange(end - n, end - n + 8);
    bv_pop_bit(acc, k, 0);
    assert forall|t: int| 0 <= t < 8 implies sub[8 - 1 - t] == #[trigger] ubit(x, t as u64) by {
        bv_pop_bit(acc, k, t as u64);
        assert(ubit(acc, (k + t) as u64) == s[end - 1 - (k + t)]);
    }
    lemma_bits_value_eq(sub, x);
}

proof fn bv_chunk_bit(acc: u64, k: u64, w: u64, t: u64)
    requires
        k + w <= 64,
        1 <= w < 64,
        t < w,
    ensures
        ubit((acc >> k) & ((1u64 << w) - 1u64) as u64, t) == ubit(acc, (k + t) as u64),
        ((acc >> k) & ((1u64 << w) - 1u64) as u64) >> w == 0,
{
    assert((((acc >> k) & ((1u64 << w) - 1u64) as u64) >> t) & 1u64 == (acc >> ((k + t) as u64))
        & 1u64 && ((acc >> k) & ((1u64 << w) - 1u64) as u64) >> w == 0) by (bit_vector)
        requires
            k + w <= 64,
            1 <= w < 64,
            t < w,
    ;
}

/// The top `w` bits an accumulator holds spell the next `w` bits of the stream.
pub proof fn lemma_acc_pop_chunk(acc: u64, n: nat, w: nat, s: Seq<bool>, end: int)
    requires
        acc_holds(acc, n, s, end),
        1 <= w <= n <= 64,
        w < 64,
    ensures
        ((acc >> ((n - w) as u64)) & ((1u64 << (w as u64)) - 1u64) as u64) as nat == bits_value(
            s.subrange(end - n, end - n + w),
        ),
        acc_holds(acc, (n - w) as nat, s, end),
{
    let k = (n - w) as u64;
    let x = (acc >> k) & ((1u64 << (w as u64)) - 1u64) as u64;
    let sub = s.subrange(end - n, end - n + w);
    bv_chunk_bit(acc, k, w as u64, 0);
    assert forall|t: int| 0 <= t < w implies sub[w - 1 - t] == #[trigger] ubit(x, t as u64) by {
        bv_chunk_bit(acc, k, w as u64, t as u64);
        assert(ubit(acc, (k + t) as u64) == s[end - 1 - (k + t)]);
    }
    lemma_bits_value_eq(sub, x);
}

proof fn bv_mask_bit(acc: u64, n: u64, t: u64)
    requires
        n < 64,
    ensures
        t < n ==> ubit(acc & ((1u64 << n) - 1u64) as u64, t) == ubit(acc, t),
        (acc & ((1u64 << n) - 1u64) as u64) >> n == 0,
{
    assert((t < n ==> ((acc & ((1u64 << n) - 1u64) as u64) >> t) & 1u64 == (acc >> t) & 1u64) && (
    acc & ((1u64 << n) - 1u64) as u64) >> n == 0) by (bit_vector)
        requires
            n < 64,
    ;
}

/// Clearing the bits above the `n` held ones keeps what the accumulator holds.
pub proof fn lemma_acc_mask(acc: u64, n: nat, s: Seq<bool>, end: int)
    requires
        acc_holds(acc, n, s, end),
        n < 64,
    ensures
        acc_holds(acc & ((1u64 << (n as u64)) - 1u64) as u64, n, s, end),
        (acc & ((1u64 << (n as u64)) - 1u64) as u64) >> (n as u64) == 0,
{
    let a2 = acc & ((1u64 << (n as u64)) - 1u64) as u64;
    bv_mask_bit(acc, n as u64, 0);
    assert forall|t: int| 0 <= t < n implies #[trigger] ubit(a2, t as u64) == s[end - 1 - t] by {
        bv_mask_bit(acc, n as u64, t as u64);
    }
}

// ---------------------------------------------------------------------------
// 128-bit accumulators
// ---------------------------------------------------------------------------
proof fn bv_push_bit128(acc: u128, x: u128, w: u128, t: u128)
    requires
        w < 128,
        t < 128,
        x >> w == 0,
    ensures
        ubit128((acc << w) | x, t) == if t < w {
            ubit128(x, t)
        } else {
            ubit128(acc, (t - w) as u128)
        },
{
    assert((((acc << w) | x) >> t) & 1u128 == if t < w {
        (x >> t) & 1u128
    } else {
        (acc >> ((t - w) as u128)) & 1u128
    }) by (bit_vector)
        requires
            w < 128,
            t < 128,
            x >> w == 0,
    ;
}

/// Shifting `w` new bits into a 128-bit accumulator extends the run it holds.
pub proof fn lemma_acc_push128(acc: u128, n: nat, x: u128, w: nat, s: Seq<bool>, end: int)
    requires
        acc_holds128(acc, n, s, end),
        n + w <= 128,
        w < 128,
        x >> (w as u128) == 0,
        end + w <= s.len(),
        forall|t: int| 0 <= t < w ==> #[trigger] ubit128(x, t as u128) == s[end + w - 1 - t],
    ensures
        acc_holds128((acc << (w as u128)) | x, n + w, s, end + w),
{
    let a2 = (acc << (w as u128)) | x;
    assert forall|t: int| 0 <= t < n + w implies #[trigger] ubit128(a2, t as u128) == s[end + w
        - 1 - t] by {
        bv_push_bit128(acc, x, w as u128, t as u128);
        if t >= w {
            assert(ubit128(acc, (t - w) as u128) == s[end - 1 - (t - w)]);
        }
    }
}

proof fn bv_pop_bit128(acc: u128, k: u128, t: u128)
    requires
        k + 8 <= 128,
        t < 8,
    ensures
        ubit(((acc >> k) as u8) as u64, t as u64) == ubit128(acc, (k + t) as u128),
        ((acc >> k) as u8) as u64 >> 8u64 == 0,
{
    assert(((((acc >> k) as u8) as u64 >> (t as u64)) & 1u64 == 1u64 <==> (acc >> ((k + t)
        as u128)) & 1u128 == 1u128) && ((acc >> k) as u8) as u64 >> 8u64 == 0) by (bit_vector)
        requires
            k + 8 <= 128,
            t < 8,
    ;
}

/// The top byte of the bits a 128-bit accumulator holds is the next byte of the stream.
pub proof fn lemma_acc_pop_byte128(acc: u128, n: nat, s: Seq<bool>, end: int)
    requires
        acc_holds128(acc, n, s, end),
        8 <= n <= 128,
    ensures
        ((acc >> ((n - 8) as u128)) as u8) as nat == bits_value(s.subrange(end - n, end - n + 8)),
        acc_holds128(acc, (n - 8) as nat, s, end),
{
    let k = (n - 8) as u128;
    let x = ((acc >> k) as u8) as u64;
    let sub = s.subrange(end - n, end - n + 8);
    bv_pop_bit128(acc, k, 0);
    assert forall|t: int| 0 <= t < 8 implies sub[8 - 1 - t] == #[trigger] ubit(x, t as u64) by {
        bv_pop_bit128(acc, k, t as u128);
        assert(ubit128(acc, (k + t) as u128) == s[end - 1 - (k + t)]);
    }
    lemma_bits_value_eq(sub, x);
}

/// A 128-bit accumulator is only read through the bits it holds.
pub proof fn lemma_acc_holds128_same_prefix(
    acc: u128,
    n: nat,
    s: Seq<bool>,
    s2: Seq<bool>,
    end: int,
)
    requires
        acc_holds128(acc, n, s, end),
        end <= s2.len(),
        forall|p: int| end - n <= p < end ==> s[p] == s2[p],
    ensures
        acc_holds128(acc, n, s2, end),
{
    assert forall|t: int| 0 <= t < n implies #[trigger] ubit128(acc, t as u128) == s2[end - 1
        - t] by {
        assert(s[end - 1 - t] == s2[end - 1 - t]);
    }
}

/// Bytes read from a stream depend only on the bits they cover.
pub proof fn lemma_byte_at_same_prefix(s: Seq<bool>, s2: Seq<bool>, j: int)
    requires
        0 <= j,
        8 * j + 8 <= s.len(),
        8 * j + 8 <= s2.len(),
        forall|p: int| 8 * j <= p < 8 * j + 8 ==> s[p] == s2[p],
    ensures
        byte_at(s, j) == byte_at(s2, j),
{
    assert(s.subrange(8 * j, 8 * j + 8) =~= s2.subrange(8 * j, 8 * j + 8));
}

// ---------------------------------------------------------------------------
// Reading bytes off accumulators
// ---------------------------------------------------------------------------
/// An accumulator holding `n` bits holds its lowest `k` of them too.
pub proof fn lemma_holds_fewer(acc: u64, n: nat, k: nat, s: Seq<bool>, end: int)
    requires
        acc_holds(acc, n, s, end),
        k <= n,
    ensures
        acc_holds(acc, k, s, end),
{
}

/// The 128-bit form of `lemma_holds_fewer`.
pub proof fn lemma_holds128_fewer(acc: u128, n: nat, k: nat, s: Seq<bool>, end: int)
    requires
        acc_holds128(acc, n, s, end),
        k <= n,
    ensures
        acc_holds128(acc, k, s, end),
{
}

/// An accumulator holds its own low `n` bits, read as a stream.
pub proof fn lemma_acc_holds_own(acc: u64, n: nat)
    requires
        n <= 64,
    ensures
        acc_holds(acc, n, value_bits(acc, n), n as int),
{
    assert forall|t: int| 0 <= t < n implies #[trigger] ubit(acc, t as u64) == value_bits(acc, n)[n
        - 1 - t] by {}
}

/// Byte `j` from the top of the `n` bits an accumulator holds is the byte of
/// the stream that starts `8 * j` bits after them.
pub proof fn lemma_acc_byte(acc: u64, n: nat, s: Seq<bool>, end: int, j: int)
    requires
        acc_holds(acc, n, s, end),
        n <= 64,
        0 <= j,
        8 * (j + 1) <= n,
    ensures
        ((acc >> ((n - 8 * (j + 1)) as u64)) as u8) as nat == bits_value(
            s.subrange(end - n + 8 * j, end - n + 8 * j + 8),
        ),
{
    let k = (n - 8 * j) as nat;
    lemma_holds_fewer(acc, n, k, s, end);
    lemma_acc_pop_byte(acc, k, s, end);
}

/// The 128-bit form of `lemma_acc_byte`.
pub proof fn lemma_acc_byte128(acc: u128, n: nat, s: Seq<bool>, end: int, j: int)
    requires
        acc_holds128(acc, n, s, end),
        n <= 128,
        0 <= j,
        8 * (j + 1) <= n,
    ensures
        ((acc >> ((n - 8 * (j + 1)) as u128)) as u8) as nat == bits_value(
            s.subrange(end - n + 8 * j, end - n + 8 * j + 8),
        ),
{
    let k = (n - 8 * j) as nat;
    lemma_holds128_fewer(acc, n, k, s, end);
    lemma_acc_pop_byte128(acc, k, s, end);
}

/// A byte read from a sub-stream that starts on a byte boundary is a byte of
/// the whole stream.
pub proof fn lemma_byte_at_subrange(s: Seq<bool>, a: int, b: int, j: int)
    requires
        0 <= a <= b <= s.len(),
        a % 8 == 0,
        0 <= j,
        8 * j + 8 <= b - a,
    ensures
        byte_at(s.subrange(a, b), j) == byte_at(s, j + a / 8),
{
    assert(s.subrange(a, b).subrange(8 * j, 8 * j + 8) =~= s.subrange(8 * (j + a / 8), 8 * (j + a
        / 8) + 8));
}

/// Byte `j` from the top of the `n` bits an accumulator holds, where those
/// bits start on a byte boundary of the stream, is a byte of the stream.
pub proof fn lemma_top_byte(acc: u64, n: nat, s: Seq<bool>, end: int, j: int)
    requires
        acc_holds(acc, n, s, end),
        n <= 64,
        0 <= j,
        8 * (j + 1) <= n,
        (end - n) % 8 == 0,
    ensures
        ((acc >> ((n - 8 * (j + 1)) as u64)) as u8) == byte_at(s, (end - n) / 8 + j),
{
    lemma_acc_byte(acc, n, s, end, j);
    assert(8 * ((end - n) / 8 + j) == end - n + 8 * j);
}

/// The 128-bit form of `lemma_top_byte`.
pub proof fn lemma_top_byte128(acc: u128, n: nat, s: Seq<bool>, end: int, j: int)
    requires
        acc_holds128(acc, n, s, end),
        n <= 128,
        0 <= j,
        8 * (j + 1) <= n,
        (end - n) % 8 == 0,
    ensures
        ((acc >> ((n - 8 * (j + 1)) as u128)) as u8) == byte_at(s, (end - n) / 8 + j),
{
    lemma_acc_byte128(acc, n, s, end, j);
    assert(8 * ((end - n) / 8 + j) == end - n + 8 * j);
}

} // verus!
