//! Packing of fixed-width integers into bytes, least significant bit first.
//!
//! A list of `w`-bit digits stands for one large integer, the sum of
//! `v[i] * 2^(w * i)`. Packing and unpacking keep that integer and change the
//! width of the digits.

use vstd::arithmetic::div_mod::{
    lemma_div_denominator, lemma_fundamental_div_mod, lemma_fundamental_div_mod_converse,
    lemma_hoist_over_denominator, lemma_mod_bound, lemma_mod_multiples_vanish,
};
use vstd::arithmetic::power2::{
    lemma2_to64, lemma_pow2_adds, lemma_pow2_pos, pow2,
};
use vstd::bits::{lemma_u32_low_bits_mask_is_mod, lemma_u32_shl_is_mul, lemma_u32_shr_is_div};
use vstd::prelude::*;

use crate::algebraic::modular::lemma_pow2_at_most;

verus! {

/// The integer of the first `count` digits of `v`, of `w` bits each.
pub open spec fn digit_sum(v: Seq<int>, w: nat, count: nat) -> int
    decreases count,
{
    if count == 0 {
        0
    } else {
        digit_sum(v, w, (count - 1) as nat) + v[count - 1] * pow2(w * (count - 1) as nat)
    }
}

/// The digit of `w` bits at position `i` of `x`.
pub open spec fn digit(x: int, w: nat, i: int) -> int {
    (x / (pow2(w * i as nat) as int)) % (pow2(w) as int)
}

/// Whether the first `count` digits of `v` fit `w` bits.
pub open spec fn fits(v: Seq<int>, w: nat, count: nat) -> bool {
    forall|i: int| 0 <= i < count ==> 0 <= #[trigger] v[i] < pow2(w)
}

/// The bytes of a list as integers, with zeros up to the length `n`.
pub open spec fn padded(bytes: Seq<u8>, n: int) -> Seq<int> {
    Seq::new(
        n as nat,
        |i: int|
            if i < bytes.len() {
                bytes[i] as int
            } else {
                0
            },
    )
}

/// The entries of a list as integers.
pub open spec fn integers(values: Seq<u16>) -> Seq<int> {
    Seq::new(values.len(), |i: int| values[i] as int)
}

/// The sum of digits fits as many bits as the digits have.
pub proof fn lemma_digit_sum_range(v: Seq<int>, w: nat, count: nat)
    requires
        fits(v, w, count),
    ensures
        0 <= digit_sum(v, w, count) < pow2(w * count),
    decreases count,
{
    if count == 0 {
        lemma2_to64();
        assert(w * 0 == 0) by (nonlinear_arith);
    } else {
        let c = (count - 1) as nat;
        lemma_digit_sum_range(v, w, c);
        assert(w * count == w * c + w) by (nonlinear_arith)
            requires
                count == c + 1,
        ;
        lemma_pow2_adds(w * c, w);
        let (p, d) = (pow2(w * c) as int, v[c as int]);
        assert(0 <= d * p && d * p + p <= p * pow2(w)) by (nonlinear_arith)
            requires
                0 <= d < pow2(w),
                0 < p,
        ;
    }
}

/// Sums of digits agree when the digits do.
pub proof fn lemma_digit_sum_same(v: Seq<int>, u: Seq<int>, w: nat, count: nat)
    requires
        forall|i: int| 0 <= i < count ==> #[trigger] v[i] == u[i],
    ensures
        digit_sum(v, w, count) == digit_sum(u, w, count),
    decreases count,
{
    if count > 0 {
        lemma_digit_sum_same(v, u, w, (count - 1) as nat);
    }
}

/// The digits of a sum of digits are the digits.
pub proof fn lemma_digit(v: Seq<int>, w: nat, count: nat, i: int)
    requires
        fits(v, w, count),
        0 <= i < count,
    ensures
        digit(digit_sum(v, w, count), w, i) == v[i],
    decreases count,
{
    let c = (count - 1) as nat;
    let p = pow2(w * c) as int;
    let s = digit_sum(v, w, c);
    lemma_digit_sum_range(v, w, c);
    lemma_pow2_pos(w);
    lemma_pow2_pos(w * c);
    if i == c {
        lemma_fundamental_div_mod_converse(s + v[i] * p, p, v[i], s);
        lemma_fundamental_div_mod_converse(v[i], pow2(w) as int, 0, v[i]);
    } else {
        lemma_digit(v, w, c, i);
        // The top digit is a multiple of the next power.
        let a = pow2(w * i as nat) as int;
        let b = pow2(w) as int;
        let e = pow2((w * (c - i - 1)) as nat) as int;
        lemma_pow2_pos(w * i as nat);
        assert(0 <= w * (c - i - 1)) by (nonlinear_arith)
            requires
                i < c,
        ;
        assert(w * c == w * i + w + w * (c - i - 1)) by (nonlinear_arith);
        lemma_pow2_adds(w * i as nat, w);
        lemma_pow2_adds((w * i + w) as nat, (w * (c - i - 1)) as nat);
        let t = v[c as int];
        let top = t * p;
        assert(top == a * (b * (e * t))) by (nonlinear_arith)
            requires
                top == t * p,
                p == a * b * e,
        ;
        let k = b * (e * t);
        // Dividing by the lower power leaves a multiple of 2^w more.
        lemma_fundamental_div_mod(s, a);
        lemma_mod_bound(s, a);
        assert((s / a + k) * a == a * (s / a) + a * k) by (nonlinear_arith);
        lemma_fundamental_div_mod_converse(s + top, a, s / a + k, s % a);
        lemma_fundamental_div_mod(s / a, b);
        lemma_mod_bound(s / a, b);
        let q = s / a / b;
        assert((q + e * t) * b == b * q + k) by (nonlinear_arith)
            requires
                k == b * (e * t),
        ;
        lemma_fundamental_div_mod_converse(s / a + k, b, q + e * t, (s / a) % b);
    }
}

/// An integer is the sum of its digits.
pub proof fn lemma_digits(x: int, w: nat, count: nat)
    requires
        0 <= x < pow2(w * count),
    ensures
        fits(Seq::new(count, |i: int| digit(x, w, i)), w, count),
        digit_sum(Seq::new(count, |i: int| digit(x, w, i)), w, count) == x,
    decreases count,
{
    let v = Seq::new(count, |i: int| digit(x, w, i));
    assert forall|i: int| 0 <= i < count implies 0 <= #[trigger] v[i] < pow2(w) by {
        lemma_pow2_pos(w);
        lemma_mod_bound(x / (pow2(w * i as nat) as int), pow2(w) as int);
    }
    if count == 0 {
        lemma2_to64();
        assert(w * 0 == 0) by (nonlinear_arith);
    } else {
        let c = (count - 1) as nat;
        let p = pow2(w * c) as int;
        let b = pow2(w) as int;
        lemma_pow2_pos(w * c);
        lemma_pow2_pos(w);
        lemma_fundamental_div_mod(x, p);
        lemma_mod_bound(x, p);
        let low = x % p;
        let top = x / p;
        assert(w * count == w * c + w) by (nonlinear_arith)
            requires
                count == c + 1,
        ;
        lemma_pow2_adds(w * c, w);
        assert(0 <= top < b) by (nonlinear_arith)
            requires
                x == p * top + low,
                0 <= low < p,
                0 <= x < p * b,
        ;
        lemma_fundamental_div_mod_converse(top, b, 0, top);
        assert(v[c as int] == top);
        lemma_digits(low, w, c);
        let u = Seq::new(c, |i: int| digit(low, w, i));
        assert forall|i: int| 0 <= i < c implies #[trigger] v[i] == u[i] by {
            // The sum of the low digits and the top digit has the low digits.
            let y = u.push(top);
            assert forall|j: int| 0 <= j < count implies 0 <= #[trigger] y[j] < pow2(w) by {
                if j < c {
                    assert(y[j] == u[j]);
                }
            }
            lemma_digit_sum_same(y, u, w, c);
            assert(digit_sum(y, w, count) == low + top * p);
            assert(p * top == top * p) by (nonlinear_arith);
            lemma_digit(y, w, count, i);
        }
        lemma_digit_sum_same(v, u, w, c);
        assert(p * top == top * p) by (nonlinear_arith);
    }
}

/// The digits of `w` bits within a digit of `w * m` bits.
pub proof fn lemma_subdigit(x: int, w: nat, m: nat, i: int, r: int)
    requires
        0 <= x,
        0 <= i,
        0 <= r < m,
    ensures
        digit(x, w, m * i + r) == (digit(x, w * m, i) / (pow2(w * r as nat) as int)) % (pow2(
            w,
        ) as int),
{
    let e = (w * (m - r - 1)) as nat;
    assert(0 <= w * (m - r - 1)) by (nonlinear_arith)
        requires
            r < m,
    ;
    assert(w * m == w * r + w + w * (m - r - 1)) by (nonlinear_arith);
    assert(0 <= m * i) by (nonlinear_arith)
        requires
            0 <= i,
    ;
    assert((w * m) * i == w * (m * i)) by (nonlinear_arith);
    assert(w * (m * i + r) == w * (m * i) + w * r) by (nonlinear_arith);
    assert(0 <= w * (m * i) && 0 <= w * r) by (nonlinear_arith)
        requires
            0 <= m * i,
            0 <= r,
    ;
    let (base, low, b, top) = (
        pow2(((w * m) * i) as nat) as int,
        pow2((w * r) as nat) as int,
        pow2(w) as int,
        pow2(e) as int,
    );
    lemma_pow2_adds(((w * m) * i) as nat, (w * r) as nat);
    lemma_pow2_adds((w * r) as nat, w);
    lemma_pow2_adds((w * r + w) as nat, e);
    lemma_pow2_pos(((w * m) * i) as nat);
    lemma_pow2_pos((w * r) as nat);
    lemma_pow2_pos(w);
    lemma_pow2_pos(w * m);
    let whole = pow2(w * m) as int;
    lemma_div_denominator(x, base, low);
    let a = x / base;
    let q = a / whole;
    let d = a % whole;
    lemma_fundamental_div_mod(a, whole);
    let j = b * (top * q);
    assert(whole * q == j * low) by (nonlinear_arith)
        requires
            whole == low * b * top,
            j == b * (top * q),
    ;
    lemma_hoist_over_denominator(d, j, low as nat);
    lemma_mod_multiples_vanish(top * q, d / low, b);
}

proof fn lemma_or_is_add(low: u32, high: u32, bits: u32)
    by (bit_vector)
    requires
        bits < 16,
        low < (1u32 << bits),
        high <= 0xffff,
    ensures
        low | (high << bits) == low + (high << bits),
{
}

proof fn lemma_low_byte(x: u32)
    by (bit_vector)
    ensures
        x & 0xff == x % 256,
        x >> 8 == x / 256,
{
}

/// Appending bits above those already gathered.
proof fn lemma_append(low: u32, high: u32, bits: u32)
    requires
        bits < 16,
        low < pow2(bits as nat),
        high <= 0xffff,
    ensures
        low | (high << bits) == low + high * pow2(bits as nat),
{
    lemma2_to64();
    lemma_pow2_at_most(bits as nat, 15);
    lemma_u32_shl_is_mul(1, bits);
    assert(high * pow2(bits as nat) <= 0xffff * 0x8000) by (nonlinear_arith)
        requires
            high <= 0xffff,
            pow2(bits as nat) <= 0x8000,
    ;
    lemma_u32_shl_is_mul(high, bits);
    lemma_or_is_add(low, high, bits);
}

/// Two digits stay below the product of their bases.
proof fn lemma_below(a: int, p: int, v: int, b: int)
    requires
        0 <= a < p,
        0 <= v < b,
    ensures
        0 <= a + v * p < p * b,
{
    assert(0 <= v * p && v * p <= (b - 1) * p) by (nonlinear_arith)
        requires
            0 <= v <= b - 1,
            0 < p,
    ;
    assert((b - 1) * p == p * b - p) by (nonlinear_arith);
}

/// One more value on top of the digits so far.
proof fn lemma_gather(sum: int, acc: int, v: int, bytes: nat, bits: nat, d: nat, i: nat)
    requires
        d * i == 8 * bytes + bits,
    ensures
        sum + pow2(8 * bytes) * acc + v * pow2(d * i) == sum + pow2(8 * bytes) * (acc + v * pow2(
            bits,
        )),
{
    lemma_pow2_adds(8 * bytes, bits);
    let (p, q) = (pow2(8 * bytes) as int, pow2(bits) as int);
    assert(p * acc + v * (p * q) == p * (acc + v * q)) by (nonlinear_arith);
}

/// Moving the low digit of what is gathered over to the digits so far.
proof fn lemma_move_digit(sum: int, acc: int, w: nat, count: nat)
    ensures
        sum + pow2(w * count) * acc == sum + (acc % (pow2(w) as int)) * pow2(w * count) + pow2(
            w * (count + 1),
        ) * (acc / (pow2(w) as int)),
{
    lemma_pow2_pos(w);
    assert(w * (count + 1) == w * count + w) by (nonlinear_arith);
    lemma_pow2_adds(w * count, w);
    lemma_fundamental_div_mod(acc, pow2(w) as int);
    let (p, b) = (pow2(w * count) as int, pow2(w) as int);
    let (x, y) = (acc % b, acc / b);
    assert(p * (b * y + x) == x * p + (p * b) * y) by (nonlinear_arith);
}

/// What remains after the low digit has been moved is that much smaller.
proof fn lemma_remaining_bits(acc: int, w: nat, bits: nat)
    requires
        w <= bits,
        0 <= acc < pow2(bits),
    ensures
        0 <= acc / (pow2(w) as int) < pow2((bits - w) as nat),
{
    lemma_pow2_pos(w);
    lemma_pow2_adds(w, (bits - w) as nat);
    lemma_fundamental_div_mod(acc, pow2(w) as int);
    lemma_mod_bound(acc, pow2(w) as int);
    let (b, e, y) = (pow2(w) as int, pow2((bits - w) as nat) as int, acc / (pow2(w) as int));
    assert(0 <= y < e) by (nonlinear_arith)
        requires
            acc == b * y + acc % b,
            0 <= acc % b < b,
            0 <= acc < b * e,
    ;
}

/// Packs 256 values of `d` bits into the leading `32 * d` bytes of an array,
/// least significant bit first; the tail stays zero.
pub fn pack<const BYTES: usize>(values: &[u16; 256], d: usize) -> (r: [u8; BYTES])
    requires
        1 <= d <= 16,
        32 * d <= BYTES,
        fits(integers(values@), d as nat, 256),
    ensures
        forall|t: int|
            0 <= t < 32 * d ==> #[trigger] r@[t] == digit(
                digit_sum(integers(values@), d as nat, 256),
                8,
                t,
            ),
        forall|t: int| 32 * d <= t < BYTES ==> #[trigger] r@[t] == 0,
{
    let ghost v = integers(values@);
    let ghost w = d as nat;
    let mut out: [u8; BYTES] = [0u8; BYTES];
    let mut acc: u32 = 0;
    let mut bits: usize = 0;
    let mut pos: usize = 0;
    let mut i: usize = 0;
    proof {
        lemma2_to64();
        assert(w * 0 == 0) by (nonlinear_arith);
    }
    while i < 256
        invariant
            1 <= d <= 16,
            w == d,
            32 * d <= BYTES,
            i <= 256,
            v == integers(values@),
            fits(v, w, 256),
            pos <= 32 * d,
            bits < 8,
            d * i == 8 * pos + bits,
            acc < pow2(bits as nat),
            digit_sum(padded(out@, BYTES as int), 8, pos as nat) + pow2(8 * pos as nat) * acc
                == digit_sum(v, w, i as nat),
            forall|t: int| pos <= t < BYTES ==> #[trigger] out@[t] == 0,
        decreases 256 - i,
    {
        let value: u16 = values[i];
        proof {
            lemma2_to64();
            assert(v[i as int] == value);
            lemma_append(acc, value as u32, bits as u32);
            lemma_gather(
                digit_sum(padded(out@, BYTES as int), 8, pos as nat),
                acc as int,
                value as int,
                pos as nat,
                bits as nat,
                w,
                i as nat,
            );
            lemma_pow2_adds(bits as nat, w);
            lemma_pow2_at_most((bits + d) as nat, 23);
            let (a, p, b) = (acc as int, pow2(bits as nat) as int, pow2(w) as int);
            lemma_below(a, p, value as int, b);
            assert(d * (i + 1) == d * i + d) by (nonlinear_arith);
            assert(d * (i + 1) <= 256 * d) by (nonlinear_arith)
                requires
                    i < 256,
                    d >= 0,
            ;
        }
        acc = acc | ((value as u32) << bits);
        bits = bits + d;
        i = i + 1;
        while bits >= 8
            invariant
                1 <= d <= 16,
                w == d,
                32 * d <= BYTES,
                i <= 256,
                v == integers(values@),
                d * i == 8 * pos + bits,
                d * i <= 256 * d,
                bits <= 23,
                acc < pow2(bits as nat),
                digit_sum(padded(out@, BYTES as int), 8, pos as nat) + pow2(8 * pos as nat) * acc
                    == digit_sum(v, w, i as nat),
                forall|t: int| pos <= t < BYTES ==> #[trigger] out@[t] == 0,
            decreases bits,
        {
            let ghost before = padded(out@, BYTES as int);
            proof {
                lemma2_to64();
                lemma_low_byte(acc);
                lemma_move_digit(
                    digit_sum(before, 8, pos as nat),
                    acc as int,
                    8,
                    pos as nat,
                );
                lemma_remaining_bits(acc as int, 8, bits as nat);
            }
            out[pos] = (acc & 0xff) as u8;
            acc = acc >> 8;
            bits = bits - 8;
            pos = pos + 1;
            proof {
                let after = padded(out@, BYTES as int);
                lemma_digit_sum_same(after, before, 8, (pos - 1) as nat);
            }
        }
    }
    proof {
        lemma2_to64();
        assert(bits == 0 && pos == 32 * d);
        let b = padded(out@, BYTES as int);
        assert(pow2((8 * pos) as nat) * acc == 0) by (nonlinear_arith)
            requires
                acc == 0,
        ;
        assert forall|t: int| 0 <= t < 32 * d implies #[trigger] out@[t] == digit(
            digit_sum(v, w, 256),
            8,
            t,
        ) by {
            lemma_digit(b, 8, pos as nat, t);
            assert(b[t] == out@[t]);
        }
    }
    out
}

/// Unpacks 256 values of `d` bits from bytes, least significant bit first; a
/// short input is padded with zeros, and bytes past the first `32 * d` are not
/// read.
pub fn unpack(bytes: &[u8], d: usize) -> (r: [u16; 256])
    requires
        1 <= d <= 16,
    ensures
        forall|i: int|
            0 <= i < 256 ==> #[trigger] r@[i] == digit(
                digit_sum(padded(bytes@, 32 * d), 8, (32 * d) as nat),
                d as nat,
                i,
            ),
        fits(integers(r@), d as nat, 256),
{
    let ghost b = padded(bytes@, 32 * d);
    let ghost w = d as nat;
    proof {
        lemma2_to64();
        lemma_pow2_at_most(w, 16);
        lemma_u32_shl_is_mul(1, d as u32);
        assert(w * 0 == 0) by (nonlinear_arith);
    }
    let mask: u32 = (1u32 << d) - 1;
    let mut out: [u16; 256] = [0u16; 256];
    let mut acc: u32 = 0;
    let mut bits: usize = 0;
    let mut pos: usize = 0;
    let mut i: usize = 0;
    while i < 256
        invariant
            1 <= d <= 16,
            w == d,
            mask == pow2(w) - 1,
            b == padded(bytes@, 32 * d),
            i <= 256,
            pos <= 32 * d,
            bits < 8,
            8 * pos == d * i + bits,
            acc < pow2(bits as nat),
            digit_sum(integers(out@), w, i as nat) + pow2(w * i as nat) * acc == digit_sum(
                b,
                8,
                pos as nat,
            ),
            fits(integers(out@), w, i as nat),
        decreases 256 - i,
    {
        proof {
            assert(d * i + d <= 256 * d) by (nonlinear_arith)
                requires
                    i < 256,
                    d >= 0,
            ;
        }
        while bits < d
            invariant
                1 <= d <= 16,
                w == d,
                b == padded(bytes@, 32 * d),
                i < 256,
                pos <= 32 * d,
                bits < d + 8,
                8 * pos == d * i + bits,
                d * i + d <= 256 * d,
                acc < pow2(bits as nat),
                digit_sum(integers(out@), w, i as nat) + pow2(w * i as nat) * acc == digit_sum(
                    b,
                    8,
                    pos as nat,
                ),
            decreases d + 8 - bits,
        {
            let byte: u8 = if pos < bytes.len() {
                bytes[pos]
            } else {
                0
            };
            proof {
                lemma2_to64();
                assert(b[pos as int] == byte);
                lemma_append(acc, byte as u32, bits as u32);
                lemma_gather_byte(
                    digit_sum(integers(out@), w, i as nat),
                    acc as int,
                    byte as int,
                    pos as nat,
                    bits as nat,
                    w,
                    i as nat,
                );
                lemma_pow2_adds(bits as nat, 8);
                lemma_pow2_at_most((bits + 8) as nat, 23);
                let (a, p) = (acc as int, pow2(bits as nat) as int);
                lemma_below(a, p, byte as int, 256);
            }
            acc = acc | ((byte as u32) << bits);
            bits = bits + 8;
            pos = pos + 1;
        }
        let ghost before = integers(out@);
        proof {
            lemma2_to64();
            lemma_pow2_at_most(w, 16);
            lemma_u32_low_bits_mask_is_mod(acc, w);
            lemma_u32_shr_is_div(acc, d as u32);
            lemma_move_digit(digit_sum(before, w, i as nat), acc as int, w, i as nat);
            lemma_remaining_bits(acc as int, w, bits as nat);
            lemma_mod_bound(acc as int, pow2(w) as int);
            assert(d * (i + 1) == d * i + d) by (nonlinear_arith);
        }
        out[i] = (acc & mask) as u16;
        acc = acc >> d;
        bits = bits - d;
        i = i + 1;
        proof {
            let after = integers(out@);
            lemma_digit_sum_same(after, before, w, (i - 1) as nat);
            assert(after[i - 1] == out@[i - 1]);
            assert forall|k: int| 0 <= k < i implies 0 <= #[trigger] after[k] < pow2(w) by {
                if k < i - 1 {
                    assert(after[k] == before[k]);
                }
            }
        }
    }
    proof {
        lemma2_to64();
        assert(bits == 0 && pos == 32 * d);
        let u = integers(out@);
        assert(pow2((w * i) as nat) * acc == 0) by (nonlinear_arith)
            requires
                acc == 0,
        ;
        assert forall|k: int| 0 <= k < 256 implies #[trigger] out@[k] == digit(
            digit_sum(b, 8, (32 * d) as nat),
            w,
            k,
        ) by {
            lemma_digit(u, w, 256, k);
            assert(u[k] == out@[k]);
        }
    }
    out
}

/// One more byte on top of the digits so far.
proof fn lemma_gather_byte(sum: int, acc: int, byte: int, pos: nat, bits: nat, d: nat, i: nat)
    requires
        8 * pos == d * i + bits,
    ensures
        sum + pow2(d * i) * acc + byte * pow2(8 * pos) == sum + pow2(d * i) * (acc + byte * pow2(
            bits,
        )),
{
    lemma_pow2_adds(d * i, bits);
    let (p, q) = (pow2(d * i) as int, pow2(bits) as int);
    assert(p * acc + byte * (p * q) == p * (acc + byte * q)) by (nonlinear_arith);
}

} // verus!
