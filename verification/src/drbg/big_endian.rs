//! Arithmetic on lists of bytes that stand for integers, the most significant
//! byte first.

use vstd::arithmetic::div_mod::lemma_fundamental_div_mod_converse;
use vstd::arithmetic::power::pow;
use vstd::prelude::*;

verus! {

/// `256^n`.
pub open spec fn radix(n: nat) -> int
    decreases n,
{
    if n == 0 {
        1
    } else {
        256 * radix((n - 1) as nat)
    }
}

/// The integer of the bytes from position `j` on.
pub open spec fn suffix_value(s: Seq<u8>, j: int) -> int
    decreases s.len() - j,
{
    if j >= s.len() {
        0
    } else {
        s[j] * radix((s.len() - 1 - j) as nat) + suffix_value(s, j + 1)
    }
}

/// The integer that a list of bytes stands for.
pub open spec fn be_value(s: Seq<u8>) -> int {
    suffix_value(s, 0)
}

/// The `n` bytes that stand for an integer.
pub open spec fn be_encode(x: int, n: nat) -> Seq<u8> {
    choose|s: Seq<u8>| s.len() == n && be_value(s) == x
}

/// The integer of `m` bytes is below `256^m`.
proof fn lemma_suffix_range(s: Seq<u8>, j: int)
    requires
        0 <= j <= s.len(),
    ensures
        0 <= suffix_value(s, j) < radix((s.len() - j) as nat),
    decreases s.len() - j,
{
    if j < s.len() {
        lemma_suffix_range(s, j + 1);
        let r = radix((s.len() - 1 - j) as nat);
        let b = s[j] as int;
        assert(0 <= b * r && b * r + r <= 256 * r) by (nonlinear_arith)
            requires
                0 <= b <= 255,
                0 < r,
        ;
    }
}

/// The integer of a list of bytes is below `256` to the length of the list.
pub proof fn lemma_be_range(s: Seq<u8>)
    ensures
        0 <= be_value(s) < radix(s.len()),
{
    lemma_suffix_range(s, 0);
}

/// Lists that agree from a position on have the same integer from there on.
proof fn lemma_suffix_same(s: Seq<u8>, t: Seq<u8>, j: int)
    requires
        s.len() == t.len(),
        0 <= j <= s.len(),
        forall|k: int| j <= k < s.len() ==> #[trigger] s[k] == t[k],
    ensures
        suffix_value(s, j) == suffix_value(t, j),
    decreases s.len() - j,
{
    if j < s.len() {
        lemma_suffix_same(s, t, j + 1);
    }
}

/// Lists that agree before a position differ by what follows it.
proof fn lemma_prefix_same(s: Seq<u8>, t: Seq<u8>, i: int, j: int)
    requires
        s.len() == t.len(),
        0 <= i <= j <= s.len(),
        forall|k: int| i <= k < j ==> #[trigger] s[k] == t[k],
    ensures
        suffix_value(s, i) - suffix_value(s, j) == suffix_value(t, i) - suffix_value(t, j),
    decreases j - i,
{
    if i < j {
        lemma_prefix_same(s, t, i + 1, j);
    }
}

/// Lists of the same length with the same integer are equal from there on.
proof fn lemma_suffix_injective(s: Seq<u8>, t: Seq<u8>, j: int)
    requires
        s.len() == t.len(),
        0 <= j <= s.len(),
        suffix_value(s, j) == suffix_value(t, j),
    ensures
        forall|k: int| j <= k < s.len() ==> #[trigger] s[k] == t[k],
    decreases s.len() - j,
{
    if j < s.len() {
        lemma_suffix_range(s, j + 1);
        lemma_suffix_range(t, j + 1);
        let r = radix((s.len() - 1 - j) as nat);
        let (a, b) = (s[j] as int, t[j] as int);
        let (x, y) = (suffix_value(s, j + 1), suffix_value(t, j + 1));
        lemma_fundamental_div_mod_converse(a * r + x, r, a, x);
        lemma_fundamental_div_mod_converse(b * r + y, r, b, y);
        lemma_suffix_injective(s, t, j + 1);
    }
}

/// Lists of the same length that stand for the same integer are equal.
pub proof fn law_be_injective(s: Seq<u8>, t: Seq<u8>)
    requires
        s.len() == t.len(),
        be_value(s) == be_value(t),
    ensures
        s == t,
{
    lemma_suffix_injective(s, t, 0);
    assert(s =~= t);
}

/// The bytes of the integer of a list are the list.
pub proof fn law_be_encode(s: Seq<u8>)
    ensures
        be_encode(be_value(s), s.len()) == s,
{
    let t = be_encode(be_value(s), s.len());
    assert(s.len() == s.len() && be_value(s) == be_value(s));
    law_be_injective(s, t);
}

/// The modulus of lists of `n` bytes is the power of 256.
pub proof fn law_radix(n: nat)
    ensures
        radix(n) == pow(256, n),
    decreases n,
{
    reveal(pow);
    if n > 0 {
        law_radix((n - 1) as nat);
    }
}

/// A further byte counts once, and what precedes it 256 times.
proof fn lemma_suffix_push(s: Seq<u8>, b: u8, j: int)
    requires
        0 <= j <= s.len(),
    ensures
        suffix_value(s.push(b), j) == 256 * suffix_value(s, j) + b,
    decreases s.len() - j,
{
    let t = s.push(b);
    if j < s.len() {
        lemma_suffix_push(s, b, j + 1);
        let r = radix((s.len() - 1 - j) as nat);
        let x = s[j] as int;
        assert(radix((t.len() - 1 - j) as nat) == 256 * r);
        assert(x * (256 * r) == 256 * (x * r)) by (nonlinear_arith);
    } else {
        assert(suffix_value(t, j + 1) == 0);
        assert(radix(0) == 1);
    }
}

/// No bytes stand for zero, and a further byte is a further digit to the base
/// 256.
pub proof fn law_be_push(s: Seq<u8>, b: u8)
    ensures
        be_value(Seq::<u8>::empty()) == 0,
        be_value(s.push(b)) == 256 * be_value(s) + b,
{
    lemma_suffix_push(s, b, 0);
}

/// Every integer below the power of 256 has its bytes.
pub proof fn law_be_decode(x: int, n: nat)
    requires
        0 <= x < pow(256, n),
    ensures
        be_encode(x, n).len() == n,
        be_value(be_encode(x, n)) == x,
    decreases n,
{
    law_radix(n);
    if n == 0 {
        let s = Seq::<u8>::empty();
        assert(s.len() == n && be_value(s) == x);
    } else {
        let m = (n - 1) as nat;
        law_radix(m);
        law_be_decode(x / 256, m);
        let s = be_encode(x / 256, m);
        law_be_push(s, (x % 256) as u8);
        let t = s.push((x % 256) as u8);
        assert(t.len() == n && be_value(t) == x);
    }
}

/// Powers of 256 multiply.
proof fn lemma_radix_adds(a: nat, b: nat)
    ensures
        radix(a + b) == radix(a) * radix(b),
    decreases a,
{
    if a > 0 {
        lemma_radix_adds((a - 1) as nat, b);
        let (x, y) = (radix((a - 1) as nat), radix(b));
        assert(256 * (x * y) == (256 * x) * y) by (nonlinear_arith);
    } else {
        assert(radix(0) * radix(b) == radix(b)) by (nonlinear_arith)
            requires
                radix(0) == 1,
        ;
    }
}

/// What precedes the last bytes of a list counts a multiple of their radix.
proof fn lemma_high_part(s: Seq<u8>, i: int, j: int) -> (q: int)
    requires
        0 <= i <= j <= s.len(),
    ensures
        suffix_value(s, i) == suffix_value(s, j) + q * radix((s.len() - j) as nat),
    decreases j - i,
{
    let r = radix((s.len() - j) as nat);
    if i == j {
        assert(0 * r == 0) by (nonlinear_arith);
        0
    } else {
        let q = lemma_high_part(s, i + 1, j);
        lemma_radix_adds((j - 1 - i) as nat, (s.len() - j) as nat);
        let h = radix((j - 1 - i) as nat);
        let b = s[i] as int;
        assert(b * (h * r) + q * r == (b * h + q) * r) by (nonlinear_arith);
        b * h + q
    }
}

proof fn lemma_carry(sum: u16)
    by (bit_vector)
    ensures
        sum as u8 == sum % 256,
        sum >> 8 == sum / 256,
{
}

/// One step of an addition, from the least significant byte up.
proof fn lemma_add_step(
    before: Seq<u8>,
    after: Seq<u8>,
    i: int,
    sum: int,
    low: int,
    digit: int,
    carry: int,
    start: Seq<u8>,
)
    requires
        before.len() == after.len() == start.len(),
        0 <= i < before.len(),
        after == before.update(before.len() - 1 - i, (sum % 256) as u8),
        0 <= sum,
        sum == start[start.len() - 1 - i] + digit + carry,
        suffix_value(before, before.len() - i) + carry * radix(i as nat) == suffix_value(
            start,
            start.len() - i,
        ) + low,
    ensures
        suffix_value(after, after.len() - 1 - i) + (sum / 256) * radix((i + 1) as nat)
            == suffix_value(start, start.len() - 1 - i) + (digit * radix(i as nat) + low),
{
    let n = before.len();
    let r = radix(i as nat);
    lemma_suffix_same(before, after, n - i);
    let (m, q) = (sum % 256, sum / 256);
    let b = start[n - 1 - i] as int;
    assert(m * r + q * (256 * r) == b * r + digit * r + carry * r) by (nonlinear_arith)
        requires
            m + 256 * q == b + digit + carry,
    ;
}

/// Adds a small integer to a list of bytes, modulo `256^N`.
pub fn add_be_u8<const N: usize>(v: &mut [u8; N], addend: u8)
    ensures
        be_value(final(v)@) == (be_value(old(v)@) + addend) % radix(N as nat),
{
    let ghost start = v@;
    let mut carry: u16 = addend as u16;
    let mut i: usize = 0;
    proof {
        assert(addend * 1 == addend);
    }
    while i < N && carry > 0
        invariant
            i <= N,
            start.len() == N,
            carry <= 255,
            forall|k: int| 0 <= k < N - i ==> #[trigger] v@[k] == start[k],
            suffix_value(v@, N - i) + carry * radix(i as nat) == suffix_value(start, N - i)
                + addend,
        decreases N - i,
    {
        let j: usize = N - 1 - i;
        let sum: u16 = v[j] as u16 + carry;
        let ghost before = v@;
        proof {
            lemma_carry(sum);
        }
        v[j] = sum as u8;
        proof {
            lemma_add_step(
                before,
                v@,
                i as int,
                sum as int,
                addend as int,
                0,
                carry as int,
                start,
            );
            assert(0 * radix(i as nat) == 0) by (nonlinear_arith);
        }
        carry = sum >> 8;
        i = i + 1;
    }
    proof {
        let r = radix(N as nat);
        lemma_prefix_same(v@, start, 0, N - i);
        lemma_be_range(v@);
        if carry == 0 {
            assert(0 * radix(i as nat) == 0) by (nonlinear_arith);
            lemma_fundamental_div_mod_converse(be_value(start) + addend, r, 0, be_value(v@));
        } else {
            lemma_fundamental_div_mod_converse(
                be_value(start) + addend,
                r,
                carry as int,
                be_value(v@),
            );
        }
    }
}

/// The integer of the last `i` bytes of a list, or of the whole list where it
/// is shorter.
spec fn low_value(s: Seq<u8>, i: int) -> int {
    if i <= s.len() {
        suffix_value(s, s.len() - i)
    } else {
        be_value(s)
    }
}

/// Adds the integer of a list of bytes to a list of bytes, modulo `256^N`.
pub fn add_be_slice<const N: usize>(v: &mut [u8; N], addend: &[u8])
    ensures
        be_value(final(v)@) == (be_value(old(v)@) + be_value(addend@)) % radix(N as nat),
{
    let ghost start = v@;
    let a_len: usize = addend.len();
    let mut carry: u16 = 0;
    let mut i: usize = 0;
    while i < N
        invariant
            i <= N,
            start.len() == N,
            a_len == addend@.len(),
            carry <= 1,
            forall|k: int| 0 <= k < N - i ==> #[trigger] v@[k] == start[k],
            suffix_value(v@, N - i) + carry * radix(i as nat) == suffix_value(start, N - i)
                + low_value(addend@, i as int),
        decreases N - i,
    {
        let j: usize = N - 1 - i;
        let a_byte: u16 = if i < a_len {
            addend[a_len - 1 - i] as u16
        } else {
            0
        };
        let sum: u16 = v[j] as u16 + a_byte + carry;
        let ghost before = v@;
        proof {
            lemma_carry(sum);
        }
        v[j] = sum as u8;
        proof {
            lemma_add_step(
                before,
                v@,
                i as int,
                sum as int,
                low_value(addend@, i as int),
                a_byte as int,
                carry as int,
                start,
            );
            if i >= a_len {
                assert(0 * radix(i as nat) == 0) by (nonlinear_arith);
            }
        }
        carry = sum >> 8;
        i = i + 1;
    }
    proof {
        let r = radix(N as nat);
        lemma_be_range(v@);
        if N <= a_len {
            let q = lemma_high_part(addend@, 0, a_len - N);
            assert((carry + q) * r == carry * r + q * r) by (nonlinear_arith);
            lemma_fundamental_div_mod_converse(
                be_value(start) + be_value(addend@),
                r,
                carry + q,
                be_value(v@),
            );
        } else {
            lemma_fundamental_div_mod_converse(
                be_value(start) + be_value(addend@),
                r,
                carry as int,
                be_value(v@),
            );
        }
    }
}

/// The last `N` bytes of an integer.
pub fn be_bytes<const N: usize>(value: u64) -> (r: [u8; N])
    ensures
        be_value(r@) == value as int % radix(N as nat),
{
    let mut r: [u8; N] = [0u8; N];
    let mut rest: u64 = value;
    let mut i: usize = 0;
    while i < N
        invariant
            i <= N,
            suffix_value(r@, N - i) + rest * radix(i as nat) == value,
        decreases N - i,
    {
        let ghost before = r@;
        let ghost (old_rest, x) = (rest as int, radix(i as nat));
        r[N - 1 - i] = (rest % 256) as u8;
        rest = rest / 256;
        proof {
            lemma_suffix_same(before, r@, N - i);
            assert((old_rest % 256) * x + (old_rest / 256) * (256 * x) == old_rest * x)
                by (nonlinear_arith);
        }
        i = i + 1;
    }
    proof {
        lemma_be_range(r@);
        lemma_fundamental_div_mod_converse(
            value as int,
            radix(N as nat),
            rest as int,
            be_value(r@),
        );
    }
    r
}

/// The integer of four bytes, the least significant byte first.
pub fn le_u32(bytes: &[u8; 4]) -> (r: u32)
    ensures
        r == be_value(bytes@.reverse()),
{
    proof {
        let s = bytes@.reverse();
        reveal_with_fuel(suffix_value, 5);
        reveal_with_fuel(radix, 4);
        assert(be_value(s) == s[0] * 0x100_0000 + (s[1] * 0x1_0000 + (s[2] * 0x100 + s[3])));
    }
    bytes[0] as u32 + 0x100 * (bytes[1] as u32) + 0x1_0000 * (bytes[2] as u32) + 0x100_0000 * (
    bytes[3] as u32)
}

/// The integer of eight bytes, the least significant byte first.
pub fn le_u64(bytes: &[u8; 8]) -> (r: u64)
    ensures
        r == be_value(bytes@.reverse()),
{
    proof {
        let s = bytes@.reverse();
        reveal_with_fuel(suffix_value, 9);
        reveal_with_fuel(radix, 8);
        assert(be_value(s) == s[0] * 0x100_0000_0000_0000 + (s[1] * 0x1_0000_0000_0000 + (s[2]
            * 0x100_0000_0000 + (s[3] * 0x1_0000_0000 + (s[4] * 0x100_0000 + (s[5] * 0x1_0000 + (
        s[6] * 0x100 + s[7])))))));
    }
    bytes[0] as u64 + 0x100 * (bytes[1] as u64) + 0x1_0000 * (bytes[2] as u64) + 0x100_0000 * (
    bytes[3] as u64) + 0x1_0000_0000 * (bytes[4] as u64) + 0x100_0000_0000 * (bytes[5] as u64)
        + 0x1_0000_0000_0000 * (bytes[6] as u64) + 0x100_0000_0000_0000 * (bytes[7] as u64)
}

} // verus!
