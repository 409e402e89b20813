//! Powers of two and bit lengths.

use vstd::arithmetic::div_mod::lemma_fundamental_div_mod;
use vstd::arithmetic::div_mod::lemma_mod_multiples_vanish;
use vstd::arithmetic::div_mod::lemma_small_mod;
use vstd::arithmetic::power2::lemma2_to64;
use vstd::arithmetic::power2::lemma2_to64_rest;
use vstd::arithmetic::power2::lemma_pow2_adds;
use vstd::arithmetic::power2::lemma_pow2_pos;
use vstd::arithmetic::power2::lemma_pow2_strictly_increases;
use vstd::arithmetic::power2::lemma_pow2_unfold;
use vstd::arithmetic::power2::pow2;
use vstd::prelude::*;

verus! {

/// Whether `n` is a power of two.
pub open spec fn is_power_of_two(n: nat) -> bool {
    exists|e: nat| n == pow2(e)
}

/// The number of binary digits of `n`: 0 for 0, else one more than the
/// exponent of the highest power of two that is not above `n`.
pub open spec fn bit_length(n: nat) -> nat
    decreases n,
{
    if n == 0 {
        0
    } else {
        1 + bit_length(n / 2)
    }
}

/// The binary logarithm of `n`, rounded up: the least exponent whose power of
/// two is `n` or more.
pub open spec fn ceil_log2(n: nat) -> nat {
    if n <= 1 {
        0
    } else {
        bit_length((n - 1) as nat)
    }
}

/// Whether `x` is a multiple of `m`.
pub open spec fn divides(m: nat, x: int) -> bool {
    x % (m as int) == 0
}

/// A number with `b > 0` binary digits lies between `2^(b-1)` and `2^b`.
pub proof fn lemma_bit_length_bounds(n: nat)
    requires
        n > 0,
    ensures
        bit_length(n) > 0,
        pow2((bit_length(n) - 1) as nat) <= n < pow2(bit_length(n)),
    decreases n,
{
    lemma2_to64();
    if n == 1 {
        assert(bit_length(0) == 0);
        assert(bit_length(1) == 1);
    } else {
        lemma_bit_length_bounds(n / 2);
        lemma_pow2_unfold(bit_length(n));
        lemma_pow2_unfold(bit_length(n / 2));
    }
}

/// `n` is at most 2 to its binary logarithm rounded up, and above 2 to any
/// smaller exponent.
pub proof fn lemma_ceil_log2_bounds(n: nat)
    requires
        n >= 1,
    ensures
        n <= pow2(ceil_log2(n)),
        forall|e: nat| e < ceil_log2(n) ==> #[trigger] pow2(e) < n,
{
    lemma2_to64();
    if n > 1 {
        lemma_bit_length_bounds((n - 1) as nat);
        assert forall|e: nat| e < ceil_log2(n) implies #[trigger] pow2(e) < n by {
            lemma_pow2_monotone(e, (ceil_log2(n) - 1) as nat);
        }
    }
}

/// Powers of two grow with the exponent.
pub proof fn lemma_pow2_monotone(a: nat, b: nat)
    requires
        a <= b,
    ensures
        pow2(a) <= pow2(b),
{
    if a < b {
        lemma_pow2_strictly_increases(a, b);
    }
}

/// A smaller power of two has the smaller exponent.
pub proof fn lemma_pow2_order(a: nat, b: nat)
    ensures
        pow2(a) < pow2(b) ==> a < b,
        pow2(a) <= pow2(b) ==> a <= b,
        pow2(a) == pow2(b) ==> a == b,
{
    if a < b {
        lemma_pow2_strictly_increases(a, b);
    }
    if b < a {
        lemma_pow2_strictly_increases(b, a);
    }
}

/// `2^e` has `e + 1` binary digits.
pub proof fn lemma_bit_length_pow2(e: nat)
    ensures
        bit_length(pow2(e)) == e + 1,
{
    lemma_pow2_pos(e);
    lemma_bit_length_bounds(pow2(e));
    let b = bit_length(pow2(e));
    lemma_pow2_order((b - 1) as nat, e);
    lemma_pow2_order(e, b);
}

/// A power of two is a multiple of every smaller power of two.
pub proof fn lemma_pow2_divides(a: nat, b: nat)
    requires
        a <= b,
    ensures
        pow2(b) == pow2((b - a) as nat) * pow2(a),
        divides(pow2(a), pow2(b) as int),
{
    lemma_pow2_adds((b - a) as nat, a);
    lemma_pow2_pos(a);
    lemma_mod_multiples_vanish(pow2((b - a) as nat) as int, 0, pow2(a) as int);
    assert(pow2(b) as int == pow2(a) * pow2((b - a) as nat) + 0) by (nonlinear_arith)
        requires
            pow2(b) == pow2((b - a) as nat) * pow2(a),
    ;
}

/// 0 is a multiple of every number.
pub proof fn lemma_divides_zero(m: nat)
    requires
        m > 0,
    ensures
        divides(m, 0),
{
    lemma_small_mod(0, m);
}

/// Sums and differences of multiples of `m` are multiples of `m`.
pub proof fn lemma_divides_add(m: nat, x: int, y: int)
    requires
        m > 0,
        divides(m, x),
        divides(m, y),
    ensures
        divides(m, x + y),
        divides(m, x - y),
{
    lemma_fundamental_div_mod(x, m as int);
    lemma_fundamental_div_mod(y, m as int);
    let qx = x / (m as int);
    let qy = y / (m as int);
    lemma_mod_multiples_vanish(qx + qy, 0, m as int);
    lemma_mod_multiples_vanish(qx - qy, 0, m as int);
    assert(m * (qx + qy) + 0 == x + y) by (nonlinear_arith)
        requires
            x == m * qx,
            y == m * qy,
    ;
    assert(m * (qx - qy) + 0 == x - y) by (nonlinear_arith)
        requires
            x == m * qx,
            y == m * qy,
    ;
}

/// A multiple of a multiple of `m` is a multiple of `m`.
pub proof fn lemma_divides_trans(m: nat, n: nat, x: int)
    requires
        m > 0,
        n > 0,
        divides(m, n as int),
        divides(n, x),
    ensures
        divides(m, x),
{
    lemma_fundamental_div_mod(x, n as int);
    lemma_fundamental_div_mod(n as int, m as int);
    let q = x / (n as int);
    let r = (n as int) / (m as int);
    lemma_mod_multiples_vanish(r * q, 0, m as int);
    assert(m * (r * q) + 0 == x) by (nonlinear_arith)
        requires
            x == n * q,
            n == m * r,
    ;
}

/// A positive multiple of `m` is at least `m`.
pub proof fn lemma_divides_bound(m: nat, x: int)
    requires
        m > 0,
        x > 0,
        divides(m, x),
    ensures
        x >= m,
{
    lemma_fundamental_div_mod(x, m as int);
    let q = x / (m as int);
    assert(q >= 1) by (nonlinear_arith)
        requires
            x == m * q,
            x > 0,
            m > 0,
    ;
    assert(x >= m) by (nonlinear_arith)
        requires
            x == m * q,
            q >= 1,
            m > 0,
    ;
}

/// A multiple of a power of two is a multiple of every smaller power of two.
pub proof fn lemma_divides_pow2_smaller(a: nat, b: nat, x: int)
    requires
        a <= b,
        divides(pow2(b), x),
    ensures
        divides(pow2(a), x),
{
    lemma_pow2_pos(a);
    lemma_pow2_pos(b);
    lemma_pow2_divides(a, b);
    lemma_divides_trans(pow2(a), pow2(b), x);
}

/// The number of binary digits of `x`, which is not 0.
pub fn highest_bit_set(x: usize) -> (r: usize)
    requires
        x > 0,
    ensures
        r == bit_length(x as nat),
        0 < r <= usize::BITS,
        pow2((r - 1) as nat) <= x < pow2(r as nat),
{
    let mut rest: usize = x;
    let mut bits: usize = 0;
    proof {
        lemma_bit_length_bounds(x as nat);
        lemma2_to64();
        lemma2_to64_rest();
        lemma_pow2_order((bit_length(x as nat) - 1) as nat, usize::BITS as nat);
        if usize::BITS == 32 {
            assert(pow2(32) == 0x1_0000_0000);
        } else {
            assert(pow2(64) == 0x1_0000_0000_0000_0000);
        }
    }
    while rest > 0
        invariant
            bits + bit_length(rest as nat) == bit_length(x as nat),
            bit_length(x as nat) <= usize::BITS,
        decreases rest,
    {
        rest = rest / 2;
        bits = bits + 1;
    }
    assert(bit_length(0) == 0);
    bits
}

/// `2^e` as a 64-bit number.
pub fn pow2_u64(e: usize) -> (r: u64)
    requires
        e < 64,
    ensures
        r == pow2(e as nat),
{
    proof {
        lemma2_to64();
        lemma2_to64_rest();
        lemma_pow2_monotone(e as nat, 63);
        vstd::bits::lemma_u64_shl_is_mul(1u64, e as u64);
    }
    1u64 << (e as u64)
}

} // verus!
