use vstd::arithmetic::div_mod::{
    lemma_div_denominator,
    lemma_fundamental_div_mod_converse,
    lemma_mod_breakdown,
    lemma_mod_mod,
};
use vstd::arithmetic::power2::{lemma2_to64, lemma_pow2_pos, lemma_pow2_strictly_increases, lemma_pow2_unfold, pow2};
use vstd::layout::unsigned_int_max_values;
use vstd::prelude::*;

verus! {

/// Number of binary digits of `x`: the smallest `b` with `x < 2^b` (zero for zero).
pub open spec fn bit_width(x: nat) -> nat
    decreases x,
{
    if x == 0 {
        0
    } else {
        1 + bit_width(x / 2)
    }
}

/// `n` is one of 1, 2, 4, 8, ...
pub open spec fn power_of_two(n: nat) -> bool
    decreases n,
{
    if n == 0 {
        false
    } else if n == 1 {
        true
    } else {
        n % 2 == 0 && power_of_two(n / 2)
    }
}

/// Base-two logarithm of a power of two.
pub open spec fn log2(n: nat) -> nat {
    (bit_width(n) - 1) as nat
}

/// The low `b` bits of `x`, written in reverse order.
pub open spec fn reversed_bits(x: nat, b: nat) -> nat
    decreases b,
{
    if b == 0 {
        0
    } else {
        (x % 2) * pow2((b - 1) as nat) + reversed_bits(x / 2, (b - 1) as nat)
    }
}

pub proof fn lemma_bit_width_bound(x: nat, b: nat)
    requires
        x < pow2(b),
    ensures
        bit_width(x) <= b,
    decreases b,
{
    if b == 0 {
        assert(pow2(0) == 1) by { lemma2_to64() };
    } else if x > 0 {
        lemma_pow2_unfold(b);
        lemma_bit_width_bound(x / 2, (b - 1) as nat);
    }
}

/// `2^k` takes `k + 1` binary digits and `2^k - 1` takes `k`.
pub proof fn lemma_bit_width_pow2(k: nat)
    ensures
        bit_width(pow2(k)) == k + 1,
        bit_width((pow2(k) - 1) as nat) == k,
    decreases k,
{
    lemma_pow2_pos(k);
    if k == 0 {
        assert(pow2(0) == 1) by { lemma2_to64() };
        assert(bit_width(0) == 0);
        assert(bit_width(1) == 1 + bit_width(0));
    } else {
        let p = pow2((k - 1) as nat);
        lemma_pow2_unfold(k);
        lemma_pow2_pos((k - 1) as nat);
        lemma_bit_width_pow2((k - 1) as nat);
        assert(pow2(k) / 2 == p);
        assert((pow2(k) - 1) as nat / 2 == (p - 1) as nat);
    }
}

/// The powers of two are exactly the values `2^k`.
pub proof fn lemma_power_of_two_is_pow2(n: nat)
    requires
        power_of_two(n),
    ensures
        n == pow2(log2(n)),
        bit_width(n) >= 1,
    decreases n,
{
    if n == 1 {
        assert(bit_width(1) == 1 + bit_width(0));
        assert(pow2(0) == 1) by { lemma2_to64() };
    } else {
        lemma_power_of_two_is_pow2(n / 2);
        assert(bit_width(n) == 1 + bit_width(n / 2));
        lemma_pow2_unfold(log2(n));
    }
}

pub proof fn lemma_pow2_is_power_of_two(k: nat)
    ensures
        power_of_two(pow2(k)),
    decreases k,
{
    if k == 0 {
        assert(pow2(0) == 1) by { lemma2_to64() };
    } else {
        lemma_pow2_unfold(k);
        lemma_pow2_pos((k - 1) as nat);
        lemma_pow2_is_power_of_two((k - 1) as nat);
        assert(pow2(k) / 2 == pow2((k - 1) as nat));
    }
}

/// Tells whether `n` is a power of two (0 is not, 1 is).
pub fn is_power_of_2(n: usize) -> (r: bool)
    ensures
        r == power_of_two(n as nat),
{
    let mut m: usize = n;
    while m > 1 && m % 2 == 0
        invariant
            power_of_two(m as nat) == power_of_two(n as nat),
        decreases m,
    {
        m = m / 2;
    }
    m == 1
}

/// Counts the binary digits of `x`: the smallest `b` with `x < 2^b`.
pub fn numbits(x: usize) -> (bits: usize)
    ensures
        bits == bit_width(x as nat),
        bits <= usize::BITS,
{
    proof {
        unsigned_int_max_values();
        lemma_bit_width_bound(x as nat, usize::BITS as nat);
    }
    let mut bits: usize = 0;
    let mut y: usize = x;
    while y > 0
        invariant
            bits + bit_width(y as nat) == bit_width(x as nat),
            bit_width(x as nat) <= usize::BITS,
        decreases y,
    {
        bits += 1;
        y = y / 2;
    }
    bits
}

pub proof fn lemma_reversed_bits_bound(x: nat, b: nat)
    ensures
        reversed_bits(x, b) < pow2(b),
    decreases b,
{
    if b == 0 {
        assert(pow2(0) == 1) by { lemma2_to64() };
    } else {
        let p = pow2((b - 1) as nat);
        lemma_pow2_unfold(b);
        lemma_reversed_bits_bound(x / 2, (b - 1) as nat);
        assert((x % 2) * p <= p) by (nonlinear_arith)
            requires
                x % 2 <= 1,
        ;
    }
}

/// Reversal reads only the low `b` bits.
pub proof fn lemma_reversed_bits_low(x: nat, b: nat)
    ensures
        reversed_bits(x % pow2(b), b) == reversed_bits(x, b),
    decreases b,
{
    lemma_pow2_pos(b);
    if b == 0 {
        assert(pow2(0) == 1) by { lemma2_to64() };
    } else {
        let p = pow2((b - 1) as nat);
        lemma_pow2_unfold(b);
        lemma_pow2_pos((b - 1) as nat);
        let z = x % pow2(b);
        lemma_mod_breakdown(x as int, 2, p as int);
        lemma_fundamental_div_mod_converse(z as int, 2, (x / 2 % p) as int, (x % 2) as int);
        lemma_reversed_bits_low(x / 2, (b - 1) as nat);
    }
}

/// Reversal seen from the top bit: the top bit of `x` becomes the lowest of the result.
proof fn lemma_reversed_bits_top(x: nat, b: nat)
    requires
        b >= 1,
        x < pow2(b),
    ensures
        reversed_bits(x, b) == 2 * reversed_bits(x % pow2((b - 1) as nat), (b - 1) as nat) + x
            / pow2((b - 1) as nat),
    decreases b,
{
    if b == 1 {
        assert(pow2(0) == 1 && pow2(1) == 2) by { lemma2_to64() };
        assert(reversed_bits(x / 2, 0) == 0);
        assert(reversed_bits(x % 1, 0) == 0);
    } else {
        let p = pow2((b - 2) as nat);
        lemma_pow2_unfold(b);
        lemma_pow2_unfold((b - 1) as nat);
        lemma_pow2_pos((b - 2) as nat);
        assert(pow2((b - 1) as nat) == 2 * p);
        lemma_reversed_bits_top(x / 2, (b - 1) as nat);
        let z = x % (2 * p);
        lemma_mod_breakdown(x as int, 2, p as int);
        lemma_fundamental_div_mod_converse(z as int, 2, (x / 2 % p) as int, (x % 2) as int);
        lemma_div_denominator(x as int, 2, p as int);
        assert(reversed_bits(z, (b - 1) as nat) == (z % 2) * p + reversed_bits(
            z / 2,
            (b - 2) as nat,
        ));
        assert(2 * ((x % 2) * p) == (x % 2) * (2 * p)) by (nonlinear_arith);
    }
}

/// Reversing the low `b` bits twice gives back every `k < 2^b`.
pub proof fn lemma_bitrev_involution(k: nat, b: nat)
    requires
        k < pow2(b),
    ensures
        reversed_bits(reversed_bits(k, b), b) == k,
    decreases b,
{
    if b == 0 {
        assert(pow2(0) == 1) by { lemma2_to64() };
    } else {
        let p = pow2((b - 1) as nat);
        lemma_pow2_unfold(b);
        lemma_pow2_pos((b - 1) as nat);
        let r = reversed_bits(k / 2, (b - 1) as nat);
        lemma_reversed_bits_bound(k / 2, (b - 1) as nat);
        let y = reversed_bits(k, b);
        lemma_reversed_bits_bound(k, b);
        assert(y == (k % 2) * p + r);
        lemma_reversed_bits_top(y, b);
        lemma_fundamental_div_mod_converse(y as int, p as int, (k % 2) as int, r as int);
        lemma_bitrev_involution(k / 2, (b - 1) as nat);
    }
}

/// Bit reversal maps `[0, 2^b)` one to one onto itself.
pub proof fn lemma_bitrev_injective(j: nat, k: nat, b: nat)
    requires
        j < pow2(b),
        k < pow2(b),
        reversed_bits(j, b) == reversed_bits(k, b),
    ensures
        j == k,
{
    lemma_bitrev_involution(j, b);
    lemma_bitrev_involution(k, b);
}

/// Reverses the low `bits` bits of `x`; higher bits of `x` are ignored.
pub fn bitrev(x: usize, bits: usize) -> (r: usize)
    requires
        bits <= usize::BITS,
    ensures
        r == reversed_bits(x as nat, bits as nat),
{
    let mut out: usize = 0;
    let mut y: usize = x;
    let mut i: usize = 0;
    proof {
        lemma2_to64();
        unsigned_int_max_values();
    }
    while i < bits
        invariant
            i <= bits <= usize::BITS,
            pow2(0) == 1,
            pow2(usize::BITS as nat) == usize::MAX + 1,
            y == x as nat / pow2(i as nat),
            out == reversed_bits(x as nat % pow2(i as nat), i as nat),
        decreases bits - i,
    {
        proof {
            let p = pow2(i as nat);
            lemma_pow2_unfold((i + 1) as nat);
            lemma_pow2_pos(i as nat);
            lemma_reversed_bits_bound(x as nat % p, i as nat);
            if i + 1 < usize::BITS {
                lemma_pow2_strictly_increases((i + 1) as nat, usize::BITS as nat);
            }
            assert(out < p && 2 * p <= usize::MAX + 1);
            let z = x as nat % (2 * p);
            lemma_mod_breakdown(x as int, p as int, 2);
            lemma_mod_mod(x as int, p as int, 2);
            lemma_fundamental_div_mod_converse(z as int, p as int, (y % 2) as int, (x as nat % p) as int);
            lemma_reversed_bits_top(z, (i + 1) as nat);
            lemma_div_denominator(x as int, p as int, 2);
            assert(out * 2 + 1 <= usize::MAX + 1);
        }
        out = out * 2 + y % 2;
        y = y / 2;
        i += 1;
    }
    proof {
        lemma_reversed_bits_low(x as nat, bits as nat);
    }
    out
}

} // verus!
