//! Pure numeric workloads: saturating Fibonacci and a scalar mixing loop.

use vstd::prelude::*;
use vstd::arithmetic::power2::*;

verus! {

/// The Fibonacci numbers: `fib(0) = 0`, `fib(1) = 1`.
pub open spec fn fib(n: nat) -> nat
    decreases n,
{
    if n == 0 {
        0
    } else if n == 1 {
        1
    } else {
        fib((n - 1) as nat) + fib((n - 2) as nat)
    }
}

/// The Fibonacci recurrence: it starts with 0 and 1, and each number is the sum of
/// the two before it.
pub proof fn lemma_fib_recurrence(n: nat)
    ensures
        fib(0) == 0,
        fib(1) == 1,
        fib(n + 2) == fib(n + 1) + fib(n),
{
}

/// `fib(n) <= 2^(n-2)` for `n >= 2`.
pub proof fn lemma_fib_below_pow2(n: nat)
    requires
        n >= 2,
    ensures
        fib(n) <= pow2((n - 2) as nat),
    decreases n,
{
    lemma2_to64();
    if n == 2 || n == 3 {
        assert(fib(0) == 0 && fib(1) == 1);
        assert(fib(2) == 1);
        assert(fib(3) == 2);
    } else {
        lemma_fib_below_pow2((n - 1) as nat);
        lemma_fib_below_pow2((n - 2) as nat);
        lemma_pow2_unfold((n - 2) as nat);
        lemma_pow2_unfold((n - 3) as nat);
    }
}

/// Every Fibonacci number up to `fib(129)` fits in a `u128`.
pub proof fn lemma_fib_fits_u128(n: nat)
    requires
        n <= 129,
    ensures
        fib(n) <= u128::MAX,
{
    lemma2_to64();
    lemma2_to64_rest();
    lemma_pow2_adds(63, 64);
    assert(pow2(127) == 0x8000_0000_0000_0000_0000_0000_0000_0000) by (nonlinear_arith)
        requires
            pow2(127) == pow2(63) * pow2(64),
            pow2(63) == 0x8000_0000_0000_0000,
            pow2(64) == 0x1_0000_0000_0000_0000,
    ;
    if n >= 2 {
        lemma_fib_below_pow2(n);
        if n < 129 {
            lemma_pow2_strictly_increases((n - 2) as nat, 127);
        }
    } else {
        assert(fib(0) == 0 && fib(1) == 1);
    }
}

/// The `n`-th Fibonacci number, or `None` when `n > 128`.
///
/// The loop adds with saturation, but for every accepted `n` no addition
/// reaches `u128::MAX`, so the result is the exact Fibonacci number.
pub fn fib_u128(n: u32) -> (r: Option<u128>)
    ensures
        n > 128 ==> r is None,
        n <= 128 ==> r == Some(fib(n as nat) as u128),
{
    if n > 128 {
        return None;
    }
    let mut a: u128 = 0;
    let mut b: u128 = 1;
    for i in 0..n
        invariant
            n <= 128,
            a == fib(i as nat),
            b == fib(i as nat + 1),
    {
        proof {
            lemma_fib_fits_u128(i as nat + 2);
        }
        assert(fib(i as nat + 2) == fib(i as nat + 1) + fib(i as nat));
        let t = a.saturating_add(b);
        a = b;
        b = t;
    }
    Some(a)
}

/// The starting value of the mixing loop.
pub const MIX_SEED: u64 = 0xC0FFEE;

/// The odd multiplier of the mixing loop (the 64-bit golden ratio).
pub const MIX_MULTIPLIER: u64 = 0x9E37_79B9_7F4A_7C15;

/// Rotating a 64-bit word left by 13 bits, stated arithmetically.
pub open spec fn rotl13(x: u64) -> u64 {
    ((x as nat * 8192) % 0x1_0000_0000_0000_0000 + x as nat / 0x8_0000_0000_0000) as u64
}

/// One round: rotate left by 13, multiply by the golden-ratio constant, add one,
/// all modulo `2^64`.
pub open spec fn mix_step(x: u64) -> u64 {
    ((((rotl13(x) as nat * MIX_MULTIPLIER as nat) % 0x1_0000_0000_0000_0000) + 1)
        % 0x1_0000_0000_0000_0000) as u64
}

/// `rounds` rounds of [`mix_step`] starting from `x`.
pub open spec fn mix_rounds(x: u64, rounds: nat) -> u64
    decreases rounds,
{
    if rounds == 0 {
        x
    } else {
        mix_step(mix_rounds(x, (rounds - 1) as nat))
    }
}

/// Rotates `x` left by 13 bits.
pub fn rotate_left_13(x: u64) -> (r: u64)
    ensures
        r == rotl13(x),
{
    let r = (x << 13u64) | (x >> 51u64);
    assert(r == ((x as nat * 8192) % 0x1_0000_0000_0000_0000 + x as nat / 0x8_0000_0000_0000) as u64)
        by (bit_vector)
        requires
            r == (x << 13u64) | (x >> 51u64),
    ;
    r
}

/// Deterministic CPU work: `rounds` rounds of the mixing step from the fixed seed.
pub fn scalar_mix_iterations(rounds: u32) -> (r: u64)
    ensures
        r == mix_rounds(MIX_SEED, rounds as nat),
        r == mix_rounds(0xC0FFEE, rounds as nat),
{
    let mut x: u64 = MIX_SEED;
    for i in 0..rounds
        invariant
            x == mix_rounds(MIX_SEED, i as nat),
    {
        x = rotate_left_13(x).wrapping_mul(MIX_MULTIPLIER).wrapping_add(1);
    }
    x
}


/// One mixing round is a rotation of the word left by 13 bits, a multiplication by
/// `0x9E37_79B9_7F4A_7C15` and the addition of one, all modulo `2^64`.
pub proof fn lemma_mix_step_is_round(x: u64)
    ensures
        rotl13(x) == (x << 13u64) | (x >> 51u64),
        mix_step(x) as int == (((x << 13u64) | (x >> 51u64)) as int * 0x9E37_79B9_7F4A_7C15int + 1)
            % 0x1_0000_0000_0000_0000int,
{
    assert(((x as nat * 8192) % 0x1_0000_0000_0000_0000 + x as nat / 0x8_0000_0000_0000) as u64 == (x
        << 13u64) | (x >> 51u64)) by (bit_vector);
    let r = rotl13(x) as int;
    assert((r * 0x9E37_79B9_7F4A_7C15int) % 0x1_0000_0000_0000_0000int + 1 <= 0x1_0000_0000_0000_0000int);
    assert(((r * 0x9E37_79B9_7F4A_7C15int) % 0x1_0000_0000_0000_0000int + 1) % 0x1_0000_0000_0000_0000int
        == (r * 0x9E37_79B9_7F4A_7C15int + 1) % 0x1_0000_0000_0000_0000int) by (nonlinear_arith);
}

/// Mixing for no rounds leaves the word alone; every further round applies one
/// more step, however many rounds came before; and `a` rounds followed by `b`
/// rounds are `a + b` rounds.
pub proof fn lemma_mix_rounds_laws(x: u64, a: nat, b: nat)
    ensures
        mix_rounds(x, 0) == x,
        mix_rounds(x, a + 1) == mix_step(mix_rounds(x, a)),
        mix_rounds(mix_rounds(x, a), b) == mix_rounds(x, a + b),
    decreases b,
{
    if b > 0 {
        lemma_mix_rounds_laws(x, a, (b - 1) as nat);
        assert(mix_rounds(x, a + b) == mix_step(mix_rounds(x, (a + b - 1) as nat)));
    }
}

} // verus!
