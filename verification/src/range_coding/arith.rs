//! Division and remainder by powers of two: how the bits of a number behave
//! when the number is cut, shifted and put together again.
use vstd::arithmetic::div_mod::{
    lemma_div_denominator, lemma_div_multiples_vanish_fancy, lemma_fundamental_div_mod,
    lemma_hoist_over_denominator, lemma_mod_breakdown, lemma_mod_mod, lemma_mod_multiples_vanish,
    lemma_small_mod,
};
use vstd::arithmetic::power2::{lemma_pow2_adds, lemma_pow2_pos, lemma_pow2_unfold, pow2};
use vstd::prelude::*;

verus! {

/// The lowest `a + b` bits of `x` are its lowest `a` bits below the `b` bits
/// that follow them.
pub proof fn lemma_low_bits_split(x: nat, a: nat, b: nat)
    ensures
        x % pow2(a + b) == x % pow2(a) + pow2(a) * ((x / pow2(a)) % pow2(b)),
{
    lemma_pow2_pos(a);
    lemma_pow2_pos(b);
    lemma_pow2_adds(a, b);
    lemma_mod_breakdown(x as int, pow2(a) as int, pow2(b) as int);
}

/// The lowest `n` bits of the lowest `a` bits are the lowest `n` bits.
pub proof fn lemma_low_bits_of_low_bits(x: nat, a: nat, n: nat)
    requires
        n <= a,
    ensures
        (x % pow2(a)) % pow2(n) == x % pow2(n),
{
    lemma_pow2_pos(n);
    lemma_pow2_pos((a - n) as nat);
    lemma_pow2_adds(n, (a - n) as nat);
    lemma_mod_mod(x as int, pow2(n) as int, pow2((a - n) as nat) as int);
}

/// Dropping `n` bits from the lowest `a` bits leaves the lowest `a - n`
/// bits of what is above the `n` bits.
pub proof fn lemma_low_bits_shifted(x: nat, a: nat, n: nat)
    requires
        n <= a,
    ensures
        (x % pow2(a)) / pow2(n) == (x / pow2(n)) % pow2((a - n) as nat),
{
    lemma_pow2_pos(n);
    lemma_pow2_pos((a - n) as nat);
    lemma_pow2_adds(n, (a - n) as nat);
    lemma_low_bits_split(x, n, (a - n) as nat);
    let high = (x / pow2(n)) % pow2((a - n) as nat);
    let low = x % pow2(n);
    lemma_div_multiples_vanish_fancy(high as int, low as int, pow2(n) as int);
}

/// Dropping `a` bits and then `b` bits drops `a + b` bits.
pub proof fn lemma_shift_twice(x: nat, a: nat, b: nat)
    ensures
        (x / pow2(a)) / pow2(b) == x / pow2(a + b),
{
    lemma_pow2_pos(a);
    lemma_pow2_pos(b);
    lemma_pow2_adds(a, b);
    lemma_div_denominator(x as int, pow2(a) as int, pow2(b) as int);
}

/// What is added above bit `t` does not show in the `n` bits from bit `c`
/// on, where these lie below bit `t`.
pub proof fn lemma_bits_below(x: nat, y: nat, t: nat, c: nat, n: nat)
    requires
        c + n <= t,
    ensures
        ((x + y * pow2(t)) / pow2(c)) % pow2(n) == (x / pow2(c)) % pow2(n),
{
    let rest = (t - c - n) as nat;
    lemma_pow2_pos(c);
    lemma_pow2_pos(n);
    lemma_pow2_adds(c, n);
    lemma_pow2_adds(c + n, rest);
    let k = y * pow2(rest) * pow2(n);
    assert(y * pow2(t) == k * pow2(c)) by (nonlinear_arith)
        requires
            pow2(t) == pow2(c) * pow2(n) * pow2(rest),
            k == y * pow2(rest) * pow2(n),
    ;
    lemma_hoist_over_denominator(x as int, k as int, pow2(c));
    lemma_mod_multiples_vanish(
        (y * pow2(rest)) as int,
        (x / pow2(c)) as int,
        pow2(n) as int,
    );
    assert(pow2(n) * (y * pow2(rest)) == k) by (nonlinear_arith)
        requires
            k == y * pow2(rest) * pow2(n),
    ;
}

/// A number below `2^t` and one put above it come apart again.
pub proof fn lemma_bits_above(x: nat, v: nat, t: nat)
    requires
        x < pow2(t),
    ensures
        (x + v * pow2(t)) / pow2(t) == v,
        (x + v * pow2(t)) % pow2(t) == x,
{
    lemma_pow2_pos(t);
    lemma_div_multiples_vanish_fancy(v as int, x as int, pow2(t) as int);
    lemma_mod_multiples_vanish(v as int, x as int, pow2(t) as int);
    lemma_small_mod(x, pow2(t));
    assert(v * pow2(t) == pow2(t) * v) by (nonlinear_arith);
}

/// A number is its lowest `n` bits below the rest of it.
pub proof fn lemma_bits_rejoin(x: nat, n: nat)
    ensures
        x == x % pow2(n) + pow2(n) * (x / pow2(n)),
        x % pow2(n) < pow2(n),
{
    lemma_pow2_pos(n);
    lemma_fundamental_div_mod(x as int, pow2(n) as int);
}

/// Powers of two grow with the exponent.
pub proof fn lemma_pow2_at_most(small: nat, large: nat)
    requires
        small <= large,
    ensures
        pow2(small) <= pow2(large),
    decreases large - small,
{
    if small < large {
        lemma_pow2_at_most(small, (large - 1) as nat);
        lemma_pow2_unfold(large);
    }
}

} // verus!
