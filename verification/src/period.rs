//! The period of the generator: every state but the stuck one is reached from
//! every other.
//!
//! The step of the generator is linear over the field of two elements. What a
//! polynomial in the step makes of the state 1 is followed by multiplying
//! polynomials, modulo one that the step satisfies. That gives the state after
//! 2^128 - 1 steps, and after each of the largest proper divisors of that
//! number of steps, and so the period.

use crate::primes::{is_factor, is_reached, lemma_full_period, lemma_pigeonhole, LARGE_PRIME};
use crate::rng::{is_stuck, iterate, rotated, Words};
use vstd::prelude::*;

verus! {

/// The four words of a state side by side.
pub open spec fn packed(a: u32, b: u32, c: u32, d: u32) -> u128 {
    (a as u128) | ((b as u128) << 32) | ((c as u128) << 64) | ((d as u128) << 96)
}

/// A state as one number.
pub open spec fn code(s: Words) -> u128 {
    packed(s.a, s.b, s.c, s.d)
}

/// The step of the generator on states as numbers.
pub open spec fn turn(s: u128) -> u128 {
    let a = s & 0xffff_ffff;
    let b = (s >> 32) & 0xffff_ffff;
    let c = ((s >> 64) & 0xffff_ffff) ^ a;
    let d = (s >> 96) ^ b;
    let a2 = a ^ d;
    let b2 = b ^ c;
    let c2 = c ^ ((b << 9) & 0xffff_ffff);
    let d2 = ((d << 11) & 0xffff_ffff) | (d >> 21);
    a2 | (b2 << 32) | (c2 << 64) | (d2 << 96)
}

/// The state after `n` steps.
pub open spec fn turned(s: u128, n: nat) -> u128
    decreases n,
{
    if n == 0 {
        s
    } else {
        turned(turn(s), (n - 1) as nat)
    }
}

/// The state after a few steps.
pub open spec fn turned_few(s: u128, n: u32) -> u128
    decreases n,
{
    if n == 0 {
        s
    } else {
        let next = turn(s);
        turned_few(next, (n - 1) as u32)
    }
}

/// What the polynomial with the lowest `n` bits of `h` as coefficients makes of
/// a state: the sum of the states after as many steps as there are set bits.
pub open spec fn combined(h: u128, n: u32, s: u128) -> u128
    decreases n,
{
    if n == 0 {
        0
    } else {
        let next = turn(s);
        let high = h >> 1;
        let rest = combined(high, (n - 1) as u32, next);
        if h & 1 == 1 {
            s ^ rest
        } else {
            rest
        }
    }
}

/// The polynomial that the step satisfies, without its leading term.
pub const MODULUS: u128 = 0xfc65a2006254b11b489db6de18fc01;

/// A polynomial times the indeterminate.
pub open spec fn shifted(g: u128) -> u128 {
    if g >> 127 == 1 {
        (g << 1) ^ MODULUS
    } else {
        g << 1
    }
}

/// A polynomial times the lowest `n` terms of another.
pub open spec fn product(g: u128, h: u128, n: u32) -> u128
    decreases n,
{
    if n == 0 {
        0
    } else {
        let next = shifted(g);
        let high = h >> 1;
        let rest = product(next, high, (n - 1) as u32);
        if h & 1 == 1 {
            g ^ rest
        } else {
            rest
        }
    }
}

/// The indeterminate to the power of `n`.
pub open spec fn power(n: u128) -> u128
    decreases n,
{
    if n == 0 {
        1
    } else {
        let half = power(n / 2);
        let square = product(half, half, 128);
        if n % 2 == 1 {
            shifted(square)
        } else {
            square
        }
    }
}

proof fn lemma_turn_sum(x: u128, y: u128)
    by (bit_vector)
    ensures
        turn(x ^ y) == turn(x) ^ turn(y),
        turn(0) == 0,
{
}

proof fn lemma_sums(w: u128, x: u128, y: u128, z: u128)
    by (bit_vector)
    ensures
        (w ^ x) ^ (y ^ z) == (w ^ y) ^ (x ^ z),
        w ^ (x ^ y) == (w ^ x) ^ y,
        w ^ x == x ^ w,
        w ^ w == 0,
        w ^ 0 == w,
        0 ^ w == w,
        (w ^ x) ^ (w ^ y) == x ^ y,
        x ^ (w ^ y) == w ^ (x ^ y),
        w ^ x == 0 ==> w == x,
{
}

proof fn lemma_bits(h: u128, k: u128)
    by (bit_vector)
    ensures
        (h ^ k) >> 1 == (h >> 1) ^ (k >> 1),
        (h ^ k) & 1 == 1 <==> ((h & 1 == 1) != (k & 1 == 1)),
        (h << 1) & 1 == 0,
        h >> 127 != 1 ==> h >> 127 == 0 && (h << 1) >> 1 == h,
        h >> 127 == 1 ==> (h << 1) >> 1 == h ^ 0x8000_0000_0000_0000_0000_0000_0000_0000,
        (h >> 127) & 1 == h >> 127,
        h >> 0u32 == h,
{
}

proof fn lemma_shift(h: u128, n: u32)
    by (bit_vector)
    requires
        0 < n < 128,
    ensures
        (h >> 1) >> ((n - 1) as u32) == h >> n,
        (1u128 << n) & 1 == 0,
        (1u128 << n) >> 1 == 1u128 << ((n - 1) as u32),
{
}

/// Sums of states are combined to sums.
proof fn lemma_combined_states(h: u128, n: u32, s: u128, t: u128)
    ensures
        combined(h, n, s ^ t) == combined(h, n, s) ^ combined(h, n, t),
    decreases n,
{
    lemma_sums(0, 0, 0, 0);
    if n > 0 {
        lemma_turn_sum(s, t);
        lemma_combined_states(h >> 1, (n - 1) as u32, turn(s), turn(t));
        let x = combined(h >> 1, (n - 1) as u32, turn(s));
        let y = combined(h >> 1, (n - 1) as u32, turn(t));
        lemma_sums(s, t, x, y);
    }
}

/// A step before combining is a step after it.
proof fn lemma_combined_turn(h: u128, n: u32, s: u128)
    ensures
        turn(combined(h, n, s)) == combined(h, n, turn(s)),
    decreases n,
{
    lemma_turn_sum(0, 0);
    if n > 0 {
        lemma_combined_turn(h >> 1, (n - 1) as u32, turn(s));
        lemma_turn_sum(s, combined(h >> 1, (n - 1) as u32, turn(s)));
    }
}

proof fn lemma_combined_turned(h: u128, n: u32, s: u128, k: nat)
    ensures
        turned(combined(h, n, s), k) == combined(h, n, turned(s, k)),
    decreases k,
{
    if k > 0 {
        lemma_combined_turn(h, n, s);
        lemma_combined_turned(h, n, turn(s), (k - 1) as nat);
    }
}

/// Sums of polynomials make sums.
proof fn lemma_combined_sum(h: u128, k: u128, n: u32, s: u128)
    ensures
        combined(h ^ k, n, s) == combined(h, n, s) ^ combined(k, n, s),
    decreases n,
{
    lemma_sums(0, 0, 0, 0);
    if n > 0 {
        lemma_bits(h, k);
        lemma_combined_sum(h >> 1, k >> 1, (n - 1) as u32, turn(s));
        let x = combined(h >> 1, (n - 1) as u32, turn(s));
        let y = combined(k >> 1, (n - 1) as u32, turn(s));
        lemma_sums(s, x, y, 0);
    }
}

proof fn lemma_turned_adds(s: u128, i: nat, j: nat)
    ensures
        turned(s, i + j) == turned(turned(s, i), j),
    decreases i,
{
    if i > 0 {
        lemma_turned_adds(turn(s), (i - 1) as nat, j);
    }
}

proof fn lemma_turned_few(s: u128, n: u32)
    ensures
        turned_few(s, n) == turned(s, n as nat),
    decreases n,
{
    if n > 0 {
        lemma_turned_few(turn(s), (n - 1) as u32);
    }
}

/// The highest term can be split off.
proof fn lemma_combined_top(g: u128, n: u32, s: u128)
    requires
        n < 128,
    ensures
        combined(g, (n + 1) as u32, s) == combined(g, n, s) ^ if (g >> n) & 1 == 1 {
            turned(s, n as nat)
        } else {
            0
        },
    decreases n,
{
    lemma_bits(g, 0);
    lemma_sums(s, 0, 0, 0);
    if n == 0 {
        assert(combined(g >> 1, 0, turn(s)) == 0);
    } else {
        lemma_shift(g, n);
        lemma_combined_top(g >> 1, (n - 1) as u32, turn(s));
        let low = combined(g >> 1, (n - 1) as u32, turn(s));
        let top = if (g >> n) & 1 == 1 {
            turned(s, n as nat)
        } else {
            0
        };
        assert(turned(turn(s), (n - 1) as nat) == turned(s, n as nat));
        assert(combined(g >> 1, n, turn(s)) == low ^ top);
        lemma_sums(s, low, top, 0);
    }
}

/// Terms above the lowest `n` do not count.
proof fn lemma_combined_high(m: u32, n: u32, s: u128)
    requires
        n <= m < 128,
    ensures
        combined(1u128 << m, n, s) == 0,
    decreases n,
{
    if n > 0 {
        lemma_shift(0, m);
        lemma_combined_high((m - 1) as u32, (n - 1) as u32, turn(s));
    }
}

proof fn lemma_modulus()
    by (bit_vector)
    ensures
        turned_few(1, 128) == combined(0xfc65a2006254b11b489db6de18fc01, 128, 1),
        1u128 << 127u32 == 0x8000_0000_0000_0000_0000_0000_0000_0000,
{
}

/// What a polynomial makes of the state 1.
spec fn act(g: u128) -> u128 {
    combined(g, 128, 1)
}

/// Multiplying by the indeterminate is a step.
proof fn lemma_act_shifted(g: u128)
    ensures
        act(shifted(g)) == turn(act(g)),
{
    lemma_combined_turn(g, 128, 1);
    lemma_combined_top(g, 127, turn(1));
    lemma_bits(g, 0);
    lemma_modulus();
    lemma_turned_few(1, 128);
    assert(turned(turn(1), 127) == turned(1, 128));
    let rest = combined(g, 127, turn(1));
    lemma_sums(rest, 0, 0, 0);
    assert(act(g << 1) == combined((g << 1) >> 1, 127, turn(1)));
    if g >> 127 == 1 {
        let top = 0x8000_0000_0000_0000_0000_0000_0000_0000u128;
        lemma_combined_sum(g, top, 127, turn(1));
        lemma_combined_high(127, 127, turn(1));
        lemma_combined_sum(g << 1, MODULUS, 128, 1);
    }
}

/// Multiplying by a polynomial is combining by it.
proof fn lemma_act_product(g: u128, h: u128, n: u32)
    ensures
        act(product(g, h, n)) == combined(h, n, act(g)),
    decreases n,
{
    if n == 0 {
        lemma_combined_sum(0, 0, 128, 1);
        lemma_sums(act(0), 0, 0, 0);
        lemma_sums(0, 0, 0, 0);
    } else {
        lemma_act_shifted(g);
        lemma_act_product(shifted(g), h >> 1, (n - 1) as u32);
        let rest = product(shifted(g), h >> 1, (n - 1) as u32);
        lemma_combined_sum(g, rest, 128, 1);
    }
}

proof fn lemma_one()
    by (bit_vector)
    ensures
        combined(1, 128, 1) == 1,
{
}

/// Powers of the indeterminate are steps from the state 1.
proof fn lemma_act_power(n: u128)
    ensures
        act(power(n)) == turned(1, n as nat),
    decreases n,
{
    if n == 0 {
        lemma_one();
    } else {
        let h = n / 2;
        let half = power(h);
        lemma_act_power(h);
        lemma_act_product(half, half, 128);
        lemma_combined_turned(half, 128, 1, h as nat);
        lemma_turned_adds(1, h as nat, h as nat);
        let square = product(half, half, 128);
        assert(act(square) == turned(1, (h + h) as nat));
        assert(n as nat == (h + h) as nat + (n % 2) as nat);
        if n % 2 == 1 {
            lemma_act_shifted(square);
            lemma_turned_adds(1, (h + h) as nat, 1);
            assert(turned(act(square), 1) == turned(turn(act(square)), 0));
        }
    }
}

proof fn lemma_powers()
    by (bit_vector)
    ensures
        power(0xffff_ffff_ffff_ffff_ffff_ffff_ffff_ffff) == 1,
        combined(power(0x55555555555555555555555555555555), 128, 1) != 1,
        combined(power(0x33333333333333333333333333333333), 128, 1) != 1,
        combined(power(0xf0f0f0f0f0f0f0f0f0f0f0f0f0f0f0f), 128, 1) != 1,
        combined(power(0xff00ff00ff00ff00ff00ff00ff00ff), 128, 1) != 1,
        combined(power(0x663d80ff99c27f00663d80ff99c27f), 128, 1) != 1,
        combined(power(0xffff0000ffff0000ffff0000ffff), 128, 1) != 1,
        combined(power(0x3d30f19cd100ffffc2cf0e632eff), 128, 1) != 1,
        combined(power(0x280fffffd7f00000280fffffd7f), 128, 1) != 1,
        combined(power(0x42f00fffffffffffbd0ff), 128, 1) != 1,
{
}

/// The numbers of steps that lead from the state 1 back to it.
spec fn round_trips() -> spec_fn(nat) -> bool {
    |n: nat| turned(1, n) == 1
}

proof fn lemma_round_trips()
    ensures
        round_trips()(u128::MAX as nat),
        forall|i: nat| 0 < i < u128::MAX ==> !#[trigger] round_trips()(i),
{
    let periods = round_trips();
    assert forall|i: nat, j: nat| periods(i) && periods(j) implies #[trigger] periods(i + j) by {
        lemma_turned_adds(1, i, j);
    }
    assert forall|i: nat, j: nat| periods(i) && #[trigger] periods(i + j) implies periods(j) by {
        lemma_turned_adds(1, i, j);
    }
    lemma_powers();
    lemma_one();
    lemma_act_power(u128::MAX);
    lemma_act_power(0x55555555555555555555555555555555);
    lemma_act_power(0x33333333333333333333333333333333);
    lemma_act_power(0xf0f0f0f0f0f0f0f0f0f0f0f0f0f0f0f);
    lemma_act_power(0xff00ff00ff00ff00ff00ff00ff00ff);
    lemma_act_power(0x663d80ff99c27f00663d80ff99c27f);
    lemma_act_power(0xffff0000ffff0000ffff0000ffff);
    lemma_act_power(0x3d30f19cd100ffffc2cf0e632eff);
    lemma_act_power(0x280fffffd7f00000280fffffd7f);
    lemma_act_power(0x42f00fffffffffffbd0ff);
    assert forall|p: nat| #[trigger] is_factor(p) implies !periods(u128::MAX as nat / p) by {
        if p == 3 {
            assert(u128::MAX as nat / p == 0x55555555555555555555555555555555);
        } else if p == 5 {
            assert(u128::MAX as nat / p == 0x33333333333333333333333333333333);
        } else if p == 17 {
            assert(u128::MAX as nat / p == 0xf0f0f0f0f0f0f0f0f0f0f0f0f0f0f0f);
        } else if p == 257 {
            assert(u128::MAX as nat / p == 0xff00ff00ff00ff00ff00ff00ff00ff);
        } else if p == 641 {
            assert(u128::MAX as nat / p == 0x663d80ff99c27f00663d80ff99c27f);
        } else if p == 65537 {
            assert(u128::MAX as nat / p == 0xffff0000ffff0000ffff0000ffff);
        } else if p == 274177 {
            assert(u128::MAX as nat / p == 0x3d30f19cd100ffffc2cf0e632eff);
        } else if p == 6700417 {
            assert(u128::MAX as nat / p == 0x280fffffd7f00000280fffffd7f);
        } else {
            assert(p == LARGE_PRIME && LARGE_PRIME == 67280421310721);
            assert(u128::MAX as nat / 67280421310721 == 0x42f00fffffffffffbd0ff);
            assert(u128::MAX as nat / p == 0x42f00fffffffffffbd0ff);
        }
    }
    lemma_full_period(periods);
}

proof fn lemma_turned_zero(n: nat)
    ensures
        turned(0, n) == 0,
    decreases n,
{
    if n > 0 {
        lemma_turn_sum(0, 0);
        lemma_turned_zero((n - 1) as nat);
    }
}

/// After how many steps from the state 1 another state comes.
proof fn place(s: u128) -> (i: nat)
    requires
        s != 0,
    ensures
        i < u128::MAX,
        turned(1, i) == s,
{
    let n = u128::MAX as nat;
    lemma_round_trips();
    let f = |i: int| turned(1, i as nat) - 1;
    assert forall|i: int| 0 <= i < n implies 0 <= #[trigger] f(i) < n by {
        lemma_turned_adds(1, i as nat, (n - i) as nat);
        lemma_turned_zero((n - i) as nat);
    }
    assert forall|i: int, j: int| 0 <= i < j < n implies #[trigger] f(i) != #[trigger] f(j) by {
        if f(i) == f(j) {
            lemma_turned_adds(1, i as nat, (n - j) as nat);
            lemma_turned_adds(1, j as nat, (n - j) as nat);
            assert(round_trips()((i + (n - j)) as nat));
        }
    }
    lemma_pigeonhole(f, n, n);
    assert(is_reached(f, n, s - 1));
    let i = choose|i: int| 0 <= i < n && #[trigger] f(i) == s - 1;
    i as nat
}

proof fn lemma_code_step(a: u32, b: u32, c: u32, d: u32)
    by (bit_vector)
    ensures
        turn(packed(a, b, c, d)) == packed(
            a ^ (d ^ b),
            b ^ (c ^ a),
            (c ^ a) ^ (b << 9),
            rotated(d ^ b, 11),
        ),
{
}

proof fn lemma_code_differs(a: u32, b: u32, c: u32, d: u32, a2: u32, b2: u32, c2: u32, d2: u32)
    by (bit_vector)
    requires
        packed(a, b, c, d) == packed(a2, b2, c2, d2),
    ensures
        a == a2 && b == b2 && c == c2 && d == d2,
{
}

proof fn lemma_code_iterate(s: Words, k: nat)
    ensures
        code(iterate(s, k)) == turned(code(s), k),
    decreases k,
{
    if k > 0 {
        lemma_code_iterate(s, (k - 1) as nat);
        let t = iterate(s, (k - 1) as nat);
        lemma_code_step(t.a, t.b, t.c, t.d);
        lemma_turned_adds(code(s), (k - 1) as nat, 1);
        assert(turned(code(t), 1) == turned(turn(code(t)), 0));
    }
}

/// Every state but the stuck one comes after every other.
pub proof fn law_every_state_is_reached(s: Words, w: Words)
    requires
        !is_stuck(s),
        !is_stuck(w),
    ensures
        exists|k: nat| #[trigger] iterate(s, k) == w,
{
    lemma_zero_code();
    if code(s) == 0 {
        lemma_code_differs(s.a, s.b, s.c, s.d, 0, 0, 0, 0);
    }
    if code(w) == 0 {
        lemma_code_differs(w.a, w.b, w.c, w.d, 0, 0, 0, 0);
    }
    let n = u128::MAX as nat;
    let i = place(code(s));
    let j = place(code(w));
    let k = (n - i + j) as nat;
    lemma_round_trips();
    lemma_turned_adds(1, i, k);
    lemma_turned_adds(1, n, j);
    assert(i + k == n + j);
    lemma_code_iterate(s, k);
    let t = iterate(s, k);
    lemma_code_differs(t.a, t.b, t.c, t.d, w.a, w.b, w.c, w.d);
    assert(iterate(s, k) == w);
}

/// The generator comes back to a state after 2^128 - 1 steps, and not before.
pub proof fn law_period(s: Words, k: nat)
    requires
        !is_stuck(s),
    ensures
        iterate(s, u128::MAX as nat) == s,
        0 < k < u128::MAX ==> iterate(s, k) != s,
{
    lemma_zero_code();
    if code(s) == 0 {
        lemma_code_differs(s.a, s.b, s.c, s.d, 0, 0, 0, 0);
    }
    let n = u128::MAX as nat;
    let i = place(code(s));
    let rest = (n - i) as nat;
    lemma_round_trips();
    lemma_turned_adds(1, i, n);
    lemma_turned_adds(1, n, i);
    assert(i + n == n + i);
    lemma_code_iterate(s, n);
    let t = iterate(s, n);
    lemma_code_differs(t.a, t.b, t.c, t.d, s.a, s.b, s.c, s.d);
    if 0 < k < n && iterate(s, k) == s {
        // going on to the state 1 shows a shorter way from it back to it
        lemma_code_iterate(s, k);
        lemma_turned_adds(1, i, k);
        lemma_turned_adds(1, i + k, rest);
        lemma_turned_adds(1, i, rest);
        lemma_turned_adds(1, n, k);
        assert(i + k + rest == n + k);
        assert(round_trips()(k));
    }
}

proof fn lemma_zero_code()
    by (bit_vector)
    ensures
        packed(0, 0, 0, 0) == 0,
{
}

} // verus!
