//! Divisibility, primes and periods.

use vstd::arithmetic::div_mod::{
    lemma_fundamental_div_mod, lemma_fundamental_div_mod_converse, lemma_mul_mod_noop,
    lemma_mul_mod_noop_left, lemma_small_mod,
};
use vstd::arithmetic::power::{lemma_pow0, lemma_pow1, lemma_pow_adds, pow};
use vstd::prelude::*;
use vstd::set_lib::{
    lemma_int_range, lemma_len_subset, lemma_map_size, lemma_subset_equality, set_int_range,
};

verus! {

/// Whether `d` divides `n`.
pub open spec fn divides(d: nat, n: nat) -> bool {
    d > 0 && n % d == 0
}

/// Whether `p` is a prime number.
pub open spec fn is_prime(p: nat) -> bool {
    p > 1 && forall|d: nat| 1 < d < p ==> !#[trigger] divides(d, p)
}

proof fn lemma_multiple(d: nat, n: nat, k: int)
    requires
        d > 0,
        n == d * k,
    ensures
        divides(d, n),
        n / d == k,
{
    assert(n == k * d) by (nonlinear_arith)
        requires
            n == d * k,
    ;
    lemma_fundamental_div_mod_converse(n as int, d as int, k, 0);
}

proof fn lemma_quotient(d: nat, n: nat)
    requires
        divides(d, n),
    ensures
        n == d * (n / d),
        n > 0 ==> d <= n && n / d > 0,
{
    lemma_fundamental_div_mod(n as int, d as int);
    let k = n / d;
    if n > 0 {
        assert(k > 0) by (nonlinear_arith)
            requires
                n == d * k,
                n > 0,
                k >= 0,
        ;
        assert(d <= n) by (nonlinear_arith)
            requires
                n == d * k,
                k > 0,
        ;
    }
}

/// Divisors of divisors are divisors.
proof fn lemma_divides_through(c: nat, d: nat, n: nat)
    requires
        divides(c, d),
        divides(d, n),
    ensures
        divides(c, n),
{
    lemma_quotient(c, d);
    lemma_quotient(d, n);
    let (j, k) = (d / c, n / d);
    assert(n == c * (j * k)) by (nonlinear_arith)
        requires
            n == d * k,
            d == c * j,
    ;
    lemma_multiple(c, n, (j * k) as int);
}

/// A common divisor of `a` and `b` that is a combination of both.
proof fn bezout(a: nat, b: nat) -> (r: (nat, int, int))
    requires
        a > 0 || b > 0,
    ensures
        divides(r.0, a),
        divides(r.0, b),
        a * r.1 + b * r.2 == r.0,
    decreases b,
{
    if b == 0 {
        lemma_multiple(a, a, 1);
        lemma_multiple(a, 0, 0);
        (a, 1, 0)
    } else {
        let c = (a % b) as nat;
        let (g, x, y) = bezout(b, c);
        lemma_fundamental_div_mod(a as int, b as int);
        lemma_quotient(g, b);
        lemma_quotient(g, c);
        let q = (a / b) as int;
        let (i, j) = (b / g, c / g);
        assert(a == g * (i * q + j)) by (nonlinear_arith)
            requires
                a == b * q + c,
                b == g * i,
                c == g * j,
        ;
        lemma_multiple(g, a, i * q + j);
        assert(a * y + b * (x - q * y) == g) by (nonlinear_arith)
            requires
                a == b * q + c,
                b * x + c * y == g,
        ;
        (g, y, x - q * y)
    }
}

/// A prime that divides a product divides a factor.
proof fn lemma_prime_in_product(p: nat, a: nat, b: nat)
    requires
        is_prime(p),
        divides(p, a * b),
    ensures
        divides(p, a) || divides(p, b),
{
    if !divides(p, a) {
        let (g, x, y) = bezout(p, a);
        lemma_quotient(g, p);
        if g == p {
            assert(false);
        }
        assert(g == 1);
        lemma_quotient(p, a * b);
        let k = (a * b) / p;
        assert(b == p * (b * x + k * y)) by (nonlinear_arith)
            requires
                p * x + a * y == 1,
                a * b == p * k,
        ;
        lemma_multiple(p, b, b * x + k * y);
    }
}

/// A prime can be left out of a multiple of a number that it does not divide.
proof fn lemma_strip(p: nat, k: nat, rest: nat)
    requires
        is_prime(p),
        !divides(p, k),
        divides(k, p * rest),
    ensures
        divides(k, rest),
{
    let (g, x, y) = bezout(p, k);
    lemma_quotient(g, p);
    if g == p {
        assert(false);
    }
    assert(g == 1);
    lemma_quotient(k, p * rest);
    let t = (p * rest) / k;
    assert(rest == k * (t * x + rest * y)) by (nonlinear_arith)
        requires
            p * x + k * y == 1,
            p * rest == k * t,
    ;
    lemma_multiple(k, rest, t * x + rest * y);
}

/// Every number above one has a prime divisor.
proof fn prime_divisor(n: nat) -> (p: nat)
    requires
        n > 1,
    ensures
        is_prime(p),
        divides(p, n),
    decreases n,
{
    if is_prime(n) {
        lemma_multiple(n, n, 1);
        n
    } else {
        let d = choose|d: nat| 1 < d < n && #[trigger] divides(d, n);
        let p = prime_divisor(d);
        lemma_divides_through(p, d, n);
        p
    }
}

/// No number from `d` up to the one before `end` divides `n`.
pub open spec fn is_free(n: u64, d: u64, end: u64) -> bool
    decreases end - d,
{
    if d >= end {
        true
    } else {
        d > 0 && n % d != 0 && is_free(n, (d + 1) as u64, end)
    }
}

proof fn lemma_free(n: u64, d: u64, end: u64, x: nat)
    requires
        is_free(n, d, end),
        d <= x < end,
    ensures
        !divides(x, n as nat),
    decreases end - d,
{
    if d < x {
        lemma_free(n, (d + 1) as u64, end, x);
    }
}

proof fn lemma_free_joined(n: u64, d: u64, mid: u64, end: u64)
    requires
        is_free(n, d, mid),
        is_free(n, mid, end),
        d <= mid <= end,
    ensures
        is_free(n, d, end),
    decreases mid - d,
{
    if d < mid {
        lemma_free_joined(n, (d + 1) as u64, mid, end);
    }
}

/// A number that is not prime has a divisor up to its square root.
proof fn lemma_small_divisor(n: nat, d: nat) -> (r: nat)
    requires
        1 < d < n,
        divides(d, n),
    ensures
        1 < r,
        r * r <= n,
        divides(r, n),
{
    lemma_quotient(d, n);
    let k = n / d;
    lemma_multiple(k, n, d as int);
    assert(1 < k) by (nonlinear_arith)
        requires
            n == d * k,
            d < n,
    ;
    if d * d <= n {
        d
    } else {
        assert(k * k <= n) by (nonlinear_arith)
            requires
                n == d * k,
                d * d > n,
                k > 0,
        ;
        k
    }
}

/// A number without divisors up to its square root is prime.
proof fn lemma_trial(n: u64, end: u64)
    requires
        n > 1,
        is_free(n, 2, end),
        end * end > n,
    ensures
        is_prime(n as nat),
{
    assert forall|d: nat| 1 < d < n implies !#[trigger] divides(d, n as nat) by {
        if divides(d, n as nat) {
            let r = lemma_small_divisor(n as nat, d);
            assert(r < end) by (nonlinear_arith)
                requires
                    r * r <= n,
                    end * end > n,
            ;
            lemma_free(n, 2, end, r);
        }
    }
}

proof fn lemma_trials()
    by (bit_vector)
    ensures
        is_free(2, 2, 2),
        is_free(3, 2, 2),
        is_free(5, 2, 3),
        is_free(17, 2, 5),
        is_free(47, 2, 7),
        is_free(257, 2, 17),
        is_free(373, 2, 20),
        is_free(641, 2, 26),
        is_free(65537, 2, 257),
        is_free(274177, 2, 524),
        is_free(6700417, 2, 500),
        is_free(6700417, 500, 1000),
        is_free(6700417, 1000, 1500),
        is_free(6700417, 1500, 2000),
        is_free(6700417, 2000, 2500),
        is_free(6700417, 2500, 2589),
{
}

/// Whether the numbers that `periods` holds of are the multiples of one of
/// them: sums and differences of periods are periods.
pub open spec fn are_periods(periods: spec_fn(nat) -> bool) -> bool {
    &&& forall|i: nat, j: nat| periods(i) && periods(j) ==> #[trigger] periods(i + j)
    &&& forall|i: nat, j: nat| periods(i) && #[trigger] periods(i + j) ==> periods(j)
}

/// Multiples of a period are periods.
proof fn lemma_period_multiple(periods: spec_fn(nat) -> bool, m: nat, k: nat)
    requires
        are_periods(periods),
        periods(m),
    ensures
        periods(m * k),
    decreases k,
{
    if k == 0 {
        assert(periods(m + 0));
        assert(m * k == 0) by (nonlinear_arith)
            requires
                k == 0,
        ;
    } else {
        lemma_period_multiple(periods, m, (k - 1) as nat);
        let before = m * ((k - 1) as nat);
        assert(m * k == before + m) by (nonlinear_arith)
            requires
                before == m * (k - 1),
        ;
        assert(periods(before + m));
    }
}

/// The least period, which divides every other.
proof fn least_period(periods: spec_fn(nat) -> bool, n: nat) -> (m: nat)
    requires
        are_periods(periods),
        n > 0,
        periods(n),
    ensures
        m > 0,
        periods(m),
        divides(m, n),
        forall|i: nat| 0 < i < m ==> !#[trigger] periods(i),
    decreases n,
{
    let m = least_from(periods, 1, n);
    lemma_fundamental_div_mod(n as int, m as int);
    let (q, rest) = (n / m, (n % m) as nat);
    lemma_period_multiple(periods, m, q);
    assert(n == m * q + rest);
    assert(periods(m * q + rest));
    assert(rest == 0);
    m
}

proof fn least_from(periods: spec_fn(nat) -> bool, from: nat, n: nat) -> (m: nat)
    requires
        0 < from <= n,
        periods(n),
        forall|i: nat| 0 < i < from ==> !#[trigger] periods(i),
    ensures
        0 < m <= n,
        periods(m),
        forall|i: nat| 0 < i < m ==> !#[trigger] periods(i),
    decreases n - from,
{
    if periods(from) {
        from
    } else {
        assert forall|i: nat| 0 < i < from + 1 implies !#[trigger] periods(i) by {
            if i != from {
                assert(!periods(i));
            }
        }
        least_from(periods, from + 1, n)
    }
}

/// Where `n / p` is no period, `p` does not divide the number of times that
/// the least period goes into `n`.
proof fn lemma_no_shorter(periods: spec_fn(nat) -> bool, m: nat, n: nat, p: nat)
    requires
        are_periods(periods),
        m > 0,
        periods(m),
        divides(m, n),
        p > 1,
        !periods(n / p),
    ensures
        !divides(p, n / m),
{
    let k = n / m;
    if divides(p, k) {
        lemma_quotient(m, n);
        lemma_quotient(p, k);
        let j = k / p;
        assert(n == p * (m * j)) by (nonlinear_arith)
            requires
                n == m * k,
                k == p * j,
        ;
        lemma_multiple(p, n, (m * j) as int);
        lemma_period_multiple(periods, m, j);
    }
}

/// Whether a number below `n` goes to `y`.
pub open spec fn is_reached(f: spec_fn(int) -> int, n: nat, y: int) -> bool {
    exists|i: int| 0 <= i < n && #[trigger] f(i) == y
}

/// Different numbers below `n` that go to different numbers below `end` leave
/// room for each: `n` is at most `end`. Where it equals `end`, each is reached.
pub(crate) proof fn lemma_pigeonhole(f: spec_fn(int) -> int, n: nat, end: nat)
    requires
        forall|i: int| 0 <= i < n ==> 0 <= #[trigger] f(i) < end,
        forall|i: int, j: int| 0 <= i < j < n ==> #[trigger] f(i) != #[trigger] f(j),
    ensures
        n <= end,
        n == end ==> forall|y: int| 0 <= y < end ==> #[trigger] is_reached(f, n, y),
{
    let from = set_int_range(0, n as int);
    let to = set_int_range(0, end as int);
    lemma_int_range(0, n as int);
    lemma_int_range(0, end as int);
    let image = from.map(f);
    lemma_map_size(from, image, f);
    assert(image.subset_of(to));
    lemma_len_subset(image, to);
    if n == end {
        lemma_subset_equality(image, to);
        assert forall|y: int| 0 <= y < end implies #[trigger] is_reached(f, n, y) by {
            assert(to.contains(y));
            assert(image.contains(y));
            let i = choose|i: int| from.contains(i) && f(i) == y;
            assert(f(i) == y);
        }
    }
}

/// The residue of a power.
pub open spec fn residue(a: u128, n: u128, q: u128) -> u128
    decreases n,
{
    if n == 0 {
        1
    } else {
        let half = residue(a, n / 2, q);
        let square = ((half * half) as u128) % q;
        if n % 2 == 1 {
            ((square * a) as u128) % q
        } else {
            square
        }
    }
}

proof fn lemma_residue(a: u128, n: u128, q: u128)
    requires
        a < q,
        1 < q <= u64::MAX,
    ensures
        residue(a, n, q) == pow(a as int, n as nat) % (q as int),
    decreases n,
{
    let (b, m) = (a as int, q as int);
    if n == 0 {
        lemma_pow0(b);
        lemma_small_mod(1, q as nat);
    } else {
        let h = n / 2;
        lemma_residue(a, h, q);
        let half = residue(a, h, q);
        let x = pow(b, h as nat);
        lemma_pow_adds(b, h as nat, h as nat);
        lemma_mul_mod_noop(x, x, m);
        assert(half * half <= u128::MAX) by (nonlinear_arith)
            requires
                0 <= half <= u64::MAX,
        ;
        let square = ((half * half) as u128) % q;
        assert(square == pow(b, (h + h) as nat) % m);
        assert(n as nat == (h + h) as nat + (n % 2) as nat);
        if n % 2 == 1 {
            lemma_pow_adds(b, (h + h) as nat, 1);
            lemma_pow1(b);
            lemma_mul_mod_noop_left(pow(b, (h + h) as nat), b, m);
            assert(square * a <= u128::MAX) by (nonlinear_arith)
                requires
                    0 <= square <= u64::MAX,
                    0 <= a <= u64::MAX,
            ;
        }
    }
}

/// The exponents at which powers of `a` leave the remainder one.
spec fn unit_exponents(a: int, r: int) -> spec_fn(nat) -> bool {
    |n: nat| pow(a, n) % r == 1
}

proof fn lemma_unit_exponents(a: int, r: int)
    requires
        r > 1,
    ensures
        are_periods(unit_exponents(a, r)),
{
    let periods = unit_exponents(a, r);
    lemma_small_mod(1, r as nat);
    assert forall|i: nat, j: nat| periods(i) && periods(j) implies #[trigger] periods(i + j) by {
        lemma_pow_adds(a, i, j);
        lemma_mul_mod_noop(pow(a, i), pow(a, j), r);
    }
    assert forall|i: nat, j: nat| periods(i) && #[trigger] periods(i + j) implies periods(j) by {
        lemma_pow_adds(a, i, j);
        lemma_mul_mod_noop_left(pow(a, i), pow(a, j), r);
        assert(1 * pow(a, j) == pow(a, j));
    }
}

/// No more exponents than remainders lie below the least exponent at which a
/// power leaves the remainder one.
proof fn lemma_order_bound(a: int, r: nat, m: nat)
    requires
        r > 1,
        m > 0,
        unit_exponents(a, r as int)(m),
        forall|i: nat| 0 < i < m ==> !#[trigger] unit_exponents(a, r as int)(i),
    ensures
        m <= r,
{
    let periods = unit_exponents(a, r as int);
    lemma_unit_exponents(a, r as int);
    let f = |i: int| pow(a, i as nat) % (r as int);
    assert forall|i: int, j: int| 0 <= i < j < m implies #[trigger] f(i) != #[trigger] f(j) by {
        if f(i) == f(j) {
            // shifting both exponents up to m gives a shorter period
            let up = (m - j) as nat;
            lemma_pow_adds(a, i as nat, up);
            lemma_pow_adds(a, j as nat, up);
            lemma_mul_mod_noop_left(pow(a, i as nat), pow(a, up), r as int);
            lemma_mul_mod_noop_left(pow(a, j as nat), pow(a, up), r as int);
            assert((j + up) as nat == m);
            assert(periods((i + up) as nat));
        }
    }
    lemma_pigeonhole(f, m, r);
}

/// Where a power of `a` less one has an inverse modulo `q`, it is not one
/// modulo a divisor of `q` either.
proof fn lemma_not_unit(a: int, n: nat, q: nat, r: nat, inverse: nat)
    requires
        r > 1,
        q > 0,
        divides(r, q),
        ((pow(a, n) % (q as int) - 1) * inverse) % (q as int) == 1,
    ensures
        !unit_exponents(a, r as int)(n),
{
    let x = pow(a, n);
    let (m, d) = (q as int, r as int);
    lemma_quotient(r, q);
    let k = (q / r) as int;
    if x % d == 1 {
        lemma_fundamental_div_mod(x, m);
        lemma_fundamental_div_mod(x, d);
        let y = x % m;
        let (u, v) = (x / m, x / d);
        // y - 1 is a multiple of the divisor
        let t = v - k * u;
        assert(y - 1 == d * t) by (nonlinear_arith)
            requires
                x == m * u + y,
                x == d * v + 1,
                m == d * k,
                t == v - k * u,
        ;
        let z = (y - 1) * inverse;
        lemma_fundamental_div_mod(z, m);
        let w = z / m;
        assert(1 == d * (t * inverse - k * w)) by (nonlinear_arith)
            requires
                z == m * w + 1,
                z == (y - 1) * inverse,
                y - 1 == d * t,
                m == d * k,
        ;
        let c = t * inverse - k * w;
        assert(false) by (nonlinear_arith)
            requires
                1 == d * c,
                d > 1,
        ;
    }
}

/// The largest prime factor of 2^64 + 1.
pub const LARGE_PRIME: u64 = 67280421310721;

proof fn lemma_large_residues()
    by (bit_vector)
    ensures
        residue(3, 67280421310720, 67280421310721) == 1,
        residue(3, 33640210655360, 67280421310721) == 67280421310720,
        residue(3, 13456084262144, 67280421310721) == 8348471219631,
        residue(3, 1431498325760, 67280421310721) == 29801263682154,
        residue(3, 180376464640, 67280421310721) == 65541179653181,
{
}

proof fn lemma_small_primes()
    ensures
        is_prime(2),
        is_prime(3),
        is_prime(5),
        is_prime(17),
        is_prime(47),
        is_prime(257),
        is_prime(373),
        is_prime(641),
        is_prime(65537),
        is_prime(274177),
        is_prime(6700417),
{
    lemma_trials();
    lemma_trial(2, 2);
    lemma_trial(3, 2);
    lemma_trial(5, 3);
    lemma_trial(17, 5);
    lemma_trial(47, 7);
    lemma_trial(257, 17);
    lemma_trial(373, 20);
    lemma_trial(641, 26);
    lemma_trial(65537, 257);
    lemma_trial(274177, 524);
    lemma_free_joined(6700417, 2, 500, 1000);
    lemma_free_joined(6700417, 2, 1000, 1500);
    lemma_free_joined(6700417, 2, 1500, 2000);
    lemma_free_joined(6700417, 2, 2000, 2500);
    lemma_free_joined(6700417, 2, 2500, 2589);
    lemma_trial(6700417, 2589);
}

/// The powers of three have too long a period for a small divisor.
proof fn lemma_large_prime()
    ensures
        is_prime(LARGE_PRIME as nat),
{
    let q = LARGE_PRIME as nat;
    lemma_small_primes();
    lemma_large_residues();
    lemma_residue(3, 67280421310720, 67280421310721);
    lemma_residue(3, 33640210655360, 67280421310721);
    lemma_residue(3, 13456084262144, 67280421310721);
    lemma_residue(3, 1431498325760, 67280421310721);
    lemma_residue(3, 180376464640, 67280421310721);
    assert forall|d: nat| 1 < d < q implies !#[trigger] divides(d, q) by {
        if divides(d, q) {
            let r = lemma_small_divisor(q, d);
            lemma_no_small_divisor(r);
        }
    }
}

proof fn lemma_no_small_divisor(r: nat)
    requires
        1 < r,
        r * r <= LARGE_PRIME,
        is_prime(2),
        is_prime(5),
        is_prime(47),
        is_prime(373),
        pow(3, 67280421310720) % 67280421310721 == 1,
        pow(3, 33640210655360) % 67280421310721 == 67280421310720,
        pow(3, 13456084262144) % 67280421310721 == 8348471219631,
        pow(3, 1431498325760) % 67280421310721 == 29801263682154,
        pow(3, 180376464640) % 67280421310721 == 65541179653181,
    ensures
        !divides(r, LARGE_PRIME as nat),
{
    let q = LARGE_PRIME as nat;
    if divides(r, q) {
        let n: nat = 67280421310720;
        let periods = unit_exponents(3, r as int);
        lemma_unit_exponents(3, r as int);
        // three to the power of q - 1 is one modulo every divisor of q
        lemma_quotient(r, q);
        let k = (q / r) as int;
        let x = pow(3, n);
        lemma_fundamental_div_mod(x, q as int);
        let u = x / (q as int);
        assert(x == (k * u) * r + 1) by (nonlinear_arith)
            requires
                x == q * u + 1,
                q == r * k,
        ;
        lemma_fundamental_div_mod_converse(x, r as int, k * u, 1);
        let m = least_period(periods, n);
        // neither 2 nor 5, 47 or 373 can be taken out of q - 1
        lemma_not_unit(3, 33640210655360, q, r, 33640210655360);
        lemma_not_unit(3, 13456084262144, q, r, 17361421745283);
        lemma_not_unit(3, 1431498325760, q, r, 32342771460764);
        lemma_not_unit(3, 180376464640, q, r, 20076373578344);
        lemma_no_shorter(periods, m, n, 2);
        lemma_no_shorter(periods, m, n, 5);
        lemma_no_shorter(periods, m, n, 47);
        lemma_no_shorter(periods, m, n, 373);
        lemma_quotient(m, n);
        let times = n / m;
        lemma_multiple(times, n, m as int);
        lemma_strip(2, times, 33640210655360);
        lemma_strip(2, times, 16820105327680);
        lemma_strip(2, times, 8410052663840);
        lemma_strip(2, times, 4205026331920);
        lemma_strip(2, times, 2102513165960);
        lemma_strip(2, times, 1051256582980);
        lemma_strip(2, times, 525628291490);
        lemma_strip(2, times, 262814145745);
        lemma_strip(5, times, 52562829149);
        lemma_strip(47, times, 1118358067);
        lemma_strip(373, times, 2998279);
        lemma_quotient(times, 2998279);
        assert(m >= 22439680) by (nonlinear_arith)
            requires
                n == m * times,
                n == 67280421310720,
                0 < times <= 2998279,
        ;
        lemma_order_bound(3, r, m);
        assert(false) by (nonlinear_arith)
            requires
                r >= 22439680,
                r * r <= 67280421310721,
        ;
    }
}

proof fn lemma_same_prime(p: nat, q: nat)
    requires
        is_prime(p),
        is_prime(q),
        divides(p, q),
    ensures
        p == q,
{
    lemma_quotient(p, q);
}

/// Whether `p` is one of the prime factors of 2^128 - 1.
pub open spec fn is_factor(p: nat) -> bool {
    ||| p == 3
    ||| p == 5
    ||| p == 17
    ||| p == 257
    ||| p == 641
    ||| p == 65537
    ||| p == 274177
    ||| p == 6700417
    ||| p == LARGE_PRIME
}

proof fn lemma_factor(p: nat, q: nat, rest: nat)
    requires
        is_prime(p),
        is_prime(q),
        divides(p, q * rest),
    ensures
        p == q || divides(p, rest),
{
    lemma_prime_in_product(p, q, rest);
    if divides(p, q) {
        lemma_same_prime(p, q);
    }
}

/// 2^128 - 1 has no other prime factors.
proof fn lemma_factors(p: nat)
    requires
        is_prime(p),
        divides(p, u128::MAX as nat),
    ensures
        is_factor(p),
{
    lemma_small_primes();
    lemma_large_prime();
    if !is_factor(p) {
        lemma_factor(p, 3, 0x55555555555555555555555555555555nat);
    }
    if !is_factor(p) {
        lemma_factor(p, 5, 0x11111111111111111111111111111111nat);
    }
    if !is_factor(p) {
        lemma_factor(p, 17, 0x1010101010101010101010101010101nat);
    }
    if !is_factor(p) {
        lemma_factor(p, 257, 0x10001000100010001000100010001nat);
    }
    if !is_factor(p) {
        lemma_factor(p, 641, 0x663de73d81000000663de73d81nat);
    }
    if !is_factor(p) {
        lemma_factor(p, 65537, 0x663d810000000000663d81nat);
    }
    if !is_factor(p) {
        lemma_factor(p, 274177, 0x187033c3b764388e81nat);
    }
    if !is_factor(p) {
        lemma_factor(p, 6700417, 0x3d30f19cd101nat);
    }
    if !is_factor(p) {
        lemma_same_prime(p, LARGE_PRIME as nat);
    }
}

/// Where 2^128 - 1 is a period and none of its largest proper divisors is, it
/// is the least one.
pub(crate) proof fn lemma_full_period(periods: spec_fn(nat) -> bool)
    requires
        are_periods(periods),
        periods(u128::MAX as nat),
        forall|p: nat| #[trigger] is_factor(p) ==> !periods(u128::MAX as nat / p),
    ensures
        forall|i: nat| 0 < i < u128::MAX ==> !#[trigger] periods(i),
{
    let n = u128::MAX as nat;
    let m = least_period(periods, n);
    lemma_quotient(m, n);
    let k = n / m;
    lemma_multiple(k, n, m as int);
    if k > 1 {
        let p = prime_divisor(k);
        lemma_divides_through(p, k, n);
        lemma_factors(p);
        lemma_no_shorter(periods, m, n, p);
    }
    assert(m == n) by (nonlinear_arith)
        requires
            n == m * k,
            k == 1,
    ;
}

} // verus!
