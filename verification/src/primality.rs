//! Primes, and certificates for them after Pocklington: if some `h` has `h^f = 1` modulo `n`, and no
//! smaller power of `h` is 1 modulo any divisor of `n`, then every divisor of `n` is larger than
//! `f`; with `(f + 1)^2 > n` there is none but `n` itself.
use vstd::arithmetic::power::pow;
use vstd::prelude::*;

verus! {

pub open spec fn divides(d: nat, n: nat) -> bool {
    n % d == 0
}

pub open spec fn is_prime(n: nat) -> bool {
    &&& n > 1
    &&& forall|d: nat| 1 < d < n ==> !#[trigger] divides(d, n)
}

// ---------------------------------------------------------------------------- divisibility

/// What a divisor divides leaves no remainder in sums.
proof fn lemma_multiple(d: nat, q: int)
    requires
        d > 0,
    ensures
        (d * q) % (d as int) == 0,
{
    vstd::arithmetic::div_mod::lemma_mod_multiples_basic(q, d as int);
    assert(d * q == q * d) by (nonlinear_arith);
}

/// Remainders modulo a divisor of `n` can be taken after those modulo `n`.
proof fn lemma_mod_of_mod(x: int, n: nat, r: nat)
    requires
        r > 0,
        n > 0,
        divides(r, n),
    ensures
        (x % (n as int)) % (r as int) == x % (r as int),
{
    let c = n as int / r as int;
    vstd::arithmetic::div_mod::lemma_fundamental_div_mod(n as int, r as int);
    vstd::arithmetic::div_mod::lemma_fundamental_div_mod(x, n as int);
    let q = x / (n as int);
    let m = x % (n as int);
    assert(x == m + r * (c * q)) by (nonlinear_arith)
        requires
            x == n * q + m,
            n == r * c,
    ;
    vstd::arithmetic::div_mod::lemma_mod_multiples_vanish(c * q, m, r as int);
}

/// Euclid's lemma: a prime that divides a product divides a factor.
pub proof fn lemma_euclid(p: nat, a: nat, b: nat)
    requires
        is_prime(p),
        divides(p, a * b),
    ensures
        divides(p, a) || divides(p, b),
    decreases a,
{
    if a >= p {
        let c = (a % p) as nat;
        vstd::arithmetic::div_mod::lemma_mul_mod_noop(a as int, b as int, p as int);
        vstd::arithmetic::div_mod::lemma_mul_mod_noop(c as int, b as int, p as int);
        vstd::arithmetic::div_mod::lemma_mod_twice(a as int, p as int);
        lemma_euclid(p, c, b);
    } else if a > 1 {
        // p = a q + c, so p divides c b as well
        let q = p / a;
        let c = p % a;
        vstd::arithmetic::div_mod::lemma_fundamental_div_mod(p as int, a as int);
        assert(!divides(a, p));
        assert(c * b == p * b - q * (a * b)) by (nonlinear_arith)
            requires
                p == a * q + c,
        ;
        let k = (a * b) / p;
        vstd::arithmetic::div_mod::lemma_fundamental_div_mod((a * b) as int, p as int);
        assert(c * b == p * (b - q * k)) by (nonlinear_arith)
            requires
                c * b == p * b - q * (a * b),
                a * b == p * k,
        ;
        lemma_multiple(p, b - q * k);
        lemma_euclid(p, c, b);
        vstd::arithmetic::div_mod::lemma_small_mod(c, p);
    } else if a == 1 {
        assert(a * b == b) by (nonlinear_arith)
            requires
                a == 1,
        ;
    }
}

// ---------------------------------------------------------------------------------- orders

/// Whether a power is 1 modulo `r`.
pub open spec fn is_one(h: int, k: nat, r: nat) -> bool {
    pow(h, k) % (r as int) == 1
}

proof fn lemma_sum_of_exponents(h: int, i: nat, j: nat, r: nat)
    requires
        r > 1,
    ensures
        is_one(h, i, r) ==> pow(h, i + j) % (r as int) == pow(h, j) % (r as int),
{
    vstd::arithmetic::power::lemma_pow_adds(h, i, j);
    vstd::arithmetic::div_mod::lemma_mul_mod_noop_left(pow(h, i), pow(h, j), r as int);
}

proof fn lemma_multiple_of_exponent(h: int, m: nat, q: nat, r: nat)
    requires
        r > 1,
        is_one(h, m, r),
    ensures
        is_one(h, m * q, r),
{
    vstd::arithmetic::power::lemma_pow_multiplies(h, m, q);
    vstd::arithmetic::power::lemma_pow_mod_noop(pow(h, m), q, r as int);
    vstd::arithmetic::power::lemma1_pow(q);
    vstd::arithmetic::div_mod::lemma_small_mod(1, r);
}

/// The order of `h` modulo `r`: the least positive exponent whose power is 1.
proof fn find_order(h: int, k: nat, r: nat) -> (m: nat)
    requires
        k > 0,
        is_one(h, k, r),
    ensures
        0 < m <= k,
        is_one(h, m, r),
        forall|j: nat| 0 < j < m ==> !#[trigger] is_one(h, j, r),
    decreases k,
{
    if exists|j: nat| 0 < j < k && #[trigger] is_one(h, j, r) {
        let j = choose|j: nat| 0 < j < k && #[trigger] is_one(h, j, r);
        find_order(h, j, r)
    } else {
        k
    }
}

/// The order divides every exponent whose power is 1.
proof fn lemma_order_divides(h: int, m: nat, f: nat, r: nat)
    requires
        r > 1,
        m > 0,
        is_one(h, m, r),
        forall|j: nat| 0 < j < m ==> !#[trigger] is_one(h, j, r),
        is_one(h, f, r),
    ensures
        divides(m, f),
{
    let q = f / m;
    let rest = f % m;
    vstd::arithmetic::div_mod::lemma_fundamental_div_mod(f as int, m as int);
    lemma_multiple_of_exponent(h, m, q, r);
    lemma_sum_of_exponents(h, m * q, rest, r);
    if rest > 0 {
        assert(is_one(h, rest, r));
    }
}

/// Whether no positive power of `h` below `f` is 1 modulo `r`.
spec fn is_free(h: int, f: nat, r: nat) -> bool {
    forall|k: nat| 0 < k < f ==> !#[trigger] is_one(h, k, r)
}

/// The powers of an element are different and not zero, so there are fewer of them than remainders.
proof fn lemma_order_is_small(h: int, f: nat, r: nat)
    requires
        r > 1,
        f > 0,
        is_one(h, f, r),
        is_free(h, f, r),
    ensures
        f < r,
{
    let power = |i: int| pow(h, i as nat) % (r as int);
    let exponents = vstd::set_lib::set_int_range(0, f as int);
    let powers = exponents.map(power);
    let units = vstd::set_lib::set_int_range(1, r as int);
    vstd::set_lib::lemma_int_range(0, f as int);
    vstd::set_lib::lemma_int_range(1, r as int);
    assert forall|i: int, j: int| 0 <= i < j < f implies #[trigger] power(i) != #[trigger] power(
        j,
    ) by {
        if power(i) == power(j) {
            lemma_equal_powers(h, f, i as nat, j as nat, r);
            assert(is_one(h, (j - i) as nat, r));
        }
    }
    assert(vstd::relations::injective_on(power, exponents));
    vstd::set_lib::lemma_map_size(exponents, powers, power);
    assert forall|y: int| powers.contains(y) implies units.contains(y) by {
        let i = choose|i: int| exponents.contains(i) && power(i) == y;
        vstd::arithmetic::div_mod::lemma_mod_bound(pow(h, i as nat), r as int);
        if power(i) == 0 {
            let rest = (f - i) as nat;
            let a = pow(h, i as nat);
            let b = pow(h, rest);
            vstd::arithmetic::power::lemma_pow_adds(h, i as nat, rest);
            vstd::arithmetic::div_mod::lemma_mul_mod_noop_left(a, b, r as int);
            assert(i as nat + rest == f);
            assert((a % (r as int)) * b == 0) by (nonlinear_arith)
                requires
                    a % (r as int) == 0,
            ;
        }
        assert(1 <= y < r);
    }
    vstd::set_lib::lemma_len_subset(powers, units);
}

proof fn lemma_equal_powers(h: int, f: nat, i: nat, j: nat, r: nat)
    requires
        r > 1,
        i < j < f,
        is_one(h, f, r),
        pow(h, i) % (r as int) == pow(h, j) % (r as int),
    ensures
        is_one(h, (j - i) as nat, r),
{
    let m = r as int;
    let rest = (f - i) as nat;
    vstd::arithmetic::power::lemma_pow_adds(h, i, rest);
    vstd::arithmetic::power::lemma_pow_adds(h, j, rest);
    vstd::arithmetic::div_mod::lemma_mul_mod_noop_left(pow(h, i), pow(h, rest), m);
    vstd::arithmetic::div_mod::lemma_mul_mod_noop_left(pow(h, j), pow(h, rest), m);
    assert(pow(h, j + rest) % m == 1);
    assert(j + rest == f + (j - i) as nat);
    lemma_sum_of_exponents(h, f, (j - i) as nat, r);
}

// ---------------------------------------------------------------------------- certificates

/// A number without a divisor up to its root is a prime.
proof fn lemma_no_small_divisor(n: nat, f: nat)
    requires
        n > 1,
        (f + 1) * (f + 1) > n,
        forall|r: nat| 1 < r && #[trigger] divides(r, n) ==> f < r,
    ensures
        is_prime(n),
{
    assert forall|d: nat| 1 < d < n implies !#[trigger] divides(d, n) by {
        if divides(d, n) {
            let e = n / d;
            vstd::arithmetic::div_mod::lemma_fundamental_div_mod(n as int, d as int);
            assert(n == e * d) by (nonlinear_arith)
                requires
                    n == d * e,
            ;
            assert(e > 1) by (nonlinear_arith)
                requires
                    n == d * e,
                    1 < d < n,
            ;
            lemma_multiple(e, d as int);
            assert(divides(e, n));
            assert(d * e >= (f + 1) * (f + 1)) by (nonlinear_arith)
                requires
                    d >= f + 1,
                    e >= f + 1,
            ;
        }
    }
}

/// An element that is a unit after taking away 1 is not 1 modulo any divisor.
proof fn lemma_not_one(x: int, u: int, n: nat, r: nat)
    requires
        n > 1,
        r > 1,
        divides(r, n),
        ((x - 1) * u) % (n as int) == 1,
    ensures
        x % (r as int) != 1,
{
    let m = r as int;
    lemma_mod_of_mod((x - 1) * u, n, r);
    vstd::arithmetic::div_mod::lemma_small_mod(1, r);
    if x % m == 1 {
        vstd::arithmetic::div_mod::lemma_sub_mod_noop(x, 1, m);
        vstd::arithmetic::div_mod::lemma_mul_mod_noop_left(x - 1, u, m);
        vstd::arithmetic::div_mod::lemma_small_mod(0, r);
        assert(((x - 1) % m) * u == 0) by (nonlinear_arith)
            requires
                (x - 1) % m == 0,
        ;
    }
}

/// A power that is 1 modulo `n` is 1 modulo every divisor.
proof fn lemma_one_modulo_divisor(h: int, f: nat, n: nat, r: nat)
    requires
        n > 1,
        r > 1,
        divides(r, n),
        is_one(h, f, n),
    ensures
        is_one(h, f, r),
{
    lemma_mod_of_mod(pow(h, f), n, r);
    vstd::arithmetic::div_mod::lemma_small_mod(1, r);
}

/// Certificate with one prime: `h` has the order `q` modulo every divisor of `n`.
pub proof fn lemma_certified_by_one(n: nat, q: nat, limit: nat, h: int, u: int)
    requires
        n > 1,
        is_prime(q),
        limit == q + 1,
        limit * limit > n,
        is_one(h, q, n),
        ((h - 1) * u) % (n as int) == 1,
    ensures
        is_prime(n),
{
    assert forall|r: nat| 1 < r && #[trigger] divides(r, n) implies q < r by {
        lemma_one_modulo_divisor(h, q, n, r);
        lemma_not_one(h, u, n, r);
        let m = find_order(h, q, r);
        lemma_order_divides(h, m, q, r);
        vstd::arithmetic::power::lemma_pow1(h);
        assert(m != 1);
        assert(divides(m, q));
        assert(is_free(h, q, r));
        lemma_order_is_small(h, q, r);
    }
    lemma_no_small_divisor(n, q);
}

/// Certificate with two primes: `h` has the order `s t` modulo every divisor of `n`. `x` and `y`
/// are the powers of `h` by one of them.
pub proof fn lemma_certified_by_two(
    n: nat,
    s: nat,
    t: nat,
    f: nat,
    limit: nat,
    h: int,
    x: int,
    u: int,
    y: int,
    v: int,
)
    requires
        n > 1,
        is_prime(s),
        is_prime(t),
        f == s * t,
        limit == f + 1,
        limit * limit > n,
        is_one(h, s * t, n),
        pow(h, s) % (n as int) == x,
        ((x - 1) * u) % (n as int) == 1,
        pow(h, t) % (n as int) == y,
        ((y - 1) * v) % (n as int) == 1,
    ensures
        is_prime(n),
{
    assert(f > 0) by (nonlinear_arith)
        requires
            f == s * t,
            s > 1,
            t > 1,
    ;
    assert forall|r: nat| 1 < r && #[trigger] divides(r, n) implies f < r by {
        lemma_one_modulo_divisor(h, f, n, r);
        lemma_mod_of_mod(pow(h, s), n, r);
        lemma_mod_of_mod(pow(h, t), n, r);
        lemma_not_one(x, u, n, r);
        lemma_not_one(y, v, n, r);
        let m = find_order(h, f, r);
        lemma_order_divides(h, m, f, r);
        if m < f {
            lemma_proper_divisor(h, s, t, m, r);
        }
        assert(is_free(h, f, r));
        lemma_order_is_small(h, f, r);
    }
    lemma_no_small_divisor(n, f);
}

/// A proper divisor of the product of two primes divides one of them.
proof fn lemma_proper_divisor(h: int, s: nat, t: nat, m: nat, r: nat)
    requires
        r > 1,
        is_prime(s),
        is_prime(t),
        0 < m < s * t,
        divides(m, s * t),
        is_one(h, m, r),
    ensures
        is_one(h, s, r) || is_one(h, t, r),
{
    let c = (s * t) / m;
    vstd::arithmetic::div_mod::lemma_fundamental_div_mod((s * t) as int, m as int);
    assert(s * t == m * c);
    assert(c > 1) by (nonlinear_arith)
        requires
            m < m * c,
            m > 0,
    ;
    lemma_multiple(s, t as int);
    lemma_euclid(s, m, c);
    if divides(s, c) {
        let k = c / s;
        vstd::arithmetic::div_mod::lemma_fundamental_div_mod(c as int, s as int);
        assert(t == m * k) by (nonlinear_arith)
            requires
                s * t == m * c,
                c == s * k,
                s > 0,
        ;
        lemma_multiple_of_exponent(h, m, k, r);
    } else {
        let k = m / s;
        vstd::arithmetic::div_mod::lemma_fundamental_div_mod(m as int, s as int);
        assert(t == c * k) by (nonlinear_arith)
            requires
                s * t == m * c,
                m == s * k,
                s > 0,
        ;
        lemma_multiple(c, k as int);
        assert(divides(c, t));
        assert(c <= t) by (nonlinear_arith)
            requires
                t == c * k,
                t > 0,
        ;
        assert(c == t);
        assert(k == 1) by (nonlinear_arith)
            requires
                t == t * k,
                t > 0,
        ;
        assert(m == s) by (nonlinear_arith)
            requires
                m == s * k,
                k == 1,
        ;
    }
}

} // verus!
