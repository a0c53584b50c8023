//! The order of the base field is a prime, so the product of two elements vanishes only if one of
//! them does. That is what turns an equation between cells of a circuit into cases.
//!
//! Every prime here is certified by one or two smaller primes (`crate::primality`), down to those
//! of one digit. The powers are followed digit by digit of the exponent, to the base 16.
use vstd::arithmetic::power::pow;
use vstd::prelude::*;

use crate::primality::{divides, is_one, is_prime, lemma_certified_by_one, lemma_certified_by_two, lemma_euclid};

verus! {

// ------------------------------------------------------------------------------- arithmetic

/// `x^16 w`.
spec fn raised(x: int, w: int) -> int {
    x * (x * (x * (x * (x * (x * (x * (x * (x * (x * (x * (x * (x * (x * (x * (x * w))))))))))))))
        )
}

/// `x^k w`.
spec fn times_power(x: int, k: nat, w: int) -> int
    decreases k,
{
    if k == 0 {
        w
    } else {
        x * times_power(x, (k - 1) as nat, w)
    }
}

proof fn lemma_times_power(x: int, k: nat, w: int)
    ensures
        times_power(x, k, w) == pow(x, k) * w,
    decreases k,
{
    reveal(pow);
    if k > 0 {
        lemma_times_power(x, (k - 1) as nat, w);
        let p = pow(x, (k - 1) as nat);
        assert(x * (p * w) == (x * p) * w) by (nonlinear_arith);
    }
}

/// One digit more of an exponent to the base 16.
proof fn lemma_digit(h: int, e: nat, x: int, d: nat, w: int, y: int, n: nat)
    requires
        n > 0,
        pow(h, e) % (n as int) == x,
        pow(h, d) % (n as int) == w,
        raised(x, w) % (n as int) == y,
    ensures
        pow(h, 16 * e + d) % (n as int) == y,
{
    let m = n as int;
    vstd::arithmetic::power::lemma_pow_multiplies(h, e, 16);
    vstd::arithmetic::power::lemma_pow_adds(h, e * 16, d);
    vstd::arithmetic::power::lemma_pow_mod_noop(pow(h, e), 16, m);
    vstd::arithmetic::div_mod::lemma_mul_mod_noop(pow(h, e * 16), pow(h, d), m);
    vstd::arithmetic::div_mod::lemma_mul_mod_noop(pow(x, 16), w, m);
    vstd::arithmetic::div_mod::lemma_mod_twice(pow(h, d), m);
    lemma_times_power(x, 16, w);
    reveal_with_fuel(times_power, 17);
}

/// One factor more.
proof fn lemma_next(h: int, d: nat, x: int, y: int, n: nat)
    requires
        n > 0,
        pow(h, d) % (n as int) == x,
        (x * h) % (n as int) == y,
    ensures
        pow(h, d + 1) % (n as int) == y,
{
    vstd::arithmetic::power::lemma_pow_adds(h, d, 1);
    vstd::arithmetic::power::lemma_pow1(h);
    vstd::arithmetic::div_mod::lemma_mul_mod_noop_left(pow(h, d), h, n as int);
}

/// A power of a power.
proof fn lemma_power_of_power(h: int, s: nat, x: int, t: nat, n: nat)
    requires
        n > 0,
        pow(h, s) % (n as int) == x,
        pow(x, t) % (n as int) == 1,
    ensures
        is_one(h, s * t, n),
{
    vstd::arithmetic::power::lemma_pow_multiplies(h, s, t);
    vstd::arithmetic::power::lemma_pow_mod_noop(pow(h, s), t, n as int);
}

// ------------------------------------------------------------------------------ certificate

proof fn prime_11()
    ensures
        is_prime(11),
{
    assert forall|d: nat| 1 < d < 11 implies !#[trigger] divides(d, 11) by {
        assert(d == 2 || d == 3 || d == 4 || d == 5 || d == 6 || d == 7 || d == 8 || d == 9 || d == 10);
    }
}

proof fn prime_2()
    ensures
        is_prime(2),
{
}

proof fn prime_5()
    ensures
        is_prime(5),
{
    assert forall|d: nat| 1 < d < 5 implies !#[trigger] divides(d, 5) by {
        assert(d == 2 || d == 3 || d == 4);
    }
}

proof fn prime_61_first()
    ensures
        pow(3int, 2nat) % (61nat as int) == 9int,
{
    vstd::arithmetic::power::lemma_pow1(3int);
    lemma_next(3int, 1, 3int, 9int, 61nat);
}

proof fn prime_61_second()
    ensures
        pow(3int, 5nat) % (61nat as int) == 60int,
{
    vstd::arithmetic::power::lemma_pow1(3int);
    lemma_next(3int, 1, 3int, 9int, 61nat);
    lemma_next(3int, 2, 9int, 27int, 61nat);
    lemma_next(3int, 3, 27int, 20int, 61nat);
    lemma_next(3int, 4, 20int, 60int, 61nat);
}

proof fn prime_61_both()
    ensures
        pow(9int, 5nat) % (61nat as int) == 1int,
{
    vstd::arithmetic::power::lemma_pow1(9int);
    lemma_next(9int, 1, 9int, 20int, 61nat);
    lemma_next(9int, 2, 20int, 58int, 61nat);
    lemma_next(9int, 3, 58int, 34int, 61nat);
    lemma_next(9int, 4, 34int, 1int, 61nat);
}

proof fn prime_61()
    ensures
        is_prime(61nat),
{
    prime_2();
    prime_5();
    prime_61_first();
    prime_61_second();
    prime_61_both();
    lemma_power_of_power(3int, 2nat, 9int, 5nat, 61nat);
    lemma_certified_by_two(
        61nat,
        2nat,
        5nat,
        10nat,
        11nat,
        3int,
        9int,
        23int,
        60int,
        30int,
    );
}

proof fn prime_977_power()
    ensures
        pow(77int, 61nat) % (977nat as int) == 1int,
{
    vstd::arithmetic::power::lemma_pow1(77int);
    lemma_next(77int, 1, 77int, 67int, 977nat);
    lemma_next(77int, 2, 67int, 274int, 977nat);
    lemma_next(77int, 3, 274int, 581int, 977nat);
    lemma_next(77int, 4, 581int, 772int, 977nat);
    lemma_next(77int, 5, 772int, 824int, 977nat);
    lemma_next(77int, 6, 824int, 920int, 977nat);
    lemma_next(77int, 7, 920int, 496int, 977nat);
    lemma_next(77int, 8, 496int, 89int, 977nat);
    lemma_next(77int, 9, 89int, 14int, 977nat);
    lemma_next(77int, 10, 14int, 101int, 977nat);
    lemma_next(77int, 11, 101int, 938int, 977nat);
    lemma_next(77int, 12, 938int, 905int, 977nat);
    lemma_digit(77int, 3nat, 274int, 13, 905int, 1int, 977nat);
}

proof fn prime_977()
    ensures
        is_prime(977nat),
{
    prime_61();
    prime_977_power();
    lemma_certified_by_one(977nat, 61nat, 62nat, 77int, 90int);
}

proof fn prime_of_23_bits_first()
    ensures
        pow(0x170a72int, 11nat) % (0x69ef63nat as int) == 0x4d3cbeint,
{
    vstd::arithmetic::power::lemma_pow1(0x170a72int);
    lemma_next(0x170a72int, 1, 0x170a72int, 0x1a630cint, 0x69ef63nat);
    lemma_next(0x170a72int, 2, 0x1a630cint, 0x450e13int, 0x69ef63nat);
    lemma_next(0x170a72int, 3, 0x450e13int, 0x417df1int, 0x69ef63nat);
    lemma_next(0x170a72int, 4, 0x417df1int, 0x1a2016int, 0x69ef63nat);
    lemma_next(0x170a72int, 5, 0x1a2016int, 0x1db237int, 0x69ef63nat);
    lemma_next(0x170a72int, 6, 0x1db237int, 0x541db3int, 0x69ef63nat);
    lemma_next(0x170a72int, 7, 0x541db3int, 298758int, 0x69ef63nat);
    lemma_next(0x170a72int, 8, 298758int, 0x42c713int, 0x69ef63nat);
    lemma_next(0x170a72int, 9, 0x42c713int, 0x1f4c38int, 0x69ef63nat);
    lemma_next(0x170a72int, 10, 0x1f4c38int, 0x4d3cbeint, 0x69ef63nat);
}

proof fn prime_of_23_bits_second()
    ensures
        pow(0x170a72int, 977nat) % (0x69ef63nat as int) == 0x116fafint,
{
    vstd::arithmetic::power::lemma_pow1(0x170a72int);
    lemma_next(0x170a72int, 1, 0x170a72int, 0x1a630cint, 0x69ef63nat);
    lemma_next(0x170a72int, 2, 0x1a630cint, 0x450e13int, 0x69ef63nat);
    lemma_next(0x170a72int, 3, 0x450e13int, 0x417df1int, 0x69ef63nat);
    lemma_next(0x170a72int, 4, 0x417df1int, 0x1a2016int, 0x69ef63nat);
    lemma_next(0x170a72int, 5, 0x1a2016int, 0x1db237int, 0x69ef63nat);
    lemma_next(0x170a72int, 6, 0x1db237int, 0x541db3int, 0x69ef63nat);
    lemma_next(0x170a72int, 7, 0x541db3int, 298758int, 0x69ef63nat);
    lemma_next(0x170a72int, 8, 298758int, 0x42c713int, 0x69ef63nat);
    lemma_next(0x170a72int, 9, 0x42c713int, 0x1f4c38int, 0x69ef63nat);
    lemma_next(0x170a72int, 10, 0x1f4c38int, 0x4d3cbeint, 0x69ef63nat);
    lemma_next(0x170a72int, 11, 0x4d3cbeint, 0x20cbb2int, 0x69ef63nat);
    lemma_next(0x170a72int, 12, 0x20cbb2int, 0x426bdaint, 0x69ef63nat);
    lemma_digit(0x170a72int, 3nat, 0x450e13int, 13, 0x426bdaint, 0x5d95f5int, 0x69ef63nat);
    lemma_digit(0x170a72int, 61nat, 0x5d95f5int, 1, 0x170a72int, 0x116fafint, 0x69ef63nat);
}

proof fn prime_of_23_bits_both()
    ensures
        pow(0x4d3cbeint, 977nat) % (0x69ef63nat as int) == 1int,
{
    vstd::arithmetic::power::lemma_pow1(0x4d3cbeint);
    lemma_next(0x4d3cbeint, 1, 0x4d3cbeint, 0x61ac3dint, 0x69ef63nat);
    lemma_next(0x4d3cbeint, 2, 0x61ac3dint, 0x2efb44int, 0x69ef63nat);
    lemma_next(0x4d3cbeint, 3, 0x2efb44int, 103868int, 0x69ef63nat);
    lemma_next(0x4d3cbeint, 4, 103868int, 0xfbd52int, 0x69ef63nat);
    lemma_next(0x4d3cbeint, 5, 0xfbd52int, 0x61c94aint, 0x69ef63nat);
    lemma_next(0x4d3cbeint, 6, 0x61c94aint, 0x507420int, 0x69ef63nat);
    lemma_next(0x4d3cbeint, 7, 0x507420int, 0x672a7dint, 0x69ef63nat);
    lemma_next(0x4d3cbeint, 8, 0x672a7dint, 0x2b3a60int, 0x69ef63nat);
    lemma_next(0x4d3cbeint, 9, 0x2b3a60int, 0x13f486int, 0x69ef63nat);
    lemma_next(0x4d3cbeint, 10, 0x13f486int, 0x4d10f7int, 0x69ef63nat);
    lemma_next(0x4d3cbeint, 11, 0x4d10f7int, 0x5f476cint, 0x69ef63nat);
    lemma_next(0x4d3cbeint, 12, 0x5f476cint, 0x3747d0int, 0x69ef63nat);
    lemma_digit(0x4d3cbeint, 3nat, 0x2efb44int, 13, 0x3747d0int, 0x1159cbint, 0x69ef63nat);
    lemma_digit(0x4d3cbeint, 61nat, 0x1159cbint, 1, 0x4d3cbeint, 1int, 0x69ef63nat);
}

proof fn prime_of_23_bits()
    ensures
        is_prime(0x69ef63nat),
{
    prime_11();
    prime_977();
    prime_of_23_bits_first();
    prime_of_23_bits_second();
    prime_of_23_bits_both();
    lemma_power_of_power(0x170a72int, 11nat, 0x4d3cbeint, 977nat, 0x69ef63nat);
    lemma_certified_by_two(
        0x69ef63nat,
        11nat,
        977nat,
        10747nat,
        10748nat,
        0x170a72int,
        0x4d3cbeint,
        0x1b249bint,
        0x116fafint,
        0x11591fint,
    );
}

proof fn prime_of_26_bits_power()
    ensures
        pow(64int, 0x69ef63nat) % (0x27b9c53nat as int) == 1int,
{
    vstd::arithmetic::power::lemma_pow1(64int);
    lemma_next(64int, 1, 64int, 4096int, 0x27b9c53nat);
    lemma_next(64int, 2, 4096int, 262144int, 0x27b9c53nat);
    lemma_next(64int, 3, 262144int, 0x1000000int, 0x27b9c53nat);
    lemma_next(64int, 4, 0x1000000int, 0x1edbbe5int, 0x27b9c53nat);
    lemma_next(64int, 5, 0x1edbbe5int, 0x1c60d5dint, 0x27b9c53nat);
    lemma_next(64int, 6, 0x1c60d5dint, 0x1c8dca9int, 0x27b9c53nat);
    lemma_next(64int, 7, 0x1c8dca9int, 70486int, 0x27b9c53nat);
    lemma_next(64int, 8, 70486int, 0x44d580int, 0x27b9c53nat);
    lemma_next(64int, 9, 0x44d580int, 0x24fb60eint, 0x27b9c53nat);
    lemma_next(64int, 10, 0x24fb60eint, 0x1707c5fint, 0x27b9c53nat);
    lemma_next(64int, 11, 0x1707c5fint, 0x417fc1int, 0x27b9c53nat);
    lemma_next(64int, 12, 0x417fc1int, 0x17a464eint, 0x27b9c53nat);
    lemma_next(64int, 13, 0x17a464eint, 0x385f2eint, 0x27b9c53nat);
    lemma_next(64int, 14, 0x385f2eint, 0x1adbde1int, 0x27b9c53nat);
    lemma_digit(64int, 6nat, 0x1c60d5dint, 9, 0x44d580int, 0x1b1549dint, 0x27b9c53nat);
    lemma_digit(64int, 105nat, 0x1b1549dint, 14, 0x385f2eint, 0x106cf1fint, 0x27b9c53nat);
    lemma_digit(64int, 1694nat, 0x106cf1fint, 15, 0x1adbde1int, 0x1e9521int, 0x27b9c53nat);
    lemma_digit(64int, 27119nat, 0x1e9521int, 6, 0x1c60d5dint, 0x247eb4dint, 0x27b9c53nat);
    lemma_digit(64int, 433910nat, 0x247eb4dint, 3, 262144int, 1int, 0x27b9c53nat);
}

proof fn prime_of_26_bits()
    ensures
        is_prime(0x27b9c53nat),
{
    prime_of_23_bits();
    prime_of_26_bits_power();
    lemma_certified_by_one(0x27b9c53nat, 0x69ef63nat, 0x69ef64nat, 64int, 0x142d99int);
}

proof fn prime_of_35_bits_power()
    ensures
        pow(0x402309d30int, 0x27b9c53nat) % (0x528e0dc7dnat as int) == 1int,
{
    vstd::arithmetic::power::lemma_pow1(0x402309d30int);
    lemma_next(0x402309d30int, 1, 0x402309d30int, 0x1207af508int, 0x528e0dc7dnat);
    lemma_next(0x402309d30int, 2, 0x1207af508int, 0x499d741eaint, 0x528e0dc7dnat);
    lemma_next(0x402309d30int, 3, 0x499d741eaint, 0x3ba7b3871int, 0x528e0dc7dnat);
    lemma_next(0x402309d30int, 4, 0x3ba7b3871int, 0x651defd8int, 0x528e0dc7dnat);
    lemma_next(0x402309d30int, 5, 0x651defd8int, 0x37ed97852int, 0x528e0dc7dnat);
    lemma_next(0x402309d30int, 6, 0x37ed97852int, 0x153085287int, 0x528e0dc7dnat);
    lemma_next(0x402309d30int, 7, 0x153085287int, 0xd9121592int, 0x528e0dc7dnat);
    lemma_next(0x402309d30int, 8, 0xd9121592int, 0x14299a7a5int, 0x528e0dc7dnat);
    lemma_next(0x402309d30int, 9, 0x14299a7a5int, 0x40458d8eint, 0x528e0dc7dnat);
    lemma_next(0x402309d30int, 10, 0x40458d8eint, 0x16dc9dc0dint, 0x528e0dc7dnat);
    lemma_next(0x402309d30int, 11, 0x16dc9dc0dint, 0x4ecdc3212int, 0x528e0dc7dnat);
    lemma_digit(0x402309d30int, 2nat, 0x1207af508int, 7, 0x153085287int, 0xd50dd446int, 0x528e0dc7dnat);
    lemma_digit(0x402309d30int, 39nat, 0xd50dd446int, 11, 0x16dc9dc0dint, 0x1e4d0fde9int, 0x528e0dc7dnat);
    lemma_digit(0x402309d30int, 635nat, 0x1e4d0fde9int, 9, 0x14299a7a5int, 0x3913278f4int, 0x528e0dc7dnat);
    lemma_digit(0x402309d30int, 10169nat, 0x3913278f4int, 12, 0x4ecdc3212int, 0x4de34a0b3int, 0x528e0dc7dnat);
    lemma_digit(0x402309d30int, 162716nat, 0x4de34a0b3int, 5, 0x651defd8int, 0x4d547e338int, 0x528e0dc7dnat);
    lemma_digit(0x402309d30int, 0x27b9c5nat, 0x4d547e338int, 3, 0x499d741eaint, 1int, 0x528e0dc7dnat);
}

proof fn prime_of_35_bits()
    ensures
        is_prime(0x528e0dc7dnat),
{
    prime_of_26_bits();
    prime_of_35_bits_power();
    lemma_certified_by_one(0x528e0dc7dnat, 0x27b9c53nat, 0x27b9c54nat, 0x402309d30int, 0x3e52cd804int);
}

proof fn prime_7()
    ensures
        is_prime(7),
{
    assert forall|d: nat| 1 < d < 7 implies !#[trigger] divides(d, 7) by {
        assert(d == 2 || d == 3 || d == 4 || d == 5 || d == 6);
    }
}

proof fn prime_127_first()
    ensures
        pow(125int, 2nat) % (127nat as int) == 4int,
{
    vstd::arithmetic::power::lemma_pow1(125int);
    lemma_next(125int, 1, 125int, 4int, 127nat);
}

proof fn prime_127_second()
    ensures
        pow(125int, 7nat) % (127nat as int) == 126int,
{
    vstd::arithmetic::power::lemma_pow1(125int);
    lemma_next(125int, 1, 125int, 4int, 127nat);
    lemma_next(125int, 2, 4int, 119int, 127nat);
    lemma_next(125int, 3, 119int, 16int, 127nat);
    lemma_next(125int, 4, 16int, 95int, 127nat);
    lemma_next(125int, 5, 95int, 64int, 127nat);
    lemma_next(125int, 6, 64int, 126int, 127nat);
}

proof fn prime_127_both()
    ensures
        pow(4int, 7nat) % (127nat as int) == 1int,
{
    vstd::arithmetic::power::lemma_pow1(4int);
    lemma_next(4int, 1, 4int, 16int, 127nat);
    lemma_next(4int, 2, 16int, 64int, 127nat);
    lemma_next(4int, 3, 64int, 2int, 127nat);
    lemma_next(4int, 4, 2int, 8int, 127nat);
    lemma_next(4int, 5, 8int, 32int, 127nat);
    lemma_next(4int, 6, 32int, 1int, 127nat);
}

proof fn prime_127()
    ensures
        is_prime(127nat),
{
    prime_2();
    prime_7();
    prime_127_first();
    prime_127_second();
    prime_127_both();
    lemma_power_of_power(125int, 2nat, 4int, 7nat, 127nat);
    lemma_certified_by_two(
        127nat,
        2nat,
        7nat,
        14nat,
        15nat,
        125int,
        4int,
        85int,
        126int,
        63int,
    );
}

proof fn prime_509_power()
    ensures
        pow(16int, 127nat) % (509nat as int) == 1int,
{
    vstd::arithmetic::power::lemma_pow1(16int);
    lemma_next(16int, 1, 16int, 256int, 509nat);
    lemma_next(16int, 2, 256int, 24int, 509nat);
    lemma_next(16int, 3, 24int, 384int, 509nat);
    lemma_next(16int, 4, 384int, 36int, 509nat);
    lemma_next(16int, 5, 36int, 67int, 509nat);
    lemma_next(16int, 6, 67int, 54int, 509nat);
    lemma_next(16int, 7, 54int, 355int, 509nat);
    lemma_next(16int, 8, 355int, 81int, 509nat);
    lemma_next(16int, 9, 81int, 278int, 509nat);
    lemma_next(16int, 10, 278int, 376int, 509nat);
    lemma_next(16int, 11, 376int, 417int, 509nat);
    lemma_next(16int, 12, 417int, 55int, 509nat);
    lemma_next(16int, 13, 55int, 371int, 509nat);
    lemma_next(16int, 14, 371int, 337int, 509nat);
    lemma_digit(16int, 7nat, 54int, 15, 337int, 1int, 509nat);
}

proof fn prime_509()
    ensures
        is_prime(509nat),
{
    prime_127();
    prime_509_power();
    lemma_certified_by_one(509nat, 127nat, 128nat, 16int, 34int);
}

proof fn prime_41_first()
    ensures
        pow(25int, 2nat) % (41nat as int) == 10int,
{
    vstd::arithmetic::power::lemma_pow1(25int);
    lemma_next(25int, 1, 25int, 10int, 41nat);
}

proof fn prime_41_second()
    ensures
        pow(25int, 5nat) % (41nat as int) == 40int,
{
    vstd::arithmetic::power::lemma_pow1(25int);
    lemma_next(25int, 1, 25int, 10int, 41nat);
    lemma_next(25int, 2, 10int, 4int, 41nat);
    lemma_next(25int, 3, 4int, 18int, 41nat);
    lemma_next(25int, 4, 18int, 40int, 41nat);
}

proof fn prime_41_both()
    ensures
        pow(10int, 5nat) % (41nat as int) == 1int,
{
    vstd::arithmetic::power::lemma_pow1(10int);
    lemma_next(10int, 1, 10int, 18int, 41nat);
    lemma_next(10int, 2, 18int, 16int, 41nat);
    lemma_next(10int, 3, 16int, 37int, 41nat);
    lemma_next(10int, 4, 37int, 1int, 41nat);
}

proof fn prime_41()
    ensures
        is_prime(41nat),
{
    prime_2();
    prime_5();
    prime_41_first();
    prime_41_second();
    prime_41_both();
    lemma_power_of_power(25int, 2nat, 10int, 5nat, 41nat);
    lemma_certified_by_two(
        41nat,
        2nat,
        5nat,
        10nat,
        11nat,
        25int,
        10int,
        32int,
        40int,
        20int,
    );
}

proof fn prime_413527_first()
    ensures
        pow(317538int, 41nat) % (413527nat as int) == 295368int,
{
    vstd::arithmetic::power::lemma_pow1(317538int);
    lemma_next(317538int, 1, 317538int, 93034int, 413527nat);
    lemma_next(317538int, 2, 93034int, 288466int, 413527nat);
    lemma_next(317538int, 3, 288466int, 205046int, 413527nat);
    lemma_next(317538int, 4, 205046int, 70598int, 413527nat);
    lemma_next(317538int, 5, 70598int, 249054int, 413527nat);
    lemma_next(317538int, 6, 249054int, 378518int, 413527nat);
    lemma_next(317538int, 7, 378518int, 158499int, 413527nat);
    lemma_next(317538int, 8, 158499int, 324873int, 413527nat);
    lemma_digit(317538int, 2nat, 93034int, 9, 324873int, 295368int, 413527nat);
}

proof fn prime_413527_second()
    ensures
        pow(317538int, 41nat) % (413527nat as int) == 295368int,
{
    vstd::arithmetic::power::lemma_pow1(317538int);
    lemma_next(317538int, 1, 317538int, 93034int, 413527nat);
    lemma_next(317538int, 2, 93034int, 288466int, 413527nat);
    lemma_next(317538int, 3, 288466int, 205046int, 413527nat);
    lemma_next(317538int, 4, 205046int, 70598int, 413527nat);
    lemma_next(317538int, 5, 70598int, 249054int, 413527nat);
    lemma_next(317538int, 6, 249054int, 378518int, 413527nat);
    lemma_next(317538int, 7, 378518int, 158499int, 413527nat);
    lemma_next(317538int, 8, 158499int, 324873int, 413527nat);
    lemma_digit(317538int, 2nat, 93034int, 9, 324873int, 295368int, 413527nat);
}

proof fn prime_413527_both()
    ensures
        pow(295368int, 41nat) % (413527nat as int) == 1int,
{
    vstd::arithmetic::power::lemma_pow1(295368int);
    lemma_next(295368int, 1, 295368int, 50707int, 413527nat);
    lemma_next(295368int, 2, 50707int, 104290int, 413527nat);
    lemma_next(295368int, 3, 104290int, 302490int, 413527nat);
    lemma_next(295368int, 4, 302490int, 49754int, 413527nat);
    lemma_next(295368int, 5, 49754int, 230473int, 413527nat);
    lemma_next(295368int, 6, 230473int, 361378int, 413527nat);
    lemma_next(295368int, 7, 361378int, 321391int, 413527nat);
    lemma_next(295368int, 8, 321391int, 185822int, 413527nat);
    lemma_digit(295368int, 2nat, 50707int, 9, 185822int, 1int, 413527nat);
}

proof fn prime_413527()
    ensures
        is_prime(413527nat),
{
    prime_41();
    prime_41();
    prime_413527_first();
    prime_413527_second();
    prime_413527_both();
    lemma_power_of_power(317538int, 41nat, 295368int, 41nat, 413527nat);
    lemma_certified_by_two(
        413527nat,
        41nat,
        41nat,
        1681nat,
        1682nat,
        317538int,
        295368int,
        269419int,
        295368int,
        269419int,
    );
}

proof fn prime_of_49_bits_first()
    ensures
        pow(0xcc1591f398d7int, 509nat) % (0x127aa16eeaabbnat as int) == 0x5cc69cb9deb8int,
{
    vstd::arithmetic::power::lemma_pow1(0xcc1591f398d7int);
    lemma_next(0xcc1591f398d7int, 1, 0xcc1591f398d7int, 0xc6f101432928int, 0x127aa16eeaabbnat);
    lemma_next(0xcc1591f398d7int, 2, 0xc6f101432928int, 0xd4a5aa9e8b2bint, 0x127aa16eeaabbnat);
    lemma_next(0xcc1591f398d7int, 3, 0xd4a5aa9e8b2bint, 0x107de10638593int, 0x127aa16eeaabbnat);
    lemma_next(0xcc1591f398d7int, 4, 0x107de10638593int, 0xb37dc98bbbedint, 0x127aa16eeaabbnat);
    lemma_next(0xcc1591f398d7int, 5, 0xb37dc98bbbedint, 0x118971e63e866int, 0x127aa16eeaabbnat);
    lemma_next(0xcc1591f398d7int, 6, 0x118971e63e866int, 0x7c8725557f91int, 0x127aa16eeaabbnat);
    lemma_next(0xcc1591f398d7int, 7, 0x7c8725557f91int, 0x73b4d7767df6int, 0x127aa16eeaabbnat);
    lemma_next(0xcc1591f398d7int, 8, 0x73b4d7767df6int, 0x8b670a7ad3d8int, 0x127aa16eeaabbnat);
    lemma_next(0xcc1591f398d7int, 9, 0x8b670a7ad3d8int, 0xac182c2569a0int, 0x127aa16eeaabbnat);
    lemma_next(0xcc1591f398d7int, 10, 0xac182c2569a0int, 0xc12d525b8598int, 0x127aa16eeaabbnat);
    lemma_next(0xcc1591f398d7int, 11, 0xc12d525b8598int, 0x98e118284e3fint, 0x127aa16eeaabbnat);
    lemma_next(0xcc1591f398d7int, 12, 0x98e118284e3fint, 0x89cddf520214int, 0x127aa16eeaabbnat);
    lemma_next(0xcc1591f398d7int, 13, 0x89cddf520214int, 0xcbc615e59dd1int, 0x127aa16eeaabbnat);
    lemma_next(0xcc1591f398d7int, 14, 0xcbc615e59dd1int, 0xd4d939650073int, 0x127aa16eeaabbnat);
    lemma_digit(0xcc1591f398d7int, 1nat, 0xcc1591f398d7int, 15, 0xd4d939650073int, 0x994c880e6237int, 0x127aa16eeaabbnat);
    lemma_digit(0xcc1591f398d7int, 31nat, 0x994c880e6237int, 13, 0x89cddf520214int, 0x5cc69cb9deb8int, 0x127aa16eeaabbnat);
}

proof fn prime_of_49_bits_second()
    ensures
        pow(0xcc1591f398d7int, 413527nat) % (0x127aa16eeaabbnat as int) == 0x75c1192b07c9int,
{
    vstd::arithmetic::power::lemma_pow1(0xcc1591f398d7int);
    lemma_next(0xcc1591f398d7int, 1, 0xcc1591f398d7int, 0xc6f101432928int, 0x127aa16eeaabbnat);
    lemma_next(0xcc1591f398d7int, 2, 0xc6f101432928int, 0xd4a5aa9e8b2bint, 0x127aa16eeaabbnat);
    lemma_next(0xcc1591f398d7int, 3, 0xd4a5aa9e8b2bint, 0x107de10638593int, 0x127aa16eeaabbnat);
    lemma_next(0xcc1591f398d7int, 4, 0x107de10638593int, 0xb37dc98bbbedint, 0x127aa16eeaabbnat);
    lemma_next(0xcc1591f398d7int, 5, 0xb37dc98bbbedint, 0x118971e63e866int, 0x127aa16eeaabbnat);
    lemma_next(0xcc1591f398d7int, 6, 0x118971e63e866int, 0x7c8725557f91int, 0x127aa16eeaabbnat);
    lemma_next(0xcc1591f398d7int, 7, 0x7c8725557f91int, 0x73b4d7767df6int, 0x127aa16eeaabbnat);
    lemma_next(0xcc1591f398d7int, 8, 0x73b4d7767df6int, 0x8b670a7ad3d8int, 0x127aa16eeaabbnat);
    lemma_next(0xcc1591f398d7int, 9, 0x8b670a7ad3d8int, 0xac182c2569a0int, 0x127aa16eeaabbnat);
    lemma_next(0xcc1591f398d7int, 10, 0xac182c2569a0int, 0xc12d525b8598int, 0x127aa16eeaabbnat);
    lemma_next(0xcc1591f398d7int, 11, 0xc12d525b8598int, 0x98e118284e3fint, 0x127aa16eeaabbnat);
    lemma_next(0xcc1591f398d7int, 12, 0x98e118284e3fint, 0x89cddf520214int, 0x127aa16eeaabbnat);
    lemma_next(0xcc1591f398d7int, 13, 0x89cddf520214int, 0xcbc615e59dd1int, 0x127aa16eeaabbnat);
    lemma_next(0xcc1591f398d7int, 14, 0xcbc615e59dd1int, 0xd4d939650073int, 0x127aa16eeaabbnat);
    lemma_digit(0xcc1591f398d7int, 6nat, 0x118971e63e866int, 4, 0x107de10638593int, 0xc4e52e692dadint, 0x127aa16eeaabbnat);
    lemma_digit(0xcc1591f398d7int, 100nat, 0xc4e52e692dadint, 15, 0xd4d939650073int, 0x2960351961f0int, 0x127aa16eeaabbnat);
    lemma_digit(0xcc1591f398d7int, 1615nat, 0x2960351961f0int, 5, 0xb37dc98bbbedint, 0x421624254715int, 0x127aa16eeaabbnat);
    lemma_digit(0xcc1591f398d7int, 25845nat, 0x421624254715int, 7, 0x7c8725557f91int, 0x75c1192b07c9int, 0x127aa16eeaabbnat);
}

proof fn prime_of_49_bits_both()
    ensures
        pow(0x5cc69cb9deb8int, 413527nat) % (0x127aa16eeaabbnat as int) == 1int,
{
    vstd::arithmetic::power::lemma_pow1(0x5cc69cb9deb8int);
    lemma_next(0x5cc69cb9deb8int, 1, 0x5cc69cb9deb8int, 0x101d1aa83c69dint, 0x127aa16eeaabbnat);
    lemma_next(0x5cc69cb9deb8int, 2, 0x101d1aa83c69dint, 0x5a1672d1a043int, 0x127aa16eeaabbnat);
    lemma_next(0x5cc69cb9deb8int, 3, 0x5a1672d1a043int, 0x66f15e36ba55int, 0x127aa16eeaabbnat);
    lemma_next(0x5cc69cb9deb8int, 4, 0x66f15e36ba55int, 0xe9ab9bdec9dint, 0x127aa16eeaabbnat);
    lemma_next(0x5cc69cb9deb8int, 5, 0xe9ab9bdec9dint, 0x6c9d736b8affint, 0x127aa16eeaabbnat);
    lemma_next(0x5cc69cb9deb8int, 6, 0x6c9d736b8affint, 0x10f97791d781dint, 0x127aa16eeaabbnat);
    lemma_next(0x5cc69cb9deb8int, 7, 0x10f97791d781dint, 0x992f587047f3int, 0x127aa16eeaabbnat);
    lemma_next(0x5cc69cb9deb8int, 8, 0x992f587047f3int, 0x1122e880640fbint, 0x127aa16eeaabbnat);
    lemma_next(0x5cc69cb9deb8int, 9, 0x1122e880640fbint, 0x2fede7273908int, 0x127aa16eeaabbnat);
    lemma_next(0x5cc69cb9deb8int, 10, 0x2fede7273908int, 0x562d3c466241int, 0x127aa16eeaabbnat);
    lemma_next(0x5cc69cb9deb8int, 11, 0x562d3c466241int, 0x101d044a0e742int, 0x127aa16eeaabbnat);
    lemma_next(0x5cc69cb9deb8int, 12, 0x101d044a0e742int, 0xbcc3781755b5int, 0x127aa16eeaabbnat);
    lemma_next(0x5cc69cb9deb8int, 13, 0xbcc3781755b5int, 0x62751892f0abint, 0x127aa16eeaabbnat);
    lemma_next(0x5cc69cb9deb8int, 14, 0x62751892f0abint, 0xa5311e7e50aeint, 0x127aa16eeaabbnat);
    lemma_digit(0x5cc69cb9deb8int, 6nat, 0x6c9d736b8affint, 4, 0x66f15e36ba55int, 0xfbef5d6b4ebeint, 0x127aa16eeaabbnat);
    lemma_digit(0x5cc69cb9deb8int, 100nat, 0xfbef5d6b4ebeint, 15, 0xa5311e7e50aeint, 0x618cdaa47e9bint, 0x127aa16eeaabbnat);
    lemma_digit(0x5cc69cb9deb8int, 1615nat, 0x618cdaa47e9bint, 5, 0xe9ab9bdec9dint, 0x32f1c4392b53int, 0x127aa16eeaabbnat);
    lemma_digit(0x5cc69cb9deb8int, 25845nat, 0x32f1c4392b53int, 7, 0x10f97791d781dint, 1int, 0x127aa16eeaabbnat);
}

proof fn prime_of_49_bits()
    ensures
        is_prime(0x127aa16eeaabbnat),
{
    prime_509();
    prime_413527();
    prime_of_49_bits_first();
    prime_of_49_bits_second();
    prime_of_49_bits_both();
    lemma_power_of_power(0xcc1591f398d7int, 509nat, 0x5cc69cb9deb8int, 413527nat, 0x127aa16eeaabbnat);
    lemma_certified_by_two(
        0x127aa16eeaabbnat,
        509nat,
        413527nat,
        0xc8bbffbnat,
        0xc8bbffcnat,
        0xcc1591f398d7int,
        0x5cc69cb9deb8int,
        0x11ff0daf0dceeint,
        0x75c1192b07c9int,
        0x690cc1734b03int,
    );
}

#[verifier::inline]
spec fn modulus_143() -> nat {
    0x674e41aa25559f3f6806ca7324f298d5465dnat
}

#[verifier::inline]
spec fn base_143_first() -> int {
    0x3306493093511ba521b11cb7c5bbbc000e7bint
}

#[verifier::inline]
spec fn base_143_first_2() -> int {
    0x370a41f357e9ee677ebf0572519314858c62int
}

#[verifier::inline]
spec fn base_143_first_3() -> int {
    0x36b0c1aace87522e6fe6d222db9b5eeaecb9int
}

#[verifier::inline]
spec fn base_143_first_4() -> int {
    0x37ffee3605a62221b5569f472a45a2e8012fint
}

#[verifier::inline]
spec fn base_143_first_5() -> int {
    0x5648e486e671647f90245932df0bfa07c002int
}

#[verifier::inline]
spec fn base_143_first_6() -> int {
    0xaa20f6dc6f1afd6313ab1d01243ec2381cdint
}

#[verifier::inline]
spec fn base_143_first_7() -> int {
    0x510d295d1e590fd641261966dd8a9dc0f12cint
}

#[verifier::inline]
spec fn base_143_first_8() -> int {
    0x5541bf3be94c34185ccdb5c2159e3eb875e6int
}

#[verifier::inline]
spec fn base_143_first_9() -> int {
    0x5eb84ae60acb1a1f1c6dca735b75b60ae8fbint
}

#[verifier::inline]
spec fn base_143_first_10() -> int {
    0x1f5534d8e33fbf4ce410d48c8c454e0d68deint
}

#[verifier::inline]
spec fn base_143_first_11() -> int {
    0x38236d7f500d7d788372d0ecfb3a6e2d69adint
}

#[verifier::inline]
spec fn base_143_first_12() -> int {
    0x254e628884edd5d13a556902b94f3791a3a9int
}

#[verifier::inline]
spec fn base_143_first_13() -> int {
    0x3615e767a0917c7f10bc21c76e3ed2d28645int
}

#[verifier::inline]
spec fn base_143_first_14() -> int {
    0x3b709d929baa148147afa1037261415d3a09int
}

proof fn prime_of_143_bits_first()
    ensures
        pow(base_143_first(), 0x528e0dc7dnat) % (modulus_143() as int) == 0x1615a4fc9dd1d5260b3068d98852c86a2c65int,
{
    vstd::arithmetic::power::lemma_pow0(base_143_first());
    vstd::arithmetic::power::lemma_pow1(base_143_first());
    lemma_next(base_143_first(), 1, base_143_first(), base_143_first_2(), modulus_143());
    lemma_next(base_143_first(), 2, base_143_first_2(), base_143_first_3(), modulus_143());
    lemma_next(base_143_first(), 3, base_143_first_3(), base_143_first_4(), modulus_143());
    lemma_next(base_143_first(), 4, base_143_first_4(), base_143_first_5(), modulus_143());
    lemma_next(base_143_first(), 5, base_143_first_5(), base_143_first_6(), modulus_143());
    lemma_next(base_143_first(), 6, base_143_first_6(), base_143_first_7(), modulus_143());
    lemma_next(base_143_first(), 7, base_143_first_7(), base_143_first_8(), modulus_143());
    lemma_next(base_143_first(), 8, base_143_first_8(), base_143_first_9(), modulus_143());
    lemma_next(base_143_first(), 9, base_143_first_9(), base_143_first_10(), modulus_143());
    lemma_next(base_143_first(), 10, base_143_first_10(), base_143_first_11(), modulus_143());
    lemma_next(base_143_first(), 11, base_143_first_11(), base_143_first_12(), modulus_143());
    lemma_next(base_143_first(), 12, base_143_first_12(), base_143_first_13(), modulus_143());
    lemma_next(base_143_first(), 13, base_143_first_13(), base_143_first_14(), modulus_143());
    lemma_digit(base_143_first(), 5nat, base_143_first_5(), 2, base_143_first_2(), 0x54cb309f8770151a429be245710dfbc69b04int, modulus_143());
    lemma_digit(base_143_first(), 82nat, 0x54cb309f8770151a429be245710dfbc69b04int, 8, base_143_first_8(), 0xb030cd2766dd89bc6d5bbbcdb28713e507dint, modulus_143());
    lemma_digit(base_143_first(), 1320nat, 0xb030cd2766dd89bc6d5bbbcdb28713e507dint, 14, base_143_first_14(), 0xc3096f43de0a4d5095ec5fd3e864f4fe789int, modulus_143());
    lemma_digit(base_143_first(), 21134nat, 0xc3096f43de0a4d5095ec5fd3e864f4fe789int, 0, 1int, 0x3c191d6de2fe2b3114ecdc8855fb9f67704dint, modulus_143());
    lemma_digit(base_143_first(), 338144nat, 0x3c191d6de2fe2b3114ecdc8855fb9f67704dint, 13, base_143_first_13(), 0x2c162e0351630d05ac95c250d781a831a862int, modulus_143());
    lemma_digit(base_143_first(), 0x528e0dnat, 0x2c162e0351630d05ac95c250d781a831a862int, 12, base_143_first_12(), 0x8776d6739f00365a95f8f04afac73c62c63int, modulus_143());
    lemma_digit(base_143_first(), 0x528e0dcnat, 0x8776d6739f00365a95f8f04afac73c62c63int, 7, base_143_first_7(), 0x4322f0492e96ddfce65ff603ccb0a663c89dint, modulus_143());
    lemma_digit(base_143_first(), 0x528e0dc7nat, 0x4322f0492e96ddfce65ff603ccb0a663c89dint, 13, base_143_first_13(), 0x1615a4fc9dd1d5260b3068d98852c86a2c65int, modulus_143());
}

proof fn prime_of_143_bits_second()
    ensures
        pow(base_143_first(), 0x127aa16eeaabbnat) % (modulus_143() as int) == 0x55bb924d6d8f9f031b347bf64472e58fbe3eint,
{
    vstd::arithmetic::power::lemma_pow1(base_143_first());
    lemma_next(base_143_first(), 1, base_143_first(), base_143_first_2(), modulus_143());
    lemma_next(base_143_first(), 2, base_143_first_2(), base_143_first_3(), modulus_143());
    lemma_next(base_143_first(), 3, base_143_first_3(), base_143_first_4(), modulus_143());
    lemma_next(base_143_first(), 4, base_143_first_4(), base_143_first_5(), modulus_143());
    lemma_next(base_143_first(), 5, base_143_first_5(), base_143_first_6(), modulus_143());
    lemma_next(base_143_first(), 6, base_143_first_6(), base_143_first_7(), modulus_143());
    lemma_next(base_143_first(), 7, base_143_first_7(), base_143_first_8(), modulus_143());
    lemma_next(base_143_first(), 8, base_143_first_8(), base_143_first_9(), modulus_143());
    lemma_next(base_143_first(), 9, base_143_first_9(), base_143_first_10(), modulus_143());
    lemma_next(base_143_first(), 10, base_143_first_10(), base_143_first_11(), modulus_143());
    lemma_next(base_143_first(), 11, base_143_first_11(), base_143_first_12(), modulus_143());
    lemma_next(base_143_first(), 12, base_143_first_12(), base_143_first_13(), modulus_143());
    lemma_next(base_143_first(), 13, base_143_first_13(), base_143_first_14(), modulus_143());
    lemma_digit(base_143_first(), 1nat, base_143_first(), 2, base_143_first_2(), 0xc1ae6532396c61a0b05a8f911dd0ba80f3int, modulus_143());
    lemma_digit(base_143_first(), 18nat, 0xc1ae6532396c61a0b05a8f911dd0ba80f3int, 7, base_143_first_7(), 0x19304cedd09838906baadb6dfae39db756b0int, modulus_143());
    lemma_digit(base_143_first(), 295nat, 0x19304cedd09838906baadb6dfae39db756b0int, 10, base_143_first_10(), 0xaef88f686bb283ef06542c3fda10bd2a36aint, modulus_143());
    lemma_digit(base_143_first(), 4730nat, 0xaef88f686bb283ef06542c3fda10bd2a36aint, 10, base_143_first_10(), 0x2621e52b84f7d3d473ba9897213f8682eb90int, modulus_143());
    lemma_digit(base_143_first(), 75690nat, 0x2621e52b84f7d3d473ba9897213f8682eb90int, 1, base_143_first(), 0x23991f50f8734a4656f0165f8570bc674d86int, modulus_143());
    lemma_digit(base_143_first(), 0x127aa1nat, 0x23991f50f8734a4656f0165f8570bc674d86int, 6, base_143_first_6(), 0x5fce372e77272288bddabf37745491ec9392int, modulus_143());
    lemma_digit(base_143_first(), 0x127aa16nat, 0x5fce372e77272288bddabf37745491ec9392int, 14, base_143_first_14(), 0x62bd39f369d9a9a3cab45f3ff9a4fc78407int, modulus_143());
    lemma_digit(base_143_first(), 0x127aa16enat, 0x62bd39f369d9a9a3cab45f3ff9a4fc78407int, 14, base_143_first_14(), 0x5adcdc7f9c68358bf8290a2e3f63d2773f18int, modulus_143());
    lemma_digit(base_143_first(), 0x127aa16eenat, 0x5adcdc7f9c68358bf8290a2e3f63d2773f18int, 10, base_143_first_10(), 0x272495cd77a8398c337777d48fc0b7bbd0d2int, modulus_143());
    lemma_digit(base_143_first(), 0x127aa16eeanat, 0x272495cd77a8398c337777d48fc0b7bbd0d2int, 10, base_143_first_10(), 0x4d97acded4b9ffa18650dfdffea2c0cbcc2cint, modulus_143());
    lemma_digit(base_143_first(), 0x127aa16eeaanat, 0x4d97acded4b9ffa18650dfdffea2c0cbcc2cint, 11, base_143_first_11(), 0x126fce2cf993f7ba9a52f724667288ca0e1dint, modulus_143());
    lemma_digit(base_143_first(), 0x127aa16eeaabnat, 0x126fce2cf993f7ba9a52f724667288ca0e1dint, 11, base_143_first_11(), 0x55bb924d6d8f9f031b347bf64472e58fbe3eint, modulus_143());
}

#[verifier::inline]
spec fn base_143_both() -> int {
    0x1615a4fc9dd1d5260b3068d98852c86a2c65int
}

#[verifier::inline]
spec fn base_143_both_2() -> int {
    0x636cdcfc62b4ebbfd72dc3eb651d0b4624fbint
}

#[verifier::inline]
spec fn base_143_both_3() -> int {
    0x3b6fe58d33853f274a1f50ca1a51758c5a4int
}

#[verifier::inline]
spec fn base_143_both_4() -> int {
    0x374ca435a473dda0b604907445db06151f5dint
}

#[verifier::inline]
spec fn base_143_both_5() -> int {
    0x30c267ba4435a52f63a3ebf862fa36447e5dint
}

#[verifier::inline]
spec fn base_143_both_6() -> int {
    0x4901b62c7762085db77513657a965752dbc7int
}

#[verifier::inline]
spec fn base_143_both_7() -> int {
    0x1980b12f59fce55c21f235e796a4cdc17021int
}

#[verifier::inline]
spec fn base_143_both_8() -> int {
    0x5ee166e2b33e875a64d0623cf3bcf3e09236int
}

#[verifier::inline]
spec fn base_143_both_9() -> int {
    0x64efe8d3989edf3d2ff4bf213dd50f97952bint
}

#[verifier::inline]
spec fn base_143_both_10() -> int {
    0x461bab3c5c119c2bd47fede1671fc05988cint
}

#[verifier::inline]
spec fn base_143_both_11() -> int {
    0x3903d8d7aba02115ff1895c69f94bd67f2cfint
}

#[verifier::inline]
spec fn base_143_both_12() -> int {
    0x56591fe9451aed260fe370ced514764b2133int
}

#[verifier::inline]
spec fn base_143_both_13() -> int {
    0x192552299986fd4f09a9c6eb20f64f4b435eint
}

#[verifier::inline]
spec fn base_143_both_14() -> int {
    0x467f61d09b270c018825848af1825dca6b62int
}

proof fn prime_of_143_bits_both()
    ensures
        pow(base_143_both(), 0x127aa16eeaabbnat) % (modulus_143() as int) == 1int,
{
    vstd::arithmetic::power::lemma_pow1(base_143_both());
    lemma_next(base_143_both(), 1, base_143_both(), base_143_both_2(), modulus_143());
    lemma_next(base_143_both(), 2, base_143_both_2(), base_143_both_3(), modulus_143());
    lemma_next(base_143_both(), 3, base_143_both_3(), base_143_both_4(), modulus_143());
    lemma_next(base_143_both(), 4, base_143_both_4(), base_143_both_5(), modulus_143());
    lemma_next(base_143_both(), 5, base_143_both_5(), base_143_both_6(), modulus_143());
    lemma_next(base_143_both(), 6, base_143_both_6(), base_143_both_7(), modulus_143());
    lemma_next(base_143_both(), 7, base_143_both_7(), base_143_both_8(), modulus_143());
    lemma_next(base_143_both(), 8, base_143_both_8(), base_143_both_9(), modulus_143());
    lemma_next(base_143_both(), 9, base_143_both_9(), base_143_both_10(), modulus_143());
    lemma_next(base_143_both(), 10, base_143_both_10(), base_143_both_11(), modulus_143());
    lemma_next(base_143_both(), 11, base_143_both_11(), base_143_both_12(), modulus_143());
    lemma_next(base_143_both(), 12, base_143_both_12(), base_143_both_13(), modulus_143());
    lemma_next(base_143_both(), 13, base_143_both_13(), base_143_both_14(), modulus_143());
    lemma_digit(base_143_both(), 1nat, base_143_both(), 2, base_143_both_2(), 0x44df7a5b4552425a9e403e75fac4f4cc748cint, modulus_143());
    lemma_digit(base_143_both(), 18nat, 0x44df7a5b4552425a9e403e75fac4f4cc748cint, 7, base_143_both_7(), 0xf83aa992d4049a2831552330d673288901aint, modulus_143());
    lemma_digit(base_143_both(), 295nat, 0xf83aa992d4049a2831552330d673288901aint, 10, base_143_both_10(), 0x4556c86ff521672e6592848d8b0dabfad067int, modulus_143());
    lemma_digit(base_143_both(), 4730nat, 0x4556c86ff521672e6592848d8b0dabfad067int, 10, base_143_both_10(), 0x2f427eed82f37453b3d1dd7248112f103391int, modulus_143());
    lemma_digit(base_143_both(), 75690nat, 0x2f427eed82f37453b3d1dd7248112f103391int, 1, base_143_both(), 0x9b07bfd2510a84bce9318c799ae5efc8a91int, modulus_143());
    lemma_digit(base_143_both(), 0x127aa1nat, 0x9b07bfd2510a84bce9318c799ae5efc8a91int, 6, base_143_both_6(), 0x2d5ec87b0791e1f0af6670da5c69ed43caafint, modulus_143());
    lemma_digit(base_143_both(), 0x127aa16nat, 0x2d5ec87b0791e1f0af6670da5c69ed43caafint, 14, base_143_both_14(), 0x219b6b0184ae8e51021fd3c1dec849fb46dint, modulus_143());
    lemma_digit(base_143_both(), 0x127aa16enat, 0x219b6b0184ae8e51021fd3c1dec849fb46dint, 14, base_143_both_14(), 0x52eda4217c4891812ac3f66ed856ad54c4feint, modulus_143());
    lemma_digit(base_143_both(), 0x127aa16eenat, 0x52eda4217c4891812ac3f66ed856ad54c4feint, 10, base_143_both_10(), 0x596474dcf3744a34ba2f6a0662652ba5f741int, modulus_143());
    lemma_digit(base_143_both(), 0x127aa16eeanat, 0x596474dcf3744a34ba2f6a0662652ba5f741int, 10, base_143_both_10(), 0x52da6d89932b096147e2dd2f707ac68547ccint, modulus_143());
    lemma_digit(base_143_both(), 0x127aa16eeaanat, 0x52da6d89932b096147e2dd2f707ac68547ccint, 11, base_143_both_11(), 0x2dbe87299a068bca528d106470eafa74eb3dint, modulus_143());
    lemma_digit(base_143_both(), 0x127aa16eeaabnat, 0x2dbe87299a068bca528d106470eafa74eb3dint, 11, base_143_both_11(), 1int, modulus_143());
}

proof fn prime_of_143_bits()
    ensures
        is_prime(modulus_143()),
{
    prime_of_35_bits();
    prime_of_49_bits();
    prime_of_143_bits_first();
    prime_of_143_bits_second();
    prime_of_143_bits_both();
    lemma_power_of_power(base_143_first(), 0x528e0dc7dnat, base_143_both(), 0x127aa16eeaabbnat, modulus_143());
    lemma_certified_by_two(
        modulus_143(),
        0x528e0dc7dnat,
        0x127aa16eeaabbnat,
        0x5f588b9b93aebe8e2114fnat,
        0x5f588b9b93aebe8e21150nat,
        base_143_first(),
        base_143_both(),
        0x356b71f8635bd248c70d2e065392ab87c1fcint,
        0x55bb924d6d8f9f031b347bf64472e58fbe3eint,
        0x4f3b026dd0bce12fbee81d1727fe3a8bc799int,
    );
}

#[verifier::inline]
spec fn modulus_255() -> nat {
    0x40000000000000000000000000000000224698fc094cf91b992d30ed00000001nat
}

#[verifier::inline]
spec fn base_255_power() -> int {
    0x348cdb83aa5c808a180e82875bf3b391ef293ff1cd5f81d0c402c0be7bf67293int
}

#[verifier::inline]
spec fn base_255_power_2() -> int {
    0x24751ad996ab0d2b718de76e92fdc5adc81c6ee4f8f18b68947f4aa795adee12int
}

#[verifier::inline]
spec fn base_255_power_3() -> int {
    0x16e9a3be489db9174e4bb2e9aae2b1723ddd37027de4e1674bea799ab7eac9cdint
}

#[verifier::inline]
spec fn base_255_power_4() -> int {
    0x37b9353cc8282cd9ba8bde6d170582e922009ab721514b4d2597a20b8782b7c3int
}

#[verifier::inline]
spec fn base_255_power_5() -> int {
    0x358d18a292e837b4b850ed0edfa407c1e828083ea1b99a815636a3f052e7f726int
}

#[verifier::inline]
spec fn base_255_power_6() -> int {
    0x14c2b70c08b4ada28d5d0525a1a80ac1457dcf9542801c6a1f8985444cfcb5deint
}

#[verifier::inline]
spec fn base_255_power_7() -> int {
    0x2a39523b0476877077e2e236b55c12dae9f40c5dc9d6754ec6cd9a1ba1de0cb5int
}

#[verifier::inline]
spec fn base_255_power_8() -> int {
    0xaf0bdbc08cce04907b749e460ae02fdeb75100d71b9328995ba0311e3461788int
}

#[verifier::inline]
spec fn base_255_power_9() -> int {
    0x2ab7879a3f3fa7c87d38013c8fd7446bb72490cc3ab6d6b250ba035d199aa2d4int
}

#[verifier::inline]
spec fn base_255_power_10() -> int {
    0x2d96701a08c2be6df1d4bafba2eb7267db7c5e6a6faea6c11f1d685ff7c0e1c3int
}

#[verifier::inline]
spec fn base_255_power_11() -> int {
    0x26f15337bfdeadb0c0fbbcc667755519d0ff39aab5cbbfd3b4534fb3768560c3int
}

#[verifier::inline]
spec fn base_255_power_12() -> int {
    0xe0a4b5f89d92a409ee1e1d38481b50ad527282f548afa03f41f1940364bf643int
}

#[verifier::inline]
spec fn base_255_power_13() -> int {
    0x18b176496a0342341fa6178c11e6e0175207d6223d1134f3eed60e17eb090fb2int
}

#[verifier::inline]
spec fn base_255_power_14() -> int {
    0x7e40da6ccd989b796fe2ff4f90efc83268ed7174f424f6e9301afa4d477a2efint
}

#[verifier::inline]
spec fn base_255_power_15() -> int {
    0x13c877271132d23b3b57d38c40da30d45a2432d2c1475d7389ffaf8ac396a66bint
}

proof fn prime_of_255_bits_power_table()
    ensures
        pow(base_255_power(), 0) % (modulus_255() as int) == 1int,
        pow(base_255_power(), 1) % (modulus_255() as int) == base_255_power(),
        pow(base_255_power(), 2) % (modulus_255() as int) == base_255_power_2(),
        pow(base_255_power(), 3) % (modulus_255() as int) == base_255_power_3(),
        pow(base_255_power(), 4) % (modulus_255() as int) == base_255_power_4(),
        pow(base_255_power(), 5) % (modulus_255() as int) == base_255_power_5(),
        pow(base_255_power(), 6) % (modulus_255() as int) == base_255_power_6(),
        pow(base_255_power(), 7) % (modulus_255() as int) == base_255_power_7(),
        pow(base_255_power(), 8) % (modulus_255() as int) == base_255_power_8(),
        pow(base_255_power(), 9) % (modulus_255() as int) == base_255_power_9(),
        pow(base_255_power(), 10) % (modulus_255() as int) == base_255_power_10(),
        pow(base_255_power(), 12) % (modulus_255() as int) == base_255_power_12(),
        pow(base_255_power(), 13) % (modulus_255() as int) == base_255_power_13(),
        pow(base_255_power(), 14) % (modulus_255() as int) == base_255_power_14(),
        pow(base_255_power(), 15) % (modulus_255() as int) == base_255_power_15(),
{
    vstd::arithmetic::power::lemma_pow0(base_255_power());
    vstd::arithmetic::power::lemma_pow1(base_255_power());
    lemma_next(base_255_power(), 1, base_255_power(), base_255_power_2(), modulus_255());
    lemma_next(base_255_power(), 2, base_255_power_2(), base_255_power_3(), modulus_255());
    lemma_next(base_255_power(), 3, base_255_power_3(), base_255_power_4(), modulus_255());
    lemma_next(base_255_power(), 4, base_255_power_4(), base_255_power_5(), modulus_255());
    lemma_next(base_255_power(), 5, base_255_power_5(), base_255_power_6(), modulus_255());
    lemma_next(base_255_power(), 6, base_255_power_6(), base_255_power_7(), modulus_255());
    lemma_next(base_255_power(), 7, base_255_power_7(), base_255_power_8(), modulus_255());
    lemma_next(base_255_power(), 8, base_255_power_8(), base_255_power_9(), modulus_255());
    lemma_next(base_255_power(), 9, base_255_power_9(), base_255_power_10(), modulus_255());
    lemma_next(base_255_power(), 10, base_255_power_10(), base_255_power_11(), modulus_255());
    lemma_next(base_255_power(), 11, base_255_power_11(), base_255_power_12(), modulus_255());
    lemma_next(base_255_power(), 12, base_255_power_12(), base_255_power_13(), modulus_255());
    lemma_next(base_255_power(), 13, base_255_power_13(), base_255_power_14(), modulus_255());
    lemma_next(base_255_power(), 14, base_255_power_14(), base_255_power_15(), modulus_255());
}

proof fn prime_of_255_bits_power_1()
    ensures
        pow(base_255_power(), 0x674e41aa25559nat) % (modulus_255() as int) == 0x3b3904008ec6f268360c1284bcbf0c0d7605f1441e54f9e4b5c05b99963340c4int,
{
    prime_of_255_bits_power_table();
    lemma_digit(base_255_power(), 6nat, base_255_power_6(), 7, base_255_power_7(), 0x2b59b2be1223b40da6e7df8cc148e9fe5bfda3d6246be629bded55a5c325478aint, modulus_255());
    lemma_digit(base_255_power(), 103nat, 0x2b59b2be1223b40da6e7df8cc148e9fe5bfda3d6246be629bded55a5c325478aint, 4, base_255_power_4(), 0x12e748518fffad6d9e868c40a41753625346b33e9ae0d0bafe7478a9d3ba8272int, modulus_255());
    lemma_digit(base_255_power(), 1652nat, 0x12e748518fffad6d9e868c40a41753625346b33e9ae0d0bafe7478a9d3ba8272int, 14, base_255_power_14(), 0x379468ca6bb77c41155cf375f7e4e1fbc1179081840c043e10c469af29549464int, modulus_255());
    lemma_digit(base_255_power(), 26446nat, 0x379468ca6bb77c41155cf375f7e4e1fbc1179081840c043e10c469af29549464int, 4, base_255_power_4(), 0x382d90cb6377d6f2d00ee7fc798a71dced4f99f29207018a74fbe968b26f8bdeint, modulus_255());
    lemma_digit(base_255_power(), 423140nat, 0x382d90cb6377d6f2d00ee7fc798a71dced4f99f29207018a74fbe968b26f8bdeint, 1, base_255_power(), 0x374a8434b15c8c8cd4979526b20941972a118374d9d0a55bf3c679b995607726int, modulus_255());
    lemma_digit(base_255_power(), 0x674e41nat, 0x374a8434b15c8c8cd4979526b20941972a118374d9d0a55bf3c679b995607726int, 10, base_255_power_10(), 0x2319093e4ece846cde37d0ea4fee6393b303b00dbda1289450daba0f5a3a80f7int, modulus_255());
    lemma_digit(base_255_power(), 0x674e41anat, 0x2319093e4ece846cde37d0ea4fee6393b303b00dbda1289450daba0f5a3a80f7int, 10, base_255_power_10(), 0x45a47b775b7f5454d18f3fec8aa4ed2901daf423cc7d5d8f2861b5233fa41b6int, modulus_255());
    lemma_digit(base_255_power(), 0x674e41aanat, 0x45a47b775b7f5454d18f3fec8aa4ed2901daf423cc7d5d8f2861b5233fa41b6int, 2, base_255_power_2(), 0x600b224473fac2fe6237e518e932e6b54d0c186410124771cab00965af9538aint, modulus_255());
    lemma_digit(base_255_power(), 0x674e41aa2nat, 0x600b224473fac2fe6237e518e932e6b54d0c186410124771cab00965af9538aint, 5, base_255_power_5(), 0x795bb24a687da38dc689f45ab48bb39774952c505dd59b8d9e58cf392a12aeaint, modulus_255());
    lemma_digit(base_255_power(), 0x674e41aa25nat, 0x795bb24a687da38dc689f45ab48bb39774952c505dd59b8d9e58cf392a12aeaint, 5, base_255_power_5(), 0x2fa4a8a9eadbf767ef2d0f2cb67338e431b79903caeb6e39a67c2ce829f0b787int, modulus_255());
    lemma_digit(base_255_power(), 0x674e41aa255nat, 0x2fa4a8a9eadbf767ef2d0f2cb67338e431b79903caeb6e39a67c2ce829f0b787int, 5, base_255_power_5(), 0xfe64ad765e4d2d9e4333909397a5cbe2f4292e117d008cf879a861afc5104abint, modulus_255());
    lemma_digit(base_255_power(), 0x674e41aa2555nat, 0xfe64ad765e4d2d9e4333909397a5cbe2f4292e117d008cf879a861afc5104abint, 9, base_255_power_9(), 0x3b3904008ec6f268360c1284bcbf0c0d7605f1441e54f9e4b5c05b99963340c4int, modulus_255());
}

proof fn prime_of_255_bits_power_2()
    ensures
        pow(base_255_power(), 0x674e41aa25559f3f6806ca732nat) % (modulus_255() as int) == 0x210ec4c63bf9868bc44c745bfc9ef0cec512d4ba3c42268f1d23185bac5d124int,
{
    prime_of_255_bits_power_table();
    prime_of_255_bits_power_1();
    lemma_digit(base_255_power(), 0x674e41aa25559nat, 0x3b3904008ec6f268360c1284bcbf0c0d7605f1441e54f9e4b5c05b99963340c4int, 15, base_255_power_15(), 0xbc10cb6b60a804b436f026a540cd7a5a9d5155a358ca6a8f67d68694d75d8d8int, modulus_255());
    lemma_digit(base_255_power(), 0x674e41aa25559fnat, 0xbc10cb6b60a804b436f026a540cd7a5a9d5155a358ca6a8f67d68694d75d8d8int, 3, base_255_power_3(), 0x5a6a31ab7c652d16a0a624c38319f09e5ada872ebb349c448158605155b5860int, modulus_255());
    lemma_digit(base_255_power(), 0x674e41aa25559f3nat, 0x5a6a31ab7c652d16a0a624c38319f09e5ada872ebb349c448158605155b5860int, 15, base_255_power_15(), 0x5f43423a09e530eb24da200beaed574566154563054dbed68f9b809223ab91eint, modulus_255());
    lemma_digit(base_255_power(), 0x674e41aa25559f3fnat, 0x5f43423a09e530eb24da200beaed574566154563054dbed68f9b809223ab91eint, 6, base_255_power_6(), 0xc1c904c80e01f06afccaed98be20cb1b44a03943f890a75ae5ccdd91563f307int, modulus_255());
    lemma_digit(base_255_power(), 0x674e41aa25559f3f6nat, 0xc1c904c80e01f06afccaed98be20cb1b44a03943f890a75ae5ccdd91563f307int, 8, base_255_power_8(), 0x2ce8b04d5a852f901a55bebd1758c26dacd03f87d5d36471d5d8fd94e8c1fb25int, modulus_255());
    lemma_digit(base_255_power(), 0x674e41aa25559f3f68nat, 0x2ce8b04d5a852f901a55bebd1758c26dacd03f87d5d36471d5d8fd94e8c1fb25int, 0, 1int, 0x347c7c9d90ad532375757aed4e6f288552cd4842441ca06f3a9af0d720400c32int, modulus_255());
    lemma_digit(base_255_power(), 0x674e41aa25559f3f680nat, 0x347c7c9d90ad532375757aed4e6f288552cd4842441ca06f3a9af0d720400c32int, 6, base_255_power_6(), 0x571a73a262d310593acdfe8eb9d0a7e062a8fdc65717b94a9f9a0d208dc9a7cint, modulus_255());
    lemma_digit(base_255_power(), 0x674e41aa25559f3f6806nat, 0x571a73a262d310593acdfe8eb9d0a7e062a8fdc65717b94a9f9a0d208dc9a7cint, 12, base_255_power_12(), 0x1121714c90b92742235ef1f8d6addfb331c5bf113097aba7c67c69d086b19a3bint, modulus_255());
    lemma_digit(base_255_power(), 0x674e41aa25559f3f6806cnat, 0x1121714c90b92742235ef1f8d6addfb331c5bf113097aba7c67c69d086b19a3bint, 10, base_255_power_10(), 0xbd3c2e364487d848af454f34a12f41da331e029c202cd1c41b8b01dd6314980int, modulus_255());
    lemma_digit(base_255_power(), 0x674e41aa25559f3f6806canat, 0xbd3c2e364487d848af454f34a12f41da331e029c202cd1c41b8b01dd6314980int, 7, base_255_power_7(), 0x63e9fae4d93e8b90b804d4b37150bc072c9c0f20a2463c451a9a1b6067d786int, modulus_255());
    lemma_digit(base_255_power(), 0x674e41aa25559f3f6806ca7nat, 0x63e9fae4d93e8b90b804d4b37150bc072c9c0f20a2463c451a9a1b6067d786int, 3, base_255_power_3(), 0x3d02fa90669de6f26fa28a2b9f43fccf9c2e4dab68ec6685e910985d3f3b6af0int, modulus_255());
    lemma_digit(base_255_power(), 0x674e41aa25559f3f6806ca73nat, 0x3d02fa90669de6f26fa28a2b9f43fccf9c2e4dab68ec6685e910985d3f3b6af0int, 2, base_255_power_2(), 0x210ec4c63bf9868bc44c745bfc9ef0cec512d4ba3c42268f1d23185bac5d124int, modulus_255());
}

proof fn prime_of_255_bits_power()
    ensures
        pow(base_255_power(), modulus_143()) % (modulus_255() as int) == 1int,
{
    prime_of_255_bits_power_table();
    prime_of_255_bits_power_2();
    lemma_digit(base_255_power(), 0x674e41aa25559f3f6806ca732nat, 0x210ec4c63bf9868bc44c745bfc9ef0cec512d4ba3c42268f1d23185bac5d124int, 4, base_255_power_4(), 0xfff5f0c7c9848aad9e0b036a9e352245f9de361237b420874b951c4877a96ebint, modulus_255());
    lemma_digit(base_255_power(), 0x674e41aa25559f3f6806ca7324nat, 0xfff5f0c7c9848aad9e0b036a9e352245f9de361237b420874b951c4877a96ebint, 15, base_255_power_15(), 0xc4de67ab299785f070280267161967745811d3660a8f01b50c344be63f71b3fint, modulus_255());
    lemma_digit(base_255_power(), 0x674e41aa25559f3f6806ca7324fnat, 0xc4de67ab299785f070280267161967745811d3660a8f01b50c344be63f71b3fint, 2, base_255_power_2(), 0x28906637471e92f4cb6bc58e17fa4e94fb9fa249d27c97e43b15eb183fdf0f5aint, modulus_255());
    lemma_digit(base_255_power(), 0x674e41aa25559f3f6806ca7324f2nat, 0x28906637471e92f4cb6bc58e17fa4e94fb9fa249d27c97e43b15eb183fdf0f5aint, 9, base_255_power_9(), 0x137ffeb7b73abe70ceefabddb6e00b416e2d5aae7f3d9c6c1c7d4e36e657edc2int, modulus_255());
    lemma_digit(base_255_power(), 0x674e41aa25559f3f6806ca7324f29nat, 0x137ffeb7b73abe70ceefabddb6e00b416e2d5aae7f3d9c6c1c7d4e36e657edc2int, 8, base_255_power_8(), 0x177022eaf54c8ac8f7f399c321ec4ca1834918c07313251cdfd75742612584f4int, modulus_255());
    lemma_digit(base_255_power(), 0x674e41aa25559f3f6806ca7324f298nat, 0x177022eaf54c8ac8f7f399c321ec4ca1834918c07313251cdfd75742612584f4int, 13, base_255_power_13(), 0xc6c44090344560255d6814401a61b385d5c29757e2483e3deb41799c225f5f8int, modulus_255());
    lemma_digit(base_255_power(), 0x674e41aa25559f3f6806ca7324f298dnat, 0xc6c44090344560255d6814401a61b385d5c29757e2483e3deb41799c225f5f8int, 5, base_255_power_5(), 0x302940859da1aece2ddf6c89e7af3d23a9d245c59c4d6e4da81bf9e08def9717int, modulus_255());
    lemma_digit(base_255_power(), 0x674e41aa25559f3f6806ca7324f298d5nat, 0x302940859da1aece2ddf6c89e7af3d23a9d245c59c4d6e4da81bf9e08def9717int, 4, base_255_power_4(), 0x351380188dec6560606d555195669aa0496c0cd11b4be235b249828d264397ecint, modulus_255());
    lemma_digit(base_255_power(), 0x674e41aa25559f3f6806ca7324f298d54nat, 0x351380188dec6560606d555195669aa0496c0cd11b4be235b249828d264397ecint, 6, base_255_power_6(), 0x3bee96f6cef3f893786916ce8e49a276a467e03412068e5755d7d1f1745eb35bint, modulus_255());
    lemma_digit(base_255_power(), 0x674e41aa25559f3f6806ca7324f298d546nat, 0x3bee96f6cef3f893786916ce8e49a276a467e03412068e5755d7d1f1745eb35bint, 5, base_255_power_5(), 0xf416815724e7449fda9a1fce4529af89c393989da8e04557a79968c5b9dade5int, modulus_255());
    lemma_digit(base_255_power(), 0x674e41aa25559f3f6806ca7324f298d5465nat, 0xf416815724e7449fda9a1fce4529af89c393989da8e04557a79968c5b9dade5int, 13, base_255_power_13(), 1int, modulus_255());
}

proof fn prime_of_255_bits()
    ensures
        is_prime(modulus_255()),
{
    prime_of_143_bits();
    prime_of_255_bits_power();
    lemma_certified_by_one(modulus_255(), modulus_143(), 0x674e41aa25559f3f6806ca7324f298d5465enat, base_255_power(), 0x1ddc3393b0469879b74d767baeb87ef9010fca1c6e3f21fa32a6f9c9a3d2827aint);
}

/// The order of the base field is a prime.
pub proof fn base_modulus_is_prime()
    ensures
        is_prime(crate::pallas::base_modulus()),
{
    prime_of_255_bits();
}

/// A product vanishes in the base field only if one of its factors does.
pub proof fn base_field_has_no_zero_divisors(a: int, b: int)
    requires
        crate::circuit::gate::vanishes(a * b),
    ensures
        crate::circuit::gate::vanishes(a) || crate::circuit::gate::vanishes(b),
{
    let p = crate::pallas::base_modulus();
    let m = p as int;
    let x = (a % m) as nat;
    let y = (b % m) as nat;
    vstd::arithmetic::div_mod::lemma_mul_mod_noop(a, b, m);
    base_modulus_is_prime();
    lemma_euclid(p, x, y);
    vstd::arithmetic::div_mod::lemma_mod_twice(a, m);
    vstd::arithmetic::div_mod::lemma_mod_twice(b, m);
}

} // verus!
