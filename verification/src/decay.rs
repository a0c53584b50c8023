//! Gradido decay: value halves every year of 365.2425 days.
//!
//! 1. Whole years become a right shift, and 63 years or more yield 0.
//! 2. The remaining seconds `rem < SECONDS_PER_YEAR < 2^25` select factors from `DECAY_POWERS`:
//!    `F = 2^64; for each set bit i of rem: F = floor(F * DECAY_POWERS[i] / 2^64)` (Q64.64).
//! 3. `result = floor((shifted * F + 2^63) / 2^64)`, which rounds half up.
//!
//! The traces hold every intermediate value, because a proof of the decay needs them as witness.
//!
//! Step 2 truncates up to 25 times, once per set bit. The windowed variant groups the bits into
//! five windows of five bits: `window_table()[j][c]` is the factor of `c * 2^(5j)` seconds from
//! the same chain, and five multiplications remain.
use vstd::arithmetic::power2::{lemma_pow2_pos, lemma_pow2_strictly_increases, lemma_pow2_unfold, pow2};
use vstd::prelude::*;

verus! {

broadcast use vstd::array::group_array_axioms;

pub const SECONDS_PER_YEAR: u64 = 31_556_952;

pub const DECAY_START_TIME: u64 = 1_620_927_991;

/// Bits of the remaining seconds: `SECONDS_PER_YEAR < 2^25`.
pub const REM_BITS: usize = 25;

/// Values are non-negative 64 bit integers, so a shift by 63 or more always yields 0.
pub const W1_SHIFT_LIMIT: u64 = 63;

/// `2^64 * 2^(-2^i / SECONDS_PER_YEAR)`.
pub const DECAY_POWERS: [u64; 25] = [
    18446743668527564940,
    18446743263345587163,
    18446742452981658309,
    18446740832253907398,
    18446737590798832767,
    18446731107890392267,
    18446718142080346313,
    18446692210487594564,
    18446640347411451525,
    18446536621696605848,
    18446329172016664620,
    18445914279655690837,
    18445084522928643346,
    18443425121448271984,
    18440106766335414243,
    18433471847125226169,
    18420209169759874097,
    18393712435208807257,
    18340833254760868098,
    18235530516106764452,
    18026735334708307356,
    17616289656815978922,
    16823221487369777986,
    15342587292489394070,
    12760787697116905635,
];

pub const WINDOW_BITS: usize = 5;

pub const WINDOWS: usize = 5;

pub const WINDOW_SIZE: usize = 32;

/// One in Q64.64, `2^64`.
pub const ONE: u128 = 0x1_0000_0000_0000_0000;

/// Half of one, the rounding offset.
pub const HALF: u128 = 0x8000_0000_0000_0000;

// ------------------------------------------------------------------------------------- model

/// Bit `i` of `n`.
pub open spec fn bit(n: nat, i: nat) -> bool {
    (n / pow2(i)) % 2 == 1
}

/// Digit `j` of `n` in base 32.
pub open spec fn window_digit(n: nat, j: nat) -> nat {
    (n / pow2(5 * j)) % 32
}

/// One Q64.64 multiplication, truncated.
pub open spec fn q64_product(a: nat, b: nat) -> nat {
    (a * b) / (ONE as nat)
}

/// The factor after the first `n` bits of `digit`, starting with the power at `first`.
pub open spec fn factor_chain(digit: nat, first: nat, n: nat) -> nat
    decreases n,
{
    if n == 0 {
        ONE as nat
    } else {
        let before = factor_chain(digit, first, (n - 1) as nat);
        if bit(digit, (n - 1) as nat) {
            q64_product(before, DECAY_POWERS[first + n - 1] as nat)
        } else {
            before
        }
    }
}

/// The factor of `digit * 2^(5 j)` seconds.
pub open spec fn window_factor(j: nat, digit: nat) -> nat {
    factor_chain(digit, 5 * j, 5)
}

/// The factor after the first `n` windows of the remaining seconds.
pub open spec fn window_chain(rem: nat, n: nat) -> nat
    decreases n,
{
    if n == 0 {
        ONE as nat
    } else {
        q64_product(
            window_chain(rem, (n - 1) as nat),
            window_factor((n - 1) as nat, window_digit(rem, (n - 1) as nat)),
        )
    }
}

/// The whole years of a duration as a right shift of the value.
pub open spec fn years_decayed(value: nat, duration: nat) -> nat {
    let times = duration / (SECONDS_PER_YEAR as nat);
    if times >= W1_SHIFT_LIMIT {
        0
    } else {
        value / pow2(times)
    }
}

/// `shifted * factor / 2^64`, rounded half up.
pub open spec fn rounded(shifted: nat, factor: nat) -> nat {
    ((shifted * factor + HALF) / (ONE as int)) as nat
}

/// What `value` is worth `duration` seconds later, with one factor per bit.
pub open spec fn decayed(value: nat, duration: nat) -> nat {
    rounded(
        years_decayed(value, duration),
        factor_chain(duration % (SECONDS_PER_YEAR as nat), 0, 25),
    )
}

/// What `value` is worth `duration` seconds later, with one factor per window.
pub open spec fn decayed_windowed(value: nat, duration: nat) -> nat {
    rounded(
        years_decayed(value, duration),
        window_chain(duration % (SECONDS_PER_YEAR as nat), 5),
    )
}

// ------------------------------------------------------------------------------------ traces

/// Every intermediate value of the bit chain.
#[derive(Clone, Debug)]
pub struct DecayTrace {
    pub times: u64,
    pub rem: u64,
    pub shift: ShiftTrace,
    pub bits: [bool; 25],
    /// `f[0] = 2^64`, `f[i + 1]` after step `i`
    pub f: [u128; 26],
    /// `floor(f[i] * DECAY_POWERS[i] / 2^64)` and its remainder, whether or not bit `i` is set
    pub f_next: [u64; 25],
    pub f_rem: [u64; 25],
    /// `shifted * f[REM_BITS] + 2^63 = result * 2^64 + round_rem`
    pub result: u64,
    pub round_rem: u64,
}

/// `value = q * 2^shift + r`, with `shift = 0` and result 0 once `k >= limit`.
#[derive(Clone, Debug)]
pub struct ShiftTrace {
    pub k: u64,
    pub big: bool,
    pub shift: u64,
    pub pow: u128,
    pub q: u128,
    pub r: u128,
    pub shifted: u128,
}

impl ShiftTrace {
    /// The trace of shifting `value` right by `k`.
    pub open spec fn of(self, value: nat, k: u64, limit: u64) -> bool {
        &&& self.k == k
        &&& self.big == (k >= limit)
        &&& self.shift == (if k >= limit { 0 } else { k })
        &&& self.pow as nat == pow2(self.shift as nat)
        &&& self.q as nat == value / pow2(self.shift as nat)
        &&& self.r as nat == value % pow2(self.shift as nat)
        &&& self.shifted == (if k >= limit { 0 } else { self.q })
    }
}

impl DecayTrace {
    /// The trace of decaying `value` by `duration` seconds.
    pub open spec fn of(self, value: nat, duration: nat) -> bool {
        &&& self.times as nat == duration / (SECONDS_PER_YEAR as nat)
        &&& self.rem as nat == duration % (SECONDS_PER_YEAR as nat)
        &&& self.shift.of(value, self.times, W1_SHIFT_LIMIT)
        &&& forall|i: int|
            #![trigger self.bits@[i]]
            0 <= i < 25 ==> self.bits@[i] == bit(self.rem as nat, i as nat)
        &&& forall|i: int|
            #![trigger self.f@[i]]
            0 <= i <= 25 ==> self.f@[i] as nat == factor_chain(self.rem as nat, 0, i as nat)
        &&& forall|i: int|
            #![trigger self.f_next@[i]]
            #![trigger self.f_rem@[i]]
            0 <= i < 25 ==> self.f_next@[i] * ONE + self.f_rem@[i] == self.f@[i] * DECAY_POWERS[i]
        &&& self.result as nat == decayed(value, duration)
        &&& self.result * ONE + self.round_rem == self.shift.shifted * self.f@[25] + HALF
    }
}

/// Every intermediate value of the window chain, five steps instead of 25.
#[derive(Clone, Debug)]
pub struct WindowedTrace {
    pub times: u64,
    pub rem: u64,
    pub shift: ShiftTrace,
    /// window digits, least significant first
    pub digits: [u64; 5],
    /// factor of each window from the table
    pub factors: [u128; 5],
    /// `f[0] = 2^64`, `f[j + 1]` after step `j`
    pub f: [u128; 6],
    pub f_rem: [u64; 5],
    pub result: u64,
    pub round_rem: u64,
}

impl WindowedTrace {
    /// The trace of decaying `value` by `duration` seconds.
    pub open spec fn of(self, value: nat, duration: nat) -> bool {
        &&& self.times as nat == duration / (SECONDS_PER_YEAR as nat)
        &&& self.rem as nat == duration % (SECONDS_PER_YEAR as nat)
        &&& self.shift.of(value, self.times, W1_SHIFT_LIMIT)
        &&& forall|j: int|
            #![trigger self.digits@[j]]
            0 <= j < 5 ==> self.digits@[j] as nat == window_digit(self.rem as nat, j as nat)
        &&& forall|j: int|
            #![trigger self.factors@[j]]
            0 <= j < 5 ==> self.factors@[j] as nat == window_factor(
                j as nat,
                self.digits@[j] as nat,
            )
        &&& forall|j: int|
            #![trigger self.f@[j]]
            0 <= j <= 5 ==> self.f@[j] as nat == window_chain(self.rem as nat, j as nat)
        &&& forall|j: int|
            #![trigger self.f_rem@[j]]
            0 <= j < 5 ==> self.f@[j] * self.factors@[j] == self.f@[j + 1] * ONE + self.f_rem@[j]
        &&& self.result as nat == decayed_windowed(value, duration)
        &&& self.result * ONE + self.round_rem == self.shift.shifted * self.f@[5] + HALF
    }
}

/// Splits `value` at bit `k`; nothing is left of it once `k` reaches `limit`.
pub fn shift_trace(value: u128, k: u64, limit: u64) -> (t: ShiftTrace)
    requires
        k < limit ==> k < 128,
    ensures
        t.of(value as nat, k, limit),
{
    let big = k >= limit;
    let shift: u64 = if big {
        0
    } else {
        k
    };
    let mut pow: u128 = 1;
    let mut i: u64 = 0;
    proof {
        vstd::arithmetic::power2::lemma2_to64();
    }
    while i < shift
        invariant
            i <= shift < 128,
            pow as nat == pow2(i as nat),
        decreases shift - i,
    {
        proof {
            lemma_pow2_unfold(i as nat + 1);
            lemma_pow2_below_2_127(i as nat);
        }
        pow = pow * 2;
        i = i + 1;
    }
    proof {
        lemma_pow2_pos(shift as nat);
    }
    let q: u128 = value / pow;
    let r: u128 = value % pow;
    let shifted: u128 = if big {
        0
    } else {
        q
    };
    ShiftTrace { k, big, shift, pow, q, r, shifted }
}

proof fn lemma_pow2_below_2_127(i: nat)
    requires
        i < 127,
    ensures
        pow2(i) * 2 < 0x1_0000_0000_0000_0000_0000_0000_0000_0000,
{
    lemma_pow2_strictly_increases(i, 127);
    vstd::arithmetic::power2::lemma_pow2_adds(64, 63);
    vstd::arithmetic::power2::lemma2_to64();
    vstd::arithmetic::power2::lemma2_to64_rest();
    assert(pow2(127) == 0x1_0000_0000_0000_0000 * 0x8000_0000_0000_0000);
}

/// A factor never exceeds one.
pub proof fn lemma_factor_chain_bound(digit: nat, first: nat, n: nat)
    requires
        first + n <= 25,
    ensures
        factor_chain(digit, first, n) <= ONE,
    decreases n,
{
    if n > 0 {
        lemma_factor_chain_bound(digit, first, (n - 1) as nat);
        let before = factor_chain(digit, first, (n - 1) as nat);
        lemma_q64_product_bound(before, DECAY_POWERS[first + n - 1] as nat);
    }
}

pub proof fn lemma_q64_product_bound(a: nat, b: nat)
    requires
        a <= ONE,
        b <= ONE,
    ensures
        q64_product(a, b) <= a,
        q64_product(a, b) <= b,
        a * b <= 0x1_0000_0000_0000_0000_0000_0000_0000_0000,
        a < ONE ==> a * b < 0x1_0000_0000_0000_0000_0000_0000_0000_0000,
        b < ONE ==> a * b < 0x1_0000_0000_0000_0000_0000_0000_0000_0000,
{
    assert(a * b <= a * ONE && a * b <= ONE * b && (a < ONE ==> a * b <= (ONE - 1) * ONE) && (b
        < ONE ==> a * b <= ONE * (ONE - 1))) by (nonlinear_arith)
        requires
            a <= ONE,
            b <= ONE,
            ONE == 0x1_0000_0000_0000_0000u128,
    ;
    assert((a * b) / (ONE as nat) <= a) by (nonlinear_arith)
        requires
            a * b <= a * ONE,
            ONE == 0x1_0000_0000_0000_0000u128,
    ;
    assert((a * b) / (ONE as nat) <= b) by (nonlinear_arith)
        requires
            a * b <= ONE * b,
            ONE == 0x1_0000_0000_0000_0000u128,
    ;
}

pub proof fn lemma_window_chain_bound(rem: nat, n: nat)
    requires
        n <= 5,
    ensures
        window_chain(rem, n) <= ONE,
    decreases n,
{
    if n > 0 {
        lemma_window_chain_bound(rem, (n - 1) as nat);
        let d = window_digit(rem, (n - 1) as nat);
        lemma_factor_chain_bound(d, (5 * (n - 1)) as nat, 5);
        lemma_q64_product_bound(
            window_chain(rem, (n - 1) as nat),
            window_factor((n - 1) as nat, d),
        );
    }
}

/// Dropping one more bit.
proof fn lemma_next_bit(n: nat, i: nat)
    ensures
        (n / pow2(i)) / 2 == n / pow2(i + 1),
{
    lemma_pow2_pos(i);
    lemma_pow2_unfold(i + 1);
    vstd::arithmetic::div_mod::lemma_div_denominator(n as int, pow2(i) as int, 2);
    assert(pow2(i) * 2 == pow2(i + 1));
}

/// Dropping one more window.
proof fn lemma_next_window(n: nat, j: nat)
    ensures
        (n / pow2(5 * j)) / 32 == n / pow2(5 * (j + 1)),
{
    lemma_pow2_pos(5 * j);
    vstd::arithmetic::power2::lemma_pow2_adds(5 * j, 5);
    vstd::arithmetic::power2::lemma2_to64();
    vstd::arithmetic::div_mod::lemma_div_denominator(n as int, pow2(5 * j) as int, 32);
    assert(pow2(5 * j) * 32 == pow2(5 * (j + 1)));
}

proof fn lemma_no_shift(n: nat)
    ensures
        n / pow2(0) == n,
{
    vstd::arithmetic::power2::lemma2_to64();
    assert(n / pow2(0) == n) by (nonlinear_arith)
        requires
            pow2(0) == 1,
    ;
}

/// The shifted value fits the trace and the final product fits 127 bits.
proof fn lemma_final_product(shifted: nat, factor: nat)
    requires
        shifted < 0x8000_0000_0000_0000,
        factor <= ONE,
    ensures
        shifted * factor + HALF < 0x8000_0000_0000_0000_0000_0000_0000_0000,
        rounded(shifted, factor) <= shifted,
{
    assert(shifted * factor <= shifted * ONE && shifted * ONE <= (0x8000_0000_0000_0000 - 1) * ONE)
        by (nonlinear_arith)
        requires
            shifted < 0x8000_0000_0000_0000,
            factor <= ONE,
            ONE == 0x1_0000_0000_0000_0000u128,
    ;
    assert((shifted * factor + HALF) / (ONE as int) <= shifted) by (nonlinear_arith)
        requires
            shifted * factor <= shifted * ONE,
            ONE == 0x1_0000_0000_0000_0000u128,
            HALF == 0x8000_0000_0000_0000u128,
    ;
}

/// Every intermediate value of the decay of `value` after `duration` seconds, bit by bit.
pub fn decay_trace(value: u64, duration: u64) -> (t: DecayTrace)
    requires
        value < 0x8000_0000_0000_0000,
    ensures
        t.of(value as nat, duration as nat),
{
    let times: u64 = duration / SECONDS_PER_YEAR;
    let rem: u64 = duration % SECONDS_PER_YEAR;
    let shift = shift_trace(value as u128, times, W1_SHIFT_LIMIT);

    let mut bits: [bool; 25] = [false; 25];
    let mut f: [u128; 26] = [0u128; 26];
    let mut f_next: [u64; 25] = [0u64; 25];
    let mut f_rem: [u64; 25] = [0u64; 25];
    f[0] = ONE;
    let mut rest: u64 = rem;
    let mut i: usize = 0;
    proof {
        lemma_no_shift(rem as nat);
    }
    while i < 25
        invariant
            i <= 25,
            rest as nat == rem as nat / pow2(i as nat),
            forall|j: int| 0 <= j < i ==> bits@[j] == bit(rem as nat, j as nat),
            forall|j: int| 0 <= j <= i ==> f@[j] as nat == factor_chain(rem as nat, 0, j as nat),
            forall|j: int|
                0 <= j < i ==> #[trigger] f_next@[j] * ONE + f_rem@[j] == f@[j] * DECAY_POWERS[j],
        decreases 25 - i,
    {
        let set = rest % 2 == 1;
        let before: u128 = f[i];
        let power: u64 = DECAY_POWERS[i];
        proof {
            lemma_next_bit(rem as nat, i as nat);
            lemma_factor_chain_bound(rem as nat, 0, i as nat);
            lemma_q64_product_bound(before as nat, power as nat);
        }
        let product: u128 = before * (power as u128);
        let next: u128 = product / ONE;
        bits[i] = set;
        f_next[i] = next as u64;
        f_rem[i] = (product % ONE) as u64;
        f[i + 1] = if set {
            next
        } else {
            before
        };
        assert(f_next@[i as int] * ONE + f_rem@[i as int] == f@[i as int] * DECAY_POWERS[i as int]);
        rest = rest / 2;
        i = i + 1;
    }
    proof {
        lemma_factor_chain_bound(rem as nat, 0, 25);
        lemma_years(value as nat, times as nat);
        lemma_final_product(shift.shifted as nat, f@[25] as nat);
    }
    let x: u128 = shift.shifted * f[25] + HALF;
    DecayTrace {
        times,
        rem,
        shift,
        bits,
        f,
        f_next,
        f_rem,
        result: (x / ONE) as u64,
        round_rem: (x % ONE) as u64,
    }
}

proof fn lemma_years(value: nat, times: nat)
    requires
        value < 0x8000_0000_0000_0000,
    ensures
        value / pow2(times) <= value,
        value / pow2(times) < 0x8000_0000_0000_0000,
{
    lemma_pow2_pos(times);
    vstd::arithmetic::div_mod::lemma_div_is_ordered_by_denominator(
        value as int,
        1,
        pow2(times) as int,
    );
}

/// What `value` is worth after `duration` seconds, with the bit chain.
pub fn decay(value: u64, duration: u64) -> (r: u64)
    requires
        value < 0x8000_0000_0000_0000,
    ensures
        r as nat == decayed(value as nat, duration as nat),
{
    decay_trace(value, duration).result
}

// ------------------------------------------------------------------ windowed decay factor

/// One Q64.64 step, where either factor may be exactly one.
fn mul_q64(a: u128, b: u128) -> (r: u128)
    requires
        a <= ONE,
        b <= ONE,
    ensures
        r as nat == q64_product(a as nat, b as nat),
{
    proof {
        lemma_q64_product_bound(a as nat, b as nat);
    }
    if a == ONE {
        assert((a * b) / (ONE as int) == b) by (nonlinear_arith)
            requires
                a == ONE,
                ONE == 0x1_0000_0000_0000_0000u128,
        ;
        b
    } else if b == ONE {
        assert((a * b) / (ONE as int) == a) by (nonlinear_arith)
            requires
                b == ONE,
                ONE == 0x1_0000_0000_0000_0000u128,
        ;
        a
    } else {
        (a * b) / ONE
    }
}

/// The factor of `c * 2^(5 j)` seconds.
fn window_entry(j: usize, c: usize) -> (r: u128)
    requires
        j < 5,
        c < 32,
    ensures
        r as nat == window_factor(j as nat, c as nat),
        r <= ONE,
{
    let mut f: u128 = ONE;
    let mut rest: usize = c;
    let mut i: usize = 0;
    proof {
        lemma_no_shift(c as nat);
    }
    while i < 5
        invariant
            i <= 5,
            j < 5,
            rest as nat == c as nat / pow2(i as nat),
            f as nat == factor_chain(c as nat, 5 * j as nat, i as nat),
            f <= ONE,
        decreases 5 - i,
    {
        proof {
            lemma_next_bit(c as nat, i as nat);
            lemma_factor_chain_bound(c as nat, 5 * j as nat, i as nat + 1);
        }
        if rest % 2 == 1 {
            f = mul_q64(f, DECAY_POWERS[i + j * 5] as u128);
        }
        rest = rest / 2;
        i = i + 1;
    }
    f
}

/// `window_table()[j][c]` is the decay factor of `c * 2^(WINDOW_BITS * j)` seconds, in Q64.64.
pub fn window_table() -> (r: [[u128; 32]; 5])
    ensures
        forall|j: int, c: int|
            0 <= j < 5 && 0 <= c < 32 ==> #[trigger] r@[j]@[c] as nat == window_factor(
                j as nat,
                c as nat,
            ),
{
    let mut table: [[u128; 32]; 5] = [[0u128; 32]; 5];
    let mut j: usize = 0;
    while j < 5
        invariant
            j <= 5,
            forall|a: int, c: int|
                0 <= a < j && 0 <= c < 32 ==> #[trigger] table@[a]@[c] as nat == window_factor(
                    a as nat,
                    c as nat,
                ),
        decreases 5 - j,
    {
        let mut row: [u128; 32] = [0u128; 32];
        let mut c: usize = 0;
        while c < 32
            invariant
                j < 5,
                c <= 32,
                forall|b: int|
                    0 <= b < c ==> #[trigger] row@[b] as nat == window_factor(j as nat, b as nat),
            decreases 32 - c,
        {
            row[c] = window_entry(j, c);
            c = c + 1;
        }
        table[j] = row;
        j = j + 1;
    }
    table
}

/// Every intermediate value of the decay of `value` after `duration` seconds, window by window.
pub fn windowed_trace(value: u64, duration: u64) -> (t: WindowedTrace)
    requires
        value < 0x8000_0000_0000_0000,
    ensures
        t.of(value as nat, duration as nat),
{
    let times: u64 = duration / SECONDS_PER_YEAR;
    let rem: u64 = duration % SECONDS_PER_YEAR;
    let shift = shift_trace(value as u128, times, W1_SHIFT_LIMIT);

    let mut digits: [u64; 5] = [0u64; 5];
    let mut factors: [u128; 5] = [0u128; 5];
    let mut f: [u128; 6] = [0u128; 6];
    let mut f_rem: [u64; 5] = [0u64; 5];
    f[0] = ONE;
    let mut rest: u64 = rem;
    let mut j: usize = 0;
    proof {
        lemma_no_shift(rem as nat);
    }
    while j < 5
        invariant
            j <= 5,
            rest as nat == rem as nat / pow2(5 * j as nat),
            forall|a: int|
                0 <= a < j ==> #[trigger] digits@[a] as nat == window_digit(rem as nat, a as nat),
            forall|a: int|
                0 <= a < j ==> #[trigger] factors@[a] as nat == window_factor(
                    a as nat,
                    digits@[a] as nat,
                ),
            forall|a: int|
                0 <= a <= j ==> #[trigger] f@[a] as nat == window_chain(rem as nat, a as nat),
            forall|a: int|
                0 <= a < j ==> f@[a] * factors@[a] == f@[a + 1] * ONE + #[trigger] f_rem@[a],
        decreases 5 - j,
    {
        let digit: u64 = rest % 32;
        let factor: u128 = window_entry(j, digit as usize);
        let before: u128 = f[j];
        proof {
            lemma_next_window(rem as nat, j as nat);
            lemma_window_chain_bound(rem as nat, j as nat);
            lemma_q64_product_bound(before as nat, factor as nat);
        }
        let after: u128 = mul_q64(before, factor);
        let left: u64 = if before == ONE || factor == ONE {
            assert((before * factor) % (ONE as int) == 0) by (nonlinear_arith)
                requires
                    before == ONE || factor == ONE,
                    ONE == 0x1_0000_0000_0000_0000u128,
            ;
            0
        } else {
            ((before * factor) % ONE) as u64
        };
        digits[j] = digit;
        factors[j] = factor;
        f[j + 1] = after;
        f_rem[j] = left;
        assert(f@[j as int] * factors@[j as int] == f@[j + 1] * ONE + f_rem@[j as int]) by {
            vstd::arithmetic::div_mod::lemma_fundamental_div_mod(before * factor, ONE as int);
        }
        rest = rest / 32;
        j = j + 1;
    }
    proof {
        lemma_window_chain_bound(rem as nat, 5);
        lemma_years(value as nat, times as nat);
        lemma_final_product(shift.shifted as nat, f@[5] as nat);
    }
    let x: u128 = shift.shifted * f[5] + HALF;
    WindowedTrace {
        times,
        rem,
        shift,
        digits,
        factors,
        f,
        f_rem,
        result: (x / ONE) as u64,
        round_rem: (x % ONE) as u64,
    }
}

/// What `value` is worth after `duration` seconds, with the window chain.
pub fn decay_windowed(value: u64, duration: u64) -> (r: u64)
    requires
        value < 0x8000_0000_0000_0000,
    ensures
        r as nat == decayed_windowed(value as nat, duration as nat),
{
    windowed_trace(value, duration).result
}

// -------------------------------------------------------------------------------------- laws

/// Nothing gains value by waiting, whichever chain is used.
pub proof fn decay_never_increases(value: nat, duration: nat)
    requires
        value < 0x8000_0000_0000_0000,
    ensures
        decayed(value, duration) <= value,
        decayed_windowed(value, duration) <= value,
{
    let rem = duration % (SECONDS_PER_YEAR as nat);
    lemma_years(value, duration / (SECONDS_PER_YEAR as nat));
    lemma_factor_chain_bound(rem, 0, 25);
    lemma_window_chain_bound(rem, 5);
    lemma_final_product(years_decayed(value, duration), factor_chain(rem, 0, 25));
    lemma_final_product(years_decayed(value, duration), window_chain(rem, 5));
}

/// After whole years the value is exactly halved that often, rounded down.
pub proof fn whole_years_halve(value: nat, years: nat)
    requires
        value < 0x8000_0000_0000_0000,
    ensures
        years < 63 ==> decayed(value, years * SECONDS_PER_YEAR as nat) == value / pow2(years),
        years < 63 ==> decayed_windowed(value, years * SECONDS_PER_YEAR as nat) == value / pow2(years),
        years >= 63 ==> decayed(value, years * SECONDS_PER_YEAR as nat) == 0,
        years >= 63 ==> decayed_windowed(value, years * SECONDS_PER_YEAR as nat) == 0,
{
    let duration = years * SECONDS_PER_YEAR as nat;
    assert(duration / (SECONDS_PER_YEAR as nat) == years);
    assert(duration % (SECONDS_PER_YEAR as nat) == 0);
    lemma_zero_chain(0, 25);
    lemma_zero_windows(5);
    let shifted = years_decayed(value, duration);
    assert((shifted * ONE + HALF) / (ONE as int) == shifted) by (nonlinear_arith)
        requires
            ONE == 0x1_0000_0000_0000_0000u128,
            HALF == 0x8000_0000_0000_0000u128,
    ;
}

/// A note spent at once is worth what it was created with.
pub proof fn no_time_no_decay(value: nat)
    requires
        value < 0x8000_0000_0000_0000,
    ensures
        decayed(value, 0) == value,
        decayed_windowed(value, 0) == value,
{
    whole_years_halve(value, 0);
    lemma_no_shift(value);
}

/// After 63 years nothing is left.
pub proof fn nothing_left_after_63_years(value: nat, duration: nat)
    requires
        duration >= 63 * SECONDS_PER_YEAR,
    ensures
        decayed(value, duration) == 0,
        decayed_windowed(value, duration) == 0,
{
    assert(duration / (SECONDS_PER_YEAR as nat) >= 63);
    let rem = duration % (SECONDS_PER_YEAR as nat);
    assert(0 * factor_chain(rem, 0, 25) == 0 && 0 * window_chain(rem, 5) == 0)
        by (nonlinear_arith);
}

/// More value decays to no less.
pub proof fn decay_is_monotone(low: nat, high: nat, duration: nat)
    requires
        low <= high,
    ensures
        decayed(low, duration) <= decayed(high, duration),
        decayed_windowed(low, duration) <= decayed_windowed(high, duration),
{
    let times = duration / (SECONDS_PER_YEAR as nat);
    let rem = duration % (SECONDS_PER_YEAR as nat);
    lemma_pow2_pos(times);
    vstd::arithmetic::div_mod::lemma_div_is_ordered(low as int, high as int, pow2(times) as int);
    let a = years_decayed(low, duration);
    let b = years_decayed(high, duration);
    lemma_rounded_monotone(a, b, factor_chain(rem, 0, 25), factor_chain(rem, 0, 25));
    lemma_rounded_monotone(a, b, window_chain(rem, 5), window_chain(rem, 5));
}

proof fn lemma_rounded_monotone(a: nat, b: nat, f: nat, g: nat)
    requires
        a <= b,
        f <= g,
    ensures
        rounded(a, f) <= rounded(b, g),
{
    assert(a * f <= b * g) by (nonlinear_arith)
        requires
            a <= b,
            f <= g,
    ;
    vstd::arithmetic::div_mod::lemma_div_is_ordered(a * f + HALF, b * g + HALF, ONE as int);
}

proof fn lemma_zero_bits(i: nat)
    ensures
        !bit(0, i),
{
    lemma_pow2_pos(i);
    assert(0nat / pow2(i) == 0) by (nonlinear_arith)
        requires
            pow2(i) > 0,
    ;
}

proof fn lemma_zero_chain(first: nat, n: nat)
    ensures
        factor_chain(0, first, n) == ONE,
    decreases n,
{
    if n > 0 {
        lemma_zero_chain(first, (n - 1) as nat);
        lemma_zero_bits((n - 1) as nat);
    }
}

proof fn lemma_zero_windows(n: nat)
    ensures
        window_chain(0, n) == ONE,
    decreases n,
{
    if n > 0 {
        lemma_zero_windows((n - 1) as nat);
        let j = (n - 1) as nat;
        lemma_pow2_pos(5 * j);
        assert(0nat / pow2(5 * j) == 0) by (nonlinear_arith)
            requires
                pow2(5 * j) > 0,
        ;
        lemma_zero_chain(5 * j, 5);
        assert(q64_product(ONE as nat, ONE as nat) == ONE);
    }
}

/// `2^(64 n)`.
spec fn scale(n: nat) -> nat
    decreases n,
{
    if n == 0 {
        1
    } else {
        scale((n - 1) as nat) * ONE as nat
    }
}

/// The factor of the first `n` bits without any truncation, times `2^(64 n)`.
spec fn exact_factor(digit: nat, first: nat, n: nat) -> nat
    decreases n,
{
    if n == 0 {
        1
    } else {
        exact_factor(digit, first, (n - 1) as nat) * (if bit(digit, (n - 1) as nat) {
            DECAY_POWERS[first + n - 1] as nat
        } else {
            ONE as nat
        })
    }
}

proof fn lemma_scale_adds(a: nat, b: nat)
    ensures
        scale(a + b) == scale(a) * scale(b),
    decreases b,
{
    if b == 0 {
        assert(scale(a) * 1 == scale(a));
    } else {
        lemma_scale_adds(a, (b - 1) as nat);
        let x = scale(a);
        let y = scale((b - 1) as nat);
        assert((x * y) * ONE == x * (y * ONE)) by (nonlinear_arith);
    }
}

proof fn lemma_exact_at_most_scale(digit: nat, first: nat, n: nat)
    requires
        first + n <= 25,
    ensures
        exact_factor(digit, first, n) <= scale(n),
    decreases n,
{
    if n > 0 {
        lemma_exact_at_most_scale(digit, first, (n - 1) as nat);
        let x = exact_factor(digit, first, (n - 1) as nat);
        let y = scale((n - 1) as nat);
        let p = if bit(digit, (n - 1) as nat) {
            DECAY_POWERS[first + n - 1] as nat
        } else {
            ONE as nat
        };
        assert(x * p <= y * ONE) by (nonlinear_arith)
            requires
                x <= y,
                p <= ONE,
        ;
    }
}

/// The bit chain loses less than one unit per step.
proof fn lemma_chain_error(digit: nat, first: nat, n: nat)
    requires
        first + n <= 25,
    ensures
        factor_chain(digit, first, n) * scale(n) <= ONE * exact_factor(digit, first, n),
        ONE * exact_factor(digit, first, n) <= (factor_chain(digit, first, n) + n) * scale(n),
    decreases n,
{
    if n > 0 {
        let m = (n - 1) as nat;
        lemma_chain_error(digit, first, m);
        let f = factor_chain(digit, first, m);
        let s = scale(m);
        let x = exact_factor(digit, first, m);
        let one = ONE as nat;
        if bit(digit, m) {
            let p = DECAY_POWERS[first + n - 1] as nat;
            let g = q64_product(f, p);
            vstd::arithmetic::div_mod::lemma_fundamental_div_mod((f * p) as int, one as int);
            assert(g * one <= f * p < (g + 1) * one) by (nonlinear_arith)
                requires
                    f * p == one * g + (f * p) % one,
                    0 <= (f * p) % one < one,
            ;
            assert(g * (s * one) <= one * (x * p)) by (nonlinear_arith)
                requires
                    g * one <= f * p,
                    f * s <= one * x,
                    p >= 0,
                    s >= 0,
            ;
            assert((one * x) * p <= ((f + m) * s) * p) by (nonlinear_arith)
                requires
                    one * x <= (f + m) * s,
            ;
            assert(((f + m) * s) * p == (f * p) * s + (m * p) * s) by (nonlinear_arith);
            assert((f * p) * s <= ((g + 1) * one) * s) by (nonlinear_arith)
                requires
                    f * p < (g + 1) * one,
            ;
            assert((m * p) * s <= (m * one) * s) by (nonlinear_arith)
                requires
                    p <= one,
            ;
            assert(((g + 1) * one) * s + (m * one) * s == (g + n) * (s * one)) by (nonlinear_arith)
                requires
                    n == m + 1,
            ;
            assert(one * (x * p) == (one * x) * p) by (nonlinear_arith);
        } else {
            assert(f * (s * one) <= one * (x * one)) by (nonlinear_arith)
                requires
                    f * s <= one * x,
                    one >= 0,
            ;
            assert(one * (x * one) <= (f + n) * (s * one)) by (nonlinear_arith)
                requires
                    one * x <= (f + m) * s,
                    n == m + 1,
                    s >= 0,
                    one >= 0,
            ;
        }
    } else {
        assert(ONE * 1 <= (ONE + 0) * 1);
    }
}

/// The bits of a window are the bits of its digit.
proof fn lemma_window_bit(rem: nat, j: nat, i: nat)
    requires
        i < 5,
    ensures
        bit(rem, 5 * j + i) == bit(window_digit(rem, j), i),
{
    let m = rem / pow2(5 * j);
    lemma_pow2_pos(5 * j);
    lemma_pow2_pos(i);
    vstd::arithmetic::power2::lemma_pow2_adds(5 * j, i);
    vstd::arithmetic::div_mod::lemma_div_denominator(rem as int, pow2(5 * j) as int, pow2(i) as int);
    assert(rem / pow2(5 * j + i) == m / pow2(i));
    let d = m % 32;
    vstd::arithmetic::power2::lemma2_to64();
    assert((m / pow2(i)) % 2 == (d / pow2(i)) % 2) by {
        let h = m / 32;
        assert(m == 32 * h + d);
        if i == 0 {
            lemma_no_shift(m);
            lemma_no_shift(d);
        } else if i == 1 {
            assert(m / 2 == 16 * h + d / 2);
        } else if i == 2 {
            assert(m / 4 == 8 * h + d / 4);
        } else if i == 3 {
            assert(m / 8 == 4 * h + d / 8);
        } else {
            assert(i == 4);
            assert(m / 16 == 2 * h + d / 16);
        }
    }
}

proof fn lemma_exact_splits(rem: nat, j: nat, n: nat)
    requires
        n <= 5,
        j < 5,
    ensures
        exact_factor(rem, 0, 5 * j + n) == exact_factor(rem, 0, 5 * j) * exact_factor(
            window_digit(rem, j),
            5 * j,
            n,
        ),
    decreases n,
{
    if n > 0 {
        let m = (n - 1) as nat;
        lemma_exact_splits(rem, j, m);
        lemma_window_bit(rem, j, m);
        let a = exact_factor(rem, 0, 5 * j);
        let b = exact_factor(window_digit(rem, j), 5 * j, m);
        let p = if bit(rem, 5 * j + m) {
            DECAY_POWERS[5 * j + n - 1] as nat
        } else {
            ONE as nat
        };
        assert((5 * j + n - 1) as nat == 5 * j + m);
        assert((a * b) * p == a * (b * p)) by (nonlinear_arith);
    } else {
        assert(exact_factor(rem, 0, 5 * j) * 1 == exact_factor(rem, 0, 5 * j));
    }
}

/// The window chain loses at most six units per window.
proof fn lemma_window_error(rem: nat, n: nat)
    requires
        n <= 5,
    ensures
        window_chain(rem, n) * scale(5 * n) <= ONE * exact_factor(rem, 0, 5 * n),
        ONE * exact_factor(rem, 0, 5 * n) <= (window_chain(rem, n) + 6 * n) * scale(5 * n),
    decreases n,
{
    if n > 0 {
        let j = (n - 1) as nat;
        lemma_window_error(rem, j);
        let d = window_digit(rem, j);
        lemma_chain_error(d, 5 * j, 5);
        lemma_exact_splits(rem, j, 5);
        lemma_scale_adds(5 * j, 5);
        lemma_exact_at_most_scale(rem, 0, 5 * j);
        lemma_factor_chain_bound(d, 5 * j, 5);
        assert(5 * n == 5 * j + 5);
        let one = ONE as nat;
        let g = window_chain(rem, j);
        let t = window_factor(j, d);
        let h = q64_product(g, t);
        vstd::arithmetic::div_mod::lemma_fundamental_div_mod((g * t) as int, one as int);
        assert(h * one <= g * t < (h + 1) * one) by (nonlinear_arith)
            requires
                g * t == one * h + (g * t) % one,
                0 <= (g * t) % one < one,
        ;
        lemma_window_step(
            one,
            g,
            t,
            h,
            scale(5 * j),
            scale(5),
            exact_factor(rem, 0, 5 * j),
            exact_factor(d, 5 * j, 5),
            6 * j,
        );
    } else {
        assert(ONE * 1 <= (ONE + 0) * 1);
    }
}

proof fn lemma_window_step(
    one: nat,
    g: nat,
    t: nat,
    h: nat,
    s: nat,
    s5: nat,
    y: nat,
    w: nat,
    c: nat,
)
    requires
        one > 0,
        t <= one,
        h * one <= g * t < (h + 1) * one,
        g * s <= one * y,
        one * y <= (g + c) * s,
        y <= s,
        t * s5 <= one * w,
        one * w <= (t + 5) * s5,
    ensures
        h * (s * s5) <= one * (y * w),
        one * (y * w) <= (h + c + 6) * (s * s5),
{
    assert((g * s) * (t * s5) <= (one * y) * (one * w)) by (nonlinear_arith)
        requires
            g * s <= one * y,
            t * s5 <= one * w,
            g * s >= 0,
            t * s5 >= 0,
    ;
    assert(one * (h * (s * s5)) <= one * (one * (y * w))) by (nonlinear_arith)
        requires
            (g * s) * (t * s5) <= (one * y) * (one * w),
            h * one <= g * t,
            s >= 0,
            s5 >= 0,
    {
        assert((g * t) * (s * s5) == (g * s) * (t * s5));
        assert((h * one) * (s * s5) <= (g * t) * (s * s5));
        assert((one * y) * (one * w) == one * (one * (y * w)));
        assert((h * one) * (s * s5) == one * (h * (s * s5)));
    }
    assert(h * (s * s5) <= one * (y * w)) by (nonlinear_arith)
        requires
            one * (h * (s * s5)) <= one * (one * (y * w)),
            one > 0,
    ;
    let big = s * s5;
    assert(one * (one * (y * w)) <= one * ((h + c + 6) * big)) by {
        assert((one * y) * (one * w) <= (one * y) * ((t + 5) * s5)) by (nonlinear_arith)
            requires
                one * w <= (t + 5) * s5,
                one * y >= 0,
        ;
        assert((one * y) * ((t + 5) * s5) == (one * y) * t * s5 + 5 * one * (y * s5))
            by (nonlinear_arith);
        assert((one * y) * t * s5 <= (g + c) * s * t * s5) by (nonlinear_arith)
            requires
                one * y <= (g + c) * s,
                t >= 0,
                s5 >= 0,
        ;
        assert((g + c) * s * t * s5 == (g * t) * big + (c * t) * big) by (nonlinear_arith)
            requires
                big == s * s5,
        ;
        assert((g * t) * big <= ((h + 1) * one) * big) by (nonlinear_arith)
            requires
                g * t < (h + 1) * one,
                big >= 0,
        ;
        assert((c * t) * big <= (c * one) * big) by (nonlinear_arith)
            requires
                t <= one,
                c >= 0,
                big >= 0,
        ;
        assert(5 * one * (y * s5) <= (5 * one) * big) by (nonlinear_arith)
            requires
                y <= s,
                big == s * s5,
                s5 >= 0,
                one >= 0,
        ;
        assert(((h + 1) * one) * big + (c * one) * big + (5 * one) * big == one * ((h + c + 6)
            * big)) by (nonlinear_arith);
        assert((one * y) * (one * w) == one * (one * (y * w))) by (nonlinear_arith);
    }
    assert(one * (y * w) <= (h + c + 6) * big) by (nonlinear_arith)
        requires
            one * (one * (y * w)) <= one * ((h + c + 6) * big),
            one > 0,
    ;
}

/// The two chains never differ by more than 15 units, and below `2^59` units by at most one.
pub proof fn windowed_decay_stays_close(value: nat, duration: nat)
    requires
        value < 0x8000_0000_0000_0000,
    ensures
        decayed_windowed(value, duration) <= decayed(value, duration) + 15,
        decayed(value, duration) <= decayed_windowed(value, duration) + 15,
        value < 0x800_0000_0000_0000 ==> decayed_windowed(value, duration) <= decayed(
            value,
            duration,
        ) + 1,
        value < 0x800_0000_0000_0000 ==> decayed(value, duration) <= decayed_windowed(
            value,
            duration,
        ) + 1,
{
    let rem = duration % (SECONDS_PER_YEAR as nat);
    let f = factor_chain(rem, 0, 25);
    let g = window_chain(rem, 5);
    lemma_chain_error(rem, 0, 25);
    lemma_window_error(rem, 5);
    let s = scale(25);
    lemma_scale_positive(25);
    let e = ONE * exact_factor(rem, 0, 25);
    assert(g <= f + 25) by (nonlinear_arith)
        requires
            g * s <= e,
            e <= (f + 25) * s,
            s > 0,
    ;
    assert(f <= g + 30) by (nonlinear_arith)
        requires
            f * s <= e,
            e <= (g + 30) * s,
            s > 0,
    ;
    let a = years_decayed(value, duration);
    lemma_years(value, duration / (SECONDS_PER_YEAR as nat));
    lemma_rounded_close(a, f, g);
    lemma_rounded_close(a, g, f);
}

proof fn lemma_scale_positive(n: nat)
    ensures
        scale(n) > 0,
    decreases n,
{
    if n > 0 {
        lemma_scale_positive((n - 1) as nat);
    }
}

proof fn lemma_rounded_close(a: nat, f: nat, g: nat)
    requires
        a < 0x8000_0000_0000_0000,
        f <= g + 30,
    ensures
        rounded(a, f) <= rounded(a, g) + 15,
        a < 0x800_0000_0000_0000 ==> rounded(a, f) <= rounded(a, g) + 1,
{
    if a < 0x800_0000_0000_0000 {
        assert(a * f + HALF <= a * g + HALF + ONE) by (nonlinear_arith)
            requires
                a < 0x800_0000_0000_0000,
                f <= g + 30,
                ONE == 0x1_0000_0000_0000_0000u128,
        ;
        vstd::arithmetic::div_mod::lemma_div_is_ordered(
            a * f + HALF,
            a * g + HALF + ONE,
            ONE as int,
        );
        assert((a * g + HALF + ONE) / (ONE as int) == (a * g + HALF) / (ONE as int) + 1);
    }
    assert(a * f + HALF <= a * g + HALF + 15 * ONE) by (nonlinear_arith)
        requires
            a < 0x8000_0000_0000_0000,
            f <= g + 30,
            ONE == 0x1_0000_0000_0000_0000u128,
    ;
    vstd::arithmetic::div_mod::lemma_div_is_ordered(
        a * f + HALF,
        a * g + HALF + 15 * ONE,
        ONE as int,
    );
    assert((a * g + HALF + 15 * ONE) / (ONE as int) == (a * g + HALF) / (ONE as int) + 15);
}

// ------------------------------------------------------------------------ longer and shorter

/// The factor of `n` set bits, starting with the power at `first`.
spec fn full_chain(first: nat, n: nat) -> nat
    decreases n,
{
    if n == 0 {
        ONE as nat
    } else {
        q64_product(full_chain(first, (n - 1) as nat), DECAY_POWERS[first + n - 1] as nat)
    }
}

/// One more set bit.
proof fn lemma_full_step(first: nat, n: nat, before: nat, power: nat, after: nat)
    requires
        first + n < 25,
        full_chain(first, n) == before,
        DECAY_POWERS[(first + n) as int] == power,
        after * ONE <= before * power < (after + 1) * ONE,
    ensures
        full_chain(first, n + 1) == after,
{
    let r = before * power - after * ONE;
    vstd::arithmetic::div_mod::lemma_fundamental_div_mod_converse(
        (before * power) as int,
        ONE as int,
        after as int,
        r,
    );
}

/// One power decays more than all smaller ones together, by far more than truncation loses.
proof fn lemma_powers_fall(first: nat, n: nat)
    requires
        first == 0 && n < 25 || (first == 5 || first == 10 || first == 15 || first == 20) && n < 5,
    ensures
        DECAY_POWERS[(first + n) as int] + 0x200_0000 <= full_chain(first, n),
{
    if first == 0 {
        lemma_full_step(0, 0, 18446744073709551616, 18446743668527564940, 18446743668527564940);
        lemma_full_step(0, 1, 18446743668527564940, 18446743263345587163, 18446742858163618286);
        lemma_full_step(0, 2, 18446742858163618286, 18446742452981658309, 18446741237435831776);
        lemma_full_step(0, 3, 18446741237435831776, 18446740832253907398, 18446737995980685947);
        lemma_full_step(0, 4, 18446737995980685947, 18446737590798832767, 18446731513072103050);
        lemma_full_step(0, 5, 18446731513072103050, 18446731107890392267, 18446718547261772302);
        lemma_full_step(0, 6, 18446718547261772302, 18446718142080346313, 18446692615668450967);
        lemma_full_step(0, 7, 18446692615668450967, 18446692210487594564, 18446640752591168758);
        lemma_full_step(0, 8, 18446640752591168758, 18446640347411451525, 18446537026874044750);
        lemma_full_step(0, 9, 18446537026874044750, 18446536621696605848, 18446329577189546898);
        lemma_full_step(0, 10, 18446329577189546898, 18446329172016664620, 18445914684819460021);
        lemma_full_step(0, 11, 18445914684819460021, 18445914279655690837, 18445084928074186957);
        lemma_full_step(0, 12, 18445084928074186957, 18445084522928643346, 18443425526557366908);
        lemma_full_step(0, 13, 18443425526557366908, 18443425121448271984, 18440107171371621630);
        lemma_full_step(0, 14, 18440107171371621630, 18440106766335414243, 18433472252015697821);
        lemma_full_step(0, 15, 18433472252015697821, 18433471847125226169, 18420209574359031572);
        lemma_full_step(0, 16, 18420209574359031572, 18420209169759874097, 18393712839225965018);
        lemma_full_step(0, 17, 18393712839225965018, 18393712435208807257, 18340833657616536776);
        lemma_full_step(0, 18, 18340833657616536776, 18340833254760868098, 18235530916649462688);
        lemma_full_step(0, 19, 18235530916649462688, 18235530516106764452, 18026735730664827786);
        lemma_full_step(0, 20, 18026735730664827786, 18026735334708307356, 17616290043757076458);
        lemma_full_step(0, 21, 17616290043757076458, 17616289656815978922, 16823221856891164908);
        lemma_full_step(0, 22, 16823221856891164908, 16823221487369777986, 15342587629488710137);
        lemma_full_step(0, 23, 15342587629488710137, 15342587292489394070, 12760787977407096879);
    }
    if first == 5 {
        lemma_full_step(5, 0, 18446744073709551616, 18446731107890392267, 18446731107890392267);
        lemma_full_step(5, 1, 18446731107890392267, 18446718142080346313, 18446705176279413747);
        lemma_full_step(5, 2, 18446705176279413747, 18446692210487594564, 18446653313166817243);
        lemma_full_step(5, 3, 18446653313166817243, 18446640347411451525, 18446549587379064944);
    }
    if first == 10 {
        lemma_full_step(10, 0, 18446744073709551616, 18446329172016664620, 18446329172016664620);
        lemma_full_step(10, 1, 18446329172016664620, 18445914279655690837, 18445499396626420375);
        lemma_full_step(10, 2, 18445499396626420375, 18445084522928643346, 18443839957822174058);
        lemma_full_step(10, 3, 18443839957822174058, 18443425121448271984, 18440521528071639569);
    }
    if first == 15 {
        lemma_full_step(15, 0, 18446744073709551616, 18433471847125226169, 18433471847125226169);
        lemma_full_step(15, 1, 18433471847125226169, 18420209169759874097, 18406956034742938873);
        lemma_full_step(15, 2, 18406956034742938873, 18393712435208807257, 18354038780921176327);
        lemma_full_step(15, 3, 18354038780921176327, 18340833254760868098, 18248660223570575459);
    }
    if first == 20 {
        lemma_full_step(20, 0, 18446744073709551616, 18026735334708307356, 18026735334708307356);
        lemma_full_step(20, 1, 18026735334708307356, 17616289656815978922, 17215189301377912781);
        lemma_full_step(20, 2, 17215189301377912781, 16823221487369777986, 15700057495611963861);
        lemma_full_step(20, 3, 15700057495611963861, 15342587292489394070, 13058104002582894116);
    }
}

/// A power keeps more than half.
proof fn lemma_power_is_large(i: int)
    requires
        0 <= i < 25,
    ensures
        DECAY_POWERS[i] >= HALF,
{
}

/// A difference is at most halved by one multiplication.
proof fn lemma_product_keeps_order(x: nat, y: nat, p: nat, gap: nat)
    requires
        x + 2 * gap <= y,
        p >= HALF,
    ensures
        q64_product(x, p) + gap <= q64_product(y, p),
{
    assert(x * p + gap * ONE <= y * p) by (nonlinear_arith)
        requires
            x + 2 * gap <= y,
            p >= HALF,
            ONE == 0x1_0000_0000_0000_0000u128,
            HALF == 0x8000_0000_0000_0000u128,
    ;
    vstd::arithmetic::div_mod::lemma_hoist_over_denominator(
        (x * p) as int,
        gap as int,
        ONE as nat,
    );
    vstd::arithmetic::div_mod::lemma_div_is_ordered(
        x * p + gap * ONE,
        (y * p) as int,
        ONE as int,
    );
}

/// The low bits of an integer, one bit further.
proof fn lemma_one_more_bit(d: nat, m: nat)
    ensures
        pow2(m) > 0,
        pow2(m + 1) == 2 * pow2(m),
        d % pow2(m) < pow2(m),
        d % pow2(m + 1) == d % pow2(m) + (if bit(d, m) {
            pow2(m)
        } else {
            0
        }),
{
    lemma_pow2_pos(m);
    lemma_pow2_unfold(m + 1);
    let p = pow2(m) as int;
    vstd::arithmetic::div_mod::lemma_mod_breakdown(d as int, p, 2);
    assert(p * 2 == pow2(m + 1));
    let b = (d as int / p) % 2;
    assert(p * 0 == 0 && p * 1 == p);
    assert(b == 0 || b == 1);
}

proof fn lemma_ones_chain(d: nat, first: nat, n: nat)
    requires
        d % pow2(n) == pow2(n) - 1,
    ensures
        factor_chain(d, first, n) == full_chain(first, n),
    decreases n,
{
    if n > 0 {
        let m = (n - 1) as nat;
        lemma_one_more_bit(d, m);
        lemma_ones_chain(d, first, m);
    }
}

proof fn lemma_clear_chain(d: nat, first: nat, n: nat)
    requires
        d % pow2(n) == 0,
    ensures
        factor_chain(d, first, n) == ONE,
    decreases n,
{
    if n > 0 {
        let m = (n - 1) as nat;
        lemma_one_more_bit(d, m);
        lemma_clear_chain(d, first, m);
    }
}

/// One second more, and the factor falls.
proof fn lemma_factor_falls(d: nat, first: nat, n: nat)
    requires
        first == 0 && n <= 25 || (first == 5 || first == 10 || first == 15 || first == 20) && n <= 5,
        d % pow2(n) + 1 < pow2(n),
    ensures
        factor_chain(d + 1, first, n) + pow2((25 - n) as nat) <= factor_chain(d, first, n),
    decreases n,
{
    if n == 0 {
        vstd::arithmetic::power2::lemma2_to64();
    } else {
        let m = (n - 1) as nat;
        let p = pow2(m) as int;
        lemma_one_more_bit(d, m);
        lemma_pow2_unfold((25 - m) as nat);
        lemma_pow2_pos((25 - n) as nat);
        vstd::arithmetic::div_mod::lemma_fundamental_div_mod(d as int, p);
        let q = d as int / p;
        let r = d as int % p;
        assert(p * q == q * p) by (nonlinear_arith);
        assert(p * (q + 1) == p * q + p) by (nonlinear_arith);
        assert(p * (q + 1) == (q + 1) * p) by (nonlinear_arith);
        if r + 1 < p {
            lemma_factor_falls(d, first, m);
            vstd::arithmetic::div_mod::lemma_fundamental_div_mod_converse(d as int + 1, p, q, r + 1);
            assert(bit(d + 1, m) == bit(d, m));
            if bit(d, m) {
                lemma_power_is_large((first + m) as int);
                lemma_product_keeps_order(
                    factor_chain(d + 1, first, m),
                    factor_chain(d, first, m),
                    DECAY_POWERS[(first + m) as int] as nat,
                    pow2((25 - n) as nat),
                );
            }
        } else {
            vstd::arithmetic::div_mod::lemma_fundamental_div_mod_converse(d as int + 1, p, q + 1, 0);
            lemma_ones_chain(d, first, m);
            lemma_clear_chain(d + 1, first, m);
            assert(!bit(d, m));
            assert(bit(d + 1, m));
            lemma_product_with_one(DECAY_POWERS[(first + m) as int] as nat);
            lemma_powers_fall(first, m);
            assert(pow2((25 - n) as nat) <= 0x200_0000) by {
                vstd::arithmetic::power2::lemma2_to64();
                if n > 0 {
                    lemma_pow2_strictly_increases((25 - n) as nat, 25);
                }
            }
        }
    }
}

proof fn lemma_product_with_one(f: nat)
    ensures
        q64_product(ONE as nat, f) == f,
        q64_product(f, ONE as nat) == f,
{
    assert((ONE * f) / (ONE as int) == f && (f * ONE) / (ONE as int) == f) by (nonlinear_arith)
        requires
            ONE == 0x1_0000_0000_0000_0000u128,
    ;
}

/// A factor is never zero.
proof fn lemma_factor_is_positive(d: nat, first: nat, n: nat)
    requires
        first + n <= 25,
    ensures
        factor_chain(d, first, n) >= pow2((64 - n) as nat),
    decreases n,
{
    if n == 0 {
        vstd::arithmetic::power2::lemma2_to64();
    } else {
        let m = (n - 1) as nat;
        lemma_factor_is_positive(d, first, m);
        lemma_pow2_unfold((64 - m) as nat);
        lemma_power_is_large((first + m) as int);
        let p = DECAY_POWERS[(first + m) as int] as nat;
        assert(0 * p == 0);
        lemma_product_keeps_order(
            0,
            factor_chain(d, first, m),
            p,
            pow2((64 - n) as nat),
        );
    }
}

/// One step of the chain with a set bit.
proof fn lemma_set_step(d: nat, n: nat, before: nat, power: nat, after: nat)
    requires
        n < 25,
        factor_chain(d, 0, n) == before,
        (d / pow2(n)) % 2 == 1,
        DECAY_POWERS[n as int] == power,
        after * ONE <= before * power < (after + 1) * ONE,
    ensures
        factor_chain(d, 0, n + 1) == after,
{
    let r = before * power - after * ONE;
    vstd::arithmetic::div_mod::lemma_fundamental_div_mod_converse(
        (before * power) as int,
        ONE as int,
        after as int,
        r,
    );
}

/// One step of the chain with a clear bit.
proof fn lemma_clear_step(d: nat, n: nat, before: nat)
    requires
        n < 25,
        factor_chain(d, 0, n) == before,
        (d / pow2(n)) % 2 == 0,
    ensures
        factor_chain(d, 0, n + 1) == before,
{
}

/// The last second of a year still keeps half.
proof fn lemma_last_second_keeps_half()
    ensures
        factor_chain(31_556_951, 0, 25) >= HALF,
        factor_chain(31_556_951, 0, 25) <= HALF + 0x40_0000_0000,
{
    vstd::arithmetic::power2::lemma2_to64();
    lemma_no_shift(31_556_951);
    lemma_set_step(31_556_951, 0, 18446744073709551616, 18446743668527564940, 18446743668527564940);
    lemma_set_step(31_556_951, 1, 18446743668527564940, 18446743263345587163, 18446742858163618286);
    lemma_set_step(31_556_951, 2, 18446742858163618286, 18446742452981658309, 18446741237435831776);
    lemma_clear_step(31_556_951, 3, 18446741237435831776);
    lemma_set_step(31_556_951, 4, 18446741237435831776, 18446737590798832767, 18446734754526109705);
    lemma_clear_step(31_556_951, 5, 18446734754526109705);
    lemma_set_step(31_556_951, 6, 18446734754526109705, 18446718142080346313, 18446708822910004904);
    lemma_clear_step(31_556_951, 7, 18446708822910004904);
    lemma_set_step(31_556_951, 8, 18446708822910004904, 18446640347411451525, 18446605096810120548);
    lemma_clear_step(31_556_951, 9, 18446605096810120548);
    lemma_set_step(31_556_951, 10, 18446605096810120548, 18446329172016664620, 18446190198243083328);
    lemma_clear_step(31_556_951, 11, 18446190198243083328);
    lemma_clear_step(31_556_951, 12, 18446190198243083328);
    lemma_clear_step(31_556_951, 13, 18446190198243083328);
    lemma_clear_step(31_556_951, 14, 18446190198243083328);
    lemma_set_step(31_556_951, 15, 18446190198243083328, 18433471847125226169, 18432918370165977425);
    lemma_set_step(31_556_951, 16, 18432918370165977425, 18420209169759874097, 18406403353938171014);
    lemma_clear_step(31_556_951, 17, 18406403353938171014);
    lemma_clear_step(31_556_951, 18, 18406403353938171014);
    lemma_clear_step(31_556_951, 19, 18406403353938171014);
    lemma_clear_step(31_556_951, 20, 18406403353938171014);
    lemma_set_step(31_556_951, 21, 18406403353938171014, 17616289656815978922, 17577765036882105957);
    lemma_set_step(31_556_951, 22, 17577765036882105957, 16823221487369777986, 16030722456320470357);
    lemma_set_step(31_556_951, 23, 16030722456320470357, 15342587292489394070, 13333125762735585883);
    lemma_set_step(31_556_951, 24, 13333125762735585883, 12760787697116905635, 9223372239424913728);
}

/// One second more decays to no more.
proof fn lemma_next_second(value: nat, duration: nat)
    ensures
        decayed(value, duration + 1) <= decayed(value, duration),
{
    let year = SECONDS_PER_YEAR as nat;
    let t = duration / year;
    let rem = duration % year;
    let a = years_decayed(value, duration);
    let f = factor_chain(rem, 0, 25);
    vstd::arithmetic::power2::lemma2_to64();
    if rem + 1 < year {
        assert((duration + 1) / year == t && (duration + 1) % year == rem + 1);
        vstd::arithmetic::div_mod::lemma_small_mod(rem, pow2(25));
        lemma_factor_falls(rem, 0, 25);
        lemma_rounded_monotone(a, a, factor_chain(rem + 1, 0, 25), f);
    } else {
        assert((duration + 1) / year == t + 1 && (duration + 1) % year == 0);
        lemma_zero_chain(0, 25);
        lemma_last_second_keeps_half();
        let b = years_decayed(value, duration + 1);
        assert(2 * b <= a) by {
            lemma_next_bit(value, t);
        }
        assert(rounded(b, ONE as nat) == b) by (nonlinear_arith)
            requires
                rounded(b, ONE as nat) == (b * ONE + HALF) / (ONE as int),
                ONE == 0x1_0000_0000_0000_0000u128,
                HALF == 0x8000_0000_0000_0000u128,
        ;
        lemma_rounded_monotone(a, a, HALF as nat, f);
        assert(b <= rounded(a, HALF as nat)) by {
            assert(a * HALF + HALF >= b * ONE) by (nonlinear_arith)
                requires
                    2 * b <= a,
                    ONE == 0x1_0000_0000_0000_0000u128,
                    HALF == 0x8000_0000_0000_0000u128,
            ;
            vstd::arithmetic::div_mod::lemma_div_is_ordered(
                b * ONE,
                a * HALF + HALF,
                ONE as int,
            );
            assert((b * ONE) / (ONE as int) == b);
        }
    }
}

/// Waiting longer never increases the value, also across the end of a year.
pub proof fn waiting_longer_never_increases(value: nat, shorter: nat, longer: nat)
    requires
        shorter <= longer,
    ensures
        decayed(value, longer) <= decayed(value, shorter),
    decreases longer - shorter,
{
    if shorter < longer {
        waiting_longer_never_increases(value, shorter, (longer - 1) as nat);
        lemma_next_second(value, (longer - 1) as nat);
    }
}

/// Within a year, a value is kept exactly when it loses no more than half a unit.
pub proof fn half_a_unit_is_not_lost(value: nat, duration: nat)
    requires
        duration < SECONDS_PER_YEAR,
    ensures
        decayed(value, duration) == value <==> value * (ONE - factor_chain(duration, 0, 25))
            <= HALF,
{
    let f = factor_chain(duration, 0, 25);
    lemma_factor_chain_bound(duration, 0, 25);
    vstd::arithmetic::div_mod::lemma_small_mod(duration, SECONDS_PER_YEAR as nat);
    vstd::arithmetic::div_mod::lemma_basic_div(duration as int, SECONDS_PER_YEAR as int);
    lemma_no_shift(value);
    let x = value * f + HALF;
    assert(value * (ONE - f) == value * ONE - value * f) by (nonlinear_arith);
    assert(value * f <= value * ONE) by (nonlinear_arith)
        requires
            f <= ONE,
    ;
    vstd::arithmetic::div_mod::lemma_fundamental_div_mod(x, ONE as int);
    assert(x / (ONE as int) == value <==> value * ONE <= x) by (nonlinear_arith)
        requires
            x == ONE * (x / (ONE as int)) + x % (ONE as int),
            0 <= x % (ONE as int) < ONE,
            x <= value * ONE + HALF,
            ONE == 0x1_0000_0000_0000_0000u128,
            HALF == 0x8000_0000_0000_0000u128,
    ;
}

// ---------------------------------------------------------------------------------- one window

/// With one window that is not zero, the bit chain is the factor of that window.
proof fn lemma_one_window_of_bits(rem: nat, j: nat, k: nat, n: nat)
    requires
        j < 5,
        k < 5,
        n <= 5,
        forall|i: nat| i < 5 && i != j ==> #[trigger] window_digit(rem, i) == 0,
    ensures
        factor_chain(rem, 0, 5 * k + n) == (if k < j {
            ONE as nat
        } else if k == j {
            factor_chain(window_digit(rem, j), 5 * j, n)
        } else {
            window_factor(j, window_digit(rem, j))
        }),
    decreases k, n,
{
    if n > 0 {
        let m = (n - 1) as nat;
        lemma_one_window_of_bits(rem, j, k, m);
        lemma_window_bit(rem, k, m);
        assert((5 * k + n - 1) as nat == 5 * k + m);
        if k != j {
            assert(window_digit(rem, k) == 0);
            lemma_zero_bits(m);
        }
    } else if k > 0 {
        lemma_one_window_of_bits(rem, j, (k - 1) as nat, 5);
        assert(5 * (k - 1) + 5 == 5 * k);
    }
}

proof fn lemma_one_window_of_windows(rem: nat, j: nat, n: nat)
    requires
        j < 5,
        n <= 5,
        forall|i: nat| i < 5 && i != j ==> #[trigger] window_digit(rem, i) == 0,
    ensures
        window_chain(rem, n) == (if n <= j {
            ONE as nat
        } else {
            window_factor(j, window_digit(rem, j))
        }),
    decreases n,
{
    if n > 0 {
        let m = (n - 1) as nat;
        lemma_one_window_of_windows(rem, j, m);
        let d = window_digit(rem, m);
        if m != j {
            assert(d == 0);
            lemma_zero_chain(5 * m, 5);
        }
        lemma_product_with_one(window_factor(j, window_digit(rem, j)));
        lemma_product_with_one(ONE as nat);
    }
}

/// A power of two has one bit.
proof fn lemma_single_bit(b: nat, i: nat)
    ensures
        bit(pow2(b), i) == (i == b),
{
    lemma_pow2_pos(i);
    lemma_pow2_pos(b);
    vstd::arithmetic::power2::lemma2_to64();
    if i <= b {
        let e = (b - i) as nat;
        vstd::arithmetic::power2::lemma_pow2_adds(e, i);
        vstd::arithmetic::div_mod::lemma_div_by_multiple(pow2(e) as int, pow2(i) as int);
        if e > 0 {
            lemma_pow2_unfold(e);
        }
    } else {
        lemma_pow2_strictly_increases(b, i);
        vstd::arithmetic::div_mod::lemma_basic_div(pow2(b) as int, pow2(i) as int);
    }
}

proof fn lemma_single_bit_chain(b: nat, first: nat, n: nat)
    requires
        first + n <= 25,
    ensures
        factor_chain(pow2(b), first, n) == (if n <= b {
            ONE as nat
        } else {
            DECAY_POWERS[(first + b) as int] as nat
        }),
    decreases n,
{
    if n > 0 {
        let m = (n - 1) as nat;
        lemma_single_bit_chain(b, first, m);
        lemma_single_bit(b, m);
        if m == b {
            lemma_product_with_one(DECAY_POWERS[(first + b) as int] as nat);
        }
    }
}

/// The digits of `c * 2^(5 j)`.
proof fn lemma_digits_of_one_window(c: nat, j: nat, k: nat)
    requires
        j < 5,
        k < 5,
        c < 32,
    ensures
        window_digit(c * pow2(5 * j), k) == (if k == j {
            c
        } else {
            0
        }),
{
    let x = c * pow2(5 * j);
    vstd::arithmetic::power2::lemma2_to64();
    lemma_pow2_pos(5 * j);
    lemma_pow2_pos(5 * k);
    if k <= j {
        let e = (5 * j - 5 * k) as nat;
        let p = pow2(5 * k) as int;
        vstd::arithmetic::power2::lemma_pow2_adds(5 * k, e);
        let y = c * pow2(e);
        assert(x == y * p) by (nonlinear_arith)
            requires
                x == c * (p * pow2(e)),
                y == c * pow2(e),
        ;
        vstd::arithmetic::div_mod::lemma_div_by_multiple(y as int, p);
        if k == j {
            assert(c * pow2(0) == c) by (nonlinear_arith)
                requires
                    pow2(0) == 1,
            ;
        } else {
            let g = (e - 5) as nat;
            vstd::arithmetic::power2::lemma_pow2_adds(5, g);
            assert(y == (c * pow2(g)) * 32) by (nonlinear_arith)
                requires
                    y == c * (32 * pow2(g)),
            ;
            vstd::arithmetic::div_mod::lemma_mod_multiples_basic((c * pow2(g)) as int, 32);
        }
    } else {
        let e = (5 * k - 5 * j - 5) as nat;
        vstd::arithmetic::power2::lemma_pow2_adds(5 * j, 5);
        vstd::arithmetic::power2::lemma_pow2_adds(5 * j + 5, e);
        lemma_pow2_pos(e);
        assert(x < pow2(5 * k)) by (nonlinear_arith)
            requires
                x == c * pow2(5 * j),
                c < 32,
                pow2(5 * k) == (pow2(5 * j) * 32) * pow2(e),
                pow2(e) >= 1,
                pow2(5 * j) >= 1,
        ;
        vstd::arithmetic::div_mod::lemma_basic_div(x as int, pow2(5 * k) as int);
    }
}

/// The factors of seconds that touch one window only.
proof fn lemma_one_window(c: nat, j: nat)
    requires
        j < 5,
        c < 32,
    ensures
        factor_chain(c * pow2(5 * j), 0, 25) == window_factor(j, c),
        window_chain(c * pow2(5 * j), 5) == window_factor(j, c),
{
    let rem = c * pow2(5 * j);
    assert forall|i: nat| i < 5 implies #[trigger] window_digit(rem, i) == (if i == j {
        c
    } else {
        0
    }) by {
        lemma_digits_of_one_window(c, j, i);
    }
    lemma_one_window_of_bits(rem, j, 4, 5);
    lemma_one_window_of_windows(rem, j, 5);
}

/// Both chains agree whenever the seconds of the last year touch at most one window.
pub proof fn chains_agree_in_one_window(value: nat, duration: nat, j: nat, c: nat)
    requires
        j < 5,
        c < 32,
        duration % (SECONDS_PER_YEAR as nat) == c * pow2(5 * j),
    ensures
        decayed_windowed(value, duration) == decayed(value, duration),
{
    lemma_one_window(c, j);
}

/// The window table: no seconds keep everything, a single bit is its power, a row falls strictly
/// with its digit and never to nothing, and every entry is the factor of the bit chain.
pub proof fn window_rows_fall(j: nat, c: nat, b: nat)
    requires
        j < 5,
        c < 32,
        b < 5,
    ensures
        window_factor(j, 0) == ONE,
        window_factor(j, pow2(b)) == DECAY_POWERS[(5 * j + b) as int],
        c > 0 ==> 0 < window_factor(j, c) < window_factor(j, (c - 1) as nat),
        window_factor(j, c) == factor_chain(c * pow2(5 * j), 0, 25),
{
    lemma_zero_chain(5 * j, 5);
    lemma_one_window(c, j);
    vstd::arithmetic::power2::lemma2_to64();
    if c > 0 {
        let d = (c - 1) as nat;
        vstd::arithmetic::div_mod::lemma_small_mod(d, 32);
        lemma_factor_falls(d, 5 * j, 5);
        lemma_factor_is_positive(c, 5 * j, 5);
        lemma_pow2_pos(59);
        lemma_pow2_pos(20);
    }
    lemma_single_bit_chain(b, 5 * j, 5);
}

/// The decayed value is rounded half up: it is the value halved once for each whole year of
/// 31556952 seconds, nothing after 63 of them, times the factor of the seconds that are left, and
/// no other number is nearer.
pub proof fn decay_rounds_half_up(value: nat, duration: nat)
    ensures
        ({
            let years = duration / 31_556_952;
            let seconds = duration % 31_556_952;
            let halved = if years < 63 {
                value / pow2(years)
            } else {
                0
            };
            let one = 0x1_0000_0000_0000_0000nat;
            let half = 0x8000_0000_0000_0000nat;
            let exact = halved * factor_chain(seconds, 0, 25);
            let windowed = halved * window_chain(seconds, 5);
            &&& one * decayed(value, duration) <= exact + half < one * (decayed(value, duration) + 1)
            &&& one * decayed_windowed(value, duration) <= windowed + half < one * (
            decayed_windowed(value, duration) + 1)
        }),
{
    let a = years_decayed(value, duration);
    let f = factor_chain(duration % 31_556_952, 0, 25);
    let g = window_chain(duration % 31_556_952, 5);
    lemma_quotient_bounds(a * f + HALF);
    lemma_quotient_bounds(a * g + HALF);
    assert(a * f >= 0 && a * g >= 0) by (nonlinear_arith);
}

proof fn lemma_quotient_bounds(x: int)
    requires
        x >= 0,
    ensures
        0x1_0000_0000_0000_0000 * (x / 0x1_0000_0000_0000_0000) <= x < 0x1_0000_0000_0000_0000 * (x
            / 0x1_0000_0000_0000_0000 + 1),
{
    vstd::arithmetic::div_mod::lemma_fundamental_div_mod(x, 0x1_0000_0000_0000_0000);
    vstd::arithmetic::div_mod::lemma_mod_bound(x, 0x1_0000_0000_0000_0000);
}

/// Each power is the square of the one before, truncated, and half is left after the last second
/// of a year, and hardly more: so the powers are those of a year in which a value is halved.
pub proof fn powers_are_squares(i: int)
    requires
        0 <= i < 24,
    ensures
        ({
            let one = 0x1_0000_0000_0000_0000nat;
            let square = DECAY_POWERS[i] * DECAY_POWERS[i];
            DECAY_POWERS[i + 1] * one <= square < DECAY_POWERS[i + 1] * one + one
        }),
        0x8000_0000_0000_0000 <= factor_chain(31_556_951, 0, 25) <= 0x8000_0040_0000_0000,
{
    lemma_last_second_keeps_half();
    lemma_square(0, 18446743668527564940, 18446743263345587163);
    lemma_square(1, 18446743263345587163, 18446742452981658309);
    lemma_square(2, 18446742452981658309, 18446740832253907398);
    lemma_square(3, 18446740832253907398, 18446737590798832767);
    lemma_square(4, 18446737590798832767, 18446731107890392267);
    lemma_square(5, 18446731107890392267, 18446718142080346313);
    lemma_square(6, 18446718142080346313, 18446692210487594564);
    lemma_square(7, 18446692210487594564, 18446640347411451525);
    lemma_square(8, 18446640347411451525, 18446536621696605848);
    lemma_square(9, 18446536621696605848, 18446329172016664620);
    lemma_square(10, 18446329172016664620, 18445914279655690837);
    lemma_square(11, 18445914279655690837, 18445084522928643346);
    lemma_square(12, 18445084522928643346, 18443425121448271984);
    lemma_square(13, 18443425121448271984, 18440106766335414243);
    lemma_square(14, 18440106766335414243, 18433471847125226169);
    lemma_square(15, 18433471847125226169, 18420209169759874097);
    lemma_square(16, 18420209169759874097, 18393712435208807257);
    lemma_square(17, 18393712435208807257, 18340833254760868098);
    lemma_square(18, 18340833254760868098, 18235530516106764452);
    lemma_square(19, 18235530516106764452, 18026735334708307356);
    lemma_square(20, 18026735334708307356, 17616289656815978922);
    lemma_square(21, 17616289656815978922, 16823221487369777986);
    lemma_square(22, 16823221487369777986, 15342587292489394070);
    lemma_square(23, 15342587292489394070, 12760787697116905635);
}

proof fn lemma_square(i: int, power: nat, next: nat)
    requires
        0 <= i < 24,
        DECAY_POWERS[i] == power,
        DECAY_POWERS[i + 1] == next,
        next * 0x1_0000_0000_0000_0000 <= power * power < next * 0x1_0000_0000_0000_0000
            + 0x1_0000_0000_0000_0000,
    ensures
        DECAY_POWERS[i + 1] * 0x1_0000_0000_0000_0000nat <= DECAY_POWERS[i] * DECAY_POWERS[i]
            < DECAY_POWERS[i + 1] * 0x1_0000_0000_0000_0000nat + 0x1_0000_0000_0000_0000,
{
}

} // verus!
