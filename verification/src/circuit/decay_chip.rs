//! Decay as a chip that fits next to the other gadgets: its range checks go through the same
//! 10-bit lookup that the Sinsemilla table already provides, so it needs no table of its own for
//! them.
//!
//! Per spent note it proves `decayed = decay(value, now - t_note)`:
//! 1. `now - t_note = times * year + rem`, `rem < year`
//! 2. `shifted = value >> times` (0 once `times >= 63`), the shift from a `(s, 2^s)` table
//! 3. factor chain over the 25 bits of `rem`: `F = floor(F * DECAY_POWERS[i] / 2^64)`
//! 4. `decayed = floor((shifted * F + 2^63) / 2^64)`, rounded half up
//!
//! The chip works on the caller's cells: `value` and `t_note` are copied from the cells the note
//! commitment binds, and the caller has to guarantee `value < 2^63` (the note chip does).
//!
//! See `crate::decay` for the same computation on integers.
use vstd::arithmetic::power2::pow2;
use vstd::prelude::*;

use super::gate::{constant, cur, difference, next, product, sum, Expr, Gate};
use super::range::check_bits;
use crate::decay::{
    decay_trace, window_table, windowed_trace, DecayTrace, ShiftTrace, WindowedTrace,
    DECAY_POWERS, HALF, ONE, REM_BITS, SECONDS_PER_YEAR, W1_SHIFT_LIMIT, WINDOWS,
};
use crate::pallas::Base;

verus! {

broadcast use vstd::array::group_array_axioms;

/// Bits of a range check: seven words of the 10-bit lookup cover the 64 bit values with room to
/// spare. Every checked value stays below 2^70, far below the field modulus. That is enough
/// for cells that are pinned by an equation anyway; the remainders of the divisions by 2^64
/// need the exact bound (`EXACT_REM_BITS`), or the quotient could be chosen smaller.
pub const RANGE_BITS: u32 = 70;

pub const EXACT_REM_BITS: u32 = 64;

/// Largest shift in the `(s, 2^s)` part of the table.
pub const POW_TABLE_MAX: u64 = 127;

/// Tag of the `(s, 2^s)` rows; window rows carry their window index as tag.
pub const SHIFT_TAG: u64 = 32;

// -------------------------------------------------------------------------------------- gates

/// Whether an integer is zero in the field.
pub open spec fn vanishes(x: int) -> bool {
    super::gate::vanishes(x)
}

/// `F' = floor(F * W[j][c_j] / 2^64)`, `F` of the next row is `F'`, and `rem = sum c_j * 2^(5j)`.
/// A window digit of 0 has factor 2^64, so no case distinction is needed.
/// Columns: `F, F', remainder, digit, rest of rem, factor`.
pub open spec fn window_step_holds(rows: Seq<Seq<nat>>) -> bool {
    let a = rows[0];
    let b = rows[1];
    &&& vanishes(a[0] * a[5] - a[1] * ONE as nat - a[2])
    &&& vanishes(b[0] - a[1])
    &&& vanishes(a[4] - a[3] - b[4] * 32nat)
}

/// `F' = floor(F * P_i / 2^64)`, `F` of the next row is `F'` or `F` by the bit, and
/// `rem = sum bit_i 2^i`. Columns: `F, F', remainder, bit, rest of rem`; `P_i` is fixed.
pub open spec fn bit_step_holds(rows: Seq<Seq<nat>>, fixed: Seq<nat>) -> bool {
    let a = rows[0];
    let b = rows[1];
    &&& vanishes(a[0] * fixed[0] - a[1] * ONE as nat - a[2])
    &&& vanishes(a[3] * (1 - a[3]))
    &&& vanishes(b[0] - a[3] * a[1] - (1 - a[3]) * a[0])
    &&& vanishes(a[4] - a[3] - b[4] * 2nat)
}

/// `now - t_note = times * year + rem`, with the witness for `rem < year`.
/// Columns: `now, t_note, times, rem, year - 1 - rem`.
pub open spec fn duration_holds(rows: Seq<Seq<nat>>) -> bool {
    let a = rows[0];
    &&& vanishes(a[0] - a[1] - a[2] * SECONDS_PER_YEAR as nat - a[3])
    &&& vanishes(a[4] - (SECONDS_PER_YEAR - 1) + a[3])
}

/// `value = q * 2^s + r`, `shifted = 0` once `times >= 63`.
/// Columns: `value, q, r, s, big, 2^s`, then `times, w, shifted, 2^s - 1 - r` from the second.
pub open spec fn year_shift_holds(rows: Seq<Seq<nat>>) -> bool {
    let a = rows[0];
    let b = rows[1];
    &&& vanishes(a[0] - a[1] * a[5] - a[2])
    &&& vanishes(a[4] * (1 - a[4]))
    &&& vanishes((1 - a[4]) * (b[1] - a[3]))
    &&& vanishes((a[4] * a[3]) as int)
    &&& vanishes(b[2] - a[4] * (b[1] - W1_SHIFT_LIMIT))
    &&& vanishes(b[3] - (1 - a[4]) * a[1])
    &&& vanishes(b[4] - (a[5] - 1 - a[2]))
}

/// `decayed = floor((shifted * F + 2^63) / 2^64)`.
/// Columns: `shifted, F, decayed, remainder`.
pub open spec fn round_holds(rows: Seq<Seq<nat>>) -> bool {
    let a = rows[0];
    vanishes(a[0] * a[1] + HALF as nat - a[2] * ONE as nat - a[3])
}

/// Rows of six cells.
pub open spec fn six_wide(rows: Seq<Seq<nat>>, n: nat) -> bool {
    &&& rows.len() == n
    &&& forall|i: int| 0 <= i < rows.len() ==> (#[trigger] rows[i]).len() == 6
}

pub(crate) fn one() -> (r: Expr)
    ensures
        r matches Expr::Constant(c) && c@ == 1,
{
    constant(Base::one())
}

pub(crate) fn number(value: u128) -> (r: Expr)
    ensures
        r matches Expr::Constant(c) && c@ == value,
{
    constant(Base::from_u128(value))
}

pub(crate) fn gate1(name: &'static str, a: Expr) -> (r: Gate)
    ensures
        r.polys@ == seq![a],
{
    let mut polys: Vec<Expr> = Vec::new();
    polys.push(a);
    Gate { name, polys }
}

pub(crate) fn gate2(name: &'static str, a: Expr, b: Expr) -> (r: Gate)
    ensures
        r.polys@ == seq![a, b],
{
    let mut polys: Vec<Expr> = Vec::new();
    polys.push(a);
    polys.push(b);
    Gate { name, polys }
}

/// Gate of the window chain.
pub fn window_step_gate() -> (r: Gate)
    ensures
        forall|rows: Seq<Seq<nat>>, fixed: Seq<nat>| #[trigger]
            r.holds(rows, fixed) <==> window_step_holds(rows),
        forall|rows: Seq<Seq<nat>>, fixed: Seq<nat>|
            six_wide(rows, 2) ==> #[trigger] r.reads_within(rows, fixed),
{
    let a = difference(
        difference(product(cur(0), cur(5)), product(cur(1), number(ONE))),
        cur(2),
    );
    let b = difference(next(0), cur(1));
    let c = difference(difference(cur(4), cur(3)), product(next(4), number(32)));
    let mut r = gate2("decay window step", a, b);
    r.polys.push(c);
    proof {
        assert forall|rows: Seq<Seq<nat>>, fixed: Seq<nat>| #[trigger]
            r.holds(rows, fixed) <==> window_step_holds(rows) by {
            reveal_with_fuel(Expr::value, 5);
            assert(r.polys@[0] == a && r.polys@[1] == b && r.polys@[2] == c);
            let x = rows[0];
            let y = rows[1];
            assert(a.value(rows, fixed) == x[0] * x[5] - x[1] * ONE as nat - x[2]);
            assert(b.value(rows, fixed) == y[0] - x[1]);
            assert(c.value(rows, fixed) == x[4] - x[3] - y[4] * 32nat);
        }
        assert forall|rows: Seq<Seq<nat>>, fixed: Seq<nat>| six_wide(rows, 2) implies #[trigger]
            r.reads_within(rows, fixed) by {
            reveal_with_fuel(Expr::reads_within, 5);
            assert(rows[0].len() == 6 && rows[1].len() == 6);
            assert(r.polys@[0] == a && r.polys@[1] == b && r.polys@[2] == c);
        }
    }
    r
}

/// Gate of the bit chain.
pub fn bit_step_gate() -> (r: Gate)
    ensures
        forall|rows: Seq<Seq<nat>>, fixed: Seq<nat>| #[trigger]
            r.holds(rows, fixed) <==> bit_step_holds(rows, fixed),
        forall|rows: Seq<Seq<nat>>, fixed: Seq<nat>|
            six_wide(rows, 2) && fixed.len() == 1 ==> #[trigger] r.reads_within(rows, fixed),
{
    let p = Expr::Fixed { column: 0 };
    let a = difference(
        difference(product(cur(0), p), product(cur(1), number(ONE))),
        cur(2),
    );
    let b = product(cur(3), difference(one(), cur(3)));
    let c = difference(
        difference(next(0), product(cur(3), cur(1))),
        product(difference(one(), cur(3)), cur(0)),
    );
    let d = difference(difference(cur(4), cur(3)), product(next(4), number(2)));
    let mut r = gate2("decay factor step", a, b);
    r.polys.push(c);
    r.polys.push(d);
    proof {
        assert forall|rows: Seq<Seq<nat>>, fixed: Seq<nat>| #[trigger]
            r.holds(rows, fixed) <==> bit_step_holds(rows, fixed) by {
            reveal_with_fuel(Expr::value, 5);
            assert(r.polys@[0] == a && r.polys@[1] == b && r.polys@[2] == c && r.polys@[3] == d);
            let x = rows[0];
            let y = rows[1];
            assert(a.value(rows, fixed) == x[0] * fixed[0] - x[1] * ONE as nat - x[2]);
            assert(b.value(rows, fixed) == x[3] * (1 - x[3]));
            assert(c.value(rows, fixed) == y[0] - x[3] * x[1] - (1 - x[3]) * x[0]);
            assert(d.value(rows, fixed) == x[4] - x[3] - y[4] * 2nat);
        }
        assert forall|rows: Seq<Seq<nat>>, fixed: Seq<nat>|
            six_wide(rows, 2) && fixed.len() == 1 implies #[trigger] r.reads_within(
            rows,
            fixed,
        ) by {
            reveal_with_fuel(Expr::reads_within, 5);
            assert(rows[0].len() == 6 && rows[1].len() == 6);
            assert(r.polys@[0] == a && r.polys@[1] == b && r.polys@[2] == c && r.polys@[3] == d);
        }
    }
    r
}

/// Gate of the duration.
pub fn duration_gate() -> (r: Gate)
    ensures
        forall|rows: Seq<Seq<nat>>, fixed: Seq<nat>| #[trigger]
            r.holds(rows, fixed) <==> duration_holds(rows),
        forall|rows: Seq<Seq<nat>>, fixed: Seq<nat>|
            six_wide(rows, 1) ==> #[trigger] r.reads_within(rows, fixed),
{
    let a = difference(
        difference(
            difference(cur(0), cur(1)),
            product(cur(2), number(SECONDS_PER_YEAR as u128)),
        ),
        cur(3),
    );
    let b = sum(difference(cur(4), number((SECONDS_PER_YEAR - 1) as u128)), cur(3));
    let r = gate2("duration", a, b);
    proof {
        assert forall|rows: Seq<Seq<nat>>, fixed: Seq<nat>| #[trigger]
            r.holds(rows, fixed) <==> duration_holds(rows) by {
            reveal_with_fuel(Expr::value, 5);
            assert(r.polys@[0] == a && r.polys@[1] == b);
            let x = rows[0];
            assert(a.value(rows, fixed) == x[0] - x[1] - x[2] * SECONDS_PER_YEAR as nat - x[3]);
            assert(b.value(rows, fixed) == x[4] - (SECONDS_PER_YEAR - 1) + x[3]);
        }
        assert forall|rows: Seq<Seq<nat>>, fixed: Seq<nat>| six_wide(rows, 1) implies #[trigger]
            r.reads_within(rows, fixed) by {
            reveal_with_fuel(Expr::reads_within, 5);
            assert(rows[0].len() == 6);
            assert(r.polys@[0] == a && r.polys@[1] == b);
        }
    }
    r
}

/// Gate of the shift by whole years.
pub fn year_shift_gate() -> (r: Gate)
    ensures
        forall|rows: Seq<Seq<nat>>, fixed: Seq<nat>| #[trigger]
            r.holds(rows, fixed) <==> year_shift_holds(rows),
        forall|rows: Seq<Seq<nat>>, fixed: Seq<nat>|
            six_wide(rows, 2) ==> #[trigger] r.reads_within(rows, fixed),
{
    let p0 = difference(difference(cur(0), product(cur(1), cur(5))), cur(2));
    let p1 = product(cur(4), difference(one(), cur(4)));
    let p2 = product(difference(one(), cur(4)), difference(next(1), cur(3)));
    let p3 = product(cur(4), cur(3));
    let p4 = difference(
        next(2),
        product(cur(4), difference(next(1), number(W1_SHIFT_LIMIT as u128))),
    );
    let p5 = difference(next(3), product(difference(one(), cur(4)), cur(1)));
    let p6 = difference(next(4), difference(difference(cur(5), one()), cur(2)));
    let mut r = gate2("year shift", p0, p1);
    r.polys.push(p2);
    r.polys.push(p3);
    r.polys.push(p4);
    r.polys.push(p5);
    r.polys.push(p6);
    proof {
        let ps = r.polys@;
        assert(ps =~= seq![p0, p1, p2, p3, p4, p5, p6]);
        assert forall|rows: Seq<Seq<nat>>, fixed: Seq<nat>| #[trigger]
            r.holds(rows, fixed) <==> year_shift_holds(rows) by {
            reveal_with_fuel(Expr::value, 5);
            let a = rows[0];
            let b = rows[1];
            assert(ps[0].value(rows, fixed) == a[0] - a[1] * a[5] - a[2]);
            assert(ps[1].value(rows, fixed) == a[4] * (1 - a[4]));
            assert(ps[2].value(rows, fixed) == (1 - a[4]) * (b[1] - a[3]));
            assert(ps[3].value(rows, fixed) == a[4] * a[3]);
            assert(ps[4].value(rows, fixed) == b[2] - a[4] * (b[1] - W1_SHIFT_LIMIT));
            assert(ps[5].value(rows, fixed) == b[3] - (1 - a[4]) * a[1]);
            assert(ps[6].value(rows, fixed) == b[4] - (a[5] - 1 - a[2]));
        }
        assert forall|rows: Seq<Seq<nat>>, fixed: Seq<nat>| six_wide(rows, 2) implies #[trigger]
            r.reads_within(rows, fixed) by {
            reveal_with_fuel(Expr::reads_within, 5);
            assert(rows[0].len() == 6 && rows[1].len() == 6);
        }
    }
    r
}

/// Gate of the final rounding.
pub fn round_gate() -> (r: Gate)
    ensures
        forall|rows: Seq<Seq<nat>>, fixed: Seq<nat>| #[trigger]
            r.holds(rows, fixed) <==> round_holds(rows),
        forall|rows: Seq<Seq<nat>>, fixed: Seq<nat>|
            six_wide(rows, 1) ==> #[trigger] r.reads_within(rows, fixed),
{
    let a = difference(
        difference(
            sum(product(cur(0), cur(1)), number(HALF)),
            product(cur(2), number(ONE)),
        ),
        cur(3),
    );
    let r = gate1("round half up", a);
    proof {
        assert forall|rows: Seq<Seq<nat>>, fixed: Seq<nat>| #[trigger]
            r.holds(rows, fixed) <==> round_holds(rows) by {
            reveal_with_fuel(Expr::value, 5);
            assert(r.polys@[0] == a);
            let x = rows[0];
            assert(a.value(rows, fixed) == x[0] * x[1] + HALF as nat - x[2] * ONE as nat - x[3]);
        }
        assert forall|rows: Seq<Seq<nat>>, fixed: Seq<nat>| six_wide(rows, 1) implies #[trigger]
            r.reads_within(rows, fixed) by {
            reveal_with_fuel(Expr::reads_within, 5);
            assert(rows[0].len() == 6);
            assert(r.polys@[0] == a);
        }
    }
    r
}

// -------------------------------------------------------------------------------------- table

/// What the lookup table of the chip holds, as `(tag, x, y)`: the neutral row `(0, 0, 2^64)`,
/// which the lookup reads when it is switched off, `(SHIFT_TAG, s, 2^s)` for the shift by whole
/// years, and `(j, c, W[j][c])` for the windows.
pub open spec fn in_table(windowed: bool, tag: nat, x: nat, y: nat) -> bool {
    ||| tag == 0 && x == 0 && y == ONE
    ||| tag == SHIFT_TAG && x <= POW_TABLE_MAX && y == pow2(x)
    ||| windowed && tag < WINDOWS && x < 32 && y == crate::decay::window_factor(tag, x)
}

/// The integers in a row of the table.
pub open spec fn table_row(r: (u64, u64, u128)) -> (nat, nat, nat) {
    (r.0 as nat, r.1 as nat, r.2 as nat)
}

/// Whether the rows are exactly the table.
pub open spec fn is_table(windowed: bool, rows: Seq<(u64, u64, u128)>) -> bool {
    &&& forall|i: int|
        0 <= i < rows.len() ==> in_table(
            windowed,
            (#[trigger] rows[i]).0 as nat,
            rows[i].1 as nat,
            rows[i].2 as nat,
        )
    &&& forall|tag: nat, x: nat, y: nat| #[trigger]
        in_table(windowed, tag, x, y) ==> rows.map_values(
            |r: (u64, u64, u128)| table_row(r),
        ).contains((tag, x, y))
}

proof fn lemma_row_found(rows: Seq<(u64, u64, u128)>, i: int)
    requires
        0 <= i < rows.len(),
    ensures
        rows.map_values(|r: (u64, u64, u128)| table_row(r)).contains(
            (rows[i].0 as nat, rows[i].1 as nat, rows[i].2 as nat),
        ),
{
    let m = rows.map_values(|r: (u64, u64, u128)| table_row(r));
    assert(m[i] == (rows[i].0 as nat, rows[i].1 as nat, rows[i].2 as nat));
}

/// The rows of the table that the chip owns.
pub fn load(windowed: bool) -> (rows: Vec<(u64, u64, u128)>)
    ensures
        is_table(windowed, rows@),
{
    let mut rows: Vec<(u64, u64, u128)> = Vec::new();
    // neutral row, also what the lookup reads when its selector is off
    rows.push((0, 0, ONE));
    // powers of two for the whole-year shift
    let mut shift: u64 = 0;
    let mut pow: u128 = 1;
    proof {
        vstd::arithmetic::power2::lemma2_to64();
    }
    while shift < 128
        invariant
            shift <= 128,
            shift < 128 ==> pow as nat == pow2(shift as nat),
            rows@.len() == 1 + shift,
            rows@[0] == (0u64, 0u64, ONE),
            forall|i: int|
                1 <= i < rows@.len() ==> (#[trigger] rows@[i]).0 == SHIFT_TAG && rows@[i].1 == i - 1
                    && rows@[i].2 as nat == pow2((i - 1) as nat),
        decreases 128 - shift,
    {
        rows.push((SHIFT_TAG, shift, pow));
        proof {
            vstd::arithmetic::power2::lemma_pow2_unfold((shift + 1) as nat);
            vstd::arithmetic::power2::lemma2_to64();
            vstd::arithmetic::power2::lemma2_to64_rest();
            vstd::arithmetic::power2::lemma_pow2_adds(64, 63);
            if shift < 127 {
                if shift + 1 < 127 {
                    vstd::arithmetic::power2::lemma_pow2_strictly_increases(
                        (shift + 1) as nat,
                        127,
                    );
                }
            }
        }
        if shift < 127 {
            pow = pow * 2;
        }
        shift = shift + 1;
    }
    let ghost head = rows@;
    proof {
        assert forall|i: int| 0 <= i < rows@.len() implies in_table(
            windowed,
            (#[trigger] rows@[i]).0 as nat,
            rows@[i].1 as nat,
            rows@[i].2 as nat,
        ) by {}
    }
    if windowed {
        let table = window_table();
        let mut j: usize = 0;
        while j < WINDOWS
            invariant
                j <= WINDOWS,
                windowed,
                forall|a: int, c: int|
                    0 <= a < 5 && 0 <= c < 32 ==> #[trigger] table@[a]@[c] as nat
                        == crate::decay::window_factor(a as nat, c as nat),
                rows@.len() == 129 + 32 * j,
                head.len() == 129,
                head =~= rows@.take(129),
                forall|i: int|
                    0 <= i < rows@.len() ==> in_table(
                        windowed,
                        (#[trigger] rows@[i]).0 as nat,
                        rows@[i].1 as nat,
                        rows@[i].2 as nat,
                    ),
                forall|a: int, c: int|
                    #![trigger rows@[129 + 32 * a + c]]
                    0 <= a < j && 0 <= c < 32 ==> rows@[129 + 32 * a + c].0 == a && rows@[129 + 32
                        * a + c].1 == c && rows@[129 + 32 * a + c].2 as nat
                        == crate::decay::window_factor(a as nat, c as nat),
            decreases WINDOWS - j,
        {
            let mut digit: usize = 0;
            while digit < 32
                invariant
                    digit <= 32,
                    j < WINDOWS,
                    windowed,
                    forall|a: int, c: int|
                        0 <= a < 5 && 0 <= c < 32 ==> #[trigger] table@[a]@[c] as nat
                            == crate::decay::window_factor(a as nat, c as nat),
                    rows@.len() == 129 + 32 * j + digit,
                    head.len() == 129,
                    head =~= rows@.take(129),
                    forall|i: int|
                        0 <= i < rows@.len() ==> in_table(
                            windowed,
                            (#[trigger] rows@[i]).0 as nat,
                            rows@[i].1 as nat,
                            rows@[i].2 as nat,
                        ),
                    forall|a: int, c: int|
                        #![trigger rows@[129 + 32 * a + c]]
                        0 <= c < 32 && (0 <= a < j || a == j && c < digit) ==> rows@[129 + 32 * a
                            + c].0 == a && rows@[129 + 32 * a + c].1 == c && rows@[129 + 32 * a
                            + c].2 as nat == crate::decay::window_factor(a as nat, c as nat),
                decreases 32 - digit,
            {
                rows.push((j as u64, digit as u64, table[j][digit]));
                digit = digit + 1;
            }
            j = j + 1;
        }
    }
    proof {
        assert(head =~= rows@.take(129));
        assert forall|tag: nat, x: nat, y: nat| #[trigger]
            in_table(windowed, tag, x, y) implies rows@.map_values(
            |r: (u64, u64, u128)| table_row(r),
        ).contains((tag, x, y)) by {
            if tag == 0 && x == 0 && y == ONE {
                assert(rows@[0] == head[0]);
                lemma_row_found(rows@, 0);
            } else if tag == SHIFT_TAG && x <= POW_TABLE_MAX && y == pow2(x) {
                assert(rows@[x + 1int] == head[x + 1int]);
                lemma_row_found(rows@, x + 1int);
            } else {
                let i = 129 + 32 * (tag as int) + x as int;
                assert(rows@[i].0 == tag && rows@[i].1 == x);
                lemma_row_found(rows@, i);
            }
        }
    }
    rows
}

/// Whether the table has a row.
fn looked_up(table: &[(u64, u64, u128)], tag: u64, x: &Base, y: &Base, windowed: bool) -> (r: bool)
    requires
        is_table(windowed, table@),
    ensures
        r == in_table(windowed, tag as nat, x@, y@),
{
    let mut i: usize = 0;
    while i < table.len()
        invariant
            i <= table@.len(),
            is_table(windowed, table@),
            forall|j: int|
                0 <= j < i ==> !(table_row(#[trigger] table@[j]) == (tag as nat, x@, y@)),
        decreases table@.len() - i,
    {
        let row = table[i];
        if row.0 == tag && Base::from_u64(row.1).same(x) && Base::from_u128(row.2).same(y) {
            return true;
        }
        i = i + 1;
    }
    proof {
        if in_table(windowed, tag as nat, x@, y@) {
            let m = table@.map_values(|r: (u64, u64, u128)| table_row(r));
            let j = choose|j: int| 0 <= j < m.len() && m[j] == (tag as nat, x@, y@);
            assert(table_row(table@[j]) == (tag as nat, x@, y@));
        }
    }
    false
}

// -------------------------------------------------------------------------------------- cells

/// The cells of the chip: the factor chain, with one row more than it has steps, the duration,
/// the shift by whole years over two rows, and the rounding. Six columns each.
#[derive(Clone, Debug)]
pub struct DecayRows {
    pub chain: Vec<Vec<Base>>,
    pub duration: Vec<Vec<Base>>,
    pub shift: Vec<Vec<Base>>,
    pub round: Vec<Vec<Base>>,
}

/// The integers in the cells of the chip.
#[verifier::ext_equal]
pub struct DecayCells {
    pub chain: Seq<Seq<nat>>,
    pub duration: Seq<Seq<nat>>,
    pub shift: Seq<Seq<nat>>,
    pub round: Seq<Seq<nat>>,
}

impl View for DecayRows {
    type V = DecayCells;

    open spec fn view(&self) -> DecayCells {
        DecayCells {
            chain: super::gate::cells(self.chain@),
            duration: super::gate::cells(self.duration@),
            shift: super::gate::cells(self.shift@),
            round: super::gate::cells(self.round@),
        }
    }
}

/// The steps of the factor chain.
pub open spec fn steps(windowed: bool) -> nat {
    if windowed {
        5
    } else {
        25
    }
}

/// The cells are elements of the field.
pub open spec fn canonical_rows(rows: Seq<Seq<nat>>) -> bool {
    forall|i: int, c: int|
        0 <= i < rows.len() && 0 <= c < 6 ==> (#[trigger] rows[i][c])
            < crate::pallas::base_modulus()
}

impl DecayCells {
    /// The regions have their sizes.
    pub open spec fn shaped(self, windowed: bool) -> bool {
        &&& six_wide(self.chain, steps(windowed) + 1)
        &&& six_wide(self.duration, 1)
        &&& six_wide(self.shift, 2)
        &&& six_wide(self.round, 1)
    }

    /// The cells are elements of the field.
    pub open spec fn canonical(self) -> bool {
        &&& canonical_rows(self.chain)
        &&& canonical_rows(self.duration)
        &&& canonical_rows(self.shift)
        &&& canonical_rows(self.round)
    }

    /// Two neighbouring rows of the chain.
    pub open spec fn step_rows(self, i: int) -> Seq<Seq<nat>> {
        self.chain.subrange(i, i + 2)
    }

    /// One step of the chain: its gate, the range checks of quotient and remainder, and for a
    /// window the factor from the table.
    pub open spec fn step_satisfied(self, windowed: bool, i: int) -> bool {
        &&& if windowed {
            window_step_holds(self.step_rows(i)) && in_table(
                windowed,
                i as nat,
                self.chain[i][3],
                self.chain[i][5],
            )
        } else {
            bit_step_holds(self.step_rows(i), seq![DECAY_POWERS@[i] as nat])
        }
        &&& self.chain[i][1] < pow2(70)
        &&& self.chain[i][2] < pow2(64)
    }

    /// The chain: it starts with one and uses up the remaining seconds.
    pub open spec fn chain_satisfied(self, windowed: bool) -> bool {
        &&& self.chain[0][0] == ONE
        &&& self.chain[steps(windowed) as int][4] == 0
        &&& forall|i: int|
            0 <= i < steps(windowed) ==> #[trigger] self.step_satisfied(windowed, i)
    }

    /// The duration, for the remaining seconds of the chain.
    pub open spec fn duration_satisfied(self, now: nat, t_note: nat) -> bool {
        &&& duration_holds(self.duration)
        &&& self.duration[0][0] == now
        &&& self.duration[0][1] == t_note
        &&& self.duration[0][3] == self.chain[0][4]
        &&& self.duration[0][2] < pow2(70)
        &&& self.duration[0][4] < pow2(70)
    }

    /// The shift, by the years of the duration.
    pub open spec fn shift_satisfied(self, windowed: bool, value: nat) -> bool {
        &&& year_shift_holds(self.shift)
        &&& in_table(windowed, SHIFT_TAG as nat, self.shift[0][3], self.shift[0][5])
        &&& self.shift[0][0] == value
        &&& self.shift[1][1] == self.duration[0][2]
        &&& self.shift[0][1] < pow2(70)
        &&& self.shift[0][2] < pow2(70)
        &&& self.shift[1][4] < pow2(70)
        &&& self.shift[1][2] < pow2(70)
    }

    /// The rounding, of the shifted value and the factor of the chain.
    pub open spec fn round_satisfied(self, windowed: bool) -> bool {
        &&& round_holds(self.round)
        &&& self.round[0][0] == self.shift[1][3]
        &&& self.round[0][1] == self.chain[steps(windowed) as int][0]
        &&& self.round[0][2] < pow2(70)
        &&& self.round[0][3] < pow2(64)
    }

    /// Whether the cells satisfy the chip.
    pub open spec fn satisfied(self, windowed: bool, now: nat, value: nat, t_note: nat) -> bool {
        &&& self.shaped(windowed)
        &&& self.chain_satisfied(windowed)
        &&& self.duration_satisfied(now, t_note)
        &&& self.shift_satisfied(windowed, value)
        &&& self.round_satisfied(windowed)
    }

    /// The cell with the result.
    pub open spec fn decayed(self) -> nat {
        self.round[0][2]
    }
}

// --------------------------------------------------------------------------------- soundness

/// The base field has no zero divisors: its order is a prime.
pub proof fn lemma_no_zero_divisors()
    ensures
        forall|a: int, b: int| #[trigger] vanishes(a * b) ==> vanishes(a) || vanishes(b),
{
    assert forall|a: int, b: int| #[trigger] vanishes(a * b) implies vanishes(a) || vanishes(b) by {
        crate::certificate::base_field_has_no_zero_divisors(a, b);
    }
}

/// A cell that is zero or one in the field is zero or one.
pub proof fn lemma_flag(x: nat)
    requires
        vanishes(x * (1 - x)),
        x < crate::pallas::base_modulus(),
    ensures
        x == 0 || x == 1,
{
    lemma_no_zero_divisors();
    if vanishes(x as int) {
        super::gate::lemma_small_zero(x as int);
    } else {
        super::gate::lemma_small_zero(1 - x);
    }
}

/// A division by 2^64 with an exact remainder.
proof fn lemma_division(x: nat, q: nat, r: nat)
    requires
        vanishes(x - q * ONE as nat - r),
        x <= 0x1_0000_0000_0000_0000_0000_0000_0000_0000_0000nat,
        q < pow2(70),
        r < pow2(64),
    ensures
        q == x / (ONE as nat),
        r == x % (ONE as nat),
{
    vstd::arithmetic::power2::lemma2_to64();
    vstd::arithmetic::power2::lemma_pow2_adds(64, 6);
    super::gate::lemma_small_zero(x - q * ONE as nat - r);
    vstd::arithmetic::div_mod::lemma_fundamental_div_mod_converse(
        x as int,
        ONE as int,
        q as int,
        r as int,
    );
}

/// Without seconds the factor is one.
proof fn lemma_digit_zero()
    ensures
        crate::decay::window_factor(0, 0) == ONE,
{
    reveal_with_fuel(crate::decay::factor_chain, 6);
    vstd::arithmetic::power2::lemma2_to64();
}

/// A window has a digit and the factor that belongs to it.
proof fn lemma_window_digit(c: DecayCells, i: int)
    requires
        0 <= i < 5,
        c.step_satisfied(true, i),
    ensures
        c.chain[i][3] < 32,
        c.chain[i][5] == crate::decay::window_factor(i as nat, c.chain[i][3]),
{
    lemma_digit_zero();
}

/// What is left of the seconds, from the end of the chain back to window `i`.
proof fn lemma_window_rest(c: DecayCells, i: int)
    requires
        c.shaped(true),
        c.canonical(),
        c.chain_satisfied(true),
        0 <= i <= 5,
    ensures
        c.chain[i][4] < pow2((5 * (5 - i)) as nat),
        i < 5 ==> c.chain[i][4] == c.chain[i][3] + 32 * c.chain[i + 1][4],
    decreases 5 - i,
{
    vstd::arithmetic::power2::lemma2_to64();
    if i < 5 {
        lemma_window_rest(c, i + 1);
        assert(c.step_satisfied(true, i));
        lemma_window_digit(c, i);
        let a = c.chain[i];
        let b = c.chain[i + 1];
        assert(c.step_rows(i)[0] == a && c.step_rows(i)[1] == b);
        vstd::arithmetic::power2::lemma_pow2_adds((5 * (4 - i)) as nat, 5);
        if i < 4 {
            vstd::arithmetic::power2::lemma_pow2_strictly_increases((5 * (4 - i)) as nat, 30);
        }
        super::gate::lemma_small_zero(a[4] - a[3] - b[4] * 32nat);
    }
}

/// The factor after `n` windows, and what is left of the seconds.
proof fn lemma_window_chain(c: DecayCells, n: int)
    requires
        c.shaped(true),
        c.canonical(),
        c.chain_satisfied(true),
        0 <= n <= 5,
    ensures
        c.chain[n][0] == crate::decay::window_chain(c.chain[0][4], n as nat),
        c.chain[n][4] == c.chain[0][4] / pow2((5 * n) as nat),
    decreases n,
{
    let rem = c.chain[0][4];
    vstd::arithmetic::power2::lemma2_to64();
    if n == 0 {
        assert(rem / 1 == rem);
    } else {
        let i = n - 1;
        lemma_window_chain(c, i);
        assert(c.step_satisfied(true, i));
        lemma_window_digit(c, i);
        lemma_window_rest(c, i);
        let a = c.chain[i];
        let b = c.chain[n];
        assert(c.step_rows(i)[0] == a && c.step_rows(i)[1] == b);
        crate::decay::lemma_window_chain_bound(rem, i as nat);
        crate::decay::lemma_factor_chain_bound(a[3], (5 * i) as nat, 5);
        crate::decay::lemma_q64_product_bound(a[0], a[5]);
        lemma_division(a[0] * a[5], a[1], a[2]);
        super::gate::lemma_small_zero(b[0] - a[1]);
        assert(a[3] == a[4] % 32 && b[4] == a[4] / 32);
        assert(a[3] == crate::decay::window_digit(rem, i as nat));
        vstd::arithmetic::power2::lemma_pow2_adds((5 * i) as nat, 5);
        vstd::arithmetic::power2::lemma_pow2_pos((5 * i) as nat);
        vstd::arithmetic::div_mod::lemma_div_denominator(
            rem as int,
            pow2((5 * i) as nat) as int,
            32,
        );
    }
}

/// What is left of the seconds, from the end of the chain back to bit `i`.
proof fn lemma_bit_rest(c: DecayCells, i: int)
    requires
        c.shaped(false),
        c.canonical(),
        c.chain_satisfied(false),
        0 <= i <= 25,
    ensures
        c.chain[i][4] < pow2((25 - i) as nat),
        i < 25 ==> c.chain[i][3] <= 1,
        i < 25 ==> c.chain[i][4] == c.chain[i][3] + 2 * c.chain[i + 1][4],
    decreases 25 - i,
{
    vstd::arithmetic::power2::lemma2_to64();
    if i < 25 {
        lemma_bit_rest(c, i + 1);
        assert(c.step_satisfied(false, i));
        let a = c.chain[i];
        let b = c.chain[i + 1];
        assert(c.step_rows(i)[0] == a && c.step_rows(i)[1] == b);
        lemma_flag(a[3]);
        vstd::arithmetic::power2::lemma_pow2_unfold((25 - i) as nat);
        vstd::arithmetic::power2::lemma_pow2_strictly_increases((24 - i) as nat, 30);
        super::gate::lemma_small_zero(a[4] - a[3] - b[4] * 2nat);
    }
}

/// The factor after `n` bits, and what is left of the seconds.
proof fn lemma_bit_chain(c: DecayCells, n: int)
    requires
        c.shaped(false),
        c.canonical(),
        c.chain_satisfied(false),
        0 <= n <= 25,
    ensures
        c.chain[n][0] == crate::decay::factor_chain(c.chain[0][4], 0, n as nat),
        c.chain[n][4] == c.chain[0][4] / pow2(n as nat),
    decreases n,
{
    let rem = c.chain[0][4];
    vstd::arithmetic::power2::lemma2_to64();
    if n == 0 {
        assert(rem / 1 == rem);
    } else {
        let i = n - 1;
        lemma_bit_chain(c, i);
        assert(c.step_satisfied(false, i));
        lemma_bit_rest(c, i);
        let a = c.chain[i];
        let b = c.chain[n];
        assert(c.step_rows(i)[0] == a && c.step_rows(i)[1] == b);
        let p = DECAY_POWERS@[i] as nat;
        assert(seq![p][0] == p);
        crate::decay::lemma_factor_chain_bound(rem, 0, i as nat);
        crate::decay::lemma_q64_product_bound(a[0], p);
        lemma_division(a[0] * p, a[1], a[2]);
        if a[3] == 0 {
            assert(a[3] * a[1] == 0) by (nonlinear_arith)
                requires
                    a[3] == 0,
            ;
            assert((1 - a[3]) * a[0] == a[0]) by (nonlinear_arith)
                requires
                    a[3] == 0,
            ;
            super::gate::lemma_small_zero(b[0] - a[0]);
        } else {
            assert(a[3] * a[1] == a[1]) by (nonlinear_arith)
                requires
                    a[3] == 1,
            ;
            assert((1 - a[3]) * a[0] == 0) by (nonlinear_arith)
                requires
                    a[3] == 1,
            ;
            super::gate::lemma_small_zero(b[0] - a[1]);
        }
        assert(a[3] == a[4] % 2 && b[4] == a[4] / 2);
        assert((a[3] == 1) == crate::decay::bit(rem, i as nat));
        vstd::arithmetic::power2::lemma_pow2_unfold(n as nat);
        vstd::arithmetic::power2::lemma_pow2_pos(i as nat);
        vstd::arithmetic::div_mod::lemma_div_denominator(
            rem as int,
            pow2(i as nat) as int,
            2,
        );
        assert(pow2(i as nat) * 2 == pow2(n as nat));
    }
}

/// The duration is split into years and seconds, and the note is not from the future.
proof fn lemma_duration(c: DecayCells, now: nat, t_note: nat)
    requires
        six_wide(c.duration, 1),
        c.duration_satisfied(now, t_note),
        c.chain[0][4] < pow2(25),
        now < 0x1_0000_0000_0000_0000,
        t_note < 0x1_0000_0000_0000_0000,
    ensures
        t_note <= now,
        c.duration[0][2] == (now - t_note) as nat / (SECONDS_PER_YEAR as nat),
        c.chain[0][4] == (now - t_note) as nat % (SECONDS_PER_YEAR as nat),
{
    let a = c.duration[0];
    let year = SECONDS_PER_YEAR as nat;
    vstd::arithmetic::power2::lemma2_to64();
    vstd::arithmetic::power2::lemma_pow2_adds(64, 6);
    super::gate::lemma_small_zero(a[0] - a[1] - a[2] * year - a[3]);
    super::gate::lemma_small_zero(a[4] - (SECONDS_PER_YEAR - 1) + a[3]);
    vstd::arithmetic::div_mod::lemma_fundamental_div_mod_converse(
        (now - t_note) as int,
        year as int,
        a[2] as int,
        a[3] as int,
    );
}

/// The quotient is the value without its lower bits.
proof fn lemma_quotient(c: DecayCells, windowed: bool, value: nat)
    requires
        six_wide(c.shift, 2),
        canonical_rows(c.shift),
        c.shift_satisfied(windowed, value),
        value < 0x8000_0000_0000_0000,
    ensures
        c.shift[0][3] <= POW_TABLE_MAX,
        c.shift[0][1] == value / pow2(c.shift[0][3]),
{
    let a = c.shift[0];
    let b = c.shift[1];
    let pow = a[5];
    vstd::arithmetic::power2::lemma2_to64();
    vstd::arithmetic::power2::lemma2_to64_rest();
    vstd::arithmetic::power2::lemma_pow2_adds(64, 6);
    vstd::arithmetic::power2::lemma_pow2_adds(64, 63);
    vstd::arithmetic::power2::lemma_pow2_pos(a[3]);
    if a[3] < 127 {
        vstd::arithmetic::power2::lemma_pow2_strictly_increases(a[3], 127);
    }
    assert(pow == pow2(a[3]) && 0 < pow <= 0x8000_0000_0000_0000_0000_0000_0000_0000nat);
    let q = a[1];
    let r = a[2];
    assert(q < 0x40_0000_0000_0000_0000nat);
    assert(q * pow <= 0x40_0000_0000_0000_0000nat
        * 0x8000_0000_0000_0000_0000_0000_0000_0000nat) by (nonlinear_arith)
        requires
            q < 0x40_0000_0000_0000_0000nat,
            pow <= 0x8000_0000_0000_0000_0000_0000_0000_0000nat,
    ;
    super::gate::lemma_small_zero(a[0] - q * pow - r);
    super::gate::lemma_small_zero(b[4] - (pow - 1 - r));
    vstd::arithmetic::div_mod::lemma_fundamental_div_mod_converse(
        value as int,
        pow as int,
        q as int,
        r as int,
    );
}

/// The shifted value is the value after whole years.
proof fn lemma_shift(c: DecayCells, windowed: bool, value: nat, times: nat)
    requires
        six_wide(c.shift, 2),
        canonical_rows(c.shift),
        c.shift_satisfied(windowed, value),
        value < 0x8000_0000_0000_0000,
        c.duration[0][2] == times,
        times < pow2(70),
    ensures
        c.shift[1][3] == (if times >= W1_SHIFT_LIMIT {
            0
        } else {
            value / pow2(times)
        }),
{
    lemma_no_zero_divisors();
    let a = c.shift[0];
    let b = c.shift[1];
    lemma_quotient(c, windowed, value);
    lemma_flag(a[4]);
    vstd::arithmetic::power2::lemma2_to64();
    vstd::arithmetic::power2::lemma2_to64_rest();
    vstd::arithmetic::power2::lemma_pow2_adds(64, 6);
    let big = a[4];
    if big == 0 {
        assert((1 - big) * (b[1] - a[3]) == b[1] - a[3] && (1 - big) * a[1] == a[1])
            by (nonlinear_arith)
            requires
                big == 0,
        ;
        super::gate::lemma_small_zero(b[1] - a[3]);
        super::gate::lemma_small_zero(b[3] - a[1]);
        if times >= 63 {
            if times > 63 {
                vstd::arithmetic::power2::lemma_pow2_strictly_increases(63, times);
            }
            vstd::arithmetic::div_mod::lemma_basic_div(value as int, pow2(times) as int);
        }
    } else {
        assert(big * (b[1] - W1_SHIFT_LIMIT) == b[1] - W1_SHIFT_LIMIT && (1 - big) * a[1] == 0)
            by (nonlinear_arith)
            requires
                big == 1,
        ;
        super::gate::lemma_small_zero(b[2] - (b[1] - W1_SHIFT_LIMIT));
        super::gate::lemma_small_zero(b[3] as int);
    }
}

/// The chip is sound: whatever cells satisfy it, the note is not from the future and the result
/// is exactly the decayed value. The caller bounds the value, and both times are 64 bit numbers.
pub proof fn satisfied_cells_hold_the_decayed_value(
    c: DecayCells,
    windowed: bool,
    now: nat,
    value: nat,
    t_note: nat,
)
    requires
        c.canonical(),
        c.satisfied(windowed, now, value, t_note),
        value < 0x8000_0000_0000_0000,
        now < 0x1_0000_0000_0000_0000,
        t_note < 0x1_0000_0000_0000_0000,
    ensures
        t_note <= now,
        windowed ==> c.decayed() == crate::decay::decayed_windowed(value, (now - t_note) as nat),
        !windowed ==> c.decayed() == crate::decay::decayed(value, (now - t_note) as nat),
{
    let rem = c.chain[0][4];
    let factor = c.chain[steps(windowed) as int][0];
    if windowed {
        lemma_window_rest(c, 0);
        lemma_window_chain(c, 5);
        crate::decay::lemma_window_chain_bound(rem, 5);
    } else {
        lemma_bit_rest(c, 0);
        lemma_bit_chain(c, 25);
        crate::decay::lemma_factor_chain_bound(rem, 0, 25);
    }
    lemma_duration(c, now, t_note);
    let times = c.duration[0][2];
    lemma_shift(c, windowed, value, times);
    let shifted = c.shift[1][3];
    assert(shifted == crate::decay::years_decayed(value, (now - t_note) as nat));
    assert(shifted <= value) by {
        if times < 63 {
            vstd::arithmetic::power2::lemma_pow2_pos(times);
            vstd::arithmetic::div_mod::lemma_div_is_ordered_by_denominator(
                value as int,
                1,
                pow2(times) as int,
            );
            vstd::arithmetic::div_mod::lemma_div_basics(value as int);
        }
    }
    assert(shifted * factor <= 0x8000_0000_0000_0000nat * 0x1_0000_0000_0000_0000nat)
        by (nonlinear_arith)
        requires
            shifted <= 0x8000_0000_0000_0000nat,
            factor <= 0x1_0000_0000_0000_0000nat,
    ;
    lemma_division(shifted * factor + HALF as nat, c.round[0][2], c.round[0][3]);
}

// --------------------------------------------------------------------------------- assignment

/// A row of six cells.
pub(crate) fn row(a: u128, b: u128, c: u128, d: u128, e: u128, f: u128) -> (r: Vec<Base>)
    ensures
        crate::hash::values(r@) == seq![
            a as nat,
            b as nat,
            c as nat,
            d as nat,
            e as nat,
            f as nat,
        ],
{
    let mut r: Vec<Base> = Vec::new();
    r.push(Base::from_u128(a));
    r.push(Base::from_u128(b));
    r.push(Base::from_u128(c));
    r.push(Base::from_u128(d));
    r.push(Base::from_u128(e));
    r.push(Base::from_u128(f));
    assert(crate::hash::values(r@) =~= seq![
        a as nat,
        b as nat,
        c as nat,
        d as nat,
        e as nat,
        f as nat,
    ]);
    r
}

/// The honest cells of a row of the window chain.
pub open spec fn window_row(t: WindowedTrace, j: int) -> Seq<nat> {
    if j < 5 {
        seq![
            t.f@[j] as nat,
            t.f@[j + 1] as nat,
            t.f_rem@[j] as nat,
            t.digits@[j] as nat,
            t.rem as nat / pow2((5 * j) as nat),
            t.factors@[j] as nat,
        ]
    } else {
        seq![t.f@[5] as nat, 0, 0, 0, 0, 0]
    }
}

/// The honest cells of the window chain.
pub open spec fn window_rows(t: WindowedTrace) -> Seq<Seq<nat>> {
    Seq::new(6, |j: int| window_row(t, j))
}

/// The honest cells of a row of the bit chain.
pub open spec fn bit_row(t: DecayTrace, i: int) -> Seq<nat> {
    if i < 25 {
        seq![
            t.f@[i] as nat,
            t.f_next@[i] as nat,
            t.f_rem@[i] as nat,
            if t.bits@[i] {
                1nat
            } else {
                0nat
            },
            t.rem as nat / pow2(i as nat),
            0,
        ]
    } else {
        seq![t.f@[25] as nat, 0, 0, 0, 0, 0]
    }
}

/// The honest cells of the bit chain.
pub open spec fn bit_rows(t: DecayTrace) -> Seq<Seq<nat>> {
    Seq::new(26, |i: int| bit_row(t, i))
}

/// The honest cells of the rest: duration, shift and rounding.
pub open spec fn tail_cells(
    chain: Seq<Seq<nat>>,
    now: nat,
    value: nat,
    t_note: nat,
    times: nat,
    rem: nat,
    shift: ShiftTrace,
    factor: nat,
    result: nat,
    round_rem: nat,
) -> DecayCells {
    DecayCells {
        chain,
        duration: seq![
            seq![now, t_note, times, rem, (SECONDS_PER_YEAR - 1 - rem) as nat, 0],
        ],
        shift: seq![
            seq![
                value,
                shift.q as nat,
                shift.r as nat,
                shift.shift as nat,
                if shift.big {
                    1nat
                } else {
                    0nat
                },
                shift.pow as nat,
            ],
            seq![
                0,
                times,
                if shift.big {
                    (times - W1_SHIFT_LIMIT) as nat
                } else {
                    0nat
                },
                shift.shifted as nat,
                (shift.pow - 1 - shift.r) as nat,
                0,
            ],
        ],
        round: seq![seq![shift.shifted as nat, factor, result, round_rem, 0, 0]],
    }
}

/// Five steps, one per 5-bit window of `rem`, each factor from the table.
fn assign_window_chain(t: &WindowedTrace) -> (r: Vec<Vec<Base>>)
    ensures
        super::gate::cells(r@) == window_rows(*t),
{
    let mut r: Vec<Vec<Base>> = Vec::new();
    let mut rest: u64 = t.rem;
    let mut j: usize = 0;
    proof {
        vstd::arithmetic::power2::lemma2_to64();
        assert(t.rem as nat / pow2(0) == t.rem as nat);
    }
    while j < WINDOWS
        invariant
            j <= WINDOWS,
            r@.len() == j,
            rest as nat == t.rem as nat / pow2((5 * j) as nat),
            forall|i: int|
                0 <= i < j ==> crate::hash::values((#[trigger] r@[i])@) == window_rows(*t)[i],
        decreases WINDOWS - j,
    {
        let cells = row(
            t.f[j],
            t.f[j + 1],
            t.f_rem[j] as u128,
            t.digits[j] as u128,
            rest as u128,
            t.factors[j],
        );
        assert(crate::hash::values(cells@) =~= window_rows(*t)[j as int]);
        r.push(cells);
        proof {
            vstd::arithmetic::power2::lemma2_to64();
            vstd::arithmetic::power2::lemma_pow2_adds((5 * j) as nat, 5);
            vstd::arithmetic::power2::lemma_pow2_pos((5 * j) as nat);
            vstd::arithmetic::div_mod::lemma_div_denominator(
                t.rem as int,
                pow2((5 * j) as nat) as int,
                32,
            );
        }
        rest = rest / 32;
        j = j + 1;
    }
    let last = row(t.f[5], 0, 0, 0, 0, 0);
    assert(crate::hash::values(last@) =~= window_rows(*t)[5]);
    r.push(last);
    assert(super::gate::cells(r@) =~= window_rows(*t));
    r
}

/// 25 steps, one per bit of `rem`.
pub(crate) fn assign_bit_chain(t: &DecayTrace) -> (r: Vec<Vec<Base>>)
    ensures
        super::gate::cells(r@) == bit_rows(*t),
{
    let mut r: Vec<Vec<Base>> = Vec::new();
    let mut rest: u64 = t.rem;
    let mut i: usize = 0;
    proof {
        vstd::arithmetic::power2::lemma2_to64();
        assert(t.rem as nat / pow2(0) == t.rem as nat);
    }
    while i < REM_BITS
        invariant
            i <= REM_BITS,
            r@.len() == i,
            rest as nat == t.rem as nat / pow2(i as nat),
            forall|j: int|
                0 <= j < i ==> crate::hash::values((#[trigger] r@[j])@) == bit_rows(*t)[j],
        decreases REM_BITS - i,
    {
        let bit: u128 = if t.bits[i] {
            1
        } else {
            0
        };
        let cells = row(t.f[i], t.f_next[i] as u128, t.f_rem[i] as u128, bit, rest as u128, 0);
        assert(crate::hash::values(cells@) =~= bit_rows(*t)[i as int]);
        r.push(cells);
        proof {
            vstd::arithmetic::power2::lemma_pow2_unfold((i + 1) as nat);
            vstd::arithmetic::power2::lemma_pow2_pos(i as nat);
            vstd::arithmetic::div_mod::lemma_div_denominator(
                t.rem as int,
                pow2(i as nat) as int,
                2,
            );
            assert(pow2(i as nat) * 2 == pow2((i + 1) as nat));
        }
        rest = rest / 2;
        i = i + 1;
    }
    let last = row(t.f[25], 0, 0, 0, 0, 0);
    assert(crate::hash::values(last@) =~= bit_rows(*t)[25]);
    r.push(last);
    assert(super::gate::cells(r@) =~= bit_rows(*t));
    r
}

/// The parts of both traces the shared regions need.
struct Tail {
    times: u64,
    rem: u64,
    shift: ShiftTrace,
    factor: u128,
    result: u64,
    round_rem: u64,
}

/// The cells of all regions.
fn assign_tail(chain: Vec<Vec<Base>>, now: u64, value: u64, t_note: u64, t: &Tail) -> (r: DecayRows)
    requires
        t.rem < SECONDS_PER_YEAR,
        t.shift.big ==> t.times >= W1_SHIFT_LIMIT,
        t.shift.r < t.shift.pow,
    ensures
        r@ == tail_cells(
            super::gate::cells(chain@),
            now as nat,
            value as nat,
            t_note as nat,
            t.times as nat,
            t.rem as nat,
            t.shift,
            t.factor as nat,
            t.result as nat,
            t.round_rem as nat,
        ),
{
    let shift = &t.shift;
    let mut duration: Vec<Vec<Base>> = Vec::new();
    duration.push(
        row(
            now as u128,
            t_note as u128,
            t.times as u128,
            t.rem as u128,
            (SECONDS_PER_YEAR - 1 - t.rem) as u128,
            0,
        ),
    );
    let big: u128 = if shift.big {
        1
    } else {
        0
    };
    let w: u128 = if shift.big {
        (t.times - W1_SHIFT_LIMIT) as u128
    } else {
        0
    };
    let mut shifts: Vec<Vec<Base>> = Vec::new();
    shifts.push(row(value as u128, shift.q, shift.r, shift.shift as u128, big, shift.pow));
    shifts.push(row(0, t.times as u128, w, shift.shifted, shift.pow - 1 - shift.r, 0));
    let mut round: Vec<Vec<Base>> = Vec::new();
    round.push(row(shift.shifted, t.factor, t.result as u128, t.round_rem as u128, 0, 0));
    let r = DecayRows { chain, duration, shift: shifts, round };
    proof {
        let expected = tail_cells(
            super::gate::cells(chain@),
            now as nat,
            value as nat,
            t_note as nat,
            t.times as nat,
            t.rem as nat,
            t.shift,
            t.factor as nat,
            t.result as nat,
            t.round_rem as nat,
        );
        assert(r@.duration =~= expected.duration);
        assert(r@.shift[0] =~= expected.shift[0]);
        assert(r@.shift[1] =~= expected.shift[1]);
        assert(r@.shift =~= expected.shift);
        assert(r@.round =~= expected.round);
    }
    r
}

// ------------------------------------------------------------------------------- completeness

pub proof fn lemma_limits()
    ensures
        pow2(70) == 0x40_0000_0000_0000_0000nat,
        pow2(64) == 0x1_0000_0000_0000_0000nat,
        pow2(63) == 0x8000_0000_0000_0000nat,
        pow2(25) == 0x200_0000,
        pow2(0) == 1,
        pow2(5) == 32,
{
    vstd::arithmetic::power2::lemma2_to64();
    vstd::arithmetic::power2::lemma2_to64_rest();
    vstd::arithmetic::power2::lemma_pow2_adds(64, 6);
}

/// A window of the honest chain satisfies its step.
proof fn lemma_honest_window(c: DecayCells, t: WindowedTrace, value: nat, duration: nat, j: int)
    requires
        c.chain == window_rows(t),
        t.of(value, duration),
        0 <= j < 5,
    ensures
        c.step_satisfied(true, j),
{
    vstd::arithmetic::power2::lemma_pow2_pos((5 * j) as nat);
    vstd::arithmetic::power2::lemma_pow2_pos((5 * (j + 1)) as nat);
    let a = window_row(t, j);
    let b = window_row(t, j + 1);
    let rem = t.rem as nat;
    assert(c.chain[j] == a && c.chain[j + 1] == b);
    assert(c.step_rows(j)[0] == a && c.step_rows(j)[1] == b);
    lemma_limits();
    crate::decay::lemma_window_chain_bound(rem, (j + 1) as nat);
    assert(t.f@[j] * t.factors@[j] == t.f@[j + 1] * ONE + t.f_rem@[j]);
    assert(a[0] * a[5] - a[1] * ONE as nat - a[2] == 0);
    assert(b[0] == a[1]);
    // the digits
    let n = rem / pow2((5 * j) as nat);
    assert(t.digits@[j] as nat == n % 32);
    assert(b[4] == n / 32) by {
        vstd::arithmetic::power2::lemma_pow2_adds((5 * j) as nat, 5);
        vstd::arithmetic::power2::lemma_pow2_pos((5 * j) as nat);
        vstd::arithmetic::div_mod::lemma_div_denominator(
            rem as int,
            pow2((5 * j) as nat) as int,
            32,
        );
        if j == 4 {
            vstd::arithmetic::div_mod::lemma_basic_div(rem as int, pow2(25) as int);
        }
    }
    assert(a[4] - a[3] - b[4] * 32nat == 0);
}

/// A bit of the honest chain satisfies its step.
pub proof fn lemma_honest_bit(c: DecayCells, t: DecayTrace, value: nat, duration: nat, i: int)
    requires
        c.chain == bit_rows(t),
        t.of(value, duration),
        0 <= i < 25,
    ensures
        c.step_satisfied(false, i),
{
    vstd::arithmetic::power2::lemma_pow2_pos(i as nat);
    vstd::arithmetic::power2::lemma_pow2_pos((i + 1) as nat);
    let a = bit_row(t, i);
    let b = bit_row(t, i + 1);
    let rem = t.rem as nat;
    assert(c.chain[i] == a && c.chain[i + 1] == b);
    assert(c.step_rows(i)[0] == a && c.step_rows(i)[1] == b);
    lemma_limits();
    let p = DECAY_POWERS@[i] as nat;
    assert(seq![p][0] == p);
    assert(t.f_next@[i] * ONE + t.f_rem@[i] == t.f@[i] * DECAY_POWERS[i]);
    assert(a[0] * p - a[1] * ONE as nat - a[2] == 0);
    let n = rem / pow2(i as nat);
    assert(a[3] == n % 2);
    assert(a[3] * (1 - a[3]) == 0) by (nonlinear_arith)
        requires
            a[3] == 0 || a[3] == 1,
    ;
    let f = t.f@[i] as nat;
    assert(crate::decay::factor_chain(rem, 0, (i + 1) as nat) == (if t.bits@[i] {
        crate::decay::q64_product(f, p)
    } else {
        f
    }));
    vstd::arithmetic::div_mod::lemma_fundamental_div_mod_converse(
        (f * p) as int,
        ONE as int,
        a[1] as int,
        a[2] as int,
    );
    assert(b[0] - a[3] * a[1] - (1 - a[3]) * a[0] == 0) by (nonlinear_arith)
        requires
            a[3] == 1 ==> b[0] == a[1],
            a[3] == 0 ==> b[0] == a[0],
            a[3] == 0 || a[3] == 1,
    ;
    assert(b[4] == n / 2) by {
        vstd::arithmetic::power2::lemma_pow2_unfold((i + 1) as nat);
        vstd::arithmetic::power2::lemma_pow2_pos(i as nat);
        vstd::arithmetic::div_mod::lemma_div_denominator(rem as int, pow2(i as nat) as int, 2);
        assert(pow2(i as nat) * 2 == pow2((i + 1) as nat));
        if i == 24 {
            vstd::arithmetic::div_mod::lemma_basic_div(rem as int, pow2(25) as int);
        }
    }
    assert(a[4] - a[3] - b[4] * 2nat == 0);
}

/// Honest cells satisfy duration, shift and rounding.
proof fn lemma_honest_tail(
    c: DecayCells,
    windowed: bool,
    now: nat,
    value: nat,
    t_note: nat,
    times: u64,
    rem: nat,
    shift: ShiftTrace,
    factor: nat,
    result: nat,
    round_rem: nat,
)
    requires
        six_wide(c.chain, steps(windowed) + 1),
        c == tail_cells(
            c.chain,
            now,
            value,
            t_note,
            times as nat,
            rem,
            shift,
            factor,
            result,
            round_rem,
        ),
        t_note <= now < 0x1_0000_0000_0000_0000,
        value < 0x8000_0000_0000_0000,
        times as nat == (now - t_note) as nat / (SECONDS_PER_YEAR as nat),
        rem == (now - t_note) as nat % (SECONDS_PER_YEAR as nat),
        shift.of(value, times, W1_SHIFT_LIMIT),
        factor == c.chain[steps(windowed) as int][0],
        rem == c.chain[0][4],
        result * ONE as nat + round_rem == shift.shifted * factor + HALF,
        result < 0x1_0000_0000_0000_0000,
        round_rem < 0x1_0000_0000_0000_0000,
    ensures
        c.duration_satisfied(now, t_note),
        c.shift_satisfied(windowed, value),
        c.round_satisfied(windowed),
        six_wide(c.duration, 1),
        six_wide(c.shift, 2),
        six_wide(c.round, 1),
{
    lemma_limits();
    let d = c.duration[0];
    let year = SECONDS_PER_YEAR as nat;
    vstd::arithmetic::div_mod::lemma_fundamental_div_mod((now - t_note) as int, year as int);
    assert(d[0] - d[1] - d[2] * year - d[3] == 0);
    assert(d[4] - (SECONDS_PER_YEAR - 1) + d[3] == 0);
    assert(d[2] <= now - t_note) by {
        vstd::arithmetic::div_mod::lemma_div_is_ordered_by_denominator(
            (now - t_note) as int,
            1,
            year as int,
        );
        vstd::arithmetic::div_mod::lemma_div_basics((now - t_note) as int);
    }
    let a = c.shift[0];
    let b = c.shift[1];
    let s = shift.shift as nat;
    vstd::arithmetic::power2::lemma_pow2_pos(s);
    if s < 63 {
        vstd::arithmetic::power2::lemma_pow2_strictly_increases(s, 63);
    }
    vstd::arithmetic::div_mod::lemma_fundamental_div_mod(value as int, pow2(s) as int);
    vstd::arithmetic::div_mod::lemma_mod_bound(value as int, pow2(s) as int);
    vstd::arithmetic::div_mod::lemma_div_is_ordered_by_denominator(
        value as int,
        1,
        pow2(s) as int,
    );
    vstd::arithmetic::div_mod::lemma_div_basics(value as int);
    assert(a[1] * a[5] == a[5] * a[1]) by (nonlinear_arith);
    assert(a[0] - a[1] * a[5] - a[2] == 0);
    let big = a[4];
    assert(big * (1 - big) == 0 && (1 - big) * (b[1] - a[3]) == 0 && big * a[3] == 0 && b[2] - big
        * (b[1] - W1_SHIFT_LIMIT) == 0 && b[3] - (1 - big) * a[1] == 0) by (nonlinear_arith)
        requires
            big == 0 || big == 1,
            big == 0 ==> b[1] == a[3] && b[2] == 0 && b[3] == a[1],
            big == 1 ==> a[3] == 0 && b[2] == b[1] - W1_SHIFT_LIMIT && b[3] == 0,
    ;
    assert(b[4] - (a[5] - 1 - a[2]) == 0);
    let r = c.round[0];
    assert(r[0] * r[1] + HALF as nat - r[2] * ONE as nat - r[3] == 0);
}

// --------------------------------------------------------------------------------------- chip

/// The gates and the table of the chip. With `WINDOWED` the factor chain runs over five 5-bit
/// windows instead of 25 bits.
#[derive(Debug)]
pub struct DecayConfig<const WINDOWED: bool> {
    pub step: Gate,
    pub duration: Gate,
    pub year_shift: Gate,
    pub round: Gate,
    /// one table for both uses: `(tag, x, y)` with `tag = SHIFT_TAG` for `(s, 2^s)` and
    /// `tag = window index` for the window factors
    pub table: Vec<(u64, u64, u128)>,
}

impl<const WINDOWED: bool> DecayConfig<WINDOWED> {
    /// The gates say what the chip has to prove, and the table is complete.
    pub open spec fn wf(self) -> bool {
        &&& forall|rows: Seq<Seq<nat>>, fixed: Seq<nat>| #[trigger]
            self.step.holds(rows, fixed) <==> if WINDOWED {
                window_step_holds(rows)
            } else {
                bit_step_holds(rows, fixed)
            }
        &&& forall|rows: Seq<Seq<nat>>, fixed: Seq<nat>|
            six_wide(rows, 2) && fixed.len() == 1 ==> #[trigger] self.step.reads_within(rows, fixed)
        &&& forall|rows: Seq<Seq<nat>>, fixed: Seq<nat>| #[trigger]
            self.duration.holds(rows, fixed) <==> duration_holds(rows)
        &&& forall|rows: Seq<Seq<nat>>, fixed: Seq<nat>|
            six_wide(rows, 1) ==> #[trigger] self.duration.reads_within(rows, fixed)
        &&& forall|rows: Seq<Seq<nat>>, fixed: Seq<nat>| #[trigger]
            self.year_shift.holds(rows, fixed) <==> year_shift_holds(rows)
        &&& forall|rows: Seq<Seq<nat>>, fixed: Seq<nat>|
            six_wide(rows, 2) ==> #[trigger] self.year_shift.reads_within(rows, fixed)
        &&& forall|rows: Seq<Seq<nat>>, fixed: Seq<nat>| #[trigger]
            self.round.holds(rows, fixed) <==> round_holds(rows)
        &&& forall|rows: Seq<Seq<nat>>, fixed: Seq<nat>|
            six_wide(rows, 1) ==> #[trigger] self.round.reads_within(rows, fixed)
        &&& is_table(WINDOWED, self.table@)
    }

    /// The gates and the table.
    pub fn configure() -> (r: Self)
        ensures
            r.wf(),
    {
        let step = if WINDOWED {
            window_step_gate()
        } else {
            bit_step_gate()
        };
        DecayConfig {
            step,
            duration: duration_gate(),
            year_shift: year_shift_gate(),
            round: round_gate(),
            table: load(WINDOWED),
        }
    }

    /// The cells for `decayed = decay(value, now - t_note)`. A note from the future has no valid
    /// cells: `now - t_note` cannot be written as `times * year + rem` with small parts, so the
    /// gate fails.
    pub fn decay(now: u64, value: u64, t_note: u64) -> (r: DecayRows)
        requires
            value < 0x8000_0000_0000_0000,
        ensures
            r@.shaped(WINDOWED),
            t_note <= now ==> r@.satisfied(WINDOWED, now as nat, value as nat, t_note as nat),
            t_note <= now && WINDOWED ==> r@.decayed() == crate::decay::decayed_windowed(
                value as nat,
                (now - t_note) as nat,
            ),
            t_note <= now && !WINDOWED ==> r@.decayed() == crate::decay::decayed(
                value as nat,
                (now - t_note) as nat,
            ),
    {
        let duration: u64 = if t_note <= now {
            now - t_note
        } else {
            0
        };
        if WINDOWED {
            let t = windowed_trace(value, duration);
            let chain = assign_window_chain(&t);
            let tail = Tail {
                times: t.times,
                rem: t.rem,
                shift: t.shift,
                factor: t.f[5],
                result: t.result,
                round_rem: t.round_rem,
            };
            proof {
                lemma_limits();
                vstd::arithmetic::power2::lemma_pow2_pos(tail.shift.shift as nat);
                vstd::arithmetic::div_mod::lemma_mod_bound(
                    value as int,
                    pow2(tail.shift.shift as nat) as int,
                );
            }
            let r = assign_tail(chain, now, value, t_note, &tail);
            proof {
                let c = r@;
                assert forall|j: int| 0 <= j < 6 implies #[trigger] c.chain[j] == window_row(
                    t,
                    j,
                ) && c.chain[j].len() == 6 by {
                    vstd::arithmetic::power2::lemma_pow2_pos((5 * j) as nat);
                }
                if t_note <= now {
                    assert forall|j: int| 0 <= j < 5 implies #[trigger] c.step_satisfied(
                        true,
                        j,
                    ) by {
                        lemma_honest_window(c, t, value as nat, duration as nat, j);
                    }
                    assert(t.rem as nat / 1 == t.rem as nat);
                    lemma_honest_tail(
                        c,
                        true,
                        now as nat,
                        value as nat,
                        t_note as nat,
                        t.times,
                        t.rem as nat,
                        t.shift,
                        t.f@[5] as nat,
                        t.result as nat,
                        t.round_rem as nat,
                    );
                }
            }
            r
        } else {
            let t = decay_trace(value, duration);
            let chain = assign_bit_chain(&t);
            let tail = Tail {
                times: t.times,
                rem: t.rem,
                shift: t.shift,
                factor: t.f[25],
                result: t.result,
                round_rem: t.round_rem,
            };
            proof {
                lemma_limits();
                vstd::arithmetic::power2::lemma_pow2_pos(tail.shift.shift as nat);
                vstd::arithmetic::div_mod::lemma_mod_bound(
                    value as int,
                    pow2(tail.shift.shift as nat) as int,
                );
            }
            let r = assign_tail(chain, now, value, t_note, &tail);
            proof {
                let c = r@;
                assert forall|i: int| 0 <= i < 26 implies #[trigger] c.chain[i] == bit_row(t, i)
                    && c.chain[i].len() == 6 by {
                    vstd::arithmetic::power2::lemma_pow2_pos(i as nat);
                }
                if t_note <= now {
                    assert forall|i: int| 0 <= i < 25 implies #[trigger] c.step_satisfied(
                        false,
                        i,
                    ) by {
                        lemma_honest_bit(c, t, value as nat, duration as nat, i);
                    }
                    assert(t.rem as nat / 1 == t.rem as nat);
                    lemma_honest_tail(
                        c,
                        false,
                        now as nat,
                        value as nat,
                        t_note as nat,
                        t.times,
                        t.rem as nat,
                        t.shift,
                        t.f@[25] as nat,
                        t.result as nat,
                        t.round_rem as nat,
                    );
                }
            }
            r
        }
    }

    /// Whether cells satisfy the chip.
    pub fn check(&self, rows: &DecayRows, now: &Base, value: &Base, t_note: &Base) -> (r: bool)
        requires
            self.wf(),
            rows@.shaped(WINDOWED),
        ensures
            r == rows@.satisfied(WINDOWED, now@, value@, t_note@),
    {
        proof {
            lemma_shape(*rows, WINDOWED);
        }
        self.check_chain(rows) && self.check_duration(rows, now, t_note) && self.check_shift(
            rows,
            value,
        ) && self.check_round(rows)
    }

    fn check_chain(&self, rows: &DecayRows) -> (r: bool)
        requires
            self.wf(),
            rows@.shaped(WINDOWED),
        ensures
            r == rows@.chain_satisfied(WINDOWED),
    {
        let n: usize = if WINDOWED {
            WINDOWS
        } else {
            REM_BITS
        };
        proof {
            lemma_shape(*rows, WINDOWED);
            lemma_limits();
        }
        let ghost c = rows@;
        if !rows.chain[0][0].same(&Base::from_u128(ONE)) || !rows.chain[n][4].is_zero() {
            return false;
        }
        let mut i: usize = 0;
        while i < n
            invariant
                i <= n,
                n == steps(WINDOWED),
                self.wf(),
                c == rows@,
                c.shaped(WINDOWED),
                rows.chain@.len() == n + 1,
                forall|j: int|
                    0 <= j < rows.chain@.len() ==> (#[trigger] rows.chain@[j])@.len() == 6,
                c.chain[0][0] == ONE,
                c.chain[n as int][4] == 0,
                forall|j: int| 0 <= j < i ==> #[trigger] c.step_satisfied(WINDOWED, j),
            decreases n - i,
        {
            let two = vstd::slice::slice_subrange(rows.chain.as_slice(), i, i + 2);
            let power: u64 = if WINDOWED {
                0
            } else {
                DECAY_POWERS[i]
            };
            let fixed: [Base; 1] = [Base::from_u64(power)];
            proof {
                lemma_limits();
                assert(super::gate::cells(two@) =~= c.step_rows(i as int));
                assert(six_wide(c.step_rows(i as int), 2)) by {
                    assert(c.step_rows(i as int)[0] == c.chain[i as int]);
                    assert(c.step_rows(i as int)[1] == c.chain[i + 1]);
                }
                assert(crate::hash::values(fixed@) =~= seq![power as nat]);
                assert(c.chain[i as int] == crate::hash::values(rows.chain@[i as int]@));
            }
            let step = self.step.check(two, fixed.as_slice());
            let found = !WINDOWED || looked_up(
                self.table.as_slice(),
                i as u64,
                &rows.chain[i][3],
                &rows.chain[i][5],
                WINDOWED,
            );
            if !step || !found || !check_bits(&rows.chain[i][1], RANGE_BITS) || !check_bits(
                &rows.chain[i][2],
                EXACT_REM_BITS,
            ) {
                assert(!c.step_satisfied(WINDOWED, i as int));
                return false;
            }
            assert(c.step_satisfied(WINDOWED, i as int));
            i = i + 1;
        }
        true
    }

    fn check_duration(&self, rows: &DecayRows, now: &Base, t_note: &Base) -> (r: bool)
        requires
            self.wf(),
            rows@.shaped(WINDOWED),
        ensures
            r == rows@.duration_satisfied(now@, t_note@),
    {
        proof {
            lemma_shape(*rows, WINDOWED);
        }
        let fixed: [Base; 0] = [];
        let d = &rows.duration[0];
        self.duration.check(rows.duration.as_slice(), fixed.as_slice()) && d[0].same(now)
            && d[1].same(t_note) && d[3].same(&rows.chain[0][4]) && check_bits(&d[2], RANGE_BITS)
            && check_bits(&d[4], RANGE_BITS)
    }

    fn check_shift(&self, rows: &DecayRows, value: &Base) -> (r: bool)
        requires
            self.wf(),
            rows@.shaped(WINDOWED),
        ensures
            r == rows@.shift_satisfied(WINDOWED, value@),
    {
        proof {
            lemma_shape(*rows, WINDOWED);
        }
        let fixed: [Base; 0] = [];
        let a = &rows.shift[0];
        let b = &rows.shift[1];
        self.year_shift.check(rows.shift.as_slice(), fixed.as_slice()) && looked_up(
            self.table.as_slice(),
            SHIFT_TAG,
            &a[3],
            &a[5],
            WINDOWED,
        ) && a[0].same(value) && b[1].same(&rows.duration[0][2]) && check_bits(&a[1], RANGE_BITS)
            && check_bits(&a[2], RANGE_BITS) && check_bits(&b[4], RANGE_BITS) && check_bits(
            &b[2],
            RANGE_BITS,
        )
    }

    fn check_round(&self, rows: &DecayRows) -> (r: bool)
        requires
            self.wf(),
            rows@.shaped(WINDOWED),
        ensures
            r == rows@.round_satisfied(WINDOWED),
    {
        proof {
            lemma_shape(*rows, WINDOWED);
        }
        let n: usize = if WINDOWED {
            WINDOWS
        } else {
            REM_BITS
        };
        let fixed: [Base; 0] = [];
        let a = &rows.round[0];
        self.round.check(rows.round.as_slice(), fixed.as_slice()) && a[0].same(&rows.shift[1][3])
            && a[1].same(&rows.chain[n][0]) && check_bits(&a[2], RANGE_BITS) && check_bits(
            &a[3],
            EXACT_REM_BITS,
        )
    }
}

/// The vectors have the lengths of the model.
pub proof fn lemma_shape(rows: DecayRows, windowed: bool)
    requires
        rows@.shaped(windowed),
    ensures
        rows.chain@.len() == steps(windowed) + 1,
        rows.duration@.len() == 1,
        rows.shift@.len() == 2,
        rows.round@.len() == 1,
        forall|i: int| 0 <= i < rows.chain@.len() ==> (#[trigger] rows.chain@[i])@.len() == 6,
        rows.duration@[0]@.len() == 6,
        rows.shift@[0]@.len() == 6,
        rows.shift@[1]@.len() == 6,
        rows.round@[0]@.len() == 6,
{
    assert forall|i: int| 0 <= i < rows.chain@.len() implies (#[trigger] rows.chain@[i])@.len()
        == 6 by {
        assert(rows@.chain[i].len() == 6);
    }
    assert(rows@.duration[0].len() == 6);
    assert(rows@.shift[0].len() == 6);
    assert(rows@.shift[1].len() == 6);
    assert(rows@.round[0].len() == 6);
}

} // verus!
