//! Three ways to handle decay in a shielded transfer, built on the same gadgets so their costs can
//! be compared.
//!
//! * `MODE_ANCHORED`: notes store `u = amount * 2^((t - T0) / year)`, the circuit only adds. Values
//!   grow every year, up to 160 bits.
//! * `MODE_EPOCH`: notes store their value anchored to the start of their own year (factor in
//!   `[1, 2)`, about 96 bits). Spending `k` years later divides by `2^k` in the circuit.
//! * `MODE_EXACT`: notes store the nominal value and their timestamp. The circuit recomputes the
//!   decay bit for bit (see `crate::decay`).
//!
//! Every mode proves `sum(effective inputs) == sum(outputs)` with all values range-checked, bound
//! to a public sighash. Public instance: `[sighash, now]`, where `now` is the time of the
//! transaction (exact) or the current epoch (epoch).
//!
//! Range checks: one row checks 64 bits with eight byte limbs, each looked up in a 256 row table;
//! wider values chain several rows.
use vstd::arithmetic::power2::pow2;
use vstd::prelude::*;

use super::decay_chip::{
    assign_bit_chain, bit_step_gate, duration_gate, gate1, gate2, number, one, round_gate, row,
    DecayCells, DecayRows,
};
use super::gate::{constant, cur, difference, next, product, sum, Expr, Gate};
use crate::decay::{
    decay, decay_trace, shift_trace, DecayTrace, ShiftTrace, DECAY_POWERS, HALF, ONE, REM_BITS,
    SECONDS_PER_YEAR, W1_SHIFT_LIMIT,
};
use crate::pallas::Base;

verus! {

broadcast use vstd::array::group_array_axioms;

pub const MODE_ANCHORED: usize = 0;

pub const MODE_EPOCH: usize = 1;

pub const MODE_EXACT: usize = 2;

/// Epoch values are below `2^96`, so shifting by 96 or more yields 0.
pub const W2_SHIFT_LIMIT: u64 = 96;

/// The power table holds `(s, 2^s)` for `s` in `0..=POW_TABLE_MAX`.
pub const POW_TABLE_MAX: u64 = 127;

// -------------------------------------------------------------------------------------- model

/// 64 bit chunks a value may occupy in each mode.
pub open spec fn chunks_of(mode: usize) -> nat {
    if mode == MODE_ANCHORED {
        3
    } else if mode == MODE_EPOCH {
        2
    } else {
        1
    }
}

/// One past the largest number of some chunks.
pub open spec fn chunk_limit(chunks: nat) -> nat {
    crate::bytes::pow256(8 * chunks)
}

/// What is left of `value` after a shift by `k`, with nothing left from `limit` on.
pub open spec fn shifted(value: nat, k: nat, limit: nat) -> nat {
    if k >= limit {
        0
    } else {
        value / pow2(k)
    }
}

/// The value that a note contributes to the balance. Of a value that does not fit into the mode,
/// the lowest chunks count.
pub open spec fn effective(mode: usize, value: nat, tag: nat, now: nat) -> nat {
    if mode == MODE_ANCHORED {
        value
    } else if mode == MODE_EPOCH {
        shifted(value % chunk_limit(2), (now - tag) as nat, W2_SHIFT_LIMIT as nat)
    } else {
        crate::decay::decayed(value % chunk_limit(1), (now - tag) as nat)
    }
}

/// Notes that the mode can handle: not from the future, and nominal values are positive as signed
/// 64 bit numbers.
pub open spec fn handles(mode: usize, value: nat, tag: nat, now: nat) -> bool {
    &&& mode != MODE_ANCHORED ==> tag <= now
    &&& mode != MODE_ANCHORED && mode != MODE_EPOCH ==> value % chunk_limit(1)
        < 0x8000_0000_0000_0000
}

/// The sum of some numbers.
pub open spec fn total(s: Seq<nat>) -> nat
    decreases s.len(),
{
    if s.len() == 0 {
        0
    } else {
        total(s.drop_last()) + s.last()
    }
}

/// What the notes contribute together.
pub open spec fn effectives(mode: usize, inputs: Seq<nat>, tags: Seq<u64>, now: nat) -> Seq<nat> {
    Seq::new(inputs.len(), |i: int| effective(mode, inputs[i], tags[i] as nat, now))
}

/// Whether a witness satisfies the circuit for the public `now`.
pub open spec fn accepted(
    mode: usize,
    inputs: Seq<nat>,
    tags: Seq<u64>,
    outputs: Seq<nat>,
    now: nat,
    public_now: nat,
) -> bool {
    &&& forall|i: int|
        0 <= i < inputs.len() ==> #[trigger] inputs[i] < chunk_limit(chunks_of(mode))
    &&& forall|j: int|
        0 <= j < outputs.len() ==> #[trigger] outputs[j] < chunk_limit(chunks_of(mode))
    &&& mode != MODE_ANCHORED && inputs.len() > 0 ==> public_now == now
    &&& super::gate::vanishes(total(effectives(mode, inputs, tags, now)) - total(outputs))
}

proof fn lemma_chunk_limits()
    ensures
        chunk_limit(0) == 1,
        chunk_limit(1) == 0x1_0000_0000_0000_0000nat,
        chunk_limit(2) == 0x1_0000_0000_0000_0000_0000_0000_0000_0000nat,
        chunk_limit(3) == 0x1_0000_0000_0000_0000_0000_0000_0000_0000_0000_0000_0000_0000nat,
{
    reveal_with_fuel(crate::bytes::pow256, 25);
}

/// 64 bit chunks a value may occupy in each mode.
pub fn value_chunks(mode: usize) -> (r: usize)
    ensures
        r as nat == chunks_of(mode),
{
    if mode == MODE_ANCHORED {
        3
    } else if mode == MODE_EPOCH {
        2
    } else {
        1
    }
}

pub fn mode_name(mode: usize) -> (r: &'static str)
    ensures
        mode == MODE_ANCHORED ==> r@ == "E2 anchored"@,
        mode == MODE_EPOCH ==> r@ == "way 2 epoch"@,
        mode != MODE_ANCHORED && mode != MODE_EPOCH ==> r@ == "way 1 exact"@,
{
    if mode == MODE_ANCHORED {
        "E2 anchored"
    } else if mode == MODE_EPOCH {
        "way 2 epoch"
    } else {
        "way 1 exact"
    }
}

/// Rows one spent note occupies:
/// `(rows in the arithmetic columns, rows in the range check columns)`.
/// Both can stand side by side, so a note costs roughly the larger number.
pub fn rows_per_input(mode: usize) -> (r: (usize, usize))
    ensures
        mode == MODE_ANCHORED ==> r == (1usize, 3usize),
        mode == MODE_EPOCH ==> r == (3usize, 10usize),
        mode != MODE_ANCHORED && mode != MODE_EPOCH ==> r == (30usize, 59usize),
{
    if mode == MODE_ANCHORED {
        // value; 3 chained range rows
        (1, 3)
    } else if mode == MODE_EPOCH {
        // epoch + shift; k, w and 4 values of 2 chunks
        (1 + 2, 1 + 1 + 4 * 2)
    } else {
        // factor chain 26 + duration + shift 2 + round;
        // 25 * 2 chain values, times, rem bound, 4 shift values, w, result, round rem
        (REM_BITS + 1 + 1 + 2 + 1, REM_BITS * 2 + 2 + 4 + 1 + 2)
    }
}

/// Value a note contributes to the balance after decay handling.
pub fn effective_value(mode: usize, value: Base, tag: u64, now: u64) -> (r: Base)
    requires
        handles(mode, value@, tag as nat, now as nat),
    ensures
        r@ == effective(mode, value@, tag as nat, now as nat),
{
    proof {
        lemma_chunk_limits();
    }
    if mode == MODE_ANCHORED {
        value
    } else if mode == MODE_EPOCH {
        Base::from_u128(shift_trace(value.low_half(), now - tag, W2_SHIFT_LIMIT).shifted)
    } else {
        Base::from_u64(decay(value.low_u64(), now - tag))
    }
}

// -------------------------------------------------------------------------------------- gates

/// Rows of nine cells: a chunk and its eight byte limbs.
pub open spec fn nine_wide(rows: Seq<Seq<nat>>, n: nat) -> bool {
    &&& rows.len() == n
    &&& forall|i: int| 0 <= i < rows.len() ==> (#[trigger] rows[i]).len() == 9
}

/// `sum(limb_j * 2^(8 j))` over the first `n` limbs.
pub open spec fn limb_sum(cells: Seq<nat>, n: nat) -> nat
    decreases n,
{
    if n == 0 {
        0
    } else {
        limb_sum(cells, (n - 1) as nat) + cells[n as int] * crate::bytes::pow256((n - 1) as nat)
    }
}

/// `value = sum(limb_j * 2^(8 j))`.
pub open spec fn last_chunk_holds(rows: Seq<Seq<nat>>) -> bool {
    super::gate::vanishes(rows[0][0] - limb_sum(rows[0], 8))
}

/// `value = sum(limb_j * 2^(8 j)) + 2^64 * next chunk`.
pub open spec fn chained_chunk_holds(rows: Seq<Seq<nat>>) -> bool {
    super::gate::vanishes(rows[0][0] - limb_sum(rows[0], 8) - rows[1][0] * ONE as nat)
}

/// `v = q * 2^s + r` and `shifted = q`, or 0 with `s = 0` once `k >= limit`.
/// Columns: `v, q, 2^s, r, big`, then `s, k, w, shifted, 2^s - 1 - r`.
pub open spec fn shift_holds(rows: Seq<Seq<nat>>, limit: nat) -> bool {
    let a = rows[0];
    let b = rows[1];
    &&& super::gate::vanishes(a[0] - a[1] * a[2] - a[3])
    &&& super::gate::vanishes(a[4] * (1 - a[4]))
    &&& super::gate::vanishes((1 - a[4]) * (b[1] - b[0]))
    &&& super::gate::vanishes((a[4] * b[0]) as int)
    &&& super::gate::vanishes(b[2] - a[4] * (b[1] - limit))
    &&& super::gate::vanishes(b[3] - (1 - a[4]) * a[1])
    &&& super::gate::vanishes(b[4] - (a[2] - 1 - a[3]))
}

/// `k = now - epoch`. Columns: `now, epoch, k`.
pub open spec fn epoch_holds(rows: Seq<Seq<nat>>) -> bool {
    super::gate::vanishes(rows[0][0] - rows[0][1] - rows[0][2])
}

/// The sum of the first column over `n` rows from `from` on.
pub open spec fn column_sum(rows: Seq<Seq<nat>>, from: nat, n: nat) -> nat
    decreases n,
{
    if n == 0 {
        0
    } else {
        column_sum(rows, from, (n - 1) as nat) + rows[from + n - 1][0]
    }
}

/// `sum(effective inputs) == sum(outputs)`, laid out in consecutive rows.
pub open spec fn balance_holds(rows: Seq<Seq<nat>>, ni: nat, no: nat) -> bool {
    super::gate::vanishes(column_sum(rows, 0, ni) - column_sum(rows, ni, no))
}

/// Rows with a first column.
pub open spec fn not_empty(rows: Seq<Seq<nat>>, n: nat) -> bool {
    &&& rows.len() == n
    &&& forall|i: int| 0 <= i < rows.len() ==> (#[trigger] rows[i]).len() > 0
}

/// `2^(8 j)` as a field element.
fn limb_weight(j: usize) -> (r: Base)
    requires
        j < 8,
    ensures
        r@ == crate::bytes::pow256(j as nat),
{
    let mut w: u64 = 1;
    let mut i: usize = 0;
    while i < j
        invariant
            i <= j < 8,
            w as nat == crate::bytes::pow256(i as nat),
        decreases j - i,
    {
        proof {
            crate::bytes::lemma_pow256_monotone((i + 1) as nat, 7);
            reveal_with_fuel(crate::bytes::pow256, 8);
        }
        w = w * 256;
        i = i + 1;
    }
    Base::from_u64(w)
}

/// `sum(limb_j * 2^(8 j))` of a row.
fn limb_sum_expr() -> (r: Expr)
    ensures
        forall|rows: Seq<Seq<nat>>, fixed: Seq<nat>| #[trigger]
            r.value(rows, fixed) == limb_sum(rows[0], 8),
        forall|rows: Seq<Seq<nat>>, fixed: Seq<nat>|
            rows.len() > 0 && rows[0].len() == 9 ==> #[trigger] r.reads_within(rows, fixed),
{
    let mut acc = constant(Base::zero());
    let mut j: usize = 0;
    while j < 8
        invariant
            j <= 8,
            forall|rows: Seq<Seq<nat>>, fixed: Seq<nat>| #[trigger]
                acc.value(rows, fixed) == limb_sum(rows[0], j as nat),
            forall|rows: Seq<Seq<nat>>, fixed: Seq<nat>|
                rows.len() > 0 && rows[0].len() == 9 ==> #[trigger] acc.reads_within(rows, fixed),
        decreases 8 - j,
    {
        let limb = product(cur(j + 1), constant(limb_weight(j)));
        let ghost before = acc;
        acc = sum(acc, limb);
        proof {
            assert forall|rows: Seq<Seq<nat>>, fixed: Seq<nat>| #[trigger]
                acc.value(rows, fixed) == limb_sum(rows[0], (j + 1) as nat) by {
                reveal_with_fuel(Expr::value, 3);
                assert(before.value(rows, fixed) == limb_sum(rows[0], j as nat));
                assert(limb.value(rows, fixed) == rows[0][j + 1] * crate::bytes::pow256(j as nat));
            }
            assert forall|rows: Seq<Seq<nat>>, fixed: Seq<nat>|
                rows.len() > 0 && rows[0].len() == 9 implies #[trigger] acc.reads_within(
                rows,
                fixed,
            ) by {
                reveal_with_fuel(Expr::reads_within, 3);
                assert(before.reads_within(rows, fixed));
            }
        }
        j = j + 1;
    }
    acc
}

fn last_chunk_gate() -> (r: Gate)
    ensures
        forall|rows: Seq<Seq<nat>>, fixed: Seq<nat>| #[trigger]
            r.holds(rows, fixed) <==> last_chunk_holds(rows),
        forall|rows: Seq<Seq<nat>>, fixed: Seq<nat>|
            nine_wide(rows, 1) ==> #[trigger] r.reads_within(rows, fixed),
{
    let limbs = limb_sum_expr();
    let ghost total = limbs;
    let p = difference(cur(0), limbs);
    let r = gate1("range check last chunk", p);
    proof {
        assert(r.polys@[0] == p);
        assert forall|rows: Seq<Seq<nat>>, fixed: Seq<nat>| #[trigger]
            r.holds(rows, fixed) <==> last_chunk_holds(rows) by {
            reveal_with_fuel(Expr::value, 2);
            assert(total.value(rows, fixed) == limb_sum(rows[0], 8));
            assert(p.value(rows, fixed) == rows[0][0] - limb_sum(rows[0], 8));
        }
        assert forall|rows: Seq<Seq<nat>>, fixed: Seq<nat>| nine_wide(rows, 1) implies #[trigger]
            r.reads_within(rows, fixed) by {
            reveal_with_fuel(Expr::reads_within, 2);
            assert(rows[0].len() == 9);
            assert(total.reads_within(rows, fixed));
        }
    }
    r
}

/// Unlike that of the last chunk, this one reads the next row.
fn chained_chunk_gate() -> (r: Gate)
    ensures
        forall|rows: Seq<Seq<nat>>, fixed: Seq<nat>| #[trigger]
            r.holds(rows, fixed) <==> chained_chunk_holds(rows),
        forall|rows: Seq<Seq<nat>>, fixed: Seq<nat>|
            nine_wide(rows, 2) ==> #[trigger] r.reads_within(rows, fixed),
{
    let limbs = limb_sum_expr();
    let ghost total = limbs;
    let rest = product(next(0), number(ONE));
    let p = difference(difference(cur(0), limbs), rest);
    let r = gate1("range check chained chunk", p);
    proof {
        assert(r.polys@[0] == p);
        assert forall|rows: Seq<Seq<nat>>, fixed: Seq<nat>| #[trigger]
            r.holds(rows, fixed) <==> chained_chunk_holds(rows) by {
            reveal_with_fuel(Expr::value, 3);
            assert(total.value(rows, fixed) == limb_sum(rows[0], 8));
            assert(rest.value(rows, fixed) == rows[1][0] * ONE as nat);
            assert(p.value(rows, fixed) == rows[0][0] - limb_sum(rows[0], 8) - rows[1][0]
                * ONE as nat);
        }
        assert forall|rows: Seq<Seq<nat>>, fixed: Seq<nat>| nine_wide(rows, 2) implies #[trigger]
            r.reads_within(rows, fixed) by {
            reveal_with_fuel(Expr::reads_within, 3);
            assert(rows[0].len() == 9 && rows[1].len() == 9);
            assert(total.reads_within(rows, fixed));
        }
    }
    r
}

fn shift_gate(limit: u64) -> (r: Gate)
    ensures
        forall|rows: Seq<Seq<nat>>, fixed: Seq<nat>| #[trigger]
            r.holds(rows, fixed) <==> shift_holds(rows, limit as nat),
        forall|rows: Seq<Seq<nat>>, fixed: Seq<nat>|
            super::decay_chip::six_wide(rows, 2) ==> #[trigger] r.reads_within(rows, fixed),
{
    let p0 = difference(difference(cur(0), product(cur(1), cur(2))), cur(3));
    let p1 = product(cur(4), difference(one(), cur(4)));
    let p2 = product(difference(one(), cur(4)), difference(next(1), next(0)));
    let p3 = product(cur(4), next(0));
    let p4 = difference(
        next(2),
        product(cur(4), difference(next(1), number(limit as u128))),
    );
    let p5 = difference(next(3), product(difference(one(), cur(4)), cur(1)));
    let p6 = difference(next(4), difference(difference(cur(2), one()), cur(3)));
    let mut r = gate2("shift", p0, p1);
    r.polys.push(p2);
    r.polys.push(p3);
    r.polys.push(p4);
    r.polys.push(p5);
    r.polys.push(p6);
    proof {
        let ps = r.polys@;
        assert(ps =~= seq![p0, p1, p2, p3, p4, p5, p6]);
        assert forall|rows: Seq<Seq<nat>>, fixed: Seq<nat>| #[trigger]
            r.holds(rows, fixed) <==> shift_holds(rows, limit as nat) by {
            reveal_with_fuel(Expr::value, 5);
            let a = rows[0];
            let b = rows[1];
            assert(ps[0].value(rows, fixed) == a[0] - a[1] * a[2] - a[3]);
            assert(ps[1].value(rows, fixed) == a[4] * (1 - a[4]));
            assert(ps[2].value(rows, fixed) == (1 - a[4]) * (b[1] - b[0]));
            assert(ps[3].value(rows, fixed) == a[4] * b[0]);
            assert(ps[4].value(rows, fixed) == b[2] - a[4] * (b[1] - limit));
            assert(ps[5].value(rows, fixed) == b[3] - (1 - a[4]) * a[1]);
            assert(ps[6].value(rows, fixed) == b[4] - (a[2] - 1 - a[3]));
        }
        assert forall|rows: Seq<Seq<nat>>, fixed: Seq<nat>|
            super::decay_chip::six_wide(rows, 2) implies #[trigger] r.reads_within(rows, fixed) by {
            reveal_with_fuel(Expr::reads_within, 5);
            assert(rows[0].len() == 6 && rows[1].len() == 6);
        }
    }
    r
}

fn epoch_gate() -> (r: Gate)
    ensures
        forall|rows: Seq<Seq<nat>>, fixed: Seq<nat>| #[trigger]
            r.holds(rows, fixed) <==> epoch_holds(rows),
        forall|rows: Seq<Seq<nat>>, fixed: Seq<nat>|
            super::decay_chip::six_wide(rows, 1) ==> #[trigger] r.reads_within(rows, fixed),
{
    let p = difference(difference(cur(0), cur(1)), cur(2));
    let r = gate1("epoch", p);
    proof {
        assert(r.polys@[0] == p);
        assert forall|rows: Seq<Seq<nat>>, fixed: Seq<nat>| #[trigger]
            r.holds(rows, fixed) <==> epoch_holds(rows) by {
            reveal_with_fuel(Expr::value, 3);
            assert(p.value(rows, fixed) == rows[0][0] - rows[0][1] - rows[0][2]);
        }
        assert forall|rows: Seq<Seq<nat>>, fixed: Seq<nat>|
            super::decay_chip::six_wide(rows, 1) implies #[trigger] r.reads_within(rows, fixed) by {
            reveal_with_fuel(Expr::reads_within, 3);
            assert(rows[0].len() == 6);
        }
    }
    r
}

fn balance_gate(ni: usize, no: usize) -> (r: Gate)
    requires
        ni + no <= usize::MAX,
    ensures
        forall|rows: Seq<Seq<nat>>, fixed: Seq<nat>| #[trigger]
            r.holds(rows, fixed) <==> balance_holds(rows, ni as nat, no as nat),
        forall|rows: Seq<Seq<nat>>, fixed: Seq<nat>|
            not_empty(rows, (ni + no) as nat) ==> #[trigger] r.reads_within(rows, fixed),
{
    let mut acc = constant(Base::zero());
    let mut i: usize = 0;
    while i < ni
        invariant
            i <= ni,
            forall|rows: Seq<Seq<nat>>, fixed: Seq<nat>| #[trigger]
                acc.value(rows, fixed) == column_sum(rows, 0, i as nat),
            forall|rows: Seq<Seq<nat>>, fixed: Seq<nat>|
                not_empty(rows, (ni + no) as nat) ==> #[trigger] acc.reads_within(rows, fixed),
        decreases ni - i,
    {
        let ghost before = acc;
        acc = sum(acc, Expr::Advice { column: 0, rotation: i });
        proof {
            assert forall|rows: Seq<Seq<nat>>, fixed: Seq<nat>| #[trigger]
                acc.value(rows, fixed) == column_sum(rows, 0, (i + 1) as nat) by {
                reveal_with_fuel(Expr::value, 2);
                assert(before.value(rows, fixed) == column_sum(rows, 0, i as nat));
            }
            assert forall|rows: Seq<Seq<nat>>, fixed: Seq<nat>|
                not_empty(rows, (ni + no) as nat) implies #[trigger] acc.reads_within(
                rows,
                fixed,
            ) by {
                reveal_with_fuel(Expr::reads_within, 2);
                assert(before.reads_within(rows, fixed));
                assert(rows[i as int].len() > 0);
            }
        }
        i = i + 1;
    }
    let mut j: usize = 0;
    while j < no
        invariant
            j <= no,
            ni + no <= usize::MAX,
            forall|rows: Seq<Seq<nat>>, fixed: Seq<nat>| #[trigger]
                acc.value(rows, fixed) == column_sum(rows, 0, ni as nat) - column_sum(
                    rows,
                    ni as nat,
                    j as nat,
                ),
            forall|rows: Seq<Seq<nat>>, fixed: Seq<nat>|
                not_empty(rows, (ni + no) as nat) ==> #[trigger] acc.reads_within(rows, fixed),
        decreases no - j,
    {
        let ghost before = acc;
        acc = difference(acc, Expr::Advice { column: 0, rotation: ni + j });
        proof {
            assert forall|rows: Seq<Seq<nat>>, fixed: Seq<nat>| #[trigger]
                acc.value(rows, fixed) == column_sum(rows, 0, ni as nat) - column_sum(
                    rows,
                    ni as nat,
                    (j + 1) as nat,
                ) by {
                reveal_with_fuel(Expr::value, 2);
                assert(before.value(rows, fixed) == column_sum(rows, 0, ni as nat) - column_sum(
                    rows,
                    ni as nat,
                    j as nat,
                ));
            }
            assert forall|rows: Seq<Seq<nat>>, fixed: Seq<nat>|
                not_empty(rows, (ni + no) as nat) implies #[trigger] acc.reads_within(
                rows,
                fixed,
            ) by {
                reveal_with_fuel(Expr::reads_within, 2);
                assert(before.reads_within(rows, fixed));
                assert(rows[ni + j].len() > 0);
            }
        }
        j = j + 1;
    }
    let ghost total = acc;
    let r = gate1("balance", acc);
    proof {
        assert(r.polys@[0] == total);
        assert forall|rows: Seq<Seq<nat>>, fixed: Seq<nat>| #[trigger]
            r.holds(rows, fixed) <==> balance_holds(rows, ni as nat, no as nat) by {
            assert(total.value(rows, fixed) == column_sum(rows, 0, ni as nat) - column_sum(
                rows,
                ni as nat,
                no as nat,
            ));
        }
        assert forall|rows: Seq<Seq<nat>>, fixed: Seq<nat>|
            not_empty(rows, (ni + no) as nat) implies #[trigger] r.reads_within(rows, fixed) by {
            assert(total.reads_within(rows, fixed));
        }
    }
    r
}

// -------------------------------------------------------------------------------------- table

/// Whether the power table has the row `(s, 2^s)`.
pub open spec fn in_powers(s: nat, pow: nat) -> bool {
    s <= POW_TABLE_MAX && pow == pow2(s)
}

/// `2^s` at position `s`.
pub open spec fn is_power_table(powers: Seq<u128>) -> bool {
    &&& powers.len() == 128
    &&& forall|s: int| 0 <= s < 128 ==> (#[trigger] powers[s]) as nat == pow2(s as nat)
}

fn power_table() -> (r: Vec<u128>)
    ensures
        is_power_table(r@),
{
    let mut r: Vec<u128> = Vec::new();
    let mut pow: u128 = 1;
    proof {
        vstd::arithmetic::power2::lemma2_to64();
        vstd::arithmetic::power2::lemma2_to64_rest();
        vstd::arithmetic::power2::lemma_pow2_adds(64, 63);
    }
    r.push(pow);
    while r.len() < 128
        invariant
            1 <= r@.len() <= 128,
            pow as nat == pow2((r@.len() - 1) as nat),
            pow2(127) == 0x8000_0000_0000_0000_0000_0000_0000_0000nat,
            forall|s: int| 0 <= s < r@.len() ==> (#[trigger] r@[s]) as nat == pow2(s as nat),
        decreases 128 - r@.len(),
    {
        proof {
            vstd::arithmetic::power2::lemma_pow2_unfold(r@.len());
            if r@.len() < 127 {
                vstd::arithmetic::power2::lemma_pow2_strictly_increases(r@.len(), 127);
            }
        }
        pow = pow * 2;
        r.push(pow);
    }
    r
}

fn looked_up(powers: &[u128], s: &Base, pow: &Base) -> (r: bool)
    requires
        is_power_table(powers@),
    ensures
        r == in_powers(s@, pow@),
{
    let mut i: usize = 0;
    while i < powers.len()
        invariant
            i <= powers@.len(),
            is_power_table(powers@),
            forall|j: int| 0 <= j < i ==> !(j as nat == s@ && #[trigger] pow2(j as nat) == pow@),
        decreases powers@.len() - i,
    {
        if Base::from_u64(i as u64).same(s) && Base::from_u128(powers[i]).same(pow) {
            return true;
        }
        i = i + 1;
    }
    proof {
        if in_powers(s@, pow@) {
            let j = s@ as int;
            assert(pow2(j as nat) == pow@);
        }
    }
    false
}

// ------------------------------------------------------------------------------ configuration

/// The gates of a mode and its power table. What a mode does not use is absent.
#[derive(Debug)]
pub struct DecayBenchConfig {
    pub range_last: Gate,
    pub range_chain: Gate,
    pub shift: Option<Gate>,
    pub epoch: Option<Gate>,
    pub step: Option<Gate>,
    pub duration: Option<Gate>,
    pub round: Option<Gate>,
    pub balance: Gate,
    pub powers: Vec<u128>,
}

impl DecayBenchConfig {
    /// The gates say what the mode has to prove.
    pub open spec fn wf(self, mode: usize, ni: usize, no: usize) -> bool {
        &&& self.ranges_wf()
        &&& self.shift is Some <==> mode != MODE_ANCHORED
        &&& mode != MODE_ANCHORED ==> self.shift_wf(
            if mode == MODE_EPOCH {
                W2_SHIFT_LIMIT
            } else {
                W1_SHIFT_LIMIT
            },
        )
        &&& self.epoch is Some <==> mode == MODE_EPOCH
        &&& mode == MODE_EPOCH ==> self.epoch_wf()
        &&& self.step is Some <==> mode == MODE_EXACT
        &&& self.duration is Some <==> self.step is Some
        &&& self.round is Some <==> self.step is Some
        &&& self.step is Some ==> self.decay_wf()
        &&& self.balance_wf(ni, no)
    }

    /// The gates of the range checks.
    pub open spec fn ranges_wf(self) -> bool {
        &&& forall|rows: Seq<Seq<nat>>, fixed: Seq<nat>| #[trigger]
            self.range_last.holds(rows, fixed) <==> last_chunk_holds(rows)
        &&& forall|rows: Seq<Seq<nat>>, fixed: Seq<nat>|
            nine_wide(rows, 1) ==> #[trigger] self.range_last.reads_within(rows, fixed)
        &&& forall|rows: Seq<Seq<nat>>, fixed: Seq<nat>| #[trigger]
            self.range_chain.holds(rows, fixed) <==> chained_chunk_holds(rows)
        &&& forall|rows: Seq<Seq<nat>>, fixed: Seq<nat>|
            nine_wide(rows, 2) ==> #[trigger] self.range_chain.reads_within(rows, fixed)
    }

    /// Gate and table of the shift.
    pub open spec fn shift_wf(self, limit: u64) -> bool {
        &&& is_power_table(self.powers@)
        &&& forall|rows: Seq<Seq<nat>>, fixed: Seq<nat>| #[trigger]
            self.shift->0.holds(rows, fixed) <==> shift_holds(rows, limit as nat)
        &&& forall|rows: Seq<Seq<nat>>, fixed: Seq<nat>|
            super::decay_chip::six_wide(rows, 2) ==> #[trigger] self.shift->0.reads_within(
                rows,
                fixed,
            )
    }

    /// Gate of the years between two epochs.
    pub open spec fn epoch_wf(self) -> bool {
        &&& forall|rows: Seq<Seq<nat>>, fixed: Seq<nat>| #[trigger]
            self.epoch->0.holds(rows, fixed) <==> epoch_holds(rows)
        &&& forall|rows: Seq<Seq<nat>>, fixed: Seq<nat>|
            super::decay_chip::six_wide(rows, 1) ==> #[trigger] self.epoch->0.reads_within(
                rows,
                fixed,
            )
    }

    /// The gates of the exact decay.
    pub open spec fn decay_wf(self) -> bool {
        &&& forall|rows: Seq<Seq<nat>>, fixed: Seq<nat>| #[trigger]
            self.step->0.holds(rows, fixed) <==> super::decay_chip::bit_step_holds(rows, fixed)
        &&& forall|rows: Seq<Seq<nat>>, fixed: Seq<nat>|
            super::decay_chip::six_wide(rows, 2) && fixed.len() == 1
                ==> #[trigger] self.step->0.reads_within(rows, fixed)
        &&& forall|rows: Seq<Seq<nat>>, fixed: Seq<nat>| #[trigger]
            self.duration->0.holds(rows, fixed) <==> super::decay_chip::duration_holds(rows)
        &&& forall|rows: Seq<Seq<nat>>, fixed: Seq<nat>|
            super::decay_chip::six_wide(rows, 1) ==> #[trigger] self.duration->0.reads_within(
                rows,
                fixed,
            )
        &&& forall|rows: Seq<Seq<nat>>, fixed: Seq<nat>| #[trigger]
            self.round->0.holds(rows, fixed) <==> super::decay_chip::round_holds(rows)
        &&& forall|rows: Seq<Seq<nat>>, fixed: Seq<nat>|
            super::decay_chip::six_wide(rows, 1) ==> #[trigger] self.round->0.reads_within(
                rows,
                fixed,
            )
    }

    /// Gate of the balance.
    pub open spec fn balance_wf(self, ni: usize, no: usize) -> bool {
        &&& forall|rows: Seq<Seq<nat>>, fixed: Seq<nat>| #[trigger]
            self.balance.holds(rows, fixed) <==> balance_holds(rows, ni as nat, no as nat)
        &&& forall|rows: Seq<Seq<nat>>, fixed: Seq<nat>|
            not_empty(rows, (ni + no) as nat) ==> #[trigger] self.balance.reads_within(rows, fixed)
    }
}

/// The gates and the table for `ni` inputs and `no` outputs.
pub fn configure_impl(mode: usize, ni: usize, no: usize) -> (r: DecayBenchConfig)
    requires
        mode <= MODE_EXACT,
        ni + no <= usize::MAX,
    ensures
        r.wf(mode, ni, no),
{
    let exact = mode == MODE_EXACT;
    let limit: u64 = if exact {
        W1_SHIFT_LIMIT
    } else {
        W2_SHIFT_LIMIT
    };
    DecayBenchConfig {
        range_last: last_chunk_gate(),
        range_chain: chained_chunk_gate(),
        shift: if mode != MODE_ANCHORED {
            Some(shift_gate(limit))
        } else {
            None
        },
        epoch: if mode == MODE_EPOCH {
            Some(epoch_gate())
        } else {
            None
        },
        step: if exact {
            Some(bit_step_gate())
        } else {
            None
        },
        duration: if exact {
            Some(duration_gate())
        } else {
            None
        },
        round: if exact {
            Some(round_gate())
        } else {
            None
        },
        balance: balance_gate(ni, no),
        powers: if mode != MODE_ANCHORED {
            power_table()
        } else {
            Vec::new()
        },
    }
}

// ------------------------------------------------------------------------------- range checks

/// Every limb of a row is a byte.
pub open spec fn limbs_are_bytes(cells: Seq<nat>) -> bool {
    forall|j: int| 1 <= j < 9 ==> #[trigger] cells[j] < 256
}

/// Whether some rows are a range check of a value with as many chunks.
pub open spec fn range_satisfied(rows: Seq<Seq<nat>>, value: nat) -> bool {
    &&& nine_wide(rows, rows.len())
    &&& rows.len() > 0
    &&& rows[0][0] == value
    &&& forall|i: int| 0 <= i < rows.len() ==> limbs_are_bytes(#[trigger] rows[i])
    &&& forall|i: int|
        0 <= i < rows.len() - 1 ==> chained_chunk_holds(#[trigger] rows.subrange(i, i + 2))
    &&& last_chunk_holds(rows.subrange(rows.len() - 1, rows.len() as int))
}

proof fn lemma_limb_sum_bound(cells: Seq<nat>, n: nat)
    requires
        n <= 8,
        limbs_are_bytes(cells),
    ensures
        limb_sum(cells, n) < crate::bytes::pow256(n),
    decreases n,
{
    if n > 0 {
        lemma_limb_sum_bound(cells, (n - 1) as nat);
        let p = crate::bytes::pow256((n - 1) as nat);
        let l = cells[n as int];
        assert(l * p <= 255 * p) by (nonlinear_arith)
            requires
                l <= 255,
        ;
    }
}

proof fn lemma_chunk_bound(rows: Seq<Seq<nat>>, value: nat, i: int)
    requires
        range_satisfied(rows, value),
        rows.len() <= 3,
        0 <= i < rows.len(),
        forall|k: int| 0 <= k < rows.len() ==> (#[trigger] rows[k])[0] < crate::pallas::base_modulus(),
    ensures
        rows[i][0] < chunk_limit((rows.len() - i) as nat),
    decreases rows.len() - i,
{
    lemma_chunk_limits();
    let a = rows[i];
    assert(limbs_are_bytes(a));
    lemma_limb_sum_bound(a, 8);
    let low = limb_sum(a, 8);
    if i == rows.len() - 1 {
        let w = rows.subrange(i, i + 1);
        assert(w[0] == a);
        super::gate::lemma_small_zero(a[0] - low);
    } else {
        lemma_chunk_bound(rows, value, i + 1);
        let w = rows.subrange(i, i + 2);
        assert(chained_chunk_holds(w));
        assert(w[0] == a && w[1] == rows[i + 1]);
        super::gate::lemma_small_zero(a[0] - low - rows[i + 1][0] * ONE as nat);
    }
}

/// A range check is sound: whatever cells satisfy it, the value fits into the chunks.
pub proof fn range_check_is_sound(rows: Seq<Seq<nat>>, value: nat)
    requires
        range_satisfied(rows, value),
        rows.len() <= 3,
        forall|i: int|
            0 <= i < rows.len() ==> (#[trigger] rows[i])[0] < crate::pallas::base_modulus(),
    ensures
        value < chunk_limit(rows.len()),
{
    lemma_chunk_bound(rows, value, 0);
}

/// A row of the range check: a chunk and the bytes of the value from `at` on.
fn range_row(chunk: Base, bytes: &[u8; 32], at: usize) -> (r: Vec<Base>)
    requires
        at + 8 <= 32,
    ensures
        crate::hash::values(r@).len() == 9,
        crate::hash::values(r@)[0] == chunk@,
        forall|j: int| 1 <= j < 9 ==> #[trigger] crate::hash::values(r@)[j] == bytes@[at + j - 1] as nat,
{
    let mut r: Vec<Base> = Vec::new();
    r.push(chunk);
    let mut j: usize = 0;
    while j < 8
        invariant
            j <= 8,
            at + 8 <= 32,
            r@.len() == j + 1,
            r@[0]@ == chunk@,
            forall|k: int| 1 <= k <= j ==> (#[trigger] r@[k])@ == bytes@[at + k - 1] as nat,
        decreases 8 - j,
    {
        r.push(Base::from_u64(bytes[at + j] as u64));
        j = j + 1;
    }
    r
}

proof fn lemma_limbs_of_bytes(cells: Seq<nat>, bytes: Seq<u8>, n: nat)
    requires
        n <= bytes.len(),
        forall|j: int| 1 <= j <= n ==> #[trigger] cells[j] == bytes[j - 1] as nat,
    ensures
        limb_sum(cells, n) == crate::bytes::le_nat(bytes.take(n as int)),
    decreases n,
{
    if n == 0 {
        assert(bytes.take(0) =~= Seq::empty());
    } else {
        let m = n - 1;
        lemma_limbs_of_bytes(cells, bytes, m as nat);
        assert(bytes.take(n as int) =~= bytes.take(m).push(bytes[m]));
        crate::bytes::lemma_le_nat_push(bytes.take(m), bytes[m]);
        assert(cells[n as int] * crate::bytes::pow256(m as nat) == crate::bytes::pow256(m as nat)
            * bytes[m]) by (nonlinear_arith)
            requires
                cells[n as int] == bytes[m] as nat,
        ;
    }
}

/// The limbs of chunk `i` are what the chunk holds below the next one.
proof fn lemma_honest_limbs(v: nat, i: nat, cells: Seq<nat>)
    requires
        i < 3,
        forall|j: int|
            1 <= j < 9 ==> #[trigger] cells[j] == crate::bytes::le_bytes(v, 32)[8 * i + j - 1] as nat,
    ensures
        limb_sum(cells, 8) == (v / chunk_limit(i)) % chunk_limit(1),
        v / chunk_limit(i + 1) == (v / chunk_limit(i)) / chunk_limit(1),
{
    let bytes = crate::bytes::le_bytes(v, 32);
    crate::bytes::lemma_le_bytes_len(v, 32);
    crate::bytes::lemma_le_bytes_skip(v, 32, 8 * i);
    let top = v / crate::bytes::pow256(8 * i);
    let rest = bytes.skip((8 * i) as int);
    assert forall|j: int| 1 <= j <= 8 implies #[trigger] cells[j] == rest[j - 1] as nat by {
        assert(rest[j - 1] == bytes[8 * i + j - 1]);
    }
    lemma_limbs_of_bytes(cells, rest, 8);
    crate::bytes::lemma_le_bytes_take(top, (32 - 8 * i) as nat, 8);
    crate::bytes::lemma_le_nat_of_low_bytes(top, 8);
    lemma_chunk_limits();
    assert(8 * (i + 1) == 8 * i + 8);
    assert(chunk_limit(i + 1) == chunk_limit(i) * chunk_limit(1));
    vstd::arithmetic::div_mod::lemma_div_denominator(
        v as int,
        chunk_limit(i) as int,
        chunk_limit(1) as int,
    );
}

proof fn lemma_trailing_zeros(s: Seq<u8>, n: nat)
    requires
        n <= s.len(),
        forall|i: int| n <= i < s.len() ==> s[i] == 0,
    ensures
        crate::bytes::le_nat(s) == crate::bytes::le_nat(s.take(n as int)),
    decreases s.len(),
{
    if n < s.len() {
        let t = s.drop_last();
        lemma_trailing_zeros(t, n);
        assert(s =~= t.push(s.last()));
        crate::bytes::lemma_le_nat_push(t, s.last());
        assert(t.take(n as int) =~= s.take(n as int));
        assert(crate::bytes::pow256(t.len()) * 0 == 0);
    } else {
        assert(s.take(n as int) =~= s);
    }
}

/// `v >> (64 * chunk)` as a field element.
fn chunk_of(v: &Base, chunk: usize) -> (r: Base)
    requires
        chunk < 3,
    ensures
        r@ == v@ / chunk_limit(chunk as nat),
{
    let repr = v.to_repr();
    let mut bytes: [u8; 32] = [0u8; 32];
    let n: usize = 32 - 8 * chunk;
    let mut i: usize = 0;
    while i < n
        invariant
            i <= n,
            n == 32 - 8 * chunk,
            chunk < 3,
            forall|j: int| 0 <= j < i ==> bytes@[j] == repr@[8 * chunk + j],
            forall|j: int| i <= j < 32 ==> bytes@[j] == 0,
        decreases n - i,
    {
        bytes[i] = repr[8 * chunk + i];
        i = i + 1;
    }
    proof {
        use_type_invariant(v);
        crate::pallas::lemma_base_fits(*v);
        let c = (8 * chunk) as nat;
        crate::bytes::lemma_le_bytes_len(v@, 32);
        crate::bytes::lemma_le_bytes_skip(v@, 32, c);
        assert(bytes@.take(n as int) =~= repr@.skip(c as int));
        lemma_trailing_zeros(bytes@, n as nat);
        crate::bytes::lemma_pow256_positive(c);
        crate::bytes::lemma_pow256_positive(n as nat);
        lemma_split(c, n as nat);
        vstd::arithmetic::div_mod::lemma_div_by_multiple_is_strongly_ordered(
            v@ as int,
            crate::bytes::pow256(32) as int,
            crate::bytes::pow256(n as nat) as int,
            crate::bytes::pow256(c) as int,
        );
        vstd::arithmetic::div_mod::lemma_div_by_multiple(
            crate::bytes::pow256(n as nat) as int,
            crate::bytes::pow256(c) as int,
        );
        crate::bytes::lemma_le_nat_of_le_bytes(v@ / crate::bytes::pow256(c), n as nat);
        vstd::arithmetic::div_mod::lemma_div_is_ordered_by_denominator(
            v@ as int,
            1,
            crate::bytes::pow256(c) as int,
        );
        vstd::arithmetic::div_mod::lemma_div_basics(v@ as int);
    }
    match Base::from_repr(&bytes) {
        Some(r) => r,
        None => Base::zero(),
    }
}

proof fn lemma_split(a: nat, b: nat)
    ensures
        crate::bytes::pow256(a + b) == crate::bytes::pow256(a) * crate::bytes::pow256(b),
    decreases b,
{
    if b > 0 {
        lemma_split(a, (b - 1) as nat);
        let x = crate::bytes::pow256(a);
        let y = crate::bytes::pow256((b - 1) as nat);
        assert(256 * (x * y) == x * (256 * y)) by (nonlinear_arith);
    } else {
        assert(crate::bytes::pow256(a) * 1 == crate::bytes::pow256(a));
    }
}

/// The rows of the range check of a value.
pub fn range_rows(cell: &Base, chunks: usize) -> (r: Vec<Vec<Base>>)
    requires
        1 <= chunks <= 3,
    ensures
        nine_wide(super::gate::cells(r@), chunks as nat),
        forall|i: int|
            #![trigger super::gate::cells(r@)[i]]
            0 <= i < chunks ==> {
                &&& super::gate::cells(r@)[i][0] == cell@ / chunk_limit(i as nat)
                &&& limbs_are_bytes(super::gate::cells(r@)[i])
                &&& limb_sum(super::gate::cells(r@)[i], 8) == (cell@ / chunk_limit(i as nat))
                    % chunk_limit(1)
            },
{
    let bytes = cell.to_repr();
    let mut r: Vec<Vec<Base>> = Vec::new();
    let mut i: usize = 0;
    let ghost v = cell@;
    while i < chunks
        invariant
            i <= chunks <= 3,
            v == cell@,
            bytes@ == crate::bytes::le_bytes(v, 32),
            r@.len() == i,
            forall|k: int|
                0 <= k < i ==> {
                    let c = crate::hash::values((#[trigger] r@[k])@);
                    &&& c.len() == 9
                    &&& c[0] == v / chunk_limit(k as nat)
                    &&& limbs_are_bytes(c)
                    &&& limb_sum(c, 8) == (v / chunk_limit(k as nat)) % chunk_limit(1)
                },
        decreases chunks - i,
    {
        let chunk = chunk_of(cell, i);
        let cells = range_row(chunk, &bytes, 8 * i);
        proof {
            lemma_honest_limbs(v, i as nat, crate::hash::values(cells@));
        }
        r.push(cells);
        i = i + 1;
    }
    proof {
        let c = super::gate::cells(r@);
        assert forall|k: int| 0 <= k < chunks implies #[trigger] c[k] == crate::hash::values(
            r@[k]@,
        ) by {}
    }
    r
}

/// Range check `cell < 2^(64 * chunks)`: the gates over the chunks and their limbs.
pub fn range_check(config: &DecayBenchConfig, cell: &Base, chunks: usize) -> (r: bool)
    requires
        config.ranges_wf(),
        1 <= chunks <= 3,
    ensures
        r == (cell@ < chunk_limit(chunks as nat)),
{
    let rows = range_rows(cell, chunks);
    let ghost c = super::gate::cells(rows@);
    let ghost v = cell@;
    let fixed: [Base; 0] = [];
    proof {
        lemma_chunk_limits();
        use_type_invariant(cell);
    }
    let mut i: usize = 0;
    while i + 1 < chunks
        invariant
            i < chunks <= 3,
            v == cell@,
            config.ranges_wf(),
            c == super::gate::cells(rows@),
            nine_wide(c, chunks as nat),
            forall|k: int|
                #![trigger c[k]]
                0 <= k < chunks ==> c[k][0] == v / chunk_limit(k as nat) && limb_sum(c[k], 8) == (v
                    / chunk_limit(k as nat)) % chunk_limit(1),
        decreases chunks - i,
    {
        let two = vstd::slice::slice_subrange(rows.as_slice(), i, i + 2);
        proof {
            let w = super::gate::cells(two@);
            assert(w =~= c.subrange(i as int, i + 2));
            assert(w[0] == c[i as int] && w[1] == c[i + 1]);
            lemma_next_chunk(v, i as nat);
        }
        if !config.range_chain.check(two, fixed.as_slice()) {
            assert(false);
            return false;
        }
        i = i + 1;
    }
    let one = vstd::slice::slice_subrange(rows.as_slice(), i, i + 1);
    proof {
        let w = super::gate::cells(one@);
        assert(w =~= c.subrange(i as int, i + 1));
        assert(w[0] == c[i as int]);
        lemma_last_chunk(v, i as nat);
    }
    config.range_last.check(one, fixed.as_slice())
}

/// A chunk is its limbs and the next chunk.
proof fn lemma_next_chunk(v: nat, i: nat)
    requires
        i < 2,
    ensures
        super::gate::vanishes(
            v / chunk_limit(i) - (v / chunk_limit(i)) % chunk_limit(1) - (v / chunk_limit(i + 1))
                * ONE as nat,
        ),
{
    lemma_chunk_limits();
    let x = v / chunk_limit(i);
    assert(chunk_limit(i + 1) == chunk_limit(i) * chunk_limit(1));
    vstd::arithmetic::div_mod::lemma_div_denominator(
        v as int,
        chunk_limit(i) as int,
        chunk_limit(1) as int,
    );
    vstd::arithmetic::div_mod::lemma_fundamental_div_mod(x as int, ONE as int);
    assert(x - x % chunk_limit(1) - (v / chunk_limit(i + 1)) * ONE as nat == 0);
}

/// The last chunk is its limbs exactly when the value fits.
proof fn lemma_last_chunk(v: nat, i: nat)
    requires
        i < 3,
        v < crate::pallas::base_modulus(),
    ensures
        super::gate::vanishes(v / chunk_limit(i) - (v / chunk_limit(i)) % chunk_limit(1)) <==> v
            < chunk_limit(i + 1),
{
    lemma_chunk_limits();
    let x = v / chunk_limit(i);
    assert(chunk_limit(i + 1) == chunk_limit(i) * chunk_limit(1));
    vstd::arithmetic::div_mod::lemma_div_denominator(
        v as int,
        chunk_limit(i) as int,
        chunk_limit(1) as int,
    );
    vstd::arithmetic::div_mod::lemma_fundamental_div_mod(x as int, ONE as int);
    vstd::arithmetic::div_mod::lemma_fundamental_div_mod(v as int, chunk_limit(i + 1) as int);
    vstd::arithmetic::div_mod::lemma_div_is_ordered_by_denominator(
        v as int,
        1,
        chunk_limit(i) as int,
    );
    vstd::arithmetic::div_mod::lemma_div_basics(v as int);
    let top = v / chunk_limit(i + 1);
    if v < chunk_limit(i + 1) {
        vstd::arithmetic::div_mod::lemma_basic_div(v as int, chunk_limit(i + 1) as int);
        assert(x - x % chunk_limit(1) == 0);
    } else {
        vstd::arithmetic::div_mod::lemma_div_non_zero(v as int, chunk_limit(i + 1) as int);
        assert(x - x % chunk_limit(1) == ONE * top);
        assert(ONE * top > 0) by (nonlinear_arith)
            requires
                top > 0,
                ONE == 0x1_0000_0000_0000_0000u128,
        ;
        if super::gate::vanishes(x - x % chunk_limit(1)) {
            super::gate::lemma_small_zero(x - x % chunk_limit(1));
        }
    }
}

// -------------------------------------------------------------------------------------- shift

/// A row of six cells whose first one is given as a field element.
fn led_row(first: &Base, b: u128, c: u128, d: u128, e: u128) -> (r: Vec<Base>)
    ensures
        crate::hash::values(r@) == seq![first@, b as nat, c as nat, d as nat, e as nat, 0],
{
    let mut r: Vec<Base> = Vec::new();
    r.push(*first);
    r.push(Base::from_u128(b));
    r.push(Base::from_u128(c));
    r.push(Base::from_u128(d));
    r.push(Base::from_u128(e));
    r.push(Base::zero());
    assert(crate::hash::values(r@) =~= seq![first@, b as nat, c as nat, d as nat, e as nat, 0]);
    r
}

/// The honest cells of a shift.
pub open spec fn shift_cells(value: nat, st: ShiftTrace, limit: nat) -> Seq<Seq<nat>> {
    seq![
        seq![
            value,
            st.q as nat,
            st.pow as nat,
            st.r as nat,
            if st.big {
                1nat
            } else {
                0nat
            },
            0,
        ],
        seq![
            st.shift as nat,
            st.k as nat,
            if st.big {
                (st.k - limit) as nat
            } else {
                0nat
            },
            st.shifted as nat,
            (st.pow - 1 - st.r) as nat,
            0,
        ],
    ]
}

/// Whether cells are a shift of a value by `k`, with range checks of some chunks.
pub open spec fn shift_satisfied(
    rows: Seq<Seq<nat>>,
    value: nat,
    k: nat,
    limit: nat,
    chunks: nat,
) -> bool {
    &&& super::decay_chip::six_wide(rows, 2)
    &&& shift_holds(rows, limit)
    &&& in_powers(rows[1][0], rows[0][2])
    &&& rows[0][0] == value
    &&& rows[1][1] == k
    &&& rows[0][0] < chunk_limit(chunks)
    &&& rows[0][1] < chunk_limit(chunks)
    &&& rows[0][3] < chunk_limit(chunks)
    &&& rows[1][4] < chunk_limit(chunks)
    &&& rows[1][2] < chunk_limit(1)
}

/// The two rows of the shift of a value.
pub fn assign_shift(value: &Base, st: &ShiftTrace, limit: u64) -> (r: Vec<Vec<Base>>)
    requires
        st.big ==> st.k >= limit,
        st.r < st.pow,
    ensures
        super::gate::cells(r@) == shift_cells(value@, *st, limit as nat),
{
    let big: u128 = if st.big {
        1
    } else {
        0
    };
    let w: u128 = if st.big {
        (st.k - limit) as u128
    } else {
        0
    };
    let mut r: Vec<Vec<Base>> = Vec::new();
    r.push(led_row(value, st.q, st.pow, st.r, big));
    r.push(row(st.shift as u128, st.k as u128, w, st.shifted, st.pow - 1 - st.r, 0));
    proof {
        let c = shift_cells(value@, *st, limit as nat);
        assert(super::gate::cells(r@)[0] =~= c[0]);
        assert(super::gate::cells(r@)[1] =~= c[1]);
        assert(super::gate::cells(r@) =~= c);
    }
    r
}

/// Whether cells are a shift of a value by `k`.
fn check_shift(
    config: &DecayBenchConfig,
    rows: &Vec<Vec<Base>>,
    value: &Base,
    k: &Base,
    limit: u64,
    chunks: usize,
) -> (r: bool)
    requires
        config.ranges_wf(),
        config.shift is Some,
        config.shift_wf(limit),
        1 <= chunks <= 3,
        super::decay_chip::six_wide(super::gate::cells(rows@), 2),
    ensures
        r == shift_satisfied(
            super::gate::cells(rows@),
            value@,
            k@,
            limit as nat,
            chunks as nat,
        ),
{
    let fixed: [Base; 0] = [];
    proof {
        let c = super::gate::cells(rows@);
        assert(c[0].len() == 6 && c[1].len() == 6);
    }
    let a = &rows[0];
    let b = &rows[1];
    match &config.shift {
        Some(gate) => gate.check(rows.as_slice(), fixed.as_slice()) && looked_up(
            config.powers.as_slice(),
            &b[0],
            &a[2],
        ) && a[0].same(value) && b[1].same(k) && range_check(config, &a[0], chunks) && range_check(
            config,
            &a[1],
            chunks,
        ) && range_check(config, &a[3], chunks) && range_check(config, &b[4], chunks)
            && range_check(config, &b[2], 1),
        None => false,
    }
}

/// Honest cells are a shift exactly when the value fits into the chunks.
proof fn lemma_honest_shift(value: nat, k: u64, st: ShiftTrace, limit: u64, chunks: nat)
    requires
        st.of(value % chunk_limit(chunks), k, limit),
        value < crate::pallas::base_modulus(),
        1 <= chunks <= 2,
        limit <= 64 * chunks,
    ensures
        shift_satisfied(
            shift_cells(value, st, limit as nat),
            value,
            k as nat,
            limit as nat,
            chunks,
        ) <==> value < chunk_limit(chunks),
        st.r < st.pow,
{
    lemma_chunk_limits();
    let rows = shift_cells(value, st, limit as nat);
    let a = rows[0];
    let b = rows[1];
    let low = value % chunk_limit(chunks);
    let s = st.shift as nat;
    vstd::arithmetic::power2::lemma2_to64();
    vstd::arithmetic::power2::lemma_pow2_adds(64, 64);
    vstd::arithmetic::power2::lemma_pow2_pos(s);
    if s < 64 * chunks {
        vstd::arithmetic::power2::lemma_pow2_strictly_increases(s, (64 * chunks) as nat);
    }
    let p = pow2(s);
    vstd::arithmetic::div_mod::lemma_fundamental_div_mod(low as int, p as int);
    vstd::arithmetic::div_mod::lemma_mod_bound(low as int, p as int);
    vstd::arithmetic::div_mod::lemma_div_is_ordered_by_denominator(low as int, 1, p as int);
    vstd::arithmetic::div_mod::lemma_div_basics(low as int);
    vstd::arithmetic::div_mod::lemma_mod_bound(value as int, chunk_limit(chunks) as int);
    assert(a[1] * a[2] == a[2] * a[1]) by (nonlinear_arith);
    assert(a[1] * a[2] + a[3] == low);
    assert(a[0] - a[1] * a[2] - a[3] == value - low);
    let big = a[4];
    assert(big * (1 - big) == 0 && (1 - big) * (b[1] - b[0]) == 0 && big * b[0] == 0 && b[2] - big
        * (b[1] - limit) == 0 && b[3] - (1 - big) * a[1] == 0) by (nonlinear_arith)
        requires
            big == 0 || big == 1,
            big == 0 ==> b[1] == b[0] && b[2] == 0 && b[3] == a[1],
            big == 1 ==> b[0] == 0 && b[2] == b[1] - limit && b[3] == 0,
    ;
    assert(b[4] - (a[2] - 1 - a[3]) == 0);
    if value < chunk_limit(chunks) {
        vstd::arithmetic::div_mod::lemma_small_mod(value, chunk_limit(chunks));
    } else if super::gate::vanishes(value - low) {
        super::gate::lemma_small_zero(value - low);
    }
}

/// `value = q * 2^s + r` with `r < 2^s`; the result is `q`, or 0 once `k >= limit`.
/// Range-checks everything with `chunks` chunks; `None` if a check fails.
pub fn shift(
    config: &DecayBenchConfig,
    value: &Base,
    k: u64,
    st: &ShiftTrace,
    limit: u64,
    chunks: usize,
) -> (r: Option<Base>)
    requires
        config.ranges_wf(),
        config.shift is Some,
        config.shift_wf(limit),
        1 <= chunks <= 2,
        limit <= 64 * chunks,
        st.of(value@ % chunk_limit(chunks as nat), k, limit),
    ensures
        r is Some <==> value@ < chunk_limit(chunks as nat),
        r matches Some(x) ==> x@ == shifted(value@, k as nat, limit as nat),
{
    proof {
        use_type_invariant(value);
        lemma_honest_shift(value@, k, *st, limit, chunks as nat);
    }
    let rows = assign_shift(value, st, limit);
    proof {
        assert(super::decay_chip::six_wide(super::gate::cells(rows@), 2));
        if value@ < chunk_limit(chunks as nat) {
            vstd::arithmetic::div_mod::lemma_small_mod(value@, chunk_limit(chunks as nat));
        }
    }
    if check_shift(config, &rows, value, &Base::from_u64(k), limit, chunks) {
        Some(Base::from_u128(st.shifted))
    } else {
        None
    }
}

/// A shift is sound: whatever cells satisfy it, the result is the shifted value. Values of an
/// epoch are below `2^96`; a shift by exactly 127 is left out, where the product of quotient and
/// power can exceed the order of the field.
pub proof fn satisfied_cells_hold_the_shifted_value(rows: Seq<Seq<nat>>, value: nat, k: nat)
    requires
        super::decay_chip::canonical_rows(rows),
        shift_satisfied(rows, value, k, W2_SHIFT_LIMIT as nat, 2),
        value < pow2(96),
        k < chunk_limit(1),
        k != 127,
    ensures
        rows[1][3] == shifted(value, k, W2_SHIFT_LIMIT as nat),
{
    super::decay_chip::lemma_no_zero_divisors();
    lemma_chunk_limits();
    let a = rows[0];
    let b = rows[1];
    super::decay_chip::lemma_flag(a[4]);
    vstd::arithmetic::power2::lemma2_to64();
    vstd::arithmetic::power2::lemma2_to64_rest();
    vstd::arithmetic::power2::lemma_pow2_adds(64, 32);
    vstd::arithmetic::power2::lemma_pow2_adds(64, 62);
    let big = a[4];
    let q = a[1];
    let pow = a[2];
    let r = a[3];
    if big == 0 {
        assert((1 - big) * (b[1] - b[0]) == b[1] - b[0] && (1 - big) * q == q) by (nonlinear_arith)
            requires
                big == 0,
        ;
        super::gate::lemma_small_zero(b[1] - b[0]);
        super::gate::lemma_small_zero(b[3] - q);
        if k < 126 {
            vstd::arithmetic::power2::lemma_pow2_strictly_increases(k, 126);
        }
        vstd::arithmetic::power2::lemma_pow2_pos(k);
        assert(q * pow <= 0xffff_ffff_ffff_ffff_ffff_ffff_ffff_ffffnat
            * 0x4000_0000_0000_0000_0000_0000_0000_0000nat) by (nonlinear_arith)
            requires
                q <= 0xffff_ffff_ffff_ffff_ffff_ffff_ffff_ffffnat,
                pow <= 0x4000_0000_0000_0000_0000_0000_0000_0000nat,
        ;
        super::gate::lemma_small_zero(a[0] - q * pow - r);
        super::gate::lemma_small_zero(b[4] - (pow - 1 - r));
        vstd::arithmetic::div_mod::lemma_fundamental_div_mod_converse(
            value as int,
            pow as int,
            q as int,
            r as int,
        );
        if k >= 96 {
            if k > 96 {
                vstd::arithmetic::power2::lemma_pow2_strictly_increases(96, k);
            }
            vstd::arithmetic::div_mod::lemma_basic_div(value as int, pow2(k) as int);
        }
    } else {
        assert(big * (b[1] - 96) == b[1] - 96 && (1 - big) * q == 0) by (nonlinear_arith)
            requires
                big == 1,
        ;
        super::gate::lemma_small_zero(b[2] - (b[1] - 96));
        super::gate::lemma_small_zero(b[3] as int);
    }
}

// -------------------------------------------------------------------------------- exact inputs

/// Whether cells are an exact decay: the gates of the decay chip, with the shift in the layout of
/// this circuit and range checks of 64 bits.
pub open spec fn exact_satisfied(c: DecayCells, now: nat, value: nat, t_note: nat) -> bool {
    &&& c.shaped(false)
    &&& c.chain_satisfied(false)
    &&& forall|i: int| 0 <= i < 25 ==> (#[trigger] c.chain[i])[1] < chunk_limit(1)
    &&& super::decay_chip::duration_holds(c.duration)
    &&& c.duration[0][0] == now
    &&& c.duration[0][1] == t_note
    &&& c.duration[0][3] == c.chain[0][4]
    &&& c.duration[0][2] < chunk_limit(1)
    &&& c.duration[0][4] < chunk_limit(1)
    &&& shift_satisfied(c.shift, value, c.duration[0][2], W1_SHIFT_LIMIT as nat, 1)
    &&& super::decay_chip::round_holds(c.round)
    &&& c.round[0][0] == c.shift[1][3]
    &&& c.round[0][1] == c.chain[25][0]
    &&& c.round[0][2] < chunk_limit(1)
    &&& c.round[0][3] < chunk_limit(1)
}

/// The same cells in the layout of the decay chip.
spec fn chip_layout(c: DecayCells) -> DecayCells {
    let a = c.shift[0];
    let b = c.shift[1];
    DecayCells {
        shift: seq![
            seq![a[0], a[1], a[3], b[0], a[4], a[2]],
            seq![0, b[1], b[2], b[3], b[4], 0],
        ],
        ..c
    }
}

/// The exact mode is sound: whatever cells satisfy it, the note is not from the future and the
/// result is exactly the decayed value. Values are positive as signed 64 bit numbers.
pub proof fn exact_cells_hold_the_decayed_value(c: DecayCells, now: nat, value: nat, t_note: nat)
    requires
        c.canonical(),
        exact_satisfied(c, now, value, t_note),
        value < 0x8000_0000_0000_0000,
        now < 0x1_0000_0000_0000_0000,
        t_note < 0x1_0000_0000_0000_0000,
    ensures
        t_note <= now,
        c.decayed() == crate::decay::decayed(value, (now - t_note) as nat),
{
    lemma_chunk_limits();
    super::decay_chip::lemma_limits();
    let d = chip_layout(c);
    let a = c.shift[0];
    let b = c.shift[1];
    let x = d.shift[0];
    let y = d.shift[1];
    assert(x[0] == a[0] && x[1] == a[1] && x[2] == a[3] && x[3] == b[0] && x[4] == a[4] && x[5]
        == a[2]);
    assert(y[1] == b[1] && y[2] == b[2] && y[3] == b[3] && y[4] == b[4]);
    assert(d.shift_satisfied(false, value));
    assert(d.duration_satisfied(now, t_note));
    assert(d.round_satisfied(false));
    assert forall|i: int| 0 <= i < 25 implies #[trigger] d.step_satisfied(false, i) by {
        assert(c.step_satisfied(false, i));
        assert(d.step_rows(i) == c.step_rows(i));
    }
    assert(d.canonical()) by {
        assert(a[0] < crate::pallas::base_modulus() && a[1] < crate::pallas::base_modulus() && a[2]
            < crate::pallas::base_modulus() && a[3] < crate::pallas::base_modulus() && a[4]
            < crate::pallas::base_modulus());
        assert(b[0] < crate::pallas::base_modulus() && b[1] < crate::pallas::base_modulus() && b[2]
            < crate::pallas::base_modulus() && b[3] < crate::pallas::base_modulus() && b[4]
            < crate::pallas::base_modulus());
        assert forall|i: int, k: int| 0 <= i < 2 && 0 <= k < 6 implies (#[trigger] d.shift[i][k])
            < crate::pallas::base_modulus() by {
            assert(d.shift[i] == x || d.shift[i] == y);
        }
    }
    super::decay_chip::satisfied_cells_hold_the_decayed_value(d, false, now, value, t_note);
}

/// The honest cells of an exact decay.
pub open spec fn exact_cells(now: nat, value: nat, t_note: nat, t: DecayTrace) -> DecayCells {
    DecayCells {
        chain: super::decay_chip::bit_rows(t),
        duration: seq![
            seq![
                now,
                t_note,
                t.times as nat,
                t.rem as nat,
                (SECONDS_PER_YEAR - 1 - t.rem) as nat,
                0,
            ],
        ],
        shift: shift_cells(value, t.shift, W1_SHIFT_LIMIT as nat),
        round: seq![
            seq![
                t.shift.shifted as nat,
                t.f@[25] as nat,
                t.result as nat,
                t.round_rem as nat,
                0,
                0,
            ],
        ],
    }
}

/// The cells of the exact decay of a value.
pub fn assign_exact(now: &Base, value: &Base, t_note: u64, t: &DecayTrace) -> (r: DecayRows)
    requires
        t.rem < SECONDS_PER_YEAR,
        t.shift.big ==> t.shift.k >= W1_SHIFT_LIMIT,
        t.shift.r < t.shift.pow,
    ensures
        r@ == exact_cells(now@, value@, t_note as nat, *t),
{
    // factor chain: F_{i+1} = bit_i ? floor(F_i * P_i / 2^64) : F_i, and rem = sum bit_i 2^i
    let chain = assign_bit_chain(t);
    // now - t_note = times * year + rem, rem < year
    let mut duration: Vec<Vec<Base>> = Vec::new();
    duration.push(
        led_row(
            now,
            t_note as u128,
            t.times as u128,
            t.rem as u128,
            (SECONDS_PER_YEAR - 1 - t.rem) as u128,
        ),
    );
    // whole years: value >> times
    let shift = assign_shift(value, &t.shift, W1_SHIFT_LIMIT);
    // round half up: shifted * F + 2^63 = result * 2^64 + rem
    let mut round: Vec<Vec<Base>> = Vec::new();
    round.push(row(t.shift.shifted, t.f[25], t.result as u128, t.round_rem as u128, 0, 0));
    let r = DecayRows { chain, duration, shift, round };
    proof {
        let e = exact_cells(now@, value@, t_note as nat, *t);
        assert(r@.duration =~= e.duration);
        assert(r@.round =~= e.round);
    }
    r
}

/// Whether cells are an exact decay.
fn check_exact(
    config: &DecayBenchConfig,
    rows: &DecayRows,
    now: &Base,
    value: &Base,
    t_note: &Base,
) -> (r: bool)
    requires
        config.ranges_wf(),
        config.shift is Some,
        config.shift_wf(W1_SHIFT_LIMIT),
        config.step is Some,
        config.duration is Some,
        config.round is Some,
        config.decay_wf(),
        rows@.shaped(false),
    ensures
        r == exact_satisfied(rows@, now@, value@, t_note@),
{
    proof {
        super::decay_chip::lemma_shape(*rows, false);
    }
    let fixed: [Base; 0] = [];
    let d = &rows.duration[0];
    let f = &rows.round[0];
    let duration = match &config.duration {
        Some(gate) => gate.check(rows.duration.as_slice(), fixed.as_slice()),
        None => false,
    };
    let round = match &config.round {
        Some(gate) => gate.check(rows.round.as_slice(), fixed.as_slice()),
        None => false,
    };
    check_chain(config, rows) && duration && d[0].same(now) && d[1].same(t_note) && d[3].same(
        &rows.chain[0][4],
    ) && range_check(config, &d[2], 1) && range_check(config, &d[4], 1) && check_shift(
        config,
        &rows.shift,
        value,
        &d[2],
        W1_SHIFT_LIMIT,
        1,
    ) && round && f[0].same(&rows.shift[1][3]) && f[1].same(&rows.chain[25][0]) && range_check(
        config,
        &f[2],
        1,
    ) && range_check(config, &f[3], 1)
}

fn check_chain(config: &DecayBenchConfig, rows: &DecayRows) -> (r: bool)
    requires
        config.ranges_wf(),
        config.step is Some,
        config.decay_wf(),
        rows@.shaped(false),
    ensures
        r == (rows@.chain_satisfied(false) && forall|i: int|
            0 <= i < 25 ==> (#[trigger] rows@.chain[i])[1] < chunk_limit(1)),
{
    proof {
        super::decay_chip::lemma_shape(*rows, false);
        super::decay_chip::lemma_limits();
        lemma_chunk_limits();
    }
    let ghost c = rows@;
    if !rows.chain[0][0].same(&Base::from_u128(ONE)) || !rows.chain[25][4].is_zero() {
        return false;
    }
    let mut i: usize = 0;
    while i < REM_BITS
        invariant
            i <= REM_BITS,
            config.ranges_wf(),
            config.step is Some,
            config.decay_wf(),
            c == rows@,
            c.shaped(false),
            rows.chain@.len() == 26,
            forall|j: int| 0 <= j < 26 ==> (#[trigger] rows.chain@[j])@.len() == 6,
            c.chain[0][0] == ONE,
            c.chain[25][4] == 0,
            forall|j: int| 0 <= j < i ==> #[trigger] c.step_satisfied(false, j),
            forall|j: int| 0 <= j < i ==> (#[trigger] c.chain[j])[1] < chunk_limit(1),
        decreases REM_BITS - i,
    {
        let two = vstd::slice::slice_subrange(rows.chain.as_slice(), i, i + 2);
        let fixed: [Base; 1] = [Base::from_u64(DECAY_POWERS[i])];
        proof {
            super::decay_chip::lemma_limits();
            lemma_chunk_limits();
            let w = c.step_rows(i as int);
            assert(super::gate::cells(two@) =~= w);
            assert(w[0] == c.chain[i as int] && w[1] == c.chain[i + 1]);
            assert(crate::hash::values(fixed@) =~= seq![DECAY_POWERS@[i as int] as nat]);
            assert(c.chain[i as int] == crate::hash::values(rows.chain@[i as int]@));
        }
        let step = match &config.step {
            Some(gate) => gate.check(two, fixed.as_slice()),
            None => false,
        };
        if !step || !range_check(config, &rows.chain[i][1], 1) || !range_check(
            config,
            &rows.chain[i][2],
            1,
        ) {
            proof {
                if c.chain[i as int][1] < chunk_limit(1) {
                    assert(!c.step_satisfied(false, i as int));
                }
            }
            return false;
        }
        assert(c.step_satisfied(false, i as int));
        i = i + 1;
    }
    true
}

/// Honest cells are an exact decay exactly when the public time is the one they were made for and
/// the value fits.
proof fn lemma_honest_exact(public_now: nat, now: nat, value: nat, t_note: nat, t: DecayTrace)
    requires
        t.of(value % chunk_limit(1), (now - t_note) as nat),
        t_note <= now < 0x1_0000_0000_0000_0000,
        public_now < crate::pallas::base_modulus(),
        value < crate::pallas::base_modulus(),
    ensures
        exact_cells(public_now, value, t_note, t).shaped(false),
        exact_satisfied(exact_cells(public_now, value, t_note, t), public_now, value, t_note)
            <==> public_now == now && value < chunk_limit(1),
{
    let c = exact_cells(public_now, value, t_note, t);
    let low = value % chunk_limit(1);
    lemma_chunk_limits();
    super::decay_chip::lemma_limits();
    lemma_honest_shift(value, t.times, t.shift, W1_SHIFT_LIMIT, 1);
    assert forall|i: int| 0 <= i < 26 implies #[trigger] c.chain[i]
        == super::decay_chip::bit_row(t, i) && c.chain[i].len() == 6 by {
        vstd::arithmetic::power2::lemma_pow2_pos(i as nat);
    }
    assert forall|i: int| 0 <= i < 25 implies #[trigger] c.step_satisfied(false, i) by {
        super::decay_chip::lemma_honest_bit(c, t, low, (now - t_note) as nat, i);
    }
    assert(t.rem as nat / 1 == t.rem as nat);
    assert(c.chain[0][0] == crate::decay::factor_chain(t.rem as nat, 0, 0));
    let d = c.duration[0];
    let year = SECONDS_PER_YEAR as nat;
    vstd::arithmetic::div_mod::lemma_fundamental_div_mod((now - t_note) as int, year as int);
    assert(d[0] - d[1] - d[2] * year - d[3] == public_now - now);
    assert(d[4] - (SECONDS_PER_YEAR - 1) + d[3] == 0);
    if super::gate::vanishes(public_now - now) {
        super::gate::lemma_small_zero(public_now - now);
    }
    let r = c.round[0];
    assert(r[0] * r[1] + HALF as nat - r[2] * ONE as nat - r[3] == 0);
    assert(super::decay_chip::round_holds(c.round));
    assert(super::decay_chip::duration_holds(c.duration) <==> public_now == now);
    assert(c.chain_satisfied(false));
    assert(d[2] <= now - t_note) by {
        vstd::arithmetic::div_mod::lemma_div_is_ordered_by_denominator(
            (now - t_note) as int,
            1,
            year as int,
        );
        vstd::arithmetic::div_mod::lemma_div_basics((now - t_note) as int);
    }
    assert(c.round[0][1] == c.chain[25][0]);
    assert(c.duration[0][3] == c.chain[0][4]);
    assert forall|i: int| 0 <= i < 25 implies (#[trigger] c.chain[i])[1] < chunk_limit(1) by {
        assert(c.chain[i] == super::decay_chip::bit_row(t, i));
        vstd::arithmetic::power2::lemma_pow2_pos(i as nat);
    }
    assert(c.round[0][0] == c.shift[1][3]);
    assert(c.duration[0][2] == t.shift.k);
    assert(shift_satisfied(c.shift, value, c.duration[0][2], W1_SHIFT_LIMIT as nat, 1) <==> value
        < chunk_limit(1));
}

// ------------------------------------------------------------------------------------ circuit

/// Witness. `tags` are the note timestamps (exact) or note epochs (epoch), unused for anchored.
#[derive(Clone, Debug)]
pub struct DecayBenchCircuit<const MODE: usize, const NI: usize, const NO: usize> {
    pub inputs: [Base; NI],
    pub tags: [u64; NI],
    pub outputs: [Base; NO],
    pub now: u64,
}

impl<const MODE: usize, const NI: usize, const NO: usize> DecayBenchCircuit<MODE, NI, NO> {
    pub fn new(inputs: [Base; NI], tags: [u64; NI], outputs: [Base; NO], now: u64) -> (r: Self)
        ensures
            r == (Self { inputs, tags, outputs, now }),
    {
        Self { inputs, tags, outputs, now }
    }

    /// The public instance.
    pub fn instance(sighash: Base, now: u64) -> (r: Vec<Base>)
        ensures
            crate::hash::values(r@) == seq![sighash@, now as nat],
    {
        let mut r: Vec<Base> = Vec::new();
        r.push(sighash);
        r.push(Base::from_u64(now));
        assert(crate::hash::values(r@) =~= seq![sighash@, now as nat]);
        r
    }

    /// The decay of a value from `t_note` to now, bit for bit, for the public time. `None` if a
    /// gate or a range check fails.
    pub fn exact_input(
        &self,
        config: &DecayBenchConfig,
        public_now: &Base,
        value: &Base,
        t_note: u64,
    ) -> (r: Option<Base>)
        requires
            config.wf(MODE_EXACT, NI, NO),
            handles(MODE_EXACT, value@, t_note as nat, self.now as nat),
        ensures
            r is Some <==> public_now@ == self.now && value@ < chunk_limit(1),
            r matches Some(x) ==> x@ == effective(
                MODE_EXACT,
                value@,
                t_note as nat,
                self.now as nat,
            ),
    {
        proof {
            use_type_invariant(value);
            use_type_invariant(public_now);
            lemma_chunk_limits();
        }
        let trace = decay_trace(value.low_u64(), self.now - t_note);
        proof {
            lemma_honest_exact(
                public_now@,
                self.now as nat,
                value@,
                t_note as nat,
                trace,
            );
            lemma_honest_shift(value@, trace.times, trace.shift, W1_SHIFT_LIMIT, 1);
        }
        let rows = assign_exact(public_now, value, t_note, &trace);
        if check_exact(config, &rows, public_now, value, &Base::from_u64(t_note)) {
            Some(Base::from_u64(trace.result))
        } else {
            None
        }
    }

    /// The value after the whole years since the epoch of the note, for the public epoch. `None`
    /// if a gate or a range check fails.
    pub fn epoch_input(
        &self,
        config: &DecayBenchConfig,
        public_now: &Base,
        value: &Base,
        epoch: u64,
    ) -> (r: Option<Base>)
        requires
            config.wf(MODE_EPOCH, NI, NO),
            handles(MODE_EPOCH, value@, epoch as nat, self.now as nat),
        ensures
            r is Some <==> public_now@ == self.now && value@ < chunk_limit(2),
            r matches Some(x) ==> x@ == effective(
                MODE_EPOCH,
                value@,
                epoch as nat,
                self.now as nat,
            ),
    {
        proof {
            use_type_invariant(public_now);
            lemma_chunk_limits();
        }
        let k: u64 = self.now - epoch;
        let st = shift_trace(value.low_half(), k, W2_SHIFT_LIMIT);
        let mut rows: Vec<Vec<Base>> = Vec::new();
        rows.push(led_row(public_now, epoch as u128, k as u128, 0, 0));
        let fixed: [Base; 0] = [];
        proof {
            let c = super::gate::cells(rows@);
            assert(c =~= seq![seq![public_now@, epoch as nat, k as nat, 0, 0, 0]]);
            assert(super::decay_chip::six_wide(c, 1));
            assert(c[0][0] - c[0][1] - c[0][2] == public_now@ - self.now);
            if super::gate::vanishes(public_now@ - self.now) {
                super::gate::lemma_small_zero(public_now@ - self.now);
            }
        }
        let in_time = match &config.epoch {
            Some(gate) => gate.check(rows.as_slice(), fixed.as_slice()),
            None => false,
        };
        if !in_time || !range_check(config, &Base::from_u64(k), 1) {
            return None;
        }
        proof {
            if value@ < chunk_limit(2) {
                vstd::arithmetic::div_mod::lemma_small_mod(value@, chunk_limit(2));
            }
        }
        shift(config, value, k, &st, W2_SHIFT_LIMIT, value_chunks(MODE_EPOCH))
    }

    /// A value in anchored units as it is. `None` if the range check fails.
    pub fn anchored_input(config: &DecayBenchConfig, value: &Base) -> (r: Option<Base>)
        requires
            config.ranges_wf(),
        ensures
            r is Some <==> value@ < chunk_limit(3),
            r matches Some(x) ==> x@ == value@,
    {
        if range_check(config, value, value_chunks(MODE_ANCHORED)) {
            Some(*value)
        } else {
            None
        }
    }

    /// What an input contributes; `None` if a gate or a range check fails.
    fn input(&self, config: &DecayBenchConfig, public_now: &Base, i: usize) -> (r: Option<Base>)
        requires
            MODE <= MODE_EXACT,
            config.wf(MODE, NI, NO),
            i < NI,
            handles(MODE, self.inputs@[i as int]@, self.tags@[i as int] as nat, self.now as nat),
        ensures
            r is Some <==> self.inputs@[i as int]@ < chunk_limit(chunks_of(MODE)) && (MODE
                != MODE_ANCHORED ==> public_now@ == self.now),
            r matches Some(x) ==> x@ == effective(
                MODE,
                self.inputs@[i as int]@,
                self.tags@[i as int] as nat,
                self.now as nat,
            ),
    {
        if MODE == MODE_ANCHORED {
            Self::anchored_input(config, &self.inputs[i])
        } else if MODE == MODE_EPOCH {
            self.epoch_input(config, public_now, &self.inputs[i], self.tags[i])
        } else {
            self.exact_input(config, public_now, &self.inputs[i], self.tags[i])
        }
    }

    /// Whether the gates hold on the honest cells of the witness, for a public instance.
    pub fn accepts(&self, instance: &[Base]) -> (r: bool)
        requires
            MODE <= MODE_EXACT,
            NI + NO <= usize::MAX,
            instance@.len() == 2,
            forall|i: int|
                0 <= i < NI ==> handles(
                    MODE,
                    (#[trigger] self.inputs@[i])@,
                    self.tags@[i] as nat,
                    self.now as nat,
                ),
        ensures
            r == accepted(
                MODE,
                crate::hash::values(self.inputs@),
                self.tags@,
                crate::hash::values(self.outputs@),
                self.now as nat,
                instance@[1]@,
            ),
    {
        let config = configure_impl(MODE, NI, NO);
        let public_now = &instance[1];
        let ghost inputs = crate::hash::values(self.inputs@);
        let ghost outputs = crate::hash::values(self.outputs@);
        let ghost worth = effectives(MODE, inputs, self.tags@, self.now as nat);
        // the effective inputs and the outputs in consecutive rows
        let mut rows: Vec<Vec<Base>> = Vec::new();
        let mut i: usize = 0;
        while i < NI
            invariant
                i <= NI,
                MODE <= MODE_EXACT,
                config.wf(MODE, NI, NO),
                instance@.len() == 2,
                *public_now == instance@[1],
                inputs == crate::hash::values(self.inputs@),
                worth == effectives(MODE, inputs, self.tags@, self.now as nat),
                forall|k: int|
                    0 <= k < NI ==> handles(
                        MODE,
                        (#[trigger] self.inputs@[k])@,
                        self.tags@[k] as nat,
                        self.now as nat,
                    ),
                rows@.len() == i,
                forall|k: int|
                    0 <= k < i ==> (#[trigger] rows@[k])@.len() == 1 && rows@[k]@[0]@ == worth[k],
                forall|k: int|
                    0 <= k < i ==> #[trigger] inputs[k] < chunk_limit(chunks_of(MODE)),
                MODE != MODE_ANCHORED && i > 0 ==> public_now@ == self.now,
            decreases NI - i,
        {
            match self.input(&config, public_now, i) {
                Some(x) => {
                    let mut cells: Vec<Base> = Vec::new();
                    cells.push(x);
                    rows.push(cells);
                },
                None => {
                    assert(inputs[i as int] == self.inputs@[i as int]@);
                    return false;
                },
            }
            i = i + 1;
        }
        let mut in_range = true;
        let mut j: usize = 0;
        while j < NO
            invariant
                j <= NO,
                config.wf(MODE, NI, NO),
                outputs == crate::hash::values(self.outputs@),
                worth.len() == NI,
                rows@.len() == NI + j,
                forall|k: int|
                    0 <= k < NI ==> (#[trigger] rows@[k])@.len() == 1 && rows@[k]@[0]@ == worth[k],
                forall|k: int|
                    NI <= k < NI + j ==> (#[trigger] rows@[k])@.len() == 1 && rows@[k]@[0]@
                        == outputs[k - NI],
                in_range <==> forall|k: int|
                    0 <= k < j ==> #[trigger] outputs[k] < chunk_limit(chunks_of(MODE)),
            decreases NO - j,
        {
            let mut cells: Vec<Base> = Vec::new();
            cells.push(self.outputs[j]);
            rows.push(cells);
            let fits = range_check(&config, &self.outputs[j], value_chunks(MODE));
            assert(outputs[j as int] == self.outputs@[j as int]@);
            in_range = in_range && fits;
            j = j + 1;
        }
        let fixed: [Base; 0] = [];
        proof {
            let c = super::gate::cells(rows@);
            assert forall|k: int| 0 <= k < NI + NO implies (#[trigger] c[k]).len() > 0 by {
                assert(rows@[k]@.len() == 1);
            }
            assert forall|k: int| 0 <= k < NI implies (#[trigger] c[k])[0] == worth[k] by {
                assert(rows@[k]@[0]@ == worth[k]);
            }
            assert forall|k: int| 0 <= k < NO implies (#[trigger] c[NI + k])[0] == outputs[k] by {
                assert(rows@[NI + k]@[0]@ == outputs[k]);
            }
            lemma_column_sum(c, 0, worth);
            lemma_column_sum(c, NI as nat, outputs);
        }
        config.balance.check(rows.as_slice(), fixed.as_slice()) && in_range
    }
}

proof fn lemma_column_sum(rows: Seq<Seq<nat>>, from: nat, s: Seq<nat>)
    requires
        from + s.len() <= rows.len(),
        forall|k: int| 0 <= k < s.len() ==> (#[trigger] rows[from + k])[0] == s[k],
    ensures
        column_sum(rows, from, s.len()) == total(s),
    decreases s.len(),
{
    if s.len() > 0 {
        let t = s.drop_last();
        assert forall|k: int| 0 <= k < t.len() implies (#[trigger] rows[from + k])[0] == t[k] by {
            assert(rows[from + k][0] == s[k]);
        }
        lemma_column_sum(rows, from, t);
        let last = s.len() - 1;
        assert(rows[from + last][0] == s[last]);
    }
}

proof fn lemma_total_bound(s: Seq<nat>, bound: nat)
    requires
        forall|i: int| 0 <= i < s.len() ==> #[trigger] s[i] <= bound,
    ensures
        total(s) <= s.len() * bound,
    decreases s.len(),
{
    if s.len() > 0 {
        let t = s.drop_last();
        lemma_total_bound(t, bound);
        let n = t.len();
        assert((n + 1) * bound == n * bound + bound) by (nonlinear_arith);
    }
}

/// Decay handling never increases a value.
proof fn lemma_effective_bound(mode: usize, value: nat, tag: nat, now: nat)
    requires
        handles(mode, value, tag, now),
    ensures
        effective(mode, value, tag, now) <= value,
{
    lemma_chunk_limits();
    if mode == MODE_EPOCH {
        let low = value % chunk_limit(2);
        let k = (now - tag) as nat;
        vstd::arithmetic::div_mod::lemma_mod_decreases(value, chunk_limit(2));
        vstd::arithmetic::power2::lemma_pow2_pos(k);
        vstd::arithmetic::div_mod::lemma_div_is_ordered_by_denominator(
            low as int,
            1,
            pow2(k) as int,
        );
        vstd::arithmetic::div_mod::lemma_div_basics(low as int);
    } else if mode != MODE_ANCHORED {
        let low = value % chunk_limit(1);
        vstd::arithmetic::div_mod::lemma_mod_decreases(value, chunk_limit(1));
        crate::decay::decay_never_increases(low, (now - tag) as nat);
    }
}

/// Every mode balances over the integers: with up to `2^32` notes on either side the sums stay
/// below the order of the field, so equal sums in the field are equal.
pub proof fn accepted_notes_balance(
    mode: usize,
    inputs: Seq<nat>,
    tags: Seq<u64>,
    outputs: Seq<nat>,
    now: nat,
    public_now: nat,
)
    requires
        accepted(mode, inputs, tags, outputs, now, public_now),
        forall|i: int|
            0 <= i < inputs.len() ==> handles(mode, #[trigger] inputs[i], tags[i] as nat, now),
        inputs.len() <= 0x1_0000_0000,
        outputs.len() <= 0x1_0000_0000,
    ensures
        total(effectives(mode, inputs, tags, now)) == total(outputs),
{
    lemma_chunk_limits();
    let worth = effectives(mode, inputs, tags, now);
    let bound = chunk_limit(3);
    assert forall|i: int| 0 <= i < worth.len() implies #[trigger] worth[i] <= bound by {
        assert(inputs[i] < chunk_limit(chunks_of(mode)));
        lemma_effective_bound(mode, inputs[i], tags[i] as nat, now);
    }
    assert forall|j: int| 0 <= j < outputs.len() implies #[trigger] outputs[j] <= bound by {}
    lemma_total_bound(worth, bound);
    lemma_total_bound(outputs, bound);
    let ni = worth.len();
    let no = outputs.len();
    assert(ni * bound <= 0x1_0000_0000nat * bound && no * bound <= 0x1_0000_0000nat * bound)
        by (nonlinear_arith)
        requires
            ni <= 0x1_0000_0000,
            no <= 0x1_0000_0000,
    ;
    super::gate::lemma_small_zero(total(worth) - total(outputs));
}

/// What a note contributes in each mode: an anchored value all of itself, an epoch value its low
/// 128 bits halved for each epoch that has passed and nothing after 96 of them, and a nominal value
/// its low 64 bits decayed for the seconds that have passed.
pub proof fn each_mode_has_its_value(value: nat, tag: nat, now: nat)
    requires
        tag <= now,
    ensures
        effective(0, value, tag, now) == value,
        effective(1, value, tag, now) == (if now - tag < 96 {
            (value % 0x1_0000_0000_0000_0000_0000_0000_0000_0000nat) / pow2((now - tag) as nat)
        } else {
            0
        }),
        effective(2, value, tag, now) == crate::decay::decayed(
            value % 0x1_0000_0000_0000_0000nat,
            (now - tag) as nat,
        ),
{
    lemma_chunk_limits();
}

/// The circuit accepts exactly values that fit, three, two or one chunks of 64 bits by mode, whose
/// notes contribute, as elements of the field, what is created, at the public time where time
/// counts.
pub proof fn a_balance_holds_at_the_public_time(
    mode: usize,
    inputs: Seq<nat>,
    tags: Seq<u64>,
    outputs: Seq<nat>,
    now: nat,
    public_now: nat,
)
    requires
        mode <= 2,
    ensures
        accepted(mode, inputs, tags, outputs, now, public_now) <==> {
            let limit = if mode == 0 {
                0x1_0000_0000_0000_0000_0000_0000_0000_0000_0000_0000_0000_0000nat
            } else if mode == 1 {
                0x1_0000_0000_0000_0000_0000_0000_0000_0000nat
            } else {
                0x1_0000_0000_0000_0000nat
            };
            let worth = Seq::new(
                inputs.len(),
                |i: int| effective(mode, inputs[i], tags[i] as nat, now),
            );
            &&& forall|i: int| 0 <= i < inputs.len() ==> #[trigger] inputs[i] < limit
            &&& forall|j: int| 0 <= j < outputs.len() ==> #[trigger] outputs[j] < limit
            &&& mode == 0 || inputs.len() == 0 || public_now == now
            &&& (total(worth) - total(outputs)) % (crate::pallas::base_modulus() as int) == 0
        },
{
    lemma_chunk_limits();
}

} // verus!
