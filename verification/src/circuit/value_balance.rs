//! Value balance in anchored units.
//!
//! Proves, without revealing any amount:
//!   1. every input and output value is in `[0, 2^VALUE_BITS)`
//!   2. `sum(inputs) == sum(outputs)`
//!   3. the proof is bound to a public `sighash`
//!
//! Because note values are stored *anchor-normalised*
//! (`u = amount_gddCent * 2^((t - DECAY_START_TIME) / SECONDS_PER_YEAR)`), decay never
//! appears here: conservation stays plain addition.
//!
//! Each value is range-checked below `2^VALUE_BITS` (160), so the sums stay far below the Pallas
//! modulus (~2^254). Equality in the field therefore implies equality over the integers.
use vstd::prelude::*;

use super::gate::{constant, cur, difference, product, sum, Expr, Gate};
use crate::pallas::Base;

verus! {

broadcast use vstd::array::group_array_axioms;

/// Bit width of an anchored value: 64 bit gddCent + 63 doublings + ~32 fractional bits.
pub const VALUE_BITS: usize = 160;

/// Bit width of one range-check limb; the lookup table holds `2^LIMB_BITS` rows.
pub const LIMB_BITS: usize = 8;

/// Limbs needed per value.
pub const N_LIMBS: usize = 20;

/// Shielded inputs per action bundle.
pub const N_IN: usize = 2;

/// Shielded outputs per action bundle.
pub const N_OUT: usize = 2;

/// Rows needed by the circuit, as a power of two; there is room for the lookup table too.
pub const K: u32 = 11;

/// One past the largest anchored value.
pub open spec fn value_limit() -> nat {
    0x1_0000_0000_0000_0000_0000_0000_0000_0000_0000_0000nat
}

/// Witness: the anchored values.
#[derive(Clone, Copy, Debug)]
pub struct ValueBalanceCircuit {
    pub inputs: [Base; 2],
    pub outputs: [Base; 2],
    /// Mirrors the public instance; copy-constrained to it so the proof cannot be
    /// replayed against a different transaction body.
    pub sighash: Base,
}

// -------------------------------------------------------------------------------------- gates

/// `sum(inputs) - sum(outputs) == 0`, all values in consecutive rows.
pub open spec fn balance_holds(rows: Seq<Seq<nat>>) -> bool {
    super::gate::vanishes(rows[0][0] + rows[1][0] - rows[2][0] - rows[3][0])
}

/// `sum(limb_j * 2^(8 j))` over the first `n` limbs, in the second column.
pub open spec fn limb_sum(rows: Seq<Seq<nat>>, n: nat) -> nat
    decreases n,
{
    if n == 0 {
        0
    } else {
        limb_sum(rows, (n - 1) as nat) + rows[n - 1][1] * crate::bytes::pow256((n - 1) as nat)
    }
}

/// `value == sum(limb_j * 2^(8 j))`.
pub open spec fn decomposition_holds(rows: Seq<Seq<nat>>) -> bool {
    super::gate::vanishes(rows[0][0] - limb_sum(rows, 20))
}

/// Rows of two cells.
pub open spec fn two_wide(rows: Seq<Seq<nat>>, n: nat) -> bool {
    &&& rows.len() == n
    &&& forall|i: int| 0 <= i < rows.len() ==> (#[trigger] rows[i]).len() == 2
}

/// `2^(LIMB_BITS * j)` as a field element.
fn limb_weight(j: usize) -> (r: Base)
    requires
        j < 20,
    ensures
        r@ == crate::bytes::pow256(j as nat),
{
    let base = Base::from_u64(256);
    let mut acc = Base::one();
    let mut i: usize = 0;
    while i < j
        invariant
            i <= j < 20,
            base@ == 256,
            acc@ == crate::bytes::pow256(i as nat),
        decreases j - i,
    {
        proof {
            lemma_weight_bound((i + 1) as nat);
            vstd::arithmetic::div_mod::lemma_small_mod(
                crate::bytes::pow256((i + 1) as nat),
                crate::pallas::base_modulus(),
            );
        }
        acc = acc.times(&base);
        i = i + 1;
    }
    acc
}

proof fn lemma_weight_bound(j: nat)
    requires
        j <= 20,
    ensures
        crate::bytes::pow256(j) <= value_limit(),
        crate::bytes::pow256(20) == value_limit(),
{
    crate::bytes::lemma_pow256_monotone(j, 20);
    reveal_with_fuel(crate::bytes::pow256, 21);
}

/// Gate of the balance.
pub fn balance_gate() -> (r: Gate)
    ensures
        forall|rows: Seq<Seq<nat>>, fixed: Seq<nat>| #[trigger]
            r.holds(rows, fixed) <==> balance_holds(rows),
        forall|rows: Seq<Seq<nat>>, fixed: Seq<nat>|
            two_wide(rows, 5) ==> #[trigger] r.reads_within(rows, fixed),
{
    let p = difference(
        difference(
            sum(cur(0), Expr::Advice { column: 0, rotation: 1 }),
            Expr::Advice { column: 0, rotation: 2 },
        ),
        Expr::Advice { column: 0, rotation: 3 },
    );
    let mut polys: Vec<Expr> = Vec::new();
    polys.push(p);
    let r = Gate { name: "value balance", polys };
    proof {
        assert(r.polys@[0] == p);
        assert forall|rows: Seq<Seq<nat>>, fixed: Seq<nat>| #[trigger]
            r.holds(rows, fixed) <==> balance_holds(rows) by {
            reveal_with_fuel(Expr::value, 5);
            assert(p.value(rows, fixed) == rows[0][0] + rows[1][0] - rows[2][0] - rows[3][0]);
        }
        assert forall|rows: Seq<Seq<nat>>, fixed: Seq<nat>| two_wide(rows, 5) implies #[trigger]
            r.reads_within(rows, fixed) by {
            reveal_with_fuel(Expr::reads_within, 5);
            assert(rows[0].len() == 2 && rows[1].len() == 2 && rows[2].len() == 2
                && rows[3].len() == 2);
        }
    }
    r
}

/// Gate of the decomposition into limbs.
pub fn decomposition_gate() -> (r: Gate)
    ensures
        forall|rows: Seq<Seq<nat>>, fixed: Seq<nat>| #[trigger]
            r.holds(rows, fixed) <==> decomposition_holds(rows),
        forall|rows: Seq<Seq<nat>>, fixed: Seq<nat>|
            two_wide(rows, 20) ==> #[trigger] r.reads_within(rows, fixed),
{
    let mut acc = constant(Base::zero());
    let mut j: usize = 0;
    while j < 20
        invariant
            j <= 20,
            forall|rows: Seq<Seq<nat>>, fixed: Seq<nat>| #[trigger]
                acc.value(rows, fixed) == limb_sum(rows, j as nat),
            forall|rows: Seq<Seq<nat>>, fixed: Seq<nat>|
                two_wide(rows, 20) ==> #[trigger] acc.reads_within(rows, fixed),
        decreases 20 - j,
    {
        let weight = constant(limb_weight(j));
        let limb = product(Expr::Advice { column: 1, rotation: j }, weight);
        let ghost before = acc;
        acc = sum(acc, limb);
        proof {
            assert forall|rows: Seq<Seq<nat>>, fixed: Seq<nat>| #[trigger]
                acc.value(rows, fixed) == limb_sum(rows, (j + 1) as nat) by {
                reveal_with_fuel(Expr::value, 3);
                assert(before.value(rows, fixed) == limb_sum(rows, j as nat));
                assert(limb.value(rows, fixed) == rows[j as int][1] * crate::bytes::pow256(
                    j as nat,
                ));
            }
            assert forall|rows: Seq<Seq<nat>>, fixed: Seq<nat>|
                two_wide(rows, 20) implies #[trigger] acc.reads_within(rows, fixed) by {
                reveal_with_fuel(Expr::reads_within, 3);
                assert(before.reads_within(rows, fixed));
                assert(rows[j as int].len() == 2);
            }
        }
        j = j + 1;
    }
    let ghost total = acc;
    let p = difference(cur(0), acc);
    let mut polys: Vec<Expr> = Vec::new();
    polys.push(p);
    let r = Gate { name: "limb decomposition", polys };
    proof {
        assert(r.polys@[0] == p);
        assert forall|rows: Seq<Seq<nat>>, fixed: Seq<nat>| #[trigger]
            r.holds(rows, fixed) <==> decomposition_holds(rows) by {
            reveal_with_fuel(Expr::value, 2);
            assert(total.value(rows, fixed) == limb_sum(rows, 20));
            assert(p.value(rows, fixed) == rows[0][0] - limb_sum(rows, 20));
        }
        assert forall|rows: Seq<Seq<nat>>, fixed: Seq<nat>| two_wide(rows, 20) implies #[trigger]
            r.reads_within(rows, fixed) by {
            reveal_with_fuel(Expr::reads_within, 2);
            assert(total.reads_within(rows, fixed));
            assert(rows[0].len() == 2);
        }
    }
    r
}

// -------------------------------------------------------------------------------------- cells

/// Whether every limb is a byte.
pub open spec fn limbs_are_bytes(rows: Seq<Seq<nat>>) -> bool {
    forall|j: int| 0 <= j < rows.len() ==> (#[trigger] rows[j])[1] < 256
}

/// Whether a block of rows is a range check of a value.
pub open spec fn range_satisfied(block: Seq<Seq<nat>>, value: nat) -> bool {
    &&& two_wide(block, 20)
    &&& block[0][0] == value
    &&& decomposition_holds(block)
    &&& limbs_are_bytes(block)
}

/// Whether cells satisfy the circuit: the values in consecutive rows, then the sighash, and one
/// range check per value.
pub open spec fn satisfied(
    values: Seq<Seq<nat>>,
    blocks: Seq<Seq<Seq<nat>>>,
    sighash: nat,
) -> bool {
    &&& two_wide(values, 5)
    &&& balance_holds(values)
    &&& values[4][0] == sighash
    &&& blocks.len() == 4
    &&& forall|i: int| 0 <= i < 4 ==> range_satisfied(#[trigger] blocks[i], values[i][0])
}

proof fn lemma_limb_sum_bound(rows: Seq<Seq<nat>>, n: nat)
    requires
        n <= rows.len(),
        limbs_are_bytes(rows),
    ensures
        limb_sum(rows, n) < crate::bytes::pow256(n),
    decreases n,
{
    if n > 0 {
        lemma_limb_sum_bound(rows, (n - 1) as nat);
        let p = crate::bytes::pow256((n - 1) as nat);
        let l = rows[n - 1][1];
        assert(l * p <= 255 * p) by (nonlinear_arith)
            requires
                l <= 255,
        ;
    }
}

/// A range check bounds the value.
pub proof fn range_check_is_sound(block: Seq<Seq<nat>>, value: nat)
    requires
        range_satisfied(block, value),
        value < crate::pallas::base_modulus(),
    ensures
        value < value_limit(),
{
    lemma_limb_sum_bound(block, 20);
    lemma_weight_bound(20);
    super::gate::lemma_small_zero(value - limb_sum(block, 20));
}

/// The circuit is sound: whatever cells satisfy it, every value is in range and the inputs add up
/// to the outputs as integers.
pub proof fn satisfied_cells_balance(
    values: Seq<Seq<nat>>,
    blocks: Seq<Seq<Seq<nat>>>,
    sighash: nat,
)
    requires
        satisfied(values, blocks, sighash),
        forall|i: int| 0 <= i < 4 ==> (#[trigger] values[i])[0] < crate::pallas::base_modulus(),
    ensures
        forall|i: int| 0 <= i < 4 ==> (#[trigger] values[i])[0] < value_limit(),
        values[0][0] + values[1][0] == values[2][0] + values[3][0],
{
    assert forall|i: int| 0 <= i < 4 implies (#[trigger] values[i])[0] < value_limit() by {
        assert(range_satisfied(blocks[i], values[i][0]));
        range_check_is_sound(blocks[i], values[i][0]);
    }
    let v = values;
    assert(v[0][0] < value_limit() && v[1][0] < value_limit() && v[2][0] < value_limit()
        && v[3][0] < value_limit());
    super::gate::lemma_small_zero(v[0][0] + v[1][0] - v[2][0] - v[3][0]);
}

/// Whether values and sighash satisfy the circuit for a public sighash.
pub open spec fn accepted(
    inputs: Seq<nat>,
    outputs: Seq<nat>,
    sighash: nat,
    instance: nat,
) -> bool {
    &&& forall|i: int| 0 <= i < 2 ==> (#[trigger] inputs[i]) < value_limit()
    &&& forall|i: int| 0 <= i < 2 ==> (#[trigger] outputs[i]) < value_limit()
    &&& inputs[0] + inputs[1] == outputs[0] + outputs[1]
    &&& sighash == instance
}

fn row(a: Base, b: Base) -> (r: Vec<Base>)
    ensures
        crate::hash::values(r@) == seq![a@, b@],
{
    let mut r: Vec<Base> = Vec::new();
    r.push(a);
    r.push(b);
    assert(crate::hash::values(r@) =~= seq![a@, b@]);
    r
}

/// The range check of a value: the value beside its lowest byte, and the other bytes below.
pub fn range_rows(value: &Base) -> (r: Vec<Vec<Base>>)
    ensures
        two_wide(super::gate::cells(r@), 20),
        limbs_are_bytes(super::gate::cells(r@)),
        super::gate::cells(r@)[0][0] == value@,
        limb_sum(super::gate::cells(r@), 20) == value@ % value_limit(),
{
    let bytes = value.to_repr();
    let mut r: Vec<Vec<Base>> = Vec::new();
    let mut j: usize = 0;
    let ghost v = value@;
    proof {
        crate::bytes::lemma_le_bytes_len(v, 32);
    }
    while j < 20
        invariant
            j <= 20,
            bytes@ == crate::bytes::le_bytes(v, 32),
            v == value@,
            r@.len() == j,
            forall|i: int|
                0 <= i < j ==> crate::hash::values((#[trigger] r@[i])@) == seq![
                    if i == 0 {
                        v
                    } else {
                        0nat
                    },
                    bytes@[i] as nat,
                ],
        decreases 20 - j,
    {
        let first = if j == 0 {
            *value
        } else {
            Base::zero()
        };
        let cells = row(first, Base::from_u64(bytes[j] as u64));
        r.push(cells);
        j = j + 1;
    }
    proof {
        let c = super::gate::cells(r@);
        assert forall|i: int| 0 <= i < 20 implies #[trigger] c[i] == seq![
            if i == 0 {
                v
            } else {
                0nat
            },
            bytes@[i] as nat,
        ] by {
            assert(c[i] == crate::hash::values(r@[i]@));
        }
        assert(two_wide(c, 20));
        lemma_limbs_of_bytes(c, bytes@, 20);
        lemma_low_bytes(v);
    }
    r
}

proof fn lemma_limbs_of_bytes(rows: Seq<Seq<nat>>, bytes: Seq<u8>, n: nat)
    requires
        n <= rows.len(),
        n <= bytes.len(),
        forall|i: int| 0 <= i < n ==> (#[trigger] rows[i])[1] == bytes[i] as nat,
    ensures
        limb_sum(rows, n) == crate::bytes::le_nat(bytes.take(n as int)),
    decreases n,
{
    if n == 0 {
        assert(bytes.take(0) =~= Seq::empty());
    } else {
        let m = n - 1;
        lemma_limbs_of_bytes(rows, bytes, m as nat);
        assert(bytes.take(n as int) =~= bytes.take(m).push(bytes[m]));
        crate::bytes::lemma_le_nat_push(bytes.take(m), bytes[m]);
        assert(rows[m][1] == bytes[m] as nat);
        assert(rows[m][1] * crate::bytes::pow256(m as nat) == crate::bytes::pow256(m as nat)
            * bytes[m]) by (nonlinear_arith)
            requires
                rows[m][1] == bytes[m] as nat,
        ;
    }
}

/// The twenty low bytes are the value without its upper part.
proof fn lemma_low_bytes(v: nat)
    ensures
        crate::bytes::le_nat(crate::bytes::le_bytes(v, 32).take(20)) == v % value_limit(),
{
    lemma_weight_bound(20);
    crate::bytes::lemma_le_bytes_take(v, 32, 20);
    crate::bytes::lemma_le_nat_of_low_bytes(v, 20);
}

impl ValueBalanceCircuit {
    pub fn new(inputs: [Base; 2], outputs: [Base; 2], sighash: Base) -> (r: Self)
        ensures
            r.inputs == inputs,
            r.outputs == outputs,
            r.sighash == sighash,
    {
        Self { inputs, outputs, sighash }
    }

    /// The values in consecutive rows, then the sighash.
    pub fn value_rows(&self) -> (r: Vec<Vec<Base>>)
        ensures
            super::gate::cells(r@) == seq![
                seq![self.inputs@[0]@, 0],
                seq![self.inputs@[1]@, 0],
                seq![self.outputs@[0]@, 0],
                seq![self.outputs@[1]@, 0],
                seq![self.sighash@, 0],
            ],
    {
        let mut r: Vec<Vec<Base>> = Vec::new();
        r.push(row(self.inputs[0], Base::zero()));
        r.push(row(self.inputs[1], Base::zero()));
        r.push(row(self.outputs[0], Base::zero()));
        r.push(row(self.outputs[1], Base::zero()));
        r.push(row(self.sighash, Base::zero()));
        assert(super::gate::cells(r@) =~= seq![
            seq![self.inputs@[0]@, 0],
            seq![self.inputs@[1]@, 0],
            seq![self.outputs@[0]@, 0],
            seq![self.outputs@[1]@, 0],
            seq![self.sighash@, 0],
        ]);
        r
    }

    /// Whether the gates hold on the witness, for a public sighash.
    pub fn accepts(&self, instance: &Base) -> (r: bool)
        ensures
            r == accepted(
                crate::hash::values(self.inputs@),
                crate::hash::values(self.outputs@),
                self.sighash@,
                instance@,
            ),
    {
        let ghost i = crate::hash::values(self.inputs@);
        let ghost o = crate::hash::values(self.outputs@);
        let fixed: [Base; 0] = [];
        let values = self.value_rows();
        let ghost c = super::gate::cells(values@);
        assert(two_wide(c, 5));
        let balanced = balance_gate().check(values.as_slice(), fixed.as_slice());
        let gate = decomposition_gate();
        let in_range = in_range(&gate, &self.inputs[0]) && in_range(&gate, &self.inputs[1])
            && in_range(&gate, &self.outputs[0]) && in_range(&gate, &self.outputs[1]);
        proof {
            assert(i[0] == self.inputs@[0]@ && i[1] == self.inputs@[1]@);
            assert(o[0] == self.outputs@[0]@ && o[1] == self.outputs@[1]@);
            if in_range {
                if balanced {
                    super::gate::lemma_small_zero(i[0] + i[1] - o[0] - o[1]);
                }
            }
            if i[0] + i[1] == o[0] + o[1] {
                assert(super::gate::vanishes(i[0] + i[1] - o[0] - o[1]));
            }
        }
        balanced && in_range && self.sighash.same(instance)
    }
}

/// Whether the decomposition holds on the limbs of a value.
fn in_range(gate: &Gate, value: &Base) -> (r: bool)
    requires
        forall|rows: Seq<Seq<nat>>, fixed: Seq<nat>| #[trigger]
            gate.holds(rows, fixed) <==> decomposition_holds(rows),
        forall|rows: Seq<Seq<nat>>, fixed: Seq<nat>|
            two_wide(rows, 20) ==> #[trigger] gate.reads_within(rows, fixed),
    ensures
        r == (value@ < value_limit()),
{
    let fixed: [Base; 0] = [];
    let rows = range_rows(value);
    proof {
        use_type_invariant(value);
        let c = super::gate::cells(rows@);
        let low = value@ % value_limit();
        if value@ < value_limit() {
            vstd::arithmetic::div_mod::lemma_small_mod(value@, value_limit());
            assert(super::gate::vanishes(value@ - low));
        } else if super::gate::vanishes(value@ - low) {
            super::gate::lemma_small_zero(value@ - low);
        }
    }
    gate.check(rows.as_slice(), fixed.as_slice())
}

/// The circuit accepts exactly two inputs and two outputs below 2^160 with the same sum, for the
/// sighash that it was made for.
pub proof fn a_balance_is_bound_to_its_sighash(
    inputs: Seq<nat>,
    outputs: Seq<nat>,
    sighash: nat,
    instance: nat,
)
    ensures
        accepted(inputs, outputs, sighash, instance) <==> {
            let limit = 0x1_0000_0000_0000_0000_0000_0000_0000_0000_0000_0000nat;
            &&& inputs[0] < limit && inputs[1] < limit
            &&& outputs[0] < limit && outputs[1] < limit
            &&& inputs[0] + inputs[1] == outputs[0] + outputs[1]
            &&& sighash == instance
        },
{
}

} // verus!
