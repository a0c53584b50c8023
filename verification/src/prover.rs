//! What has to hold of a witness before a proof of the value balance is made.
use vstd::prelude::*;

use crate::circuit::value_balance::{ValueBalanceCircuit, N_LIMBS};
use crate::pallas::Base;

verus! {

broadcast use vstd::array::group_array_axioms;

#[derive(Debug, PartialEq, Eq)]
pub enum ProveError {
    /// A value is >= 2^VALUE_BITS, so the range check cannot be satisfied.
    ValueOutOfRange,
    /// sum(inputs) != sum(outputs).
    Unbalanced,
    /// the proof could not be made
    Synthesis,
}

/// The sum in the field.
pub open spec fn field_sum(values: Seq<nat>) -> nat
    decreases values.len(),
{
    if values.len() == 0 {
        0
    } else {
        (field_sum(values.drop_last()) + values.last()) % crate::pallas::base_modulus()
    }
}

/// Whether all values are in range.
pub open spec fn all_in_range(values: Seq<nat>) -> bool {
    forall|i: int|
        0 <= i < values.len() ==> (#[trigger] values[i])
            < crate::circuit::value_balance::value_limit()
}

/// What is wrong with a witness, if anything.
pub open spec fn witness_error(inputs: Seq<nat>, outputs: Seq<nat>) -> Option<ProveError> {
    if !all_in_range(inputs) || !all_in_range(outputs) {
        Some(ProveError::ValueOutOfRange)
    } else if field_sum(inputs) != field_sum(outputs) {
        Some(ProveError::Unbalanced)
    } else {
        None
    }
}

/// Whether the bytes above the limbs are zero.
fn in_range(value: &Base) -> (r: bool)
    ensures
        r == (value@ < crate::circuit::value_balance::value_limit()),
{
    let bytes = value.to_repr();
    let ghost v = value@;
    let mut i: usize = N_LIMBS;
    proof {
        crate::pallas::lemma_base_fits(*value);
        crate::bytes::lemma_le_nat_of_le_bytes(v, 32);
        lemma_high_bytes(bytes@);
    }
    while i < 32
        invariant
            20 <= i <= 32,
            bytes@.len() == 32,
            v == value@,
            (v < crate::circuit::value_balance::value_limit()) == (forall|j: int|
                20 <= j < 32 ==> bytes@[j] == 0),
            forall|j: int| 20 <= j < i ==> bytes@[j] == 0,
        decreases 32 - i,
    {
        if bytes[i] != 0 {
            assert(bytes@[i as int] != 0);
            return false;
        }
        i = i + 1;
    }
    true
}

/// An integer fits the low bytes exactly when the high bytes are zero.
proof fn lemma_high_bytes(bytes: Seq<u8>)
    requires
        bytes.len() == 32,
    ensures
        (crate::bytes::le_nat(bytes) < crate::circuit::value_balance::value_limit()) == (forall|
            j: int,
        |
            20 <= j < 32 ==> bytes[j] == 0),
{
    let low = bytes.take(20);
    let high = bytes.skip(20);
    assert(bytes =~= low + high);
    crate::bytes::lemma_le_nat_append(low, high);
    crate::bytes::lemma_le_nat_bound(low);
    reveal_with_fuel(crate::bytes::pow256, 21);
    let n = crate::bytes::le_nat(high);
    let p = crate::bytes::pow256(20);
    assert(n > 0 ==> p * n >= p) by (nonlinear_arith);
    assert(n == 0 ==> p * n == 0) by (nonlinear_arith);
    lemma_zero_bytes(high);
    if n == 0 {
        assert(forall|j: int| 0 <= j < 12 ==> #[trigger] high[j] == 0);
        assert forall|j: int| 20 <= j < 32 implies bytes[j] == 0 by {
            assert(bytes[j] == high[j - 20]);
        }
    } else {
        if forall|j: int| 20 <= j < 32 ==> bytes[j] == 0 {
            // all bytes above would be zero
            assert forall|j: int| 0 <= j < 12 implies #[trigger] high[j] == 0 by {
                assert(high[j] == bytes[j + 20]);
            }
        }
    }
}

/// Bytes are the integer zero exactly when they are all zero.
proof fn lemma_zero_bytes(s: Seq<u8>)
    ensures
        (crate::bytes::le_nat(s) == 0) == (forall|j: int| 0 <= j < s.len() ==> #[trigger] s[j] == 0),
    decreases s.len(),
{
    if s.len() > 0 {
        let rest = s.drop_first();
        lemma_zero_bytes(rest);
        assert(forall|j: int| 0 <= j < rest.len() ==> rest[j] == #[trigger] s[j + 1]);
        if crate::bytes::le_nat(s) == 0 {
            assert forall|j: int| 0 <= j < s.len() implies #[trigger] s[j] == 0 by {
                if j > 0 {
                    assert(rest[j - 1] == s[j]);
                }
            }
        } else if forall|j: int| 0 <= j < s.len() ==> #[trigger] s[j] == 0 {
            assert(s[0] == 0);
            assert forall|j: int| 0 <= j < rest.len() implies #[trigger] rest[j] == 0 by {
                assert(s[j + 1] == 0);
            }
        }
    }
}

fn all_fit(values: &[Base]) -> (r: bool)
    ensures
        r == all_in_range(crate::hash::values(values@)),
{
    let ghost all = crate::hash::values(values@);
    let mut i: usize = 0;
    while i < values.len()
        invariant
            i <= values@.len(),
            all == crate::hash::values(values@),
            forall|j: int|
                0 <= j < i ==> (#[trigger] all[j]) < crate::circuit::value_balance::value_limit(),
        decreases values@.len() - i,
    {
        assert(all[i as int] == values@[i as int]@);
        if !in_range(&values[i]) {
            return false;
        }
        i = i + 1;
    }
    true
}

fn add_up(values: &[Base]) -> (r: Base)
    ensures
        r@ == field_sum(crate::hash::values(values@)),
{
    let ghost all = crate::hash::values(values@);
    let mut sum = Base::zero();
    let mut i: usize = 0;
    assert(all.take(0) =~= Seq::empty());
    while i < values.len()
        invariant
            i <= values@.len(),
            all == crate::hash::values(values@),
            sum@ == field_sum(all.take(i as int)),
        decreases values@.len() - i,
    {
        assert(all.take(i + 1).drop_last() =~= all.take(i as int));
        assert(all.take(i + 1).last() == values@[i as int]@);
        sum = sum.plus(&values[i]);
        i = i + 1;
    }
    assert(all.take(i as int) =~= all);
    sum
}

/// halo2's `create_proof` does not check that the witness satisfies the gates: it will happily
/// emit a proof that simply fails to verify. Witness validation is the caller's job. For a circuit
/// this small the check is a handful of field operations, so it is done exactly, mirroring the
/// in-circuit constraints.
pub fn check_witness(inputs: &[Base], outputs: &[Base]) -> (r: Result<(), ProveError>)
    ensures
        match r {
            Ok(_) => witness_error(
                crate::hash::values(inputs@),
                crate::hash::values(outputs@),
            ) is None,
            Err(e) => witness_error(
                crate::hash::values(inputs@),
                crate::hash::values(outputs@),
            ) == Some(e),
        },
{
    // the circuit decomposes only the low bytes, so everything above must be 0
    if !all_fit(inputs) || !all_fit(outputs) {
        return Err(ProveError::ValueOutOfRange);
    }
    if !add_up(inputs).same(&add_up(outputs)) {
        return Err(ProveError::Unbalanced);
    }
    Ok(())
}

/// The witness of a proof that `sum(inputs) == sum(outputs)`, bound to `sighash`.
pub fn prove(inputs: [Base; 2], outputs: [Base; 2], sighash: Base) -> (r: Result<
    ValueBalanceCircuit,
    ProveError,
>)
    ensures
        match r {
            Ok(c) => {
                &&& witness_error(
                    crate::hash::values(inputs@),
                    crate::hash::values(outputs@),
                ) is None
                &&& c.inputs == inputs
                &&& c.outputs == outputs
                &&& c.sighash == sighash
            },
            Err(e) => witness_error(
                crate::hash::values(inputs@),
                crate::hash::values(outputs@),
            ) == Some(e),
        },
{
    match check_witness(inputs.as_slice(), outputs.as_slice()) {
        Ok(_) => Ok(ValueBalanceCircuit::new(inputs, outputs, sighash)),
        Err(e) => Err(e),
    }
}

/// The check admits exactly the witnesses that satisfy the circuit: a proof is made if and only
/// if it verifies for its own sighash.
pub proof fn check_mirrors_the_circuit(inputs: Seq<nat>, outputs: Seq<nat>, sighash: nat)
    requires
        inputs.len() == 2,
        outputs.len() == 2,
    ensures
        witness_error(inputs, outputs) is None <==> crate::circuit::value_balance::accepted(
            inputs,
            outputs,
            sighash,
            sighash,
        ),
{
    if all_in_range(inputs) && all_in_range(outputs) {
        lemma_sum_of_two(inputs);
        lemma_sum_of_two(outputs);
    }
}

proof fn lemma_sum_of_two(values: Seq<nat>)
    requires
        values.len() == 2,
        all_in_range(values),
    ensures
        field_sum(values) == values[0] + values[1],
{
    assert(values[0] < crate::circuit::value_balance::value_limit());
    assert(values[1] < crate::circuit::value_balance::value_limit());
    assert(values.drop_last().drop_last() =~= Seq::empty());
    assert(values.drop_last().last() == values[0]);
    reveal_with_fuel(field_sum, 3);
    vstd::arithmetic::div_mod::lemma_small_mod(values[0], crate::pallas::base_modulus());
    vstd::arithmetic::div_mod::lemma_small_mod(
        values[0] + values[1],
        crate::pallas::base_modulus(),
    );
}

/// A proof is made exactly of values below 2^160 whose sums, as integers, are the same; a value
/// that is too large is named before a difference.
pub proof fn a_witness_is_small_and_balanced(inputs: Seq<nat>, outputs: Seq<nat>)
    requires
        inputs.len() == 2,
        outputs.len() == 2,
    ensures
        ({
            let limit = 0x1_0000_0000_0000_0000_0000_0000_0000_0000_0000_0000nat;
            let small = inputs[0] < limit && inputs[1] < limit && outputs[0] < limit && outputs[1]
                < limit;
            let balanced = inputs[0] + inputs[1] == outputs[0] + outputs[1];
            &&& witness_error(inputs, outputs) is None <==> small && balanced
            &&& witness_error(inputs, outputs) == Some(ProveError::ValueOutOfRange) <==> !small
            &&& witness_error(inputs, outputs) == Some(ProveError::Unbalanced) <==> small
                && !balanced
        }),
{
    assert(crate::circuit::value_balance::value_limit()
        == 0x1_0000_0000_0000_0000_0000_0000_0000_0000_0000_0000nat) by {
        reveal_with_fuel(crate::bytes::pow256, 21);
    }
    assert(all_in_range(inputs) <==> inputs[0] < crate::circuit::value_balance::value_limit()
        && inputs[1] < crate::circuit::value_balance::value_limit());
    assert(all_in_range(outputs) <==> outputs[0] < crate::circuit::value_balance::value_limit()
        && outputs[1] < crate::circuit::value_balance::value_limit());
    if all_in_range(inputs) && all_in_range(outputs) {
        lemma_sum_of_two(inputs);
        lemma_sum_of_two(outputs);
    }
}

} // verus!
