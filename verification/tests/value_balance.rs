//! The value balance circuit, its witness check and the entry points for a node.
use gradido_blockchain_zk::circuit::value_balance::{
    balance_gate, decomposition_gate, ValueBalanceCircuit, K, LIMB_BITS, N_IN, N_LIMBS, N_OUT, VALUE_BITS,
};
use gradido_blockchain_zk::ffi;
use gradido_blockchain_zk::pallas::Base;
use gradido_blockchain_zk::prover;

fn run(inputs: [Base; N_IN], outputs: [Base; N_OUT], sighash: Base) -> bool {
    ValueBalanceCircuit::new(inputs, outputs, sighash).accepts(&sighash)
}

/// 2^VALUE_BITS as a field element, one past the largest legal anchored value.
fn two_pow_value_bits() -> Base {
    let mut acc = Base::one();
    for _ in 0..VALUE_BITS {
        acc = acc.double();
    }
    acc
}

#[test]
fn the_limbs_cover_a_value() {
    assert_eq!(N_LIMBS * LIMB_BITS, VALUE_BITS);
    assert_eq!(K, 11);
    assert_eq!(balance_gate().name, "value balance");
    assert_eq!(decomposition_gate().polys.len(), 1);
}

#[test]
fn balanced_transfer_satisfies_constraints() {
    let inputs = [Base::from(700_000u64), Base::from(300_000u64)];
    let outputs = [Base::from(999_000u64), Base::from(1_000u64)];
    assert!(run(inputs, outputs, Base::from(42u64)));
}

#[test]
fn unbalanced_transfer_is_rejected() {
    // one gddCent conjured out of nothing
    let inputs = [Base::from(700_000u64), Base::from(300_000u64)];
    let outputs = [Base::from(999_000u64), Base::from(1_001u64)];
    assert!(!run(inputs, outputs, Base::from(42u64)));
}

#[test]
fn value_above_range_is_rejected() {
    // balances in the field, but the values exceed 2^VALUE_BITS, so the range check bites.
    // Without it, a "negative" value could forge money by wrapping around the modulus.
    let big = two_pow_value_bits();
    assert!(!run([big, Base::zero()], [big, Base::zero()], Base::from(7u64)));
    // the largest value passes
    let max = big.minus(&Base::one());
    assert!(run([max, Base::zero()], [Base::zero(), max], Base::from(7u64)));
}

#[test]
fn wrong_sighash_is_rejected() {
    let circuit = ValueBalanceCircuit::new(
        [Base::from(10u64), Base::from(5u64)],
        [Base::from(15u64), Base::zero()],
        Base::from(1u64),
    );
    // instance says 2, witness says 1 -> copy constraint fails
    assert!(!circuit.accepts(&Base::from(2u64)));
    assert!(circuit.accepts(&Base::from(1u64)));
}

#[test]
fn prove_rejects_unbalanced_witness() {
    // halo2 itself would emit an unverifiable proof here; the check must catch it
    let err = prover::prove(
        [Base::from(700_000u64), Base::from(300_000u64)],
        [Base::from(999_000u64), Base::from(1_001u64)],
        Base::from(1u64),
    );
    assert!(matches!(err, Err(prover::ProveError::Unbalanced)));
}

#[test]
fn prove_rejects_out_of_range_value() {
    let big = two_pow_value_bits();
    let err = prover::prove([big, Base::zero()], [big, Base::zero()], Base::from(1u64));
    assert!(matches!(err, Err(prover::ProveError::ValueOutOfRange)));
}

#[test]
fn the_witness_check_mirrors_the_circuit() {
    let big = two_pow_value_bits();
    let samples = [Base::zero(), Base::one(), Base::from(5u64), big, big.minus(&Base::one()), big.negate()];
    for a in samples {
        for b in samples {
            for c in samples {
                let checked = prover::check_witness(&[a, b], &[c, Base::one()]).is_ok();
                assert_eq!(checked, run([a, b], [c, Base::one()], Base::from(3u64)));
            }
        }
    }
}

#[test]
fn an_admitted_witness_keeps_its_values() {
    let inputs = [Base::from(1_234_567u64), Base::from(7_654_321u64)];
    let outputs = [Base::from(8_000_000u64), Base::from(888_888u64)];
    let sighash = Base::from(0xdead_beefu64);
    let circuit = prover::prove(inputs, outputs, sighash).expect("balanced");
    assert_eq!(circuit.inputs, inputs);
    assert_eq!(circuit.outputs, outputs);
    assert!(circuit.accepts(&sighash));
    assert!(!circuit.accepts(&Base::from(1u64)));
}

fn le(v: u64) -> [u8; 32] {
    Base::from(v).to_repr()
}

fn joined(a: [u8; 32], b: [u8; 32]) -> Vec<u8> {
    let mut out = a.to_vec();
    out.extend_from_slice(&b);
    out
}

#[test]
fn ffi_arguments_become_a_witness() {
    let circuit = ffi::prove(&joined(le(500), le(500)), 2, &joined(le(999), le(1)), 2, &le(0x1234)).expect("valid");
    assert_eq!(circuit.inputs, [Base::from(500u64), Base::from(500u64)]);
    assert_eq!(circuit.outputs, [Base::from(999u64), Base::from(1u64)]);
    assert!(circuit.accepts(&Base::from(0x1234u64)));
    assert_eq!(ffi::verify_code(true), ffi::GRDZK_OK);
    assert_eq!(ffi::verify_code(false), ffi::GRDZK_ERR_VERIFY_FAILED);
}

#[test]
fn ffi_rejects_bad_arity_and_null() {
    let v = [0u8; 32];
    assert_eq!(ffi::prove(&v, 3, &v, 2, &v).unwrap_err(), ffi::GRDZK_ERR_BAD_ARITY);
    assert_eq!(ffi::prove(&v, 2, &v, 1, &v).unwrap_err(), ffi::GRDZK_ERR_BAD_ARITY);
    assert_eq!(ffi::GRDZK_ERR_NULL_POINTER, -1);
}

#[test]
fn ffi_codes_for_bad_values() {
    let ok = joined(le(1), le(2));
    let not_canonical = joined(le(1), [0xff; 32]);
    assert_eq!(ffi::prove(&not_canonical, 2, &ok, 2, &le(9)).unwrap_err(), ffi::GRDZK_ERR_BAD_VALUE);
    assert_eq!(ffi::prove(&ok, 2, &not_canonical, 2, &le(9)).unwrap_err(), ffi::GRDZK_ERR_BAD_VALUE);
    assert_eq!(ffi::prove(&ok, 2, &ok, 2, &[0xff; 32]).unwrap_err(), ffi::GRDZK_ERR_BAD_VALUE);
    assert_eq!(
        ffi::prove(&ok, 2, &joined(le(1), le(3)), 2, &le(9)).unwrap_err(),
        ffi::GRDZK_ERR_UNBALANCED
    );
    let big = two_pow_value_bits().to_repr();
    assert_eq!(
        ffi::prove(&joined(big, le(0)), 2, &joined(le(0), big), 2, &le(9)).unwrap_err(),
        ffi::GRDZK_ERR_VALUE_RANGE
    );
    assert_eq!(ffi::prove_code(&prover::ProveError::Synthesis), ffi::GRDZK_ERR_PROVE_FAILED);
    assert_eq!(ffi::field_from_bytes(&le(77)), Some(Base::from(77u64)));
    assert_eq!(ffi::field_from_bytes(&[0xff; 32]), None);
}
