//! One action: what its circuit accepts and what it refuses.
use gradido_blockchain_zk::circuit::action_slice::{
    action_gate, action_row, coordinates, merkle_root, net_value, ActionSliceCircuit, FullWidth,
    GradidoCommitDomains, GradidoHashDomains, NullifierK, ShortBase, INSTANCE_ANCHOR, INSTANCE_CM_NEW,
    INSTANCE_COMMUNITY, INSTANCE_NF, INSTANCE_RK_X, INSTANCE_RK_Y, PIECE_WORDS,
};
use gradido_blockchain_zk::circuit::note_chip::{commit_ivk, nullifier, pack_gate, NoteCells};
use gradido_blockchain_zk::circuit::sample::{fixture, parties, Fixture, SampleRandomness, LEAF_POS, NOW};
use gradido_blockchain_zk::decay;
use gradido_blockchain_zk::keys::{diversify_hash, SpendingKey};
use gradido_blockchain_zk::pallas::{Base, Point};
use gradido_blockchain_zk::signature;
use rand::rngs::StdRng;
use rand::{RngCore, SeedableRng};

fn bytes64(rng: &mut StdRng) -> [u8; 64] {
    let mut out = [0u8; 64];
    rng.fill_bytes(&mut out);
    out
}

fn bytes32(rng: &mut StdRng) -> [u8; 32] {
    let mut out = [0u8; 32];
    rng.fill_bytes(&mut out);
    out
}

fn randomness() -> SampleRandomness {
    let mut rng = StdRng::seed_from_u64(7);
    let community = bytes64(&mut rng);
    let rho = bytes64(&mut rng);
    let memo_cm = bytes64(&mut rng);
    let rseed = bytes32(&mut rng);
    let mut path = [[0u8; 64]; 32];
    for node in path.iter_mut() {
        *node = bytes64(&mut rng);
    }
    SampleRandomness {
        community,
        rho,
        memo_cm,
        rseed,
        path,
        new_memo_cm: bytes64(&mut rng),
        new_rseed: bytes32(&mut rng),
        alpha: rng.next_u64(),
        rcv: rng.next_u64(),
    }
}

fn sample<const WITH_DECAY: bool, const WINDOWED: bool>(
    value: u64,
    age: u64,
    claimed: Option<u64>,
) -> Fixture<WITH_DECAY, WINDOWED> {
    fixture::<WITH_DECAY, WINDOWED>(value, age, claimed, &randomness()).expect("the parties have keys")
}

fn verifies<const WITH_DECAY: bool, const WINDOWED: bool>(
    circuit: &ActionSliceCircuit<WITH_DECAY, WINDOWED>,
    instance: Vec<Base>,
) -> bool {
    circuit.accepts(&instance)
}

fn run<const WITH_DECAY: bool, const WINDOWED: bool>(value: u64, age: u64, created: Option<u64>) -> bool {
    let f = sample::<WITH_DECAY, WINDOWED>(value, age, created);
    verifies(&f.circuit, f.instance)
}

fn bump(instance: &mut [Base], i: usize) {
    instance[i] = instance[i].plus(&Base::one());
}

#[test]
fn action_without_decay() {
    assert!(run::<false, false>(1_000_0000, 3 * decay::SECONDS_PER_YEAR, None));
}

#[test]
fn action_with_windowed_decay() {
    assert!(run::<true, true>(1_000_0000, 3 * decay::SECONDS_PER_YEAR, None));
}

#[test]
fn action_with_the_bit_chain() {
    assert!(run::<true, false>(1_000_0000, 3 * decay::SECONDS_PER_YEAR + 12_345, None));
}

#[test]
fn largest_value_and_oldest_note() {
    assert!(run::<true, true>(i64::MAX as u64, 0, None));
    assert!(run::<true, true>(i64::MAX as u64, 70 * decay::SECONDS_PER_YEAR + 12_345, None));
}

/// The public cv_net claims the note did not decay; the circuit computes the decay itself.
#[test]
fn rejects_undecayed_value() {
    let value = 1_000_0000;
    assert!(!run::<true, true>(value, 3 * decay::SECONDS_PER_YEAR, Some(value)));
}

#[test]
fn rejects_one_unit_too_much() {
    let (value, age) = (1_000_0000, 400 * 86_400);
    assert!(!run::<true, true>(value, age, Some(decay::decay_windowed(value, age) + 1)));
}

/// A dummy spend of value 0 needs no real tree position: its root may differ from the anchor.
#[test]
fn dummy_spend_ignores_the_anchor() {
    let mut f = sample::<true, true>(0, 400 * 86_400, None);
    bump(&mut f.instance, INSTANCE_ANCHOR);
    assert!(verifies(&f.circuit, f.instance));
}

/// ... but a real spend cannot.
#[test]
fn real_spend_needs_the_anchor() {
    let mut f = sample::<true, true>(1_000_0000, 400 * 86_400, None);
    bump(&mut f.instance, INSTANCE_ANCHOR);
    assert!(!verifies(&f.circuit, f.instance));
}

/// rk is what the spend authorisation signature is checked against, so it must be the one
/// derived from the spender's ak.
#[test]
fn rejects_a_foreign_rk() {
    let mut f = sample::<true, true>(1_000_0000, 400 * 86_400, None);
    bump(&mut f.instance, INSTANCE_RK_X);
    assert!(!verifies(&f.circuit, f.instance));
}

/// The value in the commitment is the cell the decay works on, so a note cannot claim one
/// value and be spent as another.
#[test]
fn rejects_commitment_with_another_value() {
    let (value, age) = (1_000_0000, 400 * 86_400);
    let mut f = sample::<true, true>(value, age, None);
    f.circuit.value = value * 2;
    assert!(!verifies(&f.circuit, f.instance));
}

/// Same for the timestamp: a note cannot be made younger to escape its decay.
#[test]
fn rejects_younger_timestamp() {
    let mut f = sample::<true, true>(1_000_0000, 3 * decay::SECONDS_PER_YEAR, None);
    f.circuit.t_note = NOW;
    assert!(!verifies(&f.circuit, f.instance));
}

fn rk_coordinates(ak: Point, alpha: gradido_blockchain_zk::pallas::Scalar) -> (Base, Base) {
    coordinates(signature::randomized_verification_key(ak, alpha).0)
}

/// Whoever knows a note's plaintext (its sender, or everybody for a public creation) must
/// not be able to spend it with their own key: with `g_d := pk_d` the attacker's own ivk
/// would have to be 1, and ivk is a hash of the attacker's key.
#[test]
fn rejects_spend_by_someone_who_knows_the_note() {
    let f = sample::<true, true>(1_000_0000, 400 * 86_400, None);
    let attacker = SpendingKey::from_bytes([99u8; 32]).full_viewing_key();
    let pk_d = parties().unwrap().spender_address.pk_d;
    for g_d in [pk_d, diversify_hash(&[3u8; 11])] {
        let mut c = f.circuit;
        c.g_d = g_d;
        c.ak = attacker.ak;
        c.nk = attacker.nk;
        c.rivk = attacker.rivk;
        let mut instance = f.instance.clone();
        // everything public the attacker would publish for their own key
        let nf = f.spent.nullifier(attacker.nk);
        instance[INSTANCE_NF] = nf;
        let mut created = f.created;
        created.rho = nf;
        instance[INSTANCE_CM_NEW] = created.commitment();
        let (rk_x, rk_y) = rk_coordinates(attacker.ak, f.alpha);
        instance[INSTANCE_RK_X] = rk_x;
        instance[INSTANCE_RK_Y] = rk_y;
        assert!(!verifies(&c, instance));
    }
}

/// Another nk would give the same note a second nullifier: a double spend.
#[test]
fn rejects_another_nullifier_key() {
    let f = sample::<true, true>(1_000_0000, 400 * 86_400, None);
    let mut c = f.circuit;
    let nk = f.spent.rho.plus(&Base::one());
    c.nk = nk;
    let mut instance = f.instance.clone();
    instance[INSTANCE_NF] = f.spent.nullifier(nk);
    assert!(!verifies(&c, instance));
}

/// The owner's viewing key holder (the community server) cannot swap in its own ak and spend
/// without the device's signature.
#[test]
fn rejects_another_ak() {
    let f = sample::<true, true>(1_000_0000, 400 * 86_400, None);
    let other = SpendingKey::from_bytes([98u8; 32]).full_viewing_key();
    let mut c = f.circuit;
    c.ak = other.ak;
    let mut instance = f.instance.clone();
    let (rk_x, rk_y) = rk_coordinates(other.ak, f.alpha);
    instance[INSTANCE_RK_X] = rk_x;
    instance[INSTANCE_RK_Y] = rk_y;
    assert!(!verifies(&c, instance));
}

/// The notes belong to the community the node verifies for.
#[test]
fn rejects_another_community() {
    let mut f = sample::<true, true>(1_000_0000, 400 * 86_400, None);
    bump(&mut f.instance, INSTANCE_COMMUNITY);
    assert!(!verifies(&f.circuit, f.instance));
}

/// A dummy (value 0) can pick any tree position, but its notes are still of this community.
#[test]
fn dummy_cannot_change_the_community() {
    let mut f = sample::<true, true>(0, 400 * 86_400, None);
    bump(&mut f.instance, INSTANCE_ANCHOR);
    bump(&mut f.instance, INSTANCE_COMMUNITY);
    assert!(!verifies(&f.circuit, f.instance));
}

#[test]
fn rejects_kind_outside_normal_and_deferred() {
    let mut f = sample::<true, true>(1_000_0000, 400 * 86_400, None);
    f.circuit.new_kind = 2;
    assert!(!verifies(&f.circuit, f.instance));
}

/// No part of the instance of a real spend can be exchanged.
#[test]
fn every_public_input_is_bound() {
    let f = sample::<true, true>(1_000_0000, 400 * 86_400, None);
    for i in 0..f.instance.len() {
        let mut instance = f.instance.clone();
        bump(&mut instance, i);
        assert!(!verifies(&f.circuit, instance), "input {i}");
    }
}

#[test]
fn points_must_not_be_the_identity() {
    let f = sample::<true, true>(0, 5, None);
    for i in 0..4 {
        let mut c = f.circuit;
        match i {
            0 => c.ak = Point::identity(),
            1 => c.g_d = Point::identity(),
            2 => c.new_g_d = Point::identity(),
            _ => c.new_pk_d = Point::identity(),
        }
        assert!(!verifies(&c, f.instance.clone()));
    }
}

#[test]
fn the_sample_is_consistent() {
    let f = sample::<true, true>(1_000_0000, 400 * 86_400, None);
    assert_eq!(f.leaf_pos, LEAF_POS);
    assert_eq!(merkle_root(f.spent.commitment(), f.leaf_pos, &f.path), f.instance[INSTANCE_ANCHOR]);
    assert_eq!(f.created.value, decay::decay_windowed(1_000_0000, 400 * 86_400));
    assert_eq!(f.created.rho, f.instance[INSTANCE_NF]);
    assert_eq!(f.created.commitment(), f.instance[INSTANCE_CM_NEW]);
    assert_eq!(f.instance[INSTANCE_COMMUNITY], f.community);
    assert_eq!(f.circuit.alpha, f.alpha);
}

#[test]
fn the_action_row_satisfies_its_polynomials() {
    let gate = action_gate();
    let none: [Base; 0] = [];
    let (root, anchor) = (Base::from(5u64), Base::from(6u64));
    for (decayed, v_new) in [(10u64, 3u64), (3, 10), (0, 0), (u64::MAX, 0), (0, u64::MAX)] {
        assert!(gate.check(&[action_row(decayed, v_new, 7, root, root)], &none));
        assert!(gate.check(&[action_row(decayed, v_new, 0, root, anchor)], &none));
        assert!(!gate.check(&[action_row(decayed, v_new, 7, root, anchor)], &none));
    }
    assert_eq!(net_value(10, 3), (Base::from(7u64), Base::one()));
    assert_eq!(net_value(3, 10), (Base::from(7u64), Base::one().negate()));
}

#[test]
fn the_note_chip_agrees_with_the_note() {
    let f = sample::<true, true>(1_000_0000, 400 * 86_400, None);
    let n = f.spent;
    let cells = NoteCells {
        community: n.community,
        coin_community: n.coin_community,
        value: Base::from(n.value),
        t_note: Base::from(n.t_note),
        kind: Base::from(n.kind.to_u8() as u64),
        expiry_epoch: Base::from(n.expiry_epoch),
        g_d_x: n.g_d_x,
        g_d_y: n.g_d_y,
        pk_d_x: n.pk_d_x,
        pk_d_y: n.pk_d_y,
        rho: n.rho,
        psi: n.psi,
        memo_cm: n.memo_cm,
        rcm: n.rcm,
    };
    assert_eq!(cells.commit(), Some(n.commitment()));
    let none: [Base; 0] = [];
    let mut rows = cells.pack_rows();
    assert!(pack_gate().check(&rows, &none));
    rows[0][0] = rows[0][0].plus(&Base::one());
    assert!(!pack_gate().check(&rows, &none));
    let mut wide = cells;
    wide.value = Base::from(1u64 << 63);
    assert_eq!(wide.commit(), None);

    let key = parties().unwrap().spender;
    assert_eq!(nullifier(&key.nk, &n.rho, &n.commitment()), n.nullifier(key.nk));
    assert_eq!(commit_ivk(&key.ak.x(), &key.nk, &key.rivk).to_scalar(), key.ivk);
}

#[test]
fn fixed_bases_are_those_of_the_signatures() {
    assert_eq!(FullWidth::SpendAuth.generator(), signature::spend_auth_base());
    assert_eq!(FullWidth::ValueRandomness.generator(), signature::randomness_base());
    assert_eq!(NullifierK.generator(), signature::spend_auth_base());
    assert_eq!(ShortBase.generator(), signature::value_base());
    assert_eq!(GradidoCommitDomains::NoteCommit.r(), FullWidth::ValueRandomness);
    assert_eq!(GradidoCommitDomains::NoteCommit.hash_domain(), GradidoHashDomains::NoteCommit);
    assert_eq!(PIECE_WORDS.iter().sum::<usize>(), 111);
    assert_eq!(coordinates(Point::identity()), (Base::zero(), Base::zero()));
}

/// The whole transfer, but the spender claims the value did not decay.
#[test]
fn a_transfer_that_skips_the_decay_is_rejected() {
    let f = sample::<true, true>(1_000_0000, 400 * 86_400, Some(1_000_0000));
    assert!(!verifies(&f.circuit, f.instance));
}
