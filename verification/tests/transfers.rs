//! Shielded transfers through the ledger: pay with change, receive, spend again, and the ways a
//! transfer must fail; the wire format; and the signing device against an honest and a malicious
//! community server.
//!
//! A proof exists exactly where the witnesses satisfy their circuits, so these tests ask the
//! circuits in place of a proof system.
use gradido_blockchain_zk::bundle::{
    body_sighash, build, instances, sign_spend, spendable_value, verify_bundle_crypto, ActionCircuit, ActionRandomness,
    AuthorizeError, AuthorizeRandomness, BuildError, BuildRandomness, Bundle, DummyKey, Ledger, OutputInfo,
    OutputPadding, SpendInfo, SpendPadding, UnauthorizedBundle, VerifyError, ACTIONS, PROOF_SIZE,
};
use gradido_blockchain_zk::circuit::action_slice::{merkle_root, ActionSliceCircuit};
use gradido_blockchain_zk::keys::{Address, FullViewingKey, SpendingKey};
use gradido_blockchain_zk::note::{creation_rho, from_parts, NoteError, NoteKind, RandomSeed};
use gradido_blockchain_zk::note_encryption::{
    decrypt, encrypt, GradidoDomain, NoteWithSeed, OutgoingFiller, FREE_MEMO_SIZE,
};
use gradido_blockchain_zk::pallas::{Base, Point, Scalar};
use gradido_blockchain_zk::signature::SpendAuthSignature;
use gradido_blockchain_zk::signer::{self, MemoOpening, ReviewError, SigningRequest};
use gradido_blockchain_zk::tree::CommitmentTree;
use gradido_blockchain_zk::wasm::{self, Argument, DeviceError};
use gradido_blockchain_zk::wire::{self, from_wire, to_wire, WireError};
use gradido_blockchain_zk::{address, decay, ffi, memo, signature};
use rand::rngs::StdRng;
use rand::{RngCore, SeedableRng};

const COMMUNITY: u64 = 7;
const NOW: u64 = 1_800_000_000;
const DAY: u64 = 86_400;

fn community() -> Base {
    Base::from(COMMUNITY)
}

// ------------------------------------------------------------------------------- randomness

fn bytes<const N: usize>(rng: &mut StdRng) -> [u8; N] {
    let mut out = [0u8; N];
    rng.fill_bytes(&mut out);
    out
}

fn random_base(rng: &mut StdRng) -> Base {
    Base::from_uniform_bytes(&bytes(rng))
}

fn random_scalar(rng: &mut StdRng) -> Scalar {
    Scalar::from_uniform_bytes(&bytes(rng))
}

fn spend_padding(rng: &mut StdRng) -> SpendPadding {
    let mut path = [[0u8; 64]; 32];
    for node in path.iter_mut() {
        *node = bytes(rng);
    }
    SpendPadding {
        key: DummyKey::new(bytes(rng)).unwrap(),
        diversifier: bytes(rng),
        rho: bytes(rng),
        rseed: bytes(rng),
        path,
    }
}

fn output_padding(rng: &mut StdRng) -> OutputPadding {
    OutputPadding { key: DummyKey::new(bytes(rng)).unwrap(), diversifier: bytes(rng) }
}

fn action_randomness(rng: &mut StdRng) -> ActionRandomness {
    ActionRandomness {
        rseed: bytes(rng),
        alpha: random_scalar(rng),
        rcv: random_scalar(rng),
        filler: OutgoingFiller { key: bytes(rng), plaintext: bytes(rng) },
    }
}

fn build_randomness(rng: &mut StdRng) -> BuildRandomness {
    BuildRandomness {
        spends: [spend_padding(rng), spend_padding(rng)],
        outputs: [output_padding(rng), output_padding(rng)],
        actions: [action_randomness(rng), action_randomness(rng)],
    }
}

fn authorize_randomness(rng: &mut StdRng) -> AuthorizeRandomness {
    AuthorizeRandomness { spends: [bytes(rng), bytes(rng)], binding: bytes(rng) }
}

// ------------------------------------------------------------------------------- scaffolding

struct Wallet {
    sk: SpendingKey,
    fvk: FullViewingKey,
}

impl Wallet {
    fn new(seed: u8) -> Self {
        let sk = SpendingKey::from_bytes([seed; 32]);
        Self { fvk: sk.full_viewing_key(), sk }
    }
}

/// Keeps a copy of the tree with the wallet's own notes marked, as a wallet would.
struct WalletTree {
    tree: CommitmentTree,
}

impl WalletTree {
    fn new() -> Self {
        Self { tree: CommitmentTree::default() }
    }

    /// Mirrors what the ledger appends, marking the positions this wallet cares about.
    fn follow(&mut self, cms: &[Base], mine: &[usize]) -> Vec<u32> {
        let mut positions = Vec::new();
        for (i, cm) in cms.iter().enumerate() {
            let keep = mine.contains(&i);
            let position = self.tree.append(*cm, keep).unwrap();
            if keep {
                positions.push(position as u32);
            }
        }
        self.tree.checkpoint();
        positions
    }
}

/// A ledger in which `owner` already holds a note worth `value`, created `age` seconds ago.
fn ledger_with_note(owner: &Wallet, value: u64, age: u64, rng: &mut StdRng) -> (Ledger, WalletTree, SpendInfo) {
    let diversifier = [9u8; 11];
    let rseed = RandomSeed::random(bytes(rng));
    let note = from_parts(
        community(),
        community(),
        value,
        NOW - age,
        NoteKind::Normal,
        0,
        &owner.fvk.address(diversifier),
        random_base(rng),
        Base::zero(),
        rseed,
    )
    .unwrap();
    let mut ledger = Ledger::new();
    ledger.add_note(note.commitment()).unwrap();
    let mut wallet_tree = WalletTree::new();
    let position = wallet_tree.follow(&[note.commitment()], &[0])[0];
    let spend = SpendInfo {
        fvk: owner.fvk,
        note: NoteWithSeed { note, rseed },
        position,
        path: wallet_tree.tree.witness(position as u64).unwrap(),
    };
    (ledger, wallet_tree, spend)
}

/// A transfer with the witnesses that its proof was made of.
struct Proven {
    unauthorized: UnauthorizedBundle,
    circuits: Vec<ActionCircuit>,
}

fn build_proven(
    anchor: Base,
    now: u64,
    spends: Vec<SpendInfo>,
    outputs: Vec<OutputInfo>,
    ovk: Option<[u8; 32]>,
    rng: &mut StdRng,
) -> Result<Proven, BuildError> {
    let unproven = build(community(), anchor, now, spends, outputs, ovk, &build_randomness(rng))?;
    let circuits = unproven.circuits.clone();
    let public = instances(community(), anchor, now, &unproven.bundle.actions);
    assert_eq!(public, unproven.instances, "prover and verifier see the same inputs");
    for (circuit, instance) in circuits.iter().zip(unproven.instances.iter()) {
        assert!(circuit.accepts(instance), "what was built can be proven");
    }
    let unauthorized = unproven.prove(Some(vec![0u8; PROOF_SIZE]))?;
    Ok(Proven { unauthorized, circuits })
}

/// What a verifier says of a proof that was made of these witnesses.
fn holds(circuits: &[ActionCircuit], bundle: &Bundle) -> bool {
    let public = instances(bundle.community, bundle.anchor, bundle.now, &bundle.actions);
    public.len() == circuits.len() && circuits.iter().zip(public.iter()).all(|(c, i)| c.accepts(i))
}

fn verify(ledger: &Ledger, circuits: &[ActionCircuit], bundle: &Bundle, sighash: &[u8; 32]) -> Result<(), VerifyError> {
    ledger.verify(bundle, sighash, holds(circuits, bundle))
}

fn apply(
    ledger: &mut Ledger,
    circuits: &[ActionCircuit],
    bundle: &Bundle,
    sighash: &[u8; 32],
) -> Result<(), VerifyError> {
    let proof_holds = holds(circuits, bundle);
    ledger.apply(bundle, sighash, proof_holds)
}

/// Lets the owner's device sign the real spends, and authorises.
fn sign_and_authorize(unauthorized: UnauthorizedBundle, owner: &Wallet, rng: &mut StdRng) -> Bundle {
    let sighash = unauthorized.sighash();
    let device_sigs: Vec<SpendAuthSignature> = unauthorized
        .real_spends()
        .into_iter()
        .map(|i| sign_spend(&owner.sk.spend_authorizing_key(), unauthorized.alphas[i], &sighash, &bytes(rng)))
        .collect();
    unauthorized.authorize(&sighash, device_sigs, &authorize_randomness(rng)).unwrap()
}

fn find_notes(bundle: &Bundle, fvk: &FullViewingKey) -> Vec<(usize, NoteWithSeed)> {
    bundle
        .actions
        .iter()
        .enumerate()
        .filter_map(|(i, action)| {
            let domain = GradidoDomain {
                community: bundle.community,
                coin_community: bundle.community,
                rho: action.nullifier,
            };
            decrypt(&domain, fvk.ivk, &action.encrypted)
                .filter(|(note, _, _)| note.note.value > 0)
                .map(|(note, _, _)| (i, note))
        })
        .collect()
}

// ------------------------------------------------------------------------------- transfers

#[test]
fn pay_with_change_then_the_recipient_spends_it() {
    let mut rng = StdRng::seed_from_u64(77);
    let alice = Wallet::new(1);
    let bob = Wallet::new(2);
    let carol = Wallet::new(3);

    // Alice's note of 1000 GDD is 400 days old
    let (mut ledger, mut bob_tree, alice_note) = ledger_with_note(&alice, 1_000_0000, 400 * DAY, &mut rng);
    let spendable = decay::decay_windowed(1_000_0000, 400 * DAY);
    assert_eq!(spendable_value(&alice_note.note, NOW), Some(spendable));

    // she pays Bob 300 GDD and keeps the rest
    let payment = 300_0000;
    let outputs = vec![
        OutputInfo::new(bob.fvk.address([1u8; 11]), payment),
        OutputInfo::new(alice.fvk.address([2u8; 11]), spendable - payment),
    ];
    let anchor = ledger.tree.root();
    let proven =
        build_proven(anchor, NOW, vec![alice_note], outputs, Some(alice.fvk.ovk), &mut rng).expect("builds");
    let bundle = sign_and_authorize(proven.unauthorized, &alice, &mut rng);
    apply(&mut ledger, &proven.circuits, &bundle, &bundle.sighash()).expect("valid transfer");

    // Bob finds exactly his payment, Alice exactly her change
    let bobs = find_notes(&bundle, &bob.fvk);
    assert_eq!(bobs.len(), 1);
    assert_eq!(bobs[0].1.note.value, payment);
    let alices = find_notes(&bundle, &alice.fvk);
    assert_eq!(alices.len(), 1);
    assert_eq!(alices[0].1.note.value, spendable - payment);

    // Bob follows the tree and keeps a witness for his note
    let cms: Vec<Base> = bundle.actions.iter().map(|a| a.cm).collect();
    let bob_position = bob_tree.follow(&cms, &[bobs[0].0])[0];
    assert_eq!(bob_tree.tree.root(), ledger.tree.root(), "wallet and ledger agree on the tree");

    // 30 days later Bob passes it on to Carol
    let later = NOW + 30 * DAY;
    let bob_note = bobs[0].1;
    let bob_spend = SpendInfo {
        fvk: bob.fvk,
        note: bob_note,
        position: bob_position,
        path: bob_tree.tree.witness(bob_position as u64).unwrap(),
    };
    let worth = decay::decay_windowed(payment, 30 * DAY);
    let proven = build_proven(
        ledger.tree.root(),
        later,
        vec![bob_spend],
        vec![OutputInfo::new(carol.fvk.address([5u8; 11]), worth)],
        None,
        &mut rng,
    )
    .expect("builds");
    let second = sign_and_authorize(proven.unauthorized, &bob, &mut rng);
    apply(&mut ledger, &proven.circuits, &second, &second.sighash()).expect("Bob's note is spendable");
    let carols = find_notes(&second, &carol.fvk);
    assert_eq!(carols.len(), 1);
    assert_eq!(carols[0].1.note.value, worth);
}

#[test]
fn the_same_bundle_twice_is_a_double_spend() {
    let mut rng = StdRng::seed_from_u64(78);
    let alice = Wallet::new(1);
    let bob = Wallet::new(2);
    let (mut ledger, _, note) = ledger_with_note(&alice, 500_0000, 10 * DAY, &mut rng);
    let value = decay::decay_windowed(500_0000, 10 * DAY);
    let proven = build_proven(
        ledger.tree.root(),
        NOW,
        vec![note],
        vec![OutputInfo::new(bob.fvk.address([1u8; 11]), value)],
        None,
        &mut rng,
    )
    .unwrap();
    let bundle = sign_and_authorize(proven.unauthorized, &alice, &mut rng);
    apply(&mut ledger, &proven.circuits, &bundle, &bundle.sighash()).expect("first time is fine");
    assert!(matches!(
        apply(&mut ledger, &proven.circuits, &bundle, &bundle.sighash()),
        Err(VerifyError::DoubleSpend(_))
    ));
}

#[test]
fn building_refuses_what_does_not_balance() {
    let mut rng = StdRng::seed_from_u64(79);
    let alice = Wallet::new(1);
    let bob = Wallet::new(2);
    let (ledger, _, note) = ledger_with_note(&alice, 500_0000, 10 * DAY, &mut rng);
    // the full nominal value, ignoring 10 days of decay
    let result = build_proven(
        ledger.tree.root(),
        NOW,
        vec![note],
        vec![OutputInfo::new(bob.fvk.address([1u8; 11]), 500_0000)],
        None,
        &mut rng,
    );
    assert!(matches!(result, Err(BuildError::Unbalanced { .. })));
}

#[test]
fn each_build_error_has_its_reason() {
    let mut rng = StdRng::seed_from_u64(179);
    let alice = Wallet::new(1);
    let (ledger, _, note) = ledger_with_note(&alice, 500_0000, 10 * DAY, &mut rng);
    let value = decay::decay_windowed(500_0000, 10 * DAY);
    let root = ledger.tree.root();
    let to = alice.fvk.address([1u8; 11]);
    let out = |v: u64| OutputInfo::new(to, v);
    let mut error = |now: u64, spends: Vec<SpendInfo>, outputs: Vec<OutputInfo>| {
        build_proven(root, now, spends, outputs, None, &mut rng).err()
    };
    assert_eq!(error(NOW, vec![note; 3], vec![out(value)]), Some(BuildError::TooManySpends));
    assert_eq!(error(NOW, vec![note], vec![out(value); 3]), Some(BuildError::TooManyOutputs));
    assert_eq!(
        error(NOW, vec![note], vec![out(value - 1)]),
        Some(BuildError::Unbalanced { spent: value, created: value - 1 })
    );
    assert_eq!(error(NOW, vec![], vec![out(u64::MAX), out(1)]), Some(BuildError::Overflow));
    assert_eq!(error(NOW - 11 * DAY, vec![note], vec![out(value)]), Some(BuildError::NoteFromTheFuture));
    let mut foreign = note;
    foreign.note.note.community = Base::from(8u64);
    assert_eq!(error(NOW, vec![foreign], vec![out(value)]), Some(BuildError::WrongCommunity));
    let mut late = out(value);
    late.expiry_epoch = 1 << 16;
    assert_eq!(error(NOW, vec![note], vec![late]), Some(BuildError::InvalidNote(NoteError::ExpiryTooLarge)));
    let mut memo_output = out(value);
    memo_output.memo_cm = Base::from(5u64);
    memo_output.memo_opening = Some(MemoOpening { text: [0u8; 512], r_memo: Base::one() });
    assert_eq!(error(NOW, vec![note], vec![memo_output]), Some(BuildError::MemoMismatch));
    assert_eq!(error(NOW, vec![note], vec![out(value)]), None);

    let unproven =
        build(community(), root, NOW, vec![note], vec![out(value)], None, &build_randomness(&mut rng)).unwrap();
    assert_eq!(unproven.prove(None).unwrap_err(), BuildError::Proof);
    assert_eq!(spendable_value(&note.note, NOW - 11 * DAY), None);
}

/// Everything below starts from one valid bundle and breaks one thing.
fn valid_bundle(rng: &mut StdRng) -> (Ledger, Bundle, Vec<ActionCircuit>) {
    let alice = Wallet::new(1);
    let bob = Wallet::new(2);
    let (ledger, _, note) = ledger_with_note(&alice, 800_0000, 100 * DAY, rng);
    let value = decay::decay_windowed(800_0000, 100 * DAY);
    let proven = build_proven(
        ledger.tree.root(),
        NOW,
        vec![note],
        vec![
            OutputInfo::new(bob.fvk.address([1u8; 11]), value / 2),
            OutputInfo::new(alice.fvk.address([2u8; 11]), value - value / 2),
        ],
        None,
        rng,
    )
    .unwrap();
    let bundle = sign_and_authorize(proven.unauthorized, &alice, rng);
    (ledger, bundle, proven.circuits)
}

#[test]
fn a_valid_bundle_verifies() {
    let mut rng = StdRng::seed_from_u64(80);
    let (ledger, bundle, circuits) = valid_bundle(&mut rng);
    assert_eq!(verify(&ledger, &circuits, &bundle, &bundle.sighash()), Ok(()));
    assert_eq!(bundle.nullifiers().len(), ACTIONS);
    assert_eq!(verify_bundle_crypto(&bundle, &bundle.sighash(), true), Ok(()));
    assert_eq!(verify_bundle_crypto(&bundle, &bundle.sighash(), false), Err(VerifyError::Proof));
}

/// Trailing bytes would still verify (halo2 does not check that the transcript is used up), so
/// the length is part of the format.
#[test]
fn the_proof_has_a_fixed_size() {
    let mut rng = StdRng::seed_from_u64(86);
    let (ledger, mut bundle, circuits) = valid_bundle(&mut rng);
    assert_eq!(bundle.proof.len(), PROOF_SIZE);
    bundle.proof.push(0);
    assert_eq!(verify(&ledger, &circuits, &bundle, &bundle.sighash()), Err(VerifyError::Proof));
}

/// The proof has the community as public input; a node of another community cannot accept it.
#[test]
fn a_bundle_of_another_community_is_rejected() {
    let mut rng = StdRng::seed_from_u64(87);
    let (ledger, mut bundle, circuits) = valid_bundle(&mut rng);
    let sighash = bundle.sighash();
    bundle.community = bundle.community.plus(&Base::one());
    assert_eq!(verify(&ledger, &circuits, &bundle, &sighash), Err(VerifyError::Proof));
}

/// A wrong or missing device signature is reported by `authorize`, not only by the node.
#[test]
fn authorize_checks_the_device_signatures() {
    let mut rng = StdRng::seed_from_u64(88);
    let alice = Wallet::new(1);
    let mallory = SpendingKey::from_bytes([66u8; 32]);
    let build_one = |rng: &mut StdRng| {
        let (ledger, _, note) = ledger_with_note(&alice, 800_0000, 100 * DAY, rng);
        let value = decay::decay_windowed(800_0000, 100 * DAY);
        build_proven(
            ledger.tree.root(),
            NOW,
            vec![note],
            vec![OutputInfo::new(alice.fvk.address([2u8; 11]), value)],
            None,
            rng,
        )
        .unwrap()
        .unauthorized
    };

    let unauthorized = build_one(&mut rng);
    let sighash = unauthorized.sighash();
    assert_eq!(
        unauthorized.authorize(&sighash, vec![], &authorize_randomness(&mut rng)).unwrap_err(),
        AuthorizeError::SignatureCount { expected: 1, got: 0 }
    );

    let unauthorized = build_one(&mut rng);
    let sighash = unauthorized.sighash();
    let i = unauthorized.real_spends()[0];
    let wrong = sign_spend(&mallory.spend_authorizing_key(), unauthorized.alphas[i], &sighash, &bytes(&mut rng));
    assert_eq!(
        unauthorized.authorize(&sighash, vec![wrong], &authorize_randomness(&mut rng)).unwrap_err(),
        AuthorizeError::BadSignature(i)
    );
}

#[test]
fn an_unknown_anchor_is_rejected() {
    let mut rng = StdRng::seed_from_u64(81);
    let (_, bundle, circuits) = valid_bundle(&mut rng);
    assert_eq!(
        verify(&Ledger::new(), &circuits, &bundle, &bundle.sighash()),
        Err(VerifyError::UnknownAnchor)
    );
}

#[test]
fn a_swapped_note_commitment_breaks_the_proof() {
    let mut rng = StdRng::seed_from_u64(82);
    let (ledger, mut bundle, circuits) = valid_bundle(&mut rng);
    let sighash = bundle.sighash();
    bundle.actions[0].cm = bundle.actions[0].cm.plus(&Base::one());
    assert!(verify(&ledger, &circuits, &bundle, &sighash).is_err());
}

#[test]
fn a_changed_value_commitment_is_caught() {
    let mut rng = StdRng::seed_from_u64(83);
    let (ledger, mut bundle, circuits) = valid_bundle(&mut rng);
    // shift one unit of value from one action to the other, keeping the sum
    let v = signature::value_base();
    bundle.actions[0].cv_net = bundle.actions[0].cv_net.plus(&v);
    bundle.actions[1].cv_net = bundle.actions[1].cv_net.minus(&v);
    assert!(
        verify(&ledger, &circuits, &bundle, &bundle.sighash()).is_err(),
        "the proof binds every cv_net to its action"
    );
}

#[test]
fn a_spend_signed_by_someone_else_is_rejected() {
    let mut rng = StdRng::seed_from_u64(84);
    let (ledger, mut bundle, circuits) = valid_bundle(&mut rng);
    let mallory = SpendingKey::from_bytes([66u8; 32]);
    let sighash = bundle.sighash();
    bundle.spend_auth_sigs[0] =
        sign_spend(&mallory.spend_authorizing_key(), random_scalar(&mut rng), &sighash, &bytes(&mut rng));
    assert!(matches!(verify(&ledger, &circuits, &bundle, &sighash), Err(VerifyError::SpendAuth(0))));
}

#[test]
fn a_changed_ciphertext_invalidates_the_signatures() {
    let mut rng = StdRng::seed_from_u64(85);
    let (ledger, mut bundle, circuits) = valid_bundle(&mut rng);
    let signed_over = bundle.sighash();
    bundle.actions[1].encrypted.enc_ciphertext[3] ^= 1;
    // the node hashes what it received, so the signatures no longer match
    assert_ne!(bundle.sighash(), signed_over);
    assert!(verify(&ledger, &circuits, &bundle, &bundle.sighash()).is_err());
}

#[test]
fn each_verdict_has_its_reason() {
    let mut rng = StdRng::seed_from_u64(180);
    let (ledger, bundle, _) = valid_bundle(&mut rng);
    let sighash = bundle.sighash();
    let mut short = bundle.clone();
    short.actions.pop();
    assert_eq!(ledger.verify(&short, &sighash, true), Err(VerifyError::WrongActionCount));
    let mut few = bundle.clone();
    few.spend_auth_sigs.pop();
    assert_eq!(verify_bundle_crypto(&few, &sighash, true), Err(VerifyError::WrongActionCount));
    let mut identity = bundle.clone();
    identity.actions[1].rk = Point::identity();
    assert_eq!(verify_bundle_crypto(&identity, &sighash, true), Err(VerifyError::SpendAuth(1)));
    let mut binding = bundle.clone();
    binding.binding_sig.0[5] ^= 1;
    assert_eq!(verify_bundle_crypto(&binding, &sighash, true), Err(VerifyError::Binding));
    let mut twice = bundle.clone();
    twice.actions[1].nullifier = twice.actions[0].nullifier;
    assert!(matches!(ledger.verify(&twice, &sighash, true), Err(VerifyError::DoubleSpend(_))));
}

/// A refused bundle leaves no trace.
#[test]
fn a_refused_bundle_changes_nothing() {
    let mut rng = StdRng::seed_from_u64(181);
    let (mut ledger, bundle, circuits) = valid_bundle(&mut rng);
    let root = ledger.tree.root();
    assert!(ledger.apply(&bundle, &bundle.sighash(), false).is_err());
    assert_eq!(ledger.tree.root(), root);
    assert_eq!(ledger.tree.size(), 1);
    assert!(ledger.nullifiers.is_empty());
    assert_eq!(apply(&mut ledger, &circuits, &bundle, &bundle.sighash()), Ok(()));
    assert_eq!(ledger.tree.size(), 3);
    assert_eq!(ledger.nullifiers.len(), 2);
}

// ------------------------------------------------------------------------------- wire format

#[test]
fn a_bundle_survives_the_wire() {
    let mut rng = StdRng::seed_from_u64(90);
    let (ledger, bundle, circuits) = valid_bundle(&mut rng);
    let (body, auth) = wire::encode(&bundle);
    println!("ShieldedBundle {} bytes, ShieldedAuthorization {} bytes", body.len(), auth.len());
    assert_eq!((body.len(), auth.len()), (1714, 8137));

    let decoded = wire::decode(&body, &auth, bundle.community, bundle.now).expect("decodes");
    assert_eq!(decoded.sighash(), bundle.sighash());
    assert_eq!(verify(&ledger, &circuits, &decoded, &decoded.sighash()), Ok(()));
    assert_eq!(wire::encode(&decoded), (body, auth));
}

#[test]
fn the_wire_decoder_is_strict() {
    let mut rng = StdRng::seed_from_u64(91);
    let (_, bundle, _) = valid_bundle(&mut rng);
    let (shielded, auth) = to_wire(&bundle);
    let (community, now) = (bundle.community, bundle.now);

    let mut short = shielded.clone();
    short.actions[0].cv.pop();
    assert_eq!(from_wire(&short, &auth, community, now).unwrap_err(), WireError::WrongLength("cv"));

    let mut not_canonical = shielded.clone();
    not_canonical.actions[1].nullifier = vec![0xff; 32];
    assert_eq!(
        from_wire(&not_canonical, &auth, community, now).unwrap_err(),
        WireError::NotCanonical("nullifier")
    );

    let mut one_action = shielded.clone();
    one_action.actions.pop();
    assert_eq!(from_wire(&one_action, &auth, community, now).unwrap_err(), WireError::WrongActionCount(1));

    let mut other_version = shielded.clone();
    other_version.circuit_version = 99;
    assert_eq!(
        from_wire(&other_version, &auth, community, now).unwrap_err(),
        WireError::WrongCircuitVersion(99)
    );

    assert_eq!(wire::decode(&[0xff, 0xff], &[], community, now).unwrap_err(), WireError::Protobuf);

    let mut no_anchor = shielded.clone();
    no_anchor.anchor = None;
    assert_eq!(from_wire(&no_anchor, &auth, community, now).unwrap_err(), WireError::MissingAnchor);

    let mut crossing = shielded.clone();
    crossing.cross_community_cv = vec![1];
    assert_eq!(from_wire(&crossing, &auth, community, now).unwrap_err(), WireError::CrossCommunityNotSupported);
}

/// One bundle, one encoding: anything the decoder would accept besides the canonical bytes could
/// be read differently by another parser, or changed by whoever relays the authorisation.
#[test]
fn only_the_canonical_encoding_is_accepted() {
    let mut rng = StdRng::seed_from_u64(94);
    let (_, bundle, _) = valid_bundle(&mut rng);
    let (body, auth) = wire::encode(&bundle);
    let (community, now) = (bundle.community, bundle.now);
    assert!(wire::decode(&body, &auth, community, now).is_ok());

    // an unknown field (tag 15, varint 1) appended
    let mut unknown = auth.clone();
    unknown.extend_from_slice(&[0x78, 0x01]);
    assert_eq!(
        wire::decode(&body, &unknown, community, now).unwrap_err(),
        WireError::NotCanonical("ShieldedAuthorization")
    );

    // binding_sig (tag 3) repeated: a zero signature first, the real one last
    let mut duplicate = vec![0x1a, 64];
    duplicate.extend_from_slice(&[0u8; 64]);
    let mut twice = auth.clone();
    let tail = twice.split_off(twice.len() - 66);
    twice.extend_from_slice(&duplicate);
    twice.extend_from_slice(&tail);
    assert_eq!(
        wire::decode(&body, &twice, community, now).unwrap_err(),
        WireError::NotCanonical("ShieldedAuthorization")
    );

    // the anchor sub-message twice, the second without tree_epoch: some parsers merge, some replace
    let mut merged = body.clone();
    assert_eq!(&body[..2], &[0x0a, 34], "anchor comes first: root only, tree_epoch 0 is omitted");
    merged.extend_from_slice(&body[..36]);
    assert_eq!(wire::decode(&merged, &auth, community, now).unwrap_err(), WireError::NotCanonical("ShieldedBundle"));

    // trailing bytes inside the proof field
    let (shielded_msg, mut auth_msg) = wire::to_wire(&bundle);
    auth_msg.proof.push(0);
    assert_eq!(
        wire::from_wire(&shielded_msg, &auth_msg, community, now).unwrap_err(),
        WireError::WrongLength("proof")
    );

    // a tree epoch that does not exist yet
    let (mut shielded_msg, auth_msg) = wire::to_wire(&bundle);
    shielded_msg.anchor.as_mut().unwrap().tree_epoch = 7;
    assert_eq!(
        wire::from_wire(&shielded_msg, &auth_msg, community, now).unwrap_err(),
        WireError::UnsupportedTreeEpoch(7)
    );

    // the identity as rk
    let (mut shielded_msg, auth_msg) = wire::to_wire(&bundle);
    shielded_msg.actions[0].rk = vec![0u8; 32];
    assert_eq!(
        wire::from_wire(&shielded_msg, &auth_msg, community, now).unwrap_err(),
        WireError::NotCanonical("rk")
    );

    // an ephemeral key that is no point, the identity, or too short
    let (mut shielded_msg, _) = wire::to_wire(&bundle);
    assert!(wire::shielded_from_wire(&shielded_msg).is_ok());
    for (key, error) in [
        (vec![0xff; 32], WireError::NotCanonical("ephemeral_key")),
        (vec![0; 32], WireError::NotCanonical("ephemeral_key")),
        (vec![1; 31], WireError::WrongLength("ephemeral_key")),
    ] {
        shielded_msg.actions[0].ephemeral_key = key;
        assert_eq!(wire::shielded_from_wire(&shielded_msg).unwrap_err(), error);
    }

    assert_eq!(wire::decode(&vec![0u8; 100_000], &auth, community, now).unwrap_err(), WireError::TooLarge);
}

#[test]
fn a_bundle_decoded_with_another_time_is_rejected() {
    let mut rng = StdRng::seed_from_u64(92);
    let (ledger, bundle, circuits) = valid_bundle(&mut rng);
    let (body, auth) = wire::encode(&bundle);
    // `now` comes from the transaction's created_at; a different value changes the decay the
    // proof computed, so the proof no longer fits
    let shifted = wire::decode(&body, &auth, bundle.community, bundle.now + 3600).unwrap();
    assert!(verify(&ledger, &circuits, &shifted, &bundle.sighash()).is_err());
}

// ------------------------------------------------------------------------------- node interface

#[test]
fn a_node_gets_the_effects_of_a_bundle() {
    let mut rng = StdRng::seed_from_u64(190);
    let (_, bundle, circuits) = valid_bundle(&mut rng);
    let sighash = bundle.sighash();
    let (body, auth) = wire::encode(&bundle);
    let decoded = ffi::decode_transfer(&body, &auth, &community().to_repr(), NOW).unwrap();
    let effects = ffi::bundle_verify(&decoded, &sighash, holds(&circuits, &decoded)).unwrap();
    assert_eq!(effects.len(), ffi::GRDZK_BUNDLE_EFFECTS_SIZE);
    assert_eq!(&effects[..32], &bundle.anchor.to_repr());
    assert_eq!(&effects[32..64], &bundle.actions[0].nullifier.to_repr());
    assert_eq!(&effects[64..96], &bundle.actions[0].cm.to_repr());
    assert_eq!(&effects[96..128], &bundle.actions[1].nullifier.to_repr());
    assert_eq!(&effects[128..], &bundle.actions[1].cm.to_repr());
    assert_eq!(ffi::GRDZK_BUNDLE_ACTIONS, ACTIONS);

    assert_eq!(ffi::bundle_verify(&decoded, &sighash, false).unwrap_err(), ffi::GRDZK_ERR_PROOF);
    assert_eq!(ffi::bundle_verify(&decoded, &[1u8; 32], true).unwrap_err(), ffi::GRDZK_ERR_SPEND_AUTH);
    let mut broken = decoded.clone();
    broken.binding_sig.0[1] ^= 1;
    assert_eq!(ffi::bundle_verify(&broken, &sighash, true).unwrap_err(), ffi::GRDZK_ERR_BINDING);
    let mut short = decoded.clone();
    short.actions.pop();
    assert_eq!(ffi::bundle_verify(&short, &sighash, true).unwrap_err(), ffi::GRDZK_ERR_VERIFY_FAILED);
    assert_eq!(ffi::decode_transfer(&body, &auth, &[0xff; 32], NOW).unwrap_err(), ffi::GRDZK_ERR_BAD_VALUE);
    assert_eq!(ffi::decode_transfer(&body, &[1], &community().to_repr(), NOW).unwrap_err(), ffi::GRDZK_ERR_WIRE);
}

#[test]
fn a_node_keeps_a_tree() {
    let mut tree = ffi::GrdzkTree::new();
    let mut mirror = CommitmentTree::default();
    assert_eq!(tree.root(), mirror.root().to_repr());
    for i in 0..5u64 {
        assert_eq!(tree.append(&Base::from(i).to_repr()), ffi::GRDZK_OK);
        mirror.append(Base::from(i), false).unwrap();
        tree.checkpoint();
    }
    assert_eq!(tree.append(&[0xff; 32]), ffi::GRDZK_ERR_BAD_VALUE);
    assert_eq!(tree.size(), 5);
    assert_eq!(tree.root(), mirror.root().to_repr());
}

/// A public creation: the node computes the commitment from the published fields, the recipient
/// rebuilds the same note from those fields and can spend it right away.
#[test]
fn a_creation_can_be_spent() {
    let mut rng = StdRng::seed_from_u64(93);
    let community = community();
    let member = Wallet::new(4);
    let shop = Wallet::new(5);

    // March creation to the member's monthly creation address
    let address = member.fvk.creation_address(2026, 3).unwrap();
    let created_at = NOW - 20 * DAY;
    let mut ledger = Ledger::new();
    // the creation's rho comes from the leaf position it gets
    let position = ledger.tree.size();
    let rseed = RandomSeed::random(bytes(&mut rng));
    let memo_cm = memo::commit(&memo::pad(b"Gartenpflege").unwrap(), Base::from(5u64));

    let cm_bytes = ffi::creation_commitment(
        &community.to_repr(),
        1_000_0000,
        created_at,
        0,
        &address.to_raw(),
        position,
        &rseed.to_bytes(),
        &memo_cm.to_repr(),
    )
    .unwrap();
    let cm = Base::from_repr(&cm_bytes).unwrap();

    // the member rebuilds the note from the public fields
    let rho = creation_rho(community, position);
    let note =
        from_parts(community, community, 1_000_0000, created_at, NoteKind::Normal, 0, &address, rho, memo_cm, rseed)
            .unwrap();
    assert_eq!(note.commitment(), cm, "node and wallet agree on the creation");

    ledger.add_note(cm).unwrap();
    let mut member_tree = WalletTree::new();
    let position = member_tree.follow(&[cm], &[0])[0];

    // 20 days later the member pays everything to a shop
    let worth = decay::decay_windowed(1_000_0000, 20 * DAY);
    let spend = SpendInfo {
        fvk: member.fvk,
        note: NoteWithSeed { note, rseed },
        position,
        path: member_tree.tree.witness(position as u64).unwrap(),
    };
    let proven = build_proven(
        ledger.tree.root(),
        NOW,
        vec![spend],
        vec![OutputInfo::new(shop.fvk.address([1u8; 11]), worth)],
        None,
        &mut rng,
    )
    .unwrap();
    let bundle = sign_and_authorize(proven.unauthorized, &member, &mut rng);
    assert_eq!(apply(&mut ledger, &proven.circuits, &bundle, &bundle.sighash()), Ok(()));
    assert_eq!(find_notes(&bundle, &shop.fvk)[0].1.note.value, worth);
}

/// Two creations with the same public fields (same member, month and amount, the same rseed on a
/// repeated migration) still get different commitments, because rho comes from the position.
#[test]
fn identical_creations_stay_distinct() {
    let member = Wallet::new(6);
    let address = member.fvk.creation_address(2026, 4).unwrap().to_raw();
    let zero = [0u8; 32];
    let commitment = |position: u64, value: u64, created_at: u64| {
        ffi::creation_commitment(&community().to_repr(), value, created_at, 0, &address, position, &zero, &zero)
    };
    let a = commitment(10, 1_000_0000, NOW);
    let b = commitment(11, 1_000_0000, NOW);
    assert!(a.is_ok() && b.is_ok());
    assert_ne!(a, b);

    // fields no proof could open are refused instead of burning the creation
    assert_eq!(commitment(12, 1 << 63, NOW), Err(ffi::GRDZK_ERR_BAD_VALUE));
    assert_eq!(commitment(12, 1_000_0000, 1 << 40), Err(ffi::GRDZK_ERR_BAD_VALUE));
    let bad = |community: [u8; 32], address: [u8; 43], memo_cm: [u8; 32]| {
        ffi::creation_commitment(&community, 1, NOW, 0, &address, 1, &zero, &memo_cm)
    };
    assert_eq!(bad([0xff; 32], address, zero), Err(ffi::GRDZK_ERR_BAD_VALUE));
    assert_eq!(bad(zero, address, [0xff; 32]), Err(ffi::GRDZK_ERR_BAD_VALUE));
    assert_eq!(bad(zero, [0u8; 43], zero), Err(ffi::GRDZK_ERR_BAD_ADDRESS));
}

// ------------------------------------------------------------------------------- signing device

const VALUE: u64 = 1_000_0000;

struct Device {
    ledger: Ledger,
    alice: SpendingKey,
    spend: SpendInfo,
    spendable: u64,
    rng: StdRng,
}

/// Alice owns one note of 1000 GDD, 100 days old.
fn device(seed: u64) -> Device {
    let mut rng = StdRng::seed_from_u64(seed);
    let alice = Wallet::new(1);
    let (ledger, _, spend) = ledger_with_note(&alice, VALUE, 100 * DAY, &mut rng);
    Device { ledger, alice: alice.sk, spend, spendable: decay::decay_windowed(VALUE, 100 * DAY), rng }
}

fn bob() -> Address {
    SpendingKey::from_bytes([2u8; 32]).full_viewing_key().address([1u8; 11])
}

fn mallory() -> Address {
    SpendingKey::from_bytes([66u8; 32]).full_viewing_key().address([6u8; 11])
}

/// What an honest server does: build with the owner's ovk, put the bundle into a body.
fn build_request(s: &mut Device, outputs: Vec<OutputInfo>) -> (Proven, SigningRequest) {
    let ovk = s.spend.fvk.ovk;
    let proven = build_proven(s.ledger.tree.root(), NOW, vec![s.spend], outputs, Some(ovk), &mut s.rng).unwrap();
    let body = wire::encode_transfer_body(NOW, 4, &proven.unauthorized.shielded_bytes());
    let request = proven.unauthorized.signing_request(body);
    (proven, request)
}

fn pay_bob(s: &Device, amount: u64) -> Vec<OutputInfo> {
    vec![
        OutputInfo::new(bob(), amount),
        OutputInfo::new(s.spend.fvk.address([2u8; 11]), s.spendable - amount),
    ]
}

#[test]
fn the_device_shows_the_payment_and_its_signature_is_accepted() {
    let mut s = device(1);
    let outputs = pay_bob(&s, 300_0000);
    let (proven, request) = build_request(&mut s, outputs);

    // the request travels as bytes
    let request = SigningRequest::decode(&request.encode()).expect("decodes");
    let entropy = [bytes(&mut s.rng), bytes(&mut s.rng)];
    let (review, signatures) = signer::sign(&request, &s.alice, community(), &entropy).expect("honest request");
    assert_eq!(review.created_at, NOW);
    assert_eq!(review.payments.len(), 1);
    assert_eq!(review.payments[0].address, bob());
    assert_eq!(review.payments[0].value, 300_0000);
    assert_eq!(review.change, s.spendable - 300_0000);
    assert_eq!(review.spends, 1);

    // the server authorises with the hash of the body, which is what the device signed
    let sighash = body_sighash(&request.body);
    assert_eq!(review.sighash, sighash);
    let bundle = proven.unauthorized.authorize(&sighash, signatures, &authorize_randomness(&mut s.rng)).unwrap();
    assert_eq!(apply(&mut s.ledger, &proven.circuits, &bundle, &sighash), Ok(()));
}

/// The attack the device exists for: the server builds a payment to Mallory and describes it
/// as a payment to Bob.
#[test]
fn a_swapped_recipient_is_caught() {
    let mut s = device(2);
    let honest_outputs = pay_bob(&s, 300_0000);
    let (_, honest) = build_request(&mut s, honest_outputs);
    let mut evil_outputs = pay_bob(&s, 300_0000);
    evil_outputs[0].address = mallory();
    let (_, evil) = build_request(&mut s, evil_outputs);

    // the real body pays Mallory, the openings claim Bob
    let lie =
        SigningRequest { body: evil.body.clone(), outputs: honest.outputs.clone(), alphas: evil.alphas.clone() };
    assert!(matches!(signer::review(&lie, &s.alice, community()), Err(ReviewError::CommitmentMismatch(_))));

    // with truthful openings the device shows Mallory, which is the point
    let review = signer::review(&evil, &s.alice, community()).unwrap();
    assert_eq!(review.payments[0].address, mallory());
}

/// Change sent to a foreign address is a payment, and the device shows it as one.
#[test]
fn change_to_a_foreign_address_is_shown_as_payment() {
    let mut s = device(3);
    let mut outputs = pay_bob(&s, 300_0000);
    outputs[1].address = mallory();
    let (_, request) = build_request(&mut s, outputs);
    let review = signer::review(&request, &s.alice, community()).unwrap();
    assert_eq!(review.change, 0);
    assert_eq!(review.payments.len(), 2);
    assert!(review.payments.iter().any(|p| p.address == mallory() && p.value == s.spendable - 300_0000));
}

/// Garbage for the recipient would burn the payment: Bob could never find his note.
#[test]
fn a_ciphertext_that_does_not_match_the_note_is_caught() {
    let mut s = device(4);
    let outputs = pay_bob(&s, 300_0000);
    let ovk = s.spend.fvk.ovk;
    let proven = build_proven(s.ledger.tree.root(), NOW, vec![s.spend], outputs, Some(ovk), &mut s.rng).unwrap();
    let mut unauthorized = proven.unauthorized;
    unauthorized.actions[0].encrypted.enc_ciphertext[10] ^= 1;
    let body = wire::encode_transfer_body(NOW, 4, &unauthorized.shielded_bytes());
    let request = unauthorized.signing_request(body);
    assert_eq!(signer::review(&request, &s.alice, community()), Err(ReviewError::CiphertextMismatch(0)));
}

#[test]
fn a_bundle_built_without_the_owners_ovk_is_refused() {
    let mut s = device(5);
    let outputs = pay_bob(&s, 300_0000);
    let proven = build_proven(s.ledger.tree.root(), NOW, vec![s.spend], outputs, None, &mut s.rng).unwrap();
    let body = wire::encode_transfer_body(NOW, 4, &proven.unauthorized.shielded_bytes());
    let request = proven.unauthorized.signing_request(body);
    assert!(matches!(signer::review(&request, &s.alice, community()), Err(ReviewError::CiphertextMismatch(_))));
}

/// The memo is part of what the device shows, so it has to be the one bound in the note.
#[test]
fn the_memo_is_checked_and_shown() {
    let mut s = device(6);
    let text = memo::pad(b"Danke fuer die Gartenarbeit").unwrap();
    let r_memo = Base::from(77u64);
    let mut outputs = pay_bob(&s, 300_0000);
    outputs[0].memo_cm = memo::commit(&text, r_memo);
    outputs[0].memo_opening = Some(MemoOpening { text, r_memo });
    let (_, request) = build_request(&mut s, outputs);
    let review = signer::review(&request, &s.alice, community()).unwrap();
    assert_eq!(review.payments[0].memo, Some(text));

    let mut other = request.clone();
    other.outputs[0].memo.as_mut().unwrap().text = memo::pad(b"Miete").unwrap();
    assert_eq!(signer::review(&other, &s.alice, community()), Err(ReviewError::MemoMismatch(0)));

    let mut missing = request;
    missing.outputs[0].memo = None;
    assert_eq!(signer::review(&missing, &s.alice, community()), Err(ReviewError::MemoMismatch(0)));
}

/// The device signs only spends of its own key.
#[test]
fn an_alpha_for_someone_elses_spend_is_refused() {
    let mut s = device(7);
    let outputs = pay_bob(&s, 300_0000);
    let (proven, mut request) = build_request(&mut s, outputs);
    let dummy = (0..2).find(|i| !proven.unauthorized.real_spends().contains(i)).unwrap();
    request.alphas[dummy] = Some(Scalar::from_u64(5));
    assert_eq!(signer::review(&request, &s.alice, community()), Err(ReviewError::ForeignSpend(dummy)));

    let mut none = request;
    none.alphas = vec![None, None];
    assert_eq!(signer::review(&none, &s.alice, community()), Err(ReviewError::NothingToSign));
}

#[test]
fn a_request_has_to_be_complete() {
    let mut s = device(17);
    let outputs = pay_bob(&s, 300_0000);
    let (_, request) = build_request(&mut s, outputs);
    let mut one = request.clone();
    one.outputs.pop();
    assert_eq!(signer::review(&one, &s.alice, community()), Err(ReviewError::WrongOutputCount(1)));
    let mut three = request.clone();
    three.alphas.push(None);
    assert_eq!(signer::review(&three, &s.alice, community()), Err(ReviewError::WrongAlphaCount(3)));
    let mut large = request.clone();
    large.outputs[0].value = 1 << 63;
    assert_eq!(
        signer::review(&large, &s.alice, community()),
        Err(ReviewError::InvalidNote(0, NoteError::ValueTooLarge))
    );
    assert_eq!(signer::try_review(&request, &s.alice, community()).unwrap(), signer::review(&request, &s.alice, community()));
}

/// A body with anything besides a local shielded transfer is not signed: the device cannot
/// vouch for fields it does not understand.
#[test]
fn the_body_holds_a_local_transfer_and_nothing_else() {
    let mut s = device(8);
    let outputs = pay_bob(&s, 300_0000);
    let (_, request) = build_request(&mut s, outputs);
    let review = |body: Vec<u8>| {
        signer::review(&SigningRequest { body, ..request.clone() }, &s.alice, community())
    };

    // an unknown field
    let mut unknown = request.body.clone();
    unknown.extend_from_slice(&[0xa0, 0x01, 0x01]); // tag 20, varint 1
    assert_eq!(review(unknown), Err(ReviewError::Body(WireError::UnsupportedBody(20))));

    // a creation next to the transfer (tag 7)
    let mut creation = request.body.clone();
    creation.extend_from_slice(&[0x3a, 0x00]);
    assert_eq!(review(creation), Err(ReviewError::Body(WireError::UnsupportedBody(7))));

    // an outbound cross community transfer
    let mut outbound = request.body.clone();
    outbound.extend_from_slice(&[0x20, 0x02]);
    assert_eq!(review(outbound), Err(ReviewError::Body(WireError::CrossCommunityNotSupported)));

    // the bundle twice
    let mut twice = request.body.clone();
    let bundle = wire::parse_transfer_body(&request.body).unwrap().shielded;
    twice.push(0x32);
    twice.extend_from_slice(&varint(bundle.len()));
    twice.extend_from_slice(&bundle);
    assert_eq!(review(twice), Err(ReviewError::Body(WireError::NotCanonical("shielded_transfer"))));

    // another time than the one the notes were built for
    let shifted = wire::encode_transfer_body(NOW + 60, 4, &bundle);
    assert!(matches!(review(shifted), Err(ReviewError::CommitmentMismatch(_))));
}

/// A signature over one body is worthless for another.
#[test]
fn signatures_are_bound_to_the_body() {
    let mut s = device(9);
    let outputs = pay_bob(&s, 300_0000);
    let (proven, request) = build_request(&mut s, outputs);
    let entropy = [bytes(&mut s.rng), bytes(&mut s.rng)];
    let (_, signatures) = signer::sign(&request, &s.alice, community(), &entropy).unwrap();
    let other_body = wire::encode_transfer_body(NOW, 5, &proven.unauthorized.shielded_bytes());
    let bundle = proven.unauthorized.authorize(
        &body_sighash(&other_body),
        signatures,
        &authorize_randomness(&mut s.rng),
    );
    assert!(bundle.is_err(), "authorize checks the device signatures against the sighash");
}

#[test]
fn a_request_decodes_strictly() {
    let mut s = device(10);
    let outputs = pay_bob(&s, 300_0000);
    let (_, request) = build_request(&mut s, outputs);
    let encoded = request.encode();
    assert_eq!(SigningRequest::decode(&encoded).unwrap(), request);
    let mut trailing = encoded.clone();
    trailing.extend_from_slice(&[0x78, 0x01]);
    assert_eq!(SigningRequest::decode(&trailing), Err(ReviewError::Request));
    assert_eq!(SigningRequest::decode(&encoded[..encoded.len() - 1]), Err(ReviewError::Request));
    assert_eq!(SigningRequest::decode(&vec![0u8; signer::MAX_REQUEST_SIZE + 1]), Err(ReviewError::Request));
}

/// Another account's device finds nothing it could vouch for: the outgoing ciphertexts are not
/// under its ovk, and no spend is under its ak.
#[test]
fn another_device_refuses() {
    let mut s = device(11);
    let outputs = pay_bob(&s, 300_0000);
    let (_, request) = build_request(&mut s, outputs);
    let eve = SpendingKey::from_bytes([5u8; 32]);
    assert!(signer::review(&request, &eve, community()).is_err());
}

fn varint(mut len: usize) -> Vec<u8> {
    let mut out = Vec::new();
    loop {
        let byte = (len & 0x7f) as u8;
        len >>= 7;
        if len == 0 {
            out.push(byte);
            return out;
        }
        out.push(byte | 0x80);
    }
}

// ------------------------------------------------------------------------------- device interface

#[test]
fn the_interface_shows_and_signs_a_request() {
    let mut s = device(12);
    let id = [0x42u8; 16];
    let text = memo::pad(b"Danke fuer die Gartenarbeit").unwrap();
    let r_memo = Base::from(77u64);
    let mut outputs = pay_bob(&s, 300_0000);
    outputs[0].memo_cm = memo::commit(&text, r_memo);
    outputs[0].memo_opening = Some(MemoOpening { text, r_memo });
    outputs[0].memo[..2].copy_from_slice(b"hi");
    let (proven, request) = build_request(&mut s, outputs);
    let (sk, c, encoded) = (s.alice.to_bytes(), community().to_repr(), request.encode());

    let shown = wasm::review_signing_request(&sk, &c, &id, &encoded).unwrap();
    assert_eq!(shown.created_at, NOW);
    assert_eq!(shown.payments.len(), 1);
    assert_eq!(shown.payments[0].address, address::encode(&bob(), &id));
    assert_eq!(shown.payments[0].value, 300_0000);
    assert_eq!(shown.payments[0].kind, "normal");
    assert_eq!(shown.payments[0].memo, Some(b"Danke fuer die Gartenarbeit".to_vec()));
    assert_eq!(shown.payments[0].free_memo, b"hi".to_vec());
    assert_eq!(shown.change, s.spendable - 300_0000);
    assert_eq!(shown.spends, 1);
    assert_eq!(shown.sighash, body_sighash(&request.body));

    let entropy = [bytes(&mut s.rng), bytes(&mut s.rng)];
    let (again, list) = wasm::sign_signing_request(&sk, &c, &id, &encoded, &entropy).unwrap();
    assert_eq!(again, shown);
    let signatures: Vec<SpendAuthSignature> = list.into_iter().map(SpendAuthSignature).collect();
    let bundle =
        proven.unauthorized.authorize(&shown.sighash, signatures, &authorize_randomness(&mut s.rng)).unwrap();
    assert_eq!(apply(&mut s.ledger, &proven.circuits, &bundle, &shown.sighash), Ok(()));
}

#[test]
fn the_interface_checks_its_arguments() {
    let mut s = device(13);
    let outputs = pay_bob(&s, 300_0000);
    let (_, request) = build_request(&mut s, outputs);
    let (sk, c, id, encoded) = (s.alice.to_bytes(), community().to_repr(), [0x42u8; 16], request.encode());
    let review = |sk: &[u8], c: &[u8], id: &[u8], r: &[u8]| wasm::review_signing_request(sk, c, id, r).unwrap_err();
    assert_eq!(review(&sk, &c, &id, &[9]), DeviceError::Request(ReviewError::Request));
    assert_eq!(review(&sk[1..], &c, &id, &encoded), DeviceError::Length(Argument::SpendingKey, 31));
    assert_eq!(review(&sk, &c[2..], &id, &encoded), DeviceError::Length(Argument::Community, 30));
    assert_eq!(review(&sk, &[0xff; 32], &id, &encoded), DeviceError::NotCanonical);
    assert_eq!(review(&sk, &c, &id[3..], &encoded), DeviceError::Length(Argument::CommunityId, 13));
    let other = [5u8; 32];
    assert!(matches!(review(&other, &c, &id, &encoded), DeviceError::Request(_)));
    let sign = wasm::sign_signing_request(&sk, &c, &[], &encoded, &[[1u8; 32], [2u8; 32]]);
    assert_eq!(sign.unwrap_err(), DeviceError::Length(Argument::CommunityId, 0));

    let fvk = s.alice.full_viewing_key();
    assert_eq!(wasm::viewing_key(&sk), Ok(fvk.to_bytes()));
    assert_eq!(wasm::viewing_key(&[]), Err(DeviceError::Length(Argument::SpendingKey, 0)));
    assert_eq!(wasm::address(&sk, &[3u8; 11], &id), Ok(address::encode(&fvk.address([3u8; 11]), &id)));
    assert_eq!(wasm::address(&sk, &[3u8; 12], &id), Err(DeviceError::Length(Argument::Diversifier, 12)));
    let march = fvk.creation_address(2026, 3).unwrap();
    assert_eq!(wasm::creation_address(&sk, 2026, 3, &id), Ok(address::encode(&march, &id)));
    assert_eq!(wasm::creation_address(&sk, 2026, 13, &id), Err(DeviceError::Month));
    assert_eq!(wasm::decode_address(&address::encode(&march, &id)), Ok((march.to_raw(), id)));
    assert_eq!(wasm::decode_address("gdd1"), Err(DeviceError::Address(address::AddressError::Bech32)));
    assert_eq!(wasm::generate_spending_key([7u8; 32]), [7u8; 32]);
    assert_eq!(wasm::unpadded(&[1, 0, 2, 0, 0]), vec![1, 0, 2]);
    assert_eq!(wasm::unpadded(&[0, 0]), Vec::<u8>::new());
}

// ------------------------------------------------------------------------------- end to end

/// One transfer from end to end, with every piece: keys, address, note, commitment tree,
/// encryption, memo and both signatures.
#[test]
fn a_transfer_end_to_end() {
    const AGE: u64 = 400 * 86_400;
    let mut rng = StdRng::seed_from_u64(2026);
    let community = Base::from(7u64);

    // --- the two sides
    let spender = SpendingKey::from_bytes([21u8; 32]);
    let spender_fvk = spender.full_viewing_key();
    let spender_d = [1u8; 11];
    let recipient = SpendingKey::from_bytes([22u8; 32]).full_viewing_key();
    let recipient_address = recipient.address([2u8; 11]);

    // the recipient hands out an address, the spender reads it back
    let written = address::encode(&recipient_address, &[0xcd; 16]);
    let (parsed, parsed_community) = address::decode(&written).expect("address is readable");
    assert_eq!(parsed, recipient_address);
    assert_eq!(parsed_community, [0xcd; 16]);

    // --- the note the spender owns
    let old_rseed = RandomSeed::random(bytes(&mut rng));
    let old_rho = Base::from(4242u64);
    let old = from_parts(
        community,
        community,
        VALUE,
        NOW - AGE,
        NoteKind::Normal,
        5,
        &spender_fvk.address(spender_d),
        old_rho,
        Base::from(11u64),
        old_rseed,
    )
    .unwrap();
    let cm_old = old.commitment();
    let nf = old.nullifier(spender_fvk.nk);

    // it sits somewhere in the commitment tree
    let leaf_pos = 0x0badc0de;
    let mut path = [Base::zero(); 32];
    for node in path.iter_mut() {
        *node = random_base(&mut rng);
    }
    let anchor = merkle_root(cm_old, leaf_pos, &path);

    // --- the note the recipient gets: the decayed value, dated now, rho = the nullifier
    let value_now = decay::decay_windowed(VALUE, AGE);
    assert!(value_now < VALUE, "400 days of decay have to cost something");

    let memo_text = memo::pad(b"Danke fuer die Gartenarbeit").unwrap();
    let r_memo = random_base(&mut rng);
    let memo_cm = memo::commit(&memo_text, r_memo);
    let memo_key = [0x77; 32];
    let sealed_memo = memo::seal(&memo_key, &memo_text, r_memo, bytes(&mut rng));

    let new_rseed = RandomSeed::random(bytes(&mut rng));
    let new = from_parts(
        community,
        community,
        value_now,
        NOW,
        NoteKind::Normal,
        9,
        &recipient_address,
        nf,
        memo_cm,
        new_rseed,
    )
    .unwrap();
    let cm_new = new.commitment();

    // --- what is proven
    let alpha = random_scalar(&mut rng);
    let rcv = random_scalar(&mut rng);
    let circuit = ActionSliceCircuit::<true, true>::new(&old, &spender_fvk, leaf_pos, path, &new, rcv, alpha);
    // the action exposes rk and the net value commitment; a full transfer nets to zero
    let rk_point = spender_fvk.ak.plus(&signature::spend_auth_base().times(&alpha));
    let cv_net = signature::value_commitment(value_now as i128 - new.value as i128, rcv);
    let instance = ActionSliceCircuit::<true, true>::instance(community, anchor, nf, rk_point, cm_new, cv_net, NOW);
    assert!(circuit.accepts(&instance));

    // --- the signatures
    let sighash = [0x5e; 32];
    let spend_auth =
        signature::sign_spend_auth(&spender.spend_authorizing_key(), alpha, &sighash, &bytes(&mut rng));
    let rk = signature::randomized_verification_key(spender_fvk.ak, alpha);
    assert!(signature::verify_spend_auth(&rk, &sighash, &spend_auth));

    // the rk the proof exposes is the key the signature verifies under
    assert_eq!(rk.0.to_bytes(), rk_point.to_bytes());

    // the value balance: the proof's cv_net, signed with its randomness, balances to zero
    let binding = signature::sign_binding(&[rcv], &sighash, &bytes(&mut rng));
    let bvk = signature::binding_verification_key(&[cv_net], 0).unwrap();
    assert!(signature::verify_binding(&bvk, &sighash, &binding));

    // --- the recipient finds the note in the transaction
    let domain = GradidoDomain { community, coin_community: community, rho: nf };
    let filler = OutgoingFiller { key: bytes(&mut rng), plaintext: bytes(&mut rng) };
    let output = encrypt(
        domain,
        &NoteWithSeed { note: new, rseed: new_rseed },
        [0u8; FREE_MEMO_SIZE],
        Some(spender_fvk.ovk),
        cv_net,
        &filler,
    );
    let (found, found_address, _) = decrypt(&domain, recipient.ivk, &output).expect("the recipient can read it");

    // it is the very note the proof committed to, and it is worth the decayed amount
    assert_eq!(found.note.commitment(), cm_new);
    assert_eq!(found.note.value, value_now);
    assert_eq!(found.note.t_note, NOW);
    assert!(recipient.owns(&found_address));

    // --- and the memo, which needs its own key
    let (text, r) = memo::open(&memo_key, &sealed_memo).expect("memo key opens it");
    assert!(memo::verify(&text, r, found.note.memo_cm), "memo is bound to the note");
    assert_eq!(&text[..27], b"Danke fuer die Gartenarbeit");

    // someone with the viewing key but without the memo key sees the note, not the text
    assert!(memo::open(&[0x78; 32], &sealed_memo).is_none());
}
