//! A shielded transfer: building it, authorising it, verifying it, applying it to the ledger.
use vstd::prelude::*;

use crate::bytes::{append, push_le};
use crate::circuit::action_slice::ActionSliceCircuit;
use crate::keys::{Address, AddressModel, FullViewingKey, SpendAuthorizingKey, SpendingKey, ViewingKeyModel};
use crate::note::{from_parts, NoteError, NoteKind, NoteModel, RandomSeed};
use crate::note_encryption::{
    encrypt, DomainModel, EncryptedModel, EncryptedNote, GradidoDomain, NoteWithSeed, OutgoingFiller,
    PlainNote,
};
use crate::pallas::{Base, Point, Scalar};
use crate::signature::{BindingSignature, SpendAuthSignature, SpendAuthVerificationKey};
use crate::signer::{MemoOpening, OpeningModel, OutputOpening, SigningRequest};
use crate::tree::{AnchorHistory, CommitmentTree, DoubleSpend, NullifierSet};

verus! {

broadcast use vstd::array::group_array_axioms;

/// Actions per bundle.
pub const ACTIONS: usize = 2;

/// Version of the circuit, so a verifying key can be picked (proto field `circuit_version`).
pub const CIRCUIT_VERSION: u32 = 2;

/// Size of the proof for `ACTIONS` actions. halo2 does not check that the transcript is used up,
/// so without this bound trailing bytes would verify and the same bundle would exist in more
/// than one encoding.
pub const PROOF_SIZE: usize = 7936;

/// What one action publishes (proto `ShieldedAction`).
#[derive(Clone, Copy, Debug)]
pub struct Action {
    pub cv_net: Point,
    pub nullifier: Base,
    pub rk: Point,
    pub cm: Base,
    pub encrypted: EncryptedNote,
}

/// What one action publishes, with the integers of its field elements and the discrete
/// logarithms of its points.
#[verifier::ext_equal]
pub struct ActionModel {
    pub cv_net: nat,
    pub nullifier: nat,
    pub rk: nat,
    pub cm: nat,
    pub encrypted: EncryptedModel,
}

impl View for Action {
    type V = ActionModel;

    open spec fn view(&self) -> ActionModel {
        ActionModel {
            cv_net: self.cv_net@,
            nullifier: self.nullifier@,
            rk: self.rk@,
            cm: self.cm@,
            encrypted: self.encrypted@,
        }
    }
}

/// The models of actions.
pub open spec fn action_models(actions: Seq<Action>) -> Seq<ActionModel> {
    actions.map_values(|a: Action| a@)
}

/// A complete shielded transfer (proto `ShieldedBundle` and `ShieldedAuthorization`).
#[derive(Clone, Debug)]
pub struct Bundle {
    pub anchor: Base,
    pub now: u64,
    pub community: Base,
    pub actions: Vec<Action>,
    pub proof: Vec<u8>,
    pub spend_auth_sigs: Vec<SpendAuthSignature>,
    pub binding_sig: BindingSignature,
}

/// A complete shielded transfer.
#[verifier::ext_equal]
pub struct BundleModel {
    pub anchor: nat,
    pub now: u64,
    pub community: nat,
    pub actions: Seq<ActionModel>,
    pub proof: Seq<u8>,
    pub spend_auth_sigs: Seq<Seq<u8>>,
    pub binding_sig: Seq<u8>,
}

impl View for Bundle {
    type V = BundleModel;

    open spec fn view(&self) -> BundleModel {
        BundleModel {
            anchor: self.anchor@,
            now: self.now,
            community: self.community@,
            actions: action_models(self.actions@),
            proof: self.proof@,
            spend_auth_sigs: self.spend_auth_sigs@.map_values(|s: SpendAuthSignature| s.0@),
            binding_sig: self.binding_sig.0@,
        }
    }
}

// -------------------------------------------------------------------------------- sighash

pub const SIGHASH_PERSONALIZATION: &'static str = "Gradido_Sighash_";

pub const BODY_SIGHASH_PERSONALIZATION: &'static str = "Gradido_BodySigh";

/// The sighash of a transaction body.
pub open spec fn hash_of_body(body: Seq<u8>) -> Seq<u8> {
    crate::hash::blake2b_hash(BODY_SIGHASH_PERSONALIZATION@, 32, body)
}

/// The sighash of a transaction: BLAKE2b-256 over `GradidoTransaction.body_bytes`. Spend
/// authorisation and binding signatures cover it; node, server and signing device compute it
/// the same way.
pub fn body_sighash(body_bytes: &[u8]) -> (r: [u8; 32])
    ensures
        r@ == hash_of_body(body_bytes@),
{
    proof {
        reveal_strlit("Gradido_BodySigh");
    }
    crate::hash::to_bytes32(BODY_SIGHASH_PERSONALIZATION, body_bytes)
}

/// What an action contributes to the sighash.
pub open spec fn action_data(a: ActionModel) -> Seq<u8> {
    crate::pallas::encode_point(a.cv_net) + crate::bytes::le_bytes(a.nullifier, 32)
        + crate::pallas::encode_point(a.rk) + crate::bytes::le_bytes(a.cm, 32) + a.encrypted.epk
        + a.encrypted.enc + a.encrypted.out
}

/// What the actions contribute to the sighash.
pub open spec fn actions_data(actions: Seq<ActionModel>) -> Seq<u8>
    decreases actions.len(),
{
    if actions.len() == 0 {
        Seq::empty()
    } else {
        actions_data(actions.drop_last()) + action_data(actions.last())
    }
}

/// The effecting data of a bundle: anchor, time, community, circuit version and actions.
pub open spec fn effecting_data(
    anchor: nat,
    now: u64,
    community: nat,
    actions: Seq<ActionModel>,
) -> Seq<u8> {
    crate::bytes::le_bytes(anchor, 32) + crate::bytes::le_bytes(now as nat, 8)
        + crate::bytes::le_bytes(community, 32) + crate::bytes::le_bytes(CIRCUIT_VERSION as nat, 4)
        + actions_data(actions)
}

/// The standalone sighash.
pub open spec fn hash_of_bundle(
    anchor: nat,
    now: u64,
    community: nat,
    actions: Seq<ActionModel>,
) -> Seq<u8> {
    crate::hash::blake2b_hash(
        SIGHASH_PERSONALIZATION@,
        32,
        effecting_data(anchor, now, community, actions),
    )
}

/// A canonical hash over the effecting data of a bundle: anchor, time, community and actions.
/// Proof and signatures are not covered: the proof only attests to public inputs that are
/// covered. In a transaction the sighash is the hash of `body_bytes` instead; this is the
/// standalone equivalent.
pub fn sighash(anchor: Base, now: u64, community: Base, actions: &[Action]) -> (r: [u8; 32])
    ensures
        r@ == hash_of_bundle(anchor@, now, community@, action_models(actions@)),
{
    let mut data: Vec<u8> = Vec::new();
    append(&mut data, anchor.to_repr().as_slice());
    push_le(&mut data, now as u128, 8);
    append(&mut data, community.to_repr().as_slice());
    push_le(&mut data, CIRCUIT_VERSION as u128, 4);
    let ghost models = action_models(actions@);
    let ghost head = crate::bytes::le_bytes(anchor@, 32) + crate::bytes::le_bytes(now as nat, 8)
        + crate::bytes::le_bytes(community@, 32) + crate::bytes::le_bytes(
        CIRCUIT_VERSION as nat,
        4,
    );
    assert(data@ =~= head);
    assert(models.take(0) =~= Seq::empty());
    assert(head + actions_data(models.take(0)) =~= head);
    let mut i: usize = 0;
    while i < actions.len()
        invariant
            i <= actions@.len(),
            models == action_models(actions@),
            data@ == head + actions_data(models.take(i as int)),
        decreases actions@.len() - i,
    {
        let ghost before = data@;
        let a = &actions[i];
        append(&mut data, a.cv_net.to_bytes().as_slice());
        append(&mut data, a.nullifier.to_repr().as_slice());
        append(&mut data, a.rk.to_bytes().as_slice());
        append(&mut data, a.cm.to_repr().as_slice());
        append(&mut data, a.encrypted.epk_bytes.as_slice());
        append(&mut data, a.encrypted.enc_ciphertext.as_slice());
        append(&mut data, a.encrypted.out_ciphertext.as_slice());
        proof {
            assert(data@ =~= before + action_data(models[i as int]));
            assert(models.take(i + 1).drop_last() =~= models.take(i as int));
            assert(data@ =~= head + actions_data(models.take(i + 1)));
        }
        i = i + 1;
    }
    proof {
        assert(models.take(i as int) =~= models);
        reveal_strlit("Gradido_Sighash_");
    }
    crate::hash::to_bytes32(SIGHASH_PERSONALIZATION, data.as_slice())
}

impl Bundle {
    /// The standalone sighash, when there is no transaction body around the bundle.
    pub fn sighash(&self) -> (r: [u8; 32])
        ensures
            r@ == hash_of_bundle(self@.anchor, self@.now, self@.community, self@.actions),
    {
        sighash(self.anchor, self.now, self.community, self.actions.as_slice())
    }

    pub fn nullifiers(&self) -> (r: Vec<Base>)
        ensures
            crate::hash::values(r@) == nullifiers_of(self@.actions),
    {
        let mut r: Vec<Base> = Vec::new();
        let mut i: usize = 0;
        while i < self.actions.len()
            invariant
                i <= self.actions@.len(),
                r@.len() == i,
                forall|j: int| 0 <= j < i ==> #[trigger] r@[j] == self.actions@[j].nullifier,
            decreases self.actions@.len() - i,
        {
            r.push(self.actions[i].nullifier);
            i = i + 1;
        }
        assert(crate::hash::values(r@) =~= nullifiers_of(self@.actions));
        r
    }
}

/// The nullifiers of actions.
pub open spec fn nullifiers_of(actions: Seq<ActionModel>) -> Seq<nat> {
    actions.map_values(|a: ActionModel| a.nullifier)
}

// ------------------------------------------------------------------------------ inputs

/// The production circuit: exact decay with the windowed factor chain.
pub type ActionCircuit = ActionSliceCircuit<true, true>;

/// A note the wallet owns and wants to spend.
#[derive(Clone, Copy, Debug)]
pub struct SpendInfo {
    pub fvk: FullViewingKey,
    pub note: NoteWithSeed,
    /// position in the commitment tree and the path to the anchor
    pub position: u32,
    pub path: [Base; 32],
}

/// A note to create.
#[derive(Clone, Copy, Debug)]
pub struct OutputInfo {
    pub address: Address,
    /// nominal value at `now`
    pub value: u64,
    pub kind: NoteKind,
    pub expiry_epoch: u64,
    /// commitment to the memo, zero for none
    pub memo_cm: Base,
    /// text and randomness behind `memo_cm`; the signing device needs it to check the memo
    pub memo_opening: Option<MemoOpening>,
    /// free text inside the note encryption, readable with the viewing key
    pub memo: [u8; 463],
}

#[derive(Debug, PartialEq, Eq)]
pub enum BuildError {
    TooManySpends,
    TooManyOutputs,
    /// the decayed spends do not add up to the outputs
    Unbalanced { spent: u64, created: u64 },
    /// more value than a note can hold
    Overflow,
    NoteFromTheFuture,
    /// the spent note belongs to another community
    WrongCommunity,
    /// the output cannot be written as a note (value, time or expiry out of range)
    InvalidNote(NoteError),
    /// the memo opening of an output does not give its `memo_cm`
    MemoMismatch,
    Proof,
}

/// A note to spend.
#[verifier::ext_equal]
pub struct SpendModel {
    pub key: ViewingKeyModel,
    pub note: NoteModel,
    pub rseed: Seq<u8>,
    pub position: u32,
    pub path: Seq<nat>,
}

impl View for SpendInfo {
    type V = SpendModel;

    open spec fn view(&self) -> SpendModel {
        SpendModel {
            key: self.fvk@,
            note: self.note.note@,
            rseed: self.note.rseed.bytes(),
            position: self.position,
            path: crate::hash::values(self.path@),
        }
    }
}

pub open spec fn spend_models(s: Seq<SpendInfo>) -> Seq<SpendModel> {
    s.map_values(|s: SpendInfo| s@)
}

/// A note to create.
#[verifier::ext_equal]
pub struct OutputModel {
    pub address: AddressModel,
    pub value: u64,
    pub kind: NoteKind,
    pub expiry_epoch: u64,
    pub memo_cm: nat,
    pub memo_opening: Option<(Seq<u8>, nat)>,
    pub memo: Seq<u8>,
}

impl View for OutputInfo {
    type V = OutputModel;

    open spec fn view(&self) -> OutputModel {
        OutputModel {
            address: self.address@,
            value: self.value,
            kind: self.kind,
            expiry_epoch: self.expiry_epoch,
            memo_cm: self.memo_cm@,
            memo_opening: crate::signer::memo_view(self.memo_opening),
            memo: self.memo@,
        }
    }
}

pub open spec fn output_models(o: Seq<OutputInfo>) -> Seq<OutputModel> {
    o.map_values(|o: OutputInfo| o@)
}

/// An output without memo, kind or expiry.
pub open spec fn plain_output(address: AddressModel, value: u64) -> OutputModel {
    OutputModel {
        address,
        value,
        kind: NoteKind::Normal,
        expiry_epoch: 0,
        memo_cm: 0,
        memo_opening: None,
        memo: crate::bytes::zeros(463),
    }
}

impl OutputInfo {
    pub fn new(address: Address, value: u64) -> (r: Self)
        ensures
            r@ == plain_output(address@, value),
            r.address == address,
    {
        let memo: [u8; 463] = [0u8; 463];
        assert(memo@ =~= crate::bytes::zeros(463));
        Self {
            address,
            value,
            kind: NoteKind::Normal,
            expiry_epoch: 0,
            memo_cm: Base::zero(),
            memo_opening: None,
            memo,
        }
    }
}

/// What a note is worth at `now`, unless it is from the future.
pub open spec fn worth_at(note: NoteModel, now: u64) -> Option<nat> {
    if note.t_note <= now {
        Some(crate::decay::decayed_windowed(note.value as nat, (now - note.t_note) as nat))
    } else {
        None
    }
}

/// What a spend is worth at `now`.
pub fn spendable_value(note: &NoteWithSeed, now: u64) -> (r: Option<u64>)
    requires
        note.note@.t_note <= now ==> note.note@.value < crate::note::VALUE_LIMIT,
    ensures
        r is Some <==> worth_at(note.note@, now) is Some,
        r matches Some(v) ==> worth_at(note.note@, now) == Some(v as nat),
{
    if note.note.t_note > now {
        None
    } else {
        Some(crate::decay::decay_windowed(note.note.value, now - note.note.t_note))
    }
}

// ------------------------------------------------------------------------------ randomness

/// A throwaway key.
#[derive(Clone, Copy, Debug)]
pub struct DummyKey {
    sk: SpendingKey,
    fvk: FullViewingKey,
}

impl DummyKey {
    #[verifier::type_invariant]
    spec fn belongs(self) -> bool {
        &&& self.fvk@ == crate::keys::viewing_key(self.sk.bytes())
        &&& self.fvk@.consistent()
    }

    pub closed spec fn secret(self) -> Seq<u8> {
        self.sk.bytes()
    }

    /// The viewing key of the throwaway key.
    pub open spec fn key(self) -> ViewingKeyModel {
        crate::keys::viewing_key(self.secret())
    }

    /// A key from 32 random bytes; `None` if they give no viewing key after `u64::MAX` attempts.
    pub fn new(entropy: [u8; 32]) -> (r: Option<Self>)
        ensures
            r is Some <==> crate::keys::has_viewing_key(entropy@),
            r matches Some(k) ==> k.secret() == entropy@,
    {
        let sk = SpendingKey::from_bytes(entropy);
        match sk.try_full_viewing_key() {
            Some(fvk) => Some(Self { sk, fvk }),
            None => None,
        }
    }
}

/// Random values of a padding spend.
#[derive(Clone, Copy, Debug)]
pub struct SpendPadding {
    pub key: DummyKey,
    pub diversifier: [u8; 11],
    pub rho: [u8; 64],
    pub rseed: [u8; 32],
    pub path: [[u8; 64]; 32],
}

/// Random values of a padding output.
#[derive(Clone, Copy, Debug)]
pub struct OutputPadding {
    pub key: DummyKey,
    pub diversifier: [u8; 11],
}

/// Random values of one action.
#[derive(Clone, Copy, Debug)]
pub struct ActionRandomness {
    /// seed of the created note
    pub rseed: [u8; 32],
    /// rerandomiser of the spend authorisation key
    pub alpha: Scalar,
    /// randomness of the value commitment
    pub rcv: Scalar,
    /// fills the outgoing ciphertext where there is no outgoing viewing key
    pub filler: OutgoingFiller,
}

/// The random values of a bundle; the paddings are used for the actions that have no spend or no
/// output.
#[derive(Clone, Copy, Debug)]
pub struct BuildRandomness {
    pub spends: [SpendPadding; 2],
    pub outputs: [OutputPadding; 2],
    pub actions: [ActionRandomness; 2],
}

/// A uniformly distributed field element.
pub open spec fn uniform_base(bytes: Seq<u8>) -> nat {
    crate::bytes::le_nat(bytes) % crate::pallas::base_modulus()
}

fn random_base(bytes: &[u8; 64]) -> (r: Base)
    ensures
        r@ == uniform_base(bytes@),
{
    Base::from_uniform_bytes(bytes)
}

/// A note of value 0 of a throwaway key.
pub open spec fn dummy_note(community: nat, now: u64, p: SpendPadding) -> Result<NoteModel, NoteError> {
    crate::note::note_of_parts(
        community,
        community,
        0,
        now,
        NoteKind::Normal,
        0,
        p.key.key().address(p.diversifier@),
        uniform_base(p.rho@),
        0,
        p.rseed@,
    )
}

/// A spend of value 0 with a throwaway key.
pub open spec fn dummy_spend_model(community: nat, now: u64, p: SpendPadding) -> SpendModel {
    SpendModel {
        key: p.key.key(),
        note: dummy_note(community, now, p)->Ok_0,
        rseed: p.rseed@,
        position: 0,
        path: p.path@.map_values(|b: [u8; 64]| uniform_base(b@)),
    }
}

/// A spend of value 0 with a throwaway key, for padding.
fn dummy_spend(community: Base, now: u64, p: &SpendPadding) -> (r: (SpendInfo, SpendAuthorizingKey))
    requires
        now < crate::note::TIMESTAMP_LIMIT,
    ensures
        r.0@ == dummy_spend_model(community@, now, *p),
        dummy_note(community@, now, *p) is Ok,
        r.1.0@ == crate::keys::authorizing_key(p.key.secret()),
        r.0@.note.value == 0,
        r.0@.note.t_note == now,
        r.0@.note.community == community@,
        r.0@.note.coin_community == community@,
        crate::pallas::on_curve(r.0@.note.g_d),
        forall|anchor: nat| #[trigger] honest_spend(community@, anchor, now, r.0@),
{
    proof {
        use_type_invariant(&p.key);
    }
    let fvk = p.key.fvk;
    let address = fvk.address(p.diversifier);
    let g_d = crate::keys::diversify_hash(&p.diversifier);
    proof {
        use_type_invariant(&g_d);
        use_type_invariant(&fvk.ivk);
        crate::bytes::lemma_pow256_values();
        vstd::arithmetic::div_mod::lemma_small_mod(fvk.ivk@, crate::pallas::scalar_modulus());
        assert(address@.pk_d == crate::pallas::point_product(g_d@, fvk.ivk@));
        assert(address@.pk_d != 0);
    }
    let rseed = RandomSeed::from_bytes(p.rseed);
    let note = from_parts(
        community,
        community,
        0,
        now,
        NoteKind::Normal,
        0,
        &address,
        random_base(&p.rho),
        Base::zero(),
        rseed,
    ).unwrap();
    let mut path: [Base; 32] = [Base::zero(); 32];
    let mut i: usize = 0;
    while i < 32
        invariant
            i <= 32,
            forall|j: int| 0 <= j < i ==> (#[trigger] path@[j])@ == uniform_base(p.path@[j]@),
        decreases 32 - i,
    {
        path[i] = random_base(&p.path[i]);
        i = i + 1;
    }
    let r = SpendInfo { fvk, note: NoteWithSeed { note, rseed }, position: 0, path };
    assert(r@.path =~= dummy_spend_model(community@, now, *p).path);
    assert(owns_note(r@.key, r@.note)) by {
        assert(r@.note.pk_d == crate::pallas::pallas_multiple(
            crate::pallas::point_product(g_d@, r@.key.ivk),
        ));
    }
    (r, p.key.sk.spend_authorizing_key())
}

/// An output of value 0 to a throwaway address, for padding.
fn dummy_output(p: &OutputPadding) -> (r: OutputInfo)
    ensures
        r@ == plain_output(p.key.key().address(p.diversifier@), 0),
        r@.address.pk_d != 0,
{
    proof {
        use_type_invariant(&p.key);
    }
    let address = p.key.fvk.address(p.diversifier);
    let g_d = crate::keys::diversify_hash(&p.diversifier);
    proof {
        use_type_invariant(&g_d);
        use_type_invariant(&p.key.fvk.ivk);
        vstd::arithmetic::div_mod::lemma_small_mod(
            p.key.fvk.ivk@,
            crate::pallas::scalar_modulus(),
        );
        assert(address@.pk_d == crate::pallas::point_product(g_d@, p.key.fvk.ivk@));
    }
    OutputInfo::new(address, 0)
}

// ------------------------------------------------------------------------------ building

/// What the spends are worth at `now`.
pub open spec fn spent_total(community: nat, now: u64, spends: Seq<SpendModel>) -> Result<
    u64,
    BuildError,
>
    decreases spends.len(),
{
    if spends.len() == 0 {
        Ok(0)
    } else {
        match spent_total(community, now, spends.drop_last()) {
            Err(e) => Err(e),
            Ok(sum) => {
                let note = spends.last().note;
                if note.community != community || note.coin_community != community {
                    Err(BuildError::WrongCommunity)
                } else {
                    match worth_at(note, now) {
                        None => Err(BuildError::NoteFromTheFuture),
                        Some(worth) => if sum + worth > u64::MAX {
                            Err(BuildError::Overflow)
                        } else {
                            Ok((sum + worth) as u64)
                        },
                    }
                }
            },
        }
    }
}

/// Whether the memo opening of an output gives its `memo_cm`.
pub open spec fn output_memo_matches(o: OutputModel) -> bool {
    match o.memo_opening {
        Some((text, r_memo)) => crate::memo::memo_commitment(text, r_memo) == o.memo_cm,
        None => o.memo_cm == 0,
    }
}

/// The value of the outputs.
pub open spec fn created_total(outputs: Seq<OutputModel>) -> Result<u64, BuildError>
    decreases outputs.len(),
{
    if outputs.len() == 0 {
        Ok(0)
    } else {
        match created_total(outputs.drop_last()) {
            Err(e) => Err(e),
            Ok(sum) => if sum + outputs.last().value > u64::MAX {
                Err(BuildError::Overflow)
            } else if !output_memo_matches(outputs.last()) {
                Err(BuildError::MemoMismatch)
            } else {
                Ok((sum + outputs.last().value) as u64)
            },
        }
    }
}

/// Why spends and outputs cannot make a bundle, before any note is made.
pub open spec fn request_error(
    community: nat,
    now: u64,
    spends: Seq<SpendModel>,
    outputs: Seq<OutputModel>,
) -> Option<BuildError> {
    if spends.len() > ACTIONS {
        Some(BuildError::TooManySpends)
    } else if outputs.len() > ACTIONS {
        Some(BuildError::TooManyOutputs)
    } else if now >= crate::note::TIMESTAMP_LIMIT {
        Some(BuildError::InvalidNote(NoteError::TimestampTooLarge))
    } else {
        match (spent_total(community, now, spends), created_total(outputs)) {
            (Err(e), _) => Some(e),
            (Ok(_), Err(e)) => Some(e),
            (Ok(spent), Ok(created)) => if spent != created {
                Some(BuildError::Unbalanced { spent, created })
            } else {
                None
            },
        }
    }
}

/// The spend of an action, a padding one if there is none.
pub open spec fn spend_at(
    community: nat,
    now: u64,
    spends: Seq<SpendModel>,
    randomness: BuildRandomness,
    i: int,
) -> SpendModel {
    if i < spends.len() {
        spends[i]
    } else {
        dummy_spend_model(community, now, randomness.spends@[i])
    }
}

/// The key that signs the spend of an action, if the builder holds it.
pub open spec fn dummy_ask_at(spends: Seq<SpendModel>, randomness: BuildRandomness, i: int) -> Option<
    nat,
> {
    if i < spends.len() {
        None
    } else {
        Some(crate::keys::authorizing_key(randomness.spends@[i].key.secret()))
    }
}

/// The output of an action, a padding one if there is none.
pub open spec fn output_at(outputs: Seq<OutputModel>, randomness: BuildRandomness, i: int) -> OutputModel {
    if i < outputs.len() {
        outputs[i]
    } else {
        let p = randomness.outputs@[i];
        plain_output(p.key.key().address(p.diversifier@), 0)
    }
}

/// The note that an action creates.
pub open spec fn created_note(
    community: nat,
    now: u64,
    spend: SpendModel,
    output: OutputModel,
    rseed: Seq<u8>,
) -> Result<NoteModel, NoteError> {
    crate::note::note_of_parts(
        community,
        community,
        output.value,
        now,
        output.kind,
        output.expiry_epoch,
        output.address,
        spend.note.nf(spend.key.nk),
        output.memo_cm,
        rseed,
    )
}

/// What is spent in an action, less what is created.
pub open spec fn net_value(now: u64, spend: SpendModel, output: OutputModel) -> int {
    worth_at(spend.note, now)->0 - output.value
}

/// What an action publishes.
pub open spec fn built_action(
    community: nat,
    now: u64,
    spend: SpendModel,
    output: OutputModel,
    ovk: Option<Seq<u8>>,
    r: ActionRandomness,
) -> ActionModel {
    let new = created_note(community, now, spend, output, r.rseed@)->Ok_0;
    let cv_net = crate::signature::commitment_to_value(net_value(now, spend, output), r.rcv@);
    ActionModel {
        cv_net,
        nullifier: spend.note.nf(spend.key.nk),
        rk: crate::signature::randomized_key(spend.key.ak, r.alpha@),
        cm: new.cm(),
        encrypted: crate::note_encryption::encrypted_note(
            new,
            r.rseed@,
            output.memo,
            ovk,
            cv_net,
            (r.filler.key@, r.filler.plaintext@),
        ),
    }
}

/// The opening of a created note.
pub open spec fn opening_for(output: OutputModel, rseed: Seq<u8>) -> OpeningModel {
    OpeningModel {
        address: output.address,
        value: output.value,
        kind: output.kind,
        expiry_epoch: output.expiry_epoch,
        rseed,
        memo_cm: output.memo_cm,
        free_memo: output.memo,
        memo: output.memo_opening,
    }
}

/// The padding notes can be made.
pub open spec fn paddings_hold(
    community: nat,
    now: u64,
    spends: Seq<SpendModel>,
    randomness: BuildRandomness,
) -> bool {
    forall|i: int|
        spends.len() <= i < 2 ==> dummy_note(
            community,
            now,
            #[trigger] randomness.spends@[i],
        ) is Ok
}

/// Why a bundle cannot be built.
pub open spec fn build_error(
    community: nat,
    now: u64,
    spends: Seq<SpendModel>,
    outputs: Seq<OutputModel>,
    randomness: BuildRandomness,
) -> Option<BuildError> {
    match request_error(community, now, spends, outputs) {
        Some(e) => Some(e),
        None => first_note_error(community, now, spends, outputs, randomness, 2),
    }
}

/// The first of the created notes that cannot be made.
pub open spec fn first_note_error(
    community: nat,
    now: u64,
    spends: Seq<SpendModel>,
    outputs: Seq<OutputModel>,
    randomness: BuildRandomness,
    n: nat,
) -> Option<BuildError>
    decreases n,
{
    if n == 0 {
        None
    } else {
        let i = n - 1;
        match first_note_error(community, now, spends, outputs, randomness, i as nat) {
            Some(e) => Some(e),
            None => match created_note(
                community,
                now,
                spend_at(community, now, spends, randomness, i),
                output_at(outputs, randomness, i),
                randomness.actions@[i].rseed@,
            ) {
                Err(e) => Some(BuildError::InvalidNote(e)),
                Ok(_) => None,
            },
        }
    }
}

/// Proven, not yet signed. Holds the secrets the signatures need.
#[derive(Clone, Debug)]
pub struct UnauthorizedBundle {
    pub anchor: Base,
    pub now: u64,
    pub community: Base,
    pub actions: Vec<Action>,
    pub proof: Vec<u8>,
    /// rerandomisers; the device needs the one of its spend to sign
    pub alphas: Vec<Scalar>,
    pub secrets: BundleSecrets,
}

/// What only the builder of a bundle knows.
#[derive(Clone, Debug)]
pub struct BundleSecrets {
    rcvs: Vec<Scalar>,
    /// for dummy spends the builder holds the key and signs itself
    dummy_asks: Vec<Option<SpendAuthorizingKey>>,
    /// openings of the created notes, for the signing device
    outputs: Vec<OutputOpening>,
}

/// Proven, not yet signed.
#[verifier::ext_equal]
pub struct UnauthorizedModel {
    pub anchor: nat,
    pub now: u64,
    pub community: nat,
    pub actions: Seq<ActionModel>,
    pub proof: Seq<u8>,
    pub alphas: Seq<nat>,
    pub rcvs: Seq<nat>,
    pub dummy_asks: Seq<Option<nat>>,
    pub outputs: Seq<OpeningModel>,
}

pub open spec fn ask_view(a: Option<SpendAuthorizingKey>) -> Option<nat> {
    match a {
        Some(a) => Some(a.0@),
        None => None,
    }
}

pub open spec fn opening_models(o: Seq<OutputOpening>) -> Seq<OpeningModel> {
    o.map_values(|o: OutputOpening| o@)
}

impl View for UnauthorizedBundle {
    type V = UnauthorizedModel;

    open spec fn view(&self) -> UnauthorizedModel {
        UnauthorizedModel {
            anchor: self.anchor@,
            now: self.now,
            community: self.community@,
            actions: action_models(self.actions@),
            proof: self.proof@,
            alphas: crate::signature::scalar_values(self.alphas@),
            rcvs: self.secrets.rcv_values(),
            dummy_asks: self.secrets.ask_values(),
            outputs: self.secrets.openings(),
        }
    }
}

impl BundleSecrets {
    /// The randomness of the value commitments.
    pub closed spec fn rcv_values(self) -> Seq<nat> {
        crate::signature::scalar_values(self.rcvs@)
    }

    /// The keys of the dummy spends, `None` for a real one.
    pub closed spec fn ask_values(self) -> Seq<Option<nat>> {
        self.dummy_asks@.map_values(|a: Option<SpendAuthorizingKey>| ask_view(a))
    }

    /// The openings of the created notes.
    pub closed spec fn openings(self) -> Seq<OpeningModel> {
        opening_models(self.outputs@)
    }
}

impl UnauthorizedModel {
    /// One rerandomiser, one randomness, one key slot and one opening per action.
    pub open spec fn complete(self) -> bool {
        &&& self.alphas.len() == self.actions.len()
        &&& self.rcvs.len() == self.actions.len()
        &&& self.dummy_asks.len() == self.actions.len()
        &&& self.outputs.len() == self.actions.len()
    }
}

/// The bundle of spends and outputs, without its proof.
pub open spec fn built(
    community: nat,
    anchor: nat,
    now: u64,
    spends: Seq<SpendModel>,
    outputs: Seq<OutputModel>,
    ovk: Option<Seq<u8>>,
    randomness: BuildRandomness,
) -> UnauthorizedModel {
    UnauthorizedModel {
        anchor,
        now,
        community,
        actions: Seq::new(
            2,
            |i: int|
                built_action(
                    community,
                    now,
                    spend_at(community, now, spends, randomness, i),
                    output_at(outputs, randomness, i),
                    ovk,
                    randomness.actions@[i],
                ),
        ),
        proof: Seq::empty(),
        alphas: Seq::new(2, |i: int| randomness.actions@[i].alpha@),
        rcvs: Seq::new(2, |i: int| randomness.actions@[i].rcv@),
        dummy_asks: Seq::new(2, |i: int| dummy_ask_at(spends, randomness, i)),
        outputs: Seq::new(
            2,
            |i: int|
                opening_for(output_at(outputs, randomness, i), randomness.actions@[i].rseed@),
        ),
    }
}

/// A bundle that still needs its proof: the witnesses and the public inputs of the actions, in
/// proof order.
#[derive(Clone, Debug)]
pub struct UnprovenBundle {
    pub circuits: Vec<ActionCircuit>,
    pub instances: Vec<Vec<Base>>,
    pub bundle: UnauthorizedBundle,
}

/// Adds up what the spends are worth.
fn sum_spends(community: Base, now: u64, spends: &[SpendInfo]) -> (r: Result<u64, BuildError>)
    requires
        forall|i: int|
            0 <= i < spends@.len() ==> (#[trigger] spends@[i])@.note.value
                < crate::note::VALUE_LIMIT,
    ensures
        r == spent_total(community@, now, spend_models(spends@)),
{
    let ghost all = spend_models(spends@);
    let mut spent: u64 = 0;
    let mut i: usize = 0;
    assert(all.take(0) =~= Seq::empty());
    while i < spends.len()
        invariant
            i <= spends@.len(),
            all == spend_models(spends@),
            forall|j: int|
                0 <= j < spends@.len() ==> (#[trigger] spends@[j])@.note.value
                    < crate::note::VALUE_LIMIT,
            spent_total(community@, now, all.take(i as int)) == Ok::<u64, BuildError>(spent),
        decreases spends@.len() - i,
    {
        proof {
            assert(all.take(i + 1).drop_last() =~= all.take(i as int));
            assert(all.take(i + 1).last() == spends@[i as int]@);
            if spent_total(community@, now, all.take(i + 1)) is Err {
                lemma_spent_stops(community@, now, all, i as int + 1);
            }
        }
        let s = &spends[i];
        if !s.note.note.community.same(&community) || !s.note.note.coin_community.same(&community) {
            return Err(BuildError::WrongCommunity);
        }
        let worth = match spendable_value(&s.note, now) {
            Some(worth) => worth,
            None => return Err(BuildError::NoteFromTheFuture),
        };
        spent = match spent.checked_add(worth) {
            Some(sum) => sum,
            None => return Err(BuildError::Overflow),
        };
        i = i + 1;
    }
    assert(all.take(i as int) =~= all);
    Ok(spent)
}

proof fn lemma_spent_stops(community: nat, now: u64, spends: Seq<SpendModel>, n: int)
    requires
        0 <= n <= spends.len(),
        spent_total(community, now, spends.take(n)) is Err,
    ensures
        spent_total(community, now, spends) == spent_total(community, now, spends.take(n)),
    decreases spends.len(),
{
    if n == spends.len() {
        assert(spends.take(n) =~= spends);
    } else {
        assert(spends.drop_last().take(n) =~= spends.take(n));
        lemma_spent_stops(community, now, spends.drop_last(), n);
    }
}

/// Adds up the outputs and checks their memos.
fn sum_outputs(outputs: &[OutputInfo]) -> (r: Result<u64, BuildError>)
    ensures
        r == created_total(output_models(outputs@)),
{
    let ghost all = output_models(outputs@);
    let mut created: u64 = 0;
    let mut i: usize = 0;
    assert(all.take(0) =~= Seq::empty());
    while i < outputs.len()
        invariant
            i <= outputs@.len(),
            all == output_models(outputs@),
            created_total(all.take(i as int)) == Ok::<u64, BuildError>(created),
        decreases outputs@.len() - i,
    {
        proof {
            assert(all.take(i + 1).drop_last() =~= all.take(i as int));
            assert(all.take(i + 1).last() == outputs@[i as int]@);
            if created_total(all.take(i + 1)) is Err {
                lemma_created_stops(all, i as int + 1);
            }
        }
        let o = &outputs[i];
        created = match created.checked_add(o.value) {
            Some(sum) => sum,
            None => return Err(BuildError::Overflow),
        };
        let memo_matches = match &o.memo_opening {
            Some(m) => crate::memo::verify(&m.text, m.r_memo, o.memo_cm),
            None => o.memo_cm.is_zero(),
        };
        if !memo_matches {
            return Err(BuildError::MemoMismatch);
        }
        i = i + 1;
    }
    assert(all.take(i as int) =~= all);
    Ok(created)
}

proof fn lemma_created_stops(outputs: Seq<OutputModel>, n: int)
    requires
        0 <= n <= outputs.len(),
        created_total(outputs.take(n)) is Err,
    ensures
        created_total(outputs) == created_total(outputs.take(n)),
    decreases outputs.len(),
{
    if n == outputs.len() {
        assert(outputs.take(n) =~= outputs);
    } else {
        assert(outputs.drop_last().take(n) =~= outputs.take(n));
        lemma_created_stops(outputs.drop_last(), n);
    }
}

proof fn lemma_spends_are_usable(community: nat, now: u64, spends: Seq<SpendModel>)
    requires
        spent_total(community, now, spends) is Ok,
    ensures
        forall|i: int|
            0 <= i < spends.len() ==> (#[trigger] spends[i]).note.t_note <= now
                && spends[i].note.community == community && spends[i].note.coin_community
                == community,
    decreases spends.len(),
{
    if spends.len() > 0 {
        lemma_spends_are_usable(community, now, spends.drop_last());
        assert(forall|i: int|
            0 <= i < spends.len() - 1 ==> spends[i] == spends.drop_last()[i]);
    }
}

/// Whether a note was sent to an address of a key.
pub open spec fn owns_note(key: ViewingKeyModel, note: NoteModel) -> bool {
    exists|g: nat|
        #![trigger crate::pallas::point_product(g, key.ivk)]
        {
            &&& crate::pallas::decode_point(crate::pallas::encode_point(g)) == Some(g)
            &&& note.g_d == crate::pallas::pallas_multiple(g)
            &&& note.pk_d == crate::pallas::pallas_multiple(
                crate::pallas::point_product(g, key.ivk),
            )
        }
}

/// A spend that a wallet may make: its own note, of this community and not from the future, in
/// the tree of the anchor or without value.
pub open spec fn honest_spend(community: nat, anchor: nat, now: u64, spend: SpendModel) -> bool {
    &&& spend.key.consistent()
    &&& owns_note(spend.key, spend.note)
    &&& spend.note.in_range()
    &&& spend.note.community == community
    &&& spend.note.coin_community == community
    &&& spend.note.t_note <= now
    &&& spend.note.g_d != (0nat, 0nat)
    &&& spend.note.value == 0 || crate::tree::path_node(
        spend.note.cm(),
        spend.position as nat,
        spend.path,
        32,
    ) == anchor
}

/// Spends that a wallet may make.
pub open spec fn all_honest(community: nat, anchor: nat, now: u64, spends: Seq<SpendModel>) -> bool {
    forall|i: int|
        0 <= i < spends.len() ==> honest_spend(community, anchor, now, #[trigger] spends[i])
}

/// Whether the spend of an action, a dummy among them, is one that a wallet may make.
#[verifier::opaque]
pub open spec fn honest_at(
    community: nat,
    anchor: nat,
    now: u64,
    spends: Seq<SpendModel>,
    randomness: BuildRandomness,
    i: int,
) -> bool {
    honest_spend(community, anchor, now, spend_at(community, now, spends, randomness, i))
}

/// Whether witness and public inputs are those of an action; those of an honest spend satisfy the
/// circuit.
pub open spec fn action_ready(
    circuit: ActionCircuit,
    instance: Seq<nat>,
    community: nat,
    anchor: nat,
    now: u64,
    spend: SpendModel,
    output: OutputModel,
    r: ActionRandomness,
) -> bool {
    let new = created_note(community, now, spend, output, r.rseed@)->Ok_0;
    &&& circuit.witnesses(
        spend.note,
        spend.key,
        spend.position,
        spend.path,
        new,
        r.rcv@,
        r.alpha@,
    )
    &&& honest_spend(community, anchor, now, spend) ==> circuit.accepted(instance)
    &&& instance == crate::circuit::action_slice::public_inputs(
        community,
        anchor,
        spend.note.nf(spend.key.nk),
        crate::signature::randomized_key(spend.key.ak, r.alpha@),
        new.cm(),
        crate::signature::commitment_to_value(net_value(now, spend, output), r.rcv@),
        now,
    )
}

/// The incoming viewing key of an output's address reads the created note back out of its action,
/// unless the ephemeral key is the identity.
pub open spec fn recipient_reads(
    community: nat,
    now: u64,
    spend: SpendModel,
    output: OutputModel,
    r: ActionRandomness,
    action: ActionModel,
) -> bool {
    let new = created_note(community, now, spend, output, r.rseed@)->Ok_0;
    let domain = DomainModel {
        community,
        coin_community: community,
        rho: spend.note.nf(spend.key.nk),
    };
    forall|ivk: nat|
        output.address.pk_d == crate::pallas::point_product(
            crate::keys::diversified_base(output.address.d),
            ivk,
        ) && crate::note_encryption::note_epk(new, r.rseed@) != 0
            ==> #[trigger] crate::note_encryption::decrypted_note(domain, ivk, action.encrypted)
            == Some(
            PlainNote {
                note: new,
                rseed: r.rseed@,
                address: output.address,
                memo: output.memo,
            },
        )
}

pub open spec fn ovk_view(ovk: Option<[u8; 32]>) -> Option<Seq<u8>> {
    match ovk {
        Some(k) => Some(k@),
        None => None,
    }
}

/// One action: the note it creates, what it publishes, and what its proof is about.
fn build_action(
    community: Base,
    anchor: Base,
    now: u64,
    spend: &SpendInfo,
    output: &OutputInfo,
    ovk: Option<[u8; 32]>,
    r: &ActionRandomness,
) -> (res: Result<(Action, ActionCircuit, Vec<Base>, OutputOpening), NoteError>)
    requires
        crate::pallas::on_curve(spend@.note.g_d),
        spend@.note.value < crate::note::VALUE_LIMIT,
        spend@.note.t_note <= now,
    ensures
        match res {
            Ok((action, circuit, instance, opening)) => {
                &&& created_note(community@, now, spend@, output@, r.rseed@) is Ok
                &&& action@ == built_action(
                    community@,
                    now,
                    spend@,
                    output@,
                    ovk_view(ovk),
                    *r,
                )
                &&& opening@ == opening_for(output@, r.rseed@)
                &&& action_ready(
                    circuit,
                    crate::hash::values(instance@),
                    community@,
                    anchor@,
                    now,
                    spend@,
                    output@,
                    *r,
                )
                &&& recipient_reads(community@, now, spend@, output@, *r, action@)
            },
            Err(e) => created_note(community@, now, spend@, output@, r.rseed@) == Err::<
                NoteModel,
                NoteError,
            >(e),
        },
{
    let old = &spend.note.note;
    let nf = old.nullifier(spend.fvk.nk);
    let decayed: u64 = spendable_value(&spend.note, now).unwrap();
    let rseed = RandomSeed::from_bytes(r.rseed);
    let new = match from_parts(
        community,
        community,
        output.value,
        now,
        output.kind,
        output.expiry_epoch,
        &output.address,
        nf,
        output.memo_cm,
        rseed,
    ) {
        Ok(note) => note,
        Err(e) => return Err(e),
    };
    let g_d = crate::keys::diversify_hash(&output.address.d);
    proof {
        use_type_invariant(&output.address.pk_d);
        use_type_invariant(&g_d);
    }
    let rk = crate::signature::randomized_verification_key(spend.fvk.ak, r.alpha).0;
    let cv_net = crate::signature::value_commitment(
        decayed as i128 - output.value as i128,
        r.rcv,
    );
    let circuit = ActionSliceCircuit::<true, true>::new(
        old,
        &spend.fvk,
        spend.position,
        spend.path,
        &new,
        r.rcv,
        r.alpha,
    );
    let cm = new.commitment();
    let instance = ActionSliceCircuit::<true, true>::instance(
        community,
        anchor,
        nf,
        rk,
        cm,
        cv_net,
        now,
    );
    let domain = GradidoDomain { community, coin_community: community, rho: nf };
    let encrypted = encrypt(
        domain,
        &NoteWithSeed { note: new, rseed },
        output.memo,
        ovk,
        cv_net,
        &r.filler,
    );
    proof {
        use_type_invariant(&circuit.g_d);
        use_type_invariant(&circuit.new_g_d);
        use_type_invariant(&circuit.new_pk_d);
        if honest_spend(community@, anchor@, now, spend@) {
            let g = choose|g: nat|
                #![trigger crate::pallas::point_product(g, spend@.key.ivk)]
                {
                    &&& crate::pallas::decode_point(crate::pallas::encode_point(g)) == Some(g)
                    &&& spend@.note.g_d == crate::pallas::pallas_multiple(g)
                    &&& spend@.note.pk_d == crate::pallas::pallas_multiple(
                        crate::pallas::point_product(g, spend@.key.ivk),
                    )
                };
            assert(crate::pallas::encode_point(g) == crate::pallas::encode_point(circuit.g_d@));
            assert(g == circuit.g_d@);
            assert(circuit.points_hold());
            crate::circuit::action_slice::honest_action_is_accepted(
                circuit,
                spend@.note,
                spend@.key,
                spend@.position,
                spend@.path,
                new@,
                r.rcv@,
                r.alpha@,
                community@,
                anchor@,
                now,
            );
        }
    }
    proof {
        crate::bytes::lemma_le_bytes_of_le_nat(output.address.d@);
        assert(crate::note_encryption::note_diversifier(new@) == output.address.d@);
        assert(crate::note_encryption::note_pk_d(new@) == output.address.pk_d@);
        assert(crate::note_encryption::belongs_to(new@, rseed.bytes(), domain@));
        assert(crate::note_encryption::plain_note(new@, rseed.bytes(), output.memo@)
            =~= (PlainNote {
            note: new@,
            rseed: r.rseed@,
            address: output.address@,
            memo: output.memo@,
        }));
    }
    let action = Action { cv_net, nullifier: nf, rk, cm, encrypted };
    let opening = OutputOpening {
        address: output.address,
        value: output.value,
        kind: output.kind,
        expiry_epoch: output.expiry_epoch,
        rseed,
        memo_cm: output.memo_cm,
        free_memo: output.memo,
        memo: output.memo_opening,
    };
    Ok((action, circuit, instance, opening))
}

/// Builds a bundle up to its proof. `ovk` lets the sender recover its outputs later. Missing
/// spends and outputs are filled with dummies of value 0. The proof can be made of honest spends,
/// and every recipient reads its note back.
#[verifier::rlimit(30)]
pub fn build(
    community: Base,
    anchor: Base,
    now: u64,
    spends: Vec<SpendInfo>,
    outputs: Vec<OutputInfo>,
    ovk: Option<[u8; 32]>,
    randomness: &BuildRandomness,
) -> (res: Result<UnprovenBundle, BuildError>)
    requires
        forall|i: int|
            0 <= i < spends@.len() ==> crate::pallas::on_curve(
                (#[trigger] spends@[i])@.note.g_d,
            ) && spends@[i]@.note.value < crate::note::VALUE_LIMIT,
    ensures
        ({
            let s = spend_models(spends@);
            let o = output_models(outputs@);
            match res {
                Ok(u) => {
                    &&& build_error(community@, now, s, o, *randomness) is None
                    &&& paddings_hold(community@, now, s, *randomness)
                    &&& u.bundle@ == built(
                        community@,
                        anchor@,
                        now,
                        s,
                        o,
                        ovk_view(ovk),
                        *randomness,
                    )
                    &&& u.circuits@.len() == 2
                    &&& u.instances@.len() == 2
                    &&& forall|i: int|
                        0 <= i < 2 ==> action_ready(
                            #[trigger] u.circuits@[i],
                            crate::hash::values(u.instances@[i]@),
                            community@,
                            anchor@,
                            now,
                            spend_at(community@, now, s, *randomness, i),
                            output_at(o, *randomness, i),
                            randomness.actions@[i],
                        )
                    &&& forall|i: int|
                        0 <= i < 2 ==> recipient_reads(
                            community@,
                            now,
                            spend_at(community@, now, s, *randomness, i),
                            output_at(o, *randomness, i),
                            randomness.actions@[i],
                            #[trigger] u.bundle@.actions[i],
                        )
                    &&& all_honest(community@, anchor@, now, s) ==> forall|i: int|
                        0 <= i < 2 ==> (#[trigger] u.circuits@[i]).accepted(
                            crate::hash::values(u.instances@[i]@),
                        )
                },
                Err(e) => build_error(community@, now, s, o, *randomness) == Some(e),
            }
        }),
{
    let ghost s = spend_models(spends@);
    let ghost o = output_models(outputs@);
    if spends.len() > ACTIONS {
        return Err(BuildError::TooManySpends);
    }
    if outputs.len() > ACTIONS {
        return Err(BuildError::TooManyOutputs);
    }
    if now >= crate::note::TIMESTAMP_LIMIT {
        return Err(BuildError::InvalidNote(NoteError::TimestampTooLarge));
    }
    let spent = match sum_spends(community, now, spends.as_slice()) {
        Ok(v) => v,
        Err(e) => return Err(e),
    };
    let created = match sum_outputs(outputs.as_slice()) {
        Ok(v) => v,
        Err(e) => return Err(e),
    };
    if spent != created {
        return Err(BuildError::Unbalanced { spent, created });
    }
    proof {
        assert(request_error(community@, now, s, o) is None);
        lemma_spends_are_usable(community@, now, s);
        assert(forall|i: int| 0 <= i < s.len() ==> s[i] == (#[trigger] spends@[i])@);
    }
    let mut actions: Vec<Action> = Vec::new();
    let mut circuits: Vec<ActionCircuit> = Vec::new();
    let mut instances: Vec<Vec<Base>> = Vec::new();
    let mut openings: Vec<OutputOpening> = Vec::new();
    let mut alphas: Vec<Scalar> = Vec::new();
    let mut rcvs: Vec<Scalar> = Vec::new();
    let mut dummy_asks: Vec<Option<SpendAuthorizingKey>> = Vec::new();
    let mut i: usize = 0;
    while i < ACTIONS
        invariant
            i <= ACTIONS,
            now < crate::note::TIMESTAMP_LIMIT,
            s == spend_models(spends@),
            o == output_models(outputs@),
            request_error(community@, now, s, o) is None,
            forall|j: int|
                0 <= j < spends@.len() ==> crate::pallas::on_curve(
                    (#[trigger] spends@[j])@.note.g_d,
                ) && spends@[j]@.note.value < crate::note::VALUE_LIMIT && spends@[j]@.note.t_note
                    <= now,
            first_note_error(community@, now, s, o, *randomness, i as nat) is None,
            forall|j: int|
                spends@.len() <= j < i ==> dummy_note(
                    community@,
                    now,
                    #[trigger] randomness.spends@[j],
                ) is Ok,
            forall|j: int|
                spends@.len() <= j < i ==> #[trigger] honest_at(
                    community@,
                    anchor@,
                    now,
                    s,
                    *randomness,
                    j,
                ),
            actions@.len() == i,
            circuits@.len() == i,
            instances@.len() == i,
            openings@.len() == i,
            alphas@.len() == i,
            rcvs@.len() == i,
            dummy_asks@.len() == i,
            forall|j: int|
                0 <= j < i ==> (#[trigger] actions@[j])@ == built_action(
                    community@,
                    now,
                    spend_at(community@, now, s, *randomness, j),
                    output_at(o, *randomness, j),
                    ovk_view(ovk),
                    randomness.actions@[j],
                ),
            forall|j: int|
                0 <= j < i ==> action_ready(
                    #[trigger] circuits@[j],
                    crate::hash::values(instances@[j]@),
                    community@,
                    anchor@,
                    now,
                    spend_at(community@, now, s, *randomness, j),
                    output_at(o, *randomness, j),
                    randomness.actions@[j],
                ),
            forall|j: int|
                0 <= j < i ==> recipient_reads(
                    community@,
                    now,
                    spend_at(community@, now, s, *randomness, j),
                    output_at(o, *randomness, j),
                    randomness.actions@[j],
                    (#[trigger] actions@[j])@,
                ),
            forall|j: int|
                0 <= j < i ==> (#[trigger] openings@[j])@ == opening_for(
                    output_at(o, *randomness, j),
                    randomness.actions@[j].rseed@,
                ),
            forall|j: int| 0 <= j < i ==> (#[trigger] alphas@[j]) == randomness.actions@[j].alpha,
            forall|j: int| 0 <= j < i ==> (#[trigger] rcvs@[j]) == randomness.actions@[j].rcv,
            forall|j: int|
                0 <= j < i ==> ask_view(#[trigger] dummy_asks@[j]) == dummy_ask_at(
                    s,
                    *randomness,
                    j,
                ),
        decreases ACTIONS - i,
    {
        let (spend, dummy_ask) = if i < spends.len() {
            (spends[i], None)
        } else {
            let (spend, ask) = dummy_spend(community, now, &randomness.spends[i]);
            (spend, Some(ask))
        };
        let output = if i < outputs.len() {
            outputs[i]
        } else {
            dummy_output(&randomness.outputs[i])
        };
        proof {
            assert(spend@ == spend_at(community@, now, s, *randomness, i as int));
            assert(output@ == output_at(o, *randomness, i as int));
            assert(ask_view(dummy_ask) == dummy_ask_at(s, *randomness, i as int));
            if i >= spends.len() {
                assert(honest_at(community@, anchor@, now, s, *randomness, i as int)) by {
                    reveal(honest_at);
                }
            }
            if first_note_error(community@, now, s, o, *randomness, (i + 1) as nat) is Some {
                lemma_note_error_stops(community@, now, s, o, *randomness, (i + 1) as nat);
            }
        }
        match build_action(community, anchor, now, &spend, &output, ovk, &randomness.actions[i]) {
            Ok((action, circuit, instance, opening)) => {
                actions.push(action);
                circuits.push(circuit);
                instances.push(instance);
                openings.push(opening);
            },
            Err(e) => return Err(BuildError::InvalidNote(e)),
        }
        alphas.push(randomness.actions[i].alpha);
        rcvs.push(randomness.actions[i].rcv);
        dummy_asks.push(dummy_ask);
        i = i + 1;
    }
    let bundle = UnauthorizedBundle {
        anchor,
        now,
        community,
        actions,
        proof: Vec::new(),
        alphas,
        secrets: BundleSecrets { rcvs, dummy_asks, outputs: openings },
    };
    assert(bundle@ =~= built(community@, anchor@, now, s, o, ovk_view(ovk), *randomness));
    proof {
        if all_honest(community@, anchor@, now, s) {
            assert forall|j: int| 0 <= j < 2 implies (#[trigger] circuits@[j]).accepted(
                crate::hash::values(instances@[j]@),
            ) by {
                reveal(honest_at);
                if j >= spends@.len() {
                    assert(honest_at(community@, anchor@, now, s, *randomness, j));
                } else {
                    assert(honest_spend(community@, anchor@, now, s[j]));
                }
            }
        }
    }
    Ok(UnprovenBundle { circuits, instances, bundle })
}

proof fn lemma_note_error_stops(
    community: nat,
    now: u64,
    spends: Seq<SpendModel>,
    outputs: Seq<OutputModel>,
    randomness: BuildRandomness,
    n: nat,
)
    requires
        n <= 2,
        first_note_error(community, now, spends, outputs, randomness, n) is Some,
    ensures
        first_note_error(community, now, spends, outputs, randomness, 2) == first_note_error(
            community,
            now,
            spends,
            outputs,
            randomness,
            n,
        ),
    decreases 2 - n,
{
    if n < 2 {
        lemma_note_error_stops(community, now, spends, outputs, randomness, n + 1);
    }
}

impl UnprovenBundle {
    /// The bundle with its proof; `BuildError::Proof` if none could be made.
    pub fn prove(self, transcript: Option<Vec<u8>>) -> (r: Result<UnauthorizedBundle, BuildError>)
        ensures
            match (transcript, r) {
                (Some(p), Ok(b)) => b@ == (UnauthorizedModel { proof: p@, ..self.bundle@ }),
                (None, Err(e)) => e == BuildError::Proof,
                _ => false,
            },
    {
        match transcript {
            Some(bytes) => {
                let mut bundle = self.bundle;
                bundle.proof = bytes;
                Ok(bundle)
            },
            None => Err(BuildError::Proof),
        }
    }
}

// ------------------------------------------------------------------------------ authorising

#[derive(Debug, PartialEq, Eq)]
pub enum AuthorizeError {
    /// not exactly one device signature per real spend
    SignatureCount { expected: usize, got: usize },
    /// the device signature for this action does not verify against its `rk`
    BadSignature(usize),
}

/// The actions whose spend the device has to sign.
pub open spec fn real_actions(dummy_asks: Seq<Option<nat>>) -> Seq<int>
    decreases dummy_asks.len(),
{
    if dummy_asks.len() == 0 {
        Seq::empty()
    } else if dummy_asks.last() is None {
        real_actions(dummy_asks.drop_last()).push(dummy_asks.len() - 1)
    } else {
        real_actions(dummy_asks.drop_last())
    }
}

/// What the signing device needs.
pub open spec fn request_for(u: UnauthorizedModel, body: Seq<u8>) -> crate::signer::RequestModel {
    crate::signer::RequestModel {
        body,
        outputs: u.outputs,
        alphas: Seq::new(
            u.actions.len(),
            |i: int|
                if u.dummy_asks[i] is None {
                    Some(u.alphas[i])
                } else {
                    None
                },
        ),
    }
}

/// The spend authorisation signature of an action verifies.
pub open spec fn spend_verifies(action: ActionModel, sighash: Seq<u8>, sig: Seq<u8>) -> bool {
    crate::signature::spend_auth_verifies(
        crate::pallas::encode_point(action.rk),
        sighash,
        sig,
    )
}

/// The first of the first `n` actions whose device signature does not verify.
pub open spec fn first_bad_signature(
    u: UnauthorizedModel,
    sighash: Seq<u8>,
    sigs: Seq<SpendAuthSignature>,
    n: nat,
) -> Option<int>
    decreases n,
{
    if n == 0 {
        None
    } else {
        let i = n - 1;
        match first_bad_signature(u, sighash, sigs, i as nat) {
            Some(b) => Some(b),
            None => if u.dummy_asks[i] is None && !spend_verifies(
                u.actions[i],
                sighash,
                sigs[real_actions(u.dummy_asks.take(i)).len() as int].0@,
            ) {
                Some(i)
            } else {
                None
            },
        }
    }
}

/// Whether the signature of an action is the one that belongs there: the device's own, or one
/// under the rerandomised key of the dummy.
pub open spec fn signature_belongs(
    u: UnauthorizedModel,
    sighash: Seq<u8>,
    device_sigs: Seq<SpendAuthSignature>,
    sig: Seq<u8>,
    i: int,
) -> bool {
    match u.dummy_asks[i] {
        None => sig == device_sigs[real_actions(u.dummy_asks.take(i)).len() as int].0@
            && spend_verifies(u.actions[i], sighash, sig),
        Some(ask) => crate::signature::spend_auth_verifies(
            crate::pallas::encode_point(
                crate::signature::randomized_key(
                    crate::pallas::point_product(crate::signature::spend_auth_generator(), ask),
                    u.alphas[i],
                ),
            ),
            sighash,
            sig,
        ),
    }
}

/// Whether a bundle is an unauthorised one with its signatures.
pub open spec fn authorized(
    u: UnauthorizedModel,
    sighash: Seq<u8>,
    device_sigs: Seq<SpendAuthSignature>,
    b: BundleModel,
) -> bool {
    &&& b.anchor == u.anchor
    &&& b.now == u.now
    &&& b.community == u.community
    &&& b.actions == u.actions
    &&& b.proof == u.proof
    &&& b.spend_auth_sigs.len() == u.actions.len()
    &&& forall|i: int|
        0 <= i < u.actions.len() ==> signature_belongs(
            u,
            sighash,
            device_sigs,
            #[trigger] b.spend_auth_sigs[i],
            i,
        )
    &&& crate::signature::binding_verifies(
        crate::pallas::encode_point(
            crate::pallas::point_product(
                crate::signature::randomness_generator(),
                crate::signature::sum_of_scalars(u.rcvs),
            ),
        ),
        sighash,
        b.binding_sig,
    )
}

proof fn lemma_real_bounds(dummy_asks: Seq<Option<nat>>, n: int)
    requires
        0 <= n <= dummy_asks.len(),
    ensures
        real_actions(dummy_asks.take(n)).len() <= real_actions(dummy_asks).len(),
        n < dummy_asks.len() && dummy_asks[n] is None ==> real_actions(dummy_asks.take(n)).len()
            < real_actions(dummy_asks).len(),
    decreases dummy_asks.len(),
{
    if n < dummy_asks.len() {
        let front = dummy_asks.drop_last();
        assert(front.take(n) =~= dummy_asks.take(n));
        if n < front.len() {
            lemma_real_bounds(front, n);
        } else {
            assert(front =~= dummy_asks.take(n));
        }
    } else {
        assert(dummy_asks.take(n) =~= dummy_asks);
    }
}

/// Random values of the signatures that the builder adds.
#[derive(Clone, Copy, Debug)]
pub struct AuthorizeRandomness {
    pub spends: [[u8; 32]; 2],
    pub binding: [u8; 32],
}

impl UnauthorizedBundle {
    pub fn sighash(&self) -> (r: [u8; 32])
        ensures
            r@ == hash_of_bundle(self@.anchor, self@.now, self@.community, self@.actions),
    {
        sighash(self.anchor, self.now, self.community, self.actions.as_slice())
    }

    /// The serialised `ShieldedBundle` for the transaction body.
    pub fn shielded_bytes(&self) -> (r: Vec<u8>)
        ensures
            r@ == crate::wire::shielded_bytes(self@.anchor, self@.actions),
    {
        crate::wire::encode_shielded(self.anchor, self.actions.as_slice())
    }

    /// What the signing device needs (`crate::signer`): the body the bundle was put into, the
    /// openings of all created notes, and the rerandomisers of the real spends. Build the bundle
    /// with the owner's `ovk`, or the device cannot check the outgoing ciphertexts.
    pub fn signing_request(&self, body: Vec<u8>) -> (r: SigningRequest)
        requires
            self@.complete(),
        ensures
            r@ == request_for(self@, body@),
    {
        let ghost u = self@;
        let mut outputs: Vec<OutputOpening> = Vec::new();
        let mut k: usize = 0;
        while k < self.secrets.outputs.len()
            invariant
                k <= self.secrets.outputs@.len(),
                outputs@.len() == k,
                forall|j: int| 0 <= j < k ==> #[trigger] outputs@[j] == self.secrets.outputs@[j],
            decreases self.secrets.outputs@.len() - k,
        {
            outputs.push(self.secrets.outputs[k]);
            k = k + 1;
        }
        assert(outputs@ =~= self.secrets.outputs@);
        let mut alphas: Vec<Option<Scalar>> = Vec::new();
        let mut i: usize = 0;
        while i < self.actions.len()
            invariant
                i <= self.actions@.len(),
                u == self@,
                u.complete(),
                alphas@.len() == i,
                forall|j: int|
                    0 <= j < i ==> crate::signer::alpha_view(#[trigger] alphas@[j]) == (
                    if u.dummy_asks[j] is None {
                        Some(u.alphas[j])
                    } else {
                        None
                    }),
            decreases self.actions@.len() - i,
        {
            assert(u.dummy_asks.len() == self.secrets.dummy_asks@.len());
            assert(u.alphas.len() == self.alphas@.len());
            assert(u.dummy_asks[i as int] == ask_view(self.secrets.dummy_asks@[i as int]));
            assert(u.alphas[i as int] == self.alphas@[i as int]@);
            if self.secrets.dummy_asks[i].is_none() {
                alphas.push(Some(self.alphas[i]));
            } else {
                alphas.push(None);
            }
            i = i + 1;
        }
        let r = SigningRequest { body, outputs, alphas };
        assert(r@ =~= request_for(u, body@));
        r
    }

    /// Indices of the actions whose spend the device has to sign.
    pub fn real_spends(&self) -> (r: Vec<usize>)
        requires
            self@.complete(),
        ensures
            r@.map_values(|i: usize| i as int) == real_actions(self@.dummy_asks),
    {
        let ghost all = self@.dummy_asks;
        let mut r: Vec<usize> = Vec::new();
        let mut i: usize = 0;
        assert(all.take(0) =~= Seq::empty());
        assert(r@.map_values(|i: usize| i as int) =~= Seq::empty());
        while i < self.actions.len()
            invariant
                i <= self.actions@.len(),
                all == self@.dummy_asks,
                all.len() == self.actions@.len(),
                all.len() == self.secrets.dummy_asks@.len(),
                r@.map_values(|i: usize| i as int) == real_actions(all.take(i as int)),
            decreases self.actions@.len() - i,
        {
            let ghost before = r@;
            assert(all.take(i + 1).drop_last() =~= all.take(i as int));
            assert(all[i as int] == ask_view(self.secrets.dummy_asks@[i as int]));
            if self.secrets.dummy_asks[i].is_none() {
                r.push(i);
                assert(r@.map_values(|i: usize| i as int) =~= before.map_values(
                    |i: usize| i as int,
                ).push(i as int));
            }
            i = i + 1;
        }
        assert(all.take(i as int) =~= all);
        r
    }

    /// Adds the binding signature and the dummy spend signatures. `device_sigs` holds the
    /// signatures of the real spends, in the order of `real_spends()`; each one is checked, so a
    /// wrong signature from the device is reported here and not only by the node.
    pub fn authorize(
        self,
        sighash: &[u8; 32],
        device_sigs: Vec<SpendAuthSignature>,
        randomness: &AuthorizeRandomness,
    ) -> (r: Result<Bundle, AuthorizeError>)
        requires
            self@.complete(),
            self@.actions.len() == ACTIONS,
        ensures
            ({
                let expected = real_actions(self@.dummy_asks).len();
                let bad = first_bad_signature(self@, sighash@, device_sigs@, ACTIONS as nat);
                match r {
                    Ok(b) => {
                        &&& device_sigs@.len() == expected
                        &&& bad is None
                        &&& authorized(self@, sighash@, device_sigs@, b@)
                    },
                    Err(AuthorizeError::SignatureCount { expected: e, got }) => {
                        &&& device_sigs@.len() != expected
                        &&& e == expected
                        &&& got == device_sigs@.len()
                    },
                    Err(AuthorizeError::BadSignature(i)) => {
                        &&& device_sigs@.len() == expected
                        &&& bad == Some(i as int)
                    },
                }
            }),
    {
        let ghost u = self@;
        let expected: usize = self.real_spends().len();
        assert(expected == real_actions(u.dummy_asks).len());
        if device_sigs.len() != expected {
            return Err(AuthorizeError::SignatureCount { expected, got: device_sigs.len() });
        }
        let mut next: usize = 0;
        let mut sigs: Vec<SpendAuthSignature> = Vec::new();
        let mut i: usize = 0;
        assert(u.dummy_asks.take(0) =~= Seq::empty());
        while i < ACTIONS
            invariant
                i <= ACTIONS,
                u == self@,
                u.complete(),
                u.actions.len() == ACTIONS,
                u.actions == action_models(self.actions@),
                u.alphas == crate::signature::scalar_values(self.alphas@),
                u.dummy_asks == self.secrets.dummy_asks@.map_values(
                    |a: Option<SpendAuthorizingKey>| ask_view(a),
                ),
                device_sigs@.len() == real_actions(u.dummy_asks).len(),
                next == real_actions(u.dummy_asks.take(i as int)).len(),
                next <= i,
                first_bad_signature(u, sighash@, device_sigs@, i as nat) is None,
                sigs@.len() == i,
                forall|j: int|
                    0 <= j < i ==> signature_belongs(
                        u,
                        sighash@,
                        device_sigs@,
                        (#[trigger] sigs@[j]).0@,
                        j,
                    ),
            decreases ACTIONS - i,
        {
            proof {
                assert(u.dummy_asks.take(i + 1).drop_last() =~= u.dummy_asks.take(i as int));
                lemma_real_bounds(u.dummy_asks, i as int);
                assert(u.dummy_asks[i as int] == ask_view(self.secrets.dummy_asks@[i as int]));
                assert(u.actions[i as int] == self.actions@[i as int]@);
                assert(u.alphas[i as int] == self.alphas@[i as int]@);
            }
            let sig = match &self.secrets.dummy_asks[i] {
                Some(ask) => crate::signature::sign_spend_auth(
                    ask,
                    self.alphas[i],
                    sighash,
                    &randomness.spends[i],
                ),
                None => {
                    let sig = device_sigs[next];
                    let rk = SpendAuthVerificationKey(self.actions[i].rk);
                    if !crate::signature::verify_spend_auth(&rk, sighash, &sig) {
                        proof {
                            lemma_bad_stays(u, sighash@, device_sigs@, (i + 1) as nat);
                        }
                        return Err(AuthorizeError::BadSignature(i));
                    }
                    next = next + 1;
                    sig
                },
            };
            sigs.push(sig);
            i = i + 1;
        }
        let binding_sig = crate::signature::sign_binding(
            self.secrets.rcvs.as_slice(),
            sighash,
            &randomness.binding,
        );
        let b = Bundle {
            anchor: self.anchor,
            now: self.now,
            community: self.community,
            actions: self.actions,
            proof: self.proof,
            spend_auth_sigs: sigs,
            binding_sig,
        };
        assert(forall|j: int| 0 <= j < 2 ==> b@.spend_auth_sigs[j] == (#[trigger] sigs@[j]).0@);
        Ok(b)
    }
}

proof fn lemma_bad_stays(
    u: UnauthorizedModel,
    sighash: Seq<u8>,
    sigs: Seq<SpendAuthSignature>,
    n: nat,
)
    requires
        n <= 2,
        first_bad_signature(u, sighash, sigs, n) is Some,
    ensures
        first_bad_signature(u, sighash, sigs, 2) == first_bad_signature(u, sighash, sigs, n),
    decreases 2 - n,
{
    if n < 2 {
        lemma_bad_stays(u, sighash, sigs, n + 1);
    }
}

/// Signs one spend with `ask` over a given sighash, blindly. A device must not sign what it has
/// not checked; it uses `signer::sign`, which computes the sighash from the body it reviewed.
/// This stays for tests and for callers that built the transfer themselves.
pub fn sign_spend(
    ask: &SpendAuthorizingKey,
    alpha: Scalar,
    sighash: &[u8; 32],
    entropy: &[u8; 32],
) -> (r: SpendAuthSignature)
    ensures
        crate::signature::spend_auth_verifies(
            crate::pallas::encode_point(
                crate::signature::randomized_key(
                    crate::pallas::point_product(
                        crate::signature::spend_auth_generator(),
                        ask.0@,
                    ),
                    alpha@,
                ),
            ),
            sighash@,
            r.0@,
        ),
{
    crate::signature::sign_spend_auth(ask, alpha, sighash, entropy)
}

// ------------------------------------------------------------------------------ verification

#[derive(Debug, PartialEq, Eq)]
pub enum VerifyError {
    WrongActionCount,
    /// the tree cannot take the new notes
    TreeFull,
    UnknownAnchor,
    DoubleSpend(DoubleSpend),
    Proof,
    SpendAuth(usize),
    Binding,
}

/// What a bundle is told.
pub enum Verdict {
    Accepted,
    WrongActionCount,
    TreeFull,
    UnknownAnchor,
    /// the nullifier that is spent twice
    DoubleSpend(nat),
    Proof,
    SpendAuth(int),
    Binding,
}

pub open spec fn verdict_of(r: Result<(), VerifyError>) -> Verdict {
    match r {
        Ok(_) => Verdict::Accepted,
        Err(VerifyError::WrongActionCount) => Verdict::WrongActionCount,
        Err(VerifyError::TreeFull) => Verdict::TreeFull,
        Err(VerifyError::UnknownAnchor) => Verdict::UnknownAnchor,
        Err(VerifyError::DoubleSpend(d)) => Verdict::DoubleSpend(crate::bytes::le_nat(d.0@)),
        Err(VerifyError::Proof) => Verdict::Proof,
        Err(VerifyError::SpendAuth(i)) => Verdict::SpendAuth(i as int),
        Err(VerifyError::Binding) => Verdict::Binding,
    }
}

/// The first of the first `n` actions without a valid spend authorisation.
pub open spec fn first_unauthorized(b: BundleModel, sighash: Seq<u8>, n: nat) -> Option<int>
    decreases n,
{
    if n == 0 {
        None
    } else {
        let i = n - 1;
        match first_unauthorized(b, sighash, i as nat) {
            Some(j) => Some(j),
            None => if b.actions[i].rk == 0 || !spend_verifies(
                b.actions[i],
                sighash,
                b.spend_auth_sigs[i],
            ) {
                Some(i)
            } else {
                None
            },
        }
    }
}

/// The value commitments of actions.
pub open spec fn value_commitments(actions: Seq<ActionModel>) -> Seq<nat> {
    actions.map_values(|a: ActionModel| a.cv_net)
}

/// Whether the binding signature verifies under the sum of the value commitments.
pub open spec fn binding_holds(b: BundleModel, sighash: Seq<u8>) -> bool {
    crate::signature::binding_verifies(
        crate::pallas::encode_point(
            crate::signature::binding_key(value_commitments(b.actions), 0),
        ),
        sighash,
        b.binding_sig,
    )
}

/// What proof and signatures say of a bundle.
pub open spec fn crypto_verdict(b: BundleModel, sighash: Seq<u8>, proof_holds: bool) -> Verdict {
    if b.actions.len() != ACTIONS || b.spend_auth_sigs.len() != ACTIONS {
        Verdict::WrongActionCount
    } else if b.proof.len() != PROOF_SIZE {
        Verdict::Proof
    } else {
        match first_unauthorized(b, sighash, ACTIONS as nat) {
            Some(i) => Verdict::SpendAuth(i),
            None => if !binding_holds(b, sighash) {
                Verdict::Binding
            } else if !proof_holds {
                Verdict::Proof
            } else {
                Verdict::Accepted
            },
        }
    }
}

proof fn lemma_unauthorized_stays(b: BundleModel, sighash: Seq<u8>, n: nat)
    requires
        n <= 2,
        first_unauthorized(b, sighash, n) is Some,
    ensures
        first_unauthorized(b, sighash, 2) == first_unauthorized(b, sighash, n),
    decreases 2 - n,
{
    if n < 2 {
        lemma_unauthorized_stays(b, sighash, n + 1);
    }
}

/// Public inputs of every action, in proof order.
pub fn instances(community: Base, anchor: Base, now: u64, actions: &[Action]) -> (r: Vec<Vec<Base>>)
    ensures
        r@.len() == actions@.len(),
        forall|i: int|
            0 <= i < r@.len() ==> crate::hash::values((#[trigger] r@[i])@)
                == crate::circuit::action_slice::public_inputs(
                community@,
                anchor@,
                actions@[i]@.nullifier,
                actions@[i]@.rk,
                actions@[i]@.cm,
                actions@[i]@.cv_net,
                now,
            ),
{
    let mut r: Vec<Vec<Base>> = Vec::new();
    let mut i: usize = 0;
    while i < actions.len()
        invariant
            i <= actions@.len(),
            r@.len() == i,
            forall|j: int|
                0 <= j < i ==> crate::hash::values((#[trigger] r@[j])@)
                    == crate::circuit::action_slice::public_inputs(
                    community@,
                    anchor@,
                    actions@[j]@.nullifier,
                    actions@[j]@.rk,
                    actions@[j]@.cm,
                    actions@[j]@.cv_net,
                    now,
                ),
        decreases actions@.len() - i,
    {
        let a = &actions[i];
        r.push(
            ActionSliceCircuit::<true, true>::instance(
                community,
                anchor,
                a.nullifier,
                a.rk,
                a.cm,
                a.cv_net,
                now,
            ),
        );
        i = i + 1;
    }
    r
}

/// Proof and signatures only, everything that does not need the ledger state. `proof_holds` is
/// what the verifier of the proof says for `bundle.proof` and the `instances` of the bundle. The
/// signatures are checked first: they are cheaper than the proof.
pub fn verify_bundle_crypto(bundle: &Bundle, sighash: &[u8; 32], proof_holds: bool) -> (r: Result<
    (),
    VerifyError,
>)
    ensures
        verdict_of(r) == crypto_verdict(bundle@, sighash@, proof_holds),
{
    if bundle.actions.len() != ACTIONS || bundle.spend_auth_sigs.len() != ACTIONS {
        return Err(VerifyError::WrongActionCount);
    }
    if bundle.proof.len() != PROOF_SIZE {
        return Err(VerifyError::Proof);
    }
    let ghost b = bundle@;
    let mut cvs: Vec<Point> = Vec::new();
    let mut i: usize = 0;
    while i < ACTIONS
        invariant
            i <= ACTIONS,
            b == bundle@,
            bundle.actions@.len() == ACTIONS,
            bundle.spend_auth_sigs@.len() == ACTIONS,
            b.proof.len() == PROOF_SIZE,
            first_unauthorized(b, sighash@, i as nat) is None,
            cvs@.len() == i,
            forall|j: int| 0 <= j < i ==> #[trigger] cvs@[j] == bundle.actions@[j].cv_net,
        decreases ACTIONS - i,
    {
        let action = &bundle.actions[i];
        proof {
            assert(b.actions[i as int] == action@);
            assert(b.spend_auth_sigs[i as int] == bundle.spend_auth_sigs@[i as int].0@);
            if first_unauthorized(b, sighash@, (i + 1) as nat) is Some {
                lemma_unauthorized_stays(b, sighash@, (i + 1) as nat);
            }
        }
        if action.rk.is_identity() {
            return Err(VerifyError::SpendAuth(i));
        }
        let rk = SpendAuthVerificationKey(action.rk);
        if !crate::signature::verify_spend_auth(&rk, sighash, &bundle.spend_auth_sigs[i]) {
            return Err(VerifyError::SpendAuth(i));
        }
        cvs.push(action.cv_net);
        i = i + 1;
    }
    assert(crate::signature::logs(cvs@) =~= value_commitments(b.actions));
    let bvk = match crate::signature::binding_verification_key(cvs.as_slice(), 0) {
        Some(bvk) => bvk,
        None => return Err(VerifyError::Binding),
    };
    if !crate::signature::verify_binding(&bvk, sighash, &bundle.binding_sig) {
        return Err(VerifyError::Binding);
    }
    if !proof_holds {
        return Err(VerifyError::Proof);
    }
    Ok(())
}

// ------------------------------------------------------------------------------ ledger

/// Roots a bundle may still use as anchor. At a hundred transactions per second this is about
/// three minutes, enough for building, proving, signing on a device and ordering. The node keeps
/// its own history and may choose a time window instead.
pub const ANCHOR_HISTORY: usize = 20_000;

/// `AnchorHistory` with a sensible default size.
pub struct AnchorHistoryWrapper(pub AnchorHistory);

impl Default for AnchorHistoryWrapper {
    fn default() -> (r: Self)
        ensures
            r.0.roots() == Seq::<nat>::empty(),
            r.0.limit() == ANCHOR_HISTORY,
            r.0.wf(),
    {
        Self(AnchorHistory::new(ANCHOR_HISTORY))
    }
}

/// The ledger state a node keeps for one community.
pub struct Ledger {
    pub tree: CommitmentTree,
    pub anchors: AnchorHistoryWrapper,
    pub nullifiers: NullifierSet,
}

impl Default for Ledger {
    fn default() -> (r: Self)
        ensures
            r.wf(),
            r.tree.leaves() == Seq::<nat>::empty(),
            r.tree.marks() == Set::<nat>::empty(),
            r.tree.sealed() == 0,
            r.tree.checkpoints() == Seq::<(u64, nat)>::empty(),
            r.tree.limit() == crate::tree::DEFAULT_CHECKPOINTS,
            r.anchors.0.roots() == Seq::<nat>::empty(),
            r.anchors.0.limit() == ANCHOR_HISTORY,
            r.nullifiers@ == Set::<nat>::empty(),
    {
        Self {
            tree: CommitmentTree::default(),
            anchors: AnchorHistoryWrapper::default(),
            nullifiers: NullifierSet::default(),
        }
    }
}

/// The first nullifier that is spent already.
pub open spec fn first_spent(spent: Set<nat>, nullifiers: Seq<nat>) -> Option<nat>
    decreases nullifiers.len(),
{
    if nullifiers.len() == 0 {
        None
    } else {
        match first_spent(spent, nullifiers.drop_last()) {
            Some(n) => Some(n),
            None => if spent.contains(nullifiers.last()) {
                Some(nullifiers.last())
            } else {
                None
            },
        }
    }
}

/// What the ledger says of a bundle.
pub open spec fn ledger_verdict(
    leaves: Seq<nat>,
    roots: Seq<nat>,
    spent: Set<nat>,
    b: BundleModel,
    sighash: Seq<u8>,
    proof_holds: bool,
) -> Verdict {
    let nullifiers = nullifiers_of(b.actions);
    if b.actions.len() != ACTIONS || b.spend_auth_sigs.len() != ACTIONS {
        Verdict::WrongActionCount
    } else if leaves.len() + ACTIONS > crate::tree::TREE_CAPACITY {
        Verdict::TreeFull
    } else if !roots.contains(b.anchor) {
        Verdict::UnknownAnchor
    } else {
        match (
            crate::tree::first_double_spend(Set::<nat>::empty(), nullifiers),
            first_spent(spent, nullifiers),
        ) {
            (Some(n), _) => Verdict::DoubleSpend(n),
            (None, Some(n)) => Verdict::DoubleSpend(n),
            (None, None) => crypto_verdict(b, sighash, proof_holds),
        }
    }
}

/// The commitments of actions.
pub open spec fn commitments_of(actions: Seq<ActionModel>) -> Seq<nat> {
    actions.map_values(|a: ActionModel| a.cm)
}

proof fn lemma_spent_is_first(spent: Set<nat>, nullifiers: Seq<nat>, n: int)
    requires
        0 <= n <= nullifiers.len(),
        first_spent(spent, nullifiers.take(n)) is Some,
    ensures
        first_spent(spent, nullifiers) == first_spent(spent, nullifiers.take(n)),
    decreases nullifiers.len(),
{
    if n == nullifiers.len() {
        assert(nullifiers.take(n) =~= nullifiers);
    } else {
        assert(nullifiers.drop_last().take(n) =~= nullifiers.take(n));
        lemma_spent_is_first(spent, nullifiers.drop_last(), n);
    }
}

/// Neither spent before nor repeated.
proof fn lemma_fresh(spent: Set<nat>, nullifiers: Seq<nat>)
    requires
        crate::tree::first_double_spend(Set::<nat>::empty(), nullifiers) is None,
        first_spent(spent, nullifiers) is None,
    ensures
        crate::tree::first_double_spend(spent, nullifiers) is None,
    decreases nullifiers.len(),
{
    if nullifiers.len() > 0 {
        lemma_fresh(spent, nullifiers.drop_last());
    }
}

proof fn lemma_double_spend_occurs(spent: Set<nat>, nullifiers: Seq<nat>)
    requires
        crate::tree::first_double_spend(spent, nullifiers) is Some,
    ensures
        nullifiers.contains(crate::tree::first_double_spend(spent, nullifiers)->0),
    decreases nullifiers.len(),
{
    let front = nullifiers.drop_last();
    if crate::tree::first_double_spend(spent, front) is Some {
        lemma_double_spend_occurs(spent, front);
        let n = crate::tree::first_double_spend(spent, front)->0;
        let i = choose|i: int| 0 <= i < front.len() && front[i] == n;
        assert(nullifiers[i] == n);
    } else {
        assert(nullifiers[nullifiers.len() - 1] == nullifiers.last());
    }
}

impl Ledger {
    /// Tree, history and nullifiers are sound.
    pub open spec fn wf(self) -> bool {
        &&& self.tree.wf()
        &&& self.anchors.0.wf()
        &&& self.nullifiers.wf()
    }

    pub fn new() -> (r: Self)
        ensures
            r.wf(),
            r.tree.leaves() == Seq::<nat>::empty(),
            r.tree.marks() == Set::<nat>::empty(),
            r.tree.sealed() == 0,
            r.tree.checkpoints() == Seq::<(u64, nat)>::empty(),
            r.tree.limit() == crate::tree::DEFAULT_CHECKPOINTS,
            r.anchors.0.roots() == seq![crate::tree::tree_root(Seq::<nat>::empty())],
            r.anchors.0.limit() == ANCHOR_HISTORY,
            r.nullifiers@ == Set::<nat>::empty(),
    {
        let mut ledger = Self::default();
        let root = ledger.tree.root();
        ledger.anchors.0.push(root);
        assert(ledger.anchors.0.roots() =~= seq![
            crate::tree::tree_root(Seq::<nat>::empty()),
        ]);
        ledger
    }

    /// Adds a note commitment from outside a bundle (creation, migration).
    pub fn add_note(&mut self, cm: Base) -> (r: Result<u64, VerifyError>)
        requires
            old(self).wf(),
        ensures
            final(self).wf(),
            final(self).nullifiers == old(self).nullifiers,
            match r {
                Ok(position) => {
                    &&& position as nat == old(self).tree.leaves().len()
                    &&& final(self).tree.leaves() == old(self).tree.leaves().push(cm@)
                    &&& final(self).tree.marks() == old(self).tree.marks().insert(position as nat)
                    &&& final(self).tree.sealed_once_since(old(self).tree)
                    &&& final(self).anchors.0.roots() == crate::tree::history_with(
                        old(self).anchors.0.roots(),
                        old(self).anchors.0.limit(),
                        crate::tree::tree_root(final(self).tree.leaves()),
                    )
                    &&& final(self).anchors.0.limit() == old(self).anchors.0.limit()
                },
                Err(e) => {
                    &&& e == VerifyError::TreeFull
                    &&& old(self).tree.leaves().len() >= crate::tree::TREE_CAPACITY
                    &&& final(self).tree.leaves() == old(self).tree.leaves()
                    &&& final(self).tree.marks() == old(self).tree.marks()
                    &&& final(self).tree.sealed() == old(self).tree.sealed()
                    &&& final(self).tree.checkpoints() == old(self).tree.checkpoints()
                    &&& final(self).tree.limit() == old(self).tree.limit()
                    &&& final(self).anchors == old(self).anchors
                },
            },
    {
        let position = match self.tree.append(cm, true) {
            Some(position) => position,
            None => return Err(VerifyError::TreeFull),
        };
        self.tree.checkpoint();
        self.anchors.0.push(self.tree.root());
        Ok(position)
    }

    /// Checks a bundle against the current state without changing it. `sighash` is what the
    /// signatures cover: `Bundle::sighash()` standalone, the hash of `body_bytes` in a
    /// transaction. `proof_holds` is what the verifier of the proof says.
    pub fn verify(&self, bundle: &Bundle, sighash: &[u8; 32], proof_holds: bool) -> (r: Result<
        (),
        VerifyError,
    >)
        requires
            self.wf(),
        ensures
            verdict_of(r) == ledger_verdict(
                self.tree.leaves(),
                self.anchors.0.roots(),
                self.nullifiers@,
                bundle@,
                sighash@,
                proof_holds,
            ),
    {
        if bundle.actions.len() != ACTIONS || bundle.spend_auth_sigs.len() != ACTIONS {
            return Err(VerifyError::WrongActionCount);
        }
        if !self.tree.has_room_for(ACTIONS) {
            return Err(VerifyError::TreeFull);
        }
        if !self.anchors.0.contains(&bundle.anchor) {
            return Err(VerifyError::UnknownAnchor);
        }
        let nullifiers = bundle.nullifiers();
        let ghost all = crate::hash::values(nullifiers@);
        assert(all.len() == nullifiers@.len());
        let mut probe = NullifierSet::default();
        match probe.insert_all(nullifiers.as_slice()) {
            Ok(_) => {},
            Err(e) => {
                proof {
                    let n = crate::tree::first_double_spend(Set::<nat>::empty(), all)->0;
                    lemma_double_spend_occurs(Set::<nat>::empty(), all);
                    let i = choose|i: int| 0 <= i < all.len() && all[i] == n;
                    crate::pallas::lemma_base_fits(nullifiers[i]);
                    crate::bytes::lemma_pow256_values();
                    crate::bytes::lemma_le_nat_of_le_bytes(n, 32);
                }
                return Err(VerifyError::DoubleSpend(e));
            },
        }
        let mut i: usize = 0;
        assert(all.take(0) =~= Seq::empty());
        while i < nullifiers.len()
            invariant
                i <= nullifiers@.len(),
                all == crate::hash::values(nullifiers@),
                all == nullifiers_of(bundle@.actions),
                bundle.actions@.len() == ACTIONS,
                bundle.spend_auth_sigs@.len() == ACTIONS,
                self.tree.leaves().len() + ACTIONS <= crate::tree::TREE_CAPACITY,
                self.anchors.0.roots().contains(bundle.anchor@),
                crate::tree::first_double_spend(Set::<nat>::empty(), all) is None,
                first_spent(self.nullifiers@, all.take(i as int)) is None,
            decreases nullifiers@.len() - i,
        {
            proof {
                assert(all.take(i + 1).drop_last() =~= all.take(i as int));
                assert(all.take(i + 1).last() == nullifiers@[i as int]@);
            }
            let nf = nullifiers[i];
            if self.nullifiers.contains(&nf) {
                proof {
                    lemma_spent_is_first(self.nullifiers@, all, i as int + 1);
                    use_type_invariant(&nf);
                    crate::bytes::lemma_pow256_values();
                    crate::bytes::lemma_le_nat_of_le_bytes(nf@, 32);
                }
                return Err(VerifyError::DoubleSpend(DoubleSpend(nf.to_repr())));
            }
            i = i + 1;
        }
        assert(all.take(i as int) =~= all);
        verify_bundle_crypto(bundle, sighash, proof_holds)
    }

    /// Verifies and, if valid, applies the bundle: nullifiers spent, new notes in the tree.
    /// Every check runs in `verify`, so nothing below can fail halfway.
    pub fn apply(&mut self, bundle: &Bundle, sighash: &[u8; 32], proof_holds: bool) -> (r: Result<
        (),
        VerifyError,
    >)
        requires
            old(self).wf(),
        ensures
            final(self).wf(),
            verdict_of(r) == ledger_verdict(
                old(self).tree.leaves(),
                old(self).anchors.0.roots(),
                old(self).nullifiers@,
                bundle@,
                sighash@,
                proof_holds,
            ),
            r is Err ==> *final(self) == *old(self),
            r is Ok ==> {
                &&& final(self).tree.leaves() == old(self).tree.leaves() + commitments_of(
                    bundle@.actions,
                )
                &&& final(self).tree.marks() == old(self).tree.marks()
                &&& final(self).tree.sealed_once_since(old(self).tree)
                &&& final(self).anchors.0.roots() == crate::tree::history_with(
                    old(self).anchors.0.roots(),
                    old(self).anchors.0.limit(),
                    crate::tree::tree_root(final(self).tree.leaves()),
                )
                &&& final(self).anchors.0.roots().contains(
                    crate::tree::tree_root(final(self).tree.leaves()),
                )
                &&& final(self).anchors.0.limit() == old(self).anchors.0.limit()
                &&& final(self).nullifiers@ == old(self).nullifiers@.union(
                    nullifiers_of(bundle@.actions).to_set(),
                )
                &&& final(self).nullifiers@.len() == old(self).nullifiers@.len() + ACTIONS
            },
    {
        match self.verify(bundle, sighash, proof_holds) {
            Ok(_) => {},
            Err(e) => return Err(e),
        }
        let nullifiers = bundle.nullifiers();
        proof {
            assert(crate::hash::values(nullifiers@).len() == nullifiers@.len());
            lemma_fresh(self.nullifiers@, crate::hash::values(nullifiers@));
        }
        match self.nullifiers.insert_all(nullifiers.as_slice()) {
            Ok(_) => {},
            Err(e) => return Err(VerifyError::DoubleSpend(e)),
        }
        let ghost before = old(self).tree.leaves();
        let ghost cms = commitments_of(bundle@.actions);
        let mut i: usize = 0;
        assert(before + cms.take(0) =~= before);
        while i < bundle.actions.len()
            invariant
                i <= bundle.actions@.len(),
                bundle.actions@.len() == ACTIONS,
                before.len() + ACTIONS <= crate::tree::TREE_CAPACITY,
                cms == commitments_of(bundle@.actions),
                self.tree.leaves() == before + cms.take(i as int),
                self.tree.marks() == old(self).tree.marks(),
                self.tree.sealed() == old(self).tree.sealed(),
                self.tree.checkpoints() == old(self).tree.checkpoints(),
                self.tree.limit() == old(self).tree.limit(),
                self.anchors == old(self).anchors,
                self.wf(),
                self.nullifiers@ == old(self).nullifiers@.union(
                    nullifiers_of(bundle@.actions).to_set(),
                ),
                self.nullifiers@.len() == old(self).nullifiers@.len() + ACTIONS,
            decreases bundle.actions@.len() - i,
        {
            let appended = self.tree.append(bundle.actions[i].cm, false);
            proof {
                assert(appended is Some);
                assert(cms[i as int] == bundle.actions@[i as int].cm@);
                assert(self.tree.leaves() =~= before + cms.take(i + 1));
            }
            i = i + 1;
        }
        assert(cms.take(i as int) =~= cms);
        self.tree.checkpoint();
        self.anchors.0.push(self.tree.root());
        proof {
            crate::tree::history_forgets_the_oldest_root(
                old(self).anchors.0.roots(),
                old(self).anchors.0.limit(),
                crate::tree::tree_root(self.tree.leaves()),
            );
        }
        Ok(())
    }
}

// --------------------------------------------------------------------------------------- laws

/// A bundle whose nullifiers are spent is never accepted, whatever happened since: if there is
/// still room and its anchor is still known, it is a double spend.
pub proof fn a_bundle_cannot_be_applied_twice(
    leaves: Seq<nat>,
    roots: Seq<nat>,
    spent: Set<nat>,
    b: BundleModel,
    sighash: Seq<u8>,
    proof_holds: bool,
)
    requires
        nullifiers_of(b.actions).to_set().subset_of(spent),
    ensures
        ({
            let verdict = ledger_verdict(leaves, roots, spent, b, sighash, proof_holds);
            &&& !(verdict is Accepted)
            &&& b.actions.len() == ACTIONS && b.spend_auth_sigs.len() == ACTIONS && leaves.len()
                + ACTIONS <= crate::tree::TREE_CAPACITY && roots.contains(b.anchor)
                ==> verdict is DoubleSpend
        }),
{
    let nullifiers = nullifiers_of(b.actions);
    if b.actions.len() == ACTIONS {
        let first = nullifiers.take(1);
        assert(first.drop_last() =~= Seq::empty());
        assert(first_spent(spent, first.drop_last()) is None);
        assert(first.last() == nullifiers[0]);
        assert(nullifiers.contains(nullifiers[0]));
        assert(nullifiers.to_set().contains(nullifiers[0]));
        assert(spent.contains(nullifiers[0]));
        assert(first_spent(spent, first) is Some);
        lemma_spent_is_first(spent, nullifiers, 1);
    }
}

/// Whether the notes of spends can be decayed.
pub open spec fn values_hold(spends: Seq<SpendModel>) -> bool {
    forall|i: int|
        0 <= i < spends.len() ==> (#[trigger] spends[i]).note.value < crate::note::VALUE_LIMIT
}

proof fn lemma_totals(
    community: nat,
    now: u64,
    spends: Seq<SpendModel>,
    outputs: Seq<OutputModel>,
    randomness: BuildRandomness,
)
    requires
        build_error(community, now, spends, outputs, randomness) is None,
        paddings_hold(community, now, spends, randomness),
        values_hold(spends),
    ensures
        ({
            let v0 = net_value(
                now,
                spend_at(community, now, spends, randomness, 0),
                output_at(outputs, randomness, 0),
            );
            let v1 = net_value(
                now,
                spend_at(community, now, spends, randomness, 1),
                output_at(outputs, randomness, 1),
            );
            v0 + v1 == 0
        }),
{
    lemma_spends_are_usable(community, now, spends);
    let none: Seq<SpendModel> = Seq::empty();
    assert(spent_total(community, now, none) == Ok::<u64, BuildError>(0));
    assert(created_total(Seq::empty()) == Ok::<u64, BuildError>(0));
    lemma_padding_has_no_value(community, now, spends, outputs, randomness, 0);
    lemma_padding_has_no_value(community, now, spends, outputs, randomness, 1);
    if spends.len() > 0 {
        crate::decay::decay_never_increases(
            spends[0].note.value as nat,
            (now - spends[0].note.t_note) as nat,
        );
    }
    if spends.len() == 2 {
        crate::decay::decay_never_increases(
            spends[1].note.value as nat,
            (now - spends[1].note.t_note) as nat,
        );
        assert(spends.drop_last().drop_last() =~= none);
        assert(spends.drop_last().last() == spends[0]);
        assert(spends.last() == spends[1]);
    } else if spends.len() == 1 {
        assert(spends.drop_last() =~= none);
        assert(spends.last() == spends[0]);
    } else {
        assert(spends =~= none);
    }
    reveal_with_fuel(spent_total, 3);
    reveal_with_fuel(created_total, 3);
    if outputs.len() == 2 {
        assert(outputs.drop_last().drop_last() =~= Seq::empty());
        assert(outputs.drop_last().last() == outputs[0]);
        assert(outputs.last() == outputs[1]);
    } else if outputs.len() == 1 {
        assert(outputs.drop_last() =~= Seq::empty());
        assert(outputs.last() == outputs[0]);
    } else {
        assert(outputs =~= Seq::empty());
    }
}

/// Padding spends and outputs have no value.
proof fn lemma_padding_has_no_value(
    community: nat,
    now: u64,
    spends: Seq<SpendModel>,
    outputs: Seq<OutputModel>,
    randomness: BuildRandomness,
    i: int,
)
    requires
        0 <= i < 2,
        paddings_hold(community, now, spends, randomness),
    ensures
        i >= spends.len() ==> worth_at(
            spend_at(community, now, spends, randomness, i).note,
            now,
        ) == Some(0nat),
        i >= outputs.len() ==> output_at(outputs, randomness, i).value == 0,
{
    if i >= spends.len() {
        assert(dummy_note(community, now, randomness.spends@[i]) is Ok);
        crate::decay::no_time_no_decay(0);
    }
}

/// What the owner of an address receives can be spent: once the created note is in the tree, its
/// owner has an honest spend of it at any later time, with the authentication path of the tree.
/// `g_d` is the diversified base of the address.
pub proof fn a_received_note_can_be_spent(
    community: nat,
    now: u64,
    spend: SpendModel,
    output: OutputModel,
    rseed: Seq<u8>,
    key: ViewingKeyModel,
    g_d: Point,
    leaves: Seq<nat>,
    position: u32,
    later: u64,
)
    requires
        created_note(community, now, spend, output, rseed) is Ok,
        key.consistent(),
        output.address == key.address(output.address.d),
        g_d.valid(),
        g_d@ == crate::keys::diversified_base(output.address.d),
        position < leaves.len() <= crate::tree::TREE_CAPACITY,
        leaves[position as int] == created_note(community, now, spend, output, rseed)->Ok_0.cm(),
        now <= later,
    ensures
        honest_spend(
            community,
            crate::tree::tree_root(leaves),
            later,
            SpendModel {
                key,
                note: created_note(community, now, spend, output, rseed)->Ok_0,
                rseed,
                position,
                path: crate::tree::authentication_path(leaves, position as nat),
            },
        ),
{
    let note = created_note(community, now, spend, output, rseed)->Ok_0;
    crate::tree::witness_leads_to_the_root(leaves, position as nat);
    assert(crate::pallas::point_product(g_d@, key.ivk) == output.address.pk_d);
    assert(owns_note(key, note));
}

/// Prover and verifier see the same public inputs: those that a witness was built for are those
/// that a node computes from what the action publishes.
pub proof fn prover_and_verifier_agree(
    circuit: ActionCircuit,
    instance: Seq<nat>,
    community: nat,
    anchor: nat,
    now: u64,
    spend: SpendModel,
    output: OutputModel,
    ovk: Option<Seq<u8>>,
    r: ActionRandomness,
)
    requires
        action_ready(circuit, instance, community, anchor, now, spend, output, r),
    ensures
        ({
            let action = built_action(community, now, spend, output, ovk, r);
            instance == crate::circuit::action_slice::public_inputs(
                community,
                anchor,
                action.nullifier,
                action.rk,
                action.cm,
                action.cv_net,
                now,
            )
        }),
{
}

/// The signatures of an authorised bundle hold: a bundle that could be built and was authorised
/// passes every check of the node but that of the proof, which is left to its verifier.
pub proof fn authorized_bundle_is_accepted(
    community: nat,
    anchor: nat,
    now: u64,
    spends: Seq<SpendModel>,
    outputs: Seq<OutputModel>,
    ovk: Option<Seq<u8>>,
    randomness: BuildRandomness,
    proof_bytes: Seq<u8>,
    sighash: Seq<u8>,
    device_sigs: Seq<SpendAuthSignature>,
    b: BundleModel,
)
    requires
        build_error(community, now, spends, outputs, randomness) is None,
        paddings_hold(community, now, spends, randomness),
        values_hold(spends),
        ({
            let u = built(community, anchor, now, spends, outputs, ovk, randomness);
            authorized(
                UnauthorizedModel { proof: proof_bytes, ..u },
                sighash,
                device_sigs,
                b,
            )
        }),
        b.actions[0].rk != 0,
        b.actions[1].rk != 0,
        proof_bytes.len() == PROOF_SIZE,
    ensures
        crypto_verdict(b, sighash, true) is Accepted,
{
    let u = UnauthorizedModel {
        proof: proof_bytes,
        ..built(community, anchor, now, spends, outputs, ovk, randomness)
    };
    lemma_signature_holds(community, anchor, now, spends, outputs, ovk, randomness, u, sighash, device_sigs, b, 0);
    lemma_signature_holds(community, anchor, now, spends, outputs, ovk, randomness, u, sighash, device_sigs, b, 1);
    assert(first_unauthorized(b, sighash, 2) is None) by {
        reveal_with_fuel(first_unauthorized, 3);
    }
    lemma_built_values_balance(community, anchor, now, spends, outputs, ovk, randomness);
}

/// The value commitments of a bundle that could be built leave no value.
proof fn lemma_built_values_balance(
    community: nat,
    anchor: nat,
    now: u64,
    spends: Seq<SpendModel>,
    outputs: Seq<OutputModel>,
    ovk: Option<Seq<u8>>,
    randomness: BuildRandomness,
)
    requires
        build_error(community, now, spends, outputs, randomness) is None,
        paddings_hold(community, now, spends, randomness),
        values_hold(spends),
    ensures
        ({
            let u = built(community, anchor, now, spends, outputs, ovk, randomness);
            crate::signature::binding_key(value_commitments(u.actions), 0)
                == crate::pallas::point_product(
                crate::signature::randomness_generator(),
                crate::signature::sum_of_scalars(u.rcvs),
            )
        }),
{
    let u = built(community, anchor, now, spends, outputs, ovk, randomness);
    lemma_totals(community, now, spends, outputs, randomness);
    let v0 = net_value(
        now,
        spend_at(community, now, spends, randomness, 0),
        output_at(outputs, randomness, 0),
    );
    let v1 = net_value(
        now,
        spend_at(community, now, spends, randomness, 1),
        output_at(outputs, randomness, 1),
    );
    let values = seq![v0, v1];
    reveal_with_fuel(crate::signature::total, 3);
    assert(values.drop_last() =~= seq![v0]);
    assert(values.drop_last().drop_last() =~= Seq::<int>::empty());
    assert(crate::signature::total(values) == 0);
    crate::signature::balanced_values_give_the_binding_key(values, u.rcvs, 0);
    assert(value_commitments(u.actions) =~= crate::signature::commitments(values, u.rcvs));
}

proof fn lemma_signature_holds(
    community: nat,
    anchor: nat,
    now: u64,
    spends: Seq<SpendModel>,
    outputs: Seq<OutputModel>,
    ovk: Option<Seq<u8>>,
    randomness: BuildRandomness,
    u: UnauthorizedModel,
    sighash: Seq<u8>,
    device_sigs: Seq<SpendAuthSignature>,
    b: BundleModel,
    i: int,
)
    requires
        0 <= i < 2,
        u == (UnauthorizedModel {
            proof: u.proof,
            ..built(community, anchor, now, spends, outputs, ovk, randomness)
        }),
        authorized(u, sighash, device_sigs, b),
    ensures
        spend_verifies(b.actions[i], sighash, b.spend_auth_sigs[i]),
{
    assert(signature_belongs(u, sighash, device_sigs, b.spend_auth_sigs[i], i));
    let spend = spend_at(community, now, spends, randomness, i);
    assert(u.actions[i].rk == crate::signature::randomized_key(
        spend.key.ak,
        randomness.actions@[i].alpha@,
    ));
}

/// The transaction body that carries a bundle.
pub open spec fn body_with(now: u64, version_number: u32, shielded: Seq<u8>) -> Seq<u8> {
    crate::protobuf::message_bytes(crate::wire::body_fields(now, version_number, shielded))
}

proof fn lemma_body_carries_the_actions(
    anchor: nat,
    now: u64,
    version_number: u32,
    actions: Seq<ActionModel>,
)
    requires
        now < crate::note::TIMESTAMP_LIMIT,
        crate::wire::all_publishable(anchor, actions),
    ensures
        crate::signer::body_contents(
            body_with(now, version_number, crate::wire::shielded_bytes(anchor, actions)),
        ) == Ok::<(u64, Seq<ActionModel>), crate::wire::WireError>((now, actions)),
{
    let bytes = crate::wire::shielded_bytes(anchor, actions);
    crate::wire::encoded_actions_decode(anchor, actions);
    if bytes.len() == 0 {
        assert(crate::protobuf::tokens(bytes, true, 100) == Some(
            Seq::<(u32, crate::protobuf::Token)>::empty(),
        ));
        assert(crate::wire::ShieldedModel::of_fields(
            Seq::<(u32, crate::protobuf::Token)>::empty(),
        ) == Some(crate::wire::ShieldedModel::absent()));
    }
    crate::wire::encoded_body_parses(now, version_number, bytes);
}

/// An output whose memo a device can check.
pub open spec fn memo_shows(output: OutputModel) -> bool {
    output.memo_opening is Some ==> output.memo_cm != 0
}

proof fn lemma_action_passes(
    community: nat,
    now: u64,
    spend: SpendModel,
    output: OutputModel,
    key: ViewingKeyModel,
    r: ActionRandomness,
    alpha: Option<nat>,
    i: usize,
    before: crate::signer::Tally,
)
    requires
        created_note(community, now, spend, output, r.rseed@) is Ok,
        output_memo_matches(output),
        memo_shows(output),
        alpha is Some ==> alpha == Some(r.alpha@) && spend.key == key,
        before.change < 0x8000_0000_0000_0000,
    ensures
        ({
            let action = built_action(community, now, spend, output, Some(key.ovk), r);
            let opening = opening_for(output, r.rseed@);
            let after = before.with_action(i, action, opening, alpha, key, community, now);
            &&& after is Ok
            &&& alpha is Some ==> (after->Ok_0).spends == before.spends + 1
            &&& alpha is None ==> (after->Ok_0).spends == before.spends
            &&& (after->Ok_0).change <= before.change + output.value
            &&& output.value < crate::note::VALUE_LIMIT
        }),
{
    let action = built_action(community, now, spend, output, Some(key.ovk), r);
    let opening = opening_for(output, r.rseed@);
    let new = created_note(community, now, spend, output, r.rseed@)->Ok_0;
    assert(crate::signer::opened_note(opening, community, now, action.nullifier) == Ok::<
        NoteModel,
        NoteError,
    >(new));
    assert(crate::signer::ciphertexts_match(action, new, opening, key.ovk));
    assert(crate::signer::memo_matches(opening));
    assert(crate::signer::output_error(i, action, opening, key.ovk, community, now) is None);
}

/// The device signs what an honest builder sends it: the request for a bundle that was built with
/// the device's own viewing key, put into a transfer body, passes the review.
pub proof fn honest_request_passes_the_review(
    community: nat,
    anchor: nat,
    now: u64,
    spends: Seq<SpendModel>,
    outputs: Seq<OutputModel>,
    key: ViewingKeyModel,
    randomness: BuildRandomness,
    version_number: u32,
)
    requires
        build_error(community, now, spends, outputs, randomness) is None,
        spends.len() > 0,
        forall|i: int| 0 <= i < spends.len() ==> (#[trigger] spends[i]).key == key,
        forall|i: int| 0 <= i < outputs.len() ==> memo_shows(#[trigger] outputs[i]),
        crate::wire::all_publishable(
            anchor,
            built(community, anchor, now, spends, outputs, Some(key.ovk), randomness).actions,
        ),
    ensures
        ({
            let u = built(community, anchor, now, spends, outputs, Some(key.ovk), randomness);
            let body = body_with(
                now,
                version_number,
                crate::wire::shielded_bytes(anchor, u.actions),
            );
            let review = crate::signer::reviewed(request_for(u, body), key, community);
            &&& review is Ok
            &&& (review->Ok_0).created_at == now
            &&& (review->Ok_0).spends == spends.len()
        }),
{
    let u = built(community, anchor, now, spends, outputs, Some(key.ovk), randomness);
    let body = body_with(now, version_number, crate::wire::shielded_bytes(anchor, u.actions));
    let request = request_for(u, body);
    lemma_body_carries_the_actions(anchor, now, version_number, u.actions);
    lemma_memos_match(outputs);
    let none = crate::signer::Tally::none();
    reveal_with_fuel(first_note_error, 3);
    let s0 = spend_at(community, now, spends, randomness, 0);
    let s1 = spend_at(community, now, spends, randomness, 1);
    let o0 = output_at(outputs, randomness, 0);
    let o1 = output_at(outputs, randomness, 1);
    lemma_action_passes(community, now, s0, o0, key, randomness.actions@[0], request.alphas[0], 0, none);
    let t1 = none.with_action(
        0,
        u.actions[0],
        request.outputs[0],
        request.alphas[0],
        key,
        community,
        now,
    )->Ok_0;
    lemma_action_passes(community, now, s1, o1, key, randomness.actions@[1], request.alphas[1], 1, t1);
    reveal_with_fuel(crate::signer::tallied, 3);
}

proof fn lemma_memos_match(outputs: Seq<OutputModel>)
    requires
        created_total(outputs) is Ok,
    ensures
        forall|i: int| 0 <= i < outputs.len() ==> output_memo_matches(#[trigger] outputs[i]),
    decreases outputs.len(),
{
    if outputs.len() > 0 {
        lemma_memos_match(outputs.drop_last());
        assert(forall|i: int|
            0 <= i < outputs.len() - 1 ==> outputs[i] == outputs.drop_last()[i]);
    }
}

/// What spends are worth together at `now`.
pub open spec fn worth_sum(now: u64, spends: Seq<SpendModel>) -> nat
    decreases spends.len(),
{
    if spends.len() == 0 {
        0
    } else {
        let note = spends.last().note;
        worth_sum(now, spends.drop_last()) + crate::decay::decayed_windowed(
            note.value as nat,
            (now - note.t_note) as nat,
        )
    }
}

/// What outputs are worth together.
pub open spec fn value_sum(outputs: Seq<OutputModel>) -> nat
    decreases outputs.len(),
{
    if outputs.len() == 0 {
        0
    } else {
        value_sum(outputs.drop_last()) + outputs.last().value as nat
    }
}

/// Whether each of the first `n` spends is of the community and not from the future.
pub open spec fn spends_are_usable(community: nat, now: u64, spends: Seq<SpendModel>, n: int) -> bool {
    forall|i: int|
        0 <= i < n ==> {
            &&& (#[trigger] spends[i]).note.community == community
            &&& spends[i].note.coin_community == community
            &&& spends[i].note.t_note <= now
        }
}

/// Whether the memo openings of the first `n` outputs fit: the opening gives the commitment, and
/// without one there is no commitment.
pub open spec fn openings_fit(outputs: Seq<OutputModel>, n: int) -> bool {
    forall|i: int|
        0 <= i < n ==> {
            let o = #[trigger] outputs[i];
            &&& o.memo_opening is None ==> o.memo_cm == 0
            &&& o.memo_opening matches Some((text, r)) ==> o.memo_cm == crate::memo::memo_commitment(
                text,
                r,
            )
        }
}

proof fn lemma_worth_grows(now: u64, spends: Seq<SpendModel>, n: int)
    requires
        0 <= n <= spends.len(),
    ensures
        worth_sum(now, spends.take(n)) <= worth_sum(now, spends),
    decreases spends.len(),
{
    if n < spends.len() {
        assert(spends.drop_last().take(n) =~= spends.take(n));
        lemma_worth_grows(now, spends.drop_last(), n);
    } else {
        assert(spends.take(n) =~= spends);
    }
}

proof fn lemma_values_grow(outputs: Seq<OutputModel>, n: int)
    requires
        0 <= n <= outputs.len(),
    ensures
        value_sum(outputs.take(n)) <= value_sum(outputs),
    decreases outputs.len(),
{
    if n < outputs.len() {
        assert(outputs.drop_last().take(n) =~= outputs.take(n));
        lemma_values_grow(outputs.drop_last(), n);
    } else {
        assert(outputs.take(n) =~= outputs);
    }
}

/// Spends are added up unless one of them cannot be spent; the first such spend is returned, and
/// names the error.
pub proof fn spends_add_up(community: nat, now: u64, spends: Seq<SpendModel>) -> (n: int)
    ensures
        spent_total(community, now, spends) is Ok <==> spends_are_usable(
            community,
            now,
            spends,
            spends.len() as int,
        ) && worth_sum(now, spends) <= u64::MAX,
        match spent_total(community, now, spends) {
            Ok(sum) => sum == worth_sum(now, spends),
            Err(e) => {
                &&& 0 <= n < spends.len()
                &&& spends_are_usable(community, now, spends, n)
                &&& worth_sum(now, spends.take(n)) <= u64::MAX
                &&& match e {
                    BuildError::WrongCommunity => spends[n].note.community != community
                        || spends[n].note.coin_community != community,
                    BuildError::NoteFromTheFuture => {
                        &&& spends[n].note.community == community
                        &&& spends[n].note.coin_community == community
                        &&& spends[n].note.t_note > now
                    },
                    BuildError::Overflow => {
                        &&& spends_are_usable(community, now, spends, n + 1)
                        &&& worth_sum(now, spends.take(n + 1)) > u64::MAX
                    },
                    _ => false,
                }
            },
        },
    decreases spends.len(),
{
    if spends.len() == 0 {
        0
    } else {
        let front = spends.drop_last();
        let last = spends.len() - 1;
        let n = spends_add_up(community, now, front);
        assert(forall|i: int| 0 <= i < last ==> spends[i] == front[i]);
        assert(spends.last() == spends[last]);
        assert(spends.take(last) =~= front);
        assert(spends.take(last + 1) =~= spends);
        if spent_total(community, now, front) is Err {
            assert(front.take(n) =~= spends.take(n));
            assert(front.take(n + 1) =~= spends.take(n + 1));
            lemma_worth_grows(now, spends, n + 1);
            n
        } else {
            last
        }
    }
}

/// Outputs are added up unless the memo of one does not fit or they are worth too much; the first
/// such output is returned, and names the error.
pub proof fn outputs_add_up(outputs: Seq<OutputModel>) -> (n: int)
    ensures
        created_total(outputs) is Ok <==> openings_fit(outputs, outputs.len() as int) && value_sum(
            outputs,
        ) <= u64::MAX,
        match created_total(outputs) {
            Ok(sum) => sum == value_sum(outputs),
            Err(e) => {
                &&& 0 <= n < outputs.len()
                &&& openings_fit(outputs, n)
                &&& value_sum(outputs.take(n)) <= u64::MAX
                &&& match e {
                    BuildError::Overflow => value_sum(outputs.take(n + 1)) > u64::MAX,
                    BuildError::MemoMismatch => {
                        &&& value_sum(outputs.take(n + 1)) <= u64::MAX
                        &&& !openings_fit(outputs, n + 1)
                    },
                    _ => false,
                }
            },
        },
    decreases outputs.len(),
{
    if outputs.len() == 0 {
        0
    } else {
        let front = outputs.drop_last();
        let last = outputs.len() - 1;
        let n = outputs_add_up(front);
        assert(forall|i: int| 0 <= i < last ==> outputs[i] == front[i]);
        assert(outputs.last() == outputs[last]);
        assert(outputs.take(last) =~= front);
        assert(outputs.take(last + 1) =~= outputs);
        if created_total(front) is Err {
            assert(front.take(n) =~= outputs.take(n));
            assert(front.take(n + 1) =~= outputs.take(n + 1));
            lemma_values_grow(outputs, n + 1);
            if !openings_fit(front, n + 1) {
                let i = choose|i: int|
                    0 <= i < n + 1 && !({
                        let o = #[trigger] front[i];
                        &&& o.memo_opening is None ==> o.memo_cm == 0
                        &&& o.memo_opening matches Some((text, r)) ==> o.memo_cm
                            == crate::memo::memo_commitment(text, r)
                    });
                assert(outputs[i] == front[i]);
            }
            n
        } else {
            last
        }
    }
}

/// The address that the note of an action goes to: that of its output, or the throwaway one where
/// there is no output.
pub open spec fn recipient_at(
    outputs: Seq<OutputModel>,
    randomness: BuildRandomness,
    i: int,
) -> AddressModel {
    if i < outputs.len() {
        outputs[i].address
    } else {
        randomness.outputs@[i].key.key().address(randomness.outputs@[i].diversifier@)
    }
}

/// Whether each of the first `n` created notes can be made: at most 63 bits of value, 16 bits of
/// expiry and an address with a transmission key.
pub open spec fn notes_fit(outputs: Seq<OutputModel>, randomness: BuildRandomness, n: int) -> bool {
    forall|i: int|
        #![trigger recipient_at(outputs, randomness, i)]
        0 <= i < n ==> {
            &&& recipient_at(outputs, randomness, i).pk_d != 0
            &&& i < outputs.len() ==> outputs[i].value < 0x8000_0000_0000_0000
                && outputs[i].expiry_epoch < 0x1_0000
        }
}

proof fn lemma_note_fits(
    community: nat,
    now: u64,
    spends: Seq<SpendModel>,
    outputs: Seq<OutputModel>,
    randomness: BuildRandomness,
    i: int,
)
    requires
        0 <= i < 2,
        now < 0x100_0000_0000,
    ensures
        ({
            let to = recipient_at(outputs, randomness, i);
            match created_note(
                community,
                now,
                spend_at(community, now, spends, randomness, i),
                output_at(outputs, randomness, i),
                randomness.actions@[i].rseed@,
            ) {
                Ok(_) => {
                    &&& to.pk_d != 0
                    &&& i < outputs.len() ==> outputs[i].value < 0x8000_0000_0000_0000
                        && outputs[i].expiry_epoch < 0x1_0000
                },
                Err(NoteError::ValueTooLarge) => i < outputs.len() && outputs[i].value
                    >= 0x8000_0000_0000_0000,
                Err(NoteError::TimestampTooLarge) => false,
                Err(NoteError::ExpiryTooLarge) => i < outputs.len() && outputs[i].value
                    < 0x8000_0000_0000_0000 && outputs[i].expiry_epoch >= 0x1_0000,
                Err(NoteError::InvalidAddress) => to.pk_d == 0 && (i < outputs.len()
                    ==> outputs[i].value < 0x8000_0000_0000_0000 && outputs[i].expiry_epoch
                    < 0x1_0000),
            }
        }),
{
    let output = output_at(outputs, randomness, i);
    let spend = spend_at(community, now, spends, randomness, i);
    crate::note::parts_become_the_note(
        community,
        community,
        output.value,
        now,
        output.kind,
        output.expiry_epoch,
        output.address,
        spend.note.nf(spend.key.nk),
        output.memo_cm,
        randomness.actions@[i].rseed@,
    );
}

/// A bundle can be built exactly of at most two spends and at most two outputs, at a time of 40
/// bits, where every spend is of the community and not from the future, every memo opening fits,
/// spends and outputs are worth the same and no more than 64 bits hold, and the notes can be made.
pub proof fn a_fitting_request_is_built(
    community: nat,
    now: u64,
    spends: Seq<SpendModel>,
    outputs: Seq<OutputModel>,
    randomness: BuildRandomness,
)
    ensures
        build_error(community, now, spends, outputs, randomness) is None <==> {
            &&& spends.len() <= 2
            &&& outputs.len() <= 2
            &&& now < 0x100_0000_0000
            &&& spends_are_usable(community, now, spends, spends.len() as int)
            &&& openings_fit(outputs, outputs.len() as int)
            &&& worth_sum(now, spends) == value_sum(outputs)
            &&& value_sum(outputs) <= u64::MAX
            &&& notes_fit(outputs, randomness, 2)
        },
{
    let _ = spends_add_up(community, now, spends);
    let _ = outputs_add_up(outputs);
    if now < 0x100_0000_0000 {
        lemma_note_fits(community, now, spends, outputs, randomness, 0);
        lemma_note_fits(community, now, spends, outputs, randomness, 1);
        reveal_with_fuel(first_note_error, 3);
        let _ = recipient_at(outputs, randomness, 0);
        let _ = recipient_at(outputs, randomness, 1);
        assert(notes_fit(outputs, randomness, 2) <==> {
            &&& recipient_at(outputs, randomness, 0).pk_d != 0
            &&& recipient_at(outputs, randomness, 1).pk_d != 0
            &&& 0 < outputs.len() ==> outputs[0].value < 0x8000_0000_0000_0000
                && outputs[0].expiry_epoch < 0x1_0000
            &&& 1 < outputs.len() ==> outputs[1].value < 0x8000_0000_0000_0000
                && outputs[1].expiry_epoch < 0x1_0000
        });
    }
}

/// A refusal to build names its cause: too many spends are more than two, too many outputs more
/// than two, an unbalanced request is one whose two sums differ, and both are given; any other
/// error is that of the first spend, output or note that does not fit, which is returned.
pub proof fn a_refusal_names_its_cause(
    community: nat,
    now: u64,
    spends: Seq<SpendModel>,
    outputs: Seq<OutputModel>,
    randomness: BuildRandomness,
) -> (n: int)
    ensures
        ({
            let error = build_error(community, now, spends, outputs, randomness);
            &&& error == Some(BuildError::TooManySpends) <==> spends.len() > 2
            &&& error == Some(BuildError::TooManyOutputs) <==> spends.len() <= 2 && outputs.len()
                > 2
            &&& error == Some(BuildError::InvalidNote(NoteError::TimestampTooLarge))
                <==> spends.len() <= 2 && outputs.len() <= 2 && now >= 0x100_0000_0000
            &&& error == Some(BuildError::WrongCommunity) ==> {
                &&& 0 <= n < spends.len()
                &&& spends_are_usable(community, now, spends, n)
                &&& spends[n].note.community != community || spends[n].note.coin_community
                    != community
            }
            &&& error == Some(BuildError::NoteFromTheFuture) ==> {
                &&& 0 <= n < spends.len()
                &&& spends_are_usable(community, now, spends, n)
                &&& spends[n].note.t_note > now
            }
            &&& error == Some(BuildError::Overflow) ==> worth_sum(now, spends) > u64::MAX
                || value_sum(outputs) > u64::MAX
            &&& error == Some(BuildError::MemoMismatch) ==> {
                &&& spends_are_usable(community, now, spends, spends.len() as int)
                &&& 0 <= n < outputs.len()
                &&& openings_fit(outputs, n)
                &&& !openings_fit(outputs, n + 1)
            }
            &&& error matches Some(BuildError::Unbalanced { spent, created }) ==> {
                &&& spent == worth_sum(now, spends)
                &&& created == value_sum(outputs)
                &&& spent != created
            }
            &&& error matches Some(BuildError::InvalidNote(e)) ==> now < 0x100_0000_0000 ==> {
                &&& worth_sum(now, spends) == value_sum(outputs)
                &&& 0 <= n < 2
                &&& notes_fit(outputs, randomness, n)
                &&& e == NoteError::ValueTooLarge ==> n < outputs.len() && outputs[n].value
                    >= 0x8000_0000_0000_0000
                &&& e == NoteError::ExpiryTooLarge ==> n < outputs.len()
                    && outputs[n].expiry_epoch >= 0x1_0000
                &&& e == NoteError::InvalidAddress ==> recipient_at(
                    outputs,
                    randomness,
                    n,
                ).pk_d == 0
            }
            &&& error != Some(BuildError::Proof)
        }),
{
    let s = spends_add_up(community, now, spends);
    let o = outputs_add_up(outputs);
    if spends.len() > 2 || outputs.len() > 2 || now >= 0x100_0000_0000 {
        0
    } else if spent_total(community, now, spends) is Err {
        lemma_worth_grows(now, spends, s + 1);
        s
    } else if created_total(outputs) is Err {
        lemma_values_grow(outputs, o + 1);
        o
    } else {
        lemma_note_fits(community, now, spends, outputs, randomness, 0);
        lemma_note_fits(community, now, spends, outputs, randomness, 1);
        reveal_with_fuel(first_note_error, 3);
        if first_note_error(community, now, spends, outputs, randomness, 1) is Some {
            0
        } else {
            assert(notes_fit(outputs, randomness, 1)) by {
                assert(recipient_at(outputs, randomness, 0).pk_d != 0);
            }
            1
        }
    }
}

/// A built bundle does what was asked for: it spends the given notes in their order and creates
/// the outputs in their order, and what is missing is filled up with notes of no value.
pub proof fn a_built_bundle_is_the_request(
    community: nat,
    anchor: nat,
    now: u64,
    spends: Seq<SpendModel>,
    outputs: Seq<OutputModel>,
    ovk: Option<Seq<u8>>,
    randomness: BuildRandomness,
)
    requires
        build_error(community, now, spends, outputs, randomness) is None,
        paddings_hold(community, now, spends, randomness),
        values_hold(spends),
    ensures
        ({
            let u = built(community, anchor, now, spends, outputs, ovk, randomness);
            &&& u.anchor == anchor && u.now == now && u.community == community
            &&& u.actions.len() == 2 && u.outputs.len() == 2 && u.complete()
            &&& u.outputs[0].value + u.outputs[1].value == worth_sum(now, spends)
            &&& forall|i: int| 0 <= i < 2 ==> #[trigger] u.alphas[i] == randomness.actions@[i].alpha@
            &&& forall|i: int| 0 <= i < 2 ==> #[trigger] u.rcvs[i] == randomness.actions@[i].rcv@
            &&& forall|i: int|
                0 <= i < spends.len() ==> {
                    &&& (#[trigger] u.actions[i]).nullifier == spends[i].note.nf(spends[i].key.nk)
                    &&& u.actions[i].rk == (spends[i].key.ak
                        + crate::signature::spend_auth_generator() * u.alphas[i])
                        % crate::pallas::scalar_modulus()
                    &&& u.dummy_asks[i] is None
                }
            &&& forall|i: int|
                spends.len() <= i < 2 ==> {
                    let p = randomness.spends@[i];
                    &&& (#[trigger] u.actions[i]).rk == (p.key.key().ak
                        + crate::signature::spend_auth_generator() * u.alphas[i])
                        % crate::pallas::scalar_modulus()
                    &&& u.dummy_asks[i] == Some(crate::keys::authorizing_key(p.key.secret()))
                }
            &&& forall|i: int|
                0 <= i < outputs.len() ==> {
                    &&& (#[trigger] u.outputs[i]).address == outputs[i].address
                    &&& u.outputs[i].value == outputs[i].value
                    &&& u.outputs[i].kind == outputs[i].kind
                    &&& u.outputs[i].expiry_epoch == outputs[i].expiry_epoch
                    &&& u.outputs[i].memo_cm == outputs[i].memo_cm
                    &&& u.outputs[i].memo == outputs[i].memo_opening
                    &&& u.outputs[i].free_memo == outputs[i].memo
                }
            &&& forall|i: int|
                outputs.len() <= i < 2 ==> {
                    &&& (#[trigger] u.outputs[i]).address == recipient_at(outputs, randomness, i)
                    &&& u.outputs[i].value == 0
                    &&& u.outputs[i].kind == NoteKind::Normal
                    &&& u.outputs[i].expiry_epoch == 0
                    &&& u.outputs[i].memo_cm == 0
                    &&& u.outputs[i].memo is None
                }
            &&& forall|i: int|
                0 <= i < 2 ==> is_note_of_opening(
                    community,
                    now,
                    #[trigger] u.actions[i],
                    u.outputs[i],
                    randomness.actions@[i].rseed@,
                )
            &&& forall|i: int|
                0 <= i < 2 ==> (#[trigger] u.actions[i]).cv_net == crate::pallas::reduced(
                    crate::signature::value_generator() * ((if i < spends.len() {
                        crate::decay::decayed_windowed(
                            spends[i].note.value as nat,
                            (now - spends[i].note.t_note) as nat,
                        )
                    } else {
                        0
                    }) - u.outputs[i].value) + crate::signature::randomness_generator()
                        * u.rcvs[i],
                )
        }),
{
    let u = built(community, anchor, now, spends, outputs, ovk, randomness);
    a_fitting_request_is_built(community, now, spends, outputs, randomness);
    reveal_with_fuel(value_sum, 3);
    if outputs.len() == 2 {
        assert(outputs.drop_last().drop_last() =~= Seq::empty());
        assert(outputs.drop_last().last() == outputs[0]);
        assert(outputs.last() == outputs[1]);
    } else if outputs.len() == 1 {
        assert(outputs.drop_last() =~= Seq::empty());
        assert(outputs.last() == outputs[0]);
    }
    lemma_built_action(community, anchor, now, spends, outputs, ovk, randomness, 0);
    lemma_built_action(community, anchor, now, spends, outputs, ovk, randomness, 1);
}

/// Whether an action creates the note of an opening, with the nullifier of the action as its
/// `rho`.
pub open spec fn is_note_of_opening(
    community: nat,
    now: u64,
    action: ActionModel,
    opening: OpeningModel,
    rseed: Seq<u8>,
) -> bool {
    exists|note: NoteModel|
        {
            &&& action.cm == #[trigger] note.cm()
            &&& note.community == community
            &&& note.coin_community == community
            &&& note.value == opening.value
            &&& note.t_note == now
            &&& note.kind == opening.kind
            &&& note.expiry_epoch == opening.expiry_epoch
            &&& note.d == crate::bytes::le_nat(opening.address.d)
            &&& note.g_d == crate::pallas::pallas_multiple(
                crate::keys::diversified_base(opening.address.d),
            )
            &&& note.pk_d == crate::pallas::pallas_multiple(opening.address.pk_d)
            &&& note.rho == action.nullifier
            &&& note.psi == crate::note::psi_of_seed(rseed, note.rho)
            &&& note.memo_cm == opening.memo_cm
            &&& note.rcm == crate::note::rcm_of_seed(rseed, note.rho)
            &&& rseed == opening.rseed
        }
}

proof fn lemma_built_action(
    community: nat,
    anchor: nat,
    now: u64,
    spends: Seq<SpendModel>,
    outputs: Seq<OutputModel>,
    ovk: Option<Seq<u8>>,
    randomness: BuildRandomness,
    i: int,
)
    requires
        0 <= i < 2,
        build_error(community, now, spends, outputs, randomness) is None,
        paddings_hold(community, now, spends, randomness),
    ensures
        ({
            let u = built(community, anchor, now, spends, outputs, ovk, randomness);
            let spend = spend_at(community, now, spends, randomness, i);
            &&& is_note_of_opening(
                community,
                now,
                u.actions[i],
                u.outputs[i],
                randomness.actions@[i].rseed@,
            )
            &&& u.actions[i].cv_net == crate::pallas::reduced(
                crate::signature::value_generator() * ((if i < spends.len() {
                    crate::decay::decayed_windowed(
                        spends[i].note.value as nat,
                        (now - spends[i].note.t_note) as nat,
                    )
                } else {
                    0
                }) - u.outputs[i].value) + crate::signature::randomness_generator() * u.rcvs[i],
            )
            &&& u.actions[i].rk == (spend.key.ak + crate::signature::spend_auth_generator()
                * u.alphas[i]) % crate::pallas::scalar_modulus()
        }),
{
    let u = built(community, anchor, now, spends, outputs, ovk, randomness);
    let spend = spend_at(community, now, spends, randomness, i);
    let output = output_at(outputs, randomness, i);
    let r = randomness.actions@[i];
    a_fitting_request_is_built(community, now, spends, outputs, randomness);
    lemma_padding_has_no_value(community, now, spends, outputs, randomness, i);
    lemma_note_fits(community, now, spends, outputs, randomness, i);
    assert(recipient_at(outputs, randomness, i).pk_d != 0);
    crate::note::parts_become_the_note(
        community,
        community,
        output.value,
        now,
        output.kind,
        output.expiry_epoch,
        output.address,
        spend.note.nf(spend.key.nk),
        output.memo_cm,
        r.rseed@,
    );
    let note = created_note(community, now, spend, output, r.rseed@)->Ok_0;
    assert(u.actions[i].cm == note.cm());
    crate::signature::a_commitment_is_the_sum_of_two_multiples(
        net_value(now, spend, output),
        r.rcv@,
    );
    crate::pallas::lemma_reduced(
        spend.key.ak as int,
        (crate::signature::spend_auth_generator() * r.alpha@) as int,
    );
}

/// Whether the spend of an action is authorised: its key is not the identity, and the signature of
/// that action verifies under it.
pub open spec fn spend_is_signed(b: BundleModel, sighash: Seq<u8>, i: int) -> bool {
    &&& b.actions[i].rk != 0
    &&& crate::signature::spend_auth_verifies(
        crate::pallas::encode_point(b.actions[i].rk),
        sighash,
        b.spend_auth_sigs[i],
    )
}

proof fn lemma_binding_key_of_two(a: nat, b: nat)
    ensures
        crate::signature::binding_key(seq![a, b], 0) == (a + b) % crate::pallas::scalar_modulus(),
{
    let both = seq![a, b];
    assert(both.drop_last() =~= seq![a]);
    assert(both.drop_last().drop_last() =~= Seq::<nat>::empty());
    reveal_with_fuel(crate::signature::sum_of_points, 3);
    let v = crate::signature::value_generator();
    assert(v * 0 == 0) by (nonlinear_arith);
    crate::pallas::lemma_reduced(a as int, b as int);
    crate::pallas::lemma_reduced((a + b) as int, 0);
    crate::pallas::lemma_reduced((crate::pallas::reduced(a as int) + b) as int, 0);
}

/// A bundle is accepted exactly if it has two actions with a signature each and a proof of the one
/// size that holds, every spend is signed under the key of its own action, and the binding
/// signature verifies under the sum of both value commitments. All signatures are over the
/// sighash.
pub proof fn an_accepted_bundle_is_signed_throughout(
    b: BundleModel,
    sighash: Seq<u8>,
    proof_holds: bool,
)
    ensures
        crypto_verdict(b, sighash, proof_holds) is Accepted <==> {
            &&& b.actions.len() == 2
            &&& b.spend_auth_sigs.len() == 2
            &&& b.proof.len() == 7936
            &&& proof_holds
            &&& forall|i: int| 0 <= i < 2 ==> #[trigger] spend_is_signed(b, sighash, i)
            &&& crate::signature::binding_verifies(
                crate::pallas::encode_point(
                    (b.actions[0].cv_net + b.actions[1].cv_net) % crate::pallas::scalar_modulus(),
                ),
                sighash,
                b.binding_sig,
            )
        },
{
    if b.actions.len() == 2 {
        assert(value_commitments(b.actions) =~= seq![b.actions[0].cv_net, b.actions[1].cv_net]);
        lemma_binding_key_of_two(b.actions[0].cv_net, b.actions[1].cv_net);
    }
    reveal_with_fuel(first_unauthorized, 3);
    assert((forall|i: int| 0 <= i < 2 ==> #[trigger] spend_is_signed(b, sighash, i))
        <==> spend_is_signed(b, sighash, 0) && spend_is_signed(b, sighash, 1));
}

/// A bundle that is not accepted is refused for the first thing that is wrong: the number of
/// actions or signatures, the size of the proof, the first spend without its signature, the
/// binding signature, and last the proof itself.
pub proof fn a_rejection_names_its_cause(b: BundleModel, sighash: Seq<u8>, proof_holds: bool)
    ensures
        ({
            let verdict = crypto_verdict(b, sighash, proof_holds);
            let shaped = b.actions.len() == 2 && b.spend_auth_sigs.len() == 2;
            let signed = spend_is_signed(b, sighash, 0) && spend_is_signed(b, sighash, 1);
            let bound = crate::signature::binding_verifies(
                crate::pallas::encode_point(
                    (b.actions[0].cv_net + b.actions[1].cv_net) % crate::pallas::scalar_modulus(),
                ),
                sighash,
                b.binding_sig,
            );
            &&& verdict is WrongActionCount <==> !shaped
            &&& verdict == Verdict::SpendAuth(0) <==> shaped && b.proof.len() == 7936
                && !spend_is_signed(b, sighash, 0)
            &&& verdict == Verdict::SpendAuth(1) <==> shaped && b.proof.len() == 7936
                && spend_is_signed(b, sighash, 0) && !spend_is_signed(b, sighash, 1)
            &&& verdict is Binding <==> shaped && b.proof.len() == 7936 && signed && !bound
            &&& verdict is Proof <==> shaped && (b.proof.len() != 7936 || signed && bound
                && !proof_holds)
        }),
{
    if b.actions.len() == 2 {
        assert(value_commitments(b.actions) =~= seq![b.actions[0].cv_net, b.actions[1].cv_net]);
        lemma_binding_key_of_two(b.actions[0].cv_net, b.actions[1].cv_net);
    }
    reveal_with_fuel(first_unauthorized, 3);
}

/// The ledger accepts a bundle exactly if there is room for two more notes in a tree of 2^32, the
/// anchor is known, the two nullifiers differ and neither is spent, and proof and signatures hold.
pub proof fn the_ledger_accepts_what_is_new(
    leaves: Seq<nat>,
    roots: Seq<nat>,
    spent: Set<nat>,
    b: BundleModel,
    sighash: Seq<u8>,
    proof_holds: bool,
)
    ensures
        ({
            let verdict = ledger_verdict(leaves, roots, spent, b, sighash, proof_holds);
            let shaped = b.actions.len() == 2 && b.spend_auth_sigs.len() == 2;
            let room = leaves.len() + 2 <= 0x1_0000_0000;
            let known = exists|i: int| 0 <= i < roots.len() && #[trigger] roots[i] == b.anchor;
            let n0 = b.actions[0].nullifier;
            let n1 = b.actions[1].nullifier;
            let fresh = n0 != n1 && !spent.contains(n0) && !spent.contains(n1);
            let crypto = crypto_verdict(b, sighash, proof_holds);
            &&& verdict is Accepted <==> shaped && room && known && fresh && crypto is Accepted
            &&& verdict is WrongActionCount <==> !shaped
            &&& verdict is TreeFull <==> shaped && !room
            &&& verdict is UnknownAnchor <==> shaped && room && !known
            &&& verdict is DoubleSpend <==> shaped && room && known && !fresh
            &&& verdict is DoubleSpend ==> verdict == Verdict::DoubleSpend(
                if n0 == n1 || !spent.contains(n0) {
                    n1
                } else {
                    n0
                },
            )
            &&& shaped && room && known && fresh ==> verdict == crypto
        }),
{
    let nullifiers = nullifiers_of(b.actions);
    if b.actions.len() == 2 {
        let front = nullifiers.drop_last();
        assert(front.drop_last() =~= Seq::<nat>::empty());
        assert(front[0] == nullifiers[0]);
        assert(front.last() == nullifiers[0]);
        assert(nullifiers.last() == nullifiers[1]);
        assert(front.contains(nullifiers[1]) <==> nullifiers[0] == nullifiers[1]);
        reveal_with_fuel(first_spent, 3);
        reveal_with_fuel(crate::tree::first_double_spend, 3);
    }
}

/// The device has to sign exactly the spends whose key the builder does not hold, in the order of
/// the actions.
pub proof fn the_device_signs_the_real_spends(dummy_asks: Seq<Option<nat>>)
    ensures
        ({
            let own = real_actions(dummy_asks);
            &&& forall|k: int|
                0 <= k < own.len() ==> 0 <= #[trigger] own[k] < dummy_asks.len()
                    && dummy_asks[own[k]] is None
            &&& forall|j: int, k: int| 0 <= j < k < own.len() ==> #[trigger] own[j] < #[trigger] own[k]
            &&& forall|i: int|
                0 <= i < dummy_asks.len() && (#[trigger] dummy_asks[i]) is None ==> own.contains(i)
        }),
    decreases dummy_asks.len(),
{
    if dummy_asks.len() > 0 {
        let front = dummy_asks.drop_last();
        let before = real_actions(front);
        let own = real_actions(dummy_asks);
        the_device_signs_the_real_spends(front);
        assert forall|k: int| 0 <= k < own.len() implies 0 <= #[trigger] own[k]
            < dummy_asks.len() && dummy_asks[own[k]] is None by {
            if k < before.len() {
                assert(own[k] == before[k]);
                assert(front[before[k]] == dummy_asks[before[k]]);
            }
        }
        assert forall|i: int|
            0 <= i < dummy_asks.len() && (#[trigger] dummy_asks[i]) is None implies own.contains(
            i,
        ) by {
            if i < front.len() {
                assert(front[i] == dummy_asks[i]);
                let k = choose|k: int| 0 <= k < before.len() && before[k] == i;
                assert(own[k] == i);
            } else {
                assert(own[own.len() - 1] == i);
            }
        }
        assert forall|j: int, k: int| 0 <= j < k < own.len() implies #[trigger] own[j]
            < #[trigger] own[k] by {
            assert(own[j] == before[j]);
            if k < before.len() {
                assert(own[k] == before[k]);
            }
        }
    }
}

/// Device signatures are taken in the order of the real spends, and one that does not verify under
/// the key of its own action is named: the first of them.
pub proof fn a_bad_signature_is_found(
    u: UnauthorizedModel,
    sighash: Seq<u8>,
    sigs: Seq<SpendAuthSignature>,
)
    requires
        u.dummy_asks.len() == 2,
        u.actions.len() == 2,
    ensures
        ({
            let second: int = if u.dummy_asks[0] is None {
                1
            } else {
                0
            };
            let good0 = u.dummy_asks[0] is None ==> crate::signature::spend_auth_verifies(
                crate::pallas::encode_point(u.actions[0].rk),
                sighash,
                sigs[0].0@,
            );
            let good1 = u.dummy_asks[1] is None ==> crate::signature::spend_auth_verifies(
                crate::pallas::encode_point(u.actions[1].rk),
                sighash,
                sigs[second].0@,
            );
            first_bad_signature(u, sighash, sigs, 2) == (if !good0 {
                Some(0int)
            } else if !good1 {
                Some(1int)
            } else {
                None
            })
        }),
{
    let none = u.dummy_asks.take(0);
    let one = u.dummy_asks.take(1);
    assert(one.drop_last() =~= none);
    assert(one.last() == u.dummy_asks[0]);
    reveal_with_fuel(real_actions, 3);
    reveal_with_fuel(first_bad_signature, 3);
}

/// The signing request holds the openings of all notes, and a rerandomiser for exactly the spends
/// that the device has to sign.
pub proof fn a_request_holds_what_the_device_needs(u: UnauthorizedModel, body: Seq<u8>)
    requires
        u.complete(),
    ensures
        ({
            let r = request_for(u, body);
            &&& r.body == body
            &&& r.outputs == u.outputs
            &&& r.alphas.len() == u.actions.len()
            &&& forall|i: int|
                0 <= i < u.actions.len() ==> {
                    &&& u.dummy_asks[i] is None ==> #[trigger] r.alphas[i] == Some(u.alphas[i])
                    &&& u.dummy_asks[i] is Some ==> r.alphas[i] is None
                }
        }),
{
}

/// The lengths that the ciphertexts of an action have.
pub open spec fn encrypted_sized(actions: Seq<ActionModel>) -> bool {
    forall|i: int|
        0 <= i < actions.len() ==> {
            &&& (#[trigger] actions[i]).encrypted.epk.len() == 32
            &&& actions[i].encrypted.enc.len() == 580
            &&& actions[i].encrypted.out.len() == 80
            &&& actions[i].nullifier < crate::pallas::base_modulus()
            &&& actions[i].cm < crate::pallas::base_modulus()
        }
}

/// Whether two actions publish the same bytes.
pub open spec fn same_published(a: ActionModel, b: ActionModel) -> bool {
    &&& crate::pallas::encode_point(a.cv_net) == crate::pallas::encode_point(b.cv_net)
    &&& a.nullifier == b.nullifier
    &&& crate::pallas::encode_point(a.rk) == crate::pallas::encode_point(b.rk)
    &&& a.cm == b.cm
    &&& a.encrypted.epk == b.encrypted.epk
    &&& a.encrypted.enc == b.encrypted.enc
    &&& a.encrypted.out == b.encrypted.out
}

proof fn lemma_action_data_covers(a: ActionModel, b: ActionModel)
    requires
        encrypted_sized(seq![a]),
        encrypted_sized(seq![b]),
    ensures
        action_data(a).len() == 820,
        action_data(b).len() == 820,
        action_data(a) == action_data(b) ==> same_published(a, b),
{
    assert(seq![a][0] == a && seq![b][0] == b);
    let x = action_data(a);
    let y = action_data(b);
    crate::pallas::lemma_encoding_length(a.cv_net);
    crate::pallas::lemma_encoding_length(b.cv_net);
    crate::pallas::lemma_encoding_length(a.rk);
    crate::pallas::lemma_encoding_length(b.rk);
    crate::bytes::lemma_le_bytes_len(a.nullifier, 32);
    crate::bytes::lemma_le_bytes_len(b.nullifier, 32);
    crate::bytes::lemma_le_bytes_len(a.cm, 32);
    crate::bytes::lemma_le_bytes_len(b.cm, 32);
    if x == y {
        assert(x.subrange(0, 32) =~= crate::pallas::encode_point(a.cv_net));
        assert(y.subrange(0, 32) =~= crate::pallas::encode_point(b.cv_net));
        assert(x.subrange(32, 64) =~= crate::bytes::le_bytes(a.nullifier, 32));
        assert(y.subrange(32, 64) =~= crate::bytes::le_bytes(b.nullifier, 32));
        assert(x.subrange(64, 96) =~= crate::pallas::encode_point(a.rk));
        assert(y.subrange(64, 96) =~= crate::pallas::encode_point(b.rk));
        assert(x.subrange(96, 128) =~= crate::bytes::le_bytes(a.cm, 32));
        assert(y.subrange(96, 128) =~= crate::bytes::le_bytes(b.cm, 32));
        assert(x.subrange(128, 160) =~= a.encrypted.epk);
        assert(y.subrange(128, 160) =~= b.encrypted.epk);
        assert(x.subrange(160, 740) =~= a.encrypted.enc);
        assert(y.subrange(160, 740) =~= b.encrypted.enc);
        assert(x.subrange(740, 820) =~= a.encrypted.out);
        assert(y.subrange(740, 820) =~= b.encrypted.out);
        crate::bytes::lemma_pow256_values();
        crate::bytes::lemma_le_bytes_injective(a.nullifier, b.nullifier, 32);
        crate::bytes::lemma_le_bytes_injective(a.cm, b.cm, 32);
    }
}

proof fn lemma_actions_data_covers(a: Seq<ActionModel>, b: Seq<ActionModel>)
    requires
        encrypted_sized(a),
        encrypted_sized(b),
    ensures
        actions_data(a).len() == 820 * a.len(),
        actions_data(b).len() == 820 * b.len(),
        actions_data(a) == actions_data(b) ==> a.len() == b.len() && forall|i: int|
            0 <= i < a.len() ==> same_published(#[trigger] a[i], b[i]),
    decreases a.len() + b.len(),
{
    if a.len() > 0 {
        let front = a.drop_last();
        assert(encrypted_sized(front)) by {
            assert(forall|i: int| 0 <= i < front.len() ==> front[i] == a[i]);
        }
        assert(encrypted_sized(seq![a.last()])) by {
            assert(a.last() == a[a.len() - 1]);
        }
        lemma_action_data_covers(a.last(), a.last());
        if b.len() == 0 {
            lemma_actions_data_covers(front, b);
        }
    }
    if b.len() > 0 {
        let front = b.drop_last();
        assert(encrypted_sized(front)) by {
            assert(forall|i: int| 0 <= i < front.len() ==> front[i] == b[i]);
        }
        assert(encrypted_sized(seq![b.last()])) by {
            assert(b.last() == b[b.len() - 1]);
        }
        lemma_action_data_covers(b.last(), b.last());
        if a.len() == 0 {
            lemma_actions_data_covers(a, front);
        }
    }
    if a.len() > 0 && b.len() > 0 {
        let fa = a.drop_last();
        let fb = b.drop_last();
        lemma_actions_data_covers(fa, fb);
        lemma_action_data_covers(a.last(), b.last());
        assert(actions_data(a).len() == 820 * fa.len() + 820);
        assert(actions_data(b).len() == 820 * fb.len() + 820);
        if actions_data(a) == actions_data(b) {
            assert(a.len() == b.len());
            crate::bytes::lemma_parts_injective(
                actions_data(fa),
                action_data(a.last()),
                actions_data(fb),
                action_data(b.last()),
            );
            assert forall|i: int| 0 <= i < a.len() implies same_published(#[trigger] a[i], b[i]) by {
                if i < fa.len() {
                    assert(fa[i] == a[i] && fb[i] == b[i]);
                }
            }
        }
    }
}

/// The standalone sighash covers anchor, time, community and everything that the actions publish:
/// where one of them differs, it is hashed from other bytes, which are returned.
pub proof fn the_sighash_covers_the_bundle(
    anchor1: nat,
    now1: u64,
    community1: nat,
    actions1: Seq<ActionModel>,
    anchor2: nat,
    now2: u64,
    community2: nat,
    actions2: Seq<ActionModel>,
) -> (r: (Seq<u8>, Seq<u8>))
    requires
        anchor1 < crate::pallas::base_modulus(),
        anchor2 < crate::pallas::base_modulus(),
        community1 < crate::pallas::base_modulus(),
        community2 < crate::pallas::base_modulus(),
        encrypted_sized(actions1),
        encrypted_sized(actions2),
    ensures
        hash_of_bundle(anchor1, now1, community1, actions1) == crate::hash::blake2b_hash(
            "Gradido_Sighash_"@,
            32,
            r.0,
        ),
        hash_of_bundle(anchor2, now2, community2, actions2) == crate::hash::blake2b_hash(
            "Gradido_Sighash_"@,
            32,
            r.1,
        ),
        r.0 == r.1 ==> {
            &&& anchor1 == anchor2
            &&& now1 == now2
            &&& community1 == community2
            &&& actions1.len() == actions2.len()
            &&& forall|i: int|
                0 <= i < actions1.len() ==> same_published(#[trigger] actions1[i], actions2[i])
        },
        r.0.len() >= 76,
        r.0.subrange(0, 32) == crate::bytes::le_bytes(anchor1, 32),
        r.0.subrange(32, 40) == crate::bytes::le_bytes(now1 as nat, 8),
        r.0.subrange(40, 72) == crate::bytes::le_bytes(community1, 32),
        r.0.subrange(72, 76) == seq![2u8, 0u8, 0u8, 0u8],
{
    let x = effecting_data(anchor1, now1, community1, actions1);
    let y = effecting_data(anchor2, now2, community2, actions2);
    crate::bytes::lemma_le_bytes_len(anchor1, 32);
    crate::bytes::lemma_le_bytes_len(anchor2, 32);
    crate::bytes::lemma_le_bytes_len(now1 as nat, 8);
    crate::bytes::lemma_le_bytes_len(now2 as nat, 8);
    crate::bytes::lemma_le_bytes_len(community1, 32);
    crate::bytes::lemma_le_bytes_len(community2, 32);
    crate::bytes::lemma_le_bytes_len(2, 4);
    crate::bytes::lemma_pow256_values();
    reveal_with_fuel(crate::bytes::le_bytes, 5);
    assert(x.subrange(0, 32) =~= crate::bytes::le_bytes(anchor1, 32));
    assert(x.subrange(32, 40) =~= crate::bytes::le_bytes(now1 as nat, 8));
    assert(x.subrange(40, 72) =~= crate::bytes::le_bytes(community1, 32));
    assert(x.subrange(72, 76) =~= crate::bytes::le_bytes(2, 4));
    assert(crate::bytes::le_bytes(2, 4) =~= seq![2u8, 0u8, 0u8, 0u8]);
    if x == y {
        assert(x.subrange(0, 32) =~= crate::bytes::le_bytes(anchor1, 32));
        assert(y.subrange(0, 32) =~= crate::bytes::le_bytes(anchor2, 32));
        assert(x.subrange(32, 40) =~= crate::bytes::le_bytes(now1 as nat, 8));
        assert(y.subrange(32, 40) =~= crate::bytes::le_bytes(now2 as nat, 8));
        assert(x.subrange(40, 72) =~= crate::bytes::le_bytes(community1, 32));
        assert(y.subrange(40, 72) =~= crate::bytes::le_bytes(community2, 32));
        assert(x.subrange(76, x.len() as int) =~= actions_data(actions1));
        assert(y.subrange(76, y.len() as int) =~= actions_data(actions2));
        crate::bytes::lemma_le_bytes_injective(anchor1, anchor2, 32);
        crate::bytes::lemma_le_bytes_injective(now1 as nat, now2 as nat, 8);
        crate::bytes::lemma_le_bytes_injective(community1, community2, 32);
        lemma_actions_data_covers(actions1, actions2);
    }
    (x, y)
}

/// The sighash of a transaction is the hash of its whole body.
pub proof fn the_body_sighash_covers_the_body(body: Seq<u8>)
    ensures
        hash_of_body(body) == crate::hash::blake2b_hash("Gradido_BodySigh"@, 32, body),
{
}

/// A bundle spends every nullifier and creates every commitment of its actions, in their order.
pub proof fn every_action_has_its_effects(actions: Seq<ActionModel>)
    ensures
        nullifiers_of(actions).len() == actions.len(),
        commitments_of(actions).len() == actions.len(),
        forall|i: int|
            0 <= i < actions.len() ==> #[trigger] nullifiers_of(actions)[i] == actions[i].nullifier,
        forall|i: int|
            0 <= i < actions.len() ==> #[trigger] commitments_of(actions)[i] == actions[i].cm,
{
}

/// A note can be spent exactly from its own time on, at first with its whole value and later with
/// what has not decayed, never with more.
pub proof fn a_note_is_worth_what_has_not_decayed(note: NoteModel, now: u64)
    requires
        note.value < 0x8000_0000_0000_0000,
    ensures
        worth_at(note, now) is Some <==> note.t_note <= now,
        worth_at(note, note.t_note) == Some(note.value as nat),
        worth_at(note, now) matches Some(worth) ==> worth <= note.value && worth
            == crate::decay::decayed_windowed(note.value as nat, (now - note.t_note) as nat),
{
    crate::decay::no_time_no_decay(note.value as nat);
    if note.t_note <= now {
        crate::decay::decay_never_increases(note.value as nat, (now - note.t_note) as nat);
    }
}

/// A padding spend is a normal note of no value, of the community and of now, for an address of
/// its throwaway key; diversifier, `rho` and seed are its own random values.
pub proof fn a_padding_spend_has_its_own_randomness(community: nat, now: u64, p: SpendPadding)
    ensures
        ({
            let key = p.key.key();
            let base = crate::keys::diversified_base(p.diversifier@);
            let pk_d = (base * key.ivk) % crate::pallas::scalar_modulus();
            let spend = dummy_spend_model(community, now, p);
            &&& dummy_note(community, now, p) is Ok <==> now < 0x100_0000_0000 && pk_d != 0
            &&& dummy_note(community, now, p) matches Ok(note) ==> {
                &&& spend.note == note
                &&& note.value == 0 && note.t_note == now
                &&& note.community == community && note.coin_community == community
                &&& note.kind == NoteKind::Normal && note.expiry_epoch == 0 && note.memo_cm == 0
                &&& note.d == crate::bytes::le_nat(p.diversifier@)
                &&& note.g_d == crate::pallas::pallas_multiple(base)
                &&& note.pk_d == crate::pallas::pallas_multiple(pk_d)
                &&& note.rho == crate::bytes::le_nat(p.rho@) % crate::pallas::base_modulus()
                &&& note.psi == crate::note::psi_of_seed(p.rseed@, note.rho)
                &&& note.rcm == crate::note::rcm_of_seed(p.rseed@, note.rho)
            }
            &&& spend.key == crate::keys::viewing_key(p.key.secret())
            &&& spend.rseed == p.rseed@
            &&& spend.path.len() == 32
            &&& forall|i: int|
                0 <= i < 32 ==> #[trigger] spend.path[i] == crate::bytes::le_nat(p.path@[i]@)
                    % crate::pallas::base_modulus()
        }),
{
    crate::note::parts_become_the_note(
        community,
        community,
        0,
        now,
        NoteKind::Normal,
        0,
        p.key.key().address(p.diversifier@),
        uniform_base(p.rho@),
        0,
        p.rseed@,
    );
}

/// A plain output is a normal note of the value for the address, without expiry or memo.
pub proof fn a_plain_output_has_no_extras(address: AddressModel, value: u64)
    ensures
        ({
            let o = plain_output(address, value);
            &&& o.address == address && o.value == value
            &&& o.kind == NoteKind::Normal && o.expiry_epoch == 0
            &&& o.memo_cm == 0 && o.memo_opening is None
            &&& o.memo.len() == 463
            &&& forall|i: int| 0 <= i < 463 ==> #[trigger] o.memo[i] == 0
        }),
{
}

/// A bundle is accepted exactly if its check returns no error, and an error is told as it is.
pub proof fn a_verdict_is_the_result(r: Result<(), VerifyError>)
    ensures
        r is Ok <==> verdict_of(r) is Accepted,
        match r {
            Ok(_) => true,
            Err(VerifyError::WrongActionCount) => verdict_of(r) is WrongActionCount,
            Err(VerifyError::TreeFull) => verdict_of(r) is TreeFull,
            Err(VerifyError::UnknownAnchor) => verdict_of(r) is UnknownAnchor,
            Err(VerifyError::DoubleSpend(d)) => verdict_of(r) == Verdict::DoubleSpend(
                crate::bytes::le_nat(d.0@),
            ),
            Err(VerifyError::Proof) => verdict_of(r) is Proof,
            Err(VerifyError::SpendAuth(i)) => verdict_of(r) == Verdict::SpendAuth(i as int),
            Err(VerifyError::Binding) => verdict_of(r) is Binding,
        },
{
}

/// Models leave nothing out: every field of an action, a bundle, a spend and an output is in its
/// model, and lists keep their order.
pub proof fn models_hold_every_field(
    action: Action,
    bundle: Bundle,
    spends: Seq<SpendInfo>,
    outputs: Seq<OutputInfo>,
)
    ensures
        action@.cv_net == action.cv_net@ && action@.nullifier == action.nullifier@,
        action@.rk == action.rk@ && action@.cm == action.cm@,
        action@.encrypted == action.encrypted@,
        bundle@.anchor == bundle.anchor@ && bundle@.now == bundle.now,
        bundle@.community == bundle.community@ && bundle@.proof == bundle.proof@,
        bundle@.actions.len() == bundle.actions@.len(),
        forall|i: int|
            0 <= i < bundle.actions@.len() ==> #[trigger] bundle@.actions[i]
                == bundle.actions@[i]@,
        bundle@.spend_auth_sigs.len() == bundle.spend_auth_sigs@.len(),
        forall|i: int|
            0 <= i < bundle.spend_auth_sigs@.len() ==> #[trigger] bundle@.spend_auth_sigs[i]
                == bundle.spend_auth_sigs@[i].0@,
        bundle@.binding_sig == bundle.binding_sig.0@,
        spend_models(spends).len() == spends.len(),
        forall|i: int|
            0 <= i < spends.len() ==> {
                let m = #[trigger] spend_models(spends)[i];
                let s = spends[i];
                &&& m.key == s.fvk@ && m.note == s.note.note@
                &&& m.rseed == s.note.rseed.bytes() && m.position == s.position
                &&& m.path.len() == 32
                &&& forall|l: int| 0 <= l < 32 ==> #[trigger] m.path[l] == s.path@[l]@
            },
        output_models(outputs).len() == outputs.len(),
        forall|i: int|
            0 <= i < outputs.len() ==> {
                let m = #[trigger] output_models(outputs)[i];
                let o = outputs[i];
                &&& m.address == o.address@ && m.value == o.value
                &&& m.kind == o.kind && m.expiry_epoch == o.expiry_epoch
                &&& m.memo_cm == o.memo_cm@ && m.memo == o.memo@
                &&& o.memo_opening is None ==> m.memo_opening is None
                &&& o.memo_opening matches Some(x) ==> m.memo_opening == Some(
                    (x.text@, x.r_memo@),
                )
            },
{
}

} // verus!
