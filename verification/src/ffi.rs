//! What the entry points for a node compute, on byte slices: arguments are checked, and every
//! failure is a code. Pointers and buffers belong to the caller.
//!
//! Field elements are 32 bytes, little endian.
use vstd::prelude::*;

use crate::bundle::{verify_bundle_crypto, Bundle, BundleModel, VerifyError};
use crate::bytes::{append, take};
use crate::circuit::value_balance::{ValueBalanceCircuit, N_IN, N_OUT};
use crate::keys::Address;
use crate::note::{creation_rho, from_parts, NoteKind, NoteModel, RandomSeed};
use crate::pallas::Base;
use crate::prover::ProveError;
use crate::tree::CommitmentTree;

verus! {

broadcast use vstd::array::group_array_axioms;

pub const GRDZK_VALUE_BYTES: usize = 32;

pub const GRDZK_OK: i32 = 0;

pub const GRDZK_ERR_NULL_POINTER: i32 = -1;

pub const GRDZK_ERR_BAD_ARITY: i32 = -2;

pub const GRDZK_ERR_BAD_VALUE: i32 = -3;

pub const GRDZK_ERR_PROVE_FAILED: i32 = -4;

pub const GRDZK_ERR_VERIFY_FAILED: i32 = -5;

pub const GRDZK_ERR_UNBALANCED: i32 = -6;

pub const GRDZK_ERR_VALUE_RANGE: i32 = -7;

pub const GRDZK_ERR_PANIC: i32 = -99;

pub const GRDZK_ERR_WIRE: i32 = -10;

pub const GRDZK_ERR_PROOF: i32 = -11;

pub const GRDZK_ERR_SPEND_AUTH: i32 = -12;

pub const GRDZK_ERR_BINDING: i32 = -13;

pub const GRDZK_ERR_BAD_ADDRESS: i32 = -14;

pub const GRDZK_ERR_TREE_FULL: i32 = -15;

/// Actions per bundle.
pub const GRDZK_BUNDLE_ACTIONS: usize = 2;

/// The size of the effects of a bundle: the anchor root, then nullifier and note commitment of
/// every action, 32 bytes each.
pub const GRDZK_BUNDLE_EFFECTS_SIZE: usize = 160;

/// The field element of 32 bytes.
pub open spec fn element(bytes: Seq<u8>) -> Option<nat> {
    let n = crate::bytes::le_nat(bytes);
    if n < crate::pallas::base_modulus() {
        Some(n)
    } else {
        None
    }
}

/// Decode a 32-byte little-endian field element. Rejects values >= the field modulus.
pub fn field_from_bytes(raw: &[u8]) -> (r: Option<Base>)
    requires
        raw@.len() == 32,
    ensures
        r is Some <==> element(raw@) is Some,
        r matches Some(b) ==> element(raw@) == Some(b@),
{
    let repr = take::<32>(raw, 0);
    assert(repr@ =~= raw@);
    Base::from_repr(&repr)
}

// ------------------------------------------------------------------------------ value balance

/// Two values of 32 bytes each.
pub open spec fn two_elements(bytes: Seq<u8>) -> Option<Seq<nat>> {
    match (element(bytes.subrange(0, 32)), element(bytes.subrange(32, 64))) {
        (Some(a), Some(b)) => Some(seq![a, b]),
        _ => None,
    }
}

fn two_from_bytes(raw: &[u8]) -> (r: Option<[Base; 2]>)
    requires
        raw@.len() == 64,
    ensures
        r is Some <==> two_elements(raw@) is Some,
        r matches Some(v) ==> two_elements(raw@) == Some(crate::hash::values(v@)),
{
    let a = field_from_bytes(vstd::slice::slice_subrange(raw, 0, 32))?;
    let b = field_from_bytes(vstd::slice::slice_subrange(raw, 32, 64))?;
    let r: [Base; 2] = [a, b];
    assert(crate::hash::values(r@) =~= seq![a@, b@]);
    Some(r)
}

/// The code of a proof that cannot be made.
pub open spec fn code_of_prove_error(e: ProveError) -> i32 {
    match e {
        ProveError::ValueOutOfRange => GRDZK_ERR_VALUE_RANGE,
        ProveError::Unbalanced => GRDZK_ERR_UNBALANCED,
        ProveError::Synthesis => GRDZK_ERR_PROVE_FAILED,
    }
}

/// The code of a proof that cannot be made.
pub fn prove_code(e: &ProveError) -> (r: i32)
    ensures
        r == code_of_prove_error(*e),
{
    match e {
        ProveError::ValueOutOfRange => GRDZK_ERR_VALUE_RANGE,
        ProveError::Unbalanced => GRDZK_ERR_UNBALANCED,
        ProveError::Synthesis => GRDZK_ERR_PROVE_FAILED,
    }
}

/// What is wrong with the arguments of a proof, in the order of the checks; 0 if nothing is.
pub open spec fn prove_arguments_code(
    inputs: Seq<u8>,
    n_in: usize,
    outputs: Seq<u8>,
    n_out: usize,
    sighash: Seq<u8>,
) -> i32 {
    if n_in != N_IN || n_out != N_OUT {
        GRDZK_ERR_BAD_ARITY
    } else if two_elements(inputs) is None || two_elements(outputs) is None || element(
        sighash,
    ) is None {
        GRDZK_ERR_BAD_VALUE
    } else {
        match crate::prover::witness_error(two_elements(inputs)->0, two_elements(outputs)->0) {
            Some(e) => code_of_prove_error(e),
            None => GRDZK_OK,
        }
    }
}

/// The witness of a proof that `sum(inputs) == sum(outputs)` in anchored units, bound to
/// `sighash`. `inputs` and `outputs` are `n_in` and `n_out` consecutive values.
pub fn prove(inputs: &[u8], n_in: usize, outputs: &[u8], n_out: usize, sighash: &[u8]) -> (r:
    Result<ValueBalanceCircuit, i32>)
    requires
        n_in == N_IN && n_out == N_OUT ==> inputs@.len() == 64 && outputs@.len() == 64,
        sighash@.len() == 32,
    ensures
        match r {
            Ok(c) => {
                &&& prove_arguments_code(inputs@, n_in, outputs@, n_out, sighash@) == GRDZK_OK
                &&& two_elements(inputs@) == Some(crate::hash::values(c.inputs@))
                &&& two_elements(outputs@) == Some(crate::hash::values(c.outputs@))
                &&& element(sighash@) == Some(c.sighash@)
            },
            Err(code) => {
                &&& code != GRDZK_OK
                &&& prove_arguments_code(inputs@, n_in, outputs@, n_out, sighash@) == code
            },
        },
{
    if n_in != N_IN || n_out != N_OUT {
        return Err(GRDZK_ERR_BAD_ARITY);
    }
    let ins = match two_from_bytes(inputs) {
        Some(v) => v,
        None => return Err(GRDZK_ERR_BAD_VALUE),
    };
    let outs = match two_from_bytes(outputs) {
        Some(v) => v,
        None => return Err(GRDZK_ERR_BAD_VALUE),
    };
    let sig = match field_from_bytes(sighash) {
        Some(v) => v,
        None => return Err(GRDZK_ERR_BAD_VALUE),
    };
    match crate::prover::prove(ins, outs, sig) {
        Ok(circuit) => Ok(circuit),
        Err(e) => Err(prove_code(&e)),
    }
}

/// The code for what the verifier of a proof says.
pub fn verify_code(holds: bool) -> (r: i32)
    ensures
        r == (if holds {
            GRDZK_OK
        } else {
            GRDZK_ERR_VERIFY_FAILED
        }),
{
    if holds {
        GRDZK_OK
    } else {
        GRDZK_ERR_VERIFY_FAILED
    }
}

// ------------------------------------------------------------------------- shielded transfers
//
// What a node needs, in the order it needs it: proof and signatures of a shielded transfer, the
// note commitment tree, whose roots are the valid anchors, and the note commitment of a public
// creation. Anchor history and nullifier set stay in the node. It takes anchor, nullifiers and
// note commitments from the effects of the bundle, so what it checks and appends is exactly what
// the proof covered.

/// The bundle of a transaction, or the code.
pub open spec fn decoded_transfer(
    shielded: Seq<u8>,
    authorization: Seq<u8>,
    community: Seq<u8>,
    now: u64,
) -> Result<BundleModel, i32> {
    match element(community) {
        None => Err(GRDZK_ERR_BAD_VALUE),
        Some(c) => match crate::wire::decoded_bundle(shielded, authorization, c, now) {
            Ok(b) => Ok(b),
            Err(_) => Err(GRDZK_ERR_WIRE),
        },
    }
}

/// The bundle of a transaction: `shielded` and `authorization` exactly as they appear in it,
/// `community` the field element of its community, `now` its time in seconds.
pub fn decode_transfer(
    shielded: &[u8],
    authorization: &[u8],
    community: &[u8; 32],
    now: u64,
) -> (r: Result<Bundle, i32>)
    ensures
        match r {
            Ok(b) => decoded_transfer(shielded@, authorization@, community@, now) == Ok::<
                BundleModel,
                i32,
            >(b@),
            Err(code) => decoded_transfer(shielded@, authorization@, community@, now) == Err::<
                BundleModel,
                i32,
            >(code),
        },
{
    let element = match field_from_bytes(community.as_slice()) {
        Some(c) => c,
        None => return Err(GRDZK_ERR_BAD_VALUE),
    };
    match crate::wire::decode(shielded, authorization, element, now) {
        Ok(bundle) => Ok(bundle),
        Err(_) => Err(GRDZK_ERR_WIRE),
    }
}

/// Nullifier and note commitment of every action.
pub open spec fn action_effects(actions: Seq<crate::bundle::ActionModel>) -> Seq<u8>
    decreases actions.len(),
{
    if actions.len() == 0 {
        Seq::empty()
    } else {
        let a = actions.last();
        action_effects(actions.drop_last()) + crate::bytes::le_bytes(a.nullifier, 32)
            + crate::bytes::le_bytes(a.cm, 32)
    }
}

/// `anchor | nf_0 | cm_0 | nf_1 | cm_1`.
pub open spec fn effects(b: BundleModel) -> Seq<u8> {
    crate::bytes::le_bytes(b.anchor, 32) + action_effects(b.actions)
}

/// The code of a verdict.
pub open spec fn code_of_verdict(v: crate::bundle::Verdict) -> i32 {
    match v {
        crate::bundle::Verdict::Accepted => GRDZK_OK,
        crate::bundle::Verdict::Proof => GRDZK_ERR_PROOF,
        crate::bundle::Verdict::SpendAuth(_) => GRDZK_ERR_SPEND_AUTH,
        crate::bundle::Verdict::Binding => GRDZK_ERR_BINDING,
        _ => GRDZK_ERR_VERIFY_FAILED,
    }
}

/// The effects of a bundle whose proof and signatures hold, for what the verifier says of its
/// proof. A node checks anchor and nullifiers against its state and appends the commitments from
/// there.
pub fn bundle_verify(bundle: &Bundle, sighash: &[u8; 32], proof_holds: bool) -> (r: Result<
    Vec<u8>,
    i32,
>)
    ensures
        match r {
            Ok(out) => {
                &&& crate::bundle::crypto_verdict(bundle@, sighash@, proof_holds)
                    is Accepted
                &&& out@ == effects(bundle@)
                &&& out@.len() == GRDZK_BUNDLE_EFFECTS_SIZE
            },
            Err(code) => {
                &&& code != GRDZK_OK
                &&& code == code_of_verdict(
                    crate::bundle::crypto_verdict(bundle@, sighash@, proof_holds),
                )
            },
        },
{
    match verify_bundle_crypto(bundle, sighash, proof_holds) {
        Ok(_) => {},
        Err(VerifyError::Proof) => return Err(GRDZK_ERR_PROOF),
        Err(VerifyError::SpendAuth(_)) => return Err(GRDZK_ERR_SPEND_AUTH),
        Err(VerifyError::Binding) => return Err(GRDZK_ERR_BINDING),
        Err(_) => return Err(GRDZK_ERR_VERIFY_FAILED),
    }
    let mut out: Vec<u8> = Vec::new();
    append(&mut out, bundle.anchor.to_repr().as_slice());
    let ghost models = bundle@.actions;
    let ghost head = out@;
    let mut i: usize = 0;
    assert(models.take(0) =~= Seq::empty());
    assert(out@ =~= head + action_effects(models.take(0)));
    while i < bundle.actions.len()
        invariant
            i <= bundle.actions@.len(),
            models == bundle@.actions,
            out@ == head + action_effects(models.take(i as int)),
            out@.len() == 32 + 64 * i,
        decreases bundle.actions@.len() - i,
    {
        let action = &bundle.actions[i];
        append(&mut out, action.nullifier.to_repr().as_slice());
        append(&mut out, action.cm.to_repr().as_slice());
        proof {
            assert(models.take(i + 1).drop_last() =~= models.take(i as int));
            assert(models.take(i + 1).last() == action@);
            crate::bytes::lemma_le_bytes_len(action@.nullifier, 32);
            crate::bytes::lemma_le_bytes_len(action@.cm, 32);
            assert(out@ =~= head + action_effects(models.take(i + 1)));
        }
        i = i + 1;
    }
    assert(models.take(i as int) =~= models);
    Ok(out)
}

/// Opaque note commitment tree. It lives in memory; a node rebuilds it at startup by appending the
/// stored commitments in order.
pub struct GrdzkTree(pub CommitmentTree);

impl GrdzkTree {
    /// A new, empty tree.
    pub fn new() -> (r: Self)
        ensures
            r.0.leaves() == Seq::<nat>::empty(),
            r.0.marks() == Set::<nat>::empty(),
            r.0.sealed() == 0,
            r.0.checkpoints() == Seq::<(u64, nat)>::empty(),
            r.0.limit() == crate::tree::DEFAULT_CHECKPOINTS,
            r.0.wf(),
    {
        GrdzkTree(CommitmentTree::default())
    }

    /// Append one 32-byte note commitment.
    pub fn append(&mut self, cm: &[u8; 32]) -> (r: i32)
        ensures
            r == (match element(cm@) {
                None => GRDZK_ERR_BAD_VALUE,
                Some(_) => if old(self).0.leaves().len() < crate::tree::TREE_CAPACITY {
                    GRDZK_OK
                } else {
                    GRDZK_ERR_TREE_FULL
                },
            }),
            final(self).0.leaves() == (if r == GRDZK_OK {
                old(self).0.leaves().push(element(cm@)->0)
            } else {
                old(self).0.leaves()
            }),
            final(self).0.marks() == old(self).0.marks(),
            final(self).0.sealed() == old(self).0.sealed(),
            final(self).0.checkpoints() == old(self).0.checkpoints(),
            final(self).0.limit() == old(self).0.limit(),
    {
        let element = match field_from_bytes(cm.as_slice()) {
            Some(c) => c,
            None => return GRDZK_ERR_BAD_VALUE,
        };
        match self.0.append(element, false) {
            Some(_) => GRDZK_OK,
            None => GRDZK_ERR_TREE_FULL,
        }
    }

    /// Seal the tree after a transaction; call once per confirmed transaction.
    pub fn checkpoint(&mut self)
        requires
            old(self).0.wf(),
        ensures
            final(self).0.wf(),
            final(self).0.leaves() == old(self).0.leaves(),
            final(self).0.marks() == old(self).0.marks(),
            final(self).0.sealed_once_since(old(self).0),
    {
        self.0.checkpoint();
    }

    /// Current root. Valid anchors are the roots after each checkpoint.
    pub fn root(&self) -> (r: [u8; 32])
        ensures
            r@ == crate::bytes::le_bytes(crate::tree::tree_root(self.0.leaves()), 32),
    {
        self.0.root().to_repr()
    }

    /// Number of notes in the tree, which is also the position the next note gets.
    pub fn size(&self) -> (r: u64)
        ensures
            r as nat == self.0.leaves().len(),
    {
        self.0.size()
    }
}

/// The note of a public creation, or the code.
pub open spec fn created_note(
    community: Seq<u8>,
    value: u64,
    created_at: u64,
    expiry_epoch: u64,
    address: Seq<u8>,
    position: u64,
    rseed: Seq<u8>,
    memo_cm: Seq<u8>,
) -> Result<NoteModel, i32> {
    match (element(community), element(memo_cm)) {
        (Some(c), Some(m)) => match crate::keys::address_of_raw(address) {
            None => Err(GRDZK_ERR_BAD_ADDRESS),
            Some(a) => match crate::note::note_of_parts(
                c,
                c,
                value,
                created_at,
                NoteKind::Normal,
                expiry_epoch,
                a,
                crate::note::rho_of_creation(c, position as nat),
                m,
                rseed,
            ) {
                Ok(note) => Ok(note),
                Err(_) => Err(GRDZK_ERR_BAD_VALUE),
            },
        },
        _ => Err(GRDZK_ERR_BAD_VALUE),
    }
}

/// Note commitment of a public creation: a node computes it from the public fields.
///
/// `address` is the raw address (diversifier and compressed pk_d), `position` the leaf position
/// the note gets in the tree, from which its `rho` is derived, `rseed` and `memo_cm` are as
/// published.
pub fn creation_commitment(
    community: &[u8; 32],
    value: u64,
    created_at: u64,
    expiry_epoch: u64,
    address: &[u8; 43],
    position: u64,
    rseed: &[u8; 32],
    memo_cm: &[u8; 32],
) -> (r: Result<[u8; 32], i32>)
    ensures
        match r {
            Ok(cm) => {
                let note = created_note(
                    community@,
                    value,
                    created_at,
                    expiry_epoch,
                    address@,
                    position,
                    rseed@,
                    memo_cm@,
                );
                note is Ok && cm@ == crate::bytes::le_bytes(note->Ok_0.cm(), 32)
            },
            Err(code) => created_note(
                community@,
                value,
                created_at,
                expiry_epoch,
                address@,
                position,
                rseed@,
                memo_cm@,
            ) == Err::<NoteModel, i32>(code),
        },
{
    let (community, memo_cm) = match (
        field_from_bytes(community.as_slice()),
        field_from_bytes(memo_cm.as_slice()),
    ) {
        (Some(c), Some(m)) => (c, m),
        _ => return Err(GRDZK_ERR_BAD_VALUE),
    };
    let address = match Address::from_raw(address) {
        Some(a) => a,
        None => return Err(GRDZK_ERR_BAD_ADDRESS),
    };
    let note = from_parts(
        community,
        community,
        value,
        created_at,
        NoteKind::Normal,
        expiry_epoch,
        &address,
        creation_rho(community, position),
        memo_cm,
        RandomSeed::from_bytes(*rseed),
    );
    match note {
        Ok(note) => Ok(note.commitment().to_repr()),
        Err(_) => Err(GRDZK_ERR_BAD_VALUE),
    }
}

// --------------------------------------------------------------------------------------- laws

/// A field element is read exactly from a canonical encoding, and is the integer of its bytes.
pub proof fn elements_are_canonical(bytes: Seq<u8>)
    requires
        bytes.len() == 32,
    ensures
        element(bytes) is Some <==> crate::bytes::le_nat(bytes)
            < 0x40000000000000000000000000000000224698fc094cf91b992d30ed00000001nat,
        element(bytes) matches Some(v) ==> crate::bytes::le_bytes(v, 32) == bytes,
        forall|v: nat|
            v < crate::pallas::base_modulus() ==> element(
                #[trigger] crate::bytes::le_bytes(v, 32),
            ) == Some(v),
{
    crate::bytes::lemma_le_bytes_of_le_nat(bytes);
    crate::bytes::lemma_pow256_values();
    assert forall|v: nat| v < crate::pallas::base_modulus() implies element(
        #[trigger] crate::bytes::le_bytes(v, 32),
    ) == Some(v) by {
        crate::bytes::lemma_le_nat_of_le_bytes(v, 32);
    }
}

/// The arguments of a proof pass exactly where there are two inputs and two outputs, all canonical
/// and below 2^160, with the same sum, and a canonical sighash. Otherwise the code tells what is
/// wrong: the numbers, an element that is not canonical, a value that is too large, the sums.
pub proof fn arguments_pass_where_a_proof_can_be_made(
    inputs: Seq<u8>,
    n_in: usize,
    outputs: Seq<u8>,
    n_out: usize,
    sighash: Seq<u8>,
)
    ensures
        ({
            let code = prove_arguments_code(inputs, n_in, outputs, n_out, sighash);
            let a = crate::bytes::le_nat(inputs.subrange(0, 32));
            let b = crate::bytes::le_nat(inputs.subrange(32, 64));
            let c = crate::bytes::le_nat(outputs.subrange(0, 32));
            let d = crate::bytes::le_nat(outputs.subrange(32, 64));
            let p = crate::pallas::base_modulus();
            let limit = 0x1_0000_0000_0000_0000_0000_0000_0000_0000_0000_0000nat;
            let arity = n_in == 2 && n_out == 2;
            let canonical = a < p && b < p && c < p && d < p && crate::bytes::le_nat(sighash) < p;
            let small = a < limit && b < limit && c < limit && d < limit;
            code == (if !arity {
                -2
            } else if !canonical {
                -3
            } else if !small {
                -7
            } else if a + b != c + d {
                -6
            } else {
                0int
            })
        }),
{
    if two_elements(inputs) is Some && two_elements(outputs) is Some {
        crate::prover::a_witness_is_small_and_balanced(
            two_elements(inputs)->0,
            two_elements(outputs)->0,
        );
    }
}

/// The codes of verdicts: 0 is acceptance and nothing else is, and proof, spend authorisation and
/// binding signature have codes of their own.
pub proof fn verdicts_have_codes(v: crate::bundle::Verdict)
    ensures
        code_of_verdict(v) == (match v {
            crate::bundle::Verdict::Accepted => 0int,
            crate::bundle::Verdict::Proof => -11,
            crate::bundle::Verdict::SpendAuth(_) => -12,
            crate::bundle::Verdict::Binding => -13,
            _ => -5,
        }),
{
}

/// The effects of a bundle are its anchor, then nullifier and commitment of the first and of the
/// second action.
pub proof fn effects_are_what_is_published(b: BundleModel)
    requires
        b.actions.len() == 2,
    ensures
        effects(b).len() == 160,
        effects(b).subrange(0, 32) == crate::bytes::le_bytes(b.anchor, 32),
        effects(b).subrange(32, 64) == crate::bytes::le_bytes(b.actions[0].nullifier, 32),
        effects(b).subrange(64, 96) == crate::bytes::le_bytes(b.actions[0].cm, 32),
        effects(b).subrange(96, 128) == crate::bytes::le_bytes(b.actions[1].nullifier, 32),
        effects(b).subrange(128, 160) == crate::bytes::le_bytes(b.actions[1].cm, 32),
{
    let front = b.actions.drop_last();
    assert(front.drop_last() =~= Seq::empty());
    assert(front.last() == b.actions[0]);
    reveal_with_fuel(action_effects, 3);
    crate::bytes::lemma_le_bytes_len(b.anchor, 32);
    crate::bytes::lemma_le_bytes_len(b.actions[0].nullifier, 32);
    crate::bytes::lemma_le_bytes_len(b.actions[0].cm, 32);
    crate::bytes::lemma_le_bytes_len(b.actions[1].nullifier, 32);
    crate::bytes::lemma_le_bytes_len(b.actions[1].cm, 32);
}

/// A transfer is decoded for a canonical community and is the bundle on the wire, at the given
/// time.
pub proof fn a_transfer_is_decoded_for_its_community(
    shielded: Seq<u8>,
    authorization: Seq<u8>,
    community: Seq<u8>,
    now: u64,
)
    ensures
        ({
            let r = decoded_transfer(shielded, authorization, community, now);
            let c = crate::bytes::le_nat(community);
            let wire = crate::wire::decoded_bundle(shielded, authorization, c, now);
            &&& r is Ok <==> c < crate::pallas::base_modulus() && wire is Ok
            &&& r matches Ok(b) ==> wire matches Ok(w) && b == w
            &&& r matches Err(code) ==> code == (if c < crate::pallas::base_modulus() {
                -10int
            } else {
                -3
            })
        }),
{
}

/// A creation is committed to exactly where community and memo commitment are canonical, the
/// address is one, and value, time and expiry fit a note; the note is a normal one of that
/// community, with all the published fields, and its `rho` comes from its position.
pub proof fn a_creation_is_its_public_fields(
    community: Seq<u8>,
    value: u64,
    created_at: u64,
    expiry_epoch: u64,
    address: Seq<u8>,
    position: u64,
    rseed: Seq<u8>,
    memo_cm: Seq<u8>,
)
    ensures
        ({
            let r = created_note(
                community,
                value,
                created_at,
                expiry_epoch,
                address,
                position,
                rseed,
                memo_cm,
            );
            let c = crate::bytes::le_nat(community);
            let m = crate::bytes::le_nat(memo_cm);
            let pk_d = crate::pallas::decode_point(address.subrange(11, 43));
            let canonical = c < crate::pallas::base_modulus() && m < crate::pallas::base_modulus();
            let addressed = pk_d matches Some(p) && p != 0;
            let fits = value < 0x8000_0000_0000_0000 && created_at < 0x100_0000_0000
                && expiry_epoch < 0x1_0000;
            &&& r is Ok <==> canonical && addressed && fits
            &&& r matches Err(code) ==> code == (if canonical && !addressed {
                -14int
            } else {
                -3
            })
            &&& r matches Ok(note) ==> {
                &&& note.community == c && note.coin_community == c
                &&& note.value == value && note.t_note == created_at
                &&& note.kind == NoteKind::Normal && note.expiry_epoch == expiry_epoch
                &&& note.d == crate::bytes::le_nat(address.subrange(0, 11))
                &&& note.g_d == crate::pallas::pallas_multiple(
                    crate::keys::diversified_base(address.subrange(0, 11)),
                )
                &&& note.pk_d == crate::pallas::pallas_multiple(pk_d->0)
                &&& note.rho == crate::note::rho_of_creation(c, position as nat)
                &&& note.psi == crate::note::psi_of_seed(rseed, note.rho)
                &&& note.rcm == crate::note::rcm_of_seed(rseed, note.rho)
                &&& note.memo_cm == m
            }
        }),
{
    if let Some(a) = crate::keys::address_of_raw(address) {
        if let (Some(c), Some(m)) = (element(community), element(memo_cm)) {
            crate::note::parts_become_the_note(
                c,
                c,
                value,
                created_at,
                NoteKind::Normal,
                expiry_epoch,
                a,
                crate::note::rho_of_creation(c, position as nat),
                m,
                rseed,
            );
        }
    }
}

} // verus!
