//! The device's side of the custody split: check a transfer, then sign it.
//!
//! The community server builds and proves; the device holds the spending key and authorises.
//! If the device signed whatever 32-byte hash the server sent, a compromised server could swap
//! a payment to Bob for one to itself and get it signed, and the node would accept it, because it
//! is a perfectly valid transfer. So the device never takes a hash from the server. It gets the
//! transaction body and the openings of every created note, and recomputes everything that
//! decides where the money goes:
//!
//! 1. the sighash, from the body bytes
//! 2. the body itself: a local shielded transfer and nothing else (`wire::parse_transfer_body`)
//! 3. every created note: its commitment must be the one in the body, its ciphertexts must be
//!    exactly what encrypting the opening gives, its memo must match `memo_cm`
//! 4. every created note is sorted into own (change), value 0 (padding) or a payment, and the
//!    payments are what the device shows
//! 5. it signs only actions whose `rk` is derived from its own `ak`
//!
//! That is enough because every created note of the transfer passes through step 3, and the
//! proof and the binding signature guarantee that the created notes add up to the spent ones.
//! The server cannot hide an output, and if it spends more of the owner's notes than needed, the
//! surplus comes back as change the device sees.
//!
//! What this does not cover: the sealed memos in `TransactionBody.memos` are not opened here, so
//! a wrong one costs the recipient the memo text, not money; `rseed` comes from the server, so a
//! server that chooses it badly can weaken the privacy of the notes, not move them. And none of
//! this helps if the device's code comes from the server it is meant to check: the signer has to
//! be an app or extension of its own, not a page the community server delivers.
use vstd::prelude::*;

use crate::bundle::{body_sighash, Action, ActionModel, ACTIONS};
use crate::bytes::{copied, same, take};
use crate::keys::{Address, AddressModel, FullViewingKey, SpendAuthorizingKey, SpendingKey, ViewingKeyModel};
use crate::note::{from_parts, NoteError, NoteKind, NoteModel, RandomSeed};
use crate::note_encryption::{encrypt, GradidoDomain, NoteWithSeed, OutgoingFiller};
use crate::pallas::{Base, Scalar};
use crate::protobuf::{
    push_bytes_field, push_flat, read_fields, read_flat, Field, Kind, Slot, SlotModel, Token,
    NESTING_LIMIT,
};
use crate::signature::SpendAuthSignature;
use crate::wire::WireError;

verus! {

broadcast use vstd::array::group_array_axioms;

/// Text and randomness of a memo, so the device can check it against `memo_cm`.
#[derive(Clone, Copy, Debug, PartialEq, Eq)]
pub struct MemoOpening {
    pub text: [u8; 512],
    pub r_memo: Base,
}

/// Everything about one created note that is not in the transaction body.
#[derive(Clone, Copy, Debug, PartialEq, Eq)]
pub struct OutputOpening {
    pub address: Address,
    pub value: u64,
    pub kind: NoteKind,
    pub expiry_epoch: u64,
    pub rseed: RandomSeed,
    /// zero for no memo
    pub memo_cm: Base,
    /// the free part of the memo slot inside the note encryption
    pub free_memo: [u8; 463],
    /// required whenever `memo_cm` is not zero
    pub memo: Option<MemoOpening>,
}

/// What the server sends to the device.
#[derive(Clone, Debug, PartialEq, Eq)]
pub struct SigningRequest {
    /// `GradidoTransaction.body_bytes`, exactly as they will be submitted
    pub body: Vec<u8>,
    /// one opening per action, in action order
    pub outputs: Vec<OutputOpening>,
    /// the rerandomiser of every action the device has to sign, `None` for the others
    pub alphas: Vec<Option<Scalar>>,
}

/// A payment to someone else, as the device shows it.
#[derive(Clone, Copy, Debug, PartialEq, Eq)]
pub struct Payment {
    pub address: Address,
    /// GradidoUnit at `created_at`
    pub value: u64,
    pub kind: NoteKind,
    pub memo: Option<[u8; 512]>,
    pub free_memo: [u8; 463],
}

/// The result of checking a request: what signing it means.
#[derive(Clone, Debug, PartialEq, Eq)]
pub struct Review {
    pub created_at: u64,
    pub payments: Vec<Payment>,
    /// value that comes back to the device's own addresses
    pub change: u64,
    /// the hash the signatures will cover, computed from the body
    pub sighash: [u8; 32],
    /// how many spends the device signs
    pub spends: usize,
}

#[derive(Clone, Copy, Debug, PartialEq, Eq)]
pub enum ReviewError {
    /// the body is not a well-formed local shielded transfer
    Body(WireError),
    WrongOutputCount(usize),
    WrongAlphaCount(usize),
    /// the opening of this action is not a valid note
    InvalidNote(usize, NoteError),
    /// the opening does not give the note commitment in the body
    CommitmentMismatch(usize),
    /// the ciphertexts in the body are not the encryption of the opening
    CiphertextMismatch(usize),
    /// `memo_cm` is set but no memo, or a memo that does not match, was sent
    MemoMismatch(usize),
    /// an alpha was sent for an action that does not spend with this device's key
    ForeignSpend(usize),
    NothingToSign,
    /// the request itself could not be decoded
    Request,
}

// ------------------------------------------------------------------------------------- model

/// An opening of a created note.
#[verifier::ext_equal]
pub struct OpeningModel {
    pub address: AddressModel,
    pub value: u64,
    pub kind: NoteKind,
    pub expiry_epoch: u64,
    pub rseed: Seq<u8>,
    pub memo_cm: nat,
    pub free_memo: Seq<u8>,
    /// text and randomness
    pub memo: Option<(Seq<u8>, nat)>,
}

pub open spec fn memo_view(m: Option<MemoOpening>) -> Option<(Seq<u8>, nat)> {
    match m {
        Some(m) => Some((m.text@, m.r_memo@)),
        None => None,
    }
}

impl View for OutputOpening {
    type V = OpeningModel;

    open spec fn view(&self) -> OpeningModel {
        OpeningModel {
            address: self.address@,
            value: self.value,
            kind: self.kind,
            expiry_epoch: self.expiry_epoch,
            rseed: self.rseed.bytes(),
            memo_cm: self.memo_cm@,
            free_memo: self.free_memo@,
            memo: memo_view(self.memo),
        }
    }
}

/// What the server sends to the device.
#[verifier::ext_equal]
pub struct RequestModel {
    pub body: Seq<u8>,
    pub outputs: Seq<OpeningModel>,
    pub alphas: Seq<Option<nat>>,
}

pub open spec fn alpha_view(a: Option<Scalar>) -> Option<nat> {
    match a {
        Some(a) => Some(a@),
        None => None,
    }
}

impl View for SigningRequest {
    type V = RequestModel;

    open spec fn view(&self) -> RequestModel {
        RequestModel {
            body: self.body@,
            outputs: self.outputs@.map_values(|o: OutputOpening| o@),
            alphas: self.alphas@.map_values(|a: Option<Scalar>| alpha_view(a)),
        }
    }
}

/// A payment to someone else.
#[verifier::ext_equal]
pub struct PaymentModel {
    pub address: AddressModel,
    pub value: u64,
    pub kind: NoteKind,
    pub memo: Option<Seq<u8>>,
    pub free_memo: Seq<u8>,
}

impl View for Payment {
    type V = PaymentModel;

    open spec fn view(&self) -> PaymentModel {
        PaymentModel {
            address: self.address@,
            value: self.value,
            kind: self.kind,
            memo: match self.memo {
                Some(m) => Some(m@),
                None => None,
            },
            free_memo: self.free_memo@,
        }
    }
}

pub open spec fn payment_models(p: Seq<Payment>) -> Seq<PaymentModel> {
    p.map_values(|p: Payment| p@)
}

/// What signing a request means.
#[verifier::ext_equal]
pub struct ReviewModel {
    pub created_at: u64,
    pub payments: Seq<PaymentModel>,
    pub change: u64,
    pub sighash: Seq<u8>,
    pub spends: nat,
}

impl View for Review {
    type V = ReviewModel;

    open spec fn view(&self) -> ReviewModel {
        ReviewModel {
            created_at: self.created_at,
            payments: payment_models(self.payments@),
            change: self.change,
            sighash: self.sighash@,
            spends: self.spends as nat,
        }
    }
}

/// The note that an opening stands for, created by an action at a time.
pub open spec fn opened_note(
    opening: OpeningModel,
    community: nat,
    created_at: u64,
    rho: nat,
) -> Result<NoteModel, NoteError> {
    crate::note::note_of_parts(
        community,
        community,
        opening.value,
        created_at,
        opening.kind,
        opening.expiry_epoch,
        opening.address,
        rho,
        opening.memo_cm,
        opening.rseed,
    )
}

/// Whether the ciphertexts of an action are what encrypting a note for the owner of `ovk` gives.
pub open spec fn ciphertexts_match(
    action: ActionModel,
    note: NoteModel,
    opening: OpeningModel,
    ovk: Seq<u8>,
) -> bool {
    let expected = crate::note_encryption::encrypted_note(
        note,
        opening.rseed,
        opening.free_memo,
        Some(ovk),
        action.cv_net,
        (crate::bytes::zeros(32), crate::bytes::zeros(64)),
    );
    &&& expected.epk == action.encrypted.epk
    &&& expected.enc == action.encrypted.enc
    &&& expected.out == action.encrypted.out
}

/// Whether the memo of an opening is what its `memo_cm` says.
pub open spec fn memo_matches(opening: OpeningModel) -> bool {
    match opening.memo {
        None => opening.memo_cm == 0,
        Some((text, r_memo)) => opening.memo_cm != 0 && crate::memo::memo_commitment(text, r_memo)
            == opening.memo_cm,
    }
}

/// What is wrong with a created note, if anything.
pub open spec fn output_error(
    i: usize,
    action: ActionModel,
    opening: OpeningModel,
    ovk: Seq<u8>,
    community: nat,
    created_at: u64,
) -> Option<ReviewError> {
    match opened_note(opening, community, created_at, action.nullifier) {
        Err(e) => Some(ReviewError::InvalidNote(i, e)),
        Ok(note) => if note.cm() != action.cm {
            Some(ReviewError::CommitmentMismatch(i))
        } else if !ciphertexts_match(action, note, opening, ovk) {
            Some(ReviewError::CiphertextMismatch(i))
        } else if !memo_matches(opening) {
            Some(ReviewError::MemoMismatch(i))
        } else {
            None
        },
    }
}

/// A payment of an opening.
pub open spec fn payment_of(opening: OpeningModel) -> PaymentModel {
    PaymentModel {
        address: opening.address,
        value: opening.value,
        kind: opening.kind,
        memo: match opening.memo {
            Some((text, _)) => Some(text),
            None => None,
        },
        free_memo: opening.free_memo,
    }
}

/// Payments, change and number of spends so far.
#[verifier::ext_equal]
pub struct Tally {
    pub payments: Seq<PaymentModel>,
    pub change: u64,
    pub spends: nat,
}

impl Tally {
    pub open spec fn none() -> Tally {
        Tally { payments: Seq::empty(), change: 0, spends: 0 }
    }

    /// Where the created note goes.
    pub open spec fn with_output(
        self,
        i: usize,
        opening: OpeningModel,
        key: ViewingKeyModel,
    ) -> Result<Tally, ReviewError> {
        if key.address(opening.address.d) == opening.address {
            if self.change + opening.value > u64::MAX {
                Err(ReviewError::InvalidNote(i, NoteError::ValueTooLarge))
            } else {
                Ok(Tally { change: (self.change + opening.value) as u64, ..self })
            }
        } else if opening.value > 0 {
            Ok(Tally { payments: self.payments.push(payment_of(opening)), ..self })
        } else {
            Ok(self)
        }
    }

    /// The spend, only with the own key.
    pub open spec fn with_spend(
        self,
        i: usize,
        action: ActionModel,
        alpha: Option<nat>,
        key: ViewingKeyModel,
    ) -> Result<Tally, ReviewError> {
        match alpha {
            None => Ok(self),
            Some(alpha) => if crate::signature::randomized_key(key.ak, alpha) != action.rk {
                Err(ReviewError::ForeignSpend(i))
            } else {
                Ok(Tally { spends: self.spends + 1, ..self })
            },
        }
    }

    /// One more action.
    pub open spec fn with_action(
        self,
        i: usize,
        action: ActionModel,
        opening: OpeningModel,
        alpha: Option<nat>,
        key: ViewingKeyModel,
        community: nat,
        created_at: u64,
    ) -> Result<Tally, ReviewError> {
        match output_error(i, action, opening, key.ovk, community, created_at) {
            Some(e) => Err(e),
            None => match self.with_output(i, opening, key) {
                Err(e) => Err(e),
                Ok(t) => t.with_spend(i, action, alpha, key),
            },
        }
    }
}

/// The first `n` actions of a request.
pub open spec fn tallied(
    actions: Seq<ActionModel>,
    request: RequestModel,
    key: ViewingKeyModel,
    community: nat,
    created_at: u64,
    n: nat,
) -> Result<Tally, ReviewError>
    decreases n,
{
    if n == 0 {
        Ok(Tally::none())
    } else {
        let i = n - 1;
        match tallied(actions, request, key, community, created_at, i as nat) {
            Err(e) => Err(e),
            Ok(t) => t.with_action(
                i as usize,
                actions[i],
                request.outputs[i],
                request.alphas[i],
                key,
                community,
                created_at,
            ),
        }
    }
}

/// Time and actions of a transaction body.
pub open spec fn body_contents(body: Seq<u8>) -> Result<(u64, Seq<ActionModel>), WireError> {
    match crate::wire::parsed_body(body) {
        Err(e) => Err(e),
        Ok(b) => match crate::wire::decoded_shielded(b.shielded) {
            Err(e) => Err(e),
            Ok((_, actions)) => Ok((b.created_at, actions)),
        },
    }
}

/// What signing a request means to the owner of a viewing key, or what is wrong with it.
pub open spec fn reviewed(request: RequestModel, key: ViewingKeyModel, community: nat) -> Result<
    ReviewModel,
    ReviewError,
> {
    match body_contents(request.body) {
        Err(e) => Err(ReviewError::Body(e)),
        Ok((created_at, actions)) => if request.outputs.len() != ACTIONS {
            Err(ReviewError::WrongOutputCount(request.outputs.len() as usize))
        } else if request.alphas.len() != ACTIONS {
            Err(ReviewError::WrongAlphaCount(request.alphas.len() as usize))
        } else {
            match tallied(actions, request, key, community, created_at, ACTIONS as nat) {
                Err(e) => Err(e),
                Ok(t) => if t.spends == 0 {
                    Err(ReviewError::NothingToSign)
                } else {
                    Ok(
                        ReviewModel {
                            created_at,
                            payments: t.payments,
                            change: t.change,
                            sighash: crate::bundle::hash_of_body(request.body),
                            spends: t.spends,
                        },
                    )
                },
            }
        },
    }
}

/// A request spends as many notes at most as it has actions.
pub proof fn lemma_spends_bound(request: RequestModel, key: ViewingKeyModel, community: nat)
    ensures
        reviewed(request, key, community) matches Ok(v) ==> v.spends <= ACTIONS,
{
    if let Ok((created_at, actions)) = body_contents(request.body) {
        reveal_with_fuel(tallied, 3);
    }
}

// ------------------------------------------------------------------------------------ review

/// The created note: commitment, ciphertexts, memo.
fn check_output(
    i: usize,
    action: &Action,
    opening: &OutputOpening,
    fvk: &FullViewingKey,
    community: Base,
    created_at: u64,
) -> (r: Result<(), ReviewError>)
    ensures
        match r {
            Ok(_) => output_error(i, action@, opening@, fvk@.ovk, community@, created_at) is None,
            Err(e) => output_error(i, action@, opening@, fvk@.ovk, community@, created_at) == Some(e),
        },
{
    let note = match from_parts(
        community,
        community,
        opening.value,
        created_at,
        opening.kind,
        opening.expiry_epoch,
        &opening.address,
        action.nullifier,
        opening.memo_cm,
        opening.rseed,
    ) {
        Ok(note) => note,
        Err(e) => return Err(ReviewError::InvalidNote(i, e)),
    };
    if !note.commitment().same(&action.cm) {
        return Err(ReviewError::CommitmentMismatch(i));
    }
    let domain = GradidoDomain { community, coin_community: community, rho: action.nullifier };
    // with an outgoing viewing key the encryption is deterministic; the filler is never used
    let filler = OutgoingFiller { key: [0u8; 32], plaintext: [0u8; 64] };
    proof {
        use_type_invariant(&opening.address.pk_d);
        assert(filler.key@ =~= crate::bytes::zeros(32));
        assert(filler.plaintext@ =~= crate::bytes::zeros(64));
    }
    let expected = encrypt(
        domain,
        &NoteWithSeed { note, rseed: opening.rseed },
        opening.free_memo,
        Some(fvk.ovk),
        action.cv_net,
        &filler,
    );
    if !same(expected.epk_bytes.as_slice(), action.encrypted.epk_bytes.as_slice()) || !same(
        expected.enc_ciphertext.as_slice(),
        action.encrypted.enc_ciphertext.as_slice(),
    ) || !same(
        expected.out_ciphertext.as_slice(),
        action.encrypted.out_ciphertext.as_slice(),
    ) {
        return Err(ReviewError::CiphertextMismatch(i));
    }
    let memo_fits = match &opening.memo {
        None => opening.memo_cm.is_zero(),
        Some(m) => !opening.memo_cm.is_zero() && crate::memo::verify(
            &m.text,
            m.r_memo,
            opening.memo_cm,
        ),
    };
    if !memo_fits {
        return Err(ReviewError::MemoMismatch(i));
    }
    Ok(())
}

/// Checks a request against a viewing key. Nothing is signed.
pub fn review_with_key(request: &SigningRequest, fvk: &FullViewingKey, community: Base) -> (r:
    Result<Review, ReviewError>)
    ensures
        match r {
            Ok(v) => reviewed(request@, fvk@, community@) == Ok::<ReviewModel, ReviewError>(v@),
            Err(e) => reviewed(request@, fvk@, community@) == Err::<ReviewModel, ReviewError>(e),
        },
{
    let body = match crate::wire::parse_transfer_body(request.body.as_slice()) {
        Ok(b) => b,
        Err(e) => return Err(ReviewError::Body(e)),
    };
    let (_, actions) = match crate::wire::decode_shielded(body.shielded.as_slice()) {
        Ok(v) => v,
        Err(e) => return Err(ReviewError::Body(e)),
    };
    let ghost models = crate::bundle::action_models(actions@);
    let ghost req = request@;
    proof {
        crate::wire::actions_have_one_encoding(body.shielded@);
        assert(body_contents(req.body) == Ok::<(u64, Seq<ActionModel>), WireError>(
            (body.created_at, models),
        ));
    }
    if request.outputs.len() != ACTIONS {
        return Err(ReviewError::WrongOutputCount(request.outputs.len()));
    }
    if request.alphas.len() != ACTIONS {
        return Err(ReviewError::WrongAlphaCount(request.alphas.len()));
    }
    let mut payments: Vec<Payment> = Vec::new();
    let mut change: u64 = 0;
    let mut spends: usize = 0;
    let mut i: usize = 0;
    assert(payment_models(payments@) =~= Seq::empty());
    while i < ACTIONS
        invariant
            i <= ACTIONS,
            actions@.len() == ACTIONS,
            request.outputs@.len() == ACTIONS,
            request.alphas@.len() == ACTIONS,
            models == crate::bundle::action_models(actions@),
            req == request@,
            body_contents(req.body) == Ok::<(u64, Seq<ActionModel>), WireError>(
                (body.created_at, models),
            ),
            spends <= i,
            tallied(models, req, fvk@, community@, body.created_at, i as nat) == Ok::<
                Tally,
                ReviewError,
            >(Tally { payments: payment_models(payments@), change, spends: spends as nat }),
        decreases ACTIONS - i,
    {
        let action = &actions[i];
        let opening = &request.outputs[i];
        let ghost before = Tally {
            payments: payment_models(payments@),
            change,
            spends: spends as nat,
        };
        proof {
            assert(models[i as int] == action@);
            assert(req.outputs[i as int] == opening@);
            assert(req.alphas[i as int] == alpha_view(request.alphas@[i as int]));
            if tallied(models, req, fvk@, community@, body.created_at, (i + 1) as nat) is Err {
                lemma_tally_stops(
                    models,
                    req,
                    fvk@,
                    community@,
                    body.created_at,
                    (i + 1) as nat,
                    ACTIONS as nat,
                );
            }
        }
        match check_output(i, action, opening, fvk, community, body.created_at) {
            Ok(_) => {},
            Err(e) => return Err(e),
        }
        // where it goes
        if fvk.owns(&opening.address) {
            change = match change.checked_add(opening.value) {
                Some(sum) => sum,
                None => return Err(ReviewError::InvalidNote(i, NoteError::ValueTooLarge)),
            };
        } else if opening.value > 0 {
            let payment = Payment {
                address: opening.address,
                value: opening.value,
                kind: opening.kind,
                memo: match &opening.memo {
                    Some(m) => Some(m.text),
                    None => None,
                },
                free_memo: opening.free_memo,
            };
            payments.push(payment);
            proof {
                assert(payment@ =~= payment_of(opening@));
                assert(payment_models(payments@) =~= before.payments.push(payment@));
            }
        }
        let ghost middle = Tally {
            payments: payment_models(payments@),
            change,
            spends: spends as nat,
        };
        assert(before.with_output(i, opening@, fvk@) == Ok::<Tally, ReviewError>(middle));
        // the spend: only with our own key
        match &request.alphas[i] {
            None => {},
            Some(alpha) => {
                let rk = crate::signature::randomized_verification_key(fvk.ak, *alpha);
                if !rk.0.same(&action.rk) {
                    return Err(ReviewError::ForeignSpend(i));
                }
                spends = spends + 1;
            },
        }
        i = i + 1;
    }
    if spends == 0 {
        return Err(ReviewError::NothingToSign);
    }
    Ok(
        Review {
            created_at: body.created_at,
            payments,
            change,
            sighash: body_sighash(request.body.as_slice()),
            spends,
        },
    )
}

proof fn lemma_tally_stops(
    actions: Seq<ActionModel>,
    request: RequestModel,
    key: ViewingKeyModel,
    community: nat,
    created_at: u64,
    m: nat,
    n: nat,
)
    requires
        m <= n,
        tallied(actions, request, key, community, created_at, m) is Err,
    ensures
        tallied(actions, request, key, community, created_at, n) == tallied(
            actions,
            request,
            key,
            community,
            created_at,
            m,
        ),
    decreases n,
{
    if m < n {
        lemma_tally_stops(actions, request, key, community, created_at, m, (n - 1) as nat);
    }
}

/// Checks a request against the device's own key. Nothing is signed.
pub fn review(request: &SigningRequest, sk: &SpendingKey, community: Base) -> (r: Result<
    Review,
    ReviewError,
>)
    requires
        crate::keys::derivable(sk.bytes()),
    ensures
        match r {
            Ok(v) => reviewed(request@, crate::keys::viewing_key(sk.bytes()), community@) == Ok::<
                ReviewModel,
                ReviewError,
            >(v@),
            Err(e) => reviewed(request@, crate::keys::viewing_key(sk.bytes()), community@) == Err::<
                ReviewModel,
                ReviewError,
            >(e),
        },
{
    review_with_key(request, &sk.full_viewing_key(), community)
}

/// Like `review`; `None` if the spending key gives no viewing key after `u64::MAX` attempts.
pub fn try_review(request: &SigningRequest, sk: &SpendingKey, community: Base) -> (r: Option<
    Result<Review, ReviewError>,
>)
    ensures
        r is Some <==> crate::keys::has_viewing_key(sk.bytes()),
        r matches Some(Ok(v)) ==> reviewed(
            request@,
            crate::keys::viewing_key(sk.bytes()),
            community@,
        ) == Ok::<ReviewModel, ReviewError>(v@),
        r matches Some(Err(e)) ==> reviewed(
            request@,
            crate::keys::viewing_key(sk.bytes()),
            community@,
        ) == Err::<ReviewModel, ReviewError>(e),
{
    match sk.try_full_viewing_key() {
        None => None,
        Some(_) => Some(review(request, sk, community)),
    }
}

/// The actions that the device signs.
pub open spec fn signed_actions(alphas: Seq<Option<nat>>) -> Seq<int>
    decreases alphas.len(),
{
    if alphas.len() == 0 {
        Seq::empty()
    } else if alphas.last() is Some {
        signed_actions(alphas.drop_last()).push(alphas.len() - 1)
    } else {
        signed_actions(alphas.drop_last())
    }
}

/// Whether there is one valid signature for each action that the device signs, in action order,
/// under the key of that action.
pub open spec fn signatures_cover(
    sigs: Seq<SpendAuthSignature>,
    alphas: Seq<Option<nat>>,
    ak: nat,
    sighash: Seq<u8>,
) -> bool {
    let signed = signed_actions(alphas);
    &&& sigs.len() == signed.len()
    &&& forall|k: int|
        0 <= k < sigs.len() ==> crate::signature::spend_auth_verifies(
            crate::pallas::encode_point(
                crate::signature::randomized_key(ak, alphas[signed[k]]->0),
            ),
            sighash,
            (#[trigger] sigs[k]).0@,
        )
}

/// Signs every action that an alpha was sent for. `entropy` seeds the randomness of the
/// signatures, one seed per action.
fn sign_all(
    ask: &SpendAuthorizingKey,
    alphas: &[Option<Scalar>],
    sighash: &[u8; 32],
    entropy: &[[u8; 32]; 2],
) -> (r: Vec<SpendAuthSignature>)
    requires
        alphas@.len() == 2,
    ensures
        signatures_cover(
            r@,
            alphas@.map_values(|a: Option<Scalar>| alpha_view(a)),
            crate::pallas::point_product(crate::signature::spend_auth_generator(), ask.0@),
            sighash@,
        ),
{
    let mut sigs: Vec<SpendAuthSignature> = Vec::new();
    let ghost all = alphas@.map_values(|a: Option<Scalar>| alpha_view(a));
    let ghost ak = crate::pallas::point_product(
        crate::signature::spend_auth_generator(),
        ask.0@,
    );
    let mut i: usize = 0;
    assert(all.take(0) =~= Seq::empty());
    while i < alphas.len()
        invariant
            i <= alphas@.len(),
            alphas@.len() == 2,
            all == alphas@.map_values(|a: Option<Scalar>| alpha_view(a)),
            ak == crate::pallas::point_product(
                crate::signature::spend_auth_generator(),
                ask.0@,
            ),
            signatures_cover(sigs@, all.take(i as int), ak, sighash@),
        decreases alphas@.len() - i,
    {
        let ghost before = all.take(i as int);
        let ghost next = all.take(i + 1);
        let ghost old_sigs = sigs@;
        proof {
            assert(next.drop_last() =~= before);
            lemma_signed_bounds(before);
        }
        match &alphas[i] {
            Some(alpha) => {
                let sig = crate::signature::sign_spend_auth(ask, *alpha, sighash, &entropy[i]);
                sigs.push(sig);
                proof {
                    let signed = signed_actions(next);
                    assert forall|k: int| 0 <= k < sigs@.len() implies
                        crate::signature::spend_auth_verifies(
                        crate::pallas::encode_point(
                            crate::signature::randomized_key(ak, next[signed[k]]->0),
                        ),
                        sighash@,
                        (#[trigger] sigs@[k]).0@,
                    ) by {
                        if k < old_sigs.len() {
                            assert(sigs@[k] == old_sigs[k]);
                            assert(signed[k] == signed_actions(before)[k]);
                            assert(next[signed[k]] == before[signed[k]]);
                        } else {
                            assert(next[signed[k]] == Some(alpha@));
                        }
                    }
                }
            },
            None => {
                proof {
                    let signed = signed_actions(next);
                    assert forall|k: int| 0 <= k < sigs@.len() implies
                        crate::signature::spend_auth_verifies(
                        crate::pallas::encode_point(
                            crate::signature::randomized_key(ak, next[signed[k]]->0),
                        ),
                        sighash@,
                        (#[trigger] sigs@[k]).0@,
                    ) by {
                        assert(next[signed[k]] == before[signed[k]]);
                    }
                }
            },
        }
        i = i + 1;
    }
    assert(all.take(i as int) =~= all);
    sigs
}

proof fn lemma_signed_bounds(alphas: Seq<Option<nat>>)
    ensures
        signed_actions(alphas).len() <= alphas.len(),
        forall|k: int|
            0 <= k < signed_actions(alphas).len() ==> 0 <= #[trigger] signed_actions(alphas)[k]
                < alphas.len() && alphas[signed_actions(alphas)[k]] is Some,
    decreases alphas.len(),
{
    if alphas.len() > 0 {
        lemma_signed_bounds(alphas.drop_last());
    }
}

/// Reviews the request and, if it holds, signs every spend of this device. The signatures come
/// in action order, as `UnauthorizedBundle::authorize` expects them. Show the `Review` to the
/// owner before the signatures leave the device. `entropy` seeds the randomness of the
/// signatures, one seed per action.
pub fn sign(
    request: &SigningRequest,
    sk: &SpendingKey,
    community: Base,
    entropy: &[[u8; 32]; 2],
) -> (r: Result<(Review, Vec<SpendAuthSignature>), ReviewError>)
    requires
        crate::keys::derivable(sk.bytes()),
    ensures
        match r {
            Ok((v, sigs)) => reviewed(request@, crate::keys::viewing_key(sk.bytes()), community@)
                == Ok::<ReviewModel, ReviewError>(v@) && signatures_cover(
                sigs@,
                request@.alphas,
                crate::keys::public_authorizing_key(sk.bytes()),
                v@.sighash,
            ),
            Err(e) => reviewed(request@, crate::keys::viewing_key(sk.bytes()), community@) == Err::<
                ReviewModel,
                ReviewError,
            >(e),
        },
{
    let review = match review(request, sk, community) {
        Ok(v) => v,
        Err(e) => return Err(e),
    };
    let ask = sk.spend_authorizing_key();
    let sigs = sign_all(&ask, request.alphas.as_slice(), &review.sighash, entropy);
    Ok((review, sigs))
}

/// Like `sign`; `None` if the spending key gives no viewing key after `u64::MAX` attempts.
pub fn try_sign(
    request: &SigningRequest,
    sk: &SpendingKey,
    community: Base,
    entropy: &[[u8; 32]; 2],
) -> (r: Option<Result<(Review, Vec<SpendAuthSignature>), ReviewError>>)
    ensures
        r is Some <==> crate::keys::has_viewing_key(sk.bytes()),
        r matches Some(Ok((v, sigs))) ==> reviewed(
            request@,
            crate::keys::viewing_key(sk.bytes()),
            community@,
        ) == Ok::<ReviewModel, ReviewError>(v@) && signatures_cover(
            sigs@,
            request@.alphas,
            crate::keys::public_authorizing_key(sk.bytes()),
            v@.sighash,
        ),
        r matches Some(Err(e)) ==> reviewed(
            request@,
            crate::keys::viewing_key(sk.bytes()),
            community@,
        ) == Err::<ReviewModel, ReviewError>(e),
{
    match sk.try_full_viewing_key() {
        None => None,
        Some(_) => Some(sign(request, sk, community, entropy)),
    }
}

/// A signature leaves the device as 64 bytes.
pub fn signature_bytes(signature: &SpendAuthSignature) -> (r: [u8; 64])
    ensures
        r@ == signature.0@,
{
    signature.0
}

// ------------------------------------------------------------------------------ transport

/// Upper bound for an encoded request, checked before decoding.
pub const MAX_REQUEST_SIZE: usize = 65536;

/// The kinds of the fields of an opening: address, value, kind, expiry epoch, seed, memo
/// commitment, free memo, memo text, memo randomness.
pub open spec fn opening_schema() -> Seq<Kind> {
    seq![
        Kind::Bytes,
        Kind::Uint64,
        Kind::Uint32,
        Kind::Uint64,
        Kind::Bytes,
        Kind::Bytes,
        Kind::Bytes,
        Kind::Bytes,
        Kind::Bytes,
    ]
}

/// A request as a message: body (1), openings (2), and the alphas (3), 32 bytes per action, empty
/// for an action the device does not sign.
#[verifier::ext_equal]
pub struct RequestMessage {
    pub body: Seq<u8>,
    pub outputs: Seq<Seq<SlotModel>>,
    pub alphas: Seq<Seq<u8>>,
}

impl RequestMessage {
    /// The message without any field.
    pub open spec fn absent() -> RequestMessage {
        RequestMessage { body: Seq::empty(), outputs: Seq::empty(), alphas: Seq::empty() }
    }

    /// The fields that are written, in tag order.
    pub open spec fn fields(self) -> Seq<(u32, Token)> {
        crate::wire::optional_bytes(1, self.body) + crate::wire::repeated_messages(2, self.outputs)
            + crate::wire::repeated_bytes(3, self.alphas)
    }

    /// The canonical encoding.
    pub open spec fn encoded(self) -> Seq<u8> {
        crate::protobuf::message_bytes(self.fields())
    }

    /// The message with one more field, as protobuf merges it.
    pub open spec fn merged(self, tag: u32, token: Token) -> Option<RequestMessage> {
        if 1 <= tag <= 3 {
            match token {
                Token::Bytes(b) => if tag == 1 {
                    Some(RequestMessage { body: b, ..self })
                } else if tag == 2 {
                    match crate::protobuf::flat_over(
                        opening_schema(),
                        crate::protobuf::absent_all(opening_schema()),
                        b,
                        99,
                    ) {
                        Some(o) => Some(RequestMessage { outputs: self.outputs.push(o), ..self }),
                        None => None,
                    }
                } else {
                    Some(RequestMessage { alphas: self.alphas.push(b), ..self })
                },
                _ => None,
            }
        } else {
            Some(self)
        }
    }

    /// The message of some fields.
    pub open spec fn of_fields(fields: Seq<(u32, Token)>) -> Option<RequestMessage>
        decreases fields.len(),
    {
        if fields.len() == 0 {
            Some(RequestMessage::absent())
        } else {
            match RequestMessage::of_fields(fields.drop_last()) {
                None => None,
                Some(m) => m.merged(fields.last().0, fields.last().1),
            }
        }
    }

    /// What some bytes decode to, by the rules of protobuf alone.
    pub open spec fn decoded(bytes: Seq<u8>) -> Option<RequestMessage> {
        match crate::protobuf::tokens(bytes, true, 100) {
            None => None,
            Some(fields) => RequestMessage::of_fields(fields),
        }
    }

    /// Sub-messages and lengths that can be written.
    pub open spec fn well_formed(self) -> bool {
        &&& self.body.len() < crate::protobuf::two_to_64()
        &&& forall|i: int|
            0 <= i < self.outputs.len() ==> crate::protobuf::fits(
                opening_schema(),
                #[trigger] self.outputs[i],
            ) && crate::protobuf::flat_bytes(self.outputs[i]).len()
                < crate::protobuf::two_to_64()
        &&& forall|i: int|
            0 <= i < self.alphas.len() ==> (#[trigger] self.alphas[i]).len()
                < crate::protobuf::two_to_64()
    }
}

/// The message of an opening.
pub open spec fn opening_message(o: OpeningModel) -> Seq<SlotModel> {
    seq![
        SlotModel::Bytes(o.address.raw()),
        SlotModel::Int(o.value),
        SlotModel::Int(o.kind.number() as u64),
        SlotModel::Int(o.expiry_epoch),
        SlotModel::Bytes(o.rseed),
        SlotModel::Bytes(crate::bytes::le_bytes(o.memo_cm, 32)),
        SlotModel::Bytes(o.free_memo),
        SlotModel::Bytes(
            match o.memo {
                Some((text, _)) => text,
                None => Seq::empty(),
            },
        ),
        SlotModel::Bytes(
            match o.memo {
                Some((_, r_memo)) => crate::bytes::le_bytes(r_memo, 32),
                None => Seq::empty(),
            },
        ),
    ]
}

/// The bytes of an alpha.
pub open spec fn alpha_bytes(a: Option<nat>) -> Seq<u8> {
    match a {
        Some(a) => crate::bytes::le_bytes(a, 32),
        None => Seq::empty(),
    }
}

/// The message of a request.
pub open spec fn request_message(r: RequestModel) -> RequestMessage {
    RequestMessage {
        body: r.body,
        outputs: r.outputs.map_values(|o: OpeningModel| opening_message(o)),
        alphas: r.alphas.map_values(|a: Option<nat>| alpha_bytes(a)),
    }
}

/// The base field element that 32 bytes hold.
pub open spec fn field_of(b: Seq<u8>) -> Option<nat> {
    if b.len() == 32 && crate::bytes::le_nat(b) < crate::pallas::base_modulus() {
        Some(crate::bytes::le_nat(b))
    } else {
        None
    }
}

/// The memo of an opening message; text and randomness come together or not at all.
pub open spec fn memo_of(text: Seq<u8>, r_memo: Seq<u8>) -> Option<Option<(Seq<u8>, nat)>> {
    if text.len() == 0 && r_memo.len() == 0 {
        Some(None)
    } else if text.len() == 512 && field_of(r_memo) is Some {
        Some(Some((text, field_of(r_memo)->0)))
    } else {
        None
    }
}

/// An integer among the fields of a message.
pub open spec fn number(m: Seq<SlotModel>, i: int) -> u64 {
    match m[i] {
        SlotModel::Int(v) => v,
        SlotModel::Bytes(_) => 0,
    }
}

/// The opening that a message holds.
pub open spec fn opening_of(m: Seq<SlotModel>) -> Option<OpeningModel> {
    let raw = crate::wire::blob(m, 0);
    let address = crate::keys::address_of_raw(raw);
    let kind = number(m, 2);
    let rseed = crate::wire::blob(m, 4);
    let memo_cm = field_of(crate::wire::blob(m, 5));
    let free_memo = crate::wire::blob(m, 6);
    let memo = memo_of(crate::wire::blob(m, 7), crate::wire::blob(m, 8));
    if raw.len() == 43 && address is Some && kind <= 1 && rseed.len() == 32 && memo_cm is Some
        && free_memo.len() == 463 && memo is Some {
        Some(
            OpeningModel {
                address: address->0,
                value: number(m, 1),
                kind: if kind == 0 {
                    NoteKind::Normal
                } else {
                    NoteKind::Deferred
                },
                expiry_epoch: number(m, 3),
                rseed,
                memo_cm: memo_cm->0,
                free_memo,
                memo: memo->0,
            },
        )
    } else {
        None
    }
}

/// The alpha that some bytes hold.
pub open spec fn alpha_of(b: Seq<u8>) -> Option<Option<nat>> {
    if b.len() == 0 {
        Some(None)
    } else if b.len() == 32 && crate::bytes::le_nat(b) < crate::pallas::scalar_modulus() {
        Some(Some(crate::bytes::le_nat(b)))
    } else {
        None
    }
}

/// The request that a message holds.
pub open spec fn request_of(m: RequestMessage) -> Option<RequestModel> {
    if (forall|i: int|
        0 <= i < m.outputs.len() ==> opening_of(#[trigger] m.outputs[i]) is Some) && (forall|i: int|
        0 <= i < m.alphas.len() ==> alpha_of(#[trigger] m.alphas[i]) is Some) {
        Some(
            RequestModel {
                body: m.body,
                outputs: m.outputs.map_values(|o: Seq<SlotModel>| opening_of(o)->0),
                alphas: m.alphas.map_values(|a: Seq<u8>| alpha_of(a)->0),
            },
        )
    } else {
        None
    }
}

/// The request that some bytes are the encoding of.
pub open spec fn decoded_request(bytes: Seq<u8>) -> Option<RequestModel> {
    match RequestMessage::decoded(bytes) {
        None => None,
        Some(m) => if bytes.len() <= MAX_REQUEST_SIZE && m.encoded() == bytes {
            request_of(m)
        } else {
            None
        },
    }
}

/// A request as a message.
struct SigningRequestMessage {
    body: Vec<u8>,
    outputs: Vec<Vec<Slot>>,
    alphas: Vec<Vec<u8>>,
}

impl View for SigningRequestMessage {
    type V = RequestMessage;

    closed spec fn view(&self) -> RequestMessage {
        RequestMessage {
            body: self.body@,
            outputs: self.outputs@.map_values(|o: Vec<Slot>| crate::protobuf::contents(o@)),
            alphas: self.alphas@.map_values(|a: Vec<u8>| a@),
        }
    }
}

impl SigningRequestMessage {
    fn encode_to_vec(&self) -> (r: Vec<u8>)
        requires
            forall|i: int| 0 <= i < self.outputs@.len() ==> (#[trigger] self.outputs@[i])@.len() == 9,
        ensures
            r@ == self@.encoded(),
    {
        let ghost m = self@;
        let mut out: Vec<u8> = Vec::new();
        let ghost head = crate::wire::optional_bytes(1, m.body);
        if self.body.len() > 0 {
            push_bytes_field(&mut out, 1, self.body.as_slice());
            proof {
                crate::protobuf::lemma_message_push(Seq::empty(), 1, Token::Bytes(m.body));
                assert(Seq::<(u32, Token)>::empty().push((1u32, Token::Bytes(m.body))) =~= head);
            }
        }
        assert(out@ =~= crate::protobuf::message_bytes(head));
        let mut i: usize = 0;
        assert(head + crate::wire::repeated_messages(2, m.outputs.take(0)) =~= head);
        while i < self.outputs.len()
            invariant
                i <= self.outputs@.len(),
                m == self@,
                forall|j: int|
                    0 <= j < self.outputs@.len() ==> (#[trigger] self.outputs@[j])@.len() == 9,
                out@ == crate::protobuf::message_bytes(
                    head + crate::wire::repeated_messages(2, m.outputs.take(i as int)),
                ),
            decreases self.outputs@.len() - i,
        {
            let mut inner: Vec<u8> = Vec::new();
            push_flat(&mut inner, self.outputs[i].as_slice());
            assert(inner@ =~= crate::protobuf::flat_bytes(m.outputs[i as int]));
            let ghost before = head + crate::wire::repeated_messages(2, m.outputs.take(i as int));
            push_bytes_field(&mut out, 2, inner.as_slice());
            proof {
                crate::protobuf::lemma_message_push(before, 2, Token::Bytes(inner@));
                assert(before.push((2u32, Token::Bytes(inner@))) =~= head
                    + crate::wire::repeated_messages(2, m.outputs.take(i + 1)));
            }
            i = i + 1;
        }
        assert(m.outputs.take(i as int) =~= m.outputs);
        let ghost middle = head + crate::wire::repeated_messages(2, m.outputs);
        let mut j: usize = 0;
        assert(middle + crate::wire::repeated_bytes(3, m.alphas.take(0)) =~= middle);
        while j < self.alphas.len()
            invariant
                j <= self.alphas@.len(),
                m == self@,
                out@ == crate::protobuf::message_bytes(
                    middle + crate::wire::repeated_bytes(3, m.alphas.take(j as int)),
                ),
            decreases self.alphas@.len() - j,
        {
            let ghost before = middle + crate::wire::repeated_bytes(3, m.alphas.take(j as int));
            let ghost b = m.alphas[j as int];
            push_bytes_field(&mut out, 3, self.alphas[j].as_slice());
            proof {
                crate::protobuf::lemma_message_push(before, 3, Token::Bytes(b));
                assert(before.push((3u32, Token::Bytes(b))) =~= middle
                    + crate::wire::repeated_bytes(3, m.alphas.take(j + 1)));
            }
            j = j + 1;
        }
        assert(m.alphas.take(j as int) =~= m.alphas);
        out
    }

    fn decode(bytes: &[u8]) -> (r: Option<SigningRequestMessage>)
        ensures
            r is Some <==> RequestMessage::decoded(bytes@) is Some,
            r matches Some(m) ==> RequestMessage::decoded(bytes@) == Some(m@) && forall|i: int|
                0 <= i < m.outputs@.len() ==> (#[trigger] m.outputs@[i])@.len() == 9
                    && crate::wire::kinds_match(
                    opening_schema(),
                    crate::protobuf::contents(m.outputs@[i]@),
                ),
    {
        let fields = read_fields(bytes, true, NESTING_LIMIT)?;
        let ghost all = crate::protobuf::shown(fields@);
        let mut m = SigningRequestMessage {
            body: Vec::new(),
            outputs: Vec::new(),
            alphas: Vec::new(),
        };
        assert(m@ =~= RequestMessage::absent());
        assert(all.take(0) =~= Seq::empty());
        let mut i: usize = 0;
        while i < fields.len()
            invariant
                i <= fields@.len(),
                all == crate::protobuf::shown(fields@),
                crate::protobuf::tokens(bytes@, true, 100) == Some(all),
                RequestMessage::of_fields(all.take(i as int)) == Some(m@),
                forall|j: int|
                    0 <= j < m.outputs@.len() ==> (#[trigger] m.outputs@[j])@.len() == 9
                        && crate::wire::kinds_match(
                        opening_schema(),
                        crate::protobuf::contents(m.outputs@[j]@),
                    ),
            decreases fields@.len() - i,
        {
            proof {
                assert(all.take(i + 1).drop_last() =~= all.take(i as int));
                assert(all.take(i + 1).last() == (fields@[i as int].0, fields@[i as int].1@));
                if RequestMessage::of_fields(all.take(i + 1)) is None {
                    lemma_request_stops(all, i as int + 1);
                }
            }
            let ghost before = m@;
            let tag: u32 = fields[i].0;
            if 1 <= tag && tag <= 3 {
                match &fields[i].1 {
                    Field::Bytes(b) => {
                        if tag == 1 {
                            m.body = copied(b.as_slice());
                            assert(m@ =~= (RequestMessage { body: b@, ..before }));
                        } else if tag == 2 {
                            let o = read_opening(b.as_slice())?;
                            let ghost c = crate::protobuf::contents(o@);
                            m.outputs.push(o);
                            assert(m@ =~= (RequestMessage {
                                outputs: before.outputs.push(c),
                                ..before
                            }));
                        } else {
                            m.alphas.push(copied(b.as_slice()));
                            assert(m@ =~= (RequestMessage {
                                alphas: before.alphas.push(b@),
                                ..before
                            }));
                        }
                    },
                    _ => return None,
                }
            }
            i = i + 1;
        }
        assert(all.take(i as int) =~= all);
        Some(m)
    }
}

proof fn lemma_request_stops(fields: Seq<(u32, Token)>, n: int)
    requires
        0 <= n <= fields.len(),
        RequestMessage::of_fields(fields.take(n)) is None,
    ensures
        RequestMessage::of_fields(fields) is None,
    decreases fields.len(),
{
    if n == fields.len() {
        assert(fields.take(n) =~= fields);
    } else {
        assert(fields.drop_last().take(n) =~= fields.take(n));
        lemma_request_stops(fields.drop_last(), n);
    }
}

/// The fields of an opening message.
fn read_opening(bytes: &[u8]) -> (r: Option<Vec<Slot>>)
    ensures
        ({
            let read = crate::protobuf::flat_over(
                opening_schema(),
                crate::protobuf::absent_all(opening_schema()),
                bytes@,
                99,
            );
            &&& r is Some <==> read is Some
            &&& r matches Some(o) ==> read == Some(crate::protobuf::contents(o@)) && o@.len() == 9
                && crate::wire::kinds_match(opening_schema(), crate::protobuf::contents(o@))
        }),
{
    let schema: [Kind; 9] = [
        Kind::Bytes,
        Kind::Uint64,
        Kind::Uint32,
        Kind::Uint64,
        Kind::Bytes,
        Kind::Bytes,
        Kind::Bytes,
        Kind::Bytes,
        Kind::Bytes,
    ];
    assert(schema@ =~= opening_schema());
    let mut none: Vec<Slot> = Vec::new();
    none.push(Slot::Bytes(Vec::new()));
    none.push(Slot::Int(0));
    none.push(Slot::Int(0));
    none.push(Slot::Int(0));
    none.push(Slot::Bytes(Vec::new()));
    none.push(Slot::Bytes(Vec::new()));
    none.push(Slot::Bytes(Vec::new()));
    none.push(Slot::Bytes(Vec::new()));
    none.push(Slot::Bytes(Vec::new()));
    let ghost start = crate::protobuf::absent_all(opening_schema());
    assert(crate::protobuf::contents(none@) =~= start);
    let found = read_flat(schema.as_slice(), none, bytes, 99)?;
    proof {
        let fields = crate::protobuf::tokens(bytes@, true, 99)->0;
        assert(crate::wire::kinds_match(opening_schema(), start));
        crate::wire::lemma_overwritten_fits(opening_schema(), start, fields);
        assert(crate::protobuf::contents(found@).len() == found@.len());
    }
    Some(found)
}

/// The base field element that 32 bytes hold.
fn field(bytes: &[u8]) -> (r: Option<Base>)
    ensures
        r is Some <==> field_of(bytes@) is Some,
        r matches Some(b) ==> field_of(bytes@) == Some(b@),
{
    if bytes.len() != 32 {
        return None;
    }
    let b: [u8; 32] = take(bytes, 0);
    assert(b@ =~= bytes@);
    Base::from_repr(&b)
}

/// A byte string among the fields of a message.
fn bytes_at(m: &Vec<Slot>, i: usize) -> (r: Vec<u8>)
    requires
        i < m@.len(),
    ensures
        r@ == crate::wire::blob(crate::protobuf::contents(m@), i as int),
{
    assert(crate::protobuf::contents(m@)[i as int] == m@[i as int]@);
    match &m[i] {
        Slot::Bytes(b) => copied(b.as_slice()),
        Slot::Int(_) => {
            let none: Vec<u8> = Vec::new();
            assert(none@ =~= Seq::empty());
            none
        },
    }
}

/// An integer among the fields of a message.
fn int_at(m: &Vec<Slot>, i: usize) -> (r: u64)
    requires
        i < m@.len(),
    ensures
        r == number(crate::protobuf::contents(m@), i as int),
{
    assert(crate::protobuf::contents(m@)[i as int] == m@[i as int]@);
    match &m[i] {
        Slot::Int(v) => *v,
        Slot::Bytes(_) => 0,
    }
}

/// The memo of an opening message.
fn read_memo(text: &[u8], r_memo: &[u8]) -> (r: Option<Option<MemoOpening>>)
    ensures
        r is Some <==> memo_of(text@, r_memo@) is Some,
        r matches Some(m) ==> memo_of(text@, r_memo@) == Some(memo_view(m)),
{
    if text.len() == 0 && r_memo.len() == 0 {
        return Some(None);
    }
    if text.len() != 512 {
        return None;
    }
    let t: [u8; 512] = take(text, 0);
    assert(t@ =~= text@);
    let r_memo = field(r_memo)?;
    Some(Some(MemoOpening { text: t, r_memo }))
}

/// The opening that a message holds.
fn opening_from_message(m: &Vec<Slot>) -> (r: Option<OutputOpening>)
    requires
        m@.len() == 9,
    ensures
        ({
            let c = crate::protobuf::contents(m@);
            &&& r is Some <==> opening_of(c) is Some
            &&& r matches Some(o) ==> opening_of(c) == Some(o@)
        }),
{
    let text = bytes_at(m, 7);
    let r_memo = bytes_at(m, 8);
    let memo = read_memo(text.as_slice(), r_memo.as_slice())?;
    let raw = bytes_at(m, 0);
    if raw.len() != 43 {
        return None;
    }
    let raw_array: [u8; 43] = take(raw.as_slice(), 0);
    assert(raw_array@ =~= raw@);
    let address = Address::from_raw(&raw_array)?;
    let number: u64 = int_at(m, 2);
    let kind = if number == 0 {
        NoteKind::Normal
    } else if number == 1 {
        NoteKind::Deferred
    } else {
        return None;
    };
    let seed = bytes_at(m, 4);
    if seed.len() != 32 {
        return None;
    }
    let seed_array: [u8; 32] = take(seed.as_slice(), 0);
    assert(seed_array@ =~= seed@);
    let memo_cm = field(bytes_at(m, 5).as_slice())?;
    let free = bytes_at(m, 6);
    if free.len() != 463 {
        return None;
    }
    let free_memo: [u8; 463] = take(free.as_slice(), 0);
    assert(free_memo@ =~= free@);
    Some(
        OutputOpening {
            address,
            value: int_at(m, 1),
            kind,
            expiry_epoch: int_at(m, 3),
            rseed: RandomSeed::from_bytes(seed_array),
            memo_cm,
            free_memo,
            memo,
        },
    )
}

/// The alpha that some bytes hold.
fn alpha_from_bytes(b: &[u8]) -> (r: Option<Option<Scalar>>)
    ensures
        r is Some <==> alpha_of(b@) is Some,
        r matches Some(a) ==> alpha_of(b@) == Some(alpha_view(a)),
{
    if b.len() == 0 {
        return Some(None);
    }
    if b.len() != 32 {
        return None;
    }
    let array: [u8; 32] = take(b, 0);
    assert(array@ =~= b@);
    match Scalar::from_repr(&array) {
        Some(a) => Some(Some(a)),
        None => None,
    }
}

impl OutputOpening {
    /// The fields of the opening message.
    fn to_message(&self) -> (r: Vec<Slot>)
        ensures
            r@.len() == 9,
            crate::protobuf::contents(r@) == opening_message(self@),
    {
        let mut r: Vec<Slot> = Vec::new();
        r.push(Slot::Bytes(copied(self.address.to_raw().as_slice())));
        r.push(Slot::Int(self.value));
        r.push(Slot::Int(self.kind.to_u8() as u64));
        r.push(Slot::Int(self.expiry_epoch));
        r.push(Slot::Bytes(copied(self.rseed.to_bytes().as_slice())));
        r.push(Slot::Bytes(copied(self.memo_cm.to_repr().as_slice())));
        r.push(Slot::Bytes(copied(self.free_memo.as_slice())));
        match &self.memo {
            Some(m) => {
                r.push(Slot::Bytes(copied(m.text.as_slice())));
                r.push(Slot::Bytes(copied(m.r_memo.to_repr().as_slice())));
            },
            None => {
                r.push(Slot::Bytes(Vec::new()));
                r.push(Slot::Bytes(Vec::new()));
            },
        }
        assert(crate::protobuf::contents(r@) =~= opening_message(self@));
        r
    }
}

impl SigningRequest {
    /// Protobuf encoding for the way from the server to the device.
    pub fn encode(&self) -> (r: Vec<u8>)
        ensures
            r@ == request_message(self@).encoded(),
    {
        let ghost model = self@;
        let mut outputs: Vec<Vec<Slot>> = Vec::new();
        let mut i: usize = 0;
        while i < self.outputs.len()
            invariant
                i <= self.outputs@.len(),
                model == self@,
                outputs@.len() == i,
                forall|j: int|
                    0 <= j < i ==> (#[trigger] outputs@[j])@.len() == 9
                        && crate::protobuf::contents(outputs@[j]@) == opening_message(
                        model.outputs[j],
                    ),
            decreases self.outputs@.len() - i,
        {
            outputs.push(self.outputs[i].to_message());
            i = i + 1;
        }
        let mut alphas: Vec<Vec<u8>> = Vec::new();
        let mut j: usize = 0;
        while j < self.alphas.len()
            invariant
                j <= self.alphas@.len(),
                model == self@,
                alphas@.len() == j,
                forall|k: int|
                    0 <= k < j ==> (#[trigger] alphas@[k])@ == alpha_bytes(model.alphas[k]),
            decreases self.alphas@.len() - j,
        {
            let bytes = match &self.alphas[j] {
                Some(a) => copied(a.to_repr().as_slice()),
                None => Vec::new(),
            };
            assert(bytes@ =~= alpha_bytes(model.alphas[j as int]));
            alphas.push(bytes);
            j = j + 1;
        }
        let m = SigningRequestMessage { body: copied(self.body.as_slice()), outputs, alphas };
        assert(m@ =~= request_message(model));
        m.encode_to_vec()
    }

    /// Strict decoding: canonical encoding and exact lengths only. The content is checked by
    /// `review`, not here.
    pub fn decode(bytes: &[u8]) -> (r: Result<Self, ReviewError>)
        ensures
            r is Ok <==> decoded_request(bytes@) is Some,
            r matches Ok(request) ==> decoded_request(bytes@) == Some(request@),
            r matches Err(e) ==> e == ReviewError::Request,
    {
        if bytes.len() > MAX_REQUEST_SIZE {
            return Err(ReviewError::Request);
        }
        let message = match SigningRequestMessage::decode(bytes) {
            Some(m) => m,
            None => return Err(ReviewError::Request),
        };
        if !same(message.encode_to_vec().as_slice(), bytes) {
            return Err(ReviewError::Request);
        }
        let ghost m = message@;
        let mut outputs: Vec<OutputOpening> = Vec::new();
        let mut i: usize = 0;
        while i < message.outputs.len()
            invariant
                i <= message.outputs@.len(),
                m == message@,
                RequestMessage::decoded(bytes@) == Some(m),
                forall|j: int|
                    0 <= j < message.outputs@.len() ==> (#[trigger] message.outputs@[j])@.len()
                        == 9,
                outputs@.len() == i,
                forall|j: int|
                    0 <= j < i ==> opening_of(#[trigger] m.outputs[j]) == Some(outputs@[j]@),
            decreases message.outputs@.len() - i,
        {
            assert(m.outputs[i as int] == crate::protobuf::contents(
                message.outputs@[i as int]@,
            ));
            match opening_from_message(&message.outputs[i]) {
                Some(o) => outputs.push(o),
                None => return Err(ReviewError::Request),
            }
            i = i + 1;
        }
        let mut alphas: Vec<Option<Scalar>> = Vec::new();
        let mut j: usize = 0;
        while j < message.alphas.len()
            invariant
                j <= message.alphas@.len(),
                m == message@,
                RequestMessage::decoded(bytes@) == Some(m),
                alphas@.len() == j,
                forall|k: int|
                    0 <= k < j ==> alpha_of(#[trigger] m.alphas[k]) == Some(
                        alpha_view(alphas@[k]),
                    ),
            decreases message.alphas@.len() - j,
        {
            assert(m.alphas[j as int] == message.alphas@[j as int]@);
            match alpha_from_bytes(message.alphas[j].as_slice()) {
                Some(a) => alphas.push(a),
                None => return Err(ReviewError::Request),
            }
            j = j + 1;
        }
        let r = SigningRequest { body: message.body, outputs, alphas };
        assert(r@ =~= request_of(m)->0);
        Ok(r)
    }
}

// --------------------------------------------------------------------------------------- laws

/// An opening that a device can be sent.
pub open spec fn opening_sendable(o: OpeningModel) -> bool {
    &&& o.address.d.len() == 11
    &&& o.address.pk_d != 0
    &&& crate::pallas::decode_point(crate::pallas::encode_point(o.address.pk_d)) == Some(
        o.address.pk_d,
    )
    &&& o.rseed.len() == 32
    &&& o.memo_cm < crate::pallas::base_modulus()
    &&& o.free_memo.len() == 463
    &&& o.memo matches Some((text, r_memo)) ==> text.len() == 512 && r_memo
        < crate::pallas::base_modulus()
}

/// A request that a device can be sent.
pub open spec fn request_sendable(r: RequestModel) -> bool {
    &&& r.body.len() < crate::protobuf::two_to_64()
    &&& forall|i: int| 0 <= i < r.outputs.len() ==> opening_sendable(#[trigger] r.outputs[i])
    &&& forall|i: int|
        0 <= i < r.alphas.len() ==> (#[trigger] r.alphas[i] matches Some(a) ==> a
            < crate::pallas::scalar_modulus())
}

proof fn lemma_opening_round_trip(o: OpeningModel)
    requires
        opening_sendable(o),
    ensures
        opening_of(opening_message(o)) == Some(o),
        crate::protobuf::fits(opening_schema(), opening_message(o)),
{
    let m = opening_message(o);
    crate::bytes::lemma_pow256_values();
    crate::bytes::lemma_le_nat_of_le_bytes(o.memo_cm, 32);
    crate::pallas::lemma_encoding_length(o.address.pk_d);
    let raw = o.address.raw();
    assert(raw.subrange(0, 11) =~= o.address.d);
    assert(raw.subrange(11, 43) =~= crate::pallas::encode_point(o.address.pk_d));
    match o.memo {
        Some((text, r_memo)) => {
            crate::bytes::lemma_le_nat_of_le_bytes(r_memo, 32);
        },
        None => {},
    }
    assert(opening_of(m)->0 =~= o);
}

proof fn lemma_alpha_round_trip(a: Option<nat>)
    requires
        a matches Some(a) ==> a < crate::pallas::scalar_modulus(),
    ensures
        alpha_of(alpha_bytes(a)) == Some(a),
        alpha_bytes(a).len() <= 32,
{
    match a {
        Some(a) => {
            crate::bytes::lemma_pow256_values();
            crate::bytes::lemma_le_nat_of_le_bytes(a, 32);
        },
        None => {},
    }
}

proof fn lemma_request_step(
    fields: Seq<(u32, Token)>,
    before: RequestMessage,
    tag: u32,
    token: Token,
    after: RequestMessage,
)
    requires
        RequestMessage::of_fields(fields) == Some(before),
        before.merged(tag, token) == Some(after),
    ensures
        RequestMessage::of_fields(fields.push((tag, token))) == Some(after),
{
    assert(fields.push((tag, token)).drop_last() =~= fields);
}

proof fn lemma_outputs_read(
    head: Seq<(u32, Token)>,
    before: RequestMessage,
    outputs: Seq<Seq<SlotModel>>,
    n: nat,
)
    requires
        RequestMessage::of_fields(head) == Some(before),
        before.outputs.len() == 0,
        n <= outputs.len(),
        forall|i: int|
            0 <= i < outputs.len() ==> crate::protobuf::fits(
                opening_schema(),
                #[trigger] outputs[i],
            ),
    ensures
        RequestMessage::of_fields(
            head + crate::wire::repeated_messages(2, outputs.take(n as int)),
        ) == Some(RequestMessage { outputs: outputs.take(n as int), ..before }),
    decreases n,
{
    if n == 0 {
        assert(head + crate::wire::repeated_messages(2, outputs.take(0)) =~= head);
        assert(outputs.take(0) =~= before.outputs);
    } else {
        let m = n - 1;
        lemma_outputs_read(head, before, outputs, m as nat);
        let token = Token::Bytes(crate::protobuf::flat_bytes(outputs[m]));
        let fields = head + crate::wire::repeated_messages(2, outputs.take(m));
        crate::protobuf::flat_message_reads_back(opening_schema(), outputs[m], 99);
        assert(outputs.take(m).push(outputs[m]) =~= outputs.take(n as int));
        lemma_request_step(
            fields,
            RequestMessage { outputs: outputs.take(m), ..before },
            2,
            token,
            RequestMessage { outputs: outputs.take(n as int), ..before },
        );
        assert(fields.push((2u32, token)) =~= head + crate::wire::repeated_messages(
            2,
            outputs.take(n as int),
        ));
    }
}

proof fn lemma_alphas_read(
    head: Seq<(u32, Token)>,
    before: RequestMessage,
    alphas: Seq<Seq<u8>>,
    n: nat,
)
    requires
        RequestMessage::of_fields(head) == Some(before),
        before.alphas.len() == 0,
        n <= alphas.len(),
    ensures
        RequestMessage::of_fields(
            head + crate::wire::repeated_bytes(3, alphas.take(n as int)),
        ) == Some(RequestMessage { alphas: alphas.take(n as int), ..before }),
    decreases n,
{
    if n == 0 {
        assert(head + crate::wire::repeated_bytes(3, alphas.take(0)) =~= head);
        assert(alphas.take(0) =~= before.alphas);
    } else {
        let m = n - 1;
        lemma_alphas_read(head, before, alphas, m as nat);
        let token = Token::Bytes(alphas[m]);
        let fields = head + crate::wire::repeated_bytes(3, alphas.take(m));
        assert(alphas.take(m).push(alphas[m]) =~= alphas.take(n as int));
        lemma_request_step(
            fields,
            RequestMessage { alphas: alphas.take(m), ..before },
            3,
            token,
            RequestMessage { alphas: alphas.take(n as int), ..before },
        );
        assert(fields.push((3u32, token)) =~= head + crate::wire::repeated_bytes(
            3,
            alphas.take(n as int),
        ));
    }
}

proof fn lemma_request_is_writable(m: RequestMessage)
    requires
        m.well_formed(),
    ensures
        crate::protobuf::writable(m.fields()),
{
    let fields = m.fields();
    let k = crate::wire::optional_bytes(1, m.body).len() as int;
    let n = m.outputs.len() as int;
    assert forall|i: int| 0 <= i < fields.len() implies {
        &&& 1 <= (#[trigger] fields[i]).0 < 0x2000_0000
        &&& !(fields[i].1 is Skipped)
        &&& fields[i].1 matches Token::Bytes(b) ==> b.len() < crate::protobuf::two_to_64()
    } by {
        if i < k {
            assert(fields[i] == (1u32, Token::Bytes(m.body)));
        } else if i < k + n {
            let o = m.outputs[i - k];
            assert(fields[i] == (2u32, Token::Bytes(crate::protobuf::flat_bytes(o))));
        } else {
            let a = m.alphas[i - k - n];
            assert(fields[i] == (3u32, Token::Bytes(a)));
        }
    }
}

/// The encoding of a request message decodes to it.
pub proof fn request_message_reads_back(m: RequestMessage)
    requires
        m.well_formed(),
    ensures
        RequestMessage::decoded(m.encoded()) == Some(m),
{
    lemma_request_is_writable(m);
    crate::protobuf::written_message_reads_back(m.fields(), true, 100);
    let none: Seq<(u32, Token)> = Seq::empty();
    let head = crate::wire::optional_bytes(1, m.body);
    let first = RequestMessage { body: m.body, ..RequestMessage::absent() };
    if m.body.len() == 0 {
        assert(head =~= none);
        assert(m.body =~= Seq::empty());
    } else {
        lemma_request_step(none, RequestMessage::absent(), 1, Token::Bytes(m.body), first);
        assert(none.push((1u32, Token::Bytes(m.body))) =~= head);
    }
    lemma_outputs_read(head, first, m.outputs, m.outputs.len());
    assert(m.outputs.take(m.outputs.len() as int) =~= m.outputs);
    let second = RequestMessage { outputs: m.outputs, ..first };
    lemma_alphas_read(
        head + crate::wire::repeated_messages(2, m.outputs),
        second,
        m.alphas,
        m.alphas.len(),
    );
    assert(m.alphas.take(m.alphas.len() as int) =~= m.alphas);
}

/// What `encode` writes, `decode` gives back, for every request that is not too large.
pub proof fn encoded_request_decodes(r: RequestModel)
    requires
        request_sendable(r),
        request_message(r).encoded().len() <= MAX_REQUEST_SIZE,
    ensures
        decoded_request(request_message(r).encoded()) == Some(r),
{
    let m = request_message(r);
    assert forall|i: int| 0 <= i < m.outputs.len() implies crate::protobuf::fits(
        opening_schema(),
        #[trigger] m.outputs[i],
    ) && opening_of(m.outputs[i]) == Some(r.outputs[i]) by {
        lemma_opening_round_trip(r.outputs[i]);
    }
    assert forall|i: int| 0 <= i < m.alphas.len() implies alpha_of(#[trigger] m.alphas[i]) == Some(
        r.alphas[i],
    ) && m.alphas[i].len() <= 32 by {
        lemma_alpha_round_trip(r.alphas[i]);
    }
    assert forall|i: int| 0 <= i < m.outputs.len() implies crate::protobuf::flat_bytes(
        #[trigger] m.outputs[i],
    ).len() < crate::protobuf::two_to_64() by {
        lemma_parts_are_shorter(m.fields(), crate::wire::optional_bytes(1, m.body).len() + i);
        assert(m.fields()[crate::wire::optional_bytes(1, m.body).len() + i] == (
            2u32,
            Token::Bytes(crate::protobuf::flat_bytes(m.outputs[i])),
        ));
    }
    request_message_reads_back(m);
    assert(request_of(m)->0 =~= r);
}

/// A message is at least as long as each byte string in it.
proof fn lemma_parts_are_shorter(fields: Seq<(u32, Token)>, i: int)
    requires
        0 <= i < fields.len(),
    ensures
        fields[i].1 matches Token::Bytes(b) ==> b.len() <= crate::protobuf::message_bytes(fields).len(),
    decreases fields.len(),
{
    if i < fields.len() - 1 {
        lemma_parts_are_shorter(fields.drop_last(), i);
    }
}

proof fn lemma_opening_has_one_message(m: Seq<SlotModel>)
    requires
        crate::wire::kinds_match(opening_schema(), m),
        opening_of(m) is Some,
    ensures
        m == opening_message(opening_of(m)->0),
{
    let o = opening_of(m)->0;
    let raw = crate::wire::blob(m, 0);
    let c = crate::wire::blob(m, 5);
    crate::bytes::lemma_le_bytes_of_le_nat(c);
    assert(raw =~= o.address.raw()) by {
        assert(raw =~= raw.subrange(0, 11) + raw.subrange(11, 43));
    }
    match o.memo {
        Some((text, r_memo)) => {
            crate::bytes::lemma_le_bytes_of_le_nat(crate::wire::blob(m, 8));
        },
        None => {
            assert(crate::wire::blob(m, 7) =~= Seq::empty());
            assert(crate::wire::blob(m, 8) =~= Seq::empty());
        },
    }
    assert(m[0] == SlotModel::Bytes(raw));
    assert(m[1] == SlotModel::Int(number(m, 1)));
    assert(m[2] == SlotModel::Int(number(m, 2)));
    assert(m[3] == SlotModel::Int(number(m, 3)));
    assert(m[4] == SlotModel::Bytes(crate::wire::blob(m, 4)));
    assert(m[5] == SlotModel::Bytes(c));
    assert(m[6] == SlotModel::Bytes(crate::wire::blob(m, 6)));
    assert(m[7] == SlotModel::Bytes(crate::wire::blob(m, 7)));
    assert(m[8] == SlotModel::Bytes(crate::wire::blob(m, 8)));
    assert(m =~= opening_message(o));
}

proof fn lemma_request_kinds(fields: Seq<(u32, Token)>)
    requires
        RequestMessage::of_fields(fields) is Some,
    ensures
        forall|i: int|
            0 <= i < (RequestMessage::of_fields(fields)->0).outputs.len()
                ==> crate::wire::kinds_match(
                opening_schema(),
                #[trigger] (RequestMessage::of_fields(fields)->0).outputs[i],
            ),
    decreases fields.len(),
{
    if fields.len() > 0 {
        lemma_request_kinds(fields.drop_last());
        match fields.last().1 {
            Token::Bytes(b) => {
                if fields.last().0 == 2 {
                    let start = crate::protobuf::absent_all(opening_schema());
                    assert(crate::wire::kinds_match(opening_schema(), start));
                    crate::wire::lemma_overwritten_fits(
                        opening_schema(),
                        start,
                        crate::protobuf::tokens(b, true, 99)->0,
                    );
                }
            },
            _ => {},
        }
    }
}

/// A request has exactly one encoding.
pub proof fn request_has_one_encoding(bytes: Seq<u8>)
    requires
        decoded_request(bytes) is Some,
    ensures
        bytes == request_message(decoded_request(bytes)->0).encoded(),
{
    let fields = crate::protobuf::tokens(bytes, true, 100)->0;
    lemma_request_kinds(fields);
    let m = RequestMessage::of_fields(fields)->0;
    let r = request_of(m)->0;
    assert forall|i: int| 0 <= i < m.outputs.len() implies #[trigger] m.outputs[i]
        == opening_message(r.outputs[i]) by {
        lemma_opening_has_one_message(m.outputs[i]);
    }
    assert forall|i: int| 0 <= i < m.alphas.len() implies #[trigger] m.alphas[i] == alpha_bytes(
        r.alphas[i],
    ) by {
        assert(alpha_of(m.alphas[i]) is Some);
        crate::bytes::lemma_le_bytes_of_le_nat(m.alphas[i]);
        if m.alphas[i].len() == 0 {
            assert(m.alphas[i] =~= Seq::empty());
        }
    }
    assert(m =~= request_message(r));
}

/// The sum of payments.
pub open spec fn total_paid(payments: Seq<PaymentModel>) -> nat
    decreases payments.len(),
{
    if payments.len() == 0 {
        0
    } else {
        total_paid(payments.drop_last()) + payments.last().value as nat
    }
}

/// The sum of the values of openings.
pub open spec fn total_opened(outputs: Seq<OpeningModel>) -> nat
    decreases outputs.len(),
{
    if outputs.len() == 0 {
        0
    } else {
        total_opened(outputs.drop_last()) + outputs.last().value as nat
    }
}

/// Whether the device has checked an action: the created note is the opened one, and a spend to
/// be signed is its own.
pub open spec fn action_checked(
    action: ActionModel,
    opening: OpeningModel,
    alpha: Option<nat>,
    key: ViewingKeyModel,
    community: nat,
    created_at: u64,
) -> bool {
    &&& opened_note(opening, community, created_at, action.nullifier) matches Ok(note)
        && note.cm() == action.cm && ciphertexts_match(action, note, opening, key.ovk)
    &&& memo_matches(opening)
    &&& alpha matches Some(a) ==> crate::signature::randomized_key(key.ak, a) == action.rk
}

proof fn lemma_tally(
    actions: Seq<ActionModel>,
    request: RequestModel,
    key: ViewingKeyModel,
    community: nat,
    created_at: u64,
    n: nat,
)
    requires
        n <= request.outputs.len(),
        n <= request.alphas.len(),
        tallied(actions, request, key, community, created_at, n) is Ok,
    ensures
        ({
            let t = tallied(actions, request, key, community, created_at, n)->Ok_0;
            &&& total_paid(t.payments) + t.change == total_opened(request.outputs.take(n as int))
            &&& t.spends == signed_actions(request.alphas.take(n as int)).len()
            &&& forall|i: int|
                0 <= i < n ==> action_checked(
                    #[trigger] actions[i],
                    request.outputs[i],
                    request.alphas[i],
                    key,
                    community,
                    created_at,
                )
        }),
    decreases n,
{
    if n == 0 {
        assert(request.outputs.take(0) =~= Seq::empty());
        assert(request.alphas.take(0) =~= Seq::empty());
    } else {
        let i = n - 1;
        lemma_tally(actions, request, key, community, created_at, i as nat);
        let before = tallied(actions, request, key, community, created_at, i as nat)->Ok_0;
        assert(request.outputs.take(n as int).drop_last() =~= request.outputs.take(i));
        assert(request.alphas.take(n as int).drop_last() =~= request.alphas.take(i));
        let p = payment_of(request.outputs[i]);
        assert(before.payments.push(p).drop_last() =~= before.payments);
    }
}

/// Nothing is hidden from the device: in a request that passes the review, every action of the
/// body creates the note that its opening says and spends, where it is to be signed, with the
/// device's own key; payments and change add up to all the notes created; and the number of
/// spends is the number of actions signed.
pub proof fn review_accounts_for_everything(
    request: RequestModel,
    key: ViewingKeyModel,
    community: nat,
)
    requires
        reviewed(request, key, community) is Ok,
    ensures
        ({
            let review = reviewed(request, key, community)->Ok_0;
            let (created_at, actions) = body_contents(request.body)->Ok_0;
            &&& review.created_at == created_at
            &&& review.sighash == crate::bundle::hash_of_body(request.body)
            &&& total_paid(review.payments) + review.change == total_opened(request.outputs)
            &&& review.spends == signed_actions(request.alphas).len()
            &&& review.spends > 0
            &&& actions.len() == ACTIONS
            &&& forall|i: int|
                0 <= i < ACTIONS ==> action_checked(
                    #[trigger] actions[i],
                    request.outputs[i],
                    request.alphas[i],
                    key,
                    community,
                    created_at,
                )
        }),
{
    let (created_at, actions) = body_contents(request.body)->Ok_0;
    lemma_tally(actions, request, key, community, created_at, ACTIONS as nat);
    assert(request.outputs.take(ACTIONS as int) =~= request.outputs);
    assert(request.alphas.take(ACTIONS as int) =~= request.alphas);
    let body = crate::wire::parsed_body(request.body)->Ok_0;
    crate::wire::actions_have_one_encoding(body.shielded);
}

/// What the device signs verifies under the keys of the actions in the body.
pub proof fn signatures_verify_under_the_actions(
    request: RequestModel,
    key: ViewingKeyModel,
    community: nat,
    sigs: Seq<SpendAuthSignature>,
)
    requires
        reviewed(request, key, community) is Ok,
        signatures_cover(
            sigs,
            request.alphas,
            key.ak,
            (reviewed(request, key, community)->Ok_0).sighash,
        ),
    ensures
        ({
            let (_, actions) = body_contents(request.body)->Ok_0;
            let signed = signed_actions(request.alphas);
            &&& sigs.len() == signed.len()
            &&& forall|k: int|
                0 <= k < sigs.len() ==> 0 <= signed[k] < actions.len()
                    && crate::signature::spend_auth_verifies(
                    crate::pallas::encode_point(actions[signed[k]].rk),
                    crate::bundle::hash_of_body(request.body),
                    (#[trigger] sigs[k]).0@,
                )
        }),
{
    review_accounts_for_everything(request, key, community);
    lemma_signed_bounds(request.alphas);
    let (created_at, actions) = body_contents(request.body)->Ok_0;
    let signed = signed_actions(request.alphas);
    assert forall|k: int| 0 <= k < sigs.len() implies 0 <= signed[k] < actions.len()
        && crate::signature::spend_auth_verifies(
        crate::pallas::encode_point(actions[signed[k]].rk),
        crate::bundle::hash_of_body(request.body),
        (#[trigger] sigs[k]).0@,
    ) by {
        let i = signed[k];
        assert(action_checked(
            actions[i],
            request.outputs[i],
            request.alphas[i],
            key,
            community,
            created_at,
        ));
    }
}

/// Whether an address belongs to a viewing key: its transmission key is the multiple of the
/// diversified base by the incoming viewing key.
pub open spec fn is_own(address: AddressModel, key: ViewingKeyModel) -> bool {
    address.pk_d == (crate::keys::diversified_base(address.d) * key.ivk)
        % crate::pallas::scalar_modulus()
}

/// What an opening adds to the change: its value if it comes back, else nothing.
pub open spec fn change_of(opening: OpeningModel, key: ViewingKeyModel) -> nat {
    if is_own(opening.address, key) {
        opening.value as nat
    } else {
        0
    }
}

/// The payment that an opening is: one if it goes to someone else and has a value, else none.
pub open spec fn payments_of(opening: OpeningModel, key: ViewingKeyModel) -> Seq<PaymentModel> {
    if is_own(opening.address, key) || opening.value == 0 {
        Seq::empty()
    } else {
        seq![
            PaymentModel {
                address: opening.address,
                value: opening.value,
                kind: opening.kind,
                memo: match opening.memo {
                    Some((text, _)) => Some(text),
                    None => None,
                },
                free_memo: opening.free_memo,
            },
        ]
    }
}

/// The note that an opening stands for, field by field.
pub open spec fn shown_note(
    opening: OpeningModel,
    community: nat,
    created_at: u64,
    rho: nat,
) -> NoteModel {
    NoteModel {
        community,
        coin_community: community,
        value: opening.value,
        t_note: created_at,
        kind: opening.kind,
        expiry_epoch: opening.expiry_epoch,
        d: crate::bytes::le_nat(opening.address.d),
        g_d: crate::pallas::pallas_multiple(crate::keys::diversified_base(opening.address.d)),
        pk_d: crate::pallas::pallas_multiple(opening.address.pk_d),
        rho,
        psi: crate::note::psi_of_seed(opening.rseed, rho),
        memo_cm: opening.memo_cm,
        rcm: crate::note::rcm_of_seed(opening.rseed, rho),
    }
}

/// Whether an opening can be a note of its time.
pub open spec fn opening_in_range(opening: OpeningModel, created_at: u64) -> bool {
    &&& opening.value < 0x8000_0000_0000_0000
    &&& created_at < 0x100_0000_0000
    &&& opening.expiry_epoch < 0x1_0000
    &&& opening.address.pk_d != 0
}

/// Whether the ciphertexts of an action are those of a note that the owner of `ovk` sends.
pub open spec fn is_encryption_of(
    encrypted: crate::note_encryption::EncryptedModel,
    note: NoteModel,
    opening: OpeningModel,
    ovk: Seq<u8>,
    cv_net: nat,
) -> bool {
    let expected = crate::note_encryption::encrypted_note(
        note,
        opening.rseed,
        opening.free_memo,
        Some(ovk),
        cv_net,
        (crate::bytes::zeros(32), crate::bytes::zeros(64)),
    );
    &&& encrypted.epk == expected.epk
    &&& encrypted.enc == expected.enc
    &&& encrypted.out == expected.out
}

/// Whether the memo of an opening is shown: without one there is no commitment, and with one the
/// commitment is that of the text and not zero.
pub open spec fn memo_is_shown(opening: OpeningModel) -> bool {
    &&& opening.memo is None ==> opening.memo_cm == 0
    &&& opening.memo matches Some((text, r_memo)) ==> {
        &&& opening.memo_cm != 0
        &&& opening.memo_cm == crate::memo::memo_commitment(text, r_memo)
    }
}

/// Whether an action does what its opening says, and spends with the key of the device where it is
/// to be signed.
pub open spec fn is_shown(
    action: ActionModel,
    opening: OpeningModel,
    alpha: Option<nat>,
    key: ViewingKeyModel,
    community: nat,
    created_at: u64,
) -> bool {
    let note = shown_note(opening, community, created_at, action.nullifier);
    &&& opening_in_range(opening, created_at)
    &&& action.cm == note.cm()
    &&& is_encryption_of(action.encrypted, note, opening, key.ovk, action.cv_net)
    &&& memo_is_shown(opening)
    &&& alpha matches Some(a) ==> action.rk == (key.ak + crate::signature::spend_auth_generator()
        * a) % crate::pallas::scalar_modulus()
}

proof fn lemma_one_action(
    t: Tally,
    i: usize,
    action: ActionModel,
    opening: OpeningModel,
    alpha: Option<nat>,
    key: ViewingKeyModel,
    community: nat,
    created_at: u64,
)
    requires
        t.change < 0x8000_0000_0000_0000,
    ensures
        ({
            let note = shown_note(opening, community, created_at, action.nullifier);
            let r = t.with_action(i, action, opening, alpha, key, community, created_at);
            &&& r is Ok <==> is_shown(action, opening, alpha, key, community, created_at)
            &&& match r {
                Ok(u) => {
                    &&& opening.value < 0x8000_0000_0000_0000
                    &&& u.change == t.change + change_of(opening, key)
                    &&& u.payments == t.payments + payments_of(opening, key)
                    &&& u.spends == t.spends + (if alpha is Some {
                        1nat
                    } else {
                        0
                    })
                },
                Err(ReviewError::InvalidNote(j, _)) => j == i && !opening_in_range(
                    opening,
                    created_at,
                ),
                Err(ReviewError::CommitmentMismatch(j)) => j == i && opening_in_range(
                    opening,
                    created_at,
                ) && action.cm != note.cm(),
                Err(ReviewError::CiphertextMismatch(j)) => j == i && opening_in_range(
                    opening,
                    created_at,
                ) && action.cm == note.cm() && !is_encryption_of(
                    action.encrypted,
                    note,
                    opening,
                    key.ovk,
                    action.cv_net,
                ),
                Err(ReviewError::MemoMismatch(j)) => j == i && opening_in_range(
                    opening,
                    created_at,
                ) && action.cm == note.cm() && is_encryption_of(
                    action.encrypted,
                    note,
                    opening,
                    key.ovk,
                    action.cv_net,
                ) && !memo_is_shown(opening),
                Err(ReviewError::ForeignSpend(j)) => {
                    &&& j == i
                    &&& alpha is Some
                    &&& action.rk != (key.ak + crate::signature::spend_auth_generator() * alpha->0)
                        % crate::pallas::scalar_modulus()
                    &&& is_shown(action, opening, None, key, community, created_at)
                },
                _ => false,
            }
        }),
{
    crate::note::parts_become_the_note(
        community,
        community,
        opening.value,
        created_at,
        opening.kind,
        opening.expiry_epoch,
        opening.address,
        action.nullifier,
        opening.memo_cm,
        opening.rseed,
    );
    let made = opened_note(opening, community, created_at, action.nullifier);
    if let Ok(note) = made {
        assert(note == shown_note(opening, community, created_at, action.nullifier));
    }
    if let Some(a) = alpha {
        crate::pallas::lemma_reduced(
            key.ak as int,
            (crate::signature::spend_auth_generator() * a) as int,
        );
    }
    assert(t.payments + Seq::<PaymentModel>::empty() =~= t.payments);
    assert(t.payments + seq![payment_of(opening)] =~= t.payments.push(payment_of(opening)));
    assert(key.address(opening.address.d) == opening.address <==> is_own(opening.address, key));
}

/// A review passes exactly for a transfer body with two actions, an opening and an optional
/// rerandomiser for each, at least one of them to be signed, where every action does what its
/// opening says.
pub proof fn a_review_passes_what_is_shown(
    request: RequestModel,
    key: ViewingKeyModel,
    community: nat,
)
    ensures
        reviewed(request, key, community) is Ok <==> {
            &&& body_contents(request.body) matches Ok((created_at, actions))
            &&& request.outputs.len() == 2
            &&& request.alphas.len() == 2
            &&& request.alphas[0] is Some || request.alphas[1] is Some
            &&& is_shown(
                actions[0],
                request.outputs[0],
                request.alphas[0],
                key,
                community,
                created_at,
            )
            &&& is_shown(
                actions[1],
                request.outputs[1],
                request.alphas[1],
                key,
                community,
                created_at,
            )
        },
{
    if let Ok((created_at, actions)) = body_contents(request.body) {
        if request.outputs.len() == 2 && request.alphas.len() == 2 {
            lemma_two_actions(request, key, community, created_at, actions);
        }
    }
}

proof fn lemma_two_actions(
    request: RequestModel,
    key: ViewingKeyModel,
    community: nat,
    created_at: u64,
    actions: Seq<ActionModel>,
)
    requires
        request.outputs.len() == 2,
        request.alphas.len() == 2,
    ensures
        ({
            let t = tallied(actions, request, key, community, created_at, 2);
            let shown = |i: int|
                is_shown(
                    actions[i],
                    request.outputs[i],
                    request.alphas[i],
                    key,
                    community,
                    created_at,
                );
            &&& t is Ok <==> shown(0) && shown(1)
            &&& t matches Ok(t) ==> {
                &&& t.change == change_of(request.outputs[0], key) + change_of(
                    request.outputs[1],
                    key,
                )
                &&& t.payments == payments_of(request.outputs[0], key) + payments_of(
                    request.outputs[1],
                    key,
                )
                &&& t.spends == (if request.alphas[0] is Some {
                    1nat
                } else {
                    0
                }) + (if request.alphas[1] is Some {
                    1nat
                } else {
                    0
                })
            }
            &&& t matches Err(e) ==> refused_at(e, request, key, community, created_at, actions, 0) || (
            shown(0) && refused_at(e, request, key, community, created_at, actions, 1))
        }),
{
    reveal_with_fuel(tallied, 3);
    let none = Tally::none();
    lemma_one_action(
        none,
        0,
        actions[0],
        request.outputs[0],
        request.alphas[0],
        key,
        community,
        created_at,
    );
    let first = tallied(actions, request, key, community, created_at, 1);
    assert(first == none.with_action(
        0,
        actions[0],
        request.outputs[0],
        request.alphas[0],
        key,
        community,
        created_at,
    ));
    if let Ok(t) = first {
        lemma_one_action(
            t,
            1,
            actions[1],
            request.outputs[1],
            request.alphas[1],
            key,
            community,
            created_at,
        );
        assert(none.payments + payments_of(request.outputs[0], key) =~= payments_of(
            request.outputs[0],
            key,
        ));
    }
}

/// Whether an error is the one for an action that does not do what its opening says.
pub open spec fn refused_at(
    e: ReviewError,
    request: RequestModel,
    key: ViewingKeyModel,
    community: nat,
    created_at: u64,
    actions: Seq<ActionModel>,
    i: int,
) -> bool {
    let action = actions[i];
    let opening = request.outputs[i];
    let note = shown_note(opening, community, created_at, action.nullifier);
    let fits = opening_in_range(opening, created_at);
    let committed = fits && action.cm == note.cm();
    let encrypted = committed && is_encryption_of(
        action.encrypted,
        note,
        opening,
        key.ovk,
        action.cv_net,
    );
    match e {
        ReviewError::InvalidNote(j, _) => j == i && !fits,
        ReviewError::CommitmentMismatch(j) => j == i && fits && action.cm != note.cm(),
        ReviewError::CiphertextMismatch(j) => j == i && committed && !encrypted,
        ReviewError::MemoMismatch(j) => j == i && encrypted && !memo_is_shown(opening),
        ReviewError::ForeignSpend(j) => {
            &&& j == i && encrypted && memo_is_shown(opening)
            &&& request.alphas[i] matches Some(alpha)
            &&& action.rk != (key.ak + crate::signature::spend_auth_generator() * alpha)
                % crate::pallas::scalar_modulus()
        },
        _ => false,
    }
}

/// In a review that passes, the change is the sum of the values of exactly those openings whose
/// address belongs to the viewing key, the payments are, in order, exactly the openings with a
/// foreign address and a value above 0, and the spends are those with a rerandomiser. The sighash
/// is that of the whole body.
pub proof fn a_review_tells_payments_from_change(
    request: RequestModel,
    key: ViewingKeyModel,
    community: nat,
)
    requires
        reviewed(request, key, community) is Ok,
    ensures
        ({
            let review = reviewed(request, key, community)->Ok_0;
            &&& request.outputs.len() == 2 && request.alphas.len() == 2
            &&& review.change == change_of(request.outputs[0], key) + change_of(
                request.outputs[1],
                key,
            )
            &&& review.payments == payments_of(request.outputs[0], key) + payments_of(
                request.outputs[1],
                key,
            )
            &&& review.spends == (if request.alphas[0] is Some {
                1nat
            } else {
                0
            }) + (if request.alphas[1] is Some {
                1nat
            } else {
                0
            })
            &&& body_contents(request.body) matches Ok((created_at, _)) && review.created_at
                == created_at
            &&& review.sighash == crate::hash::blake2b_hash("Gradido_BodySigh"@, 32, request.body)
        }),
{
    let (created_at, actions) = body_contents(request.body)->Ok_0;
    lemma_two_actions(request, key, community, created_at, actions);
}

/// A review that fails names the first thing that is wrong.
pub proof fn a_failed_review_names_its_cause(
    request: RequestModel,
    key: ViewingKeyModel,
    community: nat,
)
    ensures
        reviewed(request, key, community) matches Err(e) ==> match body_contents(request.body) {
            Err(w) => e == ReviewError::Body(w),
            Ok((created_at, actions)) => {
                let shown = |i: int|
                    is_shown(
                        actions[i],
                        request.outputs[i],
                        request.alphas[i],
                        key,
                        community,
                        created_at,
                    );
                match e {
                    ReviewError::WrongOutputCount(n) => request.outputs.len() != 2 && n
                        == request.outputs.len() as usize,
                    ReviewError::WrongAlphaCount(n) => request.outputs.len() == 2
                        && request.alphas.len() != 2 && n == request.alphas.len() as usize,
                    ReviewError::NothingToSign => {
                        &&& request.outputs.len() == 2 && request.alphas.len() == 2
                        &&& shown(0) && shown(1)
                        &&& request.alphas[0] is None && request.alphas[1] is None
                    },
                    _ => {
                        &&& request.outputs.len() == 2 && request.alphas.len() == 2
                        &&& refused_at(e, request, key, community, created_at, actions, 0) || (
                        shown(0) && refused_at(
                            e,
                            request,
                            key,
                            community,
                            created_at,
                            actions,
                            1,
                        ))
                    },
                }
            },
        },
{
    if let Ok((created_at, actions)) = body_contents(request.body) {
        if request.outputs.len() == 2 && request.alphas.len() == 2 {
            lemma_two_actions(request, key, community, created_at, actions);
        }
    }
}

/// The device signs exactly the actions that a rerandomiser was sent for, in their order.
pub proof fn what_is_asked_for_is_signed(alphas: Seq<Option<nat>>)
    ensures
        ({
            let signed = signed_actions(alphas);
            &&& forall|k: int|
                0 <= k < signed.len() ==> 0 <= #[trigger] signed[k] < alphas.len()
                    && alphas[signed[k]] is Some
            &&& forall|j: int, k: int|
                0 <= j < k < signed.len() ==> #[trigger] signed[j] < #[trigger] signed[k]
            &&& forall|i: int|
                0 <= i < alphas.len() && (#[trigger] alphas[i]) is Some ==> signed.contains(i)
        }),
    decreases alphas.len(),
{
    lemma_signed_bounds(alphas);
    if alphas.len() > 0 {
        let front = alphas.drop_last();
        let before = signed_actions(front);
        let signed = signed_actions(alphas);
        what_is_asked_for_is_signed(front);
        assert forall|i: int|
            0 <= i < alphas.len() && (#[trigger] alphas[i]) is Some implies signed.contains(i) by {
            if i < front.len() {
                assert(front[i] == alphas[i]);
                let k = choose|k: int| 0 <= k < before.len() && before[k] == i;
                assert(signed[k] == i);
            } else {
                assert(signed[signed.len() - 1] == i);
            }
        }
        assert forall|j: int, k: int| 0 <= j < k < signed.len() implies #[trigger] signed[j]
            < #[trigger] signed[k] by {
            assert(signed[j] == before[j]);
            if k < before.len() {
                assert(signed[k] == before[k]);
            }
        }
    }
}

/// The message of an opening holds, in this order, the raw address, the value, the number of the
/// kind, the expiry epoch, the seed, the memo commitment, the free memo, and the text and the
/// randomness of the memo.
pub proof fn an_opening_is_sent_in_nine_fields(o: OpeningModel)
    ensures
        ({
            let m = opening_message(o);
            &&& m.len() == 9
            &&& m[0] == SlotModel::Bytes(o.address.d + crate::pallas::encode_point(o.address.pk_d))
            &&& m[1] == SlotModel::Int(o.value)
            &&& o.kind == NoteKind::Normal ==> m[2] == SlotModel::Int(0)
            &&& o.kind == NoteKind::Deferred ==> m[2] == SlotModel::Int(1)
            &&& m[3] == SlotModel::Int(o.expiry_epoch)
            &&& m[4] == SlotModel::Bytes(o.rseed)
            &&& m[5] == SlotModel::Bytes(crate::bytes::le_bytes(o.memo_cm, 32))
            &&& m[6] == SlotModel::Bytes(o.free_memo)
            &&& o.memo is None ==> m[7] == SlotModel::Bytes(Seq::empty()) && m[8]
                == SlotModel::Bytes(Seq::empty())
            &&& o.memo matches Some((text, r_memo)) ==> m[7] == SlotModel::Bytes(text) && m[8]
                == SlotModel::Bytes(crate::bytes::le_bytes(r_memo, 32))
        }),
{
}

/// A request is sent as its body, then its openings, then its rerandomisers, 32 bytes each and
/// none for an action that the device does not sign.
pub proof fn a_request_is_sent_in_order(r: RequestModel)
    requires
        r.body.len() > 0,
        r.outputs.len() == 2,
        r.alphas.len() == 2,
    ensures
        ({
            let opening = |i: int| crate::protobuf::flat_bytes(opening_message(r.outputs[i]));
            let alpha = |i: int|
                match r.alphas[i] {
                    Some(a) => crate::bytes::le_bytes(a, 32),
                    None => Seq::empty(),
                };
            request_message(r).encoded() == crate::protobuf::message_bytes(
                seq![
                    (1u32, Token::Bytes(r.body)),
                    (2u32, Token::Bytes(opening(0))),
                    (2u32, Token::Bytes(opening(1))),
                    (3u32, Token::Bytes(alpha(0))),
                    (3u32, Token::Bytes(alpha(1))),
                ],
            )
        }),
{
    let opening = |i: int| crate::protobuf::flat_bytes(opening_message(r.outputs[i]));
    let alpha = |i: int|
        match r.alphas[i] {
            Some(a) => crate::bytes::le_bytes(a, 32),
            None => Seq::empty(),
        };
    assert(request_message(r).fields() =~= seq![
        (1u32, Token::Bytes(r.body)),
        (2u32, Token::Bytes(opening(0))),
        (2u32, Token::Bytes(opening(1))),
        (3u32, Token::Bytes(alpha(0))),
        (3u32, Token::Bytes(alpha(1))),
    ]);
}

/// An opening is taken exactly from fields of the right lengths: a raw address that is one, a kind
/// that there is, a seed, a canonical memo commitment, a free memo, and a memo text with canonical
/// randomness or neither.
pub proof fn an_opening_is_taken_from_fitting_fields(m: Seq<SlotModel>)
    ensures
        ({
            let element = |i: int|
                crate::wire::blob(m, i).len() == 32 && crate::bytes::le_nat(
                    crate::wire::blob(m, i),
                ) < crate::pallas::base_modulus();
            let raw = crate::wire::blob(m, 0);
            opening_of(m) is Some <==> {
                &&& raw.len() == 43
                &&& (crate::pallas::decode_point(raw.subrange(11, 43)) matches Some(k) && k != 0)
                &&& number(m, 2) <= 1
                &&& crate::wire::blob(m, 4).len() == 32
                &&& element(5)
                &&& crate::wire::blob(m, 6).len() == 463
                &&& (crate::wire::blob(m, 7).len() == 0 && crate::wire::blob(m, 8).len() == 0) || (
                crate::wire::blob(m, 7).len() == 512 && element(8))
            }
        }),
{
}

/// Models leave nothing out: every field of a request, of its openings, and of a review and its
/// payments is in the model, in order.
pub proof fn models_hold_every_field(request: SigningRequest, review: Review)
    ensures
        request@.body == request.body@,
        request@.outputs.len() == request.outputs@.len(),
        forall|i: int|
            0 <= i < request.outputs@.len() ==> {
                let m = #[trigger] request@.outputs[i];
                let o = request.outputs@[i];
                &&& m.address == o.address@ && m.value == o.value
                &&& m.kind == o.kind && m.expiry_epoch == o.expiry_epoch
                &&& m.rseed == o.rseed.bytes() && m.memo_cm == o.memo_cm@
                &&& m.free_memo == o.free_memo@
                &&& o.memo is None ==> m.memo is None
                &&& o.memo matches Some(x) ==> m.memo == Some((x.text@, x.r_memo@))
            },
        request@.alphas.len() == request.alphas@.len(),
        forall|i: int|
            0 <= i < request.alphas@.len() ==> match request.alphas@[i] {
                Some(a) => #[trigger] request@.alphas[i] == Some(a@),
                None => request@.alphas[i] is None,
            },
        review@.created_at == review.created_at && review@.change == review.change,
        review@.spends == review.spends && review@.sighash == review.sighash@,
        review@.payments.len() == review.payments@.len(),
        forall|i: int|
            0 <= i < review.payments@.len() ==> {
                let m = #[trigger] review@.payments[i];
                let p = review.payments@[i];
                &&& m.address == p.address@ && m.value == p.value && m.kind == p.kind
                &&& m.free_memo == p.free_memo@
                &&& p.memo is None ==> m.memo is None
                &&& p.memo matches Some(text) ==> m.memo == Some(text@)
            },
{
}

} // verus!
