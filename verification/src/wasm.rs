//! What the interface of a signing device computes, for a wallet app or browser extension.
//!
//! Only what the device side of the custody split needs: keys, addresses, and checking and
//! signing a `SigningRequest` from the community server (`crate::signer`). Proving stays on the
//! server. Byte strings come in as slices of any length and are checked here; every failed check
//! is an error with the reason. Storing the spending key safely is the job of the app, this module
//! keeps no copy.
use vstd::prelude::*;

use crate::address::AddressError;
use crate::bytes::take;
use crate::keys::{AddressModel, SpendingKey};
use crate::note::NoteKind;
use crate::pallas::Base;
use crate::signer::{Payment, PaymentModel, Review, ReviewError, ReviewModel, SigningRequest};

verus! {

broadcast use vstd::array::group_array_axioms;

/// The arguments with a fixed length.
#[derive(Clone, Copy, Debug, PartialEq, Eq, Structural)]
pub enum Argument {
    SpendingKey,
    Community,
    Diversifier,
    CommunityId,
}

/// Why the device refuses.
#[derive(Clone, Copy, Debug, PartialEq, Eq)]
pub enum DeviceError {
    /// an argument must have another length than this one
    Length(Argument, usize),
    /// the community is not a canonical field element
    NotCanonical,
    /// month must be 1 to 12
    Month,
    Address(AddressError),
    Request(ReviewError),
    /// the spending key gives no viewing key
    NoViewingKey,
}

/// A payment to someone else, as the device shows it.
#[derive(Clone, Debug, PartialEq, Eq)]
pub struct ShownPayment {
    /// "gdd1..."
    pub address: String,
    /// GradidoUnit (GDD * 10^4) at the time of the transaction
    pub value: u64,
    pub kind: &'static str,
    /// memo text without zero padding
    pub memo: Option<Vec<u8>>,
    /// free part of the memo slot in the note encryption, without zero padding
    pub free_memo: Vec<u8>,
}

/// What signing a request means.
#[derive(Clone, Debug, PartialEq, Eq)]
pub struct ShownReview {
    /// seconds
    pub created_at: u64,
    pub payments: Vec<ShownPayment>,
    /// GradidoUnit that comes back to the owner's own addresses
    pub change: u64,
    /// number of spends the device signs
    pub spends: u32,
    /// computed from the transaction body
    pub sighash: [u8; 32],
}

// -------------------------------------------------------------------------------------- model

/// Bytes without the zeros at their end.
pub open spec fn without_padding(data: Seq<u8>) -> Seq<u8>
    decreases data.len(),
{
    if data.len() == 0 || data.last() != 0 {
        data
    } else {
        without_padding(data.drop_last())
    }
}

/// The word for a kind of note.
pub open spec fn kind_name(kind: NoteKind) -> Seq<char> {
    match kind {
        NoteKind::Normal => "normal"@,
        NoteKind::Deferred => "deferred"@,
    }
}

impl ShownPayment {
    /// Whether this shows a payment.
    pub open spec fn shows(self, p: PaymentModel, community_id: Seq<u8>) -> bool {
        &&& self.address@ == crate::address::encoded_address(p.address, community_id)
        &&& self.value == p.value
        &&& self.kind@ == kind_name(p.kind)
        &&& self.memo is Some <==> p.memo is Some
        &&& p.memo matches Some(m) ==> self.memo->0@ == without_padding(m)
        &&& self.free_memo@ == without_padding(p.free_memo)
    }
}

impl ShownReview {
    /// Whether this shows a review.
    pub open spec fn shows(self, r: ReviewModel, community_id: Seq<u8>) -> bool {
        &&& self.created_at == r.created_at
        &&& self.payments@.len() == r.payments.len()
        &&& forall|i: int|
            0 <= i < self.payments@.len() ==> (#[trigger] self.payments@[i]).shows(
                r.payments[i],
                community_id,
            )
        &&& self.change == r.change
        &&& self.spends == r.spends
        &&& self.sighash@ == r.sighash
    }
}

/// What is wrong with a spending key, if anything.
pub open spec fn key_error(sk: Seq<u8>) -> Option<DeviceError> {
    if sk.len() != 32 {
        Some(DeviceError::Length(Argument::SpendingKey, sk.len() as usize))
    } else if !crate::keys::has_viewing_key(sk) {
        Some(DeviceError::NoViewingKey)
    } else {
        None
    }
}

/// The address for a diversifier, or what is wrong.
pub open spec fn address_of(sk: Seq<u8>, diversifier: Seq<u8>, community_id: Seq<u8>) -> Result<
    AddressModel,
    DeviceError,
> {
    if key_error(sk) is Some {
        Err(key_error(sk)->0)
    } else if diversifier.len() != 11 {
        Err(DeviceError::Length(Argument::Diversifier, diversifier.len() as usize))
    } else if community_id.len() != 16 {
        Err(DeviceError::Length(Argument::CommunityId, community_id.len() as usize))
    } else {
        Ok(crate::keys::viewing_key(sk).address(diversifier))
    }
}

/// The creation address for a month, or what is wrong.
pub open spec fn creation_address_of(
    sk: Seq<u8>,
    year: u32,
    month: u32,
    community_id: Seq<u8>,
) -> Result<AddressModel, DeviceError> {
    let key = crate::keys::viewing_key(sk);
    if key_error(sk) is Some {
        Err(key_error(sk)->0)
    } else if month < 1 || month > 12 {
        Err(DeviceError::Month)
    } else if community_id.len() != 16 {
        Err(DeviceError::Length(Argument::CommunityId, community_id.len() as usize))
    } else {
        Ok(key.address(crate::keys::monthly_diversifier(key.ivk, year, month)))
    }
}

/// The review of an encoded request, or what is wrong, in the order of the checks.
pub open spec fn review_of(sk: Seq<u8>, community: Seq<u8>, request: Seq<u8>) -> Result<
    ReviewModel,
    DeviceError,
> {
    match crate::signer::decoded_request(request) {
        None => Err(DeviceError::Request(ReviewError::Request)),
        Some(r) => if sk.len() != 32 {
            Err(DeviceError::Length(Argument::SpendingKey, sk.len() as usize))
        } else if community.len() != 32 {
            Err(DeviceError::Length(Argument::Community, community.len() as usize))
        } else if crate::bytes::le_nat(community) >= crate::pallas::base_modulus() {
            Err(DeviceError::NotCanonical)
        } else if !crate::keys::has_viewing_key(sk) {
            Err(DeviceError::NoViewingKey)
        } else {
            match crate::signer::reviewed(
                r,
                crate::keys::viewing_key(sk),
                crate::bytes::le_nat(community),
            ) {
                Ok(v) => Ok(v),
                Err(e) => Err(DeviceError::Request(e)),
            }
        },
    }
}

// ---------------------------------------------------------------------------------- arguments

fn array<const N: usize>(bytes: &[u8], what: Argument) -> (r: Result<[u8; N], DeviceError>)
    ensures
        match r {
            Ok(a) => bytes@.len() == N && a@ == bytes@,
            Err(e) => bytes@.len() != N && e == DeviceError::Length(what, bytes@.len() as usize),
        },
{
    if bytes.len() != N {
        return Err(DeviceError::Length(what, bytes.len()));
    }
    let r = take::<N>(bytes, 0);
    assert(bytes@.subrange(0, N as int) =~= bytes@);
    Ok(r)
}

fn spending_key(bytes: &[u8]) -> (r: Result<SpendingKey, DeviceError>)
    ensures
        match r {
            Ok(sk) => bytes@.len() == 32 && sk.bytes() == bytes@,
            Err(e) => bytes@.len() != 32 && e == DeviceError::Length(
                Argument::SpendingKey,
                bytes@.len() as usize,
            ),
        },
{
    match array::<32>(bytes, Argument::SpendingKey) {
        Ok(b) => Ok(SpendingKey::from_bytes(b)),
        Err(e) => Err(e),
    }
}

fn community(bytes: &[u8]) -> (r: Result<Base, DeviceError>)
    ensures
        match r {
            Ok(c) => bytes@.len() == 32 && c@ == crate::bytes::le_nat(bytes@) && c@
                < crate::pallas::base_modulus(),
            Err(e) => if bytes@.len() != 32 {
                e == DeviceError::Length(Argument::Community, bytes@.len() as usize)
            } else {
                crate::bytes::le_nat(bytes@) >= crate::pallas::base_modulus() && e
                    == DeviceError::NotCanonical
            },
        },
{
    let repr = match array::<32>(bytes, Argument::Community) {
        Ok(b) => b,
        Err(e) => return Err(e),
    };
    match Base::from_repr(&repr) {
        Some(c) => Ok(c),
        None => Err(DeviceError::NotCanonical),
    }
}

/// Memo text without the zero padding.
pub fn unpadded(data: &[u8]) -> (r: Vec<u8>)
    ensures
        r@ == without_padding(data@),
{
    let mut end: usize = data.len();
    assert(data@.take(end as int) =~= data@);
    while end > 0 && data[end - 1] == 0
        invariant
            end <= data@.len(),
            without_padding(data@.take(end as int)) == without_padding(data@),
        decreases end,
    {
        assert(data@.take(end as int).drop_last() =~= data@.take(end - 1));
        end = end - 1;
    }
    crate::bytes::copied(vstd::slice::slice_subrange(data, 0, end))
}

// ---------------------------------------------------------------------------------- interface

/// A new spending key from 32 bytes of the platform's secure random source.
pub fn generate_spending_key(entropy: [u8; 32]) -> (r: [u8; 32])
    ensures
        r@ == entropy@,
{
    SpendingKey::random(entropy).to_bytes()
}

/// The full viewing key for the community server (`ak | nk | rivk | ovk`). With it the server can
/// prove, decrypt and show balances, but not spend.
pub fn viewing_key(spending_key_bytes: &[u8]) -> (r: Result<[u8; 128], DeviceError>)
    ensures
        match r {
            Ok(k) => key_error(spending_key_bytes@) is None && k@ == crate::keys::viewing_key(
                spending_key_bytes@,
            ).encoded(),
            Err(e) => key_error(spending_key_bytes@) == Some(e),
        },
{
    let sk = match spending_key(spending_key_bytes) {
        Ok(k) => k,
        Err(e) => return Err(e),
    };
    match sk.try_full_viewing_key() {
        Some(fvk) => Ok(fvk.to_bytes()),
        None => Err(DeviceError::NoViewingKey),
    }
}

/// The address for an 11-byte diversifier, encoded for a community (16-byte id).
pub fn address(spending_key_bytes: &[u8], diversifier: &[u8], community_id: &[u8]) -> (r: Result<
    String,
    DeviceError,
>)
    ensures
        match r {
            Ok(s) => {
                let a = address_of(spending_key_bytes@, diversifier@, community_id@);
                a is Ok && s@ == crate::address::encoded_address(a->Ok_0, community_id@)
            },
            Err(e) => address_of(spending_key_bytes@, diversifier@, community_id@) == Err::<
                AddressModel,
                DeviceError,
            >(e),
        },
{
    let sk = match spending_key(spending_key_bytes) {
        Ok(k) => k,
        Err(e) => return Err(e),
    };
    let fvk = match sk.try_full_viewing_key() {
        Some(k) => k,
        None => return Err(DeviceError::NoViewingKey),
    };
    let d = match array::<11>(diversifier, Argument::Diversifier) {
        Ok(d) => d,
        Err(e) => return Err(e),
    };
    let id = match array::<16>(community_id, Argument::CommunityId) {
        Ok(id) => id,
        Err(e) => return Err(e),
    };
    Ok(crate::address::encode(&fvk.address(d), &id))
}

/// The creation address for one target month.
pub fn creation_address(
    spending_key_bytes: &[u8],
    year: u32,
    month: u32,
    community_id: &[u8],
) -> (r: Result<String, DeviceError>)
    ensures
        match r {
            Ok(s) => {
                let a = creation_address_of(spending_key_bytes@, year, month, community_id@);
                a is Ok && s@ == crate::address::encoded_address(a->Ok_0, community_id@)
            },
            Err(e) => creation_address_of(spending_key_bytes@, year, month, community_id@) == Err::<
                AddressModel,
                DeviceError,
            >(e),
        },
{
    let sk = match spending_key(spending_key_bytes) {
        Ok(k) => k,
        Err(e) => return Err(e),
    };
    let fvk = match sk.try_full_viewing_key() {
        Some(k) => k,
        None => return Err(DeviceError::NoViewingKey),
    };
    let address = match fvk.creation_address(year, month) {
        Some(a) => a,
        None => return Err(DeviceError::Month),
    };
    match array::<16>(community_id, Argument::CommunityId) {
        Ok(id) => Ok(crate::address::encode(&address, &id)),
        Err(e) => Err(e),
    }
}

/// Checks an address someone typed or scanned: its 43 raw bytes and the id of its community.
pub fn decode_address(text: &str) -> (r: Result<([u8; 43], [u8; 16]), DeviceError>)
    ensures
        match r {
            Ok((raw, id)) => {
                let a = crate::address::decoded_address(text@);
                a is Ok && raw@ == a->Ok_0.0.raw() && id@ == a->Ok_0.1
            },
            Err(e) => {
                let a = crate::address::decoded_address(text@);
                a is Err && e == DeviceError::Address(a->Err_0)
            },
        },
{
    match crate::address::decode(text) {
        Ok((address, id)) => Ok((address.to_raw(), id)),
        Err(e) => Err(DeviceError::Address(e)),
    }
}

fn shown_payment(p: &Payment, community_id: &[u8; 16]) -> (r: ShownPayment)
    ensures
        r.shows(p@, community_id@),
{
    let kind = match p.kind {
        NoteKind::Normal => "normal",
        NoteKind::Deferred => "deferred",
    };
    let memo = match &p.memo {
        Some(m) => Some(unpadded(m.as_slice())),
        None => None,
    };
    ShownPayment {
        address: crate::address::encode(&p.address, community_id),
        value: p.value,
        kind,
        memo,
        free_memo: unpadded(p.free_memo.as_slice()),
    }
}

/// A review as the device shows it, with addresses encoded for a community.
pub fn review_object(review: &Review, community_id: &[u8; 16]) -> (r: ShownReview)
    requires
        review.spends <= u32::MAX,
    ensures
        r.shows(review@, community_id@),
{
    let mut payments: Vec<ShownPayment> = Vec::new();
    let mut i: usize = 0;
    while i < review.payments.len()
        invariant
            i <= review.payments@.len(),
            payments@.len() == i,
            forall|j: int|
                0 <= j < i ==> (#[trigger] payments@[j]).shows(
                    review@.payments[j],
                    community_id@,
                ),
        decreases review.payments@.len() - i,
    {
        let shown = shown_payment(&review.payments[i], community_id);
        assert(review@.payments[i as int] == review.payments@[i as int]@);
        payments.push(shown);
        i = i + 1;
    }
    ShownReview {
        created_at: review.created_at,
        payments,
        change: review.change,
        spends: review.spends as u32,
        sighash: review.sighash,
    }
}

/// Checks a signing request against the key without signing. `community` is the 32-byte field
/// element of the community, `community_id` its 16-byte id for the address encoding.
pub fn review_signing_request(
    spending_key_bytes: &[u8],
    community_bytes: &[u8],
    community_id: &[u8],
    request: &[u8],
) -> (r: Result<ShownReview, DeviceError>)
    ensures
        match r {
            Ok(shown) => {
                let v = review_of(spending_key_bytes@, community_bytes@, request@);
                v is Ok && community_id@.len() == 16 && shown.shows(v->Ok_0, community_id@)
            },
            Err(e) => match review_of(spending_key_bytes@, community_bytes@, request@) {
                Err(f) => e == f,
                Ok(_) => community_id@.len() != 16 && e == DeviceError::Length(
                    Argument::CommunityId,
                    community_id@.len() as usize,
                ),
            },
        },
{
    let request = match SigningRequest::decode(request) {
        Ok(r) => r,
        Err(e) => return Err(DeviceError::Request(e)),
    };
    let sk = match spending_key(spending_key_bytes) {
        Ok(k) => k,
        Err(e) => return Err(e),
    };
    let community = match community(community_bytes) {
        Ok(c) => c,
        Err(e) => return Err(e),
    };
    let review = match crate::signer::try_review(&request, &sk, community) {
        None => return Err(DeviceError::NoViewingKey),
        Some(Err(e)) => return Err(DeviceError::Request(e)),
        Some(Ok(v)) => v,
    };
    let id = match array::<16>(community_id, Argument::CommunityId) {
        Ok(id) => id,
        Err(e) => return Err(e),
    };
    proof {
        crate::signer::lemma_spends_bound(
            request@,
            crate::keys::viewing_key(sk.bytes()),
            community@,
        );
    }
    Ok(review_object(&review, &id))
}

/// Checks the request and signs it. The signatures go back to the server only after the owner has
/// seen the review.
pub fn sign_signing_request(
    spending_key_bytes: &[u8],
    community_bytes: &[u8],
    community_id: &[u8],
    request: &[u8],
    entropy: &[[u8; 32]; 2],
) -> (r: Result<(ShownReview, Vec<[u8; 64]>), DeviceError>)
    ensures
        match r {
            Ok((shown, sigs)) => {
                let v = review_of(spending_key_bytes@, community_bytes@, request@);
                &&& v is Ok
                &&& community_id@.len() == 16
                &&& shown.shows(v->Ok_0, community_id@)
                &&& signatures_hold(
                    sigs@,
                    crate::signer::decoded_request(request@)->0.alphas,
                    crate::keys::public_authorizing_key(spending_key_bytes@),
                    v->Ok_0.sighash,
                )
            },
            Err(e) => match review_of(spending_key_bytes@, community_bytes@, request@) {
                Err(f) => e == f,
                Ok(_) => community_id@.len() != 16 && e == DeviceError::Length(
                    Argument::CommunityId,
                    community_id@.len() as usize,
                ),
            },
        },
{
    let request = match SigningRequest::decode(request) {
        Ok(r) => r,
        Err(e) => return Err(DeviceError::Request(e)),
    };
    let sk = match spending_key(spending_key_bytes) {
        Ok(k) => k,
        Err(e) => return Err(e),
    };
    let community = match community(community_bytes) {
        Ok(c) => c,
        Err(e) => return Err(e),
    };
    let (review, signatures) = match crate::signer::try_sign(&request, &sk, community, entropy) {
        None => return Err(DeviceError::NoViewingKey),
        Some(Err(e)) => return Err(DeviceError::Request(e)),
        Some(Ok(v)) => v,
    };
    let id = match array::<16>(community_id, Argument::CommunityId) {
        Ok(id) => id,
        Err(e) => return Err(e),
    };
    let mut list: Vec<[u8; 64]> = Vec::new();
    let mut i: usize = 0;
    while i < signatures.len()
        invariant
            i <= signatures@.len(),
            list@.len() == i,
            forall|j: int| 0 <= j < i ==> (#[trigger] list@[j])@ == signatures@[j].0@,
        decreases signatures@.len() - i,
    {
        list.push(crate::signer::signature_bytes(&signatures[i]));
        i = i + 1;
    }
    proof {
        crate::signer::lemma_spends_bound(
            request@,
            crate::keys::viewing_key(sk.bytes()),
            community@,
        );
    }
    Ok((review_object(&review, &id), list))
}

/// Whether there is one signature for every action that an alpha was sent for, and each verifies
/// under its rerandomised key.
pub open spec fn signatures_hold(
    sigs: Seq<[u8; 64]>,
    alphas: Seq<Option<nat>>,
    ak: nat,
    sighash: Seq<u8>,
) -> bool {
    let signed = crate::signer::signed_actions(alphas);
    &&& sigs.len() == signed.len()
    &&& forall|k: int|
        0 <= k < sigs.len() ==> crate::signature::spend_auth_verifies(
            crate::pallas::encode_point(
                crate::signature::randomized_key(ak, alphas[signed[k]]->0),
            ),
            sighash,
            (#[trigger] sigs[k])@,
        )
}

/// A padded text is shown as it was, unless it ends in zeros itself.
pub proof fn padded_text_is_shown_again(text: Seq<u8>)
    requires
        text.len() <= 512,
        text.len() == 0 || text.last() != 0,
    ensures
        without_padding(crate::memo::padded(text)) == text,
{
    lemma_zeros_removed(text, (512 - text.len()) as nat);
}

proof fn lemma_zeros_removed(text: Seq<u8>, n: nat)
    requires
        text.len() == 0 || text.last() != 0,
    ensures
        without_padding(text + crate::bytes::zeros(n)) == text,
    decreases n,
{
    let s = text + crate::bytes::zeros(n);
    if n == 0 {
        assert(s =~= text);
    } else {
        lemma_zeros_removed(text, (n - 1) as nat);
        assert(s.drop_last() =~= text + crate::bytes::zeros((n - 1) as nat));
    }
}

/// What is shown of a padded text is its beginning, without a zero at the end, and only zeros are
/// left out.
pub proof fn only_zeros_are_left_out(data: Seq<u8>)
    ensures
        ({
            let shown = without_padding(data);
            &&& shown.len() <= data.len()
            &&& shown == data.take(shown.len() as int)
            &&& forall|i: int| shown.len() <= i < data.len() ==> #[trigger] data[i] == 0
            &&& shown.len() > 0 ==> shown.last() != 0
        }),
    decreases data.len(),
{
    if data.len() > 0 && data.last() == 0 {
        let front = data.drop_last();
        only_zeros_are_left_out(front);
        let shown = without_padding(data);
        assert(front.take(shown.len() as int) =~= data.take(shown.len() as int));
        assert forall|i: int| shown.len() <= i < data.len() implies #[trigger] data[i] == 0 by {
            if i < front.len() {
                assert(front[i] == data[i]);
            }
        }
    } else {
        assert(data.take(data.len() as int) =~= data);
    }
}

/// The device gives an address exactly for a spending key of 32 bytes with a viewing key, a
/// diversifier of 11 bytes and a community id of 16, and it is the address of that key and
/// diversifier.
pub proof fn the_device_gives_its_own_address(
    sk: Seq<u8>,
    diversifier: Seq<u8>,
    community_id: Seq<u8>,
)
    ensures
        ({
            let r = address_of(sk, diversifier, community_id);
            &&& r is Ok <==> sk.len() == 32 && crate::keys::has_viewing_key(sk)
                && diversifier.len() == 11 && community_id.len() == 16
            &&& r matches Ok(a) ==> {
                &&& a.d == diversifier
                &&& crate::signer::is_own(a, crate::keys::viewing_key(sk))
            }
            &&& sk.len() != 32 ==> r == Err::<AddressModel, DeviceError>(
                DeviceError::Length(Argument::SpendingKey, sk.len() as usize),
            )
            &&& r matches Err(DeviceError::Length(Argument::SpendingKey, _)) ==> sk.len() != 32
            &&& r == Err::<AddressModel, DeviceError>(DeviceError::NoViewingKey) <==> sk.len()
                == 32 && !crate::keys::has_viewing_key(sk)
            &&& r matches Err(DeviceError::Length(Argument::Diversifier, _)) ==> diversifier.len()
                != 11
            &&& r matches Err(DeviceError::Length(Argument::CommunityId, _)) ==> community_id.len()
                != 16 && diversifier.len() == 11
        }),
{
}

/// The device gives a creation address exactly for a spending key of 32 bytes with a viewing key,
/// a month from 1 to 12 and a community id of 16 bytes; it is an address of that key, with the
/// diversifier of the month.
pub proof fn the_device_gives_its_own_creation_address(
    sk: Seq<u8>,
    year: u32,
    month: u32,
    community_id: Seq<u8>,
)
    ensures
        ({
            let r = creation_address_of(sk, year, month, community_id);
            let key = crate::keys::viewing_key(sk);
            &&& r is Ok <==> sk.len() == 32 && crate::keys::has_viewing_key(sk) && 1 <= month <= 12
                && community_id.len() == 16
            &&& r matches Ok(a) ==> {
                &&& a.d == crate::keys::monthly_diversifier(key.ivk, year, month)
                &&& crate::signer::is_own(a, key)
            }
            &&& r == Err::<AddressModel, DeviceError>(DeviceError::Month) <==> sk.len() == 32
                && crate::keys::has_viewing_key(sk) && !(1 <= month <= 12)
        }),
{
}

/// The device reviews a request with its own viewing key for the given community, and refuses
/// arguments of another length and a community that is not canonical.
pub proof fn the_device_reviews_with_its_own_key(sk: Seq<u8>, community: Seq<u8>, request: Seq<u8>)
    ensures
        ({
            let r = review_of(sk, community, request);
            let c = crate::bytes::le_nat(community);
            &&& r matches Ok(v) ==> {
                &&& sk.len() == 32 && community.len() == 32
                &&& c < crate::pallas::base_modulus()
                &&& crate::keys::has_viewing_key(sk)
                &&& crate::signer::decoded_request(request) matches Some(q)
                &&& crate::signer::reviewed(q, crate::keys::viewing_key(sk), c) == Ok::<
                    ReviewModel,
                    ReviewError,
                >(v)
            }
            &&& sk.len() == 32 && community.len() == 32 && c < crate::pallas::base_modulus()
                && crate::keys::has_viewing_key(sk) ==> match crate::signer::decoded_request(
                request,
            ) {
                None => r == Err::<ReviewModel, DeviceError>(
                    DeviceError::Request(ReviewError::Request),
                ),
                Some(q) => match crate::signer::reviewed(q, crate::keys::viewing_key(sk), c) {
                    Ok(v) => r == Ok::<ReviewModel, DeviceError>(v),
                    Err(e) => r == Err::<ReviewModel, DeviceError>(DeviceError::Request(e)),
                },
            }
        }),
{
}

/// What the device shows is what the review found: time, change, number of spends and sighash are
/// its own, and there is one shown payment for each, in order, with its value, its address for the
/// community, its kind, and its memos without the zeros at their end.
pub proof fn a_shown_review_hides_nothing(shown: ShownReview, r: ReviewModel, community_id: Seq<u8>)
    requires
        shown.shows(r, community_id),
    ensures
        shown.created_at == r.created_at,
        shown.change == r.change,
        shown.spends == r.spends,
        shown.sighash@ == r.sighash,
        shown.payments@.len() == r.payments.len(),
        forall|i: int|
            0 <= i < r.payments.len() ==> {
                let s = #[trigger] shown.payments@[i];
                let p = r.payments[i];
                &&& s.value == p.value
                &&& s.address@ == crate::address::encoded_address(p.address, community_id)
                &&& p.kind == NoteKind::Normal ==> s.kind@ == "normal"@
                &&& p.kind == NoteKind::Deferred ==> s.kind@ == "deferred"@
                &&& match (p.memo, s.memo) {
                    (None, None) => true,
                    (Some(m), Some(t)) => t@ == without_padding(m),
                    _ => false,
                }
                &&& s.free_memo@ == without_padding(p.free_memo)
            },
{
}

/// The signatures that the device hands out are one for each action that a rerandomiser was sent
/// for, in order, and each verifies under the key that the action must have.
pub proof fn handed_out_signatures_verify(
    sigs: Seq<[u8; 64]>,
    alphas: Seq<Option<nat>>,
    ak: nat,
    sighash: Seq<u8>,
)
    requires
        alphas.len() == 2,
        signatures_hold(sigs, alphas, ak, sighash),
    ensures
        ({
            let verifies = |k: int, i: int|
                crate::signature::spend_auth_verifies(
                    crate::pallas::encode_point(
                        (ak + crate::signature::spend_auth_generator() * alphas[i]->0)
                            % crate::pallas::scalar_modulus(),
                    ),
                    sighash,
                    sigs[k]@,
                );
            match (alphas[0], alphas[1]) {
                (None, None) => sigs.len() == 0,
                (Some(_), None) => sigs.len() == 1 && verifies(0, 0),
                (None, Some(_)) => sigs.len() == 1 && verifies(0, 1),
                (Some(_), Some(_)) => sigs.len() == 2 && verifies(0, 0) && verifies(1, 1),
            }
        }),
{
    let front = alphas.drop_last();
    assert(front.drop_last() =~= Seq::empty());
    assert(front.last() == alphas[0]);
    reveal_with_fuel(crate::signer::signed_actions, 3);
    let g = crate::signature::spend_auth_generator();
    if let Some(a) = alphas[0] {
        crate::pallas::lemma_reduced(ak as int, (g * a) as int);
    }
    if let Some(a) = alphas[1] {
        crate::pallas::lemma_reduced(ak as int, (g * a) as int);
    }
    let signed = crate::signer::signed_actions(alphas);
    assert forall|k: int| 0 <= k < sigs.len() implies crate::signature::spend_auth_verifies(
        crate::pallas::encode_point(crate::signature::randomized_key(ak, alphas[signed[k]]->0)),
        sighash,
        #[trigger] sigs[k]@,
    ) by {
        let s = sigs[k];
    }
}

} // verus!
