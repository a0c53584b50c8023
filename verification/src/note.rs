//! The shielded note and the two hashes over it.
//!
//! Both the commitment and the nullifier use Poseidon over field elements, not Sinsemilla over
//! bits. Sinsemilla hashes a bit string, so every field of the note would have to be decomposed
//! and checked for canonicity before it can be bound to the cells the rest of the circuit uses.
//! Poseidon takes field elements as they are, so the same cell that carries the value into the
//! decay gadget also goes into the commitment. Nothing can drift apart.
//!
//! ```text
//! cm = Poseidon(community, coin_community, value|t_note, kind|expiry,
//!               g_d_x, g_d_y, pk_d_x, pk_d_y, rho, psi, memo_cm, rcm)
//! nf = Poseidon(nk, rho, cm)
//! ```
//!
//! Field packing keeps every element well below the modulus, so the encoding is unambiguous:
//!
//! | element | contents | bits |
//! |---|---|---|
//! | `community` | community id | 128 |
//! | `coin_community` | id of the coin's home community | 128 |
//! | `amount` | `value` (63) and `t_note` (40) | 103 |
//! | `meta` | `note_kind` (1) and `expiry_epoch` (16) | 17 |
//! | `g_d_x`, `g_d_y`, `pk_d_x`, `pk_d_y`, `rho`, `psi`, `memo_cm`, `rcm` | one field element each | 255 |
//!
//! The commitment binds `g_d`, not the diversifier `d`, as Orchard does. The circuit proves
//! `pk_d = [ivk] g_d`; if `g_d` were free, anyone who knows a note could pick `g_d = pk_d` and
//! `ivk = 1` and spend it. The diversifier itself travels only in the encrypted plaintext.
use vstd::arithmetic::power2::{lemma_pow2_unfold, pow2};
use vstd::prelude::*;

use crate::bytes::{append, push_le, read_le};
use crate::keys::Address;
use crate::pallas::{Base, Scalar};

verus! {

broadcast use vstd::array::group_array_axioms;

/// Number of field elements in the commitment.
pub const COMMIT_ELEMENTS: usize = 12;

/// Bit widths of the packed parts, least significant first. A value is a non-negative 64 bit
/// integer, so 63 bits.
pub const VALUE_BITS: u32 = 63;

pub const TIMESTAMP_BITS: u32 = 40;

pub const NOTE_KIND_BITS: u32 = 1;

pub const EXPIRY_BITS: u32 = 16;

/// The first value that does not fit.
pub const VALUE_LIMIT: u64 = 0x8000_0000_0000_0000;

/// The first time that does not fit.
pub const TIMESTAMP_LIMIT: u64 = 0x100_0000_0000;

/// The first expiry that does not fit.
pub const EXPIRY_LIMIT: u64 = 0x1_0000;

pub const RSEED_PERSONALIZATION: &'static str = "Gradido_RSeedExp";

pub const CREATION_RHO_PERSONALIZATION: &'static str = "Gradido_CreatRho";

/// A note field outside the width the circuit can prove.
#[derive(Clone, Copy, Debug, PartialEq, Eq, Structural)]
pub enum NoteError {
    ValueTooLarge,
    TimestampTooLarge,
    ExpiryTooLarge,
    /// the transmission key is the identity, no key can own such an address
    InvalidAddress,
}

/// What a note is spent as; a deferred note carries a time lock.
#[derive(Clone, Copy, Debug, PartialEq, Eq, Structural)]
pub enum NoteKind {
    Normal,
    Deferred,
}

impl NoteKind {
    /// The number of a kind.
    pub open spec fn number(self) -> nat {
        match self {
            NoteKind::Normal => 0,
            NoteKind::Deferred => 1,
        }
    }

    /// 0 for a normal note, 1 for a deferred one.
    pub fn to_u8(self) -> (r: u8)
        ensures
            r as nat == self.number(),
    {
        match self {
            NoteKind::Normal => 0,
            NoteKind::Deferred => 1,
        }
    }
}

#[derive(Clone, Copy, Debug, PartialEq, Eq, Structural)]
pub struct Note {
    pub community: Base,
    pub coin_community: Base,
    /// nominal GradidoUnit (GDD * 10^4) at `t_note`
    pub value: u64,
    /// seconds, never before DECAY_START_TIME
    pub t_note: u64,
    pub kind: NoteKind,
    pub expiry_epoch: u64,
    /// diversifier of the address; not committed, `g_d` is
    pub d: u128,
    /// `g_d = diversify_hash(d)`, both coordinates
    pub g_d_x: Base,
    pub g_d_y: Base,
    /// the address point, both coordinates; no sign bit, so the circuit needs no parity check
    pub pk_d_x: Base,
    pub pk_d_y: Base,
    pub rho: Base,
    pub psi: Base,
    /// commitment to the memo
    pub memo_cm: Base,
    /// randomness that makes the commitment hiding
    pub rcm: Base,
}

// ------------------------------------------------------------------------------------- model

/// `value + t_note * 2^63` in the base field.
pub open spec fn packed_amount(value: nat, t_note: nat) -> nat {
    (value + t_note * pow2(63)) % crate::pallas::base_modulus()
}

/// `kind + expiry * 2^1` in the base field.
pub open spec fn packed_meta(kind: NoteKind, expiry_epoch: nat) -> nat {
    (kind.number() + expiry_epoch * pow2(1)) % crate::pallas::base_modulus()
}

/// A note, with the integers of its field elements.
#[verifier::ext_equal]
pub struct NoteModel {
    pub community: nat,
    pub coin_community: nat,
    pub value: u64,
    pub t_note: u64,
    pub kind: NoteKind,
    pub expiry_epoch: u64,
    pub d: nat,
    pub g_d: (nat, nat),
    pub pk_d: (nat, nat),
    pub rho: nat,
    pub psi: nat,
    pub memo_cm: nat,
    pub rcm: nat,
}

impl View for Note {
    type V = NoteModel;

    open spec fn view(&self) -> NoteModel {
        NoteModel {
            community: self.community@,
            coin_community: self.coin_community@,
            value: self.value,
            t_note: self.t_note,
            kind: self.kind,
            expiry_epoch: self.expiry_epoch,
            d: self.d as nat,
            g_d: (self.g_d_x@, self.g_d_y@),
            pk_d: (self.pk_d_x@, self.pk_d_y@),
            rho: self.rho@,
            psi: self.psi@,
            memo_cm: self.memo_cm@,
            rcm: self.rcm@,
        }
    }
}

impl NoteModel {
    /// The integers the commitment hashes, in circuit order.
    pub open spec fn elements(self) -> Seq<nat> {
        seq![
            self.community,
            self.coin_community,
            packed_amount(self.value as nat, self.t_note as nat),
            packed_meta(self.kind, self.expiry_epoch as nat),
            self.g_d.0,
            self.g_d.1,
            self.pk_d.0,
            self.pk_d.1,
            self.rho,
            self.psi,
            self.memo_cm,
            self.rcm,
        ]
    }

    /// The note commitment.
    pub open spec fn cm(self) -> nat {
        crate::hash::poseidon_hash(self.elements())
    }

    /// The nullifier under the key `nk`.
    pub open spec fn nf(self, nk: nat) -> nat {
        crate::hash::poseidon_hash(seq![nk, self.rho, self.cm()])
    }

    /// The fields fit the widths the circuit proves.
    pub open spec fn in_range(self) -> bool {
        &&& self.value < VALUE_LIMIT
        &&& self.t_note < TIMESTAMP_LIMIT
        &&& self.expiry_epoch < EXPIRY_LIMIT
    }
}

/// What a per-note random value is hashed from.
pub open spec fn seed_input(rseed: Seq<u8>, tag: u8, rho: nat) -> Seq<u8> {
    rseed.push(tag) + crate::bytes::le_bytes(rho, 32)
}

pub open spec fn esk_of_seed(rseed: Seq<u8>, rho: nat) -> nat {
    crate::hash::hash_to_scalar(RSEED_PERSONALIZATION@, seed_input(rseed, 0x04, rho))
}

pub open spec fn psi_of_seed(rseed: Seq<u8>, rho: nat) -> nat {
    crate::hash::hash_to_base(RSEED_PERSONALIZATION@, seed_input(rseed, 0x09, rho))
}

pub open spec fn rcm_of_seed(rseed: Seq<u8>, rho: nat) -> nat {
    crate::hash::hash_to_base(RSEED_PERSONALIZATION@, seed_input(rseed, 0x05, rho))
}

/// Why a note cannot be made from its parts, in the order of the checks.
pub open spec fn parts_error(
    value: u64,
    t_note: u64,
    expiry_epoch: u64,
    pk_d: nat,
) -> Option<NoteError> {
    if value >= VALUE_LIMIT {
        Some(NoteError::ValueTooLarge)
    } else if t_note >= TIMESTAMP_LIMIT {
        Some(NoteError::TimestampTooLarge)
    } else if expiry_epoch >= EXPIRY_LIMIT {
        Some(NoteError::ExpiryTooLarge)
    } else if pk_d == 0 {
        Some(NoteError::InvalidAddress)
    } else {
        None
    }
}

/// The note made of the given parts.
pub open spec fn note_of_parts(
    community: nat,
    coin_community: nat,
    value: u64,
    t_note: u64,
    kind: NoteKind,
    expiry_epoch: u64,
    address: crate::keys::AddressModel,
    rho: nat,
    memo_cm: nat,
    rseed: Seq<u8>,
) -> Result<NoteModel, NoteError> {
    match parts_error(value, t_note, expiry_epoch, address.pk_d) {
        Some(e) => Err(e),
        None => Ok(
            NoteModel {
                community,
                coin_community,
                value,
                t_note,
                kind,
                expiry_epoch,
                d: crate::bytes::le_nat(address.d),
                g_d: crate::pallas::pallas_multiple(crate::keys::diversified_base(address.d)),
                pk_d: crate::pallas::pallas_multiple(address.pk_d),
                rho,
                psi: psi_of_seed(rseed, rho),
                memo_cm,
                rcm: rcm_of_seed(rseed, rho),
            },
        ),
    }
}

/// The rho of a public creation.
pub open spec fn rho_of_creation(community: nat, position: nat) -> nat {
    crate::hash::hash_to_base(
        CREATION_RHO_PERSONALIZATION@,
        crate::bytes::le_bytes(community, 32) + crate::bytes::le_bytes(position, 8),
    )
}

// ---------------------------------------------------------------------------------- functions

/// `2^bits` in the base field.
fn two_pow(bits: u32) -> (r: Base)
    ensures
        r@ == pow2(bits as nat) % crate::pallas::base_modulus(),
{
    let mut acc = Base::one();
    let mut i: u32 = 0;
    proof {
        vstd::arithmetic::power2::lemma2_to64();
    }
    while i < bits
        invariant
            i <= bits,
            acc@ == pow2(i as nat) % crate::pallas::base_modulus(),
        decreases bits - i,
    {
        proof {
            lemma_pow2_unfold(i as nat + 1);
            vstd::arithmetic::div_mod::lemma_mul_mod_noop_right(
                2,
                pow2(i as nat) as int,
                crate::pallas::base_modulus() as int,
            );
        }
        acc = acc.double();
        i = i + 1;
    }
    acc
}

/// `low + high * 2^bits` in the base field.
fn packed(low: u64, high: u64, bits: u32) -> (r: Base)
    ensures
        r@ == (low as nat + high as nat * pow2(bits as nat)) % crate::pallas::base_modulus(),
{
    proof {
        let p = crate::pallas::base_modulus() as int;
        let e = pow2(bits as nat) as int;
        vstd::arithmetic::div_mod::lemma_mul_mod_noop_right(high as int, e, p);
        vstd::arithmetic::div_mod::lemma_add_mod_noop_right(low as int, high * e, p);
    }
    Base::from_u64(low).plus(&Base::from_u64(high).times(&two_pow(bits)))
}

/// `value + t_note * 2^63`
pub fn pack_amount(value: u64, t_note: u64) -> (r: Base)
    ensures
        r@ == packed_amount(value as nat, t_note as nat),
{
    packed(value, t_note, VALUE_BITS)
}

/// `kind + expiry * 2^1`
pub fn pack_meta(kind: NoteKind, expiry_epoch: u64) -> (r: Base)
    ensures
        r@ == packed_meta(kind, expiry_epoch as nat),
{
    packed(kind.to_u8() as u64, expiry_epoch, NOTE_KIND_BITS)
}

impl Note {
    /// The field elements the commitment hashes, in circuit order.
    pub fn commit_elements(&self) -> (r: [Base; 12])
        ensures
            crate::hash::values(r@) == self@.elements(),
    {
        let r: [Base; 12] = [
            self.community,
            self.coin_community,
            pack_amount(self.value, self.t_note),
            pack_meta(self.kind, self.expiry_epoch),
            self.g_d_x,
            self.g_d_y,
            self.pk_d_x,
            self.pk_d_y,
            self.rho,
            self.psi,
            self.memo_cm,
            self.rcm,
        ];
        assert(crate::hash::values(r@) =~= self@.elements());
        r
    }

    pub fn commitment(&self) -> (r: Base)
        ensures
            r@ == self@.cm(),
    {
        commit(self.commit_elements())
    }

    /// `nf = Poseidon(nk, rho, cm)`; unique because `rho` is the nullifier of the note that was
    /// spent to create this one.
    pub fn nullifier(&self, nk: Base) -> (r: Base)
        ensures
            r@ == self@.nf(nk@),
    {
        nullifier(nk, self.rho, self.commitment())
    }
}

/// The seed every per-note random value is derived from, so a receiver who learns `rseed` and
/// `rho` can rebuild the note.
#[derive(Clone, Copy, Debug, PartialEq, Eq)]
pub struct RandomSeed([u8; 32]);

impl RandomSeed {
    pub closed spec fn bytes(self) -> Seq<u8> {
        self.0@
    }

    /// A seed from 32 random bytes.
    pub fn random(entropy: [u8; 32]) -> (r: Self)
        ensures
            r.bytes() == entropy@,
    {
        Self(entropy)
    }

    pub fn from_bytes(bytes: [u8; 32]) -> (r: Self)
        ensures
            r.bytes() == bytes@,
    {
        Self(bytes)
    }

    pub fn to_bytes(self) -> (r: [u8; 32])
        ensures
            r@ == self.bytes(),
    {
        self.0
    }

    pub proof fn lemma_length(self)
        ensures
            self.bytes().len() == 32,
    {
    }

    fn tagged(&self, tag: u8, rho: Base) -> (r: Vec<u8>)
        ensures
            r@ == seed_input(self.bytes(), tag, rho@),
    {
        let mut out: Vec<u8> = Vec::new();
        append(&mut out, self.0.as_slice());
        out.push(tag);
        append(&mut out, rho.to_repr().as_slice());
        assert(out@ =~= seed_input(self.bytes(), tag, rho@));
        out
    }

    /// ephemeral secret key of the note encryption
    pub fn esk(&self, rho: Base) -> (r: Scalar)
        ensures
            r@ == esk_of_seed(self.bytes(), rho@),
    {
        proof {
            reveal_strlit("Gradido_RSeedExp");
        }
        crate::hash::to_scalar(RSEED_PERSONALIZATION, self.tagged(0x04, rho).as_slice())
    }

    /// `psi`, which goes into the commitment
    pub fn psi(&self, rho: Base) -> (r: Base)
        ensures
            r@ == psi_of_seed(self.bytes(), rho@),
    {
        proof {
            reveal_strlit("Gradido_RSeedExp");
        }
        crate::hash::to_base(RSEED_PERSONALIZATION, self.tagged(0x09, rho).as_slice())
    }

    /// `rcm`, the randomness that makes the commitment hiding
    pub fn rcm(&self, rho: Base) -> (r: Base)
        ensures
            r@ == rcm_of_seed(self.bytes(), rho@),
    {
        proof {
            reveal_strlit("Gradido_RSeedExp");
        }
        crate::hash::to_base(RSEED_PERSONALIZATION, self.tagged(0x05, rho).as_slice())
    }
}

/// Everything a note needs besides what the transaction already fixes. Fails for fields the
/// circuit could never open, so such a note is never committed in the first place.
pub fn from_parts(
    community: Base,
    coin_community: Base,
    value: u64,
    t_note: u64,
    kind: NoteKind,
    expiry_epoch: u64,
    address: &Address,
    rho: Base,
    memo_cm: Base,
    rseed: RandomSeed,
) -> (r: Result<Note, NoteError>)
    ensures
        r matches Err(e) ==> note_of_parts(
            community@,
            coin_community@,
            value,
            t_note,
            kind,
            expiry_epoch,
            address@,
            rho@,
            memo_cm@,
            rseed.bytes(),
        ) == Err::<NoteModel, NoteError>(e),
        r matches Ok(note) ==> note_of_parts(
            community@,
            coin_community@,
            value,
            t_note,
            kind,
            expiry_epoch,
            address@,
            rho@,
            memo_cm@,
            rseed.bytes(),
        ) == Ok::<NoteModel, NoteError>(note@),
{
    if value >= VALUE_LIMIT {
        return Err(NoteError::ValueTooLarge);
    }
    if t_note >= TIMESTAMP_LIMIT {
        return Err(NoteError::TimestampTooLarge);
    }
    if expiry_epoch >= EXPIRY_LIMIT {
        return Err(NoteError::ExpiryTooLarge);
    }
    if address.pk_d.is_identity() {
        return Err(NoteError::InvalidAddress);
    }
    let g_d = crate::keys::diversify_hash(&address.d);
    proof {
        use_type_invariant(&g_d);
        use_type_invariant(&address.pk_d);
        assert(address.d@.subrange(0, 11) =~= address.d@);
    }
    Ok(
        Note {
            community,
            coin_community,
            value,
            t_note,
            kind,
            expiry_epoch,
            d: read_le(address.d.as_slice(), 0, 11),
            g_d_x: g_d.x(),
            g_d_y: g_d.y(),
            pk_d_x: address.pk_d.x(),
            pk_d_y: address.pk_d.y(),
            rho,
            psi: rseed.psi(rho),
            memo_cm,
            rcm: rseed.rcm(rho),
        },
    )
}

/// `rho` of a public creation, from its position in the commitment tree.
///
/// A created note in a transfer takes the nullifier of the spent note as `rho`, which is unique.
/// A creation spends nothing, so its `rho` comes from the one thing no other note shares: its
/// leaf position. Two creations with identical public fields therefore still get different
/// commitments and different nullifiers, otherwise the second one could never be spent. The
/// personalisation keeps it apart from every nullifier.
pub fn creation_rho(community: Base, position: u64) -> (r: Base)
    ensures
        r@ == rho_of_creation(community@, position as nat),
{
    proof {
        reveal_strlit("Gradido_CreatRho");
    }
    let mut data: Vec<u8> = Vec::new();
    append(&mut data, community.to_repr().as_slice());
    push_le(&mut data, position as u128, 8);
    assert(data@ =~= crate::bytes::le_bytes(community@, 32) + crate::bytes::le_bytes(
        position as nat,
        8,
    ));
    crate::hash::to_base(CREATION_RHO_PERSONALIZATION, data.as_slice())
}

pub fn commit(elements: [Base; 12]) -> (r: Base)
    ensures
        r@ == crate::hash::poseidon_hash(crate::hash::values(elements@)),
{
    crate::hash::poseidon(elements)
}

pub fn nullifier(nk: Base, rho: Base, cm: Base) -> (r: Base)
    ensures
        r@ == crate::hash::poseidon_hash(seq![nk@, rho@, cm@]),
{
    let message: [Base; 3] = [nk, rho, cm];
    assert(crate::hash::values(message@) =~= seq![nk@, rho@, cm@]);
    crate::hash::poseidon(message)
}

// --------------------------------------------------------------------------------------- laws

/// The packing is unambiguous: equal elements come from equal notes, up to the diversifier,
/// which is not committed.
pub proof fn packing_is_unambiguous(a: NoteModel, b: NoteModel)
    requires
        a.in_range(),
        b.in_range(),
        a.elements() == b.elements(),
    ensures
        a == (NoteModel { d: a.d, ..b }),
{
    let x = a.elements();
    let y = b.elements();
    assert(x[0] == y[0] && x[1] == y[1] && x[2] == y[2] && x[3] == y[3]);
    assert(x[4] == y[4] && x[5] == y[5] && x[6] == y[6] && x[7] == y[7]);
    assert(x[8] == y[8] && x[9] == y[9] && x[10] == y[10] && x[11] == y[11]);
    lemma_amount_fits(a.value as nat, a.t_note as nat);
    lemma_amount_fits(b.value as nat, b.t_note as nat);
    assert(a.value == b.value && a.t_note == b.t_note);
    vstd::arithmetic::power2::lemma2_to64();
    assert(packed_meta(a.kind, a.expiry_epoch as nat) == a.kind.number() + 2 * a.expiry_epoch);
    assert(packed_meta(b.kind, b.expiry_epoch as nat) == b.kind.number() + 2 * b.expiry_epoch);
}

/// Value and time do not wrap around the field.
pub proof fn lemma_amount_fits(value: nat, t_note: nat)
    requires
        value < VALUE_LIMIT,
        t_note < TIMESTAMP_LIMIT,
    ensures
        packed_amount(value, t_note) == value + 0x8000_0000_0000_0000 * t_note,
{
    vstd::arithmetic::power2::lemma2_to64_rest();
    assert(pow2(63) == 0x8000_0000_0000_0000);
    assert(value + 0x8000_0000_0000_0000 * t_note < crate::pallas::base_modulus());
}

/// Every note made of parts is in range, so no two such notes with different committed fields
/// have the same elements.
pub proof fn notes_of_parts_are_in_range(
    community: nat,
    coin_community: nat,
    value: u64,
    t_note: u64,
    kind: NoteKind,
    expiry_epoch: u64,
    address: crate::keys::AddressModel,
    rho: nat,
    memo_cm: nat,
    rseed: Seq<u8>,
)
    ensures
        note_of_parts(
            community,
            coin_community,
            value,
            t_note,
            kind,
            expiry_epoch,
            address,
            rho,
            memo_cm,
            rseed,
        ) matches Ok(note) ==> note.in_range(),
{
}

/// A commitment covers the whole note: two notes that differ in any committed field are hashed
/// from different messages, which are returned. The diversifier is committed by its base.
pub proof fn a_commitment_covers_the_note(a: NoteModel, b: NoteModel) -> (r: (Seq<nat>, Seq<nat>))
    requires
        a.in_range(),
        b.in_range(),
    ensures
        a.cm() == crate::hash::poseidon_hash(r.0),
        b.cm() == crate::hash::poseidon_hash(r.1),
        r.0 == seq![
            a.community,
            a.coin_community,
            (a.value + 0x8000_0000_0000_0000 * a.t_note) as nat,
            a.kind.number() + 2 * a.expiry_epoch as nat,
            a.g_d.0,
            a.g_d.1,
            a.pk_d.0,
            a.pk_d.1,
            a.rho,
            a.psi,
            a.memo_cm,
            a.rcm,
        ],
        r.1.len() == 12,
        r.0 == r.1 ==> {
            &&& a.community == b.community
            &&& a.coin_community == b.coin_community
            &&& a.value == b.value
            &&& a.t_note == b.t_note
            &&& a.kind == b.kind
            &&& a.expiry_epoch == b.expiry_epoch
            &&& a.g_d == b.g_d
            &&& a.pk_d == b.pk_d
            &&& a.rho == b.rho
            &&& a.psi == b.psi
            &&& a.memo_cm == b.memo_cm
            &&& a.rcm == b.rcm
        },
{
    if a.elements() == b.elements() {
        packing_is_unambiguous(a, b);
    }
    lemma_amount_fits(a.value as nat, a.t_note as nat);
    vstd::arithmetic::power2::lemma2_to64();
    assert(packed_meta(a.kind, a.expiry_epoch as nat) == a.kind.number() + 2 * a.expiry_epoch);
    (a.elements(), b.elements())
}

/// A nullifier covers the key, the `rho` of the note and its commitment: where one of them
/// differs, it is hashed from another message.
pub proof fn a_nullifier_covers_key_and_note(a: NoteModel, nk_a: nat, b: NoteModel, nk_b: nat) -> (r:
    (Seq<nat>, Seq<nat>))
    ensures
        a.nf(nk_a) == crate::hash::poseidon_hash(r.0),
        b.nf(nk_b) == crate::hash::poseidon_hash(r.1),
        r.0 == seq![nk_a, a.rho, a.cm()],
        r.0 == r.1 ==> nk_a == nk_b && a.rho == b.rho && a.cm() == b.cm(),
{
    let x = seq![nk_a, a.rho, a.cm()];
    let y = seq![nk_b, b.rho, b.cm()];
    if x == y {
        assert(x[0] == y[0] && x[1] == y[1] && x[2] == y[2]);
    }
    (x, y)
}

/// Whether the ephemeral key, `psi` and `rcm` of a seed are the hashes of three byte strings.
pub open spec fn expanded_from(rseed: Seq<u8>, rho: nat, inputs: Seq<Seq<u8>>) -> bool {
    let digest = |i: int|
        crate::bytes::le_nat(crate::hash::blake2b_hash("Gradido_RSeedExp"@, 64, inputs[i]));
    &&& inputs.len() == 3
    &&& esk_of_seed(rseed, rho) == digest(0) % crate::pallas::scalar_modulus()
    &&& psi_of_seed(rseed, rho) == digest(1) % crate::pallas::base_modulus()
    &&& rcm_of_seed(rseed, rho) == digest(2) % crate::pallas::base_modulus()
}

/// The random values of a note are independent: each is hashed from a byte string of its own, and
/// another seed or another `rho` gives another byte string.
pub proof fn seeds_are_expanded_apart(seed1: Seq<u8>, rho1: nat, seed2: Seq<u8>, rho2: nat) -> (r: (
    Seq<Seq<u8>>,
    Seq<Seq<u8>>,
))
    requires
        seed1.len() == 32,
        seed2.len() == 32,
        rho1 < crate::pallas::base_modulus(),
        rho2 < crate::pallas::base_modulus(),
    ensures
        expanded_from(seed1, rho1, r.0),
        expanded_from(seed2, rho2, r.1),
        r.0[0] == seed1 + seq![4u8] + crate::bytes::le_bytes(rho1, 32),
        r.0[1] == seed1 + seq![9u8] + crate::bytes::le_bytes(rho1, 32),
        r.0[2] == seed1 + seq![5u8] + crate::bytes::le_bytes(rho1, 32),
        forall|i: int, j: int|
            0 <= i < 3 && 0 <= j < 3 && i != j ==> #[trigger] r.0[i] != #[trigger] r.0[j],
        forall|i: int, j: int|
            0 <= i < 3 && 0 <= j < 3 && #[trigger] r.0[i] == #[trigger] r.1[j] ==> i == j && seed1
                == seed2 && rho1 == rho2,
{
    let tags = seq![4u8, 9u8, 5u8];
    let a = Seq::new(3, |i: int| seed_input(seed1, tags[i], rho1));
    let b = Seq::new(3, |i: int| seed_input(seed2, tags[i], rho2));
    assert forall|i: int, j: int|
        0 <= i < 3 && 0 <= j < 3 && i != j implies #[trigger] a[i] != #[trigger] a[j] by {
        assert(a[i][32] == tags[i] && a[j][32] == tags[j]);
    }
    assert forall|i: int, j: int|
        0 <= i < 3 && 0 <= j < 3 && #[trigger] a[i] == #[trigger] b[j] implies i == j && seed1
        == seed2 && rho1 == rho2 by {
        assert(a[i][32] == tags[i] && b[j][32] == tags[j]);
        crate::bytes::lemma_parts_injective(
            seed1.push(tags[i]),
            crate::bytes::le_bytes(rho1, 32),
            seed2.push(tags[j]),
            crate::bytes::le_bytes(rho2, 32),
        );
        assert(seed1 =~= seed1.push(tags[i]).drop_last());
        assert(seed2 =~= seed2.push(tags[j]).drop_last());
        crate::bytes::lemma_pow256_values();
        crate::bytes::lemma_le_bytes_injective(rho1, rho2, 32);
    }
    (a, b)
}

/// Two creations never share the byte string that their `rho` is hashed from, unless they have
/// community and position in common.
pub proof fn creations_are_hashed_apart(
    community1: nat,
    position1: u64,
    community2: nat,
    position2: u64,
) -> (r: (Seq<u8>, Seq<u8>))
    requires
        community1 < crate::pallas::base_modulus(),
        community2 < crate::pallas::base_modulus(),
    ensures
        rho_of_creation(community1, position1 as nat) == crate::bytes::le_nat(
            crate::hash::blake2b_hash("Gradido_CreatRho"@, 64, r.0),
        ) % crate::pallas::base_modulus(),
        rho_of_creation(community2, position2 as nat) == crate::bytes::le_nat(
            crate::hash::blake2b_hash("Gradido_CreatRho"@, 64, r.1),
        ) % crate::pallas::base_modulus(),
        r.0 == crate::bytes::le_bytes(community1, 32) + crate::bytes::le_bytes(position1 as nat, 8),
        r.0 == r.1 ==> community1 == community2 && position1 == position2,
{
    let c1 = crate::bytes::le_bytes(community1, 32);
    let c2 = crate::bytes::le_bytes(community2, 32);
    let p1 = crate::bytes::le_bytes(position1 as nat, 8);
    let p2 = crate::bytes::le_bytes(position2 as nat, 8);
    if c1 + p1 == c2 + p2 {
        crate::bytes::lemma_pow256_values();
        crate::bytes::lemma_le_bytes_len(community1, 32);
        crate::bytes::lemma_le_bytes_len(community2, 32);
        crate::bytes::lemma_parts_injective(c1, p1, c2, p2);
        crate::bytes::lemma_le_bytes_injective(community1, community2, 32);
        crate::bytes::lemma_le_bytes_injective(position1 as nat, position2 as nat, 8);
    }
    (c1 + p1, c2 + p2)
}

/// A note can be made exactly of a value of 63 bits, a time of 40 bits, an expiry of 16 bits and
/// an address with a transmission key, and then carries every part unchanged; otherwise the first
/// part that does not fit is named.
pub proof fn parts_become_the_note(
    community: nat,
    coin_community: nat,
    value: u64,
    t_note: u64,
    kind: NoteKind,
    expiry_epoch: u64,
    address: crate::keys::AddressModel,
    rho: nat,
    memo_cm: nat,
    rseed: Seq<u8>,
)
    ensures
        match note_of_parts(
            community,
            coin_community,
            value,
            t_note,
            kind,
            expiry_epoch,
            address,
            rho,
            memo_cm,
            rseed,
        ) {
            Ok(note) => {
                &&& value < 0x8000_0000_0000_0000 && t_note < 0x100_0000_0000 && expiry_epoch
                    < 0x1_0000 && address.pk_d != 0
                &&& note.community == community && note.coin_community == coin_community
                &&& note.value == value && note.t_note == t_note
                &&& note.kind == kind && note.expiry_epoch == expiry_epoch
                &&& note.d == crate::bytes::le_nat(address.d)
                &&& note.pk_d == crate::pallas::pallas_multiple(address.pk_d)
                &&& note.g_d == crate::pallas::pallas_multiple(
                    crate::keys::diversified_base(address.d),
                )
                &&& note.rho == rho && note.memo_cm == memo_cm
                &&& note.psi == psi_of_seed(rseed, rho) && note.rcm == rcm_of_seed(rseed, rho)
            },
            Err(NoteError::ValueTooLarge) => value >= 0x8000_0000_0000_0000,
            Err(NoteError::TimestampTooLarge) => value < 0x8000_0000_0000_0000 && t_note
                >= 0x100_0000_0000,
            Err(NoteError::ExpiryTooLarge) => value < 0x8000_0000_0000_0000 && t_note
                < 0x100_0000_0000 && expiry_epoch >= 0x1_0000,
            Err(NoteError::InvalidAddress) => value < 0x8000_0000_0000_0000 && t_note
                < 0x100_0000_0000 && expiry_epoch < 0x1_0000 && address.pk_d == 0,
        },
{
}

} // verus!
