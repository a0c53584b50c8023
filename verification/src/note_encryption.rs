//! Note encryption: the in-band protocol of Zcash (key agreement, KDF, AEAD, and the recovery
//! path with the outgoing viewing key) for the Gradido note.
//!
//! Plaintext layout, inside the sizes the protocol fixes:
//!
//! ```text
//! compact (52 bytes):  version (1) | diversifier (11) | value (8) | rseed (32)
//! memo slot (512):     t_note (8) | kind (1) | expiry (8) | memo_cm (32) | free (463)
//! ```
//!
//! `psi` and `rcm` are derived from `rseed`, `rho` is the nullifier of the note that was spent,
//! and community, coin community and `rho` come from the transaction, so they need not travel.
//!
//! The free part of the memo field is for the caller; the memo text itself is sealed under its
//! own key (`crate::memo`), which is why only its commitment `memo_cm` is in the note.
//!
//! Compact decryption (52 bytes only) is not supported: a Gradido note needs its timestamp, and
//! that does not fit into the compact part.
use vstd::prelude::*;

use crate::bytes::{append, push_le, read_le, same, take};
use crate::keys::{diversify_hash, Address, AddressModel};
use crate::note::{from_parts, Note, NoteError, NoteKind, NoteModel, RandomSeed};
use crate::pallas::{Base, Point, Scalar};

verus! {

broadcast use vstd::array::group_array_axioms;

pub const PLAINTEXT_VERSION: u8 = 0x01;

pub const KDF_PERSONALIZATION: &'static str = "Gradido_KDF_____";

pub const OCK_PERSONALIZATION: &'static str = "Gradido_Derive_o";

/// The part of a plaintext that light clients would read.
pub const COMPACT_NOTE_SIZE: usize = 52;

/// Size of a note plaintext.
pub const NOTE_PLAINTEXT_SIZE: usize = 564;

/// Size of an encrypted note plaintext.
pub const ENC_CIPHERTEXT_SIZE: usize = 580;

/// Size of an outgoing plaintext: `pk_d` and `esk`.
pub const OUT_PLAINTEXT_SIZE: usize = 64;

/// Size of an encrypted outgoing plaintext.
pub const OUT_CIPHERTEXT_SIZE: usize = 80;

/// The note fields that do not fit into the compact part take the first bytes of the memo slot.
pub const NOTE_TAIL_SIZE: usize = 49;

/// What is left of the memo slot for the caller.
pub const FREE_MEMO_SIZE: usize = 463;

/// Everything a note needs that the transaction already fixes, so it is not encrypted.
#[derive(Clone, Copy, Debug)]
pub struct GradidoDomain {
    pub community: Base,
    pub coin_community: Base,
    /// nullifier of the spent note, which is the `rho` of the created one
    pub rho: Base,
}

/// One created note as it appears in a transaction.
#[derive(Clone, Copy, Debug)]
pub struct EncryptedNote {
    pub epk_bytes: [u8; 32],
    pub cm: Base,
    pub enc_ciphertext: [u8; 580],
    pub out_ciphertext: [u8; 80],
}

/// A note together with the seed its randomness comes from; that is what encryption works on,
/// because `psi` and `rcm` inside the note are derived from the seed.
#[derive(Clone, Copy, Debug)]
pub struct NoteWithSeed {
    pub note: Note,
    pub rseed: RandomSeed,
}

/// Random bytes that take the place of key and plaintext of the outgoing ciphertext when there
/// is no outgoing viewing key.
#[derive(Clone, Copy, Debug)]
pub struct OutgoingFiller {
    pub key: [u8; 32],
    pub plaintext: [u8; 64],
}

// ------------------------------------------------------------------------------------- model

/// What the transaction fixes of a note.
pub struct DomainModel {
    pub community: nat,
    pub coin_community: nat,
    pub rho: nat,
}

impl View for GradidoDomain {
    type V = DomainModel;

    open spec fn view(&self) -> DomainModel {
        DomainModel {
            community: self.community@,
            coin_community: self.coin_community@,
            rho: self.rho@,
        }
    }
}

/// An encrypted note.
pub struct EncryptedModel {
    pub epk: Seq<u8>,
    pub cm: nat,
    pub enc: Seq<u8>,
    pub out: Seq<u8>,
}

impl View for EncryptedNote {
    type V = EncryptedModel;

    open spec fn view(&self) -> EncryptedModel {
        EncryptedModel {
            epk: self.epk_bytes@,
            cm: self.cm@,
            enc: self.enc_ciphertext@,
            out: self.out_ciphertext@,
        }
    }
}

/// What a reader of an encrypted note learns.
#[verifier::ext_equal]
pub struct PlainNote {
    pub note: NoteModel,
    pub rseed: Seq<u8>,
    pub address: AddressModel,
    pub memo: Seq<u8>,
}

/// The nonce of every encryption; each key is used once.
pub open spec fn no_nonce() -> Seq<u8> {
    crate::bytes::zeros(12)
}

/// The diversifier bytes of a note.
pub open spec fn note_diversifier(note: NoteModel) -> Seq<u8> {
    crate::bytes::le_bytes(note.d, 11)
}

/// The transmission key of a note, by its discrete logarithm.
pub open spec fn note_pk_d(note: NoteModel) -> nat {
    crate::pallas::discrete_log(note.pk_d)
}

/// The ephemeral secret key of a note.
pub open spec fn note_esk(note: NoteModel, rseed: Seq<u8>) -> nat {
    crate::note::esk_of_seed(rseed, note.rho)
}

/// The ephemeral public key of a note, by its discrete logarithm.
pub open spec fn note_epk(note: NoteModel, rseed: Seq<u8>) -> nat {
    crate::pallas::point_product(
        crate::keys::diversified_base(note_diversifier(note)),
        note_esk(note, rseed),
    )
}

/// The key of the note ciphertext, from the shared secret.
pub open spec fn kdf_key(secret: nat, epk: Seq<u8>) -> Seq<u8> {
    crate::hash::blake2b_hash(
        KDF_PERSONALIZATION@,
        32,
        crate::pallas::encode_point(secret) + epk,
    )
}

/// The key of the outgoing ciphertext.
pub open spec fn outgoing_key(ovk: Seq<u8>, cv: nat, cm: nat, epk: Seq<u8>) -> Seq<u8> {
    crate::hash::blake2b_hash(
        OCK_PERSONALIZATION@,
        32,
        ovk + crate::pallas::encode_point(cv) + crate::bytes::le_bytes(cm, 32) + epk,
    )
}

/// The plaintext of a note.
pub open spec fn note_plaintext(note: NoteModel, rseed: Seq<u8>, memo: Seq<u8>) -> Seq<u8> {
    seq![PLAINTEXT_VERSION] + note_diversifier(note) + crate::bytes::le_bytes(note.value as nat, 8)
        + rseed + crate::bytes::le_bytes(note.t_note as nat, 8) + seq![note.kind.number() as u8]
        + crate::bytes::le_bytes(note.expiry_epoch as nat, 8) + crate::bytes::le_bytes(
        note.memo_cm,
        32,
    ) + memo
}

/// The outgoing plaintext of a note.
pub open spec fn outgoing_plaintext(note: NoteModel, rseed: Seq<u8>) -> Seq<u8> {
    crate::pallas::encode_point(note_pk_d(note)) + crate::bytes::le_bytes(note_esk(note, rseed), 32)
}

/// The encryption of a note and its memo. Without an outgoing viewing key the outgoing
/// ciphertext is filled from `filler`.
pub open spec fn encrypted_note(
    note: NoteModel,
    rseed: Seq<u8>,
    memo: Seq<u8>,
    ovk: Option<Seq<u8>>,
    cv: nat,
    filler: (Seq<u8>, Seq<u8>),
) -> EncryptedModel {
    let epk = crate::pallas::encode_point(note_epk(note, rseed));
    let secret = crate::pallas::point_product(note_pk_d(note), note_esk(note, rseed));
    EncryptedModel {
        epk,
        cm: note.cm(),
        enc: crate::cipher::aead_sealed(
            kdf_key(secret, epk),
            no_nonce(),
            note_plaintext(note, rseed, memo),
        ),
        out: match ovk {
            Some(ovk) => crate::cipher::aead_sealed(
                outgoing_key(ovk, cv, note.cm(), epk),
                no_nonce(),
                outgoing_plaintext(note, rseed),
            ),
            None => crate::cipher::aead_sealed(filler.0, no_nonce(), filler.1),
        },
    }
}

/// The kind with the given number.
pub open spec fn kind_of_number(b: u8) -> Option<NoteKind> {
    if b == 0 {
        Some(NoteKind::Normal)
    } else if b == 1 {
        Some(NoteKind::Deferred)
    } else {
        None
    }
}

/// The diversifier of a plaintext, if it looks like one at all.
pub open spec fn plaintext_diversifier(plaintext: Seq<u8>) -> Option<Seq<u8>> {
    if plaintext.len() < 564 || plaintext[0] != PLAINTEXT_VERSION {
        None
    } else {
        Some(plaintext.subrange(1, 12))
    }
}

/// The note of a plaintext, given the transmission key of its address.
pub open spec fn parsed_note(domain: DomainModel, plaintext: Seq<u8>, pk_d: nat) -> Option<PlainNote> {
    let kind = kind_of_number(plaintext[60]);
    let memo_cm = crate::bytes::le_nat(plaintext.subrange(69, 101));
    let address = AddressModel { d: plaintext.subrange(1, 12), pk_d };
    let rseed = plaintext.subrange(20, 52);
    if plaintext_diversifier(plaintext) is None || kind is None || memo_cm
        >= crate::pallas::base_modulus() {
        None
    } else {
        match crate::note::note_of_parts(
            domain.community,
            domain.coin_community,
            crate::bytes::le_nat(plaintext.subrange(12, 20)) as u64,
            crate::bytes::le_nat(plaintext.subrange(52, 60)) as u64,
            kind->0,
            crate::bytes::le_nat(plaintext.subrange(61, 69)) as u64,
            address,
            domain.rho,
            memo_cm,
            rseed,
        ) {
            Err(_) => None,
            Ok(note) => Some(
                PlainNote { note, rseed, address, memo: plaintext.subrange(101, 564) },
            ),
        }
    }
}

/// Whether a note is the one that an encrypted note commits to and was encrypted with.
pub open spec fn matches_output(plain: PlainNote, output: EncryptedModel) -> bool {
    &&& plain.note.cm() == output.cm
    &&& crate::pallas::encode_point(note_epk(plain.note, plain.rseed)) == output.epk
}

/// What the incoming viewing key reads in an encrypted note.
pub open spec fn decrypted_note(domain: DomainModel, ivk: nat, output: EncryptedModel) -> Option<PlainNote> {
    let epk = crate::pallas::decode_point(output.epk);
    let key = kdf_key(crate::pallas::point_product(epk->0, ivk), output.epk);
    let plaintext = crate::cipher::aead_opened(key, no_nonce(), output.enc);
    if epk is None || epk->0 == 0 || plaintext is None || plaintext_diversifier(plaintext->0) is None {
        None
    } else {
        let base = crate::keys::diversified_base(plaintext_diversifier(plaintext->0)->0);
        match parsed_note(domain, plaintext->0, crate::pallas::point_product(base, ivk)) {
            None => None,
            Some(plain) => if matches_output(plain, output) {
                Some(plain)
            } else {
                None
            },
        }
    }
}

/// What the outgoing viewing key reads in an encrypted note.
pub open spec fn recovered_note(
    domain: DomainModel,
    ovk: Seq<u8>,
    cv: nat,
    output: EncryptedModel,
) -> Option<PlainNote> {
    let ock = outgoing_key(ovk, cv, output.cm, output.epk);
    let opening = crate::cipher::aead_opened(ock, no_nonce(), output.out);
    let pk_d = crate::pallas::decode_point(opening->0.subrange(0, 32));
    let esk = crate::bytes::le_nat(opening->0.subrange(32, 64));
    let key = kdf_key(crate::pallas::point_product(pk_d->0, esk), output.epk);
    let plaintext = crate::cipher::aead_opened(key, no_nonce(), output.enc);
    if opening is None || pk_d is None || pk_d->0 == 0 || esk >= crate::pallas::scalar_modulus()
        || plaintext is None {
        None
    } else {
        match parsed_note(domain, plaintext->0, pk_d->0) {
            None => None,
            Some(plain) => if note_esk(plain.note, plain.rseed) == esk && matches_output(
                plain,
                output,
            ) {
                Some(plain)
            } else {
                None
            },
        }
    }
}

/// The note belongs to the transaction: it is made of its own fields and what the domain fixes.
pub open spec fn belongs_to(note: NoteModel, rseed: Seq<u8>, domain: DomainModel) -> bool {
    crate::note::note_of_parts(
        domain.community,
        domain.coin_community,
        note.value,
        note.t_note,
        note.kind,
        note.expiry_epoch,
        AddressModel { d: note_diversifier(note), pk_d: note_pk_d(note) },
        domain.rho,
        note.memo_cm,
        rseed,
    ) == Ok::<NoteModel, NoteError>(note)
}

/// What a note looks like to a reader.
pub open spec fn plain_note(note: NoteModel, rseed: Seq<u8>, memo: Seq<u8>) -> PlainNote {
    PlainNote {
        note,
        rseed,
        address: AddressModel { d: note_diversifier(note), pk_d: note_pk_d(note) },
        memo,
    }
}

// ---------------------------------------------------------------------------------- functions

/// The diversifier of a note.
fn diversifier_of_note(note: &Note) -> (r: [u8; 11])
    ensures
        r@ == note_diversifier(note@),
{
    let mut out: Vec<u8> = Vec::new();
    push_le(&mut out, note.d, 11);
    proof {
        crate::bytes::lemma_le_bytes_len(note.d as nat, 11);
        assert(out@ =~= note_diversifier(note@));
        assert(out@.subrange(0, 11) =~= out@);
    }
    take::<11>(out.as_slice(), 0)
}

/// The address of a note, whose transmission key must be a point of the curve.
pub fn note_address(note: &Note) -> (r: Address)
    requires
        crate::pallas::on_curve(note@.pk_d),
    ensures
        r@ == (AddressModel { d: note_diversifier(note@), pk_d: note_pk_d(note@) }),
        r.pk_d.coordinates() == note@.pk_d,
{
    Address {
        d: diversifier_of_note(note),
        pk_d: Point::from_xy(&note.pk_d_x, &note.pk_d_y).unwrap(),
    }
}

/// The ephemeral public key for an ephemeral secret key.
fn ka_derive_public(note: &Note, esk: &Scalar) -> (r: Point)
    ensures
        r@ == crate::pallas::point_product(
            crate::keys::diversified_base(note_diversifier(note@)),
            esk@,
        ),
{
    diversify_hash(&diversifier_of_note(note)).times(esk)
}

/// The key of the note ciphertext.
fn kdf(secret: &Point, epk: &[u8; 32]) -> (r: [u8; 32])
    ensures
        r@ == kdf_key(secret@, epk@),
{
    proof {
        reveal_strlit("Gradido_KDF_____");
    }
    let mut data: Vec<u8> = Vec::new();
    append(&mut data, secret.to_bytes().as_slice());
    append(&mut data, epk.as_slice());
    assert(data@ =~= crate::pallas::encode_point(secret@) + epk@);
    crate::hash::to_bytes32(KDF_PERSONALIZATION, data.as_slice())
}

/// The key of the outgoing ciphertext.
fn derive_ock(ovk: &[u8; 32], cv: &Point, cm: &Base, epk: &[u8; 32]) -> (r: [u8; 32])
    ensures
        r@ == outgoing_key(ovk@, cv@, cm@, epk@),
{
    proof {
        reveal_strlit("Gradido_Derive_o");
    }
    let mut data: Vec<u8> = Vec::new();
    append(&mut data, ovk.as_slice());
    append(&mut data, cv.to_bytes().as_slice());
    append(&mut data, cm.to_repr().as_slice());
    append(&mut data, epk.as_slice());
    assert(data@ =~= ovk@ + crate::pallas::encode_point(cv@) + crate::bytes::le_bytes(cm@, 32)
        + epk@);
    crate::hash::to_bytes32(OCK_PERSONALIZATION, data.as_slice())
}

/// The plaintext of a note: the fields that do not fit into the compact part come first in the
/// memo slot, then the memo.
fn note_plaintext_bytes(note: &NoteWithSeed, memo: &[u8; 463]) -> (r: Vec<u8>)
    ensures
        r@ == note_plaintext(note.note@, note.rseed.bytes(), memo@),
{
    let n = &note.note;
    let mut out: Vec<u8> = Vec::new();
    out.push(PLAINTEXT_VERSION);
    append(&mut out, diversifier_of_note(n).as_slice());
    push_le(&mut out, n.value as u128, 8);
    append(&mut out, note.rseed.to_bytes().as_slice());
    push_le(&mut out, n.t_note as u128, 8);
    out.push(n.kind.to_u8());
    push_le(&mut out, n.expiry_epoch as u128, 8);
    append(&mut out, n.memo_cm.to_repr().as_slice());
    append(&mut out, memo.as_slice());
    assert(out@ =~= note_plaintext(n@, note.rseed.bytes(), memo@));
    out
}

/// Transmission key and ephemeral secret key, what the sender needs to recover a note.
fn outgoing_plaintext_bytes(note: &NoteWithSeed, esk: &Scalar) -> (r: Vec<u8>)
    requires
        crate::pallas::on_curve(note.note@.pk_d),
        esk@ == note_esk(note.note@, note.rseed.bytes()),
    ensures
        r@ == outgoing_plaintext(note.note@, note.rseed.bytes()),
{
    let mut out: Vec<u8> = Vec::new();
    append(&mut out, note_address(&note.note).pk_d.to_bytes().as_slice());
    append(&mut out, esk.to_repr().as_slice());
    assert(out@ =~= outgoing_plaintext(note.note@, note.rseed.bytes()));
    out
}

/// Diversifier of a plaintext, if it looks like one at all.
fn diversifier_of(plaintext: &[u8]) -> (r: Option<[u8; 11]>)
    ensures
        r is Some <==> plaintext_diversifier(plaintext@) is Some,
        r matches Some(d) ==> plaintext_diversifier(plaintext@) == Some(d@),
{
    if plaintext.len() < 564 || plaintext[0] != PLAINTEXT_VERSION {
        return None;
    }
    Some(take::<11>(plaintext, 1))
}

/// A 64 bit integer at `at`.
fn read_u64(s: &[u8], at: usize) -> (r: u64)
    requires
        at + 8 <= s@.len(),
    ensures
        r as nat == crate::bytes::le_nat(s@.subrange(at as int, at + 8)),
        r == crate::bytes::le_nat(s@.subrange(at as int, at + 8)) as u64,
{
    proof {
        crate::bytes::lemma_le_nat_bound(s@.subrange(at as int, at + 8));
        crate::bytes::lemma_pow256_values();
    }
    read_le(s, at, 8) as u64
}

impl GradidoDomain {
    /// Rebuilds a note from a decrypted plaintext and the transmission key of its address.
    fn parse(&self, plaintext: &[u8], pk_d: Point) -> (r: Option<(NoteWithSeed, Address, [u8; 463])>)
        requires
            plaintext@.len() == 564,
        ensures
            r is Some <==> parsed_note(self@, plaintext@, pk_d@) is Some,
            r matches Some(p) ==> parsed_note(self@, plaintext@, pk_d@) == Some(shown(p)),
    {
        let d = diversifier_of(plaintext)?;
        let value = read_u64(plaintext, 12);
        let rseed = RandomSeed::from_bytes(take::<32>(plaintext, 20));
        let t_note = read_u64(plaintext, 52);
        let kind = match plaintext[60] {
            0 => NoteKind::Normal,
            1 => NoteKind::Deferred,
            _ => return None,
        };
        let expiry_epoch = read_u64(plaintext, 61);
        let memo_cm = Base::from_repr(&take::<32>(plaintext, 69))?;
        let address = Address { d, pk_d };
        match from_parts(
            self.community,
            self.coin_community,
            value,
            t_note,
            kind,
            expiry_epoch,
            &address,
            self.rho,
            memo_cm,
            rseed,
        ) {
            Ok(note) => Some((NoteWithSeed { note, rseed }, address, take::<463>(plaintext, 101))),
            Err(_) => None,
        }
    }
}

/// What a decryption result shows.
pub open spec fn shown(p: (NoteWithSeed, Address, [u8; 463])) -> PlainNote {
    PlainNote {
        note: p.0.note@,
        rseed: p.0.rseed.bytes(),
        address: p.1@,
        memo: p.2@,
    }
}

/// Whether a note is the one that an encrypted note commits to and was encrypted with.
fn check_note_validity(note: &NoteWithSeed, output: &EncryptedNote) -> (r: bool)
    ensures
        r == (note.note@.cm() == output@.cm && crate::pallas::encode_point(
            note_epk(note.note@, note.rseed.bytes()),
        ) == output@.epk),
{
    let cm = note.note.commitment();
    proof {
        if cm@ == output.cm@ {
            crate::pallas::lemma_base_determined(cm, output.cm);
        }
    }
    let esk = note.rseed.esk(note.note.rho);
    let epk = ka_derive_public(&note.note, &esk).to_bytes();
    cm == output.cm && same(epk.as_slice(), output.epk_bytes.as_slice())
}

/// Encrypts a note for its recipient, and for the sender's own outgoing viewing key. The
/// incoming viewing key of the address and the outgoing viewing key both read the note back.
/// The transmission key of the note must be a point of the curve.
pub fn encrypt(
    domain: GradidoDomain,
    note: &NoteWithSeed,
    memo: [u8; 463],
    ovk: Option<[u8; 32]>,
    cv: Point,
    filler: &OutgoingFiller,
) -> (r: EncryptedNote)
    requires
        crate::pallas::on_curve(note.note@.pk_d),
    ensures
        r@ == encrypted_note(
            note.note@,
            note.rseed.bytes(),
            memo@,
            match ovk {
                Some(k) => Some(k@),
                None => None,
            },
            cv@,
            (filler.key@, filler.plaintext@),
        ),
        forall|ivk: nat|
            belongs_to(note.note@, note.rseed.bytes(), domain@) && note_pk_d(note.note@)
                == crate::pallas::point_product(
                crate::keys::diversified_base(note_diversifier(note.note@)),
                ivk,
            ) && note_epk(note.note@, note.rseed.bytes()) != 0 ==> #[trigger] decrypted_note(
                domain@,
                ivk,
                r@,
            ) == Some(plain_note(note.note@, note.rseed.bytes(), memo@)),
        ovk is Some && belongs_to(note.note@, note.rseed.bytes(), domain@) ==> recovered_note(
            domain@,
            ovk->0@,
            cv@,
            r@,
        ) == Some(plain_note(note.note@, note.rseed.bytes(), memo@)),
{
    let ghost n = note.note@;
    let ghost seed = note.rseed.bytes();
    let esk = note.rseed.esk(note.note.rho);
    let epk = ka_derive_public(&note.note, &esk);
    let epk_bytes = epk.to_bytes();
    let nonce: [u8; 12] = [0u8; 12];
    assert(nonce@ =~= no_nonce());

    let pk_d = note_address(&note.note).pk_d;
    let key = kdf(&pk_d.times(&esk), &epk_bytes);
    let plaintext = note_plaintext_bytes(note, &memo);
    proof {
        note.rseed.lemma_length();
        lemma_plaintext_length(n, seed, memo@);
    }
    let enc = crate::cipher::aead_seal(&key, &nonce, plaintext.as_slice());
    assert(enc@.subrange(0, 580) =~= enc@);

    let cm = note.note.commitment();
    let (ock, input) = match ovk {
        Some(ovk) => (derive_ock(&ovk, &cv, &cm, &epk_bytes), outgoing_plaintext_bytes(note, &esk)),
        None => {
            let mut input: Vec<u8> = Vec::new();
            append(&mut input, filler.plaintext.as_slice());
            assert(input@ =~= filler.plaintext@);
            (filler.key, input)
        },
    };
    proof {
        crate::pallas::lemma_encoding_length(note_pk_d(n));
        crate::bytes::lemma_le_bytes_len(note_esk(n, seed), 32);
    }
    let out = crate::cipher::aead_seal(&ock, &nonce, input.as_slice());
    assert(out@.subrange(0, 80) =~= out@);
    let r = EncryptedNote {
        epk_bytes,
        cm,
        enc_ciphertext: take::<580>(enc.as_slice(), 0),
        out_ciphertext: take::<80>(out.as_slice(), 0),
    };
    proof {
        use_type_invariant(&epk);
        use_type_invariant(&pk_d);
        use_type_invariant(&esk);
        use_type_invariant(&note.note.memo_cm);
        let epk_log = note_epk(n, seed);
        assert(epk@ == epk_log);
        assert(r@.epk == crate::pallas::encode_point(epk_log));
        assert forall|ivk: nat|
            belongs_to(n, seed, domain@) && note_pk_d(n) == crate::pallas::point_product(
                crate::keys::diversified_base(note_diversifier(n)),
                ivk,
            ) && note_epk(n, seed) != 0 implies #[trigger] decrypted_note(domain@, ivk, r@) == Some(
            plain_note(n, seed, memo@),
        ) by {
            lemma_recipient_reads(domain@, n, seed, memo@, ivk, r@);
        }
        if ovk is Some && belongs_to(n, seed, domain@) {
            lemma_sender_reads(domain@, n, seed, memo@, ovk->0@, cv@, r@);
        }
    }
    r
}

/// The incoming viewing key opens what was sealed for its address.
proof fn lemma_recipient_reads(
    domain: DomainModel,
    n: NoteModel,
    seed: Seq<u8>,
    memo: Seq<u8>,
    ivk: nat,
    output: EncryptedModel,
)
    requires
        seed.len() == 32,
        memo.len() == 463,
        n.memo_cm < crate::pallas::base_modulus(),
        belongs_to(n, seed, domain),
        note_pk_d(n) == crate::pallas::point_product(
            crate::keys::diversified_base(note_diversifier(n)),
            ivk,
        ),
        note_epk(n, seed) != 0,
        output.epk == crate::pallas::encode_point(note_epk(n, seed)),
        output.cm == n.cm(),
        crate::pallas::decode_point(output.epk) == Some(note_epk(n, seed)),
        crate::cipher::aead_opened(
            kdf_key(
                crate::pallas::point_product(note_pk_d(n), note_esk(n, seed)),
                output.epk,
            ),
            no_nonce(),
            output.enc,
        ) == Some(note_plaintext(n, seed, memo)),
    ensures
        decrypted_note(domain, ivk, output) == Some(plain_note(n, seed, memo)),
{
    crate::pallas::lemma_products_commute(
        crate::keys::diversified_base(note_diversifier(n)),
        note_esk(n, seed),
        ivk,
    );
    lemma_plaintext_parses(domain, n, seed, memo);
}

/// The outgoing viewing key opens what was sealed for it.
proof fn lemma_sender_reads(
    domain: DomainModel,
    n: NoteModel,
    seed: Seq<u8>,
    memo: Seq<u8>,
    ovk: Seq<u8>,
    cv: nat,
    output: EncryptedModel,
)
    requires
        seed.len() == 32,
        memo.len() == 463,
        n.memo_cm < crate::pallas::base_modulus(),
        note_esk(n, seed) < crate::pallas::scalar_modulus(),
        belongs_to(n, seed, domain),
        output.epk == crate::pallas::encode_point(note_epk(n, seed)),
        output.cm == n.cm(),
        crate::pallas::decode_point(crate::pallas::encode_point(note_pk_d(n))) == Some(note_pk_d(n)),
        crate::cipher::aead_opened(
            kdf_key(
                crate::pallas::point_product(note_pk_d(n), note_esk(n, seed)),
                output.epk,
            ),
            no_nonce(),
            output.enc,
        ) == Some(note_plaintext(n, seed, memo)),
        crate::cipher::aead_opened(
            outgoing_key(ovk, cv, n.cm(), output.epk),
            no_nonce(),
            output.out,
        ) == Some(outgoing_plaintext(n, seed)),
    ensures
        recovered_note(domain, ovk, cv, output) == Some(plain_note(n, seed, memo)),
{
    let opening = outgoing_plaintext(n, seed);
    let esk = note_esk(n, seed);
    crate::pallas::lemma_encoding_length(note_pk_d(n));
    crate::bytes::lemma_pow256_values();
    crate::bytes::lemma_le_nat_of_le_bytes(esk, 32);
    assert(opening.subrange(0, 32) =~= crate::pallas::encode_point(note_pk_d(n)));
    assert(opening.subrange(32, 64) =~= crate::bytes::le_bytes(esk, 32));
    lemma_plaintext_parses(domain, n, seed, memo);
}

proof fn lemma_plaintext_length(note: NoteModel, rseed: Seq<u8>, memo: Seq<u8>)
    requires
        rseed.len() == 32,
        memo.len() == 463,
    ensures
        note_plaintext(note, rseed, memo).len() == 564,
{
    crate::bytes::lemma_le_bytes_len(note.d, 11);
    crate::bytes::lemma_le_bytes_len(note.value as nat, 8);
    crate::bytes::lemma_le_bytes_len(note.t_note as nat, 8);
    crate::bytes::lemma_le_bytes_len(note.expiry_epoch as nat, 8);
    crate::bytes::lemma_le_bytes_len(note.memo_cm, 32);
}

/// Parsing the plaintext of a note that belongs to the domain gives the note.
proof fn lemma_plaintext_parses(domain: DomainModel, note: NoteModel, rseed: Seq<u8>, memo: Seq<u8>)
    requires
        rseed.len() == 32,
        memo.len() == 463,
        note.memo_cm < crate::pallas::base_modulus(),
        belongs_to(note, rseed, domain),
    ensures
        plaintext_diversifier(note_plaintext(note, rseed, memo)) == Some(note_diversifier(note)),
        parsed_note(domain, note_plaintext(note, rseed, memo), note_pk_d(note)) == Some(
            plain_note(note, rseed, memo),
        ),
{
    lemma_plaintext_length(note, rseed, memo);
    crate::bytes::lemma_pow256_values();
    crate::bytes::lemma_le_bytes_len(note.d, 11);
    crate::bytes::lemma_le_nat_of_le_bytes(note.value as nat, 8);
    crate::bytes::lemma_le_nat_of_le_bytes(note.t_note as nat, 8);
    crate::bytes::lemma_le_nat_of_le_bytes(note.expiry_epoch as nat, 8);
    crate::bytes::lemma_le_nat_of_le_bytes(note.memo_cm, 32);
    let p = note_plaintext(note, rseed, memo);
    assert(p[0] == PLAINTEXT_VERSION);
    assert(p.subrange(1, 12) =~= note_diversifier(note));
    assert(p.subrange(12, 20) =~= crate::bytes::le_bytes(note.value as nat, 8));
    assert(p.subrange(20, 52) =~= rseed);
    assert(p.subrange(52, 60) =~= crate::bytes::le_bytes(note.t_note as nat, 8));
    assert(p[60] == note.kind.number() as u8);
    assert(p.subrange(61, 69) =~= crate::bytes::le_bytes(note.expiry_epoch as nat, 8));
    assert(p.subrange(69, 101) =~= crate::bytes::le_bytes(note.memo_cm, 32));
    assert(p.subrange(101, 564) =~= memo);
}

/// The receiver's side: find and rebuild a note with the incoming viewing key.
pub fn decrypt(domain: &GradidoDomain, ivk: Scalar, output: &EncryptedNote) -> (r: Option<
    (NoteWithSeed, Address, [u8; 463]),
>)
    ensures
        r is Some <==> decrypted_note(domain@, ivk@, output@) is Some,
        r matches Some(p) ==> decrypted_note(domain@, ivk@, output@) == Some(shown(p)),
{
    let epk = Point::from_bytes(&output.epk_bytes)?;
    if epk.is_identity() {
        return None;
    }
    let key = kdf(&epk.times(&ivk), &output.epk_bytes);
    let nonce: [u8; 12] = [0u8; 12];
    assert(nonce@ =~= no_nonce());
    let plaintext = crate::cipher::aead_open(&key, &nonce, output.enc_ciphertext.as_slice())?;
    let d = diversifier_of(plaintext.as_slice())?;
    let pk_d = diversify_hash(&d).times(&ivk);
    let found = domain.parse(plaintext.as_slice(), pk_d)?;
    if check_note_validity(&found.0, output) {
        Some(found)
    } else {
        None
    }
}

/// The sender's side: recover an own outgoing note with the outgoing viewing key.
pub fn recover(domain: &GradidoDomain, ovk: &[u8; 32], cv: Point, output: &EncryptedNote) -> (r:
    Option<(NoteWithSeed, Address, [u8; 463])>)
    ensures
        r is Some <==> recovered_note(domain@, ovk@, cv@, output@) is Some,
        r matches Some(p) ==> recovered_note(domain@, ovk@, cv@, output@) == Some(shown(p)),
{
    let ock = derive_ock(ovk, &cv, &output.cm, &output.epk_bytes);
    let nonce: [u8; 12] = [0u8; 12];
    assert(nonce@ =~= no_nonce());
    let opening = crate::cipher::aead_open(&ock, &nonce, output.out_ciphertext.as_slice())?;
    let pk_d = Point::from_bytes(&take::<32>(opening.as_slice(), 0))?;
    if pk_d.is_identity() {
        return None;
    }
    let esk = Scalar::from_repr(&take::<32>(opening.as_slice(), 32))?;
    let key = kdf(&pk_d.times(&esk), &output.epk_bytes);
    let plaintext = crate::cipher::aead_open(&key, &nonce, output.enc_ciphertext.as_slice())?;
    let found = domain.parse(plaintext.as_slice(), pk_d)?;
    let derived = found.0.rseed.esk(found.0.note.rho);
    proof {
        if derived@ == esk@ {
            crate::pallas::lemma_scalar_determined(derived, esk);
        }
    }
    if derived != esk {
        return None;
    }
    if check_note_validity(&found.0, output) {
        Some(found)
    } else {
        None
    }
}

// --------------------------------------------------------------------------------------- laws

/// Whoever reads a note with an incoming viewing key reads what was committed to: the note has the
/// commitment and the ephemeral key of the output, belongs to the community and the spent note of
/// the transaction, and was sent to an address of the key.
pub proof fn what_is_read_was_committed(domain: DomainModel, ivk: nat, output: EncryptedModel)
    ensures
        decrypted_note(domain, ivk, output) matches Some(plain) ==> {
            &&& is_committed(domain, plain, output)
            &&& plain.address.pk_d == (crate::keys::diversified_base(plain.address.d) * ivk)
                % crate::pallas::scalar_modulus()
        },
{
}

/// The sender too reads what was committed to, and the ephemeral secret that the seed gives.
pub proof fn what_is_recovered_was_committed(
    domain: DomainModel,
    ovk: Seq<u8>,
    cv: nat,
    output: EncryptedModel,
)
    ensures
        recovered_note(domain, ovk, cv, output) matches Some(plain) ==> is_committed(
            domain,
            plain,
            output,
        ),
{
}

/// Whether a plain note is the one behind an output of a transaction.
pub open spec fn is_committed(domain: DomainModel, plain: PlainNote, output: EncryptedModel) -> bool {
    let esk = crate::note::esk_of_seed(plain.rseed, plain.note.rho);
    &&& plain.note.cm() == output.cm
    &&& plain.note.community == domain.community
    &&& plain.note.coin_community == domain.coin_community
    &&& plain.note.rho == domain.rho
    &&& plain.note.in_range()
    &&& plain.note.psi == crate::note::psi_of_seed(plain.rseed, domain.rho)
    &&& plain.note.rcm == crate::note::rcm_of_seed(plain.rseed, domain.rho)
    &&& plain.address.pk_d != 0
    &&& plain.note.pk_d == crate::pallas::pallas_multiple(plain.address.pk_d)
    &&& plain.note.g_d == crate::pallas::pallas_multiple(
        crate::keys::diversified_base(plain.address.d),
    )
    &&& output.epk == crate::pallas::encode_point(
        crate::pallas::point_product(
            crate::keys::diversified_base(note_diversifier(plain.note)),
            esk,
        ),
    )
}

/// The keys of the ciphertexts are hashed apart: another shared secret or ephemeral key gives the
/// note ciphertext another key, and another viewing key, value commitment, note commitment or
/// ephemeral key gives the outgoing ciphertext another one. The byte strings that they are hashed
/// from are returned.
pub proof fn ciphertext_keys_are_hashed_apart(
    secret1: nat,
    ovk1: Seq<u8>,
    cv1: nat,
    cm1: nat,
    epk1: Seq<u8>,
    secret2: nat,
    ovk2: Seq<u8>,
    cv2: nat,
    cm2: nat,
    epk2: Seq<u8>,
) -> (r: ((Seq<u8>, Seq<u8>), (Seq<u8>, Seq<u8>)))
    requires
        ovk1.len() == 32,
        ovk2.len() == 32,
        epk1.len() == 32,
        epk2.len() == 32,
        cm1 < crate::pallas::base_modulus(),
        cm2 < crate::pallas::base_modulus(),
    ensures
        kdf_key(secret1, epk1) == crate::hash::blake2b_hash("Gradido_KDF_____"@, 32, r.0.0),
        kdf_key(secret2, epk2) == crate::hash::blake2b_hash("Gradido_KDF_____"@, 32, r.1.0),
        r.0.0 == crate::pallas::encode_point(secret1) + epk1,
        r.0.1 == ovk1 + crate::pallas::encode_point(cv1) + crate::bytes::le_bytes(cm1, 32) + epk1,
        r.0.0 == r.1.0 ==> crate::pallas::encode_point(secret1) == crate::pallas::encode_point(
            secret2,
        ) && epk1 == epk2,
        outgoing_key(ovk1, cv1, cm1, epk1) == crate::hash::blake2b_hash(
            "Gradido_Derive_o"@,
            32,
            r.0.1,
        ),
        outgoing_key(ovk2, cv2, cm2, epk2) == crate::hash::blake2b_hash(
            "Gradido_Derive_o"@,
            32,
            r.1.1,
        ),
        r.0.1 == r.1.1 ==> ovk1 == ovk2 && crate::pallas::encode_point(cv1)
            == crate::pallas::encode_point(cv2) && cm1 == cm2 && epk1 == epk2,
{
    let s1 = crate::pallas::encode_point(secret1);
    let s2 = crate::pallas::encode_point(secret2);
    let v1 = crate::pallas::encode_point(cv1);
    let v2 = crate::pallas::encode_point(cv2);
    let c1 = crate::bytes::le_bytes(cm1, 32);
    let c2 = crate::bytes::le_bytes(cm2, 32);
    crate::pallas::lemma_encoding_length(secret1);
    crate::pallas::lemma_encoding_length(secret2);
    crate::pallas::lemma_encoding_length(cv1);
    crate::pallas::lemma_encoding_length(cv2);
    crate::bytes::lemma_le_bytes_len(cm1, 32);
    crate::bytes::lemma_le_bytes_len(cm2, 32);
    crate::bytes::lemma_pow256_values();
    if s1 + epk1 == s2 + epk2 {
        crate::bytes::lemma_parts_injective(s1, epk1, s2, epk2);
    }
    let a = ovk1 + v1 + c1 + epk1;
    let b = ovk2 + v2 + c2 + epk2;
    if a == b {
        crate::bytes::lemma_parts_injective(ovk1 + v1 + c1, epk1, ovk2 + v2 + c2, epk2);
        crate::bytes::lemma_parts_injective(ovk1 + v1, c1, ovk2 + v2, c2);
        crate::bytes::lemma_parts_injective(ovk1, v1, ovk2, v2);
        crate::bytes::lemma_le_bytes_injective(cm1, cm2, 32);
    }
    ((s1 + epk1, a), (s2 + epk2, b))
}

/// A plaintext holds everything of a note that the transaction does not fix: notes that differ in
/// diversifier, value, seed, time, kind, expiry, memo commitment or free memo have different
/// plaintexts.
pub proof fn a_plaintext_holds_the_note(
    a: NoteModel,
    seed_a: Seq<u8>,
    memo_a: Seq<u8>,
    b: NoteModel,
    seed_b: Seq<u8>,
    memo_b: Seq<u8>,
)
    requires
        seed_a.len() == 32,
        seed_b.len() == 32,
        memo_a.len() == 463,
        memo_b.len() == 463,
        a.memo_cm < crate::pallas::base_modulus(),
        b.memo_cm < crate::pallas::base_modulus(),
        note_plaintext(a, seed_a, memo_a) == note_plaintext(b, seed_b, memo_b),
    ensures
        note_diversifier(a) == note_diversifier(b),
        a.value == b.value,
        seed_a == seed_b,
        a.t_note == b.t_note,
        a.kind == b.kind,
        a.expiry_epoch == b.expiry_epoch,
        a.memo_cm == b.memo_cm,
        memo_a == memo_b,
{
    let p = note_plaintext(a, seed_a, memo_a);
    let q = note_plaintext(b, seed_b, memo_b);
    crate::bytes::lemma_pow256_values();
    crate::bytes::lemma_le_bytes_len(a.d, 11);
    crate::bytes::lemma_le_bytes_len(b.d, 11);
    crate::bytes::lemma_le_nat_of_le_bytes(a.value as nat, 8);
    crate::bytes::lemma_le_nat_of_le_bytes(b.value as nat, 8);
    crate::bytes::lemma_le_nat_of_le_bytes(a.t_note as nat, 8);
    crate::bytes::lemma_le_nat_of_le_bytes(b.t_note as nat, 8);
    crate::bytes::lemma_le_nat_of_le_bytes(a.expiry_epoch as nat, 8);
    crate::bytes::lemma_le_nat_of_le_bytes(b.expiry_epoch as nat, 8);
    crate::bytes::lemma_le_nat_of_le_bytes(a.memo_cm, 32);
    crate::bytes::lemma_le_nat_of_le_bytes(b.memo_cm, 32);
    assert(p.subrange(1, 12) =~= note_diversifier(a));
    assert(q.subrange(1, 12) =~= note_diversifier(b));
    assert(p.subrange(12, 20) =~= crate::bytes::le_bytes(a.value as nat, 8));
    assert(q.subrange(12, 20) =~= crate::bytes::le_bytes(b.value as nat, 8));
    assert(p.subrange(20, 52) =~= seed_a);
    assert(q.subrange(20, 52) =~= seed_b);
    assert(p.subrange(52, 60) =~= crate::bytes::le_bytes(a.t_note as nat, 8));
    assert(q.subrange(52, 60) =~= crate::bytes::le_bytes(b.t_note as nat, 8));
    assert(p[60] == a.kind.number() as u8);
    assert(q[60] == b.kind.number() as u8);
    assert(p.subrange(61, 69) =~= crate::bytes::le_bytes(a.expiry_epoch as nat, 8));
    assert(q.subrange(61, 69) =~= crate::bytes::le_bytes(b.expiry_epoch as nat, 8));
    assert(p.subrange(69, 101) =~= crate::bytes::le_bytes(a.memo_cm, 32));
    assert(q.subrange(69, 101) =~= crate::bytes::le_bytes(b.memo_cm, 32));
    assert(p.subrange(101, 564) =~= memo_a);
    assert(q.subrange(101, 564) =~= memo_b);
}

/// A plaintext is read exactly if it has the version 1 and its length, a kind that there is, a
/// canonical memo commitment, and fields that fit a note; what is read is written again as the
/// same plaintext, and the rest of the note comes from the transaction.
pub proof fn a_plaintext_is_read_as_it_was_written(
    domain: DomainModel,
    plaintext: Seq<u8>,
    pk_d: nat,
)
    ensures
        ({
            let r = parsed_note(domain, plaintext, pk_d);
            &&& r is Some <==> {
                &&& plaintext.len() >= 564
                &&& plaintext[0] == 1
                &&& crate::bytes::le_nat(plaintext.subrange(12, 20)) < 0x8000_0000_0000_0000
                &&& crate::bytes::le_nat(plaintext.subrange(52, 60)) < 0x100_0000_0000
                &&& plaintext[60] <= 1
                &&& crate::bytes::le_nat(plaintext.subrange(61, 69)) < 0x1_0000
                &&& crate::bytes::le_nat(plaintext.subrange(69, 101))
                    < crate::pallas::base_modulus()
                &&& pk_d != 0
            }
            &&& r matches Some(plain) ==> {
                &&& note_plaintext(plain.note, plain.rseed, plain.memo) == plaintext.take(564)
                &&& plain.rseed == plaintext.subrange(20, 52)
                &&& plain.memo == plaintext.subrange(101, 564)
                &&& plain.address.d == plaintext.subrange(1, 12)
                &&& plain.address.pk_d == pk_d
                &&& plain.note.community == domain.community
                &&& plain.note.coin_community == domain.coin_community
                &&& plain.note.rho == domain.rho
            }
        }),
{
    if plaintext.len() >= 564 {
        let value = plaintext.subrange(12, 20);
        let t_note = plaintext.subrange(52, 60);
        let expiry = plaintext.subrange(61, 69);
        let memo_cm = plaintext.subrange(69, 101);
        let d = plaintext.subrange(1, 12);
        crate::bytes::lemma_le_nat_bound(value);
        crate::bytes::lemma_le_nat_bound(t_note);
        crate::bytes::lemma_le_nat_bound(expiry);
        crate::bytes::lemma_pow256_values();
        crate::bytes::lemma_le_bytes_of_le_nat(value);
        crate::bytes::lemma_le_bytes_of_le_nat(t_note);
        crate::bytes::lemma_le_bytes_of_le_nat(expiry);
        crate::bytes::lemma_le_bytes_of_le_nat(memo_cm);
        crate::bytes::lemma_le_bytes_of_le_nat(d);
        if plaintext[60] <= 1 {
            crate::note::parts_become_the_note(
                domain.community,
                domain.coin_community,
                crate::bytes::le_nat(value) as u64,
                crate::bytes::le_nat(t_note) as u64,
                kind_of_number(plaintext[60])->0,
                crate::bytes::le_nat(expiry) as u64,
                AddressModel { d, pk_d },
                domain.rho,
                crate::bytes::le_nat(memo_cm),
                plaintext.subrange(20, 52),
            );
        }
        if let Some(plain) = parsed_note(domain, plaintext, pk_d) {
            assert(note_plaintext(plain.note, plain.rseed, plain.memo) =~= plaintext.take(564));
        }
    }
}

/// Ciphertexts are sealed without a nonce under keys of their own: that of the note under the key
/// of the secret that recipient and ephemeral key share, that of the sender under the key of the
/// outgoing viewing key, with the transmission key and the ephemeral secret inside.
pub proof fn an_encrypted_note_has_two_ciphertexts(
    note: NoteModel,
    rseed: Seq<u8>,
    memo: Seq<u8>,
    ovk: Seq<u8>,
    cv: nat,
    filler: (Seq<u8>, Seq<u8>),
)
    ensures
        ({
            let q = crate::pallas::scalar_modulus();
            let esk = crate::note::esk_of_seed(rseed, note.rho);
            let pk_d = crate::pallas::discrete_log(note.pk_d);
            let base = crate::keys::diversified_base(crate::bytes::le_bytes(note.d, 11));
            let sent = encrypted_note(note, rseed, memo, Some(ovk), cv, filler);
            let blind = encrypted_note(note, rseed, memo, None, cv, filler);
            let nonce = crate::bytes::zeros(12);
            &&& sent.cm == note.cm()
            &&& sent.epk == crate::pallas::encode_point((base * esk) % q)
            &&& sent.enc == crate::cipher::aead_sealed(
                kdf_key((pk_d * esk) % q, sent.epk),
                nonce,
                note_plaintext(note, rseed, memo),
            )
            &&& sent.out == crate::cipher::aead_sealed(
                outgoing_key(ovk, cv, note.cm(), sent.epk),
                nonce,
                crate::pallas::encode_point(pk_d) + crate::bytes::le_bytes(esk, 32),
            )
            &&& blind.cm == sent.cm && blind.epk == sent.epk && blind.enc == sent.enc
            &&& blind.out == crate::cipher::aead_sealed(filler.0, nonce, filler.1)
        }),
{
}

} // verus!
