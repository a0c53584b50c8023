//! Keys and addresses: the community server holds the full viewing key and can prove and
//! decrypt, the user's device holds `ask` and can only authorise spending.
//!
//! ```text
//! sk --+- ask --- ak            spend authorisation (RedPallas), only ak enters the proof
//!      +- nk                    nullifier key, in the proof
//!      +- rivk -+- ivk          incoming viewing key, in the proof: pk_d = [ivk] g_d
//!      +- ovk                   outgoing viewing key, recovers own outgoing notes
//! ```
//!
//! The structure is that of Orchard, with two deliberate differences: `ivk` is a Poseidon
//! commitment rather than a Sinsemilla one (as everywhere else here, see `crate::note`), and
//! the diversifier hash uses a Gradido personalisation.
use vstd::prelude::*;

use crate::bytes::{append, push_le, take};
use crate::pallas::{Base, Point, Scalar};

verus! {

broadcast use vstd::array::group_array_axioms;

pub const PRF_EXPAND_PERSONALIZATION: &'static str = "Gradido_ExpandSd";

pub const DIVERSIFY_HASH_PERSONALIZATION: &'static str = "Gradido_gd";

pub const MONTHLY_DIVERSIFIER_PERSONALIZATION: &'static str = "Gradido_MonthlyD";

/// Length of an encoded full viewing key: `ak | nk | rivk | ovk`, 32 bytes each.
pub const FULL_VIEWING_KEY_BYTES: usize = 128;

/// Diversifier, 11 bytes as in Orchard.
pub type Diversifier = [u8; 11];

// ------------------------------------------------------------------------------------- model

/// What a key derived from `sk` is hashed from.
pub open spec fn expansion_input(sk: Seq<u8>, tag: u8) -> Seq<u8> {
    sk.push(tag)
}

/// The spend authorising key of `sk`.
pub open spec fn authorizing_key(sk: Seq<u8>) -> nat {
    crate::hash::hash_to_scalar(PRF_EXPAND_PERSONALIZATION@, expansion_input(sk, 0x06))
}

/// The public part of the spend authorising key of `sk`.
pub open spec fn public_authorizing_key(sk: Seq<u8>) -> nat {
    crate::pallas::point_product(crate::signature::spend_auth_generator(), authorizing_key(sk))
}

/// The nullifier key of `sk`.
pub open spec fn nullifier_key(sk: Seq<u8>) -> nat {
    crate::hash::hash_to_base(PRF_EXPAND_PERSONALIZATION@, expansion_input(sk, 0x07))
}

/// The first candidate for `rivk`.
pub open spec fn first_rivk(sk: Seq<u8>) -> nat {
    crate::hash::hash_to_base(PRF_EXPAND_PERSONALIZATION@, expansion_input(sk, 0x08))
}

/// The `n`-th candidate for `rivk`; each is the hash of the one before.
pub open spec fn rivk_candidate(sk: Seq<u8>, n: nat) -> nat
    decreases n,
{
    if n == 0 {
        first_rivk(sk)
    } else {
        crate::hash::poseidon_hash(seq![rivk_candidate(sk, (n - 1) as nat)])
    }
}

/// `Poseidon(ak_x, nk, rivk)`; `None` for zero, and for an `ak` without coordinates.
pub open spec fn ivk_commitment(ak: nat, nk: nat, rivk: nat) -> Option<nat> {
    let ivk = crate::hash::poseidon_hash(seq![crate::pallas::pallas_multiple(ak).0, nk, rivk]);
    if ak == 0 || ivk == 0 {
        None
    } else {
        Some(ivk)
    }
}

/// Whether the `n`-th candidate for `rivk` gives an incoming viewing key.
pub open spec fn candidate_works(sk: Seq<u8>, n: nat) -> bool {
    ivk_commitment(public_authorizing_key(sk), nullifier_key(sk), rivk_candidate(sk, n)) is Some
}

/// Whether any candidate for `rivk` gives an incoming viewing key.
pub open spec fn derivable(sk: Seq<u8>) -> bool {
    exists|n: nat| candidate_works(sk, n)
}

/// Whether a candidate among as many as can be counted gives an incoming viewing key.
#[verifier::opaque]
pub open spec fn has_viewing_key(sk: Seq<u8>) -> bool {
    exists|n: nat| n < u64::MAX && candidate_works(sk, n)
}

/// The first candidate that works.
pub open spec fn first_working(sk: Seq<u8>) -> nat {
    choose|n: nat|
        #[trigger] candidate_works(sk, n) && forall|m: nat| m < n ==> !candidate_works(sk, m)
}

/// A full viewing key.
pub struct ViewingKeyModel {
    pub ak: nat,
    pub nk: nat,
    pub rivk: nat,
    pub ivk: nat,
    pub ovk: Seq<u8>,
}

/// The full viewing key of `sk`.
pub open spec fn viewing_key(sk: Seq<u8>) -> ViewingKeyModel {
    let ak = public_authorizing_key(sk);
    let nk = nullifier_key(sk);
    let rivk = rivk_candidate(sk, first_working(sk));
    ViewingKeyModel {
        ak,
        nk,
        rivk,
        ivk: ivk_commitment(ak, nk, rivk)->0,
        ovk: crate::hash::blake2b_hash(
            PRF_EXPAND_PERSONALIZATION@,
            64,
            expansion_input(sk, 0x09),
        ).take(32),
    }
}

impl ViewingKeyModel {
    /// The key is usable and its `ivk` belongs to the rest.
    pub open spec fn consistent(self) -> bool {
        &&& self.ak != 0
        &&& ivk_commitment(self.ak, self.nk, self.rivk) == Some(self.ivk)
    }

    /// `ak | nk | rivk | ovk`.
    pub open spec fn encoded(self) -> Seq<u8> {
        crate::pallas::encode_point(self.ak) + crate::bytes::le_bytes(self.nk, 32)
            + crate::bytes::le_bytes(self.rivk, 32) + self.ovk
    }

    /// The address for a diversifier.
    pub open spec fn address(self, d: Seq<u8>) -> AddressModel {
        AddressModel { d, pk_d: crate::pallas::point_product(diversified_base(d), self.ivk) }
    }
}

/// What an encoded full viewing key stands for.
pub open spec fn decoded_viewing_key(bytes: Seq<u8>) -> Option<ViewingKeyModel> {
    let ak = crate::pallas::decode_point(bytes.subrange(0, 32));
    let nk = crate::bytes::le_nat(bytes.subrange(32, 64));
    let rivk = crate::bytes::le_nat(bytes.subrange(64, 96));
    if ak is Some && ak->0 != 0 && nk < crate::pallas::base_modulus() && rivk
        < crate::pallas::base_modulus() && ivk_commitment(ak->0, nk, rivk) is Some {
        Some(
            ViewingKeyModel {
                ak: ak->0,
                nk,
                rivk,
                ivk: ivk_commitment(ak->0, nk, rivk)->0,
                ovk: bytes.subrange(96, 128),
            },
        )
    } else {
        None
    }
}

/// A shielded address: diversifier and transmission key.
#[verifier::ext_equal]
pub struct AddressModel {
    pub d: Seq<u8>,
    pub pk_d: nat,
}

impl AddressModel {
    /// Diversifier and compressed transmission key.
    pub open spec fn raw(self) -> Seq<u8> {
        self.d + crate::pallas::encode_point(self.pk_d)
    }
}

/// What 43 raw bytes stand for.
pub open spec fn address_of_raw(raw: Seq<u8>) -> Option<AddressModel> {
    let pk_d = crate::pallas::decode_point(raw.subrange(11, 43));
    if pk_d is Some && pk_d->0 != 0 {
        Some(AddressModel { d: raw.subrange(0, 11), pk_d: pk_d->0 })
    } else {
        None
    }
}

/// The point a diversifier is hashed to, the generator should the hash give the identity.
pub open spec fn diversified_base(d: Seq<u8>) -> nat {
    let p = crate::pallas::discrete_log(
        crate::pallas::hash_to_curve(DIVERSIFY_HASH_PERSONALIZATION@, d),
    );
    if p == 0 {
        1
    } else {
        p
    }
}

/// The diversifier of a target month.
pub open spec fn monthly_diversifier(ivk: nat, year: u32, month: u32) -> Seq<u8> {
    crate::hash::blake2b_hash(
        MONTHLY_DIVERSIFIER_PERSONALIZATION@,
        11,
        crate::bytes::le_bytes(ivk, 32) + crate::bytes::le_bytes(year as nat, 4)
            + crate::bytes::le_bytes(month as nat, 1),
    )
}

// --------------------------------------------------------------------------------------- keys

/// What the user has to keep. Everything else is derived from it.
#[derive(Clone, Copy, Debug)]
pub struct SpendingKey([u8; 32]);

/// What the device keeps in the custody split: it can sign, nothing else.
#[derive(Clone, Copy, Debug)]
pub struct SpendAuthorizingKey(pub Scalar);

/// What the community server may hold: prove, decrypt, show balances, but not spend.
#[derive(Clone, Copy, Debug)]
pub struct FullViewingKey {
    /// public part of the spend authorising key, goes into the proof
    pub ak: Point,
    /// nullifier key
    pub nk: Base,
    /// randomness of `ivk`; the proof derives `ivk` again from `ak`, `nk` and `rivk`
    pub rivk: Base,
    /// incoming viewing key, used as the scalar in `pk_d = [ivk] g_d`
    pub ivk: Scalar,
    /// outgoing viewing key, recovers notes the wallet itself sent
    pub ovk: [u8; 32],
}

impl View for FullViewingKey {
    type V = ViewingKeyModel;

    open spec fn view(&self) -> ViewingKeyModel {
        ViewingKeyModel {
            ak: self.ak@,
            nk: self.nk@,
            rivk: self.rivk@,
            ivk: self.ivk@,
            ovk: self.ovk@,
        }
    }
}

/// A shielded address: diversifier plus the transmission key derived from it.
#[derive(Clone, Copy, Debug, PartialEq, Eq)]
pub struct Address {
    pub d: Diversifier,
    pub pk_d: Point,
}

impl View for Address {
    type V = AddressModel;

    open spec fn view(&self) -> AddressModel {
        AddressModel { d: self.d@, pk_d: self.pk_d@ }
    }
}

/// Hash of a diversifier to a curve point, never the identity.
pub fn diversify_hash(d: &Diversifier) -> (r: Point)
    ensures
        r@ == diversified_base(d@),
{
    proof {
        reveal_strlit("Gradido_gd");
    }
    let point = Point::hash_to_curve(DIVERSIFY_HASH_PERSONALIZATION, d.as_slice());
    if point.is_identity() {
        // cannot happen for the hash we use, but the address would be unusable
        Point::generator()
    } else {
        point
    }
}

/// `ivk = Poseidon(ak_x, nk, rivk)`, the same hash the circuit computes; `None` for zero.
///
/// The Poseidon output is a base field element, and on Pallas the base field is the smaller
/// one, so every output is a valid scalar with the same integer value, which is what the
/// circuit relies on. Only zero has to be excluded, and an `ak` that is the identity.
pub fn commit_ivk(ak: Point, nk: Base, rivk: Base) -> (r: Option<Scalar>)
    ensures
        r is Some <==> ivk_commitment(ak@, nk@, rivk@) is Some,
        r matches Some(ivk) ==> ivk_commitment(ak@, nk@, rivk@) == Some(ivk@),
{
    if ak.is_identity() {
        return None;
    }
    let message: [Base; 3] = [ak.x(), nk, rivk];
    proof {
        use_type_invariant(&ak);
        assert(crate::hash::values(message@) =~= seq![
            crate::pallas::pallas_multiple(ak@).0,
            nk@,
            rivk@,
        ]);
    }
    let ivk = crate::hash::poseidon(message).to_scalar();
    if ivk.is_zero() {
        None
    } else {
        Some(ivk)
    }
}

impl SpendingKey {
    pub closed spec fn bytes(self) -> Seq<u8> {
        self.0@
    }

    /// A key from 32 random bytes.
    pub fn random(entropy: [u8; 32]) -> (r: Self)
        ensures
            r.bytes() == entropy@,
    {
        Self(entropy)
    }

    pub fn from_bytes(bytes: [u8; 32]) -> (r: Self)
        ensures
            r.bytes() == bytes@,
    {
        Self(bytes)
    }

    pub fn to_bytes(self) -> (r: [u8; 32])
        ensures
            r@ == self.bytes(),
    {
        self.0
    }

    /// The key followed by a tag, what every derived key is hashed from.
    fn tagged(&self, tag: u8) -> (r: Vec<u8>)
        ensures
            r@ == expansion_input(self.bytes(), tag),
    {
        let mut out: Vec<u8> = Vec::new();
        append(&mut out, self.0.as_slice());
        out.push(tag);
        assert(out@ =~= expansion_input(self.bytes(), tag));
        out
    }

    pub fn spend_authorizing_key(&self) -> (r: SpendAuthorizingKey)
        ensures
            r.0@ == authorizing_key(self.bytes()),
    {
        proof {
            reveal_strlit("Gradido_ExpandSd");
        }
        SpendAuthorizingKey(
            crate::hash::to_scalar(PRF_EXPAND_PERSONALIZATION, self.tagged(0x06).as_slice()),
        )
    }

    /// The basepoint of the signature scheme, not the curve generator, times `ask`.
    fn spend_validating_key(&self) -> (r: Point)
        ensures
            r@ == public_authorizing_key(self.bytes()),
    {
        crate::signature::spend_auth_base().times(&self.spend_authorizing_key().0)
    }

    fn nullifier_deriving_key(&self) -> (r: Base)
        ensures
            r@ == nullifier_key(self.bytes()),
    {
        proof {
            reveal_strlit("Gradido_ExpandSd");
        }
        crate::hash::to_base(PRF_EXPAND_PERSONALIZATION, self.tagged(0x07).as_slice())
    }

    fn initial_rivk(&self) -> (r: Base)
        ensures
            r@ == first_rivk(self.bytes()),
    {
        proof {
            reveal_strlit("Gradido_ExpandSd");
        }
        crate::hash::to_base(PRF_EXPAND_PERSONALIZATION, self.tagged(0x08).as_slice())
    }

    /// Everything but the right to spend. An `ivk` of zero would make every address the
    /// identity, so `rivk` is hashed on until the `ivk` is usable; for a key where that never
    /// happens there is no viewing key.
    pub fn full_viewing_key(&self) -> (r: FullViewingKey)
        requires
            derivable(self.bytes()),
        ensures
            r@ == viewing_key(self.bytes()),
            r@.consistent(),
    {
        let ak = self.spend_validating_key();
        let nk = self.nullifier_deriving_key();
        let mut rivk = self.initial_rivk();
        let ghost sk = self.bytes();
        let ghost end = choose|n: nat| candidate_works(sk, n);
        let ghost mut n: nat = 0;
        let mut found: Option<Scalar> = commit_ivk(ak, nk, rivk);
        while found.is_none()
            invariant
                sk == self.bytes(),
                candidate_works(sk, end),
                n <= end,
                ak@ == public_authorizing_key(sk),
                nk@ == nullifier_key(sk),
                rivk@ == rivk_candidate(sk, n),
                found is Some <==> ivk_commitment(ak@, nk@, rivk@) is Some,
                found matches Some(ivk) ==> ivk_commitment(ak@, nk@, rivk@) == Some(ivk@),
                forall|m: nat| m < n ==> !candidate_works(sk, m),
            decreases end - n,
        {
            let message: [Base; 1] = [rivk];
            assert(crate::hash::values(message@) =~= seq![rivk@]);
            assert(!candidate_works(sk, n));
            rivk = crate::hash::poseidon(message);
            proof {
                n = n + 1;
            }
            found = commit_ivk(ak, nk, rivk);
        }
        proof {
            assert(candidate_works(sk, n));
            assert(n == first_working(sk));
            reveal_strlit("Gradido_ExpandSd");
        }
        let expanded = crate::hash::blake2b(
            PRF_EXPAND_PERSONALIZATION,
            64,
            self.tagged(0x09).as_slice(),
        );
        let ovk = take::<32>(expanded.as_slice(), 0);
        assert(ovk@ =~= expanded@.take(32));
        FullViewingKey { ak, nk, rivk, ivk: found.unwrap(), ovk }
    }

    /// The full viewing key, if one of the candidates for `rivk` that can be tried at all gives
    /// a usable `ivk`. The first one does for every key but one in about `2^254`.
    pub fn try_full_viewing_key(&self) -> (r: Option<FullViewingKey>)
        ensures
            r is Some <==> has_viewing_key(self.bytes()),
            r is Some ==> derivable(self.bytes()),
            r matches Some(fvk) ==> fvk@ == viewing_key(self.bytes()) && fvk@.consistent(),
    {
        proof {
            reveal(has_viewing_key);
        }
        let ak = self.spend_validating_key();
        let nk = self.nullifier_deriving_key();
        let mut rivk = self.initial_rivk();
        let mut n: u64 = 0;
        while n < u64::MAX
            invariant
                ak@ == public_authorizing_key(self.bytes()),
                nk@ == nullifier_key(self.bytes()),
                rivk@ == rivk_candidate(self.bytes(), n as nat),
                forall|m: nat| m < n ==> !candidate_works(self.bytes(), m),
            decreases u64::MAX - n,
        {
            if commit_ivk(ak, nk, rivk).is_some() {
                proof {
                    reveal(has_viewing_key);
                    assert(candidate_works(self.bytes(), n as nat));
                }
                return Some(self.full_viewing_key());
            }
            assert(!candidate_works(self.bytes(), n as nat));
            let message: [Base; 1] = [rivk];
            assert(crate::hash::values(message@) =~= seq![rivk@]);
            rivk = crate::hash::poseidon(message);
            n = n + 1;
        }
        None
    }
}

impl FullViewingKey {
    /// `ak | nk | rivk | ovk`, what a device hands to its community server. `ivk` is derived
    /// again on decoding, so it cannot be inconsistent with the rest.
    pub fn to_bytes(&self) -> (r: [u8; 128])
        ensures
            r@ == self@.encoded(),
    {
        let mut out: Vec<u8> = Vec::new();
        append(&mut out, self.ak.to_bytes().as_slice());
        append(&mut out, self.nk.to_repr().as_slice());
        append(&mut out, self.rivk.to_repr().as_slice());
        append(&mut out, self.ovk.as_slice());
        proof {
            assert(out@ =~= self@.encoded());
            assert(out@.subrange(0, 128) =~= out@);
        }
        take::<128>(out.as_slice(), 0)
    }

    /// Rejects non-canonical encodings, an identity `ak` and keys whose `ivk` would be zero.
    pub fn from_bytes(bytes: &[u8; 128]) -> (r: Option<Self>)
        ensures
            r is Some <==> decoded_viewing_key(bytes@) is Some,
            r matches Some(k) ==> decoded_viewing_key(bytes@) == Some(k@),
    {
        let ak = Point::from_bytes(&take::<32>(bytes.as_slice(), 0))?;
        if ak.is_identity() {
            return None;
        }
        let nk = Base::from_repr(&take::<32>(bytes.as_slice(), 32))?;
        let rivk = Base::from_repr(&take::<32>(bytes.as_slice(), 64))?;
        let ivk = commit_ivk(ak, nk, rivk)?;
        let ovk = take::<32>(bytes.as_slice(), 96);
        Some(Self { ak, nk, rivk, ivk, ovk })
    }

    /// The address for a diversifier: `pk_d = [ivk] g_d`.
    pub fn address(&self, d: Diversifier) -> (r: Address)
        ensures
            r@ == self@.address(d@),
    {
        Address { d, pk_d: diversify_hash(&d).times(&self.ivk) }
    }

    /// The default address of an account, diversifier zero.
    pub fn default_address(&self) -> (r: Address)
        ensures
            r@ == self@.address(crate::bytes::zeros(11)),
    {
        let d: Diversifier = [0u8; 11];
        assert(d@ =~= crate::bytes::zeros(11));
        self.address(d)
    }

    /// Address for one target month (`month` 1 to 12), so creations do not link across months.
    /// Derived from `ivk`, so the community can compute it and the owner recognises it. `None`
    /// for a month outside 1 to 12, which would otherwise alias another month.
    pub fn creation_address(&self, year: u32, month: u32) -> (r: Option<Address>)
        ensures
            r is Some <==> 1 <= month <= 12,
            r matches Some(a) ==> a@ == self@.address(monthly_diversifier(self@.ivk, year, month)),
    {
        if month < 1 || month > 12 {
            return None;
        }
        proof {
            reveal_strlit("Gradido_MonthlyD");
        }
        let mut data: Vec<u8> = Vec::new();
        append(&mut data, self.ivk.to_repr().as_slice());
        push_le(&mut data, year as u128, 4);
        push_le(&mut data, month as u128, 1);
        assert(data@ =~= crate::bytes::le_bytes(self@.ivk, 32) + crate::bytes::le_bytes(
            year as nat,
            4,
        ) + crate::bytes::le_bytes(month as nat, 1));
        let hash = crate::hash::blake2b(MONTHLY_DIVERSIFIER_PERSONALIZATION, 11, data.as_slice());
        assert(hash@.subrange(0, 11) =~= hash@);
        Some(self.address(take::<11>(hash.as_slice(), 0)))
    }

    /// Does this address belong to the key?
    pub fn owns(&self, address: &Address) -> (r: bool)
        ensures
            r == (self@.address(address@.d) == address@),
    {
        let own = self.address(address.d);
        proof {
            use_type_invariant(&own.pk_d);
            use_type_invariant(&address.pk_d);
            if own.pk_d@ == address.pk_d@ {
                crate::pallas::lemma_point_determined(own.pk_d, address.pk_d);
            }
        }
        own.pk_d == address.pk_d
    }
}

impl Address {
    /// Whether two addresses are the same.
    pub fn same(&self, other: &Address) -> (r: bool)
        ensures
            r == (self@ == other@),
    {
        proof {
            use_type_invariant(&self.pk_d);
            use_type_invariant(&other.pk_d);
            if self.pk_d@ == other.pk_d@ {
                crate::pallas::lemma_point_determined(self.pk_d, other.pk_d);
            }
        }
        crate::bytes::same(self.d.as_slice(), other.d.as_slice()) && self.pk_d == other.pk_d
    }

    /// 43 bytes: diversifier and the compressed transmission key, as in the address encoding.
    pub fn to_raw(self) -> (r: [u8; 43])
        ensures
            r@ == self@.raw(),
    {
        let mut out: Vec<u8> = Vec::new();
        append(&mut out, self.d.as_slice());
        append(&mut out, self.pk_d.to_bytes().as_slice());
        proof {
            assert(out@ =~= self@.raw());
            assert(out@.subrange(0, 43) =~= out@);
        }
        take::<43>(out.as_slice(), 0)
    }

    pub fn from_raw(raw: &[u8; 43]) -> (r: Option<Self>)
        ensures
            r is Some <==> address_of_raw(raw@) is Some,
            r matches Some(a) ==> address_of_raw(raw@) == Some(a@),
    {
        let d = take::<11>(raw.as_slice(), 0);
        let pk_d = Point::from_bytes(&take::<32>(raw.as_slice(), 11))?;
        if pk_d.is_identity() {
            return None;
        }
        Some(Self { d, pk_d })
    }
}

// --------------------------------------------------------------------------------------- laws

/// The owner of a viewing key recognises all its addresses, those of the months among them.
pub proof fn own_addresses_are_recognised(key: ViewingKeyModel, d: Seq<u8>)
    ensures
        key.address(key.address(d).d) == key.address(d),
{
}

/// Decoding an encoded viewing key gives it back.
pub proof fn viewing_key_survives_encoding(key: FullViewingKey)
    requires
        key@.consistent(),
        key.ak.valid(),
        key.nk.canonical(),
        key.rivk.canonical(),
    ensures
        decoded_viewing_key(key@.encoded()) == Some(key@),
{
    let k = key@;
    let bytes = k.encoded();
    crate::bytes::lemma_pow256_values();
    crate::bytes::lemma_le_nat_of_le_bytes(k.nk, 32);
    crate::bytes::lemma_le_nat_of_le_bytes(k.rivk, 32);
    crate::pallas::lemma_encoding_length(k.ak);
    assert(bytes.subrange(0, 32) =~= crate::pallas::encode_point(k.ak));
    assert(bytes.subrange(32, 64) =~= crate::bytes::le_bytes(k.nk, 32));
    assert(bytes.subrange(64, 96) =~= crate::bytes::le_bytes(k.rivk, 32));
    assert(bytes.subrange(96, 128) =~= k.ovk);
}

/// A viewing key has one encoding only.
pub proof fn viewing_key_has_one_encoding(bytes: Seq<u8>)
    requires
        bytes.len() == 128,
        decoded_viewing_key(bytes) is Some,
    ensures
        decoded_viewing_key(bytes)->0.encoded() == bytes,
{
    let k = decoded_viewing_key(bytes)->0;
    crate::bytes::lemma_le_bytes_of_le_nat(bytes.subrange(32, 64));
    crate::bytes::lemma_le_bytes_of_le_nat(bytes.subrange(64, 96));
    assert(k.encoded() =~= bytes);
}

/// Decoding a raw address gives it back, unless its transmission key is the identity.
pub proof fn address_survives_raw_encoding(address: Address)
    requires
        address.pk_d.valid(),
        address@.pk_d != 0,
    ensures
        address_of_raw(address@.raw()) == Some(address@),
{
    let raw = address@.raw();
    crate::pallas::lemma_encoding_length(address@.pk_d);
    assert(raw.subrange(11, 43) =~= crate::pallas::encode_point(address@.pk_d));
    assert(raw.subrange(0, 11) =~= address@.d);
}

/// An address has one raw encoding only.
pub proof fn address_has_one_raw_encoding(raw: Seq<u8>)
    requires
        raw.len() == 43,
        address_of_raw(raw) is Some,
    ensures
        address_of_raw(raw)->0.raw() == raw,
{
    assert(address_of_raw(raw)->0.raw() =~= raw);
}

/// Every month has its own address: the diversifiers of two months, or of two keys, are hashed
/// from different byte strings, which are returned.
pub proof fn months_are_hashed_apart(
    ivk1: nat,
    year1: u32,
    month1: u32,
    ivk2: nat,
    year2: u32,
    month2: u32,
) -> (r: (Seq<u8>, Seq<u8>))
    requires
        ivk1 < crate::pallas::scalar_modulus(),
        ivk2 < crate::pallas::scalar_modulus(),
        1 <= month1 <= 12,
        1 <= month2 <= 12,
    ensures
        monthly_diversifier(ivk1, year1, month1) == crate::hash::blake2b_hash(
            "Gradido_MonthlyD"@,
            11,
            r.0,
        ),
        monthly_diversifier(ivk2, year2, month2) == crate::hash::blake2b_hash(
            "Gradido_MonthlyD"@,
            11,
            r.1,
        ),
        r.0 == crate::bytes::le_bytes(ivk1, 32) + crate::bytes::le_bytes(year1 as nat, 4)
            + crate::bytes::le_bytes(month1 as nat, 1),
        r.0 == r.1 ==> ivk1 == ivk2 && year1 == year2 && month1 == month2,
{
    let k1 = crate::bytes::le_bytes(ivk1, 32);
    let k2 = crate::bytes::le_bytes(ivk2, 32);
    let y1 = crate::bytes::le_bytes(year1 as nat, 4);
    let y2 = crate::bytes::le_bytes(year2 as nat, 4);
    let m1 = crate::bytes::le_bytes(month1 as nat, 1);
    let m2 = crate::bytes::le_bytes(month2 as nat, 1);
    let a = k1 + y1 + m1;
    let b = k2 + y2 + m2;
    if a == b {
        crate::bytes::lemma_pow256_values();
        crate::bytes::lemma_le_bytes_len(ivk1, 32);
        crate::bytes::lemma_le_bytes_len(ivk2, 32);
        crate::bytes::lemma_le_bytes_len(year1 as nat, 4);
        crate::bytes::lemma_le_bytes_len(year2 as nat, 4);
        crate::bytes::lemma_parts_injective(k1 + y1, m1, k2 + y2, m2);
        crate::bytes::lemma_parts_injective(k1, y1, k2, y2);
        crate::bytes::lemma_le_bytes_injective(ivk1, ivk2, 32);
        crate::bytes::lemma_le_bytes_injective(year1 as nat, year2 as nat, 4);
        crate::bytes::lemma_le_bytes_injective(month1 as nat, month2 as nat, 1);
    }
    (a, b)
}

/// The keys of a spending key are independent: spend authorising key, nullifier key, `rivk` and
/// outgoing viewing key are hashed from four different byte strings, which are returned, and no
/// other spending key shares one of them.
pub proof fn derived_keys_are_hashed_apart(sk1: Seq<u8>, sk2: Seq<u8>) -> (r: (
    Seq<Seq<u8>>,
    Seq<Seq<u8>>,
))
    requires
        sk1.len() == 32,
        sk2.len() == 32,
    ensures
        derived_from(sk1, r.0),
        derived_from(sk2, r.1),
        r.0 == seq![sk1.push(6u8), sk1.push(7u8), sk1.push(8u8), sk1.push(9u8)],
        forall|i: int, j: int|
            0 <= i < 4 && 0 <= j < 4 && i != j ==> #[trigger] r.0[i] != #[trigger] r.0[j],
        forall|i: int, j: int|
            0 <= i < 4 && 0 <= j < 4 && #[trigger] r.0[i] == #[trigger] r.1[j] ==> i == j && sk1
                == sk2,
{
    let tags = seq![6u8, 7u8, 8u8, 9u8];
    let a = Seq::new(4, |i: int| sk1.push(tags[i]));
    let b = Seq::new(4, |i: int| sk2.push(tags[i]));
    assert forall|i: int, j: int|
        0 <= i < 4 && 0 <= j < 4 && i != j implies #[trigger] a[i] != #[trigger] a[j] by {
        assert(a[i].last() != a[j].last());
    }
    assert forall|i: int, j: int|
        0 <= i < 4 && 0 <= j < 4 && #[trigger] a[i] == #[trigger] b[j] implies i == j && sk1
        == sk2 by {
        assert(a[i].last() == tags[i] && b[j].last() == tags[j]);
        assert(a[i].drop_last() =~= sk1);
        assert(b[j].drop_last() =~= sk2);
    }
    (a, b)
}

/// Whether the four derived keys of a spending key are the hashes of four byte strings.
pub open spec fn derived_from(sk: Seq<u8>, inputs: Seq<Seq<u8>>) -> bool {
    let digest = |i: int| crate::hash::blake2b_hash("Gradido_ExpandSd"@, 64, inputs[i]);
    &&& inputs.len() == 4
    &&& authorizing_key(sk) == crate::bytes::le_nat(digest(0)) % crate::pallas::scalar_modulus()
    &&& nullifier_key(sk) == crate::bytes::le_nat(digest(1)) % crate::pallas::base_modulus()
    &&& first_rivk(sk) == crate::bytes::le_nat(digest(2)) % crate::pallas::base_modulus()
    &&& viewing_key(sk).nk == nullifier_key(sk)
    &&& viewing_key(sk).ovk == digest(3).take(32)
}

/// A usable viewing key comes from the first candidate for `rivk` that gives one: the key is
/// usable, `ivk` is the hash of the rest of the key, and no earlier candidate would have done.
pub proof fn the_first_usable_candidate_is_taken(sk: Seq<u8>) -> (n: nat)
    requires
        derivable(sk),
    ensures
        ({
            let k = viewing_key(sk);
            let hash = |rivk: nat|
                crate::hash::poseidon_hash(
                    seq![crate::pallas::pallas_multiple(k.ak).0, k.nk, rivk],
                );
            &&& k.ak != 0
            &&& k.ivk == hash(k.rivk)
            &&& k.ivk != 0
            &&& k.rivk == rivk_candidate(sk, n)
            &&& rivk_candidate(sk, 0) == first_rivk(sk)
            &&& forall|m: nat|
                m < n ==> hash(#[trigger] rivk_candidate(sk, m)) == 0 && rivk_candidate(sk, m + 1)
                    == crate::hash::poseidon_hash(seq![rivk_candidate(sk, m)])
        }),
{
    let end = choose|n: nat| candidate_works(sk, n);
    let n = lemma_first_works(sk, end);
    assert(n == first_working(sk)) by {
        let f = first_working(sk);
        assert(candidate_works(sk, f) && forall|m: nat| m < f ==> !candidate_works(sk, m));
    }
    assert forall|m: nat| m < n implies crate::hash::poseidon_hash(
        seq![
            crate::pallas::pallas_multiple(viewing_key(sk).ak).0,
            viewing_key(sk).nk,
            #[trigger] rivk_candidate(sk, m),
        ],
    ) == 0 && rivk_candidate(sk, m + 1) == crate::hash::poseidon_hash(
        seq![rivk_candidate(sk, m)],
    ) by {
        assert(!candidate_works(sk, m));
    }
    n
}

proof fn lemma_first_works(sk: Seq<u8>, end: nat) -> (n: nat)
    requires
        candidate_works(sk, end),
    ensures
        candidate_works(sk, n),
        forall|m: nat| m < n ==> !candidate_works(sk, m),
    decreases end,
{
    if exists|m: nat| m < end && candidate_works(sk, m) {
        let m = choose|m: nat| m < end && candidate_works(sk, m);
        lemma_first_works(sk, m)
    } else {
        end
    }
}

/// An incoming viewing key commits to the rest of the key: the messages that two of them are
/// hashed from, which are returned, differ unless `ak` has the same coordinate and `nk` and `rivk`
/// are the same. There is none exactly for an `ak` that is the identity and for a hash of zero.
pub proof fn incoming_keys_are_hashed_apart(
    ak1: nat,
    nk1: nat,
    rivk1: nat,
    ak2: nat,
    nk2: nat,
    rivk2: nat,
) -> (r: (Seq<nat>, Seq<nat>))
    ensures
        ivk_commitment(ak1, nk1, rivk1) == (if ak1 == 0 || crate::hash::poseidon_hash(r.0) == 0 {
            None
        } else {
            Some(crate::hash::poseidon_hash(r.0))
        }),
        ivk_commitment(ak2, nk2, rivk2) == (if ak2 == 0 || crate::hash::poseidon_hash(r.1) == 0 {
            None
        } else {
            Some(crate::hash::poseidon_hash(r.1))
        }),
        r.0 == seq![crate::pallas::pallas_multiple(ak1).0, nk1, rivk1],
        r.0 == r.1 ==> nk1 == nk2 && rivk1 == rivk2 && crate::pallas::pallas_multiple(ak1).0
            == crate::pallas::pallas_multiple(ak2).0,
{
    let a = seq![crate::pallas::pallas_multiple(ak1).0, nk1, rivk1];
    let b = seq![crate::pallas::pallas_multiple(ak2).0, nk2, rivk2];
    if a == b {
        assert(a[0] == b[0] && a[1] == b[1] && a[2] == b[2]);
    }
    (a, b)
}

/// The spending key authorises what its viewing key proves: the signing key `ask + alpha` is the
/// secret of the rerandomised key that the proof exposes.
pub proof fn the_owner_can_authorise(sk: Seq<u8>, alpha: nat)
    ensures
        crate::signature::randomized_key(viewing_key(sk).ak, alpha) == (
        crate::signature::spend_auth_generator() * (authorizing_key(sk) + alpha))
            % crate::pallas::scalar_modulus(),
{
    let g = crate::signature::spend_auth_generator();
    let a = authorizing_key(sk);
    crate::pallas::lemma_product_distributes(g, a, alpha);
    crate::pallas::lemma_reduced(g as int, (a + alpha) as int);
}

/// An address keeps its diversifier, has its transmission key from the incoming viewing key, and
/// belongs to one incoming viewing key only, as its base is never the identity.
pub proof fn an_address_belongs_to_one_key(a: ViewingKeyModel, b: ViewingKeyModel, d: Seq<u8>)
    requires
        a.ivk < crate::pallas::scalar_modulus(),
        b.ivk < crate::pallas::scalar_modulus(),
        crate::pallas::has_full_order(diversified_base(d)),
    ensures
        a.address(d).d == d,
        a.address(d) == b.address(d) <==> a.ivk == b.ivk,
{
    let g = diversified_base(d);
    let q = crate::pallas::scalar_modulus();
    if a.address(d) == b.address(d) {
        let (x, y) = if a.ivk <= b.ivk {
            (a.ivk, b.ivk)
        } else {
            (b.ivk, a.ivk)
        };
        let e = (y - x) as nat;
        assert(g * y - g * x == g * e) by (nonlinear_arith)
            requires
                e == y - x,
        ;
        crate::pallas::lemma_reduced((g * y) as int, (g * x) as int);
        assert(crate::pallas::reduced((g * e) as int) == crate::pallas::reduced(
            crate::pallas::point_product(g, y) - crate::pallas::point_product(g, x),
        )) by {
            crate::pallas::lemma_reduced(crate::pallas::reduced((g * y) as int) as int, (g * x) as int);
        }
        assert(crate::pallas::point_product(g, e) == 0);
        vstd::arithmetic::div_mod::lemma_small_mod(e, q);
    }
}

/// The base of a diversifier is hashed from all its bytes, and is never the identity.
pub proof fn a_diversifier_has_its_base(d: Seq<u8>)
    ensures
        diversified_base(d) != 0,
        ({
            let p = crate::pallas::discrete_log(crate::pallas::hash_to_curve("Gradido_gd"@, d));
            diversified_base(d) == (if p != 0 {
                p
            } else {
                1
            })
        }),
{
}

/// An encoded viewing key is 128 bytes: `ak`, `nk`, `rivk` and `ovk`, in this order. It is read
/// back exactly where `ak` is a point other than the identity, the other two are canonical and
/// they give an incoming viewing key.
pub proof fn a_viewing_key_has_four_parts(key: ViewingKeyModel, bytes: Seq<u8>)
    requires
        key.ovk.len() == 32,
        bytes.len() == 128,
    ensures
        key.encoded().len() == 128,
        key.encoded().subrange(0, 32) == crate::pallas::encode_point(key.ak),
        key.encoded().subrange(32, 64) == crate::bytes::le_bytes(key.nk, 32),
        key.encoded().subrange(64, 96) == crate::bytes::le_bytes(key.rivk, 32),
        key.encoded().subrange(96, 128) == key.ovk,
        ({
            let nk = crate::bytes::le_nat(bytes.subrange(32, 64));
            let rivk = crate::bytes::le_nat(bytes.subrange(64, 96));
            let hash = |ak: nat|
                crate::hash::poseidon_hash(
                    seq![crate::pallas::pallas_multiple(ak).0, nk, rivk],
                );
            let r = decoded_viewing_key(bytes);
            &&& r is Some <==> {
                &&& crate::pallas::decode_point(bytes.subrange(0, 32)) matches Some(ak)
                &&& ak != 0
                &&& nk < crate::pallas::base_modulus() && rivk < crate::pallas::base_modulus()
                &&& hash(ak) != 0
            }
            &&& r matches Some(k) ==> {
                &&& crate::pallas::decode_point(bytes.subrange(0, 32)) == Some(k.ak)
                &&& k.nk == nk && k.rivk == rivk
                &&& k.ivk == hash(k.ak)
                &&& k.ovk == bytes.subrange(96, 128)
            }
        }),
{
    crate::pallas::lemma_encoding_length(key.ak);
    crate::bytes::lemma_le_bytes_len(key.nk, 32);
    crate::bytes::lemma_le_bytes_len(key.rivk, 32);
    let e = key.encoded();
    assert(e.subrange(0, 32) =~= crate::pallas::encode_point(key.ak));
    assert(e.subrange(32, 64) =~= crate::bytes::le_bytes(key.nk, 32));
    assert(e.subrange(64, 96) =~= crate::bytes::le_bytes(key.rivk, 32));
    assert(e.subrange(96, 128) =~= key.ovk);
}

/// Raw bytes are an address exactly where the last 32 are a point other than the identity; the
/// first 11 are its diversifier.
pub proof fn a_raw_address_is_diversifier_and_point(raw: Seq<u8>)
    requires
        raw.len() == 43,
    ensures
        address_of_raw(raw) is Some <==> (crate::pallas::decode_point(raw.subrange(11, 43))
            matches Some(k) && k != 0),
        address_of_raw(raw) matches Some(a) ==> a.d == raw.subrange(0, 11)
            && crate::pallas::decode_point(raw.subrange(11, 43)) == Some(a.pk_d),
{
}

} // verus!
