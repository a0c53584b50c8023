//! The hashes: Poseidon over field elements and personalised BLAKE2b over bytes.
use ff::PrimeField;
use halo2_gadgets::poseidon::primitives::{self as poseidon_primitives, ConstantLength, P128Pow5T3};
use vstd::prelude::*;

use crate::pallas::{Base, Scalar};

verus! {

broadcast use vstd::array::group_array_axioms;

/// What the Poseidon hash `P128Pow5T3` of `halo2_gadgets` gives for a message of constant
/// length.
pub uninterp spec fn poseidon_hash(message: Seq<nat>) -> nat;

/// What `blake2b_simd` gives for a personalisation, a hash length and the data.
pub uninterp spec fn blake2b_hash(personal: Seq<char>, length: nat, data: Seq<u8>) -> Seq<u8>;

/// The integers of field elements.
pub open spec fn values(elements: Seq<Base>) -> Seq<nat> {
    elements.map_values(|e: Base| e@)
}

/// At most 16 ASCII characters.
pub open spec fn is_personalization(s: Seq<char>) -> bool {
    &&& s.len() <= 16
    &&& forall|i: int| 0 <= i < s.len() ==> #[trigger] s[i] <= '\x7f'
}

/// The Poseidon hash `P128Pow5T3` of `halo2_gadgets` with `ConstantLength`, which pads by the
/// length of the message. It depends on the message alone. With nothing to absorb it would panic.
#[verifier::external_body]
pub(crate) fn poseidon<const L: usize>(message: [Base; L]) -> (r: Base)
    requires
        L >= 1,
    ensures
        r@ == poseidon_hash(values(message@)),
{
    let elements = message.map(|e| pasta_curves::Fp::from_repr(e.to_repr()).unwrap());
    let digest = poseidon_primitives::Hash::<_, P128Pow5T3, ConstantLength<L>, 3, 2>::init().hash(elements);
    Base::from_repr(&digest.to_repr()).unwrap()
}

/// BLAKE2b of `blake2b_simd` with a personalisation, unkeyed, of the given length in bytes.
#[verifier::external_body]
pub(crate) fn blake2b(personal: &str, length: usize, data: &[u8]) -> (r: Vec<u8>)
    requires
        is_personalization(personal@),
        1 <= length <= 64,
    ensures
        r@ == blake2b_hash(personal@, length as nat, data@),
        r@.len() == length,
{
    let mut params = blake2b_simd::Params::new();
    params.hash_length(length).personal(personal.as_bytes());
    params.hash(data).as_bytes().to_vec()
}

/// A base field element hashed from bytes: 64 bytes of BLAKE2b, reduced.
pub open spec fn hash_to_base(personal: Seq<char>, data: Seq<u8>) -> nat {
    crate::bytes::le_nat(blake2b_hash(personal, 64, data)) % crate::pallas::base_modulus()
}

/// A scalar hashed from bytes: 64 bytes of BLAKE2b, reduced.
pub open spec fn hash_to_scalar(personal: Seq<char>, data: Seq<u8>) -> nat {
    crate::bytes::le_nat(blake2b_hash(personal, 64, data)) % crate::pallas::scalar_modulus()
}

/// Hashes bytes to a base field element.
pub(crate) fn to_base(personal: &str, data: &[u8]) -> (r: Base)
    requires
        is_personalization(personal@),
    ensures
        r@ == hash_to_base(personal@, data@),
{
    let hash = blake2b(personal, 64, data);
    assert(hash@.subrange(0, 64) =~= hash@);
    Base::from_uniform_bytes(&crate::bytes::take::<64>(hash.as_slice(), 0))
}

/// Hashes bytes to a scalar.
pub(crate) fn to_scalar(personal: &str, data: &[u8]) -> (r: Scalar)
    requires
        is_personalization(personal@),
    ensures
        r@ == hash_to_scalar(personal@, data@),
{
    let hash = blake2b(personal, 64, data);
    assert(hash@.subrange(0, 64) =~= hash@);
    Scalar::from_uniform_bytes(&crate::bytes::take::<64>(hash.as_slice(), 0))
}

/// Hashes bytes to 32 bytes.
pub(crate) fn to_bytes32(personal: &str, data: &[u8]) -> (r: [u8; 32])
    requires
        is_personalization(personal@),
    ensures
        r@ == blake2b_hash(personal@, 32, data@),
{
    let hash = blake2b(personal, 32, data);
    assert(hash@.subrange(0, 32) =~= hash@);
    crate::bytes::take::<32>(hash.as_slice(), 0)
}

} // verus!
