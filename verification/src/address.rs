//! Address encoding, following ZIP 316.
//!
//! ```text
//! payload = diversifier (11) || pk_d (32) || community id (16)
//!         || HRP padded to 16 bytes
//! address = bech32m(HRP, f4jumble(payload))
//! ```
//!
//! Three things guard against typos, in that order: the Bech32m checksum, the padding that has
//! to reappear after unjumbling, and the check that `pk_d` is a curve point. F4Jumble spreads
//! every change over the whole string, so an attacker cannot craft an address that matches
//! another one at the beginning and the end, the trick people use when they compare addresses
//! by eye.
use bech32::primitives::decode::CheckedHrpstring;
use bech32::{Bech32m, Hrp};
use vstd::prelude::*;

use crate::bytes::{append, same, take};
use crate::keys::{Address, AddressModel};

verus! {

broadcast use vstd::array::group_array_axioms;

pub const HRP: &'static str = "gdd";

/// diversifier, transmission key, community id
pub const PAYLOAD_LEN: usize = 59;

#[derive(Clone, Copy, Debug, PartialEq, Eq, Structural)]
pub enum AddressError {
    Bech32,
    WrongHrp,
    Length,
    Jumble,
    Padding,
    NotAPoint,
}

// ------------------------------------------------------------------------------ outside calls

/// What `f4jumble` makes of a message.
pub uninterp spec fn f4jumbled(message: Seq<u8>) -> Seq<u8>;

/// What `f4jumble_inv` makes of a message.
pub uninterp spec fn f4unjumbled(message: Seq<u8>) -> Seq<u8>;

/// What `bech32::encode` with the Bech32m checksum gives for a human readable part and data.
pub uninterp spec fn bech32m_encoded(hrp: Seq<char>, data: Seq<u8>) -> Seq<char>;

/// Human readable part and data of a string with a valid Bech32m checksum, as `bech32` reads
/// them.
pub uninterp spec fn bech32m_decoded(s: Seq<char>) -> Option<(Seq<u8>, Seq<u8>)>;

/// `f4jumble::f4jumble`, for a message of a length that it takes. It keeps the length, and
/// `f4jumble_inv` gives the message back.
#[verifier::external_body]
fn f4jumble(message: &[u8]) -> (r: Vec<u8>)
    requires
        38 <= message@.len() <= 4194368,
    ensures
        r@ == f4jumbled(message@),
        r@.len() == message@.len(),
        f4unjumbled(r@) == message@,
{
    f4jumble::f4jumble(message).unwrap()
}

/// `f4jumble::f4jumble_inv`, for a message of a length that it takes. It keeps the length.
#[verifier::external_body]
fn f4jumble_inv(message: &[u8]) -> (r: Vec<u8>)
    requires
        38 <= message@.len() <= 4194368,
    ensures
        r@ == f4unjumbled(message@),
        r@.len() == message@.len(),
{
    f4jumble::f4jumble_inv(message).unwrap()
}

/// A character of the data part, in lower case.
pub open spec fn is_data_character(c: char) -> bool {
    &&& 'a' <= c <= 'z' || '0' <= c <= '9'
    &&& c != '1' && c != 'b' && c != 'i' && c != 'o'
}

/// `bech32::encode::<Bech32m>`, for a lower case human readable part and data that is short
/// enough for the checksum. The text is the human readable part, the separator and data
/// characters. Decoding gives both back. With another data character in one place the text has no
/// valid checksum: the residue that the checksum is compared by is linear, and each further
/// character carries a difference on.
#[verifier::external_body]
fn bech32m_encode(hrp: &str, data: &[u8]) -> (r: String)
    requires
        1 <= hrp@.len() <= 83,
        forall|i: int| 0 <= i < hrp@.len() ==> 'a' <= #[trigger] hrp@[i] <= 'z',
        data@.len() <= 500,
    ensures
        r@ == bech32m_encoded(hrp@, data@),
        bech32m_decoded(r@) == Some((crate::bytes::ascii(hrp@), data@)),
        hrp@.len() < r@.len(),
        r@.take(hrp@.len() as int + 1) == hrp@.push('1'),
        forall|i: int| hrp@.len() < i < r@.len() ==> is_data_character(#[trigger] r@[i]),
        forall|i: int, c: char|
            hrp@.len() < i < r@.len() && is_data_character(c) && c != r@[i]
                ==> #[trigger] bech32m_decoded(r@.update(i, c)) is None,
{
    bech32::encode::<Bech32m>(Hrp::parse_unchecked(hrp), data).unwrap()
}

/// `CheckedHrpstring::new::<Bech32m>` of `bech32`, its human readable part and its data bytes.
/// The human readable part is the ASCII text before a separator.
#[verifier::external_body]
fn bech32m_decode(s: &str) -> (r: Option<(Vec<u8>, Vec<u8>)>)
    ensures
        r is None ==> bech32m_decoded(s@) is None,
        r matches Some(p) ==> bech32m_decoded(s@) == Some((p.0@, p.1@)),
        r matches Some(p) ==> p.0@.len() < s@.len() && s@[p.0@.len() as int] == '1' && p.0@
            == crate::bytes::ascii(s@.take(p.0@.len() as int)),
{
    let checked = CheckedHrpstring::new::<Bech32m>(s).ok()?;
    Some((checked.hrp().as_bytes().to_vec(), checked.byte_iter().collect()))
}

// ------------------------------------------------------------------------------------- model

/// The human readable part, padded to 16 bytes.
pub open spec fn hrp_padding() -> Seq<u8> {
    crate::bytes::ascii(HRP@) + crate::bytes::zeros(13)
}

/// Address, community and padding.
pub open spec fn address_payload(address: AddressModel, community_id: Seq<u8>) -> Seq<u8> {
    address.raw() + community_id + hrp_padding()
}

/// The encoding of an address.
pub open spec fn encoded_address(address: AddressModel, community_id: Seq<u8>) -> Seq<char> {
    bech32m_encoded(HRP@, f4jumbled(address_payload(address, community_id)))
}

/// An ASCII letter in lower case, any other byte as it is.
pub open spec fn lower(b: u8) -> u8 {
    if 65 <= b <= 90 {
        (b + 32) as u8
    } else {
        b
    }
}

/// Whether two byte strings are equal but for the case of ASCII letters.
pub open spec fn equal_ignoring_case(a: Seq<u8>, b: Seq<u8>) -> bool {
    a.map_values(|x: u8| lower(x)) == b.map_values(|x: u8| lower(x))
}

/// Whether a text starts with the human readable part, in either case, and the separator.
pub open spec fn has_prefix(s: Seq<char>) -> bool {
    &&& s.len() > 3
    &&& equal_ignoring_case(crate::bytes::ascii(s.take(3)), crate::bytes::ascii(HRP@))
    &&& s[3] == '1'
}

/// What a string stands for.
pub open spec fn decoded_address(s: Seq<char>) -> Result<(AddressModel, Seq<u8>), AddressError> {
    match bech32m_decoded(s) {
        None => Err(AddressError::Bech32),
        Some(parts) => {
            let payload = f4unjumbled(parts.1);
            if !equal_ignoring_case(parts.0, crate::bytes::ascii(HRP@)) {
                Err(AddressError::WrongHrp)
            } else if parts.1.len() != 75 {
                Err(AddressError::Length)
            } else if payload.subrange(59, 75) != hrp_padding() {
                Err(AddressError::Padding)
            } else {
                match crate::keys::address_of_raw(payload.subrange(0, 43)) {
                    None => Err(AddressError::NotAPoint),
                    Some(address) => Ok((address, payload.subrange(43, 59))),
                }
            }
        },
    }
}

// ---------------------------------------------------------------------------------- functions

fn padding() -> (r: [u8; 16])
    ensures
        r@ == hrp_padding(),
{
    let r: [u8; 16] = [103, 100, 100, 0, 0, 0, 0, 0, 0, 0, 0, 0, 0, 0, 0, 0];
    proof {
        reveal_strlit("gdd");
        assert(r@ =~= hrp_padding());
    }
    r
}

/// An ASCII letter in lower case, any other byte as it is.
fn to_lower(b: u8) -> (r: u8)
    ensures
        r == lower(b),
{
    if 65 <= b && b <= 90 {
        b + 32
    } else {
        b
    }
}

/// Whether the bytes are the human readable part, in either case.
fn is_hrp(bytes: &[u8]) -> (r: bool)
    ensures
        r == equal_ignoring_case(bytes@, crate::bytes::ascii(HRP@)),
{
    let ghost a = bytes@.map_values(|x: u8| lower(x));
    let ghost b = crate::bytes::ascii(HRP@).map_values(|x: u8| lower(x));
    proof {
        reveal_strlit("gdd");
        assert(b =~= seq![103u8, 100u8, 100u8]);
    }
    if bytes.len() != 3 {
        assert(a.len() != b.len());
        return false;
    }
    let r = to_lower(bytes[0]) == 103 && to_lower(bytes[1]) == 100 && to_lower(bytes[2]) == 100;
    proof {
        assert(a[0] == lower(bytes@[0]) && a[1] == lower(bytes@[1]) && a[2] == lower(bytes@[2]));
        assert(b[0] == 103 && b[1] == 100 && b[2] == 100);
        if r {
            assert(a =~= b);
        }
    }
    r
}

/// Encodes an address of one community. Decoding gives address and community back, unless the
/// transmission key is the identity, which is no address. The text starts with the human readable
/// part and the separator, and a text with one of the characters behind them replaced is refused.
pub fn encode(address: &Address, community_id: &[u8; 16]) -> (r: String)
    ensures
        r@ == encoded_address(address@, community_id@),
        address@.pk_d != 0 ==> decoded_address(r@) == Ok::<(AddressModel, Seq<u8>), AddressError>(
            (address@, community_id@),
        ),
        r@.len() >= 4,
        r@.take(4) == HRP@.push('1'),
        forall|i: int| 4 <= i < r@.len() ==> is_data_character(#[trigger] r@[i]),
        forall|i: int, c: char|
            4 <= i < r@.len() && is_data_character(c) && c != r@[i] ==> #[trigger] decoded_address(
                r@.update(i, c),
            ) == Err::<(AddressModel, Seq<u8>), AddressError>(AddressError::Bech32),
{
    let mut payload: Vec<u8> = Vec::new();
    append(&mut payload, address.to_raw().as_slice());
    append(&mut payload, community_id.as_slice());
    append(&mut payload, padding().as_slice());
    assert(payload@ =~= address_payload(address@, community_id@));
    let jumbled = f4jumble(payload.as_slice());
    proof {
        reveal_strlit("gdd");
        use_type_invariant(&address.pk_d);
        crate::pallas::lemma_encoding_length(address@.pk_d);
        let p = payload@;
        assert(p.subrange(0, 43) =~= address@.raw());
        assert(p.subrange(43, 59) =~= community_id@);
        assert(p.subrange(59, 75) =~= hrp_padding());
        if address@.pk_d != 0 {
            crate::keys::address_survives_raw_encoding(*address);
        }
    }
    bech32m_encode(HRP, jumbled.as_slice())
}

/// Decodes an address, checking the checksum, the padding and the curve point. A text with
/// another prefix is refused.
pub fn decode(s: &str) -> (r: Result<(Address, [u8; 16]), AddressError>)
    ensures
        r matches Err(e) ==> decoded_address(s@) == Err::<(AddressModel, Seq<u8>), AddressError>(e),
        r matches Ok(a) ==> decoded_address(s@) == Ok::<(AddressModel, Seq<u8>), AddressError>(
            (a.0@, a.1@),
        ),
        r is Ok ==> has_prefix(s@),
{
    let (hrp, jumbled) = match bech32m_decode(s) {
        Some(parts) => parts,
        None => return Err(AddressError::Bech32),
    };
    if !is_hrp(hrp.as_slice()) {
        return Err(AddressError::WrongHrp);
    }
    proof {
        reveal_strlit("gdd");
        let a = hrp@.map_values(|x: u8| lower(x));
        let b = crate::bytes::ascii(HRP@).map_values(|x: u8| lower(x));
        assert(a.len() == b.len());
    }
    if jumbled.len() != 75 {
        return Err(AddressError::Length);
    }
    let payload = f4jumble_inv(jumbled.as_slice());
    if !same(take::<16>(payload.as_slice(), 59).as_slice(), padding().as_slice()) {
        return Err(AddressError::Padding);
    }
    match Address::from_raw(&take::<43>(payload.as_slice(), 0)) {
        Some(address) => Ok((address, take::<16>(payload.as_slice(), 43))),
        None => Err(AddressError::NotAPoint),
    }
}

// --------------------------------------------------------------------------------------- laws

/// What is accepted as an address is the encoding of that address: the payload of the text is
/// diversifier, transmission key and community as decoded, followed by the human readable part
/// and zeros.
pub proof fn a_decoded_address_has_its_payload(s: Seq<char>)
    ensures
        decoded_address(s) matches Ok((address, community_id)) ==> {
            let (hrp, data) = bech32m_decoded(s)->0;
            let payload = f4unjumbled(data);
            &&& bech32m_decoded(s) is Some
            &&& data.len() == 75
            &&& payload.len() == 75 ==> payload == address.d + crate::pallas::encode_point(
                address.pk_d,
            ) + community_id + seq![103u8, 100u8, 100u8] + crate::bytes::zeros(13)
            &&& address.pk_d != 0
            &&& has_prefix_bytes(hrp)
        },
{
    reveal_strlit("gdd");
    if let Ok((address, community_id)) = decoded_address(s) {
        let (hrp, data) = bech32m_decoded(s)->0;
        let payload = f4unjumbled(data);
        assert(crate::bytes::ascii(HRP@) =~= seq![103u8, 100u8, 100u8]);
        assert(crate::bytes::ascii(HRP@).map_values(|x: u8| lower(x)) =~= seq![
            103u8,
            100u8,
            100u8,
        ]);
        if payload.len() == 75 {
            let raw = payload.subrange(0, 43);
            crate::keys::address_has_one_raw_encoding(raw);
            assert(payload =~= raw + payload.subrange(43, 59) + payload.subrange(59, 75));
            assert(hrp_padding() =~= seq![103u8, 100u8, 100u8] + crate::bytes::zeros(13));
            assert(payload =~= address.d + crate::pallas::encode_point(address.pk_d) + community_id
                + seq![103u8, 100u8, 100u8] + crate::bytes::zeros(13));
        }
    }
}

/// The letters g, d, d in either case.
pub open spec fn has_prefix_bytes(hrp: Seq<u8>) -> bool {
    hrp.map_values(|x: u8| lower(x)) == seq![103u8, 100u8, 100u8]
}

/// Two addresses, or one address in two communities, are encoded from different payloads, which
/// are returned.
pub proof fn addresses_are_encoded_apart(
    a: AddressModel,
    community_a: Seq<u8>,
    b: AddressModel,
    community_b: Seq<u8>,
) -> (r: (Seq<u8>, Seq<u8>))
    requires
        a.d.len() == 11,
        b.d.len() == 11,
        community_a.len() == 16,
        community_b.len() == 16,
    ensures
        encoded_address(a, community_a) == bech32m_encoded("gdd"@, f4jumbled(r.0)),
        encoded_address(b, community_b) == bech32m_encoded("gdd"@, f4jumbled(r.1)),
        r.0.len() == 75 && r.1.len() == 75,
        r.0 == r.1 ==> a.d == b.d && crate::pallas::encode_point(a.pk_d)
            == crate::pallas::encode_point(b.pk_d) && community_a == community_b,
{
    reveal_strlit("gdd");
    let x = address_payload(a, community_a);
    let y = address_payload(b, community_b);
    crate::pallas::lemma_encoding_length(a.pk_d);
    crate::pallas::lemma_encoding_length(b.pk_d);
    if x == y {
        assert(x.subrange(0, 11) =~= a.d && y.subrange(0, 11) =~= b.d);
        assert(x.subrange(11, 43) =~= crate::pallas::encode_point(a.pk_d));
        assert(y.subrange(11, 43) =~= crate::pallas::encode_point(b.pk_d));
        assert(x.subrange(43, 59) =~= community_a && y.subrange(43, 59) =~= community_b);
    }
    (x, y)
}

/// A text that is no address is refused for the first thing that is wrong: the checksum, the human
/// readable part, the length, the padding, and last the transmission key.
pub proof fn a_refused_text_has_its_cause(s: Seq<char>)
    ensures
        match bech32m_decoded(s) {
            None => decoded_address(s) == Err::<(AddressModel, Seq<u8>), AddressError>(
                AddressError::Bech32,
            ),
            Some((hrp, data)) => {
                let payload = f4unjumbled(data);
                let named = has_prefix_bytes(hrp);
                let sized = named && data.len() == 75;
                let padded = sized && payload.subrange(59, 75) == seq![103u8, 100u8, 100u8]
                    + crate::bytes::zeros(13);
                let keyed = crate::pallas::decode_point(
                    payload.subrange(0, 43).subrange(11, 43),
                ) matches Some(k) && k != 0;
                let r = decoded_address(s);
                &&& r matches Err(AddressError::WrongHrp) ==> !named
                &&& r matches Err(AddressError::Length) ==> named && !sized
                &&& r matches Err(AddressError::Padding) ==> sized && !padded
                &&& r matches Err(AddressError::NotAPoint) ==> padded && !keyed
                &&& !(r matches Err(AddressError::Bech32))
                &&& !(r matches Err(AddressError::Jumble))
                &&& r is Ok <==> padded && keyed
            },
        },
{
    reveal_strlit("gdd");
    assert(crate::bytes::ascii(HRP@) =~= seq![103u8, 100u8, 100u8]);
    assert(crate::bytes::ascii(HRP@).map_values(|x: u8| lower(x)) =~= seq![103u8, 100u8, 100u8]);
    assert(hrp_padding() =~= seq![103u8, 100u8, 100u8] + crate::bytes::zeros(13));
}

} // verus!
