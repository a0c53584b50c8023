//! Keys, addresses, notes, memos and note encryption.
use gradido_blockchain_zk::address::{decode, encode, AddressError, HRP};
use gradido_blockchain_zk::keys::{commit_ivk, diversify_hash, Address, FullViewingKey, SpendingKey};
use gradido_blockchain_zk::memo::{commit, open, pad, seal, verify};
use gradido_blockchain_zk::note::{
    creation_rho, from_parts, pack_amount, pack_meta, NoteError, NoteKind, RandomSeed, EXPIRY_LIMIT, TIMESTAMP_LIMIT,
    VALUE_LIMIT,
};
use gradido_blockchain_zk::note_encryption::{
    decrypt, encrypt, note_address, recover, EncryptedNote, GradidoDomain, NoteWithSeed, OutgoingFiller, FREE_MEMO_SIZE,
};
use gradido_blockchain_zk::pallas::{Base, Point, Scalar};
use gradido_blockchain_zk::signature::value_commitment;
use rand::rngs::StdRng;
use rand::{RngCore, SeedableRng};

fn bytes32(rng: &mut StdRng) -> [u8; 32] {
    let mut out = [0u8; 32];
    rng.fill_bytes(&mut out);
    out
}

fn bytes64(rng: &mut StdRng) -> [u8; 64] {
    let mut out = [0u8; 64];
    rng.fill_bytes(&mut out);
    out
}

fn random_base(rng: &mut StdRng) -> Base {
    Base::from_uniform_bytes(&bytes64(rng))
}

fn random_scalar(rng: &mut StdRng) -> Scalar {
    Scalar::from_uniform_bytes(&bytes64(rng))
}

// ------------------------------------------------------------------------------- keys

fn key() -> SpendingKey {
    SpendingKey::from_bytes([7u8; 32])
}

#[test]
fn derivation_is_deterministic() {
    let a = key().full_viewing_key();
    let b = key().full_viewing_key();
    assert_eq!(a.ak, b.ak);
    assert_eq!(a.nk, b.nk);
    assert_eq!(a.ivk, b.ivk);
    assert_eq!(a.rivk, b.rivk);
    assert_eq!(commit_ivk(a.ak, a.nk, a.rivk), Some(a.ivk));
    assert_eq!(a.ovk, b.ovk);
}

#[test]
fn different_keys_differ() {
    let mut rng = StdRng::seed_from_u64(1);
    let one = SpendingKey::random(bytes32(&mut rng)).full_viewing_key();
    let two = SpendingKey::random(bytes32(&mut rng)).full_viewing_key();
    assert_ne!(one.ivk, two.ivk);
    assert_ne!(one.default_address(), two.default_address());
}

#[test]
fn address_is_pk_d_of_ivk() {
    let fvk = key().full_viewing_key();
    let address = fvk.address([3u8; 11]);
    assert_eq!(address.pk_d, diversify_hash(&[3u8; 11]).times(&fvk.ivk));
    assert!(fvk.owns(&address));
}

#[test]
fn diversifiers_give_unlinkable_addresses() {
    let fvk = key().full_viewing_key();
    assert_ne!(fvk.address([1u8; 11]), fvk.address([2u8; 11]));
    // ... but the owner recognises both
    assert!(fvk.owns(&fvk.address([1u8; 11])));
    assert!(fvk.owns(&fvk.address([2u8; 11])));
    let other = SpendingKey::from_bytes([8u8; 32]).full_viewing_key();
    assert!(!other.owns(&fvk.address([1u8; 11])));
}

#[test]
fn creation_addresses_change_every_month() {
    let fvk = key().full_viewing_key();
    let march = fvk.creation_address(2026, 3).unwrap();
    let april = fvk.creation_address(2026, 4).unwrap();
    assert_ne!(march, april);
    assert_eq!(march, fvk.creation_address(2026, 3).unwrap());
    assert!(fvk.owns(&march) && fvk.owns(&april));
    // a different account gets a different address for the same month
    let other = SpendingKey::from_bytes([8u8; 32]).full_viewing_key();
    assert_ne!(other.creation_address(2026, 3).unwrap(), march);
    // no aliasing between December and the January after it
    assert_ne!(fvk.creation_address(2026, 12), fvk.creation_address(2027, 0));
    assert!(fvk.creation_address(2027, 0).is_none() && fvk.creation_address(2026, 13).is_none());
}

#[test]
fn viewing_key_round_trip() {
    let fvk = key().full_viewing_key();
    let decoded = FullViewingKey::from_bytes(&fvk.to_bytes()).unwrap();
    assert_eq!(decoded.ivk, fvk.ivk);
    assert_eq!(decoded.default_address(), fvk.default_address());
    let mut broken = fvk.to_bytes();
    broken[..32].copy_from_slice(&[0u8; 32]);
    assert!(FullViewingKey::from_bytes(&broken).is_none(), "identity ak");
    let mut broken = fvk.to_bytes();
    broken[32..64].copy_from_slice(&[0xff; 32]);
    assert!(FullViewingKey::from_bytes(&broken).is_none(), "non-canonical nk");
}

#[test]
fn raw_encoding_round_trip() {
    let address = key().full_viewing_key().default_address();
    assert_eq!(Address::from_raw(&address.to_raw()), Some(address));
    // neither the identity nor bytes off the curve are an address
    let mut raw = address.to_raw();
    raw[11..].copy_from_slice(&[0u8; 32]);
    assert_eq!(Address::from_raw(&raw), None);
    raw[11..].copy_from_slice(&[0xff; 32]);
    assert_eq!(Address::from_raw(&raw), None);
}

#[test]
fn both_ways_to_a_viewing_key_agree() {
    let a = key().full_viewing_key();
    let b = key().try_full_viewing_key().expect("the first candidate works");
    assert_eq!(a.to_bytes(), b.to_bytes());
    assert_eq!(SpendingKey::from_bytes(key().to_bytes()).to_bytes(), [7u8; 32]);
    assert_eq!(commit_ivk(Point::identity(), a.nk, a.rivk), None);
}

// ------------------------------------------------------------------------------- addresses

fn sample_address() -> (Address, [u8; 16]) {
    let fvk = SpendingKey::from_bytes([9u8; 32]).full_viewing_key();
    (fvk.address([4u8; 11]), [0xab; 16])
}

#[test]
fn round_trip() {
    let (address, community) = sample_address();
    let encoded = encode(&address, &community);
    assert!(encoded.starts_with("gdd1"));
    assert_eq!(decode(&encoded), Ok((address, community)));
    assert_eq!(decode(&encoded.to_uppercase()), Ok((address, community)));
}

#[test]
fn every_single_character_typo_is_caught() {
    let (address, community) = sample_address();
    let encoded = encode(&address, &community);
    let alphabet = "qpzry9x8gf2tvdw0s3jn54khce6mua7l";
    let mut checked = 0;
    for (i, original) in encoded.char_indices().skip(HRP.len() + 1) {
        for replacement in alphabet.chars() {
            if replacement == original {
                continue;
            }
            let mut typo: Vec<char> = encoded.chars().collect();
            typo[i] = replacement;
            let typo: String = typo.into_iter().collect();
            assert!(decode(&typo).is_err(), "typo at {i} slipped through: {typo}");
            checked += 1;
        }
    }
    assert!(checked > 1000, "only {checked} variants tested");
}

#[test]
fn a_swap_of_two_characters_is_caught() {
    let (address, community) = sample_address();
    let encoded = encode(&address, &community);
    let mut chars: Vec<char> = encoded.chars().collect();
    let (i, j) = (10, 30);
    assert_ne!(chars[i], chars[j]);
    chars.swap(i, j);
    assert!(decode(&chars.into_iter().collect::<String>()).is_err());
}

#[test]
fn wrong_prefix_is_rejected() {
    let (address, community) = sample_address();
    let encoded = encode(&address, &community);
    let other = encoded.replacen("gdd1", "zzz1", 1);
    assert!(decode(&other).is_err());
}

#[test]
fn addresses_of_the_same_key_look_unrelated() {
    let fvk = SpendingKey::from_bytes([9u8; 32]).full_viewing_key();
    let one = encode(&fvk.address([1u8; 11]), &[0; 16]);
    let two = encode(&fvk.address([2u8; 11]), &[0; 16]);
    let shared_prefix = one.chars().zip(two.chars()).take_while(|(a, b)| a == b).count();
    // only the human readable part and the separator may match
    assert!(shared_prefix <= HRP.len() + 2, "{shared_prefix} characters in common");
}

fn written(hrp: &str, data: &[u8]) -> String {
    bech32::encode::<bech32::Bech32m>(bech32::Hrp::parse(hrp).unwrap(), data).unwrap()
}

#[test]
fn each_address_error_has_its_reason() {
    let (address, _) = sample_address();
    assert_eq!(decode("not an address").unwrap_err(), AddressError::Bech32);
    assert_eq!(decode(&written("btc", &[0u8; 75])).unwrap_err(), AddressError::WrongHrp);
    assert_eq!(decode(&written("gdd", &[0u8; 74])).unwrap_err(), AddressError::Length);
    // padding that is not the human readable part
    let mut payload = address.to_raw().to_vec();
    payload.extend_from_slice(&[0xab; 16]);
    let mut wrong = payload.clone();
    wrong.extend_from_slice(&[0u8; 16]);
    assert_eq!(decode(&written("gdd", &f4jumble::f4jumble(&wrong).unwrap())).unwrap_err(), AddressError::Padding);
    // a transmission key off the curve
    let mut padded = payload.clone();
    padded.extend_from_slice(b"gdd");
    padded.extend_from_slice(&[0u8; 13]);
    let text = written("gdd", &f4jumble::f4jumble(&padded).unwrap());
    assert_eq!(decode(&text), Ok((address, [0xab; 16])));
    padded[11..43].copy_from_slice(&[0xff; 32]);
    let text = written("gdd", &f4jumble::f4jumble(&padded).unwrap());
    assert_eq!(decode(&text).unwrap_err(), AddressError::NotAPoint);
}

// ------------------------------------------------------------------------------- notes

fn note_error(value: u64, t_note: u64, expiry: u64, address: &Address) -> Option<NoteError> {
    let c = Base::from(1u64);
    from_parts(c, c, value, t_note, NoteKind::Normal, expiry, address, c, c, RandomSeed::from_bytes([3u8; 32])).err()
}

#[test]
fn a_note_has_to_fit_the_circuit() {
    let (address, _) = sample_address();
    assert_eq!(note_error(VALUE_LIMIT - 1, TIMESTAMP_LIMIT - 1, EXPIRY_LIMIT - 1, &address), None);
    assert_eq!(note_error(VALUE_LIMIT, 0, 0, &address), Some(NoteError::ValueTooLarge));
    assert_eq!(note_error(0, TIMESTAMP_LIMIT, 0, &address), Some(NoteError::TimestampTooLarge));
    assert_eq!(note_error(0, 0, EXPIRY_LIMIT, &address), Some(NoteError::ExpiryTooLarge));
    let nobody = Address { d: [1u8; 11], pk_d: Point::identity() };
    assert_eq!(note_error(0, 0, 0, &nobody), Some(NoteError::InvalidAddress));
}

#[test]
fn amounts_are_packed_in_bits() {
    assert_eq!(pack_amount(5, 3), Base::from_u128(5 + (3u128 << 63)));
    assert_eq!(pack_amount((1 << 63) - 1, 1), Base::from_u128(((1u128 << 63) - 1) + (1u128 << 63)));
    assert_eq!(pack_meta(NoteKind::Deferred, 6), Base::from(13u64));
    assert_eq!(pack_meta(NoteKind::Normal, 6), Base::from(12u64));
}

#[test]
fn commitment_and_nullifier_depend_on_every_part() {
    let (address, _) = sample_address();
    let c = Base::from(1u64);
    let seed = RandomSeed::from_bytes([3u8; 32]);
    let note = from_parts(c, c, 10, 20, NoteKind::Normal, 5, &address, c, c, seed).unwrap();
    let mut seen = vec![note.commitment()];
    for i in 0..6 {
        let mut other = note;
        match i {
            0 => other.value = 11,
            1 => other.t_note = 21,
            2 => other.kind = NoteKind::Deferred,
            3 => other.expiry_epoch = 6,
            4 => other.rho = Base::from(2u64),
            _ => other.memo_cm = Base::from(2u64),
        }
        assert!(!seen.contains(&other.commitment()));
        seen.push(other.commitment());
    }
    assert_ne!(note.nullifier(Base::from(5u64)), note.nullifier(Base::from(6u64)));
    assert_eq!(note.psi, seed.psi(c));
    assert_eq!(note.rcm, seed.rcm(c));
    assert_ne!(seed.esk(c), seed.esk(Base::from(2u64)));
    assert_ne!(creation_rho(c, 1), creation_rho(c, 2));
    assert_ne!(creation_rho(c, 1), creation_rho(Base::from(2u64), 1));
}

// ------------------------------------------------------------------------------- memos

fn sample_memo() -> ([u8; 32], [u8; 512], Base, [u8; 572]) {
    let mut rng = StdRng::seed_from_u64(21);
    let key = [0x5a; 32];
    let memo = pad(b"Gemeinwohlarbeit im Maerz, 12 Stunden").unwrap();
    let r_memo = random_base(&mut rng);
    let mut nonce = [0u8; 12];
    rng.fill_bytes(&mut nonce);
    let sealed = seal(&key, &memo, r_memo, nonce);
    (key, memo, r_memo, sealed)
}

#[test]
fn the_memo_key_opens_it_and_the_commitment_matches() {
    let (key, memo, r_memo, sealed) = sample_memo();
    let memo_cm = commit(&memo, r_memo);
    let (opened, r) = open(&key, &sealed).expect("opens");
    assert_eq!(opened, memo);
    assert_eq!(r, r_memo);
    assert!(verify(&opened, r, memo_cm));
}

#[test]
fn another_key_does_not_open_it() {
    let (_, _, _, sealed) = sample_memo();
    assert!(open(&[0x5b; 32], &sealed).is_none());
}

#[test]
fn tampering_is_caught() {
    let (key, _, _, mut sealed) = sample_memo();
    sealed[100] ^= 1;
    assert!(open(&key, &sealed).is_none());
}

/// The point of the whole construction: the text cannot be swapped afterwards.
#[test]
fn a_changed_text_no_longer_matches_the_note() {
    let (_, memo, r_memo, _) = sample_memo();
    let memo_cm = commit(&memo, r_memo);
    let forged = pad(b"Gemeinwohlarbeit im Maerz, 120 Stunden").unwrap();
    assert!(!verify(&forged, r_memo, memo_cm));
}

#[test]
fn the_commitment_hides_the_text() {
    let mut rng = StdRng::seed_from_u64(22);
    let memo = pad(b"ja").unwrap();
    let one = commit(&memo, random_base(&mut rng));
    let two = commit(&memo, random_base(&mut rng));
    assert_ne!(one, two, "different openings must give different commitments");
}

#[test]
fn every_memo_has_the_same_length() {
    let short = seal(&[1u8; 32], &pad(b"x").unwrap(), Base::one(), [1u8; 12]);
    let long = seal(&[1u8; 32], &pad(&[b'y'; 400]).unwrap(), Base::one(), [1u8; 12]);
    assert_eq!(short.len(), long.len());
    assert!(pad(&[0u8; 513]).is_none());
    assert!(pad(&[0u8; 512]).is_some());
    assert_eq!(&pad(b"abc").unwrap()[..5], &[97, 98, 99, 0, 0]);
}

// ------------------------------------------------------------------------------- encryption

struct Setup {
    domain: GradidoDomain,
    note: NoteWithSeed,
    memo: [u8; FREE_MEMO_SIZE],
    cv: Point,
    output: EncryptedNote,
    recipient_ivk: Scalar,
    sender_ovk: [u8; 32],
}

fn setup() -> Setup {
    let mut rng = StdRng::seed_from_u64(11);
    let recipient = SpendingKey::from_bytes([1u8; 32]).full_viewing_key();
    let sender = SpendingKey::from_bytes([2u8; 32]).full_viewing_key();
    let address = recipient.address([7u8; 11]);

    let domain = GradidoDomain {
        community: Base::from(42u64),
        coin_community: Base::from(42u64),
        rho: Base::from(999u64),
    };
    let rseed = RandomSeed::random(bytes32(&mut rng));
    let note = NoteWithSeed {
        note: from_parts(
            domain.community,
            domain.coin_community,
            1_000_0000,
            1_800_000_000,
            NoteKind::Normal,
            7,
            &address,
            domain.rho,
            Base::from(0x1234u64),
            rseed,
        )
        .unwrap(),
        rseed,
    };
    let mut memo = [0u8; FREE_MEMO_SIZE];
    memo[..9].copy_from_slice(b"thank you");
    let cv = value_commitment(1_000_0000, random_scalar(&mut rng));
    let filler = OutgoingFiller { key: bytes32(&mut rng), plaintext: bytes64(&mut rng) };
    let output = encrypt(domain, &note, memo, Some(sender.ovk), cv, &filler);
    Setup { domain, note, memo, cv, output, recipient_ivk: recipient.ivk, sender_ovk: sender.ovk }
}

#[test]
fn recipient_can_decrypt_and_rebuild_the_note() {
    let s = setup();
    let (note, address, memo) = decrypt(&s.domain, s.recipient_ivk, &s.output).expect("decrypts");
    // the rebuilt note is the very note the commitment was made over
    assert_eq!(note.note.commitment(), s.note.note.commitment());
    assert_eq!(note.note.value, s.note.note.value);
    assert_eq!(note.note.t_note, s.note.note.t_note);
    assert_eq!(note.note.memo_cm, s.note.note.memo_cm);
    assert_eq!(note.rseed, s.note.rseed);
    assert_eq!(address.pk_d, note_address(&s.note.note).pk_d);
    assert_eq!(&memo[..9], b"thank you");
}

#[test]
fn a_stranger_learns_nothing() {
    let s = setup();
    let stranger = SpendingKey::from_bytes([3u8; 32]).full_viewing_key();
    assert!(decrypt(&s.domain, stranger.ivk, &s.output).is_none());
}

#[test]
fn a_tampered_ciphertext_is_rejected() {
    let mut s = setup();
    s.output.enc_ciphertext[17] ^= 1;
    assert!(decrypt(&s.domain, s.recipient_ivk, &s.output).is_none());
}

#[test]
fn the_sender_can_recover_the_note_afterwards() {
    let s = setup();
    let (note, address, memo) = recover(&s.domain, &s.sender_ovk, s.cv, &s.output).expect("recovers");
    assert_eq!(note.note.commitment(), s.note.note.commitment());
    assert_eq!(address.pk_d, note_address(&s.note.note).pk_d);
    assert_eq!(memo, s.memo);
}

#[test]
fn another_sender_cannot_recover_it() {
    let s = setup();
    let other = SpendingKey::from_bytes([4u8; 32]).full_viewing_key();
    assert!(recover(&s.domain, &other.ovk, s.cv, &s.output).is_none());
}

/// `rho` comes from the transaction. Pairing a ciphertext with another action rebuilds a
/// note whose commitment does not match, and exactly that is rejected.
#[test]
fn a_ciphertext_paired_with_the_wrong_action_is_rejected() {
    let s = setup();
    let other_domain = GradidoDomain { rho: Base::from(1000u64), ..s.domain };
    assert!(decrypt(&other_domain, s.recipient_ivk, &s.output).is_none());
}

/// Without an outgoing viewing key nobody recovers the note, and the recipient still reads it.
#[test]
fn without_ovk_only_the_recipient_reads_it() {
    let s = setup();
    let filler = OutgoingFiller { key: [5u8; 32], plaintext: [6u8; 64] };
    let output = encrypt(s.domain, &s.note, s.memo, None, s.cv, &filler);
    assert!(decrypt(&s.domain, s.recipient_ivk, &output).is_some());
    assert!(recover(&s.domain, &s.sender_ovk, s.cv, &output).is_none());
    // only the outgoing part differs
    assert_eq!(output.enc_ciphertext, s.output.enc_ciphertext);
    assert_ne!(output.out_ciphertext, s.output.out_ciphertext);
}
