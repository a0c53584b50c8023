//! The note encryption against `zcash_note_encryption` itself, with a domain written for it here.
use ff::PrimeField;
use gradido_blockchain_zk::keys::{diversify_hash, Address, SpendingKey};
use gradido_blockchain_zk::note::{from_parts, Note, NoteKind, RandomSeed};
use gradido_blockchain_zk::note_encryption::{
    decrypt, encrypt, recover, EncryptedNote, GradidoDomain, NoteWithSeed, OutgoingFiller, FREE_MEMO_SIZE,
};
use gradido_blockchain_zk::pallas::{Base, Point, Scalar};
use gradido_blockchain_zk::signature::value_commitment;
use group::prime::PrimeCurveAffine;
use group::{Curve, Group, GroupEncoding};
use pasta_curves::pallas as outside;
use rand::rngs::StdRng;
use rand::{RngCore, SeedableRng};
use zcash_note_encryption::{
    try_note_decryption, try_output_recovery_with_ovk, Domain, EphemeralKeyBytes, NoteEncryption, NotePlaintextBytes,
    OutPlaintextBytes, OutgoingCipherKey, ShieldedOutput, ENC_CIPHERTEXT_SIZE, NOTE_PLAINTEXT_SIZE, OUT_PLAINTEXT_SIZE,
};

fn to_affine(p: &Point) -> outside::Affine {
    outside::Affine::from_bytes(&p.to_bytes()).unwrap()
}

fn from_affine(p: &outside::Affine) -> Point {
    Point::from_bytes(&p.to_bytes()).unwrap()
}

fn to_scalar(s: &Scalar) -> outside::Scalar {
    outside::Scalar::from_repr(s.to_repr()).unwrap()
}

fn blake(personal: &[u8; 16], parts: &[&[u8]]) -> [u8; 32] {
    let mut state = blake2b_simd::Params::new().hash_length(32).personal(personal).to_state();
    for part in parts {
        state.update(part);
    }
    let mut out = [0u8; 32];
    out.copy_from_slice(state.finalize().as_bytes());
    out
}

/// The commitment as the outside crate wants it.
#[derive(Clone, Copy, PartialEq, Eq)]
struct Commitment([u8; 32]);

impl From<&Base> for Commitment {
    fn from(b: &Base) -> Self {
        Commitment(b.to_repr())
    }
}

struct TestDomain(GradidoDomain);

struct TestOutput(EncryptedNote);

impl ShieldedOutput<TestDomain, ENC_CIPHERTEXT_SIZE> for TestOutput {
    fn ephemeral_key(&self) -> EphemeralKeyBytes {
        EphemeralKeyBytes(self.0.epk_bytes)
    }
    fn cmstar_bytes(&self) -> Commitment {
        Commitment(self.0.cm.to_repr())
    }
    fn enc_ciphertext(&self) -> &[u8; ENC_CIPHERTEXT_SIZE] {
        &self.0.enc_ciphertext
    }
}

fn diversifier(note: &Note) -> [u8; 11] {
    let mut d = [0u8; 11];
    d.copy_from_slice(&note.d.to_le_bytes()[..11]);
    d
}

impl TestDomain {
    fn parse(&self, plaintext: &[u8], pk_d: &outside::Affine) -> Option<(NoteWithSeed, Address)> {
        if plaintext.len() < NOTE_PLAINTEXT_SIZE || plaintext[0] != 1 {
            return None;
        }
        let d: [u8; 11] = plaintext[1..12].try_into().unwrap();
        let value = u64::from_le_bytes(plaintext[12..20].try_into().unwrap());
        let rseed = RandomSeed::from_bytes(plaintext[20..52].try_into().unwrap());
        let t_note = u64::from_le_bytes(plaintext[52..60].try_into().unwrap());
        let kind = match plaintext[60] {
            0 => NoteKind::Normal,
            1 => NoteKind::Deferred,
            _ => return None,
        };
        let expiry = u64::from_le_bytes(plaintext[61..69].try_into().unwrap());
        let memo_cm = Base::from_repr(&plaintext[69..101].try_into().unwrap())?;
        let address = Address { d, pk_d: from_affine(pk_d) };
        let g = &self.0;
        let note =
            from_parts(g.community, g.coin_community, value, t_note, kind, expiry, &address, g.rho, memo_cm, rseed).ok()?;
        Some((NoteWithSeed { note, rseed }, address))
    }
}

impl Domain for TestDomain {
    type EphemeralSecretKey = outside::Scalar;
    type EphemeralPublicKey = outside::Point;
    type PreparedEphemeralPublicKey = outside::Point;
    type SharedSecret = outside::Point;
    type SymmetricKey = [u8; 32];
    type Note = NoteWithSeed;
    type Recipient = Address;
    type DiversifiedTransmissionKey = outside::Affine;
    type IncomingViewingKey = outside::Scalar;
    type OutgoingViewingKey = [u8; 32];
    type ValueCommitment = outside::Affine;
    type ExtractedCommitment = Base;
    type ExtractedCommitmentBytes = Commitment;
    type Memo = [u8; FREE_MEMO_SIZE];

    fn derive_esk(note: &NoteWithSeed) -> Option<outside::Scalar> {
        Some(to_scalar(&note.rseed.esk(note.note.rho)))
    }

    fn get_pk_d(note: &NoteWithSeed) -> outside::Affine {
        to_affine(&Point::from_xy(&note.note.pk_d_x, &note.note.pk_d_y).unwrap())
    }

    fn prepare_epk(epk: outside::Point) -> outside::Point {
        epk
    }

    fn ka_derive_public(note: &NoteWithSeed, esk: &outside::Scalar) -> outside::Point {
        outside::Point::from(to_affine(&diversify_hash(&diversifier(&note.note)))) * esk
    }

    fn ka_agree_enc(esk: &outside::Scalar, pk_d: &outside::Affine) -> outside::Point {
        outside::Point::from(*pk_d) * esk
    }

    fn ka_agree_dec(ivk: &outside::Scalar, epk: &outside::Point) -> outside::Point {
        epk * ivk
    }

    fn kdf(secret: outside::Point, ephemeral_key: &EphemeralKeyBytes) -> [u8; 32] {
        blake(b"Gradido_KDF_____", &[&secret.to_affine().to_bytes(), &ephemeral_key.0])
    }

    fn note_plaintext_bytes(note: &NoteWithSeed, memo: &[u8; FREE_MEMO_SIZE]) -> NotePlaintextBytes {
        let n = &note.note;
        let mut plaintext = [0u8; NOTE_PLAINTEXT_SIZE];
        plaintext[0] = 1;
        plaintext[1..12].copy_from_slice(&diversifier(n));
        plaintext[12..20].copy_from_slice(&n.value.to_le_bytes());
        plaintext[20..52].copy_from_slice(&note.rseed.to_bytes());
        plaintext[52..60].copy_from_slice(&n.t_note.to_le_bytes());
        plaintext[60] = n.kind.to_u8();
        plaintext[61..69].copy_from_slice(&n.expiry_epoch.to_le_bytes());
        plaintext[69..101].copy_from_slice(&n.memo_cm.to_repr());
        plaintext[101..].copy_from_slice(memo);
        NotePlaintextBytes(plaintext)
    }

    fn derive_ock(
        ovk: &[u8; 32],
        cv: &outside::Affine,
        cmstar_bytes: &Commitment,
        ephemeral_key: &EphemeralKeyBytes,
    ) -> OutgoingCipherKey {
        OutgoingCipherKey(blake(b"Gradido_Derive_o", &[ovk, &cv.to_bytes(), &cmstar_bytes.0, &ephemeral_key.0]))
    }

    fn outgoing_plaintext_bytes(note: &NoteWithSeed, esk: &outside::Scalar) -> OutPlaintextBytes {
        let mut out = [0u8; OUT_PLAINTEXT_SIZE];
        out[..32].copy_from_slice(&Self::get_pk_d(note).to_bytes());
        out[32..].copy_from_slice(&esk.to_repr());
        OutPlaintextBytes(out)
    }

    fn epk_bytes(epk: &outside::Point) -> EphemeralKeyBytes {
        EphemeralKeyBytes(epk.to_affine().to_bytes())
    }

    fn epk(ephemeral_key: &EphemeralKeyBytes) -> Option<outside::Point> {
        let epk = Option::<outside::Point>::from(outside::Point::from_bytes(&ephemeral_key.0))?;
        if bool::from(epk.is_identity()) {
            None
        } else {
            Some(epk)
        }
    }

    fn cmstar(note: &NoteWithSeed) -> Base {
        note.note.commitment()
    }

    fn parse_note_plaintext_without_memo_ivk(
        &self,
        ivk: &outside::Scalar,
        plaintext: &[u8],
    ) -> Option<(NoteWithSeed, Address)> {
        let d: [u8; 11] = plaintext[1..12].try_into().unwrap();
        self.parse(plaintext, &(outside::Point::from(to_affine(&diversify_hash(&d))) * ivk).to_affine())
    }

    fn parse_note_plaintext_without_memo_ovk(
        &self,
        pk_d: &outside::Affine,
        plaintext: &NotePlaintextBytes,
    ) -> Option<(NoteWithSeed, Address)> {
        self.parse(&plaintext.0, pk_d)
    }

    fn extract_memo(&self, plaintext: &NotePlaintextBytes) -> [u8; FREE_MEMO_SIZE] {
        plaintext.0[101..].try_into().unwrap()
    }

    fn extract_pk_d(out_plaintext: &OutPlaintextBytes) -> Option<outside::Affine> {
        let bytes: [u8; 32] = out_plaintext.0[..32].try_into().unwrap();
        let pk_d = Option::<outside::Affine>::from(outside::Affine::from_bytes(&bytes))?;
        if bool::from(pk_d.is_identity()) {
            None
        } else {
            Some(pk_d)
        }
    }

    fn extract_esk(out_plaintext: &OutPlaintextBytes) -> Option<outside::Scalar> {
        let bytes: [u8; 32] = out_plaintext.0[32..].try_into().unwrap();
        Option::from(outside::Scalar::from_repr(bytes))
    }
}

struct Sample {
    domain: GradidoDomain,
    note: NoteWithSeed,
    memo: [u8; FREE_MEMO_SIZE],
    cv: Point,
    ivk: Scalar,
    ovk: [u8; 32],
}

fn sample(seed: u64) -> Sample {
    let mut rng = StdRng::seed_from_u64(seed);
    let mut bytes = [0u8; 32];
    rng.fill_bytes(&mut bytes);
    let recipient = SpendingKey::from_bytes(bytes).full_viewing_key();
    rng.fill_bytes(&mut bytes);
    let sender = SpendingKey::from_bytes(bytes).full_viewing_key();
    let domain =
        GradidoDomain { community: Base::from(rng.next_u64()), coin_community: Base::from(9u64), rho: Base::from(seed) };
    rng.fill_bytes(&mut bytes);
    let rseed = RandomSeed::from_bytes(bytes);
    let mut memo = [0u8; FREE_MEMO_SIZE];
    rng.fill_bytes(&mut memo);
    let kind = if seed % 2 == 0 { NoteKind::Normal } else { NoteKind::Deferred };
    let note = from_parts(
        domain.community,
        domain.coin_community,
        rng.next_u64() >> 1,
        rng.next_u64() >> 24,
        kind,
        rng.next_u64() >> 48,
        &recipient.address([seed as u8; 11]),
        domain.rho,
        Base::from(rng.next_u64()),
        rseed,
    )
    .unwrap();
    Sample {
        domain,
        note: NoteWithSeed { note, rseed },
        memo,
        cv: value_commitment(5, Scalar::from_u64(rng.next_u64())),
        ivk: recipient.ivk,
        ovk: sender.ovk,
    }
}

const FILLER: OutgoingFiller = OutgoingFiller { key: [0u8; 32], plaintext: [0u8; 64] };

/// The same bytes, bit for bit.
#[test]
fn encryption_matches_the_outside_crate() {
    for seed in 0..6 {
        let s = sample(seed);
        let ours = encrypt(s.domain, &s.note, s.memo, Some(s.ovk), s.cv, &FILLER);
        let theirs = NoteEncryption::<TestDomain>::new(Some(s.ovk), s.note, s.memo);
        assert_eq!(ours.enc_ciphertext, theirs.encrypt_note_plaintext());
        assert_eq!(ours.epk_bytes, TestDomain::epk_bytes(theirs.epk()).0);
        assert_eq!(ours.cm, s.note.note.commitment());
        let mut rng = StdRng::seed_from_u64(1);
        assert_eq!(
            ours.out_ciphertext,
            theirs.encrypt_outgoing_plaintext(&to_affine(&s.cv), &ours.cm, &mut rng)
        );
    }
}

/// Without an outgoing viewing key the random key and plaintext are drawn in the same order.
#[test]
fn a_filler_matches_the_outside_crate() {
    let s = sample(7);
    let theirs = NoteEncryption::<TestDomain>::new(None, s.note, s.memo);
    let mut rng = StdRng::seed_from_u64(5);
    let out = theirs.encrypt_outgoing_plaintext(&to_affine(&s.cv), &s.note.note.commitment(), &mut rng);
    let mut rng = StdRng::seed_from_u64(5);
    let mut filler = FILLER;
    rng.fill_bytes(&mut filler.key);
    rng.fill_bytes(&mut filler.plaintext);
    assert_eq!(encrypt(s.domain, &s.note, s.memo, None, s.cv, &filler).out_ciphertext, out);
}

fn shown(found: Option<(NoteWithSeed, Address, [u8; FREE_MEMO_SIZE])>) -> Option<(Note, [u8; 32], Address, Vec<u8>)> {
    found.map(|(n, a, m)| (n.note, n.rseed.to_bytes(), a, m.to_vec()))
}

/// Both read the same, for intact and for broken outputs.
#[test]
fn decryption_matches_the_outside_crate() {
    for seed in 0..4 {
        let s = sample(seed);
        let other = sample(seed + 100);
        let intact = encrypt(s.domain, &s.note, s.memo, Some(s.ovk), s.cv, &FILLER);
        let mut cases = vec![intact];
        for i in 0..4 {
            let mut broken = intact;
            match i {
                0 => broken.enc_ciphertext[3] ^= 1,
                1 => broken.out_ciphertext[3] ^= 1,
                2 => broken.epk_bytes = [0u8; 32],
                _ => broken.cm = Base::from(1u64),
            }
            cases.push(broken);
        }
        for output in cases {
            let theirs = TestOutput(output);
            for ivk in [s.ivk, other.ivk] {
                let a = decrypt(&s.domain, ivk, &output);
                let b = try_note_decryption(&TestDomain(s.domain), &to_scalar(&ivk), &theirs);
                assert_eq!(shown(a), shown(b));
            }
            for ovk in [s.ovk, other.ovk] {
                for cv in [s.cv, other.cv] {
                    let a = recover(&s.domain, &ovk, cv, &output);
                    let b = try_output_recovery_with_ovk(
                        &TestDomain(s.domain),
                        &ovk,
                        &theirs,
                        &to_affine(&cv),
                        &output.out_ciphertext,
                    );
                    assert_eq!(shown(a), shown(b));
                }
            }
        }
        assert!(decrypt(&s.domain, s.ivk, &intact).is_some());
        assert!(recover(&s.domain, &s.ovk, s.cv, &intact).is_some());
    }
}
