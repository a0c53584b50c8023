//! The memo: encrypted under its own key, bound by the note.
//!
//! The note carries only `memo_cm = Poseidon(H(memo), r_memo)`. Whoever holds the memo key can
//! read the text and recompute the commitment, and because the commitment sits inside the note
//! commitment, nobody can change the text afterwards. The note itself can be read with the
//! viewing key without revealing the memo: two keys, two levels of insight.
//!
//! The ciphertext has a fixed length, so it leaks nothing about how much was written.
use vstd::prelude::*;

use crate::bytes::{append, take};
use crate::pallas::Base;

verus! {

broadcast use vstd::array::group_array_axioms;

/// Every memo is padded to this length before sealing.
pub const MEMO_LEN: usize = 512;

/// nonce, ciphertext of memo and r_memo, tag
pub const SEALED_LEN: usize = 572;

pub const MEMO_HASH_PERSONALIZATION: &'static str = "Gradido_MemoHash";

/// The memo text as one field element.
pub open spec fn hash_of_memo(memo: Seq<u8>) -> nat {
    crate::hash::hash_to_base(MEMO_HASH_PERSONALIZATION@, memo)
}

/// The commitment to a memo.
pub open spec fn memo_commitment(memo: Seq<u8>, r_memo: nat) -> nat {
    crate::hash::poseidon_hash(seq![hash_of_memo(memo), r_memo])
}

/// A text with zeros up to the memo length.
pub open spec fn padded(text: Seq<u8>) -> Seq<u8> {
    text + crate::bytes::zeros((512 - text.len()) as nat)
}

/// Nonce and ciphertext of memo and opening.
pub open spec fn sealed_memo(key: Seq<u8>, memo: Seq<u8>, r_memo: nat, nonce: Seq<u8>) -> Seq<u8> {
    nonce + crate::cipher::aead_sealed(key, nonce, memo + crate::bytes::le_bytes(r_memo, 32))
}

/// Memo and opening inside a sealed memo.
pub open spec fn opened_memo(key: Seq<u8>, sealed: Seq<u8>) -> Option<(Seq<u8>, nat)> {
    match crate::cipher::aead_opened(key, sealed.subrange(0, 12), sealed.subrange(12, 572)) {
        None => None,
        Some(plaintext) => {
            let r_memo = crate::bytes::le_nat(plaintext.subrange(512, 544));
            if r_memo < crate::pallas::base_modulus() {
                Some((plaintext.subrange(0, 512), r_memo))
            } else {
                None
            }
        },
    }
}

/// The memo text as one field element.
pub fn memo_hash(memo: &[u8; 512]) -> (r: Base)
    ensures
        r@ == hash_of_memo(memo@),
{
    proof {
        reveal_strlit("Gradido_MemoHash");
    }
    crate::hash::to_base(MEMO_HASH_PERSONALIZATION, memo.as_slice())
}

/// `memo_cm = Poseidon(H(memo), r_memo)`, the value that goes into the note.
pub fn commit(memo: &[u8; 512], r_memo: Base) -> (r: Base)
    ensures
        r@ == memo_commitment(memo@, r_memo@),
{
    let message: [Base; 2] = [memo_hash(memo), r_memo];
    assert(crate::hash::values(message@) =~= seq![hash_of_memo(memo@), r_memo@]);
    crate::hash::poseidon(message)
}

/// Pads a text to the fixed memo length; longer texts are refused rather than cut.
pub fn pad(text: &[u8]) -> (r: Option<[u8; 512]>)
    ensures
        r is Some <==> text@.len() <= 512,
        r matches Some(memo) ==> memo@ == padded(text@),
{
    if text.len() > 512 {
        return None;
    }
    let mut memo: [u8; 512] = [0u8; 512];
    let mut i: usize = 0;
    while i < text.len()
        invariant
            i <= text.len() <= 512,
            forall|j: int| 0 <= j < i ==> memo@[j] == text@[j],
            forall|j: int| i <= j < 512 ==> memo@[j] == 0,
        decreases text.len() - i,
    {
        memo[i] = text[i];
        i = i + 1;
    }
    assert(memo@ =~= padded(text@));
    Some(memo)
}

/// Encrypts memo and opening under the memo key. The same key opens the result again.
pub fn seal(key: &[u8; 32], memo: &[u8; 512], r_memo: Base, nonce: [u8; 12]) -> (r: [u8; 572])
    ensures
        r@ == sealed_memo(key@, memo@, r_memo@, nonce@),
        opened_memo(key@, r@) == Some((memo@, r_memo@)),
{
    let mut plaintext: Vec<u8> = Vec::new();
    append(&mut plaintext, memo.as_slice());
    append(&mut plaintext, r_memo.to_repr().as_slice());
    assert(plaintext@ =~= memo@ + crate::bytes::le_bytes(r_memo@, 32));
    let ciphertext = crate::cipher::aead_seal(key, &nonce, plaintext.as_slice());
    let mut sealed: Vec<u8> = Vec::new();
    append(&mut sealed, nonce.as_slice());
    append(&mut sealed, ciphertext.as_slice());
    proof {
        use_type_invariant(&r_memo);
        crate::bytes::lemma_pow256_values();
        crate::bytes::lemma_le_nat_of_le_bytes(r_memo@, 32);
        assert(sealed@ =~= sealed_memo(key@, memo@, r_memo@, nonce@));
        assert(sealed@.subrange(0, 572) =~= sealed@);
        assert(sealed@.subrange(0, 12) =~= nonce@);
        assert(sealed@.subrange(12, 572) =~= ciphertext@);
        assert(plaintext@.subrange(0, 512) =~= memo@);
        assert(plaintext@.subrange(512, 544) =~= crate::bytes::le_bytes(r_memo@, 32));
    }
    take::<572>(sealed.as_slice(), 0)
}

/// Decrypts memo and opening; `None` if the key is wrong or the bytes were touched.
pub fn open(key: &[u8; 32], sealed: &[u8; 572]) -> (r: Option<([u8; 512], Base)>)
    ensures
        r is Some <==> opened_memo(key@, sealed@) is Some,
        r matches Some(m) ==> opened_memo(key@, sealed@) == Some((m.0@, m.1@)),
{
    let nonce = take::<12>(sealed.as_slice(), 0);
    let ciphertext = take::<560>(sealed.as_slice(), 12);
    let plaintext = crate::cipher::aead_open(key, &nonce, ciphertext.as_slice())?;
    let memo = take::<512>(plaintext.as_slice(), 0);
    let r_memo = Base::from_repr(&take::<32>(plaintext.as_slice(), 512))?;
    Some((memo, r_memo))
}

/// Does this memo belong to the commitment inside the note?
pub fn verify(memo: &[u8; 512], r_memo: Base, memo_cm: Base) -> (r: bool)
    ensures
        r == (memo_commitment(memo@, r_memo@) == memo_cm@),
{
    let cm = commit(memo, r_memo);
    proof {
        if cm@ == memo_cm@ {
            crate::pallas::lemma_base_determined(cm, memo_cm);
        }
    }
    cm == memo_cm
}

// --------------------------------------------------------------------------------------- laws

/// A text can be told from its padded form by its length alone: texts without a trailing zero
/// that pad to the same memo are the same text.
pub proof fn padding_keeps_the_text(a: Seq<u8>, b: Seq<u8>)
    requires
        a.len() <= 512,
        b.len() <= 512,
        a.len() > 0 ==> a.last() != 0,
        b.len() > 0 ==> b.last() != 0,
        padded(a) == padded(b),
    ensures
        a == b,
{
    let p = padded(a);
    let q = padded(b);
    if a.len() < b.len() {
        assert(q[b.len() - 1] == b.last());
        assert(p[b.len() - 1] == 0);
    }
    if b.len() < a.len() {
        assert(p[a.len() - 1] == a.last());
        assert(q[a.len() - 1] == 0);
    }
    assert forall|i: int| 0 <= i < a.len() implies a[i] == b[i] by {
        assert(p[i] == a[i] && q[i] == b[i]);
    }
    assert(a =~= b);
}

/// A commitment covers the whole memo and its randomness. The messages that Poseidon hashes and
/// the byte strings that the memos are hashed from are returned: two memos that differ anywhere
/// are hashed from different byte strings, and other randomness gives another message.
pub proof fn a_commitment_covers_memo_and_randomness(
    memo1: Seq<u8>,
    r1: nat,
    memo2: Seq<u8>,
    r2: nat,
) -> (r: ((Seq<nat>, Seq<u8>), (Seq<nat>, Seq<u8>)))
    requires
        memo1.len() == 512,
        memo2.len() == 512,
    ensures
        committed_from(memo1, r1, r.0.0, r.0.1),
        committed_from(memo2, r2, r.1.0, r.1.1),
        r.0.1 == r.1.1 ==> memo1 == memo2,
        r.0.0 == r.1.0 ==> r1 == r2 && hash_of_memo(memo1) == hash_of_memo(memo2),
{
    let a = seq![hash_of_memo(memo1), r1];
    let b = seq![hash_of_memo(memo2), r2];
    if a == b {
        assert(a[0] == b[0] && a[1] == b[1]);
    }
    ((a, memo1), (b, memo2))
}

/// Whether the commitment to a memo is the Poseidon hash of a message that holds the digest of a
/// byte string.
pub open spec fn committed_from(memo: Seq<u8>, r_memo: nat, message: Seq<nat>, data: Seq<u8>) -> bool {
    let digest = crate::bytes::le_nat(crate::hash::blake2b_hash("Gradido_MemoHash"@, 64, data))
        % crate::pallas::base_modulus();
    &&& hash_of_memo(memo) == digest
    &&& message == seq![digest, r_memo]
    &&& memo_commitment(memo, r_memo) == crate::hash::poseidon_hash(message)
}

/// A padded text starts with the text, and zeros fill it up to the memo length.
pub proof fn padding_is_zeros_after_the_text(text: Seq<u8>)
    requires
        text.len() <= 512,
    ensures
        padded(text).len() == 512,
        padded(text).take(text.len() as int) == text,
        forall|i: int| text.len() <= i < 512 ==> #[trigger] padded(text)[i] == 0,
{
    assert(padded(text).take(text.len() as int) =~= text);
}

/// A sealed memo is the nonce and the ciphertext of a plaintext under key and nonce; the
/// plaintext, which is returned, holds memo and randomness.
pub proof fn a_sealed_memo_holds_all(
    key: Seq<u8>,
    memo1: Seq<u8>,
    r1: nat,
    memo2: Seq<u8>,
    r2: nat,
    nonce: Seq<u8>,
) -> (r: (Seq<u8>, Seq<u8>))
    requires
        memo1.len() == 512,
        memo2.len() == 512,
        r1 < crate::pallas::base_modulus(),
        r2 < crate::pallas::base_modulus(),
    ensures
        sealed_memo(key, memo1, r1, nonce) == nonce + crate::cipher::aead_sealed(key, nonce, r.0),
        sealed_memo(key, memo2, r2, nonce) == nonce + crate::cipher::aead_sealed(key, nonce, r.1),
        r.0 == memo1 + crate::bytes::le_bytes(r1, 32),
        r.0 == r.1 ==> memo1 == memo2 && r1 == r2,
{
    let a = memo1 + crate::bytes::le_bytes(r1, 32);
    let b = memo2 + crate::bytes::le_bytes(r2, 32);
    if a == b {
        crate::bytes::lemma_pow256_values();
        crate::bytes::lemma_parts_injective(
            memo1,
            crate::bytes::le_bytes(r1, 32),
            memo2,
            crate::bytes::le_bytes(r2, 32),
        );
        crate::bytes::lemma_le_bytes_injective(r1, r2, 32);
    }
    (a, b)
}

/// A sealed memo opens exactly where its ciphertext opens under its own nonce to a plaintext with
/// canonical randomness; memo and randomness are then those of the plaintext.
pub proof fn an_opened_memo_is_what_was_sealed(key: Seq<u8>, sealed: Seq<u8>)
    requires
        sealed.len() == 572,
    ensures
        match crate::cipher::aead_opened(key, sealed.subrange(0, 12), sealed.subrange(12, 572)) {
            None => opened_memo(key, sealed) is None,
            Some(plaintext) => {
                let r_memo = crate::bytes::le_nat(plaintext.subrange(512, 544));
                &&& opened_memo(key, sealed) is Some <==> r_memo < crate::pallas::base_modulus()
                &&& opened_memo(key, sealed) matches Some((memo, r)) ==> {
                    &&& r == r_memo
                    &&& plaintext.len() == 544 ==> plaintext == memo + crate::bytes::le_bytes(r, 32)
                }
            },
        },
{
    if let Some(plaintext) = crate::cipher::aead_opened(
        key,
        sealed.subrange(0, 12),
        sealed.subrange(12, 572),
    ) {
        if plaintext.len() == 544 {
            let tail = plaintext.subrange(512, 544);
            crate::bytes::lemma_le_bytes_of_le_nat(tail);
            assert(plaintext =~= plaintext.subrange(0, 512) + tail);
        }
    }
}

} // verus!
