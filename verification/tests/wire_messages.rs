//! The wire messages next to the same messages in `prost`: the same bytes are written, and the
//! same bytes are accepted and read as the same message, malformed ones included.
use gradido_blockchain_zk::protobuf::{read_fields, Field};
use gradido_blockchain_zk::wire::{self, Anchor, ShieldedAction, ShieldedAuthorization, ShieldedBundle, WireError};
use prost::bytes::{Buf, BufMut};
use prost::encoding::{self, DecodeContext, WireType};
use prost::{DecodeError, Message};
use rand::rngs::StdRng;
use rand::{RngCore, SeedableRng};

#[derive(Clone, Debug, Default, PartialEq)]
struct PlainAnchor {
    root: Vec<u8>,
    tree_epoch: u32,
}

impl Message for PlainAnchor {
    fn encode_raw(&self, buf: &mut impl BufMut) {
        if !self.root.is_empty() {
            encoding::bytes::encode(1, &self.root, buf);
        }
        if self.tree_epoch != 0 {
            encoding::uint32::encode(2, &self.tree_epoch, buf);
        }
    }

    fn merge_field(
        &mut self,
        tag: u32,
        wire_type: WireType,
        buf: &mut impl Buf,
        ctx: DecodeContext,
    ) -> Result<(), DecodeError> {
        match tag {
            1 => encoding::bytes::merge(wire_type, &mut self.root, buf, ctx),
            2 => encoding::uint32::merge(wire_type, &mut self.tree_epoch, buf, ctx),
            _ => encoding::skip_field(wire_type, tag, buf, ctx),
        }
    }

    fn encoded_len(&self) -> usize {
        let mut len = 0;
        if !self.root.is_empty() {
            len += encoding::bytes::encoded_len(1, &self.root);
        }
        if self.tree_epoch != 0 {
            len += encoding::uint32::encoded_len(2, &self.tree_epoch);
        }
        len
    }

    fn clear(&mut self) {
        *self = Self::default();
    }
}

#[derive(Clone, Debug, Default, PartialEq)]
struct PlainAction {
    fields: [Vec<u8>; 7],
}

impl Message for PlainAction {
    fn encode_raw(&self, buf: &mut impl BufMut) {
        for (i, field) in self.fields.iter().enumerate() {
            if !field.is_empty() {
                encoding::bytes::encode(i as u32 + 1, field, buf);
            }
        }
    }

    fn merge_field(
        &mut self,
        tag: u32,
        wire_type: WireType,
        buf: &mut impl Buf,
        ctx: DecodeContext,
    ) -> Result<(), DecodeError> {
        match tag {
            1..=7 => encoding::bytes::merge(wire_type, &mut self.fields[tag as usize - 1], buf, ctx),
            _ => encoding::skip_field(wire_type, tag, buf, ctx),
        }
    }

    fn encoded_len(&self) -> usize {
        let mut len = 0;
        for (i, field) in self.fields.iter().enumerate() {
            if !field.is_empty() {
                len += encoding::bytes::encoded_len(i as u32 + 1, field);
            }
        }
        len
    }

    fn clear(&mut self) {
        *self = Self::default();
    }
}

#[derive(Clone, Debug, Default, PartialEq)]
struct PlainBundle {
    anchor: Option<PlainAnchor>,
    actions: Vec<PlainAction>,
    cross_community_cv: Vec<u8>,
    circuit_version: u32,
}

impl Message for PlainBundle {
    fn encode_raw(&self, buf: &mut impl BufMut) {
        if let Some(anchor) = &self.anchor {
            encoding::message::encode(1, anchor, buf);
        }
        for action in &self.actions {
            encoding::message::encode(2, action, buf);
        }
        if !self.cross_community_cv.is_empty() {
            encoding::bytes::encode(3, &self.cross_community_cv, buf);
        }
        if self.circuit_version != 0 {
            encoding::uint32::encode(4, &self.circuit_version, buf);
        }
    }

    fn merge_field(
        &mut self,
        tag: u32,
        wire_type: WireType,
        buf: &mut impl Buf,
        ctx: DecodeContext,
    ) -> Result<(), DecodeError> {
        match tag {
            1 => encoding::message::merge(
                wire_type,
                self.anchor.get_or_insert_with(Default::default),
                buf,
                ctx,
            ),
            2 => encoding::message::merge_repeated(wire_type, &mut self.actions, buf, ctx),
            3 => encoding::bytes::merge(wire_type, &mut self.cross_community_cv, buf, ctx),
            4 => encoding::uint32::merge(wire_type, &mut self.circuit_version, buf, ctx),
            _ => encoding::skip_field(wire_type, tag, buf, ctx),
        }
    }

    fn encoded_len(&self) -> usize {
        let mut len = 0;
        if let Some(anchor) = &self.anchor {
            len += encoding::message::encoded_len(1, anchor);
        }
        len += encoding::message::encoded_len_repeated(2, &self.actions);
        if !self.cross_community_cv.is_empty() {
            len += encoding::bytes::encoded_len(3, &self.cross_community_cv);
        }
        if self.circuit_version != 0 {
            len += encoding::uint32::encoded_len(4, &self.circuit_version);
        }
        len
    }

    fn clear(&mut self) {
        *self = Self::default();
    }
}

#[derive(Clone, Debug, Default, PartialEq)]
struct PlainAuthorization {
    proof: Vec<u8>,
    spend_auth_sigs: Vec<Vec<u8>>,
    binding_sig: Vec<u8>,
}

impl Message for PlainAuthorization {
    fn encode_raw(&self, buf: &mut impl BufMut) {
        if !self.proof.is_empty() {
            encoding::bytes::encode(1, &self.proof, buf);
        }
        encoding::bytes::encode_repeated(2, &self.spend_auth_sigs, buf);
        if !self.binding_sig.is_empty() {
            encoding::bytes::encode(3, &self.binding_sig, buf);
        }
    }

    fn merge_field(
        &mut self,
        tag: u32,
        wire_type: WireType,
        buf: &mut impl Buf,
        ctx: DecodeContext,
    ) -> Result<(), DecodeError> {
        match tag {
            1 => encoding::bytes::merge(wire_type, &mut self.proof, buf, ctx),
            2 => encoding::bytes::merge_repeated(wire_type, &mut self.spend_auth_sigs, buf, ctx),
            3 => encoding::bytes::merge(wire_type, &mut self.binding_sig, buf, ctx),
            _ => encoding::skip_field(wire_type, tag, buf, ctx),
        }
    }

    fn encoded_len(&self) -> usize {
        let mut len = encoding::bytes::encoded_len_repeated(2, &self.spend_auth_sigs);
        if !self.proof.is_empty() {
            len += encoding::bytes::encoded_len(1, &self.proof);
        }
        if !self.binding_sig.is_empty() {
            len += encoding::bytes::encoded_len(3, &self.binding_sig);
        }
        len
    }

    fn clear(&mut self) {
        *self = Self::default();
    }
}

fn plain_bundle(m: &ShieldedBundle) -> PlainBundle {
    PlainBundle {
        anchor: m.anchor.as_ref().map(|a| PlainAnchor { root: a.root.clone(), tree_epoch: a.tree_epoch }),
        actions: m
            .actions
            .iter()
            .map(|a| PlainAction {
                fields: [
                    a.cv.clone(),
                    a.nullifier.clone(),
                    a.rk.clone(),
                    a.cm_x.clone(),
                    a.ephemeral_key.clone(),
                    a.enc_ciphertext.clone(),
                    a.out_ciphertext.clone(),
                ],
            })
            .collect(),
        cross_community_cv: m.cross_community_cv.clone(),
        circuit_version: m.circuit_version,
    }
}

fn plain_authorization(m: &ShieldedAuthorization) -> PlainAuthorization {
    PlainAuthorization {
        proof: m.proof.clone(),
        spend_auth_sigs: m.spend_auth_sigs.clone(),
        binding_sig: m.binding_sig.clone(),
    }
}

fn some_bytes(rng: &mut StdRng) -> Vec<u8> {
    let len = match rng.next_u32() % 4 {
        0 => 0,
        1 => 1,
        2 => 32,
        _ => rng.next_u32() as usize % 200,
    };
    let mut out = vec![0u8; len];
    rng.fill_bytes(&mut out);
    out
}

fn some_number(rng: &mut StdRng) -> u32 {
    match rng.next_u32() % 4 {
        0 => 0,
        1 => 127 + rng.next_u32() % 3,
        2 => u32::MAX,
        _ => rng.next_u32(),
    }
}

fn some_bundle(rng: &mut StdRng) -> ShieldedBundle {
    let anchor = if rng.next_u32() % 3 == 0 {
        None
    } else {
        Some(Anchor { root: some_bytes(rng), tree_epoch: some_number(rng) })
    };
    let actions = (0..rng.next_u32() % 4)
        .map(|_| ShieldedAction {
            cv: some_bytes(rng),
            nullifier: some_bytes(rng),
            rk: some_bytes(rng),
            cm_x: some_bytes(rng),
            ephemeral_key: some_bytes(rng),
            enc_ciphertext: some_bytes(rng),
            out_ciphertext: some_bytes(rng),
        })
        .collect();
    ShieldedBundle { anchor, actions, cross_community_cv: some_bytes(rng), circuit_version: some_number(rng) }
}

fn some_authorization(rng: &mut StdRng) -> ShieldedAuthorization {
    ShieldedAuthorization {
        proof: some_bytes(rng),
        spend_auth_sigs: (0..rng.next_u32() % 4).map(|_| some_bytes(rng)).collect(),
        binding_sig: some_bytes(rng),
    }
}

/// Fields of every wire type, known and unknown tags, groups and broken lengths.
fn noise(rng: &mut StdRng) -> Vec<u8> {
    let mut out = Vec::new();
    for _ in 0..rng.next_u32() % 6 {
        let tag = rng.next_u32() % 9;
        let wire_type = rng.next_u32() % 8;
        out.push((tag << 3 | wire_type) as u8);
        match wire_type {
            0 => {
                for _ in 0..rng.next_u32() % 11 {
                    out.push(0x80 | rng.next_u32() as u8);
                }
                out.push(rng.next_u32() as u8 % 3);
            }
            2 => {
                let inner = if rng.next_u32() % 2 == 0 { noise(rng) } else { vec![7; rng.next_u32() as usize % 5] };
                if inner.len() < 128 {
                    out.push(inner.len() as u8);
                    out.extend_from_slice(&inner);
                }
            }
            1 => out.extend_from_slice(&[1; 8]),
            5 => out.extend_from_slice(&[2; 4]),
            3 => {
                out.extend_from_slice(&noise(rng));
                out.push((tag << 3 | 4) as u8);
            }
            _ => {}
        }
    }
    if rng.next_u32() % 8 == 0 {
        out.pop();
    }
    out
}

fn compare(bytes: &[u8]) {
    let ours = ShieldedBundle::decode(bytes).map(|m| plain_bundle(&m));
    assert_eq!(ours, PlainBundle::decode(bytes).ok(), "bundle {:?}", bytes);
    let ours = ShieldedAuthorization::decode(bytes).map(|m| plain_authorization(&m));
    assert_eq!(ours, PlainAuthorization::decode(bytes).ok(), "authorization {:?}", bytes);
}

#[test]
fn messages_have_the_bytes_of_prost() {
    let mut rng = StdRng::seed_from_u64(500);
    for _ in 0..2000 {
        let bundle = some_bundle(&mut rng);
        let bytes = bundle.encode_to_vec();
        assert_eq!(bytes, plain_bundle(&bundle).encode_to_vec());
        assert_eq!(ShieldedBundle::decode(&bytes), Some(bundle));
        let authorization = some_authorization(&mut rng);
        let bytes = authorization.encode_to_vec();
        assert_eq!(bytes, plain_authorization(&authorization).encode_to_vec());
        assert_eq!(ShieldedAuthorization::decode(&bytes), Some(authorization));
    }
}

#[test]
fn malformed_bytes_are_read_as_prost_reads_them() {
    let mut rng = StdRng::seed_from_u64(501);
    let mut accepted = 0;
    for _ in 0..60_000 {
        let bytes = noise(&mut rng);
        compare(&bytes);
        if !bytes.is_empty() && ShieldedBundle::decode(&bytes).is_some() {
            accepted += 1;
        }
    }
    assert!(accepted > 1000, "the noise holds messages too: {}", accepted);
}

#[test]
fn damaged_messages_are_read_as_prost_reads_them() {
    let mut rng = StdRng::seed_from_u64(502);
    for _ in 0..3000 {
        let mut bytes = some_bundle(&mut rng).encode_to_vec();
        if bytes.is_empty() {
            continue;
        }
        for _ in 0..1 + rng.next_u32() % 3 {
            let at = rng.next_u32() as usize % bytes.len();
            match rng.next_u32() % 4 {
                0 => bytes[at] ^= 1 << (rng.next_u32() % 8),
                1 => bytes[at] = rng.next_u32() as u8,
                2 => bytes.truncate(at + 1),
                _ => bytes.insert(at, rng.next_u32() as u8),
            }
        }
        compare(&bytes);
    }
}

/// Groups nest up to the depth `prost` allows, and no deeper.
#[test]
fn nesting_is_limited_as_in_prost() {
    let mut depths = Vec::new();
    for depth in 1..130usize {
        let mut bytes = vec![0x7b; depth];
        bytes.extend_from_slice(&vec![0x7c; depth]);
        compare(&bytes);
        depths.push(ShieldedBundle::decode(&bytes).is_some());
    }
    assert!(depths[0]);
    assert!(!depths[depths.len() - 1]);
}

/// The body of a transfer is the message with the fields 2, 3 and 6.
#[test]
fn a_transfer_body_has_the_bytes_of_prost() {
    for (created_at, version, shielded) in
        [(0u64, 0u32, vec![]), (1, 4, vec![9u8; 3]), (1_800_000_000, 300, vec![7u8; 2000]), (1 << 39, u32::MAX, vec![1])]
    {
        let mut timestamp = Vec::new();
        if created_at != 0 {
            encoding::int64::encode(1, &(created_at as i64), &mut timestamp);
        }
        let mut expected = Vec::new();
        encoding::bytes::encode(2, &timestamp, &mut expected);
        if version != 0 {
            encoding::uint32::encode(3, &version, &mut expected);
        }
        if !shielded.is_empty() {
            encoding::bytes::encode(6, &shielded, &mut expected);
        }
        let body = wire::encode_transfer_body(created_at, version, &shielded);
        assert_eq!(body, expected);
        if shielded.is_empty() {
            assert_eq!(
                wire::parse_transfer_body(&body).unwrap_err(),
                WireError::MissingField("shielded_transfer")
            );
        } else {
            let parsed = wire::parse_transfer_body(&body).unwrap();
            assert_eq!(parsed.created_at, created_at);
            assert_eq!(parsed.version_number, version);
            assert_eq!(parsed.shielded, shielded);
            assert_eq!(parsed.memos, 0);
        }
    }
}

#[test]
fn a_body_is_read_field_by_field() {
    let error = |bytes: &[u8]| wire::parse_transfer_body(bytes).unwrap_err();
    let body = wire::encode_transfer_body(77, 4, &[1, 2, 3]);
    let with = |extra: &[u8]| {
        let mut out = body.clone();
        out.extend_from_slice(extra);
        out
    };
    assert_eq!(error(&[]), WireError::MissingField("created_at"));
    assert_eq!(error(&[0x32, 0x01, 0x05]), WireError::MissingField("created_at"));
    assert_eq!(error(&with(&[0x12, 0x00])), WireError::NotCanonical("created_at"));
    assert_eq!(error(&with(&[0x18, 0x00])), WireError::NotCanonical("version_number"));
    assert_eq!(error(&with(&[0x20, 0x00, 0x20, 0x00])), WireError::NotCanonical("type"));
    assert_eq!(error(&with(&[0x2a, 0x00, 0x2a, 0x00])), WireError::NotCanonical("other_community_uuid"));
    assert_eq!(error(&with(&[0x2a, 0x01, 0x61])), WireError::CrossCommunityNotSupported);
    assert_eq!(error(&with(&[0x0d])), WireError::Protobuf);
    assert_eq!(error(&with(&[0x0a, 0x02, 0x00])), WireError::Protobuf);
    assert_eq!(error(&with(&[0x08, 0x00])), WireError::UnsupportedBody(1));
    let parsed = wire::parse_transfer_body(&with(&[0x0a, 0x01, 0x00, 0x0a, 0x00, 0x20, 0x00, 0x2a, 0x00])).unwrap();
    assert_eq!((parsed.created_at, parsed.version_number, parsed.memos), (77, 4, 2));
    // a timestamp with nanoseconds, one that is too late, and one with an unknown field
    assert_eq!(error(&[0x12, 0x02, 0x10, 0x01]), WireError::NotCanonical("created_at"));
    assert_eq!(
        error(&[0x12, 0x07, 0x08, 0x80, 0x80, 0x80, 0x80, 0x80, 0x20]),
        WireError::NotCanonical("created_at")
    );
    assert_eq!(error(&[0x12, 0x02, 0x18, 0x01]), WireError::NotCanonical("created_at"));
}

/// The fields of a concatenation are the concatenated fields.
#[test]
fn fields_of_a_concatenation() {
    let a = [0x08, 0x96, 0x01];
    let b = [0x12, 0x02, 0x61, 0x62, 0x18, 0x05];
    let (x, y) = (read_fields(&a, false, 100).unwrap(), read_fields(&b, false, 100).unwrap());
    assert_eq!(x, vec![(1, Field::Varint(150))]);
    assert_eq!(y, vec![(2, Field::Bytes(b"ab".to_vec())), (3, Field::Varint(5))]);
    let both: Vec<u8> = a.iter().chain(b.iter()).copied().collect();
    assert_eq!(read_fields(&both, false, 100), Some([x, y].concat()));
    let cut = &both[..both.len() - 1];
    assert_eq!(read_fields(cut, false, 100), None);
    assert_eq!(read_fields(&[], false, 100), Some(vec![]));
}
