//! The bundle in the wire format of `shielded.proto`.
//!
//! `ShieldedBundle` goes into the transaction body and is covered by the signatures;
//! `ShieldedAuthorization` (proof and signatures) sits next to the body in `GradidoTransaction`.
//! Time and community are not repeated here, they come from `TransactionBody.created_at` and
//! the community the transaction belongs to.
//!
//! Decoding is strict, so that one bundle has exactly one encoding:
//! * the bytes must be the canonical encoding of what they decode to: no unknown fields, no
//!   repeated singular fields, no non-minimal varints, fields in tag order. Protobuf decoders
//!   disagree on duplicates (some merge sub-messages, some replace them), so without this two
//!   parsers could see different anchors or nullifiers in the same bytes; and the authorisation,
//!   which no signature covers, could be changed by anyone relaying it
//! * every field has its exact length, the proof included (halo2 would ignore trailing bytes)
//! * every point and field element has its canonical encoding, and the points are not the
//!   identity
//!
//! all before any cryptography runs.
use vstd::prelude::*;

use crate::bundle::{Action, ActionModel, Bundle, BundleModel, ACTIONS, CIRCUIT_VERSION, PROOF_SIZE};
use crate::bytes::{copied, same, take};
use crate::note_encryption::{EncryptedModel, EncryptedNote};
use crate::pallas::{Base, Point};
use crate::protobuf::{
    push_bytes_field, push_flat, push_varint_field, read_fields, read_flat, Field, Kind, Slot,
    SlotModel, Token, NESTING_LIMIT,
};
use crate::signature::{BindingSignature, SpendAuthSignature};

verus! {

broadcast use vstd::array::group_array_axioms;

/// Upper bounds for the encoded messages, checked before decoding allocates anything. The exact
/// sizes are fixed by the checks after decoding; these only keep garbage cheap.
pub const MAX_SHIELDED_BUNDLE_SIZE: usize = 4096;

pub const MAX_AUTHORIZATION_SIZE: usize = 8960;

/// How deep groups may nest inside a sub-message.
const INNER_LIMIT: u32 = 99;

#[derive(Clone, Debug, PartialEq, Eq)]
pub struct Anchor {
    pub root: Vec<u8>,
    pub tree_epoch: u32,
}

#[derive(Clone, Debug, PartialEq, Eq)]
pub struct ShieldedAction {
    pub cv: Vec<u8>,
    pub nullifier: Vec<u8>,
    pub rk: Vec<u8>,
    pub cm_x: Vec<u8>,
    pub ephemeral_key: Vec<u8>,
    pub enc_ciphertext: Vec<u8>,
    pub out_ciphertext: Vec<u8>,
}

#[derive(Clone, Debug, PartialEq, Eq)]
pub struct ShieldedBundle {
    pub anchor: Option<Anchor>,
    pub actions: Vec<ShieldedAction>,
    pub cross_community_cv: Vec<u8>,
    pub circuit_version: u32,
}

#[derive(Clone, Debug, PartialEq, Eq)]
pub struct ShieldedAuthorization {
    pub proof: Vec<u8>,
    pub spend_auth_sigs: Vec<Vec<u8>>,
    pub binding_sig: Vec<u8>,
}

#[derive(Clone, Copy, Debug, PartialEq, Eq)]
pub enum WireError {
    Protobuf,
    MissingAnchor,
    WrongCircuitVersion(u32),
    WrongActionCount(usize),
    WrongLength(&'static str),
    NotCanonical(&'static str),
    CrossCommunityNotSupported,
    /// tree epochs are not implemented, only epoch 0 exists
    UnsupportedTreeEpoch(u32),
    TooLarge,
    /// the transaction body has a field a shielded transfer does not have (tag)
    UnsupportedBody(u32),
    MissingField(&'static str),
}

// ----------------------------------------------------------------------------- message models

/// The kinds of the fields of an `Anchor`.
pub open spec fn anchor_schema() -> Seq<Kind> {
    seq![Kind::Bytes, Kind::Uint32]
}

/// The kinds of the fields of a `ShieldedAction`.
pub open spec fn action_schema() -> Seq<Kind> {
    seq![
        Kind::Bytes,
        Kind::Bytes,
        Kind::Bytes,
        Kind::Bytes,
        Kind::Bytes,
        Kind::Bytes,
        Kind::Bytes,
    ]
}

impl View for Anchor {
    type V = Seq<SlotModel>;

    open spec fn view(&self) -> Seq<SlotModel> {
        seq![SlotModel::Bytes(self.root@), SlotModel::Int(self.tree_epoch as u64)]
    }
}

impl View for ShieldedAction {
    type V = Seq<SlotModel>;

    open spec fn view(&self) -> Seq<SlotModel> {
        seq![
            SlotModel::Bytes(self.cv@),
            SlotModel::Bytes(self.nullifier@),
            SlotModel::Bytes(self.rk@),
            SlotModel::Bytes(self.cm_x@),
            SlotModel::Bytes(self.ephemeral_key@),
            SlotModel::Bytes(self.enc_ciphertext@),
            SlotModel::Bytes(self.out_ciphertext@),
        ]
    }
}

/// A `ShieldedBundle`.
#[verifier::ext_equal]
pub struct ShieldedModel {
    pub anchor: Option<Seq<SlotModel>>,
    pub actions: Seq<Seq<SlotModel>>,
    pub cross: Seq<u8>,
    pub version: u32,
}

impl View for ShieldedBundle {
    type V = ShieldedModel;

    open spec fn view(&self) -> ShieldedModel {
        ShieldedModel {
            anchor: match self.anchor {
                Some(a) => Some(a@),
                None => None,
            },
            actions: self.actions@.map_values(|a: ShieldedAction| a@),
            cross: self.cross_community_cv@,
            version: self.circuit_version,
        }
    }
}

/// A `ShieldedAuthorization`.
#[verifier::ext_equal]
pub struct AuthorizationModel {
    pub proof: Seq<u8>,
    pub spend_auth_sigs: Seq<Seq<u8>>,
    pub binding_sig: Seq<u8>,
}

impl View for ShieldedAuthorization {
    type V = AuthorizationModel;

    open spec fn view(&self) -> AuthorizationModel {
        AuthorizationModel {
            proof: self.proof@,
            spend_auth_sigs: self.spend_auth_sigs@.map_values(|s: Vec<u8>| s@),
            binding_sig: self.binding_sig@,
        }
    }
}

/// A field that is written only if it is not empty.
pub open spec fn optional_bytes(tag: u32, b: Seq<u8>) -> Seq<(u32, Token)> {
    if b.len() == 0 {
        Seq::empty()
    } else {
        seq![(tag, Token::Bytes(b))]
    }
}

/// A field that is written only if it is not zero.
pub open spec fn optional_int(tag: u32, v: u64) -> Seq<(u32, Token)> {
    if v == 0 {
        Seq::empty()
    } else {
        seq![(tag, Token::Varint(v))]
    }
}

/// One field per item.
pub open spec fn repeated_bytes(tag: u32, items: Seq<Seq<u8>>) -> Seq<(u32, Token)> {
    items.map_values(|b: Seq<u8>| (tag, Token::Bytes(b)))
}

/// One sub-message per item.
pub open spec fn repeated_messages(tag: u32, items: Seq<Seq<SlotModel>>) -> Seq<(u32, Token)> {
    items.map_values(|m: Seq<SlotModel>| (tag, Token::Bytes(crate::protobuf::flat_bytes(m))))
}

impl ShieldedModel {
    /// The message without any field.
    pub open spec fn absent() -> ShieldedModel {
        ShieldedModel {
            anchor: None,
            actions: Seq::empty(),
            cross: Seq::empty(),
            version: 0,
        }
    }

    /// The fields that are written, in tag order.
    pub open spec fn fields(self) -> Seq<(u32, Token)> {
        (match self.anchor {
            Some(a) => seq![(1u32, Token::Bytes(crate::protobuf::flat_bytes(a)))],
            None => Seq::empty(),
        }) + repeated_messages(2, self.actions) + optional_bytes(3, self.cross) + optional_int(
            4,
            self.version as u64,
        )
    }

    /// The canonical encoding.
    pub open spec fn encoded(self) -> Seq<u8> {
        crate::protobuf::message_bytes(self.fields())
    }

    /// The message with one more field, as protobuf merges it.
    pub open spec fn merged(self, tag: u32, token: Token) -> Option<ShieldedModel> {
        if tag == 1 {
            let base = match self.anchor {
                Some(a) => a,
                None => crate::protobuf::absent_all(anchor_schema()),
            };
            match token {
                Token::Bytes(b) => match crate::protobuf::flat_over(anchor_schema(), base, b, 99) {
                    Some(a) => Some(ShieldedModel { anchor: Some(a), ..self }),
                    None => None,
                },
                _ => None,
            }
        } else if tag == 2 {
            let base = crate::protobuf::absent_all(action_schema());
            match token {
                Token::Bytes(b) => match crate::protobuf::flat_over(action_schema(), base, b, 99) {
                    Some(a) => Some(ShieldedModel { actions: self.actions.push(a), ..self }),
                    None => None,
                },
                _ => None,
            }
        } else if tag == 3 {
            match token {
                Token::Bytes(b) => Some(ShieldedModel { cross: b, ..self }),
                _ => None,
            }
        } else if tag == 4 {
            match token {
                Token::Varint(v) => Some(
                    ShieldedModel { version: (v as nat % 0x1_0000_0000) as u32, ..self },
                ),
                _ => None,
            }
        } else {
            Some(self)
        }
    }

    /// The message of some fields.
    pub open spec fn of_fields(fields: Seq<(u32, Token)>) -> Option<ShieldedModel>
        decreases fields.len(),
    {
        if fields.len() == 0 {
            Some(ShieldedModel::absent())
        } else {
            match ShieldedModel::of_fields(fields.drop_last()) {
                None => None,
                Some(m) => m.merged(fields.last().0, fields.last().1),
            }
        }
    }

    /// What some bytes decode to, by the rules of protobuf alone.
    pub open spec fn decoded(bytes: Seq<u8>) -> Option<ShieldedModel> {
        match crate::protobuf::tokens(bytes, true, 100) {
            None => None,
            Some(fields) => ShieldedModel::of_fields(fields),
        }
    }

    /// Sub-messages and lengths that can be written.
    pub open spec fn well_formed(self) -> bool {
        &&& self.anchor matches Some(a) ==> crate::protobuf::fits(anchor_schema(), a)
            && crate::protobuf::flat_bytes(a).len() < crate::protobuf::two_to_64()
        &&& forall|i: int|
            0 <= i < self.actions.len() ==> crate::protobuf::fits(
                action_schema(),
                #[trigger] self.actions[i],
            ) && crate::protobuf::flat_bytes(self.actions[i]).len()
                < crate::protobuf::two_to_64()
        &&& self.cross.len() < crate::protobuf::two_to_64()
    }
}

impl AuthorizationModel {
    /// The message without any field.
    pub open spec fn absent() -> AuthorizationModel {
        AuthorizationModel {
            proof: Seq::empty(),
            spend_auth_sigs: Seq::empty(),
            binding_sig: Seq::empty(),
        }
    }

    /// The fields that are written, in tag order.
    pub open spec fn fields(self) -> Seq<(u32, Token)> {
        optional_bytes(1, self.proof) + repeated_bytes(2, self.spend_auth_sigs) + optional_bytes(
            3,
            self.binding_sig,
        )
    }

    /// The canonical encoding.
    pub open spec fn encoded(self) -> Seq<u8> {
        crate::protobuf::message_bytes(self.fields())
    }

    /// The message with one more field, as protobuf merges it.
    pub open spec fn merged(self, tag: u32, token: Token) -> Option<AuthorizationModel> {
        if 1 <= tag <= 3 {
            match token {
                Token::Bytes(b) => Some(
                    if tag == 1 {
                        AuthorizationModel { proof: b, ..self }
                    } else if tag == 2 {
                        AuthorizationModel {
                            spend_auth_sigs: self.spend_auth_sigs.push(b),
                            ..self
                        }
                    } else {
                        AuthorizationModel { binding_sig: b, ..self }
                    },
                ),
                _ => None,
            }
        } else {
            Some(self)
        }
    }

    /// The message of some fields.
    pub open spec fn of_fields(fields: Seq<(u32, Token)>) -> Option<AuthorizationModel>
        decreases fields.len(),
    {
        if fields.len() == 0 {
            Some(AuthorizationModel::absent())
        } else {
            match AuthorizationModel::of_fields(fields.drop_last()) {
                None => None,
                Some(m) => m.merged(fields.last().0, fields.last().1),
            }
        }
    }

    /// What some bytes decode to, by the rules of protobuf alone.
    pub open spec fn decoded(bytes: Seq<u8>) -> Option<AuthorizationModel> {
        match crate::protobuf::tokens(bytes, true, 100) {
            None => None,
            Some(fields) => AuthorizationModel::of_fields(fields),
        }
    }

    /// Lengths that can be written.
    pub open spec fn well_formed(self) -> bool {
        &&& self.proof.len() < crate::protobuf::two_to_64()
        &&& forall|i: int|
            0 <= i < self.spend_auth_sigs.len() ==> (#[trigger] self.spend_auth_sigs[i]).len()
                < crate::protobuf::two_to_64()
        &&& self.binding_sig.len() < crate::protobuf::two_to_64()
    }
}

// ------------------------------------------------------------------------- messages and bytes

impl Anchor {
    fn slots(&self) -> (r: Vec<Slot>)
        ensures
            crate::protobuf::contents(r@) == self@,
            r@.len() == 2,
    {
        let mut r: Vec<Slot> = Vec::new();
        r.push(Slot::Bytes(copied(self.root.as_slice())));
        r.push(Slot::Int(self.tree_epoch as u64));
        assert(crate::protobuf::contents(r@) =~= self@);
        r
    }
}

impl ShieldedAction {
    fn slots(&self) -> (r: Vec<Slot>)
        ensures
            crate::protobuf::contents(r@) == self@,
            r@.len() == 7,
    {
        let mut r: Vec<Slot> = Vec::new();
        r.push(Slot::Bytes(copied(self.cv.as_slice())));
        r.push(Slot::Bytes(copied(self.nullifier.as_slice())));
        r.push(Slot::Bytes(copied(self.rk.as_slice())));
        r.push(Slot::Bytes(copied(self.cm_x.as_slice())));
        r.push(Slot::Bytes(copied(self.ephemeral_key.as_slice())));
        r.push(Slot::Bytes(copied(self.enc_ciphertext.as_slice())));
        r.push(Slot::Bytes(copied(self.out_ciphertext.as_slice())));
        assert(crate::protobuf::contents(r@) =~= self@);
        r
    }
}

/// The byte string in a slot.
pub(crate) fn slot_bytes(slots: &[Slot], i: usize) -> (r: Vec<u8>)
    requires
        i < slots@.len(),
    ensures
        slots@[i as int]@ matches SlotModel::Bytes(b) ==> r@ == b,
{
    match &slots[i] {
        Slot::Bytes(b) => copied(b.as_slice()),
        Slot::Int(_) => Vec::new(),
    }
}

/// The integer in a slot.
pub(crate) fn slot_int(slots: &[Slot], i: usize) -> (r: u64)
    requires
        i < slots@.len(),
    ensures
        slots@[i as int]@ matches SlotModel::Int(v) ==> r == v,
{
    match &slots[i] {
        Slot::Int(v) => *v,
        Slot::Bytes(_) => 0,
    }
}

/// Reading keeps the kinds of the schema.
pub(crate) proof fn lemma_overwritten_fits(
    schema: Seq<Kind>,
    base: Seq<SlotModel>,
    fields: Seq<(u32, Token)>,
)
    requires
        kinds_match(schema, base),
        crate::protobuf::overwritten(schema, base, fields) is Some,
    ensures
        kinds_match(schema, crate::protobuf::overwritten(schema, base, fields)->0),
    decreases fields.len(),
{
    if fields.len() > 0 {
        lemma_overwritten_fits(schema, base, fields.drop_last());
    }
}

/// The contents are of the kinds of the schema.
pub open spec fn kinds_match(schema: Seq<Kind>, slots: Seq<SlotModel>) -> bool {
    &&& schema.len() == slots.len()
    &&& forall|i: int|
        0 <= i < slots.len() ==> match (#[trigger] slots[i], schema[i]) {
            (SlotModel::Bytes(_), Kind::Bytes) => true,
            (SlotModel::Int(v), Kind::Uint32) => v <= u32::MAX,
            (SlotModel::Int(_), Kind::Uint64) => true,
            _ => false,
        }
}

/// An `Anchor` read over another one.
fn merge_anchor(base: Option<Anchor>, bytes: &[u8]) -> (r: Option<Anchor>)
    ensures
        ({
            let start = match base {
                Some(a) => a@,
                None => crate::protobuf::absent_all(anchor_schema()),
            };
            let merged = crate::protobuf::flat_over(anchor_schema(), start, bytes@, 99);
            &&& r is Some <==> merged is Some
            &&& r matches Some(a) ==> merged == Some(a@)
        }),
{
    let schema: [Kind; 2] = [Kind::Bytes, Kind::Uint32];
    assert(schema@ =~= anchor_schema());
    let ghost start = match &base {
        Some(a) => a@,
        None => crate::protobuf::absent_all(anchor_schema()),
    };
    let slots = match base {
        Some(a) => a.slots(),
        None => {
            let a = Anchor { root: Vec::new(), tree_epoch: 0 };
            assert(a@ =~= crate::protobuf::absent_all(anchor_schema()));
            a.slots()
        },
    };
    let found = read_flat(schema.as_slice(), slots, bytes, INNER_LIMIT)?;
    let ghost result = crate::protobuf::contents(found@);
    proof {
        let fields = crate::protobuf::tokens(bytes@, true, 99)->0;
        assert(kinds_match(anchor_schema(), start));
        lemma_overwritten_fits(anchor_schema(), start, fields);
        assert(result[0] == found@[0]@ && result[1] == found@[1]@);
    }
    let r = Anchor {
        root: slot_bytes(found.as_slice(), 0),
        tree_epoch: slot_int(found.as_slice(), 1) as u32,
    };
    assert(r@ =~= result);
    Some(r)
}

/// A `ShieldedAction` from its bytes.
fn read_action(bytes: &[u8]) -> (r: Option<ShieldedAction>)
    ensures
        ({
            let start = crate::protobuf::absent_all(action_schema());
            let read = crate::protobuf::flat_over(action_schema(), start, bytes@, 99);
            &&& r is Some <==> read is Some
            &&& r matches Some(a) ==> read == Some(a@)
        }),
{
    let schema: [Kind; 7] = [
        Kind::Bytes,
        Kind::Bytes,
        Kind::Bytes,
        Kind::Bytes,
        Kind::Bytes,
        Kind::Bytes,
        Kind::Bytes,
    ];
    assert(schema@ =~= action_schema());
    let ghost start = crate::protobuf::absent_all(action_schema());
    let none = ShieldedAction {
        cv: Vec::new(),
        nullifier: Vec::new(),
        rk: Vec::new(),
        cm_x: Vec::new(),
        ephemeral_key: Vec::new(),
        enc_ciphertext: Vec::new(),
        out_ciphertext: Vec::new(),
    };
    assert(none@ =~= start);
    let found = read_flat(schema.as_slice(), none.slots(), bytes, INNER_LIMIT)?;
    let ghost result = crate::protobuf::contents(found@);
    proof {
        let fields = crate::protobuf::tokens(bytes@, true, 99)->0;
        assert(kinds_match(action_schema(), start));
        lemma_overwritten_fits(action_schema(), start, fields);
        assert(forall|i: int| 0 <= i < 7 ==> result[i] == found@[i]@);
    }
    let s = found.as_slice();
    let r = ShieldedAction {
        cv: slot_bytes(s, 0),
        nullifier: slot_bytes(s, 1),
        rk: slot_bytes(s, 2),
        cm_x: slot_bytes(s, 3),
        ephemeral_key: slot_bytes(s, 4),
        enc_ciphertext: slot_bytes(s, 5),
        out_ciphertext: slot_bytes(s, 6),
    };
    assert(r@ =~= result);
    Some(r)
}

impl ShieldedBundle {
    /// The canonical encoding.
    pub fn encode_to_vec(&self) -> (r: Vec<u8>)
        ensures
            r@ == self@.encoded(),
    {
        let mut out: Vec<u8> = Vec::new();
        let ghost m = self@;
        let ghost mut fields: Seq<(u32, Token)> = Seq::empty();
        match &self.anchor {
            Some(a) => {
                let mut inner: Vec<u8> = Vec::new();
                push_flat(&mut inner, a.slots().as_slice());
                assert(inner@ =~= crate::protobuf::flat_bytes(a@));
                push_bytes_field(&mut out, 1, inner.as_slice());
                proof {
                    crate::protobuf::lemma_message_push(fields, 1, Token::Bytes(inner@));
                    fields = fields.push((1u32, Token::Bytes(inner@)));
                }
            },
            None => {},
        }
        let ghost head = fields;
        assert(out@ =~= crate::protobuf::message_bytes(head));
        let mut i: usize = 0;
        assert(head + repeated_messages(2, m.actions.take(0)) =~= head);
        while i < self.actions.len()
            invariant
                i <= self.actions@.len(),
                m == self@,
                out@ == crate::protobuf::message_bytes(
                    head + repeated_messages(2, m.actions.take(i as int)),
                ),
            decreases self.actions@.len() - i,
        {
            let mut inner: Vec<u8> = Vec::new();
            push_flat(&mut inner, self.actions[i].slots().as_slice());
            assert(inner@ =~= crate::protobuf::flat_bytes(m.actions[i as int]));
            let ghost before = head + repeated_messages(2, m.actions.take(i as int));
            push_bytes_field(&mut out, 2, inner.as_slice());
            proof {
                crate::protobuf::lemma_message_push(before, 2, Token::Bytes(inner@));
                assert(before.push((2u32, Token::Bytes(inner@))) =~= head + repeated_messages(
                    2,
                    m.actions.take(i + 1),
                ));
            }
            i = i + 1;
        }
        proof {
            assert(m.actions.take(i as int) =~= m.actions);
            fields = head + repeated_messages(2, m.actions);
        }
        if self.cross_community_cv.len() > 0 {
            push_bytes_field(&mut out, 3, self.cross_community_cv.as_slice());
            proof {
                crate::protobuf::lemma_message_push(fields, 3, Token::Bytes(m.cross));
                fields = fields.push((3u32, Token::Bytes(m.cross)));
            }
        }
        if self.circuit_version > 0 {
            push_varint_field(&mut out, 4, self.circuit_version as u64);
            proof {
                crate::protobuf::lemma_message_push(fields, 4, Token::Varint(m.version as u64));
                fields = fields.push((4u32, Token::Varint(m.version as u64)));
            }
        }
        assert(fields =~= m.fields());
        out
    }

    /// What some bytes decode to, by the rules of protobuf alone.
    pub fn decode(bytes: &[u8]) -> (r: Option<ShieldedBundle>)
        ensures
            r is Some <==> ShieldedModel::decoded(bytes@) is Some,
            r matches Some(m) ==> ShieldedModel::decoded(bytes@) == Some(m@),
    {
        let fields = read_fields(bytes, true, NESTING_LIMIT)?;
        let ghost all = crate::protobuf::shown(fields@);
        let mut m = ShieldedBundle {
            anchor: None,
            actions: Vec::new(),
            cross_community_cv: Vec::new(),
            circuit_version: 0,
        };
        assert(m@ =~= ShieldedModel::absent());
        assert(all.take(0) =~= Seq::empty());
        let mut i: usize = 0;
        while i < fields.len()
            invariant
                i <= fields@.len(),
                all == crate::protobuf::shown(fields@),
                crate::protobuf::tokens(bytes@, true, 100) == Some(all),
                ShieldedModel::of_fields(all.take(i as int)) == Some(m@),
            decreases fields@.len() - i,
        {
            proof {
                assert(all.take(i + 1).drop_last() =~= all.take(i as int));
                assert(all.take(i + 1).last() == (fields@[i as int].0, fields@[i as int].1@));
            }
            m = match m.merge(fields[i].0, &fields[i].1) {
                Some(m) => m,
                None => {
                    proof {
                        lemma_shielded_stops(all, i as int + 1);
                    }
                    return None;
                },
            };
            i = i + 1;
        }
        assert(all.take(i as int) =~= all);
        Some(m)
    }

    /// The message with one more field, as protobuf merges it.
    fn merge(self, tag: u32, field: &Field) -> (r: Option<ShieldedBundle>)
        ensures
            r is Some <==> self@.merged(tag, field@) is Some,
            r matches Some(m) ==> self@.merged(tag, field@) == Some(m@),
    {
        let ghost before = self@;
        let mut m = self;
        if tag == 1 {
            match field {
                Field::Bytes(b) => {
                    let anchor = merge_anchor(m.anchor.take(), b.as_slice())?;
                    m.anchor = Some(anchor);
                    assert(m@ =~= (ShieldedModel { anchor: Some(anchor@), ..before }));
                },
                _ => return None,
            }
        } else if tag == 2 {
            match field {
                Field::Bytes(b) => {
                    let action = read_action(b.as_slice())?;
                    m.actions.push(action);
                    assert(m@ =~= (ShieldedModel {
                        actions: before.actions.push(action@),
                        ..before
                    }));
                },
                _ => return None,
            }
        } else if tag == 3 {
            match field {
                Field::Bytes(b) => {
                    m.cross_community_cv = copied(b.as_slice());
                    assert(m@ =~= (ShieldedModel { cross: b@, ..before }));
                },
                _ => return None,
            }
        } else if tag == 4 {
            match field {
                Field::Varint(v) => {
                    m.circuit_version = (*v % 0x1_0000_0000) as u32;
                    assert(m@ =~= (ShieldedModel {
                        version: (*v as nat % 0x1_0000_0000) as u32,
                        ..before
                    }));
                },
                _ => return None,
            }
        }
        Some(m)
    }
}

proof fn lemma_shielded_stops(fields: Seq<(u32, Token)>, n: int)
    requires
        0 <= n <= fields.len(),
        ShieldedModel::of_fields(fields.take(n)) is None,
    ensures
        ShieldedModel::of_fields(fields) is None,
    decreases fields.len(),
{
    if n == fields.len() {
        assert(fields.take(n) =~= fields);
    } else {
        assert(fields.drop_last().take(n) =~= fields.take(n));
        lemma_shielded_stops(fields.drop_last(), n);
    }
}

impl ShieldedAuthorization {
    /// The canonical encoding.
    pub fn encode_to_vec(&self) -> (r: Vec<u8>)
        ensures
            r@ == self@.encoded(),
    {
        let mut out: Vec<u8> = Vec::new();
        let ghost m = self@;
        let ghost mut fields: Seq<(u32, Token)> = Seq::empty();
        if self.proof.len() > 0 {
            push_bytes_field(&mut out, 1, self.proof.as_slice());
            proof {
                crate::protobuf::lemma_message_push(fields, 1, Token::Bytes(m.proof));
                fields = fields.push((1u32, Token::Bytes(m.proof)));
            }
        }
        let ghost head = fields;
        assert(out@ =~= crate::protobuf::message_bytes(head));
        let mut i: usize = 0;
        assert(head + repeated_bytes(2, m.spend_auth_sigs.take(0)) =~= head);
        while i < self.spend_auth_sigs.len()
            invariant
                i <= self.spend_auth_sigs@.len(),
                m == self@,
                out@ == crate::protobuf::message_bytes(
                    head + repeated_bytes(2, m.spend_auth_sigs.take(i as int)),
                ),
            decreases self.spend_auth_sigs@.len() - i,
        {
            let ghost before = head + repeated_bytes(2, m.spend_auth_sigs.take(i as int));
            let ghost b = m.spend_auth_sigs[i as int];
            push_bytes_field(&mut out, 2, self.spend_auth_sigs[i].as_slice());
            proof {
                crate::protobuf::lemma_message_push(before, 2, Token::Bytes(b));
                assert(before.push((2u32, Token::Bytes(b))) =~= head + repeated_bytes(
                    2,
                    m.spend_auth_sigs.take(i + 1),
                ));
            }
            i = i + 1;
        }
        proof {
            assert(m.spend_auth_sigs.take(i as int) =~= m.spend_auth_sigs);
            fields = head + repeated_bytes(2, m.spend_auth_sigs);
        }
        if self.binding_sig.len() > 0 {
            push_bytes_field(&mut out, 3, self.binding_sig.as_slice());
            proof {
                crate::protobuf::lemma_message_push(fields, 3, Token::Bytes(m.binding_sig));
                fields = fields.push((3u32, Token::Bytes(m.binding_sig)));
            }
        }
        assert(fields =~= m.fields());
        out
    }

    /// What some bytes decode to, by the rules of protobuf alone.
    pub fn decode(bytes: &[u8]) -> (r: Option<ShieldedAuthorization>)
        ensures
            r is Some <==> AuthorizationModel::decoded(bytes@) is Some,
            r matches Some(m) ==> AuthorizationModel::decoded(bytes@) == Some(m@),
    {
        let fields = read_fields(bytes, true, NESTING_LIMIT)?;
        let ghost all = crate::protobuf::shown(fields@);
        let mut m = ShieldedAuthorization {
            proof: Vec::new(),
            spend_auth_sigs: Vec::new(),
            binding_sig: Vec::new(),
        };
        assert(m@ =~= AuthorizationModel::absent());
        assert(all.take(0) =~= Seq::empty());
        let mut i: usize = 0;
        while i < fields.len()
            invariant
                i <= fields@.len(),
                all == crate::protobuf::shown(fields@),
                crate::protobuf::tokens(bytes@, true, 100) == Some(all),
                AuthorizationModel::of_fields(all.take(i as int)) == Some(m@),
            decreases fields@.len() - i,
        {
            proof {
                assert(all.take(i + 1).drop_last() =~= all.take(i as int));
                assert(all.take(i + 1).last() == (fields@[i as int].0, fields@[i as int].1@));
            }
            let ghost before = m@;
            let tag = fields[i].0;
            if 1 <= tag && tag <= 3 {
                match &fields[i].1 {
                    Field::Bytes(b) => {
                        if tag == 1 {
                            m.proof = copied(b.as_slice());
                            assert(m@ =~= (AuthorizationModel { proof: b@, ..before }));
                        } else if tag == 2 {
                            m.spend_auth_sigs.push(copied(b.as_slice()));
                            assert(m@ =~= (AuthorizationModel {
                                spend_auth_sigs: before.spend_auth_sigs.push(b@),
                                ..before
                            }));
                        } else {
                            m.binding_sig = copied(b.as_slice());
                            assert(m@ =~= (AuthorizationModel { binding_sig: b@, ..before }));
                        }
                    },
                    _ => {
                        proof {
                            lemma_authorization_stops(all, i as int + 1);
                        }
                        return None;
                    },
                }
            }
            i = i + 1;
        }
        assert(all.take(i as int) =~= all);
        Some(m)
    }
}

proof fn lemma_authorization_stops(fields: Seq<(u32, Token)>, n: int)
    requires
        0 <= n <= fields.len(),
        AuthorizationModel::of_fields(fields.take(n)) is None,
    ensures
        AuthorizationModel::of_fields(fields) is None,
    decreases fields.len(),
{
    if n == fields.len() {
        assert(fields.take(n) =~= fields);
    } else {
        assert(fields.drop_last().take(n) =~= fields.take(n));
        lemma_authorization_stops(fields.drop_last(), n);
    }
}

// -------------------------------------------------------------------------- reading back

proof fn lemma_actions_read(
    head: Seq<(u32, Token)>,
    before: ShieldedModel,
    actions: Seq<Seq<SlotModel>>,
    n: nat,
)
    requires
        ShieldedModel::of_fields(head) == Some(before),
        before.actions.len() == 0,
        n <= actions.len(),
        forall|i: int|
            0 <= i < actions.len() ==> crate::protobuf::fits(
                action_schema(),
                #[trigger] actions[i],
            ),
    ensures
        ShieldedModel::of_fields(head + repeated_messages(2, actions.take(n as int))) == Some(
            ShieldedModel { actions: actions.take(n as int), ..before },
        ),
    decreases n,
{
    if n == 0 {
        assert(head + repeated_messages(2, actions.take(0)) =~= head);
        assert(actions.take(0) =~= before.actions);
    } else {
        let m = (n - 1) as nat;
        lemma_actions_read(head, before, actions, m);
        let fields = head + repeated_messages(2, actions.take(n as int));
        assert(fields.drop_last() =~= head + repeated_messages(2, actions.take(m as int)));
        assert(fields.last() == (
            2u32,
            Token::Bytes(crate::protobuf::flat_bytes(actions[m as int])),
        ));
        crate::protobuf::flat_message_reads_back(action_schema(), actions[m as int], 99);
        assert(actions.take(m as int).push(actions[m as int]) =~= actions.take(n as int));
    }
}

proof fn lemma_shielded_is_writable(m: ShieldedModel)
    requires
        m.well_formed(),
    ensures
        crate::protobuf::writable(m.fields()),
{
    let fields = m.fields();
    let head: Seq<(u32, Token)> = match m.anchor {
        Some(a) => seq![(1u32, Token::Bytes(crate::protobuf::flat_bytes(a)))],
        None => Seq::empty(),
    };
    let k = head.len() as int;
    let n = m.actions.len() as int;
    assert forall|i: int| 0 <= i < fields.len() implies {
        &&& 1 <= (#[trigger] fields[i]).0 < 0x2000_0000
        &&& !(fields[i].1 is Skipped)
        &&& fields[i].1 matches Token::Bytes(b) ==> b.len() < crate::protobuf::two_to_64()
    } by {
        if i < k {
            assert(fields[i] == head[i]);
        } else if i < k + n {
            let a = m.actions[i - k];
            assert(fields[i] == (2u32, Token::Bytes(crate::protobuf::flat_bytes(a))));
        }
    }
}

proof fn lemma_shielded_step(
    fields: Seq<(u32, Token)>,
    before: ShieldedModel,
    tag: u32,
    token: Token,
    after: ShieldedModel,
)
    requires
        ShieldedModel::of_fields(fields) == Some(before),
        before.merged(tag, token) == Some(after),
    ensures
        ShieldedModel::of_fields(fields.push((tag, token))) == Some(after),
{
    assert(fields.push((tag, token)).drop_last() =~= fields);
}

proof fn lemma_shielded_tail(
    middle: Seq<(u32, Token)>,
    before: ShieldedModel,
    cross: Seq<u8>,
    version: u32,
)
    requires
        ShieldedModel::of_fields(middle) == Some(before),
        before.cross.len() == 0,
        before.version == 0,
    ensures
        ShieldedModel::of_fields(
            middle + optional_bytes(3, cross) + optional_int(4, version as u64),
        ) == Some(ShieldedModel { cross, version, ..before }),
{
    let third = middle + optional_bytes(3, cross);
    let next = ShieldedModel { cross, ..before };
    if cross.len() == 0 {
        assert(third =~= middle);
        assert(cross =~= before.cross);
    } else {
        lemma_shielded_step(middle, before, 3, Token::Bytes(cross), next);
        assert(third =~= middle.push((3u32, Token::Bytes(cross))));
    }
    let fields = third + optional_int(4, version as u64);
    if version == 0 {
        assert(fields =~= third);
    } else {
        let after = ShieldedModel { cross, version, ..before };
        lemma_shielded_step(third, next, 4, Token::Varint(version as u64), after);
        assert(fields =~= third.push((4u32, Token::Varint(version as u64))));
    }
}

proof fn lemma_shielded_head(anchor: Option<Seq<SlotModel>>)
    requires
        anchor matches Some(a) ==> crate::protobuf::fits(anchor_schema(), a),
    ensures
        ShieldedModel::of_fields(
            match anchor {
                Some(a) => seq![(1u32, Token::Bytes(crate::protobuf::flat_bytes(a)))],
                None => Seq::empty(),
            },
        ) == Some(ShieldedModel { anchor, ..ShieldedModel::absent() }),
{
    let none: Seq<(u32, Token)> = Seq::empty();
    match anchor {
        Some(a) => {
            let token = Token::Bytes(crate::protobuf::flat_bytes(a));
            crate::protobuf::flat_message_reads_back(anchor_schema(), a, 99);
            lemma_shielded_step(
                none,
                ShieldedModel::absent(),
                1,
                token,
                ShieldedModel { anchor, ..ShieldedModel::absent() },
            );
            assert(none.push((1u32, token)) =~= seq![(1u32, token)]);
        },
        None => {},
    }
}

/// The encoding of a `ShieldedBundle` decodes to it.
pub proof fn shielded_message_reads_back(m: ShieldedModel)
    requires
        m.well_formed(),
    ensures
        ShieldedModel::decoded(m.encoded()) == Some(m),
{
    lemma_shielded_is_writable(m);
    crate::protobuf::written_message_reads_back(m.fields(), true, 100);
    lemma_shielded_head(m.anchor);
    let head: Seq<(u32, Token)> = match m.anchor {
        Some(a) => seq![(1u32, Token::Bytes(crate::protobuf::flat_bytes(a)))],
        None => Seq::empty(),
    };
    let first = ShieldedModel { anchor: m.anchor, ..ShieldedModel::absent() };
    lemma_actions_read(head, first, m.actions, m.actions.len());
    assert(m.actions.take(m.actions.len() as int) =~= m.actions);
    lemma_shielded_tail(
        head + repeated_messages(2, m.actions),
        ShieldedModel { actions: m.actions, ..first },
        m.cross,
        m.version,
    );
}

proof fn lemma_sigs_read(
    head: Seq<(u32, Token)>,
    before: AuthorizationModel,
    sigs: Seq<Seq<u8>>,
    n: nat,
)
    requires
        AuthorizationModel::of_fields(head) == Some(before),
        before.spend_auth_sigs.len() == 0,
        n <= sigs.len(),
    ensures
        AuthorizationModel::of_fields(head + repeated_bytes(2, sigs.take(n as int))) == Some(
            AuthorizationModel { spend_auth_sigs: sigs.take(n as int), ..before },
        ),
    decreases n,
{
    if n == 0 {
        assert(head + repeated_bytes(2, sigs.take(0)) =~= head);
        assert(sigs.take(0) =~= before.spend_auth_sigs);
    } else {
        let m = (n - 1) as nat;
        lemma_sigs_read(head, before, sigs, m);
        let fields = head + repeated_bytes(2, sigs.take(n as int));
        assert(fields.drop_last() =~= head + repeated_bytes(2, sigs.take(m as int)));
        assert(fields.last() == (2u32, Token::Bytes(sigs[m as int])));
        assert(sigs.take(m as int).push(sigs[m as int]) =~= sigs.take(n as int));
    }
}

/// The encoding of a `ShieldedAuthorization` decodes to it.
pub proof fn authorization_message_reads_back(m: AuthorizationModel)
    requires
        m.well_formed(),
    ensures
        AuthorizationModel::decoded(m.encoded()) == Some(m),
{
    let fields = m.fields();
    assert(crate::protobuf::writable(fields));
    crate::protobuf::written_message_reads_back(fields, true, 100);
    let absent = AuthorizationModel::absent();
    let head = optional_bytes(1, m.proof);
    let first = AuthorizationModel { proof: m.proof, ..absent };
    assert(AuthorizationModel::of_fields(head) == Some(first)) by {
        reveal_with_fuel(AuthorizationModel::of_fields, 2);
        if m.proof.len() == 0 {
            assert(m.proof =~= Seq::empty());
        } else {
            assert(head.drop_last() =~= Seq::empty());
        }
    }
    lemma_sigs_read(head, first, m.spend_auth_sigs, m.spend_auth_sigs.len());
    assert(m.spend_auth_sigs.take(m.spend_auth_sigs.len() as int) =~= m.spend_auth_sigs);
    let middle = head + repeated_bytes(2, m.spend_auth_sigs);
    if m.binding_sig.len() == 0 {
        assert(fields =~= middle);
        assert(m.binding_sig =~= Seq::empty());
    } else {
        assert(fields.drop_last() =~= middle);
    }
}

// --------------------------------------------------------------- bundles and their messages

/// A byte string among the fields of a message.
pub open spec fn blob(m: Seq<SlotModel>, i: int) -> Seq<u8> {
    match m[i] {
        SlotModel::Bytes(b) => b,
        SlotModel::Int(_) => Seq::empty(),
    }
}

/// The `ShieldedAction` of an action.
pub open spec fn action_message(a: ActionModel) -> Seq<SlotModel> {
    seq![
        SlotModel::Bytes(crate::pallas::encode_point(a.cv_net)),
        SlotModel::Bytes(crate::bytes::le_bytes(a.nullifier, 32)),
        SlotModel::Bytes(crate::pallas::encode_point(a.rk)),
        SlotModel::Bytes(crate::bytes::le_bytes(a.cm, 32)),
        SlotModel::Bytes(a.encrypted.epk),
        SlotModel::Bytes(a.encrypted.enc),
        SlotModel::Bytes(a.encrypted.out),
    ]
}

/// The `ShieldedBundle` of an anchor and actions.
pub open spec fn shielded_message(anchor: nat, actions: Seq<ActionModel>) -> ShieldedModel {
    ShieldedModel {
        anchor: Some(
            seq![SlotModel::Bytes(crate::bytes::le_bytes(anchor, 32)), SlotModel::Int(0u64)],
        ),
        actions: actions.map_values(|a: ActionModel| action_message(a)),
        cross: Seq::empty(),
        version: CIRCUIT_VERSION,
    }
}

/// The `ShieldedAuthorization` of a bundle.
pub open spec fn authorization_message(b: BundleModel) -> AuthorizationModel {
    AuthorizationModel {
        proof: b.proof,
        spend_auth_sigs: b.spend_auth_sigs,
        binding_sig: b.binding_sig,
    }
}

/// The field element that 32 bytes hold.
pub open spec fn base_of(field: &'static str, b: Seq<u8>) -> Result<nat, WireError> {
    if b.len() != 32 {
        Err(WireError::WrongLength(field))
    } else if crate::bytes::le_nat(b) < crate::pallas::base_modulus() {
        Ok(crate::bytes::le_nat(b))
    } else {
        Err(WireError::NotCanonical(field))
    }
}

/// The point, not the identity, that 32 bytes hold.
pub open spec fn point_of(field: &'static str, b: Seq<u8>) -> Result<nat, WireError> {
    if b.len() != 32 {
        Err(WireError::WrongLength(field))
    } else {
        match crate::pallas::decode_point(b) {
            Some(k) => if k == 0 {
                Err(WireError::NotCanonical(field))
            } else {
                Ok(k)
            },
            None => Err(WireError::NotCanonical(field)),
        }
    }
}

/// The action that a `ShieldedAction` holds. What is wrong first decides the error: the
/// ciphertexts, then the commitment, then the other fields in order.
pub open spec fn action_of(m: Seq<SlotModel>) -> Result<ActionModel, WireError> {
    if blob(m, 5).len() != 580 {
        Err(WireError::WrongLength("enc_ciphertext"))
    } else if blob(m, 6).len() != 80 {
        Err(WireError::WrongLength("out_ciphertext"))
    } else {
        match (
            base_of("cm_x", blob(m, 3)),
            point_of("cv", blob(m, 0)),
            base_of("nullifier", blob(m, 1)),
            point_of("rk", blob(m, 2)),
            point_of("ephemeral_key", blob(m, 4)),
        ) {
            (Err(e), _, _, _, _) => Err(e),
            (Ok(_), Err(e), _, _, _) => Err(e),
            (Ok(_), Ok(_), Err(e), _, _) => Err(e),
            (Ok(_), Ok(_), Ok(_), Err(e), _) => Err(e),
            (Ok(_), Ok(_), Ok(_), Ok(_), Err(e)) => Err(e),
            (Ok(cm), Ok(cv_net), Ok(nullifier), Ok(rk), Ok(_)) => Ok(
                ActionModel {
                    cv_net,
                    nullifier,
                    rk,
                    cm,
                    encrypted: EncryptedModel {
                        epk: blob(m, 4),
                        cm,
                        enc: blob(m, 5),
                        out: blob(m, 6),
                    },
                },
            ),
        }
    }
}

/// The actions of some messages; the first one that is wrong decides the error.
pub open spec fn actions_of(m: Seq<Seq<SlotModel>>) -> Result<Seq<ActionModel>, WireError>
    decreases m.len(),
{
    if m.len() == 0 {
        Ok(Seq::empty())
    } else {
        match actions_of(m.drop_last()) {
            Err(e) => Err(e),
            Ok(before) => match action_of(m.last()) {
                Err(e) => Err(e),
                Ok(a) => Ok(before.push(a)),
            },
        }
    }
}

/// Anchor and actions of a `ShieldedBundle`.
pub open spec fn shielded_of(m: ShieldedModel) -> Result<(nat, Seq<ActionModel>), WireError> {
    if m.version != CIRCUIT_VERSION {
        Err(WireError::WrongCircuitVersion(m.version))
    } else if m.cross.len() != 0 {
        Err(WireError::CrossCommunityNotSupported)
    } else if m.actions.len() != ACTIONS {
        Err(WireError::WrongActionCount(m.actions.len() as usize))
    } else {
        match m.anchor {
            None => Err(WireError::MissingAnchor),
            Some(anchor) => if anchor[1] != SlotModel::Int(0) {
                Err(WireError::UnsupportedTreeEpoch(epoch_of(anchor)))
            } else {
                match (actions_of(m.actions), base_of("anchor", blob(anchor, 0))) {
                    (Err(e), _) => Err(e),
                    (Ok(_), Err(e)) => Err(e),
                    (Ok(actions), Ok(root)) => Ok((root, actions)),
                }
            },
        }
    }
}

/// The tree epoch of an `Anchor`.
pub open spec fn epoch_of(anchor: Seq<SlotModel>) -> u32 {
    match anchor[1] {
        SlotModel::Int(v) => v as u32,
        SlotModel::Bytes(_) => 0,
    }
}

/// The bundle of the two messages, with the time and community of the transaction.
pub open spec fn bundle_of(
    m: ShieldedModel,
    auth: AuthorizationModel,
    community: nat,
    now: u64,
) -> Result<BundleModel, WireError> {
    match shielded_of(m) {
        Err(e) => Err(e),
        Ok((anchor, actions)) => if auth.spend_auth_sigs.len() != ACTIONS {
            Err(WireError::WrongActionCount(auth.spend_auth_sigs.len() as usize))
        } else if auth.proof.len() != PROOF_SIZE {
            Err(WireError::WrongLength("proof"))
        } else if exists|i: int|
            0 <= i < auth.spend_auth_sigs.len() && (#[trigger] auth.spend_auth_sigs[i]).len()
                != 64 {
            Err(WireError::WrongLength("spend_auth_sig"))
        } else if auth.binding_sig.len() != 64 {
            Err(WireError::WrongLength("binding_sig"))
        } else {
            Ok(
                BundleModel {
                    anchor,
                    now,
                    community,
                    actions,
                    proof: auth.proof,
                    spend_auth_sigs: auth.spend_auth_sigs,
                    binding_sig: auth.binding_sig,
                },
            )
        },
    }
}

/// The 32 bytes of a field.
fn bytes32(field: &'static str, bytes: &[u8]) -> (r: Result<[u8; 32], WireError>)
    ensures
        match r {
            Ok(b) => bytes@.len() == 32 && b@ == bytes@,
            Err(e) => bytes@.len() != 32 && e == WireError::WrongLength(field),
        },
{
    if bytes.len() != 32 {
        return Err(WireError::WrongLength(field));
    }
    let r: [u8; 32] = take(bytes, 0);
    assert(r@ =~= bytes@);
    Ok(r)
}

fn base(field: &'static str, bytes: &[u8]) -> (r: Result<Base, WireError>)
    ensures
        match r {
            Ok(b) => base_of(field, bytes@) == Ok::<nat, WireError>(b@),
            Err(e) => base_of(field, bytes@) == Err::<nat, WireError>(e),
        },
{
    match bytes32(field, bytes) {
        Err(e) => Err(e),
        Ok(b) => match Base::from_repr(&b) {
            Some(b) => Ok(b),
            None => Err(WireError::NotCanonical(field)),
        },
    }
}

/// A canonical point other than the identity. No honest `cv` or `rk` is the identity, and the
/// public inputs of the proof need affine coordinates.
fn point(field: &'static str, bytes: &[u8]) -> (r: Result<Point, WireError>)
    ensures
        match r {
            Ok(p) => point_of(field, bytes@) == Ok::<nat, WireError>(p@),
            Err(e) => point_of(field, bytes@) == Err::<nat, WireError>(e),
        },
{
    match bytes32(field, bytes) {
        Err(e) => Err(e),
        Ok(b) => match Point::from_bytes(&b) {
            Some(p) => if p.is_identity() {
                Err(WireError::NotCanonical(field))
            } else {
                Ok(p)
            },
            None => Err(WireError::NotCanonical(field)),
        },
    }
}

/// The part of a bundle inside the transaction body: anchor and actions. It exists before the
/// bundle is authorised, because the signatures cover the body it sits in.
pub fn shielded_to_wire(anchor: Base, actions: &[Action]) -> (r: ShieldedBundle)
    ensures
        r@ == shielded_message(anchor@, crate::bundle::action_models(actions@)),
{
    let mut messages: Vec<ShieldedAction> = Vec::new();
    let ghost models = crate::bundle::action_models(actions@);
    let mut i: usize = 0;
    while i < actions.len()
        invariant
            i <= actions@.len(),
            messages@.len() == i,
            models == crate::bundle::action_models(actions@),
            forall|j: int| 0 <= j < i ==> (#[trigger] messages@[j])@ == action_message(models[j]),
        decreases actions@.len() - i,
    {
        let a = &actions[i];
        let message = ShieldedAction {
            cv: copied(a.cv_net.to_bytes().as_slice()),
            nullifier: copied(a.nullifier.to_repr().as_slice()),
            rk: copied(a.rk.to_bytes().as_slice()),
            cm_x: copied(a.cm.to_repr().as_slice()),
            ephemeral_key: copied(a.encrypted.epk_bytes.as_slice()),
            enc_ciphertext: copied(a.encrypted.enc_ciphertext.as_slice()),
            out_ciphertext: copied(a.encrypted.out_ciphertext.as_slice()),
        };
        assert(message@ =~= action_message(models[i as int]));
        messages.push(message);
        i = i + 1;
    }
    let r = ShieldedBundle {
        anchor: Some(Anchor { root: copied(anchor.to_repr().as_slice()), tree_epoch: 0 }),
        actions: messages,
        cross_community_cv: Vec::new(),
        circuit_version: CIRCUIT_VERSION,
    };
    assert(r@ =~= shielded_message(anchor@, models));
    r
}

/// The serialised `ShieldedBundle` of an anchor and actions.
pub open spec fn shielded_bytes(anchor: nat, actions: Seq<ActionModel>) -> Seq<u8> {
    shielded_message(anchor, actions).encoded()
}

/// Serialised `ShieldedBundle`, what goes into `TransactionBody.shielded_transfer`.
pub fn encode_shielded(anchor: Base, actions: &[Action]) -> (r: Vec<u8>)
    ensures
        r@ == shielded_bytes(anchor@, crate::bundle::action_models(actions@)),
{
    shielded_to_wire(anchor, actions).encode_to_vec()
}

/// Splits a bundle into the part inside the body and the authorisation next to it.
pub fn to_wire(bundle: &Bundle) -> (r: (ShieldedBundle, ShieldedAuthorization))
    ensures
        r.0@ == shielded_message(bundle@.anchor, bundle@.actions),
        r.1@ == authorization_message(bundle@),
{
    let shielded = shielded_to_wire(bundle.anchor, bundle.actions.as_slice());
    let mut sigs: Vec<Vec<u8>> = Vec::new();
    let mut i: usize = 0;
    while i < bundle.spend_auth_sigs.len()
        invariant
            i <= bundle.spend_auth_sigs@.len(),
            sigs@.len() == i,
            forall|j: int|
                0 <= j < i ==> (#[trigger] sigs@[j])@ == bundle.spend_auth_sigs@[j].0@,
        decreases bundle.spend_auth_sigs@.len() - i,
    {
        sigs.push(copied(bundle.spend_auth_sigs[i].0.as_slice()));
        i = i + 1;
    }
    let authorization = ShieldedAuthorization {
        proof: copied(bundle.proof.as_slice()),
        spend_auth_sigs: sigs,
        binding_sig: copied(bundle.binding_sig.0.as_slice()),
    };
    assert(authorization@ =~= authorization_message(bundle@));
    (shielded, authorization)
}

fn action_from_wire(a: &ShieldedAction) -> (r: Result<Action, WireError>)
    ensures
        match r {
            Ok(action) => action_of(a@) == Ok::<ActionModel, WireError>(action@),
            Err(e) => action_of(a@) == Err::<ActionModel, WireError>(e),
        },
{
    if a.enc_ciphertext.len() != 580 {
        return Err(WireError::WrongLength("enc_ciphertext"));
    }
    let enc_ciphertext: [u8; 580] = take(a.enc_ciphertext.as_slice(), 0);
    if a.out_ciphertext.len() != 80 {
        return Err(WireError::WrongLength("out_ciphertext"));
    }
    let out_ciphertext: [u8; 80] = take(a.out_ciphertext.as_slice(), 0);
    assert(enc_ciphertext@ =~= a.enc_ciphertext@);
    assert(out_ciphertext@ =~= a.out_ciphertext@);
    let cm = match base("cm_x", a.cm_x.as_slice()) {
        Ok(v) => v,
        Err(e) => return Err(e),
    };
    let cv_net = match point("cv", a.cv.as_slice()) {
        Ok(v) => v,
        Err(e) => return Err(e),
    };
    let nullifier = match base("nullifier", a.nullifier.as_slice()) {
        Ok(v) => v,
        Err(e) => return Err(e),
    };
    let rk = match point("rk", a.rk.as_slice()) {
        Ok(v) => v,
        Err(e) => return Err(e),
    };
    match point("ephemeral_key", a.ephemeral_key.as_slice()) {
        Ok(_) => {},
        Err(e) => return Err(e),
    }
    let epk_bytes: [u8; 32] = take(a.ephemeral_key.as_slice(), 0);
    assert(epk_bytes@ =~= a.ephemeral_key@);
    let encrypted = EncryptedNote { epk_bytes, cm, enc_ciphertext, out_ciphertext };
    Ok(Action { cv_net, nullifier, rk, cm, encrypted })
}

/// Anchor and actions of a `ShieldedBundle`, checked field by field.
pub fn shielded_from_wire(shielded: &ShieldedBundle) -> (r: Result<(Base, Vec<Action>), WireError>)
    ensures
        match r {
            Ok((anchor, actions)) => shielded_of(shielded@) == Ok::<
                (nat, Seq<ActionModel>),
                WireError,
            >((anchor@, crate::bundle::action_models(actions@))),
            Err(e) => shielded_of(shielded@) == Err::<(nat, Seq<ActionModel>), WireError>(e),
        },
{
    if shielded.circuit_version != CIRCUIT_VERSION {
        return Err(WireError::WrongCircuitVersion(shielded.circuit_version));
    }
    if shielded.cross_community_cv.len() != 0 {
        return Err(WireError::CrossCommunityNotSupported);
    }
    if shielded.actions.len() != ACTIONS {
        return Err(WireError::WrongActionCount(shielded.actions.len()));
    }
    let anchor = match &shielded.anchor {
        Some(anchor) => anchor,
        None => return Err(WireError::MissingAnchor),
    };
    if anchor.tree_epoch != 0 {
        return Err(WireError::UnsupportedTreeEpoch(anchor.tree_epoch));
    }
    let mut actions: Vec<Action> = Vec::new();
    let ghost all = shielded@.actions;
    let mut i: usize = 0;
    assert(all.take(0) =~= Seq::empty());
    assert(crate::bundle::action_models(actions@) =~= Seq::empty());
    while i < shielded.actions.len()
        invariant
            i <= shielded.actions@.len(),
            all == shielded@.actions,
            actions_of(all.take(i as int)) == Ok::<Seq<ActionModel>, WireError>(
                crate::bundle::action_models(actions@),
            ),
            shielded.circuit_version == CIRCUIT_VERSION,
            shielded.cross_community_cv@.len() == 0,
            shielded.actions@.len() == ACTIONS,
            shielded.anchor == Some(*anchor),
            anchor.tree_epoch == 0,
        decreases shielded.actions@.len() - i,
    {
        let ghost before = crate::bundle::action_models(actions@);
        proof {
            assert(all.take(i + 1).drop_last() =~= all.take(i as int));
            assert(all.take(i + 1).last() == shielded.actions@[i as int]@);
        }
        match action_from_wire(&shielded.actions[i]) {
            Ok(a) => {
                actions.push(a);
                assert(crate::bundle::action_models(actions@) =~= before.push(a@));
            },
            Err(e) => {
                proof {
                    lemma_actions_stop(all, i as int + 1, e);
                }
                return Err(e);
            },
        }
        i = i + 1;
    }
    assert(all.take(i as int) =~= all);
    match base("anchor", anchor.root.as_slice()) {
        Ok(root) => Ok((root, actions)),
        Err(e) => Err(e),
    }
}

proof fn lemma_actions_stop(m: Seq<Seq<SlotModel>>, n: int, e: WireError)
    requires
        0 <= n <= m.len(),
        actions_of(m.take(n)) == Err::<Seq<ActionModel>, WireError>(e),
    ensures
        actions_of(m) == Err::<Seq<ActionModel>, WireError>(e),
    decreases m.len(),
{
    if n == m.len() {
        assert(m.take(n) =~= m);
    } else {
        assert(m.drop_last().take(n) =~= m.take(n));
        lemma_actions_stop(m.drop_last(), n, e);
    }
}

/// Rebuilds a bundle from the wire, with the time and community of the transaction.
pub fn from_wire(
    shielded: &ShieldedBundle,
    authorization: &ShieldedAuthorization,
    community: Base,
    now: u64,
) -> (r: Result<Bundle, WireError>)
    ensures
        match r {
            Ok(b) => bundle_of(shielded@, authorization@, community@, now) == Ok::<
                BundleModel,
                WireError,
            >(b@),
            Err(e) => bundle_of(shielded@, authorization@, community@, now) == Err::<
                BundleModel,
                WireError,
            >(e),
        },
{
    let (anchor, actions) = match shielded_from_wire(shielded) {
        Ok(v) => v,
        Err(e) => return Err(e),
    };
    let ghost auth = authorization@;
    if authorization.spend_auth_sigs.len() != ACTIONS {
        return Err(WireError::WrongActionCount(authorization.spend_auth_sigs.len()));
    }
    if authorization.proof.len() != PROOF_SIZE {
        return Err(WireError::WrongLength("proof"));
    }
    let mut sigs: Vec<SpendAuthSignature> = Vec::new();
    let mut i: usize = 0;
    while i < authorization.spend_auth_sigs.len()
        invariant
            i <= authorization.spend_auth_sigs@.len(),
            auth == authorization@,
            sigs@.len() == i,
            forall|j: int| 0 <= j < i ==> (#[trigger] sigs@[j]).0@ == auth.spend_auth_sigs[j],
            forall|j: int| 0 <= j < i ==> (#[trigger] auth.spend_auth_sigs[j]).len() == 64,
            auth.spend_auth_sigs.len() == ACTIONS,
            auth.proof.len() == PROOF_SIZE,
            shielded_of(shielded@) == Ok::<(nat, Seq<ActionModel>), WireError>(
                (anchor@, crate::bundle::action_models(actions@)),
            ),
        decreases authorization.spend_auth_sigs@.len() - i,
    {
        let s = authorization.spend_auth_sigs[i].as_slice();
        assert(s@ == auth.spend_auth_sigs[i as int]);
        if s.len() != 64 {
            return Err(WireError::WrongLength("spend_auth_sig"));
        }
        let sig: [u8; 64] = take(s, 0);
        assert(sig@ =~= s@);
        sigs.push(SpendAuthSignature(sig));
        i = i + 1;
    }
    if authorization.binding_sig.len() != 64 {
        return Err(WireError::WrongLength("binding_sig"));
    }
    let binding: [u8; 64] = take(authorization.binding_sig.as_slice(), 0);
    assert(binding@ =~= authorization.binding_sig@);
    let b = Bundle {
        anchor,
        now,
        community,
        actions,
        proof: copied(authorization.proof.as_slice()),
        spend_auth_sigs: sigs,
        binding_sig: BindingSignature(binding),
    };
    assert(b@.spend_auth_sigs =~= auth.spend_auth_sigs);
    Ok(b)
}

/// The two serialised messages of a bundle.
pub open spec fn bundle_bytes(b: BundleModel) -> (Seq<u8>, Seq<u8>) {
    (shielded_bytes(b.anchor, b.actions), authorization_message(b).encoded())
}

/// Serialised `ShieldedBundle` and `ShieldedAuthorization`.
pub fn encode(bundle: &Bundle) -> (r: (Vec<u8>, Vec<u8>))
    ensures
        (r.0@, r.1@) == bundle_bytes(bundle@),
{
    let (shielded, authorization) = to_wire(bundle);
    (shielded.encode_to_vec(), authorization.encode_to_vec())
}

/// The `ShieldedBundle` that some bytes are the encoding of.
pub open spec fn strictly_decoded(bytes: Seq<u8>) -> Result<ShieldedModel, WireError> {
    if bytes.len() > MAX_SHIELDED_BUNDLE_SIZE {
        Err(WireError::TooLarge)
    } else {
        match ShieldedModel::decoded(bytes) {
            None => Err(WireError::Protobuf),
            Some(m) => if m.encoded() != bytes {
                Err(WireError::NotCanonical("ShieldedBundle"))
            } else {
                Ok(m)
            },
        }
    }
}

fn decode_shielded_message(bytes: &[u8]) -> (r: Result<ShieldedBundle, WireError>)
    ensures
        match r {
            Ok(m) => strictly_decoded(bytes@) == Ok::<ShieldedModel, WireError>(m@),
            Err(e) => strictly_decoded(bytes@) == Err::<ShieldedModel, WireError>(e),
        },
{
    if bytes.len() > MAX_SHIELDED_BUNDLE_SIZE {
        return Err(WireError::TooLarge);
    }
    let shielded = match ShieldedBundle::decode(bytes) {
        Some(m) => m,
        None => return Err(WireError::Protobuf),
    };
    if !same(shielded.encode_to_vec().as_slice(), bytes) {
        return Err(WireError::NotCanonical("ShieldedBundle"));
    }
    Ok(shielded)
}

/// Anchor and actions of a serialised `ShieldedBundle`.
pub open spec fn decoded_shielded(bytes: Seq<u8>) -> Result<(nat, Seq<ActionModel>), WireError> {
    match strictly_decoded(bytes) {
        Err(e) => Err(e),
        Ok(m) => shielded_of(m),
    }
}

/// Anchor and actions from a serialised `ShieldedBundle`, as strictly as `decode`.
pub fn decode_shielded(bytes: &[u8]) -> (r: Result<(Base, Vec<Action>), WireError>)
    ensures
        match r {
            Ok((anchor, actions)) => decoded_shielded(bytes@) == Ok::<
                (nat, Seq<ActionModel>),
                WireError,
            >((anchor@, crate::bundle::action_models(actions@))),
            Err(e) => decoded_shielded(bytes@) == Err::<(nat, Seq<ActionModel>), WireError>(e),
        },
{
    match decode_shielded_message(bytes) {
        Ok(m) => shielded_from_wire(&m),
        Err(e) => Err(e),
    }
}

/// The bundle of two serialised messages.
pub open spec fn decoded_bundle(
    shielded: Seq<u8>,
    authorization: Seq<u8>,
    community: nat,
    now: u64,
) -> Result<BundleModel, WireError> {
    if authorization.len() > MAX_AUTHORIZATION_SIZE {
        Err(WireError::TooLarge)
    } else {
        match (strictly_decoded(shielded), AuthorizationModel::decoded(authorization)) {
            (Err(e), _) => Err(e),
            (Ok(_), None) => Err(WireError::Protobuf),
            (Ok(m), Some(auth)) => if auth.encoded() != authorization {
                Err(WireError::NotCanonical("ShieldedAuthorization"))
            } else {
                bundle_of(m, auth, community, now)
            },
        }
    }
}

/// Decodes both messages; see the module documentation for what "strict" covers.
pub fn decode(
    shielded_bytes: &[u8],
    authorization_bytes: &[u8],
    community: Base,
    now: u64,
) -> (r: Result<Bundle, WireError>)
    ensures
        match r {
            Ok(b) => decoded_bundle(shielded_bytes@, authorization_bytes@, community@, now) == Ok::<
                BundleModel,
                WireError,
            >(b@),
            Err(e) => decoded_bundle(shielded_bytes@, authorization_bytes@, community@, now)
                == Err::<BundleModel, WireError>(e),
        },
{
    if authorization_bytes.len() > MAX_AUTHORIZATION_SIZE {
        return Err(WireError::TooLarge);
    }
    let shielded = match decode_shielded_message(shielded_bytes) {
        Ok(m) => m,
        Err(e) => return Err(e),
    };
    let authorization = match ShieldedAuthorization::decode(authorization_bytes) {
        Some(m) => m,
        None => return Err(WireError::Protobuf),
    };
    if !same(authorization.encode_to_vec().as_slice(), authorization_bytes) {
        return Err(WireError::NotCanonical("ShieldedAuthorization"));
    }
    from_wire(&shielded, &authorization, community, now)
}

// ----------------------------------------------------------------------------------- laws

/// An action as it is published: its points, the ephemeral key among them, are canonical and not
/// the identity, its field elements are canonical, its byte strings have their lengths and its
/// commitment is the encrypted note's.
pub open spec fn publishable(a: ActionModel) -> bool {
    &&& a.cv_net != 0
    &&& crate::pallas::decode_point(crate::pallas::encode_point(a.cv_net)) == Some(a.cv_net)
    &&& a.rk != 0
    &&& crate::pallas::decode_point(crate::pallas::encode_point(a.rk)) == Some(a.rk)
    &&& a.nullifier < crate::pallas::base_modulus()
    &&& a.cm < crate::pallas::base_modulus()
    &&& a.encrypted.cm == a.cm
    &&& a.encrypted.epk.len() == 32
    &&& crate::pallas::decode_point(a.encrypted.epk) is Some
    &&& crate::pallas::decode_point(a.encrypted.epk)->0 != 0
    &&& a.encrypted.enc.len() == 580
    &&& a.encrypted.out.len() == 80
}

/// Anchor and actions as they are published.
pub open spec fn all_publishable(anchor: nat, actions: Seq<ActionModel>) -> bool {
    &&& anchor < crate::pallas::base_modulus()
    &&& actions.len() == ACTIONS
    &&& forall|i: int| 0 <= i < actions.len() ==> publishable(#[trigger] actions[i])
}

proof fn lemma_base_round_trip(field: &'static str, x: nat)
    requires
        x < crate::pallas::base_modulus(),
    ensures
        base_of(field, crate::bytes::le_bytes(x, 32)) == Ok::<nat, WireError>(x),
        crate::bytes::le_bytes(x, 32).len() == 32,
{
    crate::bytes::lemma_pow256_values();
    crate::bytes::lemma_le_nat_of_le_bytes(x, 32);
}

proof fn lemma_action_round_trip(a: ActionModel)
    requires
        publishable(a),
    ensures
        action_of(action_message(a)) == Ok::<ActionModel, WireError>(a),
        crate::protobuf::fits(action_schema(), action_message(a)),
{
    lemma_base_round_trip("cm_x", a.cm);
    lemma_base_round_trip("nullifier", a.nullifier);
    crate::pallas::lemma_encoding_length(a.cv_net);
    crate::pallas::lemma_encoding_length(a.rk);
}

proof fn lemma_varint_is_short(v: nat, n: nat)
    requires
        v < crate::protobuf::power128(n),
        n > 0,
    ensures
        crate::protobuf::varint_bytes(v).len() <= n,
    decreases n,
{
    if v >= 128 {
        if n == 1 {
            reveal_with_fuel(crate::protobuf::power128, 2);
        } else {
            let p = crate::protobuf::power128((n - 1) as nat);
            assert(v / 128 < p) by (nonlinear_arith)
                requires
                    v < 128 * p,
            ;
            lemma_varint_is_short(v / 128, (n - 1) as nat);
        }
    }
}

/// Key and length take one byte each, the length of a longer byte string two.
proof fn lemma_field_length(tag: u32, token: Token)
    requires
        tag < 16,
    ensures
        token matches Token::Bytes(b) ==> b.len() < 16384 ==> crate::protobuf::token_bytes(
            tag,
            token,
        ).len() == b.len() + (if b.len() < 128 {
            2int
        } else {
            3
        }),
        token matches Token::Varint(v) ==> v < 128 ==> crate::protobuf::token_bytes(tag, token).len()
            == 2,
{
    reveal_with_fuel(crate::protobuf::varint_bytes, 3);
}

/// One more field makes a message longer by the field.
proof fn lemma_push_length(fields: Seq<(u32, Token)>, f: (u32, Token))
    requires
        f.0 < 16,
    ensures
        f.1 matches Token::Bytes(b) ==> b.len() < 16384 ==> crate::protobuf::message_bytes(
            fields.push(f),
        ).len() == crate::protobuf::message_bytes(fields).len() + b.len() + (if b.len() < 128 {
            2int
        } else {
            3
        }),
        f.1 matches Token::Varint(v) ==> v < 128 ==> crate::protobuf::message_bytes(
            fields.push(f),
        ).len() == crate::protobuf::message_bytes(fields).len() + 2,
{
    assert(fields.push(f).drop_last() =~= fields);
    lemma_field_length(f.0, f.1);
}

proof fn lemma_action_length(a: ActionModel)
    requires
        publishable(a),
    ensures
        crate::protobuf::flat_bytes(action_message(a)).len() == 835,
{
    let m = action_message(a);
    lemma_base_round_trip("cm_x", a.cm);
    lemma_base_round_trip("nullifier", a.nullifier);
    crate::pallas::lemma_encoding_length(a.cv_net);
    crate::pallas::lemma_encoding_length(a.rk);
    let m6 = m.drop_last();
    let m5 = m6.drop_last();
    let m4 = m5.drop_last();
    let m3 = m4.drop_last();
    let m2 = m3.drop_last();
    let m1 = m2.drop_last();
    let p0: Seq<(u32, Token)> = Seq::empty();
    let p1 = p0.push((1, Token::Bytes(blob(m, 0))));
    let p2 = p1.push((2, Token::Bytes(blob(m, 1))));
    let p3 = p2.push((3, Token::Bytes(blob(m, 2))));
    let p4 = p3.push((4, Token::Bytes(blob(m, 3))));
    let p5 = p4.push((5, Token::Bytes(blob(m, 4))));
    let p6 = p5.push((6, Token::Bytes(blob(m, 5))));
    let p7 = p6.push((7, Token::Bytes(blob(m, 6))));
    assert(crate::protobuf::present(m1.drop_last()) =~= p0);
    assert(crate::protobuf::present(m1) == p1);
    assert(crate::protobuf::present(m2) == p2);
    assert(crate::protobuf::present(m3) == p3);
    assert(crate::protobuf::present(m4) == p4);
    assert(crate::protobuf::present(m5) == p5);
    assert(crate::protobuf::present(m6) == p6);
    assert(crate::protobuf::present(m) == p7);
    lemma_push_length(p0, p1.last());
    lemma_push_length(p1, p2.last());
    lemma_push_length(p2, p3.last());
    lemma_push_length(p3, p4.last());
    lemma_push_length(p4, p5.last());
    lemma_push_length(p5, p6.last());
    lemma_push_length(p6, p7.last());
}

proof fn lemma_shielded_length(anchor: nat, actions: Seq<ActionModel>)
    requires
        all_publishable(anchor, actions),
    ensures
        shielded_message(anchor, actions).well_formed(),
        shielded_bytes(anchor, actions).len() == 1714,
{
    let m = shielded_message(anchor, actions);
    let a = m.anchor->0;
    let none: Seq<(u32, Token)> = Seq::empty();
    lemma_base_round_trip("anchor", anchor);
    assert(crate::protobuf::flat_bytes(a).len() == 34) by {
        let root = (1u32, Token::Bytes(blob(a, 0)));
        let a1 = a.drop_last();
        assert(crate::protobuf::present(a1.drop_last()) =~= none);
        assert(crate::protobuf::present(a1) == none.push(root));
        assert(crate::protobuf::present(a) == none.push(root));
        lemma_push_length(none, root);
    }
    lemma_action_length(actions[0]);
    lemma_action_length(actions[1]);
    lemma_action_round_trip(actions[0]);
    lemma_action_round_trip(actions[1]);
    assert(m.actions =~= seq![action_message(actions[0]), action_message(actions[1])]);
    let f1 = (1u32, Token::Bytes(crate::protobuf::flat_bytes(a)));
    let f2 = (2u32, Token::Bytes(crate::protobuf::flat_bytes(m.actions[0])));
    let f3 = (2u32, Token::Bytes(crate::protobuf::flat_bytes(m.actions[1])));
    let f4 = (4u32, Token::Varint(2u64));
    assert(m.fields() =~= none.push(f1).push(f2).push(f3).push(f4));
    lemma_push_length(none, f1);
    lemma_push_length(none.push(f1), f2);
    lemma_push_length(none.push(f1).push(f2), f3);
    lemma_push_length(none.push(f1).push(f2).push(f3), f4);
}

proof fn lemma_authorization_length(b: BundleModel)
    requires
        b.proof.len() == PROOF_SIZE,
        b.spend_auth_sigs.len() == ACTIONS,
        forall|i: int|
            0 <= i < b.spend_auth_sigs.len() ==> (#[trigger] b.spend_auth_sigs[i]).len() == 64,
        b.binding_sig.len() == 64,
    ensures
        authorization_message(b).encoded().len() == 8137,
{
    let auth = authorization_message(b);
    let sigs = b.spend_auth_sigs;
    assert(sigs =~= seq![sigs[0], sigs[1]]);
    let f1 = (1u32, Token::Bytes(b.proof));
    let f2 = (2u32, Token::Bytes(sigs[0]));
    let f3 = (2u32, Token::Bytes(sigs[1]));
    let f4 = (3u32, Token::Bytes(b.binding_sig));
    let none: Seq<(u32, Token)> = Seq::empty();
    assert(auth.fields() =~= none.push(f1).push(f2).push(f3).push(f4));
    lemma_push_length(none, f1);
    lemma_push_length(none.push(f1), f2);
    lemma_push_length(none.push(f1).push(f2), f3);
    lemma_push_length(none.push(f1).push(f2).push(f3), f4);
}

/// Every published bundle takes the same room: 1714 bytes in the transaction body and 8137 bytes
/// next to it.
pub proof fn published_bundles_have_one_size(b: BundleModel)
    requires
        bundle_publishable(b),
    ensures
        bundle_bytes(b).0.len() == 1714,
        bundle_bytes(b).1.len() == 8137,
{
    lemma_shielded_length(b.anchor, b.actions);
    lemma_authorization_length(b);
}

proof fn lemma_actions_round_trip(actions: Seq<ActionModel>)
    requires
        forall|i: int| 0 <= i < actions.len() ==> publishable(#[trigger] actions[i]),
    ensures
        actions_of(actions.map_values(|a: ActionModel| action_message(a))) == Ok::<
            Seq<ActionModel>,
            WireError,
        >(actions),
    decreases actions.len(),
{
    let m = actions.map_values(|a: ActionModel| action_message(a));
    if actions.len() > 0 {
        let front = actions.drop_last();
        assert(forall|i: int| 0 <= i < front.len() ==> front[i] == actions[i]);
        lemma_actions_round_trip(front);
        assert(m.drop_last() =~= front.map_values(|a: ActionModel| action_message(a)));
        lemma_action_round_trip(actions.last());
        assert(front.push(actions.last()) =~= actions);
    } else {
        assert(actions =~= Seq::empty());
    }
}

/// What `encode_shielded` writes, `decode_shielded` gives back.
pub proof fn encoded_actions_decode(anchor: nat, actions: Seq<ActionModel>)
    requires
        all_publishable(anchor, actions),
    ensures
        decoded_shielded(shielded_bytes(anchor, actions)) == Ok::<
            (nat, Seq<ActionModel>),
            WireError,
        >((anchor, actions)),
{
    lemma_shielded_length(anchor, actions);
    shielded_message_reads_back(shielded_message(anchor, actions));
    lemma_actions_round_trip(actions);
    lemma_base_round_trip("anchor", anchor);
}

/// A bundle as it is published.
pub open spec fn bundle_publishable(b: BundleModel) -> bool {
    &&& all_publishable(b.anchor, b.actions)
    &&& b.proof.len() == PROOF_SIZE
    &&& b.spend_auth_sigs.len() == ACTIONS
    &&& forall|i: int|
        0 <= i < b.spend_auth_sigs.len() ==> (#[trigger] b.spend_auth_sigs[i]).len() == 64
    &&& b.binding_sig.len() == 64
}

/// What `encode` writes, `decode` gives back, for the time and community of the bundle.
pub proof fn encoded_bundle_decodes(b: BundleModel)
    requires
        bundle_publishable(b),
    ensures
        decoded_bundle(bundle_bytes(b).0, bundle_bytes(b).1, b.community, b.now) == Ok::<
            BundleModel,
            WireError,
        >(b),
{
    encoded_actions_decode(b.anchor, b.actions);
    let auth = authorization_message(b);
    authorization_message_reads_back(auth);
    lemma_authorization_length(b);
}

proof fn lemma_decoded_kinds(fields: Seq<(u32, Token)>)
    requires
        ShieldedModel::of_fields(fields) is Some,
    ensures
        ({
            let m = ShieldedModel::of_fields(fields)->0;
            &&& m.anchor matches Some(a) ==> kinds_match(anchor_schema(), a)
            &&& forall|i: int|
                0 <= i < m.actions.len() ==> kinds_match(action_schema(), #[trigger] m.actions[i])
        }),
    decreases fields.len(),
{
    if fields.len() > 0 {
        lemma_decoded_kinds(fields.drop_last());
        let before = ShieldedModel::of_fields(fields.drop_last())->0;
        let tag = fields.last().0;
        match fields.last().1 {
            Token::Bytes(b) => {
                if tag == 1 {
                    let base = match before.anchor {
                        Some(a) => a,
                        None => crate::protobuf::absent_all(anchor_schema()),
                    };
                    lemma_overwritten_fits(
                        anchor_schema(),
                        base,
                        crate::protobuf::tokens(b, true, 99)->0,
                    );
                } else if tag == 2 {
                    lemma_overwritten_fits(
                        action_schema(),
                        crate::protobuf::absent_all(action_schema()),
                        crate::protobuf::tokens(b, true, 99)->0,
                    );
                }
            },
            _ => {},
        }
    }
}

proof fn lemma_base_has_one_encoding(field: &'static str, b: Seq<u8>)
    requires
        base_of(field, b) is Ok,
    ensures
        b == crate::bytes::le_bytes(base_of(field, b)->Ok_0, 32),
        base_of(field, b)->Ok_0 < crate::pallas::base_modulus(),
{
    crate::bytes::lemma_le_bytes_of_le_nat(b);
}

proof fn lemma_point_has_one_encoding(field: &'static str, b: Seq<u8>)
    requires
        point_of(field, b) is Ok,
    ensures
        b == crate::pallas::encode_point(point_of(field, b)->Ok_0),
        crate::pallas::decode_point(b) == Some(point_of(field, b)->Ok_0),
        point_of(field, b)->Ok_0 != 0,
{
}

proof fn lemma_action_has_one_message(m: Seq<SlotModel>)
    requires
        kinds_match(action_schema(), m),
        action_of(m) is Ok,
    ensures
        m == action_message(action_of(m)->Ok_0),
        publishable(action_of(m)->Ok_0),
{
    lemma_base_has_one_encoding("cm_x", blob(m, 3));
    lemma_point_has_one_encoding("cv", blob(m, 0));
    lemma_base_has_one_encoding("nullifier", blob(m, 1));
    lemma_point_has_one_encoding("rk", blob(m, 2));
    assert(forall|i: int| 0 <= i < 7 ==> #[trigger] m[i] == SlotModel::Bytes(blob(m, i)));
    assert(m =~= action_message(action_of(m)->Ok_0));
}

proof fn lemma_actions_have_one_message(m: Seq<Seq<SlotModel>>)
    requires
        forall|i: int| 0 <= i < m.len() ==> kinds_match(action_schema(), #[trigger] m[i]),
        actions_of(m) is Ok,
    ensures
        m == actions_of(m)->Ok_0.map_values(|a: ActionModel| action_message(a)),
        forall|i: int|
            0 <= i < actions_of(m)->Ok_0.len() ==> publishable(#[trigger] actions_of(m)->Ok_0[i]),
    decreases m.len(),
{
    let r = actions_of(m)->Ok_0;
    if m.len() > 0 {
        let front = m.drop_last();
        assert(forall|i: int| 0 <= i < front.len() ==> front[i] == m[i]);
        lemma_actions_have_one_message(front);
        lemma_action_has_one_message(m.last());
        let before = actions_of(front)->Ok_0;
        assert(r == before.push(action_of(m.last())->Ok_0));
        assert(m =~= front.push(m.last()));
        assert(r.map_values(|a: ActionModel| action_message(a)) =~= before.map_values(
            |a: ActionModel| action_message(a),
        ).push(action_message(r.last())));
    } else {
        assert(m =~= r.map_values(|a: ActionModel| action_message(a)));
    }
}

proof fn lemma_shielded_has_one_message(m: ShieldedModel)
    requires
        m.anchor matches Some(a) ==> kinds_match(anchor_schema(), a),
        forall|i: int|
            0 <= i < m.actions.len() ==> kinds_match(action_schema(), #[trigger] m.actions[i]),
        shielded_of(m) is Ok,
    ensures
        ({
            let r = shielded_of(m)->Ok_0;
            m == shielded_message(r.0, r.1) && all_publishable(r.0, r.1)
        }),
{
    let r = shielded_of(m)->Ok_0;
    let a = m.anchor->0;
    lemma_actions_have_one_message(m.actions);
    lemma_base_has_one_encoding("anchor", blob(a, 0));
    assert(a[0] == SlotModel::Bytes(blob(a, 0)));
    assert(a =~= seq![
        SlotModel::Bytes(crate::bytes::le_bytes(r.0, 32)),
        SlotModel::Int(0u64),
    ]);
    assert(m =~= shielded_message(r.0, r.1));
}

/// Anchor and actions have exactly one encoding, and what decodes can be published.
pub proof fn actions_have_one_encoding(bytes: Seq<u8>)
    requires
        decoded_shielded(bytes) is Ok,
    ensures
        ({
            let r = decoded_shielded(bytes)->Ok_0;
            bytes == shielded_bytes(r.0, r.1) && all_publishable(r.0, r.1)
        }),
{
    let fields = crate::protobuf::tokens(bytes, true, 100)->0;
    lemma_decoded_kinds(fields);
    lemma_shielded_has_one_message(ShieldedModel::of_fields(fields)->0);
}

/// A bundle has exactly one encoding, and what decodes can be published.
pub proof fn bundle_has_one_encoding(
    shielded: Seq<u8>,
    authorization: Seq<u8>,
    community: nat,
    now: u64,
)
    requires
        decoded_bundle(shielded, authorization, community, now) is Ok,
    ensures
        ({
            let b = decoded_bundle(shielded, authorization, community, now)->Ok_0;
            &&& (shielded, authorization) == bundle_bytes(b)
            &&& bundle_publishable(b)
            &&& b.community == community
            &&& b.now == now
        }),
{
    actions_have_one_encoding(shielded);
    let b = decoded_bundle(shielded, authorization, community, now)->Ok_0;
    let auth = AuthorizationModel::decoded(authorization)->0;
    assert(auth =~= authorization_message(b));
}

// ------------------------------------------------------------------------ transaction body

/// What a shielded transfer's `TransactionBody` says, as far as signing it is concerned.
#[derive(Clone, Debug, PartialEq, Eq)]
pub struct TransferBody {
    /// `created_at.seconds`, the `now` of the proof
    pub created_at: u64,
    pub version_number: u32,
    /// the serialised `ShieldedBundle` inside it
    pub shielded: Vec<u8>,
    /// number of `EncryptedMemo` entries; their content is not interpreted here
    pub memos: usize,
}

/// What a `TransactionBody` says.
#[verifier::ext_equal]
pub struct BodyModel {
    pub created_at: u64,
    pub version_number: u32,
    pub shielded: Seq<u8>,
    pub memos: nat,
}

impl View for TransferBody {
    type V = BodyModel;

    open spec fn view(&self) -> BodyModel {
        BodyModel {
            created_at: self.created_at,
            version_number: self.version_number,
            shielded: self.shielded@,
            memos: self.memos as nat,
        }
    }
}

/// `Timestamp { int64 seconds = 1; int32 nanos = 2; }`, as far as it was read.
pub open spec fn timestamp_fields(fields: Seq<(u32, Token)>) -> Result<
    (Option<u64>, Option<u64>),
    WireError,
>
    decreases fields.len(),
{
    if fields.len() == 0 {
        Ok((None, None))
    } else {
        match (timestamp_fields(fields.drop_last()), fields.last()) {
            (Err(e), _) => Err(e),
            (Ok((None, nanos)), (1u32, Token::Varint(v))) => Ok((Some(v), nanos)),
            (Ok((seconds, None)), (2u32, Token::Varint(v))) => Ok((seconds, Some(v))),
            _ => Err(WireError::NotCanonical("created_at")),
        }
    }
}

/// The seconds of a `Timestamp`: whole, non-negative seconds that fit into a note timestamp.
pub open spec fn timestamp_of(bytes: Seq<u8>) -> Result<u64, WireError> {
    match crate::protobuf::tokens(bytes, false, 0) {
        None => Err(WireError::Protobuf),
        Some(fields) => match timestamp_fields(fields) {
            Err(e) => Err(e),
            Ok((seconds, nanos)) => {
                let s = value_or_zero(seconds);
                if value_or_zero(nanos) != 0 || s >= crate::note::TIMESTAMP_LIMIT {
                    Err(WireError::NotCanonical("created_at"))
                } else {
                    Ok(s)
                }
            },
        },
    }
}

pub open spec fn value_or_zero(v: Option<u64>) -> u64 {
    match v {
        Some(v) => v,
        None => 0,
    }
}

/// The fields of a `TransactionBody`, as far as they were read.
#[verifier::ext_equal]
pub struct BodyFields {
    pub created_at: Option<u64>,
    pub version_number: Option<u32>,
    pub transfer_type: Option<u64>,
    pub other_community: Option<Seq<u8>>,
    pub shielded: Option<Seq<u8>>,
    pub memos: nat,
}

impl BodyFields {
    pub open spec fn none() -> BodyFields {
        BodyFields {
            created_at: None,
            version_number: None,
            transfer_type: None,
            other_community: None,
            shielded: None,
            memos: 0,
        }
    }

    /// One more field: memos (1) repeat, creation time (2), version (3), type (4), other
    /// community (5) and the shielded transfer (6) occur once, and there is nothing else.
    pub open spec fn with(self, tag: u32, token: Token) -> Result<BodyFields, WireError> {
        match (tag, token) {
            (1u32, Token::Bytes(_)) => Ok(BodyFields { memos: self.memos + 1, ..self }),
            (2u32, Token::Bytes(b)) => match timestamp_of(b) {
                Err(e) => Err(e),
                Ok(t) => if self.created_at is Some {
                    Err(WireError::NotCanonical("created_at"))
                } else {
                    Ok(BodyFields { created_at: Some(t), ..self })
                },
            },
            (3u32, Token::Varint(v)) => if v > u32::MAX {
                Err(WireError::Protobuf)
            } else if self.version_number is Some {
                Err(WireError::NotCanonical("version_number"))
            } else {
                Ok(BodyFields { version_number: Some(v as u32), ..self })
            },
            (4u32, Token::Varint(v)) => if self.transfer_type is Some {
                Err(WireError::NotCanonical("type"))
            } else {
                Ok(BodyFields { transfer_type: Some(v), ..self })
            },
            (5u32, Token::Bytes(b)) => if self.other_community is Some {
                Err(WireError::NotCanonical("other_community_uuid"))
            } else {
                Ok(BodyFields { other_community: Some(b), ..self })
            },
            (6u32, Token::Bytes(b)) => if self.shielded is Some {
                Err(WireError::NotCanonical("shielded_transfer"))
            } else {
                Ok(BodyFields { shielded: Some(b), ..self })
            },
            _ => Err(WireError::UnsupportedBody(tag)),
        }
    }

    /// The fields of a body; the first one that is wrong decides the error.
    pub open spec fn of(fields: Seq<(u32, Token)>) -> Result<BodyFields, WireError>
        decreases fields.len(),
    {
        if fields.len() == 0 {
            Ok(BodyFields::none())
        } else {
            match BodyFields::of(fields.drop_last()) {
                Err(e) => Err(e),
                Ok(before) => before.with(fields.last().0, fields.last().1),
            }
        }
    }

    /// The body of a local shielded transfer.
    pub open spec fn body(self) -> Result<BodyModel, WireError> {
        if value_or_zero(self.transfer_type) != 0 || (self.other_community matches Some(u)
            && u.len() != 0) {
            Err(WireError::CrossCommunityNotSupported)
        } else {
            match (self.created_at, self.shielded) {
                (None, _) => Err(WireError::MissingField("created_at")),
                (_, None) => Err(WireError::MissingField("shielded_transfer")),
                (Some(created_at), Some(shielded)) => Ok(
                    BodyModel {
                        created_at,
                        version_number: match self.version_number {
                            Some(v) => v,
                            None => 0,
                        },
                        shielded,
                        memos: self.memos,
                    },
                ),
            }
        }
    }
}

/// What a serialised `TransactionBody` says.
pub open spec fn parsed_body(bytes: Seq<u8>) -> Result<BodyModel, WireError> {
    match crate::protobuf::tokens(bytes, false, 0) {
        None => Err(WireError::Protobuf),
        Some(fields) => match BodyFields::of(fields) {
            Err(e) => Err(e),
            Ok(f) => f.body(),
        },
    }
}

proof fn lemma_timestamp_stops(fields: Seq<(u32, Token)>, n: int, e: WireError)
    requires
        0 <= n <= fields.len(),
        timestamp_fields(fields.take(n)) == Err::<(Option<u64>, Option<u64>), WireError>(e),
    ensures
        timestamp_fields(fields) == Err::<(Option<u64>, Option<u64>), WireError>(e),
    decreases fields.len(),
{
    if n == fields.len() {
        assert(fields.take(n) =~= fields);
    } else {
        assert(fields.drop_last().take(n) =~= fields.take(n));
        lemma_timestamp_stops(fields.drop_last(), n, e);
    }
}

/// `Timestamp { int64 seconds = 1; int32 nanos = 2; }`, only whole, non-negative seconds that
/// fit into a note timestamp.
fn parse_timestamp(bytes: &[u8]) -> (r: Result<u64, WireError>)
    ensures
        r == timestamp_of(bytes@),
{
    let fields = match read_fields(bytes, false, 0) {
        Some(fields) => fields,
        None => return Err(WireError::Protobuf),
    };
    let ghost all = crate::protobuf::shown(fields@);
    let mut seconds: Option<u64> = None;
    let mut nanos: Option<u64> = None;
    let mut i: usize = 0;
    assert(all.take(0) =~= Seq::empty());
    while i < fields.len()
        invariant
            i <= fields@.len(),
            all == crate::protobuf::shown(fields@),
            crate::protobuf::tokens(bytes@, false, 0) == Some(all),
            timestamp_fields(all.take(i as int)) == Ok::<(Option<u64>, Option<u64>), WireError>(
                (seconds, nanos),
            ),
        decreases fields@.len() - i,
    {
        proof {
            assert(all.take(i + 1).drop_last() =~= all.take(i as int));
            assert(all.take(i + 1).last() == (fields@[i as int].0, fields@[i as int].1@));
        }
        match &fields[i] {
            (1u32, Field::Varint(v)) if seconds.is_none() => {
                seconds = Some(*v);
            },
            (2u32, Field::Varint(v)) if nanos.is_none() => {
                nanos = Some(*v);
            },
            _ => {
                proof {
                    lemma_timestamp_stops(
                        all,
                        i as int + 1,
                        WireError::NotCanonical("created_at"),
                    );
                }
                return Err(WireError::NotCanonical("created_at"));
            },
        }
        i = i + 1;
    }
    assert(all.take(i as int) =~= all);
    let s: u64 = seconds.unwrap_or(0);
    let n: u64 = nanos.unwrap_or(0);
    if n != 0 || s >= crate::note::TIMESTAMP_LIMIT {
        return Err(WireError::NotCanonical("created_at"));
    }
    Ok(s)
}

proof fn lemma_body_stops(fields: Seq<(u32, Token)>, n: int)
    requires
        0 <= n <= fields.len(),
        BodyFields::of(fields.take(n)) is Err,
    ensures
        BodyFields::of(fields) == BodyFields::of(fields.take(n)),
    decreases fields.len(),
{
    if n == fields.len() {
        assert(fields.take(n) =~= fields);
    } else {
        assert(fields.drop_last().take(n) =~= fields.take(n));
        lemma_body_stops(fields.drop_last(), n);
    }
}

/// The fields of a body while they are read.
struct BodyReader {
    created_at: Option<u64>,
    version_number: Option<u32>,
    transfer_type: Option<u64>,
    other_community: Option<Vec<u8>>,
    shielded: Option<Vec<u8>>,
    memos: usize,
}

spec fn optional_view(v: Option<Vec<u8>>) -> Option<Seq<u8>> {
    match v {
        Some(v) => Some(v@),
        None => None,
    }
}

impl BodyReader {
    spec fn read(self) -> BodyFields {
        BodyFields {
            created_at: self.created_at,
            version_number: self.version_number,
            transfer_type: self.transfer_type,
            other_community: optional_view(self.other_community),
            shielded: optional_view(self.shielded),
            memos: self.memos as nat,
        }
    }

    /// Takes one more field.
    fn take_field(&mut self, tag: u32, field: &Field) -> (r: Result<(), WireError>)
        requires
            old(self).memos < usize::MAX,
        ensures
            final(self).memos <= old(self).memos + 1,
            match r {
                Ok(_) => old(self).read().with(tag, field@) == Ok::<BodyFields, WireError>(
                    final(self).read(),
                ),
                Err(e) => old(self).read().with(tag, field@) == Err::<BodyFields, WireError>(e),
            },
    {
        match (tag, field) {
            (1u32, Field::Bytes(_)) => {
                self.memos = self.memos + 1;
            },
            (2u32, Field::Bytes(timestamp)) => {
                let t = match parse_timestamp(timestamp.as_slice()) {
                    Ok(t) => t,
                    Err(e) => return Err(e),
                };
                if self.created_at.is_some() {
                    return Err(WireError::NotCanonical("created_at"));
                }
                self.created_at = Some(t);
            },
            (3u32, Field::Varint(v)) => {
                if *v > u32::MAX as u64 {
                    return Err(WireError::Protobuf);
                }
                if self.version_number.is_some() {
                    return Err(WireError::NotCanonical("version_number"));
                }
                self.version_number = Some(*v as u32);
            },
            (4u32, Field::Varint(v)) => {
                if self.transfer_type.is_some() {
                    return Err(WireError::NotCanonical("type"));
                }
                self.transfer_type = Some(*v);
            },
            (5u32, Field::Bytes(uuid)) => {
                if self.other_community.is_some() {
                    return Err(WireError::NotCanonical("other_community_uuid"));
                }
                self.other_community = Some(copied(uuid.as_slice()));
            },
            (6u32, Field::Bytes(bundle)) => {
                if self.shielded.is_some() {
                    return Err(WireError::NotCanonical("shielded_transfer"));
                }
                self.shielded = Some(copied(bundle.as_slice()));
            },
            _ => return Err(WireError::UnsupportedBody(tag)),
        }
        Ok(())
    }

    /// The body of a local shielded transfer.
    fn finish(self) -> (r: Result<TransferBody, WireError>)
        ensures
            match r {
                Ok(b) => self.read().body() == Ok::<BodyModel, WireError>(b@),
                Err(e) => self.read().body() == Err::<BodyModel, WireError>(e),
            },
    {
        let elsewhere = match &self.other_community {
            Some(uuid) => uuid.len() != 0,
            None => false,
        };
        let transfer_type: u64 = self.transfer_type.unwrap_or(0);
        if transfer_type != 0 || elsewhere {
            return Err(WireError::CrossCommunityNotSupported);
        }
        let created_at = match self.created_at {
            Some(t) => t,
            None => return Err(WireError::MissingField("created_at")),
        };
        let shielded = match self.shielded {
            Some(s) => s,
            None => return Err(WireError::MissingField("shielded_transfer")),
        };
        let version_number: u32 = self.version_number.unwrap_or(0);
        Ok(TransferBody { created_at, version_number, shielded, memos: self.memos })
    }
}

/// Reads a `TransactionBody` that carries a local shielded transfer, and nothing else.
///
/// Whoever signs a body must know everything in it that has a meaning. So instead of skipping
/// what it does not know, as protobuf decoders do, this parser accepts exactly the fields of a
/// local shielded transfer, each singular field at most once: any other data, any unknown field,
/// a cross community type or a repeated field is an error.
pub fn parse_transfer_body(body: &[u8]) -> (r: Result<TransferBody, WireError>)
    ensures
        match r {
            Ok(b) => parsed_body(body@) == Ok::<BodyModel, WireError>(b@),
            Err(e) => parsed_body(body@) == Err::<BodyModel, WireError>(e),
        },
{
    let fields = match read_fields(body, false, 0) {
        Some(fields) => fields,
        None => return Err(WireError::Protobuf),
    };
    let ghost all = crate::protobuf::shown(fields@);
    let mut reader = BodyReader {
        created_at: None,
        version_number: None,
        transfer_type: None,
        other_community: None,
        shielded: None,
        memos: 0,
    };
    let mut i: usize = 0;
    assert(all.take(0) =~= Seq::empty());
    while i < fields.len()
        invariant
            i <= fields@.len(),
            all == crate::protobuf::shown(fields@),
            crate::protobuf::tokens(body@, false, 0) == Some(all),
            BodyFields::of(all.take(i as int)) == Ok::<BodyFields, WireError>(reader.read()),
            reader.memos <= i,
        decreases fields@.len() - i,
    {
        proof {
            assert(all.take(i + 1).drop_last() =~= all.take(i as int));
            assert(all.take(i + 1).last() == (fields@[i as int].0, fields@[i as int].1@));
        }
        match reader.take_field(fields[i].0, &fields[i].1) {
            Ok(_) => {},
            Err(e) => {
                proof {
                    lemma_body_stops(all, i as int + 1);
                }
                return Err(e);
            },
        }
        i = i + 1;
    }
    assert(all.take(i as int) =~= all);
    reader.finish()
}

/// The fields of a `TransactionBody` for a local shielded transfer without memos.
pub open spec fn body_fields(created_at: u64, version_number: u32, shielded: Seq<u8>) -> Seq<
    (u32, Token),
> {
    seq![(2u32, Token::Bytes(crate::protobuf::message_bytes(optional_int(1, created_at))))]
        + optional_int(3, version_number as u64) + optional_bytes(6, shielded)
}

/// A `TransactionBody` for a local shielded transfer without memos. The community server builds
/// the real body; this is the minimal one for tests and tools.
pub fn encode_transfer_body(created_at: u64, version_number: u32, shielded: &[u8]) -> (r: Vec<u8>)
    ensures
        r@ == crate::protobuf::message_bytes(
            body_fields(created_at, version_number, shielded@),
        ),
{
    let none: Ghost<Seq<(u32, Token)>> = Ghost(Seq::empty());
    let mut timestamp: Vec<u8> = Vec::new();
    if created_at > 0 {
        push_varint_field(&mut timestamp, 1, created_at);
        proof {
            crate::protobuf::lemma_message_push(none@, 1, Token::Varint(created_at));
            assert(none@.push((1u32, Token::Varint(created_at))) =~= optional_int(1, created_at));
        }
    }
    assert(timestamp@ =~= crate::protobuf::message_bytes(optional_int(1, created_at)));
    let mut out: Vec<u8> = Vec::new();
    let ghost mut fields = none@.push((2u32, Token::Bytes(timestamp@)));
    push_bytes_field(&mut out, 2, timestamp.as_slice());
    proof {
        crate::protobuf::lemma_message_push(none@, 2, Token::Bytes(timestamp@));
    }
    if version_number > 0 {
        push_varint_field(&mut out, 3, version_number as u64);
        proof {
            crate::protobuf::lemma_message_push(fields, 3, Token::Varint(version_number as u64));
            fields = fields.push((3u32, Token::Varint(version_number as u64)));
        }
    }
    if shielded.len() > 0 {
        push_bytes_field(&mut out, 6, shielded);
        proof {
            crate::protobuf::lemma_message_push(fields, 6, Token::Bytes(shielded@));
            fields = fields.push((6u32, Token::Bytes(shielded@)));
        }
    }
    assert(fields =~= body_fields(created_at, version_number, shielded@));
    out
}

proof fn lemma_body_step(
    fields: Seq<(u32, Token)>,
    before: BodyFields,
    tag: u32,
    token: Token,
    after: BodyFields,
)
    requires
        BodyFields::of(fields) == Ok::<BodyFields, WireError>(before),
        before.with(tag, token) == Ok::<BodyFields, WireError>(after),
    ensures
        BodyFields::of(fields.push((tag, token))) == Ok::<BodyFields, WireError>(after),
{
    assert(fields.push((tag, token)).drop_last() =~= fields);
}

proof fn lemma_timestamp_reads_back(t: u64)
    requires
        t < crate::note::TIMESTAMP_LIMIT,
    ensures
        timestamp_of(crate::protobuf::message_bytes(optional_int(1, t))) == Ok::<u64, WireError>(t),
        crate::protobuf::message_bytes(optional_int(1, t)).len() < 100,
{
    let fields = optional_int(1, t);
    crate::protobuf::written_message_reads_back(fields, false, 0);
    reveal_with_fuel(timestamp_fields, 2);
    reveal_with_fuel(crate::protobuf::message_bytes, 2);
    if t > 0 {
        assert(fields.drop_last() =~= Seq::empty());
        reveal_with_fuel(crate::protobuf::power128, 7);
        lemma_varint_is_short(8, 1);
        lemma_varint_is_short(t as nat, 6);
    }
}

/// What `encode_transfer_body` writes, `parse_transfer_body` reads: for a time that a note can
/// hold and a transfer that is not empty.
pub proof fn encoded_body_parses(created_at: u64, version_number: u32, shielded: Seq<u8>)
    requires
        created_at < crate::note::TIMESTAMP_LIMIT,
        0 < shielded.len() < crate::protobuf::two_to_64(),
    ensures
        parsed_body(
            crate::protobuf::message_bytes(body_fields(created_at, version_number, shielded)),
        ) == Ok::<BodyModel, WireError>(
            BodyModel { created_at, version_number, shielded, memos: 0 },
        ),
{
    let fields = body_fields(created_at, version_number, shielded);
    lemma_timestamp_reads_back(created_at);
    let timestamp = crate::protobuf::message_bytes(optional_int(1, created_at));
    assert(crate::protobuf::writable(fields));
    crate::protobuf::written_message_reads_back(fields, false, 0);
    let none: Seq<(u32, Token)> = Seq::empty();
    let b1 = BodyFields { created_at: Some(created_at), ..BodyFields::none() };
    lemma_body_step(none, BodyFields::none(), 2, Token::Bytes(timestamp), b1);
    let f1 = none.push((2u32, Token::Bytes(timestamp)));
    let v = version_number as u64;
    let f2 = f1 + optional_int(3, v);
    let b2 = if v == 0 {
        b1
    } else {
        BodyFields { version_number: Some(version_number), ..b1 }
    };
    if v == 0 {
        assert(f2 =~= f1);
    } else {
        lemma_body_step(f1, b1, 3, Token::Varint(v), b2);
        assert(f2 =~= f1.push((3u32, Token::Varint(v))));
    }
    let b3 = BodyFields { shielded: Some(shielded), ..b2 };
    lemma_body_step(f2, b2, 6, Token::Bytes(shielded), b3);
    assert(fields =~= f2.push((6u32, Token::Bytes(shielded))));
}

/// Whether a field may stand in the body of a local shielded transfer: a memo, a time, a version, a
/// type, another community or the transfer itself, each of its own kind.
pub open spec fn is_body_field(tag: u32, token: Token) -> bool {
    match token {
        Token::Bytes(b) => tag == 1 || tag == 5 || tag == 6 || (tag == 2 && timestamp_of(b) is Ok),
        Token::Varint(v) => tag == 4 || (tag == 3 && v <= 0xffff_ffff),
        Token::Skipped => false,
    }
}

/// Whether some field has a tag.
pub open spec fn has_tag(fields: Seq<(u32, Token)>, tag: u32) -> bool {
    exists|i: int| 0 <= i < fields.len() && (#[trigger] fields[i]).0 == tag
}

/// Whether a tag occurs more than once, that of the memos excepted.
pub open spec fn repeats_a_tag(fields: Seq<(u32, Token)>) -> bool {
    exists|i: int, j: int|
        0 <= i < j < fields.len() && (#[trigger] fields[i]).0 == (#[trigger] fields[j]).0
            && fields[i].0 != 1
}

/// How many fields have the tag of a memo.
pub open spec fn memo_count(fields: Seq<(u32, Token)>) -> nat
    decreases fields.len(),
{
    if fields.len() == 0 {
        0
    } else {
        memo_count(fields.drop_last()) + (if fields.last().0 == 1 {
            1nat
        } else {
            0
        })
    }
}

/// Whether what was read of a body is what its fields say.
pub open spec fn body_reads(f: BodyFields, fields: Seq<(u32, Token)>) -> bool {
    &&& f.memos == memo_count(fields)
    &&& f.created_at is Some <==> has_tag(fields, 2)
    &&& f.version_number is Some <==> has_tag(fields, 3)
    &&& f.transfer_type is Some <==> has_tag(fields, 4)
    &&& f.other_community is Some <==> has_tag(fields, 5)
    &&& f.shielded is Some <==> has_tag(fields, 6)
    &&& forall|i: int|
        0 <= i < fields.len() ==> match #[trigger] fields[i] {
            (2u32, Token::Bytes(b)) => timestamp_of(b) is Ok && f.created_at == Some(
                timestamp_of(b)->Ok_0,
            ),
            (3u32, Token::Varint(v)) => f.version_number == Some(v as u32),
            (4u32, Token::Varint(v)) => f.transfer_type == Some(v),
            (5u32, Token::Bytes(b)) => f.other_community == Some(b),
            (6u32, Token::Bytes(b)) => f.shielded == Some(b),
            _ => true,
        }
}

proof fn lemma_last_tag(fields: Seq<(u32, Token)>, tag: u32)
    requires
        fields.len() > 0,
    ensures
        has_tag(fields, tag) <==> has_tag(fields.drop_last(), tag) || fields.last().0 == tag,
{
    let front = fields.drop_last();
    if has_tag(front, tag) {
        let i = choose|i: int| 0 <= i < front.len() && (#[trigger] front[i]).0 == tag;
        assert(fields[i].0 == tag);
    }
    if fields.last().0 == tag {
        assert(fields[fields.len() - 1].0 == tag);
    }
    if has_tag(fields, tag) {
        let i = choose|i: int| 0 <= i < fields.len() && (#[trigger] fields[i]).0 == tag;
        if i < front.len() {
            assert(front[i].0 == tag);
        }
    }
}

proof fn lemma_last_repeat(fields: Seq<(u32, Token)>)
    requires
        fields.len() > 0,
    ensures
        repeats_a_tag(fields) <==> repeats_a_tag(fields.drop_last()) || (fields.last().0 != 1
            && has_tag(fields.drop_last(), fields.last().0)),
{
    let front = fields.drop_last();
    let last = fields.len() - 1;
    if repeats_a_tag(front) {
        let (i, j) = choose|i: int, j: int|
            0 <= i < j < front.len() && (#[trigger] front[i]).0 == (#[trigger] front[j]).0
                && front[i].0 != 1;
        assert(fields[i] == front[i] && fields[j] == front[j]);
    }
    if fields.last().0 != 1 && has_tag(front, fields.last().0) {
        let i = choose|i: int| 0 <= i < front.len() && (#[trigger] front[i]).0 == fields.last().0;
        assert(fields[i].0 == fields[last].0);
    }
    if repeats_a_tag(fields) {
        let (i, j) = choose|i: int, j: int|
            0 <= i < j < fields.len() && (#[trigger] fields[i]).0 == (#[trigger] fields[j]).0
                && fields[i].0 != 1;
        assert(front[i] == fields[i]);
        if j < front.len() {
            assert(front[j] == fields[j]);
        }
    }
}

proof fn lemma_body_reads(fields: Seq<(u32, Token)>)
    ensures
        BodyFields::of(fields) is Ok <==> (forall|i: int|
            0 <= i < fields.len() ==> is_body_field((#[trigger] fields[i]).0, fields[i].1))
            && !repeats_a_tag(fields),
        BodyFields::of(fields) matches Ok(f) ==> body_reads(f, fields),
    decreases fields.len(),
{
    if fields.len() > 0 {
        let front = fields.drop_last();
        let last = fields.last();
        lemma_body_reads(front);
        lemma_last_tag(fields, 2);
        lemma_last_tag(fields, 3);
        lemma_last_tag(fields, 4);
        lemma_last_tag(fields, 5);
        lemma_last_tag(fields, 6);
        lemma_last_repeat(fields);
        assert(forall|i: int| 0 <= i < front.len() ==> front[i] == fields[i]);
        assert(fields[fields.len() - 1] == last);
        if let Ok(before) = BodyFields::of(front) {
            assert(before.with(last.0, last.1) is Ok <==> is_body_field(last.0, last.1) && (
            last.0 == 1 || !has_tag(front, last.0)));
            if let Ok(f) = before.with(last.0, last.1) {
                assert forall|i: int| 0 <= i < fields.len() implies match #[trigger] fields[i] {
                    (2u32, Token::Bytes(b)) => timestamp_of(b) is Ok && f.created_at == Some(
                        timestamp_of(b)->Ok_0,
                    ),
                    (3u32, Token::Varint(v)) => f.version_number == Some(v as u32),
                    (4u32, Token::Varint(v)) => f.transfer_type == Some(v),
                    (5u32, Token::Bytes(b)) => f.other_community == Some(b),
                    (6u32, Token::Bytes(b)) => f.shielded == Some(b),
                    _ => true,
                } by {
                    if i < front.len() {
                        assert(front[i] == fields[i]);
                        assert(fields[i].0 == last.0 ==> has_tag(front, last.0));
                    }
                }
            }
        } else if forall|i: int|
            0 <= i < fields.len() ==> is_body_field((#[trigger] fields[i]).0, fields[i].1) {
            assert forall|i: int| 0 <= i < front.len() implies is_body_field(
                (#[trigger] front[i]).0,
                front[i].1,
            ) by {
                assert(front[i] == fields[i]);
            }
        }
    } else {
        assert(!repeats_a_tag(fields));
    }
}

/// A body is signed exactly if it is a local shielded transfer and nothing else: every field is one
/// of those that such a body has, none but the memos is repeated, type and other community are
/// absent or empty, and time and transfer are there. What is read is what the fields say.
pub proof fn a_body_is_a_local_transfer_and_nothing_else(bytes: Seq<u8>)
    ensures
        parsed_body(bytes) is Ok <==> {
            &&& crate::protobuf::tokens(bytes, false, 0) matches Some(fields)
            &&& forall|i: int|
                0 <= i < fields.len() ==> is_body_field((#[trigger] fields[i]).0, fields[i].1)
            &&& !repeats_a_tag(fields)
            &&& forall|i: int|
                0 <= i < fields.len() ==> (#[trigger] fields[i]).0 == 4 ==> fields[i].1
                    == Token::Varint(0)
            &&& forall|i: int|
                0 <= i < fields.len() ==> (#[trigger] fields[i]).0 == 5 ==> fields[i].1
                    == Token::Bytes(Seq::empty())
            &&& has_tag(fields, 2)
            &&& has_tag(fields, 6)
        },
        parsed_body(bytes) matches Ok(body) ==> {
            let fields = crate::protobuf::tokens(bytes, false, 0)->0;
            &&& body.memos == memo_count(fields)
            &&& !has_tag(fields, 3) ==> body.version_number == 0
            &&& forall|i: int|
                0 <= i < fields.len() ==> match #[trigger] fields[i] {
                    (2u32, Token::Bytes(b)) => timestamp_of(b) == Ok::<u64, WireError>(
                        body.created_at,
                    ),
                    (3u32, Token::Varint(v)) => body.version_number == v,
                    (6u32, Token::Bytes(b)) => body.shielded == b,
                    _ => true,
                }
        },
{
    if let Some(fields) = crate::protobuf::tokens(bytes, false, 0) {
        lemma_body_reads(fields);
        if let Ok(f) = BodyFields::of(fields) {
            assert(value_or_zero(f.transfer_type) == 0 <==> forall|i: int|
                0 <= i < fields.len() ==> (#[trigger] fields[i]).0 == 4 ==> fields[i].1
                    == Token::Varint(0)) by {
                if has_tag(fields, 4) {
                    let i = choose|i: int| 0 <= i < fields.len() && (#[trigger] fields[i]).0 == 4;
                    assert(is_body_field(fields[i].0, fields[i].1));
                }
                assert forall|i: int|
                    0 <= i < fields.len() && (#[trigger] fields[i]).0 == 4 && value_or_zero(
                        f.transfer_type,
                    ) == 0 implies fields[i].1 == Token::Varint(0) by {
                    assert(is_body_field(fields[i].0, fields[i].1));
                }
            }
            assert((f.other_community matches Some(u) ==> u.len() == 0) <==> forall|i: int|
                0 <= i < fields.len() ==> (#[trigger] fields[i]).0 == 5 ==> fields[i].1
                    == Token::Bytes(Seq::empty())) by {
                if has_tag(fields, 5) {
                    let i = choose|i: int| 0 <= i < fields.len() && (#[trigger] fields[i]).0 == 5;
                    assert(is_body_field(fields[i].0, fields[i].1));
                }
                assert forall|i: int|
                    0 <= i < fields.len() && (#[trigger] fields[i]).0 == 5 && (
                    f.other_community matches Some(u) ==> u.len() == 0) implies fields[i].1
                    == Token::Bytes(Seq::empty()) by {
                    assert(is_body_field(fields[i].0, fields[i].1));
                    if let Token::Bytes(b) = fields[i].1 {
                        assert(b =~= Seq::empty());
                    }
                }
            }
        }
    }
}

proof fn lemma_timestamp_reads(fields: Seq<(u32, Token)>)
    ensures
        timestamp_fields(fields) is Ok <==> (forall|i: int|
            0 <= i < fields.len() ==> ((#[trigger] fields[i]).0 == 1 || fields[i].0 == 2)
                && fields[i].1 is Varint) && (forall|i: int, j: int|
            0 <= i < j < fields.len() ==> (#[trigger] fields[i]).0 != (#[trigger] fields[j]).0),
        timestamp_fields(fields) matches Ok((seconds, nanos)) ==> {
            &&& seconds is Some <==> has_tag(fields, 1)
            &&& nanos is Some <==> has_tag(fields, 2)
            &&& forall|i: int|
                0 <= i < fields.len() ==> {
                    &&& (#[trigger] fields[i]).0 == 1 ==> (seconds matches Some(s) && fields[i].1
                        == Token::Varint(s))
                    &&& fields[i].0 == 2 ==> (nanos matches Some(n) && fields[i].1
                        == Token::Varint(n))
                }
        },
    decreases fields.len(),
{
    if fields.len() > 0 {
        let front = fields.drop_last();
        let last = fields.last();
        lemma_timestamp_reads(front);
        lemma_last_tag(fields, 1);
        lemma_last_tag(fields, 2);
        assert(forall|i: int| 0 <= i < front.len() ==> front[i] == fields[i]);
        assert(fields[fields.len() - 1] == last);
        if timestamp_fields(fields) is Ok {
            assert forall|i: int, j: int| 0 <= i < j < fields.len() implies (#[trigger] fields[i]).0
                != (#[trigger] fields[j]).0 by {
                assert(front[i] == fields[i]);
                if j < front.len() {
                    assert(front[j] == fields[j]);
                } else {
                    assert(!has_tag(front, last.0));
                }
            }
        } else {
            if forall|i: int, j: int|
                0 <= i < j < fields.len() ==> (#[trigger] fields[i]).0 != (#[trigger] fields[j]).0 {
                if has_tag(front, last.0) {
                    let i = choose|i: int| 0 <= i < front.len() && (#[trigger] front[i]).0 == last.0;
                    assert(fields[i].0 == fields[fields.len() - 1].0);
                }
                assert forall|i: int, j: int| 0 <= i < j < front.len() implies (
                #[trigger] front[i]).0 != (#[trigger] front[j]).0 by {
                    assert(front[i] == fields[i] && front[j] == fields[j]);
                }
            }
        }
    }
}

/// The time of a body is whole seconds below 2^40: nothing but seconds and nanoseconds, each once
/// at most, and the nanoseconds zero.
pub proof fn a_time_is_whole_seconds(bytes: Seq<u8>, t: u64)
    ensures
        timestamp_of(bytes) == Ok::<u64, WireError>(t) <==> {
            &&& crate::protobuf::tokens(bytes, false, 0) matches Some(fields)
            &&& forall|i: int|
                0 <= i < fields.len() ==> (#[trigger] fields[i]) == (1u32, Token::Varint(t))
                    || fields[i] == (2u32, Token::Varint(0))
            &&& forall|i: int, j: int|
                0 <= i < j < fields.len() ==> (#[trigger] fields[i]).0 != (#[trigger] fields[j]).0
            &&& has_tag(fields, 1) || t == 0
            &&& t < 0x100_0000_0000
        },
{
    if let Some(fields) = crate::protobuf::tokens(bytes, false, 0) {
        lemma_timestamp_reads(fields);
        if has_tag(fields, 1) {
            let i = choose|i: int| 0 <= i < fields.len() && (#[trigger] fields[i]).0 == 1;
            assert(fields[i].0 == 1);
        }
        if has_tag(fields, 2) {
            let i = choose|i: int| 0 <= i < fields.len() && (#[trigger] fields[i]).0 == 2;
            assert(fields[i].0 == 2);
        }
    }
}

/// A message that is not the bundle of this circuit is refused for the first thing that is wrong:
/// version, another community, number of actions, anchor, tree epoch, and then its contents.
pub proof fn a_wrong_message_is_refused_for_its_cause(m: ShieldedModel)
    ensures
        ({
            let r = shielded_of(m);
            let versioned = m.version == 2;
            let local = versioned && m.cross.len() == 0;
            let counted = local && m.actions.len() == 2;
            &&& !versioned ==> r == Err::<(nat, Seq<ActionModel>), WireError>(
                WireError::WrongCircuitVersion(m.version),
            )
            &&& versioned && !local ==> r == Err::<(nat, Seq<ActionModel>), WireError>(
                WireError::CrossCommunityNotSupported,
            )
            &&& local && !counted ==> r == Err::<(nat, Seq<ActionModel>), WireError>(
                WireError::WrongActionCount(m.actions.len() as usize),
            )
            &&& counted && m.anchor is None ==> r == Err::<(nat, Seq<ActionModel>), WireError>(
                WireError::MissingAnchor,
            )
            &&& counted && m.anchor is Some && m.anchor->0[1] != SlotModel::Int(0) ==> (r
                matches Err(WireError::UnsupportedTreeEpoch(_)))
            &&& r matches Ok((anchor, actions)) ==> {
                &&& counted && m.anchor is Some && m.anchor->0[1] == SlotModel::Int(0)
                &&& anchor == crate::bytes::le_nat(blob(m.anchor->0, 0))
                &&& actions.len() == 2
                &&& action_of(m.actions[0]) == Ok::<ActionModel, WireError>(actions[0])
                &&& action_of(m.actions[1]) == Ok::<ActionModel, WireError>(actions[1])
            }
        }),
{
    if m.actions.len() == 2 {
        let front = m.actions.drop_last();
        assert(front.drop_last() =~= Seq::empty());
        assert(front.last() == m.actions[0]);
        reveal_with_fuel(actions_of, 3);
    }
}

/// An action is read exactly from fields of the right lengths whose elements are canonical and
/// whose points, the ephemeral key among them, are points other than the identity.
pub proof fn an_action_is_read_from_canonical_fields(m: Seq<SlotModel>)
    ensures
        ({
            let element = |i: int|
                blob(m, i).len() == 32 && crate::bytes::le_nat(blob(m, i))
                    < crate::pallas::base_modulus();
            let point = |i: int|
                blob(m, i).len() == 32 && (crate::pallas::decode_point(blob(m, i)) matches Some(k)
                    && k != 0);
            let r = action_of(m);
            &&& r is Ok <==> point(0) && element(1) && point(2) && element(3) && point(4) && blob(
                m,
                5,
            ).len() == 580 && blob(m, 6).len() == 80
            &&& r matches Ok(a) ==> {
                &&& crate::pallas::decode_point(blob(m, 0)) == Some(a.cv_net)
                &&& a.nullifier == crate::bytes::le_nat(blob(m, 1))
                &&& crate::pallas::decode_point(blob(m, 2)) == Some(a.rk)
                &&& a.cm == crate::bytes::le_nat(blob(m, 3))
                &&& a.encrypted.cm == a.cm
                &&& a.encrypted.epk == blob(m, 4)
                &&& a.encrypted.enc == blob(m, 5)
                &&& a.encrypted.out == blob(m, 6)
            }
        }),
{
}

/// A published bundle has its fields in this order: the anchor, the two actions and the version
/// in the body, and beside it the proof, the two spend authorisations and the binding signature.
pub proof fn a_published_bundle_has_these_fields(b: BundleModel)
    requires
        bundle_publishable(b),
    ensures
        ({
            let anchor = crate::protobuf::message_bytes(
                seq![(1u32, Token::Bytes(crate::bytes::le_bytes(b.anchor, 32)))],
            );
            &&& bundle_bytes(b).0 == crate::protobuf::message_bytes(
                seq![
                    (1u32, Token::Bytes(anchor)),
                    (2u32, Token::Bytes(action_bytes(b.actions[0]))),
                    (2u32, Token::Bytes(action_bytes(b.actions[1]))),
                    (4u32, Token::Varint(2)),
                ],
            )
            &&& bundle_bytes(b).1 == crate::protobuf::message_bytes(
                seq![
                    (1u32, Token::Bytes(b.proof)),
                    (2u32, Token::Bytes(b.spend_auth_sigs[0])),
                    (2u32, Token::Bytes(b.spend_auth_sigs[1])),
                    (3u32, Token::Bytes(b.binding_sig)),
                ],
            )
        }),
{
    let m = shielded_message(b.anchor, b.actions);
    crate::bytes::lemma_le_bytes_len(b.anchor, 32);
    let a = m.anchor->0;
    let bytes = crate::bytes::le_bytes(b.anchor, 32);
    assert(a.drop_last() =~= seq![SlotModel::Bytes(bytes)]);
    assert(a.drop_last().drop_last() =~= Seq::empty());
    reveal_with_fuel(crate::protobuf::present, 3);
    assert(crate::protobuf::present(a) =~= seq![(1u32, Token::Bytes(bytes))]);
    assert(publishable(b.actions[0]) && publishable(b.actions[1]));
    lemma_action_fields(b.actions[0]);
    lemma_action_fields(b.actions[1]);
    assert(m.fields() =~= seq![
        (1u32, Token::Bytes(crate::protobuf::flat_bytes(a))),
        (2u32, Token::Bytes(action_bytes(b.actions[0]))),
        (2u32, Token::Bytes(action_bytes(b.actions[1]))),
        (4u32, Token::Varint(2)),
    ]);
    assert(authorization_message(b).fields() =~= seq![
        (1u32, Token::Bytes(b.proof)),
        (2u32, Token::Bytes(b.spend_auth_sigs[0])),
        (2u32, Token::Bytes(b.spend_auth_sigs[1])),
        (3u32, Token::Bytes(b.binding_sig)),
    ]);
}

/// The message of an action: value commitment, nullifier, randomised key, commitment, ephemeral
/// key and the two ciphertexts.
pub open spec fn action_bytes(a: ActionModel) -> Seq<u8> {
    crate::protobuf::message_bytes(
        seq![
            (1u32, Token::Bytes(crate::pallas::encode_point(a.cv_net))),
            (2u32, Token::Bytes(crate::bytes::le_bytes(a.nullifier, 32))),
            (3u32, Token::Bytes(crate::pallas::encode_point(a.rk))),
            (4u32, Token::Bytes(crate::bytes::le_bytes(a.cm, 32))),
            (5u32, Token::Bytes(a.encrypted.epk)),
            (6u32, Token::Bytes(a.encrypted.enc)),
            (7u32, Token::Bytes(a.encrypted.out)),
        ],
    )
}

proof fn lemma_present_pushes(slots: Seq<SlotModel>, b: Seq<u8>)
    requires
        b.len() > 0,
    ensures
        crate::protobuf::present(slots.push(SlotModel::Bytes(b))) == crate::protobuf::present(
            slots,
        ).push(((slots.len() + 1) as u32, Token::Bytes(b))),
{
    assert(slots.push(SlotModel::Bytes(b)).drop_last() =~= slots);
}

proof fn lemma_action_fields(a: ActionModel)
    requires
        publishable(a),
    ensures
        crate::protobuf::flat_bytes(action_message(a)) == action_bytes(a),
{
    let m = action_message(a);
    crate::pallas::lemma_encoding_length(a.cv_net);
    crate::pallas::lemma_encoding_length(a.rk);
    crate::bytes::lemma_le_bytes_len(a.nullifier, 32);
    crate::bytes::lemma_le_bytes_len(a.cm, 32);
    assert(m.take(0) =~= Seq::empty());
    assert(crate::protobuf::present(m.take(0)) =~= Seq::empty());
    lemma_present_pushes(m.take(0), blob(m, 0));
    assert(m.take(0).push(m[0]) =~= m.take(1));
    lemma_present_pushes(m.take(1), blob(m, 1));
    assert(m.take(1).push(m[1]) =~= m.take(2));
    lemma_present_pushes(m.take(2), blob(m, 2));
    assert(m.take(2).push(m[2]) =~= m.take(3));
    lemma_present_pushes(m.take(3), blob(m, 3));
    assert(m.take(3).push(m[3]) =~= m.take(4));
    lemma_present_pushes(m.take(4), blob(m, 4));
    assert(m.take(4).push(m[4]) =~= m.take(5));
    lemma_present_pushes(m.take(5), blob(m, 5));
    assert(m.take(5).push(m[5]) =~= m.take(6));
    lemma_present_pushes(m.take(6), blob(m, 6));
    assert(m.take(6).push(m[6]) =~= m);
    assert(crate::protobuf::present(m) =~= seq![
        (1u32, Token::Bytes(crate::pallas::encode_point(a.cv_net))),
        (2u32, Token::Bytes(crate::bytes::le_bytes(a.nullifier, 32))),
        (3u32, Token::Bytes(crate::pallas::encode_point(a.rk))),
        (4u32, Token::Bytes(crate::bytes::le_bytes(a.cm, 32))),
        (5u32, Token::Bytes(a.encrypted.epk)),
        (6u32, Token::Bytes(a.encrypted.enc)),
        (7u32, Token::Bytes(a.encrypted.out)),
    ]);
}

/// Bytes that are not the messages of a bundle are refused for the first thing that is wrong:
/// more than 8960 bytes beside the body or 4096 in it, then the messages, and last, where the
/// first message is a bundle, the number of signatures and the lengths of proof and signatures.
pub proof fn wrong_bytes_are_refused_for_their_cause(
    shielded: Seq<u8>,
    authorization: Seq<u8>,
    community: nat,
    now: u64,
)
    ensures
        authorization.len() > 8960 || shielded.len() > 4096 ==> decoded_bundle(
            shielded,
            authorization,
            community,
            now,
        ) == Err::<BundleModel, WireError>(WireError::TooLarge),
        shielded.len() > 4096 ==> decoded_shielded(shielded) == Err::<
            (nat, Seq<ActionModel>),
            WireError,
        >(WireError::TooLarge),
        decoded_bundle(shielded, authorization, community, now) matches Ok(b) ==> {
            &&& decoded_shielded(shielded) == Ok::<(nat, Seq<ActionModel>), WireError>(
                (b.anchor, b.actions),
            )
            &&& b.community == community && b.now == now
        },
        authorization.len() <= 8960 ==> (strictly_decoded(shielded) matches Err(e)
            ==> decoded_bundle(shielded, authorization, community, now) == Err::<
            BundleModel,
            WireError,
        >(e)),
{
}

/// Where the first message is a bundle, two signatures of 64 bytes, a proof of 7936 and a binding
/// signature of 64 are needed, and the first that is wrong is named.
pub proof fn an_authorization_has_its_lengths(
    m: ShieldedModel,
    auth: AuthorizationModel,
    community: nat,
    now: u64,
)
    requires
        shielded_of(m) is Ok,
    ensures
        ({
            let (anchor, actions) = shielded_of(m)->Ok_0;
            let sigs = auth.spend_auth_sigs;
            let r = bundle_of(m, auth, community, now);
            if sigs.len() != 2 {
                r == Err::<BundleModel, WireError>(WireError::WrongActionCount(sigs.len() as usize))
            } else if auth.proof.len() != 7936 {
                r == Err::<BundleModel, WireError>(WireError::WrongLength("proof"))
            } else if sigs[0].len() != 64 || sigs[1].len() != 64 {
                r == Err::<BundleModel, WireError>(WireError::WrongLength("spend_auth_sig"))
            } else if auth.binding_sig.len() != 64 {
                r == Err::<BundleModel, WireError>(WireError::WrongLength("binding_sig"))
            } else {
                r == Ok::<BundleModel, WireError>(
                    BundleModel {
                        anchor,
                        now,
                        community,
                        actions,
                        proof: auth.proof,
                        spend_auth_sigs: sigs,
                        binding_sig: auth.binding_sig,
                    },
                )
            }
        }),
{
    let sigs = auth.spend_auth_sigs;
    if sigs.len() == 2 {
        assert((exists|i: int| 0 <= i < sigs.len() && (#[trigger] sigs[i]).len() != 64) <==> sigs[0].len()
            != 64 || sigs[1].len() != 64);
    }
}

} // verus!
