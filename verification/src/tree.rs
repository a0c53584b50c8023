//! The ledger state a node keeps for shielded transfers: the note commitment tree, the history
//! of its roots, and the nullifier set.
//!
//! The tree is a `bridgetree::BridgeTree` with the same Sinsemilla MerkleCRH the circuit uses,
//! so a witness taken from it is exactly the path the proof recomputes. The node only needs the
//! root and the frontier; a wallet additionally marks its own notes to keep their witnesses up
//! to date.
use std::collections::{HashMap, VecDeque};

use bridgetree::BridgeTree;
use ff::PrimeField;
use halo2_gadgets::sinsemilla::primitives as sinsemilla;
use incrementalmerkletree::{Hashable, Level, Position};
use vstd::arithmetic::power2::{lemma_pow2_pos, lemma_pow2_unfold, pow2};
use vstd::prelude::*;

use crate::bytes::push_low_bits;
use crate::pallas::Base;

verus! {

broadcast use {vstd::array::group_array_axioms, vstd::std_specs::hash::group_hash_axioms};

/// Height of the commitment tree.
pub const MERKLE_DEPTH: usize = 32;

/// Number of leaves of the commitment tree.
pub const TREE_CAPACITY: u64 = 0x1_0000_0000;

/// The checkpoints a tree keeps by default.
pub const DEFAULT_CHECKPOINTS: usize = 100;

// ------------------------------------------------------------------------------------- model

/// The domain that the nodes are hashed in.
pub const MERKLE_CRH_DOMAIN: &'static str = "gradido:MerkleCRH-M";

/// What the Sinsemilla hash of `halo2_gadgets` gives for a domain and the bits of a message.
pub uninterp spec fn sinsemilla_hash(domain: Seq<char>, bits: Seq<bool>) -> Option<nat>;

/// The message that is hashed for a node: ten bits of the level and 255 bits of either child, all
/// little endian.
pub open spec fn merkle_message(level: nat, left: nat, right: nat) -> Seq<bool> {
    crate::bytes::low_bits(level, 10) + crate::bytes::low_bits(left, 255) + crate::bytes::low_bits(
        right,
        255,
    )
}

/// `MerkleCRH(level, left, right)`.
pub open spec fn merkle_crh(level: nat, left: nat, right: nat) -> Option<nat> {
    sinsemilla_hash(MERKLE_CRH_DOMAIN@, merkle_message(level, left, right))
}

/// The parent of two nodes of the given level. Sinsemilla fails only on an exceptional case of
/// incomplete addition, which no one can steer into; such a node becomes zero, as in Orchard.
pub open spec fn parent(level: nat, left: nat, right: nat) -> nat {
    match merkle_crh(level, left, right) {
        Some(hash) => hash,
        None => 0,
    }
}

/// Value of an empty leaf. Not a valid note commitment in practice, as in Orchard.
pub open spec fn empty_leaf_value() -> nat {
    2
}

/// The node at the given level and index of the tree over `leaves`, empty leaves to the right.
pub open spec fn node(leaves: Seq<nat>, level: nat, index: nat) -> nat
    decreases level,
{
    if level == 0 {
        if index < leaves.len() {
            leaves[index as int]
        } else {
            empty_leaf_value()
        }
    } else {
        let below = (level - 1) as nat;
        parent(below, node(leaves, below, 2 * index), node(leaves, below, 2 * index + 1))
    }
}

/// The roots of empty subtrees by their height, from the empty leaf up to the empty tree, the
/// lower halves. Each is the hash of the one before with itself. As Sinsemilla is computed outside,
/// this is found by running it and not proved.
pub const EMPTY_ROOTS_LO: [u128; 33] = [
    0x00000000000000000000000000000002,
    0x87ca74f045d69a4524bbb03eb371c7f3,
    0xfe8f7f510b00a2d98f709865ff00e791,
    0x5c335885cd832c2010d9593dcb28eaf7,
    0x1c79afd9b5a04f1ab53fd67fbbb5c130,
    0xa297ce82698f0d65d9f2f818a21441d7,
    0x5f2e1c7253215fdf0257bd5c44003f8c,
    0xb55d9ee0dd60608e6ec708a8a8e7b09b,
    0xe06124a68b2a5ed5b62a96091a18cc47,
    0xe90e3e5c5465390120e0421b8a54b373,
    0xd302fe92625ce262497218c32f29678d,
    0xe871573947792fbd6a99ed6d66b97e8d,
    0x2180d4c4ad15a316f15de0c716242925,
    0x8558d75ad7a56dc04ff0205216234135,
    0x213a3de074ac15c8e3bcc0d3f6ea8238,
    0x59485418bf0580e79d0529d5e6c2d1ee,
    0x3c0dbbfafa008455e8dfa0788597b93a,
    0xdd3caac5a7bd0dc72bc12c08e3d62965,
    0xa27d5aed5da54058c02b7a2d3cfa6ccd,
    0x32b2abb55613c4872c918facf9ce3396,
    0x0c4802522caf36bdec46b75be427e903,
    0x9a523fc3f4b2400fd71e564f5718cc44,
    0xe19e4dd5e9e6562dd949146ab8e00193,
    0x2f51d418cf0b9caab990e2b6f385cc08,
    0x5489df5c794019dec2bf4bc00584af43,
    0x3ce61f2935e345cc71a4e4b626c6724f,
    0xf233ea6d704242c1da5ec5eb4f4ea915,
    0x0ad3604ba326639d2c07c7d3492b33dd,
    0xcdb9158aa4474f4e99b17442fee3cc19,
    0x603b3316a5281b7dc864fe5a4a7d9591,
    0x7b8ece085bbc5faec552d3a771d31014,
    0xd8dbc43165d60d6fea84176140d5d792,
    0x6346bd7a096cf0f860d372974836494c,
];

/// The roots of empty subtrees by their height, the upper halves.
pub const EMPTY_ROOTS_HI: [u128; 33] = [
    0x00000000000000000000000000000000,
    0x20e8734d1bef2fdd5ba2e2171ddba86e,
    0x2b03641091d0b6269e27b8568f545714,
    0x20221978d8513aac25e4b755f1d8339c,
    0x2d9c4258f64f078795841e7d64698f09,
    0x29c5fb314175c2411c37f185eee9735d,
    0x3111c08ab3adf6826a5888912bf4ef2a,
    0x1259230d1d09d11c20b725200acf0794,
    0x2adac4460ec3b30ab3c56f5245f76550,
    0x3bee657132cf82e08e07de30a7d47934,
    0x1b31227d9357ca49075d92c7a2613f00,
    0x3df5c5944d094da3b75d564b5919c6bb,
    0x300cb9f8fadfb27f6e530cbcee4fca80,
    0x1f4c8d08c5a89a697b8ec77710bf0af7,
    0x089026c34b6237a511b646eb1c7c72ad,
    0x30802e6dc36a343568ecc002306dc127,
    0x038cbddf6722a410c0eb707b8639b85b,
    0x0a31e2b1e574ffb63424a449e76875d6,
    0x1b783981db3da0b483737d5a8511357d,
    0x0d699af76ff6fd032a0103c0d75f0e12,
    0x175f1748de4bf4bbd8039d2af9656cfe,
    0x0f6ecb4974b29dc69da6e652031dbee5,
    0x06a10f6a51ff57f771015737fd39d172,
    0x33c3a08fef48c38044abf133d8bae942,
    0x3c31abb6d43bb34a6f1cf100b89f2d37,
    0x11612c10bc29a97dd658d45353ddb41c,
    0x2b5c5d6c8c737b7cdd59316bd7ab2d9d,
    0x31f3b5a5f842b2c660e9b3eeee2c067e,
    0x07a90ec8d182859a89d85b6848b91179,
    0x367b147e6b869abf362e97c62e411bf8,
    0x0811d3fd9b7077f1d5a8fea87ec17d8b,
    0x3653a1b620c2cf601d43a60d0b3c4cc9,
    0x21ffba13409a6c3e041700c5a164d4b2,
];

/// The root of an empty subtree of the given height: from the table, and hashed from there on for
/// a height that no tree here has.
pub open spec fn empty_subtree(level: nat) -> nat
    decreases level,
{
    if level <= 32 {
        crate::pallas::wide(EMPTY_ROOTS_LO[level as int], EMPTY_ROOTS_HI[level as int])
    } else {
        let below = empty_subtree((level - 1) as nat);
        parent((level - 1) as nat, below, below)
    }
}

proof fn lemma_empty_roots_are_canonical(level: nat)
    requires
        level <= 32,
    ensures
        EMPTY_ROOTS_HI[level as int] < 0x40000000000000000000000000000000,
{
}

/// The root of the commitment tree over `leaves`.
pub open spec fn tree_root(leaves: Seq<nat>) -> nat {
    node(leaves, 32, 0)
}

/// The other child of the same parent.
pub open spec fn sibling(index: nat) -> nat {
    if index % 2 == 0 {
        index + 1
    } else {
        (index - 1) as nat
    }
}

/// The siblings from the leaf at `position` up to the root.
pub open spec fn authentication_path(leaves: Seq<nat>, position: nat) -> Seq<nat> {
    Seq::new(32, |l: int| node(leaves, l as nat, sibling(position / pow2(l as nat))))
}

/// The node that `path` leads to from `leaf` at `position`, after `levels` steps.
pub open spec fn path_node(leaf: nat, position: nat, path: Seq<nat>, levels: nat) -> nat
    decreases levels,
{
    if levels == 0 {
        leaf
    } else {
        let l = (levels - 1) as nat;
        let below = path_node(leaf, position, path, l);
        if (position / pow2(l)) % 2 == 0 {
            parent(l, below, path[l as int])
        } else {
            parent(l, path[l as int], below)
        }
    }
}

/// Checkpoints, the oldest first, with one more: each is its number and the leaves it sealed. No
/// more than `limit` are kept, so the oldest gives way.
pub open spec fn checkpoints_with(
    checkpoints: Seq<(u64, nat)>,
    limit: nat,
    id: u64,
    leaves: nat,
) -> Seq<(u64, nat)> {
    let all = checkpoints.push((id, leaves));
    if all.len() > limit {
        all.drop_first()
    } else {
        all
    }
}

/// The number of a level, which `u8::from` gives.
pub open spec fn number_of_level(level: Level) -> nat {
    <u8 as vstd::std_specs::convert::FromSpec<Level>>::from_spec(level) as nat
}

// ------------------------------------------------------------------------------ outside calls

/// The level of a tree node.
#[verifier::external_type_specification]
#[verifier::external_body]
pub struct ExLevel(incrementalmerkletree::Level);

/// The tree with marks and checkpoints.
#[verifier::external_type_specification]
#[verifier::external_body]
#[verifier::reject_recursive_types(H)]
#[verifier::reject_recursive_types(C)]
pub struct ExBridgeTree<H, C, const DEPTH: u8>(bridgetree::BridgeTree<H, C, DEPTH>);

/// The leaves of a tree, from the left.
pub uninterp spec fn bridge_leaves(tree: BridgeTree<MerkleNode, u64, 32>) -> Seq<nat>;

/// The positions that a tree keeps a witness for.
pub uninterp spec fn bridge_marks(tree: BridgeTree<MerkleNode, u64, 32>) -> Set<nat>;

/// The checkpoints of a tree, the oldest first: the identifier of each and the number of leaves
/// that were there.
pub uninterp spec fn bridge_checkpoints(tree: BridgeTree<MerkleNode, u64, 32>) -> Seq<(u64, nat)>;

/// The most checkpoints that a tree keeps.
pub uninterp spec fn bridge_limit(tree: BridgeTree<MerkleNode, u64, 32>) -> nat;

/// `HashDomain::hash` of the Sinsemilla primitives in `halo2_gadgets`, which panics on more than
/// 253 pieces of ten bits. `None` in an exceptional case of incomplete addition.
#[verifier::external_body]
fn sinsemilla_bits(domain: &str, bits: &[bool]) -> (r: Option<Base>)
    requires
        bits@.len() <= 2530,
    ensures
        r is None ==> sinsemilla_hash(domain@, bits@) is None,
        r matches Some(h) ==> sinsemilla_hash(domain@, bits@) == Some(h@),
{
    let hash = sinsemilla::HashDomain::new(domain).hash(bits.iter().copied());
    Option::<pasta_curves::Fp>::from(hash).map(|h| Base::from_repr(&h.to_repr()).unwrap())
}

/// `u8::from` for a level of `incrementalmerkletree`: the result depends on the level alone. A
/// level is opaque, so which number it holds is not said.
#[verifier::external_body]
fn level_number(level: Level) -> (r: u8)
    ensures
        r as nat == number_of_level(level),
{
    u8::from(level)
}

/// `BridgeTree::new` of `bridgetree`, which panics without room for a checkpoint.
#[verifier::external_body]
fn bridge_new(max_checkpoints: usize) -> (r: BridgeTree<MerkleNode, u64, 32>)
    requires
        max_checkpoints >= 1,
    ensures
        bridge_leaves(r) == Seq::<nat>::empty(),
        bridge_marks(r) == Set::<nat>::empty(),
        bridge_checkpoints(r) == Seq::<(u64, nat)>::empty(),
        bridge_limit(r) == max_checkpoints,
{
    BridgeTree::new(max_checkpoints)
}

/// `BridgeTree::append` of `bridgetree`: adds a leaf unless the tree is full.
#[verifier::external_body]
fn bridge_append(tree: &mut BridgeTree<MerkleNode, u64, 32>, leaf: MerkleNode) -> (r: bool)
    ensures
        r == (bridge_leaves(*old(tree)).len() < TREE_CAPACITY),
        r ==> bridge_leaves(*final(tree)) == bridge_leaves(*old(tree)).push(leaf.0@),
        !r ==> bridge_leaves(*final(tree)) == bridge_leaves(*old(tree)),
        bridge_marks(*final(tree)) == bridge_marks(*old(tree)),
        bridge_checkpoints(*final(tree)) == bridge_checkpoints(*old(tree)),
        bridge_limit(*final(tree)) == bridge_limit(*old(tree)),
{
    tree.append(leaf)
}

/// `BridgeTree::mark` of `bridgetree`: from now on there is a witness for the last leaf.
#[verifier::external_body]
fn bridge_mark(tree: &mut BridgeTree<MerkleNode, u64, 32>) -> (r: Option<u64>)
    ensures
        r is None <==> bridge_leaves(*old(tree)).len() == 0,
        r matches Some(p) ==> p + 1 == bridge_leaves(*old(tree)).len(),
        r matches Some(p) ==> bridge_marks(*final(tree)) == bridge_marks(*old(tree)).insert(p as nat),
        r is None ==> bridge_marks(*final(tree)) == bridge_marks(*old(tree)),
        bridge_leaves(*final(tree)) == bridge_leaves(*old(tree)),
        bridge_checkpoints(*final(tree)) == bridge_checkpoints(*old(tree)),
        bridge_limit(*final(tree)) == bridge_limit(*old(tree)),
{
    tree.mark().map(u64::from)
}

/// `BridgeTree::current_position` of `bridgetree`: the position of the last leaf.
#[verifier::external_body]
fn bridge_position(tree: &BridgeTree<MerkleNode, u64, 32>) -> (r: Option<u64>)
    ensures
        r is None <==> bridge_leaves(*tree).len() == 0,
        r matches Some(p) ==> p + 1 == bridge_leaves(*tree).len() && p < TREE_CAPACITY,
{
    tree.current_position().map(u64::from)
}

/// `BridgeTree::checkpoint` of `bridgetree`: records the identifier and the current leaves unless
/// the identifier is no greater than the last one, and drops the oldest checkpoint when there are
/// more than the tree keeps. Leaves and marks stay; a mark would go with the oldest checkpoint
/// only after `remove_mark`, which nothing here calls.
#[verifier::external_body]
fn bridge_checkpoint(tree: &mut BridgeTree<MerkleNode, u64, 32>, id: u64) -> (r: bool)
    ensures
        r == (bridge_checkpoints(*old(tree)).len() == 0 || bridge_checkpoints(*old(tree)).last().0
            < id),
        bridge_checkpoints(*final(tree)) == (if r {
            checkpoints_with(
                bridge_checkpoints(*old(tree)),
                bridge_limit(*old(tree)),
                id,
                bridge_leaves(*old(tree)).len(),
            )
        } else {
            bridge_checkpoints(*old(tree))
        }),
        bridge_leaves(*final(tree)) == bridge_leaves(*old(tree)),
        bridge_marks(*final(tree)) == bridge_marks(*old(tree)),
        bridge_limit(*final(tree)) == bridge_limit(*old(tree)),
{
    tree.checkpoint(id)
}

/// `BridgeTree::root` of `bridgetree` for the current state: the root over all leaves, hashed
/// with the `Hashable` of the nodes and filled up with empty leaves, whose subtrees that impl has
/// in its table.
#[verifier::external_body]
fn bridge_root(tree: &BridgeTree<MerkleNode, u64, 32>) -> (r: Option<Base>)
    ensures
        r is Some,
        r matches Some(root) ==> root@ == tree_root(bridge_leaves(*tree)),
{
    tree.root(0).map(|node| node.0)
}

/// `BridgeTree::witness` of `bridgetree` for the current state: the siblings from a marked leaf
/// up to the root, and an error for a position that is not marked.
#[verifier::external_body]
fn bridge_witness(tree: &BridgeTree<MerkleNode, u64, 32>, position: u64) -> (r: Option<Vec<Base>>)
    ensures
        r is Some <==> bridge_marks(*tree).contains(position as nat),
        r matches Some(path) ==> crate::hash::values(path@) == authentication_path(
            bridge_leaves(*tree),
            position as nat,
        ),
{
    let path = tree.witness(Position::from(position), 0).ok()?;
    Some(path.into_iter().map(|node| node.0).collect())
}

// --------------------------------------------------------------------------------------- tree

/// A node of the commitment tree.
#[derive(Clone, Copy, Debug, PartialEq, Eq, PartialOrd, Ord)]
pub struct MerkleNode(pub Base);

impl Hashable for MerkleNode {
    /// Value of an empty leaf.
    fn empty_leaf() -> (r: Self)
        ensures
            r.0@ == empty_leaf_value(),
    {
        MerkleNode(Base::from_u64(2))
    }

    /// Root of an empty subtree of height `level`, from a table: asked for at every level, it
    /// would cost hundreds of hashes per root to hash all the way up each time.
    fn empty_root(level: Level) -> (r: Self)
        ensures
            r.0@ == empty_subtree(number_of_level(level)),
    {
        let height: u8 = level_number(level);
        let mut l: u8 = if height < 32 {
            height
        } else {
            32
        };
        proof {
            lemma_empty_roots_are_canonical(l as nat);
        }
        let mut node = Base::from_halves(
            EMPTY_ROOTS_LO[l as usize],
            EMPTY_ROOTS_HI[l as usize],
        ).unwrap();
        while l < height
            invariant
                l <= height,
                32 <= l || l == height,
                node@ == empty_subtree(l as nat),
            decreases height - l,
        {
            node = hash_children(l, &node, &node);
            l = l + 1;
        }
        MerkleNode(node)
    }

    /// `MerkleCRH(level, left, right)`, exactly what the circuit computes along a path.
    fn combine(level: Level, left: &Self, right: &Self) -> (r: Self)
        ensures
            r.0@ == parent(number_of_level(level), left.0@, right.0@),
    {
        MerkleNode(hash_children(level_number(level), &left.0, &right.0))
    }
}

/// The parent of two nodes of the given level.
pub fn hash_children(level: u8, left: &Base, right: &Base) -> (r: Base)
    ensures
        r@ == parent(level as nat, left@, right@),
{
    let mut bits: Vec<bool> = Vec::new();
    push_low_bits(&mut bits, level as u128, 10);
    left.push_bits(&mut bits);
    right.push_bits(&mut bits);
    assert(bits@ =~= merkle_message(level as nat, left@, right@));
    match sinsemilla_bits(MERKLE_CRH_DOMAIN, bits.as_slice()) {
        Some(hash) => hash,
        None => Base::zero(),
    }
}

/// The note commitment tree with checkpoints, one per confirmed transaction.
pub struct CommitmentTree {
    inner: BridgeTree<MerkleNode, u64, 32>,
    checkpoints: u64,
}

impl Default for CommitmentTree {
    fn default() -> (r: Self)
        ensures
            r.leaves() == Seq::<nat>::empty(),
            r.marks() == Set::<nat>::empty(),
            r.sealed() == 0,
            r.checkpoints() == Seq::<(u64, nat)>::empty(),
            r.limit() == DEFAULT_CHECKPOINTS,
            r.wf(),
    {
        Self::new(DEFAULT_CHECKPOINTS)
    }
}

impl CommitmentTree {
    /// The note commitments, in the order they were appended.
    pub closed spec fn leaves(self) -> Seq<nat> {
        bridge_leaves(self.inner)
    }

    /// The positions with a witness.
    pub closed spec fn marks(self) -> Set<nat> {
        bridge_marks(self.inner)
    }

    /// How often the tree was sealed, which numbers the checkpoints.
    pub closed spec fn sealed(self) -> u64 {
        self.checkpoints
    }

    /// The checkpoints, the oldest first: the number of each and the leaves it sealed.
    pub closed spec fn checkpoints(self) -> Seq<(u64, nat)> {
        bridge_checkpoints(self.inner)
    }

    /// The most checkpoints the tree keeps.
    pub closed spec fn limit(self) -> nat {
        bridge_limit(self.inner)
    }

    /// The checkpoints are the most recent ones, numbered without a gap, and a later one sealed
    /// no fewer leaves.
    pub open spec fn wf(self) -> bool {
        let c = self.checkpoints();
        &&& self.limit() >= 1
        &&& c.len() == (if self.sealed() < self.limit() {
            self.sealed() as nat
        } else {
            self.limit()
        })
        &&& forall|i: int| 0 <= i < c.len() ==> (#[trigger] c[i]).0 == self.sealed() - c.len() + i + 1
        &&& forall|i: int| 0 <= i < c.len() ==> (#[trigger] c[i]).1 <= self.leaves().len()
        &&& forall|i: int, j: int| 0 <= i <= j < c.len() ==> (#[trigger] c[i]).1 <= (#[trigger] c[j]).1
    }

    /// Since `before` the tree was sealed once, with the leaves that it has now. When the numbers
    /// of the checkpoints are used up, none is added.
    pub open spec fn sealed_once_since(self, before: Self) -> bool {
        &&& self.limit() == before.limit()
        &&& if before.sealed() < u64::MAX {
            &&& self.sealed() == before.sealed() + 1
            &&& self.checkpoints() == checkpoints_with(
                before.checkpoints(),
                before.limit(),
                self.sealed(),
                self.leaves().len(),
            )
        } else {
            &&& self.sealed() == before.sealed()
            &&& self.checkpoints() == before.checkpoints()
        }
    }

    /// `max_checkpoints` bounds how far back witnesses can be rewound.
    pub fn new(max_checkpoints: usize) -> (r: Self)
        requires
            max_checkpoints >= 1,
        ensures
            r.leaves() == Seq::<nat>::empty(),
            r.marks() == Set::<nat>::empty(),
            r.sealed() == 0,
            r.checkpoints() == Seq::<(u64, nat)>::empty(),
            r.limit() == max_checkpoints,
            r.wf(),
    {
        Self { inner: bridge_new(max_checkpoints), checkpoints: 0 }
    }

    /// Appends a note commitment, `None` when the tree is full. `keep_witness` is for wallets:
    /// mark the notes you own.
    pub fn append(&mut self, cm: Base, keep_witness: bool) -> (r: Option<u64>)
        ensures
            r is Some <==> old(self).leaves().len() < TREE_CAPACITY,
            r matches Some(p) ==> {
                &&& p as nat == old(self).leaves().len()
                &&& final(self).leaves() == old(self).leaves().push(cm@)
                &&& final(self).marks() == (if keep_witness {
                    old(self).marks().insert(p as nat)
                } else {
                    old(self).marks()
                })
            },
            r is None ==> final(self).leaves() == old(self).leaves() && final(self).marks() == old(
                self,
            ).marks(),
            final(self).sealed() == old(self).sealed(),
            final(self).checkpoints() == old(self).checkpoints(),
            final(self).limit() == old(self).limit(),
    {
        if !bridge_append(&mut self.inner, MerkleNode(cm)) {
            return None;
        }
        if keep_witness {
            bridge_mark(&mut self.inner)
        } else {
            bridge_position(&self.inner)
        }
    }

    /// Number of notes in the tree.
    pub fn size(&self) -> (r: u64)
        ensures
            r as nat == self.leaves().len(),
            r <= TREE_CAPACITY,
    {
        match bridge_position(&self.inner) {
            Some(p) => p + 1,
            None => 0,
        }
    }

    /// Whether `notes` more commitments fit, so a transaction can be rejected before any of its
    /// state is written.
    pub fn has_room_for(&self, notes: usize) -> (r: bool)
        ensures
            r == (self.leaves().len() + notes <= TREE_CAPACITY),
    {
        notes as u64 <= TREE_CAPACITY - self.size()
    }

    /// Seals the state after a transaction; its root becomes an acceptable anchor.
    pub fn checkpoint(&mut self)
        requires
            old(self).wf(),
        ensures
            final(self).wf(),
            final(self).leaves() == old(self).leaves(),
            final(self).marks() == old(self).marks(),
            final(self).sealed_once_since(*old(self)),
    {
        if self.checkpoints < u64::MAX {
            self.checkpoints = self.checkpoints + 1;
            let _ = bridge_checkpoint(&mut self.inner, self.checkpoints);
        }
    }

    /// Current root. For an empty tree this is the root of empty leaves.
    pub fn root(&self) -> (r: Base)
        ensures
            r@ == tree_root(self.leaves()),
    {
        bridge_root(&self.inner).unwrap()
    }

    /// Siblings from the leaf up to the root, for the current root.
    pub fn witness(&self, position: u64) -> (r: Option<[Base; 32]>)
        ensures
            r is Some <==> self.marks().contains(position as nat),
            r matches Some(path) ==> crate::hash::values(path@) == authentication_path(
                self.leaves(),
                position as nat,
            ),
    {
        let path = bridge_witness(&self.inner, position)?;
        let mut out: [Base; 32] = [Base::zero(); 32];
        let mut i: usize = 0;
        assert(crate::hash::values(path@).len() == 32);
        while i < 32
            invariant
                i <= 32,
                path@.len() == 32,
                forall|j: int| 0 <= j < i ==> out@[j] == path@[j],
            decreases 32 - i,
        {
            out[i] = path[i];
            i = i + 1;
        }
        assert(out@ =~= path@);
        Some(out)
    }
}

// ------------------------------------------------------------------------------------ anchors

/// The key under which an integer is filed.
pub open spec fn bucket_key(n: nat) -> u128 {
    (n % 0x1_0000_0000_0000_0000_0000_0000_0000_0000nat) as u128
}

/// The elements that are filed under a key, in their order.
spec fn filed(elements: Seq<Base>, key: u128) -> Seq<Base>
    decreases elements.len(),
{
    if elements.len() == 0 {
        Seq::empty()
    } else if bucket_key(elements.last()@) == key {
        filed(elements.drop_last(), key).push(elements.last())
    } else {
        filed(elements.drop_last(), key)
    }
}

proof fn lemma_filed_push(elements: Seq<Base>, e: Base, key: u128)
    ensures
        filed(elements.push(e), key) == (if bucket_key(e@) == key {
            filed(elements, key).push(e)
        } else {
            filed(elements, key)
        }),
{
    assert(elements.push(e).drop_last() =~= elements);
}

proof fn lemma_filed_drop_first(elements: Seq<Base>, key: u128)
    requires
        elements.len() > 0,
    ensures
        bucket_key(elements[0]@) == key ==> {
            &&& filed(elements, key).len() > 0
            &&& filed(elements.drop_first(), key) == filed(elements, key).drop_first()
        },
        bucket_key(elements[0]@) != key ==> filed(elements.drop_first(), key) == filed(
            elements,
            key,
        ),
    decreases elements.len(),
{
    let front = elements.drop_last();
    if elements.len() > 1 {
        lemma_filed_drop_first(front, key);
        assert(elements.drop_first().drop_last() =~= front.drop_first());
        if bucket_key(elements[0]@) == key {
            let f = filed(front, key);
            assert(f.push(elements.last()).drop_first() =~= f.drop_first().push(elements.last()));
        }
    } else {
        assert(front =~= Seq::empty());
        assert(elements.drop_first() =~= Seq::empty());
        assert(filed(front, key) =~= Seq::empty());
        if bucket_key(elements[0]@) == key {
            assert(filed(elements, key).drop_first() =~= Seq::empty());
        }
    }
}

proof fn lemma_filed_contains(elements: Seq<Base>, n: nat)
    ensures
        crate::hash::values(filed(elements, bucket_key(n))).contains(n) == crate::hash::values(
            elements,
        ).contains(n),
    decreases elements.len(),
{
    let key = bucket_key(n);
    let all = crate::hash::values(elements);
    let some = crate::hash::values(filed(elements, key));
    if elements.len() > 0 {
        let front = elements.drop_last();
        let last = elements.last();
        lemma_filed_contains(front, n);
        let fewer = crate::hash::values(filed(front, key));
        assert(all =~= crate::hash::values(front).push(last@));
        lemma_contains_push(crate::hash::values(front), last@, n);
        if bucket_key(last@) == key {
            assert(some =~= fewer.push(last@));
            lemma_contains_push(fewer, last@, n);
        }
    }
}

proof fn lemma_contains_push(s: Seq<nat>, e: nat, n: nat)
    ensures
        s.push(e).contains(n) == (s.contains(n) || n == e),
{
    let t = s.push(e);
    if s.contains(n) {
        let i = choose|i: int| 0 <= i < s.len() && s[i] == n;
        assert(t[i] == n);
    }
    if n == e {
        assert(t[s.len() as int] == n);
    }
    if t.contains(n) && n != e {
        let i = choose|i: int| 0 <= i < t.len() && t[i] == n;
        assert(s[i] == n);
    }
}

/// Roots a transaction may use as its anchor: the most recent ones. They are also filed by their
/// lower half, so a long history costs memory but no verification time.
#[derive(Debug)]
pub struct AnchorHistory {
    roots: VecDeque<Base>,
    /// the same roots by their key; a root comes back after a transaction that adds no note
    by_key: HashMap<u128, VecDeque<Base>>,
    capacity: usize,
}

/// A history of at most `capacity` roots with one more root: a full history forgets its oldest.
pub open spec fn history_with(roots: Seq<nat>, capacity: nat, root: nat) -> Seq<nat> {
    if roots.len() == capacity {
        roots.drop_first().push(root)
    } else {
        roots.push(root)
    }
}

impl AnchorHistory {
    /// The roots, the oldest first.
    pub closed spec fn roots(self) -> Seq<nat> {
        crate::hash::values(self.roots@)
    }

    /// The most roots the history holds.
    pub closed spec fn limit(self) -> nat {
        self.capacity as nat
    }

    /// Every root is filed, and nothing else.
    pub closed spec fn all_filed(self) -> bool {
        forall|key: u128| #[trigger] self.bucket(key) == filed(self.roots@, key)
    }

    /// The roots that are filed under a key.
    spec fn bucket(self, key: u128) -> Seq<Base> {
        if self.by_key@.contains_key(key) {
            self.by_key@[key]@
        } else {
            Seq::empty()
        }
    }

    /// The history holds no more than it may, and its roots are filed.
    pub open spec fn wf(self) -> bool {
        &&& self.limit() > 0
        &&& self.roots().len() <= self.limit()
        &&& self.all_filed()
    }

    /// An empty history would accept no anchor, so there is room for one root at least.
    pub fn new(capacity: usize) -> (r: Self)
        requires
            capacity > 0,
        ensures
            r.roots() == Seq::<nat>::empty(),
            r.limit() == capacity,
            r.wf(),
    {
        let r = Self { roots: VecDeque::new(), by_key: HashMap::new(), capacity };
        assert(r.roots() =~= Seq::<nat>::empty());
        r
    }

    /// Takes the roots that are filed under a key out of the map.
    fn take_bucket(&mut self, key: u128) -> (r: VecDeque<Base>)
        ensures
            r@ == old(self).bucket(key),
            final(self).bucket(key) == Seq::<Base>::empty(),
            forall|other: u128|
                other != key ==> #[trigger] final(self).bucket(other) == old(self).bucket(other),
            final(self).roots == old(self).roots,
            final(self).capacity == old(self).capacity,
    {
        match self.by_key.remove(&key) {
            Some(bucket) => bucket,
            None => VecDeque::new(),
        }
    }

    /// Forgets the oldest root.
    fn forget_oldest(&mut self)
        requires
            old(self).wf(),
            old(self).roots().len() > 0,
        ensures
            final(self).wf(),
            final(self).roots() == old(self).roots().drop_first(),
            final(self).limit() == old(self).limit(),
    {
        let ghost before = self.roots@;
        let ghost buckets = *self;
        if let Some(oldest) = self.roots.pop_front() {
            let key = oldest.low_half();
            assert(buckets.bucket(key) == filed(before, key));
            assert forall|other: u128| #[trigger] self.bucket(other) == buckets.bucket(other) by {}
            let mut bucket = self.take_bucket(key);
            proof {
                lemma_filed_drop_first(before, key);
            }
            let ghost others = *self;
            let _ = bucket.pop_front();
            if bucket.len() > 0 {
                self.by_key.insert(key, bucket);
            }
            proof {
                assert forall|other: u128| #[trigger] self.bucket(other) == filed(
                    self.roots@,
                    other,
                ) by {
                    lemma_filed_drop_first(before, other);
                    assert(buckets.bucket(other) == filed(before, other));
                    if other == key {
                        assert(self.bucket(other) =~= filed(before, key).drop_first());
                    } else {
                        assert(self.bucket(other) == others.bucket(other));
                    }
                }
                assert(self.roots() =~= crate::hash::values(before).drop_first());
            }
        }
    }

    pub fn push(&mut self, root: Base)
        requires
            old(self).wf(),
        ensures
            final(self).roots() == history_with(old(self).roots(), old(self).limit(), root@),
            final(self).limit() == old(self).limit(),
            final(self).wf(),
    {
        if self.roots.len() == self.capacity {
            self.forget_oldest();
        }
        let ghost kept = self.roots@;
        let ghost buckets = *self;
        let key = root.low_half();
        let mut bucket = self.take_bucket(key);
        let ghost others = *self;
        assert(buckets.bucket(key) == filed(kept, key));
        bucket.push_back(root);
        self.by_key.insert(key, bucket);
        self.roots.push_back(root);
        proof {
            assert forall|other: u128| #[trigger] self.bucket(other) == filed(
                self.roots@,
                other,
            ) by {
                lemma_filed_push(kept, root, other);
                assert(buckets.bucket(other) == filed(kept, other));
                if other != key {
                    assert(self.bucket(other) == others.bucket(other));
                }
            }
            assert(self.roots() =~= crate::hash::values(kept).push(root@));
        }
    }

    pub fn contains(&self, root: &Base) -> (r: bool)
        requires
            self.wf(),
        ensures
            r == self.roots().contains(root@),
    {
        let key = root.low_half();
        proof {
            lemma_filed_contains(self.roots@, root@);
            assert(self.bucket(key) == filed(self.roots@, key));
        }
        let bucket = match self.by_key.get(&key) {
            Some(bucket) => bucket,
            None => return false,
        };
        let ghost some = crate::hash::values(bucket@);
        let mut i: usize = 0;
        while i < bucket.len()
            invariant
                i <= bucket@.len(),
                some == crate::hash::values(bucket@),
                some.contains(root@) == self.roots().contains(root@),
                forall|j: int| 0 <= j < i ==> some[j] != root@,
            decreases bucket@.len() - i,
        {
            proof {
                if bucket@[i as int]@ == root@ {
                    crate::pallas::lemma_base_determined(bucket@[i as int], *root);
                }
                assert(some[i as int] == bucket@[i as int]@);
            }
            if bucket[i] == *root {
                return true;
            }
            i = i + 1;
        }
        false
    }
}

// --------------------------------------------------------------------------------- nullifiers

#[derive(Clone, Copy, Debug, PartialEq, Eq)]
pub struct DoubleSpend(pub [u8; 32]);

/// Nullifiers of every spent note, in memory. They are found by their lower half.
#[derive(Debug)]
pub struct NullifierSet {
    spent: HashMap<u128, Vec<Base>>,
    /// their number, as far as it fits
    count: usize,
}

/// The first nullifier that is spent already or comes a second time.
pub open spec fn first_double_spend(spent: Set<nat>, nullifiers: Seq<nat>) -> Option<nat>
    decreases nullifiers.len(),
{
    if nullifiers.len() == 0 {
        None
    } else {
        let before = nullifiers.drop_last();
        match first_double_spend(spent, before) {
            Some(n) => Some(n),
            None => if spent.contains(nullifiers.last()) || before.contains(nullifiers.last()) {
                Some(nullifiers.last())
            } else {
                None
            },
        }
    }
}

impl View for NullifierSet {
    type V = Set<nat>;

    closed spec fn view(&self) -> Set<nat> {
        Set::new(
            |n: nat|
                self.spent@.contains_key(bucket_key(n)) && crate::hash::values(
                    self.spent@[bucket_key(n)]@,
                ).contains(n),
        )
    }
}

impl Default for NullifierSet {
    fn default() -> (r: Self)
        ensures
            r@ == Set::<nat>::empty(),
            r.wf(),
    {
        let r = Self { spent: HashMap::new(), count: 0 };
        assert(r@ =~= Set::<nat>::empty());
        r
    }
}

impl NullifierSet {
    /// The nullifiers are counted.
    pub closed spec fn wf(self) -> bool {
        &&& self@.finite()
        &&& self.count as nat == (if self@.len() < usize::MAX {
            self@.len()
        } else {
            usize::MAX as nat
        })
    }

    pub fn contains(&self, nf: &Base) -> (r: bool)
        ensures
            r == self@.contains(nf@),
    {
        proof {
            use_type_invariant(nf);
        }
        match self.spent.get(&nf.low_half()) {
            Some(bucket) => {
                assert(self.spent@[bucket_key(nf@)] == *bucket);
                has(bucket.as_slice(), nf)
            },
            None => false,
        }
    }

    /// Adds one nullifier that is not there yet.
    fn insert(&mut self, nf: Base)
        requires
            old(self).wf(),
            !old(self)@.contains(nf@),
        ensures
            final(self).wf(),
            final(self)@ == old(self)@.insert(nf@),
    {
        let ghost before = self@;
        let ghost map = self.spent@;
        let key = nf.low_half();
        proof {
            use_type_invariant(&nf);
            assert(key == bucket_key(nf@));
        }
        let mut bucket: Vec<Base> = match self.spent.remove(&key) {
            Some(bucket) => bucket,
            None => Vec::new(),
        };
        let ghost kept = crate::hash::values(bucket@);
        assert(map.contains_key(key) ==> map[key] == bucket);
        assert(!map.contains_key(key) ==> bucket@ =~= Seq::empty());
        bucket.push(nf);
        let ghost now = crate::hash::values(bucket@);
        assert(now =~= kept.push(nf@));
        self.spent.insert(key, bucket);
        if self.count < usize::MAX {
            self.count = self.count + 1;
        }
        proof {
            assert forall|n: nat| self@.contains(n) == before.insert(nf@).contains(n) by {
                if bucket_key(n) == key {
                    assert(self.spent@[key] == bucket);
                    if kept.contains(n) {
                        let i = choose|i: int| 0 <= i < kept.len() && kept[i] == n;
                        assert(now[i] == n);
                    }
                    if n == nf@ {
                        assert(now[kept.len() as int] == n);
                    }
                    if now.contains(n) && n != nf@ {
                        let i = choose|i: int| 0 <= i < now.len() && now[i] == n;
                        assert(kept[i] == n);
                    }
                } else {
                    assert(self.spent@.contains_key(bucket_key(n)) == map.contains_key(
                        bucket_key(n),
                    ));
                }
            }
            assert(self@ =~= before.insert(nf@));
        }
    }

    /// Adds all nullifiers of a transaction, or none: a nullifier that is already spent, or
    /// that appears twice in the same transaction, rejects the whole transaction.
    pub fn insert_all(&mut self, nullifiers: &[Base]) -> (r: Result<(), DoubleSpend>)
        requires
            old(self).wf(),
        ensures
            final(self).wf(),
            r is Ok <==> first_double_spend(old(self)@, crate::hash::values(nullifiers@)) is None,
            r is Ok ==> final(self)@ == old(self)@.union(
                crate::hash::values(nullifiers@).to_set(),
            ),
            r is Ok ==> final(self)@.len() == old(self)@.len() + nullifiers@.len(),
            r matches Err(e) ==> {
                &&& *final(self) == *old(self)
                &&& e.0@ == crate::bytes::le_bytes(
                    first_double_spend(old(self)@, crate::hash::values(nullifiers@))->0,
                    32,
                )
            },
    {
        let ghost all = crate::hash::values(nullifiers@);
        let mut i: usize = 0;
        assert(all.take(0) =~= Seq::empty());
        while i < nullifiers.len()
            invariant
                i <= nullifiers@.len(),
                all == crate::hash::values(nullifiers@),
                first_double_spend(self@, all.take(i as int)) is None,
                *self == *old(self),
                self.wf(),
            decreases nullifiers@.len() - i,
        {
            let nf = nullifiers[i];
            proof {
                assert(all.take(i + 1).drop_last() =~= all.take(i as int));
                assert(all.take(i + 1).last() == nf@);
            }
            if self.contains(&nf) || has_before(nullifiers, i, &nf) {
                proof {
                    assert(all.take(i as int) =~= crate::hash::values(nullifiers@.take(i as int)));
                    lemma_first_stays(self@, all, i as int + 1);
                }
                return Err(DoubleSpend(nf.to_repr()));
            }
            assert(all.take(i as int) =~= crate::hash::values(nullifiers@.take(i as int)));
            i = i + 1;
        }
        assert(all.take(i as int) =~= all);
        let ghost before = self@;
        let mut k: usize = 0;
        assert(before.union(all.take(0).to_set()) =~= before);
        while k < nullifiers.len()
            invariant
                k <= nullifiers@.len(),
                all == crate::hash::values(nullifiers@),
                self.wf(),
                self@ == before.union(all.take(k as int).to_set()),
                first_double_spend(before, all) is None,
                self@.len() == before.len() + k,
            decreases nullifiers@.len() - k,
        {
            let nf = nullifiers[k];
            proof {
                lemma_no_double_spend(before, all, k as int);
                assert(!all.take(k as int).to_set().contains(nf@));
                assert(all.take(k + 1) =~= all.take(k as int).push(nf@));
                assert(before.union(all.take(k + 1).to_set()) =~= self@.insert(nf@)) by {
                    assert forall|n: nat|
                        before.union(all.take(k + 1).to_set()).contains(n) == self@.insert(
                            nf@,
                        ).contains(n) by {
                        let a = all.take(k as int);
                        let b = all.take(k + 1);
                        if b.contains(n) {
                            let j = choose|j: int| 0 <= j < b.len() && b[j] == n;
                            if j < k {
                                assert(a[j] == n);
                            }
                        }
                        if a.contains(n) {
                            let j = choose|j: int| 0 <= j < a.len() && a[j] == n;
                            assert(b[j] == n);
                        }
                        assert(b[k as int] == nf@);
                    }
                }
            }
            self.insert(nf);
            k = k + 1;
        }
        assert(all.take(k as int) =~= all);
        Ok(())
    }

    pub fn len(&self) -> (r: usize)
        requires
            self.wf(),
            self@.len() <= usize::MAX,
        ensures
            r as nat == self@.len(),
    {
        self.count
    }

    pub fn is_empty(&self) -> (r: bool)
        requires
            self.wf(),
        ensures
            r == (self@ == Set::<nat>::empty()),
    {
        proof {
            if self@.len() == 0 {
                assert(self@ =~= Set::<nat>::empty());
            }
        }
        self.count == 0
    }
}

/// Whether an element is among others.
fn has(elements: &[Base], e: &Base) -> (r: bool)
    ensures
        r == crate::hash::values(elements@).contains(e@),
{
    has_before(elements, elements.len(), e)
}

/// Whether an element is among the first `n` others.
fn has_before(elements: &[Base], n: usize, e: &Base) -> (r: bool)
    requires
        n <= elements@.len(),
    ensures
        r == crate::hash::values(elements@.take(n as int)).contains(e@),
        n == elements@.len() ==> r == crate::hash::values(elements@).contains(e@),
{
    let ghost some = crate::hash::values(elements@.take(n as int));
    let mut i: usize = 0;
    proof {
        if n == elements@.len() {
            assert(elements@.take(n as int) =~= elements@);
        }
    }
    while i < n
        invariant
            i <= n <= elements@.len(),
            some == crate::hash::values(elements@.take(n as int)),
            n == elements@.len() ==> some == crate::hash::values(elements@),
            forall|j: int| 0 <= j < i ==> some[j] != e@,
        decreases n - i,
    {
        proof {
            assert(some[i as int] == elements@[i as int]@);
            if elements@[i as int]@ == e@ {
                crate::pallas::lemma_base_determined(elements@[i as int], *e);
            }
        }
        if elements[i] == *e {
            assert(some[i as int] == e@);
            return true;
        }
        i = i + 1;
    }
    false
}

proof fn lemma_first_stays(spent: Set<nat>, nullifiers: Seq<nat>, n: int)
    requires
        0 <= n <= nullifiers.len(),
        first_double_spend(spent, nullifiers.take(n)) is Some,
    ensures
        first_double_spend(spent, nullifiers) == first_double_spend(spent, nullifiers.take(n)),
    decreases nullifiers.len(),
{
    if n == nullifiers.len() {
        assert(nullifiers.take(n) =~= nullifiers);
    } else {
        let before = nullifiers.drop_last();
        assert(before.take(n) =~= nullifiers.take(n));
        lemma_first_stays(spent, before, n);
    }
}

proof fn lemma_no_double_spend(spent: Set<nat>, nullifiers: Seq<nat>, k: int)
    requires
        first_double_spend(spent, nullifiers) is None,
        0 <= k < nullifiers.len(),
    ensures
        !spent.contains(nullifiers[k]),
        !nullifiers.take(k).contains(nullifiers[k]),
    decreases nullifiers.len(),
{
    let before = nullifiers.drop_last();
    if k == nullifiers.len() - 1 {
        assert(nullifiers.take(k) =~= before);
    } else {
        lemma_no_double_spend(spent, before, k);
        assert(before.take(k) =~= nullifiers.take(k));
    }
}

// --------------------------------------------------------------------------------------- laws

/// A witness reproduces the root: folding the path of a leaf with the hash of the tree leads to
/// the root of the tree.
pub proof fn witness_leads_to_the_root(leaves: Seq<nat>, position: nat)
    requires
        position < leaves.len() <= TREE_CAPACITY,
    ensures
        path_node(
            leaves[position as int],
            position,
            authentication_path(leaves, position),
            32,
        ) == tree_root(leaves),
{
    lemma_path_follows_the_tree(leaves, position, 32);
    vstd::arithmetic::power2::lemma2_to64();
    assert(position / pow2(32) == 0) by {
        assert(pow2(32) == 0x1_0000_0000);
        vstd::arithmetic::div_mod::lemma_basic_div(position as int, pow2(32) as int);
    }
}

proof fn lemma_path_follows_the_tree(leaves: Seq<nat>, position: nat, levels: nat)
    requires
        position < leaves.len(),
        levels <= 32,
    ensures
        path_node(
            leaves[position as int],
            position,
            authentication_path(leaves, position),
            levels,
        ) == node(leaves, levels, position / pow2(levels)),
    decreases levels,
{
    if levels == 0 {
        vstd::arithmetic::power2::lemma2_to64();
        assert(position / pow2(0) == position) by (nonlinear_arith)
            requires
                pow2(0) == 1,
        ;
    } else {
        let l = (levels - 1) as nat;
        lemma_path_follows_the_tree(leaves, position, l);
        lemma_pow2_pos(l);
        lemma_pow2_unfold(levels);
        vstd::arithmetic::div_mod::lemma_div_denominator(position as int, pow2(l) as int, 2);
        let i = position / pow2(l);
        assert(position / pow2(levels) == i / 2) by {
            assert(pow2(l) * 2 == pow2(levels));
        }
        assert(authentication_path(leaves, position)[l as int] == node(leaves, l, sibling(i)));
    }
}

/// A subtree right of all leaves is the root of empty leaves, whatever the leaves are.
pub proof fn empty_subtrees_do_not_depend_on_the_leaves(
    leaves: Seq<nat>,
    level: nat,
    index: nat,
)
    requires
        leaves.len() <= index * pow2(level),
    ensures
        node(leaves, level, index) == node(Seq::<nat>::empty(), level, 0),
    decreases level,
{
    vstd::arithmetic::power2::lemma2_to64();
    if level == 0 {
        assert(index * pow2(0) == index) by (nonlinear_arith)
            requires
                pow2(0) == 1,
        ;
    } else {
        let below = (level - 1) as nat;
        lemma_pow2_unfold(level);
        lemma_pow2_pos(below);
        assert(index * pow2(level) == (2 * index) * pow2(below)) by (nonlinear_arith)
            requires
                pow2(level) == 2 * pow2(below),
        ;
        assert((2 * index) * pow2(below) <= (2 * index + 1) * pow2(below)) by (nonlinear_arith);
        empty_subtrees_do_not_depend_on_the_leaves(leaves, below, 2 * index);
        empty_subtrees_do_not_depend_on_the_leaves(leaves, below, 2 * index + 1);
        assert(0 * pow2(below) == 0 && 1 * pow2(below) >= 0) by (nonlinear_arith);
        empty_subtrees_do_not_depend_on_the_leaves(Seq::<nat>::empty(), below, 0);
        empty_subtrees_do_not_depend_on_the_leaves(Seq::<nat>::empty(), below, 1);
    }
}

/// A full history forgets exactly its oldest root, another one forgets nothing.
pub proof fn history_forgets_the_oldest_root(roots: Seq<nat>, capacity: nat, root: nat)
    requires
        0 < capacity,
        roots.len() <= capacity,
    ensures
        history_with(roots, capacity, root).len() <= capacity,
        history_with(roots, capacity, root).contains(root),
        forall|i: int|
            0 <= i < roots.len() && (i > 0 || roots.len() < capacity) ==> history_with(
                roots,
                capacity,
                root,
            ).contains(#[trigger] roots[i]),
        forall|n: nat|
            #[trigger] history_with(roots, capacity, root).contains(n) ==> n == root
                || roots.contains(n),
{
    let h = history_with(roots, capacity, root);
    assert(h[h.len() - 1] == root);
    assert forall|i: int|
        0 <= i < roots.len() && (i > 0 || roots.len() < capacity) implies h.contains(
        #[trigger] roots[i],
    ) by {
        if roots.len() == capacity {
            assert(h[i - 1] == roots[i]);
        } else {
            assert(h[i] == roots[i]);
        }
    }
    assert forall|n: nat| #[trigger] h.contains(n) implies n == root || roots.contains(n) by {
        let i = choose|i: int| 0 <= i < h.len() && h[i] == n;
        if roots.len() == capacity && i < h.len() - 1 {
            assert(roots[i + 1] == n);
        } else if i < h.len() - 1 {
            assert(roots[i] == n);
        }
    }
}

/// A transaction is accepted exactly when none of its nullifiers is spent and none comes twice.
pub proof fn accepted_exactly_when_new_and_distinct(spent: Set<nat>, nullifiers: Seq<nat>)
    ensures
        first_double_spend(spent, nullifiers) is None <==> nullifiers.no_duplicates() && (forall|
            i: int,
        |
            0 <= i < nullifiers.len() ==> !spent.contains(#[trigger] nullifiers[i])),
{
    if first_double_spend(spent, nullifiers) is None {
        assert forall|i: int, j: int|
            0 <= i < nullifiers.len() && 0 <= j < nullifiers.len() && i != j implies nullifiers[i]
            != nullifiers[j] by {
            let (a, b) = if i < j {
                (i, j)
            } else {
                (j, i)
            };
            lemma_no_double_spend(spent, nullifiers, b);
            assert(nullifiers.take(b)[a] == nullifiers[a]);
        }
        assert forall|i: int| 0 <= i < nullifiers.len() implies !spent.contains(
            #[trigger] nullifiers[i],
        ) by {
            lemma_no_double_spend(spent, nullifiers, i);
        }
    } else {
        let k = first_double_spend_is_the_first(spent, nullifiers);
        if nullifiers.take(k).contains(nullifiers[k]) {
            let i = choose|i: int| 0 <= i < k && nullifiers.take(k)[i] == nullifiers[k];
            assert(nullifiers[i] == nullifiers[k]);
        }
    }
}

/// A transaction is refused for the first of its nullifiers that is spent or repeats an earlier
/// one, at the position that is returned.
pub proof fn first_double_spend_is_the_first(spent: Set<nat>, nullifiers: Seq<nat>) -> (k: int)
    requires
        first_double_spend(spent, nullifiers) is Some,
    ensures
        0 <= k < nullifiers.len(),
        first_double_spend(spent, nullifiers) == Some(nullifiers[k]),
        spent.contains(nullifiers[k]) || nullifiers.take(k).contains(nullifiers[k]),
        forall|i: int|
            0 <= i < k ==> !spent.contains(#[trigger] nullifiers[i]) && !nullifiers.take(
                i,
            ).contains(nullifiers[i]),
    decreases nullifiers.len(),
{
    let before = nullifiers.drop_last();
    if first_double_spend(spent, before) is Some {
        let k = first_double_spend_is_the_first(spent, before);
        assert(before.take(k) =~= nullifiers.take(k));
        assert forall|i: int| 0 <= i < k implies !spent.contains(#[trigger] nullifiers[i])
            && !nullifiers.take(i).contains(nullifiers[i]) by {
            assert(before[i] == nullifiers[i]);
            assert(before.take(i) =~= nullifiers.take(i));
        }
        k
    } else {
        let k = nullifiers.len() - 1;
        assert(nullifiers.take(k) =~= before);
        assert forall|i: int| 0 <= i < k implies !spent.contains(#[trigger] nullifiers[i])
            && !nullifiers.take(i).contains(nullifiers[i]) by {
            lemma_no_double_spend(spent, before, i);
            assert(before[i] == nullifiers[i]);
            assert(before.take(i) =~= nullifiers.take(i));
        }
        k
    }
}

/// The nullifiers of an accepted transaction are refused from then on.
pub proof fn spent_nullifiers_are_refused(spent: Set<nat>, nullifiers: Seq<nat>, again: Seq<nat>)
    requires
        again.len() > 0,
        nullifiers.contains(again[0]),
    ensures
        first_double_spend(spent.union(nullifiers.to_set()), again) == Some(again[0]),
{
    let all = spent.union(nullifiers.to_set());
    let first = again.take(1);
    assert(first.drop_last() =~= Seq::empty());
    assert(nullifiers.to_set().contains(again[0]));
    assert(first.last() == again[0]);
    assert(first_double_spend(all, first.drop_last()) is None);
    assert(first_double_spend(all, first) == Some(again[0]));
    lemma_first_stays(all, again, 1);
}

/// A node covers its level and both children in their order: where one of them differs, it is
/// hashed from another message. The messages are returned.
pub proof fn nodes_are_hashed_apart(
    level1: u8,
    left1: Base,
    right1: Base,
    level2: u8,
    left2: Base,
    right2: Base,
) -> (r: (Seq<bool>, Seq<bool>))
    requires
        left1.canonical(),
        right1.canonical(),
        left2.canonical(),
        right2.canonical(),
    ensures
        ({
            let h = sinsemilla_hash("gradido:MerkleCRH-M"@, r.0);
            parent(level1 as nat, left1@, right1@) == (if h is Some {
                h->0
            } else {
                0
            })
        }),
        ({
            let h = sinsemilla_hash("gradido:MerkleCRH-M"@, r.1);
            parent(level2 as nat, left2@, right2@) == (if h is Some {
                h->0
            } else {
                0
            })
        }),
        r.0 == r.1 ==> level1 == level2 && left1 == left2 && right1 == right2,
{
    let a = merkle_message(level1 as nat, left1@, right1@);
    let b = merkle_message(level2 as nat, left2@, right2@);
    if a == b {
        assert(crate::bytes::low_bits(level1 as nat, 10) =~= a.subrange(0, 10));
        assert(crate::bytes::low_bits(level2 as nat, 10) =~= b.subrange(0, 10));
        assert(crate::bytes::low_bits(left1@, 255) =~= a.subrange(10, 265));
        assert(crate::bytes::low_bits(left2@, 255) =~= b.subrange(10, 265));
        assert(crate::bytes::low_bits(right1@, 255) =~= a.subrange(265, 520));
        assert(crate::bytes::low_bits(right2@, 255) =~= b.subrange(265, 520));
        vstd::arithmetic::power2::lemma2_to64();
        lemma_two_to_255();
        crate::bytes::lemma_low_bits_injective(level1 as nat, level2 as nat, 10);
        crate::bytes::lemma_low_bits_injective(left1@, left2@, 255);
        crate::bytes::lemma_low_bits_injective(right1@, right2@, 255);
        crate::pallas::lemma_base_determined(left1, left2);
        crate::pallas::lemma_base_determined(right1, right2);
    }
    (a, b)
}

proof fn lemma_two_to_255()
    ensures
        pow2(255) > crate::pallas::base_modulus(),
{
    vstd::arithmetic::power2::lemma2_to64();
    vstd::arithmetic::power2::lemma2_to64_rest();
    vstd::arithmetic::power2::lemma_pow2_adds(64, 64);
    vstd::arithmetic::power2::lemma_pow2_adds(64, 63);
    vstd::arithmetic::power2::lemma_pow2_adds(128, 127);
    assert(0x1_0000_0000_0000_0000_0000_0000_0000_0000nat
        * 0x8000_0000_0000_0000_0000_0000_0000_0000nat
        == 0x8000_0000_0000_0000_0000_0000_0000_0000_0000_0000_0000_0000_0000_0000_0000_0000nat)
        by (nonlinear_arith);
    assert(pow2(128) == 0x1_0000_0000_0000_0000_0000_0000_0000_0000);
    assert(pow2(127) == 0x8000_0000_0000_0000_0000_0000_0000_0000);
}

/// A new checkpoint is the last one, with its number and the leaves that it seals; of the earlier
/// ones the oldest is dropped where there are more than the limit, and none else.
pub proof fn a_checkpoint_is_kept(
    checkpoints: Seq<(u64, nat)>,
    limit: nat,
    id: u64,
    leaves: nat,
)
    requires
        1 <= limit,
        checkpoints.len() <= limit,
    ensures
        ({
            let after = checkpoints_with(checkpoints, limit, id, leaves);
            let dropped: int = if checkpoints.len() == limit {
                1
            } else {
                0
            };
            &&& after.len() == checkpoints.len() + 1 - dropped
            &&& after.last() == (id, leaves)
            &&& forall|i: int|
                0 <= i < after.len() - 1 ==> #[trigger] after[i] == checkpoints[i + dropped]
        }),
{
}

/// A history keeps its roots in order: the new one is last, and only a full history forgets one,
/// its oldest.
pub proof fn a_history_keeps_its_order(roots: Seq<nat>, capacity: nat, root: nat)
    requires
        0 < capacity,
        roots.len() <= capacity,
    ensures
        ({
            let after = history_with(roots, capacity, root);
            let dropped: int = if roots.len() == capacity {
                1
            } else {
                0
            };
            &&& after.len() == roots.len() + 1 - dropped
            &&& after.last() == root
            &&& forall|i: int|
                0 <= i < after.len() - 1 ==> #[trigger] after[i] == roots[i + dropped]
        }),
{
}

/// A leaf that is not there counts as 2, and every other node is hashed from its two children.
pub proof fn a_tree_is_hashed_in_pairs(leaves: Seq<nat>, level: nat, index: nat)
    ensures
        index < leaves.len() ==> node(leaves, 0, index) == leaves[index as int],
        index >= leaves.len() ==> node(leaves, 0, index) == 2,
        node(leaves, level + 1, index) == parent(
            level,
            node(leaves, level, 2 * index),
            node(leaves, level, 2 * index + 1),
        ),
        tree_root(leaves) == node(leaves, 32, 0),
{
}

/// Sealing a tree adds one checkpoint, with the next number and all the leaves, and changes no
/// other checkpoint but that the oldest gives way at the limit.
pub proof fn sealing_adds_a_checkpoint(before: CommitmentTree, after: CommitmentTree)
    requires
        before.wf(),
        before.sealed() < u64::MAX,
        after.sealed_once_since(before),
    ensures
        ({
            let b = before.checkpoints();
            let a = after.checkpoints();
            let dropped: int = if b.len() == before.limit() {
                1
            } else {
                0
            };
            &&& after.limit() == before.limit()
            &&& after.sealed() == before.sealed() + 1
            &&& a.len() == b.len() + 1 - dropped
            &&& a.last() == (after.sealed(), after.leaves().len())
            &&& forall|i: int| 0 <= i < a.len() - 1 ==> #[trigger] a[i] == b[i + dropped]
        }),
{
    a_checkpoint_is_kept(
        before.checkpoints(),
        before.limit(),
        after.sealed(),
        after.leaves().len(),
    );
}

} // verus!
