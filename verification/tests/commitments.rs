//! Field and group arithmetic, hashes, signatures and the commitment tree.
use bridgetree::BridgeTree;
use ff::{Field, FromUniformBytes, PrimeField};
use gradido_blockchain_zk::circuit::action_slice::merkle_root;
use gradido_blockchain_zk::keys::SpendingKey;
use gradido_blockchain_zk::pallas::{Base, Point, Scalar};
use gradido_blockchain_zk::signature::{
    binding_verification_key, randomness_base, randomized_verification_key, sign_binding, sign_spend_auth,
    spend_auth_base, value_base, value_commitment, verify_binding, verify_spend_auth,
};
use gradido_blockchain_zk::tree::{
    hash_children, AnchorHistory, CommitmentTree, DoubleSpend, MerkleNode, NullifierSet,
};
use group::{Curve, Group, GroupEncoding};
use halo2_gadgets::sinsemilla::primitives as sinsemilla;
use incrementalmerkletree::{Hashable, Level};
use pasta_curves::arithmetic::{CurveAffine, CurveExt};
use pasta_curves::pallas as outside;
use rand::rngs::StdRng;
use rand::{RngCore, SeedableRng};
use std::time::{Duration, Instant};

fn bytes32(rng: &mut StdRng) -> [u8; 32] {
    let mut out = [0u8; 32];
    rng.fill_bytes(&mut out);
    out
}

fn bytes64(rng: &mut StdRng) -> [u8; 64] {
    let mut out = [0u8; 64];
    rng.fill_bytes(&mut out);
    out
}

fn random_scalar(rng: &mut StdRng) -> Scalar {
    Scalar::from_uniform_bytes(&bytes64(rng))
}

fn random_base(rng: &mut StdRng) -> Base {
    Base::from_uniform_bytes(&bytes64(rng))
}

// ------------------------------------------------------------------------------- arithmetic

#[test]
fn field_arithmetic_matches_the_curve_library() {
    let mut rng = StdRng::seed_from_u64(100);
    for _ in 0..50 {
        let (ra, rb) = (bytes64(&mut rng), bytes64(&mut rng));
        let (a, b) = (Base::from_uniform_bytes(&ra), Base::from_uniform_bytes(&rb));
        let (x, y) = (outside::Base::from_uniform_bytes(&ra), outside::Base::from_uniform_bytes(&rb));
        assert_eq!(a.to_repr(), x.to_repr());
        assert_eq!(a.plus(&b).to_repr(), (x + y).to_repr());
        assert_eq!(a.minus(&b).to_repr(), (x - y).to_repr());
        assert_eq!(a.times(&b).to_repr(), (x * y).to_repr());
        assert_eq!(a.double().to_repr(), x.double().to_repr());
        assert_eq!(a.negate().to_repr(), (-x).to_repr());
        assert_eq!(Base::from_repr(&a.to_repr()), Some(a));
        let (s, t) = (Scalar::from_uniform_bytes(&ra), Scalar::from_uniform_bytes(&rb));
        let (u, v) = (outside::Scalar::from_uniform_bytes(&ra), outside::Scalar::from_uniform_bytes(&rb));
        assert_eq!(s.to_repr(), u.to_repr());
        assert_eq!(s.plus(&t).to_repr(), (u + v).to_repr());
        assert_eq!(s.negate().to_repr(), (-u).to_repr());
    }
    assert_eq!(Base::from(7u64).to_repr(), outside::Base::from(7).to_repr());
    assert_eq!(Base::from_u128(1u128 << 100).to_repr(), outside::Base::from_u128(1u128 << 100).to_repr());
    assert_eq!(Base::from_repr(&[0xff; 32]), None);
    assert_eq!(Scalar::from_repr(&[0xff; 32]), None);
    // the order itself is not canonical
    let order = Base::one().negate().to_repr();
    let mut above = order;
    above[0] = above[0].wrapping_add(1);
    assert!(Base::from_repr(&order).is_some() && Base::from_repr(&above).is_none());
}

fn as_outside(p: &Point) -> outside::Affine {
    outside::Affine::from_bytes(&p.to_bytes()).unwrap()
}

fn scalar(s: &Scalar) -> outside::Scalar {
    outside::Scalar::from_repr(s.to_repr()).unwrap()
}

#[test]
fn group_arithmetic_matches_the_curve_library() {
    let mut rng = StdRng::seed_from_u64(101);
    assert_eq!(as_outside(&Point::generator()), outside::Point::generator().to_affine());
    for _ in 0..10 {
        let (a, b) = (random_scalar(&mut rng), random_scalar(&mut rng));
        let (p, q) = (Point::generator().times(&a), value_base().times(&b));
        let (x, y) = (as_outside(&p), as_outside(&q));
        assert_eq!(x, (outside::Point::generator() * scalar(&a)).to_affine());
        assert_eq!(as_outside(&p.plus(&q)), (outside::Point::from(x) + y).to_affine());
        assert_eq!(as_outside(&p.minus(&q)), (outside::Point::from(x) - y).to_affine());
        assert_eq!(as_outside(&p.negate()), (-outside::Point::from(x)).to_affine());
        let c = x.coordinates().unwrap();
        assert_eq!((p.x().to_repr(), p.y().to_repr()), (c.x().to_repr(), c.y().to_repr()));
        assert_eq!(Point::from_xy(&p.x(), &p.y()), Some(p));
        assert_eq!(Point::from_xy(&p.x(), &p.y().plus(&Base::one())), None);
        assert_eq!(Point::from_bytes(&p.to_bytes()), Some(p));
        assert_eq!(p.minus(&p), Point::identity());
    }
    assert_eq!(Point::from_bytes(&[0xff; 32]), None);
    assert_eq!(Point::identity().to_bytes(), [0u8; 32]);
    assert!(Point::identity().is_identity() && !Point::generator().is_identity());
    let hashed = outside::Point::hash_to_curve("z.cash:test")(b"hello").to_affine();
    assert_eq!(as_outside(&Point::hash_to_curve("z.cash:test", b"hello")), hashed);
}

// ------------------------------------------------------------------------------- signatures

const SIGHASH: [u8; 32] = [0x42; 32];

/// the point we hash must be the one reddsa hard codes
#[test]
fn spend_auth_base_matches_reddsa() {
    let ask = Scalar::from_u64(12345);
    let key = reddsa::SigningKey::<reddsa::orchard::SpendAuth>::try_from(ask.to_repr()).unwrap();
    let from_reddsa = <[u8; 32]>::from(reddsa::VerificationKey::from(&key));
    assert_eq!(from_reddsa, spend_auth_base().times(&ask).to_bytes());
    // and for the binding signature
    let key = reddsa::SigningKey::<reddsa::orchard::Binding>::try_from(ask.to_repr()).unwrap();
    let from_reddsa = <[u8; 32]>::from(reddsa::VerificationKey::from(&key));
    assert_eq!(from_reddsa, randomness_base().times(&ask).to_bytes());
}

#[test]
fn spend_auth_round_trip() {
    let mut rng = StdRng::seed_from_u64(3);
    let sk = SpendingKey::from_bytes([5u8; 32]);
    let ask = sk.spend_authorizing_key();
    let ak = sk.full_viewing_key().ak;
    let alpha = random_scalar(&mut rng);

    let signature = sign_spend_auth(&ask, alpha, &SIGHASH, &bytes32(&mut rng));
    let rk = randomized_verification_key(ak, alpha);
    assert!(verify_spend_auth(&rk, &SIGHASH, &signature));

    // the same signature under a different rerandomisation, or another message, must fail
    let other = randomized_verification_key(ak, random_scalar(&mut rng));
    assert!(!verify_spend_auth(&other, &SIGHASH, &signature));
    assert!(!verify_spend_auth(&rk, &[0x43; 32], &signature));
}

#[test]
fn rerandomisation_hides_the_key() {
    let mut rng = StdRng::seed_from_u64(4);
    let ak = SpendingKey::from_bytes([6u8; 32]).full_viewing_key().ak;
    let one = randomized_verification_key(ak, random_scalar(&mut rng));
    let two = randomized_verification_key(ak, random_scalar(&mut rng));
    assert_ne!(one.0.to_bytes(), two.0.to_bytes());
}

#[test]
fn binding_signature_proves_the_values_add_up() {
    let mut rng = StdRng::seed_from_u64(5);
    // one note of 1000 spent, 400 and 600 created: the balance is zero
    let rcvs = [random_scalar(&mut rng), random_scalar(&mut rng), random_scalar(&mut rng)];
    let cvs = [
        value_commitment(1000, rcvs[0]),
        value_commitment(-400, rcvs[1]),
        value_commitment(-600, rcvs[2]),
    ];
    let signature = sign_binding(&rcvs, &SIGHASH, &bytes32(&mut rng));
    let bvk = binding_verification_key(&cvs, 0).expect("valid bvk");
    assert!(verify_binding(&bvk, &SIGHASH, &signature));
    assert!(!verify_binding(&bvk, &[0x43; 32], &signature));
}

#[test]
fn binding_signature_catches_conjured_value() {
    let mut rng = StdRng::seed_from_u64(6);
    let rcvs = [random_scalar(&mut rng), random_scalar(&mut rng)];
    // 1000 in, 1001 out
    let cvs = [value_commitment(1000, rcvs[0]), value_commitment(-1001, rcvs[1])];
    let signature = sign_binding(&rcvs, &SIGHASH, &bytes32(&mut rng));
    let bvk = binding_verification_key(&cvs, 0).expect("valid bvk");
    assert!(!verify_binding(&bvk, &SIGHASH, &signature));
    // a public value balance makes up for the difference
    let bvk = binding_verification_key(&cvs, -1).expect("valid bvk");
    assert!(verify_binding(&bvk, &SIGHASH, &signature));
}

#[test]
fn binding_signature_catches_a_tampered_commitment() {
    let mut rng = StdRng::seed_from_u64(7);
    let rcvs = [random_scalar(&mut rng), random_scalar(&mut rng)];
    let mut cvs = [value_commitment(500, rcvs[0]), value_commitment(-500, rcvs[1])];
    let signature = sign_binding(&rcvs, &SIGHASH, &bytes32(&mut rng));
    cvs[1] = value_commitment(-499, rcvs[1]);
    let bvk = binding_verification_key(&cvs, 0).expect("valid bvk");
    assert!(!verify_binding(&bvk, &SIGHASH, &signature));
}

/// The whole magnitude of an amount counts, and commitments add up.
#[test]
fn value_commitments_add_up() {
    let mut rng = StdRng::seed_from_u64(8);
    let (r1, r2) = (random_scalar(&mut rng), random_scalar(&mut rng));
    let half = 1i128 << 63;
    assert_eq!(value_commitment(half, r1).plus(&value_commitment(half, r2)), value_commitment(2 * half, r1.plus(&r2)));
    assert_eq!(value_commitment(-7, r1).plus(&value_commitment(3, r2)), value_commitment(-4, r1.plus(&r2)));
    assert_ne!(value_commitment(1 << 64, r1), value_commitment(0, r1));
    // 2^127 = 2^126 + 2^126
    let zero = Scalar::zero();
    let quarter = value_commitment(-(1i128 << 126), zero);
    assert_eq!(value_commitment(i128::MIN, zero), quarter.plus(&quarter));
    let eight = value_base().times(&Scalar::from_u64(8));
    assert_eq!(value_commitment(8, zero), eight);
    assert_eq!(value_commitment(-8, zero), eight.negate());
}

// ------------------------------------------------------------------------------- tree

/// A witness from the tree must reproduce the tree's root with the circuit's own hashing.
#[test]
fn witnesses_match_the_circuit_hash() {
    let mut rng = StdRng::seed_from_u64(31);
    let mut tree = CommitmentTree::default();
    let mut mine = Vec::new();
    for i in 0..20 {
        let cm = random_base(&mut rng);
        let keep = i % 5 == 0;
        let position = tree.append(cm, keep).unwrap();
        if keep {
            mine.push((position, cm));
        }
        tree.checkpoint();
    }
    let root = tree.root();
    for (position, cm) in mine {
        let path = tree.witness(position).expect("marked notes have a witness");
        assert_eq!(merkle_root(cm, position as u32, &path), root);
    }
    assert!(tree.witness(1).is_none(), "unmarked notes have none");
    assert_eq!(tree.size(), 20);
    assert!(tree.has_room_for(1 << 20));
}

/// Every level has one root for an empty subtree.
#[test]
fn empty_roots_match_the_definition() {
    let mut node = MerkleNode::empty_leaf();
    for level in 0..32u8 {
        assert_eq!(MerkleNode::empty_root(Level::from(level)), node);
        assert_eq!(MerkleNode(hash_children(level, &node.0, &node.0)), MerkleNode::combine(Level::from(level), &node, &node));
        node = MerkleNode::combine(Level::from(level), &node, &node);
    }
    assert_eq!(MerkleNode::empty_root(Level::from(32u8)), node);
    assert_eq!(MerkleNode::empty_root(Level::from(33u8)), MerkleNode::combine(Level::from(32u8), &node, &node));
    assert_eq!(CommitmentTree::default().root(), node.0);
}

/// The bits of a node's message, as the outside hash reads them.
#[test]
fn a_node_is_the_hash_of_its_message() {
    let mut rng = StdRng::seed_from_u64(32);
    let domain = sinsemilla::HashDomain::new("gradido:MerkleCRH-M");
    for level in [0u8, 1, 31, 200] {
        let (left, right) = (random_base(&mut rng), random_base(&mut rng));
        let mut bits = Vec::new();
        for i in 0..10 {
            bits.push((u16::from(level) >> i) & 1 == 1);
        }
        for child in [&left, &right] {
            let repr = child.to_repr();
            for i in 0..255 {
                bits.push((repr[i / 8] >> (i % 8)) & 1 == 1);
            }
        }
        let hash = Option::<outside::Base>::from(domain.hash(bits.into_iter())).unwrap();
        assert_eq!(hash_children(level, &left, &right).to_repr(), hash.to_repr());
    }
}

#[test]
fn levels_are_hashed_apart() {
    let (a, b) = (Base::from(3u64), Base::from(4u64));
    assert_ne!(hash_children(0, &a, &b), hash_children(1, &a, &b));
    assert_ne!(hash_children(0, &a, &b), hash_children(0, &b, &a));
}

#[test]
fn a_root_is_cheap() {
    let mut tree = CommitmentTree::default();
    for i in 0..200u64 {
        tree.append(Base::from(i + 10), false).unwrap();
        tree.checkpoint();
    }
    let start = Instant::now();
    for _ in 0..20 {
        tree.root();
    }
    let per_root = start.elapsed() / 20;
    assert!(per_root < Duration::from_millis(50), "root took {per_root:?}");

    // where the tree has grown since the last one, a root takes about one hash per level
    let node = Base::from(3u64);
    let (mut hash, mut root) = (Duration::MAX, Duration::MAX);
    for i in 0..5u64 {
        let start = Instant::now();
        for level in 0..32 {
            hash_children(level, &node, &node);
        }
        hash = hash.min(start.elapsed() / 32);
        tree.append(Base::from(i + 10), false).unwrap();
        let start = Instant::now();
        tree.root();
        root = root.min(start.elapsed());
    }
    assert!(root < 100 * hash, "a root took {root:?}, a hash {hash:?}");
}

/// Sealing the tree, more often than it keeps checkpoints, leaves notes and witnesses alone.
#[test]
fn sealing_keeps_notes_and_witnesses() {
    let mut tree = CommitmentTree::new(2);
    let position = tree.append(Base::from(5u64), true).unwrap();
    let (root, path) = (tree.root(), tree.witness(position).unwrap());
    for _ in 0..10 {
        tree.checkpoint();
    }
    assert_eq!(tree.size(), 1);
    assert_eq!(tree.root(), root);
    assert_eq!(tree.witness(position).unwrap(), path);
    assert_eq!(tree.append(Base::from(6u64), false), Some(1));
}

/// A tree keeps its most recent checkpoints, each with the leaves that were there, and refuses an
/// identifier that does not grow.
#[test]
fn checkpoints_are_the_most_recent_ones() {
    let mut tree: BridgeTree<MerkleNode, u64, 32> = BridgeTree::new(2);
    assert!(tree.checkpoint(1));
    assert!(!tree.checkpoint(1));
    assert!(tree.append(MerkleNode(Base::from(5u64))));
    tree.mark();
    assert!(tree.checkpoint(2));
    assert!(tree.append(MerkleNode(Base::from(6u64))));
    assert!(tree.append(MerkleNode(Base::from(7u64))));
    assert!(tree.checkpoint(3));
    let kept: Vec<(u64, u64)> = tree
        .checkpoints()
        .iter()
        .map(|c| (*c.id(), u64::from(tree.prior_bridges()[c.bridges_len() - 1].position()) + 1))
        .collect();
    assert_eq!(kept, vec![(2, 1), (3, 3)]);
    assert_eq!(tree.max_checkpoints(), 2);
    assert_eq!(tree.marked_positions().len(), 1);
}

#[test]
fn root_changes_with_every_note() {
    let mut tree = CommitmentTree::default();
    let empty = tree.root();
    tree.append(Base::from(123u64), false);
    assert_ne!(tree.root(), empty);
}

#[test]
fn anchor_history_forgets_old_roots() {
    let b = |v: u64| Base::from(v);
    let mut history = AnchorHistory::new(2);
    history.push(b(1));
    history.push(b(2));
    history.push(b(3));
    assert!(!history.contains(&b(1)));
    assert!(history.contains(&b(2)) && history.contains(&b(3)));
    // a root that is in the history twice stays until its last copy is gone
    history.push(b(3));
    history.push(b(4));
    assert!(!history.contains(&b(2)));
    assert!(history.contains(&b(3)));
    history.push(b(5));
    assert!(!history.contains(&b(3)));
}

#[test]
fn double_spend_is_rejected() {
    let b = |v: u64| Base::from(v);
    let mut set = NullifierSet::default();
    assert!(set.insert_all(&[b(1), b(2)]).is_ok());
    assert!(set.insert_all(&[b(3), b(2)]).is_err());
    // nothing of the rejected transaction was added
    assert!(!set.contains(&b(3)));
    assert_eq!(set.len(), 2);
    assert_eq!(set.insert_all(&[b(3), b(2)]), Err(DoubleSpend(b(2).to_repr())));
}

#[test]
fn the_same_nullifier_twice_in_one_transaction_is_rejected() {
    let mut set = NullifierSet::default();
    assert!(set.insert_all(&[Base::from(7u64), Base::from(7u64)]).is_err());
    assert!(set.is_empty());
}
