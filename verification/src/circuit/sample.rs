//! A consistent witness of an action plus the public inputs.
use vstd::prelude::*;

use super::action_slice::{merkle_root, ActionSliceCircuit};
use crate::keys::{Address, FullViewingKey, SpendingKey};
use crate::note::{from_parts, Note, NoteKind, NoteModel, RandomSeed};
use crate::pallas::{Base, Point, Scalar};

verus! {

broadcast use vstd::array::group_array_axioms;

/// Far enough in the future for notes of any age used here.
pub const NOW: u64 = 1_000_000_000_000;

/// The position of the spent note in the tree.
pub const LEAF_POS: u32 = 0x1234_5678;

/// The keys of the two sides, so the sample uses real addresses.
#[derive(Clone, Debug)]
pub struct Parties {
    pub spender: FullViewingKey,
    pub spender_address: Address,
    pub recipient: FullViewingKey,
    pub recipient_address: Address,
}

/// The key bytes of the spender.
pub open spec fn spender_sk() -> Seq<u8> {
    Seq::new(32, |i: int| 11u8)
}

/// The key bytes of the recipient.
pub open spec fn recipient_sk() -> Seq<u8> {
    Seq::new(32, |i: int| 12u8)
}

/// The address of the spender.
pub open spec fn spender_address() -> crate::keys::AddressModel {
    crate::keys::viewing_key(spender_sk()).address(Seq::new(11, |i: int| 3u8))
}

/// The address of the recipient.
pub open spec fn recipient_address() -> crate::keys::AddressModel {
    crate::keys::viewing_key(recipient_sk()).address(Seq::new(11, |i: int| 4u8))
}

/// The two parties; `None` if one of the keys has no viewing key.
pub fn parties() -> (r: Option<Parties>)
    ensures
        r is Some <==> crate::keys::has_viewing_key(spender_sk()) && crate::keys::has_viewing_key(recipient_sk()),
        r matches Some(p) ==> {
            &&& p.spender@ == crate::keys::viewing_key(spender_sk())
            &&& p.spender@.consistent()
            &&& p.recipient@ == crate::keys::viewing_key(recipient_sk())
            &&& p.recipient@.consistent()
            &&& p.spender_address@ == spender_address()
            &&& p.recipient_address@ == recipient_address()
        },
{
    let spender_bytes: [u8; 32] = [11u8; 32];
    let recipient_bytes: [u8; 32] = [12u8; 32];
    let spender_d: [u8; 11] = [3u8; 11];
    let recipient_d: [u8; 11] = [4u8; 11];
    proof {
        assert(spender_bytes@ =~= spender_sk());
        assert(recipient_bytes@ =~= recipient_sk());
        assert(spender_d@ =~= Seq::new(11, |i: int| 3u8));
        assert(recipient_d@ =~= Seq::new(11, |i: int| 4u8));
    }
    let spender = SpendingKey::from_bytes(spender_bytes).try_full_viewing_key()?;
    let recipient = SpendingKey::from_bytes(recipient_bytes).try_full_viewing_key()?;
    Some(
        Parties {
            spender_address: spender.address(spender_d),
            recipient_address: recipient.address(recipient_d),
            spender,
            recipient,
        },
    )
}

/// The random bytes of a sample.
#[derive(Clone, Debug)]
pub struct SampleRandomness {
    pub community: [u8; 64],
    pub rho: [u8; 64],
    pub memo_cm: [u8; 64],
    pub rseed: [u8; 32],
    pub path: [[u8; 64]; 32],
    pub new_memo_cm: [u8; 64],
    pub new_rseed: [u8; 32],
    pub alpha: u64,
    pub rcv: u64,
}

/// A witness, the public inputs and the notes behind them.
#[derive(Clone, Debug)]
pub struct Fixture<const WITH_DECAY: bool, const WINDOWED: bool> {
    pub circuit: ActionSliceCircuit<WITH_DECAY, WINDOWED>,
    pub instance: Vec<Base>,
    pub community: Base,
    pub spent: Note,
    pub created: Note,
    pub path: [Base; 32],
    pub leaf_pos: u32,
    pub alpha: Scalar,
}

/// A uniformly chosen field element.
pub open spec fn random_base(bytes: Seq<u8>) -> nat {
    crate::bytes::le_nat(bytes) % crate::pallas::base_modulus()
}

/// What the spent note is worth after `age` seconds.
pub open spec fn sample_worth(with_decay: bool, windowed: bool, value: u64, age: u64) -> nat {
    if !with_decay {
        value as nat
    } else if windowed {
        crate::decay::decayed_windowed(value as nat, age as nat)
    } else {
        crate::decay::decayed(value as nat, age as nat)
    }
}

impl<const WITH_DECAY: bool, const WINDOWED: bool> Fixture<WITH_DECAY, WINDOWED> {
    /// Whether this is the sample for a note of some value and age, with the value that the net
    /// value commitment claims for it.
    pub open spec fn of(self, value: u64, age: u64, claimed: nat, r: SampleRandomness) -> bool {
        let key = crate::keys::viewing_key(spender_sk());
        let community = random_base(r.community@);
        let path = Seq::new(32, |i: int| random_base(r.path@[i]@));
        let worth = sample_worth(WITH_DECAY, WINDOWED, value, age);
        &&& self.community@ == community
        &&& crate::note::note_of_parts(
            community,
            community,
            value,
            (NOW - age) as u64,
            NoteKind::Normal,
            5,
            spender_address(),
            random_base(r.rho@),
            random_base(r.memo_cm@),
            r.rseed@,
        ) == Ok::<NoteModel, crate::note::NoteError>(self.spent@)
        &&& crate::note::note_of_parts(
            community,
            community,
            worth as u64,
            NOW,
            NoteKind::Normal,
            9,
            recipient_address(),
            self.spent@.nf(key.nk),
            random_base(r.new_memo_cm@),
            r.new_rseed@,
        ) == Ok::<NoteModel, crate::note::NoteError>(self.created@)
        &&& crate::hash::values(self.path@) == path
        &&& self.leaf_pos == LEAF_POS
        &&& self.alpha@ == r.alpha
        &&& self.circuit.witnesses(
            self.spent@,
            key,
            LEAF_POS,
            path,
            self.created@,
            r.rcv as nat,
            r.alpha as nat,
        )
        &&& crate::hash::values(self.instance@) == super::action_slice::public_inputs(
            community,
            crate::tree::path_node(self.spent@.cm(), LEAF_POS as nat, path, 32),
            self.spent@.nf(key.nk),
            crate::signature::randomized_key(key.ak, r.alpha as nat),
            self.created@.cm(),
            crate::signature::commitment_to_value(claimed - worth, r.rcv as nat),
            NOW,
        )
    }
}

/// An address of a usable key can receive notes.
proof fn lemma_address_usable(g_d: nat, ivk: nat)
    requires
        crate::pallas::has_full_order(g_d),
        0 < ivk < crate::pallas::scalar_modulus(),
    ensures
        crate::pallas::point_product(g_d, ivk) != 0,
{
    if crate::pallas::point_product(g_d, ivk) == 0 {
        vstd::arithmetic::div_mod::lemma_small_mod(ivk, crate::pallas::scalar_modulus());
    }
}

/// The siblings of the spent note.
fn random_path(random: &SampleRandomness) -> (path: [Base; 32])
    ensures
        crate::hash::values(path@) == Seq::new(32, |i: int| random_base(random.path@[i]@)),
{
    let mut path: [Base; 32] = [Base::zero(); 32];
    let mut i: usize = 0;
    while i < 32
        invariant
            i <= 32,
            forall|j: int| 0 <= j < i ==> (#[trigger] path@[j])@ == random_base(random.path@[j]@),
        decreases 32 - i,
    {
        path[i] = Base::from_uniform_bytes(&random.path[i]);
        i = i + 1;
    }
    assert(crate::hash::values(path@) =~= Seq::new(32, |i: int| random_base(random.path@[i]@)));
    path
}

/// A note for an address of a usable key, and its diversified base.
fn note_for(
    key: &FullViewingKey,
    address: &Address,
    community: Base,
    value: u64,
    t_note: u64,
    expiry_epoch: u64,
    rho: Base,
    memo_cm: Base,
    rseed: RandomSeed,
) -> (r: (Note, Point))
    requires
        key@.consistent(),
        address@ == key@.address(address@.d),
        value < crate::note::VALUE_LIMIT,
        t_note < crate::note::TIMESTAMP_LIMIT,
        expiry_epoch < crate::note::EXPIRY_LIMIT,
    ensures
        crate::note::note_of_parts(
            community@,
            community@,
            value,
            t_note,
            NoteKind::Normal,
            expiry_epoch,
            address@,
            rho@,
            memo_cm@,
            rseed.bytes(),
        ) == Ok::<NoteModel, crate::note::NoteError>(r.0@),
        crate::pallas::on_curve(r.0@.g_d),
        crate::pallas::on_curve(r.0@.pk_d),
        r.1@ == crate::keys::diversified_base(address@.d),
        r.1@ != 0,
        address@.pk_d != 0,
{
    let g_d = crate::keys::diversify_hash(&address.d);
    proof {
        use_type_invariant(&g_d);
        use_type_invariant(&key.ivk);
        use_type_invariant(&address.pk_d);
        lemma_address_usable(g_d@, key.ivk@);
    }
    let note = from_parts(
        community,
        community,
        value,
        t_note,
        NoteKind::Normal,
        expiry_epoch,
        address,
        rho,
        memo_cm,
        rseed,
    ).unwrap();
    (note, g_d)
}

/// The witness and the public inputs for spending one note into another.
fn assemble<const WITH_DECAY: bool, const WINDOWED: bool>(
    key: &FullViewingKey,
    community: Base,
    spent: Note,
    g_d: Point,
    created: Note,
    new_g_d: Point,
    new_pk_d: Point,
    path: [Base; 32],
    net: i128,
    alpha: Scalar,
    rcv: Scalar,
) -> (r: Fixture<WITH_DECAY, WINDOWED>)
    requires
        crate::pallas::on_curve(spent@.g_d),
        crate::pallas::on_curve(created@.g_d),
        crate::pallas::on_curve(created@.pk_d),
        g_d@ != 0,
        new_g_d@ != 0,
        new_pk_d@ != 0,
        created@.g_d == crate::pallas::pallas_multiple(new_g_d@),
        created@.pk_d == crate::pallas::pallas_multiple(new_pk_d@),
        super::action_slice::honest_pair(spent@, g_d@, key@, created@, community@, NOW),
    ensures
        r.circuit.witnesses(
            spent@,
            key@,
            LEAF_POS,
            crate::hash::values(path@),
            created@,
            rcv@,
            alpha@,
        ),
        crate::hash::values(r.instance@) == super::action_slice::public_inputs(
            community@,
            crate::tree::path_node(
                spent@.cm(),
                LEAF_POS as nat,
                crate::hash::values(path@),
                32,
            ),
            spent@.nf(key@.nk),
            crate::signature::randomized_key(key@.ak, alpha@),
            created@.cm(),
            crate::signature::commitment_to_value(net as int, rcv@),
            NOW,
        ),
        net == r.circuit.worth(NOW as nat) - created@.value ==> r.circuit.accepted(
            crate::hash::values(r.instance@),
        ),
        r.community == community,
        r.spent == spent,
        r.created == created,
        r.path == path,
        r.leaf_pos == LEAF_POS,
        r.alpha == alpha,
{
    let anchor = merkle_root(spent.commitment(), LEAF_POS, &path);
    let rk = crate::signature::randomized_verification_key(key.ak, alpha).0;
    let cv_net = crate::signature::value_commitment(net, rcv);
    let circuit = ActionSliceCircuit::<WITH_DECAY, WINDOWED>::new(
        &spent,
        key,
        LEAF_POS,
        path,
        &created,
        rcv,
        alpha,
    );
    let instance = ActionSliceCircuit::<WITH_DECAY, WINDOWED>::instance(
        community,
        anchor,
        spent.nullifier(key.nk),
        rk,
        created.commitment(),
        cv_net,
        NOW,
    );
    proof {
        use_type_invariant(&g_d);
        use_type_invariant(&new_g_d);
        use_type_invariant(&new_pk_d);
        use_type_invariant(&circuit.g_d);
        use_type_invariant(&circuit.new_g_d);
        use_type_invariant(&circuit.new_pk_d);
        crate::pallas::lemma_same_log(circuit.g_d, g_d);
        crate::pallas::lemma_same_log(circuit.new_g_d, new_g_d);
        crate::pallas::lemma_same_log(circuit.new_pk_d, new_pk_d);
        if net == circuit.worth(NOW as nat) - created@.value {
            super::action_slice::honest_action_is_accepted(
                circuit,
                spent@,
                key@,
                LEAF_POS,
                crate::hash::values(path@),
                created@,
                rcv@,
                alpha@,
                community@,
                anchor@,
                NOW,
            );
        }
    }
    Fixture { circuit, instance, community, spent, created, path, leaf_pos: LEAF_POS, alpha }
}

/// Spends the whole note into one new note. `claimed` overrides the value the *public* `cv_net`
/// assumes for the spent note, to test that a prover cannot skip the decay. `None` if there are no
/// parties.
pub fn fixture<const WITH_DECAY: bool, const WINDOWED: bool>(
    value: u64,
    age: u64,
    claimed: Option<u64>,
    random: &SampleRandomness,
) -> (r: Option<Fixture<WITH_DECAY, WINDOWED>>)
    requires
        value < crate::note::VALUE_LIMIT,
        age <= NOW,
    ensures
        r is Some <==> crate::keys::has_viewing_key(spender_sk()) && crate::keys::has_viewing_key(recipient_sk()),
        r matches Some(f) ==> f.of(
            value,
            age,
            match claimed {
                Some(c) => c as nat,
                None => sample_worth(WITH_DECAY, WINDOWED, value, age),
            },
            *random,
        ),
        r matches Some(f) ==> claimed is None ==> f.circuit.accepted(
            crate::hash::values(f.instance@),
        ),
{
    let p = parties()?;
    let community = Base::from_uniform_bytes(&random.community);
    let (spent, g_d) = note_for(
        &p.spender,
        &p.spender_address,
        community,
        value,
        NOW - age,
        5,
        Base::from_uniform_bytes(&random.rho),
        Base::from_uniform_bytes(&random.memo_cm),
        RandomSeed::random(random.rseed),
    );
    let nf = spent.nullifier(p.spender.nk);
    let path = random_path(random);

    proof {
        crate::decay::decay_never_increases(value as nat, age as nat);
    }
    let decayed: u64 = if !WITH_DECAY {
        value
    } else if WINDOWED {
        crate::decay::decay_windowed(value, age)
    } else {
        crate::decay::decay(value, age)
    };
    let (created, new_g_d) = note_for(
        &p.recipient,
        &p.recipient_address,
        community,
        decayed,
        NOW,
        9,
        nf,
        Base::from_uniform_bytes(&random.new_memo_cm),
        RandomSeed::random(random.new_rseed),
    );

    let spent_value: u64 = match claimed {
        Some(c) => c,
        None => decayed,
    };
    Some(
        assemble::<WITH_DECAY, WINDOWED>(
            &p.spender,
            community,
            spent,
            g_d,
            created,
            new_g_d,
            p.recipient_address.pk_d,
            path,
            spent_value as i128 - decayed as i128,
            Scalar::from_u64(random.alpha),
            Scalar::from_u64(random.rcv),
        ),
    )
}

} // verus!
