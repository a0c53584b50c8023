//! One shielded action: spend one note, create one note. A transfer consists of several actions
//! in one proof (`crate::bundle`); the values balance across them through the value commitments
//! and the binding signature, not inside a single action.
//!
//! Per action it proves:
//! * the note commitment of the spent note (Poseidon over the note fields)
//! * that its commitment sits in the note commitment tree (Sinsemilla Merkle path, depth 32)
//! * the key: `ivk = Poseidon(ak_x, nk, rivk)`, so the `ak` of the spend authorisation, the `nk`
//!   of the nullifier and the `ivk` of the address all belong to one key
//! * the address: `pk_d = [ivk] g_d`, with `g_d` and `pk_d` bound into the commitment
//! * its nullifier `Poseidon(nk, rho, cm)`
//! * the created note, whose timestamp is the public `now` and whose `rho` is the nullifier
//!   just derived
//! * the net value commitment `cv_net = [decayed(v_old) - v_new] V + [rcv] R`, public, with the
//!   spent value decayed to `now`
//! * the rerandomised spend authorisation key `rk = ak + [alpha] G`, public
//! * a dummy spend (value 0) may use any tree position: `v_old = 0 or root = anchor`
//! * both notes belong to the public community and carry its coin
//!
//! Public inputs per action: `[anchor, nf, rk_x, rk_y, cm_new, cv_net_x, cv_net_y, now, community]`.
//!
//! Not enforced yet: the time lock of deferred notes and note expiry. `kind` and `expiry_epoch`
//! are committed and range checked, nothing more.
use vstd::arithmetic::power2::pow2;
use vstd::prelude::*;

use super::gate::{cur, difference, product, Expr, Gate};
use crate::keys::{FullViewingKey, ViewingKeyModel};
use crate::note::{Note, NoteModel};
use crate::pallas::{Base, Point, Scalar};

verus! {

broadcast use vstd::array::group_array_axioms;

pub const MERKLE_DEPTH: usize = 32;

/// Rows of the circuit, as a power of two.
pub const K: u32 = 11;

/// 10 bit words per message piece; the pieces add up to about 1100 bits.
pub const PIECE_WORDS: [usize; 5] = [11, 25, 25, 25, 25];

pub const INSTANCE_ANCHOR: usize = 0;

pub const INSTANCE_NF: usize = 1;

pub const INSTANCE_RK_X: usize = 2;

pub const INSTANCE_RK_Y: usize = 3;

pub const INSTANCE_CM_NEW: usize = 4;

pub const INSTANCE_CV_X: usize = 5;

pub const INSTANCE_CV_Y: usize = 6;

pub const INSTANCE_NOW: usize = 7;

pub const INSTANCE_COMMUNITY: usize = 8;

// ---------------------------------------------------------------- fixed bases and domains

/// The fixed bases of the circuit. The points are the ones `crate::signature` uses, so the
/// commitments and keys the circuit exposes are exactly what the signatures are checked against.
#[derive(Debug, Eq, PartialEq, Clone)]
pub struct GradidoFixedBases;

/// Bases for full width scalar multiplication.
#[derive(Debug, Eq, PartialEq, Clone)]
pub enum FullWidth {
    /// `R`, the randomness base of the value commitment
    ValueRandomness,
    /// `G`, the basepoint of the spend authorisation signature
    SpendAuth,
}

/// Base for base field element multiplication. Nothing uses it since the nullifier is a
/// Poseidon hash, but the gadget needs one; it shares the spend authorisation base.
#[derive(Debug, Eq, PartialEq, Clone)]
pub struct NullifierK;

/// `V`, the value base of the value commitment, multiplied by a signed 64 bit value.
#[derive(Debug, Eq, PartialEq, Clone)]
pub struct ShortBase;

#[derive(Debug, Clone, Eq, PartialEq)]
pub enum GradidoHashDomains {
    NoteCommit,
    MerkleCrh,
}

#[derive(Debug, Clone, Eq, PartialEq)]
pub enum GradidoCommitDomains {
    NoteCommit,
}

impl FullWidth {
    /// The point that is multiplied.
    pub fn generator(&self) -> (r: Point)
        ensures
            r@ == match self {
                FullWidth::ValueRandomness => crate::signature::randomness_generator(),
                FullWidth::SpendAuth => crate::signature::spend_auth_generator(),
            },
    {
        match self {
            FullWidth::ValueRandomness => crate::signature::randomness_base(),
            FullWidth::SpendAuth => crate::signature::spend_auth_base(),
        }
    }
}

impl NullifierK {
    /// The point that is multiplied.
    pub fn generator(&self) -> (r: Point)
        ensures
            r@ == crate::signature::spend_auth_generator(),
    {
        crate::signature::spend_auth_base()
    }
}

impl ShortBase {
    /// The point that is multiplied.
    pub fn generator(&self) -> (r: Point)
        ensures
            r@ == crate::signature::value_generator(),
    {
        crate::signature::value_base()
    }
}

impl GradidoCommitDomains {
    /// The randomness base of the commitment.
    pub fn r(&self) -> (r: FullWidth)
        ensures
            r == FullWidth::ValueRandomness,
    {
        FullWidth::ValueRandomness
    }

    /// The hash domain of the commitment.
    pub fn hash_domain(&self) -> (r: GradidoHashDomains)
        ensures
            r == GradidoHashDomains::NoteCommit,
    {
        GradidoHashDomains::NoteCommit
    }
}

// ------------------------------------------------------------------------------- circuit

/// Everything the prover knows. `community` and `now` are public inputs, so they are not
/// witnessed; the created note takes its timestamp and `rho` from the circuit.
#[derive(Clone, Copy, Debug)]
pub struct ActionSliceCircuit<const WITH_DECAY: bool, const WINDOWED: bool> {
    // the spent note
    pub value: u64,
    pub t_note: u64,
    pub kind: u64,
    pub expiry: u64,
    pub g_d: Point,
    pub rho: Base,
    pub psi: Base,
    pub memo_cm: Base,
    pub rcm: Base,
    // the key that owns it: pk_d = [ivk] g_d with ivk = Poseidon(ak_x, nk, rivk)
    pub ak: Point,
    pub nk: Base,
    pub rivk: Base,
    // its place in the tree
    pub leaf_pos: u32,
    pub path: [Base; 32],
    // the created note
    pub new_value: u64,
    pub new_g_d: Point,
    pub new_pk_d: Point,
    pub new_kind: u64,
    pub new_expiry: u64,
    pub new_psi: Base,
    pub new_memo_cm: Base,
    pub new_rcm: Base,
    // value commitment and spend authorisation
    pub rcv: Scalar,
    pub alpha: Scalar,
}

/// What a note commitment hashes.
pub open spec fn committed_elements(
    community: nat,
    value: nat,
    t_note: nat,
    kind: nat,
    expiry: nat,
    g_d: (nat, nat),
    pk_d: (nat, nat),
    rho: nat,
    psi: nat,
    memo_cm: nat,
    rcm: nat,
) -> Seq<nat> {
    seq![
        community,
        community,
        crate::note::packed_amount(value, t_note),
        (kind + expiry * 2) % crate::pallas::base_modulus(),
        g_d.0,
        g_d.1,
        pk_d.0,
        pk_d.1,
        rho,
        psi,
        memo_cm,
        rcm,
    ]
}

/// The parts of a note have the widths that keep the packed elements unambiguous.
pub open spec fn widths_hold(value: nat, t_note: nat, kind: nat, expiry: nat) -> bool {
    &&& value < crate::note::VALUE_LIMIT
    &&& t_note < crate::note::TIMESTAMP_LIMIT
    &&& kind < 2
    &&& expiry < crate::note::EXPIRY_LIMIT
}

impl<const WITH_DECAY: bool, const WINDOWED: bool> ActionSliceCircuit<WITH_DECAY, WINDOWED> {
    /// The incoming viewing key, a hash of the rest of the key.
    pub open spec fn ivk(self) -> nat {
        crate::hash::poseidon_hash(
            seq![crate::pallas::pallas_multiple(self.ak@).0, self.nk@, self.rivk@],
        )
    }

    /// The transmission key of the spent note, by its discrete logarithm.
    pub open spec fn pk_d(self) -> nat {
        crate::pallas::point_product(self.g_d@, self.ivk())
    }

    /// The commitment of the spent note.
    pub open spec fn cm_old(self, community: nat) -> nat {
        crate::hash::poseidon_hash(
            committed_elements(
                community,
                self.value as nat,
                self.t_note as nat,
                self.kind as nat,
                self.expiry as nat,
                crate::pallas::pallas_multiple(self.g_d@),
                crate::pallas::pallas_multiple(self.pk_d()),
                self.rho@,
                self.psi@,
                self.memo_cm@,
                self.rcm@,
            ),
        )
    }

    /// The root that the Merkle path leads to.
    pub open spec fn root(self, community: nat) -> nat {
        crate::tree::path_node(
            self.cm_old(community),
            self.leaf_pos as nat,
            crate::hash::values(self.path@),
            32,
        )
    }

    /// The nullifier of the spent note.
    pub open spec fn nf(self, community: nat) -> nat {
        crate::hash::poseidon_hash(seq![self.nk@, self.rho@, self.cm_old(community)])
    }

    /// The spent value at `now`.
    pub open spec fn worth(self, now: nat) -> nat {
        if !WITH_DECAY {
            self.value as nat
        } else if WINDOWED {
            crate::decay::decayed_windowed(self.value as nat, (now - self.t_note) as nat)
        } else {
            crate::decay::decayed(self.value as nat, (now - self.t_note) as nat)
        }
    }

    /// The commitment of the created note.
    pub open spec fn cm_new(self, community: nat, now: nat) -> nat {
        crate::hash::poseidon_hash(
            committed_elements(
                community,
                self.new_value as nat,
                now,
                self.new_kind as nat,
                self.new_expiry as nat,
                crate::pallas::pallas_multiple(self.new_g_d@),
                crate::pallas::pallas_multiple(self.new_pk_d@),
                self.nf(community),
                self.new_psi@,
                self.new_memo_cm@,
                self.new_rcm@,
            ),
        )
    }

    /// The rerandomised spend authorisation key, by its discrete logarithm.
    pub open spec fn rk(self) -> nat {
        crate::signature::randomized_key(self.ak@, self.alpha@)
    }

    /// The net value commitment, by its discrete logarithm.
    pub open spec fn cv_net(self, now: nat) -> nat {
        crate::signature::commitment_to_value(self.worth(now) - self.new_value, self.rcv@)
    }

    /// The points that the circuit witnesses are not the identity.
    pub open spec fn points_hold(self) -> bool {
        &&& self.ak@ != 0
        &&& self.g_d@ != 0
        &&& self.new_g_d@ != 0
        &&& self.new_pk_d@ != 0
    }

    /// Whether the witness and the public inputs satisfy the circuit.
    pub open spec fn accepted(self, instance: Seq<nat>) -> bool {
        let anchor = instance[0];
        let now = instance[7];
        let community = instance[8];
        &&& self.points_hold()
        &&& widths_hold(
            self.value as nat,
            self.t_note as nat,
            self.kind as nat,
            self.expiry as nat,
        )
        &&& widths_hold(self.new_value as nat, now, self.new_kind as nat, self.new_expiry as nat)
        &&& WITH_DECAY ==> self.t_note <= now
        &&& self.value == 0 || self.root(community) == anchor
        &&& instance[1] == self.nf(community)
        &&& (instance[2], instance[3]) == crate::pallas::pallas_multiple(self.rk())
        &&& instance[4] == self.cm_new(community, now)
        &&& (instance[5], instance[6]) == crate::pallas::pallas_multiple(self.cv_net(now))
    }

    /// The witness for spending `spent`, owned by `fvk`, into `created`.
    pub fn new(
        spent: &Note,
        fvk: &FullViewingKey,
        leaf_pos: u32,
        path: [Base; 32],
        created: &Note,
        rcv: Scalar,
        alpha: Scalar,
    ) -> (r: Self)
        requires
            crate::pallas::on_curve(spent@.g_d),
            crate::pallas::on_curve(created@.g_d),
            crate::pallas::on_curve(created@.pk_d),
        ensures
            r.witnesses(spent@, fvk@, leaf_pos, crate::hash::values(path@), created@, rcv@, alpha@),
    {
        let g_d = Point::from_xy(&spent.g_d_x, &spent.g_d_y).unwrap();
        let new_g_d = Point::from_xy(&created.g_d_x, &created.g_d_y).unwrap();
        let new_pk_d = Point::from_xy(&created.pk_d_x, &created.pk_d_y).unwrap();
        proof {
            use_type_invariant(&g_d);
            use_type_invariant(&new_g_d);
            use_type_invariant(&new_pk_d);
        }
        ActionSliceCircuit {
            value: spent.value,
            t_note: spent.t_note,
            kind: spent.kind.to_u8() as u64,
            expiry: spent.expiry_epoch,
            g_d,
            rho: spent.rho,
            psi: spent.psi,
            memo_cm: spent.memo_cm,
            rcm: spent.rcm,
            ak: fvk.ak,
            nk: fvk.nk,
            rivk: fvk.rivk,
            leaf_pos,
            path,
            new_value: created.value,
            new_g_d,
            new_pk_d,
            new_kind: created.kind.to_u8() as u64,
            new_expiry: created.expiry_epoch,
            new_psi: created.psi,
            new_memo_cm: created.memo_cm,
            new_rcm: created.rcm,
            rcv,
            alpha,
        }
    }

    /// Whether this is the witness for spending a note into another one.
    pub open spec fn witnesses(
        self,
        spent: NoteModel,
        key: ViewingKeyModel,
        leaf_pos: u32,
        path: Seq<nat>,
        created: NoteModel,
        rcv: nat,
        alpha: nat,
    ) -> bool {
        &&& self.value == spent.value
        &&& self.t_note == spent.t_note
        &&& self.kind as nat == spent.kind.number()
        &&& self.expiry == spent.expiry_epoch
        &&& crate::pallas::pallas_multiple(self.g_d@) == spent.g_d
        &&& self.rho@ == spent.rho
        &&& self.psi@ == spent.psi
        &&& self.memo_cm@ == spent.memo_cm
        &&& self.rcm@ == spent.rcm
        &&& self.ak@ == key.ak
        &&& self.nk@ == key.nk
        &&& self.rivk@ == key.rivk
        &&& self.leaf_pos == leaf_pos
        &&& crate::hash::values(self.path@) == path
        &&& self.new_value == created.value
        &&& crate::pallas::pallas_multiple(self.new_g_d@) == created.g_d
        &&& crate::pallas::pallas_multiple(self.new_pk_d@) == created.pk_d
        &&& self.new_kind as nat == created.kind.number()
        &&& self.new_expiry == created.expiry_epoch
        &&& self.new_psi@ == created.psi
        &&& self.new_memo_cm@ == created.memo_cm
        &&& self.new_rcm@ == created.rcm
        &&& self.rcv@ == rcv
        &&& self.alpha@ == alpha
    }

    /// `[anchor, nf, rk_x, rk_y, cm_new, cv_net_x, cv_net_y, now, community]`. The coordinates of
    /// the identity are zeros, as in the circuit.
    pub fn instance(
        community: Base,
        anchor: Base,
        nullifier: Base,
        rk: Point,
        cm_new: Base,
        cv_net: Point,
        now: u64,
    ) -> (r: Vec<Base>)
        ensures
            crate::hash::values(r@) == public_inputs(
                community@,
                anchor@,
                nullifier@,
                rk@,
                cm_new@,
                cv_net@,
                now,
            ),
    {
        let (rk_x, rk_y) = coordinates(rk);
        let (cv_x, cv_y) = coordinates(cv_net);
        let mut r: Vec<Base> = Vec::new();
        r.push(anchor);
        r.push(nullifier);
        r.push(rk_x);
        r.push(rk_y);
        r.push(cm_new);
        r.push(cv_x);
        r.push(cv_y);
        r.push(Base::from_u64(now));
        r.push(community);
        assert(crate::hash::values(r@) =~= public_inputs(
            community@,
            anchor@,
            nullifier@,
            rk@,
            cm_new@,
            cv_net@,
            now,
        ));
        r
    }

    /// The key part: `ivk = Poseidon(ak_x, nk, rivk)` and `pk_d = [ivk] g_d`.
    fn spent_address(&self) -> (r: Point)
        ensures
            r@ == self.pk_d(),
    {
        let message: [Base; 3] = [self.ak.x(), self.nk, self.rivk];
        proof {
            use_type_invariant(&self.ak);
            assert(crate::hash::values(message@) =~= seq![
                crate::pallas::pallas_multiple(self.ak@).0,
                self.nk@,
                self.rivk@,
            ]);
        }
        self.g_d.times(&crate::hash::poseidon(message).to_scalar())
    }

    /// The spent value at `now`.
    fn spent_worth(&self, now: u64) -> (r: u64)
        requires
            WITH_DECAY ==> self.t_note <= now,
            self.value < crate::note::VALUE_LIMIT,
        ensures
            r as nat == self.worth(now as nat),
    {
        if !WITH_DECAY {
            self.value
        } else if WINDOWED {
            crate::decay::decay_windowed(self.value, now - self.t_note)
        } else {
            crate::decay::decay(self.value, now - self.t_note)
        }
    }

    /// Whether the witness and the public inputs satisfy the circuit.
    pub fn accepts(&self, instance: &[Base]) -> (r: bool)
        requires
            instance@.len() == 9,
        ensures
            r == self.accepted(crate::hash::values(instance@)),
    {
        let ghost inputs = crate::hash::values(instance@);
        let now: u64 = instance[INSTANCE_NOW].low_u64();
        if !Base::from_u64(now).same(&instance[INSTANCE_NOW]) {
            proof {
                lemma_small_now(instance@[7]);
            }
            return false;
        }
        if !fit_widths(self.value, self.t_note, self.kind, self.expiry) || !fit_widths(
            self.new_value,
            now,
            self.new_kind,
            self.new_expiry,
        ) || (WITH_DECAY && self.t_note > now) {
            return false;
        }
        if self.ak.is_identity() || self.g_d.is_identity() || self.new_g_d.is_identity()
            || self.new_pk_d.is_identity() {
            return false;
        }
        let community = instance[INSTANCE_COMMUNITY];
        let cm_old = hash_note(
            community,
            self.value,
            self.t_note,
            self.kind,
            self.expiry,
            self.g_d,
            self.spent_address(),
            [self.rho, self.psi, self.memo_cm, self.rcm],
        );
        let root = merkle_root(cm_old, self.leaf_pos, &self.path);
        if self.value != 0 && !root.same(&instance[INSTANCE_ANCHOR]) {
            return false;
        }
        let nf = crate::note::nullifier(self.nk, self.rho, cm_old);
        if !nf.same(&instance[INSTANCE_NF]) {
            return false;
        }
        let rk = crate::signature::randomized_verification_key(self.ak, self.alpha).0;
        let (rk_x, rk_y) = coordinates(rk);
        if !rk_x.same(&instance[INSTANCE_RK_X]) || !rk_y.same(&instance[INSTANCE_RK_Y]) {
            return false;
        }
        let cm_new = hash_note(
            community,
            self.new_value,
            now,
            self.new_kind,
            self.new_expiry,
            self.new_g_d,
            self.new_pk_d,
            [nf, self.new_psi, self.new_memo_cm, self.new_rcm],
        );
        if !cm_new.same(&instance[INSTANCE_CM_NEW]) {
            return false;
        }
        let net: i128 = self.spent_worth(now) as i128 - self.new_value as i128;
        let (cv_x, cv_y) = coordinates(crate::signature::value_commitment(net, self.rcv));
        cv_x.same(&instance[INSTANCE_CV_X]) && cv_y.same(&instance[INSTANCE_CV_Y])
    }
}

proof fn lemma_small_now(b: Base)
    requires
        b@ % 0x1_0000_0000_0000_0000 != b@,
    ensures
        b@ >= 0x1_0000_0000_0000_0000,
{
    if b@ < 0x1_0000_0000_0000_0000 {
        vstd::arithmetic::div_mod::lemma_small_mod(b@, 0x1_0000_0000_0000_0000);
    }
}

/// The public inputs of an action.
pub open spec fn public_inputs(
    community: nat,
    anchor: nat,
    nullifier: nat,
    rk: nat,
    cm_new: nat,
    cv_net: nat,
    now: u64,
) -> Seq<nat> {
    seq![
        anchor,
        nullifier,
        crate::pallas::pallas_multiple(rk).0,
        crate::pallas::pallas_multiple(rk).1,
        cm_new,
        crate::pallas::pallas_multiple(cv_net).0,
        crate::pallas::pallas_multiple(cv_net).1,
        now as nat,
        community,
    ]
}

fn fit_widths(value: u64, t_note: u64, kind: u64, expiry: u64) -> (r: bool)
    ensures
        r == widths_hold(value as nat, t_note as nat, kind as nat, expiry as nat),
{
    value < crate::note::VALUE_LIMIT && t_note < crate::note::TIMESTAMP_LIMIT && kind < 2 && expiry
        < crate::note::EXPIRY_LIMIT
}

/// The note commitment over the witnessed parts.
fn hash_note(
    community: Base,
    value: u64,
    t_note: u64,
    kind: u64,
    expiry: u64,
    g_d: Point,
    pk_d: Point,
    rest: [Base; 4],
) -> (r: Base)
    requires
        kind < 2,
    ensures
        r@ == crate::hash::poseidon_hash(
            committed_elements(
                community@,
                value as nat,
                t_note as nat,
                kind as nat,
                expiry as nat,
                crate::pallas::pallas_multiple(g_d@),
                crate::pallas::pallas_multiple(pk_d@),
                rest@[0]@,
                rest@[1]@,
                rest@[2]@,
                rest@[3]@,
            ),
        ),
{
    let kind_name = if kind == 0 {
        crate::note::NoteKind::Normal
    } else {
        crate::note::NoteKind::Deferred
    };
    let elements: [Base; 12] = [
        community,
        community,
        crate::note::pack_amount(value, t_note),
        crate::note::pack_meta(kind_name, expiry),
        g_d.x(),
        g_d.y(),
        pk_d.x(),
        pk_d.y(),
        rest[0],
        rest[1],
        rest[2],
        rest[3],
    ];
    proof {
        use_type_invariant(&g_d);
        use_type_invariant(&pk_d);
        vstd::arithmetic::power2::lemma2_to64();
        assert(crate::hash::values(elements@) =~= committed_elements(
            community@,
            value as nat,
            t_note as nat,
            kind as nat,
            expiry as nat,
            crate::pallas::pallas_multiple(g_d@),
            crate::pallas::pallas_multiple(pk_d@),
            rest@[0]@,
            rest@[1]@,
            rest@[2]@,
            rest@[3]@,
        ));
    }
    crate::note::commit(elements)
}

// ------------------------------------------------------------------------------ action checks

/// The two rules that tie an action together: `decayed(v_old) - v_new = magnitude * sign`, and
/// `v_old = 0 or root = anchor`.
/// Columns: `decayed, v_new, magnitude, sign, v_old, root, anchor`.
pub open spec fn action_holds(rows: Seq<Seq<nat>>) -> bool {
    let a = rows[0];
    &&& super::gate::vanishes(a[0] - a[1] - a[2] * a[3])
    &&& super::gate::vanishes(a[4] * (a[5] - a[6]))
}

/// Gate of the two rules.
pub fn action_gate() -> (r: Gate)
    ensures
        forall|rows: Seq<Seq<nat>>, fixed: Seq<nat>| #[trigger]
            r.holds(rows, fixed) <==> action_holds(rows),
        forall|rows: Seq<Seq<nat>>, fixed: Seq<nat>|
            rows.len() == 1 && rows[0].len() == 7 ==> #[trigger] r.reads_within(rows, fixed),
{
    let value = difference(difference(cur(0), cur(1)), product(cur(2), cur(3)));
    let tree = product(cur(4), difference(cur(5), cur(6)));
    let mut polys: Vec<Expr> = Vec::new();
    polys.push(value);
    polys.push(tree);
    let r = Gate { name: "action", polys };
    proof {
        assert(r.polys@[0] == value && r.polys@[1] == tree);
        assert forall|rows: Seq<Seq<nat>>, fixed: Seq<nat>| #[trigger]
            r.holds(rows, fixed) <==> action_holds(rows) by {
            reveal_with_fuel(Expr::value, 4);
            let a = rows[0];
            assert(value.value(rows, fixed) == a[0] - a[1] - a[2] * a[3]);
            assert(tree.value(rows, fixed) == a[4] * (a[5] - a[6]));
        }
        assert forall|rows: Seq<Seq<nat>>, fixed: Seq<nat>|
            rows.len() == 1 && rows[0].len() == 7 implies #[trigger] r.reads_within(rows, fixed) by {
            reveal_with_fuel(Expr::reads_within, 4);
        }
    }
    r
}

/// The difference of the two values as `magnitude * sign` with a sign of one or minus one.
pub fn net_value(decayed: u64, v_new: u64) -> (r: (Base, Base))
    ensures
        decayed >= v_new ==> r.0@ == decayed - v_new && r.1@ == 1,
        decayed < v_new ==> r.0@ == v_new - decayed && r.1@ == crate::pallas::base_modulus() - 1,
        super::gate::vanishes(decayed - v_new - r.0@ * r.1@),
{
    if decayed >= v_new {
        (Base::from_u64(decayed - v_new), Base::one())
    } else {
        let minus_one = Base::one().negate();
        proof {
            let m = crate::pallas::base_modulus() as int;
            let d = v_new - decayed;
            vstd::arithmetic::div_mod::lemma_small_mod((m - 1) as nat, m as nat);
            assert(-d - d * (m - 1) == -d * m) by (nonlinear_arith);
            vstd::arithmetic::div_mod::lemma_mod_multiples_basic(-d, m);
        }
        (Base::from_u64(v_new - decayed), minus_one)
    }
}

/// The row of the action checks.
pub fn action_row(decayed: u64, v_new: u64, v_old: u64, root: Base, anchor: Base) -> (r: Vec<Base>)
    ensures
        r@.len() == 7,
        r@[0]@ == decayed,
        r@[1]@ == v_new,
        r@[4]@ == v_old,
        r@[5] == root,
        r@[6] == anchor,
        v_old == 0 || root@ == anchor@ ==> action_holds(seq![crate::hash::values(r@)]),
{
    let (magnitude, sign) = net_value(decayed, v_new);
    let mut r: Vec<Base> = Vec::new();
    r.push(Base::from_u64(decayed));
    r.push(Base::from_u64(v_new));
    r.push(magnitude);
    r.push(sign);
    r.push(Base::from_u64(v_old));
    r.push(root);
    r.push(anchor);
    proof {
        let a = crate::hash::values(r@);
        assert(a[4] * (a[5] - a[6]) == 0 || !(v_old == 0 || root@ == anchor@)) by (nonlinear_arith)
            requires
                a[4] == v_old,
                a[5] == root@,
                a[6] == anchor@,
        ;
    }
    r
}

/// The action checks are sound: whatever cells satisfy them, a spent note with a value sits under
/// the anchor, and a signed 64 bit magnitude is the difference of the two values.
pub proof fn action_checks_are_sound(rows: Seq<Seq<nat>>)
    requires
        action_holds(rows),
        forall|i: int| 0 <= i < 7 ==> (#[trigger] rows[0][i]) < crate::pallas::base_modulus(),
        rows[0][0] < 0x1_0000_0000_0000_0000,
        rows[0][1] < 0x1_0000_0000_0000_0000,
        rows[0][2] < 0x1_0000_0000_0000_0000,
        rows[0][3] == 1 || rows[0][3] == crate::pallas::base_modulus() - 1,
    ensures
        rows[0][4] == 0 || rows[0][5] == rows[0][6],
        rows[0][3] == 1 ==> rows[0][0] - rows[0][1] == rows[0][2],
        rows[0][3] != 1 ==> rows[0][0] - rows[0][1] == -rows[0][2],
{
    super::decay_chip::lemma_no_zero_divisors();
    let a = rows[0];
    let m = crate::pallas::base_modulus() as int;
    assert(a[4] < m && a[5] < m && a[6] < m);
    if super::gate::vanishes(a[4] as int) {
        super::gate::lemma_small_zero(a[4] as int);
    } else {
        assert(super::decay_chip::vanishes(a[4] as int * (a[5] - a[6])));
        super::gate::lemma_small_zero(a[5] - a[6]);
    }
    let d = a[0] - a[1];
    let g = a[2] as int;
    if a[3] == 1 {
        assert(a[2] * a[3] == g) by (nonlinear_arith)
            requires
                a[3] == 1,
                g == a[2],
        ;
        super::gate::lemma_small_zero(d - g);
    } else {
        assert(d - a[2] * a[3] == d + g + m * (-g)) by (nonlinear_arith)
            requires
                a[3] == m - 1,
                g == a[2],
        ;
        vstd::arithmetic::div_mod::lemma_mod_multiples_vanish(-g, d + g, m);
        super::gate::lemma_small_zero(d + g);
    }
}

// ----------------------------------------------------------------- native reference values

/// Root of the Sinsemilla Merkle path, as the circuit computes it.
pub fn merkle_root(leaf: Base, pos: u32, path: &[Base; 32]) -> (r: Base)
    ensures
        r@ == crate::tree::path_node(leaf@, pos as nat, crate::hash::values(path@), 32),
{
    let ghost siblings = crate::hash::values(path@);
    let mut node = leaf;
    let mut rest: u32 = pos;
    let mut l: u8 = 0;
    proof {
        vstd::arithmetic::power2::lemma2_to64();
        assert(pos as nat / pow2(0) == pos as nat);
    }
    while l < 32
        invariant
            l <= 32,
            siblings == crate::hash::values(path@),
            rest as nat == pos as nat / pow2(l as nat),
            node@ == crate::tree::path_node(leaf@, pos as nat, siblings, l as nat),
        decreases 32 - l,
    {
        let sibling = path[l as usize];
        assert(siblings[l as int] == sibling@);
        node = if rest % 2 == 0 {
            crate::tree::hash_children(l, &node, &sibling)
        } else {
            crate::tree::hash_children(l, &sibling, &node)
        };
        proof {
            vstd::arithmetic::power2::lemma_pow2_pos(l as nat);
            vstd::arithmetic::power2::lemma_pow2_unfold((l + 1) as nat);
            vstd::arithmetic::div_mod::lemma_div_denominator(
                pos as int,
                pow2(l as nat) as int,
                2,
            );
            assert(pow2(l as nat) * 2 == pow2((l + 1) as nat));
        }
        rest = rest / 2;
        l = l + 1;
    }
    node
}

/// `x` and `y` of a point, zeros for the identity.
pub fn coordinates(p: Point) -> (r: (Base, Base))
    ensures
        (r.0@, r.1@) == crate::pallas::pallas_multiple(p@),
{
    proof {
        use_type_invariant(&p);
    }
    (p.x(), p.y())
}

// --------------------------------------------------------------------------------------- laws

/// A note's commitment hashes exactly what the circuit hashes.
proof fn lemma_note_elements(note: NoteModel, kind: nat)
    requires
        note.community == note.coin_community,
        kind == note.kind.number(),
    ensures
        note.elements() == committed_elements(
            note.community,
            note.value as nat,
            note.t_note as nat,
            kind,
            note.expiry_epoch as nat,
            note.g_d,
            note.pk_d,
            note.rho,
            note.psi,
            note.memo_cm,
            note.rcm,
        ),
{
    vstd::arithmetic::power2::lemma2_to64();
    assert(note.elements() =~= committed_elements(
        note.community,
        note.value as nat,
        note.t_note as nat,
        kind,
        note.expiry_epoch as nat,
        note.g_d,
        note.pk_d,
        note.rho,
        note.psi,
        note.memo_cm,
        note.rcm,
    ));
}

/// A pair of notes as a builder makes it: the key owns the spent note, which is not younger than
/// `now`, and the created note is dated `now`, belongs to the same community and takes the
/// nullifier as its `rho`.
pub open spec fn honest_pair(
    spent: NoteModel,
    g_d: nat,
    key: ViewingKeyModel,
    created: NoteModel,
    community: nat,
    now: u64,
) -> bool {
    &&& key.consistent()
    &&& spent.in_range()
    &&& created.in_range()
    &&& spent.community == community
    &&& spent.coin_community == community
    &&& created.community == community
    &&& created.coin_community == community
    &&& spent.g_d == crate::pallas::pallas_multiple(g_d)
    &&& spent.pk_d == crate::pallas::pallas_multiple(
        crate::pallas::point_product(g_d, key.ivk),
    )
    &&& spent.t_note <= now
    &&& created.t_note == now
    &&& created.rho == spent.nf(key.nk)
}

/// The circuit accepts every honest action: the public inputs that belong to its notes and keys,
/// for a spent note in the tree or one without value.
pub proof fn honest_action_is_accepted<const WITH_DECAY: bool, const WINDOWED: bool>(
    c: ActionSliceCircuit<WITH_DECAY, WINDOWED>,
    spent: NoteModel,
    key: ViewingKeyModel,
    leaf_pos: u32,
    path: Seq<nat>,
    created: NoteModel,
    rcv: nat,
    alpha: nat,
    community: nat,
    anchor: nat,
    now: u64,
)
    requires
        c.witnesses(spent, key, leaf_pos, path, created, rcv, alpha),
        c.points_hold(),
        honest_pair(spent, c.g_d@, key, created, community, now),
        spent.value == 0 || crate::tree::path_node(spent.cm(), leaf_pos as nat, path, 32) == anchor,
    ensures
        c.accepted(
            public_inputs(
                community,
                anchor,
                spent.nf(key.nk),
                crate::signature::randomized_key(key.ak, alpha),
                created.cm(),
                crate::signature::commitment_to_value(
                    c.worth(now as nat) - created.value,
                    rcv,
                ),
                now,
            ),
        ),
{
    lemma_note_elements(spent, c.kind as nat);
    lemma_note_elements(created, c.new_kind as nat);
    assert(c.ivk() == key.ivk);
    assert(c.cm_old(community) == spent.cm());
    assert(c.cm_new(community, now as nat) == created.cm());
}

/// A dummy spend of value 0 needs no real tree position: any anchor will do.
pub proof fn dummy_spend_ignores_the_anchor<const WITH_DECAY: bool, const WINDOWED: bool>(
    c: ActionSliceCircuit<WITH_DECAY, WINDOWED>,
    instance: Seq<nat>,
    anchor: nat,
)
    requires
        instance.len() == 9,
        c.value == 0,
        c.accepted(instance),
    ensures
        c.accepted(instance.update(0, anchor)),
{
}

/// Given time and community, a witness of a real spend satisfies the circuit for one list of
/// public inputs at most: anchor, nullifier, authorisation key, commitment and value commitment
/// cannot be exchanged.
pub proof fn real_spend_has_one_instance<const WITH_DECAY: bool, const WINDOWED: bool>(
    c: ActionSliceCircuit<WITH_DECAY, WINDOWED>,
    a: Seq<nat>,
    b: Seq<nat>,
)
    requires
        a.len() == 9,
        b.len() == 9,
        c.value != 0,
        c.accepted(a),
        c.accepted(b),
        a[7] == b[7],
        a[8] == b[8],
    ensures
        a == b,
{
    assert(a =~= b);
}

/// An accepted action spends one note into another: there is a note of the community that the key
/// owns, in the tree of the anchor or without value, whose nullifier is published; and a note of
/// the same community, dated now, with that nullifier as its `rho`, whose commitment is published.
/// The authorisation key is the key of the owner rerandomised, and the value commitment is to what
/// is spent less what is created. The two notes are returned.
pub proof fn an_accepted_action_spends_a_note<const WITH_DECAY: bool, const WINDOWED: bool>(
    c: ActionSliceCircuit<WITH_DECAY, WINDOWED>,
    instance: Seq<nat>,
) -> (r: (NoteModel, NoteModel))
    requires
        instance.len() == 9,
        c.accepted(instance),
    ensures
        ({
            let (spent, created) = r;
            let ivk = crate::hash::poseidon_hash(
                seq![crate::pallas::pallas_multiple(c.ak@).0, c.nk@, c.rivk@],
            );
            let worth = if !WITH_DECAY {
                spent.value as nat
            } else if WINDOWED {
                crate::decay::decayed_windowed(
                    spent.value as nat,
                    (instance[7] - spent.t_note) as nat,
                )
            } else {
                crate::decay::decayed(spent.value as nat, (instance[7] - spent.t_note) as nat)
            };
            &&& spent.value == c.value && spent.t_note == c.t_note && spent.expiry_epoch == c.expiry
            &&& c.kind == 0 || c.kind == 1
            &&& spent.kind == (if c.kind == 0 {
                crate::note::NoteKind::Normal
            } else {
                crate::note::NoteKind::Deferred
            })
            &&& spent.value < 0x8000_0000_0000_0000 && spent.t_note < 0x100_0000_0000
                && spent.expiry_epoch < 0x1_0000
            &&& spent.community == instance[8] && spent.coin_community == instance[8]
            &&& spent.rho == c.rho@ && spent.psi == c.psi@
            &&& spent.memo_cm == c.memo_cm@ && spent.rcm == c.rcm@
            &&& c.ak@ != 0 && c.g_d@ != 0 && c.new_g_d@ != 0 && c.new_pk_d@ != 0
            &&& spent.g_d == crate::pallas::pallas_multiple(c.g_d@)
            &&& spent.pk_d == crate::pallas::pallas_multiple(
                (c.g_d@ * ivk) % crate::pallas::scalar_modulus(),
            )
            &&& WITH_DECAY ==> spent.t_note <= instance[7]
            &&& spent.value == 0 || crate::tree::path_node(
                spent.cm(),
                c.leaf_pos as nat,
                crate::hash::values(c.path@),
                32,
            ) == instance[0]
            &&& instance[1] == spent.nf(c.nk@)
            &&& (instance[2], instance[3]) == crate::pallas::pallas_multiple(
                (c.ak@ + crate::signature::spend_auth_generator() * c.alpha@)
                    % crate::pallas::scalar_modulus(),
            )
            &&& created.value == c.new_value && created.expiry_epoch == c.new_expiry
            &&& c.new_kind == 0 || c.new_kind == 1
            &&& created.kind == (if c.new_kind == 0 {
                crate::note::NoteKind::Normal
            } else {
                crate::note::NoteKind::Deferred
            })
            &&& created.value < 0x8000_0000_0000_0000 && instance[7] < 0x100_0000_0000
                && created.expiry_epoch < 0x1_0000
            &&& created.community == instance[8] && created.coin_community == instance[8]
            &&& created.t_note == instance[7] && created.rho == instance[1]
            &&& created.g_d == crate::pallas::pallas_multiple(c.new_g_d@)
            &&& created.pk_d == crate::pallas::pallas_multiple(c.new_pk_d@)
            &&& created.psi == c.new_psi@ && created.memo_cm == c.new_memo_cm@ && created.rcm
                == c.new_rcm@
            &&& instance[4] == created.cm()
            &&& (instance[5], instance[6]) == crate::pallas::pallas_multiple(
                crate::pallas::reduced(
                    crate::signature::value_generator() * (worth - created.value)
                        + crate::signature::randomness_generator() * c.rcv@,
                ),
            )
        }),
{
    let spent = NoteModel {
        community: instance[8],
        coin_community: instance[8],
        value: c.value,
        t_note: c.t_note,
        kind: if c.kind == 0 {
            crate::note::NoteKind::Normal
        } else {
            crate::note::NoteKind::Deferred
        },
        expiry_epoch: c.expiry,
        d: 0,
        g_d: crate::pallas::pallas_multiple(c.g_d@),
        pk_d: crate::pallas::pallas_multiple(c.pk_d()),
        rho: c.rho@,
        psi: c.psi@,
        memo_cm: c.memo_cm@,
        rcm: c.rcm@,
    };
    let created = NoteModel {
        community: instance[8],
        coin_community: instance[8],
        value: c.new_value,
        t_note: instance[7] as u64,
        kind: if c.new_kind == 0 {
            crate::note::NoteKind::Normal
        } else {
            crate::note::NoteKind::Deferred
        },
        expiry_epoch: c.new_expiry,
        d: 0,
        g_d: crate::pallas::pallas_multiple(c.new_g_d@),
        pk_d: crate::pallas::pallas_multiple(c.new_pk_d@),
        rho: instance[1],
        psi: c.new_psi@,
        memo_cm: c.new_memo_cm@,
        rcm: c.new_rcm@,
    };
    lemma_note_elements(spent, c.kind as nat);
    lemma_note_elements(created, c.new_kind as nat);
    crate::pallas::lemma_reduced(
        c.ak@ as int,
        (crate::signature::spend_auth_generator() * c.alpha@) as int,
    );
    crate::signature::a_commitment_is_the_sum_of_two_multiples(
        c.worth(instance[7]) - c.new_value,
        c.rcv@,
    );
    (spent, created)
}

/// The public inputs of an action are the anchor, the nullifier, the coordinates of the
/// authorisation key, the commitment, the coordinates of the value commitment, the time and the
/// community.
pub proof fn public_inputs_have_their_places(
    community: nat,
    anchor: nat,
    nullifier: nat,
    rk: nat,
    cm_new: nat,
    cv_net: nat,
    now: u64,
)
    ensures
        ({
            let p = public_inputs(community, anchor, nullifier, rk, cm_new, cv_net, now);
            &&& p.len() == 9
            &&& p[0] == anchor && p[1] == nullifier
            &&& (p[2], p[3]) == crate::pallas::pallas_multiple(rk)
            &&& p[4] == cm_new
            &&& (p[5], p[6]) == crate::pallas::pallas_multiple(cv_net)
            &&& p[7] == now && p[8] == community
        }),
{
}

} // verus!
