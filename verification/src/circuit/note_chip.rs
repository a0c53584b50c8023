//! Note commitment, nullifier and incoming viewing key as the circuit computes them, over the note
//! of `crate::note`.
//!
//! Everything the commitment binds is passed in as an already assigned cell, so the value the
//! decay gadget works with and the value inside the commitment are literally the same cell.
//! That is the whole reason for hashing field elements with Poseidon instead of bits with
//! Sinsemilla: no decomposition, no canonicity chip, nothing that can drift apart.
//!
//! Exact widths matter for two reasons: the parts that sit *below* another part in a packed
//! element (`value` under `t_note`, `kind` under `expiry`) must have their exact width, or two
//! different notes could pack to the same element; and `value` must be the 63 bits of a
//! non-negative int64, because the decay and the value commitment rely on that bound.
use vstd::arithmetic::power2::pow2;
use vstd::prelude::*;

use super::gate::{constant, cur, difference, next, product, Expr, Gate};
use super::range::check_bits;
use crate::note::{EXPIRY_BITS, NOTE_KIND_BITS, TIMESTAMP_BITS, VALUE_BITS};
use crate::pallas::Base;

verus! {

broadcast use vstd::array::group_array_axioms;

/// The cells a note is built from. All of them are bound by the commitment.
#[derive(Clone, Copy, Debug)]
pub struct NoteCells {
    pub community: Base,
    pub coin_community: Base,
    /// nominal value, exactly 63 bits
    pub value: Base,
    /// timestamp the value refers to
    pub t_note: Base,
    pub kind: Base,
    pub expiry_epoch: Base,
    /// `g_d` of the address; committed so that `pk_d = [ivk] g_d` cannot be met with a made-up base
    pub g_d_x: Base,
    pub g_d_y: Base,
    pub pk_d_x: Base,
    pub pk_d_y: Base,
    pub rho: Base,
    pub psi: Base,
    pub memo_cm: Base,
    pub rcm: Base,
}

/// Value, time, kind and expiry fit their widths.
pub open spec fn widths(value: nat, t_note: nat, kind: nat, expiry: nat) -> bool {
    &&& value < pow2(63)
    &&& t_note < pow2(40)
    &&& kind < pow2(1)
    &&& expiry < pow2(16)
}

/// `amount = value + t_note * 2^63` and `meta = kind + expiry * 2^1`.
/// Columns: `value, t_note, amount, kind, expiry`, and `meta` below `amount`.
pub open spec fn pack_holds(rows: Seq<Seq<nat>>) -> bool {
    let a = rows[0];
    &&& super::gate::vanishes(a[2] - a[0] - a[1] * 0x8000_0000_0000_0000nat)
    &&& super::gate::vanishes(rows[1][2] - a[3] - a[4] * 2nat)
}

/// Rows of five cells.
pub open spec fn five_wide(rows: Seq<Seq<nat>>, n: nat) -> bool {
    &&& rows.len() == n
    &&& forall|i: int| 0 <= i < rows.len() ==> (#[trigger] rows[i]).len() == 5
}

/// Packs the parts of a note, value, t_note, amount, kind, expiry, meta.
pub fn pack_gate() -> (r: Gate)
    ensures
        forall|rows: Seq<Seq<nat>>, fixed: Seq<nat>| #[trigger]
            r.holds(rows, fixed) <==> pack_holds(rows),
        forall|rows: Seq<Seq<nat>>, fixed: Seq<nat>|
            five_wide(rows, 2) ==> #[trigger] r.reads_within(rows, fixed),
{
    let a = difference(
        difference(cur(2), cur(0)),
        product(cur(1), constant(Base::from_u64(0x8000_0000_0000_0000))),
    );
    let b = difference(
        difference(next(2), cur(3)),
        product(cur(4), constant(Base::from_u64(2))),
    );
    let mut polys: Vec<Expr> = Vec::new();
    polys.push(a);
    polys.push(b);
    let r = Gate { name: "pack note fields", polys };
    proof {
        assert(r.polys@[0] == a && r.polys@[1] == b);
        assert forall|rows: Seq<Seq<nat>>, fixed: Seq<nat>| #[trigger]
            r.holds(rows, fixed) <==> pack_holds(rows) by {
            reveal_with_fuel(Expr::value, 5);
            let x = rows[0];
            assert(a.value(rows, fixed) == x[2] - x[0] - x[1] * 0x8000_0000_0000_0000nat);
            assert(b.value(rows, fixed) == rows[1][2] - x[3] - x[4] * 2nat);
        }
        assert forall|rows: Seq<Seq<nat>>, fixed: Seq<nat>| five_wide(rows, 2) implies #[trigger]
            r.reads_within(rows, fixed) by {
            reveal_with_fuel(Expr::reads_within, 5);
            assert(rows[0].len() == 5 && rows[1].len() == 5);
        }
    }
    r
}

impl NoteCells {
    /// The elements that the commitment hashes.
    pub open spec fn elements(self) -> Seq<nat> {
        seq![
            self.community@,
            self.coin_community@,
            (self.value@ + self.t_note@ * 0x8000_0000_0000_0000nat)
                % crate::pallas::base_modulus(),
            (self.kind@ + self.expiry_epoch@ * 2) % crate::pallas::base_modulus(),
            self.g_d_x@,
            self.g_d_y@,
            self.pk_d_x@,
            self.pk_d_y@,
            self.rho@,
            self.psi@,
            self.memo_cm@,
            self.rcm@,
        ]
    }

    /// The two rows of the packing gate.
    pub fn pack_rows(&self) -> (r: Vec<Vec<Base>>)
        ensures
            super::gate::cells(r@) == seq![
                seq![
                    self.value@,
                    self.t_note@,
                    self.elements()[2],
                    self.kind@,
                    self.expiry_epoch@,
                ],
                seq![0, 0, self.elements()[3], 0, 0],
            ],
            pack_holds(super::gate::cells(r@)),
    {
        let two63 = Base::from_u64(0x8000_0000_0000_0000);
        let amount = self.value.plus(&self.t_note.times(&two63));
        let meta = self.kind.plus(&self.expiry_epoch.times(&Base::from_u64(2)));
        proof {
            let m = crate::pallas::base_modulus() as int;
            let x = (self.t_note@ * 0x8000_0000_0000_0000nat) as int;
            let y = (self.expiry_epoch@ * 2) as int;
            vstd::arithmetic::div_mod::lemma_add_mod_noop_right(self.value@ as int, x, m);
            vstd::arithmetic::div_mod::lemma_add_mod_noop_right(self.kind@ as int, y, m);
            lemma_packed_vanishes(self.value@, x as nat);
            lemma_packed_vanishes(self.kind@, y as nat);
        }
        let mut first: Vec<Base> = Vec::new();
        first.push(self.value);
        first.push(self.t_note);
        first.push(amount);
        first.push(self.kind);
        first.push(self.expiry_epoch);
        let mut second: Vec<Base> = Vec::new();
        second.push(Base::zero());
        second.push(Base::zero());
        second.push(meta);
        second.push(Base::zero());
        second.push(Base::zero());
        let mut r: Vec<Vec<Base>> = Vec::new();
        r.push(first);
        r.push(second);
        proof {
            let c = super::gate::cells(r@);
            assert(c[0] =~= seq![
                self.value@,
                self.t_note@,
                self.elements()[2],
                self.kind@,
                self.expiry_epoch@,
            ]);
            assert(c[1] =~= seq![0, 0, self.elements()[3], 0, 0]);
            assert(c =~= seq![
                seq![
                    self.value@,
                    self.t_note@,
                    self.elements()[2],
                    self.kind@,
                    self.expiry_epoch@,
                ],
                seq![0, 0, self.elements()[3], 0, 0],
            ]);
        }
        r
    }

    /// Range checks and packs the parts, then returns `cm = Poseidon(...)`; `None` if a part does
    /// not have its width.
    pub fn commit(&self) -> (r: Option<Base>)
        ensures
            r is Some <==> widths(
                self.value@,
                self.t_note@,
                self.kind@,
                self.expiry_epoch@,
            ),
            r matches Some(cm) ==> cm@ == crate::hash::poseidon_hash(self.elements()),
    {
        if !check_bits(&self.value, VALUE_BITS) || !check_bits(&self.t_note, TIMESTAMP_BITS)
            || !check_bits(&self.kind, NOTE_KIND_BITS) || !check_bits(
            &self.expiry_epoch,
            EXPIRY_BITS,
        ) {
            return None;
        }
        let rows = self.pack_rows();
        let ghost c = super::gate::cells(rows@);
        proof {
            assert(c.len() == rows@.len());
            assert(c[0].len() == 5 && c[1].len() == 5);
            assert(c[0] == crate::hash::values(rows@[0]@));
            assert(c[1] == crate::hash::values(rows@[1]@));
        }
        let elements: [Base; 12] = [
            self.community,
            self.coin_community,
            rows[0][2],
            rows[1][2],
            self.g_d_x,
            self.g_d_y,
            self.pk_d_x,
            self.pk_d_y,
            self.rho,
            self.psi,
            self.memo_cm,
            self.rcm,
        ];
        assert(crate::hash::values(elements@) =~= self.elements());
        Some(crate::note::commit(elements))
    }
}

proof fn lemma_packed_vanishes(a: nat, b: nat)
    ensures
        super::gate::vanishes((a + b) % crate::pallas::base_modulus() - a - b),
{
    let m = crate::pallas::base_modulus() as int;
    let s = (a + b) as int;
    vstd::arithmetic::div_mod::lemma_fundamental_div_mod(s, m);
    let q = s / m;
    assert(s % m - s == m * (-q)) by (nonlinear_arith)
        requires
            s == m * q + s % m,
    ;
    vstd::arithmetic::div_mod::lemma_mod_multiples_basic(-q, m);
    assert(m * (-q) == (-q) * m) by (nonlinear_arith);
}

/// `nf = Poseidon(nk, rho, cm)`
pub fn nullifier(nk: &Base, rho: &Base, cm: &Base) -> (r: Base)
    ensures
        r@ == crate::hash::poseidon_hash(seq![nk@, rho@, cm@]),
{
    hash3([*nk, *rho, *cm])
}

/// `ivk = Poseidon(ak_x, nk, rivk)`, see `crate::keys::commit_ivk`. Ties the key that
/// opens the address to the `nk` of the nullifier and the `ak` of the spend authorisation.
pub fn commit_ivk(ak_x: &Base, nk: &Base, rivk: &Base) -> (r: Base)
    ensures
        r@ == crate::hash::poseidon_hash(seq![ak_x@, nk@, rivk@]),
{
    hash3([*ak_x, *nk, *rivk])
}

fn hash3(message: [Base; 3]) -> (r: Base)
    ensures
        r@ == crate::hash::poseidon_hash(seq![message@[0]@, message@[1]@, message@[2]@]),
{
    assert(crate::hash::values(message@) =~= seq![message@[0]@, message@[1]@, message@[2]@]);
    crate::hash::poseidon(message)
}

/// The packing is sound: whatever cells satisfy polynomials and range checks, the packed elements
/// are the ones of the note, as integers.
pub proof fn satisfied_packing_is_exact(rows: Seq<Seq<nat>>)
    requires
        five_wide(rows, 2),
        pack_holds(rows),
        widths(rows[0][0], rows[0][1], rows[0][3], rows[0][4]),
        rows[0][2] < crate::pallas::base_modulus(),
        rows[1][2] < crate::pallas::base_modulus(),
    ensures
        rows[0][2] == rows[0][0] + rows[0][1] * 0x8000_0000_0000_0000nat,
        rows[1][2] == rows[0][3] + rows[0][4] * 2,
{
    let a = rows[0];
    vstd::arithmetic::power2::lemma2_to64();
    vstd::arithmetic::power2::lemma2_to64_rest();
    super::gate::lemma_small_zero(a[2] - a[0] - a[1] * 0x8000_0000_0000_0000nat);
    super::gate::lemma_small_zero(rows[1][2] - a[3] - a[4] * 2nat);
}

} // verus!
