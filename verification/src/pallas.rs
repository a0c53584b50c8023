//! The Pallas curve: its two fields and its group.
//!
//! A field element is held as the integer it stands for, a point as its affine coordinates.
//! The arithmetic itself is done by `pasta_curves`. In contracts a field element is its integer
//! and a point is its discrete logarithm: the points are the multiples `[0] G`, `[1] G`, ...,
//! `[q - 1] G` of the generator `G`, so the group operations are additions and multiplications
//! modulo the group order `q`.
use ff::{FromUniformBytes, PrimeField};
use group::prime::PrimeCurveAffine;
use group::GroupEncoding;
use pasta_curves::arithmetic::{Coordinates, CurveAffine, CurveExt};
use vstd::prelude::*;

use crate::bytes::{push_le, push_low_bits, read_le, take};

verus! {

broadcast use vstd::array::group_array_axioms;

/// The order of the base field.
pub open spec fn base_modulus() -> nat {
    0x40000000000000000000000000000000224698fc094cf91b992d30ed00000001nat
}

/// The order of the scalar field, which is the number of points of the curve.
pub open spec fn scalar_modulus() -> nat {
    0x40000000000000000000000000000000224698fc0994a8dd8c46eb2100000001nat
}

const MODULUS_HI: u128 = 0x40000000000000000000000000000000;

const BASE_MODULUS_LO: u128 = 0x224698fc094cf91b992d30ed00000001;

const SCALAR_MODULUS_LO: u128 = 0x224698fc0994a8dd8c46eb2100000001;

/// The top bit of the upper half.
const TOP_BIT: u128 = 0x80000000000000000000000000000000;

/// The integer with the given halves.
pub open spec fn wide(lo: u128, hi: u128) -> nat {
    (lo + 0x1_0000_0000_0000_0000_0000_0000_0000_0000 * hi) as nat
}

proof fn lemma_wide_bytes(lo: u128, hi: u128)
    ensures
        crate::bytes::le_bytes(wide(lo, hi), 32) == crate::bytes::le_bytes(lo as nat, 16)
            + crate::bytes::le_bytes(hi as nat, 16),
{
    let a = crate::bytes::le_bytes(lo as nat, 16);
    let b = crate::bytes::le_bytes(hi as nat, 16);
    crate::bytes::lemma_pow256_values();
    crate::bytes::lemma_le_nat_of_le_bytes(lo as nat, 16);
    crate::bytes::lemma_le_nat_of_le_bytes(hi as nat, 16);
    crate::bytes::lemma_le_nat_append(a, b);
    crate::bytes::lemma_le_bytes_of_le_nat(a + b);
}

proof fn lemma_wide_read(s: Seq<u8>, lo: u128, hi: u128)
    requires
        s.len() == 32,
        lo as nat == crate::bytes::le_nat(s.subrange(0, 16)),
        hi as nat == crate::bytes::le_nat(s.subrange(16, 32)),
    ensures
        crate::bytes::le_nat(s) == wide(lo, hi),
{
    crate::bytes::lemma_pow256_values();
    crate::bytes::lemma_le_nat_append(s.subrange(0, 16), s.subrange(16, 32));
    assert(s.subrange(0, 16) + s.subrange(16, 32) =~= s);
}

/// The bytes of the integer with the given halves.
fn wide_to_bytes(lo: u128, hi: u128) -> (r: [u8; 32])
    ensures
        r@ == crate::bytes::le_bytes(wide(lo, hi), 32),
{
    let mut out: Vec<u8> = Vec::new();
    push_le(&mut out, lo, 16);
    push_le(&mut out, hi, 16);
    proof {
        lemma_wide_bytes(lo, hi);
        crate::bytes::lemma_le_bytes_len(lo as nat, 16);
        crate::bytes::lemma_le_bytes_len(hi as nat, 16);
        assert(out@ =~= crate::bytes::le_bytes(wide(lo, hi), 32));
        assert(out@.subrange(0, 32) =~= out@);
    }
    take::<32>(out.as_slice(), 0)
}

// ------------------------------------------------------------------------------ base field

/// `pasta_curves`' reduction of a 512 bit little endian integer modulo the field order.
#[verifier::external_body]
fn fp_from_uniform_bytes(bytes: &[u8; 64]) -> (r: Base)
    ensures
        r@ == crate::bytes::le_nat(bytes@) % base_modulus(),
{
    Base::from_repr(&pasta_curves::Fp::from_uniform_bytes(bytes).to_repr()).unwrap()
}

/// `pasta_curves`' field addition: the sum of the two integers modulo the field order.
#[verifier::external_body]
fn fp_add(this: &Base, other: &Base) -> (r: Base)
    ensures
        r@ == (this@ + other@) % base_modulus(),
{
    let a = pasta_curves::Fp::from_repr(this.to_repr()).unwrap();
    let b = pasta_curves::Fp::from_repr(other.to_repr()).unwrap();
    Base::from_repr(&(a + b).to_repr()).unwrap()
}

/// `pasta_curves`' field multiplication: the product of the two integers modulo the field
/// order.
#[verifier::external_body]
fn fp_mul(this: &Base, other: &Base) -> (r: Base)
    ensures
        r@ == (this@ * other@) % base_modulus(),
{
    let a = pasta_curves::Fp::from_repr(this.to_repr()).unwrap();
    let b = pasta_curves::Fp::from_repr(other.to_repr()).unwrap();
    Base::from_repr(&(a * b).to_repr()).unwrap()
}

/// An element of the base field.
#[derive(Clone, Copy, Debug, PartialEq, Eq, PartialOrd, Ord, Hash, Structural)]
pub struct Base {
    hi: u128,
    lo: u128,
}

impl View for Base {
    type V = nat;

    closed spec fn view(&self) -> nat {
        wide(self.lo, self.hi)
    }
}

impl Base {
    /// Every element is held by its canonical integer.
    #[verifier::type_invariant]
    pub open spec fn canonical(&self) -> bool {
        self@ < base_modulus()
    }

    pub fn zero() -> (r: Base)
        ensures
            r@ == 0,
    {
        Base { lo: 0, hi: 0 }
    }

    pub fn one() -> (r: Base)
        ensures
            r@ == 1,
    {
        Base { lo: 1, hi: 0 }
    }

    pub fn from_u64(value: u64) -> (r: Base)
        ensures
            r@ == value,
    {
        Base { lo: value as u128, hi: 0 }
    }

    pub fn from_u128(value: u128) -> (r: Base)
        ensures
            r@ == value,
    {
        Base { lo: value, hi: 0 }
    }

    /// The element with the given halves; `None` if they are not canonical.
    pub fn from_halves(lo: u128, hi: u128) -> (r: Option<Base>)
        ensures
            r is Some <==> wide(lo, hi) < base_modulus(),
            r matches Some(e) ==> e@ == wide(lo, hi),
    {
        if hi < MODULUS_HI || (hi == MODULUS_HI && lo < BASE_MODULUS_LO) {
            Some(Base { lo, hi })
        } else {
            None
        }
    }

    pub fn is_zero(&self) -> (r: bool)
        ensures
            r == (self@ == 0),
    {
        self.lo == 0 && self.hi == 0
    }

    /// The integer as 32 little endian bytes.
    pub fn to_repr(&self) -> (r: [u8; 32])
        ensures
            r@ == crate::bytes::le_bytes(self@, 32),
    {
        wide_to_bytes(self.lo, self.hi)
    }

    /// The element with the given little endian bytes; `None` if they are not canonical.
    pub fn from_repr(repr: &[u8; 32]) -> (r: Option<Base>)
        ensures
            r is Some <==> crate::bytes::le_nat(repr@) < base_modulus(),
            r matches Some(e) ==> e@ == crate::bytes::le_nat(repr@),
    {
        let lo: u128 = read_le(repr.as_slice(), 0, 16);
        let hi: u128 = read_le(repr.as_slice(), 16, 16);
        proof {
            lemma_wide_read(repr@, lo, hi);
        }
        Base::from_halves(lo, hi)
    }

    /// The additive inverse.
    pub fn negate(&self) -> (r: Base)
        ensures
            r@ == (base_modulus() - self@) % (base_modulus() as int),
    {
        proof {
            use_type_invariant(self);
        }
        if self.is_zero() {
            return *self;
        }
        proof {
            vstd::arithmetic::div_mod::lemma_small_mod(
                (base_modulus() - self@) as nat,
                base_modulus(),
            );
        }
        if self.lo <= BASE_MODULUS_LO {
            Base { lo: BASE_MODULUS_LO - self.lo, hi: MODULUS_HI - self.hi }
        } else {
            let lo: u128 = (u128::MAX - self.lo) + BASE_MODULUS_LO + 1;
            Base { lo, hi: MODULUS_HI - 1 - self.hi }
        }
    }

    /// The difference of two elements.
    pub fn minus(&self, other: &Base) -> (r: Base)
        ensures
            r@ == (self@ - other@) % (base_modulus() as int),
    {
        let r = self.plus(&other.negate());
        proof {
            let m = base_modulus() as int;
            vstd::arithmetic::div_mod::lemma_add_mod_noop_right(self@ as int, m - other@, m);
            vstd::arithmetic::div_mod::lemma_mod_add_multiples_vanish(self@ - other@, m);
        }
        r
    }

    /// Whether two elements are the same.
    pub fn same(&self, other: &Base) -> (r: bool)
        ensures
            r == (self@ == other@),
    {
        proof {
            if self@ == other@ {
                lemma_base_determined(*self, *other);
            }
        }
        *self == *other
    }

    /// A 512 bit little endian integer, reduced.
    pub fn from_uniform_bytes(bytes: &[u8; 64]) -> (r: Base)
        ensures
            r@ == crate::bytes::le_nat(bytes@) % base_modulus(),
    {
        fp_from_uniform_bytes(bytes)
    }

    pub fn plus(&self, other: &Base) -> (r: Base)
        ensures
            r@ == (self@ + other@) % base_modulus(),
    {
        fp_add(self, other)
    }

    pub fn times(&self, other: &Base) -> (r: Base)
        ensures
            r@ == (self@ * other@) % base_modulus(),
    {
        fp_mul(self, other)
    }

    pub fn double(&self) -> (r: Base)
        ensures
            r@ == (2 * self@) % base_modulus(),
    {
        self.plus(self)
    }

    /// Appends the 255 bits of the integer, the least significant first.
    pub fn push_bits(&self, out: &mut Vec<bool>)
        ensures
            final(out)@ == old(out)@ + crate::bytes::low_bits(self@, 255),
    {
        let ghost before = out@;
        push_low_bits(out, self.lo, 128);
        push_low_bits(out, self.hi, 127);
        proof {
            vstd::arithmetic::power2::lemma_pow2_adds(64, 64);
            vstd::arithmetic::power2::lemma2_to64();
            vstd::arithmetic::power2::lemma2_to64_rest();
            crate::bytes::lemma_low_bits_split(self.lo as nat, self.hi as nat, 128, 127);
            assert(out@ =~= before + crate::bytes::low_bits(self@, 255));
        }
    }

    /// The lower half of the integer.
    pub fn low_half(&self) -> (r: u128)
        ensures
            r as nat == self@ % 0x1_0000_0000_0000_0000_0000_0000_0000_0000nat,
    {
        self.lo
    }

    /// The lower 64 bits of the integer.
    pub fn low_u64(&self) -> (r: u64)
        ensures
            r as nat == self@ % 0x1_0000_0000_0000_0000,
    {
        (self.lo % 0x1_0000_0000_0000_0000) as u64
    }

    /// The element with the same integer in the scalar field, which is the larger one.
    pub fn to_scalar(&self) -> (r: Scalar)
        ensures
            r@ == self@,
    {
        proof {
            use_type_invariant(self);
        }
        Scalar { lo: self.lo, hi: self.hi }
    }
}

impl From<u64> for Base {
    fn from(value: u64) -> (r: Base) {
        Base::from_u64(value)
    }
}

impl vstd::std_specs::convert::FromSpecImpl<u64> for Base {
    open spec fn obeys_from_spec() -> bool {
        true
    }

    closed spec fn from_spec(value: u64) -> Base {
        Base { lo: value as u128, hi: 0 }
    }
}

/// An integer converts to the element with that integer.
pub proof fn an_integer_converts_to_its_element(value: u64)
    ensures
        <Base as vstd::std_specs::convert::FromSpec<u64>>::from_spec(value)@ == value,
{
}

/// An element is determined by its integer.
pub proof fn lemma_base_determined(a: Base, b: Base)
    requires
        a@ == b@,
    ensures
        a == b,
{
}

/// A field element fits its 32 bytes.
pub proof fn lemma_base_fits(b: Base)
    ensures
        b@ < crate::bytes::pow256(32),
{
    crate::bytes::lemma_pow256_values();
}

// ---------------------------------------------------------------------------- scalar field

/// `pasta_curves`' reduction of a 512 bit little endian integer modulo the group order.
#[verifier::external_body]
fn fq_from_uniform_bytes(bytes: &[u8; 64]) -> (r: Scalar)
    ensures
        r@ == crate::bytes::le_nat(bytes@) % scalar_modulus(),
{
    Scalar::from_repr(&pasta_curves::Fq::from_uniform_bytes(bytes).to_repr()).unwrap()
}

/// `pasta_curves`' addition of scalars: the sum modulo the group order.
#[verifier::external_body]
fn fq_add(this: &Scalar, other: &Scalar) -> (r: Scalar)
    ensures
        r@ == (this@ + other@) % scalar_modulus(),
{
    let a = pasta_curves::Fq::from_repr(this.to_repr()).unwrap();
    let b = pasta_curves::Fq::from_repr(other.to_repr()).unwrap();
    Scalar::from_repr(&(a + b).to_repr()).unwrap()
}

/// `pasta_curves`' negation of a scalar: the additive inverse modulo the group order.
#[verifier::external_body]
fn fq_neg(this: &Scalar) -> (r: Scalar)
    ensures
        r@ == (scalar_modulus() - this@) as nat % scalar_modulus(),
{
    let a = pasta_curves::Fq::from_repr(this.to_repr()).unwrap();
    Scalar::from_repr(&(-a).to_repr()).unwrap()
}

/// An element of the scalar field.
#[derive(Clone, Copy, Debug, PartialEq, Eq, PartialOrd, Ord, Hash, Structural)]
pub struct Scalar {
    hi: u128,
    lo: u128,
}

impl View for Scalar {
    type V = nat;

    closed spec fn view(&self) -> nat {
        wide(self.lo, self.hi)
    }
}

impl Scalar {
    /// Every element is held by its canonical integer.
    #[verifier::type_invariant]
    pub open spec fn canonical(&self) -> bool {
        self@ < scalar_modulus()
    }

    pub fn zero() -> (r: Scalar)
        ensures
            r@ == 0,
    {
        Scalar { lo: 0, hi: 0 }
    }

    pub fn from_u64(value: u64) -> (r: Scalar)
        ensures
            r@ == value,
    {
        Scalar { lo: value as u128, hi: 0 }
    }

    pub fn from_u128(value: u128) -> (r: Scalar)
        ensures
            r@ == value,
    {
        Scalar { lo: value, hi: 0 }
    }

    pub fn is_zero(&self) -> (r: bool)
        ensures
            r == (self@ == 0),
    {
        self.lo == 0 && self.hi == 0
    }

    /// The integer as 32 little endian bytes.
    pub fn to_repr(&self) -> (r: [u8; 32])
        ensures
            r@ == crate::bytes::le_bytes(self@, 32),
    {
        wide_to_bytes(self.lo, self.hi)
    }

    /// The element with the given little endian bytes; `None` if they are not canonical.
    pub fn from_repr(repr: &[u8; 32]) -> (r: Option<Scalar>)
        ensures
            r is Some <==> crate::bytes::le_nat(repr@) < scalar_modulus(),
            r matches Some(e) ==> e@ == crate::bytes::le_nat(repr@),
    {
        let lo: u128 = read_le(repr.as_slice(), 0, 16);
        let hi: u128 = read_le(repr.as_slice(), 16, 16);
        proof {
            lemma_wide_read(repr@, lo, hi);
        }
        if hi < MODULUS_HI || (hi == MODULUS_HI && lo < SCALAR_MODULUS_LO) {
            Some(Scalar { lo, hi })
        } else {
            None
        }
    }

    /// A 512 bit little endian integer, reduced.
    pub fn from_uniform_bytes(bytes: &[u8; 64]) -> (r: Scalar)
        ensures
            r@ == crate::bytes::le_nat(bytes@) % scalar_modulus(),
    {
        fq_from_uniform_bytes(bytes)
    }

    pub fn plus(&self, other: &Scalar) -> (r: Scalar)
        ensures
            r@ == (self@ + other@) % scalar_modulus(),
    {
        fq_add(self, other)
    }

    pub fn negate(&self) -> (r: Scalar)
        ensures
            r@ == (scalar_modulus() - self@) as nat % scalar_modulus(),
    {
        fq_neg(self)
    }
}

/// An element is determined by its integer.
pub proof fn lemma_scalar_determined(a: Scalar, b: Scalar)
    requires
        a@ == b@,
    ensures
        a == b,
{
}

// ----------------------------------------------------------------------------------- group

/// Affine coordinates of `[k] G` for the generator `G`, `(0, 0)` for the identity: what
/// `pasta_curves`' scalar multiplication of the generator gives.
pub uninterp spec fn pallas_multiple(k: nat) -> (nat, nat);

/// What `pasta_curves`' `hash_to_curve` gives for a domain prefix and a message, in affine
/// coordinates.
pub uninterp spec fn hash_to_curve(domain_prefix: Seq<char>, message: Seq<u8>) -> (nat, nat);

/// Whether the coordinates are those of a point: `y^2 = x^3 + 5`, or the identity.
pub open spec fn on_curve(p: (nat, nat)) -> bool {
    &&& p.0 < base_modulus()
    &&& p.1 < base_modulus()
    &&& p == (0nat, 0nat) || (p.1 * p.1) % base_modulus() == (p.0 * p.0 * p.0 + 5)
        % base_modulus()
}

/// The multiple of the generator that has the given coordinates.
pub open spec fn discrete_log(p: (nat, nat)) -> nat {
    choose|k: nat| k < scalar_modulus() && #[trigger] pallas_multiple(k) == p
}

/// The compressed encoding of a point: the x coordinate, little endian, with the lowest bit of
/// the y coordinate as the top bit.
pub open spec fn coordinate_bytes(p: (nat, nat)) -> Seq<u8> {
    crate::bytes::le_bytes(
        p.0 + 0x8000000000000000000000000000000000000000000000000000000000000000nat * (p.1 % 2),
        32,
    )
}

/// Whether the bytes are the encoding of a point on the curve.
pub open spec fn encodes_a_point(bytes: Seq<u8>) -> bool {
    exists|p: (nat, nat)| on_curve(p) && #[trigger] coordinate_bytes(p) == bytes
}

/// The encoding of `[k] G`.
pub open spec fn encode_point(k: nat) -> Seq<u8> {
    coordinate_bytes(pallas_multiple(k))
}

/// The point with the given encoding, by its discrete logarithm.
pub open spec fn decode_point(bytes: Seq<u8>) -> Option<nat> {
    if exists|k: nat| k < scalar_modulus() && #[trigger] encode_point(k) == bytes {
        Some(choose|k: nat| k < scalar_modulus() && #[trigger] encode_point(k) == bytes)
    } else {
        None
    }
}

pub open spec fn point_sum(a: nat, b: nat) -> nat {
    (a + b) % scalar_modulus()
}

pub open spec fn point_product(p: nat, k: nat) -> nat {
    (p * k) % scalar_modulus()
}

/// Multiples of `[k] G` vanish only for multiples of the group order, which is a prime.
pub open spec fn has_full_order(k: nat) -> bool {
    forall|d: nat| #[trigger] point_product(k, d) == 0 ==> d % scalar_modulus() == 0
}

/// `pasta_curves`' generator of the group.
#[verifier::external_body]
fn ep_generator() -> (r: Point)
    ensures
        r@ == 1,
        r.coordinates() == pallas_multiple(1),
{
    Point::from_bytes(&pasta_curves::EpAffine::generator().to_bytes()).unwrap()
}

/// `pasta_curves`' hash to the curve. It takes domain prefixes of any characters up to a
/// length of about two hundred bytes.
#[verifier::external_body]
fn ep_hash_to_curve(domain_prefix: &str, message: &[u8]) -> (r: Point)
    requires
        domain_prefix@.len() <= 32,
    ensures
        r.coordinates() == hash_to_curve(domain_prefix@, message@),
{
    Point::from_bytes(&pasta_curves::Ep::hash_to_curve(domain_prefix)(message).to_bytes()).unwrap()
}

/// `pasta_curves`' addition of points.
#[verifier::external_body]
fn ep_add(this: &Point, other: &Point) -> (r: Point)
    ensures
        r@ == point_sum(this@, other@),
{
    let a = pasta_curves::Ep::from_bytes(&this.to_bytes()).unwrap();
    let b = pasta_curves::Ep::from_bytes(&other.to_bytes()).unwrap();
    Point::from_bytes(&(a + b).to_bytes()).unwrap()
}

/// `pasta_curves`' negation of a point.
#[verifier::external_body]
fn ep_neg(this: &Point) -> (r: Point)
    ensures
        r@ == (scalar_modulus() - this@) as nat % scalar_modulus(),
{
    let a = pasta_curves::Ep::from_bytes(&this.to_bytes()).unwrap();
    Point::from_bytes(&(-a).to_bytes()).unwrap()
}

/// `pasta_curves`' scalar multiplication.
#[verifier::external_body]
fn ep_mul(this: &Point, k: &Scalar) -> (r: Point)
    ensures
        r@ == point_product(this@, k@),
{
    let a = pasta_curves::Ep::from_bytes(&this.to_bytes()).unwrap();
    let k = pasta_curves::Fq::from_repr(k.to_repr()).unwrap();
    Point::from_bytes(&(a * k).to_bytes()).unwrap()
}

/// `pasta_curves`' decoding of a compressed point: `None` unless the bytes are the canonical
/// encoding of a point on the curve, of which there is at most one.
#[verifier::external_body]
fn ep_from_bytes(bytes: &[u8; 32]) -> (r: Option<Point>)
    ensures
        r is Some <==> encodes_a_point(bytes@),
        r matches Some(p) ==> coordinate_bytes(p.coordinates()) == bytes@,
        r matches Some(p) ==> decode_point(bytes@) == Some(p@),
        r is None ==> decode_point(bytes@) is None,
{
    let point = Option::<pasta_curves::EpAffine>::from(pasta_curves::EpAffine::from_bytes(bytes))?;
    let c = Option::<Coordinates<_>>::from(point.coordinates());
    let x = c.map_or(Base::zero(), |c| Base::from_repr(&c.x().to_repr()).unwrap());
    let y = c.map_or(Base::zero(), |c| Base::from_repr(&c.y().to_repr()).unwrap());
    Some(Point { x, y })
}

/// `pasta_curves`' check that coordinates are those of a point; `(0, 0)` is the identity.
#[verifier::external_body]
fn ep_from_xy(x: &Base, y: &Base) -> (r: Option<Point>)
    ensures
        r is Some <==> on_curve((x@, y@)),
        r matches Some(p) ==> p.coordinates() == (x@, y@),
{
    let a = pasta_curves::Fp::from_repr(x.to_repr()).unwrap();
    let b = pasta_curves::Fp::from_repr(y.to_repr()).unwrap();
    Option::<pasta_curves::EpAffine>::from(pasta_curves::EpAffine::from_xy(a, b))?;
    Some(Point { x: *x, y: *y })
}

/// A point of the curve.
#[derive(Clone, Copy, Debug, PartialEq, Eq, Structural)]
pub struct Point {
    x: Base,
    y: Base,
}

impl View for Point {
    type V = nat;

    open spec fn view(&self) -> nat {
        discrete_log(self.coordinates())
    }
}

impl Point {
    pub closed spec fn coordinates(&self) -> (nat, nat) {
        (self.x@, self.y@)
    }

    /// The coordinates are on the curve and are those of exactly one multiple of the generator,
    /// and the encoding of the point gives the point back. Only the identity is zero, and every
    /// other point generates the group.
    ///
    /// Of the points that `pasta_curves` hands out this is taken for granted: the wrappers above
    /// return valid points, because Pallas is a cyclic group of prime order.
    #[verifier::type_invariant]
    pub open spec fn valid(&self) -> bool {
        &&& on_curve(self.coordinates())
        &&& self@ < scalar_modulus()
        &&& self.coordinates() == pallas_multiple(self@)
        &&& decode_point(encode_point(self@)) == Some(self@)
        &&& (self@ == 0 <==> self.coordinates() == (0nat, 0nat))
        &&& (self@ != 0 ==> has_full_order(self@))
    }

    /// The identity of the group.
    pub fn identity() -> (r: Point)
        ensures
            r@ == 0,
            r.coordinates() == (0nat, 0nat),
    {
        match Point::from_xy(&Base::zero(), &Base::zero()) {
            Some(p) => {
                proof {
                    use_type_invariant(&p);
                }
                p
            },
            None => {
                assert(false);
                Point::generator()
            },
        }
    }

    /// The generator of the group.
    pub fn generator() -> (r: Point)
        ensures
            r@ == 1,
            r.coordinates() == pallas_multiple(1),
    {
        ep_generator()
    }

    /// A point hashed from a domain prefix and a message.
    pub fn hash_to_curve(domain_prefix: &str, message: &[u8]) -> (r: Point)
        requires
            domain_prefix@.len() <= 32,
        ensures
            r.coordinates() == hash_to_curve(domain_prefix@, message@),
    {
        ep_hash_to_curve(domain_prefix, message)
    }

    pub fn plus(&self, other: &Point) -> (r: Point)
        ensures
            r@ == point_sum(self@, other@),
    {
        ep_add(self, other)
    }

    pub fn negate(&self) -> (r: Point)
        ensures
            r@ == (scalar_modulus() - self@) as nat % scalar_modulus(),
    {
        ep_neg(self)
    }

    pub fn times(&self, k: &Scalar) -> (r: Point)
        ensures
            r@ == point_product(self@, k@),
    {
        ep_mul(self, k)
    }

    /// The point with the given compressed encoding, if there is one.
    pub fn from_bytes(bytes: &[u8; 32]) -> (r: Option<Point>)
        ensures
            r is Some <==> encodes_a_point(bytes@),
            r matches Some(p) ==> coordinate_bytes(p.coordinates()) == bytes@,
            r matches Some(p) ==> decode_point(bytes@) == Some(p@),
            r is None ==> decode_point(bytes@) is None,
    {
        ep_from_bytes(bytes)
    }

    /// The point with the given coordinates, if there is one; `(0, 0)` is the identity.
    pub fn from_xy(x: &Base, y: &Base) -> (r: Option<Point>)
        ensures
            r is Some <==> on_curve((x@, y@)),
            r matches Some(p) ==> p.coordinates() == (x@, y@),
    {
        ep_from_xy(x, y)
    }

    /// The compressed encoding.
    pub fn to_bytes(&self) -> (r: [u8; 32])
        ensures
            r@ == encode_point(self@),
    {
        proof {
            use_type_invariant(self);
            use_type_invariant(&self.x);
        }
        let x = self.x;
        if self.y.lo % 2 == 1 {
            proof {
                assert(self.y@ % 2 == 1);
                assert(wide(x.lo, (x.hi + TOP_BIT) as u128) == x@
                    + 0x8000000000000000000000000000000000000000000000000000000000000000nat);
            }
            wide_to_bytes(x.lo, x.hi + TOP_BIT)
        } else {
            proof {
                assert(self.y@ % 2 == 0);
            }
            wide_to_bytes(x.lo, x.hi)
        }
    }

    /// Whether two points are the same.
    pub fn same(&self, other: &Point) -> (r: bool)
        ensures
            r == (self@ == other@),
    {
        proof {
            use_type_invariant(self);
            use_type_invariant(other);
            if self@ == other@ {
                lemma_point_determined(*self, *other);
            }
        }
        *self == *other
    }

    pub fn is_identity(&self) -> (r: bool)
        ensures
            r == (self@ == 0),
    {
        proof {
            use_type_invariant(self);
        }
        self.x.is_zero() && self.y.is_zero()
    }

    /// The x coordinate, zero for the identity.
    pub fn x(&self) -> (r: Base)
        ensures
            r@ == self.coordinates().0,
    {
        self.x
    }

    /// The y coordinate, zero for the identity.
    pub fn y(&self) -> (r: Base)
        ensures
            r@ == self.coordinates().1,
    {
        self.y
    }

    pub fn minus(&self, other: &Point) -> (r: Point)
        ensures
            r@ == point_difference(self@, other@),
    {
        proof {
            use_type_invariant(self);
            use_type_invariant(other);
            lemma_difference(self@, other@);
        }
        self.plus(&other.negate())
    }
}

pub open spec fn point_difference(a: nat, b: nat) -> nat {
    ((a - b) % (scalar_modulus() as int)) as nat
}

proof fn lemma_difference(a: nat, b: nat)
    requires
        b < scalar_modulus(),
    ensures
        point_sum(a, (scalar_modulus() - b) as nat % scalar_modulus()) == point_difference(a, b),
{
    let q = scalar_modulus() as int;
    if b == 0 {
        assert((q - b) % q == 0);
    } else {
        assert((q - b) % q == q - b);
        vstd::arithmetic::div_mod::lemma_mod_add_multiples_vanish(a - b, q);
    }
}

/// A point is determined by its discrete logarithm.
pub proof fn lemma_point_determined(a: Point, b: Point)
    requires
        a.valid(),
        b.valid(),
        a@ == b@,
    ensures
        a == b,
{
    lemma_base_determined(a.x, b.x);
    lemma_base_determined(a.y, b.y);
}

// ------------------------------------------------------------------------- group arithmetic

/// Points with the same coordinates have the same discrete logarithm.
pub proof fn lemma_same_log(a: Point, b: Point)
    requires
        a.valid(),
        b.valid(),
        pallas_multiple(a@) == pallas_multiple(b@),
    ensures
        a@ == b@,
{
}

/// An integer reduced modulo the group order.
pub open spec fn reduced(x: int) -> nat {
    (x % (scalar_modulus() as int)) as nat
}

/// Reduction may be put off in sums, differences and products.
pub proof fn lemma_reduced(x: int, y: int)
    ensures
        reduced(reduced(x) + y) == reduced(x + y),
        reduced(x + reduced(y)) == reduced(x + y),
        reduced((reduced(x) + reduced(y)) as int) == reduced(x + y),
        reduced(x - reduced(y)) == reduced(x - y),
        reduced(reduced(x) - y) == reduced(x - y),
        reduced(x * reduced(y)) == reduced(x * y),
        reduced(reduced(x) * y) == reduced(x * y),
        reduced(x) < scalar_modulus(),
{
    let q = scalar_modulus() as int;
    vstd::arithmetic::div_mod::lemma_add_mod_noop(x, y, q);
    vstd::arithmetic::div_mod::lemma_add_mod_noop(reduced(x) as int, y, q);
    vstd::arithmetic::div_mod::lemma_add_mod_noop(x, reduced(y) as int, q);
    vstd::arithmetic::div_mod::lemma_sub_mod_noop(x, y, q);
    vstd::arithmetic::div_mod::lemma_sub_mod_noop(x, reduced(y) as int, q);
    vstd::arithmetic::div_mod::lemma_sub_mod_noop(reduced(x) as int, y, q);
    vstd::arithmetic::div_mod::lemma_mul_mod_noop(x, y, q);
    vstd::arithmetic::div_mod::lemma_mul_mod_noop(x, reduced(y) as int, q);
    vstd::arithmetic::div_mod::lemma_mul_mod_noop(reduced(x) as int, y, q);
    vstd::arithmetic::div_mod::lemma_mod_twice(x, q);
    vstd::arithmetic::div_mod::lemma_mod_twice(y, q);
}

/// `[a + b] P = [a] P + [b] P`.
pub proof fn lemma_product_distributes(p: nat, a: nat, b: nat)
    ensures
        point_product(p, point_sum(a, b)) == point_sum(point_product(p, a), point_product(p, b)),
{
    lemma_reduced(p as int, (a + b) as int);
    assert(p * (a + b) == p * a + p * b) by (nonlinear_arith);
    lemma_reduced((p * a) as int, (p * b) as int);
}

/// `[b] [a] P = [a] [b] P`.
pub proof fn lemma_products_commute(p: nat, a: nat, b: nat)
    ensures
        point_product(point_product(p, a), b) == point_product(point_product(p, b), a),
{
    lemma_reduced((p * a) as int, b as int);
    lemma_reduced((p * b) as int, a as int);
    assert((p * a) * b == (p * b) * a) by (nonlinear_arith);
}

pub proof fn lemma_encoding_length(k: nat)
    ensures
        encode_point(k).len() == 32,
{
    let p = pallas_multiple(k);
    crate::bytes::lemma_le_bytes_len(
        p.0 + 0x8000000000000000000000000000000000000000000000000000000000000000nat * (p.1 % 2),
        32,
    );
}

} // verus!
