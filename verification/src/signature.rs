//! Value commitment and the two signatures around a shielded transfer, on RedPallas (`reddsa`).
//!
//! * **Spend authorisation.** The proof shows a rerandomised key `rk = ak + [alpha] G`; the
//!   signature under `rsk = ask + alpha` proves that whoever holds `ask` agreed. This is the
//!   custody split: the community server can build the proof from `ak`, only the device can
//!   produce this signature.
//! * **Binding signature.** Every action publishes `cv = [v] V + [rcv] R`. If the values add up,
//!   the sum of all `cv` minus the public value balance is `[sum rcv] R`, so a signature under
//!   `sum rcv` proves the transfer balances, without revealing a single amount.
use rand::SeedableRng;
use reddsa::orchard::{Binding, SpendAuth};
use vstd::prelude::*;

use crate::keys::SpendAuthorizingKey;
use crate::pallas::{Point, Scalar};

verus! {

broadcast use vstd::array::group_array_axioms;

pub const VALUE_COMMIT_PERSONALIZATION: &'static str = "Gradido_cv";

/// The basepoint of the spend authorisation signature, by its discrete logarithm.
pub open spec fn spend_auth_generator() -> nat {
    crate::pallas::discrete_log(crate::pallas::hash_to_curve("z.cash:Orchard"@, seq![71u8]))
}

/// The generator for the value in a value commitment, by its discrete logarithm.
pub open spec fn value_generator() -> nat {
    crate::pallas::discrete_log(
        crate::pallas::hash_to_curve(VALUE_COMMIT_PERSONALIZATION@, seq![118u8]),
    )
}

/// The generator for the randomness, by its discrete logarithm.
pub open spec fn randomness_generator() -> nat {
    crate::pallas::discrete_log(crate::pallas::hash_to_curve("z.cash:Orchard-cv"@, seq![114u8]))
}

/// A signed amount as a scalar.
pub open spec fn signed_scalar(value: int) -> nat {
    crate::pallas::reduced(value)
}

/// `[value] V + [rcv] R`.
pub open spec fn commitment_to_value(value: int, rcv: nat) -> nat {
    crate::pallas::point_sum(
        crate::pallas::point_product(value_generator(), signed_scalar(value)),
        crate::pallas::point_product(randomness_generator(), rcv),
    )
}

/// `ak + [alpha] G`.
pub open spec fn randomized_key(ak: nat, alpha: nat) -> nat {
    crate::pallas::point_sum(ak, crate::pallas::point_product(spend_auth_generator(), alpha))
}

/// The sum of points.
pub open spec fn sum_of_points(points: Seq<nat>) -> nat
    decreases points.len(),
{
    if points.len() == 0 {
        0
    } else {
        crate::pallas::point_sum(sum_of_points(points.drop_last()), points.last())
    }
}

/// `sum(cv) - [value_balance] V`.
pub open spec fn binding_key(cvs: Seq<nat>, value_balance: int) -> nat {
    crate::pallas::point_difference(
        sum_of_points(cvs),
        crate::pallas::point_product(value_generator(), signed_scalar(value_balance)),
    )
}

/// The sum of scalars.
pub open spec fn sum_of_scalars(scalars: Seq<nat>) -> nat
    decreases scalars.len(),
{
    if scalars.len() == 0 {
        0
    } else {
        (sum_of_scalars(scalars.drop_last()) + scalars.last()) % crate::pallas::scalar_modulus()
    }
}

pub open spec fn logs(points: Seq<Point>) -> Seq<nat> {
    points.map_values(|p: Point| p@)
}

pub open spec fn scalar_values(scalars: Seq<Scalar>) -> Seq<nat> {
    scalars.map_values(|s: Scalar| s@)
}

/// Whether `reddsa` accepts a spend authorisation signature, given the encoded verification key.
pub uninterp spec fn spend_auth_verifies(key: Seq<u8>, message: Seq<u8>, signature: Seq<u8>) -> bool;

/// Whether `reddsa` accepts a binding signature, given the encoded verification key.
pub uninterp spec fn binding_verifies(key: Seq<u8>, message: Seq<u8>, signature: Seq<u8>) -> bool;

/// A spend authorisation signature, 64 bytes.
#[derive(Clone, Copy, Debug, PartialEq, Eq)]
pub struct SpendAuthSignature(pub [u8; 64]);

/// A binding signature, 64 bytes.
#[derive(Clone, Copy, Debug, PartialEq, Eq)]
pub struct BindingSignature(pub [u8; 64]);

/// A key that spend authorisation signatures are checked against.
#[derive(Clone, Copy, Debug, PartialEq, Eq, Structural)]
pub struct SpendAuthVerificationKey(pub Point);

/// A key that binding signatures are checked against.
#[derive(Clone, Copy, Debug, PartialEq, Eq, Structural)]
pub struct BindingVerificationKey(pub Point);

/// `SigningKey::<SpendAuth>::sign` of `reddsa`, with a generator of random numbers seeded from
/// `entropy`. Whatever the random numbers are, the signature verifies under the verification key
/// of the signing key, its multiple of the basepoint, which is `hash_to_curve("z.cash:Orchard")`
/// of `G`. Which of the many valid signatures comes out is not stated.
#[verifier::external_body]
fn reddsa_sign_spend_auth(key: &Scalar, message: &[u8; 32], entropy: &[u8; 32]) -> (r: [u8; 64])
    ensures
        spend_auth_verifies(
            crate::pallas::encode_point(
                crate::pallas::point_product(spend_auth_generator(), key@),
            ),
            message@,
            r@,
        ),
{
    let key = reddsa::SigningKey::<SpendAuth>::try_from(key.to_repr()).unwrap();
    key.sign(rand::rngs::StdRng::from_seed(*entropy), message).into()
}

/// `VerificationKey::<SpendAuth>::verify` of `reddsa`.
#[verifier::external_body]
fn reddsa_verify_spend_auth(key: &Point, message: &[u8; 32], signature: &[u8; 64]) -> (r: bool)
    ensures
        r == spend_auth_verifies(crate::pallas::encode_point(key@), message@, signature@),
{
    let key = reddsa::VerificationKey::<SpendAuth>::try_from(key.to_bytes()).unwrap();
    key.verify(message, &reddsa::Signature::from(*signature)).is_ok()
}

/// `SigningKey::<Binding>::sign` of `reddsa`, with a generator of random numbers seeded from
/// `entropy`. Whatever the random numbers are, the signature verifies under the verification key
/// of the signing key, its multiple of the basepoint, which is
/// `hash_to_curve("z.cash:Orchard-cv")` of `r`. Which of the many valid signatures comes out is
/// not stated.
#[verifier::external_body]
fn reddsa_sign_binding(key: &Scalar, message: &[u8; 32], entropy: &[u8; 32]) -> (r: [u8; 64])
    ensures
        binding_verifies(
            crate::pallas::encode_point(
                crate::pallas::point_product(randomness_generator(), key@),
            ),
            message@,
            r@,
        ),
{
    let key = reddsa::SigningKey::<Binding>::try_from(key.to_repr()).unwrap();
    key.sign(rand::rngs::StdRng::from_seed(*entropy), message).into()
}

/// `VerificationKey::<Binding>::verify` of `reddsa`.
#[verifier::external_body]
fn reddsa_verify_binding(key: &Point, message: &[u8; 32], signature: &[u8; 64]) -> (r: bool)
    ensures
        r == binding_verifies(crate::pallas::encode_point(key@), message@, signature@),
{
    let key = reddsa::VerificationKey::<Binding>::try_from(key.to_bytes()).unwrap();
    key.verify(message, &reddsa::Signature::from(*signature)).is_ok()
}

/// Basepoint of the spend authorisation signature. `reddsa` fixes this point for its Orchard
/// `SpendAuth` type, so `ak = [ask] SpendAuthG` and `rk = ak + [alpha] SpendAuthG` have to use
/// it as well. It is a nothing-up-my-sleeve point, hashed from a string.
pub fn spend_auth_base() -> (r: Point)
    ensures
        r@ == spend_auth_generator(),
{
    proof {
        reveal_strlit("z.cash:Orchard");
    }
    let message: [u8; 1] = [71];
    assert(message@ =~= seq![71u8]);
    Point::hash_to_curve("z.cash:Orchard", message.as_slice())
}

/// Generator for the value in a value commitment.
pub fn value_base() -> (r: Point)
    ensures
        r@ == value_generator(),
{
    proof {
        reveal_strlit("Gradido_cv");
    }
    let message: [u8; 1] = [118];
    assert(message@ =~= seq![118u8]);
    Point::hash_to_curve(VALUE_COMMIT_PERSONALIZATION, message.as_slice())
}

/// Generator for the randomness; the same point `reddsa` uses for Orchard binding signatures,
/// so its `Binding` type can verify the signatures unchanged.
pub fn randomness_base() -> (r: Point)
    ensures
        r@ == randomness_generator(),
{
    proof {
        reveal_strlit("z.cash:Orchard-cv");
    }
    let message: [u8; 1] = [114];
    assert(message@ =~= seq![114u8]);
    Point::hash_to_curve("z.cash:Orchard-cv", message.as_slice())
}

fn to_scalar(value: i128) -> (r: Scalar)
    ensures
        r@ == signed_scalar(value as int),
{
    if value < 0 {
        let magnitude: u128 = if value == i128::MIN {
            0x8000_0000_0000_0000_0000_0000_0000_0000
        } else {
            (-value) as u128
        };
        proof {
            let q = crate::pallas::scalar_modulus() as int;
            vstd::arithmetic::div_mod::lemma_mod_add_multiples_vanish(value as int, q);
        }
        Scalar::from_u128(magnitude).negate()
    } else {
        proof {
            vstd::arithmetic::div_mod::lemma_small_mod(
                value as nat,
                crate::pallas::scalar_modulus(),
            );
        }
        Scalar::from_u128(value as u128)
    }
}

/// `cv = [value] V + [rcv] R`
pub fn value_commitment(value: i128, rcv: Scalar) -> (r: Point)
    ensures
        r@ == commitment_to_value(value as int, rcv@),
{
    value_base().times(&to_scalar(value)).plus(&randomness_base().times(&rcv))
}

// ------------------------------------------------------------------ spend authorisation

/// `rk = ak + [alpha] G`, what the proof exposes and the signature is checked against.
pub fn randomized_verification_key(ak: Point, alpha: Scalar) -> (r: SpendAuthVerificationKey)
    ensures
        r.0@ == randomized_key(ak@, alpha@),
{
    SpendAuthVerificationKey(ak.plus(&spend_auth_base().times(&alpha)))
}

/// Signs with `rsk = ask + alpha`. Only the device that holds `ask` can do this. The signature
/// verifies under the randomised key of the spend authorising key. `entropy` seeds the
/// randomness of the signature.
pub fn sign_spend_auth(
    ask: &SpendAuthorizingKey,
    alpha: Scalar,
    sighash: &[u8; 32],
    entropy: &[u8; 32],
) -> (r: SpendAuthSignature)
    ensures
        spend_auth_verifies(
            crate::pallas::encode_point(
                randomized_key(
                    crate::pallas::point_product(spend_auth_generator(), ask.0@),
                    alpha@,
                ),
            ),
            sighash@,
            r.0@,
        ),
{
    proof {
        crate::pallas::lemma_product_distributes(spend_auth_generator(), ask.0@, alpha@);
    }
    let rsk = ask.0.plus(&alpha);
    SpendAuthSignature(reddsa_sign_spend_auth(&rsk, sighash, entropy))
}

pub fn verify_spend_auth(
    rk: &SpendAuthVerificationKey,
    sighash: &[u8; 32],
    signature: &SpendAuthSignature,
) -> (r: bool)
    ensures
        r == spend_auth_verifies(crate::pallas::encode_point(rk.0@), sighash@, signature.0@),
{
    reddsa_verify_spend_auth(&rk.0, sighash, &signature.0)
}

// ------------------------------------------------------------------------ binding signature

/// `bvk = sum(cv) - [value_balance] V`, which equals `[sum rcv] R` exactly when the values add
/// up. Every point is a verification key.
pub fn binding_verification_key(cvs: &[Point], value_balance: i128) -> (r: Option<
    BindingVerificationKey,
>)
    ensures
        r matches Some(k) && k.0@ == binding_key(logs(cvs@), value_balance as int),
{
    let mut sum = Point::identity();
    let mut i: usize = 0;
    assert(logs(cvs@).take(0) =~= Seq::empty());
    while i < cvs.len()
        invariant
            i <= cvs@.len(),
            sum@ == sum_of_points(logs(cvs@).take(i as int)),
        decreases cvs@.len() - i,
    {
        assert(logs(cvs@).take(i + 1).drop_last() =~= logs(cvs@).take(i as int));
        sum = sum.plus(&cvs[i]);
        i = i + 1;
    }
    assert(logs(cvs@).take(i as int) =~= logs(cvs@));
    Some(BindingVerificationKey(sum.minus(&value_base().times(&to_scalar(value_balance)))))
}

/// Signs with `bsk = sum(rcv)`. The signature verifies under `[sum rcv] R`. `entropy` seeds the
/// randomness of the signature.
pub fn sign_binding(rcvs: &[Scalar], sighash: &[u8; 32], entropy: &[u8; 32]) -> (r:
    BindingSignature)
    ensures
        binding_verifies(
            crate::pallas::encode_point(
                crate::pallas::point_product(
                    randomness_generator(),
                    sum_of_scalars(scalar_values(rcvs@)),
                ),
            ),
            sighash@,
            r.0@,
        ),
{
    let mut bsk = Scalar::zero();
    let mut i: usize = 0;
    assert(scalar_values(rcvs@).take(0) =~= Seq::empty());
    while i < rcvs.len()
        invariant
            i <= rcvs@.len(),
            bsk@ == sum_of_scalars(scalar_values(rcvs@).take(i as int)),
        decreases rcvs@.len() - i,
    {
        assert(scalar_values(rcvs@).take(i + 1).drop_last() =~= scalar_values(rcvs@).take(i as int));
        bsk = bsk.plus(&rcvs[i]);
        i = i + 1;
    }
    assert(scalar_values(rcvs@).take(i as int) =~= scalar_values(rcvs@));
    BindingSignature(reddsa_sign_binding(&bsk, sighash, entropy))
}

pub fn verify_binding(
    bvk: &BindingVerificationKey,
    sighash: &[u8; 32],
    signature: &BindingSignature,
) -> (r: bool)
    ensures
        r == binding_verifies(crate::pallas::encode_point(bvk.0@), sighash@, signature.0@),
{
    reddsa_verify_binding(&bvk.0, sighash, &signature.0)
}

// ---------------------------------------------------------------------------------- laws

/// The plain sum of amounts.
pub open spec fn total(values: Seq<int>) -> int
    decreases values.len(),
{
    if values.len() == 0 {
        0
    } else {
        total(values.drop_last()) + values.last()
    }
}

/// The value commitments to `values` under `rcvs`.
pub open spec fn commitments(values: Seq<int>, rcvs: Seq<nat>) -> Seq<nat> {
    Seq::new(values.len(), |i: int| commitment_to_value(values[i], rcvs[i]))
}

/// Value commitments add up: the sum of two commitments commits to the sum of their amounts under
/// the sum of their randomness.
pub proof fn commitments_add_up(v1: int, v2: int, r1: nat, r2: nat)
    ensures
        crate::pallas::point_sum(commitment_to_value(v1, r1), commitment_to_value(v2, r2))
            == commitment_to_value(v1 + v2, (r1 + r2) % crate::pallas::scalar_modulus()),
{
    let v = value_generator();
    let r = randomness_generator();
    let a = v * v1;
    let b = v * v2;
    let c = crate::pallas::point_product(r, r1) as int;
    let d = crate::pallas::point_product(r, r2) as int;
    crate::pallas::lemma_reduced(v as int, v1);
    crate::pallas::lemma_reduced(v as int, v2);
    crate::pallas::lemma_reduced(v as int, v1 + v2);
    crate::pallas::lemma_product_distributes(r, r1, r2);
    crate::pallas::lemma_reduced(a, c);
    crate::pallas::lemma_reduced(b, d);
    crate::pallas::lemma_reduced(a + c, b + d);
    crate::pallas::lemma_reduced(a + b, c + d);
    assert(v * (v1 + v2) == v * v1 + v * v2) by (nonlinear_arith);
    assert(a + c + (b + d) == a + b + (c + d));
}

/// The binding verification key is the key of the binding signing key exactly when the amounts
/// add up to the value balance, modulo the group order. The value generator must not be the
/// identity, or the commitments would hold no value at all.
pub proof fn binding_key_matches_exactly_when_balanced(
    values: Seq<int>,
    rcvs: Seq<nat>,
    value_balance: int,
)
    requires
        values.len() == rcvs.len(),
        crate::pallas::has_full_order(value_generator()),
    ensures
        binding_key(commitments(values, rcvs), value_balance) == crate::pallas::point_product(
            randomness_generator(),
            sum_of_scalars(rcvs),
        ) <==> (total(values) - value_balance) % (crate::pallas::scalar_modulus() as int) == 0,
{
    let v = value_generator();
    let d = total(values) - value_balance;
    lemma_binding_key(values, rcvs, value_balance);
    let key = binding_key(commitments(values, rcvs), value_balance);
    let target = crate::pallas::point_product(randomness_generator(), sum_of_scalars(rcvs));
    crate::pallas::lemma_reduced(v * d, target as int);
    crate::pallas::lemma_reduced(v as int, d);
    if d % (crate::pallas::scalar_modulus() as int) == 0 {
        assert(crate::pallas::reduced(d) == 0);
        assert(v * 0 == 0) by (nonlinear_arith);
        assert(crate::pallas::reduced(v * d) == 0);
        crate::pallas::lemma_reduced((randomness_generator() * sum_of_scalars(rcvs)) as int, 0);
    }
    if key == target {
        crate::pallas::lemma_reduced(key - target, 0);
        crate::pallas::lemma_reduced(v * d + target, target as int);
        assert(crate::pallas::reduced(v * d) == 0);
        assert(crate::pallas::point_product(v, crate::pallas::reduced(d)) == 0);
        assert(crate::pallas::reduced(d) % crate::pallas::scalar_modulus() == 0);
    }
}

/// Amounts that add up to the value balance give the key of the binding signing key, so a
/// signature under the sum of the randomness verifies.
pub proof fn balanced_values_give_the_binding_key(
    values: Seq<int>,
    rcvs: Seq<nat>,
    value_balance: int,
)
    requires
        values.len() == rcvs.len(),
        total(values) == value_balance,
    ensures
        binding_key(commitments(values, rcvs), value_balance) == crate::pallas::point_product(
            randomness_generator(),
            sum_of_scalars(rcvs),
        ),
{
    lemma_binding_key(values, rcvs, value_balance);
    assert(value_generator() * 0 == 0) by (nonlinear_arith);
    let target = crate::pallas::point_product(randomness_generator(), sum_of_scalars(rcvs));
    crate::pallas::lemma_reduced((randomness_generator() * sum_of_scalars(rcvs)) as int, 0);
}

/// `bvk = [total - balance] V + [sum rcv] R`.
proof fn lemma_binding_key(values: Seq<int>, rcvs: Seq<nat>, value_balance: int)
    requires
        values.len() == rcvs.len(),
    ensures
        binding_key(commitments(values, rcvs), value_balance) == crate::pallas::reduced(
            value_generator() * (total(values) - value_balance) + crate::pallas::point_product(
                randomness_generator(),
                sum_of_scalars(rcvs),
            ),
        ),
{
    let v = value_generator();
    let t = total(values);
    let target = crate::pallas::point_product(randomness_generator(), sum_of_scalars(rcvs));
    lemma_sum_of_commitments(values, rcvs);
    let a = v * t + target;
    let b = v * value_balance;
    let sum = sum_of_points(commitments(values, rcvs));
    let part = crate::pallas::point_product(v, signed_scalar(value_balance));
    assert(part == crate::pallas::reduced(b)) by {
        crate::pallas::lemma_reduced(v as int, value_balance);
    }
    assert(crate::pallas::reduced(sum - part) == crate::pallas::reduced(a - b)) by {
        crate::pallas::lemma_reduced(sum as int, b);
        crate::pallas::lemma_reduced(a, b);
    }
    assert(a - b == v * (t - value_balance) + target) by (nonlinear_arith)
        requires
            a == v * t + target,
            b == v * value_balance,
    ;
}

proof fn lemma_sum_of_commitments(values: Seq<int>, rcvs: Seq<nat>)
    requires
        values.len() == rcvs.len(),
    ensures
        sum_of_points(commitments(values, rcvs)) == crate::pallas::reduced(
            value_generator() * total(values) + crate::pallas::point_product(
                randomness_generator(),
                sum_of_scalars(rcvs),
            ),
        ),
    decreases values.len(),
{
    let v = value_generator();
    let r = randomness_generator();
    if values.len() == 0 {
        assert(v * 0 == 0 && r * 0 == 0) by (nonlinear_arith);
    } else {
        let vs = values.drop_last();
        let rs = rcvs.drop_last();
        let x = values.last();
        let k = rcvs.last();
        lemma_sum_of_commitments(vs, rs);
        assert(commitments(values, rcvs).drop_last() =~= commitments(vs, rs));
        crate::pallas::lemma_reduced(v as int, x);
        crate::pallas::lemma_product_distributes(r, sum_of_scalars(rs), k);
        let a = v * total(vs);
        let b = crate::pallas::point_product(r, sum_of_scalars(rs)) as int;
        let c = v * x;
        let d = crate::pallas::point_product(r, k) as int;
        // the last commitment
        crate::pallas::lemma_reduced(c, d);
        // the sum so far and the last commitment
        crate::pallas::lemma_reduced(a + b, c + d);
        // the sum of the randomness
        crate::pallas::lemma_reduced(a + c, b + d);
        assert(v * (total(vs) + x) == v * total(vs) + v * x) by (nonlinear_arith);
        assert(a + b + (c + d) == a + c + (b + d));
    }
}

/// A value commitment is `[value] V + [rcv] R`, and the three bases are hashed from strings of
/// their own.
pub proof fn a_commitment_is_the_sum_of_two_multiples(value: int, rcv: nat)
    ensures
        commitment_to_value(value, rcv) == crate::pallas::reduced(
            value_generator() * value + randomness_generator() * rcv,
        ),
        value_generator() == crate::pallas::discrete_log(
            crate::pallas::hash_to_curve("Gradido_cv"@, seq![118u8]),
        ),
        randomness_generator() == crate::pallas::discrete_log(
            crate::pallas::hash_to_curve("z.cash:Orchard-cv"@, seq![114u8]),
        ),
        spend_auth_generator() == crate::pallas::discrete_log(
            crate::pallas::hash_to_curve("z.cash:Orchard"@, seq![71u8]),
        ),
{
    let v = value_generator() as int;
    let r = (randomness_generator() * rcv) as int;
    crate::pallas::lemma_reduced(v, value);
    crate::pallas::lemma_reduced(v * value, r);
}

/// Rerandomising twice is rerandomising by the sum, and by zero nothing changes.
pub proof fn rerandomisations_add_up(ak: nat, alpha1: nat, alpha2: nat)
    requires
        ak < crate::pallas::scalar_modulus(),
    ensures
        randomized_key(ak, alpha1) == (ak + spend_auth_generator() * alpha1)
            % crate::pallas::scalar_modulus(),
        randomized_key(randomized_key(ak, alpha1), alpha2) == randomized_key(ak, alpha1 + alpha2),
        randomized_key(ak, 0) == ak,
{
    let g = spend_auth_generator();
    let x = (g * alpha1) as int;
    let y = (g * alpha2) as int;
    assert(g * (alpha1 + alpha2) == g * alpha1 + g * alpha2) by (nonlinear_arith);
    assert(g * 0 == 0) by (nonlinear_arith);
    crate::pallas::lemma_reduced(ak as int, x);
    crate::pallas::lemma_reduced(ak as int, x + y);
    crate::pallas::lemma_reduced(ak + x, y);
    vstd::arithmetic::div_mod::lemma_small_mod(ak, crate::pallas::scalar_modulus());
}

} // verus!
