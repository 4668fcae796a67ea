//! The algebra that the scheme is built on, as `amcl_wrapper` provides it: two groups
//! of points, scalars, and a pairing. Nothing here is proved. Each function makes one
//! call, and its contract says what is taken on trust of that call, over the written
//! forms of the values.

use vstd::prelude::*;
use amcl_wrapper::extension_field_gt::GT;
use amcl_wrapper::field_elem::FieldElement;
use amcl_wrapper::group_elem::GroupElement;
use amcl_wrapper::group_elem_g1::G1;
use amcl_wrapper::group_elem_g2::G2;
use rand::rngs::ThreadRng;

verus! {

/// An element of the first source group, as `amcl_wrapper` holds it.
#[verifier::external_type_specification]
#[verifier::external_body]
pub struct ExG1(G1);

/// An element of the second source group, as `amcl_wrapper` holds it.
#[verifier::external_type_specification]
#[verifier::external_body]
pub struct ExG2(G2);

/// An element of the target group of the pairing, as `amcl_wrapper` holds it.
#[verifier::external_type_specification]
#[verifier::external_body]
pub struct ExGT(GT);

/// A scalar: an integer modulo the order of the groups, as `amcl_wrapper` holds it.
#[verifier::external_type_specification]
#[verifier::external_body]
pub struct ExFieldElement(FieldElement);

/// The thread-local generator of `rand`, from which blinding scalars are drawn.
#[verifier::external_type_specification]
#[verifier::external_body]
pub struct ExThreadRng(ThreadRng);

/// The point that a `G1` holds, written as `GroupElement::to_hex` writes it: the word
/// `infinity` for the identity, else the two affine coordinates in hexadecimal.
pub uninterp spec fn g1_hex(p: G1) -> Seq<char>;

/// The point that a `G2` holds, written as `GroupElement::to_hex` writes it.
pub uninterp spec fn g2_hex(p: G2) -> Seq<char>;

/// The element that a `GT` holds, written as `GT::to_hex` writes it.
pub uninterp spec fn gt_hex(g: GT) -> Seq<char>;

/// The residue that a `FieldElement` holds, written as `FieldElement::to_hex` writes it.
pub uninterp spec fn scalar_hex(s: FieldElement) -> Seq<char>;

/// The sum of two points of G1 (`GroupElement::plus`), over their written forms.
pub uninterp spec fn g1_plus(a: Seq<char>, b: Seq<char>) -> Seq<char>;

/// The sum of two points of G2 (`GroupElement::plus`), over their written forms.
pub uninterp spec fn g2_plus(a: Seq<char>, b: Seq<char>) -> Seq<char>;

/// The multiple of a point of G1 by a scalar (`GroupElement::scalar_mul_const_time`).
pub uninterp spec fn g1_times(p: Seq<char>, s: Seq<char>) -> Seq<char>;

/// The multiple of a point of G2 by a scalar (`GroupElement::scalar_mul_const_time`).
pub uninterp spec fn g2_times(p: Seq<char>, s: Seq<char>) -> Seq<char>;

/// The inverse of a point of G2 (`GroupElement::negation`).
pub uninterp spec fn g2_negated(p: Seq<char>) -> Seq<char>;

/// Whether the order of the groups annihilates a point of G1
/// (`GroupElement::has_correct_order`).
pub uninterp spec fn g1_in_subgroup(p: Seq<char>) -> bool;

/// Whether the order of the groups annihilates a point of G2
/// (`GroupElement::has_correct_order`).
pub uninterp spec fn g2_in_subgroup(p: Seq<char>) -> bool;

/// The point of G1 that a byte string is hashed to (`GroupElement::from_msg_hash`).
pub uninterp spec fn g1_from_hash(msg: Seq<u8>) -> Seq<char>;

/// The point of G2 that a byte string is hashed to (`GroupElement::from_msg_hash`).
pub uninterp spec fn g2_from_hash(msg: Seq<u8>) -> Seq<char>;

/// The scalar that a byte string is hashed to (`FieldElement::from_msg_hash`).
pub uninterp spec fn scalar_from_hash(msg: Seq<u8>) -> Seq<char>;

/// The product of the pairings of the given couples, each a point of G1 and a point
/// of G2 (`GT::ate_multi_pairing`).
pub uninterp spec fn pairing_product(pairs: Seq<(Seq<char>, Seq<char>)>) -> Seq<char>;

/// Whether an element of the target group is its unit (`GT::is_one`).
pub uninterp spec fn gt_is_unit(g: Seq<char>) -> bool;

/// The written form of the identity of either source group.
pub open spec fn infinity() -> Seq<char> {
    "infinity"@
}

/// Calls `G1::to_hex`, which writes the point: the result is the written form that
/// all contracts on points of G1 speak of.
#[verifier::external_body]
pub(crate) fn g1_to_hex(p: &G1) -> (r: String)
    ensures
        r@ == g1_hex(*p),
{
    p.to_hex()
}

/// Calls `G2::to_hex`, which writes the point: the result is the written form that
/// all contracts on points of G2 speak of.
#[verifier::external_body]
pub(crate) fn g2_to_hex(p: &G2) -> (r: String)
    ensures
        r@ == g2_hex(*p),
{
    p.to_hex()
}

/// Calls `G1::identity`, which sets a fresh point to infinity; `to_hex` writes that
/// point as `infinity`.
#[verifier::external_body]
pub(crate) fn g1_identity() -> (r: G1)
    ensures
        g1_hex(r) == infinity(),
{
    G1::identity()
}

/// Calls `G1::is_identity`, the test for the point at infinity: the one point that
/// `to_hex` writes as `infinity`.
#[verifier::external_body]
pub(crate) fn g1_is_identity(p: &G1) -> (r: bool)
    ensures
        r == (g1_hex(*p) == infinity()),
{
    p.is_identity()
}

/// Calls `G1::has_correct_order`, which multiplies the point by the group order and
/// tests for infinity. The answer depends on the point alone and is named.
#[verifier::external_body]
pub(crate) fn g1_has_correct_order(p: &G1) -> (r: bool)
    ensures
        r == g1_in_subgroup(g1_hex(*p)),
{
    p.has_correct_order()
}

/// Calls `G1::plus` through `+`. The sum depends on the two points alone and is named.
#[verifier::external_body]
pub(crate) fn g1_add(a: &G1, b: &G1) -> (r: G1)
    ensures
        g1_hex(r) == g1_plus(g1_hex(*a), g1_hex(*b)),
{
    a + b
}

/// Calls `G1::scalar_mul_const_time` through `*`. The multiple depends on the point
/// and on the residue of the scalar alone and is named.
#[verifier::external_body]
pub(crate) fn g1_mul(p: &G1, s: &FieldElement) -> (r: G1)
    ensures
        g1_hex(r) == g1_times(g1_hex(*p), scalar_hex(*s)),
{
    p * s
}

/// Calls `G1::from_msg_hash`, which hashes the bytes and maps the digest to a point.
/// The point depends on the bytes alone and is named.
#[verifier::external_body]
pub(crate) fn g1_from_msg_hash(msg: &[u8]) -> (r: G1)
    ensures
        g1_hex(r) == g1_from_hash(msg@),
{
    G1::from_msg_hash(msg)
}

/// Calls `G1::clone`, which copies the coordinates: the copy holds the same point.
#[verifier::external_body]
pub(crate) fn g1_clone(p: &G1) -> (r: G1)
    ensures
        g1_hex(r) == g1_hex(*p),
{
    p.clone()
}

/// Calls `G2::identity`, which sets a fresh point to infinity; `to_hex` writes that
/// point as `infinity`.
#[verifier::external_body]
pub(crate) fn g2_identity() -> (r: G2)
    ensures
        g2_hex(r) == infinity(),
{
    G2::identity()
}

/// Calls `G2::is_identity`, the test for the point at infinity: the one point that
/// `to_hex` writes as `infinity`.
#[verifier::external_body]
pub(crate) fn g2_is_identity(p: &G2) -> (r: bool)
    ensures
        r == (g2_hex(*p) == infinity()),
{
    p.is_identity()
}

/// Calls `G2::has_correct_order`, which multiplies the point by the group order and
/// tests for infinity. The answer depends on the point alone and is named.
#[verifier::external_body]
pub(crate) fn g2_has_correct_order(p: &G2) -> (r: bool)
    ensures
        r == g2_in_subgroup(g2_hex(*p)),
{
    p.has_correct_order()
}

/// Calls `G2::plus` through `+`. The sum depends on the two points alone and is named.
#[verifier::external_body]
pub(crate) fn g2_add(a: &G2, b: &G2) -> (r: G2)
    ensures
        g2_hex(r) == g2_plus(g2_hex(*a), g2_hex(*b)),
{
    a + b
}

/// Calls `G2::scalar_mul_const_time` through `*`. The multiple depends on the point
/// and on the residue of the scalar alone and is named.
#[verifier::external_body]
pub(crate) fn g2_mul(p: &G2, s: &FieldElement) -> (r: G2)
    ensures
        g2_hex(r) == g2_times(g2_hex(*p), scalar_hex(*s)),
{
    p * s
}

/// Calls `G2::negation`, which negates a copy of the point. The inverse depends on
/// the point alone and is named.
#[verifier::external_body]
pub(crate) fn g2_neg(p: &G2) -> (r: G2)
    ensures
        g2_hex(r) == g2_negated(g2_hex(*p)),
{
    p.negation()
}

/// Calls `G2::from_msg_hash`, which hashes the bytes and maps the digest to a point.
/// The point depends on the bytes alone and is named.
#[verifier::external_body]
pub(crate) fn g2_from_msg_hash(msg: &[u8]) -> (r: G2)
    ensures
        g2_hex(r) == g2_from_hash(msg@),
{
    G2::from_msg_hash(msg)
}

/// Calls `G2::clone`, which copies the coordinates: the copy holds the same point.
#[verifier::external_body]
pub(crate) fn g2_clone(p: &G2) -> (r: G2)
    ensures
        g2_hex(r) == g2_hex(*p),
{
    p.clone()
}

/// Calls `FieldElement::from_msg_hash`, which hashes the bytes and reduces the digest
/// modulo the group order. The scalar depends on the bytes alone and is named.
#[verifier::external_body]
pub(crate) fn scalar_from_msg_hash(msg: &[u8]) -> (r: FieldElement)
    ensures
        scalar_hex(r) == scalar_from_hash(msg@),
{
    FieldElement::from_msg_hash(msg)
}

/// Calls `FieldElement::random_using_rng`, which draws a scalar from the generator.
/// Nothing is claimed of the scalar; a failing generator panics inside `rand`.
#[verifier::external_body]
pub(crate) fn scalar_random(rng: &mut ThreadRng) -> (r: FieldElement) {
    FieldElement::random_using_rng(rng)
}

/// Calls `GT::ate_multi_pairing` on three couples. The product depends on the six
/// points alone and is named.
#[verifier::external_body]
pub(crate) fn pairing_product_of_three(
    a1: &G1,
    a2: &G2,
    b1: &G1,
    b2: &G2,
    c1: &G1,
    c2: &G2,
) -> (r: GT)
    ensures
        gt_hex(r) == pairing_product(
            seq![
                (g1_hex(*a1), g2_hex(*a2)),
                (g1_hex(*b1), g2_hex(*b2)),
                (g1_hex(*c1), g2_hex(*c2)),
            ],
        ),
{
    GT::ate_multi_pairing(vec![(a1, a2), (b1, b2), (c1, c2)])
}

/// Calls `GT::is_one`, the test for the unit of the target group. The answer depends
/// on the element alone and is named.
#[verifier::external_body]
pub(crate) fn gt_is_one(g: &GT) -> (r: bool)
    ensures
        r == gt_is_unit(gt_hex(*g)),
{
    g.is_one()
}

} // verus!
