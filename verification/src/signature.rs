//! Signing and verifying.

use vstd::prelude::*;
use amcl_wrapper::field_elem::FieldElement;
use amcl_wrapper::group_elem_g1::G1;
use amcl_wrapper::group_elem_g2::G2;
use rand::rngs::ThreadRng;
use crate::algebra::{
    g1_add, g1_has_correct_order, g1_hex, g1_in_subgroup, g1_is_identity, g1_mul, g1_plus,
    g1_times, g1_to_hex, g2_add, g2_has_correct_order, g2_hex, g2_in_subgroup, g2_is_identity,
    g2_mul, g2_neg, g2_negated, g2_plus, g2_times, g2_to_hex, gt_is_one, gt_is_unit, infinity,
    pairing_product, pairing_product_of_three, scalar_from_hash, scalar_from_msg_hash, scalar_hex,
    scalar_random,
};
use crate::errors::PixelError;
use crate::keys::{GeneratorSet, GeneratorSetView, Sigkey, SigkeyView, Verkey};
use crate::util::{
    calculate_path_factor_using_t_l, is_node, lemma_path_of_is_path, path_factor, path_of,
};

verus! {

/// A signature on a message at a period: one point of G1 and one of G2.
pub struct Signature {
    pub sigma_1: G1,
    pub sigma_2: G2,
}

/// The two points of a signature.
pub struct SignatureView {
    pub sigma_1: Seq<char>,
    pub sigma_2: Seq<char>,
}

impl View for Signature {
    type V = SignatureView;

    open spec fn view(&self) -> SignatureView {
        SignatureView { sigma_1: g1_hex(self.sigma_1), sigma_2: g2_hex(self.sigma_2) }
    }
}

/// The path factor `f` of a period with the message bound to it: the generator at
/// index `l + 1`, times the scalar `m` of the message, is added.
pub open spec fn bound_factor(f: Seq<char>, m: Seq<char>, gens: GeneratorSetView, l: nat) -> Seq<
    char,
> {
    g1_plus(f, g1_times(gens.h[l as int + 1], m))
}

/// The signature that the key of a period makes on the scalar `m` of a message,
/// blinded by `r`. `f` is the path factor of the period. The first point is the
/// signing component, plus `m` times the last component of the key, plus `r` times
/// the bound factor; the second is the component in G2 plus `r` times the generator.
pub open spec fn signed(
    key: SigkeyView,
    f: Seq<char>,
    m: Seq<char>,
    gens: GeneratorSetView,
    l: nat,
    r: Seq<char>,
) -> SignatureView {
    SignatureView {
        sigma_1: g1_plus(
            g1_plus(key.d, g1_times(key.e.last(), m)),
            g1_times(bound_factor(f, m, gens, l), r),
        ),
        sigma_2: g2_plus(key.c, g2_times(gens.g2, r)),
    }
}

/// Whether the product of the pairings of three couples is the unit of the target
/// group.
pub open spec fn product_is_unit(
    a1: Seq<char>,
    a2: Seq<char>,
    b1: Seq<char>,
    b2: Seq<char>,
    c1: Seq<char>,
    c2: Seq<char>,
) -> bool {
    gt_is_unit(pairing_product(seq![(a1, a2), (b1, b2), (c1, c2)]))
}

/// The pairing equation of the scheme: the pairing of the first point with the
/// generator of G2 equals the pairing of the base with the verification key times
/// the pairing of the bound factor with the second point. It is tested as one
/// product of three pairings, the first with the inverse of the generator.
pub open spec fn equation_holds(
    sigma_1: Seq<char>,
    sigma_2: Seq<char>,
    verkey: Seq<char>,
    f: Seq<char>,
    m: Seq<char>,
    gens: GeneratorSetView,
    l: nat,
) -> bool {
    product_is_unit(
        sigma_1,
        g2_negated(gens.g2),
        gens.h[0],
        verkey,
        bound_factor(f, m, gens, l),
        sigma_2,
    )
}

/// Whether one of the two points is the identity.
pub open spec fn degenerate(sigma_1: Seq<char>, sigma_2: Seq<char>) -> bool {
    sigma_1 == infinity() || sigma_2 == infinity()
}

/// Whether both points lie in the subgroups of the scheme.
pub open spec fn in_subgroups(sigma_1: Seq<char>, sigma_2: Seq<char>) -> bool {
    g1_in_subgroup(sigma_1) && g2_in_subgroup(sigma_2)
}

/// The configuration error of a period or a generator set, or else the answer of
/// the pairing equation for the given points.
pub open spec fn spec_pairing_equation(
    sigma_1: Seq<char>,
    sigma_2: Seq<char>,
    verkey: Seq<char>,
    msg: Seq<u8>,
    t: u128,
    l: u8,
    gens: GeneratorSetView,
) -> Result<bool, PixelError> {
    if gens.h.len() < l + 2 {
        Err(PixelError::NotEnoughGenerators { n: (l + 2) as usize })
    } else if !is_node(t as nat, l as nat) {
        Err(PixelError::InvalidNodeNum { t, l })
    } else {
        Ok(
            equation_holds(
                sigma_1,
                sigma_2,
                verkey,
                path_factor(path_of(t as nat, l as nat), gens.h),
                scalar_from_hash(msg),
                gens,
                l as nat,
            ),
        )
    }
}

/// The answer of a verification of two points as a signature under a point of G2 as
/// the key: `false` where a point of the signature or the key is the identity, and
/// where the signature leaves the subgroups; else the configuration error, or the
/// answer of the pairing equation.
pub open spec fn verified(
    sigma_1: Seq<char>,
    sigma_2: Seq<char>,
    verkey: Seq<char>,
    msg: Seq<u8>,
    t: u128,
    l: u8,
    gens: GeneratorSetView,
) -> Result<bool, PixelError> {
    if degenerate(sigma_1, sigma_2) || verkey == infinity() || !in_subgroups(sigma_1, sigma_2) {
        Ok(false)
    } else {
        spec_pairing_equation(sigma_1, sigma_2, verkey, msg, t, l, gens)
    }
}

/// Tests the pairing equation. It fails when the generator set is shorter than
/// `l + 2`, and when `t` is no period of the tree of depth `l`.
pub(crate) fn pairing_equation(
    sigma_1: &G1,
    sigma_2: &G2,
    verkey: &G2,
    msg: &[u8],
    t: u128,
    l: u8,
    gens: &GeneratorSet,
) -> (r: Result<bool, PixelError>)
    ensures
        r == spec_pairing_equation(
            g1_hex(*sigma_1),
            g2_hex(*sigma_2),
            g2_hex(*verkey),
            msg@,
            t,
            l,
            gens@,
        ),
{
    if gens.1.len() < l as usize + 2 {
        return Err(PixelError::NotEnoughGenerators { n: l as usize + 2 });
    }
    let f = match calculate_path_factor_using_t_l(t, l, gens) {
        Ok(f) => f,
        Err(e) => {
            proof {
                if is_node(t as nat, l as nat) {
                    lemma_path_of_is_path(t as nat, l as nat);
                }
            }
            return Err(e);
        },
    };
    let m = scalar_from_msg_hash(msg);
    let bound = g1_add(&f, &g1_mul(&gens.1[l as usize + 1], &m));
    let inverse = g2_neg(&gens.0);
    let product = pairing_product_of_three(sigma_1, &inverse, &gens.1[0], verkey, &bound, sigma_2);
    proof {
        lemma_path_of_is_path(t as nat, l as nat);
    }
    Ok(gt_is_one(&product))
}

impl Signature {
    /// What `new_deterministic` returns.
    pub open spec fn spec_new_deterministic(
        msg: Seq<u8>,
        t: u128,
        l: u8,
        gens: GeneratorSetView,
        key: SigkeyView,
        r: Seq<char>,
    ) -> Result<SignatureView, PixelError> {
        if gens.h.len() < l + 2 {
            Err(PixelError::NotEnoughGenerators { n: (l + 2) as usize })
        } else if !is_node(t as nat, l as nat) {
            Err(PixelError::InvalidNodeNum { t, l })
        } else {
            Ok(
                signed(
                    key,
                    path_factor(path_of(t as nat, l as nat), gens.h),
                    scalar_from_hash(msg),
                    gens,
                    l as nat,
                    r,
                ),
            )
        }
    }

    /// What `verify_naked` returns.
    pub open spec fn spec_verify_naked(
        sigma_1: Seq<char>,
        sigma_2: Seq<char>,
        verkey: Seq<char>,
        msg: Seq<u8>,
        t: u128,
        l: u8,
        gens: GeneratorSetView,
    ) -> Result<bool, PixelError> {
        if degenerate(sigma_1, sigma_2) || !in_subgroups(sigma_1, sigma_2) {
            Ok(false)
        } else {
            spec_pairing_equation(sigma_1, sigma_2, verkey, msg, t, l, gens)
        }
    }

    /// What `verify` returns.
    pub open spec fn spec_verify(
        self,
        msg: Seq<u8>,
        t: u128,
        l: u8,
        gens: GeneratorSetView,
        verkey: Seq<char>,
    ) -> Result<bool, PixelError> {
        verified(self@.sigma_1, self@.sigma_2, verkey, msg, t, l, gens)
    }

    /// The signature of the key of period `t` on the message, blinded by `r`. It
    /// fails when the generator set is shorter than `l + 2`, and when `t` is no
    /// period of the tree of depth `l`.
    pub fn new_deterministic(
        msg: &[u8],
        t: u128,
        l: u8,
        gens: &GeneratorSet,
        sig_key: &Sigkey,
        r: &FieldElement,
    ) -> (res: Result<Signature, PixelError>)
        requires
            sig_key.wf(),
        ensures
            res matches Ok(sig) ==> Self::spec_new_deterministic(
                msg@,
                t,
                l,
                gens@,
                sig_key@,
                scalar_hex(*r),
            ) == Ok::<SignatureView, PixelError>(sig@),
            res matches Err(e) ==> Self::spec_new_deterministic(
                msg@,
                t,
                l,
                gens@,
                sig_key@,
                scalar_hex(*r),
            ) == Err::<SignatureView, PixelError>(e),
    {
        if gens.1.len() < l as usize + 2 {
            return Err(PixelError::NotEnoughGenerators { n: l as usize + 2 });
        }
        let f = match calculate_path_factor_using_t_l(t, l, gens) {
            Ok(f) => f,
            Err(e) => {
                proof {
                    if is_node(t as nat, l as nat) {
                        lemma_path_of_is_path(t as nat, l as nat);
                    }
                }
                return Err(e);
            },
        };
        proof {
            lemma_path_of_is_path(t as nat, l as nat);
        }
        let m = scalar_from_msg_hash(msg);
        let bound = g1_add(&f, &g1_mul(&gens.1[l as usize + 1], &m));
        let e = sig_key.e();
        let last = &e[e.len() - 1];
        let sigma_1 = g1_add(&g1_add(sig_key.d(), &g1_mul(last, &m)), &g1_mul(&bound, r));
        let sigma_2 = g2_add(sig_key.c(), &g2_mul(&gens.0, r));
        Ok(Signature { sigma_1, sigma_2 })
    }

    /// The signature of the key of period `t` on the message, blinded by a scalar
    /// drawn from `rng`, so that two signatures of one message cannot be linked. It
    /// fails as `new_deterministic` does, whatever is drawn.
    pub fn new(
        msg: &[u8],
        t: u128,
        l: u8,
        gens: &GeneratorSet,
        sig_key: &Sigkey,
        rng: &mut ThreadRng,
    ) -> (res: Result<Signature, PixelError>)
        requires
            sig_key.wf(),
        ensures
            res matches Ok(sig) ==> exists|r: Seq<char>|
                Self::spec_new_deterministic(msg@, t, l, gens@, sig_key@, r) == Ok::<
                    SignatureView,
                    PixelError,
                >(sig@),
            res matches Err(e) ==> forall|r: Seq<char>|
                Self::spec_new_deterministic(msg@, t, l, gens@, sig_key@, r) == Err::<
                    SignatureView,
                    PixelError,
                >(e),
    {
        let r = scalar_random(rng);
        Self::new_deterministic(msg, t, l, gens, sig_key, &r)
    }

    /// Whether one of the two points is the identity.
    pub fn is_identity(&self) -> (r: bool)
        ensures
            r == degenerate(self@.sigma_1, self@.sigma_2),
    {
        g1_is_identity(&self.sigma_1) || g2_is_identity(&self.sigma_2)
    }

    /// Whether both points lie in the subgroups of the scheme.
    pub fn has_correct_order(&self) -> (r: bool)
        ensures
            r == in_subgroups(self@.sigma_1, self@.sigma_2),
    {
        g1_has_correct_order(&self.sigma_1) && g2_has_correct_order(&self.sigma_2)
    }

    /// The two points in writing, each `infinity` or its affine coordinates in
    /// hexadecimal.
    pub fn to_hex(&self) -> (r: (String, String))
        ensures
            r.0@ == self@.sigma_1,
            r.1@ == self@.sigma_2,
    {
        (g1_to_hex(&self.sigma_1), g2_to_hex(&self.sigma_2))
    }

    /// Verifies the signature on the message at period `t` under a verification
    /// key. A signature or key that is the identity, and a signature outside the
    /// subgroups, is answered with `false`; so is one that fails the pairing
    /// equation. Only a generator set shorter than `l + 2`, and a `t` that is no
    /// period of the tree of depth `l`, are errors.
    pub fn verify(
        &self,
        msg: &[u8],
        t: u128,
        l: u8,
        gens: &GeneratorSet,
        verkey: &Verkey,
    ) -> (r: Result<bool, PixelError>)
        ensures
            r == self.spec_verify(msg@, t, l, gens@, verkey@),
    {
        if self.is_identity() || verkey.is_identity() || !self.has_correct_order() {
            return Ok(false);
        }
        pairing_equation(&self.sigma_1, &self.sigma_2, &verkey.value, msg, t, l, gens)
    }

    /// Verifies two points as a signature on the message at period `t` under a point
    /// of G2 as the key. It answers as `verify` does, but for the key, which it takes
    /// as it is.
    pub fn verify_naked(
        sigma_1: &G1,
        sigma_2: &G2,
        verkey: &G2,
        msg: &[u8],
        t: u128,
        l: u8,
        gens: &GeneratorSet,
    ) -> (r: Result<bool, PixelError>)
        ensures
            r == Self::spec_verify_naked(
                g1_hex(*sigma_1),
                g2_hex(*sigma_2),
                g2_hex(*verkey),
                msg@,
                t,
                l,
                gens@,
            ),
    {
        if g1_is_identity(sigma_1) || g2_is_identity(sigma_2) {
            return Ok(false);
        }
        if !(g1_has_correct_order(sigma_1) && g2_has_correct_order(sigma_2)) {
            return Ok(false);
        }
        pairing_equation(sigma_1, sigma_2, verkey, msg, t, l, gens)
    }
}

/// With a generator set of `l + 2` generators or more and a period of the tree of
/// depth `l`, a verification is never an error: points that are no signature on the
/// message at the period under the key are answered with `false`.
pub proof fn verification_is_no_error(
    sigma_1: Seq<char>,
    sigma_2: Seq<char>,
    verkey: Seq<char>,
    msg: Seq<u8>,
    t: u128,
    l: u8,
    gens: GeneratorSetView,
)
    requires
        gens.h.len() >= l + 2,
        is_node(t as nat, l as nat),
    ensures
        verified(sigma_1, sigma_2, verkey, msg, t, l, gens) is Ok,
        Signature::spec_verify_naked(sigma_1, sigma_2, verkey, msg, t, l, gens) is Ok,
{
}

/// With a generator set of `l + 2` generators or more and a period of the tree of
/// depth `l`, signing succeeds for every message, key and blinding scalar.
pub proof fn signing_is_no_error(
    msg: Seq<u8>,
    t: u128,
    l: u8,
    gens: GeneratorSetView,
    key: SigkeyView,
    r: Seq<char>,
)
    requires
        gens.h.len() >= l + 2,
        is_node(t as nat, l as nat),
    ensures
        Signature::spec_new_deterministic(msg, t, l, gens, key, r) is Ok,
{
}

} // verus!
