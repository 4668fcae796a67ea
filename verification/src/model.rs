//! A reading of the algebra as a pairing of two groups of one order, what it means in
//! such a reading that a key or a signature belongs to a secret, and how keys and
//! signatures keep belonging to it as they are derived, signed and added up.

use vstd::prelude::*;
use vstd::arithmetic::div_mod::{lemma_add_mod_noop, lemma_mul_mod_noop, lemma_sub_mod_noop};
use vstd::arithmetic::power2::pow2;
use crate::aggregate_signature::{aggregate_of, first_points, g2_sum, second_points};
use crate::algebra::{
    g1_from_hash, g1_in_subgroup, g1_plus, g1_times, g2_from_hash, g2_in_subgroup, g2_negated,
    g2_plus, g2_times, infinity, scalar_from_hash,
};
use crate::descent::{descend, lemma_fits_levels, lemma_step_tiled, tiled, PendingKeyView};
use crate::keys::{derived_key, initial_key, GeneratorSetView, SigkeySetView, SigkeyView};
use crate::signature::{bound_factor, in_subgroups, product_is_unit, signed, SignatureView};
use crate::util::{lemma_path_of_is_path, path_factor, path_of, stepped, subtree_end};

verus! {

/// A reading of the algebra as a pairing of two groups of order `q`: each point of
/// the subgroups of G1 and of G2 has a logarithm to a base of its subgroup, each
/// scalar a value, and all of them count modulo `q`.
pub struct Model {
    pub q: int,
    pub log1: spec_fn(Seq<char>) -> int,
    pub log2: spec_fn(Seq<char>) -> int,
    pub val: spec_fn(Seq<char>) -> int,
}

/// Whether `a` and `b` are congruent modulo `q`.
pub open spec fn eqm(q: int, a: int, b: int) -> bool {
    a % q == b % q
}

impl Model {
    /// The laws of the reading. The identity lies in both subgroups and has the
    /// logarithm zero. Sums, multiples and inverses of points of a subgroup lie in it;
    /// a sum adds the logarithms, a multiple multiplies the logarithm by the value of
    /// the scalar, an inverse negates it. What a byte string is hashed to lies in the
    /// subgroup. A product of pairings of points of the subgroups is the unit exactly
    /// when the products of the logarithms of its couples sum to zero.
    pub open spec fn laws(self) -> bool {
        &&& self.q > 0
        &&& g1_in_subgroup(infinity()) && eqm(self.q, (self.log1)(infinity()), 0)
        &&& g2_in_subgroup(infinity()) && eqm(self.q, (self.log2)(infinity()), 0)
        &&& forall|a: Seq<char>, b: Seq<char>|
            g1_in_subgroup(a) && g1_in_subgroup(b) ==> g1_in_subgroup(#[trigger] g1_plus(a, b))
                && eqm(self.q, (self.log1)(g1_plus(a, b)), (self.log1)(a) + (self.log1)(b))
        &&& forall|a: Seq<char>, b: Seq<char>|
            g2_in_subgroup(a) && g2_in_subgroup(b) ==> g2_in_subgroup(#[trigger] g2_plus(a, b))
                && eqm(self.q, (self.log2)(g2_plus(a, b)), (self.log2)(a) + (self.log2)(b))
        &&& forall|p: Seq<char>, s: Seq<char>|
            g1_in_subgroup(p) ==> g1_in_subgroup(#[trigger] g1_times(p, s)) && eqm(
                self.q,
                (self.log1)(g1_times(p, s)),
                (self.val)(s) * (self.log1)(p),
            )
        &&& forall|p: Seq<char>, s: Seq<char>|
            g2_in_subgroup(p) ==> g2_in_subgroup(#[trigger] g2_times(p, s)) && eqm(
                self.q,
                (self.log2)(g2_times(p, s)),
                (self.val)(s) * (self.log2)(p),
            )
        &&& forall|p: Seq<char>|
            g2_in_subgroup(p) ==> g2_in_subgroup(#[trigger] g2_negated(p)) && eqm(
                self.q,
                (self.log2)(g2_negated(p)),
                -(self.log2)(p),
            )
        &&& forall|msg: Seq<u8>| g1_in_subgroup(#[trigger] g1_from_hash(msg))
        &&& forall|msg: Seq<u8>| g2_in_subgroup(#[trigger] g2_from_hash(msg))
        &&& forall|
            a1: Seq<char>,
            a2: Seq<char>,
            b1: Seq<char>,
            b2: Seq<char>,
            c1: Seq<char>,
            c2: Seq<char>,
        |
            g1_in_subgroup(a1) && g2_in_subgroup(a2) && g1_in_subgroup(b1) && g2_in_subgroup(b2)
                && g1_in_subgroup(c1) && g2_in_subgroup(c2) ==> #[trigger] product_is_unit(
                a1,
                a2,
                b1,
                b2,
                c1,
                c2,
            ) == eqm(
                self.q,
                (self.log1)(a1) * (self.log2)(a2) + (self.log1)(b1) * (self.log2)(b2) + (
                self.log1)(c1) * (self.log2)(c2),
                0,
            )
    }

    /// The further laws of a reading that tells points apart: `q` is prime, so that a
    /// product counts as zero only where a factor does, and two points of a subgroup
    /// with one logarithm are one point.
    pub open spec fn faithful(self) -> bool {
        &&& forall|a: int, b: int| #[trigger]
            vanishes(self.q, a, b) ==> eqm(self.q, a, 0) || eqm(self.q, b, 0)
        &&& forall|a: Seq<char>, b: Seq<char>|
            g1_in_subgroup(a) && g1_in_subgroup(b) && #[trigger] same_log1(self, a, b) ==> a == b
        &&& forall|a: Seq<char>, b: Seq<char>|
            g2_in_subgroup(a) && g2_in_subgroup(b) && #[trigger] same_log2(self, a, b) ==> a == b
    }

    /// The logarithm of the base of G1 that is paired with verification keys.
    pub open spec fn base(self, gens: GeneratorSetView) -> int {
        (self.log1)(gens.h[0])
    }

    /// The logarithm of the generator of G2.
    pub open spec fn generator(self, gens: GeneratorSetView) -> int {
        (self.log2)(gens.g2)
    }
}

/// Whether the product of `a` and `b` counts as zero modulo `q`.
pub open spec fn vanishes(q: int, a: int, b: int) -> bool {
    eqm(q, a * b, 0)
}

/// Whether two points of G1 have one logarithm.
pub open spec fn same_log1(m: Model, a: Seq<char>, b: Seq<char>) -> bool {
    eqm(m.q, (m.log1)(a), (m.log1)(b))
}

/// Whether two points of G2 have one logarithm.
pub open spec fn same_log2(m: Model, a: Seq<char>, b: Seq<char>) -> bool {
    eqm(m.q, (m.log2)(a), (m.log2)(b))
}

/// Whether all generators of a set lie in their subgroups.
pub open spec fn generators_in_subgroups(gens: GeneratorSetView) -> bool {
    &&& g2_in_subgroup(gens.g2)
    &&& forall|i: int| 0 <= i < gens.h.len() ==> g1_in_subgroup(#[trigger] gens.h[i])
}

/// Whether a verification key is, in the reading, the key of the secret `x`: a point
/// of the subgroup with the logarithm of `x` times the generator of G2.
pub open spec fn key_of_secret(
    m: Model,
    verkey: Seq<char>,
    x: int,
    gens: GeneratorSetView,
) -> bool {
    g2_in_subgroup(verkey) && eqm(m.q, (m.log2)(verkey), x * m.generator(gens))
}

/// Whether a signature is, in the reading, one of the secret `x` with the blinding
/// `r` over the bound factor `bound`: its points lie in the subgroups, the first has
/// the logarithm of `x` times the base plus `r` times the bound factor, the second
/// that of `r` times the generator of G2.
pub open spec fn signature_blinded_by(
    m: Model,
    sig: SignatureView,
    x: int,
    bound: Seq<char>,
    r: int,
    gens: GeneratorSetView,
) -> bool {
    &&& in_subgroups(sig.sigma_1, sig.sigma_2)
    &&& eqm(m.q, (m.log1)(sig.sigma_1), x * m.base(gens) + r * (m.log1)(bound))
    &&& eqm(m.q, (m.log2)(sig.sigma_2), r * m.generator(gens))
}

/// Whether a signature is one of the secret `x` over the bound factor `bound`,
/// whatever its blinding.
pub open spec fn genuine_signature(
    m: Model,
    sig: SignatureView,
    x: int,
    bound: Seq<char>,
    gens: GeneratorSetView,
) -> bool {
    exists|r: int| #[trigger] signature_blinded_by(m, sig, x, bound, r, gens)
}

/// Whether a key is, in the reading, the key of the secret `x` with the blinding `r`
/// for the node with path factor `f`: its points lie in the subgroups, its component
/// in G2 has the logarithm of `r` times the generator, its signing component that of
/// `x` times the base plus `r` times the path factor, and each further component
/// that of `r` times the generator of its level.
pub open spec fn key_blinded_by(
    m: Model,
    key: SigkeyView,
    f: Seq<char>,
    x: int,
    r: int,
    gens: GeneratorSetView,
    l: nat,
) -> bool {
    &&& g2_in_subgroup(key.c) && eqm(m.q, (m.log2)(key.c), r * m.generator(gens))
    &&& g1_in_subgroup(key.d) && eqm(m.q, (m.log1)(key.d), x * m.base(gens) + r * (m.log1)(f))
    &&& forall|j: int|
        0 <= j < key.e.len() ==> g1_in_subgroup(#[trigger] key.e[j]) && eqm(
            m.q,
            (m.log1)(key.e[j]),
            r * (m.log1)(gens.h[l - key.e.len() + 2 + j]),
        )
}

/// Whether a key is the key of the secret `x` for the node with path factor `f`,
/// whatever its blinding.
pub open spec fn genuine_key(
    m: Model,
    key: SigkeyView,
    f: Seq<char>,
    x: int,
    gens: GeneratorSetView,
    l: nat,
) -> bool {
    exists|r: int| #[trigger] key_blinded_by(m, key, f, x, r, gens, l)
}

/// Whether each pending key is a key of the secret `x` for its own node.
pub open spec fn genuine_pending(
    m: Model,
    pending: Seq<PendingKeyView>,
    x: int,
    gens: GeneratorSetView,
    l: nat,
) -> bool {
    forall|i: int|
        0 <= i < pending.len() ==> genuine_key(
            m,
            (#[trigger] pending[i]).key,
            path_factor(path_of(pending[i].node, l), gens.h),
            x,
            gens,
            l,
        )
}

/// Whether every key of a key set is a key of the secret `x` for its own node.
pub open spec fn genuine_set(m: Model, set: SigkeySetView, x: int, gens: GeneratorSetView) -> bool {
    &&& genuine_key(m, set.current, path_factor(path_of(set.t, set.l), gens.h), x, gens, set.l)
    &&& genuine_pending(m, set.pending, x, gens, set.l)
}

/// The bound factor of a message at a period.
pub open spec fn bound_factor_of(
    msg: Seq<u8>,
    t: u128,
    l: u8,
    gens: GeneratorSetView,
) -> Seq<char> {
    bound_factor(
        path_factor(path_of(t as nat, l as nat), gens.h),
        scalar_from_hash(msg),
        gens,
        l as nat,
    )
}

/// The sum of a sequence of integers.
pub open spec fn sum_of(xs: Seq<int>) -> int
    decreases xs.len(),
{
    if xs.len() == 0 {
        0
    } else {
        sum_of(xs.drop_last()) + xs.last()
    }
}

/// Sums of congruent numbers are congruent.
pub proof fn lemma_congruent_sum(q: int, a: int, a2: int, b: int, b2: int)
    requires
        q > 0,
        eqm(q, a, a2),
        eqm(q, b, b2),
    ensures
        eqm(q, a + b, a2 + b2),
{
    lemma_add_mod_noop(a, b, q);
    lemma_add_mod_noop(a2, b2, q);
}

/// Products of congruent numbers are congruent.
pub proof fn lemma_congruent_product(q: int, a: int, a2: int, b: int, b2: int)
    requires
        q > 0,
        eqm(q, a, a2),
        eqm(q, b, b2),
    ensures
        eqm(q, a * b, a2 * b2),
{
    lemma_mul_mod_noop(a, b, q);
    lemma_mul_mod_noop(a2, b2, q);
}

/// Differences of congruent numbers are congruent.
pub proof fn lemma_congruent_difference(q: int, a: int, a2: int, b: int, b2: int)
    requires
        q > 0,
        eqm(q, a, a2),
        eqm(q, b, b2),
    ensures
        eqm(q, a - b, a2 - b2),
{
    lemma_sub_mod_noop(a, b, q);
    lemma_sub_mod_noop(a2, b2, q);
}

/// A point of the subgroup moved one step down the tree stays in the subgroup, and
/// its logarithm grows by that of the generator of the level, once or twice.
pub proof fn lemma_stepped(m: Model, acc: Seq<char>, level: Seq<char>, step: u8)
    requires
        m.laws(),
        g1_in_subgroup(acc),
        g1_in_subgroup(level),
        step == 1 || step == 2,
    ensures
        g1_in_subgroup(stepped(acc, level, step)),
        eqm(m.q, (m.log1)(stepped(acc, level, step)), (m.log1)(acc) + step * (m.log1)(level)),
{
    let once = g1_plus(acc, level);
    if step == 2 {
        lemma_congruent_sum(
            m.q,
            (m.log1)(once),
            (m.log1)(acc) + (m.log1)(level),
            (m.log1)(level),
            (m.log1)(level),
        );
    }
}

/// The path factor of a path over generators of the subgroup lies in the subgroup.
pub proof fn lemma_path_factor_in_subgroup(m: Model, path: Seq<u8>, gens: GeneratorSetView)
    requires
        m.laws(),
        generators_in_subgroups(gens),
        path.len() + 2 <= gens.h.len(),
        forall|i: int| 0 <= i < path.len() ==> path[i] == 1 || path[i] == 2,
    ensures
        g1_in_subgroup(path_factor(path, gens.h)),
    decreases path.len(),
{
    if path.len() > 0 {
        lemma_path_factor_in_subgroup(m, path.drop_last(), gens);
        lemma_stepped(
            m,
            path_factor(path.drop_last(), gens.h),
            gens.h[path.len() as int + 1],
            path.last(),
        );
    }
}

/// The path factor of a path with one step more is the path factor of the path,
/// moved that step down with the generator of the level.
pub proof fn lemma_path_factor_of_child(path: Seq<u8>, step: u8, h: Seq<Seq<char>>)
    ensures
        path_factor(path.push(step), h) == stepped(
            path_factor(path, h),
            h[path.len() as int + 2],
            step,
        ),
{
    assert(path.push(step).drop_last() =~= path);
}

/// The sum that the pairing equation tests, in logarithms: the products of the
/// logarithms of its three couples. The equation holds where it counts as zero.
pub open spec fn equation_sum(
    m: Model,
    sig: SignatureView,
    verkey: Seq<char>,
    bound: Seq<char>,
    gens: GeneratorSetView,
) -> int {
    (m.log1)(sig.sigma_1) * (m.log2)(g2_negated(gens.g2)) + m.base(gens) * (m.log2)(verkey) + (
    m.log1)(bound) * (m.log2)(sig.sigma_2)
}

/// The sums that the pairing equation tests for each signature under the key at its
/// index, all with one bound factor.
pub open spec fn equation_sums(
    m: Model,
    sigs: Seq<SignatureView>,
    keys: Seq<Seq<char>>,
    bound: Seq<char>,
    gens: GeneratorSetView,
) -> Seq<int> {
    Seq::new(sigs.len(), |i: int| equation_sum(m, sigs[i], keys[i], bound, gens))
}

/// For a signature of the secret `x` over the bound factor `signed`, under the key
/// of `x`, the sum that the equation tests with the bound factor `tested` is the
/// difference of the logarithms of the two bound factors, times the logarithm of the
/// second point.
pub proof fn lemma_equation_sum_of_blinded(
    m: Model,
    sig: SignatureView,
    verkey: Seq<char>,
    x: int,
    signed: Seq<char>,
    tested: Seq<char>,
    r: int,
    gens: GeneratorSetView,
)
    requires
        m.laws(),
        generators_in_subgroups(gens),
        gens.h.len() >= 1,
        signature_blinded_by(m, sig, x, signed, r, gens),
        key_of_secret(m, verkey, x, gens),
    ensures
        eqm(
            m.q,
            equation_sum(m, sig, verkey, tested, gens),
            ((m.log1)(tested) - (m.log1)(signed)) * (m.log2)(sig.sigma_2),
        ),
{
    let q = m.q;
    let g = m.generator(gens);
    let h = m.base(gens);
    let b = (m.log1)(signed);
    let b2 = (m.log1)(tested);
    let s1 = (m.log1)(sig.sigma_1);
    let s2 = (m.log2)(sig.sigma_2);
    let vk = (m.log2)(verkey);
    let neg = (m.log2)(g2_negated(gens.g2));
    lemma_congruent_product(q, s1, x * h + r * b, neg, -g);
    lemma_congruent_product(q, h, h, vk, x * g);
    lemma_congruent_product(q, b, b, s2, r * g);
    lemma_congruent_sum(q, s1 * neg, (x * h + r * b) * (-g), h * vk, h * (x * g));
    assert((x * h + r * b) * (-g) + h * (x * g) == 0 - b * (r * g)) by (nonlinear_arith);
    lemma_congruent_difference(q, 0, 0, b * (r * g), b * s2);
    assert(eqm(q, s1 * neg + h * vk, 0 - b * s2));
    lemma_congruent_sum(q, s1 * neg + h * vk, 0 - b * s2, b2 * s2, b2 * s2);
    assert(0 - b * s2 + b2 * s2 == (b2 - b) * s2) by (nonlinear_arith);
}

/// A signature of the secret `x` over a bound factor satisfies the pairing equation
/// under the key of `x`.
pub proof fn lemma_blinded_signature_satisfies_equation(
    m: Model,
    sig: SignatureView,
    verkey: Seq<char>,
    x: int,
    bound: Seq<char>,
    r: int,
    gens: GeneratorSetView,
)
    requires
        m.laws(),
        generators_in_subgroups(gens),
        gens.h.len() >= 1,
        g1_in_subgroup(bound),
        signature_blinded_by(m, sig, x, bound, r, gens),
        key_of_secret(m, verkey, x, gens),
    ensures
        product_is_unit(sig.sigma_1, g2_negated(gens.g2), gens.h[0], verkey, bound, sig.sigma_2),
{
    let b = (m.log1)(bound);
    let s2 = (m.log2)(sig.sigma_2);
    assert(g1_in_subgroup(gens.h[0]));
    lemma_equation_sum_of_blinded(m, sig, verkey, x, bound, bound, r, gens);
    assert((b - b) * s2 == 0) by (nonlinear_arith);
    assert(product_is_unit(
        sig.sigma_1,
        g2_negated(gens.g2),
        gens.h[0],
        verkey,
        bound,
        sig.sigma_2,
    ) == eqm(m.q, equation_sum(m, sig, verkey, bound, gens), 0));
}

/// The logarithms of the signature that a key makes with a path factor `f`, where
/// the key is one of the secret `x` with the blinding `r` for a node with the path
/// factor `own`, which may be another than `f`.
pub proof fn lemma_signed_logarithms(
    m: Model,
    key: SigkeyView,
    own: Seq<char>,
    f: Seq<char>,
    msg: Seq<char>,
    gens: GeneratorSetView,
    l: nat,
    s: Seq<char>,
    x: int,
    r: int,
)
    requires
        m.laws(),
        generators_in_subgroups(gens),
        g1_in_subgroup(f),
        key_blinded_by(m, key, own, x, r, gens, l),
        1 <= key.e.len() <= l,
        gens.h.len() >= l + 2,
    ensures
        g1_in_subgroup(bound_factor(f, msg, gens, l)),
        in_subgroups(
            signed(key, f, msg, gens, l, s).sigma_1,
            signed(key, f, msg, gens, l, s).sigma_2,
        ),
        eqm(
            m.q,
            (m.log1)(bound_factor(f, msg, gens, l)),
            (m.log1)(f) + (m.val)(msg) * (m.log1)(gens.h[l as int + 1]),
        ),
        eqm(
            m.q,
            (m.log1)(signed(key, f, msg, gens, l, s).sigma_1),
            x * m.base(gens) + r * (m.log1)(own) + (m.val)(msg) * (r * (m.log1)(
                gens.h[l as int + 1],
            )) + (m.val)(s) * (m.log1)(bound_factor(f, msg, gens, l)),
        ),
        eqm(
            m.q,
            (m.log2)(signed(key, f, msg, gens, l, s).sigma_2),
            (r + (m.val)(s)) * m.generator(gens),
        ),
{
    let q = m.q;
    let g = m.generator(gens);
    let h = m.base(gens);
    let vs = (m.val)(s);
    let vm = (m.val)(msg);
    let last = key.e.last();
    let top = gens.h[l as int + 1];
    let bound = bound_factor(f, msg, gens, l);
    let lo = (m.log1)(own);
    let lf = (m.log1)(f);
    let lt = (m.log1)(top);
    let lb = (m.log1)(bound);
    let ld = (m.log1)(key.d);
    let ll = (m.log1)(last);
    // the second point
    lemma_congruent_sum(q, (m.log2)(key.c), r * g, (m.log2)(g2_times(gens.g2, s)), vs * g);
    assert(r * g + vs * g == (r + vs) * g) by (nonlinear_arith);
    // the bound factor
    assert(g1_in_subgroup(top));
    lemma_congruent_sum(q, lf, lf, (m.log1)(g1_times(top, msg)), vm * lt);
    // the last component of the key
    assert(key.e[key.e.len() - 1] == last);
    assert(eqm(q, ll, r * lt));
    // the first point
    let lm = g1_times(last, msg);
    let inner = g1_plus(key.d, lm);
    lemma_congruent_product(q, vm, vm, ll, r * lt);
    lemma_congruent_sum(q, ld, x * h + r * lo, (m.log1)(lm), vm * ll);
    lemma_congruent_sum(q, x * h + r * lo, x * h + r * lo, vm * ll, vm * (r * lt));
    assert(eqm(q, (m.log1)(inner), x * h + r * lo + vm * (r * lt)));
    lemma_congruent_sum(
        q,
        (m.log1)(inner),
        x * h + r * lo + vm * (r * lt),
        (m.log1)(g1_times(bound, s)),
        vs * lb,
    );
}

/// The signature that a key of the secret `x` makes at its own period is a signature
/// of `x` over the bound factor of the message, with the blinding of the key plus
/// the new one.
pub proof fn lemma_signed_is_blinded(
    m: Model,
    key: SigkeyView,
    f: Seq<char>,
    msg: Seq<char>,
    gens: GeneratorSetView,
    l: nat,
    s: Seq<char>,
    x: int,
    r: int,
)
    requires
        m.laws(),
        generators_in_subgroups(gens),
        g1_in_subgroup(f),
        key_blinded_by(m, key, f, x, r, gens, l),
        1 <= key.e.len() <= l,
        gens.h.len() >= l + 2,
    ensures
        g1_in_subgroup(bound_factor(f, msg, gens, l)),
        signature_blinded_by(
            m,
            signed(key, f, msg, gens, l, s),
            x,
            bound_factor(f, msg, gens, l),
            r + (m.val)(s),
            gens,
        ),
{
    let q = m.q;
    let h = m.base(gens);
    let vs = (m.val)(s);
    let vm = (m.val)(msg);
    let lf = (m.log1)(f);
    let lt = (m.log1)(gens.h[l as int + 1]);
    let lb = (m.log1)(bound_factor(f, msg, gens, l));
    lemma_signed_logarithms(m, key, f, f, msg, gens, l, s, x, r);
    lemma_congruent_product(q, r, r, lb, lf + vm * lt);
    lemma_congruent_sum(q, x * h + vs * lb, x * h + vs * lb, r * lb, r * (lf + vm * lt));
    assert(x * h + vs * lb + r * (lf + vm * lt) == x * h + r * lf + vm * (r * lt) + vs * lb)
        by (nonlinear_arith);
    assert(x * h + vs * lb + r * lb == x * h + (r + vs) * lb) by (nonlinear_arith);
}

/// The key of the root is a key of the value of the master secret, blinded by the
/// value of its scalar.
pub proof fn lemma_initial_key_is_blinded(
    m: Model,
    gens: GeneratorSetView,
    l: nat,
    x: Seq<char>,
    r: Seq<char>,
)
    requires
        m.laws(),
        generators_in_subgroups(gens),
        gens.h.len() >= l + 2,
    ensures
        key_blinded_by(
            m,
            initial_key(gens, l, x, r),
            gens.h[1],
            (m.val)(x),
            (m.val)(r),
            gens,
            l,
        ),
{
    let q = m.q;
    let key = initial_key(gens, l, x, r);
    let a = g1_times(gens.h[0], x);
    let b = g1_times(gens.h[1], r);
    assert(g1_in_subgroup(gens.h[0]) && g1_in_subgroup(gens.h[1]));
    lemma_congruent_sum(
        q,
        (m.log1)(a),
        (m.val)(x) * m.base(gens),
        (m.log1)(b),
        (m.val)(r) * (m.log1)(gens.h[1]),
    );
    assert forall|j: int| 0 <= j < key.e.len() implies g1_in_subgroup(#[trigger] key.e[j]) && eqm(
        q,
        (m.log1)(key.e[j]),
        (m.val)(r) * (m.log1)(gens.h[l - key.e.len() + 2 + j]),
    ) by {
        assert(g1_in_subgroup(gens.h[j + 2]));
        assert(key.e[j] == g1_times(gens.h[j + 2], r));
    }
}

/// The key derived for a child is a key of the same secret for the child, with the
/// blinding of the parent plus the new one.
pub proof fn lemma_derived_key_is_blinded(
    m: Model,
    parent: SigkeyView,
    step: u8,
    f: Seq<char>,
    gens: GeneratorSetView,
    l: nat,
    s: Seq<char>,
    x: int,
    r: int,
)
    requires
        m.laws(),
        generators_in_subgroups(gens),
        g1_in_subgroup(f),
        key_blinded_by(m, parent, f, x, r, gens, l),
        2 <= parent.e.len() <= l,
        gens.h.len() >= l + 2,
        step == 1 || step == 2,
    ensures
        g1_in_subgroup(stepped(f, gens.h[l - parent.e.len() + 2], step)),
        key_blinded_by(
            m,
            derived_key(
                parent,
                step,
                stepped(f, gens.h[l - parent.e.len() + 2], step),
                gens,
                l,
                s,
            ),
            stepped(f, gens.h[l - parent.e.len() + 2], step),
            x,
            r + (m.val)(s),
            gens,
            l,
        ),
{
    let q = m.q;
    let g = m.generator(gens);
    let h = m.base(gens);
    let vs = (m.val)(s);
    let n = parent.e.len();
    let level = gens.h[l - n + 2];
    let fc = stepped(f, level, step);
    let child = derived_key(parent, step, fc, gens, l, s);
    let ll = (m.log1)(level);
    let lf = (m.log1)(f);
    let lfc = (m.log1)(fc);
    let ld = (m.log1)(parent.d);
    let e0 = parent.e[0];
    let le0 = (m.log1)(e0);
    let st = step as int;
    assert(g1_in_subgroup(level));
    // the component in G2
    lemma_congruent_sum(q, (m.log2)(parent.c), r * g, (m.log2)(g2_times(gens.g2, s)), vs * g);
    assert(r * g + vs * g == (r + vs) * g) by (nonlinear_arith);
    // the signing component
    lemma_stepped(m, f, level, step);
    assert(g1_in_subgroup(e0));
    lemma_stepped(m, parent.d, e0, step);
    assert(eqm(q, le0, r * ll));
    lemma_congruent_product(q, st, st, le0, r * ll);
    lemma_congruent_sum(q, ld, x * h + r * lf, st * le0, st * (r * ll));
    let sd = stepped(parent.d, e0, step);
    assert(eqm(q, (m.log1)(sd), x * h + r * lf + st * (r * ll)));
    let blind = g1_times(fc, s);
    lemma_congruent_sum(q, (m.log1)(sd), x * h + r * lf + st * (r * ll), (m.log1)(blind), vs * lfc);
    assert(eqm(q, (m.log1)(child.d), x * h + r * lf + st * (r * ll) + vs * lfc));
    lemma_congruent_product(q, r, r, lfc, lf + st * ll);
    lemma_congruent_sum(q, x * h + vs * lfc, x * h + vs * lfc, r * lfc, r * (lf + st * ll));
    assert(x * h + vs * lfc + r * (lf + st * ll) == x * h + r * lf + st * (r * ll) + vs * lfc)
        by (nonlinear_arith);
    assert(x * h + vs * lfc + r * lfc == x * h + (r + vs) * lfc) by (nonlinear_arith);
    // the components of the levels
    assert forall|j: int| 0 <= j < child.e.len() implies g1_in_subgroup(#[trigger] child.e[j])
        && eqm(q, (m.log1)(child.e[j]), (r + vs) * (m.log1)(gens.h[l - child.e.len() + 2 + j])) by {
        let gen = gens.h[l - n + 3 + j];
        let lg = (m.log1)(gen);
        let old = parent.e[j + 1];
        assert(g1_in_subgroup(gen));
        assert(g1_in_subgroup(old));
        assert(child.e[j] == g1_plus(old, g1_times(gen, s)));
        assert(eqm(q, (m.log1)(old), r * lg));
        lemma_congruent_sum(q, (m.log1)(old), r * lg, (m.log1)(g1_times(gen, s)), vs * lg);
        assert(r * lg + vs * lg == (r + vs) * lg) by (nonlinear_arith);
    }
}

/// A walk from a key of the secret `x` ends on a key of `x` for the period it
/// reaches, and the keys it opens are keys of `x` for their nodes.
pub proof fn lemma_descend_genuine(
    m: Model,
    key: SigkeyView,
    node: nat,
    opened: Seq<PendingKeyView>,
    t: nat,
    gens: GeneratorSetView,
    l: nat,
    scalars: Seq<Seq<char>>,
    i: nat,
    x: int,
)
    requires
        m.laws(),
        generators_in_subgroups(gens),
        tiled(l, node, key, opened),
        node <= t < subtree_end(node, key.e.len()),
        gens.h.len() >= l + 2,
        genuine_key(m, key, path_factor(path_of(node, l), gens.h), x, gens, l),
        genuine_pending(m, opened, x, gens, l),
    ensures
        ({
            let walk = descend(
                key,
                node,
                path_factor(path_of(node, l), gens.h),
                opened,
                t,
                gens,
                l,
                scalars,
                i,
            );
            genuine_key(m, walk.key, path_factor(path_of(t, l), gens.h), x, gens, l)
                && genuine_pending(m, walk.opened, x, gens, l)
        }),
    decreases key.e.len(),
{
    let n = key.e.len();
    if node < t {
        lemma_fits_levels(l, node, key);
        lemma_path_of_is_path(node, l);
        let path = path_of(node, l);
        lemma_path_factor_in_subgroup(m, path, gens);
        let f = path_factor(path, gens.h);
        let level = gens.h[l - n + 2];
        let right_node = node + pow2((n - 1) as nat);
        let f_right = stepped(f, level, 2);
        let f_left = stepped(f, level, 1);
        let right = derived_key(key, 2, f_right, gens, l, scalars[i as int]);
        let left = derived_key(key, 1, f_left, gens, l, scalars[i as int + 1]);
        lemma_step_tiled(key, node, opened, t, l, left, right);
        lemma_path_factor_of_child(path, 1, gens.h);
        lemma_path_factor_of_child(path, 2, gens.h);
        let r = choose|r: int| #[trigger] key_blinded_by(m, key, f, x, r, gens, l);
        lemma_derived_key_is_blinded(m, key, 2, f, gens, l, scalars[i as int], x, r);
        lemma_derived_key_is_blinded(m, key, 1, f, gens, l, scalars[i as int + 1], x, r);
        assert(key_blinded_by(m, right, f_right, x, r + (m.val)(scalars[i as int]), gens, l));
        assert(key_blinded_by(m, left, f_left, x, r + (m.val)(scalars[i as int + 1]), gens, l));
        if t < right_node {
            let grown = opened.push(PendingKeyView { node: right_node, key: right });
            assert forall|j: int| 0 <= j < grown.len() implies genuine_key(
                m,
                (#[trigger] grown[j]).key,
                path_factor(path_of(grown[j].node, l), gens.h),
                x,
                gens,
                l,
            ) by {
                if j < opened.len() {
                    assert(grown[j] == opened[j]);
                }
            }
            lemma_descend_genuine(m, left, node + 1, grown, t, gens, l, scalars, i + 2, x);
        } else {
            lemma_descend_genuine(m, right, right_node, opened, t, gens, l, scalars, i + 1, x);
        }
    }
}

/// The aggregate of signatures of the secrets `xs` over one bound factor is a
/// signature of the sum of the secrets over that bound factor.
pub proof fn lemma_aggregate_is_genuine(
    m: Model,
    sigs: Seq<SignatureView>,
    xs: Seq<int>,
    bound: Seq<char>,
    gens: GeneratorSetView,
)
    requires
        m.laws(),
        sigs.len() == xs.len(),
        forall|i: int|
            0 <= i < sigs.len() ==> genuine_signature(m, #[trigger] sigs[i], xs[i], bound, gens),
    ensures
        genuine_signature(m, aggregate_of(sigs), sum_of(xs), bound, gens),
    decreases sigs.len(),
{
    let q = m.q;
    let h = m.base(gens);
    let g = m.generator(gens);
    let b = (m.log1)(bound);
    if sigs.len() == 0 {
        assert(0 * h + 0 * b == 0 && 0 * g == 0) by (nonlinear_arith);
        assert(signature_blinded_by(m, aggregate_of(sigs), sum_of(xs), bound, 0, gens));
    } else {
        let front = sigs.drop_last();
        let last = sigs.last();
        let xf = sum_of(xs.drop_last());
        let xl = xs.last();
        assert forall|i: int| 0 <= i < front.len() implies genuine_signature(
            m,
            #[trigger] front[i],
            xs.drop_last()[i],
            bound,
            gens,
        ) by {
            assert(front[i] == sigs[i]);
        }
        lemma_aggregate_is_genuine(m, front, xs.drop_last(), bound, gens);
        let part = aggregate_of(front);
        let rf = choose|r: int| #[trigger] signature_blinded_by(m, part, xf, bound, r, gens);
        assert(genuine_signature(m, sigs[sigs.len() - 1], xs[sigs.len() - 1], bound, gens));
        let rl = choose|r: int| #[trigger] signature_blinded_by(m, last, xl, bound, r, gens);
        assert(first_points(sigs).drop_last() =~= first_points(front));
        assert(second_points(sigs).drop_last() =~= second_points(front));
        let all = aggregate_of(sigs);
        assert(all.sigma_1 == g1_plus(part.sigma_1, last.sigma_1));
        assert(all.sigma_2 == g2_plus(part.sigma_2, last.sigma_2));
        lemma_congruent_sum(
            q,
            (m.log1)(part.sigma_1),
            xf * h + rf * b,
            (m.log1)(last.sigma_1),
            xl * h + rl * b,
        );
        lemma_congruent_sum(q, (m.log2)(part.sigma_2), rf * g, (m.log2)(last.sigma_2), rl * g);
        assert(xf * h + rf * b + (xl * h + rl * b) == (xf + xl) * h + (rf + rl) * b)
            by (nonlinear_arith);
        assert(rf * g + rl * g == (rf + rl) * g) by (nonlinear_arith);
        assert(signature_blinded_by(m, all, sum_of(xs), bound, rf + rl, gens));
    }
}

/// The aggregate of the keys of the secrets `xs` is the key of the sum of the
/// secrets.
pub proof fn lemma_aggregated_verkey_is_key_of_sum(
    m: Model,
    keys: Seq<Seq<char>>,
    xs: Seq<int>,
    gens: GeneratorSetView,
)
    requires
        m.laws(),
        keys.len() == xs.len(),
        forall|i: int| 0 <= i < keys.len() ==> key_of_secret(m, #[trigger] keys[i], xs[i], gens),
    ensures
        key_of_secret(m, g2_sum(keys), sum_of(xs), gens),
    decreases keys.len(),
{
    let q = m.q;
    let g = m.generator(gens);
    if keys.len() == 0 {
        assert(0 * g == 0) by (nonlinear_arith);
    } else {
        let front = keys.drop_last();
        let xf = sum_of(xs.drop_last());
        let xl = xs.last();
        assert forall|i: int| 0 <= i < front.len() implies key_of_secret(
            m,
            #[trigger] front[i],
            xs.drop_last()[i],
            gens,
        ) by {
            assert(front[i] == keys[i]);
        }
        lemma_aggregated_verkey_is_key_of_sum(m, front, xs.drop_last(), gens);
        assert(key_of_secret(m, keys[keys.len() - 1], xs[keys.len() - 1], gens));
        assert(g2_sum(keys) == g2_plus(g2_sum(front), keys.last()));
        lemma_congruent_sum(q, (m.log2)(g2_sum(front)), xf * g, (m.log2)(keys.last()), xl * g);
        assert(xf * g + xl * g == (xf + xl) * g) by (nonlinear_arith);
    }
}

/// A sum of numbers that all count as zero counts as zero.
pub proof fn lemma_sum_of_zeros(q: int, xs: Seq<int>)
    requires
        q > 0,
        forall|i: int| 0 <= i < xs.len() ==> eqm(q, #[trigger] xs[i], 0),
    ensures
        eqm(q, sum_of(xs), 0),
    decreases xs.len(),
{
    if xs.len() > 0 {
        let front = xs.drop_last();
        assert forall|i: int| 0 <= i < front.len() implies eqm(q, #[trigger] front[i], 0) by {
            assert(front[i] == xs[i]);
        }
        lemma_sum_of_zeros(q, front);
        assert(eqm(q, xs[xs.len() - 1], 0));
        lemma_congruent_sum(q, sum_of(front), 0, xs.last(), 0);
    }
}

/// A sum of numbers that all count as zero but the one at index `k` counts as that
/// one.
pub proof fn lemma_sum_with_one_term(q: int, xs: Seq<int>, k: int)
    requires
        q > 0,
        0 <= k < xs.len(),
        forall|i: int| 0 <= i < xs.len() && i != k ==> eqm(q, #[trigger] xs[i], 0),
    ensures
        eqm(q, sum_of(xs), xs[k]),
    decreases xs.len(),
{
    let front = xs.drop_last();
    if k == xs.len() - 1 {
        assert forall|i: int| 0 <= i < front.len() implies eqm(q, #[trigger] front[i], 0) by {
            assert(front[i] == xs[i]);
        }
        lemma_sum_of_zeros(q, front);
        lemma_congruent_sum(q, sum_of(front), 0, xs.last(), xs.last());
    } else {
        assert forall|i: int| 0 <= i < front.len() && i != k implies eqm(
            q,
            #[trigger] front[i],
            0,
        ) by {
            assert(front[i] == xs[i]);
        }
        lemma_sum_with_one_term(q, front, k);
        assert(eqm(q, xs[xs.len() - 1], 0));
        lemma_congruent_sum(q, sum_of(front), front[k], xs.last(), 0);
    }
}

/// The pairing equation is linear in the signature and the key: the sum that it
/// tests for an aggregate under the aggregated key is the sum of the sums that it
/// tests for each signature under the key of its signer.
pub proof fn lemma_equation_sum_of_aggregate(
    m: Model,
    sigs: Seq<SignatureView>,
    keys: Seq<Seq<char>>,
    bound: Seq<char>,
    gens: GeneratorSetView,
)
    requires
        m.laws(),
        sigs.len() == keys.len(),
        forall|i: int|
            0 <= i < sigs.len() ==> in_subgroups((#[trigger] sigs[i]).sigma_1, sigs[i].sigma_2),
        forall|i: int| 0 <= i < keys.len() ==> g2_in_subgroup(#[trigger] keys[i]),
    ensures
        in_subgroups(aggregate_of(sigs).sigma_1, aggregate_of(sigs).sigma_2),
        g2_in_subgroup(g2_sum(keys)),
        eqm(
            m.q,
            equation_sum(m, aggregate_of(sigs), g2_sum(keys), bound, gens),
            sum_of(equation_sums(m, sigs, keys, bound, gens)),
        ),
    decreases sigs.len(),
{
    let q = m.q;
    let h = m.base(gens);
    let b = (m.log1)(bound);
    let neg = (m.log2)(g2_negated(gens.g2));
    let all = aggregate_of(sigs);
    let avk = g2_sum(keys);
    if sigs.len() == 0 {
        lemma_congruent_product(q, (m.log1)(infinity()), 0, neg, neg);
        lemma_congruent_product(q, h, h, (m.log2)(infinity()), 0);
        lemma_congruent_product(q, b, b, (m.log2)(infinity()), 0);
        let zero1 = (m.log1)(infinity());
        let zero2 = (m.log2)(infinity());
        lemma_congruent_sum(q, zero1 * neg, 0 * neg, h * zero2, h * 0);
        lemma_congruent_sum(
            q,
            (m.log1)(infinity()) * neg + h * (m.log2)(infinity()),
            0 * neg + h * 0,
            b * (m.log2)(infinity()),
            b * 0,
        );
        assert(0 * neg + h * 0 + b * 0 == 0) by (nonlinear_arith);
    } else {
        let front = sigs.drop_last();
        let front_keys = keys.drop_last();
        let last = sigs.last();
        let last_key = keys.last();
        assert forall|i: int| 0 <= i < front.len() implies in_subgroups(
            (#[trigger] front[i]).sigma_1,
            front[i].sigma_2,
        ) by {
            assert(front[i] == sigs[i]);
        }
        assert forall|i: int| 0 <= i < front_keys.len() implies g2_in_subgroup(
            #[trigger] front_keys[i],
        ) by {
            assert(front_keys[i] == keys[i]);
        }
        lemma_equation_sum_of_aggregate(m, front, front_keys, bound, gens);
        let part = aggregate_of(front);
        let part_key = g2_sum(front_keys);
        assert(in_subgroups(sigs[sigs.len() - 1].sigma_1, sigs[sigs.len() - 1].sigma_2));
        assert(g2_in_subgroup(keys[keys.len() - 1]));
        assert(first_points(sigs).drop_last() =~= first_points(front));
        assert(second_points(sigs).drop_last() =~= second_points(front));
        assert(all.sigma_1 == g1_plus(part.sigma_1, last.sigma_1));
        assert(all.sigma_2 == g2_plus(part.sigma_2, last.sigma_2));
        assert(avk == g2_plus(part_key, last_key));
        let sum_1 = (m.log1)(part.sigma_1);
        let sum_2 = (m.log2)(part.sigma_2);
        let sum_key = (m.log2)(part_key);
        let last_1 = (m.log1)(last.sigma_1);
        let last_2 = (m.log2)(last.sigma_2);
        let last_k = (m.log2)(last_key);
        lemma_congruent_product(q, (m.log1)(all.sigma_1), sum_1 + last_1, neg, neg);
        lemma_congruent_product(q, h, h, (m.log2)(avk), sum_key + last_k);
        lemma_congruent_product(q, b, b, (m.log2)(all.sigma_2), sum_2 + last_2);
        lemma_congruent_sum(
            q,
            (m.log1)(all.sigma_1) * neg,
            (sum_1 + last_1) * neg,
            h * (m.log2)(avk),
            h * (sum_key + last_k),
        );
        lemma_congruent_sum(
            q,
            (m.log1)(all.sigma_1) * neg + h * (m.log2)(avk),
            (sum_1 + last_1) * neg + h * (sum_key + last_k),
            b * (m.log2)(all.sigma_2),
            b * (sum_2 + last_2),
        );
        assert((sum_1 + last_1) * neg == sum_1 * neg + last_1 * neg) by (nonlinear_arith);
        assert(h * (sum_key + last_k) == h * sum_key + h * last_k) by (nonlinear_arith);
        assert(b * (sum_2 + last_2) == b * sum_2 + b * last_2) by (nonlinear_arith);
        let sums = equation_sums(m, sigs, keys, bound, gens);
        assert(sums.drop_last() =~= equation_sums(m, front, front_keys, bound, gens));
        assert(sums.last() == equation_sum(m, last, last_key, bound, gens));
        lemma_congruent_sum(
            q,
            equation_sum(m, part, part_key, bound, gens),
            sum_of(sums.drop_last()),
            equation_sum(m, last, last_key, bound, gens),
            sums.last(),
        );
    }
}

} // verus!
