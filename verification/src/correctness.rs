//! Why honest signatures verify, and why they verify for nothing else. The proofs
//! hold in every reading of the algebra as a pairing of groups of one order; that
//! `amcl_wrapper` has such a reading is a fact of the curve, which is assumed here and
//! proved nowhere.

use vstd::prelude::*;
use vstd::arithmetic::power2::{lemma_pow2_pos, lemma_pow2_unfold};
use crate::aggregate_signature::{aggregate_of, g2_sum};
use crate::algebra::{g1_in_subgroup, g2_in_subgroup, g2_negated, infinity, scalar_from_hash};
use crate::descent::{later_count, lemma_fits_levels, lemma_later_count};
use crate::errors::PixelError;
use crate::keys::{lemma_updated_wf, GeneratorSet, GeneratorSetView, Keypair, SigkeySetView};
use crate::model::{
    bound_factor_of, eqm, equation_sum, equation_sums, generators_in_subgroups, genuine_key,
    genuine_set, genuine_signature, key_blinded_by, key_of_secret,
    lemma_aggregate_is_genuine, lemma_aggregated_verkey_is_key_of_sum,
    lemma_blinded_signature_satisfies_equation, lemma_congruent_difference,
    lemma_congruent_product, lemma_congruent_sum, lemma_descend_genuine,
    lemma_equation_sum_of_aggregate, lemma_equation_sum_of_blinded, lemma_initial_key_is_blinded,
    lemma_path_factor_in_subgroup, lemma_signed_is_blinded, lemma_signed_logarithms,
    lemma_sum_with_one_term, same_log1, same_log2, signature_blinded_by, sum_of, vanishes, Model,
};
use crate::signature::{
    degenerate, in_subgroups, product_is_unit, signed, verified, Signature, SignatureView,
};
use crate::util::{is_node, lemma_calculate_l_is_depth, lemma_path_of_is_path, path_factor, path_of};

verus! {

/// In every reading of the algebra that obeys the laws, the generators that a label
/// gives lie in their subgroups.
pub proof fn new_generators_lie_in_subgroups(m: Model, t_max: u128, label: Seq<u8>)
    requires
        m.laws(),
    ensures
        GeneratorSet::spec_new(t_max, label) matches Ok(gens) ==> generators_in_subgroups(gens),
{
}

/// In every reading of the algebra that obeys the laws, the keys of a new signer
/// belong to the value of the master secret: every key of the key set is a key of
/// that secret, and the verification key is the key of that secret.
pub proof fn new_keys_belong_to_the_secret(
    m: Model,
    t_max: u128,
    gens: GeneratorSetView,
    x: Seq<char>,
    r: Seq<char>,
)
    requires
        m.laws(),
        generators_in_subgroups(gens),
    ensures
        Keypair::spec_new_deterministic(t_max, gens, x, r) matches Ok(pair) ==> {
            &&& pair.sigkey_set.wf()
            &&& gens.h.len() >= pair.sigkey_set.l + 2
            &&& genuine_set(m, pair.sigkey_set, (m.val)(x), gens)
            &&& key_of_secret(m, pair.ver_key, (m.val)(x), gens)
        },
{
    if Keypair::spec_new_deterministic(t_max, gens, x, r) is Ok {
        let pair = Keypair::spec_new_deterministic(t_max, gens, x, r)->Ok_0;
        let set = pair.sigkey_set;
        lemma_calculate_l_is_depth(t_max);
        lemma_initial_key_is_blinded(m, gens, set.l, x, r);
        assert(path_of(1, set.l) =~= Seq::<u8>::empty());
        assert(key_blinded_by(m, set.current, gens.h[1], (m.val)(x), (m.val)(r), gens, set.l));
        lemma_pow2_pos((set.l - 1) as nat);
        lemma_pow2_unfold(set.l);
    }
}

/// In every reading of the algebra that obeys the laws, an update keeps a key set
/// the key set of its secret: what it hands out afterwards signs for the same
/// verification key.
pub proof fn update_keeps_the_secret(
    m: Model,
    set: SigkeySetView,
    t_new: u128,
    gens: GeneratorSetView,
    scalars: Seq<Seq<char>>,
    x: int,
)
    requires
        m.laws(),
        generators_in_subgroups(gens),
        set.wf(),
        genuine_set(m, set, x, gens),
    ensures
        set.spec_fast_forward_update(t_new, gens, scalars) matches Ok(after) ==> after.wf()
            && genuine_set(m, after, x, gens),
{
    if set.spec_fast_forward_update(t_new, gens, scalars) is Ok {
        let t = t_new as nat;
        let keep = later_count(set.pending, t);
        let kept = set.pending.take(keep as int);
        let src = set.source(t);
        lemma_updated_wf(set, t, gens, scalars);
        lemma_later_count(set.pending, t);
        assert forall|j: int| 0 <= j < kept.len() implies genuine_key(
            m,
            (#[trigger] kept[j]).key,
            path_factor(path_of(kept[j].node, set.l), gens.h),
            x,
            gens,
            set.l,
        ) by {
            assert(kept[j] == set.pending[j]);
        }
        lemma_descend_genuine(m, src.key, src.node, kept, t, gens, set.l, scalars, 0, x);
    }
}

/// In every reading of the algebra that obeys the laws, a signer's own signature
/// verifies. Let a key set be one of the secret `x`, as the key set of a new signer
/// is and as it stays under updates, and let the verification key be the key of `x`.
/// Then signing at the current period succeeds, whatever the message and the
/// blinding scalar; the signature is one of `x` over the bound factor of the
/// message; and its verification under the key at that period is no error and
/// answers `true`, unless a point of the signature or the key is the identity.
pub proof fn own_signature_verifies(
    m: Model,
    set: SigkeySetView,
    verkey: Seq<char>,
    x: int,
    msg: Seq<u8>,
    t: u128,
    l: u8,
    gens: GeneratorSetView,
    s: Seq<char>,
)
    requires
        m.laws(),
        generators_in_subgroups(gens),
        set.wf(),
        t == set.t,
        l == set.l,
        gens.h.len() >= l + 2,
        genuine_set(m, set, x, gens),
        key_of_secret(m, verkey, x, gens),
    ensures
        Signature::spec_new_deterministic(msg, t, l, gens, set.current, s) matches Ok(sig) && {
            &&& genuine_signature(m, sig, x, bound_factor_of(msg, t, l, gens), gens)
            &&& verified(sig.sigma_1, sig.sigma_2, verkey, msg, t, l, gens) == Ok::<
                bool,
                PixelError,
            >(!degenerate(sig.sigma_1, sig.sigma_2) && verkey != infinity())
        },
{
    lemma_fits_levels(set.l, set.t, set.current);
    lemma_path_of_is_path(set.t, set.l);
    lemma_path_factor_in_subgroup(m, path_of(set.t, set.l), gens);
    let f = path_factor(path_of(t as nat, l as nat), gens.h);
    let hashed = scalar_from_hash(msg);
    let bound = bound_factor_of(msg, t, l, gens);
    let sig = signed(set.current, f, hashed, gens, l as nat, s);
    let r = choose|r: int| #[trigger] key_blinded_by(m, set.current, f, x, r, gens, set.l);
    lemma_signed_is_blinded(m, set.current, f, hashed, gens, l as nat, s, x, r);
    assert(signature_blinded_by(m, sig, x, bound, r + (m.val)(s), gens));
    lemma_blinded_signature_satisfies_equation(m, sig, verkey, x, bound, r + (m.val)(s), gens);
}

/// In every reading of the algebra that obeys the laws, the aggregate of the
/// signatures of several signers on one message at one period verifies under the
/// aggregate of their keys. Let each signature be one of the secret of its signer
/// over the bound factor of the message at the period, as a signer's own signature
/// is, and let each key be the key of the secret of its signer. Then the
/// verification of the aggregate is no error and answers `true`, unless a point of
/// the aggregate or the aggregated key is the identity.
pub proof fn aggregate_of_own_signatures_verifies(
    m: Model,
    sigs: Seq<SignatureView>,
    keys: Seq<Seq<char>>,
    xs: Seq<int>,
    msg: Seq<u8>,
    t: u128,
    l: u8,
    gens: GeneratorSetView,
)
    requires
        m.laws(),
        generators_in_subgroups(gens),
        sigs.len() == xs.len(),
        keys.len() == xs.len(),
        gens.h.len() >= l + 2,
        is_node(t as nat, l as nat),
        forall|i: int|
            0 <= i < sigs.len() ==> genuine_signature(
                m,
                #[trigger] sigs[i],
                xs[i],
                bound_factor_of(msg, t, l, gens),
                gens,
            ),
        forall|i: int| 0 <= i < keys.len() ==> key_of_secret(m, #[trigger] keys[i], xs[i], gens),
    ensures
        verified(
            aggregate_of(sigs).sigma_1,
            aggregate_of(sigs).sigma_2,
            g2_sum(keys),
            msg,
            t,
            l,
            gens,
        ) == Ok::<bool, PixelError>(
            !degenerate(aggregate_of(sigs).sigma_1, aggregate_of(sigs).sigma_2) && g2_sum(keys)
                != infinity(),
        ),
{
    let f = path_factor(path_of(t as nat, l as nat), gens.h);
    let bound = bound_factor_of(msg, t, l, gens);
    let all = aggregate_of(sigs);
    let avk = g2_sum(keys);
    lemma_path_of_is_path(t as nat, l as nat);
    lemma_path_factor_in_subgroup(m, path_of(t as nat, l as nat), gens);
    assert(g1_in_subgroup(gens.h[l as int + 1]));
    assert(g1_in_subgroup(bound));
    lemma_aggregate_is_genuine(m, sigs, xs, bound, gens);
    lemma_aggregated_verkey_is_key_of_sum(m, keys, xs, gens);
    let r = choose|r: int| #[trigger] signature_blinded_by(m, all, sum_of(xs), bound, r, gens);
    lemma_blinded_signature_satisfies_equation(m, all, avk, sum_of(xs), bound, r, gens);
}

/// In every faithful reading of the algebra, a signer's signature does not verify
/// under another key: the verification under any other point of the subgroup than
/// the signer's key is no error and answers `false`. The base of the generator set
/// is taken not to be the identity.
pub proof fn signature_fails_under_another_key(
    m: Model,
    sig: SignatureView,
    verkey: Seq<char>,
    other: Seq<char>,
    x: int,
    msg: Seq<u8>,
    t: u128,
    l: u8,
    gens: GeneratorSetView,
)
    requires
        m.laws(),
        m.faithful(),
        generators_in_subgroups(gens),
        gens.h.len() >= l + 2,
        is_node(t as nat, l as nat),
        genuine_signature(m, sig, x, bound_factor_of(msg, t, l, gens), gens),
        key_of_secret(m, verkey, x, gens),
        g2_in_subgroup(other),
        other != verkey,
        gens.h[0] != infinity(),
    ensures
        verified(sig.sigma_1, sig.sigma_2, other, msg, t, l, gens) == Ok::<bool, PixelError>(false),
{
    let q = m.q;
    let h = m.base(gens);
    let bound = bound_factor_of(msg, t, l, gens);
    let r = choose|r: int| #[trigger] signature_blinded_by(m, sig, x, bound, r, gens);
    let b = (m.log1)(bound);
    let s2 = (m.log2)(sig.sigma_2);
    let vk = (m.log2)(verkey);
    let lo = (m.log2)(other);
    let own = equation_sum(m, sig, verkey, bound, gens);
    let total = equation_sum(m, sig, other, bound, gens);
    lemma_path_of_is_path(t as nat, l as nat);
    lemma_path_factor_in_subgroup(m, path_of(t as nat, l as nat), gens);
    assert(g1_in_subgroup(gens.h[l as int + 1]) && g1_in_subgroup(gens.h[0]));
    assert(g1_in_subgroup(bound));
    lemma_equation_sum_of_blinded(m, sig, verkey, x, bound, bound, r, gens);
    assert((b - b) * s2 == 0) by (nonlinear_arith);
    assert(total == own + h * (lo - vk)) by (nonlinear_arith)
        requires
            total == (m.log1)(sig.sigma_1) * (m.log2)(g2_negated(gens.g2)) + h * lo + b * s2,
            own == (m.log1)(sig.sigma_1) * (m.log2)(g2_negated(gens.g2)) + h * vk + b * s2,
    ;
    lemma_congruent_sum(q, own, 0, h * (lo - vk), h * (lo - vk));
    assert(product_is_unit(
        sig.sigma_1,
        g2_negated(gens.g2),
        gens.h[0],
        other,
        bound,
        sig.sigma_2,
    ) == eqm(q, total, 0));
    if eqm(q, total, 0) {
        assert(vanishes(q, h, lo - vk));
        if eqm(q, h, 0) {
            assert(same_log1(m, gens.h[0], infinity()));
        } else {
            lemma_congruent_sum(q, lo - vk, 0, vk, vk);
            assert(same_log2(m, other, verkey));
        }
    }
}

/// In every faithful reading of the algebra, a signer's signature does not verify
/// for another message or another period: where the bound factor of the other
/// message at the other period is another point than that of the signed message at
/// its period, the verification is no error and answers `false`.
pub proof fn signature_fails_for_another_message_or_period(
    m: Model,
    sig: SignatureView,
    verkey: Seq<char>,
    x: int,
    msg: Seq<u8>,
    t: u128,
    other_msg: Seq<u8>,
    other_t: u128,
    l: u8,
    gens: GeneratorSetView,
)
    requires
        m.laws(),
        m.faithful(),
        generators_in_subgroups(gens),
        gens.h.len() >= l + 2,
        is_node(t as nat, l as nat),
        is_node(other_t as nat, l as nat),
        genuine_signature(m, sig, x, bound_factor_of(msg, t, l, gens), gens),
        key_of_secret(m, verkey, x, gens),
        bound_factor_of(other_msg, other_t, l, gens) != bound_factor_of(msg, t, l, gens),
    ensures
        verified(sig.sigma_1, sig.sigma_2, verkey, other_msg, other_t, l, gens) == Ok::<
            bool,
            PixelError,
        >(false),
{
    let q = m.q;
    let bound = bound_factor_of(msg, t, l, gens);
    let bound2 = bound_factor_of(other_msg, other_t, l, gens);
    let r = choose|r: int| #[trigger] signature_blinded_by(m, sig, x, bound, r, gens);
    let b = (m.log1)(bound);
    let b2 = (m.log1)(bound2);
    let s2 = (m.log2)(sig.sigma_2);
    let total = equation_sum(m, sig, verkey, bound2, gens);
    lemma_path_of_is_path(t as nat, l as nat);
    lemma_path_of_is_path(other_t as nat, l as nat);
    lemma_path_factor_in_subgroup(m, path_of(t as nat, l as nat), gens);
    lemma_path_factor_in_subgroup(m, path_of(other_t as nat, l as nat), gens);
    assert(g1_in_subgroup(gens.h[l as int + 1]) && g1_in_subgroup(gens.h[0]));
    assert(g1_in_subgroup(bound) && g1_in_subgroup(bound2));
    lemma_equation_sum_of_blinded(m, sig, verkey, x, bound, bound2, r, gens);
    assert(product_is_unit(
        sig.sigma_1,
        g2_negated(gens.g2),
        gens.h[0],
        verkey,
        bound2,
        sig.sigma_2,
    ) == eqm(q, total, 0));
    if eqm(q, total, 0) && sig.sigma_2 != infinity() {
        assert(vanishes(q, b2 - b, s2));
        if eqm(q, s2, 0) {
            assert(same_log2(m, sig.sigma_2, infinity()));
        } else {
            lemma_congruent_sum(q, b2 - b, 0, b, b);
            assert(same_log1(m, bound2, bound));
        }
    }
}

/// In every faithful reading of the algebra, an aggregate in which one signer has
/// signed another message, or at another period, does not verify. Let each key be
/// the key of the secret of its signer, and each signature one of that secret over
/// the bound factor of the message at the period, but for the signature at index
/// `k`, which is one over the bound factor of another message or period, another
/// point, and whose second point is not the identity. Then the verification of the
/// aggregate for the message at the period is no error and answers `false`.
pub proof fn aggregate_with_another_message_or_period_fails(
    m: Model,
    sigs: Seq<SignatureView>,
    keys: Seq<Seq<char>>,
    xs: Seq<int>,
    k: int,
    msg: Seq<u8>,
    t: u128,
    other_msg: Seq<u8>,
    other_t: u128,
    l: u8,
    gens: GeneratorSetView,
)
    requires
        m.laws(),
        m.faithful(),
        generators_in_subgroups(gens),
        sigs.len() == xs.len(),
        keys.len() == xs.len(),
        gens.h.len() >= l + 2,
        is_node(t as nat, l as nat),
        is_node(other_t as nat, l as nat),
        0 <= k < sigs.len(),
        forall|i: int| 0 <= i < keys.len() ==> key_of_secret(m, #[trigger] keys[i], xs[i], gens),
        forall|i: int|
            0 <= i < sigs.len() && i != k ==> genuine_signature(
                m,
                #[trigger] sigs[i],
                xs[i],
                bound_factor_of(msg, t, l, gens),
                gens,
            ),
        genuine_signature(m, sigs[k], xs[k], bound_factor_of(other_msg, other_t, l, gens), gens),
        bound_factor_of(other_msg, other_t, l, gens) != bound_factor_of(msg, t, l, gens),
        sigs[k].sigma_2 != infinity(),
    ensures
        verified(
            aggregate_of(sigs).sigma_1,
            aggregate_of(sigs).sigma_2,
            g2_sum(keys),
            msg,
            t,
            l,
            gens,
        ) == Ok::<bool, PixelError>(false),
{
    let q = m.q;
    let bound = bound_factor_of(msg, t, l, gens);
    let other = bound_factor_of(other_msg, other_t, l, gens);
    let all = aggregate_of(sigs);
    let avk = g2_sum(keys);
    let sums = equation_sums(m, sigs, keys, bound, gens);
    lemma_path_of_is_path(t as nat, l as nat);
    lemma_path_of_is_path(other_t as nat, l as nat);
    lemma_path_factor_in_subgroup(m, path_of(t as nat, l as nat), gens);
    lemma_path_factor_in_subgroup(m, path_of(other_t as nat, l as nat), gens);
    assert(g1_in_subgroup(gens.h[l as int + 1]) && g1_in_subgroup(gens.h[0]));
    assert(g1_in_subgroup(bound) && g1_in_subgroup(other));
    assert forall|i: int| 0 <= i < sigs.len() implies in_subgroups(
        (#[trigger] sigs[i]).sigma_1,
        sigs[i].sigma_2,
    ) by {
        if i == k {
            let r = choose|r: int| #[trigger]
                signature_blinded_by(m, sigs[k], xs[k], other, r, gens);
        } else {
            let r = choose|r: int| #[trigger]
                signature_blinded_by(m, sigs[i], xs[i], bound, r, gens);
        }
    }
    assert forall|i: int| 0 <= i < keys.len() implies g2_in_subgroup(#[trigger] keys[i]) by {
        assert(key_of_secret(m, keys[i], xs[i], gens));
    }
    lemma_equation_sum_of_aggregate(m, sigs, keys, bound, gens);
    assert forall|i: int| 0 <= i < sums.len() && i != k implies eqm(q, #[trigger] sums[i], 0) by {
        assert(genuine_signature(m, sigs[i], xs[i], bound, gens));
        assert(key_of_secret(m, keys[i], xs[i], gens));
        let r = choose|r: int| #[trigger] signature_blinded_by(m, sigs[i], xs[i], bound, r, gens);
        lemma_equation_sum_of_blinded(m, sigs[i], keys[i], xs[i], bound, bound, r, gens);
        let s2 = (m.log2)(sigs[i].sigma_2);
        let b = (m.log1)(bound);
        assert((b - b) * s2 == 0) by (nonlinear_arith);
    }
    lemma_sum_with_one_term(q, sums, k);
    let rk = choose|r: int| #[trigger] signature_blinded_by(m, sigs[k], xs[k], other, r, gens);
    assert(key_of_secret(m, keys[k], xs[k], gens));
    lemma_equation_sum_of_blinded(m, sigs[k], keys[k], xs[k], other, bound, rk, gens);
    let sk = (m.log2)(sigs[k].sigma_2);
    let b = (m.log1)(bound);
    let bo = (m.log1)(other);
    let total = equation_sum(m, all, avk, bound, gens);
    assert(eqm(q, total, (b - bo) * sk));
    assert(product_is_unit(all.sigma_1, g2_negated(gens.g2), gens.h[0], avk, bound, all.sigma_2)
        == eqm(q, total, 0));
    if eqm(q, total, 0) {
        assert(vanishes(q, b - bo, sk));
        if eqm(q, sk, 0) {
            assert(same_log2(m, sigs[k].sigma_2, infinity()));
        } else {
            lemma_congruent_sum(q, b - bo, 0, bo, bo);
            assert(same_log1(m, bound, other));
        }
    }
}

/// In every faithful reading of the algebra, the key of a period signs for no other
/// period, in particular for none that has passed. Let a key set be one of the
/// secret `x`, and let `t` be another period than the current one, whose path factor
/// is another point. Then what the current key signs for `t` is answered with
/// `false` under the key of `x`. The component in G2 of the current key is taken not
/// to be the identity.
pub proof fn key_signs_for_no_other_period(
    m: Model,
    set: SigkeySetView,
    verkey: Seq<char>,
    x: int,
    msg: Seq<u8>,
    t: u128,
    l: u8,
    gens: GeneratorSetView,
    s: Seq<char>,
)
    requires
        m.laws(),
        m.faithful(),
        generators_in_subgroups(gens),
        set.wf(),
        l == set.l,
        gens.h.len() >= l + 2,
        is_node(t as nat, l as nat),
        genuine_set(m, set, x, gens),
        key_of_secret(m, verkey, x, gens),
        path_factor(path_of(t as nat, l as nat), gens.h) != path_factor(
            path_of(set.t, set.l),
            gens.h,
        ),
        set.current.c != infinity(),
    ensures
        Signature::spec_new_deterministic(msg, t, l, gens, set.current, s) matches Ok(sig)
            && verified(sig.sigma_1, sig.sigma_2, verkey, msg, t, l, gens) == Ok::<
            bool,
            PixelError,
        >(false),
{
    let q = m.q;
    let g = m.generator(gens);
    let h = m.base(gens);
    let key = set.current;
    let own = path_factor(path_of(set.t, set.l), gens.h);
    let f = path_factor(path_of(t as nat, l as nat), gens.h);
    let hashed = scalar_from_hash(msg);
    let bound = bound_factor_of(msg, t, l, gens);
    let sig = signed(key, f, hashed, gens, l as nat, s);
    let r = choose|r: int| #[trigger] key_blinded_by(m, key, own, x, r, gens, set.l);
    let vs = (m.val)(s);
    let vm = (m.val)(hashed);
    let lo = (m.log1)(own);
    let lf = (m.log1)(f);
    let lt = (m.log1)(gens.h[l as int + 1]);
    let lb = (m.log1)(bound);
    let lc = (m.log2)(key.c);
    let s1 = (m.log1)(sig.sigma_1);
    let s2 = (m.log2)(sig.sigma_2);
    let vk = (m.log2)(verkey);
    let neg = (m.log2)(g2_negated(gens.g2));
    let total = equation_sum(m, sig, verkey, bound, gens);
    lemma_fits_levels(set.l, set.t, key);
    lemma_path_of_is_path(set.t, set.l);
    lemma_path_of_is_path(t as nat, l as nat);
    lemma_path_factor_in_subgroup(m, path_of(set.t, set.l), gens);
    lemma_path_factor_in_subgroup(m, path_of(t as nat, l as nat), gens);
    assert(g1_in_subgroup(gens.h[0]));
    lemma_signed_logarithms(m, key, own, f, hashed, gens, l as nat, s, x, r);
    let first = x * h + r * lo + vm * (r * lt) + vs * lb;
    lemma_congruent_product(q, s1, first, neg, -g);
    lemma_congruent_product(q, h, h, vk, x * g);
    lemma_congruent_product(q, lb, lb, s2, (r + vs) * g);
    lemma_congruent_sum(q, s1 * neg, first * (-g), h * vk, h * (x * g));
    lemma_congruent_sum(
        q,
        s1 * neg + h * vk,
        first * (-g) + h * (x * g),
        lb * s2,
        lb * ((r + vs) * g),
    );
    let secret = x * h;
    let blinded = r * lo + vm * (r * lt);
    let fresh = vs * lb;
    assert(first * (-g) == 0 - secret * g - blinded * g - fresh * g) by (nonlinear_arith)
        requires
            first == secret + blinded + fresh,
    ;
    assert(h * (x * g) == secret * g) by (nonlinear_arith)
        requires
            secret == x * h,
    ;
    assert(lb * ((r + vs) * g) == lb * (r * g) + fresh * g) by (nonlinear_arith)
        requires
            fresh == vs * lb,
    ;
    assert((r * lo) * g == (r * g) * lo) by (nonlinear_arith);
    assert((vm * (r * lt)) * g == (r * g) * (vm * lt)) by (nonlinear_arith);
    assert((r * lo + vm * (r * lt)) * g == (r * lo) * g + (vm * (r * lt)) * g)
        by (nonlinear_arith);
    assert((r * g) * (lo + vm * lt) == (r * g) * lo + (r * g) * (vm * lt)) by (nonlinear_arith);
    assert(blinded * g == (r * g) * (lo + vm * lt));
    assert(lb * (r * g) - (r * g) * (lo + vm * lt) == (r * g) * (lb - (lo + vm * lt)))
        by (nonlinear_arith);
    assert(first * (-g) + h * (x * g) + lb * ((r + vs) * g) == (r * g) * (lb - (lo + vm * lt)));
    lemma_congruent_difference(q, lb, lf + vm * lt, lo + vm * lt, lo + vm * lt);
    assert(lf + vm * lt - (lo + vm * lt) == lf - lo);
    lemma_congruent_product(q, r * g, lc, lb - (lo + vm * lt), lf - lo);
    assert(eqm(q, total, lc * (lf - lo)));
    assert(product_is_unit(
        sig.sigma_1,
        g2_negated(gens.g2),
        gens.h[0],
        verkey,
        bound,
        sig.sigma_2,
    ) == eqm(q, total, 0));
    if eqm(q, total, 0) {
        assert(vanishes(q, lc, lf - lo));
        if eqm(q, lc, 0) {
            assert(same_log2(m, key.c, infinity()));
        } else {
            lemma_congruent_sum(q, lf - lo, 0, lo, lo);
            assert(same_log1(m, f, own));
        }
    }
}

} // verus!
