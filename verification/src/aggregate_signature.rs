//! Aggregation: the sum of the keys of several signers, the sum of their signatures on
//! one message at one period, and the one verification that stands for all of them.

use vstd::prelude::*;
use vstd::seq_lib::{commutative_foldl, lemma_fold_left_permutation};
use amcl_wrapper::group_elem_g1::G1;
use amcl_wrapper::group_elem_g2::G2;
use crate::algebra::{
    g1_add, g1_has_correct_order, g1_hex, g1_identity, g1_is_identity, g1_plus, g1_to_hex,
    g2_add, g2_has_correct_order, g2_hex, g2_identity, g2_is_identity, g2_plus, g2_to_hex,
    infinity,
};
use crate::errors::PixelError;
use crate::keys::{GeneratorSet, GeneratorSetView, Verkey};
use crate::signature::{
    degenerate, in_subgroups, pairing_equation, verified, Signature, SignatureView,
};

verus! {

/// Addition in G1, as the step of a sum.
pub open spec fn g1_adder() -> spec_fn(Seq<char>, Seq<char>) -> Seq<char> {
    |sum: Seq<char>, p: Seq<char>| g1_plus(sum, p)
}

/// Addition in G2, as the step of a sum.
pub open spec fn g2_adder() -> spec_fn(Seq<char>, Seq<char>) -> Seq<char> {
    |sum: Seq<char>, p: Seq<char>| g2_plus(sum, p)
}

/// The sum of points of G1: the identity, to which the points are added in order.
pub open spec fn g1_sum(points: Seq<Seq<char>>) -> Seq<char> {
    points.fold_left(infinity(), g1_adder())
}

/// The sum of points of G2: the identity, to which the points are added in order.
pub open spec fn g2_sum(points: Seq<Seq<char>>) -> Seq<char> {
    points.fold_left(infinity(), g2_adder())
}

/// The points of the given verification keys, in order.
pub open spec fn verkey_points(keys: Seq<&Verkey>) -> Seq<Seq<char>> {
    Seq::new(keys.len(), |i: int| keys[i]@)
}

/// The given signatures as values, in order.
pub open spec fn signature_views(sigs: Seq<&Signature>) -> Seq<SignatureView> {
    Seq::new(sigs.len(), |i: int| sigs[i]@)
}

/// The first points of the given signatures, in order.
pub open spec fn first_points(sigs: Seq<SignatureView>) -> Seq<Seq<char>> {
    Seq::new(sigs.len(), |i: int| sigs[i].sigma_1)
}

/// The second points of the given signatures, in order.
pub open spec fn second_points(sigs: Seq<SignatureView>) -> Seq<Seq<char>> {
    Seq::new(sigs.len(), |i: int| sigs[i].sigma_2)
}

/// The aggregate of the given signatures: the sum of their first points, and the
/// sum of their second points.
pub open spec fn aggregate_of(sigs: Seq<SignatureView>) -> SignatureView {
    SignatureView { sigma_1: g1_sum(first_points(sigs)), sigma_2: g2_sum(second_points(sigs)) }
}

/// The sum of the verification keys of several signers.
pub struct AggregatedVerkey {
    pub value: G2,
}

impl View for AggregatedVerkey {
    type V = Seq<char>;

    open spec fn view(&self) -> Seq<char> {
        g2_hex(self.value)
    }
}

impl AggregatedVerkey {
    /// The sum of the given keys; of no keys, the identity.
    pub fn new(ver_keys: Vec<&Verkey>) -> (avk: Self)
        ensures
            avk@ == g2_sum(verkey_points(ver_keys@)),
    {
        let mut sum = g2_identity();
        let n = ver_keys.len();
        let ghost points = verkey_points(ver_keys@);
        let mut i: usize = 0;
        while i < n
            invariant
                i <= n,
                n == ver_keys@.len(),
                points == verkey_points(ver_keys@),
                g2_hex(sum) == g2_sum(points.take(i as int)),
            decreases n - i,
        {
            proof {
                assert(points.take(i + 1).drop_last() =~= points.take(i as int));
            }
            sum = g2_add(&sum, &ver_keys[i].value);
            i = i + 1;
        }
        proof {
            assert(points.take(n as int) =~= points);
        }
        AggregatedVerkey { value: sum }
    }

    /// Whether the sum is the identity, as it is of no keys and of keys that cancel.
    /// A verifier rejects such a key.
    pub fn is_identity(&self) -> (r: bool)
        ensures
            r == (self@ == infinity()),
    {
        g2_is_identity(&self.value)
    }

    /// The key in writing: `infinity`, or its affine coordinates in hexadecimal.
    pub fn to_hex(&self) -> (r: String)
        ensures
            r@ == self@,
    {
        g2_to_hex(&self.value)
    }
}

/// The sum of the signatures of several signers on one message at one period.
pub struct AggregatedSignature {
    pub sigma_1: G1,
    pub sigma_2: G2,
}

impl View for AggregatedSignature {
    type V = SignatureView;

    open spec fn view(&self) -> SignatureView {
        SignatureView { sigma_1: g1_hex(self.sigma_1), sigma_2: g2_hex(self.sigma_2) }
    }
}

impl AggregatedSignature {
    /// What `verify_using_aggr_vk` returns.
    pub open spec fn spec_verify_using_aggr_vk(
        self,
        msg: Seq<u8>,
        t: u128,
        l: u8,
        avk: Seq<char>,
        gens: GeneratorSetView,
    ) -> Result<bool, PixelError> {
        verified(self@.sigma_1, self@.sigma_2, avk, msg, t, l, gens)
    }

    /// What `verify` returns.
    pub open spec fn spec_verify(
        self,
        msg: Seq<u8>,
        t: u128,
        l: u8,
        ver_keys: Seq<Seq<char>>,
        gens: GeneratorSetView,
    ) -> Result<bool, PixelError> {
        self.spec_verify_using_aggr_vk(msg, t, l, g2_sum(ver_keys), gens)
    }

    /// The sum of the given signatures, point by point; of no signatures, two
    /// identities. The sum verifies only where all were made on one message at one
    /// period.
    pub fn new(sigs: Vec<&Signature>) -> (asig: Self)
        ensures
            asig@ == aggregate_of(signature_views(sigs@)),
    {
        let mut sum_1 = g1_identity();
        let mut sum_2 = g2_identity();
        let n = sigs.len();
        let ghost firsts = first_points(signature_views(sigs@));
        let ghost seconds = second_points(signature_views(sigs@));
        let mut i: usize = 0;
        while i < n
            invariant
                i <= n,
                n == sigs@.len(),
                firsts == first_points(signature_views(sigs@)),
                seconds == second_points(signature_views(sigs@)),
                g1_hex(sum_1) == g1_sum(firsts.take(i as int)),
                g2_hex(sum_2) == g2_sum(seconds.take(i as int)),
            decreases n - i,
        {
            proof {
                assert(firsts.take(i + 1).drop_last() =~= firsts.take(i as int));
                assert(seconds.take(i + 1).drop_last() =~= seconds.take(i as int));
            }
            sum_1 = g1_add(&sum_1, &sigs[i].sigma_1);
            sum_2 = g2_add(&sum_2, &sigs[i].sigma_2);
            i = i + 1;
        }
        proof {
            assert(firsts.take(n as int) =~= firsts);
            assert(seconds.take(n as int) =~= seconds);
        }
        AggregatedSignature { sigma_1: sum_1, sigma_2: sum_2 }
    }

    /// Whether one of the two points is the identity.
    pub fn is_identity(&self) -> (r: bool)
        ensures
            r == degenerate(self@.sigma_1, self@.sigma_2),
    {
        if g1_is_identity(&self.sigma_1) {
            return true;
        }
        if g2_is_identity(&self.sigma_2) {
            return true;
        }
        false
    }

    /// The two points in writing, each `infinity` or its affine coordinates in
    /// hexadecimal.
    pub fn to_hex(&self) -> (r: (String, String))
        ensures
            r.0@ == self@.sigma_1,
            r.1@ == self@.sigma_2,
    {
        (g1_to_hex(&self.sigma_1), g2_to_hex(&self.sigma_2))
    }

    /// Whether both points lie in the subgroups of the scheme.
    pub fn has_correct_oder(&self) -> (r: bool)
        ensures
            r == in_subgroups(self@.sigma_1, self@.sigma_2),
    {
        if !g1_has_correct_order(&self.sigma_1) {
            return false;
        }
        if !g2_has_correct_order(&self.sigma_2) {
            return false;
        }
        true
    }

    /// Verifies the aggregate on the message at period `t` under the sum of the
    /// given keys.
    pub fn verify(
        &self,
        msg: &[u8],
        t: u128,
        l: u8,
        ver_keys: Vec<&Verkey>,
        gens: &GeneratorSet,
    ) -> (r: Result<bool, PixelError>)
        ensures
            r == self.spec_verify(msg@, t, l, verkey_points(ver_keys@), gens@),
    {
        let avk = AggregatedVerkey::new(ver_keys);
        self.verify_using_aggr_vk(msg, t, l, &avk, gens)
    }

    /// Verifies the aggregate on the message at period `t` under an aggregated key,
    /// which can serve many verifications. The answer is `false` where the aggregate
    /// or the key is the identity, and where the aggregate leaves the subgroups. Past
    /// that, a generator set shorter than `l + 2` is an error that names `l + 2`, and
    /// so is a `t` that is no period of the tree of depth `l`. Else the pairing
    /// equation decides.
    pub fn verify_using_aggr_vk(
        &self,
        msg: &[u8],
        t: u128,
        l: u8,
        avk: &AggregatedVerkey,
        gens: &GeneratorSet,
    ) -> (r: Result<bool, PixelError>)
        ensures
            r == self.spec_verify_using_aggr_vk(msg@, t, l, avk@, gens@),
    {
        if self.is_identity() || avk.is_identity() || !self.has_correct_oder() {
            return Ok(false);
        }
        if gens.1.len() < (l as usize + 2) {
            return Err(PixelError::NotEnoughGenerators { n: l as usize + 2 });
        }
        pairing_equation(&self.sigma_1, &self.sigma_2, &avk.value, msg, t, l, gens)
    }
}

/// Whether `plus` is associative and commutative and leaves a point as it is when
/// it is added to `zero`: the laws of addition in a commutative group that sums use.
pub open spec fn is_commutative_monoid(
    plus: spec_fn(Seq<char>, Seq<char>) -> Seq<char>,
    zero: Seq<char>,
) -> bool {
    &&& forall|a: Seq<char>, b: Seq<char>| #[trigger] plus(a, b) == plus(b, a)
    &&& forall|a: Seq<char>, b: Seq<char>, c: Seq<char>| #[trigger]
        plus(plus(a, b), c) == plus(a, plus(b, c))
    &&& forall|a: Seq<char>| #[trigger] plus(zero, a) == a
}

/// Under the laws of a commutative monoid, a sum does not depend on the order of
/// its terms.
pub proof fn lemma_sum_ignores_order(
    plus: spec_fn(Seq<char>, Seq<char>) -> Seq<char>,
    zero: Seq<char>,
    a: Seq<Seq<char>>,
    b: Seq<Seq<char>>,
)
    requires
        is_commutative_monoid(plus, zero),
        a.to_multiset() == b.to_multiset(),
    ensures
        a.fold_left(zero, plus) == b.fold_left(zero, plus),
{
    assert(commutative_foldl(plus)) by {
        assert forall|x: Seq<char>, y: Seq<char>, v: Seq<char>| #[trigger]
            plus(plus(v, x), y) == plus(plus(v, y), x) by {
            assert(plus(plus(v, x), y) == plus(v, plus(x, y)));
            assert(plus(x, y) == plus(y, x));
            assert(plus(plus(v, y), x) == plus(v, plus(y, x)));
        }
    }
    lemma_fold_left_permutation(a, b, plus, zero);
}

/// Under the laws of a commutative monoid, the sum of a sum and further terms is the
/// sum of all the terms.
pub proof fn lemma_sum_of_sum(
    plus: spec_fn(Seq<char>, Seq<char>) -> Seq<char>,
    zero: Seq<char>,
    a: Seq<Seq<char>>,
    b: Seq<Seq<char>>,
)
    requires
        is_commutative_monoid(plus, zero),
    ensures
        (seq![a.fold_left(zero, plus)] + b).fold_left(zero, plus) == (a + b).fold_left(zero, plus),
{
    let inner = a.fold_left(zero, plus);
    let nested = seq![inner] + b;
    let flat = a + b;
    nested.lemma_fold_left_split(zero, plus, 1);
    flat.lemma_fold_left_split(zero, plus, a.len() as int);
    assert(nested.subrange(1, nested.len() as int) =~= b);
    assert(flat.subrange(a.len() as int, flat.len() as int) =~= b);
    assert(flat.subrange(0, a.len() as int) =~= a);
    let head = nested.subrange(0, 1);
    assert(head.drop_last() =~= Seq::<Seq<char>>::empty());
    assert(head.last() == inner);
    assert(head.fold_left(zero, plus) == plus(zero, inner)) by {
        reveal_with_fuel(Seq::fold_left, 2);
    }
}

/// Where addition in G2 obeys the laws of a commutative monoid, the aggregate of
/// verification keys is the same for every order of the keys.
pub proof fn aggregated_verkey_ignores_order(a: Seq<Seq<char>>, b: Seq<Seq<char>>)
    requires
        is_commutative_monoid(g2_adder(), infinity()),
        a.to_multiset() == b.to_multiset(),
    ensures
        g2_sum(a) == g2_sum(b),
{
    lemma_sum_ignores_order(g2_adder(), infinity(), a, b);
}

/// Where addition in G2 obeys the laws of a commutative monoid, aggregating an
/// aggregate of keys with further keys gives the aggregate of all the keys.
pub proof fn aggregated_verkey_of_aggregate(a: Seq<Seq<char>>, b: Seq<Seq<char>>)
    requires
        is_commutative_monoid(g2_adder(), infinity()),
    ensures
        g2_sum(seq![g2_sum(a)] + b) == g2_sum(a + b),
{
    lemma_sum_of_sum(g2_adder(), infinity(), a, b);
}

/// Where addition in G1 and in G2 obeys the laws of a commutative monoid, the
/// aggregate of signatures is the same for every order of the signatures.
pub proof fn aggregated_signature_ignores_order(a: Seq<SignatureView>, b: Seq<SignatureView>)
    requires
        is_commutative_monoid(g1_adder(), infinity()),
        is_commutative_monoid(g2_adder(), infinity()),
        a.to_multiset() == b.to_multiset(),
    ensures
        aggregate_of(a) == aggregate_of(b),
{
    let first = |s: SignatureView| s.sigma_1;
    let second = |s: SignatureView| s.sigma_2;
    lemma_map_keeps_multiset(a, b, first);
    lemma_map_keeps_multiset(a, b, second);
    assert(first_points(a) =~= a.map_values(first));
    assert(first_points(b) =~= b.map_values(first));
    assert(second_points(a) =~= a.map_values(second));
    assert(second_points(b) =~= b.map_values(second));
    lemma_sum_ignores_order(g1_adder(), infinity(), first_points(a), first_points(b));
    lemma_sum_ignores_order(g2_adder(), infinity(), second_points(a), second_points(b));
}

/// Where addition in G1 and in G2 obeys the laws of a commutative monoid,
/// aggregating an aggregate of signatures with further signatures gives the
/// aggregate of all the signatures.
pub proof fn aggregated_signature_of_aggregate(a: Seq<SignatureView>, b: Seq<SignatureView>)
    requires
        is_commutative_monoid(g1_adder(), infinity()),
        is_commutative_monoid(g2_adder(), infinity()),
    ensures
        aggregate_of(seq![aggregate_of(a)] + b) == aggregate_of(a + b),
{
    lemma_sum_of_sum(g1_adder(), infinity(), first_points(a), first_points(b));
    lemma_sum_of_sum(g2_adder(), infinity(), second_points(a), second_points(b));
    assert(first_points(seq![aggregate_of(a)] + b) =~= seq![g1_sum(first_points(a))]
        + first_points(b));
    assert(second_points(seq![aggregate_of(a)] + b) =~= seq![g2_sum(second_points(a))]
        + second_points(b));
    assert(first_points(a + b) =~= first_points(a) + first_points(b));
    assert(second_points(a + b) =~= second_points(a) + second_points(b));
}

/// Sequences with the same members have, after a map, the same members again.
pub proof fn lemma_map_keeps_multiset(
    a: Seq<SignatureView>,
    b: Seq<SignatureView>,
    f: spec_fn(SignatureView) -> Seq<char>,
)
    requires
        a.to_multiset() == b.to_multiset(),
    ensures
        a.map_values(f).to_multiset() == b.map_values(f).to_multiset(),
    decreases a.len(),
{
    broadcast use vstd::seq_lib::group_to_multiset_ensures;

    if a.len() == 0 {
        assert(b.to_multiset().len() == 0);
        assert(a.map_values(f) =~= b.map_values(f));
    } else {
        let x = a.last();
        assert(a.to_multiset().count(x) > 0);
        let i = b.index_of(x);
        let a1 = a.drop_last();
        let b1 = b.remove(i);
        assert(a1 =~= a.remove(a.len() - 1));
        assert(a1.to_multiset() =~= b1.to_multiset());
        lemma_map_keeps_multiset(a1, b1, f);
        assert(a.map_values(f).remove(a.len() - 1) =~= a1.map_values(f));
        assert(b.map_values(f).remove(i) =~= b1.map_values(f));
        assert(a.map_values(f)[a.len() - 1] == f(x));
        assert(b.map_values(f)[i] == f(x));
        assert(a.map_values(f).to_multiset() =~= a1.map_values(f).to_multiset().insert(f(x)));
        assert(b.map_values(f).to_multiset() =~= b1.map_values(f).to_multiset().insert(f(x)));
    }
}

/// The aggregate of no keys is the identity, and every verification under it
/// answers `false`: for every signature, message, period, depth and generator set.
pub proof fn empty_aggregate_is_rejected(
    asig: AggregatedSignature,
    msg: Seq<u8>,
    t: u128,
    l: u8,
    gens: GeneratorSetView,
)
    ensures
        g2_sum(Seq::empty()) == infinity(),
        asig.spec_verify(msg, t, l, Seq::empty(), gens) == Ok::<bool, PixelError>(false),
{
}

/// A generator set shorter than `l + 2` makes the verification of an aggregate an
/// error that names `l + 2`, unless the aggregate or the key is rejected before the
/// generators are looked at.
pub proof fn short_generator_set_is_an_error(
    asig: AggregatedSignature,
    msg: Seq<u8>,
    t: u128,
    l: u8,
    avk: Seq<char>,
    gens: GeneratorSetView,
)
    requires
        gens.h.len() < l + 2,
    ensures
        asig.spec_verify_using_aggr_vk(msg, t, l, avk, gens) == (if degenerate(
            asig@.sigma_1,
            asig@.sigma_2,
        ) || avk == infinity() || !in_subgroups(asig@.sigma_1, asig@.sigma_2) {
            Ok::<bool, PixelError>(false)
        } else {
            Err::<bool, PixelError>(PixelError::NotEnoughGenerators { n: (l + 2) as usize })
        }),
{
}

} // verus!
