//! Generators, verification keys, secret keys, and the key set that moves forward
//! from period to period.

use vstd::prelude::*;
use vstd::string::StringSliceAdditionalSpecFns;
use amcl_wrapper::field_elem::FieldElement;
use amcl_wrapper::group_elem_g1::G1;
use amcl_wrapper::group_elem_g2::G2;
use crate::algebra::{
    g1_add, g1_clone, g1_from_hash, g1_from_msg_hash, g1_hex, g1_mul, g1_plus, g1_times, g2_add,
    g2_clone, g2_from_hash, g2_from_msg_hash, g2_hex, g2_is_identity, g2_mul, g2_plus, g2_times,
    g2_to_hex, infinity, scalar_hex, scalar_random,
};
use crate::descent::{
    descend, fits, later_count, lemma_descend_tiled, lemma_fits_levels, lemma_later_count,
    lemma_later_count_is, lemma_pending_after, lemma_tiled_order, next_start, scalars_needed, tiled,
    PendingKeyView,
};
use crate::errors::PixelError;
use crate::util::{
    calculate_l, calculate_path_factor_using_t_l, is_depth, lemma_calculate_l_is_depth,
    lemma_path_of_is_path, lemma_pow2_127, lemma_pow2_monotonic, path_factor, path_of, pow2_u128,
    spec_calculate_l, step_down, stepped, subtree_end, MAX_DEPTH,
};
use rand::rngs::ThreadRng;
use vstd::arithmetic::power2::{lemma2_to64, lemma_pow2_pos, lemma_pow2_unfold, pow2};

verus! {

/// The points that a vector of elements of G1 holds, in order.
pub open spec fn g1_points(v: Seq<G1>) -> Seq<Seq<char>> {
    Seq::new(v.len(), |i: int| g1_hex(v[i]))
}

/// The public parameters that all signers of one deployment share: a generator of
/// G2, and generators of G1. Of the latter the first is the base that is paired
/// with verification keys, the second starts every path factor, the following ones
/// stand for the levels of the tree, and the one at index `l + 1` binds the message.
pub struct GeneratorSet(pub G2, pub Vec<G1>);

/// The points of a generator set.
pub struct GeneratorSetView {
    pub g2: Seq<char>,
    pub h: Seq<Seq<char>>,
}

impl View for GeneratorSet {
    type V = GeneratorSetView;

    open spec fn view(&self) -> GeneratorSetView {
        GeneratorSetView { g2: g2_hex(self.0), h: g1_points(self.1@) }
    }
}

/// The bytes that the generator of G1 at index `i` is hashed from: the label,
/// followed by the index as one byte.
pub open spec fn generator_seed(label: Seq<u8>, i: nat) -> Seq<u8> {
    label.push(i as u8)
}

/// The generator set of a label for the tree of depth `l`: the generator of G2 is
/// hashed from the label, the `l + 2` generators of G1 from their seeds.
pub open spec fn spec_generators(label: Seq<u8>, l: nat) -> GeneratorSetView {
    GeneratorSetView {
        g2: g2_from_hash(label),
        h: Seq::new(l + 2, |i: int| g1_from_hash(generator_seed(label, i as nat))),
    }
}

/// The seed of the generator at index `i`.
fn seed_of(label: &[u8], i: u8) -> (seed: Vec<u8>)
    ensures
        seed@ == generator_seed(label@, i as nat),
{
    let mut seed: Vec<u8> = Vec::new();
    let n = label.len();
    let mut j: usize = 0;
    while j < n
        invariant
            j <= n,
            n == label@.len(),
            seed@ == label@.take(j as int),
        decreases n - j,
    {
        seed.push(label[j]);
        j = j + 1;
        proof {
            assert(seed@ =~= label@.take(j as int));
        }
    }
    proof {
        assert(label@.take(n as int) =~= label@);
    }
    seed.push(i);
    seed
}

impl GeneratorSet {
    /// What `new` returns.
    pub open spec fn spec_new(t_max: u128, label: Seq<u8>) -> Result<GeneratorSetView, PixelError> {
        match spec_calculate_l(t_max) {
            Ok(l) => Ok(spec_generators(label, l as nat)),
            Err(e) => Err(e),
        }
    }

    /// The generator set of a deployment with `t_max` periods, derived from the label
    /// alone. It fails when `t_max` has no depth.
    pub fn new(t_max: u128, label: &str) -> (r: Result<GeneratorSet, PixelError>)
        ensures
            r matches Ok(gens) ==> Self::spec_new(t_max, label.spec_bytes()) == Ok::<
                GeneratorSetView,
                PixelError,
            >(gens@),
            r matches Err(e) ==> Self::spec_new(t_max, label.spec_bytes()) == Err::<
                GeneratorSetView,
                PixelError,
            >(e),
    {
        let l = match calculate_l(t_max) {
            Ok(l) => l,
            Err(e) => { return Err(e); },
        };
        let bytes = label.as_bytes();
        let g2 = g2_from_msg_hash(bytes);
        let count: u8 = l + 2;
        let mut h: Vec<G1> = Vec::new();
        let mut i: u8 = 0;
        while i < count
            invariant
                i <= count,
                h@.len() == i,
                forall|j: int|
                    0 <= j < i ==> g1_hex(#[trigger] h@[j]) == g1_from_hash(
                        generator_seed(bytes@, j as nat),
                    ),
            decreases count - i,
        {
            let seed = seed_of(bytes, i);
            h.push(g1_from_msg_hash(seed.as_slice()));
            i = i + 1;
        }
        let gens = GeneratorSet(g2, h);
        proof {
            assert(gens@.h =~= spec_generators(bytes@, l as nat).h);
        }
        Ok(gens)
    }
}

/// The public verification key of one signer: the master secret times the generator
/// of G2. It stays the same over all periods.
pub struct Verkey {
    pub value: G2,
}

impl View for Verkey {
    type V = Seq<char>;

    open spec fn view(&self) -> Seq<char> {
        g2_hex(self.value)
    }
}

impl Verkey {
    /// The verification key of a master secret.
    pub fn from_master_secret(master_secret: &FieldElement, generator: &G2) -> (vk: Verkey)
        ensures
            vk@ == g2_times(g2_hex(*generator), scalar_hex(*master_secret)),
    {
        Verkey { value: g2_mul(generator, master_secret) }
    }

    /// Whether the key is the identity, which no signer's key is.
    pub fn is_identity(&self) -> (r: bool)
        ensures
            r == (self@ == infinity()),
    {
        g2_is_identity(&self.value)
    }

    /// The key in writing: `infinity`, or its affine coordinates in hexadecimal.
    pub fn to_hex(&self) -> (r: String)
        ensures
            r@ == self@,
    {
        g2_to_hex(&self.value)
    }
}

/// The secret key of one node of the tree: `c` in G2, and in G1 the signing
/// component `d` and one component for each level below the node, the last of which
/// binds the message. A node `k` steps below the root of the tree of depth `l` has
/// `l - k` such components.
pub struct Sigkey {
    c: G2,
    d: G1,
    e: Vec<G1>,
}

/// The points of a secret key.
pub struct SigkeyView {
    pub c: Seq<char>,
    pub d: Seq<char>,
    pub e: Seq<Seq<char>>,
}

impl View for Sigkey {
    type V = SigkeyView;

    closed spec fn view(&self) -> SigkeyView {
        SigkeyView { c: g2_hex(self.c), d: g1_hex(self.d), e: g1_points(self.e@) }
    }
}

/// The key of the root for the master secret `x`, blinded by `r`: over the
/// generators `g2` and `h`, it is `r * g2`, then `x * h[0] + r * h[1]`, then
/// `r * h[j + 2]` for each of the `l` levels.
pub open spec fn initial_key(
    gens: GeneratorSetView,
    l: nat,
    x: Seq<char>,
    r: Seq<char>,
) -> SigkeyView {
    SigkeyView {
        c: g2_times(gens.g2, r),
        d: g1_plus(g1_times(gens.h[0], x), g1_times(gens.h[1], r)),
        e: Seq::new(l, |j: int| g1_times(gens.h[j + 2], r)),
    }
}

/// The key of a child, derived from the key of its parent and blinded anew by `r`.
/// The signing component takes one step down with the parent's first level
/// component, which the child no longer holds; `f_child` is the path factor of the
/// child.
pub open spec fn derived_key(
    parent: SigkeyView,
    step: u8,
    f_child: Seq<char>,
    gens: GeneratorSetView,
    l: nat,
    r: Seq<char>,
) -> SigkeyView {
    SigkeyView {
        c: g2_plus(parent.c, g2_times(gens.g2, r)),
        d: g1_plus(stepped(parent.d, parent.e[0], step), g1_times(f_child, r)),
        e: Seq::new(
            (parent.e.len() - 1) as nat,
            |i: int| g1_plus(parent.e[i + 1], g1_times(gens.h[l - parent.e.len() + 3 + i], r)),
        ),
    }
}

impl Sigkey {
    /// A key holds at least the component that binds the message.
    pub open spec fn wf(&self) -> bool {
        self@.e.len() >= 1
    }

    /// What `initial_secret_key` returns.
    pub open spec fn spec_initial_secret_key(
        gens: GeneratorSetView,
        l: u8,
        x: Seq<char>,
        r: Seq<char>,
    ) -> Result<SigkeyView, PixelError> {
        if !is_depth(l as nat) {
            Err(PixelError::InvalidNodeNum { t: 1, l })
        } else if gens.h.len() < l + 2 {
            Err(PixelError::NotEnoughGenerators { n: (l + 2) as usize })
        } else {
            Ok(initial_key(gens, l as nat, x, r))
        }
    }

    /// The key of the root of the tree of depth `l`, which is the key of the first
    /// period, for a master secret and a blinding scalar. It fails when `l` is no
    /// depth, and when the generator set is too short for it.
    pub fn initial_secret_key(
        gens: &GeneratorSet,
        l: u8,
        master_secret: &FieldElement,
        r: &FieldElement,
    ) -> (res: Result<Sigkey, PixelError>)
        ensures
            res matches Ok(key) ==> key.wf() && Self::spec_initial_secret_key(
                gens@,
                l,
                scalar_hex(*master_secret),
                scalar_hex(*r),
            ) == Ok::<SigkeyView, PixelError>(key@),
            res matches Err(e) ==> Self::spec_initial_secret_key(
                gens@,
                l,
                scalar_hex(*master_secret),
                scalar_hex(*r),
            ) == Err::<SigkeyView, PixelError>(e),
    {
        if l == 0 || l > MAX_DEPTH {
            return Err(PixelError::InvalidNodeNum { t: 1, l });
        }
        let levels = l as usize;
        if gens.1.len() < levels + 2 {
            return Err(PixelError::NotEnoughGenerators { n: levels + 2 });
        }
        let c = g2_mul(&gens.0, r);
        let d = g1_add(&g1_mul(&gens.1[0], master_secret), &g1_mul(&gens.1[1], r));
        let mut e: Vec<G1> = Vec::new();
        let mut j: usize = 0;
        while j < levels
            invariant
                j <= levels,
                levels + 2 <= gens.1@.len(),
                levels <= MAX_DEPTH,
                e@.len() == j,
                forall|i: int|
                    0 <= i < j ==> g1_hex(#[trigger] e@[i]) == g1_times(
                        gens@.h[i + 2],
                        scalar_hex(*r),
                    ),
            decreases levels - j,
        {
            e.push(g1_mul(&gens.1[j + 2], r));
            j = j + 1;
        }
        let key = Sigkey { c, d, e };
        proof {
            let made = initial_key(gens@, l as nat, scalar_hex(*master_secret), scalar_hex(*r));
            assert(key@.e =~= made.e);
        }
        Ok(key)
    }

    /// The key of the child that `step` leads to, blinded by `r`. `f_child` is the
    /// path factor of the child.
    pub(crate) fn derive(
        &self,
        step: u8,
        f_child: &G1,
        gens: &GeneratorSet,
        l: u8,
        r: &FieldElement,
    ) -> (child: Sigkey)
        requires
            2 <= self@.e.len() <= l <= MAX_DEPTH,
            gens@.h.len() >= l + 2,
        ensures
            child@ == derived_key(self@, step, g1_hex(*f_child), gens@, l as nat, scalar_hex(*r)),
            child@.e.len() == self@.e.len() - 1,
            child.wf(),
    {
        let c = g2_add(&self.c, &g2_mul(&gens.0, r));
        let d = g1_add(&step_down(&self.d, &self.e[0], step), &g1_mul(f_child, r));
        let m = self.e.len();
        let first = l as usize - m + 3;
        let mut e: Vec<G1> = Vec::new();
        let mut i: usize = 0;
        while i + 1 < m
            invariant
                i + 1 <= m,
                m == self.e@.len(),
                2 <= m <= l <= MAX_DEPTH,
                first == l - m + 3,
                gens.1@.len() >= l + 2,
                e@.len() == i,
                forall|j: int| 0 <= j < i ==> g1_hex(#[trigger] e@[j]) == g1_plus(
                    self@.e[j + 1],
                    g1_times(gens@.h[l - m + 3 + j], scalar_hex(*r)),
                ),
            decreases m - i,
        {
            e.push(g1_add(&self.e[i + 1], &g1_mul(&gens.1[first + i], r)));
            i = i + 1;
        }
        let child = Sigkey { c, d, e };
        proof {
            assert(child@.e =~= derived_key(
                self@,
                step,
                g1_hex(*f_child),
                gens@,
                l as nat,
                scalar_hex(*r),
            ).e);
        }
        child
    }

    /// The component in G2.
    pub fn c(&self) -> (r: &G2)
        ensures
            g2_hex(*r) == self@.c,
    {
        &self.c
    }

    /// The signing component.
    pub fn d(&self) -> (r: &G1)
        ensures
            g1_hex(*r) == self@.d,
    {
        &self.d
    }

    /// The components of the levels below the node; the last one binds the message.
    pub fn e(&self) -> (r: &Vec<G1>)
        ensures
            g1_points(r@) == self@.e,
    {
        &self.e
    }
}

/// The residues that a vector of scalars holds, in order.
pub open spec fn scalar_points(v: Seq<FieldElement>) -> Seq<Seq<char>> {
    Seq::new(v.len(), |i: int| scalar_hex(v[i]))
}

/// The key of a node that lies ahead of the current period.
pub struct PendingKey {
    node: u128,
    key: Sigkey,
}

impl View for PendingKey {
    type V = PendingKeyView;

    closed spec fn view(&self) -> PendingKeyView {
        PendingKeyView { node: self.node as nat, key: self.key@ }
    }
}

/// The views of a vector of pending keys, in order.
pub open spec fn pending_views(v: Seq<PendingKey>) -> Seq<PendingKeyView> {
    Seq::new(v.len(), |i: int| v[i]@)
}

/// The secret keys of one signer: the key of the current period, and the keys of the
/// right siblings along the path to it, from which every later period can be reached
/// and no earlier one.
pub struct SigkeySet {
    l: u8,
    t_max: u128,
    t: u128,
    current: Sigkey,
    pending: Vec<PendingKey>,
}

/// A key set as a value: the depth of the tree, the last period, the current period
/// with its key, and the pending keys, the nearest to the root first.
pub struct SigkeySetView {
    pub l: nat,
    pub t_max: nat,
    pub t: nat,
    pub current: SigkeyView,
    pub pending: Seq<PendingKeyView>,
}

impl View for SigkeySet {
    type V = SigkeySetView;

    closed spec fn view(&self) -> SigkeySetView {
        SigkeySetView {
            l: self.l as nat,
            t_max: self.t_max as nat,
            t: self.t as nat,
            current: self.current@,
            pending: pending_views(self.pending@),
        }
    }
}

impl SigkeySetView {
    /// The current period lies in range, and the current and pending keys cover
    /// exactly the periods from the current one on.
    pub open spec fn wf(self) -> bool {
        &&& is_depth(self.l)
        &&& 1 <= self.t <= self.t_max < pow2(self.l)
        &&& tiled(self.l, self.t, self.current, self.pending)
    }

    /// The key from which period `t_new` is reached: the pending key of the last node
    /// that is not after `t_new`, or the current key where all pending nodes are.
    pub open spec fn source(self, t_new: nat) -> PendingKeyView {
        let keep = later_count(self.pending, t_new);
        if keep < self.pending.len() {
            self.pending[keep as int]
        } else {
            PendingKeyView { node: self.t, key: self.current }
        }
    }

    /// How many blinding scalars the update to `t_new` consumes.
    pub open spec fn scalars_for(self, t_new: nat) -> nat {
        let src = self.source(t_new);
        scalars_needed(src.node, src.key.e.len(), t_new)
    }

    /// The key set after the update to `t_new`: the walk from the source down to
    /// `t_new` gives the new current key; the pending keys after `t_new` stay, those
    /// that the walk opens follow them, and all others are gone.
    pub open spec fn updated(
        self,
        t_new: nat,
        gens: GeneratorSetView,
        scalars: Seq<Seq<char>>,
    ) -> SigkeySetView {
        let keep = later_count(self.pending, t_new);
        let src = self.source(t_new);
        let walk = descend(
            src.key,
            src.node,
            path_factor(path_of(src.node, self.l), gens.h),
            self.pending.take(keep as int),
            t_new,
            gens,
            self.l,
            scalars,
            0,
        );
        SigkeySetView {
            l: self.l,
            t_max: self.t_max,
            t: t_new,
            current: walk.key,
            pending: walk.opened,
        }
    }

    /// The configuration error that stops an update to `t_new`, if there is one.
    pub open spec fn update_error(self, t_new: u128, gens: GeneratorSetView) -> Option<PixelError> {
        if t_new <= self.t {
            Some(PixelError::SigkeyAlreadyUpdated { current: self.t as u128, requested: t_new })
        } else if t_new > self.t_max {
            Some(PixelError::PeriodBeyondMax { t: t_new, t_max: self.t_max as u128 })
        } else if gens.h.len() < self.l + 2 {
            Some(PixelError::NotEnoughGenerators { n: (self.l + 2) as usize })
        } else {
            None
        }
    }

    /// What `fast_forward_update_deterministic` makes of the key set, or the error it
    /// returns.
    pub open spec fn spec_fast_forward_update(
        self,
        t_new: u128,
        gens: GeneratorSetView,
        scalars: Seq<Seq<char>>,
    ) -> Result<SigkeySetView, PixelError> {
        match self.update_error(t_new, gens) {
            Some(e) => Err(e),
            None => if scalars.len() < self.scalars_for(t_new as nat) {
                Err(PixelError::NotEnoughScalars { n: self.scalars_for(t_new as nat) as usize })
            } else {
                Ok(self.updated(t_new as nat, gens, scalars))
            },
        }
    }

    /// What `get_key` returns.
    pub open spec fn spec_get_key(self, t: u128) -> Result<SigkeyView, PixelError> {
        if t == self.t {
            Ok(self.current)
        } else {
            Err(PixelError::SigkeyNotFound { t })
        }
    }
}

/// The source of an update to a later period within range heads a tiling with the
/// pending keys that stay, and its subtree holds the new period. So the updated key
/// set is well-formed.
pub proof fn lemma_updated_wf(
    set: SigkeySetView,
    t_new: nat,
    gens: GeneratorSetView,
    scalars: Seq<Seq<char>>,
)
    requires
        set.wf(),
        set.t < t_new <= set.t_max,
    ensures
        tiled(
            set.l,
            set.source(t_new).node,
            set.source(t_new).key,
            set.pending.take(later_count(set.pending, t_new) as int),
        ),
        set.source(t_new).node <= t_new < subtree_end(
            set.source(t_new).node,
            set.source(t_new).key.e.len(),
        ) <= pow2(set.l),
        set.updated(t_new, gens, scalars).wf(),
{
    let keep = later_count(set.pending, t_new);
    let kept = set.pending.take(keep as int);
    let src = set.source(t_new);
    lemma_later_count(set.pending, t_new);
    lemma_tiled_order(set.l, set.t, set.current, set.pending);
    assert forall|i: int| 0 <= i < kept.len() implies {
        let p = #[trigger] kept[i];
        fits(set.l, p.node, p.key) && subtree_end(p.node, p.key.e.len()) == next_start(
            kept,
            i,
            set.l,
        )
    } by {
        assert(kept[i] == set.pending[i]);
    }
    assert(tiled(set.l, src.node, src.key, kept));
    lemma_descend_tiled(
        src.key,
        src.node,
        path_factor(path_of(src.node, set.l), gens.h),
        kept,
        t_new,
        gens,
        set.l,
        scalars,
        0,
    );
}

/// An update never goes back. To a period that is not after the current one it
/// fails. To a later period within range it succeeds, given generators for the tree
/// and enough scalars. After it the key set is well-formed and stands at the new
/// period: it hands out the key of that period and of no other, and no later update
/// reaches the new period again or a period before it.
pub proof fn update_moves_forward_only(
    set: SigkeySetView,
    t_new: u128,
    gens: GeneratorSetView,
    scalars: Seq<Seq<char>>,
)
    requires
        set.wf(),
    ensures
        t_new <= set.t ==> set.spec_fast_forward_update(t_new, gens, scalars) == Err::<
            SigkeySetView,
            PixelError,
        >(PixelError::SigkeyAlreadyUpdated { current: set.t as u128, requested: t_new }),
        set.t < t_new <= set.t_max && gens.h.len() >= set.l + 2 && scalars.len()
            >= set.scalars_for(t_new as nat) ==> set.spec_fast_forward_update(
            t_new,
            gens,
            scalars,
        ) is Ok,
        set.spec_fast_forward_update(t_new, gens, scalars) matches Ok(after) ==> {
            &&& after.wf()
            &&& set.t < t_new == after.t
            &&& forall|t: u128| (#[trigger] after.spec_get_key(t) is Ok) == (t == t_new)
            &&& forall|t: u128, g: GeneratorSetView, s: Seq<Seq<char>>|
                t <= t_new ==> #[trigger] after.spec_fast_forward_update(t, g, s) is Err
        },
{
    if set.spec_fast_forward_update(t_new, gens, scalars) is Ok {
        lemma_updated_wf(set, t_new as nat, gens, scalars);
    }
}

/// A key set holds no key of an earlier period: every pending key belongs to a node
/// after the current period, and so does every node below it. What could sign for a
/// period that has passed is not in the set.
pub proof fn key_set_holds_no_earlier_key(set: SigkeySetView)
    requires
        set.wf(),
    ensures
        forall|i: int| 0 <= i < set.pending.len() ==> (#[trigger] set.pending[i]).node > set.t,
{
    assert forall|i: int| 0 <= i < set.pending.len() implies (#[trigger] set.pending[i]).node
        > set.t by {
        lemma_pending_after(set.l, set.t, set.current, set.pending, i);
    }
}

impl Sigkey {
    /// A copy of the key.
    pub(crate) fn duplicate(&self) -> (r: Sigkey)
        ensures
            r@ == self@,
    {
        let c = g2_clone(&self.c);
        let d = g1_clone(&self.d);
        let m = self.e.len();
        let mut e: Vec<G1> = Vec::new();
        let mut i: usize = 0;
        while i < m
            invariant
                i <= m,
                m == self.e@.len(),
                e@.len() == i,
                forall|j: int| 0 <= j < i ==> g1_hex(#[trigger] e@[j]) == g1_hex(self.e@[j]),
            decreases m - i,
        {
            e.push(g1_clone(&self.e[i]));
            i = i + 1;
        }
        let r = Sigkey { c, d, e };
        proof {
            assert(r@.e =~= self@.e);
        }
        r
    }
}

/// The number of blinding scalars for the walk from `node` down to `t`.
fn count_scalars(node: u128, m: usize, t: u128) -> (r: usize)
    requires
        m <= MAX_DEPTH,
        subtree_end(node as nat, m as nat) <= pow2(MAX_DEPTH as nat),
    ensures
        r == scalars_needed(node as nat, m as nat, t as nat),
        r <= 2 * m,
{
    let mut n: u128 = node;
    let mut mm: usize = m;
    let mut count: usize = 0;
    while n < t && mm > 1
        invariant
            mm <= m <= MAX_DEPTH,
            count <= 2 * (m - mm),
            subtree_end(n as nat, mm as nat) <= pow2(MAX_DEPTH as nat),
            count + scalars_needed(n as nat, mm as nat, t as nat) == scalars_needed(
                node as nat,
                m as nat,
                t as nat,
            ),
        decreases mm,
    {
        proof {
            lemma_pow2_unfold(mm as nat);
            lemma_pow2_pos((mm - 1) as nat);
            lemma_pow2_127();
        }
        let half = pow2_u128((mm - 1) as u8);
        if t < n + half {
            count = count + 2;
            n = n + 1;
        } else {
            count = count + 1;
            n = n + half;
        }
        mm = mm - 1;
    }
    count
}

/// The walk from a node whose key is `source` and whose path factor is `f` down to
/// `t`. It returns the key of `t` and the keys that the walk has opened.
fn walk_down(
    source: &Sigkey,
    node: u128,
    f: G1,
    t: u128,
    gens: &GeneratorSet,
    l: u8,
    scalars: &Vec<FieldElement>,
    Ghost(prefix): Ghost<Seq<PendingKeyView>>,
) -> (r: (Sigkey, Vec<PendingKey>))
    requires
        is_depth(l as nat),
        fits(l as nat, node as nat, source@),
        node <= t < subtree_end(node as nat, source@.e.len()) <= pow2(l as nat),
        gens@.h.len() >= l + 2,
        scalars@.len() >= scalars_needed(node as nat, source@.e.len(), t as nat),
    ensures
        ({
            let walk = descend(
                source@,
                node as nat,
                g1_hex(f),
                prefix,
                t as nat,
                gens@,
                l as nat,
                scalar_points(scalars@),
                0,
            );
            r.0@ == walk.key && prefix + pending_views(r.1@) == walk.opened
        }),
{
    let mut key = source.duplicate();
    let mut n: u128 = node;
    let mut f = f;
    let mut i: usize = 0;
    let mut opened: Vec<PendingKey> = Vec::new();
    let total = scalars.len();
    let ghost whole = descend(
        source@,
        node as nat,
        g1_hex(f),
        prefix,
        t as nat,
        gens@,
        l as nat,
        scalar_points(scalars@),
        0,
    );
    proof {
        assert(prefix + pending_views(opened@) =~= prefix);
        lemma_fits_levels(l as nat, node as nat, source@);
    }
    while n != t
        invariant
            is_depth(l as nat),
            1 <= key@.e.len() <= l,
            n <= t < subtree_end(n as nat, key@.e.len()) <= pow2(l as nat),
            gens@.h.len() >= l + 2,
            total == scalars@.len(),
            i + scalars_needed(n as nat, key@.e.len(), t as nat) <= total,
            whole == descend(
                key@,
                n as nat,
                g1_hex(f),
                prefix + pending_views(opened@),
                t as nat,
                gens@,
                l as nat,
                scalar_points(scalars@),
                i as nat,
            ),
        decreases key@.e.len(),
    {
        let m = key.e().len();
        proof {
            lemma2_to64();
            lemma_pow2_unfold(m as nat);
            lemma_pow2_pos((m - 1) as nat);
            lemma_pow2_127();
            lemma_pow2_monotonic(l as nat, 127);
        }
        let half = pow2_u128((m - 1) as u8);
        let level = &gens.1[l as usize - m + 2];
        let right_node = n + half;
        let f_right = step_down(&f, level, 2);
        let right = key.derive(2, &f_right, gens, l, &scalars[i]);
        if t < right_node {
            let f_left = step_down(&f, level, 1);
            let left = key.derive(1, &f_left, gens, l, &scalars[i + 1]);
            let ghost before = pending_views(opened@);
            opened.push(PendingKey { node: right_node, key: right });
            proof {
                assert(prefix + pending_views(opened@) =~= (prefix + before).push(
                    PendingKeyView { node: right_node as nat, key: right@ },
                ));
            }
            key = left;
            f = f_left;
            n = n + 1;
            i = i + 2;
        } else {
            key = right;
            f = f_right;
            n = right_node;
            i = i + 1;
        }
    }
    (key, opened)
}

/// Draws `n` blinding scalars.
fn draw_scalars(n: usize, rng: &mut ThreadRng) -> (r: Vec<FieldElement>)
    ensures
        r@.len() == n,
{
    let mut scalars: Vec<FieldElement> = Vec::new();
    let mut i: usize = 0;
    while i < n
        invariant
            i <= n,
            scalars@.len() == i,
        decreases n - i,
    {
        scalars.push(scalar_random(rng));
        i = i + 1;
    }
    scalars
}

impl SigkeySet {
    /// Whether the key set is one that this library has made.
    pub open spec fn wf(&self) -> bool {
        self@.wf()
    }

    /// What `new` returns.
    pub open spec fn spec_new(
        t_max: u128,
        gens: GeneratorSetView,
        x: Seq<char>,
        r: Seq<char>,
    ) -> Result<SigkeySetView, PixelError> {
        match spec_calculate_l(t_max) {
            Err(e) => Err(e),
            Ok(l) => match Sigkey::spec_initial_secret_key(gens, l, x, r) {
                Err(e) => Err(e),
                Ok(key) => Ok(
                    SigkeySetView {
                        l: l as nat,
                        t_max: t_max as nat,
                        t: 1,
                        current: key,
                        pending: Seq::empty(),
                    },
                ),
            },
        }
    }

    /// The key set of a new signer, at the first period: it holds the key of the
    /// root for the master secret, blinded by `r`, and no pending key. It fails when
    /// `t_max` has no depth, and when the generator set is too short for that depth.
    pub fn new(
        t_max: u128,
        gens: &GeneratorSet,
        master_secret: &FieldElement,
        r: &FieldElement,
    ) -> (res: Result<SigkeySet, PixelError>)
        ensures
            res matches Ok(set) ==> set.wf() && Self::spec_new(
                t_max,
                gens@,
                scalar_hex(*master_secret),
                scalar_hex(*r),
            ) == Ok::<SigkeySetView, PixelError>(set@),
            res matches Err(e) ==> Self::spec_new(
                t_max,
                gens@,
                scalar_hex(*master_secret),
                scalar_hex(*r),
            ) == Err::<SigkeySetView, PixelError>(e),
    {
        let l = match calculate_l(t_max) {
            Ok(l) => l,
            Err(e) => { return Err(e); },
        };
        let key = match Sigkey::initial_secret_key(gens, l, master_secret, r) {
            Ok(key) => key,
            Err(e) => { return Err(e); },
        };
        let set = SigkeySet { l, t_max, t: 1, current: key, pending: Vec::new() };
        proof {
            assert(set@.pending =~= Seq::<PendingKeyView>::empty());
            assert(path_of(1, l as nat) =~= Seq::<u8>::empty());
            lemma_pow2_pos((l - 1) as nat);
            lemma_pow2_unfold(l as nat);
        }
        Ok(set)
    }

    /// The depth of the tree.
    pub fn depth(&self) -> (l: u8)
        ensures
            l == self@.l,
    {
        self.l
    }

    /// The current period.
    pub fn current_period(&self) -> (t: u128)
        ensures
            t == self@.t,
    {
        self.t
    }

    /// The last period.
    pub fn max_period(&self) -> (t_max: u128)
        ensures
            t_max == self@.t_max,
    {
        self.t_max
    }

    /// The key of period `t`, which the set holds for the current period only.
    /// Asking for another period fails and changes nothing.
    pub fn get_key(&self, t: u128) -> (r: Result<&Sigkey, PixelError>)
        requires
            self.wf(),
        ensures
            r matches Ok(key) ==> key.wf() && self@.spec_get_key(t) == Ok::<SigkeyView, PixelError>(
                key@,
            ),
            r matches Err(e) ==> self@.spec_get_key(t) == Err::<SigkeyView, PixelError>(e),
    {
        if t == self.t {
            proof {
                lemma_fits_levels(self.l as nat, self.t as nat, self.current@);
            }
            Ok(&self.current)
        } else {
            Err(PixelError::SigkeyNotFound { t })
        }
    }

    /// The number of pending keys, from the first, whose nodes come after `t`.
    fn later_keys(&self, t: u128) -> (keep: usize)
        ensures
            keep == later_count(self@.pending, t as nat),
            keep <= self.pending@.len(),
    {
        let count = self.pending.len();
        let mut keep: usize = 0;
        while keep < count && self.pending[keep].node > t
            invariant
                keep <= count,
                count == self.pending@.len(),
                forall|i: int| 0 <= i < keep ==> (#[trigger] self@.pending[i]).node > t,
            decreases count - keep,
        {
            keep = keep + 1;
        }
        proof {
            if keep < count {
                assert(self@.pending[keep as int].node == self.pending@[keep as int].node);
            }
            lemma_later_count_is(self@.pending, t as nat, keep as int);
        }
        keep
    }

    /// How many blinding scalars the update to `t_new` consumes: none where the key
    /// of `t_new` is pending already, and at most two for each level of the tree.
    pub fn scalars_for_update(&self, t_new: u128) -> (n: usize)
        requires
            self.wf(),
        ensures
            n == self@.scalars_for(t_new as nat),
            n <= 2 * self@.l,
    {
        let keep = self.later_keys(t_new);
        proof {
            lemma_tiled_order(self.l as nat, self.t as nat, self.current@, self@.pending);
            lemma_pow2_monotonic(self.l as nat, 127);
        }
        if keep < self.pending.len() {
            let src = &self.pending[keep];
            proof {
                assert(self@.pending[keep as int] == src@);
                lemma_fits_levels(self.l as nat, src.node as nat, src.key@);
            }
            count_scalars(src.node, src.key.e.len(), t_new)
        } else {
            proof {
                lemma_fits_levels(self.l as nat, self.t as nat, self.current@);
            }
            count_scalars(self.t, self.current.e.len(), t_new)
        }
    }

    /// Moves the key set forward to period `t_new`, with the given blinding scalars.
    /// It fails, and changes nothing, when `t_new` is not after the current period,
    /// when it is after the last period, when the generator set is too short for the
    /// tree, and when fewer scalars are given than the update consumes. Else the key
    /// of `t_new` becomes the current key, and every key that could reach a period
    /// before `t_new` leaves the set and is dropped.
    pub fn fast_forward_update_deterministic(
        &mut self,
        t_new: u128,
        gens: &GeneratorSet,
        scalars: &Vec<FieldElement>,
    ) -> (r: Result<(), PixelError>)
        requires
            old(self).wf(),
        ensures
            final(self).wf(),
            r matches Ok(_) ==> old(self)@.spec_fast_forward_update(
                t_new,
                gens@,
                scalar_points(scalars@),
            ) == Ok::<SigkeySetView, PixelError>(final(self)@),
            r matches Err(e) ==> final(self)@ == old(self)@ && old(self)@.spec_fast_forward_update(
                t_new,
                gens@,
                scalar_points(scalars@),
            ) == Err::<SigkeySetView, PixelError>(e),
    {
        if t_new <= self.t {
            return Err(PixelError::SigkeyAlreadyUpdated { current: self.t, requested: t_new });
        }
        if t_new > self.t_max {
            return Err(PixelError::PeriodBeyondMax { t: t_new, t_max: self.t_max });
        }
        let l = self.l;
        if gens.1.len() < l as usize + 2 {
            return Err(PixelError::NotEnoughGenerators { n: l as usize + 2 });
        }
        let needed = self.scalars_for_update(t_new);
        if scalars.len() < needed {
            return Err(PixelError::NotEnoughScalars { n: needed });
        }
        let keep = self.later_keys(t_new);
        let ghost before = self@;
        let ghost kept = before.pending.take(keep as int);
        let ghost src = before.source(t_new as nat);
        proof {
            lemma_updated_wf(before, t_new as nat, gens@, scalar_points(scalars@));
            lemma_later_count(before.pending, t_new as nat);
            lemma_tiled_order(before.l, before.t, before.current, before.pending);
            if keep < before.pending.len() {
                assert(before.pending[keep as int] == self.pending@[keep as int]@);
            }
            lemma_path_of_is_path(src.node, before.l);
        }
        let count = self.pending.len();
        let node = if keep < count { self.pending[keep].node } else { self.t };
        // The node lies in the tree and the generators reach its level, so its path
        // factor exists.
        let f = match calculate_path_factor_using_t_l(node, l, gens) {
            Ok(f) => f,
            Err(e) => { return Err(e); },
        };
        let source = if keep < count { &self.pending[keep].key } else { &self.current };
        let (key, mut opened) = walk_down(source, node, f, t_new, gens, l, scalars, Ghost(kept));
        self.pending.truncate(keep);
        proof {
            assert(pending_views(self.pending@) =~= kept);
        }
        self.pending.append(&mut opened);
        self.current = key;
        self.t = t_new;
        proof {
            let walk = descend(
                src.key,
                src.node,
                path_factor(path_of(src.node, before.l), gens@.h),
                kept,
                t_new as nat,
                gens@,
                before.l,
                scalar_points(scalars@),
                0,
            );
            assert(self@.pending =~= walk.opened);
        }
        Ok(())
    }

    /// Moves the key set forward to period `t_new`, with blinding scalars drawn from
    /// `rng`. It fails, and changes nothing, when `t_new` is not after the current
    /// period, when it is after the last period, and when the generator set is too
    /// short for the tree. Else the set is what some scalars make of it.
    pub fn fast_forward_update(
        &mut self,
        t_new: u128,
        gens: &GeneratorSet,
        rng: &mut ThreadRng,
    ) -> (r: Result<(), PixelError>)
        requires
            old(self).wf(),
        ensures
            final(self).wf(),
            r matches Ok(_) ==> old(self)@.update_error(t_new, gens@) is None && exists|
                scalars: Seq<Seq<char>>,
            |
                scalars.len() == old(self)@.scalars_for(t_new as nat) && final(self)@ == old(
                    self,
                )@.updated(t_new as nat, gens@, scalars),
            r matches Err(e) ==> final(self)@ == old(self)@ && old(self)@.update_error(t_new, gens@)
                == Some(e),
    {
        let needed = self.scalars_for_update(t_new);
        let scalars = draw_scalars(needed, rng);
        let r = self.fast_forward_update_deterministic(t_new, gens, &scalars);
        proof {
            if r is Ok {
                let witness = scalar_points(scalars@);
                assert(witness.len() == old(self)@.scalars_for(t_new as nat) && self@ == old(
                    self,
                )@.updated(t_new as nat, gens@, witness));
            }
        }
        r
    }
}

/// The keys of one signer: the verification key, and the key set that signs for it.
/// Both come from one master secret, which is not kept.
pub struct Keypair {
    pub ver_key: Verkey,
    pub sigkey_set: SigkeySet,
}

/// The keys of one signer as values.
pub struct KeypairView {
    pub ver_key: Seq<char>,
    pub sigkey_set: SigkeySetView,
}

impl View for Keypair {
    type V = KeypairView;

    open spec fn view(&self) -> KeypairView {
        KeypairView { ver_key: self.ver_key@, sigkey_set: self.sigkey_set@ }
    }
}

impl Keypair {
    /// What `new_deterministic` returns.
    pub open spec fn spec_new_deterministic(
        t_max: u128,
        gens: GeneratorSetView,
        x: Seq<char>,
        r: Seq<char>,
    ) -> Result<KeypairView, PixelError> {
        match SigkeySet::spec_new(t_max, gens, x, r) {
            Err(e) => Err(e),
            Ok(set) => Ok(KeypairView { ver_key: g2_times(gens.g2, x), sigkey_set: set }),
        }
    }

    /// The keys of the signer with the given master secret, the first key blinded by
    /// `r`. It fails when `t_max` has no depth, and when the generator set is too
    /// short for that depth.
    pub fn new_deterministic(
        t_max: u128,
        gens: &GeneratorSet,
        master_secret: &FieldElement,
        r: &FieldElement,
    ) -> (res: Result<Keypair, PixelError>)
        ensures
            res matches Ok(pair) ==> pair.sigkey_set.wf() && Self::spec_new_deterministic(
                t_max,
                gens@,
                scalar_hex(*master_secret),
                scalar_hex(*r),
            ) == Ok::<KeypairView, PixelError>(pair@),
            res matches Err(e) ==> Self::spec_new_deterministic(
                t_max,
                gens@,
                scalar_hex(*master_secret),
                scalar_hex(*r),
            ) == Err::<KeypairView, PixelError>(e),
    {
        let sigkey_set = match SigkeySet::new(t_max, gens, master_secret, r) {
            Ok(set) => set,
            Err(e) => { return Err(e); },
        };
        let ver_key = Verkey::from_master_secret(master_secret, &gens.0);
        Ok(Keypair { ver_key, sigkey_set })
    }

    /// The keys of a new signer under a generator set that others may share. The
    /// master secret and the blinding scalar are drawn from `rng`, so two signers
    /// share no secret. It fails as `new_deterministic` does, whatever is drawn.
    pub fn new(
        t_max: u128,
        gens: &GeneratorSet,
        rng: &mut ThreadRng,
    ) -> (res: Result<Keypair, PixelError>)
        ensures
            res matches Ok(pair) ==> pair.sigkey_set.wf() && exists|x: Seq<char>, r: Seq<char>|
                Self::spec_new_deterministic(t_max, gens@, x, r) == Ok::<KeypairView, PixelError>(
                    pair@,
                ),
            res matches Err(e) ==> forall|x: Seq<char>, r: Seq<char>|
                Self::spec_new_deterministic(t_max, gens@, x, r) == Err::<KeypairView, PixelError>(
                    e,
                ),
    {
        let master_secret = scalar_random(rng);
        let r = scalar_random(rng);
        Self::new_deterministic(t_max, gens, &master_secret, &r)
    }
}

/// Sets a deployment up: the generator set of the label for `t_max` periods, and
/// the keys of a first signer under it. It fails when `t_max` has no depth.
pub fn setup(
    t_max: u128,
    label: &str,
    rng: &mut ThreadRng,
) -> (res: Result<(GeneratorSet, Verkey, SigkeySet), PixelError>)
    ensures
        res matches Ok(made) ==> {
            &&& GeneratorSet::spec_new(t_max, label.spec_bytes()) == Ok::<
                GeneratorSetView,
                PixelError,
            >(made.0@)
            &&& made.2.wf()
            &&& exists|x: Seq<char>, r: Seq<char>|
                Keypair::spec_new_deterministic(t_max, made.0@, x, r) == Ok::<
                    KeypairView,
                    PixelError,
                >(KeypairView { ver_key: made.1@, sigkey_set: made.2@ })
        },
        res matches Err(e) ==> GeneratorSet::spec_new(t_max, label.spec_bytes()) == Err::<
            GeneratorSetView,
            PixelError,
        >(e),
{
    let gens = match GeneratorSet::new(t_max, label) {
        Ok(gens) => gens,
        Err(e) => { return Err(e); },
    };
    let pair = match Keypair::new(t_max, &gens, rng) {
        Ok(pair) => pair,
        Err(e) => {
            proof {
                let x = Seq::<char>::empty();
                lemma_calculate_l_is_depth(t_max);
                assert(Keypair::spec_new_deterministic(t_max, gens@, x, x) is Ok);
            }
            return Err(e);
        },
    };
    let Keypair { ver_key, sigkey_set } = pair;
    Ok((gens, ver_key, sigkey_set))
}

} // verus!
