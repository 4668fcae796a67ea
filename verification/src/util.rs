//! The tree of periods: its depth, the numbering of its nodes, their paths, and the
//! path factor of a node.

use vstd::prelude::*;
use vstd::arithmetic::power2::{
    lemma2_to64, lemma_pow2_adds, lemma_pow2_pos, lemma_pow2_strictly_increases,
    lemma_pow2_unfold, pow2,
};
use amcl_wrapper::group_elem_g1::G1;
use crate::algebra::{g1_add, g1_clone, g1_hex, g1_plus};
use crate::errors::PixelError;
use crate::keys::{GeneratorSet, GeneratorSetView};

verus! {

/// The largest depth of a tree whose node numbers fit in a `u128`.
pub const MAX_DEPTH: u8 = 127;

/// Whether a tree of depth `l` can be numbered: it has a root, and `2^l` fits in a `u128`.
pub open spec fn is_depth(l: nat) -> bool {
    1 <= l <= MAX_DEPTH
}

/// Whether `t` numbers a node of the tree of depth `l`. The `2^l - 1` nodes are
/// numbered from 1 in pre-order: a node, then its left subtree, then its right one.
pub open spec fn is_node(t: nat, l: nat) -> bool {
    is_depth(l) && 1 <= t < pow2(l)
}

/// The number of binary digits of `n`: the least `l` with `n < 2^l`.
pub open spec fn bit_length(n: nat) -> nat
    decreases n,
{
    if n == 0 {
        0
    } else {
        1 + bit_length(n / 2)
    }
}

/// What `calculate_l` returns: the least depth whose tree has `t_max` nodes or more.
pub open spec fn spec_calculate_l(t_max: u128) -> Result<u8, PixelError> {
    if t_max == 0 || t_max >= pow2(MAX_DEPTH as nat) {
        Err(PixelError::InvalidMaxTimePeriod { t_max })
    } else {
        Ok(bit_length(t_max as nat) as u8)
    }
}

/// The value of `2^127`, half of what a `u128` can count.
pub proof fn lemma_pow2_127()
    ensures
        pow2(127) == 0x8000_0000_0000_0000_0000_0000_0000_0000,
        pow2(127) + pow2(127) - 1 == u128::MAX,
{
    lemma2_to64();
    lemma_pow2_adds(64, 32);
    lemma_pow2_adds(96, 31);
    assert(pow2(96) == 0x1_0000_0000_0000_0000_0000_0000) by (nonlinear_arith)
        requires
            pow2(96) == pow2(64) * pow2(32),
            pow2(64) == 0x1_0000_0000_0000_0000,
            pow2(32) == 0x1_0000_0000,
    ;
    assert(pow2(127) == 0x8000_0000_0000_0000_0000_0000_0000_0000) by (nonlinear_arith)
        requires
            pow2(127) == pow2(96) * pow2(31),
            pow2(96) == 0x1_0000_0000_0000_0000_0000_0000,
            pow2(31) == 0x8000_0000,
    ;
}

/// `2^e` is monotonic in `e`.
pub proof fn lemma_pow2_monotonic(a: nat, b: nat)
    requires
        a <= b,
    ensures
        pow2(a) <= pow2(b),
{
    if a < b {
        lemma_pow2_strictly_increases(a, b);
    }
}

/// The bit length `l` of a positive `n` is the one number with `2^(l-1) <= n < 2^l`.
pub proof fn lemma_bit_length_bounds(n: nat)
    requires
        n > 0,
    ensures
        bit_length(n) >= 1,
        pow2((bit_length(n) - 1) as nat) <= n < pow2(bit_length(n)),
    decreases n,
{
    if n == 1 {
        assert(bit_length(1) == 1 + bit_length(0));
        lemma2_to64();
    } else {
        lemma_bit_length_bounds(n / 2);
        let l = bit_length(n / 2);
        lemma_pow2_unfold(l);
        lemma_pow2_unfold(l + 1);
    }
}

/// The depth that `spec_calculate_l` gives is a depth, and the least one whose tree
/// holds `t_max` nodes.
pub proof fn lemma_calculate_l_is_depth(t_max: u128)
    ensures
        spec_calculate_l(t_max) matches Ok(l) ==> is_depth(l as nat) && l == bit_length(
            t_max as nat,
        ) && pow2((l - 1) as nat) <= t_max < pow2(l as nat),
{
    if spec_calculate_l(t_max) is Ok {
        let b = bit_length(t_max as nat);
        lemma_bit_length_bounds(t_max as nat);
        if b > 127 {
            lemma_pow2_monotonic(127, (b - 1) as nat);
        }
    }
}

/// The depth that `calculate_l` gives is the least: every tree that holds `t_max`
/// nodes is as deep or deeper.
pub proof fn calculated_depth_is_least(t_max: u128, other: nat)
    requires
        t_max < pow2(other),
    ensures
        spec_calculate_l(t_max) matches Ok(l) ==> l <= other,
{
    lemma_calculate_l_is_depth(t_max);
    if spec_calculate_l(t_max) is Ok {
        let l = bit_length(t_max as nat);
        if other < l {
            lemma_pow2_monotonic(other, (l - 1) as nat);
        }
    }
}

/// `2^e` for an exponent whose power fits in a `u128`.
pub fn pow2_u128(e: u8) -> (r: u128)
    requires
        e <= MAX_DEPTH,
    ensures
        r == pow2(e as nat),
{
    let mut r: u128 = 1;
    let mut i: u8 = 0;
    proof {
        lemma2_to64();
    }
    while i < e
        invariant
            i <= e <= MAX_DEPTH,
            r == pow2(i as nat),
        decreases e - i,
    {
        proof {
            lemma_pow2_unfold((i + 1) as nat);
            lemma_pow2_monotonic((i + 1) as nat, 127);
            lemma_pow2_127();
        }
        r = r * 2;
        i = i + 1;
    }
    r
}

/// The depth of the tree for `t_max` periods: the least `l` with `t_max <= 2^l - 1`.
/// It fails when there is no period at all, and when the depth would pass `MAX_DEPTH`.
pub fn calculate_l(t_max: u128) -> (r: Result<u8, PixelError>)
    ensures
        r == spec_calculate_l(t_max),
        r matches Ok(l) ==> is_depth(l as nat) && pow2((l - 1) as nat) <= t_max < pow2(l as nat),
{
    proof {
        lemma_pow2_127();
    }
    if t_max == 0 || t_max >= 0x8000_0000_0000_0000_0000_0000_0000_0000 {
        return Err(PixelError::InvalidMaxTimePeriod { t_max });
    }
    let mut l: u8 = 0;
    let mut t: u128 = t_max;
    while t != 0
        invariant
            l <= 127,
            bit_length(t_max as nat) == l + bit_length(t as nat),
            t < pow2((127 - l) as nat),
        decreases t,
    {
        proof {
            if l == 127 {
                lemma2_to64();
            } else {
                lemma_pow2_unfold((127 - l) as nat);
            }
        }
        t = t / 2;
        l = l + 1;
    }
    proof {
        lemma_bit_length_bounds(t_max as nat);
    }
    Ok(l)
}

/// The path from the root to node `t` in the tree of depth `l`: a step is 1 to the
/// left child and 2 to the right one. The root has the empty path.
pub open spec fn path_of(t: nat, l: nat) -> Seq<u8>
    decreases l,
{
    if l <= 1 || t <= 1 {
        Seq::empty()
    } else if t <= pow2((l - 1) as nat) {
        seq![1u8] + path_of((t - 1) as nat, (l - 1) as nat)
    } else {
        seq![2u8] + path_of((t - pow2((l - 1) as nat)) as nat, (l - 1) as nat)
    }
}

/// Whether `path` leads from the root to a node of the tree of depth `l`.
pub open spec fn is_path(path: Seq<u8>, l: nat) -> bool {
    &&& is_depth(l)
    &&& path.len() < l
    &&& forall|i: int| 0 <= i < path.len() ==> path[i] == 1 || path[i] == 2
}

/// The number of the node that `path` leads to in the tree of depth `l`. The left
/// child follows its parent; the right child follows the whole left subtree.
pub open spec fn node_of(path: Seq<u8>, l: nat) -> nat
    decreases path.len(),
{
    if path.len() == 0 {
        1
    } else if path[0] == 1 {
        1 + node_of(path.drop_first(), (l - 1) as nat)
    } else {
        pow2((l - 1) as nat) + node_of(path.drop_first(), (l - 1) as nat)
    }
}

/// What `from_node_num_to_path` returns.
pub open spec fn spec_from_node_num_to_path(t: u128, l: u8) -> Result<Seq<u8>, PixelError> {
    if is_node(t as nat, l as nat) {
        Ok(path_of(t as nat, l as nat))
    } else {
        Err(PixelError::InvalidNodeNum { t, l })
    }
}

/// What `path_to_node_num` returns.
pub open spec fn spec_path_to_node_num(path: Seq<u8>, l: u8) -> Result<u128, PixelError> {
    if is_path(path, l as nat) {
        Ok(node_of(path, l as nat) as u128)
    } else {
        Err(PixelError::InvalidPath { l })
    }
}

/// The path of a node is a path of the tree.
pub proof fn lemma_path_of_is_path(t: nat, l: nat)
    requires
        is_node(t, l),
    ensures
        is_path(path_of(t, l), l),
    decreases l,
{
    if l > 1 && t > 1 {
        let half = pow2((l - 1) as nat);
        lemma_pow2_unfold(l);
        if t <= half {
            lemma_path_of_is_path((t - 1) as nat, (l - 1) as nat);
        } else {
            lemma_path_of_is_path((t - half) as nat, (l - 1) as nat);
        }
    }
}

/// A path of the tree leads to one of its nodes.
pub proof fn lemma_node_of_is_node(path: Seq<u8>, l: nat)
    requires
        is_path(path, l),
    ensures
        is_node(node_of(path, l), l),
    decreases path.len(),
{
    lemma_pow2_pos((l - 1) as nat);
    lemma_pow2_unfold(l);
    if path.len() > 0 {
        lemma_node_of_is_node(path.drop_first(), (l - 1) as nat);
    }
}

/// Numbering the path of a node gives the node back.
pub proof fn lemma_node_of_path_of(t: nat, l: nat)
    requires
        is_node(t, l),
    ensures
        node_of(path_of(t, l), l) == t,
    decreases l,
{
    if l <= 1 {
        lemma2_to64();
    } else if t > 1 {
        let half = pow2((l - 1) as nat);
        lemma_pow2_unfold(l);
        if t <= half {
            let rest = path_of((t - 1) as nat, (l - 1) as nat);
            lemma_node_of_path_of((t - 1) as nat, (l - 1) as nat);
            assert((seq![1u8] + rest).drop_first() =~= rest);
        } else {
            let rest = path_of((t - half) as nat, (l - 1) as nat);
            lemma_node_of_path_of((t - half) as nat, (l - 1) as nat);
            assert((seq![2u8] + rest).drop_first() =~= rest);
        }
    }
}

/// The path of the node that a path leads to is that path.
pub proof fn lemma_path_of_node_of(path: Seq<u8>, l: nat)
    requires
        is_path(path, l),
    ensures
        path_of(node_of(path, l), l) == path,
    decreases path.len(),
{
    if path.len() == 0 {
        assert(path =~= Seq::<u8>::empty());
    } else {
        let rest = path.drop_first();
        lemma_node_of_is_node(rest, (l - 1) as nat);
        lemma_path_of_node_of(rest, (l - 1) as nat);
        assert(path =~= seq![path[0]] + rest);
    }
}

/// The path from the root to node `t` of the tree of depth `l`. It fails when `t`
/// is no node of that tree.
pub fn from_node_num_to_path(t: u128, l: u8) -> (r: Result<Vec<u8>, PixelError>)
    ensures
        r matches Ok(path) ==> spec_from_node_num_to_path(t, l) == Ok::<Seq<u8>, PixelError>(path@),
        r matches Err(e) ==> spec_from_node_num_to_path(t, l) == Err::<Seq<u8>, PixelError>(e),
{
    if l == 0 || l > MAX_DEPTH || t == 0 {
        return Err(PixelError::InvalidNodeNum { t, l });
    }
    let size = pow2_u128(l);
    if t >= size {
        return Err(PixelError::InvalidNodeNum { t, l });
    }
    let mut path: Vec<u8> = Vec::new();
    let mut tc: u128 = t;
    let mut lc: u8 = l;
    proof {
        assert(path@ + path_of(tc as nat, lc as nat) =~= path_of(t as nat, l as nat));
    }
    while tc != 1
        invariant
            is_node(tc as nat, lc as nat),
            path_of(t as nat, l as nat) == path@ + path_of(tc as nat, lc as nat),
        decreases lc,
    {
        proof {
            if lc == 1 {
                lemma2_to64();
            }
            lemma_pow2_unfold(lc as nat);
        }
        let half = pow2_u128(lc - 1);
        let ghost before = path@;
        let ghost rest_before = path_of(tc as nat, lc as nat);
        if tc <= half {
            path.push(1);
            tc = tc - 1;
        } else {
            path.push(2);
            tc = tc - half;
        }
        lc = lc - 1;
        proof {
            let rest = path_of(tc as nat, lc as nat);
            assert(rest_before == seq![path@.last()] + rest);
            assert(before + rest_before =~= path@ + rest);
        }
    }
    proof {
        assert(path@ + Seq::<u8>::empty() =~= path@);
    }
    Ok(path)
}

/// The number of the node that `path` leads to in the tree of depth `l`. It fails
/// when the path has a step other than 1 and 2, or leaves the tree.
pub fn path_to_node_num(path: &[u8], l: u8) -> (r: Result<u128, PixelError>)
    ensures
        r == spec_path_to_node_num(path@, l),
{
    if l == 0 || l > MAX_DEPTH || path.len() >= l as usize {
        return Err(PixelError::InvalidPath { l });
    }
    let n = path.len();
    let mut i: usize = 0;
    let mut t: u128 = 1;
    proof {
        assert(path@.skip(0) =~= path@);
    }
    while i < n
        invariant
            i <= n,
            n == path@.len(),
            n < l <= MAX_DEPTH,
            forall|j: int| 0 <= j < i ==> path@[j] == 1 || path@[j] == 2,
            node_of(path@, l as nat) == (t - 1) + node_of(path@.skip(i as int), (l - i) as nat),
            1 <= t,
            (t - 1) + pow2((l - i) as nat) <= pow2(l as nat),
        decreases n - i,
    {
        let step = path[i];
        if step != 1 && step != 2 {
            return Err(PixelError::InvalidPath { l });
        }
        proof {
            lemma_pow2_127();
            lemma_pow2_monotonic(l as nat, 127);
            lemma_pow2_unfold((l - i) as nat);
            assert(path@.skip(i as int).drop_first() =~= path@.skip(i + 1));
            assert(path@.skip(i as int)[0] == step);
            lemma_pow2_pos((l - i - 1) as nat);
        }
        let half = pow2_u128(l - 1 - (i as u8));
        if step == 1 {
            t = t + 1;
        } else {
            t = t + half;
        }
        i = i + 1;
    }
    proof {
        assert(path@.skip(n as int) =~= Seq::<u8>::empty());
        lemma_node_of_is_node(path@, l as nat);
    }
    Ok(t)
}

/// A point of G1 moved one step down the tree: the generator of the level is added
/// once for a step to the left, twice for a step to the right.
pub open spec fn stepped(acc: Seq<char>, level: Seq<char>, step: u8) -> Seq<char> {
    if step == 1 {
        g1_plus(acc, level)
    } else {
        g1_plus(g1_plus(acc, level), level)
    }
}

/// The path factor of a path over the generators `h` of G1: `h[1]`, moved down the
/// path step by step, the step at index `i` with the generator `h[i + 2]`.
pub open spec fn path_factor(path: Seq<u8>, h: Seq<Seq<char>>) -> Seq<char>
    decreases path.len(),
{
    if path.len() == 0 {
        h[1]
    } else {
        stepped(path_factor(path.drop_last(), h), h[path.len() as int + 1], path.last())
    }
}

/// What `calculate_path_factor` returns.
pub open spec fn spec_calculate_path_factor(path: Seq<u8>, gens: GeneratorSetView) -> Result<
    Seq<char>,
    PixelError,
> {
    if gens.h.len() < path.len() + 2 {
        Err(PixelError::NotEnoughGenerators { n: (path.len() + 2) as usize })
    } else {
        Ok(path_factor(path, gens.h))
    }
}

/// What `calculate_path_factor_using_t_l` returns.
pub open spec fn spec_calculate_path_factor_using_t_l(
    t: u128,
    l: u8,
    gens: GeneratorSetView,
) -> Result<Seq<char>, PixelError> {
    if !is_node(t as nat, l as nat) {
        Err(PixelError::InvalidNodeNum { t, l })
    } else {
        spec_calculate_path_factor(path_of(t as nat, l as nat), gens)
    }
}

/// One step of a path factor.
pub(crate) fn step_down(acc: &G1, level: &G1, step: u8) -> (r: G1)
    ensures
        g1_hex(r) == stepped(g1_hex(*acc), g1_hex(*level), step),
{
    let once = g1_add(acc, level);
    if step == 1 {
        once
    } else {
        g1_add(&once, level)
    }
}

/// The path factor of `path` over the generators of G1. It fails when the path has
/// more steps than the generator set has levels.
pub fn calculate_path_factor(path: &[u8], gens: &GeneratorSet) -> (r: Result<G1, PixelError>)
    requires
        path@.len() + 2 <= usize::MAX,
    ensures
        r matches Ok(f) ==> spec_calculate_path_factor(path@, gens@) == Ok::<Seq<char>, PixelError>(
            g1_hex(f),
        ),
        r matches Err(e) ==> spec_calculate_path_factor(path@, gens@) == Err::<
            Seq<char>,
            PixelError,
        >(e),
{
    let n = path.len();
    if gens.1.len() < n + 2 {
        return Err(PixelError::NotEnoughGenerators { n: n + 2 });
    }
    let mut f = g1_clone(&gens.1[1]);
    let mut i: usize = 0;
    proof {
        assert(path@.take(0) =~= Seq::<u8>::empty());
    }
    while i < n
        invariant
            i <= n,
            n == path@.len(),
            n + 2 <= gens.1@.len(),
            n + 2 <= usize::MAX,
            g1_hex(f) == path_factor(path@.take(i as int), gens@.h),
        decreases n - i,
    {
        proof {
            assert(path@.take(i + 1).drop_last() =~= path@.take(i as int));
        }
        f = step_down(&f, &gens.1[i + 2], path[i]);
        i = i + 1;
    }
    proof {
        assert(path@.take(n as int) =~= path@);
    }
    Ok(f)
}

/// The path factor of node `t` of the tree of depth `l`. It fails when `t` is no
/// node of that tree, and when the generator set is too short for its path.
pub fn calculate_path_factor_using_t_l(
    t: u128,
    l: u8,
    gens: &GeneratorSet,
) -> (r: Result<G1, PixelError>)
    ensures
        r matches Ok(f) ==> spec_calculate_path_factor_using_t_l(t, l, gens@) == Ok::<
            Seq<char>,
            PixelError,
        >(g1_hex(f)),
        r matches Err(e) ==> spec_calculate_path_factor_using_t_l(t, l, gens@) == Err::<
            Seq<char>,
            PixelError,
        >(e),
{
    let path = match from_node_num_to_path(t, l) {
        Ok(path) => path,
        Err(e) => { return Err(e); },
    };
    proof {
        lemma_path_of_is_path(t as nat, l as nat);
    }
    calculate_path_factor(path.as_slice(), gens)
}

/// One past the last node of a subtree that starts at `node` and has `m` levels.
/// In pre-order the `2^m - 1` nodes of a subtree are numbered in a row.
pub open spec fn subtree_end(node: nat, m: nat) -> nat {
    (node + pow2(m) - 1) as nat
}

/// The children of a node that is not on the last level: the left child is the next
/// node, the right child follows the subtree of the left one, and their paths are
/// the path of the node with one step more.
pub proof fn lemma_child_paths(n: nat, l: nat)
    requires
        is_node(n, l),
        path_of(n, l).len() + 1 < l,
    ensures
        is_node(n + 1, l),
        path_of(n + 1, l) == path_of(n, l).push(1u8),
        is_node(n + pow2((l - path_of(n, l).len() - 1) as nat), l),
        path_of(n + pow2((l - path_of(n, l).len() - 1) as nat), l) == path_of(n, l).push(2u8),
    decreases l,
{
    let half = pow2((l - 1) as nat);
    lemma_pow2_unfold(l);
    lemma_pow2_unfold((l - 1) as nat);
    lemma_pow2_pos((l - 2) as nat);
    if n <= 1 {
        assert(path_of(n, l) =~= Seq::<u8>::empty());
        assert(path_of(1, (l - 1) as nat) =~= Seq::<u8>::empty());
        assert((n + 1 - 1) as nat == 1);
        assert((n + half - half) as nat == 1);
        assert(path_of(n + 1, l) =~= path_of(n, l).push(1u8));
        assert(path_of(n + half, l) =~= path_of(n, l).push(2u8));
    } else if n <= half {
        let p = path_of((n - 1) as nat, (l - 1) as nat);
        assert(path_of(n, l) == seq![1u8] + p);
        lemma_child_paths((n - 1) as nat, (l - 1) as nat);
        let step = pow2((l - 1 - p.len() - 1) as nat);
        assert((n - 1 + 1) as nat == n);
        assert((n + 1 - 1) as nat == n);
        assert((n + step - 1) as nat == (n - 1) as nat + step);
        assert(path_of(n + 1, l) =~= path_of(n, l).push(1u8));
        assert(path_of(n + step, l) =~= path_of(n, l).push(2u8));
    } else {
        let p = path_of((n - half) as nat, (l - 1) as nat);
        assert(path_of(n, l) == seq![2u8] + p);
        lemma_child_paths((n - half) as nat, (l - 1) as nat);
        let step = pow2((l - 1 - p.len() - 1) as nat);
        assert((n + 1 - half) as nat == (n - half) as nat + 1);
        assert((n + step - half) as nat == (n - half) as nat + step);
        assert(path_of(n + 1, l) =~= path_of(n, l).push(1u8));
        assert(path_of(n + step, l) =~= path_of(n, l).push(2u8));
    }
}

} // verus!
