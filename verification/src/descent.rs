//! The walk down the tree that moves a key set forward, as a function on values, and
//! what it keeps true of the keys.

use vstd::prelude::*;
use vstd::arithmetic::power2::{pow2, lemma_pow2_unfold, lemma2_to64, lemma_pow2_pos};
use crate::keys::{derived_key, GeneratorSetView, SigkeyView};
use crate::util::{
    is_node, lemma_child_paths, lemma_path_of_is_path, path_of, stepped, subtree_end,
};

verus! {

/// The key of a node that lies ahead, with the number of the node.
pub struct PendingKeyView {
    pub node: nat,
    pub key: SigkeyView,
}

/// What a walk down the tree leaves behind: the key of the node it ends on, and the
/// keys of the right siblings that it passed, the nearest to the root first.
pub struct Descent {
    pub key: SigkeyView,
    pub opened: Seq<PendingKeyView>,
}

/// Whether a key has the shape of the key of `node` in the tree of depth `l`: one
/// component for each level from the node's own to the last.
pub open spec fn fits(l: nat, node: nat, key: SigkeyView) -> bool {
    is_node(node, l) && key.e.len() + path_of(node, l).len() == l
}

/// The node that follows the subtree of the pending key at index `i`: the pending
/// node before it, or for the first one the end of the tree.
pub open spec fn next_start(pending: Seq<PendingKeyView>, i: int, l: nat) -> nat {
    if i <= 0 {
        pow2(l)
    } else {
        pending[i - 1].node
    }
}

/// Whether the subtree of `node` and the subtrees of the pending nodes, taken from
/// the last pending node to the first, cover the nodes from `node` to the end of the
/// tree without gap or overlap, each key fitting its node.
pub open spec fn tiled(l: nat, node: nat, key: SigkeyView, pending: Seq<PendingKeyView>) -> bool {
    &&& fits(l, node, key)
    &&& subtree_end(node, key.e.len()) == next_start(pending, pending.len() as int, l)
    &&& forall|i: int|
        0 <= i < pending.len() ==> {
            let p = #[trigger] pending[i];
            fits(l, p.node, p.key) && subtree_end(p.node, p.key.e.len()) == next_start(
                pending,
                i,
                l,
            )
        }
}

/// How many of the pending keys, counted from the first, belong to nodes after `t`.
pub open spec fn later_count(pending: Seq<PendingKeyView>, t: nat) -> nat
    decreases pending.len(),
{
    if pending.len() == 0 || pending[0].node <= t {
        0
    } else {
        1 + later_count(pending.drop_first(), t)
    }
}

/// How many blinding scalars the walk from `node`, whose subtree has `m` levels, down
/// to `t` consumes: at each level two where it goes left, since the right sibling
/// gets a key too, and one where it goes right.
pub open spec fn scalars_needed(node: nat, m: nat, t: nat) -> nat
    decreases m,
{
    if node >= t || m <= 1 {
        0
    } else if t < node + pow2((m - 1) as nat) {
        2 + scalars_needed(node + 1, (m - 1) as nat, t)
    } else {
        1 + scalars_needed(node + pow2((m - 1) as nat), (m - 1) as nat, t)
    }
}

/// The walk from `node`, whose key is `key` and whose path factor is `f`, down to
/// `t`. Where `t` lies in the left subtree, the key of the right child is derived
/// with the scalar at index `i` and joins `opened`, and the walk goes on from the
/// left child, whose key is derived with the next scalar. Where `t` lies in the
/// right subtree, the walk goes on from the right child, whose key is derived with
/// the scalar at index `i`.
pub open spec fn descend(
    key: SigkeyView,
    node: nat,
    f: Seq<char>,
    opened: Seq<PendingKeyView>,
    t: nat,
    gens: GeneratorSetView,
    l: nat,
    scalars: Seq<Seq<char>>,
    i: nat,
) -> Descent
    decreases key.e.len(),
{
    let m = key.e.len();
    if node >= t || m <= 1 {
        Descent { key, opened }
    } else {
        let level = gens.h[l - m + 2];
        let right_node = node + pow2((m - 1) as nat);
        let f_right = stepped(f, level, 2);
        let right = derived_key(key, 2, f_right, gens, l, scalars[i as int]);
        if t < right_node {
            let f_left = stepped(f, level, 1);
            let left = derived_key(key, 1, f_left, gens, l, scalars[i as int + 1]);
            descend(
                left,
                node + 1,
                f_left,
                opened.push(PendingKeyView { node: right_node, key: right }),
                t,
                gens,
                l,
                scalars,
                i + 2,
            )
        } else {
            descend(right, right_node, f_right, opened, t, gens, l, scalars, i + 1)
        }
    }
}

/// `later_count` is the length of the longest run of pending keys, from the first,
/// whose nodes all come after `t`.
pub proof fn lemma_later_count(pending: Seq<PendingKeyView>, t: nat)
    ensures
        later_count(pending, t) <= pending.len(),
        forall|i: int| 0 <= i < later_count(pending, t) ==> (#[trigger] pending[i]).node > t,
        later_count(pending, t) < pending.len() ==> pending[later_count(pending, t) as int].node
            <= t,
    decreases pending.len(),
{
    if pending.len() > 0 && pending[0].node > t {
        let rest = pending.drop_first();
        lemma_later_count(rest, t);
        assert forall|i: int| 0 <= i < later_count(pending, t) implies (#[trigger] pending[i]).node
            > t by {
            if i > 0 {
                assert(pending[i] == rest[i - 1]);
            }
        }
        if later_count(pending, t) < pending.len() {
            assert(pending[later_count(pending, t) as int] == rest[later_count(rest, t) as int]);
        }
    }
}

/// An index with only later nodes before it, and none such at it, is `later_count`.
pub proof fn lemma_later_count_is(pending: Seq<PendingKeyView>, t: nat, k: int)
    requires
        0 <= k <= pending.len(),
        forall|i: int| 0 <= i < k ==> (#[trigger] pending[i]).node > t,
        k < pending.len() ==> pending[k].node <= t,
    ensures
        later_count(pending, t) == k,
    decreases pending.len(),
{
    if k > 0 {
        let rest = pending.drop_first();
        assert(pending[0].node > t);
        assert forall|i: int| 0 <= i < k - 1 implies (#[trigger] rest[i]).node > t by {
            assert(rest[i] == pending[i + 1]);
        }
        lemma_later_count_is(rest, t, k - 1);
    }
}

/// In a tiling the pending nodes come in falling order, all of them after `node`.
pub proof fn lemma_tiled_order(l: nat, node: nat, key: SigkeyView, pending: Seq<PendingKeyView>)
    requires
        tiled(l, node, key, pending),
    ensures
        node < next_start(pending, pending.len() as int, l) <= pow2(l),
        forall|i: int|
            0 <= i < pending.len() ==> (#[trigger] pending[i]).node < next_start(pending, i, l)
                <= pow2(l),
{
    lemma_fits_levels(l, node, key);
    if pending.len() > 0 {
        let last = pending[pending.len() - 1];
        assert(fits(l, last.node, last.key));
    }
    assert forall|i: int| 0 <= i < pending.len() implies (#[trigger] pending[i]).node < next_start(
        pending,
        i,
        l,
    ) <= pow2(l) by {
        let p = pending[i];
        assert(fits(l, p.node, p.key));
        lemma_fits_levels(l, p.node, p.key);
        if i > 0 {
            let before = pending[i - 1];
            assert(fits(l, before.node, before.key));
        }
    }
}

/// In a tiling every pending node comes after `node`.
pub proof fn lemma_pending_after(
    l: nat,
    node: nat,
    key: SigkeyView,
    pending: Seq<PendingKeyView>,
    i: int,
)
    requires
        tiled(l, node, key, pending),
        0 <= i < pending.len(),
    ensures
        pending[i].node > node,
    decreases pending.len() - i,
{
    lemma_tiled_order(l, node, key, pending);
    if i + 1 < pending.len() {
        lemma_pending_after(l, node, key, pending, i + 1);
        assert(pending[i + 1].node < next_start(pending, i + 1, l));
    }
}

/// A key that fits its node has a component, and its subtree does not start at its end.
pub proof fn lemma_fits_levels(l: nat, node: nat, key: SigkeyView)
    requires
        fits(l, node, key),
    ensures
        1 <= key.e.len() <= l,
        node < subtree_end(node, key.e.len()),
{
    lemma_path_of_is_path(node, l);
    lemma_pow2_unfold(key.e.len());
    lemma_pow2_pos((key.e.len() - 1) as nat);
}

/// One step of a walk keeps the tiling: where the walk goes left, the key of the
/// left child heads a tiling with the key of the right child as the last pending
/// key; where it goes right, the key of the right child heads the tiling as it was.
/// Either way the subtree of the child holds `t`.
pub proof fn lemma_step_tiled(
    key: SigkeyView,
    node: nat,
    opened: Seq<PendingKeyView>,
    t: nat,
    l: nat,
    left: SigkeyView,
    right: SigkeyView,
)
    requires
        tiled(l, node, key, opened),
        node < t < subtree_end(node, key.e.len()),
        left.e.len() == key.e.len() - 1,
        right.e.len() == key.e.len() - 1,
    ensures
        key.e.len() >= 2,
        path_of(node, l).len() == l - key.e.len(),
        path_of(node + 1, l) == path_of(node, l).push(1u8),
        path_of(node + pow2((key.e.len() - 1) as nat), l) == path_of(node, l).push(2u8),
        t < node + pow2((key.e.len() - 1) as nat) ==> tiled(
            l,
            node + 1,
            left,
            opened.push(
                PendingKeyView { node: node + pow2((key.e.len() - 1) as nat), key: right },
            ),
        ) && node + 1 <= t < subtree_end(node + 1, left.e.len()),
        t >= node + pow2((key.e.len() - 1) as nat) ==> tiled(
            l,
            node + pow2((key.e.len() - 1) as nat),
            right,
            opened,
        ) && t < subtree_end(node + pow2((key.e.len() - 1) as nat), right.e.len()),
{
    let m = key.e.len();
    lemma2_to64();
    lemma_fits_levels(l, node, key);
    lemma_pow2_unfold(m);
    if m >= 2 {
        lemma_child_paths(node, l);
        let right_node = node + pow2((m - 1) as nat);
        if t < right_node {
            let grown = opened.push(PendingKeyView { node: right_node, key: right });
            assert forall|j: int| 0 <= j < grown.len() implies {
                let p = #[trigger] grown[j];
                fits(l, p.node, p.key) && subtree_end(p.node, p.key.e.len()) == next_start(
                    grown,
                    j,
                    l,
                )
            } by {
                if j < opened.len() {
                    assert(grown[j] == opened[j]);
                    if j > 0 {
                        assert(grown[j - 1] == opened[j - 1]);
                    }
                } else if j > 0 {
                    assert(grown[j - 1] == opened[j - 1]);
                }
            }
        }
    }
}

/// A walk that starts from a tiling, on a node whose subtree holds `t`, ends in a
/// tiling for `t`: the key it ends on fits `t`, and the keys it has opened, after
/// those that were pending before, cover what follows the subtree of `t`.
pub proof fn lemma_descend_tiled(
    key: SigkeyView,
    node: nat,
    f: Seq<char>,
    opened: Seq<PendingKeyView>,
    t: nat,
    gens: GeneratorSetView,
    l: nat,
    scalars: Seq<Seq<char>>,
    i: nat,
)
    requires
        tiled(l, node, key, opened),
        node <= t < subtree_end(node, key.e.len()),
    ensures
        tiled(
            l,
            t,
            descend(key, node, f, opened, t, gens, l, scalars, i).key,
            descend(key, node, f, opened, t, gens, l, scalars, i).opened,
        ),
    decreases key.e.len(),
{
    let m = key.e.len();
    if node < t {
        lemma_fits_levels(l, node, key);
        let level = gens.h[l - m + 2];
        let right_node = node + pow2((m - 1) as nat);
        let f_right = stepped(f, level, 2);
        let f_left = stepped(f, level, 1);
        let right = derived_key(key, 2, f_right, gens, l, scalars[i as int]);
        let left = derived_key(key, 1, f_left, gens, l, scalars[i as int + 1]);
        lemma_step_tiled(key, node, opened, t, l, left, right);
        if t < right_node {
            let grown = opened.push(PendingKeyView { node: right_node, key: right });
            lemma_descend_tiled(left, node + 1, f_left, grown, t, gens, l, scalars, i + 2);
        } else {
            lemma_descend_tiled(right, right_node, f_right, opened, t, gens, l, scalars, i + 1);
        }
    }
}

} // verus!
