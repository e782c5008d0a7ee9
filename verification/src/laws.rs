//! What holds of every tree and every path: generated paths verify, and a
//! changed leaf or a switched side is caught unless the hashes collide.

use crate::hash::{LeafHash, TwoToOneHash};
use crate::tree::{
    accepts, climb, combine, first_leaf, hashes_children, holds_leaf, is_height_for,
    lemma_climb_len, lemma_climb_reaches_root, lemma_replay_one_more, lemma_replay_split, replay,
    MerkleTree, Step,
};
use vstd::arithmetic::power2::{lemma2_to64, lemma_pow2_pos, lemma_pow2_strictly_increases};
use vstd::prelude::*;

verus! {

/// Replaying `path` from `a` and from `b` never brings the two together:
/// the two differ, and at every level the two-to-one hash sends them, each
/// with that level's sibling, to different digests.
pub open spec fn keeps_apart<T: TwoToOneHash>(
    t: &T,
    a: Seq<u8>,
    b: Seq<u8>,
    path: Seq<Step>,
) -> bool
    decreases path.len(),
{
    &&& a != b
    &&& path.len() > 0 ==> keeps_apart(
        t,
        combine(t, a, path[0]),
        combine(t, b, path[0]),
        path.drop_first(),
    )
}

/// The two-to-one hash sends different pairs to different digests.
pub open spec fn collision_free<T: TwoToOneHash>(t: &T) -> bool {
    forall|a: Seq<u8>, b: Seq<u8>, c: Seq<u8>, d: Seq<u8>|
        #![trigger t.digest_of(a, b), t.digest_of(c, d)]
        t.digest_of(a, b) == t.digest_of(c, d) ==> a == c && b == d
}

/// `path` with the side of the step at `level` switched.
pub open spec fn flip_side(path: Seq<Step>, level: int) -> Seq<Step> {
    path.update(
        level,
        Step { sibling: path[level].sibling, side: path[level].side.opposite() },
    )
}

/// Replays that are kept apart end in different digests.
pub proof fn lemma_kept_apart_ends_apart<T: TwoToOneHash>(
    t: &T,
    a: Seq<u8>,
    b: Seq<u8>,
    path: Seq<Step>,
)
    requires
        keeps_apart(t, a, b, path),
    ensures
        replay(t, a, path) != replay(t, b, path),
    decreases path.len(),
{
    if path.len() > 0 {
        lemma_kept_apart_ends_apart(
            t,
            combine(t, a, path[0]),
            combine(t, b, path[0]),
            path.drop_first(),
        );
    }
}

/// A two-to-one hash without collisions keeps any two different digests
/// apart along any path.
pub proof fn lemma_collision_free_keeps_apart<T: TwoToOneHash>(
    t: &T,
    a: Seq<u8>,
    b: Seq<u8>,
    path: Seq<Step>,
)
    requires
        collision_free(t),
        a != b,
    ensures
        keeps_apart(t, a, b, path),
    decreases path.len(),
{
    if path.len() > 0 {
        lemma_collision_free_keeps_apart(
            t,
            combine(t, a, path[0]),
            combine(t, b, path[0]),
            path.drop_first(),
        );
    }
}

/// The path that a tree generates for one of its leaves leads from that leaf
/// to the tree's root, and has one step for each level of the tree.
pub proof fn lemma_generated_path_verifies<L: LeafHash, T: TwoToOneHash>(
    tree: MerkleTree,
    l: &L,
    t: &T,
    leaves: Seq<Seq<u8>>,
    index: nat,
)
    requires
        tree.commits_to(l, t, leaves),
        index < leaves.len(),
    ensures
        accepts(l, t, tree.root_digest(), leaves[index as int], tree.path_to(index)),
        tree.path_to(index).len() == tree.levels(),
{
    let first = first_leaf(tree.levels());
    let k = first + index;
    lemma_pow2_pos(tree.levels());
    assert(holds_leaf(l, tree@, leaves, first, k as int));
    lemma_climb_reaches_root(t, tree@, first, k);
    lemma_climb_len(tree@, k, tree.levels());
}

/// A generated path is accepted against the root of its own tree and against
/// no other digest.
pub proof fn lemma_only_own_root_accepted<L: LeafHash, T: TwoToOneHash>(
    tree: MerkleTree,
    l: &L,
    t: &T,
    leaves: Seq<Seq<u8>>,
    index: nat,
    root: Seq<u8>,
)
    requires
        tree.commits_to(l, t, leaves),
        index < leaves.len(),
    ensures
        accepts(l, t, root, leaves[index as int], tree.path_to(index)) <==> root
            == tree.root_digest(),
{
    lemma_generated_path_verifies(tree, l, t, leaves, index);
}

/// A tree over a single leaf has no level below the root: the root is the
/// leaf's digest, and the leaf's path is empty and accepted.
pub proof fn lemma_single_leaf<L: LeafHash, T: TwoToOneHash>(
    tree: MerkleTree,
    l: &L,
    t: &T,
    leaves: Seq<Seq<u8>>,
)
    requires
        tree.commits_to(l, t, leaves),
        leaves.len() == 1,
    ensures
        tree.levels() == 0,
        tree.root_digest() == l.digest_of(leaves[0]),
        tree.path_to(0) == Seq::<Step>::empty(),
        accepts(l, t, tree.root_digest(), leaves[0], tree.path_to(0)),
{
    lemma2_to64();
    if tree.levels() > 0 {
        lemma_pow2_pos((tree.levels() - 1) as nat);
    }
    assert(tree.levels() == 0);
    assert(first_leaf(tree.levels()) == 0);
    assert(holds_leaf(l, tree@, leaves, first_leaf(tree.levels()), 0));
    assert(climb(tree@, 0) =~= Seq::<Step>::empty());
}

/// Tamper evidence: a leaf put in the place of leaf `index` is rejected with
/// the unchanged path and root, provided that the leaf hash tells the two
/// leaves apart and the two-to-one hash keeps their replays apart.
pub proof fn lemma_changed_leaf_rejected<L: LeafHash, T: TwoToOneHash>(
    tree: MerkleTree,
    l: &L,
    t: &T,
    leaves: Seq<Seq<u8>>,
    index: nat,
    changed: Seq<u8>,
)
    requires
        tree.commits_to(l, t, leaves),
        index < leaves.len(),
        keeps_apart(
            t,
            l.digest_of(leaves[index as int]),
            l.digest_of(changed),
            tree.path_to(index),
        ),
    ensures
        !accepts(l, t, tree.root_digest(), changed, tree.path_to(index)),
{
    lemma_generated_path_verifies(tree, l, t, leaves, index);
    lemma_kept_apart_ends_apart(
        t,
        l.digest_of(leaves[index as int]),
        l.digest_of(changed),
        tree.path_to(index),
    );
}

/// Binding of the sides: the generated path of leaf `index` with the side
/// switched at one level is rejected, provided that at this level the
/// two-to-one hash tells the two orders of its inputs apart and keeps the
/// two replays apart from there on.
pub proof fn lemma_switched_side_rejected<L: LeafHash, T: TwoToOneHash>(
    tree: MerkleTree,
    l: &L,
    t: &T,
    leaves: Seq<Seq<u8>>,
    index: nat,
    level: nat,
)
    requires
        tree.commits_to(l, t, leaves),
        index < leaves.len(),
        level < tree.levels(),
        ({
            let path = tree.path_to(index);
            let reached = replay(t, l.digest_of(leaves[index as int]), path.take(level as int));
            keeps_apart(
                t,
                combine(t, reached, path[level as int]),
                combine(t, reached, flip_side(path, level as int)[level as int]),
                path.skip(level as int + 1),
            )
        }),
    ensures
        !accepts(
            l,
            t,
            tree.root_digest(),
            leaves[index as int],
            flip_side(tree.path_to(index), level as int),
        ),
{
    lemma_generated_path_verifies(tree, l, t, leaves, index);
    let start = l.digest_of(leaves[index as int]);
    let path = tree.path_to(index);
    let switched = flip_side(path, level as int);
    let upper = path.skip(level as int + 1);
    assert(switched.take(level as int) =~= path.take(level as int));
    assert(switched.skip(level as int + 1) =~= upper);
    lemma_replay_split(t, start, path, (level + 1) as nat);
    lemma_replay_split(t, start, switched, (level + 1) as nat);
    lemma_replay_one_more(t, start, path, level);
    lemma_replay_one_more(t, start, switched, level);
    let reached = replay(t, start, path.take(level as int));
    lemma_kept_apart_ends_apart(
        t,
        combine(t, reached, path[level as int]),
        combine(t, reached, switched[level as int]),
        upper,
    );
}

/// Tamper evidence under a two-to-one hash without collisions: a leaf that
/// the leaf hash tells apart from leaf `index` is rejected in its place.
pub proof fn lemma_changed_leaf_rejected_without_collisions<L: LeafHash, T: TwoToOneHash>(
    tree: MerkleTree,
    l: &L,
    t: &T,
    leaves: Seq<Seq<u8>>,
    index: nat,
    changed: Seq<u8>,
)
    requires
        tree.commits_to(l, t, leaves),
        index < leaves.len(),
        collision_free(t),
        l.digest_of(changed) != l.digest_of(leaves[index as int]),
    ensures
        !accepts(l, t, tree.root_digest(), changed, tree.path_to(index)),
{
    lemma_collision_free_keeps_apart(
        t,
        l.digest_of(leaves[index as int]),
        l.digest_of(changed),
        tree.path_to(index),
    );
    lemma_changed_leaf_rejected(tree, l, t, leaves, index, changed);
}

/// Binding of the sides under a two-to-one hash without collisions: the
/// generated path with the side switched at one level is rejected whenever
/// the node on the path and its sibling differ at this level.
pub proof fn lemma_switched_side_rejected_without_collisions<L: LeafHash, T: TwoToOneHash>(
    tree: MerkleTree,
    l: &L,
    t: &T,
    leaves: Seq<Seq<u8>>,
    index: nat,
    level: nat,
)
    requires
        tree.commits_to(l, t, leaves),
        index < leaves.len(),
        level < tree.levels(),
        collision_free(t),
        replay(t, l.digest_of(leaves[index as int]), tree.path_to(index).take(level as int))
            != tree.path_to(index)[level as int].sibling,
    ensures
        !accepts(
            l,
            t,
            tree.root_digest(),
            leaves[index as int],
            flip_side(tree.path_to(index), level as int),
        ),
{
    lemma_generated_path_verifies(tree, l, t, leaves, index);
    let path = tree.path_to(index);
    let reached = replay(t, l.digest_of(leaves[index as int]), path.take(level as int));
    let step = path[level as int];
    let switched = flip_side(path, level as int)[level as int];
    assert(switched.sibling == step.sibling && switched.side == step.side.opposite());
    assert(combine(t, reached, step) != combine(t, reached, switched));
    lemma_collision_free_keeps_apart(
        t,
        combine(t, reached, step),
        combine(t, reached, switched),
        path.skip(level as int + 1),
    );
    lemma_switched_side_rejected(tree, l, t, leaves, index, level);
}

/// A number of leaves has one height only.
pub proof fn lemma_height_is_unique(one: nat, other: nat, count: nat)
    requires
        is_height_for(one, count),
        is_height_for(other, count),
    ensures
        one == other,
{
    if one < other {
        if one < other - 1 {
            lemma_pow2_strictly_increases(one, (other - 1) as nat);
        }
    } else if other < one {
        if other < one - 1 {
            lemma_pow2_strictly_increases(other, (one - 1) as nat);
        }
    }
}

/// Two lists of nodes that agree on the bottom level, and whose nodes above
/// it hash their children, agree on node `k`.
proof fn lemma_nodes_agree<T: TwoToOneHash>(
    t: &T,
    one: Seq<Seq<u8>>,
    other: Seq<Seq<u8>>,
    first: nat,
    k: nat,
)
    requires
        one.len() == 2 * first + 1,
        other.len() == 2 * first + 1,
        forall|j: int| first <= j < one.len() ==> one[j] == other[j],
        forall|i: int| 0 <= i < first ==> #[trigger] hashes_children(t, one, i),
        forall|i: int| 0 <= i < first ==> #[trigger] hashes_children(t, other, i),
        k < one.len(),
    ensures
        one[k as int] == other[k as int],
    decreases one.len() - k,
{
    if k < first {
        lemma_nodes_agree(t, one, other, first, 2 * k + 1);
        lemma_nodes_agree(t, one, other, first, 2 * k + 2);
        assert(hashes_children(t, one, k as int));
        assert(hashes_children(t, other, k as int));
    }
}

/// The leaves and the hashes determine the tree: two trees over the same
/// leaves under the same hashes hold the same digests, node by node.
pub proof fn lemma_same_leaves_same_tree<L: LeafHash, T: TwoToOneHash>(
    one: MerkleTree,
    other: MerkleTree,
    l: &L,
    t: &T,
    leaves: Seq<Seq<u8>>,
)
    requires
        one.commits_to(l, t, leaves),
        other.commits_to(l, t, leaves),
    ensures
        one.levels() == other.levels(),
        one@ == other@,
{
    lemma_height_is_unique(one.levels(), other.levels(), leaves.len());
    lemma_pow2_pos(one.levels());
    let first = first_leaf(one.levels());
    assert forall|j: int| first <= j < one@.len() implies one@[j] == other@[j] by {
        assert(holds_leaf(l, one@, leaves, first, j));
        assert(holds_leaf(l, other@, leaves, first, j));
    }
    assert forall|k: int| 0 <= k < one@.len() implies one@[k] == other@[k] by {
        lemma_nodes_agree(t, one@, other@, first, k as nat);
    }
    assert(one@ =~= other@);
}

} // verus!
