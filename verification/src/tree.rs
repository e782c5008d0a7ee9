//! The Merkle accumulator: a complete binary hash tree over an ordered list of
//! leaves, its root, and authentication paths with their verification.
//!
//! Nodes are kept in level order: node 0 is the root, the children of node `i`
//! are nodes `2i + 1` and `2i + 2`, and the leaves fill the bottom level from
//! left to right. A list whose length is no power of two is padded up to the
//! next one with the filler leaf, the empty byte string.

use crate::common::MerkleConfig;
use crate::hash::{Digest, LeafHash, TwoToOneHash};
use vstd::arithmetic::power2::{lemma2_to64, lemma_pow2_pos, lemma_pow2_unfold, pow2};
use vstd::prelude::*;

verus! {

/// Why a tree or a path could not be made.
#[derive(Clone, Copy, Debug, PartialEq, Eq, Structural)]
pub enum MerkleError {
    /// A tree was asked for over no leaves.
    EmptyInput,
    /// A path was asked for a leaf that the tree does not have.
    IndexOutOfRange,
}

/// The side of a hash input that the node on the path occupies.
#[derive(Clone, Copy, Debug, PartialEq, Eq, Structural)]
pub enum Side {
    /// The node on the path is the left input of the hash, its sibling the
    /// right one.
    Left,
    /// The node on the path is the right input of the hash, its sibling the
    /// left one.
    Right,
}

impl Side {
    /// The other side.
    pub open spec fn opposite(self) -> Side {
        match self {
            Side::Left => Side::Right,
            Side::Right => Side::Left,
        }
    }

    /// The other side.
    pub fn flipped(self) -> (other: Side)
        ensures
            other == self.opposite(),
    {
        match self {
            Side::Left => Side::Right,
            Side::Right => Side::Left,
        }
    }
}

/// One level of a path, as a value: the sibling's digest, and the side on
/// which the node on the path stands.
pub ghost struct Step {
    pub sibling: Seq<u8>,
    pub side: Side,
}

/// One level of an authentication path.
#[derive(Clone, Copy, Debug, PartialEq, Eq)]
pub struct PathStep {
    /// The digest of the sibling at this level.
    pub sibling: Digest,
    /// The side on which the node on the path stands.
    pub side: Side,
}

impl View for PathStep {
    type V = Step;

    open spec fn view(&self) -> Step {
        Step { sibling: self.sibling@, side: self.side }
    }
}

/// An authentication path: one step per level, from the leaf's level up to
/// the level below the root.
#[derive(Clone, Debug, PartialEq, Eq)]
pub struct Path {
    /// The steps, the leaf's level first.
    pub steps: Vec<PathStep>,
}

/// The steps as values.
pub open spec fn step_values(steps: Seq<PathStep>) -> Seq<Step> {
    steps.map_values(|s: PathStep| s@)
}

impl View for Path {
    type V = Seq<Step>;

    open spec fn view(&self) -> Seq<Step> {
        step_values(self.steps@)
    }
}

/// The filler leaf that pads a leaf list to a power of two: the empty byte
/// string.
pub open spec fn filler_leaf() -> Seq<u8> {
    Seq::empty()
}

/// The leaf in slot `j` of the bottom level.
pub open spec fn padded_leaf(leaves: Seq<Seq<u8>>, j: int) -> Seq<u8> {
    if 0 <= j < leaves.len() {
        leaves[j]
    } else {
        filler_leaf()
    }
}

/// `height` is the least number of levels whose bottom has room for `count`
/// leaves: the ceiling of the binary logarithm of `count`.
pub open spec fn is_height_for(height: nat, count: nat) -> bool {
    &&& 1 <= count <= pow2(height)
    &&& height > 0 ==> pow2((height - 1) as nat) < count
}

/// The index of the leftmost node of the bottom level of a tree of this height.
pub open spec fn first_leaf(height: nat) -> nat {
    (pow2(height) - 1) as nat
}

/// The input of the two-to-one hash at one level: the node on the path on its
/// side, the sibling on the other.
pub open spec fn combine<T: TwoToOneHash>(t: &T, node: Seq<u8>, step: Step) -> Seq<u8> {
    match step.side {
        Side::Left => t.digest_of(node, step.sibling),
        Side::Right => t.digest_of(step.sibling, node),
    }
}

/// The digest reached from `node` by hashing up along `path`.
pub open spec fn replay<T: TwoToOneHash>(t: &T, node: Seq<u8>, path: Seq<Step>) -> Seq<u8>
    decreases path.len(),
{
    if path.len() == 0 {
        node
    } else {
        replay(t, combine(t, node, path[0]), path.drop_first())
    }
}

/// `path` leads from `leaf` to `root`.
pub open spec fn accepts<L: LeafHash, T: TwoToOneHash>(
    l: &L,
    t: &T,
    root: Seq<u8>,
    leaf: Seq<u8>,
    path: Seq<Step>,
) -> bool {
    replay(t, l.digest_of(leaf), path) == root
}

/// The step that leaves node `k > 0` of `nodes`: its sibling, and its own
/// side. Left children have odd indices.
pub open spec fn step_from(nodes: Seq<Seq<u8>>, k: nat) -> Step {
    if k % 2 == 1 {
        Step { sibling: nodes[k as int + 1], side: Side::Left }
    } else {
        Step { sibling: nodes[k as int - 1], side: Side::Right }
    }
}

/// The steps from node `k` of `nodes` up to the root.
pub open spec fn climb(nodes: Seq<Seq<u8>>, k: nat) -> Seq<Step>
    decreases k,
{
    if k == 0 {
        Seq::empty()
    } else {
        seq![step_from(nodes, k)] + climb(nodes, ((k - 1) / 2) as nat)
    }
}

/// Node `k` of the bottom level holds the leaf hash of the leaf in its slot.
pub open spec fn holds_leaf<L: LeafHash>(
    l: &L,
    nodes: Seq<Seq<u8>>,
    leaves: Seq<Seq<u8>>,
    first: nat,
    k: int,
) -> bool {
    nodes[k] == l.digest_of(padded_leaf(leaves, k - first))
}

/// Node `i` holds the two-to-one hash of its children.
pub open spec fn hashes_children<T: TwoToOneHash>(t: &T, nodes: Seq<Seq<u8>>, i: int) -> bool {
    nodes[i] == t.digest_of(nodes[2 * i + 1], nodes[2 * i + 2])
}

/// The digests as values.
pub open spec fn digest_values(nodes: Seq<Digest>) -> Seq<Seq<u8>> {
    nodes.map_values(|d: Digest| d@)
}

/// The leaves as byte strings.
pub open spec fn leaf_bytes(leaves: Seq<Vec<u8>>) -> Seq<Seq<u8>> {
    Seq::new(leaves.len(), |i: int| leaves[i]@)
}

/// A Merkle tree. It owns the digests of all its nodes and does not change
/// once built.
#[derive(Debug)]
pub struct MerkleTree {
    nodes: Vec<Digest>,
    leaf_count: usize,
    height: usize,
}

impl View for MerkleTree {
    type V = Seq<Seq<u8>>;

    /// The node digests in level order.
    closed spec fn view(&self) -> Seq<Seq<u8>> {
        digest_values(self.nodes@)
    }
}

impl MerkleTree {
    /// The number of leaves the tree was built over, the filler not counted.
    pub closed spec fn leaves(&self) -> nat {
        self.leaf_count as nat
    }

    /// The number of levels below the root.
    pub closed spec fn levels(&self) -> nat {
        self.height as nat
    }

    /// The tree has the shape of a complete binary tree of the least height
    /// that holds its leaves.
    #[verifier::type_invariant]
    pub open spec fn wf(&self) -> bool {
        &&& is_height_for(self.levels(), self.leaves())
        &&& self@.len() == 2 * pow2(self.levels()) - 1
    }

    /// The root's digest.
    pub open spec fn root_digest(&self) -> Seq<u8> {
        self@[0]
    }

    /// The path from leaf `index` to the root.
    pub open spec fn path_to(&self, index: nat) -> Seq<Step> {
        climb(self@, first_leaf(self.levels()) + index)
    }

    /// The tree is the one over `leaves` under the hashes `l` and `t`: each
    /// node of the bottom level holds the leaf hash of its leaf, or of the
    /// filler where the leaves have run out, and each node above holds the
    /// two-to-one hash of its children.
    pub open spec fn commits_to<L: LeafHash, T: TwoToOneHash>(
        &self,
        l: &L,
        t: &T,
        leaves: Seq<Seq<u8>>,
    ) -> bool {
        &&& self.wf()
        &&& self.leaves() == leaves.len()
        &&& forall|k: int|
            first_leaf(self.levels()) <= k < self@.len() ==> #[trigger] holds_leaf(
                l,
                self@,
                leaves,
                first_leaf(self.levels()),
                k,
            )
        &&& forall|i: int|
            0 <= i < first_leaf(self.levels()) ==> #[trigger] hashes_children(t, self@, i)
    }
}

impl MerkleTree {
    /// Builds the tree over `leaves`, in their order.
    ///
    /// Fails with `EmptyInput` when there is no leaf. Each leaf must fit the
    /// leaf hash, and the nodes of the tree must be countable in a `usize`.
    pub fn new<L: LeafHash, T: TwoToOneHash>(
        leaf_hash: &L,
        two_to_one_hash: &T,
        leaves: &[Vec<u8>],
    ) -> (r: Result<MerkleTree, MerkleError>)
        requires
            leaves@.len() <= usize::MAX / 4,
            forall|i: int|
                0 <= i < leaves@.len() ==> (#[trigger] leaves@[i])@.len()
                    <= MerkleConfig::LEAF_BYTES,
        ensures
            leaves@.len() == 0 <==> r == Err::<MerkleTree, MerkleError>(MerkleError::EmptyInput),
            leaves@.len() > 0 <==> r is Ok,
            r matches Ok(tree) ==> tree.commits_to(leaf_hash, two_to_one_hash, leaf_bytes(leaves@)),
    {
        let n = leaves.len();
        if n == 0 {
            return Err(MerkleError::EmptyInput);
        }
        let mut width: usize = 1;
        let mut height: usize = 0;
        proof {
            lemma2_to64();
        }
        while width < n
            invariant
                1 <= n <= usize::MAX / 4,
                width == pow2(height as nat),
                height > 0 ==> pow2((height - 1) as nat) < n,
                height < width,
                width < 2 * n,
            decreases 2 * n - width,
        {
            proof {
                lemma_pow2_unfold((height + 1) as nat);
            }
            width = 2 * width;
            height = height + 1;
        }
        let first = width - 1;
        let total = 2 * width - 1;
        let nothing: Vec<u8> = Vec::new();
        let filler = leaf_hash.evaluate(nothing.as_slice());
        assert(nothing@ =~= filler_leaf());
        let mut nodes: Vec<Digest> = Vec::new();
        while nodes.len() < total
            invariant
                nodes.len() <= total,
                forall|k: int| 0 <= k < nodes.len() ==> (#[trigger] nodes@[k])@ == filler@,
            decreases total - nodes.len(),
        {
            nodes.push(filler);
        }
        let ghost given = leaf_bytes(leaves@);
        let mut j: usize = 0;
        while j < n
            invariant
                j <= n,
                n == leaves@.len(),
                given == leaf_bytes(leaves@),
                first + n <= total,
                nodes.len() == total,
                forall|i: int|
                    0 <= i < leaves@.len() ==> (#[trigger] leaves@[i])@.len()
                        <= MerkleConfig::LEAF_BYTES,
                forall|k: int|
                    first <= k < first + j ==> (#[trigger] nodes@[k])@ == leaf_hash.digest_of(
                        given[k - first],
                    ),
                forall|k: int| first + j <= k < total ==> (#[trigger] nodes@[k])@ == filler@,
            decreases n - j,
        {
            let d = leaf_hash.evaluate(leaves[j].as_slice());
            nodes.set(first + j, d);
            j = j + 1;
        }
        proof {
            assert forall|k: int| first <= k < total implies #[trigger] holds_leaf(
                leaf_hash,
                digest_values(nodes@),
                given,
                first as nat,
                k,
            ) by {
                assert(digest_values(nodes@)[k] == nodes@[k]@);
            }
        }
        let mut i: usize = first;
        while i > 0
            invariant
                i <= first,
                total == 2 * first + 1,
                nodes.len() == total,
                forall|k: int|
                    first <= k < total ==> #[trigger] holds_leaf(
                        leaf_hash,
                        digest_values(nodes@),
                        given,
                        first as nat,
                        k,
                    ),
                forall|k: int|
                    i <= k < first ==> #[trigger] hashes_children(
                        two_to_one_hash,
                        digest_values(nodes@),
                        k,
                    ),
            decreases i,
        {
            i = i - 1;
            let ghost before = digest_values(nodes@);
            let d = two_to_one_hash.evaluate(&nodes[2 * i + 1], &nodes[2 * i + 2]);
            nodes.set(i, d);
            proof {
                let after = digest_values(nodes@);
                assert(after =~= before.update(i as int, d@));
                assert forall|k: int| first <= k < total implies #[trigger] holds_leaf(
                    leaf_hash,
                    after,
                    given,
                    first as nat,
                    k,
                ) by {
                    assert(holds_leaf(leaf_hash, before, given, first as nat, k));
                }
                assert forall|k: int| i <= k < first implies #[trigger] hashes_children(
                    two_to_one_hash,
                    after,
                    k,
                ) by {
                    if k > i {
                        assert(hashes_children(two_to_one_hash, before, k));
                    }
                }
            }
        }
        let tree = MerkleTree { nodes, leaf_count: n, height };
        Ok(tree)
    }
}

impl MerkleTree {
    /// The root: the one digest that commits to all the leaves.
    pub fn root(&self) -> (root: Digest)
        ensures
            root@ == self.root_digest(),
    {
        proof {
            use_type_invariant(self);
            lemma_pow2_pos(self.levels());
        }
        self.nodes[0]
    }

    /// The number of levels below the root, which is the length of every
    /// path.
    pub fn height(&self) -> (height: usize)
        ensures
            height == self.levels(),
    {
        self.height
    }

    /// The number of leaves the tree was built over.
    pub fn leaf_count(&self) -> (count: usize)
        ensures
            count == self.leaves(),
    {
        self.leaf_count
    }

    /// The authentication path of leaf `index`: at each level from the
    /// bottom up, the sibling's digest and the side of the node on the path.
    ///
    /// Fails with `IndexOutOfRange` when the tree has no such leaf.
    pub fn generate_proof(&self, index: usize) -> (r: Result<Path, MerkleError>)
        ensures
            index >= self.leaves() <==> r == Err::<Path, MerkleError>(
                MerkleError::IndexOutOfRange,
            ),
            index < self.leaves() <==> r is Ok,
            r matches Ok(path) ==> path@ == self.path_to(index as nat) && path@.len()
                == self.levels(),
    {
        proof {
            use_type_invariant(self);
            lemma_pow2_pos(self.levels());
        }
        if index >= self.leaf_count {
            return Err(MerkleError::IndexOutOfRange);
        }
        let first = self.nodes.len() / 2;
        let start = first + index;
        let mut k = start;
        let mut steps: Vec<PathStep> = Vec::new();
        while k > 0
            invariant
                self.nodes.len() == 2 * first + 1,
                k < self.nodes.len(),
                step_values(steps@) + climb(self@, k as nat) == climb(
                    self@,
                    start as nat,
                ),
            decreases k,
        {
            let step = if k % 2 == 1 {
                PathStep { sibling: self.nodes[k + 1], side: Side::Left }
            } else {
                PathStep { sibling: self.nodes[k - 1], side: Side::Right }
            };
            let ghost before = step_values(steps@);
            steps.push(step);
            proof {
                let after = step_values(steps@);
                let up = ((k - 1) / 2) as nat;
                assert(step@ == step_from(self@, k as nat));
                assert(after =~= before.push(step@));
                assert(after + climb(self@, up) =~= before + climb(self@, k as nat));
            }
            k = (k - 1) / 2;
        }
        let path = Path { steps };
        proof {
            assert(path@ =~= path@ + climb(self@, 0));
            lemma_climb_len(self@, start as nat, self.levels());
        }
        Ok(path)
    }
}

impl Path {
    /// Whether the path leads from `leaf` to `root`: the leaf is hashed, the
    /// digest is hashed up with each step's sibling on the side the step
    /// names, and the outcome is compared with `root`.
    pub fn verify<L: LeafHash, T: TwoToOneHash>(
        &self,
        leaf_hash: &L,
        two_to_one_hash: &T,
        root: &Digest,
        leaf: &[u8],
    ) -> (ok: bool)
        requires
            leaf@.len() <= MerkleConfig::LEAF_BYTES,
        ensures
            ok == accepts(leaf_hash, two_to_one_hash, root@, leaf@, self@),
    {
        let mut node = leaf_hash.evaluate(leaf);
        let mut i: usize = 0;
        assert(self@.skip(0) =~= self@);
        while i < self.steps.len()
            invariant
                i <= self.steps.len(),
                replay(two_to_one_hash, node@, self@.skip(i as int)) == replay(
                    two_to_one_hash,
                    leaf_hash.digest_of(leaf@),
                    self@,
                ),
            decreases self.steps.len() - i,
        {
            let step = self.steps[i];
            proof {
                assert(self@.skip(i as int)[0] == step@);
                assert(self@.skip(i as int).drop_first() =~= self@.skip(i + 1));
            }
            node =
            match step.side {
                Side::Left => two_to_one_hash.evaluate(&node, &step.sibling),
                Side::Right => two_to_one_hash.evaluate(&step.sibling, &node),
            };
            i = i + 1;
        }
        node == *root
    }
}

/// A climb from a node of the level `height` below the root has `height`
/// steps.
pub proof fn lemma_climb_len(nodes: Seq<Seq<u8>>, k: nat, height: nat)
    requires
        pow2(height) - 1 <= k < 2 * pow2(height) - 1,
    ensures
        climb(nodes, k).len() == height,
    decreases height,
{
    if height == 0 {
        lemma2_to64();
    } else {
        lemma_pow2_unfold(height);
        lemma_climb_len(nodes, ((k - 1) / 2) as nat, (height - 1) as nat);
    }
}

/// In a tree whose inner nodes hash their children, replaying the climb from
/// any node starts at that node's digest and ends at the root's.
pub proof fn lemma_climb_reaches_root<T: TwoToOneHash>(
    t: &T,
    nodes: Seq<Seq<u8>>,
    first: nat,
    k: nat,
)
    requires
        nodes.len() == 2 * first + 1,
        forall|i: int| 0 <= i < first ==> #[trigger] hashes_children(t, nodes, i),
        k < nodes.len(),
    ensures
        replay(t, nodes[k as int], climb(nodes, k)) == nodes[0],
    decreases k,
{
    if k > 0 {
        let up = ((k - 1) / 2) as nat;
        let steps = climb(nodes, k);
        assert(hashes_children(t, nodes, up as int));
        assert(steps[0] == step_from(nodes, k));
        assert(steps.drop_first() =~= climb(nodes, up));
        assert(combine(t, nodes[k as int], steps[0]) == nodes[up as int]);
        lemma_climb_reaches_root(t, nodes, first, up);
    }
}

/// A replay may be cut at any level: replay the lower part, then replay the
/// upper part from where the lower one ended.
pub proof fn lemma_replay_split<T: TwoToOneHash>(t: &T, node: Seq<u8>, path: Seq<Step>, cut: nat)
    requires
        cut <= path.len(),
    ensures
        replay(t, node, path) == replay(t, replay(t, node, path.take(cut as int)), path.skip(cut as int)),
    decreases cut,
{
    if cut == 0 {
        assert(path.skip(0) =~= path);
    } else {
        let rest = path.drop_first();
        lemma_replay_split(t, combine(t, node, path[0]), rest, (cut - 1) as nat);
        assert(path.take(cut as int).drop_first() =~= rest.take(cut - 1));
        assert(rest.skip(cut - 1) =~= path.skip(cut as int));
    }
}

/// Replaying one level more combines the digest reached so far with that
/// level's step.
pub proof fn lemma_replay_one_more<T: TwoToOneHash>(
    t: &T,
    node: Seq<u8>,
    path: Seq<Step>,
    level: nat,
)
    requires
        level < path.len(),
    ensures
        replay(t, node, path.take(level as int + 1)) == combine(
            t,
            replay(t, node, path.take(level as int)),
            path[level as int],
        ),
{
    let lower = path.take(level as int + 1);
    lemma_replay_split(t, node, lower, level);
    assert(lower.take(level as int) =~= path.take(level as int));
    let last = lower.skip(level as int);
    assert(last.len() == 1 && last[0] == path[level as int]);
    assert(last.drop_first().len() == 0);
    let reached = replay(t, node, path.take(level as int));
    assert(replay(t, reached, last) == replay(
        t,
        combine(t, reached, last[0]),
        last.drop_first(),
    ));
}

} // verus!
