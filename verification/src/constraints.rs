//! Path verification as a circuit.
//!
//! A membership statement is laid out as a circuit: the root and the leaf
//! come in as public inputs, the path as private witness, and the gates hash
//! the leaf and fold the path exactly as the native verification does, ending
//! in the constraint that the digest reached equals the root.

use crate::circuit::{
    all_hold, gate_signal, lemma_all_hold_push, lemma_signals_push, signals, ConstraintSystem,
    Gate, Signal,
};
use crate::common::MerkleConfig;
use crate::hash::{Digest, LeafHash, TwoToOneHash};
use crate::tree::{
    accepts, combine, lemma_replay_one_more, replay, step_values, Path, PathStep, Side, Step,
};
use vstd::prelude::*;

verus! {

/// Why a circuit could not be built. That a statement is false is no such
/// reason: its circuit is built, and is not satisfied.
#[derive(Clone, Copy, Debug, PartialEq, Eq, Structural)]
pub enum SynthesisError {
    /// The statement came without its path.
    MissingWitness,
    /// The leaf is longer than the leaf hash takes.
    LeafTooLong,
}

/// The wire of the witness for the sibling at `level`.
pub open spec fn sibling_wire(level: int) -> int {
    2 + 2 * level
}

/// The wire of the witness for the side at `level`: set when the node on the
/// path stands on the right.
pub open spec fn side_wire(level: int) -> int {
    3 + 2 * level
}

/// The wire of the digest reached below `level`, in a circuit for a path of
/// `levels` steps.
pub open spec fn node_wire(levels: int, level: int) -> int {
    2 + 2 * levels + 3 * level
}

/// The number of gates in the circuit for a path of `levels` steps.
pub open spec fn gate_count(levels: int) -> int {
    5 * levels + 5
}

/// The gates that take the public inputs in: the root on wire 0, the leaf on
/// wire 1.
pub open spec fn input_gates(root: Digest, leaf: Vec<u8>) -> Seq<Gate> {
    seq![Gate::PublicDigest(root), Gate::PublicBytes(leaf)]
}

/// The gates that take the path in as witness: for each level, the sibling
/// and then the side.
pub open spec fn witness_gates(steps: Seq<PathStep>) -> Seq<Gate>
    decreases steps.len(),
{
    if steps.len() == 0 {
        Seq::empty()
    } else {
        witness_gates(steps.drop_last()).push(Gate::WitnessDigest(steps.last().sibling)).push(
            Gate::WitnessBit(steps.last().side == Side::Right),
        )
    }
}

/// The gates that fold the levels below `upto`: at each level the side
/// selects which of node and sibling is the left input and which the right,
/// and the two are hashed.
pub open spec fn fold_gates(levels: int, upto: nat) -> Seq<Gate>
    decreases upto,
{
    if upto == 0 {
        Seq::empty()
    } else {
        let level = upto - 1;
        let bit = side_wire(level) as usize;
        let sibling = sibling_wire(level) as usize;
        let node = node_wire(levels, level);
        fold_gates(levels, level as nat).push(
            Gate::Select { bit, when_set: sibling, otherwise: node as usize },
        ).push(Gate::Select { bit, when_set: node as usize, otherwise: sibling }).push(
            Gate::HashPair { left: (node + 1) as usize, right: (node + 2) as usize },
        )
    }
}

/// The circuit of a membership statement: the public inputs, the witness,
/// the leaf hash, the fold, and the constraint that the fold ends in the
/// root.
pub open spec fn membership_circuit(root: Digest, leaf: Vec<u8>, steps: Seq<PathStep>) -> Seq<
    Gate,
> {
    let levels = steps.len() as int;
    let end = node_wire(levels, levels);
    input_gates(root, leaf) + witness_gates(steps) + seq![Gate::HashLeaf { input: 1 }]
        + fold_gates(levels, steps.len()) + seq![
        Gate::IsEqual { left: end as usize, right: 0 },
        Gate::EnforceTrue { bit: (end + 1) as usize },
    ]
}

/// Level `i` of `path` is on its two witness wires.
spec fn level_on_wires(signals: Seq<Signal>, path: Seq<Step>, i: int) -> bool {
    &&& signals[sibling_wire(i)] == Signal::Digest(path[i].sibling)
    &&& signals[side_wire(i)] == Signal::Bit(path[i].side == Side::Right)
}

/// The root, the leaf and the levels of `path` below `upto` are on their
/// wires.
spec fn inputs_on_wires(
    signals: Seq<Signal>,
    root: Seq<u8>,
    leaf: Seq<u8>,
    path: Seq<Step>,
    upto: int,
) -> bool {
    &&& signals.len() >= 2 + 2 * upto
    &&& signals[0] == Signal::Digest(root)
    &&& signals[1] == Signal::Bytes(leaf)
    &&& forall|i: int| 0 <= i < upto ==> #[trigger] level_on_wires(signals, path, i)
}

/// Wires that are added leave the inputs on their wires.
proof fn lemma_inputs_stay(
    before: Seq<Signal>,
    after: Seq<Signal>,
    root: Seq<u8>,
    leaf: Seq<u8>,
    path: Seq<Step>,
    upto: int,
)
    requires
        inputs_on_wires(before, root, leaf, path, upto),
        0 <= upto,
        before.len() <= after.len(),
        forall|k: int| 0 <= k < before.len() ==> after[k] == before[k],
    ensures
        inputs_on_wires(after, root, leaf, path, upto),
{
    assert forall|i: int| 0 <= i < upto implies #[trigger] level_on_wires(after, path, i) by {
        assert(level_on_wires(before, path, i));
    }
}

/// The signals of the input gates, with the witness for the levels below
/// `upto`: they all hold, and the inputs are on their wires.
proof fn lemma_witness_signals<L: LeafHash, T: TwoToOneHash>(
    l: &L,
    t: &T,
    root: Digest,
    leaf: Vec<u8>,
    steps: Seq<PathStep>,
    upto: nat,
)
    requires
        upto <= steps.len(),
    ensures
        ({
            let s = signals(l, t, input_gates(root, leaf) + witness_gates(steps.take(upto as int)));
            &&& s.len() == 2 + 2 * upto
            &&& all_hold(s)
            &&& inputs_on_wires(s, root@, leaf@, step_values(steps), upto as int)
        }),
    decreases upto,
{
    let path = step_values(steps);
    if upto == 0 {
        let none = Seq::<Gate>::empty();
        let first = Gate::PublicDigest(root);
        let second = Gate::PublicBytes(leaf);
        assert(input_gates(root, leaf) + witness_gates(steps.take(0)) =~= none.push(first).push(
            second,
        ));
        lemma_signals_push(l, t, none, first);
        lemma_signals_push(l, t, none.push(first), second);
        let s0 = signals(l, t, none);
        let s1 = signals(l, t, none.push(first));
        lemma_all_hold_push(s0, Signal::Digest(root@));
        lemma_all_hold_push(s1, Signal::Bytes(leaf@));
    } else {
        let level = (upto - 1) as nat;
        lemma_witness_signals(l, t, root, leaf, steps, level);
        let taken = steps.take(upto as int);
        assert(taken.drop_last() =~= steps.take(level as int));
        assert(taken.last() == steps[level as int]);
        let g0 = input_gates(root, leaf) + witness_gates(steps.take(level as int));
        let sibling = Gate::WitnessDigest(steps[level as int].sibling);
        let side = Gate::WitnessBit(steps[level as int].side == Side::Right);
        assert(input_gates(root, leaf) + witness_gates(taken) =~= g0.push(sibling).push(side));
        let s0 = signals(l, t, g0);
        lemma_signals_push(l, t, g0, sibling);
        let s1 = signals(l, t, g0.push(sibling));
        lemma_signals_push(l, t, g0.push(sibling), side);
        let s2 = signals(l, t, g0.push(sibling).push(side));
        lemma_all_hold_push(s0, Signal::Digest(steps[level as int].sibling@));
        lemma_all_hold_push(s1, Signal::Bit(steps[level as int].side == Side::Right));
        lemma_inputs_stay(s0, s2, root@, leaf@, path, level as int);
        assert(path[level as int] == steps[level as int]@);
        assert(s2[sibling_wire(level as int)] == Signal::Digest(path[level as int].sibling));
        assert(s2[side_wire(level as int)] == Signal::Bit(path[level as int].side == Side::Right));
        assert forall|i: int| 0 <= i < upto implies #[trigger] level_on_wires(s2, path, i) by {
            if i < level {
                assert(level_on_wires(s0, path, i));
            }
        }
    }
}

/// The signals of the circuit up to the fold of the levels below `upto`:
/// they all hold, the inputs are on their wires, and the last wire carries
/// the digest that the replay of these levels reaches from the leaf's.
proof fn lemma_fold_signals<L: LeafHash, T: TwoToOneHash>(
    l: &L,
    t: &T,
    root: Digest,
    leaf: Vec<u8>,
    steps: Seq<PathStep>,
    upto: nat,
)
    requires
        upto <= steps.len(),
        leaf@.len() <= MerkleConfig::LEAF_BYTES,
        gate_count(steps.len() as int) <= usize::MAX,
    ensures
        ({
            let levels = steps.len() as int;
            let s = signals(
                l,
                t,
                input_gates(root, leaf) + witness_gates(steps) + seq![Gate::HashLeaf { input: 1 }]
                    + fold_gates(levels, upto),
            );
            &&& s.len() == node_wire(levels, upto as int) + 1
            &&& all_hold(s)
            &&& inputs_on_wires(s, root@, leaf@, step_values(steps), levels)
            &&& s[node_wire(levels, upto as int)] == Signal::Digest(
                replay(t, l.digest_of(leaf@), step_values(steps).take(upto as int)),
            )
        }),
    decreases upto,
{
    let levels = steps.len() as int;
    let path = step_values(steps);
    let start = l.digest_of(leaf@);
    let allocated = input_gates(root, leaf) + witness_gates(steps);
    let hashed = allocated + seq![Gate::HashLeaf { input: 1 }];
    if upto == 0 {
        lemma_witness_signals(l, t, root, leaf, steps, steps.len());
        assert(steps.take(levels) =~= steps);
        let hash = Gate::HashLeaf { input: 1 };
        assert(hashed + fold_gates(levels, 0) =~= allocated.push(hash));
        let s0 = signals(l, t, allocated);
        lemma_signals_push(l, t, allocated, hash);
        let s1 = signals(l, t, allocated.push(hash));
        assert(gate_signal(l, t, hash, s0) == Signal::Digest(start));
        lemma_all_hold_push(s0, Signal::Digest(start));
        lemma_inputs_stay(s0, s1, root@, leaf@, path, levels);
        assert(path.take(0) =~= Seq::<Step>::empty());
    } else {
        let level = (upto - 1) as nat;
        lemma_fold_signals(l, t, root, leaf, steps, level);
        let g0 = hashed + fold_gates(levels, level);
        let s0 = signals(l, t, g0);
        let node = node_wire(levels, level as int);
        let bit = side_wire(level as int) as usize;
        let sibling = sibling_wire(level as int) as usize;
        let left = Gate::Select { bit, when_set: sibling, otherwise: node as usize };
        let right = Gate::Select { bit, when_set: node as usize, otherwise: sibling };
        let hash = Gate::HashPair { left: (node + 1) as usize, right: (node + 2) as usize };
        assert(hashed + fold_gates(levels, upto) =~= g0.push(left).push(right).push(hash));
        let reached = replay(t, start, path.take(level as int));
        let step = path[level as int];
        let on_right = step.side == Side::Right;
        assert(level_on_wires(s0, path, level as int));
        assert(s0[bit as int] == Signal::Bit(on_right));
        assert(s0[sibling as int] == Signal::Digest(step.sibling));
        assert(s0[node] == Signal::Digest(reached));
        let x = if on_right {
            step.sibling
        } else {
            reached
        };
        let y = if on_right {
            reached
        } else {
            step.sibling
        };
        lemma_signals_push(l, t, g0, left);
        let s1 = signals(l, t, g0.push(left));
        assert(gate_signal(l, t, left, s0) == Signal::Digest(x));
        lemma_signals_push(l, t, g0.push(left), right);
        let s2 = signals(l, t, g0.push(left).push(right));
        assert(s1[bit as int] == s0[bit as int]);
        assert(s1[sibling as int] == s0[sibling as int]);
        assert(s1[node] == s0[node]);
        assert(gate_signal(l, t, right, s1) == Signal::Digest(y));
        lemma_signals_push(l, t, g0.push(left).push(right), hash);
        let s3 = signals(l, t, g0.push(left).push(right).push(hash));
        assert(s2[node + 1] == Signal::Digest(x));
        assert(s2[node + 2] == Signal::Digest(y));
        assert(gate_signal(l, t, hash, s2) == Signal::Digest(t.digest_of(x, y)));
        assert(t.digest_of(x, y) == combine(t, reached, step));
        lemma_replay_one_more(t, start, path, level);
        lemma_all_hold_push(s0, Signal::Digest(x));
        lemma_all_hold_push(s1, Signal::Digest(y));
        lemma_all_hold_push(s2, Signal::Digest(t.digest_of(x, y)));
        lemma_inputs_stay(s0, s3, root@, leaf@, path, levels);
    }
}

/// The circuit agrees with the native verification: for every root, leaf
/// and path, the signals of the membership circuit all hold exactly when
/// the path leads from the leaf to the root.
pub proof fn lemma_circuit_agrees_with_verification<L: LeafHash, T: TwoToOneHash>(
    l: &L,
    t: &T,
    root: Digest,
    leaf: Vec<u8>,
    steps: Seq<PathStep>,
)
    requires
        leaf@.len() <= MerkleConfig::LEAF_BYTES,
        gate_count(steps.len() as int) <= usize::MAX,
    ensures
        all_hold(signals(l, t, membership_circuit(root, leaf, steps))) <==> accepts(
            l,
            t,
            root@,
            leaf@,
            step_values(steps),
        ),
{
    let levels = steps.len() as int;
    let path = step_values(steps);
    lemma_fold_signals(l, t, root, leaf, steps, steps.len());
    assert(path.take(levels) =~= path);
    let end = node_wire(levels, levels);
    let g0 = input_gates(root, leaf) + witness_gates(steps) + seq![Gate::HashLeaf { input: 1 }]
        + fold_gates(levels, steps.len());
    let same = Gate::IsEqual { left: end as usize, right: 0 };
    let enforced = Gate::EnforceTrue { bit: (end + 1) as usize };
    assert(membership_circuit(root, leaf, steps) =~= g0.push(same).push(enforced));
    let reached = replay(t, l.digest_of(leaf@), path);
    let s0 = signals(l, t, g0);
    lemma_signals_push(l, t, g0, same);
    let s1 = signals(l, t, g0.push(same));
    assert(gate_signal(l, t, same, s0) == Signal::Bit(reached == root@));
    lemma_signals_push(l, t, g0.push(same), enforced);
    assert(s1[end + 1] == Signal::Bit(reached == root@));
    assert(gate_signal(l, t, enforced, s1) == Signal::Enforced(reached == root@));
    lemma_all_hold_push(s0, Signal::Bit(reached == root@));
    lemma_all_hold_push(s1, Signal::Enforced(reached == root@));
}

/// A membership statement: under the given hash parameters, `leaf` is one of
/// the leaves that `root` commits to. The path is the private witness.
pub struct MTreeVerification<L, T> {
    /// The parameters of the leaf hash, a constant of the circuit.
    pub leaf_crh_params: L,
    /// The parameters of the two-to-one hash, a constant of the circuit.
    pub two_to_one_crh_params: T,
    /// The root, a public input.
    pub root: Digest,
    /// The leaf, a public input.
    pub leaf: Vec<u8>,
    /// The path from the leaf to the root, the private witness.
    pub auth_path: Option<Path>,
}

impl<L: LeafHash, T: TwoToOneHash> ConstraintSystem<L, T> {
    /// Takes the steps of `path` in as witness, behind the two public
    /// inputs, and returns the wires of the siblings and of the sides.
    fn witness_path(&mut self, path: &Path) -> (wires: (Vec<usize>, Vec<usize>))
        requires
            old(self).gates@.len() == 2,
        ensures
            final(self).leaf_crh_params == old(self).leaf_crh_params,
            final(self).two_to_one_crh_params == old(self).two_to_one_crh_params,
            final(self).gates@ == old(self).gates@ + witness_gates(path.steps@),
            final(self).gates@.len() == 2 + 2 * path@.len(),
            wires.0@.len() == path@.len(),
            wires.1@.len() == path@.len(),
            forall|i: int|
                0 <= i < path@.len() ==> #[trigger] wires.0@[i] == sibling_wire(i) && wires.1@[i]
                    == side_wire(i),
    {
        let levels = path.steps.len();
        let mut sibling_wires: Vec<usize> = Vec::new();
        let mut side_wires: Vec<usize> = Vec::new();
        let mut level: usize = 0;
        assert(self.gates@ =~= old(self).gates@ + witness_gates(path.steps@.take(0)));
        while level < levels
            invariant
                level <= levels,
                levels == path.steps@.len(),
                self.leaf_crh_params == old(self).leaf_crh_params,
                self.two_to_one_crh_params == old(self).two_to_one_crh_params,
                self.gates@ == old(self).gates@ + witness_gates(path.steps@.take(level as int)),
                self.gates@.len() == 2 + 2 * level,
                sibling_wires@.len() == level,
                side_wires@.len() == level,
                forall|i: int|
                    0 <= i < level ==> #[trigger] sibling_wires@[i] == sibling_wire(i)
                        && side_wires@[i] == side_wire(i),
            decreases levels - level,
        {
            let step = path.steps[level];
            let right = match step.side {
                Side::Left => false,
                Side::Right => true,
            };
            let ghost siblings_before = sibling_wires@;
            let ghost sides_before = side_wires@;
            let sibling = self.emit(Gate::WitnessDigest(step.sibling));
            let bit = self.emit(Gate::WitnessBit(right));
            sibling_wires.push(sibling);
            side_wires.push(bit);
            proof {
                let taken = path.steps@.take(level + 1);
                assert(taken.drop_last() =~= path.steps@.take(level as int));
                assert(taken.last() == step);
                assert(self.gates@ =~= old(self).gates@ + witness_gates(taken));
                assert forall|i: int| 0 <= i < level + 1 implies #[trigger] sibling_wires@[i]
                    == sibling_wire(i) && side_wires@[i] == side_wire(i) by {
                    if i < level {
                        assert(sibling_wires@[i] == siblings_before[i]);
                        assert(side_wires@[i] == sides_before[i]);
                    }
                }
            }
            level = level + 1;
        }
        assert(path.steps@.take(levels as int) =~= path.steps@);
        (sibling_wires, side_wires)
    }

    /// Folds the path: from the digest on wire `leaf_node`, each level puts
    /// node and sibling in the order that the side says and hashes them.
    /// Returns the wire of the digest reached at the top.
    fn fold_path(
        &mut self,
        sibling_wires: &Vec<usize>,
        side_wires: &Vec<usize>,
        leaf_node: usize,
    ) -> (node: usize)
        requires
            sibling_wires@.len() == side_wires@.len(),
            leaf_node == node_wire(sibling_wires@.len() as int, 0),
            old(self).gates@.len() == leaf_node + 1,
            forall|i: int|
                0 <= i < sibling_wires@.len() ==> #[trigger] sibling_wires@[i] == sibling_wire(i)
                    && side_wires@[i] == side_wire(i),
        ensures
            final(self).leaf_crh_params == old(self).leaf_crh_params,
            final(self).two_to_one_crh_params == old(self).two_to_one_crh_params,
            final(self).gates@ == old(self).gates@ + fold_gates(
                sibling_wires@.len() as int,
                sibling_wires@.len(),
            ),
            node == node_wire(sibling_wires@.len() as int, sibling_wires@.len() as int),
            final(self).gates@.len() == node + 1,
    {
        let levels = sibling_wires.len();
        let mut node = leaf_node;
        let mut level: usize = 0;
        assert(self.gates@ =~= old(self).gates@ + fold_gates(levels as int, 0));
        while level < levels
            invariant
                level <= levels,
                levels == sibling_wires@.len(),
                levels == side_wires@.len(),
                self.leaf_crh_params == old(self).leaf_crh_params,
                self.two_to_one_crh_params == old(self).two_to_one_crh_params,
                self.gates@ == old(self).gates@ + fold_gates(levels as int, level as nat),
                node == node_wire(levels as int, level as int),
                self.gates@.len() == node + 1,
                forall|i: int|
                    0 <= i < levels ==> #[trigger] sibling_wires@[i] == sibling_wire(i)
                        && side_wires@[i] == side_wire(i),
            decreases levels - level,
        {
            let sibling = sibling_wires[level];
            let bit = side_wires[level];
            let left = self.emit(Gate::Select { bit, when_set: sibling, otherwise: node });
            let right = self.emit(Gate::Select { bit, when_set: node, otherwise: sibling });
            let above = self.emit(Gate::HashPair { left, right });
            proof {
                assert(sibling == sibling_wire(level as int));
                assert(bit == side_wire(level as int));
                assert(self.gates@ =~= old(self).gates@ + fold_gates(
                    levels as int,
                    (level + 1) as nat,
                ));
            }
            node = above;
            level = level + 1;
        }
        node
    }
}

impl<L: LeafHash, T: TwoToOneHash> MTreeVerification<L, T> {
    /// The native verification accepts the statement.
    pub open spec fn holds(&self) -> bool {
        &&& self.auth_path is Some
        &&& accepts(
            &self.leaf_crh_params,
            &self.two_to_one_crh_params,
            self.root@,
            self.leaf@,
            self.auth_path->0@,
        )
    }

    /// Builds the statement's circuit.
    ///
    /// The circuit is `membership_circuit` of the root, the leaf and the
    /// path, over the statement's hash parameters, and it is satisfied
    /// exactly when the native verification accepts the statement. No
    /// circuit is built for a statement without a path, or with a leaf too
    /// long for the leaf hash.
    pub fn generate_constraints(self) -> (r: Result<ConstraintSystem<L, T>, SynthesisError>)
        ensures
            self.auth_path is None <==> r == Err::<ConstraintSystem<L, T>, SynthesisError>(
                SynthesisError::MissingWitness,
            ),
            self.auth_path is Some && self.leaf@.len() > MerkleConfig::LEAF_BYTES <==> r == Err::<
                ConstraintSystem<L, T>,
                SynthesisError,
            >(SynthesisError::LeafTooLong),
            self.auth_path is Some && self.leaf@.len() <= MerkleConfig::LEAF_BYTES <==> r is Ok,
            r matches Ok(cs) ==> {
                &&& cs.leaf_crh_params == self.leaf_crh_params
                &&& cs.two_to_one_crh_params == self.two_to_one_crh_params
                &&& cs.gates@ == membership_circuit(self.root, self.leaf, self.auth_path->0.steps@)
                &&& cs.satisfied() <==> self.holds()
            },
    {
        let path = match self.auth_path {
            None => {
                return Err(SynthesisError::MissingWitness);
            },
            Some(path) => path,
        };
        if self.leaf.len() > MerkleConfig::LEAF_BYTES {
            return Err(SynthesisError::LeafTooLong);
        }
        let mut cs = ConstraintSystem::new(self.leaf_crh_params, self.two_to_one_crh_params);
        let root_wire = cs.emit(Gate::PublicDigest(self.root));
        let leaf_wire = cs.emit(Gate::PublicBytes(self.leaf));
        assert(cs.gates@ =~= input_gates(self.root, self.leaf));
        let (sibling_wires, side_wires) = cs.witness_path(&path);
        let leaf_node = cs.emit(Gate::HashLeaf { input: leaf_wire });
        let node = cs.fold_path(&sibling_wires, &side_wires, leaf_node);
        let same = cs.emit(Gate::IsEqual { left: node, right: root_wire });
        let enforced = cs.emit(Gate::EnforceTrue { bit: same });
        let count = cs.gates.len();
        proof {
            assert(cs.gates@ =~= membership_circuit(self.root, self.leaf, path.steps@));
            assert(count == gate_count(path.steps@.len() as int));
            lemma_circuit_agrees_with_verification(
                &self.leaf_crh_params,
                &self.two_to_one_crh_params,
                self.root,
                self.leaf,
                path.steps@,
            );
        }
        Ok(cs)
    }
}

} // verus!
