//! Circuits of hash gadgets.
//!
//! A circuit is a list of gates over numbered wires. Inputs come in through
//! gates that carry their assigned values, public or witness; the other gates
//! hash, select and compare what earlier wires carry, and constrain bits to
//! be set. The hash parameters are constants of the system. A proof backend
//! lowers each gate to the allocation or the gadget of the same name.

use crate::common::MerkleConfig;
use crate::hash::{Digest, LeafHash, TwoToOneHash};
use vstd::prelude::*;

verus! {

/// One gate of a circuit. Gate number `i` defines wire number `i`.
#[derive(Clone, Debug, PartialEq, Eq)]
pub enum Gate {
    /// A digest that the verifier supplies.
    PublicDigest(Digest),
    /// Bytes that the verifier supplies.
    PublicBytes(Vec<u8>),
    /// A digest that only the prover knows.
    WitnessDigest(Digest),
    /// A bit that only the prover knows.
    WitnessBit(bool),
    /// The leaf hash of the bytes on wire `input`.
    HashLeaf { input: usize },
    /// The digest on wire `when_set` if the bit on wire `bit` is set, and the
    /// digest on wire `otherwise` if it is not.
    Select { bit: usize, when_set: usize, otherwise: usize },
    /// The two-to-one hash of the digests on the wires `left` and `right`.
    HashPair { left: usize, right: usize },
    /// The bit that tells whether the digests on the two wires are equal.
    IsEqual { left: usize, right: usize },
    /// The constraint that the bit on wire `bit` is set.
    EnforceTrue { bit: usize },
}

/// What a wire carries once the inputs are assigned.
pub ghost enum Signal {
    Digest(Seq<u8>),
    Bytes(Seq<u8>),
    Bit(bool),
    /// The outcome of a constraint.
    Enforced(bool),
    /// An input wire is missing, or carries a signal of another sort.
    Invalid,
}

/// The signal on wire `w`.
pub open spec fn wire(signals: Seq<Signal>, w: usize) -> Signal {
    if w < signals.len() {
        signals[w as int]
    } else {
        Signal::Invalid
    }
}

/// The signal that `gate` puts on its wire, given the wires before it.
pub open spec fn gate_signal<L: LeafHash, T: TwoToOneHash>(
    l: &L,
    t: &T,
    gate: Gate,
    prior: Seq<Signal>,
) -> Signal {
    match gate {
        Gate::PublicDigest(d) => Signal::Digest(d@),
        Gate::PublicBytes(b) => Signal::Bytes(b@),
        Gate::WitnessDigest(d) => Signal::Digest(d@),
        Gate::WitnessBit(b) => Signal::Bit(b),
        Gate::HashLeaf { input } => match wire(prior, input) {
            Signal::Bytes(b) => if b.len() <= MerkleConfig::LEAF_BYTES {
                Signal::Digest(l.digest_of(b))
            } else {
                Signal::Invalid
            },
            _ => Signal::Invalid,
        },
        Gate::Select { bit, when_set, otherwise } => match (
            wire(prior, bit),
            wire(prior, when_set),
            wire(prior, otherwise),
        ) {
            (Signal::Bit(c), Signal::Digest(x), Signal::Digest(y)) => Signal::Digest(
                if c {
                    x
                } else {
                    y
                },
            ),
            _ => Signal::Invalid,
        },
        Gate::HashPair { left, right } => match (wire(prior, left), wire(prior, right)) {
            (Signal::Digest(x), Signal::Digest(y)) => Signal::Digest(t.digest_of(x, y)),
            _ => Signal::Invalid,
        },
        Gate::IsEqual { left, right } => match (wire(prior, left), wire(prior, right)) {
            (Signal::Digest(x), Signal::Digest(y)) => Signal::Bit(x == y),
            _ => Signal::Invalid,
        },
        Gate::EnforceTrue { bit } => match wire(prior, bit) {
            Signal::Bit(c) => Signal::Enforced(c),
            _ => Signal::Invalid,
        },
    }
}

/// The signals on all wires of a circuit, gate by gate.
pub open spec fn signals<L: LeafHash, T: TwoToOneHash>(l: &L, t: &T, gates: Seq<Gate>) -> Seq<
    Signal,
>
    decreases gates.len(),
{
    if gates.len() == 0 {
        Seq::empty()
    } else {
        let prior = signals(l, t, gates.drop_last());
        prior.push(gate_signal(l, t, gates.last(), prior))
    }
}

/// Every gate finds its inputs, and every constraint holds.
pub open spec fn all_hold(signals: Seq<Signal>) -> bool {
    forall|i: int|
        0 <= i < signals.len() ==> #[trigger] signals[i] != Signal::Invalid && signals[i]
            != Signal::Enforced(false)
}

/// A circuit with its constants and assigned inputs.
pub struct ConstraintSystem<L, T> {
    /// The parameters of the leaf hash, a constant of the circuit.
    pub leaf_crh_params: L,
    /// The parameters of the two-to-one hash, a constant of the circuit.
    pub two_to_one_crh_params: T,
    /// The gates, in the order in which they were emitted.
    pub gates: Vec<Gate>,
}

impl<L: LeafHash, T: TwoToOneHash> ConstraintSystem<L, T> {
    /// The signals on the system's wires.
    pub open spec fn signals(&self) -> Seq<Signal> {
        signals(&self.leaf_crh_params, &self.two_to_one_crh_params, self.gates@)
    }

    /// The system is satisfied by the inputs assigned to it.
    pub open spec fn satisfied(&self) -> bool {
        all_hold(self.signals())
    }

    /// A system with the given constants and no gate.
    pub fn new(leaf_crh_params: L, two_to_one_crh_params: T) -> (cs: Self)
        ensures
            cs.leaf_crh_params == leaf_crh_params,
            cs.two_to_one_crh_params == two_to_one_crh_params,
            cs.gates@ == Seq::<Gate>::empty(),
    {
        ConstraintSystem { leaf_crh_params, two_to_one_crh_params, gates: Vec::new() }
    }

    /// Appends `gate` and returns the number of the wire it defines.
    pub fn emit(&mut self, gate: Gate) -> (w: usize)
        ensures
            w == old(self).gates@.len(),
            final(self).leaf_crh_params == old(self).leaf_crh_params,
            final(self).two_to_one_crh_params == old(self).two_to_one_crh_params,
            final(self).gates@ == old(self).gates@.push(gate),
            final(self).signals() == old(self).signals().push(
                gate_signal(
                    &old(self).leaf_crh_params,
                    &old(self).two_to_one_crh_params,
                    gate,
                    old(self).signals(),
                ),
            ),
    {
        let w = self.gates.len();
        self.gates.push(gate);
        proof {
            assert(self.gates@.drop_last() =~= old(self).gates@);
        }
        w
    }
}

/// What the evaluation of a circuit holds on a wire.
enum Held<'a> {
    Digest(Digest),
    Bytes(&'a Vec<u8>),
    Bit(bool),
    Enforced(bool),
    Invalid,
}

impl<'a> Held<'a> {
    spec fn signal(self) -> Signal {
        match self {
            Held::Digest(d) => Signal::Digest(d@),
            Held::Bytes(b) => Signal::Bytes(b@),
            Held::Bit(b) => Signal::Bit(b),
            Held::Enforced(b) => Signal::Enforced(b),
            Held::Invalid => Signal::Invalid,
        }
    }
}

spec fn held_signals(held: Seq<Held>) -> Seq<Signal> {
    held.map_values(|h: Held| h.signal())
}

fn digest_on<'a>(held: &Vec<Held<'a>>, w: usize) -> (r: Option<Digest>)
    ensures
        match r {
            Some(d) => wire(held_signals(held@), w) == Signal::Digest(d@),
            None => !(wire(held_signals(held@), w) is Digest),
        },
{
    if w < held.len() {
        match &held[w] {
            Held::Digest(d) => Some(*d),
            _ => None,
        }
    } else {
        None
    }
}

fn bit_on<'a>(held: &Vec<Held<'a>>, w: usize) -> (r: Option<bool>)
    ensures
        match r {
            Some(b) => wire(held_signals(held@), w) == Signal::Bit(b),
            None => !(wire(held_signals(held@), w) is Bit),
        },
{
    if w < held.len() {
        match &held[w] {
            Held::Bit(b) => Some(*b),
            _ => None,
        }
    } else {
        None
    }
}

fn bytes_on<'a>(held: &Vec<Held<'a>>, w: usize) -> (r: Option<&'a Vec<u8>>)
    ensures
        match r {
            Some(b) => wire(held_signals(held@), w) == Signal::Bytes(b@),
            None => !(wire(held_signals(held@), w) is Bytes),
        },
{
    if w < held.len() {
        match &held[w] {
            Held::Bytes(b) => Some(*b),
            _ => None,
        }
    } else {
        None
    }
}

impl<L: LeafHash, T: TwoToOneHash> ConstraintSystem<L, T> {
    /// What `gate` puts on its wire, given what the wires before it hold.
    fn evaluate<'a>(&'a self, gate: &'a Gate, held: &Vec<Held<'a>>) -> (h: Held<'a>)
        ensures
            h.signal() == gate_signal(
                &self.leaf_crh_params,
                &self.two_to_one_crh_params,
                *gate,
                held_signals(held@),
            ),
    {
        match gate {
            Gate::PublicDigest(d) => Held::Digest(*d),
            Gate::PublicBytes(b) => Held::Bytes(b),
            Gate::WitnessDigest(d) => Held::Digest(*d),
            Gate::WitnessBit(b) => Held::Bit(*b),
            Gate::HashLeaf { input } => match bytes_on(held, *input) {
                Some(b) => if b.len() <= MerkleConfig::LEAF_BYTES {
                    Held::Digest(self.leaf_crh_params.evaluate(b.as_slice()))
                } else {
                    Held::Invalid
                },
                None => Held::Invalid,
            },
            Gate::Select { bit, when_set, otherwise } => match (
                bit_on(held, *bit),
                digest_on(held, *when_set),
                digest_on(held, *otherwise),
            ) {
                (Some(c), Some(x), Some(y)) => Held::Digest(
                    if c {
                        x
                    } else {
                        y
                    },
                ),
                _ => Held::Invalid,
            },
            Gate::HashPair { left, right } => match (
                digest_on(held, *left),
                digest_on(held, *right),
            ) {
                (Some(x), Some(y)) => Held::Digest(self.two_to_one_crh_params.evaluate(&x, &y)),
                _ => Held::Invalid,
            },
            Gate::IsEqual { left, right } => match (
                digest_on(held, *left),
                digest_on(held, *right),
            ) {
                (Some(x), Some(y)) => Held::Bit(x == y),
                _ => Held::Invalid,
            },
            Gate::EnforceTrue { bit } => match bit_on(held, *bit) {
                Some(c) => Held::Enforced(c),
                None => Held::Invalid,
            },
        }
    }

    /// Whether the system is satisfied by the inputs assigned to it: the
    /// circuit is evaluated gate by gate under the system's hashes.
    pub fn is_satisfied(&self) -> (ok: bool)
        ensures
            ok == self.satisfied(),
    {
        let mut held: Vec<Held> = Vec::new();
        let mut ok = true;
        let mut i: usize = 0;
        assert(self.gates@.take(0) =~= Seq::<Gate>::empty());
        while i < self.gates.len()
            invariant
                i <= self.gates@.len(),
                held_signals(held@) == signals(
                    &self.leaf_crh_params,
                    &self.two_to_one_crh_params,
                    self.gates@.take(i as int),
                ),
                held@.len() == i,
                ok == all_hold(held_signals(held@)),
            decreases self.gates@.len() - i,
        {
            let h = self.evaluate(&self.gates[i], &held);
            let ghost before = held_signals(held@);
            let sound = match h {
                Held::Invalid => false,
                Held::Enforced(c) => c,
                _ => true,
            };
            held.push(h);
            proof {
                let taken = self.gates@.take(i + 1);
                assert(taken.drop_last() =~= self.gates@.take(i as int));
                assert(taken.last() == self.gates@[i as int]);
                let after = held_signals(held@);
                assert(after =~= before.push(h.signal()));
                if ok && sound {
                    assert(all_hold(after));
                } else if !sound {
                    assert(after[i as int] == h.signal());
                    assert(!all_hold(after));
                } else {
                    let bad = choose|k: int|
                        0 <= k < before.len() && !(before[k] != Signal::Invalid && before[k]
                            != Signal::Enforced(false));
                    assert(after[bad] == before[bad]);
                    assert(!all_hold(after));
                }
            }
            ok = ok && sound;
            i = i + 1;
        }
        assert(self.gates@.take(i as int) =~= self.gates@);
        ok
    }
}

/// A gate that is added leaves the signals before it as they are, and puts
/// its own signal behind them.
pub proof fn lemma_signals_push<L: LeafHash, T: TwoToOneHash>(
    l: &L,
    t: &T,
    gates: Seq<Gate>,
    gate: Gate,
)
    ensures
        signals(l, t, gates.push(gate)) == signals(l, t, gates).push(
            gate_signal(l, t, gate, signals(l, t, gates)),
        ),
{
    assert(gates.push(gate).drop_last() =~= gates);
}

/// Signals that all hold go on holding when one more is added that is
/// neither invalid nor a failed constraint, and only then.
pub proof fn lemma_all_hold_push(signals: Seq<Signal>, added: Signal)
    ensures
        all_hold(signals.push(added)) <==> all_hold(signals) && added != Signal::Invalid && added
            != Signal::Enforced(false),
{
    let longer = signals.push(added);
    if all_hold(longer) {
        assert(longer[signals.len() as int] == added);
        assert forall|i: int| 0 <= i < signals.len() implies #[trigger] signals[i]
            != Signal::Invalid && signals[i] != Signal::Enforced(false) by {
            assert(longer[i] == signals[i]);
        }
    }
    if all_hold(signals) && added != Signal::Invalid && added != Signal::Enforced(false) {
        assert forall|i: int| 0 <= i < longer.len() implies #[trigger] longer[i]
            != Signal::Invalid && longer[i] != Signal::Enforced(false) by {
            if i < signals.len() {
                assert(longer[i] == signals[i]);
            }
        }
    }
}

} // verus!
