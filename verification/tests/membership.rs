use ark_crypto_primitives::crh::injective_map::constraints::{
    PedersenCRHCompressorGadget, TECompressorGadget,
};
use ark_crypto_primitives::crh::injective_map::{PedersenCRHCompressor, TECompressor};
use ark_crypto_primitives::crh::{pedersen, CRHGadget, TwoToOneCRH, TwoToOneCRHGadget, CRH};
use ark_crypto_primitives::merkle_tree::{Config, MerkleTree as ArkMerkleTree};
use ark_ed_on_bls12_381::{constraints::EdwardsVar, EdwardsProjective, Fq};
use ark_ff::{PrimeField, ToBytes};
use ark_r1cs_std::alloc::AllocVar;
use ark_r1cs_std::boolean::Boolean;
use ark_r1cs_std::eq::EqGadget;
use ark_r1cs_std::fields::fp::FpVar;
use ark_r1cs_std::uint8::UInt8;
use ark_r1cs_std::ToBytesGadget;
use ark_relations::r1cs::{
    ConstraintLayer, ConstraintSystem, ConstraintSystemRef, SynthesisError as R1csError,
    TracingMode,
};
use crypto::digest::Digest as Hasher;
use crypto::sha3::Sha3;
use merkle_membership::common::{LeafWindow, MerkleConfig, TwoToOneWindow};
use merkle_membership::circuit::{ConstraintSystem as Circuit, Gate};
use merkle_membership::constraints::{MTreeVerification, SynthesisError};
use merkle_membership::hash::{Digest, LeafHash, LeafHasher, TwoToOneHash, TwoToOneHasher};
use merkle_membership::tree::{MerkleError, MerkleTree, Path, PathStep, Side};
use merkle_membership::{Root, SimpleMerkleTree, SimplePath};
use tracing_subscriber::layer::SubscriberExt;

// The Pedersen hashes over Jubjub, with the window shapes of the library.

#[derive(Clone)]
struct JubjubLeafWindow;

impl pedersen::Window for JubjubLeafWindow {
    const WINDOW_SIZE: usize = LeafWindow::WINDOW_SIZE;
    const NUM_WINDOWS: usize = LeafWindow::NUM_WINDOWS;
}

#[derive(Clone)]
struct JubjubTwoToOneWindow;

impl pedersen::Window for JubjubTwoToOneWindow {
    const WINDOW_SIZE: usize = TwoToOneWindow::WINDOW_SIZE;
    const NUM_WINDOWS: usize = TwoToOneWindow::NUM_WINDOWS;
}

type PedersenLeafHash = PedersenCRHCompressor<EdwardsProjective, TECompressor, JubjubLeafWindow>;
type PedersenTwoToOneHash =
    PedersenCRHCompressor<EdwardsProjective, TECompressor, JubjubTwoToOneWindow>;
type PedersenLeafHashGadget = PedersenCRHCompressorGadget<
    EdwardsProjective,
    TECompressor,
    JubjubLeafWindow,
    EdwardsVar,
    TECompressorGadget,
>;
type PedersenTwoToOneHashGadget = PedersenCRHCompressorGadget<
    EdwardsProjective,
    TECompressor,
    JubjubTwoToOneWindow,
    EdwardsVar,
    TECompressorGadget,
>;
type LeafHashParamsVar = <PedersenLeafHashGadget as CRHGadget<PedersenLeafHash, Fq>>::ParametersVar;
type TwoToOneHashParamsVar =
    <PedersenTwoToOneHashGadget as TwoToOneCRHGadget<PedersenTwoToOneHash, Fq>>::ParametersVar;

type Params = pedersen::Parameters<EdwardsProjective>;
type LeafParams = LeafHasher<Params, fn(&Params, &[u8]) -> Digest>;
type TwoToOneParams = TwoToOneHasher<Params, fn(&Params, &Digest, &Digest) -> Digest>;

#[derive(Clone)]
struct JubjubMerkleConfig;

impl Config for JubjubMerkleConfig {
    type LeafHash = PedersenLeafHash;
    type TwoToOneHash = PedersenTwoToOneHash;
}

fn to_digest(x: &Fq) -> Digest {
    let mut bytes = [0u8; 32];
    x.write(&mut bytes[..]).unwrap();
    Digest::from_bytes(bytes)
}

fn to_field(d: &Digest) -> Fq {
    Fq::from_le_bytes_mod_order(&d.to_bytes())
}

fn pedersen_leaf(params: &Params, leaf: &[u8]) -> Digest {
    to_digest(&<PedersenLeafHash as CRH>::evaluate(params, leaf).unwrap())
}

fn pedersen_pair(params: &Params, left: &Digest, right: &Digest) -> Digest {
    let out = <PedersenTwoToOneHash as TwoToOneCRH>::evaluate(
        params,
        &left.to_bytes(),
        &right.to_bytes(),
    );
    to_digest(&out.unwrap())
}

fn leaf_hasher(params: &Params) -> LeafParams {
    LeafHasher::new(params.clone(), pedersen_leaf as fn(&Params, &[u8]) -> Digest)
}

fn pair_hasher(params: &Params) -> TwoToOneParams {
    TwoToOneHasher::new(
        params.clone(),
        pedersen_pair as fn(&Params, &Digest, &Digest) -> Digest,
    )
}

/// The parameters that the fixed test generator gives: first those of the
/// leaf hash, then those of the two-to-one hash.
fn setup() -> (Params, Params) {
    let mut rng = ark_std::test_rng();
    let leaf_crh_params = <PedersenLeafHash as CRH>::setup(&mut rng).unwrap();
    let two_to_one_crh_params = <PedersenTwoToOneHash as TwoToOneCRH>::setup(&mut rng).unwrap();
    (leaf_crh_params, two_to_one_crh_params)
}

fn keccak_hex(byte: u8) -> Vec<u8> {
    let mut hasher = Sha3::keccak256();
    hasher.input(&[byte]);
    hasher.result_str().as_bytes().to_vec()
}

fn leafdata() -> Vec<Vec<u8>> {
    let mut leafdata = vec![];
    for i in &[1u8, 2u8, 3u8, 10u8, 9u8, 17u8, 70u8, 45u8] {
        leafdata.push(keccak_hex(*i));
    }
    leafdata
}

enum Wire {
    Digest(FpVar<Fq>),
    Bytes(Vec<UInt8<Fq>>),
    Bit(Boolean<Fq>),
    Enforced,
}

fn digest_on(wires: &[Wire], w: usize) -> Result<&FpVar<Fq>, R1csError> {
    match wires.get(w) {
        Some(Wire::Digest(x)) => Ok(x),
        _ => Err(R1csError::AssignmentMissing),
    }
}

fn bit_on(wires: &[Wire], w: usize) -> Result<&Boolean<Fq>, R1csError> {
    match wires.get(w) {
        Some(Wire::Bit(x)) => Ok(x),
        _ => Err(R1csError::AssignmentMissing),
    }
}

fn bytes_on(wires: &[Wire], w: usize) -> Result<&Vec<UInt8<Fq>>, R1csError> {
    match wires.get(w) {
        Some(Wire::Bytes(x)) => Ok(x),
        _ => Err(R1csError::AssignmentMissing),
    }
}

/// Lowers a circuit to rank-one constraints, gate by gate.
fn lower(
    circuit: &Circuit<LeafParams, TwoToOneParams>,
    cs: ConstraintSystemRef<Fq>,
) -> Result<(), R1csError> {
    let leaf_crh_params =
        LeafHashParamsVar::new_constant(cs.clone(), circuit.leaf_crh_params.params())?;
    let two_to_one_crh_params =
        TwoToOneHashParamsVar::new_constant(cs.clone(), circuit.two_to_one_crh_params.params())?;
    let mut wires: Vec<Wire> = Vec::new();
    for gate in circuit.gates.iter() {
        let wire = match gate {
            Gate::PublicDigest(d) => Wire::Digest(FpVar::new_input(cs.clone(), || Ok(to_field(d)))?),
            Gate::PublicBytes(b) => Wire::Bytes(UInt8::new_input_vec(cs.clone(), b)?),
            Gate::WitnessDigest(d) => {
                Wire::Digest(FpVar::new_witness(cs.clone(), || Ok(to_field(d)))?)
            }
            Gate::WitnessBit(b) => Wire::Bit(Boolean::new_witness(cs.clone(), || Ok(*b))?),
            Gate::HashLeaf { input } => Wire::Digest(<PedersenLeafHashGadget as CRHGadget<PedersenLeafHash, Fq>>::evaluate(
                &leaf_crh_params,
                bytes_on(&wires, *input)?,
            )?),
            Gate::Select { bit, when_set, otherwise } => Wire::Digest(
                bit_on(&wires, *bit)?
                    .select(digest_on(&wires, *when_set)?, digest_on(&wires, *otherwise)?)?,
            ),
            Gate::HashPair { left, right } => Wire::Digest(<PedersenTwoToOneHashGadget as TwoToOneCRHGadget<
                PedersenTwoToOneHash,
                Fq,
            >>::evaluate(
                &two_to_one_crh_params,
                &digest_on(&wires, *left)?.to_bytes()?,
                &digest_on(&wires, *right)?.to_bytes()?,
            )?),
            Gate::IsEqual { left, right } => {
                Wire::Bit(digest_on(&wires, *left)?.is_eq(digest_on(&wires, *right)?)?)
            }
            Gate::EnforceTrue { bit } => {
                bit_on(&wires, *bit)?.enforce_equal(&Boolean::TRUE)?;
                Wire::Enforced
            }
        };
        wires.push(wire);
    }
    Ok(())
}

/// Whether the statement's circuit, lowered to rank-one constraints, is
/// satisfied.
fn circuit_is_satisfied(
    params: &(Params, Params),
    root: Digest,
    leaf: Vec<u8>,
    path: Path,
) -> bool {
    let circuit = MTreeVerification {
        leaf_crh_params: leaf_hasher(&params.0),
        two_to_one_crh_params: pair_hasher(&params.1),
        root,
        leaf,
        auth_path: Some(path),
    };
    let circuit = circuit.generate_constraints().unwrap();
    let cs = ConstraintSystem::new_ref();
    lower(&circuit, cs.clone()).unwrap();
    let satisfied = cs.is_satisfied().unwrap();
    assert_eq!(circuit.is_satisfied(), satisfied);
    satisfied
}

#[test]
fn test_merkle_tree() {
    let leafdata = leafdata();

    // First, the public parameters for the hash functions:
    let (leaf_crh_params, two_to_one_crh_params) = setup();
    let leaf_crh_params = leaf_hasher(&leaf_crh_params);
    let two_to_one_crh_params = pair_hasher(&two_to_one_crh_params);

    // Next, the tree.
    let tree = SimpleMerkleTree::new(
        &leaf_crh_params,
        &two_to_one_crh_params,
        &leafdata, // the i-th entry is the i-th leaf.
    )
    .unwrap();

    // A membership proof for the 4th item.
    let proof: SimplePath = tree.generate_proof(3).unwrap(); // we're 0-indexing!

    let leaf = keccak_hex(10u8);

    // The root we want to verify against:
    let root: Root = tree.root();
    // Next, let's verify the proof!
    let result = proof.verify(
        &leaf_crh_params,
        &two_to_one_crh_params,
        &root,
        &leaf, // The claimed leaf
    );
    assert!(result);
}

#[test]
fn test_merkle_tree_constraints() {
    // First, the public parameters for the hash functions:
    let params = setup();
    let leaf_crh_params = leaf_hasher(&params.0);
    let two_to_one_crh_params = pair_hasher(&params.1);

    let leafdata = leafdata();

    // Next, the tree.
    let tree = SimpleMerkleTree::new(
        &leaf_crh_params,
        &two_to_one_crh_params,
        &leafdata, // the i-th entry is the i-th leaf.
    )
    .unwrap();

    let leaf = keccak_hex(9u8);

    // A membership proof for the 5th item, i.e. 9.
    let proof = tree.generate_proof(4).unwrap(); // we're 0-indexing!

    // The root we want to verify against:
    let root = tree.root();

    let circuit = MTreeVerification {
        // constants
        leaf_crh_params,
        two_to_one_crh_params,

        // public inputs
        root,
        leaf,

        // witness
        auth_path: Some(proof),
    };
    // First, some boilerplate that helps with debugging
    let mut layer = ConstraintLayer::default();
    layer.mode = TracingMode::OnlyConstraints;
    let subscriber = tracing_subscriber::Registry::default().with(layer);
    let _guard = tracing::subscriber::set_default(subscriber);

    // Next, let's make the circuit!
    let cs = ConstraintSystem::new_ref();
    let circuit = circuit.generate_constraints().unwrap();
    lower(&circuit, cs.clone()).unwrap();
    // Let's see whether the constraint system is satisfied
    let is_satisfied = cs.is_satisfied().unwrap();
    if !is_satisfied {
        // If it isn't, find out the offending constraint.
        println!("{:?}", cs.which_is_unsatisfied());
    }
    assert!(is_satisfied);
    assert!(circuit.is_satisfied());
}

fn numbered_leaves(count: u8) -> Vec<Vec<u8>> {
    let mut leaves = vec![];
    for i in 0..count {
        leaves.push(keccak_hex(i));
    }
    leaves
}

#[test]
fn path_fails_for_another_leaf() {
    let params = setup();
    let leaf_hash = leaf_hasher(&params.0);
    let pair_hash = pair_hasher(&params.1);
    let tree = MerkleTree::new(&leaf_hash, &pair_hash, &leafdata()).unwrap();
    let path = tree.generate_proof(3).unwrap();
    let root = tree.root();
    assert!(path.verify(&leaf_hash, &pair_hash, &root, &keccak_hex(10u8)));
    assert!(!path.verify(&leaf_hash, &pair_hash, &root, &keccak_hex(9u8)));
}

#[test]
fn single_leaf_tree_has_the_leaf_digest_as_root() {
    let params = setup();
    let leaf_hash = leaf_hasher(&params.0);
    let pair_hash = pair_hasher(&params.1);
    let leaf = keccak_hex(7u8);
    let tree = MerkleTree::new(&leaf_hash, &pair_hash, &[leaf.clone()]).unwrap();
    assert_eq!(tree.height(), 0);
    assert_eq!(tree.leaf_count(), 1);
    assert_eq!(tree.root(), leaf_hash.evaluate(&leaf));
    let path = tree.generate_proof(0).unwrap();
    assert_eq!(path.steps.len(), 0);
    assert!(path.verify(&leaf_hash, &pair_hash, &tree.root(), &leaf));
    assert!(!path.verify(&leaf_hash, &pair_hash, &tree.root(), &keccak_hex(8u8)));
}

#[test]
fn every_generated_path_verifies() {
    let params = setup();
    let leaf_hash = leaf_hasher(&params.0);
    let pair_hash = pair_hasher(&params.1);
    let heights = [0usize, 1, 2, 2, 3, 3, 3, 3, 4];
    for count in 1..=9u8 {
        let leaves = numbered_leaves(count);
        let tree = MerkleTree::new(&leaf_hash, &pair_hash, &leaves).unwrap();
        assert_eq!(tree.leaf_count(), count as usize);
        assert_eq!(tree.height(), heights[count as usize - 1]);
        let root = tree.root();
        for index in 0..leaves.len() {
            let path = tree.generate_proof(index).unwrap();
            assert_eq!(path.steps.len(), tree.height());
            assert!(path.verify(&leaf_hash, &pair_hash, &root, &leaves[index]));
            assert_eq!(tree.generate_proof(index).unwrap(), path);
        }
    }
}

#[test]
fn changed_leaf_is_rejected() {
    let params = setup();
    let leaf_hash = leaf_hasher(&params.0);
    let pair_hash = pair_hasher(&params.1);
    let leaves = leafdata();
    let tree = MerkleTree::new(&leaf_hash, &pair_hash, &leaves).unwrap();
    let root = tree.root();
    let path = tree.generate_proof(5).unwrap();
    for position in 0..leaves[5].len() {
        let mut changed = leaves[5].clone();
        changed[position] ^= 1;
        assert!(!path.verify(&leaf_hash, &pair_hash, &root, &changed));
    }
    assert!(path.verify(&leaf_hash, &pair_hash, &root, &leaves[5]));
}

#[test]
fn switched_side_is_rejected() {
    let params = setup();
    let leaf_hash = leaf_hasher(&params.0);
    let pair_hash = pair_hasher(&params.1);
    let leaves = leafdata();
    let tree = MerkleTree::new(&leaf_hash, &pair_hash, &leaves).unwrap();
    let root = tree.root();
    for index in 0..leaves.len() {
        let path = tree.generate_proof(index).unwrap();
        for level in 0..path.steps.len() {
            let mut switched = path.clone();
            switched.steps[level].side = switched.steps[level].side.flipped();
            assert!(!switched.verify(&leaf_hash, &pair_hash, &root, &leaves[index]));
        }
    }
}

#[test]
fn switching_between_equal_siblings_changes_nothing() {
    let params = setup();
    let leaf_hash = leaf_hasher(&params.0);
    let pair_hash = pair_hasher(&params.1);
    let leaves = vec![keccak_hex(1u8), keccak_hex(1u8)];
    let tree = MerkleTree::new(&leaf_hash, &pair_hash, &leaves).unwrap();
    let mut switched = tree.generate_proof(0).unwrap();
    switched.steps[0].side = switched.steps[0].side.flipped();
    assert!(switched.verify(&leaf_hash, &pair_hash, &tree.root(), &leaves[0]));
}

#[test]
fn path_fails_against_another_root() {
    let params = setup();
    let leaf_hash = leaf_hasher(&params.0);
    let pair_hash = pair_hasher(&params.1);
    let leaves = leafdata();
    let mut others = leafdata();
    others[6] = keccak_hex(71u8);
    let tree = MerkleTree::new(&leaf_hash, &pair_hash, &leaves).unwrap();
    let other = MerkleTree::new(&leaf_hash, &pair_hash, &others).unwrap();
    assert_ne!(tree.root(), other.root());
    let path = tree.generate_proof(2).unwrap();
    assert!(path.verify(&leaf_hash, &pair_hash, &tree.root(), &leaves[2]));
    assert!(!path.verify(&leaf_hash, &pair_hash, &other.root(), &leaves[2]));
}

#[test]
fn empty_input_is_refused() {
    let params = setup();
    let leaf_hash = leaf_hasher(&params.0);
    let pair_hash = pair_hasher(&params.1);
    let none: Vec<Vec<u8>> = vec![];
    let built = MerkleTree::new(&leaf_hash, &pair_hash, &none);
    assert_eq!(built.unwrap_err(), MerkleError::EmptyInput);
}

#[test]
fn index_out_of_range_is_refused() {
    let params = setup();
    let leaf_hash = leaf_hasher(&params.0);
    let pair_hash = pair_hasher(&params.1);
    let tree = MerkleTree::new(&leaf_hash, &pair_hash, &leafdata()).unwrap();
    assert!(tree.generate_proof(7).is_ok());
    assert_eq!(tree.generate_proof(8), Err(MerkleError::IndexOutOfRange));
    assert_eq!(tree.generate_proof(usize::MAX), Err(MerkleError::IndexOutOfRange));
    let padded = MerkleTree::new(&leaf_hash, &pair_hash, &numbered_leaves(5)).unwrap();
    assert!(padded.generate_proof(4).is_ok());
    assert_eq!(padded.generate_proof(5), Err(MerkleError::IndexOutOfRange));
    assert_eq!(padded.generate_proof(7), Err(MerkleError::IndexOutOfRange));
}

#[test]
fn padding_uses_the_empty_leaf() {
    let params = setup();
    let leaf_hash = leaf_hasher(&params.0);
    let pair_hash = pair_hasher(&params.1);
    let three = numbered_leaves(3);
    let mut four = numbered_leaves(3);
    four.push(vec![]);
    let padded = MerkleTree::new(&leaf_hash, &pair_hash, &three).unwrap();
    let full = MerkleTree::new(&leaf_hash, &pair_hash, &four).unwrap();
    assert_eq!(padded.height(), 2);
    assert_eq!(padded.leaf_count(), 3);
    assert_eq!(full.leaf_count(), 4);
    assert_eq!(padded.root(), full.root());
    assert_eq!(padded.generate_proof(2).unwrap(), full.generate_proof(2).unwrap());
    assert_eq!(
        padded.generate_proof(2).unwrap().steps[0],
        PathStep { sibling: leaf_hash.evaluate(&[]), side: Side::Left }
    );
    let mut other = numbered_leaves(3);
    other.push(vec![1u8]);
    let differs = MerkleTree::new(&leaf_hash, &pair_hash, &other).unwrap();
    assert_ne!(padded.root(), differs.root());
}

#[test]
fn path_of_the_fourth_leaf_is_exact() {
    let params = setup();
    let leaf_hash = leaf_hasher(&params.0);
    let pair_hash = pair_hasher(&params.1);
    let leaves = leafdata();
    let tree = MerkleTree::new(&leaf_hash, &pair_hash, &leaves).unwrap();
    let bottom: Vec<Digest> = leaves.iter().map(|leaf| leaf_hash.evaluate(leaf)).collect();
    let pairs: Vec<Digest> =
        (0..4).map(|i| pair_hash.evaluate(&bottom[2 * i], &bottom[2 * i + 1])).collect();
    let halves: Vec<Digest> =
        (0..2).map(|i| pair_hash.evaluate(&pairs[2 * i], &pairs[2 * i + 1])).collect();
    assert_eq!(tree.root(), pair_hash.evaluate(&halves[0], &halves[1]));
    assert_eq!(tree.height(), 3);
    let expected = Path {
        steps: vec![
            PathStep { sibling: bottom[2], side: Side::Right },
            PathStep { sibling: pairs[0], side: Side::Right },
            PathStep { sibling: halves[1], side: Side::Left },
        ],
    };
    assert_eq!(tree.generate_proof(3).unwrap(), expected);
    let first = Path {
        steps: vec![
            PathStep { sibling: bottom[1], side: Side::Left },
            PathStep { sibling: pairs[1], side: Side::Left },
            PathStep { sibling: halves[1], side: Side::Left },
        ],
    };
    assert_eq!(tree.generate_proof(0).unwrap(), first);
}

#[test]
fn root_and_path_agree_with_the_arkworks_tree() {
    let params = setup();
    let leaf_hash = leaf_hasher(&params.0);
    let pair_hash = pair_hasher(&params.1);
    for count in [2u8, 4, 8] {
        let leaves = numbered_leaves(count);
        let tree = MerkleTree::new(&leaf_hash, &pair_hash, &leaves).unwrap();
        let theirs =
            ArkMerkleTree::<JubjubMerkleConfig>::new(&params.0, &params.1, &leaves).unwrap();
        assert_eq!(tree.root(), to_digest(&theirs.root()));
        for index in 0..leaves.len() {
            let path = tree.generate_proof(index).unwrap();
            let their_path = theirs.generate_proof(index).unwrap();
            let mut siblings = vec![to_digest(&their_path.leaf_sibling_hash)];
            siblings.extend(their_path.auth_path.iter().rev().map(to_digest));
            let ours: Vec<Digest> = path.steps.iter().map(|step| step.sibling).collect();
            assert_eq!(ours, siblings);
            for (level, step) in path.steps.iter().enumerate() {
                let on_right = (index >> level) & 1 == 1;
                assert_eq!(step.side == Side::Right, on_right);
            }
        }
    }
}

#[test]
fn pair_hash_tells_the_order_of_its_inputs() {
    let params = setup();
    let leaf_hash = leaf_hasher(&params.0);
    let pair_hash = pair_hasher(&params.1);
    let a = leaf_hash.evaluate(&keccak_hex(1u8));
    let b = leaf_hash.evaluate(&keccak_hex(2u8));
    assert_ne!(a, b);
    assert_ne!(pair_hash.evaluate(&a, &b), pair_hash.evaluate(&b, &a));
    assert_ne!(pair_hash.evaluate(&a, &b), a);
    assert_eq!(pair_hash.evaluate(&a, &b), pair_hash.evaluate(&a, &b));
    assert_eq!(leaf_hash.evaluate(&keccak_hex(1u8)), a);
}

#[test]
fn digest_keeps_its_bytes() {
    let mut bytes = [0u8; 32];
    for (i, byte) in bytes.iter_mut().enumerate() {
        *byte = i as u8;
    }
    let digest = Digest::from_bytes(bytes);
    assert_eq!(digest.to_bytes(), bytes);
    assert_eq!(digest, Digest::from_bytes(bytes));
    bytes[31] = 0;
    assert_ne!(digest, Digest::from_bytes(bytes));
    bytes[31] = 31;
    bytes[0] = 1;
    assert_ne!(digest, Digest::from_bytes(bytes));
}

#[test]
fn sizes_follow_from_the_windows() {
    assert_eq!(LeafWindow::WINDOW_SIZE, 4);
    assert_eq!(LeafWindow::NUM_WINDOWS, 256);
    assert_eq!(TwoToOneWindow::WINDOW_SIZE, 2);
    assert_eq!(TwoToOneWindow::NUM_WINDOWS, 256);
    assert_eq!(MerkleConfig::LEAF_BYTES, 128);
    assert_eq!(MerkleConfig::DIGEST_BYTES, 32);
    assert_eq!(Side::Left.flipped(), Side::Right);
    assert_eq!(Side::Right.flipped(), Side::Left);
}

#[test]
fn longest_leaf_is_hashed() {
    let params = setup();
    let leaf_hash = leaf_hasher(&params.0);
    let pair_hash = pair_hasher(&params.1);
    let leaves = vec![vec![0xa5u8; 128], vec![0x5au8; 128]];
    let tree = MerkleTree::new(&leaf_hash, &pair_hash, &leaves).unwrap();
    let path = tree.generate_proof(1).unwrap();
    assert!(path.verify(&leaf_hash, &pair_hash, &tree.root(), &leaves[1]));
    assert!(circuit_is_satisfied(&params, tree.root(), leaves[1].clone(), path));
}

#[test]
fn missing_witness_is_refused() {
    let params = setup();
    let tree =
        MerkleTree::new(&leaf_hasher(&params.0), &pair_hasher(&params.1), &leafdata()).unwrap();
    let circuit = MTreeVerification {
        leaf_crh_params: leaf_hasher(&params.0),
        two_to_one_crh_params: pair_hasher(&params.1),
        root: tree.root(),
        leaf: keccak_hex(9u8),
        auth_path: None,
    };
    assert_eq!(circuit.generate_constraints().err(), Some(SynthesisError::MissingWitness));
}

#[test]
fn overlong_leaf_is_refused() {
    let params = setup();
    let tree =
        MerkleTree::new(&leaf_hasher(&params.0), &pair_hasher(&params.1), &leafdata()).unwrap();
    let circuit = MTreeVerification {
        leaf_crh_params: leaf_hasher(&params.0),
        two_to_one_crh_params: pair_hasher(&params.1),
        root: tree.root(),
        leaf: vec![0u8; 129],
        auth_path: Some(tree.generate_proof(0).unwrap()),
    };
    assert_eq!(circuit.generate_constraints().err(), Some(SynthesisError::LeafTooLong));
    let without_path = MTreeVerification {
        leaf_crh_params: leaf_hasher(&params.0),
        two_to_one_crh_params: pair_hasher(&params.1),
        root: tree.root(),
        leaf: vec![0u8; 129],
        auth_path: None,
    };
    assert_eq!(without_path.generate_constraints().err(), Some(SynthesisError::MissingWitness));
}

#[test]
fn circuit_layout_is_exact() {
    let params = setup();
    let leaf_hash = leaf_hasher(&params.0);
    let pair_hash = pair_hasher(&params.1);
    let leaves = vec![keccak_hex(1u8), keccak_hex(2u8)];
    let tree = MerkleTree::new(&leaf_hash, &pair_hash, &leaves).unwrap();
    let circuit = MTreeVerification {
        leaf_crh_params: leaf_hasher(&params.0),
        two_to_one_crh_params: pair_hasher(&params.1),
        root: tree.root(),
        leaf: leaves[1].clone(),
        auth_path: Some(tree.generate_proof(1).unwrap()),
    };
    let system = circuit.generate_constraints().ok().unwrap();
    let expected = vec![
        Gate::PublicDigest(tree.root()),
        Gate::PublicBytes(leaves[1].clone()),
        Gate::WitnessDigest(leaf_hash.evaluate(&leaves[0])),
        Gate::WitnessBit(true),
        Gate::HashLeaf { input: 1 },
        Gate::Select { bit: 3, when_set: 2, otherwise: 4 },
        Gate::Select { bit: 3, when_set: 4, otherwise: 2 },
        Gate::HashPair { left: 5, right: 6 },
        Gate::IsEqual { left: 7, right: 0 },
        Gate::EnforceTrue { bit: 8 },
    ];
    assert_eq!(system.gates, expected);

    let wide = MerkleTree::new(&leaf_hash, &pair_hash, &leafdata()).unwrap();
    let circuit = MTreeVerification {
        leaf_crh_params: leaf_hasher(&params.0),
        two_to_one_crh_params: pair_hasher(&params.1),
        root: wide.root(),
        leaf: keccak_hex(1u8),
        auth_path: Some(wide.generate_proof(0).unwrap()),
    };
    let system = circuit.generate_constraints().ok().unwrap();
    assert_eq!(system.gates.len(), 20);
    assert_eq!(system.gates[8], Gate::HashLeaf { input: 1 });
    assert_eq!(system.gates[9], Gate::Select { bit: 3, when_set: 2, otherwise: 8 });
    assert_eq!(system.gates[14], Gate::HashPair { left: 12, right: 13 });
    assert_eq!(system.gates[15], Gate::Select { bit: 7, when_set: 6, otherwise: 14 });
    assert_eq!(system.gates[18], Gate::IsEqual { left: 17, right: 0 });
    assert_eq!(system.gates[19], Gate::EnforceTrue { bit: 18 });
}

#[test]
fn circuit_agrees_with_native_verification() {
    let params = setup();
    let leaf_hash = leaf_hasher(&params.0);
    let pair_hash = pair_hasher(&params.1);
    let leaves = leafdata();
    let tree = MerkleTree::new(&leaf_hash, &pair_hash, &leaves).unwrap();
    let root = tree.root();
    let path = tree.generate_proof(6).unwrap();

    assert!(path.verify(&leaf_hash, &pair_hash, &root, &leaves[6]));
    assert!(circuit_is_satisfied(&params, root, leaves[6].clone(), path.clone()));

    assert!(!path.verify(&leaf_hash, &pair_hash, &root, &leaves[5]));
    assert!(!circuit_is_satisfied(&params, root, leaves[5].clone(), path.clone()));

    let mut switched = path.clone();
    switched.steps[1].side = switched.steps[1].side.flipped();
    assert!(!switched.verify(&leaf_hash, &pair_hash, &root, &leaves[6]));
    assert!(!circuit_is_satisfied(&params, root, leaves[6].clone(), switched));

    let elsewhere = path.steps[2].sibling;
    assert!(!path.verify(&leaf_hash, &pair_hash, &elsewhere, &leaves[6]));
    assert!(!circuit_is_satisfied(&params, elsewhere, leaves[6].clone(), path));
}

#[test]
fn circuit_of_a_single_leaf_is_satisfied() {
    let params = setup();
    let leaf_hash = leaf_hasher(&params.0);
    let pair_hash = pair_hasher(&params.1);
    let leaf = keccak_hex(3u8);
    let tree = MerkleTree::new(&leaf_hash, &pair_hash, &[leaf.clone()]).unwrap();
    let path = tree.generate_proof(0).unwrap();
    assert!(circuit_is_satisfied(&params, tree.root(), leaf, path.clone()));
    assert!(!circuit_is_satisfied(&params, tree.root(), keccak_hex(4u8), path));
}

#[test]
fn evaluation_refuses_ill_formed_circuits() {
    let params = setup();
    let leaf_hash = leaf_hasher(&params.0);
    let digest = leaf_hash.evaluate(&[1u8]);
    let system = |gates: Vec<Gate>| Circuit {
        leaf_crh_params: leaf_hasher(&params.0),
        two_to_one_crh_params: pair_hasher(&params.1),
        gates,
    };
    assert!(system(vec![]).is_satisfied());
    assert!(system(vec![Gate::WitnessBit(true), Gate::EnforceTrue { bit: 0 }]).is_satisfied());
    assert!(!system(vec![Gate::WitnessBit(false), Gate::EnforceTrue { bit: 0 }]).is_satisfied());
    assert!(!system(vec![Gate::EnforceTrue { bit: 0 }]).is_satisfied());
    assert!(!system(vec![Gate::PublicDigest(digest), Gate::EnforceTrue { bit: 0 }]).is_satisfied());
    assert!(!system(vec![Gate::PublicDigest(digest), Gate::HashLeaf { input: 0 }]).is_satisfied());
    assert!(!system(vec![Gate::PublicBytes(vec![0u8; 129]), Gate::HashLeaf { input: 0 }])
        .is_satisfied());
    assert!(system(vec![Gate::PublicBytes(vec![0u8; 128]), Gate::HashLeaf { input: 0 }])
        .is_satisfied());
    assert!(!system(vec![Gate::PublicDigest(digest), Gate::HashPair { left: 0, right: 1 }])
        .is_satisfied());
    assert!(system(vec![
        Gate::PublicBytes(vec![1u8]),
        Gate::HashLeaf { input: 0 },
        Gate::WitnessDigest(digest),
        Gate::IsEqual { left: 1, right: 2 },
        Gate::EnforceTrue { bit: 3 },
    ])
    .is_satisfied());
    assert!(!system(vec![
        Gate::PublicBytes(vec![2u8]),
        Gate::HashLeaf { input: 0 },
        Gate::WitnessDigest(digest),
        Gate::IsEqual { left: 1, right: 2 },
        Gate::EnforceTrue { bit: 3 },
    ])
    .is_satisfied());
    let mut built = system(vec![]);
    assert_eq!(built.emit(Gate::WitnessBit(true)), 0);
    assert_eq!(built.emit(Gate::EnforceTrue { bit: 0 }), 1);
    assert_eq!(built.gates, vec![Gate::WitnessBit(true), Gate::EnforceTrue { bit: 0 }]);
    let fresh = Circuit::new(leaf_hasher(&params.0), pair_hasher(&params.1));
    assert!(fresh.gates.is_empty());
}

#[test]
fn building_twice_gives_the_same_tree() {
    let params = setup();
    let leaf_hash = leaf_hasher(&params.0);
    let pair_hash = pair_hasher(&params.1);
    let leaves = numbered_leaves(6);
    let one = MerkleTree::new(&leaf_hash, &pair_hash, &leaves).unwrap();
    let other = MerkleTree::new(&leaf_hasher(&params.0), &pair_hasher(&params.1), &leaves).unwrap();
    assert_eq!(one.root(), other.root());
    assert_eq!(one.height(), other.height());
    for index in 0..leaves.len() {
        assert_eq!(one.generate_proof(index).unwrap(), other.generate_proof(index).unwrap());
    }
}

#[test]
fn hashers_keep_their_parameters() {
    let params = setup();
    let leaf_hash = leaf_hasher(&params.0);
    let pair_hash = pair_hasher(&params.1);
    assert_eq!(leaf_hash.params().generators, params.0.generators);
    assert_eq!(pair_hash.params().generators, params.1.generators);
    assert_eq!(leaf_hash.params().generators.len(), LeafWindow::NUM_WINDOWS);
    assert_eq!(leaf_hash.params().generators[0].len(), LeafWindow::WINDOW_SIZE);
    assert_eq!(pair_hash.params().generators[0].len(), TwoToOneWindow::WINDOW_SIZE);
    assert_ne!(params.0.generators[0], params.1.generators[0]);
}
