//! The hash boundary: digests, and the two hashes the tree is built from.
//!
//! The tree never looks inside a hash. It asks only that a hash computes a
//! function of its input, which `digest_of` names.

use crate::common::MerkleConfig;
use vstd::prelude::*;
use vstd::std_specs::cmp::PartialEqSpecImpl;

verus! {

/// The fixed-size output of a hash.
#[derive(Clone, Copy, Debug, Hash)]
pub struct Digest {
    bytes: [u8; 32],
}

impl View for Digest {
    type V = Seq<u8>;

    closed spec fn view(&self) -> Seq<u8> {
        self.bytes@
    }
}

impl Digest {
    /// Wraps the bytes a hash has produced.
    pub fn from_bytes(bytes: [u8; 32]) -> (d: Digest)
        ensures
            d@ == bytes@,
            d@.len() == MerkleConfig::DIGEST_BYTES,
    {
        Digest { bytes }
    }

    /// The digest's bytes.
    pub fn to_bytes(&self) -> (bytes: [u8; 32])
        ensures
            bytes@ == self@,
    {
        self.bytes
    }
}

impl PartialEq for Digest {
    fn eq(&self, other: &Digest) -> (same: bool) {
        let mut i: usize = 0;
        while i < 32
            invariant
                i <= 32,
                self@.take(i as int) == other@.take(i as int),
            decreases 32 - i,
        {
            if self.bytes[i] != other.bytes[i] {
                return false;
            }
            assert(self@.take(i + 1) =~= self@.take(i as int).push(self@[i as int]));
            assert(other@.take(i + 1) =~= other@.take(i as int).push(other@[i as int]));
            i = i + 1;
        }
        assert(self@ =~= self@.take(32));
        assert(other@ =~= other@.take(32));
        true
    }
}

impl Eq for Digest {

}

impl PartialEqSpecImpl for Digest {
    open spec fn obeys_eq_spec() -> bool {
        true
    }

    open spec fn eq_spec(&self, other: &Digest) -> bool {
        self@ == other@
    }
}

/// A hash from leaf bytes to a digest.
pub trait LeafHash {
    /// The digest of `leaf`.
    spec fn digest_of(&self, leaf: Seq<u8>) -> Seq<u8>;

    /// Hashes a leaf of at most `LEAF_BYTES` bytes.
    fn evaluate(&self, leaf: &[u8]) -> (d: Digest)
        requires
            leaf@.len() <= MerkleConfig::LEAF_BYTES,
        ensures
            d@ == self.digest_of(leaf@),
    ;
}

/// A hash from an ordered pair of digests to a digest.
pub trait TwoToOneHash {
    /// The digest of the pair `(left, right)`.
    spec fn digest_of(&self, left: Seq<u8>, right: Seq<u8>) -> Seq<u8>;

    /// Hashes two digests, in this order.
    fn evaluate(&self, left: &Digest, right: &Digest) -> (d: Digest)
        ensures
            d@ == self.digest_of(left@, right@),
    ;
}

/// `f` is a leaf hash under `params`: it accepts every leaf of at most
/// `LEAF_BYTES` bytes, and equal leaves get equal digests from it.
pub open spec fn computes_leaf_digests<P, F: Fn(&P, &[u8]) -> Digest>(params: &P, f: F) -> bool {
    &&& forall|leaf: &[u8]|
        leaf@.len() <= MerkleConfig::LEAF_BYTES ==> #[trigger] f.requires((params, leaf))
    &&& forall|x: &[u8], y: &[u8], a: Digest, b: Digest|
        x@ == y@ && #[trigger] f.ensures((params, x), a) && #[trigger] f.ensures((params, y), b)
            ==> a@ == b@
}

/// Whatever `f` returns for `leaf` under `params`, it is `d`.
pub open spec fn leaf_digest_is<P, F: Fn(&P, &[u8]) -> Digest>(
    params: &P,
    f: F,
    leaf: Seq<u8>,
    d: Seq<u8>,
) -> bool {
    forall|x: &[u8], a: Digest| x@ == leaf && #[trigger] f.ensures((params, x), a) ==> a@ == d
}

/// A leaf hash made of its parameters and the function that evaluates it.
pub struct LeafHasher<P, F: Fn(&P, &[u8]) -> Digest> {
    params: P,
    f: F,
}

impl<P, F: Fn(&P, &[u8]) -> Digest> LeafHasher<P, F> {
    #[verifier::type_invariant]
    spec fn well_formed(self) -> bool {
        computes_leaf_digests(&self.params, self.f)
    }

    /// The parameters, as a value.
    pub closed spec fn parameters(&self) -> P {
        self.params
    }

    /// Makes the leaf hash that evaluates `f` under `params`. It is for the
    /// caller to see that `f` computes a function of the parameters and the
    /// leaf alone.
    pub fn new(params: P, f: F) -> (h: Self)
        requires
            computes_leaf_digests(&params, f),
        ensures
            h.parameters() == params,
            forall|leaf: Seq<u8>| leaf_digest_is(&params, f, leaf, #[trigger] h.digest_of(leaf)),
    {
        let h = LeafHasher { params, f };
        proof {
            assert forall|leaf: Seq<u8>|
                leaf_digest_is(&h.params, f, leaf, #[trigger] h.digest_of(leaf)) by {
                h.lemma_digest_of(leaf);
            }
        }
        h
    }

    /// The parameters.
    pub fn params(&self) -> (params: &P)
        ensures
            *params == self.parameters(),
    {
        &self.params
    }

    proof fn lemma_digest_of(self, leaf: Seq<u8>)
        requires
            computes_leaf_digests(&self.params, self.f),
        ensures
            leaf_digest_is(&self.params, self.f, leaf, self.digest_of(leaf)),
    {
        if exists|x: &[u8], a: Digest| x@ == leaf && self.f.ensures((&self.params, x), a) {
            let (x, a) = choose|x: &[u8], a: Digest|
                x@ == leaf && self.f.ensures((&self.params, x), a);
            assert(leaf_digest_is(&self.params, self.f, leaf, a@));
        } else {
            assert(leaf_digest_is(&self.params, self.f, leaf, Seq::<u8>::empty()));
        }
    }
}

impl<P, F: Fn(&P, &[u8]) -> Digest> LeafHash for LeafHasher<P, F> {
    closed spec fn digest_of(&self, leaf: Seq<u8>) -> Seq<u8> {
        choose|d: Seq<u8>| leaf_digest_is(&self.params, self.f, leaf, d)
    }

    fn evaluate(&self, leaf: &[u8]) -> (d: Digest) {
        proof {
            use_type_invariant(self);
        }
        let d = (self.f)(&self.params, leaf);
        proof {
            assert(leaf_digest_is(&self.params, self.f, leaf@, d@));
        }
        d
    }
}

/// `f` is a two-to-one hash under `params`: it accepts every pair of
/// digests, and equal pairs get equal digests from it.
pub open spec fn computes_pair_digests<P, F: Fn(&P, &Digest, &Digest) -> Digest>(
    params: &P,
    f: F,
) -> bool {
    &&& forall|left: &Digest, right: &Digest| #[trigger] f.requires((params, left, right))
    &&& forall|x: &Digest, y: &Digest, u: &Digest, v: &Digest, a: Digest, b: Digest|
        x@ == u@ && y@ == v@ && #[trigger] f.ensures((params, x, y), a) && #[trigger] f.ensures(
            (params, u, v),
            b,
        ) ==> a@ == b@
}

/// Whatever `f` returns for the pair `(left, right)` under `params`, it is
/// `d`.
pub open spec fn pair_digest_is<P, F: Fn(&P, &Digest, &Digest) -> Digest>(
    params: &P,
    f: F,
    left: Seq<u8>,
    right: Seq<u8>,
    d: Seq<u8>,
) -> bool {
    forall|x: &Digest, y: &Digest, a: Digest|
        x@ == left && y@ == right && #[trigger] f.ensures((params, x, y), a) ==> a@ == d
}

/// A two-to-one hash made of its parameters and the function that evaluates
/// it.
pub struct TwoToOneHasher<P, F: Fn(&P, &Digest, &Digest) -> Digest> {
    params: P,
    f: F,
}

impl<P, F: Fn(&P, &Digest, &Digest) -> Digest> TwoToOneHasher<P, F> {
    #[verifier::type_invariant]
    spec fn well_formed(self) -> bool {
        computes_pair_digests(&self.params, self.f)
    }

    /// The parameters, as a value.
    pub closed spec fn parameters(&self) -> P {
        self.params
    }

    /// Makes the two-to-one hash that evaluates `f` under `params`. It is
    /// for the caller to see that `f` computes a function of the parameters
    /// and the two digests alone.
    pub fn new(params: P, f: F) -> (h: Self)
        requires
            computes_pair_digests(&params, f),
        ensures
            h.parameters() == params,
            forall|left: Seq<u8>, right: Seq<u8>|
                pair_digest_is(&params, f, left, right, #[trigger] h.digest_of(left, right)),
    {
        let h = TwoToOneHasher { params, f };
        proof {
            assert forall|left: Seq<u8>, right: Seq<u8>|
                pair_digest_is(&h.params, f, left, right, #[trigger] h.digest_of(left, right)) by {
                h.lemma_digest_of(left, right);
            }
        }
        h
    }

    /// The parameters.
    pub fn params(&self) -> (params: &P)
        ensures
            *params == self.parameters(),
    {
        &self.params
    }

    proof fn lemma_digest_of(self, left: Seq<u8>, right: Seq<u8>)
        requires
            computes_pair_digests(&self.params, self.f),
        ensures
            pair_digest_is(&self.params, self.f, left, right, self.digest_of(left, right)),
    {
        if exists|x: &Digest, y: &Digest, a: Digest|
            x@ == left && y@ == right && self.f.ensures((&self.params, x, y), a) {
            let (x, y, a) = choose|x: &Digest, y: &Digest, a: Digest|
                x@ == left && y@ == right && self.f.ensures((&self.params, x, y), a);
            assert(pair_digest_is(&self.params, self.f, left, right, a@));
        } else {
            assert(pair_digest_is(&self.params, self.f, left, right, Seq::<u8>::empty()));
        }
    }
}

impl<P, F: Fn(&P, &Digest, &Digest) -> Digest> TwoToOneHash for TwoToOneHasher<P, F> {
    closed spec fn digest_of(&self, left: Seq<u8>, right: Seq<u8>) -> Seq<u8> {
        choose|d: Seq<u8>| pair_digest_is(&self.params, self.f, left, right, d)
    }

    fn evaluate(&self, left: &Digest, right: &Digest) -> (d: Digest) {
        proof {
            use_type_invariant(self);
        }
        let d = (self.f)(&self.params, left, right);
        proof {
            assert(pair_digest_is(&self.params, self.f, left@, right@, d@));
        }
        d
    }
}

} // verus!
