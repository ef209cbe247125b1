use vstd::prelude::*;

verus! {

/// A pluggable hash function: a deterministic map from a key to a position
/// hint. A table always reduces the hint modulo its own size before use, so
/// the hint may lie in any range; it need not be injective or uniform.
pub trait HashFunction {
    /// Well-formedness of this instance's configuration (for example, a
    /// positive modulus). Implementations with no configuration to get
    /// wrong may define this as `true`.
    spec fn wf(&self) -> bool;

    /// The mathematical function this instance computes. Being a spec
    /// function of the instance and the key alone, it makes determinism
    /// part of the contract: the same key always maps to the same hint.
    spec fn spec_hash(&self, x: usize) -> usize;

    /// Computes the position hint for key `x`. Never fails.
    fn hash(&self, x: usize) -> (r: usize)
        requires
            self.wf(),
        ensures
            r == self.spec_hash(x),
    ;
}

/// The baseline implementation: modulo hashing with a fixed positive
/// modulus, `hash(x) == x % modulus`.
pub struct HashMod {
    pub modulus: usize,
}

impl HashMod {
    /// Builds a modulo hash with modulus `lmod`, which must be positive.
    pub fn new(lmod: usize) -> (r: Self)
        requires
            lmod > 0,
        ensures
            r.modulus == lmod,
            r.wf(),
    {
        Self { modulus: lmod }
    }
}

impl HashFunction for HashMod {
    open spec fn wf(&self) -> bool {
        self.modulus > 0
    }

    open spec fn spec_hash(&self, x: usize) -> usize {
        x % self.modulus
    }

    fn hash(&self, x: usize) -> (r: usize) {
        x % self.modulus
    }
}

} // verus!
