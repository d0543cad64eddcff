//! What a synthesis leaves behind: its errors and the equality constraints it
//! lays down between witness values.

use crate::field::{all_wf, values_of, Fr};
use vstd::prelude::*;

verus! {

/// Why a chunk could not be synthesised, proved or checked.
#[derive(Clone, Copy, Debug, PartialEq, Eq, Structural)]
pub enum Error {
    /// The circuit cannot be laid out: a malformed chunk range, an empty leaf
    /// list.
    Synthesis,
    /// An operation produced fewer tensors than it declares output slots.
    MissingOutput,
    /// The proof system could not derive keys for the circuit.
    KeyGeneration,
    /// The proof system could not produce a proof.
    ProofGeneration,
    /// A proof that was just produced did not verify.
    Verification,
    /// The proof system reported a step that was not owed.
    UnexpectedEvent,
}

/// An executable result and the result that is named agree: the
/// same error, or a canonically encoded element with the named value.
pub open spec fn element_matches(r: Result<Fr, Error>, s: Result<nat, Error>) -> bool {
    match (r, s) {
        (Ok(x), Ok(v)) => x.wf() && x@ == v,
        (Err(e), Err(f)) => e == f,
        _ => false,
    }
}

/// As `element_matches`, for a list of elements.
pub open spec fn elements_match(r: Result<Vec<Fr>, Error>, s: Result<Seq<nat>, Error>) -> bool {
    match (r, s) {
        (Ok(x), Ok(v)) => all_wf(x@) && values_of(x@) == v,
        (Err(e), Err(f)) => e == f,
        _ => false,
    }
}

/// An equality that a circuit demands between two witness values.
#[derive(Clone, Copy, Debug)]
pub struct EqualityConstraint {
    pub left: Fr,
    pub right: Fr,
}

/// The record of a synthesis: the equality constraints laid down so far, in
/// order. A witness satisfies the circuit only if every one of them holds.
pub struct Layouter {
    equalities: Vec<EqualityConstraint>,
}

impl Layouter {
    /// The constraints laid down so far, as pairs of values.
    pub closed spec fn constraints(&self) -> Seq<(nat, nat)> {
        self.equalities@.map_values(|c: EqualityConstraint| (c.left@, c.right@))
    }

    /// Every constraint holds of the values it was laid down on.
    pub open spec fn satisfied(&self) -> bool {
        forall|i: int|
            0 <= i < self.constraints().len() ==> (#[trigger] self.constraints()[i]).0
                == self.constraints()[i].1
    }

    /// A synthesis that has constrained nothing yet.
    pub fn new() -> (r: Layouter)
        ensures
            r.constraints() == Seq::<(nat, nat)>::empty(),
            r.satisfied(),
    {
        let r = Layouter { equalities: Vec::new() };
        assert(r.constraints() =~= Seq::<(nat, nat)>::empty());
        r
    }

    /// Demands that two values be equal. The demand is recorded whether or not
    /// it holds: a mismatch makes the circuit unsatisfiable, it is no error here.
    pub fn constrain_equal(&mut self, left: Fr, right: Fr)
        ensures
            final(self).constraints() == old(self).constraints().push((left@, right@)),
            final(self).satisfied() <==> old(self).satisfied() && left@ == right@,
    {
        self.equalities.push(EqualityConstraint { left, right });
        proof {
            let before = old(self).constraints();
            let after = self.constraints();
            assert(after =~= before.push((left@, right@)));
            if old(self).satisfied() && left@ == right@ {
                assert forall|i: int| 0 <= i < after.len() implies (#[trigger] after[i]).0
                    == after[i].1 by {
                    if i < before.len() {
                        assert(after[i] == before[i]);
                    }
                }
            }
            if self.satisfied() {
                assert(after[before.len() as int] == (left@, right@));
                assert forall|i: int| 0 <= i < before.len() implies (#[trigger] before[i]).0
                    == before[i].1 by {
                    assert(after[i] == before[i]);
                }
            }
        }
    }

    /// The number of constraints laid down.
    pub fn num_constraints(&self) -> (r: usize)
        ensures
            r == self.constraints().len(),
    {
        self.equalities.len()
    }

    /// Whether the witness values meet every constraint laid down.
    pub fn is_satisfied(&self) -> (r: bool)
        ensures
            r == self.satisfied(),
    {
        let mut i: usize = 0;
        while i < self.equalities.len()
            invariant
                i <= self.equalities.len(),
                forall|j: int|
                    0 <= j < i ==> (#[trigger] self.constraints()[j]).0 == self.constraints()[j].1,
            decreases self.equalities.len() - i,
        {
            let c = self.equalities[i];
            assert(self.constraints()[i as int] == (c.left@, c.right@));
            if !(c.left == c.right) {
                return false;
            }
            i += 1;
        }
        true
    }
}

} // verus!
