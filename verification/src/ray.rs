//! What workers share when many inputs are proved side by side, and what each
//! of them hands back.

use crate::circuit::Error;
use crate::field::Fr;
use crate::proving::{degree, degree_of};
use vstd::prelude::*;
use vstd::string::StringSliceAdditionalSpecFns;

verus! {

/// What all workers share: the circuit, the parameters, and the proving key
/// once there is one. The library looks into none of the three.
pub struct SharedResources<C, P, K> {
    /// The model's circuit, without a witness.
    pub circuit: C,
    /// The parameters of the commitment scheme.
    pub params: P,
    /// The proving key, once generated.
    pub proving_key: Option<K>,
    /// The degree of the circuit.
    pub degree: u32,
}

impl<C, P, K> SharedResources<C, P, K> {
    /// The resources of a circuit with `2^k` rows, before any key was made.
    pub fn from_model_config(circuit: C, k: usize, params: P) -> (r: Self)
        ensures
            r.circuit == circuit,
            r.params == params,
            r.proving_key is None,
            r.degree == degree_of(k as nat),
    {
        SharedResources { circuit, params, proving_key: None, degree: degree(k) }
    }

    /// Takes the outcome of key generation: a key is kept for the workers, a
    /// failure is handed on and leaves the resources as they were.
    pub fn generate_proving_key(&mut self, keys: Result<K, Error>) -> (r: Result<(), Error>)
        ensures
            final(self).circuit == old(self).circuit,
            final(self).params == old(self).params,
            final(self).degree == old(self).degree,
            match keys {
                Ok(key) => r == Ok::<(), Error>(()) && final(self).proving_key == Some(key),
                Err(e) => r == Err::<(), Error>(e) && final(self).proving_key == old(
                    self,
                ).proving_key,
            },
    {
        match keys {
            Ok(key) => {
                self.proving_key = Some(key);
                Ok(())
            },
            Err(e) => Err(e),
        }
    }
}

/// One input of a batch.
#[derive(Clone, Debug)]
pub struct InferenceInput {
    /// Where the input is stored.
    pub input_path: String,
    /// The place of the input in the batch.
    pub index: usize,
}

/// What a worker hands back for one input.
#[derive(Clone, Debug)]
pub struct ProofResult {
    /// The proof.
    pub proof: Vec<u8>,
    /// The public values, each in its 32-byte encoding.
    pub public_vals: Vec<Vec<u8>>,
    /// The place of the input in the batch.
    pub index: usize,
    /// How long proving took, in milliseconds.
    pub time_ms: u64,
}

/// The proof systems that a batch can be proved with.
#[derive(Clone, Copy, Debug, PartialEq, Eq, Structural)]
pub enum Backend {
    /// Polynomial commitments by pairings.
    Kzg,
    /// Polynomial commitments by inner products.
    Ipa,
}

/// The text `kzg`.
pub open spec fn kzg_name() -> Seq<u8> {
    seq![0x6bu8, 0x7au8, 0x67u8]
}

/// The proof system that a name selects: `kzg` is the one by pairings, every
/// other name the one by inner products.
pub fn select_backend(backend: &str) -> (r: Backend)
    ensures
        r == if backend.spec_bytes() == kzg_name() {
            Backend::Kzg
        } else {
            Backend::Ipa
        },
{
    let name = backend.as_bytes();
    if name.len() == 3 && name[0] == 0x6b && name[1] == 0x7a && name[2] == 0x67 {
        assert(name@ =~= kzg_name());
        Backend::Kzg
    } else {
        Backend::Ipa
    }
}

/// Makes the shared resources ready for a proof system: with pairings the
/// workers need a proving key, so the outcome of key generation is taken; with
/// inner products nothing more is needed, and `keys` is not looked at.
pub fn initialize_shared_resources<C, P, K>(
    shared: SharedResources<C, P, K>,
    backend: &str,
    keys: Result<K, Error>,
) -> (r: Result<SharedResources<C, P, K>, Error>)
    ensures
        backend.spec_bytes() != kzg_name() ==> r == Ok::<SharedResources<C, P, K>, Error>(shared),
        backend.spec_bytes() == kzg_name() ==> match keys {
            Ok(key) => r == Ok::<SharedResources<C, P, K>, Error>(
                SharedResources { proving_key: Some(key), ..shared },
            ),
            Err(e) => r == Err::<SharedResources<C, P, K>, Error>(e),
        },
{
    let mut shared = shared;
    match select_backend(backend) {
        Backend::Kzg => match shared.generate_proving_key(keys) {
            Ok(()) => Ok(shared),
            Err(e) => Err(e),
        },
        Backend::Ipa => Ok(shared),
    }
}

/// The result of proving one input without workers: it records the time the
/// proof system took, and carries neither proof nor public values.
pub fn generate_proof_local(time_ms: u64) -> (r: ProofResult)
    ensures
        r.proof@.len() == 0,
        r.public_vals@.len() == 0,
        r.index == 0,
        r.time_ms == time_ms,
{
    ProofResult { proof: Vec::new(), public_vals: Vec::new(), index: 0, time_ms }
}

/// The encodings of the first `n` elements, each on its own.
pub open spec fn encodings(vals: Seq<Fr>, n: nat) -> Seq<Seq<u8>>
    decreases n,
{
    if n == 0 {
        Seq::empty()
    } else {
        encodings(vals, (n - 1) as nat).push(vals[n - 1].bytes())
    }
}

/// What a list of byte strings holds.
pub open spec fn byte_strings(v: Seq<Vec<u8>>) -> Seq<Seq<u8>> {
    v.map_values(|b: Vec<u8>| b@)
}

/// The result that a worker hands back for one input: the proof, the public
/// values each in its 32-byte encoding, the input's place in the batch and the
/// time taken. Without a proving key among the shared resources there is nothing
/// to prove with, which is an error.
pub fn generate_proof_worker<C, P, K>(
    shared: &SharedResources<C, P, K>,
    input: &InferenceInput,
    public_vals: &Vec<Fr>,
    proof: Vec<u8>,
    time_ms: u64,
) -> (r: Result<ProofResult, Error>)
    ensures
        shared.proving_key is None ==> r is Err && r.unwrap_err() == Error::KeyGeneration,
        shared.proving_key is Some ==> {
            &&& r is Ok
            &&& r.unwrap().proof == proof
            &&& byte_strings(r.unwrap().public_vals@) == encodings(
                public_vals@,
                public_vals.len() as nat,
            )
            &&& r.unwrap().index == input.index
            &&& r.unwrap().time_ms == time_ms
        },
{
    if shared.proving_key.is_none() {
        return Err(Error::KeyGeneration);
    }
    let mut public_vals_bytes: Vec<Vec<u8>> = Vec::new();
    let mut i: usize = 0;
    assert(byte_strings(public_vals_bytes@) =~= Seq::<Seq<u8>>::empty());
    while i < public_vals.len()
        invariant
            i <= public_vals.len(),
            byte_strings(public_vals_bytes@) == encodings(public_vals@, i as nat),
        decreases public_vals.len() - i,
    {
        let repr = public_vals[i].to_repr();
        let mut bytes: Vec<u8> = Vec::new();
        let mut j: usize = 0;
        proof {
            public_vals@[i as int].lemma_bytes();
        }
        while j < 32
            invariant
                j <= 32,
                repr@.len() == 32,
                bytes@ == repr@.take(j as int),
            decreases 32 - j,
        {
            bytes.push(repr[j]);
            assert(bytes@ =~= repr@.take(j + 1));
            j += 1;
        }
        assert(repr@.take(32) =~= repr@);
        let ghost before = byte_strings(public_vals_bytes@);
        public_vals_bytes.push(bytes);
        assert(byte_strings(public_vals_bytes@) =~= before.push(repr@));
        i += 1;
    }
    Ok(ProofResult { proof, public_vals: public_vals_bytes, index: input.index, time_ms })
}

} // verus!
