//! A model cut into chunks, and the commitment that links one chunk to the
//! next.

use crate::field::Fr;
use vstd::prelude::*;

verus! {

/// A part of a model that is proved on its own.
pub struct ModelChunk<C> {
    /// The circuit of the chunk.
    pub circuit: C,
    /// The layers that the chunk covers.
    pub layer_indices: Vec<usize>,
    /// The tensor slots that the chunk reads.
    pub input_indices: Vec<i64>,
    /// The tensor slots that the chunk fills for those after it.
    pub output_indices: Vec<i64>,
    /// The commitment to the chunk's outputs, once it was computed.
    pub merkle_root: Option<Fr>,
}

impl<C> ModelChunk<C> {
    /// A chunk that has no commitment yet.
    pub fn new(
        circuit: C,
        layer_indices: Vec<usize>,
        input_indices: Vec<i64>,
        output_indices: Vec<i64>,
    ) -> (r: Self)
        ensures
            r.circuit == circuit,
            r.layer_indices == layer_indices,
            r.input_indices == input_indices,
            r.output_indices == output_indices,
            r.merkle_root is None,
    {
        ModelChunk { circuit, layer_indices, input_indices, output_indices, merkle_root: None }
    }
}

/// The commitment that crosses from one chunk to the next: the root as bytes,
/// and the path that would prove a leaf against it. No path is ever filled in.
#[derive(Clone, Debug)]
pub struct MerkleProof {
    /// The root, in its canonical encoding.
    pub root: Vec<u8>,
    /// The path; always empty.
    pub path: Vec<Vec<u8>>,
}

impl MerkleProof {
    /// The proof that carries `root`: its 32-byte encoding and an empty path.
    pub fn new(root: Fr) -> (r: Self)
        ensures
            r.root@ == root.bytes(),
            r.path@.len() == 0,
    {
        let repr = root.to_repr();
        let mut bytes: Vec<u8> = Vec::new();
        let mut j: usize = 0;
        proof {
            root.lemma_bytes();
        }
        while j < 32
            invariant
                j <= 32,
                repr@.len() == 32,
                bytes@ == repr@.take(j as int),
            decreases 32 - j,
        {
            bytes.push(repr[j]);
            assert(bytes@ =~= repr@.take(j + 1));
            j += 1;
        }
        assert(repr@.take(32) =~= repr@);
        MerkleProof { root: bytes, path: Vec::new() }
    }
}

} // verus!
