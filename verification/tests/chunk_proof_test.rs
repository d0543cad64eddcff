use zkml::circuit::Error;
use zkml::field::Fr;
use zkml::proving::{
    configure_chunk, degree, fr_to_hex, hex_to_fr, params_path, prove_chunk_kzg, public_values,
    public_values_from_bytes, public_values_to_bytes, verify_kzg, ChunkConfig, ChunkProofResult,
    ChunkProver, ModelCircuit, ProverAction, ProverEvent, ProverPhase,
};

fn circuit() -> ModelCircuit {
    ModelCircuit {
        k: 17,
        commit_before: vec![],
        commit_after: vec![],
        chunk: None,
        prev_merkle_root: None,
    }
}

fn layers() -> Vec<Vec<i64>> {
    vec![vec![2], vec![3, 4], vec![], vec![6]]
}

/// A proof system that always succeeds: it makes the model's outputs public and
/// takes a while over everything.
fn prove_chunk(
    chunk_start: usize,
    chunk_end: usize,
    use_merkle: bool,
    prev_merkle_root: Option<Fr>,
) -> ChunkProofResult {
    let mut circuit = circuit();
    let (mut prover, mut action) = prove_chunk_kzg(
        &mut circuit,
        &layers(),
        chunk_start,
        chunk_end,
        use_merkle,
        prev_merkle_root,
    );
    loop {
        let event = match action {
            ProverAction::GenerateKeys(degree) => {
                assert_eq!(degree, 17);
                ProverEvent::KeysGenerated
            }
            ProverAction::CaptureWitness => {
                let outputs = vec![Fr::from_u64(10), Fr::from_u64(20)];
                let root = if use_merkle { Some(Fr::from_u64(99)) } else { None };
                ProverEvent::WitnessCaptured(public_values(
                    circuit.prev_merkle_root,
                    &outputs,
                    root,
                ))
            }
            ProverAction::CreateProof => {
                assert!(!prover.public_vals().is_empty());
                ProverEvent::ProofCreated(vec![1, 2, 3, 4], 12)
            }
            ProverAction::VerifyProof => {
                assert_eq!(prover.proof_bytes(), &vec![1, 2, 3, 4]);
                ProverEvent::ProofVerified(5)
            }
            ProverAction::Finish(result) => return result,
            ProverAction::Abort(e) => panic!("chunk could not be proved: {:?}", e),
        };
        let (next, owed) = prover.advance(event);
        prover = next;
        action = owed;
    }
}

#[test]
fn test_chunk_proof_generation() {
    let result = prove_chunk(
        0,     // chunk_start
        2,     // chunk_end
        false, // use_merkle = false (simpler case)
        None,  // prev_merkle_root = None (first chunk)
    );

    assert!(!result.proof.is_empty(), "Proof should not be empty");
    assert!(!result.public_vals.is_empty(), "Public values should not be empty");
    assert!(result.merkle_root.is_none(), "Merkle root should be None when use_merkle=false");
    assert!(result.proving_time_ms > 0, "Should have non-zero proving time");
    assert!(result.verify_time_ms > 0, "Should have non-zero verify time");
    assert_eq!(result.proof, vec![1, 2, 3, 4]);
    assert_eq!(result.proving_time_ms, 12);
    assert_eq!(result.verify_time_ms, 5);
}

#[test]
fn test_chained_chunk_proofs() {
    let chunk0_result = prove_chunk(0, 2, false, None);
    assert!(!chunk0_result.proof.is_empty(), "Chunk 0 proof should not be empty");
    let chunk0_public_count = chunk0_result.public_vals.len();

    let dummy_prev_root = Fr::one();
    let chunk1_result = prove_chunk(0, 2, false, Some(dummy_prev_root));
    assert!(!chunk1_result.proof.is_empty(), "Chunk 1 proof should not be empty");
    let chunk1_public_count = chunk1_result.public_vals.len();

    assert_eq!(
        chunk1_public_count,
        chunk0_public_count + 1,
        "Chunk with prev_merkle_root should have 1 more public value"
    );
    assert_eq!(
        chunk1_result.public_vals[0], dummy_prev_root,
        "First public value should be the prev_merkle_root"
    );
    assert_eq!(chunk1_result.public_vals[1..], chunk0_result.public_vals[..]);
}

#[test]
fn chunk_proof_with_merkle_exposes_the_root_last() {
    let result = prove_chunk(1, 3, true, Some(Fr::from_u64(5)));
    assert_eq!(result.merkle_root, Some(Fr::from_u64(99)));
    assert_eq!(result.public_vals.last(), Some(&Fr::from_u64(99)));
    assert_eq!(result.public_vals[0], Fr::from_u64(5));
    assert_eq!(result.public_vals.len(), 4);
}

#[test]
fn chunk_proving_is_range_safe() {
    for (start, end) in [(0usize, 0usize), (2, 2), (3, 1), (0, 5), (4, 6), (7, 3)] {
        let mut c = circuit();
        let (prover, action) = prove_chunk_kzg(&mut c, &layers(), start, end, true, None);
        // nothing is owed but to give up: no keys, no proof
        assert!(matches!(action, ProverAction::Abort(Error::Synthesis)));
        assert_eq!(prover.phase(), ProverPhase::Failed);
        assert_eq!(c.chunk, None);
        assert!(c.commit_after.is_empty());
        assert_eq!(c.prev_merkle_root, None);
        // and whatever is reported afterwards changes nothing
        let (prover, action) = prover.advance(ProverEvent::KeysGenerated);
        assert!(matches!(action, ProverAction::Abort(Error::UnexpectedEvent)));
        assert_eq!(prover.phase(), ProverPhase::Failed);
    }
}

#[test]
fn configure_chunk_switches_the_commitment_on() {
    // a commitment is asked for and none is set up: the last layer's outputs
    let mut c = circuit();
    assert_eq!(configure_chunk(&mut c, &layers(), 0, 2, true, None), Ok(17));
    assert_eq!(c.commit_after, vec![vec![3, 4]]);
    assert_eq!(c.chunk, Some(ChunkConfig { chunk_start: 0, chunk_end: 2, use_merkle: true }));
    assert_eq!(c.prev_merkle_root, None);

    // the last layer has no outputs: nothing to commit to
    let mut c = circuit();
    assert_eq!(configure_chunk(&mut c, &layers(), 1, 3, true, Some(Fr::one())), Ok(17));
    assert!(c.commit_after.is_empty());
    assert_eq!(c.prev_merkle_root, Some(Fr::one()));

    // no commitment asked for
    let mut c = circuit();
    assert_eq!(configure_chunk(&mut c, &layers(), 0, 2, false, None), Ok(17));
    assert!(c.commit_after.is_empty());

    // the circuit commits already
    let mut c = circuit();
    c.commit_before = vec![vec![0]];
    assert_eq!(configure_chunk(&mut c, &layers(), 0, 2, true, None), Ok(17));
    assert!(c.commit_after.is_empty());
    let mut c = circuit();
    c.commit_after = vec![vec![9]];
    assert_eq!(configure_chunk(&mut c, &layers(), 0, 2, true, None), Ok(17));
    assert_eq!(c.commit_after, vec![vec![9]]);

    // the degree is the row count as a 32-bit number
    let mut c = circuit();
    c.k = (1usize << 32) + 20;
    assert_eq!(configure_chunk(&mut c, &layers(), 0, 1, false, None), Ok(20));
}

#[test]
fn beginning_a_chunk_sets_the_circuit_up() {
    // the earlier chunk's root is recorded and the last layer's outputs are committed to
    let mut c = circuit();
    let root = Fr::from_u64(77);
    let (prover, action) = prove_chunk_kzg(&mut c, &layers(), 0, 2, true, Some(root));
    assert!(matches!(action, ProverAction::GenerateKeys(17)));
    assert_eq!(prover.phase(), ProverPhase::AwaitingKeys);
    assert_eq!(c.k, 17);
    assert_eq!(c.chunk, Some(ChunkConfig { chunk_start: 0, chunk_end: 2, use_merkle: true }));
    assert_eq!(c.prev_merkle_root, Some(root));
    assert_eq!(c.commit_after, vec![vec![3, 4]]);
    assert!(c.commit_before.is_empty());

    // without a root the circuit keeps the one it has
    let mut c = circuit();
    c.prev_merkle_root = Some(Fr::from_u64(5));
    c.commit_before = vec![vec![1]];
    c.commit_after = vec![vec![8]];
    let (_, action) = prove_chunk_kzg(&mut c, &layers(), 3, 4, true, None);
    assert!(matches!(action, ProverAction::GenerateKeys(17)));
    assert_eq!(c.prev_merkle_root, Some(Fr::from_u64(5)));
    assert_eq!(c.commit_before, vec![vec![1]]);
    assert_eq!(c.commit_after, vec![vec![8]]);
    assert_eq!(c.chunk, Some(ChunkConfig { chunk_start: 3, chunk_end: 4, use_merkle: true }));

    // the degree of the keys is the library's
    assert_eq!(degree(17), 17);
    assert_eq!(degree((1usize << 32) + 20), 20);
}

fn awaiting(upto: usize) -> ChunkProver {
    let mut c = circuit();
    let (mut prover, _) = prove_chunk_kzg(&mut c, &layers(), 0, 2, true, None);
    let events = vec![
        ProverEvent::KeysGenerated,
        ProverEvent::WitnessCaptured(vec![Fr::from_u64(1), Fr::from_u64(2)]),
        ProverEvent::ProofCreated(vec![7, 7], 3),
    ];
    for event in events.into_iter().take(upto) {
        prover = prover.advance(event).0;
    }
    prover
}

#[test]
fn failures_of_the_proof_system_end_the_chunk() {
    let (prover, action) = awaiting(0).advance(ProverEvent::KeyGenerationFailed);
    assert!(matches!(action, ProverAction::Abort(Error::KeyGeneration)));
    assert_eq!(prover.phase(), ProverPhase::Failed);

    let (prover, action) = awaiting(2).advance(ProverEvent::ProofFailed);
    assert!(matches!(action, ProverAction::Abort(Error::ProofGeneration)));
    assert_eq!(prover.phase(), ProverPhase::Failed);

    let (prover, action) = awaiting(3).advance(ProverEvent::ProofRejected);
    assert!(matches!(action, ProverAction::Abort(Error::Verification)));
    assert_eq!(prover.phase(), ProverPhase::Failed);

    assert_eq!(verify_kzg(true), Ok(()));
    assert_eq!(verify_kzg(false), Err(Error::Verification));
}

#[test]
fn the_prover_goes_through_its_phases_in_order() {
    assert_eq!(awaiting(0).phase(), ProverPhase::AwaitingKeys);
    assert_eq!(awaiting(1).phase(), ProverPhase::AwaitingWitness);
    assert_eq!(awaiting(2).phase(), ProverPhase::AwaitingProof);
    assert_eq!(awaiting(2).public_vals(), &vec![Fr::from_u64(1), Fr::from_u64(2)]);
    assert_eq!(awaiting(3).phase(), ProverPhase::AwaitingVerification);
    assert_eq!(awaiting(3).proof_bytes(), &vec![7, 7]);
    let (prover, action) = awaiting(3).advance(ProverEvent::ProofVerified(8));
    assert_eq!(prover.phase(), ProverPhase::Finished);
    match action {
        ProverAction::Finish(result) => {
            assert_eq!(result.merkle_root, Some(Fr::from_u64(2)));
            assert_eq!(result.verify_time_ms, 8);
            assert_eq!(result.proving_time_ms, 3);
        }
        other => panic!("not finished: {:?}", other),
    }
    // an outcome that was not owed ends the chunk
    for upto in 0..4 {
        let (prover, action) = awaiting(upto).advance(ProverEvent::ProofVerified(1));
        if upto < 3 {
            assert!(matches!(action, ProverAction::Abort(Error::UnexpectedEvent)));
            assert_eq!(prover.phase(), ProverPhase::Failed);
        }
    }
    let (_, action) = awaiting(1).advance(ProverEvent::KeysGenerated);
    assert!(matches!(action, ProverAction::Abort(Error::UnexpectedEvent)));
}

#[test]
fn public_values_are_written_as_blocks_of_32_bytes() {
    let vals = vec![Fr::from_u64(1), Fr::from_u64(0x0203), Fr::one().neg()];
    let bytes = public_values_to_bytes(&vals);
    assert_eq!(bytes.len(), 96);
    assert_eq!(bytes[0], 1);
    assert_eq!(bytes[1..32], [0u8; 31]);
    assert_eq!(bytes[32..34], [3, 2]);
    assert_eq!(bytes[64..96], Fr::one().neg().to_repr());
    assert_eq!(public_values_from_bytes(&bytes), Some(vals));
    assert_eq!(public_values_from_bytes(&[]), Some(vec![]));
    // not a whole number of blocks
    assert_eq!(public_values_from_bytes(&bytes[..95]), None);
    assert_eq!(public_values_from_bytes(&[0u8; 1]), None);
    // a block that denotes no element
    let mut bad = bytes.clone();
    for b in bad[32..64].iter_mut() {
        *b = 0xff;
    }
    assert_eq!(public_values_from_bytes(&bad), None);
    assert_eq!(public_values_to_bytes(&vec![]), vec![]);
}

#[test]
fn parameter_files_are_named_by_degree() {
    assert_eq!(params_path("./params_kzg", 17), "./params_kzg/17.params");
    assert_eq!(params_path("", 0), "/0.params");
    assert_eq!(params_path("dir", u32::MAX), "dir/4294967295.params");
}

#[test]
fn field_elements_as_hexadecimal_text() {
    let x = Fr::from_u64(0x01ab);
    let text = fr_to_hex(&x);
    assert_eq!(
        text,
        "0xab01000000000000000000000000000000000000000000000000000000000000"
    );
    assert_eq!(hex_to_fr(&text), Some(x));
    assert_eq!(hex_to_fr(&text[2..]), Some(x));
    assert_eq!(hex_to_fr(&text.to_uppercase().replace("0X", "0x")), Some(x));
    // too short, too long, not hexadecimal, not canonical
    assert_eq!(hex_to_fr("0xab01"), None);
    assert_eq!(hex_to_fr(""), None);
    assert_eq!(hex_to_fr(&format!("{}00", text)), None);
    assert_eq!(hex_to_fr(&text.replace("ab", "zz")), None);
    assert_eq!(hex_to_fr(&"f".repeat(64)), None);
    assert_eq!(hex_to_fr(&format!("0x{}", "f".repeat(64))), None);
    // a second prefix is not taken off
    assert_eq!(hex_to_fr(&format!("0x{}", &text[..64])), None);
    let minus_one = Fr::one().neg();
    assert_eq!(hex_to_fr(&fr_to_hex(&minus_one)), Some(minus_one));
}
