use zkml::circuit::Error;
use zkml::distributed::{MerkleProof, ModelChunk};
use zkml::field::Fr;
use zkml::ray::{
    generate_proof_local, generate_proof_worker, initialize_shared_resources, select_backend,
    Backend, InferenceInput, SharedResources,
};

#[test]
fn model_chunk_starts_without_a_commitment() {
    let chunk = ModelChunk::new("circuit", vec![0, 1], vec![0], vec![5, 6]);
    assert_eq!(chunk.circuit, "circuit");
    assert_eq!(chunk.layer_indices, vec![0, 1]);
    assert_eq!(chunk.input_indices, vec![0]);
    assert_eq!(chunk.output_indices, vec![5, 6]);
    assert_eq!(chunk.merkle_root, None);
}

#[test]
fn merkle_proof_carries_the_root_as_bytes() {
    let root = Fr::from_u64(0x0102_0304);
    let proof = MerkleProof::new(root);
    assert_eq!(proof.root.len(), 32);
    assert_eq!(proof.root, root.to_repr().to_vec());
    assert_eq!(proof.root[0..4], [4, 3, 2, 1]);
    assert!(proof.path.is_empty());
}

#[test]
fn shared_resources_keep_the_key_once_generated() {
    let mut shared: SharedResources<&str, &str, u8> =
        SharedResources::from_model_config("circuit", 19, "params");
    assert_eq!(shared.degree, 19);
    assert_eq!(shared.proving_key, None);
    assert_eq!(shared.generate_proving_key(Err(Error::KeyGeneration)), Err(Error::KeyGeneration));
    assert_eq!(shared.proving_key, None);
    assert_eq!(shared.generate_proving_key(Ok(7)), Ok(()));
    assert_eq!(shared.proving_key, Some(7));
    assert_eq!(shared.circuit, "circuit");
    assert_eq!(shared.params, "params");
}

#[test]
fn only_kzg_needs_a_proving_key() {
    assert_eq!(select_backend("kzg"), Backend::Kzg);
    assert_eq!(select_backend("ipa"), Backend::Ipa);
    assert_eq!(select_backend("KZG"), Backend::Ipa);
    assert_eq!(select_backend(""), Backend::Ipa);
    assert_eq!(select_backend("kzg "), Backend::Ipa);

    let fresh = || SharedResources::<(), (), u8>::from_model_config((), 10, ());
    let shared = initialize_shared_resources(fresh(), "kzg", Ok(3)).ok().unwrap();
    assert_eq!(shared.proving_key, Some(3));
    let failed = initialize_shared_resources(fresh(), "kzg", Err(Error::KeyGeneration));
    assert_eq!(failed.err(), Some(Error::KeyGeneration));
    let shared = initialize_shared_resources(fresh(), "ipa", Err(Error::KeyGeneration));
    assert_eq!(shared.ok().unwrap().proving_key, None);
    let shared = initialize_shared_resources(fresh(), "ipa", Ok(3)).ok().unwrap();
    assert_eq!(shared.proving_key, None);
}

#[test]
fn a_local_proof_records_the_time_alone() {
    let result = generate_proof_local(1234);
    assert!(result.proof.is_empty());
    assert!(result.public_vals.is_empty());
    assert_eq!(result.index, 0);
    assert_eq!(result.time_ms, 1234);
}

#[test]
fn a_worker_needs_a_proving_key() {
    let input = InferenceInput { input_path: "inp.msgpack".to_string(), index: 4 };
    let public_vals = vec![Fr::from_u64(1), Fr::from_u64(258)];
    let mut shared: SharedResources<(), (), u8> = SharedResources::from_model_config((), 10, ());
    let r = generate_proof_worker(&shared, &input, &public_vals, vec![9, 9], 77);
    assert_eq!(r.err(), Some(Error::KeyGeneration));
    shared.generate_proving_key(Ok(1)).unwrap();
    let r = generate_proof_worker(&shared, &input, &public_vals, vec![9, 9], 77).unwrap();
    assert_eq!(r.proof, vec![9, 9]);
    assert_eq!(r.index, 4);
    assert_eq!(r.time_ms, 77);
    assert_eq!(r.public_vals.len(), 2);
    assert_eq!(r.public_vals[0], Fr::from_u64(1).to_repr().to_vec());
    assert_eq!(r.public_vals[1][0..2], [2, 1]);
    assert_eq!(r.public_vals[1].len(), 32);
}
