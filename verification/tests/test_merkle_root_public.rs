use std::collections::HashMap;

use zkml::circuit::{Error, Layouter};
use zkml::dag::{DAGLayerChip, DAGLayerConfig, Layer, LayerConfig, LayerType, Tensor};
use zkml::field::Fr;
use zkml::merkle::{Commit, MerkleTreeChip};
use zkml::proving::{extract_merkle_root, public_values};

struct Operators;

impl Layer for Operators {
    type Config = ();

    fn forward(
        &self,
        tensors: &Vec<Tensor>,
        _constants: &HashMap<i64, Fr>,
        _gadget_config: &(),
        layer_config: &LayerConfig,
    ) -> Result<Vec<Tensor>, Error> {
        let combine = |f: &dyn Fn(&Fr, &Fr) -> Fr| Tensor {
            shape: tensors[0].shape.clone(),
            cells: tensors[0]
                .cells
                .iter()
                .zip(tensors[tensors.len() - 1].cells.iter())
                .map(|(x, y)| f(x, y))
                .collect(),
        };
        match layer_config.layer_type {
            LayerType::Add => Ok(vec![combine(&|x, y| x.add(y))]),
            LayerType::Mul => Ok(vec![combine(&|x, y| x.mul(y))]),
            LayerType::Square => Ok(vec![combine(&|x, y| x.mul(y))]),
            _ => Err(Error::Synthesis),
        }
    }
}

struct Sponge;

impl Commit for Sponge {
    fn commit(&self, values: &Vec<Fr>, blinding: Fr) -> Result<Vec<Fr>, Error> {
        let mut acc = blinding.add(&Fr::from_u64(values.len() as u64 + 1));
        for v in values.iter() {
            acc = acc.mul(&Fr::from_u64(31)).add(v).add(&Fr::one());
        }
        Ok(vec![acc])
    }
}

fn op(layer_type: LayerType) -> LayerConfig {
    LayerConfig {
        layer_type,
        layer_params: vec![],
        inp_shapes: vec![],
        out_shapes: vec![],
        mask: vec![],
    }
}

fn graph() -> DAGLayerConfig {
    DAGLayerConfig {
        ops: vec![op(LayerType::Add), op(LayerType::Mul), op(LayerType::Square)],
        inp_idxes: vec![vec![0, 1], vec![2, 1], vec![3]],
        out_idxes: vec![vec![2], vec![3], vec![4]],
        final_out_idxes: vec![4],
    }
}

fn tensor(values: &[u64]) -> Tensor {
    Tensor { shape: vec![values.len()], cells: values.iter().map(|v| Fr::from_u64(*v)).collect() }
}

fn inputs() -> Vec<Tensor> {
    vec![tensor(&[1, 2, 3]), tensor(&[10, 20, 30])]
}

fn constants() -> HashMap<i64, Fr> {
    let mut constants = HashMap::new();
    constants.insert(0, Fr::zero());
    constants
}

fn flatten(tensors: &[Tensor]) -> Vec<Fr> {
    tensors.iter().flat_map(|t| t.cells.iter().copied()).collect()
}

#[test]
fn test_merkle_root_in_public_values() {
    let chip = DAGLayerChip::construct(graph());
    let num_layers = 3;
    let chunk_end = std::cmp::min(2, num_layers);

    // without a commitment: the outputs alone
    let (_, boundary) =
        chip.forward_chunk(&Operators, &inputs(), &constants(), &(), 0, chunk_end).unwrap();
    let public_vals_no_merkle = public_values(None, &flatten(&boundary), None);
    let count_without_merkle = public_vals_no_merkle.len();

    // with a commitment: the root comes last
    let merkle = MerkleTreeChip::new(Sponge);
    let (_, boundary, root) = chip
        .forward_chunk_with_merkle(&Operators, &inputs(), &constants(), &(), 0, chunk_end, &merkle)
        .unwrap();
    let public_vals_with_merkle = public_values(None, &flatten(&boundary), Some(root));
    let count_with_merkle = public_vals_with_merkle.len();

    assert!(
        count_with_merkle > count_without_merkle,
        "Merkle root should add at least one public value. Without: {}, With: {}",
        count_without_merkle,
        count_with_merkle
    );
    assert_eq!(count_with_merkle, count_without_merkle + 1);
    assert_eq!(public_vals_with_merkle[count_with_merkle - 1], root);
    assert_eq!(public_vals_with_merkle[..count_without_merkle], public_vals_no_merkle[..]);
    assert_eq!(extract_merkle_root(true, &public_vals_with_merkle), Some(root));
    assert_eq!(extract_merkle_root(false, &public_vals_with_merkle), None);
    assert_eq!(extract_merkle_root(true, &vec![]), None);

    // the circuit is satisfied by the root that was made public
    let mut layouter = Layouter::new();
    let claimed = public_vals_with_merkle[count_with_merkle - 1];
    let verify_result =
        merkle.verify_root(&mut layouter, &constants(), &flatten(&boundary), claimed);
    assert_eq!(verify_result, Ok(()), "Circuit verification should succeed");
    assert!(layouter.is_satisfied());
}

#[test]
fn test_full_model_execution_still_works() {
    let chip = DAGLayerChip::construct(graph());
    let (map, outputs) = chip.forward(&Operators, &inputs(), &constants(), &()).unwrap();
    let public_vals = public_values(None, &flatten(&outputs), None);
    assert_eq!(
        public_vals,
        vec![Fr::from_u64(12100), Fr::from_u64(193600), Fr::from_u64(980100)],
        "Full model execution should still work"
    );
    assert_eq!(map.len(), 5);
}

#[test]
fn test_chunk_execution_without_merkle() {
    let chip = DAGLayerChip::construct(graph());
    let num_layers = 3;
    let chunk_end = std::cmp::min(2, num_layers);
    let (map, boundary) =
        chip.forward_chunk(&Operators, &inputs(), &constants(), &(), 0, chunk_end).unwrap();
    let public_vals = public_values(None, &flatten(&boundary), None);
    assert_eq!(
        public_vals,
        vec![Fr::from_u64(110), Fr::from_u64(440), Fr::from_u64(990)],
        "Chunk execution without Merkle should work"
    );
    assert_eq!(map.len(), 4);
    assert_eq!(extract_merkle_root(false, &public_vals), None);
}

#[test]
fn public_values_stand_in_their_order() {
    let prev = Fr::from_u64(7);
    let root = Fr::from_u64(9);
    let outputs = vec![Fr::from_u64(1), Fr::from_u64(2)];
    let frs = |v: &[u64]| v.iter().map(|x| Fr::from_u64(*x)).collect::<Vec<_>>();
    assert_eq!(public_values(None, &outputs, None), frs(&[1, 2]));
    assert_eq!(public_values(Some(prev), &outputs, None), frs(&[7, 1, 2]));
    assert_eq!(public_values(None, &outputs, Some(root)), frs(&[1, 2, 9]));
    assert_eq!(public_values(Some(prev), &outputs, Some(root)), frs(&[7, 1, 2, 9]));
    assert_eq!(public_values(Some(prev), &vec![], Some(root)), frs(&[7, 9]));
    assert_eq!(public_values(None, &vec![], None), vec![]);
}
