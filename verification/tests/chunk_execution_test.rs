use std::collections::HashMap;

use zkml::circuit::Error;
use zkml::dag::{DAGLayerChip, DAGLayerConfig, Layer, LayerConfig, LayerType, Tensor};
use zkml::field::Fr;
use zkml::merkle::{Commit, MerkleTreeChip};

/// A few operators on flat tensors, enough to run small graphs.
struct Operators;

fn elementwise(a: &Tensor, b: &Tensor, f: impl Fn(&Fr, &Fr) -> Fr) -> Tensor {
    Tensor {
        shape: a.shape.clone(),
        cells: a.cells.iter().zip(b.cells.iter()).map(|(x, y)| f(x, y)).collect(),
    }
}

impl Layer for Operators {
    type Config = ();

    fn forward(
        &self,
        tensors: &Vec<Tensor>,
        _constants: &HashMap<i64, Fr>,
        _gadget_config: &(),
        layer_config: &LayerConfig,
    ) -> Result<Vec<Tensor>, Error> {
        match layer_config.layer_type {
            LayerType::Add => Ok(vec![elementwise(&tensors[0], &tensors[1], |x, y| x.add(y))]),
            LayerType::Mul => Ok(vec![elementwise(&tensors[0], &tensors[1], |x, y| x.mul(y))]),
            LayerType::Square => Ok(vec![elementwise(&tensors[0], &tensors[0], |x, y| x.mul(y))]),
            LayerType::Noop => Ok(vec![tensors[0].clone()]),
            LayerType::Split => Ok(vec![tensors[0].clone(), tensors[0].clone()]),
            LayerType::Pack => Ok(vec![]),
            _ => Err(Error::Synthesis),
        }
    }
}

struct Sponge;

impl Commit for Sponge {
    fn commit(&self, values: &Vec<Fr>, blinding: Fr) -> Result<Vec<Fr>, Error> {
        let mut acc = blinding.add(&Fr::from_u64(values.len() as u64 + 1));
        for v in values.iter() {
            acc = acc.mul(&Fr::from_u64(31)).add(v).add(&Fr::one());
        }
        Ok(vec![acc])
    }
}

fn op(layer_type: LayerType) -> LayerConfig {
    LayerConfig {
        layer_type,
        layer_params: vec![],
        inp_shapes: vec![],
        out_shapes: vec![],
        mask: vec![],
    }
}

fn tensor(values: &[u64]) -> Tensor {
    Tensor { shape: vec![values.len()], cells: values.iter().map(|v| Fr::from_u64(*v)).collect() }
}

fn cells(t: &Tensor) -> Vec<Fr> {
    t.cells.clone()
}

fn assert_same_tensors(a: &[Tensor], b: &[Tensor]) {
    assert_eq!(a.len(), b.len());
    for (x, y) in a.iter().zip(b.iter()) {
        assert_eq!(x.shape, y.shape);
        assert_eq!(x.cells, y.cells);
    }
}

fn assert_same_map(a: &HashMap<usize, Tensor>, b: &HashMap<usize, Tensor>) {
    assert_eq!(a.len(), b.len());
    for (slot, x) in a.iter() {
        assert_eq!(x.shape, b[slot].shape);
        assert_eq!(x.cells, b[slot].cells);
    }
}

fn frs(values: &[u64]) -> Vec<Fr> {
    values.iter().map(|v| Fr::from_u64(*v)).collect()
}

/// slot 2 = slot 0 + slot 1; slot 3 = slot 2 * slot 1; slot 4 = slot 3 squared
fn graph() -> DAGLayerConfig {
    DAGLayerConfig {
        ops: vec![op(LayerType::Add), op(LayerType::Mul), op(LayerType::Square)],
        inp_idxes: vec![vec![0, 1], vec![2, 1], vec![3]],
        out_idxes: vec![vec![2], vec![3], vec![4]],
        final_out_idxes: vec![4],
    }
}

fn inputs() -> Vec<Tensor> {
    vec![tensor(&[1, 2, 3]), tensor(&[10, 20, 30])]
}

fn constants() -> HashMap<i64, Fr> {
    let mut constants = HashMap::new();
    constants.insert(0, Fr::zero());
    constants
}

#[test]
fn test_chunk_execution_intermediate_values() {
    let chip = DAGLayerChip::construct(graph());
    let (map, boundary) =
        chip.forward_chunk(&Operators, &inputs(), &constants(), &(), 0, 2).unwrap();
    // the boundary is what the last operation of the chunk produced
    assert_eq!(boundary.len(), 1);
    assert_eq!(cells(&boundary[0]), frs(&[110, 440, 990]));
    assert_eq!(boundary[0].shape, vec![3]);
    // the map holds the inputs and every tensor produced
    assert_eq!(map.len(), 4);
    assert_eq!(cells(&map[&0]), frs(&[1, 2, 3]));
    assert_eq!(cells(&map[&1]), frs(&[10, 20, 30]));
    assert_eq!(cells(&map[&2]), frs(&[11, 22, 33]));
    assert_eq!(cells(&map[&3]), frs(&[110, 440, 990]));
    assert!(!map.contains_key(&4));
}

#[test]
fn test_chunk_execution_with_merkle() {
    let chip = DAGLayerChip::construct(graph());
    let merkle = MerkleTreeChip::new(Sponge);
    let (map, boundary, root) = chip
        .forward_chunk_with_merkle(&Operators, &inputs(), &constants(), &(), 0, 2, &merkle)
        .unwrap();
    assert_eq!(map.len(), 4);
    assert_eq!(cells(&boundary[0]), frs(&[110, 440, 990]));
    let expected = merkle.build_binary_tree(&constants(), &frs(&[110, 440, 990])).unwrap();
    assert_eq!(root, expected);
}

#[test]
fn test_multiple_chunks_consistency() {
    let chip = DAGLayerChip::construct(graph());
    let merkle = MerkleTreeChip::new(Sponge);
    let a = chip
        .forward_chunk_with_merkle(&Operators, &inputs(), &constants(), &(), 0, 3, &merkle)
        .unwrap();
    let b = chip
        .forward_chunk_with_merkle(&Operators, &inputs(), &constants(), &(), 0, 3, &merkle)
        .unwrap();
    assert_eq!(a.2, b.2);

    // the whole graph run at once gives what the chunk over all operations gives
    let (map, outputs) = chip.forward(&Operators, &inputs(), &constants(), &()).unwrap();
    assert_eq!(cells(&outputs[0]), frs(&[12100, 193600, 980100]));
    assert_eq!(cells(&a.1[0]), cells(&outputs[0]));
    for slot in 0..5usize {
        assert_eq!(cells(&map[&slot]), cells(&a.0[&slot]));
    }

    // a chunk that starts later finds the tensors of the chunk before among its inputs
    let (first, _) = chip.forward_chunk(&Operators, &inputs(), &constants(), &(), 0, 2).unwrap();
    let carried: Vec<Tensor> = (0..4usize).map(|slot| first[&slot].clone()).collect();
    let (second, boundary) =
        chip.forward_chunk(&Operators, &carried, &constants(), &(), 2, 3).unwrap();
    assert_eq!(cells(&boundary[0]), cells(&outputs[0]));
    assert_eq!(cells(&second[&4]), cells(&map[&4]));
}

#[test]
fn chunk_range_is_checked() {
    let chip = DAGLayerChip::construct(graph());
    let merkle = MerkleTreeChip::new(Sponge);
    for (start, end) in [(0usize, 0usize), (2, 1), (1, 1), (0, 4), (3, 4), (5, 2)] {
        let r = chip.forward_chunk(&Operators, &inputs(), &constants(), &(), start, end);
        assert_eq!(r.err(), Some(Error::Synthesis));
        let r = chip.forward_chunk_with_merkle(
            &Operators,
            &inputs(),
            &constants(),
            &(),
            start,
            end,
            &merkle,
        );
        assert_eq!(r.err(), Some(Error::Synthesis));
    }
}

#[test]
fn chunk_that_reads_an_unfilled_slot_is_found_without_running() {
    let chip = DAGLayerChip::construct(graph());
    let loaded = DAGLayerChip::load_inputs(&inputs());
    assert_eq!(loaded.len(), 2);
    assert_eq!(cells(&loaded[&1]), frs(&[10, 20, 30]));
    // operation 1 reads slot 2, which only operation 0 fills
    assert!(!chip.reads_filled_slots(&loaded, 1, 2));
    assert!(!chip.reads_filled_slots(&loaded, 2, 3));
    assert!(!chip.reads_filled_slots(&loaded, 1, 3));
    assert!(chip.reads_filled_slots(&loaded, 0, 1));
    assert!(chip.reads_filled_slots(&loaded, 0, 2));
    assert!(chip.reads_filled_slots(&loaded, 0, 3));
    // with one input only, operation 0 has nothing in slot 1 to read
    let short = DAGLayerChip::load_inputs(&vec![tensor(&[1, 2, 3])]);
    assert!(!chip.reads_filled_slots(&short, 0, 1));
    // a range that no chunk can have reads nothing
    assert!(chip.reads_filled_slots(&short, 2, 2));
    assert!(chip.reads_filled_slots(&short, 3, 1));
    assert!(chip.reads_filled_slots(&short, 0, 4));
    // on the map that the first operation left, the second is in order
    let (first, _) = chip.forward_chunk(&Operators, &inputs(), &constants(), &(), 0, 1).unwrap();
    assert!(chip.reads_filled_slots(&first, 1, 2));
    assert!(!chip.reads_filled_slots(&first, 2, 3));
}

#[test]
fn chunks_run_on_the_map_of_the_chunk_before() {
    let chip = DAGLayerChip::construct(graph());
    let (whole, outputs) = chip.forward(&Operators, &inputs(), &constants(), &()).unwrap();
    for cut in 1..3usize {
        let (first, _) =
            chip.forward_chunk(&Operators, &inputs(), &constants(), &(), 0, cut).unwrap();
        assert!(chip.reads_filled_slots(&first, cut, 3));
        let (second, boundary) = chip
            .forward_chunk_from(&Operators, first, &constants(), &(), cut, 3)
            .unwrap();
        assert_same_tensors(&boundary, &outputs);
        assert_same_map(&second, &whole);
    }
    // three chunks of one operation each
    let mut map = DAGLayerChip::load_inputs(&inputs());
    for i in 0..3usize {
        let (next, boundary) =
            chip.forward_chunk_from(&Operators, map, &constants(), &(), i, i + 1).unwrap();
        assert_eq!(cells(&boundary[0]), cells(&whole[&(i + 2)]));
        map = next;
    }
    assert_same_map(&map, &whole);
    // the range is checked before anything runs
    let r = chip.forward_chunk_from(&Operators, map, &constants(), &(), 3, 3);
    assert_eq!(r.err(), Some(Error::Synthesis));
}

#[test]
fn chunk_with_too_few_outputs_fails() {
    let dag = DAGLayerConfig {
        ops: vec![op(LayerType::Pack)],
        inp_idxes: vec![vec![0]],
        out_idxes: vec![vec![1]],
        final_out_idxes: vec![],
    };
    let chip = DAGLayerChip::construct(dag);
    let r = chip.forward_chunk(&Operators, &inputs(), &constants(), &(), 0, 1);
    assert_eq!(r.err(), Some(Error::MissingOutput));
}

#[test]
fn operator_failure_is_handed_on() {
    let dag = DAGLayerConfig {
        ops: vec![op(LayerType::Softmax)],
        inp_idxes: vec![vec![0]],
        out_idxes: vec![vec![1]],
        final_out_idxes: vec![1],
    };
    let chip = DAGLayerChip::construct(dag);
    let r = chip.forward(&Operators, &inputs(), &constants(), &());
    assert_eq!(r.err(), Some(Error::Synthesis));
}

#[test]
fn chunk_with_two_outputs_commits_to_all_cells() {
    let dag = DAGLayerConfig {
        ops: vec![op(LayerType::Split)],
        inp_idxes: vec![vec![1]],
        out_idxes: vec![vec![2, 3]],
        final_out_idxes: vec![2],
    };
    let chip = DAGLayerChip::construct(dag);
    let merkle = MerkleTreeChip::new(Sponge);
    let (_, boundary, root) = chip
        .forward_chunk_with_merkle(&Operators, &inputs(), &constants(), &(), 0, 1, &merkle)
        .unwrap();
    assert_eq!(boundary.len(), 2);
    let leaves = frs(&[10, 20, 30, 10, 20, 30]);
    assert_eq!(root, merkle.build_binary_tree(&constants(), &leaves).unwrap());
}

#[test]
fn chunk_without_cells_has_no_root() {
    let dag = DAGLayerConfig {
        ops: vec![op(LayerType::Pack)],
        inp_idxes: vec![vec![0]],
        out_idxes: vec![vec![]],
        final_out_idxes: vec![],
    };
    let chip = DAGLayerChip::construct(dag);
    let merkle = MerkleTreeChip::new(Sponge);
    // the chunk itself runs, and its boundary is empty
    let (_, boundary) =
        chip.forward_chunk(&Operators, &inputs(), &constants(), &(), 0, 1).unwrap();
    assert!(boundary.is_empty());
    // no cell, no root: with or without a zero constant
    let r =
        chip.forward_chunk_with_merkle(&Operators, &inputs(), &constants(), &(), 0, 1, &merkle);
    assert_eq!(r.err(), Some(Error::Synthesis));
    let r = chip.forward_chunk_with_merkle(
        &Operators,
        &inputs(),
        &HashMap::new(),
        &(),
        0,
        1,
        &merkle,
    );
    assert_eq!(r.err(), Some(Error::Synthesis));
    // a boundary of tensors without cells has no root either
    let dag = DAGLayerConfig {
        ops: vec![op(LayerType::Noop)],
        inp_idxes: vec![vec![0]],
        out_idxes: vec![vec![1]],
        final_out_idxes: vec![1],
    };
    let chip = DAGLayerChip::construct(dag);
    let r = chip.forward_chunk_with_merkle(
        &Operators,
        &vec![tensor(&[])],
        &constants(),
        &(),
        0,
        1,
        &merkle,
    );
    assert_eq!(r.err(), Some(Error::Synthesis));
}

#[test]
fn final_slot_that_nothing_fills_is_found_without_running() {
    let loaded = DAGLayerChip::load_inputs(&inputs());
    let chip = DAGLayerChip::construct(graph());
    assert!(chip.fills_final_slots(&loaded));
    let mut dag = graph();
    dag.final_out_idxes = vec![4, 9];
    let chip = DAGLayerChip::construct(dag);
    assert!(chip.reads_filled_slots(&loaded, 0, 3));
    assert!(!chip.fills_final_slots(&loaded));
    // an input slot can be a final output
    let mut dag = graph();
    dag.final_out_idxes = vec![1, 3];
    let chip = DAGLayerChip::construct(dag);
    assert!(chip.fills_final_slots(&loaded));
    let (_, outputs) = chip.forward(&Operators, &inputs(), &constants(), &()).unwrap();
    assert_eq!(outputs.len(), 2);
    assert_eq!(cells(&outputs[0]), frs(&[10, 20, 30]));
    assert_eq!(cells(&outputs[1]), frs(&[110, 440, 990]));
}
