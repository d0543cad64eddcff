//! Executes a contiguous range of a computation graph's operations against a
//! tensor map, and commits to what the last operation of the range produced.

use crate::circuit::Error;
use crate::field::{all_wf, values_of, Fr};
use crate::merkle::{merkle_root, Commit, MerkleTreeChip};
use std::collections::{HashMap, HashSet};
use vstd::prelude::*;

verus! {

broadcast use vstd::std_specs::hash::group_hash_axioms;

/// The kinds of operation that a graph can hold.
#[derive(Clone, Copy, Debug, PartialEq, Eq, Structural)]
pub enum LayerType {
    Add,
    AvgPool2D,
    BatchMatMul,
    Broadcast,
    Concatenation,
    Conv2D,
    Cos,
    DivFixed,
    DivVar,
    FullyConnected,
    Logistic,
    MaskNegInf,
    MaxPool2D,
    Mean,
    Mul,
    Noop,
    Pack,
    Pad,
    Permute,
    Pow,
    Reshape,
    ResizeNN,
    Rotate,
    Rsqrt,
    Sin,
    Slice,
    Softmax,
    Split,
    Sqrt,
    Square,
    SquaredDifference,
    Sub,
    Tanh,
    Transpose,
    Update,
}

/// One operation of the graph: its kind and the parameters of that kind.
#[derive(Clone, Debug)]
pub struct LayerConfig {
    pub layer_type: LayerType,
    pub layer_params: Vec<i64>,
    pub inp_shapes: Vec<Vec<usize>>,
    pub out_shapes: Vec<Vec<usize>>,
    pub mask: Vec<i64>,
}

/// A tensor of witness values: a shape and the cells in row-major order.
#[derive(Debug)]
pub struct Tensor {
    pub shape: Vec<usize>,
    pub cells: Vec<Fr>,
}

/// What a tensor holds: its shape and the values of its cells.
pub struct TensorView {
    pub shape: Seq<usize>,
    pub values: Seq<nat>,
}

impl View for Tensor {
    type V = TensorView;

    open spec fn view(&self) -> TensorView {
        TensorView { shape: self.shape@, values: values_of(self.cells@) }
    }
}

impl Clone for Tensor {
    fn clone(&self) -> (r: Tensor)
        ensures
            r@ == self@,
            r.wf() == self.wf(),
    {
        let mut shape: Vec<usize> = Vec::new();
        let mut i: usize = 0;
        while i < self.shape.len()
            invariant
                i <= self.shape.len(),
                shape@ == self.shape@.take(i as int),
            decreases self.shape.len() - i,
        {
            shape.push(self.shape[i]);
            assert(shape@ =~= self.shape@.take(i + 1));
            i += 1;
        }
        let mut cells: Vec<Fr> = Vec::new();
        let mut j: usize = 0;
        while j < self.cells.len()
            invariant
                j <= self.cells.len(),
                cells@ == self.cells@.take(j as int),
            decreases self.cells.len() - j,
        {
            cells.push(self.cells[j]);
            assert(cells@ =~= self.cells@.take(j + 1));
            j += 1;
        }
        assert(shape@ =~= self.shape@);
        assert(cells@ =~= self.cells@);
        Tensor { shape, cells }
    }
}

impl Tensor {
    /// Every cell is canonically encoded.
    pub open spec fn wf(&self) -> bool {
        all_wf(self.cells@)
    }
}

/// What a list of tensors holds.
pub open spec fn tensor_views(tensors: Seq<Tensor>) -> Seq<TensorView> {
    tensors.map_values(|t: Tensor| t@)
}

/// Every tensor of the list has canonically encoded cells.
pub open spec fn tensors_wf(tensors: Seq<Tensor>) -> bool {
    forall|i: int| 0 <= i < tensors.len() ==> (#[trigger] tensors[i]).wf()
}

/// What a tensor map holds.
pub open spec fn map_views(map: Map<usize, Tensor>) -> Map<usize, TensorView> {
    map.map_values(|t: Tensor| t@)
}

/// Every tensor of the map has canonically encoded cells.
pub open spec fn map_wf(map: Map<usize, Tensor>) -> bool {
    forall|k: usize| map.contains_key(k) ==> (#[trigger] map[k]).wf()
}

/// The values of a table of constants.
pub open spec fn constant_values(constants: Map<i64, Fr>) -> Map<i64, nat> {
    constants.map_values(|x: Fr| x@)
}

/// Every constant is canonically encoded.
pub open spec fn constants_wf(constants: Map<i64, Fr>) -> bool {
    forall|k: i64| constants.contains_key(k) ==> (#[trigger] constants[k]).wf()
}

/// An executable result and the tensors that are named agree.
pub open spec fn tensors_match(r: Result<Vec<Tensor>, Error>, s: Result<Seq<TensorView>, Error>)
    -> bool {
    match (r, s) {
        (Ok(x), Ok(v)) => tensors_wf(x@) && tensor_views(x@) == v,
        (Err(e), Err(f)) => e == f,
        _ => false,
    }
}

/// The operators of a graph: one entry point that carries out the operation a
/// configuration describes on the tensors it is given. What it produces is a
/// function of the inputs, the constants and the two configurations.
pub trait Layer: Sized {
    /// The configuration that all operations share.
    type Config;

    /// The tensors that the operation produces, or the error that stops it.
    /// Where an implementation does not say which function that is, it is some
    /// function of the operators, the inputs, the constants and the two
    /// configurations.
    open spec fn forward_spec(
        &self,
        tensors: Seq<TensorView>,
        constants: Map<i64, nat>,
        gadget_config: &Self::Config,
        layer_config: &LayerConfig,
    ) -> Result<Seq<TensorView>, Error> {
        let unspecified = arbitrary::<
            spec_fn(Self, Seq<TensorView>, Map<i64, nat>, Self::Config, LayerConfig) -> Result<
                Seq<TensorView>,
                Error,
            >,
        >();
        unspecified(*self, tensors, constants, *gadget_config, *layer_config)
    }

    /// Carries out the operation that `forward_spec` names.
    fn forward(
        &self,
        tensors: &Vec<Tensor>,
        constants: &HashMap<i64, Fr>,
        gadget_config: &Self::Config,
        layer_config: &LayerConfig,
    ) -> (r: Result<Vec<Tensor>, Error>)
        requires
            tensors_wf(tensors@),
            constants_wf(constants@),
        ensures
            tensors_match(
                r,
                self.forward_spec(
                    tensor_views(tensors@),
                    constant_values(constants@),
                    gadget_config,
                    layer_config,
                ),
            ),
    ;
}

/// A computation graph: its operations in topological order, and for each the
/// tensor slots it reads and the slots it fills.
#[derive(Clone, Debug, Default)]
pub struct DAGLayerConfig {
    pub ops: Vec<LayerConfig>,
    pub inp_idxes: Vec<Vec<usize>>,
    pub out_idxes: Vec<Vec<usize>>,
    pub final_out_idxes: Vec<usize>,
}

impl DAGLayerConfig {
    /// Every operation has its list of input slots and its list of output slots.
    pub open spec fn wf(&self) -> bool {
        self.inp_idxes.len() == self.ops.len() && self.out_idxes.len() == self.ops.len()
    }
}

/// The tensor map before any operation ran: input `i` in slot `i`.
pub open spec fn initial_map(tensors: Seq<TensorView>) -> Map<usize, TensorView> {
    Map::new(|k: usize| k < tensors.len(), |k: usize| tensors[k as int])
}

/// The tensors in the first `n` slots of `idxes`, in order.
pub open spec fn gather(map: Map<usize, TensorView>, idxes: Seq<usize>, n: nat) -> Seq<
    TensorView,
> {
    Seq::new(n, |i: int| map[idxes[i]])
}

/// The map after the first `n` outputs were stored in their slots, in order.
pub open spec fn store(
    map: Map<usize, TensorView>,
    idxes: Seq<usize>,
    outputs: Seq<TensorView>,
    n: nat,
) -> Map<usize, TensorView>
    decreases n,
{
    if n == 0 {
        map
    } else {
        store(map, idxes, outputs, (n - 1) as nat).insert(idxes[n - 1], outputs[n - 1])
    }
}

/// The map after operation `i` ran on it: its inputs are gathered from their
/// slots, the operator is applied, and each output is stored in its slot.
pub open spec fn step<L: Layer>(
    lib: &L,
    dag: &DAGLayerConfig,
    constants: Map<i64, nat>,
    gadget_config: &L::Config,
    map: Map<usize, TensorView>,
    i: int,
) -> Result<Map<usize, TensorView>, Error> {
    let inp = dag.inp_idxes@[i]@;
    let out = dag.out_idxes@[i]@;
    match lib.forward_spec(gather(map, inp, inp.len()), constants, gadget_config, &dag.ops@[i]) {
        Err(e) => Err(e),
        Ok(outputs) => if outputs.len() < out.len() {
            Err(Error::MissingOutput)
        } else {
            Ok(store(map, out, outputs, out.len()))
        },
    }
}

/// The slots that hold a tensor once the operations `start..upto` ran on a
/// map whose filled slots were `filled`: those, and every output slot of these
/// operations.
pub open spec fn filled_after(dag: &DAGLayerConfig, filled: Set<usize>, start: int, upto: int)
    -> Set<usize>
    decreases upto - start,
{
    if upto <= start {
        filled
    } else {
        filled_after(dag, filled, start, upto - 1).union(dag.out_idxes@[upto - 1]@.to_set())
    }
}

/// Operation `l` of a run that starts at `start` reads only slots that are
/// filled when its turn comes.
pub open spec fn op_reads_filled(dag: &DAGLayerConfig, filled: Set<usize>, start: int, l: int)
    -> bool {
    forall|j: int|
        0 <= j < dag.inp_idxes@[l]@.len() ==> filled_after(dag, filled, start, l).contains(
            #[trigger] dag.inp_idxes@[l]@[j],
        )
}

/// The operations `start..end` are in order for a map whose filled slots are
/// `filled`: each reads only slots that were filled at the start or that an
/// earlier operation of the range fills. A range that reaches past the last
/// operation reads nothing.
pub open spec fn reads_filled(dag: &DAGLayerConfig, filled: Set<usize>, start: int, end: int)
    -> bool {
    end <= dag.ops.len() ==> forall|l: int|
        start <= l < end ==> #[trigger] op_reads_filled(dag, filled, start, l)
}

/// Once every operation ran, the graph's final output slots are filled.
pub open spec fn outputs_filled(dag: &DAGLayerConfig, filled: Set<usize>) -> bool {
    forall|j: int|
        0 <= j < dag.final_out_idxes@.len() ==> filled_after(
            dag,
            filled,
            0,
            dag.ops.len() as int,
        ).contains(#[trigger] dag.final_out_idxes@[j])
}

/// The map after the operations `start..end` ran on it in index order; the
/// first operation that fails decides the error.
pub open spec fn run_range<L: Layer>(
    lib: &L,
    dag: &DAGLayerConfig,
    constants: Map<i64, nat>,
    gadget_config: &L::Config,
    map: Map<usize, TensorView>,
    start: int,
    end: int,
) -> Result<Map<usize, TensorView>, Error>
    decreases end - start,
{
    if start >= end {
        Ok(map)
    } else {
        match run_range(lib, dag, constants, gadget_config, map, start, end - 1) {
            Err(e) => Err(e),
            Ok(m) => step(lib, dag, constants, gadget_config, m, end - 1),
        }
    }
}

/// The cells of the first `n` tensors, one after the other.
pub open spec fn flatten(tensors: Seq<TensorView>, n: nat) -> Seq<nat>
    decreases n,
{
    if n == 0 {
        Seq::empty()
    } else {
        flatten(tensors, (n - 1) as nat) + tensors[n - 1].values
    }
}

/// What running a chunk gives: the tensor map after its operations, and the
/// tensors that its last operation produced.
pub struct ChunkOutput {
    pub tensor_map: Map<usize, TensorView>,
    pub boundary: Seq<TensorView>,
}

/// The outcome of running the chunk `start..end` on a tensor map: an error
/// for a range that is empty, reversed or past the last operation.
pub open spec fn chunk_from<L: Layer>(
    lib: &L,
    dag: &DAGLayerConfig,
    map: Map<usize, TensorView>,
    constants: Map<i64, nat>,
    gadget_config: &L::Config,
    start: int,
    end: int,
) -> Result<ChunkOutput, Error> {
    if start >= end || end > dag.ops.len() {
        Err(Error::Synthesis)
    } else {
        match run_range(lib, dag, constants, gadget_config, map, start, end) {
            Err(e) => Err(e),
            Ok(m) => {
                let last = dag.out_idxes@[end - 1]@;
                Ok(ChunkOutput { tensor_map: m, boundary: gather(m, last, last.len()) })
            },
        }
    }
}

/// The outcome of running the chunk `start..end` on the input tensors, which
/// fill the slots `0..tensors.len()`.
pub open spec fn chunk_spec<L: Layer>(
    lib: &L,
    dag: &DAGLayerConfig,
    tensors: Seq<TensorView>,
    constants: Map<i64, nat>,
    gadget_config: &L::Config,
    start: int,
    end: int,
) -> Result<ChunkOutput, Error> {
    chunk_from(lib, dag, initial_map(tensors), constants, gadget_config, start, end)
}

/// The outcome of running every operation on the input tensors: the tensor
/// map, and the tensors in the graph's final output slots.
pub open spec fn forward_spec<L: Layer>(
    lib: &L,
    dag: &DAGLayerConfig,
    tensors: Seq<TensorView>,
    constants: Map<i64, nat>,
    gadget_config: &L::Config,
) -> Result<ChunkOutput, Error> {
    match run_range(
        lib,
        dag,
        constants,
        gadget_config,
        initial_map(tensors),
        0,
        dag.ops.len() as int,
    ) {
        Err(e) => Err(e),
        Ok(m) => Ok(
            ChunkOutput {
                tensor_map: m,
                boundary: gather(m, dag.final_out_idxes@, dag.final_out_idxes.len() as nat),
            },
        ),
    }
}

/// The commitment to a chunk's boundary: the root of the tree over the cells
/// of its tensors. A boundary without a cell has no root, which is an error.
pub open spec fn boundary_root<H: Commit>(h: H, zero: nat, boundary: Seq<TensorView>) -> Result<
    nat,
    Error,
> {
    let cells = flatten(boundary, boundary.len());
    if cells.len() == 0 {
        Err(Error::Synthesis)
    } else {
        merkle_root(h, zero, cells)
    }
}

/// An executable outcome of a run and the outcome that is named
/// agree.
pub open spec fn output_matches(
    r: Result<(HashMap<usize, Tensor>, Vec<Tensor>), Error>,
    s: Result<ChunkOutput, Error>,
) -> bool {
    match (r, s) {
        (Ok(x), Ok(v)) => {
            &&& map_wf(x.0@)
            &&& map_views(x.0@) == v.tensor_map
            &&& tensors_wf(x.1@)
            &&& tensor_views(x.1@) == v.boundary
        },
        (Err(e), Err(f)) => e == f,
        _ => false,
    }
}

/// Running `start..end` is running `start..mid` and then `mid..end` on the
/// map that the first part left: a run of the whole graph does, operation for
/// operation, what runs over consecutive chunks do.
pub proof fn lemma_run_range_splits<L: Layer>(
    lib: &L,
    dag: &DAGLayerConfig,
    constants: Map<i64, nat>,
    gadget_config: &L::Config,
    map: Map<usize, TensorView>,
    start: int,
    mid: int,
    end: int,
)
    requires
        start <= mid <= end,
    ensures
        run_range(lib, dag, constants, gadget_config, map, start, end) == match run_range(
            lib,
            dag,
            constants,
            gadget_config,
            map,
            start,
            mid,
        ) {
            Err(e) => Err(e),
            Ok(m) => run_range(lib, dag, constants, gadget_config, m, mid, end),
        },
    decreases end - mid,
{
    if mid < end {
        lemma_run_range_splits(lib, dag, constants, gadget_config, map, start, mid, end - 1);
    }
}

/// A chunk run on the map that the chunk before it left gives what one chunk
/// over both ranges gives: the same tensor map and the same boundary.
pub proof fn lemma_chunks_compose<L: Layer>(
    lib: &L,
    dag: &DAGLayerConfig,
    map: Map<usize, TensorView>,
    constants: Map<i64, nat>,
    gadget_config: &L::Config,
    start: int,
    mid: int,
    end: int,
)
    requires
        start < mid < end <= dag.ops.len(),
    ensures
        chunk_from(lib, dag, map, constants, gadget_config, start, end) == match chunk_from(
            lib,
            dag,
            map,
            constants,
            gadget_config,
            start,
            mid,
        ) {
            Err(e) => Err(e),
            Ok(first) => chunk_from(
                lib,
                dag,
                first.tensor_map,
                constants,
                gadget_config,
                mid,
                end,
            ),
        },
{
    lemma_run_range_splits(lib, dag, constants, gadget_config, map, start, mid, end);
}

/// Storing the first `n` outputs fills their slots and no other.
pub proof fn lemma_store_fills(
    map: Map<usize, TensorView>,
    idxes: Seq<usize>,
    outputs: Seq<TensorView>,
    n: nat,
)
    requires
        n <= idxes.len(),
    ensures
        store(map, idxes, outputs, n).dom() == map.dom().union(idxes.take(n as int).to_set()),
    decreases n,
{
    if n == 0 {
        assert(map.dom().union(idxes.take(0).to_set()) =~= map.dom());
    } else {
        lemma_store_fills(map, idxes, outputs, (n - 1) as nat);
        let slot = idxes[n - 1];
        assert(idxes.take(n as int) =~= idxes.take(n - 1).push(slot));
        idxes.take(n - 1).lemma_push_to_set_commute(slot);
        assert(store(map, idxes, outputs, n).dom() =~= map.dom().union(
            idxes.take(n as int).to_set(),
        ));
    }
}

/// A run that succeeds fills the output slots of its operations and no
/// other: the filled slots do not depend on what the operators compute.
pub proof fn lemma_run_fills<L: Layer>(
    lib: &L,
    dag: &DAGLayerConfig,
    constants: Map<i64, nat>,
    gadget_config: &L::Config,
    map: Map<usize, TensorView>,
    start: int,
    end: int,
)
    requires
        run_range(lib, dag, constants, gadget_config, map, start, end) is Ok,
    ensures
        run_range(lib, dag, constants, gadget_config, map, start, end).unwrap().dom()
            == filled_after(dag, map.dom(), start, end),
    decreases end - start,
{
    if start < end {
        lemma_run_fills(lib, dag, constants, gadget_config, map, start, end - 1);
        let before = run_range(lib, dag, constants, gadget_config, map, start, end - 1).unwrap();
        let out = dag.out_idxes@[end - 1]@;
        let inp = dag.inp_idxes@[end - 1]@;
        let outputs = lib.forward_spec(
            gather(before, inp, inp.len()),
            constants,
            gadget_config,
            &dag.ops@[end - 1],
        ).unwrap();
        lemma_store_fills(before, out, outputs, out.len());
        assert(out.take(out.len() as int) =~= out);
    }
}

/// The slots filled after `start..upto` are those filled after `mid..upto`
/// on what `start..mid` filled.
pub proof fn lemma_filled_after_splits(
    dag: &DAGLayerConfig,
    filled: Set<usize>,
    start: int,
    mid: int,
    upto: int,
)
    requires
        start <= mid <= upto,
    ensures
        filled_after(dag, filled_after(dag, filled, start, mid), mid, upto) == filled_after(
            dag,
            filled,
            start,
            upto,
        ),
    decreases upto - mid,
{
    if mid < upto {
        lemma_filled_after_splits(dag, filled, start, mid, upto - 1);
    }
}

/// A range of operations that is in order stays so when it is cut in two:
/// the first part is in order for the same map, and the second for the map that
/// the first part leaves.
pub proof fn lemma_reads_filled_splits(
    dag: &DAGLayerConfig,
    filled: Set<usize>,
    start: int,
    mid: int,
    end: int,
)
    requires
        start <= mid <= end <= dag.ops.len(),
        reads_filled(dag, filled, start, end),
    ensures
        reads_filled(dag, filled, start, mid),
        reads_filled(dag, filled_after(dag, filled, start, mid), mid, end),
{
    let later = filled_after(dag, filled, start, mid);
    assert forall|l: int| start <= l < mid implies #[trigger] op_reads_filled(
        dag,
        filled,
        start,
        l,
    ) by {}
    assert forall|l: int| mid <= l < end implies #[trigger] op_reads_filled(dag, later, mid, l) by {
        assert(op_reads_filled(dag, filled, start, l));
        lemma_filled_after_splits(dag, filled, start, mid, l);
    }
}

/// Runs the operations of a graph.
pub struct DAGLayerChip {
    dag_config: DAGLayerConfig,
}

impl DAGLayerChip {
    /// The graph that the chip runs.
    pub closed spec fn config(&self) -> DAGLayerConfig {
        self.dag_config
    }

    /// A chip that runs `dag_config`.
    pub fn construct(dag_config: DAGLayerConfig) -> (r: Self)
        ensures
            r.config() == dag_config,
    {
        DAGLayerChip { dag_config }
    }

    /// The map that holds input `i` in slot `i`.
    pub fn load_inputs(tensors: &Vec<Tensor>) -> (map: HashMap<usize, Tensor>)
        requires
            tensors_wf(tensors@),
        ensures
            map_wf(map@),
            map_views(map@) == initial_map(tensor_views(tensors@)),
    {
        let mut map: HashMap<usize, Tensor> = HashMap::new();
        let mut idx: usize = 0;
        while idx < tensors.len()
            invariant
                idx <= tensors.len(),
                tensors_wf(tensors@),
                map_wf(map@),
                forall|k: usize| map@.contains_key(k) <==> k < idx,
                forall|k: usize| k < idx ==> (#[trigger] map@[k])@ == tensors@[k as int]@,
            decreases tensors.len() - idx,
        {
            let t = tensors[idx].clone();
            map.insert(idx, t);
            idx += 1;
        }
        proof {
            let views = tensor_views(tensors@);
            assert(map_views(map@) =~= initial_map(views)) by {
                assert forall|k: usize| map_views(map@).contains_key(k) implies map_views(
                    map@,
                )[k] == initial_map(views)[k] by {
                    assert(views[k as int] == tensors@[k as int]@);
                }
            }
        }
        map
    }

    /// Walks the operations `start..end` without running them, and says
    /// whether each reads only filled slots; with it, the slots that they fill.
    fn scan_reads(&self, tensor_map: &HashMap<usize, Tensor>, start: usize, end: usize) -> (r: (
        bool,
        HashSet<usize>,
    ))
        requires
            self.config().wf(),
            start <= end <= self.config().ops.len(),
        ensures
            r.0 == reads_filled(&self.config(), tensor_map@.dom(), start as int, end as int),
            tensor_map@.dom().union(r.1@) == filled_after(
                &self.config(),
                tensor_map@.dom(),
                start as int,
                end as int,
            ),
    {
        let ghost dag = self.config();
        let ghost filled = tensor_map@.dom();
        let mut produced: HashSet<usize> = HashSet::new();
        let mut in_order = true;
        let mut l: usize = start;
        assert(filled.union(produced@) =~= filled);
        while l < end
            invariant
                start <= l <= end <= self.dag_config.ops.len(),
                dag == self.config(),
                dag.wf(),
                filled == tensor_map@.dom(),
                in_order == (forall|i: int|
                    start <= i < l ==> #[trigger] op_reads_filled(&dag, filled, start as int, i)),
                filled.union(produced@) == filled_after(&dag, filled, start as int, l as int),
            decreases end - l,
        {
            let inp_idxes = &self.dag_config.inp_idxes[l];
            let out_idxes = &self.dag_config.out_idxes[l];
            let ghost now = filled.union(produced@);
            let mut reads = true;
            let mut j: usize = 0;
            while j < inp_idxes.len()
                invariant
                    j <= inp_idxes.len(),
                    filled == tensor_map@.dom(),
                    now == filled.union(produced@),
                    reads == (forall|k: int| 0 <= k < j ==> now.contains(#[trigger] inp_idxes@[k])),
                decreases inp_idxes.len() - j,
            {
                let idx = inp_idxes[j];
                if !tensor_map.contains_key(&idx) && !produced.contains(&idx) {
                    reads = false;
                }
                j += 1;
            }
            assert(reads == op_reads_filled(&dag, filled, start as int, l as int));
            if !reads {
                in_order = false;
            }
            let ghost before = produced@;
            let mut k: usize = 0;
            assert(before.union(out_idxes@.take(0).to_set()) =~= before);
            while k < out_idxes.len()
                invariant
                    k <= out_idxes.len(),
                    produced@ == before.union(out_idxes@.take(k as int).to_set()),
                decreases out_idxes.len() - k,
            {
                produced.insert(out_idxes[k]);
                proof {
                    let slot = out_idxes@[k as int];
                    assert(out_idxes@.take(k + 1) =~= out_idxes@.take(k as int).push(slot));
                    out_idxes@.take(k as int).lemma_push_to_set_commute(slot);
                    assert(produced@ =~= before.union(out_idxes@.take(k + 1).to_set()));
                }
                k += 1;
            }
            proof {
                assert(out_idxes@.take(out_idxes@.len() as int) =~= out_idxes@);
                assert(filled.union(produced@) =~= now.union(out_idxes@.to_set()));
            }
            l += 1;
        }
        (in_order, produced)
    }

    /// Whether the operations `start_idx..end_idx` are in order for the map:
    /// each reads only slots that the map holds or that an earlier operation of
    /// the range fills. No operation runs.
    pub fn reads_filled_slots(
        &self,
        tensor_map: &HashMap<usize, Tensor>,
        start_idx: usize,
        end_idx: usize,
    ) -> (r: bool)
        requires
            self.config().wf(),
        ensures
            r == reads_filled(
                &self.config(),
                tensor_map@.dom(),
                start_idx as int,
                end_idx as int,
            ),
    {
        if end_idx > self.dag_config.ops.len() || start_idx >= end_idx {
            return true;
        }
        let scanned = self.scan_reads(tensor_map, start_idx, end_idx);
        scanned.0
    }

    /// Whether the graph's final output slots are filled once every operation
    /// ran on the map. No operation runs.
    pub fn fills_final_slots(&self, tensor_map: &HashMap<usize, Tensor>) -> (r: bool)
        requires
            self.config().wf(),
        ensures
            r == outputs_filled(&self.config(), tensor_map@.dom()),
    {
        let scanned = self.scan_reads(tensor_map, 0, self.dag_config.ops.len());
        let produced = scanned.1;
        let ghost at_end = tensor_map@.dom().union(produced@);
        let finals = &self.dag_config.final_out_idxes;
        let mut filled = true;
        let mut j: usize = 0;
        while j < finals.len()
            invariant
                j <= finals.len(),
                at_end == tensor_map@.dom().union(produced@),
                filled == (forall|k: int| 0 <= k < j ==> at_end.contains(#[trigger] finals@[k])),
            decreases finals.len() - j,
        {
            let idx = finals[j];
            if !tensor_map.contains_key(&idx) && !produced.contains(&idx) {
                filled = false;
            }
            j += 1;
        }
        filled
    }

    /// Copies out the tensors in the slots `idxes`, all of which are filled.
    fn gather_slots(map: &HashMap<usize, Tensor>, idxes: &Vec<usize>) -> (out: Vec<Tensor>)
        requires
            map_wf(map@),
            forall|j: int| 0 <= j < idxes@.len() ==> map@.contains_key(#[trigger] idxes@[j]),
        ensures
            tensors_wf(out@),
            tensor_views(out@) == gather(map_views(map@), idxes@, idxes@.len()),
    {
        let ghost views = map_views(map@);
        let mut out: Vec<Tensor> = Vec::new();
        let mut i: usize = 0;
        assert(tensor_views(out@) =~= gather(views, idxes@, 0));
        while i < idxes.len()
            invariant
                i <= idxes.len(),
                views == map_views(map@),
                map_wf(map@),
                forall|j: int| 0 <= j < idxes@.len() ==> map@.contains_key(#[trigger] idxes@[j]),
                tensors_wf(out@),
                tensor_views(out@) == gather(views, idxes@, i as nat),
            decreases idxes.len() - i,
        {
            let ghost before = tensor_views(out@);
            let found = map.get(&idxes[i]);
            assert(map@.contains_key(idxes@[i as int]));
            let c = found.unwrap().clone();
            out.push(c);
            assert(tensor_views(out@) =~= before.push(views[idxes@[i as int]]));
            assert(before.push(views[idxes@[i as int]]) =~= gather(views, idxes@, (i + 1) as nat));
            i += 1;
        }
        out
    }

    /// Runs the operations `start..end` on the map, in index order.
    fn run_ops<L: Layer>(
        &self,
        lib: &L,
        map: HashMap<usize, Tensor>,
        constants: &HashMap<i64, Fr>,
        gadget_config: &L::Config,
        start: usize,
        end: usize,
    ) -> (r: Result<HashMap<usize, Tensor>, Error>)
        requires
            self.config().wf(),
            map_wf(map@),
            constants_wf(constants@),
            start <= end <= self.config().ops.len(),
            reads_filled(&self.config(), map@.dom(), start as int, end as int),
        ensures
            match run_range(
                lib,
                &self.config(),
                constant_values(constants@),
                gadget_config,
                map_views(map@),
                start as int,
                end as int,
            ) {
                Ok(m) => r is Ok && map_wf(r.unwrap()@) && map_views(r.unwrap()@) == m,
                Err(e) => r is Err && r.unwrap_err() == e,
            },
            r is Ok ==> r.unwrap()@.dom() == filled_after(
                &self.config(),
                map@.dom(),
                start as int,
                end as int,
            ),
    {
        let ghost dag = self.config();
        let ghost consts = constant_values(constants@);
        let ghost first = map_views(map@);
        let ghost filled = map@.dom();
        let mut tensor_map = map;
        let mut layer_idx: usize = start;
        while layer_idx < end
            invariant
                start <= layer_idx <= end,
                end <= self.dag_config.ops.len(),
                dag == self.config(),
                dag.wf(),
                consts == constant_values(constants@),
                first == map_views(map@),
                filled == map@.dom(),
                reads_filled(&dag, filled, start as int, end as int),
                constants_wf(constants@),
                map_wf(tensor_map@),
                tensor_map@.dom() == filled_after(&dag, filled, start as int, layer_idx as int),
                run_range(lib, &dag, consts, gadget_config, first, start as int, layer_idx as int)
                    == Ok::<Map<usize, TensorView>, Error>(map_views(tensor_map@)),
            decreases end - layer_idx,
        {
            let layer_config = &self.dag_config.ops[layer_idx];
            let inp_idxes = &self.dag_config.inp_idxes[layer_idx];
            let out_idxes = &self.dag_config.out_idxes[layer_idx];
            let ghost before = map_views(tensor_map@);
            let ghost slots = tensor_map@.dom();
            assert(op_reads_filled(&dag, filled, start as int, layer_idx as int));
            let vec_inps = Self::gather_slots(&tensor_map, inp_idxes);
            let out = match lib.forward(&vec_inps, constants, gadget_config, layer_config) {
                Ok(v) => v,
                Err(e) => {
                    proof {
                        lemma_run_range_error(
                            lib,
                            &dag,
                            consts,
                            gadget_config,
                            first,
                            start as int,
                            layer_idx + 1,
                            end as int,
                        );
                    }
                    return Err(e);
                },
            };
            if out.len() < out_idxes.len() {
                proof {
                    lemma_run_range_error(
                        lib,
                        &dag,
                        consts,
                        gadget_config,
                        first,
                        start as int,
                        layer_idx + 1,
                        end as int,
                    );
                }
                return Err(Error::MissingOutput);
            }
            let ghost outputs = tensor_views(out@);
            let mut idx: usize = 0;
            assert(slots.union(out_idxes@.take(0).to_set()) =~= slots);
            while idx < out_idxes.len()
                invariant
                    idx <= out_idxes.len(),
                    out_idxes.len() <= out.len(),
                    outputs == tensor_views(out@),
                    tensors_wf(out@),
                    map_wf(tensor_map@),
                    map_views(tensor_map@) == store(before, out_idxes@, outputs, idx as nat),
                    tensor_map@.dom() == slots.union(out_idxes@.take(idx as int).to_set()),
                decreases out_idxes.len() - idx,
            {
                let ghost prev = map_views(tensor_map@);
                let t = out[idx].clone();
                tensor_map.insert(out_idxes[idx], t);
                assert(map_views(tensor_map@) =~= prev.insert(
                    out_idxes@[idx as int],
                    outputs[idx as int],
                ));
                proof {
                    let slot = out_idxes@[idx as int];
                    assert(out_idxes@.take(idx + 1) =~= out_idxes@.take(idx as int).push(slot));
                    out_idxes@.take(idx as int).lemma_push_to_set_commute(slot);
                    assert(tensor_map@.dom() =~= slots.union(
                        out_idxes@.take(idx + 1).to_set(),
                    ));
                }
                idx += 1;
            }
            assert(out_idxes@.take(out_idxes@.len() as int) =~= out_idxes@);
            layer_idx += 1;
        }
        Ok(tensor_map)
    }

    /// Runs every operation of the graph on the input tensors, which fill the
    /// slots `0..tensors.len()`, and returns the tensor map together with the
    /// tensors in the graph's final output slots. The operations are in
    /// topological order: none reads a slot before it is filled.
    pub fn forward<L: Layer>(
        &self,
        lib: &L,
        tensors: &Vec<Tensor>,
        constants: &HashMap<i64, Fr>,
        gadget_config: &L::Config,
    ) -> (r: Result<(HashMap<usize, Tensor>, Vec<Tensor>), Error>)
        requires
            self.config().wf(),
            tensors_wf(tensors@),
            constants_wf(constants@),
            reads_filled(
                &self.config(),
                initial_map(tensor_views(tensors@)).dom(),
                0,
                self.config().ops.len() as int,
            ),
            outputs_filled(&self.config(), initial_map(tensor_views(tensors@)).dom()),
        ensures
            output_matches(
                r,
                forward_spec(
                    lib,
                    &self.config(),
                    tensor_views(tensors@),
                    constant_values(constants@),
                    gadget_config,
                ),
            ),
    {
        let tensor_map = Self::load_inputs(tensors);
        assert(tensor_map@.dom() =~= map_views(tensor_map@).dom());
        let n = self.dag_config.ops.len();
        let tensor_map = match self.run_ops(lib, tensor_map, constants, gadget_config, 0, n) {
            Ok(m) => m,
            Err(e) => {
                return Err(e);
            },
        };
        let final_out = Self::gather_slots(&tensor_map, &self.dag_config.final_out_idxes);
        Ok((tensor_map, final_out))
    }

    /// Runs the operations `start_idx..end_idx` on a tensor map, such as an
    /// earlier chunk left, and returns the map together with the tensors that the
    /// last of them produced. A range that is empty, reversed or past the last
    /// operation is an error, and no operation runs. The operations of the range
    /// read only slots that are filled when their turn comes.
    pub fn forward_chunk_from<L: Layer>(
        &self,
        lib: &L,
        tensor_map: HashMap<usize, Tensor>,
        constants: &HashMap<i64, Fr>,
        gadget_config: &L::Config,
        start_idx: usize,
        end_idx: usize,
    ) -> (r: Result<(HashMap<usize, Tensor>, Vec<Tensor>), Error>)
        requires
            self.config().wf(),
            map_wf(tensor_map@),
            constants_wf(constants@),
            reads_filled(&self.config(), tensor_map@.dom(), start_idx as int, end_idx as int),
        ensures
            output_matches(
                r,
                chunk_from(
                    lib,
                    &self.config(),
                    map_views(tensor_map@),
                    constant_values(constants@),
                    gadget_config,
                    start_idx as int,
                    end_idx as int,
                ),
            ),
            start_idx >= end_idx || end_idx > self.config().ops.len() ==> r is Err
                && r.unwrap_err() == Error::Synthesis,
    {
        if start_idx >= end_idx || end_idx > self.dag_config.ops.len() {
            return Err(Error::Synthesis);
        }
        let tensor_map = match self.run_ops(
            lib,
            tensor_map,
            constants,
            gadget_config,
            start_idx,
            end_idx,
        ) {
            Ok(m) => m,
            Err(e) => {
                return Err(e);
            },
        };
        let out_idxes = &self.dag_config.out_idxes[end_idx - 1];
        assert forall|j: int| 0 <= j < out_idxes@.len() implies tensor_map@.contains_key(
            #[trigger] out_idxes@[j],
        ) by {
            assert(out_idxes@.to_set().contains(out_idxes@[j]));
        }
        let intermediate_tensors = Self::gather_slots(&tensor_map, out_idxes);
        Ok((tensor_map, intermediate_tensors))
    }

    /// Runs the operations `start_idx..end_idx` on the input tensors, which fill
    /// the slots `0..tensors.len()`, and returns the tensor map together with the
    /// tensors that the last of them produced. A range that is empty, reversed or
    /// past the last operation is an error, and no operation runs.
    pub fn forward_chunk<L: Layer>(
        &self,
        lib: &L,
        tensors: &Vec<Tensor>,
        constants: &HashMap<i64, Fr>,
        gadget_config: &L::Config,
        start_idx: usize,
        end_idx: usize,
    ) -> (r: Result<(HashMap<usize, Tensor>, Vec<Tensor>), Error>)
        requires
            self.config().wf(),
            tensors_wf(tensors@),
            constants_wf(constants@),
            reads_filled(
                &self.config(),
                initial_map(tensor_views(tensors@)).dom(),
                start_idx as int,
                end_idx as int,
            ),
        ensures
            output_matches(
                r,
                chunk_spec(
                    lib,
                    &self.config(),
                    tensor_views(tensors@),
                    constant_values(constants@),
                    gadget_config,
                    start_idx as int,
                    end_idx as int,
                ),
            ),
            start_idx >= end_idx || end_idx > self.config().ops.len() ==> r is Err
                && r.unwrap_err() == Error::Synthesis,
    {
        let tensor_map = Self::load_inputs(tensors);
        assert(tensor_map@.dom() =~= map_views(tensor_map@).dom());
        self.forward_chunk_from(lib, tensor_map, constants, gadget_config, start_idx, end_idx)
    }

    /// Runs the chunk `start_idx..end_idx` as `forward_chunk` does and commits to
    /// its boundary: the root of the hash tree over the cells of the boundary
    /// tensors. A boundary without a cell has no root, which is an error; where
    /// there are cells, the tree is built with the zero constant.
    pub fn forward_chunk_with_merkle<L: Layer, H: Commit>(
        &self,
        lib: &L,
        tensors: &Vec<Tensor>,
        constants: &HashMap<i64, Fr>,
        gadget_config: &L::Config,
        start_idx: usize,
        end_idx: usize,
        merkle_chip: &MerkleTreeChip<H>,
    ) -> (r: Result<(HashMap<usize, Tensor>, Vec<Tensor>, Fr), Error>)
        requires
            self.config().wf(),
            tensors_wf(tensors@),
            constants_wf(constants@),
            reads_filled(
                &self.config(),
                initial_map(tensor_views(tensors@)).dom(),
                start_idx as int,
                end_idx as int,
            ),
            match chunk_spec(
                lib,
                &self.config(),
                tensor_views(tensors@),
                constant_values(constants@),
                gadget_config,
                start_idx as int,
                end_idx as int,
            ) {
                Ok(out) => flatten(out.boundary, out.boundary.len()).len() > 0
                    ==> constants@.contains_key(0),
                Err(_) => true,
            },
        ensures
            match chunk_spec(
                lib,
                &self.config(),
                tensor_views(tensors@),
                constant_values(constants@),
                gadget_config,
                start_idx as int,
                end_idx as int,
            ) {
                Err(e) => r is Err && r.unwrap_err() == e,
                Ok(out) => match boundary_root(
                    merkle_chip.hasher(),
                    constants@[0]@,
                    out.boundary,
                ) {
                    Err(e) => r is Err && r.unwrap_err() == e,
                    Ok(root) => {
                        &&& r is Ok
                        &&& map_wf(r.unwrap().0@)
                        &&& map_views(r.unwrap().0@) == out.tensor_map
                        &&& tensors_wf(r.unwrap().1@)
                        &&& tensor_views(r.unwrap().1@) == out.boundary
                        &&& r.unwrap().2.wf()
                        &&& r.unwrap().2@ == root
                    },
                },
            },
    {
        let (tensor_map, intermediate_tensors) = match self.forward_chunk(
            lib,
            tensors,
            constants,
            gadget_config,
            start_idx,
            end_idx,
        ) {
            Ok(x) => x,
            Err(e) => {
                return Err(e);
            },
        };
        let ghost boundary = tensor_views(intermediate_tensors@);
        let mut intermediate_cells: Vec<Fr> = Vec::new();
        let mut i: usize = 0;
        assert(values_of(intermediate_cells@) =~= Seq::<nat>::empty());
        while i < intermediate_tensors.len()
            invariant
                i <= intermediate_tensors.len(),
                boundary == tensor_views(intermediate_tensors@),
                tensors_wf(intermediate_tensors@),
                all_wf(intermediate_cells@),
                values_of(intermediate_cells@) == flatten(boundary, i as nat),
            decreases intermediate_tensors.len() - i,
        {
            let tensor = &intermediate_tensors[i];
            assert(tensor.wf());
            assert(boundary[i as int] == tensor@);
            let ghost done = values_of(intermediate_cells@);
            let mut j: usize = 0;
            while j < tensor.cells.len()
                invariant
                    j <= tensor.cells.len(),
                    tensor.wf(),
                    all_wf(intermediate_cells@),
                    values_of(intermediate_cells@) == done + values_of(tensor.cells@).take(
                        j as int,
                    ),
                decreases tensor.cells.len() - j,
            {
                let ghost before = values_of(intermediate_cells@);
                intermediate_cells.push(tensor.cells[j]);
                assert(values_of(intermediate_cells@) =~= before.push(tensor.cells@[j as int]@));
                assert(values_of(tensor.cells@).take(j + 1) =~= values_of(tensor.cells@).take(
                    j as int,
                ).push(tensor.cells@[j as int]@));
                assert(done + values_of(tensor.cells@).take(j + 1) =~= (done + values_of(
                    tensor.cells@,
                ).take(j as int)).push(tensor.cells@[j as int]@));
                j += 1;
            }
            assert(values_of(tensor.cells@).take(tensor.cells@.len() as int) =~= values_of(
                tensor.cells@,
            ));
            i += 1;
        }
        if intermediate_cells.len() == 0 {
            return Err(Error::Synthesis);
        }
        match merkle_chip.build_binary_tree(constants, &intermediate_cells) {
            Ok(root) => Ok((tensor_map, intermediate_tensors, root)),
            Err(e) => Err(e),
        }
    }
}

/// An operation that fails stops the run: the error of `start..k` is the
/// error of any longer range.
pub proof fn lemma_run_range_error<L: Layer>(
    lib: &L,
    dag: &DAGLayerConfig,
    constants: Map<i64, nat>,
    gadget_config: &L::Config,
    map: Map<usize, TensorView>,
    start: int,
    k: int,
    end: int,
)
    requires
        start <= k <= end,
        run_range(lib, dag, constants, gadget_config, map, start, k) is Err,
    ensures
        run_range(lib, dag, constants, gadget_config, map, start, end) == run_range(
            lib,
            dag,
            constants,
            gadget_config,
            map,
            start,
            k,
        ),
    decreases end - k,
{
    if k < end {
        lemma_run_range_error(lib, dag, constants, gadget_config, map, start, k, end - 1);
    }
}

} // verus!
