//! The orchestration of a chunk proof: how a circuit is set up for a range of
//! operations, in which order its public values stand, how they are written as
//! bytes, and which step of key generation, proving and checking follows which
//! outcome. The proof system itself is outside this library: the caller carries
//! out each step and reports how it ended.

use crate::circuit::Error;
use crate::field::{all_wf, fr_modulus, le_value, values_of, Fr};
use vstd::prelude::*;
use vstd::slice::slice_subrange;
use vstd::string::StringSliceAdditionalSpecFns;

verus! {

/// What proving a chunk yields.
#[derive(Debug)]
pub struct ChunkProofResult {
    /// The proof.
    pub proof: Vec<u8>,
    /// The public values that the proof was made over, in their order.
    pub public_vals: Vec<Fr>,
    /// The commitment to the chunk's boundary: the last public value where a
    /// commitment was asked for.
    pub merkle_root: Option<Fr>,
    /// How long proving took, in milliseconds.
    pub proving_time_ms: u128,
    /// How long checking the proof took, in milliseconds.
    pub verify_time_ms: u128,
}

/// The range of operations that a circuit is restricted to.
#[derive(Clone, Copy, Debug, PartialEq, Eq, Structural)]
pub struct ChunkConfig {
    pub chunk_start: usize,
    pub chunk_end: usize,
    pub use_merkle: bool,
}

/// What the orchestration reads and sets of a model's circuit.
#[derive(Debug)]
pub struct ModelCircuit {
    /// The circuit has `2^k` rows.
    pub k: usize,
    /// The tensor slots committed to before the operations run.
    pub commit_before: Vec<Vec<i64>>,
    /// The tensor slots committed to after the operations ran.
    pub commit_after: Vec<Vec<i64>>,
    /// The chunk that the circuit is restricted to, if any.
    pub chunk: Option<ChunkConfig>,
    /// The commitment of the chunk before, if this chunk is chained to one.
    pub prev_merkle_root: Option<Fr>,
}

impl ModelCircuit {
    /// Restricts the circuit to the operations `chunk_start..chunk_end`.
    pub fn set_chunk_config(&mut self, chunk_start: usize, chunk_end: usize, use_merkle: bool)
        ensures
            final(self).chunk == Some(ChunkConfig { chunk_start, chunk_end, use_merkle }),
            final(self).k == old(self).k,
            final(self).commit_before == old(self).commit_before,
            final(self).commit_after == old(self).commit_after,
            final(self).prev_merkle_root == old(self).prev_merkle_root,
    {
        self.chunk = Some(ChunkConfig { chunk_start, chunk_end, use_merkle });
    }

    /// Chains the circuit to the chunk before by that chunk's commitment.
    pub fn set_prev_merkle_root(&mut self, root: Fr)
        ensures
            final(self).prev_merkle_root == Some(root),
            final(self).k == old(self).k,
            final(self).commit_before == old(self).commit_before,
            final(self).commit_after == old(self).commit_after,
            final(self).chunk == old(self).chunk,
    {
        self.prev_merkle_root = Some(root);
    }
}

/// The range is not empty, not reversed and within the operations.
pub open spec fn valid_range(chunk_start: int, chunk_end: int, num_layers: int) -> bool {
    chunk_start < chunk_end && chunk_end <= num_layers
}

/// A commitment is switched on for the chunk: one is asked for, the circuit
/// commits to nothing yet, and the chunk's last operation has outputs.
pub open spec fn commits_to_last_layer(
    circuit: ModelCircuit,
    layer_out_idxes: Seq<Vec<i64>>,
    chunk_end: int,
    use_merkle: bool,
) -> bool {
    &&& use_merkle
    &&& circuit.commit_after.len() == 0
    &&& circuit.commit_before.len() == 0
    &&& 0 < chunk_end <= layer_out_idxes.len()
    &&& layer_out_idxes[chunk_end - 1].len() > 0
}

/// The degree that keys are generated for: `k` as a 32-bit number.
pub open spec fn degree_of(k: nat) -> nat {
    k % 0x1_0000_0000
}

/// The degree that keys and parameters are generated for, for a circuit of
/// `2^k` rows.
pub fn degree(k: usize) -> (r: u32)
    ensures
        r == degree_of(k as nat),
{
    ((k as u64) % 0x1_0000_0000u64) as u32
}

/// What setting a circuit up for the chunk `chunk_start..chunk_end` changes:
/// the chunk and, where one is given, the earlier chunk's root are recorded;
/// where a commitment is asked for and the circuit commits to nothing yet, it
/// commits to the outputs of the chunk's last operation; the rest stays.
pub open spec fn configured(
    before: ModelCircuit,
    after: ModelCircuit,
    layer_out_idxes: Seq<Vec<i64>>,
    chunk_start: usize,
    chunk_end: usize,
    use_merkle: bool,
    prev_merkle_root: Option<Fr>,
) -> bool {
    &&& after.k == before.k
    &&& after.commit_before == before.commit_before
    &&& after.chunk == Some(ChunkConfig { chunk_start, chunk_end, use_merkle })
    &&& after.prev_merkle_root == match prev_merkle_root {
        Some(root) => Some(root),
        None => before.prev_merkle_root,
    }
    &&& if commits_to_last_layer(before, layer_out_idxes, chunk_end as int, use_merkle) {
        after.commit_after@.len() == 1 && after.commit_after@[0]@ == layer_out_idxes[chunk_end
            - 1]@
    } else {
        after.commit_after == before.commit_after
    }
}

/// The name of the file that holds the parameters for a degree:
/// the directory, a slash, the degree in decimal, and `.params`.
pub open spec fn params_file(params_dir: Seq<char>, degree: nat) -> Seq<char> {
    params_dir + seq!['/'] + decimal(degree) + seq!['.', 'p', 'a', 'r', 'a', 'm', 's']
}

/// The digit `d` as a character.
pub open spec fn digit_char(d: nat) -> char {
    if d == 0 {
        '0'
    } else if d == 1 {
        '1'
    } else if d == 2 {
        '2'
    } else if d == 3 {
        '3'
    } else if d == 4 {
        '4'
    } else if d == 5 {
        '5'
    } else if d == 6 {
        '6'
    } else if d == 7 {
        '7'
    } else if d == 8 {
        '8'
    } else {
        '9'
    }
}

/// A number in decimal, without leading zeros.
pub open spec fn decimal(n: nat) -> Seq<char>
    decreases n,
{
    if n < 10 {
        seq![digit_char(n)]
    } else {
        decimal(n / 10).push(digit_char(n % 10))
    }
}

/// Calls `format!` of std on a string and a `u32`, whose `Display` writes the
/// number in decimal: the directory, a slash, the degree and `.params`.
#[verifier::external_body]
fn format_params_path(params_dir: &str, degree: u32) -> (path: String)
    ensures
        path@ == params_file(params_dir@, degree as nat),
{
    format!("{}/{}.params", params_dir, degree)
}

/// The name of the file that holds the parameters for a degree.
pub fn params_path(params_dir: &str, degree: u32) -> (path: String)
    ensures
        path@ == params_file(params_dir@, degree as nat),
{
    format_params_path(params_dir, degree)
}

/// The value of a hexadecimal digit, in either case.
pub open spec fn hex_value(c: u8) -> Option<nat> {
    if 0x30 <= c <= 0x39 {
        Some((c - 0x30) as nat)
    } else if 0x61 <= c <= 0x66 {
        Some((c - 0x61 + 10) as nat)
    } else if 0x41 <= c <= 0x46 {
        Some((c - 0x41 + 10) as nat)
    } else {
        None
    }
}

/// The bytes that a hexadecimal text denotes, two digits to a byte, the high
/// digit first; none for a text of odd length or with another character.
pub open spec fn hex_decoding(text: Seq<u8>) -> Option<Seq<u8>>
    decreases text.len(),
{
    if text.len() == 0 {
        Some(Seq::empty())
    } else if text.len() == 1 {
        None
    } else {
        match (hex_value(text[0]), hex_value(text[1]), hex_decoding(text.skip(2))) {
            (Some(high), Some(low), Some(rest)) => Some(seq![(16 * high + low) as u8] + rest),
            _ => None,
        }
    }
}

/// The lower-case hexadecimal digit of a value below 16.
pub open spec fn hex_char(d: nat) -> char {
    if d < 10 {
        digit_char(d)
    } else if d == 10 {
        'a'
    } else if d == 11 {
        'b'
    } else if d == 12 {
        'c'
    } else if d == 13 {
        'd'
    } else if d == 14 {
        'e'
    } else {
        'f'
    }
}

/// Bytes as hexadecimal text: two lower-case digits to a byte, the high digit
/// first.
pub open spec fn hex_encoding(bytes: Seq<u8>) -> Seq<char>
    decreases bytes.len(),
{
    if bytes.len() == 0 {
        Seq::empty()
    } else {
        seq![hex_char(bytes[0] as nat / 16), hex_char(bytes[0] as nat % 16)] + hex_encoding(
            bytes.skip(1),
        )
    }
}

/// Calls `hex::decode`: the bytes that the text denotes, or nothing where the
/// text has an odd length or a character that is no hexadecimal digit.
#[verifier::external_body]
fn hex_decode(text: &[u8]) -> (r: Option<Vec<u8>>)
    ensures
        r is Some <==> hex_decoding(text@) is Some,
        r is Some ==> r.unwrap()@ == hex_decoding(text@).unwrap(),
{
    hex::decode(text).ok()
}

/// Calls `hex::encode`, and `format!` of std to put `0x` in front: the bytes
/// as lower-case hexadecimal text.
#[verifier::external_body]
fn hex_encode_prefixed(bytes: &[u8; 32]) -> (r: String)
    ensures
        r@ == seq!['0', 'x'] + hex_encoding(bytes@),
{
    format!("0x{}", hex::encode(bytes))
}

/// The text without a leading `0x`.
pub open spec fn without_prefix(text: Seq<u8>) -> Seq<u8> {
    if text.len() >= 2 && text[0] == 0x30 && text[1] == 0x78 {
        text.skip(2)
    } else {
        text
    }
}

/// The element that a hexadecimal text denotes: after an optional `0x`, 64
/// digits that give the 32 bytes of a canonical encoding.
pub open spec fn hex_element(text: Seq<u8>) -> Option<Seq<u8>> {
    let body = without_prefix(text);
    if body.len() != 64 {
        None
    } else {
        match hex_decoding(body) {
            Some(bytes) => if bytes.len() == 32 && le_value(bytes) < fr_modulus() {
                Some(bytes)
            } else {
                None
            },
            None => None,
        }
    }
}

/// Reads a field element from hexadecimal text: an optional `0x`, then 64
/// hexadecimal digits, the little-endian bytes of a number below the modulus.
pub fn hex_to_fr(hex: &str) -> (r: Option<Fr>)
    ensures
        r is Some <==> hex_element(hex.spec_bytes()) is Some,
        r is Some ==> r.unwrap().wf() && r.unwrap().bytes() == hex_element(
            hex.spec_bytes(),
        ).unwrap(),
{
    let text = hex.as_bytes();
    let body = if text.len() >= 2 && text[0] == 0x30 && text[1] == 0x78 {
        slice_subrange(text, 2, text.len())
    } else {
        text
    };
    assert(body@ =~= without_prefix(text@));
    if body.len() != 64 {
        return None;
    }
    let bytes = match hex_decode(body) {
        Some(b) => b,
        None => {
            return None;
        },
    };
    if bytes.len() != 32 {
        return None;
    }
    let mut repr = [0u8;32];
    let mut j: usize = 0;
    while j < 32
        invariant
            j <= 32,
            bytes.len() == 32,
            forall|t: int| 0 <= t < j ==> repr@[t] == bytes@[t],
        decreases 32 - j,
    {
        repr[j] = bytes[j];
        j += 1;
    }
    assert(repr@ =~= bytes@);
    Fr::from_repr(repr)
}

/// Writes a field element as hexadecimal text: `0x`, then the 32 bytes of its
/// little-endian encoding, two lower-case digits to a byte.
pub fn fr_to_hex(fr: &Fr) -> (r: String)
    ensures
        r@ == seq!['0', 'x'] + hex_encoding(fr.bytes()),
{
    let repr = fr.to_repr();
    hex_encode_prefixed(&repr)
}

/// The public values of a chunk in their order: the commitment of the chunk
/// before, if there is one; the outputs that the model makes public; the
/// commitment to this chunk's boundary, if there is one.
pub open spec fn public_layout(prev_root: Option<nat>, outputs: Seq<nat>, merkle_root: Option<nat>)
    -> Seq<nat> {
    let head = match prev_root {
        Some(p) => seq![p],
        None => Seq::<nat>::empty(),
    };
    let tail = match merkle_root {
        Some(m) => seq![m],
        None => Seq::<nat>::empty(),
    };
    head + outputs + tail
}

/// The value of an element that may be missing.
pub open spec fn opt_value(x: Option<Fr>) -> Option<nat> {
    match x {
        Some(v) => Some(v@),
        None => None,
    }
}

/// An element that may be missing is canonically encoded.
pub open spec fn opt_wf(x: Option<Fr>) -> bool {
    match x {
        Some(v) => v.wf(),
        None => true,
    }
}

/// Puts the public values of a chunk in their order.
pub fn public_values(prev_root: Option<Fr>, outputs: &Vec<Fr>, merkle_root: Option<Fr>) -> (r: Vec<
    Fr,
>)
    requires
        opt_wf(prev_root),
        all_wf(outputs@),
        opt_wf(merkle_root),
    ensures
        all_wf(r@),
        values_of(r@) == public_layout(
            opt_value(prev_root),
            values_of(outputs@),
            opt_value(merkle_root),
        ),
{
    let mut r: Vec<Fr> = Vec::new();
    match prev_root {
        Some(p) => {
            r.push(p);
        },
        None => {},
    }
    let ghost head = values_of(r@);
    let mut i: usize = 0;
    while i < outputs.len()
        invariant
            i <= outputs.len(),
            all_wf(outputs@),
            all_wf(r@),
            values_of(r@) == head + values_of(outputs@).take(i as int),
        decreases outputs.len() - i,
    {
        let ghost before = values_of(r@);
        r.push(outputs[i]);
        assert(values_of(r@) =~= before.push(outputs@[i as int]@));
        assert(values_of(outputs@).take(i + 1) =~= values_of(outputs@).take(i as int).push(
            outputs@[i as int]@,
        ));
        assert(values_of(r@) =~= head + values_of(outputs@).take(i + 1));
        i += 1;
    }
    assert(values_of(outputs@).take(outputs.len() as int) =~= values_of(outputs@));
    let ghost body = values_of(r@);
    match merkle_root {
        Some(m) => {
            r.push(m);
            assert(values_of(r@) =~= body + seq![m@]);
        },
        None => {
            assert(values_of(r@) =~= body + Seq::<nat>::empty());
        },
    }
    assert(head =~= match opt_value(prev_root) {
        Some(p) => seq![p],
        None => Seq::<nat>::empty(),
    });
    r
}

/// A chunk that is chained to the chunk before has one public value more than
/// the same chunk unchained, and its first public value is the commitment it was
/// chained by.
pub proof fn lemma_prev_root_comes_first(
    prev_root: nat,
    outputs: Seq<nat>,
    merkle_root: Option<nat>,
)
    ensures
        public_layout(Some(prev_root), outputs, merkle_root).len() == public_layout(
            None,
            outputs,
            merkle_root,
        ).len() + 1,
        public_layout(Some(prev_root), outputs, merkle_root)[0] == prev_root,
        public_layout(Some(prev_root), outputs, merkle_root).skip(1) == public_layout(
            None,
            outputs,
            merkle_root,
        ),
{
    assert(public_layout(Some(prev_root), outputs, merkle_root).skip(1) =~= public_layout(
        None,
        outputs,
        merkle_root,
    ));
}

/// A chunk that commits to its boundary has one public value more than the
/// same chunk without, and its last public value is the commitment.
pub proof fn lemma_merkle_root_comes_last(
    prev_root: Option<nat>,
    outputs: Seq<nat>,
    merkle_root: nat,
)
    ensures
        public_layout(prev_root, outputs, Some(merkle_root)).len() == public_layout(
            prev_root,
            outputs,
            None,
        ).len() + 1,
        public_layout(prev_root, outputs, Some(merkle_root)).last() == merkle_root,
        public_layout(prev_root, outputs, Some(merkle_root)).drop_last() == public_layout(
            prev_root,
            outputs,
            None,
        ),
{
    assert(public_layout(prev_root, outputs, Some(merkle_root)).drop_last() =~= public_layout(
        prev_root,
        outputs,
        None,
    ));
}

/// The commitment among the public values: the last of them where a
/// commitment was asked for and there are any.
pub fn extract_merkle_root(use_merkle: bool, public_vals: &Vec<Fr>) -> (r: Option<Fr>)
    ensures
        r == if use_merkle && public_vals.len() > 0 {
            Some(public_vals@.last())
        } else {
            None
        },
{
    if use_merkle && public_vals.len() > 0 {
        Some(public_vals[public_vals.len() - 1])
    } else {
        None
    }
}

/// The encodings of the first `n` elements, one after the other.
pub open spec fn concat_bytes(vals: Seq<Fr>, n: nat) -> Seq<u8>
    decreases n,
{
    if n == 0 {
        Seq::empty()
    } else {
        concat_bytes(vals, (n - 1) as nat) + vals[n - 1].bytes()
    }
}

/// The encodings of `n` elements are `32 * n` bytes.
pub proof fn lemma_concat_bytes_len(vals: Seq<Fr>, n: nat)
    ensures
        concat_bytes(vals, n).len() == 32 * n,
    decreases n,
{
    if n > 0 {
        lemma_concat_bytes_len(vals, (n - 1) as nat);
        vals[n - 1].lemma_bytes();
    }
}

/// Writes public values as bytes: the 32-byte encodings of the elements, in
/// order, one after the other.
pub fn public_values_to_bytes(public_vals: &Vec<Fr>) -> (bytes: Vec<u8>)
    ensures
        bytes@ == concat_bytes(public_vals@, public_vals.len() as nat),
        bytes.len() == 32 * public_vals.len(),
{
    let mut bytes: Vec<u8> = Vec::new();
    let mut i: usize = 0;
    while i < public_vals.len()
        invariant
            i <= public_vals.len(),
            bytes@ == concat_bytes(public_vals@, i as nat),
        decreases public_vals.len() - i,
    {
        let repr = public_vals[i].to_repr();
        let ghost done = bytes@;
        proof {
            public_vals@[i as int].lemma_bytes();
        }
        let mut j: usize = 0;
        while j < 32
            invariant
                j <= 32,
                repr@.len() == 32,
                bytes@ == done + repr@.take(j as int),
            decreases 32 - j,
        {
            bytes.push(repr[j]);
            assert(bytes@ =~= done + repr@.take(j + 1));
            j += 1;
        }
        assert(repr@.take(32) =~= repr@);
        i += 1;
    }
    proof {
        lemma_concat_bytes_len(public_vals@, public_vals.len() as nat);
    }
    bytes
}

/// The bytes are the encodings of elements: a whole number of 32-byte blocks,
/// each of which denotes a number below the modulus.
pub open spec fn decodable(bytes: Seq<u8>) -> bool {
    &&& bytes.len() % 32 == 0
    &&& forall|i: int|
        0 <= i < bytes.len() / 32 ==> le_value(#[trigger] bytes.subrange(32 * i, 32 * i + 32))
            < fr_modulus()
}

/// Reads public values from bytes: each block of 32 bytes is the encoding of
/// one element. `None` where the bytes are no whole number of blocks or a block
/// denotes no element.
pub fn public_values_from_bytes(bytes: &[u8]) -> (r: Option<Vec<Fr>>)
    ensures
        r is Some <==> decodable(bytes@),
        r is Some ==> {
            &&& all_wf(r.unwrap()@)
            &&& r.unwrap().len() == bytes.len() / 32
            &&& concat_bytes(r.unwrap()@, r.unwrap().len() as nat) == bytes@
        },
{
    if bytes.len() % 32 != 0 {
        return None;
    }
    let count = bytes.len() / 32;
    let mut vals: Vec<Fr> = Vec::new();
    let mut i: usize = 0;
    assert(bytes@.take(0) =~= Seq::<u8>::empty());
    while i < count
        invariant
            i <= count,
            count == bytes.len() / 32,
            bytes.len() % 32 == 0,
            vals.len() == i,
            all_wf(vals@),
            concat_bytes(vals@, i as nat) == bytes@.take(32 * i),
            forall|j: int|
                0 <= j < i ==> le_value(#[trigger] bytes@.subrange(32 * j, 32 * j + 32))
                    < fr_modulus(),
        decreases count - i,
    {
        let block = slice_subrange(bytes, 32 * i, 32 * i + 32);
        let mut repr = [0u8;32];
        let mut j: usize = 0;
        while j < 32
            invariant
                j <= 32,
                block@.len() == 32,
                forall|t: int| 0 <= t < j ==> repr@[t] == block@[t],
            decreases 32 - j,
        {
            repr[j] = block[j];
            j += 1;
        }
        assert(repr@ =~= block@);
        match Fr::from_repr(repr) {
            Some(x) => {
                let ghost before = vals@;
                vals.push(x);
                proof {
                    lemma_concat_bytes_agrees(before, vals@, i as nat);
                    assert(bytes@.take(32 * (i + 1)) =~= bytes@.take(32 * i) + block@);
                }
            },
            None => {
                return None;
            },
        }
        i += 1;
    }
    assert(bytes@.take(32 * count) =~= bytes@);
    Some(vals)
}

/// The encodings of the first `n` elements depend on those elements alone.
pub proof fn lemma_concat_bytes_agrees(a: Seq<Fr>, b: Seq<Fr>, n: nat)
    requires
        n <= a.len(),
        n <= b.len(),
        forall|i: int| 0 <= i < n ==> a[i] == b[i],
    ensures
        concat_bytes(a, n) == concat_bytes(b, n),
    decreases n,
{
    if n > 0 {
        lemma_concat_bytes_agrees(a, b, (n - 1) as nat);
    }
}

/// Block `i` of the encodings of `n` elements is the encoding of element `i`.
pub proof fn lemma_concat_bytes_block(vals: Seq<Fr>, n: nat, i: int)
    requires
        n <= vals.len(),
        0 <= i < n,
    ensures
        concat_bytes(vals, n).subrange(32 * i, 32 * i + 32) == vals[i].bytes(),
    decreases n,
{
    let m = (n - 1) as nat;
    lemma_concat_bytes_len(vals, m);
    lemma_concat_bytes_len(vals, n);
    vals[n - 1].lemma_bytes();
    if i < m {
        lemma_concat_bytes_block(vals, m, i);
        assert(concat_bytes(vals, n).subrange(32 * i, 32 * i + 32) =~= concat_bytes(
            vals,
            m,
        ).subrange(32 * i, 32 * i + 32));
    } else {
        assert(concat_bytes(vals, n).subrange(32 * i, 32 * i + 32) =~= vals[i].bytes());
    }
}

/// Written and read back, public values are what they were: the bytes of
/// canonically encoded elements can be read, and whatever list of elements has
/// the same bytes is the same list.
pub proof fn lemma_public_values_round_trip(vals: Seq<Fr>, read: Seq<Fr>)
    requires
        forall|i: int| 0 <= i < vals.len() ==> (#[trigger] vals[i]).wf(),
        read.len() == vals.len(),
        concat_bytes(read, read.len()) == concat_bytes(vals, vals.len()),
    ensures
        decodable(concat_bytes(vals, vals.len())),
        read == vals,
{
    let n = vals.len();
    let bytes = concat_bytes(vals, n);
    lemma_concat_bytes_len(vals, n);
    assert forall|i: int| 0 <= i < bytes.len() / 32 implies le_value(
        #[trigger] bytes.subrange(32 * i, 32 * i + 32),
    ) < fr_modulus() by {
        lemma_concat_bytes_block(vals, n, i);
        vals[i].lemma_bytes();
    }
    assert forall|i: int| 0 <= i < n implies read[i] == vals[i] by {
        lemma_concat_bytes_block(vals, n, i);
        lemma_concat_bytes_block(read, n, i);
        vals[i].lemma_bytes();
        read[i].lemma_bytes();
        read[i].lemma_view_injective(&vals[i]);
    }
    assert(read =~= vals);
}

/// Takes the outcome of checking a proof: a proof that does not verify is an
/// error, never passed over.
pub fn verify_kzg(verified: bool) -> (r: Result<(), Error>)
    ensures
        r == if verified {
            Ok::<(), Error>(())
        } else {
            Err::<(), Error>(Error::Verification)
        },
{
    if verified {
        Ok(())
    } else {
        Err(Error::Verification)
    }
}

/// Sets a circuit up for the chunk `chunk_start..chunk_end` of a model whose
/// operation `i` fills the slots `layer_out_idxes[i]`, and returns the degree
/// that keys are owed for. A range that is empty, reversed or past the last
/// operation is an error, and the circuit is left as it was. Where a commitment
/// is asked for and the circuit commits to nothing yet, it is made to commit to
/// the outputs of the chunk's last operation.
pub fn configure_chunk(
    circuit: &mut ModelCircuit,
    layer_out_idxes: &Vec<Vec<i64>>,
    chunk_start: usize,
    chunk_end: usize,
    use_merkle: bool,
    prev_merkle_root: Option<Fr>,
) -> (r: Result<u32, Error>)
    ensures
        !valid_range(chunk_start as int, chunk_end as int, layer_out_idxes.len() as int) ==> r
            == Err::<u32, Error>(Error::Synthesis) && *final(circuit) == *old(circuit),
        valid_range(chunk_start as int, chunk_end as int, layer_out_idxes.len() as int) ==> {
            &&& r == Ok::<u32, Error>(degree_of(old(circuit).k as nat) as u32)
            &&& configured(
                *old(circuit),
                *final(circuit),
                layer_out_idxes@,
                chunk_start,
                chunk_end,
                use_merkle,
                prev_merkle_root,
            )
        },
{
    if chunk_start >= chunk_end || chunk_end > layer_out_idxes.len() {
        return Err(Error::Synthesis);
    }
    if use_merkle && circuit.commit_after.len() == 0 && circuit.commit_before.len() == 0 {
        let layer = &layer_out_idxes[chunk_end - 1];
        if layer.len() > 0 {
            let mut copy: Vec<i64> = Vec::new();
            let mut i: usize = 0;
            while i < layer.len()
                invariant
                    i <= layer.len(),
                    copy@ == layer@.take(i as int),
                decreases layer.len() - i,
            {
                copy.push(layer[i]);
                assert(copy@ =~= layer@.take(i + 1));
                i += 1;
            }
            assert(layer@.take(layer.len() as int) =~= layer@);
            let mut hooks: Vec<Vec<i64>> = Vec::new();
            hooks.push(copy);
            circuit.commit_after = hooks;
        }
    }
    circuit.set_chunk_config(chunk_start, chunk_end, use_merkle);
    match prev_merkle_root {
        Some(root) => {
            circuit.set_prev_merkle_root(root);
        },
        None => {},
    }
    Ok(degree(circuit.k))
}

/// Where the proving of a chunk stands.
#[derive(Clone, Copy, Debug, PartialEq, Eq, Structural)]
pub enum ProverPhase {
    /// Keys are owed.
    AwaitingKeys,
    /// The public values of a witness-generation pass are owed.
    AwaitingWitness,
    /// A proof is owed.
    AwaitingProof,
    /// The check of the proof is owed.
    AwaitingVerification,
    /// The chunk is proved and the proof checked.
    Finished,
    /// The chunk could not be proved.
    Failed,
}

/// What the proof system reports back.
#[derive(Debug)]
pub enum ProverEvent {
    /// Keys were generated.
    KeysGenerated,
    /// Key generation failed.
    KeyGenerationFailed,
    /// A witness-generation pass gave these public values.
    WitnessCaptured(Vec<Fr>),
    /// A proof was made, in this many milliseconds.
    ProofCreated(Vec<u8>, u128),
    /// Proving failed.
    ProofFailed,
    /// The proof verified, in this many milliseconds.
    ProofVerified(u128),
    /// The proof did not verify.
    ProofRejected,
}

/// What the caller owes next.
#[derive(Debug)]
pub enum ProverAction {
    /// Generate keys for the circuit at this degree.
    GenerateKeys(u32),
    /// Run one witness-generation pass and report the public values.
    CaptureWitness,
    /// Make a proof over the public values.
    CreateProof,
    /// Check the proof against the public values.
    VerifyProof,
    /// The chunk is proved: here is the result.
    Finish(ChunkProofResult),
    /// The chunk cannot be proved.
    Abort(Error),
}

/// The proving of one chunk: where it stands and what it has gathered.
#[derive(Debug)]
pub struct ChunkProver {
    phase: ProverPhase,
    use_merkle: bool,
    public_vals: Vec<Fr>,
    merkle_root: Option<Fr>,
    proof: Vec<u8>,
    proving_time_ms: u128,
}

/// What a prover holds.
pub struct ChunkProverView {
    pub phase: ProverPhase,
    pub use_merkle: bool,
    pub public_vals: Seq<Fr>,
    pub merkle_root: Option<Fr>,
    pub proof: Seq<u8>,
    pub proving_time_ms: nat,
}

impl View for ChunkProver {
    type V = ChunkProverView;

    closed spec fn view(&self) -> ChunkProverView {
        ChunkProverView {
            phase: self.phase,
            use_merkle: self.use_merkle,
            public_vals: self.public_vals@,
            merkle_root: self.merkle_root,
            proof: self.proof@,
            proving_time_ms: self.proving_time_ms as nat,
        }
    }
}

/// The commitment among public values, as `extract_merkle_root` finds it.
pub open spec fn root_among(use_merkle: bool, public_vals: Seq<Fr>) -> Option<Fr> {
    if use_merkle && public_vals.len() > 0 {
        Some(public_vals.last())
    } else {
        None
    }
}

/// The prover after an event that ends it in failure.
pub open spec fn failed(before: ChunkProverView) -> ChunkProverView {
    ChunkProverView { phase: ProverPhase::Failed, ..before }
}

impl ChunkProver {
    /// Where the proving stands.
    pub fn phase(&self) -> (r: ProverPhase)
        ensures
            r == self@.phase,
    {
        self.phase
    }

    /// The public values gathered so far.
    pub fn public_vals(&self) -> (r: &Vec<Fr>)
        ensures
            r@ == self@.public_vals,
    {
        &self.public_vals
    }

    /// The proof gathered so far.
    pub fn proof_bytes(&self) -> (r: &Vec<u8>)
        ensures
            r@ == self@.proof,
    {
        &self.proof
    }

    /// Takes the outcome of the step that was owed and says which step is owed
    /// next. Key generation, proving and checking each end the chunk where they
    /// fail; an outcome that was not owed ends it too.
    pub fn advance(self, event: ProverEvent) -> (r: (ChunkProver, ProverAction))
        ensures
            match (self@.phase, event) {
                (ProverPhase::AwaitingKeys, ProverEvent::KeysGenerated) => {
                    &&& r.0@ == (ChunkProverView { phase: ProverPhase::AwaitingWitness, ..self@ })
                    &&& r.1 is CaptureWitness
                },
                (ProverPhase::AwaitingKeys, ProverEvent::KeyGenerationFailed) => {
                    &&& r.0@ == failed(self@)
                    &&& r.1 == ProverAction::Abort(Error::KeyGeneration)
                },
                (ProverPhase::AwaitingWitness, ProverEvent::WitnessCaptured(vals)) => {
                    &&& r.0@ == (ChunkProverView {
                        phase: ProverPhase::AwaitingProof,
                        public_vals: vals@,
                        merkle_root: root_among(self@.use_merkle, vals@),
                        ..self@
                    })
                    &&& r.1 is CreateProof
                },
                (ProverPhase::AwaitingProof, ProverEvent::ProofCreated(proof, time)) => {
                    &&& r.0@ == (ChunkProverView {
                        phase: ProverPhase::AwaitingVerification,
                        proof: proof@,
                        proving_time_ms: time as nat,
                        ..self@
                    })
                    &&& r.1 is VerifyProof
                },
                (ProverPhase::AwaitingProof, ProverEvent::ProofFailed) => {
                    &&& r.0@ == failed(self@)
                    &&& r.1 == ProverAction::Abort(Error::ProofGeneration)
                },
                (ProverPhase::AwaitingVerification, ProverEvent::ProofVerified(time)) => {
                    &&& r.0@.phase == ProverPhase::Finished
                    &&& r.1 is Finish
                    &&& r.1->Finish_0.proof@ == self@.proof
                    &&& r.1->Finish_0.public_vals@ == self@.public_vals
                    &&& r.1->Finish_0.merkle_root == self@.merkle_root
                    &&& r.1->Finish_0.proving_time_ms == self@.proving_time_ms
                    &&& r.1->Finish_0.verify_time_ms == time
                },
                (ProverPhase::AwaitingVerification, ProverEvent::ProofRejected) => {
                    &&& r.0@ == failed(self@)
                    &&& r.1 == ProverAction::Abort(Error::Verification)
                },
                _ => {
                    &&& r.0@ == failed(self@)
                    &&& r.1 == ProverAction::Abort(Error::UnexpectedEvent)
                },
            },
    {
        let ChunkProver { phase, use_merkle, public_vals, merkle_root, proof, proving_time_ms } =
            self;
        match (phase, event) {
            (ProverPhase::AwaitingKeys, ProverEvent::KeysGenerated) => (
                ChunkProver {
                    phase: ProverPhase::AwaitingWitness,
                    use_merkle,
                    public_vals,
                    merkle_root,
                    proof,
                    proving_time_ms,
                },
                ProverAction::CaptureWitness,
            ),
            (ProverPhase::AwaitingKeys, ProverEvent::KeyGenerationFailed) => (
                ChunkProver {
                    phase: ProverPhase::Failed,
                    use_merkle,
                    public_vals,
                    merkle_root,
                    proof,
                    proving_time_ms,
                },
                ProverAction::Abort(Error::KeyGeneration),
            ),
            (ProverPhase::AwaitingWitness, ProverEvent::WitnessCaptured(vals)) => {
                let root = extract_merkle_root(use_merkle, &vals);
                (
                    ChunkProver {
                        phase: ProverPhase::AwaitingProof,
                        use_merkle,
                        public_vals: vals,
                        merkle_root: root,
                        proof,
                        proving_time_ms,
                    },
                    ProverAction::CreateProof,
                )
            },
            (ProverPhase::AwaitingProof, ProverEvent::ProofCreated(new_proof, time)) => (
                ChunkProver {
                    phase: ProverPhase::AwaitingVerification,
                    use_merkle,
                    public_vals,
                    merkle_root,
                    proof: new_proof,
                    proving_time_ms: time,
                },
                ProverAction::VerifyProof,
            ),
            (ProverPhase::AwaitingProof, ProverEvent::ProofFailed) => (
                ChunkProver {
                    phase: ProverPhase::Failed,
                    use_merkle,
                    public_vals,
                    merkle_root,
                    proof,
                    proving_time_ms,
                },
                ProverAction::Abort(Error::ProofGeneration),
            ),
            (ProverPhase::AwaitingVerification, ProverEvent::ProofVerified(time)) => (
                ChunkProver {
                    phase: ProverPhase::Finished,
                    use_merkle,
                    public_vals: Vec::new(),
                    merkle_root,
                    proof: Vec::new(),
                    proving_time_ms,
                },
                ProverAction::Finish(
                    ChunkProofResult {
                        proof,
                        public_vals,
                        merkle_root,
                        proving_time_ms,
                        verify_time_ms: time,
                    },
                ),
            ),
            (ProverPhase::AwaitingVerification, ProverEvent::ProofRejected) => (
                ChunkProver {
                    phase: ProverPhase::Failed,
                    use_merkle,
                    public_vals,
                    merkle_root,
                    proof,
                    proving_time_ms,
                },
                ProverAction::Abort(Error::Verification),
            ),
            _ => (
                ChunkProver {
                    phase: ProverPhase::Failed,
                    use_merkle,
                    public_vals,
                    merkle_root,
                    proof,
                    proving_time_ms,
                },
                ProverAction::Abort(Error::UnexpectedEvent),
            ),
        }
    }
}

/// Begins the proving of the chunk `chunk_start..chunk_end`: the circuit is
/// set up as `configure_chunk` says, and keys are owed at the circuit's degree.
/// For a range that is empty, reversed or past the last operation nothing is
/// owed but to give up: no key is generated and no proof made.
pub fn prove_chunk_kzg(
    circuit: &mut ModelCircuit,
    layer_out_idxes: &Vec<Vec<i64>>,
    chunk_start: usize,
    chunk_end: usize,
    use_merkle: bool,
    prev_merkle_root: Option<Fr>,
) -> (r: (ChunkProver, ProverAction))
    ensures
        !valid_range(chunk_start as int, chunk_end as int, layer_out_idxes.len() as int) ==> {
            &&& r.0@.phase == ProverPhase::Failed
            &&& r.1 == ProverAction::Abort(Error::Synthesis)
            &&& *final(circuit) == *old(circuit)
        },
        valid_range(chunk_start as int, chunk_end as int, layer_out_idxes.len() as int) ==> {
            &&& r.0@ == (ChunkProverView {
                phase: ProverPhase::AwaitingKeys,
                use_merkle,
                public_vals: Seq::<Fr>::empty(),
                merkle_root: None,
                proof: Seq::<u8>::empty(),
                proving_time_ms: 0,
            })
            &&& r.1 == ProverAction::GenerateKeys(degree_of(old(circuit).k as nat) as u32)
            &&& configured(
                *old(circuit),
                *final(circuit),
                layer_out_idxes@,
                chunk_start,
                chunk_end,
                use_merkle,
                prev_merkle_root,
            )
        },
{
    let configured = configure_chunk(
        circuit,
        layer_out_idxes,
        chunk_start,
        chunk_end,
        use_merkle,
        prev_merkle_root,
    );
    match configured {
        Ok(degree) => (
            ChunkProver {
                phase: ProverPhase::AwaitingKeys,
                use_merkle,
                public_vals: Vec::new(),
                merkle_root: None,
                proof: Vec::new(),
                proving_time_ms: 0,
            },
            ProverAction::GenerateKeys(degree),
        ),
        Err(e) => (
            ChunkProver {
                phase: ProverPhase::Failed,
                use_merkle,
                public_vals: Vec::new(),
                merkle_root: None,
                proof: Vec::new(),
                proving_time_ms: 0,
            },
            ProverAction::Abort(e),
        ),
    }
}

} // verus!
