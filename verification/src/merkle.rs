//! A binary hash tree over field elements, built level by level, and the
//! constraint that ties a recomputed root to a claimed one.

use crate::circuit::{element_matches, elements_match, Error, Layouter};
use crate::field::{all_wf, values_of, Fr};
use std::collections::HashMap;
use vstd::prelude::*;

verus! {

broadcast use vstd::std_specs::hash::group_hash_axioms;

/// A commitment to a list of field elements: the hash that the tree is built
/// from. What it returns is a function of the values and the blinding alone.
pub trait Commit: Sized {
    /// The commitment to `values` under `blinding`, or the error that stops it.
    /// Where an implementation does not say which function that is, it is some
    /// function of the hash, the values and the blinding.
    open spec fn commit_spec(&self, values: Seq<nat>, blinding: nat) -> Result<Seq<nat>, Error> {
        let unspecified = arbitrary::<spec_fn(Self, Seq<nat>, nat) -> Result<Seq<nat>, Error>>();
        unspecified(*self, values, blinding)
    }

    /// Computes the commitment that `commit_spec` names.
    fn commit(&self, values: &Vec<Fr>, blinding: Fr) -> (r: Result<Vec<Fr>, Error>)
        requires
            all_wf(values@),
            blinding.wf(),
        ensures
            elements_match(r, self.commit_spec(values_of(values@), blinding@)),
    ;
}

/// The first element of the commitment to `values`: the digest. A commitment
/// without elements is no digest.
pub open spec fn digest<H: Commit>(h: H, zero: nat, values: Seq<nat>) -> Result<nat, Error> {
    match h.commit_spec(values, zero) {
        Ok(out) => if out.len() > 0 {
            Ok(out[0])
        } else {
            Err(Error::Synthesis)
        },
        Err(e) => Err(e),
    }
}

/// The hash of one value.
pub open spec fn hash_leaf<H: Commit>(h: H, zero: nat, value: nat) -> Result<nat, Error> {
    digest(h, zero, seq![value])
}

/// The hash of two nodes.
pub open spec fn hash_pair<H: Commit>(h: H, zero: nat, left: nat, right: nat) -> Result<
    nat,
    Error,
> {
    digest(h, zero, seq![left, right])
}

/// The hashes of the first `n` values, in order; the first hash that fails
/// decides the error.
pub open spec fn leaf_hashes<H: Commit>(h: H, zero: nat, values: Seq<nat>, n: nat) -> Result<
    Seq<nat>,
    Error,
>
    decreases n,
{
    if n == 0 {
        Ok(Seq::empty())
    } else {
        match leaf_hashes(h, zero, values, (n - 1) as nat) {
            Err(e) => Err(e),
            Ok(prev) => match hash_leaf(h, zero, values[n - 1]) {
                Err(e) => Err(e),
                Ok(x) => Ok(prev.push(x)),
            },
        }
    }
}

/// The index of the node paired with node `2 * i`: its right neighbour, or
/// the node itself where the level ends there.
pub open spec fn partner(len: nat, i: nat) -> int {
    if 2 * i + 1 < len {
        (2 * i + 1) as int
    } else {
        len - 1
    }
}

/// The first `n` nodes of the level above `level`: node `i` is the hash of
/// nodes `2 * i` and `partner(len, i)`.
pub open spec fn pair_hashes<H: Commit>(h: H, zero: nat, level: Seq<nat>, n: nat) -> Result<
    Seq<nat>,
    Error,
>
    decreases n,
{
    if n == 0 {
        Ok(Seq::empty())
    } else {
        match pair_hashes(h, zero, level, (n - 1) as nat) {
            Err(e) => Err(e),
            Ok(prev) => match hash_pair(
                h,
                zero,
                level[2 * (n - 1)],
                level[partner(level.len(), (n - 1) as nat)],
            ) {
                Err(e) => Err(e),
                Ok(x) => Ok(prev.push(x)),
            },
        }
    }
}

/// The level above `level`: half as many nodes, rounded up.
pub open spec fn next_level<H: Commit>(h: H, zero: nat, level: Seq<nat>) -> Result<
    Seq<nat>,
    Error,
> {
    pair_hashes(h, zero, level, (level.len() + 1) / 2)
}

/// The single node that repeated pairing reduces a level to. The level above
/// a level of two or more nodes is shorter; no other case arises.
pub open spec fn reduce<H: Commit>(h: H, zero: nat, level: Seq<nat>) -> Result<nat, Error>
    decreases level.len(),
{
    if level.len() <= 1 {
        Ok(level[0])
    } else {
        match next_level(h, zero, level) {
            Err(e) => Err(e),
            Ok(next) => if next.len() < level.len() {
                reduce(h, zero, next)
            } else {
                Err(Error::Synthesis)
            },
        }
    }
}

/// The root of the tree over `leaves`: no root for no leaves, the hash of the
/// leaf for one, else the reduction of the hashed leaves.
pub open spec fn merkle_root<H: Commit>(h: H, zero: nat, leaves: Seq<nat>) -> Result<nat, Error> {
    if leaves.len() == 0 {
        Err(Error::Synthesis)
    } else if leaves.len() == 1 {
        hash_leaf(h, zero, leaves[0])
    } else {
        match leaf_hashes(h, zero, leaves, leaves.len()) {
            Err(e) => Err(e),
            Ok(level) => reduce(h, zero, level),
        }
    }
}

/// The hashes of `n` leaves are `n` nodes.
pub proof fn lemma_leaf_hashes_len<H: Commit>(h: H, zero: nat, values: Seq<nat>, n: nat)
    ensures
        leaf_hashes(h, zero, values, n) is Ok ==> leaf_hashes(h, zero, values, n).unwrap().len()
            == n,
    decreases n,
{
    if n > 0 {
        lemma_leaf_hashes_len(h, zero, values, (n - 1) as nat);
    }
}

/// The hashes of `n` pairs are `n` nodes.
pub proof fn lemma_pair_hashes_len<H: Commit>(h: H, zero: nat, level: Seq<nat>, n: nat)
    ensures
        pair_hashes(h, zero, level, n) is Ok ==> pair_hashes(h, zero, level, n).unwrap().len()
            == n,
    decreases n,
{
    if n > 0 {
        lemma_pair_hashes_len(h, zero, level, (n - 1) as nat);
    }
}

/// A failure among the first `k` leaves is the failure of any longer prefix.
pub proof fn lemma_leaf_hashes_error<H: Commit>(
    h: H,
    zero: nat,
    values: Seq<nat>,
    k: nat,
    n: nat,
)
    requires
        k <= n,
        leaf_hashes(h, zero, values, k) is Err,
    ensures
        leaf_hashes(h, zero, values, n) == leaf_hashes(h, zero, values, k),
    decreases n,
{
    if k < n {
        lemma_leaf_hashes_error(h, zero, values, k, (n - 1) as nat);
    }
}

/// A failure among the first `k` pairs is the failure of any longer prefix.
pub proof fn lemma_pair_hashes_error<H: Commit>(h: H, zero: nat, level: Seq<nat>, k: nat, n: nat)
    requires
        k <= n,
        pair_hashes(h, zero, level, k) is Err,
    ensures
        pair_hashes(h, zero, level, n) == pair_hashes(h, zero, level, k),
    decreases n,
{
    if k < n {
        lemma_pair_hashes_error(h, zero, level, k, (n - 1) as nat);
    }
}

/// Building a tree is a function of the leaves: two results that meet the
/// contract of `build_binary_tree` on the same leaves are the same result.
pub proof fn lemma_build_tree_deterministic<H: Commit>(
    h: H,
    zero: nat,
    leaves: Seq<nat>,
    first: Result<Fr, Error>,
    second: Result<Fr, Error>,
)
    requires
        element_matches(first, merkle_root(h, zero, leaves)),
        element_matches(second, merkle_root(h, zero, leaves)),
    ensures
        first == second,
{
    if first is Ok {
        first.unwrap().lemma_view_injective(&second.unwrap());
    }
}

/// The root over a single leaf is the hash of that leaf.
pub proof fn lemma_single_leaf_root<H: Commit>(h: H, zero: nat, leaf: nat)
    ensures
        merkle_root(h, zero, seq![leaf]) == hash_leaf(h, zero, leaf),
{
}

/// Leaves hashed after one more leaf was appended: the hashes of the old
/// leaves are unchanged.
proof fn lemma_leaf_hashes_push<H: Commit>(h: H, zero: nat, values: Seq<nat>, extra: nat, n: nat)
    requires
        n <= values.len(),
    ensures
        leaf_hashes(h, zero, values.push(extra), n) == leaf_hashes(h, zero, values, n),
    decreases n,
{
    if n > 0 {
        lemma_leaf_hashes_push(h, zero, values, extra, (n - 1) as nat);
        assert(values.push(extra)[n - 1] == values[n - 1]);
    }
}

/// On a level of odd length, appending a copy of the last node leaves the
/// first `n` pairs as they were: the unmatched node was paired with itself.
proof fn lemma_pair_hashes_duplicate<H: Commit>(h: H, zero: nat, level: Seq<nat>, n: nat)
    requires
        level.len() % 2 == 1,
        2 * n <= level.len() + 1,
    ensures
        pair_hashes(h, zero, level.push(level.last()), n) == pair_hashes(h, zero, level, n),
    decreases n,
{
    if n > 0 {
        lemma_pair_hashes_duplicate(h, zero, level, (n - 1) as nat);
        let longer = level.push(level.last());
        let i = (n - 1) as nat;
        assert(longer[(2 * i) as int] == level[(2 * i) as int]);
        assert(longer[partner(longer.len(), i)] == level[partner(level.len(), i)]);
    }
}

/// A level of odd length pairs its last node with itself: the tree over an odd
/// number of leaves, more than one, is the tree over those leaves followed by a
/// copy of the last.
pub proof fn lemma_odd_level_self_pairs<H: Commit>(h: H, zero: nat, leaves: Seq<nat>)
    requires
        leaves.len() > 1,
        leaves.len() % 2 == 1,
    ensures
        merkle_root(h, zero, leaves.push(leaves.last())) == merkle_root(h, zero, leaves),
{
    let k = leaves.len();
    let longer = leaves.push(leaves.last());
    lemma_leaf_hashes_push(h, zero, leaves, leaves.last(), k);
    assert(longer[k as int] == leaves[k - 1]);
    match leaf_hashes(h, zero, leaves, k) {
        Err(e) => {},
        Ok(level) => {
            lemma_leaf_hashes_len(h, zero, leaves, k);
            // hashing the last leaf succeeded, so hashing its copy does
            let last_hash = hash_leaf(h, zero, leaves[k - 1]);
            assert(last_hash is Ok && last_hash.unwrap() == level.last()) by {
                assert(leaf_hashes(h, zero, leaves, (k - 1) as nat) is Ok);
            }
            let level2 = level.push(level.last());
            assert(leaf_hashes(h, zero, longer, k + 1) == Ok::<Seq<nat>, Error>(level2));
            lemma_pair_hashes_duplicate(h, zero, level, (k + 1) / 2);
            assert((k + 2) / 2 == (k + 1) / 2);
            assert(next_level(h, zero, level2) == next_level(h, zero, level));
            lemma_pair_hashes_len(h, zero, level, (k + 1) / 2);
        },
    }
}

/// The hash has no collisions under this blinding: lists with the same digest
/// are the same list.
pub open spec fn collision_free<H: Commit>(h: H, zero: nat) -> bool {
    forall|x: Seq<nat>, y: Seq<nat>|
        #![trigger digest(h, zero, x), digest(h, zero, y)]
        digest(h, zero, x) is Ok && digest(h, zero, x) == digest(h, zero, y) ==> x == y
}

/// Without collisions, the hashes of the leaves determine the leaves.
proof fn lemma_leaf_hashes_injective<H: Commit>(h: H, zero: nat, a: Seq<nat>, b: Seq<nat>, n: nat)
    requires
        collision_free(h, zero),
        n <= a.len(),
        n <= b.len(),
        leaf_hashes(h, zero, a, n) is Ok,
        leaf_hashes(h, zero, a, n) == leaf_hashes(h, zero, b, n),
    ensures
        forall|j: int| 0 <= j < n ==> a[j] == b[j],
    decreases n,
{
    if n > 0 {
        let m = (n - 1) as nat;
        lemma_leaf_hashes_len(h, zero, a, m);
        lemma_leaf_hashes_len(h, zero, b, m);
        let pa = leaf_hashes(h, zero, a, m).unwrap();
        let pb = leaf_hashes(h, zero, b, m).unwrap();
        let xa = hash_leaf(h, zero, a[n - 1]).unwrap();
        let xb = hash_leaf(h, zero, b[n - 1]).unwrap();
        assert(pa.push(xa) == pb.push(xb));
        assert(pa.push(xa)[m as int] == xa);
        assert(pb.push(xb)[m as int] == xb);
        assert(pa =~= pa.push(xa).drop_last());
        assert(pb =~= pb.push(xb).drop_last());
        lemma_leaf_hashes_injective(h, zero, a, b, m);
        assert(digest(h, zero, seq![a[n - 1]]) == digest(h, zero, seq![b[n - 1]]));
        assert(seq![a[n - 1]][0] == seq![b[n - 1]][0]);
    }
}

/// Without collisions, the first `n` nodes of the next level determine the
/// nodes that they were hashed from.
proof fn lemma_pair_hashes_injective<H: Commit>(h: H, zero: nat, a: Seq<nat>, b: Seq<nat>, n: nat)
    requires
        collision_free(h, zero),
        a.len() == b.len(),
        2 * n <= a.len() + 1,
        pair_hashes(h, zero, a, n) is Ok,
        pair_hashes(h, zero, a, n) == pair_hashes(h, zero, b, n),
    ensures
        forall|j: int| 0 <= j < 2 * n && j < a.len() ==> a[j] == b[j],
    decreases n,
{
    if n > 0 {
        let m = (n - 1) as nat;
        lemma_pair_hashes_len(h, zero, a, m);
        lemma_pair_hashes_len(h, zero, b, m);
        let pa = pair_hashes(h, zero, a, m).unwrap();
        let pb = pair_hashes(h, zero, b, m).unwrap();
        let la = seq![a[(2 * m) as int], a[partner(a.len(), m)]];
        let lb = seq![b[(2 * m) as int], b[partner(b.len(), m)]];
        let xa = digest(h, zero, la).unwrap();
        let xb = digest(h, zero, lb).unwrap();
        assert(pa.push(xa) == pb.push(xb));
        assert(pa.push(xa)[m as int] == xa);
        assert(pb.push(xb)[m as int] == xb);
        assert(pa =~= pa.push(xa).drop_last());
        assert(pb =~= pb.push(xb).drop_last());
        lemma_pair_hashes_injective(h, zero, a, b, m);
        assert(digest(h, zero, la) == digest(h, zero, lb));
        assert(la[0] == lb[0] && la[1] == lb[1]);
    }
}

/// Without collisions, the node that a level reduces to determines the level,
/// among levels of one length.
proof fn lemma_reduce_injective<H: Commit>(h: H, zero: nat, a: Seq<nat>, b: Seq<nat>)
    requires
        collision_free(h, zero),
        a.len() == b.len(),
        a.len() >= 1,
        reduce(h, zero, a) is Ok,
        reduce(h, zero, a) == reduce(h, zero, b),
    ensures
        a == b,
    decreases a.len(),
{
    if a.len() == 1 {
        assert(a =~= b);
    } else {
        let n = (a.len() + 1) / 2;
        lemma_pair_hashes_len(h, zero, a, n);
        lemma_pair_hashes_len(h, zero, b, n);
        let na = next_level(h, zero, a).unwrap();
        let nb = next_level(h, zero, b).unwrap();
        lemma_reduce_injective(h, zero, na, nb);
        lemma_pair_hashes_injective(h, zero, a, b, n);
        assert(a =~= b);
    }
}

/// The root binds the leaves: without collisions in the hash, two leaf lists
/// of one length with the same root are the same list. A changed leaf changes
/// the root.
pub proof fn lemma_root_binds_leaves<H: Commit>(h: H, zero: nat, a: Seq<nat>, b: Seq<nat>)
    requires
        collision_free(h, zero),
        a.len() == b.len(),
        merkle_root(h, zero, a) is Ok,
        merkle_root(h, zero, a) == merkle_root(h, zero, b),
    ensures
        a == b,
{
    if a.len() == 1 {
        assert(digest(h, zero, seq![a[0]]) == digest(h, zero, seq![b[0]]));
        assert(seq![a[0]][0] == seq![b[0]][0]);
        assert(a =~= b);
    } else {
        let n = a.len();
        lemma_leaf_hashes_len(h, zero, a, n);
        lemma_leaf_hashes_len(h, zero, b, n);
        let la = leaf_hashes(h, zero, a, n).unwrap();
        let lb = leaf_hashes(h, zero, b, n).unwrap();
        lemma_reduce_injective(h, zero, la, lb);
        lemma_leaf_hashes_injective(h, zero, a, b, n);
        assert(a =~= b);
    }
}

/// Where a level of odd length pairs its last node with itself, a different
/// node in the place of that copy gives a different root, without collisions in
/// the hash.
pub proof fn lemma_self_pairing_is_observable<H: Commit>(
    h: H,
    zero: nat,
    leaves: Seq<nat>,
    marker: nat,
)
    requires
        collision_free(h, zero),
        leaves.len() > 1,
        leaves.len() % 2 == 1,
        marker != leaves.last(),
        merkle_root(h, zero, leaves) is Ok,
    ensures
        merkle_root(h, zero, leaves.push(marker)) != merkle_root(h, zero, leaves),
{
    lemma_odd_level_self_pairs(h, zero, leaves);
    let copied = leaves.push(leaves.last());
    let marked = leaves.push(marker);
    if merkle_root(h, zero, marked) == merkle_root(h, zero, leaves) {
        lemma_root_binds_leaves(h, zero, copied, marked);
        assert(copied[leaves.len() as int] == marked[leaves.len() as int]);
    }
}

/// A root is accepted for no other leaves: without collisions in the hash, a
/// leaf list that is as long as `leaves` and differs from it has another root, so
/// that the constraint which `verify_root` lays down for a root of `leaves` does
/// not hold for the changed list.
pub proof fn lemma_verify_root_accepts_only_the_root<H: Commit>(
    h: H,
    zero: nat,
    leaves: Seq<nat>,
    changed: Seq<nat>,
)
    requires
        collision_free(h, zero),
        leaves.len() == changed.len(),
        leaves != changed,
        merkle_root(h, zero, leaves) is Ok,
    ensures
        merkle_root(h, zero, changed) != merkle_root(h, zero, leaves),
{
    if merkle_root(h, zero, changed) == merkle_root(h, zero, leaves) {
        lemma_root_binds_leaves(h, zero, leaves, changed);
    }
}

/// Builds binary hash trees with one hash.
pub struct MerkleTreeChip<H: Commit> {
    poseidon: H,
}

impl<H: Commit> MerkleTreeChip<H> {
    /// The hash that the chip was made with.
    pub closed spec fn hasher(&self) -> H {
        self.poseidon
    }

    /// A chip that hashes with `poseidon`.
    pub fn new(poseidon: H) -> (r: Self)
        ensures
            r.hasher() == poseidon,
    {
        MerkleTreeChip { poseidon }
    }

    /// The digest of a list of nodes under the zero constant.
    fn digest_of(&self, zero: Fr, nodes: &Vec<Fr>) -> (r: Result<Fr, Error>)
        requires
            zero.wf(),
            all_wf(nodes@),
        ensures
            element_matches(r, digest(self.hasher(), zero@, values_of(nodes@))),
    {
        match self.poseidon.commit(nodes, zero) {
            Ok(out) => {
                if out.len() > 0 {
                    assert(values_of(out@)[0] == out@[0]@);
                    Ok(out[0])
                } else {
                    Err(Error::Synthesis)
                }
            },
            Err(e) => Err(e),
        }
    }

    /// Hashes one value: the digest of the one-element list that holds it.
    pub fn hash_single(&self, constants: &HashMap<i64, Fr>, value: Fr) -> (r: Result<Fr, Error>)
        requires
            constants@.contains_key(0),
            constants@[0].wf(),
            value.wf(),
        ensures
            element_matches(r, hash_leaf(self.hasher(), constants@[0]@, value@)),
    {
        let zero = *constants.get(&0).unwrap();
        let mut nodes: Vec<Fr> = Vec::new();
        nodes.push(value);
        assert(values_of(nodes@) =~= seq![value@]);
        self.digest_of(zero, &nodes)
    }

    /// Hashes two nodes: the digest of the two-element list that holds them.
    fn hash_two(&self, zero: Fr, left: Fr, right: Fr) -> (r: Result<Fr, Error>)
        requires
            zero.wf(),
            left.wf(),
            right.wf(),
        ensures
            element_matches(r, hash_pair(self.hasher(), zero@, left@, right@)),
    {
        let mut nodes: Vec<Fr> = Vec::new();
        nodes.push(left);
        nodes.push(right);
        assert(values_of(nodes@) =~= seq![left@, right@]);
        self.digest_of(zero, &nodes)
    }

    /// The level above `level`: adjacent nodes hashed in pairs, an unmatched
    /// last node hashed with itself.
    fn pair_level(&self, zero: Fr, level: &Vec<Fr>) -> (r: Result<Vec<Fr>, Error>)
        requires
            zero.wf(),
            all_wf(level@),
            level.len() >= 1,
        ensures
            elements_match(r, next_level(self.hasher(), zero@, values_of(level@))),
            r is Ok ==> r.unwrap().len() == (level.len() + 1) / 2,
    {
        let ghost h = self.hasher();
        let ghost vals = values_of(level@);
        let n = level.len();
        let half = n / 2;
        let mut next: Vec<Fr> = Vec::new();
        let mut i: usize = 0;
        assert(values_of(next@) =~= Seq::<nat>::empty());
        while i < half
            invariant
                i <= half,
                half == n / 2,
                n == level.len(),
                h == self.hasher(),
                vals == values_of(level@),
                zero.wf(),
                all_wf(level@),
                all_wf(next@),
                next.len() == i,
                pair_hashes(h, zero@, vals, i as nat) == Ok::<Seq<nat>, Error>(values_of(next@)),
            decreases half - i,
        {
            let left = level[i * 2];
            let right = level[i * 2 + 1];
            assert(vals[2 * i] == left@ && vals[2 * i + 1] == right@);
            assert(partner(vals.len(), i as nat) == 2 * i + 1);
            match self.hash_two(zero, left, right) {
                Ok(x) => {
                    let ghost before = values_of(next@);
                    next.push(x);
                    assert(values_of(next@) =~= before.push(x@));
                },
                Err(e) => {
                    proof {
                        assert(pair_hashes(h, zero@, vals, (i + 1) as nat) == Err::<
                            Seq<nat>,
                            Error,
                        >(e));
                        lemma_pair_hashes_error(h, zero@, vals, (i + 1) as nat, ((n + 1) / 2) as nat);
                    }
                    return Err(e);
                },
            }
            i += 1;
        }
        if n % 2 == 1 {
            let last = level[n - 1];
            assert(vals[2 * half] == last@);
            assert(partner(vals.len(), half as nat) == n - 1);
            match self.hash_two(zero, last, last) {
                Ok(x) => {
                    let ghost before = values_of(next@);
                    next.push(x);
                    assert(values_of(next@) =~= before.push(x@));
                },
                Err(e) => {
                    return Err(e);
                },
            }
        }
        Ok(next)
    }

    /// Builds the tree over `values` and returns its root: an error for no
    /// values; for one value its hash; else every value is hashed, and levels are
    /// paired up, an unmatched last node with itself, until one node is left.
    pub fn build_binary_tree(&self, constants: &HashMap<i64, Fr>, values: &Vec<Fr>) -> (r: Result<
        Fr,
        Error,
    >)
        requires
            values@.len() > 0 ==> constants@.contains_key(0) && constants@[0].wf(),
            all_wf(values@),
        ensures
            element_matches(r, merkle_root(self.hasher(), constants@[0]@, values_of(values@))),
            values@.len() == 0 ==> r == Err::<Fr, Error>(Error::Synthesis),
    {
        if values.len() == 0 {
            return Err(Error::Synthesis);
        }
        let zero = *constants.get(&0).unwrap();
        if values.len() == 1 {
            assert(values_of(values@)[0] == values@[0]@);
            return self.hash_single(constants, values[0]);
        }
        let ghost h = self.hasher();
        let ghost leaves = values_of(values@);
        let mut current_level: Vec<Fr> = Vec::new();
        let mut i: usize = 0;
        assert(values_of(current_level@) =~= Seq::<nat>::empty());
        while i < values.len()
            invariant
                i <= values.len(),
                h == self.hasher(),
                leaves == values_of(values@),
                constants@.contains_key(0),
                zero == constants@[0],
                zero.wf(),
                all_wf(values@),
                all_wf(current_level@),
                current_level.len() == i,
                leaf_hashes(h, zero@, leaves, i as nat) == Ok::<Seq<nat>, Error>(
                    values_of(current_level@),
                ),
            decreases values.len() - i,
        {
            assert(leaves[i as int] == values@[i as int]@);
            match self.hash_single(constants, values[i]) {
                Ok(x) => {
                    let ghost before = values_of(current_level@);
                    current_level.push(x);
                    assert(values_of(current_level@) =~= before.push(x@));
                },
                Err(e) => {
                    proof {
                        assert(leaf_hashes(h, zero@, leaves, (i + 1) as nat) == Err::<
                            Seq<nat>,
                            Error,
                        >(e));
                        lemma_leaf_hashes_error(h, zero@, leaves, (i + 1) as nat, leaves.len());
                    }
                    return Err(e);
                },
            }
            i += 1;
        }
        while current_level.len() > 1
            invariant
                h == self.hasher(),
                values@.len() > 1,
                leaves == values_of(values@),
                zero == constants@[0],
                zero.wf(),
                all_wf(current_level@),
                current_level.len() >= 1,
                merkle_root(h, zero@, leaves) == reduce(h, zero@, values_of(current_level@)),
            decreases current_level.len(),
        {
            let ghost level = values_of(current_level@);
            match self.pair_level(zero, &current_level) {
                Ok(next) => {
                    assert(reduce(h, zero@, level) == reduce(h, zero@, values_of(next@)));
                    current_level = next;
                },
                Err(e) => {
                    return Err(e);
                },
            }
        }
        assert(values_of(current_level@)[0] == current_level@[0]@);
        Ok(current_level[0])
    }

    /// Builds the tree over `values`: the binary tree of `build_binary_tree`.
    pub fn build_simple_tree(&self, constants: &HashMap<i64, Fr>, values: &Vec<Fr>) -> (r: Result<
        Fr,
        Error,
    >)
        requires
            values@.len() > 0 ==> constants@.contains_key(0) && constants@[0].wf(),
            all_wf(values@),
        ensures
            element_matches(r, merkle_root(self.hasher(), constants@[0]@, values_of(values@))),
    {
        self.build_binary_tree(constants, values)
    }

    /// Recomputes the root of `values` and constrains it to equal
    /// `expected_root`. A root that differs is no error: the constraint is laid
    /// down and the circuit cannot be satisfied. Where the tree cannot be built,
    /// nothing is constrained.
    pub fn verify_root(
        &self,
        layouter: &mut Layouter,
        constants: &HashMap<i64, Fr>,
        values: &Vec<Fr>,
        expected_root: Fr,
    ) -> (r: Result<(), Error>)
        requires
            values@.len() > 0 ==> constants@.contains_key(0) && constants@[0].wf(),
            all_wf(values@),
        ensures
            match merkle_root(self.hasher(), constants@[0]@, values_of(values@)) {
                Ok(root) => r == Ok::<(), Error>(()) && final(layouter).constraints() == old(
                    layouter,
                ).constraints().push((root, expected_root@)) && (final(layouter).satisfied()
                    <==> old(layouter).satisfied() && root == expected_root@),
                Err(e) => r == Err::<(), Error>(e) && final(layouter).constraints() == old(
                    layouter,
                ).constraints(),
            },
    {
        match self.build_simple_tree(constants, values) {
            Ok(computed_root) => {
                layouter.constrain_equal(computed_root, expected_root);
                Ok(())
            },
            Err(e) => Err(e),
        }
    }
}

} // verus!
