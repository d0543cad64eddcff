use std::collections::HashMap;

use zkml::circuit::{Error, Layouter};
use zkml::field::Fr;
use zkml::merkle::{Commit, MerkleTreeChip};

/// A stand-in for a hash: every value and its place enter the digest.
struct Sponge;

impl Commit for Sponge {
    fn commit(&self, values: &Vec<Fr>, blinding: Fr) -> Result<Vec<Fr>, Error> {
        let mut acc = blinding.add(&Fr::from_u64(values.len() as u64 + 1));
        for v in values.iter() {
            acc = acc.mul(&Fr::from_u64(31)).add(v).add(&Fr::one());
        }
        Ok(vec![acc])
    }
}

/// A hash that fails on every input.
struct Broken;

impl Commit for Broken {
    fn commit(&self, _values: &Vec<Fr>, _blinding: Fr) -> Result<Vec<Fr>, Error> {
        Err(Error::Synthesis)
    }
}

/// A hash that returns no element.
struct Silent;

impl Commit for Silent {
    fn commit(&self, _values: &Vec<Fr>, _blinding: Fr) -> Result<Vec<Fr>, Error> {
        Ok(vec![])
    }
}

fn constants() -> HashMap<i64, Fr> {
    let mut constants = HashMap::new();
    constants.insert(0, Fr::zero());
    constants
}

fn leaves(n: u64) -> Vec<Fr> {
    (0..n).map(|i| Fr::from_u64(100 + i)).collect()
}

fn hash1(v: Fr) -> Fr {
    Sponge.commit(&vec![v], Fr::zero()).unwrap()[0]
}

fn hash2(l: Fr, r: Fr) -> Fr {
    Sponge.commit(&vec![l, r], Fr::zero()).unwrap()[0]
}

#[test]
fn test_merkle_single_value() {
    let chip = MerkleTreeChip::new(Sponge);
    let leaf = Fr::from_u64(42);
    let root = chip.build_binary_tree(&constants(), &vec![leaf]).unwrap();
    assert_eq!(root, hash1(leaf));
    assert_ne!(root, leaf);
    assert_eq!(chip.hash_single(&constants(), leaf).unwrap(), root);
}

#[test]
fn test_merkle_multiple_values() {
    let chip = MerkleTreeChip::new(Sponge);
    let v = leaves(4);
    let root = chip.build_binary_tree(&constants(), &v).unwrap();
    let expected = hash2(
        hash2(hash1(v[0]), hash1(v[1])),
        hash2(hash1(v[2]), hash1(v[3])),
    );
    assert_eq!(root, expected);
    assert_eq!(chip.build_simple_tree(&constants(), &v).unwrap(), expected);
}

#[test]
fn test_merkle_root_verification() {
    let chip = MerkleTreeChip::new(Sponge);
    let v = leaves(5);
    let root = chip.build_binary_tree(&constants(), &v).unwrap();

    let mut layouter = Layouter::new();
    assert_eq!(chip.verify_root(&mut layouter, &constants(), &v, root), Ok(()));
    assert_eq!(layouter.num_constraints(), 1);
    assert!(layouter.is_satisfied());

    // a wrong root is no error: the constraint is laid down and cannot hold
    let mut layouter = Layouter::new();
    let wrong = root.add(&Fr::one());
    assert_eq!(chip.verify_root(&mut layouter, &constants(), &v, wrong), Ok(()));
    assert_eq!(layouter.num_constraints(), 1);
    assert!(!layouter.is_satisfied());
}

#[test]
fn merkle_empty_leaves_is_an_error() {
    let chip = MerkleTreeChip::new(Sponge);
    assert_eq!(chip.build_binary_tree(&constants(), &vec![]), Err(Error::Synthesis));
    let mut layouter = Layouter::new();
    assert_eq!(
        chip.verify_root(&mut layouter, &constants(), &vec![], Fr::zero()),
        Err(Error::Synthesis)
    );
    assert_eq!(layouter.num_constraints(), 0);
    // no leaf, no root: the zero constant is not looked for
    let none = std::collections::HashMap::new();
    assert_eq!(chip.build_binary_tree(&none, &vec![]), Err(Error::Synthesis));
    assert_eq!(chip.build_simple_tree(&none, &vec![]), Err(Error::Synthesis));
    assert_eq!(chip.verify_root(&mut layouter, &none, &vec![], Fr::zero()), Err(Error::Synthesis));
    assert_eq!(layouter.num_constraints(), 0);
}

#[test]
fn merkle_two_leaves() {
    let chip = MerkleTreeChip::new(Sponge);
    let v = leaves(2);
    let root = chip.build_binary_tree(&constants(), &v).unwrap();
    assert_eq!(root, hash2(hash1(v[0]), hash1(v[1])));
}

#[test]
fn merkle_odd_level_pairs_last_node_with_itself() {
    let chip = MerkleTreeChip::new(Sponge);
    let v = leaves(3);
    let root = chip.build_binary_tree(&constants(), &v).unwrap();
    let h: Vec<Fr> = v.iter().map(|x| hash1(*x)).collect();
    let expected = hash2(hash2(h[0], h[1]), hash2(h[2], h[2]));
    assert_eq!(root, expected);

    // the same tree as over the leaves followed by a copy of the last
    let mut copied = v.clone();
    copied.push(v[2]);
    assert_eq!(chip.build_binary_tree(&constants(), &copied).unwrap(), root);

    // a marker in the place of the copy gives another root
    let mut marked = v.clone();
    marked.push(Fr::from_u64(7));
    assert_ne!(chip.build_binary_tree(&constants(), &marked).unwrap(), root);
}

#[test]
fn merkle_five_leaves_self_pair_on_two_levels() {
    let chip = MerkleTreeChip::new(Sponge);
    let v = leaves(5);
    let h: Vec<Fr> = v.iter().map(|x| hash1(*x)).collect();
    let l1 = [hash2(h[0], h[1]), hash2(h[2], h[3]), hash2(h[4], h[4])];
    let l2 = [hash2(l1[0], l1[1]), hash2(l1[2], l1[2])];
    let expected = hash2(l2[0], l2[1]);
    assert_eq!(chip.build_binary_tree(&constants(), &v).unwrap(), expected);
}

#[test]
fn merkle_is_deterministic() {
    let chip = MerkleTreeChip::new(Sponge);
    for n in 1..9 {
        let v = leaves(n);
        let a = chip.build_binary_tree(&constants(), &v);
        let b = chip.build_binary_tree(&constants(), &v);
        assert!(a.is_ok());
        assert_eq!(a, b);
    }
}

#[test]
fn merkle_root_changes_with_any_leaf() {
    let chip = MerkleTreeChip::new(Sponge);
    let v = leaves(6);
    let root = chip.build_binary_tree(&constants(), &v).unwrap();
    for i in 0..v.len() {
        let mut changed = v.clone();
        changed[i] = changed[i].add(&Fr::one());
        let other = chip.build_binary_tree(&constants(), &changed).unwrap();
        assert_ne!(other, root);
        let mut layouter = Layouter::new();
        assert_eq!(chip.verify_root(&mut layouter, &constants(), &changed, root), Ok(()));
        assert!(!layouter.is_satisfied());
    }
}

#[test]
fn merkle_hash_failure_is_handed_on() {
    let chip = MerkleTreeChip::new(Broken);
    assert_eq!(chip.build_binary_tree(&constants(), &leaves(3)), Err(Error::Synthesis));
    assert_eq!(chip.hash_single(&constants(), Fr::one()), Err(Error::Synthesis));
    let chip = MerkleTreeChip::new(Silent);
    assert_eq!(chip.build_binary_tree(&constants(), &leaves(1)), Err(Error::Synthesis));
}
