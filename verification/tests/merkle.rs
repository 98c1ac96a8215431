//! Merkle batching tests: agreement with the rs_merkle crate, and the
//! per-leaf proof chains reproducing the root.

use ots_client::merkle::{compute_merkle_root, merkle_path, timestamp_from_merkle};
use ots_client::op::Op;
use ots_client::timestamp::{Step, StepData};

fn leaves(n: usize) -> Vec<Vec<u8>> {
    (0..n)
        .map(|i| Op::Sha256.execute(&vec![i as u8; 10]))
        .collect()
}

#[test]
fn root_matches_rs_merkle() {
    for n in 1..=6 {
        let ls = leaves(n);
        let mine = compute_merkle_root(&ls);
        let theirs_leaves: Vec<[u8; 32]> = ls
            .iter()
            .map(|l| {
                let mut a = [0u8; 32];
                a.copy_from_slice(l);
                a
            })
            .collect();
        let tree = rs_merkle::MerkleTree::<rs_merkle::algorithms::Sha256>::from_leaves(
            &theirs_leaves,
        );
        let theirs = tree.root().expect("rs_merkle computes a root");
        assert_eq!(mine, theirs.to_vec(), "batch of {}", n);
    }
}

fn apply_chain(mut digest: Vec<u8>, step: &Step) -> Vec<u8> {
    let mut cur = step;
    loop {
        match &cur.data {
            StepData::Op(op) => {
                digest = op.execute(&digest);
                assert_eq!(digest, cur.output, "chain outputs are consistent");
            }
            _ => panic!("proof chain holds only operations"),
        }
        if cur.next.is_empty() {
            return digest;
        }
        assert_eq!(cur.next.len(), 1, "proof chain is linear");
        cur = &cur.next[0];
    }
}

#[test]
fn per_leaf_chain_reproduces_root() {
    for n in 2..=6 {
        let ls = leaves(n);
        let root = compute_merkle_root(&ls);
        for i in 0..n {
            let path = merkle_path(&ls, i);
            assert!(!path.is_empty());
            let ts = timestamp_from_merkle(&ls[i], &path);
            assert_eq!(ts.start_digest, ls[i]);
            let tip = apply_chain(ls[i].clone(), &ts.first_step);
            assert_eq!(tip, root, "leaf {} of batch {}", i, n);
        }
    }
}

#[test]
fn single_leaf_root_is_the_leaf() {
    let ls = leaves(1);
    let root = compute_merkle_root(&ls);
    assert_eq!(root, ls[0]);
}
