use qdigest::{Oracle, QDigest};

fn filled(entries: &[(&[u8], u64)]) -> QDigest {
    let mut h = QDigest::new();
    for (key, weight) in entries {
        h.insert(key, *weight);
    }
    h
}

fn smoke() -> QDigest {
    filled(&[(b"0011", 9), (b"0022", 9), (b"AA11", 1), (b"AA22", 1)])
}

fn keys(list: &[&[u8]]) -> Vec<Vec<u8>> {
    list.iter().map(|k| k.to_vec()).collect()
}

#[test]
fn weight_is_conserved_by_compression() {
    for k in [1u64, 2, 3, 7, 11, 20, 21, 1000] {
        let mut h = smoke();
        assert_eq!(h.total_weight(), 20);
        assert_eq!(h.compress(k), Ok(()));
        assert_eq!(h.total_weight(), 20);
        // the whole weight is found in the tree: the last unit of it has a key
        assert_eq!(h.quantile_at(20), h.quantile(1, 1).unwrap());
        let mut heaviest = 0;
        for rank in 0..=20u64 {
            let key = h.quantile_at(rank);
            assert!(heaviest <= rank);
            heaviest = rank;
            assert!(key.len() <= 4);
        }
    }
}

#[test]
fn threshold_is_the_total_divided_by_k() {
    // 20 / 7 == 2: the two keys under "AA" fold all the way up to the root
    let mut h = filled(&[(b"00", 9), (b"0011", 9), (b"AA11", 1), (b"AA22", 1)]);
    assert_eq!(h.compress(7), Ok(()));
    assert_eq!(h.boundaries(), keys(&[b"", b"00", b"0011"]));
    // 20 / 10 == 2 as well
    let mut h = filled(&[(b"00", 9), (b"0011", 9), (b"AA11", 1), (b"AA22", 1)]);
    assert_eq!(h.compress(10), Ok(()));
    assert_eq!(h.boundaries(), keys(&[b"", b"00", b"0011"]));
    // 20 / 11 == 1: only the leaves fold, into their parents
    let mut h = filled(&[(b"00", 9), (b"0011", 9), (b"AA11", 1), (b"AA22", 1)]);
    assert_eq!(h.compress(11), Ok(()));
    assert_eq!(h.boundaries(), keys(&[b"00", b"0011", b"AA1", b"AA2"]));
    // 20 / 21 == 0: nothing holds so little
    let mut h = filled(&[(b"00", 9), (b"0011", 9), (b"AA11", 1), (b"AA22", 1)]);
    assert_eq!(h.compress(21), Ok(()));
    assert_eq!(h.boundaries(), keys(&[b"00", b"0011", b"AA11", b"AA22"]));
}

#[test]
fn compressing_a_settled_digest_again_changes_nothing() {
    let mut h = smoke();
    assert_eq!(h.compress(11), Ok(()));
    let once = h.boundaries();
    let answers: Vec<Vec<u8>> = (0..=20u64).map(|r| h.quantile_at(r)).collect();
    assert_eq!(h.compress(11), Ok(()));
    assert_eq!(h.boundaries(), once);
    let again: Vec<Vec<u8>> = (0..=20u64).map(|r| h.quantile_at(r)).collect();
    assert_eq!(again, answers);
}

#[test]
fn compressing_again_can_fold_a_node_that_was_emptied() {
    // total 1007, k 201: threshold 5
    let mut h = filled(&[(b"c", 4), (b"cg", 3), (b"hh", 1000)]);
    assert_eq!(h.compress(201), Ok(()));
    // "c" handed its 4 up to the root and kept its child
    assert_eq!(h.boundaries(), keys(&[b"", b"cg", b"hh"]));
    assert_eq!(h.compress(201), Ok(()));
    // now "c" with its child weighs 3 and folds
    assert_eq!(h.boundaries(), keys(&[b"", b"c", b"hh"]));
    assert_eq!(h.total_weight(), 1007);
    assert_eq!(h.compress(201), Ok(()));
    assert_eq!(h.boundaries(), keys(&[b"", b"c", b"hh"]));
}

#[test]
fn quantile_is_a_lower_bound_of_the_exact_quantile() {
    let inputs: Vec<(Vec<u8>, u64)> = vec![
        (b"0011".to_vec(), 9),
        (b"0022".to_vec(), 9),
        (b"AA11".to_vec(), 1),
        (b"AA22".to_vec(), 1),
        (b"".to_vec(), 2),
        (b"0".to_vec(), 1),
        (b"00".to_vec(), 3),
        (b"zz".to_vec(), 5),
        (b"0011".to_vec(), 4),
        (vec![255, 255, 0], 7),
        (vec![0], 1),
        (b"AA".to_vec(), 0),
    ];
    for k in [1u64, 2, 3, 5, 8, 13, 21, 34, 55, 1000] {
        for n in 0..=inputs.len() {
            let mut oracle = Oracle::new();
            let mut h = QDigest::new();
            for (key, weight) in &inputs[..n] {
                oracle.insert(key, *weight);
                h.insert(key, *weight);
            }
            assert_eq!(h.total_weight(), oracle.total_weight());
            assert_eq!(h.compress(k), Ok(()));
            for rank in 0..=h.total_weight() {
                assert!(h.quantile_at(rank) <= oracle.quantile_at(rank));
            }
        }
    }
}

#[test]
fn qc_qdigest_generates_lower_bounds() {
    // a fixed walk through inputs, bucket counts and fractions
    let mut seed: u64 = 0x2545_f491_4f6c_dd1d;
    let mut next = move || {
        seed ^= seed << 13;
        seed ^= seed >> 7;
        seed ^= seed << 17;
        seed
    };
    for _ in 0..200 {
        let mut oracle = Oracle::default();
        let mut h = QDigest::default();
        let count = next() % 20;
        for _ in 0..count {
            let len = (next() % 4) as usize;
            let xs: Vec<u8> = (0..len).map(|_| (next() % 3) as u8).collect();
            oracle.insert(&xs, 1);
            h.insert(&xs, 1);
        }
        let k = next() % 30 + 1;
        assert_eq!(h.compress(k), Ok(()));
        let r = (next() >> 32) as u32;
        let p = r as f64 / u32::MAX as f64;
        let rank = (h.total_weight() as f64 * p) as u64;
        assert!(h.quantile_at(rank) <= oracle.quantile_at(rank));
    }
}

#[test]
fn uncompressed_digest_answers_exactly() {
    let mut oracle = Oracle::new();
    let mut h = QDigest::new();
    for (key, weight) in [(&b"b"[..], 3u64), (b"a", 2), (b"ab", 4), (b"c", 1), (b"a", 5)] {
        oracle.insert(key, weight);
        h.insert(key, weight);
    }
    for rank in 1..=15u64 {
        assert_eq!(h.quantile_at(rank), oracle.quantile_at(rank));
    }
    // at rank 0 the digest answers its root, the reference its first key
    assert_eq!(h.quantile_at(0), b"".to_vec());
    assert_eq!(oracle.quantile_at(0), b"a".to_vec());
}

#[test]
fn boundaries_are_strictly_ascending() {
    for k in [1u64, 2, 3, 4, 6, 11, 30] {
        let mut h = filled(&[
            (b"0011", 9),
            (b"0022", 9),
            (b"AA11", 1),
            (b"AA22", 1),
            (b"", 3),
            (b"00", 2),
            (b"A", 1),
            (b"zzz", 6),
        ]);
        assert_eq!(h.compress(k), Ok(()));
        let keys = h.boundaries();
        for pair in keys.windows(2) {
            assert!(pair[0] < pair[1]);
        }
    }
}

#[test]
fn a_boundary_holds_more_than_its_children_together() {
    // the root holds 1 and its children 3, "a" holds 2 and its child 4,
    // and "q" holds nothing
    let h = filled(&[(b"b", 1), (b"a", 2), (b"ab", 4), (b"", 1), (b"q", 0)]);
    assert_eq!(h.boundaries(), keys(&[b"ab", b"b"]));
    let h = filled(&[(b"", 4), (b"a", 2), (b"b", 1)]);
    assert_eq!(h.boundaries(), keys(&[b"", b"a", b"b"]));
    let h = filled(&[(b"a", 5), (b"ab", 4)]);
    assert_eq!(h.boundaries(), keys(&[b"a", b"ab"]));
    let h = filled(&[(b"a", 4), (b"ab", 4)]);
    assert_eq!(h.boundaries(), keys(&[b"ab"]));
}

#[test]
fn endpoints() {
    let mut h = smoke();
    assert_eq!(h.quantile(0, 1), Ok(Vec::new()));
    assert_eq!(h.quantile(1, 1), Ok(b"AA22".to_vec()));
    assert_eq!(h.compress(11), Ok(()));
    assert_eq!(h.quantile(0, 1), Ok(Vec::new()));
    assert_eq!(h.quantile(1, 1), Ok(b"AA2".to_vec()));
    // nothing inserted: the empty key at both ends
    let empty = QDigest::new();
    assert_eq!(empty.quantile(0, 1), Ok(Vec::new()));
    assert_eq!(empty.quantile(1, 1), Ok(Vec::new()));
    assert_eq!(empty.boundaries(), Vec::<Vec<u8>>::new());
}

#[test]
fn the_whole_weight_selects_the_last_key_that_holds_weight() {
    // the last node, "b", holds nothing
    let h = filled(&[(b"a", 1), (b"b", 0)]);
    assert_eq!(h.quantile(1, 1), Ok(b"a".to_vec()));
    // a rank beyond the total weight gives the last key of the tree
    assert_eq!(h.quantile_at(2), b"b".to_vec());
    assert_eq!(h.quantile_at(u64::MAX), b"b".to_vec());
}

#[test]
fn concrete_scenario() {
    let mut h = smoke();
    assert_eq!(h.total_weight(), 20);
    assert_eq!(h.compress(11), Ok(()));
    assert_eq!(h.quantile(1, 10), Ok(b"0011".to_vec()));
    assert_eq!(h.quantile(1, 2), Ok(b"0022".to_vec()));
    let bounds = h.boundaries();
    assert!(!bounds.contains(&b"AA11".to_vec()));
    assert!(!bounds.contains(&b"AA22".to_vec()));
    assert_eq!(bounds, keys(&[b"0011", b"0022", b"AA1", b"AA2"]));
    // with a threshold of 2 or more the light keys fold through "AA" up to the root
    let mut h = smoke();
    assert_eq!(h.compress(3), Ok(()));
    assert_eq!(h.boundaries(), keys(&[b"", b"0011", b"0022"]));
    assert_eq!(h.quantile(1, 10), Ok(b"".to_vec()));
    assert_eq!(h.quantile(1, 2), Ok(b"0011".to_vec()));
    assert_eq!(h.quantile(3, 5), Ok(b"0022".to_vec()));
}

#[test]
fn bucket_count_depends_on_k_and_not_on_the_number_of_keys() {
    for k in [1u64, 2, 4, 8] {
        for n in [100u32, 1000, 5000] {
            let mut h = QDigest::new();
            for i in 0..n {
                h.insert(&i.to_be_bytes(), 1);
            }
            assert_eq!(h.total_weight(), n as u64);
            assert_eq!(h.boundaries().len(), n as usize);
            assert_eq!(h.compress(k), Ok(()));
            let buckets = h.boundaries().len() as u64;
            assert!(buckets <= 512 * k - 255);
        }
    }
}

#[test]
fn weights_saturate() {
    let mut h = QDigest::new();
    let mut oracle = Oracle::new();
    h.insert(b"b", u64::MAX - 3);
    oracle.insert(b"b", u64::MAX - 3);
    h.insert(b"a", 5);
    oracle.insert(b"a", 5);
    assert_eq!(h.total_weight(), u64::MAX);
    assert_eq!(oracle.total_weight(), u64::MAX);
    // only 3 of the 5 went in
    assert_eq!(h.quantile_at(3), b"a".to_vec());
    assert_eq!(h.quantile_at(4), b"b".to_vec());
    assert_eq!(oracle.quantile_at(3), b"a".to_vec());
    assert_eq!(oracle.quantile_at(4), b"b".to_vec());
    h.insert(b"c", 1);
    assert_eq!(h.total_weight(), u64::MAX);
    assert_eq!(h.quantile(1, 1), Ok(b"b".to_vec()));
    assert_eq!(h.compress(2), Ok(()));
    assert_eq!(h.total_weight(), u64::MAX);
}

#[test]
fn every_byte_string_is_a_key() {
    let mut h = QDigest::new();
    h.insert(b"", 2);
    h.insert(&[0], 1);
    h.insert(&[255], 1);
    h.insert(&[255, 0, 255], 1);
    h.insert(&[0, 0], 0);
    assert_eq!(h.total_weight(), 5);
    assert_eq!(h.quantile_at(1), Vec::<u8>::new());
    assert_eq!(h.quantile_at(2), Vec::<u8>::new());
    assert_eq!(h.quantile_at(3), vec![0]);
    assert_eq!(h.quantile_at(4), vec![255]);
    assert_eq!(h.quantile_at(5), vec![255, 0, 255]);
    // the root holds 2, as much as its two children together: no boundary
    assert_eq!(h.boundaries(), vec![vec![0], vec![255], vec![255, 0, 255]]);
}
