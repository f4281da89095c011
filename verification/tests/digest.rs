use qdigest::{DigestError, QDigest};

/// The rank that the fraction `p` of `total` stands for.
fn rank(total: u64, p: f64) -> u64 {
    (total as f64 * p) as u64
}

fn quantile(h: &QDigest, p: f64) -> Vec<u8> {
    h.quantile_at(rank(h.total_weight(), p))
}

#[test]
fn qdigest_basic_smoke_test() {
    let mut h = QDigest::default();
    h.insert(b"0011", 9);
    h.insert(b"0022", 9);
    h.insert(b"AA11", 1);
    h.insert(b"AA22", 1);
    assert_eq!(h.compress(11), Ok(()));
    assert_eq!(quantile(&h, 0.1), b"0011".to_vec(),);
    assert_eq!(quantile(&h, 0.5), b"0022".to_vec(),);
}

#[test]
fn qdigest_insert_below_node() {
    let mut h = QDigest::default();
    h.insert(b"00", 9);
    h.insert(b"0011", 9);
    h.insert(b"AA11", 1);
    h.insert(b"AA22", 1);
    assert_eq!(h.compress(11), Ok(()));
    assert_eq!(quantile(&h, 0.10), b"00".to_vec(),);
    assert_eq!(quantile(&h, 0.50), b"0011".to_vec(),);
    assert_eq!(quantile(&h, 0.95), b"AA1".to_vec(),);
    assert_eq!(quantile(&h, 1.00), b"AA2".to_vec(),);
}

#[test]
fn fractions_agree_with_ranks() {
    let mut h = QDigest::new();
    h.insert(b"00", 9);
    h.insert(b"0011", 9);
    h.insert(b"AA11", 1);
    h.insert(b"AA22", 1);
    assert_eq!(h.compress(11), Ok(()));
    assert_eq!(h.quantile(1, 10), Ok(b"00".to_vec()));
    assert_eq!(h.quantile(1, 2), Ok(b"0011".to_vec()));
    assert_eq!(h.quantile(95, 100), Ok(b"AA1".to_vec()));
    assert_eq!(h.quantile(1, 1), Ok(b"AA2".to_vec()));
    assert_eq!(h.quantile(0, 1), Ok(Vec::new()));
}

#[test]
fn compress_refuses_zero() {
    let mut h = QDigest::new();
    h.insert(b"a", 3);
    assert_eq!(h.compress(0), Err(DigestError::InvalidArgument));
    assert_eq!(h.total_weight(), 3);
    assert_eq!(h.boundaries(), vec![b"a".to_vec()]);
}

#[test]
fn quantile_refuses_fractions_outside_the_unit_range() {
    let mut h = QDigest::new();
    h.insert(b"a", 3);
    assert_eq!(h.quantile(3, 2), Err(DigestError::InvalidArgument));
    assert_eq!(h.quantile(0, 0), Err(DigestError::InvalidArgument));
    assert_eq!(h.quantile(1, 0), Err(DigestError::InvalidArgument));
    assert_eq!(h.quantile(2, 2), Ok(b"a".to_vec()));
}
