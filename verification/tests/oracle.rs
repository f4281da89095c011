use qdigest::order::key_le;
use qdigest::Oracle;

#[test]
fn oracle_answers_the_first_key_that_reaches_the_rank() {
    let mut oracle = Oracle::new();
    assert_eq!(oracle.quantile_at(0), Vec::<u8>::new());
    assert_eq!(oracle.quantile_at(7), Vec::<u8>::new());
    oracle.insert(b"m", 3);
    oracle.insert(b"a", 2);
    oracle.insert(b"z", 1);
    oracle.insert(b"ma", 4);
    assert_eq!(oracle.total_weight(), 10);
    let expected: [&[u8]; 11] =
        [b"a", b"a", b"a", b"m", b"m", b"m", b"ma", b"ma", b"ma", b"ma", b"z"];
    for (rank, key) in expected.iter().enumerate() {
        assert_eq!(oracle.quantile_at(rank as u64), key.to_vec());
    }
    // beyond the total weight there is no key
    assert_eq!(oracle.quantile_at(11), Vec::<u8>::new());
}

#[test]
fn oracle_adds_up_the_weights_of_one_key() {
    let mut oracle = Oracle::default();
    oracle.insert(b"k", 1);
    oracle.insert(b"j", 1);
    oracle.insert(b"k", 5);
    oracle.insert(b"", 1);
    oracle.insert(b"j", 2);
    assert_eq!(oracle.total_weight(), 10);
    assert_eq!(oracle.quantile_at(1), b"".to_vec());
    assert_eq!(oracle.quantile_at(2), b"j".to_vec());
    assert_eq!(oracle.quantile_at(4), b"j".to_vec());
    assert_eq!(oracle.quantile_at(5), b"k".to_vec());
    assert_eq!(oracle.quantile_at(10), b"k".to_vec());
}

#[test]
fn keys_are_ordered_byte_by_byte() {
    let keys: [&[u8]; 7] = [b"", b"\x00", b"0", b"00", b"01", b"1", b"\xff"];
    for (i, a) in keys.iter().enumerate() {
        for (j, b) in keys.iter().enumerate() {
            assert_eq!(key_le(a, b), i <= j);
            assert_eq!(key_le(a, b), a <= b);
        }
    }
}
