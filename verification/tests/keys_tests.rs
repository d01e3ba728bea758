use lsmkv::keys::{compare_keys, KeyOrder};

#[test]
fn keys_compare_lexicographic() {
    assert_eq!(compare_keys(b"a", b"b"), KeyOrder::Less);
    assert_eq!(compare_keys(b"b", b"a"), KeyOrder::Greater);
    assert_eq!(compare_keys(b"ab", b"ab"), KeyOrder::Equal);
    assert_eq!(compare_keys(b"ab", b"abc"), KeyOrder::Less);
    assert_eq!(compare_keys(b"", b"a"), KeyOrder::Less);
    assert_eq!(compare_keys(b"", b""), KeyOrder::Equal);
    assert_eq!(compare_keys(&[0xff], &[0x01, 0x02]), KeyOrder::Greater);
}

#[test]
fn keys_compare_matches_vec_order() {
    let samples: Vec<Vec<u8>> = vec![vec![], vec![0], vec![0, 0], vec![1], vec![0, 255], vec![255], vec![1, 0, 3]];
    for a in &samples {
        for b in &samples {
            let expected = if a < b {
                KeyOrder::Less
            } else if a == b {
                KeyOrder::Equal
            } else {
                KeyOrder::Greater
            };
            assert_eq!(compare_keys(a, b), expected);
        }
    }
}
