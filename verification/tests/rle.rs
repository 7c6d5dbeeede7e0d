use ternary_zigzag::{rle_decode, rle_encode, RLEPair};

#[test]
fn test_rle_encode_basic() {
    let data = vec![1, 1, 1, 2, 2, 3];
    let encoded = rle_encode(&data);
    assert_eq!(encoded.len(), 3);
    assert_eq!(encoded[0], RLEPair { value: 1, count: 3 });
    assert_eq!(encoded[1], RLEPair { value: 2, count: 2 });
    assert_eq!(encoded[2], RLEPair { value: 3, count: 1 });
}

#[test]
fn test_rle_encode_ternary() {
    let data = vec![0, 0, 0, 0, 1, -1, -1, 0, 0];
    let encoded = rle_encode(&data);
    assert_eq!(encoded.len(), 4);
    assert_eq!(encoded[0], RLEPair { value: 0, count: 4 });
    assert_eq!(encoded[1], RLEPair { value: 1, count: 1 });
    assert_eq!(encoded[2], RLEPair { value: -1, count: 2 });
    assert_eq!(encoded[3], RLEPair { value: 0, count: 2 });
}

#[test]
fn test_rle_decode_roundtrip() {
    let data_sets = vec![
        vec![1, 1, 1, 2, 2, 3],
        vec![0, 0, 0, 0, 0],
        vec![1],
        vec![1, -1, 1, -1],
        vec![0i32; 100],
    ];

    for data in &data_sets {
        let encoded = rle_encode(data);
        let decoded = rle_decode(&encoded);
        assert_eq!(*data, decoded);
    }
}

#[test]
fn test_rle_empty() {
    let data: Vec<i32> = vec![];
    let encoded = rle_encode(&data);
    assert!(encoded.is_empty());
    let decoded = rle_decode(&encoded);
    assert!(decoded.is_empty());
}

#[test]
fn test_rle_single_element() {
    let data = vec![42];
    let encoded = rle_encode(&data);
    assert_eq!(encoded.len(), 1);
    assert_eq!(encoded[0], RLEPair { value: 42, count: 1 });
    let decoded = rle_decode(&encoded);
    assert_eq!(decoded, data);
}

#[test]
fn rle_constant_data_is_one_pair() {
    let data = vec![0i32; 100];
    let encoded = rle_encode(&data);
    assert_eq!(encoded, vec![RLEPair { value: 0, count: 100 }]);
}

#[test]
fn rle_data_without_repeats_keeps_its_size() {
    let data: Vec<i32> = (0..50).collect();
    let encoded = rle_encode(&data);
    assert_eq!(encoded.len(), 50);
    assert!(encoded.iter().all(|p| p.count == 1));
}

#[test]
fn rle_encoding_is_canonical_and_not_longer() {
    let data = vec![3, 3, -1, 0, 0, 0, 3, 3, 3, 3, -1];
    let encoded = rle_encode(&data);
    assert!(encoded.len() <= data.len());
    assert!(encoded.iter().all(|p| p.count >= 1));
    for w in encoded.windows(2) {
        assert_ne!(w[0].value, w[1].value);
    }
    assert_eq!(encoded.iter().map(|p| p.count).sum::<usize>(), data.len());
}

#[test]
fn rle_decode_then_encode_gives_back_canonical_pairs() {
    let pairs = vec![
        RLEPair { value: 7, count: 2 },
        RLEPair { value: 0, count: 5 },
        RLEPair { value: -1, count: 1 },
        RLEPair { value: 0, count: 3 },
    ];
    let decoded = rle_decode(&pairs);
    assert_eq!(decoded, vec![7, 7, 0, 0, 0, 0, 0, -1, 0, 0, 0]);
    assert_eq!(rle_encode(&decoded), pairs);
}

#[test]
fn rle_decode_skips_empty_runs_and_merges_nothing() {
    let pairs = vec![
        RLEPair { value: 1, count: 0 },
        RLEPair { value: 2, count: 2 },
        RLEPair { value: 2, count: 1 },
    ];
    assert_eq!(rle_decode(&pairs), vec![2, 2, 2]);
    assert_eq!(rle_encode(&rle_decode(&pairs)), vec![RLEPair { value: 2, count: 3 }]);
}

#[test]
fn rle_of_strings() {
    let data = vec!["x".to_string(), "x".to_string(), "y".to_string()];
    let encoded = rle_encode(&data);
    assert_eq!(
        encoded,
        vec![RLEPair { value: "x".to_string(), count: 2 }, RLEPair { value: "y".to_string(), count: 1 }]
    );
    assert_eq!(rle_decode(&encoded), data);
}

#[test]
fn rle_decode_of_concatenation_concatenates() {
    let p = vec![RLEPair { value: 1, count: 2 }, RLEPair { value: 0, count: 1 }];
    let q = vec![RLEPair { value: 0, count: 3 }, RLEPair { value: -1, count: 1 }];
    let mut pq = p.clone();
    pq.extend(q.iter().cloned());
    let mut expected = rle_decode(&p);
    expected.extend(rle_decode(&q));
    assert_eq!(rle_decode(&pq), expected);
    let none: Vec<RLEPair<i32>> = vec![];
    assert!(rle_decode(&none).is_empty());
}
