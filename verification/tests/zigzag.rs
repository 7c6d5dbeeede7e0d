use std::collections::HashSet;

use ternary_zigzag::{
    block_zigzag, full_block_zigzag, inverse_block_zigzag, inverse_zigzag, rle_decode, rle_encode,
    zigzag_indices, zigzag_scan,
};

fn sequential(n: usize) -> Vec<Vec<i32>> {
    (0..n).map(|i| (0..n).map(|j| (i * n + j) as i32).collect()).collect()
}

#[test]
fn test_zigzag_1x1() {
    let matrix = vec![vec![42]];
    let result = zigzag_scan(&matrix);
    assert_eq!(result, vec![42]);
}

#[test]
fn test_zigzag_2x2() {
    let matrix = vec![vec![1, 2], vec![3, 4]];
    let result = zigzag_scan(&matrix);
    assert_eq!(result, vec![1, 2, 3, 4]);
}

#[test]
fn test_zigzag_3x3() {
    let matrix = vec![vec![1, 2, 3], vec![4, 5, 6], vec![7, 8, 9]];
    let result = zigzag_scan(&matrix);
    assert_eq!(result, vec![1, 2, 4, 7, 5, 3, 6, 8, 9]);
}

#[test]
fn test_zigzag_4x4() {
    let matrix: Vec<Vec<i32>> = (0..4).map(|i| (0..4).map(|j| i * 4 + j).collect()).collect();
    let result = zigzag_scan(&matrix);
    assert_eq!(result, vec![0, 1, 4, 8, 5, 2, 3, 6, 9, 12, 13, 10, 7, 11, 14, 15]);
}

#[test]
fn test_zigzag_8x8_known_pattern() {
    let matrix: Vec<Vec<i32>> = (0..8).map(|i| (0..8).map(|j| i * 8 + j).collect()).collect();
    let result = zigzag_scan(&matrix);

    assert_eq!(result.len(), 64);
    assert_eq!(result[0], 0);
    assert_eq!(result[63], 63);
    assert_eq!(result[1], 1);
}

#[test]
fn test_inverse_zigzag_roundtrip() {
    let matrices: Vec<Vec<Vec<i32>>> = vec![
        vec![vec![1]],
        vec![vec![1, 2], vec![3, 4]],
        vec![vec![1, 2, 3], vec![4, 5, 6], vec![7, 8, 9]],
        (0..4).map(|i| (0..4).map(|j| i * 4 + j + 1).collect()).collect(),
        (0..8).map(|i| (0..8).map(|j| i * 8 + j).collect()).collect(),
    ];

    for matrix in &matrices {
        let n = matrix.len();
        let scanned = zigzag_scan(matrix);
        let recovered = inverse_zigzag(&scanned, n);

        assert_eq!(*matrix, recovered, "Roundtrip failed for {}x{}", n, n);
    }
}

#[test]
fn test_inverse_zigzag_ternary() {
    let matrix = vec![
        vec![1, -1, 0, 1],
        vec![0, 0, 1, -1],
        vec![-1, 1, 0, 0],
        vec![1, 0, -1, 1],
    ];
    let scanned = zigzag_scan(&matrix);
    let recovered = inverse_zigzag(&scanned, 4);
    assert_eq!(matrix, recovered);
}

#[test]
fn test_block_zigzag() {
    let matrix = vec![
        vec![1, 2, 3, 4],
        vec![5, 6, 7, 8],
        vec![9, 10, 11, 12],
        vec![13, 14, 15, 16],
    ];

    let block = block_zigzag(&matrix, 0, 0, 2);
    assert_eq!(block, vec![1, 2, 5, 6]);

    let block = block_zigzag(&matrix, 2, 2, 2);
    assert_eq!(block, vec![11, 12, 15, 16]);

    let block = block_zigzag(&matrix, 1, 1, 2);
    assert_eq!(block, vec![6, 7, 10, 11]);
}

#[test]
fn test_inverse_block_zigzag() {
    let scanned = vec![1, 2, 5, 6];
    let mut dest = vec![vec![0; 4]; 4];
    inverse_block_zigzag(&scanned, 2, &mut dest, 0, 0, 2);

    assert_eq!(dest[0][0], 1);
    assert_eq!(dest[0][1], 2);
    assert_eq!(dest[1][0], 5);
    assert_eq!(dest[1][1], 6);
    assert_eq!(dest[2][2], 0);
}

#[test]
fn test_zigzag_ternary_compression() {
    let matrix = vec![
        vec![7, 0, 0, 0],
        vec![0, 0, -3, 0],
        vec![0, 0, 0, 0],
        vec![0, 2, 0, 0],
    ];

    let scanned = zigzag_scan(&matrix);
    let encoded = rle_encode(&scanned);
    let decoded = rle_decode(&encoded);

    assert_eq!(scanned, decoded);
    assert!(encoded.len() < scanned.len());
}

#[test]
fn test_full_block_zigzag() {
    let matrix = vec![
        vec![1, 2, 3, 4],
        vec![5, 6, 7, 8],
        vec![9, 10, 11, 12],
        vec![13, 14, 15, 16],
    ];

    let result = full_block_zigzag(&matrix, 2);
    assert_eq!(result.len(), 16);

    assert_eq!(result[0..4], [1, 2, 5, 6]);
    assert_eq!(result[4..8], [3, 4, 7, 8]);
    assert_eq!(result[8..12], [9, 10, 13, 14]);
    assert_eq!(result[12..16], [11, 12, 15, 16]);
}

#[test]
fn test_zigzag_indices() {
    let indices = zigzag_indices(3);
    assert_eq!(indices.len(), 9);
    assert_eq!(indices[0], (0, 0));
    assert_eq!(indices[1], (0, 1));
    assert_eq!(indices[2], (1, 0));
    assert_eq!(indices[8], (2, 2));

    let mut all_pairs: Vec<(usize, usize)> =
        (0..3).flat_map(|i| (0..3).map(move |j| (i, j))).collect();
    all_pairs.sort();
    let mut sorted_indices = indices.clone();
    sorted_indices.sort();
    assert_eq!(sorted_indices, all_pairs);
}

#[test]
fn test_zigzag_indices_no_duplicates() {
    for &n in &[1, 2, 3, 4, 8, 16] {
        let indices = zigzag_indices(n);
        assert_eq!(indices.len(), n * n);
        let mut seen = HashSet::new();
        for &(r, c) in &indices {
            assert!(seen.insert((r, c)), "Duplicate index ({}, {}) for n={}", r, c, n);
        }
    }
}

#[test]
fn test_zigzag_all_positions_covered() {
    for &n in &[1, 2, 3, 4, 5, 8] {
        let matrix: Vec<Vec<usize>> = (0..n).map(|i| (0..n).map(|j| i * n + j).collect()).collect();
        let scanned = zigzag_scan(&matrix);

        let mut sorted = scanned.clone();
        sorted.sort();
        let expected: Vec<usize> = (0..(n * n)).collect();
        assert_eq!(sorted, expected, "Missing values for n={}", n);
    }
}

#[test]
fn test_rle_with_zigzag_workflow() {
    let original = vec![
        vec![5, 0, 0, 0],
        vec![0, 0, 0, 0],
        vec![0, 0, -3, 0],
        vec![0, 0, 0, 0],
    ];

    let scanned = zigzag_scan(&original);
    let encoded = rle_encode(&scanned);
    let decoded = rle_decode(&encoded);
    assert_eq!(decoded, scanned);

    let recovered = inverse_zigzag(&decoded, 4);
    assert_eq!(recovered, original);
}

#[test]
fn test_known_jpeg_zigzag_8x8() {
    let indices = zigzag_indices(8);
    assert_eq!(indices[0], (0, 0));
    assert_eq!(indices[1], (0, 1));
    assert_eq!(indices[2], (1, 0));
    assert_eq!(indices[3], (2, 0));
    assert_eq!(indices[4], (1, 1));
    assert_eq!(indices[5], (0, 2));
    assert_eq!(indices[6], (0, 3));
    assert_eq!(indices[7], (1, 2));
    assert_eq!(indices[63], (7, 7));
    assert_eq!(indices[62], (7, 6));
}

#[test]
fn test_large_matrix_zigzag() {
    let n = 16;
    let matrix: Vec<Vec<i32>> = (0..n).map(|i| (0..n).map(|j| (i * n + j) as i32).collect()).collect();

    let scanned = zigzag_scan(&matrix);
    assert_eq!(scanned.len(), n * n);

    let recovered = inverse_zigzag(&scanned, n);
    assert_eq!(recovered, matrix);
}

#[test]
fn zigzag_order_matches_jpeg_4x4() {
    // Position in the walk of each cell of a 4x4 grid.
    let expected = [[0, 1, 5, 6], [2, 4, 7, 12], [3, 8, 11, 13], [9, 10, 14, 15]];
    let indices = zigzag_indices(4);
    for (k, &(r, c)) in indices.iter().enumerate() {
        assert_eq!(expected[r][c], k);
    }
}

#[test]
fn zigzag_indices_empty_grid() {
    assert!(zigzag_indices(0).is_empty());
}

#[test]
fn zigzag_walk_starts_right_and_ends_bottom_right() {
    for n in 1..10usize {
        let indices = zigzag_indices(n);
        assert_eq!(indices[0], (0, 0));
        assert_eq!(indices[n * n - 1], (n - 1, n - 1));
        if n >= 2 {
            assert_eq!(indices[1], (0, 1));
            assert_eq!(indices[2], (1, 0));
        }
    }
}

#[test]
fn zigzag_scan_follows_indices() {
    for n in 1..9usize {
        let matrix = sequential(n);
        let scanned = zigzag_scan(&matrix);
        let indices = zigzag_indices(n);
        for k in 0..n * n {
            let (r, c) = indices[k];
            assert_eq!(scanned[k], matrix[r][c]);
        }
    }
}

#[test]
fn zigzag_scan_of_strings_clones_entries() {
    let matrix = vec![
        vec!["a".to_string(), "b".to_string()],
        vec!["c".to_string(), "d".to_string()],
    ];
    let scanned = zigzag_scan(&matrix);
    assert_eq!(scanned, vec!["a", "b", "c", "d"]);
    let rebuilt = inverse_zigzag(&scanned, 2);
    assert_eq!(rebuilt, matrix);
}

#[test]
fn inverse_then_scan_gives_back_sequence() {
    for n in 0..7usize {
        let flat: Vec<i32> = (0..(n * n) as i32).map(|x| x * 3 - 7).collect();
        let rebuilt = inverse_zigzag(&flat, n);
        assert_eq!(rebuilt.len(), n);
        if n > 0 {
            assert_eq!(zigzag_scan(&rebuilt), flat);
        }
    }
}

#[test]
fn inverse_zigzag_places_by_rank() {
    let rebuilt = inverse_zigzag(&[10, 11, 12, 13, 14, 15, 16, 17, 18], 3);
    assert_eq!(rebuilt, vec![vec![10, 11, 15], vec![12, 14, 16], vec![13, 17, 18]]);
}

#[test]
fn block_zigzag_of_whole_matrix_is_zigzag_scan() {
    let matrix = sequential(5);
    assert_eq!(block_zigzag(&matrix, 0, 0, 5), zigzag_scan(&matrix));
}

#[test]
fn block_zigzag_in_wide_matrix() {
    let matrix = vec![vec![1, 2, 3, 4, 5, 6], vec![7, 8, 9, 10, 11, 12], vec![13, 14, 15, 16, 17, 18]];
    assert_eq!(block_zigzag(&matrix, 0, 3, 3), vec![4, 5, 10, 16, 11, 6, 12, 17, 18]);
}

#[test]
fn inverse_block_keeps_other_entries_and_ignores_n() {
    let mut dest = sequential(4);
    let before = dest.clone();
    inverse_block_zigzag(&[-1, -2, -3, -4], 99, &mut dest, 1, 2, 2);
    assert_eq!(dest[1][2], -1);
    assert_eq!(dest[1][3], -2);
    assert_eq!(dest[2][2], -3);
    assert_eq!(dest[2][3], -4);
    for r in 0..4 {
        for c in 0..4 {
            if !((1..3).contains(&r) && (2..4).contains(&c)) {
                assert_eq!(dest[r][c], before[r][c]);
            }
        }
    }
}

#[test]
fn inverse_block_then_block_scan_gives_back_sequence() {
    let mut dest = vec![vec![0; 5]; 5];
    let flat = vec![9, 8, 7, 6, 5, 4, 3, 2, 1];
    inverse_block_zigzag(&flat, 3, &mut dest, 2, 1, 3);
    assert_eq!(block_zigzag(&dest, 2, 1, 3), flat);
}

#[test]
fn inverse_block_of_size_zero_changes_nothing() {
    let mut dest = vec![vec![1, 2], vec![3, 4]];
    inverse_block_zigzag::<i32>(&[], 0, &mut dest, 7, 7, 0);
    assert_eq!(dest, vec![vec![1, 2], vec![3, 4]]);
}

#[test]
fn full_block_zigzag_rectangular() {
    let matrix = vec![vec![1, 2, 3, 4, 5, 6], vec![7, 8, 9, 10, 11, 12]];
    let result = full_block_zigzag(&matrix, 2);
    assert_eq!(result, vec![1, 2, 7, 8, 3, 4, 9, 10, 5, 6, 11, 12]);
}

#[test]
fn full_block_zigzag_single_small_block() {
    let matrix = sequential(3);
    assert_eq!(full_block_zigzag(&matrix, 8), zigzag_scan(&matrix));
}

#[test]
fn full_block_zigzag_empty_inputs() {
    let empty: Vec<Vec<i32>> = vec![];
    assert!(full_block_zigzag(&empty, 0).is_empty());
    assert!(full_block_zigzag(&empty, 3).is_empty());
    let no_columns: Vec<Vec<i32>> = vec![vec![], vec![], vec![]];
    assert!(full_block_zigzag(&no_columns, 2).is_empty());
}

#[test]
fn full_block_zigzag_length_is_rows_times_cols() {
    let matrix: Vec<Vec<i32>> = (0..6).map(|i| (0..9).map(|j| i * 9 + j).collect()).collect();
    assert_eq!(full_block_zigzag(&matrix, 3).len(), 54);
}

#[test]
fn full_block_zigzag_uneven_sizes_use_smaller_edge_blocks() {
    let matrix = vec![vec![1, 2, 3], vec![4, 5, 6], vec![7, 8, 9]];
    let result = full_block_zigzag(&matrix, 2);
    assert_eq!(result.len(), 9);
    assert_eq!(result[0..4], [1, 2, 4, 5]);
    assert_eq!(result, vec![1, 2, 4, 5, 3, 6, 7, 8, 9]);
    let mut sorted = result.clone();
    sorted.sort();
    assert_eq!(sorted, (1..=9).collect::<Vec<i32>>());
}

#[test]
fn full_block_zigzag_rectangular_single_block_walk() {
    // A 2-by-3 block is walked along its anti-diagonals like a square one.
    let matrix = vec![vec![1, 2, 3], vec![4, 5, 6]];
    assert_eq!(full_block_zigzag(&matrix, 4), vec![1, 2, 4, 5, 3, 6]);
}

#[test]
fn full_block_zigzag_tall_edge_blocks() {
    let matrix: Vec<Vec<i32>> = (0..5).map(|i| (0..3).map(|j| i * 3 + j).collect()).collect();
    let result = full_block_zigzag(&matrix, 2);
    assert_eq!(result.len(), 15);
    assert_eq!(
        result,
        vec![0, 1, 3, 4, 2, 5, 6, 7, 9, 10, 8, 11, 12, 13, 14]
    );
}

#[test]
fn full_block_zigzag_uses_first_row_width() {
    let matrix = vec![vec![1, 2], vec![3, 4, 99]];
    assert_eq!(full_block_zigzag(&matrix, 2), vec![1, 2, 3, 4]);
}

#[test]
fn full_block_zigzag_permutes_every_entry() {
    for rows in 1..7usize {
        for cols in 1..7usize {
            for bs in 1..5usize {
                let matrix: Vec<Vec<usize>> =
                    (0..rows).map(|i| (0..cols).map(|j| i * cols + j).collect()).collect();
                let mut result = full_block_zigzag(&matrix, bs);
                assert_eq!(result.len(), rows * cols);
                result.sort();
                assert_eq!(result, (0..rows * cols).collect::<Vec<usize>>());
            }
        }
    }
}

#[test]
fn full_block_zigzag_even_sizes_concatenates_block_scans() {
    let matrix: Vec<Vec<i32>> = (0..6).map(|i| (0..9).map(|j| i * 9 + j).collect()).collect();
    let bs = 3;
    let mut expected = Vec::new();
    for br in 0..6 / bs {
        for bc in 0..9 / bs {
            expected.extend(block_zigzag(&matrix, br * bs, bc * bs, bs));
        }
    }
    assert_eq!(full_block_zigzag(&matrix, bs), expected);
}
