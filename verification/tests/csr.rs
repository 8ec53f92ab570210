use hybit::csr::{
    build_block_node_adjacency, first_row_without_diagonal, fnv_mix, matrix_signatures,
    max_row_entries, validate_csr_structure, FNV_OFFSET,
};
use hybit::HybitError;

#[test]
fn valid_structure_is_accepted() {
    assert_eq!(validate_csr_structure(3, 3, &[0, 2, 5, 7], &[0, 1, 0, 1, 2, 1, 2], 7), Ok(()));
}

#[test]
fn structure_checks_report_the_first_failure() {
    assert_eq!(
        validate_csr_structure(3, 3, &[0, 2, 5], &[0, 1], 2),
        Err(HybitError::InvalidMatrix("row_ptr length must equal nrows + 1"))
    );
    assert_eq!(
        validate_csr_structure(1, 3, &[0, 2], &[0, 1], 3),
        Err(HybitError::InvalidMatrix("col_idx and values lengths differ"))
    );
    assert_eq!(
        validate_csr_structure(1, 3, &[1, 2], &[0, 1], 2),
        Err(HybitError::InvalidMatrix("row_ptr[0] must be zero"))
    );
    assert_eq!(
        validate_csr_structure(1, 3, &[0, 1], &[0, 1], 2),
        Err(HybitError::InvalidMatrix("row_ptr[nrows] must equal nnz"))
    );
    assert_eq!(
        validate_csr_structure(2, 3, &[0, 3, 2], &[0, 1], 2),
        Err(HybitError::InvalidMatrix("row_ptr must be monotonically nondecreasing"))
    );
    assert_eq!(
        validate_csr_structure(1, 2, &[0, 2], &[0, 2], 2),
        Err(HybitError::InvalidMatrix("column index out of range"))
    );
}

#[test]
fn diagonal_and_row_length_scans() {
    let row_ptr = [0u32, 2, 5, 6];
    let col_idx = [0u32, 1, 0, 1, 2, 1];
    assert_eq!(first_row_without_diagonal(3, 3, &row_ptr, &col_idx), Some(2));
    assert_eq!(max_row_entries(3, 3, &row_ptr, &col_idx), 3);
    assert_eq!(first_row_without_diagonal(3, 3, &[0, 2, 5, 7], &[0, 1, 0, 1, 2, 1, 2]), None);
    assert_eq!(max_row_entries(0, 0, &[0], &[]), 0);
}

#[test]
fn block_adjacency_lists_coupled_nodes_in_order() {
    // Four 1-DOF nodes coupled along a path, with an extra 3 -> 0 entry.
    let row_ptr = [0u32, 2, 5, 8, 11];
    let col_idx = [0u32, 1, 0, 1, 2, 1, 2, 3, 2, 3, 0];
    let adjacency = build_block_node_adjacency(4, 4, &row_ptr, &col_idx, 4, 1).unwrap();
    assert_eq!(adjacency, vec![vec![1], vec![0, 2], vec![1, 3], vec![0, 2]]);

    // Two nodes of two DOFs each: rows 0..2 belong to node 0.
    let row_ptr = [0u32, 2, 3, 4, 5];
    let col_idx = [1u32, 3, 0, 2, 3];
    let adjacency = build_block_node_adjacency(4, 4, &row_ptr, &col_idx, 2, 2).unwrap();
    assert_eq!(adjacency, vec![vec![1], vec![]]);

    assert_eq!(
        build_block_node_adjacency(4, 4, &row_ptr, &col_idx, 3, 2),
        Err(HybitError::DimensionMismatch { expected: 4, actual: 6 })
    );
    assert_eq!(
        build_block_node_adjacency(4, 4, &row_ptr, &col_idx, usize::MAX, 2),
        Err(HybitError::SizeOverflow)
    );
}

#[test]
fn fnv_mix_matches_byte_wise_fnv1a() {
    let mut h = FNV_OFFSET;
    for b in 0x0102_0304_0506_0708u64.to_le_bytes() {
        h ^= b as u64;
        h = h.wrapping_mul(0x100000001b3);
    }
    assert_eq!(fnv_mix(FNV_OFFSET, 0x0102_0304_0506_0708), h);
    assert_ne!(fnv_mix(FNV_OFFSET, 1), fnv_mix(FNV_OFFSET, 2));
}

#[test]
fn fnv_mix_keeps_different_hashes_apart() {
    assert_eq!(fnv_mix(0, 0), 0);
    for value in [0u64, 1, 0xff, u64::MAX] {
        assert_ne!(fnv_mix(1, value), fnv_mix(2, value));
        assert_ne!(fnv_mix(0, value), fnv_mix(FNV_OFFSET, value));
    }
}

#[test]
fn signatures_separate_structure_from_values() {
    let row_ptr = [0u32, 1, 2];
    let col_idx = [0u32, 1];
    let a = matrix_signatures(2, 2, &row_ptr, &col_idx, &[1.0f64.to_bits(), 2.0f64.to_bits()]);
    let b = matrix_signatures(2, 2, &row_ptr, &col_idx, &[1.0f64.to_bits(), 3.0f64.to_bits()]);
    let c = matrix_signatures(2, 2, &row_ptr, &[1u32, 0], &[1.0f64.to_bits(), 2.0f64.to_bits()]);
    assert_eq!(a.0, b.0);
    assert_ne!(a.1, b.1);
    assert_ne!(a.0, c.0);
    let mut expected = FNV_OFFSET;
    for v in [2u64, 2, 2, 0, 1, 2, 0, 1] {
        expected = fnv_mix(expected, v);
    }
    assert_eq!(a.0, expected);
}

use hybit::csr::check_prepared_signatures;

#[test]
fn prepared_signatures_report_structure_before_values() {
    let sigs = matrix_signatures(2, 2, &[0, 1, 2], &[0, 1], &[1.0f64.to_bits(), 2.0f64.to_bits()]);
    let changed_values =
        matrix_signatures(2, 2, &[0, 1, 2], &[0, 1], &[1.0f64.to_bits(), 3.0f64.to_bits()]);
    let changed_structure =
        matrix_signatures(2, 2, &[0, 1, 2], &[1, 0], &[1.0f64.to_bits(), 2.0f64.to_bits()]);
    assert_eq!(sigs.0, changed_values.0);
    assert_ne!(sigs.1, changed_values.1);
    assert_ne!(sigs.0, changed_structure.0);
    assert_eq!(check_prepared_signatures(sigs, sigs, "structure", "values"), Ok(()));
    assert_eq!(
        check_prepared_signatures(sigs, changed_values, "structure", "values"),
        Err(HybitError::InvalidArgument("values"))
    );
    assert_eq!(
        check_prepared_signatures(sigs, changed_structure, "structure", "values"),
        Err(HybitError::InvalidArgument("structure"))
    );
}
