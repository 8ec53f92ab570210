use hybit::regions::{canonical_region, estimated_factor_bytes, merge_unique_regions};
use hybit::HybitError;

#[test]
fn merge_unique_regions_preserves_learned_regions_without_duplicates() {
    let existing = vec![vec![0, 1, 2], vec![8, 9]];
    let candidates = vec![vec![2, 1, 0], vec![16, 17], vec![9, 8]];
    let merged = merge_unique_regions(&existing, candidates);

    assert_eq!(merged, vec![vec![0, 1, 2], vec![8, 9], vec![16, 17]]);
}

#[test]
fn merge_skips_empty_candidates_and_keeps_existing_as_given() {
    let existing = vec![vec![5, 3]];
    let candidates = vec![vec![], vec![7, 7, 6], vec![6, 7], vec![3, 5]];
    let merged = merge_unique_regions(&existing, candidates);
    assert_eq!(merged, vec![vec![5, 3], vec![6, 7], vec![3, 5]]);
}

#[test]
fn canonical_region_sorts_and_removes_duplicates() {
    assert_eq!(canonical_region(&vec![4, 1, 4, 0, 1]), vec![0, 1, 4]);
    assert_eq!(canonical_region(&vec![]), Vec::<usize>::new());
}

#[test]
fn factor_byte_estimate_counts_indices_packed_factor_weights_and_scratch() {
    let word = std::mem::size_of::<usize>();
    let regions = vec![vec![0, 1, 2, 3, 4, 5], vec![6, 7, 8, 9, 10, 11]];
    let per_region = 6 * word + 21 * 8 + 6 * 8 + 6 * 16;
    assert_eq!(estimated_factor_bytes(12, &regions), Ok(12 * 2 + 2 * per_region));
    let duplicated = vec![vec![2, 1, 1, 0], vec![]];
    assert_eq!(
        estimated_factor_bytes(4, &duplicated),
        Ok(4 * 2 + 3 * word + 6 * 8 + 3 * 8 + 3 * 16)
    );
}

#[test]
fn factor_byte_estimate_refuses_out_of_range_dofs_and_overflow() {
    assert_eq!(
        estimated_factor_bytes(4, &[vec![0, 4]]),
        Err(HybitError::InvalidArgument("hybrid preconditioner DOF is out of range"))
    );
    assert_eq!(estimated_factor_bytes(usize::MAX, &[]), Err(HybitError::SizeOverflow));
}

use hybit::regions::{overlap_multiplicity, select_regions_in_candidate_order};

#[test]
fn local_factor_candidate_order_policy_preserves_diagnostic_order() {
    let matrix_rows = 128usize;
    let low_energy = (0..32).collect::<Vec<_>>();
    let high_energy = (32..64).collect::<Vec<_>>();
    let regions = vec![low_energy.clone(), high_energy];

    let one_region_budget =
        estimated_factor_bytes(matrix_rows, std::slice::from_ref(&low_energy)).unwrap();
    let (accepted, skipped) =
        select_regions_in_candidate_order(matrix_rows, &[], regions, one_region_budget).unwrap();

    assert_eq!(accepted, vec![low_energy]);
    assert_eq!(skipped, 1);
}

#[test]
fn candidate_order_keeps_learned_regions_first_and_skips_known_ones() {
    let rows = 16usize;
    let learned = vec![vec![3, 2]];
    let candidates = vec![vec![2, 3], vec![8, 9], vec![], vec![10, 11]];
    let everything = estimated_factor_bytes(rows, &[vec![2, 3], vec![8, 9], vec![10, 11]]).unwrap();
    let (accepted, skipped) =
        select_regions_in_candidate_order(rows, &learned, candidates, everything).unwrap();
    assert_eq!(accepted, vec![vec![2, 3], vec![8, 9], vec![10, 11]]);
    assert_eq!(skipped, 0);
}

#[test]
fn candidate_order_refuses_learned_regions_over_budget() {
    let rows = 8usize;
    let learned = vec![vec![0, 1, 2]];
    let need = estimated_factor_bytes(rows, &learned).unwrap();
    assert_eq!(
        select_regions_in_candidate_order(rows, &learned, vec![vec![4]], need - 1),
        Err(HybitError::InvalidArgument("existing local factors exceed configured memory budget"))
    );
    assert_eq!(
        select_regions_in_candidate_order(rows, &[vec![8]], vec![], usize::MAX),
        Err(HybitError::InvalidArgument("hybrid preconditioner DOF is out of range"))
    );
}

#[test]
fn overlap_multiplicity_counts_regions_per_dof() {
    let (kept, multiplicity) =
        overlap_multiplicity(6, &[vec![2, 1, 1], vec![], vec![2, 3], vec![5]]).unwrap();
    assert_eq!(kept, vec![vec![1, 2], vec![2, 3], vec![5]]);
    assert_eq!(multiplicity, vec![0, 1, 2, 1, 0, 1]);
}

#[test]
fn overlap_multiplicity_refuses_empty_and_out_of_range_regions() {
    assert_eq!(
        overlap_multiplicity(4, &[vec![], vec![]]),
        Err(HybitError::InvalidArgument("hybrid preconditioner requires at least one local region"))
    );
    assert_eq!(
        overlap_multiplicity(4, &[vec![0], vec![1, 4]]),
        Err(HybitError::InvalidArgument("hybrid preconditioner DOF is out of range"))
    );
}
