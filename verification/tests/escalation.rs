use hybit::abtm::{AbtmConfig, AbtmTopology};
use hybit::escalation::{discover_core_regions, expand_regions_with_overlap};
use hybit::mask::DofMask;
use hybit::HybitError;

fn poisson_1d_pattern(n: usize) -> (Vec<u32>, Vec<u32>) {
    let mut row_ptr = vec![0u32];
    let mut col_idx = Vec::new();
    for i in 0..n {
        if i > 0 {
            col_idx.push((i - 1) as u32);
        }
        col_idx.push(i as u32);
        if i + 1 < n {
            col_idx.push((i + 1) as u32);
        }
        row_ptr.push(col_idx.len() as u32);
    }
    (row_ptr, col_idx)
}

fn rows_of(row_ptr: &[u32], col_idx: &[u32]) -> Vec<Vec<u32>> {
    (0..row_ptr.len() - 1)
        .map(|r| col_idx[row_ptr[r] as usize..row_ptr[r + 1] as usize].to_vec())
        .collect()
}

/// DOFs strongest residual first (ties by index) and the rank of each
/// residual magnitude (equal magnitudes share a rank).
fn priority(residual: &[f64]) -> (Vec<usize>, Vec<usize>) {
    let mut order: Vec<usize> = (0..residual.len()).collect();
    order.sort_by(|&a, &b| residual[b].abs().total_cmp(&residual[a].abs()).then_with(|| a.cmp(&b)));
    let mut level = vec![0usize; residual.len()];
    let mut rank = 0usize;
    for k in 0..order.len() {
        if k > 0 && residual[order[k]].abs() != residual[order[k - 1]].abs() {
            rank += 1;
        }
        level[order[k]] = rank;
    }
    (order, level)
}

#[test]
fn large_risk_component_harvests_multiple_core_regions() {
    let n = 96;
    let (row_ptr, col_idx) = poisson_1d_pattern(n);
    let all_dofs: Vec<usize> = (0..n).collect();
    let risk = DofMask::from_indices(n, &all_dofs).unwrap();
    let seeds = DofMask::from_indices(n, &all_dofs).unwrap();
    let residual: Vec<f64> = (0..n).map(|i| (i + 1) as f64).collect();
    let (order, level) = priority(&residual);

    let (selected, regions) =
        discover_core_regions(n, n, &row_ptr, &col_idx, &risk, &seeds, &order, &level, 16, 4).unwrap();

    assert_eq!(regions.len(), 4);
    assert_eq!(selected.count_ones(), 64);
    assert!(regions.iter().all(|region| region.len() <= 16));
    assert!(regions.iter().all(|region| !region.is_empty()));
}

#[test]
fn harvested_core_regions_prioritize_strong_residual_chunks() {
    let n = 96;
    let (row_ptr, col_idx) = poisson_1d_pattern(n);
    let all_dofs: Vec<usize> = (0..n).collect();
    let risk = DofMask::from_indices(n, &all_dofs).unwrap();
    let seeds = DofMask::from_indices(n, &all_dofs).unwrap();
    let mut residual = vec![1.0; n];
    residual[72..96].fill(100.0);
    let (order, level) = priority(&residual);

    let (_, regions) =
        discover_core_regions(n, n, &row_ptr, &col_idx, &risk, &seeds, &order, &level, 16, 2).unwrap();

    assert_eq!(regions.len(), 2);
    assert!(regions[0].iter().any(|&dof| dof >= 72));
}

#[test]
fn core_regions_grow_from_the_strongest_roots() {
    let n = 10;
    let (row_ptr, col_idx) = poisson_1d_pattern(n);
    let risk = DofMask::from_indices(n, &[0, 1, 2, 3, 6, 7, 8]).unwrap();
    let seeds = DofMask::from_indices(n, &[7]).unwrap();
    let residual = [0.0, 0.0, 0.0, 0.0, 0.0, 0.0, 1.0, 5.0, 2.0, 0.0];
    let (order, level) = priority(&residual);
    let (selected, regions) =
        discover_core_regions(n, n, &row_ptr, &col_idx, &risk, &seeds, &order, &level, 2, 8).unwrap();
    // Only the component {6, 7, 8} touches a seed; root 7 claims 7 and 6,
    // then root 8 claims itself.
    assert_eq!(regions, vec![vec![6, 7], vec![8]]);
    assert_eq!(selected.indices(), vec![6, 7, 8]);
}

#[test]
fn seeds_are_chunked_when_no_risk_component_touches_them() {
    let n = 8;
    let (row_ptr, col_idx) = poisson_1d_pattern(n);
    let risk = DofMask::from_indices(n, &[0]).unwrap();
    let seeds = DofMask::from_indices(n, &[3, 4, 5, 6]).unwrap();
    let residual = [0.0, 0.0, 0.0, 1.0, 4.0, 3.0, 2.0, 0.0];
    let (order, level) = priority(&residual);
    let (_, regions) =
        discover_core_regions(n, n, &row_ptr, &col_idx, &risk, &seeds, &order, &level, 3, 8).unwrap();
    // Seed component {3, 4, 5, 6} by priority: 4, 5, 6 | 3.
    assert_eq!(regions, vec![vec![4, 5, 6], vec![3]]);
}

#[test]
fn discovery_checks_the_priority_lengths() {
    let (row_ptr, col_idx) = poisson_1d_pattern(4);
    let mask = DofMask::new(4);
    assert_eq!(
        discover_core_regions(4, 4, &row_ptr, &col_idx, &mask, &mask, &[0, 1, 2], &[0, 0, 0, 0], 4, 4)
            .unwrap_err(),
        HybitError::DimensionMismatch { expected: 4, actual: 3 }
    );
    assert_eq!(
        discover_core_regions(4, 4, &row_ptr, &col_idx, &mask, &mask, &[0, 1, 2, 3], &[0], 4, 4)
            .unwrap_err(),
        HybitError::DimensionMismatch { expected: 4, actual: 1 }
    );
    let (selected, regions) =
        discover_core_regions(4, 4, &row_ptr, &col_idx, &mask, &mask, &[0, 1, 2, 3], &[0, 0, 0, 0], 4, 4)
            .unwrap();
    assert!(regions.is_empty());
    assert!(selected.is_empty());
}

#[test]
fn overlap_expansion_adds_halo_layers_and_caps_region_size() {
    let n = 12;
    let (row_ptr, col_idx) = poisson_1d_pattern(n);
    let (topology, _) =
        AbtmTopology::from_canonical_rows(n, n, &rows_of(&row_ptr, &col_idx), AbtmConfig::default()).unwrap();
    let order: Vec<usize> = (0..n).rev().collect();

    let grown = expand_regions_with_overlap(&topology, &[vec![5, 6]], &order, 1, 128).unwrap();
    assert_eq!(grown, vec![vec![4, 5, 6, 7]]);

    let two_layers = expand_regions_with_overlap(&topology, &[vec![5, 6]], &order, 2, 128).unwrap();
    assert_eq!(two_layers, vec![vec![3, 4, 5, 6, 7, 8]]);

    // Capped at 5 DOFs: the core stays and the halo DOF of strongest residual
    // (here the highest index) fills the remaining slots.
    let capped = expand_regions_with_overlap(&topology, &[vec![6, 5]], &order, 2, 5).unwrap();
    assert_eq!(capped, vec![vec![4, 5, 6, 7, 8]]);

    // A core larger than the cap keeps its smallest DOFs.
    let truncated = expand_regions_with_overlap(&topology, &[vec![9, 2, 5]], &order, 0, 2).unwrap();
    assert_eq!(truncated, vec![vec![2, 5]]);

    // Empty cores grow into nothing and are dropped.
    assert!(expand_regions_with_overlap(&topology, &[vec![]], &order, 1, 4).unwrap().is_empty());
}

#[test]
fn overlap_expansion_refuses_out_of_range_cores() {
    let n = 4;
    let (row_ptr, col_idx) = poisson_1d_pattern(n);
    let (topology, _) =
        AbtmTopology::from_canonical_rows(n, n, &rows_of(&row_ptr, &col_idx), AbtmConfig::default()).unwrap();
    let order: Vec<usize> = (0..n).collect();
    assert_eq!(
        expand_regions_with_overlap(&topology, &[vec![1], vec![4]], &order, 1, 8).unwrap_err(),
        HybitError::InvalidArgument("DOF mask index out of range")
    );
}
