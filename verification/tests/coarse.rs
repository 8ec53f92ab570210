use hybit::coarse::{
    packed_lower_index, packed_lower_len, piecewise_coarse_index,
    recommend_algebraic_aggregate_nodes, recommend_rigid_body_aggregate_nodes,
};
use hybit::policy::{
    AlgebraicCoarseOptions, TwoLevelAggregation, TwoLevelBasis, TwoLevelCoarseApplyPolicy,
    TwoLevelTransferApplyPolicy, TwoLevelTransferStoragePolicy,
    TwoLevelTransferValueStoragePolicy,
};
use hybit::HybitError;

#[test]
fn l_angle_sized_problem_selects_512_nodes_for_1536_target() {
    let aggregate = recommend_rigid_body_aggregate_nodes(119_355, 1_536).unwrap();
    assert_eq!(aggregate, 512);
    let aggregates = 119_355_usize.div_ceil(aggregate);
    assert_eq!(aggregates * 6, 1_404);
}

#[test]
fn recommendation_never_leaves_one_or_two_node_tail() {
    for nodes in 3usize..500 {
        let aggregate = recommend_rigid_body_aggregate_nodes(nodes, 96).unwrap();
        let tail = nodes % aggregate;
        assert!(aggregate >= nodes || tail == 0 || tail >= 3);
    }
}

#[test]
fn rigid_body_recommendation_keeps_coarse_dimension_within_target() {
    for nodes in 3usize..300 {
        for target in [6usize, 7, 12, 18, 48, 96, 1536] {
            let aggregate = recommend_rigid_body_aggregate_nodes(nodes, target).unwrap();
            assert!(aggregate >= 3 && aggregate <= nodes);
            assert!(nodes.div_ceil(aggregate) * 6 <= target);
        }
    }
}

#[test]
fn rigid_body_recommendation_refuses_small_inputs() {
    assert_eq!(
        recommend_rigid_body_aggregate_nodes(2, 96),
        Err(HybitError::InvalidArgument("rigid-body coarse space requires at least three nodes"))
    );
    assert_eq!(
        recommend_rigid_body_aggregate_nodes(10, 5),
        Err(HybitError::InvalidArgument("target_coarse_dimension must be at least 6"))
    );
    assert_eq!(recommend_rigid_body_aggregate_nodes(10, 6), Ok(10));
    assert_eq!(recommend_rigid_body_aggregate_nodes(10, 12), Ok(10));
    assert_eq!(recommend_rigid_body_aggregate_nodes(7, 1536), Ok(4));
    assert_eq!(recommend_rigid_body_aggregate_nodes(9, 1536), Ok(5));
}

#[test]
fn algebraic_coarse_recommendation_respects_target_dimension() {
    let options = AlgebraicCoarseOptions {
        enabled: true,
        dofs_per_node: 3,
        target_coarse_dimension: 12,
        aggregation: TwoLevelAggregation::Contiguous,
        basis: TwoLevelBasis::PiecewiseConstant,
        transfer_apply_policy: TwoLevelTransferApplyPolicy::Serial,
        transfer_storage_policy: TwoLevelTransferStoragePolicy::Wide,
        transfer_value_storage_policy: TwoLevelTransferValueStoragePolicy::F64,
        apply_policy: TwoLevelCoarseApplyPolicy::FactorSolve,
    };
    let aggregate_nodes = recommend_algebraic_aggregate_nodes(120, options).unwrap();
    assert_eq!(aggregate_nodes, 10);

    let node_count = 120 / options.dofs_per_node;
    let aggregate_count = node_count.div_ceil(aggregate_nodes);
    let coarse_dimension = aggregate_count * options.dofs_per_node;
    assert!(coarse_dimension <= options.target_coarse_dimension);
}

#[test]
fn algebraic_recommendation_refuses_indivisible_dimension() {
    let options = AlgebraicCoarseOptions::default();
    assert_eq!(
        recommend_algebraic_aggregate_nodes(100, options),
        Err(HybitError::InvalidArgument(
            "matrix dimension must be divisible by algebraic coarse dofs_per_node"
        ))
    );
    assert_eq!(recommend_algebraic_aggregate_nodes(0, options), Ok(1));
    let tiny_target = AlgebraicCoarseOptions { target_coarse_dimension: 1, ..options };
    assert_eq!(recommend_algebraic_aggregate_nodes(30, tiny_target), Ok(10));
}

#[test]
fn piecewise_coarse_index_maps_node_component_pairs() {
    assert_eq!(piecewise_coarse_index(7, 3, 2, &[]), 3 + 1);
    assert_eq!(piecewise_coarse_index(7, 3, 2, &[0, 0, 5]), 5 * 3 + 1);
    assert_eq!(piecewise_coarse_index(0, 1, 4, &[]), 0);
}

#[test]
fn packed_lower_triangle_arithmetic() {
    assert_eq!(packed_lower_len(8), Ok(36));
    assert_eq!(packed_lower_len(0), Ok(0));
    assert_eq!(packed_lower_len(usize::MAX), Err(HybitError::SizeOverflow));
    assert_eq!(packed_lower_index(0, 0), 0);
    assert_eq!(packed_lower_index(3, 2), 8);
    assert_eq!(packed_lower_index(4, 0), 10);
}
