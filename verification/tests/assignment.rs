use hybit::coarse::{
    aggregate_node_index, assigned_size_range, check_two_level_arguments, coarse_dimension_for,
    contiguous_aggregate_count, contiguous_assignment, contiguous_size_range,
    validate_rigid_body_assignment,
};
use hybit::policy::TwoLevelCoarseApplyPolicy;
use hybit::HybitError;

#[test]
fn two_level_arguments_are_checked_in_order() {
    assert_eq!(
        check_two_level_arguments(6, 5, 0, 0),
        Err(HybitError::InvalidMatrix("two-level block Jacobi requires a square matrix"))
    );
    assert_eq!(
        check_two_level_arguments(6, 6, 0, 0),
        Err(HybitError::InvalidArgument("dofs_per_node must be > 0"))
    );
    assert_eq!(
        check_two_level_arguments(6, 6, 3, 0),
        Err(HybitError::InvalidArgument("aggregate_nodes must be > 0"))
    );
    assert_eq!(
        check_two_level_arguments(7, 7, 3, 2),
        Err(HybitError::InvalidArgument(
            "matrix dimension must be divisible by dofs_per_node for aggregation"
        ))
    );
    assert_eq!(check_two_level_arguments(12, 12, 3, 2), Ok(4));
}

#[test]
fn contiguous_aggregates_cover_every_node() {
    assert_eq!(contiguous_aggregate_count(10, 4), Ok(3));
    assert_eq!(contiguous_aggregate_count(0, 4), Ok(0));
    assert_eq!(contiguous_aggregate_count(usize::MAX, 2), Err(HybitError::SizeOverflow));
    assert_eq!(contiguous_size_range(10, 4), (2, 4));
    assert_eq!(contiguous_size_range(3, 4), (3, 3));
    assert_eq!(contiguous_size_range(8, 4), (4, 4));
    assert_eq!(contiguous_size_range(0, 4), (0, 0));

    let (assignment, count) = contiguous_assignment(7, 3).unwrap();
    assert_eq!(assignment, vec![0, 0, 0, 1, 1, 1, 2]);
    assert_eq!(count, 3);
    assert_eq!(
        contiguous_assignment(7, 0),
        Err(HybitError::InvalidArgument("aggregate_nodes must be > 0"))
    );
}

#[test]
fn assigned_sizes_and_node_index() {
    let assignment = vec![1, 0, 1, 2, 1, 0];
    assert_eq!(assigned_size_range(&assignment, 3), (1, 3));
    assert_eq!(assigned_size_range(&assignment, 0), (0, 0));

    let (ptr, nodes) = aggregate_node_index(&assignment, 3);
    assert_eq!(ptr, vec![0, 2, 5, 6]);
    assert_eq!(nodes, vec![1, 5, 0, 2, 4, 3]);
}

#[test]
fn rigid_body_assignment_is_checked_in_order() {
    let bad = HybitError::InvalidArgument("invalid rigid-body aggregate assignment");
    assert_eq!(validate_rigid_body_assignment(3, &vec![0, 0], 1), Err(bad.clone()));
    assert_eq!(validate_rigid_body_assignment(3, &vec![0, 0, 0], 0), Err(bad));
    assert_eq!(
        validate_rigid_body_assignment(3, &vec![0, 1, 0], 1),
        Err(HybitError::InvalidArgument("rigid-body aggregate id is out of range"))
    );
    assert_eq!(
        validate_rigid_body_assignment(5, &vec![0, 0, 0, 1, 1], 2),
        Err(HybitError::InvalidArgument(
            "every rigid-body aggregate must contain at least three nodes"
        ))
    );
    assert_eq!(
        validate_rigid_body_assignment(7, &vec![0, 1, 0, 1, 0, 1, 0], 2),
        Ok((3, 4))
    );
}

#[test]
fn coarse_dimension_resolves_the_apply_policy() {
    assert_eq!(
        coarse_dimension_for(4, 6, TwoLevelCoarseApplyPolicy::Auto),
        Ok((24, TwoLevelCoarseApplyPolicy::FactorSolve))
    );
    assert_eq!(
        coarse_dimension_for(300, 6, TwoLevelCoarseApplyPolicy::Auto),
        Ok((1800, TwoLevelCoarseApplyPolicy::ExplicitInverse))
    );
    assert_eq!(
        coarse_dimension_for(usize::MAX, 2, TwoLevelCoarseApplyPolicy::FactorSolve),
        Err(HybitError::SizeOverflow)
    );
    assert_eq!(
        coarse_dimension_for(1usize << 40, 1, TwoLevelCoarseApplyPolicy::FactorSolve),
        Err(HybitError::SizeOverflow)
    );
}
