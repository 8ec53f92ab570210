use hybit::policy::{
    backend_for_policy, escalation_stage_budget, pcg_vector_policy_for_workers,
    resolve_pcg_vector_policy, resolve_preconditioner_policy, resolve_spmv_policy,
    structural_graph_auto_can_fallback, AlgebraicCoarseOptions, BackendPolicy, MatrixBackend,
    StructuralOptions, StructuralPcgVectorPolicy, StructuralPreconditionerPolicy,
    StructuralSpmvPolicy, TwoLevelAggregation, TwoLevelBasis, TwoLevelCoarseApplyPolicy,
    TwoLevelTransferApplyPolicy, TwoLevelTransferStoragePolicy,
    TwoLevelTransferValueStoragePolicy, EXPLICIT_INVERSE_AUTO_MIN_COARSE_DIMENSION,
    STRUCTURAL_PARALLEL_PCG_VECTOR_MIN_N, STRUCTURAL_PARALLEL_SPMV_MIN_NNZ,
};
use hybit::HybitError;

#[test]
fn two_level_auto_policy_resolves_at_empirical_crossover() {
    assert_eq!(
        TwoLevelCoarseApplyPolicy::Auto.resolve(EXPLICIT_INVERSE_AUTO_MIN_COARSE_DIMENSION - 1),
        TwoLevelCoarseApplyPolicy::FactorSolve
    );
    assert_eq!(
        TwoLevelCoarseApplyPolicy::Auto.resolve(EXPLICIT_INVERSE_AUTO_MIN_COARSE_DIMENSION),
        TwoLevelCoarseApplyPolicy::ExplicitInverse
    );
    assert_eq!(
        TwoLevelCoarseApplyPolicy::FactorSolve.resolve(usize::MAX),
        TwoLevelCoarseApplyPolicy::FactorSolve
    );
    assert_eq!(
        TwoLevelCoarseApplyPolicy::ExplicitInverse.resolve(0),
        TwoLevelCoarseApplyPolicy::ExplicitInverse
    );
}

#[test]
fn escalation_stage_budget_gives_final_stage_all_remaining_iterations() {
    let max_escalations = 3;
    let escalation_stage_iterations = 7;
    assert_eq!(escalation_stage_budget(50, 1, max_escalations, escalation_stage_iterations), 7);
    assert_eq!(escalation_stage_budget(43, 2, max_escalations, escalation_stage_iterations), 7);
    assert_eq!(escalation_stage_budget(36, 3, max_escalations, escalation_stage_iterations), 36);
    assert_eq!(escalation_stage_budget(5, 0, max_escalations, escalation_stage_iterations), 5);
}

#[test]
fn default_algebraic_coarse_apply_policy_is_auto() {
    assert_eq!(AlgebraicCoarseOptions::default().apply_policy, TwoLevelCoarseApplyPolicy::Auto);
}

#[test]
fn default_algebraic_coarse_aggregation_is_contiguous() {
    assert_eq!(AlgebraicCoarseOptions::default().aggregation, TwoLevelAggregation::Contiguous);
}

#[test]
fn default_algebraic_coarse_basis_is_piecewise_constant() {
    assert_eq!(AlgebraicCoarseOptions::default().basis, TwoLevelBasis::PiecewiseConstant);
}

#[test]
fn default_algebraic_coarse_transfer_apply_is_parallel() {
    assert_eq!(
        AlgebraicCoarseOptions::default().transfer_apply_policy,
        TwoLevelTransferApplyPolicy::Parallel
    );
}

#[test]
fn default_algebraic_coarse_transfer_storage_is_wide() {
    assert_eq!(
        AlgebraicCoarseOptions::default().transfer_storage_policy,
        TwoLevelTransferStoragePolicy::Wide
    );
}

#[test]
fn default_algebraic_coarse_transfer_values_are_auto() {
    assert_eq!(
        AlgebraicCoarseOptions::default().transfer_value_storage_policy,
        TwoLevelTransferValueStoragePolicy::Auto
    );
}

#[test]
fn structural_options_need_a_six_mode_target() {
    let mut options = StructuralOptions::default();
    assert_eq!(options.target_coarse_dimension, 1536);
    assert!(options.validate().is_ok());
    options.target_coarse_dimension = 5;
    assert_eq!(
        options.validate(),
        Err(HybitError::InvalidArgument("target_coarse_dimension must be at least 6"))
    );
}

#[test]
fn backend_policy_auto_runs_on_csr32() {
    assert_eq!(backend_for_policy(BackendPolicy::Auto), MatrixBackend::Csr32);
    assert_eq!(backend_for_policy(BackendPolicy::Csr32), MatrixBackend::Csr32);
    assert_eq!(backend_for_policy(BackendPolicy::Abtm), MatrixBackend::Abtm);
}

#[test]
fn structural_spmv_policy_resolution() {
    let big = STRUCTURAL_PARALLEL_SPMV_MIN_NNZ;
    assert_eq!(
        resolve_spmv_policy(StructuralSpmvPolicy::Auto, MatrixBackend::Csr32, big),
        Ok(StructuralSpmvPolicy::Parallel)
    );
    assert_eq!(
        resolve_spmv_policy(StructuralSpmvPolicy::Auto, MatrixBackend::Csr32, big - 1),
        Ok(StructuralSpmvPolicy::Serial)
    );
    assert_eq!(
        resolve_spmv_policy(StructuralSpmvPolicy::Auto, MatrixBackend::Abtm, big),
        Ok(StructuralSpmvPolicy::Serial)
    );
    assert_eq!(
        resolve_spmv_policy(StructuralSpmvPolicy::Parallel, MatrixBackend::Abtm, 0),
        Err(HybitError::InvalidArgument("parallel structural SpMV requires the CSR32 backend"))
    );
    assert_eq!(
        resolve_spmv_policy(StructuralSpmvPolicy::Serial, MatrixBackend::Abtm, big),
        Ok(StructuralSpmvPolicy::Serial)
    );
}

#[test]
fn structural_auto_keeps_tiny_systems_serial() {
    assert_eq!(
        resolve_preconditioner_policy(StructuralPreconditionerPolicy::Auto, 24),
        StructuralPreconditionerPolicy::Serial
    );
    assert_eq!(
        resolve_preconditioner_policy(StructuralPreconditionerPolicy::Auto, 1_000_000),
        StructuralPreconditionerPolicy::Parallel
    );
    assert_eq!(
        resolve_preconditioner_policy(StructuralPreconditionerPolicy::Parallel, 24),
        StructuralPreconditionerPolicy::Parallel
    );
    assert_eq!(
        resolve_pcg_vector_policy(StructuralPcgVectorPolicy::Auto, 24),
        StructuralPcgVectorPolicy::Serial
    );
    assert_eq!(
        resolve_pcg_vector_policy(StructuralPcgVectorPolicy::Parallel, 24),
        StructuralPcgVectorPolicy::Parallel
    );
}

#[test]
fn pcg_vector_auto_needs_rows_and_workers() {
    let n = STRUCTURAL_PARALLEL_PCG_VECTOR_MIN_N;
    assert_eq!(
        pcg_vector_policy_for_workers(StructuralPcgVectorPolicy::Auto, n, 4),
        StructuralPcgVectorPolicy::Parallel
    );
    assert_eq!(
        pcg_vector_policy_for_workers(StructuralPcgVectorPolicy::Auto, n, 2),
        StructuralPcgVectorPolicy::Serial
    );
    assert_eq!(
        pcg_vector_policy_for_workers(StructuralPcgVectorPolicy::Auto, n - 1, 64),
        StructuralPcgVectorPolicy::Serial
    );
    assert_eq!(
        pcg_vector_policy_for_workers(StructuralPcgVectorPolicy::Serial, n, 64),
        StructuralPcgVectorPolicy::Serial
    );
}

#[test]
fn graph_fallback_is_allowed_only_for_breakdown_and_tiny_components() {
    assert!(structural_graph_auto_can_fallback(&HybitError::NumericalBreakdown("x")));
    assert!(structural_graph_auto_can_fallback(&HybitError::InvalidArgument(
        "a structural graph component contains fewer than three nodes"
    )));
    assert!(!structural_graph_auto_can_fallback(&HybitError::InvalidArgument(
        "graph rigid-body aggregation requires at least three nodes"
    )));
    assert!(!structural_graph_auto_can_fallback(&HybitError::SizeOverflow));
}

use hybit::policy::{check_structural_dimensions, validate_escalation_counts, validate_hybrid_limits};

#[test]
fn escalation_counts_must_be_positive() {
    assert_eq!(validate_escalation_counts(1, 1, 1), Ok(()));
    assert_eq!(
        validate_escalation_counts(0, 0, 0),
        Err(HybitError::InvalidArgument("probe_iterations must be > 0"))
    );
    assert_eq!(
        validate_escalation_counts(5, 0, 0),
        Err(HybitError::InvalidArgument("max_escalations must be > 0"))
    );
    assert_eq!(
        validate_escalation_counts(5, 2, 0),
        Err(HybitError::InvalidArgument("escalation_stage_iterations must be > 0"))
    );
}

#[test]
fn hybrid_limits_are_checked_in_order() {
    let coarse = AlgebraicCoarseOptions::default();
    let enabled = AlgebraicCoarseOptions { enabled: true, ..coarse };
    assert_eq!(validate_hybrid_limits(64, 4, 1 << 20, coarse, 1), Ok(()));
    assert_eq!(
        validate_hybrid_limits(0, 4, 0, coarse, 9),
        Err(HybitError::InvalidArgument("local region limits must be > 0"))
    );
    assert_eq!(
        validate_hybrid_limits(64, 4, 0, coarse, 9),
        Err(HybitError::InvalidArgument("max_local_factor_bytes must be > 0"))
    );
    assert_eq!(
        validate_hybrid_limits(64, 4, 1, AlgebraicCoarseOptions { dofs_per_node: 0, ..enabled }, 9),
        Err(HybitError::InvalidArgument("algebraic coarse dofs_per_node must be > 0"))
    );
    assert_eq!(
        validate_hybrid_limits(
            64,
            4,
            1,
            AlgebraicCoarseOptions { dofs_per_node: 3, target_coarse_dimension: 2, ..enabled },
            9
        ),
        Err(HybitError::InvalidArgument("algebraic coarse target dimension must be >= dofs_per_node"))
    );
    assert_eq!(
        validate_hybrid_limits(64, 4, 1, AlgebraicCoarseOptions { dofs_per_node: 0, ..coarse }, 9),
        Err(HybitError::InvalidArgument("overlap_layers must be <= 8"))
    );
    assert_eq!(validate_hybrid_limits(64, 4, 1, coarse, 8), Ok(()));
}

#[test]
fn structural_dimensions_need_three_dofs_per_node() {
    assert_eq!(check_structural_dimensions(24, 24, 8), Ok(()));
    assert_eq!(
        check_structural_dimensions(24, 23, 8),
        Err(HybitError::DimensionMismatch { expected: 24, actual: 24 })
    );
    assert_eq!(
        check_structural_dimensions(20, 20, 8),
        Err(HybitError::DimensionMismatch { expected: 20, actual: 24 })
    );
    assert_eq!(check_structural_dimensions(0, 0, usize::MAX), Err(HybitError::SizeOverflow));
}

#[test]
fn resolving_a_resolved_coarse_policy_changes_nothing() {
    for policy in [
        TwoLevelCoarseApplyPolicy::Auto,
        TwoLevelCoarseApplyPolicy::FactorSolve,
        TwoLevelCoarseApplyPolicy::ExplicitInverse,
    ] {
        for dimension in [0usize, 6, 1023, 1024, 4096] {
            let once = policy.resolve(dimension);
            assert_eq!(once.resolve(dimension), once);
            assert_ne!(once, TwoLevelCoarseApplyPolicy::Auto);
        }
    }
}
