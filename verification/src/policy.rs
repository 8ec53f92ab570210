//! Solver kinds, matrix backends and the execution policies that the solver
//! resolves from matrix sizes before it runs any numerical kernel.
use vstd::prelude::*;

use crate::error::HybitError;
#[allow(unused_imports)]
use vstd::string::StringSliceAdditionalSpecFns;

verus! {

/// Which sparse storage the automatic solver runs on.
#[derive(Clone, Copy, Debug, PartialEq, Eq)]
pub enum BackendPolicy {
    Auto,
    Csr32,
    Abtm,
}

/// How newly discovered local-direct regions are chosen when the persistent
/// factor-memory budget cannot hold all of them.
#[derive(Clone, Copy, Debug, PartialEq, Eq)]
pub enum LocalFactorSelectionPolicy {
    /// Keep the diagnostic candidate order and accept regions greedily until
    /// the budget is exhausted.
    CandidateOrder,
    /// Rank new regions by uncovered residual energy per incremental factor byte.
    BenefitPerByte,
    /// Rank new regions by uncovered Jacobi-preconditioned residual energy per
    /// incremental factor byte.
    JacobiEnergyPerByte,
}

/// Execution policy of the fine-grid CSR SpMV inside structural PCG.
#[derive(Clone, Copy, Debug, PartialEq, Eq)]
pub enum StructuralSpmvPolicy {
    /// Parallel CSR only for large CSR systems.
    Auto,
    /// Always the serial operator of the selected backend.
    Serial,
    /// Always parallel CSR; requires the CSR32 backend.
    Parallel,
}

/// `Auto` switches to parallel CSR SpMV from this many nonzeros on.
pub const STRUCTURAL_PARALLEL_SPMV_MIN_NNZ: usize = 1_000_000;

/// Execution policy of the structural rigid-body two-level preconditioner.
#[derive(Clone, Copy, Debug, PartialEq, Eq)]
pub enum StructuralPreconditionerPolicy {
    /// Parallel transfer kernels only for large systems.
    Auto,
    Serial,
    Parallel,
}

/// `Auto` switches to the parallel structural preconditioner from this many
/// nonzeros on.
pub const STRUCTURAL_PARALLEL_PRECONDITIONER_MIN_NNZ: usize = 1_000_000;

/// Execution policy of the dense vector kernels inside structural PCG.
#[derive(Clone, Copy, Debug, PartialEq, Eq)]
pub enum StructuralPcgVectorPolicy {
    /// Parallel vector kernels only for large systems on a pool with enough
    /// workers to amortise the reductions.
    Auto,
    Serial,
    Parallel,
}

/// `Auto` needs at least this many rows for parallel PCG vector kernels.
pub const STRUCTURAL_PARALLEL_PCG_VECTOR_MIN_N: usize = 131_072;

/// `Auto` needs at least this many pool workers for parallel PCG vector kernels.
pub const STRUCTURAL_PARALLEL_PCG_VECTOR_MIN_THREADS: usize = 4;

/// The storage a prepared system runs its operator on.
#[derive(Clone, Copy, Debug, PartialEq, Eq)]
pub enum MatrixBackend {
    Csr32,
    Abtm,
    MatrixFree,
}

#[derive(Clone, Copy, Debug, PartialEq, Eq)]
pub enum SolverKind {
    Pcg,
    Minres,
    Gmres,
    Bicgstab,
    Hybrid,
}

#[derive(Clone, Copy, Debug, PartialEq, Eq)]
pub enum PreconditionerKind {
    Unpreconditioned,
    Jacobi,
    BlockJacobi,
    LocalDirect,
    Hybrid,
    RigidBodyTwoLevel,
}

#[derive(Clone, Copy, Debug, PartialEq, Eq)]
pub enum SolveStatus {
    Converged,
    MaxIterations,
    Breakdown,
}

/// Coarse dimension from which `TwoLevelCoarseApplyPolicy::Auto` applies an
/// explicit inverse instead of packed triangular solves.
pub const EXPLICIT_INVERSE_AUTO_MIN_COARSE_DIMENSION: usize = 1024;

/// How the dense coarse inverse of a two-level preconditioner is applied.
#[derive(Clone, Copy, Debug, PartialEq, Eq)]
pub enum TwoLevelCoarseApplyPolicy {
    /// Decided by the coarse dimension after aggregation.
    Auto,
    /// Packed forward and backward Cholesky solves.
    FactorSolve,
    /// A dense explicit inverse formed once during setup.
    ExplicitInverse,
}

/// The policy that `resolve` picks for a coarse dimension.
pub open spec fn resolved_coarse_policy(
    policy: TwoLevelCoarseApplyPolicy,
    coarse_dimension: nat,
) -> TwoLevelCoarseApplyPolicy {
    match policy {
        TwoLevelCoarseApplyPolicy::Auto => if coarse_dimension >= 1024 {
            TwoLevelCoarseApplyPolicy::ExplicitInverse
        } else {
            TwoLevelCoarseApplyPolicy::FactorSolve
        },
        explicit => explicit,
    }
}

impl TwoLevelCoarseApplyPolicy {
    /// Resolves `Auto` against the actual coarse dimension; an explicit
    /// choice stays as it is.
    pub fn resolve(self, coarse_dimension: usize) -> (resolved: Self)
        ensures
            resolved == resolved_coarse_policy(self, coarse_dimension as nat),
    {
        match self {
            TwoLevelCoarseApplyPolicy::Auto => {
                if coarse_dimension >= EXPLICIT_INVERSE_AUTO_MIN_COARSE_DIMENSION {
                    TwoLevelCoarseApplyPolicy::ExplicitInverse
                } else {
                    TwoLevelCoarseApplyPolicy::FactorSolve
                }
            },
            explicit => explicit,
        }
    }
}

/// How node-major blocks are grouped into piecewise-constant aggregates.
#[derive(Clone, Copy, Debug, PartialEq, Eq)]
pub enum TwoLevelAggregation {
    /// Consecutive node-major blocks.
    Contiguous,
    /// Breadth-first aggregates of the block sparsity graph.
    Graph,
    /// Breadth-first aggregates that prefer strong normalised couplings.
    StrongGraph,
}

/// Coarse transfer basis built on the aggregates.
#[derive(Clone, Copy, Debug, PartialEq, Eq)]
pub enum TwoLevelBasis {
    PiecewiseConstant,
    JacobiSmoothed,
}

/// How a sparse smoothed transfer is applied.
#[derive(Clone, Copy, Debug, PartialEq, Eq)]
pub enum TwoLevelTransferApplyPolicy {
    Serial,
    Parallel,
}

/// Index representation of a sparse smoothed transfer.
#[derive(Clone, Copy, Debug, PartialEq, Eq)]
pub enum TwoLevelTransferStoragePolicy {
    /// The historical wide layout.
    Wide,
    /// 32-bit row offsets and 16-bit coarse columns where they fit.
    Compact,
    /// Compact where representable, wide otherwise.
    Auto,
}

/// Value representation of smoothed transfer weights.
#[derive(Clone, Copy, Debug, PartialEq, Eq)]
pub enum TwoLevelTransferValueStoragePolicy {
    F64,
    F32,
    Auto,
}

/// How structural nodes are grouped into rigid-body coarse aggregates.
#[derive(Clone, Copy, Debug, PartialEq, Eq)]
pub enum RigidBodyAggregation {
    /// Graph aggregation first, contiguous aggregation as fallback.
    Auto,
    Contiguous,
    Graph,
}

/// Settings of the geometry-free algebraic two-level base preconditioner.
#[derive(Clone, Copy, Debug, PartialEq, Eq)]
pub struct AlgebraicCoarseOptions {
    pub enabled: bool,
    /// Contiguous DOFs per node block; the matrix dimension must be a multiple.
    pub dofs_per_node: usize,
    /// Soft upper target for the coarse dimension.
    pub target_coarse_dimension: usize,
    pub aggregation: TwoLevelAggregation,
    pub basis: TwoLevelBasis,
    pub transfer_apply_policy: TwoLevelTransferApplyPolicy,
    pub transfer_storage_policy: TwoLevelTransferStoragePolicy,
    pub transfer_value_storage_policy: TwoLevelTransferValueStoragePolicy,
    pub apply_policy: TwoLevelCoarseApplyPolicy,
}

impl Default for AlgebraicCoarseOptions {
    fn default() -> (options: Self)
        ensures
            options == (AlgebraicCoarseOptions {
                enabled: false,
                dofs_per_node: 3,
                target_coarse_dimension: 1536,
                aggregation: TwoLevelAggregation::Contiguous,
                basis: TwoLevelBasis::PiecewiseConstant,
                transfer_apply_policy: TwoLevelTransferApplyPolicy::Parallel,
                transfer_storage_policy: TwoLevelTransferStoragePolicy::Wide,
                transfer_value_storage_policy: TwoLevelTransferValueStoragePolicy::Auto,
                apply_policy: TwoLevelCoarseApplyPolicy::Auto,
            }),
    {
        AlgebraicCoarseOptions {
            enabled: false,
            dofs_per_node: 3,
            target_coarse_dimension: 1536,
            aggregation: TwoLevelAggregation::Contiguous,
            basis: TwoLevelBasis::PiecewiseConstant,
            transfer_apply_policy: TwoLevelTransferApplyPolicy::Parallel,
            transfer_storage_policy: TwoLevelTransferStoragePolicy::Wide,
            transfer_value_storage_policy: TwoLevelTransferValueStoragePolicy::Auto,
            apply_policy: TwoLevelCoarseApplyPolicy::Auto,
        }
    }
}

/// Settings of the structural (rigid-body two-level) solver path.
#[derive(Clone, Copy, Debug, PartialEq, Eq)]
pub struct StructuralOptions {
    /// Soft upper target for the dense rigid-body coarse dimension.
    pub target_coarse_dimension: usize,
    pub aggregation: RigidBodyAggregation,
    pub spmv_policy: StructuralSpmvPolicy,
    pub preconditioner_policy: StructuralPreconditionerPolicy,
    pub pcg_vector_policy: StructuralPcgVectorPolicy,
}

impl Default for StructuralOptions {
    fn default() -> (options: Self)
        ensures
            options == (StructuralOptions {
                target_coarse_dimension: 1536,
                aggregation: RigidBodyAggregation::Auto,
                spmv_policy: StructuralSpmvPolicy::Auto,
                preconditioner_policy: StructuralPreconditionerPolicy::Auto,
                pcg_vector_policy: StructuralPcgVectorPolicy::Auto,
            }),
    {
        StructuralOptions {
            target_coarse_dimension: 1536,
            aggregation: RigidBodyAggregation::Auto,
            spmv_policy: StructuralSpmvPolicy::Auto,
            preconditioner_policy: StructuralPreconditionerPolicy::Auto,
            pcg_vector_policy: StructuralPcgVectorPolicy::Auto,
        }
    }
}

impl StructuralOptions {
    /// A six-mode rigid-body coarse space needs a target of at least six.
    pub fn validate(&self) -> (result: Result<(), HybitError>)
        ensures
            result.is_ok() <==> self.target_coarse_dimension >= 6,
            result.is_err() ==> result == Err::<(), HybitError>(
                HybitError::InvalidArgument("target_coarse_dimension must be at least 6"),
            ),
    {
        if self.target_coarse_dimension < 6 {
            return Err(HybitError::InvalidArgument("target_coarse_dimension must be at least 6"));
        }
        Ok(())
    }
}

/// The backend that a backend policy selects: `Auto` runs on CSR32.
pub open spec fn spec_backend_for(policy: BackendPolicy) -> MatrixBackend {
    match policy {
        BackendPolicy::Abtm => MatrixBackend::Abtm,
        _ => MatrixBackend::Csr32,
    }
}

pub fn backend_for_policy(policy: BackendPolicy) -> (backend: MatrixBackend)
    ensures
        backend == spec_backend_for(policy),
{
    match policy {
        BackendPolicy::Auto | BackendPolicy::Csr32 => MatrixBackend::Csr32,
        BackendPolicy::Abtm => MatrixBackend::Abtm,
    }
}

/// The SpMV policy a structural system runs with. `Auto` goes parallel only
/// on the CSR32 backend with at least `STRUCTURAL_PARALLEL_SPMV_MIN_NNZ`
/// nonzeros; an explicit `Parallel` is refused on any other backend.
pub fn resolve_spmv_policy(policy: StructuralSpmvPolicy, backend: MatrixBackend, nnz: usize) -> (result: Result<
    StructuralSpmvPolicy,
    HybitError,
>)
    ensures
        policy == StructuralSpmvPolicy::Auto ==> result == Ok::<StructuralSpmvPolicy, HybitError>(
            if backend == MatrixBackend::Csr32 && nnz >= 1_000_000 {
                StructuralSpmvPolicy::Parallel
            } else {
                StructuralSpmvPolicy::Serial
            },
        ),
        policy == StructuralSpmvPolicy::Serial ==> result == Ok::<StructuralSpmvPolicy, HybitError>(
            StructuralSpmvPolicy::Serial,
        ),
        policy == StructuralSpmvPolicy::Parallel ==> result == (if backend == MatrixBackend::Csr32 {
            Ok::<StructuralSpmvPolicy, HybitError>(StructuralSpmvPolicy::Parallel)
        } else {
            Err(HybitError::InvalidArgument("parallel structural SpMV requires the CSR32 backend"))
        }),
{
    let on_csr = matches!(backend, MatrixBackend::Csr32);
    match policy {
        StructuralSpmvPolicy::Auto => {
            if on_csr && nnz >= STRUCTURAL_PARALLEL_SPMV_MIN_NNZ {
                Ok(StructuralSpmvPolicy::Parallel)
            } else {
                Ok(StructuralSpmvPolicy::Serial)
            }
        },
        StructuralSpmvPolicy::Serial => Ok(StructuralSpmvPolicy::Serial),
        StructuralSpmvPolicy::Parallel => {
            if !on_csr {
                return Err(
                    HybitError::InvalidArgument(
                        "parallel structural SpMV requires the CSR32 backend",
                    ),
                );
            }
            Ok(StructuralSpmvPolicy::Parallel)
        },
    }
}

/// The structural preconditioner policy: `Auto` goes parallel from
/// `STRUCTURAL_PARALLEL_PRECONDITIONER_MIN_NNZ` nonzeros on.
pub fn resolve_preconditioner_policy(policy: StructuralPreconditionerPolicy, nnz: usize) -> (resolved:
    StructuralPreconditionerPolicy)
    ensures
        resolved == (match policy {
            StructuralPreconditionerPolicy::Auto => if nnz >= 1_000_000 {
                StructuralPreconditionerPolicy::Parallel
            } else {
                StructuralPreconditionerPolicy::Serial
            },
            explicit => explicit,
        }),
{
    match policy {
        StructuralPreconditionerPolicy::Auto => {
            if nnz >= STRUCTURAL_PARALLEL_PRECONDITIONER_MIN_NNZ {
                StructuralPreconditionerPolicy::Parallel
            } else {
                StructuralPreconditionerPolicy::Serial
            }
        },
        explicit => explicit,
    }
}

/// The PCG vector policy for a system of `nrows` rows on a pool of `workers`
/// workers: `Auto` goes parallel only with at least
/// `STRUCTURAL_PARALLEL_PCG_VECTOR_MIN_N` rows and
/// `STRUCTURAL_PARALLEL_PCG_VECTOR_MIN_THREADS` workers.
pub open spec fn spec_pcg_vector_policy(
    policy: StructuralPcgVectorPolicy,
    nrows: nat,
    workers: nat,
) -> StructuralPcgVectorPolicy {
    match policy {
        StructuralPcgVectorPolicy::Auto => if nrows >= 131_072 && workers >= 4 {
            StructuralPcgVectorPolicy::Parallel
        } else {
            StructuralPcgVectorPolicy::Serial
        },
        explicit => explicit,
    }
}

pub fn pcg_vector_policy_for_workers(
    policy: StructuralPcgVectorPolicy,
    nrows: usize,
    workers: usize,
) -> (resolved: StructuralPcgVectorPolicy)
    ensures
        resolved == spec_pcg_vector_policy(policy, nrows as nat, workers as nat),
{
    match policy {
        StructuralPcgVectorPolicy::Auto => {
            if nrows >= STRUCTURAL_PARALLEL_PCG_VECTOR_MIN_N && workers
                >= STRUCTURAL_PARALLEL_PCG_VECTOR_MIN_THREADS {
                StructuralPcgVectorPolicy::Parallel
            } else {
                StructuralPcgVectorPolicy::Serial
            }
        },
        explicit => explicit,
    }
}

/// Number of worker threads of the current Rayon pool, as reported by
/// `rayon::current_num_threads`. It depends on the machine and on the pool
/// the caller runs in; all that is stated is that a pool has at least one
/// thread.
#[verifier::external_body]
pub fn parallel_vector_worker_count() -> (workers: usize)
    ensures
        workers >= 1,
{
    rayon::current_num_threads()
}

/// The PCG vector policy for a system of `nrows` rows on the current Rayon
/// pool. An explicit choice is kept; `Auto` is decided by the row count and
/// by the pool size that Rayon reports, so below
/// `STRUCTURAL_PARALLEL_PCG_VECTOR_MIN_N` rows it is always `Serial`.
pub fn resolve_pcg_vector_policy(policy: StructuralPcgVectorPolicy, nrows: usize) -> (resolved:
    StructuralPcgVectorPolicy)
    ensures
        policy != StructuralPcgVectorPolicy::Auto ==> resolved == policy,
        policy == StructuralPcgVectorPolicy::Auto ==> exists|workers: nat|
            resolved == spec_pcg_vector_policy(policy, nrows as nat, workers),
        policy == StructuralPcgVectorPolicy::Auto && nrows < 131_072 ==> resolved
            == StructuralPcgVectorPolicy::Serial,
{
    match policy {
        StructuralPcgVectorPolicy::Auto => {
            let workers = parallel_vector_worker_count();
            let resolved = pcg_vector_policy_for_workers(policy, nrows, workers);
            assert(resolved == spec_pcg_vector_policy(policy, nrows as nat, workers as nat));
            resolved
        },
        explicit => explicit,
    }
}

/// Iteration budget of an escalation stage: the stage length while more
/// escalations are allowed, and everything that remains once the last
/// allowed escalation has been reached.
pub fn escalation_stage_budget(
    remaining: usize,
    completed_escalations: usize,
    max_escalations: usize,
    escalation_stage_iterations: usize,
) -> (budget: usize)
    ensures
        budget == if completed_escalations >= max_escalations {
            remaining
        } else if remaining <= escalation_stage_iterations {
            remaining
        } else {
            escalation_stage_iterations
        },
{
    if completed_escalations >= max_escalations {
        remaining
    } else if remaining <= escalation_stage_iterations {
        remaining
    } else {
        escalation_stage_iterations
    }
}

/// Whether the automatic structural path may fall back from graph to
/// contiguous aggregation after this error: on a numerical breakdown, and on
/// the refusal of a graph component with fewer than three nodes.
pub fn structural_graph_auto_can_fallback(error: &HybitError) -> (can: bool)
    ensures
        can == (match *error {
            HybitError::NumericalBreakdown(_) => true,
            HybitError::InvalidArgument(message) => message.spec_bytes()
                == "a structural graph component contains fewer than three nodes".spec_bytes(),
            _ => false,
        }),
{
    match error {
        HybitError::NumericalBreakdown(_) => true,
        HybitError::InvalidArgument(message) => {
            let expected = "a structural graph component contains fewer than three nodes";
            bytes_equal(message.as_bytes(), expected.as_bytes())
        },
        _ => false,
    }
}

/// Byte-wise equality of two slices.
pub fn bytes_equal(a: &[u8], b: &[u8]) -> (eq: bool)
    ensures
        eq == (a@ == b@),
{
    if a.len() != b.len() {
        return false;
    }
    let mut i: usize = 0;
    while i < a.len()
        invariant
            a@.len() == b@.len(),
            i <= a@.len(),
            forall|k: int| 0 <= k < i ==> a@[k] == b@[k],
        decreases a@.len() - i,
    {
        if a[i] != b[i] {
            return false;
        }
        i = i + 1;
    }
    assert(a@ =~= b@);
    true
}

} // verus!

verus! {

/// The integer controller settings that the hybrid options check before
/// their floating-point thresholds: every stage needs iterations and at
/// least one escalation is allowed.
pub fn validate_escalation_counts(
    probe_iterations: usize,
    max_escalations: usize,
    escalation_stage_iterations: usize,
) -> (result: Result<(), HybitError>)
    ensures
        result == (if probe_iterations == 0 {
            Err(HybitError::InvalidArgument("probe_iterations must be > 0"))
        } else if max_escalations == 0 {
            Err(HybitError::InvalidArgument("max_escalations must be > 0"))
        } else if escalation_stage_iterations == 0 {
            Err(HybitError::InvalidArgument("escalation_stage_iterations must be > 0"))
        } else {
            Ok::<(), HybitError>(())
        }),
{
    if probe_iterations == 0 {
        return Err(HybitError::InvalidArgument("probe_iterations must be > 0"));
    }
    if max_escalations == 0 {
        return Err(HybitError::InvalidArgument("max_escalations must be > 0"));
    }
    if escalation_stage_iterations == 0 {
        return Err(HybitError::InvalidArgument("escalation_stage_iterations must be > 0"));
    }
    Ok(())
}

/// The integer limits that the hybrid options check after their
/// floating-point thresholds: positive region limits and factor budget, a
/// usable algebraic coarse space when it is enabled, and at most eight
/// overlap layers.
pub fn validate_hybrid_limits(
    max_local_region_size: usize,
    max_local_regions: usize,
    max_local_factor_bytes: usize,
    algebraic_coarse: AlgebraicCoarseOptions,
    overlap_layers: usize,
) -> (result: Result<(), HybitError>)
    ensures
        result == (if max_local_region_size == 0 || max_local_regions == 0 {
            Err(HybitError::InvalidArgument("local region limits must be > 0"))
        } else if max_local_factor_bytes == 0 {
            Err(HybitError::InvalidArgument("max_local_factor_bytes must be > 0"))
        } else if algebraic_coarse.enabled && algebraic_coarse.dofs_per_node == 0 {
            Err(HybitError::InvalidArgument("algebraic coarse dofs_per_node must be > 0"))
        } else if algebraic_coarse.enabled && algebraic_coarse.target_coarse_dimension
            < algebraic_coarse.dofs_per_node {
            Err(HybitError::InvalidArgument("algebraic coarse target dimension must be >= dofs_per_node"))
        } else if overlap_layers > 8 {
            Err(HybitError::InvalidArgument("overlap_layers must be <= 8"))
        } else {
            Ok::<(), HybitError>(())
        }),
{
    if max_local_region_size == 0 || max_local_regions == 0 {
        return Err(HybitError::InvalidArgument("local region limits must be > 0"));
    }
    if max_local_factor_bytes == 0 {
        return Err(HybitError::InvalidArgument("max_local_factor_bytes must be > 0"));
    }
    if algebraic_coarse.enabled {
        if algebraic_coarse.dofs_per_node == 0 {
            return Err(HybitError::InvalidArgument("algebraic coarse dofs_per_node must be > 0"));
        }
        if algebraic_coarse.target_coarse_dimension < algebraic_coarse.dofs_per_node {
            return Err(
                HybitError::InvalidArgument(
                    "algebraic coarse target dimension must be >= dofs_per_node",
                ),
            );
        }
    }
    if overlap_layers > 8 {
        return Err(HybitError::InvalidArgument("overlap_layers must be <= 8"));
    }
    Ok(())
}

/// A structural system has three DOFs per node: the matrix must have three
/// rows and three columns per coordinate triple.
pub fn check_structural_dimensions(nrows: usize, ncols: usize, node_count: usize) -> (result: Result<(), HybitError>)
    ensures
        node_count * 3 > usize::MAX ==> result == Err::<(), HybitError>(HybitError::SizeOverflow),
        node_count * 3 <= usize::MAX ==> result == (if nrows != node_count * 3 || ncols != node_count * 3 {
            Err(HybitError::DimensionMismatch { expected: nrows, actual: (node_count * 3) as usize })
        } else {
            Ok::<(), HybitError>(())
        }),
{
    let expected = match node_count.checked_mul(3) {
        Some(e) => e,
        None => return Err(HybitError::SizeOverflow),
    };
    if nrows != expected || ncols != expected {
        return Err(HybitError::DimensionMismatch { expected: nrows, actual: expected });
    }
    Ok(())
}

} // verus!
