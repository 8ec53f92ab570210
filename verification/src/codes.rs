//! The integer codes of the C interface: result codes of a call, the codes
//! a solve report carries, and the decoding of the integer arguments.
use vstd::prelude::*;

use crate::error::HybitError;
use crate::policy::{BackendPolicy, MatrixBackend, PreconditionerKind, SolveStatus, SolverKind};

verus! {

/// The call succeeded.
pub const HYBIT_OK: i32 = 0;

/// An argument was refused.
pub const HYBIT_INVALID_ARGUMENT: i32 = 1;

/// The matrix was refused.
pub const HYBIT_INVALID_MATRIX: i32 = 2;

/// A factorization or the Krylov recurrence broke down.
pub const HYBIT_NUMERICAL_FAILURE: i32 = 3;

/// The solve ran out of iterations.
pub const HYBIT_NOT_CONVERGED: i32 = 4;

/// A panic was caught at the interface.
pub const HYBIT_PANIC: i32 = 100;

/// The result code of an error: refused arguments and dimensions, refused
/// matrices (missing or zero diagonals and sizes included), breakdowns, and
/// solves that did not converge.
pub fn map_error(err: &HybitError) -> (code: i32)
    ensures
        code == match *err {
            HybitError::InvalidArgument(_) | HybitError::DimensionMismatch { .. } => 1i32,
            HybitError::InvalidMatrix(_) | HybitError::MissingDiagonal { .. } | HybitError::ZeroDiagonal {
                ..
            } | HybitError::SizeOverflow => 2i32,
            HybitError::NotConverged { .. } => 4i32,
            HybitError::NumericalBreakdown(_) => 3i32,
        },
{
    match err {
        HybitError::InvalidArgument(_) | HybitError::DimensionMismatch { .. } => HYBIT_INVALID_ARGUMENT,
        HybitError::InvalidMatrix(_) | HybitError::MissingDiagonal { .. } | HybitError::ZeroDiagonal { .. }
        | HybitError::SizeOverflow => HYBIT_INVALID_MATRIX,
        HybitError::NotConverged { .. } => HYBIT_NOT_CONVERGED,
        HybitError::NumericalBreakdown(_) => HYBIT_NUMERICAL_FAILURE,
    }
}

/// Code of a solve status: 0 converged, 1 out of iterations, 2 breakdown.
pub fn status_code(status: SolveStatus) -> (code: i32)
    ensures
        code == match status {
            SolveStatus::Converged => 0i32,
            SolveStatus::MaxIterations => 1i32,
            SolveStatus::Breakdown => 2i32,
        },
{
    match status {
        SolveStatus::Converged => 0,
        SolveStatus::MaxIterations => 1,
        SolveStatus::Breakdown => 2,
    }
}

/// Code of a solver kind, from 1 in declaration order.
pub fn solver_code(kind: SolverKind) -> (code: i32)
    ensures
        code == match kind {
            SolverKind::Pcg => 1i32,
            SolverKind::Minres => 2i32,
            SolverKind::Gmres => 3i32,
            SolverKind::Bicgstab => 4i32,
            SolverKind::Hybrid => 5i32,
        },
{
    match kind {
        SolverKind::Pcg => 1,
        SolverKind::Minres => 2,
        SolverKind::Gmres => 3,
        SolverKind::Bicgstab => 4,
        SolverKind::Hybrid => 5,
    }
}

/// Code of a preconditioner kind, from 0 in declaration order.
pub fn precond_code(kind: PreconditionerKind) -> (code: i32)
    ensures
        code == match kind {
            PreconditionerKind::Unpreconditioned => 0i32,
            PreconditionerKind::Jacobi => 1i32,
            PreconditionerKind::BlockJacobi => 2i32,
            PreconditionerKind::LocalDirect => 3i32,
            PreconditionerKind::Hybrid => 4i32,
            PreconditionerKind::RigidBodyTwoLevel => 5i32,
        },
{
    match kind {
        PreconditionerKind::Unpreconditioned => 0,
        PreconditionerKind::Jacobi => 1,
        PreconditionerKind::BlockJacobi => 2,
        PreconditionerKind::LocalDirect => 3,
        PreconditionerKind::Hybrid => 4,
        PreconditionerKind::RigidBodyTwoLevel => 5,
    }
}

/// Code of a matrix backend, from 1 in declaration order.
pub fn backend_code(kind: MatrixBackend) -> (code: i32)
    ensures
        code == match kind {
            MatrixBackend::Csr32 => 1i32,
            MatrixBackend::Abtm => 2i32,
            MatrixBackend::MatrixFree => 3i32,
        },
{
    match kind {
        MatrixBackend::Csr32 => 1,
        MatrixBackend::Abtm => 2,
        MatrixBackend::MatrixFree => 3,
    }
}

/// The backend policy of an interface code: 0 automatic, 1 CSR32, 2 ABTM;
/// any other code is refused.
pub fn backend_policy_from_code(code: i32) -> (policy: Option<BackendPolicy>)
    ensures
        policy == (if code == 0 {
            Some(BackendPolicy::Auto)
        } else if code == 1 {
            Some(BackendPolicy::Csr32)
        } else if code == 2 {
            Some(BackendPolicy::Abtm)
        } else {
            None::<BackendPolicy>
        }),
{
    if code == 0 {
        Some(BackendPolicy::Auto)
    } else if code == 1 {
        Some(BackendPolicy::Csr32)
    } else if code == 2 {
        Some(BackendPolicy::Abtm)
    } else {
        None
    }
}

/// Indices given with base `base` (0 or 1) shifted to zero-based ones; an
/// index below the base is refused with `message`.
pub fn rebase_indices(indices: &[u32], base: u32, message: &'static str) -> (result: Result<Vec<u32>, HybitError>)
    ensures
        (forall|k: int| 0 <= k < indices@.len() ==> #[trigger] indices@[k] >= base) <==> result is Ok,
        result matches Ok(v) ==> v@.len() == indices@.len() && forall|k: int|
            0 <= k < indices@.len() ==> #[trigger] v@[k] == indices@[k] - base,
        result is Err ==> result == Err::<Vec<u32>, HybitError>(HybitError::InvalidMatrix(message)),
{
    let mut out: Vec<u32> = Vec::new();
    let mut k: usize = 0;
    while k < indices.len()
        invariant
            k <= indices@.len(),
            out@.len() == k,
            forall|q: int| 0 <= q < k ==> #[trigger] indices@[q] >= base && out@[q] == indices@[q] - base,
        decreases indices@.len() - k,
    {
        match indices[k].checked_sub(base) {
            Some(v) => out.push(v),
            None => return Err(HybitError::InvalidMatrix(message)),
        }
        k = k + 1;
    }
    Ok(out)
}

} // verus!
