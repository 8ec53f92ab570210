use hybit::codes::{
    backend_code, backend_policy_from_code, map_error, precond_code, rebase_indices, solver_code,
    status_code, HYBIT_INVALID_ARGUMENT, HYBIT_INVALID_MATRIX, HYBIT_NOT_CONVERGED,
    HYBIT_NUMERICAL_FAILURE,
};
use hybit::policy::{BackendPolicy, MatrixBackend, PreconditionerKind, SolveStatus, SolverKind};
use hybit::HybitError;

#[test]
fn errors_map_to_interface_codes() {
    assert_eq!(map_error(&HybitError::InvalidArgument("x")), HYBIT_INVALID_ARGUMENT);
    assert_eq!(map_error(&HybitError::DimensionMismatch { expected: 1, actual: 2 }), 1);
    assert_eq!(map_error(&HybitError::InvalidMatrix("x")), HYBIT_INVALID_MATRIX);
    assert_eq!(map_error(&HybitError::MissingDiagonal { row: 3 }), 2);
    assert_eq!(map_error(&HybitError::ZeroDiagonal { row: 3 }), 2);
    assert_eq!(map_error(&HybitError::SizeOverflow), 2);
    assert_eq!(map_error(&HybitError::NumericalBreakdown("x")), HYBIT_NUMERICAL_FAILURE);
    assert_eq!(
        map_error(&HybitError::NotConverged { iterations: 5, residual_bits: 0 }),
        HYBIT_NOT_CONVERGED
    );
}

#[test]
fn report_fields_have_fixed_codes() {
    assert_eq!(status_code(SolveStatus::Converged), 0);
    assert_eq!(status_code(SolveStatus::Breakdown), 2);
    assert_eq!(solver_code(SolverKind::Pcg), 1);
    assert_eq!(solver_code(SolverKind::Hybrid), 5);
    assert_eq!(precond_code(PreconditionerKind::Unpreconditioned), 0);
    assert_eq!(precond_code(PreconditionerKind::Hybrid), 4);
    assert_eq!(backend_code(MatrixBackend::Csr32), 1);
    assert_eq!(backend_code(MatrixBackend::MatrixFree), 3);
}

#[test]
fn backend_codes_decode_or_are_refused() {
    assert_eq!(backend_policy_from_code(0), Some(BackendPolicy::Auto));
    assert_eq!(backend_policy_from_code(2), Some(BackendPolicy::Abtm));
    assert_eq!(backend_policy_from_code(3), None);
    assert_eq!(backend_policy_from_code(-1), None);
}

#[test]
fn one_based_indices_are_shifted() {
    assert_eq!(rebase_indices(&[1, 3, 4], 1, "below base"), Ok(vec![0, 2, 3]));
    assert_eq!(rebase_indices(&[0, 3], 0, "below base"), Ok(vec![0, 3]));
    assert_eq!(rebase_indices(&[2, 0], 1, "below base"), Err(HybitError::InvalidMatrix("below base")));
}
