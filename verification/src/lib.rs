//! HyBIT sparse-solver building blocks whose behaviour is stated and proved:
//! degree-of-freedom bitmaps, ABTM tile topology, CSR structure checks,
//! aggregation of block graphs, local-region bookkeeping and the execution
//! policies that the solver resolves before running its numerical kernels.
use vstd::prelude::*;

pub mod error;
pub mod mask;
pub mod abtm;
pub mod aggregate;
pub mod policy;
pub mod coarse;
pub mod regions;
pub mod csr;
pub mod matrix_market;
pub mod escalation;
pub mod codes;
pub mod laws;

pub use error::HybitError;
pub use mask::DofMask;
pub use abtm::{AbtmConfig, AbtmStats, TileDesc, TileKind, TILE_WIDTH};

verus! {
} // verus!
