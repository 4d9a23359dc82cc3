//! The error that construction reports.

use vstd::prelude::*;

verus! {

/// Why a distribution could not be made.
#[derive(Debug, Clone, Copy, PartialEq, Eq, Structural)]
pub enum StatsError {
    /// The parameters describe no distribution.
    BadParams,
}

} // verus!
