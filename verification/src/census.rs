//! Census data of a nation.

use vstd::prelude::*;

verus! {

/// The census of a nation. It holds nothing yet.
#[derive(Debug, Clone, Copy, PartialEq, Eq, Structural)]
pub struct Census;

} // verus!
