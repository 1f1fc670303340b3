//! Where a tree runs.

use vstd::prelude::*;

verus! {

/// Whether a tree serves users or a trial run.
#[derive(Debug, Copy, Clone, PartialEq, Eq, Structural)]
pub enum Mode {
    Live,
    Test,
}

} // verus!
