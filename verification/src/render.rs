//! How the rows of a pipeline are to be shown.
use vstd::prelude::*;

verus! {

/// The settings of whatever shows the rows.
#[derive(Debug, Clone, Copy, PartialEq, Eq, Structural)]
pub struct RenderConfig {
    /// How many digits are shown behind the point of a double.
    pub floating_points: usize,
    /// The least buffer beside a column.
    pub min_buffer: usize,
    /// The greatest buffer beside a column.
    pub max_buffer: usize,
}

} // verus!
