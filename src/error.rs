use vstd::prelude::*;

verus! {

/// Why an operation of this library refused its input.
#[derive(Debug, Clone, Copy, PartialEq, Eq, Structural)]
pub enum FrameError {
    /// An empty, ragged or undersized grid, or a malformed glyph ramp.
    InvalidInput,
}

} // verus!
