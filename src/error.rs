use vstd::prelude::*;

verus! {

/// Why a conversion was refused. Each variant names the offending value and
/// the limit it violated.
#[derive(Debug, Clone, Copy, PartialEq, Eq, Structural)]
pub enum IndexError {
    /// A sequence of length `len` was given where the rank `rank` of the
    /// shape was required.
    RankMismatch { len: usize, rank: usize },
    /// On axis `axis`, the subscript `subscript` is not below the extent
    /// `extent`.
    OutOfRange { axis: usize, subscript: usize, extent: usize },
    /// On axis `axis`, the coordinate `coordinate` lies before the first
    /// element: uncentering it against `extent` gives a negative subscript.
    CoordinateOutOfRange { axis: usize, coordinate: i32, extent: usize },
}

} // verus!
