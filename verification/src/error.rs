use vstd::prelude::*;

verus! {

/// Failure of a conversion step.
///
/// Every error is surfaced synchronously as a result value; a conversion
/// either fully completes or fails before producing any store or view.
#[derive(Clone, Copy, Debug, PartialEq, Eq, Structural)]
pub enum ConversionError {
    /// A row index reached or exceeded the declared number of rows, or a
    /// column index reached or exceeded the declared number of columns
    /// (or an index was negative).
    CoordinateOutOfRange,
    /// The pointer and index buffers handed to a view do not form a
    /// well-formed compact layout: the pointer sequence must start at zero,
    /// be non-decreasing, and end at the length of the index sequence.
    InvalidLayout,
}

} // verus!
