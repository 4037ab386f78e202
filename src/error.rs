use vstd::prelude::*;

verus! {

/// Everything that can go wrong while decoding a header or reading a window.
#[derive(Debug, Clone, Copy, PartialEq, Eq, Structural)]
pub enum EdfError {
    /// The byte region is shorter than the field layout requires.
    OutOfData,
    /// A text field is not valid UTF-8.
    MalformedText,
    /// A numeric field does not hold a literal of the expected type.
    MalformedNumber,
    /// The start date or time is not `dd.mm.yy` / `hh.mm.ss`, or names no instant.
    MalformedDate,
    /// A channel whose digital minimum equals its digital maximum.
    DegenerateChannel,
    /// The byte source could not supply the requested range.
    IoFailure,
    /// The requested window ends after the recording does.
    WindowOutOfBounds,
    /// The byte range of a window does not fit in 64 bits.
    RangeOverflow,
}

} // verus!
