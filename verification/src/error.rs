use vstd::prelude::*;

verus! {

/// Everything that can go wrong while decoding or validating a container.
///
/// A buffer either fully validates or the whole deserialize call fails with
/// one of these; no partially validated header is ever used to build a view.
#[derive(Clone, Copy, Debug, PartialEq, Eq, Structural)]
pub enum SafeTensorError {
    /// Fewer than 8 bytes, or the declared header length extends past the
    /// end of the buffer.
    TruncatedHeader,
    /// The declared header length exceeds the safety ceiling.
    HeaderTooLarge,
    /// The header bytes are not a well-formed header document.
    MalformedHeader,
    /// A dtype name outside the registered set.
    UnsupportedDtype,
    /// A shape entry that is negative or does not fit the machine.
    InvalidShape,
    /// A byte range outside `[0, data_section_length]`, or `start > end`.
    InvalidOffsets,
    /// A byte range whose length differs from the shape-implied byte length.
    SizeMismatch,
    /// Byte ranges that overlap or leave gaps in the data section.
    OffsetsNotContiguous,
    /// Two header entries share a tensor name.
    DuplicateName,
}

} // verus!
