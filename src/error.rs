use vstd::prelude::*;

verus! {

/// Fatal violations of the stream format, detected while reading.
#[derive(Debug, Clone, Copy, PartialEq, Eq, Structural)]
pub enum FormatError {
    /// The input ended before the value being read was complete.
    UnexpectedEnd,
    /// A varint has more 7-bit groups than a `usize` can hold.
    VarintOverflow,
    /// The stream does not start with the expected magic bytes.
    BadMagic,
    /// The stream carries a format version other than the supported one.
    UnsupportedVersion,
    /// The reserved byte of a record is not zero.
    ReservedNotZero,
    /// The record flags have a bit set above the highest defined flag.
    UnknownFlags,
    /// The trailing secondary table is not empty.
    SecondaryTableNotEmpty,
    /// A node's contents hold a tag byte other than `'S'`, `'N'` or `0`.
    UnknownTag,
    /// A positional child follows a named child.
    SubAfterNamed,
    /// The bytes of an atom are not valid UTF-8.
    InvalidText,
    /// A stream number was given a second first occurrence.
    DuplicateMapping,
    /// A reference to a stream number whose contents are not known yet.
    UnknownReference,
}

} // verus!
