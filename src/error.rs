use vstd::prelude::*;

verus! {

/// The ways in which a schema or an access can be rejected.
#[derive(Debug, Clone, Copy, PartialEq, Eq, Structural)]
pub enum BitfieldError {
    /// The field width lies outside the band of the container that carries it.
    InvalidWidth,
    /// The buffer is too short for the bits that the access covers.
    OutOfBounds,
    /// A raw value does not fit the field's value type.
    ConversionOverflow,
    /// An enumeration's variant count is not a power of two of at least two.
    InvalidVariantCount,
    /// A raw value names no variant of an enumeration.
    UnknownDiscriminant,
    /// The widths of a layout do not add up to whole bytes.
    LayoutError,
}

} // verus!
