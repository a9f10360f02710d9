//! Why a stream could not be produced or taken in.
use vstd::prelude::*;

verus! {

/// The errors of the encoder and the decoder. Each one is fatal to the
/// stream it came from.
#[derive(Clone, Copy, Debug, PartialEq, Eq, Structural)]
pub enum CopyError {
    /// The stream does not open with the fixed signature.
    BadHeader,
    /// The header sets a flag other than the row OID flag.
    CriticalFlags,
    /// A tuple announces a negative field count other than the end marker.
    NegativeFieldCount,
    /// A field announces a negative length other than the null marker.
    NegativeFieldLength,
    /// Bytes arrived after the end marker.
    InputAfterEnd,
    /// The schema has more columns than a 16-bit signed count can carry.
    SchemaTooWide,
    /// A payload is longer than a 32-bit signed length can carry.
    ValueTooLarge,
}

impl CopyError {
    /// Whether the error says that the stream itself is malformed.
    pub fn is_format_error(&self) -> (r: bool)
        ensures
            r == !(*self is SchemaTooWide || *self is ValueTooLarge),
    {
        match self {
            CopyError::SchemaTooWide | CopyError::ValueTooLarge => false,
            _ => true,
        }
    }

    /// A sentence that describes the error.
    pub fn message(&self) -> (r: &'static str)
        ensures
            *self is BadHeader ==> r@ == "Did not receive expected header"@,
            *self is CriticalFlags ==> r@ == "Critical file format issue"@,
            *self is NegativeFieldCount ==> r@ == "Invalid tuple field count"@,
            *self is NegativeFieldLength ==> r@ == "Invalid field length"@,
            *self is InputAfterEnd ==> r@ == "Unexpected input after stream end"@,
            *self is SchemaTooWide ==> r@ == "value too large to transmit"@,
            *self is ValueTooLarge ==> r@ == "value too large to transmit"@,
    {
        match self {
            CopyError::BadHeader => "Did not receive expected header",
            CopyError::CriticalFlags => "Critical file format issue",
            CopyError::NegativeFieldCount => "Invalid tuple field count",
            CopyError::NegativeFieldLength => "Invalid field length",
            CopyError::InputAfterEnd => "Unexpected input after stream end",
            CopyError::SchemaTooWide => "value too large to transmit",
            CopyError::ValueTooLarge => "value too large to transmit",
        }
    }
}

} // verus!
