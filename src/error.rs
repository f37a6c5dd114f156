use vstd::prelude::*;

verus! {

/// Why a datagram could not be decoded, or a value could not be built.
#[derive(Debug, Clone, Copy, PartialEq, Eq, Structural)]
pub enum DnsError {
    /// Fewer bytes remain than a field or a label declares.
    TruncatedInput,
    /// A label or a whole name is longer than the wire format allows.
    MalformedName,
    /// A length byte with its two high bits set (a compression pointer).
    UnsupportedNameEncoding,
    /// A value does not fit the width of the field that would carry it.
    EncodingOverflow,
}

} // verus!
