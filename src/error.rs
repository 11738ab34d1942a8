use vstd::prelude::*;

verus! {

/// Failures of the codec and of the resolver.
#[derive(Clone, Copy, Debug, PartialEq, Eq, Structural)]
pub enum DnsError {
    /// An access at or beyond the buffer's capacity.
    BufferOverflow,
    /// A name whose compression pointers exceed the hop limit, or that cannot be encoded.
    MalformedName,
    /// Record data that does not match its type.
    UnsupportedRdata,
    /// The datagram channel failed to send or receive.
    TransportFailure,
    /// The resolver ran out of attempts without an answer.
    ResolutionFailed,
}

} // verus!
