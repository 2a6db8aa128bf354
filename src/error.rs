use vstd::prelude::*;

verus! {

/// The ways in which reading a response can fail.
#[derive(Debug, Clone, Copy, PartialEq, Eq, Structural)]
pub enum HttpError {
    /// The transport failed; produced by the code that performs the reads.
    IoError,
    /// The peer closed the stream before a delimiter or byte count was reached.
    StreamClosed,
    /// The status line has no HTTP/1.x version token or no numeric code.
    MalformedStatusLine,
    /// A header line could not be understood.
    MalformedHeader,
    /// A chunk-size line is not a hexadecimal number.
    MalformedChunkSize,
    /// A body read was attempted before the response preamble was complete.
    ResponseNotStarted,
    /// A body read was attempted after the body was complete.
    AlreadyExhausted,
}

} // verus!
