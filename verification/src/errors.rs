//! The errors a node reports.
use vstd::prelude::*;

verus! {

/// `std::io::Error`, carried through by the node's errors.
#[verifier::external_type_specification]
#[verifier::external_body]
pub struct ExIoError(std::io::Error);

/// `tracing::subscriber::SetGlobalDefaultError`, carried through by the
/// node's errors.
#[verifier::external_type_specification]
#[verifier::external_body]
pub struct ExSetGlobalDefaultError(tracing::subscriber::SetGlobalDefaultError);

/// Everything that can go wrong while running a node.
#[derive(Debug)]
pub enum NodeError {
    /// A socket operation failed.
    IoError(std::io::Error),
    /// The peer closed the connection (a read returned no bytes).
    TcpClosedError,
    /// Writing to a peer failed.
    TcpWriteError(std::io::Error),
    /// The sending period was set to zero seconds.
    PeriodValueError,
    /// The node was asked to connect to its own listening socket.
    ItselfConnectionError,
    /// The logging subscriber could not be installed.
    TracingSubscriberError(tracing::subscriber::SetGlobalDefaultError),
    /// A peer sent something that is not an IPv4 socket address.
    InvalidIpV4,
    /// A message started with a byte that names no mode.
    UnexpectedMode,
}

} // verus!
