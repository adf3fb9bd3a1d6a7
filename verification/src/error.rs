//! What can be wrong with a request, and how the protocol names it.

use vstd::prelude::*;

verus! {

/// Octets that do not hold what was to be read from them.
#[derive(Debug, Clone, Copy, PartialEq, Eq, Structural)]
pub enum DecodeError {
    /// The input ends before the value does.
    TooShort,
    /// Octets are left over after the last value.
    TooLong,
    /// A field holds a value that has no meaning there.
    InvalidValue,
}

/// Why a request cannot be answered.
#[derive(Debug, Clone, Copy, PartialEq, Eq, Structural)]
pub enum Error {
    /// The request's octets do not follow its layout.
    Malformed(DecodeError),
    /// A data element is not of the type that its place asks for.
    UnexpectedDataType,
    /// There is nothing to continue, or the request cannot be continued.
    InvalidContinuationState,
    /// No service record has this handle.
    UnknownServiceRecordHandle(u32),
    /// The server does not answer this kind of packet.
    InvalidRequest,
}

/// A packet with more octets of parameters than its header can state.
#[derive(Debug, Clone, Copy, PartialEq, Eq, Structural)]
pub struct PacketTooLong;

/// The error codes of the protocol.
#[derive(Debug, Clone, Copy, PartialEq, Eq, Structural)]
pub enum SdpErrorCodes {
    /// The protocol version is not supported.
    InvalidSdpVersion,
    /// There is no such service record.
    InvalidServiceRecordHandle,
    /// The request does not follow the protocol's syntax.
    InvalidRequestSyntax,
    /// The request's size does not agree with its parameters.
    InvalidPduSize,
    /// The continuation state is not one that this server gave out.
    InvalidContinuationState,
    /// The server lacks the means to answer.
    InsufficientResources,
}

impl SdpErrorCodes {
    /// The code's number.
    pub open spec fn number(self) -> u16 {
        match self {
            SdpErrorCodes::InvalidSdpVersion => 0x0001,
            SdpErrorCodes::InvalidServiceRecordHandle => 0x0002,
            SdpErrorCodes::InvalidRequestSyntax => 0x0003,
            SdpErrorCodes::InvalidPduSize => 0x0004,
            SdpErrorCodes::InvalidContinuationState => 0x0005,
            SdpErrorCodes::InsufficientResources => 0x0006,
        }
    }

    /// The code's number.
    pub fn code(self) -> (r: u16)
        ensures
            r == self.number(),
    {
        match self {
            SdpErrorCodes::InvalidSdpVersion => 0x0001,
            SdpErrorCodes::InvalidServiceRecordHandle => 0x0002,
            SdpErrorCodes::InvalidRequestSyntax => 0x0003,
            SdpErrorCodes::InvalidPduSize => 0x0004,
            SdpErrorCodes::InvalidContinuationState => 0x0005,
            SdpErrorCodes::InsufficientResources => 0x0006,
        }
    }
}

/// The code by which the protocol names an error.
pub open spec fn error_code(error: Error) -> SdpErrorCodes {
    match error {
        Error::Malformed(_) => SdpErrorCodes::InvalidRequestSyntax,
        Error::UnexpectedDataType => SdpErrorCodes::InvalidRequestSyntax,
        Error::InvalidContinuationState => SdpErrorCodes::InvalidContinuationState,
        Error::UnknownServiceRecordHandle(_) => SdpErrorCodes::InvalidServiceRecordHandle,
        Error::InvalidRequest => SdpErrorCodes::InvalidRequestSyntax,
    }
}

impl From<Error> for SdpErrorCodes {
    fn from(error: Error) -> (r: SdpErrorCodes) {
        match error {
            Error::Malformed(_) => SdpErrorCodes::InvalidRequestSyntax,
            Error::UnexpectedDataType => SdpErrorCodes::InvalidRequestSyntax,
            Error::InvalidContinuationState => SdpErrorCodes::InvalidContinuationState,
            Error::UnknownServiceRecordHandle(_) => SdpErrorCodes::InvalidServiceRecordHandle,
            Error::InvalidRequest => SdpErrorCodes::InvalidRequestSyntax,
        }
    }
}

impl vstd::std_specs::convert::FromSpecImpl<Error> for SdpErrorCodes {
    open spec fn obeys_from_spec() -> bool {
        true
    }

    open spec fn from_spec(error: Error) -> SdpErrorCodes {
        error_code(error)
    }
}

} // verus!
