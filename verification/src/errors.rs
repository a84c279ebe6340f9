//! Why something could not be done.
use vstd::prelude::*;

verus! {

/// Why a connection could not be opened.
#[derive(Debug, Clone, Copy, PartialEq, Eq, Structural)]
pub enum ConnectError {
    Closed,
    Capacity,
    InvalidConfig,
    InvalidTlsConfig,
    Tls,
}

impl ConnectError {
    pub fn message(self) -> (text: &'static str)
        ensures
            text@ == match self {
                ConnectError::Closed => "multiplexer is shutting down"@,
                ConnectError::Capacity => "connection capacity exhausted"@,
                ConnectError::InvalidConfig => "invalid connection configuration"@,
                ConnectError::InvalidTlsConfig => "invalid TLS configuration"@,
                ConnectError::Tls => "TLS connection initialization failed"@,
            },
    {
        match self {
            ConnectError::Closed => "multiplexer is shutting down",
            ConnectError::Capacity => "connection capacity exhausted",
            ConnectError::InvalidConfig => "invalid connection configuration",
            ConnectError::InvalidTlsConfig => "invalid TLS configuration",
            ConnectError::Tls => "TLS connection initialization failed",
        }
    }
}

/// Why a datagram could not be queued, with the datagram.
#[derive(Debug, PartialEq, Eq)]
pub enum TrySendError<T> {
    Closed(T),
    Full(T),
    TooLarge(T),
    Unsupported(T),
}

/// What could not be sent.
pub open spec fn inner<T>(error: TrySendError<T>) -> T {
    match error {
        TrySendError::Closed(value) => value,
        TrySendError::Full(value) => value,
        TrySendError::TooLarge(value) => value,
        TrySendError::Unsupported(value) => value,
    }
}

impl<T> TrySendError<T> {
    pub fn into_inner(self) -> (value: T)
        ensures
            value == inner(self),
    {
        match self {
            TrySendError::Closed(value) => value,
            TrySendError::Full(value) => value,
            TrySendError::TooLarge(value) => value,
            TrySendError::Unsupported(value) => value,
        }
    }

    pub fn message(&self) -> (text: &'static str)
        ensures
            text@ == match *self {
                TrySendError::Closed(_) => "connection closed"@,
                TrySendError::Full(_) => "datagram queue full"@,
                TrySendError::TooLarge(_) => "datagram too large"@,
                TrySendError::Unsupported(_) => "datagrams unsupported"@,
            },
    {
        match self {
            TrySendError::Closed(value) => "connection closed",
            TrySendError::Full(value) => "datagram queue full",
            TrySendError::TooLarge(value) => "datagram too large",
            TrySendError::Unsupported(value) => "datagrams unsupported",
        }
    }
}

} // verus!
