//! Status codes and the error type.
use crate::text::join;
use vstd::prelude::*;
use vstd::string::*;

verus! {

/// Completion status of a work request or a remote operation.
pub type UbStatus = u32;

pub const UB_OK: UbStatus = 0;
pub const UB_ERR_ADDR_INVALID: UbStatus = 1;
pub const UB_ERR_PERM_DENIED: UbStatus = 2;
pub const UB_ERR_ALIGNMENT: UbStatus = 3;
pub const UB_ERR_LINK_DOWN: UbStatus = 4;
pub const UB_ERR_NO_RESOURCES: UbStatus = 5;
pub const UB_ERR_TIMEOUT: UbStatus = 6;
pub const UB_ERR_PAYLOAD_TOO_LARGE: UbStatus = 7;
pub const UB_ERR_FLUSHED: UbStatus = 8;
pub const UB_ERR_INTERNAL: UbStatus = 9;

/// The name of a status code.
pub open spec fn status_name(status: u32) -> Seq<char> {
    if status == UB_OK { "OK"@ }
    else if status == UB_ERR_ADDR_INVALID { "ADDR_INVALID"@ }
    else if status == UB_ERR_PERM_DENIED { "PERM_DENIED"@ }
    else if status == UB_ERR_ALIGNMENT { "ALIGNMENT"@ }
    else if status == UB_ERR_LINK_DOWN { "LINK_DOWN"@ }
    else if status == UB_ERR_NO_RESOURCES { "NO_RESOURCES"@ }
    else if status == UB_ERR_TIMEOUT { "TIMEOUT"@ }
    else if status == UB_ERR_PAYLOAD_TOO_LARGE { "PAYLOAD_TOO_LARGE"@ }
    else if status == UB_ERR_FLUSHED { "FLUSHED"@ }
    else if status == UB_ERR_INTERNAL { "INTERNAL"@ }
    else { "UNKNOWN"@ }
}

/// Converts a status code to a human-readable string.
pub fn status_to_string(status: UbStatus) -> (r: &'static str)
    ensures
        r@ == status_name(status),
{
    match status {
        UB_OK => "OK",
        UB_ERR_ADDR_INVALID => "ADDR_INVALID",
        UB_ERR_PERM_DENIED => "PERM_DENIED",
        UB_ERR_ALIGNMENT => "ALIGNMENT",
        UB_ERR_LINK_DOWN => "LINK_DOWN",
        UB_ERR_NO_RESOURCES => "NO_RESOURCES",
        UB_ERR_TIMEOUT => "TIMEOUT",
        UB_ERR_PAYLOAD_TOO_LARGE => "PAYLOAD_TOO_LARGE",
        UB_ERR_FLUSHED => "FLUSHED",
        UB_ERR_INTERNAL => "INTERNAL",
        _ => "UNKNOWN",
    }
}

/// An I/O error of the host. The library carries it and never looks inside.
#[verifier::external_type_specification]
#[verifier::external_body]
pub struct ExIoError(std::io::Error);

/// What can go wrong in the library.
#[derive(Debug)]
pub enum UbError {
    AddrInvalid,
    PermDenied,
    Alignment,
    LinkDown,
    NoResources,
    Timeout,
    PayloadTooLarge,
    Flushed,
    Internal(String),
    Io(std::io::Error),
    Config(String),
}

impl UbError {
    /// The status code that stands for the error in completions and on the wire.
    pub open spec fn spec_status(&self) -> UbStatus {
        match self {
            UbError::AddrInvalid => UB_ERR_ADDR_INVALID,
            UbError::PermDenied => UB_ERR_PERM_DENIED,
            UbError::Alignment => UB_ERR_ALIGNMENT,
            UbError::LinkDown => UB_ERR_LINK_DOWN,
            UbError::NoResources => UB_ERR_NO_RESOURCES,
            UbError::Timeout => UB_ERR_TIMEOUT,
            UbError::PayloadTooLarge => UB_ERR_PAYLOAD_TOO_LARGE,
            UbError::Flushed => UB_ERR_FLUSHED,
            _ => UB_ERR_INTERNAL,
        }
    }

    /// Each of the eight errors that can be told has a status of its own, from 1 on; the
    /// others share the last one.
    pub proof fn lemma_statuses(&self)
        ensures
            self.spec_status() == (match self {
                UbError::AddrInvalid => 1u32,
                UbError::PermDenied => 2,
                UbError::Alignment => 3,
                UbError::LinkDown => 4,
                UbError::NoResources => 5,
                UbError::Timeout => 6,
                UbError::PayloadTooLarge => 7,
                UbError::Flushed => 8,
                UbError::Internal(_) => 9,
                UbError::Io(_) => 9,
                UbError::Config(_) => 9,
            }),
    {
    }

    /// Whether this is an internal error with the message `text`.
    pub open spec fn is_internal(&self, text: Seq<char>) -> bool {
        self matches UbError::Internal(m) && m@ == text
    }

    pub fn status_code(&self) -> (r: UbStatus)
        ensures
            r == self.spec_status(),
    {
        match self {
            UbError::AddrInvalid => UB_ERR_ADDR_INVALID,
            UbError::PermDenied => UB_ERR_PERM_DENIED,
            UbError::Alignment => UB_ERR_ALIGNMENT,
            UbError::LinkDown => UB_ERR_LINK_DOWN,
            UbError::NoResources => UB_ERR_NO_RESOURCES,
            UbError::Timeout => UB_ERR_TIMEOUT,
            UbError::PayloadTooLarge => UB_ERR_PAYLOAD_TOO_LARGE,
            UbError::Flushed => UB_ERR_FLUSHED,
            UbError::Internal(_) => UB_ERR_INTERNAL,
            UbError::Io(_) => UB_ERR_INTERNAL,
            UbError::Config(_) => UB_ERR_INTERNAL,
        }
    }

    /// An internal error with the given message.
    pub fn internal(text: &str) -> (r: UbError)
        ensures
            r.is_internal(text@),
    {
        UbError::Internal(String::from_str(text))
    }

    /// The text shown for the error. The text of an I/O error is the host's own.
    pub fn message(&self) -> (r: String)
        ensures
            match self {
                UbError::AddrInvalid => r@ == "address invalid"@,
                UbError::PermDenied => r@ == "permission denied"@,
                UbError::Alignment => r@
                    == "alignment error: address must be 8-byte aligned for atomic operations"@,
                UbError::LinkDown => r@ == "link down"@,
                UbError::NoResources => r@ == "no resources"@,
                UbError::Timeout => r@ == "timeout"@,
                UbError::PayloadTooLarge => r@ == "payload too large"@,
                UbError::Flushed => r@ == "flushed"@,
                UbError::Internal(m) => r@ == "internal error: "@ + m@,
                UbError::Io(e) => exists|t: String|
                    #[trigger] to_string_from_display_ensures(e, t) && r@ == "IO error: "@ + t@,
                UbError::Config(m) => r@ == "config error: "@ + m@,
            },
    {
        match self {
            UbError::AddrInvalid => String::from_str("address invalid"),
            UbError::PermDenied => String::from_str("permission denied"),
            UbError::Alignment => String::from_str(
                "alignment error: address must be 8-byte aligned for atomic operations",
            ),
            UbError::LinkDown => String::from_str("link down"),
            UbError::NoResources => String::from_str("no resources"),
            UbError::Timeout => String::from_str("timeout"),
            UbError::PayloadTooLarge => String::from_str("payload too large"),
            UbError::Flushed => String::from_str("flushed"),
            UbError::Internal(m) => join("internal error: ", m.as_str()),
            UbError::Io(e) => {
                let t = e.to_string();
                join("IO error: ", t.as_str())
            },
            UbError::Config(m) => join("config error: ", m.as_str()),
        }
    }
}

} // verus!
