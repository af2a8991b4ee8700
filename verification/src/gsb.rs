//! The messages of the service-bus protocol that the router handles.

use vstd::prelude::*;

verus! {

/// Reply codes to a registration, as the protocol encodes them.
pub const REGISTERED_OK: i32 = 0;
pub const REGISTER_BAD_REQUEST: i32 = 400;
pub const REGISTER_CONFLICT: i32 = 409;

/// Reply codes to an unregistration.
pub const UNREGISTERED_OK: i32 = 0;
pub const NOT_REGISTERED: i32 = 404;

/// Reply codes to a call.
pub const CALL_REPLY_OK: i32 = 0;
pub const CALL_REPLY_BAD_REQUEST: i32 = 400;
pub const SERVICE_FAILURE: i32 = 500;

/// Kinds of reply to a call: the last one (full) or one of several (partial).
pub const REPLY_TYPE_FULL: i32 = 0;
pub const REPLY_TYPE_PARTIAL: i32 = 1;

/// A server asks to serve a service under an ID.
#[derive(Clone, Debug, PartialEq)]
pub struct RegisterRequest {
    pub service_id: String,
}

#[derive(Clone, Debug, PartialEq)]
pub struct RegisterReply {
    pub code: i32,
    pub message: String,
}

/// A server asks to stop serving a service.
#[derive(Clone, Debug, PartialEq)]
pub struct UnregisterRequest {
    pub service_id: String,
}

#[derive(Clone, Debug, PartialEq)]
pub struct UnregisterReply {
    pub code: i32,
}

/// A client calls the service registered under `address`.
#[derive(Clone, Debug, PartialEq)]
pub struct CallRequest {
    pub caller: String,
    pub address: String,
    pub request_id: String,
    pub data: Vec<u8>,
}

/// A server answers the call with ID `request_id`.
#[derive(Clone, Debug, PartialEq)]
pub struct CallReply {
    pub request_id: String,
    pub code: i32,
    pub reply_type: i32,
    pub data: Vec<u8>,
}

#[derive(Clone, Debug, PartialEq)]
pub enum GsbMessage {
    RegisterRequest(RegisterRequest),
    RegisterReply(RegisterReply),
    UnregisterRequest(UnregisterRequest),
    UnregisterReply(UnregisterReply),
    CallRequest(CallRequest),
    CallReply(CallReply),
}

} // verus!
