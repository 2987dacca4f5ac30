//! Talking to a running extension daemon: the request the command line
//! sends, and what it makes of the daemon's answer.

use vstd::prelude::*;
use vstd::string::*;
use crate::json::JsonValue;
use crate::rpc::{JsonRpcRequest, JsonRpcResponse};
use crate::text::str_eq;

verus! {

/// Why a request could not be served by the daemon.
#[derive(Debug)]
pub enum DaemonClientError {
    /// No daemon serves this configuration.
    NotAvailable,
    /// The exchange with the daemon failed.
    Protocol(String),
    /// The daemon answered with an error.
    Rpc(String),
}

/// Display text of a daemon client error.
pub open spec fn daemon_client_error_text(e: DaemonClientError) -> Seq<char> {
    match e {
        DaemonClientError::NotAvailable => "daemon IPC is not available"@,
        DaemonClientError::Protocol(m) => "daemon IPC protocol error: "@ + m@,
        DaemonClientError::Rpc(m) => "daemon returned RPC error: "@ + m@,
    }
}

impl DaemonClientError {
    /// Display text, such as `daemon IPC is not available`.
    pub fn to_string(&self) -> (r: String)
        ensures
            r@ == daemon_client_error_text(*self),
    {
        match self {
            DaemonClientError::NotAvailable => String::from_str("daemon IPC is not available"),
            DaemonClientError::Protocol(m) => {
                let mut r = String::from_str("daemon IPC protocol error: ");
                r.append(m.as_str());
                r
            },
            DaemonClientError::Rpc(m) => {
                let mut r = String::from_str("daemon returned RPC error: ");
                r.append(m.as_str());
                r
            },
        }
    }
}

/// The request sent to the daemon: JSON-RPC 2.0, id 1.
pub fn daemon_request(method: &str, params: Option<JsonValue>) -> (r: JsonRpcRequest)
    ensures
        r.jsonrpc@ == "2.0"@,
        r.id == 1,
        r.method@ == method@,
        r.params == params,
{
    JsonRpcRequest { jsonrpc: String::from_str("2.0"), id: 1, method: String::from_str(method), params }
}

/// A daemon serves this configuration only when the configuration it
/// recorded is this one.
pub fn check_daemon_identity(recorded: &str, expected: &str) -> (r: Result<(), DaemonClientError>)
    ensures
        recorded@ == expected@ <==> r is Ok,
        r is Err ==> r matches Err(DaemonClientError::NotAvailable),
{
    if str_eq(recorded, expected) {
        Ok(())
    } else {
        Err(DaemonClientError::NotAvailable)
    }
}

/// What the daemon's response gives: its error message as an RPC error,
/// else its result (`null` when it has none).
pub fn daemon_reply(response: JsonRpcResponse) -> (r: Result<JsonValue, DaemonClientError>)
    ensures
        match response.error {
            Some(e) => r matches Err(DaemonClientError::Rpc(m)) && m@ == e.message@,
            None => match response.result {
                Some(v) => r == Ok::<JsonValue, DaemonClientError>(v),
                None => r == Ok::<JsonValue, DaemonClientError>(JsonValue::Null),
            },
        },
{
    match response.error {
        Some(e) => Err(DaemonClientError::Rpc(e.message)),
        None => match response.result {
            Some(v) => Ok(v),
            None => Ok(JsonValue::Null),
        },
    }
}

} // verus!
