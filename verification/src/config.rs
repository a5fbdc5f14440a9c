//! Server start-up settings: log level names and the address to listen on.

use vstd::prelude::*;
use vstd::string::StringExecFns;
use crate::metrics::str_eq;
use crate::strutil::{decimal, push_decimal};

verus! {

/// Port the server listens on by default.
pub const DEFAULT_PORT: u16 = 1234;

/// Verbosity of the server log.
#[derive(Debug, Clone, Copy, PartialEq, Eq, Structural)]
pub enum LogLevel {
    Trace,
    Debug,
    Info,
    Warn,
    Error,
}

/// The level a name selects; unknown names select `Info`.
pub open spec fn level_named(name: Seq<char>) -> LogLevel {
    if name == "trace"@ {
        LogLevel::Trace
    } else if name == "debug"@ {
        LogLevel::Debug
    } else if name == "warn"@ {
        LogLevel::Warn
    } else if name == "error"@ {
        LogLevel::Error
    } else {
        LogLevel::Info
    }
}

/// The log level for a `--log-level` value.
pub fn log_level_from_name(name: &str) -> (l: LogLevel)
    ensures
        l == level_named(name@),
{
    if str_eq(name, "trace") {
        LogLevel::Trace
    } else if str_eq(name, "debug") {
        LogLevel::Debug
    } else if str_eq(name, "warn") {
        LogLevel::Warn
    } else if str_eq(name, "error") {
        LogLevel::Error
    } else {
        LogLevel::Info
    }
}

/// The address text `<host>:<port>` to listen on; with network access the
/// host is `0.0.0.0`, whatever was asked.
pub open spec fn listen_address_text(network: bool, host: Seq<char>, port: u16) -> Seq<char> {
    (if network { "0.0.0.0"@ } else { host }) + ":"@ + decimal(port as nat)
}

/// The address to listen on.
pub fn listen_address(network: bool, host: &str, port: u16) -> (a: String)
    ensures
        a@ == listen_address_text(network, host@, port),
{
    let mut a = if network { "0.0.0.0".to_owned() } else { host.to_owned() };
    a.append(":");
    push_decimal(&mut a, port as u128);
    a
}

} // verus!
