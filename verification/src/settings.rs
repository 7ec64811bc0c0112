//! Settings that come as text and may be missing.

use crate::net::PeerAddr;
use crate::text::{parse_signed, parse_unsigned, signed, unsigned};
use vstd::prelude::*;

verus! {

/// A text that may be missing.
pub open spec fn text_of(var: Option<String>) -> Option<Seq<char>> {
    match var {
        Some(s) => Some(s@),
        None => None,
    }
}

/// The number in a text, or a default where there is no text or no number in it.
pub open spec fn number_or(var: Option<Seq<char>>, max: nat, default: nat) -> nat {
    match var {
        Some(s) => match unsigned(s, max) {
            Some(n) => n,
            None => default,
        },
        None => default,
    }
}

/// The text, or a default where there is none.
pub open spec fn text_or(var: Option<Seq<char>>, default: Seq<char>) -> Seq<char> {
    match var {
        Some(s) => s,
        None => default,
    }
}

/// The number in a text, or a default.
pub(crate) fn parse_or(var: &Option<String>, max: u64, default: u64) -> (r: u64)
    requires
        default <= max,
    ensures
        r == number_or(text_of(*var), max as nat, default as nat),
        r <= max,
{
    match var {
        Some(s) => match parse_unsigned(s.as_str(), max) {
            Some(n) => n,
            None => default,
        },
        None => default,
    }
}

/// The text, or a default.
pub(crate) fn or_text(var: Option<String>, default: &str) -> (r: String)
    ensures
        r@ == text_or(text_of(var), default@),
{
    match var {
        Some(s) => s,
        None => default.to_owned(),
    }
}

/// The port of the orchestrator: a number in 32 bits, 8000 where there is none.
pub open spec fn orchestrator_port_of(var: Option<Seq<char>>) -> int {
    match var {
        Some(s) => match signed(s) {
            Some(n) => n,
            None => 8000,
        },
        None => 8000,
    }
}

/// The port of the orchestrator, where it is a port.
pub fn orchestrator_port(var: &Option<String>) -> (r: Option<u16>)
    ensures
        match r {
            Some(port) => orchestrator_port_of(text_of(*var)) == port,
            None => !(0 <= orchestrator_port_of(text_of(*var)) <= 65535),
        },
{
    let n: i64 = match var {
        Some(s) => match parse_signed(s.as_str()) {
            Some(n) => n,
            None => 8000,
        },
        None => 8000,
    };
    if 0 <= n && n <= 65535 {
        Some(n as u16)
    } else {
        None
    }
}

/// A port of this machine.
pub open spec fn local_port(port: u16) -> PeerAddr {
    PeerAddr::V4 { ip: 0x7f00_0001, port }
}

} // verus!
