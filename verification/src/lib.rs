//! A minimal in-memory key-value server core speaking a Redis-style line
//! protocol: a wire codec (`resp`), a typed command model (`ast`), a
//! TTL-aware store (`models`) and a command evaluator (`commands`).
//!
//! Networking, argument handling and clocks live outside this crate; the
//! library works on plain byte values and explicit timestamps.

use vstd::prelude::*;

pub mod ast;
pub mod commands;
pub mod models;
pub mod resp;

verus! {

/// Failures of decoding, command building and evaluation.
///
/// `Format` covers malformed CRLF or length framing, `UnsupportedType`
/// names an unknown leading sigil byte, `TrailingData` flags leftover
/// bytes after a complete frame, `Arity` a missing required argument,
/// and the remaining variants the command-level failures.
#[derive(Clone, Copy, Debug, PartialEq, Eq)]
pub enum ProtocolError {
    Format,
    UnsupportedType(u8),
    TrailingData,
    Arity,
    UnknownCommand,
    UnknownConfigKey,
    InvalidCommand,
}

} // verus!
