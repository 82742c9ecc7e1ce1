//! Recovery of the finite state machine latent in a PLC-style function block:
//! guard parsing, disjunctive normal form, path enumeration, and per-state
//! path signatures, with machine-checked contracts.

pub mod block;
pub mod cond;
pub mod expr;
pub mod imap;
pub mod output;
pub mod parse;
pub mod paths;
pub mod runtime;
pub mod signatures;
pub mod state;
pub mod strutil;
pub mod token;
pub mod transition;
pub mod validator;
