//! Turns captured HTTP/1-style responses, as printed by verbose HTTP clients,
//! into JSON objects.
//!
//! - `reader`: a line reader over the captured bytes that can push lines back.
//! - `grammar`: client noise, status lines, header fields, lengths and media
//!   types.
//! - `json`: JSON text through tinyjson.
//! - `response`: reading one response and writing it as a JSON object.
//! - `run`: converting a whole capture.
//! - `capture`: captures written out plainly, and how many responses a run
//!   reads from them.
//! - `bytes`: byte helpers shared by the rest.

pub mod bytes;
pub mod capture;
pub mod grammar;
pub mod json;
pub mod reader;
pub mod response;
pub mod run;
