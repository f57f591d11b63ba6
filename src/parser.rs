//! The kind of a raw line.
use vstd::prelude::*;
pub use crate::timestamp::{detect_timestamp_in_text, detect_timestamp_in_text_at, Timestamp};

verus! {

/// Whether a line held a JSON object or plain text.
#[derive(Debug, Clone, Copy, PartialEq, Eq, Structural)]
pub enum LogFormat {
    Json,
    Plaintext,
}

/// The format of a line: JSON when it holds a JSON object.
pub fn detect_format(line: &str) -> (r: LogFormat)
    ensures
        r == (if crate::json::flat_of_line(line@) is Some { LogFormat::Json } else { LogFormat::Plaintext }),
{
    match crate::json::try_flatten_json(line) {
        Some(_) => LogFormat::Json,
        None => LogFormat::Plaintext,
    }
}

} // verus!
