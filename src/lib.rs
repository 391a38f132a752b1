//! A codec for the RESP wire protocol: bytes to a typed value tree and back,
//! plus typed projections of a parsed value.
//!
//! Parsing, rendering and projecting are each stated over a mathematical
//! model (`SpecValue`, byte sequences) and proved against it; `laws` states
//! what holds across them, such as rendering then parsing giving a value back.
pub mod command;
pub mod convert;
pub mod format;
pub mod laws;
pub mod num;
pub mod parse;
pub mod value;

pub use command::{decode_command, Command, CommandError};
pub use convert::{BulkString, RESPError, RESPValueConversionError, SimpleString};
pub use format::{resp_to_debug_str, RenderMode};
pub use value::{ParseError, RESPDataType, RESPValue, SpecValue};
