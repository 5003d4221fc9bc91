//! A decoder for the REdis Serialization Protocol (RESP2 and RESP3) and a
//! classifier that turns a decoded message into a typed command.
//!
//! [`parse_chunk`] decodes one value from the front of a buffer and hands
//! back what follows it; [`parse`] decodes a buffer that holds exactly one
//! message; [`classify`] tells which command a decoded array is. All three
//! are pure: they read their argument and build their result, nothing else.
//! The spans of a decoded value borrow from the buffer.
//!
//! What the decoder makes of a buffer is defined in [`wire`], as functions
//! on byte sequences, and every decoding function is proved to compute just
//! that. [`framing`], [`delimiting`] and [`encode`] hold what is proved of
//! the wire format itself. Numbers are read by nom, behind the functions of
//! [`number`], whose contracts are taken on trust.

pub mod command;
pub mod decode;
pub mod delimiting;
pub mod encode;
pub mod error;
pub mod framing;
pub mod number;
pub mod resp_type;
pub mod span;
pub mod wire;

pub use command::{classify, ClassifyError, Command};
pub use decode::{
    parse, parse_array, parse_big_number, parse_bool, parse_bulk_error, parse_bulk_string,
    parse_chunk, parse_double, parse_double_after, parse_int, parse_null, parse_simple_error,
    parse_simple_string, parse_v_string,
};
pub use error::{DecodeError, ErrorKind};
pub use resp_type::RespType;
