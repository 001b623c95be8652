//! A small RESP (REdis Serialization Protocol) server library: the frame
//! model, its encoder and incremental decoder, the key/value store and the
//! commands that run against it.

pub mod text;
pub mod frame;
pub mod encode;
pub mod grammar;
pub mod decode;
pub mod mapping;
pub mod buffer;
pub mod backend;
pub mod cmd;
pub mod laws;
pub mod roundtrip;
pub mod conn;

pub use backend::{Backend, BackendInner};
pub use buffer::{extract_simple_frame_data, parse_length, RespDecode, RespFrameFirstByte};
pub use cmd::{
    extract_args, validate_command, Command, CommandEcho, CommandError, CommandExecutor,
    CommandGet, CommandHGet, CommandHGetAll, CommandHMGet, CommandHSet, CommandSet,
    CommandUnknown,
};
pub use conn::{request_response, serve_one, serve_pending, Step};
pub use decode::{find_nth_crlf, RespDecodeError};
pub use encode::RespEncode;
pub use frame::{
    RespArray, RespBulkError, RespBulkString, RespDouble, RespFrame, RespInteger, RespMap,
    RespNull, RespSet, RespSimpleError, RespSimpleString,
};
