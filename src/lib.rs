//! A server-side library for the RESP wire protocol: a frame codec that
//! decodes incrementally from a growing buffer, and a command layer that runs
//! typed commands against an in-memory store of strings, hashes and sets.

pub mod frame;
pub mod grammar;
pub mod lex;
pub mod scan;
pub mod decode;
pub mod encode;
pub mod buffer;
pub mod store;
pub mod cmd;
pub mod construct;
pub mod exec;
pub mod laws;
pub mod cut;
pub mod request;

pub use cmd::{
    Command, CommandError, Echo, Get, HGet, HGetAll, HMGet, HSet, SAdd, SetValue, SisMember,
    Unrecognized,
};
pub use decode::parse_frame;
pub use frame::{
    BulkString, RespArray, RespDouble, RespError, RespFrame, RespMap, RespNull, SimpleError,
    SimpleString,
};
pub use scan::parse_frame_length;
pub use request::handle_request;
pub use store::Backend;
