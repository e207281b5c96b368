//! A small Redis-compatible key-value server: the RESP codec, the command
//! set, the shared store and the per-connection decisions, with their
//! contracts.
pub mod text;
pub mod frame;
pub mod encode;
pub mod strings;
pub mod decode;
pub mod buffer;
pub mod backend;
pub mod cmd;
pub mod conn;
pub mod laws;

pub use frame::{
    BulkString, RespArray, RespDouble, RespFrame, RespMap, RespNull, RespSet, SimpleError,
    SimpleString, MAX_BULK_LEN, MAX_ITEMS,
};
pub use encode::RespEncode;
pub use decode::{RespDecode, RespError, decode_prefix};
pub use backend::Backend;
pub use cmd::{
    Command, CommandError, Echo, Get, HGet, HGetAll, HMGet, HSet, SAdd, SIsMember, SetCommand,
    Unrecognized, validate_command, validate_dynamic_command, extract_args,
};
pub use conn::{Step, next_step, respond};
