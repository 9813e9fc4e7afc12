//! A RESP (Redis serialization protocol) codec, with the command layer of a small
//! key-value server.
pub mod frame;
pub mod wire;
pub mod encode;
pub mod grammar;
pub mod outside;
pub mod scan;
pub mod decode;
pub mod command;
pub mod laws;

pub use command::{
    validate_command, Command, CommandError, Echo, Get, HGet, HGetAll, HMGet, HSet, Ping, SAdd,
    SISMember, SetValue, Unrecognized,
};
pub use decode::{calc_total_length, extract_fixed_data, parse_frame, parse_message};
pub use encode::RespEncode;
pub use frame::{
    BulkString, ErrorKind, RespArray, RespDouble, RespError, RespFrame, RespMap, RespNull,
    RespSet, SimpleError, SimpleString, Value,
};
pub use scan::{extract_simple_frame_data, find_crlf, parse_length};
