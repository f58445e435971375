//! Parsed client commands.

use vstd::prelude::*;

verus! {

/// A fully parsed request, ready for the keyspace engine.
#[derive(Debug, PartialEq)]
pub enum RedisCommand {
    Get { key: Vec<u8> },
    SetCmd { key: Vec<u8>, value: Vec<u8> },
    Del { keys: Vec<Vec<u8>> },
    LPush { key: Vec<u8>, value: Vec<u8> },
    RPush { key: Vec<u8>, value: Vec<u8> },
    LPop { key: Vec<u8> },
    RPop { key: Vec<u8> },
}

/// The mathematical form of a command.
pub enum CommandSpec {
    Get { key: Seq<u8> },
    SetCmd { key: Seq<u8>, value: Seq<u8> },
    Del { keys: Seq<Seq<u8>> },
    LPush { key: Seq<u8>, value: Seq<u8> },
    RPush { key: Seq<u8>, value: Seq<u8> },
    LPop { key: Seq<u8> },
    RPop { key: Seq<u8> },
}

impl View for RedisCommand {
    type V = CommandSpec;

    open spec fn view(&self) -> CommandSpec {
        match self {
            RedisCommand::Get { key } => CommandSpec::Get { key: key@ },
            RedisCommand::SetCmd { key, value } => CommandSpec::SetCmd { key: key@, value: value@ },
            RedisCommand::Del { keys } => CommandSpec::Del {
                keys: Seq::new(keys@.len(), |i: int| keys@[i]@),
            },
            RedisCommand::LPush { key, value } => CommandSpec::LPush {
                key: key@,
                value: value@,
            },
            RedisCommand::RPush { key, value } => CommandSpec::RPush {
                key: key@,
                value: value@,
            },
            RedisCommand::LPop { key } => CommandSpec::LPop { key: key@ },
            RedisCommand::RPop { key } => CommandSpec::RPop { key: key@ },
        }
    }
}

} // verus!
