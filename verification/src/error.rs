//! Error taxonomy and RESP error-reply rendering.

use vstd::prelude::*;
use vstd::string::StringSliceAdditionalSpecFns;
use crate::connection::WriteBuffer;

verus! {

/// Largest request body a connection accepts.
pub const MAX_MESSAGE_SIZE: usize = 4096;

/// A malformed or incomplete RESP request.
#[derive(Clone, Copy, Debug, PartialEq, Eq)]
pub enum ProtocolError {
    ExpectedByte { expected: u8, got: u8 },
    UnexpectedByte(u8),
    Incomplete,
}

/// A syntactically valid request that names no runnable command, carries the
/// wrong number of arguments, or applies a list operation to a non-list value.
#[derive(Debug, PartialEq, Eq)]
pub enum CommandError {
    UnknownCommand { cmd: Vec<u8> },
    WrongNumberOfArguments { cmd: Vec<u8> },
    WrongType,
}

#[derive(Debug, PartialEq, Eq)]
pub enum RedisCommandError {
    KeyNotFound,
    UnknownCommand(Vec<u8>),
    WrongArity(String),
}

#[derive(Clone, Copy, Debug, PartialEq, Eq)]
pub enum ConnectionError {
    WriteBufferOverflow,
}

/// A list index outside the ziplist, or an entry no encoding can hold.
#[derive(Clone, Copy, Debug, PartialEq, Eq)]
pub enum ListError {
    IndexOutOfRange,
    EntryTooLarge,
}

/// Any failure the server distinguishes; `Io` carries the OS error code.
#[derive(Debug)]
pub enum RedisError {
    Io(i32),
    ProtocolError(ProtocolError),
    CommandError(CommandError),
    ConnectionClosed,
    ConnectionError(ConnectionError),
    Other(String),
}

/// The reply bytes for a protocol error: `-ERR Protocol error: ...\r\n`.
pub open spec fn protocol_error_msg(error: ProtocolError) -> Seq<u8> {
    match error {
        ProtocolError::ExpectedByte { expected, got } => "-ERR Protocol error: ".spec_bytes()
            + "expected: '".spec_bytes() + seq![expected] + "', got: '".spec_bytes()
            + seq![got] + seq![39u8] + "\r\n".spec_bytes(),
        ProtocolError::UnexpectedByte(byte) => "-ERR Protocol error: ".spec_bytes()
            + "unexpected byte: '".spec_bytes() + seq![byte] + seq![39u8] + "\r\n".spec_bytes(),
        ProtocolError::Incomplete => Seq::empty(),
    }
}

/// The reply bytes for an unknown command named `n`.
pub open spec fn command_error_msg_unknown(n: Seq<u8>) -> Seq<u8> {
    "-ERR ".spec_bytes() + "unknown command '".spec_bytes() + n + seq![39u8]
        + "\r\n".spec_bytes()
}

/// The reply bytes for a command called with the wrong number of arguments.
pub open spec fn command_error_msg_arity(n: Seq<u8>) -> Seq<u8> {
    "-ERR ".spec_bytes() + "wrong number of arguments for '".spec_bytes() + n
        + "' command".spec_bytes() + "\r\n".spec_bytes()
}

/// The reply bytes for a command error: `-ERR ...\r\n`.
pub open spec fn command_error_msg(error: CommandError) -> Seq<u8> {
    match error {
        CommandError::UnknownCommand { cmd } => command_error_msg_unknown(cmd@),
        CommandError::WrongNumberOfArguments { cmd } => command_error_msg_arity(cmd@),
        CommandError::WrongType =>
            "-ERR WRONGTYPE Operation against a key holding the wrong kind of value".spec_bytes()
            + "\r\n".spec_bytes(),
    }
}

/// Appends the RESP error reply for a malformed request.  `Incomplete` is not
/// an error to report: it only signals that more bytes are needed.
pub fn handle_protocol_error(error: &ProtocolError, write_buf: &mut WriteBuffer)
    requires
        !(error is Incomplete),
    ensures
        final(write_buf).buf@ == old(write_buf).buf@ + protocol_error_msg(*error),
        final(write_buf).pos == old(write_buf).pos,
{
    write_buf.append_bytes("-ERR Protocol error: ".as_bytes());
    match error {
        ProtocolError::ExpectedByte { expected, got } => {
            write_buf.append_bytes("expected: '".as_bytes());
            write_buf.append_byte(*expected);
            write_buf.append_bytes("', got: '".as_bytes());
            write_buf.append_byte(*got);
            write_buf.append_byte(39u8);
        }
        ProtocolError::UnexpectedByte(byte) => {
            write_buf.append_bytes("unexpected byte: '".as_bytes());
            write_buf.append_byte(*byte);
            write_buf.append_byte(39u8);
        }
        ProtocolError::Incomplete => {
            proof {
                assert(false);
            }
        }
    }
    write_buf.append_bytes("\r\n".as_bytes());
}

/// Appends the RESP error reply for a command-level error.
pub fn handle_command_error(error: &CommandError, write_buf: &mut WriteBuffer)
    ensures
        final(write_buf).buf@ == old(write_buf).buf@ + command_error_msg(*error),
        final(write_buf).pos == old(write_buf).pos,
{
    match error {
        CommandError::UnknownCommand { cmd } => {
            write_buf.append_bytes("-ERR ".as_bytes());
            write_buf.append_bytes("unknown command '".as_bytes());
            write_buf.append_bytes(cmd.as_slice());
            write_buf.append_byte(39u8);
        }
        CommandError::WrongNumberOfArguments { cmd } => {
            write_buf.append_bytes("-ERR ".as_bytes());
            write_buf.append_bytes("wrong number of arguments for '".as_bytes());
            write_buf.append_bytes(cmd.as_slice());
            write_buf.append_bytes("' command".as_bytes());
        }
        CommandError::WrongType => {
            write_buf.append_bytes(
                "-ERR WRONGTYPE Operation against a key holding the wrong kind of value"
                    .as_bytes(),
            );
        }
    }
    write_buf.append_bytes("\r\n".as_bytes());
}

} // verus!
