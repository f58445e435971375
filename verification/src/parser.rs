//! Incremental RESP-2 request parser.
//!
//! Requests have the form `*<count>\r\n` followed by `<count>` bulk strings
//! `$<len>\r\n<bytes>\r\n`.  The parser works over an append-only buffer and
//! a cursor: it consumes whole elements only, so that after an incomplete
//! parse the cursor rests at the start of the unfinished element and the
//! next fill can resume exactly there.  The partial command accumulated so
//! far lives in a `CommandParseState`.

use vstd::prelude::*;
use vstd::slice::{slice_subrange, slice_to_vec};
use crate::error::{ProtocolError, CommandError};
use crate::commands::RedisCommand;

verus! {

/// How far a command has been assembled.
#[derive(Debug, PartialEq, Eq)]
pub enum ParseState {
    Empty,
    Partial,
    Complete,
}

/// The partially assembled command: the name and arguments seen so far,
/// how many bulk strings the header promised, and how many have arrived.
#[derive(Debug, PartialEq, Eq)]
pub struct CommandParseState {
    pub command_name: Option<Vec<u8>>,
    pub args: Vec<Vec<u8>>,
    pub expected_strings: usize,
    pub current_string: usize,
    pub state: ParseState,
}

/// The views of a vector of byte vectors.
pub open spec fn vecs_view(v: Seq<Vec<u8>>) -> Seq<Seq<u8>> {
    Seq::new(v.len(), |i: int| v[i]@)
}

/// The counters of a parse state are consistent with its contents.
pub open spec fn cps_wf(c: &CommandParseState) -> bool {
    match c.state {
        ParseState::Empty => c.command_name is None && c.args@.len() == 0
            && c.expected_strings == 0 && c.current_string == 0,
        ParseState::Partial => c.expected_strings >= 1 && match c.command_name {
            Option::None => c.current_string == 0 && c.args@.len() == 0,
            Option::Some(_) => c.current_string == 1 + c.args@.len()
                && c.current_string < c.expected_strings,
        },
        ParseState::Complete => c.command_name is Some
            && c.current_string == c.expected_strings
            && c.current_string == 1 + c.args@.len(),
    }
}

impl CommandParseState {
    pub fn new() -> (r: CommandParseState)
        ensures
            r.state == ParseState::Empty,
            cps_wf(&r),
    {
        CommandParseState {
            command_name: None,
            args: Vec::new(),
            expected_strings: 0,
            current_string: 0,
            state: ParseState::Empty,
        }
    }

    pub fn clear(command_parse_state: &mut CommandParseState)
        ensures
            final(command_parse_state).state == ParseState::Empty,
            cps_wf(final(command_parse_state)),
    {
        command_parse_state.command_name = None;
        command_parse_state.args.clear();
        command_parse_state.expected_strings = 0;
        command_parse_state.current_string = 0;
        command_parse_state.state = ParseState::Empty;
    }
}

/// What decoding a decimal-then-CRLF run yields: the value and the bytes
/// consumed, a need for more input, or a malformed byte (with how many
/// bytes were consumed reaching it).
pub enum NumR {
    Val(nat, nat),
    Inc,
    Bad(ProtocolError, nat),
}

/// What decoding one bulk string yields.
pub enum BulkR {
    Val(Seq<u8>, nat),
    Inc,
    Bad(ProtocolError, nat),
}

/// What decoding a run of bulk strings yields; the incomplete case carries
/// the arguments already decoded and the bytes they consumed.
pub enum ArgsR {
    Val(Seq<Seq<u8>>, nat),
    Inc(Seq<Seq<u8>>, nat),
    Bad(ProtocolError, nat),
}

/// The parse state left behind by an incomplete command parse.
pub enum StateSpec {
    EmptyS,
    PartialS { expected: nat, name: Option<Seq<u8>>, args: Seq<Seq<u8>>, current: nat },
}

/// What decoding one whole command yields.
pub enum CmdR {
    Done(Seq<u8>, Seq<Seq<u8>>, nat),
    Inc(StateSpec, nat),
    Bad(ProtocolError, nat),
}

pub open spec fn is_digit_byte(b: u8) -> bool {
    48 <= b <= 57
}

/// Decodes ASCII digits accumulated onto `acc` until CRLF.  A digit that
/// would push the value past `usize::MAX` is treated as unexpected.
pub open spec fn spec_number(s: Seq<u8>, acc: nat) -> NumR
    decreases s.len(),
{
    if s.len() == 0 {
        NumR::Inc
    } else {
        let b = s[0];
        if b == 13 {
            if s.len() == 1 {
                NumR::Inc
            } else if s[1] == 10 {
                NumR::Val(acc, 2)
            } else {
                NumR::Bad(ProtocolError::ExpectedByte { expected: 10, got: s[1] }, 2)
            }
        } else if !is_digit_byte(b) {
            NumR::Bad(ProtocolError::UnexpectedByte(b), 1)
        } else if acc > (usize::MAX - (b - 48)) / 10 {
            NumR::Bad(ProtocolError::UnexpectedByte(b), 1)
        } else {
            match spec_number(s.skip(1), (acc * 10 + (b - 48)) as nat) {
                NumR::Val(v, c) => NumR::Val(v, (c + 1) as nat),
                NumR::Inc => NumR::Inc,
                NumR::Bad(e, c) => NumR::Bad(e, (c + 1) as nat),
            }
        }
    }
}

/// A decoded number never exceeds `usize::MAX`: the decoder rejects the
/// digit that would push it past.
pub proof fn lemma_number_bound(s: Seq<u8>, acc: nat)
    requires
        acc <= usize::MAX,
    ensures
        spec_number(s, acc) matches NumR::Val(v, _) ==> v <= usize::MAX,
    decreases s.len(),
{
    if s.len() > 0 {
        let b = s[0];
        if b != 13 && is_digit_byte(b) && !(acc > (usize::MAX - (b - 48)) / 10) {
            vstd::arithmetic::div_mod::lemma_fundamental_div_mod(
                (usize::MAX - (b - 48)) as int,
                10,
            );
            lemma_number_bound(s.skip(1), (acc * 10 + (b - 48)) as nat);
        }
    }
}

/// A malformed-input verdict never carries `Incomplete`: that case is
/// always reported through the incomplete result instead.
pub proof fn lemma_number_no_inc_err(s: Seq<u8>, acc: nat)
    ensures
        spec_number(s, acc) matches NumR::Bad(e, _) ==> e != ProtocolError::Incomplete,
    decreases s.len(),
{
    if s.len() > 0 {
        let b = s[0];
        if b != 13 && is_digit_byte(b) && !(acc > (usize::MAX - (b - 48)) / 10) {
            lemma_number_no_inc_err(s.skip(1), (acc * 10 + (b - 48)) as nat);
        }
    }
}

/// Decodes one bulk string `$<len>\r\n<bytes>\r\n`.
pub open spec fn spec_bulk(s: Seq<u8>) -> BulkR {
    if s.len() == 0 {
        BulkR::Inc
    } else if s[0] != 36 {
        BulkR::Bad(ProtocolError::ExpectedByte { expected: 36, got: s[0] }, 1)
    } else {
        match spec_number(s.skip(1), 0) {
            NumR::Inc => BulkR::Inc,
            NumR::Bad(e, c) => BulkR::Bad(e, (1 + c) as nat),
            NumR::Val(n, c) => {
                if 1 + c + n + 2 > s.len() {
                    BulkR::Inc
                } else {
                    let start = (1 + c) as int;
                    if s[start + n] != 13 {
                        BulkR::Bad(
                            ProtocolError::ExpectedByte { expected: 13, got: s[start + n] },
                            (1 + c + n + 1) as nat,
                        )
                    } else if s[start + n + 1] != 10 {
                        BulkR::Bad(
                            ProtocolError::ExpectedByte { expected: 10, got: s[start + n + 1] },
                            (1 + c + n + 2) as nat,
                        )
                    } else {
                        BulkR::Val(s.subrange(start, start + n), (1 + c + n + 2) as nat)
                    }
                }
            }
        }
    }
}

/// Decodes the array header `*<count>\r\n`; waits for more input while the
/// buffer plainly cannot hold `count` further elements yet.
pub open spec fn spec_header(s: Seq<u8>) -> NumR {
    if s.len() == 0 {
        NumR::Inc
    } else if s[0] != 42 {
        NumR::Bad(ProtocolError::ExpectedByte { expected: 42, got: s[0] }, 1)
    } else {
        match spec_number(s.skip(1), 0) {
            NumR::Inc => NumR::Inc,
            NumR::Bad(e, c) => NumR::Bad(e, (1 + c) as nat),
            NumR::Val(n, c) => {
                if 1 + c + n + 2 > s.len() {
                    NumR::Inc
                } else {
                    NumR::Val(n, (1 + c) as nat)
                }
            }
        }
    }
}

/// Decodes `need` bulk strings in a row.
pub open spec fn spec_args(s: Seq<u8>, need: nat) -> ArgsR
    decreases need,
{
    if need == 0 {
        ArgsR::Val(Seq::empty(), 0)
    } else {
        match spec_bulk(s) {
            BulkR::Inc => ArgsR::Inc(Seq::empty(), 0),
            BulkR::Bad(e, c) => ArgsR::Bad(e, c),
            BulkR::Val(p, c) => match spec_args(s.skip(c as int), (need - 1) as nat) {
                ArgsR::Val(rest, c2) => ArgsR::Val(seq![p] + rest, (c + c2) as nat),
                ArgsR::Inc(part, c2) => ArgsR::Inc(seq![p] + part, (c + c2) as nat),
                ArgsR::Bad(e, c2) => ArgsR::Bad(e, (c + c2) as nat),
            },
        }
    }
}

/// Decodes one whole command from scratch: header, then name, then the
/// remaining arguments.  A zero-element array names no command and is
/// malformed.
pub open spec fn spec_command(s: Seq<u8>) -> CmdR {
    match spec_header(s) {
        NumR::Inc => CmdR::Inc(StateSpec::EmptyS, 0),
        NumR::Bad(e, c) => CmdR::Bad(e, c),
        NumR::Val(cnt, c) => {
            if cnt == 0 {
                CmdR::Bad(ProtocolError::UnexpectedByte(42), c)
            } else {
                match spec_bulk(s.skip(c as int)) {
                    BulkR::Inc => CmdR::Inc(
                        StateSpec::PartialS {
                            expected: cnt,
                            name: None,
                            args: Seq::empty(),
                            current: 0,
                        },
                        c,
                    ),
                    BulkR::Bad(e, c2) => CmdR::Bad(e, (c + c2) as nat),
                    BulkR::Val(nm, c2) => match spec_args(
                        s.skip((c + c2) as int),
                        (cnt - 1) as nat,
                    ) {
                        ArgsR::Val(args, c3) => CmdR::Done(nm, args, (c + c2 + c3) as nat),
                        ArgsR::Inc(part, c3) => CmdR::Inc(
                            StateSpec::PartialS {
                                expected: cnt,
                                name: Some(nm),
                                args: part,
                                current: (1 + part.len()) as nat,
                            },
                            (c + c2 + c3) as nat,
                        ),
                        ArgsR::Bad(e, c3) => CmdR::Bad(e, (c + c2 + c3) as nat),
                    },
                }
            }
        }
    }
}

/// Resumes a partially assembled command: the missing name first, then the
/// outstanding arguments.
pub open spec fn spec_resume(
    expected: nat,
    name: Option<Seq<u8>>,
    args0: Seq<Seq<u8>>,
    current: nat,
    s: Seq<u8>,
) -> CmdR
    recommends
        name is Some ==> current == 1 + args0.len() && current < expected,
        name is None ==> current == 0 && args0.len() == 0 && expected >= 1,
{
    match name {
        Option::None => {
            match spec_bulk(s) {
                BulkR::Inc => CmdR::Inc(
                    StateSpec::PartialS { expected, name: None, args: Seq::empty(), current: 0 },
                    0,
                ),
                BulkR::Bad(e, c) => CmdR::Bad(e, c),
                BulkR::Val(nm, c) => match spec_args(s.skip(c as int), (expected - 1) as nat) {
                    ArgsR::Val(args, c2) => CmdR::Done(nm, args, (c + c2) as nat),
                    ArgsR::Inc(part, c2) => CmdR::Inc(
                        StateSpec::PartialS {
                            expected,
                            name: Some(nm),
                            args: part,
                            current: (1 + part.len()) as nat,
                        },
                        (c + c2) as nat,
                    ),
                    ArgsR::Bad(e, c2) => CmdR::Bad(e, (c + c2) as nat),
                },
            }
        }
        Option::Some(nm) => {
            match spec_args(s, (expected - current) as nat) {
                ArgsR::Val(args, c) => CmdR::Done(nm, args0 + args, c),
                ArgsR::Inc(part, c) => CmdR::Inc(
                    StateSpec::PartialS {
                        expected,
                        name: Some(nm),
                        args: args0 + part,
                        current: (current + part.len()) as nat,
                    },
                    c,
                ),
                ArgsR::Bad(e, c) => CmdR::Bad(e, c),
            }
        }
    }
}

/// A bulk-string malformed verdict never carries `Incomplete`.
pub proof fn lemma_bulk_no_inc_err(s: Seq<u8>)
    ensures
        spec_bulk(s) matches BulkR::Bad(e, _) ==> e != ProtocolError::Incomplete,
{
    if s.len() > 0 && s[0] == 36 {
        lemma_number_no_inc_err(s.skip(1), 0);
    }
}

/// An argument-run malformed verdict never carries `Incomplete`.
pub proof fn lemma_args_no_inc_err(s: Seq<u8>, need: nat)
    ensures
        spec_args(s, need) matches ArgsR::Bad(e, _) ==> e != ProtocolError::Incomplete,
    decreases need,
{
    if need > 0 {
        lemma_bulk_no_inc_err(s);
        if spec_bulk(s) is Val {
            lemma_args_no_inc_err(
                s.skip(spec_bulk(s)->Val_1 as int),
                (need - 1) as nat,
            );
        }
    }
}

/// A command parse reaches `Complete` with exactly the fields the spec
/// decoder names.
pub open spec fn cps_complete_matches(
    c: &CommandParseState,
    nm: Seq<u8>,
    args: Seq<Seq<u8>>,
) -> bool {
    &&& c.state == ParseState::Complete
    &&& (c.command_name matches Option::Some(n) && n@ == nm)
    &&& vecs_view(c.args@) == args
    &&& c.expected_strings == 1 + args.len()
    &&& c.current_string == c.expected_strings
    &&& cps_wf(c)
}

pub open spec fn opt_view(o: Option<Vec<u8>>) -> Option<Seq<u8>> {
    match o {
        Option::None => None,
        Option::Some(v) => Some(v@),
    }
}

/// The exec parse state holds exactly the spec-level parse state.
pub open spec fn cps_matches(c: &CommandParseState, st: StateSpec) -> bool {
    match st {
        StateSpec::EmptyS => c.state == ParseState::Empty && cps_wf(c),
        StateSpec::PartialS { expected, name, args, current } => {
            &&& c.state == ParseState::Partial
            &&& c.expected_strings == expected
            &&& opt_view(c.command_name) == name
            &&& vecs_view(c.args@) == args
            &&& c.current_string == current
            &&& cps_wf(c)
        }
    }
}

/// Reads the byte under the cursor.
fn peek(buf: &[u8], pos: usize) -> (r: u8)
    requires
        pos < buf@.len(),
    ensures
        r == buf@[pos as int],
{
    buf[pos]
}

/// Takes one byte, or reports that the buffer has run dry.
fn consume(buf: &[u8], pos: &mut usize) -> (r: Result<u8, ProtocolError>)
    requires
        *old(pos) <= buf@.len(),
    ensures
        *old(pos) >= buf@.len() ==> r == Err::<u8, ProtocolError>(ProtocolError::Incomplete)
            && *final(pos) == *old(pos),
        *old(pos) < buf@.len() ==> r == Ok::<u8, ProtocolError>(buf@[*old(pos) as int])
            && *final(pos) == *old(pos) + 1,
{
    if *pos >= buf.len() {
        return Err(ProtocolError::Incomplete);
    }
    let byte = peek(buf, *pos);
    *pos = *pos + 1;
    Ok(byte)
}

/// Takes one byte and demands it be `expected_byte`.
fn expect(buf: &[u8], pos: &mut usize, expected_byte: u8) -> (r: Result<(), ProtocolError>)
    requires
        *old(pos) <= buf@.len(),
    ensures
        *old(pos) >= buf@.len() ==> r == Err::<(), ProtocolError>(ProtocolError::Incomplete)
            && *final(pos) == *old(pos),
        *old(pos) < buf@.len() ==> *final(pos) == *old(pos) + 1 && r == (
        if buf@[*old(pos) as int] == expected_byte {
            Ok::<(), ProtocolError>(())
        } else {
            Err::<(), ProtocolError>(
                ProtocolError::ExpectedByte {
                    expected: expected_byte,
                    got: buf@[*old(pos) as int],
                },
            )
        }),
{
    let byte = match consume(buf, pos) {
        Ok(b) => b,
        Err(e) => {
            return Err(e);
        }
    };
    if byte != expected_byte {
        return Err(ProtocolError::ExpectedByte { expected: expected_byte, got: byte });
    }
    Ok(())
}

/// Demands a CRLF pair at the cursor.
fn check_crlf(buf: &[u8], pos: &mut usize) -> (r: Result<(), ProtocolError>)
    requires
        *old(pos) <= buf@.len(),
    ensures
        *final(pos) <= buf@.len(),
        *old(pos) + 1 >= buf@.len() ==> r == Err::<(), ProtocolError>(ProtocolError::Incomplete)
            && *final(pos) == *old(pos),
        *old(pos) + 1 < buf@.len() ==> {
            if buf@[*old(pos) as int] != 13 {
                r == Err::<(), ProtocolError>(
                    ProtocolError::ExpectedByte { expected: 13, got: buf@[*old(pos) as int] },
                ) && *final(pos) == *old(pos) + 1
            } else if buf@[*old(pos) + 1] != 10 {
                r == Err::<(), ProtocolError>(
                    ProtocolError::ExpectedByte { expected: 10, got: buf@[*old(pos) + 1] },
                ) && *final(pos) == *old(pos) + 2
            } else {
                r == Ok::<(), ProtocolError>(()) && *final(pos) == *old(pos) + 2
            }
        },
{
    if *pos >= buf.len() || *pos + 1 >= buf.len() {
        return Err(ProtocolError::Incomplete);
    }
    match expect(buf, pos, 13) {
        Ok(()) => {}
        Err(e) => {
            return Err(e);
        }
    }
    match expect(buf, pos, 10) {
        Ok(()) => {}
        Err(e) => {
            return Err(e);
        }
    }
    Ok(())
}

/// After `byte` was consumed: when it is a CR, demand the LF and report the
/// terminator; otherwise report an ordinary byte.
fn check_crlf_peek(buf: &[u8], pos: &mut usize, byte: u8) -> (r: Result<bool, ProtocolError>)
    requires
        *old(pos) <= buf@.len(),
    ensures
        *final(pos) <= buf@.len(),
        byte != 13 ==> r == Ok::<bool, ProtocolError>(false) && *final(pos) == *old(pos),
        byte == 13 && *old(pos) >= buf@.len() ==> r == Err::<bool, ProtocolError>(
            ProtocolError::Incomplete,
        ) && *final(pos) == *old(pos),
        byte == 13 && *old(pos) < buf@.len() ==> *final(pos) == *old(pos) + 1 && r == (
        if buf@[*old(pos) as int] == 10 {
            Ok::<bool, ProtocolError>(true)
        } else {
            Err::<bool, ProtocolError>(
                ProtocolError::ExpectedByte { expected: 10, got: buf@[*old(pos) as int] },
            )
        }),
{
    if byte == 13 {
        if *pos >= buf.len() {
            return Err(ProtocolError::Incomplete);
        }
        match expect(buf, pos, 10) {
            Ok(()) => {
                return Ok(true);
            }
            Err(e) => {
                return Err(e);
            }
        }
    }
    Ok(false)
}

/// Reads a non-negative decimal number terminated by CRLF.
#[verifier::rlimit(100)]
#[verifier::spinoff_prover]
pub fn parse_number_to_usize(buf: &[u8], pos: &mut usize) -> (r: Result<usize, ProtocolError>)
    requires
        *old(pos) <= buf@.len(),
    ensures
        *final(pos) <= buf@.len(),
        match spec_number(buf@.skip(*old(pos) as int), 0) {
            NumR::Val(v, c) => r == Ok::<usize, ProtocolError>(v as usize)
                && v <= usize::MAX && *final(pos) == *old(pos) + c,
            NumR::Inc => r == Err::<usize, ProtocolError>(ProtocolError::Incomplete),
            NumR::Bad(e, c) => r == Err::<usize, ProtocolError>(e)
                && *final(pos) == *old(pos) + c,
        },
{
    let ghost s0 = buf@.skip(*old(pos) as int);
    let mut num: usize = 0;
    loop
        invariant
            *old(pos) <= *pos <= buf@.len(),
            s0 == buf@.skip(*old(pos) as int),
            num <= usize::MAX,
            match spec_number(buf@.skip(*pos as int), num as nat) {
                NumR::Val(v, c) => spec_number(s0, 0) == NumR::Val(
                    v,
                    (c + *pos - *old(pos)) as nat,
                ),
                NumR::Inc => spec_number(s0, 0) is Inc,
                NumR::Bad(e, c) => spec_number(s0, 0) == NumR::Bad(
                    e,
                    (c + *pos - *old(pos)) as nat,
                ),
            },
        decreases buf@.len() - *pos,
    {
        let ghost pos_iter = *pos;
        let ghost si = buf@.skip(*pos as int);
        let byte = match consume(buf, pos) {
            Ok(b) => b,
            Err(e) => {
                proof {
                    assert(si.len() == 0);
                }
                return Err(e);
            }
        };
        proof {
            assert(si[0] == byte);
            assert(buf@.skip(pos_iter + 1) =~= si.skip(1));
        }
        let crlf = match check_crlf_peek(buf, pos, byte) {
            Ok(b) => b,
            Err(e) => {
                proof {
                    if byte == 13 {
                        if si.len() == 1 {
                            assert(e == ProtocolError::Incomplete);
                        } else {
                            assert(si[1] == buf@[pos_iter + 1]);
                        }
                    }
                }
                return Err(e);
            }
        };
        if crlf {
            proof {
                assert(si.len() >= 2 && si[1] == 10);
            }
            return Ok(num);
        }
        if !(48 <= byte && byte <= 57) {
            return Err(ProtocolError::UnexpectedByte(byte));
        }
        let d: usize = (byte - 48) as usize;
        if num > (usize::MAX - d) / 10 {
            return Err(ProtocolError::UnexpectedByte(byte));
        }
        proof {
            vstd::arithmetic::div_mod::lemma_fundamental_div_mod(
                (usize::MAX - d) as int,
                10,
            );
        }
        num = num * 10 + d;
    }
}

/// Reads the array header `*<count>\r\n`, waiting for more input while the
/// buffer cannot yet hold `count` further elements.  On incomplete input
/// the cursor is restored to the start of the header.
pub fn parse_array_header(buf: &[u8], pos: &mut usize) -> (r: Result<usize, ProtocolError>)
    requires
        *old(pos) <= buf@.len(),
    ensures
        *final(pos) <= buf@.len(),
        match spec_header(buf@.skip(*old(pos) as int)) {
            NumR::Val(v, c) => r == Ok::<usize, ProtocolError>(v as usize)
                && v <= usize::MAX && *final(pos) == *old(pos) + c,
            NumR::Inc => r == Err::<usize, ProtocolError>(ProtocolError::Incomplete)
                && *final(pos) == *old(pos),
            NumR::Bad(e, c) => r == Err::<usize, ProtocolError>(e)
                && *final(pos) == *old(pos) + c,
        },
{
    let ghost s = buf@.skip(*old(pos) as int);
    let start: usize = *pos;
    match expect(buf, pos, 42) {
        Ok(()) => {}
        Err(e) => {
            if matches!(e, ProtocolError::Incomplete) {
                proof {
                    assert(s.len() == 0);
                }
            } else {
                proof {
                    assert(s[0] == buf@[start as int]);
                }
            }
            return Err(e);
        }
    }
    proof {
        assert(s.len() > 0 && s[0] == buf@[start as int]);
        assert(buf@.skip(start + 1) =~= s.skip(1));
        lemma_number_bound(s.skip(1), 0);
        lemma_number_no_inc_err(s.skip(1), 0);
    }
    let array_len = match parse_number_to_usize(buf, pos) {
        Ok(len) => len,
        Err(e) => {
            if matches!(e, ProtocolError::Incomplete) {
                *pos = start;
                return Err(ProtocolError::Incomplete);
            }
            return Err(e);
        }
    };
    if *pos as u128 + array_len as u128 + 2 > buf.len() as u128 {
        proof {
            assert(spec_header(s) is Inc);
        }
        *pos = start;
        return Err(ProtocolError::Incomplete);
    }
    Ok(array_len)
}

/// Reads one bulk string `$<len>\r\n<bytes>\r\n`, returning the payload as
/// a slice of the buffer.  On incomplete input the cursor is restored to
/// the `$`.
#[verifier::rlimit(100)]
#[verifier::spinoff_prover]
pub fn parse_bulk_string<'a>(buf: &'a [u8], pos: &mut usize) -> (r: Result<
    &'a [u8],
    ProtocolError,
>)
    requires
        *old(pos) <= buf@.len(),
    ensures
        *final(pos) <= buf@.len(),
        match spec_bulk(buf@.skip(*old(pos) as int)) {
            BulkR::Val(p, c) => r matches Ok(sl) && sl@ == p
                && *final(pos) == *old(pos) + c,
            BulkR::Inc => r == Err::<&'a [u8], ProtocolError>(ProtocolError::Incomplete)
                && *final(pos) == *old(pos),
            BulkR::Bad(e, c) => r == Err::<&'a [u8], ProtocolError>(e)
                && *final(pos) == *old(pos) + c,
        },
{
    let ghost s = buf@.skip(*old(pos) as int);
    let start: usize = *pos;
    match expect(buf, pos, 36) {
        Ok(()) => {}
        Err(e) => {
            if matches!(e, ProtocolError::Incomplete) {
                proof {
                    assert(s.len() == 0);
                }
            } else {
                proof {
                    assert(s[0] == buf@[start as int]);
                }
            }
            return Err(e);
        }
    }
    proof {
        assert(s.len() > 0 && s[0] == buf@[start as int]);
        assert(buf@.skip(start + 1) =~= s.skip(1));
        lemma_number_bound(s.skip(1), 0);
        lemma_number_no_inc_err(s.skip(1), 0);
    }
    let string_len = match parse_number_to_usize(buf, pos) {
        Ok(len) => len,
        Err(e) => {
            if matches!(e, ProtocolError::Incomplete) {
                *pos = start;
                return Err(ProtocolError::Incomplete);
            }
            return Err(e);
        }
    };
    if *pos as u128 + string_len as u128 + 2 > buf.len() as u128 {
        proof {
            assert(spec_bulk(s) is Inc);
        }
        *pos = start;
        return Err(ProtocolError::Incomplete);
    }
    let payload_start: usize = *pos;
    let slice = slice_subrange(buf, payload_start, payload_start + string_len);
    *pos = *pos + string_len;
    proof {
        assert(slice@ =~= s.subrange(
            payload_start - start,
            payload_start - start + string_len,
        ));
        assert(s[payload_start - start + string_len] == buf@[payload_start + string_len]);
        assert(s[payload_start - start + string_len + 1] == buf@[payload_start
            + string_len + 1]);
    }
    match check_crlf(buf, pos) {
        Ok(()) => {}
        Err(e) => {
            return Err(e);
        }
    }
    Ok(slice)
}


/// Appending a vector appends its view.
proof fn lemma_vecs_view_push(v: Seq<Vec<u8>>, x: Vec<u8>)
    ensures
        vecs_view(v.push(x)) == vecs_view(v).push(x@),
{
    assert forall|j: int| 0 <= j < v.len() + 1 implies #[trigger] vecs_view(v.push(x))[j]
        == vecs_view(v).push(x@)[j] by {
        if j < v.len() {
            assert(v.push(x)[j] == v[j]);
            assert(vecs_view(v)[j] == v[j]@);
        } else {
            assert(v.push(x)[j] == x);
        }
    }
    assert(vecs_view(v.push(x)) =~= vecs_view(v).push(x@));
}

/// Reads `amount_strings` bulk strings, appending each to the accumulated
/// arguments and counting it; stops at the first incomplete or malformed
/// element, leaving everything already read in place.
#[verifier::rlimit(100)]
#[verifier::spinoff_prover]
fn parse_arguments(
    buf: &[u8],
    pos: &mut usize,
    command_parse_state: &mut CommandParseState,
    amount_strings: usize,
) -> (r: Result<(), ProtocolError>)
    requires
        *old(pos) <= buf@.len(),
        old(command_parse_state).current_string + amount_strings <= usize::MAX,
    ensures
        *final(pos) <= buf@.len(),
        final(command_parse_state).command_name == old(command_parse_state).command_name,
        final(command_parse_state).expected_strings == old(
            command_parse_state,
        ).expected_strings,
        final(command_parse_state).state == old(command_parse_state).state,
        match spec_args(buf@.skip(*old(pos) as int), amount_strings as nat) {
            ArgsR::Val(args2, c) => r == Ok::<(), ProtocolError>(())
                && vecs_view(final(command_parse_state).args@)
                    == vecs_view(old(command_parse_state).args@) + args2
                && final(command_parse_state).args@.len()
                    == old(command_parse_state).args@.len() + args2.len()
                && args2.len() == amount_strings
                && final(command_parse_state).current_string
                    == old(command_parse_state).current_string + amount_strings
                && *final(pos) == *old(pos) + c,
            ArgsR::Inc(part, c) => r == Err::<(), ProtocolError>(ProtocolError::Incomplete)
                && vecs_view(final(command_parse_state).args@)
                    == vecs_view(old(command_parse_state).args@) + part
                && final(command_parse_state).args@.len()
                    == old(command_parse_state).args@.len() + part.len()
                && final(command_parse_state).current_string
                    == old(command_parse_state).current_string + part.len()
                && part.len() < amount_strings
                && *final(pos) == *old(pos) + c,
            ArgsR::Bad(e, c) => r == Err::<(), ProtocolError>(e)
                && *final(pos) == *old(pos) + c,
        },
{
    let ghost s0 = buf@.skip(*old(pos) as int);
    let ghost args0 = old(command_parse_state).args@;
    let ghost mut done: Seq<Seq<u8>> = Seq::empty();
    let mut i: usize = 0;
    proof {
        assert(vecs_view(args0) + done =~= vecs_view(args0));
    }
    while i < amount_strings
        invariant
            *old(pos) <= *pos <= buf@.len(),
            i <= amount_strings,
            s0 == buf@.skip(*old(pos) as int),
            args0 == old(command_parse_state).args@,
            old(command_parse_state).current_string + amount_strings <= usize::MAX,
            command_parse_state.command_name == old(command_parse_state).command_name,
            command_parse_state.expected_strings == old(
                command_parse_state,
            ).expected_strings,
            command_parse_state.state == old(command_parse_state).state,
            command_parse_state.current_string == old(command_parse_state).current_string
                + i,
            done.len() == i,
            command_parse_state.args@.len() == args0.len() + i,
            vecs_view(command_parse_state.args@) == vecs_view(args0) + done,
            match spec_args(buf@.skip(*pos as int), (amount_strings - i) as nat) {
                ArgsR::Val(a2, c) => spec_args(s0, amount_strings as nat) == ArgsR::Val(
                    done + a2,
                    (c + *pos - *old(pos)) as nat,
                ),
                ArgsR::Inc(p2, c) => spec_args(s0, amount_strings as nat) == ArgsR::Inc(
                    done + p2,
                    (c + *pos - *old(pos)) as nat,
                ),
                ArgsR::Bad(e, c) => spec_args(s0, amount_strings as nat) == ArgsR::Bad(
                    e,
                    (c + *pos - *old(pos)) as nat,
                ),
            },
        decreases amount_strings - i,
    {
        let ghost pos_i = *pos;
        let ghost si = buf@.skip(*pos as int);
        let ghost ki = (amount_strings - i) as nat;
        let argument = match parse_bulk_string(buf, pos) {
            Ok(a) => a,
            Err(e) => {
                proof {
                    if spec_bulk(si) is Inc {
                        assert(spec_args(si, ki) == ArgsR::Inc(Seq::<Seq<u8>>::empty(), 0));
                        assert(done + Seq::<Seq<u8>>::empty() =~= done);
                    }
                }
                return Err(e);
            }
        };
        let ghost p = spec_bulk(si)->Val_0;
        let ghost cb = spec_bulk(si)->Val_1;
        proof {
            assert(buf@.skip(*pos as int) =~= si.skip(cb as int));
        }
        let ghost prev = command_parse_state.args@;
        command_parse_state.current_string = command_parse_state.current_string + 1;
        let arg_vec = slice_to_vec(argument);
        let ghost avg = arg_vec;
        command_parse_state.args.push(arg_vec);
        proof {
            let olddone = done;
            done = done.push(p);
            lemma_vecs_view_push(prev, avg);
            assert(avg@ == p);
            assert((vecs_view(args0) + olddone).push(p) =~= vecs_view(args0) + done);
            let rest = spec_args(si.skip(cb as int), (ki - 1) as nat);
            if rest is Val {
                assert(spec_args(si, ki) == ArgsR::Val(
                    seq![p] + rest->Val_0,
                    (cb + rest->Val_1) as nat,
                ));
                assert(olddone + (seq![p] + rest->Val_0) =~= done + rest->Val_0);
            } else if rest is Inc {
                assert(spec_args(si, ki) == ArgsR::Inc(
                    seq![p] + rest->Inc_0,
                    (cb + rest->Inc_1) as nat,
                ));
                assert(olddone + (seq![p] + rest->Inc_0) =~= done + rest->Inc_0);
            } else {
                assert(spec_args(si, ki) == ArgsR::Bad(
                    rest->Bad_0,
                    (cb + rest->Bad_1) as nat,
                ));
            }
        }
        i = i + 1;
    }
    proof {
        assert(spec_args(buf@.skip(*pos as int), 0) == ArgsR::Val(Seq::<Seq<u8>>::empty(), 0));
        assert(done + Seq::<Seq<u8>>::empty() =~= done);
    }
    Ok(())
}

/// Parses one whole command from scratch, filling the parse state.  Returns
/// `Incomplete` with the cursor at the next element boundary when more bytes
/// are needed, and any other error with the cursor just past the offending
/// byte.
#[verifier::rlimit(100)]
#[verifier::spinoff_prover]
pub fn parse_command(
    buf: &[u8],
    pos: &mut usize,
    command_parse_state: &mut CommandParseState,
) -> (r: Result<(), ProtocolError>)
    requires
        *old(pos) <= buf@.len(),
        cps_wf(old(command_parse_state)),
        old(command_parse_state).state == ParseState::Empty,
    ensures
        *final(pos) <= buf@.len(),
        match spec_command(buf@.skip(*old(pos) as int)) {
            CmdR::Done(nm, args, c) => r == Ok::<(), ProtocolError>(())
                && *final(pos) == *old(pos) + c
                && cps_complete_matches(final(command_parse_state), nm, args),
            CmdR::Inc(st, c) => r == Err::<(), ProtocolError>(ProtocolError::Incomplete)
                && *final(pos) == *old(pos) + c
                && cps_matches(final(command_parse_state), st),
            CmdR::Bad(e, c) => r == Err::<(), ProtocolError>(e)
                && e != ProtocolError::Incomplete
                && *final(pos) == *old(pos) + c,
        },
{
    let ghost s = buf@.skip(*old(pos) as int);
    proof {
        if s.len() > 0 {
            lemma_number_no_inc_err(s.skip(1), 0);
        }
    }
    let amount_strings = match parse_array_header(buf, pos) {
        Ok(n) => n,
        Err(e) => {
            return Err(e);
        }
    };
    if amount_strings == 0 {
        return Err(ProtocolError::UnexpectedByte(42));
    }
    command_parse_state.expected_strings = amount_strings;
    command_parse_state.state = ParseState::Partial;
    let ghost s2 = buf@.skip(*pos as int);
    proof {
        assert(s2 =~= s.skip(*pos - *old(pos)));
        lemma_bulk_no_inc_err(s2);
    }
    let command = match parse_bulk_string(buf, pos) {
        Ok(c) => c,
        Err(e) => {
            proof {
                assert(vecs_view(command_parse_state.args@) =~= Seq::<Seq<u8>>::empty());
            }
            return Err(e);
        }
    };
    command_parse_state.current_string = 1;
    command_parse_state.command_name = Some(slice_to_vec(command));
    let ghost s3 = buf@.skip(*pos as int);
    proof {
        assert(s3 =~= s.skip(*pos - *old(pos)));
        lemma_args_no_inc_err(s3, (amount_strings - 1) as nat);
        assert(vecs_view(command_parse_state.args@) =~= Seq::<Seq<u8>>::empty());
        let ar = spec_args(s3, (amount_strings - 1) as nat);
        if ar is Val {
            assert(Seq::<Seq<u8>>::empty() + ar->Val_0 =~= ar->Val_0);
        }
        if ar is Inc {
            assert(Seq::<Seq<u8>>::empty() + ar->Inc_0 =~= ar->Inc_0);
        }
    }
    match parse_arguments(buf, pos, command_parse_state, amount_strings - 1) {
        Ok(()) => {
            command_parse_state.state = ParseState::Complete;
            Ok(())
        }
        Err(e) => Err(e),
    }
}

/// Resumes a partially assembled command after more bytes arrived: parses
/// the name if it is still missing, then the outstanding arguments.
#[verifier::rlimit(100)]
#[verifier::spinoff_prover]
pub fn parse_partial_command(
    buf: &[u8],
    pos: &mut usize,
    command_parse_state: &mut CommandParseState,
) -> (r: Result<(), ProtocolError>)
    requires
        *old(pos) <= buf@.len(),
        cps_wf(old(command_parse_state)),
        old(command_parse_state).state == ParseState::Partial,
    ensures
        *final(pos) <= buf@.len(),
        match spec_resume(
            old(command_parse_state).expected_strings as nat,
            opt_view(old(command_parse_state).command_name),
            vecs_view(old(command_parse_state).args@),
            old(command_parse_state).current_string as nat,
            buf@.skip(*old(pos) as int),
        ) {
            CmdR::Done(nm, args, c) => r == Ok::<(), ProtocolError>(())
                && *final(pos) == *old(pos) + c
                && cps_complete_matches(final(command_parse_state), nm, args),
            CmdR::Inc(st, c) => r == Err::<(), ProtocolError>(ProtocolError::Incomplete)
                && *final(pos) == *old(pos) + c
                && cps_matches(final(command_parse_state), st),
            CmdR::Bad(e, c) => r == Err::<(), ProtocolError>(e)
                && e != ProtocolError::Incomplete
                && *final(pos) == *old(pos) + c,
        },
{
    let ghost s = buf@.skip(*old(pos) as int);
    if command_parse_state.command_name.is_none() {
        proof {
            lemma_bulk_no_inc_err(s);
        }
        let command = match parse_bulk_string(buf, pos) {
            Ok(c) => c,
            Err(e) => {
                return Err(e);
            }
        };
        command_parse_state.command_name = Some(slice_to_vec(command));
        command_parse_state.current_string = command_parse_state.current_string + 1;
        let ghost s3 = buf@.skip(*pos as int);
        proof {
            assert(s3 =~= s.skip(*pos - *old(pos)));
            lemma_args_no_inc_err(
                s3,
                (command_parse_state.expected_strings - 1) as nat,
            );
            assert(vecs_view(command_parse_state.args@) =~= Seq::<Seq<u8>>::empty());
            let ar = spec_args(s3, (command_parse_state.expected_strings - 1) as nat);
            if ar is Val {
                assert(Seq::<Seq<u8>>::empty() + ar->Val_0 =~= ar->Val_0);
            }
            if ar is Inc {
                assert(Seq::<Seq<u8>>::empty() + ar->Inc_0 =~= ar->Inc_0);
            }
        }
        let amount_strings = command_parse_state.expected_strings
            - command_parse_state.current_string;
        match parse_arguments(buf, pos, command_parse_state, amount_strings) {
            Ok(()) => {
                command_parse_state.state = ParseState::Complete;
                Ok(())
            }
            Err(e) => Err(e),
        }
    } else {
        proof {
            lemma_args_no_inc_err(
                s,
                (old(command_parse_state).expected_strings
                    - old(command_parse_state).current_string) as nat,
            );
        }
        let amount_strings = command_parse_state.expected_strings
            - command_parse_state.current_string;
        match parse_arguments(buf, pos, command_parse_state, amount_strings) {
            Ok(()) => {
                command_parse_state.state = ParseState::Complete;
                Ok(())
            }
            Err(e) => Err(e),
        }
    }
}


/// ASCII uppercase of one byte.
pub open spec fn upper(b: u8) -> u8 {
    if 97 <= b <= 122 {
        (b - 32) as u8
    } else {
        b
    }
}

/// A command-name dispatch failure, at the spec level.
pub enum ConvertErr {
    Unknown(Seq<u8>),
    Arity(Seq<u8>),
}

/// The reply bytes a dispatch failure earns.
pub open spec fn conv_err_msg(e: ConvertErr) -> Seq<u8> {
    match e {
        ConvertErr::Unknown(n) => crate::error::command_error_msg_unknown(n),
        ConvertErr::Arity(n) => crate::error::command_error_msg_arity(n),
    }
}

/// Dispatch: commands are matched on the uppercased first three bytes of
/// the name; the argument count must fit the command's arity (DEL takes
/// one or more keys).
pub open spec fn spec_convert(name: Seq<u8>, args: Seq<Seq<u8>>) -> Result<
    crate::commands::CommandSpec,
    ConvertErr,
> {
    if name.len() < 3 {
        Err(ConvertErr::Unknown(name))
    } else {
        let p0 = upper(name[0]);
        let p1 = upper(name[1]);
        let p2 = upper(name[2]);
        if p0 == 83 && p1 == 69 && p2 == 84 {
            if args.len() == 2 {
                Ok(crate::commands::CommandSpec::SetCmd { key: args[0], value: args[1] })
            } else {
                Err(ConvertErr::Arity(name))
            }
        } else if p0 == 71 && p1 == 69 && p2 == 84 {
            if args.len() == 1 {
                Ok(crate::commands::CommandSpec::Get { key: args[0] })
            } else {
                Err(ConvertErr::Arity(name))
            }
        } else if p0 == 68 && p1 == 69 && p2 == 76 {
            if args.len() >= 1 {
                Ok(crate::commands::CommandSpec::Del { keys: args })
            } else {
                Err(ConvertErr::Arity(name))
            }
        } else if p0 == 76 && p1 == 80 && p2 == 85 {
            if args.len() == 2 {
                Ok(crate::commands::CommandSpec::LPush { key: args[0], value: args[1] })
            } else {
                Err(ConvertErr::Arity(name))
            }
        } else if p0 == 82 && p1 == 80 && p2 == 85 {
            if args.len() == 2 {
                Ok(crate::commands::CommandSpec::RPush { key: args[0], value: args[1] })
            } else {
                Err(ConvertErr::Arity(name))
            }
        } else if p0 == 76 && p1 == 80 && p2 == 79 {
            if args.len() == 1 {
                Ok(crate::commands::CommandSpec::LPop { key: args[0] })
            } else {
                Err(ConvertErr::Arity(name))
            }
        } else if p0 == 82 && p1 == 80 && p2 == 79 {
            if args.len() == 1 {
                Ok(crate::commands::CommandSpec::RPop { key: args[0] })
            } else {
                Err(ConvertErr::Arity(name))
            }
        } else {
            Err(ConvertErr::Unknown(name))
        }
    }
}

/// Copies a run of byte vectors.
fn copy_args(v: &Vec<Vec<u8>>) -> (r: Vec<Vec<u8>>)
    ensures
        vecs_view(r@) == vecs_view(v@),
{
    let mut out: Vec<Vec<u8>> = Vec::new();
    let mut i: usize = 0;
    while i < v.len()
        invariant
            i <= v@.len(),
            out@.len() == i,
            forall|j: int| 0 <= j < i ==> (#[trigger] out@[j])@ == v@[j]@,
        decreases v@.len() - i,
    {
        out.push(slice_to_vec(v[i].as_slice()));
        i = i + 1;
    }
    proof {
        assert forall|j: int| 0 <= j < v@.len() implies #[trigger] vecs_view(out@)[j]
            == vecs_view(v@)[j] by {
            assert(out@[j]@ == v@[j]@);
        }
        assert(vecs_view(out@) =~= vecs_view(v@));
    }
    out
}

/// Turns a completed parse into a runnable command, or the error reply its
/// name or arity earns.
#[verifier::rlimit(100)]
#[verifier::spinoff_prover]
pub fn convert_command_parse_state_to_redis_command(
    command_parse_state: &CommandParseState,
) -> (r: Result<RedisCommand, CommandError>)
    requires
        cps_wf(command_parse_state),
        command_parse_state.state == ParseState::Complete,
    ensures
        match spec_convert(
            opt_view(command_parse_state.command_name)->Some_0,
            vecs_view(command_parse_state.args@),
        ) {
            Ok(cs) => r matches Ok(cmd) && cmd@ == cs,
            Err(es) => r matches Err(ce) && crate::error::command_error_msg(ce)
                == conv_err_msg(es),
        },
{
    let name: &Vec<u8> = match &command_parse_state.command_name {
        Some(n) => n,
        None => {
            proof {
                assert(false);
            }
            return Err(CommandError::WrongType);
        }
    };
    let args = &command_parse_state.args;
    if name.len() < 3 {
        return Err(CommandError::UnknownCommand { cmd: slice_to_vec(name.as_slice()) });
    }
    let p0 = upper_byte(name[0]);
    let p1 = upper_byte(name[1]);
    let p2 = upper_byte(name[2]);
    if p0 == 83 && p1 == 69 && p2 == 84 {
        if args.len() == 2 {
            Ok(RedisCommand::SetCmd {
                key: slice_to_vec(args[0].as_slice()),
                value: slice_to_vec(args[1].as_slice()),
            })
        } else {
            Err(CommandError::WrongNumberOfArguments { cmd: slice_to_vec(name.as_slice()) })
        }
    } else if p0 == 71 && p1 == 69 && p2 == 84 {
        if args.len() == 1 {
            Ok(RedisCommand::Get { key: slice_to_vec(args[0].as_slice()) })
        } else {
            Err(CommandError::WrongNumberOfArguments { cmd: slice_to_vec(name.as_slice()) })
        }
    } else if p0 == 68 && p1 == 69 && p2 == 76 {
        if args.len() >= 1 {
            let keys = copy_args(args);
            proof {
                assert(Seq::new(keys@.len(), |i: int| keys@[i]@) =~= vecs_view(
                    command_parse_state.args@,
                ));
            }
            Ok(RedisCommand::Del { keys })
        } else {
            Err(CommandError::WrongNumberOfArguments { cmd: slice_to_vec(name.as_slice()) })
        }
    } else if p0 == 76 && p1 == 80 && p2 == 85 {
        if args.len() == 2 {
            Ok(RedisCommand::LPush {
                key: slice_to_vec(args[0].as_slice()),
                value: slice_to_vec(args[1].as_slice()),
            })
        } else {
            Err(CommandError::WrongNumberOfArguments { cmd: slice_to_vec(name.as_slice()) })
        }
    } else if p0 == 82 && p1 == 80 && p2 == 85 {
        if args.len() == 2 {
            Ok(RedisCommand::RPush {
                key: slice_to_vec(args[0].as_slice()),
                value: slice_to_vec(args[1].as_slice()),
            })
        } else {
            Err(CommandError::WrongNumberOfArguments { cmd: slice_to_vec(name.as_slice()) })
        }
    } else if p0 == 76 && p1 == 80 && p2 == 79 {
        if args.len() == 1 {
            Ok(RedisCommand::LPop { key: slice_to_vec(args[0].as_slice()) })
        } else {
            Err(CommandError::WrongNumberOfArguments { cmd: slice_to_vec(name.as_slice()) })
        }
    } else if p0 == 82 && p1 == 80 && p2 == 79 {
        if args.len() == 1 {
            Ok(RedisCommand::RPop { key: slice_to_vec(args[0].as_slice()) })
        } else {
            Err(CommandError::WrongNumberOfArguments { cmd: slice_to_vec(name.as_slice()) })
        }
    } else {
        Err(CommandError::UnknownCommand { cmd: slice_to_vec(name.as_slice()) })
    }
}

/// ASCII uppercase of one byte.
fn upper_byte(b: u8) -> (r: u8)
    ensures
        r == upper(b),
{
    if 97 <= b && b <= 122 {
        b - 32
    } else {
        b
    }
}


/// How much each decoder can consume: a decided parse consumed at least one
/// byte and never more than the buffer holds.
pub proof fn lemma_number_consumed(s: Seq<u8>, acc: nat)
    ensures
        spec_number(s, acc) matches NumR::Val(v, c) ==> 2 <= c <= s.len(),
        spec_number(s, acc) matches NumR::Bad(e, c) ==> 1 <= c <= s.len(),
    decreases s.len(),
{
    if s.len() > 0 {
        let b = s[0];
        if b != 13 && is_digit_byte(b) && !(acc > (usize::MAX - (b - 48)) / 10) {
            lemma_number_consumed(s.skip(1), (acc * 10 + (b - 48)) as nat);
        }
    }
}

pub proof fn lemma_bulk_consumed(s: Seq<u8>)
    ensures
        spec_bulk(s) matches BulkR::Val(p, c) ==> 1 <= c <= s.len(),
        spec_bulk(s) matches BulkR::Bad(e, c) ==> 1 <= c <= s.len(),
{
    if s.len() > 0 && s[0] == 36 {
        lemma_number_consumed(s.skip(1), 0);
    }
}

pub proof fn lemma_header_consumed(s: Seq<u8>)
    ensures
        spec_header(s) matches NumR::Val(v, c) ==> 1 <= c <= s.len(),
        spec_header(s) matches NumR::Bad(e, c) ==> 1 <= c <= s.len(),
{
    if s.len() > 0 && s[0] == 42 {
        lemma_number_consumed(s.skip(1), 0);
    }
}

pub proof fn lemma_args_consumed(s: Seq<u8>, need: nat)
    ensures
        spec_args(s, need) matches ArgsR::Val(a, c) ==> c <= s.len() && (need >= 1 ==> c
            >= 1),
        spec_args(s, need) matches ArgsR::Inc(a, c) ==> c <= s.len(),
        spec_args(s, need) matches ArgsR::Bad(e, c) ==> 1 <= c <= s.len(),
    decreases need,
{
    if need > 0 {
        lemma_bulk_consumed(s);
        if spec_bulk(s) is Val {
            lemma_args_consumed(
                s.skip(spec_bulk(s)->Val_1 as int),
                (need - 1) as nat,
            );
        }
    }
}

pub proof fn lemma_command_consumed(s: Seq<u8>)
    ensures
        spec_command(s) matches CmdR::Done(n, a, c) ==> 1 <= c <= s.len(),
        spec_command(s) matches CmdR::Inc(st, c) ==> c <= s.len(),
        spec_command(s) matches CmdR::Bad(e, c) ==> 1 <= c <= s.len(),
{
    lemma_header_consumed(s);
    match spec_header(s) {
        NumR::Val(cnt, c) => {
            if cnt > 0 {
                lemma_bulk_consumed(s.skip(c as int));
                match spec_bulk(s.skip(c as int)) {
                    BulkR::Val(nm, c2) => {
                        lemma_args_consumed(
                            s.skip(c as int).skip(c2 as int),
                            (cnt - 1) as nat,
                        );
                        assert(s.skip(c as int).skip(c2 as int) =~= s.skip((c + c2) as int));
                    }
                    _ => {}
                }
            }
        }
        _ => {}
    }
}

pub proof fn lemma_resume_consumed(
    expected: nat,
    name: Option<Seq<u8>>,
    args0: Seq<Seq<u8>>,
    current: nat,
    s: Seq<u8>,
)
    requires
        name is Some ==> current < expected,
        name is None ==> expected >= 1,
    ensures
        spec_resume(expected, name, args0, current, s) matches CmdR::Done(n, a, c) ==> 1 <= c
            <= s.len(),
        spec_resume(expected, name, args0, current, s) matches CmdR::Inc(st, c) ==> c
            <= s.len(),
        spec_resume(expected, name, args0, current, s) matches CmdR::Bad(e, c) ==> 1 <= c
            <= s.len(),
{
    match name {
        Option::None => {
            lemma_bulk_consumed(s);
            match spec_bulk(s) {
                BulkR::Val(nm, c) => {
                    lemma_args_consumed(s.skip(c as int), (expected - 1) as nat);
                }
                _ => {}
            }
        }
        Option::Some(_) => {
            lemma_args_consumed(s, (expected - current) as nat);
        }
    }
}


/// Parsing continued from a parked state: a fresh parse when nothing is
/// parked, a resumption otherwise.
pub open spec fn spec_continue(st: StateSpec, s: Seq<u8>) -> CmdR {
    match st {
        StateSpec::EmptyS => spec_command(s),
        StateSpec::PartialS { expected, name, args, current } => spec_resume(
            expected,
            name,
            args,
            current,
            s,
        ),
    }
}

/// A parked state is internally consistent.
pub open spec fn state_wf(st: StateSpec) -> bool {
    match st {
        StateSpec::EmptyS => true,
        StateSpec::PartialS { expected, name, args, current } => match name {
            Option::None => current == 0 && args.len() == 0 && expected >= 1,
            Option::Some(_) => current == 1 + args.len() && current < expected,
        },
    }
}

/// The same verdict, with `c` more bytes accounted as consumed.
pub open spec fn add_consumed(r: CmdR, c: nat) -> CmdR {
    match r {
        CmdR::Done(nm, args, c2) => CmdR::Done(nm, args, (c + c2) as nat),
        CmdR::Inc(st, c2) => CmdR::Inc(st, (c + c2) as nat),
        CmdR::Bad(e, c2) => CmdR::Bad(e, (c + c2) as nat),
    }
}

/// A decided number parse is stable under appending more input.
pub proof fn lemma_number_extends(s: Seq<u8>, ext: Seq<u8>, acc: nat)
    ensures
        !(spec_number(s, acc) is Inc) ==> spec_number(s + ext, acc) == spec_number(s, acc),
    decreases s.len(),
{
    if s.len() > 0 && !(spec_number(s, acc) is Inc) {
        assert((s + ext)[0] == s[0]);
        let b = s[0];
        if b == 13 {
            assert(s.len() >= 2);
            assert((s + ext)[1] == s[1]);
        } else if is_digit_byte(b) && !(acc > (usize::MAX - (b - 48)) / 10) {
            assert((s + ext).skip(1) =~= s.skip(1) + ext);
            lemma_number_extends(s.skip(1), ext, (acc * 10 + (b - 48)) as nat);
        }
    }
}

/// A decided bulk-string parse is stable under appending more input.
pub proof fn lemma_bulk_extends(s: Seq<u8>, ext: Seq<u8>)
    ensures
        !(spec_bulk(s) is Inc) ==> spec_bulk(s + ext) == spec_bulk(s),
{
    if s.len() > 0 && !(spec_bulk(s) is Inc) {
        assert((s + ext)[0] == s[0]);
        if s[0] == 36 {
            assert((s + ext).skip(1) =~= s.skip(1) + ext);
            lemma_number_extends(s.skip(1), ext, 0);
            lemma_number_consumed(s.skip(1), 0);
            match spec_number(s.skip(1), 0) {
                NumR::Val(n, c) => {
                    assert(1 + c + n + 2 <= s.len());
                    let start = (1 + c) as int;
                    assert((s + ext)[start + n] == s[start + n]);
                    assert((s + ext)[start + n + 1] == s[start + n + 1]);
                    assert((s + ext).subrange(start, start + n) =~= s.subrange(start, start + n));
                }
                _ => {}
            }
        }
    }
}

/// A decided header parse is stable under appending more input.
pub proof fn lemma_header_extends(s: Seq<u8>, ext: Seq<u8>)
    ensures
        !(spec_header(s) is Inc) ==> spec_header(s + ext) == spec_header(s),
{
    if s.len() > 0 && !(spec_header(s) is Inc) {
        assert((s + ext)[0] == s[0]);
        if s[0] == 42 {
            assert((s + ext).skip(1) =~= s.skip(1) + ext);
            lemma_number_extends(s.skip(1), ext, 0);
        }
    }
}

/// A decided argument-run parse is stable under appending more input.
pub proof fn lemma_args_extends(s: Seq<u8>, ext: Seq<u8>, need: nat)
    ensures
        !(spec_args(s, need) is Inc) ==> spec_args(s + ext, need) == spec_args(s, need),
    decreases need,
{
    if need > 0 && !(spec_args(s, need) is Inc) {
        lemma_bulk_extends(s, ext);
        lemma_bulk_consumed(s);
        match spec_bulk(s) {
            BulkR::Val(p, c) => {
                assert((s + ext).skip(c as int) =~= s.skip(c as int) + ext);
                lemma_args_extends(s.skip(c as int), ext, (need - 1) as nat);
            }
            _ => {}
        }
    }
}

/// An incomplete argument run, resumed once more bytes arrive, decides like
/// parsing the run against the whole buffer: the already-decoded arguments
/// stand in front, the already-consumed bytes count.
pub proof fn lemma_args_resume(s: Seq<u8>, ext: Seq<u8>, need: nat)
    ensures
        spec_args(s, need) matches ArgsR::Inc(part, cp) ==> part.len() < need
            && spec_args(s + ext, need) == (match spec_args(
            (s + ext).skip(cp as int),
            (need - part.len()) as nat,
        ) {
            ArgsR::Val(rest, c2) => ArgsR::Val(part + rest, (cp + c2) as nat),
            ArgsR::Inc(p2, c2) => ArgsR::Inc(part + p2, (cp + c2) as nat),
            ArgsR::Bad(e, c2) => ArgsR::Bad(e, (cp + c2) as nat),
        }),
    decreases need,
{
    if need > 0 && spec_args(s, need) is Inc {
        lemma_bulk_consumed(s);
        lemma_bulk_extends(s, ext);
        match spec_bulk(s) {
            BulkR::Inc => {
                // nothing was consumed: resuming is just reparsing the run
                assert((s + ext).skip(0) =~= s + ext);
                match spec_args(s + ext, need) {
                    ArgsR::Val(rest, c2) => {
                        assert(Seq::<Seq<u8>>::empty() + rest =~= rest);
                    }
                    ArgsR::Inc(p2, c2) => {
                        assert(Seq::<Seq<u8>>::empty() + p2 =~= p2);
                    }
                    ArgsR::Bad(e, c2) => {}
                }
            }
            BulkR::Val(p, c) => {
                assert((s + ext).skip(c as int) =~= s.skip(c as int) + ext);
                lemma_args_resume(s.skip(c as int), ext, (need - 1) as nat);
                let part1 = spec_args(s.skip(c as int), (need - 1) as nat)->Inc_0;
                let cp1 = spec_args(s.skip(c as int), (need - 1) as nat)->Inc_1;
                lemma_args_consumed(s.skip(c as int), (need - 1) as nat);
                assert((s + ext).skip((c + cp1) as int)
                    =~= (s.skip(c as int) + ext).skip(cp1 as int));
                match spec_args(
                    (s + ext).skip((c + cp1) as int),
                    (need - 1 - part1.len()) as nat,
                ) {
                    ArgsR::Val(rest, c2) => {
                        assert((seq![p] + part1) + rest =~= seq![p] + (part1 + rest));
                    }
                    ArgsR::Inc(p2, c2) => {
                        assert((seq![p] + part1) + p2 =~= seq![p] + (part1 + p2));
                    }
                    ArgsR::Bad(e, c2) => {}
                }
            }
            BulkR::Bad(e, c) => {
                assert(false);
            }
        }
    }
}

/// Parser resumability: for any partition of a buffer into chunks, feeding
/// them in order decides exactly as parsing the whole buffer at once.  A
/// decided parse is stable under more input; an incomplete parse, continued
/// from its parked state on the remaining bytes, yields the whole-buffer
/// verdict with the already-consumed bytes accounted for.
pub proof fn lemma_parser_resumability(st: StateSpec, s: Seq<u8>, ext: Seq<u8>)
    requires
        state_wf(st),
    ensures
        !(spec_continue(st, s) is Inc) ==> spec_continue(st, s + ext) == spec_continue(st, s),
        spec_continue(st, s) matches CmdR::Inc(st2, c) ==> spec_continue(st, s + ext)
            == add_consumed(spec_continue(st2, (s + ext).skip(c as int)), c),
{
    match st {
        StateSpec::EmptyS => {
            lemma_command_resumability(s, ext);
        }
        StateSpec::PartialS { expected, name, args, current } => {
            lemma_resume_resumability(expected, name, args, current, s, ext);
        }
    }
}

proof fn lemma_add_zero(r: CmdR)
    ensures
        add_consumed(r, 0) == r,
{
    match r {
        CmdR::Done(nm, a, c2) => {}
        CmdR::Inc(st, c2) => {}
        CmdR::Bad(e, c2) => {}
    }
}

#[verifier::rlimit(100)]
#[verifier::spinoff_prover]
proof fn lemma_command_resumability(s: Seq<u8>, ext: Seq<u8>)
    ensures
        !(spec_command(s) is Inc) ==> spec_command(s + ext) == spec_command(s),
        spec_command(s) matches CmdR::Inc(st2, c) ==> spec_command(s + ext)
            == add_consumed(spec_continue(st2, (s + ext).skip(c as int)), c),
{
    lemma_header_extends(s, ext);
    lemma_header_consumed(s);
    match spec_header(s) {
        NumR::Inc => {
            // nothing was consumed: resuming from the empty state is exactly
            // reparsing the grown buffer
            assert(spec_command(s) == CmdR::Inc(StateSpec::EmptyS, 0));
            assert((s + ext).skip(0) =~= s + ext);
            lemma_add_zero(spec_command(s + ext));
            assert(spec_continue(StateSpec::EmptyS, (s + ext).skip(0))
                == spec_command(s + ext));
        }
        NumR::Bad(e, c) => {}
        NumR::Val(cnt, c) => {
            if cnt > 0 {
                let s2 = s.skip(c as int);
                assert((s + ext).skip(c as int) =~= s2 + ext);
                lemma_bulk_extends(s2, ext);
                lemma_bulk_consumed(s2);
                match spec_bulk(s2) {
                    BulkR::Inc => {
                        // parked before the name: resuming parses name then
                        // arguments, exactly the whole-buffer continuation
                        let st2 = StateSpec::PartialS {
                            expected: cnt,
                            name: None,
                            args: Seq::<Seq<u8>>::empty(),
                            current: 0,
                        };
                        assert(spec_command(s) == CmdR::Inc(st2, c));
                        lemma_resume_shape(cnt, (s2 + ext));
                        lemma_bulk_consumed(s2 + ext);
                        match spec_bulk(s2 + ext) {
                            BulkR::Inc => {
                                assert(spec_command(s + ext) == CmdR::Inc(st2, c));
                                assert(spec_resume(
                                    cnt,
                                    None,
                                    Seq::<Seq<u8>>::empty(),
                                    0,
                                    s2 + ext,
                                ) == CmdR::Inc(st2, 0));
                            }
                            BulkR::Bad(e2, c2x) => {
                                assert(spec_command(s + ext) == CmdR::Bad(e2, (c + c2x) as nat));
                            }
                            BulkR::Val(nm2, c2x) => {
                                assert((s + ext).skip((c + c2x) as int)
                                    =~= (s2 + ext).skip(c2x as int));
                                match spec_args(
                                    (s2 + ext).skip(c2x as int),
                                    (cnt - 1) as nat,
                                ) {
                                    ArgsR::Val(a2, c3x) => {}
                                    ArgsR::Inc(p2, c3x) => {}
                                    ArgsR::Bad(e2, c3x) => {}
                                }
                            }
                        }
                    }
                    BulkR::Bad(e, c2) => {}
                    BulkR::Val(nm, c2) => {
                        let s3 = s2.skip(c2 as int);
                        assert(s3 =~= s.skip((c + c2) as int));
                        assert((s2 + ext).skip(c2 as int) =~= s3 + ext);
                        assert((s + ext).skip((c + c2) as int) =~= s3 + ext);
                        lemma_args_extends(s3, ext, (cnt - 1) as nat);
                        lemma_args_consumed(s3, (cnt - 1) as nat);
                        match spec_args(s3, (cnt - 1) as nat) {
                            ArgsR::Val(a, c3) => {}
                            ArgsR::Bad(e, c3) => {}
                            ArgsR::Inc(part, cp) => {
                                lemma_args_resume(s3, ext, (cnt - 1) as nat);
                                assert((s + ext).skip((c + c2 + cp) as int)
                                    =~= (s3 + ext).skip(cp as int));
                                let st2 = StateSpec::PartialS {
                                    expected: cnt,
                                    name: Some(nm),
                                    args: part,
                                    current: (1 + part.len()) as nat,
                                };
                                assert(spec_command(s) == CmdR::Inc(st2, (c + c2 + cp) as nat));
                                match spec_args(
                                    (s3 + ext).skip(cp as int),
                                    (cnt - 1 - part.len()) as nat,
                                ) {
                                    ArgsR::Val(rest, c2r) => {
                                        assert(part + rest =~= part + rest);
                                    }
                                    ArgsR::Inc(p2, c2r) => {
                                        assert((part + p2).len() == part.len() + p2.len());
                                    }
                                    ArgsR::Bad(e2, c2r) => {}
                                }
                            }
                        }
                    }
                }
            }
        }
    }
}

/// Resuming with a parked count and no name is the name-then-arguments
/// continuation.
proof fn lemma_resume_shape(expected: nat, s: Seq<u8>)
    requires
        expected >= 1,
    ensures
        spec_resume(expected, None, Seq::<Seq<u8>>::empty(), 0, s) == (
        match spec_bulk(s) {
            BulkR::Inc => CmdR::Inc(
                StateSpec::PartialS {
                    expected,
                    name: None,
                    args: Seq::<Seq<u8>>::empty(),
                    current: 0,
                },
                0,
            ),
            BulkR::Bad(e, c) => CmdR::Bad(e, c),
            BulkR::Val(nm, c) => match spec_args(s.skip(c as int), (expected - 1) as nat) {
                ArgsR::Val(a2, c2) => CmdR::Done(nm, a2, (c + c2) as nat),
                ArgsR::Inc(part, c2) => CmdR::Inc(
                    StateSpec::PartialS {
                        expected,
                        name: Some(nm),
                        args: part,
                        current: (1 + part.len()) as nat,
                    },
                    (c + c2) as nat,
                ),
                ArgsR::Bad(e, c2) => CmdR::Bad(e, (c + c2) as nat),
            },
        }),
{
}

#[verifier::rlimit(100)]
#[verifier::spinoff_prover]
proof fn lemma_resume_resumability(
    expected: nat,
    name: Option<Seq<u8>>,
    args0: Seq<Seq<u8>>,
    current: nat,
    s: Seq<u8>,
    ext: Seq<u8>,
)
    requires
        name is Some ==> current == 1 + args0.len() && current < expected,
        name is None ==> current == 0 && args0.len() == 0 && expected >= 1,
    ensures
        !(spec_resume(expected, name, args0, current, s) is Inc) ==> spec_resume(
            expected,
            name,
            args0,
            current,
            s + ext,
        ) == spec_resume(expected, name, args0, current, s),
        spec_resume(expected, name, args0, current, s) matches CmdR::Inc(st2, c) ==> spec_resume(
            expected,
            name,
            args0,
            current,
            s + ext,
        ) == add_consumed(spec_continue(st2, (s + ext).skip(c as int)), c),
{
    match name {
        Option::None => {
            lemma_bulk_extends(s, ext);
            lemma_bulk_consumed(s);
            match spec_bulk(s) {
                BulkR::Inc => {
                    assert((s + ext).skip(0) =~= s + ext);
                }
                BulkR::Bad(e, c) => {}
                BulkR::Val(nm, c) => {
                    let s3 = s.skip(c as int);
                    assert((s + ext).skip(c as int) =~= s3 + ext);
                    lemma_args_extends(s3, ext, (expected - 1) as nat);
                    lemma_args_consumed(s3, (expected - 1) as nat);
                    match spec_args(s3, (expected - 1) as nat) {
                        ArgsR::Val(a, c3) => {}
                        ArgsR::Bad(e, c3) => {}
                        ArgsR::Inc(part, cp) => {
                            lemma_args_resume(s3, ext, (expected - 1) as nat);
                            assert((s + ext).skip((c + cp) as int) =~= (s3 + ext).skip(cp as int));
                        }
                    }
                }
            }
        }
        Option::Some(nm) => {
            lemma_args_extends(s, ext, (expected - current) as nat);
            lemma_args_consumed(s, (expected - current) as nat);
            match spec_args(s, (expected - current) as nat) {
                ArgsR::Val(a, c) => {}
                ArgsR::Bad(e, c) => {}
                ArgsR::Inc(part, cp) => {
                    lemma_args_resume(s, ext, (expected - current) as nat);
                    match spec_args(
                        (s + ext).skip(cp as int),
                        (expected - current - part.len()) as nat,
                    ) {
                        ArgsR::Val(rest, c2) => {
                            assert((args0 + part) + rest =~= args0 + (part + rest));
                        }
                        ArgsR::Inc(p2, c2) => {
                            assert((args0 + part) + p2 =~= args0 + (part + p2));
                        }
                        ArgsR::Bad(e, c2) => {}
                    }
                }
            }
        }
    }
}

} // verus!




