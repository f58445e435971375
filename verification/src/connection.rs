//! Per-connection read/write buffering.
//!
//! A connection owns a growable read buffer with a parse cursor, and a
//! growable write buffer with a flush cursor.  Bytes before the read cursor
//! have been fully consumed by the parser; bytes before the write cursor have
//! already been handed to the kernel.

use vstd::prelude::*;
use vstd::map::*;
use crate::engine::{Redis, handle_redis_result, spec_execute};
use crate::error::{ProtocolError, protocol_error_msg, handle_protocol_error, handle_command_error};
use crate::parser::{
    CommandParseState, ParseState, CmdR, StateSpec, spec_command, spec_resume, spec_convert,
    conv_err_msg, cps_wf, cps_matches, vecs_view, opt_view, parse_command, parse_partial_command,
    convert_command_parse_state_to_redis_command, lemma_command_consumed, lemma_resume_consumed,
};
use crate::redis_object::ObjectSpec;

verus! {

/// Appends every byte of `s` to `v`.
pub fn append_slice(v: &mut Vec<u8>, s: &[u8])
    ensures
        final(v)@ == old(v)@ + s@,
{
    let mut i: usize = 0;
    while i < s.len()
        invariant
            i <= s@.len(),
            v@ == old(v)@ + s@.subrange(0, i as int),
        decreases s@.len() - i,
    {
        v.push(s[i]);
        i = i + 1;
        proof {
            assert(s@.subrange(0, i as int)
                == s@.subrange(0, i - 1).push(s@[i - 1]));
        }
    }
    proof {
        assert(s@.subrange(0, s@.len() as int) == s@);
    }
}

/// Incoming bytes waiting to be parsed, with the parse cursor.
pub struct ReadBuffer {
    pub buf: Vec<u8>,
    pub pos: usize,
}

impl ReadBuffer {
    /// The cursor never runs past the end of the buffer.
    pub open spec fn wf(&self) -> bool {
        self.pos <= self.buf@.len()
    }

    pub fn new() -> (r: ReadBuffer)
        ensures
            r.buf@.len() == 0,
            r.pos == 0,
            r.wf(),
    {
        ReadBuffer { buf: Vec::new(), pos: 0 }
    }

    pub fn clear(&mut self)
        ensures
            final(self).buf@.len() == 0,
            final(self).pos == 0,
            final(self).wf(),
    {
        self.buf.clear();
        self.pos = 0;
    }

    /// Advances the cursor to the next `*` byte, restoring RESP framing after
    /// a protocol error; clears the buffer when no `*` remains.
    pub fn skip_to_next_command(&mut self)
        requires
            old(self).wf(),
        ensures
            final(self).wf(),
            (exists|i: int|
                old(self).pos <= i < old(self).buf@.len() && old(self).buf@[i] == 0x2au8) ==> {
                &&& final(self).buf@ == old(self).buf@
                &&& old(self).pos <= final(self).pos < final(self).buf@.len()
                &&& final(self).buf@[final(self).pos as int] == 0x2au8
                &&& forall|j: int|
                    old(self).pos <= j < final(self).pos ==> final(self).buf@[j] != 0x2au8
            },
            !(exists|i: int|
                old(self).pos <= i < old(self).buf@.len() && old(self).buf@[i] == 0x2au8) ==> {
                &&& final(self).buf@.len() == 0
                &&& final(self).pos == 0
            },
    {
        let mut i: usize = self.pos;
        while i < self.buf.len()
            invariant
                self == old(self),
                old(self).pos <= i <= self.buf@.len(),
                forall|j: int| old(self).pos <= j < i ==> self.buf@[j] != 0x2au8,
            decreases self.buf@.len() - i,
        {
            if self.buf[i] == 0x2au8 {
                self.pos = i;
                return ;
            }
            i = i + 1;
        }
        self.clear();
    }
}

/// Outgoing reply bytes, with the count already delivered to the kernel.
pub struct WriteBuffer {
    pub buf: Vec<u8>,
    pub pos: usize,
}

impl WriteBuffer {
    pub open spec fn wf(&self) -> bool {
        self.pos <= self.buf@.len()
    }

    pub fn new() -> (r: WriteBuffer)
        ensures
            r.buf@.len() == 0,
            r.pos == 0,
            r.wf(),
    {
        WriteBuffer { buf: Vec::new(), pos: 0 }
    }

    pub fn append_bytes(&mut self, slice: &[u8])
        ensures
            final(self).buf@ == old(self).buf@ + slice@,
            final(self).pos == old(self).pos,
    {
        append_slice(&mut self.buf, slice);
    }

    pub fn append_byte(&mut self, byte: u8)
        ensures
            final(self).buf@ == old(self).buf@.push(byte),
            final(self).pos == old(self).pos,
    {
        self.buf.push(byte);
    }

    pub fn clear(&mut self)
        ensures
            final(self).buf@.len() == 0,
            final(self).pos == 0,
            final(self).wf(),
    {
        self.buf.clear();
        self.pos = 0;
    }
}

/// What a connection asks of the reactor after an I/O step.
pub enum ConnectionAction {
    Idle,
    WantRead,
    WantWrite,
    End,
}

/// Which readiness a connection currently waits for.
#[derive(PartialEq, Eq)]
pub enum ConnectionState {
    Read,
    Write,
    End,
}

/// Fixed-capacity read-side state of the length-prefixed transport.
pub struct ReadState {
    pub buffer: Vec<u8>,
    pub bytes_filled: usize,
    pub position: usize,
    pub wanted_string_length: Option<usize>,
    pub wanted_strings_amount: Option<usize>,
    pub current_message: Vec<(usize, usize)>,
    pub current_message_start: usize,
    pub current_message_bytes_length: usize,
}

impl ReadState {
    pub fn new() -> (r: ReadState)
        ensures
            r.buffer@.len() == 4100,
            forall|i: int| 0 <= i < r.buffer@.len() ==> r.buffer@[i] == 0u8,
            r.bytes_filled == 0,
            r.position == 0,
            r.wanted_string_length is None,
            r.wanted_strings_amount is None,
            r.current_message@.len() == 0,
            r.current_message_start == 0,
            r.current_message_bytes_length == 0,
    {
        let mut buffer: Vec<u8> = Vec::new();
        let mut i: usize = 0;
        while i < 4100
            invariant
                i <= 4100,
                buffer@.len() == i,
                forall|j: int| 0 <= j < i ==> buffer@[j] == 0u8,
            decreases 4100 - i,
        {
            buffer.push(0u8);
            i = i + 1;
        }
        ReadState {
            buffer,
            bytes_filled: 0,
            position: 0,
            wanted_string_length: None,
            wanted_strings_amount: None,
            current_message: Vec::new(),
            current_message_start: 0,
            current_message_bytes_length: 0,
        }
    }
}

/// Fixed-capacity write-side state of the length-prefixed transport.
pub struct WriteState {
    pub buffer: Vec<u8>,
    pub size: usize,
    pub bytes_written: usize,
}

impl WriteState {
    pub fn new() -> (r: WriteState)
        ensures
            r.buffer@.len() == 4100,
            forall|i: int| 0 <= i < r.buffer@.len() ==> r.buffer@[i] == 0u8,
            r.size == 0,
            r.bytes_written == 0,
    {
        let mut buffer: Vec<u8> = Vec::new();
        let mut i: usize = 0;
        while i < 4100
            invariant
                i <= 4100,
                buffer@.len() == i,
                forall|j: int| 0 <= j < i ==> buffer@[j] == 0u8,
            decreases 4100 - i,
        {
            buffer.push(0u8);
            i = i + 1;
        }
        WriteState { buffer, size: 0, bytes_written: 0 }
    }
}


/// The index of the first `*` byte, if any.
pub open spec fn find_star(s: Seq<u8>) -> Option<nat>
    decreases s.len(),
{
    if s.len() == 0 {
        None
    } else if s[0] == 42 {
        Some(0)
    } else {
        match find_star(s.skip(1)) {
            Option::Some(i) => Some((i + 1) as nat),
            Option::None => None,
        }
    }
}

pub proof fn lemma_find_star(s: Seq<u8>)
    ensures
        match find_star(s) {
            Option::Some(i) => i < s.len() && s[i as int] == 42 && forall|j: int|
                0 <= j < i ==> s[j] != 42,
            Option::None => forall|j: int| 0 <= j < s.len() ==> s[j] != 42,
        },
    decreases s.len(),
{
    if s.len() > 0 && s[0] != 42 {
        lemma_find_star(s.skip(1));
        match find_star(s.skip(1)) {
            Option::Some(i) => {
                assert forall|j: int| 0 <= j < i + 1 implies s[j] != 42 by {
                    if j > 0 {
                        assert(s.skip(1)[j - 1] != 42);
                    }
                }
            }
            Option::None => {
                assert forall|j: int| 0 <= j < s.len() implies s[j] != 42 by {
                    if j > 0 {
                        assert(s.skip(1)[j - 1] != 42);
                    }
                }
            }
        }
    }
}

/// The spec-level parse state a `CommandParseState` denotes.
pub open spec fn state_of(c: &CommandParseState) -> StateSpec {
    match c.state {
        ParseState::Empty => StateSpec::EmptyS,
        _ => StateSpec::PartialS {
            expected: c.expected_strings as nat,
            name: opt_view(c.command_name),
            args: vecs_view(c.args@),
            current: c.current_string as nat,
        },
    }
}

/// Dispatching a completed command: run it, or earn the dispatch error's
/// reply with the store untouched.
#[verifier::opaque]
pub open spec fn apply_complete(
    m: Map<Seq<u8>, ObjectSpec>,
    nm: Seq<u8>,
    args: Seq<Seq<u8>>,
) -> (Map<Seq<u8>, ObjectSpec>, Seq<u8>, bool) {
    match spec_convert(nm, args) {
        Ok(cs) => {
            let e = spec_execute(m, cs);
            (e.0, e.1, true)
        }
        Err(es) => (m, conv_err_msg(es), false),
    }
}

/// What one readable wakeup does: the replies written, the store after all
/// complete commands ran, the parse state left behind, and the bytes still
/// unconsumed in the read buffer.
pub struct SessionR {
    pub replies: Seq<u8>,
    pub store: Map<Seq<u8>, ObjectSpec>,
    pub state: StateSpec,
    pub rest: Seq<u8>,
}

/// Runs commands out of the unread bytes `s` until the input runs dry:
/// each complete command executes and replies in order; a malformed command
/// earns its error reply, after which parsing resumes at the next `*` (or
/// the buffer is abandoned); an incomplete command parks its partial state.
#[verifier::opaque]
pub open spec fn session(m: Map<Seq<u8>, ObjectSpec>, st: StateSpec, s: Seq<u8>) -> SessionR
    decreases s.len(),
{
    let r = match st {
        StateSpec::EmptyS => spec_command(s),
        StateSpec::PartialS { expected, name, args, current } => spec_resume(
            expected,
            name,
            args,
            current,
            s,
        ),
    };
    match r {
        CmdR::Inc(st2, c) => SessionR {
            replies: Seq::empty(),
            store: m,
            state: st2,
            rest: s.skip(c as int),
        },
        CmdR::Done(nm, args, c) => {
            if c < 1 || c > s.len() {
                SessionR { replies: Seq::empty(), store: m, state: StateSpec::EmptyS, rest: s }
            } else {
                let step = apply_complete(m, nm, args);
                if step.2 {
                    let rec = session(step.0, StateSpec::EmptyS, s.skip(c as int));
                    SessionR {
                        replies: step.1 + rec.replies,
                        store: rec.store,
                        state: rec.state,
                        rest: rec.rest,
                    }
                } else {
                    match find_star(s.skip(c as int)) {
                        Option::None => SessionR {
                            replies: step.1,
                            store: m,
                            state: StateSpec::EmptyS,
                            rest: Seq::empty(),
                        },
                        Option::Some(i) => {
                            if c + i >= 1 && c + i <= s.len() {
                                let rec = session(m, StateSpec::EmptyS, s.skip((c + i) as int));
                                SessionR {
                                    replies: step.1 + rec.replies,
                                    store: rec.store,
                                    state: rec.state,
                                    rest: rec.rest,
                                }
                            } else {
                                SessionR {
                                    replies: step.1,
                                    store: m,
                                    state: StateSpec::EmptyS,
                                    rest: s.skip(c as int),
                                }
                            }
                        }
                    }
                }
            }
        }
        CmdR::Bad(e, c) => {
            if c < 1 || c > s.len() {
                SessionR { replies: Seq::empty(), store: m, state: StateSpec::EmptyS, rest: s }
            } else {
                let reply = protocol_error_msg(e);
                match find_star(s.skip(c as int)) {
                    Option::None => SessionR {
                        replies: reply,
                        store: m,
                        state: StateSpec::EmptyS,
                        rest: Seq::empty(),
                    },
                    Option::Some(i) => {
                        if c + i >= 1 && c + i <= s.len() {
                            let rec = session(m, StateSpec::EmptyS, s.skip((c + i) as int));
                            SessionR {
                                replies: reply + rec.replies,
                                store: rec.store,
                                state: rec.state,
                                rest: rec.rest,
                            }
                        } else {
                            SessionR {
                                replies: reply,
                                store: m,
                                state: StateSpec::EmptyS,
                                rest: s.skip(c as int),
                            }
                        }
                    }
                }
            }
        }
    }
}

/// Dispatches and runs the completed command in the parse state, appending
/// its reply; reports whether dispatch succeeded (a dispatch failure leaves
/// the store untouched and earns its error reply).
#[verifier::rlimit(100)]
#[verifier::spinoff_prover]
fn run_complete_command(
    redis: &mut Redis,
    command_parse_state: &CommandParseState,
    write_buffer: &mut WriteBuffer,
) -> (ok: bool)
    requires
        old(redis).wf(),
        cps_wf(command_parse_state),
        command_parse_state.state is Complete,
    ensures
        final(redis).wf(),
        final(write_buffer).pos == old(write_buffer).pos,
        ({
            let step = apply_complete(
                old(redis)@,
                opt_view(command_parse_state.command_name)->Some_0,
                vecs_view(command_parse_state.args@),
            );
            &&& final(write_buffer).buf@ == old(write_buffer).buf@ + step.1
            &&& final(redis)@ == step.0
            &&& ok == step.2
        }),
{
    proof {
        reveal(apply_complete);
    }
    match convert_command_parse_state_to_redis_command(command_parse_state) {
        Ok(command) => {
            let result = redis.execute_command(&command);
            handle_redis_result(&result, write_buffer);
            true
        }
        Err(ce) => {
            handle_command_error(&ce, write_buffer);
            false
        }
    }
}

/// Performs one parse step: one complete command executed and replied to,
/// one error replied to and resynchronized past, or a stop because the
/// input ran dry.  Returns whether processing must stop.
#[verifier::rlimit(100)]
#[verifier::spinoff_prover]
fn process_step(
    redis: &mut Redis,
    read_buffer: &mut ReadBuffer,
    command_parse_state: &mut CommandParseState,
    write_buffer: &mut WriteBuffer,
) -> (stop: bool)
    requires
        old(redis).wf(),
        old(read_buffer).wf(),
        cps_wf(old(command_parse_state)),
        !(old(command_parse_state).state is Complete),
    ensures
        final(redis).wf(),
        final(read_buffer).wf(),
        cps_wf(final(command_parse_state)),
        !(final(command_parse_state).state is Complete),
        final(write_buffer).pos == old(write_buffer).pos,
        final(write_buffer).buf@.len() >= old(write_buffer).buf@.len(),
        final(write_buffer).buf@.subrange(0, old(write_buffer).buf@.len() as int)
            == old(write_buffer).buf@,
        ({
            let r = session(
                old(redis)@,
                state_of(old(command_parse_state)),
                old(read_buffer).buf@.skip(old(read_buffer).pos as int),
            );
            let delta = final(write_buffer).buf@.skip(old(write_buffer).buf@.len() as int);
            let r2 = session(
                final(redis)@,
                state_of(final(command_parse_state)),
                final(read_buffer).buf@.skip(final(read_buffer).pos as int),
            );
            &&& (!stop ==> r.replies == delta + r2.replies && r.store == r2.store
                && r.state == r2.state && r.rest == r2.rest
                && final(read_buffer).buf@.len() - final(read_buffer).pos
                    < old(read_buffer).buf@.len() - old(read_buffer).pos)
            &&& (stop ==> r.replies == delta && r.store == final(redis)@
                && cps_matches(final(command_parse_state), r.state)
                && final(read_buffer).buf@.skip(final(read_buffer).pos as int) == r.rest)
        }),
{
    let ghost mi = redis@;
    let ghost sti = state_of(command_parse_state);
    let ghost posi = read_buffer.pos;
    let ghost si = read_buffer.buf@.skip(read_buffer.pos as int);
    let ghost pr = match sti {
        StateSpec::EmptyS => spec_command(si),
        StateSpec::PartialS { expected, name, args, current } => spec_resume(
            expected,
            name,
            args,
            current,
            si,
        ),
    };
    proof {
        match sti {
            StateSpec::EmptyS => {
                lemma_command_consumed(si);
            }
            StateSpec::PartialS { expected, name, args, current } => {
                lemma_resume_consumed(expected, name, args, current, si);
            }
        }
    }
    let return_value = match &command_parse_state.state {
        ParseState::Empty => parse_command(
            read_buffer.buf.as_slice(),
            &mut read_buffer.pos,
            command_parse_state,
        ),
        ParseState::Partial => parse_partial_command(
            read_buffer.buf.as_slice(),
            &mut read_buffer.pos,
            command_parse_state,
        ),
        ParseState::Complete => {
            proof {
                assert(false);
            }
            return true;
        }
    };
    match return_value {
        Ok(()) => {
            let ghost nm = pr->Done_0;
            let ghost cargs = pr->Done_1;
            let ghost cc = pr->Done_2;
            let ghost stepv = apply_complete(mi, nm, cargs);
            let ok = run_complete_command(redis, command_parse_state, write_buffer);
            CommandParseState::clear(command_parse_state);
            if ok {
                let ghost rec = session(stepv.0, StateSpec::EmptyS, si.skip(cc as int));
                proof {
                    assert(session(mi, sti, si) == SessionR {
                        replies: stepv.1 + rec.replies,
                        store: rec.store,
                        state: rec.state,
                        rest: rec.rest,
                    }) by {
                        reveal(session);
                    }
                }
                if read_buffer.pos >= read_buffer.buf.len() {
                    read_buffer.clear();
                    proof {
                        assert(si.skip(cc as int) =~= Seq::<u8>::empty());
                        assert(si.skip(cc as int).skip(0) =~= Seq::<u8>::empty());
                        assert(read_buffer.buf@.skip(read_buffer.pos as int)
                            =~= Seq::<u8>::empty());
                        assert(rec == SessionR {
                            replies: Seq::<u8>::empty(),
                            store: stepv.0,
                            state: StateSpec::EmptyS,
                            rest: Seq::<u8>::empty(),
                        }) by {
                            reveal(session);
                        }
                        assert(stepv.1 + Seq::<u8>::empty() =~= stepv.1);
                        assert(final(write_buffer).buf@.skip(old(write_buffer).buf@.len() as int)
                            =~= stepv.1);
                        assert(final(write_buffer).buf@.subrange(
                            0,
                            old(write_buffer).buf@.len() as int,
                        ) =~= old(write_buffer).buf@);
                    }
                    return true;
                }
                proof {
                    assert(read_buffer.buf@.skip(read_buffer.pos as int)
                        =~= si.skip(cc as int));
                    assert(final(write_buffer).buf@.skip(old(write_buffer).buf@.len() as int)
                        =~= stepv.1);
                    assert(final(write_buffer).buf@.subrange(
                        0,
                        old(write_buffer).buf@.len() as int,
                    ) =~= old(write_buffer).buf@);
                }
                return false;
            } else {
                let ghost bufpre = read_buffer.buf@;
                let ghost pospre = read_buffer.pos;
                proof {
                    assert(bufpre.skip(pospre as int) =~= si.skip(cc as int));
                    assert(bufpre.skip(posi as int) =~= si);
                }
                resync_after_error(read_buffer, command_parse_state);
                proof {
                    lemma_find_star(si.skip(cc as int));
                    assert(stepv.0 == mi) by {
                        reveal(apply_complete);
                    }
                    assert(final(write_buffer).buf@.skip(old(write_buffer).buf@.len() as int)
                        =~= stepv.1);
                    assert(final(write_buffer).buf@.subrange(
                        0,
                        old(write_buffer).buf@.len() as int,
                    ) =~= old(write_buffer).buf@);
                    if find_star(si.skip(cc as int)) is Some {
                        let i = find_star(si.skip(cc as int))->Some_0;
                        assert(cc + i >= 1 && cc + i <= si.len());
                        assert(session(mi, sti, si) == ({
                            let rec = session(mi, StateSpec::EmptyS, si.skip((cc + i) as int));
                            SessionR {
                                replies: stepv.1 + rec.replies,
                                store: rec.store,
                                state: rec.state,
                                rest: rec.rest,
                            }
                        })) by {
                            reveal(session);
                        }
                        assert(read_buffer.buf@.skip(read_buffer.pos as int)
                            =~= si.skip((cc + i) as int));
                    } else {
                        assert(session(mi, sti, si) == SessionR {
                            replies: stepv.1,
                            store: mi,
                            state: StateSpec::EmptyS,
                            rest: Seq::<u8>::empty(),
                        }) by {
                            reveal(session);
                        }
                    }
                }
                if read_buffer.pos >= read_buffer.buf.len() {
                    proof {
                        assert(find_star(si.skip(cc as int)) is None);
                        assert(read_buffer.buf@.skip(read_buffer.pos as int)
                            =~= Seq::<u8>::empty());
                        assert(stepv.1 + Seq::<u8>::empty() =~= stepv.1);
                    }
                    return true;
                }
                proof {
                    assert(find_star(si.skip(cc as int)) is Some);
                }
                return false;
            }
        }
        Err(e) => {
            if matches!(e, ProtocolError::Incomplete) {
                proof {
                    assert(session(mi, sti, si) == SessionR {
                        replies: Seq::<u8>::empty(),
                        store: mi,
                        state: pr->Inc_0,
                        rest: si.skip(pr->Inc_1 as int),
                    }) by {
                        reveal(session);
                    }
                    assert(read_buffer.buf@.skip(read_buffer.pos as int)
                        =~= si.skip(pr->Inc_1 as int));
                    assert(final(write_buffer).buf@.skip(old(write_buffer).buf@.len() as int)
                        =~= Seq::<u8>::empty());
                    assert(final(write_buffer).buf@.subrange(
                        0,
                        old(write_buffer).buf@.len() as int,
                    ) =~= old(write_buffer).buf@);
                }
                return true;
            }
            let ghost errmsg = protocol_error_msg(pr->Bad_0);
            let ghost cc = pr->Bad_1;
            handle_protocol_error(&e, write_buffer);
            let ghost bufpre = read_buffer.buf@;
            let ghost pospre = read_buffer.pos;
            proof {
                assert(bufpre.skip(pospre as int) =~= si.skip(cc as int));
                assert(bufpre.skip(posi as int) =~= si);
            }
            resync_after_error(read_buffer, command_parse_state);
            proof {
                lemma_find_star(si.skip(cc as int));
                assert(final(write_buffer).buf@.skip(old(write_buffer).buf@.len() as int)
                    =~= errmsg);
                assert(final(write_buffer).buf@.subrange(
                    0,
                    old(write_buffer).buf@.len() as int,
                ) =~= old(write_buffer).buf@);
                if find_star(si.skip(cc as int)) is Some {
                    let i = find_star(si.skip(cc as int))->Some_0;
                    assert(cc + i >= 1 && cc + i <= si.len());
                    assert(session(mi, sti, si) == ({
                        let rec = session(mi, StateSpec::EmptyS, si.skip((cc + i) as int));
                        SessionR {
                            replies: errmsg + rec.replies,
                            store: rec.store,
                            state: rec.state,
                            rest: rec.rest,
                        }
                    })) by {
                        reveal(session);
                    }
                    assert(read_buffer.buf@.skip(read_buffer.pos as int)
                        =~= si.skip((cc + i) as int));
                } else {
                    assert(session(mi, sti, si) == SessionR {
                        replies: errmsg,
                        store: mi,
                        state: StateSpec::EmptyS,
                        rest: Seq::<u8>::empty(),
                    }) by {
                        reveal(session);
                    }
                }
            }
            if read_buffer.pos >= read_buffer.buf.len() {
                proof {
                    assert(find_star(si.skip(cc as int)) is None);
                    assert(read_buffer.buf@.skip(read_buffer.pos as int)
                        =~= Seq::<u8>::empty());
                    assert(errmsg + Seq::<u8>::empty() =~= errmsg);
                }
                return true;
            }
            proof {
                assert(find_star(si.skip(cc as int)) is Some);
            }
            return false;
        }
    }
}

/// Runs the parse-execute-reply loop over everything readable: consumes
/// complete commands from the read buffer, executes each against the store,
/// appends the replies in order, resynchronizes after malformed input, and
/// parks partial input in the parse state for the next fill.  Everything it
/// does is exactly what `session` prescribes.
#[verifier::rlimit(100)]
#[verifier::spinoff_prover]
pub fn process_read_buffer(
    redis: &mut Redis,
    read_buffer: &mut ReadBuffer,
    command_parse_state: &mut CommandParseState,
    write_buffer: &mut WriteBuffer,
)
    requires
        old(redis).wf(),
        old(read_buffer).wf(),
        cps_wf(old(command_parse_state)),
        !(old(command_parse_state).state is Complete),
    ensures
        final(redis).wf(),
        final(read_buffer).wf(),
        cps_wf(final(command_parse_state)),
        !(final(command_parse_state).state is Complete),
        final(write_buffer).pos == old(write_buffer).pos,
        ({
            let r0 = session(
                old(redis)@,
                state_of(old(command_parse_state)),
                old(read_buffer).buf@.skip(old(read_buffer).pos as int),
            );
            &&& final(write_buffer).buf@ == old(write_buffer).buf@ + r0.replies
            &&& final(redis)@ == r0.store
            &&& cps_matches(final(command_parse_state), r0.state)
            &&& final(read_buffer).buf@.skip(final(read_buffer).pos as int) == r0.rest
        }),
{
    let ghost m0 = redis@;
    let ghost st0 = state_of(command_parse_state);
    let ghost s0 = read_buffer.buf@.skip(read_buffer.pos as int);
    let ghost w0 = write_buffer.buf@;
    proof {
        assert(w0 + Seq::<u8>::empty() =~= w0);
        assert(write_buffer.buf@.skip(w0.len() as int) =~= Seq::<u8>::empty());
        assert(session(m0, st0, s0).replies
            =~= write_buffer.buf@.skip(w0.len() as int) + session(m0, st0, s0).replies);
    }
    loop
        invariant
            redis.wf(),
            read_buffer.wf(),
            cps_wf(command_parse_state),
            !(command_parse_state.state is Complete),
            write_buffer.pos == old(write_buffer).pos,
            w0 == old(write_buffer).buf@,
            m0 == old(redis)@,
            st0 == state_of(old(command_parse_state)),
            s0 == old(read_buffer).buf@.skip(old(read_buffer).pos as int),
            write_buffer.buf@.len() >= w0.len(),
            write_buffer.buf@.subrange(0, w0.len() as int) == w0,
            ({
                let r0 = session(m0, st0, s0);
                let ri = session(
                    redis@,
                    state_of(command_parse_state),
                    read_buffer.buf@.skip(read_buffer.pos as int),
                );
                &&& r0.replies == write_buffer.buf@.skip(w0.len() as int) + ri.replies
                &&& r0.store == ri.store
                &&& r0.state == ri.state
                &&& r0.rest == ri.rest
            }),
        decreases read_buffer.buf@.len() - read_buffer.pos,
    {
        let ghost wpre = write_buffer.buf@;
        let ghost ri_pre = session(
            redis@,
            state_of(command_parse_state),
            read_buffer.buf@.skip(read_buffer.pos as int),
        );
        let stop = process_step(redis, read_buffer, command_parse_state, write_buffer);
        proof {
            let delta = write_buffer.buf@.skip(wpre.len() as int);
            assert(write_buffer.buf@.subrange(0, w0.len() as int) =~= w0);
            assert(write_buffer.buf@.skip(w0.len() as int)
                =~= wpre.skip(w0.len() as int) + delta);
        }
        if stop {
            proof {
                let r0 = session(m0, st0, s0);
                let delta = write_buffer.buf@.skip(wpre.len() as int);
                assert(r0.replies =~= wpre.skip(w0.len() as int) + ri_pre.replies);
                assert(r0.replies =~= write_buffer.buf@.skip(w0.len() as int));
                assert(write_buffer.buf@ =~= w0 + r0.replies);
            }
            return ;
        }
        proof {
            let r0 = session(m0, st0, s0);
            let delta = write_buffer.buf@.skip(wpre.len() as int);
            let ri = session(
                redis@,
                state_of(command_parse_state),
                read_buffer.buf@.skip(read_buffer.pos as int),
            );
            assert(r0.replies =~= wpre.skip(w0.len() as int) + (delta + ri.replies));
            assert(r0.replies =~= write_buffer.buf@.skip(w0.len() as int) + ri.replies);
        }
    }
}

/// After an error reply: skip to the next `*` and reset the parse state.
fn resync_after_error(read_buffer: &mut ReadBuffer, command_parse_state: &mut CommandParseState)
    requires
        old(read_buffer).wf(),
    ensures
        final(read_buffer).wf(),
        cps_wf(final(command_parse_state)),
        final(command_parse_state).state == ParseState::Empty,
        ({
            let s2 = old(read_buffer).buf@.skip(old(read_buffer).pos as int);
            match find_star(s2) {
                Option::Some(i) => final(read_buffer).buf@ == old(read_buffer).buf@
                    && final(read_buffer).pos == old(read_buffer).pos + i
                    && final(read_buffer).pos < final(read_buffer).buf@.len(),
                Option::None => final(read_buffer).buf@.len() == 0
                    && final(read_buffer).pos == 0,
            }
        }),
{
    proof {
        lemma_find_star(old(read_buffer).buf@.skip(old(read_buffer).pos as int));
    }
    read_buffer.skip_to_next_command();
    proof {
        let s2 = old(read_buffer).buf@.skip(old(read_buffer).pos as int);
        match find_star(s2) {
            Option::Some(i) => {
                assert(old(read_buffer).buf@[old(read_buffer).pos + i] == 42);
                assert(exists|x: int|
                    old(read_buffer).pos <= x < old(read_buffer).buf@.len()
                        && old(read_buffer).buf@[x] == 0x2au8);
                let d = read_buffer.pos - old(read_buffer).pos;
                if d != i {
                    if d < i {
                        assert(s2[d as int] != 42);
                        assert(old(read_buffer).buf@[read_buffer.pos as int] == 0x2au8);
                        assert(false);
                    } else {
                        assert(old(read_buffer).buf@[old(read_buffer).pos + i] != 0x2au8);
                        assert(false);
                    }
                }
            }
            Option::None => {
                if exists|x: int|
                    old(read_buffer).pos <= x < old(read_buffer).buf@.len()
                        && old(read_buffer).buf@[x] == 0x2au8 {
                    let x = choose|x: int|
                        old(read_buffer).pos <= x < old(read_buffer).buf@.len()
                            && old(read_buffer).buf@[x] == 0x2au8;
                    assert(s2[x - old(read_buffer).pos] == 42);
                    assert(false);
                }
            }
        }
    }
    CommandParseState::clear(command_parse_state);
}

} // verus!


