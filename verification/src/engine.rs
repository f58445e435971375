//! The keyspace engine: executes parsed commands against the dictionary
//! and renders RESP replies.

use vstd::prelude::*;
use vstd::map::*;
use vstd::string::StringSliceAdditionalSpecFns;
use crate::commands::{RedisCommand, CommandSpec};
use crate::connection::WriteBuffer;
use crate::error::{RedisError, CommandError, command_error_msg};
use crate::hash_table::{HashDict, HashNode};
use crate::redis_object::{RedisObject, ObjectSpec, obj_of_bytes, obj_bytes, resp_bulk, dec_digits};
use crate::zip_list::{ZipList, ZipEntry, EntrySpec, classify_obj, zl_fits, entry_value};

verus! {

/// What executing one command replies with.
pub enum RedisResult {
    SimpleString(&'static str),
    BulkString(Vec<u8>),
    Int(u64),
    Error(RedisError),
}

/// The reply `+OK\r\n`.
pub open spec fn ok_msg() -> Seq<u8> {
    "+OK\r\n".spec_bytes()
}

/// The nil bulk reply `$-1\r\n`.
pub open spec fn nil_msg() -> Seq<u8> {
    "$-1\r\n".spec_bytes()
}

/// The reply when a value cannot be encoded as a list entry, or a grown
/// list would no longer fit its u32 header.
pub open spec fn too_large_msg() -> Seq<u8> {
    "-ERR ".spec_bytes() + "list entry too large".spec_bytes() + "\r\n".spec_bytes()
}

/// The integer reply `:<n>\r\n`.
pub open spec fn int_msg(n: nat) -> Seq<u8> {
    seq![58u8] + dec_digits(n) + seq![13u8, 10u8]
}

/// Deleting each key in order: the resulting map and the number of keys
/// that were present.
pub open spec fn spec_del(m: Map<Seq<u8>, ObjectSpec>, keys: Seq<Seq<u8>>) -> (
    Map<Seq<u8>, ObjectSpec>,
    nat,
)
    decreases keys.len(),
{
    if keys.len() == 0 {
        (m, 0)
    } else {
        let hit: nat = if m.contains_key(keys[0]) {
            1
        } else {
            0
        };
        let rest = spec_del(m.remove(keys[0]), keys.skip(1));
        (rest.0, hit + rest.1)
    }
}

/// Pushing a raw value onto the list under `k`, at the head (`front`) or
/// the tail: the new map and the reply.
pub open spec fn spec_push(
    m: Map<Seq<u8>, ObjectSpec>,
    k: Seq<u8>,
    v: Seq<u8>,
    front: bool,
) -> (Map<Seq<u8>, ObjectSpec>, Seq<u8>) {
    match classify_obj(obj_of_bytes(v)) {
        Option::None => (m, too_large_msg()),
        Option::Some(e) => {
            if m.contains_key(k) {
                match m[k] {
                    ObjectSpec::List(es) => {
                        let at: int = if front {
                            0
                        } else {
                            es.len() as int
                        };
                        if zl_fits(es.insert(at, e)) {
                            (m.insert(k, ObjectSpec::List(es.insert(at, e))), ok_msg())
                        } else {
                            (m, too_large_msg())
                        }
                    }
                    _ => (m, command_error_msg(CommandError::WrongType)),
                }
            } else {
                if zl_fits(seq![e]) {
                    (m.insert(k, ObjectSpec::List(seq![e])), ok_msg())
                } else {
                    (m, too_large_msg())
                }
            }
        }
    }
}

/// Popping from the list under `k`, at the head or the tail.
pub open spec fn spec_pop(m: Map<Seq<u8>, ObjectSpec>, k: Seq<u8>, front: bool) -> (
    Map<Seq<u8>, ObjectSpec>,
    Seq<u8>,
) {
    if !m.contains_key(k) {
        (m, nil_msg())
    } else {
        match m[k] {
            ObjectSpec::List(es) => {
                if es.len() == 0 {
                    (m, nil_msg())
                } else {
                    let at: int = if front {
                        0
                    } else {
                        es.len() - 1
                    };
                    (
                        m.insert(k, ObjectSpec::List(es.remove(at))),
                        resp_bulk(obj_bytes(entry_value(es[at]))),
                    )
                }
            }
            _ => (m, command_error_msg(CommandError::WrongType)),
        }
    }
}

/// What one command does to the store, and the reply it earns.
pub open spec fn spec_execute(m: Map<Seq<u8>, ObjectSpec>, cmd: CommandSpec) -> (
    Map<Seq<u8>, ObjectSpec>,
    Seq<u8>,
) {
    match cmd {
        CommandSpec::SetCmd { key, value } => (m.insert(key, obj_of_bytes(value)), ok_msg()),
        CommandSpec::Get { key } => {
            if !m.contains_key(key) {
                (m, nil_msg())
            } else {
                match m[key] {
                    ObjectSpec::List(_) => (m, command_error_msg(CommandError::WrongType)),
                    _ => (m, resp_bulk(obj_bytes(m[key]))),
                }
            }
        }
        CommandSpec::Del { keys } => {
            let r = spec_del(m, keys);
            (r.0, int_msg(r.1))
        }
        CommandSpec::LPush { key, value } => spec_push(m, key, value, true),
        CommandSpec::RPush { key, value } => spec_push(m, key, value, false),
        CommandSpec::LPop { key } => spec_pop(m, key, true),
        CommandSpec::RPop { key } => spec_pop(m, key, false),
    }
}

/// The bytes a `RedisResult` renders to.
pub open spec fn reply_of(r: RedisResult) -> Seq<u8> {
    match r {
        RedisResult::SimpleString(s) => s.spec_bytes(),
        RedisResult::BulkString(b) => b@,
        RedisResult::Int(n) => int_msg(n as nat),
        RedisResult::Error(e) => match e {
            RedisError::CommandError(ce) => command_error_msg(ce),
            RedisError::Other(s) => "-ERR ".spec_bytes()
                + vstd::utf8::encode_utf8(s@) + "\r\n".spec_bytes(),
            _ => Seq::empty(),
        },
    }
}

/// Appends the rendered reply to the write buffer.
pub fn handle_redis_result(result: &RedisResult, write_buffer: &mut WriteBuffer)
    ensures
        final(write_buffer).buf@ == old(write_buffer).buf@ + reply_of(*result),
        final(write_buffer).pos == old(write_buffer).pos,
{
    match result {
        RedisResult::SimpleString(simple_string) => {
            write_buffer.append_bytes(simple_string.as_bytes());
        }
        RedisResult::BulkString(bulk_string) => {
            write_buffer.append_bytes(bulk_string.as_slice());
        }
        RedisResult::Int(num) => {
            write_buffer.append_byte(58u8);
            let mut digits: Vec<u8> = Vec::new();
            crate::redis_object::push_digits(&mut digits, *num);
            write_buffer.append_bytes(digits.as_slice());
            write_buffer.append_byte(13u8);
            write_buffer.append_byte(10u8);
            proof {
                assert(final(write_buffer).buf@ =~= old(write_buffer).buf@
                    + reply_of(*result));
            }
        }
        RedisResult::Error(e) => {
            match e {
                RedisError::CommandError(ce) => {
                    crate::error::handle_command_error(ce, write_buffer);
                }
                RedisError::Other(s) => {
                    write_buffer.append_bytes("-ERR ".as_bytes());
                    write_buffer.append_bytes(s.as_str().as_bytes());
                    write_buffer.append_bytes("\r\n".as_bytes());
                }
                _ => {}
            }
        }
    }
}

proof fn lemma_restore(m: Map<Seq<u8>, ObjectSpec>, k: Seq<u8>)
    requires
        m.contains_key(k),
    ensures
        m.remove(k).insert(k, m[k]) == m,
{
    assert_maps_equal!(m.remove(k).insert(k, m[k]), m, key => {});
}

proof fn lemma_remove_insert(m: Map<Seq<u8>, ObjectSpec>, k: Seq<u8>, v: ObjectSpec)
    ensures
        m.remove(k).insert(k, v) == m.insert(k, v),
{
    assert_maps_equal!(m.remove(k).insert(k, v), m.insert(k, v), key => {});
}

/// The whole keyspace: one dictionary of values.
pub struct Redis {
    dict: HashDict,
}

impl View for Redis {
    type V = Map<Seq<u8>, ObjectSpec>;

    closed spec fn view(&self) -> Map<Seq<u8>, ObjectSpec> {
        self.dict@
    }
}

impl Redis {
    pub closed spec fn wf(&self) -> bool {
        self.dict.wf()
    }

    pub fn new() -> (r: Redis)
        ensures
            r.wf(),
            r@ == Map::<Seq<u8>, ObjectSpec>::empty(),
    {
        Redis { dict: HashDict::new() }
    }

    /// Runs one command, updating the store and producing the reply that
    /// `spec_execute` prescribes.
    #[verifier::rlimit(100)]
    #[verifier::spinoff_prover]
    pub fn execute_command(&mut self, command: &RedisCommand) -> (r: RedisResult)
        requires
            old(self).wf(),
        ensures
            final(self).wf(),
            final(self)@ == spec_execute(old(self)@, command@).0,
            reply_of(r) == spec_execute(old(self)@, command@).1,
    {
        match command {
            RedisCommand::SetCmd { key, value } => {
                let node = HashNode::new_from_bytes(key.as_slice(), value.as_slice());
                self.dict.insert(node);
                RedisResult::SimpleString("+OK\r\n")
            }
            RedisCommand::Get { key } => {
                match self.dict.lookup(key.as_slice()) {
                    Some(value) => {
                        match value {
                            RedisObject::List(_) => RedisResult::Error(
                                RedisError::CommandError(CommandError::WrongType),
                            ),
                            _ => RedisResult::BulkString(value.to_resp()),
                        }
                    }
                    None => {
                        let mut nil: Vec<u8> = Vec::new();
                        crate::connection::append_slice(&mut nil, "$-1\r\n".as_bytes());
                        RedisResult::BulkString(nil)
                    }
                }
            }
            RedisCommand::Del { keys } => {
                let ghost m0 = self@;
                let ghost keyseq = Seq::new(keys@.len(), |i: int| keys@[i]@);
                let mut amount_deletions: u64 = 0;
                let mut i: usize = 0;
                proof {
                    assert(keyseq.skip(0) =~= keyseq);
                }
                while i < keys.len()
                    invariant
                        self.wf(),
                        i <= keys@.len(),
                        keyseq == Seq::new(keys@.len(), |x: int| keys@[x]@),
                        amount_deletions <= i,
                        spec_del(m0, keyseq).0 == spec_del(self@, keyseq.skip(i as int)).0,
                        spec_del(m0, keyseq).1 == amount_deletions
                            + spec_del(self@, keyseq.skip(i as int)).1,
                    decreases keys@.len() - i,
                {
                    let ghost pre = self@;
                    let result = self.dict.delete(keys[i].as_slice());
                    if result {
                        amount_deletions = amount_deletions + 1;
                    }
                    i = i + 1;
                    proof {
                        assert(keyseq.skip(i - 1)[0] == keyseq[i - 1]);
                        assert(keyseq.skip(i - 1).skip(1) =~= keyseq.skip(i as int));
                    }
                }
                proof {
                    assert(keyseq.skip(keyseq.len() as int) =~= Seq::<Seq<u8>>::empty());
                }
                RedisResult::Int(amount_deletions)
            }
            RedisCommand::LPush { key, value } => self.push_value(key, value, true),
            RedisCommand::RPush { key, value } => self.push_value(key, value, false),
            RedisCommand::LPop { key } => self.pop_value(key, true),
            RedisCommand::RPop { key } => self.pop_value(key, false),
        }
    }

    /// Creates or extends the list under `key` with a classified value.
    #[verifier::rlimit(100)]
    #[verifier::spinoff_prover]
    fn push_value(&mut self, key: &Vec<u8>, value: &Vec<u8>, front: bool) -> (r: RedisResult)
        requires
            old(self).wf(),
        ensures
            final(self).wf(),
            final(self)@ == spec_push(old(self)@, key@, value@, front).0,
            reply_of(r) == spec_push(old(self)@, key@, value@, front).1,
    {
        let ghost m0 = self@;
        let value_object = RedisObject::new_from_bytes(value.as_slice());
        let zip_entry = match ZipEntry::from_redis_object(value_object) {
            Ok(e) => e,
            Err(_) => {
                return RedisResult::Error(RedisError::Other("list entry too large".to_owned()));
            }
        };
        match self.dict.take_value(key.as_slice()) {
            Some(obj) => {
                match obj {
                    RedisObject::List(mut list) => {
                        let at: usize = if front { 0 } else { list.len() };
                        let res = list.insert(at, zip_entry);
                        let ok = res.is_ok();
                        self.dict.insert(
                            HashNode::new_from_object(
                                key.as_slice(),
                                RedisObject::List(list),
                            ),
                        );
                        if ok {
                            proof {
                                lemma_remove_insert(
                                    m0,
                                    key@,
                                    spec_push(m0, key@, value@, front).0[key@],
                                );
                            }
                            RedisResult::SimpleString("+OK\r\n")
                        } else {
                            proof {
                                lemma_restore(m0, key@);
                            }
                            RedisResult::Error(
                                RedisError::Other("list entry too large".to_owned()),
                            )
                        }
                    }
                    other => {
                        self.dict.insert(
                            HashNode::new_from_object(key.as_slice(), other),
                        );
                        proof {
                            lemma_restore(m0, key@);
                        }
                        RedisResult::Error(
                            RedisError::CommandError(CommandError::WrongType),
                        )
                    }
                }
            }
            None => {
                let mut new_zip_list = ZipList::new();
                let res = new_zip_list.push(zip_entry);
                match res {
                    Ok(()) => {
                        self.dict.insert(
                            HashNode::new_from_object(
                                key.as_slice(),
                                RedisObject::List(new_zip_list),
                            ),
                        );
                        proof {
                            lemma_remove_insert(
                                m0,
                                key@,
                                spec_push(m0, key@, value@, front).0[key@],
                            );
                            assert(Seq::<EntrySpec>::empty().push(
                                spec_push_entry(value@),
                            ) =~= seq![spec_push_entry(value@)]);
                        }
                        RedisResult::SimpleString("+OK\r\n")
                    }
                    Err(_) => {
                        proof {
                            lemma_remove_insert(m0, key@, m0.remove(key@)[key@]);
                            assert_maps_equal!(m0.remove(key@), m0, k2 => {});
                            assert(Seq::<EntrySpec>::empty().push(
                                spec_push_entry(value@),
                            ) =~= seq![spec_push_entry(value@)]);
                        }
                        RedisResult::Error(
                            RedisError::Other("list entry too large".to_owned()),
                        )
                    }
                }
            }
        }
    }

    /// Removes and returns one end of the list under `key`.
    #[verifier::rlimit(100)]
    #[verifier::spinoff_prover]
    fn pop_value(&mut self, key: &Vec<u8>, front: bool) -> (r: RedisResult)
        requires
            old(self).wf(),
        ensures
            final(self).wf(),
            final(self)@ == spec_pop(old(self)@, key@, front).0,
            reply_of(r) == spec_pop(old(self)@, key@, front).1,
    {
        let ghost m0 = self@;
        match self.dict.take_value(key.as_slice()) {
            Some(obj) => {
                match obj {
                    RedisObject::List(mut list) => {
                        if list.len() == 0 {
                            self.dict.insert(
                                HashNode::new_from_object(
                                    key.as_slice(),
                                    RedisObject::List(list),
                                ),
                            );
                            proof {
                                lemma_restore(m0, key@);
                            }
                            let mut nil: Vec<u8> = Vec::new();
                            crate::connection::append_slice(&mut nil, "$-1\r\n".as_bytes());
                            RedisResult::BulkString(nil)
                        } else {
                            let value = if front {
                                list.pop_head()
                            } else {
                                list.pop_tail()
                            };
                            self.dict.insert(
                                HashNode::new_from_object(
                                    key.as_slice(),
                                    RedisObject::List(list),
                                ),
                            );
                            proof {
                                lemma_remove_insert(
                                    m0,
                                    key@,
                                    spec_pop(m0, key@, front).0[key@],
                                );
                                assert(!(entry_value(
                                    m0[key@]->List_0[if front { 0int } else {
                                        m0[key@]->List_0.len() - 1
                                    }],
                                ) is List));
                            }
                            let response = value.to_resp();
                            RedisResult::BulkString(response)
                        }
                    }
                    other => {
                        self.dict.insert(
                            HashNode::new_from_object(key.as_slice(), other),
                        );
                        proof {
                            lemma_restore(m0, key@);
                        }
                        RedisResult::Error(
                            RedisError::CommandError(CommandError::WrongType),
                        )
                    }
                }
            }
            None => {
                let mut nil: Vec<u8> = Vec::new();
                crate::connection::append_slice(&mut nil, "$-1\r\n".as_bytes());
                RedisResult::BulkString(nil)
            }
        }
    }
}

/// The entry a pushed value classifies to.
pub open spec fn spec_push_entry(v: Seq<u8>) -> EntrySpec {
    classify_obj(obj_of_bytes(v))->Some_0
}

} // verus!
