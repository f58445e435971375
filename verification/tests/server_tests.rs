use redis::connection::{process_read_buffer, ReadBuffer, WriteBuffer};
use redis::engine::Redis;
use redis::parser::CommandParseState;

fn feed(
    redis: &mut Redis,
    read_buffer: &mut ReadBuffer,
    parse_state: &mut CommandParseState,
    input: &[u8],
) -> Vec<u8> {
    read_buffer.buf.extend_from_slice(input);
    let mut write_buffer = WriteBuffer::new();
    process_read_buffer(redis, read_buffer, parse_state, &mut write_buffer);
    write_buffer.buf
}

#[test]
fn test_set_then_get() {
    let mut redis = Redis::new();
    let mut rb = ReadBuffer::new();
    let mut ps = CommandParseState::new();
    let reply = feed(&mut redis, &mut rb, &mut ps, b"*3\r\n$3\r\nSET\r\n$3\r\nfoo\r\n$3\r\nbar\r\n");
    assert_eq!(reply, b"+OK\r\n".to_vec());
    let reply = feed(&mut redis, &mut rb, &mut ps, b"*2\r\n$3\r\nGET\r\n$3\r\nfoo\r\n");
    assert_eq!(reply, b"$3\r\nbar\r\n".to_vec());
}

#[test]
fn test_del_then_get_missing() {
    let mut redis = Redis::new();
    let mut rb = ReadBuffer::new();
    let mut ps = CommandParseState::new();
    let reply = feed(&mut redis, &mut rb, &mut ps, b"*3\r\n$3\r\nSET\r\n$3\r\nfoo\r\n$3\r\nbar\r\n");
    assert_eq!(reply, b"+OK\r\n".to_vec());
    let reply = feed(&mut redis, &mut rb, &mut ps, b"*2\r\n$3\r\nDEL\r\n$3\r\nfoo\r\n");
    assert_eq!(reply, b":1\r\n".to_vec());
    let reply = feed(&mut redis, &mut rb, &mut ps, b"*2\r\n$3\r\nGET\r\n$3\r\nfoo\r\n");
    assert_eq!(reply, b"$-1\r\n".to_vec());
}

#[test]
fn test_pipelined_commands_in_one_write() {
    let mut redis = Redis::new();
    let mut rb = ReadBuffer::new();
    let mut ps = CommandParseState::new();
    let reply = feed(
        &mut redis,
        &mut rb,
        &mut ps,
        b"*3\r\n$3\r\nSET\r\n$3\r\nfoo\r\n$3\r\nbar\r\n*2\r\n$3\r\nGET\r\n$3\r\nfoo\r\n",
    );
    assert_eq!(reply, b"+OK\r\n$3\r\nbar\r\n".to_vec());
}

#[test]
fn test_byte_by_byte_delivery() {
    let mut redis = Redis::new();
    let mut rb = ReadBuffer::new();
    let mut ps = CommandParseState::new();
    let _ = feed(&mut redis, &mut rb, &mut ps, b"*3\r\n$3\r\nSET\r\n$3\r\nfoo\r\n$3\r\nbar\r\n");
    let message: &[u8] = b"*2\r\n$3\r\nDEL\r\n$3\r\nfoo\r\n";
    assert_eq!(message.len(), 22);
    let mut collected = Vec::new();
    for (i, b) in message.iter().enumerate() {
        let reply = feed(&mut redis, &mut rb, &mut ps, &[*b]);
        if i + 1 < message.len() {
            assert!(reply.is_empty(), "reply before the final byte");
        }
        collected.extend_from_slice(&reply);
    }
    assert_eq!(collected, b":1\r\n".to_vec());
}

#[test]
fn test_multi_key_del() {
    let mut redis = Redis::new();
    let mut rb = ReadBuffer::new();
    let mut ps = CommandParseState::new();
    let _ = feed(&mut redis, &mut rb, &mut ps, b"*3\r\n$3\r\nSET\r\n$3\r\nfoo\r\n$1\r\nx\r\n");
    let _ = feed(&mut redis, &mut rb, &mut ps, b"*3\r\n$3\r\nSET\r\n$5\r\nhello\r\n$1\r\ny\r\n");
    let reply = feed(
        &mut redis,
        &mut rb,
        &mut ps,
        b"*3\r\n$3\r\nDEL\r\n$3\r\nfoo\r\n$5\r\nhello\r\n",
    );
    assert_eq!(reply, b":2\r\n".to_vec());
}

#[test]
fn test_stress_many_keys() {
    let mut redis = Redis::new();
    let mut rb = ReadBuffer::new();
    let mut ps = CommandParseState::new();
    for i in 0..10000 {
        let req = format!("*3\r\n$3\r\nSET\r\n${}\r\nkey_{}\r\n${}\r\nvalue_{}\r\n",
            format!("key_{}", i).len(), i, format!("value_{}", i).len(), i);
        let reply = feed(&mut redis, &mut rb, &mut ps, req.as_bytes());
        assert_eq!(reply, b"+OK\r\n".to_vec());
    }
    for i in 0..10000 {
        let key = format!("key_{}", i);
        let val = format!("value_{}", i);
        let req = format!("*2\r\n$3\r\nGET\r\n${}\r\n{}\r\n", key.len(), key);
        let reply = feed(&mut redis, &mut rb, &mut ps, req.as_bytes());
        let expected = format!("${}\r\n{}\r\n", val.len(), val);
        assert_eq!(reply, expected.as_bytes().to_vec());
    }
}

#[test]
fn test_parser_resync_after_malformed() {
    // A malformed command earns its error reply; parsing resumes at the next
    // `*` and the following valid command still runs.
    let mut redis = Redis::new();
    let mut rb = ReadBuffer::new();
    let mut ps = CommandParseState::new();
    let _ = feed(&mut redis, &mut rb, &mut ps, b"*3\r\n$3\r\nSET\r\n$3\r\nfoo\r\n$3\r\nbar\r\n");
    let reply = feed(&mut redis, &mut rb, &mut ps, b"X*2\r\n$3\r\nGET\r\n$3\r\nfoo\r\n");
    let mut expected = b"-ERR Protocol error: expected: '*', got: 'X'\r\n".to_vec();
    expected.extend_from_slice(b"$3\r\nbar\r\n");
    assert_eq!(reply, expected);

    // a bad byte inside an element resynchronizes the same way
    let reply = feed(&mut redis, &mut rb, &mut ps, b"*1\r\n$z\r\n*2\r\n$3\r\nGET\r\n$3\r\nfoo\r\n");
    let mut expected = b"-ERR Protocol error: unexpected byte: 'z'\r\n".to_vec();
    expected.extend_from_slice(b"$3\r\nbar\r\n");
    assert_eq!(reply, expected);
}

#[test]
fn test_unknown_command_and_arity_errors() {
    let mut redis = Redis::new();
    let mut rb = ReadBuffer::new();
    let mut ps = CommandParseState::new();
    let reply = feed(&mut redis, &mut rb, &mut ps, b"*1\r\n$4\r\nPING\r\n");
    assert_eq!(reply, b"-ERR unknown command 'PING'\r\n".to_vec());
    let reply = feed(&mut redis, &mut rb, &mut ps, b"*2\r\n$3\r\nSET\r\n$3\r\nfoo\r\n");
    assert_eq!(
        reply,
        b"-ERR wrong number of arguments for 'SET' command\r\n".to_vec()
    );
    // command names match case-insensitively
    let reply = feed(&mut redis, &mut rb, &mut ps, b"*3\r\n$3\r\nset\r\n$1\r\na\r\n$1\r\nb\r\n");
    assert_eq!(reply, b"+OK\r\n".to_vec());
}

#[test]
fn test_list_commands_round_trip() {
    let mut redis = Redis::new();
    let mut rb = ReadBuffer::new();
    let mut ps = CommandParseState::new();
    let reply = feed(&mut redis, &mut rb, &mut ps, b"*3\r\n$5\r\nRPUSH\r\n$1\r\nl\r\n$1\r\na\r\n");
    assert_eq!(reply, b"+OK\r\n".to_vec());
    let reply = feed(&mut redis, &mut rb, &mut ps, b"*3\r\n$5\r\nRPUSH\r\n$1\r\nl\r\n$1\r\nb\r\n");
    assert_eq!(reply, b"+OK\r\n".to_vec());
    let reply = feed(&mut redis, &mut rb, &mut ps, b"*3\r\n$5\r\nLPUSH\r\n$1\r\nl\r\n$2\r\n42\r\n");
    assert_eq!(reply, b"+OK\r\n".to_vec());
    // list now holds 42, a, b
    let reply = feed(&mut redis, &mut rb, &mut ps, b"*2\r\n$4\r\nLPOP\r\n$1\r\nl\r\n");
    assert_eq!(reply, b"$2\r\n42\r\n".to_vec());
    let reply = feed(&mut redis, &mut rb, &mut ps, b"*2\r\n$4\r\nRPOP\r\n$1\r\nl\r\n");
    assert_eq!(reply, b"$1\r\nb\r\n".to_vec());
    let reply = feed(&mut redis, &mut rb, &mut ps, b"*2\r\n$4\r\nLPOP\r\n$1\r\nl\r\n");
    assert_eq!(reply, b"$1\r\na\r\n".to_vec());
    // popping an empty list yields the nil bulk reply
    let reply = feed(&mut redis, &mut rb, &mut ps, b"*2\r\n$4\r\nLPOP\r\n$1\r\nl\r\n");
    assert_eq!(reply, b"$-1\r\n".to_vec());
    // a pop on a missing key yields nil as well
    let reply = feed(&mut redis, &mut rb, &mut ps, b"*2\r\n$4\r\nRPOP\r\n$1\r\nq\r\n");
    assert_eq!(reply, b"$-1\r\n".to_vec());
}

#[test]
fn test_wrongtype_on_list_commands() {
    let mut redis = Redis::new();
    let mut rb = ReadBuffer::new();
    let mut ps = CommandParseState::new();
    let _ = feed(&mut redis, &mut rb, &mut ps, b"*3\r\n$3\r\nSET\r\n$1\r\nk\r\n$1\r\nv\r\n");
    let reply = feed(&mut redis, &mut rb, &mut ps, b"*3\r\n$5\r\nLPUSH\r\n$1\r\nk\r\n$1\r\nx\r\n");
    assert_eq!(
        reply,
        b"-ERR WRONGTYPE Operation against a key holding the wrong kind of value\r\n".to_vec()
    );
    // the stored string survives the failed list operation
    let reply = feed(&mut redis, &mut rb, &mut ps, b"*2\r\n$3\r\nGET\r\n$1\r\nk\r\n");
    assert_eq!(reply, b"$1\r\nv\r\n".to_vec());
    // GET on a list answers with the same error
    let _ = feed(&mut redis, &mut rb, &mut ps, b"*3\r\n$5\r\nRPUSH\r\n$1\r\nl\r\n$1\r\na\r\n");
    let reply = feed(&mut redis, &mut rb, &mut ps, b"*2\r\n$3\r\nGET\r\n$1\r\nl\r\n");
    assert_eq!(
        reply,
        b"-ERR WRONGTYPE Operation against a key holding the wrong kind of value\r\n".to_vec()
    );
}
