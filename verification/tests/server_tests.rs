use resp_kv::handler::{connection_step, parse_command, RespBuffer, StepResult};
use resp_kv::resp::{CommandError, RESPString};
use resp_kv::store::Store;

fn step_bytes(store: &mut Store, buf: &mut RespBuffer, bytes: &[u8]) -> StepResult {
    buf.feed(&bytes.to_vec());
    connection_step(store, buf)
}

fn expect_reply(r: StepResult) -> Vec<u8> {
    match r {
        StepResult::Reply(b) => b,
        StepResult::NeedMore => panic!("expected a reply, got NeedMore"),
        StepResult::Close => panic!("expected a reply, got Close"),
    }
}

#[test]
fn ping_end_to_end() {
    let mut store = Store::new();
    let mut buf = RespBuffer::new();
    let r = step_bytes(&mut store, &mut buf, b"*1\r\n$4\r\nPING\r\n");
    assert_eq!(expect_reply(r), b"+PONG\r\n".to_vec());
}

#[test]
fn set_then_get_end_to_end() {
    let mut store = Store::new();
    let mut buf = RespBuffer::new();
    let r = step_bytes(&mut store, &mut buf, b"*3\r\n$3\r\nSET\r\n$3\r\nfoo\r\n$3\r\nbar\r\n");
    assert_eq!(expect_reply(r), b"+OK\r\n".to_vec());
    let r = step_bytes(&mut store, &mut buf, b"*2\r\n$3\r\nGET\r\n$3\r\nfoo\r\n");
    assert_eq!(expect_reply(r), b"$3\r\nbar\r\n".to_vec());
}

#[test]
fn unknown_command_end_to_end() {
    let mut store = Store::new();
    let mut buf = RespBuffer::new();
    let r = step_bytes(&mut store, &mut buf, b"*1\r\n$4\r\nNOPE\r\n");
    assert_eq!(expect_reply(r), b"-Unknown command\r\n".to_vec());
}

#[test]
fn get_of_absent_key_is_null() {
    let mut store = Store::new();
    let mut buf = RespBuffer::new();
    let r = step_bytes(&mut store, &mut buf, b"*2\r\n$3\r\nGET\r\n$7\r\nmissing\r\n");
    assert_eq!(expect_reply(r), b"$-1\r\n".to_vec());
}

#[test]
fn fragmented_request_needs_more_then_replies() {
    let mut store = Store::new();
    let mut buf = RespBuffer::new();
    let r = step_bytes(&mut store, &mut buf, b"*1\r\n$4\r\nPI");
    assert!(matches!(r, StepResult::NeedMore));
    let r = step_bytes(&mut store, &mut buf, b"NG\r\n");
    assert_eq!(expect_reply(r), b"+PONG\r\n".to_vec());
}

#[test]
fn pipelined_requests_are_answered_in_order() {
    let mut store = Store::new();
    let mut buf = RespBuffer::new();
    buf.feed(&b"*1\r\n$4\r\nPING\r\n*1\r\n$4\r\nPING\r\n".to_vec());
    let r = connection_step(&mut store, &mut buf);
    assert_eq!(expect_reply(r), b"+PONG\r\n".to_vec());
    let r = connection_step(&mut store, &mut buf);
    assert_eq!(expect_reply(r), b"+PONG\r\n".to_vec());
    let r = connection_step(&mut store, &mut buf);
    assert!(matches!(r, StepResult::NeedMore));
}

#[test]
fn malformed_stream_closes() {
    let mut store = Store::new();
    let mut buf = RespBuffer::new();
    let r = step_bytes(&mut store, &mut buf, b"?bogus\r\n");
    assert!(matches!(r, StepResult::Close));
}

#[test]
fn non_command_value_closes() {
    let mut store = Store::new();
    let mut buf = RespBuffer::new();
    let r = step_bytes(&mut store, &mut buf, b"+PING\r\n");
    assert!(matches!(r, StepResult::Close));
}

#[test]
fn echo_replies_with_argument() {
    let mut store = Store::new();
    let input = RESPString::Array(vec![
        RESPString::BulkString(b"ECHO".to_vec()),
        RESPString::BulkString(b"hello".to_vec()),
    ]);
    let reply = parse_command(&mut store, &input).expect("echo succeeds");
    assert_eq!(reply, RESPString::BulkString(b"hello".to_vec()));
}

#[test]
fn echo_without_argument_is_an_error() {
    let mut store = Store::new();
    let input = RESPString::Array(vec![RESPString::BulkString(b"ECHO".to_vec())]);
    assert_eq!(
        parse_command(&mut store, &input),
        Err(CommandError::MissingArgument)
    );
}

#[test]
fn get_and_set_with_missing_arguments_reply_null() {
    let mut store = Store::new();
    let get_bare = RESPString::Array(vec![RESPString::BulkString(b"GET".to_vec())]);
    assert_eq!(
        parse_command(&mut store, &get_bare),
        Ok(RESPString::NullBulkString)
    );
    let set_half = RESPString::Array(vec![
        RESPString::BulkString(b"SET".to_vec()),
        RESPString::BulkString(b"k".to_vec()),
    ]);
    assert_eq!(
        parse_command(&mut store, &set_half),
        Ok(RESPString::NullBulkString)
    );
}

#[test]
fn non_array_input_is_invalid_command() {
    let mut store = Store::new();
    assert_eq!(
        parse_command(&mut store, &RESPString::Integer(5)),
        Err(CommandError::InvalidCommand)
    );
}

#[test]
fn interleaved_connections_on_disjoint_keys_observe_their_own_writes() {
    // Two connections, one shared store, linearized alternation.
    let mut store = Store::new();
    let mut buf_a = RespBuffer::new();
    let mut buf_b = RespBuffer::new();
    let r = step_bytes(&mut store, &mut buf_a, b"*3\r\n$3\r\nSET\r\n$2\r\nka\r\n$2\r\nva\r\n");
    assert_eq!(expect_reply(r), b"+OK\r\n".to_vec());
    let r = step_bytes(&mut store, &mut buf_b, b"*3\r\n$3\r\nSET\r\n$2\r\nkb\r\n$2\r\nvb\r\n");
    assert_eq!(expect_reply(r), b"+OK\r\n".to_vec());
    let r = step_bytes(&mut store, &mut buf_a, b"*2\r\n$3\r\nGET\r\n$2\r\nka\r\n");
    assert_eq!(expect_reply(r), b"$2\r\nva\r\n".to_vec());
    let r = step_bytes(&mut store, &mut buf_b, b"*2\r\n$3\r\nGET\r\n$2\r\nkb\r\n");
    assert_eq!(expect_reply(r), b"$2\r\nvb\r\n".to_vec());
}
