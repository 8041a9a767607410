use resp_kv::parse::{parse_resp_string, DecodeError};
use resp_kv::resp::{Command, RESPString};

fn decode_all(bytes: &[u8]) -> (RESPString, usize) {
    parse_resp_string(&bytes.to_vec()).expect("expected a complete value")
}

#[test]
fn encode_simple_string() {
    let v = RESPString::SimpleString(b"OK".to_vec());
    assert_eq!(v.encode(), b"+OK\r\n".to_vec());
}

#[test]
fn encode_error() {
    let v = RESPString::Error(b"Unknown command".to_vec());
    assert_eq!(v.encode(), b"-Unknown command\r\n".to_vec());
}

#[test]
fn encode_integers() {
    assert_eq!(RESPString::Integer(0).encode(), b":0\r\n".to_vec());
    assert_eq!(RESPString::Integer(-42).encode(), b":-42\r\n".to_vec());
    assert_eq!(
        RESPString::Integer(i64::MAX).encode(),
        b":9223372036854775807\r\n".to_vec()
    );
    assert_eq!(
        RESPString::Integer(i64::MIN).encode(),
        b":-9223372036854775808\r\n".to_vec()
    );
}

#[test]
fn encode_bulk_and_nulls() {
    assert_eq!(
        RESPString::BulkString(b"hello".to_vec()).encode(),
        b"$5\r\nhello\r\n".to_vec()
    );
    assert_eq!(RESPString::BulkString(Vec::new()).encode(), b"$0\r\n\r\n".to_vec());
    assert_eq!(RESPString::NullBulkString.encode(), b"$-1\r\n".to_vec());
    assert_eq!(RESPString::NullArray.encode(), b"*-1\r\n".to_vec());
}

#[test]
fn encode_array() {
    let v = RESPString::Array(vec![
        RESPString::BulkString(b"ECHO".to_vec()),
        RESPString::BulkString(b"hello".to_vec()),
    ]);
    assert_eq!(v.encode(), b"*2\r\n$4\r\nECHO\r\n$5\r\nhello\r\n".to_vec());
}

#[test]
fn round_trip_all_variants() {
    let samples = vec![
        RESPString::SimpleString(b"PONG".to_vec()),
        RESPString::Error(b"bad".to_vec()),
        RESPString::Integer(12345),
        RESPString::Integer(-7),
        RESPString::BulkString(b"with\r\ninside".to_vec()),
        RESPString::NullBulkString,
        RESPString::NullArray,
        RESPString::Array(vec![
            RESPString::Integer(1),
            RESPString::Array(vec![RESPString::BulkString(b"nested".to_vec())]),
            RESPString::NullBulkString,
        ]),
        RESPString::Array(Vec::new()),
    ];
    for v in samples {
        let bytes = v.encode();
        let (decoded, used) = decode_all(&bytes);
        assert_eq!(decoded, v);
        assert_eq!(used, bytes.len());
    }
}

#[test]
fn fragmented_input_eventually_decodes() {
    let v = RESPString::Array(vec![
        RESPString::BulkString(b"SET".to_vec()),
        RESPString::BulkString(b"foo".to_vec()),
        RESPString::BulkString(b"bar".to_vec()),
    ]);
    let bytes = v.encode();
    for cut in 0..bytes.len() {
        let first = bytes[..cut].to_vec();
        assert_eq!(
            parse_resp_string(&first),
            Err(DecodeError::NeedMoreData),
            "split at {}",
            cut
        );
        let (decoded, used) = decode_all(&bytes);
        assert_eq!(decoded, v);
        assert_eq!(used, bytes.len());
    }
}

#[test]
fn decode_leaves_pipelined_remainder() {
    let mut bytes = b"+PONG\r\n".to_vec();
    bytes.extend_from_slice(b":1\r\n");
    let (first, used) = decode_all(&bytes);
    assert_eq!(first, RESPString::SimpleString(b"PONG".to_vec()));
    assert_eq!(used, 7);
}

#[test]
fn decode_rejects_garbage() {
    assert_eq!(
        parse_resp_string(&b"?what\r\n".to_vec()),
        Err(DecodeError::MalformedInput)
    );
    assert_eq!(
        parse_resp_string(&b":abc\r\n".to_vec()),
        Err(DecodeError::MalformedInput)
    );
    assert_eq!(
        parse_resp_string(&b":007\r\n".to_vec()),
        Err(DecodeError::MalformedInput)
    );
    assert_eq!(
        parse_resp_string(&b"$3\r\nabcX\r".to_vec()),
        Err(DecodeError::MalformedInput)
    );
}

#[test]
fn decode_waits_for_more() {
    assert_eq!(parse_resp_string(&Vec::new()), Err(DecodeError::NeedMoreData));
    assert_eq!(
        parse_resp_string(&b"$10\r\nabc".to_vec()),
        Err(DecodeError::NeedMoreData)
    );
    assert_eq!(
        parse_resp_string(&b"*2\r\n$4\r\nECHO\r\n".to_vec()),
        Err(DecodeError::NeedMoreData)
    );
}

#[test]
fn to_command_ping() {
    let (v, _) = decode_all(b"*1\r\n$4\r\nPING\r\n");
    let (cmd, args) = v.to_command().expect("command frame");
    assert!(matches!(cmd, Command::Ping));
    assert!(args.is_empty());
}

#[test]
fn to_command_echo() {
    let (v, _) = decode_all(b"*2\r\n$4\r\nECHO\r\n$5\r\nhello\r\n");
    let (cmd, args) = v.to_command().expect("command frame");
    assert!(matches!(cmd, Command::Echo));
    assert_eq!(args, vec![RESPString::BulkString(b"hello".to_vec())]);
}

#[test]
fn to_command_is_case_insensitive() {
    assert!(matches!(Command::from_str(&b"PiNg".to_vec()), Command::Ping));
    assert!(matches!(Command::from_str(&b"echo".to_vec()), Command::Echo));
    assert!(matches!(Command::from_str(&b"GET".to_vec()), Command::Get));
    assert!(matches!(Command::from_str(&b"SeT".to_vec()), Command::SetCmd));
    assert!(matches!(Command::from_str(&b"nope".to_vec()), Command::Unknown));
}

#[test]
fn to_command_rejects_non_frames() {
    assert!(RESPString::SimpleString(b"PING".to_vec()).to_command().is_err());
    assert!(RESPString::Integer(3).to_command().is_err());
    assert!(RESPString::Array(Vec::new()).to_command().is_err());
    assert!(RESPString::Array(vec![RESPString::Integer(1)]).to_command().is_err());
}

#[test]
fn reply_helpers() {
    assert_eq!(RESPString::null_reply(), RESPString::NullBulkString);
    assert_eq!(RESPString::ok_reply(), RESPString::SimpleString(b"OK".to_vec()));
    assert_eq!(RESPString::null_reply().encode(), b"$-1\r\n".to_vec());
    assert_eq!(RESPString::ok_reply().encode(), b"+OK\r\n".to_vec());
}

#[test]
fn to_string_flattens_text() {
    assert_eq!(RESPString::SimpleString(b"PONG".to_vec()).to_string(), "PONG");
    assert_eq!(RESPString::Integer(-12).to_string(), "-12");
    let arr = RESPString::Array(vec![
        RESPString::BulkString(b"ab".to_vec()),
        RESPString::Integer(7),
    ]);
    assert_eq!(arr.to_string(), "ab7");
    assert_eq!(
        RESPString::BulkString(vec![0xff]).to_string(),
        "\u{FFFD}".to_string()
    );
}
