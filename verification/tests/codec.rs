use resp_kv::parser::{
    consume_crlf, parse_array, parse_bulk_string, parse_error, parse_integer, parse_resp,
    parse_retain_cmd, parse_simple_string, parse_until_crlf, parse_value, ParseError, RespType,
};
use resp_kv::stream::parse_frames;

fn bulk(s: &str) -> RespType {
    RespType::BulkString(s.as_bytes().to_vec())
}

fn command(words: &[&str]) -> RespType {
    RespType::Array(words.iter().map(|w| bulk(w)).collect())
}

#[test]
fn ping_command_is_read() {
    let input = b"*1\r\n$4\r\nPING\r\n";
    assert_eq!(parse_resp(input), Ok((command(&["PING"]), 14)));
}

#[test]
fn pong_reply_is_written() {
    let reply = RespType::SimpleString(b"PONG".to_vec());
    assert_eq!(reply.to_resp_string(), b"+PONG\r\n".to_vec());
}

#[test]
fn echo_command_is_read() {
    let input = b"*2\r\n$4\r\nECHO\r\n$5\r\nhello\r\n";
    assert_eq!(parse_resp(input), Ok((command(&["ECHO", "hello"]), input.len())));
    assert_eq!(bulk("hello").to_resp_string(), b"$5\r\nhello\r\n".to_vec());
}

#[test]
fn every_kind_is_written_byte_for_byte() {
    assert_eq!(RespType::Error(b"ERR x".to_vec()).to_resp_string(), b"-ERR x\r\n".to_vec());
    assert_eq!(RespType::Integer(0).to_resp_string(), b":0\r\n".to_vec());
    assert_eq!(RespType::Integer(-42).to_resp_string(), b":-42\r\n".to_vec());
    assert_eq!(
        RespType::Integer(i64::MAX).to_resp_string(),
        b":9223372036854775807\r\n".to_vec()
    );
    assert_eq!(
        RespType::Integer(i64::MIN).to_resp_string(),
        b":-9223372036854775808\r\n".to_vec()
    );
    assert_eq!(RespType::BulkString(Vec::new()).to_resp_string(), b"$0\r\n\r\n".to_vec());
    assert_eq!(RespType::NullBulkString.to_resp_string(), b"$-1\r\n".to_vec());
    assert_eq!(RespType::NullArray.to_resp_string(), b"*-1\r\n".to_vec());
    assert_eq!(RespType::Array(Vec::new()).to_resp_string(), b"*0\r\n".to_vec());
    assert_eq!(
        RespType::Array(vec![RespType::Integer(1), RespType::NullBulkString]).to_resp_string(),
        b"*2\r\n:1\r\n$-1\r\n".to_vec()
    );
}

#[test]
fn a_long_bulk_string_has_its_length_in_decimal() {
    let payload = vec![b'x'; 1234];
    let mut expected = b"$1234\r\n".to_vec();
    expected.extend_from_slice(&payload);
    expected.extend_from_slice(b"\r\n");
    assert_eq!(RespType::BulkString(payload).to_resp_string(), expected);
}

fn samples() -> Vec<RespType> {
    vec![
        RespType::SimpleString(b"OK".to_vec()),
        RespType::SimpleString(Vec::new()),
        RespType::Error(b"ERR unknown command".to_vec()),
        RespType::Integer(0),
        RespType::Integer(-1),
        RespType::Integer(1234567890123),
        RespType::Integer(i64::MIN),
        RespType::Integer(i64::MAX),
        RespType::BulkString(Vec::new()),
        RespType::BulkString(b"a\r\nb".to_vec()),
        RespType::BulkString(vec![0, 255, 13, 10, 36, 42]),
        RespType::NullBulkString,
        RespType::NullArray,
        RespType::Array(Vec::new()),
        command(&["SET", "k", "v", "PX", "100"]),
        RespType::Array(vec![
            RespType::Array(vec![RespType::Integer(7), RespType::NullArray]),
            RespType::BulkString(b"+-:$*".to_vec()),
            RespType::Array(Vec::new()),
            RespType::SimpleString(b"x".to_vec()),
        ]),
    ]
}

#[test]
fn what_is_written_reads_back() {
    for frame in samples() {
        let wire = frame.to_resp_string();
        assert_eq!(parse_resp(&wire), Ok((frame.clone(), wire.len())));
        assert_eq!(parse_value(&wire), Ok((frame, wire.len())));
    }
}

#[test]
fn every_proper_start_of_a_frame_needs_more() {
    for frame in samples() {
        let wire = frame.to_resp_string();
        for cut in 0..wire.len() {
            assert_eq!(parse_resp(&wire[..cut]), Err(ParseError::NeedMore), "{:?} cut at {}", frame, cut);
        }
    }
}

#[test]
fn bytes_behind_a_frame_are_left_alone() {
    let input = b"+OK\r\n+NEXT";
    assert_eq!(parse_resp(input), Ok((RespType::SimpleString(b"OK".to_vec()), 5)));
    let input = b"$3\r\nfoo\r\n\xff\xff";
    assert_eq!(parse_resp(input), Ok((bulk("foo"), 9)));
}

#[test]
fn frames_one_after_the_other_read_back_with_no_residue() {
    let frames = samples();
    let mut wire = Vec::new();
    for frame in &frames {
        wire.extend_from_slice(&frame.to_resp_string());
    }
    let read = parse_frames(&wire);
    assert_eq!(read.frames, frames);
    assert_eq!(read.used, wire.len());
    assert!(!read.broken);
}

#[test]
fn parse_frames_stops_at_a_partial_frame() {
    let read = parse_frames(b"+OK\r\n:12\r\n$5\r\nhel");
    assert_eq!(
        read.frames,
        vec![RespType::SimpleString(b"OK".to_vec()), RespType::Integer(12)]
    );
    assert_eq!(read.used, 10);
    assert!(!read.broken);
}

#[test]
fn parse_frames_reports_a_protocol_error_behind_whole_frames() {
    let read = parse_frames(b"+OK\r\n?what");
    assert_eq!(read.frames, vec![RespType::SimpleString(b"OK".to_vec())]);
    assert_eq!(read.used, 5);
    assert!(read.broken);
    let read = parse_frames(b"");
    assert!(read.frames.is_empty());
    assert_eq!(read.used, 0);
    assert!(!read.broken);
}

#[test]
fn an_invalid_type_byte_is_a_protocol_error() {
    assert_eq!(parse_resp(b"?\r\n"), Err(ParseError::Protocol));
    assert_eq!(parse_resp(b"PING\r\n"), Err(ParseError::Protocol));
    assert_eq!(parse_resp(b"\r\n"), Err(ParseError::Protocol));
}

#[test]
fn a_length_that_is_not_decimal_is_a_protocol_error() {
    assert_eq!(parse_resp(b"$abc\r\n"), Err(ParseError::Protocol));
    assert_eq!(parse_resp(b"$\r\n"), Err(ParseError::Protocol));
    assert_eq!(parse_resp(b"$1x"), Err(ParseError::Protocol));
    assert_eq!(parse_resp(b"*1 \r\n"), Err(ParseError::Protocol));
    assert_eq!(parse_resp(b"$+3\r\nfoo\r\n"), Err(ParseError::Protocol));
    assert_eq!(parse_resp(b"$03\r\nfoo\r\n"), Err(ParseError::Protocol));
    assert_eq!(parse_resp(b"*00\r\n"), Err(ParseError::Protocol));
    assert_eq!(parse_resp(b"$99999999999999999999\r\n"), Err(ParseError::Protocol));
    assert_eq!(parse_resp(b"*18446744073709551616\r\n"), Err(ParseError::Protocol));
}

#[test]
fn a_negative_length_other_than_minus_one_is_a_protocol_error() {
    assert_eq!(parse_resp(b"$-2\r\n"), Err(ParseError::Protocol));
    assert_eq!(parse_resp(b"*-2\r\n"), Err(ParseError::Protocol));
    assert_eq!(parse_resp(b"$-10\r\n"), Err(ParseError::Protocol));
    assert_eq!(parse_resp(b"$-0\r\n"), Err(ParseError::Protocol));
    assert_eq!(parse_resp(b"$-"), Err(ParseError::NeedMore));
    assert_eq!(parse_resp(b"$-1\r\n"), Ok((RespType::NullBulkString, 5)));
    assert_eq!(parse_resp(b"*-1\r\n"), Ok((RespType::NullArray, 5)));
}

#[test]
fn a_missing_crlf_is_a_protocol_error() {
    assert_eq!(parse_resp(b"$3\r\nfooXY"), Err(ParseError::Protocol));
    assert_eq!(parse_resp(b"$3\r\nfoo\rY"), Err(ParseError::Protocol));
    assert_eq!(parse_resp(b"$3\r\nfoo\n"), Err(ParseError::Protocol));
    assert_eq!(parse_resp(b"+OK\n"), Err(ParseError::Protocol));
    assert_eq!(parse_resp(b"+OK\rX"), Err(ParseError::Protocol));
    assert_eq!(parse_resp(b":12\r\r\n"), Err(ParseError::Protocol));
    assert_eq!(parse_resp(b"$3\r\nfoo"), Err(ParseError::NeedMore));
    assert_eq!(parse_resp(b"$3\r\nfoo\r"), Err(ParseError::NeedMore));
}

#[test]
fn integers_are_read_in_canonical_decimal_only() {
    assert_eq!(parse_resp(b":0\r\n"), Ok((RespType::Integer(0), 4)));
    assert_eq!(parse_resp(b":-7\r\n"), Ok((RespType::Integer(-7), 5)));
    assert_eq!(
        parse_resp(b":-9223372036854775808\r\n"),
        Ok((RespType::Integer(i64::MIN), 23))
    );
    assert_eq!(
        parse_resp(b":9223372036854775807\r\n"),
        Ok((RespType::Integer(i64::MAX), 22))
    );
    assert_eq!(parse_resp(b":9223372036854775808\r\n"), Err(ParseError::Protocol));
    assert_eq!(parse_resp(b":9223372036854775808"), Err(ParseError::Protocol));
    assert_eq!(parse_resp(b":-9223372036854775809\r\n"), Err(ParseError::Protocol));
    assert_eq!(parse_resp(b":+7\r\n"), Err(ParseError::Protocol));
    assert_eq!(parse_resp(b":007\r\n"), Err(ParseError::Protocol));
    assert_eq!(parse_resp(b":-0\r\n"), Err(ParseError::Protocol));
    assert_eq!(parse_resp(b":\r\n"), Err(ParseError::Protocol));
    assert_eq!(parse_resp(b":1a\r\n"), Err(ParseError::Protocol));
    assert_eq!(parse_resp(b":"), Err(ParseError::NeedMore));
    assert_eq!(parse_resp(b":-"), Err(ParseError::NeedMore));
    assert_eq!(parse_resp(b":12"), Err(ParseError::NeedMore));
    assert_eq!(parse_resp(b":12\r"), Err(ParseError::NeedMore));
}

#[test]
fn a_bulk_string_is_taken_byte_for_byte() {
    let input = [b'$', b'4', 13, 10, 0xff, 0x00, 13, 10, 13, 10];
    assert_eq!(
        parse_resp(&input),
        Ok((RespType::BulkString(vec![0xff, 0x00, 13, 10]), 10))
    );
}

#[test]
fn an_array_fails_as_its_elements_fail() {
    assert_eq!(parse_resp(b"*2\r\n+a\r\n"), Err(ParseError::NeedMore));
    assert_eq!(parse_resp(b"*2\r\n+a\r\n?"), Err(ParseError::Protocol));
    assert_eq!(parse_resp(b"*2\r\n+a\r\n$-2\r\n"), Err(ParseError::Protocol));
    assert_eq!(parse_resp(b"*1\r\n*1\r\n*1\r\n:5"), Err(ParseError::NeedMore));
    assert_eq!(
        parse_resp(b"*1\r\n*1\r\n*1\r\n:5\r\n"),
        Ok((
            RespType::Array(vec![RespType::Array(vec![RespType::Array(vec![
                RespType::Integer(5)
            ])])]),
            16
        ))
    );
}

#[test]
fn the_reader_of_one_kind_refuses_the_others() {
    assert_eq!(parse_simple_string(b"+hi\r\n"), Ok((RespType::SimpleString(b"hi".to_vec()), 5)));
    assert_eq!(parse_simple_string(b"-hi\r\n"), Err(ParseError::Protocol));
    assert_eq!(parse_simple_string(b""), Err(ParseError::NeedMore));
    assert_eq!(parse_error(b"-ERR\r\n"), Ok((RespType::Error(b"ERR".to_vec()), 6)));
    assert_eq!(parse_error(b"+ERR\r\n"), Err(ParseError::Protocol));
    assert_eq!(parse_integer(b":5\r\n"), Ok((RespType::Integer(5), 4)));
    assert_eq!(parse_integer(b"$5\r\n"), Err(ParseError::Protocol));
    assert_eq!(parse_bulk_string(b"$2\r\nhi\r\n"), Ok((bulk("hi"), 8)));
    assert_eq!(parse_bulk_string(b"$0\r\n\r\n"), Ok((RespType::BulkString(Vec::new()), 6)));
    assert_eq!(parse_bulk_string(b"*0\r\n"), Err(ParseError::Protocol));
    assert_eq!(parse_bulk_string(b"$2\r\nh"), Err(ParseError::NeedMore));
    assert_eq!(parse_array(b"*0\r\n"), Ok((RespType::Array(Vec::new()), 4)));
    assert_eq!(parse_array(b"$0\r\n\r\n"), Err(ParseError::Protocol));
    assert_eq!(parse_array(b"*1\r\n"), Err(ParseError::NeedMore));
}

#[test]
fn a_header_line_ends_at_crlf() {
    assert_eq!(parse_until_crlf(b"abc\r\ndef"), Ok((b"abc".to_vec(), 5)));
    assert_eq!(parse_until_crlf(b"\r\n"), Ok((Vec::new(), 2)));
    assert_eq!(parse_until_crlf(b"abc"), Err(ParseError::NeedMore));
    assert_eq!(parse_until_crlf(b"abc\r"), Err(ParseError::NeedMore));
    assert_eq!(parse_until_crlf(b""), Err(ParseError::NeedMore));
    assert_eq!(parse_until_crlf(b"abc\n"), Err(ParseError::Protocol));
    assert_eq!(parse_until_crlf(b"abc\rd"), Err(ParseError::Protocol));
}

#[test]
fn crlf_is_taken_or_refused() {
    assert_eq!(consume_crlf(b"\r\nrest"), Ok(()));
    assert_eq!(consume_crlf(b""), Err(ParseError::NeedMore));
    assert_eq!(consume_crlf(b"\r"), Err(ParseError::NeedMore));
    assert_eq!(consume_crlf(b"\n"), Err(ParseError::Protocol));
    assert_eq!(consume_crlf(b"\rx"), Err(ParseError::Protocol));
    assert_eq!(consume_crlf(b"x\r\n"), Err(ParseError::Protocol));
}

#[test]
fn the_listening_port_command_is_recognised() {
    assert!(parse_retain_cmd(&command(&["REPLCONF", "listening-port", "6380"])));
    assert!(parse_retain_cmd(&command(&["replconf", "LISTENING-PORT", "1"])));
    assert!(!parse_retain_cmd(&command(&["REPLCONF", "listening-port", "65536"])));
    assert!(!parse_retain_cmd(&command(&["REPLCONF", "listening-port", "port"])));
    assert!(!parse_retain_cmd(&command(&["REPLCONF", "capa", "psync2"])));
    assert!(!parse_retain_cmd(&command(&["REPLCONF", "listening-port"])));
    assert!(!parse_retain_cmd(&command(&["PING"])));
    assert!(!parse_retain_cmd(&RespType::NullArray));
    assert!(!parse_retain_cmd(&RespType::Array(vec![
        bulk("REPLCONF"),
        bulk("listening-port"),
        RespType::Integer(6380),
    ])));
}

#[test]
fn a_copy_is_equal_to_the_frame_it_was_made_of() {
    for frame in samples() {
        assert_eq!(frame.duplicate(), frame);
    }
}
