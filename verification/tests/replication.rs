use resp_kv::connection::{Connection, Phase};
use resp_kv::parser::{ParseError, RespType};
use resp_kv::replica::{is_getack, parse_rdb_bulk, LinkState, ReplicaLink};
use resp_kv::server::{ServerAddr, ServerState};
use resp_kv::snapshot::decode_hex;

const REPL_ID: &str = "8371b4fb1155b71f4a04d3e1bc3e18c4a990aeeb";
const EMPTY_RDB: &str = "524544495330303131fa0972656469732d76657205372e322e30fa0a72656469732d62697473c040fa056374696d65c26d08bc65fa08757365642d6d656dc2b0c41000fa08616f662d62617365c000fff06e3bfec0ff5aa2";

fn bulk(s: &str) -> RespType {
    RespType::BulkString(s.as_bytes().to_vec())
}

fn command(words: &[&str]) -> RespType {
    RespType::Array(words.iter().map(|w| bulk(w)).collect())
}

fn wire(words: &[&str]) -> Vec<u8> {
    command(words).to_resp_string()
}

fn master() -> ServerState {
    ServerState::new(6379, None)
}

fn replica() -> ServerState {
    ServerState::new(6380, Some(ServerAddr::new("127.0.0.1".to_string(), 6379)))
}

/// The bytes of the empty database file, decoded by hand.
fn rdb() -> Vec<u8> {
    let digits: Vec<u8> = EMPTY_RDB
        .bytes()
        .map(|c| match c {
            b'0'..=b'9' => c - b'0',
            _ => c - b'a' + 10,
        })
        .collect();
    digits.chunks(2).map(|pair| pair[0] * 16 + pair[1]).collect()
}

fn snapshot() -> Vec<u8> {
    let mut out = b"$88\r\n".to_vec();
    out.extend_from_slice(&rdb());
    out
}

#[test]
fn hexadecimal_text_is_decoded() {
    assert_eq!(decode_hex(b"48656c6c6f"), Some(b"Hello".to_vec()));
    assert_eq!(decode_hex(b"00ff7F"), Some(vec![0, 255, 127]));
    assert_eq!(decode_hex(b"aAbBcC"), Some(vec![0xaa, 0xbb, 0xcc]));
    assert_eq!(decode_hex(b""), Some(Vec::new()));
    assert_eq!(decode_hex(b"123"), None);
    assert_eq!(decode_hex(b"0g"), None);
    assert_eq!(decode_hex(b"zz"), None);
    assert_eq!(decode_hex(b" 1"), None);
}

#[test]
fn the_snapshot_is_the_empty_database_file() {
    let srv = master();
    let (header, payload) = srv.full_resync();
    assert_eq!(header, b"$88\r\n".to_vec());
    assert_eq!(payload.len(), 88);
    assert_eq!(&payload[..9], b"REDIS0011");
    assert_eq!(payload[87], 0xa2);
    assert_eq!(payload, rdb());
}

#[test]
fn the_master_answers_the_handshake() {
    let mut srv = master();
    let mut conn = Connection::new(1);
    let out = conn.handle_client(&mut srv, b"*1\r\n$4\r\nPING\r\n", 0);
    assert_eq!(out.reply, b"+PONG\r\n".to_vec());
    let out = conn.handle_client(&mut srv, &wire(&["REPLCONF", "listening-port", "6380"]), 0);
    assert_eq!(out.reply, b"+OK\r\n".to_vec());
    assert!(srv.attached_slaves().is_empty());
    let out = conn.handle_client(&mut srv, &wire(&["REPLCONF", "capa", "psync2"]), 0);
    assert_eq!(out.reply, b"+OK\r\n".to_vec());
    assert_eq!(conn.phase(), Phase::Client);
    let out = conn.handle_client(&mut srv, &wire(&["PSYNC", "?", "-1"]), 0);
    let mut expected = format!("+FULLRESYNC {} 0\r\n", REPL_ID).into_bytes();
    expected.extend_from_slice(&snapshot());
    assert_eq!(out.reply, expected);
    assert_eq!(out.reply.len(), 56 + 5 + 88);
    assert!(out.propagate.is_empty());
    assert!(out.targets.is_empty());
    assert!(!out.close);
    assert_eq!(conn.phase(), Phase::Attached);
    assert_eq!(srv.attached_slaves(), vec![1]);
}

#[test]
fn a_set_goes_to_the_attached_replicas() {
    let mut srv = master();
    let mut first = Connection::new(10);
    let mut second = Connection::new(20);
    let mut client = Connection::new(30);
    for conn in [&mut first, &mut second] {
        conn.handle_client(&mut srv, &wire(&["REPLCONF", "listening-port", "6380"]), 0);
        conn.handle_client(&mut srv, &wire(&["PSYNC", "?", "-1"]), 0);
    }
    let out = client.handle_client(&mut srv, &wire(&["SET", "k", "v"]), 0);
    assert_eq!(out.reply, b"+OK\r\n".to_vec());
    assert_eq!(out.propagate, b"*3\r\n$3\r\nSET\r\n$1\r\nk\r\n$1\r\nv\r\n".to_vec());
    assert_eq!(out.targets, vec![10, 20]);
    srv.drop_slave(10);
    let out = client.handle_client(&mut srv, &wire(&["set", "a", "b", "px", "9"]), 0);
    assert_eq!(
        out.propagate,
        b"*5\r\n$3\r\nSET\r\n$1\r\na\r\n$1\r\nb\r\n$2\r\nPX\r\n$1\r\n9\r\n".to_vec()
    );
    assert_eq!(out.targets, vec![20]);
    let out = client.handle_client(&mut srv, &wire(&["GET", "k"]), 0);
    assert_eq!(out.reply, b"$1\r\nv\r\n".to_vec());
    assert!(out.propagate.is_empty());
}

#[test]
fn a_candidate_is_not_written_to_before_it_was_sent_the_snapshot() {
    let mut srv = master();
    let mut candidate = Connection::new(1);
    let mut client = Connection::new(2);
    candidate.handle_client(&mut srv, &wire(&["REPLCONF", "listening-port", "6380"]), 0);
    let out = client.handle_client(&mut srv, &wire(&["SET", "k", "v"]), 0);
    assert!(out.targets.is_empty());
    candidate.handle_client(&mut srv, &wire(&["PSYNC", "?", "-1"]), 0);
    let out = client.handle_client(&mut srv, &wire(&["SET", "k", "w"]), 0);
    assert_eq!(out.targets, vec![1]);
}

#[test]
fn an_attached_replica_is_read_no_more() {
    let mut srv = master();
    let mut conn = Connection::new(1);
    let mut input = wire(&["PSYNC", "?", "-1"]);
    input.extend_from_slice(&wire(&["SET", "k", "v"]));
    let out = conn.handle_client(&mut srv, &input, 0);
    assert_eq!(conn.phase(), Phase::Attached);
    assert!(out.propagate.is_empty());
    assert_eq!(srv.get_offset(), 0);
    let out = conn.handle_client(&mut srv, &wire(&["REPLCONF", "ACK", "0"]), 0);
    assert!(out.reply.is_empty());
    assert!(out.propagate.is_empty());
    assert!(!out.close);
    assert_eq!(out.targets, vec![1]);
}

#[test]
fn a_connection_serves_frames_as_they_become_whole() {
    let mut srv = master();
    let mut conn = Connection::new(1);
    let input = wire(&["SET", "foo", "bar"]);
    let out = conn.handle_client(&mut srv, &input[..10], 0);
    assert!(out.reply.is_empty());
    assert!(!out.close);
    let mut more = input[10..].to_vec();
    more.extend_from_slice(&wire(&["GET", "foo"]));
    more.extend_from_slice(b"*1\r\n$4\r\nPI");
    let out = conn.handle_client(&mut srv, &more, 0);
    assert_eq!(out.reply, b"+OK\r\n$3\r\nbar\r\n".to_vec());
    assert_eq!(out.propagate, input);
    let out = conn.handle_client(&mut srv, b"NG\r\n", 0);
    assert_eq!(out.reply, b"+PONG\r\n".to_vec());
}

#[test]
fn bytes_that_start_no_frame_close_the_connection() {
    let mut srv = master();
    let mut conn = Connection::new(1);
    let mut input = wire(&["PING"]);
    input.extend_from_slice(b"hello\r\n");
    let out = conn.handle_client(&mut srv, &input, 0);
    assert_eq!(out.reply, b"+PONG\r\n".to_vec());
    assert!(out.close);
    assert_eq!(conn.phase(), Phase::Closed);
    let out = conn.handle_client(&mut srv, &wire(&["PING"]), 0);
    assert!(out.reply.is_empty());
    assert!(out.close);
}

#[test]
fn an_unknown_command_does_not_close_the_connection() {
    let mut srv = master();
    let mut conn = Connection::new(1);
    let out = conn.handle_client(&mut srv, &wire(&["NOPE"]), 0);
    assert_eq!(out.reply, b"-ERR unknown command\r\n".to_vec());
    assert!(!out.close);
    let out = conn.handle_client(&mut srv, &wire(&["PING"]), 0);
    assert_eq!(out.reply, b"+PONG\r\n".to_vec());
}

#[test]
fn the_snapshot_is_read_without_a_crlf_behind_it() {
    assert_eq!(parse_rdb_bulk(b"$3\r\nabc"), Ok(7));
    assert_eq!(parse_rdb_bulk(b"$3\r\nabc*1\r\n"), Ok(7));
    assert_eq!(parse_rdb_bulk(b"$0\r\n"), Ok(4));
    assert_eq!(parse_rdb_bulk(&snapshot()), Ok(93));
    assert_eq!(parse_rdb_bulk(b""), Err(ParseError::NeedMore));
    assert_eq!(parse_rdb_bulk(b"$"), Err(ParseError::NeedMore));
    assert_eq!(parse_rdb_bulk(b"$8"), Err(ParseError::NeedMore));
    assert_eq!(parse_rdb_bulk(b"$88\r"), Err(ParseError::NeedMore));
    assert_eq!(parse_rdb_bulk(b"$3\r\nab"), Err(ParseError::NeedMore));
    assert_eq!(parse_rdb_bulk(b"+OK\r\n"), Err(ParseError::Protocol));
    assert_eq!(parse_rdb_bulk(b"$-1\r\n"), Err(ParseError::Protocol));
    assert_eq!(parse_rdb_bulk(b"$-"), Err(ParseError::Protocol));
    assert_eq!(parse_rdb_bulk(b"$x\r\n"), Err(ParseError::Protocol));
    assert_eq!(parse_rdb_bulk(b"$03\r\nabc"), Err(ParseError::Protocol));
    assert_eq!(parse_rdb_bulk(b"$3\nabc"), Err(ParseError::Protocol));
}

#[test]
fn the_replica_makes_the_handshake() {
    let mut srv = replica();
    let mut link = ReplicaLink::new(6380);
    assert_eq!(link.state(), LinkState::Connecting);
    assert!(link.continuous_replication(&mut srv, b"+PONG\r\n", 0).is_empty());
    assert_eq!(link.state(), LinkState::Connecting);
    let mut link = ReplicaLink::new(6380);
    assert_eq!(link.request_replication(), b"*1\r\n$4\r\nPING\r\n".to_vec());
    assert_eq!(link.state(), LinkState::Pinging);
    assert!(link.request_replication().is_empty());
    assert_eq!(
        link.continuous_replication(&mut srv, b"+PONG\r\n", 0),
        wire(&["REPLCONF", "listening-port", "6380"])
    );
    assert_eq!(link.state(), LinkState::RegisteringPort);
    assert_eq!(
        link.continuous_replication(&mut srv, b"+OK\r\n", 0),
        wire(&["REPLCONF", "capa", "psync2"])
    );
    assert_eq!(link.state(), LinkState::AdvertisingCapa);
    assert_eq!(link.continuous_replication(&mut srv, b"+OK\r\n", 0), wire(&["PSYNC", "?", "-1"]));
    assert_eq!(link.state(), LinkState::RequestingSync);
    let line = format!("+FULLRESYNC {} 0\r\n", REPL_ID);
    assert!(link.continuous_replication(&mut srv, line.as_bytes(), 0).is_empty());
    assert_eq!(link.state(), LinkState::ReceivingSnapshot);
    assert!(link.continuous_replication(&mut srv, &snapshot()[..40], 0).is_empty());
    assert_eq!(link.state(), LinkState::ReceivingSnapshot);
    assert!(link.continuous_replication(&mut srv, &snapshot()[40..], 0).is_empty());
    assert_eq!(link.state(), LinkState::Applying);
    assert_eq!(srv.get_offset(), 0);
}

#[test]
fn an_unexpected_reply_closes_the_link() {
    for (step, reply) in [
        (0, &b"+OK\r\n"[..]),
        (0, b"-ERR\r\n"),
        (1, b"+PONG\r\n"),
        (2, b"$2\r\nOK\r\n"),
        (3, b"+OK\r\n"),
        (3, b"+FULLRESYNC\r\n"),
        (4, b"+OK\r\n"),
        (0, b"junk"),
    ] {
        let mut srv = replica();
        let mut link = ReplicaLink::new(6380);
        link.request_replication();
        let good: [&[u8]; 4] = [b"+PONG\r\n", b"+OK\r\n", b"+OK\r\n", b"+FULLRESYNC x 0\r\n"];
        for reply in &good[..step] {
            link.continuous_replication(&mut srv, reply, 0);
        }
        assert!(link.continuous_replication(&mut srv, reply, 0).is_empty());
        assert_eq!(link.state(), LinkState::Closed, "step {} reply {:?}", step, reply);
        assert!(link.continuous_replication(&mut srv, b"+PONG\r\n", 0).is_empty());
        assert_eq!(link.state(), LinkState::Closed);
    }
}

/// A link that has gone through the handshake and the snapshot.
fn applying(srv: &mut ServerState, tail: &[u8]) -> (ReplicaLink, Vec<u8>) {
    let mut link = ReplicaLink::new(6380);
    link.request_replication();
    let mut input = b"+PONG\r\n+OK\r\n+OK\r\n".to_vec();
    input.extend_from_slice(format!("+FULLRESYNC {} 0\r\n", REPL_ID).as_bytes());
    input.extend_from_slice(&snapshot());
    input.extend_from_slice(tail);
    let sent = link.continuous_replication(srv, &input, 0);
    (link, sent)
}

#[test]
fn bytes_behind_the_snapshot_are_not_lost() {
    let mut srv = replica();
    let (link, sent) = applying(&mut srv, &wire(&["SET", "k", "v"]));
    assert_eq!(link.state(), LinkState::Applying);
    let mut requests = wire(&["REPLCONF", "listening-port", "6380"]);
    requests.extend_from_slice(&wire(&["REPLCONF", "capa", "psync2"]));
    requests.extend_from_slice(&wire(&["PSYNC", "?", "-1"]));
    assert_eq!(sent, requests);
    assert_eq!(srv.get_offset(), 27);
    assert_eq!(srv.execute_resp(command(&["GET", "k"]), 0).reply, bulk("v"));
}

#[test]
fn the_replica_applies_without_answering() {
    let mut srv = replica();
    let (mut link, _) = applying(&mut srv, b"");
    let mut input = wire(&["SET", "foo", "1"]);
    input.extend_from_slice(&wire(&["PING"]));
    input.extend_from_slice(&wire(&["SET", "bar", "2", "PX", "100"]));
    input.extend_from_slice(&wire(&["GET", "foo"]));
    input.extend_from_slice(&wire(&["NOPE"]));
    let sent = link.continuous_replication(&mut srv, &input, 1000);
    assert!(sent.is_empty());
    assert_eq!(link.state(), LinkState::Applying);
    assert_eq!(srv.get_offset(), input.len() as u64);
    assert_eq!(srv.execute_resp(command(&["GET", "foo"]), 1000).reply, bulk("1"));
    assert_eq!(srv.execute_resp(command(&["GET", "bar"]), 1100).reply, bulk("2"));
    assert_eq!(srv.execute_resp(command(&["GET", "bar"]), 1101).reply, RespType::NullBulkString);
}

#[test]
fn getack_is_answered_with_the_offset_before_it() {
    let mut srv = replica();
    let (mut link, _) = applying(&mut srv, b"");
    let getack = b"*3\r\n$8\r\nREPLCONF\r\n$6\r\nGETACK\r\n$1\r\n*\r\n";
    assert_eq!(getack.len(), 37);
    assert_eq!(
        link.continuous_replication(&mut srv, getack, 0),
        b"*3\r\n$8\r\nREPLCONF\r\n$3\r\nACK\r\n$1\r\n0\r\n".to_vec()
    );
    assert_eq!(srv.get_offset(), 37);
    let mut input = wire(&["PING"]);
    input.extend_from_slice(getack);
    assert_eq!(
        link.continuous_replication(&mut srv, &input, 0),
        b"*3\r\n$8\r\nREPLCONF\r\n$3\r\nACK\r\n$2\r\n51\r\n".to_vec()
    );
    assert_eq!(srv.get_offset(), 88);
}

#[test]
fn getack_is_told_from_other_commands() {
    assert!(is_getack(&command(&["REPLCONF", "GETACK", "*"])));
    assert!(is_getack(&command(&["replconf", "getack", "*"])));
    assert!(!is_getack(&command(&["REPLCONF", "GETACK", "1"])));
    assert!(!is_getack(&command(&["REPLCONF", "ACK", "*"])));
    assert!(!is_getack(&command(&["REPLCONF", "GETACK"])));
    assert!(!is_getack(&command(&["PING"])));
    assert!(!is_getack(&RespType::NullArray));
}

#[test]
fn the_replica_waits_for_the_rest_of_a_frame() {
    let mut srv = replica();
    let (mut link, _) = applying(&mut srv, b"");
    let input = wire(&["SET", "k", "v"]);
    assert!(link.continuous_replication(&mut srv, &input[..11], 0).is_empty());
    assert_eq!(srv.get_offset(), 0);
    assert!(link.continuous_replication(&mut srv, &input[11..], 0).is_empty());
    assert_eq!(srv.get_offset(), 27);
    assert_eq!(srv.execute_resp(command(&["GET", "k"]), 0).reply, bulk("v"));
}

#[test]
fn bytes_that_start_no_frame_close_the_link() {
    let mut srv = replica();
    let (mut link, _) = applying(&mut srv, b"");
    let mut input = wire(&["SET", "k", "v"]);
    input.extend_from_slice(b"!!");
    assert!(link.continuous_replication(&mut srv, &input, 0).is_empty());
    assert_eq!(link.state(), LinkState::Closed);
    assert_eq!(srv.execute_resp(command(&["GET", "k"]), 0).reply, bulk("v"));
    let mut link = ReplicaLink::new(1);
    link.request_replication();
    link.close();
    assert_eq!(link.state(), LinkState::Closed);
    let mut srv = replica();
    let mut link = ReplicaLink::new(1);
    link.request_replication();
    let mut input = b"+PONG\r\n+OK\r\n+OK\r\n+FULLRESYNC x 0\r\n".to_vec();
    input.extend_from_slice(b"$-1\r\n");
    link.continuous_replication(&mut srv, &input, 0);
    assert_eq!(link.state(), LinkState::Closed);
}

#[test]
fn a_master_and_its_replica_end_to_end() {
    let mut master_state = master();
    let mut replica_state = replica();
    let mut from_replica = Connection::new(1);
    let mut client = Connection::new(2);
    let mut link = ReplicaLink::new(6380);
    let mut to_master = link.request_replication();
    let mut rounds = 0;
    while !to_master.is_empty() {
        let out = from_replica.handle_client(&mut master_state, &to_master, 0);
        to_master = link.continuous_replication(&mut replica_state, &out.reply, 0);
        rounds += 1;
    }
    assert_eq!(rounds, 4);
    assert_eq!(link.state(), LinkState::Applying);
    assert_eq!(from_replica.phase(), Phase::Attached);
    let mut written = Vec::new();
    for (key, value) in [("k", "v"), ("a", "1"), ("k", "w")] {
        let out = client.handle_client(&mut master_state, &wire(&["SET", key, value]), 5);
        assert_eq!(out.reply, b"+OK\r\n".to_vec());
        assert_eq!(out.targets, vec![1]);
        assert_eq!(out.propagate, wire(&["SET", key, value]));
        written.extend_from_slice(&out.propagate);
        assert!(link.continuous_replication(&mut replica_state, &out.propagate, 5).is_empty());
    }
    assert_eq!(replica_state.execute_resp(command(&["GET", "k"]), 5).reply, bulk("w"));
    assert_eq!(replica_state.execute_resp(command(&["GET", "a"]), 5).reply, bulk("1"));
    assert_eq!(master_state.get_offset(), written.len() as u64);
    assert_eq!(replica_state.get_offset(), written.len() as u64);
}

#[test]
fn the_end_of_input_inside_a_frame_is_a_protocol_error() {
    let mut srv = master();
    let mut conn = Connection::new(1);
    conn.handle_client(&mut srv, b"*1\r\n$4\r\nPI", 0);
    assert_eq!(conn.handle_eof(), Err(ParseError::Protocol));
    assert_eq!(conn.phase(), Phase::Closed);
    let mut conn = Connection::new(2);
    conn.handle_client(&mut srv, b"*1\r\n$4\r\nPING\r\n", 0);
    assert_eq!(conn.handle_eof(), Ok(()));
    assert_eq!(conn.phase(), Phase::Closed);
    assert_eq!(conn.handle_eof(), Ok(()));
}
