use resp_kv::command::CommandError;
use resp_kv::parser::{parse_resp, RespType};
use resp_kv::role::Role;
use resp_kv::server::{ServerAddr, ServerState};

const REPL_ID: &str = "8371b4fb1155b71f4a04d3e1bc3e18c4a990aeeb";

fn bulk(s: &str) -> RespType {
    RespType::BulkString(s.as_bytes().to_vec())
}

fn command(words: &[&str]) -> RespType {
    RespType::Array(words.iter().map(|w| bulk(w)).collect())
}

fn simple(s: &str) -> RespType {
    RespType::SimpleString(s.as_bytes().to_vec())
}

fn error(e: CommandError) -> RespType {
    RespType::Error(e.message().as_bytes().to_vec())
}

fn master() -> ServerState {
    ServerState::new(6379, None)
}

fn replica() -> ServerState {
    ServerState::new(6380, Some(ServerAddr::new("127.0.0.1".to_string(), 6379)))
}

/// Runs the bytes of one command and gives the bytes of the reply.
fn run(srv: &mut ServerState, wire: &[u8], now: u64) -> Vec<u8> {
    let (frame, used) = parse_resp(wire).unwrap();
    assert_eq!(used, wire.len());
    srv.execute_resp(frame, now).reply.to_resp_string()
}

#[test]
fn ping_is_answered_with_pong() {
    let mut srv = master();
    assert_eq!(run(&mut srv, b"*1\r\n$4\r\nPING\r\n", 0), b"+PONG\r\n".to_vec());
}

#[test]
fn echo_gives_the_message_back() {
    let mut srv = master();
    assert_eq!(
        run(&mut srv, b"*2\r\n$4\r\nECHO\r\n$5\r\nhello\r\n", 0),
        b"$5\r\nhello\r\n".to_vec()
    );
}

#[test]
fn set_then_get() {
    let mut srv = master();
    assert_eq!(
        run(&mut srv, b"*3\r\n$3\r\nSET\r\n$3\r\nfoo\r\n$3\r\nbar\r\n", 0),
        b"+OK\r\n".to_vec()
    );
    assert_eq!(
        run(&mut srv, b"*2\r\n$3\r\nGET\r\n$3\r\nfoo\r\n", 0),
        b"$3\r\nbar\r\n".to_vec()
    );
    assert_eq!(run(&mut srv, b"*2\r\n$3\r\nGET\r\n$3\r\nbaz\r\n", 0), b"$-1\r\n".to_vec());
}

#[test]
fn set_with_px_expires() {
    let mut srv = master();
    let set = command(&["SET", "k", "v", "PX", "100"]);
    assert_eq!(srv.execute_resp(set, 1000).reply, simple("OK"));
    assert_eq!(srv.execute_resp(command(&["GET", "k"]), 1010).reply, bulk("v"));
    assert_eq!(
        srv.execute_resp(command(&["GET", "k"]), 1200).reply.to_resp_string(),
        b"$-1\r\n".to_vec()
    );
    assert_eq!(srv.execute_resp(command(&["GET", "k"]), 1010).reply, RespType::NullBulkString);
}

#[test]
fn the_last_set_wins() {
    let mut srv = master();
    for (i, value) in ["a", "b", "c"].iter().enumerate() {
        assert_eq!(srv.execute_resp(command(&["SET", "k", value]), i as u64).reply, simple("OK"));
        assert_eq!(srv.execute_resp(command(&["SET", "other", "x"]), i as u64).reply, simple("OK"));
        assert_eq!(srv.execute_resp(command(&["GET", "k"]), i as u64).reply, bulk(value));
    }
    assert_eq!(srv.execute_resp(command(&["GET", "k"]), u64::MAX).reply, bulk("c"));
}

#[test]
fn names_and_options_are_matched_in_any_case() {
    let mut srv = master();
    assert_eq!(srv.execute_resp(command(&["pInG"]), 0).reply, simple("PONG"));
    assert_eq!(srv.execute_resp(command(&["set", "k", "v", "px", "5"]), 0).reply, simple("OK"));
    assert_eq!(srv.execute_resp(command(&["get", "k"]), 5).reply, bulk("v"));
    assert_eq!(srv.execute_resp(command(&["GeT", "k"]), 6).reply, RespType::NullBulkString);
    assert_eq!(srv.execute_resp(command(&["REPLCONF", "CAPA", "PSYNC2"]), 0).reply, simple("OK"));
    match srv.execute_resp(command(&["info", "REPLICATION"]), 0).reply {
        RespType::BulkString(_) => {}
        other => panic!("{:?}", other),
    }
}

#[test]
fn keys_keep_their_case() {
    let mut srv = master();
    assert_eq!(srv.execute_resp(command(&["SET", "Key", "v"]), 0).reply, simple("OK"));
    assert_eq!(srv.execute_resp(command(&["GET", "key"]), 0).reply, RespType::NullBulkString);
    assert_eq!(srv.execute_resp(command(&["GET", "Key"]), 0).reply, bulk("v"));
}

#[test]
fn info_replication_on_a_master() {
    let mut srv = master();
    let expected = format!("role:master\nmaster_replid:{}\nmaster_repl_offset:0", REPL_ID);
    assert_eq!(srv.execute_resp(command(&["INFO", "replication"]), 0).reply, bulk(&expected));
    assert_eq!(REPL_ID.len(), 40);
    assert!(REPL_ID.bytes().all(|b| b.is_ascii_hexdigit()));
}

#[test]
fn info_replication_on_a_master_counts_what_was_propagated() {
    let mut srv = master();
    assert_eq!(srv.execute_resp(command(&["SET", "k", "v"]), 0).reply, simple("OK"));
    let expected = format!("role:master\nmaster_replid:{}\nmaster_repl_offset:27", REPL_ID);
    assert_eq!(srv.execute_resp(command(&["INFO", "replication"]), 0).reply, bulk(&expected));
    assert_eq!(srv.get_offset(), 27);
}

#[test]
fn info_replication_on_a_replica_shows_no_id() {
    let mut srv = replica();
    assert_eq!(srv.execute_resp(command(&["INFO", "replication"]), 0).reply, bulk("role:slave"));
}

#[test]
fn a_set_on_a_master_is_propagated_in_canonical_form() {
    let mut srv = master();
    let effect = srv.execute_resp(command(&["set", "k", "v"]), 0);
    assert_eq!(effect.reply, simple("OK"));
    assert_eq!(effect.propagate, Some(b"*3\r\n$3\r\nSET\r\n$1\r\nk\r\n$1\r\nv\r\n".to_vec()));
    let effect = srv.execute_resp(command(&["SeT", "key", "value", "pX", "1500"]), 0);
    assert_eq!(
        effect.propagate,
        Some(b"*5\r\n$3\r\nSET\r\n$3\r\nkey\r\n$5\r\nvalue\r\n$2\r\nPX\r\n$4\r\n1500\r\n".to_vec())
    );
    assert_eq!(srv.get_offset(), 27 + 51);
}

#[test]
fn nothing_but_a_set_is_propagated() {
    let mut srv = master();
    for words in [
        vec!["PING"],
        vec!["ECHO", "x"],
        vec!["GET", "k"],
        vec!["INFO", "replication"],
        vec!["REPLCONF", "capa", "psync2"],
        vec!["PSYNC", "?", "-1"],
        vec!["SET", "k"],
        vec!["NOPE"],
    ] {
        assert_eq!(srv.execute_resp(command(&words), 0).propagate, None, "{:?}", words);
    }
    assert_eq!(srv.get_offset(), 0);
}

#[test]
fn a_set_on_a_replica_is_not_propagated() {
    let mut srv = replica();
    let effect = srv.execute_resp(command(&["SET", "k", "v"]), 0);
    assert_eq!(effect.reply, simple("OK"));
    assert_eq!(effect.propagate, None);
    assert_eq!(srv.get_offset(), 0);
    assert_eq!(srv.execute_resp(command(&["GET", "k"]), 0).reply, bulk("v"));
}

#[test]
fn propagate_set_makes_the_canonical_form_and_counts_it() {
    let mut srv = master();
    assert_eq!(
        srv.propagate_set(b"k", b"v", None),
        Some(b"*3\r\n$3\r\nSET\r\n$1\r\nk\r\n$1\r\nv\r\n".to_vec())
    );
    assert_eq!(
        srv.propagate_set(b"k", b"v", Some(100)),
        Some(b"*5\r\n$3\r\nSET\r\n$1\r\nk\r\n$1\r\nv\r\n$2\r\nPX\r\n$3\r\n100\r\n".to_vec())
    );
    assert_eq!(srv.get_offset(), 27 + 44);
}

#[test]
fn replconf_is_answered() {
    let mut srv = master();
    assert_eq!(
        srv.execute_resp(command(&["REPLCONF", "listening-port", "6380"]), 0).reply,
        simple("OK")
    );
    assert_eq!(srv.execute_resp(command(&["REPLCONF", "capa", "psync2"]), 0).reply, simple("OK"));
    assert_eq!(
        srv.execute_resp(command(&["REPLCONF", "capa", "eof"]), 0).reply,
        error(CommandError::UnknownCapability)
    );
    assert_eq!(
        srv.execute_resp(command(&["REPLCONF", "listening-port", "70000"]), 0).reply,
        error(CommandError::BadPort)
    );
    assert_eq!(
        srv.execute_resp(command(&["REPLCONF", "listening-port", "x"]), 0).reply,
        error(CommandError::BadPort)
    );
    assert_eq!(
        srv.execute_resp(command(&["REPLCONF", "nonsense", "x"]), 0).reply,
        error(CommandError::BadSubcommand)
    );
    assert_eq!(
        srv.execute_resp(command(&["REPLCONF", "GETACK", "x"]), 0).reply,
        error(CommandError::BadArgument)
    );
    assert_eq!(
        srv.execute_resp(command(&["REPLCONF", "capa"]), 0).reply,
        error(CommandError::WrongArity)
    );
    assert_eq!(
        srv.execute_resp(
            RespType::Array(vec![bulk("REPLCONF"), bulk("capa"), RespType::Integer(1)]),
            0
        )
        .reply,
        error(CommandError::BadCapa)
    );
}

#[test]
fn getack_is_answered_with_the_offset() {
    let mut srv = replica();
    assert_eq!(
        srv.execute_resp(command(&["REPLCONF", "GETACK", "*"]), 0).reply.to_resp_string(),
        b"*3\r\n$8\r\nREPLCONF\r\n$3\r\nACK\r\n$1\r\n0\r\n".to_vec()
    );
    assert!(srv.advance_offset(154));
    assert_eq!(
        srv.execute_resp(command(&["replconf", "getack", "*"]), 0).reply.to_resp_string(),
        b"*3\r\n$8\r\nREPLCONF\r\n$3\r\nACK\r\n$3\r\n154\r\n".to_vec()
    );
}

#[test]
fn psync_on_a_master_starts_a_full_resync() {
    let mut srv = master();
    let expected = format!("FULLRESYNC {} 0", REPL_ID);
    assert_eq!(srv.execute_resp(command(&["PSYNC", "?", "-1"]), 0).reply, simple(&expected));
    assert_eq!(srv.execute_resp(command(&["SET", "k", "v"]), 0).reply, simple("OK"));
    let expected = format!("FULLRESYNC {} 27", REPL_ID);
    assert_eq!(srv.execute_resp(command(&["psync", "?", "-1"]), 0).reply, simple(&expected));
}

#[test]
fn psync_on_a_replica_is_refused() {
    let mut srv = replica();
    assert_eq!(
        srv.execute_resp(command(&["PSYNC", "?", "-1"]), 0).reply,
        error(CommandError::NotMaster)
    );
}

#[test]
fn command_is_not_implemented_and_not_fatal() {
    let mut srv = master();
    assert_eq!(
        srv.execute_resp(command(&["COMMAND", "DOCS"]), 0).reply,
        error(CommandError::NotImplemented)
    );
    assert_eq!(srv.execute_resp(command(&["COMMAND"]), 0).reply.to_resp_string(), b"-Not implemented\r\n".to_vec());
    assert_eq!(srv.execute_resp(command(&["PING"]), 0).reply, simple("PONG"));
}

#[test]
fn what_is_no_command_is_answered_with_an_error() {
    let mut srv = master();
    let unknown = error(CommandError::UnknownCommand);
    assert_eq!(unknown.to_resp_string(), b"-ERR unknown command\r\n".to_vec());
    assert_eq!(srv.execute_resp(command(&["FLUSHALL"]), 0).reply, unknown);
    assert_eq!(srv.execute_resp(RespType::Array(Vec::new()), 0).reply, unknown);
    assert_eq!(srv.execute_resp(RespType::Array(vec![RespType::Integer(1)]), 0).reply, unknown);
    assert_eq!(srv.execute_resp(bulk("PING"), 0).reply, unknown);
    assert_eq!(srv.execute_resp(simple("PING"), 0).reply, unknown);
    assert_eq!(srv.execute_resp(RespType::Integer(1), 0).reply, unknown);
    assert_eq!(srv.execute_resp(RespType::NullBulkString, 0).reply, unknown);
    assert_eq!(srv.execute_resp(RespType::NullArray, 0).reply, unknown);
    assert_eq!(srv.execute_resp(RespType::Error(b"x".to_vec()), 0).reply, unknown);
}

#[test]
fn wrong_arguments_are_answered_with_an_error() {
    let mut srv = master();
    let arity = error(CommandError::WrongArity);
    assert_eq!(srv.execute_resp(command(&["PING", "x"]), 0).reply, arity);
    assert_eq!(srv.execute_resp(command(&["ECHO"]), 0).reply, arity);
    assert_eq!(srv.execute_resp(command(&["ECHO", "a", "b"]), 0).reply, arity);
    assert_eq!(srv.execute_resp(command(&["SET", "k"]), 0).reply, arity);
    assert_eq!(srv.execute_resp(command(&["SET", "k", "v", "PX"]), 0).reply, arity);
    assert_eq!(srv.execute_resp(command(&["SET", "k", "v", "PX", "1", "x"]), 0).reply, arity);
    assert_eq!(srv.execute_resp(command(&["GET"]), 0).reply, arity);
    assert_eq!(srv.execute_resp(command(&["GET", "a", "b"]), 0).reply, arity);
    assert_eq!(srv.execute_resp(command(&["INFO"]), 0).reply, arity);
    assert_eq!(srv.execute_resp(command(&["PSYNC", "?"]), 0).reply, arity);
    assert_eq!(
        srv.execute_resp(command(&["INFO", "server"]), 0).reply,
        error(CommandError::BadSubcommand)
    );
    assert_eq!(
        srv.execute_resp(RespType::Array(vec![bulk("GET"), RespType::Integer(1)]), 0).reply,
        error(CommandError::BadKey)
    );
    assert_eq!(
        srv.execute_resp(RespType::Array(vec![bulk("SET"), RespType::Integer(1), bulk("v")]), 0)
            .reply,
        error(CommandError::BadKey)
    );
    assert_eq!(
        srv.execute_resp(RespType::Array(vec![bulk("SET"), bulk("k"), RespType::NullBulkString]), 0)
            .reply,
        error(CommandError::BadValue)
    );
    assert_eq!(
        srv.execute_resp(RespType::Array(vec![bulk("ECHO"), RespType::Integer(1)]), 0).reply,
        error(CommandError::BadValue)
    );
    assert_eq!(
        srv.execute_resp(RespType::Array(vec![bulk("PSYNC"), bulk("?"), RespType::Integer(-1)]), 0)
            .reply,
        error(CommandError::BadValue)
    );
}

#[test]
fn options_of_set_other_than_px_are_refused() {
    let mut srv = master();
    for option in ["EX", "NX", "XX", "KEEPTTL", "P"] {
        assert_eq!(
            srv.execute_resp(command(&["SET", "k", "v", option, "1"]), 0).reply,
            error(CommandError::BadOption)
        );
    }
    for ttl in ["", "abc", "-1", "+1", "01", "1.5", "18446744073709551616"] {
        assert_eq!(
            srv.execute_resp(command(&["SET", "k", "v", "PX", ttl]), 0).reply,
            error(CommandError::BadExpiry),
            "{:?}",
            ttl
        );
    }
    assert_eq!(srv.execute_resp(command(&["GET", "k"]), 0).reply, RespType::NullBulkString);
    assert_eq!(srv.get_offset(), 0);
}

#[test]
fn a_deadline_that_overflows_is_refused_by_set() {
    let mut srv = master();
    let effect = srv.execute_resp(command(&["SET", "k", "v", "PX", "18446744073709551615"]), 1);
    assert_eq!(effect.reply, error(CommandError::ExpiryOverflow));
    assert_eq!(effect.propagate, None);
    assert_eq!(srv.execute_resp(command(&["GET", "k"]), 1).reply, RespType::NullBulkString);
    assert_eq!(srv.get_offset(), 0);
    let effect = srv.execute_resp(command(&["SET", "k", "v", "PX", "18446744073709551615"]), 0);
    assert_eq!(effect.reply, simple("OK"));
    assert_eq!(srv.execute_resp(command(&["GET", "k"]), u64::MAX).reply, bulk("v"));
}

#[test]
fn an_offset_that_overflows_is_refused_by_set() {
    let mut srv = master();
    assert!(srv.advance_offset(usize::MAX));
    let room = u64::MAX - srv.get_offset();
    if room < 27 {
        let effect = srv.execute_resp(command(&["SET", "k", "v"]), 0);
        assert_eq!(effect.reply, error(CommandError::OffsetOverflow));
        assert_eq!(effect.propagate, None);
        assert_eq!(srv.execute_resp(command(&["GET", "k"]), 0).reply, RespType::NullBulkString);
        assert_eq!(srv.propagate_set(b"k", b"v", None), None);
        assert_eq!(srv.get_offset(), u64::MAX - room);
        assert!(!srv.advance_offset(room as usize + 1));
        assert!(srv.advance_offset(room as usize));
        assert_eq!(srv.get_offset(), u64::MAX);
    }
}

#[test]
fn every_error_has_its_text() {
    let all = [
        (CommandError::UnknownCommand, "ERR unknown command"),
        (CommandError::NotImplemented, "Not implemented"),
        (CommandError::WrongArity, "ERR wrong number of arguments"),
        (CommandError::BadKey, "ERR key is not a valid BulkString"),
        (CommandError::BadValue, "ERR value is not a valid BulkString"),
        (CommandError::BadOption, "ERR value is not a valid RESP type"),
        (CommandError::BadExpiry, "ERR value is not an integer or out of range"),
        (CommandError::ExpiryOverflow, "ERR expiry overflows"),
        (CommandError::OffsetOverflow, "ERR replication offset overflows"),
        (CommandError::BadSubcommand, "ERR unknown subcommand"),
        (CommandError::BadPort, "ERR port is not a valid BulkString"),
        (CommandError::BadCapa, "ERR capa is not a valid BulkString"),
        (CommandError::UnknownCapability, "ERR unknown capability"),
        (CommandError::BadArgument, "ERR invalid argument"),
        (CommandError::NotMaster, "ERR not a master"),
    ];
    for (e, text) in all {
        assert_eq!(e.message(), text);
    }
}

#[test]
fn the_role_follows_from_the_master_address() {
    let srv = master();
    assert_eq!(srv.get_role(), Role::Master);
    assert!(srv.get_replica_of().is_none());
    let srv = replica();
    assert_eq!(srv.get_role(), Role::Slave);
    let addr = srv.get_replica_of().unwrap();
    assert_eq!(addr._ip, "127.0.0.1");
    assert_eq!(addr._port, 6379);
}

#[test]
fn roles_have_their_names() {
    assert_eq!(Role::Master.as_str(), "master");
    assert_eq!(Role::Slave.as_str(), "slave");
}

#[test]
fn an_address_keeps_what_it_was_given() {
    let addr = ServerAddr::new("10.0.0.1".to_string(), 7000);
    assert_eq!(addr._ip, "10.0.0.1");
    assert_eq!(addr._port, 7000);
    let copy = addr.clone();
    assert_eq!(copy._ip, "10.0.0.1");
    assert_eq!(copy._port, 7000);
}

#[test]
fn replicas_are_kept_in_the_order_in_which_they_came() {
    let mut srv = master();
    assert!(srv.attached_slaves().is_empty());
    srv.retain_slave(7);
    srv.retain_slave(3);
    srv.retain_slave(7);
    srv.retain_slave(9);
    assert!(srv.attached_slaves().is_empty());
    srv.attach_slave(9);
    srv.attach_slave(7);
    srv.attach_slave(100);
    assert_eq!(srv.attached_slaves(), vec![7, 9]);
    srv.attach_slave(3);
    assert_eq!(srv.attached_slaves(), vec![7, 3, 9]);
    srv.drop_slave(3);
    srv.drop_slave(42);
    assert_eq!(srv.attached_slaves(), vec![7, 9]);
    srv.retain_slave(3);
    srv.attach_slave(3);
    assert_eq!(srv.attached_slaves(), vec![7, 9, 3]);
}

#[test]
fn a_sweep_changes_no_answer() {
    let mut srv = master();
    assert_eq!(srv.execute_resp(command(&["SET", "a", "1", "PX", "10"]), 0).reply, simple("OK"));
    assert_eq!(srv.execute_resp(command(&["SET", "b", "2", "PX", "20"]), 0).reply, simple("OK"));
    assert_eq!(srv.execute_resp(command(&["SET", "c", "3"]), 0).reply, simple("OK"));
    srv.check_expiry(15);
    assert_eq!(srv.execute_resp(command(&["GET", "a"]), 15).reply, RespType::NullBulkString);
    assert_eq!(srv.execute_resp(command(&["GET", "b"]), 15).reply, bulk("2"));
    assert_eq!(srv.execute_resp(command(&["GET", "c"]), 15).reply, bulk("3"));
    assert_eq!(srv.execute_resp(command(&["GET", "b"]), 21).reply, RespType::NullBulkString);
}
