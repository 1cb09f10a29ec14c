use redis_lite::ast::{build_pipeline, Command, ConfigCommands, Pipeline};
use redis_lite::commands::eval;
use redis_lite::models::{Config, RedisStore};
use redis_lite::resp::RespToken;
use redis_lite::ProtocolError;

fn test_config() -> Config {
    Config {
        dir: b"/data".to_vec(),
        db_file_name: b"dump.rdb".to_vec(),
    }
}

fn build(bytes: &[u8]) -> Result<Pipeline, ProtocolError> {
    build_pipeline(RespToken::deserialize(bytes).unwrap())
}

#[test]
fn build_ping_from_bulk_name() {
    let pipeline = build(b"*1\r\n$4\r\nPING\r\n").unwrap();
    assert_eq!(pipeline.commands, vec![Command::Ping]);
}

#[test]
fn build_ping_from_simple_string_name() {
    let token = RespToken::Array(vec![RespToken::SimpleString(b"PING".to_vec())], 1);
    let pipeline = build_pipeline(token).unwrap();
    assert_eq!(pipeline.commands, vec![Command::Ping]);
}

#[test]
fn build_is_case_insensitive() {
    let pipeline = build(b"*3\r\n$3\r\nsEt\r\n$1\r\nk\r\n$1\r\nv\r\n").unwrap();
    assert_eq!(
        pipeline.commands,
        vec![Command::SetCmd(b"k".to_vec(), b"v".to_vec(), None)]
    );
}

#[test]
fn build_echo() {
    let pipeline = build(b"*2\r\n$4\r\nECHO\r\n$3\r\nhey\r\n").unwrap();
    assert_eq!(pipeline.commands, vec![Command::Echo(b"hey".to_vec(), 3)]);
}

#[test]
fn build_echo_missing_argument_is_arity_error() {
    assert_eq!(build(b"*1\r\n$4\r\nECHO\r\n").unwrap_err(), ProtocolError::Arity);
}

#[test]
fn build_echo_non_bulk_argument_is_format_error() {
    let token = RespToken::Array(
        vec![
            RespToken::BulkString(b"ECHO".to_vec(), 4),
            RespToken::SimpleString(b"hey".to_vec()),
        ],
        2,
    );
    assert_eq!(build_pipeline(token).unwrap_err(), ProtocolError::Format);
}

#[test]
fn build_set_with_px() {
    let pipeline =
        build(b"*5\r\n$3\r\nSET\r\n$3\r\nfoo\r\n$3\r\nbar\r\n$2\r\npx\r\n$3\r\n100\r\n").unwrap();
    assert_eq!(
        pipeline.commands,
        vec![Command::SetCmd(b"foo".to_vec(), b"bar".to_vec(), Some(100))]
    );
}

#[test]
fn build_set_missing_value_is_arity_error() {
    assert_eq!(
        build(b"*2\r\n$3\r\nSET\r\n$3\r\nfoo\r\n").unwrap_err(),
        ProtocolError::Arity
    );
}

#[test]
fn build_set_with_non_px_option_is_format_error() {
    assert_eq!(
        build(b"*4\r\n$3\r\nSET\r\n$3\r\nfoo\r\n$3\r\nbar\r\n$2\r\nEX\r\n").unwrap_err(),
        ProtocolError::Format
    );
}

#[test]
fn build_set_px_without_millis_is_format_error() {
    assert_eq!(
        build(b"*4\r\n$3\r\nSET\r\n$3\r\nfoo\r\n$3\r\nbar\r\n$2\r\nPX\r\n").unwrap_err(),
        ProtocolError::Format
    );
}

#[test]
fn build_set_px_non_numeric_millis_is_format_error() {
    assert_eq!(
        build(b"*5\r\n$3\r\nSET\r\n$3\r\nfoo\r\n$3\r\nbar\r\n$2\r\nPX\r\n$3\r\nabc\r\n")
            .unwrap_err(),
        ProtocolError::Format
    );
}

#[test]
fn build_get() {
    let pipeline = build(b"*2\r\n$3\r\nGET\r\n$3\r\nfoo\r\n").unwrap();
    assert_eq!(pipeline.commands, vec![Command::Get(b"foo".to_vec())]);
}

#[test]
fn build_get_missing_key_is_arity_error() {
    assert_eq!(build(b"*1\r\n$3\r\nGET\r\n").unwrap_err(), ProtocolError::Arity);
}

#[test]
fn build_config_get_takes_key_from_third_token() {
    let pipeline = build(b"*3\r\n$6\r\nCONFIG\r\n$3\r\nGET\r\n$3\r\ndir\r\n").unwrap();
    assert_eq!(
        pipeline.commands,
        vec![Command::Config(ConfigCommands::Get(b"dir".to_vec()))]
    );
}

#[test]
fn build_config_get_missing_key_is_arity_error() {
    assert_eq!(
        build(b"*2\r\n$6\r\nCONFIG\r\n$3\r\nGET\r\n").unwrap_err(),
        ProtocolError::Arity
    );
}

#[test]
fn build_unknown_command_is_reported_and_leaves_store_unmodified() {
    let mut store = RedisStore::new();
    let result = build(b"*1\r\n$4\r\nNOPE\r\n");
    assert_eq!(result.unwrap_err(), ProtocolError::UnknownCommand);
    assert!(store.get(&b"NOPE".to_vec()).is_none());
    let mut probe = Pipeline::new();
    probe.add_command(Command::Get(b"NOPE".to_vec()));
    let replies = eval(probe, &mut store, &test_config(), 0).unwrap();
    assert_eq!(replies, vec![b"$-1\r\n".to_vec()]);
}

#[test]
fn build_rejects_non_array_frames() {
    let token = RespToken::SimpleString(b"PING".to_vec());
    assert_eq!(build_pipeline(token).unwrap_err(), ProtocolError::InvalidCommand);
}

#[test]
fn build_rejects_empty_array() {
    assert_eq!(build(b"*0\r\n").unwrap_err(), ProtocolError::InvalidCommand);
}

#[test]
fn build_rejects_nested_array_command_name() {
    assert_eq!(
        build(b"*1\r\n*1\r\n$4\r\nPING\r\n").unwrap_err(),
        ProtocolError::InvalidCommand
    );
}

#[test]
fn build_rejects_nil_command_name() {
    let token = RespToken::Array(vec![RespToken::Nil], 1);
    assert_eq!(build_pipeline(token).unwrap_err(), ProtocolError::InvalidCommand);
}

#[test]
fn eval_ping_replies_pong() {
    let mut store = RedisStore::new();
    let pipeline = build(b"*1\r\n$4\r\nPING\r\n").unwrap();
    let replies = eval(pipeline, &mut store, &test_config(), 0).unwrap();
    assert_eq!(replies, vec![b"+PONG\r\n".to_vec()]);
}

#[test]
fn eval_set_then_get_returns_value() {
    let mut store = RedisStore::new();
    let set = build(b"*3\r\n$3\r\nSET\r\n$3\r\nfoo\r\n$3\r\nbar\r\n").unwrap();
    let replies = eval(set, &mut store, &test_config(), 10).unwrap();
    assert_eq!(replies, vec![b"+OK\r\n".to_vec()]);
    let get = build(b"*2\r\n$3\r\nGET\r\n$3\r\nfoo\r\n").unwrap();
    let replies = eval(get, &mut store, &test_config(), 20).unwrap();
    assert_eq!(replies, vec![b"$3\r\nbar\r\n".to_vec()]);
}

#[test]
fn eval_get_absent_key_replies_nil() {
    let mut store = RedisStore::new();
    let get = build(b"*2\r\n$3\r\nGET\r\n$6\r\nabsent\r\n").unwrap();
    let replies = eval(get, &mut store, &test_config(), 0).unwrap();
    assert_eq!(replies, vec![b"$-1\r\n".to_vec()]);
}

#[test]
fn eval_ttl_boundary_is_strict() {
    let mut store = RedisStore::new();
    let set = build(b"*5\r\n$3\r\nSET\r\n$1\r\nk\r\n$1\r\nv\r\n$2\r\nPX\r\n$3\r\n100\r\n")
        .unwrap();
    eval(set, &mut store, &test_config(), 1000).unwrap();
    // Exactly 100 ms later the value is still visible.
    let get = build(b"*2\r\n$3\r\nGET\r\n$1\r\nk\r\n").unwrap();
    let replies = eval(get, &mut store, &test_config(), 1100).unwrap();
    assert_eq!(replies, vec![b"$1\r\nv\r\n".to_vec()]);
    // One millisecond past the boundary it is hidden.
    let get = build(b"*2\r\n$3\r\nGET\r\n$1\r\nk\r\n").unwrap();
    let replies = eval(get, &mut store, &test_config(), 1101).unwrap();
    assert_eq!(replies, vec![b"$-1\r\n".to_vec()]);
}

#[test]
fn eval_zero_px_never_expires() {
    let mut store = RedisStore::new();
    let set = build(b"*5\r\n$3\r\nSET\r\n$1\r\nk\r\n$1\r\nv\r\n$2\r\nPX\r\n$1\r\n0\r\n")
        .unwrap();
    eval(set, &mut store, &test_config(), 0).unwrap();
    let get = build(b"*2\r\n$3\r\nGET\r\n$1\r\nk\r\n").unwrap();
    let replies = eval(get, &mut store, &test_config(), u64::MAX).unwrap();
    assert_eq!(replies, vec![b"$1\r\nv\r\n".to_vec()]);
}

#[test]
fn eval_set_without_ttl_persists() {
    let mut store = RedisStore::new();
    let set = build(b"*3\r\n$3\r\nSET\r\n$1\r\nk\r\n$1\r\nv\r\n").unwrap();
    eval(set, &mut store, &test_config(), 0).unwrap();
    let get = build(b"*2\r\n$3\r\nGET\r\n$1\r\nk\r\n").unwrap();
    let replies = eval(get, &mut store, &test_config(), u64::MAX).unwrap();
    assert_eq!(replies, vec![b"$1\r\nv\r\n".to_vec()]);
}

#[test]
fn eval_last_writer_wins() {
    let mut store = RedisStore::new();
    let first = build(b"*3\r\n$3\r\nSET\r\n$1\r\nk\r\n$2\r\nv1\r\n").unwrap();
    eval(first, &mut store, &test_config(), 1).unwrap();
    let second = build(b"*3\r\n$3\r\nSET\r\n$1\r\nk\r\n$2\r\nv2\r\n").unwrap();
    eval(second, &mut store, &test_config(), 2).unwrap();
    let get = build(b"*2\r\n$3\r\nGET\r\n$1\r\nk\r\n").unwrap();
    let replies = eval(get, &mut store, &test_config(), 3).unwrap();
    assert_eq!(replies, vec![b"$2\r\nv2\r\n".to_vec()]);
}

#[test]
fn eval_config_get_is_idempotent() {
    let mut store = RedisStore::new();
    let first = build(b"*3\r\n$6\r\nCONFIG\r\n$3\r\nGET\r\n$3\r\ndir\r\n").unwrap();
    let reply1 = eval(first, &mut store, &test_config(), 5).unwrap();
    let second = build(b"*3\r\n$6\r\nCONFIG\r\n$3\r\nGET\r\n$3\r\ndir\r\n").unwrap();
    let reply2 = eval(second, &mut store, &test_config(), 99).unwrap();
    assert_eq!(reply1, reply2);
    assert_eq!(reply1, vec![b"$3\r\ndir\r\n$5\r\n/data\r\n".to_vec()]);
}

#[test]
fn eval_config_get_db_file_name() {
    let mut store = RedisStore::new();
    let pipeline = build(b"*3\r\n$6\r\nCONFIG\r\n$3\r\nGET\r\n$10\r\ndbfilename\r\n").unwrap();
    let replies = eval(pipeline, &mut store, &test_config(), 0).unwrap();
    assert_eq!(replies, vec![b"$10\r\ndbfilename\r\n$8\r\ndump.rdb\r\n".to_vec()]);
}

#[test]
fn eval_config_get_unknown_key_fails() {
    let mut store = RedisStore::new();
    let pipeline = build(b"*3\r\n$6\r\nCONFIG\r\n$3\r\nGET\r\n$4\r\nport\r\n").unwrap();
    assert_eq!(
        eval(pipeline, &mut store, &test_config(), 0).unwrap_err(),
        ProtocolError::UnknownConfigKey
    );
}

#[test]
fn eval_fails_fast_but_keeps_earlier_effects() {
    let mut store = RedisStore::new();
    let mut pipeline = Pipeline::new();
    pipeline.add_command(Command::SetCmd(b"k".to_vec(), b"v".to_vec(), None));
    pipeline.add_command(Command::Config(ConfigCommands::Get(b"port".to_vec())));
    pipeline.add_command(Command::Ping);
    assert_eq!(
        eval(pipeline, &mut store, &test_config(), 0).unwrap_err(),
        ProtocolError::UnknownConfigKey
    );
    // The write that preceded the failure is kept.
    let entry = store.get(&b"k".to_vec()).unwrap();
    assert_eq!(entry.value, b"v".to_vec());
}

#[test]
fn eval_multi_command_pipeline_keeps_order() {
    let mut store = RedisStore::new();
    let mut pipeline = Pipeline::new();
    pipeline.add_command(Command::Ping);
    pipeline.add_command(Command::Echo(b"hey".to_vec(), 3));
    pipeline.add_command(Command::SetCmd(b"k".to_vec(), b"v".to_vec(), None));
    pipeline.add_command(Command::Get(b"k".to_vec()));
    let replies = eval(pipeline, &mut store, &test_config(), 0).unwrap();
    assert_eq!(
        replies,
        vec![
            b"+PONG\r\n".to_vec(),
            b"$3\r\nhey\r\n".to_vec(),
            b"+OK\r\n".to_vec(),
            b"$1\r\nv\r\n".to_vec(),
        ]
    );
}

#[test]
fn store_get_returns_entry_verbatim_even_when_expired() {
    let mut store = RedisStore::new();
    let mut pipeline = Pipeline::new();
    pipeline.add_command(Command::SetCmd(b"k".to_vec(), b"v".to_vec(), Some(10)));
    eval(pipeline, &mut store, &test_config(), 100).unwrap();
    // Far past expiry the entry is still physically present.
    let entry = store.get(&b"k".to_vec()).unwrap();
    assert_eq!(entry.value, b"v".to_vec());
    assert_eq!(entry.ts, 100);
    assert_eq!(entry.expiry, Some(10));
}
