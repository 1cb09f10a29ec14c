//! The command evaluator: interprets a pipeline against the store and the
//! static configuration, producing one encoded protocol-value reply per
//! command, in order, failing fast on the first command that fails.
//!
//! Expiry is decided here, lazily, by comparing the evaluation timestamp
//! against what the store recorded; the store itself never filters.
//! `spec_eval_one` states the semantics of a single command and
//! `spec_eval` that of a whole pipeline; `eval` is proved against them.

use vstd::prelude::*;

use crate::ProtocolError;
use crate::ast::{Command, CommandView, ConfigCommands, Pipeline};
use crate::models::{Config, ConfigView, EntryView, ExpiringValue, RedisStore};
use crate::resp::{RespToken, TokenView, clone_bytes, spec_encode, vec_u8_eq, deep_view_list};

verus! {

/// Whether an entry is logically expired at `now` (in milliseconds): only
/// a set, non-zero time-to-live expires, and strictly after `ts + expiry`
/// — a read exactly at the boundary still sees the value.
pub open spec fn expired(e: EntryView, now: u64) -> bool {
    match e.expiry {
        Some(d) => d > 0 && now > e.ts + d,
        None => false,
    }
}

pub open spec fn pong_bytes() -> Seq<u8> {
    seq![80u8, 79u8, 78u8, 71u8]
}

pub open spec fn ok_bytes() -> Seq<u8> {
    seq![79u8, 75u8]
}

pub open spec fn dir_key() -> Seq<u8> {
    seq![100u8, 105u8, 114u8]
}

pub open spec fn db_file_name_key() -> Seq<u8> {
    seq![100u8, 98u8, 102u8, 105u8, 108u8, 101u8, 110u8, 97u8, 109u8, 101u8]
}

/// The reply to one command and the store it leaves behind.
///
/// `Ping` replies `PONG`; `Echo` repeats its message as a bulk string;
/// `SetCmd` records the value at `now` and replies `OK`; `Get` replies
/// the stored value unless it is absent or expired, in which case it
/// replies nil; `CfgGet` replies a key-value array for the two known
/// configuration keys and fails on any other. Only `SetCmd` changes the
/// store.
pub open spec fn spec_eval_one(
    c: CommandView,
    m: Map<Seq<u8>, EntryView>,
    cfg: ConfigView,
    now: u64,
) -> (Result<TokenView, ProtocolError>, Map<Seq<u8>, EntryView>) {
    match c {
        CommandView::Ping => (Ok(TokenView::Simple(pong_bytes())), m),
        CommandView::Echo(msg, len) => (Ok(TokenView::Bulk(msg, len)), m),
        CommandView::SetCmd(key, value, ttl) => (
            Ok(TokenView::Simple(ok_bytes())),
            m.insert(key, EntryView { value: value, ts: now, expiry: ttl }),
        ),
        CommandView::Get(key) => (
            Ok(
                if m.contains_key(key) && !expired(m[key], now) {
                    TokenView::Bulk(m[key].value, m[key].value.len())
                } else {
                    TokenView::Nil
                },
            ),
            m,
        ),
        CommandView::CfgGet(key) => if key == dir_key() {
            (
                Ok(
                    TokenView::Arr(
                        seq![
                            TokenView::Bulk(key, key.len()),
                            TokenView::Bulk(cfg.dir, cfg.dir.len()),
                        ],
                        2,
                    ),
                ),
                m,
            )
        } else if key == db_file_name_key() {
            (
                Ok(
                    TokenView::Arr(
                        seq![
                            TokenView::Bulk(key, key.len()),
                            TokenView::Bulk(cfg.db_file_name, cfg.db_file_name.len()),
                        ],
                        2,
                    ),
                ),
                m,
            )
        } else {
            (Err(ProtocolError::UnknownConfigKey), m)
        },
    }
}

/// A pipeline evaluated front to back: the encoded reply of each command
/// in order and the store as the commands leave it. The first failure
/// aborts the rest of the pipeline, keeping the effects of the commands
/// already run.
pub open spec fn spec_eval(
    cs: Seq<CommandView>,
    m: Map<Seq<u8>, EntryView>,
    cfg: ConfigView,
    now: u64,
) -> (Result<Seq<Seq<u8>>, ProtocolError>, Map<Seq<u8>, EntryView>)
    decreases cs.len(),
{
    if cs.len() == 0 {
        (Ok(Seq::empty()), m)
    } else {
        let (first, m0) = spec_eval_one(cs[0], m, cfg, now);
        match first {
            Ok(t) => {
                let (rest, m1) = spec_eval(cs.drop_first(), m0, cfg, now);
                match rest {
                    Ok(replies) => (Ok(seq![spec_encode(t)].add(replies)), m1),
                    Err(e) => (Err(e), m1),
                }
            },
            Err(e) => (Err(e), m0),
        }
    }
}

/// Evaluates a pipeline against the store at timestamp `now` (in
/// milliseconds), exactly as `spec_eval` describes: one encoded reply per
/// command, in order, failing fast.
pub fn eval(pipeline: Pipeline, store: &mut RedisStore, config: &Config, now: u64) -> (r:
    Result<Vec<Vec<u8>>, ProtocolError>)
    ensures
        ({
            let (sr, sm) = spec_eval(
                pipeline.commands.deep_view(),
                old(store)@,
                config.deep_view(),
                now,
            );
            final(store)@ == sm && (match r {
                Ok(replies) => sr matches Ok(encoded) && replies.deep_view() == encoded,
                Err(e) => sr matches Err(e2) && e2 == e,
            })
        }),
{
    let ghost cviews = pipeline.commands.deep_view();
    let ghost m0 = store@;
    let ghost cfgv = config.deep_view();
    let mut replies: Vec<Vec<u8>> = Vec::new();
    let mut i: usize = 0;
    proof {
        assert(cviews.skip(0) =~= cviews);
        if let (Ok(rest), m1) = spec_eval(cviews, m0, cfgv, now) {
            assert(replies.deep_view().add(rest) =~= rest);
        }
    }
    while i < pipeline.commands.len()
        invariant
            0 <= i <= pipeline.commands@.len(),
            cviews == pipeline.commands.deep_view(),
            cfgv == config.deep_view(),
            m0 == old(store)@,
            spec_eval(cviews, m0, cfgv, now) == (match spec_eval(
                cviews.skip(i as int),
                store@,
                cfgv,
                now,
            ) {
                (Ok(rest), m1) => (
                    Ok::<_, ProtocolError>(replies.deep_view().add(rest)),
                    m1,
                ),
                (Err(e), m1) => (Err::<Seq<Seq<u8>>, _>(e), m1),
            }),
        decreases pipeline.commands@.len() - i,
    {
        let ghost mcur = store@;
        let ghost cv = cviews[i as int];
        proof {
            assert(cviews.skip(i as int)[0] == cv);
            assert(cviews.skip(i as int).drop_first() =~= cviews.skip(i + 1));
        }
        let tok: RespToken;
        match &pipeline.commands[i] {
            Command::Ping => {
                let payload = vec![80u8, 79u8, 78u8, 71u8];
                proof {
                    assert(payload@ =~= pong_bytes());
                }
                tok = RespToken::SimpleString(payload);
            },
            Command::Echo(msg, len) => {
                tok = RespToken::BulkString(clone_bytes(msg), *len);
            },
            Command::SetCmd(key, value, ttl) => {
                let entry = ExpiringValue { value: clone_bytes(value), ts: now, expiry: *ttl };
                store.insert(clone_bytes(key), entry);
                let payload = vec![79u8, 75u8];
                proof {
                    assert(payload@ =~= ok_bytes());
                }
                tok = RespToken::SimpleString(payload);
            },
            Command::Get(key) => {
                match store.get(key) {
                    Some(entry) => {
                        let is_dead = match &entry.expiry {
                            Some(d) => *d > 0 && now > entry.ts && (now - entry.ts) > *d,
                            None => false,
                        };
                        proof {
                            assert(is_dead == expired(store@[key@], now));
                        }
                        if is_dead {
                            tok = RespToken::Nil;
                        } else {
                            let len = entry.value.len();
                            tok = RespToken::BulkString(clone_bytes(&entry.value), len);
                        }
                    },
                    None => {
                        tok = RespToken::Nil;
                    },
                }
            },
            Command::Config(ConfigCommands::Get(key)) => {
                let dir_lit: Vec<u8> = vec![100u8, 105u8, 114u8];
                let db_lit: Vec<u8> = vec![
                    100u8, 98u8, 102u8, 105u8, 108u8, 101u8, 110u8, 97u8, 109u8, 101u8,
                ];
                proof {
                    assert(dir_lit@ =~= dir_key());
                    assert(db_lit@ =~= db_file_name_key());
                }
                let setting: &Vec<u8>;
                if vec_u8_eq(key, &dir_lit) {
                    setting = &config.dir;
                } else if vec_u8_eq(key, &db_lit) {
                    setting = &config.db_file_name;
                } else {
                    proof {
                        assert(spec_eval_one(cv, store@, cfgv, now) == (
                            Err::<TokenView, ProtocolError>(ProtocolError::UnknownConfigKey),
                            store@,
                        ));
                        assert(spec_eval(cviews.skip(i as int), store@, cfgv, now) == (
                            Err::<Seq<Seq<u8>>, ProtocolError>(
                                ProtocolError::UnknownConfigKey,
                            ),
                            store@,
                        ));
                    }
                    return Err(ProtocolError::UnknownConfigKey);
                }
                let key_len = key.len();
                let setting_len = setting.len();
                let mut items: Vec<RespToken> = Vec::new();
                items.push(RespToken::BulkString(clone_bytes(key), key_len));
                items.push(RespToken::BulkString(clone_bytes(setting), setting_len));
                proof {
                    crate::resp::lemma_deep_view_list(items@);
                    assert(deep_view_list(items@) =~= seq![
                        TokenView::Bulk(key@, key@.len()),
                        TokenView::Bulk(setting@, setting@.len()),
                    ]);
                }
                tok = RespToken::Array(items, 2);
            },
        }
        let bytes = match RespToken::serialize(&tok) {
            Ok(bytes) => bytes,
            Err(_) => unreached(),
        };
        proof {
            assert(spec_eval_one(cv, mcur, cfgv, now) == (
                Ok::<_, ProtocolError>(tok.deep_view()),
                store@,
            ));
        }
        let ghost prev_replies = replies.deep_view();
        replies.push(bytes);
        i = i + 1;
        proof {
            assert(replies.deep_view() =~~= prev_replies.push(spec_encode(tok.deep_view())));
            if let (Ok(rest), m1) = spec_eval(cviews.skip(i as int), store@, cfgv, now) {
                assert(prev_replies.add(seq![spec_encode(tok.deep_view())].add(rest))
                    =~= prev_replies.push(spec_encode(tok.deep_view())).add(rest));
            }
        }
    }
    proof {
        assert(cviews.skip(i as int) =~= Seq::<CommandView>::empty());
        assert(replies.deep_view().add(Seq::<Seq<u8>>::empty()) =~= replies.deep_view());
    }
    Ok(replies)
}

/// `CONFIG GET` is idempotent and read-only: it never changes the store,
/// and its reply depends only on the key and the configuration, so
/// repeated calls with the same key and unchanged configuration return
/// identical replies, whatever the store holds and whenever they run.
pub proof fn lemma_config_get_idempotent(
    key: Seq<u8>,
    cfg: ConfigView,
    m1: Map<Seq<u8>, EntryView>,
    now1: u64,
    m2: Map<Seq<u8>, EntryView>,
    now2: u64,
)
    ensures
        spec_eval_one(CommandView::CfgGet(key), m1, cfg, now1).1 == m1,
        spec_eval_one(CommandView::CfgGet(key), m1, cfg, now1).0 == spec_eval_one(
            CommandView::CfgGet(key),
            m2,
            cfg,
            now2,
        ).0,
{
}

/// The time-to-live boundary is strict: a value set with `PX d` is still
/// returned by a read exactly `d` milliseconds later, and hidden one
/// millisecond after that.
pub proof fn lemma_ttl_boundary(
    key: Seq<u8>,
    value: Seq<u8>,
    d: u64,
    m: Map<Seq<u8>, EntryView>,
    cfg: ConfigView,
    now: u64,
)
    requires
        d > 0,
        now + d + 1 <= u64::MAX,
    ensures
        ({
            let m1 = spec_eval_one(CommandView::SetCmd(key, value, Some(d)), m, cfg, now).1;
            &&& spec_eval_one(CommandView::Get(key), m1, cfg, (now + d) as u64).0 == Ok::<
                _,
                ProtocolError,
            >(TokenView::Bulk(value, value.len()))
            &&& spec_eval_one(CommandView::Get(key), m1, cfg, (now + d + 1) as u64).0 == Ok::<
                _,
                ProtocolError,
            >(TokenView::Nil)
        }),
{
}

/// A value set without a time-to-live never expires: a read at any
/// timestamp whatsoever returns it.
pub proof fn lemma_no_ttl_persists(
    key: Seq<u8>,
    value: Seq<u8>,
    m: Map<Seq<u8>, EntryView>,
    cfg: ConfigView,
    now: u64,
    later: u64,
)
    ensures
        spec_eval_one(
            CommandView::Get(key),
            spec_eval_one(CommandView::SetCmd(key, value, None), m, cfg, now).1,
            cfg,
            later,
        ).0 == Ok::<_, ProtocolError>(TokenView::Bulk(value, value.len())),
{
}

/// Last writer wins: after two sequential writes of one key, a read
/// returns the second value, whatever the first write's time-to-live was.
pub proof fn lemma_last_writer_wins(
    key: Seq<u8>,
    v1: Seq<u8>,
    ttl1: Option<u64>,
    v2: Seq<u8>,
    m: Map<Seq<u8>, EntryView>,
    cfg: ConfigView,
    now1: u64,
    now2: u64,
    now3: u64,
)
    ensures
        ({
            let m1 = spec_eval_one(CommandView::SetCmd(key, v1, ttl1), m, cfg, now1).1;
            let m2 = spec_eval_one(CommandView::SetCmd(key, v2, None), m1, cfg, now2).1;
            spec_eval_one(CommandView::Get(key), m2, cfg, now3).0 == Ok::<_, ProtocolError>(
                TokenView::Bulk(v2, v2.len()),
            )
        }),
{
}

} // verus!
