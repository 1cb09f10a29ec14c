//! The typed command model: a validated request built from one decoded
//! protocol value.
//!
//! A request frame must be an array whose first element is a scalar
//! (simple or bulk string) naming a known command, case-insensitively.
//! `spec_build` states the whole validation; `build_pipeline` is proved
//! against it.

use vstd::prelude::*;

use crate::ProtocolError;
use crate::resp::{
    RespToken, TokenView, clone_bytes, dec_val, deep_view_list, is_dec, is_digit,
    lemma_dec_val_prefix, lemma_deep_view_list, unpack_view, vec_u8_eq,
};

verus! {

/// One supported operation, with owned argument bytes. `SetCmd` carries the
/// optional time-to-live in milliseconds; `Echo` keeps the declared
/// length of the message it must repeat.
#[derive(Debug, PartialEq, Eq)]
pub enum Command {
    Ping,
    Echo(Vec<u8>, usize),
    SetCmd(Vec<u8>, Vec<u8>, Option<u64>),
    Get(Vec<u8>),
    Config(ConfigCommands),
}

/// The configuration subcommands; only reads are supported.
#[derive(Debug, PartialEq, Eq)]
pub enum ConfigCommands {
    Get(Vec<u8>),
}

/// The mathematical shape of a command.
pub enum CommandView {
    Ping,
    Echo(Seq<u8>, nat),
    SetCmd(Seq<u8>, Seq<u8>, Option<u64>),
    Get(Seq<u8>),
    CfgGet(Seq<u8>),
}

impl DeepView for Command {
    type V = CommandView;

    open spec fn deep_view(&self) -> CommandView {
        match self {
            Command::Ping => CommandView::Ping,
            Command::Echo(msg, len) => CommandView::Echo(msg@, *len as nat),
            Command::SetCmd(key, value, ttl) => CommandView::SetCmd(key@, value@, *ttl),
            Command::Get(key) => CommandView::Get(key@),
            Command::Config(ConfigCommands::Get(key)) => CommandView::CfgGet(key@),
        }
    }
}

/// An ordered batch of commands built from a single request frame.
#[derive(Debug)]
pub struct Pipeline {
    pub commands: Vec<Command>,
}

impl Pipeline {
    /// An empty pipeline.
    pub fn new() -> (p: Pipeline)
        ensures
            p.commands@.len() == 0,
    {
        Pipeline { commands: Vec::new() }
    }

    /// Appends one command, keeping order.
    pub fn add_command(&mut self, command: Command)
        ensures
            final(self).commands@ == old(self).commands@.push(command),
    {
        self.commands.push(command);
    }
}

/// `s` with every ASCII lowercase letter raised to uppercase.
pub open spec fn ascii_upper(s: Seq<u8>) -> Seq<u8> {
    s.map_values(
        |b: u8|
            if 97 <= b <= 122 {
                (b - 32) as u8
            } else {
                b
            },
    )
}

pub open spec fn ping_name() -> Seq<u8> {
    seq![80u8, 73u8, 78u8, 71u8]
}

pub open spec fn echo_name() -> Seq<u8> {
    seq![69u8, 67u8, 72u8, 79u8]
}

pub open spec fn set_name() -> Seq<u8> {
    seq![83u8, 69u8, 84u8]
}

pub open spec fn get_name() -> Seq<u8> {
    seq![71u8, 69u8, 84u8]
}

pub open spec fn config_name() -> Seq<u8> {
    seq![67u8, 79u8, 78u8, 70u8, 73u8, 71u8]
}

pub open spec fn px_name() -> Seq<u8> {
    seq![80u8, 88u8]
}

/// Validation of a request frame: the commands it carries, or the exact
/// failure. The frame must be an array; its first element must be a
/// scalar; the scalar must name a known command after case folding.
pub open spec fn spec_build(v: TokenView) -> Result<Seq<CommandView>, ProtocolError> {
    match v {
        TokenView::Arr(elems, _n) => if elems.len() == 0 {
            Err(ProtocolError::InvalidCommand)
        } else {
            match unpack_view(elems[0]) {
                Some(name) => spec_build_named(ascii_upper(name), elems),
                None => Err(ProtocolError::InvalidCommand),
            }
        },
        _ => Err(ProtocolError::InvalidCommand),
    }
}

/// Validation of a frame whose case-folded command name is `name`.
///
/// `PING` takes no arguments. `ECHO` takes exactly one bulk string; a
/// missing one is an arity failure, a non-bulk one a format failure.
/// `SET` takes scalar key and value (missing: arity; non-scalar: format)
/// and optionally a scalar `PX` token followed by a scalar run of decimal
/// digits for the milliseconds, which must fit the timestamp type; any
/// other third token, and any malformed or missing milliseconds token,
/// is a format failure; tokens past the milliseconds are ignored. `GET`
/// takes one scalar key. `CONFIG` reads its key from the third position,
/// the first two holding the two-word command name. Any other name is an
/// unknown command.
pub open spec fn spec_build_named(name: Seq<u8>, elems: Seq<TokenView>) -> Result<
    Seq<CommandView>,
    ProtocolError,
> {
    if name == ping_name() {
        Ok(seq![CommandView::Ping])
    } else if name == echo_name() {
        if elems.len() < 2 {
            Err(ProtocolError::Arity)
        } else {
            match elems[1] {
                TokenView::Bulk(msg, len) => Ok(seq![CommandView::Echo(msg, len)]),
                _ => Err(ProtocolError::Format),
            }
        }
    } else if name == set_name() {
        if elems.len() < 3 {
            Err(ProtocolError::Arity)
        } else {
            match (unpack_view(elems[1]), unpack_view(elems[2])) {
                (Some(key), Some(value)) => if elems.len() == 3 {
                    Ok(seq![CommandView::SetCmd(key, value, None)])
                } else {
                    match unpack_view(elems[3]) {
                        Some(opt) => if ascii_upper(opt) == px_name() {
                            if elems.len() < 5 {
                                Err(ProtocolError::Format)
                            } else {
                                match unpack_view(elems[4]) {
                                    Some(ms) => if is_dec(ms) && dec_val(ms) <= u64::MAX {
                                        Ok(
                                            seq![
                                                CommandView::SetCmd(
                                                    key,
                                                    value,
                                                    Some(dec_val(ms) as u64),
                                                ),
                                            ],
                                        )
                                    } else {
                                        Err(ProtocolError::Format)
                                    },
                                    None => Err(ProtocolError::Format),
                                }
                            }
                        } else {
                            Err(ProtocolError::Format)
                        },
                        None => Err(ProtocolError::Format),
                    }
                },
                _ => Err(ProtocolError::Format),
            }
        }
    } else if name == get_name() {
        if elems.len() < 2 {
            Err(ProtocolError::Arity)
        } else {
            match unpack_view(elems[1]) {
                Some(key) => Ok(seq![CommandView::Get(key)]),
                None => Err(ProtocolError::Format),
            }
        }
    } else if name == config_name() {
        if elems.len() < 3 {
            Err(ProtocolError::Arity)
        } else {
            match unpack_view(elems[2]) {
                Some(key) => Ok(seq![CommandView::CfgGet(key)]),
                None => Err(ProtocolError::Format),
            }
        }
    } else {
        Err(ProtocolError::UnknownCommand)
    }
}

/// Whether a token is a scalar whose payload a command may use.
fn is_scalar(t: &RespToken) -> (r: bool)
    ensures
        r == (unpack_view(t.deep_view()) is Some),
{
    match t {
        RespToken::SimpleString(_) => true,
        RespToken::BulkString(_, _) => true,
        _ => false,
    }
}

/// Case-folds ASCII lowercase letters to uppercase.
fn to_upper(v: &Vec<u8>) -> (r: Vec<u8>)
    ensures
        r@ == ascii_upper(v@),
{
    let mut out: Vec<u8> = Vec::new();
    let mut i: usize = 0;
    loop
        invariant
            0 <= i <= v@.len(),
            out@.len() == i,
            forall|j: int| 0 <= j < i ==> out@[j] == ascii_upper(v@)[j],
        decreases v@.len() - i,
    {
        if i >= v.len() {
            proof {
                assert(out@ =~= ascii_upper(v@));
            }
            return out;
        }
        let b = v[i];
        if 97 <= b && b <= 122 {
            out.push(b - 32);
        } else {
            out.push(b);
        }
        i = i + 1;
    }
}

/// Parses a non-empty all-digit byte run as a decimal count of
/// milliseconds; `None` when the run is not such a run or its value does
/// not fit a `u64`.
fn parse_dec_u64(digits: &Vec<u8>) -> (r: Option<u64>)
    ensures
        match r {
            Some(n) => is_dec(digits@) && n as nat == dec_val(digits@),
            None => !is_dec(digits@) || dec_val(digits@) > u64::MAX,
        },
{
    if digits.len() == 0 {
        return None;
    }
    let mut acc: u64 = 0;
    let mut i: usize = 0;
    loop
        invariant
            0 <= i <= digits@.len(),
            digits@.len() > 0,
            forall|j: int| 0 <= j < i ==> is_digit(digits@[j]),
            acc as nat == dec_val(digits@.subrange(0, i as int)),
        decreases digits@.len() - i,
    {
        if i >= digits.len() {
            proof {
                assert(digits@.subrange(0, i as int) =~= digits@);
            }
            return Some(acc);
        }
        let b = digits[i];
        if b < 48 || b > 57 {
            return None;
        }
        proof {
            assert(digits@.subrange(0, i + 1).drop_last() =~= digits@.subrange(0, i as int));
            assert(digits@.subrange(0, i + 1).last() == digits@[i as int]);
        }
        let step = match acc.checked_mul(10) {
            Some(m) => m.checked_add((b - 48) as u64),
            None => None,
        };
        match step {
            Some(next) => {
                acc = next;
            },
            None => {
                proof {
                    if is_dec(digits@) {
                        lemma_dec_val_prefix(digits@, i + 1);
                    }
                }
                return None;
            },
        }
        i = i + 1;
    }
}

/// Builds the pipeline a request frame asks for, exactly as `spec_build`
/// describes, copying out the argument bytes it must retain.
pub fn build_pipeline(lexed: RespToken) -> (r: Result<Pipeline, ProtocolError>)
    ensures
        match r {
            Ok(p) => spec_build(lexed.deep_view()) == Ok::<_, ProtocolError>(
                p.commands.deep_view(),
            ),
            Err(e) => spec_build(lexed.deep_view()) == Err::<Seq<CommandView>, _>(e),
        },
{
    let arr = match &lexed {
        RespToken::Array(arr, _n) => arr,
        _ => {
            return Err(ProtocolError::InvalidCommand);
        },
    };
    proof {
        lemma_deep_view_list(arr@);
    }
    let ghost elems = deep_view_list(arr@);
    if arr.len() == 0 {
        return Err(ProtocolError::InvalidCommand);
    }
    let first = &arr[0];
    if !is_scalar(first) {
        return Err(ProtocolError::InvalidCommand);
    }
    let name = first.unpack();
    let name_up = to_upper(name);
    proof {
        assert(elems[0] == arr@[0].deep_view());
        assert(unpack_view(elems[0]) == Some(name@));
    }
    let ping_lit: Vec<u8> = vec![80u8, 73u8, 78u8, 71u8];
    let echo_lit: Vec<u8> = vec![69u8, 67u8, 72u8, 79u8];
    let set_lit: Vec<u8> = vec![83u8, 69u8, 84u8];
    let get_lit: Vec<u8> = vec![71u8, 69u8, 84u8];
    let config_lit: Vec<u8> = vec![67u8, 79u8, 78u8, 70u8, 73u8, 71u8];
    proof {
        assert(ping_lit@ =~= ping_name());
        assert(echo_lit@ =~= echo_name());
        assert(set_lit@ =~= set_name());
        assert(get_lit@ =~= get_name());
        assert(config_lit@ =~= config_name());
    }
    let cmd: Command;
    if vec_u8_eq(&name_up, &ping_lit) {
        cmd = Command::Ping;
    } else if vec_u8_eq(&name_up, &echo_lit) {
        if arr.len() < 2 {
            return Err(ProtocolError::Arity);
        }
        match &arr[1] {
            RespToken::BulkString(msg, len) => {
                cmd = Command::Echo(clone_bytes(msg), *len);
            },
            _ => {
                return Err(ProtocolError::Format);
            },
        }
    } else if vec_u8_eq(&name_up, &set_lit) {
        if arr.len() < 3 {
            return Err(ProtocolError::Arity);
        }
        if !is_scalar(&arr[1]) || !is_scalar(&arr[2]) {
            return Err(ProtocolError::Format);
        }
        let key = clone_bytes(arr[1].unpack());
        let value = clone_bytes(arr[2].unpack());
        if arr.len() == 3 {
            cmd = Command::SetCmd(key, value, None);
        } else {
            if !is_scalar(&arr[3]) {
                return Err(ProtocolError::Format);
            }
            let opt_up = to_upper(arr[3].unpack());
            let px_lit: Vec<u8> = vec![80u8, 88u8];
            proof {
                assert(px_lit@ =~= px_name());
            }
            if !vec_u8_eq(&opt_up, &px_lit) {
                return Err(ProtocolError::Format);
            }
            if arr.len() < 5 {
                return Err(ProtocolError::Format);
            }
            if !is_scalar(&arr[4]) {
                return Err(ProtocolError::Format);
            }
            let millis = match parse_dec_u64(arr[4].unpack()) {
                Some(millis) => millis,
                None => {
                    return Err(ProtocolError::Format);
                },
            };
            cmd = Command::SetCmd(key, value, Some(millis));
        }
    } else if vec_u8_eq(&name_up, &get_lit) {
        if arr.len() < 2 {
            return Err(ProtocolError::Arity);
        }
        if !is_scalar(&arr[1]) {
            return Err(ProtocolError::Format);
        }
        cmd = Command::Get(clone_bytes(arr[1].unpack()));
    } else if vec_u8_eq(&name_up, &config_lit) {
        if arr.len() < 3 {
            return Err(ProtocolError::Arity);
        }
        if !is_scalar(&arr[2]) {
            return Err(ProtocolError::Format);
        }
        cmd = Command::Config(ConfigCommands::Get(clone_bytes(arr[2].unpack())));
    } else {
        return Err(ProtocolError::UnknownCommand);
    }
    let ghost cmdv = cmd.deep_view();
    let mut pipeline = Pipeline::new();
    pipeline.add_command(cmd);
    proof {
        assert(pipeline.commands.deep_view() =~= seq![cmdv]);
    }
    Ok(pipeline)
}

} // verus!
