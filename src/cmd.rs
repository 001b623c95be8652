//! The commands: how an array frame becomes a command, and what a command
//! does to the store and answers.
use vstd::prelude::*;
use vstd::slice::slice_to_vec;
use vstd::utf8::{decode_utf8, encode_utf8, encode_utf8_decode_utf8, valid_utf8};
use crate::backend::{entry_pairs, hash_or_empty, lists_fields, Backend};
use crate::decode::RespDecodeError;
use crate::frame::{
    frames_model, lemma_frames_model, utf8_string, Frame, RespArray, RespBulkString,
    RespFrame, RespNull, RespSimpleError, RespSimpleString,
};
use crate::frame::bytes_lt;
use crate::mapping::{
    bytes_equal, bytes_less, lemma_bytes_lt_irreflexive, lemma_bytes_lt_total,
    lemma_bytes_lt_transitive,
};
use vstd::string::StringSliceAdditionalSpecFns;

verus! {

/// Why an array frame is not a command.
#[derive(Debug, Clone, PartialEq, Eq)]
pub enum CommandError {
    /// The name is missing, or is not what was expected.
    InvalidCommand(String),
    /// The number or the types of the arguments are wrong.
    InvalidCommandArguments(String),
    /// The frame could not be read.
    RespError(RespDecodeError),
    /// A key or a field is not UTF-8.
    FromUtf8Error,
}

/// The kinds of `CommandError` that reading a command gives.
pub enum CommandFault {
    InvalidCommand,
    InvalidArguments,
    InvalidUtf8,
}

pub open spec fn fault_of(e: CommandError) -> Option<CommandFault> {
    match e {
        CommandError::InvalidCommand(_) => Some(CommandFault::InvalidCommand),
        CommandError::InvalidCommandArguments(_) => Some(CommandFault::InvalidArguments),
        CommandError::FromUtf8Error => Some(CommandFault::InvalidUtf8),
        CommandError::RespError(_) => None,
    }
}

/// What a command is, with its arguments as values.
pub enum CommandSpec {
    Get(Seq<char>),
    SetValue(Seq<char>, Frame),
    HGet(Seq<char>, Seq<char>),
    HSet(Seq<char>, Seq<char>, Frame),
    HGetAll(Seq<char>),
    HMGet(Seq<char>, Seq<Seq<char>>),
    Echo(Seq<u8>),
    Unknown,
}

pub open spec fn lower_byte(b: u8) -> u8 {
    if 65 <= b <= 90 {
        (b + 32) as u8
    } else {
        b
    }
}

/// ASCII lower case.
pub open spec fn lower_bytes(s: Seq<u8>) -> Seq<u8> {
    Seq::new(s.len(), |i: int| lower_byte(s[i]))
}

/// The items of an array frame; `None` for the null array.
pub open spec fn array_items(a: RespArray) -> Option<Seq<Frame>> {
    match a.0 {
        Some(v) => Some(frames_model(v@)),
        None => None,
    }
}

/// The lower-cased payload of a (non-null) bulk string.
pub open spec fn name_bytes(f: Frame) -> Option<Seq<u8>> {
    match f {
        Frame::BulkString(Some(b)) => Some(lower_bytes(b)),
        _ => None,
    }
}

/// The text of an argument, which must be a bulk string holding UTF-8.
pub open spec fn arg_text(f: Frame) -> Result<Seq<char>, CommandFault> {
    match f {
        Frame::BulkString(Some(b)) => if valid_utf8(b) {
            Ok(decode_utf8(b))
        } else {
            Err(CommandFault::InvalidUtf8)
        },
        _ => Err(CommandFault::InvalidArguments),
    }
}

/// The texts of the arguments; the first that fails decides the error.
pub open spec fn arg_texts(s: Seq<Frame>) -> Result<Seq<Seq<char>>, CommandFault>
    decreases s.len(),
{
    if s.len() == 0 {
        Ok(Seq::empty())
    } else {
        match arg_texts(s.drop_last()) {
            Ok(t) => match arg_text(s.last()) {
                Ok(x) => Ok(t.push(x)),
                Err(e) => Err(e),
            },
            Err(e) => Err(e),
        }
    }
}

/// The array has the given names first, then `n_args` arguments.
pub open spec fn validation(a: Option<Seq<Frame>>, names: Seq<Seq<u8>>, n_args: int) -> Result<(), CommandFault> {
    match a {
        None => Err(CommandFault::InvalidCommand),
        Some(items) => if items.len() != names.len() + n_args {
            Err(CommandFault::InvalidArguments)
        } else if exists|i: int| 0 <= i < names.len() && name_bytes(items[i]) != Some(names[i]) {
            Err(CommandFault::InvalidCommand)
        } else {
            Ok(())
        },
    }
}

pub open spec fn get_spec(a: Option<Seq<Frame>>) -> Result<CommandSpec, CommandFault> {
    match validation(a, seq!["get".spec_bytes()], 1) {
        Err(e) => Err(e),
        Ok(_) => match arg_text(a->0[1]) {
            Ok(k) => Ok(CommandSpec::Get(k)),
            Err(e) => Err(e),
        },
    }
}

pub open spec fn set_spec(a: Option<Seq<Frame>>) -> Result<CommandSpec, CommandFault> {
    match validation(a, seq!["set".spec_bytes()], 2) {
        Err(e) => Err(e),
        Ok(_) => match arg_text(a->0[1]) {
            Ok(k) => Ok(CommandSpec::SetValue(k, a->0[2])),
            Err(e) => Err(e),
        },
    }
}

/// Every frame is a non-null bulk string.
pub open spec fn all_bulk(s: Seq<Frame>) -> bool {
    forall|i: int| 0 <= i < s.len() ==> (#[trigger] s[i]) is BulkString && s[i]->BulkString_0 is Some
}

/// `HGET key field`: both arguments' types are checked before their text.
pub open spec fn hget_spec(a: Option<Seq<Frame>>) -> Result<CommandSpec, CommandFault> {
    match validation(a, seq!["hget".spec_bytes()], 2) {
        Err(e) => Err(e),
        Ok(_) => if !all_bulk(a->0.skip(1)) {
            Err(CommandFault::InvalidArguments)
        } else {
            match arg_text(a->0[1]) {
                Ok(k) => match arg_text(a->0[2]) {
                    Ok(f) => Ok(CommandSpec::HGet(k, f)),
                    Err(e) => Err(e),
                },
                Err(e) => Err(e),
            }
        },
    }
}

/// `HSET key field value`: all three arguments' types are checked before
/// the text of the key and the field.
pub open spec fn hset_spec(a: Option<Seq<Frame>>) -> Result<CommandSpec, CommandFault> {
    match validation(a, seq!["hset".spec_bytes()], 3) {
        Err(e) => Err(e),
        Ok(_) => if !all_bulk(a->0.skip(1)) {
            Err(CommandFault::InvalidArguments)
        } else {
            match arg_text(a->0[1]) {
                Ok(k) => match arg_text(a->0[2]) {
                    Ok(f) => Ok(CommandSpec::HSet(k, f, a->0[3])),
                    Err(e) => Err(e),
                },
                Err(e) => Err(e),
            }
        },
    }
}

pub open spec fn hgetall_spec(a: Option<Seq<Frame>>) -> Result<CommandSpec, CommandFault> {
    match validation(a, seq!["hgetall".spec_bytes()], 1) {
        Err(e) => Err(e),
        Ok(_) => match arg_text(a->0[1]) {
            Ok(k) => Ok(CommandSpec::HGetAll(k)),
            Err(e) => Err(e),
        },
    }
}

/// `HMGET key field...`, with at least one field: the name first, then the
/// number of arguments, then their types, and only then their text.
pub open spec fn hmget_spec(a: Option<Seq<Frame>>) -> Result<CommandSpec, CommandFault> {
    match a {
        None => Err(CommandFault::InvalidCommand),
        Some(items) => if items.len() == 0 || name_bytes(items[0]) != Some("hmget".spec_bytes()) {
            Err(CommandFault::InvalidCommand)
        } else if items.len() < 3 {
            Err(CommandFault::InvalidArguments)
        } else if !all_bulk(items.skip(1)) {
            Err(CommandFault::InvalidArguments)
        } else {
            match arg_text(items[1]) {
                Ok(k) => match arg_texts(items.skip(2)) {
                    Ok(fs) => Ok(CommandSpec::HMGet(k, fs)),
                    Err(e) => Err(e),
                },
                Err(e) => Err(e),
            }
        },
    }
}

pub open spec fn echo_spec(a: Option<Seq<Frame>>) -> Result<CommandSpec, CommandFault> {
    match validation(a, seq!["echo".spec_bytes()], 1) {
        Err(e) => Err(e),
        Ok(_) => match a->0[1] {
            Frame::BulkString(Some(b)) => Ok(CommandSpec::Echo(b)),
            _ => Err(CommandFault::InvalidArguments),
        },
    }
}

/// The command an array frame stands for: dispatch on the lower-cased name.
pub open spec fn command_spec(a: Option<Seq<Frame>>) -> Result<CommandSpec, CommandFault> {
    match a {
        None => Err(CommandFault::InvalidCommand),
        Some(items) => if items.len() == 0 {
            Err(CommandFault::InvalidCommand)
        } else {
            match name_bytes(items[0]) {
                None => Err(CommandFault::InvalidCommand),
                Some(n) => if n == "get".spec_bytes() {
                    get_spec(a)
                } else if n == "set".spec_bytes() {
                    set_spec(a)
                } else if n == "hget".spec_bytes() {
                    hget_spec(a)
                } else if n == "hset".spec_bytes() {
                    hset_spec(a)
                } else if n == "hgetall".spec_bytes() {
                    hgetall_spec(a)
                } else if n == "hmget".spec_bytes() {
                    hmget_spec(a)
                } else if n == "echo".spec_bytes() {
                    echo_spec(a)
                } else {
                    Ok(CommandSpec::Unknown)
                },
            }
        },
    }
}

/// The outcome agrees with what the spec `p` gives.
pub open spec fn outcome_fits<T>(r: Result<T, CommandError>, model: spec_fn(T) -> CommandSpec, p: Result<CommandSpec, CommandFault>) -> bool {
    match r {
        Ok(c) => p == Ok::<CommandSpec, CommandFault>(model(c)),
        Err(e) => p is Err && fault_of(e) == Some(p->Err_0),
    }
}

/// `GET key`.
#[derive(Debug, PartialEq, Eq)]
pub struct CommandGet {
    pub key: String,
}

/// `SET key value`.
#[derive(Debug, PartialEq, Eq)]
pub struct CommandSet {
    pub key: String,
    pub value: RespFrame,
}

/// `HGET key field`.
#[derive(Debug, PartialEq, Eq)]
pub struct CommandHGet {
    pub key: String,
    pub field: String,
}

/// `HSET key field value`.
#[derive(Debug, PartialEq, Eq)]
pub struct CommandHSet {
    pub key: String,
    pub field: String,
    pub value: RespFrame,
}

/// `HGETALL key`; with `sort`, the fields come out in increasing byte order.
#[derive(Debug, PartialEq, Eq)]
pub struct CommandHGetAll {
    pub key: String,
    pub sort: bool,
}

/// `HMGET key field...`.
#[derive(Debug, PartialEq, Eq)]
pub struct CommandHMGet {
    pub key: String,
    pub fields: Vec<String>,
}

/// `ECHO message`.
#[derive(Debug, PartialEq, Eq)]
pub struct CommandEcho {
    pub value: Vec<u8>,
}

/// Any command with a name that is not known.
#[derive(Debug, PartialEq, Eq)]
pub struct CommandUnknown;

/// A command read from an array frame.
#[derive(Debug, PartialEq, Eq)]
pub enum Command {
    Get(CommandGet),
    SetValue(CommandSet),
    HGet(CommandHGet),
    HSet(CommandHSet),
    HGetAll(CommandHGetAll),
    HMGet(CommandHMGet),
    Echo(CommandEcho),
    UnknownCommand(CommandUnknown),
}

pub open spec fn texts_model(v: Seq<String>) -> Seq<Seq<char>> {
    v.map_values(|s: String| s@)
}

pub open spec fn command_model(c: Command) -> CommandSpec {
    match c {
        Command::Get(g) => CommandSpec::Get(g.key@),
        Command::SetValue(s) => CommandSpec::SetValue(s.key@, s.value@),
        Command::HGet(h) => CommandSpec::HGet(h.key@, h.field@),
        Command::HSet(h) => CommandSpec::HSet(h.key@, h.field@, h.value@),
        Command::HGetAll(h) => CommandSpec::HGetAll(h.key@),
        Command::HMGet(h) => CommandSpec::HMGet(h.key@, texts_model(h.fields@)),
        Command::Echo(e) => CommandSpec::Echo(e.value@),
        Command::UnknownCommand(_) => CommandSpec::Unknown,
    }
}

/// ASCII lower case of the bytes.
pub fn lowercase(b: &[u8]) -> (r: Vec<u8>)
    ensures
        r@ == lower_bytes(b@),
{
    let mut r: Vec<u8> = Vec::new();
    let mut i: usize = 0;
    while i < b.len()
        invariant
            i <= b@.len(),
            r@ =~= lower_bytes(b@.take(i as int)),
        decreases b@.len() - i,
    {
        let c = b[i];
        r.push(if 65u8 <= c && c <= 90u8 { c + 32 } else { c });
        i = i + 1;
    }
    assert(b@.take(i as int) =~= b@);
    r
}

/// Checks that the array holds the names first (compared in lower case),
/// then `n_args` arguments.
pub fn validate_command(value: &RespArray, command_names: &[&str], n_args: usize) -> (r: Result<(), CommandError>)
    ensures
        outcome_fits(
            r,
            |u: ()| CommandSpec::Unknown,
            match validation(
                array_items(*value),
                command_names@.map_values(|s: &str| s.spec_bytes()),
                n_args as int,
            ) {
                Ok(_) => Ok(CommandSpec::Unknown),
                Err(e) => Err(e),
            },
        ),
{
    let ghost names = command_names@.map_values(|s: &str| s.spec_bytes());
    let items = match &value.0 {
        Some(v) => v,
        None => return Err(CommandError::InvalidCommand("the command must be an array".to_owned())),
    };
    proof {
        lemma_frames_model(items@);
    }
    if items.len() as u128 != command_names.len() as u128 + n_args as u128 {
        return Err(CommandError::InvalidCommandArguments("wrong number of arguments".to_owned()));
    }
    let mut i: usize = 0;
    while i < command_names.len()
        invariant
            i <= command_names@.len(),
            items@.len() == command_names@.len() + n_args,
            names == command_names@.map_values(|s: &str| s.spec_bytes()),
            frames_model(items@).len() == items@.len(),
            forall|j: int| 0 <= j < items@.len() ==> #[trigger] frames_model(items@)[j] == items@[j]@,
            array_items(*value) == Some(frames_model(items@)),
            forall|j: int| 0 <= j < i ==> name_bytes(frames_model(items@)[j]) == Some(names[j]),
        decreases command_names@.len() - i,
    {
        let ok = match &items[i] {
            RespFrame::BulkString(RespBulkString(Some(b))) => {
                let lower = lowercase(b.as_slice());
                bytes_equal(lower.as_slice(), command_names[i].as_bytes())
            },
            _ => false,
        };
        assert(frames_model(items@)[i as int] == items@[i as int]@);
        if !ok {
            assert(name_bytes(frames_model(items@)[i as int]) != Some(names[i as int]));
            return Err(CommandError::InvalidCommand("unexpected command name".to_owned()));
        }
        i = i + 1;
    }
    Ok(())
}

/// The items of the array after the first `command_length`.
pub fn extract_args(value: RespArray, command_length: usize) -> (r: Result<Vec<RespFrame>, CommandError>)
    ensures
        r is Ok,
        array_items(value) is Some && command_length <= array_items(value)->0.len() ==> frames_model(
            r->Ok_0@,
        ) == array_items(value)->0.skip(command_length as int),
        !(array_items(value) is Some && command_length <= array_items(value)->0.len()) ==> r->Ok_0@.len()
            == 0,
{
    let ghost before = array_items(value);
    match value.0 {
        Some(v) => {
            let mut v = v;
            assert(before == Some(frames_model(v@)));
            proof {
                lemma_frames_model(v@);
            }
            if command_length <= v.len() {
                let ghost orig = v@;
                let rest = v.split_off(command_length);
                proof {
                    lemma_frames_model(rest@);
                    lemma_frames_model(orig);
                    assert(frames_model(rest@) =~= frames_model(orig).skip(command_length as int));
                }
                Ok(rest)
            } else {
                Ok(Vec::new())
            }
        },
        None => Ok(Vec::new()),
    }
}

/// The text of an argument frame.
fn arg_string(f: &RespFrame) -> (r: Result<String, CommandError>)
    ensures
        match arg_text(f@) {
            Ok(t) => r is Ok && r->Ok_0@ == t,
            Err(e) => r is Err && fault_of(r->Err_0) == Some(e),
        },
{
    match f {
        RespFrame::BulkString(RespBulkString(Some(b))) => match utf8_string(slice_to_vec(b.as_slice())) {
            Some(s) => Ok(s),
            None => Err(CommandError::FromUtf8Error),
        },
        _ => Err(CommandError::InvalidCommandArguments("arguments must be bulk strings".to_owned())),
    }
}

/// Whether every item from `from` on is a non-null bulk string.
fn all_bulk_from(items: &Vec<RespFrame>, from: usize) -> (r: bool)
    requires
        from <= items@.len(),
    ensures
        r == all_bulk(frames_model(items@).skip(from as int)),
{
    proof {
        lemma_frames_model(items@);
    }
    let ghost s = frames_model(items@).skip(from as int);
    let mut i: usize = from;
    while i < items.len()
        invariant
            from <= i <= items@.len(),
            s == frames_model(items@).skip(from as int),
            frames_model(items@).len() == items@.len(),
            forall|j: int| 0 <= j < items@.len() ==> #[trigger] frames_model(items@)[j] == items@[j]@,
            forall|j: int| 0 <= j < i - from ==> (#[trigger] s[j]) is BulkString && s[j]->BulkString_0 is Some,
        decreases items@.len() - i,
    {
        match &items[i] {
            RespFrame::BulkString(RespBulkString(Some(_))) => {},
            _ => {
                assert(s[i - from] == items@[i as int]@);
                return false;
            },
        }
        assert(s[i - from] == items@[i as int]@);
        i = i + 1;
    }
    true
}

/// The items of an array that holds `name` first, then `n_args` arguments.
fn named(value: RespArray, name: &str, n_args: usize) -> (r: Result<Vec<RespFrame>, CommandError>)
    ensures
        match validation(array_items(value), seq![name.spec_bytes()], n_args as int) {
            Ok(_) => r is Ok && array_items(value) == Some(frames_model(r->Ok_0@)) && r->Ok_0@.len()
                == 1 + n_args,
            Err(e) => r is Err && fault_of(r->Err_0) == Some(e),
        },
{
    let names: [&str; 1] = [name];
    proof {
        assert(names@.map_values(|s: &str| s.spec_bytes()) =~= seq![name.spec_bytes()]);
    }
    match validate_command(&value, names.as_slice(), n_args) {
        Ok(_) => {},
        Err(e) => return Err(e),
    }
    match value.0 {
        Some(v) => {
            proof {
                lemma_frames_model(v@);
            }
            Ok(v)
        },
        None => Err(CommandError::InvalidCommand("the command must be an array".to_owned())),
    }
}

/// Once a prefix of the arguments fails, all of them fail the same way.
proof fn lemma_arg_texts_prefix(s: Seq<Frame>, k: int)
    requires
        0 <= k <= s.len(),
        arg_texts(s.take(k)) is Err,
    ensures
        arg_texts(s) == arg_texts(s.take(k)),
    decreases s.len() - k,
{
    if k < s.len() {
        assert(s.take(k + 1).drop_last() =~= s.take(k));
        lemma_arg_texts_prefix(s, k + 1);
    } else {
        assert(s.take(k) =~= s);
    }
}

impl CommandGet {
    pub fn new(key: String) -> (r: Self)
        ensures
            r.key == key,
    {
        CommandGet { key }
    }

    /// Reads `GET key`.
    pub fn try_from(value: RespArray) -> (r: Result<Self, CommandError>)
        ensures
            outcome_fits(r, |c: Self| CommandSpec::Get(c.key@), get_spec(array_items(value))),
    {
        let items = match named(value, "get", 1) {
            Ok(v) => v,
            Err(e) => return Err(e),
        };
        proof {
            lemma_frames_model(items@);
        }
        match arg_string(&items[1]) {
            Ok(key) => Ok(CommandGet { key }),
            Err(e) => Err(e),
        }
    }
}

impl CommandSet {
    /// Reads `SET key value`.
    pub fn try_from(value: RespArray) -> (r: Result<Self, CommandError>)
        ensures
            outcome_fits(r, |c: Self| CommandSpec::SetValue(c.key@, c.value@), set_spec(array_items(value))),
    {
        let items = match named(value, "set", 2) {
            Ok(v) => v,
            Err(e) => return Err(e),
        };
        proof {
            lemma_frames_model(items@);
        }
        let mut items = items;
        let ghost before = items@;
        let v = match items.pop() {
            Some(v) => v,
            None => return Err(CommandError::InvalidCommandArguments("missing value".to_owned())),
        };
        assert(items@[1] == before[1]);
        match arg_string(&items[1]) {
            Ok(key) => Ok(CommandSet { key, value: v }),
            Err(e) => Err(e),
        }
    }
}

impl CommandHGet {
    /// Reads `HGET key field`.
    pub fn try_from(value: RespArray) -> (r: Result<Self, CommandError>)
        ensures
            outcome_fits(r, |c: Self| CommandSpec::HGet(c.key@, c.field@), hget_spec(array_items(value))),
    {
        let items = match named(value, "hget", 2) {
            Ok(v) => v,
            Err(e) => return Err(e),
        };
        proof {
            lemma_frames_model(items@);
        }
        if !all_bulk_from(&items, 1) {
            return Err(CommandError::InvalidCommandArguments("arguments must be bulk strings".to_owned()));
        }
        let key = match arg_string(&items[1]) {
            Ok(k) => k,
            Err(e) => return Err(e),
        };
        match arg_string(&items[2]) {
            Ok(field) => Ok(CommandHGet { key, field }),
            Err(e) => Err(e),
        }
    }
}

impl CommandHSet {
    /// Reads `HSET key field value`, where the value is a bulk string.
    pub fn try_from(value: RespArray) -> (r: Result<Self, CommandError>)
        ensures
            outcome_fits(
                r,
                |c: Self| CommandSpec::HSet(c.key@, c.field@, c.value@),
                hset_spec(array_items(value)),
            ),
    {
        let items = match named(value, "hset", 3) {
            Ok(v) => v,
            Err(e) => return Err(e),
        };
        proof {
            lemma_frames_model(items@);
        }
        if !all_bulk_from(&items, 1) {
            return Err(CommandError::InvalidCommandArguments("arguments must be bulk strings".to_owned()));
        }
        proof {
            assert(frames_model(items@).skip(1)[2] == items@[3]@);
        }
        let mut items = items;
        let ghost before = items@;
        let v = match items.pop() {
            Some(v) => v,
            None => return Err(CommandError::InvalidCommandArguments("missing value".to_owned())),
        };
        assert(items@[1] == before[1] && items@[2] == before[2]);
        let key = match arg_string(&items[1]) {
            Ok(k) => k,
            Err(e) => return Err(e),
        };
        let field = match arg_string(&items[2]) {
            Ok(f) => f,
            Err(e) => return Err(e),
        };
        Ok(CommandHSet { key, field, value: v })
    }
}

impl CommandHGetAll {
    /// Reads `HGETALL key`.
    pub fn try_from(value: RespArray) -> (r: Result<Self, CommandError>)
        ensures
            outcome_fits(r, |c: Self| CommandSpec::HGetAll(c.key@), hgetall_spec(array_items(value))),
    {
        let items = match named(value, "hgetall", 1) {
            Ok(v) => v,
            Err(e) => return Err(e),
        };
        proof {
            lemma_frames_model(items@);
        }
        match arg_string(&items[1]) {
            Ok(key) => Ok(CommandHGetAll { key, sort: false }),
            Err(e) => Err(e),
        }
    }
}

impl CommandHMGet {
    /// Reads `HMGET key field...`, with at least one field.
    pub fn try_from(value: RespArray) -> (r: Result<Self, CommandError>)
        ensures
            outcome_fits(
                r,
                |c: Self| CommandSpec::HMGet(c.key@, texts_model(c.fields@)),
                hmget_spec(array_items(value)),
            ),
    {
        let ghost a = array_items(value);
        let n = match &value.0 {
            Some(v) => {
                proof {
                    lemma_frames_model(v@);
                }
                if v.len() == 0 {
                    return Err(CommandError::InvalidCommand("the command is empty".to_owned()));
                }
                assert(frames_model(v@)[0] == v@[0]@);
                let named_ok = match &v[0] {
                    RespFrame::BulkString(RespBulkString(Some(b))) => {
                        let lower = lowercase(b.as_slice());
                        bytes_equal(lower.as_slice(), "hmget".as_bytes())
                    },
                    _ => false,
                };
                if !named_ok {
                    return Err(CommandError::InvalidCommand("unexpected command name".to_owned()));
                }
                v.len()
            },
            None => return Err(CommandError::InvalidCommand("the command must be an array".to_owned())),
        };
        proof {
            lemma_frames_model(value.0->Some_0@);
        }
        if n < 3 {
            return Err(CommandError::InvalidCommandArguments("HMGET needs a key and a field".to_owned()));
        }
        let items = match named(value, "hmget", n - 1) {
            Ok(v) => v,
            Err(e) => return Err(e),
        };
        proof {
            lemma_frames_model(items@);
        }
        if !all_bulk_from(&items, 1) {
            return Err(CommandError::InvalidCommandArguments("arguments must be bulk strings".to_owned()));
        }
        let key = match arg_string(&items[1]) {
            Ok(k) => k,
            Err(e) => return Err(e),
        };
        let ghost rest = frames_model(items@).skip(2);
        assert(a == Some(frames_model(items@)));
        assert(arg_text(a->0[1]) == Ok::<Seq<char>, CommandFault>(key@));
        let mut fields: Vec<String> = Vec::new();
        let mut i: usize = 2;
        assert(rest.take(0) =~= Seq::<Frame>::empty());
        assert(texts_model(fields@) =~= Seq::<Seq<char>>::empty());
        while i < items.len()
            invariant
                2 <= i <= items@.len(),
                items@.len() == n,
                rest == frames_model(items@).skip(2),
                a == Some(frames_model(items@)),
                a == array_items(value),
                arg_text(a->0[1]) == Ok::<Seq<char>, CommandFault>(key@),
                validation(a, seq!["hmget".spec_bytes()], n - 1) is Ok,
                all_bulk(frames_model(items@).skip(1)),
                frames_model(items@).len() == items@.len(),
                forall|j: int| 0 <= j < items@.len() ==> #[trigger] frames_model(items@)[j] == items@[j]@,
                arg_texts(rest.take(i - 2)) == Ok::<Seq<Seq<char>>, CommandFault>(texts_model(fields@)),
            decreases items@.len() - i,
        {
            assert(rest.take(i - 1).drop_last() =~= rest.take(i - 2));
            assert(rest.take(i - 1).last() == items@[i as int]@);
            match arg_string(&items[i]) {
                Ok(f) => {
                    proof {
                        assert(texts_model(fields@.push(f)) =~= texts_model(fields@).push(f@));
                    }
                    fields.push(f);
                },
                Err(e) => {
                    proof {
                        assert(arg_texts(rest.take(i - 1)) == Err::<Seq<Seq<char>>, CommandFault>(
                            arg_text(items@[i as int]@)->Err_0,
                        ));
                        lemma_arg_texts_prefix(rest, i - 1);
                        assert(a->0.skip(2) == rest);
                        assert(hmget_spec(a) == Err::<CommandSpec, CommandFault>(arg_text(items@[i as int]@)->Err_0));
                    }
                    return Err(e);
                },
            }
            i = i + 1;
        }
        assert(rest.take(i - 2) =~= rest);
        Ok(CommandHMGet { key, fields })
    }
}

impl CommandEcho {
    pub fn new(value: Vec<u8>) -> (r: Self)
        ensures
            r.value == value,
    {
        CommandEcho { value }
    }

    /// Reads `ECHO message`.
    pub fn try_from(value: RespArray) -> (r: Result<Self, CommandError>)
        ensures
            outcome_fits(r, |c: Self| CommandSpec::Echo(c.value@), echo_spec(array_items(value))),
    {
        let items = match named(value, "echo", 1) {
            Ok(v) => v,
            Err(e) => return Err(e),
        };
        proof {
            lemma_frames_model(items@);
        }
        match &items[1] {
            RespFrame::BulkString(RespBulkString(Some(b))) => Ok(CommandEcho { value: slice_to_vec(b.as_slice()) }),
            _ => Err(CommandError::InvalidCommandArguments("ECHO takes a bulk string".to_owned())),
        }
    }
}

impl Command {
    /// Reads a command from an array frame: the first item names it, in any
    /// letter case.
    pub fn try_from(value: RespArray) -> (r: Result<Self, CommandError>)
        ensures
            outcome_fits(r, |c: Self| command_model(c), command_spec(array_items(value))),
    {
        let name = match &value.0 {
            None => return Err(CommandError::InvalidCommand("the command must be an array".to_owned())),
            Some(v) => {
                proof {
                    lemma_frames_model(v@);
                }
                if v.len() == 0 {
                    return Err(CommandError::InvalidCommand("the command is empty".to_owned()));
                }
                assert(frames_model(v@)[0] == v@[0]@);
                match &v[0] {
                    RespFrame::BulkString(RespBulkString(Some(b))) => lowercase(b.as_slice()),
                    _ => return Err(CommandError::InvalidCommand("the command name must be a bulk string".to_owned())),
                }
            },
        };
        let n = name.as_slice();
        if bytes_equal(n, "get".as_bytes()) {
            match CommandGet::try_from(value) {
                Ok(c) => Ok(Command::Get(c)),
                Err(e) => Err(e),
            }
        } else if bytes_equal(n, "set".as_bytes()) {
            match CommandSet::try_from(value) {
                Ok(c) => Ok(Command::SetValue(c)),
                Err(e) => Err(e),
            }
        } else if bytes_equal(n, "hget".as_bytes()) {
            match CommandHGet::try_from(value) {
                Ok(c) => Ok(Command::HGet(c)),
                Err(e) => Err(e),
            }
        } else if bytes_equal(n, "hset".as_bytes()) {
            match CommandHSet::try_from(value) {
                Ok(c) => Ok(Command::HSet(c)),
                Err(e) => Err(e),
            }
        } else if bytes_equal(n, "hgetall".as_bytes()) {
            match CommandHGetAll::try_from(value) {
                Ok(c) => Ok(Command::HGetAll(c)),
                Err(e) => Err(e),
            }
        } else if bytes_equal(n, "hmget".as_bytes()) {
            match CommandHMGet::try_from(value) {
                Ok(c) => Ok(Command::HMGet(c)),
                Err(e) => Err(e),
            }
        } else if bytes_equal(n, "echo".as_bytes()) {
            match CommandEcho::try_from(value) {
                Ok(c) => Ok(Command::Echo(c)),
                Err(e) => Err(e),
            }
        } else {
            Ok(Command::UnknownCommand(CommandUnknown))
        }
    }
}

/// The reply `+OK`.
pub open spec fn ok_reply() -> Frame {
    Frame::SimpleString("OK".spec_bytes())
}

/// The reply to an unknown command.
pub open spec fn unknown_reply() -> Frame {
    Frame::SimpleError("Unknown command".spec_bytes())
}

/// What `GET key` answers.
pub open spec fn get_reply(kv: Map<Seq<char>, Frame>, key: Seq<char>) -> Frame {
    if kv.contains_key(key) {
        kv[key]
    } else {
        Frame::Null
    }
}

/// What `HGET key field` answers.
pub open spec fn hget_reply(h: Map<Seq<char>, Map<Seq<char>, Frame>>, key: Seq<char>, field: Seq<char>) -> Frame {
    let t = hash_or_empty(h, key);
    if t.contains_key(field) {
        t[field]
    } else {
        Frame::Null
    }
}

/// What `HMGET key fields...` answers: one frame per field, or a single
/// null where there is no hash under `key`.
pub open spec fn hmget_reply(h: Map<Seq<char>, Map<Seq<char>, Frame>>, key: Seq<char>, fields: Seq<Seq<char>>) -> Frame {
    if h.contains_key(key) {
        Frame::Array(Some(Seq::new(fields.len(), |i: int| hget_reply(h, key, fields[i]))))
    } else {
        Frame::Null
    }
}

/// A field name as a bulk string.
pub open spec fn field_frame(f: Seq<char>) -> Frame {
    Frame::BulkString(Some(encode_utf8(f)))
}

/// Each field followed by its value.
pub open spec fn flatten_fields(ps: Seq<(Seq<char>, Frame)>) -> Seq<Frame>
    decreases ps.len(),
{
    if ps.len() == 0 {
        Seq::empty()
    } else {
        flatten_fields(ps.drop_last()) + seq![field_frame(ps.last().0), ps.last().1]
    }
}

/// `r` is a reply that `HGETALL key` may give: the fields of the hash, each
/// followed by its value, in some order; or null where there is no hash.
pub open spec fn hgetall_fits(h: Map<Seq<char>, Map<Seq<char>, Frame>>, key: Seq<char>, r: Frame) -> bool {
    if h.contains_key(key) {
        exists|ps: Seq<(Seq<char>, Frame)>| lists_fields(ps, h[key]) && r == Frame::Array(Some(flatten_fields(ps)))
    } else {
        r == Frame::Null
    }
}

/// What the command answers, given the store before it runs.
pub open spec fn reply_fits(
    c: CommandSpec,
    kv: Map<Seq<char>, Frame>,
    h: Map<Seq<char>, Map<Seq<char>, Frame>>,
    r: Frame,
) -> bool {
    match c {
        CommandSpec::Get(k) => r == get_reply(kv, k),
        CommandSpec::SetValue(_, _) => r == ok_reply(),
        CommandSpec::HGet(k, f) => r == hget_reply(h, k, f),
        CommandSpec::HSet(_, _, _) => r == ok_reply(),
        CommandSpec::HGetAll(k) => hgetall_fits(h, k, r),
        CommandSpec::HMGet(k, fs) => r == hmget_reply(h, k, fs),
        CommandSpec::Echo(b) => r == Frame::BulkString(Some(b)),
        CommandSpec::Unknown => r == unknown_reply(),
    }
}

/// The key/value table after the command.
pub open spec fn kv_after(c: CommandSpec, kv: Map<Seq<char>, Frame>) -> Map<Seq<char>, Frame> {
    match c {
        CommandSpec::SetValue(k, v) => kv.insert(k, v),
        _ => kv,
    }
}

/// The table of hashes after the command.
pub open spec fn hkv_after(c: CommandSpec, h: Map<Seq<char>, Map<Seq<char>, Frame>>) -> Map<
    Seq<char>,
    Map<Seq<char>, Frame>,
> {
    match c {
        CommandSpec::HSet(k, f, v) => h.insert(k, hash_or_empty(h, k).insert(f, v)),
        _ => h,
    }
}

fn ok_frame() -> (r: RespFrame)
    ensures
        r@ == ok_reply(),
{
    RespFrame::SimpleString(RespSimpleString("OK".to_owned()))
}

/// Runs against the store and answers with one frame.
pub trait CommandExecutor: Sized {
    fn execute(self, backend: &mut Backend) -> RespFrame;
}

impl CommandExecutor for CommandGet {
    fn execute(self, backend: &mut Backend) -> (r: RespFrame)
        ensures
            r@ == get_reply(old(backend).kv(), self.key@),
            *final(backend) == *old(backend),
    {
        match backend.get(self.key.as_str()) {
            Some(v) => v,
            None => RespFrame::Null(RespNull),
        }
    }
}

impl CommandExecutor for CommandSet {
    fn execute(self, backend: &mut Backend) -> (r: RespFrame)
        ensures
            r@ == ok_reply(),
            final(backend).kv() == old(backend).kv().insert(self.key@, self.value@),
            final(backend).hkv() == old(backend).hkv(),
    {
        backend.set(self.key.as_str(), self.value);
        ok_frame()
    }
}

impl CommandExecutor for CommandHGet {
    fn execute(self, backend: &mut Backend) -> (r: RespFrame)
        ensures
            r@ == hget_reply(old(backend).hkv(), self.key@, self.field@),
            *final(backend) == *old(backend),
    {
        match backend.hget(self.key.as_str(), self.field.as_str()) {
            Some(v) => v,
            None => RespFrame::Null(RespNull),
        }
    }
}

impl CommandExecutor for CommandHSet {
    fn execute(self, backend: &mut Backend) -> (r: RespFrame)
        ensures
            r@ == ok_reply(),
            final(backend).hkv() == old(backend).hkv().insert(
                self.key@,
                hash_or_empty(old(backend).hkv(), self.key@).insert(self.field@, self.value@),
            ),
            final(backend).kv() == old(backend).kv(),
    {
        backend.hset(self.key.as_str(), self.field.as_str(), self.value);
        ok_frame()
    }
}

/// The fields come in increasing byte order.
pub open spec fn field_order(ps: Seq<(Seq<char>, Frame)>) -> bool {
    forall|i: int, j: int|
        0 <= i < j < ps.len() ==> bytes_lt(encode_utf8(#[trigger] ps[i].0), encode_utf8(#[trigger] ps[j].0))
}

proof fn lemma_encode_injective(a: Seq<char>, b: Seq<char>)
    requires
        a != b,
    ensures
        encode_utf8(a) != encode_utf8(b),
{
    encode_utf8_decode_utf8(a);
    encode_utf8_decode_utf8(b);
}

/// `om` holds the first `i` pairs of `em`: the pair at `a` is the one at
/// `perm[a]`, and the pair at `j` is found at `inv[j]`.
pub open spec fn holds_prefix(
    om: Seq<(Seq<char>, Frame)>,
    em: Seq<(Seq<char>, Frame)>,
    perm: Seq<int>,
    inv: Seq<int>,
    i: int,
) -> bool {
    &&& om.len() == i && perm.len() == i && inv.len() == i
    &&& forall|a: int| 0 <= a < i ==> 0 <= #[trigger] perm[a] < i && om[a] == em[perm[a]]
    &&& forall|j: int| 0 <= j < i ==> 0 <= #[trigger] inv[j] < i && perm[inv[j]] == j
}

/// Inserting the next pair where the fields before it are smaller keeps the
/// fields in order and the pairs those of `em`.
proof fn lemma_sorted_insert(
    om: Seq<(Seq<char>, Frame)>,
    em: Seq<(Seq<char>, Frame)>,
    perm: Seq<int>,
    inv: Seq<int>,
    i: int,
    p: int,
) -> (r: (Seq<int>, Seq<int>))
    requires
        0 <= i < em.len(),
        0 <= p <= om.len(),
        forall|x: int, y: int| 0 <= x < y < em.len() ==> (#[trigger] em[x]).0 != (#[trigger] em[y]).0,
        holds_prefix(om, em, perm, inv, i),
        field_order(om),
        forall|a: int| 0 <= a < p ==> bytes_lt(encode_utf8(#[trigger] om[a].0), encode_utf8(em[i].0)),
        p < om.len() ==> !bytes_lt(encode_utf8(om[p].0), encode_utf8(em[i].0)),
    ensures
        field_order(om.insert(p, em[i])),
        holds_prefix(om.insert(p, em[i]), em, r.0, r.1, i + 1),
{
    let k = em[i];
    let nm = om.insert(p, k);
    assert forall|a: int| p <= a < om.len() implies bytes_lt(
        encode_utf8(k.0),
        encode_utf8(#[trigger] om[a].0),
    ) by {
        if a > p && bytes_lt(encode_utf8(om[a].0), encode_utf8(k.0)) {
            assert(bytes_lt(encode_utf8(om[p].0), encode_utf8(om[a].0)));
            lemma_bytes_lt_transitive(encode_utf8(om[p].0), encode_utf8(om[a].0), encode_utf8(k.0));
        }
        let j = perm[a];
        assert(em[j].0 != em[i].0);
        lemma_encode_injective(om[a].0, k.0);
        lemma_bytes_lt_total(encode_utf8(k.0), encode_utf8(om[a].0));
    }
    assert forall|x: int, y: int| 0 <= x < y < nm.len() implies bytes_lt(
        encode_utf8((#[trigger] nm[x]).0),
        encode_utf8((#[trigger] nm[y]).0),
    ) by {
        if y < p {
        } else if y == p {
        } else if x < p {
            assert(nm[y] == om[y - 1]);
        } else if x == p {
            assert(nm[y] == om[y - 1]);
        } else {
            assert(nm[x] == om[x - 1] && nm[y] == om[y - 1]);
        }
    }
    let perm2 = perm.insert(p, i);
    let inv2 = Seq::new(
        (i + 1) as nat,
        |j: int|
            if j == i {
                p
            } else if inv[j] >= p {
                inv[j] + 1
            } else {
                inv[j]
            },
    );
    assert forall|a: int| 0 <= a < i + 1 implies 0 <= #[trigger] perm2[a] < i + 1 && nm[a] == em[perm2[a]] by {
        if a > p {
            assert(perm2[a] == perm[a - 1]);
        }
    }
    assert forall|j: int| 0 <= j < i + 1 implies 0 <= #[trigger] inv2[j] < i + 1 && perm2[inv2[j]] == j by {
        if j < i {
            if inv[j] >= p {
                assert(perm2[inv[j] + 1] == perm[inv[j]]);
            } else {
                assert(perm2[inv[j]] == perm[inv[j]]);
            }
        }
    }
    (perm2, inv2)
}

/// The same pairs, ordered by field.
fn sort_by_field(pairs: &Vec<(String, RespFrame)>, Ghost(t): Ghost<Map<Seq<char>, Frame>>) -> (r: Vec<(String, RespFrame)>)
    requires
        lists_fields(entry_pairs(pairs@), t),
    ensures
        lists_fields(entry_pairs(r@), t),
        field_order(entry_pairs(r@)),
{
    let ghost em = entry_pairs(pairs@);
    let ghost mut perm: Seq<int> = Seq::empty();
    let ghost mut inv: Seq<int> = Seq::empty();
    let mut out: Vec<(String, RespFrame)> = Vec::new();
    let mut i: usize = 0;
    assert(entry_pairs(out@) =~= Seq::<(Seq<char>, Frame)>::empty());
    while i < pairs.len()
        invariant
            i <= pairs@.len(),
            em == entry_pairs(pairs@),
            em.len() == pairs@.len(),
            lists_fields(em, t),
            holds_prefix(entry_pairs(out@), em, perm, inv, i as int),
            field_order(entry_pairs(out@)),
        decreases pairs@.len() - i,
    {
        let ghost om = entry_pairs(out@);
        let ghost k = em[i as int];
        let key_bytes = pairs[i].0.as_str().as_bytes();
        let mut p: usize = 0;
        while p < out.len() && bytes_less(out[p].0.as_str().as_bytes(), key_bytes)
            invariant
                p <= out@.len(),
                om == entry_pairs(out@),
                om.len() == out@.len(),
                k == em[i as int],
                key_bytes@ == encode_utf8(k.0),
                forall|a: int| 0 <= a < p ==> bytes_lt(encode_utf8(#[trigger] om[a].0), encode_utf8(k.0)),
            decreases out@.len() - p,
        {
            p = p + 1;
        }
        let entry = (pairs[i].0.clone(), pairs[i].1.copy_frame());
        out.insert(p, entry);
        proof {
            assert(entry_pairs(out@) =~= om.insert(p as int, k));
            let r = lemma_sorted_insert(om, em, perm, inv, i as int, p as int);
            perm = r.0;
            inv = r.1;
        }
        i = i + 1;
    }
    proof {
        let om = entry_pairs(out@);
        assert forall|x: int, y: int| 0 <= x < y < om.len() implies (#[trigger] om[x]).0 != (
        #[trigger] om[y]).0 by {
            lemma_bytes_lt_irreflexive(encode_utf8(om[x].0));
        }
        assert forall|k: Seq<char>| #[trigger] t.contains_key(k) implies exists|a: int|
            0 <= a < om.len() && (#[trigger] om[a]).0 == k by {
            let j = choose|j: int| 0 <= j < em.len() && (#[trigger] em[j]).0 == k;
            assert(om[inv[j]] == em[j]);
        }
        assert forall|a: int| 0 <= a < om.len() implies t.contains_key((#[trigger] om[a]).0) && t[om[a].0] == om[a].1 by {
            assert(om[a] == em[perm[a]]);
        }
    }
    out
}

impl CommandExecutor for CommandHGetAll {
    fn execute(self, backend: &mut Backend) -> (r: RespFrame)
        ensures
            hgetall_fits(old(backend).hkv(), self.key@, r@),
            self.sort && old(backend).hkv().contains_key(self.key@) ==> exists|ps: Seq<(Seq<char>, Frame)>|
                field_order(ps) && lists_fields(ps, old(backend).hkv()[self.key@]) && r@ == Frame::Array(
                    Some(flatten_fields(ps)),
                ),
            *final(backend) == *old(backend),
    {
        let pairs = match backend.hgetall(self.key.as_str()) {
            Some(p) => p,
            None => return RespFrame::Null(RespNull),
        };
        let pairs = if self.sort {
            sort_by_field(&pairs, Ghost(backend.hkv()[self.key@]))
        } else {
            pairs
        };
        let ghost ps = entry_pairs(pairs@);
        assert(lists_fields(ps, backend.hkv()[self.key@]));
        assert(self.sort ==> field_order(ps));
        let mut out: Vec<RespFrame> = Vec::new();
        let mut i: usize = 0;
        assert(frames_model(out@) =~= flatten_fields(ps.take(0)));
        while i < pairs.len()
            invariant
                i <= pairs@.len(),
                ps == entry_pairs(pairs@),
                frames_model(out@) == flatten_fields(ps.take(i as int)),
            decreases pairs@.len() - i,
        {
            let field = RespFrame::BulkString(RespBulkString(Some(slice_to_vec(pairs[i].0.as_str().as_bytes()))));
            let value = pairs[i].1.copy_frame();
            proof {
                let o1 = out@.push(field);
                let o2 = o1.push(value);
                assert(ps.take(i + 1).drop_last() =~= ps.take(i as int));
                assert(o1.drop_last() =~= out@);
                assert(o2.drop_last() =~= o1);
                assert(frames_model(o1) == frames_model(out@).push(field@));
                assert(frames_model(o2) == frames_model(o1).push(value@));
                assert(frames_model(o2) =~= frames_model(out@) + seq![field@, value@]);
                assert(ps[i as int] == (pairs@[i as int].0@, pairs@[i as int].1@));
            }
            out.push(field);
            out.push(value);
            i = i + 1;
        }
        assert(ps.take(i as int) =~= ps);
        RespFrame::Array(RespArray(Some(out)))
    }
}

impl CommandExecutor for CommandHMGet {
    fn execute(self, backend: &mut Backend) -> (r: RespFrame)
        ensures
            r@ == hmget_reply(old(backend).hkv(), self.key@, texts_model(self.fields@)),
            *final(backend) == *old(backend),
    {
        if !backend.has_hash(self.key.as_str()) {
            return RespFrame::Null(RespNull);
        }
        let ghost fs = texts_model(self.fields@);
        let mut out: Vec<RespFrame> = Vec::new();
        let mut i: usize = 0;
        while i < self.fields.len()
            invariant
                i <= self.fields@.len(),
                fs == texts_model(self.fields@),
                backend.hkv().contains_key(self.key@),
                *backend == *old(backend),
                frames_model(out@) =~= Seq::new(i as nat, |j: int| hget_reply(backend.hkv(), self.key@, fs[j])),
            decreases self.fields@.len() - i,
        {
            let v = match backend.hget(self.key.as_str(), self.fields[i].as_str()) {
                Some(v) => v,
                None => RespFrame::Null(RespNull),
            };
            proof {
                assert(out@.push(v).drop_last() =~= out@);
                assert(frames_model(out@.push(v)) == frames_model(out@).push(v@));
                assert(fs[i as int] == self.fields@[i as int]@);
            }
            out.push(v);
            i = i + 1;
        }
        RespFrame::Array(RespArray(Some(out)))
    }
}

impl CommandExecutor for CommandEcho {
    fn execute(self, backend: &mut Backend) -> (r: RespFrame)
        ensures
            r@ == Frame::BulkString(Some(self.value@)),
            *final(backend) == *old(backend),
    {
        RespFrame::BulkString(RespBulkString(Some(self.value)))
    }
}

impl CommandExecutor for CommandUnknown {
    fn execute(self, backend: &mut Backend) -> (r: RespFrame)
        ensures
            r@ == unknown_reply(),
            *final(backend) == *old(backend),
    {
        RespFrame::Error(RespSimpleError("Unknown command".to_owned()))
    }
}

impl CommandExecutor for Command {
    fn execute(self, backend: &mut Backend) -> (r: RespFrame)
        ensures
            reply_fits(command_model(self), old(backend).kv(), old(backend).hkv(), r@),
            final(backend).kv() == kv_after(command_model(self), old(backend).kv()),
            final(backend).hkv() == hkv_after(command_model(self), old(backend).hkv()),
    {
        match self {
            Command::Get(c) => c.execute(backend),
            Command::SetValue(c) => c.execute(backend),
            Command::HGet(c) => c.execute(backend),
            Command::HSet(c) => c.execute(backend),
            Command::HGetAll(c) => c.execute(backend),
            Command::HMGet(c) => c.execute(backend),
            Command::Echo(c) => c.execute(backend),
            Command::UnknownCommand(c) => c.execute(backend),
        }
    }
}

} // verus!
