//! Commands: parsing a request array into a typed command, and running it
//! against the store.
use vstd::prelude::*;
use vstd::string::StringSliceAdditionalSpecFns;
use vstd::utf8::{valid_utf8, decode_utf8, encode_utf8};
use crate::frame::{
    RespFrame, RespArray, Value, BulkString, SimpleString, SimpleError, RespNull, frames_value,
    compare_bytes, copy_bytes,
};
use crate::encode::lemma_frames_value_len;
use crate::backend::Backend;
use crate::strings::{utf8_string, lossy_string, lossy_text};
use crate::text::lowered;

verus! {

/// Why a request was refused, as the contracts speak of it.
pub enum CmdFault {
    /// Not a request for the command: not an array, or another verb.
    Command,
    /// The verb matched, but the arguments are wrong in number or kind.
    Argument,
}

/// Why a request was refused.
#[derive(Debug)]
pub enum CommandError {
    InvalidCommand(String),
    InvalidArgument(String),
}

impl CommandError {
    pub open spec fn fault(&self) -> CmdFault {
        match self {
            CommandError::InvalidCommand(_) => CmdFault::Command,
            CommandError::InvalidArgument(_) => CmdFault::Argument,
        }
    }

    /// The error's text, as a client sees it in an error reply.
    pub fn message(&self) -> (r: String)
        ensures
            r@ == command_error_text(*self),
    {
        match self {
            CommandError::InvalidCommand(m) => {
                let mut s = "Invalid command: ".to_owned();
                s.append(m.as_str());
                s
            },
            CommandError::InvalidArgument(m) => {
                let mut s = "Invalid argument: ".to_owned();
                s.append(m.as_str());
                s
            },
        }
    }
}

/// The text of a refusal: a tag naming its kind, then its detail.
pub open spec fn command_error_text(e: CommandError) -> Seq<char> {
    match e {
        CommandError::InvalidCommand(m) => "Invalid command: "@ + m@,
        CommandError::InvalidArgument(m) => "Invalid argument: "@ + m@,
    }
}

/// The tag that begins the text of a refusal of kind `f`.
pub open spec fn cmd_fault_tag(f: CmdFault) -> Seq<char> {
    match f {
        CmdFault::Command => "Invalid command: "@,
        CmdFault::Argument => "Invalid argument: "@,
    }
}

fn invalid_command(m: &str) -> (r: CommandError)
    ensures
        r.fault() == CmdFault::Command,
{
    CommandError::InvalidCommand(m.to_owned())
}

fn invalid_argument(m: &str) -> (r: CommandError)
    ensures
        r.fault() == CmdFault::Argument,
{
    CommandError::InvalidArgument(m.to_owned())
}

/// The items of a request array; `None` for the null array.
pub open spec fn array_items(a: RespArray) -> Option<Seq<Value>> {
    match a.0 {
        Some(v) => Some(frames_value(v@)),
        None => None,
    }
}

/// The verb of a request, lower-cased: its first item, when that is a
/// (non-null) bulk string.
pub open spec fn verb_of(items: Seq<Value>) -> Option<Seq<u8>> {
    if items.len() > 0 {
        match items[0] {
            Value::Bulk(Some(b)) => Some(lowered(b)),
            _ => None,
        }
    } else {
        None
    }
}

/// A request for verb `name` with exactly `k` arguments; else why not.
pub open spec fn check_fixed(a: Option<Seq<Value>>, name: Seq<u8>, k: nat) -> Option<CmdFault> {
    match a {
        None => Some(CmdFault::Command),
        Some(items) => if verb_of(items) != Some(name) {
            Some(CmdFault::Command)
        } else if items.len() != k + 1 {
            Some(CmdFault::Argument)
        } else {
            None
        },
    }
}

/// A request for verb `name` with at least `k` arguments; else why not.
pub open spec fn check_at_least(a: Option<Seq<Value>>, name: Seq<u8>, k: nat) -> Option<CmdFault> {
    match a {
        None => Some(CmdFault::Command),
        Some(items) => if verb_of(items) != Some(name) {
            Some(CmdFault::Command)
        } else if items.len() < k + 1 {
            Some(CmdFault::Argument)
        } else {
            None
        },
    }
}

/// The text of an argument: a bulk string of valid UTF-8.
pub open spec fn text_of(v: Value) -> Option<Seq<char>> {
    match v {
        Value::Bulk(Some(b)) => if valid_utf8(b) {
            Some(decode_utf8(b))
        } else {
            None
        },
        _ => None,
    }
}

/// The texts of all of `s`, when each is one.
pub open spec fn texts_of(s: Seq<Value>) -> Option<Seq<Seq<char>>>
    decreases s.len(),
{
    if s.len() == 0 {
        Some(Seq::empty())
    } else {
        match (texts_of(s.drop_last()), text_of(s.last())) {
            (Some(ts), Some(t)) => Some(ts.push(t)),
            _ => None,
        }
    }
}

/// A parsed request.
pub enum Request {
    Get(Seq<char>),
    SetKey(Seq<char>, Value),
    HGet(Seq<char>, Seq<char>),
    HSet(Seq<char>, Seq<char>, Value),
    HMGet(Seq<char>, Seq<Seq<char>>),
    HGetAll(Seq<char>),
    SAdd(Seq<char>, Seq<Seq<char>>),
    SIsMember(Seq<char>, Seq<char>),
    Echo(Seq<char>),
    Unrecognized(Seq<u8>),
}

/// The arguments after the verb, for a request with exactly `k` of them.
pub open spec fn fixed_args(a: Option<Seq<Value>>, name: Seq<u8>, k: nat) -> Result<Seq<Value>, CmdFault> {
    match check_fixed(a, name, k) {
        Some(f) => Err(f),
        None => Ok(a->0.skip(1)),
    }
}

/// The arguments after the verb, for a request with at least `k` of them.
pub open spec fn dynamic_args(a: Option<Seq<Value>>, name: Seq<u8>, k: nat) -> Result<Seq<Value>, CmdFault> {
    match check_at_least(a, name, k) {
        Some(f) => Err(f),
        None => Ok(a->0.skip(1)),
    }
}

pub open spec fn parse_get(a: Option<Seq<Value>>) -> Result<Request, CmdFault> {
    match fixed_args(a, "get".spec_bytes(), 1) {
        Err(f) => Err(f),
        Ok(xs) => match text_of(xs[0]) {
            Some(k) => Ok(Request::Get(k)),
            None => Err(CmdFault::Argument),
        },
    }
}

pub open spec fn parse_set(a: Option<Seq<Value>>) -> Result<Request, CmdFault> {
    match fixed_args(a, "set".spec_bytes(), 2) {
        Err(f) => Err(f),
        Ok(xs) => match text_of(xs[0]) {
            Some(k) => Ok(Request::SetKey(k, xs[1])),
            None => Err(CmdFault::Argument),
        },
    }
}

pub open spec fn parse_hget(a: Option<Seq<Value>>) -> Result<Request, CmdFault> {
    match fixed_args(a, "hget".spec_bytes(), 2) {
        Err(f) => Err(f),
        Ok(xs) => match (text_of(xs[0]), text_of(xs[1])) {
            (Some(k), Some(f)) => Ok(Request::HGet(k, f)),
            _ => Err(CmdFault::Argument),
        },
    }
}

pub open spec fn parse_hset(a: Option<Seq<Value>>) -> Result<Request, CmdFault> {
    match fixed_args(a, "hset".spec_bytes(), 3) {
        Err(f) => Err(f),
        Ok(xs) => match (text_of(xs[0]), text_of(xs[1])) {
            (Some(k), Some(f)) => Ok(Request::HSet(k, f, xs[2])),
            _ => Err(CmdFault::Argument),
        },
    }
}

pub open spec fn parse_hmget(a: Option<Seq<Value>>) -> Result<Request, CmdFault> {
    match dynamic_args(a, "hmget".spec_bytes(), 2) {
        Err(f) => Err(f),
        Ok(xs) => match (text_of(xs[0]), texts_of(xs.skip(1))) {
            (Some(k), Some(fs)) => Ok(Request::HMGet(k, fs)),
            _ => Err(CmdFault::Argument),
        },
    }
}

pub open spec fn parse_hgetall(a: Option<Seq<Value>>) -> Result<Request, CmdFault> {
    match fixed_args(a, "hgetall".spec_bytes(), 1) {
        Err(f) => Err(f),
        Ok(xs) => match text_of(xs[0]) {
            Some(k) => Ok(Request::HGetAll(k)),
            None => Err(CmdFault::Argument),
        },
    }
}

pub open spec fn parse_sadd(a: Option<Seq<Value>>) -> Result<Request, CmdFault> {
    match dynamic_args(a, "sadd".spec_bytes(), 2) {
        Err(f) => Err(f),
        Ok(xs) => match (text_of(xs[0]), texts_of(xs.skip(1))) {
            (Some(k), Some(ms)) => Ok(Request::SAdd(k, ms)),
            _ => Err(CmdFault::Argument),
        },
    }
}

pub open spec fn parse_sismember(a: Option<Seq<Value>>) -> Result<Request, CmdFault> {
    match fixed_args(a, "sismember".spec_bytes(), 2) {
        Err(f) => Err(f),
        Ok(xs) => match (text_of(xs[0]), text_of(xs[1])) {
            (Some(k), Some(m)) => Ok(Request::SIsMember(k, m)),
            _ => Err(CmdFault::Argument),
        },
    }
}

pub open spec fn parse_echo(a: Option<Seq<Value>>) -> Result<Request, CmdFault> {
    match fixed_args(a, "echo".spec_bytes(), 1) {
        Err(f) => Err(f),
        Ok(xs) => match text_of(xs[0]) {
            Some(m) => Ok(Request::Echo(m)),
            None => Err(CmdFault::Argument),
        },
    }
}

/// The request that a frame makes: an array whose first item is the verb
/// (matched without regard to ASCII case). A verb outside the command set
/// is an unrecognized request.
pub open spec fn request_of(v: Value) -> Result<Request, CmdFault> {
    match v {
        Value::Array(Some(items)) => match verb_of(items) {
            None => Err(CmdFault::Command),
            Some(w) => {
                let a = Some(items);
                if w == "get".spec_bytes() {
                    parse_get(a)
                } else if w == "set".spec_bytes() {
                    parse_set(a)
                } else if w == "hget".spec_bytes() {
                    parse_hget(a)
                } else if w == "hset".spec_bytes() {
                    parse_hset(a)
                } else if w == "hgetall".spec_bytes() {
                    parse_hgetall(a)
                } else if w == "hmget".spec_bytes() {
                    parse_hmget(a)
                } else if w == "echo".spec_bytes() {
                    parse_echo(a)
                } else if w == "sadd".spec_bytes() {
                    parse_sadd(a)
                } else if w == "sismember".spec_bytes() {
                    parse_sismember(a)
                } else {
                    Ok(Request::Unrecognized(w))
                }
            },
        },
        _ => Err(CmdFault::Command),
    }
}

/// The lower-cased verb of a request, when its first item is a bulk string.
fn lowered_verb(items: &Vec<RespFrame>) -> (r: Option<Vec<u8>>)
    ensures
        match r {
            Some(w) => verb_of(frames_value(items@)) == Some(w@),
            None => verb_of(frames_value(items@)) is None,
        },
{
    proof { lemma_frames_value_len(items@); }
    if items.len() == 0 {
        return None;
    }
    match &items[0] {
        RespFrame::BulkString(BulkString(Some(b))) => {
            let mut out: Vec<u8> = Vec::new();
            let mut i: usize = 0;
            while i < b.len()
                invariant
                    i <= b@.len(),
                    out@ == lowered(b@).take(i as int),
                decreases b@.len() - i,
            {
                let c = b[i];
                out.push(if 65u8 <= c && c <= 90u8 { c + 32u8 } else { c });
                i = i + 1;
                assert(out@ =~= lowered(b@).take(i as int));
            }
            assert(out@ =~= lowered(b@));
            Some(out)
        },
        _ => None,
    }
}

fn validate_command_name(args: &RespArray, name: &str) -> (r: Result<(), CommandError>)
    ensures
        match r {
            Ok(_) => array_items(*args) is Some && verb_of(array_items(*args)->0) == Some(name.spec_bytes()),
            Err(e) => !(array_items(*args) is Some && verb_of(array_items(*args)->0) == Some(
                name.spec_bytes(),
            )) && e.fault() == CmdFault::Command,
        },
{
    match &args.0 {
        None => Err(invalid_command("Command must not be a null array")),
        Some(items) => match lowered_verb(items) {
            Some(w) => {
                if compare_bytes(w.as_slice(), name.as_bytes()) == 0 {
                    Ok(())
                } else {
                    Err(invalid_command("unexpected command name"))
                }
            },
            None => Err(invalid_command("command must have a bulk string as its first item")),
        },
    }
}

/// Checks that `args` is a request for `name` with exactly `expected_len`
/// arguments after the verb.
pub fn validate_command(args: &RespArray, name: &str, expected_len: usize) -> (r: Result<(), CommandError>)
    ensures
        match r {
            Ok(_) => check_fixed(array_items(*args), name.spec_bytes(), expected_len as nat) is None,
            Err(e) => check_fixed(array_items(*args), name.spec_bytes(), expected_len as nat) == Some(
                e.fault(),
            ),
        },
{
    match validate_command_name(args, name) {
        Err(e) => {
            return Err(e);
        },
        Ok(_) => {},
    }
    match &args.0 {
        Some(items) => {
            proof { lemma_frames_value_len(items@); }
            if items.len() - 1 != expected_len {
                return Err(invalid_argument("wrong number of arguments"));
            }
            Ok(())
        },
        None => Ok(()),
    }
}

/// Checks that `args` is a request for `name` with at least `at_least`
/// arguments after the verb.
pub fn validate_dynamic_command(args: &RespArray, name: &str, at_least: usize) -> (r: Result<(), CommandError>)
    ensures
        match r {
            Ok(_) => check_at_least(array_items(*args), name.spec_bytes(), at_least as nat) is None,
            Err(e) => check_at_least(array_items(*args), name.spec_bytes(), at_least as nat) == Some(
                e.fault(),
            ),
        },
{
    match validate_command_name(args, name) {
        Err(e) => {
            return Err(e);
        },
        Ok(_) => {},
    }
    match &args.0 {
        Some(items) => {
            proof { lemma_frames_value_len(items@); }
            if items.len() - 1 < at_least {
                return Err(invalid_argument("too few arguments"));
            }
            Ok(())
        },
        None => Ok(()),
    }
}

/// The items of a request from index `start` on.
pub fn extract_args(args: RespArray, start: usize) -> (r: Result<Vec<RespFrame>, CommandError>)
    ensures
        match r {
            Ok(v) => array_items(args) is Some && if start <= array_items(args)->0.len() {
                frames_value(v@) == array_items(args)->0.skip(start as int)
            } else {
                v@.len() == 0
            },
            Err(e) => array_items(args) is None && e.fault() == CmdFault::Command,
        },
        start > 0 && array_items(args) is Some && array_items(args)->0.len() >= start ==> r is Ok,
{
    match args.0 {
        None => Err(invalid_command("Command must not be a null array")),
        Some(mut items) => {
            proof { lemma_frames_value_len(items@); }
            let ghost all = frames_value(items@);
            if start <= items.len() {
                let ghost before = items@;
                let rest = items.split_off(start);
                proof {
                    lemma_frames_value_len(rest@);
                    assert(rest@ =~= before.subrange(start as int, before.len() as int));
                    assert forall|i: int| 0 <= i < rest@.len() implies frames_value(rest@)[i] == all.skip(
                        start as int,
                    )[i] by {
                        assert(rest@[i] == before[start + i]);
                        assert(all[start + i] == before[start + i]@);
                    }
                    assert(all.len() == before.len());
                    assert(frames_value(rest@).len() == all.skip(start as int).len());
                    assert(frames_value(rest@) =~= all.skip(start as int));
                }
                Ok(rest)
            } else {
                Ok(Vec::new())
            }
        },
    }
}

/// The text of an argument frame.
fn take_text(f: &RespFrame) -> (r: Result<String, CommandError>)
    ensures
        match r {
            Ok(s) => text_of(f@) == Some(s@),
            Err(e) => text_of(f@) is None && e.fault() == CmdFault::Argument,
        },
{
    match f {
        RespFrame::BulkString(BulkString(Some(b))) => match utf8_string(copy_bytes(b)) {
            Some(s) => Ok(s),
            None => Err(invalid_argument("argument is not valid UTF-8")),
        },
        _ => Err(invalid_argument("argument must be a bulk string")),
    }
}


/// The texts of a sequence of strings.
pub open spec fn texts_view(v: Seq<String>) -> Seq<Seq<char>> {
    v.map_values(|s: String| s@)
}

proof fn lemma_texts_prefix(s: Seq<Value>, j: int)
    requires
        0 <= j <= s.len(),
        texts_of(s.take(j)) is None,
    ensures
        texts_of(s) is None,
    decreases s.len() - j,
{
    if j == s.len() {
        assert(s.take(j) =~= s);
    } else {
        assert(s.take(j + 1).drop_last() =~= s.take(j));
        lemma_texts_prefix(s, j + 1);
    }
}

/// The texts of `args[from..]`.
fn take_texts(args: &Vec<RespFrame>, from: usize) -> (r: Result<Vec<String>, CommandError>)
    requires
        from <= args@.len(),
    ensures
        match r {
            Ok(v) => texts_of(frames_value(args@).skip(from as int)) == Some(texts_view(v@)),
            Err(e) => texts_of(frames_value(args@).skip(from as int)) is None && e.fault()
                == CmdFault::Argument,
        },
{
    proof { lemma_frames_value_len(args@); }
    let ghost xs = frames_value(args@).skip(from as int);
    let mut out: Vec<String> = Vec::new();
    let mut i = from;
    assert(xs.take(0) =~= Seq::<Value>::empty());
    assert(texts_view(out@) =~= Seq::<Seq<char>>::empty());
    while i < args.len()
        invariant
            from <= i <= args@.len(),
            xs == frames_value(args@).skip(from as int),
            xs.len() == args@.len() - from,
            frames_value(args@).len() == args@.len(),
            forall|j: int| 0 <= j < args@.len() ==> #[trigger] frames_value(args@)[j] == args@[j]@,
            texts_of(xs.take(i - from)) == Some(texts_view(out@)),
        decreases args@.len() - i,
    {
        assert(xs.take(i - from + 1).drop_last() =~= xs.take(i - from));
        assert(xs[i - from] == frames_value(args@)[i as int]);
        assert(xs.take(i - from + 1).last() == args@[i as int]@);
        match take_text(&args[i]) {
            Ok(t) => {
                let ghost prev = out@;
                out.push(t);
                assert(out@.drop_last() =~= prev);
                assert(texts_view(out@) =~= texts_view(prev).push(out@.last()@));
            },
            Err(e) => {
                proof { lemma_texts_prefix(xs, i - from + 1); }
                return Err(e);
            },
        }
        i = i + 1;
    }
    assert(xs.take(i - from) =~= xs);
    Ok(out)
}


/// Checks a fixed-arity request and hands out its arguments.
fn fixed_request(value: RespArray, name: &str, k: usize) -> (r: Result<Vec<RespFrame>, CommandError>)
    requires
        k >= 1,
    ensures
        match r {
            Ok(v) => fixed_args(array_items(value), name.spec_bytes(), k as nat) == Ok::<_, CmdFault>(
                frames_value(v@),
            ) && v@.len() == k && forall|j: int| 0 <= j < k ==> #[trigger] frames_value(v@)[j] == v@[j]@,
            Err(e) => fixed_args(array_items(value), name.spec_bytes(), k as nat) == Err::<
                Seq<Value>,
                CmdFault,
            >(e.fault()),
        },
{
    match validate_command(&value, name, k) {
        Err(e) => {
            return Err(e);
        },
        Ok(_) => {},
    }
    let args = match extract_args(value, 1) {
        Err(e) => {
            return Err(e);
        },
        Ok(v) => v,
    };
    proof { lemma_frames_value_len(args@); }
    Ok(args)
}

/// Checks a request with a least arity and hands out its arguments.
fn dynamic_request(value: RespArray, name: &str, k: usize) -> (r: Result<Vec<RespFrame>, CommandError>)
    requires
        k >= 1,
    ensures
        match r {
            Ok(v) => dynamic_args(array_items(value), name.spec_bytes(), k as nat) == Ok::<_, CmdFault>(
                frames_value(v@),
            ) && v@.len() >= k && forall|j: int| 0 <= j < v@.len() ==> #[trigger] frames_value(v@)[j]
                == v@[j]@,
            Err(e) => dynamic_args(array_items(value), name.spec_bytes(), k as nat) == Err::<
                Seq<Value>,
                CmdFault,
            >(e.fault()),
        },
{
    match validate_dynamic_command(&value, name, k) {
        Err(e) => {
            return Err(e);
        },
        Ok(_) => {},
    }
    let args = match extract_args(value, 1) {
        Err(e) => {
            return Err(e);
        },
        Ok(v) => v,
    };
    proof { lemma_frames_value_len(args@); }
    Ok(args)
}

/// The reply of a successful write.
pub open spec fn ok_value() -> Value {
    Value::Simple("OK"@)
}

/// `+OK`.
pub fn resp_ok() -> (r: RespFrame)
    ensures
        r@ == ok_value(),
{
    RespFrame::SimpleString(SimpleString::new("OK".to_owned()))
}

/// The reply to a read: the value found, or Null.
pub fn lookup_reply(found: Option<RespFrame>) -> (r: RespFrame)
    ensures
        r@ == match found {
            Some(v) => v@,
            None => Value::Null,
        },
{
    match found {
        Some(v) => v,
        None => RespFrame::Null(RespNull),
    }
}

/// The model of a read's reply.
pub open spec fn found_value(found: Option<RespFrame>) -> Value {
    match found {
        Some(v) => v@,
        None => Value::Null,
    }
}

/// The reply to a multi-read: an array of the values found, Null for each
/// miss, in the order asked.
pub fn hmget_reply(found: Vec<Option<RespFrame>>) -> (r: RespFrame)
    ensures
        r@ == Value::Array(Some(Seq::new(found@.len(), |i: int| found_value(found@[i])))),
{
    let ghost all = found@;
    let total = found.len();
    let mut found = found;
    let mut out: Vec<RespFrame> = Vec::new();
    let mut i: usize = 0;
    while found.len() > 0
        invariant
            i + found@.len() == all.len(),
            all.len() == total,
            found@ == all.skip(i as int),
            frames_value(out@) == Seq::new(i as nat, |j: int| found_value(all[j])),
        decreases found@.len(),
    {
        let ghost prev = out@;
        let f = found.remove(0);
        assert(f == all[i as int]);
        out.push(lookup_reply(f));
        proof {
            assert(out@.drop_last() =~= prev);
            assert(frames_value(out@) =~= Seq::new((i + 1) as nat, |j: int| found_value(all[j])));
            assert(found@ =~= all.skip(i + 1));
        }
        i = i + 1;
    }
    assert(Seq::new(i as nat, |j: int| found_value(all[j])) =~= Seq::new(all.len(), |j: int| found_value(all[j])));
    RespFrame::Array(RespArray(Some(out)))
}

/// The reply to HGETALL: field names and values, alternating.
pub open spec fn flat_entries(es: Seq<(String, RespFrame)>) -> Seq<Value>
    decreases es.len(),
{
    if es.len() == 0 {
        Seq::empty()
    } else {
        flat_entries(es.drop_last()) + seq![Value::Bulk(Some(encode_utf8(es.last().0@))), es.last().1@]
    }
}

/// The reply to HGETALL from a snapshot of the fields: a flat array of
/// field names and values; an empty array for a missing key.
pub fn hgetall_reply(entries: Option<Vec<(String, RespFrame)>>) -> (r: RespFrame)
    ensures
        r@ == Value::Array(Some(match entries {
            Some(es) => flat_entries(es@),
            None => Seq::empty(),
        })),
{
    match entries {
        None => {
            let out: Vec<RespFrame> = Vec::new();
            assert(frames_value(out@) =~= Seq::<Value>::empty());
            RespFrame::Array(RespArray(Some(out)))
        },
        Some(es) => {
            let ghost all = es@;
            let total = es.len();
            let mut es = es;
            let mut rev: Vec<RespFrame> = Vec::new();
            let mut out: Vec<RespFrame> = Vec::new();
            let mut n: usize = 0;
            assert(all.take(0) =~= Seq::<(String, RespFrame)>::empty());
            while es.len() > 0
                invariant
                    n + es@.len() == all.len(),
                    all.len() == total,
                    es@ == all.skip(n as int),
                    frames_value(out@) == flat_entries(all.take(n as int)),
                decreases es@.len(),
            {
                let ghost prev = out@;
                let (k, v) = es.remove(0);
                assert((k, v) == all[n as int]);
                let kb = k.as_str().as_bytes();
                let mut key_bytes: Vec<u8> = Vec::new();
                let mut j: usize = 0;
                while j < kb.len()
                    invariant
                        j <= kb@.len(),
                        key_bytes@ == kb@.take(j as int),
                    decreases kb@.len() - j,
                {
                    key_bytes.push(kb[j]);
                    j = j + 1;
                    assert(key_bytes@ =~= kb@.take(j as int));
                }
                assert(kb@.take(j as int) =~= kb@);
                out.push(RespFrame::BulkString(BulkString(Some(key_bytes))));
                let ghost mid = out@;
                out.push(v);
                proof {
                    assert(out@.drop_last() =~= mid);
                    assert(mid.drop_last() =~= prev);
                    assert(frames_value(mid) == frames_value(prev).push(mid.last()@));
                    assert(all.take(n as int + 1).drop_last() =~= all.take(n as int));
                    assert(frames_value(out@) =~= frames_value(prev) + seq![
                        out@[out@.len() - 2]@,
                        out@.last()@,
                    ]);
                    assert(es@ =~= all.skip(n + 1));
                }
                n = n + 1;
            }
            assert(all.take(n as int) =~= all);
            RespFrame::Array(RespArray(Some(out)))
        },
    }
}

/// `GET key`.
#[derive(Debug)]
pub struct Get {
    pub key: String,
}

/// `SET key value`.
#[derive(Debug)]
pub struct SetCommand {
    pub key: String,
    pub value: RespFrame,
}

/// `HGET key field`.
#[derive(Debug)]
pub struct HGet {
    pub key: String,
    pub field: String,
}

/// `HSET key field value`.
#[derive(Debug)]
pub struct HSet {
    pub key: String,
    pub field: String,
    pub value: RespFrame,
}

/// `HMGET key field...`.
#[derive(Debug)]
pub struct HMGet {
    pub key: String,
    pub fields: Vec<String>,
}

/// `HGETALL key`.
#[derive(Debug)]
pub struct HGetAll {
    pub key: String,
}

/// `SADD key member...`.
#[derive(Debug)]
pub struct SAdd {
    pub key: String,
    pub members: Vec<String>,
}

/// `SISMEMBER key member`.
#[derive(Debug)]
pub struct SIsMember {
    pub key: String,
    pub member: String,
}

/// `ECHO message`.
#[derive(Debug)]
pub struct Echo {
    pub message: String,
}

/// A verb outside the command set, lower-cased (verbs are matched without
/// regard to ASCII case).
#[derive(Debug)]
pub struct Unrecognized {
    pub verb: Vec<u8>,
}

impl Get {
    /// Parses a request array as `parse_get` describes.
    pub fn try_from(value: RespArray) -> (r: Result<Get, CommandError>)
        ensures
            match r {
                Ok(c) => parse_get(array_items(value)) == Ok::<_, CmdFault>(Request::Get(c.key@)),
                Err(e) => parse_get(array_items(value)) == Err::<Request, CmdFault>(e.fault()),
            },
    {
        let args = match fixed_request(value, "get", 1) {
            Err(e) => {
                return Err(e);
            },
            Ok(v) => v,
        };
        let key = match take_text(&args[0]) {
            Err(e) => {
                return Err(e);
            },
            Ok(t) => t,
        };
        Ok(Get { key })
    }

    /// The value of the key, or Null.
    pub fn execute(self, backend: &Backend) -> RespFrame {
        lookup_reply(backend.get(self.key.as_str()))
    }
}

impl SetCommand {
    /// Parses a request array as `parse_set` describes.
    pub fn try_from(value: RespArray) -> (r: Result<SetCommand, CommandError>)
        ensures
            match r {
                Ok(c) => parse_set(array_items(value)) == Ok::<_, CmdFault>(Request::SetKey(c.key@, c.value@)),
                Err(e) => parse_set(array_items(value)) == Err::<Request, CmdFault>(e.fault()),
            },
    {
        let mut args = match fixed_request(value, "set", 2) {
            Err(e) => {
                return Err(e);
            },
            Ok(v) => v,
        };
        let key = match take_text(&args[0]) {
            Err(e) => {
                return Err(e);
            },
            Ok(t) => t,
        };
        let value = args.remove(1);
        Ok(SetCommand { key, value })
    }

    /// Sets the key; replies `+OK`.
    pub fn execute(self, backend: &Backend) -> (r: RespFrame)
        ensures
            r@ == ok_value(),
    {
        backend.set(self.key, self.value);
        resp_ok()
    }
}

impl HGet {
    /// Parses a request array as `parse_hget` describes.
    pub fn try_from(value: RespArray) -> (r: Result<HGet, CommandError>)
        ensures
            match r {
                Ok(c) => parse_hget(array_items(value)) == Ok::<_, CmdFault>(Request::HGet(c.key@, c.field@)),
                Err(e) => parse_hget(array_items(value)) == Err::<Request, CmdFault>(e.fault()),
            },
    {
        let args = match fixed_request(value, "hget", 2) {
            Err(e) => {
                return Err(e);
            },
            Ok(v) => v,
        };
        let key = match take_text(&args[0]) {
            Err(e) => {
                return Err(e);
            },
            Ok(t) => t,
        };
        let field = match take_text(&args[1]) {
            Err(e) => {
                return Err(e);
            },
            Ok(t) => t,
        };
        Ok(HGet { key, field })
    }

    /// The value of the field, or Null.
    pub fn execute(self, backend: &Backend) -> RespFrame {
        lookup_reply(backend.hget(self.key.as_str(), self.field.as_str()))
    }
}

impl HSet {
    /// Parses a request array as `parse_hset` describes.
    pub fn try_from(value: RespArray) -> (r: Result<HSet, CommandError>)
        ensures
            match r {
                Ok(c) => parse_hset(array_items(value)) == Ok::<_, CmdFault>(
                    Request::HSet(c.key@, c.field@, c.value@),
                ),
                Err(e) => parse_hset(array_items(value)) == Err::<Request, CmdFault>(e.fault()),
            },
    {
        let mut args = match fixed_request(value, "hset", 3) {
            Err(e) => {
                return Err(e);
            },
            Ok(v) => v,
        };
        let key = match take_text(&args[0]) {
            Err(e) => {
                return Err(e);
            },
            Ok(t) => t,
        };
        let field = match take_text(&args[1]) {
            Err(e) => {
                return Err(e);
            },
            Ok(t) => t,
        };
        let value = args.remove(2);
        Ok(HSet { key, field, value })
    }

    /// Sets the field; replies `+OK`.
    pub fn execute(self, backend: &Backend) -> (r: RespFrame)
        ensures
            r@ == ok_value(),
    {
        backend.hset(self.key, self.field, self.value);
        resp_ok()
    }
}

impl HMGet {
    /// Parses a request array as `parse_hmget` describes.
    pub fn try_from(value: RespArray) -> (r: Result<HMGet, CommandError>)
        ensures
            match r {
                Ok(c) => parse_hmget(array_items(value)) == Ok::<_, CmdFault>(
                    Request::HMGet(c.key@, texts_view(c.fields@)),
                ),
                Err(e) => parse_hmget(array_items(value)) == Err::<Request, CmdFault>(e.fault()),
            },
    {
        let args = match dynamic_request(value, "hmget", 2) {
            Err(e) => {
                return Err(e);
            },
            Ok(v) => v,
        };
        let key = match take_text(&args[0]) {
            Err(e) => {
                return Err(e);
            },
            Ok(t) => t,
        };
        let fields = match take_texts(&args, 1) {
            Err(e) => {
                return Err(e);
            },
            Ok(v) => v,
        };
        Ok(HMGet { key, fields })
    }

    /// The value of each field asked for, Null for a miss, in order.
    pub fn execute(self, backend: &Backend) -> (r: RespFrame)
        ensures
            r@ is Array && r@->Array_0 is Some && r@->Array_0->0.len() == self.fields@.len(),
    {
        let mut found: Vec<Option<RespFrame>> = Vec::new();
        let mut i: usize = 0;
        while i < self.fields.len()
            invariant
                i <= self.fields@.len(),
                found@.len() == i,
            decreases self.fields@.len() - i,
        {
            found.push(backend.hget(self.key.as_str(), self.fields[i].as_str()));
            i = i + 1;
        }
        hmget_reply(found)
    }
}

impl HGetAll {
    /// Parses a request array as `parse_hgetall` describes.
    pub fn try_from(value: RespArray) -> (r: Result<HGetAll, CommandError>)
        ensures
            match r {
                Ok(c) => parse_hgetall(array_items(value)) == Ok::<_, CmdFault>(Request::HGetAll(c.key@)),
                Err(e) => parse_hgetall(array_items(value)) == Err::<Request, CmdFault>(e.fault()),
            },
    {
        let args = match fixed_request(value, "hgetall", 1) {
            Err(e) => {
                return Err(e);
            },
            Ok(v) => v,
        };
        let key = match take_text(&args[0]) {
            Err(e) => {
                return Err(e);
            },
            Ok(t) => t,
        };
        Ok(HGetAll { key })
    }

    /// The fields and values of the key, alternating; empty for a missing key.
    pub fn execute(self, backend: &Backend) -> (r: RespFrame)
        ensures
            exists|es: Seq<(String, RespFrame)>| r@ == Value::Array(Some(flat_entries(es))),
    {
        let entries = backend.hgetall(self.key.as_str());
        let ghost g = entries;
        let r = hgetall_reply(entries);
        proof {
            match g {
                Some(es) => assert(r@ == Value::Array(Some(flat_entries(es@)))),
                None => assert(r@ == Value::Array(Some(flat_entries(Seq::<(String, RespFrame)>::empty())))),
            }
        }
        r
    }
}

impl SAdd {
    /// Parses a request array as `parse_sadd` describes.
    pub fn try_from(value: RespArray) -> (r: Result<SAdd, CommandError>)
        ensures
            match r {
                Ok(c) => parse_sadd(array_items(value)) == Ok::<_, CmdFault>(
                    Request::SAdd(c.key@, texts_view(c.members@)),
                ),
                Err(e) => parse_sadd(array_items(value)) == Err::<Request, CmdFault>(e.fault()),
            },
    {
        let args = match dynamic_request(value, "sadd", 2) {
            Err(e) => {
                return Err(e);
            },
            Ok(v) => v,
        };
        let key = match take_text(&args[0]) {
            Err(e) => {
                return Err(e);
            },
            Ok(t) => t,
        };
        let members = match take_texts(&args, 1) {
            Err(e) => {
                return Err(e);
            },
            Ok(v) => v,
        };
        Ok(SAdd { key, members })
    }

    /// Adds each member, asking the store one member at a time; replies
    /// with how many of the store's answers said the member was new.
    pub fn execute(self, backend: &Backend) -> (r: RespFrame)
        ensures
            self.members@.len() <= i64::MAX ==> exists|answers: Seq<bool>|
                answers.len() == self.members@.len() && r@ == Value::Int(count_true(answers) as int),
    {
        if self.members.len() as u64 > i64::MAX as u64 {
            return RespFrame::Error(SimpleError::new("ERR too many members".to_owned()));
        }
        let mut added: Vec<bool> = Vec::new();
        let mut i: usize = 0;
        while i < self.members.len()
            invariant
                i <= self.members@.len(),
                added@.len() == i,
            decreases self.members@.len() - i,
        {
            added.push(backend.sadd(self.key.clone(), self.members[i].clone()) == 1);
            i = i + 1;
        }
        let r = sadd_reply(&added);
        assert(added@.len() == self.members@.len() && r@ == Value::Int(count_true(added@) as int));
        r
    }
}

/// How many of `s` are true.
pub open spec fn count_true(s: Seq<bool>) -> nat
    decreases s.len(),
{
    if s.len() == 0 {
        0
    } else {
        count_true(s.drop_last()) + if s.last() { 1nat } else { 0nat }
    }
}

/// The reply to SADD from the store's answer for each member (whether it
/// was new): the number of new members.
pub fn sadd_reply(added: &Vec<bool>) -> (r: RespFrame)
    requires
        added@.len() <= i64::MAX,
    ensures
        r@ == Value::Int(count_true(added@) as int),
{
    let mut n: i64 = 0;
    let mut i: usize = 0;
    while i < added.len()
        invariant
            i <= added@.len() <= i64::MAX,
            n == count_true(added@.take(i as int)),
            n <= i,
        decreases added@.len() - i,
    {
        assert(added@.take(i as int + 1).drop_last() =~= added@.take(i as int));
        if added[i] {
            n = n + 1;
        }
        i = i + 1;
    }
    assert(added@.take(i as int) =~= added@);
    RespFrame::Integer(n)
}

impl SIsMember {
    /// Parses a request array as `parse_sismember` describes.
    pub fn try_from(value: RespArray) -> (r: Result<SIsMember, CommandError>)
        ensures
            match r {
                Ok(c) => parse_sismember(array_items(value)) == Ok::<_, CmdFault>(
                    Request::SIsMember(c.key@, c.member@),
                ),
                Err(e) => parse_sismember(array_items(value)) == Err::<Request, CmdFault>(e.fault()),
            },
    {
        let args = match fixed_request(value, "sismember", 2) {
            Err(e) => {
                return Err(e);
            },
            Ok(v) => v,
        };
        let key = match take_text(&args[0]) {
            Err(e) => {
                return Err(e);
            },
            Ok(t) => t,
        };
        let member = match take_text(&args[1]) {
            Err(e) => {
                return Err(e);
            },
            Ok(t) => t,
        };
        Ok(SIsMember { key, member })
    }

    /// 1 when the set holds the member, else 0.
    pub fn execute(self, backend: &Backend) -> (r: RespFrame)
        ensures
            r@ == Value::Int(0) || r@ == Value::Int(1),
    {
        member_reply(backend.sismember(self.key.as_str(), self.member.as_str()))
    }
}

/// The reply to SISMEMBER.
pub fn member_reply(present: bool) -> (r: RespFrame)
    ensures
        r@ == Value::Int(if present { 1 } else { 0 }),
{
    RespFrame::Integer(if present { 1 } else { 0 })
}

impl Echo {
    /// Parses a request array as `parse_echo` describes.
    pub fn try_from(value: RespArray) -> (r: Result<Echo, CommandError>)
        ensures
            match r {
                Ok(c) => parse_echo(array_items(value)) == Ok::<_, CmdFault>(Request::Echo(c.message@)),
                Err(e) => parse_echo(array_items(value)) == Err::<Request, CmdFault>(e.fault()),
            },
    {
        let args = match fixed_request(value, "echo", 1) {
            Err(e) => {
                return Err(e);
            },
            Ok(v) => v,
        };
        let message = match take_text(&args[0]) {
            Err(e) => {
                return Err(e);
            },
            Ok(t) => t,
        };
        Ok(Echo { message })
    }

    /// The message, as a bulk string.
    pub fn execute(self, backend: &Backend) -> (r: RespFrame)
        ensures
            r@ == Value::Bulk(Some(encode_utf8(self.message@))),
    {
        let b = self.message.as_str().as_bytes();
        let mut out: Vec<u8> = Vec::new();
        let mut j: usize = 0;
        while j < b.len()
            invariant
                j <= b@.len(),
                out@ == b@.take(j as int),
            decreases b@.len() - j,
        {
            out.push(b[j]);
            j = j + 1;
            assert(out@ =~= b@.take(j as int));
        }
        assert(b@.take(j as int) =~= b@);
        RespFrame::BulkString(BulkString(Some(out)))
    }
}

/// The error text for a verb outside the command set.
pub open spec fn unknown_text(verb: Seq<u8>) -> Seq<char> {
    "ERR unknown command '"@ + lossy_text(verb) + "'"@
}

impl Unrecognized {
    /// An error reply naming the verb.
    pub fn execute(self, backend: &Backend) -> (r: RespFrame)
        ensures
            r@ == Value::Error(unknown_text(self.verb@)),
    {
        let mut s = "ERR unknown command '".to_owned();
        let v = lossy_string(self.verb.as_slice());
        s.append(v.as_str());
        s.append("'");
        RespFrame::Error(SimpleError::new(s))
    }
}


/// What the reply to a request is, as far as it does not depend on what the
/// store holds (the store is shared with other connections).
pub open spec fn reply_fits(req: Request, r: Value) -> bool {
    match req {
        Request::SetKey(_, _) | Request::HSet(_, _, _) => r == ok_value(),
        Request::Echo(m) => r == Value::Bulk(Some(encode_utf8(m))),
        Request::Unrecognized(w) => r == Value::Error(unknown_text(w)),
        Request::SIsMember(_, _) => r == Value::Int(0) || r == Value::Int(1),
        Request::SAdd(_, ms) => ms.len() <= i64::MAX ==> exists|answers: Seq<bool>|
            answers.len() == ms.len() && r == Value::Int(count_true(answers) as int),
        Request::HMGet(_, fs) => r is Array && r->Array_0 is Some && r->Array_0->0.len() == fs.len(),
        Request::HGetAll(_) => exists|es: Seq<(String, RespFrame)>| r == Value::Array(Some(flat_entries(es))),
        Request::Get(_) | Request::HGet(_, _) => true,
    }
}

/// A parsed request, one variant per verb.
#[derive(Debug)]
pub enum Command {
    Get(Get),
    SetCommand(SetCommand),
    HGet(HGet),
    HSet(HSet),
    HMGet(HMGet),
    HGetAll(HGetAll),
    SAdd(SAdd),
    SIsMember(SIsMember),
    Echo(Echo),
    Unrecognized(Unrecognized),
}

fn verb_is(w: &Vec<u8>, name: &str) -> (r: bool)
    ensures
        r == (w@ == name.spec_bytes()),
{
    compare_bytes(w.as_slice(), name.as_bytes()) == 0
}

impl Command {
    /// The request this command carries.
    pub open spec fn request(&self) -> Request {
        match self {
            Command::Get(c) => Request::Get(c.key@),
            Command::SetCommand(c) => Request::SetKey(c.key@, c.value@),
            Command::HGet(c) => Request::HGet(c.key@, c.field@),
            Command::HSet(c) => Request::HSet(c.key@, c.field@, c.value@),
            Command::HMGet(c) => Request::HMGet(c.key@, texts_view(c.fields@)),
            Command::HGetAll(c) => Request::HGetAll(c.key@),
            Command::SAdd(c) => Request::SAdd(c.key@, texts_view(c.members@)),
            Command::SIsMember(c) => Request::SIsMember(c.key@, c.member@),
            Command::Echo(c) => Request::Echo(c.message@),
            Command::Unrecognized(c) => Request::Unrecognized(c.verb@),
        }
    }

    /// Parses a request frame.
    pub fn try_from(value: RespFrame) -> (r: Result<Command, CommandError>)
        ensures
            match r {
                Ok(c) => request_of(value@) == Ok::<_, CmdFault>(c.request()),
                Err(e) => request_of(value@) == Err::<Request, CmdFault>(e.fault()),
            },
    {
        match value {
            RespFrame::Array(a) => Command::try_from_array(a),
            _ => Err(invalid_command("Command must be an array")),
        }
    }

    /// Parses a request array.
    pub fn try_from_array(value: RespArray) -> (r: Result<Command, CommandError>)
        ensures
            match r {
                Ok(c) => request_of(Value::Array(array_items(value))) == Ok::<_, CmdFault>(c.request()),
                Err(e) => request_of(Value::Array(array_items(value))) == Err::<Request, CmdFault>(
                    e.fault(),
                ),
            },
    {
        let w = match &value.0 {
            None => {
                return Err(invalid_command("Command must not be a null array"));
            },
            Some(items) => match lowered_verb(items) {
                None => {
                    return Err(invalid_command("command must have a bulk string as its first item"));
                },
                Some(w) => w,
            },
        };
        if verb_is(&w, "get") {
            match Get::try_from(value) {
                Ok(c) => Ok(Command::Get(c)),
                Err(e) => Err(e),
            }
        } else if verb_is(&w, "set") {
            match SetCommand::try_from(value) {
                Ok(c) => Ok(Command::SetCommand(c)),
                Err(e) => Err(e),
            }
        } else if verb_is(&w, "hget") {
            match HGet::try_from(value) {
                Ok(c) => Ok(Command::HGet(c)),
                Err(e) => Err(e),
            }
        } else if verb_is(&w, "hset") {
            match HSet::try_from(value) {
                Ok(c) => Ok(Command::HSet(c)),
                Err(e) => Err(e),
            }
        } else if verb_is(&w, "hgetall") {
            match HGetAll::try_from(value) {
                Ok(c) => Ok(Command::HGetAll(c)),
                Err(e) => Err(e),
            }
        } else if verb_is(&w, "hmget") {
            match HMGet::try_from(value) {
                Ok(c) => Ok(Command::HMGet(c)),
                Err(e) => Err(e),
            }
        } else if verb_is(&w, "echo") {
            match Echo::try_from(value) {
                Ok(c) => Ok(Command::Echo(c)),
                Err(e) => Err(e),
            }
        } else if verb_is(&w, "sadd") {
            match SAdd::try_from(value) {
                Ok(c) => Ok(Command::SAdd(c)),
                Err(e) => Err(e),
            }
        } else if verb_is(&w, "sismember") {
            match SIsMember::try_from(value) {
                Ok(c) => Ok(Command::SIsMember(c)),
                Err(e) => Err(e),
            }
        } else {
            Ok(Command::Unrecognized(Unrecognized { verb: w }))
        }
    }

    /// Runs the command against the store and gives its reply.
    pub fn execute(self, backend: &Backend) -> (r: RespFrame)
        ensures
            reply_fits(self.request(), r@),
    {
        match self {
            Command::Get(c) => c.execute(backend),
            Command::SetCommand(c) => c.execute(backend),
            Command::HGet(c) => c.execute(backend),
            Command::HSet(c) => c.execute(backend),
            Command::HMGet(c) => c.execute(backend),
            Command::HGetAll(c) => c.execute(backend),
            Command::SAdd(c) => c.execute(backend),
            Command::SIsMember(c) => c.execute(backend),
            Command::Echo(c) => c.execute(backend),
            Command::Unrecognized(c) => c.execute(backend),
        }
    }
}

} // verus!
