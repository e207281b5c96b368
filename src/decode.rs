//! The decoder: the first frame of a byte stream, or why there is none yet.
use vstd::prelude::*;
use crate::frame::{
    RespFrame, Value, SimpleString, SimpleError, BulkString, RespArray, RespNull, RespDouble,
    RespMap, RespSet, MAX_BULK_LEN, MAX_ITEMS, frames_value, map_insert,
};
use crate::text::{signed_value, fits_i64, double_text, parse_signed, is_double_text};
use crate::strings::utf8_string;
use vstd::utf8::{valid_utf8, decode_utf8};
use crate::buffer::{buf_bytes, buf_slice, buf_advance};
use bytes::BytesMut;

verus! {

/// What went wrong while decoding, as the contracts speak of it.
pub enum Fault {
    /// More bytes are needed.
    Incomplete,
    /// The type tag, or a fixed form, is not one the protocol has.
    BadType,
    /// The frame is malformed (a number that does not parse, a bad terminator).
    BadFrame,
    /// A length or count is over the codec's bound; it carries that length.
    BadLength(int),
}

/// Why no frame was decoded.
#[derive(Debug, PartialEq)]
pub enum RespError {
    InvalidFrame(String),
    InvalidFrameType(String),
    InvalidFrameLength(i64),
    NotComplete,
}

impl RespError {
    pub open spec fn fault(&self) -> Fault {
        match self {
            RespError::InvalidFrame(_) => Fault::BadFrame,
            RespError::InvalidFrameType(_) => Fault::BadType,
            RespError::InvalidFrameLength(n) => Fault::BadLength(*n as int),
            RespError::NotComplete => Fault::Incomplete,
        }
    }

    /// The error's text, as a client sees it in an error reply.
    pub fn message(&self) -> (r: String)
        ensures
            r@ == resp_error_text(*self),
    {
        match self {
            RespError::InvalidFrame(m) => {
                let mut s = "Invalid frame: ".to_owned();
                s.append(m.as_str());
                s
            },
            RespError::InvalidFrameType(m) => {
                let mut s = "Invalid frame type: ".to_owned();
                s.append(m.as_str());
                s
            },
            RespError::InvalidFrameLength(_) => "Invalid frame length".to_owned(),
            RespError::NotComplete => "Frame is not complete".to_owned(),
        }
    }
}

/// The text of a decoding error: a tag naming its kind, then its detail.
pub open spec fn resp_error_text(e: RespError) -> Seq<char> {
    match e {
        RespError::InvalidFrame(m) => "Invalid frame: "@ + m@,
        RespError::InvalidFrameType(m) => "Invalid frame type: "@ + m@,
        RespError::InvalidFrameLength(_) => "Invalid frame length"@,
        RespError::NotComplete => "Frame is not complete"@,
    }
}

/// The tag that begins the text of an error of kind `f`.
pub open spec fn fault_tag(f: Fault) -> Seq<char> {
    match f {
        Fault::BadFrame => "Invalid frame: "@,
        Fault::BadType => "Invalid frame type: "@,
        Fault::BadLength(_) => "Invalid frame length"@,
        Fault::Incomplete => "Frame is not complete"@,
    }
}

/// Whether text `t` begins with `p`.
pub open spec fn text_starts(t: Seq<char>, p: Seq<char>) -> bool {
    p.len() <= t.len() && t.take(p.len() as int) == p
}

/// The text of an error begins with the tag of its kind.
pub proof fn lemma_error_text_tag(e: RespError)
    ensures
        text_starts(resp_error_text(e), fault_tag(e.fault())),
{
    let t = resp_error_text(e);
    let p = fault_tag(e.fault());
    match e {
        RespError::InvalidFrame(m) => assert(t.take(p.len() as int) =~= p),
        RespError::InvalidFrameType(m) => assert(t.take(p.len() as int) =~= p),
        _ => assert(t.take(p.len() as int) =~= p),
    }
}

/// The first CR LF pair of `s` at or after `i`.
pub open spec fn find_crlf(s: Seq<u8>, i: int) -> Option<int>
    decreases s.len() - i,
{
    if i < 0 || i + 1 >= s.len() {
        None
    } else if s[i] == 13u8 && s[i + 1] == 10u8 {
        Some(i)
    } else {
        find_crlf(s, i + 1)
    }
}

/// The integer of a line's text, when it is one and fits in 64 bits.
pub open spec fn int_of(body: Seq<u8>) -> Option<int> {
    match signed_value(body) {
        Some(v) => if fits_i64(v) { Some(v) } else { None },
        None => None,
    }
}

/// Whether `t` is a tag whose frame begins with a CR LF terminated line.
pub open spec fn is_line_tag(t: u8) -> bool {
    t == 43u8 || t == 45u8 || t == 58u8 || t == 44u8 || t == 36u8 || t == 42u8 || t == 37u8 || t == 126u8
}

/// The first frame of `s` and how many bytes it takes, or why there is none.
/// (The tests of a line end or a count against the length of `s` never fail
/// on what `find_crlf` and `parse` return; they make the definition's
/// termination evident.)
pub open spec fn parse(s: Seq<u8>) -> Result<(Value, nat), Fault>
    decreases s.len(), 1nat, 0nat,
{
    if s.len() == 0 {
        Err(Fault::Incomplete)
    } else if s[0] == 95u8 {
        if s.len() < 3 {
            Err(Fault::Incomplete)
        } else if s[1] == 13u8 && s[2] == 10u8 {
            Ok((Value::Null, 3))
        } else {
            Err(Fault::BadType)
        }
    } else if s[0] == 35u8 {
        if s.len() < 4 {
            Err(Fault::Incomplete)
        } else if s[1] == 116u8 && s[2] == 13u8 && s[3] == 10u8 {
            Ok((Value::Bool(true), 4))
        } else if s[1] == 102u8 && s[2] == 13u8 && s[3] == 10u8 {
            Ok((Value::Bool(false), 4))
        } else {
            Err(Fault::BadType)
        }
    } else if !is_line_tag(s[0]) {
        Err(Fault::BadType)
    } else {
        match find_crlf(s, 1) {
            None => Err(Fault::Incomplete),
            Some(e) => if e < 1 || e + 2 > s.len() {
                Err(Fault::BadFrame)
            } else {
                let body = s.subrange(1, e);
                let rest = s.subrange(e + 2, s.len() as int);
                let head = (e + 2) as nat;
                if s[0] == 43u8 || s[0] == 45u8 {
                    if !valid_utf8(body) {
                        Err(Fault::BadFrame)
                    } else if s[0] == 43u8 {
                        Ok((Value::Simple(decode_utf8(body)), head))
                    } else {
                        Ok((Value::Error(decode_utf8(body)), head))
                    }
                } else if s[0] == 44u8 {
                    if double_text(body) {
                        Ok((Value::Double(body), head))
                    } else {
                        Err(Fault::BadFrame)
                    }
                } else {
                    match int_of(body) {
                        None => Err(Fault::BadFrame),
                        Some(n) => if s[0] == 58u8 {
                            Ok((Value::Int(n), head))
                        } else if s[0] == 36u8 {
                            if n == -1 {
                                Ok((Value::Bulk(None), head))
                            } else if n < 0 {
                                Err(Fault::BadFrame)
                            } else if n > MAX_BULK_LEN {
                                Err(Fault::BadLength(n))
                            } else if rest.len() < n + 2 {
                                Err(Fault::Incomplete)
                            } else if rest[n] != 13u8 || rest[n + 1] != 10u8 {
                                Err(Fault::BadFrame)
                            } else {
                                Ok((Value::Bulk(Some(rest.take(n))), head + n as nat + 2))
                            }
                        } else if s[0] == 42u8 && n == -1 {
                            Ok((Value::Array(None), head))
                        } else if n < 0 {
                            Err(Fault::BadFrame)
                        } else if n > MAX_ITEMS {
                            Err(Fault::BadLength(n))
                        } else if s[0] == 37u8 {
                            match parse_entries(rest, n as nat, Seq::empty()) {
                                Ok((es, k)) => Ok((Value::Entries(es), head + k)),
                                Err(f) => Err(f),
                            }
                        } else {
                            match parse_items(rest, n as nat) {
                                Ok((items, k)) => Ok(
                                    (
                                        if s[0] == 42u8 {
                                            Value::Array(Some(items))
                                        } else {
                                            Value::Members(items)
                                        },
                                        head + k,
                                    ),
                                ),
                                Err(f) => Err(f),
                            }
                        },
                    }
                }
            },
        }
    }
}

/// `n` frames, one after another, from the front of `r`.
pub open spec fn parse_items(r: Seq<u8>, n: nat) -> Result<(Seq<Value>, nat), Fault>
    decreases r.len(), 2nat, n,
{
    if n == 0 {
        Ok((Seq::empty(), 0))
    } else if r.len() == 0 {
        Err(Fault::Incomplete)
    } else {
        match parse(r) {
            Err(f) => Err(f),
            Ok((v, k)) => if k > r.len() {
                Err(Fault::BadFrame)
            } else {
                match parse_items(r.subrange(k as int, r.len() as int), (n - 1) as nat) {
                    Err(f) => Err(f),
                    Ok((vs, m)) => Ok((seq![v] + vs, k + m)),
                }
            },
        }
    }
}

/// A map key: a simple string.
pub open spec fn parse_key(r: Seq<u8>) -> Result<(Seq<char>, nat), Fault> {
    if r.len() == 0 {
        Err(Fault::Incomplete)
    } else if r[0] != 43u8 {
        Err(Fault::BadType)
    } else {
        match find_crlf(r, 1) {
            None => Err(Fault::Incomplete),
            Some(e) => if e < 1 || e + 2 > r.len() || !valid_utf8(r.subrange(1, e)) {
                Err(Fault::BadFrame)
            } else {
                Ok((decode_utf8(r.subrange(1, e)), (e + 2) as nat))
            },
        }
    }
}

/// `n` map entries from the front of `r`, each set into `acc` in turn.
pub open spec fn parse_entries(r: Seq<u8>, n: nat, acc: Seq<(Seq<char>, Value)>) -> Result<
    (Seq<(Seq<char>, Value)>, nat),
    Fault,
>
    decreases r.len(), 2nat, n,
{
    if n == 0 {
        Ok((acc, 0))
    } else if r.len() == 0 {
        Err(Fault::Incomplete)
    } else {
        match parse_key(r) {
            Err(f) => Err(f),
            Ok((key, k1)) => if k1 > r.len() {
                Err(Fault::BadFrame)
            } else {
                let r2 = r.subrange(k1 as int, r.len() as int);
                if r2.len() == 0 {
                    Err(Fault::Incomplete)
                } else {
                    match parse(r2) {
                        Err(f) => Err(f),
                        Ok((v, k2)) => if k2 > r2.len() {
                            Err(Fault::BadFrame)
                        } else {
                            match parse_entries(
                                r2.subrange(k2 as int, r2.len() as int),
                                (n - 1) as nat,
                                map_insert(acc, key, v),
                            ) {
                                Err(f) => Err(f),
                                Ok((es, m)) => Ok((es, k1 + k2 + m)),
                            }
                        },
                    }
                }
            },
        }
    }
}


/// The result of decoding items after `vs`, taking `c` bytes, was prepended.
pub open spec fn after(vs: Seq<Value>, c: nat, res: Result<(Seq<Value>, nat), Fault>) -> Result<
    (Seq<Value>, nat),
    Fault,
> {
    match res {
        Ok((ws, m)) => Ok((vs + ws, c + m)),
        Err(f) => Err(f),
    }
}

/// `res` with `c` more bytes taken.
pub open spec fn shifted(c: nat, res: Result<(Seq<(Seq<char>, Value)>, nat), Fault>) -> Result<
    (Seq<(Seq<char>, Value)>, nat),
    Fault,
> {
    match res {
        Ok((es, m)) => Ok((es, c + m)),
        Err(f) => Err(f),
    }
}

fn bad_frame(msg: &str) -> (r: RespError)
    ensures
        r.fault() == Fault::BadFrame,
{
    RespError::InvalidFrame(msg.to_owned())
}

fn bad_type(msg: &str) -> (r: RespError)
    ensures
        r.fault() == Fault::BadType,
{
    RespError::InvalidFrameType(msg.to_owned())
}

fn find_crlf_from(b: &[u8], from: usize) -> (r: Option<usize>)
    ensures
        match r {
            Some(e) => find_crlf(b@, from as int) == Some(e as int),
            None => find_crlf(b@, from as int) is None,
        },
        r is Some ==> from <= r->0 && r->0 + 2 <= b@.len(),
{
    let mut i = from;
    while i < b.len() && i + 1 < b.len()
        invariant
            from <= i,
            find_crlf(b@, from as int) == find_crlf(b@, i as int),
        decreases b@.len() - i,
    {
        if b[i] == 13u8 && b[i + 1] == 10u8 {
            return Some(i);
        }
        i = i + 1;
    }
    None
}

fn copy_range(b: &[u8], lo: usize, hi: usize) -> (r: Vec<u8>)
    requires
        lo <= hi <= b@.len(),
    ensures
        r@ == b@.subrange(lo as int, hi as int),
{
    let mut out: Vec<u8> = Vec::new();
    let mut i = lo;
    while i < hi
        invariant
            lo <= i <= hi <= b@.len(),
            out@ == b@.subrange(lo as int, i as int),
        decreases hi - i,
    {
        out.push(b[i]);
        i = i + 1;
        assert(out@ =~= b@.subrange(lo as int, i as int));
    }
    out
}

/// Decodes the first frame of `b`, giving it with the number of bytes it
/// takes.
pub fn decode_prefix(b: &[u8]) -> (r: Result<(RespFrame, usize), RespError>)
    ensures
        match r {
            Ok((f, n)) => parse(b@) == Ok::<_, Fault>((f@, n as nat)) && n <= b@.len(),
            Err(e) => parse(b@) == Err::<(Value, nat), Fault>(e.fault()),
        },
    decreases b@.len(), 1nat, 0nat,
{
    if b.len() == 0 {
        return Err(RespError::NotComplete);
    }
    let tag = b[0];
    if tag == 95u8 {
        if b.len() < 3 {
            return Err(RespError::NotComplete);
        }
        if b[1] == 13u8 && b[2] == 10u8 {
            return Ok((RespFrame::Null(RespNull), 3));
        }
        return Err(bad_type("expecting a null"));
    }
    if tag == 35u8 {
        if b.len() < 4 {
            return Err(RespError::NotComplete);
        }
        if b[2] == 13u8 && b[3] == 10u8 {
            if b[1] == 116u8 {
                return Ok((RespFrame::Boolean(true), 4));
            }
            if b[1] == 102u8 {
                return Ok((RespFrame::Boolean(false), 4));
            }
        }
        return Err(bad_type("invalid boolean"));
    }
    if !(tag == 43u8 || tag == 45u8 || tag == 58u8 || tag == 44u8 || tag == 36u8 || tag == 42u8
        || tag == 37u8 || tag == 126u8) {
        return Err(bad_type("unknown type tag"));
    }
    let e = match find_crlf_from(b, 1) {
        None => {
            return Err(RespError::NotComplete);
        },
        Some(e) => e,
    };
    let head = e + 2;
    let ghost body = b@.subrange(1, e as int);
    let ghost rest = b@.subrange(head as int, b@.len() as int);
    if tag == 43u8 || tag == 45u8 {
        let text = match utf8_string(copy_range(b, 1, e)) {
            Some(t) => t,
            None => {
                return Err(bad_frame("text is not valid UTF-8"));
            },
        };
        if tag == 43u8 {
            return Ok((RespFrame::SimpleString(SimpleString(text)), head));
        }
        return Ok((RespFrame::Error(SimpleError(text)), head));
    }
    if tag == 44u8 {
        if is_double_text(b, 1, e) {
            return Ok((RespFrame::Double(RespDouble(copy_range(b, 1, e))), head));
        }
        return Err(bad_frame("invalid double"));
    }
    let n = match parse_signed(b, 1, e) {
        None => {
            return Err(bad_frame("invalid number"));
        },
        Some(n) => n,
    };
    if tag == 58u8 {
        return Ok((RespFrame::Integer(n), head));
    }
    if tag == 36u8 {
        if n == -1 {
            return Ok((RespFrame::BulkString(BulkString(None)), head));
        }
        if n < 0 {
            return Err(bad_frame("invalid bulk string length"));
        }
        if n > MAX_BULK_LEN as i64 {
            return Err(RespError::InvalidFrameLength(n));
        }
        let len = n as usize;
        if b.len() - head < len + 2 {
            return Err(RespError::NotComplete);
        }
        assert(rest[len as int] == b@[head + len]);
        assert(rest[len + 1] == b@[head + len + 1]);
        if b[head + len] != 13u8 || b[head + len + 1] != 10u8 {
            return Err(bad_frame("bulk string without terminator"));
        }
        let data = copy_range(b, head, head + len);
        assert(data@ =~= rest.take(len as int));
        return Ok((RespFrame::BulkString(BulkString(Some(data))), head + len + 2));
    }
    if tag == 42u8 && n == -1 {
        return Ok((RespFrame::Array(RespArray(None)), head));
    }
    if n < 0 {
        return Err(bad_frame("invalid count"));
    }
    if n > MAX_ITEMS as i64 {
        return Err(RespError::InvalidFrameLength(n));
    }
    let tail = &b[head..b.len()];
    assert(tail@ == rest);
    if tag == 37u8 {
        match decode_entries(tail, n as usize) {
            Ok((m, k)) => Ok((RespFrame::RespMap(m), head + k)),
            Err(err) => Err(err),
        }
    } else {
        match decode_items(tail, n as usize) {
            Ok((items, k)) => {
                if tag == 42u8 {
                    Ok((RespFrame::Array(RespArray(Some(items))), head + k))
                } else {
                    Ok((RespFrame::RespSet(RespSet(items)), head + k))
                }
            },
            Err(err) => Err(err),
        }
    }
}

/// Decodes `n` frames, one after another, from the front of `b`.
fn decode_items(b: &[u8], n: usize) -> (r: Result<(Vec<RespFrame>, usize), RespError>)
    ensures
        match r {
            Ok((v, k)) => parse_items(b@, n as nat) == Ok::<_, Fault>((frames_value(v@), k as nat)) && k <= b@.len(),
            Err(e) => parse_items(b@, n as nat) == Err::<(Seq<Value>, nat), Fault>(e.fault()),
        },
    decreases b@.len(), 2nat, n,
{
    let mut items: Vec<RespFrame> = Vec::new();
    let mut c: usize = 0;
    let mut j: usize = 0;
    assert(b@.subrange(0, b@.len() as int) =~= b@);
    assert(frames_value(items@) =~= Seq::<Value>::empty());
    while j < n
        invariant
            c <= b@.len(),
            j <= n,
            parse_items(b@, n as nat) == after(
                frames_value(items@),
                c as nat,
                parse_items(b@.subrange(c as int, b@.len() as int), (n - j) as nat),
            ),
        decreases n - j,
    {
        if c == b.len() {
            return Err(RespError::NotComplete);
        }
        let sub = &b[c..b.len()];
        let ghost r0 = sub@;
        let (f, k) = match decode_prefix(sub) {
            Err(err) => {
                return Err(err);
            },
            Ok(p) => p,
        };
        proof {
            assert(r0.subrange(k as int, r0.len() as int) =~= b@.subrange(c + k, b@.len() as int));
            let tail = parse_items(b@.subrange(c + k, b@.len() as int), (n - j - 1) as nat);
            assert(frames_value(items@.push(f)) == frames_value(items@).push(f@)) by {
                assert(items@.push(f).drop_last() =~= items@);
            }
            match tail {
                Ok((ws, m)) => {
                    assert(frames_value(items@) + (seq![f@] + ws) =~= frames_value(items@).push(f@) + ws);
                },
                Err(_) => {},
            }
        }
        items.push(f);
        c = c + k;
        j = j + 1;
    }
    proof {
        assert(frames_value(items@) + Seq::<Value>::empty() =~= frames_value(items@));
    }
    Ok((items, c))
}

/// Decodes `n` map entries from the front of `b`.
fn decode_entries(b: &[u8], n: usize) -> (r: Result<(RespMap, usize), RespError>)
    ensures
        match r {
            Ok((m, k)) => parse_entries(b@, n as nat, Seq::empty()) == Ok::<_, Fault>((m.entries(), k as nat)) && k
                <= b@.len() && m.wf(),
            Err(e) => parse_entries(b@, n as nat, Seq::empty()) == Err::<(Seq<(Seq<char>, Value)>, nat), Fault>(
                e.fault(),
            ),
        },
    decreases b@.len(), 2nat, n,
{
    let mut m = RespMap::new();
    let mut c: usize = 0;
    let mut j: usize = 0;
    assert(b@.subrange(0, b@.len() as int) =~= b@);
    while j < n
        invariant
            c <= b@.len(),
            j <= n,
            m.wf(),
            parse_entries(b@, n as nat, Seq::empty()) == shifted(
                c as nat,
                parse_entries(b@.subrange(c as int, b@.len() as int), (n - j) as nat, m.entries()),
            ),
        decreases n - j,
    {
        if c == b.len() {
            return Err(RespError::NotComplete);
        }
        let sub = &b[c..b.len()];
        let ghost r0 = sub@;
        if sub[0] != 43u8 {
            return Err(bad_type("map key must be a simple string"));
        }
        let e = match find_crlf_from(sub, 1) {
            None => {
                return Err(RespError::NotComplete);
            },
            Some(e) => e,
        };
        let key = match utf8_string(copy_range(sub, 1, e)) {
            Some(t) => t,
            None => {
                return Err(bad_frame("map key is not valid UTF-8"));
            },
        };
        let k1 = e + 2;
        let sub2 = &sub[k1..sub.len()];
        let ghost r2 = sub2@;
        assert(r2 =~= r0.subrange(k1 as int, r0.len() as int));
        if sub2.len() == 0 {
            return Err(RespError::NotComplete);
        }
        let (v, k2) = match decode_prefix(sub2) {
            Err(err) => {
                return Err(err);
            },
            Ok(p) => p,
        };
        proof {
            assert(r2.subrange(k2 as int, r2.len() as int) =~= b@.subrange(c + k1 + k2, b@.len() as int));
        }
        m.insert(key, v);
        c = c + k1 + k2;
        j = j + 1;
    }
    Ok((m, c))
}


/// What decoding did: on success the frame's bytes leave the buffer; on any
/// error the buffer is left as it was.
pub open spec fn decoded<T: View<V = Value>>(before: Seq<u8>, r: Result<T, RespError>, after: Seq<u8>) -> bool {
    match parse(before) {
        Ok((v, n)) => r is Ok && r->Ok_0@ == v && after == before.subrange(n as int, before.len() as int),
        Err(f) => r is Err && r->Err_0.fault() == f && after == before,
    }
}

/// Decoding from a stream buffer.
pub trait RespDecode: Sized + View<V = Value> {
    /// Takes the first frame off the front of `buf`. When the frame is not
    /// complete, or the bytes are malformed, `buf` is left as it was.
    fn decode(buf: &mut BytesMut) -> (r: Result<Self, RespError>)
        ensures
            decoded(buf_bytes(*old(buf)), r, buf_bytes(*final(buf))),
    ;
}

impl RespDecode for RespFrame {
    fn decode(buf: &mut BytesMut) -> (r: Result<RespFrame, RespError>) {
        let res = decode_prefix(buf_slice(buf));
        match res {
            Ok((f, n)) => {
                buf_advance(buf, n);
                Ok(f)
            },
            Err(e) => Err(e),
        }
    }
}

} // verus!
