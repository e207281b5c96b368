//! The decisions of a connection: from the bytes read so far to what the
//! connection does next. The loop that reads and writes runs around this.
use vstd::prelude::*;
use bytes::BytesMut;
use crate::frame::{RespFrame, SimpleError, Value};
use crate::decode::{RespDecode, RespError, Fault, parse, fault_tag, text_starts, lemma_error_text_tag};
use crate::buffer::buf_bytes;
use crate::cmd::{Command, CmdFault, request_of, reply_fits, cmd_fault_tag};
use crate::backend::Backend;

verus! {

/// What the connection does next.
#[derive(Debug)]
pub enum Step {
    /// Read more bytes, then try again.
    NeedMore,
    /// Send this reply, then go on with the buffer.
    Reply(RespFrame),
    /// Send this error reply, then close: the stream is broken.
    ReplyAndClose(RespFrame),
}

/// An error reply with the given text.
pub fn error_reply(message: String) -> (r: RespFrame)
    ensures
        r@ == Value::Error(message@),
{
    RespFrame::Error(SimpleError::new(message))
}

/// Whether `r` is an error reply whose text begins with `tag`.
pub open spec fn tagged_error(r: Value, tag: Seq<char>) -> bool {
    match r {
        Value::Error(t) => text_starts(t, tag),
        _ => false,
    }
}

/// The reply owed to request frame `v`: for a refused request, an error
/// whose text begins with the refusal's tag; else what the command replies.
pub open spec fn answers(v: Value, r: Value) -> bool {
    match request_of(v) {
        Err(f) => tagged_error(r, cmd_fault_tag(f)),
        Ok(req) => reply_fits(req, r),
    }
}

/// Answers one request frame: the command's reply, or an error reply when
/// the frame is not a valid request. Either way the connection goes on.
pub fn respond(frame: RespFrame, backend: &Backend) -> (r: RespFrame)
    ensures
        answers(frame@, r@),
{
    match Command::try_from(frame) {
        Ok(cmd) => cmd.execute(backend),
        Err(e) => {
            let m = e.message();
            assert(m@.take(cmd_fault_tag(e.fault()).len() as int) =~= cmd_fault_tag(e.fault()));
            error_reply(m)
        },
    }
}

/// One step over the read buffer: decode a frame and answer it. A frame
/// that is not complete leaves the buffer as it was; malformed bytes get an
/// error reply carrying the decoding error's text, and end the connection;
/// a decoded request is answered as `respond` does, and its bytes leave the
/// buffer.
pub fn next_step(buf: &mut BytesMut, backend: &Backend) -> (r: Step)
    ensures
        match parse(buf_bytes(*old(buf))) {
            Err(Fault::Incomplete) => r is NeedMore && buf_bytes(*final(buf)) == buf_bytes(*old(buf)),
            Err(f) => r is ReplyAndClose && tagged_error(r->ReplyAndClose_0@, fault_tag(f))
                && buf_bytes(*final(buf)) == buf_bytes(*old(buf)),
            Ok((v, n)) => r is Reply && buf_bytes(*final(buf)) == buf_bytes(*old(buf)).subrange(
                n as int,
                buf_bytes(*old(buf)).len() as int,
            ) && answers(v, r->Reply_0@),
        },
{
    match RespFrame::decode(buf) {
        Ok(frame) => Step::Reply(respond(frame, backend)),
        Err(RespError::NotComplete) => Step::NeedMore,
        Err(e) => {
            proof { lemma_error_text_tag(e); }
            Step::ReplyAndClose(error_reply(e.message()))
        },
    }
}

} // verus!
