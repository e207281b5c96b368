//! The encoder: a frame to its canonical bytes.
use vstd::prelude::*;
use vstd::utf8::encode_utf8;
use crate::text::{digits_of, signed_text, push_digits, push_signed};
use crate::frame::{RespFrame, Value, frames_value, entries_value};

verus! {

/// The line terminator.
pub open spec fn crlf() -> Seq<u8> {
    seq![13u8, 10u8]
}

/// The canonical wire form of a frame.
pub open spec fn encode_value(v: Value) -> Seq<u8>
    decreases v,
{
    match v {
        Value::Simple(s) => seq![43u8] + encode_utf8(s) + crlf(),
        Value::Error(s) => seq![45u8] + encode_utf8(s) + crlf(),
        Value::Int(i) => seq![58u8] + signed_text(i) + crlf(),
        Value::Bulk(None) => seq![36u8, 45u8, 49u8] + crlf(),
        Value::Bulk(Some(b)) => seq![36u8] + digits_of(b.len()) + crlf() + b + crlf(),
        Value::Array(None) => seq![42u8, 45u8, 49u8] + crlf(),
        Value::Array(Some(items)) => seq![42u8] + digits_of(items.len()) + crlf() + encode_all(items),
        Value::Null => seq![95u8] + crlf(),
        Value::Bool(b) => seq![35u8, if b { 116u8 } else { 102u8 }] + crlf(),
        Value::Double(t) => seq![44u8] + t + crlf(),
        Value::Entries(es) => seq![37u8] + digits_of(es.len()) + crlf() + encode_entries(es),
        Value::Members(items) => seq![126u8] + digits_of(items.len()) + crlf() + encode_all(items),
    }
}

/// The wire forms of `s`, one after another.
pub open spec fn encode_all(s: Seq<Value>) -> Seq<u8>
    decreases s,
{
    if s.len() == 0 {
        Seq::empty()
    } else {
        encode_all(s.drop_last()) + encode_value(s[s.len() - 1])
    }
}

/// The wire form of a map key: a simple string.
pub open spec fn encode_key(k: Seq<char>) -> Seq<u8> {
    seq![43u8] + encode_utf8(k) + crlf()
}

/// The wire forms of map entries, each key followed by its value.
pub open spec fn encode_entries(es: Seq<(Seq<char>, Value)>) -> Seq<u8>
    decreases es,
{
    if es.len() == 0 {
        Seq::empty()
    } else {
        encode_entries(es.drop_last()) + encode_key(es[es.len() - 1].0) + encode_value(
            es[es.len() - 1].1,
        )
    }
}

fn push_slice(out: &mut Vec<u8>, b: &[u8])
    ensures
        final(out)@ == old(out)@ + b@,
{
    let mut i: usize = 0;
    while i < b.len()
        invariant
            i <= b@.len(),
            out@ == old(out)@ + b@.take(i as int),
        decreases b@.len() - i,
    {
        out.push(b[i]);
        i = i + 1;
        assert(out@ =~= old(out)@ + b@.take(i as int));
    }
    assert(b@.take(i as int) =~= b@);
}

fn push_crlf(out: &mut Vec<u8>)
    ensures
        final(out)@ == old(out)@ + crlf(),
{
    out.push(13u8);
    out.push(10u8);
    assert(out@ =~= old(out)@ + crlf());
}

fn push_text(out: &mut Vec<u8>, s: &String)
    ensures
        final(out)@ == old(out)@ + encode_utf8(s@),
{
    let b = s.as_str().as_bytes();
    push_slice(out, b);
}

fn push_items(out: &mut Vec<u8>, items: &Vec<RespFrame>)
    ensures
        final(out)@ == old(out)@ + encode_all(frames_value(items@)),
    decreases items, 0nat,
{
    let mut i: usize = 0;
    while i < items.len()
        invariant
            i <= items@.len(),
            out@ == old(out)@ + encode_all(frames_value(items@.take(i as int))),
        decreases items@.len() - i,
    {
        assert(decreases_to!(items => items[i as int]));
        items[i].encode_into(out);
        proof {
            let t = items@.take(i as int + 1);
            assert(t.drop_last() =~= items@.take(i as int));
            assert(frames_value(t).drop_last() =~= frames_value(items@.take(i as int)));
        }
        i = i + 1;
        assert(out@ =~= old(out)@ + encode_all(frames_value(items@.take(i as int))));
    }
    assert(items@.take(i as int) =~= items@);
}

fn push_entries(out: &mut Vec<u8>, es: &Vec<(String, RespFrame)>)
    ensures
        final(out)@ == old(out)@ + encode_entries(entries_value(es@)),
    decreases es, 0nat,
{
    let mut i: usize = 0;
    while i < es.len()
        invariant
            i <= es@.len(),
            out@ == old(out)@ + encode_entries(entries_value(es@.take(i as int))),
        decreases es@.len() - i,
    {
        let ghost before = out@;
        out.push(43u8);
        push_text(out, &es[i].0);
        push_crlf(out);
        assert(decreases_to!(es => es[i as int].1));
        es[i].1.encode_into(out);
        proof {
            let t = es@.take(i as int + 1);
            assert(t.drop_last() =~= es@.take(i as int));
            assert(entries_value(t).drop_last() =~= entries_value(es@.take(i as int)));
            assert(out@ =~= before + encode_key(es@[i as int].0@) + encode_value(es@[i as int].1@));
        }
        i = i + 1;
        assert(out@ =~= old(out)@ + encode_entries(entries_value(es@.take(i as int))));
    }
    assert(es@.take(i as int) =~= es@);
}

impl RespFrame {
    /// Appends the canonical wire form of this frame.
    pub fn encode_into(&self, out: &mut Vec<u8>)
        ensures
            final(out)@ == old(out)@ + encode_value(self@),
        decreases self, 1nat,
    {
        let ghost start = out@;
        match self {
            RespFrame::SimpleString(s) => {
                out.push(43u8);
                push_text(out, &s.0);
                push_crlf(out);
            },
            RespFrame::Error(s) => {
                out.push(45u8);
                push_text(out, &s.0);
                push_crlf(out);
            },
            RespFrame::Integer(i) => {
                out.push(58u8);
                push_signed(out, *i);
                push_crlf(out);
            },
            RespFrame::BulkString(b) => {
                match &b.0 {
                    Some(data) => {
                        out.push(36u8);
                        push_digits(out, data.len() as u64);
                        push_crlf(out);
                        push_slice(out, data.as_slice());
                        push_crlf(out);
                    },
                    None => {
                        out.push(36u8);
                        out.push(45u8);
                        out.push(49u8);
                        push_crlf(out);
                    },
                }
            },
            RespFrame::Array(a) => {
                match &a.0 {
                    Some(items) => {
                        out.push(42u8);
                        push_digits(out, items.len() as u64);
                        push_crlf(out);
                        push_items(out, items);
                        assert(frames_value(items@).len() == items@.len()) by {
                            lemma_frames_value_len(items@);
                        }
                    },
                    None => {
                        out.push(42u8);
                        out.push(45u8);
                        out.push(49u8);
                        push_crlf(out);
                    },
                }
            },
            RespFrame::Null(_) => {
                out.push(95u8);
                push_crlf(out);
            },
            RespFrame::Boolean(b) => {
                out.push(35u8);
                out.push(if *b { 116u8 } else { 102u8 });
                push_crlf(out);
            },
            RespFrame::Double(d) => {
                out.push(44u8);
                push_slice(out, d.0.as_slice());
                push_crlf(out);
            },
            RespFrame::RespMap(m) => {
                out.push(37u8);
                push_digits(out, m.0.len() as u64);
                push_crlf(out);
                push_entries(out, &m.0);
                assert(entries_value(m.0@).len() == m.0@.len()) by {
                    lemma_entries_value_len(m.0@);
                }
            },
            RespFrame::RespSet(s) => {
                out.push(126u8);
                push_digits(out, s.0.len() as u64);
                push_crlf(out);
                push_items(out, &s.0);
                assert(frames_value(s.0@).len() == s.0@.len()) by {
                    lemma_frames_value_len(s.0@);
                }
            },
        }
        assert(out@ =~= start + encode_value(self@));
    }

}

/// Encoding to bytes.
pub trait RespEncode: Sized + View<V = Value> {
    /// The canonical wire form.
    fn encode(self) -> (r: Vec<u8>)
        ensures
            r@ == encode_value(self@),
    ;
}

impl RespEncode for RespFrame {
    fn encode(self) -> (r: Vec<u8>) {
        let mut out: Vec<u8> = Vec::new();
        self.encode_into(&mut out);
        assert(out@ =~= encode_value(self@));
        out
    }
}

pub proof fn lemma_frames_value_len(s: Seq<RespFrame>)
    ensures
        frames_value(s).len() == s.len(),
        forall|i: int| 0 <= i < s.len() ==> #[trigger] frames_value(s)[i] == s[i]@,
    decreases s.len(),
{
    if s.len() > 0 {
        lemma_frames_value_len(s.drop_last());
    }
}

pub proof fn lemma_entries_value_len(s: Seq<(String, RespFrame)>)
    ensures
        entries_value(s).len() == s.len(),
        forall|i: int| 0 <= i < s.len() ==> #[trigger] entries_value(s)[i] == (s[i].0@, s[i].1@),
    decreases s.len(),
{
    if s.len() > 0 {
        lemma_entries_value_len(s.drop_last());
    }
}

} // verus!
