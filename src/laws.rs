//! What holds of the codec as a whole: decoding the encoding of a frame
//! gives the frame back, and a frame cut short decodes to "not complete".
use vstd::prelude::*;
use vstd::utf8::{encode_utf8, encode_scalar, encode_utf8_valid_utf8, encode_utf8_decode_utf8};
use crate::frame::{Value, MAX_BULK_LEN, MAX_ITEMS, keys_ascending, key_lt, map_insert, lemma_insert_above};
use crate::text::{
    fits_i64, double_text, float_run, special_word, digits_of, signed_text, all_digits, digits_value,
    lemma_digits_of_shape, lemma_signed_round_trip, is_digit,
};
use crate::encode::{encode_value, encode_all, encode_entries, encode_key, crlf};
use crate::decode::{Fault, parse, parse_items, parse_entries, parse_key, find_crlf, int_of};

verus! {

/// Whether a text holds no CR and no LF.
pub open spec fn no_line_break(s: Seq<char>) -> bool {
    forall|i: int| 0 <= i < s.len() ==> s[i] != '\r' && s[i] != '\n'
}

/// The frames that the codec can carry: texts without line breaks, doubles
/// in float syntax, lengths and counts within the codec's bounds, and map
/// keys in ascending order.
pub open spec fn wf_value(v: Value) -> bool
    decreases v,
{
    match v {
        Value::Simple(s) => no_line_break(s),
        Value::Error(s) => no_line_break(s),
        Value::Int(i) => fits_i64(i),
        Value::Bulk(Some(b)) => b.len() <= MAX_BULK_LEN,
        Value::Bulk(None) => true,
        Value::Array(Some(items)) => items.len() <= MAX_ITEMS && forall|i: int|
            0 <= i < items.len() ==> wf_value(#[trigger] items[i]),
        Value::Array(None) => true,
        Value::Null => true,
        Value::Bool(_) => true,
        Value::Double(t) => double_text(t),
        Value::Entries(es) => es.len() <= MAX_ITEMS && keys_ascending(es) && forall|i: int|
            0 <= i < es.len() ==> no_line_break(#[trigger] es[i].0) && wf_value(es[i].1),
        Value::Members(items) => items.len() <= MAX_ITEMS && forall|i: int|
            0 <= i < items.len() ==> wf_value(#[trigger] items[i]),
    }
}

proof fn lemma_wf_entries(es: Seq<(Seq<char>, Value)>)
    requires
        wf_value(Value::Entries(es)),
    ensures
        keys_ascending(es),
        forall|k: int| 0 <= k < es.len() ==> no_line_break(#[trigger] es[k].0) && wf_value(es[k].1),
{
    let v = Value::Entries(es);
    assert(wf_value(v) == (es.len() <= MAX_ITEMS && keys_ascending(es) && forall|i: int|
        0 <= i < es.len() ==> no_line_break(#[trigger] es[i].0) && wf_value(es[i].1)));
}

/// Whether `b` holds no CR byte.
pub open spec fn no_cr(b: Seq<u8>) -> bool {
    forall|i: int| 0 <= i < b.len() ==> b[i] != 13u8
}

proof fn lemma_high_bytes(y: u8)
    ensures
        (0x80u8 | y) >= 0x80u8,
        (0xC0u8 | y) >= 0x80u8,
        (0xE0u8 | y) >= 0x80u8,
        (0xF0u8 | y) >= 0x80u8,
{
    assert((0x80u8 | y) >= 0x80u8) by (bit_vector);
    assert((0xC0u8 | y) >= 0x80u8) by (bit_vector);
    assert((0xE0u8 | y) >= 0x80u8) by (bit_vector);
    assert((0xF0u8 | y) >= 0x80u8) by (bit_vector);
}

proof fn lemma_scalar_no_cr(c: char)
    requires
        c != '\r',
    ensures
        no_cr(encode_scalar(c as u32)),
{
    let s = c as u32;
    assert(('\r' as u32) == 13);
    if s <= 0x7F {
        assert((s & 0x7F) == s) by (bit_vector)
            requires
                s <= 0x7F,
        ;
    } else {
        lemma_high_bytes(((s >> 6) & 0x1F) as u8);
        lemma_high_bytes(((s >> 12) & 0x0F) as u8);
        lemma_high_bytes(((s >> 18) & 0x7) as u8);
        lemma_high_bytes((s & 0x3F) as u8);
        lemma_high_bytes(((s >> 6) & 0x3F) as u8);
        lemma_high_bytes(((s >> 12) & 0x3F) as u8);
    }
}

/// Text without line breaks encodes to bytes without CR.
pub proof fn lemma_text_no_cr(s: Seq<char>)
    requires
        no_line_break(s),
    ensures
        no_cr(encode_utf8(s)),
    decreases s.len(),
{
    if s.len() > 0 {
        lemma_scalar_no_cr(s[0]);
        assert(no_line_break(s.drop_first())) by {
            assert forall|i: int| 0 <= i < s.drop_first().len() implies s.drop_first()[i] != '\r'
                && s.drop_first()[i] != '\n' by {
                assert(s.drop_first()[i] == s[i + 1]);
            }
        }
        lemma_text_no_cr(s.drop_first());
        let a = encode_scalar(s[0] as u32);
        let b = encode_utf8(s.drop_first());
        assert forall|i: int| 0 <= i < (a + b).len() implies (a + b)[i] != 13u8 by {
            if i >= a.len() {
                assert((a + b)[i] == b[i - a.len()]);
            }
        }
    }
}

proof fn lemma_float_run_no_cr(t: Seq<u8>)
    requires
        float_run(t) >= 0,
    ensures
        no_cr(t),
    decreases t.len(),
{
    if t.len() > 0 {
        assert(float_run(t.drop_last()) >= 0);
        lemma_float_run_no_cr(t.drop_last());
        assert forall|i: int| 0 <= i < t.len() implies t[i] != 13u8 by {
            if i < t.len() - 1 {
                assert(t[i] == t.drop_last()[i]);
            }
        }
    }
}

proof fn lemma_word_no_cr(w: Seq<u8>)
    requires
        special_word(w),
    ensures
        no_cr(w),
{
    assert forall|i: int| 0 <= i < w.len() implies w[i] != 13u8 by {
        if i == 0 {
        } else if i == 1 {
        } else if i == 2 {
        } else if i == 3 {
        } else if i == 4 {
        } else if i == 5 {
        } else if i == 6 {
        } else {
        }
    }
}

proof fn lemma_double_no_cr(t: Seq<u8>)
    requires
        double_text(t),
    ensures
        no_cr(t),
{
    reveal(double_text);
    if float_run(t) >= 0 {
        lemma_float_run_no_cr(t);
    } else if special_word(t) {
        lemma_word_no_cr(t);
    } else {
        lemma_word_no_cr(t.drop_first());
        assert forall|i: int| 0 <= i < t.len() implies t[i] != 13u8 by {
            if i > 0 {
                assert(t[i] == t.drop_first()[i - 1]);
            }
        }
    }
}

proof fn lemma_digits_no_cr(n: nat)
    ensures
        no_cr(digits_of(n)),
{
    lemma_digits_of_shape(n);
}

proof fn lemma_signed_no_cr(i: int)
    ensures
        no_cr(signed_text(i)),
{
    let n: nat = if i >= 0 { i as nat } else { (-i) as nat };
    lemma_digits_no_cr(n);
    assert forall|j: int| 0 <= j < signed_text(i).len() implies signed_text(i)[j] != 13u8 by {
        if j > 0 {
            assert(signed_text(i)[j] == digits_of(n)[j - 1]);
        }
    }
}

/// The first CR LF at or after `from` is at `e` when no CR comes before it.
pub proof fn lemma_find_crlf_at(s: Seq<u8>, from: int, e: int)
    requires
        0 <= from <= e,
        e + 1 < s.len(),
        s[e] == 13u8,
        s[e + 1] == 10u8,
        forall|j: int| from <= j < e ==> s[j] != 13u8,
    ensures
        find_crlf(s, from) == Some(e),
    decreases e - from,
{
    if from < e {
        lemma_find_crlf_at(s, from + 1, e);
    }
}

/// No CR LF at or after `from` when no CR has an LF after it there.
pub proof fn lemma_find_crlf_none(s: Seq<u8>, from: int)
    requires
        0 <= from,
        forall|j: int| from <= j < s.len() - 1 ==> !(#[trigger] s[j] == 13u8 && s[j + 1] == 10u8),
    ensures
        find_crlf(s, from) is None,
    decreases s.len() - from,
{
    if from + 1 < s.len() {
        lemma_find_crlf_none(s, from + 1);
    }
}

/// A line `tag body CR LF` followed by anything: the line ends after `body`.
proof fn lemma_line(tag: u8, body: Seq<u8>, rest: Seq<u8>)
    requires
        no_cr(body),
    ensures
        ({
            let s = seq![tag] + body + crlf() + rest;
            &&& find_crlf(s, 1) == Some(1 + body.len() as int)
            &&& s.subrange(1, 1 + body.len() as int) == body
            &&& s.subrange(body.len() as int + 3, s.len() as int) == rest
            &&& s[0] == tag
        }),
{
    let s = seq![tag] + body + crlf() + rest;
    assert forall|j: int| 1 <= j < 1 + body.len() implies s[j] != 13u8 by {
        assert(s[j] == body[j - 1]);
    }
    assert(s[1 + body.len() as int] == 13u8);
    assert(s[2 + body.len() as int] == 10u8);
    lemma_find_crlf_at(s, 1, 1 + body.len() as int);
    assert(s.subrange(1, 1 + body.len() as int) =~= body);
    assert(s.subrange(body.len() as int + 3, s.len() as int) =~= rest);
}

proof fn lemma_count_value(n: nat)
    ensures
        int_of(digits_of(n)) == (if n <= i64::MAX { Some(n as int) } else { None::<int> }),
{
    lemma_digits_of_shape(n);
    let d = digits_of(n);
    assert(is_digit(d[0]));
}

/// The wire form of a list, its first element first.
pub proof fn lemma_encode_all_front(s: Seq<Value>)
    requires
        s.len() > 0,
    ensures
        encode_all(s) == encode_value(s[0]) + encode_all(s.drop_first()),
    decreases s.len(),
{
    if s.len() > 1 {
        lemma_encode_all_front(s.drop_last());
        assert(s.drop_last().drop_first() =~= s.drop_first().drop_last());
        assert(s.drop_first()[s.drop_first().len() - 1] == s[s.len() - 1]);
    } else {
        assert(s.drop_last() =~= Seq::<Value>::empty());
        assert(s.drop_first() =~= Seq::<Value>::empty());
    }
}

/// The wire form of map entries, the first entry first.
pub proof fn lemma_encode_entries_front(es: Seq<(Seq<char>, Value)>)
    requires
        es.len() > 0,
    ensures
        encode_entries(es) == encode_key(es[0].0) + encode_value(es[0].1) + encode_entries(es.drop_first()),
    decreases es.len(),
{
    if es.len() > 1 {
        lemma_encode_entries_front(es.drop_last());
        assert(es.drop_last().drop_first() =~= es.drop_first().drop_last());
        assert(es.drop_first()[es.drop_first().len() - 1] == es[es.len() - 1]);
    } else {
        assert(es.drop_last() =~= Seq::<(Seq<char>, Value)>::empty());
        assert(es.drop_first() =~= Seq::<(Seq<char>, Value)>::empty());
    }
}

proof fn lemma_minus_one()
    ensures
        int_of(seq![45u8, 49u8]) == Some(-1int),
{
    let body = seq![45u8, 49u8];
    assert(body.drop_first() =~= seq![49u8]);
    assert(seq![49u8].drop_last() =~= Seq::<u8>::empty());
    assert(digits_value(Seq::<u8>::empty()) == 0);
    assert(digits_value(seq![49u8]) == 1);
    assert(all_digits(seq![49u8]));
}

proof fn lemma_text_round_trip(v: Value, rest: Seq<u8>)
    requires
        wf_value(v),
        v is Simple || v is Error,
    ensures
        parse(encode_value(v) + rest) == Ok::<_, Fault>((v, encode_value(v).len())),
{
    let s = encode_value(v) + rest;
    let (tag, t) = match v {
        Value::Simple(t) => (43u8, t),
        Value::Error(t) => (45u8, t),
        _ => (0u8, Seq::empty()),
    };
    lemma_text_no_cr(t);
    assert(s =~= seq![tag] + encode_utf8(t) + crlf() + rest);
    lemma_line(tag, encode_utf8(t), rest);
    encode_utf8_valid_utf8(t);
    encode_utf8_decode_utf8(t);
}

proof fn lemma_int_round_trip(i: int, rest: Seq<u8>)
    requires
        fits_i64(i),
    ensures
        parse(encode_value(Value::Int(i)) + rest) == Ok::<_, Fault>((Value::Int(i), encode_value(Value::Int(i)).len())),
{
    let s = encode_value(Value::Int(i)) + rest;
    lemma_signed_no_cr(i);
    assert(s =~= seq![58u8] + signed_text(i) + crlf() + rest);
    lemma_line(58u8, signed_text(i), rest);
    lemma_signed_round_trip(i);
}

proof fn lemma_double_round_trip(t: Seq<u8>, rest: Seq<u8>)
    requires
        double_text(t),
    ensures
        parse(encode_value(Value::Double(t)) + rest) == Ok::<_, Fault>(
            (Value::Double(t), encode_value(Value::Double(t)).len()),
        ),
{
    let s = encode_value(Value::Double(t)) + rest;
    lemma_double_no_cr(t);
    assert(s =~= seq![44u8] + t + crlf() + rest);
    lemma_line(44u8, t, rest);
}

proof fn lemma_null_form_round_trip(v: Value, rest: Seq<u8>)
    requires
        v == Value::Bulk(None) || v == Value::Array(None),
    ensures
        parse(encode_value(v) + rest) == Ok::<_, Fault>((v, encode_value(v).len())),
{
    let s = encode_value(v) + rest;
    let tag: u8 = if v is Bulk { 36u8 } else { 42u8 };
    let body = seq![45u8, 49u8];
    assert(s =~= seq![tag] + body + crlf() + rest);
    lemma_line(tag, body, rest);
    lemma_minus_one();
}

proof fn lemma_bulk_round_trip(b: Seq<u8>, rest: Seq<u8>)
    requires
        b.len() <= MAX_BULK_LEN,
    ensures
        parse(encode_value(Value::Bulk(Some(b))) + rest) == Ok::<_, Fault>(
            (Value::Bulk(Some(b)), encode_value(Value::Bulk(Some(b))).len()),
        ),
{
    let s = encode_value(Value::Bulk(Some(b))) + rest;
    let d = digits_of(b.len());
    lemma_digits_no_cr(b.len());
    lemma_count_value(b.len());
    let after = b + crlf() + rest;
    assert(s =~= seq![36u8] + d + crlf() + after);
    lemma_line(36u8, d, after);
    assert(after.take(b.len() as int) =~= b);
    assert(after[b.len() as int] == 13u8 && after[b.len() as int + 1] == 10u8);
}

proof fn lemma_list_round_trip(v: Value, rest: Seq<u8>)
    requires
        wf_value(v),
        v is Array && v->Array_0 is Some || v is Members,
    ensures
        parse(encode_value(v) + rest) == Ok::<_, Fault>((v, encode_value(v).len())),
    decreases v, 0nat,
{
    let s = encode_value(v) + rest;
    let (tag, items) = match v {
        Value::Array(Some(items)) => (42u8, items),
        Value::Members(items) => (126u8, items),
        _ => (0u8, Seq::empty()),
    };
    let d = digits_of(items.len());
    lemma_digits_no_cr(items.len());
    lemma_count_value(items.len());
    let after = encode_all(items) + rest;
    assert(s =~= seq![tag] + d + crlf() + after);
    lemma_line(tag, d, after);
    lemma_items_round_trip(items, rest);
}

#[verifier::rlimit(100)]
#[verifier::spinoff_prover]
proof fn lemma_map_round_trip(es: Seq<(Seq<char>, Value)>, rest: Seq<u8>)
    requires
        wf_value(Value::Entries(es)),
    ensures
        parse(encode_value(Value::Entries(es)) + rest) == Ok::<_, Fault>(
            (Value::Entries(es), encode_value(Value::Entries(es)).len()),
        ),
    decreases es, 2nat,
{
    let s = encode_value(Value::Entries(es)) + rest;
    let d = digits_of(es.len());
    lemma_digits_no_cr(es.len());
    lemma_count_value(es.len());
    let after = encode_entries(es) + rest;
    assert(s =~= seq![37u8] + d + crlf() + after);
    lemma_line(37u8, d, after);
    lemma_wf_entries(es);
    lemma_entries_round_trip(es, Seq::empty(), rest);
    assert(Seq::<(Seq<char>, Value)>::empty() + es =~= es);
}

/// Decoding the encoding of a frame, followed by any bytes, gives the frame
/// back and takes exactly its bytes.
pub proof fn lemma_round_trip(v: Value, rest: Seq<u8>)
    requires
        wf_value(v),
    ensures
        parse(encode_value(v) + rest) == Ok::<_, Fault>((v, encode_value(v).len())),
    decreases v, 1nat,
{
    match v {
        Value::Simple(_) | Value::Error(_) => lemma_text_round_trip(v, rest),
        Value::Int(i) => lemma_int_round_trip(i, rest),
        Value::Double(t) => lemma_double_round_trip(t, rest),
        Value::Null => {},
        Value::Bool(_) => {},
        Value::Bulk(None) | Value::Array(None) => lemma_null_form_round_trip(v, rest),
        Value::Bulk(Some(b)) => lemma_bulk_round_trip(b, rest),
        Value::Array(Some(_)) | Value::Members(_) => lemma_list_round_trip(v, rest),
        Value::Entries(es) => lemma_map_round_trip(es, rest),
    }
}

/// A map key's encoding, followed by any bytes, decodes to the key.
proof fn lemma_key_round_trip(k: Seq<char>, more: Seq<u8>)
    requires
        no_line_break(k),
    ensures
        parse_key(encode_key(k) + more) == Ok::<_, Fault>((k, encode_key(k).len())),
        (encode_key(k) + more).subrange(encode_key(k).len() as int, (encode_key(k) + more).len() as int)
            == more,
{
    let r = encode_key(k) + more;
    lemma_text_no_cr(k);
    assert(r =~= seq![43u8] + encode_utf8(k) + crlf() + more);
    lemma_line(43u8, encode_utf8(k), more);
    encode_utf8_valid_utf8(k);
    encode_utf8_decode_utf8(k);
}

/// Decoding the encodings of `items`, one after another, gives them back.
pub proof fn lemma_items_round_trip(items: Seq<Value>, rest: Seq<u8>)
    requires
        forall|i: int| 0 <= i < items.len() ==> wf_value(#[trigger] items[i]),
    ensures
        parse_items(encode_all(items) + rest, items.len()) == Ok::<_, Fault>(
            (items, encode_all(items).len()),
        ),
    decreases items, 1nat,
{
    if items.len() == 0 {
        assert(items =~= Seq::<Value>::empty());
    } else {
        lemma_encode_all_front(items);
        let head = encode_value(items[0]);
        let tail = items.drop_first();
        let r = encode_all(items) + rest;
        assert(r =~= head + (encode_all(tail) + rest));
        lemma_round_trip(items[0], encode_all(tail) + rest);
        assert(head.len() > 0);
        assert(r.subrange(head.len() as int, r.len() as int) =~= encode_all(tail) + rest);
        assert forall|i: int| 0 <= i < tail.len() implies wf_value(#[trigger] tail[i]) by {
            assert(tail[i] == items[i + 1]);
        }
        lemma_items_round_trip(tail, rest);
        assert(seq![items[0]] + tail =~= items);
    }
}

/// Decoding the encodings of map entries in ascending key order, each above
/// every key of `acc`, appends them to `acc`.
#[verifier::rlimit(50)]
pub proof fn lemma_entries_round_trip(es: Seq<(Seq<char>, Value)>, acc: Seq<(Seq<char>, Value)>, rest: Seq<u8>)
    requires
        keys_ascending(es),
        forall|i: int| 0 <= i < es.len() ==> no_line_break(#[trigger] es[i].0) && wf_value(es[i].1),
        forall|a: int, j: int| 0 <= a < acc.len() && 0 <= j < es.len() ==> key_lt(#[trigger] acc[a].0, #[trigger] es[j].0),
    ensures
        parse_entries(encode_entries(es) + rest, es.len(), acc) == Ok::<_, Fault>(
            (acc + es, encode_entries(es).len()),
        ),
    decreases es, 1nat,
{
    if es.len() == 0 {
        assert(acc + es =~= acc);
    } else {
        lemma_encode_entries_front(es);
        let k = es[0].0;
        let v = es[0].1;
        let kb = encode_key(k);
        let tail = es.drop_first();
        let r = encode_entries(es) + rest;
        let more = encode_value(v) + (encode_entries(tail) + rest);
        assert(r =~= kb + more);
        lemma_key_round_trip(k, more);
        let r2 = r.subrange(kb.len() as int, r.len() as int);
        assert(r2 == more);
        lemma_round_trip(v, encode_entries(tail) + rest);
        assert(encode_value(v).len() > 0);
        assert(r2.subrange(encode_value(v).len() as int, r2.len() as int) =~= encode_entries(tail) + rest);
        assert forall|j: int| 0 <= j < acc.len() implies key_lt(#[trigger] acc[j].0, k) by {}
        lemma_insert_above(acc, k, v);
        let acc2 = acc.push((k, v));
        assert(keys_ascending(tail)) by {
            assert forall|i: int, j: int| 0 <= i < j < tail.len() implies key_lt(#[trigger] tail[i].0, #[trigger] tail[j].0) by {
                assert(tail[i] == es[i + 1] && tail[j] == es[j + 1]);
            }
        }
        assert forall|a: int, j: int| 0 <= a < acc2.len() && 0 <= j < tail.len() implies key_lt(#[trigger] acc2[a].0, #[trigger] tail[j].0) by {
            assert(tail[j] == es[j + 1]);
            if a < acc.len() {
                assert(acc2[a] == acc[a]);
            } else {
                assert(acc2[a] == es[0]);
            }
        }
        assert forall|i: int| 0 <= i < tail.len() implies no_line_break(#[trigger] tail[i].0) && wf_value(tail[i].1) by {
            assert(tail[i] == es[i + 1]);
        }
        lemma_entries_round_trip(tail, acc2, rest);
        assert(acc2 + tail =~= acc + es);
    }
}


/// A line cut before its LF holds no CR LF.
proof fn lemma_line_prefix(tag: u8, body: Seq<u8>, i: int)
    requires
        no_cr(body),
        0 < i < body.len() + 3,
    ensures
        find_crlf((seq![tag] + body + crlf()).take(i), 1) is None,
        (seq![tag] + body + crlf()).take(i)[0] == tag,
        (seq![tag] + body + crlf()).take(i).len() == i,
{
    let s = seq![tag] + body + crlf();
    let p = s.take(i);
    assert forall|j: int| 1 <= j < p.len() - 1 implies !(#[trigger] p[j] == 13u8 && p[j + 1] == 10u8) by {
        assert(p[j] == s[j]);
        assert(s[j] == body[j - 1]);
    }
    lemma_find_crlf_none(p, 1);
}

proof fn lemma_line_frame_prefix(tag: u8, body: Seq<u8>, i: int)
    requires
        no_cr(body),
        0 <= i < body.len() + 3,
        tag == 43u8 || tag == 45u8 || tag == 58u8 || tag == 44u8 || tag == 36u8 || tag == 42u8 || tag
            == 37u8 || tag == 126u8,
    ensures
        parse((seq![tag] + body + crlf()).take(i)) == Err::<(Value, nat), Fault>(Fault::Incomplete),
{
    if i > 0 {
        lemma_line_prefix(tag, body, i);
    }
}

/// Cutting the bytes after a complete header line keeps the line.
proof fn lemma_header_prefix(tag: u8, d: Seq<u8>, tail: Seq<u8>, i: int)
    requires
        no_cr(d),
        d.len() + 3 <= i <= d.len() + 3 + tail.len(),
    ensures
        ({
            let p = (seq![tag] + d + crlf() + tail).take(i);
            &&& p == seq![tag] + d + crlf() + tail.take(i - d.len() - 3)
            &&& find_crlf(p, 1) == Some(1 + d.len() as int)
            &&& p.subrange(1, 1 + d.len() as int) == d
            &&& p.subrange(d.len() as int + 3, p.len() as int) == tail.take(i - d.len() - 3)
            &&& p[0] == tag
        }),
{
    let p = (seq![tag] + d + crlf() + tail).take(i);
    assert(p =~= seq![tag] + d + crlf() + tail.take(i - d.len() - 3));
    lemma_line(tag, d, tail.take(i - d.len() - 3));
}

#[verifier::rlimit(50)]
proof fn lemma_list_prefix(v: Value, i: int)
    requires
        wf_value(v),
        v is Array && v->Array_0 is Some || v is Members,
        0 <= i < encode_value(v).len(),
    ensures
        parse(encode_value(v).take(i)) == Err::<(Value, nat), Fault>(Fault::Incomplete),
    decreases v, 0nat,
{
    let (tag, items) = match v {
        Value::Array(Some(items)) => (42u8, items),
        Value::Members(items) => (126u8, items),
        _ => (0u8, Seq::empty()),
    };
    let d = digits_of(items.len());
    lemma_digits_no_cr(items.len());
    lemma_count_value(items.len());
    let e = encode_all(items);
    assert(encode_value(v) =~= seq![tag] + d + crlf() + e);
    if i < d.len() + 3 {
        assert(encode_value(v) =~= seq![tag] + d + crlf() + e);
        assert(encode_value(v).take(i) =~= (seq![tag] + d + crlf()).take(i));
        lemma_line_frame_prefix(tag, d, i);
    } else {
        lemma_header_prefix(tag, d, e, i);
        lemma_items_prefix(items, i - d.len() - 3);
    }
}

#[verifier::rlimit(100)]
#[verifier::spinoff_prover]
proof fn lemma_map_prefix(es: Seq<(Seq<char>, Value)>, i: int)
    requires
        wf_value(Value::Entries(es)),
        0 <= i < encode_value(Value::Entries(es)).len(),
    ensures
        parse(encode_value(Value::Entries(es)).take(i)) == Err::<(Value, nat), Fault>(Fault::Incomplete),
    decreases es, 2nat,
{
    let v = Value::Entries(es);
    let d = digits_of(es.len());
    lemma_digits_no_cr(es.len());
    lemma_count_value(es.len());
    let e = encode_entries(es);
    assert(encode_value(v) =~= seq![37u8] + d + crlf() + e);
    if i < d.len() + 3 {
        assert(encode_value(v).take(i) =~= (seq![37u8] + d + crlf()).take(i));
        lemma_line_frame_prefix(37u8, d, i);
    } else {
        lemma_header_prefix(37u8, d, e, i);
        lemma_wf_entries(es);
        lemma_entries_prefix(es, Seq::empty(), i - d.len() - 3);
    }
}

/// A frame cut short, at any point before its last byte, decodes to "not
/// complete" (and so leaves the buffer as it was).
pub proof fn lemma_prefix_incomplete(v: Value, i: int)
    requires
        wf_value(v),
        0 <= i < encode_value(v).len(),
    ensures
        parse(encode_value(v).take(i)) == Err::<(Value, nat), Fault>(Fault::Incomplete),
    decreases v, 1nat,
{
    match v {
        Value::Simple(t) => {
            lemma_text_no_cr(t);
            assert(encode_value(v) =~= seq![43u8] + encode_utf8(t) + crlf());
            lemma_line_frame_prefix(43u8, encode_utf8(t), i);
        },
        Value::Error(t) => {
            lemma_text_no_cr(t);
            assert(encode_value(v) =~= seq![45u8] + encode_utf8(t) + crlf());
            lemma_line_frame_prefix(45u8, encode_utf8(t), i);
        },
        Value::Int(n) => {
            lemma_signed_no_cr(n);
            assert(encode_value(v) =~= seq![58u8] + signed_text(n) + crlf());
            lemma_line_frame_prefix(58u8, signed_text(n), i);
        },
        Value::Double(t) => {
            lemma_double_no_cr(t);
            assert(encode_value(v) =~= seq![44u8] + t + crlf());
            lemma_line_frame_prefix(44u8, t, i);
        },
        Value::Null => {},
        Value::Bool(_) => {},
        Value::Bulk(None) => {
            assert(encode_value(v) =~= seq![36u8] + seq![45u8, 49u8] + crlf());
            lemma_line_frame_prefix(36u8, seq![45u8, 49u8], i);
        },
        Value::Array(None) => {
            assert(encode_value(v) =~= seq![42u8] + seq![45u8, 49u8] + crlf());
            lemma_line_frame_prefix(42u8, seq![45u8, 49u8], i);
        },
        Value::Bulk(Some(b)) => {
            let d = digits_of(b.len());
            lemma_digits_no_cr(b.len());
            lemma_count_value(b.len());
            let tail = b + crlf();
            assert(encode_value(v) =~= seq![36u8] + d + crlf() + tail);
            if i < d.len() + 3 {
                assert(encode_value(v).take(i) =~= (seq![36u8] + d + crlf()).take(i));
                lemma_line_frame_prefix(36u8, d, i);
            } else {
                lemma_header_prefix(36u8, d, tail, i);
            }
        },
        Value::Array(Some(_)) | Value::Members(_) => lemma_list_prefix(v, i),
        Value::Entries(es) => lemma_map_prefix(es, i),
    }
}

/// Frames cut short decode to "not complete" as a list.
pub proof fn lemma_items_prefix(items: Seq<Value>, j: int)
    requires
        forall|i: int| 0 <= i < items.len() ==> wf_value(#[trigger] items[i]),
        0 <= j < encode_all(items).len(),
    ensures
        parse_items(encode_all(items).take(j), items.len()) == Err::<(Seq<Value>, nat), Fault>(
            Fault::Incomplete,
        ),
    decreases items, 2nat,
{
    if items.len() == 0 {
        assert(items =~= Seq::<Value>::empty());
    } else {
        lemma_encode_all_front(items);
        let head = encode_value(items[0]);
        let tail = items.drop_first();
        let te = encode_all(tail);
        let r = encode_all(items).take(j);
        if j == 0 {
        } else if j < head.len() {
            assert(r =~= head.take(j));
            lemma_prefix_incomplete(items[0], j);
        } else {
            assert(r =~= head + te.take(j - head.len()));
            lemma_round_trip(items[0], te.take(j - head.len()));
            assert(r.subrange(head.len() as int, r.len() as int) =~= te.take(j - head.len()));
            assert forall|i: int| 0 <= i < tail.len() implies wf_value(#[trigger] tail[i]) by {
                assert(tail[i] == items[i + 1]);
            }
            lemma_items_prefix(tail, j - head.len());
        }
    }
}

/// Map entries cut short decode to "not complete".
#[verifier::rlimit(50)]
pub proof fn lemma_entries_prefix(es: Seq<(Seq<char>, Value)>, acc: Seq<(Seq<char>, Value)>, j: int)
    requires
        forall|i: int| 0 <= i < es.len() ==> no_line_break(#[trigger] es[i].0) && wf_value(es[i].1),
        0 <= j < encode_entries(es).len(),
    ensures
        parse_entries(encode_entries(es).take(j), es.len(), acc) == Err::<
            (Seq<(Seq<char>, Value)>, nat),
            Fault,
        >(Fault::Incomplete),
    decreases es, 1nat,
{
    if es.len() == 0 {
        assert(es =~= Seq::<(Seq<char>, Value)>::empty());
    } else {
        lemma_encode_entries_front(es);
        let k = es[0].0;
        let v = es[0].1;
        let kb = encode_key(k);
        let vb = encode_value(v);
        let tail = es.drop_first();
        let te = encode_entries(tail);
        let r = encode_entries(es).take(j);
        lemma_text_no_cr(k);
        if j == 0 {
        } else if j < kb.len() {
            assert(r =~= (seq![43u8] + encode_utf8(k) + crlf()).take(j));
            lemma_line_prefix(43u8, encode_utf8(k), j);
        } else {
            let more = (vb + te).take(j - kb.len());
            assert(r =~= kb + more);
            lemma_key_round_trip(k, more);
            let r2 = r.subrange(kb.len() as int, r.len() as int);
            assert(r2 == more);
            if j == kb.len() {
            } else if j - kb.len() < vb.len() {
                assert(more =~= vb.take(j - kb.len()));
                lemma_prefix_incomplete(v, j - kb.len());
            } else {
                assert(more =~= vb + te.take(j - kb.len() - vb.len()));
                lemma_round_trip(v, te.take(j - kb.len() - vb.len()));
                assert(r2.subrange(vb.len() as int, r2.len() as int) =~= te.take(j - kb.len() - vb.len()));
                assert forall|i: int| 0 <= i < tail.len() implies no_line_break(#[trigger] tail[i].0)
                    && wf_value(tail[i].1) by {
                    assert(tail[i] == es[i + 1]);
                }
                lemma_entries_prefix(tail, map_insert(acc, k, v), j - kb.len() - vb.len());
            }
        }
    }
}

} // verus!
