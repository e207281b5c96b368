//! The frame model: one complete RESP value at rest in memory, its
//! mathematical model, and the canonical wire form of each frame.
use vstd::prelude::*;
use vstd::utf8::{encode_utf8, encode_utf8_decode_utf8};

verus! {

/// Largest payload of a bulk string that the codec accepts (512 MiB).
pub const MAX_BULK_LEN: u64 = 536870912;

/// Largest element count of an array, set or map that the codec accepts.
pub const MAX_ITEMS: u64 = 1048576;

/// A short textual token (`+OK`).
#[derive(Debug, Clone, PartialEq)]
pub struct SimpleString(pub String);

/// A textual error token (`-ERR`).
#[derive(Debug, Clone, PartialEq)]
pub struct SimpleError(pub String);

/// A length-prefixed byte string, or the null bulk string (`$-1`).
#[derive(Debug, Clone, PartialEq)]
pub struct BulkString(pub Option<Vec<u8>>);

/// An ordered sequence of frames, or the null array (`*-1`).
#[derive(Debug, PartialEq)]
pub struct RespArray(pub Option<Vec<RespFrame>>);

/// The unitary null (`_`).
#[derive(Debug, Clone, PartialEq)]
pub struct RespNull;

/// A double, held as its decimal text (`123.456`, `-1.5e9`, `inf`).
#[derive(Debug, Clone, PartialEq)]
pub struct RespDouble(pub Vec<u8>);

/// A map from textual keys to frames, kept in ascending key order.
#[derive(Debug, PartialEq)]
pub struct RespMap(pub(crate) Vec<(String, RespFrame)>);

/// A collection of frames, sent in the order held.
#[derive(Debug, PartialEq)]
pub struct RespSet(pub Vec<RespFrame>);

/// One RESP value.
#[derive(Debug, PartialEq)]
pub enum RespFrame {
    SimpleString(SimpleString),
    Error(SimpleError),
    Integer(i64),
    BulkString(BulkString),
    Array(RespArray),
    Null(RespNull),
    Boolean(bool),
    Double(RespDouble),
    RespMap(RespMap),
    RespSet(RespSet),
}

/// The mathematical model of a frame.
pub enum Value {
    Simple(Seq<char>),
    Error(Seq<char>),
    Int(int),
    Bulk(Option<Seq<u8>>),
    Array(Option<Seq<Value>>),
    Null,
    Bool(bool),
    Double(Seq<u8>),
    Entries(Seq<(Seq<char>, Value)>),
    Members(Seq<Value>),
}

pub open(crate) spec fn frame_value(f: RespFrame) -> Value
    decreases f,
{
    match f {
        RespFrame::SimpleString(s) => Value::Simple(s.0@),
        RespFrame::Error(s) => Value::Error(s.0@),
        RespFrame::Integer(i) => Value::Int(i as int),
        RespFrame::BulkString(b) => match b.0 {
            Some(v) => Value::Bulk(Some(v@)),
            None => Value::Bulk(None),
        },
        RespFrame::Array(a) => match a.0 {
            Some(v) => Value::Array(Some(frames_value(v@))),
            None => Value::Array(None),
        },
        RespFrame::Null(_) => Value::Null,
        RespFrame::Boolean(b) => Value::Bool(b),
        RespFrame::Double(d) => Value::Double(d.0@),
        RespFrame::RespMap(m) => Value::Entries(entries_value(m.0@)),
        RespFrame::RespSet(s) => Value::Members(frames_value(s.0@)),
    }
}

pub open spec fn frames_value(s: Seq<RespFrame>) -> Seq<Value>
    decreases s,
{
    if s.len() == 0 {
        Seq::empty()
    } else {
        frames_value(s.drop_last()).push(frame_value(s[s.len() - 1]))
    }
}

pub open spec fn entries_value(s: Seq<(String, RespFrame)>) -> Seq<(Seq<char>, Value)>
    decreases s,
{
    if s.len() == 0 {
        Seq::empty()
    } else {
        entries_value(s.drop_last()).push((s[s.len() - 1].0@, frame_value(s[s.len() - 1].1)))
    }
}



impl SimpleString {
    pub fn new(s: String) -> (r: SimpleString)
        ensures
            r.0@ == s@,
    {
        SimpleString(s)
    }
}

impl SimpleError {
    pub fn new(s: String) -> (r: SimpleError)
        ensures
            r.0@ == s@,
    {
        SimpleError(s)
    }
}

impl BulkString {
    pub fn new(s: Vec<u8>) -> (r: BulkString)
        ensures
            r.0 is Some && r.0->0@ == s@,
    {
        BulkString(Some(s))
    }

    pub fn new_null() -> (r: BulkString)
        ensures
            r.0 is None,
    {
        BulkString(None)
    }
}

impl RespArray {
    pub fn new(v: Vec<RespFrame>) -> (r: RespArray)
        ensures
            r.0 is Some && r.0->0@ == v@,
    {
        RespArray(Some(v))
    }

    pub fn new_null() -> (r: RespArray)
        ensures
            r.0 is None,
    {
        RespArray(None)
    }
}

impl RespSet {
    pub fn new(v: Vec<RespFrame>) -> (r: RespSet)
        ensures
            r.0@ == v@,
    {
        RespSet(v)
    }
}

impl RespDouble {
    /// A double from its decimal text.
    pub fn new(text: Vec<u8>) -> (r: RespDouble)
        ensures
            r.0@ == text@,
    {
        RespDouble(text)
    }
}

pub(crate) fn copy_bytes(b: &Vec<u8>) -> (r: Vec<u8>)
    ensures
        r@ == b@,
{
    let mut out: Vec<u8> = Vec::new();
    let mut i: usize = 0;
    while i < b.len()
        invariant
            i <= b@.len(),
            out@ == b@.take(i as int),
        decreases b@.len() - i,
    {
        out.push(b[i]);
        i = i + 1;
        assert(out@ =~= b@.take(i as int));
    }
    assert(b@.take(i as int) =~= b@);
    out
}

fn copy_frames(v: &Vec<RespFrame>) -> (r: Vec<RespFrame>)
    ensures
        frames_value(r@) == frames_value(v@),
    decreases v, 0nat,
{
    let mut out: Vec<RespFrame> = Vec::new();
    let mut i: usize = 0;
    while i < v.len()
        invariant
            i <= v@.len(),
            frames_value(out@) == frames_value(v@.take(i as int)),
        decreases v@.len() - i,
    {
        assert(decreases_to!(v => v[i as int]));
        let f = copy_frame(&v[i]);
        proof {
            assert(out@.push(f).drop_last() =~= out@);
            assert(v@.take(i as int + 1).drop_last() =~= v@.take(i as int));
        }
        out.push(f);
        i = i + 1;
    }
    assert(v@.take(i as int) =~= v@);
    out
}

fn copy_entries(es: &Vec<(String, RespFrame)>) -> (r: Vec<(String, RespFrame)>)
    ensures
        entries_value(r@) == entries_value(es@),
    decreases es, 0nat,
{
    let mut out: Vec<(String, RespFrame)> = Vec::new();
    let mut i: usize = 0;
    while i < es.len()
        invariant
            i <= es@.len(),
            entries_value(out@) == entries_value(es@.take(i as int)),
        decreases es@.len() - i,
    {
        assert(decreases_to!(es => es[i as int].1));
        let v = copy_frame(&es[i].1);
        let k = es[i].0.clone();
        proof {
            assert(out@.push((k, v)).drop_last() =~= out@);
            assert(es@.take(i as int + 1).drop_last() =~= es@.take(i as int));
        }
        out.push((k, v));
        i = i + 1;
    }
    assert(es@.take(i as int) =~= es@);
    out
}

/// A deep copy of a frame.
pub fn copy_frame(f: &RespFrame) -> (r: RespFrame)
    ensures
        r@ == f@,
    decreases f, 1nat,
{
    match f {
        RespFrame::SimpleString(s) => RespFrame::SimpleString(SimpleString(s.0.clone())),
        RespFrame::Error(s) => RespFrame::Error(SimpleError(s.0.clone())),
        RespFrame::Integer(i) => RespFrame::Integer(*i),
        RespFrame::BulkString(b) => match &b.0 {
            Some(d) => RespFrame::BulkString(BulkString(Some(copy_bytes(d)))),
            None => RespFrame::BulkString(BulkString(None)),
        },
        RespFrame::Array(a) => match &a.0 {
            Some(v) => RespFrame::Array(RespArray(Some(copy_frames(v)))),
            None => RespFrame::Array(RespArray(None)),
        },
        RespFrame::Null(_) => RespFrame::Null(RespNull),
        RespFrame::Boolean(b) => RespFrame::Boolean(*b),
        RespFrame::Double(d) => RespFrame::Double(RespDouble(copy_bytes(&d.0))),
        RespFrame::RespMap(m) => RespFrame::RespMap(RespMap(copy_entries(&m.0))),
        RespFrame::RespSet(s) => RespFrame::RespSet(RespSet(copy_frames(&s.0))),
    }
}

impl Clone for RespFrame {
    fn clone(&self) -> Self {
        copy_frame(self)
    }
}

/// Byte-wise lexicographic order, the order of `str`'s `Ord`.
pub open spec fn bytes_lt(a: Seq<u8>, b: Seq<u8>) -> bool
    decreases a.len(),
{
    if a.len() == 0 {
        b.len() > 0
    } else if b.len() == 0 {
        false
    } else if a[0] != b[0] {
        a[0] < b[0]
    } else {
        bytes_lt(a.drop_first(), b.drop_first())
    }
}

/// The order of map keys: that of their UTF-8 bytes.
pub open spec fn key_lt(a: Seq<char>, b: Seq<char>) -> bool {
    bytes_lt(encode_utf8(a), encode_utf8(b))
}

/// Whether the keys of `es` ascend strictly.
pub open spec fn keys_ascending(es: Seq<(Seq<char>, Value)>) -> bool {
    forall|i: int, j: int| 0 <= i < j < es.len() ==> key_lt(#[trigger] es[i].0, #[trigger] es[j].0)
}

/// How many leading entries of `es` have a key below `k`.
pub open spec fn insert_pos(es: Seq<(Seq<char>, Value)>, k: Seq<char>) -> nat
    decreases es.len(),
{
    if es.len() == 0 {
        0
    } else if key_lt(es[0].0, k) {
        1 + insert_pos(es.drop_first(), k)
    } else {
        0
    }
}

/// The entries after setting key `k` to `v`: its value is replaced when `k`
/// is present, otherwise the entry goes in at its place in key order.
pub open spec fn map_insert(es: Seq<(Seq<char>, Value)>, k: Seq<char>, v: Value) -> Seq<(Seq<char>, Value)> {
    let i = insert_pos(es, k) as int;
    if i < es.len() && es[i].0 == k {
        es.update(i, (k, v))
    } else {
        es.insert(i, (k, v))
    }
}

pub proof fn lemma_bytes_lt_irreflexive(a: Seq<u8>)
    ensures
        !bytes_lt(a, a),
    decreases a.len(),
{
    if a.len() > 0 {
        lemma_bytes_lt_irreflexive(a.drop_first());
    }
}

pub proof fn lemma_bytes_lt_trichotomy(a: Seq<u8>, b: Seq<u8>)
    ensures
        a == b || bytes_lt(a, b) || bytes_lt(b, a),
        !(bytes_lt(a, b) && bytes_lt(b, a)),
    decreases a.len(),
{
    if a.len() > 0 && b.len() > 0 && a[0] == b[0] {
        lemma_bytes_lt_trichotomy(a.drop_first(), b.drop_first());
        if a.drop_first() == b.drop_first() {
            assert(a =~= seq![a[0]] + a.drop_first());
            assert(b =~= seq![b[0]] + b.drop_first());
        }
    } else if a.len() == 0 && b.len() == 0 {
        assert(a =~= b);
    }
}

pub proof fn lemma_bytes_lt_transitive(a: Seq<u8>, b: Seq<u8>, c: Seq<u8>)
    requires
        bytes_lt(a, b),
        bytes_lt(b, c),
    ensures
        bytes_lt(a, c),
    decreases a.len(),
{
    if a.len() > 0 && b.len() > 0 && c.len() > 0 && a[0] == b[0] && b[0] == c[0] {
        lemma_bytes_lt_transitive(a.drop_first(), b.drop_first(), c.drop_first());
    }
}

pub proof fn lemma_key_order(a: Seq<char>, b: Seq<char>)
    ensures
        a == b || key_lt(a, b) || key_lt(b, a),
        !(key_lt(a, b) && key_lt(b, a)),
        !key_lt(a, a),
{
    lemma_bytes_lt_trichotomy(encode_utf8(a), encode_utf8(b));
    lemma_bytes_lt_irreflexive(encode_utf8(a));
    if encode_utf8(a) == encode_utf8(b) {
        encode_utf8_decode_utf8(a);
        encode_utf8_decode_utf8(b);
    }
}

pub proof fn lemma_insert_pos(es: Seq<(Seq<char>, Value)>, k: Seq<char>)
    ensures
        insert_pos(es, k) <= es.len(),
        forall|j: int| 0 <= j < insert_pos(es, k) ==> key_lt(#[trigger] es[j].0, k),
        insert_pos(es, k) < es.len() ==> !key_lt(es[insert_pos(es, k) as int].0, k),
    decreases es.len(),
{
    if es.len() > 0 && key_lt(es[0].0, k) {
        lemma_insert_pos(es.drop_first(), k);
        assert forall|j: int| 0 <= j < insert_pos(es, k) implies key_lt(#[trigger] es[j].0, k) by {
            if j > 0 {
                assert(es[j] == es.drop_first()[j - 1]);
            }
        }
    }
}

/// When every key of `es` is below `k`, setting `k` appends.
pub proof fn lemma_insert_above(es: Seq<(Seq<char>, Value)>, k: Seq<char>, v: Value)
    requires
        forall|j: int| 0 <= j < es.len() ==> key_lt(#[trigger] es[j].0, k),
    ensures
        map_insert(es, k, v) == es.push((k, v)),
    decreases es.len(),
{
    if es.len() > 0 {
        assert forall|j: int| 0 <= j < es.drop_first().len() implies key_lt(#[trigger] es.drop_first()[j].0, k) by {
            assert(es.drop_first()[j] == es[j + 1]);
        }
        lemma_insert_above(es.drop_first(), k, v);
        lemma_insert_pos(es.drop_first(), k);
    }
    lemma_insert_pos(es, k);
    assert(es.insert(es.len() as int, (k, v)) =~= es.push((k, v)));
}

/// Setting a key keeps the keys ascending.
pub proof fn lemma_insert_ascending(es: Seq<(Seq<char>, Value)>, k: Seq<char>, v: Value)
    requires
        keys_ascending(es),
    ensures
        keys_ascending(map_insert(es, k, v)),
{
    lemma_insert_pos(es, k);
    let p = insert_pos(es, k) as int;
    let r = map_insert(es, k, v);
    if p < es.len() && es[p].0 == k {
        assert forall|i: int, j: int| 0 <= i < j < r.len() implies key_lt(#[trigger] r[i].0, #[trigger] r[j].0) by {
            assert(r[i].0 == es[i].0);
            assert(r[j].0 == es[j].0);
        }
    } else {
        if p < es.len() {
            lemma_key_order(es[p].0, k);
        }
        assert forall|i: int, j: int| 0 <= i < j < r.len() implies key_lt(#[trigger] r[i].0, #[trigger] r[j].0) by {
            if j < p {
                assert(r[i] == es[i] && r[j] == es[j]);
            } else if j == p {
                assert(r[j].0 == k && r[i] == es[i]);
            } else if i == p {
                assert(r[i].0 == k && r[j] == es[j - 1]);
                if j - 1 > p {
                    lemma_bytes_lt_transitive(encode_utf8(k), encode_utf8(es[p].0), encode_utf8(es[j - 1].0));
                }
            } else if i < p {
                assert(r[i] == es[i] && r[j] == es[j - 1]);
                lemma_bytes_lt_transitive(encode_utf8(es[i].0), encode_utf8(k), encode_utf8(es[p].0));
                if j - 1 > p {
                    lemma_bytes_lt_transitive(encode_utf8(es[i].0), encode_utf8(es[p].0), encode_utf8(es[j - 1].0));
                }
            } else {
                assert(r[i] == es[i - 1] && r[j] == es[j - 1]);
            }
        }
    }
}

/// Compares two byte strings in lexicographic order: negative, zero or
/// positive as `a` is below, equal to or above `b`.
pub fn compare_bytes(a: &[u8], b: &[u8]) -> (r: i8)
    ensures
        (r == 0) == (a@ == b@),
        (r < 0) == bytes_lt(a@, b@),
{
    let mut i: usize = 0;
    assert(a@.skip(0) =~= a@ && b@.skip(0) =~= b@);
    while i < a.len() && i < b.len() && a[i] == b[i]
        invariant
            i <= a@.len(),
            i <= b@.len(),
            a@.take(i as int) == b@.take(i as int),
            bytes_lt(a@, b@) == bytes_lt(a@.skip(i as int), b@.skip(i as int)),
        decreases a@.len() - i,
    {
        proof {
            assert(a@.skip(i as int).drop_first() =~= a@.skip(i as int + 1));
            assert(b@.skip(i as int).drop_first() =~= b@.skip(i as int + 1));
            assert(a@.take(i as int + 1) =~= a@.take(i as int).push(a@[i as int]));
            assert(b@.take(i as int + 1) =~= b@.take(i as int).push(b@[i as int]));
        }
        i = i + 1;
    }
    if i == a.len() && i == b.len() {
        assert(a@ =~= a@.take(i as int));
        assert(b@ =~= b@.take(i as int));
        proof { lemma_bytes_lt_irreflexive(a@); }
        0
    } else if i == a.len() {
        assert(a@.len() != b@.len());
        -1
    } else if i == b.len() {
        assert(a@.len() != b@.len());
        1
    } else if a[i] < b[i] {
        assert(a@[i as int] != b@[i as int]);
        -1
    } else {
        assert(a@[i as int] != b@[i as int]);
        1
    }
}

impl RespMap {
    /// The entries, as keys and frame models, in the order held.
    pub open(crate) spec fn entries(&self) -> Seq<(Seq<char>, Value)> {
        entries_value(self.0@)
    }

    /// The invariant: keys strictly ascending.
    pub open spec fn wf(&self) -> bool {
        keys_ascending(self.entries())
    }

    /// An empty map.
    pub fn new() -> (r: RespMap)
        ensures
            r.entries() == Seq::<(Seq<char>, Value)>::empty(),
            r.wf(),
    {
        let r = RespMap(Vec::new());
        assert(r.entries() =~= Seq::<(Seq<char>, Value)>::empty());
        r
    }

    /// The number of entries.
    pub fn len(&self) -> (r: usize)
        ensures
            r == self.entries().len(),
    {
        proof { crate::encode::lemma_entries_value_len(self.0@); }
        self.0.len()
    }

    /// Sets `key` to `value`, replacing the value that the key had.
    pub fn insert(&mut self, key: String, value: RespFrame)
        ensures
            final(self).entries() == map_insert(old(self).entries(), key@, value@),
            old(self).wf() ==> final(self).wf(),
    {
        proof { crate::encode::lemma_entries_value_len(self.0@); }
        let ghost es = self.entries();
        let ghost k = key@;
        let mut i: usize = 0;
        assert(es.skip(0) =~= es);
        while i < self.0.len() && compare_bytes(self.0[i].0.as_str().as_bytes(), key.as_str().as_bytes()) < 0
            invariant
                i <= self.0@.len(),
                es == entries_value(self.0@),
                es.len() == self.0@.len(),
                k == key@,
                forall|j: int| 0 <= j < self.0@.len() ==> #[trigger] es[j] == (self.0@[j].0@, self.0@[j].1@),
                insert_pos(es, k) == i + insert_pos(es.skip(i as int), k),
            decreases self.0@.len() - i,
        {
            proof {
                assert(es.skip(i as int).drop_first() =~= es.skip(i as int + 1));
                assert(es.skip(i as int)[0] == es[i as int]);
            }
            i = i + 1;
        }
        proof {
            if i < es.len() {
                assert(es.skip(i as int)[0] == es[i as int]);
            }
        }
        assert(insert_pos(es, k) == i);
        let same = i < self.0.len() && compare_bytes(self.0[i].0.as_str().as_bytes(), key.as_str().as_bytes()) == 0;
        proof {
            if i < es.len() {
                if same {
                    encode_utf8_decode_utf8(es[i as int].0);
                    encode_utf8_decode_utf8(k);
                }
            }
        }
        assert(same == (i < es.len() && es[i as int].0 == k));
        let ghost old_vec = self.0@;
        if same {
            self.0.remove(i);
            self.0.insert(i, (key, value));
        } else {
            self.0.insert(i, (key, value));
        }
        proof {
            crate::encode::lemma_entries_value_len(self.0@);
            assert(self.entries() =~= map_insert(es, k, value@));
            if keys_ascending(es) {
                lemma_insert_ascending(es, k, value@);
            }
        }
    }
}

impl View for RespFrame {
    type V = Value;

    open spec fn view(&self) -> Value {
        frame_value(*self)
    }
}

} // verus!
