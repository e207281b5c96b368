//! Decimal text of integers, as RESP writes lengths and integer frames.
use vstd::prelude::*;

verus! {

/// Whether `b` is an ASCII decimal digit.
pub open spec fn is_digit(b: u8) -> bool {
    48 <= b <= 57
}

/// Whether `t` is a non-empty run of ASCII decimal digits.
pub open spec fn all_digits(t: Seq<u8>) -> bool {
    t.len() > 0 && forall|i: int| 0 <= i < t.len() ==> is_digit(#[trigger] t[i])
}

/// ASCII lower case of one byte.
pub open spec fn lower(b: u8) -> u8 {
    if 65 <= b <= 90 {
        (b + 32) as u8
    } else {
        b
    }
}

/// ASCII lower case of a byte string.
pub open spec fn lowered(s: Seq<u8>) -> Seq<u8> {
    Seq::new(s.len(), |i: int| lower(s[i]))
}

/// The number that a run of decimal digits denotes.
pub open spec fn digits_value(t: Seq<u8>) -> nat
    decreases t.len(),
{
    if t.len() == 0 {
        0
    } else {
        digits_value(t.drop_last()) * 10 + (t.last() - 48) as nat
    }
}

/// The shortest decimal digits of `n` (a single `0` for zero).
pub open spec fn digits_of(n: nat) -> Seq<u8>
    decreases n,
{
    if n < 10 {
        seq![(48 + n) as u8]
    } else {
        digits_of(n / 10).push((48 + n % 10) as u8)
    }
}

/// The text of an integer frame: an explicit `+` for non-negative values.
pub open spec fn signed_text(i: int) -> Seq<u8> {
    if i >= 0 {
        seq![43u8] + digits_of(i as nat)
    } else {
        seq![45u8] + digits_of((-i) as nat)
    }
}

/// The integer that `t` denotes: an optional `+` or `-`, then digits.
pub open spec fn signed_value(t: Seq<u8>) -> Option<int> {
    if t.len() > 0 && t[0] == 43u8 {
        if all_digits(t.drop_first()) {
            Some(digits_value(t.drop_first()) as int)
        } else {
            None
        }
    } else if t.len() > 0 && t[0] == 45u8 {
        if all_digits(t.drop_first()) {
            Some(-(digits_value(t.drop_first()) as int))
        } else {
            None
        }
    } else if all_digits(t) {
        Some(digits_value(t) as int)
    } else {
        None
    }
}

/// Whether `v` fits in a signed 64-bit integer.
pub open spec fn fits_i64(v: int) -> bool {
    i64::MIN <= v <= i64::MAX
}

pub proof fn lemma_digits_of_shape(n: nat)
    ensures
        all_digits(digits_of(n)),
        digits_value(digits_of(n)) == n,
        digits_of(n).len() >= 1,
    decreases n,
{
    if n >= 10 {
        lemma_digits_of_shape(n / 10);
        let d = digits_of(n);
        assert(d.drop_last() =~= digits_of(n / 10));
        assert(d.last() == (48 + n % 10) as u8);
        assert(digits_value(d) == digits_value(digits_of(n / 10)) * 10 + (n % 10));
        assert(n == (n / 10) * 10 + n % 10);
    } else {
        let d = digits_of(n);
        assert(d.drop_last() =~= Seq::<u8>::empty());
        assert(digits_value(Seq::<u8>::empty()) == 0);
        assert(d.last() == (48 + n) as u8);
        assert(digits_value(d) == digits_value(d.drop_last()) * 10 + n);
    }
}

pub proof fn lemma_signed_round_trip(i: int)
    ensures
        signed_value(signed_text(i)) == Some(i),
{
    let n: nat = if i >= 0 { i as nat } else { (-i) as nat };
    lemma_digits_of_shape(n);
    assert(signed_text(i).drop_first() =~= digits_of(n));
}

proof fn lemma_digits_value_grows(t: Seq<u8>, i: int)
    requires
        0 <= i <= t.len(),
        forall|k: int| 0 <= k < t.len() ==> is_digit(#[trigger] t[k]),
    ensures
        digits_value(t.take(i)) <= digits_value(t),
    decreases t.len() - i,
{
    if i < t.len() {
        lemma_digits_value_grows(t, i + 1);
        assert(t.take(i + 1).drop_last() =~= t.take(i));
    } else {
        assert(t.take(i) =~= t);
    }
}


/// One step of the recogniser of decimal float text: from state `st` on
/// byte `c`. States: 0 start, 1 after a sign, 2 in the integer digits,
/// 3 just after a point that follows digits, 4 in the fraction digits,
/// 5 after the exponent mark, 6 after the exponent sign, 7 in the exponent
/// digits, 8 after a point with no digit before it; -1 rejects.
pub open spec fn float_step(st: int, c: u8) -> int {
    let sign = c == 43u8 || c == 45u8;
    let exp = c == 101u8 || c == 69u8;
    let point = c == 46u8;
    if st == 0 {
        if sign { 1 } else if is_digit(c) { 2 } else if point { 8 } else { -1 }
    } else if st == 1 {
        if is_digit(c) { 2 } else if point { 8 } else { -1 }
    } else if st == 2 {
        if is_digit(c) { 2 } else if point { 3 } else if exp { 5 } else { -1 }
    } else if st == 3 || st == 4 {
        if is_digit(c) { 4 } else if exp { 5 } else { -1 }
    } else if st == 5 {
        if sign { 6 } else if is_digit(c) { 7 } else { -1 }
    } else if st == 6 || st == 7 {
        if is_digit(c) { 7 } else { -1 }
    } else if st == 8 {
        if is_digit(c) { 4 } else { -1 }
    } else {
        -1
    }
}

/// The state of the recogniser after reading all of `t`.
pub open spec fn float_run(t: Seq<u8>) -> int
    decreases t.len(),
{
    if t.len() == 0 {
        0
    } else {
        float_step(float_run(t.drop_last()), t.last())
    }
}

/// Whether the recogniser accepts in state `st`: some digit has been read,
/// and an exponent mark, if any, has digits after it.
pub open spec fn float_accepts(st: int) -> bool {
    st == 2 || st == 3 || st == 4 || st == 7
}

/// Whether `w` is `inf`, `infinity` or `nan`, in any ASCII case.
pub open spec fn special_word(w: Seq<u8>) -> bool {
    (w.len() == 3 && lower(w[0]) == 105u8 && lower(w[1]) == 110u8 && lower(w[2]) == 102u8) || (w.len()
        == 8 && lower(w[0]) == 105u8 && lower(w[1]) == 110u8 && lower(w[2]) == 102u8 && lower(w[3])
        == 105u8 && lower(w[4]) == 110u8 && lower(w[5]) == 105u8 && lower(w[6]) == 116u8 && lower(w[7])
        == 121u8) || (w.len() == 3 && lower(w[0]) == 110u8 && lower(w[1]) == 97u8 && lower(w[2]) == 110u8)
}

/// Whether `t` is the text of a double, in the syntax of std's float
/// parsing: an optional sign, then digits with an optional point (`5`, `5.`,
/// `.5`, `5.14`) and an optional exponent (`e9`, `E-9`); or an optional sign
/// and one of `inf`, `infinity`, `nan` in any case.
#[verifier::opaque]
pub open spec fn double_text(t: Seq<u8>) -> bool {
    float_accepts(float_run(t)) || special_word(t) || (t.len() > 0 && (t[0] == 43u8 || t[0] == 45u8)
        && special_word(t.drop_first()))
}

fn float_step_exec(st: i8, c: u8) -> (r: i8)
    requires
        -1 <= st <= 8,
    ensures
        r as int == float_step(st as int, c),
        -1 <= r <= 8,
{
    let sign = c == 43u8 || c == 45u8;
    let exp = c == 101u8 || c == 69u8;
    let point = c == 46u8;
    let digit = 48u8 <= c && c <= 57u8;
    if st == 0 {
        if sign { 1 } else if digit { 2 } else if point { 8 } else { -1 }
    } else if st == 1 {
        if digit { 2 } else if point { 8 } else { -1 }
    } else if st == 2 {
        if digit { 2 } else if point { 3 } else if exp { 5 } else { -1 }
    } else if st == 3 || st == 4 {
        if digit { 4 } else if exp { 5 } else { -1 }
    } else if st == 5 {
        if sign { 6 } else if digit { 7 } else { -1 }
    } else if st == 6 || st == 7 {
        if digit { 7 } else { -1 }
    } else if st == 8 {
        if digit { 4 } else { -1 }
    } else {
        -1
    }
}

fn lower_exec(c: u8) -> (r: u8)
    ensures
        r == lower(c),
{
    if 65u8 <= c && c <= 90u8 {
        c + 32u8
    } else {
        c
    }
}

/// Whether `b[lo..hi]` is `inf`, `infinity` or `nan`, in any ASCII case.
fn is_special_word(b: &[u8], lo: usize, hi: usize) -> (r: bool)
    requires
        lo <= hi <= b@.len(),
    ensures
        r == special_word(b@.subrange(lo as int, hi as int)),
{
    let ghost t = b@.subrange(lo as int, hi as int);
    let n = hi - lo;
    if n == 3 {
        assert(t[0] == b@[lo as int] && t[1] == b@[lo + 1] && t[2] == b@[lo + 2]);
        let (c0, c1, c2) = (lower_exec(b[lo]), lower_exec(b[lo + 1]), lower_exec(b[lo + 2]));
        (c0 == 105u8 && c1 == 110u8 && c2 == 102u8) || (c0 == 110u8 && c1 == 97u8 && c2 == 110u8)
    } else if n == 8 {
        assert(t[0] == b@[lo as int] && t[1] == b@[lo + 1] && t[2] == b@[lo + 2] && t[3] == b@[lo + 3]);
        assert(t[4] == b@[lo + 4] && t[5] == b@[lo + 5] && t[6] == b@[lo + 6] && t[7] == b@[lo + 7]);
        lower_exec(b[lo]) == 105u8 && lower_exec(b[lo + 1]) == 110u8 && lower_exec(b[lo + 2]) == 102u8
            && lower_exec(b[lo + 3]) == 105u8 && lower_exec(b[lo + 4]) == 110u8 && lower_exec(b[lo + 5])
            == 105u8 && lower_exec(b[lo + 6]) == 116u8 && lower_exec(b[lo + 7]) == 121u8
    } else {
        false
    }
}

/// Whether `b[lo..hi]` is the text of a double.
pub fn is_double_text(b: &[u8], lo: usize, hi: usize) -> (r: bool)
    requires
        lo <= hi <= b@.len(),
    ensures
        r == double_text(b@.subrange(lo as int, hi as int)),
{
    reveal(double_text);
    let ghost t = b@.subrange(lo as int, hi as int);
    let mut st: i8 = 0;
    let mut i = lo;
    while i < hi
        invariant
            lo <= i <= hi <= b@.len(),
            t == b@.subrange(lo as int, hi as int),
            st as int == float_run(t.take(i - lo)),
            -1 <= st <= 8,
        decreases hi - i,
    {
        assert(t.take(i - lo + 1).drop_last() =~= t.take(i - lo));
        assert(t.take(i - lo + 1).last() == b@[i as int]);
        st = float_step_exec(st, b[i]);
        i = i + 1;
    }
    assert(t.take(hi - lo) =~= t);
    if st == 2 || st == 3 || st == 4 || st == 7 {
        return true;
    }
    if is_special_word(b, lo, hi) {
        return true;
    }
    if lo < hi && (b[lo] == 43u8 || b[lo] == 45u8) {
        let w = is_special_word(b, lo + 1, hi);
        assert(b@.subrange(lo + 1, hi as int) =~= t.drop_first());
        return w;
    }
    false
}

/// Appends the decimal digits of `n`.
pub fn push_digits(out: &mut Vec<u8>, n: u64)
    ensures
        final(out)@ == old(out)@ + digits_of(n as nat),
    decreases n,
{
    if n >= 10 {
        push_digits(out, n / 10);
    }
    out.push(48u8 + (n % 10) as u8);
    proof {
        if n >= 10 {
            assert(digits_of(n as nat) == digits_of((n / 10) as nat).push((48 + n % 10) as u8));
        }
    }
    assert(out@ =~= old(out)@ + digits_of(n as nat));
}

/// Appends the text of an integer frame's value, sign included.
pub fn push_signed(out: &mut Vec<u8>, i: i64)
    ensures
        final(out)@ == old(out)@ + signed_text(i as int),
{
    let mag: u64;
    if i >= 0 {
        out.push(43u8);
        mag = i as u64;
    } else {
        out.push(45u8);
        mag = (-(i as i128)) as u64;
    }
    push_digits(out, mag);
    assert(out@ =~= old(out)@ + signed_text(i as int));
}

/// Reads `b[lo..hi]` as an optionally signed decimal integer; `None` when it
/// is not one or does not fit in 64 bits.
pub fn parse_signed(b: &[u8], lo: usize, hi: usize) -> (r: Option<i64>)
    requires
        lo <= hi <= b@.len(),
    ensures
        r == (match signed_value(b@.subrange(lo as int, hi as int)) {
            Some(v) => if fits_i64(v) { Some(v as i64) } else { None },
            None => None,
        }),
{
    let ghost t = b@.subrange(lo as int, hi as int);
    let mut start = lo;
    let mut negative = false;
    if lo < hi && (b[lo] == 43u8 || b[lo] == 45u8) {
        negative = b[lo] == 45u8;
        start = lo + 1;
    }
    let ghost d = b@.subrange(start as int, hi as int);
    assert(start > lo ==> d =~= t.drop_first());
    assert(start == lo ==> d =~= t);
    assert(lo < hi ==> t[0] == b@[lo as int]);
    if start == hi {
        return None;
    }
    let mut k = start;
    while k < hi
        invariant
            lo <= start <= k <= hi <= b@.len(),
            start <= lo + 1,
            d == b@.subrange(start as int, hi as int),
            forall|j: int| start <= j < k ==> is_digit(#[trigger] b@[j]),
            t == b@.subrange(lo as int, hi as int),
            start > lo ==> d =~= t.drop_first() && (t[0] == 43u8 || t[0] == 45u8),
            start == lo ==> d =~= t && (lo < hi ==> t[0] != 43u8 && t[0] != 45u8),
            negative <==> (start > lo && t[0] == 45u8),
        decreases hi - k,
    {
        if b[k] < 48u8 || b[k] > 57u8 {
            assert(!is_digit(d[k - start]));
            assert(!all_digits(d));
            assert(signed_value(t).is_none());
            return None;
        }
        k = k + 1;
    }
    assert(all_digits(d));
    let limit: u64 = 0x8000_0000_0000_0000u64;
    let mut acc: u64 = 0;
    let mut i = start;
    while i < hi
        invariant
            lo <= start <= i <= hi <= b@.len(),
            start <= lo + 1,
            d == b@.subrange(start as int, hi as int),
            all_digits(d),
            limit == 0x8000_0000_0000_0000u64,
            acc <= limit,
            t == b@.subrange(lo as int, hi as int),
            start > lo ==> d =~= t.drop_first() && (t[0] == 43u8 || t[0] == 45u8),
            start == lo ==> d =~= t && (lo < hi ==> t[0] != 43u8 && t[0] != 45u8),
            negative <==> (start > lo && t[0] == 45u8),
            acc as nat == digits_value(d.take(i - start)),
        decreases hi - i,
    {
        assert(d[i - start] == b@[i as int]);
        assert(is_digit(b@[i as int]));
        let digit = (b[i] - 48u8) as u64;
        assert(digit <= 9);
        assert(d.take(i - start + 1).drop_last() =~= d.take(i - start));
        assert(d.take(i - start + 1).last() == b@[i as int]);
        assert(digits_value(d.take(i - start + 1)) == acc * 10 + digit);
        if acc > (limit - digit) / 10 {
            proof {
                lemma_digits_value_grows(d, i - start + 1);
                assert(acc * 10 + digit > limit) by (nonlinear_arith)
                    requires
                        acc > (limit - digit) / 10,
                        digit <= 9,
                        limit == 0x8000_0000_0000_0000u64,
                ;
                assert(digits_value(d) > limit);
                assert(signed_value(t).is_some());
                assert(!fits_i64(signed_value(t).unwrap()));
            }
            return None;
        }
        acc = acc * 10 + digit;
        i = i + 1;
    }
    assert(d.take(hi - start) =~= d);
    if negative {
        Some((-(acc as i128)) as i64)
    } else if acc == limit {
        None
    } else {
        Some(acc as i64)
    }
}

} // verus!
