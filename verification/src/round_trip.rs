//! The round trip between values and their encodings, in both directions.

use vstd::prelude::*;
use crate::decimal::{
    all_digits, decimal, decimal_int, is_digit, lemma_decimal_numeral, lemma_decimal_parse_int,
    lemma_decimal_parse_nat, lemma_parse_int_decimal, lemma_parse_nat_decimal, parse_nat, MINUS,
};
use crate::resp::{
    crlf, crlf_at, crlf_free, first_crlf, lemma_first_crlf, lemma_first_crlf_is, line_ends_at,
    rest, spec_decode, spec_decode_complete, spec_decode_items, spec_encode, spec_encode_from,
    DecodeError, Value, ARRAY, BULK, CR, ERROR, INTEGER, LF, SIMPLE,
};

verus! {

/// Whether `v` is a value that some buffer decodes to: its lines of text
/// hold no CRLF, its counts are below 2^64, and the absent value occurs
/// nowhere in it.
pub open spec fn is_wire_value(v: Value) -> bool
    decreases v,
{
    match v {
        Value::SimpleString(s) => crlf_free(s),
        Value::Error(s) => crlf_free(s),
        Value::Integer(_) => true,
        Value::BulkString(b) => b.len() <= u64::MAX,
        Value::Array(items) => items.len() <= u64::MAX && forall|i: int|
            0 <= i < items.len() ==> is_wire_value(#[trigger] items[i]),
        Value::Nil => false,
    }
}

/// A line that holds no CRLF, behind one byte that is no CR and before a
/// CRLF, ends at that CRLF.
proof fn lemma_line_end(prefix: u8, line: Seq<u8>, after: Seq<u8>)
    requires
        prefix != CR,
        crlf_free(line),
    ensures
        first_crlf(seq![prefix] + line + crlf() + after) == Some(1 + line.len() as int),
        (seq![prefix] + line + crlf() + after).subrange(1, 1 + line.len() as int) == line,
{
    let s = seq![prefix] + line + crlf() + after;
    let end: int = line.len() as int + 1;
    assert(s[end] == CR && s[end + 1] == LF);
    assert forall|j: int| 0 <= j < end implies !crlf_at(s, j) by {
        if j >= 1 {
            assert(s[j] == line[j - 1]);
            if j + 1 < end {
                assert(s[j + 1] == line[j]);
                assert(!crlf_at(line, j - 1));
            }
        }
    }
    lemma_first_crlf_is(s, end);
    assert(s.subrange(1, end) =~= line);
}

/// A run of digits, with or without a minus sign before it, holds no CRLF.
proof fn lemma_digits_crlf_free(s: Seq<u8>)
    requires
        all_digits(s) || (s.len() >= 1 && s[0] == MINUS && all_digits(s.skip(1))),
    ensures
        crlf_free(s),
{
    assert forall|i: int| !crlf_at(s, i) by {
        if 0 <= i && i + 1 < s.len() {
            if all_digits(s) {
                assert(is_digit(s[i]));
            } else {
                assert(s.skip(1)[i] == s[i + 1]);
                assert(is_digit(s.skip(1)[i]));
            }
        }
    }
}

/// Round trip, from a value: what encodes a value decodes to that value,
/// and takes exactly the bytes of the encoding, whatever comes after them.
pub proof fn lemma_decode_encode_prefix(v: Value, after: Seq<u8>)
    requires
        is_wire_value(v),
    ensures
        spec_decode(spec_encode(v) + after) == Ok::<_, DecodeError>(
            (v, spec_encode(v).len() as int),
        ),
        spec_encode(v).len() >= 3,
    decreases v, 0nat,
{
    let s = spec_encode(v) + after;
    match v {
        Value::SimpleString(line) => {
            assert(s =~= seq![SIMPLE] + line + crlf() + after);
            lemma_line_end(SIMPLE, line, after);
        },
        Value::Error(line) => {
            assert(s =~= seq![ERROR] + line + crlf() + after);
            lemma_line_end(ERROR, line, after);
        },
        Value::Integer(n) => {
            let line = decimal_int(n as int);
            assert(s =~= seq![INTEGER] + line + crlf() + after);
            if n < 0 {
                lemma_decimal_numeral((-(n as int)) as nat);
                assert(line.skip(1) =~= decimal((-(n as int)) as nat));
            } else {
                lemma_decimal_numeral(n as nat);
            }
            lemma_digits_crlf_free(line);
            lemma_line_end(INTEGER, line, after);
            lemma_parse_int_decimal(n);
        },
        Value::BulkString(b) => {
            let line = decimal(b.len());
            let tail = b + crlf() + after;
            assert(s =~= seq![BULK] + line + crlf() + tail);
            lemma_decimal_numeral(b.len());
            lemma_digits_crlf_free(line);
            lemma_line_end(BULK, line, tail);
            lemma_parse_nat_decimal(b.len());
            let body: int = line.len() as int + 3;
            assert(s.subrange(body, body + b.len()) =~= b);
            assert(s[body + b.len()] == CR);
            assert(s[body + b.len() + 1] == LF);
        },
        Value::Array(items) => {
            let line = decimal(items.len());
            let tail = spec_encode_from(items, 0) + after;
            assert(s =~= seq![ARRAY] + line + crlf() + tail);
            lemma_decimal_numeral(items.len());
            lemma_digits_crlf_free(line);
            lemma_line_end(ARRAY, line, tail);
            lemma_parse_nat_decimal(items.len());
            let body: int = line.len() as int + 3;
            assert(rest(s, body) =~= tail);
            lemma_decode_items_encode(items, 0, after);
            assert(items.skip(0) =~= items);
        },
        Value::Nil => {},
    }
}

/// Round trip, from the values of an array: what encodes them, one after
/// the other, decodes to them.
pub proof fn lemma_decode_items_encode(items: Seq<Value>, from: nat, after: Seq<u8>)
    requires
        from <= items.len(),
        forall|i: int| 0 <= i < items.len() ==> is_wire_value(#[trigger] items[i]),
    ensures
        spec_decode_items(spec_encode_from(items, from) + after, (items.len() - from) as nat)
            == Ok::<_, DecodeError>(
            (items.skip(from as int), spec_encode_from(items, from).len() as int),
        ),
    decreases items, items.len() - from,
{
    if from == items.len() {
        assert(items.skip(from as int) =~= Seq::<Value>::empty());
    } else {
        let first = items[from as int];
        let later = spec_encode_from(items, from + 1) + after;
        let s = spec_encode_from(items, from) + after;
        assert(s =~= spec_encode(first) + later);
        lemma_decode_encode_prefix(first, later);
        assert(rest(s, spec_encode(first).len() as int) =~= later);
        lemma_decode_items_encode(items, from + 1, after);
        assert(seq![first] + items.skip(from as int + 1) =~= items.skip(from as int));
    }
}

/// Round trip, from a value: decoding the encoding of a value returns the
/// value and the length of the encoding.
///
/// It holds of every value that the decoder can return. The rest have no
/// encoding that decodes to them: a line of text with a CRLF inside it is
/// cut at that CRLF, and the absent value is written with a count of -1,
/// which the decoder rejects.
pub proof fn lemma_decode_encode(v: Value)
    requires
        is_wire_value(v),
    ensures
        spec_decode(spec_encode(v)) == Ok::<_, DecodeError>((v, spec_encode(v).len() as int)),
        spec_decode_complete(spec_encode(v)) == Ok::<_, DecodeError>(v),
{
    lemma_decode_encode_prefix(v, Seq::empty());
    assert(spec_encode(v) + Seq::<u8>::empty() =~= spec_encode(v));
}

/// The values of which the round trip holds are those that the decoder can
/// return, and no others: the encoding of any other value decodes to
/// something else, or to nothing.
pub proof fn lemma_round_trip_exactly(v: Value)
    ensures
        is_wire_value(v) <==> spec_decode(spec_encode(v)) == Ok::<_, DecodeError>(
            (v, spec_encode(v).len() as int),
        ),
{
    if is_wire_value(v) {
        lemma_decode_encode(v);
    }
    if spec_decode(spec_encode(v)) is Ok {
        lemma_encode_decode(spec_encode(v));
    }
}

/// The encodings of the values behind the first of a sequence are those of
/// the sequence without its first.
proof fn lemma_encode_from_shift(first: Value, others: Seq<Value>, from: nat)
    ensures
        spec_encode_from(seq![first] + others, from + 1) == spec_encode_from(others, from),
    decreases others.len() - from,
{
    let all = seq![first] + others;
    if from < others.len() {
        assert(all[from as int + 1] == others[from as int]);
        lemma_encode_from_shift(first, others, from + 1);
    }
}

/// Round trip, from a buffer: the value that a buffer decodes to encodes
/// to the bytes that the decoder took, and to no others. Those bytes are
/// three or more, and no more than the buffer holds.
pub proof fn lemma_encode_decode(s: Seq<u8>)
    requires
        spec_decode(s) is Ok,
    ensures
        3 <= spec_decode(s)->Ok_0.1 <= s.len(),
        is_wire_value(spec_decode(s)->Ok_0.0),
        spec_encode(spec_decode(s)->Ok_0.0) == s.subrange(0, spec_decode(s)->Ok_0.1),
    decreases s.len(), 0nat,
{
    lemma_first_crlf(s);
    let end = first_crlf(s)->0;
    let line = s.subrange(1, end);
    let body = end + 2;
    let (v, used) = spec_decode(s)->Ok_0;
    assert(end >= 1);
    assert forall|j: int| !crlf_at(line, j) by {
        if crlf_at(line, j) {
            assert(crlf_at(s, j + 1));
        }
    }
    if s[0] == SIMPLE || s[0] == ERROR {
        assert(spec_encode(v) =~= s.subrange(0, used));
    } else if s[0] == INTEGER {
        lemma_decimal_parse_int(line);
        assert(spec_encode(v) =~= s.subrange(0, used));
    } else if s[0] == BULK {
        lemma_decimal_parse_nat(line);
        assert(spec_encode(v) =~= s.subrange(0, used));
    } else {
        lemma_decimal_parse_nat(line);
        let count = parse_nat(line)->0 as nat;
        let tail = rest(s, body);
        lemma_encode_decode_items(tail, count);
        let (items, more) = spec_decode_items(tail, count)->Ok_0;
        assert(s.subrange(0, used) =~= s.subrange(0, body) + tail.subrange(0, more));
        assert(spec_encode(v) =~= s.subrange(0, used));
    }
}

/// Round trip, from a buffer that holds the values of an array: they are as
/// many as were asked for, and they encode to the bytes that the decoder
/// took.
pub proof fn lemma_encode_decode_items(s: Seq<u8>, count: nat)
    requires
        spec_decode_items(s, count) is Ok,
    ensures
        spec_decode_items(s, count)->Ok_0.0.len() == count,
        0 <= spec_decode_items(s, count)->Ok_0.1 <= s.len(),
        forall|i: int|
            0 <= i < count ==> is_wire_value(#[trigger] spec_decode_items(s, count)->Ok_0.0[i]),
        spec_encode_from(spec_decode_items(s, count)->Ok_0.0, 0) == s.subrange(
            0,
            spec_decode_items(s, count)->Ok_0.1,
        ),
    decreases s.len(), count + 1,
{
    let (items, total) = spec_decode_items(s, count)->Ok_0;
    if count == 0 {
        assert(s.subrange(0, 0) =~= Seq::<u8>::empty());
    } else {
        lemma_encode_decode(s);
        let (first, used) = spec_decode(s)->Ok_0;
        let tail = rest(s, used);
        lemma_encode_decode_items(tail, (count - 1) as nat);
        let (others, more) = spec_decode_items(tail, (count - 1) as nat)->Ok_0;
        assert(items == seq![first] + others);
        lemma_encode_from_shift(first, others, 0);
        assert(spec_encode_from(items, 0) == spec_encode(first) + spec_encode_from(items, 1));
        assert(s.subrange(0, total) =~= s.subrange(0, used) + tail.subrange(0, more));
        assert forall|i: int| 0 <= i < count implies is_wire_value(#[trigger] items[i]) by {
            if i > 0 {
                assert(items[i] == others[i - 1]);
            }
        }
    }
}

} // verus!
