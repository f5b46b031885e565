//! The wire protocol: values, their encoding, and the decoder.

use vstd::prelude::*;
use crate::decimal::{
    decimal, decimal_int, format_i64, format_u64, parse_i64, parse_int, parse_nat, parse_u64,
};
use crate::text::push_all;

verus! {

/// The carriage return, first byte of a line's end.
pub const CR: u8 = 13;

/// The line feed, second byte of a line's end.
pub const LF: u8 = 10;

/// `+`, the prefix of a simple string.
pub const SIMPLE: u8 = 43;

/// `-`, the prefix of an error.
pub const ERROR: u8 = 45;

/// `:`, the prefix of an integer.
pub const INTEGER: u8 = 58;

/// `$`, the prefix of a bulk string.
pub const BULK: u8 = 36;

/// `*`, the prefix of an array.
pub const ARRAY: u8 = 42;

/// A protocol value as it is held in memory.
#[derive(Debug, PartialEq, Eq)]
pub enum RESP {
    /// A line of text.
    SimpleString(Vec<u8>),
    /// A line of text that reports a failure.
    Error(Vec<u8>),
    /// A 64-bit signed integer.
    Integer(i64),
    /// Any bytes, framed by their count.
    BulkString(Vec<u8>),
    /// A sequence of values, framed by their count.
    Array(Vec<RESP>),
    /// The absence of a value.
    Nil,
}

/// A protocol value as contracts speak of it.
pub enum Value {
    SimpleString(Seq<u8>),
    Error(Seq<u8>),
    Integer(i64),
    BulkString(Seq<u8>),
    Array(Seq<Value>),
    Nil,
}

impl View for RESP {
    type V = Value;

    open spec fn view(&self) -> Value {
        value_of(*self)
    }
}

/// The value that `r` holds.
pub open spec fn value_of(r: RESP) -> Value
    decreases r, 0nat,
{
    match r {
        RESP::SimpleString(s) => Value::SimpleString(s@),
        RESP::Error(s) => Value::Error(s@),
        RESP::Integer(n) => Value::Integer(n),
        RESP::BulkString(b) => Value::BulkString(b@),
        RESP::Array(items) => Value::Array(views_upto(items@, items@.len())),
        RESP::Nil => Value::Nil,
    }
}

/// The views of the first `n` of `items`, in order.
pub open spec fn views_upto(items: Seq<RESP>, n: nat) -> Seq<Value>
    decreases items, n,
{
    if n == 0 || n > items.len() {
        Seq::empty()
    } else {
        views_upto(items, (n - 1) as nat).push(value_of(items[n - 1]))
    }
}

/// The views of the elements of `items`, in order.
pub open spec fn views(items: Seq<RESP>) -> Seq<Value> {
    views_upto(items, items.len())
}

/// The view of a sequence of values has the view of each value in its place.
proof fn lemma_views_upto(items: Seq<RESP>, n: nat)
    requires
        n <= items.len(),
    ensures
        views_upto(items, n).len() == n,
        forall|i: int| 0 <= i < n ==> #[trigger] views_upto(items, n)[i] == items[i]@,
    decreases n,
{
    if n > 0 {
        lemma_views_upto(items, (n - 1) as nat);
    }
}

/// The view of a sequence of values has the view of each value in its place.
pub proof fn lemma_views(items: Seq<RESP>)
    ensures
        views(items).len() == items.len(),
        forall|i: int| 0 <= i < items.len() ==> #[trigger] views(items)[i] == items[i]@,
{
    lemma_views_upto(items, items.len());
}

/// The two bytes that end every line of the protocol.
pub open spec fn crlf() -> Seq<u8> {
    seq![CR, LF]
}

/// The bytes that stand for `v` on the wire.
///
/// The counts of a bulk string and of an array are those of the value
/// itself. The absent value is written as a bulk string of count -1.
pub open spec fn spec_encode(v: Value) -> Seq<u8>
    decreases v, 0nat,
{
    match v {
        Value::SimpleString(s) => seq![SIMPLE] + s + crlf(),
        Value::Error(s) => seq![ERROR] + s + crlf(),
        Value::Integer(n) => seq![INTEGER] + decimal_int(n as int) + crlf(),
        Value::BulkString(b) => seq![BULK] + decimal(b.len()) + crlf() + b + crlf(),
        Value::Array(items) => seq![ARRAY] + decimal(items.len()) + crlf() + spec_encode_from(
            items,
            0,
        ),
        Value::Nil => seq![BULK] + decimal_int(-1) + crlf(),
    }
}

/// The encodings of `items[from..]`, one after the other.
pub open spec fn spec_encode_from(items: Seq<Value>, from: nat) -> Seq<u8>
    decreases items, items.len() - from,
{
    if from >= items.len() {
        Seq::empty()
    } else {
        spec_encode(items[from as int]) + spec_encode_from(items, from + 1)
    }
}

impl RESP {
    /// Appends the encoding of this value to `out`.
    fn encode_into(&self, out: &mut Vec<u8>)
        ensures
            final(out)@ == old(out)@ + spec_encode(self@),
        decreases self,
    {
        match self {
            RESP::SimpleString(s) => {
                out.push(SIMPLE);
                push_all(out, s.as_slice());
                out.push(CR);
                out.push(LF);
                assert(out@ =~= old(out)@ + spec_encode(self@));
            },
            RESP::Error(s) => {
                out.push(ERROR);
                push_all(out, s.as_slice());
                out.push(CR);
                out.push(LF);
                assert(out@ =~= old(out)@ + spec_encode(self@));
            },
            RESP::Integer(n) => {
                out.push(INTEGER);
                let digits = format_i64(*n);
                push_all(out, digits.as_slice());
                out.push(CR);
                out.push(LF);
                assert(out@ =~= old(out)@ + spec_encode(self@));
            },
            RESP::BulkString(b) => {
                out.push(BULK);
                let digits = format_u64(b.len() as u64);
                push_all(out, digits.as_slice());
                out.push(CR);
                out.push(LF);
                push_all(out, b.as_slice());
                out.push(CR);
                out.push(LF);
                assert(out@ =~= old(out)@ + spec_encode(self@));
            },
            RESP::Array(items) => {
                out.push(ARRAY);
                let digits = format_u64(items.len() as u64);
                push_all(out, digits.as_slice());
                out.push(CR);
                out.push(LF);
                let ghost header = out@;
                let ghost models = views(items@);
                assert(self@ == Value::Array(models));
                proof {
                    lemma_views(items@);
                }
                assert(header =~= old(out)@ + seq![ARRAY] + decimal(models.len()) + crlf());
                let mut i: usize = 0;
                while i < items.len()
                    invariant
                        i <= items.len(),
                        models == views(items@),
                        models.len() == items.len(),
                        forall|k: int| 0 <= k < items.len() ==> #[trigger] models[k] == items@[k]@,
                        *self == RESP::Array(*items),
                        out@ + spec_encode_from(models, i as nat) == header + spec_encode_from(
                            models,
                            0,
                        ),
                    decreases items.len() - i,
                {
                    let ghost before = out@;
                    proof {
                        vstd::std_specs::vec::axiom_vec_index_decreases(*items, i as int);
                        assert(decreases_to!(*self => self->Array_0));
                    }
                    items[i].encode_into(out);
                    assert(out@ + spec_encode_from(models, (i + 1) as nat) =~= before
                        + spec_encode_from(models, i as nat));
                    i += 1;
                }
                assert(out@ =~= out@ + spec_encode_from(models, i as nat));
                assert(out@ =~= old(out)@ + spec_encode(self@));
            },
            RESP::Nil => {
                out.push(BULK);
                let digits = format_i64(-1);
                push_all(out, digits.as_slice());
                out.push(CR);
                out.push(LF);
                assert(out@ =~= old(out)@ + spec_encode(self@));
            },
        }
    }

    /// The bytes that stand for this value on the wire.
    pub fn to_string(&self) -> (out: Vec<u8>)
        ensures
            out@ == spec_encode(self@),
    {
        let mut out: Vec<u8> = Vec::new();
        self.encode_into(&mut out);
        assert(out@ =~= spec_encode(self@));
        out
    }

    /// The text of a simple string or the bytes of a bulk string.
    pub fn get_string(&self) -> (out: Option<&Vec<u8>>)
        ensures
            match out {
                Some(s) => string_of(self@) == Some(s@),
                None => string_of(self@) is None,
            },
    {
        match self {
            RESP::SimpleString(s) => Some(s),
            RESP::BulkString(s) => Some(s),
            _ => None,
        }
    }

    /// The number of an integer, or the one that a simple or bulk string is
    /// the numeral of.
    pub fn get_integer(&self) -> (out: Option<i64>)
        ensures
            out == integer_of(self@),
    {
        match self {
            RESP::Integer(n) => Some(*n),
            RESP::SimpleString(s) => parse_i64(s.as_slice()),
            RESP::BulkString(s) => parse_i64(s.as_slice()),
            _ => None,
        }
    }
}

impl Clone for RESP {
    /// A copy that holds the same value.
    fn clone(&self) -> (out: RESP)
        ensures
            out@ == self@,
        decreases self,
    {
        match self {
            RESP::SimpleString(s) => RESP::SimpleString(vstd::slice::slice_to_vec(s.as_slice())),
            RESP::Error(s) => RESP::Error(vstd::slice::slice_to_vec(s.as_slice())),
            RESP::Integer(n) => RESP::Integer(*n),
            RESP::BulkString(b) => RESP::BulkString(vstd::slice::slice_to_vec(b.as_slice())),
            RESP::Array(items) => {
                let mut copies: Vec<RESP> = Vec::new();
                let mut i: usize = 0;
                while i < items.len()
                    invariant
                        i <= items.len(),
                        *self == RESP::Array(*items),
                        copies.len() == i,
                        forall|k: int| 0 <= k < i ==> #[trigger] copies@[k]@ == items@[k]@,
                    decreases items.len() - i,
                {
                    proof {
                        vstd::std_specs::vec::axiom_vec_index_decreases(*items, i as int);
                        assert(decreases_to!(*self => self->Array_0));
                    }
                    let copy = items[i].clone();
                    copies.push(copy);
                    i += 1;
                }
                proof {
                    lemma_views(items@);
                    lemma_views(copies@);
                    assert(views(copies@) =~= views(items@));
                }
                RESP::Array(copies)
            },
            RESP::Nil => RESP::Nil,
        }
    }
}

/// The bytes of a simple string or of a bulk string.
pub open spec fn string_of(v: Value) -> Option<Seq<u8>> {
    match v {
        Value::SimpleString(s) => Some(s),
        Value::BulkString(s) => Some(s),
        _ => None,
    }
}

/// The number of an integer, or the one that a simple or bulk string is the
/// numeral of.
pub open spec fn integer_of(v: Value) -> Option<i64> {
    match v {
        Value::Integer(n) => Some(n),
        Value::SimpleString(s) => parse_int(s),
        Value::BulkString(s) => parse_int(s),
        _ => None,
    }
}

/// Why a buffer was not decoded.
#[derive(Debug, Clone, Copy, PartialEq, Eq)]
pub enum DecodeError {
    /// There is no byte where a value should begin.
    Empty,
    /// The first byte is none of the five type prefixes.
    UnknownPrefix,
    /// No CRLF ends the line that the prefix begins.
    MissingTerminator,
    /// The line of an integer is not the numeral of a 64-bit signed integer.
    InvalidInteger,
    /// The count of a bulk string or of an array is not the numeral of a
    /// natural number below 2^64.
    InvalidLength,
    /// The buffer ends before the payload of a bulk string and its CRLF do.
    Truncated,
    /// The payload of a bulk string is followed by something other than CRLF.
    UnterminatedBulk,
    /// A value was decoded, and bytes are left after it.
    TrailingData,
}

/// Whether a CRLF begins at index `i` of `s`.
pub open spec fn crlf_at(s: Seq<u8>, i: int) -> bool {
    0 <= i && i + 1 < s.len() && s[i] == CR && s[i + 1] == LF
}

/// Whether `s` holds no CRLF.
pub open spec fn crlf_free(s: Seq<u8>) -> bool {
    forall|i: int| !crlf_at(s, i)
}

/// Whether the first CRLF of `s` begins at index `end`.
pub open spec fn line_ends_at(s: Seq<u8>, end: int) -> bool {
    crlf_at(s, end) && forall|j: int| 0 <= j < end ==> !crlf_at(s, j)
}

/// The index at which the first CRLF of `s` begins.
pub open spec fn first_crlf(s: Seq<u8>) -> Option<int> {
    if exists|end: int| line_ends_at(s, end) {
        Some(choose|end: int| line_ends_at(s, end))
    } else {
        None
    }
}

/// Whether `b` is one of the five type prefixes: `+ - : $ *`.
pub open spec fn is_prefix(b: u8) -> bool {
    b == SIMPLE || b == ERROR || b == INTEGER || b == BULK || b == ARRAY
}

/// What is left of `s` after its first `n` bytes, where `n` is at least one
/// and at most the length of `s`.
pub open spec fn rest(s: Seq<u8>, n: int) -> Seq<u8> {
    if 0 < n <= s.len() {
        s.skip(n)
    } else {
        Seq::empty()
    }
}

/// The value that begins `s`, with the number of bytes that it takes, or the
/// reason why there is none.
///
/// The first byte selects the kind of value. Its line runs up to the first
/// CRLF of `s`. A bulk string then takes as many bytes as its line counts,
/// and a CRLF. An array takes as many values as its line counts, one after
/// the other.
pub open spec fn spec_decode(s: Seq<u8>) -> Result<(Value, int), DecodeError>
    decreases s.len(), 0nat,
{
    if s.len() == 0 {
        Err(DecodeError::Empty)
    } else if !is_prefix(s[0]) {
        Err(DecodeError::UnknownPrefix)
    } else {
        match first_crlf(s) {
            None => Err(DecodeError::MissingTerminator),
            Some(end) => {
                let line = s.subrange(1, end);
                let body = end + 2;
                if s[0] == SIMPLE {
                    Ok((Value::SimpleString(line), body))
                } else if s[0] == ERROR {
                    Ok((Value::Error(line), body))
                } else if s[0] == INTEGER {
                    match parse_int(line) {
                        Some(n) => Ok((Value::Integer(n), body)),
                        None => Err(DecodeError::InvalidInteger),
                    }
                } else if s[0] == BULK {
                    match parse_nat(line) {
                        None => Err(DecodeError::InvalidLength),
                        Some(n) => {
                            if s.len() < body + n + 2 {
                                Err(DecodeError::Truncated)
                            } else if s[body + n] != CR || s[body + n + 1] != LF {
                                Err(DecodeError::UnterminatedBulk)
                            } else {
                                Ok(
                                    (
                                        Value::BulkString(s.subrange(body, body + n)),
                                        body + n + 2,
                                    ),
                                )
                            }
                        },
                    }
                } else {
                    match parse_nat(line) {
                        None => Err(DecodeError::InvalidLength),
                        Some(n) => match spec_decode_items(rest(s, body), n as nat) {
                            Err(e) => Err(e),
                            Ok((items, used)) => Ok((Value::Array(items), body + used)),
                        },
                    }
                }
            },
        }
    }
}

/// The `count` values that begin `s`, one after the other, with the number
/// of bytes that they take together, or the reason why the first of them
/// that cannot be decoded cannot.
pub open spec fn spec_decode_items(s: Seq<u8>, count: nat) -> Result<
    (Seq<Value>, int),
    DecodeError,
>
    decreases s.len(), count + 1,
{
    if count == 0 {
        Ok((Seq::empty(), 0))
    } else {
        match spec_decode(s) {
            Err(e) => Err(e),
            Ok((first, used)) => match spec_decode_items(rest(s, used), (count - 1) as nat) {
                Err(e) => Err(e),
                Ok((others, more)) => Ok((seq![first] + others, used + more)),
            },
        }
    }
}

/// What `from_str` makes of `s`: the value that `s` holds from its first
/// byte to its last.
pub open spec fn spec_decode_complete(s: Seq<u8>) -> Result<Value, DecodeError> {
    match spec_decode(s) {
        Err(e) => Err(e),
        Ok((v, used)) => if used == s.len() {
            Ok(v)
        } else {
            Err(DecodeError::TrailingData)
        },
    }
}

/// Where the first CRLF of `s` begins at `end`, `end` is what `first_crlf`
/// returns.
pub proof fn lemma_first_crlf_is(s: Seq<u8>, end: int)
    requires
        line_ends_at(s, end),
    ensures
        first_crlf(s) == Some(end),
{
    let chosen = choose|e: int| line_ends_at(s, e);
    assert(line_ends_at(s, chosen));
    if chosen < end {
        assert(crlf_at(s, chosen));
    } else if end < chosen {
        assert(crlf_at(s, end));
    }
}

/// Where `s` holds a CRLF, it has a first one.
proof fn lemma_has_first_crlf(s: Seq<u8>, i: int)
    requires
        crlf_at(s, i),
    ensures
        exists|end: int| line_ends_at(s, end),
    decreases i,
{
    if exists|j: int| 0 <= j < i && crlf_at(s, j) {
        let j = choose|j: int| 0 <= j < i && crlf_at(s, j);
        lemma_has_first_crlf(s, j);
    } else {
        assert(line_ends_at(s, i));
    }
}

/// What `first_crlf` returns is where the first CRLF of `s` begins, and it
/// returns `None` only where `s` holds no CRLF.
pub proof fn lemma_first_crlf(s: Seq<u8>)
    ensures
        match first_crlf(s) {
            Some(end) => line_ends_at(s, end),
            None => crlf_free(s),
        },
{
    if first_crlf(s) is None {
        assert forall|i: int| !crlf_at(s, i) by {
            if crlf_at(s, i) {
                lemma_has_first_crlf(s, i);
            }
        }
    }
}

/// The view of a sequence with one more value at its end.
proof fn lemma_views_push(items: Seq<RESP>, r: RESP)
    ensures
        views(items.push(r)) == views(items).push(r@),
{
    lemma_views(items);
    lemma_views(items.push(r));
    assert(views(items.push(r)) =~= views(items).push(r@));
}

/// The index in `text` of the first CRLF at or after `pos`.
fn find_crlf(text: &[u8], pos: usize) -> (out: Option<usize>)
    requires
        pos <= text.len(),
    ensures
        match out {
            Some(at) => pos <= at && at + 2 <= text.len() && first_crlf(text@.skip(pos as int))
                == Some(at - pos),
            None => first_crlf(text@.skip(pos as int)) is None,
        },
{
    let ghost s = text@.skip(pos as int);
    let n = text.len();
    let mut i: usize = pos;
    while i < n && i + 1 < n
        invariant
            pos <= i <= n,
            n == text.len(),
            s == text@.skip(pos as int),
            forall|j: int| 0 <= j < i - pos ==> !crlf_at(s, j),
        decreases n - i,
    {
        if text[i] == CR && text[i + 1] == LF {
            proof {
                assert(crlf_at(s, i - pos));
                lemma_first_crlf_is(s, i - pos);
            }
            return Some(i);
        }
        assert(!crlf_at(s, i - pos));
        i += 1;
    }
    proof {
        lemma_first_crlf(s);
        if first_crlf(s) is Some {
            assert(crlf_at(s, first_crlf(s)->0));
        }
    }
    None
}

/// Decodes the value that begins at index `pos` of `text`.
fn decode_at(text: &[u8], pos: usize) -> (out: Result<(RESP, usize), DecodeError>)
    requires
        pos <= text.len(),
    ensures
        match out {
            Ok((r, used)) => spec_decode(text@.skip(pos as int)) == Ok::<_, DecodeError>(
                (r@, used as int),
            ) && 0 < used && pos + used <= text.len(),
            Err(e) => spec_decode(text@.skip(pos as int)) == Err::<(Value, int), _>(e),
        },
    decreases text.len() - pos,
{
    let ghost s = text@.skip(pos as int);
    let len = text.len();
    if pos == len {
        return Err(DecodeError::Empty);
    }
    let prefix = text[pos];
    if !(prefix == SIMPLE || prefix == ERROR || prefix == INTEGER || prefix == BULK || prefix
        == ARRAY) {
        return Err(DecodeError::UnknownPrefix);
    }
    let end = match find_crlf(text, pos) {
        Some(at) => at,
        None => {
            return Err(DecodeError::MissingTerminator);
        },
    };
    proof {
        lemma_first_crlf(s);
    }
    assert(end > pos);
    let line = vstd::slice::slice_subrange(text, pos + 1, end);
    assert(line@ =~= s.subrange(1, end - pos));
    let body: usize = end + 2;
    if prefix == SIMPLE {
        Ok((RESP::SimpleString(vstd::slice::slice_to_vec(line)), body - pos))
    } else if prefix == ERROR {
        Ok((RESP::Error(vstd::slice::slice_to_vec(line)), body - pos))
    } else if prefix == INTEGER {
        match parse_i64(line) {
            Some(n) => Ok((RESP::Integer(n), body - pos)),
            None => Err(DecodeError::InvalidInteger),
        }
    } else if prefix == BULK {
        let n: u64 = match parse_u64(line) {
            Some(n) => n,
            None => {
                return Err(DecodeError::InvalidLength);
            },
        };
        let left: usize = len - body;
        if n > left as u64 || left - (n as usize) < 2 {
            return Err(DecodeError::Truncated);
        }
        let stop: usize = body + (n as usize);
        if text[stop] != CR || text[stop + 1] != LF {
            return Err(DecodeError::UnterminatedBulk);
        }
        let payload = vstd::slice::slice_subrange(text, body, stop);
        assert(payload@ =~= s.subrange(body - pos, body - pos + n));
        Ok((RESP::BulkString(vstd::slice::slice_to_vec(payload)), stop + 2 - pos))
    } else {
        let n: u64 = match parse_u64(line) {
            Some(n) => n,
            None => {
                return Err(DecodeError::InvalidLength);
            },
        };
        let ghost whole = spec_decode_items(rest(s, body - pos), n as nat);
        let mut items: Vec<RESP> = Vec::new();
        let mut ptr: usize = body;
        let mut i: u64 = 0;
        assert(rest(s, body - pos) =~= text@.skip(ptr as int));
        assert(views(items@) + Seq::<Value>::empty() =~= Seq::<Value>::empty());
        proof {
            lemma_views(items@);
        }
        while i < n
            invariant
                i <= n,
                pos < body <= ptr <= text.len(),
                len == text.len(),
                spec_decode(text@.skip(pos as int)) == match whole {
                    Err(e) => Err::<(Value, int), _>(e),
                    Ok((all, used)) => Ok((Value::Array(all), body - pos + used)),
                },
                match spec_decode_items(text@.skip(ptr as int), (n - i) as nat) {
                    Err(e) => whole == Err::<(Seq<Value>, int), _>(e),
                    Ok((others, more)) => whole == Ok::<_, DecodeError>(
                        (views(items@) + others, (ptr - body) + more),
                    ),
                },
            decreases n - i,
        {
            let ghost here = text@.skip(ptr as int);
            let ghost before = items@;
            match decode_at(text, ptr) {
                Err(e) => {
                    return Err(e);
                },
                Ok((r, used)) => {
                    proof {
                        lemma_views_push(before, r);
                        assert(rest(here, used as int) =~= text@.skip(ptr + used));
                        match spec_decode_items(text@.skip(ptr + used), (n - i - 1) as nat) {
                            Err(e) => {},
                            Ok((others, more)) => {
                                assert((views(before) + (seq![r@] + others)) =~= views(
                                    before.push(r),
                                ) + others);
                            },
                        }
                    }
                    items.push(r);
                    ptr = ptr + used;
                    i = i + 1;
                },
            }
        }
        assert(views(items@) + Seq::<Value>::empty() =~= views(items@));
        Ok((RESP::Array(items), ptr - pos))
    }
}

/// Decodes the value that begins `text`, and says how many bytes it takes.
///
/// Bytes after the value are left alone.
pub fn decode_internal(text: &[u8]) -> (out: Result<(RESP, usize), DecodeError>)
    ensures
        match out {
            Ok((r, used)) => spec_decode(text@) == Ok::<_, DecodeError>((r@, used as int)),
            Err(e) => spec_decode(text@) == Err::<(Value, int), _>(e),
        },
{
    assert(text@.skip(0) =~= text@);
    decode_at(text, 0)
}

impl RESP {
    /// Decodes the one value that `text` holds from its first byte to its
    /// last.
    pub fn from_str(text: &[u8]) -> (out: Result<RESP, DecodeError>)
        ensures
            match out {
                Ok(r) => spec_decode_complete(text@) == Ok::<_, DecodeError>(r@),
                Err(e) => spec_decode_complete(text@) == Err::<Value, _>(e),
            },
    {
        match decode_internal(text) {
            Err(e) => Err(e),
            Ok((r, used)) => {
                if used == text.len() {
                    Ok(r)
                } else {
                    Err(DecodeError::TrailingData)
                }
            },
        }
    }
}

} // verus!
