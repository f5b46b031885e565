//! Bytes as text: words of the protocol, comparison without regard to case,
//! and quoting for messages.

use vstd::prelude::*;
use vstd::string::StringSliceAdditionalSpecFns;
use crate::decimal::ZERO;
use crate::resp::{CR, LF};

verus! {

/// The bytes of a word of ASCII characters, one byte for each character.
pub open spec fn bytes_of(word: Seq<char>) -> Seq<u8> {
    Seq::new(word.len(), |i: int| word[i] as u8)
}

/// The bytes of an ASCII word.
pub(crate) fn ascii(word: &str) -> (out: &[u8])
    requires
        vstd::string::is_ascii(word),
    ensures
        out@ == bytes_of(word@),
{
    broadcast use vstd::string::is_ascii_spec_bytes;

    let out = word.as_bytes();
    assert(out@ =~= bytes_of(word@));
    out
}

/// The letter `A`.
pub const UPPER_A: u8 = 65;

/// The letter `Z`.
pub const UPPER_Z: u8 = 90;

/// How far a lower-case letter lies behind its upper-case form.
pub const CASE_GAP: u8 = 32;

/// The lower-case form of an ASCII letter; any other byte as it is.
pub open spec fn lower(b: u8) -> u8 {
    if UPPER_A <= b <= UPPER_Z {
        (b + CASE_GAP) as u8
    } else {
        b
    }
}

/// Whether `a` and `b` are the same but for the case of ASCII letters.
pub open spec fn same_word(a: Seq<u8>, b: Seq<u8>) -> bool {
    &&& a.len() == b.len()
    &&& forall|i: int| 0 <= i < a.len() ==> lower(#[trigger] a[i]) == lower(b[i])
}

/// The lower-case form of an ASCII letter; any other byte as it is.
pub fn to_lower(b: u8) -> (out: u8)
    ensures
        out == lower(b),
{
    if UPPER_A <= b && b <= UPPER_Z {
        b + CASE_GAP
    } else {
        b
    }
}

/// Compares two words without regard to the case of ASCII letters.
pub fn eq_ignore_case(a: &[u8], b: &[u8]) -> (out: bool)
    ensures
        out == same_word(a@, b@),
{
    if a.len() != b.len() {
        return false;
    }
    let mut i: usize = 0;
    while i < a.len()
        invariant
            i <= a.len(),
            a.len() == b.len(),
            forall|j: int| 0 <= j < i ==> lower(#[trigger] a@[j]) == lower(b@[j]),
        decreases a.len() - i,
    {
        if to_lower(a[i]) != to_lower(b[i]) {
            return false;
        }
        i += 1;
    }
    true
}

/// Whether `a` and `b` hold the same bytes.
pub fn same_bytes(a: &[u8], b: &[u8]) -> (out: bool)
    ensures
        out == (a@ == b@),
{
    if a.len() != b.len() {
        return false;
    }
    let mut i: usize = 0;
    while i < a.len()
        invariant
            i <= a.len(),
            a.len() == b.len(),
            forall|j: int| 0 <= j < i ==> a@[j] == b@[j],
        decreases a.len() - i,
    {
        if a[i] != b[i] {
            return false;
        }
        i += 1;
    }
    assert(a@ =~= b@);
    true
}

/// The double quote.
pub const QUOTE: u8 = 34;

/// The backslash.
pub const BACKSLASH: u8 = 92;

/// The tab.
pub const TAB: u8 = 9;

/// The first printable ASCII character, the space.
pub const FIRST_PRINTABLE: u8 = 32;

/// The last printable ASCII character, the tilde.
pub const LAST_PRINTABLE: u8 = 126;

/// The letter `a`.
pub const LOWER_A: u8 = 97;

/// The letter `n`.
pub const LOWER_N: u8 = 110;

/// The letter `r`.
pub const LOWER_R: u8 = 114;

/// The letter `t`.
pub const LOWER_T: u8 = 116;

/// The letter `x`.
pub const LOWER_X: u8 = 120;

/// The hexadecimal digit of a number below sixteen, in lower case.
pub open spec fn hex_digit(n: u8) -> u8 {
    if n < 10 {
        (ZERO + n) as u8
    } else {
        (LOWER_A + n - 10) as u8
    }
}

/// How one byte is written inside quotes: a printable ASCII character as
/// itself, but for the quote and the backslash, which get a backslash before
/// them; line feed, carriage return and tab as `\n`, `\r` and `\t`; any
/// other byte as `\x` and its two hexadecimal digits.
pub open spec fn escaped(b: u8) -> Seq<u8> {
    if b == QUOTE {
        seq![BACKSLASH, QUOTE]
    } else if b == BACKSLASH {
        seq![BACKSLASH, BACKSLASH]
    } else if b == LF {
        seq![BACKSLASH, LOWER_N]
    } else if b == CR {
        seq![BACKSLASH, LOWER_R]
    } else if b == TAB {
        seq![BACKSLASH, LOWER_T]
    } else if FIRST_PRINTABLE <= b <= LAST_PRINTABLE {
        seq![b]
    } else {
        seq![BACKSLASH, LOWER_X, hex_digit(b / 16), hex_digit(b % 16)]
    }
}

/// The first `n` bytes of `s`, each one escaped.
pub open spec fn escaped_upto(s: Seq<u8>, n: nat) -> Seq<u8>
    decreases n,
{
    if n == 0 || n > s.len() {
        Seq::empty()
    } else {
        escaped_upto(s, (n - 1) as nat) + escaped(s[n - 1])
    }
}

/// `s` between quotes, each of its bytes escaped.
pub open spec fn quoted(s: Seq<u8>) -> Seq<u8> {
    seq![QUOTE] + escaped_upto(s, s.len()) + seq![QUOTE]
}

/// Whether every byte of `s` is a printable ASCII character.
pub open spec fn printable(s: Seq<u8>) -> bool {
    forall|i: int| 0 <= i < s.len() ==> FIRST_PRINTABLE <= #[trigger] s[i] <= LAST_PRINTABLE
}

/// Escaped bytes are printable.
proof fn lemma_escaped_printable(s: Seq<u8>, n: nat)
    requires
        n <= s.len(),
    ensures
        printable(escaped_upto(s, n)),
    decreases n,
{
    if n > 0 {
        lemma_escaped_printable(s, (n - 1) as nat);
        let head = escaped_upto(s, (n - 1) as nat);
        let last = escaped(s[n - 1]);
        assert(printable(last));
        assert forall|i: int| 0 <= i < (head + last).len() implies FIRST_PRINTABLE
            <= #[trigger] (head + last)[i] <= LAST_PRINTABLE by {
            if i < head.len() {
                assert((head + last)[i] == head[i]);
            } else {
                assert((head + last)[i] == last[i - head.len()]);
            }
        }
    }
}

/// Whatever is quoted, what comes out is printable: in particular it holds
/// no carriage return and no line feed.
pub proof fn lemma_quoted_printable(s: Seq<u8>)
    ensures
        printable(quoted(s)),
{
    lemma_escaped_printable(s, s.len());
    let inner = escaped_upto(s, s.len());
    let q = quoted(s);
    assert forall|i: int| 0 <= i < q.len() implies FIRST_PRINTABLE <= #[trigger] q[i]
        <= LAST_PRINTABLE by {
        if 1 <= i && i <= inner.len() {
            assert(q[i] == inner[i - 1]);
        }
    }
}

/// Appends `src` to `out`.
pub fn push_all(out: &mut Vec<u8>, src: &[u8])
    ensures
        final(out)@ == old(out)@ + src@,
{
    out.extend_from_slice(src);
    assert(out@ =~= old(out)@ + src@);
}

/// The hexadecimal digit of a number below sixteen, in lower case.
fn hex(n: u8) -> (out: u8)
    requires
        n < 16,
    ensures
        out == hex_digit(n),
{
    if n < 10 {
        ZERO + n
    } else {
        LOWER_A + n - 10
    }
}

/// Writes `s` between quotes, each of its bytes escaped.
pub fn quote(s: &[u8]) -> (out: Vec<u8>)
    ensures
        out@ == quoted(s@),
{
    let mut out: Vec<u8> = Vec::new();
    out.push(QUOTE);
    let mut i: usize = 0;
    while i < s.len()
        invariant
            i <= s.len(),
            out@ == seq![QUOTE] + escaped_upto(s@, i as nat),
        decreases s.len() - i,
    {
        let b = s[i];
        let ghost before = out@;
        if b == QUOTE || b == BACKSLASH {
            out.push(BACKSLASH);
            out.push(b);
        } else if b == LF {
            out.push(BACKSLASH);
            out.push(LOWER_N);
        } else if b == CR {
            out.push(BACKSLASH);
            out.push(LOWER_R);
        } else if b == TAB {
            out.push(BACKSLASH);
            out.push(LOWER_T);
        } else if FIRST_PRINTABLE <= b && b <= LAST_PRINTABLE {
            out.push(b);
        } else {
            out.push(BACKSLASH);
            out.push(LOWER_X);
            out.push(hex(b / 16));
            out.push(hex(b % 16));
        }
        assert(out@ =~= before + escaped(b));
        assert(out@ =~= seq![QUOTE] + escaped_upto(s@, (i + 1) as nat));
        i += 1;
    }
    out.push(QUOTE);
    out
}

} // verus!
