//! The request grammar, as a function from the bytes received so far to what
//! they amount to: not enough yet, a malformed request, or a request and the
//! number of bytes it took.

use crate::error::Error;
use crate::proto::decimal::{announced, decimal_value, is_decimal, is_digit};
use crate::proto::ProtoOpView;
use vstd::prelude::*;
use vstd::utf8::*;

verus! {

/// ASCII `:`, which opens and closes a length field.
pub const COLON: u8 = 58;

/// ASCII line feed, which ends a request.
pub const NEWLINE: u8 = 10;

/// The number of bytes in which an operation name is looked for.
pub const MIN_BUF_SIZE: usize = 4;

/// The three operations of the protocol.
#[derive(Clone, Copy, Debug, PartialEq, Eq, Structural)]
pub enum Op {
    Get,
    /// `SET`.
    Put,
    Echo,
}

/// The bytes of an operation name that the reader steps over: `GET`, `SET`
/// or `ECHO`. For `GET` and `SET` the colon that was matched with the name is
/// left to open the length field.
pub open spec fn token(op: Op) -> Seq<u8> {
    match op {
        Op::Get => seq![71u8, 69u8, 84u8],
        Op::Put => seq![83u8, 69u8, 84u8],
        Op::Echo => seq![69u8, 67u8, 72u8, 79u8],
    }
}

/// The operation that the first four bytes of `s` name: `GET:`, `SET:` or
/// `ECHO`.
pub open spec fn opcode(s: Seq<u8>) -> Option<Op>
    recommends
        s.len() >= 4,
{
    if s[0] == 71 && s[1] == 69 && s[2] == 84 && s[3] == 58 {
        Some(Op::Get)
    } else if s[0] == 83 && s[1] == 69 && s[2] == 84 && s[3] == 58 {
        Some(Op::Put)
    } else if s[0] == 69 && s[1] == 67 && s[2] == 72 && s[3] == 79 {
        Some(Op::Echo)
    } else {
        None
    }
}

/// The index of the first `b` in `s` at or after `from`, or the length of `s`
/// where there is none.
pub open spec fn find(s: Seq<u8>, b: u8, from: int) -> int
    decreases s.len() - from,
{
    if from >= s.len() {
        s.len() as int
    } else if s[from] == b {
        from
    } else {
        find(s, b, from + 1)
    }
}

/// What stands where a length field is due.
pub enum Field {
    /// The field is not closed yet.
    Incomplete,
    /// The field cannot be read.
    Malformed(Error),
    /// The field announces `len` bytes, which begin at index `next`.
    Length { len: nat, next: int },
}

/// What a closed length field with the bytes `digits` between its colons
/// reads as, where the bytes begin at index `from`.
pub open spec fn field_of(digits: Seq<u8>, from: int) -> Field {
    match announced(digits) {
        Err(e) => Field::Malformed(e),
        Ok(len) => Field::Length { len: len as nat, next: from + digits.len() + 1 },
    }
}

/// Reads the length field of `s` that is due at index `at`: a colon, the
/// bytes up to the next colon, and that colon. The field is complete when
/// its second colon is there; only then are the bytes between the two read
/// as a number.
pub open spec fn length_field(s: Seq<u8>, at: int) -> Field {
    if at >= s.len() {
        Field::Incomplete
    } else if s[at] != COLON {
        Field::Malformed(Error::ExpectedColon)
    } else {
        let end = find(s, COLON, at + 1);
        let digits = s.subrange(at + 1, end);
        if end >= s.len() {
            Field::Incomplete
        } else {
            match announced(digits) {
                Err(e) => Field::Malformed(e),
                Ok(len) => Field::Length { len: len as nat, next: end + 1 },
            }
        }
    }
}

/// What the bytes received for one request amount to.
pub enum Parse {
    /// More bytes are needed.
    Incomplete,
    /// The bytes are no request, whatever follows them.
    Malformed(Error),
    /// The first `consumed` bytes are the request `op`, up to the end of its
    /// last payload.
    Complete { op: ProtoOpView, consumed: nat },
}

/// The value part of a `SET` whose key `key` ends where index `at` begins.
/// The key is checked for UTF-8 only once the value is complete.
pub open spec fn parse_value(s: Seq<u8>, key: Seq<u8>, at: int) -> Parse {
    match length_field(s, at) {
        Field::Incomplete => Parse::Incomplete,
        Field::Malformed(e) => Parse::Malformed(e),
        Field::Length { len, next } => {
            if s.len() < next + len {
                Parse::Incomplete
            } else if !valid_utf8(key) {
                Parse::Malformed(Error::InvalidKey)
            } else {
                Parse::Complete {
                    op: ProtoOpView::Put {
                        key: decode_utf8(key),
                        value: s.subrange(next, next + len),
                    },
                    consumed: (next + len) as nat,
                }
            }
        },
    }
}

/// The meaning of `s`, the bytes received from the start of a request on.
///
/// Once the result is `Malformed` or `Complete` it stays so however `s` is
/// extended (`lemma_parse_stable`); bytes beyond `consumed` play no part.
pub open spec fn parse(s: Seq<u8>) -> Parse {
    if s.len() < 4 {
        Parse::Incomplete
    } else {
        match opcode(s) {
            None => Parse::Malformed(Error::UnknownOp),
            Some(op) => match length_field(s, token(op).len() as int) {
                Field::Incomplete => Parse::Incomplete,
                Field::Malformed(e) => Parse::Malformed(e),
                Field::Length { len, next } => {
                    if s.len() < next + len {
                        Parse::Incomplete
                    } else {
                        let first = s.subrange(next, next + len);
                        match op {
                            Op::Echo => Parse::Complete {
                                op: ProtoOpView::Echo { msg: first },
                                consumed: (next + len) as nat,
                            },
                            Op::Get => if valid_utf8(first) {
                                Parse::Complete {
                                    op: ProtoOpView::Get { key: decode_utf8(first) },
                                    consumed: (next + len) as nat,
                                }
                            } else {
                                Parse::Malformed(Error::InvalidKey)
                            },
                            Op::Put => parse_value(s, first, next + len),
                        }
                    }
                },
            },
        }
    }
}

/// `find` returns the index of a `b` that no `b` precedes.
pub proof fn lemma_find_at(s: Seq<u8>, b: u8, from: int, j: int)
    requires
        0 <= from <= j < s.len(),
        s[j] == b,
        forall|i: int| from <= i < j ==> s[i] != b,
    ensures
        find(s, b, from) == j,
    decreases j - from,
{
    if from < j {
        lemma_find_at(s, b, from + 1, j);
    }
}

/// `find` returns the length where there is no `b`.
pub proof fn lemma_find_none(s: Seq<u8>, b: u8, from: int)
    requires
        0 <= from,
        forall|i: int| from <= i < s.len() ==> s[i] != b,
    ensures
        find(s, b, from) == s.len(),
    decreases s.len() - from,
{
    if from < s.len() {
        lemma_find_none(s, b, from + 1);
    }
}

/// What `find` returns is the index of the first `b`, or the length.
pub proof fn lemma_find_bounds(s: Seq<u8>, b: u8, from: int)
    requires
        0 <= from <= s.len(),
    ensures
        from <= find(s, b, from) <= s.len(),
        find(s, b, from) < s.len() ==> s[find(s, b, from)] == b,
        forall|i: int| from <= i < find(s, b, from) ==> s[i] != b,
    decreases s.len() - from,
{
    if from < s.len() && s[from] != b {
        lemma_find_bounds(s, b, from + 1);
    }
}

/// Whether no byte of `s` is a colon.
pub open spec fn no_colon(s: Seq<u8>) -> bool {
    forall|i: int| 0 <= i < s.len() ==> s[i] != COLON
}

/// A length field that stands closed in `s` reads as its digits say.
pub proof fn lemma_field_closed(s: Seq<u8>, at: int, digits: Seq<u8>)
    requires
        0 <= at,
        at + digits.len() + 2 <= s.len(),
        s[at] == COLON,
        s.subrange(at + 1, at + 1 + digits.len()) == digits,
        no_colon(digits),
        s[at + 1 + digits.len()] == COLON,
    ensures
        length_field(s, at) == field_of(digits, at + 1),
{
    let end = at + 1 + digits.len();
    assert forall|i: int| at + 1 <= i < end implies s[i] != COLON by {
        assert(s[i] == digits[i - (at + 1)]);
    }
    lemma_find_at(s, COLON, at + 1, end);
}

/// A length field that is opened in `s` and not closed is incomplete.
pub proof fn lemma_field_open(s: Seq<u8>, at: int)
    requires
        0 <= at,
        at < s.len() ==> s[at] == COLON,
        forall|i: int| at < i < s.len() ==> s[i] != COLON,
    ensures
        length_field(s, at) == Field::Incomplete,
{
    if at < s.len() {
        lemma_find_none(s, COLON, at + 1);
    }
}

/// A closed length field, written after the bytes `pre`, reads as its
/// digits say, whatever follows it.
pub proof fn lemma_field_after(pre: Seq<u8>, digits: Seq<u8>, tail: Seq<u8>)
    requires
        no_colon(digits),
    ensures
        length_field(pre + seq![COLON] + digits + seq![COLON] + tail, pre.len() as int) == field_of(
            digits,
            (pre.len() + 1) as int,
        ),
{
    let s = pre + seq![COLON] + digits + seq![COLON] + tail;
    let at = pre.len() as int;
    assert(s[at] == COLON);
    assert(s[at + 1 + digits.len()] == COLON);
    assert(s.subrange(at + 1, at + 1 + digits.len()) =~= digits);
    lemma_field_closed(s, at, digits);
}

/// A length field that is opened after the bytes `pre` and not closed is
/// incomplete.
pub proof fn lemma_field_unclosed(pre: Seq<u8>, digits: Seq<u8>)
    requires
        no_colon(digits),
    ensures
        length_field(pre + seq![COLON] + digits, pre.len() as int) == Field::Incomplete,
{
    let s = pre + seq![COLON] + digits;
    let at = pre.len() as int;
    assert(s[at] == COLON);
    assert forall|i: int| at < i < s.len() implies s[i] != COLON by {
        assert(s[i] == digits[i - at - 1]);
    }
    lemma_field_open(s, at);
}

/// Bytes that begin with an operation name and its colon name that
/// operation.
pub proof fn lemma_opcode(op: Op, tail: Seq<u8>)
    ensures
        (token(op) + seq![COLON] + tail).len() >= 4,
        opcode(token(op) + seq![COLON] + tail) == Some(op),
{
    let s = token(op) + seq![COLON] + tail;
    assert(s[0] == token(op)[0]);
    assert(s[1] == token(op)[1]);
    assert(s[2] == token(op)[2]);
    if op == Op::Echo {
        assert(s[3] == token(op)[3]);
    } else {
        assert(s[3] == COLON);
    }
}

/// Bytes that begin with `ECHO` name that operation, whatever follows.
pub proof fn lemma_opcode_echo(tail: Seq<u8>)
    ensures
        opcode(token(Op::Echo) + tail) == Some(Op::Echo),
{
    let s = token(Op::Echo) + tail;
    assert(s[0] == 69 && s[1] == 67 && s[2] == 72 && s[3] == 79);
}

/// The bytes of a request up to the end of its first length field, whose
/// digits are `digits`.
pub open spec fn lead(op: Op, digits: Seq<u8>) -> Seq<u8> {
    token(op) + seq![COLON] + digits + seq![COLON]
}

/// Bytes that begin with an operation name and a closed length field have
/// both read from them.
pub proof fn lemma_lead(op: Op, digits: Seq<u8>, tail: Seq<u8>)
    requires
        no_colon(digits),
    ensures
        (lead(op, digits) + tail).len() >= 4,
        opcode(lead(op, digits) + tail) == Some(op),
        length_field(lead(op, digits) + tail, token(op).len() as int) == field_of(
            digits,
            (token(op).len() + 1) as int,
        ),
{
    let s = lead(op, digits) + tail;
    assert(s =~= token(op) + seq![COLON] + (digits + seq![COLON] + tail));
    lemma_opcode(op, digits + seq![COLON] + tail);
    lemma_field_after(token(op), digits, tail);
}

/// A decimal number holds no colon.
pub proof fn lemma_decimal_no_colon(digits: Seq<u8>)
    requires
        is_decimal(digits),
    ensures
        no_colon(digits),
{
    assert forall|i: int| 0 <= i < digits.len() implies digits[i] != COLON by {
        assert(is_digit(digits[i]));
    }
}

/// The bytes of an `ECHO` request, up to the end of its message, with
/// whatever follows them.
pub proof fn lemma_parse_echo(digits: Seq<u8>, msg: Seq<u8>, rest: Seq<u8>)
    requires
        is_decimal(digits),
        decimal_value(digits) == msg.len(),
        msg.len() <= usize::MAX,
    ensures
        parse(lead(Op::Echo, digits) + msg + rest) == (Parse::Complete {
            op: ProtoOpView::Echo { msg },
            consumed: lead(Op::Echo, digits).len() + msg.len(),
        }),
{
    let s = lead(Op::Echo, digits) + msg + rest;
    let next = lead(Op::Echo, digits).len() as int;
    lemma_decimal_no_colon(digits);
    assert(s =~= lead(Op::Echo, digits) + (msg + rest));
    lemma_lead(Op::Echo, digits, msg + rest);
    assert(s.subrange(next, next + msg.len()) =~= msg);
}

/// The bytes of a `GET` request, up to the end of its key, with whatever
/// follows them.
pub proof fn lemma_parse_get(digits: Seq<u8>, key: Seq<u8>, rest: Seq<u8>)
    requires
        is_decimal(digits),
        decimal_value(digits) == key.len(),
        key.len() <= usize::MAX,
    ensures
        parse(lead(Op::Get, digits) + key + rest) == (if valid_utf8(key) {
            Parse::Complete {
                op: ProtoOpView::Get { key: decode_utf8(key) },
                consumed: lead(Op::Get, digits).len() + key.len(),
            }
        } else {
            Parse::Malformed(Error::InvalidKey)
        }),
{
    let s = lead(Op::Get, digits) + key + rest;
    let next = lead(Op::Get, digits).len() as int;
    lemma_decimal_no_colon(digits);
    assert(s =~= lead(Op::Get, digits) + (key + rest));
    lemma_lead(Op::Get, digits, key + rest);
    assert(s.subrange(next, next + key.len()) =~= key);
}

/// Bytes that begin with a `SET` request up to the end of its key are read
/// as the value part says.
pub proof fn lemma_parse_put_key(digits: Seq<u8>, key: Seq<u8>, tail: Seq<u8>)
    requires
        is_decimal(digits),
        decimal_value(digits) == key.len(),
        key.len() <= usize::MAX,
    ensures
        parse(lead(Op::Put, digits) + key + tail) == parse_value(
            lead(Op::Put, digits) + key + tail,
            key,
            (lead(Op::Put, digits) + key).len() as int,
        ),
{
    let s = lead(Op::Put, digits) + key + tail;
    let next = lead(Op::Put, digits).len() as int;
    lemma_decimal_no_colon(digits);
    assert(s =~= lead(Op::Put, digits) + (key + tail));
    lemma_lead(Op::Put, digits, key + tail);
    assert(s.subrange(next, next + key.len()) =~= key);
}

/// The bytes of a `SET` request, up to the end of its value, with whatever
/// follows them.
pub proof fn lemma_parse_put(
    digits: Seq<u8>,
    key: Seq<u8>,
    value_digits: Seq<u8>,
    value: Seq<u8>,
    rest: Seq<u8>,
)
    requires
        is_decimal(digits),
        decimal_value(digits) == key.len(),
        key.len() <= usize::MAX,
        is_decimal(value_digits),
        decimal_value(value_digits) == value.len(),
        value.len() <= usize::MAX,
    ensures
        parse(
            lead(Op::Put, digits) + key + seq![COLON] + value_digits + seq![COLON] + value + rest,
        ) == (if valid_utf8(key) {
            Parse::Complete {
                op: ProtoOpView::Put { key: decode_utf8(key), value },
                consumed: (lead(Op::Put, digits) + key + seq![COLON] + value_digits
                    + seq![COLON]).len() + value.len(),
            }
        } else {
            Parse::Malformed(Error::InvalidKey)
        }),
{
    let pre = lead(Op::Put, digits) + key;
    let s = pre + seq![COLON] + value_digits + seq![COLON] + value + rest;
    let tail = seq![COLON] + value_digits + seq![COLON] + value + rest;
    assert(s =~= pre + tail);
    lemma_parse_put_key(digits, key, tail);
    lemma_decimal_no_colon(value_digits);
    assert(s =~= pre + seq![COLON] + value_digits + seq![COLON] + (value + rest));
    lemma_field_after(pre, value_digits, value + rest);
    let next = (pre.len() + 1 + value_digits.len() + 1) as int;
    assert(s.subrange(next, next + value.len()) =~= value);
}

/// `ECHO` with something else than a colon behind it is malformed.
pub proof fn lemma_parse_echo_no_colon(rest: Seq<u8>)
    requires
        rest.len() > 0,
        rest[0] != COLON,
    ensures
        parse(token(Op::Echo) + rest) == Parse::Malformed(Error::ExpectedColon),
{
    let s = token(Op::Echo) + rest;
    lemma_opcode_echo(rest);
    assert(s[4] == rest[0]);
}

/// `ECHO` with nothing behind it is incomplete.
pub proof fn lemma_parse_echo_bare()
    ensures
        parse(token(Op::Echo)) == Parse::Incomplete,
{
    lemma_opcode_echo(Seq::empty());
    assert(token(Op::Echo) + Seq::<u8>::empty() =~= token(Op::Echo));
}

/// A request whose first length field is opened and not closed is
/// incomplete.
pub proof fn lemma_parse_length_open(op: Op, digits: Seq<u8>)
    requires
        no_colon(digits),
    ensures
        parse(token(op) + seq![COLON] + digits) == Parse::Incomplete,
{
    lemma_opcode(op, digits);
    lemma_field_unclosed(token(op), digits);
}

/// A request whose first length field does not announce a length is
/// malformed, whatever follows the field.
pub proof fn lemma_parse_length_bad(op: Op, digits: Seq<u8>, rest: Seq<u8>, e: Error)
    requires
        no_colon(digits),
        announced(digits) == Err::<usize, Error>(e),
    ensures
        parse(lead(op, digits) + rest) == Parse::Malformed(e),
{
    lemma_lead(op, digits, rest);
}

/// A request whose first payload is shorter than announced is incomplete.
pub proof fn lemma_parse_payload_short(op: Op, digits: Seq<u8>, payload: Seq<u8>)
    requires
        is_decimal(digits),
        payload.len() < decimal_value(digits) <= usize::MAX,
    ensures
        parse(lead(op, digits) + payload) == Parse::Incomplete,
{
    lemma_decimal_no_colon(digits);
    lemma_lead(op, digits, payload);
}

/// A `SET` with something else than a colon behind its key is malformed.
pub proof fn lemma_parse_put_no_colon(digits: Seq<u8>, key: Seq<u8>, rest: Seq<u8>)
    requires
        is_decimal(digits),
        decimal_value(digits) == key.len(),
        key.len() <= usize::MAX,
        rest.len() > 0,
        rest[0] != COLON,
    ensures
        parse(lead(Op::Put, digits) + key + rest) == Parse::Malformed(Error::ExpectedColon),
{
    let s = lead(Op::Put, digits) + key + rest;
    lemma_parse_put_key(digits, key, rest);
    assert(s[(lead(Op::Put, digits) + key).len() as int] == rest[0]);
}

/// A `SET` with nothing behind its key is incomplete.
pub proof fn lemma_parse_put_bare(digits: Seq<u8>, key: Seq<u8>)
    requires
        is_decimal(digits),
        decimal_value(digits) == key.len(),
        key.len() <= usize::MAX,
    ensures
        parse(lead(Op::Put, digits) + key) == Parse::Incomplete,
{
    let pre = lead(Op::Put, digits) + key;
    assert(pre + Seq::<u8>::empty() =~= pre);
    lemma_parse_put_key(digits, key, Seq::empty());
}

/// A `SET` whose second length field is opened and not closed is
/// incomplete.
pub proof fn lemma_parse_put_length_open(digits: Seq<u8>, key: Seq<u8>, value_digits: Seq<u8>)
    requires
        is_decimal(digits),
        decimal_value(digits) == key.len(),
        key.len() <= usize::MAX,
        no_colon(value_digits),
    ensures
        parse(lead(Op::Put, digits) + key + seq![COLON] + value_digits) == Parse::Incomplete,
{
    let pre = lead(Op::Put, digits) + key;
    let tail = seq![COLON] + value_digits;
    assert(pre + seq![COLON] + value_digits =~= pre + tail);
    lemma_parse_put_key(digits, key, tail);
    lemma_field_unclosed(pre, value_digits);
}

/// A `SET` whose second length field does not announce a length is
/// malformed, whatever follows the field.
pub proof fn lemma_parse_put_length_bad(
    digits: Seq<u8>,
    key: Seq<u8>,
    value_digits: Seq<u8>,
    rest: Seq<u8>,
    e: Error,
)
    requires
        is_decimal(digits),
        decimal_value(digits) == key.len(),
        key.len() <= usize::MAX,
        no_colon(value_digits),
        announced(value_digits) == Err::<usize, Error>(e),
    ensures
        parse(lead(Op::Put, digits) + key + seq![COLON] + value_digits + seq![COLON] + rest)
            == Parse::Malformed(e),
{
    let pre = lead(Op::Put, digits) + key;
    let tail = seq![COLON] + value_digits + seq![COLON] + rest;
    assert(pre + seq![COLON] + value_digits + seq![COLON] + rest =~= pre + tail);
    lemma_parse_put_key(digits, key, tail);
    lemma_field_after(pre, value_digits, rest);
}

/// A `SET` whose value is shorter than announced is incomplete.
pub proof fn lemma_parse_put_value_short(
    digits: Seq<u8>,
    key: Seq<u8>,
    value_digits: Seq<u8>,
    value: Seq<u8>,
)
    requires
        is_decimal(digits),
        decimal_value(digits) == key.len(),
        key.len() <= usize::MAX,
        is_decimal(value_digits),
        value.len() < decimal_value(value_digits) <= usize::MAX,
    ensures
        parse(lead(Op::Put, digits) + key + seq![COLON] + value_digits + seq![COLON] + value)
            == Parse::Incomplete,
{
    let pre = lead(Op::Put, digits) + key;
    let tail = seq![COLON] + value_digits + seq![COLON] + value;
    assert(pre + seq![COLON] + value_digits + seq![COLON] + value =~= pre + tail);
    lemma_parse_put_key(digits, key, tail);
    lemma_decimal_no_colon(value_digits);
    lemma_field_after(pre, value_digits, value);
}

} // verus!
