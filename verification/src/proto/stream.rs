//! Whole sessions: what a reader yields over the reads of a session, and
//! why the way the stream was cut into reads does not change it.

use crate::error::Error;
use crate::proto::grammar::{
    find, lemma_find_at, lemma_find_bounds, lemma_find_none, length_field, opcode, parse,
    parse_value, token, Field, Op, COLON, NEWLINE,
};
use crate::proto::reader::{poll, Outcome, ProtoView};
use crate::proto::ProtoOpView;
use vstd::prelude::*;

verus! {

/// What a session has yielded when it ends or runs out of bytes.
pub struct Trace {
    /// The requests, in the order in which the reader yielded them.
    pub ops: Seq<ProtoOpView>,
    /// The error that ended the session, if one did.
    pub failure: Option<Error>,
}

/// The bytes of `chunks`, one chunk behind the other.
pub open spec fn concat(chunks: Seq<Seq<u8>>) -> Seq<u8>
    decreases chunks.len(),
{
    if chunks.len() == 0 {
        Seq::empty()
    } else {
        chunks[0] + concat(chunks.skip(1))
    }
}

/// A request that was completed took bytes: at least the four of its
/// operation name, and no more than were there.
pub proof fn lemma_consumed(s: Seq<u8>)
    requires
        parse(s) is Complete,
    ensures
        4 <= parse(s)->consumed <= s.len(),
{
    let op = opcode(s)->0;
    let at = token(op).len() as int;
    lemma_find_bounds(s, COLON, at + 1);
    match length_field(s, at) {
        Field::Length { len, next } => {
            if op == Op::Put {
                let at2 = next + len;
                if at2 < s.len() {
                    lemma_find_bounds(s, COLON, at2 + 1);
                }
            }
        },
        _ => {},
    }
}

/// A request that is yielded leaves the reader with fewer bytes than it
/// held.
pub proof fn lemma_poll_consumes(v: ProtoView, at_start: bool)
    requires
        poll(v, at_start).0 is Op,
    ensures
        poll(v, at_start).1.input.len() < v.input.len(),
{
    if v.draining {
        let nl = find(v.input, NEWLINE, 0);
        lemma_find_bounds(v.input, NEWLINE, 0);
        lemma_consumed(v.input.skip(nl + 1));
    } else {
        lemma_consumed(v.input);
    }
}

/// What a session yields when the source delivers `chunks`, one per read.
///
/// The driver asks the reader for a request. A request is noted and the next
/// one asked for; where the reader needs bytes, the next chunk is handed to
/// it, which sets the cursor to the start of the buffer (`at_start`); an
/// error ends the session, and so does the end of the chunks.
pub open spec fn run(v: ProtoView, chunks: Seq<Seq<u8>>, at_start: bool) -> Trace
    decreases chunks.len(), v.input.len(),
{
    let step = poll(v, at_start);
    match step.0 {
        Outcome::Fail(e) => Trace { ops: Seq::empty(), failure: Some(e) },
        Outcome::Op(op) => {
            proof {
                lemma_poll_consumes(v, at_start);
            }
            let then = run(step.1, chunks, false);
            Trace { ops: seq![op] + then.ops, failure: then.failure }
        },
        Outcome::NeedRead => if chunks.len() == 0 {
            Trace { ops: Seq::empty(), failure: None }
        } else {
            run(step.1.fed(chunks[0]), chunks.skip(1), true)
        },
    }
}

/// What a session yields when all of `stream` is there before the reader
/// is asked for anything.
pub open spec fn run_whole(stream: Seq<u8>) -> Trace {
    run(ProtoView::new().fed(stream), Seq::empty(), false)
}

/// The first `b` of `s` stays the first however `s` is extended.
pub proof fn lemma_find_stable(s: Seq<u8>, x: Seq<u8>, b: u8, from: int)
    requires
        0 <= from,
        find(s, b, from) < s.len(),
    ensures
        find(s + x, b, from) == find(s, b, from),
{
    if from <= s.len() {
        lemma_find_bounds(s, b, from);
        let j = find(s, b, from);
        assert((s + x)[j] == s[j]);
        assert forall|i: int| from <= i < j implies (s + x)[i] != b by {
            assert((s + x)[i] == s[i]);
        }
        lemma_find_at(s + x, b, from, j);
    }
}

/// Where `s` holds no `b`, the first `b` of `s + x` is the first of `x`.
pub proof fn lemma_find_beyond(s: Seq<u8>, x: Seq<u8>, b: u8)
    requires
        find(s, b, 0) >= s.len(),
    ensures
        find(s + x, b, 0) == s.len() + find(x, b, 0),
{
    lemma_find_bounds(s, b, 0);
    lemma_find_bounds(x, b, 0);
    let j = find(x, b, 0);
    assert forall|i: int| 0 <= i < s.len() + j implies (s + x)[i] != b by {
        if i < s.len() {
            assert((s + x)[i] == s[i]);
        } else {
            assert((s + x)[i] == x[i - s.len()]);
        }
    }
    if j < x.len() {
        assert((s + x)[s.len() + j] == x[j]);
        lemma_find_at(s + x, b, 0, s.len() + j);
    } else {
        lemma_find_none(s + x, b, 0);
    }
}

/// A length field that was read stays as it was read however the bytes
/// are extended.
pub proof fn lemma_field_stable(s: Seq<u8>, x: Seq<u8>, at: int)
    requires
        0 <= at,
        !(length_field(s, at) is Incomplete),
    ensures
        length_field(s + x, at) == length_field(s, at),
{
    assert((s + x)[at] == s[at]);
    if s[at] == COLON {
        let end = find(s, COLON, at + 1);
        lemma_find_bounds(s, COLON, at + 1);
        lemma_find_stable(s, x, COLON, at + 1);
        assert((s + x).subrange(at + 1, end) =~= s.subrange(at + 1, end));
    }
}

/// The value part of a `SET` that was read stays as it was read.
pub proof fn lemma_parse_value_stable(s: Seq<u8>, x: Seq<u8>, key: Seq<u8>, at: int)
    requires
        0 <= at,
        !(parse_value(s, key, at) is Incomplete),
    ensures
        parse_value(s + x, key, at) == parse_value(s, key, at),
{
    lemma_field_stable(s, x, at);
    match length_field(s, at) {
        Field::Length { len, next } => {
            lemma_find_bounds(s, COLON, at + 1);
            assert((s + x).subrange(next, next + len) =~= s.subrange(next, next + len));
        },
        _ => {},
    }
}

/// Bytes that are a request, or are malformed, stay so however they are
/// extended: what comes later changes nothing of what was read.
pub proof fn lemma_parse_stable(s: Seq<u8>, x: Seq<u8>)
    requires
        !(parse(s) is Incomplete),
    ensures
        parse(s + x) == parse(s),
{
    let t = s + x;
    assert(t[0] == s[0] && t[1] == s[1] && t[2] == s[2] && t[3] == s[3]);
    match opcode(s) {
        None => {},
        Some(op) => {
            let at = token(op).len() as int;
            lemma_field_stable(s, x, at);
            match length_field(s, at) {
                Field::Length { len, next } => {
                    lemma_find_bounds(s, COLON, at + 1);
                    assert(t.subrange(next, next + len) =~= s.subrange(next, next + len));
                    if op == Op::Put {
                        lemma_parse_value_stable(s, x, s.subrange(next, next + len), next + len);
                    }
                },
                _ => {},
            }
        },
    }
}

/// A reader that was asked for a request and then given more bytes goes
/// on as one that was given them before it was asked, unless the asking
/// itself failed or yielded a request.
proof fn lemma_poll_then_feed(v: ProtoView, a: bool, x: Seq<u8>)
    requires
        v.fresh ==> !v.draining && v.input.len() == 0,
        poll(v, a).0 is NeedRead,
    ensures
        poll(poll(v, a).1.fed(x), false) == poll(v.fed(x), false),
{
    let next = poll(v, a).1;
    if v.fresh {
    } else if v.draining {
        let nl = find(v.input, NEWLINE, 0);
        lemma_find_bounds(v.input, NEWLINE, 0);
        if nl >= v.input.len() {
            lemma_find_beyond(v.input, x, NEWLINE);
            lemma_find_bounds(x, NEWLINE, 0);
            assert(next.fed(x).input =~= x);
            let m = find(x, NEWLINE, 0);
            if m < x.len() {
                assert((v.input + x).skip(nl + m + 1) =~= x.skip(m + 1));
            }
        } else {
            lemma_find_stable(v.input, x, NEWLINE, 0);
            assert((v.input + x).skip(nl + 1) =~= v.input.skip(nl + 1) + x);
        }
    } else {
        assert(next.fed(x) == v.fed(x));
    }
}

/// A session whose first step is the same goes on the same.
pub proof fn lemma_run_same_step(v: ProtoView, w: ProtoView, chunks: Seq<Seq<u8>>, a: bool, b: bool)
    requires
        poll(v, a) == poll(w, b),
    ensures
        run(v, chunks, a) == run(w, chunks, b),
{
}

/// A failure other than for want of an operation name stays the failure
/// it is when more bytes are at hand.
proof fn lemma_poll_fail_fed(v: ProtoView, a: bool, x: Seq<u8>)
    requires
        poll(v, a).0 is Fail,
        poll(v, a).0 != Outcome::Fail(Error::ShortOp),
    ensures
        poll(v.fed(x), false) == poll(v, a),
{
    if v.draining {
        let nl = find(v.input, NEWLINE, 0);
        lemma_find_bounds(v.input, NEWLINE, 0);
        lemma_find_stable(v.input, x, NEWLINE, 0);
        assert((v.input + x).skip(nl + 1) =~= v.input.skip(nl + 1) + x);
        lemma_parse_stable(v.input.skip(nl + 1), x);
    } else {
        lemma_parse_stable(v.input, x);
    }
}

/// A request that is yielded is yielded the same when more bytes are at
/// hand, and those bytes are kept behind what the reader held.
proof fn lemma_poll_op_fed(v: ProtoView, a: bool, x: Seq<u8>)
    requires
        poll(v, a).0 is Op,
    ensures
        poll(v.fed(x), false) == (poll(v, a).0, poll(v, a).1.fed(x)),
{
    let req = if v.draining {
        v.input.skip(find(v.input, NEWLINE, 0) + 1)
    } else {
        v.input
    };
    if v.draining {
        let nl = find(v.input, NEWLINE, 0);
        lemma_find_bounds(v.input, NEWLINE, 0);
        lemma_find_stable(v.input, x, NEWLINE, 0);
        assert((v.input + x).skip(nl + 1) =~= req + x);
    }
    lemma_parse_stable(req, x);
    lemma_consumed(req);
    let consumed = parse(req)->consumed as int;
    assert((req + x).skip(consumed) =~= req.skip(consumed) + x);
}

/// A reader that needs bytes and has none to come yields nothing more,
/// whether it is asked again or not.
proof fn lemma_run_starved(v: ProtoView, a: bool)
    requires
        v.fresh ==> !v.draining && v.input.len() == 0,
        poll(v, a).0 is NeedRead,
    ensures
        run(v.fed(Seq::empty()), Seq::empty(), false) == (Trace {
            ops: Seq::empty(),
            failure: None,
        }),
{
    let w = v.fed(Seq::empty());
    assert(w.input =~= v.input);
    if v.fresh {
    } else {
        assert(w == v);
        assert(poll(v, false).0 is NeedRead);
    }
}

/// A session that is fed read by read yields what it would have yielded
/// with the whole stream at hand, unless a read left fewer than four bytes
/// where an operation name was due.
proof fn lemma_run_at_once(v: ProtoView, chunks: Seq<Seq<u8>>, a: bool)
    requires
        v.fresh ==> !v.draining && v.input.len() == 0,
        run(v, chunks, a).failure != Some(Error::ShortOp),
    ensures
        run(v, chunks, a) == run(v.fed(concat(chunks)), Seq::empty(), false),
    decreases chunks.len(), v.input.len(),
{
    let x = concat(chunks);
    let w = v.fed(x);
    let none = Seq::<Seq<u8>>::empty();
    let step = poll(v, a);
    match step.0 {
        Outcome::Fail(e) => {
            lemma_poll_fail_fed(v, a, x);
        },
        Outcome::Op(op) => {
            lemma_poll_consumes(v, a);
            lemma_poll_op_fed(v, a, x);
            lemma_poll_consumes(w, false);
            lemma_run_at_once(step.1, chunks, false);
        },
        Outcome::NeedRead => {
            if chunks.len() == 0 {
                assert(x =~= Seq::<u8>::empty());
                lemma_run_starved(v, a);
            } else {
                let fed = step.1.fed(chunks[0]);
                lemma_run_at_once(fed, chunks.skip(1), true);
                assert(fed.fed(concat(chunks.skip(1))).input =~= step.1.input + x);
                assert(fed.fed(concat(chunks.skip(1))) == step.1.fed(x));
                lemma_poll_then_feed(v, a, x);
                lemma_run_same_step(step.1.fed(x), w, none, false, false);
            }
        },
    }
}

/// Chunking invariance: however a stream is cut into reads, a new reader
/// yields the same requests and comes to the same end, unless one of the
/// cuts left fewer than four bytes at the start of a buffer where an
/// operation name was due, which is the failure `ShortOp`.
pub proof fn lemma_chunking_invariance(chunks: Seq<Seq<u8>>)
    requires
        run(ProtoView::new(), chunks, false).failure != Some(Error::ShortOp),
    ensures
        run(ProtoView::new(), chunks, false) == run_whole(concat(chunks)),
{
    lemma_run_at_once(ProtoView::new(), chunks, false);
}

} // verus!
