//! Requests as bytes: what a client writes for a request, and that the
//! reader gives the request back from it.

use crate::error::Error;
use crate::proto::decimal::{decimal, lemma_decimal_round_trip};
use crate::proto::grammar::{
    find, lead, lemma_find_at, lemma_find_bounds, lemma_parse_echo, lemma_parse_get,
    lemma_parse_put, parse, Op, Parse, COLON, NEWLINE,
};
use crate::proto::reader::{poll, Outcome, ProtoView};
use crate::proto::stream::{
    concat, lemma_chunking_invariance, lemma_consumed, lemma_parse_stable, lemma_poll_consumes,
    lemma_run_same_step, run, run_whole, Trace,
};
use crate::proto::ProtoOpView;
use vstd::prelude::*;
use vstd::utf8::*;

verus! {

/// Whether `op` is a request whose payloads are short enough for their
/// lengths to be counted in a `usize`.
pub open spec fn fits(op: ProtoOpView) -> bool {
    match op {
        ProtoOpView::Get { key } => encode_utf8(key).len() <= usize::MAX,
        ProtoOpView::Put { key, value } => encode_utf8(key).len() <= usize::MAX && value.len()
            <= usize::MAX,
        ProtoOpView::Echo { msg } => msg.len() <= usize::MAX,
        _ => false,
    }
}

/// The bytes of the request `op` up to the end of its last payload: the
/// operation name, and each payload behind its length.
pub open spec fn body(op: ProtoOpView) -> Seq<u8> {
    match op {
        ProtoOpView::Get { key } => lead(Op::Get, decimal(encode_utf8(key).len()))
            + encode_utf8(key),
        ProtoOpView::Put { key, value } => lead(Op::Put, decimal(encode_utf8(key).len()))
            + encode_utf8(key) + seq![COLON] + decimal(value.len()) + seq![COLON] + value,
        ProtoOpView::Echo { msg } => lead(Op::Echo, decimal(msg.len())) + msg,
        _ => Seq::empty(),
    }
}

/// A request as it stands in a stream: up to the line feed that ends it.
pub struct Line {
    pub op: ProtoOpView,
    /// What stands between the last payload and the line feed, if anything.
    pub trailing: Seq<u8>,
}

impl Line {
    /// The bytes of the line.
    pub open spec fn bytes(self) -> Seq<u8> {
        body(self.op) + self.trailing + seq![NEWLINE]
    }

    /// Whether the line is one request and ends at its first line feed
    /// behind the last payload.
    pub open spec fn well_formed(self) -> bool {
        &&& fits(self.op)
        &&& forall|i: int| 0 <= i < self.trailing.len() ==> self.trailing[i] != NEWLINE
    }
}

/// The bytes of `lines`, one line behind the other.
pub open spec fn stream(lines: Seq<Line>) -> Seq<u8>
    decreases lines.len(),
{
    if lines.len() == 0 {
        Seq::empty()
    } else {
        lines[0].bytes() + stream(lines.skip(1))
    }
}

/// The requests of `lines`, in order.
pub open spec fn requests(lines: Seq<Line>) -> Seq<ProtoOpView> {
    lines.map_values(|line: Line| line.op)
}

/// The bytes written for a request are read as that request, whatever the
/// payloads hold and whatever follows: a colon or a line feed in a key, a
/// value or a message is taken as any other byte, and an empty payload is
/// a payload.
pub proof fn lemma_parse_body(op: ProtoOpView, rest: Seq<u8>)
    requires
        fits(op),
    ensures
        parse(body(op) + rest) == (Parse::Complete { op, consumed: body(op).len() }),
{
    match op {
        ProtoOpView::Get { key } => {
            let bytes = encode_utf8(key);
            lemma_decimal_round_trip(bytes.len());
            encode_utf8_valid_utf8(key);
            encode_utf8_decode_utf8(key);
            lemma_parse_get(decimal(bytes.len()), bytes, rest);
        },
        ProtoOpView::Put { key, value } => {
            let bytes = encode_utf8(key);
            lemma_decimal_round_trip(bytes.len());
            lemma_decimal_round_trip(value.len());
            encode_utf8_valid_utf8(key);
            encode_utf8_decode_utf8(key);
            lemma_parse_put(decimal(bytes.len()), bytes, decimal(value.len()), value, rest);
        },
        ProtoOpView::Echo { msg } => {
            lemma_decimal_round_trip(msg.len());
            lemma_parse_echo(decimal(msg.len()), msg, rest);
        },
        _ => {},
    }
}

/// A reader that holds a well-formed line and what follows it yields the
/// request of the line and keeps what stands behind the last payload.
proof fn lemma_line_yields(line: Line, rest: Seq<u8>)
    requires
        line.well_formed(),
    ensures
        poll(ProtoView::new().fed(line.bytes() + rest), false) == (
            Outcome::Op(line.op),
            ProtoView {
                fresh: false,
                draining: true,
                input: line.trailing + seq![NEWLINE] + rest,
            },
        ),
{
    let s = line.bytes() + rest;
    let after = line.trailing + seq![NEWLINE] + rest;
    let v = ProtoView::new().fed(s);
    assert(v.input =~= body(line.op) + after);
    lemma_parse_body(line.op, after);
    assert(v.input.skip(body(line.op).len() as int) =~= after);
}

/// A reader that has yielded the request of a well-formed line skips what
/// trails it and goes on as one that holds only what follows the line.
proof fn lemma_line_drains(trailing: Seq<u8>, rest: Seq<u8>)
    requires
        forall|i: int| 0 <= i < trailing.len() ==> trailing[i] != NEWLINE,
    ensures
        poll(
            ProtoView { fresh: false, draining: true, input: trailing + seq![NEWLINE] + rest },
            false,
        ) == poll(ProtoView::new().fed(rest), false),
{
    let after = trailing + seq![NEWLINE] + rest;
    let nl = trailing.len() as int;
    assert(after[nl] == NEWLINE);
    assert forall|i: int| 0 <= i < nl implies after[i] != NEWLINE by {
        assert(after[i] == trailing[i]);
    }
    lemma_find_at(after, NEWLINE, 0, nl);
    assert(after.skip(nl + 1) =~= rest);
    assert(ProtoView::new().fed(rest).input =~= rest);
}

/// A reader that has all of a stream of well-formed lines yields the
/// request of each line, in order, and discards what trails the payloads.
pub proof fn lemma_stream_decodes(lines: Seq<Line>)
    requires
        forall|i: int| 0 <= i < lines.len() ==> (#[trigger] lines[i]).well_formed(),
    ensures
        run_whole(stream(lines)) == (Trace { ops: requests(lines), failure: None }),
    decreases lines.len(),
{
    let none = Seq::<Seq<u8>>::empty();
    let v = ProtoView::new().fed(stream(lines));
    if lines.len() == 0 {
        assert(v.input =~= Seq::<u8>::empty());
        assert(requests(lines) =~= Seq::<ProtoOpView>::empty());
        assert(parse(v.input) is Incomplete);
    } else {
        let line = lines[0];
        let tail = lines.skip(1);
        let next = ProtoView {
            fresh: false,
            draining: true,
            input: line.trailing + seq![NEWLINE] + stream(tail),
        };
        let w = ProtoView::new().fed(stream(tail));
        lemma_line_yields(line, stream(tail));
        lemma_line_drains(line.trailing, stream(tail));
        assert(poll(v, false) == (Outcome::Op(line.op), next));
        lemma_poll_consumes(v, false);
        lemma_run_same_step(next, w, none, false, false);
        assert(run(v, none, false).ops == seq![line.op] + run(w, none, false).ops);
        assert forall|i: int| 0 <= i < tail.len() implies (#[trigger] tail[i]).well_formed() by {
            assert(tail[i] == lines[i + 1]);
        }
        lemma_stream_decodes(tail);
        assert(requests(lines) =~= seq![line.op] + requests(tail));
    }
}

/// The requests of a stream come out whole and in order however the
/// stream is cut into reads, and what trails a payload up to its line feed
/// corrupts nothing: a new reader that is fed the bytes of well-formed
/// lines read by read yields the request of each line, unless one of the
/// cuts left fewer than four bytes at the start of a buffer where an
/// operation name was due.
pub proof fn lemma_requests_survive_chunking(lines: Seq<Line>, chunks: Seq<Seq<u8>>)
    requires
        forall|i: int| 0 <= i < lines.len() ==> (#[trigger] lines[i]).well_formed(),
        concat(chunks) == stream(lines),
        run(ProtoView::new(), chunks, false).failure != Some(Error::ShortOp),
    ensures
        run(ProtoView::new(), chunks, false) == (Trace { ops: requests(lines), failure: None }),
{
    lemma_chunking_invariance(chunks);
    lemma_stream_decodes(lines);
}

/// No request is refused for being short of its operation name while
/// every read brings four bytes or more.
pub proof fn lemma_long_reads_never_short(v: ProtoView, chunks: Seq<Seq<u8>>, at_start: bool)
    requires
        forall|i: int| 0 <= i < chunks.len() ==> (#[trigger] chunks[i]).len() >= 4,
        at_start ==> v.fresh || v.draining || v.input.len() >= 4,
    ensures
        run(v, chunks, at_start).failure != Some(Error::ShortOp),
    decreases chunks.len(), v.input.len(),
{
    let step = poll(v, at_start);
    match step.0 {
        Outcome::Fail(e) => {},
        Outcome::Op(op) => {
            lemma_poll_consumes(v, at_start);
            lemma_long_reads_never_short(step.1, chunks, false);
        },
        Outcome::NeedRead => {
            if chunks.len() > 0 {
                let rest = chunks.skip(1);
                assert forall|i: int| 0 <= i < rest.len() implies (#[trigger] rest[i]).len()
                    >= 4 by {
                    assert(rest[i] == chunks[i + 1]);
                }
                assert(chunks[0].len() >= 4);
                lemma_long_reads_never_short(step.1.fed(chunks[0]), rest, true);
            }
        },
    }
}

/// Whether `s` is the end of a line: it ends in a line feed and holds no
/// other.
pub open spec fn ends_line(s: Seq<u8>) -> bool {
    &&& s.len() > 0
    &&& s[s.len() - 1] == NEWLINE
    &&& forall|i: int| 0 <= i < s.len() - 1 ==> s[i] != NEWLINE
}

/// Chunks that all hold a byte or more hold a byte or more together.
proof fn lemma_concat_nonempty(chunks: Seq<Seq<u8>>)
    requires
        chunks.len() > 0,
        chunks[0].len() > 0,
    ensures
        concat(chunks).len() > 0,
{
}

/// A reader that skips the end of the last line of a stream never finds
/// itself short of an operation name, however the end of the line is cut
/// into reads that each bring a byte or more.
proof fn lemma_draining_never_short(v: ProtoView, chunks: Seq<Seq<u8>>, at_start: bool)
    requires
        !v.fresh,
        v.draining,
        ends_line(v.input + concat(chunks)),
        forall|i: int| 0 <= i < chunks.len() ==> (#[trigger] chunks[i]).len() > 0,
    ensures
        run(v, chunks, at_start).failure != Some(Error::ShortOp),
    decreases chunks.len(),
{
    let pending = v.input + concat(chunks);
    let nl = find(v.input, NEWLINE, 0);
    lemma_find_bounds(v.input, NEWLINE, 0);
    if nl < v.input.len() {
        assert(pending[nl] == v.input[nl]);
        if chunks.len() > 0 {
            lemma_concat_nonempty(chunks);
        }
        assert(v.input.skip(nl + 1) =~= Seq::<u8>::empty());
    } else if chunks.len() > 0 {
        let rest = chunks.skip(1);
        let fed = poll(v, at_start).1.fed(chunks[0]);
        assert(fed.input =~= chunks[0]);
        assert(concat(chunks) == chunks[0] + concat(rest));
        assert forall|i: int| 0 <= i < rest.len() implies (#[trigger] rest[i]).len() > 0 by {
            assert(rest[i] == chunks[i + 1]);
        }
        let after = fed.input + concat(rest);
        assert(after =~= pending.skip(v.input.len() as int));
        lemma_concat_nonempty(chunks);
        assert forall|i: int| 0 <= i < after.len() - 1 implies after[i] != NEWLINE by {
            assert(after[i] == pending[v.input.len() + i]);
        }
        lemma_draining_never_short(fed, rest, true);
    }
}

/// A reader that holds the first four bytes or more of the last line of a
/// stream never finds itself short of an operation name, however the rest
/// of the line is cut into reads that each bring a byte or more.
proof fn lemma_in_flight_never_short(
    v: ProtoView,
    chunks: Seq<Seq<u8>>,
    at_start: bool,
    line: Line,
)
    requires
        line.well_formed(),
        !v.fresh,
        !v.draining,
        v.input.len() >= 4,
        v.input + concat(chunks) == line.bytes(),
        forall|i: int| 0 <= i < chunks.len() ==> (#[trigger] chunks[i]).len() > 0,
    ensures
        run(v, chunks, at_start).failure != Some(Error::ShortOp),
    decreases chunks.len(),
{
    let step = poll(v, at_start);
    match step.0 {
        Outcome::Fail(e) => {},
        Outcome::Op(op) => {
            let after = line.trailing + seq![NEWLINE];
            assert(line.bytes() =~= body(line.op) + after);
            lemma_parse_body(line.op, after);
            lemma_parse_stable(v.input, concat(chunks));
            lemma_consumed(v.input);
            let consumed = body(line.op).len() as int;
            assert(step.1.input + concat(chunks) =~= (v.input + concat(chunks)).skip(consumed));
            assert((body(line.op) + after).skip(consumed) =~= after);
            lemma_draining_never_short(step.1, chunks, false);
        },
        Outcome::NeedRead => {
            if chunks.len() > 0 {
                let rest = chunks.skip(1);
                let fed = step.1.fed(chunks[0]);
                assert(concat(chunks) == chunks[0] + concat(rest));
                assert(fed.input + concat(rest) =~= v.input + concat(chunks));
                assert forall|i: int| 0 <= i < rest.len() implies (#[trigger] rest[i]).len()
                    > 0 by {
                    assert(rest[i] == chunks[i + 1]);
                }
                lemma_in_flight_never_short(fed, rest, true, line);
            }
        },
    }
}

/// A request may come in any number of reads: a new reader that is fed a
/// well-formed line yields the request of the line, however the line is cut,
/// provided that the first read brings four bytes or more, so that the
/// operation name is there, and each further read a byte or more.
pub proof fn lemma_request_in_pieces(line: Line, chunks: Seq<Seq<u8>>)
    requires
        line.well_formed(),
        concat(chunks) == line.bytes(),
        chunks.len() > 0,
        chunks[0].len() >= 4,
        forall|i: int| 0 <= i < chunks.len() ==> (#[trigger] chunks[i]).len() > 0,
    ensures
        run(ProtoView::new(), chunks, false) == (Trace { ops: seq![line.op], failure: None }),
{
    let lines = seq![line];
    let rest = chunks.skip(1);
    let fed = ProtoView::new().fed(chunks[0]);
    assert(fed.input =~= chunks[0]);
    assert(concat(chunks) == chunks[0] + concat(rest));
    assert forall|i: int| 0 <= i < rest.len() implies (#[trigger] rest[i]).len() > 0 by {
        assert(rest[i] == chunks[i + 1]);
    }
    lemma_in_flight_never_short(fed, rest, true, line);
    assert(run(ProtoView::new(), chunks, false) == run(fed, rest, true));

    assert(lines.skip(1) =~= Seq::<Line>::empty());
    assert(stream(lines.skip(1)) =~= Seq::<u8>::empty());
    assert(stream(lines) =~= line.bytes());
    lemma_requests_survive_chunking(lines, chunks);
    assert(requests(lines) =~= seq![line.op]);
}

} // verus!
