//! The reader: a resumable state machine over the bytes of a session.
//!
//! What it does is stated over `parse`: the reader yields the request that
//! the bytes received since the last one amount to, as soon as they amount to
//! one, and asks for more bytes until then. How the bytes were cut into reads
//! plays no part, with one exception that `poll_request` spells out: where
//! the start of a buffer holds fewer than four bytes and an operation name is
//! due there, the reader does not wait for the rest of the name but fails.

use crate::error::Error;
use crate::proto::decimal::{announced, decimal_value, is_decimal, parse_length};
use crate::proto::grammar::{
    find, lead, lemma_find_at, lemma_find_none, lemma_parse_echo, lemma_parse_echo_bare,
    lemma_parse_echo_no_colon, lemma_parse_get, lemma_parse_length_bad, lemma_parse_length_open,
    lemma_parse_payload_short, lemma_parse_put, lemma_parse_put_bare, lemma_parse_put_length_bad,
    lemma_parse_put_length_open, lemma_parse_put_no_colon, lemma_parse_put_value_short, no_colon,
    parse, token, Op, Parse, COLON, MIN_BUF_SIZE, NEWLINE,
};
use crate::proto::{Proto, ProtoOp, ProtoOpView, ProtoRead, State, BUF_SIZE};
use vstd::prelude::*;
use vstd::utf8::*;

verus! {

/// What a reader holds, as far as its behaviour depends on it.
pub struct ProtoView {
    /// No request has been begun: the reader waits for its first bytes.
    pub fresh: bool,
    /// A request was yielded and the rest of its line, up to and including
    /// the next line feed, is still to be discarded.
    pub draining: bool,
    /// While draining: the bytes received behind the request last yielded.
    /// Otherwise: the bytes received for the request in progress, from its
    /// first byte on.
    pub input: Seq<u8>,
}

/// What a call of the reader comes to.
pub enum Outcome {
    /// The bytes held are not a whole request: the source is to be read.
    NeedRead,
    /// A request is complete.
    Op(ProtoOpView),
    /// The input is malformed. The session is over.
    Fail(Error),
}

/// The outcome that a result of `read` or `resume` stands for.
pub open spec fn outcome(r: Result<Option<ProtoOp>, Error>) -> Outcome {
    match r {
        Ok(None) => Outcome::NeedRead,
        Ok(Some(op)) => Outcome::Op(op@),
        Err(e) => Outcome::Fail(e),
    }
}

impl ProtoView {
    /// A reader that has not been used.
    pub open spec fn new() -> ProtoView {
        ProtoView { fresh: true, draining: false, input: Seq::empty() }
    }

    /// A reader that holds nothing and waits for the end of a line: the
    /// state after a failure.
    pub open spec fn failed() -> ProtoView {
        ProtoView { fresh: false, draining: true, input: Seq::empty() }
    }

    /// The reader after `chunk` was put behind what it holds.
    pub open spec fn fed(self, chunk: Seq<u8>) -> ProtoView {
        ProtoView { fresh: false, draining: self.draining, input: self.input + chunk }
    }

    /// The reader after the source ended or shutdown was signalled: what it
    /// held is dropped.
    pub open spec fn closed(self) -> ProtoView {
        ProtoView { fresh: self.fresh, draining: !self.fresh, input: Seq::empty() }
    }
}

/// What the reader does with `req`, the bytes of the request in progress,
/// and what it holds afterwards.
///
/// `at_start` says that the cursor is at the start of the buffer, which is
/// the case right after a fill unless bytes of a finished line were skipped
/// since. Fewer than four bytes there are a failure, not a reason to wait.
pub open spec fn poll_request(req: Seq<u8>, at_start: bool) -> (Outcome, ProtoView) {
    match parse(req) {
        Parse::Incomplete => if req.len() < 4 && at_start {
            (Outcome::Fail(Error::ShortOp), ProtoView::failed())
        } else {
            (Outcome::NeedRead, ProtoView { fresh: false, draining: false, input: req })
        },
        Parse::Malformed(e) => (Outcome::Fail(e), ProtoView::failed()),
        Parse::Complete { op, consumed } => (
            Outcome::Op(op),
            ProtoView { fresh: false, draining: true, input: req.skip(consumed as int) },
        ),
    }
}

/// What the reader in state `v` does when it is asked for a request, and
/// what it holds afterwards.
pub open spec fn poll(v: ProtoView, at_start: bool) -> (Outcome, ProtoView) {
    if v.fresh {
        (Outcome::NeedRead, v)
    } else if v.draining {
        let nl = find(v.input, NEWLINE, 0);
        if nl >= v.input.len() {
            (Outcome::NeedRead, ProtoView { fresh: false, draining: true, input: Seq::empty() })
        } else {
            poll_request(v.input.skip(nl + 1), false)
        }
    } else {
        poll_request(v.input, at_start)
    }
}

/// What the reader in state `v` does when its driver hands it what the last
/// read from the source brought, and what it holds afterwards: bytes are put
/// behind those held and the reader is asked for a request; the end of the
/// source, or a shutdown, ends the session and drops what is held.
pub open spec fn resumed(v: ProtoView, input: ProtoRead) -> (Outcome, ProtoView) {
    match input {
        ProtoRead::Read(chunk) => poll(v.fed(chunk@), true),
        ProtoRead::Eof => (Outcome::Op(ProtoOpView::SysClose), v.closed()),
        ProtoRead::Cancelled => (Outcome::Op(ProtoOpView::Cancelled), v.closed()),
    }
}

/// Where four bytes or more are held, or a line is being skipped, the place
/// of the cursor plays no part.
pub proof fn lemma_at_start_irrelevant(v: ProtoView, a: bool, b: bool)
    requires
        v.fresh || v.draining || v.input.len() >= 4,
    ensures
        poll(v, a) == poll(v, b),
{
}

/// Whether `digits` is the decimal number `n`.
spec fn denotes(digits: Seq<u8>, n: usize) -> bool {
    is_decimal(digits) && decimal_value(digits) == n
}

/// What one state of the machine hands to the loop that drives it.
enum Step {
    /// The state has changed: go on from the new one.
    Continue,
    /// The call is over.
    Yield(Result<Option<ProtoOp>, Error>),
}

/// `String::from_utf8` of std: `Some` exactly where `bytes` is valid UTF-8,
/// and then the string whose characters `bytes` encodes.
#[verifier::external_body]
fn string_from_utf8(bytes: Vec<u8>) -> (r: Option<String>)
    ensures
        r is Some <==> valid_utf8(bytes@),
        r matches Some(s) ==> s@ == decode_utf8(bytes@),
{
    String::from_utf8(bytes).ok()
}

/// `Vec::shrink_to` of std: the capacity may go down to `min_capacity` or
/// the length, whichever is greater; what the vector holds stays.
#[verifier::external_body]
fn shrink_to(buf: &mut Vec<u8>, min_capacity: usize)
    ensures
        final(buf)@ == old(buf)@,
{
    buf.shrink_to(min_capacity);
}

impl View for Proto {
    type V = ProtoView;

    closed spec fn view(&self) -> ProtoView {
        ProtoView {
            fresh: self.fresh,
            draining: self.state == State::Start && !self.fresh,
            input: self.head() + self.rest(),
        }
    }
}

impl Proto {
    /// The bytes in the buffer that the cursor has not passed.
    spec fn rest(&self) -> Seq<u8> {
        self.buf@.subrange(self.ptr as int, self.buf@.len() as int)
    }

    /// The bytes of the request in progress up to the end of those of its
    /// key that were read.
    spec fn keyed(&self) -> Seq<u8> {
        lead(self.op, self.key_len_buf@) + self.key@
    }

    /// The bytes of the request in progress that the cursor has passed.
    spec fn head(&self) -> Seq<u8> {
        match self.state {
            State::Start => Seq::empty(),
            State::ReadOp => Seq::empty(),
            State::ReadKeyLen => if self.between_colons {
                token(self.op) + seq![COLON] + self.key_len_buf@
            } else {
                token(self.op)
            },
            State::ReadKey => self.keyed(),
            State::ReadEcho => lead(self.op, self.key_len_buf@) + self.echo@,
            State::ReadValueLen => if self.between_colons {
                self.keyed() + seq![COLON] + self.value_len_buf@
            } else {
                self.keyed()
            },
            State::ReadValue => self.keyed() + seq![COLON] + self.value_len_buf@ + seq![COLON]
                + self.value@,
            State::Done => match self.op {
                Op::Get => self.keyed(),
                Op::Echo => lead(self.op, self.key_len_buf@) + self.echo@,
                Op::Put => self.keyed() + seq![COLON] + self.value_len_buf@ + seq![COLON]
                    + self.value@,
            },
        }
    }

    /// What holds of the fields in every state of the machine.
    spec fn inv(&self) -> bool {
        &&& self.ptr <= self.buf@.len()
        &&& self.fresh ==> self.state == State::Start
        &&& no_colon(self.key_len_buf@)
        &&& no_colon(self.value_len_buf@)
        &&& match self.state {
            State::Start | State::ReadOp => {
                &&& !self.between_colons
                &&& self.key_len_buf@.len() == 0
                &&& self.key@.len() == 0
                &&& self.echo@.len() == 0
                &&& self.value_len_buf@.len() == 0
                &&& self.value@.len() == 0
            },
            State::ReadKeyLen => {
                &&& !self.between_colons ==> self.key_len_buf@.len() == 0
                &&& !self.between_colons && self.op != Op::Echo ==> self.ptr < self.buf@.len()
                    && self.buf@[self.ptr as int] == COLON
                &&& self.key@.len() == 0
                &&& self.echo@.len() == 0
                &&& self.value_len_buf@.len() == 0
                &&& self.value@.len() == 0
            },
            State::ReadKey => {
                &&& self.op != Op::Echo
                &&& !self.between_colons
                &&& denotes(self.key_len_buf@, self.key_len)
                &&& self.key@.len() <= self.key_len
                &&& self.echo@.len() == 0
                &&& self.value_len_buf@.len() == 0
                &&& self.value@.len() == 0
            },
            State::ReadEcho => {
                &&& self.op == Op::Echo
                &&& !self.between_colons
                &&& denotes(self.key_len_buf@, self.key_len)
                &&& self.echo@.len() <= self.key_len
                &&& self.key@.len() == 0
                &&& self.value_len_buf@.len() == 0
                &&& self.value@.len() == 0
            },
            State::ReadValueLen => {
                &&& self.op == Op::Put
                &&& denotes(self.key_len_buf@, self.key_len)
                &&& self.key@.len() == self.key_len
                &&& !self.between_colons ==> self.value_len_buf@.len() == 0
                &&& self.echo@.len() == 0
                &&& self.value@.len() == 0
            },
            State::ReadValue => {
                &&& self.op == Op::Put
                &&& !self.between_colons
                &&& denotes(self.key_len_buf@, self.key_len)
                &&& self.key@.len() == self.key_len
                &&& denotes(self.value_len_buf@, self.value_len)
                &&& self.value@.len() <= self.value_len
                &&& self.echo@.len() == 0
            },
            State::Done => {
                &&& !self.between_colons
                &&& denotes(self.key_len_buf@, self.key_len)
                &&& match self.op {
                    Op::Get => {
                        &&& self.key@.len() == self.key_len
                        &&& self.echo@.len() == 0
                        &&& self.value_len_buf@.len() == 0
                        &&& self.value@.len() == 0
                    },
                    Op::Echo => {
                        &&& self.echo@.len() == self.key_len
                        &&& self.key@.len() == 0
                        &&& self.value_len_buf@.len() == 0
                        &&& self.value@.len() == 0
                    },
                    Op::Put => {
                        &&& self.key@.len() == self.key_len
                        &&& denotes(self.value_len_buf@, self.value_len)
                        &&& self.value@.len() == self.value_len
                        &&& self.echo@.len() == 0
                    },
                }
            },
        }
    }

    /// What holds of a reader between the calls of its public functions.
    pub closed spec fn wf(&self) -> bool {
        &&& self.inv()
        &&& self.state != State::Done
        &&& self.state == State::ReadOp ==> self.ptr > 0
        &&& self.fresh ==> self.buf@.len() == 0
    }

    /// The view with the reader taken as begun.
    spec fn begun(&self) -> ProtoView {
        ProtoView { fresh: false, draining: self@.draining, input: self@.input }
    }

    /// What a call that starts from this state is to come to.
    #[verifier::opaque]
    spec fn target(&self) -> (Outcome, ProtoView) {
        poll(self.begun(), self.ptr == 0)
    }

    /// The place of a state in the order in which a request passes them.
    spec fn rank(&self) -> int {
        match self.state {
            State::Start => 7,
            State::ReadOp => 6,
            State::ReadKeyLen => 5,
            State::ReadKey => 4,
            State::ReadEcho => 4,
            State::ReadValueLen => 3,
            State::ReadValue => 2,
            State::Done => 1,
        }
    }

    /// Whether `step`, taken from `pre`, has kept what the call is to come
    /// to, or has come to it.
    spec fn stepped(&self, pre: Proto, step: Step) -> bool {
        match step {
            Step::Continue => {
                &&& self.inv()
                &&& !self.fresh
                &&& self.target() == pre.target()
                &&& self.rank() < pre.rank()
            },
            Step::Yield(r) => {
                &&& self.wf()
                &&& outcome(r) == pre.target().0
                &&& self@ == pre.target().1
            },
        }
    }

    /// A reader for a new session.
    pub fn new() -> (p: Proto)
        ensures
            p.wf(),
            p@ == ProtoView::new(),
    {
        let p = Proto {
            buf: Vec::with_capacity(BUF_SIZE),
            ptr: 0,
            fresh: true,
            state: State::Start,
            op: Op::Get,
            between_colons: false,
            key_len_buf: Vec::with_capacity(8),
            key_len: 0,
            key: Vec::with_capacity(BUF_SIZE),
            echo: Vec::with_capacity(BUF_SIZE),
            value_len_buf: Vec::with_capacity(8),
            value_len: 0,
            value: Vec::with_capacity(BUF_SIZE),
        };
        assert(p@.input =~= Seq::<u8>::empty());
        p
    }

    /// Forgets the request in progress.
    fn reset(&mut self)
        ensures
            final(self).state == State::Start,
            final(self).buf == old(self).buf,
            final(self).ptr == old(self).ptr,
            final(self).fresh == old(self).fresh,
            !final(self).between_colons,
            final(self).key_len_buf@.len() == 0,
            final(self).key@.len() == 0,
            final(self).echo@.len() == 0,
            final(self).value_len_buf@.len() == 0,
            final(self).value@.len() == 0,
    {
        self.state = State::Start;
        self.op = Op::Get;
        self.between_colons = false;
        self.key_len_buf.clear();
        self.key_len = 0;
        self.key.clear();
        self.echo.clear();
        self.value_len_buf.clear();
        self.value_len = 0;
        self.value.clear();
    }

    /// Gives up the session: drops what is held and hands back `e`.
    fn fail(&mut self, e: Error) -> (r: Result<Option<ProtoOp>, Error>)
        ensures
            final(self).wf(),
            final(self)@ == ProtoView::failed(),
            outcome(r) == Outcome::Fail(e),
    {
        self.reset();
        self.buf.clear();
        self.ptr = 0;
        self.fresh = false;
        assert(self@.input =~= Seq::<u8>::empty());
        Err(e)
    }

    /// Drops what is held when the source has ended or shutdown was
    /// signalled.
    fn close(&mut self)
        requires
            old(self).wf(),
        ensures
            final(self).wf(),
            final(self)@ == old(self)@.closed(),
    {
        self.reset();
        self.buf.clear();
        self.ptr = 0;
        assert(self@.input =~= Seq::<u8>::empty());
    }

    /// Puts `chunk` into the buffer, behind the bytes that the cursor has not
    /// passed, and sets the cursor to the start.
    fn fill(&mut self, chunk: Vec<u8>)
        requires
            old(self).inv(),
            old(self).state != State::Done,
        ensures
            final(self).inv(),
            final(self).ptr == 0,
            final(self).state == old(self).state,
            final(self).fresh == old(self).fresh,
            final(self)@.draining == old(self)@.draining,
            final(self)@.input == old(self)@.input + chunk@,
    {
        let ghost pre = *self;
        let ghost bytes = chunk@;
        let mut chunk = chunk;
        let mut residual = self.buf.split_off(self.ptr);
        // Emptied and brought back to its usual capacity, so that what was
        // left over before does not make the buffer grow without bound.
        self.buf.clear();
        shrink_to(&mut self.buf, BUF_SIZE);
        self.buf.append(&mut chunk);
        if !residual.is_empty() {
            residual.append(&mut self.buf);
            std::mem::swap(&mut residual, &mut self.buf);
        }
        self.ptr = 0;
        proof {
            assert(self.buf@ =~= pre.rest() + bytes);
            assert(self.rest() =~= pre.rest() + bytes);
            assert(self.head() == pre.head());
            assert(self@.input =~= pre@.input + bytes);
        }
    }

    /// Two states that hold the same have the same to come to, where the
    /// place of the cursor plays no part or is the same.
    proof fn lemma_target_same(&self, other: Proto)
        requires
            self.begun() == other.begun(),
            (self.ptr == 0) == (other.ptr == 0) || self.begun().draining
                || self.begun().input.len() >= 4,
        ensures
            self.target() == other.target(),
    {
        reveal(Proto::target);
        if (self.ptr == 0) != (other.ptr == 0) {
            lemma_at_start_irrelevant(self.begun(), self.ptr == 0, other.ptr == 0);
        }
    }

    /// Past the operation name, four bytes or more of the request are held.
    proof fn lemma_named(&self)
        requires
            self.inv(),
            self.state != State::Start,
            self.state != State::ReadOp,
        ensures
            self@.input.len() >= 4,
    {
        assert(token(self.op).len() >= 3);
        assert(self.head().len() >= 4 || (self.head().len() == 3 && self.rest().len() >= 1));
    }

    /// A state past the operation name that holds the same as `other` has
    /// the same to come to.
    proof fn lemma_target_kept(&self, other: Proto)
        requires
            self.inv(),
            self.state != State::Start,
            self.state != State::ReadOp,
            self.begun() == other.begun(),
        ensures
            self.target() == other.target(),
    {
        self.lemma_named();
        self.lemma_target_same(other);
    }

    /// `Start`, with a line feed in the buffer: the request begins behind it.
    proof fn lemma_start_found(&self, nl: int)
        requires
            self.inv(),
            self.state == State::Start,
            !self.fresh,
            0 <= nl < self.rest().len(),
            self.rest()[nl] == NEWLINE,
            forall|i: int| 0 <= i < nl ==> self.rest()[i] != NEWLINE,
        ensures
            self.target() == poll_request(self.rest().skip(nl + 1), false),
    {
        reveal(Proto::target);
        assert(self.head() =~= Seq::<u8>::empty());
        assert(self@.input =~= self.rest());
        lemma_find_at(self.rest(), NEWLINE, 0, nl);
    }

    /// `Start`, without a line feed in the buffer: all of it is skipped.
    proof fn lemma_start_idle(&self)
        requires
            self.inv(),
            self.state == State::Start,
            !self.fresh,
            forall|i: int| 0 <= i < self.rest().len() ==> self.rest()[i] != NEWLINE,
        ensures
            self.target() == (
                Outcome::NeedRead,
                ProtoView { fresh: false, draining: true, input: Seq::empty() },
            ),
    {
        reveal(Proto::target);
        assert(self.head() =~= Seq::<u8>::empty());
        assert(self@.input =~= self.rest());
        lemma_find_none(self.rest(), NEWLINE, 0);
    }

    /// `ReadOp`: what is to come is what the bytes behind the cursor come to.
    proof fn lemma_op_target(&self)
        requires
            self.inv(),
            self.state == State::ReadOp,
            !self.fresh,
        ensures
            self@.input == self.rest(),
            self.target() == poll_request(self.rest(), self.ptr == 0),
    {
        reveal(Proto::target);
        assert(self.head() =~= Seq::<u8>::empty());
        assert(self@.input =~= self.rest());
    }

    /// `ReadKeyLen`, with something else than a colon where the field is due.
    proof fn lemma_key_len_no_colon(&self)
        requires
            self.inv(),
            self.state == State::ReadKeyLen,
            !self.between_colons,
            self.ptr < self.buf@.len(),
            self.buf@[self.ptr as int] != COLON,
        ensures
            self.target() == (Outcome::Fail(Error::ExpectedColon), ProtoView::failed()),
    {
        reveal(Proto::target);
        assert(self.rest()[0] == self.buf@[self.ptr as int]);
        assert(self@.input =~= token(Op::Echo) + self.rest());
        lemma_parse_echo_no_colon(self.rest());
    }

    /// `ReadKeyLen`, at the colon that closes a field that announces no
    /// length.
    proof fn lemma_key_len_bad(&self, e: Error)
        requires
            self.inv(),
            self.state == State::ReadKeyLen,
            self.between_colons,
            self.ptr < self.buf@.len(),
            self.buf@[self.ptr as int] == COLON,
            announced(self.key_len_buf@) == Err::<usize, Error>(e),
        ensures
            self.target() == (Outcome::Fail(e), ProtoView::failed()),
    {
        reveal(Proto::target);
        let after = self.rest().skip(1);
        assert(self.rest() =~= seq![COLON] + after);
        assert(self@.input =~= lead(self.op, self.key_len_buf@) + after);
        lemma_parse_length_bad(self.op, self.key_len_buf@, after, e);
    }

    /// `ReadKeyLen`, with the buffer used up.
    proof fn lemma_key_len_idle(&self)
        requires
            self.inv(),
            self.state == State::ReadKeyLen,
            !self.fresh,
            self.ptr == self.buf@.len(),
        ensures
            self.target() == (Outcome::NeedRead, self@),
    {
        reveal(Proto::target);
        assert(self.rest() =~= Seq::<u8>::empty());
        if self.between_colons {
            assert(self@.input =~= token(self.op) + seq![COLON] + self.key_len_buf@);
            lemma_parse_length_open(self.op, self.key_len_buf@);
        } else {
            assert(self@.input =~= token(Op::Echo));
            lemma_parse_echo_bare();
        }
    }

    /// `ReadKey` and `ReadEcho`, with the buffer used up and the payload
    /// short of what was announced.
    proof fn lemma_payload_idle(&self)
        requires
            self.inv(),
            self.state == State::ReadKey || self.state == State::ReadEcho,
            !self.fresh,
            self.ptr == self.buf@.len(),
            self.state == State::ReadKey ==> self.key@.len() < self.key_len,
            self.state == State::ReadEcho ==> self.echo@.len() < self.key_len,
        ensures
            self.target() == (Outcome::NeedRead, self@),
    {
        reveal(Proto::target);
        assert(self.rest() =~= Seq::<u8>::empty());
        if self.state == State::ReadKey {
            assert(self@.input =~= lead(self.op, self.key_len_buf@) + self.key@);
            lemma_parse_payload_short(self.op, self.key_len_buf@, self.key@);
        } else {
            assert(self@.input =~= lead(self.op, self.key_len_buf@) + self.echo@);
            lemma_parse_payload_short(self.op, self.key_len_buf@, self.echo@);
        }
    }

    /// `ReadValueLen`, with something else than a colon where the field is
    /// due.
    proof fn lemma_value_len_no_colon(&self)
        requires
            self.inv(),
            self.state == State::ReadValueLen,
            !self.between_colons,
            self.ptr < self.buf@.len(),
            self.buf@[self.ptr as int] != COLON,
        ensures
            self.target() == (Outcome::Fail(Error::ExpectedColon), ProtoView::failed()),
    {
        reveal(Proto::target);
        assert(self.rest()[0] == self.buf@[self.ptr as int]);
        assert(self@.input =~= lead(Op::Put, self.key_len_buf@) + self.key@ + self.rest());
        lemma_parse_put_no_colon(self.key_len_buf@, self.key@, self.rest());
    }

    /// `ReadValueLen`, at the colon that closes a field that announces no
    /// length.
    proof fn lemma_value_len_bad(&self, e: Error)
        requires
            self.inv(),
            self.state == State::ReadValueLen,
            self.between_colons,
            self.ptr < self.buf@.len(),
            self.buf@[self.ptr as int] == COLON,
            announced(self.value_len_buf@) == Err::<usize, Error>(e),
        ensures
            self.target() == (Outcome::Fail(e), ProtoView::failed()),
    {
        reveal(Proto::target);
        let after = self.rest().skip(1);
        assert(self.rest() =~= seq![COLON] + after);
        assert(self@.input =~= lead(Op::Put, self.key_len_buf@) + self.key@ + seq![COLON]
            + self.value_len_buf@ + seq![COLON] + after);
        lemma_parse_put_length_bad(self.key_len_buf@, self.key@, self.value_len_buf@, after, e);
    }

    /// `ReadValueLen`, with the buffer used up.
    proof fn lemma_value_len_idle(&self)
        requires
            self.inv(),
            self.state == State::ReadValueLen,
            !self.fresh,
            self.ptr == self.buf@.len(),
        ensures
            self.target() == (Outcome::NeedRead, self@),
    {
        reveal(Proto::target);
        assert(self.rest() =~= Seq::<u8>::empty());
        if self.between_colons {
            assert(self@.input =~= lead(Op::Put, self.key_len_buf@) + self.key@ + seq![COLON]
                + self.value_len_buf@);
            lemma_parse_put_length_open(self.key_len_buf@, self.key@, self.value_len_buf@);
        } else {
            assert(self@.input =~= lead(Op::Put, self.key_len_buf@) + self.key@);
            lemma_parse_put_bare(self.key_len_buf@, self.key@);
        }
        self.lemma_named();
    }

    /// `ReadValue`, with the buffer used up and the value short of what was
    /// announced.
    proof fn lemma_value_idle(&self)
        requires
            self.inv(),
            self.state == State::ReadValue,
            !self.fresh,
            self.ptr == self.buf@.len(),
            self.value@.len() < self.value_len,
        ensures
            self.target() == (Outcome::NeedRead, self@),
    {
        reveal(Proto::target);
        assert(self.rest() =~= Seq::<u8>::empty());
        assert(self@.input =~= lead(Op::Put, self.key_len_buf@) + self.key@ + seq![COLON]
            + self.value_len_buf@ + seq![COLON] + self.value@);
        lemma_parse_put_value_short(
            self.key_len_buf@,
            self.key@,
            self.value_len_buf@,
            self.value@,
        );
        self.lemma_named();
    }

    /// `Done`: the request that the fields hold, or the failure of its key.
    proof fn lemma_done(&self)
        requires
            self.inv(),
            self.state == State::Done,
            !self.fresh,
        ensures
            self.target() == (if self.op != Op::Echo && !valid_utf8(self.key@) {
                (Outcome::Fail(Error::InvalidKey), ProtoView::failed())
            } else {
                (
                    Outcome::Op(
                        match self.op {
                            Op::Get => ProtoOpView::Get { key: decode_utf8(self.key@) },
                            Op::Echo => ProtoOpView::Echo { msg: self.echo@ },
                            Op::Put => ProtoOpView::Put {
                                key: decode_utf8(self.key@),
                                value: self.value@,
                            },
                        },
                    ),
                    ProtoView { fresh: false, draining: true, input: self.rest() },
                )
            }),
    {
        reveal(Proto::target);
        let rest = self.rest();
        match self.op {
            Op::Get => {
                lemma_parse_get(self.key_len_buf@, self.key@, rest);
            },
            Op::Echo => {
                lemma_parse_echo(self.key_len_buf@, self.echo@, rest);
            },
            Op::Put => {
                lemma_parse_put(
                    self.key_len_buf@,
                    self.key@,
                    self.value_len_buf@,
                    self.value@,
                    rest,
                );
            },
        }
        assert(self@.input.skip(self.head().len() as int) =~= rest);
    }

    /// `Start`: a reader that has yielded a request skips the rest of that
    /// request's line; a new one goes straight on.
    fn on_start(&mut self) -> (step: Step)
        requires
            old(self).inv(),
            old(self).state == State::Start,
        ensures
            final(self).stepped(*old(self), step),
    {
        let ghost pre = *self;
        if self.fresh {
            self.state = State::ReadOp;
            self.fresh = false;
            proof {
                assert(self.begun() == pre.begun());
                self.lemma_target_same(pre);
            }
            return Step::Continue;
        }
        while self.ptr < self.buf.len()
            invariant
                *self == (Proto { ptr: self.ptr, ..pre }),
                pre == *old(self),
                pre.inv(),
                pre.state == State::Start,
                !pre.fresh,
                pre.ptr <= self.ptr <= self.buf@.len(),
                forall|j: int| pre.ptr <= j < self.ptr ==> self.buf@[j] != NEWLINE,
            decreases self.buf@.len() - self.ptr,
        {
            if self.buf[self.ptr] == NEWLINE {
                let ghost nl = self.ptr - pre.ptr;
                proof {
                    assert(pre.rest()[nl] == self.buf@[self.ptr as int]);
                    assert forall|i: int| 0 <= i < nl implies pre.rest()[i] != NEWLINE by {
                        assert(pre.rest()[i] == self.buf@[pre.ptr + i]);
                    }
                    pre.lemma_start_found(nl);
                }
                self.ptr += 1;
                self.state = State::ReadOp;
                proof {
                    assert(self.rest() =~= pre.rest().skip(nl + 1));
                    self.lemma_op_target();
                }
                return Step::Continue;
            }
            self.ptr += 1;
        }
        proof {
            assert forall|i: int| 0 <= i < pre.rest().len() implies pre.rest()[i] != NEWLINE by {
                assert(pre.rest()[i] == self.buf@[pre.ptr + i]);
            }
            pre.lemma_start_idle();
            assert(self.head() =~= Seq::<u8>::empty());
            assert(self@.input =~= Seq::<u8>::empty());
        }
        Step::Yield(Ok(None))
    }

    /// `ReadOp`: the next four bytes name the operation.
    fn on_read_op(&mut self) -> (step: Step)
        requires
            old(self).inv(),
            old(self).state == State::ReadOp,
            !old(self).fresh,
        ensures
            final(self).stepped(*old(self), step),
    {
        let ghost pre = *self;
        proof {
            pre.lemma_op_target();
        }
        if self.buf.len() - self.ptr < MIN_BUF_SIZE {
            if self.ptr == 0 {
                // Fewer than four bytes at the start of a buffer: taken as
                // a malformed request, not as a name that is still arriving.
                return Step::Yield(self.fail(Error::ShortOp));
            }
            return Step::Yield(Ok(None));
        }
        let b0 = self.buf[self.ptr];
        let b1 = self.buf[self.ptr + 1];
        let b2 = self.buf[self.ptr + 2];
        let b3 = self.buf[self.ptr + 3];
        proof {
            assert(pre.rest()[0] == b0 && pre.rest()[1] == b1 && pre.rest()[2] == b2
                && pre.rest()[3] == b3);
        }
        if b0 == 71 && b1 == 69 && b2 == 84 && b3 == COLON {
            self.op = Op::Get;
            self.ptr += 3;
        } else if b0 == 83 && b1 == 69 && b2 == 84 && b3 == COLON {
            self.op = Op::Put;
            self.ptr += 3;
        } else if b0 == 69 && b1 == 67 && b2 == 72 && b3 == 79 {
            self.op = Op::Echo;
            self.ptr += 4;
        } else {
            return Step::Yield(self.fail(Error::UnknownOp));
        }
        // On to the length, for `ECHO` too: its message has one as a key has.
        self.state = State::ReadKeyLen;
        proof {
            assert(self@.input =~= pre@.input);
            self.lemma_target_kept(pre);
        }
        Step::Continue
    }

    /// `ReadKeyLen`: a colon, the digits of the length of the key or of the
    /// message, and a colon.
    fn on_read_key_len(&mut self) -> (step: Step)
        requires
            old(self).inv(),
            old(self).state == State::ReadKeyLen,
            !old(self).fresh,
        ensures
            final(self).stepped(*old(self), step),
    {
        let ghost pre = *self;
        while self.ptr < self.buf.len()
            invariant
                *self == (Proto {
                    ptr: self.ptr,
                    between_colons: self.between_colons,
                    key_len_buf: self.key_len_buf,
                    ..pre
                }),
                pre == *old(self),
                pre.state == State::ReadKeyLen,
                !pre.fresh,
                self.inv(),
                self@.input == pre@.input,
            decreases self.buf@.len() - self.ptr,
        {
            let b = self.buf[self.ptr];
            let ghost input = self@.input;
            let ghost after = self.rest().skip(1);
            proof {
                assert(self.rest() =~= seq![b] + after);
                self.lemma_target_kept(pre);
            }
            if !self.between_colons {
                if b != COLON {
                    proof {
                        self.lemma_key_len_no_colon();
                    }
                    return Step::Yield(self.fail(Error::ExpectedColon));
                }
                self.between_colons = true;
                self.ptr += 1;
                proof {
                    assert(self.rest() =~= after);
                    assert(self@.input =~= input);
                }
            } else if b == COLON {
                match parse_length(self.key_len_buf.as_slice()) {
                    Err(e) => {
                        proof {
                            self.lemma_key_len_bad(e);
                        }
                        return Step::Yield(self.fail(e));
                    },
                    Ok(n) => {
                        self.between_colons = false;
                        self.ptr += 1;
                        self.key_len = n;
                        if self.op == Op::Echo {
                            self.state = State::ReadEcho;
                        } else {
                            self.state = State::ReadKey;
                        }
                        proof {
                            assert(self.rest() =~= after);
                            assert(self@.input =~= input);
                            self.lemma_target_kept(pre);
                        }
                        return Step::Continue;
                    },
                }
            } else {
                self.key_len_buf.push(b);
                self.ptr += 1;
                proof {
                    assert(self.rest() =~= after);
                    assert(self@.input =~= input);
                }
            }
        }
        proof {
            self.lemma_target_kept(pre);
            self.lemma_key_len_idle();
        }
        Step::Yield(Ok(None))
    }

    /// `ReadKey`: the bytes of the key, as many as were announced.
    fn on_read_key(&mut self) -> (step: Step)
        requires
            old(self).inv(),
            old(self).state == State::ReadKey,
            !old(self).fresh,
        ensures
            final(self).stepped(*old(self), step),
    {
        let ghost pre = *self;
        while self.ptr < self.buf.len() && self.key.len() < self.key_len
            invariant
                *self == (Proto { ptr: self.ptr, key: self.key, ..pre }),
                pre == *old(self),
                pre.state == State::ReadKey,
                !pre.fresh,
                self.inv(),
                self@.input == pre@.input,
            decreases self.buf@.len() - self.ptr,
        {
            let b = self.buf[self.ptr];
            let ghost input = self@.input;
            let ghost after = self.rest().skip(1);
            proof {
                assert(self.rest() =~= seq![b] + after);
            }
            self.key.push(b);
            self.ptr += 1;
            proof {
                assert(self.rest() =~= after);
                assert(self@.input =~= input);
            }
        }
        let ghost input = self@.input;
        if self.key.len() >= self.key_len {
            if self.op == Op::Get {
                self.state = State::Done;
            } else {
                self.state = State::ReadValueLen;
            }
            proof {
                assert(self@.input =~= input);
                self.lemma_target_kept(pre);
            }
            Step::Continue
        } else {
            proof {
                self.lemma_target_kept(pre);
                self.lemma_payload_idle();
            }
            Step::Yield(Ok(None))
        }
    }

    /// `ReadEcho`: the bytes of the message, as many as were announced.
    fn on_read_echo(&mut self) -> (step: Step)
        requires
            old(self).inv(),
            old(self).state == State::ReadEcho,
            !old(self).fresh,
        ensures
            final(self).stepped(*old(self), step),
    {
        let ghost pre = *self;
        while self.ptr < self.buf.len() && self.echo.len() < self.key_len
            invariant
                *self == (Proto { ptr: self.ptr, echo: self.echo, ..pre }),
                pre == *old(self),
                pre.state == State::ReadEcho,
                !pre.fresh,
                self.inv(),
                self@.input == pre@.input,
            decreases self.buf@.len() - self.ptr,
        {
            let b = self.buf[self.ptr];
            let ghost input = self@.input;
            let ghost after = self.rest().skip(1);
            proof {
                assert(self.rest() =~= seq![b] + after);
            }
            self.echo.push(b);
            self.ptr += 1;
            proof {
                assert(self.rest() =~= after);
                assert(self@.input =~= input);
            }
        }
        let ghost input = self@.input;
        if self.echo.len() >= self.key_len {
            self.state = State::Done;
            proof {
                assert(self@.input =~= input);
                self.lemma_target_kept(pre);
            }
            Step::Continue
        } else {
            proof {
                self.lemma_target_kept(pre);
                self.lemma_payload_idle();
            }
            Step::Yield(Ok(None))
        }
    }

    /// `ReadValueLen`: a colon, the digits of the length of the value, and a
    /// colon.
    fn on_read_value_len(&mut self) -> (step: Step)
        requires
            old(self).inv(),
            old(self).state == State::ReadValueLen,
            !old(self).fresh,
        ensures
            final(self).stepped(*old(self), step),
    {
        let ghost pre = *self;
        while self.ptr < self.buf.len()
            invariant
                *self == (Proto {
                    ptr: self.ptr,
                    between_colons: self.between_colons,
                    value_len_buf: self.value_len_buf,
                    ..pre
                }),
                pre == *old(self),
                pre.state == State::ReadValueLen,
                !pre.fresh,
                self.inv(),
                self@.input == pre@.input,
            decreases self.buf@.len() - self.ptr,
        {
            let b = self.buf[self.ptr];
            let ghost input = self@.input;
            let ghost after = self.rest().skip(1);
            proof {
                assert(self.rest() =~= seq![b] + after);
                self.lemma_target_kept(pre);
            }
            if !self.between_colons {
                if b != COLON {
                    proof {
                        self.lemma_value_len_no_colon();
                    }
                    return Step::Yield(self.fail(Error::ExpectedColon));
                }
                self.between_colons = true;
                self.ptr += 1;
                proof {
                    assert(self.rest() =~= after);
                    assert(self@.input =~= input);
                }
            } else if b == COLON {
                match parse_length(self.value_len_buf.as_slice()) {
                    Err(e) => {
                        proof {
                            self.lemma_value_len_bad(e);
                        }
                        return Step::Yield(self.fail(e));
                    },
                    Ok(n) => {
                        self.between_colons = false;
                        self.ptr += 1;
                        self.value_len = n;
                        self.state = State::ReadValue;
                        proof {
                            assert(self.rest() =~= after);
                            assert(self@.input =~= input);
                            self.lemma_target_kept(pre);
                        }
                        return Step::Continue;
                    },
                }
            } else {
                self.value_len_buf.push(b);
                self.ptr += 1;
                proof {
                    assert(self.rest() =~= after);
                    assert(self@.input =~= input);
                }
            }
        }
        proof {
            self.lemma_target_kept(pre);
            self.lemma_value_len_idle();
        }
        Step::Yield(Ok(None))
    }

    /// `ReadValue`: the bytes of the value, as many as were announced.
    fn on_read_value(&mut self) -> (step: Step)
        requires
            old(self).inv(),
            old(self).state == State::ReadValue,
            !old(self).fresh,
        ensures
            final(self).stepped(*old(self), step),
    {
        let ghost pre = *self;
        while self.ptr < self.buf.len() && self.value.len() < self.value_len
            invariant
                *self == (Proto { ptr: self.ptr, value: self.value, ..pre }),
                pre == *old(self),
                pre.state == State::ReadValue,
                !pre.fresh,
                self.inv(),
                self@.input == pre@.input,
            decreases self.buf@.len() - self.ptr,
        {
            let b = self.buf[self.ptr];
            let ghost input = self@.input;
            let ghost after = self.rest().skip(1);
            proof {
                assert(self.rest() =~= seq![b] + after);
            }
            self.value.push(b);
            self.ptr += 1;
            proof {
                assert(self.rest() =~= after);
                assert(self@.input =~= input);
            }
        }
        let ghost input = self@.input;
        if self.value.len() >= self.value_len {
            self.state = State::Done;
            proof {
                assert(self@.input =~= input);
                self.lemma_target_kept(pre);
            }
            Step::Continue
        } else {
            proof {
                self.lemma_target_kept(pre);
                self.lemma_value_idle();
            }
            Step::Yield(Ok(None))
        }
    }

    /// `Done`: the key is checked for UTF-8 and the request is handed out.
    fn on_done(&mut self) -> (step: Step)
        requires
            old(self).inv(),
            old(self).state == State::Done,
            !old(self).fresh,
        ensures
            final(self).stepped(*old(self), step),
            step is Yield,
    {
        let ghost pre = *self;
        let ghost rest = self.rest();
        proof {
            pre.lemma_done();
        }
        let mut key: Vec<u8> = Vec::new();
        std::mem::swap(&mut self.key, &mut key);
        match string_from_utf8(key) {
            None => Step::Yield(self.fail(Error::InvalidKey)),
            Some(key) => {
                let op = match self.op {
                    Op::Echo => {
                        let mut msg: Vec<u8> = Vec::new();
                        std::mem::swap(&mut self.echo, &mut msg);
                        ProtoOp::Echo { msg }
                    },
                    Op::Get => ProtoOp::Get { key },
                    Op::Put => {
                        let mut value: Vec<u8> = Vec::new();
                        std::mem::swap(&mut self.value, &mut value);
                        ProtoOp::Put { key, value }
                    },
                };
                self.reset();
                proof {
                    assert(self.head() =~= Seq::<u8>::empty());
                    assert(self@.input =~= rest);
                }
                Step::Yield(Ok(Some(op)))
            },
        }
    }

    /// Drives the machine: runs it on what is buffered until a
    /// request is complete, the input is found malformed, or the buffer has
    /// no more to give.
    fn advance(&mut self) -> (r: Result<Option<ProtoOp>, Error>)
        requires
            old(self).inv(),
            old(self).state != State::Done,
            old(self).state != State::Start ==> !old(self).fresh,
        ensures
            final(self).wf(),
            outcome(r) == old(self).target().0,
            final(self)@ == old(self).target().1,
    {
        let ghost pre = *self;
        let mut done: Option<Result<Option<ProtoOp>, Error>> = None;
        while done.is_none()
            invariant
                done is None ==> self.inv() && (self.state != State::Start ==> !self.fresh)
                    && self.target() == pre.target(),
                done matches Some(r) ==> self.wf() && outcome(r) == pre.target().0 && self@
                    == pre.target().1,
            decreases (if done is None { self.rank() } else { 0 }),
        {
            let step = match self.state {
                State::Start => self.on_start(),
                State::ReadOp => self.on_read_op(),
                State::ReadKeyLen => self.on_read_key_len(),
                State::ReadKey => self.on_read_key(),
                State::ReadEcho => self.on_read_echo(),
                State::ReadValueLen => self.on_read_value_len(),
                State::ReadValue => self.on_read_value(),
                State::Done => self.on_done(),
            };
            match step {
                Step::Continue => {},
                Step::Yield(r) => {
                    done = Some(r);
                },
            }
        }
        done.unwrap()
    }

    /// Hands out the next request if the bytes that the reader holds
    /// complete one, and `None` where the source has to be read first.
    ///
    /// On a new reader that is at once. On one that has yielded a request,
    /// the rest of that request's line is skipped first. The result is that
    /// of `poll` on what the reader holds; since no fill came before, the
    /// cursor does not count as being at the start of the buffer.
    pub fn read(&mut self) -> (r: Result<Option<ProtoOp>, Error>)
        requires
            old(self).wf(),
        ensures
            final(self).wf(),
            outcome(r) == poll(old(self)@, false).0,
            final(self)@ == poll(old(self)@, false).1,
    {
        if self.fresh {
            return Ok(None);
        }
        proof {
            reveal(Proto::target);
            if self.state != State::ReadOp {
                if self.state != State::Start {
                    self.lemma_named();
                }
                lemma_at_start_irrelevant(self.begun(), self.ptr == 0, false);
            }
        }
        self.advance()
    }

    /// Takes what the last read from the source brought and goes on from
    /// where `read` or `resume` stopped.
    ///
    /// Bytes are put into the buffer, behind those that the cursor has not
    /// passed, and the cursor goes to the start of the buffer. The end of the
    /// source is handed out as `SysClose` and a shutdown as `Cancelled`; both
    /// drop what the reader holds.
    pub fn resume(&mut self, input: ProtoRead) -> (r: Result<Option<ProtoOp>, Error>)
        requires
            old(self).wf(),
        ensures
            final(self).wf(),
            outcome(r) == resumed(old(self)@, input).0,
            final(self)@ == resumed(old(self)@, input).1,
    {
        match input {
            ProtoRead::Eof => {
                self.close();
                Ok(Some(ProtoOp::SysClose))
            },
            ProtoRead::Cancelled => {
                self.close();
                Ok(Some(ProtoOp::Cancelled))
            },
            ProtoRead::Read(chunk) => {
                self.fill(chunk);
                proof {
                    reveal(Proto::target);
                    assert(self.begun() == old(self)@.fed(chunk@));
                }
                self.advance()
            },
        }
    }
}

} // verus!
