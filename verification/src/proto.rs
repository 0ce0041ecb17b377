//! The wire protocol: requests in, framed responses out.
//!
//! Requests are `GET:<klen>:<key>\n`, `SET:<klen>:<key>:<vlen>:<value>\n` and
//! `ECHO:<mlen>:<msg>\n`. Lengths are decimal; payloads are taken verbatim for
//! exactly the announced length, so they may hold any byte.

pub mod decimal;
pub mod grammar;
pub mod reader;
pub mod stream;
pub mod wire;
pub mod writer;

use vstd::prelude::*;

use crate::proto::grammar::Op;

verus! {

/// The capacity that the reader's buffer is brought back to before each
/// fill, and so the number of bytes worth asking of the source at once.
pub const BUF_SIZE: usize = 256;

/// Where the reader stands within a request.
#[derive(Clone, Copy, Debug, PartialEq, Eq, Structural)]
enum State {
    /// Before a request: on a reader that has yielded one, the rest of its
    /// line is still to be skipped.
    Start,
    ReadOp,
    ReadKeyLen,
    ReadKey,
    ReadEcho,
    ReadValueLen,
    ReadValue,
    Done,
}

/// The reader and writer of one session.
///
/// The reader is a state machine that is fed the bytes of the session read
/// by read and keeps its place between them. It does no I/O itself: `read`
/// works on what is buffered, and `resume` takes what the last read from the
/// source brought.
pub struct Proto {
    /// The bytes of the last fill, behind what the fill before left over.
    buf: Vec<u8>,
    /// The cursor into `buf`: the first byte not yet looked at.
    ptr: usize,
    /// Whether no request has been begun yet.
    fresh: bool,
    state: State,
    op: Op,
    /// Whether the cursor stands inside a length field.
    between_colons: bool,
    key_len_buf: Vec<u8>,
    key_len: usize,
    key: Vec<u8>,
    echo: Vec<u8>,
    value_len_buf: Vec<u8>,
    value_len: usize,
    value: Vec<u8>,
}

/// One request as the reader hands it out, or the reason why none will come.
#[derive(Clone, Eq, PartialEq, Debug)]
pub enum ProtoOp {
    Get { key: String },
    /// A `SET` request.
    Put { key: String, value: Vec<u8> },
    Echo { msg: Vec<u8> },
    /// The peer closed the stream.
    SysClose,
    /// Shutdown was signalled while the reader waited for bytes.
    Cancelled,
}

/// A `ProtoOp` with its text and bytes as sequences.
pub enum ProtoOpView {
    Get { key: Seq<char> },
    Put { key: Seq<char>, value: Seq<u8> },
    Echo { msg: Seq<u8> },
    SysClose,
    Cancelled,
}

impl View for ProtoOp {
    type V = ProtoOpView;

    open spec fn view(&self) -> ProtoOpView {
        match self {
            ProtoOp::Get { key } => ProtoOpView::Get { key: key@ },
            ProtoOp::Put { key, value } => ProtoOpView::Put { key: key@, value: value@ },
            ProtoOp::Echo { msg } => ProtoOpView::Echo { msg: msg@ },
            ProtoOp::SysClose => ProtoOpView::SysClose,
            ProtoOp::Cancelled => ProtoOpView::Cancelled,
        }
    }
}

/// What one read from the byte source brought.
#[derive(Clone, Eq, PartialEq, Debug)]
pub enum ProtoRead {
    /// The bytes of one read, in order. May be empty.
    Read(Vec<u8>),
    /// The source is at its end.
    Eof,
    /// Shutdown was signalled before any byte came.
    Cancelled,
}

} // verus!
