//! The writer: the frames in which responses go out.
//!
//! The functions build the bytes of a frame; sending them is left to the
//! caller.

use crate::proto::decimal::{decimal, to_decimal};
use crate::proto::grammar::{COLON, NEWLINE};
use crate::proto::Proto;
use bytes::{Buf, BufMut};
use vstd::prelude::*;

verus! {

/// The response to a `GET` for a key that has no value: `null` and a line
/// feed.
pub open spec fn null_frame() -> Seq<u8> {
    seq![110u8, 117u8, 108u8, 108u8, NEWLINE]
}

/// The frame of `payload`: its length in decimal, a colon, the payload as
/// it is, and a line feed.
pub open spec fn frame(payload: Seq<u8>) -> Seq<u8> {
    decimal(payload.len()) + seq![COLON] + payload + seq![NEWLINE]
}

/// `bytes::Buf::chain` on two byte slices, copied out by `bytes::BufMut::put`:
/// the bytes of `head` and behind them those of `tail`. The call fails only
/// where memory for the copy cannot be had.
#[verifier::external_body]
fn chain(head: &[u8], tail: &[u8]) -> (out: Vec<u8>)
    ensures
        out@ == head@ + tail@,
{
    let mut out: Vec<u8> = Vec::new();
    out.put(Buf::chain(head, tail));
    out
}

/// The frame of `payload`.
fn framed(payload: &[u8]) -> (out: Vec<u8>)
    ensures
        out@ == frame(payload@),
{
    let len = to_decimal(payload.len());
    let mut colon: Vec<u8> = Vec::new();
    colon.push(COLON);
    let mut end: Vec<u8> = Vec::new();
    end.push(NEWLINE);
    let head = chain(len.as_slice(), colon.as_slice());
    let body = chain(head.as_slice(), payload);
    let out = chain(body.as_slice(), end.as_slice());
    assert(colon@ =~= seq![COLON]);
    assert(end@ =~= seq![NEWLINE]);
    out
}

impl Proto {
    /// The response to a `GET` that found nothing.
    pub fn write_null(&self) -> (out: Vec<u8>)
        ensures
            out@ == null_frame(),
    {
        let mut out: Vec<u8> = Vec::new();
        out.push(110);
        out.push(117);
        out.push(108);
        out.push(108);
        out.push(NEWLINE);
        assert(out@ =~= null_frame());
        out
    }

    /// The response to an `ECHO`: the message in its frame.
    pub fn write_echo(&self, data: &[u8]) -> (out: Vec<u8>)
        ensures
            out@ == frame(data@),
    {
        framed(data)
    }

    /// The response to a `GET` that found `data`: the value in its frame.
    pub fn write_get_result(&self, data: &[u8]) -> (out: Vec<u8>)
        ensures
            out@ == frame(data@),
    {
        framed(data)
    }

    /// The response to a `SET` that stored `data`: the length of the value,
    /// written in decimal, in a frame of its own.
    pub fn write_set_result(&self, data: &[u8]) -> (out: Vec<u8>)
        ensures
            out@ == frame(decimal(data@.len())),
    {
        let len = to_decimal(data.len());
        framed(len.as_slice())
    }
}

} // verus!
