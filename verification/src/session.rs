//! One session: each request is answered from the store, in the order in
//! which the requests came.

use crate::proto::decimal::decimal;
use crate::proto::grammar::{parse, token, Op, Parse, COLON, NEWLINE};
use crate::proto::wire::{body, fits, lemma_parse_body};
use crate::proto::writer::{frame, null_frame};
use crate::proto::{Proto, ProtoOp, ProtoOpView};
use crate::store::lsm::LSMStore;
use crate::store::{
    key_fits, lemma_apply_one, Instruction, StoreView, TransactInstruction, Transaction,
};
use vstd::prelude::*;

verus! {

/// The bytes that answer `op`, if it is answered, and the store afterwards.
///
/// A `GET` is answered with the value in its frame, or with `null` where
/// the key has none. A `SET` is a transaction of one write and is answered
/// with the length of the value; where its key is too long for the store,
/// nothing is written and nothing answered, which ends the session. An
/// `ECHO` is answered with its message. The end of the stream and a
/// shutdown are not answered.
pub open spec fn reply(store: StoreView, op: ProtoOpView) -> (Option<Seq<u8>>, StoreView) {
    match op {
        ProtoOpView::Get { key } => (
            Some(
                match store.get(key) {
                    Some(value) => frame(value),
                    None => null_frame(),
                },
            ),
            store,
        ),
        ProtoOpView::Put { key, value } => (
            if key_fits(key) {
                Some(frame(decimal(value.len())))
            } else {
                None
            },
            store.transact(seq![Instruction::Put(key, value)]),
        ),
        ProtoOpView::Echo { msg } => (Some(frame(msg)), store),
        ProtoOpView::SysClose => (None, store),
        ProtoOpView::Cancelled => (None, store),
    }
}

/// The bytes of a response, as a sequence.
pub open spec fn bytes_view(out: Option<Vec<u8>>) -> Option<Seq<u8>> {
    match out {
        Some(bytes) => Some(bytes@),
        None => None,
    }
}

/// Answers `op` from `store`: the bytes to send, or `None` where the
/// session ends without an answer.
pub fn respond(proto: &Proto, store: &mut LSMStore, op: &ProtoOp) -> (out: Option<Vec<u8>>)
    requires
        old(store).wf(),
    ensures
        final(store).wf(),
        bytes_view(out) == reply(old(store)@, op@).0,
        final(store)@ == reply(old(store)@, op@).1,
{
    match op {
        ProtoOp::Get { key } => {
            match store.get(key.as_str()) {
                Some(value) => Some(proto.write_get_result(value.as_slice())),
                None => Some(proto.write_null()),
            }
        },
        ProtoOp::Put { key, value } => {
            let mut instructions: Vec<TransactInstruction<'_>> = Vec::new();
            instructions.push(TransactInstruction::Put(key.as_str(), value.as_slice()));
            let transaction = Transaction { instructions };
            proof {
                assert(transaction@ =~= seq![Instruction::Put(key@, value@)]);
                assert(transaction@[0].key() == key@);
                lemma_apply_one(store@, Instruction::Put(key@, value@));
            }
            match store.transact(transaction) {
                Ok(()) => Some(proto.write_set_result(value.as_slice())),
                Err(_) => None,
            }
        },
        ProtoOp::Echo { msg } => Some(proto.write_echo(msg.as_slice())),
        ProtoOp::SysClose => None,
        ProtoOp::Cancelled => None,
    }
}

/// An `ECHO` comes back as it went out: the request is read as the message
/// it carries, whatever bytes that holds, and the response is the request
/// without the operation name and its colon.
pub proof fn lemma_echo_round_trip(store: StoreView, msg: Seq<u8>, rest: Seq<u8>)
    requires
        msg.len() <= usize::MAX,
    ensures
        parse(body(ProtoOpView::Echo { msg }) + rest) == (Parse::Complete {
            op: ProtoOpView::Echo { msg },
            consumed: body(ProtoOpView::Echo { msg }).len(),
        }),
        reply(store, ProtoOpView::Echo { msg }) == (Some(frame(msg)), store),
        body(ProtoOpView::Echo { msg }) + seq![NEWLINE] == token(Op::Echo) + seq![COLON] + frame(
            msg,
        ),
{
    lemma_parse_body(ProtoOpView::Echo { msg }, rest);
    assert(body(ProtoOpView::Echo { msg }) + seq![NEWLINE] =~= token(Op::Echo) + seq![COLON]
        + frame(msg));
}

/// A `GET` that follows a `SET` of the same key is answered with the value
/// that was set, in its frame. Both requests are read as what they were
/// written for.
pub proof fn lemma_set_then_get(store: StoreView, key: Seq<char>, value: Seq<u8>, rest: Seq<u8>)
    requires
        fits(ProtoOpView::Put { key, value }),
        key_fits(key),
    ensures
        parse(body(ProtoOpView::Put { key, value }) + rest) == (Parse::Complete {
            op: ProtoOpView::Put { key, value },
            consumed: body(ProtoOpView::Put { key, value }).len(),
        }),
        parse(body(ProtoOpView::Get { key }) + rest) == (Parse::Complete {
            op: ProtoOpView::Get { key },
            consumed: body(ProtoOpView::Get { key }).len(),
        }),
        reply(store, ProtoOpView::Put { key, value }).0 == Some(frame(decimal(value.len()))),
        reply(reply(store, ProtoOpView::Put { key, value }).1, ProtoOpView::Get { key }).0 == Some(
            frame(value),
        ),
{
    lemma_parse_body(ProtoOpView::Put { key, value }, rest);
    lemma_parse_body(ProtoOpView::Get { key }, rest);
    let put = seq![Instruction::Put(key, value)];
    assert(put[0].key() == key);
    lemma_apply_one(store, Instruction::Put(key, value));
}

/// A `GET` that follows a `SET` and then a delete of the same key is
/// answered with `null`.
pub proof fn lemma_set_delete_get(store: StoreView, key: Seq<char>, value: Seq<u8>)
    requires
        key_fits(key),
    ensures
        reply(
            reply(store, ProtoOpView::Put { key, value }).1.transact(
                seq![Instruction::Delete(key)],
            ),
            ProtoOpView::Get { key },
        ).0 == Some(null_frame()),
{
    let put = seq![Instruction::Put(key, value)];
    let delete = seq![Instruction::Delete(key)];
    assert(put[0].key() == key && delete[0].key() == key);
    lemma_apply_one(store, Instruction::Put(key, value));
    lemma_apply_one(store.transact(put), Instruction::Delete(key));
}

} // verus!
