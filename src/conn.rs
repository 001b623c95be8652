//! What a connection does with the bytes it has received: read one request,
//! run it, and say what to write back.
use vstd::prelude::*;
use vstd::utf8::encode_utf8;
use bytes::BytesMut;
use crate::backend::Backend;
use crate::buffer::{buffer_bytes, typed_decode, RespDecode};
use crate::cmd::{
    array_items, command_spec, fault_of, hkv_after, kv_after, reply_fits, Command, CommandError,
    CommandExecutor,
};
use crate::decode::{error_fits, RespDecodeError};
use crate::encode::{encode, RespEncode};
use crate::frame::{frame_model, Frame, RespArray, RespFrame, RespSimpleError};
use crate::grammar::Parsed;

verus! {

/// The text of the error reply for a command error.
pub open spec fn command_error_text(e: CommandError) -> Seq<char> {
    match e {
        CommandError::InvalidCommand(m) => m@,
        CommandError::InvalidCommandArguments(m) => m@,
        CommandError::RespError(_) => "invalid frame"@,
        CommandError::FromUtf8Error => "key or field is not UTF-8"@,
    }
}

/// The text of the error reply for a frame that could not be read.
pub open spec fn decode_error_text(e: RespDecodeError) -> Seq<char> {
    match e {
        RespDecodeError::InvalidFrame(m) => m@,
        RespDecodeError::InvalidFrameType(m) => m@,
        RespDecodeError::NotComplete => "Frame is not complete"@,
        RespDecodeError::ParseError => "Frame parse error"@,
    }
}

impl CommandError {
    /// A short description, for the error reply.
    pub fn message(&self) -> (r: String)
        ensures
            r@ == command_error_text(*self),
    {
        match self {
            CommandError::InvalidCommand(m) => m.clone(),
            CommandError::InvalidCommandArguments(m) => m.clone(),
            CommandError::RespError(_) => "invalid frame".to_owned(),
            CommandError::FromUtf8Error => "key or field is not UTF-8".to_owned(),
        }
    }
}

impl RespDecodeError {
    /// A short description, for the error reply.
    pub fn message(&self) -> (r: String)
        ensures
            r@ == decode_error_text(*self),
    {
        match self {
            RespDecodeError::InvalidFrame(m) => m.clone(),
            RespDecodeError::InvalidFrameType(m) => m.clone(),
            RespDecodeError::NotComplete => "Frame is not complete".to_owned(),
            RespDecodeError::ParseError => "Frame parse error".to_owned(),
        }
    }
}

/// Runs the command that an array frame stands for. When the array is not
/// a command, the answer is a simple error and the store is unchanged.
pub fn request_response(frame: RespArray, backend: &mut Backend) -> (r: RespFrame)
    ensures
        match command_spec(array_items(frame)) {
            Ok(c) => reply_fits(c, old(backend).kv(), old(backend).hkv(), r@) && final(backend).kv()
                == kv_after(c, old(backend).kv()) && final(backend).hkv() == hkv_after(
                c,
                old(backend).hkv(),
            ),
            Err(fault) => *final(backend) == *old(backend) && exists|e: CommandError|
                fault_of(e) == Some(fault) && r@ == Frame::SimpleError(
                    encode_utf8(#[trigger] command_error_text(e)),
                ),
        },
{
    match Command::try_from(frame) {
        Ok(cmd) => cmd.execute(backend),
        Err(e) => {
            let r = RespFrame::Error(RespSimpleError(e.message()));
            assert(r@ == Frame::SimpleError(encode_utf8(command_error_text(e))));
            r
        },
    }
}

/// What to do after looking at the received bytes.
pub enum Step {
    /// The request is not complete: read more bytes and look again.
    NeedMore,
    /// Write these bytes, then look at the rest of the buffer.
    Reply(Vec<u8>),
    /// The bytes are not a request: write these bytes and close.
    Fail(Vec<u8>),
}

/// The reply `r` answers the request `items`, against the store before and
/// after it.
pub open spec fn answers(
    items: Option<Seq<Frame>>,
    before: Backend,
    after: Backend,
    r: Frame,
) -> bool {
    match command_spec(items) {
        Ok(c) => reply_fits(c, before.kv(), before.hkv(), r) && after.kv() == kv_after(c, before.kv())
            && after.hkv() == hkv_after(c, before.hkv()),
        Err(fault) => after == before && exists|e: CommandError|
            fault_of(e) == Some(fault) && r == Frame::SimpleError(
                encode_utf8(#[trigger] command_error_text(e)),
            ),
    }
}

/// Reads one request (an array frame) from the front of `buf` and runs it.
/// On an incomplete request nothing changes; on a request the buffer moves
/// past it and the reply is its answer, encoded; on bytes that are not a
/// frame the reply is an encoded simple error.
pub fn serve_one(buf: &mut BytesMut, backend: &mut Backend) -> (r: Step)
    ensures
        r is Reply ==> buffer_bytes(*final(buf)).len() < buffer_bytes(*old(buf)).len(),
        typed_decode(buffer_bytes(*old(buf)), Some(42u8)) matches Parsed::Done(_, n) ==> 3 <= n
            <= buffer_bytes(*old(buf)).len(),
        match typed_decode(buffer_bytes(*old(buf)), Some(42u8)) {
            Parsed::Done(f, n) => buffer_bytes(*final(buf)) == buffer_bytes(*old(buf)).skip(n)
                && f is Array && r is Reply && exists|reply: Frame|
                #![trigger encode(reply)]
                r->Reply_0@ == encode(reply) && answers(f->Array_0, *old(backend), *final(backend), reply),
            Parsed::Incomplete => r is NeedMore && buffer_bytes(*final(buf)) == buffer_bytes(*old(buf))
                && *final(backend) == *old(backend),
            other => r is Fail && *final(backend) == *old(backend) && buffer_bytes(*final(buf))
                == buffer_bytes(*old(buf)) && exists|e: RespDecodeError|
                error_fits(e, other) && r->Fail_0@ == encode(
                    Frame::SimpleError(encode_utf8(#[trigger] decode_error_text(e))),
                ),
        },
{
    match RespArray::decode(buf) {
        Ok(arr) => {
            let ghost items = array_items(arr);
            assert(frame_model(RespFrame::Array(arr)) == Frame::Array(items));
            let reply = request_response(arr, backend);
            let bytes = reply.encode();
            Step::Reply(bytes)
        },
        Err(RespDecodeError::NotComplete) => Step::NeedMore,
        Err(e) => {
            let reply = RespFrame::Error(RespSimpleError(e.message()));
            assert(reply@ == Frame::SimpleError(encode_utf8(decode_error_text(e))));
            Step::Fail(reply.encode())
        },
    }
}

/// The replies, encoded one after the other.
pub open spec fn replies_bytes(replies: Seq<Frame>) -> Seq<u8>
    decreases replies.len(),
{
    if replies.len() == 0 {
        Seq::empty()
    } else {
        replies_bytes(replies.drop_last()) + encode(replies.last())
    }
}

/// Reading the buffer `b` from its front, request after request, gave the
/// replies in turn: request `i` spans `ends[i]..ends[i + 1]` and was
/// answered with `replies[i]` against `stores[i]`, which it turned into
/// `stores[i + 1]`.
pub open spec fn served_in_order(b: Seq<u8>, stores: Seq<Backend>, replies: Seq<Frame>, ends: Seq<int>) -> bool {
    &&& stores.len() == replies.len() + 1
    &&& ends.len() == replies.len() + 1
    &&& ends[0] == 0
    &&& forall|i: int|
        0 <= i < replies.len() ==> 0 <= #[trigger] ends[i] <= b.len() && match typed_decode(
            b.skip(ends[i]),
            Some(42u8),
        ) {
            Parsed::Done(f, n) => f is Array && ends[i + 1] == ends[i] + n && answers(
                f->Array_0,
                stores[i],
                stores[i + 1],
                replies[i],
            ),
            _ => false,
        }
}

/// One more request read and answered extends the record.
proof fn lemma_served_step(
    b: Seq<u8>,
    stores: Seq<Backend>,
    replies: Seq<Frame>,
    ends: Seq<int>,
    reply: Frame,
    after: Backend,
)
    requires
        served_in_order(b, stores, replies, ends),
        0 <= ends.last() <= b.len(),
        typed_decode(b.skip(ends.last()), Some(42u8)) is Done,
        typed_decode(b.skip(ends.last()), Some(42u8))->Done_0 is Array,
        answers(
            typed_decode(b.skip(ends.last()), Some(42u8))->Done_0->Array_0,
            stores.last(),
            after,
            reply,
        ),
    ensures
        served_in_order(
            b,
            stores.push(after),
            replies.push(reply),
            ends.push(ends.last() + typed_decode(b.skip(ends.last()), Some(42u8))->Done_1),
        ),
{
    let n = typed_decode(b.skip(ends.last()), Some(42u8))->Done_1;
    let e2 = ends.push(ends.last() + n);
    let s2 = stores.push(after);
    let r2 = replies.push(reply);
    assert forall|i: int| 0 <= i < r2.len() implies 0 <= #[trigger] e2[i] <= b.len() && match typed_decode(
        b.skip(e2[i]),
        Some(42u8),
    ) {
        Parsed::Done(f, n) => f is Array && e2[i + 1] == e2[i] + n && answers(
            f->Array_0,
            s2[i],
            s2[i + 1],
            r2[i],
        ),
        _ => false,
    } by {
        if i < replies.len() {
            assert(e2[i] == ends[i] && e2[i + 1] == ends[i + 1]);
            assert(s2[i] == stores[i] && s2[i + 1] == stores[i + 1]);
        } else {
            assert(e2[i] == ends.last() && s2[i] == stores.last());
        }
    }
}

/// Answers every complete request at the front of `buf`, in order. Returns
/// the bytes to write and whether to close the connection: the buffer
/// stops either at an incomplete request (kept for more bytes) or at bytes
/// that are not a request (answered with an error, then the connection
/// closes).
pub fn serve_pending(buf: &mut BytesMut, backend: &mut Backend) -> (r: (Vec<u8>, bool))
    ensures
        exists|stores: Seq<Backend>, replies: Seq<Frame>, ends: Seq<int>|
            #![trigger served_in_order(buffer_bytes(*old(buf)), stores, replies, ends)]
            {
                let b = buffer_bytes(*old(buf));
                let end = ends.last();
                &&& served_in_order(b, stores, replies, ends)
                &&& stores[0] == *old(backend)
                &&& stores.last() == *final(backend)
                &&& buffer_bytes(*final(buf)) == b.skip(end)
                &&& 0 <= end <= b.len()
                &&& match typed_decode(b.skip(end), Some(42u8)) {
                    Parsed::Done(_, _) => false,
                    Parsed::Incomplete => !r.1 && r.0@ == replies_bytes(replies),
                    other => r.1 && exists|e: RespDecodeError|
                        error_fits(e, other) && r.0@ == replies_bytes(replies) + encode(
                            Frame::SimpleError(encode_utf8(#[trigger] decode_error_text(e))),
                        ),
                }
            },
{
    let ghost b = buffer_bytes(*buf);
    let ghost mut stores: Seq<Backend> = seq![*backend];
    let ghost mut replies: Seq<Frame> = Seq::empty();
    let ghost mut ends: Seq<int> = seq![0int];
    let mut out: Vec<u8> = Vec::new();
    assert(b.skip(0) =~= b);
    loop
        invariant
            served_in_order(b, stores, replies, ends),
            stores[0] == *old(backend),
            stores.last() == *backend,
            0 <= ends.last() <= b.len(),
            buffer_bytes(*buf) == b.skip(ends.last()),
            out@ == replies_bytes(replies),
            b == buffer_bytes(*old(buf)),
        decreases buffer_bytes(*buf).len(),
    {
        let ghost before = *backend;
        let ghost rest = buffer_bytes(*buf);
        match serve_one(buf, backend) {
            Step::Reply(bytes) => {
                let ghost reply = choose|reply: Frame|
                    #![trigger encode(reply)]
                    bytes@ == encode(reply) && answers(
                        typed_decode(rest, Some(42u8))->Done_0->Array_0,
                        before,
                        *backend,
                        reply,
                    );
                let ghost n = typed_decode(rest, Some(42u8))->Done_1;
                let mut i: usize = 0;
                let ghost start = out@;
                while i < bytes.len()
                    invariant
                        i <= bytes@.len(),
                        out@ == start + bytes@.take(i as int),
                    decreases bytes@.len() - i,
                {
                    out.push(bytes[i]);
                    i = i + 1;
                    assert(out@ =~= start + bytes@.take(i as int));
                }
                proof {
                    assert(bytes@.take(i as int) =~= bytes@);
                    assert(rest.skip(n) =~= b.skip(ends.last() + n));
                    lemma_served_step(b, stores, replies, ends, reply, *backend);
                    assert(replies.push(reply).drop_last() =~= replies);
                    ends = ends.push(ends.last() + n);
                    stores = stores.push(*backend);
                    replies = replies.push(reply);
                }
            },
            Step::NeedMore => {
                return (out, false);
            },
            Step::Fail(bytes) => {
                let ghost fail = bytes@;
                let mut i: usize = 0;
                let ghost start = out@;
                while i < bytes.len()
                    invariant
                        i <= bytes@.len(),
                        out@ == start + bytes@.take(i as int),
                    decreases bytes@.len() - i,
                {
                    out.push(bytes[i]);
                    i = i + 1;
                    assert(out@ =~= start + bytes@.take(i as int));
                }
                assert(bytes@.take(i as int) =~= bytes@);
                return (out, true);
            },
        }
    }
}

} // verus!
