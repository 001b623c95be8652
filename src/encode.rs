//! The RESP encoder.
use vstd::prelude::*;
use crate::frame::{
    frame_model, frames_model, lemma_frames_model, lemma_pairs_model, pairs_model, Frame, RespArray, RespBulkError, RespBulkString, RespDouble, RespFrame, RespInteger, RespMap,
    RespNull, RespSet, RespSimpleError, RespSimpleString,
};
use crate::text::{int_text, push_int, push_len};

verus! {

pub open spec fn crlf() -> Seq<u8> {
    seq![13u8, 10u8]
}

/// A prefix byte, a text and the terminating CRLF.
pub open spec fn line(prefix: u8, t: Seq<u8>) -> Seq<u8> {
    seq![prefix] + t + crlf()
}

/// The header of a length-prefixed or counted frame.
pub open spec fn header(prefix: u8, n: int) -> Seq<u8> {
    line(prefix, int_text(n))
}

/// The bytes of a frame on the wire.
pub open spec fn encode(f: Frame) -> Seq<u8>
    decreases f,
{
    match f {
        Frame::SimpleString(t) => line(43u8, t),
        Frame::SimpleError(t) => line(45u8, t),
        Frame::BulkError(b) => header(33u8, b.len() as int) + b + crlf(),
        Frame::Integer(n) => line(58u8, int_text(n)),
        Frame::BulkString(b) => match b {
            Some(b) => header(36u8, b.len() as int) + b + crlf(),
            None => header(36u8, -1),
        },
        Frame::Array(a) => match a {
            Some(items) => header(42u8, items.len() as int) + encode_all(items),
            None => header(42u8, -1),
        },
        Frame::Null => line(95u8, Seq::empty()),
        Frame::Boolean(b) => line(
            35u8,
            if b {
                seq![116u8]
            } else {
                seq![102u8]
            },
        ),
        Frame::Double(t) => line(44u8, t),
        Frame::Mapping(p) => header(37u8, p.len() as int) + encode_pairs(p),
        Frame::Members(items) => header(126u8, items.len() as int) + encode_all(items),
    }
}

/// The frames one after the other.
pub open spec fn encode_all(s: Seq<Frame>) -> Seq<u8>
    decreases s,
{
    if s.len() == 0 {
        Seq::empty()
    } else {
        encode_all(s.drop_last()) + encode(s.last())
    }
}

/// Each key as a simple string, followed by its value.
pub open spec fn encode_pairs(p: Seq<(Seq<u8>, Frame)>) -> Seq<u8>
    decreases p,
{
    if p.len() == 0 {
        Seq::empty()
    } else {
        encode_pairs(p.drop_last()) + line(43u8, p.last().0) + encode(p.last().1)
    }
}

fn push_slice(out: &mut Vec<u8>, s: &[u8])
    ensures
        final(out)@ == old(out)@ + s@,
{
    let mut i: usize = 0;
    while i < s.len()
        invariant
            i <= s@.len(),
            out@ == old(out)@ + s@.take(i as int),
        decreases s@.len() - i,
    {
        out.push(s[i]);
        i = i + 1;
        assert(out@ =~= old(out)@ + s@.take(i as int));
    }
    assert(s@.take(i as int) =~= s@);
}

fn push_crlf(out: &mut Vec<u8>)
    ensures
        final(out)@ == old(out)@ + crlf(),
{
    out.push(13u8);
    out.push(10u8);
    assert(final(out)@ =~= old(out)@ + crlf());
}

fn push_header(out: &mut Vec<u8>, prefix: u8, n: usize)
    ensures
        final(out)@ == old(out)@ + header(prefix, n as int),
{
    out.push(prefix);
    push_len(out, n);
    push_crlf(out);
    assert(final(out)@ =~= old(out)@ + header(prefix, n as int));
}

fn push_null_header(out: &mut Vec<u8>, prefix: u8)
    ensures
        final(out)@ == old(out)@ + header(prefix, -1),
{
    out.push(prefix);
    push_int(out, -1);
    push_crlf(out);
    assert(final(out)@ =~= old(out)@ + header(prefix, -1));
}

fn push_line(out: &mut Vec<u8>, prefix: u8, t: &[u8])
    ensures
        final(out)@ == old(out)@ + line(prefix, t@),
{
    out.push(prefix);
    push_slice(out, t);
    push_crlf(out);
    assert(final(out)@ =~= old(out)@ + line(prefix, t@));
}

fn push_blob(out: &mut Vec<u8>, prefix: u8, b: &Vec<u8>)
    ensures
        final(out)@ == old(out)@ + header(prefix, b@.len() as int) + b@ + crlf(),
{
    push_header(out, prefix, b.len());
    push_slice(out, b.as_slice());
    push_crlf(out);
    assert(final(out)@ =~= old(out)@ + header(prefix, b@.len() as int) + b@ + crlf());
}

/// Appends the encoding of `f`.
pub fn encode_into(f: &RespFrame, out: &mut Vec<u8>)
    ensures
        final(out)@ == old(out)@ + encode(f@),
    decreases f,
{
    match f {
        RespFrame::SimpleString(s) => push_line(out, 43u8, s.0.as_str().as_bytes()),
        RespFrame::Error(s) => push_line(out, 45u8, s.0.as_str().as_bytes()),
        RespFrame::BulkError(b) => push_blob(out, 33u8, &b.0),
        RespFrame::Integer(n) => {
            out.push(58u8);
            push_int(out, n.0);
            push_crlf(out);
            assert(out@ =~= old(out)@ + encode(f@));
        },
        RespFrame::BulkString(b) => match &b.0 {
            Some(v) => push_blob(out, 36u8, v),
            None => push_null_header(out, 36u8),
        },
        RespFrame::Array(a) => match &a.0 {
            Some(v) => {
                push_header(out, 42u8, v.len());
                encode_items(v, out);
                proof {
                    lemma_frames_model(v@);
                }
                assert(out@ =~= old(out)@ + encode(f@));
            },
            None => push_null_header(out, 42u8),
        },
        RespFrame::Null(_) => {
            let empty: [u8; 0] = [];
            push_line(out, 95u8, empty.as_slice());
            assert(out@ =~= old(out)@ + encode(f@));
        },
        RespFrame::Boolean(b) => {
            let t: [u8; 1] = [if *b { 116u8 } else { 102u8 }];
            push_line(out, 35u8, t.as_slice());
            assert(out@ =~= old(out)@ + encode(f@));
        },
        RespFrame::Double(d) => push_line(out, 44u8, d.0.as_slice()),
        RespFrame::Mapping(m) => {
            push_header(out, 37u8, m.0.len());
            encode_entries(&m.0, out);
            proof {
                lemma_pairs_model(m.0@);
            }
            assert(out@ =~= old(out)@ + encode(f@));
        },
        RespFrame::Members(s) => {
            push_header(out, 126u8, s.0.len());
            encode_items(&s.0, out);
            proof {
                lemma_frames_model(s.0@);
            }
            assert(out@ =~= old(out)@ + encode(f@));
        },
    }
}

/// Appends each key as a simple string, followed by its value.
fn encode_entries(v: &Vec<(RespSimpleString, RespFrame)>, out: &mut Vec<u8>)
    ensures
        final(out)@ == old(out)@ + encode_pairs(pairs_model(v@)),
    decreases v,
{
    let ghost start = out@;
    let mut i: usize = 0;
    while i < v.len()
        invariant
            i <= v@.len(),
            out@ == start + encode_pairs(pairs_model(v@).take(i as int)),
        decreases v@.len() - i,
    {
        push_line(out, 43u8, v[i].0.0.as_str().as_bytes());
        proof {
            assert(decreases_to!(v => v[i as int]));
        }
        encode_into(&v[i].1, out);
        proof {
            lemma_pairs_model(v@);
            let pm = pairs_model(v@);
            assert(pm.take(i + 1).drop_last() =~= pm.take(i as int));
            assert(out@ =~= start + encode_pairs(pm.take(i + 1)));
        }
        i = i + 1;
    }
    proof {
        lemma_pairs_model(v@);
        assert(pairs_model(v@).take(i as int) =~= pairs_model(v@));
    }
}

/// Appends the encodings of the frames, one after the other.
fn encode_items(v: &Vec<RespFrame>, out: &mut Vec<u8>)
    ensures
        final(out)@ == old(out)@ + encode_all(frames_model(v@)),
    decreases v,
{
    let ghost start = out@;
    let mut i: usize = 0;
    while i < v.len()
        invariant
            i <= v@.len(),
            out@ == start + encode_all(frames_model(v@).take(i as int)),
        decreases v@.len() - i,
    {
        encode_into(&v[i], out);
        proof {
            lemma_frames_model(v@);
            let fm = frames_model(v@);
            assert(fm.take(i + 1).drop_last() =~= fm.take(i as int));
            assert(out@ =~= start + encode_all(fm.take(i + 1)));
        }
        i = i + 1;
    }
    proof {
        lemma_frames_model(v@);
        assert(frames_model(v@).take(i as int) =~= frames_model(v@));
    }
}

/// A frame that can be written in the RESP wire format.
pub trait RespEncode: Sized {
    /// The bytes of the value on the wire.
    fn encode(self) -> Vec<u8>;
}

impl RespEncode for RespFrame {
    fn encode(self) -> (r: Vec<u8>)
        ensures
            r@ == encode(self@),
    {
        let mut out: Vec<u8> = Vec::new();
        encode_into(&self, &mut out);
        assert(out@ =~= encode(self@));
        out
    }
}

impl RespEncode for RespSimpleString {
    fn encode(self) -> (r: Vec<u8>)
        ensures
            r@ == encode(frame_model(RespFrame::SimpleString(self))),
    {
        RespFrame::SimpleString(self).encode()
    }
}

impl RespEncode for RespSimpleError {
    fn encode(self) -> (r: Vec<u8>)
        ensures
            r@ == encode(frame_model(RespFrame::Error(self))),
    {
        RespFrame::Error(self).encode()
    }
}

impl RespEncode for RespBulkError {
    fn encode(self) -> (r: Vec<u8>)
        ensures
            r@ == encode(frame_model(RespFrame::BulkError(self))),
    {
        RespFrame::BulkError(self).encode()
    }
}

impl RespEncode for RespInteger {
    fn encode(self) -> (r: Vec<u8>)
        ensures
            r@ == encode(frame_model(RespFrame::Integer(self))),
    {
        RespFrame::Integer(self).encode()
    }
}

impl RespEncode for RespBulkString {
    fn encode(self) -> (r: Vec<u8>)
        ensures
            r@ == encode(frame_model(RespFrame::BulkString(self))),
    {
        RespFrame::BulkString(self).encode()
    }
}

impl RespEncode for RespArray {
    fn encode(self) -> (r: Vec<u8>)
        ensures
            r@ == encode(frame_model(RespFrame::Array(self))),
    {
        RespFrame::Array(self).encode()
    }
}

impl RespEncode for RespNull {
    fn encode(self) -> (r: Vec<u8>)
        ensures
            r@ == encode(frame_model(RespFrame::Null(self))),
    {
        RespFrame::Null(self).encode()
    }
}

impl RespEncode for bool {
    fn encode(self) -> (r: Vec<u8>)
        ensures
            r@ == encode(frame_model(RespFrame::Boolean(self))),
    {
        RespFrame::Boolean(self).encode()
    }
}

impl RespEncode for RespDouble {
    fn encode(self) -> (r: Vec<u8>)
        ensures
            r@ == encode(frame_model(RespFrame::Double(self))),
    {
        RespFrame::Double(self).encode()
    }
}

impl RespEncode for RespMap {
    fn encode(self) -> (r: Vec<u8>)
        ensures
            r@ == encode(frame_model(RespFrame::Mapping(self))),
    {
        RespFrame::Mapping(self).encode()
    }
}

impl RespEncode for RespSet {
    fn encode(self) -> (r: Vec<u8>)
        ensures
            r@ == encode(frame_model(RespFrame::Members(self))),
    {
        RespFrame::Members(self).encode()
    }
}

} // verus!
