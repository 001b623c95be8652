//! Reading frames out of a growable byte buffer (`bytes::BytesMut`).
use vstd::prelude::*;
use vstd::slice::slice_subrange;
use vstd::string::StringSliceAdditionalSpecFns;
use bytes::BytesMut;
use crate::decode::{crlf_search, decode_at, error_fits, RespDecodeError};
use crate::text::{parse_i64, parse_i64_bytes};
use crate::frame::{
    frame_model, Frame, RespArray, RespBulkError, RespBulkString, RespDouble, RespFrame,
    RespInteger, RespMap, RespNull, RespSet, RespSimpleError, RespSimpleString, MAX_DEPTH,
};
use crate::grammar::{
    blob_tail_message, blob_tail_missing, crlf_at, decode_frame, lemma_decoded_prefix, nth_crlf_from,
    Parsed,
};

verus! {

#[verifier::external_type_specification]
#[verifier::external_body]
pub struct ExBytesMut(bytes::BytesMut);

/// The bytes that a buffer holds.
pub uninterp spec fn buffer_bytes(b: BytesMut) -> Seq<u8>;

/// Relies on `BytesMut`'s `Deref<Target = [u8]>`: the slice is the bytes
/// the buffer holds.
#[verifier::external_body]
fn buffer_slice(b: &BytesMut) -> (r: &[u8])
    ensures
        r@ == buffer_bytes(*b),
{
    b.as_ref()
}

/// Relies on `bytes::Buf::advance` for `BytesMut`: it drops the first `n`
/// bytes, and panics when `n` is past the end.
#[verifier::external_body]
fn buffer_advance(b: &mut BytesMut, n: usize)
    requires
        n <= buffer_bytes(*old(b)).len(),
    ensures
        buffer_bytes(*final(b)) == buffer_bytes(*old(b)).skip(n as int),
{
    bytes::Buf::advance(b, n)
}

/// A read of a frame whose first byte must be `prefix`, when one is given.
pub open spec fn typed_decode(b: Seq<u8>, prefix: Option<u8>) -> Parsed<Frame> {
    if prefix is Some && b.len() > 0 && b[0] != prefix->0 {
        Parsed::BadType
    } else {
        decode_frame(b, MAX_DEPTH as nat)
    }
}

/// What a read from `old` into `new` gave: on success the frame `f` and the
/// buffer past its bytes; on failure the error and the buffer unchanged.
pub open spec fn buffer_read(old: Seq<u8>, new: Seq<u8>, ok: Option<Frame>, err: Option<RespDecodeError>, p: Parsed<Frame>) -> bool {
    match p {
        Parsed::Done(f, n) => ok == Some(f) && new == old.skip(n),
        other => ok is None && err is Some && error_fits(err->0, other) && new == old,
    }
}

/// A bulk string or bulk error in `b` whose payload is not followed by CRLF
/// gives an `InvalidFrame` error with the message for its type.
pub open spec fn tail_error<T>(r: Result<T, RespDecodeError>, b: Seq<u8>) -> bool {
    blob_tail_missing(b) ==> r is Err && r->Err_0 is InvalidFrame && r->Err_0->InvalidFrame_0@
        == blob_tail_message(b[0])
}

/// Reads one frame from the front of `buf`; the buffer moves past it on
/// success and is left as it was on failure.
fn take_frame(buf: &mut BytesMut, prefix: Option<u8>) -> (r: Result<RespFrame, RespDecodeError>)
    ensures
        buffer_read(
            buffer_bytes(*old(buf)),
            buffer_bytes(*final(buf)),
            match r {
                Ok(f) => Some(f@),
                Err(_) => None,
            },
            match r {
                Ok(_) => None,
                Err(e) => Some(e),
            },
            typed_decode(buffer_bytes(*old(buf)), prefix),
        ),
        r is Ok ==> buffer_bytes(*final(buf)).len() + 3 <= buffer_bytes(*old(buf)).len(),
        typed_decode(buffer_bytes(*old(buf)), prefix) matches Parsed::Done(_, n) ==> 3 <= n
            <= buffer_bytes(*old(buf)).len(),
        (prefix is None || prefix == Some(buffer_bytes(*old(buf))[0])) ==> tail_error(
            r,
            buffer_bytes(*old(buf)),
        ),
{
    let b = buffer_slice(buf);
    if let Some(p) = prefix {
        if b.len() > 0 && b[0] != p {
            return Err(RespDecodeError::InvalidFrameType("unexpected frame prefix".to_owned()));
        }
    }
    match decode_at(b, MAX_DEPTH) {
        Ok((f, n)) => {
            buffer_advance(buf, n);
            Ok(f)
        },
        Err(e) => Err(e),
    }
}

/// A value that can be read from the front of a buffer in the RESP wire
/// format.
pub trait RespDecode: Sized {
    fn decode(buf: &mut BytesMut) -> Result<Self, RespDecodeError>;
}

impl RespDecode for RespFrame {
    fn decode(buf: &mut BytesMut) -> (r: Result<Self, RespDecodeError>)
        ensures
            buffer_read(
                buffer_bytes(*old(buf)),
                buffer_bytes(*final(buf)),
                match r {
                    Ok(f) => Some(f@),
                    Err(_) => None,
                },
                match r {
                    Ok(_) => None,
                    Err(e) => Some(e),
                },
                decode_frame(buffer_bytes(*old(buf)), MAX_DEPTH as nat),
            ),
            tail_error(r, buffer_bytes(*old(buf))),
    {
        take_frame(buf, None)
    }
}

impl RespDecode for RespSimpleString {
    fn decode(buf: &mut BytesMut) -> (r: Result<Self, RespDecodeError>)
        ensures
            buffer_read(
                buffer_bytes(*old(buf)),
                buffer_bytes(*final(buf)),
                match r {
                    Ok(v) => Some(frame_model(RespFrame::SimpleString(v))),
                    Err(_) => None,
                },
                match r {
                    Ok(_) => None,
                    Err(e) => Some(e),
                },
                typed_decode(buffer_bytes(*old(buf)), Some(43u8)),
            ),
    {
        proof {
            lemma_decoded_prefix(buffer_bytes(*buf), MAX_DEPTH as nat);
        }
        match take_frame(buf, Some(43u8)) {
            Ok(RespFrame::SimpleString(v)) => Ok(v),
            Ok(_) => Err(RespDecodeError::InvalidFrameType("unexpected frame prefix".to_owned())),
            Err(e) => Err(e),
        }
    }
}

impl RespDecode for RespSimpleError {
    fn decode(buf: &mut BytesMut) -> (r: Result<Self, RespDecodeError>)
        ensures
            buffer_read(
                buffer_bytes(*old(buf)),
                buffer_bytes(*final(buf)),
                match r {
                    Ok(v) => Some(frame_model(RespFrame::Error(v))),
                    Err(_) => None,
                },
                match r {
                    Ok(_) => None,
                    Err(e) => Some(e),
                },
                typed_decode(buffer_bytes(*old(buf)), Some(45u8)),
            ),
    {
        proof {
            lemma_decoded_prefix(buffer_bytes(*buf), MAX_DEPTH as nat);
        }
        match take_frame(buf, Some(45u8)) {
            Ok(RespFrame::Error(v)) => Ok(v),
            Ok(_) => Err(RespDecodeError::InvalidFrameType("unexpected frame prefix".to_owned())),
            Err(e) => Err(e),
        }
    }
}

impl RespDecode for RespBulkError {
    fn decode(buf: &mut BytesMut) -> (r: Result<Self, RespDecodeError>)
        ensures
            buffer_read(
                buffer_bytes(*old(buf)),
                buffer_bytes(*final(buf)),
                match r {
                    Ok(v) => Some(frame_model(RespFrame::BulkError(v))),
                    Err(_) => None,
                },
                match r {
                    Ok(_) => None,
                    Err(e) => Some(e),
                },
                typed_decode(buffer_bytes(*old(buf)), Some(33u8)),
            ),
            buffer_bytes(*old(buf)).len() > 0 && buffer_bytes(*old(buf))[0] == 33u8 ==> tail_error(
                r,
                buffer_bytes(*old(buf)),
            ),
    {
        proof {
            lemma_decoded_prefix(buffer_bytes(*buf), MAX_DEPTH as nat);
        }
        match take_frame(buf, Some(33u8)) {
            Ok(RespFrame::BulkError(v)) => Ok(v),
            Ok(_) => Err(RespDecodeError::InvalidFrameType("unexpected frame prefix".to_owned())),
            Err(e) => Err(e),
        }
    }
}

impl RespDecode for RespInteger {
    fn decode(buf: &mut BytesMut) -> (r: Result<Self, RespDecodeError>)
        ensures
            buffer_read(
                buffer_bytes(*old(buf)),
                buffer_bytes(*final(buf)),
                match r {
                    Ok(v) => Some(frame_model(RespFrame::Integer(v))),
                    Err(_) => None,
                },
                match r {
                    Ok(_) => None,
                    Err(e) => Some(e),
                },
                typed_decode(buffer_bytes(*old(buf)), Some(58u8)),
            ),
    {
        proof {
            lemma_decoded_prefix(buffer_bytes(*buf), MAX_DEPTH as nat);
        }
        match take_frame(buf, Some(58u8)) {
            Ok(RespFrame::Integer(v)) => Ok(v),
            Ok(_) => Err(RespDecodeError::InvalidFrameType("unexpected frame prefix".to_owned())),
            Err(e) => Err(e),
        }
    }
}

impl RespDecode for RespBulkString {
    fn decode(buf: &mut BytesMut) -> (r: Result<Self, RespDecodeError>)
        ensures
            buffer_read(
                buffer_bytes(*old(buf)),
                buffer_bytes(*final(buf)),
                match r {
                    Ok(v) => Some(frame_model(RespFrame::BulkString(v))),
                    Err(_) => None,
                },
                match r {
                    Ok(_) => None,
                    Err(e) => Some(e),
                },
                typed_decode(buffer_bytes(*old(buf)), Some(36u8)),
            ),
            buffer_bytes(*old(buf)).len() > 0 && buffer_bytes(*old(buf))[0] == 36u8 ==> tail_error(
                r,
                buffer_bytes(*old(buf)),
            ),
    {
        proof {
            lemma_decoded_prefix(buffer_bytes(*buf), MAX_DEPTH as nat);
        }
        match take_frame(buf, Some(36u8)) {
            Ok(RespFrame::BulkString(v)) => Ok(v),
            Ok(_) => Err(RespDecodeError::InvalidFrameType("unexpected frame prefix".to_owned())),
            Err(e) => Err(e),
        }
    }
}

impl RespDecode for RespArray {
    fn decode(buf: &mut BytesMut) -> (r: Result<Self, RespDecodeError>)
        ensures
            buffer_read(
                buffer_bytes(*old(buf)),
                buffer_bytes(*final(buf)),
                match r {
                    Ok(v) => Some(frame_model(RespFrame::Array(v))),
                    Err(_) => None,
                },
                match r {
                    Ok(_) => None,
                    Err(e) => Some(e),
                },
                typed_decode(buffer_bytes(*old(buf)), Some(42u8)),
            ),
            r is Ok ==> buffer_bytes(*final(buf)).len() + 3 <= buffer_bytes(*old(buf)).len(),
            typed_decode(buffer_bytes(*old(buf)), Some(42u8)) matches Parsed::Done(_, n) ==> 3 <= n
                <= buffer_bytes(*old(buf)).len(),
    {
        proof {
            lemma_decoded_prefix(buffer_bytes(*buf), MAX_DEPTH as nat);
        }
        match take_frame(buf, Some(42u8)) {
            Ok(RespFrame::Array(v)) => Ok(v),
            Ok(_) => Err(RespDecodeError::InvalidFrameType("unexpected frame prefix".to_owned())),
            Err(e) => Err(e),
        }
    }
}

impl RespDecode for RespNull {
    fn decode(buf: &mut BytesMut) -> (r: Result<Self, RespDecodeError>)
        ensures
            buffer_read(
                buffer_bytes(*old(buf)),
                buffer_bytes(*final(buf)),
                match r {
                    Ok(v) => Some(frame_model(RespFrame::Null(v))),
                    Err(_) => None,
                },
                match r {
                    Ok(_) => None,
                    Err(e) => Some(e),
                },
                typed_decode(buffer_bytes(*old(buf)), Some(95u8)),
            ),
    {
        proof {
            lemma_decoded_prefix(buffer_bytes(*buf), MAX_DEPTH as nat);
        }
        match take_frame(buf, Some(95u8)) {
            Ok(RespFrame::Null(v)) => Ok(v),
            Ok(_) => Err(RespDecodeError::InvalidFrameType("unexpected frame prefix".to_owned())),
            Err(e) => Err(e),
        }
    }
}

impl RespDecode for bool {
    fn decode(buf: &mut BytesMut) -> (r: Result<Self, RespDecodeError>)
        ensures
            buffer_read(
                buffer_bytes(*old(buf)),
                buffer_bytes(*final(buf)),
                match r {
                    Ok(v) => Some(frame_model(RespFrame::Boolean(v))),
                    Err(_) => None,
                },
                match r {
                    Ok(_) => None,
                    Err(e) => Some(e),
                },
                typed_decode(buffer_bytes(*old(buf)), Some(35u8)),
            ),
    {
        proof {
            lemma_decoded_prefix(buffer_bytes(*buf), MAX_DEPTH as nat);
        }
        match take_frame(buf, Some(35u8)) {
            Ok(RespFrame::Boolean(v)) => Ok(v),
            Ok(_) => Err(RespDecodeError::InvalidFrameType("unexpected frame prefix".to_owned())),
            Err(e) => Err(e),
        }
    }
}

impl RespDecode for RespDouble {
    fn decode(buf: &mut BytesMut) -> (r: Result<Self, RespDecodeError>)
        ensures
            buffer_read(
                buffer_bytes(*old(buf)),
                buffer_bytes(*final(buf)),
                match r {
                    Ok(v) => Some(frame_model(RespFrame::Double(v))),
                    Err(_) => None,
                },
                match r {
                    Ok(_) => None,
                    Err(e) => Some(e),
                },
                typed_decode(buffer_bytes(*old(buf)), Some(44u8)),
            ),
    {
        proof {
            lemma_decoded_prefix(buffer_bytes(*buf), MAX_DEPTH as nat);
        }
        match take_frame(buf, Some(44u8)) {
            Ok(RespFrame::Double(v)) => Ok(v),
            Ok(_) => Err(RespDecodeError::InvalidFrameType("unexpected frame prefix".to_owned())),
            Err(e) => Err(e),
        }
    }
}

impl RespDecode for RespMap {
    fn decode(buf: &mut BytesMut) -> (r: Result<Self, RespDecodeError>)
        ensures
            buffer_read(
                buffer_bytes(*old(buf)),
                buffer_bytes(*final(buf)),
                match r {
                    Ok(v) => Some(frame_model(RespFrame::Mapping(v))),
                    Err(_) => None,
                },
                match r {
                    Ok(_) => None,
                    Err(e) => Some(e),
                },
                typed_decode(buffer_bytes(*old(buf)), Some(37u8)),
            ),
    {
        proof {
            lemma_decoded_prefix(buffer_bytes(*buf), MAX_DEPTH as nat);
        }
        match take_frame(buf, Some(37u8)) {
            Ok(RespFrame::Mapping(v)) => Ok(v),
            Ok(_) => Err(RespDecodeError::InvalidFrameType("unexpected frame prefix".to_owned())),
            Err(e) => Err(e),
        }
    }
}

impl RespDecode for RespSet {
    fn decode(buf: &mut BytesMut) -> (r: Result<Self, RespDecodeError>)
        ensures
            buffer_read(
                buffer_bytes(*old(buf)),
                buffer_bytes(*final(buf)),
                match r {
                    Ok(v) => Some(frame_model(RespFrame::Members(v))),
                    Err(_) => None,
                },
                match r {
                    Ok(_) => None,
                    Err(e) => Some(e),
                },
                typed_decode(buffer_bytes(*old(buf)), Some(126u8)),
            ),
    {
        proof {
            lemma_decoded_prefix(buffer_bytes(*buf), MAX_DEPTH as nat);
        }
        match take_frame(buf, Some(126u8)) {
            Ok(RespFrame::Members(v)) => Ok(v),
            Ok(_) => Err(RespDecodeError::InvalidFrameType("unexpected frame prefix".to_owned())),
            Err(e) => Err(e),
        }
    }
}

/// The byte that starts every frame of a type on the wire.
pub trait RespFrameFirstByte {
    const FIRST_BYTE: [u8; 1];
}

impl RespFrameFirstByte for RespSimpleString {
    const FIRST_BYTE: [u8; 1] = [43u8];
}

impl RespFrameFirstByte for RespSimpleError {
    const FIRST_BYTE: [u8; 1] = [45u8];
}

impl RespFrameFirstByte for RespBulkError {
    const FIRST_BYTE: [u8; 1] = [33u8];
}

impl RespFrameFirstByte for RespInteger {
    const FIRST_BYTE: [u8; 1] = [58u8];
}

impl RespFrameFirstByte for RespBulkString {
    const FIRST_BYTE: [u8; 1] = [36u8];
}

impl RespFrameFirstByte for RespArray {
    const FIRST_BYTE: [u8; 1] = [42u8];
}

impl RespFrameFirstByte for RespNull {
    const FIRST_BYTE: [u8; 1] = [95u8];
}

impl RespFrameFirstByte for bool {
    const FIRST_BYTE: [u8; 1] = [35u8];
}

impl RespFrameFirstByte for RespDouble {
    const FIRST_BYTE: [u8; 1] = [44u8];
}

impl RespFrameFirstByte for RespMap {
    const FIRST_BYTE: [u8; 1] = [37u8];
}

impl RespFrameFirstByte for RespSet {
    const FIRST_BYTE: [u8; 1] = [126u8];
}

/// Where the first CRLF of the buffer starts, once its first byte is
/// checked to be `prefix`. The buffer is left as it is.
pub fn extract_simple_frame_data(buf: &mut BytesMut, prefix: [u8; 1]) -> (r: Result<usize, RespDecodeError>)
    ensures
        buffer_bytes(*final(buf)) == buffer_bytes(*old(buf)),
        r matches Ok(pos) ==> crlf_at(buffer_bytes(*old(buf)), pos as int),
        ({
            let b = buffer_bytes(*old(buf));
            if b.len() == 0 || b[0] != prefix[0] {
                r is Err && r->Err_0 is InvalidFrameType
            } else if nth_crlf_from(b, 0, 1) < 0 {
                r == Err::<usize, RespDecodeError>(RespDecodeError::NotComplete)
            } else {
                r is Ok && r->Ok_0 as int == nth_crlf_from(b, 0, 1)
            }
        }),
{
    let b = buffer_slice(buf);
    if b.len() == 0 || b[0] != prefix[0] {
        return Err(RespDecodeError::InvalidFrameType("the frame does not start with the expected byte".to_owned()));
    }
    match crlf_search(b, 0, 1) {
        Some(pos) => Ok(pos),
        None => Err(RespDecodeError::NotComplete),
    }
}

/// The signed number between `prefix` and the first CRLF of the buffer,
/// with where that CRLF starts. The buffer is left as it is.
pub fn parse_length(buf: &mut BytesMut, prefix: &str) -> (r: Result<(usize, isize), RespDecodeError>)
    requires
        prefix.spec_bytes().len() > 0,
    ensures
        buffer_bytes(*final(buf)) == buffer_bytes(*old(buf)),
        ({
            let b = buffer_bytes(*old(buf));
            let e = nth_crlf_from(b, 0, 1);
            let plen = prefix.spec_bytes().len() as int;
            if b.len() == 0 || b[0] != prefix.spec_bytes()[0] {
                r is Err && r->Err_0 is InvalidFrameType
            } else if e < 0 {
                r == Err::<(usize, isize), RespDecodeError>(RespDecodeError::NotComplete)
            } else {
                &&& (r is Ok <==> (plen <= e && parse_i64(b.subrange(plen, e)) is Some
                    && isize::MIN <= parse_i64(b.subrange(plen, e))->0 <= isize::MAX))
                &&& match r {
                    Ok((pos, len)) => pos == e && plen <= e && parse_i64(b.subrange(plen, e)) == Some(
                        len as int,
                    ),
                    Err(err) => err is ParseError,
                }
            }
        }),
{
    let p = prefix.as_bytes();
    let first: [u8; 1] = [p[0]];
    assert(first[0] == prefix.spec_bytes()[0]);
    let end = match extract_simple_frame_data(buf, first) {
        Ok(e) => e,
        Err(e) => return Err(e),
    };
    let b = buffer_slice(buf);
    if p.len() > end {
        return Err(RespDecodeError::ParseError);
    }
    let digits = slice_subrange(b, p.len(), end);
    assert(p@ == prefix.spec_bytes());
    assert(digits@ == buffer_bytes(*old(buf)).subrange(prefix.spec_bytes().len() as int, end as int));
    match parse_i64_bytes(digits) {
        Some(v) => {
            if v < isize::MIN as i64 || v > isize::MAX as i64 {
                Err(RespDecodeError::ParseError)
            } else {
                let len = v as isize;
                assert(len as int == v as int);
                Ok((end, len))
            }
        },
        None => Err(RespDecodeError::ParseError),
    }
}

} // verus!
