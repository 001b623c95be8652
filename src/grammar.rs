//! The RESP grammar, as functions from bytes to frames.
use vstd::prelude::*;
use crate::frame::{bytes_lt, double_text_ok, line_text_ok, no_crlf, Frame};
use crate::text::parse_i64;

verus! {

/// The outcome of reading a value of type `T` from the front of a buffer.
pub enum Parsed<T> {
    /// The value and the number of bytes it took.
    Done(T, int),
    /// The buffer does not hold the whole value yet.
    Incomplete,
    /// The first byte is not the prefix of a frame of the expected type.
    BadType,
    /// The prefix matched but the rest is malformed.
    BadFrame,
    /// A length or a number did not parse.
    BadNumber,
}

/// A CRLF starts at `i`.
pub open spec fn crlf_at(b: Seq<u8>, i: int) -> bool {
    0 <= i && i + 1 < b.len() && b[i] == 13u8 && b[i + 1] == 10u8
}

/// Where the `nth` CRLF at or after `from` starts, or -1.
pub open spec fn nth_crlf_from(b: Seq<u8>, from: int, nth: nat) -> int
    decreases b.len() - from,
{
    if from < 0 || from + 1 >= b.len() || nth == 0 {
        -1
    } else if crlf_at(b, from) {
        if nth == 1 {
            from
        } else {
            nth_crlf_from(b, from + 1, (nth - 1) as nat)
        }
    } else {
        nth_crlf_from(b, from + 1, nth)
    }
}

/// Where the first CRLF after the prefix byte starts, or -1.
pub open spec fn line_end(b: Seq<u8>) -> int {
    nth_crlf_from(b, 1, 1)
}

pub open spec fn is_scalar_prefix(p: u8) -> bool {
    p == 43u8 || p == 45u8 || p == 58u8 || p == 95u8 || p == 35u8 || p == 44u8
}

pub open spec fn is_blob_prefix(p: u8) -> bool {
    p == 36u8 || p == 33u8
}

pub open spec fn is_aggregate_prefix(p: u8) -> bool {
    p == 42u8 || p == 126u8 || p == 37u8
}

/// A frame written as one line: `+`, `-`, `:`, `_`, `#` or `,`.
pub open spec fn decode_scalar(b: Seq<u8>) -> Parsed<Frame> {
    let e = line_end(b);
    if e < 0 {
        Parsed::Incomplete
    } else {
        let t = b.subrange(1, e);
        let n = e + 2;
        let p = b[0];
        if p == 43u8 || p == 45u8 {
            if line_text_ok(t) {
                Parsed::Done(
                    if p == 43u8 {
                        Frame::SimpleString(t)
                    } else {
                        Frame::SimpleError(t)
                    },
                    n,
                )
            } else {
                Parsed::BadFrame
            }
        } else if p == 58u8 {
            match parse_i64(t) {
                Some(v) => Parsed::Done(Frame::Integer(v), n),
                None => Parsed::BadNumber,
            }
        } else if p == 95u8 {
            if t.len() == 0 {
                Parsed::Done(Frame::Null, n)
            } else {
                Parsed::BadFrame
            }
        } else if p == 35u8 {
            if t =~= seq![116u8] {
                Parsed::Done(Frame::Boolean(true), n)
            } else if t =~= seq![102u8] {
                Parsed::Done(Frame::Boolean(false), n)
            } else {
                Parsed::BadFrame
            }
        } else {
            if no_crlf(t) && double_text_ok(t) {
                Parsed::Done(Frame::Double(t), n)
            } else {
                Parsed::BadNumber
            }
        }
    }
}

/// A length-prefixed payload: `$` or `!`.
pub open spec fn decode_blob(b: Seq<u8>) -> Parsed<Frame> {
    let e = line_end(b);
    if e < 0 {
        Parsed::Incomplete
    } else {
        match parse_i64(b.subrange(1, e)) {
            None => Parsed::BadNumber,
            Some(len) => if len == -1 && b[0] == 36u8 {
                Parsed::Done(Frame::BulkString(None), e + 2)
            } else if len < 0 {
                Parsed::BadFrame
            } else {
                let start = e + 2;
                if b.len() < start + len + 2 {
                    Parsed::Incomplete
                } else if !crlf_at(b, start + len) {
                    Parsed::BadFrame
                } else {
                    let data = b.subrange(start, start + len);
                    Parsed::Done(
                        if b[0] == 36u8 {
                            Frame::BulkString(Some(data))
                        } else {
                            Frame::BulkError(data)
                        },
                        start + len + 2,
                    )
                }
            },
        }
    }
}

/// How many entries of `m` have a key below `k`.
pub open spec fn lower_bound(m: Seq<(Seq<u8>, Frame)>, k: Seq<u8>) -> int
    decreases m.len(),
{
    if m.len() == 0 || !bytes_lt(m[0].0, k) {
        0
    } else {
        1 + lower_bound(m.drop_first(), k)
    }
}

/// Sets `k` to `v` in a map kept in increasing order of keys.
pub open spec fn map_insert(m: Seq<(Seq<u8>, Frame)>, k: Seq<u8>, v: Frame) -> Seq<(Seq<u8>, Frame)> {
    let p = lower_bound(m, k);
    if p < m.len() && m[p].0 == k {
        m.update(p, (k, v))
    } else {
        m.insert(p, (k, v))
    }
}

/// The map that setting the entries in turn gives, from an empty one.
pub open spec fn build_map(entries: Seq<(Seq<u8>, Frame)>) -> Seq<(Seq<u8>, Frame)>
    decreases entries.len(),
{
    if entries.len() == 0 {
        Seq::empty()
    } else {
        let last = entries.last();
        map_insert(build_map(entries.drop_last()), last.0, last.1)
    }
}

/// Puts a value read first in front of what was read after it.
pub open spec fn prepend<T>(first: T, k: int, rest: Parsed<Seq<T>>) -> Parsed<Seq<T>> {
    match rest {
        Parsed::Done(s, m) => Parsed::Done(seq![first] + s, k + m),
        Parsed::Incomplete => Parsed::Incomplete,
        Parsed::BadType => Parsed::BadType,
        Parsed::BadFrame => Parsed::BadFrame,
        Parsed::BadNumber => Parsed::BadNumber,
    }
}

/// The error of a failed read, as a read of another type.
pub open spec fn fail_as<T, U>(p: Parsed<T>) -> Parsed<U> {
    match p {
        Parsed::Incomplete => Parsed::Incomplete,
        Parsed::BadType => Parsed::BadType,
        Parsed::BadFrame => Parsed::BadFrame,
        _ => Parsed::BadNumber,
    }
}

/// One frame from the front of `b`, with room for `room` levels of
/// aggregates.
pub open spec fn decode_frame(b: Seq<u8>, room: nat) -> Parsed<Frame>
    decreases room, 0nat, 0nat,
{
    if b.len() < 3 {
        Parsed::Incomplete
    } else if is_scalar_prefix(b[0]) {
        decode_scalar(b)
    } else if is_blob_prefix(b[0]) {
        decode_blob(b)
    } else if is_aggregate_prefix(b[0]) {
        let e = line_end(b);
        if e < 0 {
            Parsed::Incomplete
        } else {
            match parse_i64(b.subrange(1, e)) {
                None => Parsed::BadNumber,
                Some(len) => if len == -1 && b[0] == 42u8 {
                    Parsed::Done(Frame::Array(None), e + 2)
                } else if len < 0 || room == 0 {
                    Parsed::BadFrame
                } else if b[0] == 37u8 {
                    match decode_entries(b.skip(e + 2), len, (room - 1) as nat) {
                        Parsed::Done(entries, m) => Parsed::Done(
                            Frame::Mapping(build_map(entries)),
                            e + 2 + m,
                        ),
                        other => fail_as(other),
                    }
                } else {
                    match decode_items(b.skip(e + 2), len, (room - 1) as nat) {
                        Parsed::Done(items, m) => Parsed::Done(
                            if b[0] == 42u8 {
                                Frame::Array(Some(items))
                            } else {
                                Frame::Members(items)
                            },
                            e + 2 + m,
                        ),
                        other => fail_as(other),
                    }
                }
            }
        }
    } else {
        Parsed::BadType
    }
}

/// `n` frames, one after the other.
pub open spec fn decode_items(b: Seq<u8>, n: int, room: nat) -> Parsed<Seq<Frame>>
    decreases room, 1nat, n,
{
    if n <= 0 {
        Parsed::Done(Seq::empty(), 0)
    } else {
        match decode_frame(b, room) {
            Parsed::Done(f, k) => prepend(f, k, decode_items(b.skip(k), n - 1, room)),
            other => fail_as(other),
        }
    }
}

/// A map key: a simple string.
pub open spec fn decode_key(b: Seq<u8>) -> Parsed<Seq<u8>> {
    if b.len() < 3 {
        Parsed::Incomplete
    } else if b[0] != 43u8 {
        Parsed::BadType
    } else {
        match decode_scalar(b) {
            Parsed::Done(Frame::SimpleString(t), k) => Parsed::Done(t, k),
            other => fail_as(other),
        }
    }
}

/// `n` keys, each followed by its value.
pub open spec fn decode_entries(b: Seq<u8>, n: int, room: nat) -> Parsed<Seq<(Seq<u8>, Frame)>>
    decreases room, 1nat, n,
{
    if n <= 0 {
        Parsed::Done(Seq::empty(), 0)
    } else {
        match decode_key(b) {
            Parsed::Done(key, k) => match decode_frame(b.skip(k), room) {
                Parsed::Done(v, j) => prepend(
                    (key, v),
                    k + j,
                    decode_entries(b.skip(k + j), n - 1, room),
                ),
                other => fail_as(other),
            },
            other => fail_as(other),
        }
    }
}

/// The prefix byte of a frame on the wire.
pub open spec fn prefix_of(f: Frame) -> u8 {
    match f {
        Frame::SimpleString(_) => 43u8,
        Frame::SimpleError(_) => 45u8,
        Frame::BulkError(_) => 33u8,
        Frame::Integer(_) => 58u8,
        Frame::BulkString(_) => 36u8,
        Frame::Array(_) => 42u8,
        Frame::Null => 95u8,
        Frame::Boolean(_) => 35u8,
        Frame::Double(_) => 44u8,
        Frame::Mapping(_) => 37u8,
        Frame::Members(_) => 126u8,
    }
}

/// A frame read from a buffer is of the type its first byte names.
pub proof fn lemma_decoded_prefix(b: Seq<u8>, room: nat)
    ensures
        decode_frame(b, room) is Done ==> prefix_of(decode_frame(b, room)->Done_0) == b[0],
{
}

/// A bulk string or bulk error whose header and payload are all there, but
/// whose payload is not followed by CRLF.
pub open spec fn blob_tail_missing(b: Seq<u8>) -> bool {
    &&& b.len() >= 3
    &&& is_blob_prefix(b[0])
    &&& line_end(b) >= 0
    &&& parse_i64(b.subrange(1, line_end(b))) matches Some(len) && len >= 0 && b.len() >= line_end(
        b,
    ) + 2 + len + 2 && !crlf_at(b, line_end(b) + 2 + len)
}

/// The message of the error for a payload not followed by CRLF.
pub open spec fn blob_tail_message(prefix: u8) -> Seq<char> {
    if prefix == 36u8 {
        "RespBulkString didn't end with \r\n or length not match"@
    } else {
        "RespBulkError didn't end with \r\n or length not match"@
    }
}

} // verus!
