//! The RESP decoder: reads one frame from the front of a byte buffer.
use vstd::prelude::*;
use vstd::slice::{slice_subrange, slice_to_vec};
use vstd::utf8::decode_utf8_encode_utf8;
use crate::frame::{
    double_text_ok, frames_model, index_of, line_text_ok, mantissa_ok, no_crlf, pairs_model,
    str_bytes, utf8_string, Frame, RespArray, RespBulkError, RespBulkString, RespDouble,
    RespFrame, RespInteger, RespMap, RespNull, RespSet, RespSimpleError, RespSimpleString,
};
use crate::grammar::{
    build_map, crlf_at, decode_blob, decode_entries, decode_frame, decode_items, decode_key,
    blob_tail_message, blob_tail_missing, decode_scalar, is_blob_prefix, is_scalar_prefix,
    nth_crlf_from, prepend, Parsed,
};
use crate::text::{all_digits, parse_i64_bytes, sign_len};

verus! {

/// Why a frame could not be read.
#[derive(Debug, Clone, PartialEq, Eq)]
pub enum RespDecodeError {
    /// The prefix matched but the payload is malformed.
    InvalidFrame(String),
    /// The first byte is not the prefix of a frame of the expected type.
    InvalidFrameType(String),
    /// The buffer does not hold a whole frame yet.
    NotComplete,
    /// A length or a number did not parse.
    ParseError,
}

/// The error is an `InvalidFrame` with the given message.
pub open spec fn invalid_with(r: Result<(RespFrame, usize), RespDecodeError>, m: Seq<char>) -> bool {
    r is Err && r->Err_0 is InvalidFrame && r->Err_0->InvalidFrame_0@ == m
}

/// The error stands for the failed read `p`.
pub open spec fn error_fits<T>(e: RespDecodeError, p: Parsed<T>) -> bool {
    match e {
        RespDecodeError::NotComplete => p is Incomplete,
        RespDecodeError::InvalidFrameType(_) => p is BadType,
        RespDecodeError::InvalidFrame(_) => p is BadFrame,
        RespDecodeError::ParseError => p is BadNumber,
    }
}

/// The result of a read of a frame agrees with the grammar's `p`.
pub open spec fn frame_result(r: Result<(RespFrame, usize), RespDecodeError>, p: Parsed<Frame>) -> bool {
    match r {
        Ok((f, n)) => p == Parsed::Done(f@, n as int),
        Err(e) => error_fits(e, p),
    }
}

fn invalid(what: &str) -> (e: RespDecodeError)
    ensures
        e is InvalidFrame,
        e->InvalidFrame_0@ == what@,
{
    RespDecodeError::InvalidFrame(what.to_owned())
}

/// Where the `nth` CRLF at or after `from` starts.
pub fn crlf_search(b: &[u8], from: usize, nth: usize) -> (r: Option<usize>)
    ensures
        r is Some ==> nth_crlf_from(b@, from as int, nth as nat) == r->0 as int,
        r is Some ==> from <= r->0 && crlf_at(b@, r->0 as int),
        r is None ==> nth_crlf_from(b@, from as int, nth as nat) == -1,
{
    let mut i: usize = from;
    let mut left: usize = nth;
    while i < b.len() && i + 1 < b.len() && left > 0
        invariant
            from <= i,
            nth_crlf_from(b@, from as int, nth as nat) == nth_crlf_from(b@, i as int, left as nat),
        decreases b@.len() - i,
    {
        if b[i] == 13u8 && b[i + 1] == 10u8 {
            if left == 1 {
                return Some(i);
            }
            left = left - 1;
        }
        i = i + 1;
    }
    None
}

/// Where the `nth` CRLF of the buffer starts (counting from 1).
pub fn find_nth_crlf(buf: &[u8], nth: usize) -> (r: Option<usize>)
    ensures
        r is Some ==> nth_crlf_from(buf@, 0, nth as nat) == r->0 as int,
        r is None ==> nth_crlf_from(buf@, 0, nth as nat) == -1,
{
    crlf_search(buf, 0, nth)
}

proof fn lemma_index_of(s: Seq<u8>, c: u8, i: int)
    requires
        0 <= i <= s.len(),
        forall|j: int| 0 <= j < i ==> s[j] != c,
        i == s.len() || s[i] == c,
    ensures
        index_of(s, c) == i,
    decreases i,
{
    if i > 0 {
        lemma_index_of(s.drop_first(), c, i - 1);
    }
}

fn index_of_exec(s: &[u8], c: u8) -> (r: usize)
    ensures
        r as int == index_of(s@, c),
        r <= s@.len(),
{
    let mut i: usize = 0;
    while i < s.len() && s[i] != c
        invariant
            i <= s@.len(),
            forall|j: int| 0 <= j < i ==> s@[j] != c,
        decreases s@.len() - i,
    {
        i = i + 1;
    }
    proof {
        lemma_index_of(s@, c, i as int);
    }
    i
}

fn all_digits_exec(s: &[u8]) -> (r: bool)
    ensures
        r == all_digits(s@),
{
    let mut i: usize = 0;
    while i < s.len()
        invariant
            i <= s@.len(),
            all_digits(s@.take(i as int)),
        decreases s@.len() - i,
    {
        if s[i] < 48u8 || s[i] > 57u8 {
            return false;
        }
        i = i + 1;
        assert(forall|j: int| 0 <= j < i ==> s@.take(i as int)[j] == s@[j]);
    }
    assert(s@.take(i as int) =~= s@);
    true
}

fn no_crlf_exec(s: &[u8]) -> (r: bool)
    ensures
        r == no_crlf(s@),
{
    let mut i: usize = 0;
    while i < s.len()
        invariant
            i <= s@.len(),
            forall|j: int| 0 <= j < i ==> s@[j] != 13u8 && s@[j] != 10u8,
        decreases s@.len() - i,
    {
        if s[i] == 13u8 || s[i] == 10u8 {
            return false;
        }
        i = i + 1;
    }
    true
}

fn mantissa_ok_exec(m: &[u8]) -> (r: bool)
    ensures
        r == mantissa_ok(m@),
{
    let d = index_of_exec(m, 46u8);
    let int_part = slice_subrange(m, 0, d);
    assert(int_part@ =~= m@.take(d as int));
    if d == 0 || !all_digits_exec(int_part) {
        return false;
    }
    if d == m.len() {
        return true;
    }
    let frac = slice_subrange(m, d + 1, m.len());
    assert(frac@ =~= m@.skip(d + 1));
    frac.len() > 0 && all_digits_exec(frac)
}

fn double_text_ok_exec(t: &[u8]) -> (r: bool)
    ensures
        r == double_text_ok(t@),
{
    let s: usize = if t.len() > 0 && (t[0] == 45u8 || t[0] == 43u8) {
        1
    } else {
        0
    };
    let b = slice_subrange(t, s, t.len());
    assert(b@ =~= t@.skip(sign_len(t@)));
    if b.len() == 3 {
        if b[0] == 105u8 && b[1] == 110u8 && b[2] == 102u8 {
            assert(b@ =~= seq![105u8, 110u8, 102u8]);
            return true;
        }
        if (b[0] == 110u8 || b[0] == 78u8) && b[1] == 97u8 && b[2] == b[0] {
            assert(b@ =~= seq![110u8, 97u8, 110u8] || b@ =~= seq![78u8, 97u8, 78u8]);
            return true;
        }
    }
    let e = index_of_exec(b, 101u8);
    let mant = slice_subrange(b, 0, e);
    assert(mant@ =~= b@.take(e as int));
    if !mantissa_ok_exec(mant) {
        return false;
    }
    if e == b.len() {
        return true;
    }
    let exp = slice_subrange(b, e + 1, b.len());
    assert(exp@ =~= b@.skip(e + 1));
    parse_i64_bytes(exp).is_some()
}

/// The characters of a line that is valid UTF-8 without CR or LF.
fn line_string(t: &[u8]) -> (r: Option<String>)
    ensures
        r is Some <==> line_text_ok(t@),
        r is Some ==> str_bytes(r->0) == t@,
{
    if !no_crlf_exec(t) {
        return None;
    }
    let r = utf8_string(slice_to_vec(t));
    proof {
        if r is Some {
            decode_utf8_encode_utf8(t@);
        }
    }
    r
}

/// A frame written as one line.
fn decode_scalar_at(b: &[u8]) -> (r: Result<(RespFrame, usize), RespDecodeError>)
    requires
        b@.len() >= 3,
        is_scalar_prefix(b@[0]),
    ensures
        frame_result(r, decode_scalar(b@)),
        r matches Ok((_, n)) ==> 3 <= n <= b@.len(),
{
    let e = match crlf_search(b, 1, 1) {
        Some(e) => e,
        None => return Err(RespDecodeError::NotComplete),
    };
    let len = b.len();
    let t = slice_subrange(b, 1, e);
    let n = e + 2;
    let p = b[0];
    if p == 43u8 || p == 45u8 {
        match line_string(t) {
            Some(s) => {
                if p == 43u8 {
                    Ok((RespFrame::SimpleString(RespSimpleString(s)), n))
                } else {
                    Ok((RespFrame::Error(RespSimpleError(s)), n))
                }
            },
            None => Err(invalid("simple frame holds CR or LF, or is not UTF-8")),
        }
    } else if p == 58u8 {
        match parse_i64_bytes(t) {
            Some(v) => Ok((RespFrame::Integer(RespInteger(v)), n)),
            None => Err(RespDecodeError::ParseError),
        }
    } else if p == 95u8 {
        if e == 1 {
            Ok((RespFrame::Null(RespNull), n))
        } else {
            Err(invalid("RespNull requires to be _\r\n"))
        }
    } else if p == 35u8 {
        if e == 2 && b[1] == 116u8 {
            assert(t@ =~= seq![116u8]);
            Ok((RespFrame::Boolean(true), n))
        } else if e == 2 && b[1] == 102u8 {
            assert(t@ =~= seq![102u8]);
            Ok((RespFrame::Boolean(false), n))
        } else {
            proof {
                if e == 2 {
                    assert(t@[0] == b@[1]);
                }
            }
            Err(invalid("RespBoolean requires to be t or f"))
        }
    } else {
        if no_crlf_exec(t) && double_text_ok_exec(t) {
            Ok((RespFrame::Double(RespDouble(slice_to_vec(t))), n))
        } else {
            Err(RespDecodeError::ParseError)
        }
    }
}

/// A length-prefixed payload.
fn decode_blob_at(b: &[u8]) -> (r: Result<(RespFrame, usize), RespDecodeError>)
    requires
        b@.len() >= 3,
        is_blob_prefix(b@[0]),
    ensures
        frame_result(r, decode_blob(b@)),
        r matches Ok((_, n)) ==> 3 <= n <= b@.len(),
        blob_tail_missing(b@) ==> invalid_with(r, blob_tail_message(b@[0])),
{
    let len = b.len();
    let e = match crlf_search(b, 1, 1) {
        Some(e) => e,
        None => return Err(RespDecodeError::NotComplete),
    };
    let l = match parse_i64_bytes(slice_subrange(b, 1, e)) {
        Some(v) => v,
        None => return Err(RespDecodeError::ParseError),
    };
    let p = b[0];
    if l == -1 && p == 36u8 {
        return Ok((RespFrame::BulkString(RespBulkString(None)), e + 2));
    }
    if l < 0 {
        return Err(invalid("negative length"));
    }
    let start = e + 2;
    if ((len - start) as u64) < (l as u64) + 2 {
        return Err(RespDecodeError::NotComplete);
    }
    let n = l as usize;
    if b[start + n] != 13u8 || b[start + n + 1] != 10u8 {
        if p == 36u8 {
            return Err(invalid("RespBulkString didn't end with \r\n or length not match"));
        } else {
            return Err(invalid("RespBulkError didn't end with \r\n or length not match"));
        }
    }
    let data = slice_to_vec(slice_subrange(b, start, start + n));
    if p == 36u8 {
        Ok((RespFrame::BulkString(RespBulkString(Some(data))), start + n + 2))
    } else {
        Ok((RespFrame::BulkError(RespBulkError(data)), start + n + 2))
    }
}

/// What was read before, followed by what is read after it.
pub open spec fn prepend_all<T>(acc: Seq<T>, c: int, rest: Parsed<Seq<T>>) -> Parsed<Seq<T>> {
    match rest {
        Parsed::Done(s, m) => Parsed::Done(acc + s, c + m),
        Parsed::Incomplete => Parsed::Incomplete,
        Parsed::BadType => Parsed::BadType,
        Parsed::BadFrame => Parsed::BadFrame,
        Parsed::BadNumber => Parsed::BadNumber,
    }
}

proof fn lemma_prepend_all<T>(acc: Seq<T>, c: int, x: T, k: int, rest: Parsed<Seq<T>>)
    ensures
        prepend_all(acc, c, prepend(x, k, rest)) == prepend_all(acc.push(x), c + k, rest),
{
    match rest {
        Parsed::Done(s, m) => {
            assert(acc + (seq![x] + s) =~= acc.push(x) + s);
        },
        _ => {},
    }
}

/// The result of reading several frames agrees with the grammar's `p`.
pub open spec fn items_result(r: Result<(Vec<RespFrame>, usize), RespDecodeError>, p: Parsed<Seq<Frame>>) -> bool {
    match r {
        Ok((v, n)) => p == Parsed::Done(frames_model(v@), n as int),
        Err(e) => error_fits(e, p),
    }
}

/// The result of reading map entries agrees with the grammar's `p`.
pub open spec fn entries_result(
    r: Result<(RespMap, usize), RespDecodeError>,
    p: Parsed<Seq<(Seq<u8>, Frame)>>,
) -> bool {
    match r {
        Ok((m, n)) => p is Done && m.entries() == build_map(p->Done_0) && n as int == p->Done_1,
        Err(e) => error_fits(e, p),
    }
}

/// One frame from the front of `b`, with room for `room` levels of
/// aggregates.
pub fn decode_at(b: &[u8], room: usize) -> (r: Result<(RespFrame, usize), RespDecodeError>)
    ensures
        frame_result(r, decode_frame(b@, room as nat)),
        r matches Ok((_, n)) ==> 3 <= n <= b@.len(),
        blob_tail_missing(b@) ==> invalid_with(r, blob_tail_message(b@[0])),
    decreases room, 0usize,
{
    let len = b.len();
    if len < 3 {
        return Err(RespDecodeError::NotComplete);
    }
    let p = b[0];
    if p == 43u8 || p == 45u8 || p == 58u8 || p == 95u8 || p == 35u8 || p == 44u8 {
        return decode_scalar_at(b);
    }
    if p == 36u8 || p == 33u8 {
        return decode_blob_at(b);
    }
    if !(p == 42u8 || p == 126u8 || p == 37u8) {
        return Err(RespDecodeError::InvalidFrameType("unknown frame prefix".to_owned()));
    }
    let e = match crlf_search(b, 1, 1) {
        Some(e) => e,
        None => return Err(RespDecodeError::NotComplete),
    };
    let l = match parse_i64_bytes(slice_subrange(b, 1, e)) {
        Some(v) => v,
        None => return Err(RespDecodeError::ParseError),
    };
    if l == -1 && p == 42u8 {
        return Ok((RespFrame::Array(RespArray(None)), e + 2));
    }
    if l < 0 {
        return Err(invalid("negative count"));
    }
    if room == 0 {
        return Err(invalid("frames nest too deep"));
    }
    let start = e + 2;
    let rest = slice_subrange(b, start, len);
    assert(rest@ =~= b@.skip(start as int));
    if p == 37u8 {
        match decode_entries_at(rest, l as u64, room - 1) {
            Ok((m, k)) => Ok((RespFrame::Mapping(m), start + k)),
            Err(err) => Err(err),
        }
    } else {
        match decode_items_at(rest, l as u64, room - 1) {
            Ok((v, k)) => {
                if p == 42u8 {
                    Ok((RespFrame::Array(RespArray(Some(v))), start + k))
                } else {
                    Ok((RespFrame::Members(RespSet(v)), start + k))
                }
            },
            Err(err) => Err(err),
        }
    }
}

/// `n` frames, one after the other.
fn decode_items_at(b: &[u8], n: u64, room: usize) -> (r: Result<(Vec<RespFrame>, usize), RespDecodeError>)
    ensures
        items_result(r, decode_items(b@, n as int, room as nat)),
        r matches Ok((_, k)) ==> k <= b@.len(),
    decreases room, 1usize,
{
    let len = b.len();
    let mut items: Vec<RespFrame> = Vec::new();
    let mut pos: usize = 0;
    let mut i: u64 = 0;
    assert(b@.skip(0) =~= b@);
    assert(frames_model(items@) =~= Seq::<Frame>::empty());
    while i < n
        invariant
            pos <= len,
            len == b@.len(),
            i <= n,
            decode_items(b@, n as int, room as nat) == prepend_all(
                frames_model(items@),
                pos as int,
                decode_items(b@.skip(pos as int), n - i, room as nat),
            ),
        decreases n - i,
    {
        let rest = slice_subrange(b, pos, len);
        assert(rest@ =~= b@.skip(pos as int));
        match decode_at(rest, room) {
            Ok((f, k)) => {
                proof {
                    assert(rest@.skip(k as int) =~= b@.skip(pos + k));
                    lemma_prepend_all(
                        frames_model(items@),
                        pos as int,
                        f@,
                        k as int,
                        decode_items(b@.skip(pos + k), n - i - 1, room as nat),
                    );
                    assert(items@.push(f).drop_last() =~= items@);
                }
                items.push(f);
                pos = pos + k;
                i = i + 1;
            },
            Err(err) => {
                return Err(err);
            },
        }
    }
    assert(frames_model(items@) + Seq::<Frame>::empty() =~= frames_model(items@));
    Ok((items, pos))
}

/// A map key: a simple string.
fn decode_key_at(b: &[u8]) -> (r: Result<(RespSimpleString, usize), RespDecodeError>)
    ensures
        match decode_key(b@) {
            Parsed::Done(t, k) => r is Ok && str_bytes(r->Ok_0.0.0) == t && r->Ok_0.1 as int == k,
            other => r is Err && error_fits(r->Err_0, other),
        },
        r matches Ok((_, n)) ==> 3 <= n <= b@.len(),
{
    if b.len() < 3 {
        return Err(RespDecodeError::NotComplete);
    }
    if b[0] != 43u8 {
        return Err(RespDecodeError::InvalidFrameType("map key must be a simple string".to_owned()));
    }
    match decode_scalar_at(b) {
        Ok((RespFrame::SimpleString(s), k)) => Ok((s, k)),
        Ok(_) => Err(RespDecodeError::InvalidFrameType("map key must be a simple string".to_owned())),
        Err(err) => Err(err),
    }
}

/// `n` keys, each followed by its value, set in turn in a map.
fn decode_entries_at(b: &[u8], n: u64, room: usize) -> (r: Result<(RespMap, usize), RespDecodeError>)
    ensures
        entries_result(r, decode_entries(b@, n as int, room as nat)),
        r matches Ok((_, k)) ==> k <= b@.len(),
    decreases room, 1usize,
{
    let len = b.len();
    let mut map = RespMap::new();
    let ghost acc: Seq<(Seq<u8>, Frame)> = Seq::empty();
    let mut pos: usize = 0;
    let mut i: u64 = 0;
    assert(b@.skip(0) =~= b@);
    while i < n
        invariant
            pos <= len,
            len == b@.len(),
            i <= n,
            pairs_model(map.0@) == build_map(acc),
            decode_entries(b@, n as int, room as nat) == prepend_all(
                acc,
                pos as int,
                decode_entries(b@.skip(pos as int), n - i, room as nat),
            ),
        decreases n - i,
    {
        let rest = slice_subrange(b, pos, len);
        assert(rest@ =~= b@.skip(pos as int));
        let (key, k) = match decode_key_at(rest) {
            Ok(x) => x,
            Err(err) => return Err(err),
        };
        let rest2 = slice_subrange(rest, k, rest.len());
        assert(rest2@ =~= rest@.skip(k as int));
        match decode_at(rest2, room) {
            Ok((v, j)) => {
                let ghost entry = (str_bytes(key.0), v@);
                proof {
                    assert(rest@.skip(k + j) =~= b@.skip(pos + k + j));
                    assert(rest2@.skip(j as int) =~= rest@.skip(k + j));
                    lemma_prepend_all(
                        acc,
                        pos as int,
                        entry,
                        k + j,
                        decode_entries(b@.skip(pos + k + j), n - i - 1, room as nat),
                    );
                    assert(acc.push(entry).drop_last() =~= acc);
                }
                map.insert(key, v);
                proof {
                    acc = acc.push(entry);
                }
                pos = pos + k + j;
                i = i + 1;
            },
            Err(err) => {
                return Err(err);
            },
        }
    }
    assert(acc + Seq::<(Seq<u8>, Frame)>::empty() =~= acc);
    Ok((map, pos))
}

impl RespDouble {
    /// A double from its decimal text: an optional sign, then `inf`, `nan`,
    /// or a decimal number in plain or scientific notation.
    pub fn from_text(t: &[u8]) -> (r: Option<RespDouble>)
        ensures
            r is Some <==> no_crlf(t@) && double_text_ok(t@),
            r matches Some(d) ==> d.0@ == t@,
    {
        if no_crlf_exec(t) && double_text_ok_exec(t) {
            Some(RespDouble(slice_to_vec(t)))
        } else {
            None
        }
    }
}

} // verus!
