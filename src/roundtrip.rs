//! Decoding what the encoder wrote gives the frame back, and a buffer that
//! holds only part of an encoded frame reads as not yet complete.
use vstd::prelude::*;
use crate::encode::{crlf, encode, encode_all, encode_pairs, header, line};
use crate::frame::{bytes_lt, keys_sorted, no_crlf, wf, wf_at, Frame, MAX_DEPTH};
use crate::grammar::{
    build_map, crlf_at, decode_entries, decode_frame, decode_items, decode_key, line_end,
    lower_bound, nth_crlf_from, Parsed,
};
use crate::text::{int_text, lemma_nat_text, lemma_parse_int_text};

verus! {

proof fn lemma_scan(b: Seq<u8>, from: int, e: int)
    requires
        0 <= from <= e,
        crlf_at(b, e),
        forall|i: int| from <= i < e ==> !crlf_at(b, i),
    ensures
        nth_crlf_from(b, from, 1) == e,
    decreases e - from,
{
    if from < e {
        lemma_scan(b, from + 1, e);
    }
}

proof fn lemma_scan_none(b: Seq<u8>, from: int)
    requires
        0 <= from,
        forall|i: int| from <= i ==> !crlf_at(b, i),
    ensures
        nth_crlf_from(b, from, 1) == -1,
    decreases b.len() - from,
{
    if from + 1 < b.len() {
        lemma_scan_none(b, from + 1);
    }
}

proof fn lemma_int_no_crlf(n: int)
    ensures
        no_crlf(int_text(n)),
        int_text(n).len() >= 1,
{
    if n < 0 {
        lemma_nat_text((-n) as nat);
        let t = int_text(n);
        assert forall|i: int| 0 <= i < t.len() implies #[trigger] t[i] != 13u8 && t[i] != 10u8 by {
            if i > 0 {
                assert(t[i] == crate::text::nat_text((-n) as nat)[i - 1]);
            }
        }
    } else {
        lemma_nat_text(n as nat);
    }
}

/// A line followed by anything: its CRLF is the first one.
proof fn lemma_line(p: u8, t: Seq<u8>, rest: Seq<u8>)
    requires
        no_crlf(t),
    ensures
        (line(p, t) + rest).len() >= 3,
        (line(p, t) + rest)[0] == p,
        line_end(line(p, t) + rest) == 1 + t.len(),
        (line(p, t) + rest).subrange(1, 1 + t.len() as int) =~= t,
        line(p, t).len() == t.len() + 3,
{
    let b = line(p, t) + rest;
    assert(b[1 + t.len() as int] == 13u8 && b[2 + t.len() as int] == 10u8);
    assert forall|i: int| 1 <= i < 1 + t.len() implies !crlf_at(b, i) by {
        assert(b[i] == t[i - 1]);
    }
    lemma_scan(b, 1, 1 + t.len() as int);
}

/// A line cut short has no CRLF after its first byte.
proof fn lemma_line_cut(p: u8, t: Seq<u8>, k: int)
    requires
        no_crlf(t),
        0 <= k < t.len() + 3,
    ensures
        line_end(line(p, t).take(k)) == -1,
{
    let b = line(p, t).take(k);
    assert forall|i: int| 1 <= i implies !crlf_at(b, i) by {
        if 1 <= i < 1 + t.len() && i < k {
            assert(b[i] == t[i - 1]);
        }
    }
    lemma_scan_none(b, 1);
}

/// The frames one after the other, read from the front.
proof fn lemma_encode_all_front(s: Seq<Frame>)
    requires
        s.len() > 0,
    ensures
        encode_all(s) =~= encode(s[0]) + encode_all(s.drop_first()),
    decreases s.len(),
{
    if s.len() > 1 {
        lemma_encode_all_front(s.drop_last());
        assert(s.drop_last().drop_first() =~= s.drop_first().drop_last());
        assert(s.drop_first().last() == s.last());
    } else {
        assert(s.drop_last() =~= Seq::<Frame>::empty());
        assert(s.drop_first() =~= Seq::<Frame>::empty());
    }
}

/// The entries one after the other, read from the front.
proof fn lemma_encode_pairs_front(p: Seq<(Seq<u8>, Frame)>)
    requires
        p.len() > 0,
    ensures
        encode_pairs(p) =~= line(43u8, p[0].0) + encode(p[0].1) + encode_pairs(p.drop_first()),
    decreases p.len(),
{
    if p.len() > 1 {
        lemma_encode_pairs_front(p.drop_last());
        assert(p.drop_last().drop_first() =~= p.drop_first().drop_last());
        assert(p.drop_first().last() == p.last());
    } else {
        assert(p.drop_last() =~= Seq::<(Seq<u8>, Frame)>::empty());
        assert(p.drop_first() =~= Seq::<(Seq<u8>, Frame)>::empty());
    }
}

proof fn lemma_lower_bound_all(m: Seq<(Seq<u8>, Frame)>, k: Seq<u8>)
    requires
        forall|i: int| 0 <= i < m.len() ==> bytes_lt(#[trigger] m[i].0, k),
    ensures
        lower_bound(m, k) == m.len(),
    decreases m.len(),
{
    if m.len() > 0 {
        assert(bytes_lt(m[0].0, k));
        lemma_lower_bound_all(m.drop_first(), k);
    }
}

/// Setting entries whose keys increase, in turn, gives them back.
proof fn lemma_build_sorted(p: Seq<(Seq<u8>, Frame)>)
    requires
        keys_sorted(p),
    ensures
        build_map(p) == p,
    decreases p.len(),
{
    if p.len() > 0 {
        let m = p.drop_last();
        assert(keys_sorted(m));
        lemma_build_sorted(m);
        assert forall|i: int| 0 <= i < m.len() implies bytes_lt(#[trigger] m[i].0, p.last().0) by {
            assert(m[i] == p[i]);
        }
        lemma_lower_bound_all(m, p.last().0);
        assert(m.insert(m.len() as int, p.last()) =~= p);
    }
}

/// The encoding of a well-formed frame, followed by anything, reads back
/// as that frame.
pub proof fn lemma_decode_encode(f: Frame, room: nat, rest: Seq<u8>)
    requires
        wf_at(f, room),
    ensures
        decode_frame(encode(f) + rest, room) == Parsed::Done(f, encode(f).len() as int),
    decreases f, 0nat,
{
    match f {
        Frame::SimpleString(t) => {
            lemma_line(43u8, t, rest);
        },
        Frame::SimpleError(t) => {
            lemma_line(45u8, t, rest);
        },
        Frame::Integer(n) => {
            lemma_int_no_crlf(n);
            lemma_line(58u8, int_text(n), rest);
            lemma_parse_int_text(n);
        },
        Frame::Null => {
            lemma_line(95u8, Seq::empty(), rest);
        },
        Frame::Boolean(x) => {
            let t: Seq<u8> = if x {
                seq![116u8]
            } else {
                seq![102u8]
            };
            lemma_line(35u8, t, rest);
        },
        Frame::Double(t) => {
            lemma_line(44u8, t, rest);
        },
        Frame::BulkError(d) => {
            lemma_blob(33u8, d, room, rest);
        },
        Frame::BulkString(b) => match b {
            Some(d) => {
                lemma_blob(36u8, d, room, rest);
            },
            None => {
                lemma_int_no_crlf(-1);
                lemma_line(36u8, int_text(-1), rest);
                lemma_parse_int_text(-1);
            },
        },
        Frame::Array(a) => match a {
            Some(items) => {
                lemma_aggregate(42u8, items, room, rest);
            },
            None => {
                lemma_int_no_crlf(-1);
                lemma_line(42u8, int_text(-1), rest);
                lemma_parse_int_text(-1);
            },
        },
        Frame::Members(items) => {
            lemma_aggregate(126u8, items, room, rest);
        },
        Frame::Mapping(p) => {
            let n = p.len() as int;
            let h = header(37u8, n);
            lemma_int_no_crlf(n);
            lemma_parse_int_text(n);
            lemma_line(37u8, int_text(n), encode_pairs(p) + rest);
            assert(encode(f) + rest =~= h + (encode_pairs(p) + rest));
            assert((h + (encode_pairs(p) + rest)).skip(h.len() as int) =~= encode_pairs(p) + rest);
            lemma_entries(p, (room - 1) as nat, rest);
            lemma_build_sorted(p);
        },
    }
}

proof fn lemma_blob(p: u8, d: Seq<u8>, room: nat, rest: Seq<u8>)
    requires
        p == 33u8 || p == 36u8,
        d.len() <= i64::MAX,
    ensures
        decode_frame(header(p, d.len() as int) + d + crlf() + rest, room) == Parsed::Done(
            if p == 36u8 {
                Frame::BulkString(Some(d))
            } else {
                Frame::BulkError(d)
            },
            (header(p, d.len() as int) + d + crlf()).len() as int,
        ),
{
    let n = d.len() as int;
    let h = header(p, n);
    let b = h + d + crlf() + rest;
    lemma_int_no_crlf(n);
    lemma_parse_int_text(n);
    lemma_line(p, int_text(n), d + crlf() + rest);
    assert(b =~= h + (d + crlf() + rest));
    let start = h.len() as int;
    assert(b.subrange(start, start + n) =~= d);
    assert(crlf_at(b, start + n));
}

proof fn lemma_aggregate(p: u8, items: Seq<Frame>, room: nat, rest: Seq<u8>)
    requires
        p == 42u8 || p == 126u8,
        room > 0,
        items.len() <= i64::MAX,
        forall|i: int| 0 <= i < items.len() ==> wf_at(#[trigger] items[i], (room - 1) as nat),
    ensures
        decode_frame(header(p, items.len() as int) + encode_all(items) + rest, room) == Parsed::Done(
            if p == 42u8 {
                Frame::Array(Some(items))
            } else {
                Frame::Members(items)
            },
            (header(p, items.len() as int) + encode_all(items)).len() as int,
        ),
    decreases items, 2nat,
{
    let n = items.len() as int;
    let h = header(p, n);
    lemma_int_no_crlf(n);
    lemma_parse_int_text(n);
    lemma_line(p, int_text(n), encode_all(items) + rest);
    assert(h + encode_all(items) + rest =~= h + (encode_all(items) + rest));
    assert((h + (encode_all(items) + rest)).skip(h.len() as int) =~= encode_all(items) + rest);
    lemma_items(items, (room - 1) as nat, rest);
}

/// The frames one after the other, followed by anything, read back.
proof fn lemma_items(items: Seq<Frame>, room: nat, rest: Seq<u8>)
    requires
        forall|i: int| 0 <= i < items.len() ==> wf_at(#[trigger] items[i], room),
    ensures
        decode_items(encode_all(items) + rest, items.len() as int, room) == Parsed::Done(
            items,
            encode_all(items).len() as int,
        ),
    decreases items, 1nat,
{
    if items.len() > 0 {
        let first = items[0];
        let tail = items.drop_first();
        lemma_encode_all_front(items);
        let e0 = encode(first);
        let b = encode_all(items) + rest;
        assert(b =~= e0 + (encode_all(tail) + rest));
        assert(wf_at(items[0], room));
        lemma_decode_encode(first, room, encode_all(tail) + rest);
        assert(b.skip(e0.len() as int) =~= encode_all(tail) + rest);
        assert forall|i: int| 0 <= i < tail.len() implies wf_at(#[trigger] tail[i], room) by {
            assert(tail[i] == items[i + 1]);
        }
        lemma_items(tail, room, rest);
        assert(seq![first] + tail =~= items);
    } else {
        assert(encode_all(items) + rest =~= rest);
        assert(items =~= Seq::<Frame>::empty());
    }
}

/// The entries one after the other, followed by anything, read back.
proof fn lemma_entries(p: Seq<(Seq<u8>, Frame)>, room: nat, rest: Seq<u8>)
    requires
        forall|i: int|
            0 <= i < p.len() ==> crate::frame::line_text_ok(#[trigger] p[i].0) && wf_at(p[i].1, room),
    ensures
        decode_entries(encode_pairs(p) + rest, p.len() as int, room) == Parsed::Done(
            p,
            encode_pairs(p).len() as int,
        ),
    decreases p, 1nat,
{
    if p.len() > 0 {
        let (key, value) = p[0];
        let tail = p.drop_first();
        lemma_encode_pairs_front(p);
        let kl = line(43u8, key);
        let ev = encode(value);
        let b = encode_pairs(p) + rest;
        assert(b =~= kl + (ev + encode_pairs(tail) + rest));
        assert(crate::frame::line_text_ok(p[0].0) && wf_at(p[0].1, room));
        lemma_line(43u8, key, ev + encode_pairs(tail) + rest);
        assert(decode_key(b) == Parsed::Done(key, kl.len() as int));
        assert(b.skip(kl.len() as int) =~= ev + (encode_pairs(tail) + rest));
        lemma_decode_encode(value, room, encode_pairs(tail) + rest);
        assert(b.skip((kl.len() + ev.len()) as int) =~= encode_pairs(tail) + rest);
        assert forall|i: int|
            0 <= i < tail.len() implies crate::frame::line_text_ok(#[trigger] tail[i].0) && wf_at(
            tail[i].1,
            room,
        ) by {
            assert(tail[i] == p[i + 1]);
        }
        lemma_entries(tail, room, rest);
        assert(seq![(key, value)] + tail =~= p);
    } else {
        assert(encode_pairs(p) + rest =~= rest);
        assert(p =~= Seq::<(Seq<u8>, Frame)>::empty());
    }
}

/// A well-formed frame's encoding cut short reads as not yet complete.
pub proof fn lemma_decode_cut(f: Frame, room: nat, k: int)
    requires
        wf_at(f, room),
        0 <= k < encode(f).len(),
    ensures
        decode_frame(encode(f).take(k), room) == Parsed::<Frame>::Incomplete,
    decreases f, 0nat,
{
    let e = encode(f);
    let b = e.take(k);
    if k < 3 {
        return;
    }
    match f {
        Frame::SimpleString(t) => {
            lemma_line_cut(43u8, t, k);
        },
        Frame::SimpleError(t) => {
            lemma_line_cut(45u8, t, k);
        },
        Frame::Integer(n) => {
            lemma_int_no_crlf(n);
            lemma_line_cut(58u8, int_text(n), k);
        },
        Frame::Null => {
            lemma_line_cut(95u8, Seq::empty(), k);
        },
        Frame::Boolean(x) => {
            let t: Seq<u8> = if x {
                seq![116u8]
            } else {
                seq![102u8]
            };
            lemma_line_cut(35u8, t, k);
        },
        Frame::Double(t) => {
            lemma_line_cut(44u8, t, k);
        },
        Frame::BulkError(d) => {
            lemma_blob_cut(33u8, d, k);
        },
        Frame::BulkString(o) => match o {
            Some(d) => {
                lemma_blob_cut(36u8, d, k);
            },
            None => {
                lemma_int_no_crlf(-1);
                lemma_line_cut(36u8, int_text(-1), k);
            },
        },
        Frame::Array(a) => match a {
            Some(items) => {
                lemma_aggregate_cut(42u8, items, room, k);
            },
            None => {
                lemma_int_no_crlf(-1);
                lemma_line_cut(42u8, int_text(-1), k);
            },
        },
        Frame::Members(items) => {
            lemma_aggregate_cut(126u8, items, room, k);
        },
        Frame::Mapping(p) => {
            let n = p.len() as int;
            let h = header(37u8, n);
            lemma_int_no_crlf(n);
            if k < h.len() {
                assert(b =~= h.take(k));
                lemma_line_cut(37u8, int_text(n), k);
            } else {
                let r = encode_pairs(p).take(k - h.len());
                assert(b =~= h + r);
                lemma_line(37u8, int_text(n), r);
                lemma_parse_int_text(n);
                assert((h + r).skip(h.len() as int) =~= r);
                lemma_entries_cut(p, (room - 1) as nat, k - h.len());
            }
        },
    }
}

proof fn lemma_blob_cut(p: u8, d: Seq<u8>, k: int)
    requires
        p == 33u8 || p == 36u8,
        d.len() <= i64::MAX,
        3 <= k < (header(p, d.len() as int) + d + crlf()).len(),
    ensures
        forall|room: nat|
            #[trigger] decode_frame((header(p, d.len() as int) + d + crlf()).take(k), room)
                == Parsed::<Frame>::Incomplete,
{
    let n = d.len() as int;
    let h = header(p, n);
    let e = h + d + crlf();
    lemma_int_no_crlf(n);
    if k < h.len() {
        assert(e.take(k) =~= h.take(k));
        lemma_line_cut(p, int_text(n), k);
    } else {
        let r = (d + crlf()).take(k - h.len());
        assert(e.take(k) =~= h + r);
        lemma_line(p, int_text(n), r);
        lemma_parse_int_text(n);
    }
}

proof fn lemma_aggregate_cut(p: u8, items: Seq<Frame>, room: nat, k: int)
    requires
        p == 42u8 || p == 126u8,
        room > 0,
        items.len() <= i64::MAX,
        forall|i: int| 0 <= i < items.len() ==> wf_at(#[trigger] items[i], (room - 1) as nat),
        3 <= k < (header(p, items.len() as int) + encode_all(items)).len(),
    ensures
        decode_frame((header(p, items.len() as int) + encode_all(items)).take(k), room)
            == Parsed::<Frame>::Incomplete,
    decreases items, 2nat,
{
    let n = items.len() as int;
    let h = header(p, n);
    let e = h + encode_all(items);
    lemma_int_no_crlf(n);
    if k < h.len() {
        assert(e.take(k) =~= h.take(k));
        lemma_line_cut(p, int_text(n), k);
    } else {
        let r = encode_all(items).take(k - h.len());
        assert(e.take(k) =~= h + r);
        lemma_line(p, int_text(n), r);
        lemma_parse_int_text(n);
        assert((h + r).skip(h.len() as int) =~= r);
        lemma_items_cut(items, (room - 1) as nat, k - h.len());
    }
}

/// The frames one after the other, cut short, read as not yet complete.
proof fn lemma_items_cut(items: Seq<Frame>, room: nat, k: int)
    requires
        forall|i: int| 0 <= i < items.len() ==> wf_at(#[trigger] items[i], room),
        0 <= k < encode_all(items).len(),
    ensures
        decode_items(encode_all(items).take(k), items.len() as int, room)
            == Parsed::<Seq<Frame>>::Incomplete,
    decreases items, 1nat,
{
    if items.len() == 0 {
        return;
    }
    let first = items[0];
    let tail = items.drop_first();
    lemma_encode_all_front(items);
    let e0 = encode(first);
    assert(wf_at(items[0], room));
    assert forall|i: int| 0 <= i < tail.len() implies wf_at(#[trigger] tail[i], room) by {
        assert(tail[i] == items[i + 1]);
    }
    if k < e0.len() {
        assert(encode_all(items).take(k) =~= e0.take(k));
        lemma_decode_cut(first, room, k);
    } else {
        let r = encode_all(tail).take(k - e0.len());
        assert(encode_all(items).take(k) =~= e0 + r);
        lemma_decode_encode(first, room, r);
        assert((e0 + r).skip(e0.len() as int) =~= r);
        lemma_items_cut(tail, room, k - e0.len());
    }
}

/// The entries one after the other, cut short, read as not yet complete.
proof fn lemma_entries_cut(p: Seq<(Seq<u8>, Frame)>, room: nat, k: int)
    requires
        forall|i: int|
            0 <= i < p.len() ==> crate::frame::line_text_ok(#[trigger] p[i].0) && wf_at(p[i].1, room),
        0 <= k < encode_pairs(p).len(),
    ensures
        decode_entries(encode_pairs(p).take(k), p.len() as int, room)
            == Parsed::<Seq<(Seq<u8>, Frame)>>::Incomplete,
    decreases p, 1nat,
{
    if p.len() == 0 {
        return;
    }
    let (key, value) = p[0];
    let tail = p.drop_first();
    lemma_encode_pairs_front(p);
    let kl = line(43u8, key);
    let ev = encode(value);
    assert(crate::frame::line_text_ok(p[0].0) && wf_at(p[0].1, room));
    assert forall|i: int|
        0 <= i < tail.len() implies crate::frame::line_text_ok(#[trigger] tail[i].0) && wf_at(
        tail[i].1,
        room,
    ) by {
        assert(tail[i] == p[i + 1]);
    }
    let b = encode_pairs(p).take(k);
    if k < kl.len() {
        assert(b =~= kl.take(k));
        lemma_line_cut(43u8, key, k);
    } else if k < kl.len() + ev.len() {
        let r = ev.take(k - kl.len());
        assert(b =~= kl + r);
        lemma_line(43u8, key, r);
        assert(decode_key(b) == Parsed::Done(key, kl.len() as int));
        assert(b.skip(kl.len() as int) =~= r);
        lemma_decode_cut(value, room, k - kl.len());
    } else {
        let r = encode_pairs(tail).take(k - kl.len() - ev.len());
        assert(b =~= kl + (ev + r));
        lemma_line(43u8, key, ev + r);
        assert(decode_key(b) == Parsed::Done(key, kl.len() as int));
        assert(b.skip(kl.len() as int) =~= ev + r);
        lemma_decode_encode(value, room, r);
        assert(b.skip((kl.len() + ev.len()) as int) =~= r);
        lemma_entries_cut(tail, room, k - kl.len() - ev.len());
    }
}

/// Round trip: decoding the encoding of a well-formed frame, whatever
/// follows it in the buffer, gives the frame back and takes exactly the
/// bytes of its encoding.
pub proof fn round_trip(f: Frame, rest: Seq<u8>)
    requires
        wf(f),
    ensures
        decode_frame(encode(f) + rest, MAX_DEPTH as nat) == Parsed::Done(f, encode(f).len() as int),
{
    lemma_decode_encode(f, MAX_DEPTH as nat, rest);
}

/// Incremental decode: when an encoded frame arrives in two parts, reading
/// after the first part gives "not complete" (or the frame, when the first
/// part is the whole encoding), and reading after both gives the frame.
pub proof fn incremental_decode(f: Frame, k: int)
    requires
        wf(f),
        0 <= k <= encode(f).len(),
    ensures
        k < encode(f).len() ==> decode_frame(encode(f).take(k), MAX_DEPTH as nat)
            == Parsed::<Frame>::Incomplete,
        k == encode(f).len() ==> decode_frame(encode(f).take(k), MAX_DEPTH as nat) == Parsed::Done(
            f,
            k,
        ),
        decode_frame(encode(f).take(k) + encode(f).skip(k), MAX_DEPTH as nat) == Parsed::Done(
            f,
            encode(f).len() as int,
        ),
{
    let e = encode(f);
    if k < e.len() {
        lemma_decode_cut(f, MAX_DEPTH as nat, k);
    } else {
        lemma_decode_encode(f, MAX_DEPTH as nat, Seq::empty());
        assert(e + Seq::<u8>::empty() =~= e.take(k));
    }
    assert(e.take(k) + e.skip(k) =~= e + Seq::<u8>::empty());
    lemma_decode_encode(f, MAX_DEPTH as nat, Seq::empty());
}

/// Pipelining: with two requests back to back in a buffer, the first read
/// takes exactly the first request and leaves the second, which the next
/// read takes in turn; answers therefore go out in the order of requests.
pub proof fn pipeline_order(f1: Frame, f2: Frame, rest: Seq<u8>)
    requires
        wf(f1),
        wf(f2),
    ensures
        decode_frame(encode(f1) + encode(f2) + rest, MAX_DEPTH as nat) == Parsed::Done(
            f1,
            encode(f1).len() as int,
        ),
        (encode(f1) + encode(f2) + rest).skip(encode(f1).len() as int) == encode(f2) + rest,
        decode_frame(encode(f2) + rest, MAX_DEPTH as nat) == Parsed::Done(f2, encode(f2).len() as int),
{
    let b = encode(f1) + encode(f2) + rest;
    assert(b =~= encode(f1) + (encode(f2) + rest));
    lemma_decode_encode(f1, MAX_DEPTH as nat, encode(f2) + rest);
    assert(b.skip(encode(f1).len() as int) =~= encode(f2) + rest);
    lemma_decode_encode(f2, MAX_DEPTH as nat, rest);
}

} // verus!
