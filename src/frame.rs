//! The RESP frame types and their mathematical model.
use vstd::prelude::*;
use vstd::slice::slice_to_vec;
use vstd::utf8::*;
use crate::text::{all_digits, in_i64, parse_i64, sign_len};

verus! {

/// The deepest nesting of aggregates that a frame may have.
pub const MAX_DEPTH: usize = 128;

/// The mathematical value of a frame. Text payloads are held as the bytes
/// that go on the wire.
pub enum Frame {
    SimpleString(Seq<u8>),
    SimpleError(Seq<u8>),
    BulkError(Seq<u8>),
    Integer(int),
    /// `None` is the null bulk string.
    BulkString(Option<Seq<u8>>),
    /// `None` is the null array.
    Array(Option<Seq<Frame>>),
    Null,
    Boolean(bool),
    /// The decimal text of the value.
    Double(Seq<u8>),
    /// Entries in increasing order of their keys.
    Mapping(Seq<(Seq<u8>, Frame)>),
    Members(Seq<Frame>),
}

/// A simple string: text without CR or LF.
#[derive(Debug, Clone, PartialEq, Eq, PartialOrd, Ord, Hash)]
pub struct RespSimpleString(pub String);

/// A simple error: text without CR or LF.
#[derive(Debug, Clone, PartialEq, Eq, PartialOrd, Ord, Hash)]
pub struct RespSimpleError(pub String);

/// A bulk error: a length-prefixed byte payload.
#[derive(Debug, Clone, PartialEq, Eq, PartialOrd, Ord, Hash)]
pub struct RespBulkError(pub Vec<u8>);

/// A 64-bit signed integer.
#[derive(Debug, Clone, PartialEq, Eq, PartialOrd, Ord, Hash)]
pub struct RespInteger(pub i64);

/// A bulk string: a length-prefixed byte payload, or the null bulk string.
#[derive(Debug, Clone, PartialEq, Eq, PartialOrd, Ord, Hash)]
pub struct RespBulkString(pub Option<Vec<u8>>);

/// An array of frames, or the null array.
#[derive(Debug, PartialEq, Eq, PartialOrd, Ord, Hash)]
pub struct RespArray(pub Option<Vec<RespFrame>>);

/// The null frame.
#[derive(Debug, Clone, PartialEq, Eq, PartialOrd, Ord, Hash)]
pub struct RespNull;

/// A double, held as its decimal text (for instance `+1.5e2`, `-3`, `inf`).
#[derive(Debug, Clone, PartialEq, Eq, PartialOrd, Ord, Hash)]
pub struct RespDouble(pub Vec<u8>);

/// A map from simple strings to frames, kept in increasing order of keys.
#[derive(Debug, PartialEq, Eq, PartialOrd, Ord, Hash)]
pub struct RespMap(pub(crate) Vec<(RespSimpleString, RespFrame)>);

impl RespMap {
    /// The entries, as keys on the wire and frame values, in key order.
    pub open(crate) spec fn entries(self) -> Seq<(Seq<u8>, Frame)>
        decreases self,
    {
        pairs_model(self.0@)
    }

    /// The keys are in strictly increasing byte order, so each occurs once.
    #[verifier::type_invariant]
    pub(crate) open spec fn sorted(self) -> bool {
        keys_sorted(pairs_model(self.0@))
    }
}

/// A set: an ordered sequence of frames.
#[derive(Debug, PartialEq, Eq, PartialOrd, Ord, Hash)]
pub struct RespSet(pub Vec<RespFrame>);

/// One RESP value.
#[derive(Debug, PartialEq, Eq, PartialOrd, Ord, Hash)]
pub enum RespFrame {
    SimpleString(RespSimpleString),
    Error(RespSimpleError),
    BulkError(RespBulkError),
    Integer(RespInteger),
    BulkString(RespBulkString),
    Array(RespArray),
    Null(RespNull),
    Boolean(bool),
    Double(RespDouble),
    Mapping(RespMap),
    Members(RespSet),
}

/// The bytes that stand for a string on the wire.
pub open spec fn str_bytes(s: String) -> Seq<u8> {
    encode_utf8(s@)
}

pub open spec fn frame_model(f: RespFrame) -> Frame
    decreases f,
{
    match f {
        RespFrame::SimpleString(s) => Frame::SimpleString(str_bytes(s.0)),
        RespFrame::Error(s) => Frame::SimpleError(str_bytes(s.0)),
        RespFrame::BulkError(b) => Frame::BulkError(b.0@),
        RespFrame::Integer(n) => Frame::Integer(n.0 as int),
        RespFrame::BulkString(b) => match b.0 {
            Some(v) => Frame::BulkString(Some(v@)),
            None => Frame::BulkString(None),
        },
        RespFrame::Array(a) => match a.0 {
            Some(v) => Frame::Array(Some(frames_model(v@))),
            None => Frame::Array(None),
        },
        RespFrame::Null(_) => Frame::Null,
        RespFrame::Boolean(b) => Frame::Boolean(b),
        RespFrame::Double(d) => Frame::Double(d.0@),
        RespFrame::Mapping(m) => Frame::Mapping(m.entries()),
        RespFrame::Members(s) => Frame::Members(frames_model(s.0@)),
    }
}

pub open spec fn frames_model(s: Seq<RespFrame>) -> Seq<Frame>
    decreases s,
{
    if s.len() == 0 {
        Seq::empty()
    } else {
        frames_model(s.drop_last()).push(frame_model(s.last()))
    }
}

pub open spec fn pairs_model(s: Seq<(RespSimpleString, RespFrame)>) -> Seq<(Seq<u8>, Frame)>
    decreases s,
{
    if s.len() == 0 {
        Seq::empty()
    } else {
        pairs_model(s.drop_last()).push((str_bytes(s.last().0.0), frame_model(s.last().1)))
    }
}

impl View for RespFrame {
    type V = Frame;

    open spec fn view(&self) -> Frame {
        frame_model(*self)
    }
}

pub proof fn lemma_frames_model(s: Seq<RespFrame>)
    ensures
        frames_model(s).len() == s.len(),
        forall|i: int| 0 <= i < s.len() ==> #[trigger] frames_model(s)[i] == frame_model(s[i]),
    decreases s.len(),
{
    if s.len() > 0 {
        lemma_frames_model(s.drop_last());
    }
}

pub proof fn lemma_pairs_model(s: Seq<(RespSimpleString, RespFrame)>)
    ensures
        pairs_model(s).len() == s.len(),
        forall|i: int|
            0 <= i < s.len() ==> #[trigger] pairs_model(s)[i] == (
                str_bytes(s[i].0.0),
                frame_model(s[i].1),
            ),
    decreases s.len(),
{
    if s.len() > 0 {
        lemma_pairs_model(s.drop_last());
    }
}

/// Neither CR nor LF occurs in the bytes.
pub open spec fn no_crlf(t: Seq<u8>) -> bool {
    forall|i: int| 0 <= i < t.len() ==> #[trigger] t[i] != 13u8 && t[i] != 10u8
}

/// What a simple string or simple error may hold.
pub open spec fn line_text_ok(t: Seq<u8>) -> bool {
    no_crlf(t) && valid_utf8(t)
}

/// Byte-wise lexicographic order.
pub open spec fn bytes_lt(a: Seq<u8>, b: Seq<u8>) -> bool
    decreases a.len(),
{
    if a.len() == 0 {
        b.len() > 0
    } else if b.len() == 0 {
        false
    } else if a[0] != b[0] {
        a[0] < b[0]
    } else {
        bytes_lt(a.drop_first(), b.drop_first())
    }
}

pub open spec fn keys_sorted(p: Seq<(Seq<u8>, Frame)>) -> bool {
    forall|i: int, j: int| 0 <= i < j < p.len() ==> bytes_lt(#[trigger] p[i].0, #[trigger] p[j].0)
}

/// The first index of `c` in `s`, or the length of `s` when it does not occur.
pub open spec fn index_of(s: Seq<u8>, c: u8) -> int
    decreases s.len(),
{
    if s.len() == 0 {
        0
    } else if s[0] == c {
        0
    } else {
        1 + index_of(s.drop_first(), c)
    }
}

/// Digits, optionally followed by a `.` and more digits.
pub open spec fn mantissa_ok(m: Seq<u8>) -> bool {
    let d = index_of(m, 46u8);
    let int_part = m.take(d);
    int_part.len() > 0 && all_digits(int_part) && (d == m.len() || (m.skip(d + 1).len() > 0
        && all_digits(m.skip(d + 1))))
}

/// A decimal number with an optional exponent.
pub open spec fn decimal_ok(b: Seq<u8>) -> bool {
    let e = index_of(b, 101u8);
    mantissa_ok(b.take(e)) && (e == b.len() || parse_i64(b.skip(e + 1)) is Some)
}

/// The text of a double: an optional sign, then `inf`, `nan`, or a decimal
/// number in plain or scientific notation (lower-case `e`).
pub open spec fn double_text_ok(t: Seq<u8>) -> bool {
    let b = t.skip(sign_len(t));
    b =~= seq![105u8, 110u8, 102u8] || b =~= seq![110u8, 97u8, 110u8] || b =~= seq![
        78u8,
        97u8,
        78u8,
    ] || decimal_ok(b)
}

/// The frame is well formed, with room for `room` more levels of aggregates.
pub open spec fn wf_at(f: Frame, room: nat) -> bool
    decreases f,
{
    match f {
        Frame::SimpleString(t) => line_text_ok(t),
        Frame::SimpleError(t) => line_text_ok(t),
        Frame::BulkError(b) => b.len() <= i64::MAX,
        Frame::Integer(n) => in_i64(n),
        Frame::BulkString(b) => b is Some ==> b->0.len() <= i64::MAX,
        Frame::Array(a) => match a {
            Some(items) => room > 0 && items.len() <= i64::MAX && forall|i: int|
                0 <= i < items.len() ==> wf_at(#[trigger] items[i], (room - 1) as nat),
            None => true,
        },
        Frame::Null => true,
        Frame::Boolean(_) => true,
        Frame::Double(t) => no_crlf(t) && double_text_ok(t),
        Frame::Mapping(p) => room > 0 && p.len() <= i64::MAX && keys_sorted(p) && forall|i: int|
            0 <= i < p.len() ==> line_text_ok(#[trigger] p[i].0) && wf_at(p[i].1, (room - 1) as nat),
        Frame::Members(items) => room > 0 && items.len() <= i64::MAX && forall|i: int|
            0 <= i < items.len() ==> wf_at(#[trigger] items[i], (room - 1) as nat),
    }
}

/// The frame is well formed and nests at most `MAX_DEPTH` aggregates deep.
pub open spec fn wf(f: Frame) -> bool {
    wf_at(f, MAX_DEPTH as nat)
}

/// Relies on `String::from_utf8`: it succeeds exactly when the bytes are
/// valid UTF-8, and the string then holds the characters they encode.
#[verifier::external_body]
pub(crate) fn utf8_string(bytes: Vec<u8>) -> (r: Option<String>)
    ensures
        r is Some <==> valid_utf8(bytes@),
        r is Some ==> r->0@ == decode_utf8(bytes@),
{
    String::from_utf8(bytes).ok()
}

impl RespFrame {
    /// A copy of the frame, with the same value.
    pub fn copy_frame(&self) -> (r: RespFrame)
        ensures
            r@ == self@,
        decreases self,
    {
        match self {
            RespFrame::SimpleString(s) => RespFrame::SimpleString(RespSimpleString(s.0.clone())),
            RespFrame::Error(s) => RespFrame::Error(RespSimpleError(s.0.clone())),
            RespFrame::BulkError(b) => RespFrame::BulkError(RespBulkError(slice_to_vec(b.0.as_slice()))),
            RespFrame::Integer(n) => RespFrame::Integer(RespInteger(n.0)),
            RespFrame::BulkString(b) => match &b.0 {
                Some(v) => RespFrame::BulkString(RespBulkString(Some(slice_to_vec(v.as_slice())))),
                None => RespFrame::BulkString(RespBulkString(None)),
            },
            RespFrame::Array(a) => match &a.0 {
                Some(v) => RespFrame::Array(RespArray(Some(copy_frames(v)))),
                None => RespFrame::Array(RespArray(None)),
            },
            RespFrame::Null(_) => RespFrame::Null(RespNull),
            RespFrame::Boolean(b) => RespFrame::Boolean(*b),
            RespFrame::Double(d) => RespFrame::Double(RespDouble(slice_to_vec(d.0.as_slice()))),
            RespFrame::Mapping(m) => {
                proof {
                    use_type_invariant(m);
                }
                RespFrame::Mapping(RespMap(copy_entries(&m.0)))
            },
            RespFrame::Members(s) => RespFrame::Members(RespSet(copy_frames(&s.0))),
        }
    }
}

fn copy_frames(v: &Vec<RespFrame>) -> (r: Vec<RespFrame>)
    ensures
        frames_model(r@) == frames_model(v@),
    decreases v,
{
    let mut r: Vec<RespFrame> = Vec::new();
    let mut i: usize = 0;
    while i < v.len()
        invariant
            i <= v@.len(),
            r@.len() == i,
            forall|j: int| 0 <= j < i ==> frame_model(#[trigger] r@[j]) == frame_model(v@[j]),
        decreases v@.len() - i,
    {
        r.push(v[i].copy_frame());
        i = i + 1;
    }
    proof {
        lemma_frames_model(r@);
        lemma_frames_model(v@);
        assert(frames_model(r@) =~= frames_model(v@));
    }
    r
}

fn copy_entries(v: &Vec<(RespSimpleString, RespFrame)>) -> (r: Vec<(RespSimpleString, RespFrame)>)
    ensures
        pairs_model(r@) == pairs_model(v@),
    decreases v,
{
    let mut r: Vec<(RespSimpleString, RespFrame)> = Vec::new();
    let mut i: usize = 0;
    while i < v.len()
        invariant
            i <= v@.len(),
            r@.len() == i,
            forall|j: int|
                0 <= j < i ==> (#[trigger] r@[j]).0.0@ == v@[j].0.0@ && frame_model(r@[j].1)
                    == frame_model(v@[j].1),
        decreases v@.len() - i,
    {
        proof {
            assert(decreases_to!(v => v[i as int]));
        }
        let value = v[i].1.copy_frame();
        r.push((RespSimpleString(v[i].0.0.clone()), value));
        i = i + 1;
    }
    proof {
        lemma_pairs_model(r@);
        lemma_pairs_model(v@);
        assert(pairs_model(r@) =~= pairs_model(v@));
    }
    r
}

impl RespSimpleString {
    pub fn new(s: &str) -> (r: Self)
        ensures
            r.0@ == s@,
    {
        RespSimpleString(s.to_owned())
    }
}

impl RespSimpleError {
    pub fn new(s: &str) -> (r: Self)
        ensures
            r.0@ == s@,
    {
        RespSimpleError(s.to_owned())
    }
}

impl RespBulkError {
    pub fn new(b: &[u8]) -> (r: Self)
        ensures
            r.0@ == b@,
    {
        RespBulkError(slice_to_vec(b))
    }
}

impl RespBulkString {
    pub fn new(b: &[u8]) -> (r: Self)
        ensures
            r.0 is Some,
            r.0->Some_0@ == b@,
    {
        RespBulkString(Some(slice_to_vec(b)))
    }

    /// The null bulk string.
    pub fn null() -> (r: Self)
        ensures
            r.0 is None,
    {
        RespBulkString(None)
    }
}

impl RespInteger {
    pub fn new(integer: i64) -> (r: Self)
        ensures
            r.0 == integer,
    {
        RespInteger(integer)
    }
}

impl RespArray {
    pub fn new(frame_vec: Vec<RespFrame>) -> (r: Self)
        ensures
            r.0 == Some(frame_vec),
    {
        RespArray(Some(frame_vec))
    }

    /// The null array.
    pub fn null() -> (r: Self)
        ensures
            r.0 is None,
    {
        RespArray(None)
    }
}

impl RespSet {
    pub fn new(frame_vec: Vec<RespFrame>) -> (r: Self)
        ensures
            r.0 == frame_vec,
    {
        RespSet(frame_vec)
    }
}

impl From<RespSimpleString> for RespFrame {
    fn from(v: RespSimpleString) -> Self {
        RespFrame::SimpleString(v)
    }
}

impl vstd::std_specs::convert::FromSpecImpl<RespSimpleString> for RespFrame {
    open spec fn obeys_from_spec() -> bool {
        true
    }

    open spec fn from_spec(v: RespSimpleString) -> RespFrame {
        RespFrame::SimpleString(v)
    }
}

impl From<RespSimpleError> for RespFrame {
    fn from(v: RespSimpleError) -> Self {
        RespFrame::Error(v)
    }
}

impl vstd::std_specs::convert::FromSpecImpl<RespSimpleError> for RespFrame {
    open spec fn obeys_from_spec() -> bool {
        true
    }

    open spec fn from_spec(v: RespSimpleError) -> RespFrame {
        RespFrame::Error(v)
    }
}

impl From<RespBulkError> for RespFrame {
    fn from(v: RespBulkError) -> Self {
        RespFrame::BulkError(v)
    }
}

impl vstd::std_specs::convert::FromSpecImpl<RespBulkError> for RespFrame {
    open spec fn obeys_from_spec() -> bool {
        true
    }

    open spec fn from_spec(v: RespBulkError) -> RespFrame {
        RespFrame::BulkError(v)
    }
}

impl From<RespInteger> for RespFrame {
    fn from(v: RespInteger) -> Self {
        RespFrame::Integer(v)
    }
}

impl vstd::std_specs::convert::FromSpecImpl<RespInteger> for RespFrame {
    open spec fn obeys_from_spec() -> bool {
        true
    }

    open spec fn from_spec(v: RespInteger) -> RespFrame {
        RespFrame::Integer(v)
    }
}

impl From<RespBulkString> for RespFrame {
    fn from(v: RespBulkString) -> Self {
        RespFrame::BulkString(v)
    }
}

impl vstd::std_specs::convert::FromSpecImpl<RespBulkString> for RespFrame {
    open spec fn obeys_from_spec() -> bool {
        true
    }

    open spec fn from_spec(v: RespBulkString) -> RespFrame {
        RespFrame::BulkString(v)
    }
}

impl From<RespArray> for RespFrame {
    fn from(v: RespArray) -> Self {
        RespFrame::Array(v)
    }
}

impl vstd::std_specs::convert::FromSpecImpl<RespArray> for RespFrame {
    open spec fn obeys_from_spec() -> bool {
        true
    }

    open spec fn from_spec(v: RespArray) -> RespFrame {
        RespFrame::Array(v)
    }
}

impl From<RespNull> for RespFrame {
    fn from(v: RespNull) -> Self {
        RespFrame::Null(v)
    }
}

impl vstd::std_specs::convert::FromSpecImpl<RespNull> for RespFrame {
    open spec fn obeys_from_spec() -> bool {
        true
    }

    open spec fn from_spec(v: RespNull) -> RespFrame {
        RespFrame::Null(v)
    }
}

impl From<bool> for RespFrame {
    fn from(v: bool) -> Self {
        RespFrame::Boolean(v)
    }
}

impl vstd::std_specs::convert::FromSpecImpl<bool> for RespFrame {
    open spec fn obeys_from_spec() -> bool {
        true
    }

    open spec fn from_spec(v: bool) -> RespFrame {
        RespFrame::Boolean(v)
    }
}

impl From<RespDouble> for RespFrame {
    fn from(v: RespDouble) -> Self {
        RespFrame::Double(v)
    }
}

impl vstd::std_specs::convert::FromSpecImpl<RespDouble> for RespFrame {
    open spec fn obeys_from_spec() -> bool {
        true
    }

    open spec fn from_spec(v: RespDouble) -> RespFrame {
        RespFrame::Double(v)
    }
}

impl From<RespMap> for RespFrame {
    fn from(v: RespMap) -> Self {
        RespFrame::Mapping(v)
    }
}

impl vstd::std_specs::convert::FromSpecImpl<RespMap> for RespFrame {
    open spec fn obeys_from_spec() -> bool {
        true
    }

    open spec fn from_spec(v: RespMap) -> RespFrame {
        RespFrame::Mapping(v)
    }
}

impl From<RespSet> for RespFrame {
    fn from(v: RespSet) -> Self {
        RespFrame::Members(v)
    }
}

impl vstd::std_specs::convert::FromSpecImpl<RespSet> for RespFrame {
    open spec fn obeys_from_spec() -> bool {
        true
    }

    open spec fn from_spec(v: RespSet) -> RespFrame {
        RespFrame::Members(v)
    }
}

impl From<i64> for RespInteger {
    fn from(v: i64) -> Self {
        RespInteger(v)
    }
}

impl vstd::std_specs::convert::FromSpecImpl<i64> for RespInteger {
    open spec fn obeys_from_spec() -> bool {
        true
    }

    open spec fn from_spec(v: i64) -> RespInteger {
        RespInteger(v)
    }
}

} // verus!
