//! Laws that relate several commands.
use vstd::prelude::*;
use crate::backend::hash_or_empty;
use crate::cmd::{
    command_spec, hkv_after, hmget_reply, kv_after, lower_bytes, reply_fits, CommandSpec,
};
use crate::frame::Frame;

verus! {

/// `SET key value` followed by `GET key` answers `value`.
pub proof fn set_then_get(
    kv: Map<Seq<char>, Frame>,
    h: Map<Seq<char>, Map<Seq<char>, Frame>>,
    key: Seq<char>,
    value: Frame,
    r: Frame,
)
    requires
        reply_fits(
            CommandSpec::Get(key),
            kv_after(CommandSpec::SetValue(key, value), kv),
            hkv_after(CommandSpec::SetValue(key, value), h),
            r,
        ),
    ensures
        r == value,
{
}

/// `HSET key field value` followed by `HGET key field` answers `value`, and
/// `HGET key other` answers null for a field `other` that was never set.
pub proof fn hset_then_hget(
    kv: Map<Seq<char>, Frame>,
    h: Map<Seq<char>, Map<Seq<char>, Frame>>,
    key: Seq<char>,
    field: Seq<char>,
    other: Seq<char>,
    value: Frame,
    r: Frame,
    r_other: Frame,
)
    requires
        other != field,
        !hash_or_empty(h, key).contains_key(other),
        reply_fits(
            CommandSpec::HGet(key, field),
            kv_after(CommandSpec::HSet(key, field, value), kv),
            hkv_after(CommandSpec::HSet(key, field, value), h),
            r,
        ),
        reply_fits(
            CommandSpec::HGet(key, other),
            kv_after(CommandSpec::HSet(key, field, value), kv),
            hkv_after(CommandSpec::HSet(key, field, value), h),
            r_other,
        ),
    ensures
        r == value,
        r_other == Frame::Null,
{
}

/// For a stored hash, `HMGET key f1 .. fn` answers an array of `n` frames
/// whose `i`th is the value of `fi`, or null where `fi` is not set.
pub proof fn hmget_aligned(
    kv: Map<Seq<char>, Frame>,
    h: Map<Seq<char>, Map<Seq<char>, Frame>>,
    key: Seq<char>,
    fields: Seq<Seq<char>>,
    r: Frame,
)
    requires
        h.contains_key(key),
        reply_fits(CommandSpec::HMGet(key, fields), kv, h, r),
    ensures
        r is Array,
        r->Array_0 is Some,
        r->Array_0->Some_0.len() == fields.len(),
        forall|i: int|
            0 <= i < fields.len() ==> #[trigger] r->Array_0->Some_0[i] == (if h[key].contains_key(
                fields[i],
            ) {
                h[key][fields[i]]
            } else {
                Frame::Null
            }),
{
    assert(r == hmget_reply(h, key, fields));
}

/// The name of a command is read without regard to ASCII letter case:
/// arrays that differ only in the case of their first item give the same
/// command, or the same error.
pub proof fn name_case_insensitive(n1: Seq<u8>, n2: Seq<u8>, rest: Seq<Frame>)
    requires
        lower_bytes(n1) == lower_bytes(n2),
    ensures
        command_spec(Some(seq![Frame::BulkString(Some(n1))] + rest)) == command_spec(
            Some(seq![Frame::BulkString(Some(n2))] + rest),
        ),
{
    let a1 = seq![Frame::BulkString(Some(n1))] + rest;
    let a2 = seq![Frame::BulkString(Some(n2))] + rest;
    assert(a1.skip(1) =~= a2.skip(1));
    if a1.len() >= 2 {
        assert(a1.skip(2) =~= a2.skip(2));
    }
    assert(forall|j: int| 1 <= j < a1.len() ==> a1[j] == a2[j]);
}

} // verus!
