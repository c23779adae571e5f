//! The fixed reply values the commands use, each pinned to its exact
//! wire text.

use vstd::prelude::*;

use crate::bytesutil::str_bytes;
use crate::resp::RespData;
use crate::resp::RespValue;
use crate::resp::resp_view;
use vstd::string::StringSliceAdditionalSpecFns;

verus! {

/// `OK`.
pub open spec fn ok_msg() -> Seq<u8> {
    "OK".spec_bytes()
}

/// `QUEUED`.
pub open spec fn queued_msg() -> Seq<u8> {
    "QUEUED".spec_bytes()
}

/// `PONG`.
pub open spec fn pong_msg() -> Seq<u8> {
    "PONG".spec_bytes()
}

/// The wrong-type error text.
pub open spec fn wrongtype_msg() -> Seq<u8> {
    "WRONGTYPE Operation against a key holding the wrong kind of value".spec_bytes()
}

/// The not-an-integer error text.
pub open spec fn not_int_msg() -> Seq<u8> {
    "ERR value is not an integer or out of range".spec_bytes()
}

/// The unauthenticated error text.
pub open spec fn noauth_msg() -> Seq<u8> {
    "NOAUTH Authentication required.".spec_bytes()
}

/// The wrong-password error text.
pub open spec fn wrongpass_msg() -> Seq<u8> {
    "WRONGPASS wrong password".spec_bytes()
}

/// The XADD id-too-small error text.
pub open spec fn xadd_small_msg() -> Seq<u8> {
    "ERR The ID specified in XADD is equal or smaller than the target stream top item".spec_bytes()
}

/// The XADD zero-id error text.
pub open spec fn xadd_zero_msg() -> Seq<u8> {
    "ERR The ID specified in XADD must be greater than 0-0".spec_bytes()
}

/// The EXEC-without-MULTI error text.
pub open spec fn exec_no_multi_msg() -> Seq<u8> {
    "ERR EXEC without MULTI".spec_bytes()
}

/// The DISCARD-without-MULTI error text.
pub open spec fn discard_no_multi_msg() -> Seq<u8> {
    "ERR DISCARD without MULTI".spec_bytes()
}

/// The unknown-command reply text (a simple string, as the dispatcher
/// sends it).
pub open spec fn unknown_msg() -> Seq<u8> {
    "ERR unknown command".spec_bytes()
}

/// The out-of-range count error text.
pub open spec fn out_of_range_msg() -> Seq<u8> {
    "ERR value is out of range, must be positive".spec_bytes()
}

/// `-ERR value is out of range, must be positive`.
pub fn reply_out_of_range() -> (r: RespValue)
    ensures
        resp_view(r) == RespData::SimpleError(out_of_range_msg()),
{
    RespValue::SimpleError(str_bytes("ERR value is out of range, must be positive"))
}

/// `+OK`.
pub fn reply_ok() -> (r: RespValue)
    ensures
        resp_view(r) == RespData::SimpleString(ok_msg()),
{
    RespValue::SimpleString(str_bytes("OK"))
}

/// `+QUEUED`.
pub fn reply_queued() -> (r: RespValue)
    ensures
        resp_view(r) == RespData::SimpleString(queued_msg()),
{
    RespValue::SimpleString(str_bytes("QUEUED"))
}

/// `+PONG`.
pub fn reply_pong() -> (r: RespValue)
    ensures
        resp_view(r) == RespData::SimpleString(pong_msg()),
{
    RespValue::SimpleString(str_bytes("PONG"))
}

/// `-WRONGTYPE …`.
pub fn reply_wrongtype() -> (r: RespValue)
    ensures
        resp_view(r) == RespData::SimpleError(wrongtype_msg()),
{
    RespValue::SimpleError(
        str_bytes("WRONGTYPE Operation against a key holding the wrong kind of value"),
    )
}

/// `-ERR value is not an integer or out of range`.
pub fn reply_not_int() -> (r: RespValue)
    ensures
        resp_view(r) == RespData::SimpleError(not_int_msg()),
{
    RespValue::SimpleError(str_bytes("ERR value is not an integer or out of range"))
}

/// `-NOAUTH Authentication required.`.
pub fn reply_noauth() -> (r: RespValue)
    ensures
        resp_view(r) == RespData::SimpleError(noauth_msg()),
{
    RespValue::SimpleError(str_bytes("NOAUTH Authentication required."))
}

/// `-WRONGPASS wrong password`.
pub fn reply_wrongpass() -> (r: RespValue)
    ensures
        resp_view(r) == RespData::SimpleError(wrongpass_msg()),
{
    RespValue::SimpleError(str_bytes("WRONGPASS wrong password"))
}

/// `+ERR unknown command`.
pub fn reply_unknown() -> (r: RespValue)
    ensures
        resp_view(r) == RespData::SimpleString(unknown_msg()),
{
    RespValue::SimpleString(str_bytes("ERR unknown command"))
}

/// The null bulk string.
pub fn reply_null_bulk() -> (r: RespValue)
    ensures
        resp_view(r) == RespData::NullBulkString,
{
    RespValue::NullBulkString
}

/// The null array.
pub fn reply_null_array() -> (r: RespValue)
    ensures
        resp_view(r) == RespData::NullArray,
{
    RespValue::NullArray
}

} // verus!
