//! The layout of a queue file: records one after the other, each a length
//! of four bytes, most significant byte first, and then that many bytes of
//! payload. Nothing stands between two records and nothing after the last.

use byteorder::{BigEndian, ByteOrder};
use vstd::prelude::*;

verus! {

/// The number of bytes that the length of a payload takes in front of it.
pub const PAYLOAD_LEN_BYTES: usize = 4;

/// The largest payload that a record can carry.
pub const MAX_PAYLOAD_LEN: usize = 0xffff_ffff;

/// The four bytes of `n`, most significant first.
pub open spec fn be_bytes(n: u32) -> Seq<u8> {
    seq![
        (n / 0x100_0000) as u8,
        (n / 0x1_0000 % 0x100) as u8,
        (n / 0x100 % 0x100) as u8,
        (n % 0x100) as u8,
    ]
}

/// The number that the first four bytes of `bytes` spell, most significant
/// byte first.
pub open spec fn be_value(bytes: Seq<u8>) -> int {
    bytes[0] * 0x100_0000 + bytes[1] * 0x1_0000 + bytes[2] * 0x100 + bytes[3]
}

/// The record that carries `payload`.
pub open spec fn framed(payload: Seq<u8>) -> Seq<u8> {
    be_bytes(payload.len() as u32) + payload
}

/// The records that carry `payloads`, in a row.
pub open spec fn framed_all(payloads: Seq<Seq<u8>>) -> Seq<u8>
    decreases payloads.len(),
{
    if payloads.len() == 0 {
        Seq::empty()
    } else {
        framed(payloads[0]) + framed_all(payloads.drop_first())
    }
}

/// Whether `bytes` begin with a whole record.
pub open spec fn starts_with_record(bytes: Seq<u8>) -> bool {
    bytes.len() >= 4 && bytes.len() >= 4 + be_value(bytes)
}

/// The payload of the record that `bytes` begin with.
pub open spec fn first_payload(bytes: Seq<u8>) -> Seq<u8> {
    bytes.subrange(4, 4 + be_value(bytes))
}

/// What follows the record that `bytes` begin with.
pub open spec fn after_first(bytes: Seq<u8>) -> Seq<u8> {
    bytes.subrange(4 + be_value(bytes), bytes.len() as int)
}

/// The payloads of the whole records that `bytes` begin with, in the order
/// in which they stand. What is left over at the end, too short to be a
/// record, is not among them.
pub open spec fn payloads(bytes: Seq<u8>) -> Seq<Seq<u8>>
    decreases bytes.len(),
{
    if starts_with_record(bytes) {
        seq![first_payload(bytes)] + payloads(after_first(bytes))
    } else {
        Seq::empty()
    }
}

/// Calls `byteorder::ByteOrder::write_u32` of `BigEndian` on a buffer of
/// four bytes. Trusted: the buffer then holds the four bytes of `n`, most
/// significant first.
#[verifier::external_body]
fn write_u32_be(n: u32) -> (out: Vec<u8>)
    ensures
        out@ == be_bytes(n),
{
    let mut out = vec![0u8; 4];
    BigEndian::write_u32(&mut out, n);
    out
}

/// Calls `byteorder::ByteOrder::read_u32` of `BigEndian`, which panics on
/// fewer than four bytes. Trusted: the result is the number that the first
/// four bytes spell, most significant first.
#[verifier::external_body]
fn read_u32_be(bytes: &Vec<u8>) -> (n: u32)
    requires
        bytes@.len() >= 4,
    ensures
        n == be_value(bytes@),
{
    BigEndian::read_u32(bytes)
}

/// Four bytes spell the number they were made from.
pub proof fn lemma_be_round_trip(n: u32)
    ensures
        be_bytes(n).len() == 4,
        be_value(be_bytes(n)) == n,
{
}

/// A record in front of anything reads back as its payload, with what
/// followed it left over.
pub proof fn lemma_framed_reads_back(payload: Seq<u8>, rest: Seq<u8>)
    requires
        payload.len() <= MAX_PAYLOAD_LEN,
    ensures
        starts_with_record(framed(payload) + rest),
        first_payload(framed(payload) + rest) == payload,
        after_first(framed(payload) + rest) == rest,
{
    let bytes = framed(payload) + rest;
    lemma_be_round_trip(payload.len() as u32);
    assert(bytes[0] == be_bytes(payload.len() as u32)[0]);
    assert(bytes[1] == be_bytes(payload.len() as u32)[1]);
    assert(bytes[2] == be_bytes(payload.len() as u32)[2]);
    assert(bytes[3] == be_bytes(payload.len() as u32)[3]);
    assert(be_value(bytes) == payload.len());
    assert(first_payload(bytes) =~= payload);
    assert(after_first(bytes) =~= rest);
}

/// A record cut short anywhere is no record: a reader never takes part of a
/// payload for a whole one.
pub proof fn lemma_cut_record_is_none(payload: Seq<u8>, cut: int)
    requires
        payload.len() <= MAX_PAYLOAD_LEN,
        0 <= cut < framed(payload).len(),
    ensures
        !starts_with_record(framed(payload).subrange(0, cut)),
{
    let whole = framed(payload);
    let part = whole.subrange(0, cut);
    lemma_be_round_trip(payload.len() as u32);
    if cut >= 4 {
        assert(part[0] == be_bytes(payload.len() as u32)[0]);
        assert(part[1] == be_bytes(payload.len() as u32)[1]);
        assert(part[2] == be_bytes(payload.len() as u32)[2]);
        assert(part[3] == be_bytes(payload.len() as u32)[3]);
        assert(be_value(part) == payload.len());
    }
}

/// Records written in a row read back as their payloads, in order and with
/// nothing left over.
pub proof fn lemma_framed_all_reads_back(items: Seq<Seq<u8>>)
    requires
        forall|i: int| 0 <= i < items.len() ==> (#[trigger] items[i]).len() <= MAX_PAYLOAD_LEN,
    ensures
        payloads(framed_all(items)) == items,
    decreases items.len(),
{
    if items.len() == 0 {
        assert(framed_all(items).len() == 0);
    } else {
        let rest = framed_all(items.drop_first());
        lemma_framed_reads_back(items[0], rest);
        lemma_framed_all_reads_back(items.drop_first());
        assert(seq![items[0]] + items.drop_first() =~= items);
    }
}

/// Bytes that arrive later take no record back: the whole records at the
/// front of what is there stay the first records of what it grows into.
pub proof fn lemma_more_bytes_keep_records(bytes: Seq<u8>, more: Seq<u8>)
    ensures
        payloads(bytes).is_prefix_of(payloads(bytes + more)),
    decreases bytes.len(),
{
    let longer = bytes + more;
    if starts_with_record(bytes) {
        assert(longer[0] == bytes[0]);
        assert(longer[1] == bytes[1]);
        assert(longer[2] == bytes[2]);
        assert(longer[3] == bytes[3]);
        assert(first_payload(longer) =~= first_payload(bytes));
        assert(after_first(longer) =~= after_first(bytes) + more);
        lemma_more_bytes_keep_records(after_first(bytes), more);
        let head = seq![first_payload(bytes)];
        let short = payloads(after_first(bytes));
        let long = payloads(after_first(bytes) + more);
        assert forall|i: int| 0 <= i < (head + short).len() implies (head + short)[i] == (head
            + long)[i] by {
            if i > 0 {
                assert(short[i - 1] == long[i - 1]);
            }
        }
    }
}

/// The record that carries `payload`.
pub fn frame(payload: &Vec<u8>) -> (out: Vec<u8>)
    requires
        payload@.len() <= MAX_PAYLOAD_LEN,
    ensures
        out@ == framed(payload@),
{
    let len: u32 = payload.len() as u32;
    let mut out = write_u32_be(len);
    let mut i: usize = 0;
    while i < payload.len()
        invariant
            i <= payload.len(),
            out@ == be_bytes(len) + payload@.subrange(0, i as int),
        decreases payload.len() - i,
    {
        out.push(payload[i]);
        i += 1;
        assert(payload@.subrange(0, i as int) =~= payload@.subrange(0, i - 1).push(
            payload@[i - 1],
        ));
    }
    assert(payload@.subrange(0, i as int) =~= payload@);
    out
}

/// Takes the first record off the front of `buffer` and hands out its
/// payload. A buffer that does not begin with a whole record stays as it is.
pub fn take_record(buffer: &mut Vec<u8>) -> (r: Option<Vec<u8>>)
    ensures
        starts_with_record(old(buffer)@) ==> r.is_some() && r.unwrap()@ == first_payload(
            old(buffer)@,
        ) && final(buffer)@ == after_first(old(buffer)@),
        !starts_with_record(old(buffer)@) ==> r.is_none() && final(buffer)@ == old(buffer)@,
{
    if buffer.len() < PAYLOAD_LEN_BYTES {
        return None;
    }
    let len: usize = read_u32_be(buffer) as usize;
    if buffer.len() - PAYLOAD_LEN_BYTES < len {
        return None;
    }
    let ghost before = buffer@;
    let mut rest = buffer.split_off(PAYLOAD_LEN_BYTES + len);
    let payload = buffer.split_off(PAYLOAD_LEN_BYTES);
    core::mem::swap(buffer, &mut rest);
    assert(payload@ =~= first_payload(before));
    Some(payload)
}

} // verus!
