//! Records of a transaction on a stream: a number, a tag that goes with it, and
//! filler.
use crate::bytes;
use crate::bytes::{get_u64, put_u64};
use crate::engine;
use crate::engine::mix64;
use crate::envelope;
use crate::envelope::fill_to;
use crate::text;
use crate::text::text;
use vstd::prelude::*;

verus! {

pub const MAGIC: u64 = 0xCA11_BAE8_0000_0008;

/// The tag of a transaction.
pub open spec fn record_tag(tx: u64) -> u64 {
    engine::mixed(tx ^ MAGIC)
}

/// The record of a transaction.
pub open spec fn plain_record(tx: u64, size: int) -> Seq<u8> {
    bytes::le64(tx) + bytes::le64(record_tag(tx)) + envelope::filler(size - 16)
}

/// The record to send for a transaction.
pub fn encode_record(tx: u64, record_size: usize) -> (r: Vec<u8>)
    requires
        record_size >= 16,
    ensures
        r@ == plain_record(tx, record_size as int),
        r@.len() == record_size,
{
    let mut out: Vec<u8> = Vec::new();
    put_u64(&mut out, tx);
    put_u64(&mut out, mix64(tx ^ MAGIC));
    fill_to(&mut out, record_size);
    assert(out@ =~= plain_record(tx, record_size as int));
    out
}

/// What a received record adds to the checksum, or why it is refused.
pub open spec fn record_share(b: Seq<u8>, expected_tx: u64) -> Result<u64, Seq<char>> {
    let tx = bytes::from_le64(b.subrange(0, 8));
    let tag = bytes::from_le64(b.subrange(8, 16));
    if tx != expected_tx {
        Err("wire tx ordering mismatch"@)
    } else if tag != record_tag(tx) {
        Err("wire record integrity mismatch"@)
    } else {
        Ok(engine::mixed(tx ^ tag ^ (b.len() as u64)))
    }
}

/// Checks a received record.
pub fn check_record(record: &[u8], expected_tx: u64) -> (r: Result<u64, String>)
    requires
        record@.len() >= 16,
    ensures
        text::shown(r) == record_share(record@, expected_tx),
{
    let tx: u64 = get_u64(&record[0..8]);
    let tag: u64 = get_u64(&record[8..16]);
    if tx != expected_tx {
        return Err(text("wire tx ordering mismatch"));
    }
    if tag != mix64(tx ^ MAGIC) {
        return Err(text("wire record integrity mismatch"));
    }
    Ok(mix64(tx ^ tag ^ record.len() as u64))
}

/// The transaction number `i` of a stream.
pub open spec fn stream_tx_of(stream: int, streams: int, i: int) -> int {
    stream + i * streams
}

pub fn stream_tx(stream: usize, streams: usize, i: u64) -> (r: u64)
    requires
        stream_tx_of(stream as int, streams as int, i as int) <= u64::MAX,
    ensures
        r == stream_tx_of(stream as int, streams as int, i as int),
{
    proof {
        assert(0 <= i * streams) by (nonlinear_arith)
            requires
                0 <= i,
                0 <= streams,
        ;
    }
    stream as u64 + i * streams as u64
}

/// What is sent is received: the record of a transaction is accepted in its turn,
/// and in no other.
pub proof fn law_plain_record_round_trip(tx: u64, size: int, expected: u64)
    requires
        16 <= size <= u64::MAX,
    ensures
        record_share(plain_record(tx, size), tx) == Ok::<u64, Seq<char>>(
            engine::mixed(tx ^ record_tag(tx) ^ (size as u64)),
        ),
        expected != tx ==> record_share(plain_record(tx, size), expected) is Err,
{
    broadcast use bytes::lemma_le64;

    let b = plain_record(tx, size);
    assert(b.subrange(0, 8) =~= bytes::le64(tx));
    assert(b.subrange(8, 16) =~= bytes::le64(record_tag(tx)));
}

/// A record is accepted exactly if it begins as the record of that transaction does.
pub proof fn law_record_is_accepted_if(b: Seq<u8>, expected_tx: u64)
    requires
        16 <= b.len() <= u64::MAX,
    ensures
        record_share(b, expected_tx) is Ok <==> b.take(16) == plain_record(expected_tx, 16),
{
    let own = plain_record(expected_tx, 16);
    bytes::lemma_le64(expected_tx);
    bytes::lemma_le64(record_tag(expected_tx));
    assert(own =~= bytes::le64(expected_tx) + bytes::le64(record_tag(expected_tx)));
    assert(own.subrange(0, 8) =~= bytes::le64(expected_tx));
    assert(own.subrange(8, 16) =~= bytes::le64(record_tag(expected_tx)));
    assert(b.take(16).subrange(0, 8) =~= b.subrange(0, 8));
    assert(b.take(16).subrange(8, 16) =~= b.subrange(8, 16));
    if record_share(b, expected_tx) is Ok {
        bytes::lemma_from_le64(b.subrange(0, 8));
        bytes::lemma_from_le64(b.subrange(8, 16));
        assert(b.take(16) =~= b.subrange(0, 8) + b.subrange(8, 16));
    }
}

/// The transactions of a stream are every so many, from its own number on, and no two
/// streams have one in common.
pub proof fn law_streams_share_nothing(a: int, i: int, b: int, j: int, streams: int)
    requires
        0 <= a < streams,
        0 <= b < streams,
        0 <= i,
        0 <= j,
        stream_tx_of(a, streams, i) == stream_tx_of(b, streams, j),
    ensures
        a == b,
        i == j,
        stream_tx_of(a, streams, 0) == a,
        stream_tx_of(a, streams, i + 1) == stream_tx_of(a, streams, i) + streams,
{
    assert((i + 1) * streams == i * streams + streams && 0 * streams == 0) by (nonlinear_arith);
    vstd::arithmetic::div_mod::lemma_fundamental_div_mod_converse(
        stream_tx_of(a, streams, i),
        streams,
        i,
        a,
    );
    vstd::arithmetic::div_mod::lemma_fundamental_div_mod_converse(
        stream_tx_of(b, streams, j),
        streams,
        j,
        b,
    );
}

} // verus!
