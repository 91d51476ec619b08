//! Records that carry a transaction and the inputs it refers to.
//!
//! A record is its number, a tag, up to eight input numbers, the declared value and
//! the count of inputs, each eight bytes with the least byte first, and filler
//! wherever nothing else stands.
use crate::batch;
use crate::batch::WorkItem;
use crate::bundle;
use crate::bundle::{input_id, input_shard, referenced_serial, Layout};
use crate::bytes;
use crate::bytes::{get_u64, put_u64};
use crate::engine;
use crate::engine::{mix64, turn, VALUE};
use vstd::prelude::*;

verus! {

/// The most inputs that a record can carry.
pub const MAX_ARITY: usize = 8;

/// The least size of a record.
pub const MIN_RECORD: usize = 96;

pub const FILLER: u8 = 0xA5;

/// So many bytes of filler.
pub open spec fn filler(n: int) -> Seq<u8> {
    Seq::new(n as nat, |i: int| FILLER)
}

/// Appends filler up to a size.
pub fn fill_to(out: &mut Vec<u8>, size: usize)
    requires
        old(out)@.len() <= size,
    ensures
        final(out)@ == old(out)@ + filler(size - old(out)@.len()),
{
    let ghost before = out@;
    assert(out@ =~= before + filler(0));
    while out.len() < size
        invariant
            before.len() <= out@.len() <= size,
            out@ == before + filler(out@.len() - before.len()),
        decreases size - out@.len(),
    {
        out.push(FILLER);
        assert(out@ =~= before + filler(out@.len() - before.len()));
    }
}

/// The tag over the first `n` inputs.
pub open spec fn tag_after(
    magic: u64,
    tx: u64,
    arity: u64,
    value: u64,
    inputs: Seq<u64>,
    n: int,
) -> u64
    decreases n,
{
    if n <= 0 {
        engine::mixed(tx ^ magic ^ engine::turned(arity, 11) ^ engine::turned(value, 23))
    } else {
        engine::mixed(
            tag_after(magic, tx, arity, value, inputs, n - 1) ^ engine::turned(
                inputs[n - 1],
                (((n - 1) * 7 + 3) % 64) as u32,
            ),
        )
    }
}

/// The tag of a transaction with some inputs.
pub fn tag_record(magic: u64, tx: u64, arity: usize, value: u64, inputs: &[u64]) -> (r: u64)
    requires
        arity <= inputs@.len(),
        arity <= MAX_ARITY,
    ensures
        r == tag_after(magic, tx, arity as u64, value, inputs@, arity as int),
{
    let mut x: u64 = mix64(tx ^ magic ^ turn(arity as u64, 11) ^ turn(value, 23));
    let mut k: usize = 0;
    while k < arity
        invariant
            k <= arity <= inputs@.len(),
            arity <= MAX_ARITY,
            x == tag_after(magic, tx, arity as u64, value, inputs@, k as int),
        decreases arity - k,
    {
        x = mix64(x ^ turn(inputs[k], ((k * 7 + 3) % 64) as u32));
        k = k + 1;
    }
    x
}

/// The bytes of the first `n` numbers.
pub open spec fn word_bytes(words: Seq<u64>, n: int) -> Seq<u8>
    decreases n,
{
    if n <= 0 {
        Seq::empty()
    } else {
        word_bytes(words, n - 1) + bytes::le64(words[n - 1])
    }
}

/// What a transaction with so many inputs is worth.
pub open spec fn declared(arity: int) -> u64 {
    (arity * VALUE) as u64
}

/// The tag that goes with a transaction and its inputs.
pub open spec fn tag_for(magic: u64, tx: u64, inputs: Seq<u64>) -> u64 {
    tag_after(
        magic,
        tx,
        inputs.len() as u64,
        declared(inputs.len() as int),
        inputs,
        inputs.len() as int,
    )
}

/// The record of a transaction.
pub open spec fn full_record(magic: u64, tx: u64, inputs: Seq<u64>, size: int) -> Seq<u8> {
    bytes::le64(tx) + bytes::le64(tag_for(magic, tx, inputs)) + word_bytes(inputs, inputs.len() as int) + filler(
        64 - 8 * inputs.len(),
    ) + bytes::le64(declared(inputs.len() as int)) + bytes::le64(inputs.len() as u64) + filler(size - 96)
}

pub proof fn lemma_word_bytes(words: Seq<u64>, n: int)
    requires
        0 <= n <= words.len(),
    ensures
        word_bytes(words, n).len() == 8 * n,
        forall|k: int|
            0 <= k < n ==> #[trigger] word_bytes(words, n).subrange(8 * k, 8 * k + 8) == bytes::le64(
                words[k],
            ),
    decreases n,
{
    broadcast use bytes::lemma_le64;

    if n > 0 {
        lemma_word_bytes(words, n - 1);
        let before = word_bytes(words, n - 1);
        let all = word_bytes(words, n);
        assert forall|k: int| 0 <= k < n implies #[trigger] all.subrange(8 * k, 8 * k + 8) == bytes::le64(
            words[k],
        ) by {
            if k < n - 1 {
                assert(all.subrange(8 * k, 8 * k + 8) =~= before.subrange(8 * k, 8 * k + 8));
            } else {
                assert(all.subrange(8 * k, 8 * k + 8) =~= bytes::le64(words[k]));
            }
        }
    }
}

/// The record to send for a transaction.
pub fn encode_record(magic: u64, tx: u64, inputs: &[u64], record_size: usize) -> (r: Vec<u8>)
    requires
        inputs@.len() <= MAX_ARITY,
        record_size >= MIN_RECORD,
    ensures
        r@ == full_record(magic, tx, inputs@, record_size as int),
        r@.len() == record_size,
{
    broadcast use bytes::lemma_le64;

    let arity: usize = inputs.len();
    let value: u64 = arity as u64 * VALUE;
    let mut out: Vec<u8> = Vec::new();
    put_u64(&mut out, tx);
    put_u64(&mut out, tag_record(magic, tx, arity, value, inputs));
    let ghost head = out@;
    assert(head =~= bytes::le64(tx) + bytes::le64(tag_for(magic, tx, inputs@)));
    let mut k: usize = 0;
    assert(out@ =~= head + word_bytes(inputs@, 0));
    while k < arity
        invariant
            k <= arity == inputs@.len(),
            arity <= MAX_ARITY,
            head.len() == 16,
            out@ == head + word_bytes(inputs@, k as int),
        decreases arity - k,
    {
        put_u64(&mut out, inputs[k]);
        k = k + 1;
        assert(out@ =~= head + word_bytes(inputs@, k as int));
    }
    proof {
        lemma_word_bytes(inputs@, arity as int);
    }
    fill_to(&mut out, 80);
    put_u64(&mut out, value);
    put_u64(&mut out, arity as u64);
    fill_to(&mut out, record_size);
    assert(out@ =~= full_record(magic, tx, inputs@, record_size as int));
    out
}

/// Why a record is refused.
#[derive(Clone, Copy, Debug, PartialEq, Eq, Structural)]
pub enum RecordFault {
    Order,
    Arity,
    Value,
    Integrity,
}

/// The number at a place in a record.
#[verifier::opaque]
pub open spec fn word_at(b: Seq<u8>, at: int) -> u64 {
    bytes::from_le64(b.subrange(at, at + 8))
}

/// The inputs that a record names.
pub open spec fn record_inputs(b: Seq<u8>, arity: int) -> Seq<u64> {
    Seq::new(arity as nat, |k: int| word_at(b, 16 + 8 * k))
}

/// What a receiver that waits for a transaction makes of a record.
pub open spec fn opened_record(magic: u64, b: Seq<u8>, expected_tx: u64, arity: int) -> Result<
    Seq<u64>,
    RecordFault,
> {
    if word_at(b, 0) != expected_tx {
        Err(RecordFault::Order)
    } else if word_at(b, 88) != arity {
        Err(RecordFault::Arity)
    } else if word_at(b, 80) != declared(arity) {
        Err(RecordFault::Value)
    } else if word_at(b, 8) != tag_for(magic, expected_tx, record_inputs(b, arity)) {
        Err(RecordFault::Integrity)
    } else {
        Ok(record_inputs(b, arity))
    }
}

/// What a list of inputs is, as a result's value.
pub open spec fn inputs_view(r: Result<Vec<u64>, RecordFault>) -> Result<Seq<u64>, RecordFault> {
    match r {
        Ok(v) => Ok(v@),
        Err(e) => Err(e),
    }
}

/// Reads a record: the inputs it names, or why it is refused.
pub fn open_record(magic: u64, record: &[u8], expected_tx: u64, arity: usize) -> (r: Result<
    Vec<u64>,
    RecordFault,
>)
    requires
        record@.len() >= MIN_RECORD,
        arity <= MAX_ARITY,
    ensures
        inputs_view(r) == opened_record(magic, record@, expected_tx, arity as int),
{
    reveal(word_at);
    let tx: u64 = get_u64(&record[0..8]);
    let tag: u64 = get_u64(&record[8..16]);
    if tx != expected_tx {
        return Err(RecordFault::Order);
    }
    let value: u64 = get_u64(&record[80..88]);
    let count: u64 = get_u64(&record[88..96]);
    if count != arity as u64 {
        return Err(RecordFault::Arity);
    }
    if value != arity as u64 * VALUE {
        return Err(RecordFault::Value);
    }
    let mut inputs: Vec<u64> = Vec::new();
    let mut k: usize = 0;
    while k < arity
        invariant
            k <= arity <= MAX_ARITY,
            record@.len() >= MIN_RECORD,
            inputs@ == record_inputs(record@, k as int),
        decreases arity - k,
    {
        reveal(word_at);
        let at: usize = 16 + 8 * k;
        inputs.push(get_u64(&record[at..at + 8]));
        k = k + 1;
        assert(inputs@ =~= record_inputs(record@, k as int));
    }
    if tag != tag_record(magic, tx, arity, value, &inputs) {
        return Err(RecordFault::Integrity);
    }
    Ok(inputs)
}

/// What a record adds to the checksum of what was received.
pub open spec fn record_sum(b: Seq<u8>) -> u64 {
    engine::mixed(word_at(b, 0) ^ word_at(b, 8) ^ (b.len() as u64))
}

pub fn record_checksum(record: &[u8]) -> (r: u64)
    requires
        record@.len() >= 16,
    ensures
        r == record_sum(record@),
{
    reveal(word_at);
    let tx: u64 = get_u64(&record[0..8]);
    let tag: u64 = get_u64(&record[8..16]);
    mix64(tx ^ tag ^ record.len() as u64)
}

/// Where the parts of a record stand.
proof fn lemma_parts(
    tx: Seq<u8>,
    tag: Seq<u8>,
    words: Seq<u8>,
    gap: Seq<u8>,
    value: Seq<u8>,
    count: Seq<u8>,
    rest: Seq<u8>,
    n: int,
)
    requires
        tx.len() == 8,
        tag.len() == 8,
        0 <= n <= 8,
        words.len() == 8 * n,
        gap.len() == 64 - 8 * n,
        value.len() == 8,
        count.len() == 8,
    ensures
        ({
            let b = tx + tag + words + gap + value + count + rest;
            &&& b.len() == 96 + rest.len()
            &&& b.subrange(0, 8) == tx
            &&& b.subrange(8, 16) == tag
            &&& b.subrange(80, 88) == value
            &&& b.subrange(88, 96) == count
            &&& forall|k: int|
                0 <= k < n ==> (#[trigger] words.subrange(8 * k, 8 * k + 8)) == b.subrange(
                    16 + 8 * k,
                    16 + 8 * k + 8,
                )
        }),
{
    let b = tx + tag + words + gap + value + count + rest;
    assert(b.subrange(0, 8) =~= tx);
    assert(b.subrange(8, 16) =~= tag);
    assert(b.subrange(80, 88) =~= value);
    assert(b.subrange(88, 96) =~= count);
    assert forall|k: int| 0 <= k < n implies (#[trigger] words.subrange(8 * k, 8 * k + 8))
        == b.subrange(16 + 8 * k, 16 + 8 * k + 8) by {
        assert(words.subrange(8 * k, 8 * k + 8) =~= b.subrange(16 + 8 * k, 16 + 8 * k + 8));
    }
}

/// The numbers that a record holds.
proof fn lemma_record_words(magic: u64, tx: u64, inputs: Seq<u64>, size: int)
    requires
        inputs.len() <= MAX_ARITY,
        MIN_RECORD <= size,
    ensures
        ({
            let b = full_record(magic, tx, inputs, size);
            &&& b.len() == size
            &&& word_at(b, 0) == tx
            &&& word_at(b, 8) == tag_for(magic, tx, inputs)
            &&& word_at(b, 80) == declared(inputs.len() as int)
            &&& word_at(b, 88) == inputs.len()
            &&& forall|k: int|
                0 <= k < inputs.len() ==> word_at(b, 16 + 8 * k) == #[trigger] inputs[k]
        }),
{
    reveal(word_at);
    let n = inputs.len() as int;
    let words = word_bytes(inputs, n);
    let b = full_record(magic, tx, inputs, size);
    lemma_word_bytes(inputs, n);
    bytes::lemma_le64(tx);
    bytes::lemma_le64(tag_for(magic, tx, inputs));
    bytes::lemma_le64(declared(n));
    bytes::lemma_le64(n as u64);
    lemma_parts(
        bytes::le64(tx),
        bytes::le64(tag_for(magic, tx, inputs)),
        words,
        filler(64 - 8 * n),
        bytes::le64(declared(n)),
        bytes::le64(n as u64),
        filler(size - 96),
        n,
    );
    assert forall|k: int| 0 <= k < n implies word_at(b, 16 + 8 * k) == #[trigger] inputs[k] by {
        assert(words.subrange(8 * k, 8 * k + 8) == bytes::le64(inputs[k]));
        bytes::lemma_le64(inputs[k]);
    }
}

/// What is sent is received: a record gives back the inputs it was made from, and
/// adds its tag to the checksum. Out of turn it is refused.
pub proof fn law_envelope_round_trip(
    magic: u64,
    tx: u64,
    inputs: Seq<u64>,
    size: int,
    expected: u64,
)
    requires
        inputs.len() <= MAX_ARITY,
        MIN_RECORD <= size <= u64::MAX,
    ensures
        full_record(magic, tx, inputs, size).len() == size,
        opened_record(magic, full_record(magic, tx, inputs, size), tx, inputs.len() as int) == Ok::<
            Seq<u64>,
            RecordFault,
        >(inputs),
        expected != tx ==> opened_record(
            magic,
            full_record(magic, tx, inputs, size),
            expected,
            inputs.len() as int,
        ) == Err::<Seq<u64>, RecordFault>(RecordFault::Order),
        record_sum(full_record(magic, tx, inputs, size)) == engine::mixed(
            tx ^ tag_for(magic, tx, inputs) ^ (size as u64),
        ),
{
    lemma_record_words(magic, tx, inputs, size);
    let b = full_record(magic, tx, inputs, size);
    assert(record_inputs(b, inputs.len() as int) =~= inputs);
}

proof fn lemma_same_word(a: Seq<u8>, b: Seq<u8>, at: int)
    requires
        0 <= at <= a.len() - 8,
        at <= b.len() - 8,
        word_at(a, at) == word_at(b, at),
    ensures
        a.subrange(at, at + 8) == b.subrange(at, at + 8),
{
    reveal(word_at);
    bytes::lemma_from_le64(a.subrange(at, at + 8));
    bytes::lemma_from_le64(b.subrange(at, at + 8));
}

/// A record that is accepted says what the record of its transaction says: it is
/// that record, but for filler.
pub proof fn law_accepted_record_is_genuine(magic: u64, b: Seq<u8>, tx: u64, arity: int, at: int)
    requires
        0 <= arity <= MAX_ARITY,
        MIN_RECORD <= b.len() <= u64::MAX,
        opened_record(magic, b, tx, arity) is Ok,
        0 <= at < 16 + 8 * arity || 80 <= at < 96,
    ensures
        b[at] == full_record(
            magic,
            tx,
            opened_record(magic, b, tx, arity)->Ok_0,
            b.len() as int,
        )[at],
{
    let inputs = opened_record(magic, b, tx, arity)->Ok_0;
    let g = full_record(magic, tx, inputs, b.len() as int);
    lemma_record_words(magic, tx, inputs, b.len() as int);
    let word = 8 * (at / 8);
    if 16 <= word < 80 {
        let k = (word - 16) / 8;
        assert(inputs[k] == word_at(b, 16 + 8 * k));
    }
    assert(word_at(b, word) == word_at(g, word));
    lemma_same_word(b, g, word);
    assert(b.subrange(word, word + 8)[at - word] == b[at]);
    assert(g.subrange(word, word + 8)[at - word] == g[at]);
}

/// The inputs that a transaction refers to.
pub open spec fn tx_serials(l: Layout, tx: u64) -> Seq<u64> {
    Seq::new(l.arity as nat, |k: int| bundle::referenced(l, tx, k))
}

/// Lists the inputs that a transaction refers to.
pub fn transaction_inputs(l: &Layout, tx: u64) -> (r: Vec<u64>)
    requires
        bundle::layout_ok(*l),
        tx < l.txs,
    ensures
        r@ == tx_serials(*l, tx),
{
    let mut out: Vec<u64> = Vec::new();
    let mut k: u64 = 0;
    while k < l.arity
        invariant
            bundle::layout_ok(*l),
            tx < l.txs,
            k <= l.arity,
            out@ == tx_serials(*l, tx).take(k as int),
        decreases l.arity - k,
    {
        out.push(referenced_serial(l, tx, k));
        k = k + 1;
        assert(out@ =~= tx_serials(*l, tx).take(k as int));
    }
    assert(out@ =~= tx_serials(*l, tx));
    out
}

/// Where an input of a transaction is to be looked for.
pub open spec fn routed_item(l: Layout, tx: u64, serial: u64) -> WorkItem {
    WorkItem { tx, slot: bundle::input_place(l, serial).0, id: bundle::input_place(l, serial).1 }
}

pub fn route_input(l: &Layout, tx: u64, serial: u64) -> (r: WorkItem)
    requires
        l.shards > 0,
        l.bits < 64,
        serial < u64::MAX,
    ensures
        r == routed_item(*l, tx, serial),
        r.slot < l.shards,
{
    WorkItem { tx, slot: input_shard(l, serial), id: input_id(l, serial) }
}

/// Appends the places of the inputs of a received transaction.
pub fn route_inputs(l: &Layout, tx: u64, inputs: &Vec<u64>, items: &mut Vec<WorkItem>)
    requires
        l.shards > 0,
        l.bits < 64,
        forall|k: int| 0 <= k < inputs@.len() ==> (#[trigger] inputs@[k]) < u64::MAX,
    ensures
        final(items)@ == old(items)@ + Seq::new(
            inputs@.len(),
            |k: int| routed_item(*l, tx, inputs@[k]),
        ),
{
    let ghost before = items@;
    let mut k: usize = 0;
    assert(items@ =~= before + Seq::new(0, |k: int| routed_item(*l, tx, inputs@[k])));
    while k < inputs.len()
        invariant
            l.shards > 0,
            l.bits < 64,
            forall|k: int| 0 <= k < inputs@.len() ==> (#[trigger] inputs@[k]) < u64::MAX,
            k <= inputs@.len(),
            items@ == before + Seq::new(k as nat, |k: int| routed_item(*l, tx, inputs@[k])),
        decreases inputs@.len() - k,
    {
        items.push(route_input(l, tx, inputs[k]));
        k = k + 1;
        assert(items@ =~= before + Seq::new(k as nat, |k: int| routed_item(*l, tx, inputs@[k])));
    }
}

/// The references of a transaction are the places of its inputs.
pub proof fn lemma_routed(l: Layout, tx: u64)
    requires
        bundle::layout_ok(l),
        tx < l.txs,
    ensures
        Seq::new(tx_serials(l, tx).len(), |k: int| routed_item(l, tx, tx_serials(l, tx)[k]))
            == batch::tx_items(l, tx, l.arity as nat),
        forall|k: int| 0 <= k < l.arity ==> (#[trigger] tx_serials(l, tx)[k]) < u64::MAX,
{
    assert forall|k: int| 0 <= k < l.arity implies (#[trigger] tx_serials(l, tx)[k])
        < u64::MAX by {
        bundle::lemma_serial(l, tx, k);
    }
    assert(Seq::new(tx_serials(l, tx).len(), |k: int| routed_item(l, tx, tx_serials(l, tx)[k]))
        =~= batch::tx_items(l, tx, l.arity as nat));
}

/// Why what came over the wire is not routed.
#[derive(Clone, Copy, Debug, PartialEq, Eq, Structural)]
pub enum WireFault {
    Record(RecordFault),
    /// The record is genuine, and names an input that no cell can have.
    Serial,
}

/// An input that no cell can have.
pub open spec fn names_no_cell(inputs: Seq<u64>) -> bool {
    exists|k: int| 0 <= k < inputs.len() && (#[trigger] inputs[k]) == u64::MAX
}

/// The places of inputs.
pub open spec fn routed_items(l: Layout, tx: u64, inputs: Seq<u64>) -> Seq<WorkItem> {
    Seq::new(inputs.len(), |k: int| routed_item(l, tx, inputs[k]))
}

/// What the bytes of a record come to: the places of its inputs, and its checksum.
pub open spec fn received(magic: u64, l: Layout, tx: u64, b: Seq<u8>) -> Result<
    (Seq<WorkItem>, u64),
    WireFault,
> {
    match opened_record(magic, b, tx, l.arity as int) {
        Err(fault) => Err(WireFault::Record(fault)),
        Ok(inputs) => if names_no_cell(inputs) {
            Err(WireFault::Serial)
        } else {
            Ok((routed_items(l, tx, inputs), record_sum(b)))
        },
    }
}

fn lacks_a_cell(inputs: &Vec<u64>) -> (r: bool)
    ensures
        r == names_no_cell(inputs@),
{
    let mut k: usize = 0;
    while k < inputs.len()
        invariant
            k <= inputs@.len(),
            forall|i: int| 0 <= i < k ==> (#[trigger] inputs@[i]) != u64::MAX,
        decreases inputs@.len() - k,
    {
        if inputs[k] == u64::MAX {
            return true;
        }
        k = k + 1;
    }
    false
}

/// Reads the bytes of a record that came over the wire, and routes its inputs.
pub fn receive_record(magic: u64, l: &Layout, tx: u64, record: &[u8]) -> (r: Result<
    (Vec<WorkItem>, u64),
    WireFault,
>)
    requires
        record@.len() >= MIN_RECORD,
        l.arity <= MAX_ARITY,
        l.shards > 0,
        l.bits < 64,
    ensures
        match received(magic, *l, tx, record@) {
            Ok(p) => r is Ok && r->Ok_0.0@ == p.0 && r->Ok_0.1 == p.1,
            Err(fault) => r == Err::<(Vec<WorkItem>, u64), WireFault>(fault),
        },
{
    let inputs: Vec<u64> = match open_record(magic, record, tx, l.arity as usize) {
        Ok(inputs) => inputs,
        Err(fault) => return Err(WireFault::Record(fault)),
    };
    if lacks_a_cell(&inputs) {
        return Err(WireFault::Serial);
    }
    let mut items: Vec<WorkItem> = Vec::new();
    route_inputs(l, tx, &inputs, &mut items);
    assert(items@ =~= routed_items(*l, tx, inputs@));
    Ok((items, record_checksum(record)))
}

/// A record that is sent for a transaction is received as the references of that
/// transaction.
pub proof fn law_sent_record_is_received(magic: u64, l: Layout, tx: u64, size: int)
    requires
        bundle::layout_ok(l),
        l.arity <= MAX_ARITY,
        tx < l.txs,
        MIN_RECORD <= size <= u64::MAX,
    ensures
        received(magic, l, tx, full_record(magic, tx, tx_serials(l, tx), size)) == Ok::<
            (Seq<WorkItem>, u64),
            WireFault,
        >(
            (
                batch::tx_items(l, tx, l.arity as nat),
                record_sum(full_record(magic, tx, tx_serials(l, tx), size)),
            ),
        ),
{
    lemma_routed(l, tx);
    law_envelope_round_trip(magic, tx, tx_serials(l, tx), size, tx);
    assert(routed_items(l, tx, tx_serials(l, tx)) =~= batch::tx_items(l, tx, l.arity as nat));
}

} // verus!
