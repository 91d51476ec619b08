//! The wire format: little-endian fields, bounded collections, exact lengths.
//!
//! Every parser is stated as a function from a byte string to a value and the
//! bytes that follow it, or to the message with which the bytes are refused.
use crate::bytes;
use crate::bytes::{
    array_from, be_u32, copy_slice, get_u16, get_u32, get_u64, push_u32_be, put_bytes, put_u16,
    put_u32, put_u64, put_u8,
};
use crate::model;
use crate::model::{
    ApplyReceipt, Cell, CellRef, CommitteeManifest, CommitteeMember, Digest, ManifestModel,
    Output, Proposal, ProposalModel, Qc, ReceiptModel, State, StateModel, Tx, TxModel, UserAuth,
    Verdict, Vote, N, PHASE_PRECOMMIT, PHASE_PREVOTE,
};
use crate::ordmap;
use crate::ordmap::{OrdKey, OrdMap, OrdSet};
use crate::state;
use crate::store::Lifecycle;
use crate::text;
use crate::text::{concat2, push_dec, text, with_number, with_numbers};
use std::collections::BTreeSet;
use vstd::prelude::*;
use vstd::string::*;

verus! {

pub const MAX_FRAME_LEN: usize = 1048576;

pub const MAX_COLLECTION_LEN: usize = 2048;

pub const MAX_OUTPUTS: usize = 8;

pub const MAX_RECEIPT_OUTPUTS: usize = 9;

pub const MAX_VOTES: usize = 7;

pub type WireResult<T> = Result<T, String>;

/// A parsed value and the bytes after it, or a message.
pub type Parsed<T> = Result<(T, Seq<u8>), Seq<char>>;

// ---------------------------------------------------------------------------
// Primitive fields.
// ---------------------------------------------------------------------------

#[verifier::opaque]
pub open spec fn p_take(s: Seq<u8>, n: int, label: Seq<char>) -> Parsed<Seq<u8>> {
    if s.len() < n {
        Err("truncated "@ + label)
    } else {
        Ok((s.subrange(0, n), s.subrange(n, s.len() as int)))
    }
}

pub open spec fn p_u8(s: Seq<u8>, label: Seq<char>) -> Parsed<u8> {
    match p_take(s, 1, label) {
        Ok((b, rest)) => Ok((b[0], rest)),
        Err(e) => Err(e),
    }
}

pub open spec fn p_bool(s: Seq<u8>, label: Seq<char>) -> Parsed<bool> {
    match p_u8(s, label) {
        Ok((b, rest)) => if b == 0 {
            Ok((false, rest))
        } else if b == 1 {
            Ok((true, rest))
        } else {
            Err("invalid "@ + label + " boolean value "@ + text::dec(b as nat))
        },
        Err(e) => Err(e),
    }
}

pub open spec fn p_u16(s: Seq<u8>, label: Seq<char>) -> Parsed<u16> {
    match p_take(s, 2, label) {
        Ok((b, rest)) => Ok((bytes::from_le16(b), rest)),
        Err(e) => Err(e),
    }
}

pub open spec fn p_u32(s: Seq<u8>, label: Seq<char>) -> Parsed<u32> {
    match p_take(s, 4, label) {
        Ok((b, rest)) => Ok((bytes::from_le32(b), rest)),
        Err(e) => Err(e),
    }
}

pub open spec fn p_u64(s: Seq<u8>, label: Seq<char>) -> Parsed<u64> {
    match p_take(s, 8, label) {
        Ok((b, rest)) => Ok((bytes::from_le64(b), rest)),
        Err(e) => Err(e),
    }
}

pub open spec fn p_fixed<const L: usize>(s: Seq<u8>, label: Seq<char>) -> Parsed<[u8; L]> {
    match p_take(s, L as int, label) {
        Ok((b, rest)) => Ok((bytes::arr::<L>(b), rest)),
        Err(e) => Err(e),
    }
}

/// The message for a collection that is too large.
pub open spec fn too_many(label: Seq<char>, max: nat) -> Seq<char> {
    label + " count exceeds "@ + text::dec(max)
}

pub open spec fn p_count(s: Seq<u8>, max: nat, label: Seq<char>) -> Parsed<nat> {
    match p_u32(s, label) {
        Ok((n, rest)) => if n > max {
            Err(too_many(label, max))
        } else {
            Ok((n as nat, rest))
        },
        Err(e) => Err(e),
    }
}

/// `n` values one after another, added to those of `acc`. A value that `clash`
/// finds in conflict with the ones before it is refused with `message`.
pub open spec fn p_list<T>(
    n: nat,
    s: Seq<u8>,
    acc: Seq<T>,
    item: spec_fn(Seq<u8>) -> Parsed<T>,
    clash: spec_fn(Seq<T>, T) -> bool,
    message: Seq<char>,
) -> Parsed<Seq<T>>
    decreases n,
{
    if n == 0 {
        Ok((acc, s))
    } else {
        match item(s) {
            Err(e) => Err(e),
            Ok((x, rest)) => if clash(acc, x) {
                Err(message)
            } else {
                p_list((n - 1) as nat, rest, acc.push(x), item, clash, message)
            },
        }
    }
}

/// No two values clash.
pub open spec fn no_clash<T>() -> spec_fn(Seq<T>, T) -> bool {
    |acc: Seq<T>, x: T| false
}

/// What parsing a whole byte string comes to.
pub open spec fn whole<T>(p: Parsed<T>, bytes: Seq<u8>) -> Result<T, Seq<char>> {
    if bytes.len() > MAX_FRAME_LEN {
        Err("payload exceeds "@ + text::dec(MAX_FRAME_LEN as nat) + " bytes"@)
    } else {
        match p {
            Err(e) => Err(e),
            Ok((v, rest)) => if rest.len() != 0 {
                Err(
                    "trailing bytes: consumed "@ + text::dec((bytes.len() - rest.len()) as nat)
                        + ", payload has "@ + text::dec(bytes.len()),
                )
            } else {
                Ok(v)
            },
        }
    }
}

/// What encoding comes to: the verdict on the value, and the bound on the size.
pub open spec fn framed(verdict: Verdict, bytes: Seq<u8>) -> Result<Seq<u8>, Seq<char>> {
    match verdict {
        Err(e) => Err(e),
        Ok(_) => if bytes.len() > MAX_FRAME_LEN {
            Err("encoded payload exceeds "@ + text::dec(MAX_FRAME_LEN as nat) + " bytes"@)
        } else {
            Ok(bytes)
        },
    }
}

/// Bytes being written.
#[derive(Debug)]
pub struct Encoder {
    bytes: Vec<u8>,
}

impl View for Encoder {
    type V = Seq<u8>;

    closed spec fn view(&self) -> Seq<u8> {
        self.bytes@
    }
}

impl Encoder {
    pub fn new() -> (r: Self)
        ensures
            r@ == Seq::<u8>::empty(),
    {
        Encoder { bytes: Vec::new() }
    }

    pub fn u8(&mut self, value: u8)
        ensures
            final(self)@ == old(self)@ + seq![value],
    {
        put_u8(&mut self.bytes, value);
    }

    pub fn bool(&mut self, value: bool)
        ensures
            final(self)@ == old(self)@ + seq![bool_byte(value)],
    {
        if value {
            self.u8(1);
        } else {
            self.u8(0);
        }
    }

    pub fn u16(&mut self, value: u16)
        ensures
            final(self)@ == old(self)@ + bytes::le16(value),
    {
        put_u16(&mut self.bytes, value);
    }

    pub fn u32(&mut self, value: u32)
        ensures
            final(self)@ == old(self)@ + bytes::le32(value),
    {
        put_u32(&mut self.bytes, value);
    }

    pub fn u64(&mut self, value: u64)
        ensures
            final(self)@ == old(self)@ + bytes::le64(value),
    {
        put_u64(&mut self.bytes, value);
    }

    pub fn fixed<const L: usize>(&mut self, value: &[u8; L])
        ensures
            final(self)@ == old(self)@ + value@,
    {
        put_bytes(&mut self.bytes, value);
    }

    /// Writes the length of a collection.
    pub fn count(&mut self, count: usize, label: &str) -> (r: WireResult<()>)
        ensures
            text::shown(r) == count_verdict(count as nat, MAX_COLLECTION_LEN as nat, label@),
            r is Ok ==> final(self)@ == old(self)@ + bytes::le32(count as u32),
            r is Err ==> final(self)@ == old(self)@,
    {
        self.bounded_count(count, MAX_COLLECTION_LEN, label)
    }

    /// Writes the length of a collection with at most `max` members.
    pub fn bounded_count(&mut self, count: usize, max: usize, label: &str) -> (r: WireResult<()>)
        requires
            max <= u32::MAX,
        ensures
            text::shown(r) == count_verdict(count as nat, max as nat, label@),
            r is Ok ==> final(self)@ == old(self)@ + bytes::le32(count as u32),
            r is Err ==> final(self)@ == old(self)@,
    {
        if count > max {
            return Err(count_message(label, max));
        }
        self.u32(count as u32);
        Ok(())
    }

    /// The bytes, if they fit in a frame.
    pub fn finish(self) -> (r: WireResult<Vec<u8>>)
        ensures
            text::shown_view(r) == framed(Ok(()), self@),
    {
        if self.bytes.len() > MAX_FRAME_LEN {
            return Err(with_number("encoded payload exceeds ", MAX_FRAME_LEN as u64, " bytes"));
        }
        Ok(self.bytes)
    }
}

/// How a flag is written.
pub open spec fn bool_byte(value: bool) -> u8 {
    if value {
        1
    } else {
        0
    }
}

/// The verdict on the size of a collection.
pub open spec fn count_verdict(count: nat, max: nat, label: Seq<char>) -> Verdict {
    if count > max {
        Err(too_many(label, max))
    } else {
        Ok(())
    }
}

fn count_message(label: &str, max: usize) -> (r: String)
    ensures
        r@ == too_many(label@, max as nat),
{
    let mut r: String = concat2(label, " count exceeds ");
    push_dec(&mut r, max as u64);
    r
}

/// Bytes being read.
#[derive(Debug)]
pub struct Decoder<'a> {
    bytes: &'a [u8],
    offset: usize,
}

impl<'a> Decoder<'a> {
    #[verifier::type_invariant]
    spec fn wf(self) -> bool {
        self.offset <= self.bytes@.len() <= MAX_FRAME_LEN
    }

    /// The bytes not read yet.
    pub closed spec fn rest(&self) -> Seq<u8> {
        self.bytes@.subrange(self.offset as int, self.bytes@.len() as int)
    }

    /// All the bytes.
    pub closed spec fn input(&self) -> Seq<u8> {
        self.bytes@
    }

    /// Starts to read a payload.
    pub fn new(bytes: &'a [u8]) -> (r: WireResult<Self>)
        ensures
            bytes@.len() <= MAX_FRAME_LEN ==> r is Ok && r->Ok_0.rest() == bytes@
                && r->Ok_0.input() == bytes@,
            bytes@.len() > MAX_FRAME_LEN ==> r is Err && r->Err_0@ == "payload exceeds "@ + text::dec(
                MAX_FRAME_LEN as nat,
            ) + " bytes"@,
    {
        if bytes.len() > MAX_FRAME_LEN {
            return Err(with_number("payload exceeds ", MAX_FRAME_LEN as u64, " bytes"));
        }
        let d = Decoder { bytes, offset: 0 };
        assert(d.rest() =~= bytes@);
        Ok(d)
    }

    fn take(&mut self, len: usize, label: &str) -> (r: WireResult<&'a [u8]>)
        requires
            len <= 64,
        ensures
            final(self).input() == old(self).input(),
            match p_take(old(self).rest(), len as int, label@) {
                Ok((b, rest)) => r is Ok && r->Ok_0@ == b && final(self).rest() == rest,
                Err(e) => r is Err && r->Err_0@ == e,
            },
    {
        proof {
            use_type_invariant(&*self);
            reveal(p_take);
        }
        let ghost before = self.rest();
        if self.bytes.len() - self.offset < len {
            return Err(concat2("truncated ", label));
        }
        let end: usize = self.offset + len;
        let value: &'a [u8] = &self.bytes[self.offset..end];
        assert(value@ =~= before.subrange(0, len as int));
        self.offset = end;
        assert(self.rest() =~= before.subrange(len as int, before.len() as int));
        Ok(value)
    }

    pub fn u8(&mut self, label: &str) -> (r: WireResult<u8>)
        ensures
            final(self).input() == old(self).input(),
            parsed(r, p_u8(old(self).rest(), label@), final(self).rest()),
    {
        proof {
            reveal(p_take);
        }
        let b: &[u8] = self.take(1, label)?;
        Ok(b[0])
    }

    pub fn bool(&mut self, label: &str) -> (r: WireResult<bool>)
        ensures
            final(self).input() == old(self).input(),
            parsed(r, p_bool(old(self).rest(), label@), final(self).rest()),
    {
        let b: u8 = self.u8(label)?;
        if b == 0 {
            Ok(false)
        } else if b == 1 {
            Ok(true)
        } else {
            let mut message: String = concat2("invalid ", label);
            message.append(" boolean value ");
            push_dec(&mut message, b as u64);
            Err(message)
        }
    }

    pub fn u16(&mut self, label: &str) -> (r: WireResult<u16>)
        ensures
            final(self).input() == old(self).input(),
            parsed(r, p_u16(old(self).rest(), label@), final(self).rest()),
    {
        proof {
            reveal(p_take);
        }
        let b: &[u8] = self.take(2, label)?;
        Ok(get_u16(b))
    }

    pub fn u32(&mut self, label: &str) -> (r: WireResult<u32>)
        ensures
            final(self).input() == old(self).input(),
            parsed(r, p_u32(old(self).rest(), label@), final(self).rest()),
    {
        proof {
            reveal(p_take);
        }
        let b: &[u8] = self.take(4, label)?;
        Ok(get_u32(b))
    }

    pub fn u64(&mut self, label: &str) -> (r: WireResult<u64>)
        ensures
            final(self).input() == old(self).input(),
            parsed(r, p_u64(old(self).rest(), label@), final(self).rest()),
    {
        proof {
            reveal(p_take);
        }
        let b: &[u8] = self.take(8, label)?;
        Ok(get_u64(b))
    }

    pub fn fixed<const L: usize>(&mut self, label: &str) -> (r: WireResult<[u8; L]>)
        requires
            L <= 64,
        ensures
            final(self).input() == old(self).input(),
            parsed(r, p_fixed::<L>(old(self).rest(), label@), final(self).rest()),
    {
        proof {
            reveal(p_take);
        }
        let b: &[u8] = self.take(L, label)?;
        Ok(array_from::<L>(b))
    }

    /// Reads the length of a collection.
    pub fn count(&mut self, label: &str) -> (r: WireResult<usize>)
        ensures
            final(self).input() == old(self).input(),
            match p_count(old(self).rest(), MAX_COLLECTION_LEN as nat, label@) {
                Ok((n, rest)) => r is Ok && r->Ok_0 == n && final(self).rest() == rest,
                Err(e) => r is Err && r->Err_0@ == e,
            },
    {
        self.bounded_count(MAX_COLLECTION_LEN, label)
    }

    /// Reads the length of a collection with at most `max` members.
    pub fn bounded_count(&mut self, max: usize, label: &str) -> (r: WireResult<usize>)
        ensures
            final(self).input() == old(self).input(),
            match p_count(old(self).rest(), max as nat, label@) {
                Ok((n, rest)) => r is Ok && r->Ok_0 == n && final(self).rest() == rest,
                Err(e) => r is Err && r->Err_0@ == e,
            },
    {
        let n: u32 = self.u32(label)?;
        if n as u64 > max as u64 {
            return Err(count_message(label, max));
        }
        Ok(n as usize)
    }

    /// Checks that nothing is left.
    pub fn finish(self) -> (r: WireResult<()>)
        ensures
            text::shown(r) == whole(Ok(((), self.rest())), self.input()),
    {
        proof {
            use_type_invariant(&self);
        }
        if self.offset != self.bytes.len() {
            return Err(
                with_numbers(
                    "trailing bytes: consumed ",
                    self.offset as u64,
                    ", payload has ",
                    self.bytes.len() as u64,
                ),
            );
        }
        Ok(())
    }
}

/// A reader's result agrees with a parser's.
pub open spec fn parsed<T>(r: WireResult<T>, p: Parsed<T>, rest: Seq<u8>) -> bool {
    match p {
        Ok((v, after)) => r == Ok::<T, String>(v) && rest == after,
        Err(e) => r is Err && r->Err_0@ == e,
    }
}

/// A reader's result agrees with a parser's, up to the view of the value.
pub open spec fn parsed_view<T: View>(r: WireResult<T>, p: Parsed<T::V>, rest: Seq<u8>) -> bool {
    match p {
        Ok((v, after)) => r is Ok && r->Ok_0@ == v && rest == after,
        Err(e) => r is Err && r->Err_0@ == e,
    }
}

// ---------------------------------------------------------------------------
// Frames.
// ---------------------------------------------------------------------------

/// A payload behind its length in four big-endian bytes.
pub open spec fn frame_bytes(payload: Seq<u8>) -> Seq<u8> {
    bytes::be32(payload.len() as u32) + payload
}

/// The frame of a payload that is not too long.
pub fn encode_frame(payload: &[u8]) -> (r: WireResult<Vec<u8>>)
    ensures
        payload@.len() <= MAX_FRAME_LEN ==> r is Ok && r->Ok_0@ == frame_bytes(payload@),
        payload@.len() > MAX_FRAME_LEN ==> r is Err && r->Err_0@ == "outgoing frame exceeds "@
            + text::dec(MAX_FRAME_LEN as nat) + " bytes"@,
{
    if payload.len() > MAX_FRAME_LEN {
        return Err(with_number("outgoing frame exceeds ", MAX_FRAME_LEN as u64, " bytes"));
    }
    let mut out: Vec<u8> = Vec::with_capacity(4 + payload.len());
    push_u32_be(&mut out, payload.len() as u32);
    put_bytes(&mut out, payload);
    assert(out@ =~= frame_bytes(payload@));
    Ok(out)
}

/// The length that a frame header announces, if it is not too long.
pub fn frame_len(header: &[u8; 4]) -> (r: WireResult<usize>)
    ensures
        bytes::from_be32(header@) <= MAX_FRAME_LEN ==> r == Ok::<usize, String>(
            bytes::from_be32(header@) as usize,
        ),
        bytes::from_be32(header@) > MAX_FRAME_LEN ==> r is Err && r->Err_0@ == "incoming frame exceeds "@
            + text::dec(MAX_FRAME_LEN as nat) + " bytes"@,
{
    let len: u32 = be_u32(header);
    if len as u64 > MAX_FRAME_LEN as u64 {
        return Err(with_number("incoming frame exceeds ", MAX_FRAME_LEN as u64, " bytes"));
    }
    Ok(len as usize)
}

/// What reading a frame from the front of a byte string comes to.
pub open spec fn frame_result(stream: Seq<u8>) -> Parsed<Seq<u8>> {
    if stream.len() < 4 {
        Err("read frame header: failed to fill whole buffer"@)
    } else if bytes::from_be32(stream.subrange(0, 4)) > MAX_FRAME_LEN {
        Err("incoming frame exceeds "@ + text::dec(MAX_FRAME_LEN as nat) + " bytes"@)
    } else if stream.len() - 4 < bytes::from_be32(stream.subrange(0, 4)) {
        Err("read frame payload: failed to fill whole buffer"@)
    } else {
        let end = 4 + bytes::from_be32(stream.subrange(0, 4));
        Ok((stream.subrange(4, end), stream.subrange(end, stream.len() as int)))
    }
}

/// Reads the frame at the front of a byte string; the payload and how many
/// bytes of the string the frame takes.
pub fn decode_frame(stream: &[u8]) -> (r: WireResult<(Vec<u8>, usize)>)
    ensures
        match frame_result(stream@) {
            Ok((payload, rest)) => r is Ok && r->Ok_0.0@ == payload && stream@.subrange(
                r->Ok_0.1 as int,
                stream@.len() as int,
            ) == rest && r->Ok_0.1 == 4 + payload.len(),
            Err(e) => r is Err && r->Err_0@ == e,
        },
{
    if stream.len() < 4 {
        return Err(text("read frame header: failed to fill whole buffer"));
    }
    let header: [u8; 4] = array_from::<4>(&stream[0..4]);
    let len: usize = frame_len(&header)?;
    if stream.len() - 4 < len {
        return Err(text("read frame payload: failed to fill whole buffer"));
    }
    let payload: Vec<u8> = copy_slice(&stream[4..4 + len]);
    Ok((payload, 4 + len))
}

/// A frame is read back as it was written, and nothing behind it is touched.
pub proof fn law_frame_round_trip(payload: Seq<u8>, tail: Seq<u8>)
    requires
        payload.len() <= MAX_FRAME_LEN,
    ensures
        frame_result(frame_bytes(payload) + tail) == Ok::<(Seq<u8>, Seq<u8>), Seq<char>>(
            (payload, tail),
        ),
{
    let s = frame_bytes(payload) + tail;
    bytes::lemma_be32(payload.len() as u32);
    assert(s.subrange(0, 4) =~= bytes::be32(payload.len() as u32));
    assert(s.subrange(4, 4 + payload.len() as int) =~= payload);
    assert(s.subrange(4 + payload.len() as int, s.len() as int) =~= tail);
}

// ---------------------------------------------------------------------------
// Votes, transactions and proposals.
// ---------------------------------------------------------------------------

/// The verdict on a phase.
pub open spec fn phase_verdict(phase: u8) -> Verdict {
    if phase != PHASE_PREVOTE && phase != PHASE_PRECOMMIT {
        Err("invalid vote phase "@ + text::dec(phase as nat))
    } else {
        Ok(())
    }
}

pub open spec fn p_phase(s: Seq<u8>) -> Parsed<u8> {
    match p_u8(s, "vote phase"@) {
        Err(e) => Err(e),
        Ok((phase, rest)) => match phase_verdict(phase) {
            Err(e) => Err(e),
            Ok(_) => Ok((phase, rest)),
        },
    }
}

fn check_phase(phase: u8) -> (r: WireResult<()>)
    ensures
        text::shown(r) == phase_verdict(phase),
{
    if phase != PHASE_PREVOTE && phase != PHASE_PRECOMMIT {
        let mut message: String = text("invalid vote phase ");
        push_dec(&mut message, phase as u64);
        return Err(message);
    }
    Ok(())
}

fn put_phase(encoder: &mut Encoder, phase: u8) -> (r: WireResult<()>)
    ensures
        text::shown(r) == phase_verdict(phase),
        r is Ok ==> final(encoder)@ == old(encoder)@ + seq![phase],
{
    check_phase(phase)?;
    encoder.u8(phase);
    Ok(())
}

fn take_phase(decoder: &mut Decoder<'_>) -> (r: WireResult<u8>)
    ensures
        final(decoder).input() == old(decoder).input(),
        parsed(r, p_phase(old(decoder).rest()), final(decoder).rest()),
{
    let phase: u8 = decoder.u8("vote phase")?;
    check_phase(phase)?;
    Ok(phase)
}

pub open spec fn p_member(s: Seq<u8>) -> Parsed<CommitteeMember> {
    match p_u8(s, "committee member index"@) {
        Err(e) => Err(e),
        Ok((index, s)) => match p_fixed::<32>(s, "committee member public key"@) {
            Err(e) => Err(e),
            Ok((public_key, s)) => Ok((CommitteeMember { index, public_key }, s)),
        },
    }
}

fn put_committee_member(encoder: &mut Encoder, member: &CommitteeMember)
    ensures
        final(encoder)@ == old(encoder)@ + model::member_bytes()(*member),
{
    encoder.u8(member.index);
    encoder.fixed(&member.public_key);
    assert(encoder@ =~= old(encoder)@ + model::member_bytes()(*member));
}

fn take_committee_member(decoder: &mut Decoder<'_>) -> (r: WireResult<CommitteeMember>)
    ensures
        final(decoder).input() == old(decoder).input(),
        parsed(r, p_member(old(decoder).rest()), final(decoder).rest()),
{
    let index: u8 = decoder.u8("committee member index")?;
    let public_key: [u8; 32] = decoder.fixed::<32>("committee member public key")?;
    Ok(CommitteeMember { index, public_key })
}

/// A parser of members, as a value.
pub open spec fn member_item() -> spec_fn(Seq<u8>) -> Parsed<CommitteeMember> {
    |s: Seq<u8>| p_member(s)
}

/// A member with an index that an earlier member has.
pub open spec fn index_clash() -> spec_fn(Seq<CommitteeMember>, CommitteeMember) -> bool {
    |acc: Seq<CommitteeMember>, x: CommitteeMember|
        exists|j: int| 0 <= j < acc.len() && (#[trigger] acc[j]).index == x.index
}

/// The wire form of a committee.
pub open spec fn manifest_wire(m: ManifestModel) -> Seq<u8> {
    bytes::le32(m.network_id) + bytes::le64(m.epoch) + seq![m.threshold] + bytes::le32(m.members.len() as u32) + bytes::flat(
        m.members,
        model::member_bytes(),
    )
}

/// The verdict on encoding a committee.
pub open spec fn manifest_fits(m: ManifestModel) -> Verdict {
    count_verdict(m.members.len(), N as nat, "committee members"@)
}

pub open spec fn p_manifest(s: Seq<u8>) -> Parsed<ManifestModel> {
    match p_u32(s, "committee network"@) {
        Err(e) => Err(e),
        Ok((network_id, s)) => match p_u64(s, "committee epoch"@) {
            Err(e) => Err(e),
            Ok((epoch, s)) => match p_u8(s, "committee threshold"@) {
                Err(e) => Err(e),
                Ok((threshold, s)) => match p_count(s, N as nat, "committee members"@) {
                    Err(e) => Err(e),
                    Ok((n, s)) => match p_list(
                        n,
                        s,
                        Seq::empty(),
                        member_item(),
                        index_clash(),
                        "duplicate committee member index"@,
                    ) {
                        Err(e) => Err(e),
                        Ok((members, s)) => Ok(
                            (ManifestModel { network_id, epoch, threshold, members }, s),
                        ),
                    },
                },
            },
        },
    }
}

fn put_committee_manifest(encoder: &mut Encoder, manifest: &CommitteeManifest) -> (r: WireResult<
    (),
>)
    ensures
        text::shown(r) == manifest_fits(manifest@),
        r is Ok ==> final(encoder)@ == old(encoder)@ + manifest_wire(manifest@),
{
    encoder.u32(manifest.network_id);
    encoder.u64(manifest.epoch);
    encoder.u8(manifest.threshold);
    encoder.bounded_count(manifest.members.len(), N, "committee members")?;
    let ghost head = encoder@;
    let ghost members = manifest.members@;
    let mut i: usize = 0;
    proof {
        bytes::lemma_flat_ends(members, model::member_bytes());
        bytes::lemma_concat_empty(head);
    }
    while i < manifest.members.len()
        invariant
            i <= members.len(),
            members == manifest.members@,
            encoder@ == head + bytes::flat(members.subrange(0, i as int), model::member_bytes()),
        decreases members.len() - i,
    {
        put_committee_member(encoder, &manifest.members[i]);
        proof {
            bytes::lemma_flat_step(members, model::member_bytes(), i as int);
            bytes::lemma_concat_assoc(
                head,
                bytes::flat(members.subrange(0, i as int), model::member_bytes()),
                model::member_bytes()(members[i as int]),
            );
        }
        i = i + 1;
    }
    proof {
        bytes::lemma_flat_ends(members, model::member_bytes());
        assert(encoder@ =~= old(encoder)@ + manifest_wire(manifest@));
    }
    Ok(())
}

fn take_committee_manifest(decoder: &mut Decoder<'_>) -> (r: WireResult<CommitteeManifest>)
    ensures
        final(decoder).input() == old(decoder).input(),
        parsed_view(r, p_manifest(old(decoder).rest()), final(decoder).rest()),
{
    let network_id: u32 = decoder.u32("committee network")?;
    let epoch: u64 = decoder.u64("committee epoch")?;
    let threshold: u8 = decoder.u8("committee threshold")?;
    let count: usize = decoder.bounded_count(N, "committee members")?;
    let mut members: Vec<CommitteeMember> = Vec::with_capacity(count);
    let mut indices: BTreeSet<u8> = BTreeSet::new();
    let mut i: usize = 0;
    let ghost start = decoder.rest();
    let ghost m = "duplicate committee member index"@;
    while i < count
        invariant
            i <= count,
            decoder.input() == old(decoder).input(),
            m == "duplicate committee member index"@,
            p_list(count as nat, start, Seq::empty(), member_item(), index_clash(), m) == p_list(
                (count - i) as nat,
                decoder.rest(),
                members@,
                member_item(),
                index_clash(),
                m,
            ),
            forall|k: u8|
                indices@.contains(k) <==> exists|j: int|
                    0 <= j < members@.len() && (#[trigger] members@[j]).index == k,
            p_manifest(old(decoder).rest()) == (match p_list(
                count as nat,
                start,
                Seq::empty(),
                member_item(),
                index_clash(),
                m,
            ) {
                Err(e) => Err(e),
                Ok((members, s)) => Ok(
                    (ManifestModel { network_id, epoch, threshold, members }, s),
                ),
            }),
        decreases count - i,
    {
        let member: CommitteeMember = take_committee_member(decoder)?;
        let ghost before = members@;
        let ghost seen = indices@;
        if !indices.insert(member.index) {
            assert(index_clash()(before, member));
            return Err(text("duplicate committee member index"));
        }
        members.push(member);
        proof {
            assert(!index_clash()(before, member));
            assert forall|k: u8| indices@.contains(k) <==> exists|j: int|
                0 <= j < members@.len() && (#[trigger] members@[j]).index == k by {
                if indices@.contains(k) {
                    if k == member.index {
                        assert(members@[before.len() as int].index == k);
                    } else {
                        assert(seen.contains(k));
                        let j = choose|j: int|
                            0 <= j < before.len() && (#[trigger] before[j]).index == k;
                        assert(members@[j].index == k);
                    }
                }
                if exists|j: int| 0 <= j < members@.len() && (#[trigger] members@[j]).index == k {
                    let j = choose|j: int|
                        0 <= j < members@.len() && (#[trigger] members@[j]).index == k;
                    if j < before.len() {
                        assert(before[j].index == k);
                        assert(seen.contains(k));
                    }
                }
            }
        }
        i = i + 1;
    }
    Ok(CommitteeManifest { network_id, epoch, threshold, members })
}

pub open spec fn p_cell_ref(s: Seq<u8>) -> Parsed<CellRef> {
    match p_u32(s, "cell asset"@) {
        Err(e) => Err(e),
        Ok((asset_id, s)) => match p_fixed::<32>(s, "cell id"@) {
            Err(e) => Err(e),
            Ok((id, s)) => match p_u64(s, "cell generation"@) {
                Err(e) => Err(e),
                Ok((generation, s)) => Ok((CellRef { asset_id, id, generation }, s)),
            },
        },
    }
}

fn put_cell_ref(encoder: &mut Encoder, reference: &CellRef)
    ensures
        final(encoder)@ == old(encoder)@ + model::ref_bytes(*reference),
{
    encoder.u32(reference.asset_id);
    encoder.fixed(&reference.id);
    encoder.u64(reference.generation);
    assert(encoder@ =~= old(encoder)@ + model::ref_bytes(*reference));
}

fn take_cell_ref(decoder: &mut Decoder<'_>) -> (r: WireResult<CellRef>)
    ensures
        final(decoder).input() == old(decoder).input(),
        parsed(r, p_cell_ref(old(decoder).rest()), final(decoder).rest()),
{
    let asset_id: u32 = decoder.u32("cell asset")?;
    let id: [u8; 32] = decoder.fixed::<32>("cell id")?;
    let generation: u64 = decoder.u64("cell generation")?;
    Ok(CellRef { asset_id, id, generation })
}

/// The wire form of a cell.
pub open spec fn cell_wire(c: Cell) -> Seq<u8> {
    model::ref_bytes(c.reference) + bytes::le64(c.amount) + c.owner@ + c.predecessor@ + c.state_digest@
}

pub open spec fn p_cell(s: Seq<u8>) -> Parsed<Cell> {
    match p_cell_ref(s) {
        Err(e) => Err(e),
        Ok((reference, s)) => match p_u64(s, "cell amount"@) {
            Err(e) => Err(e),
            Ok((amount, s)) => match p_fixed::<32>(s, "cell owner"@) {
                Err(e) => Err(e),
                Ok((owner, s)) => match p_fixed::<32>(s, "cell predecessor"@) {
                    Err(e) => Err(e),
                    Ok((predecessor, s)) => match p_fixed::<32>(s, "cell state digest"@) {
                        Err(e) => Err(e),
                        Ok((state_digest, s)) => Ok(
                            (Cell { reference, amount, owner, predecessor, state_digest }, s),
                        ),
                    },
                },
            },
        },
    }
}

fn put_cell(encoder: &mut Encoder, cell: &Cell)
    ensures
        final(encoder)@ == old(encoder)@ + cell_wire(*cell),
{
    put_cell_ref(encoder, &cell.reference);
    encoder.u64(cell.amount);
    encoder.fixed(&cell.owner);
    encoder.fixed(&cell.predecessor);
    encoder.fixed(&cell.state_digest);
    assert(encoder@ =~= old(encoder)@ + cell_wire(*cell));
}

fn take_cell(decoder: &mut Decoder<'_>) -> (r: WireResult<Cell>)
    ensures
        final(decoder).input() == old(decoder).input(),
        parsed(r, p_cell(old(decoder).rest()), final(decoder).rest()),
{
    let reference: CellRef = take_cell_ref(decoder)?;
    let amount: u64 = decoder.u64("cell amount")?;
    let owner: [u8; 32] = decoder.fixed::<32>("cell owner")?;
    let predecessor: [u8; 32] = decoder.fixed::<32>("cell predecessor")?;
    let state_digest: [u8; 32] = decoder.fixed::<32>("cell state digest")?;
    Ok(Cell { reference, amount, owner, predecessor, state_digest })
}

pub open spec fn p_output(s: Seq<u8>) -> Parsed<Output> {
    match p_u32(s, "output asset"@) {
        Err(e) => Err(e),
        Ok((asset_id, s)) => match p_u64(s, "output amount"@) {
            Err(e) => Err(e),
            Ok((amount, s)) => match p_fixed::<32>(s, "output owner"@) {
                Err(e) => Err(e),
                Ok((owner, s)) => Ok((Output { asset_id, amount, owner }, s)),
            },
        },
    }
}

/// A parser of outputs, as a value.
pub open spec fn output_item() -> spec_fn(Seq<u8>) -> Parsed<Output> {
    |s: Seq<u8>| p_output(s)
}

fn put_output(encoder: &mut Encoder, output: &Output)
    ensures
        final(encoder)@ == old(encoder)@ + model::output_bytes()(*output),
{
    encoder.u32(output.asset_id);
    encoder.u64(output.amount);
    encoder.fixed(&output.owner);
    assert(encoder@ =~= old(encoder)@ + model::output_bytes()(*output));
}

fn take_output(decoder: &mut Decoder<'_>) -> (r: WireResult<Output>)
    ensures
        final(decoder).input() == old(decoder).input(),
        parsed(r, p_output(old(decoder).rest()), final(decoder).rest()),
{
    let asset_id: u32 = decoder.u32("output asset")?;
    let amount: u64 = decoder.u64("output amount")?;
    let owner: [u8; 32] = decoder.fixed::<32>("output owner")?;
    Ok(Output { asset_id, amount, owner })
}

/// The wire form of a transaction: what is hashed of it.
pub open spec fn tx_wire(tx: TxModel) -> Seq<u8> {
    model::intent_bytes(tx)
}

/// The verdict on encoding a transaction.
pub open spec fn tx_fits(tx: TxModel) -> Verdict {
    if tx.outputs.len() == 0 {
        Err("transaction output count must be nonzero"@)
    } else {
        count_verdict(tx.outputs.len(), MAX_OUTPUTS as nat, "transaction outputs"@)
    }
}

/// The fields of a transaction behind its outputs.
pub open spec fn p_tx_end(head: TxModel, s: Seq<u8>) -> Parsed<TxModel> {
    match p_u64(s, "transaction fee"@) {
        Err(e) => Err(e),
        Ok((fee, s)) => match p_fixed::<32>(s, "transaction salt"@) {
            Err(e) => Err(e),
            Ok((salt, s)) => Ok((TxModel { fee, salt, ..head }, s)),
        },
    }
}

/// The outputs of a transaction and what follows them.
pub open spec fn p_tx_outputs(head: TxModel, s: Seq<u8>) -> Parsed<TxModel> {
    match p_count(s, MAX_OUTPUTS as nat, "transaction outputs"@) {
        Err(e) => Err(e),
        Ok((n, s)) => if n == 0 {
            Err("transaction output count must be nonzero"@)
        } else {
            match p_list(n, s, Seq::empty(), output_item(), no_clash(), Seq::empty()) {
                Err(e) => Err(e),
                Ok((outputs, s)) => p_tx_end(TxModel { outputs, ..head }, s),
            }
        },
    }
}

/// A transaction without its outputs, fee and salt.
pub open spec fn tx_head(
    version: u16,
    network_id: u32,
    epoch: u64,
    committee_hash: Digest,
    input: Cell,
) -> TxModel {
    TxModel {
        version,
        network_id,
        epoch,
        committee_hash,
        input,
        outputs: Seq::empty(),
        fee: 0,
        salt: bytes::zero_digest(),
    }
}

pub open spec fn p_tx(s: Seq<u8>) -> Parsed<TxModel> {
    match p_u16(s, "transaction version"@) {
        Err(e) => Err(e),
        Ok((version, s)) => match p_u32(s, "transaction network"@) {
            Err(e) => Err(e),
            Ok((network_id, s)) => match p_u64(s, "transaction epoch"@) {
                Err(e) => Err(e),
                Ok((epoch, s)) => match p_fixed::<32>(s, "transaction committee hash"@) {
                    Err(e) => Err(e),
                    Ok((committee_hash, s)) => match p_cell(s) {
                        Err(e) => Err(e),
                        Ok((input, s)) => p_tx_outputs(
                            tx_head(version, network_id, epoch, committee_hash, input),
                            s,
                        ),
                    },
                },
            },
        },
    }
}

fn put_tx(encoder: &mut Encoder, tx: &Tx) -> (r: WireResult<()>)
    ensures
        text::shown(r) == tx_fits(tx@),
        r is Ok ==> final(encoder)@ == old(encoder)@ + tx_wire(tx@),
{
    encoder.u16(tx.version);
    encoder.u32(tx.network_id);
    encoder.u64(tx.epoch);
    encoder.fixed(&tx.committee_hash);
    put_cell(encoder, &tx.input);
    if tx.outputs.is_empty() {
        return Err(text("transaction output count must be nonzero"));
    }
    encoder.bounded_count(tx.outputs.len(), MAX_OUTPUTS, "transaction outputs")?;
    let ghost head = encoder@;
    let ghost outputs = tx.outputs@;
    let ghost start = bytes::le16(tx.version) + bytes::le32(tx.network_id) + bytes::le64(tx.epoch)
        + tx.committee_hash@ + model::ref_bytes(tx.input.reference) + bytes::le64(tx.input.amount)
        + tx.input.owner@ + tx.input.predecessor@ + tx.input.state_digest@ + bytes::le32(
        outputs.len() as u32,
    );
    assert(head =~= old(encoder)@ + start);
    let mut i: usize = 0;
    proof {
        bytes::lemma_flat_ends(outputs, model::output_bytes());
        bytes::lemma_concat_empty(head);
    }
    while i < tx.outputs.len()
        invariant
            i <= outputs.len(),
            outputs == tx.outputs@,
            encoder@ == head + bytes::flat(outputs.subrange(0, i as int), model::output_bytes()),
        decreases outputs.len() - i,
    {
        put_output(encoder, &tx.outputs[i]);
        proof {
            bytes::lemma_flat_step(outputs, model::output_bytes(), i as int);
            bytes::lemma_concat_assoc(
                head,
                bytes::flat(outputs.subrange(0, i as int), model::output_bytes()),
                model::output_bytes()(outputs[i as int]),
            );
        }
        i = i + 1;
    }
    encoder.u64(tx.fee);
    encoder.fixed(&tx.salt);
    proof {
        bytes::lemma_flat_ends(outputs, model::output_bytes());
        let listed_outputs = bytes::flat(outputs, model::output_bytes());
        assert(tx_wire(tx@) == start + listed_outputs + bytes::le64(tx.fee) + tx.salt@);
        assert(encoder@ =~= old(encoder)@ + (start + listed_outputs + bytes::le64(tx.fee)
            + tx.salt@));
    }
    Ok(())
}

fn take_outputs(decoder: &mut Decoder<'_>, count: usize) -> (r: WireResult<Vec<Output>>)
    ensures
        final(decoder).input() == old(decoder).input(),
        match p_list(
            count as nat,
            old(decoder).rest(),
            Seq::empty(),
            output_item(),
            no_clash(),
            Seq::empty(),
        ) {
            Ok((v, after)) => r is Ok && r->Ok_0@ == v && final(decoder).rest() == after,
            Err(e) => r is Err && r->Err_0@ == e,
        },
{
    let mut outputs: Vec<Output> = Vec::with_capacity(count);
    let mut i: usize = 0;
    let ghost start = decoder.rest();
    while i < count
        invariant
            i <= count,
            start == old(decoder).rest(),
            decoder.input() == old(decoder).input(),
            p_list(
                count as nat,
                start,
                Seq::empty(),
                output_item(),
                no_clash(),
                Seq::empty(),
            ) == p_list(
                (count - i) as nat,
                decoder.rest(),
                outputs@,
                output_item(),
                no_clash(),
                Seq::empty(),
            ),
        decreases count - i,
    {
        outputs.push(take_output(decoder)?);
        i = i + 1;
    }
    Ok(outputs)
}

fn take_tx(decoder: &mut Decoder<'_>) -> (r: WireResult<Tx>)
    ensures
        final(decoder).input() == old(decoder).input(),
        parsed_view(r, p_tx(old(decoder).rest()), final(decoder).rest()),
{
    let version: u16 = decoder.u16("transaction version")?;
    let network_id: u32 = decoder.u32("transaction network")?;
    let epoch: u64 = decoder.u64("transaction epoch")?;
    let committee_hash: [u8; 32] = decoder.fixed::<32>("transaction committee hash")?;
    let input: Cell = take_cell(decoder)?;
    let count: usize = decoder.bounded_count(MAX_OUTPUTS, "transaction outputs")?;
    if count == 0 {
        return Err(text("transaction output count must be nonzero"));
    }
    let outputs: Vec<Output> = take_outputs(decoder, count)?;
    let fee: u64 = decoder.u64("transaction fee")?;
    let salt: [u8; 32] = decoder.fixed::<32>("transaction salt")?;
    Ok(Tx { version, network_id, epoch, committee_hash, input, outputs, fee, salt })
}

/// The wire form of an authorization.
pub open spec fn auth_wire(auth: UserAuth) -> Seq<u8> {
    auth.signer@ + auth.signature@
}

pub open spec fn p_auth(s: Seq<u8>) -> Parsed<UserAuth> {
    match p_fixed::<32>(s, "authorization signer"@) {
        Err(e) => Err(e),
        Ok((signer, s)) => match p_fixed::<64>(s, "authorization signature"@) {
            Err(e) => Err(e),
            Ok((signature, s)) => Ok((UserAuth { signer, signature }, s)),
        },
    }
}

fn put_user_auth(encoder: &mut Encoder, auth: &UserAuth)
    ensures
        final(encoder)@ == old(encoder)@ + auth_wire(*auth),
{
    encoder.fixed(&auth.signer);
    encoder.fixed(&auth.signature);
    assert(encoder@ =~= old(encoder)@ + auth_wire(*auth));
}

fn take_user_auth(decoder: &mut Decoder<'_>) -> (r: WireResult<UserAuth>)
    ensures
        final(decoder).input() == old(decoder).input(),
        parsed(r, p_auth(old(decoder).rest()), final(decoder).rest()),
{
    let signer: [u8; 32] = decoder.fixed::<32>("authorization signer")?;
    let signature: [u8; 64] = decoder.fixed::<64>("authorization signature")?;
    Ok(UserAuth { signer, signature })
}

/// The wire form of a vote.
pub open spec fn vote_wire() -> spec_fn(Vote) -> Seq<u8> {
    |v: Vote|
        bytes::le32(v.network_id) + bytes::le64(v.epoch) + v.committee_hash@ + seq![v.phase] + bytes::le64(v.round)
            + v.conflict_key@ + v.intent@ + v.justify@ + seq![v.signer_index] + v.signature@
}

/// The fields of a vote behind its justification.
pub open spec fn p_vote_end(head: Vote, s: Seq<u8>) -> Parsed<Vote> {
    match p_u8(s, "vote signer index"@) {
        Err(e) => Err(e),
        Ok((signer_index, s)) => match p_fixed::<64>(s, "vote signature"@) {
            Err(e) => Err(e),
            Ok((signature, s)) => Ok((Vote { signer_index, signature, ..head }, s)),
        },
    }
}

/// The fields of a vote behind its phase.
pub open spec fn p_vote_middle(head: Vote, s: Seq<u8>) -> Parsed<Vote> {
    match p_u64(s, "vote round"@) {
        Err(e) => Err(e),
        Ok((round, s)) => match p_fixed::<32>(s, "vote conflict key"@) {
            Err(e) => Err(e),
            Ok((conflict_key, s)) => match p_fixed::<32>(s, "vote intent"@) {
                Err(e) => Err(e),
                Ok((intent, s)) => match p_fixed::<32>(s, "vote justification"@) {
                    Err(e) => Err(e),
                    Ok((justify, s)) => p_vote_end(
                        Vote { round, conflict_key, intent, justify, ..head },
                        s,
                    ),
                },
            },
        },
    }
}

/// A vote without the fields behind its phase.
pub open spec fn vote_head(network_id: u32, epoch: u64, committee_hash: Digest, phase: u8) -> Vote {
    Vote {
        network_id,
        epoch,
        committee_hash,
        phase,
        round: 0,
        conflict_key: bytes::zero_digest(),
        intent: bytes::zero_digest(),
        justify: bytes::zero_digest(),
        signer_index: 0,
        signature: bytes::arr::<64>(bytes::zeros(64)),
    }
}

pub open spec fn p_vote(s: Seq<u8>) -> Parsed<Vote> {
    match p_u32(s, "vote network"@) {
        Err(e) => Err(e),
        Ok((network_id, s)) => match p_u64(s, "vote epoch"@) {
            Err(e) => Err(e),
            Ok((epoch, s)) => match p_fixed::<32>(s, "vote committee hash"@) {
                Err(e) => Err(e),
                Ok((committee_hash, s)) => match p_phase(s) {
                    Err(e) => Err(e),
                    Ok((phase, s)) => p_vote_middle(
                        vote_head(network_id, epoch, committee_hash, phase),
                        s,
                    ),
                },
            },
        },
    }
}

/// A parser of votes, as a value.
pub open spec fn vote_item() -> spec_fn(Seq<u8>) -> Parsed<Vote> {
    |s: Seq<u8>| p_vote(s)
}

fn put_vote(encoder: &mut Encoder, vote: &Vote) -> (r: WireResult<()>)
    ensures
        text::shown(r) == phase_verdict(vote.phase),
        r is Ok ==> final(encoder)@ == old(encoder)@ + vote_wire()(*vote),
{
    encoder.u32(vote.network_id);
    encoder.u64(vote.epoch);
    encoder.fixed(&vote.committee_hash);
    put_phase(encoder, vote.phase)?;
    encoder.u64(vote.round);
    encoder.fixed(&vote.conflict_key);
    encoder.fixed(&vote.intent);
    encoder.fixed(&vote.justify);
    encoder.u8(vote.signer_index);
    encoder.fixed(&vote.signature);
    assert(encoder@ =~= old(encoder)@ + vote_wire()(*vote));
    Ok(())
}

fn take_vote(decoder: &mut Decoder<'_>) -> (r: WireResult<Vote>)
    ensures
        final(decoder).input() == old(decoder).input(),
        parsed(r, p_vote(old(decoder).rest()), final(decoder).rest()),
{
    let network_id: u32 = decoder.u32("vote network")?;
    let epoch: u64 = decoder.u64("vote epoch")?;
    let committee_hash: [u8; 32] = decoder.fixed::<32>("vote committee hash")?;
    let phase: u8 = take_phase(decoder)?;
    let round: u64 = decoder.u64("vote round")?;
    let conflict_key: [u8; 32] = decoder.fixed::<32>("vote conflict key")?;
    let intent: [u8; 32] = decoder.fixed::<32>("vote intent")?;
    let justify: [u8; 32] = decoder.fixed::<32>("vote justification")?;
    let signer_index: u8 = decoder.u8("vote signer index")?;
    let signature: [u8; 64] = decoder.fixed::<64>("vote signature")?;
    Ok(
        Vote {
            network_id,
            epoch,
            committee_hash,
            phase,
            round,
            conflict_key,
            intent,
            justify,
            signer_index,
            signature,
        },
    )
}

/// The wire form of a certificate.
pub open spec fn qc_wire(votes: Seq<Vote>) -> Seq<u8> {
    bytes::le32(votes.len() as u32) + bytes::flat(votes, vote_wire())
}

/// The verdict on the phases of the votes from number `i` on.
pub open spec fn phases_verdict(votes: Seq<Vote>, i: int) -> Verdict
    decreases votes.len() - i,
{
    if i < 0 || i >= votes.len() {
        Ok(())
    } else {
        match phase_verdict(votes[i].phase) {
            Err(e) => Err(e),
            Ok(_) => phases_verdict(votes, i + 1),
        }
    }
}

/// The verdict on encoding a certificate.
pub open spec fn qc_fits(votes: Seq<Vote>) -> Verdict {
    if votes.len() == 0 {
        Err("QC vote count must be nonzero"@)
    } else {
        match count_verdict(votes.len(), MAX_VOTES as nat, "QC votes"@) {
            Err(e) => Err(e),
            Ok(_) => phases_verdict(votes, 0),
        }
    }
}

pub open spec fn p_qc(s: Seq<u8>) -> Parsed<Seq<Vote>> {
    match p_count(s, MAX_VOTES as nat, "QC votes"@) {
        Err(e) => Err(e),
        Ok((n, s)) => if n == 0 {
            Err("QC vote count must be nonzero"@)
        } else {
            p_list(n, s, Seq::empty(), vote_item(), no_clash(), Seq::empty())
        },
    }
}

fn put_qc(encoder: &mut Encoder, qc: &Qc) -> (r: WireResult<()>)
    ensures
        text::shown(r) == qc_fits(qc@),
        r is Ok ==> final(encoder)@ == old(encoder)@ + qc_wire(qc@),
{
    if qc.votes.is_empty() {
        return Err(text("QC vote count must be nonzero"));
    }
    encoder.bounded_count(qc.votes.len(), MAX_VOTES, "QC votes")?;
    let ghost head = encoder@;
    let ghost votes = qc.votes@;
    let mut i: usize = 0;
    proof {
        bytes::lemma_flat_ends(votes, vote_wire());
        bytes::lemma_concat_empty(head);
    }
    while i < qc.votes.len()
        invariant
            i <= votes.len(),
            votes == qc.votes@,
            qc_fits(votes) == phases_verdict(votes, i as int),
            encoder@ == head + bytes::flat(votes.subrange(0, i as int), vote_wire()),
        decreases votes.len() - i,
    {
        put_vote(encoder, &qc.votes[i])?;
        proof {
            bytes::lemma_flat_step(votes, vote_wire(), i as int);
            bytes::lemma_concat_assoc(
                head,
                bytes::flat(votes.subrange(0, i as int), vote_wire()),
                vote_wire()(votes[i as int]),
            );
        }
        i = i + 1;
    }
    proof {
        bytes::lemma_flat_ends(votes, vote_wire());
        assert(encoder@ =~= old(encoder)@ + qc_wire(votes));
    }
    Ok(())
}

fn take_qc(decoder: &mut Decoder<'_>) -> (r: WireResult<Qc>)
    ensures
        final(decoder).input() == old(decoder).input(),
        parsed_view(r, p_qc(old(decoder).rest()), final(decoder).rest()),
{
    let count: usize = decoder.bounded_count(MAX_VOTES, "QC votes")?;
    if count == 0 {
        return Err(text("QC vote count must be nonzero"));
    }
    let mut votes: Vec<Vote> = Vec::with_capacity(count);
    let mut i: usize = 0;
    while i < count
        invariant
            i <= count,
            decoder.input() == old(decoder).input(),
            p_qc(old(decoder).rest()) == p_list(
                (count - i) as nat,
                decoder.rest(),
                votes@,
                vote_item(),
                no_clash(),
                Seq::empty(),
            ),
        decreases count - i,
    {
        votes.push(take_vote(decoder)?);
        i = i + 1;
    }
    Ok(Qc { votes })
}

/// The wire form of an optional certificate.
pub open spec fn justify_wire(justify: Option<Seq<Vote>>) -> Seq<u8> {
    match justify {
        Some(votes) => seq![1u8] + qc_wire(votes),
        None => seq![0u8],
    }
}

/// The wire form of a proposal.
pub open spec fn proposal_wire(p: ProposalModel) -> Seq<u8> {
    bytes::le64(p.round) + seq![p.proposer_index] + tx_wire(p.tx) + auth_wire(p.auth) + p.intent@
        + justify_wire(p.justify) + p.signature@
}

/// The verdict on encoding a proposal.
pub open spec fn proposal_fits(p: ProposalModel) -> Verdict {
    match tx_fits(p.tx) {
        Err(e) => Err(e),
        Ok(_) => match p.justify {
            Some(votes) => qc_fits(votes),
            None => Ok(()),
        },
    }
}

pub open spec fn p_justify(s: Seq<u8>) -> Parsed<Option<Seq<Vote>>> {
    match p_bool(s, "proposal justification presence"@) {
        Err(e) => Err(e),
        Ok((present, s)) => if present {
            match p_qc(s) {
                Err(e) => Err(e),
                Ok((votes, s)) => Ok((Some(votes), s)),
            }
        } else {
            Ok((None, s))
        },
    }
}

pub open spec fn p_proposal(s: Seq<u8>) -> Parsed<ProposalModel> {
    match p_u64(s, "proposal round"@) {
        Err(e) => Err(e),
        Ok((round, s)) => match p_u8(s, "proposal proposer index"@) {
            Err(e) => Err(e),
            Ok((proposer_index, s)) => match p_tx(s) {
                Err(e) => Err(e),
                Ok((tx, s)) => match p_auth(s) {
                    Err(e) => Err(e),
                    Ok((auth, s)) => match p_fixed::<32>(s, "proposal intent"@) {
                        Err(e) => Err(e),
                        Ok((intent, s)) => match p_justify(s) {
                            Err(e) => Err(e),
                            Ok((justify, s)) => match p_fixed::<64>(s, "proposal signature"@) {
                                Err(e) => Err(e),
                                Ok((signature, s)) => Ok(
                                    (
                                        ProposalModel {
                                            round,
                                            proposer_index,
                                            tx,
                                            auth,
                                            intent,
                                            justify,
                                            signature,
                                        },
                                        s,
                                    ),
                                ),
                            },
                        },
                    },
                },
            },
        },
    }
}

fn put_proposal(encoder: &mut Encoder, proposal: &Proposal) -> (r: WireResult<()>)
    ensures
        text::shown(r) == proposal_fits(proposal@),
        r is Ok ==> final(encoder)@ == old(encoder)@ + proposal_wire(proposal@),
{
    encoder.u64(proposal.round);
    encoder.u8(proposal.proposer_index);
    put_tx(encoder, &proposal.tx)?;
    put_user_auth(encoder, &proposal.auth);
    encoder.fixed(&proposal.intent);
    put_justify(encoder, &proposal.justify)?;
    encoder.fixed(&proposal.signature);
    proof {
        let p = proposal@;
        lemma_seven_parts(
            old(encoder)@,
            bytes::le64(p.round),
            seq![p.proposer_index],
            tx_wire(p.tx),
            auth_wire(p.auth),
            p.intent@,
            justify_wire(p.justify),
            p.signature@,
        );
    }
    Ok(())
}

fn put_justify(encoder: &mut Encoder, justify: &Option<Qc>) -> (r: WireResult<()>)
    ensures
        text::shown(r) == match model::optional_votes(*justify) {
            Some(votes) => qc_fits(votes),
            None => Ok(()),
        },
        r is Ok ==> final(encoder)@ == old(encoder)@ + justify_wire(
            model::optional_votes(*justify),
        ),
{
    encoder.bool(justify.is_some());
    match justify {
        Some(qc) => {
            put_qc(encoder, qc)?;
            assert(encoder@ =~= old(encoder)@ + (seq![1u8] + qc_wire(qc@)));
        },
        None => {},
    }
    Ok(())
}

/// Seven parts that are put one after another are put as a whole.
proof fn lemma_seven_parts(
    e: Seq<u8>,
    a: Seq<u8>,
    b: Seq<u8>,
    c: Seq<u8>,
    d: Seq<u8>,
    f: Seq<u8>,
    g: Seq<u8>,
    h: Seq<u8>,
)
    ensures
        e + a + b + c + d + f + g + h == e + (a + b + c + d + f + g + h),
{
    assert(e + a + b =~= e + (a + b));
    assert(e + (a + b) + c =~= e + (a + b + c));
    assert(e + (a + b + c) + d =~= e + (a + b + c + d));
    assert(e + (a + b + c + d) + f =~= e + (a + b + c + d + f));
    assert(e + (a + b + c + d + f) + g =~= e + (a + b + c + d + f + g));
    assert(e + (a + b + c + d + f + g) + h =~= e + (a + b + c + d + f + g + h));
}

fn take_proposal(decoder: &mut Decoder<'_>) -> (r: WireResult<Proposal>)
    ensures
        final(decoder).input() == old(decoder).input(),
        parsed_view(r, p_proposal(old(decoder).rest()), final(decoder).rest()),
{
    let round: u64 = decoder.u64("proposal round")?;
    let proposer_index: u8 = decoder.u8("proposal proposer index")?;
    let tx: Tx = take_tx(decoder)?;
    let auth: UserAuth = take_user_auth(decoder)?;
    let intent: [u8; 32] = decoder.fixed::<32>("proposal intent")?;
    let present: bool = decoder.bool("proposal justification presence")?;
    let justify: Option<Qc> = if present {
        Some(take_qc(decoder)?)
    } else {
        None
    };
    let signature: [u8; 64] = decoder.fixed::<64>("proposal signature")?;
    Ok(Proposal { round, proposer_index, tx, auth, intent, justify, signature })
}

// ---------------------------------------------------------------------------
// States.
// ---------------------------------------------------------------------------

/// A parser of references, as a value.
pub open spec fn ref_item() -> spec_fn(Seq<u8>) -> Parsed<CellRef> {
    |s: Seq<u8>| p_cell_ref(s)
}

/// The wire form of a reference, as a value.
pub open spec fn ref_wire() -> spec_fn(CellRef) -> Seq<u8> {
    |r: CellRef| model::ref_bytes(r)
}

/// The wire form of a receipt.
pub open spec fn receipt_wire() -> spec_fn(ReceiptModel) -> Seq<u8> {
    |r: ReceiptModel|
        r.intent@ + r.certificate_digest@ + bytes::le32(r.output_refs.len() as u32) + bytes::flat(
            r.output_refs,
            ref_wire(),
        )
}

/// The verdict on encoding a receipt.
pub open spec fn receipt_fits(r: ReceiptModel) -> Verdict {
    count_verdict(r.output_refs.len(), MAX_RECEIPT_OUTPUTS as nat, "receipt output refs"@)
}

pub open spec fn p_receipt(s: Seq<u8>) -> Parsed<ReceiptModel> {
    match p_fixed::<32>(s, "receipt intent"@) {
        Err(e) => Err(e),
        Ok((intent, s)) => match p_fixed::<32>(s, "receipt certificate digest"@) {
            Err(e) => Err(e),
            Ok((certificate_digest, s)) => match p_count(
                s,
                MAX_RECEIPT_OUTPUTS as nat,
                "receipt output refs"@,
            ) {
                Err(e) => Err(e),
                Ok((n, s)) => match p_list(
                    n,
                    s,
                    Seq::empty(),
                    ref_item(),
                    no_clash(),
                    Seq::empty(),
                ) {
                    Err(e) => Err(e),
                    Ok((output_refs, s)) => Ok(
                        (ReceiptModel { intent, certificate_digest, output_refs }, s),
                    ),
                },
            },
        },
    }
}

fn put_apply_receipt(encoder: &mut Encoder, receipt: &ApplyReceipt) -> (r: WireResult<()>)
    ensures
        text::shown(r) == receipt_fits(receipt@),
        r is Ok ==> final(encoder)@ == old(encoder)@ + receipt_wire()(receipt@),
{
    encoder.fixed(&receipt.intent);
    encoder.fixed(&receipt.certificate_digest);
    encoder.bounded_count(
        receipt.output_refs.len(),
        MAX_RECEIPT_OUTPUTS,
        "receipt output refs",
    )?;
    let ghost head = encoder@;
    let ghost refs = receipt.output_refs@;
    let mut i: usize = 0;
    proof {
        bytes::lemma_flat_ends(refs, ref_wire());
        bytes::lemma_concat_empty(head);
    }
    while i < receipt.output_refs.len()
        invariant
            i <= refs.len(),
            refs == receipt.output_refs@,
            encoder@ == head + bytes::flat(refs.subrange(0, i as int), ref_wire()),
        decreases refs.len() - i,
    {
        put_cell_ref(encoder, &receipt.output_refs[i]);
        proof {
            bytes::lemma_flat_step(refs, ref_wire(), i as int);
            bytes::lemma_concat_assoc(
                head,
                bytes::flat(refs.subrange(0, i as int), ref_wire()),
                ref_wire()(refs[i as int]),
            );
        }
        i = i + 1;
    }
    proof {
        bytes::lemma_flat_ends(refs, ref_wire());
        assert(encoder@ =~= old(encoder)@ + receipt_wire()(receipt@));
    }
    Ok(())
}

fn take_apply_receipt(decoder: &mut Decoder<'_>) -> (r: WireResult<ApplyReceipt>)
    ensures
        final(decoder).input() == old(decoder).input(),
        parsed_view(r, p_receipt(old(decoder).rest()), final(decoder).rest()),
{
    let intent: [u8; 32] = decoder.fixed::<32>("receipt intent")?;
    let certificate_digest: [u8; 32] = decoder.fixed::<32>("receipt certificate digest")?;
    let count: usize = decoder.bounded_count(MAX_RECEIPT_OUTPUTS, "receipt output refs")?;
    let mut output_refs: Vec<CellRef> = Vec::with_capacity(count);
    let mut i: usize = 0;
    let ghost start = decoder.rest();
    while i < count
        invariant
            i <= count,
            decoder.input() == old(decoder).input(),
            p_list(
                count as nat,
                start,
                Seq::empty(),
                ref_item(),
                no_clash(),
                Seq::empty(),
            ) == p_list(
                (count - i) as nat,
                decoder.rest(),
                output_refs@,
                ref_item(),
                no_clash(),
                Seq::empty(),
            ),
            p_receipt(old(decoder).rest()) == (match p_list(
                count as nat,
                start,
                Seq::empty(),
                ref_item(),
                no_clash(),
                Seq::empty(),
            ) {
                Err(e) => Err(e),
                Ok((output_refs, s)) => Ok(
                    (ReceiptModel { intent, certificate_digest, output_refs }, s),
                ),
            }),
        decreases count - i,
    {
        output_refs.push(take_cell_ref(decoder)?);
        i = i + 1;
    }
    Ok(ApplyReceipt { intent, certificate_digest, output_refs })
}

/// No two entries have one key.
pub open spec fn distinct_keys<K, V>(s: Seq<(K, V)>) -> bool {
    forall|i: int, j: int| 0 <= i < j < s.len() ==> (#[trigger] s[i]).0 != (#[trigger] s[j]).0
}

/// An entry with a key that an earlier entry has.
pub open spec fn key_clash<K, V>() -> spec_fn(Seq<(K, V)>, (K, V)) -> bool {
    |acc: Seq<(K, V)>, x: (K, V)| ordmap::has_entry(acc, x.0)
}

/// An identifier that occurred before.
pub open spec fn member_clash<K>() -> spec_fn(Seq<K>, K) -> bool {
    |acc: Seq<K>, x: K| acc.contains(x)
}

proof fn lemma_map_of_push<K, V>(s: Seq<(K, V)>, e: (K, V))
    requires
        distinct_keys(s),
        !ordmap::has_entry(s, e.0),
    ensures
        distinct_keys(s.push(e)),
        ordmap::map_of(s.push(e)) == ordmap::map_of(s).insert(e.0, e.1),
{
    let t = s.push(e);
    assert forall|i: int, j: int| 0 <= i < j < t.len() implies (#[trigger] t[i]).0 != (
    #[trigger] t[j]).0 by {
        if j == s.len() {
            assert(s[i] == t[i]);
        } else {
            assert(s[i].0 != s[j].0);
        }
    }
    assert(t[s.len() as int] == e);
    assert forall|k: K| ordmap::map_of(t).contains_key(k) == #[trigger] ordmap::map_of(s).insert(
        e.0,
        e.1,
    ).contains_key(k) by {
        if ordmap::has_entry(s, k) {
            let i = ordmap::entry_index(s, k);
            assert(t[i] == s[i]);
        }
        if ordmap::has_entry(t, k) {
            let i = ordmap::entry_index(t, k);
            if i < s.len() {
                assert(t[i] == s[i]);
            }
        }
    }
    assert forall|k: K| ordmap::map_of(t).contains_key(k) implies #[trigger] ordmap::map_of(t)[k] == ordmap::map_of(
        s,
    ).insert(e.0, e.1)[k] by {
        let i = ordmap::entry_index(t, k);
        if i < s.len() {
            assert(t[i] == s[i]);
            assert(ordmap::has_entry(s, k));
            let j = ordmap::entry_index(s, k);
            if i < j {
                assert(s[i].0 != s[j].0);
            } else if j < i {
                assert(s[j].0 != s[i].0);
            }
            assert(k != e.0);
        }
    }
    assert(ordmap::map_of(t) =~= ordmap::map_of(s).insert(e.0, e.1));
}

/// A live entry: a cell under its own reference.
pub open spec fn live_item() -> spec_fn(Seq<u8>) -> Parsed<(CellRef, Cell)> {
    |s: Seq<u8>|
        match p_cell(s) {
            Err(e) => Err(e),
            Ok((cell, s)) => Ok(((cell.reference, cell), s)),
        }
}

/// A spent entry: a reference and the intent that spent it.
pub open spec fn spent_item() -> spec_fn(Seq<u8>) -> Parsed<(CellRef, Digest)> {
    |s: Seq<u8>|
        match p_cell_ref(s) {
            Err(e) => Err(e),
            Ok((reference, s)) => match p_fixed::<32>(s, "spent-by intent"@) {
                Err(e) => Err(e),
                Ok((intent, s)) => Ok(((reference, intent), s)),
            },
        }
}

/// A known identifier.
pub open spec fn id_item() -> spec_fn(Seq<u8>) -> Parsed<Digest> {
    |s: Seq<u8>| p_fixed::<32>(s, "known cell id"@)
}

/// A receipt under its intent.
pub open spec fn applied_item() -> spec_fn(Seq<u8>) -> Parsed<(Digest, ReceiptModel)> {
    |s: Seq<u8>|
        match p_receipt(s) {
            Err(e) => Err(e),
            Ok((receipt, s)) => Ok(((receipt.intent, receipt), s)),
        }
}

/// The wire form of a live entry.
pub open spec fn live_wire() -> spec_fn((CellRef, Cell)) -> Seq<u8> {
    |e: (CellRef, Cell)| cell_wire(e.1)
}

/// The wire form of a spent entry.
pub open spec fn spent_wire() -> spec_fn((CellRef, Digest)) -> Seq<u8> {
    |e: (CellRef, Digest)| model::ref_bytes(e.0) + e.1@
}

/// The wire form of an identifier.
pub open spec fn id_wire() -> spec_fn(Digest) -> Seq<u8> {
    |d: Digest| d@
}

/// The wire form of a receipt under its intent.
pub open spec fn applied_wire() -> spec_fn((Digest, ReceiptModel)) -> Seq<u8> {
    |e: (Digest, ReceiptModel)| receipt_wire()(e.1)
}

/// The wire form of a list behind its length.
pub open spec fn counted<T>(s: Seq<T>, f: spec_fn(T) -> Seq<u8>) -> Seq<u8> {
    bytes::le32(s.len() as u32) + bytes::flat(s, f)
}

/// The wire form of a state.
pub open spec fn state_wire(s: StateModel) -> Seq<u8> {
    counted(ordmap::listed(s.live), live_wire()) + counted(ordmap::listed(s.spent_by), spent_wire()) + counted(
        ordmap::members(s.known_ids),
        id_wire(),
    ) + counted(ordmap::listed(s.applied), applied_wire())
}

/// The verdict on encoding the live entries from number `i` on.
pub open spec fn live_fits(entries: Seq<(CellRef, Cell)>, i: int) -> Verdict
    decreases entries.len() - i,
{
    if i < 0 || i >= entries.len() {
        Ok(())
    } else if entries[i].0 != entries[i].1.reference {
        Err("live-cell map key does not match embedded reference"@)
    } else {
        live_fits(entries, i + 1)
    }
}

/// The verdict on encoding the receipts from number `i` on.
pub open spec fn applied_fits(entries: Seq<(Digest, ReceiptModel)>, i: int) -> Verdict
    decreases entries.len() - i,
{
    if i < 0 || i >= entries.len() {
        Ok(())
    } else if entries[i].0 != entries[i].1.intent {
        Err("applied-receipt map key does not match embedded intent"@)
    } else {
        match receipt_fits(entries[i].1) {
            Err(e) => Err(e),
            Ok(_) => applied_fits(entries, i + 1),
        }
    }
}

/// One verdict, and where it accepts, the next.
pub open spec fn both(first: Verdict, second: Verdict) -> Verdict {
    match first {
        Err(e) => Err(e),
        Ok(_) => second,
    }
}

/// The verdict on encoding a state.
pub open spec fn state_fits(s: StateModel) -> Verdict {
    let max = MAX_COLLECTION_LEN as nat;
    both(
        count_verdict(ordmap::listed(s.live).len(), max, "live cells"@),
        both(
            live_fits(ordmap::listed(s.live), 0),
            both(
                count_verdict(ordmap::listed(s.spent_by).len(), max, "spent cells"@),
                both(
                    count_verdict(ordmap::members(s.known_ids).len(), max, "known cell ids"@),
                    both(
                        count_verdict(ordmap::listed(s.applied).len(), max, "applied receipts"@),
                        applied_fits(ordmap::listed(s.applied), 0),
                    ),
                ),
            ),
        ),
    )
}

/// A bounded list of entries.
pub open spec fn p_entries<T>(
    s: Seq<u8>,
    label: Seq<char>,
    item: spec_fn(Seq<u8>) -> Parsed<T>,
    clash: spec_fn(Seq<T>, T) -> bool,
    message: Seq<char>,
) -> Parsed<Seq<T>> {
    match p_count(s, MAX_COLLECTION_LEN as nat, label) {
        Err(e) => Err(e),
        Ok((n, s)) => p_list(n, s, Seq::empty(), item, clash, message),
    }
}

pub open spec fn p_live(s: Seq<u8>) -> Parsed<Seq<(CellRef, Cell)>> {
    p_entries(s, "live cells"@, live_item(), key_clash(), "duplicate live cell reference"@)
}

pub open spec fn p_spent(s: Seq<u8>) -> Parsed<Seq<(CellRef, Digest)>> {
    p_entries(s, "spent cells"@, spent_item(), key_clash(), "duplicate spent cell reference"@)
}

pub open spec fn p_known(s: Seq<u8>) -> Parsed<Seq<Digest>> {
    p_entries(s, "known cell ids"@, id_item(), member_clash(), "duplicate known cell id"@)
}

pub open spec fn p_applied(s: Seq<u8>) -> Parsed<Seq<(Digest, ReceiptModel)>> {
    p_entries(
        s,
        "applied receipts"@,
        applied_item(),
        key_clash(),
        "duplicate applied receipt intent"@,
    )
}

pub open spec fn p_state(s: Seq<u8>) -> Parsed<StateModel> {
    match p_live(s) {
        Err(e) => Err(e),
        Ok((live, s)) => match p_spent(s) {
            Err(e) => Err(e),
            Ok((spent, s)) => match p_known(s) {
                Err(e) => Err(e),
                Ok((known, s)) => match p_applied(s) {
                    Err(e) => Err(e),
                    Ok((applied, s)) => Ok(
                        (
                            StateModel {
                                live: ordmap::map_of(live),
                                spent_by: ordmap::map_of(spent),
                                known_ids: known.to_set(),
                                applied: ordmap::map_of(applied),
                            },
                            s,
                        ),
                    ),
                },
            },
        },
    }
}

fn put_live_cells(encoder: &mut Encoder, state: &State) -> (r: WireResult<()>)
    ensures
        text::shown(r) == both(
            count_verdict(
                ordmap::listed(state.live@).len(),
                MAX_COLLECTION_LEN as nat,
                "live cells"@,
            ),
            live_fits(ordmap::listed(state.live@), 0),
        ),
        r is Ok ==> final(encoder)@ == old(encoder)@ + counted(ordmap::listed(state.live@), live_wire()),
{
    let count: usize = state.live.len();
    encoder.count(count, "live cells")?;
    let ghost head = encoder@;
    let ghost entries = ordmap::listed(state.live@);
    let mut i: usize = 0;
    proof {
        bytes::lemma_flat_ends(entries, live_wire());
        bytes::lemma_concat_empty(head);
    }
    while i < count
        invariant
            i <= count,
            count == entries.len(),
            entries == ordmap::listed(state.live@),
            live_fits(entries, 0) == live_fits(entries, i as int),
            count <= MAX_COLLECTION_LEN,
            encoder@ == head + bytes::flat(entries.subrange(0, i as int), live_wire()),
        decreases count - i,
    {
        let reference: CellRef = state.live.key_at(i);
        let cell: Cell = *state.live.value_at(i);
        if !reference.same(&cell.reference) {
            return Err(text("live-cell map key does not match embedded reference"));
        }
        put_cell(encoder, &cell);
        proof {
            bytes::lemma_flat_step(entries, live_wire(), i as int);
            bytes::lemma_concat_assoc(
                head,
                bytes::flat(entries.subrange(0, i as int), live_wire()),
                live_wire()(entries[i as int]),
            );
        }
        i = i + 1;
    }
    proof {
        bytes::lemma_flat_ends(entries, live_wire());
        assert(encoder@ =~= old(encoder)@ + counted(entries, live_wire()));
    }
    Ok(())
}

fn put_spent_cells(encoder: &mut Encoder, state: &State) -> (r: WireResult<()>)
    ensures
        text::shown(r) == count_verdict(
            ordmap::listed(state.spent_by@).len(),
            MAX_COLLECTION_LEN as nat,
            "spent cells"@,
        ),
        r is Ok ==> final(encoder)@ == old(encoder)@ + counted(
            ordmap::listed(state.spent_by@),
            spent_wire(),
        ),
{
    let count: usize = state.spent_by.len();
    encoder.count(count, "spent cells")?;
    let ghost head = encoder@;
    let ghost entries = ordmap::listed(state.spent_by@);
    let mut i: usize = 0;
    proof {
        bytes::lemma_flat_ends(entries, spent_wire());
        bytes::lemma_concat_empty(head);
    }
    while i < count
        invariant
            i <= count,
            count == entries.len(),
            entries == ordmap::listed(state.spent_by@),
            encoder@ == head + bytes::flat(entries.subrange(0, i as int), spent_wire()),
        decreases count - i,
    {
        let reference: CellRef = state.spent_by.key_at(i);
        let intent: Digest = *state.spent_by.value_at(i);
        let ghost before = encoder@;
        put_cell_ref(encoder, &reference);
        encoder.fixed(&intent);
        proof {
            bytes::lemma_flat_step(entries, spent_wire(), i as int);
            assert(encoder@ =~= before + spent_wire()(entries[i as int]));
            bytes::lemma_concat_assoc(
                head,
                bytes::flat(entries.subrange(0, i as int), spent_wire()),
                spent_wire()(entries[i as int]),
            );
        }
        i = i + 1;
    }
    proof {
        bytes::lemma_flat_ends(entries, spent_wire());
        assert(encoder@ =~= old(encoder)@ + counted(entries, spent_wire()));
    }
    Ok(())
}

fn put_known_ids(encoder: &mut Encoder, state: &State) -> (r: WireResult<()>)
    ensures
        text::shown(r) == count_verdict(
            ordmap::members(state.known_ids@).len(),
            MAX_COLLECTION_LEN as nat,
            "known cell ids"@,
        ),
        r is Ok ==> final(encoder)@ == old(encoder)@ + counted(
            ordmap::members(state.known_ids@),
            id_wire(),
        ),
{
    let count: usize = state.known_ids.len();
    encoder.count(count, "known cell ids")?;
    let ghost head = encoder@;
    let ghost ids = ordmap::members(state.known_ids@);
    let mut i: usize = 0;
    proof {
        bytes::lemma_flat_ends(ids, id_wire());
        bytes::lemma_concat_empty(head);
    }
    while i < count
        invariant
            i <= count,
            count == ids.len(),
            ids == ordmap::members(state.known_ids@),
            encoder@ == head + bytes::flat(ids.subrange(0, i as int), id_wire()),
        decreases count - i,
    {
        let id: Digest = state.known_ids.at(i);
        encoder.fixed(&id);
        proof {
            bytes::lemma_flat_step(ids, id_wire(), i as int);
            bytes::lemma_concat_assoc(
                head,
                bytes::flat(ids.subrange(0, i as int), id_wire()),
                id_wire()(ids[i as int]),
            );
        }
        i = i + 1;
    }
    proof {
        bytes::lemma_flat_ends(ids, id_wire());
        assert(encoder@ =~= old(encoder)@ + counted(ids, id_wire()));
    }
    Ok(())
}

fn put_receipts(encoder: &mut Encoder, state: &State) -> (r: WireResult<()>)
    ensures
        text::shown(r) == both(
            count_verdict(
                ordmap::listed(state.applied@).len(),
                MAX_COLLECTION_LEN as nat,
                "applied receipts"@,
            ),
            applied_fits(ordmap::listed(state.applied@), 0),
        ),
        r is Ok ==> final(encoder)@ == old(encoder)@ + counted(
            ordmap::listed(state.applied@),
            applied_wire(),
        ),
{
    let count: usize = state.applied.len();
    encoder.count(count, "applied receipts")?;
    let ghost head = encoder@;
    let ghost entries = ordmap::listed(state.applied@);
    let mut i: usize = 0;
    proof {
        bytes::lemma_flat_ends(entries, applied_wire());
        bytes::lemma_concat_empty(head);
    }
    while i < count
        invariant
            i <= count,
            count == entries.len(),
            entries == ordmap::listed(state.applied@),
            applied_fits(entries, 0) == applied_fits(entries, i as int),
            count <= MAX_COLLECTION_LEN,
            encoder@ == head + bytes::flat(entries.subrange(0, i as int), applied_wire()),
        decreases count - i,
    {
        let intent: Digest = state.applied.key_at(i);
        let receipt: &ApplyReceipt = state.applied.value_at(i);
        if !intent.same(&receipt.intent) {
            return Err(text("applied-receipt map key does not match embedded intent"));
        }
        assert(receipt@ == entries[i as int].1);
        put_apply_receipt(encoder, receipt)?;
        proof {
            bytes::lemma_flat_step(entries, applied_wire(), i as int);
            bytes::lemma_concat_assoc(
                head,
                bytes::flat(entries.subrange(0, i as int), applied_wire()),
                applied_wire()(entries[i as int]),
            );
        }
        i = i + 1;
    }
    proof {
        bytes::lemma_flat_ends(entries, applied_wire());
        assert(encoder@ =~= old(encoder)@ + counted(entries, applied_wire()));
    }
    Ok(())
}

fn put_state(encoder: &mut Encoder, state: &State) -> (r: WireResult<()>)
    ensures
        text::shown(r) == state_fits(state@),
        r is Ok ==> final(encoder)@ == old(encoder)@ + state_wire(state@),
{
    put_live_cells(encoder, state)?;
    put_spent_cells(encoder, state)?;
    put_known_ids(encoder, state)?;
    put_receipts(encoder, state)?;
    assert(encoder@ =~= old(encoder)@ + state_wire(state@));
    Ok(())
}

fn take_live_cells(decoder: &mut Decoder<'_>) -> (r: WireResult<OrdMap<CellRef, Cell>>)
    ensures
        final(decoder).input() == old(decoder).input(),
        match p_live(old(decoder).rest()) {
            Ok((v, after)) => r is Ok && r->Ok_0@ == ordmap::map_of(v) && final(decoder).rest() == after,
            Err(e) => r is Err && r->Err_0@ == e,
        },
{
    let count: usize = decoder.count("live cells")?;
    let mut live: OrdMap<CellRef, Cell> = OrdMap::new();
    let mut i: usize = 0;
    let ghost mut acc: Seq<(CellRef, Cell)> = Seq::empty();
    assert(live@ =~= ordmap::map_of(acc));
    while i < count
        invariant
            i <= count,
            decoder.input() == old(decoder).input(),
            live@ == ordmap::map_of(acc),
            distinct_keys(acc),
            p_live(old(decoder).rest()) == p_list(
                (count - i) as nat,
                decoder.rest(),
                acc,
                live_item(),
                key_clash(),
                "duplicate live cell reference"@,
            ),
        decreases count - i,
    {
        let cell: Cell = take_cell(decoder)?;
        let ghost entry = (cell.reference, cell);
        assert(ordmap::has_entry(acc, cell.reference) == live@.contains_key(cell.reference));
        if live.insert(cell.reference, cell).is_some() {
            return Err(text("duplicate live cell reference"));
        }
        proof {
            lemma_map_of_push(acc, entry);
            acc = acc.push(entry);
        }
        i = i + 1;
    }
    Ok(live)
}

fn take_spent_cells(decoder: &mut Decoder<'_>) -> (r: WireResult<OrdMap<CellRef, Digest>>)
    ensures
        final(decoder).input() == old(decoder).input(),
        match p_spent(old(decoder).rest()) {
            Ok((v, after)) => r is Ok && r->Ok_0@ == ordmap::map_of(v) && final(decoder).rest() == after,
            Err(e) => r is Err && r->Err_0@ == e,
        },
{
    let count: usize = decoder.count("spent cells")?;
    let mut spent_by: OrdMap<CellRef, Digest> = OrdMap::new();
    let mut i: usize = 0;
    let ghost mut acc: Seq<(CellRef, Digest)> = Seq::empty();
    assert(spent_by@ =~= ordmap::map_of(acc));
    while i < count
        invariant
            i <= count,
            decoder.input() == old(decoder).input(),
            spent_by@ == ordmap::map_of(acc),
            distinct_keys(acc),
            p_spent(old(decoder).rest()) == p_list(
                (count - i) as nat,
                decoder.rest(),
                acc,
                spent_item(),
                key_clash(),
                "duplicate spent cell reference"@,
            ),
        decreases count - i,
    {
        let reference: CellRef = take_cell_ref(decoder)?;
        let intent: [u8; 32] = decoder.fixed::<32>("spent-by intent")?;
        let ghost entry = (reference, intent);
        assert(ordmap::has_entry(acc, reference) == spent_by@.contains_key(reference));
        if spent_by.insert(reference, intent).is_some() {
            return Err(text("duplicate spent cell reference"));
        }
        proof {
            lemma_map_of_push(acc, entry);
            acc = acc.push(entry);
        }
        i = i + 1;
    }
    Ok(spent_by)
}

fn take_known_ids(decoder: &mut Decoder<'_>) -> (r: WireResult<OrdSet<Digest>>)
    ensures
        final(decoder).input() == old(decoder).input(),
        match p_known(old(decoder).rest()) {
            Ok((v, after)) => r is Ok && r->Ok_0@ == v.to_set() && final(decoder).rest() == after,
            Err(e) => r is Err && r->Err_0@ == e,
        },
{
    let count: usize = decoder.count("known cell ids")?;
    let mut known_ids: OrdSet<Digest> = OrdSet::new();
    let mut i: usize = 0;
    let ghost mut acc: Seq<Digest> = Seq::empty();
    assert(known_ids@ =~= acc.to_set());
    while i < count
        invariant
            i <= count,
            decoder.input() == old(decoder).input(),
            known_ids@ == acc.to_set(),
            p_known(old(decoder).rest()) == p_list(
                (count - i) as nat,
                decoder.rest(),
                acc,
                id_item(),
                member_clash(),
                "duplicate known cell id"@,
            ),
        decreases count - i,
    {
        let id: [u8; 32] = decoder.fixed::<32>("known cell id")?;
        assert(acc.contains(id) == known_ids@.contains(id));
        if !known_ids.insert(id) {
            return Err(text("duplicate known cell id"));
        }
        proof {
            assert(acc.push(id).to_set() =~= acc.to_set().insert(id)) by {
                broadcast use vstd::seq_lib::group_seq_properties;

            }
            acc = acc.push(id);
        }
        i = i + 1;
    }
    Ok(known_ids)
}

fn take_receipts(decoder: &mut Decoder<'_>) -> (r: WireResult<OrdMap<Digest, ApplyReceipt>>)
    ensures
        final(decoder).input() == old(decoder).input(),
        match p_applied(old(decoder).rest()) {
            Ok((v, after)) => r is Ok && r->Ok_0@ == ordmap::map_of(v) && final(decoder).rest() == after,
            Err(e) => r is Err && r->Err_0@ == e,
        },
{
    let count: usize = decoder.count("applied receipts")?;
    let mut applied: OrdMap<Digest, ApplyReceipt> = OrdMap::new();
    let mut i: usize = 0;
    let ghost mut acc: Seq<(Digest, ReceiptModel)> = Seq::empty();
    assert(applied@ =~= ordmap::map_of(acc));
    while i < count
        invariant
            i <= count,
            decoder.input() == old(decoder).input(),
            applied@ == ordmap::map_of(acc),
            distinct_keys(acc),
            p_applied(old(decoder).rest()) == p_list(
                (count - i) as nat,
                decoder.rest(),
                acc,
                applied_item(),
                key_clash(),
                "duplicate applied receipt intent"@,
            ),
        decreases count - i,
    {
        let receipt: ApplyReceipt = take_apply_receipt(decoder)?;
        let intent: Digest = receipt.intent;
        let ghost entry = (intent, receipt@);
        assert(ordmap::has_entry(acc, intent) == applied@.contains_key(intent));
        if applied.insert(intent, receipt).is_some() {
            return Err(text("duplicate applied receipt intent"));
        }
        proof {
            lemma_map_of_push(acc, entry);
            acc = acc.push(entry);
        }
        i = i + 1;
    }
    Ok(applied)
}

fn take_state(decoder: &mut Decoder<'_>) -> (r: WireResult<State>)
    ensures
        final(decoder).input() == old(decoder).input(),
        parsed_view(r, p_state(old(decoder).rest()), final(decoder).rest()),
{
    let live: OrdMap<CellRef, Cell> = take_live_cells(decoder)?;
    let spent_by: OrdMap<CellRef, Digest> = take_spent_cells(decoder)?;
    let known_ids: OrdSet<Digest> = take_known_ids(decoder)?;
    let applied: OrdMap<Digest, ApplyReceipt> = take_receipts(decoder)?;
    Ok(State { live, spent_by, known_ids, applied })
}

// ---------------------------------------------------------------------------
// Whole values.
// ---------------------------------------------------------------------------

proof fn lemma_empty_concat(s: Seq<u8>)
    ensures
        Seq::<u8>::empty() + s == s,
{
    assert(Seq::<u8>::empty() + s =~= s);
}

pub fn encode_committee_manifest(value: &CommitteeManifest) -> (r: WireResult<Vec<u8>>)
    ensures
        text::shown_view(r) == framed(manifest_fits(value@), manifest_wire(value@)),
{
    let mut encoder: Encoder = Encoder::new();
    put_committee_manifest(&mut encoder, value)?;
    proof {
        lemma_empty_concat(manifest_wire(value@));
    }
    encoder.finish()
}

pub fn decode_committee_manifest(bytes: &[u8]) -> (r: WireResult<CommitteeManifest>)
    ensures
        text::shown_view(r) == whole(p_manifest(bytes@), bytes@),
{
    let mut decoder: Decoder<'_> = Decoder::new(bytes)?;
    let value: CommitteeManifest = take_committee_manifest(&mut decoder)?;
    decoder.finish()?;
    Ok(value)
}

pub fn encode_cell_ref(value: &CellRef) -> (r: WireResult<Vec<u8>>)
    ensures
        text::shown_view(r) == framed(Ok(()), model::ref_bytes(*value)),
{
    let mut encoder: Encoder = Encoder::new();
    put_cell_ref(&mut encoder, value);
    proof {
        lemma_empty_concat(model::ref_bytes(*value));
    }
    encoder.finish()
}

pub fn decode_cell_ref(bytes: &[u8]) -> (r: WireResult<CellRef>)
    ensures
        text::shown(r) == whole(p_cell_ref(bytes@), bytes@),
{
    let mut decoder: Decoder<'_> = Decoder::new(bytes)?;
    let value: CellRef = take_cell_ref(&mut decoder)?;
    decoder.finish()?;
    Ok(value)
}

pub fn encode_cell(value: &Cell) -> (r: WireResult<Vec<u8>>)
    ensures
        text::shown_view(r) == framed(Ok(()), cell_wire(*value)),
{
    let mut encoder: Encoder = Encoder::new();
    put_cell(&mut encoder, value);
    proof {
        lemma_empty_concat(cell_wire(*value));
    }
    encoder.finish()
}

pub fn decode_cell(bytes: &[u8]) -> (r: WireResult<Cell>)
    ensures
        text::shown(r) == whole(p_cell(bytes@), bytes@),
{
    let mut decoder: Decoder<'_> = Decoder::new(bytes)?;
    let value: Cell = take_cell(&mut decoder)?;
    decoder.finish()?;
    Ok(value)
}

pub fn encode_tx(value: &Tx) -> (r: WireResult<Vec<u8>>)
    ensures
        text::shown_view(r) == framed(tx_fits(value@), tx_wire(value@)),
{
    let mut encoder: Encoder = Encoder::new();
    put_tx(&mut encoder, value)?;
    proof {
        lemma_empty_concat(tx_wire(value@));
    }
    encoder.finish()
}

pub fn decode_tx(bytes: &[u8]) -> (r: WireResult<Tx>)
    ensures
        text::shown_view(r) == whole(p_tx(bytes@), bytes@),
{
    let mut decoder: Decoder<'_> = Decoder::new(bytes)?;
    let value: Tx = take_tx(&mut decoder)?;
    decoder.finish()?;
    Ok(value)
}

pub fn encode_user_auth(value: &UserAuth) -> (r: WireResult<Vec<u8>>)
    ensures
        text::shown_view(r) == framed(Ok(()), auth_wire(*value)),
{
    let mut encoder: Encoder = Encoder::new();
    put_user_auth(&mut encoder, value);
    proof {
        lemma_empty_concat(auth_wire(*value));
    }
    encoder.finish()
}

pub fn decode_user_auth(bytes: &[u8]) -> (r: WireResult<UserAuth>)
    ensures
        text::shown(r) == whole(p_auth(bytes@), bytes@),
{
    let mut decoder: Decoder<'_> = Decoder::new(bytes)?;
    let value: UserAuth = take_user_auth(&mut decoder)?;
    decoder.finish()?;
    Ok(value)
}

pub fn encode_vote(value: &Vote) -> (r: WireResult<Vec<u8>>)
    ensures
        text::shown_view(r) == framed(phase_verdict(value.phase), vote_wire()(*value)),
{
    let mut encoder: Encoder = Encoder::new();
    put_vote(&mut encoder, value)?;
    proof {
        lemma_empty_concat(vote_wire()(*value));
    }
    encoder.finish()
}

pub fn decode_vote(bytes: &[u8]) -> (r: WireResult<Vote>)
    ensures
        text::shown(r) == whole(p_vote(bytes@), bytes@),
{
    let mut decoder: Decoder<'_> = Decoder::new(bytes)?;
    let value: Vote = take_vote(&mut decoder)?;
    decoder.finish()?;
    Ok(value)
}

pub fn encode_qc(value: &Qc) -> (r: WireResult<Vec<u8>>)
    ensures
        text::shown_view(r) == framed(qc_fits(value@), qc_wire(value@)),
{
    let mut encoder: Encoder = Encoder::new();
    put_qc(&mut encoder, value)?;
    proof {
        lemma_empty_concat(qc_wire(value@));
    }
    encoder.finish()
}

pub fn decode_qc(bytes: &[u8]) -> (r: WireResult<Qc>)
    ensures
        text::shown_view(r) == whole(p_qc(bytes@), bytes@),
{
    let mut decoder: Decoder<'_> = Decoder::new(bytes)?;
    let value: Qc = take_qc(&mut decoder)?;
    decoder.finish()?;
    Ok(value)
}

pub fn encode_proposal(value: &Proposal) -> (r: WireResult<Vec<u8>>)
    ensures
        text::shown_view(r) == framed(proposal_fits(value@), proposal_wire(value@)),
{
    let mut encoder: Encoder = Encoder::new();
    put_proposal(&mut encoder, value)?;
    proof {
        lemma_empty_concat(proposal_wire(value@));
    }
    encoder.finish()
}

pub fn decode_proposal(bytes: &[u8]) -> (r: WireResult<Proposal>)
    ensures
        text::shown_view(r) == whole(p_proposal(bytes@), bytes@),
{
    let mut decoder: Decoder<'_> = Decoder::new(bytes)?;
    let value: Proposal = take_proposal(&mut decoder)?;
    decoder.finish()?;
    Ok(value)
}

pub fn encode_state(value: &State) -> (r: WireResult<Vec<u8>>)
    ensures
        text::shown_view(r) == framed(state_fits(value@), state_wire(value@)),
{
    let mut encoder: Encoder = Encoder::new();
    put_state(&mut encoder, value)?;
    proof {
        lemma_empty_concat(state_wire(value@));
    }
    encoder.finish()
}

pub fn decode_state(bytes: &[u8]) -> (r: WireResult<State>)
    ensures
        text::shown_view(r) == whole(p_state(bytes@), bytes@),
{
    let mut decoder: Decoder<'_> = Decoder::new(bytes)?;
    let value: State = take_state(&mut decoder)?;
    decoder.finish()?;
    Ok(value)
}

/// Whether the reference of the cell number `i` occurs before it; the verdict
/// on the cells of a snapshot from there on.
pub open spec fn snapshot_fits(cells: Seq<Cell>, i: int) -> Verdict
    decreases cells.len() - i,
{
    if i < 0 || i >= cells.len() {
        Ok(())
    } else if state::repeated_ref(cells, i) {
        Err("duplicate snapshot cell reference"@)
    } else {
        snapshot_fits(cells, i + 1)
    }
}

/// The wire form of a cell, as a value.
pub open spec fn cell_item_wire() -> spec_fn(Cell) -> Seq<u8> {
    |c: Cell| cell_wire(c)
}

/// A parser of cells, as a value.
pub open spec fn cell_item() -> spec_fn(Seq<u8>) -> Parsed<Cell> {
    |s: Seq<u8>| p_cell(s)
}

/// A cell with a reference that an earlier cell has.
pub open spec fn ref_clash() -> spec_fn(Seq<Cell>, Cell) -> bool {
    |acc: Seq<Cell>, x: Cell|
        exists|j: int| 0 <= j < acc.len() && (#[trigger] acc[j]).reference == x.reference
}

pub open spec fn p_snapshot(s: Seq<u8>) -> Parsed<Seq<Cell>> {
    p_entries(
        s,
        "snapshot cells"@,
        cell_item(),
        ref_clash(),
        "duplicate snapshot cell reference"@,
    )
}

proof fn lemma_refs_step(cells: Seq<Cell>, i: int, before: Set<CellRef>)
    requires
        0 <= i < cells.len(),
        forall|k: CellRef|
            before.contains(k) <==> exists|j: int|
                0 <= j < i && (#[trigger] cells[j]).reference == k,
    ensures
        forall|k: CellRef|
            before.insert(cells[i].reference).contains(k) <==> exists|j: int|
                0 <= j < i + 1 && (#[trigger] cells[j]).reference == k,
{
    let after = before.insert(cells[i].reference);
    assert forall|k: CellRef| after.contains(k) <==> exists|j: int|
        0 <= j < i + 1 && (#[trigger] cells[j]).reference == k by {
        if after.contains(k) {
            if k == cells[i].reference {
                assert(cells[i].reference == k);
            } else {
                let j = choose|j: int| 0 <= j < i && (#[trigger] cells[j]).reference == k;
                assert(0 <= j < i + 1 && cells[j].reference == k);
            }
        }
        if exists|j: int| 0 <= j < i + 1 && (#[trigger] cells[j]).reference == k {
            let j = choose|j: int| 0 <= j < i + 1 && (#[trigger] cells[j]).reference == k;
            if j < i {
                assert(before.contains(k));
            }
        }
    }
}

pub fn encode_state_snapshot(cells: &[Cell]) -> (r: WireResult<Vec<u8>>)
    ensures
        text::shown_view(r) == framed(
            both(
                count_verdict(cells@.len(), MAX_COLLECTION_LEN as nat, "snapshot cells"@),
                snapshot_fits(cells@, 0),
            ),
            counted(cells@, cell_item_wire()),
        ),
{
    let mut encoder: Encoder = Encoder::new();
    encoder.count(cells.len(), "snapshot cells")?;
    let ghost head = encoder@;
    let ghost all = cells@;
    let mut references: OrdSet<CellRef> = OrdSet::new();
    let mut i: usize = 0;
    proof {
        bytes::lemma_flat_ends(all, cell_item_wire());
        bytes::lemma_concat_empty(head);
        lemma_empty_concat(bytes::le32(all.len() as u32));
    }
    while i < cells.len()
        invariant
            i <= all.len(),
            all == cells@,
            all.len() <= MAX_COLLECTION_LEN,
            snapshot_fits(all, 0) == snapshot_fits(all, i as int),
            forall|k: CellRef|
                references@.contains(k) <==> exists|j: int|
                    0 <= j < i && (#[trigger] all[j]).reference == k,
            encoder@ == head + bytes::flat(all.subrange(0, i as int), cell_item_wire()),
        decreases all.len() - i,
    {
        let cell: Cell = cells[i];
        proof {
            lemma_refs_step(all, i as int, references@);
        }
        if !references.insert(cell.reference) {
            assert(state::repeated_ref(all, i as int));
            return Err(text("duplicate snapshot cell reference"));
        }
        put_cell(&mut encoder, &cell);
        proof {
            bytes::lemma_flat_step(all, cell_item_wire(), i as int);
            bytes::lemma_concat_assoc(
                head,
                bytes::flat(all.subrange(0, i as int), cell_item_wire()),
                cell_item_wire()(all[i as int]),
            );
        }
        i = i + 1;
    }
    proof {
        bytes::lemma_flat_ends(all, cell_item_wire());
    }
    encoder.finish()
}

pub fn decode_state_snapshot(bytes: &[u8]) -> (r: WireResult<Vec<Cell>>)
    ensures
        text::shown_view(r) == whole(p_snapshot(bytes@), bytes@),
{
    let mut decoder: Decoder<'_> = Decoder::new(bytes)?;
    let count: usize = decoder.count("snapshot cells")?;
    let mut cells: Vec<Cell> = Vec::with_capacity(count);
    let mut references: OrdSet<CellRef> = OrdSet::new();
    let mut i: usize = 0;
    while i < count
        invariant
            i <= count,
            bytes@.len() <= MAX_FRAME_LEN,
            decoder.input() == bytes@,
            forall|k: CellRef|
                references@.contains(k) <==> exists|j: int|
                    0 <= j < cells@.len() && (#[trigger] cells@[j]).reference == k,
            p_snapshot(bytes@) == p_list(
                (count - i) as nat,
                decoder.rest(),
                cells@,
                cell_item(),
                ref_clash(),
                "duplicate snapshot cell reference"@,
            ),
        decreases count - i,
    {
        let cell: Cell = take_cell(&mut decoder)?;
        let ghost before = cells@;
        let ghost seen = references@;
        if !references.insert(cell.reference) {
            assert(ref_clash()(before, cell));
            return Err(text("duplicate snapshot cell reference"));
        }
        assert(!ref_clash()(before, cell));
        cells.push(cell);
        proof {
            assert forall|k: CellRef| seen.contains(k) <==> exists|j: int|
                0 <= j < before.len() && (#[trigger] cells@[j]).reference == k by {
                if seen.contains(k) {
                    let j = choose|j: int|
                        0 <= j < before.len() && (#[trigger] before[j]).reference == k;
                    assert(cells@[j].reference == k);
                }
                if exists|j: int| 0 <= j < before.len() && (#[trigger] cells@[j]).reference == k {
                    let j = choose|j: int|
                        0 <= j < before.len() && (#[trigger] cells@[j]).reference == k;
                    assert(before[j].reference == k);
                }
            }
            lemma_refs_step(cells@, before.len() as int, seen);
            assert(references@ == seen.insert(cells@[before.len() as int].reference));
            assert(cells@.len() == before.len() as int + 1);
        }
        i = i + 1;
    }
    decoder.finish()?;
    Ok(cells)
}

// ---------------------------------------------------------------------------
// Requests and responses.
// ---------------------------------------------------------------------------

#[derive(Debug, PartialEq, Eq)]
pub enum Request {
    Ping,
    Prevote(Proposal),
    Precommit { proposal: Proposal, prevote_qc: Qc },
    Apply { tx: Tx, auth: UserAuth, prevote_qc: Qc, finality_qc: Qc },
    QueryState,
}

/// The mathematical content of a [`Request`].
pub enum RequestModel {
    Ping,
    Prevote(ProposalModel),
    Precommit(ProposalModel, Seq<Vote>),
    Apply(TxModel, UserAuth, Seq<Vote>, Seq<Vote>),
    QueryState,
}

impl View for Request {
    type V = RequestModel;

    open spec fn view(&self) -> RequestModel {
        match *self {
            Request::Ping => RequestModel::Ping,
            Request::Prevote(proposal) => RequestModel::Prevote(proposal@),
            Request::Precommit { proposal, prevote_qc } => RequestModel::Precommit(
                proposal@,
                prevote_qc@,
            ),
            Request::Apply { tx, auth, prevote_qc, finality_qc } => RequestModel::Apply(
                tx@,
                auth,
                prevote_qc@,
                finality_qc@,
            ),
            Request::QueryState => RequestModel::QueryState,
        }
    }
}

impl Clone for Request {
    fn clone(&self) -> (r: Self)
        ensures
            r@ == self@,
    {
        match self {
            Request::Ping => Request::Ping,
            Request::Prevote(proposal) => Request::Prevote(proposal.clone()),
            Request::Precommit { proposal, prevote_qc } => Request::Precommit {
                proposal: proposal.clone(),
                prevote_qc: prevote_qc.clone(),
            },
            Request::Apply { tx, auth, prevote_qc, finality_qc } => Request::Apply {
                tx: tx.clone(),
                auth: *auth,
                prevote_qc: prevote_qc.clone(),
                finality_qc: finality_qc.clone(),
            },
            Request::QueryState => Request::QueryState,
        }
    }
}

#[derive(Clone, Copy, Debug, PartialEq, Eq)]
pub enum Response {
    Pong { index: u8, epoch: u64, committee_hash: [u8; 32] },
    Vote(Vote),
    Applied { state_root: [u8; 32], idempotent: bool },
    State { state_root: [u8; 32], snapshot_bytes: u64, wal_bytes: u64, lifecycle: Lifecycle },
    Rejected { code: u16 },
}

const REQUEST_PING: u8 = 1;

const REQUEST_PREVOTE: u8 = 2;

const REQUEST_PRECOMMIT: u8 = 3;

const REQUEST_APPLY: u8 = 4;

const REQUEST_QUERY_STATE: u8 = 5;

const RESPONSE_PONG: u8 = 1;

const RESPONSE_VOTE: u8 = 2;

const RESPONSE_APPLIED: u8 = 3;

const RESPONSE_STATE: u8 = 4;

const RESPONSE_REJECTED: u8 = 6;

/// The wire form of a request.
pub open spec fn request_wire(r: RequestModel) -> Seq<u8> {
    match r {
        RequestModel::Ping => seq![1u8],
        RequestModel::Prevote(p) => seq![2u8] + proposal_wire(p),
        RequestModel::Precommit(p, qc) => seq![3u8] + proposal_wire(p) + qc_wire(qc),
        RequestModel::Apply(tx, auth, prevote, finality) => seq![4u8] + tx_wire(tx) + auth_wire(
            auth,
        ) + qc_wire(prevote) + qc_wire(finality),
        RequestModel::QueryState => seq![5u8],
    }
}

/// The verdict on encoding a request.
pub open spec fn request_fits(r: RequestModel) -> Verdict {
    match r {
        RequestModel::Ping => Ok(()),
        RequestModel::Prevote(p) => proposal_fits(p),
        RequestModel::Precommit(p, qc) => both(proposal_fits(p), qc_fits(qc)),
        RequestModel::Apply(tx, auth, prevote, finality) => both(
            tx_fits(tx),
            both(qc_fits(prevote), qc_fits(finality)),
        ),
        RequestModel::QueryState => Ok(()),
    }
}

pub open spec fn p_request(s: Seq<u8>) -> Parsed<RequestModel> {
    match p_u8(s, "request tag"@) {
        Err(e) => Err(e),
        Ok((tag, s)) => if tag == 1 {
            Ok((RequestModel::Ping, s))
        } else if tag == 2 {
            match p_proposal(s) {
                Err(e) => Err(e),
                Ok((p, s)) => Ok((RequestModel::Prevote(p), s)),
            }
        } else if tag == 3 {
            match p_proposal(s) {
                Err(e) => Err(e),
                Ok((p, s)) => match p_qc(s) {
                    Err(e) => Err(e),
                    Ok((qc, s)) => Ok((RequestModel::Precommit(p, qc), s)),
                },
            }
        } else if tag == 4 {
            match p_tx(s) {
                Err(e) => Err(e),
                Ok((tx, s)) => match p_auth(s) {
                    Err(e) => Err(e),
                    Ok((auth, s)) => match p_qc(s) {
                        Err(e) => Err(e),
                        Ok((prevote, s)) => match p_qc(s) {
                            Err(e) => Err(e),
                            Ok((finality, s)) => Ok(
                                (RequestModel::Apply(tx, auth, prevote, finality), s),
                            ),
                        },
                    },
                },
            }
        } else if tag == 5 {
            Ok((RequestModel::QueryState, s))
        } else {
            Err("invalid request tag "@ + text::dec(tag as nat))
        },
    }
}

pub fn encode_request(request: &Request) -> (r: WireResult<Vec<u8>>)
    ensures
        text::shown_view(r) == framed(request_fits(request@), request_wire(request@)),
{
    let mut encoder: Encoder = Encoder::new();
    match request {
        Request::Ping => {
            encoder.u8(REQUEST_PING);
        },
        Request::Prevote(proposal) => {
            encoder.u8(REQUEST_PREVOTE);
            put_proposal(&mut encoder, proposal)?;
        },
        Request::Precommit { proposal, prevote_qc } => {
            encoder.u8(REQUEST_PRECOMMIT);
            put_proposal(&mut encoder, proposal)?;
            put_qc(&mut encoder, prevote_qc)?;
        },
        Request::Apply { tx, auth, prevote_qc, finality_qc } => {
            encoder.u8(REQUEST_APPLY);
            put_tx(&mut encoder, tx)?;
            put_user_auth(&mut encoder, auth);
            put_qc(&mut encoder, prevote_qc)?;
            put_qc(&mut encoder, finality_qc)?;
        },
        Request::QueryState => {
            encoder.u8(REQUEST_QUERY_STATE);
        },
    }
    assert(encoder@ =~= request_wire(request@));
    encoder.finish()
}

fn take_request(decoder: &mut Decoder<'_>) -> (r: WireResult<Request>)
    ensures
        final(decoder).input() == old(decoder).input(),
        parsed_view(r, p_request(old(decoder).rest()), final(decoder).rest()),
{
    let tag: u8 = decoder.u8("request tag")?;
    if tag == REQUEST_PING {
        Ok(Request::Ping)
    } else if tag == REQUEST_PREVOTE {
        Ok(Request::Prevote(take_proposal(decoder)?))
    } else if tag == REQUEST_PRECOMMIT {
        let proposal: Proposal = take_proposal(decoder)?;
        let prevote_qc: Qc = take_qc(decoder)?;
        Ok(Request::Precommit { proposal, prevote_qc })
    } else if tag == REQUEST_APPLY {
        let tx: Tx = take_tx(decoder)?;
        let auth: UserAuth = take_user_auth(decoder)?;
        let prevote_qc: Qc = take_qc(decoder)?;
        let finality_qc: Qc = take_qc(decoder)?;
        Ok(Request::Apply { tx, auth, prevote_qc, finality_qc })
    } else if tag == REQUEST_QUERY_STATE {
        Ok(Request::QueryState)
    } else {
        let mut message: String = text("invalid request tag ");
        push_dec(&mut message, tag as u64);
        Err(message)
    }
}

pub fn decode_request(bytes: &[u8]) -> (r: WireResult<Request>)
    ensures
        text::shown_view(r) == whole(p_request(bytes@), bytes@),
{
    let mut decoder: Decoder<'_> = Decoder::new(bytes)?;
    let request: Request = take_request(&mut decoder)?;
    decoder.finish()?;
    Ok(request)
}

/// How a lifecycle is written.
pub open spec fn lifecycle_byte(l: Lifecycle) -> u8 {
    match l {
        Lifecycle::Initialized => 1,
        Lifecycle::Active => 2,
        Lifecycle::Retired => 3,
    }
}

pub open spec fn p_lifecycle(s: Seq<u8>) -> Parsed<Lifecycle> {
    match p_u8(s, "lifecycle"@) {
        Err(e) => Err(e),
        Ok((b, s)) => if b == 1 {
            Ok((Lifecycle::Initialized, s))
        } else if b == 2 {
            Ok((Lifecycle::Active, s))
        } else if b == 3 {
            Ok((Lifecycle::Retired, s))
        } else {
            Err("invalid lifecycle value "@ + text::dec(b as nat))
        },
    }
}

fn put_lifecycle(encoder: &mut Encoder, lifecycle: Lifecycle)
    ensures
        final(encoder)@ == old(encoder)@ + seq![lifecycle_byte(lifecycle)],
{
    encoder.u8(
        match lifecycle {
            Lifecycle::Initialized => 1,
            Lifecycle::Active => 2,
            Lifecycle::Retired => 3,
        },
    );
}

fn take_lifecycle(decoder: &mut Decoder<'_>) -> (r: WireResult<Lifecycle>)
    ensures
        final(decoder).input() == old(decoder).input(),
        parsed(r, p_lifecycle(old(decoder).rest()), final(decoder).rest()),
{
    let value: u8 = decoder.u8("lifecycle")?;
    if value == 1 {
        Ok(Lifecycle::Initialized)
    } else if value == 2 {
        Ok(Lifecycle::Active)
    } else if value == 3 {
        Ok(Lifecycle::Retired)
    } else {
        let mut message: String = text("invalid lifecycle value ");
        push_dec(&mut message, value as u64);
        Err(message)
    }
}

/// The wire form of a response.
pub open spec fn response_wire(r: Response) -> Seq<u8> {
    match r {
        Response::Pong { index, epoch, committee_hash } => seq![1u8] + seq![index] + bytes::le64(epoch)
            + committee_hash@,
        Response::Vote(vote) => seq![2u8] + vote_wire()(vote),
        Response::Applied { state_root, idempotent } => seq![3u8] + state_root@ + seq![
            bool_byte(idempotent),
        ],
        Response::State { state_root, snapshot_bytes, wal_bytes, lifecycle } => seq![4u8]
            + state_root@ + bytes::le64(snapshot_bytes) + bytes::le64(wal_bytes) + seq![
            lifecycle_byte(lifecycle),
        ],
        Response::Rejected { code } => seq![6u8] + bytes::le16(code),
    }
}

/// The verdict on encoding a response.
pub open spec fn response_fits(r: Response) -> Verdict {
    match r {
        Response::Vote(vote) => phase_verdict(vote.phase),
        _ => Ok(()),
    }
}

/// A parser that builds a response of a value.
pub open spec fn p_pong(s: Seq<u8>) -> Parsed<Response> {
    match p_u8(s, "validator index"@) {
        Err(e) => Err(e),
        Ok((index, s)) => match p_u64(s, "validator epoch"@) {
            Err(e) => Err(e),
            Ok((epoch, s)) => match p_fixed::<32>(s, "validator committee hash"@) {
                Err(e) => Err(e),
                Ok((committee_hash, s)) => Ok(
                    (Response::Pong { index, epoch, committee_hash }, s),
                ),
            },
        },
    }
}

pub open spec fn p_applied_response(s: Seq<u8>) -> Parsed<Response> {
    match p_fixed::<32>(s, "applied state root"@) {
        Err(e) => Err(e),
        Ok((state_root, s)) => match p_bool(s, "idempotent"@) {
            Err(e) => Err(e),
            Ok((idempotent, s)) => Ok((Response::Applied { state_root, idempotent }, s)),
        },
    }
}

pub open spec fn p_state_response(s: Seq<u8>) -> Parsed<Response> {
    match p_fixed::<32>(s, "state root"@) {
        Err(e) => Err(e),
        Ok((state_root, s)) => match p_u64(s, "snapshot byte count"@) {
            Err(e) => Err(e),
            Ok((snapshot_bytes, s)) => match p_u64(s, "WAL byte count"@) {
                Err(e) => Err(e),
                Ok((wal_bytes, s)) => match p_lifecycle(s) {
                    Err(e) => Err(e),
                    Ok((lifecycle, s)) => Ok(
                        (Response::State { state_root, snapshot_bytes, wal_bytes, lifecycle }, s),
                    ),
                },
            },
        },
    }
}

pub open spec fn p_response(s: Seq<u8>) -> Parsed<Response> {
    match p_u8(s, "response tag"@) {
        Err(e) => Err(e),
        Ok((tag, s)) => if tag == 1 {
            p_pong(s)
        } else if tag == 2 {
            match p_vote(s) {
                Err(e) => Err(e),
                Ok((vote, s)) => Ok((Response::Vote(vote), s)),
            }
        } else if tag == 3 {
            p_applied_response(s)
        } else if tag == 4 {
            p_state_response(s)
        } else if tag == 6 {
            match p_u16(s, "rejection code"@) {
                Err(e) => Err(e),
                Ok((code, s)) => Ok((Response::Rejected { code }, s)),
            }
        } else {
            Err("invalid response tag "@ + text::dec(tag as nat))
        },
    }
}

pub fn encode_response(response: &Response) -> (r: WireResult<Vec<u8>>)
    ensures
        text::shown_view(r) == framed(response_fits(*response), response_wire(*response)),
{
    let mut encoder: Encoder = Encoder::new();
    match response {
        Response::Pong { index, epoch, committee_hash } => {
            encoder.u8(RESPONSE_PONG);
            encoder.u8(*index);
            encoder.u64(*epoch);
            encoder.fixed(committee_hash);
        },
        Response::Vote(vote) => {
            encoder.u8(RESPONSE_VOTE);
            put_vote(&mut encoder, vote)?;
        },
        Response::Applied { state_root, idempotent } => {
            encoder.u8(RESPONSE_APPLIED);
            encoder.fixed(state_root);
            encoder.bool(*idempotent);
        },
        Response::State { state_root, snapshot_bytes, wal_bytes, lifecycle } => {
            encoder.u8(RESPONSE_STATE);
            encoder.fixed(state_root);
            encoder.u64(*snapshot_bytes);
            encoder.u64(*wal_bytes);
            put_lifecycle(&mut encoder, *lifecycle);
        },
        Response::Rejected { code } => {
            encoder.u8(RESPONSE_REJECTED);
            encoder.u16(*code);
        },
    }
    assert(encoder@ =~= response_wire(*response));
    encoder.finish()
}

fn take_response(decoder: &mut Decoder<'_>) -> (r: WireResult<Response>)
    ensures
        final(decoder).input() == old(decoder).input(),
        parsed(r, p_response(old(decoder).rest()), final(decoder).rest()),
{
    let tag: u8 = decoder.u8("response tag")?;
    if tag == RESPONSE_PONG {
        let index: u8 = decoder.u8("validator index")?;
        let epoch: u64 = decoder.u64("validator epoch")?;
        let committee_hash: [u8; 32] = decoder.fixed::<32>("validator committee hash")?;
        Ok(Response::Pong { index, epoch, committee_hash })
    } else if tag == RESPONSE_VOTE {
        Ok(Response::Vote(take_vote(decoder)?))
    } else if tag == RESPONSE_APPLIED {
        let state_root: [u8; 32] = decoder.fixed::<32>("applied state root")?;
        let idempotent: bool = decoder.bool("idempotent")?;
        Ok(Response::Applied { state_root, idempotent })
    } else if tag == RESPONSE_STATE {
        let state_root: [u8; 32] = decoder.fixed::<32>("state root")?;
        let snapshot_bytes: u64 = decoder.u64("snapshot byte count")?;
        let wal_bytes: u64 = decoder.u64("WAL byte count")?;
        let lifecycle: Lifecycle = take_lifecycle(decoder)?;
        Ok(Response::State { state_root, snapshot_bytes, wal_bytes, lifecycle })
    } else if tag == RESPONSE_REJECTED {
        Ok(Response::Rejected { code: decoder.u16("rejection code")? })
    } else {
        let mut message: String = text("invalid response tag ");
        push_dec(&mut message, tag as u64);
        Err(message)
    }
}

pub fn decode_response(bytes: &[u8]) -> (r: WireResult<Response>)
    ensures
        text::shown(r) == whole(p_response(bytes@), bytes@),
{
    let mut decoder: Decoder<'_> = Decoder::new(bytes)?;
    let response: Response = take_response(&mut decoder)?;
    decoder.finish()?;
    Ok(response)
}

} // verus!
