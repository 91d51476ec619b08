//! What is written is read back: the wire format loses nothing, and every value
//! has one wire form.
use crate::bytes;
use crate::model;
use crate::model::{
    Cell, CellRef, CommitteeMember, Digest, ManifestModel, Output, ProposalModel, ReceiptModel,
    StateModel, TxModel, UserAuth, Vote,
};
use crate::ordmap;
use crate::ordmap::Ordered;
use crate::state;
use crate::store::Lifecycle;
use crate::wire;
use crate::wire::{Parsed, RequestModel, Response, MAX_COLLECTION_LEN, MAX_FRAME_LEN, MAX_OUTPUTS};
use vstd::prelude::*;

verus! {

// ---------------------------------------------------------------------------
// Fields.
// ---------------------------------------------------------------------------

proof fn lemma_take_front(a: Seq<u8>, t: Seq<u8>, label: Seq<char>)
    ensures
        wire::p_take(a + t, a.len() as int, label) == Ok::<(Seq<u8>, Seq<u8>), Seq<char>>((a, t)),
{
    reveal(wire::p_take);
    assert((a + t).subrange(0, a.len() as int) =~= a);
    assert((a + t).subrange(a.len() as int, (a + t).len() as int) =~= t);
}

pub broadcast proof fn lemma_read_u8(x: u8, t: Seq<u8>, label: Seq<char>)
    ensures
        #[trigger] wire::p_u8(seq![x] + t, label) == Ok::<(u8, Seq<u8>), Seq<char>>((x, t)),
{
    lemma_take_front(seq![x], t, label);
}

pub broadcast proof fn lemma_read_bool(x: bool, t: Seq<u8>, label: Seq<char>)
    ensures
        #[trigger] wire::p_bool(seq![wire::bool_byte(x)] + t, label) == Ok::<(bool, Seq<u8>), Seq<char>>(
            (x, t),
        ),
{
    lemma_read_u8(wire::bool_byte(x), t, label);
}

pub broadcast proof fn lemma_read_u16(x: u16, t: Seq<u8>, label: Seq<char>)
    ensures
        #[trigger] wire::p_u16(bytes::le16(x) + t, label) == Ok::<(u16, Seq<u8>), Seq<char>>((x, t)),
{
    bytes::lemma_le16(x);
    lemma_take_front(bytes::le16(x), t, label);
}

pub broadcast proof fn lemma_read_u32(x: u32, t: Seq<u8>, label: Seq<char>)
    ensures
        #[trigger] wire::p_u32(bytes::le32(x) + t, label) == Ok::<(u32, Seq<u8>), Seq<char>>((x, t)),
{
    bytes::lemma_le32(x);
    lemma_take_front(bytes::le32(x), t, label);
}

pub broadcast proof fn lemma_read_u64(x: u64, t: Seq<u8>, label: Seq<char>)
    ensures
        #[trigger] wire::p_u64(bytes::le64(x) + t, label) == Ok::<(u64, Seq<u8>), Seq<char>>((x, t)),
{
    bytes::lemma_le64(x);
    lemma_take_front(bytes::le64(x), t, label);
}

pub broadcast proof fn lemma_read_fixed<const L: usize>(x: [u8; L], t: Seq<u8>, label: Seq<char>)
    ensures
        #[trigger] wire::p_fixed::<L>(x@ + t, label) == Ok::<([u8; L], Seq<u8>), Seq<char>>((x, t)),
{
    bytes::lemma_arr_of_view(x);
    lemma_take_front(x@, t, label);
}

pub broadcast proof fn lemma_read_count(n: nat, t: Seq<u8>, max: nat, label: Seq<char>)
    requires
        n <= max,
        max <= u32::MAX,
    ensures
        #[trigger] wire::p_count(bytes::le32(n as u32) + t, max, label) == Ok::<(nat, Seq<u8>), Seq<char>>(
            (n, t),
        ),
{
    lemma_read_u32(n as u32, t, label);
}

pub broadcast group group_fields {
    lemma_read_u8,
    lemma_read_bool,
    lemma_read_u16,
    lemma_read_u32,
    lemma_read_u64,
    lemma_read_fixed,
    lemma_read_count,
}

/// What a parser reads from the wire form of a value.
pub open spec fn reads_back<T>(item: spec_fn(Seq<u8>) -> Parsed<T>, form: Seq<u8>, x: T) -> bool {
    forall|t: Seq<u8>| #[trigger] item(form + t) == Ok::<(T, Seq<u8>), Seq<char>>((x, t))
}

pub proof fn lemma_read_list<T>(
    xs: Seq<T>,
    t: Seq<u8>,
    acc: Seq<T>,
    item: spec_fn(Seq<u8>) -> Parsed<T>,
    clash: spec_fn(Seq<T>, T) -> bool,
    message: Seq<char>,
    form: spec_fn(T) -> Seq<u8>,
)
    requires
        forall|i: int| 0 <= i < xs.len() ==> reads_back(item, form(#[trigger] xs[i]), xs[i]),
        forall|i: int|
            0 <= i < xs.len() ==> !clash(acc + xs.subrange(0, i), #[trigger] xs[i]),
    ensures
        wire::p_list(xs.len(), bytes::flat(xs, form) + t, acc, item, clash, message) == Ok::<
            (Seq<T>, Seq<u8>),
            Seq<char>,
        >((acc + xs, t)),
    decreases xs.len(),
{
    if xs.len() == 0 {
        assert(bytes::flat(xs, form) + t =~= t);
        assert(acc + xs =~= acc);
    } else {
        let x = xs[0];
        let rest = xs.subrange(1, xs.len() as int);
        bytes::lemma_flat_first(xs, form);
        bytes::lemma_concat_assoc(form(x), bytes::flat(rest, form), t);
        assert(reads_back(item, form(xs[0]), xs[0]));
        assert(item(form(x) + (bytes::flat(rest, form) + t)) == Ok::<(T, Seq<u8>), Seq<char>>(
            (x, bytes::flat(rest, form) + t),
        ));
        assert(acc + xs.subrange(0, 0) =~= acc);
        assert(!clash(acc, x));
        assert forall|i: int| 0 <= i < rest.len() implies reads_back(
            item,
            form(#[trigger] rest[i]),
            rest[i],
        ) by {
            assert(rest[i] == xs[i + 1]);
        }
        assert forall|i: int| 0 <= i < rest.len() implies !clash(
            acc.push(x) + rest.subrange(0, i),
            #[trigger] rest[i],
        ) by {
            assert(rest[i] == xs[i + 1]);
            assert(acc.push(x) + rest.subrange(0, i) =~= acc + xs.subrange(0, i + 1));
        }
        lemma_read_list(rest, t, acc.push(x), item, clash, message, form);
        assert(acc.push(x) + rest =~= acc + xs);
        assert((xs.len() - 1) as nat == rest.len());
    }
}

// ---------------------------------------------------------------------------
// Values without lists.
// ---------------------------------------------------------------------------

/// A reference is read back as it was written.
pub proof fn law_cell_ref_round_trip(r: CellRef, t: Seq<u8>)
    ensures
        wire::p_cell_ref(model::ref_bytes(r) + t) == Ok::<(CellRef, Seq<u8>), Seq<char>>((r, t)),
{
    broadcast use {group_fields, bytes::lemma_concat_assoc};

}

/// A cell is read back as it was written.
pub proof fn law_cell_round_trip(c: Cell, t: Seq<u8>)
    ensures
        wire::p_cell(wire::cell_wire(c) + t) == Ok::<(Cell, Seq<u8>), Seq<char>>((c, t)),
{
    bytes::lemma_concat_assoc(model::ref_bytes(c.reference) + bytes::le64(c.amount) + c.owner@ + c.predecessor@, c.state_digest@, t);
    let s4 = c.state_digest@ + t;
    bytes::lemma_concat_assoc(model::ref_bytes(c.reference) + bytes::le64(c.amount) + c.owner@, c.predecessor@, s4);
    let s3 = c.predecessor@ + s4;
    bytes::lemma_concat_assoc(model::ref_bytes(c.reference) + bytes::le64(c.amount), c.owner@, s3);
    let s2 = c.owner@ + s3;
    bytes::lemma_concat_assoc(model::ref_bytes(c.reference), bytes::le64(c.amount), s2);
    let s1 = bytes::le64(c.amount) + s2;
    law_cell_ref_round_trip(c.reference, s1);
    lemma_read_u64(c.amount, s2, "cell amount"@);
    lemma_read_fixed::<32>(c.owner, s3, "cell owner"@);
    lemma_read_fixed::<32>(c.predecessor, s4, "cell predecessor"@);
    lemma_read_fixed::<32>(c.state_digest, t, "cell state digest"@);
}

proof fn lemma_output_round_trip(o: Output, t: Seq<u8>)
    ensures
        wire::p_output(model::output_bytes()(o) + t) == Ok::<(Output, Seq<u8>), Seq<char>>((o, t)),
{
    broadcast use {group_fields, bytes::lemma_concat_assoc};

}

pub proof fn lemma_member_round_trip(m: CommitteeMember, t: Seq<u8>)
    ensures
        wire::p_member(model::member_bytes()(m) + t) == Ok::<(CommitteeMember, Seq<u8>), Seq<char>>((m, t)),
{
    broadcast use {group_fields, bytes::lemma_concat_assoc};

}

/// An authorization is read back as it was written.
pub proof fn law_user_auth_round_trip(a: UserAuth, t: Seq<u8>)
    ensures
        wire::p_auth(wire::auth_wire(a) + t) == Ok::<(UserAuth, Seq<u8>), Seq<char>>((a, t)),
{
    broadcast use {group_fields, bytes::lemma_concat_assoc};

}

proof fn lemma_vote_end(head: Vote, v: Vote, t: Seq<u8>)
    ensures
        wire::p_vote_end(head, seq![v.signer_index] + (v.signature@ + t)) == Ok::<
            (Vote, Seq<u8>),
            Seq<char>,
        >((Vote { signer_index: v.signer_index, signature: v.signature, ..head }, t)),
{
    lemma_read_u8(v.signer_index, v.signature@ + t, "vote signer index"@);
    lemma_read_fixed::<64>(v.signature, t, "vote signature"@);
}

proof fn lemma_vote_middle(head: Vote, v: Vote, t: Seq<u8>)
    ensures
        wire::p_vote_middle(
            head,
            bytes::le64(v.round) + (v.conflict_key@ + (v.intent@ + (v.justify@ + t))),
        ) == wire::p_vote_end(
            Vote {
                round: v.round,
                conflict_key: v.conflict_key,
                intent: v.intent,
                justify: v.justify,
                ..head
            },
            t,
        ),
{
    let s3 = v.justify@ + t;
    let s2 = v.intent@ + s3;
    let s1 = v.conflict_key@ + s2;
    lemma_read_u64(v.round, s1, "vote round"@);
    lemma_read_fixed::<32>(v.conflict_key, s2, "vote conflict key"@);
    lemma_read_fixed::<32>(v.intent, s3, "vote intent"@);
    lemma_read_fixed::<32>(v.justify, t, "vote justification"@);
}

pub proof fn lemma_vote_form(v: Vote, t: Seq<u8>)
    ensures
        wire::vote_wire()(v) + t == bytes::le32(v.network_id) + (bytes::le64(v.epoch) + (
        v.committee_hash@ + (seq![v.phase] + (bytes::le64(v.round) + (v.conflict_key@ + (v.intent@
            + (v.justify@ + (seq![v.signer_index] + (v.signature@ + t))))))))),
{
    bytes::lemma_concat_assoc(bytes::le32(v.network_id) + bytes::le64(v.epoch) + v.committee_hash@ + seq![v.phase] + bytes::le64(v.round) + v.conflict_key@ + v.intent@ + v.justify@ + seq![v.signer_index], v.signature@, t);
    let s9 = v.signature@ + t;
    bytes::lemma_concat_assoc(bytes::le32(v.network_id) + bytes::le64(v.epoch) + v.committee_hash@ + seq![v.phase] + bytes::le64(v.round) + v.conflict_key@ + v.intent@ + v.justify@, seq![v.signer_index], s9);
    let s8 = seq![v.signer_index] + s9;
    bytes::lemma_concat_assoc(bytes::le32(v.network_id) + bytes::le64(v.epoch) + v.committee_hash@ + seq![v.phase] + bytes::le64(v.round) + v.conflict_key@ + v.intent@, v.justify@, s8);
    let s7 = v.justify@ + s8;
    bytes::lemma_concat_assoc(bytes::le32(v.network_id) + bytes::le64(v.epoch) + v.committee_hash@ + seq![v.phase] + bytes::le64(v.round) + v.conflict_key@, v.intent@, s7);
    let s6 = v.intent@ + s7;
    bytes::lemma_concat_assoc(bytes::le32(v.network_id) + bytes::le64(v.epoch) + v.committee_hash@ + seq![v.phase] + bytes::le64(v.round), v.conflict_key@, s6);
    let s5 = v.conflict_key@ + s6;
    bytes::lemma_concat_assoc(bytes::le32(v.network_id) + bytes::le64(v.epoch) + v.committee_hash@ + seq![v.phase], bytes::le64(v.round), s5);
    let s4 = bytes::le64(v.round) + s5;
    bytes::lemma_concat_assoc(bytes::le32(v.network_id) + bytes::le64(v.epoch) + v.committee_hash@, seq![v.phase], s4);
    let s3 = seq![v.phase] + s4;
    bytes::lemma_concat_assoc(bytes::le32(v.network_id) + bytes::le64(v.epoch), v.committee_hash@, s3);
    let s2 = v.committee_hash@ + s3;
    bytes::lemma_concat_assoc(bytes::le32(v.network_id), bytes::le64(v.epoch), s2);
    let s1 = bytes::le64(v.epoch) + s2;
}

/// A vote in a known phase is read back as it was written.
#[verifier::rlimit(40)]
pub proof fn law_vote_round_trip(v: Vote, t: Seq<u8>)
    requires
        wire::phase_verdict(v.phase) is Ok,
    ensures
        wire::p_vote(wire::vote_wire()(v) + t) == Ok::<(Vote, Seq<u8>), Seq<char>>((v, t)),
{
    lemma_vote_form(v, t);
    let end = seq![v.signer_index] + (v.signature@ + t);
    let middle = bytes::le64(v.round) + (v.conflict_key@ + (v.intent@ + (v.justify@ + end)));
    let head = wire::vote_head(v.network_id, v.epoch, v.committee_hash, v.phase);
    lemma_vote_middle(head, v, end);
    lemma_vote_end(
        Vote {
            round: v.round,
            conflict_key: v.conflict_key,
            intent: v.intent,
            justify: v.justify,
            ..head
        },
        v,
        t,
    );
    let s3 = seq![v.phase] + middle;
    let s2 = v.committee_hash@ + s3;
    let s1 = bytes::le64(v.epoch) + s2;
    lemma_read_u32(v.network_id, s1, "vote network"@);
    lemma_read_u64(v.epoch, s2, "vote epoch"@);
    lemma_read_fixed::<32>(v.committee_hash, s3, "vote committee hash"@);
    lemma_read_u8(v.phase, middle, "vote phase"@);
    assert(wire::p_phase(s3) == Ok::<(u8, Seq<u8>), Seq<char>>((v.phase, middle)));
}

// ---------------------------------------------------------------------------
// Values with lists.
// ---------------------------------------------------------------------------

/// No two members have one index.
pub open spec fn distinct_indices(m: ManifestModel) -> bool {
    forall|i: int, j: int|
        0 <= i < j < m.members.len() ==> (#[trigger] m.members[i]).index != (
        #[trigger] m.members[j]).index
}

/// A committee with distinct indices is read back as it was written.
pub proof fn law_manifest_round_trip(m: ManifestModel, t: Seq<u8>)
    requires
        wire::manifest_fits(m) is Ok,
        distinct_indices(m),
    ensures
        wire::p_manifest(wire::manifest_wire(m) + t) == Ok::<(ManifestModel, Seq<u8>), Seq<char>>((m, t)),
{
    broadcast use {group_fields, bytes::lemma_concat_assoc};

    assert forall|i: int| 0 <= i < m.members.len() implies reads_back(
        wire::member_item(),
        model::member_bytes()(#[trigger] m.members[i]),
        m.members[i],
    ) by {
        assert forall|u: Seq<u8>| #[trigger]
            wire::member_item()(model::member_bytes()(m.members[i]) + u) == Ok::<
                (CommitteeMember, Seq<u8>),
                Seq<char>,
            >((m.members[i], u)) by {
            lemma_member_round_trip(m.members[i], u);
        }
    }
    assert forall|i: int| 0 <= i < m.members.len() implies !wire::index_clash()(
        Seq::<CommitteeMember>::empty() + m.members.subrange(0, i),
        #[trigger] m.members[i],
    ) by {
        let acc = Seq::<CommitteeMember>::empty() + m.members.subrange(0, i);
        if wire::index_clash()(acc, m.members[i]) {
            let j = choose|j: int|
                0 <= j < acc.len() && (#[trigger] acc[j]).index == m.members[i].index;
            assert(acc[j] == m.members[j]);
        }
    }
    lemma_read_list(
        m.members,
        t,
        Seq::empty(),
        wire::member_item(),
        wire::index_clash(),
        "duplicate committee member index"@,
        model::member_bytes(),
    );
    assert(Seq::<CommitteeMember>::empty() + m.members =~= m.members);
}

pub proof fn lemma_tx_form(tx: TxModel, t: Seq<u8>)
    ensures
        wire::tx_wire(tx) + t == bytes::le16(tx.version) + (bytes::le32(tx.network_id) + (
        bytes::le64(tx.epoch) + (tx.committee_hash@ + (wire::cell_wire(tx.input) + (bytes::le32(
            tx.outputs.len() as u32,
        ) + (bytes::flat(tx.outputs, model::output_bytes()) + (bytes::le64(tx.fee) + (tx.salt@
            + t)))))))),
{
    bytes::lemma_concat_assoc(bytes::le16(tx.version) + bytes::le32(tx.network_id) + bytes::le64(tx.epoch) + tx.committee_hash@ + model::ref_bytes(tx.input.reference) + bytes::le64(tx.input.amount) + tx.input.owner@ + tx.input.predecessor@ + tx.input.state_digest@ + bytes::le32(tx.outputs.len() as u32) + bytes::flat(tx.outputs, model::output_bytes()) + bytes::le64(tx.fee), tx.salt@, t);
    let s12 = tx.salt@ + t;
    bytes::lemma_concat_assoc(bytes::le16(tx.version) + bytes::le32(tx.network_id) + bytes::le64(tx.epoch) + tx.committee_hash@ + model::ref_bytes(tx.input.reference) + bytes::le64(tx.input.amount) + tx.input.owner@ + tx.input.predecessor@ + tx.input.state_digest@ + bytes::le32(tx.outputs.len() as u32) + bytes::flat(tx.outputs, model::output_bytes()), bytes::le64(tx.fee), s12);
    let s11 = bytes::le64(tx.fee) + s12;
    bytes::lemma_concat_assoc(bytes::le16(tx.version) + bytes::le32(tx.network_id) + bytes::le64(tx.epoch) + tx.committee_hash@ + model::ref_bytes(tx.input.reference) + bytes::le64(tx.input.amount) + tx.input.owner@ + tx.input.predecessor@ + tx.input.state_digest@ + bytes::le32(tx.outputs.len() as u32), bytes::flat(tx.outputs, model::output_bytes()), s11);
    let s10 = bytes::flat(tx.outputs, model::output_bytes()) + s11;
    bytes::lemma_concat_assoc(bytes::le16(tx.version) + bytes::le32(tx.network_id) + bytes::le64(tx.epoch) + tx.committee_hash@ + model::ref_bytes(tx.input.reference) + bytes::le64(tx.input.amount) + tx.input.owner@ + tx.input.predecessor@ + tx.input.state_digest@, bytes::le32(tx.outputs.len() as u32), s10);
    let s9 = bytes::le32(tx.outputs.len() as u32) + s10;
    bytes::lemma_concat_assoc(bytes::le16(tx.version) + bytes::le32(tx.network_id) + bytes::le64(tx.epoch) + tx.committee_hash@ + model::ref_bytes(tx.input.reference) + bytes::le64(tx.input.amount) + tx.input.owner@ + tx.input.predecessor@, tx.input.state_digest@, s9);
    let s8 = tx.input.state_digest@ + s9;
    bytes::lemma_concat_assoc(bytes::le16(tx.version) + bytes::le32(tx.network_id) + bytes::le64(tx.epoch) + tx.committee_hash@ + model::ref_bytes(tx.input.reference) + bytes::le64(tx.input.amount) + tx.input.owner@, tx.input.predecessor@, s8);
    let s7 = tx.input.predecessor@ + s8;
    bytes::lemma_concat_assoc(bytes::le16(tx.version) + bytes::le32(tx.network_id) + bytes::le64(tx.epoch) + tx.committee_hash@ + model::ref_bytes(tx.input.reference) + bytes::le64(tx.input.amount), tx.input.owner@, s7);
    let s6 = tx.input.owner@ + s7;
    bytes::lemma_concat_assoc(bytes::le16(tx.version) + bytes::le32(tx.network_id) + bytes::le64(tx.epoch) + tx.committee_hash@ + model::ref_bytes(tx.input.reference), bytes::le64(tx.input.amount), s6);
    let s5 = bytes::le64(tx.input.amount) + s6;
    bytes::lemma_concat_assoc(bytes::le16(tx.version) + bytes::le32(tx.network_id) + bytes::le64(tx.epoch) + tx.committee_hash@, model::ref_bytes(tx.input.reference), s5);
    let s4 = model::ref_bytes(tx.input.reference) + s5;
    bytes::lemma_concat_assoc(bytes::le16(tx.version) + bytes::le32(tx.network_id) + bytes::le64(tx.epoch), tx.committee_hash@, s4);
    let s3 = tx.committee_hash@ + s4;
    bytes::lemma_concat_assoc(bytes::le16(tx.version) + bytes::le32(tx.network_id), bytes::le64(tx.epoch), s3);
    let s2 = bytes::le64(tx.epoch) + s3;
    bytes::lemma_concat_assoc(bytes::le16(tx.version), bytes::le32(tx.network_id), s2);
    let s1 = bytes::le32(tx.network_id) + s2;
    bytes::lemma_concat_assoc(model::ref_bytes(tx.input.reference) + bytes::le64(tx.input.amount) + tx.input.owner@ + tx.input.predecessor@, tx.input.state_digest@, s9);
    bytes::lemma_concat_assoc(model::ref_bytes(tx.input.reference) + bytes::le64(tx.input.amount) + tx.input.owner@, tx.input.predecessor@, s8);
    bytes::lemma_concat_assoc(model::ref_bytes(tx.input.reference) + bytes::le64(tx.input.amount), tx.input.owner@, s7);
    bytes::lemma_concat_assoc(model::ref_bytes(tx.input.reference), bytes::le64(tx.input.amount), s6);
}

proof fn lemma_tx_outputs(head: TxModel, tx: TxModel, t: Seq<u8>)
    requires
        wire::tx_fits(tx) is Ok,
    ensures
        wire::p_tx_outputs(
            head,
            bytes::le32(tx.outputs.len() as u32) + (bytes::flat(tx.outputs, model::output_bytes())
                + t),
        ) == wire::p_tx_end(TxModel { outputs: tx.outputs, ..head }, t),
{
    assert forall|i: int| 0 <= i < tx.outputs.len() implies reads_back(
        wire::output_item(),
        model::output_bytes()(#[trigger] tx.outputs[i]),
        tx.outputs[i],
    ) by {
        assert forall|u: Seq<u8>| #[trigger]
            wire::output_item()(model::output_bytes()(tx.outputs[i]) + u) == Ok::<
                (Output, Seq<u8>),
                Seq<char>,
            >((tx.outputs[i], u)) by {
            lemma_output_round_trip(tx.outputs[i], u);
        }
    }
    lemma_read_list(
        tx.outputs,
        t,
        Seq::empty(),
        wire::output_item(),
        wire::no_clash(),
        Seq::empty(),
        model::output_bytes(),
    );
    assert(Seq::<Output>::empty() + tx.outputs =~= tx.outputs);
    let list = bytes::flat(tx.outputs, model::output_bytes()) + t;
    lemma_read_count(tx.outputs.len(), list, MAX_OUTPUTS as nat, "transaction outputs"@);
}

proof fn lemma_tx_end(head: TxModel, tx: TxModel, t: Seq<u8>)
    ensures
        wire::p_tx_end(head, bytes::le64(tx.fee) + (tx.salt@ + t)) == Ok::<
            (TxModel, Seq<u8>),
            Seq<char>,
        >((TxModel { fee: tx.fee, salt: tx.salt, ..head }, t)),
{
    lemma_read_u64(tx.fee, tx.salt@ + t, "transaction fee"@);
    lemma_read_fixed::<32>(tx.salt, t, "transaction salt"@);
}

/// A transaction with one to eight outputs is read back as it was written.
#[verifier::rlimit(40)]
pub proof fn law_tx_round_trip(tx: TxModel, t: Seq<u8>)
    requires
        wire::tx_fits(tx) is Ok,
    ensures
        wire::p_tx(wire::tx_wire(tx) + t) == Ok::<(TxModel, Seq<u8>), Seq<char>>((tx, t)),
{
    lemma_tx_form(tx, t);
    let end = bytes::le64(tx.fee) + (tx.salt@ + t);
    let list = bytes::le32(tx.outputs.len() as u32) + (bytes::flat(
        tx.outputs,
        model::output_bytes(),
    ) + end);
    let head = wire::tx_head(tx.version, tx.network_id, tx.epoch, tx.committee_hash, tx.input);
    lemma_tx_outputs(head, tx, end);
    lemma_tx_end(TxModel { outputs: tx.outputs, ..head }, tx, t);
    let s4 = wire::cell_wire(tx.input) + list;
    let s3 = tx.committee_hash@ + s4;
    let s2 = bytes::le64(tx.epoch) + s3;
    let s1 = bytes::le32(tx.network_id) + s2;
    lemma_read_u16(tx.version, s1, "transaction version"@);
    lemma_read_u32(tx.network_id, s2, "transaction network"@);
    lemma_read_u64(tx.epoch, s3, "transaction epoch"@);
    lemma_read_fixed::<32>(tx.committee_hash, s4, "transaction committee hash"@);
    law_cell_round_trip(tx.input, list);
}

pub proof fn lemma_phases(votes: Seq<Vote>, i: int)
    requires
        0 <= i <= votes.len(),
        wire::phases_verdict(votes, i) is Ok,
    ensures
        forall|k: int| i <= k < votes.len() ==> wire::phase_verdict((#[trigger] votes[k]).phase) is Ok,
    decreases votes.len() - i,
{
    if i < votes.len() {
        lemma_phases(votes, i + 1);
    }
}

/// A certificate with one to seven votes in known phases is read back as it was
/// written.
pub proof fn law_qc_round_trip(votes: Seq<Vote>, t: Seq<u8>)
    requires
        wire::qc_fits(votes) is Ok,
    ensures
        wire::p_qc(wire::qc_wire(votes) + t) == Ok::<(Seq<Vote>, Seq<u8>), Seq<char>>((votes, t)),
{
    broadcast use {group_fields, bytes::lemma_concat_assoc};

    lemma_phases(votes, 0);
    assert forall|i: int| 0 <= i < votes.len() implies reads_back(
        wire::vote_item(),
        wire::vote_wire()(#[trigger] votes[i]),
        votes[i],
    ) by {
        assert forall|u: Seq<u8>| #[trigger]
            wire::vote_item()(wire::vote_wire()(votes[i]) + u) == Ok::<(Vote, Seq<u8>), Seq<char>>(
                (votes[i], u),
            ) by {
            law_vote_round_trip(votes[i], u);
        }
    }
    lemma_read_list(
        votes,
        t,
        Seq::empty(),
        wire::vote_item(),
        wire::no_clash(),
        Seq::empty(),
        wire::vote_wire(),
    );
    assert(Seq::<Vote>::empty() + votes =~= votes);
}

proof fn lemma_justify_round_trip(justify: Option<Seq<Vote>>, t: Seq<u8>)
    requires
        justify is Some ==> wire::qc_fits(justify->Some_0) is Ok,
    ensures
        wire::p_justify(wire::justify_wire(justify) + t) == Ok::<(Option<Seq<Vote>>, Seq<u8>), Seq<char>>(
            (justify, t),
        ),
{
    broadcast use {group_fields, bytes::lemma_concat_assoc};

    match justify {
        Some(votes) => {
            law_qc_round_trip(votes, t);
            lemma_read_bool(
                true,
                wire::qc_wire(votes) + t,
                "proposal justification presence"@,
            );
        },
        None => {
            lemma_read_bool(false, t, "proposal justification presence"@);
        },
    }
}

/// A proposal whose transaction and certificate fit is read back as it was
/// written.
#[verifier::rlimit(60)]
pub proof fn law_proposal_round_trip(p: ProposalModel, t: Seq<u8>)
    requires
        wire::proposal_fits(p) is Ok,
    ensures
        wire::p_proposal(wire::proposal_wire(p) + t) == Ok::<(ProposalModel, Seq<u8>), Seq<char>>((p, t)),
{
    bytes::lemma_concat_assoc(bytes::le64(p.round) + seq![p.proposer_index] + wire::tx_wire(p.tx) + wire::auth_wire(p.auth) + p.intent@ + wire::justify_wire(p.justify), p.signature@, t);
    let s6 = p.signature@ + t;
    bytes::lemma_concat_assoc(bytes::le64(p.round) + seq![p.proposer_index] + wire::tx_wire(p.tx) + wire::auth_wire(p.auth) + p.intent@, wire::justify_wire(p.justify), s6);
    let s5 = wire::justify_wire(p.justify) + s6;
    bytes::lemma_concat_assoc(bytes::le64(p.round) + seq![p.proposer_index] + wire::tx_wire(p.tx) + wire::auth_wire(p.auth), p.intent@, s5);
    let s4 = p.intent@ + s5;
    bytes::lemma_concat_assoc(bytes::le64(p.round) + seq![p.proposer_index] + wire::tx_wire(p.tx), wire::auth_wire(p.auth), s4);
    let s3 = wire::auth_wire(p.auth) + s4;
    bytes::lemma_concat_assoc(bytes::le64(p.round) + seq![p.proposer_index], wire::tx_wire(p.tx), s3);
    let s2 = wire::tx_wire(p.tx) + s3;
    bytes::lemma_concat_assoc(bytes::le64(p.round), seq![p.proposer_index], s2);
    let s1 = seq![p.proposer_index] + s2;
    lemma_read_u64(p.round, s1, "proposal round"@);
    lemma_read_u8(p.proposer_index, s2, "proposal proposer index"@);
    law_tx_round_trip(p.tx, s3);
    law_user_auth_round_trip(p.auth, s4);
    lemma_read_fixed::<32>(p.intent, s5, "proposal intent"@);
    lemma_justify_round_trip(p.justify, s6);
    lemma_read_fixed::<64>(p.signature, t, "proposal signature"@);
}

// ---------------------------------------------------------------------------
// States.
// ---------------------------------------------------------------------------

pub proof fn lemma_receipt_round_trip(r: ReceiptModel, t: Seq<u8>)
    requires
        wire::receipt_fits(r) is Ok,
    ensures
        wire::p_receipt(wire::receipt_wire()(r) + t) == Ok::<(ReceiptModel, Seq<u8>), Seq<char>>((r, t)),
{
    broadcast use {group_fields, bytes::lemma_concat_assoc};

    assert forall|i: int| 0 <= i < r.output_refs.len() implies reads_back(
        wire::ref_item(),
        wire::ref_wire()(#[trigger] r.output_refs[i]),
        r.output_refs[i],
    ) by {
        assert forall|u: Seq<u8>| #[trigger]
            wire::ref_item()(wire::ref_wire()(r.output_refs[i]) + u) == Ok::<(CellRef, Seq<u8>), Seq<char>>(
                (r.output_refs[i], u),
            ) by {
            law_cell_ref_round_trip(r.output_refs[i], u);
        }
    }
    lemma_read_list(
        r.output_refs,
        t,
        Seq::empty(),
        wire::ref_item(),
        wire::no_clash(),
        Seq::empty(),
        wire::ref_wire(),
    );
    assert(Seq::<CellRef>::empty() + r.output_refs =~= r.output_refs);
}

proof fn lemma_no_key_clash<K: Ordered, V>(s: Seq<(K, V)>, i: int)
    requires
        ordmap::ascending(s),
        0 <= i < s.len(),
    ensures
        !wire::key_clash::<K, V>()(Seq::<(K, V)>::empty() + s.subrange(0, i), s[i]),
{
    let acc = Seq::<(K, V)>::empty() + s.subrange(0, i);
    if ordmap::has_entry(acc, s[i].0) {
        let j = ordmap::entry_index(acc, s[i].0);
        assert(acc[j] == s[j]);
        assert(s[j].0.lt(s[i].0));
        K::lt_irreflexive(s[i].0);
    }
}

proof fn lemma_live_fits(entries: Seq<(CellRef, Cell)>, i: int)
    requires
        0 <= i <= entries.len(),
        wire::live_fits(entries, i) is Ok,
    ensures
        forall|k: int|
            i <= k < entries.len() ==> (#[trigger] entries[k]).0 == entries[k].1.reference,
    decreases entries.len() - i,
{
    if i < entries.len() {
        lemma_live_fits(entries, i + 1);
    }
}

proof fn lemma_applied_fits(entries: Seq<(Digest, ReceiptModel)>, i: int)
    requires
        0 <= i <= entries.len(),
        wire::applied_fits(entries, i) is Ok,
    ensures
        forall|k: int|
            i <= k < entries.len() ==> (#[trigger] entries[k]).0 == entries[k].1.intent
                && wire::receipt_fits(entries[k].1) is Ok,
    decreases entries.len() - i,
{
    if i < entries.len() {
        lemma_applied_fits(entries, i + 1);
    }
}

proof fn lemma_live_round_trip(live: Map<CellRef, Cell>, t: Seq<u8>)
    requires
        live.dom().finite(),
        ordmap::listed(live).len() <= MAX_COLLECTION_LEN,
        wire::live_fits(ordmap::listed(live), 0) is Ok,
    ensures
        wire::p_live(wire::counted(ordmap::listed(live), wire::live_wire()) + t) == Ok::<
            (Seq<(CellRef, Cell)>, Seq<u8>),
            Seq<char>,
        >((ordmap::listed(live), t)),
{
    broadcast use {group_fields, bytes::lemma_concat_assoc};

    let s = ordmap::listed(live);
    ordmap::lemma_listed_finite(live);
    lemma_live_fits(s, 0);
    assert forall|i: int| 0 <= i < s.len() implies reads_back(
        wire::live_item(),
        wire::live_wire()(#[trigger] s[i]),
        s[i],
    ) by {
        assert forall|u: Seq<u8>| #[trigger]
            wire::live_item()(wire::live_wire()(s[i]) + u) == Ok::<((CellRef, Cell), Seq<u8>), Seq<char>>(
                (s[i], u),
            ) by {
            law_cell_round_trip(s[i].1, u);
        }
    }
    assert forall|i: int| 0 <= i < s.len() implies !wire::key_clash::<CellRef, Cell>()(
        Seq::<(CellRef, Cell)>::empty() + s.subrange(0, i),
        #[trigger] s[i],
    ) by {
        lemma_no_key_clash(s, i);
    }
    lemma_read_list(
        s,
        t,
        Seq::empty(),
        wire::live_item(),
        wire::key_clash(),
        "duplicate live cell reference"@,
        wire::live_wire(),
    );
    assert(Seq::<(CellRef, Cell)>::empty() + s =~= s);
}

proof fn lemma_spent_round_trip(spent: Map<CellRef, Digest>, t: Seq<u8>)
    requires
        spent.dom().finite(),
        ordmap::listed(spent).len() <= MAX_COLLECTION_LEN,
    ensures
        wire::p_spent(wire::counted(ordmap::listed(spent), wire::spent_wire()) + t) == Ok::<
            (Seq<(CellRef, Digest)>, Seq<u8>),
            Seq<char>,
        >((ordmap::listed(spent), t)),
{
    broadcast use {group_fields, bytes::lemma_concat_assoc};

    let s = ordmap::listed(spent);
    ordmap::lemma_listed_finite(spent);
    assert forall|i: int| 0 <= i < s.len() implies reads_back(
        wire::spent_item(),
        wire::spent_wire()(#[trigger] s[i]),
        s[i],
    ) by {
        assert forall|u: Seq<u8>| #[trigger]
            wire::spent_item()(wire::spent_wire()(s[i]) + u) == Ok::<((CellRef, Digest), Seq<u8>), Seq<char>>(
                (s[i], u),
            ) by {
            law_cell_ref_round_trip(s[i].0, s[i].1@ + u);
        }
    }
    assert forall|i: int| 0 <= i < s.len() implies !wire::key_clash::<CellRef, Digest>()(
        Seq::<(CellRef, Digest)>::empty() + s.subrange(0, i),
        #[trigger] s[i],
    ) by {
        lemma_no_key_clash(s, i);
    }
    lemma_read_list(
        s,
        t,
        Seq::empty(),
        wire::spent_item(),
        wire::key_clash(),
        "duplicate spent cell reference"@,
        wire::spent_wire(),
    );
    assert(Seq::<(CellRef, Digest)>::empty() + s =~= s);
}

/// The members of a finite set are listed without repetition, each once.
pub proof fn lemma_members_finite<K: Ordered>(s: Set<K>)
    requires
        s.finite(),
    ensures
        ordmap::members(s).to_set() == s,
        forall|i: int, j: int|
            0 <= i < j < ordmap::members(s).len() ==> (#[trigger] ordmap::members(s)[i]) != (
            #[trigger] ordmap::members(s)[j]),
{
    let m = Map::<K, ()>::new(|k: K| s.contains(k), |k: K| ());
    assert(m.dom() =~= s);
    ordmap::lemma_listed_finite(m);
    let l = ordmap::listed(m);
    let ms = ordmap::members(s);
    assert forall|k: K| ms.to_set().contains(k) <==> s.contains(k) by {
        if s.contains(k) {
            assert(ordmap::map_of(l).contains_key(k));
            let i = ordmap::entry_index(l, k);
            assert(ms[i] == k);
            assert(ms.contains(k));
        }
        if ms.contains(k) {
            let i = choose|i: int| 0 <= i < ms.len() && ms[i] == k;
            ordmap::lemma_ascending_index(l, i);
        }
    }
    assert(ms.to_set() =~= s);
    assert forall|i: int, j: int| 0 <= i < j < ms.len() implies (#[trigger] ms[i]) != (
    #[trigger] ms[j]) by {
        assert(l[i].0.lt(l[j].0));
        K::lt_irreflexive(l[i].0);
    }
}

proof fn lemma_known_round_trip(known: Set<Digest>, t: Seq<u8>)
    requires
        known.finite(),
        ordmap::members(known).len() <= MAX_COLLECTION_LEN,
    ensures
        wire::p_known(wire::counted(ordmap::members(known), wire::id_wire()) + t) == Ok::<
            (Seq<Digest>, Seq<u8>),
            Seq<char>,
        >((ordmap::members(known), t)),
{
    broadcast use {group_fields, bytes::lemma_concat_assoc};

    let s = ordmap::members(known);
    lemma_members_finite(known);
    assert forall|i: int| 0 <= i < s.len() implies reads_back(
        wire::id_item(),
        wire::id_wire()(#[trigger] s[i]),
        s[i],
    ) by {
        assert forall|u: Seq<u8>| #[trigger]
            wire::id_item()(wire::id_wire()(s[i]) + u) == Ok::<(Digest, Seq<u8>), Seq<char>>((s[i], u)) by {
            lemma_read_fixed::<32>(s[i], u, "known cell id"@);
        }
    }
    assert forall|i: int| 0 <= i < s.len() implies !wire::member_clash::<Digest>()(
        Seq::<Digest>::empty() + s.subrange(0, i),
        #[trigger] s[i],
    ) by {
        let acc = Seq::<Digest>::empty() + s.subrange(0, i);
        if acc.contains(s[i]) {
            let j = choose|j: int| 0 <= j < acc.len() && acc[j] == s[i];
            assert(acc[j] == s[j]);
        }
    }
    lemma_read_list(
        s,
        t,
        Seq::empty(),
        wire::id_item(),
        wire::member_clash(),
        "duplicate known cell id"@,
        wire::id_wire(),
    );
    assert(Seq::<Digest>::empty() + s =~= s);
}

proof fn lemma_applied_round_trip(applied: Map<Digest, ReceiptModel>, t: Seq<u8>)
    requires
        applied.dom().finite(),
        ordmap::listed(applied).len() <= MAX_COLLECTION_LEN,
        wire::applied_fits(ordmap::listed(applied), 0) is Ok,
    ensures
        wire::p_applied(wire::counted(ordmap::listed(applied), wire::applied_wire()) + t) == Ok::<
            (Seq<(Digest, ReceiptModel)>, Seq<u8>),
            Seq<char>,
        >((ordmap::listed(applied), t)),
{
    broadcast use {group_fields, bytes::lemma_concat_assoc};

    let s = ordmap::listed(applied);
    ordmap::lemma_listed_finite(applied);
    lemma_applied_fits(s, 0);
    assert forall|i: int| 0 <= i < s.len() implies reads_back(
        wire::applied_item(),
        wire::applied_wire()(#[trigger] s[i]),
        s[i],
    ) by {
        assert forall|u: Seq<u8>| #[trigger]
            wire::applied_item()(wire::applied_wire()(s[i]) + u) == Ok::<
                ((Digest, ReceiptModel), Seq<u8>),
                Seq<char>,
            >((s[i], u)) by {
            lemma_receipt_round_trip(s[i].1, u);
        }
    }
    assert forall|i: int| 0 <= i < s.len() implies !wire::key_clash::<Digest, ReceiptModel>()(
        Seq::<(Digest, ReceiptModel)>::empty() + s.subrange(0, i),
        #[trigger] s[i],
    ) by {
        lemma_no_key_clash(s, i);
    }
    lemma_read_list(
        s,
        t,
        Seq::empty(),
        wire::applied_item(),
        wire::key_clash(),
        "duplicate applied receipt intent"@,
        wire::applied_wire(),
    );
    assert(Seq::<(Digest, ReceiptModel)>::empty() + s =~= s);
}

/// A state that fits is read back as it was written.
pub proof fn law_state_round_trip(s: StateModel, t: Seq<u8>)
    requires
        state::state_finite(s),
        wire::state_fits(s) is Ok,
    ensures
        wire::p_state(wire::state_wire(s) + t) == Ok::<(StateModel, Seq<u8>), Seq<char>>((s, t)),
{
    let a = wire::counted(ordmap::listed(s.live), wire::live_wire());
    let b = wire::counted(ordmap::listed(s.spent_by), wire::spent_wire());
    let c = wire::counted(ordmap::members(s.known_ids), wire::id_wire());
    let d = wire::counted(ordmap::listed(s.applied), wire::applied_wire());
    bytes::lemma_concat_assoc(a + b + c, d, t);
    bytes::lemma_concat_assoc(a + b, c, d + t);
    bytes::lemma_concat_assoc(a, b, c + (d + t));
    lemma_live_round_trip(s.live, b + (c + (d + t)));
    lemma_spent_round_trip(s.spent_by, c + (d + t));
    lemma_known_round_trip(s.known_ids, d + t);
    lemma_applied_round_trip(s.applied, t);
    ordmap::lemma_listed_finite(s.live);
    ordmap::lemma_listed_finite(s.spent_by);
    ordmap::lemma_listed_finite(s.applied);
    lemma_members_finite(s.known_ids);
    assert(s =~= (StateModel {
        live: ordmap::map_of(ordmap::listed(s.live)),
        spent_by: ordmap::map_of(ordmap::listed(s.spent_by)),
        known_ids: ordmap::members(s.known_ids).to_set(),
        applied: ordmap::map_of(ordmap::listed(s.applied)),
    }));
}

// ---------------------------------------------------------------------------
// Requests and responses.
// ---------------------------------------------------------------------------

/// A request that fits is read back as it was written.
#[verifier::rlimit(60)]
pub proof fn law_request_round_trip(r: RequestModel, t: Seq<u8>)
    requires
        wire::request_fits(r) is Ok,
    ensures
        wire::p_request(wire::request_wire(r) + t) == Ok::<(RequestModel, Seq<u8>), Seq<char>>((r, t)),
{
    match r {
        RequestModel::Ping => {
            lemma_read_u8(1, t, "request tag"@);
        },
        RequestModel::Prevote(p) => {
            bytes::lemma_concat_assoc(seq![2u8], wire::proposal_wire(p), t);
            lemma_read_u8(2, wire::proposal_wire(p) + t, "request tag"@);
            law_proposal_round_trip(p, t);
        },
        RequestModel::Precommit(p, qc) => {
            bytes::lemma_concat_assoc(seq![3u8] + wire::proposal_wire(p), wire::qc_wire(qc), t);
            bytes::lemma_concat_assoc(seq![3u8], wire::proposal_wire(p), wire::qc_wire(qc) + t);
            lemma_read_u8(3, wire::proposal_wire(p) + (wire::qc_wire(qc) + t), "request tag"@);
            law_proposal_round_trip(p, wire::qc_wire(qc) + t);
            law_qc_round_trip(qc, t);
        },
        RequestModel::Apply(tx, auth, prevote, finality) => {
            bytes::lemma_concat_assoc(seq![4u8] + wire::tx_wire(tx) + wire::auth_wire(auth) + wire::qc_wire(prevote), wire::qc_wire(finality), t);
            let s4 = wire::qc_wire(finality) + t;
            bytes::lemma_concat_assoc(seq![4u8] + wire::tx_wire(tx) + wire::auth_wire(auth), wire::qc_wire(prevote), s4);
            let s3 = wire::qc_wire(prevote) + s4;
            bytes::lemma_concat_assoc(seq![4u8] + wire::tx_wire(tx), wire::auth_wire(auth), s3);
            let s2 = wire::auth_wire(auth) + s3;
            bytes::lemma_concat_assoc(seq![4u8], wire::tx_wire(tx), s2);
            let s1 = wire::tx_wire(tx) + s2;
            lemma_read_u8(4, s1, "request tag"@);
            law_tx_round_trip(tx, s2);
            law_user_auth_round_trip(auth, s3);
            law_qc_round_trip(prevote, s4);
            law_qc_round_trip(finality, t);
        },
        RequestModel::QueryState => {
            lemma_read_u8(5, t, "request tag"@);
        },
    }
}

proof fn lemma_lifecycle_round_trip(l: Lifecycle, t: Seq<u8>)
    ensures
        wire::p_lifecycle(seq![wire::lifecycle_byte(l)] + t) == Ok::<(Lifecycle, Seq<u8>), Seq<char>>((l, t)),
{
    lemma_read_u8(wire::lifecycle_byte(l), t, "lifecycle"@);
}

/// A response that fits is read back as it was written.
pub proof fn law_response_round_trip(r: Response, t: Seq<u8>)
    requires
        wire::response_fits(r) is Ok,
    ensures
        wire::p_response(wire::response_wire(r) + t) == Ok::<(Response, Seq<u8>), Seq<char>>((r, t)),
{
    match r {
        Response::Pong { index, epoch, committee_hash } => {
            bytes::lemma_concat_assoc(seq![1u8] + seq![index] + bytes::le64(epoch), committee_hash@, t);
            let s3 = committee_hash@ + t;
            bytes::lemma_concat_assoc(seq![1u8] + seq![index], bytes::le64(epoch), s3);
            let s2 = bytes::le64(epoch) + s3;
            bytes::lemma_concat_assoc(seq![1u8], seq![index], s2);
            let s1 = seq![index] + s2;
            lemma_read_u8(1, s1, "response tag"@);
            lemma_read_u8(index, s2, "validator index"@);
            lemma_read_u64(epoch, s3, "validator epoch"@);
            lemma_read_fixed::<32>(committee_hash, t, "validator committee hash"@);
        },
        Response::Vote(vote) => {
            bytes::lemma_concat_assoc(seq![2u8], wire::vote_wire()(vote), t);
            lemma_read_u8(2, wire::vote_wire()(vote) + t, "response tag"@);
            law_vote_round_trip(vote, t);
        },
        Response::Applied { state_root, idempotent } => {
            bytes::lemma_concat_assoc(seq![3u8] + state_root@, seq![wire::bool_byte(idempotent)], t);
            let s2 = seq![wire::bool_byte(idempotent)] + t;
            bytes::lemma_concat_assoc(seq![3u8], state_root@, s2);
            let s1 = state_root@ + s2;
            lemma_read_u8(3, s1, "response tag"@);
            lemma_read_fixed::<32>(state_root, s2, "applied state root"@);
            lemma_read_bool(idempotent, t, "idempotent"@);
        },
        Response::State { state_root, snapshot_bytes, wal_bytes, lifecycle } => {
            bytes::lemma_concat_assoc(seq![4u8] + state_root@ + bytes::le64(snapshot_bytes) + bytes::le64(wal_bytes), seq![wire::lifecycle_byte(lifecycle)], t);
            let s4 = seq![wire::lifecycle_byte(lifecycle)] + t;
            bytes::lemma_concat_assoc(seq![4u8] + state_root@ + bytes::le64(snapshot_bytes), bytes::le64(wal_bytes), s4);
            let s3 = bytes::le64(wal_bytes) + s4;
            bytes::lemma_concat_assoc(seq![4u8] + state_root@, bytes::le64(snapshot_bytes), s3);
            let s2 = bytes::le64(snapshot_bytes) + s3;
            bytes::lemma_concat_assoc(seq![4u8], state_root@, s2);
            let s1 = state_root@ + s2;
            lemma_read_u8(4, s1, "response tag"@);
            lemma_read_fixed::<32>(state_root, s2, "state root"@);
            lemma_read_u64(snapshot_bytes, s3, "snapshot byte count"@);
            lemma_read_u64(wal_bytes, s4, "WAL byte count"@);
            lemma_lifecycle_round_trip(lifecycle, t);
        },
        Response::Rejected { code } => {
            bytes::lemma_concat_assoc(seq![6u8], bytes::le16(code), t);
            lemma_read_u8(6, bytes::le16(code) + t, "response tag"@);
            lemma_read_u16(code, t, "rejection code"@);
        },
    }
}

/// Where a whole value was read back from its own wire form, decoding gives it.
pub proof fn law_whole<T>(p: Parsed<T>, x: T, bytes: Seq<u8>)
    requires
        p == Ok::<(T, Seq<u8>), Seq<char>>((x, Seq::<u8>::empty())),
        bytes.len() <= MAX_FRAME_LEN,
    ensures
        wire::whole(p, bytes) == Ok::<T, Seq<char>>(x),
{
}

/// Decoding what was encoded gives the state back.
pub proof fn law_decode_encode_state(s: StateModel)
    requires
        state::state_finite(s),
        wire::framed(wire::state_fits(s), wire::state_wire(s)) is Ok,
    ensures
        ({
            let bytes = wire::framed(wire::state_fits(s), wire::state_wire(s))->Ok_0;
            wire::whole(wire::p_state(bytes), bytes) == Ok::<StateModel, Seq<char>>(s)
        }),
{
    law_state_round_trip(s, Seq::empty());
    bytes::lemma_concat_empty(wire::state_wire(s));
}

/// Decoding what was encoded gives the request back.
pub proof fn law_decode_encode_request(r: RequestModel)
    requires
        wire::framed(wire::request_fits(r), wire::request_wire(r)) is Ok,
    ensures
        ({
            let bytes = wire::framed(wire::request_fits(r), wire::request_wire(r))->Ok_0;
            wire::whole(wire::p_request(bytes), bytes) == Ok::<RequestModel, Seq<char>>(r)
        }),
{
    law_request_round_trip(r, Seq::empty());
    bytes::lemma_concat_empty(wire::request_wire(r));
}

/// Decoding what was encoded gives the response back.
pub proof fn law_decode_encode_response(r: Response)
    requires
        wire::response_fits(r) is Ok,
    ensures
        wire::framed(wire::response_fits(r), wire::response_wire(r)) is Ok,
        ({
            let bytes = wire::framed(wire::response_fits(r), wire::response_wire(r))->Ok_0;
            wire::whole(wire::p_response(bytes), bytes) == Ok::<Response, Seq<char>>(r)
        }),
{
    law_response_round_trip(r, Seq::empty());
    bytes::lemma_concat_empty(wire::response_wire(r));
    broadcast use {bytes::lemma_le16, bytes::lemma_le32, bytes::lemma_le64};

    assert(wire::response_wire(r).len() <= 512);
}

} // verus!
