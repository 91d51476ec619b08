//! What is read is what was written: every byte string that is accepted is the wire
//! form of the value it is read as. So requests and responses have one form each, and
//! bytes that are cut short, altered or repeated are refused.
use crate::bytes;
use crate::model;
use crate::model::{
    Cell, CellRef, CommitteeMember, Digest, ManifestModel, Output, ReceiptModel, StateModel,
    TxModel, Vote, N,
};
use crate::ordmap;
use crate::state;
use crate::wire;
use crate::wire::{Parsed, RequestModel, Response, MAX_COLLECTION_LEN, MAX_OUTPUTS, MAX_VOTES};
use crate::wire_laws;
use vstd::prelude::*;

verus! {

// ---------------------------------------------------------------------------
// Fields.
// ---------------------------------------------------------------------------

proof fn lemma_taken(s: Seq<u8>, n: int, label: Seq<char>)
    requires
        n >= 0,
        wire::p_take(s, n, label) is Ok,
    ensures
        wire::p_take(s, n, label)->Ok_0.0.len() == n,
        s == wire::p_take(s, n, label)->Ok_0.0 + wire::p_take(s, n, label)->Ok_0.1,
{
    reveal(wire::p_take);
    assert(s =~= s.subrange(0, n) + s.subrange(n, s.len() as int));
}

pub proof fn lemma_form_u8(s: Seq<u8>, label: Seq<char>)
    ensures
        wire::p_u8(s, label) matches Ok((x, t)) ==> s == seq![x] + t,
{
    if wire::p_u8(s, label) is Ok {
        lemma_taken(s, 1, label);
        let b = wire::p_take(s, 1, label)->Ok_0.0;
        assert(b =~= seq![b[0]]);
    }
}

proof fn lemma_form_bool(s: Seq<u8>, label: Seq<char>)
    ensures
        wire::p_bool(s, label) matches Ok((x, t)) ==> s == seq![wire::bool_byte(x)] + t,
{
    lemma_form_u8(s, label);
}

proof fn lemma_form_u16(s: Seq<u8>, label: Seq<char>)
    ensures
        wire::p_u16(s, label) matches Ok((x, t)) ==> s == bytes::le16(x) + t,
{
    if wire::p_u16(s, label) is Ok {
        lemma_taken(s, 2, label);
        bytes::lemma_from_le16(wire::p_take(s, 2, label)->Ok_0.0);
    }
}

proof fn lemma_form_u32(s: Seq<u8>, label: Seq<char>)
    ensures
        wire::p_u32(s, label) matches Ok((x, t)) ==> s == bytes::le32(x) + t,
{
    if wire::p_u32(s, label) is Ok {
        lemma_taken(s, 4, label);
        bytes::lemma_from_le32(wire::p_take(s, 4, label)->Ok_0.0);
    }
}

proof fn lemma_form_u64(s: Seq<u8>, label: Seq<char>)
    ensures
        wire::p_u64(s, label) matches Ok((x, t)) ==> s == bytes::le64(x) + t,
{
    if wire::p_u64(s, label) is Ok {
        lemma_taken(s, 8, label);
        bytes::lemma_from_le64(wire::p_take(s, 8, label)->Ok_0.0);
    }
}

proof fn lemma_form_fixed<const L: usize>(s: Seq<u8>, label: Seq<char>)
    ensures
        wire::p_fixed::<L>(s, label) matches Ok((x, t)) ==> s == x@ + t,
{
    if wire::p_fixed::<L>(s, label) is Ok {
        lemma_taken(s, L as int, label);
        bytes::lemma_arr_view::<L>(wire::p_take(s, L as int, label)->Ok_0.0);
    }
}

proof fn lemma_form_count(s: Seq<u8>, max: nat, label: Seq<char>)
    ensures
        wire::p_count(s, max, label) matches Ok((n, t)) ==> n <= max && s == bytes::le32(n as u32) + t,
{
    lemma_form_u32(s, label);
}

// ---------------------------------------------------------------------------
// Lists.
// ---------------------------------------------------------------------------

/// A parser of items takes off their forms, and gives only items of a kind.
pub open spec fn takes_off<T>(
    item: spec_fn(Seq<u8>) -> Parsed<T>,
    form: spec_fn(T) -> Seq<u8>,
    kind: spec_fn(T) -> bool,
) -> bool {
    forall|s: Seq<u8>|
        (#[trigger] item(s)) matches Ok((x, t)) ==> s == form(x) + t && kind(x)
}

/// No item of a list clashes with those before it.
pub open spec fn clash_free<T>(xs: Seq<T>, clash: spec_fn(Seq<T>, T) -> bool, from: int) -> bool {
    forall|i: int| from <= i < xs.len() ==> !clash(xs.subrange(0, i), #[trigger] xs[i])
}

proof fn lemma_form_list<T>(
    n: nat,
    s: Seq<u8>,
    acc: Seq<T>,
    item: spec_fn(Seq<u8>) -> Parsed<T>,
    clash: spec_fn(Seq<T>, T) -> bool,
    message: Seq<char>,
    form: spec_fn(T) -> Seq<u8>,
    kind: spec_fn(T) -> bool,
)
    requires
        takes_off(item, form, kind),
    ensures
        wire::p_list(n, s, acc, item, clash, message) matches Ok((xs, t)) ==> {
            &&& xs.len() == acc.len() + n
            &&& xs.subrange(0, acc.len() as int) == acc
            &&& s == bytes::flat(xs.subrange(acc.len() as int, xs.len() as int), form) + t
            &&& clash_free(xs, clash, acc.len() as int)
            &&& forall|i: int| acc.len() <= i < xs.len() ==> kind(#[trigger] xs[i])
        },
    decreases n,
{
    if wire::p_list(n, s, acc, item, clash, message) is Ok {
        let (xs, t) = wire::p_list(n, s, acc, item, clash, message)->Ok_0;
        if n == 0 {
            assert(xs.subrange(0, acc.len() as int) =~= acc);
            assert(xs.subrange(acc.len() as int, xs.len() as int) =~= Seq::<T>::empty());
            assert(s =~= Seq::<u8>::empty() + s);
        } else {
            let (x, rest) = item(s)->Ok_0;
            lemma_form_list((n - 1) as nat, rest, acc.push(x), item, clash, message, form, kind);
            let tail = xs.subrange(acc.len() as int, xs.len() as int);
            let k = acc.len() as int;
            assert(xs.subrange(0, k + 1) == acc.push(x));
            assert(xs[k] == xs.subrange(0, k + 1)[k]);
            assert(xs.subrange(0, k) =~= acc) by {
                assert(xs.subrange(0, k) =~= xs.subrange(0, k + 1).subrange(0, k));
            }
            assert(tail.subrange(1, tail.len() as int) =~= xs.subrange(k + 1, xs.len() as int));
            bytes::lemma_flat_first(tail, form);
            bytes::lemma_concat_assoc(
                form(x),
                bytes::flat(tail.subrange(1, tail.len() as int), form),
                t,
            );
            assert forall|i: int| k <= i < xs.len() implies !clash(
                xs.subrange(0, i),
                #[trigger] xs[i],
            ) && kind(xs[i]) by {
                if i == k {
                    assert(xs[i] == x);
                }
            }
        }
    }
}

/// A list in which an item clashes is refused.
proof fn lemma_clash_is_refused<T>(
    xs: Seq<T>,
    t: Seq<u8>,
    acc: Seq<T>,
    item: spec_fn(Seq<u8>) -> Parsed<T>,
    clash: spec_fn(Seq<T>, T) -> bool,
    message: Seq<char>,
    form: spec_fn(T) -> Seq<u8>,
    at: int,
)
    requires
        forall|i: int|
            0 <= i < xs.len() ==> wire_laws::reads_back(item, form(#[trigger] xs[i]), xs[i]),
        0 <= at < xs.len(),
        clash(acc + xs.subrange(0, at), xs[at]),
    ensures
        wire::p_list(xs.len(), bytes::flat(xs, form) + t, acc, item, clash, message) == Err::<
            (Seq<T>, Seq<u8>),
            Seq<char>,
        >(message),
    decreases xs.len(),
{
    let x = xs[0];
    let rest = xs.subrange(1, xs.len() as int);
    bytes::lemma_flat_first(xs, form);
    bytes::lemma_concat_assoc(form(x), bytes::flat(rest, form), t);
    assert(wire_laws::reads_back(item, form(xs[0]), xs[0]));
    assert(item(form(x) + (bytes::flat(rest, form) + t)) == Ok::<(T, Seq<u8>), Seq<char>>(
        (x, bytes::flat(rest, form) + t),
    ));
    assert((xs.len() - 1) as nat == rest.len());
    if at == 0 {
        assert(acc + xs.subrange(0, 0) =~= acc);
    } else {
        assert forall|i: int| 0 <= i < rest.len() implies wire_laws::reads_back(
            item,
            form(#[trigger] rest[i]),
            rest[i],
        ) by {
            assert(rest[i] == xs[i + 1]);
        }
        assert(acc.push(x) + rest.subrange(0, at - 1) =~= acc + xs.subrange(0, at));
        lemma_clash_is_refused(rest, t, acc.push(x), item, clash, message, form, at - 1);
    }
}

// ---------------------------------------------------------------------------
// Values.
// ---------------------------------------------------------------------------

/// A reference is read from its own form only.
pub proof fn law_cell_ref_form(s: Seq<u8>)
    ensures
        wire::p_cell_ref(s) matches Ok((x, t)) ==> s == model::ref_bytes(x) + t,
{
    if wire::p_cell_ref(s) is Ok {
        let (x, t) = wire::p_cell_ref(s)->Ok_0;
        lemma_form_u32(s, "cell asset"@);
        let s1 = wire::p_u32(s, "cell asset"@)->Ok_0.1;
        lemma_form_fixed::<32>(s1, "cell id"@);
        let s2 = wire::p_fixed::<32>(s1, "cell id"@)->Ok_0.1;
        lemma_form_u64(s2, "cell generation"@);
        bytes::lemma_concat_assoc(bytes::le32(x.asset_id) + x.id@, bytes::le64(x.generation), t);
        bytes::lemma_concat_assoc(bytes::le32(x.asset_id), x.id@, bytes::le64(x.generation) + t);
    }
}

/// A cell is read from its own form only.
pub proof fn law_cell_form(s: Seq<u8>)
    ensures
        wire::p_cell(s) matches Ok((c, t)) ==> s == wire::cell_wire(c) + t,
{
    if wire::p_cell(s) is Ok {
        let (c, t) = wire::p_cell(s)->Ok_0;
        law_cell_ref_form(s);
        let s1 = wire::p_cell_ref(s)->Ok_0.1;
        lemma_form_u64(s1, "cell amount"@);
        let s2 = wire::p_u64(s1, "cell amount"@)->Ok_0.1;
        lemma_form_fixed::<32>(s2, "cell owner"@);
        let s3 = wire::p_fixed::<32>(s2, "cell owner"@)->Ok_0.1;
        lemma_form_fixed::<32>(s3, "cell predecessor"@);
        let s4 = wire::p_fixed::<32>(s3, "cell predecessor"@)->Ok_0.1;
        lemma_form_fixed::<32>(s4, "cell state digest"@);
        let r = model::ref_bytes(c.reference);
        let a = bytes::le64(c.amount);
        bytes::lemma_concat_assoc(r + a + c.owner@ + c.predecessor@, c.state_digest@, t);
        bytes::lemma_concat_assoc(r + a + c.owner@, c.predecessor@, s4);
        bytes::lemma_concat_assoc(r + a, c.owner@, s3);
        bytes::lemma_concat_assoc(r, a, s2);
    }
}

proof fn lemma_output_form(s: Seq<u8>)
    ensures
        wire::p_output(s) matches Ok((o, t)) ==> s == model::output_bytes()(o) + t,
{
    if wire::p_output(s) is Ok {
        let (o, t) = wire::p_output(s)->Ok_0;
        lemma_form_u32(s, "output asset"@);
        let s1 = wire::p_u32(s, "output asset"@)->Ok_0.1;
        lemma_form_u64(s1, "output amount"@);
        let s2 = wire::p_u64(s1, "output amount"@)->Ok_0.1;
        lemma_form_fixed::<32>(s2, "output owner"@);
        bytes::lemma_concat_assoc(bytes::le32(o.asset_id) + bytes::le64(o.amount), o.owner@, t);
        bytes::lemma_concat_assoc(bytes::le32(o.asset_id), bytes::le64(o.amount), s2);
    }
}

proof fn lemma_member_form(s: Seq<u8>)
    ensures
        wire::p_member(s) matches Ok((m, t)) ==> s == model::member_bytes()(m) + t,
{
    if wire::p_member(s) is Ok {
        let (m, t) = wire::p_member(s)->Ok_0;
        lemma_form_u8(s, "committee member index"@);
        let s1 = wire::p_u8(s, "committee member index"@)->Ok_0.1;
        lemma_form_fixed::<32>(s1, "committee member public key"@);
        bytes::lemma_concat_assoc(seq![m.index], m.public_key@, t);
    }
}

/// An authorization is read from its own form only.
pub proof fn law_user_auth_form(s: Seq<u8>)
    ensures
        wire::p_auth(s) matches Ok((a, t)) ==> s == wire::auth_wire(a) + t,
{
    if wire::p_auth(s) is Ok {
        let (a, t) = wire::p_auth(s)->Ok_0;
        lemma_form_fixed::<32>(s, "authorization signer"@);
        let s1 = wire::p_fixed::<32>(s, "authorization signer"@)->Ok_0.1;
        lemma_form_fixed::<64>(s1, "authorization signature"@);
        bytes::lemma_concat_assoc(a.signer@, a.signature@, t);
    }
}

proof fn lemma_vote_end_form(head: Vote, s: Seq<u8>)
    ensures
        wire::p_vote_end(head, s) matches Ok((v, t)) ==> {
            &&& v == (Vote { signer_index: v.signer_index, signature: v.signature, ..head })
            &&& s == seq![v.signer_index] + (v.signature@ + t)
        },
{
    if wire::p_vote_end(head, s) is Ok {
        lemma_form_u8(s, "vote signer index"@);
        let s1 = wire::p_u8(s, "vote signer index"@)->Ok_0.1;
        lemma_form_fixed::<64>(s1, "vote signature"@);
    }
}

proof fn lemma_vote_middle_form(head: Vote, s: Seq<u8>)
    ensures
        wire::p_vote_middle(head, s) matches Ok((v, t)) ==> {
            &&& v.network_id == head.network_id
            &&& v.epoch == head.epoch
            &&& v.committee_hash == head.committee_hash
            &&& v.phase == head.phase
            &&& s == bytes::le64(v.round) + (v.conflict_key@ + (v.intent@ + (v.justify@ + (seq![
                v.signer_index,
            ] + (v.signature@ + t)))))
        },
{
    if wire::p_vote_middle(head, s) is Ok {
        let (v, t) = wire::p_vote_middle(head, s)->Ok_0;
        lemma_form_u64(s, "vote round"@);
        let s1 = wire::p_u64(s, "vote round"@)->Ok_0.1;
        lemma_form_fixed::<32>(s1, "vote conflict key"@);
        let s2 = wire::p_fixed::<32>(s1, "vote conflict key"@)->Ok_0.1;
        lemma_form_fixed::<32>(s2, "vote intent"@);
        let s3 = wire::p_fixed::<32>(s2, "vote intent"@)->Ok_0.1;
        lemma_form_fixed::<32>(s3, "vote justification"@);
        let s4 = wire::p_fixed::<32>(s3, "vote justification"@)->Ok_0.1;
        lemma_vote_end_form(
            Vote {
                round: wire::p_u64(s, "vote round"@)->Ok_0.0,
                conflict_key: wire::p_fixed::<32>(s1, "vote conflict key"@)->Ok_0.0,
                intent: wire::p_fixed::<32>(s2, "vote intent"@)->Ok_0.0,
                justify: wire::p_fixed::<32>(s3, "vote justification"@)->Ok_0.0,
                ..head
            },
            s4,
        );
    }
}

/// A vote is read from its own form only, and only in a known phase.
pub proof fn law_vote_form(s: Seq<u8>)
    ensures
        wire::p_vote(s) matches Ok((v, t)) ==> s == wire::vote_wire()(v) + t && wire::phase_verdict(
            v.phase,
        ) is Ok,
{
    if wire::p_vote(s) is Ok {
        let (v, t) = wire::p_vote(s)->Ok_0;
        lemma_form_u32(s, "vote network"@);
        let (network_id, s1) = wire::p_u32(s, "vote network"@)->Ok_0;
        lemma_form_u64(s1, "vote epoch"@);
        let (epoch, s2) = wire::p_u64(s1, "vote epoch"@)->Ok_0;
        lemma_form_fixed::<32>(s2, "vote committee hash"@);
        let (committee_hash, s3) = wire::p_fixed::<32>(s2, "vote committee hash"@)->Ok_0;
        lemma_form_u8(s3, "vote phase"@);
        let (phase, s4) = wire::p_phase(s3)->Ok_0;
        lemma_vote_middle_form(wire::vote_head(network_id, epoch, committee_hash, phase), s4);
        wire_laws::lemma_vote_form(v, t);
    }
}

/// A vote in a known phase.
pub open spec fn known_phase() -> spec_fn(Vote) -> bool {
    |v: Vote| wire::phase_verdict(v.phase) is Ok
}

/// Any item.
pub open spec fn any_item<T>() -> spec_fn(T) -> bool {
    |x: T| true
}

proof fn lemma_phases_hold(votes: Seq<Vote>, i: int)
    requires
        0 <= i <= votes.len(),
        forall|k: int| i <= k < votes.len() ==> known_phase()(#[trigger] votes[k]),
    ensures
        wire::phases_verdict(votes, i) is Ok,
    decreases votes.len() - i,
{
    if i < votes.len() {
        assert(known_phase()(votes[i]));
        lemma_phases_hold(votes, i + 1);
    }
}

/// A certificate is read from its own form only, and only if it can be written.
pub proof fn law_qc_form(s: Seq<u8>)
    ensures
        wire::p_qc(s) matches Ok((votes, t)) ==> s == wire::qc_wire(votes) + t && wire::qc_fits(
            votes,
        ) is Ok,
{
    if wire::p_qc(s) is Ok {
        let (votes, t) = wire::p_qc(s)->Ok_0;
        lemma_form_count(s, MAX_VOTES as nat, "QC votes"@);
        let (n, s1) = wire::p_count(s, MAX_VOTES as nat, "QC votes"@)->Ok_0;
        assert forall|u: Seq<u8>| (#[trigger] wire::vote_item()(u)) matches Ok((x, r)) ==> u
            == wire::vote_wire()(x) + r && known_phase()(x) by {
            law_vote_form(u);
        }
        lemma_form_list(
            n,
            s1,
            Seq::empty(),
            wire::vote_item(),
            wire::no_clash(),
            Seq::empty(),
            wire::vote_wire(),
            known_phase(),
        );
        assert(votes.subrange(0, votes.len() as int) =~= votes);
        lemma_phases_hold(votes, 0);
        bytes::lemma_concat_assoc(
            bytes::le32(n as u32),
            bytes::flat(votes, wire::vote_wire()),
            t,
        );
    }
}

proof fn lemma_tx_end_form(head: TxModel, s: Seq<u8>)
    ensures
        wire::p_tx_end(head, s) matches Ok((tx, t)) ==> {
            &&& tx == (TxModel { fee: tx.fee, salt: tx.salt, ..head })
            &&& s == bytes::le64(tx.fee) + (tx.salt@ + t)
        },
{
    if wire::p_tx_end(head, s) is Ok {
        lemma_form_u64(s, "transaction fee"@);
        let s1 = wire::p_u64(s, "transaction fee"@)->Ok_0.1;
        lemma_form_fixed::<32>(s1, "transaction salt"@);
    }
}

proof fn lemma_tx_outputs_form(head: TxModel, s: Seq<u8>)
    ensures
        wire::p_tx_outputs(head, s) matches Ok((tx, t)) ==> {
            &&& tx == (TxModel { outputs: tx.outputs, fee: tx.fee, salt: tx.salt, ..head })
            &&& wire::tx_fits(tx) is Ok
            &&& s == bytes::le32(tx.outputs.len() as u32) + (bytes::flat(
                tx.outputs,
                model::output_bytes(),
            ) + (bytes::le64(tx.fee) + (tx.salt@ + t)))
        },
{
    if wire::p_tx_outputs(head, s) is Ok {
        let (tx, t) = wire::p_tx_outputs(head, s)->Ok_0;
        lemma_form_count(s, MAX_OUTPUTS as nat, "transaction outputs"@);
        let (n, s1) = wire::p_count(s, MAX_OUTPUTS as nat, "transaction outputs"@)->Ok_0;
        assert forall|u: Seq<u8>| (#[trigger] wire::output_item()(u)) matches Ok((x, r)) ==> u
            == model::output_bytes()(x) + r && any_item::<Output>()(x) by {
            lemma_output_form(u);
        }
        lemma_form_list(
            n,
            s1,
            Seq::empty(),
            wire::output_item(),
            wire::no_clash(),
            Seq::empty(),
            model::output_bytes(),
            any_item(),
        );
        let (outputs, s2) = wire::p_list(
            n,
            s1,
            Seq::empty(),
            wire::output_item(),
            wire::no_clash(),
            Seq::empty(),
        )->Ok_0;
        assert(outputs.subrange(0, outputs.len() as int) =~= outputs);
        lemma_tx_end_form(TxModel { outputs, ..head }, s2);
    }
}

/// A transaction is read from its own form only, and only if it can be written.
pub proof fn law_tx_form(s: Seq<u8>)
    ensures
        wire::p_tx(s) matches Ok((tx, t)) ==> s == wire::tx_wire(tx) + t && wire::tx_fits(tx) is Ok,
{
    if wire::p_tx(s) is Ok {
        let (tx, t) = wire::p_tx(s)->Ok_0;
        lemma_form_u16(s, "transaction version"@);
        let (version, s1) = wire::p_u16(s, "transaction version"@)->Ok_0;
        lemma_form_u32(s1, "transaction network"@);
        let (network_id, s2) = wire::p_u32(s1, "transaction network"@)->Ok_0;
        lemma_form_u64(s2, "transaction epoch"@);
        let (epoch, s3) = wire::p_u64(s2, "transaction epoch"@)->Ok_0;
        lemma_form_fixed::<32>(s3, "transaction committee hash"@);
        let (committee_hash, s4) = wire::p_fixed::<32>(s3, "transaction committee hash"@)->Ok_0;
        law_cell_form(s4);
        let (input, s5) = wire::p_cell(s4)->Ok_0;
        lemma_tx_outputs_form(
            wire::tx_head(version, network_id, epoch, committee_hash, input),
            s5,
        );
        wire_laws::lemma_tx_form(tx, t);
    }
}

proof fn lemma_justify_form(s: Seq<u8>)
    ensures
        wire::p_justify(s) matches Ok((j, t)) ==> s == wire::justify_wire(j) + t && (j is Some
            ==> wire::qc_fits(j->Some_0) is Ok),
{
    if wire::p_justify(s) is Ok {
        let (j, t) = wire::p_justify(s)->Ok_0;
        lemma_form_bool(s, "proposal justification presence"@);
        let (present, s1) = wire::p_bool(s, "proposal justification presence"@)->Ok_0;
        if present {
            law_qc_form(s1);
            bytes::lemma_concat_assoc(seq![1u8], wire::qc_wire(j->Some_0), t);
        }
    }
}

/// A proposal is read from its own form only, and only if it can be written.
#[verifier::rlimit(40)]
pub proof fn law_proposal_form(s: Seq<u8>)
    ensures
        wire::p_proposal(s) matches Ok((p, t)) ==> s == wire::proposal_wire(p) + t
            && wire::proposal_fits(p) is Ok,
{
    if wire::p_proposal(s) is Ok {
        let (p, t) = wire::p_proposal(s)->Ok_0;
        lemma_form_u64(s, "proposal round"@);
        let s1 = wire::p_u64(s, "proposal round"@)->Ok_0.1;
        lemma_form_u8(s1, "proposal proposer index"@);
        let s2 = wire::p_u8(s1, "proposal proposer index"@)->Ok_0.1;
        law_tx_form(s2);
        let s3 = wire::p_tx(s2)->Ok_0.1;
        law_user_auth_form(s3);
        let s4 = wire::p_auth(s3)->Ok_0.1;
        lemma_form_fixed::<32>(s4, "proposal intent"@);
        let s5 = wire::p_fixed::<32>(s4, "proposal intent"@)->Ok_0.1;
        lemma_justify_form(s5);
        let s6 = wire::p_justify(s5)->Ok_0.1;
        lemma_form_fixed::<64>(s6, "proposal signature"@);
        let a = bytes::le64(p.round);
        let b = seq![p.proposer_index];
        let c = wire::tx_wire(p.tx);
        let d = wire::auth_wire(p.auth);
        let e = wire::justify_wire(p.justify);
        bytes::lemma_concat_assoc(a + b + c + d + p.intent@ + e, p.signature@, t);
        bytes::lemma_concat_assoc(a + b + c + d + p.intent@, e, s6);
        bytes::lemma_concat_assoc(a + b + c + d, p.intent@, s5);
        bytes::lemma_concat_assoc(a + b + c, d, s4);
        bytes::lemma_concat_assoc(a + b, c, s3);
        bytes::lemma_concat_assoc(a, b, s2);
    }
}

// ---------------------------------------------------------------------------
// Requests.
// ---------------------------------------------------------------------------

/// A request is read from its own form only, and only if it can be written.
#[verifier::rlimit(40)]
pub proof fn law_request_form(s: Seq<u8>)
    ensures
        wire::p_request(s) matches Ok((r, t)) ==> s == wire::request_wire(r) + t
            && wire::request_fits(r) is Ok,
{
    if wire::p_request(s) is Ok {
        let (r, t) = wire::p_request(s)->Ok_0;
        lemma_form_u8(s, "request tag"@);
        let (tag, s1) = wire::p_u8(s, "request tag"@)->Ok_0;
        match r {
            RequestModel::Ping => {},
            RequestModel::Prevote(p) => {
                law_proposal_form(s1);
                bytes::lemma_concat_assoc(seq![2u8], wire::proposal_wire(p), t);
            },
            RequestModel::Precommit(p, qc) => {
                law_proposal_form(s1);
                let s2 = wire::p_proposal(s1)->Ok_0.1;
                law_qc_form(s2);
                bytes::lemma_concat_assoc(
                    seq![3u8] + wire::proposal_wire(p),
                    wire::qc_wire(qc),
                    t,
                );
                bytes::lemma_concat_assoc(seq![3u8], wire::proposal_wire(p), s2);
            },
            RequestModel::Apply(tx, auth, prevote, finality) => {
                law_tx_form(s1);
                let s2 = wire::p_tx(s1)->Ok_0.1;
                law_user_auth_form(s2);
                let s3 = wire::p_auth(s2)->Ok_0.1;
                law_qc_form(s3);
                let s4 = wire::p_qc(s3)->Ok_0.1;
                law_qc_form(s4);
                let a = seq![4u8];
                let b = wire::tx_wire(tx);
                let c = wire::auth_wire(auth);
                let d = wire::qc_wire(prevote);
                bytes::lemma_concat_assoc(a + b + c + d, wire::qc_wire(finality), t);
                bytes::lemma_concat_assoc(a + b + c, d, s4);
                bytes::lemma_concat_assoc(a + b, c, s3);
                bytes::lemma_concat_assoc(a, b, s2);
            },
            RequestModel::QueryState => {},
        }
    }
}

/// Encoding a request that was decoded gives the same bytes back: each request has one
/// accepted form.
pub proof fn law_encode_decode_request(b: Seq<u8>)
    requires
        wire::whole(wire::p_request(b), b) is Ok,
    ensures
        ({
            let r = wire::whole(wire::p_request(b), b)->Ok_0;
            wire::framed(wire::request_fits(r), wire::request_wire(r)) == Ok::<Seq<u8>, Seq<char>>(b)
        }),
{
    law_request_form(b);
    let (r, t) = wire::p_request(b)->Ok_0;
    assert(t =~= Seq::<u8>::empty());
    bytes::lemma_concat_empty(wire::request_wire(r));
}

/// Two byte strings that decode to the same request are the same.
pub proof fn law_request_has_one_form(a: Seq<u8>, b: Seq<u8>)
    requires
        wire::whole(wire::p_request(a), a) is Ok,
        wire::whole(wire::p_request(b), b) == wire::whole(wire::p_request(a), a),
    ensures
        a == b,
{
    law_encode_decode_request(a);
    law_encode_decode_request(b);
}

/// A request that is cut short is refused.
pub proof fn law_cut_request_is_refused(r: RequestModel, k: int)
    requires
        wire::request_fits(r) is Ok,
        0 <= k < wire::request_wire(r).len(),
    ensures
        ({
            let cut = wire::request_wire(r).subrange(0, k);
            wire::whole(wire::p_request(cut), cut) is Err
        }),
{
    let all = wire::request_wire(r);
    let cut = all.subrange(0, k);
    let rest = all.subrange(k, all.len() as int);
    if wire::whole(wire::p_request(cut), cut) is Ok {
        let other = wire::whole(wire::p_request(cut), cut)->Ok_0;
        law_encode_decode_request(cut);
        wire_laws::law_request_round_trip(other, rest);
        assert(cut + rest =~= all);
        wire_laws::law_request_round_trip(r, Seq::empty());
        bytes::lemma_concat_empty(all);
        assert(rest.len() > 0);
    }
}

/// A request with bytes behind it is refused.
pub proof fn law_extended_request_is_refused(r: RequestModel, x: Seq<u8>)
    requires
        wire::request_fits(r) is Ok,
        x.len() > 0,
    ensures
        wire::whole(
            wire::p_request(wire::request_wire(r) + x),
            wire::request_wire(r) + x,
        ) is Err,
{
    wire_laws::law_request_round_trip(r, x);
}

/// Bytes that do not start with the tag of a request are refused.
pub proof fn law_unknown_request_is_refused(b: Seq<u8>)
    requires
        b.len() == 0 || !(1 <= b[0] <= 5),
    ensures
        wire::p_request(b) is Err,
{
    if wire::p_request(b) is Ok {
        lemma_form_u8(b, "request tag"@);
        let (tag, s) = wire::p_u8(b, "request tag"@)->Ok_0;
        assert((seq![tag] + s)[0] == tag);
    }
}

// ---------------------------------------------------------------------------
// Responses.
// ---------------------------------------------------------------------------

proof fn lemma_pong_form(s: Seq<u8>)
    ensures
        wire::p_pong(s) matches Ok((r, t)) ==> {
            &&& r is Pong
            &&& seq![1u8] + s == wire::response_wire(r) + t
        },
{
    if wire::p_pong(s) is Ok {
        let (r, t) = wire::p_pong(s)->Ok_0;
        lemma_form_u8(s, "validator index"@);
        let (index, s1) = wire::p_u8(s, "validator index"@)->Ok_0;
        lemma_form_u64(s1, "validator epoch"@);
        let (epoch, s2) = wire::p_u64(s1, "validator epoch"@)->Ok_0;
        lemma_form_fixed::<32>(s2, "validator committee hash"@);
        let (hash, s3) = wire::p_fixed::<32>(s2, "validator committee hash"@)->Ok_0;
        bytes::lemma_concat_assoc(seq![1u8] + seq![index] + bytes::le64(epoch), hash@, t);
        bytes::lemma_concat_assoc(seq![1u8] + seq![index], bytes::le64(epoch), s2);
        bytes::lemma_concat_assoc(seq![1u8], seq![index], s1);
    }
}

proof fn lemma_applied_form(s: Seq<u8>)
    ensures
        wire::p_applied_response(s) matches Ok((r, t)) ==> {
            &&& r is Applied
            &&& seq![3u8] + s == wire::response_wire(r) + t
        },
{
    if wire::p_applied_response(s) is Ok {
        let (r, t) = wire::p_applied_response(s)->Ok_0;
        lemma_form_fixed::<32>(s, "applied state root"@);
        let (root, s1) = wire::p_fixed::<32>(s, "applied state root"@)->Ok_0;
        lemma_form_bool(s1, "idempotent"@);
        let (flag, s2) = wire::p_bool(s1, "idempotent"@)->Ok_0;
        bytes::lemma_concat_assoc(seq![3u8] + root@, seq![wire::bool_byte(flag)], t);
        bytes::lemma_concat_assoc(seq![3u8], root@, s1);
    }
}

proof fn lemma_state_response_form(s: Seq<u8>)
    ensures
        wire::p_state_response(s) matches Ok((r, t)) ==> {
            &&& r is State
            &&& seq![4u8] + s == wire::response_wire(r) + t
        },
{
    if wire::p_state_response(s) is Ok {
        let (r, t) = wire::p_state_response(s)->Ok_0;
        lemma_form_fixed::<32>(s, "state root"@);
        let (root, s1) = wire::p_fixed::<32>(s, "state root"@)->Ok_0;
        lemma_form_u64(s1, "snapshot byte count"@);
        let (snapshot, s2) = wire::p_u64(s1, "snapshot byte count"@)->Ok_0;
        lemma_form_u64(s2, "WAL byte count"@);
        let (wal, s3) = wire::p_u64(s2, "WAL byte count"@)->Ok_0;
        lemma_form_u8(s3, "lifecycle"@);
        let (l, s4) = wire::p_lifecycle(s3)->Ok_0;
        assert(s3 == seq![wire::lifecycle_byte(l)] + t);
        let a = seq![4u8];
        let b = bytes::le64(snapshot);
        let c = bytes::le64(wal);
        bytes::lemma_concat_assoc(a + root@ + b + c, seq![wire::lifecycle_byte(l)], t);
        bytes::lemma_concat_assoc(a + root@ + b, c, s3);
        bytes::lemma_concat_assoc(a + root@, b, s2);
        bytes::lemma_concat_assoc(a, root@, s1);
    }
}

/// A response is read from its own form only, and only if it can be written.
pub proof fn law_response_form(s: Seq<u8>)
    ensures
        wire::p_response(s) matches Ok((r, t)) ==> s == wire::response_wire(r) + t
            && wire::response_fits(r) is Ok,
{
    if wire::p_response(s) is Ok {
        let (r, t) = wire::p_response(s)->Ok_0;
        lemma_form_u8(s, "response tag"@);
        let (tag, s1) = wire::p_u8(s, "response tag"@)->Ok_0;
        if tag == 1 {
            lemma_pong_form(s1);
        } else if tag == 2 {
            law_vote_form(s1);
            bytes::lemma_concat_assoc(seq![2u8], wire::vote_wire()(r->Vote_0), t);
        } else if tag == 3 {
            lemma_applied_form(s1);
        } else if tag == 4 {
            lemma_state_response_form(s1);
        } else {
            lemma_form_u16(s1, "rejection code"@);
            bytes::lemma_concat_assoc(seq![6u8], bytes::le16(r->Rejected_code), t);
        }
    }
}

/// Encoding a response that was decoded gives the same bytes back.
pub proof fn law_encode_decode_response(b: Seq<u8>)
    requires
        wire::whole(wire::p_response(b), b) is Ok,
    ensures
        ({
            let r = wire::whole(wire::p_response(b), b)->Ok_0;
            wire::framed(wire::response_fits(r), wire::response_wire(r)) == Ok::<
                Seq<u8>,
                Seq<char>,
            >(b)
        }),
{
    law_response_form(b);
    let (r, t) = wire::p_response(b)->Ok_0;
    assert(t =~= Seq::<u8>::empty());
    bytes::lemma_concat_empty(wire::response_wire(r));
}

/// A byte at a place that the format fixes has a value that it has to have: the tag,
/// and behind it the truth value, the lifecycle or the phase of the answers that hold
/// one.
pub open spec fn fixed_bytes_hold(b: Seq<u8>) -> bool {
    &&& b.len() > 0
    &&& b[0] == 1 || b[0] == 2 || b[0] == 3 || b[0] == 4 || b[0] == 6
    &&& b[0] == 2 ==> b.len() > 45 && 1 <= b[45] <= 2
    &&& b[0] == 3 ==> b.len() > 33 && b[33] <= 1
    &&& b[0] == 4 ==> b.len() > 49 && 1 <= b[49] <= 3
}

proof fn lemma_fixed_bytes(r: Response)
    requires
        wire::response_fits(r) is Ok,
    ensures
        fixed_bytes_hold(wire::response_wire(r)),
{
    broadcast use {bytes::lemma_le16, bytes::lemma_le32, bytes::lemma_le64};

    match r {
        Response::Pong { index, epoch, committee_hash } => {
            assert(wire::response_wire(r)[0] == 1);
        },
        Response::Vote(v) => {
            let w = wire::vote_wire()(v);
            let head = bytes::le32(v.network_id) + bytes::le64(v.epoch) + v.committee_hash@;
            assert(w[44] == (head + seq![v.phase])[44]);
            assert(wire::response_wire(r)[0] == 2);
            assert(wire::response_wire(r)[45] == w[44]);
        },
        Response::Applied { state_root, idempotent } => {
            assert(wire::response_wire(r)[0] == 3);
            assert(wire::response_wire(r)[33] == wire::bool_byte(idempotent));
        },
        Response::State { state_root, snapshot_bytes, wal_bytes, lifecycle } => {
            assert(wire::response_wire(r)[0] == 4);
            assert(wire::response_wire(r)[49] == wire::lifecycle_byte(lifecycle));
        },
        Response::Rejected { code } => {
            assert(wire::response_wire(r)[0] == 6);
        },
    }
}

/// A response with a wrong tag, truth value, lifecycle or phase is refused.
pub proof fn law_bad_response_is_refused(b: Seq<u8>)
    requires
        !fixed_bytes_hold(b),
    ensures
        wire::whole(wire::p_response(b), b) is Err,
{
    if wire::whole(wire::p_response(b), b) is Ok {
        law_encode_decode_response(b);
        lemma_fixed_bytes(wire::whole(wire::p_response(b), b)->Ok_0);
    }
}

/// A response in which one byte was replaced so that its tag, its truth value, its
/// lifecycle or its phase is none is refused.
pub proof fn law_altered_response_is_refused(r: Response, at: int, x: u8)
    requires
        wire::response_fits(r) is Ok,
        at == 0 && !(x == 1 || x == 2 || x == 3 || x == 4 || x == 6) || r is Applied && at == 33 && x
            > 1 || r is State && at == 49 && !(1 <= x <= 3) || r is Vote && at == 45 && !(1 <= x
            <= 2),
    ensures
        ({
            let c = wire::response_wire(r).update(at, x);
            wire::whole(wire::p_response(c), c) is Err
        }),
{
    let b = wire::response_wire(r);
    lemma_fixed_bytes(r);
    assert(b[0] == match r {
        Response::Pong { .. } => 1u8,
        Response::Vote(_) => 2u8,
        Response::Applied { .. } => 3u8,
        Response::State { .. } => 4u8,
        Response::Rejected { .. } => 6u8,
    });
    let c = b.update(at, x);
    assert(at > 0 ==> c[0] == b[0]);
    assert(c[at] == x);
    law_bad_response_is_refused(c);
}

// ---------------------------------------------------------------------------
// Committees.
// ---------------------------------------------------------------------------

proof fn lemma_members_read(m: ManifestModel)
    ensures
        forall|i: int|
            0 <= i < m.members.len() ==> wire_laws::reads_back(
                wire::member_item(),
                model::member_bytes()(#[trigger] m.members[i]),
                m.members[i],
            ),
{
    assert forall|i: int| 0 <= i < m.members.len() implies wire_laws::reads_back(
        wire::member_item(),
        model::member_bytes()(#[trigger] m.members[i]),
        m.members[i],
    ) by {
        assert forall|u: Seq<u8>| #[trigger]
            wire::member_item()(model::member_bytes()(m.members[i]) + u) == Ok::<
                (CommitteeMember, Seq<u8>),
                Seq<char>,
            >((m.members[i], u)) by {
            wire_laws::lemma_member_round_trip(m.members[i], u);
        }
    }
}

/// The fields of a committee in front of its count of members.
pub open spec fn manifest_front(m: ManifestModel) -> Seq<u8> {
    bytes::le32(m.network_id) + bytes::le64(m.epoch) + seq![m.threshold]
}

proof fn lemma_manifest_front(m: ManifestModel, s: Seq<u8>)
    ensures
        wire::p_manifest(manifest_front(m) + s) == match wire::p_count(
            s,
            N as nat,
            "committee members"@,
        ) {
            Err(e) => Err::<(ManifestModel, Seq<u8>), Seq<char>>(e),
            Ok((n, s)) => match wire::p_list(
                n,
                s,
                Seq::empty(),
                wire::member_item(),
                wire::index_clash(),
                "duplicate committee member index"@,
            ) {
                Err(e) => Err(e),
                Ok((members, s)) => Ok((ManifestModel { members, ..m }, s)),
            },
        },
{
    let a = bytes::le32(m.network_id);
    let b = bytes::le64(m.epoch);
    let c = seq![m.threshold];
    bytes::lemma_concat_assoc(a + b, c, s);
    bytes::lemma_concat_assoc(a, b, c + s);
    wire_laws::lemma_read_u32(m.network_id, b + (c + s), "committee network"@);
    wire_laws::lemma_read_u64(m.epoch, c + s, "committee epoch"@);
    wire_laws::lemma_read_u8(m.threshold, s, "committee threshold"@);
}

/// A committee in which two members have one index is refused, though it can be
/// written.
pub proof fn law_repeated_member_is_refused(m: ManifestModel, t: Seq<u8>)
    requires
        wire::manifest_fits(m) is Ok,
        !wire_laws::distinct_indices(m),
    ensures
        wire::p_manifest(wire::manifest_wire(m) + t) == Err::<(ManifestModel, Seq<u8>), Seq<char>>(
            "duplicate committee member index"@,
        ),
{
    let n = bytes::le32(m.members.len() as u32);
    let list = bytes::flat(m.members, model::member_bytes());
    bytes::lemma_concat_assoc(manifest_front(m) + n, list, t);
    bytes::lemma_concat_assoc(manifest_front(m), n, list + t);
    lemma_manifest_front(m, n + (list + t));
    wire_laws::lemma_read_count(m.members.len(), list + t, N as nat, "committee members"@);
    let (i, j) = choose|i: int, j: int|
        0 <= i < j < m.members.len() && (#[trigger] m.members[i]).index == (
        #[trigger] m.members[j]).index;
    let before = Seq::<CommitteeMember>::empty() + m.members.subrange(0, j);
    assert(before[i] == m.members[i]);
    assert(wire::index_clash()(before, m.members[j]));
    lemma_members_read(m);
    lemma_clash_is_refused(
        m.members,
        t,
        Seq::empty(),
        wire::member_item(),
        wire::index_clash(),
        "duplicate committee member index"@,
        model::member_bytes(),
        j,
    );
}

/// A committee of which the count says more members than there can be is refused,
/// whatever follows.
pub proof fn law_large_committee_is_refused(m: ManifestModel, count: u32, t: Seq<u8>)
    requires
        count > N,
    ensures
        wire::p_manifest(manifest_front(m) + bytes::le32(count) + t) == Err::<
            (ManifestModel, Seq<u8>),
            Seq<char>,
        >(wire::too_many("committee members"@, N as nat)),
{
    bytes::lemma_concat_assoc(manifest_front(m), bytes::le32(count), t);
    lemma_manifest_front(m, bytes::le32(count) + t);
    wire_laws::lemma_read_u32(count, t, "committee members"@);
}

/// A committee is read from its own form only, and only with distinct indices.
pub proof fn law_manifest_form(s: Seq<u8>)
    ensures
        wire::p_manifest(s) matches Ok((m, t)) ==> {
            &&& s == wire::manifest_wire(m) + t
            &&& wire::manifest_fits(m) is Ok
            &&& wire_laws::distinct_indices(m)
        },
{
    if wire::p_manifest(s) is Ok {
        let (m, t) = wire::p_manifest(s)->Ok_0;
        lemma_form_u32(s, "committee network"@);
        let s1 = wire::p_u32(s, "committee network"@)->Ok_0.1;
        lemma_form_u64(s1, "committee epoch"@);
        let s2 = wire::p_u64(s1, "committee epoch"@)->Ok_0.1;
        lemma_form_u8(s2, "committee threshold"@);
        let s3 = wire::p_u8(s2, "committee threshold"@)->Ok_0.1;
        lemma_form_count(s3, N as nat, "committee members"@);
        let (n, s4) = wire::p_count(s3, N as nat, "committee members"@)->Ok_0;
        assert forall|u: Seq<u8>| (#[trigger] wire::member_item()(u)) matches Ok((x, r)) ==> u
            == model::member_bytes()(x) + r && any_item::<CommitteeMember>()(x) by {
            lemma_member_form(u);
        }
        lemma_form_list(
            n,
            s4,
            Seq::empty(),
            wire::member_item(),
            wire::index_clash(),
            "duplicate committee member index"@,
            model::member_bytes(),
            any_item(),
        );
        assert(m.members.subrange(0, m.members.len() as int) =~= m.members);
        assert forall|i: int, j: int| 0 <= i < j < m.members.len() implies (
        #[trigger] m.members[i]).index != (#[trigger] m.members[j]).index by {
            let before = m.members.subrange(0, j);
            assert(!wire::index_clash()(before, m.members[j]));
            assert(before[i] == m.members[i]);
        }
        let a = bytes::le32(m.network_id);
        let b = bytes::le64(m.epoch);
        let c = seq![m.threshold];
        let d = bytes::le32(n as u32);
        let e = bytes::flat(m.members, model::member_bytes());
        bytes::lemma_concat_assoc(a + b + c + d, e, t);
        bytes::lemma_concat_assoc(a + b + c, d, s4);
        bytes::lemma_concat_assoc(a + b, c, s3);
        bytes::lemma_concat_assoc(a, b, s2);
    }
}

// ---------------------------------------------------------------------------
// Lists of snapshot cells.
// ---------------------------------------------------------------------------

/// No two cells have one reference.
pub open spec fn distinct_refs(cells: Seq<Cell>) -> bool {
    forall|i: int, j: int|
        0 <= i < j < cells.len() ==> (#[trigger] cells[i]).reference != (
        #[trigger] cells[j]).reference
}

/// The verdict on encoding a list of snapshot cells.
pub open spec fn snapshot_verdict(cells: Seq<Cell>) -> model::Verdict {
    wire::both(
        wire::count_verdict(cells.len(), MAX_COLLECTION_LEN as nat, "snapshot cells"@),
        wire::snapshot_fits(cells, 0),
    )
}

proof fn lemma_snapshot_fits(cells: Seq<Cell>, i: int)
    requires
        0 <= i <= cells.len(),
    ensures
        wire::snapshot_fits(cells, i) is Ok <==> (forall|k: int|
            i <= k < cells.len() ==> !#[trigger] state::repeated_ref(cells, k)),
    decreases cells.len() - i,
{
    if i < cells.len() {
        lemma_snapshot_fits(cells, i + 1);
        assert(wire::snapshot_fits(cells, i) is Ok ==> !state::repeated_ref(cells, i));
    }
}

proof fn lemma_distinct_refs(cells: Seq<Cell>)
    ensures
        distinct_refs(cells) <==> wire::snapshot_fits(cells, 0) is Ok,
{
    lemma_snapshot_fits(cells, 0);
    if distinct_refs(cells) {
        assert forall|k: int| 0 <= k < cells.len() implies !#[trigger] state::repeated_ref(
            cells,
            k,
        ) by {
            if state::repeated_ref(cells, k) {
                let j = choose|j: int|
                    0 <= j < k && (#[trigger] cells[j]).reference == cells[k].reference;
                assert(cells[j].reference != cells[k].reference);
            }
        }
    }
    if wire::snapshot_fits(cells, 0) is Ok {
        assert forall|i: int, j: int| 0 <= i < j < cells.len() implies (
        #[trigger] cells[i]).reference != (#[trigger] cells[j]).reference by {
            assert(!state::repeated_ref(cells, j));
        }
    }
}

/// A list of snapshot cells is read back in its order as it was written.
pub proof fn law_snapshot_cells_round_trip(cells: Seq<Cell>, t: Seq<u8>)
    requires
        snapshot_verdict(cells) is Ok,
    ensures
        wire::p_snapshot(wire::counted(cells, wire::cell_item_wire()) + t) == Ok::<
            (Seq<Cell>, Seq<u8>),
            Seq<char>,
        >((cells, t)),
{
    lemma_distinct_refs(cells);
    assert forall|i: int| 0 <= i < cells.len() implies wire_laws::reads_back(
        wire::cell_item(),
        wire::cell_item_wire()(#[trigger] cells[i]),
        cells[i],
    ) by {
        assert forall|u: Seq<u8>| #[trigger]
            wire::cell_item()(wire::cell_item_wire()(cells[i]) + u) == Ok::<
                (Cell, Seq<u8>),
                Seq<char>,
            >((cells[i], u)) by {
            wire_laws::law_cell_round_trip(cells[i], u);
        }
    }
    assert forall|i: int| 0 <= i < cells.len() implies !wire::ref_clash()(
        Seq::<Cell>::empty() + cells.subrange(0, i),
        #[trigger] cells[i],
    ) by {
        let acc = Seq::<Cell>::empty() + cells.subrange(0, i);
        if wire::ref_clash()(acc, cells[i]) {
            let j = choose|j: int|
                0 <= j < acc.len() && (#[trigger] acc[j]).reference == cells[i].reference;
            assert(acc[j] == cells[j]);
        }
    }
    wire_laws::lemma_read_list(
        cells,
        t,
        Seq::empty(),
        wire::cell_item(),
        wire::ref_clash(),
        "duplicate snapshot cell reference"@,
        wire::cell_item_wire(),
    );
    assert(Seq::<Cell>::empty() + cells =~= cells);
    let list = bytes::flat(cells, wire::cell_item_wire());
    bytes::lemma_concat_assoc(bytes::le32(cells.len() as u32), list, t);
    wire_laws::lemma_read_count(
        cells.len(),
        list + t,
        MAX_COLLECTION_LEN as nat,
        "snapshot cells"@,
    );
}

/// A list of snapshot cells is read from its own form only, and only if it can be
/// written: it is short enough, and no reference occurs in it twice.
pub proof fn law_snapshot_cells_form(s: Seq<u8>)
    ensures
        wire::p_snapshot(s) matches Ok((cells, t)) ==> {
            &&& s == wire::counted(cells, wire::cell_item_wire()) + t
            &&& snapshot_verdict(cells) is Ok
            &&& distinct_refs(cells)
        },
{
    if wire::p_snapshot(s) is Ok {
        let (cells, t) = wire::p_snapshot(s)->Ok_0;
        lemma_form_count(s, MAX_COLLECTION_LEN as nat, "snapshot cells"@);
        let (n, s1) = wire::p_count(s, MAX_COLLECTION_LEN as nat, "snapshot cells"@)->Ok_0;
        assert forall|u: Seq<u8>| (#[trigger] wire::cell_item()(u)) matches Ok((x, r)) ==> u
            == wire::cell_item_wire()(x) + r && any_item::<Cell>()(x) by {
            law_cell_form(u);
        }
        lemma_form_list(
            n,
            s1,
            Seq::empty(),
            wire::cell_item(),
            wire::ref_clash(),
            "duplicate snapshot cell reference"@,
            wire::cell_item_wire(),
            any_item(),
        );
        assert(cells.subrange(0, cells.len() as int) =~= cells);
        assert forall|i: int, j: int| 0 <= i < j < cells.len() implies (
        #[trigger] cells[i]).reference != (#[trigger] cells[j]).reference by {
            let before = cells.subrange(0, j);
            assert(!wire::ref_clash()(before, cells[j]));
            assert(before[i] == cells[i]);
        }
        lemma_distinct_refs(cells);
        bytes::lemma_concat_assoc(
            bytes::le32(n as u32),
            bytes::flat(cells, wire::cell_item_wire()),
            t,
        );
    }
}

/// Encoding and decoding a list of snapshot cells are inverse: bytes decode to a list
/// exactly if the list encodes to the bytes. So bytes that are cut short, extended, of
/// too large a count or with a repeated reference are refused.
pub proof fn law_snapshot_cells_are_inverse(b: Seq<u8>, cells: Seq<Cell>)
    ensures
        wire::whole(wire::p_snapshot(b), b) == Ok::<Seq<Cell>, Seq<char>>(cells) <==> wire::framed(
            snapshot_verdict(cells),
            wire::counted(cells, wire::cell_item_wire()),
        ) == Ok::<Seq<u8>, Seq<char>>(b),
{
    let form = wire::counted(cells, wire::cell_item_wire());
    bytes::lemma_concat_empty(form);
    if wire::whole(wire::p_snapshot(b), b) == Ok::<Seq<Cell>, Seq<char>>(cells) {
        law_snapshot_cells_form(b);
        let t = wire::p_snapshot(b)->Ok_0.1;
        assert(t =~= Seq::<u8>::empty());
    }
    if wire::framed(snapshot_verdict(cells), form) == Ok::<Seq<u8>, Seq<char>>(b) {
        law_snapshot_cells_round_trip(cells, Seq::empty());
    }
}

// ---------------------------------------------------------------------------
// States.
// ---------------------------------------------------------------------------

proof fn lemma_receipt_form(s: Seq<u8>)
    ensures
        wire::p_receipt(s) matches Ok((r, t)) ==> s == wire::receipt_wire()(r) + t
            && wire::receipt_fits(r) is Ok,
{
    if wire::p_receipt(s) is Ok {
        let (r, t) = wire::p_receipt(s)->Ok_0;
        lemma_form_fixed::<32>(s, "receipt intent"@);
        let s1 = wire::p_fixed::<32>(s, "receipt intent"@)->Ok_0.1;
        lemma_form_fixed::<32>(s1, "receipt certificate digest"@);
        let s2 = wire::p_fixed::<32>(s1, "receipt certificate digest"@)->Ok_0.1;
        let max = wire::MAX_RECEIPT_OUTPUTS as nat;
        lemma_form_count(s2, max, "receipt output refs"@);
        let (n, s3) = wire::p_count(s2, max, "receipt output refs"@)->Ok_0;
        assert forall|u: Seq<u8>| (#[trigger] wire::ref_item()(u)) matches Ok((x, r)) ==> u
            == wire::ref_wire()(x) + r && any_item::<CellRef>()(x) by {
            law_cell_ref_form(u);
        }
        lemma_form_list(
            n,
            s3,
            Seq::empty(),
            wire::ref_item(),
            wire::no_clash(),
            Seq::empty(),
            wire::ref_wire(),
            any_item(),
        );
        assert(r.output_refs.subrange(0, r.output_refs.len() as int) =~= r.output_refs);
        let a = r.intent@;
        let b = r.certificate_digest@;
        let c = bytes::le32(n as u32);
        let d = bytes::flat(r.output_refs, wire::ref_wire());
        bytes::lemma_concat_assoc(a + b + c, d, t);
        bytes::lemma_concat_assoc(a + b, c, s3);
        bytes::lemma_concat_assoc(a, b, s2);
    }
}

/// An entry under the reference of its cell.
pub open spec fn live_entry() -> spec_fn((CellRef, Cell)) -> bool {
    |e: (CellRef, Cell)| e.0 == e.1.reference
}

/// A receipt that fits, under its intent.
pub open spec fn applied_entry() -> spec_fn((Digest, ReceiptModel)) -> bool {
    |e: (Digest, ReceiptModel)| e.0 == e.1.intent && wire::receipt_fits(e.1) is Ok
}

proof fn lemma_entries_form<T>(
    s: Seq<u8>,
    label: Seq<char>,
    item: spec_fn(Seq<u8>) -> Parsed<T>,
    clash: spec_fn(Seq<T>, T) -> bool,
    message: Seq<char>,
    form: spec_fn(T) -> Seq<u8>,
    kind: spec_fn(T) -> bool,
)
    requires
        takes_off(item, form, kind),
    ensures
        wire::p_entries(s, label, item, clash, message) matches Ok((xs, t)) ==> {
            &&& s == wire::counted(xs, form) + t
            &&& xs.len() <= MAX_COLLECTION_LEN
            &&& clash_free(xs, clash, 0)
            &&& forall|i: int| 0 <= i < xs.len() ==> kind(#[trigger] xs[i])
        },
{
    if wire::p_entries(s, label, item, clash, message) is Ok {
        let (xs, t) = wire::p_entries(s, label, item, clash, message)->Ok_0;
        lemma_form_count(s, MAX_COLLECTION_LEN as nat, label);
        let (n, s1) = wire::p_count(s, MAX_COLLECTION_LEN as nat, label)->Ok_0;
        lemma_form_list(n, s1, Seq::empty(), item, clash, message, form, kind);
        assert(xs.subrange(0, xs.len() as int) =~= xs);
        bytes::lemma_concat_assoc(bytes::le32(n as u32), bytes::flat(xs, form), t);
    }
}

proof fn lemma_entries_refused<T>(
    xs: Seq<T>,
    t: Seq<u8>,
    label: Seq<char>,
    item: spec_fn(Seq<u8>) -> Parsed<T>,
    clash: spec_fn(Seq<T>, T) -> bool,
    message: Seq<char>,
    form: spec_fn(T) -> Seq<u8>,
    at: int,
)
    requires
        xs.len() <= MAX_COLLECTION_LEN,
        forall|i: int|
            0 <= i < xs.len() ==> wire_laws::reads_back(item, form(#[trigger] xs[i]), xs[i]),
        0 <= at < xs.len(),
        clash(xs.subrange(0, at), xs[at]),
    ensures
        wire::p_entries(wire::counted(xs, form) + t, label, item, clash, message) == Err::<
            (Seq<T>, Seq<u8>),
            Seq<char>,
        >(message),
{
    let list = bytes::flat(xs, form);
    bytes::lemma_concat_assoc(bytes::le32(xs.len() as u32), list, t);
    wire_laws::lemma_read_count(xs.len(), list + t, MAX_COLLECTION_LEN as nat, label);
    assert(Seq::<T>::empty() + xs.subrange(0, at) =~= xs.subrange(0, at));
    lemma_clash_is_refused(xs, t, Seq::empty(), item, clash, message, form, at);
}

proof fn lemma_key_clashes<K, V>(xs: Seq<(K, V)>) -> (at: int)
    requires
        !wire::distinct_keys(xs),
    ensures
        0 <= at < xs.len(),
        wire::key_clash::<K, V>()(xs.subrange(0, at), xs[at]),
{
    let (i, j) = choose|i: int, j: int|
        0 <= i < j < xs.len() && (#[trigger] xs[i]).0 == (#[trigger] xs[j]).0;
    let before = xs.subrange(0, j);
    assert(before[i] == xs[i]);
    assert(ordmap::has_entry(before, xs[j].0));
    j
}

proof fn lemma_spent_read(e: (CellRef, Digest))
    ensures
        wire_laws::reads_back(wire::spent_item(), wire::spent_wire()(e), e),
{
    assert forall|u: Seq<u8>| #[trigger] wire::spent_item()(wire::spent_wire()(e) + u) == Ok::<
        ((CellRef, Digest), Seq<u8>),
        Seq<char>,
    >((e, u)) by {
        bytes::lemma_concat_assoc(model::ref_bytes(e.0), e.1@, u);
        wire_laws::law_cell_ref_round_trip(e.0, e.1@ + u);
        wire_laws::lemma_read_fixed::<32>(e.1, u, "spent-by intent"@);
    }
}

/// Every state that is read has its cells and its receipts under the keys that they
/// name, and every receipt fits.
pub proof fn law_read_state_has_matching_keys(s: Seq<u8>)
    ensures
        wire::p_state(s) matches Ok((x, _)) ==> {
            &&& forall|k: CellRef| #[trigger] x.live.contains_key(k) ==> x.live[k].reference == k
            &&& forall|k: Digest| #[trigger]
                x.applied.contains_key(k) ==> x.applied[k].intent == k && wire::receipt_fits(
                    x.applied[k],
                ) is Ok
        },
{
    if wire::p_state(s) is Ok {
        let (x, _) = wire::p_state(s)->Ok_0;
        let (live, s1) = wire::p_live(s)->Ok_0;
        let (spent, s2) = wire::p_spent(s1)->Ok_0;
        let (known, s3) = wire::p_known(s2)->Ok_0;
        let (applied, s4) = wire::p_applied(s3)->Ok_0;
        assert(takes_off(wire::live_item(), wire::live_wire(), live_entry())) by {
            assert forall|u: Seq<u8>| (#[trigger] wire::live_item()(u)) matches Ok((e, r)) ==> u
                == wire::live_wire()(e) + r && live_entry()(e) by {
                law_cell_form(u);
            }
        }
        assert(takes_off(wire::applied_item(), wire::applied_wire(), applied_entry())) by {
            assert forall|u: Seq<u8>| (#[trigger] wire::applied_item()(u)) matches Ok((e, r)) ==> u
                == wire::applied_wire()(e) + r && applied_entry()(e) by {
                lemma_receipt_form(u);
            }
        }
        lemma_entries_form(
            s,
            "live cells"@,
            wire::live_item(),
            wire::key_clash(),
            "duplicate live cell reference"@,
            wire::live_wire(),
            live_entry(),
        );
        lemma_entries_form(
            s3,
            "applied receipts"@,
            wire::applied_item(),
            wire::key_clash(),
            "duplicate applied receipt intent"@,
            wire::applied_wire(),
            applied_entry(),
        );
        assert forall|k: CellRef| #[trigger] x.live.contains_key(k) implies x.live[k].reference
            == k by {
            assert(ordmap::has_entry(live, k));
            let i = ordmap::entry_index(live, k);
            assert(live_entry()(live[i]));
        }
        assert forall|k: Digest| #[trigger] x.applied.contains_key(k) implies x.applied[k].intent
            == k && wire::receipt_fits(x.applied[k]) is Ok by {
            assert(ordmap::has_entry(applied, k));
            let i = ordmap::entry_index(applied, k);
            assert(applied_entry()(applied[i]));
        }
    }
}

/// Four lists, each behind its length, one after another: how a state is written.
pub open spec fn lists_wire(
    live: Seq<(CellRef, Cell)>,
    spent: Seq<(CellRef, Digest)>,
    known: Seq<Digest>,
    applied: Seq<(Digest, ReceiptModel)>,
) -> Seq<u8> {
    wire::counted(live, wire::live_wire()) + wire::counted(spent, wire::spent_wire())
        + wire::counted(known, wire::id_wire()) + wire::counted(applied, wire::applied_wire())
}

/// The entries of four lists are ones that a state can hold, apart from what occurs
/// twice.
pub open spec fn lists_fit(
    live: Seq<(CellRef, Cell)>,
    spent: Seq<(CellRef, Digest)>,
    known: Seq<Digest>,
    applied: Seq<(Digest, ReceiptModel)>,
) -> bool {
    &&& live.len() <= MAX_COLLECTION_LEN
    &&& spent.len() <= MAX_COLLECTION_LEN
    &&& known.len() <= MAX_COLLECTION_LEN
    &&& applied.len() <= MAX_COLLECTION_LEN
    &&& forall|i: int| 0 <= i < live.len() ==> live_entry()(#[trigger] live[i])
    &&& forall|i: int| 0 <= i < applied.len() ==> applied_entry()(#[trigger] applied[i])
}

/// The parser of a list reads what was written of it if nothing in it occurs twice,
/// and refuses it otherwise.
pub open spec fn reads_or_refuses<T>(p: Parsed<Seq<T>>, xs: Seq<T>, t: Seq<u8>, good: bool) -> bool {
    if good {
        p == Ok::<(Seq<T>, Seq<u8>), Seq<char>>((xs, t))
    } else {
        p is Err
    }
}

proof fn lemma_entries_read<K, V>(
    xs: Seq<(K, V)>,
    t: Seq<u8>,
    label: Seq<char>,
    item: spec_fn(Seq<u8>) -> Parsed<(K, V)>,
    message: Seq<char>,
    form: spec_fn((K, V)) -> Seq<u8>,
)
    requires
        xs.len() <= MAX_COLLECTION_LEN,
        forall|i: int|
            0 <= i < xs.len() ==> wire_laws::reads_back(item, form(#[trigger] xs[i]), xs[i]),
    ensures
        reads_or_refuses(
            wire::p_entries(wire::counted(xs, form) + t, label, item, wire::key_clash(), message),
            xs,
            t,
            wire::distinct_keys(xs),
        ),
{
    if wire::distinct_keys(xs) {
        assert forall|i: int| 0 <= i < xs.len() implies !wire::key_clash::<K, V>()(
            Seq::<(K, V)>::empty() + xs.subrange(0, i),
            #[trigger] xs[i],
        ) by {
            let acc = Seq::<(K, V)>::empty() + xs.subrange(0, i);
            if ordmap::has_entry(acc, xs[i].0) {
                let j = ordmap::entry_index(acc, xs[i].0);
                assert(acc[j] == xs[j]);
            }
        }
        wire_laws::lemma_read_list(xs, t, Seq::empty(), item, wire::key_clash(), message, form);
        assert(Seq::<(K, V)>::empty() + xs =~= xs);
        let list = bytes::flat(xs, form);
        bytes::lemma_concat_assoc(bytes::le32(xs.len() as u32), list, t);
        wire_laws::lemma_read_count(xs.len(), list + t, MAX_COLLECTION_LEN as nat, label);
    } else {
        let at = lemma_key_clashes(xs);
        lemma_entries_refused(xs, t, label, item, wire::key_clash(), message, form, at);
    }
}

proof fn lemma_known_read(known: Seq<Digest>, t: Seq<u8>)
    requires
        known.len() <= MAX_COLLECTION_LEN,
    ensures
        reads_or_refuses(
            wire::p_known(wire::counted(known, wire::id_wire()) + t),
            known,
            t,
            known.no_duplicates(),
        ),
{
    let message = "duplicate known cell id"@;
    assert forall|i: int| 0 <= i < known.len() implies wire_laws::reads_back(
        wire::id_item(),
        wire::id_wire()(#[trigger] known[i]),
        known[i],
    ) by {
        assert forall|u: Seq<u8>| #[trigger] wire::id_item()(wire::id_wire()(known[i]) + u) == Ok::<
            (Digest, Seq<u8>),
            Seq<char>,
        >((known[i], u)) by {
            wire_laws::lemma_read_fixed::<32>(known[i], u, "known cell id"@);
        }
    }
    if known.no_duplicates() {
        assert forall|i: int| 0 <= i < known.len() implies !wire::member_clash::<Digest>()(
            Seq::<Digest>::empty() + known.subrange(0, i),
            #[trigger] known[i],
        ) by {
            let acc = Seq::<Digest>::empty() + known.subrange(0, i);
            if acc.contains(known[i]) {
                let j = choose|j: int| 0 <= j < acc.len() && acc[j] == known[i];
                assert(acc[j] == known[j]);
            }
        }
        wire_laws::lemma_read_list(
            known,
            t,
            Seq::empty(),
            wire::id_item(),
            wire::member_clash(),
            message,
            wire::id_wire(),
        );
        assert(Seq::<Digest>::empty() + known =~= known);
        let list = bytes::flat(known, wire::id_wire());
        bytes::lemma_concat_assoc(bytes::le32(known.len() as u32), list, t);
        wire_laws::lemma_read_count(
            known.len(),
            list + t,
            MAX_COLLECTION_LEN as nat,
            "known cell ids"@,
        );
    } else {
        let (i, j) = choose|i: int, j: int|
            0 <= i < known.len() && 0 <= j < known.len() && i != j && known[i] == known[j];
        let (first, later) = if i < j {
            (i, j)
        } else {
            (j, i)
        };
        let before = known.subrange(0, later);
        assert(before[first] == known[later]);
        assert(before.contains(known[later]));
        lemma_entries_refused(
            known,
            t,
            "known cell ids"@,
            wire::id_item(),
            wire::member_clash(),
            message,
            wire::id_wire(),
            later,
        );
    }
}

/// Four lists are read as the state that they list exactly if nothing in them occurs
/// twice: a repeated reference, identifier or intent is refused, not overwritten.
pub proof fn law_repeated_key_is_refused(
    live: Seq<(CellRef, Cell)>,
    spent: Seq<(CellRef, Digest)>,
    known: Seq<Digest>,
    applied: Seq<(Digest, ReceiptModel)>,
    t: Seq<u8>,
)
    requires
        lists_fit(live, spent, known, applied),
    ensures
        ({
            let p = wire::p_state(lists_wire(live, spent, known, applied) + t);
            if wire::distinct_keys(live) && wire::distinct_keys(spent) && known.no_duplicates()
                && wire::distinct_keys(applied) {
                p == Ok::<(StateModel, Seq<u8>), Seq<char>>(
                    (
                        StateModel {
                            live: ordmap::map_of(live),
                            spent_by: ordmap::map_of(spent),
                            known_ids: known.to_set(),
                            applied: ordmap::map_of(applied),
                        },
                        t,
                    ),
                )
            } else {
                p is Err
            }
        }),
{
    let a = wire::counted(live, wire::live_wire());
    let b = wire::counted(spent, wire::spent_wire());
    let c = wire::counted(known, wire::id_wire());
    let d = wire::counted(applied, wire::applied_wire());
    bytes::lemma_concat_assoc(a + b + c, d, t);
    bytes::lemma_concat_assoc(a + b, c, d + t);
    bytes::lemma_concat_assoc(a, b, c + (d + t));
    assert forall|i: int| 0 <= i < live.len() implies wire_laws::reads_back(
        wire::live_item(),
        wire::live_wire()(#[trigger] live[i]),
        live[i],
    ) by {
        assert(live_entry()(live[i]));
        assert forall|u: Seq<u8>| #[trigger] wire::live_item()(wire::live_wire()(live[i]) + u)
            == Ok::<((CellRef, Cell), Seq<u8>), Seq<char>>((live[i], u)) by {
            wire_laws::law_cell_round_trip(live[i].1, u);
        }
    }
    assert forall|i: int| 0 <= i < spent.len() implies wire_laws::reads_back(
        wire::spent_item(),
        wire::spent_wire()(#[trigger] spent[i]),
        spent[i],
    ) by {
        lemma_spent_read(spent[i]);
    }
    assert forall|i: int| 0 <= i < applied.len() implies wire_laws::reads_back(
        wire::applied_item(),
        wire::applied_wire()(#[trigger] applied[i]),
        applied[i],
    ) by {
        assert(applied_entry()(applied[i]));
        assert forall|u: Seq<u8>| #[trigger]
            wire::applied_item()(wire::applied_wire()(applied[i]) + u) == Ok::<
                ((Digest, ReceiptModel), Seq<u8>),
                Seq<char>,
            >((applied[i], u)) by {
            wire_laws::lemma_receipt_round_trip(applied[i].1, u);
        }
    }
    lemma_entries_read(
        live,
        b + (c + (d + t)),
        "live cells"@,
        wire::live_item(),
        "duplicate live cell reference"@,
        wire::live_wire(),
    );
    lemma_entries_read(
        spent,
        c + (d + t),
        "spent cells"@,
        wire::spent_item(),
        "duplicate spent cell reference"@,
        wire::spent_wire(),
    );
    lemma_known_read(known, d + t);
    lemma_entries_read(
        applied,
        t,
        "applied receipts"@,
        wire::applied_item(),
        "duplicate applied receipt intent"@,
        wire::applied_wire(),
    );
}

/// Four lists with nothing in them twice are the lists of a state.
pub open spec fn lists_of(
    live: Seq<(CellRef, Cell)>,
    spent: Seq<(CellRef, Digest)>,
    known: Seq<Digest>,
    applied: Seq<(Digest, ReceiptModel)>,
    x: StateModel,
) -> bool {
    &&& lists_fit(live, spent, known, applied)
    &&& wire::distinct_keys(live)
    &&& wire::distinct_keys(spent)
    &&& known.no_duplicates()
    &&& wire::distinct_keys(applied)
    &&& x == (StateModel {
        live: ordmap::map_of(live),
        spent_by: ordmap::map_of(spent),
        known_ids: known.to_set(),
        applied: ordmap::map_of(applied),
    })
}

proof fn lemma_state_form(s: Seq<u8>)
    requires
        wire::p_state(s) is Ok,
    ensures
        ({
            let live = wire::p_live(s)->Ok_0;
            let spent = wire::p_spent(live.1)->Ok_0;
            let known = wire::p_known(spent.1)->Ok_0;
            let applied = wire::p_applied(known.1)->Ok_0;
            &&& lists_fit(live.0, spent.0, known.0, applied.0)
            &&& s == lists_wire(live.0, spent.0, known.0, applied.0) + applied.1
        }),
{
    let (live, s1) = wire::p_live(s)->Ok_0;
    let (spent, s2) = wire::p_spent(s1)->Ok_0;
    let (known, s3) = wire::p_known(s2)->Ok_0;
    let (applied, t) = wire::p_applied(s3)->Ok_0;
    assert forall|u: Seq<u8>| (#[trigger] wire::live_item()(u)) matches Ok((e, r)) ==> u
        == wire::live_wire()(e) + r && live_entry()(e) by {
        law_cell_form(u);
    }
    assert forall|u: Seq<u8>| (#[trigger] wire::spent_item()(u)) matches Ok((e, r)) ==> u
        == wire::spent_wire()(e) + r && any_item::<(CellRef, Digest)>()(e) by {
        law_cell_ref_form(u);
        if let Ok((reference, v)) = wire::p_cell_ref(u) {
            lemma_form_fixed::<32>(v, "spent-by intent"@);
            if let Ok((intent, r)) = wire::p_fixed::<32>(v, "spent-by intent"@) {
                bytes::lemma_concat_assoc(model::ref_bytes(reference), intent@, r);
            }
        }
    }
    assert forall|u: Seq<u8>| (#[trigger] wire::id_item()(u)) matches Ok((e, r)) ==> u
        == wire::id_wire()(e) + r && any_item::<Digest>()(e) by {
        lemma_form_fixed::<32>(u, "known cell id"@);
    }
    assert forall|u: Seq<u8>| (#[trigger] wire::applied_item()(u)) matches Ok((e, r)) ==> u
        == wire::applied_wire()(e) + r && applied_entry()(e) by {
        lemma_receipt_form(u);
    }
    lemma_entries_form(
        s,
        "live cells"@,
        wire::live_item(),
        wire::key_clash(),
        "duplicate live cell reference"@,
        wire::live_wire(),
        live_entry(),
    );
    lemma_entries_form(
        s1,
        "spent cells"@,
        wire::spent_item(),
        wire::key_clash(),
        "duplicate spent cell reference"@,
        wire::spent_wire(),
        any_item(),
    );
    lemma_entries_form(
        s2,
        "known cell ids"@,
        wire::id_item(),
        wire::member_clash(),
        "duplicate known cell id"@,
        wire::id_wire(),
        any_item(),
    );
    lemma_entries_form(
        s3,
        "applied receipts"@,
        wire::applied_item(),
        wire::key_clash(),
        "duplicate applied receipt intent"@,
        wire::applied_wire(),
        applied_entry(),
    );
    let a = wire::counted(live, wire::live_wire());
    let b = wire::counted(spent, wire::spent_wire());
    let c = wire::counted(known, wire::id_wire());
    let d = wire::counted(applied, wire::applied_wire());
    bytes::lemma_concat_assoc(a + b + c, d, t);
    bytes::lemma_concat_assoc(a + b, c, d + t);
    bytes::lemma_concat_assoc(a, b, c + (d + t));
}

/// Bytes are read as a state exactly if they start with four lists of it, each behind
/// its length, in which nothing occurs twice; what follows the lists is left over. So
/// bytes that are cut short, of too large a count, with a cell or a receipt under a key
/// that is not its own or with anything twice are refused.
pub proof fn law_state_is_read_from_its_lists(s: Seq<u8>, x: StateModel, t: Seq<u8>)
    ensures
        wire::p_state(s) == Ok::<(StateModel, Seq<u8>), Seq<char>>((x, t)) <==> exists|
            live: Seq<(CellRef, Cell)>,
            spent: Seq<(CellRef, Digest)>,
            known: Seq<Digest>,
            applied: Seq<(Digest, ReceiptModel)>,
        |
            #[trigger] lists_of(live, spent, known, applied, x) && s == lists_wire(
                live,
                spent,
                known,
                applied,
            ) + t,
{
    if wire::p_state(s) == Ok::<(StateModel, Seq<u8>), Seq<char>>((x, t)) {
        let (live, s1) = wire::p_live(s)->Ok_0;
        let (spent, s2) = wire::p_spent(s1)->Ok_0;
        let (known, s3) = wire::p_known(s2)->Ok_0;
        let (applied, s4) = wire::p_applied(s3)->Ok_0;
        lemma_state_form(s);
        law_repeated_key_is_refused(live, spent, known, applied, t);
        assert(lists_of(live, spent, known, applied, x));
    }
    if exists|
        live: Seq<(CellRef, Cell)>,
        spent: Seq<(CellRef, Digest)>,
        known: Seq<Digest>,
        applied: Seq<(Digest, ReceiptModel)>,
    |
        #[trigger] lists_of(live, spent, known, applied, x) && s == lists_wire(
            live,
            spent,
            known,
            applied,
        ) + t {
        let (live, spent, known, applied) = choose|
            live: Seq<(CellRef, Cell)>,
            spent: Seq<(CellRef, Digest)>,
            known: Seq<Digest>,
            applied: Seq<(Digest, ReceiptModel)>,
        |
            #[trigger] lists_of(live, spent, known, applied, x) && s == lists_wire(
                live,
                spent,
                known,
                applied,
            ) + t;
        law_repeated_key_is_refused(live, spent, known, applied, t);
    }
}

} // verus!
