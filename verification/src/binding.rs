//! What signatures and digests bind: the bytes that are signed or hashed determine
//! every field that went into them.
use crate::bytes;
use crate::crypto;
use crate::crypto::{Digest, PublicKeyBytes};
use crate::model;
use crate::model::{
    Cell, CellRef, CommitteeMember, ManifestModel, Output, ReceiptModel, StateModel, Statement,
    TxModel, Vote,
};
use crate::ordmap;
use crate::spend;
use crate::spend::{InputRef, SpendModel};
use crate::state;
use vstd::prelude::*;

verus! {

/// Two joined byte strings whose first parts are equally long have equal parts.
proof fn lemma_heads(x: Seq<u8>, y: Seq<u8>, u: Seq<u8>, v: Seq<u8>)
    requires
        x + y == u + v,
        x.len() == u.len(),
    ensures
        x == u,
        y == v,
{
    assert((x + y).len() == (u + v).len());
    assert(x =~= (x + y).subrange(0, x.len() as int));
    assert(u =~= (u + v).subrange(0, x.len() as int));
    assert(y =~= (x + y).subrange(x.len() as int, (x + y).len() as int));
    assert(v =~= (u + v).subrange(x.len() as int, (x + y).len() as int));
}

/// The same, where the last parts are equally long.
proof fn lemma_tails(x: Seq<u8>, y: Seq<u8>, u: Seq<u8>, v: Seq<u8>)
    requires
        x + y == u + v,
        y.len() == v.len(),
    ensures
        x == u,
        y == v,
{
    assert((x + y).len() == x.len() + y.len());
    assert((u + v).len() == u.len() + v.len());
    lemma_heads(x, y, u, v);
}

proof fn lemma_same16(a: u16, b: u16)
    requires
        bytes::le16(a) == bytes::le16(b),
    ensures
        a == b,
{
    bytes::lemma_le16(a);
    bytes::lemma_le16(b);
}

proof fn lemma_same32(a: u32, b: u32)
    requires
        bytes::le32(a) == bytes::le32(b),
    ensures
        a == b,
{
    bytes::lemma_le32(a);
    bytes::lemma_le32(b);
}

proof fn lemma_same64(a: u64, b: u64)
    requires
        bytes::le64(a) == bytes::le64(b),
    ensures
        a == b,
{
    bytes::lemma_le64(a);
    bytes::lemma_le64(b);
}

/// Takes a 64-bit number off the end.
proof fn lemma_off64(x: Seq<u8>, a: u64, u: Seq<u8>, b: u64)
    requires
        x + bytes::le64(a) == u + bytes::le64(b),
    ensures
        x == u,
        a == b,
{
    bytes::lemma_le64(a);
    bytes::lemma_le64(b);
    lemma_tails(x, bytes::le64(a), u, bytes::le64(b));
}

/// Takes a 32-bit number off the end.
proof fn lemma_off32(x: Seq<u8>, a: u32, u: Seq<u8>, b: u32)
    requires
        x + bytes::le32(a) == u + bytes::le32(b),
    ensures
        x == u,
        a == b,
{
    bytes::lemma_le32(a);
    bytes::lemma_le32(b);
    lemma_tails(x, bytes::le32(a), u, bytes::le32(b));
}

/// Takes a byte off the end.
proof fn lemma_off8(x: Seq<u8>, a: u8, u: Seq<u8>, b: u8)
    requires
        x + seq![a] == u + seq![b],
    ensures
        x == u,
        a == b,
{
    lemma_tails(x, seq![a], u, seq![b]);
    assert(seq![a][0] == seq![b][0]);
}

/// Takes an array off the end.
proof fn lemma_off_array<const L: usize>(x: Seq<u8>, a: [u8; L], u: Seq<u8>, b: [u8; L])
    requires
        x + a@ == u + b@,
    ensures
        x == u,
        a == b,
{
    lemma_tails(x, a@, u, b@);
    bytes::lemma_array_eq(a, b);
}

/// The bytes of lists of one length are the same only if the lists are, provided that
/// their elements can be told apart however they are continued.
proof fn lemma_lists<T>(
    a: Seq<T>,
    b: Seq<T>,
    f: spec_fn(T) -> Seq<u8>,
    p: Seq<u8>,
    q: Seq<u8>,
    k: int,
)
    requires
        a.len() == b.len(),
        0 <= k <= a.len(),
        bytes::flat(a.subrange(k, a.len() as int), f) + p == bytes::flat(b.subrange(k, b.len() as int), f) + q,
        forall|i: int, r: Seq<u8>, s: Seq<u8>|
            0 <= i < a.len() && #[trigger] (f(a[i]) + r) == #[trigger] (f(b[i]) + s) ==> a[i]
                == b[i] && r == s,
    ensures
        forall|i: int| k <= i < a.len() ==> a[i] == b[i],
        p == q,
    decreases a.len() - k,
{
    let (x, y) = (a.subrange(k, a.len() as int), b.subrange(k, b.len() as int));
    if k == a.len() {
        assert(x =~= Seq::<T>::empty());
        assert(y =~= Seq::<T>::empty());
        assert(bytes::flat(x, f) + p =~= p);
        assert(bytes::flat(y, f) + q =~= q);
    } else {
        let (u, v) = (a.subrange(k + 1, a.len() as int), b.subrange(k + 1, b.len() as int));
        bytes::lemma_flat_first(x, f);
        bytes::lemma_flat_first(y, f);
        assert(x.subrange(1, x.len() as int) =~= u);
        assert(y.subrange(1, y.len() as int) =~= v);
        assert(x[0] == a[k] && y[0] == b[k]);
        assert(bytes::flat(x, f) + p =~= f(a[k]) + (bytes::flat(u, f) + p));
        assert(bytes::flat(y, f) + q =~= f(b[k]) + (bytes::flat(v, f) + q));
        lemma_lists(a, b, f, p, q, k + 1);
    }
}

/// The same, with the count of the elements before them.
proof fn lemma_counted<T>(
    a: Seq<T>,
    b: Seq<T>,
    f: spec_fn(T) -> Seq<u8>,
    p: Seq<u8>,
    q: Seq<u8>,
)
    requires
        bytes::le32(a.len() as u32) + bytes::flat(a, f) + p == bytes::le32(b.len() as u32) + bytes::flat(b, f) + q,
        a.len() <= u32::MAX,
        b.len() <= u32::MAX,
        forall|i: int, r: Seq<u8>, s: Seq<u8>|
            0 <= i < a.len() && a.len() == b.len() && #[trigger] (f(a[i]) + r) == #[trigger] (f(
                b[i],
            ) + s) ==> a[i] == b[i] && r == s,
    ensures
        a == b,
        p == q,
{
    let (n, m) = (bytes::le32(a.len() as u32), bytes::le32(b.len() as u32));
    bytes::lemma_le32(a.len() as u32);
    bytes::lemma_le32(b.len() as u32);
    assert(n + bytes::flat(a, f) + p =~= n + (bytes::flat(a, f) + p));
    assert(m + bytes::flat(b, f) + q =~= m + (bytes::flat(b, f) + q));
    lemma_heads(n, bytes::flat(a, f) + p, m, bytes::flat(b, f) + q);
    lemma_same32(a.len() as u32, b.len() as u32);
    assert(a.subrange(0, a.len() as int) =~= a);
    assert(b.subrange(0, b.len() as int) =~= b);
    lemma_lists(a, b, f, p, q, 0);
    assert(a =~= b);
}

proof fn lemma_ref(a: CellRef, b: CellRef)
    requires
        model::ref_bytes(a) == model::ref_bytes(b),
    ensures
        a == b,
{
    lemma_off64(bytes::le32(a.asset_id) + a.id@, a.generation, bytes::le32(b.asset_id) + b.id@, b.generation);
    lemma_off_array(bytes::le32(a.asset_id), a.id, bytes::le32(b.asset_id), b.id);
    lemma_same32(a.asset_id, b.asset_id);
}

proof fn lemma_ref_len(a: CellRef)
    ensures
        model::ref_bytes(a).len() == 44,
{
    bytes::lemma_le32(a.asset_id);
    bytes::lemma_le64(a.generation);
}

/// A conflict key is taken of every part of a reference.
pub proof fn law_conflict_key_binds_the_cell(a: CellRef, b: CellRef)
    requires
        model::ref_bytes(a) == model::ref_bytes(b),
    ensures
        a == b,
{
    lemma_ref(a, b);
}

/// The digest of a cell binds its reference, its amount, its owner and its
/// predecessor.
pub proof fn law_cell_digest_binds_the_cell(a: Cell, b: Cell)
    requires
        model::ref_bytes(a.reference) + bytes::le64(a.amount) + a.owner@ + a.predecessor@ == model::ref_bytes(
            b.reference,
        ) + bytes::le64(b.amount) + b.owner@ + b.predecessor@,
    ensures
        a.reference == b.reference,
        a.amount == b.amount,
        a.owner == b.owner,
        a.predecessor == b.predecessor,
{
    let (x, y) = (model::ref_bytes(a.reference), model::ref_bytes(b.reference));
    lemma_off_array(
        x + bytes::le64(a.amount) + a.owner@,
        a.predecessor,
        y + bytes::le64(b.amount) + b.owner@,
        b.predecessor,
    );
    lemma_off_array(x + bytes::le64(a.amount), a.owner, y + bytes::le64(b.amount), b.owner);
    lemma_off64(x, a.amount, y, b.amount);
    lemma_ref(a.reference, b.reference);
}

proof fn lemma_output_apart(a: Output, b: Output, r: Seq<u8>, s: Seq<u8>)
    requires
        model::output_bytes()(a) + r == model::output_bytes()(b) + s,
    ensures
        a == b,
        r == s,
{
    let (x, y) = (model::output_bytes()(a), model::output_bytes()(b));
    bytes::lemma_le32(a.asset_id);
    bytes::lemma_le32(b.asset_id);
    bytes::lemma_le64(a.amount);
    bytes::lemma_le64(b.amount);
    lemma_heads(x, r, y, s);
    lemma_off_array(
        bytes::le32(a.asset_id) + bytes::le64(a.amount),
        a.owner,
        bytes::le32(b.asset_id) + bytes::le64(b.amount),
        b.owner,
    );
    lemma_off64(bytes::le32(a.asset_id), a.amount, bytes::le32(b.asset_id), b.amount);
    lemma_same32(a.asset_id, b.asset_id);
}

/// The bytes of a transaction before its outputs.
spec fn intent_head(tx: TxModel) -> Seq<u8> {
    bytes::le16(tx.version) + bytes::le32(tx.network_id) + bytes::le64(tx.epoch) + tx.committee_hash@ + model::ref_bytes(
        tx.input.reference,
    ) + bytes::le64(tx.input.amount) + tx.input.owner@ + tx.input.predecessor@ + tx.input.state_digest@
}

proof fn lemma_intent_head_len(tx: TxModel)
    ensures
        intent_head(tx).len() == 194,
{
    bytes::lemma_le16(tx.version);
    bytes::lemma_le32(tx.network_id);
    bytes::lemma_le64(tx.epoch);
    lemma_ref_len(tx.input.reference);
    bytes::lemma_le64(tx.input.amount);
}

proof fn lemma_intent_head(a: TxModel, b: TxModel)
    requires
        intent_head(a) == intent_head(b),
    ensures
        a.version == b.version,
        a.network_id == b.network_id,
        a.epoch == b.epoch,
        a.committee_hash == b.committee_hash,
        a.input == b.input,
{
    let (a1, b1) = (bytes::le16(a.version), bytes::le16(b.version));
    let (a2, b2) = (a1 + bytes::le32(a.network_id), b1 + bytes::le32(b.network_id));
    let (a3, b3) = (a2 + bytes::le64(a.epoch), b2 + bytes::le64(b.epoch));
    let (a4, b4) = (a3 + a.committee_hash@, b3 + b.committee_hash@);
    let (a5, b5) = (a4 + model::ref_bytes(a.input.reference), b4 + model::ref_bytes(b.input.reference));
    let (a6, b6) = (a5 + bytes::le64(a.input.amount), b5 + bytes::le64(b.input.amount));
    let (a7, b7) = (a6 + a.input.owner@, b6 + b.input.owner@);
    let (a8, b8) = (a7 + a.input.predecessor@, b7 + b.input.predecessor@);
    lemma_off_array(a8, a.input.state_digest, b8, b.input.state_digest);
    lemma_off_array(a7, a.input.predecessor, b7, b.input.predecessor);
    lemma_off_array(a6, a.input.owner, b6, b.input.owner);
    lemma_off64(a5, a.input.amount, b5, b.input.amount);
    lemma_ref_len(a.input.reference);
    lemma_ref_len(b.input.reference);
    lemma_tails(a4, model::ref_bytes(a.input.reference), b4, model::ref_bytes(b.input.reference));
    lemma_ref(a.input.reference, b.input.reference);
    lemma_off_array(a3, a.committee_hash, b3, b.committee_hash);
    lemma_off64(a2, a.epoch, b2, b.epoch);
    lemma_off32(a1, a.network_id, b1, b.network_id);
    lemma_same16(a.version, b.version);
}

/// An intent binds the whole transfer: the bytes that the owner signs the digest of
/// are those of no other transfer.
pub proof fn law_intent_binds_the_transfer(a: TxModel, b: TxModel)
    requires
        model::intent_bytes(a) == model::intent_bytes(b),
        a.outputs.len() <= 8,
        b.outputs.len() <= 8,
    ensures
        a == b,
{
    let (x, y) = (intent_head(a), intent_head(b));
    let (n, m) = (bytes::le32(a.outputs.len() as u32), bytes::le32(b.outputs.len() as u32));
    let (u, v) = (bytes::flat(a.outputs, model::output_bytes()), bytes::flat(b.outputs, model::output_bytes()));
    lemma_off_array(x + n + u + bytes::le64(a.fee), a.salt, y + m + v + bytes::le64(b.fee), b.salt);
    lemma_off64(x + n + u, a.fee, y + m + v, b.fee);
    lemma_intent_head_len(a);
    lemma_intent_head_len(b);
    let none = Seq::<u8>::empty();
    assert(x + n + u =~= x + (n + u + none));
    assert(y + m + v =~= y + (m + v + none));
    lemma_heads(x, n + u + none, y, m + v + none);
    lemma_intent_head(a, b);
    assert forall|i: int, r: Seq<u8>, s: Seq<u8>|
        0 <= i < a.outputs.len() && a.outputs.len() == b.outputs.len() && #[trigger] (
        model::output_bytes()(a.outputs[i]) + r) == #[trigger] (model::output_bytes()(b.outputs[i])
            + s) implies a.outputs[i] == b.outputs[i] && r == s by {
        lemma_output_apart(a.outputs[i], b.outputs[i], r, s);
    }
    lemma_counted(a.outputs, b.outputs, model::output_bytes(), none, none);
}

proof fn lemma_member_apart(a: CommitteeMember, b: CommitteeMember, r: Seq<u8>, s: Seq<u8>)
    requires
        model::member_bytes()(a) + r == model::member_bytes()(b) + s,
    ensures
        a == b,
        r == s,
{
    lemma_heads(model::member_bytes()(a), r, model::member_bytes()(b), s);
    lemma_off_array(seq![a.index], a.public_key, seq![b.index], b.public_key);
    assert(seq![a.index][0] == seq![b.index][0]);
}

/// The digest of a committee binds its network, its epoch, its threshold and its
/// members in their order.
pub proof fn law_committee_digest_binds_the_committee(a: ManifestModel, b: ManifestModel)
    requires
        model::committee_bytes(a) == model::committee_bytes(b),
        a.members.len() <= u32::MAX,
        b.members.len() <= u32::MAX,
    ensures
        a == b,
{
    let version = bytes::le16(crate::model::PROTOCOL_VERSION);
    bytes::lemma_le16(crate::model::PROTOCOL_VERSION);
    let (a1, b1) = (version + bytes::le32(a.network_id), version + bytes::le32(b.network_id));
    let (a2, b2) = (a1 + bytes::le64(a.epoch), b1 + bytes::le64(b.epoch));
    let (a3, b3) = (a2 + seq![a.threshold], b2 + seq![b.threshold]);
    let (n, m) = (bytes::le32(a.members.len() as u32), bytes::le32(b.members.len() as u32));
    let (u, v) = (bytes::flat(a.members, model::member_bytes()), bytes::flat(b.members, model::member_bytes()));
    let none = Seq::<u8>::empty();
    assert(a3 + n + u =~= a3 + (n + u + none));
    assert(b3 + m + v =~= b3 + (m + v + none));
    bytes::lemma_le32(a.network_id);
    bytes::lemma_le32(b.network_id);
    bytes::lemma_le64(a.epoch);
    bytes::lemma_le64(b.epoch);
    lemma_heads(a3, n + u + none, b3, m + v + none);
    lemma_off8(a2, a.threshold, b2, b.threshold);
    lemma_off64(a1, a.epoch, b1, b.epoch);
    lemma_off32(version, a.network_id, version, b.network_id);
    assert forall|i: int, r: Seq<u8>, s: Seq<u8>|
        0 <= i < a.members.len() && a.members.len() == b.members.len() && #[trigger] (
        model::member_bytes()(a.members[i]) + r) == #[trigger] (model::member_bytes()(b.members[i])
            + s) implies a.members[i] == b.members[i] && r == s by {
        lemma_member_apart(a.members[i], b.members[i], r, s);
    }
    lemma_counted(a.members, b.members, model::member_bytes(), none, none);
}

/// A vote binds its committee's digest, its network and epoch, its phase and round,
/// the conflict, the intent, the justification and its signer.
pub proof fn law_vote_binds_its_statement(m: ManifestModel, n: ManifestModel, v: Vote, w: Vote)
    requires
        model::vote_bytes(m, v.phase, v.round, v.conflict_key, v.intent, v.justify, v.signer_index)
            == model::vote_bytes(n, w.phase, w.round, w.conflict_key, w.intent, w.justify, w.signer_index),
    ensures
        m.network_id == n.network_id,
        m.epoch == n.epoch,
        model::committee_digest(m) == model::committee_digest(n),
        v.phase == w.phase,
        v.round == w.round,
        v.conflict_key == w.conflict_key,
        v.intent == w.intent,
        v.justify == w.justify,
        v.signer_index == w.signer_index,
{
    let version = bytes::le16(crate::model::PROTOCOL_VERSION);
    let (a1, b1) = (version + bytes::le32(m.network_id), version + bytes::le32(n.network_id));
    let (a2, b2) = (a1 + bytes::le64(m.epoch), b1 + bytes::le64(n.epoch));
    let (a3, b3) = (a2 + model::committee_digest(m)@, b2 + model::committee_digest(n)@);
    let (a4, b4) = (a3 + seq![v.phase], b3 + seq![w.phase]);
    let (a5, b5) = (a4 + bytes::le64(v.round), b4 + bytes::le64(w.round));
    let (a6, b6) = (a5 + v.conflict_key@, b5 + w.conflict_key@);
    let (a7, b7) = (a6 + v.intent@, b6 + w.intent@);
    let (a8, b8) = (a7 + v.justify@, b7 + w.justify@);
    lemma_off8(a8, v.signer_index, b8, w.signer_index);
    lemma_off_array(a7, v.justify, b7, w.justify);
    lemma_off_array(a6, v.intent, b6, w.intent);
    lemma_off_array(a5, v.conflict_key, b5, w.conflict_key);
    lemma_off64(a4, v.round, b4, w.round);
    lemma_off8(a3, v.phase, b3, w.phase);
    lemma_off_array(a2, model::committee_digest(m), b2, model::committee_digest(n));
    lemma_off64(a1, m.epoch, b1, n.epoch);
    lemma_off32(version, m.network_id, version, n.network_id);
}

/// The activation of a genesis binds the committee, the epoch and the state.
pub proof fn law_activation_binds_the_genesis(
    committee: Digest,
    epoch: u64,
    root: Digest,
    other_committee: Digest,
    other_epoch: u64,
    other_root: Digest,
)
    requires
        committee@ + bytes::le64(epoch) + root@ == other_committee@ + bytes::le64(other_epoch) + other_root@,
    ensures
        committee == other_committee,
        epoch == other_epoch,
        root == other_root,
{
    lemma_off_array(
        committee@ + bytes::le64(epoch),
        root,
        other_committee@ + bytes::le64(other_epoch),
        other_root,
    );
    lemma_off64(committee@, epoch, other_committee@, other_epoch);
    bytes::lemma_array_eq(committee, other_committee);
}

proof fn lemma_input_apart(a: InputRef, b: InputRef, r: Seq<u8>, s: Seq<u8>)
    requires
        spend::input_bytes()(a) + r == spend::input_bytes()(b) + s,
    ensures
        a == b,
        r == s,
{
    bytes::lemma_le64(a.id);
    bytes::lemma_le64(b.id);
    bytes::lemma_le64(a.generation);
    bytes::lemma_le64(b.generation);
    lemma_heads(spend::input_bytes()(a), r, spend::input_bytes()(b), s);
    lemma_off64(bytes::le64(a.id), a.generation, bytes::le64(b.id), b.generation);
    lemma_same64(a.id, b.id);
}

/// An owner's signature binds the whole spend: its network and number, its inputs in
/// their order, the output, the recipient, the amount and the expiry.
pub proof fn law_signature_binds_the_spend(domain: Seq<char>, a: SpendModel, b: SpendModel)
    requires
        spend::user_message(domain, a) == spend::user_message(domain, b),
        a.inputs.len() <= u64::MAX,
        b.inputs.len() <= u64::MAX,
    ensures
        a == b,
{
    let tag = crypto::ascii(domain);
    lemma_heads(tag, spend::spend_bytes(a), tag, spend::spend_bytes(b));
    let (a1, b1) = (
        bytes::le32(a.network_id) + bytes::le64(a.tx_id),
        bytes::le32(b.network_id) + bytes::le64(b.tx_id),
    );
    let (n, m) = (bytes::le64(a.inputs.len() as u64), bytes::le64(b.inputs.len() as u64));
    let (u, v) = (bytes::flat(a.inputs, spend::input_bytes()), bytes::flat(b.inputs, spend::input_bytes()));
    let (a2, b2) = (a1 + n + u + bytes::le64(a.output_id), b1 + m + v + bytes::le64(b.output_id));
    let (a3, b3) = (a2 + a.recipient@, b2 + b.recipient@);
    let (a4, b4) = (a3 + bytes::le64(a.output_value), b3 + bytes::le64(b.output_value));
    lemma_off64(a4, a.expiry, b4, b.expiry);
    lemma_off64(a3, a.output_value, b3, b.output_value);
    lemma_off_array(a2, a.recipient, b2, b.recipient);
    lemma_off64(a1 + n + u, a.output_id, b1 + m + v, b.output_id);
    let none = Seq::<u8>::empty();
    bytes::lemma_le32(a.network_id);
    bytes::lemma_le32(b.network_id);
    bytes::lemma_le64(a.tx_id);
    bytes::lemma_le64(b.tx_id);
    bytes::lemma_le64(a.inputs.len() as u64);
    bytes::lemma_le64(b.inputs.len() as u64);
    assert(a1 + n + u =~= a1 + (n + (u + none)));
    assert(b1 + m + v =~= b1 + (m + (v + none)));
    lemma_heads(a1, n + (u + none), b1, m + (v + none));
    lemma_heads(n, u + none, m, v + none);
    lemma_same64(a.inputs.len() as u64, b.inputs.len() as u64);
    lemma_off64(bytes::le32(a.network_id), a.tx_id, bytes::le32(b.network_id), b.tx_id);
    lemma_same32(a.network_id, b.network_id);
    assert forall|i: int, r: Seq<u8>, s: Seq<u8>|
        0 <= i < a.inputs.len() && #[trigger] (spend::input_bytes()(a.inputs[i]) + r) == #[trigger] (
        spend::input_bytes()(b.inputs[i]) + s) implies a.inputs[i] == b.inputs[i] && r == s by {
        lemma_input_apart(a.inputs[i], b.inputs[i], r, s);
    }
    assert(a.inputs.subrange(0, a.inputs.len() as int) =~= a.inputs);
    assert(b.inputs.subrange(0, b.inputs.len() as int) =~= b.inputs);
    lemma_lists(a.inputs, b.inputs, spend::input_bytes(), none, none, 0);
    assert(a.inputs =~= b.inputs);
}

/// A share of a certificate binds the epoch, the commitment to the spend and the
/// owner that it names.
pub proof fn law_share_binds_its_claim(
    domain: Seq<char>,
    tx: Digest,
    signer: PublicKeyBytes,
    epoch: u64,
    other_tx: Digest,
    other_signer: PublicKeyBytes,
    other_epoch: u64,
)
    requires
        spend::share_message_bytes(domain, tx, signer, epoch) == spend::share_message_bytes(
            domain,
            other_tx,
            other_signer,
            other_epoch,
        ),
    ensures
        tx == other_tx,
        signer == other_signer,
        epoch == other_epoch,
{
    let tag = crypto::ascii(domain);
    lemma_off_array(
        tag + bytes::le64(epoch) + tx@,
        signer,
        tag + bytes::le64(other_epoch) + other_tx@,
        other_signer,
    );
    lemma_off_array(tag + bytes::le64(epoch), tx, tag + bytes::le64(other_epoch), other_tx);
    lemma_off64(tag, epoch, tag, other_epoch);
}

proof fn lemma_live_apart(a: (CellRef, Cell), b: (CellRef, Cell), r: Seq<u8>, s: Seq<u8>)
    requires
        state::live_bytes()(a) + r == state::live_bytes()(b) + s,
        a.1.reference == a.0,
        b.1.reference == b.0,
    ensures
        a == b,
        r == s,
{
    lemma_ref_len(a.0);
    lemma_ref_len(b.0);
    bytes::lemma_le64(a.1.amount);
    bytes::lemma_le64(b.1.amount);
    lemma_heads(state::live_bytes()(a), r, state::live_bytes()(b), s);
    let (x, y) = (model::ref_bytes(a.0), model::ref_bytes(b.0));
    let (a1, b1) = (x + bytes::le64(a.1.amount), y + bytes::le64(b.1.amount));
    let (a2, b2) = (a1 + a.1.owner@, b1 + b.1.owner@);
    lemma_off_array(
        a2 + a.1.predecessor@,
        a.1.state_digest,
        b2 + b.1.predecessor@,
        b.1.state_digest,
    );
    lemma_off_array(a2, a.1.predecessor, b2, b.1.predecessor);
    lemma_off_array(a1, a.1.owner, b1, b.1.owner);
    lemma_off64(x, a.1.amount, y, b.1.amount);
    lemma_ref(a.0, b.0);
}

proof fn lemma_spent_apart(a: (CellRef, Digest), b: (CellRef, Digest), r: Seq<u8>, s: Seq<u8>)
    requires
        state::spent_bytes()(a) + r == state::spent_bytes()(b) + s,
    ensures
        a == b,
        r == s,
{
    lemma_ref_len(a.0);
    lemma_ref_len(b.0);
    lemma_heads(state::spent_bytes()(a), r, state::spent_bytes()(b), s);
    lemma_off_array(model::ref_bytes(a.0), a.1, model::ref_bytes(b.0), b.1);
    lemma_ref(a.0, b.0);
}

proof fn lemma_ref_apart(a: CellRef, b: CellRef, r: Seq<u8>, s: Seq<u8>)
    requires
        state::output_ref_bytes()(a) + r == state::output_ref_bytes()(b) + s,
    ensures
        a == b,
        r == s,
{
    lemma_ref_len(a);
    lemma_ref_len(b);
    lemma_heads(model::ref_bytes(a), r, model::ref_bytes(b), s);
    lemma_ref(a, b);
}

proof fn lemma_receipt_apart(
    a: (Digest, ReceiptModel),
    b: (Digest, ReceiptModel),
    r: Seq<u8>,
    s: Seq<u8>,
)
    requires
        state::receipt_bytes()(a) + r == state::receipt_bytes()(b) + s,
        a.1.intent == a.0,
        b.1.intent == b.0,
        a.1.output_refs.len() <= u32::MAX,
        b.1.output_refs.len() <= u32::MAX,
    ensures
        a == b,
        r == s,
{
    let (x, y) = (a.0@ + a.1.certificate_digest@, b.0@ + b.1.certificate_digest@);
    let (c, d) = (a.1.output_refs, b.1.output_refs);
    let (n, m) = (bytes::le32(c.len() as u32), bytes::le32(d.len() as u32));
    let (u, v) = (bytes::flat(c, state::output_ref_bytes()), bytes::flat(d, state::output_ref_bytes()));
    assert(state::receipt_bytes()(a) + r =~= x + (n + u + r));
    assert(state::receipt_bytes()(b) + s =~= y + (m + v + s));
    lemma_heads(x, n + u + r, y, m + v + s);
    lemma_off_array(a.0@, a.1.certificate_digest, b.0@, b.1.certificate_digest);
    bytes::lemma_array_eq(a.0, b.0);
    assert forall|i: int, p: Seq<u8>, q: Seq<u8>|
        0 <= i < c.len() && c.len() == d.len() && #[trigger] (state::output_ref_bytes()(c[i]) + p)
            == #[trigger] (state::output_ref_bytes()(d[i]) + q) implies c[i] == d[i] && p == q by {
        lemma_ref_apart(c[i], d[i], p, q);
    }
    lemma_counted(c, d, state::output_ref_bytes(), r, s);
    assert(a.1 == b.1);
}

proof fn lemma_id_apart(a: Digest, b: Digest, r: Seq<u8>, s: Seq<u8>)
    requires
        state::id_bytes()(a) + r == state::id_bytes()(b) + s,
    ensures
        a == b,
        r == s,
{
    lemma_heads(a@, r, b@, s);
    bytes::lemma_array_eq(a, b);
}

/// The parts of a state that are hashed fit their counts.
pub open spec fn counts_fit_root(s: StateModel) -> bool {
    &&& s.live.len() <= u32::MAX
    &&& s.spent_by.len() <= u32::MAX
    &&& s.known_ids.len() <= u32::MAX
    &&& s.applied.len() <= u32::MAX
    &&& forall|d: Digest| #[trigger]
        s.applied.contains_key(d) ==> s.applied[d].output_refs.len() <= u32::MAX
}

/// The set as the map that lists it.
spec fn keyed(s: Set<Digest>) -> Map<Digest, ()> {
    Map::new(|k: Digest| s.contains(k), |k: Digest| ())
}

proof fn lemma_members(s: Set<Digest>)
    requires
        s.finite(),
    ensures
        ordmap::members(s).len() == s.len(),
        forall|k: Digest| #[trigger] s.contains(k) <==> ordmap::members(s).contains(k),
{
    let map = keyed(s);
    assert(map.dom() =~= s);
    ordmap::lemma_listed_finite(map);
    let l = ordmap::listed(map);
    assert forall|k: Digest| #[trigger] s.contains(k) <==> ordmap::members(s).contains(k) by {
        if s.contains(k) {
            assert(ordmap::map_of(l).contains_key(k));
            let i = choose|i: int| 0 <= i < l.len() && (#[trigger] l[i]).0 == k;
            assert(ordmap::members(s)[i] == k);
        }
        if ordmap::members(s).contains(k) {
            let i = choose|i: int| 0 <= i < ordmap::members(s).len() && ordmap::members(s)[i] == k;
            ordmap::lemma_ascending_index(l, i);
            assert(l[i].0 == k);
            assert(map.contains_key(k));
        }
    }
}

/// What the root of a state is taken of, in four parts.
proof fn lemma_root_parts(s: StateModel)
    ensures
        ({
            let (a, b) = (ordmap::listed(s.live), ordmap::listed(s.spent_by));
            let (c, d) = (ordmap::members(s.known_ids), ordmap::listed(s.applied));
            let p4 = bytes::le32(d.len() as u32) + bytes::flat(d, state::receipt_bytes()) + Seq::<u8>::empty();
            let p3 = bytes::le32(c.len() as u32) + bytes::flat(c, state::id_bytes()) + p4;
            let p2 = bytes::le32(b.len() as u32) + bytes::flat(b, state::spent_bytes()) + p3;
            state::root_bytes(s) == bytes::le16(crate::model::PROTOCOL_VERSION) + (bytes::le32(a.len() as u32) + bytes::flat(
                a,
                state::live_bytes(),
            ) + p2)
        }),
{
    let (a, b) = (ordmap::listed(s.live), ordmap::listed(s.spent_by));
    let (c, d) = (ordmap::members(s.known_ids), ordmap::listed(s.applied));
    let v = bytes::le16(crate::model::PROTOCOL_VERSION);
    let (na, fa) = (bytes::le32(a.len() as u32), bytes::flat(a, state::live_bytes()));
    let (nb, fb) = (bytes::le32(b.len() as u32), bytes::flat(b, state::spent_bytes()));
    let (nc, fc) = (bytes::le32(c.len() as u32), bytes::flat(c, state::id_bytes()));
    let (nd, fd) = (bytes::le32(d.len() as u32), bytes::flat(d, state::receipt_bytes()));
    lemma_regroup(v, na, fa, nb, fb, nc, fc, nd, fd);
}

proof fn lemma_regroup(
    v: Seq<u8>,
    na: Seq<u8>,
    fa: Seq<u8>,
    nb: Seq<u8>,
    fb: Seq<u8>,
    nc: Seq<u8>,
    fc: Seq<u8>,
    nd: Seq<u8>,
    fd: Seq<u8>,
)
    ensures
        v + na + fa + nb + fb + nc + fc + nd + fd == v + (na + fa + (nb + fb + (nc + fc + (nd + fd
            + Seq::<u8>::empty())))),
{
    let p4 = nd + fd + Seq::<u8>::empty();
    let p3 = nc + fc + p4;
    let p2 = nb + fb + p3;
    assert(p4 =~= nd + fd);
    assert(v + na + fa + nb + fb + nc + fc + nd + fd =~= v + na + fa + nb + fb + nc + fc + p4);
    assert(v + na + fa + nb + fb + nc + fc + p4 =~= v + na + fa + nb + fb + p3);
    assert(v + na + fa + nb + fb + p3 =~= v + na + fa + p2);
    assert(v + na + fa + p2 =~= v + (na + fa + p2));
}

/// A root binds the whole state: what it is taken of determines the live cells, the
/// spent cells, the known identifiers and the receipts.
pub proof fn law_root_binds_the_state(s: StateModel, t: StateModel)
    requires
        state::root_bytes(s) == state::root_bytes(t),
        state::state_finite(s),
        state::state_valid(s),
        counts_fit_root(s),
        state::state_finite(t),
        state::state_valid(t),
        counts_fit_root(t),
    ensures
        s == t,
{
    let (a, b) = (ordmap::listed(s.live), ordmap::listed(s.spent_by));
    let (c, d) = (ordmap::members(s.known_ids), ordmap::listed(s.applied));
    let (e, f) = (ordmap::listed(t.live), ordmap::listed(t.spent_by));
    let (g, h) = (ordmap::members(t.known_ids), ordmap::listed(t.applied));
    lemma_root_parts(s);
    lemma_root_parts(t);
    ordmap::lemma_listed_finite(s.live);
    ordmap::lemma_listed_finite(s.spent_by);
    ordmap::lemma_listed_finite(s.applied);
    ordmap::lemma_listed_finite(t.live);
    ordmap::lemma_listed_finite(t.spent_by);
    ordmap::lemma_listed_finite(t.applied);
    lemma_members(s.known_ids);
    lemma_members(t.known_ids);
    let v = bytes::le16(crate::model::PROTOCOL_VERSION);
    let none = Seq::<u8>::empty();
    let p4 = bytes::le32(d.len() as u32) + bytes::flat(d, state::receipt_bytes()) + none;
    let p3 = bytes::le32(c.len() as u32) + bytes::flat(c, state::id_bytes()) + p4;
    let p2 = bytes::le32(b.len() as u32) + bytes::flat(b, state::spent_bytes()) + p3;
    let q4 = bytes::le32(h.len() as u32) + bytes::flat(h, state::receipt_bytes()) + none;
    let q3 = bytes::le32(g.len() as u32) + bytes::flat(g, state::id_bytes()) + q4;
    let q2 = bytes::le32(f.len() as u32) + bytes::flat(f, state::spent_bytes()) + q3;
    lemma_heads(
        v,
        bytes::le32(a.len() as u32) + bytes::flat(a, state::live_bytes()) + p2,
        v,
        bytes::le32(e.len() as u32) + bytes::flat(e, state::live_bytes()) + q2,
    );
    assert forall|i: int, p: Seq<u8>, q: Seq<u8>|
        0 <= i < a.len() && a.len() == e.len() && #[trigger] (state::live_bytes()(a[i]) + p)
            == #[trigger] (state::live_bytes()(e[i]) + q) implies a[i] == e[i] && p == q by {
        ordmap::lemma_ascending_index(a, i);
        ordmap::lemma_ascending_index(e, i);
        assert(s.live.contains_key(a[i].0) && t.live.contains_key(e[i].0));
        lemma_live_apart(a[i], e[i], p, q);
    }
    lemma_counted(a, e, state::live_bytes(), p2, q2);
    assert forall|i: int, p: Seq<u8>, q: Seq<u8>|
        0 <= i < b.len() && b.len() == f.len() && #[trigger] (state::spent_bytes()(b[i]) + p)
            == #[trigger] (state::spent_bytes()(f[i]) + q) implies b[i] == f[i] && p == q by {
        lemma_spent_apart(b[i], f[i], p, q);
    }
    lemma_counted(b, f, state::spent_bytes(), p3, q3);
    assert forall|i: int, p: Seq<u8>, q: Seq<u8>|
        0 <= i < c.len() && c.len() == g.len() && #[trigger] (state::id_bytes()(c[i]) + p)
            == #[trigger] (state::id_bytes()(g[i]) + q) implies c[i] == g[i] && p == q by {
        lemma_id_apart(c[i], g[i], p, q);
    }
    lemma_counted(c, g, state::id_bytes(), p4, q4);
    assert forall|i: int, p: Seq<u8>, q: Seq<u8>|
        0 <= i < d.len() && d.len() == h.len() && #[trigger] (state::receipt_bytes()(d[i]) + p)
            == #[trigger] (state::receipt_bytes()(h[i]) + q) implies d[i] == h[i] && p == q by {
        ordmap::lemma_ascending_index(d, i);
        ordmap::lemma_ascending_index(h, i);
        assert(s.applied.contains_key(d[i].0) && t.applied.contains_key(h[i].0));
        lemma_receipt_apart(d[i], h[i], p, q);
    }
    lemma_counted(d, h, state::receipt_bytes(), none, none);
    assert(s.known_ids =~= t.known_ids) by {
        assert forall|k: Digest| s.known_ids.contains(k) <==> #[trigger] t.known_ids.contains(
            k,
        ) by {
            assert(s.known_ids.contains(k) <==> ordmap::members(s.known_ids).contains(k));
        }
    }
}

proof fn lemma_share_apart(a: Vote, b: Vote, r: Seq<u8>, s: Seq<u8>)
    requires
        model::share_bytes()(a) + r == model::share_bytes()(b) + s,
    ensures
        model::share_bytes()(a) == model::share_bytes()(b),
        a.signer_index == b.signer_index,
        a.signature == b.signature,
        r == s,
{
    lemma_heads(model::share_bytes()(a), r, model::share_bytes()(b), s);
    lemma_off_array(seq![a.signer_index], a.signature, seq![b.signer_index], b.signature);
    assert(seq![a.signer_index][0] == seq![b.signer_index][0]);
}

/// What is hashed of the votes of a certificate, vote by vote.
proof fn lemma_shares(a: Seq<Vote>, b: Seq<Vote>, p: Seq<u8>, q: Seq<u8>, k: int)
    requires
        a.len() == b.len(),
        0 <= k <= a.len(),
        bytes::flat(a.subrange(k, a.len() as int), model::share_bytes()) + p == bytes::flat(
            b.subrange(k, b.len() as int),
            model::share_bytes(),
        ) + q,
    ensures
        forall|i: int|
            k <= i < a.len() ==> (#[trigger] a[i]).signer_index == b[i].signer_index
                && a[i].signature == b[i].signature,
        p == q,
    decreases a.len() - k,
{
    let f = model::share_bytes();
    let (x, y) = (a.subrange(k, a.len() as int), b.subrange(k, b.len() as int));
    if k == a.len() {
        assert(x =~= Seq::<Vote>::empty());
        assert(y =~= Seq::<Vote>::empty());
        assert(bytes::flat(x, f) + p =~= p);
        assert(bytes::flat(y, f) + q =~= q);
    } else {
        let (u, v) = (a.subrange(k + 1, a.len() as int), b.subrange(k + 1, b.len() as int));
        bytes::lemma_flat_first(x, f);
        bytes::lemma_flat_first(y, f);
        assert(x.subrange(1, x.len() as int) =~= u);
        assert(y.subrange(1, y.len() as int) =~= v);
        assert(x[0] == a[k] && y[0] == b[k]);
        assert(bytes::flat(x, f) + p =~= f(a[k]) + (bytes::flat(u, f) + p));
        assert(bytes::flat(y, f) + q =~= f(b[k]) + (bytes::flat(v, f) + q));
        lemma_share_apart(a[k], b[k], bytes::flat(u, f) + p, bytes::flat(v, f) + q);
        lemma_shares(a, b, p, q, k + 1);
    }
}

/// In an accepted certificate every vote is as its statement says.
proof fn lemma_stated(votes: Seq<Vote>, m: ManifestModel, s: Statement, i: int, k: int)
    requires
        0 <= i <= k < votes.len(),
        model::votes_verdict(votes, m, s, i) is Ok,
    ensures
        model::vote_verdict(votes[k], m) is Ok,
        model::vote_on(votes[k], s),
        votes[k].justify == match s.justify {
            Some(d) => d,
            None => bytes::zero_digest(),
        },
    decreases k - i,
{
    if i < k {
        lemma_stated(votes, m, s, i + 1, k);
    }
}

/// The digest of an accepted certificate binds the whole certificate: its statement,
/// its signers and their signatures.
pub proof fn law_certificate_digest_binds_the_votes(
    a: Seq<Vote>,
    b: Seq<Vote>,
    m: ManifestModel,
    s: Statement,
    t: Statement,
)
    requires
        model::qc_bytes(a) == model::qc_bytes(b),
        model::qc_verdict(a, m, s) is Ok,
        model::qc_verdict(b, m, t) is Ok,
    ensures
        a == b,
{
    let (v, w) = (a[0], b[0]);
    let (n, k) = (bytes::le32(a.len() as u32), bytes::le32(b.len() as u32));
    let (x, y) = (n + bytes::flat(a, model::share_bytes()), k + bytes::flat(b, model::share_bytes()));
    let (a1, b1) = (x + seq![v.phase], y + seq![w.phase]);
    let (a2, b2) = (a1 + bytes::le64(v.round), b1 + bytes::le64(w.round));
    let (a3, b3) = (a2 + v.conflict_key@, b2 + w.conflict_key@);
    let (a4, b4) = (a3 + v.intent@, b3 + w.intent@);
    lemma_off_array(a4, v.justify, b4, w.justify);
    lemma_off_array(a3, v.intent, b3, w.intent);
    lemma_off_array(a2, v.conflict_key, b2, w.conflict_key);
    lemma_off64(a1, v.round, b1, w.round);
    lemma_off8(x, v.phase, y, w.phase);
    bytes::lemma_le32(a.len() as u32);
    bytes::lemma_le32(b.len() as u32);
    lemma_heads(n, bytes::flat(a, model::share_bytes()), k, bytes::flat(b, model::share_bytes()));
    lemma_same32(a.len() as u32, b.len() as u32);
    let none = Seq::<u8>::empty();
    assert(a.subrange(0, a.len() as int) =~= a);
    assert(b.subrange(0, b.len() as int) =~= b);
    assert(bytes::flat(a, model::share_bytes()) + none =~= bytes::flat(a, model::share_bytes()));
    assert(bytes::flat(b, model::share_bytes()) + none =~= bytes::flat(b, model::share_bytes()));
    lemma_shares(a, b, none, none, 0);
    lemma_stated(a, m, s, 0, 0);
    lemma_stated(b, m, t, 0, 0);
    assert forall|i: int| 0 <= i < a.len() implies a[i] == b[i] by {
        lemma_stated(a, m, s, 0, i);
        lemma_stated(b, m, t, 0, i);
        assert(a[i].signer_index == b[i].signer_index);
    }
    assert(a =~= b);
}

} // verus!
