//! What anchoring with witnesses promises: an anchored lock outlives the
//! certifier's own memory.
use crate::crypto;
use crate::model::{Digest, PublicKeyBytes};
use crate::sec002;
use crate::sec004;
use crate::sec004::{
    AnchoringCertifier, EvidenceKey, LockEvidence, WitnessAck, WitnessModel, WitnessStoreModel,
    WitnessedCertificate, ANCHOR_Q, AUTH_Q, F, N, RECOVERY_Q,
};
use crate::spend;
use crate::spend::{Cell, InputRef, SpendModel, UserAuthorization};
use vstd::prelude::*;

verus! {

/// The witnesses of an anchor and those that answer a recovery have more members
/// in common than there may be Byzantine ones.
pub proof fn law_anchor_meets_recovery(
    witnesses: Set<PublicKeyBytes>,
    anchor: Set<PublicKeyBytes>,
    recovery: Set<PublicKeyBytes>,
)
    requires
        witnesses.finite(),
        witnesses.len() <= N,
        anchor.subset_of(witnesses),
        recovery.subset_of(witnesses),
        anchor.len() >= ANCHOR_Q,
        recovery.len() >= RECOVERY_Q,
    ensures
        anchor.intersect(recovery).len() >= ANCHOR_Q + RECOVERY_Q - N,
        anchor.intersect(recovery).len() > F,
{
    vstd::set_lib::lemma_len_subset(anchor, witnesses);
    vstd::set_lib::lemma_len_subset(recovery, witnesses);
    vstd::set_lib::lemma_set_intersect_union_lens(anchor, recovery);
    vstd::set_lib::lemma_len_subset(anchor.union(recovery), witnesses);
}

/// A restart of a witness forgets nothing: opening its store from its log, with or
/// without an incomplete record at the end, gives the store back.
pub proof fn law_witness_restart(s: WitnessStoreModel, torn: Seq<u8>)
    requires
        sec004::witness_durable(s),
        torn.len() < 192,
    ensures
        sec004::opened_witness_store(s.log + torn) == Ok::<WitnessStoreModel, Seq<char>>(s),
{
    sec004::law_torn_witness_log(s.log, torn);
}

/// Whoever puts an earlier log back puts the earlier evidence back: the store
/// cannot tell, and what was kept since is gone.
pub proof fn law_witness_rollback(s: WitnessStoreModel, later: Seq<u8>)
    requires
        sec004::witness_durable(s),
        s.log.is_prefix_of(later),
    ensures
        sec004::opened_witness_store(later.take(s.log.len() as int)) == Ok::<
            WitnessStoreModel,
            Seq<char>,
        >(s),
{
    assert(later.take(s.log.len() as int) =~= s.log);
    assert(s.log + Seq::<u8>::empty() =~= s.log);
    sec004::law_torn_witness_log(s.log, Seq::empty());
}

/// Later witnesses know at least what earlier ones did.
pub open spec fn witnesses_keep(a: Seq<WitnessModel>, b: Seq<WitnessModel>) -> bool {
    &&& a.len() == b.len()
    &&& forall|j: int| 0 <= j < a.len() ==> #[trigger] witness_keeps(a[j], b[j])
}

/// A later witness knows at least what an earlier one did.
pub open spec fn witness_keeps(a: WitnessModel, b: WitnessModel) -> bool {
    &&& a.seed == b.seed
    &&& a.byzantine == b.byzantine
    &&& forall|k: EvidenceKey| #[trigger]
        a.store.evidence.contains_key(k) ==> b.store.evidence.contains_key(k)
            && b.store.evidence[k].digest == a.store.evidence[k].digest
}

proof fn lemma_keep_transitive(
    a: Seq<WitnessModel>,
    b: Seq<WitnessModel>,
    c: Seq<WitnessModel>,
)
    requires
        witnesses_keep(a, b),
        witnesses_keep(b, c),
    ensures
        witnesses_keep(a, c),
{
    assert forall|j: int| 0 <= j < a.len() implies #[trigger] witness_keeps(a[j], c[j]) by {
        assert(witness_keeps(a[j], b[j]));
        assert(witness_keeps(b[j], c[j]));
        assert forall|k: EvidenceKey| #[trigger] a[j].store.evidence.contains_key(k) implies c[j]
            .store.evidence.contains_key(k) && c[j].store.evidence[k].digest
            == a[j].store.evidence[k].digest by {
            assert(b[j].store.evidence.contains_key(k));
        }
    }
}

/// A witness never lets go of evidence.
pub proof fn law_evidence_is_kept(w: WitnessModel, e: LockEvidence)
    ensures
        witness_keeps(w, sec004::after_evidence(w, e)),
{
}

/// A witness that is honest refuses evidence that contradicts what it keeps.
pub proof fn law_conflicting_evidence_is_refused(w: WitnessModel, e: LockEvidence)
    requires
        !w.byzantine,
        w.store.evidence.contains_key(sec004::evidence_key(e)),
        w.store.evidence[sec004::evidence_key(e)].digest != e.digest,
    ensures
        sec004::witness_reply(w, e) is Err,
        sec004::after_evidence(w, e) == w,
{
}

proof fn lemma_anchored_keeps(
    ws: Seq<WitnessModel>,
    e: LockEvidence,
    indices: Seq<usize>,
    n: int,
)
    requires
        0 <= n <= indices.len(),
        sec004::name_witnesses(indices, ws.len() as int),
    ensures
        witnesses_keep(ws, sec004::anchored(ws, e, indices, n).witnesses),
    decreases n,
{
    if n > 0 {
        lemma_anchored_keeps(ws, e, indices, n - 1);
        reveal(sec004::anchor_step);
        let before = sec004::anchored(ws, e, indices, n - 1);
        let after = sec004::anchored(ws, e, indices, n);
        let i = indices[n - 1] as int;
        assert forall|j: int| 0 <= j < ws.len() implies #[trigger] witness_keeps(
            before.witnesses[j],
            after.witnesses[j],
        ) by {
            if before.acked is Ok && j == i {
                law_evidence_is_kept(before.witnesses[i], e);
            }
        }
        lemma_keep_transitive(ws, before.witnesses, after.witnesses);
    }
}

/// A witness that acknowledged some evidence keeps it, unless it is Byzantine.
pub open spec fn holds_anchor(w: WitnessModel, e: LockEvidence) -> bool {
    w.byzantine || w.store.evidence.contains_key(sec004::evidence_key(e))
        && w.store.evidence[sec004::evidence_key(e)].digest == e.digest
}

/// Some witness with this key holds the anchor.
pub open spec fn anchored_at(
    ws: Seq<WitnessModel>,
    e: LockEvidence,
    key: PublicKeyBytes,
    j: int,
) -> bool {
    0 <= j < ws.len() && crypto::public_key(ws[j].seed) == key && holds_anchor(ws[j], e)
}

proof fn lemma_acked(ws: Seq<WitnessModel>, e: LockEvidence, indices: Seq<usize>, n: int)
    requires
        0 <= n <= indices.len(),
        sec004::name_witnesses(indices, ws.len() as int),
        sec004::anchored(ws, e, indices, n).acked is Ok,
    ensures
        sec004::anchored(ws, e, indices, n).acked->Ok_0.finite(),
        forall|key: PublicKeyBytes| #[trigger]
            sec004::anchored(ws, e, indices, n).acked->Ok_0.contains(key) ==> exists|j: int|
                anchored_at(sec004::anchored(ws, e, indices, n).witnesses, e, key, j),
    decreases n,
{
    if n > 0 {
        reveal(sec004::anchor_step);
        lemma_anchored_keeps(ws, e, indices, n - 1);
        lemma_acked(ws, e, indices, n - 1);
        let before = sec004::anchored(ws, e, indices, n - 1);
        let after = sec004::anchored(ws, e, indices, n);
        let i = indices[n - 1] as int;
        let w = before.witnesses[i];
        assert forall|key: PublicKeyBytes| #[trigger] after.acked->Ok_0.contains(
            key,
        ) implies exists|j: int| anchored_at(after.witnesses, e, key, j) by {
            if before.acked->Ok_0.contains(key) {
                let j = choose|j: int| anchored_at(before.witnesses, e, key, j);
                assert(anchored_at(before.witnesses, e, key, j));
                law_evidence_is_kept(w, e);
                assert(anchored_at(after.witnesses, e, key, j));
            } else {
                assert(key == crypto::public_key(w.seed));
                assert(anchored_at(after.witnesses, e, key, i));
            }
        }
    }
}

/// Those that have answered once the witnesses from number `i` on were asked.
spec fn all_heard(
    ws: Seq<WitnessModel>,
    indices: Seq<usize>,
    i: int,
    heard: Set<PublicKeyBytes>,
) -> Set<PublicKeyBytes>
    decreases indices.len() - i,
{
    if i < 0 || i >= indices.len() {
        heard
    } else {
        all_heard(ws, indices, i + 1, heard.insert(crypto::public_key(ws[indices[i] as int].seed)))
    }
}

/// The witness number `k` of those asked has this key.
spec fn asked_at(
    ws: Seq<WitnessModel>,
    indices: Seq<usize>,
    i: int,
    key: PublicKeyBytes,
    k: int,
) -> bool {
    i <= k < indices.len() && crypto::public_key(ws[indices[k] as int].seed) == key
}

proof fn lemma_all_heard(
    ws: Seq<WitnessModel>,
    indices: Seq<usize>,
    i: int,
    heard: Set<PublicKeyBytes>,
)
    requires
        0 <= i <= indices.len(),
        heard.finite(),
    ensures
        all_heard(ws, indices, i, heard).finite(),
        forall|key: PublicKeyBytes| #[trigger]
            all_heard(ws, indices, i, heard).contains(key) ==> heard.contains(key)
                || exists|k: int| asked_at(ws, indices, i, key, k),
    decreases indices.len() - i,
{
    if i < indices.len() {
        let now = heard.insert(crypto::public_key(ws[indices[i] as int].seed));
        lemma_all_heard(ws, indices, i + 1, now);
        assert forall|key: PublicKeyBytes| #[trigger]
            all_heard(ws, indices, i, heard).contains(key) implies heard.contains(key)
            || exists|k: int| asked_at(ws, indices, i, key, k) by {
            if !heard.contains(key) {
                if now.contains(key) {
                    assert(asked_at(ws, indices, i, key, i));
                } else {
                    let next = i + 1;
                    let k = choose|k: int| asked_at(ws, indices, next, key, k);
                    assert(asked_at(ws, indices, i, key, k));
                }
            }
        }
    }
}

proof fn lemma_recovered(
    certifier: PublicKeyBytes,
    input: InputRef,
    ws: Seq<WitnessModel>,
    indices: Seq<usize>,
    i: int,
    heard: Set<PublicKeyBytes>,
    found: Option<Digest>,
)
    requires
        0 <= i <= indices.len(),
        sec004::recovered_from(certifier, input, ws, indices, i, heard, found) is Ok,
    ensures
        all_heard(ws, indices, i, heard).len() >= RECOVERY_Q,
        found is Some ==> sec004::recovered_from(certifier, input, ws, indices, i, heard, found)->Ok_0
            == found,
        forall|k: int|
            i <= k < indices.len() && sec004::witness_answer(
                ws[(#[trigger] indices[k]) as int],
                certifier,
                input,
            ) is Some ==> sec004::recovered_from(
                certifier,
                input,
                ws,
                indices,
                i,
                heard,
                found,
            )->Ok_0 == Some(
                sec004::witness_answer(ws[indices[k] as int], certifier, input)->Some_0.digest,
            ),
    decreases indices.len() - i,
{
    if i < indices.len() {
        reveal(sec004::heard_from);
        let (now, said) = sec004::heard_from(
            certifier,
            input,
            ws[indices[i] as int],
            heard,
            found,
        )->Ok_0;
        lemma_recovered(certifier, input, ws, indices, i + 1, now, said);
    }
}

/// The keys of the Byzantine witnesses.
pub open spec fn byzantine_keys(ws: Seq<WitnessModel>) -> Set<PublicKeyBytes> {
    sec004::witness_keys(ws.filter(|w: WitnessModel| w.byzantine)).to_set()
}

/// The witnesses have different keys.
pub open spec fn distinct_witnesses(ws: Seq<WitnessModel>) -> bool {
    forall|i: int, j: int|
        0 <= i < j < ws.len() ==> crypto::public_key((#[trigger] ws[i]).seed) != crypto::public_key(
            (#[trigger] ws[j]).seed,
        )
}

/// An anchored lock is found again: while at most two of seven witnesses are
/// Byzantine and the others keep what they have, a recovery that succeeds finds
/// the spend that the input was anchored to.
pub proof fn law_recovery_finds_the_anchor(
    seed: [u8; 32],
    input: InputRef,
    tx_digest: Digest,
    ws: Seq<WitnessModel>,
    anchor: Seq<usize>,
    later: Seq<WitnessModel>,
    recovery: Seq<usize>,
)
    requires
        ws.len() == N,
        distinct_witnesses(ws),
        byzantine_keys(ws).len() <= F,
        sec004::name_witnesses(anchor, N as int),
        sec004::name_witnesses(recovery, N as int),
        sec004::input_anchored(seed, tx_digest, ws, anchor, input).1 is Ok,
        witnesses_keep(sec004::input_anchored(seed, tx_digest, ws, anchor, input).0, later),
        sec004::recovered(crypto::public_key(seed), input, later, recovery) is Ok,
    ensures
        sec004::recovered(crypto::public_key(seed), input, later, recovery)->Ok_0 == Some(tx_digest),
{
    reveal(sec004::input_anchored);
    reveal(sec004::recovered);
    let e = sec004::evidence_of(seed, input, tx_digest);
    let n = anchor.len() as int;
    let done = sec004::anchored(ws, e, anchor, n);
    lemma_acked(ws, e, anchor, n);
    lemma_anchored_keeps(ws, e, anchor, n);
    lemma_keep_transitive(ws, done.witnesses, later);
    lemma_all_heard(later, recovery, 0, Set::empty());
    lemma_recovered(crypto::public_key(seed), input, later, recovery, 0, Set::empty(), None);
    let keys = sec004::witness_keys(ws).to_set();
    let acked = done.acked->Ok_0;
    let heard = all_heard(later, recovery, 0, Set::empty());
    assert(acked.subset_of(keys)) by {
        assert forall|key: PublicKeyBytes| acked.contains(key) implies keys.contains(key) by {
            let j = choose|j: int| anchored_at(done.witnesses, e, key, j);
            assert(anchored_at(done.witnesses, e, key, j));
            assert(witness_keeps(ws[j], done.witnesses[j]));
            assert(sec004::witness_keys(ws)[j] == key);
        }
    }
    assert(heard.subset_of(keys)) by {
        assert forall|key: PublicKeyBytes| heard.contains(key) implies keys.contains(key) by {
            let k = choose|k: int| asked_at(later, recovery, 0, key, k);
            assert(asked_at(later, recovery, 0, key, k));
            let j = recovery[k] as int;
            assert(witness_keeps(ws[j], later[j]));
            assert(sec004::witness_keys(ws)[j] == key);
        }
    }
    sec004::witness_keys(ws).lemma_cardinality_of_set();
    law_anchor_meets_recovery(keys, acked, heard);
    let both = acked.intersect(heard);
    let byzantine = byzantine_keys(ws);
    if both.subset_of(byzantine) {
        vstd::set_lib::lemma_len_subset(both, byzantine);
    }
    let key = choose|key: PublicKeyBytes| both.contains(key) && !byzantine.contains(key);
    assert(both.contains(key) && !byzantine.contains(key));
    let j = choose|j: int| anchored_at(done.witnesses, e, key, j);
    assert(anchored_at(done.witnesses, e, key, j));
    let k = choose|k: int| asked_at(later, recovery, 0, key, k);
    assert(asked_at(later, recovery, 0, key, k));
    assert(witness_keeps(ws[j], done.witnesses[j]));
    assert(witness_keeps(ws[recovery[k] as int], later[recovery[k] as int]));
    assert(recovery[k] == j);
    assert(witness_keeps(done.witnesses[j], later[j]));
    assert(!ws[j].byzantine) by {
        if ws[j].byzantine {
            let bad = ws.filter(|w: WitnessModel| w.byzantine);
            ws.lemma_filter_contains(|w: WitnessModel| w.byzantine, j);
            let m = bad.index_of(ws[j]);
            assert(bad.contains(ws[j]));
            assert(bad[m] == ws[j]);
            assert(sec004::witness_keys(bad)[m] == key);
            assert(byzantine.contains(key));
        }
    }
    assert(done.witnesses[j].store.evidence.contains_key(sec004::evidence_key(e)));
    assert(later[j].store.evidence.contains_key(sec004::evidence_key(e)));
    assert(sec004::witness_answer(later[j], crypto::public_key(seed), input) is Some);
}

proof fn lemma_inputs_free(
    certifier: PublicKeyBytes,
    locks: Map<InputRef, Digest>,
    tx_digest: Digest,
    ws: Seq<WitnessModel>,
    indices: Seq<usize>,
    inputs: Seq<InputRef>,
    i: int,
    k: int,
)
    requires
        0 <= i <= k < inputs.len(),
        sec004::recovered(certifier, inputs[k], ws, indices) is Ok ==> sec004::recovered(
            certifier,
            inputs[k],
            ws,
            indices,
        )->Ok_0 is Some && sec004::recovered(certifier, inputs[k], ws, indices)->Ok_0->Some_0
            != tx_digest,
    ensures
        sec004::inputs_free(certifier, locks, tx_digest, ws, indices, inputs, i).1 is Err,
    decreases inputs.len() - i,
{
    reveal(sec004::input_free);
    if i < k {
        let (now, free) = sec004::input_free(certifier, locks, tx_digest, ws, indices, inputs[i]);
        if free is Ok {
            lemma_inputs_free(certifier, now, tx_digest, ws, indices, inputs, i + 1, k);
        }
    }
}

/// The loss of its own memory does not free a certifier: once it anchored an input
/// to a spend, it signs no other spend of that input, whatever its local locks
/// are.
pub proof fn law_rollback_does_not_free_the_certifier(
    node: AnchoringCertifier,
    input: InputRef,
    tx_digest: Digest,
    ws: Seq<WitnessModel>,
    anchor: Seq<usize>,
    later: Seq<WitnessModel>,
    tx: SpendModel,
    auth: UserAuthorization,
    cells: Map<u64, Cell>,
    later_anchor: Seq<usize>,
    recovery: Seq<usize>,
    k: int,
)
    requires
        !node.byzantine,
        ws.len() == N,
        distinct_witnesses(ws),
        byzantine_keys(ws).len() <= F,
        sec004::name_witnesses(anchor, N as int),
        sec004::name_witnesses(recovery, N as int),
        sec004::input_anchored(node.seed, tx_digest, ws, anchor, input).1 is Ok,
        witnesses_keep(sec004::input_anchored(node.seed, tx_digest, ws, anchor, input).0, later),
        0 <= k < tx.inputs.len(),
        tx.inputs[k] == input,
        sec004::witnessed_commitment(tx, auth.signer) != tx_digest,
    ensures
        sec004::requested(node, tx, auth, cells, later, later_anchor, recovery).share is Err,
{
    if let Ok(verified) = sec004::witnessed_authorization(tx, auth, cells) {
        if sec004::recovered(crypto::public_key(node.seed), input, later, recovery) is Ok {
            law_recovery_finds_the_anchor(
                node.seed,
                input,
                tx_digest,
                ws,
                anchor,
                later,
                recovery,
            );
        }
        lemma_inputs_free(
            crypto::public_key(node.seed),
            node.local_locks,
            verified.digest,
            later,
            recovery,
            tx.inputs,
            0,
            k,
        );
    }
}

proof fn lemma_inputs_anchored_keep(
    seed: [u8; 32],
    tx_digest: Digest,
    ws: Seq<WitnessModel>,
    indices: Seq<usize>,
    inputs: Seq<InputRef>,
    n: int,
)
    requires
        0 <= n <= inputs.len(),
        sec004::name_witnesses(indices, ws.len() as int),
    ensures
        witnesses_keep(ws, sec004::inputs_anchored(seed, tx_digest, ws, indices, inputs, n).0),
    decreases n,
{
    if n > 0 {
        lemma_inputs_anchored_keep(seed, tx_digest, ws, indices, inputs, n - 1);
        let before = sec004::inputs_anchored(seed, tx_digest, ws, indices, inputs, n - 1);
        if before.1 is Ok {
            reveal(sec004::input_anchored);
            lemma_anchored_keeps(
                before.0,
                sec004::evidence_of(seed, inputs[n - 1], tx_digest),
                indices,
                indices.len() as int,
            );
            lemma_keep_transitive(
                ws,
                before.0,
                sec004::inputs_anchored(seed, tx_digest, ws, indices, inputs, n).0,
            );
        }
    }
}

/// No request makes a witness forget.
pub proof fn law_requests_keep_evidence(
    node: AnchoringCertifier,
    tx: SpendModel,
    auth: UserAuthorization,
    cells: Map<u64, Cell>,
    ws: Seq<WitnessModel>,
    anchor: Seq<usize>,
    recovery: Seq<usize>,
)
    requires
        sec004::name_witnesses(anchor, ws.len() as int),
    ensures
        witnesses_keep(ws, sec004::requested(node, tx, auth, cells, ws, anchor, recovery).witnesses),
{
    if let Ok(verified) = sec004::witnessed_authorization(tx, auth, cells) {
        lemma_inputs_anchored_keep(
            node.seed,
            verified.digest,
            ws,
            anchor,
            tx.inputs,
            tx.inputs.len() as int,
        );
    }
}

/// An honest certifier anchors before it signs: if it gives a share, every input
/// was anchored with five witnesses and is locked locally.
pub proof fn law_share_is_anchored(
    node: AnchoringCertifier,
    tx: SpendModel,
    auth: UserAuthorization,
    cells: Map<u64, Cell>,
    ws: Seq<WitnessModel>,
    anchor: Seq<usize>,
    recovery: Seq<usize>,
    k: int,
)
    requires
        !node.byzantine,
        sec004::requested(node, tx, auth, cells, ws, anchor, recovery).share is Ok,
        0 <= k < tx.inputs.len(),
    ensures
        ({
            let before = sec004::inputs_anchored(
                node.seed,
                sec004::witnessed_commitment(tx, auth.signer),
                ws,
                anchor,
                tx.inputs,
                k,
            );
            let done = sec004::input_anchored(
                node.seed,
                sec004::witnessed_commitment(tx, auth.signer),
                before.0,
                anchor,
                tx.inputs[k],
            );
            &&& done.1 is Ok
            &&& sec004::requested(node, tx, auth, cells, ws, anchor, recovery).local_locks.contains_key(
                tx.inputs[k],
            )
        }),
{
    let verified = sec004::witnessed_authorization(tx, auth, cells)->Ok_0;
    lemma_prefix_anchored(
        node.seed,
        verified.digest,
        ws,
        anchor,
        tx.inputs,
        k + 1,
        tx.inputs.len() as int,
    );
    lemma_prefix_anchored(node.seed, verified.digest, ws, anchor, tx.inputs, k, k + 1);
    let locks = sec004::inputs_free(
        crypto::public_key(node.seed),
        node.local_locks,
        verified.digest,
        ws,
        recovery,
        tx.inputs,
        0,
    ).0;
    lemma_locked_has(locks, tx.inputs, verified.digest, tx.inputs.len() as int, k);
}

proof fn lemma_prefix_anchored(
    seed: [u8; 32],
    tx_digest: Digest,
    ws: Seq<WitnessModel>,
    indices: Seq<usize>,
    inputs: Seq<InputRef>,
    n: int,
    m: int,
)
    requires
        0 <= n <= m <= inputs.len(),
        sec004::inputs_anchored(seed, tx_digest, ws, indices, inputs, m).1 is Ok,
    ensures
        sec004::inputs_anchored(seed, tx_digest, ws, indices, inputs, n).1 is Ok,
    decreases m,
{
    if n < m {
        lemma_prefix_anchored(seed, tx_digest, ws, indices, inputs, n, m - 1);
    }
}

proof fn lemma_locked_has(
    locks: Map<InputRef, Digest>,
    inputs: Seq<InputRef>,
    tx_digest: Digest,
    n: int,
    k: int,
)
    requires
        0 <= k < n <= inputs.len(),
    ensures
        sec002::locked(locks, inputs, tx_digest, n).contains_key(inputs[k]),
    decreases n,
{
    if k < n - 1 {
        lemma_locked_has(locks, inputs, tx_digest, n - 1, k);
    }
}

/// The share number `i` of a certificate is a valid signature of what the
/// certificate states.
pub open spec fn witnessed_share_counts(cert: WitnessedCertificate, i: int) -> bool {
    &&& 0 <= i < cert.shares.len()
    &&& cert.shares[i].digest == cert.digest
    &&& cert.shares[i].user_signer == cert.user_signer
    &&& crypto::ed25519_strictly_verifies(
        cert.shares[i].certifier@,
        sec004::witnessed_share_bytes(cert.digest, cert.user_signer),
        cert.shares[i].signature@,
    )
}

/// A certifier signed what a certificate states.
pub open spec fn witnessed_by(cert: WitnessedCertificate, key: PublicKeyBytes) -> bool {
    exists|i: int| #[trigger] witnessed_share_counts(cert, i) && cert.shares[i].certifier == key
}

proof fn lemma_shares_counted(
    committee: Set<PublicKeyBytes>,
    cert: WitnessedCertificate,
    i: int,
    unique: Set<PublicKeyBytes>,
)
    requires
        0 <= i,
        unique.finite(),
        sec004::shares_counted(committee, cert, i, unique) is Ok,
    ensures
        sec004::shares_counted(committee, cert, i, unique)->Ok_0.finite(),
        forall|k: PublicKeyBytes| #[trigger]
            sec004::shares_counted(committee, cert, i, unique)->Ok_0.contains(k) && !unique.contains(k)
                ==> committee.contains(k) && witnessed_by(cert, k),
    decreases cert.shares.len() - i,
{
    if i < cert.shares.len() {
        reveal(sec004::share_counted);
        let now = sec004::share_counted(committee, cert, cert.shares[i], unique)->Ok_0;
        lemma_shares_counted(committee, cert, i + 1, now);
        if now.contains(cert.shares[i].certifier) && !unique.contains(cert.shares[i].certifier) {
            assert(witnessed_share_counts(cert, i));
        }
    }
}

/// An accepted certificate has the signatures of at least five different members
/// of the committee, on exactly the spend.
pub proof fn law_witnessed_certificate_has_a_quorum(
    tx: SpendModel,
    cert: WitnessedCertificate,
    committee: Set<PublicKeyBytes>,
)
    requires
        sec004::witnessed_verdict(tx, cert, committee) is Ok,
    ensures
        ({
            let signers = sec004::shares_counted(committee, cert, 0, Set::empty())->Ok_0;
            &&& signers.finite()
            &&& signers.len() >= AUTH_Q
            &&& signers.subset_of(committee)
            &&& forall|k: PublicKeyBytes| #[trigger]
                signers.contains(k) ==> witnessed_by(cert, k)
        }),
        cert.digest == sec004::witnessed_commitment(tx, cert.user_signer),
{
    lemma_shares_counted(committee, cert, 0, Set::empty());
}

proof fn lemma_owned(
    cells: Map<u64, Cell>,
    inputs: Seq<InputRef>,
    owner: PublicKeyBytes,
    i: int,
    total: nat,
)
    requires
        0 <= i <= inputs.len(),
        total <= u64::MAX,
    ensures
        sec004::owned_result(cells, inputs, owner, i, total) is Ok <==> {
            &&& forall|k: int, j: int|
                i <= k < inputs.len() && 0 <= j < k ==> #[trigger] inputs[j] != #[trigger] inputs[k]
            &&& forall|k: int|
                i <= k < inputs.len() ==> {
                    &&& cells.contains_key((#[trigger] inputs[k]).id)
                    &&& cells[inputs[k].id].generation == inputs[k].generation
                    &&& cells[inputs[k].id].owner == owner
                }
            &&& total + spend::inputs_value(cells, inputs, i) <= u64::MAX
        },
        sec004::owned_result(cells, inputs, owner, i, total) matches Ok(sum) ==> sum == total
            + spend::inputs_value(cells, inputs, i),
    decreases inputs.len() - i,
{
    if i < inputs.len() {
        let input = inputs[i];
        let before = inputs.subrange(0, i);
        if before.contains(input) {
            let j = choose|j: int| 0 <= j < before.len() && before[j] == input;
            assert(inputs[j] == inputs[i]);
        } else {
            assert forall|j: int| 0 <= j < i implies #[trigger] inputs[j] != inputs[i] by {
                assert(before[j] == inputs[j]);
            }
            if cells.contains_key(input.id) && total + cells[input.id].value <= u64::MAX {
                lemma_owned(cells, inputs, owner, i + 1, total + cells[input.id].value as nat);
            }
        }
    }
}

/// A spend is authorized exactly if it is of this network, has one to eight inputs with
/// different identifiers, each is active in the stated generation and belongs to the signer,
/// the signer's key and signature hold, and the output has the value of the inputs.
pub proof fn law_witnessed_spend_is_authorized_if(
    tx: SpendModel,
    auth: UserAuthorization,
    cells: Map<u64, Cell>,
)
    ensures
        ({
            let r = sec004::witnessed_authorization(tx, auth, cells);
            &&& r is Ok <==> {
                &&& tx.network_id == 1
                &&& 1 <= tx.inputs.len() <= 8
                &&& crypto::ed25519_key_decodes(auth.signer@)
                &&& crypto::ed25519_strictly_verifies(
                    auth.signer@,
                    sec004::witnessed_message(tx),
                    auth.signature@,
                )
                &&& forall|i: int, j: int|
                    0 <= i < j < tx.inputs.len() ==> (#[trigger] tx.inputs[i]).id != (
                    #[trigger] tx.inputs[j]).id
                &&& forall|k: int|
                    0 <= k < tx.inputs.len() ==> {
                        &&& cells.contains_key((#[trigger] tx.inputs[k]).id)
                        &&& cells[tx.inputs[k].id].generation == tx.inputs[k].generation
                        &&& cells[tx.inputs[k].id].owner == auth.signer
                    }
                &&& spend::inputs_value(cells, tx.inputs, 0) == tx.output_value
            }
            &&& r matches Ok(v) ==> v.signer == auth.signer && v.digest
                == sec004::witnessed_commitment(tx, auth.signer)
        }),
{
    lemma_owned(cells, tx.inputs, auth.signer, 0, 0);
    if sec004::owned_result(cells, tx.inputs, auth.signer, 0, 0) is Ok {
        assert forall|i: int, j: int| 0 <= i < j < tx.inputs.len() implies (
        #[trigger] tx.inputs[i]).id != (#[trigger] tx.inputs[j]).id by {
            assert(tx.inputs[i] != tx.inputs[j]);
        }
    }
}

/// A witness acknowledges evidence exactly if it is of this epoch and well signed by its
/// certifier and, unless the witness is Byzantine, nothing else is kept for that certifier
/// and input. It then keeps the evidence, and what it sends is its own signature on the
/// fingerprint, which passes as an acknowledgement with those that trust it.
pub proof fn law_witness_acknowledges_if(w: WitnessModel, e: LockEvidence)
    ensures
        ({
            let r = sec004::witness_reply(w, e);
            let key = EvidenceKey { certifier: e.certifier, epoch: e.epoch, input: e.input };
            &&& r is Ok <==> {
                &&& e.epoch == 4
                &&& crypto::ed25519_key_decodes(e.certifier@)
                &&& crypto::ed25519_strictly_verifies(
                    e.certifier@,
                    sec004::evidence_bytes(e.certifier, e.input, e.digest),
                    e.signature@,
                )
                &&& w.byzantine || !w.store.evidence.contains_key(key)
                    || w.store.evidence[key].digest == e.digest
            }
            &&& r matches Ok(ack) ==> {
                &&& ack.witness == crypto::public_key(w.seed)
                &&& ack.evidence_fingerprint == sec004::fingerprint_of(e)
                &&& ack.signature == crypto::signature(
                    w.seed,
                    sec004::ack_bytes(sec004::fingerprint_of(e)),
                )
                &&& !w.byzantine ==> sec004::after_evidence(w, e).store.evidence.contains_key(key)
                    && sec004::after_evidence(w, e).store.evidence[key].digest == e.digest
            }
        }),
{
}

/// An acknowledgement counts exactly if it is by a trusted witness, on the fingerprint, and
/// well signed.
pub proof fn law_acknowledgement_counts_if(
    ack: WitnessAck,
    trusted: Set<PublicKeyBytes>,
    fp: Digest,
)
    ensures
        sec004::ack_verdict(ack, trusted, fp) is Ok <==> {
            &&& trusted.contains(ack.witness)
            &&& ack.evidence_fingerprint == fp
            &&& crypto::ed25519_key_decodes(ack.witness@)
            &&& crypto::ed25519_strictly_verifies(
                ack.witness@,
                sec004::ack_bytes(fp),
                ack.signature@,
            )
        },
{
}

/// The keys of the witnesses with these numbers, from number `i` on.
pub open spec fn keys_asked(ws: Seq<WitnessModel>, indices: Seq<usize>, i: int) -> Set<
    PublicKeyBytes,
> {
    Set::new(
        |key: PublicKeyBytes|
            exists|k: int|
                i <= k < indices.len() && crypto::public_key(
                    ws[(#[trigger] indices[k]) as int].seed,
                ) == key,
    )
}

proof fn lemma_keys_asked(ws: Seq<WitnessModel>, indices: Seq<usize>, i: int)
    requires
        0 <= i < indices.len(),
    ensures
        keys_asked(ws, indices, i) =~= keys_asked(ws, indices, i + 1).insert(
            crypto::public_key(ws[indices[i] as int].seed),
        ),
{
    let next = i + 1;
    assert forall|key: PublicKeyBytes|
        keys_asked(ws, indices, i).contains(key) == keys_asked(ws, indices, next).insert(
            crypto::public_key(ws[indices[i] as int].seed),
        ).contains(key) by {
        if keys_asked(ws, indices, i).contains(key) {
            let k = choose|k: int|
                i <= k < indices.len() && crypto::public_key(
                    ws[(#[trigger] indices[k]) as int].seed,
                ) == key;
            if k != i {
                assert(next <= k < indices.len() && crypto::public_key(
                    ws[indices[k] as int].seed,
                ) == key);
            }
        }
        if keys_asked(ws, indices, next).contains(key) {
            let k = choose|k: int|
                next <= k < indices.len() && crypto::public_key(
                    ws[(#[trigger] indices[k]) as int].seed,
                ) == key;
            assert(i <= k < indices.len() && crypto::public_key(ws[indices[k] as int].seed) == key);
        }
        assert(crypto::public_key(ws[indices[i] as int].seed) == crypto::public_key(
            ws[indices[i] as int].seed,
        ));
    }
}

/// What a witness says of an input is fit for a recovery: nothing, or a lock of this
/// certifier on this input to this spend, well signed.
pub open spec fn says(
    w: WitnessModel,
    certifier: PublicKeyBytes,
    input: InputRef,
    tx_digest: Digest,
) -> bool {
    let key = EvidenceKey { certifier, epoch: 4, input };
    w.byzantine || !w.store.evidence.contains_key(key) || {
        let e = w.store.evidence[key];
        &&& e.digest == tx_digest
        &&& e.certifier == certifier
        &&& e.input == input
        &&& e.epoch == 4
        &&& crypto::ed25519_key_decodes(e.certifier@)
        &&& crypto::ed25519_strictly_verifies(
            e.certifier@,
            sec004::evidence_bytes(certifier, input, tx_digest),
            e.signature@,
        )
    }
}

proof fn lemma_heard(
    certifier: PublicKeyBytes,
    input: InputRef,
    tx_digest: Digest,
    w: WitnessModel,
    heard: Set<PublicKeyBytes>,
    found: Option<Digest>,
)
    requires
        found is Some ==> found == Some(tx_digest),
        says(w, certifier, input, tx_digest),
    ensures
        sec004::heard_from(certifier, input, w, heard, found) == Ok::<
            (Set<PublicKeyBytes>, Option<Digest>),
            Seq<char>,
        >(
            (
                heard.insert(crypto::public_key(w.seed)),
                if sec004::witness_answer(w, certifier, input) is Some {
                    Some(tx_digest)
                } else {
                    found
                },
            ),
        ),
{
    reveal(sec004::heard_from);
}

proof fn lemma_recovery_succeeds(
    certifier: PublicKeyBytes,
    input: InputRef,
    tx_digest: Digest,
    ws: Seq<WitnessModel>,
    indices: Seq<usize>,
    i: int,
    heard: Set<PublicKeyBytes>,
    found: Option<Digest>,
)
    requires
        0 <= i <= indices.len(),
        found is Some ==> found == Some(tx_digest),
        forall|k: int|
            i <= k < indices.len() ==> says(
                ws[(#[trigger] indices[k]) as int],
                certifier,
                input,
                tx_digest,
            ),
    ensures
        sec004::recovered_from(certifier, input, ws, indices, i, heard, found) is Ok
            <==> heard.union(keys_asked(ws, indices, i)).len() >= 6,
        sec004::recovered_from(certifier, input, ws, indices, i, heard, found) matches Ok(lock)
            ==> lock == if found is None && silent(ws, indices, certifier, input, i) {
            None
        } else {
            Some(tx_digest)
        },
    decreases indices.len() - i,
{
    if i < indices.len() {
        let w = ws[indices[i] as int];
        let next = i + 1;
        lemma_heard(certifier, input, tx_digest, w, heard, found);
        let now = heard.insert(crypto::public_key(w.seed));
        let said = if sec004::witness_answer(w, certifier, input) is Some {
            Some(tx_digest)
        } else {
            found
        };
        lemma_recovery_succeeds(certifier, input, tx_digest, ws, indices, next, now, said);
        lemma_keys_asked(ws, indices, i);
        assert(now.union(keys_asked(ws, indices, next)) =~= heard.union(
            keys_asked(ws, indices, i),
        ));
        lemma_silent(ws, indices, certifier, input, i);
    } else {
        assert(heard.union(keys_asked(ws, indices, i)) =~= heard);
    }
}

/// Of the witnesses that were asked from number `i` on, none has anything to say of the
/// input.
pub open spec fn silent(
    ws: Seq<WitnessModel>,
    indices: Seq<usize>,
    certifier: PublicKeyBytes,
    input: InputRef,
    i: int,
) -> bool {
    forall|k: int|
        i <= k < indices.len() ==> ws[(#[trigger] indices[k]) as int].byzantine
            || !ws[indices[k] as int].store.evidence.contains_key(
            EvidenceKey { certifier, epoch: 4, input },
        )
}

proof fn lemma_silent(
    ws: Seq<WitnessModel>,
    indices: Seq<usize>,
    certifier: PublicKeyBytes,
    input: InputRef,
    i: int,
)
    requires
        0 <= i < indices.len(),
    ensures
        silent(ws, indices, certifier, input, i) <==> silent(
            ws,
            indices,
            certifier,
            input,
            i + 1,
        ) && sec004::witness_answer(ws[indices[i] as int], certifier, input) is None,
{
    let next = i + 1;
    if silent(ws, indices, certifier, input, next) && sec004::witness_answer(
        ws[indices[i] as int],
        certifier,
        input,
    ) is None {
        assert forall|k: int| i <= k < indices.len() implies ws[(
        #[trigger] indices[k]) as int].byzantine
            || !ws[indices[k] as int].store.evidence.contains_key(
            EvidenceKey { certifier, epoch: 4, input },
        ) by {
            if k != i {
                assert(next <= k);
            }
        }
    }
}

/// A recovery comes to an end exactly if six different witnesses answered, where each of
/// them says nothing of the input or names the same spend. It finds that spend, unless all of
/// them are silent.
pub proof fn law_recovery_succeeds_if(
    certifier: PublicKeyBytes,
    input: InputRef,
    tx_digest: Digest,
    ws: Seq<WitnessModel>,
    indices: Seq<usize>,
)
    requires
        forall|k: int|
            0 <= k < indices.len() ==> says(
                ws[(#[trigger] indices[k]) as int],
                certifier,
                input,
                tx_digest,
            ),
    ensures
        sec004::recovered(certifier, input, ws, indices) is Ok <==> keys_asked(
            ws,
            indices,
            0,
        ).len() >= 6,
        sec004::recovered(certifier, input, ws, indices) matches Ok(lock) ==> lock == if silent(
            ws,
            indices,
            certifier,
            input,
            0,
        ) {
            None
        } else {
            Some(tx_digest)
        },
{
    let none = Set::<PublicKeyBytes>::empty();
    reveal(sec004::recovered);
    lemma_recovery_succeeds(certifier, input, tx_digest, ws, indices, 0, none, None);
    assert(none.union(keys_asked(ws, indices, 0)) =~= keys_asked(ws, indices, 0));
}

/// The share number `k` is the first of its member from number `i` on that is not among
/// those already counted.
pub open spec fn first_share_of(
    committee: Set<PublicKeyBytes>,
    cert: WitnessedCertificate,
    i: int,
    unique: Set<PublicKeyBytes>,
    k: int,
) -> bool {
    committee.contains(cert.shares[k].certifier) && !unique.contains(cert.shares[k].certifier)
        && forall|j: int|
        i <= j < k ==> (#[trigger] cert.shares[j]).certifier != cert.shares[k].certifier
}

/// The members that the shares from number `i` on name.
pub open spec fn members_named(
    committee: Set<PublicKeyBytes>,
    cert: WitnessedCertificate,
    i: int,
) -> Set<PublicKeyBytes> {
    Set::new(
        |key: PublicKeyBytes|
            committee.contains(key) && exists|k: int|
                i <= k < cert.shares.len() && (#[trigger] cert.shares[k]).certifier == key,
    )
}

proof fn lemma_members_named(committee: Set<PublicKeyBytes>, cert: WitnessedCertificate, i: int)
    requires
        0 <= i < cert.shares.len(),
    ensures
        forall|key: PublicKeyBytes| #[trigger]
            members_named(committee, cert, i).contains(key) == (members_named(
                committee,
                cert,
                i + 1,
            ).contains(key) || key == cert.shares[i].certifier && committee.contains(key)),
{
    let next = i + 1;
    assert forall|key: PublicKeyBytes| #[trigger]
        members_named(committee, cert, i).contains(key) == (members_named(
            committee,
            cert,
            next,
        ).contains(key) || key == cert.shares[i].certifier && committee.contains(key)) by {
        if members_named(committee, cert, i).contains(key) {
            let k = choose|k: int|
                i <= k < cert.shares.len() && (#[trigger] cert.shares[k]).certifier == key;
            if k != i {
                assert(next <= k < cert.shares.len() && cert.shares[k].certifier == key);
            }
        }
        if members_named(committee, cert, next).contains(key) {
            let k = choose|k: int|
                next <= k < cert.shares.len() && (#[trigger] cert.shares[k]).certifier == key;
            assert(i <= k < cert.shares.len() && cert.shares[k].certifier == key);
        }
        assert(i <= i < cert.shares.len() && cert.shares[i].certifier == cert.shares[i].certifier);
    }
}

proof fn lemma_shares_exact(
    committee: Set<PublicKeyBytes>,
    cert: WitnessedCertificate,
    i: int,
    unique: Set<PublicKeyBytes>,
)
    requires
        0 <= i <= cert.shares.len(),
    ensures
        sec004::shares_counted(committee, cert, i, unique) is Ok <==> {
            &&& forall|k: int|
                i <= k < cert.shares.len() ==> {
                    &&& (#[trigger] cert.shares[k]).epoch == 4
                    &&& cert.shares[k].digest == cert.digest
                    &&& cert.shares[k].user_signer == cert.user_signer
                }
            &&& forall|k: int|
                i <= k < cert.shares.len() && #[trigger] first_share_of(
                    committee,
                    cert,
                    i,
                    unique,
                    k,
                ) ==> crypto::ed25519_key_decodes(cert.shares[k].certifier@)
                    && crypto::ed25519_strictly_verifies(
                    cert.shares[k].certifier@,
                    sec004::witnessed_share_bytes(
                        cert.shares[k].digest,
                        cert.shares[k].user_signer,
                    ),
                    cert.shares[k].signature@,
                )
        },
        sec004::shares_counted(committee, cert, i, unique) matches Ok(all) ==> all =~= unique.union(
            members_named(committee, cert, i),
        ),
    decreases cert.shares.len() - i,
{
    if i < cert.shares.len() {
        reveal(sec004::share_counted);
        let share = cert.shares[i];
        let next = i + 1;
        let now = if committee.contains(share.certifier) {
            unique.insert(share.certifier)
        } else {
            unique
        };
        lemma_shares_exact(committee, cert, next, now);
        lemma_members_named(committee, cert, i);
        assert(first_share_of(committee, cert, i, unique, i) <==> committee.contains(
            share.certifier,
        ) && !unique.contains(share.certifier));
        assert forall|k: int| next <= k < cert.shares.len() implies #[trigger] first_share_of(
            committee,
            cert,
            i,
            unique,
            k,
        ) == first_share_of(committee, cert, next, now, k) by {
            if first_share_of(committee, cert, i, unique, k) {
                assert(cert.shares[i].certifier != cert.shares[k].certifier);
            }
        }
        assert forall|k: int| next <= k < cert.shares.len() implies first_share_of(
            committee,
            cert,
            i,
            unique,
            k,
        ) == #[trigger] first_share_of(committee, cert, next, now, k) by {
            assert(first_share_of(committee, cert, i, unique, k) == first_share_of(
                committee,
                cert,
                next,
                now,
                k,
            ));
        }
        if unique.contains(share.certifier) {
            assert(now =~= unique);
        }
        assert(now.union(members_named(committee, cert, next)) =~= unique.union(
            members_named(committee, cert, i),
        ));
    } else {
        assert(unique.union(members_named(committee, cert, i)) =~= unique);
    }
}

/// A certificate is accepted exactly if it is on this very spend, every share is of this
/// epoch and says what it says, the first share of every member of the committee is well
/// signed, and at least five members signed. Shares of others do not count.
pub proof fn law_witnessed_certificate_is_accepted_if(
    tx: SpendModel,
    cert: WitnessedCertificate,
    committee: Set<PublicKeyBytes>,
)
    ensures
        sec004::witnessed_verdict(tx, cert, committee) is Ok <==> {
            &&& cert.digest == sec004::witnessed_commitment(tx, cert.user_signer)
            &&& forall|k: int|
                0 <= k < cert.shares.len() ==> {
                    &&& (#[trigger] cert.shares[k]).epoch == 4
                    &&& cert.shares[k].digest == cert.digest
                    &&& cert.shares[k].user_signer == cert.user_signer
                }
            &&& forall|k: int|
                0 <= k < cert.shares.len() && #[trigger] first_share_of(
                    committee,
                    cert,
                    0,
                    Set::empty(),
                    k,
                ) ==> crypto::ed25519_key_decodes(cert.shares[k].certifier@)
                    && crypto::ed25519_strictly_verifies(
                    cert.shares[k].certifier@,
                    sec004::witnessed_share_bytes(
                        cert.shares[k].digest,
                        cert.shares[k].user_signer,
                    ),
                    cert.shares[k].signature@,
                )
            &&& members_named(committee, cert, 0).len() >= 5
        },
{
    lemma_shares_exact(committee, cert, 0, Set::empty());
    let none = Set::<PublicKeyBytes>::empty();
    assert(none.union(members_named(committee, cert, 0)) =~= members_named(committee, cert, 0));
}

proof fn lemma_summed(cells: Map<u64, Cell>, inputs: Seq<InputRef>, i: int, total: nat)
    requires
        0 <= i <= inputs.len(),
    ensures
        sec004::summed(cells, inputs, i, total) is Ok <==> forall|k: int|
            i <= k < inputs.len() ==> cells.contains_key((#[trigger] inputs[k]).id)
                && cells[inputs[k].id].generation == inputs[k].generation,
        sec004::summed(cells, inputs, i, total) matches Ok(sum) ==> sum == total
            + spend::inputs_value(cells, inputs, i),
    decreases inputs.len() - i,
{
    if i < inputs.len() {
        lemma_summed(cells, inputs, i + 1, total + cells[inputs[i].id].value as nat);
    }
}

/// A certified spend is made exactly if its certificate is accepted, its inputs are active in
/// the stated generations, and its value is that of the inputs.
pub proof fn law_witnessed_spend_is_made_if(
    cells: Map<u64, Cell>,
    committee: Set<PublicKeyBytes>,
    tx: SpendModel,
    cert: WitnessedCertificate,
)
    ensures
        sec004::witnessed_spend_verdict(cells, committee, tx, cert) is Ok <==> {
            &&& sec004::witnessed_verdict(tx, cert, committee) is Ok
            &&& forall|k: int|
                0 <= k < tx.inputs.len() ==> cells.contains_key((#[trigger] tx.inputs[k]).id)
                    && cells[tx.inputs[k].id].generation == tx.inputs[k].generation
            &&& spend::inputs_value(cells, tx.inputs, 0) == tx.output_value
        },
{
    lemma_summed(cells, tx.inputs, 0, 0);
}

proof fn lemma_anchoring(ws: Seq<WitnessModel>, e: LockEvidence, indices: Seq<usize>, n: int)
    requires
        0 <= n <= indices.len(),
        sec004::name_witnesses(indices, ws.len() as int),
        sec004::lock_evidence_verdict(e) is Ok,
        forall|k: int|
            0 <= k < indices.len() ==> {
                let w = ws[(#[trigger] indices[k]) as int];
                &&& w.byzantine || !w.store.evidence.contains_key(sec004::evidence_key(e))
                    || w.store.evidence[sec004::evidence_key(e)].digest == e.digest
                &&& crypto::signs_well(w.seed, sec004::ack_bytes(sec004::fingerprint_of(e)))
            },
    ensures
        ({
            let done = sec004::anchored(ws, e, indices, n);
            &&& done.witnesses.len() == ws.len()
            &&& done.acked is Ok
            &&& done.acked->Ok_0 =~= keys_before(ws, indices, n)
            &&& forall|j: int|
                0 <= j < ws.len() ==> {
                    let w = #[trigger] done.witnesses[j];
                    &&& w.seed == ws[j].seed
                    &&& w.byzantine == ws[j].byzantine
                    &&& w.store.evidence == ws[j].store.evidence || w.store.evidence.contains_key(
                        sec004::evidence_key(e),
                    ) && w.store.evidence[sec004::evidence_key(e)].digest == e.digest
                }
        }),
    decreases n,
{
    if n > 0 {
        reveal(sec004::anchor_step);
        lemma_anchoring(ws, e, indices, n - 1);
        let before = sec004::anchored(ws, e, indices, n - 1);
        let i = indices[n - 1] as int;
        let w = before.witnesses[i];
        let fp = sec004::fingerprint_of(e);
        assert(crypto::signs_well(w.seed, sec004::ack_bytes(fp)));
        assert(sec004::witness_keys(ws)[i] == crypto::public_key(w.seed));
        assert(sec004::witness_keys(ws).to_set().contains(crypto::public_key(w.seed)));
        assert(sec004::witness_reply(w, e) is Ok);
        assert(sec004::ack_verdict(
            sec004::witness_reply(w, e)->Ok_0,
            sec004::witness_keys(ws).to_set(),
            fp,
        ) is Ok);
        lemma_keys_before(ws, indices, n);
    } else {
        assert(keys_before(ws, indices, n) =~= Set::empty());
    }
}

/// The keys of the first `n` witnesses with these numbers.
pub open spec fn keys_before(ws: Seq<WitnessModel>, indices: Seq<usize>, n: int) -> Set<
    PublicKeyBytes,
> {
    Set::new(
        |key: PublicKeyBytes|
            exists|k: int|
                0 <= k < n && crypto::public_key(ws[(#[trigger] indices[k]) as int].seed) == key,
    )
}

proof fn lemma_keys_before(ws: Seq<WitnessModel>, indices: Seq<usize>, n: int)
    requires
        0 < n <= indices.len(),
    ensures
        keys_before(ws, indices, n) =~= keys_before(ws, indices, n - 1).insert(
            crypto::public_key(ws[indices[n - 1] as int].seed),
        ),
{
    let m = n - 1;
    assert forall|key: PublicKeyBytes|
        keys_before(ws, indices, n).contains(key) == keys_before(ws, indices, m).insert(
            crypto::public_key(ws[indices[m] as int].seed),
        ).contains(key) by {
        if keys_before(ws, indices, n).contains(key) {
            let k = choose|k: int|
                0 <= k < n && crypto::public_key(ws[(#[trigger] indices[k]) as int].seed) == key;
            if k != m {
                assert(0 <= k < m && crypto::public_key(ws[indices[k] as int].seed) == key);
            }
        }
        if keys_before(ws, indices, m).contains(key) {
            let k = choose|k: int|
                0 <= k < m && crypto::public_key(ws[(#[trigger] indices[k]) as int].seed) == key;
            assert(0 <= k < n && crypto::public_key(ws[indices[k] as int].seed) == key);
        }
        assert(crypto::public_key(ws[indices[m] as int].seed) == crypto::public_key(
            ws[indices[m] as int].seed,
        ));
    }
}

/// An input is anchored exactly if five different witnesses were asked, where each of them
/// keeps nothing else for the certifier and input.
pub proof fn law_anchoring_succeeds_if(
    seed: [u8; 32],
    tx_digest: Digest,
    ws: Seq<WitnessModel>,
    indices: Seq<usize>,
    input: InputRef,
)
    requires
        sec004::name_witnesses(indices, ws.len() as int),
        crypto::signs_well(
            seed,
            sec004::evidence_bytes(crypto::public_key(seed), input, tx_digest),
        ),
        forall|k: int|
            0 <= k < indices.len() ==> {
                let w = ws[(#[trigger] indices[k]) as int];
                let key = EvidenceKey { certifier: crypto::public_key(seed), epoch: 4, input };
                &&& w.byzantine || !w.store.evidence.contains_key(key)
                    || w.store.evidence[key].digest == tx_digest
                &&& crypto::signs_well(
                    w.seed,
                    sec004::ack_bytes(
                        sec004::fingerprint_of(sec004::evidence_of(seed, input, tx_digest)),
                    ),
                )
            },
    ensures
        sec004::input_anchored(seed, tx_digest, ws, indices, input).1 is Ok <==> keys_before(
            ws,
            indices,
            indices.len() as int,
        ).len() >= 5,
{
    reveal(sec004::input_anchored);
    let e = sec004::evidence_of(seed, input, tx_digest);
    assert(sec004::lock_evidence_verdict(e) is Ok);
    lemma_anchoring(ws, e, indices, indices.len() as int);
}

proof fn lemma_witnesses_open(logs: Seq<Seq<u8>>, n: int)
    requires
        0 <= n <= logs.len() <= usize::MAX,
    ensures
        sec004::opened_witnesses(logs, n) is Ok <==> forall|i: int|
            0 <= i < n ==> sec004::replayed_evidence(#[trigger] logs[i]) is Ok,
        sec004::opened_witnesses(logs, n) matches Ok(ws) ==> ws.len() == n && forall|i: int|
            0 <= i < n ==> {
                &&& (#[trigger] ws[i]).byzantine <==> i < 2
                &&& ws[i].seed == sec004::witness_seed(i as usize)
                &&& sec004::replayed_evidence(logs[i]) == Ok::<
                    Map<EvidenceKey, LockEvidence>,
                    Seq<char>,
                >(ws[i].store.evidence)
            },
    decreases n,
{
    if n > 0 {
        lemma_witnesses_open(logs, n - 1);
    }
}

/// The witnesses open exactly if the log of each can be read. They come in the order of
/// their logs, each with its own key and the evidence of its log, and the first two are
/// Byzantine.
pub proof fn law_witnesses_open_if(logs: Seq<Seq<u8>>)
    requires
        logs.len() == 7,
    ensures
        sec004::opened_witnesses(logs, N as int) is Ok <==> forall|i: int|
            0 <= i < 7 ==> sec004::replayed_evidence(#[trigger] logs[i]) is Ok,
        sec004::opened_witnesses(logs, N as int) matches Ok(ws) ==> ws.len() == 7 && forall|i: int|
            0 <= i < 7 ==> {
                &&& (#[trigger] ws[i]).byzantine <==> i < 2
                &&& ws[i].seed == sec004::witness_seed(i as usize)
                &&& sec004::replayed_evidence(logs[i]) == Ok::<
                    Map<EvidenceKey, LockEvidence>,
                    Seq<char>,
                >(ws[i].store.evidence)
            },
{
    lemma_witnesses_open(logs, 7);
}

} // verus!
