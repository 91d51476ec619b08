//! One validator: its signing key, its state and its log.
//!
//! An honest vote is in the log before its signature leaves the process. A
//! Byzantine fixture signs whatever it is asked to sign, but it never bypasses
//! the validation with which a state is applied: two malicious shares cannot make
//! an invalid transfer a certificate of five.
use crate::bytes;
use crate::bytes::{is_zero, no_digest, put_digest, put_u64, same_array};
use crate::crypto;
use crate::crypto::{hash_domain, SigningKey};
use crate::model;
use crate::model::{
    committee_hash, conflict_key, intent_hash, lab_committee, lab_validator_key, qc_digest,
    sign_vote, validate_cell, verify_proposal, verify_qc, ApplyOutcome, ApplyReceipt, Cell, CellRef,
    CommitteeManifest, Digest, ManifestModel, OutcomeModel, Proposal, ProposalModel, Qc,
    ReceiptModel, State, StateModel, Statement, Tx, TxModel, UserAuth, Verdict, Vote, N,
    PHASE_PRECOMMIT, PHASE_PREVOTE,
};
use crate::ordmap;
use crate::ordmap::OrdSet;
use crate::state;
use crate::store;
use crate::store::{
    Lifecycle, PersistOutcome, Plan, Snapshot, SnapshotModel, StoreModel, VoteKey, WalStore,
};
use crate::store_laws;
use crate::text;
use crate::text::{concat2, parse_uint, text, text_is, with_number};
use crate::wire;
use crate::wire::{
    decode_request, decode_state, encode_qc, encode_state, Request, RequestModel, Response,
    MAX_FRAME_LEN,
};
use crate::wire_forms;
use crate::wire_laws;
use vstd::prelude::*;

verus! {

pub const REJECT_BAD_FRAME: u16 = 1;

pub const REJECT_BAD_REQUEST: u16 = 2;

pub const REJECT_INVALID_PROPOSAL: u16 = 10;

pub const REJECT_INPUT_NOT_LIVE: u16 = 11;

pub const REJECT_INVALID_PREVOTE_QC: u16 = 12;

pub const REJECT_LOCAL_PREVOTE_MISSING: u16 = 13;

pub const REJECT_DURABLE_LOCK: u16 = 14;

pub const REJECT_SIGNING: u16 = 15;

pub const REJECT_INVALID_FINALITY: u16 = 20;

pub const REJECT_STATE_APPLY: u16 = 21;

pub const REJECT_STATE_PERSIST: u16 = 22;

pub const REJECT_QUERY: u16 = 30;

pub const NODE_ARG_COUNT: usize = 6;

// ---------------------------------------------------------------------------
// Arguments.
// ---------------------------------------------------------------------------

#[derive(Debug, PartialEq, Eq)]
pub struct NodeConfig {
    pub epoch: u64,
    pub index: u8,
    pub port: u16,
    pub wal_path: String,
    pub snapshot_path: String,
    pub byzantine: bool,
}

/// The mathematical content of a [`NodeConfig`].
#[verifier::ext_equal]
pub struct ConfigModel {
    pub epoch: u64,
    pub index: u8,
    pub port: u16,
    pub wal_path: Seq<char>,
    pub snapshot_path: Seq<char>,
    pub byzantine: bool,
}

impl View for NodeConfig {
    type V = ConfigModel;

    open spec fn view(&self) -> ConfigModel {
        ConfigModel {
            epoch: self.epoch,
            index: self.index,
            port: self.port,
            wal_path: self.wal_path@,
            snapshot_path: self.snapshot_path@,
            byzantine: self.byzantine,
        }
    }
}

/// The contents of a list of strings.
pub open spec fn texts(args: Seq<String>) -> Seq<Seq<char>> {
    Seq::new(args.len(), |i: int| args[i]@)
}

/// A positive number no larger than `max`.
pub open spec fn nonzero_result(raw: Seq<char>, max: nat, label: Seq<char>) -> Result<
    nat,
    Seq<char>,
> {
    match text::parsed_uint(raw, max) {
        None => Err(label + " is not a valid integer"@),
        Some(value) => if value == 0 {
            Err(label + " must be nonzero"@)
        } else {
            Ok(value)
        },
    }
}

/// What six arguments say, where `same_path` tells whether the two paths among
/// them are the same path.
pub open spec fn config_result(args: Seq<Seq<char>>, same_path: bool) -> Result<
    ConfigModel,
    Seq<char>,
> {
    if args.len() != 6 {
        Err("internal node mode requires exactly "@ + text::dec(6) + " arguments"@)
    } else {
        match nonzero_result(args[0], u64::MAX as nat, "epoch"@) {
            Err(e) => Err(e),
            Ok(epoch) => match text::parsed_uint(args[1], u8::MAX as nat) {
                None => Err("node index is not a u8"@),
                Some(index) => if index >= N {
                    Err("node index is not a committee member"@)
                } else {
                    match nonzero_result(args[2], u16::MAX as nat, "port"@) {
                        Err(e) => Err(e),
                        Ok(port) => if args[3].len() == 0 || args[4].len() == 0 {
                            Err("WAL and initial-state paths must be nonempty"@)
                        } else if same_path {
                            Err("WAL and initial-state paths must be distinct"@)
                        } else if args[5] != "0"@ && args[5] != "1"@ {
                            Err("Byzantine marker must be exactly 0 or 1"@)
                        } else {
                            Ok(
                                ConfigModel {
                                    epoch: epoch as u64,
                                    index: index as u8,
                                    port: port as u16,
                                    wal_path: args[3],
                                    snapshot_path: args[4],
                                    byzantine: args[5] == "1"@,
                                },
                            )
                        },
                    }
                },
            },
        }
    }
}

fn parse_nonzero(raw: &str, max: u64, label: &str) -> (r: Result<u64, String>)
    ensures
        match nonzero_result(raw@, max as nat, label@) {
            Ok(value) => r is Ok && r->Ok_0 == value,
            Err(e) => r is Err && r->Err_0@ == e,
        },
{
    match parse_uint(raw, max) {
        None => Err(concat2(label, " is not a valid integer")),
        Some(value) => if value == 0 {
            Err(concat2(label, " must be nonzero"))
        } else {
            Ok(value)
        },
    }
}

/// The pieces between the slashes of a text.
pub open spec fn segments(s: Seq<char>) -> Seq<Seq<char>>
    decreases s.len(),
{
    if s.len() == 0 {
        seq![Seq::empty()]
    } else {
        let before = segments(s.drop_last());
        if s.last() == '/' {
            before.push(Seq::empty())
        } else {
            before.drop_last().push(before.last().push(s.last()))
        }
    }
}

/// A piece that is a component of a path: it is not empty, and it is a dot only at the
/// very beginning.
pub open spec fn is_component(pieces: Seq<Seq<char>>, i: int) -> bool {
    &&& pieces[i].len() > 0
    &&& pieces[i] == seq!['.'] ==> i == 0
}

/// The components among the first `n` pieces.
pub open spec fn components(pieces: Seq<Seq<char>>, n: int) -> Seq<Seq<char>>
    decreases n,
{
    if n <= 0 {
        Seq::empty()
    } else if is_component(pieces, n - 1) {
        components(pieces, n - 1).push(pieces[n - 1])
    } else {
        components(pieces, n - 1)
    }
}

/// The components of a text that is read as a path with slashes.
pub open spec fn path_components(s: Seq<char>) -> Seq<Seq<char>> {
    components(segments(s), segments(s).len() as int)
}

/// A path starts at a root.
pub open spec fn rooted(s: Seq<char>) -> bool {
    s.len() > 0 && s[0] == '/'
}

/// A text that is the same path on every platform: it holds no other separator than
/// slashes, no drive, and no server at its beginning.
pub open spec fn portable(s: Seq<char>) -> bool {
    &&& forall|i: int| 0 <= i < s.len() ==> (#[trigger] s[i]) != '\\' && s[i] != ':'
    &&& !(s.len() >= 2 && s[0] == '/' && s[1] == '/')
}

/// Two texts that are read as paths with slashes are the same path.
pub open spec fn one_path(a: Seq<char>, b: Seq<char>) -> bool {
    &&& rooted(a) == rooted(b)
    &&& path_components(a) == path_components(b)
}

/// `std::path::Path`'s `==`, which compares paths component by component: equal texts
/// are equal paths, and texts that mean the same on every platform are equal paths if
/// both or neither starts at a root and their components are equal. Repeated slashes, a
/// slash at the end and dots behind the beginning make no components. What other texts
/// are equal paths depends on the platform and is left open.
#[verifier::external_body]
fn same_path(a: &str, b: &str) -> (r: bool)
    ensures
        a@ == b@ ==> r,
        portable(a@) && portable(b@) ==> (r <==> one_path(a@, b@)),
{
    std::path::Path::new(a) == std::path::Path::new(b)
}

impl NodeConfig {
    /// Reads the six positional arguments `<epoch> <index> <port> <wal-path>
    /// <initial-state-path> <0|1>`.
    pub fn parse(args: &Vec<String>) -> (r: Result<NodeConfig, String>)
        ensures
            args@.len() != 6 ==> text::shown_view(r) == config_result(texts(args@), false),
            args@.len() == 6 && portable(args@[3]@) && portable(args@[4]@) ==> text::shown_view(r)
                == config_result(texts(args@), one_path(args@[3]@, args@[4]@)),
            args@.len() == 6 ==> exists|same: bool|
                {
                    &&& args@[3]@ == args@[4]@ ==> same
                    &&& text::shown_view(r) == #[trigger] config_result(texts(args@), same)
                },
    {
        let same: bool = if args.len() == NODE_ARG_COUNT {
            same_path(args[3].as_str(), args[4].as_str())
        } else {
            false
        };
        Self::parse_with(args, same)
    }

    /// Reads the six arguments, given whether their two paths are the same path.
    pub fn parse_with(args: &Vec<String>, same_path: bool) -> (r: Result<NodeConfig, String>)
        ensures
            text::shown_view(r) == config_result(texts(args@), same_path),
    {
        if args.len() != NODE_ARG_COUNT {
            return Err(
                with_number(
                    "internal node mode requires exactly ",
                    NODE_ARG_COUNT as u64,
                    " arguments",
                ),
            );
        }
        let epoch: u64 = parse_nonzero(args[0].as_str(), u64::MAX, "epoch")?;
        let index: u64 = match parse_uint(args[1].as_str(), u8::MAX as u64) {
            Some(index) => index,
            None => {
                return Err(text("node index is not a u8"));
            },
        };
        if index >= N as u64 {
            return Err(text("node index is not a committee member"));
        }
        let port: u64 = parse_nonzero(args[2].as_str(), u16::MAX as u64, "port")?;
        if args[3].as_str().unicode_len() == 0 || args[4].as_str().unicode_len() == 0 {
            return Err(text("WAL and initial-state paths must be nonempty"));
        }
        if same_path {
            return Err(text("WAL and initial-state paths must be distinct"));
        }
        proof {
            reveal_strlit("0");
            reveal_strlit("1");
        }
        let byzantine: bool = if text_is(args[5].as_str(), "0") {
            false
        } else if text_is(args[5].as_str(), "1") {
            assert("0"@[0] != "1"@[0]);
            true
        } else {
            return Err(text("Byzantine marker must be exactly 0 or 1"));
        };
        Ok(
            NodeConfig {
                epoch,
                index: index as u8,
                port: port as u16,
                wal_path: text(args[3].as_str()),
                snapshot_path: text(args[4].as_str()),
                byzantine,
            },
        )
    }
}

proof fn lemma_plain_segments(s: Seq<char>)
    requires
        forall|i: int| 0 <= i < s.len() ==> (#[trigger] s[i]) != '/',
    ensures
        segments(s) == seq![s],
    decreases s.len(),
{
    if s.len() > 0 {
        assert forall|i: int| 0 <= i < s.drop_last().len() implies (#[trigger] s.drop_last()[i])
            != '/' by {
            assert(s.drop_last()[i] == s[i]);
        }
        lemma_plain_segments(s.drop_last());
        assert(s.last() == s[s.len() - 1]);
        assert(s.drop_last().push(s.last()) =~= s);
        assert(segments(s) =~= seq![s]);
    } else {
        assert(s =~= Seq::<char>::empty());
    }
}

proof fn lemma_file_segments(dir: Seq<char>, name: Seq<char>)
    requires
        forall|i: int| 0 <= i < name.len() ==> (#[trigger] name[i]) != '/',
    ensures
        segments(dir + seq!['/'] + name) == segments(dir).push(name),
    decreases name.len(),
{
    let s = dir + seq!['/'] + name;
    if name.len() == 0 {
        assert(s.drop_last() =~= dir);
        assert(name =~= Seq::<char>::empty());
    } else {
        let shorter = name.drop_last();
        assert forall|i: int| 0 <= i < shorter.len() implies (#[trigger] shorter[i]) != '/' by {
            assert(shorter[i] == name[i]);
        }
        lemma_file_segments(dir, shorter);
        assert(s.drop_last() =~= dir + seq!['/'] + shorter);
        assert(s.last() == name[name.len() - 1]);
        assert(shorter.push(name.last()) =~= name);
        assert(segments(s) =~= segments(dir).push(name));
    }
}

/// Two names without slashes are the same path only if they are the same text.
pub proof fn law_plain_names_are_themselves(a: Seq<char>, b: Seq<char>)
    requires
        forall|i: int| 0 <= i < a.len() ==> (#[trigger] a[i]) != '/',
        forall|i: int| 0 <= i < b.len() ==> (#[trigger] b[i]) != '/',
    ensures
        one_path(a, b) <==> a == b,
{
    lemma_plain_segments(a);
    lemma_plain_segments(b);
    reveal_with_fuel(components, 2);
    assert(a.len() > 0 ==> path_components(a) =~= seq![a]);
    assert(b.len() > 0 ==> path_components(b) =~= seq![b]);
    assert(a.len() == 0 ==> a =~= Seq::<char>::empty());
    assert(b.len() == 0 ==> b =~= Seq::<char>::empty());
    if path_components(a) == path_components(b) && a.len() > 0 && b.len() > 0 {
        assert(path_components(a)[0] == path_components(b)[0]);
    }
}

/// Files with different names in whatever directories are different paths.
pub proof fn law_file_names_tell_paths_apart(
    a: Seq<char>,
    x: Seq<char>,
    b: Seq<char>,
    y: Seq<char>,
)
    requires
        x != y,
        x.len() > 0 && y.len() > 0,
        x != seq!['.'] && y != seq!['.'],
        forall|i: int| 0 <= i < x.len() ==> (#[trigger] x[i]) != '/',
        forall|i: int| 0 <= i < y.len() ==> (#[trigger] y[i]) != '/',
    ensures
        !one_path(a + seq!['/'] + x, b + seq!['/'] + y),
{
    let p = a + seq!['/'] + x;
    let q = b + seq!['/'] + y;
    lemma_file_segments(a, x);
    lemma_file_segments(b, y);
    assert(path_components(p).last() == x);
    assert(path_components(q).last() == y);
}

// ---------------------------------------------------------------------------
// The shape of a state.
// ---------------------------------------------------------------------------

/// The references of the live cells and then of the spent ones, each list in
/// ascending order.
pub open spec fn all_refs(s: StateModel) -> Seq<CellRef> {
    keys_of(ordmap::listed(s.live)) + keys_of(ordmap::listed(s.spent_by))
}

pub open spec fn keys_of<V>(entries: Seq<(CellRef, V)>) -> Seq<CellRef> {
    Seq::new(entries.len(), |i: int| entries[i].0)
}

/// The identifiers of the first `n` references.
pub open spec fn ids_seen(refs: Seq<CellRef>, n: int) -> Set<Digest>
    decreases n,
{
    if n <= 0 || n > refs.len() {
        Set::empty()
    } else {
        ids_seen(refs, n - 1).insert(refs[n - 1].id)
    }
}

/// The verdict on the live cells from number `i` on.
pub open spec fn shape_live(s: StateModel, i: int) -> Verdict
    decreases ordmap::listed(s.live).len() - i,
{
    let entries = ordmap::listed(s.live);
    if i < 0 || i >= entries.len() {
        Ok(())
    } else if entries[i].0 != entries[i].1.reference {
        Err("state live-map key does not match embedded cell"@)
    } else {
        match model::cell_verdict(entries[i].1) {
            Err(e) => Err(e),
            Ok(_) => if ids_seen(all_refs(s), i).contains(entries[i].0.id) {
                Err("two state references share one identifier"@)
            } else if !s.known_ids.contains(entries[i].0.id) {
                Err("live cell identifier is absent from known-id set"@)
            } else if s.spent_by.contains_key(entries[i].0) {
                Err("cell is both live and spent"@)
            } else {
                shape_live(s, i + 1)
            },
        }
    }
}

/// The verdict on the spent references from number `i` on.
pub open spec fn shape_spent(s: StateModel, i: int) -> Verdict
    decreases ordmap::listed(s.spent_by).len() - i,
{
    let entries = ordmap::listed(s.spent_by);
    if i < 0 || i >= entries.len() {
        Ok(())
    } else if ids_seen(all_refs(s), ordmap::listed(s.live).len() + i).contains(entries[i].0.id) {
        Err("live/spent references share one identifier"@)
    } else if !s.known_ids.contains(entries[i].0.id) {
        Err("spent cell identifier is absent from known-id set"@)
    } else if !s.applied.contains_key(entries[i].1) {
        Err("spent-by intent has no applied receipt"@)
    } else {
        shape_spent(s, i + 1)
    }
}

/// The identifiers seen after the outputs of a receipt from number `j` on, where
/// `seen` were seen before.
pub open spec fn shape_outputs(
    s: StateModel,
    refs: Seq<CellRef>,
    j: int,
    seen: Set<Digest>,
) -> Result<Set<Digest>, Seq<char>>
    decreases refs.len() - j,
{
    if j < 0 || j >= refs.len() {
        Ok(seen)
    } else if seen.contains(refs[j].id) {
        Err("applied receipts repeat an output identifier"@)
    } else if !s.live.contains_key(refs[j]) && !s.spent_by.contains_key(refs[j]) {
        Err("applied output is absent from live/spent state"@)
    } else {
        shape_outputs(s, refs, j + 1, seen.insert(refs[j].id))
    }
}

/// The verdict on the receipts from number `i` on.
pub open spec fn shape_receipts(s: StateModel, i: int, seen: Set<Digest>) -> Verdict
    decreases ordmap::listed(s.applied).len() - i,
{
    let entries = ordmap::listed(s.applied);
    if i < 0 || i >= entries.len() {
        Ok(())
    } else if entries[i].0 != entries[i].1.intent {
        Err("applied receipt map key does not match intent"@)
    } else if entries[i].1.certificate_digest == bytes::zero_digest() {
        Err("applied receipt has a zero certificate digest"@)
    } else if entries[i].1.output_refs.len() == 0 {
        Err("applied receipt has no materialized outputs"@)
    } else {
        match shape_outputs(s, entries[i].1.output_refs, 0, seen) {
            Err(e) => Err(e),
            Ok(after) => shape_receipts(s, i + 1, after),
        }
    }
}

/// The verdict on the shape of a state.
pub open spec fn shape_verdict(s: StateModel) -> Verdict {
    match state::state_verdict(s) {
        Err(e) => Err(e),
        Ok(_) => match shape_live(s, 0) {
            Err(e) => Err(e),
            Ok(_) => match shape_spent(s, 0) {
                Err(e) => Err(e),
                Ok(_) => if ids_seen(all_refs(s), all_refs(s).len() as int) != s.known_ids {
                    Err("known-id set does not exactly match live and spent state"@)
                } else {
                    shape_receipts(s, 0, Set::empty())
                },
            },
        },
    }
}

proof fn lemma_ids_seen(refs: Seq<CellRef>, n: int)
    requires
        0 <= n <= refs.len(),
    ensures
        forall|d: Digest| #[trigger]
            ids_seen(refs, n).contains(d) <==> exists|j: int|
                0 <= j < n && (#[trigger] refs[j]).id == d,
    decreases n,
{
    if n > 0 {
        lemma_ids_seen(refs, n - 1);
        assert forall|d: Digest| #[trigger] ids_seen(refs, n).contains(d) <==> exists|j: int|
            0 <= j < n && (#[trigger] refs[j]).id == d by {
            if ids_seen(refs, n).contains(d) {
                if d == refs[n - 1].id {
                    assert(refs[n - 1].id == d);
                } else {
                    assert(ids_seen(refs, n - 1).contains(d));
                    let j = choose|j: int| 0 <= j < n - 1 && (#[trigger] refs[j]).id == d;
                    assert(refs[j].id == d);
                }
            }
            if exists|j: int| 0 <= j < n && (#[trigger] refs[j]).id == d {
                let j = choose|j: int| 0 <= j < n && (#[trigger] refs[j]).id == d;
                if j < n - 1 {
                    assert(ids_seen(refs, n - 1).contains(d));
                }
            }
        }
    }
}

proof fn lemma_shape_live(s: StateModel, i: int)
    requires
        0 <= i <= ordmap::listed(s.live).len(),
    ensures
        shape_live(s, i) is Ok <==> forall|k: int|
            i <= k < ordmap::listed(s.live).len() ==> {
                let e = #[trigger] ordmap::listed(s.live)[k];
                &&& e.0 == e.1.reference
                &&& model::cell_verdict(e.1) is Ok
                &&& !ids_seen(all_refs(s), k).contains(e.0.id)
                &&& s.known_ids.contains(e.0.id)
                &&& !s.spent_by.contains_key(e.0)
            },
    decreases ordmap::listed(s.live).len() - i,
{
    if i < ordmap::listed(s.live).len() {
        lemma_shape_live(s, i + 1);
    }
}

proof fn lemma_shape_spent(s: StateModel, i: int)
    requires
        0 <= i <= ordmap::listed(s.spent_by).len(),
    ensures
        shape_spent(s, i) is Ok <==> forall|k: int|
            i <= k < ordmap::listed(s.spent_by).len() ==> {
                let e = #[trigger] ordmap::listed(s.spent_by)[k];
                &&& !ids_seen(all_refs(s), ordmap::listed(s.live).len() + k).contains(e.0.id)
                &&& s.known_ids.contains(e.0.id)
                &&& s.applied.contains_key(e.1)
            },
    decreases ordmap::listed(s.spent_by).len() - i,
{
    if i < ordmap::listed(s.spent_by).len() {
        lemma_shape_spent(s, i + 1);
    }
}

/// A reference is that of a live cell or of a spent one.
pub open spec fn referenced(s: StateModel, r: CellRef) -> bool {
    s.live.contains_key(r) || s.spent_by.contains_key(r)
}

/// The references from number `j` on are those of cells, with identifiers that differ
/// from each other and from those in `seen`.
pub open spec fn outputs_fresh(
    s: StateModel,
    refs: Seq<CellRef>,
    j: int,
    seen: Set<Digest>,
) -> bool {
    &&& forall|k: int|
        j <= k < refs.len() ==> referenced(s, #[trigger] refs[k]) && !seen.contains(refs[k].id)
    &&& forall|a: int, b: int|
        j <= a < b < refs.len() ==> (#[trigger] refs[a]).id != (#[trigger] refs[b]).id
}

proof fn lemma_shape_outputs(s: StateModel, refs: Seq<CellRef>, j: int, seen: Set<Digest>)
    requires
        0 <= j <= refs.len(),
    ensures
        shape_outputs(s, refs, j, seen) is Ok <==> outputs_fresh(s, refs, j, seen),
        shape_outputs(s, refs, j, seen) matches Ok(after) ==> forall|d: Digest| #[trigger]
            after.contains(d) <==> seen.contains(d) || exists|k: int|
                j <= k < refs.len() && (#[trigger] refs[k]).id == d,
    decreases refs.len() - j,
{
    if j < refs.len() {
        let next = seen.insert(refs[j].id);
        lemma_shape_outputs(s, refs, j + 1, next);
        if outputs_fresh(s, refs, j, seen) {
            assert(outputs_fresh(s, refs, j + 1, next)) by {
                assert forall|k: int| j + 1 <= k < refs.len() implies referenced(
                    s,
                    #[trigger] refs[k],
                ) && !next.contains(refs[k].id) by {
                    assert(refs[j].id != refs[k].id);
                }
            }
        }
        if shape_outputs(s, refs, j, seen) is Ok {
            assert(outputs_fresh(s, refs, j + 1, next));
            assert forall|a: int, b: int| j <= a < b < refs.len() implies (#[trigger] refs[a]).id
                != (#[trigger] refs[b]).id by {
                if a == j {
                    assert(!next.contains(refs[b].id));
                }
            }
            assert forall|k: int| j <= k < refs.len() implies referenced(s, #[trigger] refs[k])
                && !seen.contains(refs[k].id) by {
                if k > j {
                    assert(!next.contains(refs[k].id));
                }
            }
            let after = shape_outputs(s, refs, j, seen)->Ok_0;
            assert forall|d: Digest| #[trigger] after.contains(d) <==> seen.contains(d) || exists|
                k: int,
            |
                j <= k < refs.len() && (#[trigger] refs[k]).id == d by {
                if after.contains(d) && !seen.contains(d) {
                    if next.contains(d) {
                        assert(refs[j].id == d);
                    } else {
                        let k = choose|k: int|
                            j + 1 <= k < refs.len() && (#[trigger] refs[k]).id == d;
                        assert(refs[k].id == d);
                    }
                }
                if exists|k: int| j <= k < refs.len() && (#[trigger] refs[k]).id == d {
                    let k = choose|k: int| j <= k < refs.len() && (#[trigger] refs[k]).id == d;
                    if k == j {
                        assert(next.contains(d));
                    } else {
                        assert(j + 1 <= k && refs[k].id == d);
                    }
                }
            }
        }
    }
}

/// The receipts from number `i` on are complete, and their outputs are cells with
/// identifiers that differ from each other and from those in `seen`.
pub open spec fn receipts_fresh(
    entries: Seq<(Digest, ReceiptModel)>,
    s: StateModel,
    i: int,
    seen: Set<Digest>,
) -> bool {
    &&& forall|k: int|
        i <= k < entries.len() ==> {
            let e = #[trigger] entries[k];
            &&& e.0 == e.1.intent
            &&& e.1.certificate_digest != bytes::zero_digest()
            &&& e.1.output_refs.len() > 0
            &&& outputs_fresh(s, e.1.output_refs, 0, seen)
        }
    &&& forall|k: int, l: int, a: int, b: int|
        i <= k < l < entries.len() && 0 <= a < entries[k].1.output_refs.len() && 0 <= b
            < entries[l].1.output_refs.len() ==> (#[trigger] entries[k].1.output_refs[a]).id != (
        #[trigger] entries[l].1.output_refs[b]).id
}

proof fn lemma_shape_receipts(s: StateModel, i: int, seen: Set<Digest>)
    requires
        0 <= i <= ordmap::listed(s.applied).len(),
    ensures
        shape_receipts(s, i, seen) is Ok <==> receipts_fresh(ordmap::listed(s.applied), s, i, seen),
    decreases ordmap::listed(s.applied).len() - i,
{
    let entries = ordmap::listed(s.applied);
    if i < entries.len() {
        let refs = entries[i].1.output_refs;
        lemma_shape_outputs(s, refs, 0, seen);
        if let Ok(after) = shape_outputs(s, refs, 0, seen) {
            lemma_shape_receipts(s, i + 1, after);
            if receipts_fresh(entries, s, i, seen) {
                assert forall|k: int| i + 1 <= k < entries.len() implies outputs_fresh(
                    s,
                    (#[trigger] entries[k]).1.output_refs,
                    0,
                    after,
                ) by {
                    let others = entries[k].1.output_refs;
                    assert(outputs_fresh(s, others, 0, seen));
                    assert forall|b: int| 0 <= b < others.len() implies !after.contains(
                        (#[trigger] others[b]).id,
                    ) by {
                        if after.contains(others[b].id) {
                            let a = choose|a: int|
                                0 <= a < refs.len() && (#[trigger] refs[a]).id == others[b].id;
                            assert(entries[i].1.output_refs[a].id
                                != entries[k].1.output_refs[b].id);
                        }
                    }
                }
                assert(receipts_fresh(entries, s, i + 1, after));
            }
            if shape_receipts(s, i, seen) is Ok {
                assert forall|k: int| i <= k < entries.len() implies outputs_fresh(
                    s,
                    (#[trigger] entries[k]).1.output_refs,
                    0,
                    seen,
                ) by {
                    if k > i {
                        let others = entries[k].1.output_refs;
                        assert(outputs_fresh(s, others, 0, after));
                        assert forall|b: int| 0 <= b < others.len() implies !seen.contains(
                            (#[trigger] others[b]).id,
                        ) by {
                            assert(!after.contains(others[b].id));
                        }
                    }
                }
                assert forall|k: int, l: int, a: int, b: int|
                    i <= k < l < entries.len() && 0 <= a < entries[k].1.output_refs.len() && 0 <= b
                        < entries[l].1.output_refs.len() implies (
                #[trigger] entries[k].1.output_refs[a]).id != (
                #[trigger] entries[l].1.output_refs[b]).id by {
                    if k == i {
                        assert(outputs_fresh(s, entries[l].1.output_refs, 0, after));
                        assert(refs[a].id == entries[k].1.output_refs[a].id);
                        assert(after.contains(refs[a].id));
                        assert(!after.contains(entries[l].1.output_refs[b].id));
                    }
                }
            }
        }
    }
}

/// The receipt of `d` has an output number `j`.
pub open spec fn has_output(s: StateModel, d: Digest, j: int) -> bool {
    s.applied.contains_key(d) && 0 <= j < s.applied[d].output_refs.len()
}

/// A state of the right shape: it is consistent, no two cells, live or spent, share an
/// identifier, the known identifiers are those of the cells, every spent cell was spent
/// by a transaction with a receipt, every receipt names its certificate, and the outputs
/// of the receipts are cells, each the output of one receipt only.
pub open spec fn shape_valid(s: StateModel) -> bool {
    &&& state::state_valid(s)
    &&& forall|a: CellRef, b: CellRef| #[trigger]
        referenced(s, a) && #[trigger] referenced(s, b) && a.id == b.id ==> a == b
    &&& forall|d: Digest| #[trigger]
        s.known_ids.contains(d) <==> exists|r: CellRef| #[trigger] referenced(s, r) && r.id == d
    &&& forall|r: CellRef| #[trigger]
        s.spent_by.contains_key(r) ==> s.applied.contains_key(s.spent_by[r])
    &&& forall|d: Digest| #[trigger]
        s.applied.contains_key(d) ==> s.applied[d].certificate_digest != bytes::zero_digest()
    &&& forall|d: Digest, j: int| #[trigger]
        has_output(s, d, j) ==> referenced(s, s.applied[d].output_refs[j])
    &&& forall|d: Digest, j: int, e: Digest, k: int| #[trigger]
        has_output(s, d, j) && #[trigger] has_output(s, e, k) && s.applied[d].output_refs[j].id
            == s.applied[e].output_refs[k].id ==> d == e && j == k
}

proof fn lemma_all_refs(s: StateModel)
    requires
        state::state_finite(s),
    ensures
        forall|k: int|
            0 <= k < ordmap::listed(s.live).len() ==> all_refs(s)[k] == (
            #[trigger] ordmap::listed(s.live)[k]).0,
        forall|k: int|
            0 <= k < ordmap::listed(s.spent_by).len() ==> all_refs(s)[ordmap::listed(s.live).len()
                + k] == (#[trigger] ordmap::listed(s.spent_by)[k]).0,
        forall|j: int| 0 <= j < all_refs(s).len() ==> referenced(s, #[trigger] all_refs(s)[j]),
        forall|r: CellRef| #[trigger]
            referenced(s, r) ==> exists|j: int|
                0 <= j < all_refs(s).len() && #[trigger] all_refs(s)[j] == r,
{
    let live = ordmap::listed(s.live);
    let spent = ordmap::listed(s.spent_by);
    state::lemma_entries(s.live);
    state::lemma_entries(s.spent_by);
    assert forall|j: int| 0 <= j < all_refs(s).len() implies referenced(
        s,
        #[trigger] all_refs(s)[j],
    ) by {
        if j < live.len() {
            assert(all_refs(s)[j] == live[j].0);
        } else {
            assert(all_refs(s)[j] == spent[j - live.len()].0);
        }
    }
    assert forall|r: CellRef| #[trigger] referenced(s, r) implies exists|j: int|
        0 <= j < all_refs(s).len() && #[trigger] all_refs(s)[j] == r by {
        if s.live.contains_key(r) {
            let i = choose|i: int| 0 <= i < live.len() && #[trigger] live[i] == (r, s.live[r]);
            assert(all_refs(s)[i] == r);
        } else {
            let i = choose|i: int|
                0 <= i < spent.len() && #[trigger] spent[i] == (r, s.spent_by[r]);
            assert(all_refs(s)[live.len() + i] == r);
        }
    }
}

proof fn lemma_refs_differ(s: StateModel, i: int, j: int)
    requires
        state::state_finite(s),
        forall|r: CellRef| #[trigger] s.live.contains_key(r) ==> !s.spent_by.contains_key(r),
        0 <= i < j < all_refs(s).len(),
    ensures
        all_refs(s)[i] != all_refs(s)[j],
{
    let live = ordmap::listed(s.live);
    let spent = ordmap::listed(s.spent_by);
    let n = live.len() as int;
    lemma_all_refs(s);
    state::lemma_entries(s.live);
    state::lemma_entries(s.spent_by);
    ordmap::lemma_listed_finite(s.live);
    ordmap::lemma_listed_finite(s.spent_by);
    if j < n {
        ordmap::lemma_ascending_index(live, i);
        ordmap::lemma_ascending_index(live, j);
        assert(all_refs(s)[i] == live[i].0 && all_refs(s)[j] == live[j].0);
    } else if i < n {
        assert(all_refs(s)[i] == live[i].0);
        assert(all_refs(s)[j] == spent[j - n].0);
        assert(s.live.contains_key(live[i].0));
        assert(s.spent_by.contains_key(spent[j - n].0));
    } else {
        ordmap::lemma_ascending_index(spent, i - n);
        ordmap::lemma_ascending_index(spent, j - n);
        assert(all_refs(s)[i] == spent[i - n].0 && all_refs(s)[j] == spent[j - n].0);
    }
}

proof fn lemma_shape_is_valid(s: StateModel)
    requires
        state::state_finite(s),
        shape_verdict(s) is Ok,
    ensures
        shape_valid(s),
{
    let live = ordmap::listed(s.live);
    let spent = ordmap::listed(s.spent_by);
    let entries = ordmap::listed(s.applied);
    let refs = all_refs(s);
    state::law_state_verdict(s);
    lemma_shape_live(s, 0);
    lemma_shape_spent(s, 0);
    lemma_shape_receipts(s, 0, Set::empty());
    lemma_all_refs(s);
    state::lemma_entries(s.live);
    state::lemma_entries(s.spent_by);
    state::lemma_entries(s.applied);
    assert forall|i: int, j: int| 0 <= i < j < refs.len() implies (#[trigger] refs[i]).id != (
    #[trigger] refs[j]).id by {
        lemma_ids_seen(refs, j);
        if j < live.len() {
            assert(refs[j] == live[j].0);
        } else {
            assert(refs[j] == spent[j - live.len()].0);
        }
        assert(!ids_seen(refs, j).contains(refs[j].id));
    }
    assert forall|a: CellRef, b: CellRef| #[trigger]
        referenced(s, a) && #[trigger] referenced(s, b) && a.id == b.id implies a == b by {
        let i = choose|i: int| 0 <= i < refs.len() && #[trigger] refs[i] == a;
        let j = choose|j: int| 0 <= j < refs.len() && #[trigger] refs[j] == b;
        if i < j {
            assert(refs[i].id != refs[j].id);
        } else if j < i {
            assert(refs[j].id != refs[i].id);
        }
    }
    lemma_ids_seen(refs, refs.len() as int);
    assert forall|d: Digest| #[trigger] s.known_ids.contains(d) <==> exists|r: CellRef| #[trigger]
        referenced(s, r) && r.id == d by {
        if s.known_ids.contains(d) {
            let j = choose|j: int| 0 <= j < refs.len() && (#[trigger] refs[j]).id == d;
            assert(referenced(s, refs[j]));
        }
        if exists|r: CellRef| #[trigger] referenced(s, r) && r.id == d {
            let r = choose|r: CellRef| #[trigger] referenced(s, r) && r.id == d;
            let j = choose|j: int| 0 <= j < refs.len() && #[trigger] refs[j] == r;
            assert(refs[j].id == d);
        }
    }
    assert forall|r: CellRef| #[trigger] s.spent_by.contains_key(r) implies s.applied.contains_key(
        s.spent_by[r],
    ) by {
        let i = choose|i: int| 0 <= i < spent.len() && #[trigger] spent[i] == (r, s.spent_by[r]);
        assert(s.applied.contains_key(spent[i].1));
    }
    assert forall|d: Digest| #[trigger] s.applied.contains_key(d) implies s.applied[d].certificate_digest
        != bytes::zero_digest() by {
        let i = choose|i: int| 0 <= i < entries.len() && #[trigger] entries[i] == (d, s.applied[d]);
        assert(entries[i].1.certificate_digest != bytes::zero_digest());
    }
    assert forall|d: Digest, j: int| #[trigger] has_output(s, d, j) implies referenced(
        s,
        s.applied[d].output_refs[j],
    ) by {
        let i = choose|i: int| 0 <= i < entries.len() && #[trigger] entries[i] == (d, s.applied[d]);
        assert(outputs_fresh(s, entries[i].1.output_refs, 0, Set::empty()));
    }
    assert forall|d: Digest, j: int, e: Digest, k: int| #[trigger]
        has_output(s, d, j) && #[trigger] has_output(s, e, k) && s.applied[d].output_refs[j].id
            == s.applied[e].output_refs[k].id implies d == e && j == k by {
        let a = choose|i: int| 0 <= i < entries.len() && #[trigger] entries[i] == (d, s.applied[d]);
        let b = choose|i: int| 0 <= i < entries.len() && #[trigger] entries[i] == (e, s.applied[e]);
        assert(outputs_fresh(s, entries[a].1.output_refs, 0, Set::empty()));
        if a < b {
            assert(entries[a].1.output_refs[j].id != entries[b].1.output_refs[k].id);
        } else if b < a {
            assert(entries[b].1.output_refs[k].id != entries[a].1.output_refs[j].id);
        } else if j < k {
            assert(entries[a].1.output_refs[j].id != entries[a].1.output_refs[k].id);
        } else if k < j {
            assert(entries[a].1.output_refs[k].id != entries[a].1.output_refs[j].id);
        }
    }
}

proof fn lemma_valid_ids(s: StateModel)
    requires
        state::state_finite(s),
        shape_valid(s),
    ensures
        forall|j: int|
            0 <= j < all_refs(s).len() ==> !ids_seen(all_refs(s), j).contains(
                (#[trigger] all_refs(s)[j]).id,
            ),
        ids_seen(all_refs(s), all_refs(s).len() as int) == s.known_ids,
{
    let refs = all_refs(s);
    lemma_all_refs(s);
    assert forall|j: int| 0 <= j < refs.len() implies !ids_seen(refs, j).contains(
        (#[trigger] refs[j]).id,
    ) by {
        lemma_ids_seen(refs, j);
        if ids_seen(refs, j).contains(refs[j].id) {
            let i = choose|i: int| 0 <= i < j && (#[trigger] refs[i]).id == refs[j].id;
            assert(referenced(s, refs[i]) && referenced(s, refs[j]));
            lemma_refs_differ(s, i, j);
        }
    }
    lemma_ids_seen(refs, refs.len() as int);
    assert(ids_seen(refs, refs.len() as int) =~= s.known_ids) by {
        assert forall|d: Digest| ids_seen(refs, refs.len() as int).contains(d)
            <==> #[trigger] s.known_ids.contains(d) by {
            if ids_seen(refs, refs.len() as int).contains(d) {
                let j = choose|j: int| 0 <= j < refs.len() && (#[trigger] refs[j]).id == d;
                assert(referenced(s, refs[j]));
            }
            if s.known_ids.contains(d) {
                let r = choose|r: CellRef| #[trigger] referenced(s, r) && r.id == d;
                let j = choose|j: int| 0 <= j < refs.len() && #[trigger] refs[j] == r;
                assert(refs[j].id == d);
            }
        }
    }
}

proof fn lemma_valid_cells(s: StateModel)
    requires
        state::state_finite(s),
        shape_valid(s),
    ensures
        shape_live(s, 0) is Ok,
        shape_spent(s, 0) is Ok,
{
    let live = ordmap::listed(s.live);
    let spent = ordmap::listed(s.spent_by);
    let refs = all_refs(s);
    lemma_valid_ids(s);
    lemma_all_refs(s);
    state::lemma_entries(s.live);
    state::lemma_entries(s.spent_by);
    assert(shape_live(s, 0) is Ok) by {
        lemma_shape_live(s, 0);
        assert forall|k: int| 0 <= k < live.len() implies {
            let e = #[trigger] live[k];
            &&& e.0 == e.1.reference
            &&& model::cell_verdict(e.1) is Ok
            &&& !ids_seen(refs, k).contains(e.0.id)
            &&& s.known_ids.contains(e.0.id)
            &&& !s.spent_by.contains_key(e.0)
        } by {
            assert(refs[k] == live[k].0);
            assert(s.live.contains_key(live[k].0));
        }
    }
    assert(shape_spent(s, 0) is Ok) by {
        lemma_shape_spent(s, 0);
        assert forall|k: int| 0 <= k < spent.len() implies {
            let e = #[trigger] spent[k];
            &&& !ids_seen(refs, live.len() + k).contains(e.0.id)
            &&& s.known_ids.contains(e.0.id)
            &&& s.applied.contains_key(e.1)
        } by {
            assert(refs[live.len() + k] == spent[k].0);
            assert(s.spent_by.contains_key(spent[k].0));
        }
    }
}

proof fn lemma_valid_receipts(s: StateModel)
    requires
        state::state_finite(s),
        shape_valid(s),
    ensures
        shape_receipts(s, 0, Set::empty()) is Ok,
{
    let entries = ordmap::listed(s.applied);
    lemma_shape_receipts(s, 0, Set::empty());
    state::lemma_entries(s.applied);
    ordmap::lemma_listed_finite(s.applied);
    assert forall|k: int| 0 <= k < entries.len() implies {
        let e = #[trigger] entries[k];
        &&& e.0 == e.1.intent
        &&& e.1.certificate_digest != bytes::zero_digest()
        &&& e.1.output_refs.len() > 0
        &&& outputs_fresh(s, e.1.output_refs, 0, Set::empty())
    } by {
        let d = entries[k].0;
        let outputs = entries[k].1.output_refs;
        assert(s.applied.contains_key(d) && s.applied[d] == entries[k].1);
        assert forall|j: int| 0 <= j < outputs.len() implies referenced(s, #[trigger] outputs[j]) by {
            assert(has_output(s, d, j));
        }
        assert forall|a: int, b: int| 0 <= a < b < outputs.len() implies (
        #[trigger] outputs[a]).id != (#[trigger] outputs[b]).id by {
            assert(has_output(s, d, a) && has_output(s, d, b));
        }
    }
    assert forall|k: int, l: int, a: int, b: int|
        0 <= k < l < entries.len() && 0 <= a < entries[k].1.output_refs.len() && 0 <= b
            < entries[l].1.output_refs.len() implies (#[trigger] entries[k].1.output_refs[a]).id
        != (#[trigger] entries[l].1.output_refs[b]).id by {
        let d = entries[k].0;
        let e = entries[l].0;
        ordmap::lemma_ascending_index(entries, k);
        ordmap::lemma_ascending_index(entries, l);
        assert(has_output(s, d, a) && has_output(s, e, b));
    }
}

/// The shape of a state is accepted exactly if it is right.
pub proof fn law_shape_verdict(s: StateModel)
    requires
        state::state_finite(s),
    ensures
        shape_verdict(s) is Ok <==> shape_valid(s),
{
    if shape_verdict(s) is Ok {
        lemma_shape_is_valid(s);
    }
    if shape_valid(s) {
        state::law_state_verdict(s);
        lemma_valid_ids(s);
        lemma_valid_cells(s);
        lemma_valid_receipts(s);
    }
}

fn shape_of_live(state: &State) -> (r: Result<OrdSet<Digest>, String>)
    ensures
        match shape_live(state@, 0) {
            Ok(_) => r is Ok && r->Ok_0@ == ids_seen(
                all_refs(state@),
                ordmap::listed(state@.live).len() as int,
            ),
            Err(e) => r is Err && r->Err_0@ == e,
        },
{
    let mut referenced_ids: OrdSet<Digest> = OrdSet::new();
    let count: usize = state.live.len();
    let mut i: usize = 0;
    while i < count
        invariant
            i <= count,
            count == ordmap::listed(state@.live).len(),
            referenced_ids@ == ids_seen(all_refs(state@), i as int),
            shape_live(state@, 0) == shape_live(state@, i as int),
        decreases count - i,
    {
        let reference: CellRef = state.live.key_at(i);
        let cell: Cell = *state.live.value_at(i);
        assert(all_refs(state@)[i as int] == reference);
        if !reference_is(&reference, &cell.reference) {
            return Err(text("state live-map key does not match embedded cell"));
        }
        validate_cell(&cell)?;
        if !referenced_ids.insert(reference.id) {
            return Err(text("two state references share one identifier"));
        }
        if !state.known_ids.contains(&reference.id) {
            return Err(text("live cell identifier is absent from known-id set"));
        }
        if state.spent_by.contains_key(&reference) {
            return Err(text("cell is both live and spent"));
        }
        i = i + 1;
    }
    Ok(referenced_ids)
}

fn reference_is(a: &CellRef, b: &CellRef) -> (r: bool)
    ensures
        r == (*a == *b),
{
    a.asset_id == b.asset_id && same_array(&a.id, &b.id) && a.generation == b.generation
}

fn shape_of_spent(state: &State, referenced: OrdSet<Digest>) -> (r: Result<OrdSet<Digest>, String>)
    requires
        referenced@ == ids_seen(all_refs(state@), ordmap::listed(state@.live).len() as int),
    ensures
        match shape_spent(state@, 0) {
            Ok(_) => r is Ok && r->Ok_0@ == ids_seen(
                all_refs(state@),
                all_refs(state@).len() as int,
            ),
            Err(e) => r is Err && r->Err_0@ == e,
        },
{
    let mut referenced_ids: OrdSet<Digest> = referenced;
    let live: usize = state.live.len();
    let count: usize = state.spent_by.len();
    let mut i: usize = 0;
    while i < count
        invariant
            i <= count,
            live == ordmap::listed(state@.live).len(),
            count == ordmap::listed(state@.spent_by).len(),
            referenced_ids@ == ids_seen(all_refs(state@), live + i),
            shape_spent(state@, 0) == shape_spent(state@, i as int),
        decreases count - i,
    {
        let reference: CellRef = state.spent_by.key_at(i);
        let spending_intent: Digest = *state.spent_by.value_at(i);
        assert(all_refs(state@)[live + i] == reference);
        if !referenced_ids.insert(reference.id) {
            return Err(text("live/spent references share one identifier"));
        }
        if !state.known_ids.contains(&reference.id) {
            return Err(text("spent cell identifier is absent from known-id set"));
        }
        if !state.applied.contains_key(&spending_intent) {
            return Err(text("spent-by intent has no applied receipt"));
        }
        i = i + 1;
    }
    Ok(referenced_ids)
}

fn shape_of_outputs(state: &State, refs: &Vec<CellRef>, seen: OrdSet<Digest>) -> (r: Result<
    OrdSet<Digest>,
    String,
>)
    ensures
        match shape_outputs(state@, refs@, 0, seen@) {
            Ok(after) => r is Ok && r->Ok_0@ == after,
            Err(e) => r is Err && r->Err_0@ == e,
        },
{
    let mut receipt_outputs: OrdSet<Digest> = seen;
    let mut j: usize = 0;
    while j < refs.len()
        invariant
            j <= refs@.len(),
            shape_outputs(state@, refs@, 0, seen@) == shape_outputs(
                state@,
                refs@,
                j as int,
                receipt_outputs@,
            ),
        decreases refs@.len() - j,
    {
        let reference: CellRef = refs[j];
        if !receipt_outputs.insert(reference.id) {
            return Err(text("applied receipts repeat an output identifier"));
        }
        if !state.live.contains_key(&reference) && !state.spent_by.contains_key(&reference) {
            return Err(text("applied output is absent from live/spent state"));
        }
        j = j + 1;
    }
    Ok(receipt_outputs)
}

fn shape_of_receipts(state: &State) -> (r: Result<(), String>)
    ensures
        text::shown(r) == shape_receipts(state@, 0, Set::empty()),
{
    let mut receipt_outputs: OrdSet<Digest> = OrdSet::new();
    let count: usize = state.applied.len();
    let mut i: usize = 0;
    while i < count
        invariant
            i <= count,
            count == ordmap::listed(state@.applied).len(),
            shape_receipts(state@, 0, Set::empty()) == shape_receipts(
                state@,
                i as int,
                receipt_outputs@,
            ),
        decreases count - i,
    {
        let intent: Digest = state.applied.key_at(i);
        let receipt: &ApplyReceipt = state.applied.value_at(i);
        if !same_array(&intent, &receipt.intent) {
            return Err(text("applied receipt map key does not match intent"));
        }
        if is_zero(&receipt.certificate_digest) {
            return Err(text("applied receipt has a zero certificate digest"));
        }
        if receipt.output_refs.len() == 0 {
            return Err(text("applied receipt has no materialized outputs"));
        }
        receipt_outputs = shape_of_outputs(state, &receipt.output_refs, receipt_outputs)?;
        i = i + 1;
    }
    Ok(())
}

/// Checks that a state is one that a genesis and transfers can lead to, as far as
/// the state itself shows it.
pub fn validate_state_shape(state: &State) -> (r: Result<(), String>)
    ensures
        text::shown(r) == shape_verdict(state@),
{
    state.validate()?;
    let live_ids: OrdSet<Digest> = shape_of_live(state)?;
    let referenced_ids: OrdSet<Digest> = shape_of_spent(state, live_ids)?;
    if !referenced_ids.same(&state.known_ids) {
        return Err(text("known-id set does not exactly match live and spent state"));
    }
    shape_of_receipts(state)
}

/// The verdict on an initial state.
pub open spec fn pure_genesis_verdict(s: StateModel) -> Verdict {
    if s.spent_by != Map::<CellRef, Digest>::empty() || s.applied != Map::<
        Digest,
        ReceiptModel,
    >::empty() {
        Err("initial-state file must be a pure unspent genesis snapshot"@)
    } else if s.known_ids.len() != s.live.len() {
        Err("pure genesis known-id count does not equal live-cell count"@)
    } else {
        Ok(())
    }
}

pub fn validate_pure_genesis(state: &State) -> (r: Result<(), String>)
    ensures
        text::shown(r) == pure_genesis_verdict(state@),
{
    if !state.spent_by.is_empty() || !state.applied.is_empty() {
        return Err(text("initial-state file must be a pure unspent genesis snapshot"));
    }
    if state.known_ids.len() != state.live.len() {
        return Err(text("pure genesis known-id count does not equal live-cell count"));
    }
    Ok(())
}

/// The verdict on the receipts of a state from number `i` on, held against a log.
pub open spec fn receipts_recorded(s: StateModel, w: StoreModel, i: int) -> Verdict
    decreases ordmap::listed(s.applied).len() - i,
{
    let entries = ordmap::listed(s.applied);
    if i < 0 || i >= entries.len() {
        Ok(())
    } else if !w.state.applied.contains_key(entries[i].0) {
        Err("durable state receipt is absent from WAL"@)
    } else if w.state.applied[entries[i].0].certificate_digest
        != entries[i].1.certificate_digest {
        Err("durable state and WAL disagree on certificate digest"@)
    } else {
        receipts_recorded(s, w, i + 1)
    }
}

/// The verdict on a state held against a log.
pub open spec fn reconcile_verdict(s: StateModel, w: StoreModel) -> Verdict {
    if s.applied.len() != w.state.applied.len() {
        Err("durable state and WAL disagree on applied transaction count"@)
    } else {
        receipts_recorded(s, w, 0)
    }
}

pub fn reconcile_state_with_wal(state: &State, store: &WalStore) -> (r: Result<(), String>)
    ensures
        text::shown(r) == reconcile_verdict(state@, store@),
        store@.state.applied.dom().finite(),
{
    let count: usize = state.applied.len();
    let recorded: usize = store.applied_count();
    if count != recorded {
        return Err(text("durable state and WAL disagree on applied transaction count"));
    }
    let mut i: usize = 0;
    while i < count
        invariant
            i <= count,
            count == ordmap::listed(state@.applied).len(),
            state@.applied.len() == store@.state.applied.len(),
            store@.state.applied.dom().finite(),
            receipts_recorded(state@, store@, 0) == receipts_recorded(state@, store@, i as int),
        decreases count - i,
    {
        let intent: Digest = state.applied.key_at(i);
        let receipt: &ApplyReceipt = state.applied.value_at(i);
        match store.applied_record(intent) {
            None => {
                return Err(text("durable state receipt is absent from WAL"));
            },
            Some(durable) => {
                if !same_array(&durable.certificate_digest, &receipt.certificate_digest) {
                    return Err(text("durable state and WAL disagree on certificate digest"));
                }
            },
        }
        i = i + 1;
    }
    Ok(())
}

// ---------------------------------------------------------------------------
// Digests.
// ---------------------------------------------------------------------------

/// The handoff digest with which a genesis is activated.
pub open spec fn activation_digest(committee: Digest, epoch: u64, state_root: Digest) -> Digest {
    crypto::digest(
        "CALIBRE_INTEGRATION001_GENESIS_ACTIVATION_V1"@,
        committee@ + bytes::le64(epoch) + state_root@,
    )
}

pub fn genesis_activation_digest(committee_hash: Digest, epoch: u64, state_root: Digest) -> (d:
    Digest)
    ensures
        d == activation_digest(committee_hash, epoch, state_root),
{
    let mut bytes: Vec<u8> = Vec::new();
    put_digest(&mut bytes, &committee_hash);
    put_u64(&mut bytes, epoch);
    put_digest(&mut bytes, &state_root);
    assert(bytes@ =~= committee_hash@ + bytes::le64(epoch) + state_root@);
    hash_domain("CALIBRE_INTEGRATION001_GENESIS_ACTIVATION_V1", &bytes)
}

/// What a Byzantine node binds a precommit to if a certificate is malformed: a
/// nonzero digest of its bytes.
pub open spec fn adversarial_result(votes: Seq<Vote>) -> Result<Digest, Seq<char>> {
    match wire::framed(wire::qc_fits(votes), wire::qc_wire(votes)) {
        Err(e) => Err(e),
        Ok(bytes) => {
            let d = crypto::digest("CALIBRE_INTEGRATION001_ADVERSARIAL_QC_BYTES_V1"@, bytes);
            Ok(
                if d == bytes::zero_digest() {
                    bytes::arr::<32>(bytes::zeros(32).update(0, 1))
                } else {
                    d
                },
            )
        },
    }
}

pub fn adversarial_qc_digest(qc: &Qc) -> (r: Result<Digest, String>)
    ensures
        text::shown(r) == adversarial_result(qc@),
{
    let bytes: Vec<u8> = encode_qc(qc)?;
    let mut digest: Digest = hash_domain("CALIBRE_INTEGRATION001_ADVERSARIAL_QC_BYTES_V1", &bytes);
    if is_zero(&digest) {
        digest[0] = 1;
        proof {
            bytes::lemma_arr_view::<32>(bytes::zeros(32));
            bytes::lemma_arr_of_view(digest);
            assert(digest@ =~= bytes::zeros(32).update(0, 1));
        }
    }
    Ok(digest)
}

// ---------------------------------------------------------------------------
// The validator.
// ---------------------------------------------------------------------------

/// A validator refuses a request with a code.
#[derive(Clone, Copy, Debug, PartialEq, Eq, Structural)]
pub struct NodeRejection {
    pub code: u16,
}

impl NodeRejection {
    pub fn new(code: u16) -> (r: Self)
        ensures
            r.code == code,
    {
        NodeRejection { code }
    }
}

/// One validator.
#[derive(Debug)]
pub struct NodeServer {
    index: u8,
    byzantine: bool,
    committee_hash: Digest,
    manifest: CommitteeManifest,
    signing_key: SigningKey,
    state: State,
    store: WalStore,
}

/// The mathematical content of a [`NodeServer`].
#[verifier::ext_equal]
pub struct NodeModel {
    pub index: u8,
    pub byzantine: bool,
    pub committee_hash: Digest,
    pub manifest: ManifestModel,
    pub seed: [u8; 32],
    pub state: StateModel,
    pub store: StoreModel,
}

impl View for NodeServer {
    type V = NodeModel;

    closed spec fn view(&self) -> NodeModel {
        NodeModel {
            index: self.index,
            byzantine: self.byzantine,
            committee_hash: self.committee_hash,
            manifest: self.manifest@,
            seed: self.signing_key.seed,
            state: self.state@,
            store: self.store@,
        }
    }
}

/// The state `s` is the one that a store holds.
#[verifier::opaque]
pub open spec fn recorded(s: StateModel, w: StoreModel) -> bool {
    let durable = w.state.current_snapshot;
    &&& wire::whole(wire::p_state(durable.bytes), durable.bytes) == Ok::<StateModel, Seq<char>>(s)
    &&& durable.state_root == state::root_digest(s)
    &&& state::state_finite(s)
    &&& shape_verdict(s) is Ok
    &&& reconcile_verdict(s, w) is Ok
    &&& w.state.applied.dom().finite()
}

/// What holds of every validator: its log brings about its store, and the state
/// that it holds is the one that the store holds.
pub open spec fn node_ok(n: NodeModel) -> bool {
    &&& store::store_ok(n.store)
    &&& n.store.committee_hash == n.committee_hash
    &&& n.store.epoch == n.manifest.epoch
    &&& n.store.state.lifecycle != Lifecycle::Initialized
    &&& recorded(n.state, n.store)
}

/// The initial state in a file.
pub open spec fn initial_result(bytes: Seq<u8>) -> Result<StateModel, Seq<char>> {
    if bytes.len() > MAX_FRAME_LEN {
        Err("initial state exceeds "@ + text::dec(MAX_FRAME_LEN as nat) + " bytes"@)
    } else {
        match wire::whole(wire::p_state(bytes), bytes) {
            Err(e) => Err("decode initial state: "@ + e),
            Ok(s) => match shape_verdict(s) {
                Err(e) => Err(e),
                Ok(_) => match pure_genesis_verdict(s) {
                    Err(e) => Err(e),
                    Ok(_) => Ok(s),
                },
            },
        }
    }
}

/// Reads the initial state from the bytes of its file.
pub fn decode_initial_state(bytes: &Vec<u8>) -> (r: Result<State, String>)
    ensures
        text::shown_view(r) == initial_result(bytes@),
{
    if bytes.len() > MAX_FRAME_LEN {
        return Err(with_number("initial state exceeds ", MAX_FRAME_LEN as u64, " bytes"));
    }
    let state: State = match decode_state(bytes) {
        Ok(state) => state,
        Err(error) => {
            return Err(concat2("decode initial state: ", error.as_str()));
        },
    };
    validate_state_shape(&state)?;
    validate_pure_genesis(&state)?;
    Ok(state)
}

/// The store of a validator that is opened: a new log is initialized, and a
/// committee that was only provisioned is activated.
pub open spec fn opened_store(
    log: Seq<u8>,
    committee: Digest,
    epoch: u64,
    snapshot: SnapshotModel,
) -> Result<StoreModel, Seq<char>> {
    match store::open_result(log, committee, epoch, Some(snapshot)) {
        Err(e) => Err(e),
        Ok(store) => if store.state.lifecycle == Lifecycle::Initialized {
            let plan = store::activate_plan(
                store,
                activation_digest(committee, epoch, snapshot.state_root),
                snapshot,
            );
            match plan {
                Err(e) => Err(e),
                Ok(_) => Ok(store::planned_store(store, plan)),
            }
        } else {
            Ok(store)
        },
    }
}

/// The state that a store holds.
pub open spec fn durable_result(store: StoreModel) -> Result<StateModel, Seq<char>> {
    let durable = store.state.current_snapshot;
    match wire::whole(wire::p_state(durable.bytes), durable.bytes) {
        Err(e) => Err("decode durable state: "@ + e),
        Ok(s) => match shape_verdict(s) {
            Err(e) => Err(e),
            Ok(_) => if durable.committee_hash != store.committee_hash || durable.epoch
                != store.epoch || durable.state_root != state::root_digest(s) {
                Err("durable state wrapper does not match canonical state bytes"@)
            } else {
                match reconcile_verdict(s, store) {
                    Err(e) => Err(e),
                    Ok(_) => Ok(s),
                }
            },
        },
    }
}

/// The validator that its arguments, its initial state and its log make.
pub open spec fn opened(config: ConfigModel, initial: Seq<u8>, log: Seq<u8>) -> Result<
    NodeModel,
    Seq<char>,
> {
    let m = model::lab_manifest(config.epoch);
    match model::committee_result(m) {
        Err(e) => Err(e),
        Ok(committee) => if config.index >= N {
            Err("node index missing from fixture committee"@)
        } else {
            match initial_result(initial) {
                Err(e) => Err(e),
                Ok(s) => match opened_store(
                    log,
                    committee,
                    config.epoch,
                    SnapshotModel {
                        committee_hash: committee,
                        epoch: config.epoch,
                        state_root: state::root_digest(s),
                        bytes: initial,
                    },
                ) {
                    Err(e) => Err(e),
                    Ok(store) => match durable_result(store) {
                        Err(e) => Err(e),
                        Ok(state) => Ok(
                            NodeModel {
                                index: config.index,
                                byzantine: config.byzantine,
                                committee_hash: committee,
                                manifest: m,
                                seed: model::validator_seed(config.epoch, config.index as int),
                                state,
                                store,
                            },
                        ),
                    },
                },
            }
        },
    }
}

/// The verdict on a proposal that an honest validator is to vote for.
#[verifier::opaque]
pub open spec fn live_proposal_verdict(n: NodeModel, p: ProposalModel) -> Result<(), u16> {
    let r = p.tx.input.reference;
    if model::proposal_verdict(p, n.manifest) is Err {
        Err(REJECT_INVALID_PROPOSAL)
    } else if !n.state.live.contains_key(r) || n.state.live[r] != p.tx.input {
        Err(REJECT_INPUT_NOT_LIVE)
    } else {
        Ok(())
    }
}

/// What a vote of a validator for a proposal is cast on.
pub open spec fn vote_key(p: ProposalModel, phase: u8) -> VoteKey {
    VoteKey { conflict_key: model::conflict_digest(p.tx.input.reference), round: p.round, phase }
}

/// The vote that a validator signs for a proposal.
#[verifier::opaque]
pub open spec fn node_vote(n: NodeModel, p: ProposalModel, phase: u8, justify: Digest) -> Result<
    Vote,
    u16,
> {
    match model::vote_signed(
        n.manifest,
        phase,
        p.round,
        model::conflict_digest(p.tx.input.reference),
        p.intent,
        justify,
        n.index,
        n.seed,
    ) {
        Ok(vote) => Ok(vote),
        Err(_) => Err(REJECT_SIGNING),
    }
}

/// What a request comes to: the answer, and the validator after it.
pub struct Handled<T> {
    pub answer: Result<T, u16>,
    pub after: NodeModel,
}

pub open spec fn refused<T>(n: NodeModel, code: u16) -> Handled<T> {
    Handled { answer: Err(code), after: n }
}

/// What a decision of the store makes of a validator.
pub open spec fn with_plan(n: NodeModel, plan: Plan) -> NodeModel {
    NodeModel { store: store::planned_store(n.store, plan), ..n }
}

#[verifier::opaque]
pub open spec fn prevoted(n: NodeModel, p: ProposalModel) -> Handled<Vote> {
    if n.byzantine {
        Handled { answer: node_vote(n, p, PHASE_PREVOTE, bytes::zero_digest()), after: n }
    } else {
        match live_proposal_verdict(n, p) {
            Err(code) => refused(n, code),
            Ok(()) => {
                let plan = store::vote_plan(n.store, vote_key(p, PHASE_PREVOTE), p.intent);
                if plan is Err {
                    refused(n, REJECT_DURABLE_LOCK)
                } else {
                    Handled {
                        answer: node_vote(n, p, PHASE_PREVOTE, bytes::zero_digest()),
                        after: with_plan(n, plan),
                    }
                }
            },
        }
    }
}

/// The statement that a prevote certificate of a proposal has to be on.
pub open spec fn prevote_wanted(p: ProposalModel) -> Statement {
    Statement {
        phase: PHASE_PREVOTE,
        round: p.round,
        conflict: model::conflict_digest(p.tx.input.reference),
        intent: p.intent,
        justify: None,
    }
}

/// The digest to which a Byzantine validator binds a precommit.
#[verifier::opaque]
pub open spec fn byzantine_digest(n: NodeModel, prevote: Seq<Vote>) -> Result<Digest, u16> {
    match model::qc_digest_result(prevote, n.manifest) {
        Ok(d) => Ok(d),
        Err(_) => match adversarial_result(prevote) {
            Ok(d) => Ok(d),
            Err(_) => Err(REJECT_SIGNING),
        },
    }
}

/// The digest to which an honest validator may bind a precommit.
#[verifier::opaque]
pub open spec fn honest_digest(n: NodeModel, p: ProposalModel, prevote: Seq<Vote>) -> Result<
    Digest,
    u16,
> {
    match live_proposal_verdict(n, p) {
        Err(code) => Err(code),
        Ok(()) => if model::qc_verdict(prevote, n.manifest, prevote_wanted(p)) is Err
            || model::qc_digest_result(prevote, n.manifest) is Err {
            Err(REJECT_INVALID_PREVOTE_QC)
        } else if n.store.state.votes.get(vote_key(p, PHASE_PREVOTE)) != Some(p.intent) {
            Err(REJECT_LOCAL_PREVOTE_MISSING)
        } else {
            Ok(model::qc_digest_result(prevote, n.manifest)->Ok_0)
        },
    }
}

#[verifier::opaque]
pub open spec fn precommitted(n: NodeModel, p: ProposalModel, prevote: Seq<Vote>) -> Handled<Vote> {
    if n.byzantine {
        match byzantine_digest(n, prevote) {
            Err(code) => refused(n, code),
            Ok(d) => Handled { answer: node_vote(n, p, PHASE_PRECOMMIT, d), after: n },
        }
    } else {
        match honest_digest(n, p, prevote) {
            Err(code) => refused(n, code),
            Ok(d) => {
                let plan = store::vote_plan(n.store, vote_key(p, PHASE_PRECOMMIT), p.intent);
                if plan is Err {
                    refused(n, REJECT_DURABLE_LOCK)
                } else {
                    Handled {
                        answer: node_vote(n, p, PHASE_PRECOMMIT, d),
                        after: with_plan(n, plan),
                    }
                }
            },
        }
    }
}

/// The snapshot of a state of a validator.
pub open spec fn snapshot_of(n: NodeModel, s: StateModel) -> SnapshotModel {
    SnapshotModel {
        committee_hash: n.committee_hash,
        epoch: n.manifest.epoch,
        state_root: state::root_digest(s),
        bytes: wire::state_wire(s),
    }
}

/// How a new receipt is to be recorded.
pub open spec fn receipt_plan(n: NodeModel, next: StateModel, receipt: ReceiptModel) -> Result<
    Plan,
    u16,
> {
    if shape_verdict(next) is Err || wire::framed(wire::state_fits(next), wire::state_wire(next)) is Err {
        Err(REJECT_STATE_APPLY)
    } else {
        Ok(
            store::apply_plan(
                n.store,
                receipt.intent,
                receipt.certificate_digest,
                snapshot_of(n, next),
            ),
        )
    }
}

/// What a finalized transfer comes to: the root of the state after it, and
/// whether it had been applied before.
#[verifier::opaque]
pub open spec fn node_applied(
    n: NodeModel,
    tx: TxModel,
    auth: UserAuth,
    prevote: Seq<Vote>,
    finality: Seq<Vote>,
) -> Handled<(Digest, bool)> {
    match state::apply_result(n.state, tx, auth, prevote, finality, n.manifest) {
        Err(_) => refused(n, REJECT_INVALID_FINALITY),
        Ok(OutcomeModel::AlreadyApplied(_)) => Handled {
            answer: Ok((state::root_digest(n.state), true)),
            after: n,
        },
        Ok(OutcomeModel::Applied(receipt)) => {
            let next = state::state_after(n.state, tx, receipt);
            match receipt_plan(n, next, receipt) {
                Err(code) => refused(n, code),
                Ok(plan) => match plan {
                    Err(_) => refused(n, REJECT_STATE_PERSIST),
                    Ok(c) => Handled {
                        answer: Ok((state::root_digest(next), c is None)),
                        after: NodeModel { state: next, ..with_plan(n, plan) },
                    },
                },
            }
        },
    }
}

pub open spec fn answered<T>(h: Handled<T>, f: spec_fn(T) -> Response) -> Handled<Response> {
    Handled {
        answer: match h.answer {
            Ok(v) => Ok(f(v)),
            Err(code) => Err(code),
        },
        after: h.after,
    }
}

/// What any request comes to.
pub open spec fn handled(n: NodeModel, request: RequestModel) -> Handled<Response> {
    match request {
        RequestModel::Ping => Handled {
            answer: Ok(
                Response::Pong {
                    index: n.index,
                    epoch: n.manifest.epoch,
                    committee_hash: n.committee_hash,
                },
            ),
            after: n,
        },
        RequestModel::Prevote(p) => answered(prevoted(n, p), |v: Vote| Response::Vote(v)),
        RequestModel::Precommit(p, qc) => answered(
            precommitted(n, p, qc),
            |v: Vote| Response::Vote(v),
        ),
        RequestModel::Apply(tx, auth, prevote, finality) => answered(
            node_applied(n, tx, auth, prevote, finality),
            |v: (Digest, bool)| Response::Applied { state_root: v.0, idempotent: v.1 },
        ),
        RequestModel::QueryState => Handled {
            answer: match store::file_len(n.store) {
                Err(_) => Err(REJECT_QUERY),
                Ok(wal_bytes) => Ok(
                    Response::State {
                        state_root: state::root_digest(n.state),
                        snapshot_bytes: n.store.state.current_snapshot.bytes.len() as u64,
                        wal_bytes,
                        lifecycle: n.store.state.lifecycle,
                    },
                ),
            },
            after: n,
        },
    }
}

pub open spec fn coded<T>(r: Result<T, NodeRejection>) -> Result<T, u16> {
    match r {
        Ok(v) => Ok(v),
        Err(e) => Err(e.code),
    }
}

impl NodeServer {
    /// Opens a validator from its arguments, the bytes of its initial state and
    /// the bytes of its log. What its log holds beyond `log` has yet to be
    /// written.
    pub fn open(config: &NodeConfig, initial_bytes: Vec<u8>, log: Vec<u8>) -> (r: Result<
        NodeServer,
        String,
    >)
        ensures
            text::shown_view(r) == opened(config@, initial_bytes@, log@),
            r is Ok ==> node_ok(r->Ok_0@),
    {
        let manifest: CommitteeManifest = lab_committee(config.epoch);
        let committee: Digest = committee_hash(&manifest)?;
        let signing_key: SigningKey = lab_validator_key(config.epoch, config.index as usize);
        if config.index as usize >= manifest.members.len() {
            return Err(text("node index missing from fixture committee"));
        }
        let initial_state: State = decode_initial_state(&initial_bytes)?;
        let initial_snapshot: Snapshot = Snapshot {
            committee_hash: committee,
            epoch: config.epoch,
            state_root: initial_state.root(),
            bytes: initial_bytes,
        };
        let mut store: WalStore = WalStore::open(
            log,
            committee,
            config.epoch,
            Some(initial_snapshot.clone()),
        )?;
        if store.lifecycle() == Lifecycle::Initialized {
            let handoff: Digest = genesis_activation_digest(
                committee,
                config.epoch,
                initial_snapshot.state_root,
            );
            store.activate(handoff, initial_snapshot)?;
        }
        let state: State = Self::durable_state(&store)?;
        proof {
            reveal(recorded);
        }
        Ok(
            NodeServer {
                index: config.index,
                byzantine: config.byzantine,
                committee_hash: committee,
                manifest,
                signing_key,
                state,
                store,
            },
        )
    }

    /// The state that a store holds.
    fn durable_state(store: &WalStore) -> (r: Result<State, String>)
        ensures
            text::shown_view(r) == durable_result(store@),
            r is Ok ==> state::state_finite(r->Ok_0@) && store@.state.applied.dom().finite(),
    {
        let durable: &Snapshot = store.current_snapshot();
        let state: State = match decode_state(&durable.bytes) {
            Ok(state) => state,
            Err(error) => {
                return Err(concat2("decode durable state: ", error.as_str()));
            },
        };
        validate_state_shape(&state)?;
        let root: Digest = state.root();
        if !same_array(&durable.committee_hash, &store.committee_hash()) || durable.epoch
            != store.epoch() || !same_array(&durable.state_root, &root) {
            return Err(text("durable state wrapper does not match canonical state bytes"));
        }
        reconcile_state_with_wal(&state, store)?;
        Ok(state)
    }

    /// The verdict on a proposal that an honest validator is to vote for.
    fn validate_live_proposal(&self, proposal: &Proposal) -> (r: Result<(), NodeRejection>)
        ensures
            coded(r) == live_proposal_verdict(self@, proposal@),
    {
        proof {
            reveal(live_proposal_verdict);
        }
        if verify_proposal(proposal, &self.manifest).is_err() {
            return Err(NodeRejection::new(REJECT_INVALID_PROPOSAL));
        }
        match self.state.live_cell(proposal.tx.input.reference) {
            Some(cell) => if cell.same(&proposal.tx.input) {
                Ok(())
            } else {
                Err(NodeRejection::new(REJECT_INPUT_NOT_LIVE))
            },
            None => Err(NodeRejection::new(REJECT_INPUT_NOT_LIVE)),
        }
    }

    /// Signs a vote for a proposal.
    fn sign(&self, proposal: &Proposal, phase: u8, justify: Digest) -> (r: Result<
        Vote,
        NodeRejection,
    >)
        ensures
            coded(r) == node_vote(self@, proposal@, phase, justify),
    {
        proof {
            reveal(node_vote);
        }
        match sign_vote(
            &self.manifest,
            phase,
            proposal.round,
            conflict_key(proposal.tx.input.reference),
            proposal.intent,
            justify,
            self.index,
            &self.signing_key,
        ) {
            Ok(vote) => Ok(vote),
            Err(_) => Err(NodeRejection::new(REJECT_SIGNING)),
        }
    }

    /// The digest to which this validator may bind a precommit.
    fn precommit_digest(&self, proposal: &Proposal, prevote_qc: &Qc) -> (r: Result<
        Digest,
        NodeRejection,
    >)
        ensures
            coded(r) == if self@.byzantine {
                byzantine_digest(self@, prevote_qc@)
            } else {
                honest_digest(self@, proposal@, prevote_qc@)
            },
    {
        proof {
            reveal(byzantine_digest);
            reveal(honest_digest);
        }
        if self.byzantine {
            // Cooperate with a valid certificate, so that Byzantine shares can
            // take part in the ordinary path; otherwise bind the malformed bytes.
            return match qc_digest(prevote_qc, &self.manifest) {
                Ok(digest) => Ok(digest),
                Err(_) => match adversarial_qc_digest(prevote_qc) {
                    Ok(digest) => Ok(digest),
                    Err(_) => Err(NodeRejection::new(REJECT_SIGNING)),
                },
            };
        }
        self.validate_live_proposal(proposal)?;
        let conflict: Digest = conflict_key(proposal.tx.input.reference);
        if verify_qc(
            prevote_qc,
            &self.manifest,
            PHASE_PREVOTE,
            proposal.round,
            conflict,
            proposal.intent,
            None,
        ).is_err() {
            return Err(NodeRejection::new(REJECT_INVALID_PREVOTE_QC));
        }
        let digest: Digest = match qc_digest(prevote_qc, &self.manifest) {
            Ok(digest) => digest,
            Err(_) => {
                return Err(NodeRejection::new(REJECT_INVALID_PREVOTE_QC));
            },
        };
        match self.store.vote_digest(conflict, proposal.round, PHASE_PREVOTE) {
            Some(voted) => if same_array(&voted, &proposal.intent) {
                Ok(digest)
            } else {
                Err(NodeRejection::new(REJECT_LOCAL_PREVOTE_MISSING))
            },
            None => Err(NodeRejection::new(REJECT_LOCAL_PREVOTE_MISSING)),
        }
    }

    /// Votes for a proposal in the first phase.
    fn prevote(&mut self, proposal: &Proposal) -> (r: Result<Vote, NodeRejection>)
        requires
            node_ok(old(self)@),
        ensures
            coded(r) == prevoted(old(self)@, proposal@).answer,
            final(self)@ == prevoted(old(self)@, proposal@).after,
            node_ok(final(self)@),
    {
        let none: Digest = no_digest();
        let ghost n = self@;
        proof {
            reveal(prevoted);
        }
        if self.byzantine {
            // The fixture adversaries sign a malformed proposal or both sides of
            // a conflict. Their signatures carry only two committee identities.
            return self.sign(proposal, PHASE_PREVOTE, none);
        }
        self.validate_live_proposal(proposal)?;
        let conflict: Digest = conflict_key(proposal.tx.input.reference);
        let persisted: Result<PersistOutcome, String> = self.store.persist_vote(
            conflict,
            proposal.round,
            PHASE_PREVOTE,
            proposal.intent,
        );
        proof {
            lemma_vote_keeps_node(n, vote_key(proposal@, PHASE_PREVOTE), proposal@.intent);
            lemma_vote_of(n, self@, proposal@, PHASE_PREVOTE, none);
        }
        if persisted.is_err() {
            return Err(NodeRejection::new(REJECT_DURABLE_LOCK));
        }
        self.sign(proposal, PHASE_PREVOTE, none)
    }

    /// Votes for a proposal in the second phase.
    fn precommit(&mut self, proposal: &Proposal, prevote_qc: &Qc) -> (r: Result<
        Vote,
        NodeRejection,
    >)
        requires
            node_ok(old(self)@),
        ensures
            coded(r) == precommitted(old(self)@, proposal@, prevote_qc@).answer,
            final(self)@ == precommitted(old(self)@, proposal@, prevote_qc@).after,
            node_ok(final(self)@),
    {
        let ghost n = self@;
        proof {
            reveal(precommitted);
        }
        let digest: Digest = self.precommit_digest(proposal, prevote_qc)?;
        if !self.byzantine {
            let conflict: Digest = conflict_key(proposal.tx.input.reference);
            let persisted: Result<PersistOutcome, String> = self.store.persist_vote(
                conflict,
                proposal.round,
                PHASE_PRECOMMIT,
                proposal.intent,
            );
            proof {
                lemma_vote_keeps_node(n, vote_key(proposal@, PHASE_PRECOMMIT), proposal@.intent);
                lemma_vote_of(n, self@, proposal@, PHASE_PRECOMMIT, digest);
            }
            if persisted.is_err() {
                return Err(NodeRejection::new(REJECT_DURABLE_LOCK));
            }
        }
        self.sign(proposal, PHASE_PRECOMMIT, digest)
    }

    /// Checks that a transfer has a certificate of prevotes, and one of precommits
    /// that is bound to it.
    fn verify_finality_chain(&self, tx: &Tx, prevote_qc: &Qc, finality_qc: &Qc) -> (r: Result<
        (),
        NodeRejection,
    >)
        ensures
            coded(r) == if state::chain_verdict(tx@, prevote_qc@, finality_qc@, self@.manifest) is Ok {
                Ok::<(), u16>(())
            } else {
                Err::<(), u16>(REJECT_INVALID_FINALITY)
            },
    {
        let rejected: NodeRejection = NodeRejection::new(REJECT_INVALID_FINALITY);
        let intent: Digest = match intent_hash(tx) {
            Ok(intent) => intent,
            Err(_) => {
                return Err(rejected);
            },
        };
        let conflict: Digest = conflict_key(tx.input.reference);
        if prevote_qc.votes.len() == 0 {
            return Err(rejected);
        }
        let round: u64 = prevote_qc.votes[0].round;
        if verify_qc(
            prevote_qc,
            &self.manifest,
            PHASE_PREVOTE,
            round,
            conflict,
            intent,
            None,
        ).is_err() {
            return Err(rejected);
        }
        let prevote_digest: Digest = match qc_digest(prevote_qc, &self.manifest) {
            Ok(digest) => digest,
            Err(_) => {
                return Err(rejected);
            },
        };
        if verify_qc(
            finality_qc,
            &self.manifest,
            PHASE_PRECOMMIT,
            round,
            conflict,
            intent,
            Some(prevote_digest),
        ).is_err() {
            return Err(rejected);
        }
        proof {
            model::law_qc_has_a_quorum(
                finality_qc@,
                self@.manifest,
                state::precommit_statement(tx@, prevote_qc@),
            );
            assert(model::vote_on(finality_qc@[0], state::precommit_statement(tx@, prevote_qc@)));
        }
        Ok(())
    }

    /// The state after a finalized transfer, where it is new, and its receipt.
    fn finalized(&self, tx: &Tx, auth: &UserAuth, prevote_qc: &Qc, finality_qc: &Qc) -> (r: Result<
        (State, Option<ApplyReceipt>),
        NodeRejection,
    >)
        ensures
            match state::apply_result(
                self@.state,
                tx@,
                *auth,
                prevote_qc@,
                finality_qc@,
                self@.manifest,
            ) {
                Err(_) => r is Err && r->Err_0.code == REJECT_INVALID_FINALITY,
                Ok(OutcomeModel::AlreadyApplied(_)) => r is Ok && r->Ok_0.1 is None,
                Ok(OutcomeModel::Applied(receipt)) => r is Ok && r->Ok_0.1 is Some
                    && r->Ok_0.1->Some_0@ == receipt && r->Ok_0.0@ == state::state_after(
                    self@.state,
                    tx@,
                    receipt,
                ),
            },
    {
        self.verify_finality_chain(tx, prevote_qc, finality_qc)?;
        let mut next: State = self.state.clone();
        match next.apply_finalized(tx, auth, prevote_qc, finality_qc, &self.manifest) {
            Err(_) => Err(NodeRejection::new(REJECT_INVALID_FINALITY)),
            Ok(ApplyOutcome::AlreadyApplied(_)) => Ok((next, None)),
            Ok(ApplyOutcome::Applied(receipt)) => Ok((next, Some(receipt))),
        }
    }

    /// The snapshot of the state after a new receipt.
    fn next_snapshot(&self, next: &State) -> (r: Result<Snapshot, NodeRejection>)
        ensures
            match r {
                Ok(snapshot) => shape_verdict(next@) is Ok && wire::framed(
                    wire::state_fits(next@),
                    wire::state_wire(next@),
                ) is Ok && snapshot@ == snapshot_of(self@, next@) && state::state_finite(next@),
                Err(e) => e.code == REJECT_STATE_APPLY && (shape_verdict(next@) is Err || wire::framed(
                    wire::state_fits(next@),
                    wire::state_wire(next@),
                ) is Err),
            },
    {
        if validate_state_shape(next).is_err() {
            return Err(NodeRejection::new(REJECT_STATE_APPLY));
        }
        match encode_state(next) {
            Err(_) => Err(NodeRejection::new(REJECT_STATE_APPLY)),
            Ok(bytes) => Ok(
                Snapshot {
                    committee_hash: self.committee_hash,
                    epoch: self.manifest.epoch,
                    state_root: next.root(),
                    bytes,
                },
            ),
        }
    }

    /// Applies a finalized transfer. A Byzantine validator does not bypass this.
    #[verifier::rlimit(30)]
    fn apply(&mut self, tx: &Tx, auth: &UserAuth, prevote_qc: &Qc, finality_qc: &Qc) -> (r: Result<
        (Digest, bool),
        NodeRejection,
    >)
        requires
            node_ok(old(self)@),
        ensures
            coded(r) == node_applied(
                old(self)@,
                tx@,
                *auth,
                prevote_qc@,
                finality_qc@,
            ).answer,
            final(self)@ == node_applied(
                old(self)@,
                tx@,
                *auth,
                prevote_qc@,
                finality_qc@,
            ).after,
            node_ok(final(self)@),
    {
        let ghost n = self@;
        proof {
            reveal(node_applied);
        }
        let (next, receipt): (State, Option<ApplyReceipt>) = self.finalized(
            tx,
            auth,
            prevote_qc,
            finality_qc,
        )?;
        match receipt {
            None => Ok((self.state.root(), true)),
            Some(receipt) => {
                let next_snapshot: Snapshot = self.next_snapshot(&next)?;
                proof {
                    lemma_same_receipts(n.state, n.store, receipt.intent);
                }
                let persisted: Result<PersistOutcome, String> = self.store.apply_verified(
                    receipt.intent,
                    receipt.certificate_digest,
                    next_snapshot,
                );
                proof {
                    if persisted is Ok {
                        lemma_apply_keeps_node(
                            n.state,
                            tx@,
                            next@,
                            receipt@,
                            n.store,
                            self.store@,
                        );
                    }
                }
                match persisted {
                    Err(_) => Err(NodeRejection::new(REJECT_STATE_PERSIST)),
                    Ok(PersistOutcome::Persisted) => {
                        self.state = next;
                        Ok((self.state.root(), false))
                    },
                    Ok(PersistOutcome::AlreadyPresent) => {
                        self.state = next;
                        Ok((self.state.root(), true))
                    },
                }
            },
        }
    }

    /// Handles a request.
    pub fn handle(&mut self, request: &Request) -> (r: Result<Response, NodeRejection>)
        requires
            node_ok(old(self)@),
        ensures
            coded(r) == handled(old(self)@, request@).answer,
            final(self)@ == handled(old(self)@, request@).after,
            node_ok(final(self)@),
    {
        match request {
            Request::Ping => Ok(
                Response::Pong {
                    index: self.index,
                    epoch: self.manifest.epoch,
                    committee_hash: self.committee_hash,
                },
            ),
            Request::Prevote(proposal) => {
                let vote: Vote = self.prevote(proposal)?;
                Ok(Response::Vote(vote))
            },
            Request::Precommit { proposal, prevote_qc } => {
                let vote: Vote = self.precommit(proposal, prevote_qc)?;
                Ok(Response::Vote(vote))
            },
            Request::Apply { tx, auth, prevote_qc, finality_qc } => {
                let (state_root, idempotent): (Digest, bool) = self.apply(
                    tx,
                    auth,
                    prevote_qc,
                    finality_qc,
                )?;
                Ok(Response::Applied { state_root, idempotent })
            },
            Request::QueryState => match self.store.wal_bytes() {
                Err(_) => Err(NodeRejection::new(REJECT_QUERY)),
                Ok(wal_bytes) => Ok(
                    Response::State {
                        state_root: self.state.root(),
                        snapshot_bytes: self.store.current_snapshot().bytes.len() as u64,
                        wal_bytes,
                        lifecycle: self.store.lifecycle(),
                    },
                ),
            },
        }
    }

    /// The bytes that have to be past the durability boundary before
    /// [`NodeServer::handle`] takes up a request: what the request appends to the
    /// log. Where they could not be written, [`NodeServer::append_failed`] is
    /// called first.
    pub fn record_for(&self, request: &Request) -> (r: Option<Vec<u8>>)
        requires
            node_ok(self@),
        ensures
            handled(self@, request@).after.store.log == self@.store.log + match r {
                Some(record) => record@,
                None => Seq::empty(),
            },
    {
        proof {
            bytes::lemma_concat_empty(self@.store.log);
            reveal(prevoted);
            reveal(precommitted);
            reveal(node_applied);
        }
        match request {
            Request::Ping => None,
            Request::Prevote(proposal) => {
                if self.byzantine || self.validate_live_proposal(proposal).is_err() {
                    return None;
                }
                self.vote_record(proposal, PHASE_PREVOTE)
            },
            Request::Precommit { proposal, prevote_qc } => {
                if self.byzantine || self.precommit_digest(proposal, prevote_qc).is_err() {
                    return None;
                }
                self.vote_record(proposal, PHASE_PRECOMMIT)
            },
            Request::Apply { tx, auth, prevote_qc, finality_qc } => {
                match self.finalized(tx, auth, prevote_qc, finality_qc) {
                    Ok((next, Some(receipt))) => match self.next_snapshot(&next) {
                        Ok(snapshot) => match self.store.apply_record(
                            receipt.intent,
                            receipt.certificate_digest,
                            snapshot,
                        ) {
                            Ok(record) => record,
                            Err(_) => None,
                        },
                        Err(_) => None,
                    },
                    _ => None,
                }
            },
            Request::QueryState => None,
        }
    }

    /// The bytes that a vote appends to the log.
    fn vote_record(&self, proposal: &Proposal, phase: u8) -> (r: Option<Vec<u8>>)
        requires
            node_ok(self@),
        ensures
            store::planned_store(
                self@.store,
                store::vote_plan(self@.store, vote_key(proposal@, phase), proposal@.intent),
            ).log == self@.store.log + match r {
                Some(record) => record@,
                None => Seq::empty(),
            },
    {
        proof {
            bytes::lemma_concat_empty(self@.store.log);
        }
        match self.store.vote_record(
            conflict_key(proposal.tx.input.reference),
            proposal.round,
            phase,
            proposal.intent,
        ) {
            Ok(record) => record,
            Err(_) => None,
        }
    }

    /// Stops the log: a record could not be written. `found` is the length that the file
    /// has now, or why it cannot be told.
    pub fn append_failed(&mut self, found: Result<u64, String>)
        requires
            node_ok(old(self)@),
        ensures
            final(self)@ == (NodeModel {
                store: StoreModel { failure: Some(text::shown(found)), ..old(self)@.store },
                ..old(self)@
            }),
            node_ok(final(self)@),
    {
        let ghost n = self@;
        self.store.append_failed(found);
        proof {
            reveal(recorded);
            lemma_recorded(n.state, n.store, 0);
            lemma_recorded(n.state, self.store@, 0);
        }
    }

    /// The answer to the payload of a frame, where there is one.
    pub fn answer(&mut self, payload: Option<&Vec<u8>>) -> (r: Response)
        requires
            node_ok(old(self)@),
        ensures
            r == answer_of(old(self)@, optional_bytes(payload)).0,
            final(self)@ == answer_of(old(self)@, optional_bytes(payload)).1,
            node_ok(final(self)@),
    {
        match payload {
            None => Response::Rejected { code: REJECT_BAD_FRAME },
            Some(payload) => match decode_request(payload) {
                Err(_) => Response::Rejected { code: REJECT_BAD_REQUEST },
                Ok(request) => match self.handle(&request) {
                    Ok(response) => response,
                    Err(rejection) => Response::Rejected { code: rejection.code },
                },
            },
        }
    }

    /// The bytes of the log.
    pub fn log(&self) -> (r: &Vec<u8>)
        ensures
            r@ == self@.store.log,
    {
        self.store.log()
    }
}

pub open spec fn optional_bytes(b: Option<&Vec<u8>>) -> Option<Seq<u8>> {
    match b {
        Some(b) => Some(b@),
        None => None,
    }
}

/// The answer to the payload of a frame, where there is one, and the validator
/// after it.
pub open spec fn answer_of(n: NodeModel, payload: Option<Seq<u8>>) -> (Response, NodeModel) {
    match payload {
        None => (Response::Rejected { code: REJECT_BAD_FRAME }, n),
        Some(bytes) => match wire::whole(wire::p_request(bytes), bytes) {
            Err(_) => (Response::Rejected { code: REJECT_BAD_REQUEST }, n),
            Ok(request) => (
                match handled(n, request).answer {
                    Ok(response) => response,
                    Err(code) => Response::Rejected { code },
                },
                handled(n, request).after,
            ),
        },
    }
}

/// What no request changes of a validator.
pub open spec fn same_node(a: NodeModel, b: NodeModel) -> bool {
    &&& a.index == b.index
    &&& a.byzantine == b.byzantine
    &&& a.committee_hash == b.committee_hash
    &&& a.manifest == b.manifest
    &&& a.seed == b.seed
    &&& a.store.state.initial_snapshot == b.store.state.initial_snapshot
}

/// A request changes neither who a validator is nor where it started from, and
/// takes back nothing that its log holds.
pub proof fn law_handled_keeps_node(n: NodeModel, request: RequestModel)
    requires
        node_ok(n),
    ensures
        same_node(n, handled(n, request).after),
        store_laws::extends(n.store.state, handled(n, request).after.store.state),
{
    match request {
        RequestModel::Prevote(p) => {
            lemma_prevote_extends(n, p);
        },
        RequestModel::Precommit(p, qc) => {
            lemma_precommit_extends(n, p, qc);
        },
        RequestModel::Apply(tx, auth, prevote, finality) => {
            lemma_apply_extends(n, tx, auth, prevote, finality);
        },
        _ => {},
    }
}

proof fn lemma_vote_extends(n: NodeModel, key: VoteKey, intent: Digest)
    requires
        node_ok(n),
    ensures
        same_node(n, with_plan(n, store::vote_plan(n.store, key, intent))),
        store_laws::extends(n.store.state, with_plan(n, store::vote_plan(n.store, key, intent)).store.state),
{
    store_laws::law_decisions_extend(
        n.store,
        intent,
        n.store.state.current_snapshot,
        key,
        intent,
        intent,
        0,
    );
}

proof fn lemma_prevote_extends(n: NodeModel, p: ProposalModel)
    requires
        node_ok(n),
    ensures
        same_node(n, prevoted(n, p).after),
        store_laws::extends(n.store.state, prevoted(n, p).after.store.state),
{
    reveal(prevoted);
    lemma_vote_extends(n, vote_key(p, PHASE_PREVOTE), p.intent);
}

proof fn lemma_precommit_extends(n: NodeModel, p: ProposalModel, qc: Seq<Vote>)
    requires
        node_ok(n),
    ensures
        same_node(n, precommitted(n, p, qc).after),
        store_laws::extends(n.store.state, precommitted(n, p, qc).after.store.state),
{
    reveal(precommitted);
    lemma_vote_extends(n, vote_key(p, PHASE_PRECOMMIT), p.intent);
}

proof fn lemma_apply_extends(
    n: NodeModel,
    tx: TxModel,
    auth: UserAuth,
    prevote: Seq<Vote>,
    finality: Seq<Vote>,
)
    requires
        node_ok(n),
    ensures
        same_node(n, node_applied(n, tx, auth, prevote, finality).after),
        store_laws::extends(
            n.store.state,
            node_applied(n, tx, auth, prevote, finality).after.store.state,
        ),
{
    reveal(node_applied);
    if let Ok(OutcomeModel::Applied(receipt)) = state::apply_result(
        n.state,
        tx,
        auth,
        prevote,
        finality,
        n.manifest,
    ) {
        let next = state::state_after(n.state, tx, receipt);
        store_laws::law_decisions_extend(
            n.store,
            receipt.intent,
            snapshot_of(n, next),
            VoteKey { conflict_key: receipt.intent, round: 0, phase: 0 },
            receipt.intent,
            receipt.certificate_digest,
            0,
        );
    }
}

/// A restart loses nothing: a validator that was opened, and has since handled
/// requests, is opened again from its log as it was, ready to write.
pub proof fn law_node_restart(
    config: ConfigModel,
    initial: Seq<u8>,
    log: Seq<u8>,
    n: NodeModel,
)
    requires
        opened(config, initial, log) is Ok,
        same_node(opened(config, initial, log)->Ok_0, n),
        node_ok(n),
    ensures
        opened(config, initial, n.store.log) == Ok::<NodeModel, Seq<char>>(
            NodeModel { store: StoreModel { failure: None, ..n.store }, ..n },
        ),
{
    reveal(recorded);
    let first = opened(config, initial, log)->Ok_0;
    let s = initial_result(initial)->Ok_0;
    let snapshot = SnapshotModel {
        committee_hash: first.committee_hash,
        epoch: config.epoch,
        state_root: state::root_digest(s),
        bytes: initial,
    };
    assert(n.store.state.initial_snapshot == snapshot);
    store_laws::law_restart(n.store, n.store.state.initial_snapshot);
    let store = StoreModel { failure: None, ..n.store };
    lemma_recorded(n.state, n.store, 0);
    lemma_recorded(n.state, store, 0);
    assert(durable_result(store) == Ok::<StateModel, Seq<char>>(n.state));
}

/// An honest validator votes in a phase for one intent only: once it signed for
/// one on a conflict and a round, no later state of it signs for another.
pub proof fn law_honest_prevotes_once(
    n: NodeModel,
    p: ProposalModel,
    later: NodeModel,
    q: ProposalModel,
)
    requires
        !n.byzantine,
        prevoted(n, p).answer is Ok,
        !later.byzantine,
        store_laws::extends(prevoted(n, p).after.store.state, later.store.state),
        vote_key(p, PHASE_PREVOTE) == vote_key(q, PHASE_PREVOTE),
        p.intent != q.intent,
    ensures
        prevoted(later, q).answer is Err,
{
    reveal(prevoted);
    store_laws::law_no_equivocation(
        n.store,
        vote_key(p, PHASE_PREVOTE),
        p.intent,
        later.store,
        q.intent,
    );
}

/// The same holds of precommits.
pub proof fn law_honest_precommits_once(
    n: NodeModel,
    p: ProposalModel,
    prevote: Seq<Vote>,
    later: NodeModel,
    q: ProposalModel,
    other: Seq<Vote>,
)
    requires
        !n.byzantine,
        precommitted(n, p, prevote).answer is Ok,
        !later.byzantine,
        store_laws::extends(precommitted(n, p, prevote).after.store.state, later.store.state),
        vote_key(p, PHASE_PRECOMMIT) == vote_key(q, PHASE_PRECOMMIT),
        p.intent != q.intent,
    ensures
        precommitted(later, q, other).answer is Err,
{
    reveal(precommitted);
    store_laws::law_no_equivocation(
        n.store,
        vote_key(p, PHASE_PRECOMMIT),
        p.intent,
        later.store,
        q.intent,
    );
}

/// An honest precommit needs an own prevote for the same intent before it.
pub proof fn law_precommit_follows_prevote(n: NodeModel, p: ProposalModel, prevote: Seq<Vote>)
    requires
        !n.byzantine,
        precommitted(n, p, prevote).answer is Ok,
    ensures
        n.store.state.votes.get(vote_key(p, PHASE_PREVOTE)) == Some(p.intent),
        model::qc_verdict(prevote, n.manifest, prevote_wanted(p)) is Ok,
{
    reveal(precommitted);
    reveal(honest_digest);
}

/// No mode of a validator, not even the Byzantine one, applies a transfer that
/// its certificates and its owner do not authorize.
pub proof fn law_apply_needs_authority(
    n: NodeModel,
    tx: TxModel,
    auth: UserAuth,
    prevote: Seq<Vote>,
    finality: Seq<Vote>,
)
    requires
        node_applied(n, tx, auth, prevote, finality).answer is Ok,
    ensures
        state::chain_verdict(tx, prevote, finality, n.manifest) is Ok,
        model::auth_verdict(tx, auth, n.manifest) is Ok,
{
    reveal(node_applied);
}

/// A vote keeps what holds of a validator.
proof fn lemma_vote_keeps_node(n: NodeModel, key: VoteKey, digest: Digest)
    requires
        node_ok(n),
        store::store_ok(with_plan(n, store::vote_plan(n.store, key, digest)).store),
    ensures
        node_ok(with_plan(n, store::vote_plan(n.store, key, digest))),
{
    reveal(recorded);
    let after = with_plan(n, store::vote_plan(n.store, key, digest));
    lemma_recorded(n.state, n.store, 0);
    lemma_recorded(n.state, after.store, 0);
}

/// A vote that a validator signs does not depend on its store.
proof fn lemma_vote_of(n: NodeModel, after: NodeModel, p: ProposalModel, phase: u8, justify: Digest)
    requires
        after.manifest == n.manifest,
        after.index == n.index,
        after.seed == n.seed,
    ensures
        node_vote(n, p, phase, justify) == node_vote(after, p, phase, justify),
{
    reveal(node_vote);
}

/// The receipts of a state are recorded exactly if the log has each of them, with
/// its certificate.
proof fn lemma_recorded(s: StateModel, w: StoreModel, i: int)
    requires
        0 <= i <= ordmap::listed(s.applied).len(),
    ensures
        receipts_recorded(s, w, i) is Ok <==> forall|k: int|
            i <= k < ordmap::listed(s.applied).len() ==> {
                let e = #[trigger] ordmap::listed(s.applied)[k];
                w.state.applied.contains_key(e.0) && w.state.applied[e.0].certificate_digest
                    == e.1.certificate_digest
            },
    decreases ordmap::listed(s.applied).len() - i,
{
    if i < ordmap::listed(s.applied).len() {
        lemma_recorded(s, w, i + 1);
    }
}

/// A new receipt keeps what holds of a validator.
proof fn lemma_apply_keeps_node(
    s: StateModel,
    tx: TxModel,
    next: StateModel,
    receipt: ReceiptModel,
    w: StoreModel,
    after: StoreModel,
)
    requires
        recorded(s, w),
        next == state::state_after(s, tx, receipt),
        !s.applied.contains_key(receipt.intent),
        state::state_finite(next),
        shape_verdict(next) is Ok,
        wire::framed(wire::state_fits(next), wire::state_wire(next)) is Ok,
        after.state.current_snapshot.bytes == wire::state_wire(next),
        after.state.current_snapshot.state_root == state::root_digest(next),
        !w.state.applied.contains_key(receipt.intent),
        after.state.applied.contains_key(receipt.intent),
        after.state.applied[receipt.intent].certificate_digest == receipt.certificate_digest,
        after.state.applied == w.state.applied.insert(
            receipt.intent,
            after.state.applied[receipt.intent],
        ),
    ensures
        recorded(next, after),
{
    reveal(recorded);
    wire_laws::law_decode_encode_state(next);
    state::lemma_entries(s.applied);
    state::lemma_entries(next.applied);
    lemma_recorded(s, w, 0);
    lemma_recorded(next, after, 0);
}

/// The log of a validator has the receipts of its state and no others.
pub proof fn lemma_same_receipts(s: StateModel, w: StoreModel, d: Digest)
    requires
        recorded(s, w),
    ensures
        s.applied.contains_key(d) <==> w.state.applied.contains_key(d),
{
    reveal(recorded);
    state::lemma_entries(s.applied);
    lemma_recorded(s, w, 0);
    assert(s.applied.dom().subset_of(w.state.applied.dom()));
    vstd::set_lib::lemma_subset_equality(s.applied.dom(), w.state.applied.dom());
}

/// A state that a store holds can be written.
pub proof fn lemma_recorded_fits(s: StateModel, w: StoreModel)
    requires
        recorded(s, w),
    ensures
        forall|d: Digest| #[trigger]
            s.applied.contains_key(d) ==> s.applied[d].intent == d && wire::receipt_fits(
                s.applied[d],
            ) is Ok,
{
    reveal(recorded);
    wire_forms::law_read_state_has_matching_keys(w.state.current_snapshot.bytes);
}

} // verus!
