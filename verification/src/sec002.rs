//! Five certifiers of seven: honest certifiers lock the inputs of what they sign,
//! so that no two conflicting spends find a quorum while at most two certifiers
//! are Byzantine.
use crate::bytes;
use crate::bytes::same_array;
use crate::crypto;
use crate::crypto::SigningKey;
use crate::model::{Digest, PublicKeyBytes, Verdict};
use crate::ordmap::OrdMap;
use crate::spend;
use crate::spend::{
    commit, share_message_for, sign_spend, verify_authorization, Cell, InputRef, SpendModel,
    SpendTx, UserAuthorization, VerifiedSpend,
};
use crate::text;
use crate::text::push_dec;
use crate::text::text;
use crate::threshold;
use crate::threshold::{raw_claim, CertifierShare, CoreState, Scheme, SchemeModel};
use std::collections::HashMap;
use vstd::prelude::*;

verus! {

pub const CERT_EPOCH: u64 = 2;

pub const N: usize = 7;

pub const Q: usize = 5;

/// The tags and the epoch of this committee.
pub open spec fn quorum_scheme() -> SchemeModel {
    SchemeModel {
        user: "CALIBRE_SEC002_USER_SPEND_V1"@,
        commitment: "CALIBRE_SEC002_AUTHORIZED_TX_COMMITMENT_V1"@,
        share: "CALIBRE_SEC002_THRESHOLD_SHARE_V1"@,
        epoch: CERT_EPOCH,
    }
}

pub fn scheme() -> (r: Scheme)
    ensures
        r@ == quorum_scheme(),
{
    Scheme {
        user: "CALIBRE_SEC002_USER_SPEND_V1",
        commitment: "CALIBRE_SEC002_AUTHORIZED_TX_COMMITMENT_V1",
        share: "CALIBRE_SEC002_THRESHOLD_SHARE_V1",
        epoch: CERT_EPOCH,
    }
}

pub open spec fn quorum_seed(label: u64) -> Digest {
    crypto::digest("CALIBRE_SEC002_DETERMINISTIC_KEY_V1"@, bytes::le64(label))
}

pub fn deterministic_key(label: u64) -> (key: SigningKey)
    ensures
        key.seed == quorum_seed(label),
{
    crate::crypto::deterministic_key("CALIBRE_SEC002_DETERMINISTIC_KEY_V1", label)
}

/// The message that the owner of the inputs signs.
pub fn canonical_user_message(tx: &SpendTx) -> (r: Vec<u8>)
    ensures
        r@ == spend::user_message(quorum_scheme().user, tx@),
{
    crate::spend::canonical_user_message("CALIBRE_SEC002_USER_SPEND_V1", tx)
}

pub fn tx_commitment(tx: &SpendTx, signer: &PublicKeyBytes) -> (d: Digest)
    ensures
        d == threshold::scheme_commitment(quorum_scheme(), tx@, *signer),
{
    let s: Scheme = scheme();
    commit(s.commitment, s.user, tx, signer)
}

pub fn share_message(tx_digest: &Digest, user_signer: &PublicKeyBytes, epoch: u64) -> (r: Vec<u8>)
    ensures
        r@ == spend::share_message_bytes(quorum_scheme().share, *tx_digest, *user_signer, epoch),
{
    share_message_for("CALIBRE_SEC002_THRESHOLD_SHARE_V1", tx_digest, user_signer, epoch)
}

pub fn sign_user_spend(tx: &SpendTx, sk: &SigningKey) -> (r: UserAuthorization)
    ensures
        r == spend::authorization(quorum_scheme().user, tx@, sk.seed),
        crypto::has_nonce(r.signature) ==> crypto::signs_well(
            sk.seed,
            spend::user_message(quorum_scheme().user, tx@),
        ),
{
    sign_spend("CALIBRE_SEC002_USER_SPEND_V1", tx, sk)
}

pub fn verify_user_authorization(
    tx: &SpendTx,
    auth: &UserAuthorization,
    cells: &HashMap<u64, Cell>,
) -> (r: Result<VerifiedSpend, String>)
    ensures
        text::shown(r) == threshold::scheme_authorization(quorum_scheme(), tx@, *auth, cells@),
{
    let s: Scheme = scheme();
    verify_authorization(s.user, s.commitment, false, tx, auth, cells)
}

// ---------------------------------------------------------------------------
// Certifiers.
// ---------------------------------------------------------------------------

/// A certifier. An honest one locks each input that it signs for to the spend.
#[derive(Debug)]
pub struct CertifierNode {
    pub sk: SigningKey,
    pub byzantine: bool,
    pub locks: OrdMap<InputRef, Digest>,
}

/// The mathematical content of a [`CertifierNode`].
#[verifier::ext_equal]
pub struct CertifierModel {
    pub seed: [u8; 32],
    pub byzantine: bool,
    pub locks: Map<InputRef, Digest>,
}

impl View for CertifierNode {
    type V = CertifierModel;

    open spec fn view(&self) -> CertifierModel {
        CertifierModel { seed: self.sk.seed, byzantine: self.byzantine, locks: self.locks@ }
    }
}

/// Whether the inputs from number `i` on are free, or locked to the spend.
pub open spec fn locks_verdict(
    locks: Map<InputRef, Digest>,
    inputs: Seq<InputRef>,
    tx_digest: Digest,
    i: int,
) -> Verdict
    decreases inputs.len() - i,
{
    if i < 0 || i >= inputs.len() {
        Ok(())
    } else if locks.contains_key(inputs[i]) && locks[inputs[i]] != tx_digest {
        Err(
            "honest certifier conflict lock for input "@ + text::dec(inputs[i].id as nat)
                + " generation "@ + text::dec(inputs[i].generation as nat),
        )
    } else {
        locks_verdict(locks, inputs, tx_digest, i + 1)
    }
}

/// The locks after the first `n` inputs were locked to a spend.
pub open spec fn locked(
    locks: Map<InputRef, Digest>,
    inputs: Seq<InputRef>,
    tx_digest: Digest,
    n: int,
) -> Map<InputRef, Digest>
    decreases n,
{
    if n <= 0 || n > inputs.len() {
        locks
    } else {
        locked(locks, inputs, tx_digest, n - 1).insert(inputs[n - 1], tx_digest)
    }
}

/// The share that a certifier gives for an authorized spend, or why it gives
/// none.
pub open spec fn certified(
    node: CertifierModel,
    tx: SpendModel,
    auth: UserAuthorization,
    cells: Map<u64, Cell>,
) -> Result<CertifierShare, Seq<char>> {
    match threshold::scheme_authorization(quorum_scheme(), tx, auth, cells) {
        Err(e) => Err(e),
        Ok(verified) => match locks_verdict(node.locks, tx.inputs, verified.tx_digest, 0) {
            Err(e) if !node.byzantine => Err(e),
            _ => Ok(threshold::share_of(quorum_scheme(), node.seed, verified)),
        },
    }
}

/// The certifier after it was asked for a share.
pub open spec fn after_request(
    node: CertifierModel,
    tx: SpendModel,
    auth: UserAuthorization,
    cells: Map<u64, Cell>,
) -> CertifierModel {
    if !node.byzantine && certified(node, tx, auth, cells) is Ok {
        CertifierModel {
            locks: locked(
                node.locks,
                tx.inputs,
                certified(node, tx, auth, cells)->Ok_0.tx_digest,
                tx.inputs.len() as int,
            ),
            ..node
        }
    } else {
        node
    }
}

impl CertifierNode {
    pub fn new(index: usize, byzantine: bool) -> (r: Self)
        requires
            index <= u64::MAX - 100,
        ensures
            r@ == (CertifierModel {
                seed: quorum_seed((100 + index) as u64),
                byzantine,
                locks: Map::empty(),
            }),
    {
        CertifierNode {
            sk: deterministic_key(100 + index as u64),
            byzantine,
            locks: OrdMap::new(),
        }
    }

    pub fn public(&self) -> (r: PublicKeyBytes)
        ensures
            r == crypto::public_key(self@.seed),
    {
        self.sk.verifying_key().to_bytes()
    }

    pub fn make_share(&self, verified: VerifiedSpend) -> (r: CertifierShare)
        ensures
            r == threshold::share_of(quorum_scheme(), self@.seed, verified),
    {
        crate::threshold::make_share(&scheme(), &self.sk, verified)
    }

    fn check_locks(&self, inputs: &Vec<InputRef>, tx_digest: &Digest) -> (r: Result<(), String>)
        ensures
            text::shown(r) == locks_verdict(self@.locks, inputs@, *tx_digest, 0),
    {
        let mut i: usize = 0;
        while i < inputs.len()
            invariant
                i <= inputs@.len(),
                locks_verdict(self@.locks, inputs@, *tx_digest, 0) == locks_verdict(
                    self@.locks,
                    inputs@,
                    *tx_digest,
                    i as int,
                ),
            decreases inputs@.len() - i,
        {
            if let Some(existing) = self.locks.get(&inputs[i]) {
                if !same_array(existing, tx_digest) {
                    let mut refusal: String = text("honest certifier conflict lock for input ");
                    push_dec(&mut refusal, inputs[i].id);
                    refusal.append(" generation ");
                    push_dec(&mut refusal, inputs[i].generation);
                    return Err(refusal);
                }
            }
            i = i + 1;
        }
        Ok(())
    }

    fn lock_inputs(&mut self, inputs: &Vec<InputRef>, tx_digest: Digest)
        ensures
            final(self)@ == (CertifierModel {
                locks: locked(old(self)@.locks, inputs@, tx_digest, inputs@.len() as int),
                ..old(self)@
            }),
    {
        let ghost before = self@;
        let mut i: usize = 0;
        while i < inputs.len()
            invariant
                i <= inputs@.len(),
                self@ == (CertifierModel {
                    locks: locked(before.locks, inputs@, tx_digest, i as int),
                    ..before
                }),
            decreases inputs@.len() - i,
        {
            self.locks.insert(inputs[i], tx_digest);
            i = i + 1;
        }
    }

    /// Signs for a spend that the owner authorized. An honest certifier signs no
    /// spend of an input that is locked to another spend.
    pub fn authorize_and_sign(
        &mut self,
        tx: &SpendTx,
        auth: &UserAuthorization,
        cells: &HashMap<u64, Cell>,
    ) -> (r: Result<CertifierShare, String>)
        ensures
            text::shown(r) == certified(old(self)@, tx@, *auth, cells@),
            final(self)@ == after_request(old(self)@, tx@, *auth, cells@),
    {
        let verified: VerifiedSpend = verify_user_authorization(tx, auth, cells)?;
        if !self.byzantine {
            self.check_locks(&tx.inputs, &verified.tx_digest)?;
            self.lock_inputs(&tx.inputs, verified.tx_digest);
        }
        Ok(self.make_share(verified))
    }

    /// Signs a claim without a check of it, which only a Byzantine certifier does.
    pub fn sign_raw_claim(&self, tx: &SpendTx, claimed_user: PublicKeyBytes) -> (r: Result<
        CertifierShare,
        String,
    >)
        ensures
            text::shown(r) == if !self@.byzantine {
                Err::<CertifierShare, Seq<char>>(
                    "honest certifier refuses raw unverified claim"@,
                )
            } else {
                Ok(
                    threshold::share_of(
                        quorum_scheme(),
                        self@.seed,
                        (VerifiedSpend {
                            tx_digest: threshold::scheme_commitment(quorum_scheme(), tx@, claimed_user),
                            user_signer: claimed_user,
                        }),
                    ),
                )
            },
    {
        if !self.byzantine {
            return Err(text("honest certifier refuses raw unverified claim"));
        }
        Ok(self.make_share(raw_claim(&scheme(), tx, claimed_user)))
    }
}

/// The views of a committee.
pub open spec fn node_models(nodes: Seq<CertifierNode>) -> Seq<CertifierModel> {
    nodes.map_values(|n: CertifierNode| n@)
}

/// A fresh committee whose first `f` members are Byzantine.
pub open spec fn fresh_committee(n: nat, f: int) -> Seq<CertifierModel> {
    Seq::new(
        n,
        |i: int|
            CertifierModel {
                seed: quorum_seed((100 + i) as u64),
                byzantine: i < f,
                locks: Map::empty(),
            },
    )
}

pub fn committee_with_f_byzantine(f: usize) -> (r: Vec<CertifierNode>)
    requires
        f <= N,
    ensures
        node_models(r@) == fresh_committee(N as nat, f as int),
{
    let mut nodes: Vec<CertifierNode> = Vec::new();
    let mut i: usize = 0;
    while i < N
        invariant
            i <= N,
            node_models(nodes@) == fresh_committee(i as nat, f as int),
        decreases N - i,
    {
        nodes.push(CertifierNode::new(i, i < f));
        i = i + 1;
        assert(node_models(nodes@) =~= fresh_committee(i as nat, f as int)) by {
            assert(node_models(nodes@).drop_last() =~= fresh_committee(
                (i - 1) as nat,
                f as int,
            ));
            assert forall|k: int| 0 <= k < i - 1 implies node_models(nodes@)[k]
                == fresh_committee(i as nat, f as int)[k] by {
                assert(node_models(nodes@).drop_last()[k] == fresh_committee(
                    (i - 1) as nat,
                    f as int,
                )[k]);
            }
        }
    }
    nodes
}

/// The public keys of a committee.
pub open spec fn node_keys(nodes: Seq<CertifierModel>) -> Seq<PublicKeyBytes> {
    nodes.map_values(|n: CertifierModel| crypto::public_key(n.seed))
}

pub fn committee_keys(nodes: &Vec<CertifierNode>) -> (r: Vec<PublicKeyBytes>)
    ensures
        r@ == node_keys(node_models(nodes@)),
{
    let mut keys: Vec<PublicKeyBytes> = Vec::new();
    let mut i: usize = 0;
    while i < nodes.len()
        invariant
            i <= nodes@.len(),
            keys@ == node_keys(node_models(nodes@)).take(i as int),
        decreases nodes@.len() - i,
    {
        keys.push(nodes[i].public());
        i = i + 1;
        assert(keys@ =~= node_keys(node_models(nodes@)).take(i as int));
    }
    keys
}

/// A core that trusts a committee.
pub fn new_core(
    cells: HashMap<u64, Cell>,
    committee: Vec<PublicKeyBytes>,
    threshold: usize,
) -> (r: CoreState)
    ensures
        r.scheme@ == quorum_scheme(),
        r.active@ == cells@,
        r.committee@ == committee@,
        r.threshold == threshold,
{
    CoreState::new(scheme(), cells, committee, threshold)
}

/// The committee and the shares after the first `n` of the chosen members were
/// asked in turn.
pub open spec fn shares_collected(
    nodes: Seq<CertifierModel>,
    indices: Seq<usize>,
    tx: SpendModel,
    auth: UserAuthorization,
    cells: Map<u64, Cell>,
    n: int,
) -> (Seq<CertifierModel>, Seq<CertifierShare>)
    decreases n,
{
    if n <= 0 || n > indices.len() {
        (nodes, Seq::empty())
    } else {
        let (asked, shares) = shares_collected(nodes, indices, tx, auth, cells, n - 1);
        let i = indices[n - 1] as int;
        (
            asked.update(i, after_request(asked[i], tx, auth, cells)),
            match certified(asked[i], tx, auth, cells) {
                Ok(share) => shares.push(share),
                Err(_) => shares,
            },
        )
    }
}

/// Asks the chosen members of a committee for shares.
pub fn collect_valid_shares(
    nodes: &mut Vec<CertifierNode>,
    indices: &Vec<usize>,
    tx: &SpendTx,
    auth: &UserAuthorization,
    cells: &HashMap<u64, Cell>,
) -> (r: Vec<CertifierShare>)
    requires
        forall|k: int| 0 <= k < indices@.len() ==> #[trigger] indices@[k] < old(nodes)@.len(),
    ensures
        r@ == shares_collected(
            node_models(old(nodes)@),
            indices@,
            tx@,
            *auth,
            cells@,
            indices@.len() as int,
        ).1,
        node_models(final(nodes)@) == shares_collected(
            node_models(old(nodes)@),
            indices@,
            tx@,
            *auth,
            cells@,
            indices@.len() as int,
        ).0,
{
    let ghost before = node_models(nodes@);
    let mut shares: Vec<CertifierShare> = Vec::new();
    let mut k: usize = 0;
    while k < indices.len()
        invariant
            k <= indices@.len(),
            before.len() == nodes@.len(),
            forall|j: int| 0 <= j < indices@.len() ==> #[trigger] indices@[j] < nodes@.len(),
            shares@ == shares_collected(before, indices@, tx@, *auth, cells@, k as int).1,
            node_models(nodes@) == shares_collected(before, indices@, tx@, *auth, cells@, k as int).0,
        decreases indices@.len() - k,
    {
        let i: usize = indices[k];
        let ghost asked = node_models(nodes@);
        let ghost held = nodes@;
        let mut node: CertifierNode = nodes.remove(i);
        let reply: Result<CertifierShare, String> = node.authorize_and_sign(tx, auth, cells);
        nodes.insert(i, node);
        proof {
            assert(nodes@ =~= held.update(i as int, node));
            assert(asked[i as int] == held[i as int]@);
            assert(node_models(nodes@) =~= asked.update(
                i as int,
                after_request(asked[i as int], tx@, *auth, cells@),
            ));
        }
        if let Ok(share) = reply {
            shares.push(share);
        }
        k = k + 1;
    }
    shares
}

// ---------------------------------------------------------------------------
// Quorums.
// ---------------------------------------------------------------------------

/// Two quorums for different spends can form: the honest members split into those
/// who sign for one spend, those who sign for the other and the rest, while the
/// Byzantine members sign for both.
pub open spec fn dual_quorum(n: int, q: int, f: int) -> bool {
    exists|a: int, b: int| splits(n, q, f, a, b)
}

pub open spec fn splits(n: int, q: int, f: int, a: int, b: int) -> bool {
    0 <= a && 0 <= b && a + b <= n - f && f + a >= q && f + b >= q
}

/// How many of the first `k` digits of a number in base three are `d`.
spec fn digits(code: int, k: int, d: int) -> int
    decreases k,
{
    if k <= 0 {
        0
    } else {
        digits(code / 3, k - 1, d) + if code % 3 == d {
            1int
        } else {
            0
        }
    }
}

/// The number whose `k` digits in base three are `a` ones, `b` twos and zeros.
spec fn code_of(a: int, b: int, k: int) -> int
    decreases k,
{
    if k <= 0 {
        0
    } else if a > 0 {
        3 * code_of(a - 1, b, k - 1) + 1
    } else if b > 0 {
        3 * code_of(a, b - 1, k - 1) + 2
    } else {
        3 * code_of(a, b, k - 1)
    }
}

proof fn lemma_digits(code: int, k: int)
    requires
        0 <= k,
        0 <= code,
    ensures
        digits(code, k, 1) >= 0,
        digits(code, k, 2) >= 0,
        digits(code, k, 1) + digits(code, k, 2) <= k,
    decreases k,
{
    if k > 0 {
        lemma_digits(code / 3, k - 1);
    }
}

proof fn lemma_code(a: int, b: int, k: int)
    requires
        0 <= a,
        0 <= b,
        a + b <= k,
    ensures
        0 <= code_of(a, b, k) < vstd::arithmetic::power::pow(3, k as nat),
        digits(code_of(a, b, k), k, 1) == a,
        digits(code_of(a, b, k), k, 2) == b,
    decreases k,
{
    reveal(vstd::arithmetic::power::pow);
    if k > 0 {
        if a > 0 {
            lemma_code(a - 1, b, k - 1);
        } else if b > 0 {
            lemma_code(a, b - 1, k - 1);
        } else {
            lemma_code(a, b, k - 1);
        }
    }
}

proof fn lemma_power_grows(i: nat, j: nat)
    requires
        i <= j,
    ensures
        vstd::arithmetic::power::pow(3, i) <= vstd::arithmetic::power::pow(3, j),
{
    vstd::arithmetic::power::lemma_pow_increases(3, i, j);
}

fn power_of_three(k: usize) -> (r: usize)
    requires
        vstd::arithmetic::power::pow(3, k as nat) <= usize::MAX,
    ensures
        r == vstd::arithmetic::power::pow(3, k as nat),
{
    let mut power: usize = 1;
    let mut i: usize = 0;
    proof {
        reveal(vstd::arithmetic::power::pow);
    }
    while i < k
        invariant
            i <= k,
            power == vstd::arithmetic::power::pow(3, i as nat),
            vstd::arithmetic::power::pow(3, k as nat) <= usize::MAX,
        decreases k - i,
    {
        proof {
            reveal(vstd::arithmetic::power::pow);
            lemma_power_grows((i + 1) as nat, k as nat);
        }
        power = power * 3;
        i = i + 1;
    }
    power
}

/// How many sign for each of two spends if the honest members choose as the
/// digits of a number in base three say.
fn allocation(code: usize, f: usize, honest: usize) -> (r: (usize, usize))
    requires
        f + honest <= usize::MAX,
    ensures
        r.0 == f + digits(code as int, honest as int, 1),
        r.1 == f + digits(code as int, honest as int, 2),
{
    let mut rest: usize = code;
    let mut a: usize = f;
    let mut b: usize = f;
    let mut k: usize = 0;
    while k < honest
        invariant
            k <= honest,
            f + honest <= usize::MAX,
            f <= a <= f + k,
            f <= b <= f + k,
            a + digits(rest as int, honest - k, 1) == f + digits(code as int, honest as int, 1),
            b + digits(rest as int, honest - k, 2) == f + digits(code as int, honest as int, 2),
        decreases honest - k,
    {
        let digit: usize = rest % 3;
        if digit == 1 {
            a = a + 1;
        } else if digit == 2 {
            b = b + 1;
        }
        rest = rest / 3;
        k = k + 1;
    }
    (a, b)
}

/// Tries every allocation of the honest members to two spends.
pub fn dual_quorum_exists_by_partition(n: usize, q: usize, f: usize) -> (r: bool)
    requires
        f <= n,
        vstd::arithmetic::power::pow(3, (n - f) as nat) <= usize::MAX,
    ensures
        r == dual_quorum(n as int, q as int, f as int),
{
    let honest: usize = n - f;
    let assignments: usize = power_of_three(honest);
    let mut code: usize = 0;
    while code < assignments
        invariant
            f <= n,
            honest == n - f,
            forall|c: int|
                0 <= c < code ==> f + #[trigger] digits(c, honest as int, 1) < q || f + digits(
                    c,
                    honest as int,
                    2,
                ) < q,
        decreases assignments - code,
    {
        let (a, b): (usize, usize) = allocation(code, f, honest);
        if a >= q && b >= q {
            proof {
                lemma_digits(code as int, honest as int);
                assert(splits(
                    n as int,
                    q as int,
                    f as int,
                    digits(code as int, honest as int, 1),
                    digits(code as int, honest as int, 2),
                ));
            }
            return true;
        }
        code = code + 1;
    }
    proof {
        if dual_quorum(n as int, q as int, f as int) {
            let (a, b) = choose|a: int, b: int| splits(n as int, q as int, f as int, a, b);
            lemma_code(a, b, honest as int);
            assert(digits(code_of(a, b, honest as int), honest as int, 1) == a);
        }
    }
    false
}

// ---------------------------------------------------------------------------
// Laws.
// ---------------------------------------------------------------------------

/// Two quorums for different spends can form if and only if twice what a quorum
/// lacks besides the Byzantine members does not exceed the honest members.
pub proof fn law_dual_quorum_boundary(n: int, q: int, f: int)
    requires
        0 <= f <= n,
    ensures
        dual_quorum(n, q, f) <==> q <= f || 2 * (q - f) <= n - f,
{
    if q <= f {
        assert(splits(n, q, f, 0, 0));
    } else if 2 * (q - f) <= n - f {
        assert(splits(n, q, f, q - f, q - f));
    }
}

/// Of seven certifiers with a threshold of five, two quorums for different spends
/// can form if and only if at least three certifiers are Byzantine.
pub proof fn law_seven_certifiers_tolerate_two(f: int)
    requires
        0 <= f <= N,
    ensures
        dual_quorum(N as int, Q as int, f) <==> f >= 3,
{
    law_dual_quorum_boundary(N as int, Q as int, f);
}

proof fn lemma_locked(
    locks: Map<InputRef, Digest>,
    inputs: Seq<InputRef>,
    tx_digest: Digest,
    n: int,
)
    requires
        0 <= n <= inputs.len(),
    ensures
        forall|k: int|
            0 <= k < n ==> locked(locks, inputs, tx_digest, n).contains_key(#[trigger] inputs[k])
                && locked(locks, inputs, tx_digest, n)[inputs[k]] == tx_digest,
        forall|x: InputRef| #[trigger]
            locks.contains_key(x) ==> locked(locks, inputs, tx_digest, n).contains_key(x) && (
            locked(locks, inputs, tx_digest, n)[x] == locks[x] || locked(
                locks,
                inputs,
                tx_digest,
                n,
            )[x] == tx_digest && exists|k: int| 0 <= k < n && #[trigger] inputs[k] == x),
    decreases n,
{
    if n > 0 {
        lemma_locked(locks, inputs, tx_digest, n - 1);
        assert forall|x: InputRef| #[trigger] locks.contains_key(x) implies locked(
            locks,
            inputs,
            tx_digest,
            n,
        ).contains_key(x) && (locked(locks, inputs, tx_digest, n)[x] == locks[x] || locked(
            locks,
            inputs,
            tx_digest,
            n,
        )[x] == tx_digest && exists|k: int| 0 <= k < n && #[trigger] inputs[k] == x) by {
            assert(locked(locks, inputs, tx_digest, n - 1).contains_key(x));
            if inputs[n - 1] == x {
            } else if locked(locks, inputs, tx_digest, n - 1)[x] != locks[x] {
                let k = choose|k: int| 0 <= k < n - 1 && #[trigger] inputs[k] == x;
                assert(inputs[k] == x);
            }
        }
    }
}

proof fn lemma_locks_verdict(
    locks: Map<InputRef, Digest>,
    inputs: Seq<InputRef>,
    tx_digest: Digest,
    i: int,
)
    requires
        0 <= i,
    ensures
        locks_verdict(locks, inputs, tx_digest, i) is Ok <==> forall|k: int|
            i <= k < inputs.len() ==> (locks.contains_key(#[trigger] inputs[k])
                ==> locks[inputs[k]] == tx_digest),
    decreases inputs.len() - i,
{
    if i < inputs.len() {
        lemma_locks_verdict(locks, inputs, tx_digest, i + 1);
    }
}

/// An honest certifier never lets go of a lock: whatever it is asked, an input
/// that is locked to a spend stays locked to it.
pub proof fn law_locks_are_kept(
    node: CertifierModel,
    tx: SpendModel,
    auth: UserAuthorization,
    cells: Map<u64, Cell>,
    input: InputRef,
)
    requires
        node.locks.contains_key(input),
    ensures
        after_request(node, tx, auth, cells).locks.contains_key(input),
        after_request(node, tx, auth, cells).locks[input] == node.locks[input],
{
    if !node.byzantine && certified(node, tx, auth, cells) is Ok {
        let tx_digest = certified(node, tx, auth, cells)->Ok_0.tx_digest;
        lemma_locked(node.locks, tx.inputs, tx_digest, tx.inputs.len() as int);
        lemma_locks_verdict(node.locks, tx.inputs, tx_digest, 0);
    }
}

/// An honest certifier locks every input of what it signs.
pub proof fn law_signed_inputs_are_locked(
    node: CertifierModel,
    tx: SpendModel,
    auth: UserAuthorization,
    cells: Map<u64, Cell>,
    k: int,
)
    requires
        !node.byzantine,
        certified(node, tx, auth, cells) is Ok,
        0 <= k < tx.inputs.len(),
    ensures
        after_request(node, tx, auth, cells).locks.contains_key(tx.inputs[k]),
        after_request(node, tx, auth, cells).locks[tx.inputs[k]] == certified(
            node,
            tx,
            auth,
            cells,
        )->Ok_0.tx_digest,
{
    lemma_locked(
        node.locks,
        tx.inputs,
        certified(node, tx, auth, cells)->Ok_0.tx_digest,
        tx.inputs.len() as int,
    );
}

/// An honest certifier signs no spend of an input that it locked to another one.
pub proof fn law_locked_input_is_refused(
    node: CertifierModel,
    tx: SpendModel,
    auth: UserAuthorization,
    cells: Map<u64, Cell>,
    k: int,
)
    requires
        !node.byzantine,
        0 <= k < tx.inputs.len(),
        node.locks.contains_key(tx.inputs[k]),
        node.locks[tx.inputs[k]] != threshold::scheme_commitment(quorum_scheme(), tx, auth.signer),
    ensures
        certified(node, tx, auth, cells) is Err,
        after_request(node, tx, auth, cells) == node,
{
    lemma_locks_verdict(
        node.locks,
        tx.inputs,
        threshold::scheme_commitment(quorum_scheme(), tx, auth.signer),
        0,
    );
}

/// A certifier gives its share exactly if the owner's authorization holds and, unless it is
/// Byzantine, each input is unlocked or locked to this very spend. The share is its own
/// signature on the commitment.
pub proof fn law_share_is_given_if(
    node: CertifierModel,
    tx: SpendModel,
    auth: UserAuthorization,
    cells: Map<u64, Cell>,
)
    ensures
        ({
            let r = certified(node, tx, auth, cells);
            let digest = threshold::scheme_commitment(quorum_scheme(), tx, auth.signer);
            &&& r is Ok <==> threshold::scheme_authorization(quorum_scheme(), tx, auth, cells) is Ok
                && (node.byzantine || forall|k: int|
                0 <= k < tx.inputs.len() && node.locks.contains_key(#[trigger] tx.inputs[k])
                    ==> node.locks[tx.inputs[k]] == digest)
            &&& r matches Ok(share) ==> {
                &&& share.certifier == crypto::public_key(node.seed)
                &&& share.tx_digest == digest
                &&& share.user_signer == auth.signer
                &&& share.epoch == 2
                &&& share.signature == crypto::signature(
                    node.seed,
                    spend::share_message_bytes(quorum_scheme().share, digest, auth.signer, 2),
                )
            }
        }),
{
    spend::law_spend_is_authorized_if(
        quorum_scheme().user,
        quorum_scheme().commitment,
        false,
        tx,
        auth,
        cells,
    );
    let digest = threshold::scheme_commitment(quorum_scheme(), tx, auth.signer);
    lemma_locks_verdict(node.locks, tx.inputs, digest, 0);
}

proof fn lemma_locked_only(
    locks: Map<InputRef, Digest>,
    inputs: Seq<InputRef>,
    tx_digest: Digest,
    n: int,
    x: InputRef,
)
    requires
        0 <= n <= inputs.len(),
        forall|k: int| 0 <= k < n ==> #[trigger] inputs[k] != x,
    ensures
        locked(locks, inputs, tx_digest, n).contains_key(x) <==> locks.contains_key(x),
        locks.contains_key(x) ==> locked(locks, inputs, tx_digest, n)[x] == locks[x],
    decreases n,
{
    if n > 0 {
        lemma_locked_only(locks, inputs, tx_digest, n - 1, x);
    }
}

/// A request locks nothing but the inputs of a spend that was signed, and changes nothing
/// else of the certifier: asked again for the same spend, it gives the same share.
pub proof fn law_request_locks_only_inputs(
    node: CertifierModel,
    tx: SpendModel,
    auth: UserAuthorization,
    cells: Map<u64, Cell>,
    x: InputRef,
)
    ensures
        ({
            let after = after_request(node, tx, auth, cells);
            &&& after.seed == node.seed
            &&& after.byzantine == node.byzantine
            &&& !tx.inputs.contains(x) ==> (after.locks.contains_key(x)
                <==> node.locks.contains_key(x))
            &&& !tx.inputs.contains(x) && node.locks.contains_key(x) ==> after.locks[x]
                == node.locks[x]
            &&& certified(after, tx, auth, cells) == certified(node, tx, auth, cells)
        }),
{
    if !node.byzantine && certified(node, tx, auth, cells) is Ok {
        let digest = certified(node, tx, auth, cells)->Ok_0.tx_digest;
        let after = after_request(node, tx, auth, cells);
        lemma_locked(node.locks, tx.inputs, digest, tx.inputs.len() as int);
        if !tx.inputs.contains(x) {
            assert(forall|k: int|
                0 <= k < tx.inputs.len() ==> #[trigger] tx.inputs[k] != x);
            lemma_locked_only(node.locks, tx.inputs, digest, tx.inputs.len() as int, x);
        }
        lemma_locks_verdict(after.locks, tx.inputs, digest, 0);
        spend::law_spend_is_authorized_if(
            quorum_scheme().user,
            quorum_scheme().commitment,
            false,
            tx,
            auth,
            cells,
        );
    }
}

/// The committee: seven certifiers, the first ones Byzantine, each with its own key and no
/// locks yet.
pub proof fn law_fresh_committee(f: int, i: int)
    requires
        0 <= f <= 7,
        0 <= i < 7,
    ensures
        ({
            let c = fresh_committee(N as nat, f);
            &&& c.len() == 7
            &&& c[i].byzantine <==> i < f
            &&& c[i].locks == Map::<InputRef, Digest>::empty()
            &&& c[i].seed == quorum_seed((100 + i) as u64)
            &&& Q == 5
        }),
{
}

proof fn lemma_collected(
    nodes: Seq<CertifierModel>,
    indices: Seq<usize>,
    tx: SpendModel,
    auth: UserAuthorization,
    cells: Map<u64, Cell>,
    n: int,
)
    requires
        0 <= n <= indices.len(),
        forall|k: int| 0 <= k < indices.len() ==> #[trigger] indices[k] < nodes.len(),
        indices.no_duplicates(),
        forall|k: int|
            0 <= k < indices.len() ==> certified(
                nodes[(#[trigger] indices[k]) as int],
                tx,
                auth,
                cells,
            ) is Ok,
    ensures
        ({
            let (asked, shares) = shares_collected(nodes, indices, tx, auth, cells, n);
            &&& asked.len() == nodes.len()
            &&& shares.len() == n
            &&& forall|k: int|
                0 <= k < n ==> Ok::<CertifierShare, Seq<char>>(#[trigger] shares[k]) == certified(
                    nodes[indices[k] as int],
                    tx,
                    auth,
                    cells,
                )
            &&& forall|k: int|
                n <= k < indices.len() ==> asked[(#[trigger] indices[k]) as int]
                    == nodes[indices[k] as int]
        }),
    decreases n,
{
    if n > 0 {
        lemma_collected(nodes, indices, tx, auth, cells, n - 1);
        let (asked, shares) = shares_collected(nodes, indices, tx, auth, cells, n - 1);
        let i = indices[n - 1] as int;
        assert(asked[i] == nodes[i]);
        assert forall|k: int| n <= k < indices.len() implies #[trigger] indices[k]
            != indices[n - 1] by {}
    }
}

/// Where every certifier that is asked gives its share, the shares are all of them, in the
/// order in which they were asked.
pub proof fn law_shares_are_collected(
    nodes: Seq<CertifierModel>,
    indices: Seq<usize>,
    tx: SpendModel,
    auth: UserAuthorization,
    cells: Map<u64, Cell>,
    k: int,
)
    requires
        forall|j: int| 0 <= j < indices.len() ==> #[trigger] indices[j] < nodes.len(),
        indices.no_duplicates(),
        forall|j: int|
            0 <= j < indices.len() ==> certified(
                nodes[(#[trigger] indices[j]) as int],
                tx,
                auth,
                cells,
            ) is Ok,
        0 <= k < indices.len(),
    ensures
        ({
            let shares = shares_collected(
                nodes,
                indices,
                tx,
                auth,
                cells,
                indices.len() as int,
            ).1;
            &&& shares.len() == indices.len()
            &&& shares[k].certifier == crypto::public_key(nodes[indices[k] as int].seed)
            &&& shares[k].tx_digest == threshold::scheme_commitment(
                quorum_scheme(),
                tx,
                auth.signer,
            )
        }),
{
    lemma_collected(nodes, indices, tx, auth, cells, indices.len() as int);
    law_share_is_given_if(nodes[indices[k] as int], tx, auth, cells);
    let shares = shares_collected(nodes, indices, tx, auth, cells, indices.len() as int).1;
    assert(Ok::<CertifierShare, Seq<char>>(shares[k]) == certified(
        nodes[indices[k] as int],
        tx,
        auth,
        cells,
    ));
}

} // verus!
