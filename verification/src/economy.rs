//! The mutual-credit coordinator's decisions: admission, balances,
//! spending, endorsement, the attestation succession of the network
//! state, sealed limits and the sovereignty roster. Every read of the
//! store and every remote call happens around these functions; they take
//! what was read and say what to write or refuse.
use vstd::prelude::*;
use crate::curve::{
    credit_limit_for_reputation, credit_limit_spec, default_credit_limit, default_limit_spec,
    expand_credit_supply, roster_expired, supply_nat, GENESIS_CREDIT_SUPPLY,
    SOVEREIGNTY_LEASE_ROUNDS,
};
use crate::fibonacci::{next_fib, next_fibonacci, prev_fib, previous_fibonacci, FIB_93};
use crate::ledger::{Account, CreditLimit, NetworkState, QuorumSeal, Transaction};
use crate::roster::{key_eq, keys_view};

verus! {

/// Why the coordinator refuses a request.
#[derive(Clone, Copy, Debug, PartialEq, Eq, Structural)]
pub enum EconomyError {
    AdmissionGateClosed,
    NonPositiveAmount,
    ExceedsCreditLimit,
    NoBasis,
    NotAddressedToMe,
    DomainMismatch,
    StaleCheckpoint,
    NoVisibleBasis,
    SpendOverLimit,
    NoNetworkState,
    NotCurrentAnchor,
    NoReputationBasis,
    BasisNotCited,
    BasisNotLatest,
    ScoreMismatch,
    LimitNotLaw,
    BalanceMismatch,
    NoRosterDeclared,
    RosterAlreadyDeclared,
    DerivedRosterEmpty,
    RosterUnchanged,
    LeaseNotExpired,
    RotationEconomicsChanged,
    RosterDiverges,
}

/// Where a link points: an action, or something else.
#[derive(Clone, Debug)]
pub enum LinkTarget {
    Action(Vec<u8>),
    Other,
}

// ─────────────────────────────────────────────
// Admission
// ─────────────────────────────────────────────

/// The governed-phase gate is shut when no validation work has been done
/// in the current Fibonacci cycle: the count still sits on the previous
/// Fibonacci number of an interval of positive length.
pub open spec fn gate_closed(state: NetworkState) -> bool {
    let prev = prev_fib(state.attestation_count as nat);
    state.phase != 0 && state.next_fibonacci_threshold != prev && state.attestation_count == prev
}

/// The cycle progress (count − prev)/(threshold − prev) is defined: both
/// differences are non-negative whenever the interval is not empty.
pub open spec fn progress_defined(state: NetworkState) -> bool {
    let prev = prev_fib(state.attestation_count as nat);
    &&& state.attestation_count <= FIB_93
    &&& state.next_fibonacci_threshold != prev ==> (state.attestation_count >= prev
        && state.next_fibonacci_threshold > prev)
}

pub open spec fn account_plan(agent: Vec<u8>, metadata_blob: Vec<u8>, current: Option<NetworkState>) -> Result<Account, EconomyError> {
    match current {
        Some(s) => if gate_closed(s) {
            Err(EconomyError::AdmissionGateClosed)
        } else {
            Ok(Account { agent, credit_limit: -377i64, metadata_blob })
        },
        None => Ok(Account { agent, credit_limit: -377i64, metadata_blob }),
    }
}

/// The Account an agent may open under the current network state: open
/// admission at genesis and in phase 0, gated by cycle progress after.
/// The account carries the fresh-account limit −⌊987·377/987⌋ = −377.
pub fn plan_account(agent: Vec<u8>, metadata_blob: Vec<u8>, current: &Option<NetworkState>) -> (r: Result<Account, EconomyError>)
    requires
        match current {
            Some(s) => s.phase != 0 ==> progress_defined(*s),
            None => true,
        },
    ensures
        r == account_plan(agent, metadata_blob, *current),
{
    if let Some(s) = current {
        if s.phase != 0 {
            let prev = previous_fibonacci(s.attestation_count);
            if s.next_fibonacci_threshold != prev && s.attestation_count == prev {
                return Err(EconomyError::AdmissionGateClosed);
            }
        }
    }
    let limit = default_credit_limit(GENESIS_CREDIT_SUPPLY);
    Ok(Account { agent, credit_limit: limit, metadata_blob })
}

// ─────────────────────────────────────────────
// Balance
// ─────────────────────────────────────────────

/// What one transaction moves for `agent`: −amount when it sent it,
/// +amount when it received it, nothing otherwise.
pub open spec fn tx_delta(agent: Seq<u8>, tx: Transaction) -> int {
    if tx.from_agent@ == agent {
        -(tx.amount as int)
    } else if tx.to_agent@ == agent {
        tx.amount as int
    } else {
        0
    }
}

pub open spec fn fetched_hashes(fetched: Seq<(Vec<u8>, Option<Transaction>)>) -> Seq<Seq<u8>> {
    fetched.map_values(|p: (Vec<u8>, Option<Transaction>)| p.0@)
}

/// Net position over the first `k` index links: each target counted once
/// (at its first link), each resolved transaction by its delta.
pub open spec fn balance_over(agent: Seq<u8>, fetched: Seq<(Vec<u8>, Option<Transaction>)>, k: nat) -> int
    decreases k,
{
    if k == 0 {
        0
    } else {
        let i = k - 1;
        let rest = balance_over(agent, fetched, (k - 1) as nat);
        if fetched_hashes(fetched).subrange(0, i).contains(fetched[i].0@) {
            rest
        } else {
            match fetched[i].1 {
                Some(tx) => rest + tx_delta(agent, tx),
                None => rest,
            }
        }
    }
}

/// Every running balance fits an `i64`.
pub open spec fn balance_fits(agent: Seq<u8>, fetched: Seq<(Vec<u8>, Option<Transaction>)>) -> bool {
    forall|k: nat| k <= fetched.len() ==> i64::MIN <= #[trigger] balance_over(agent, fetched, k) <= i64::MAX
}

/// Whether the i-th index link's target already occurred among the
/// links before it.
fn seen_before(fetched: &[(Vec<u8>, Option<Transaction>)], i: usize) -> (r: bool)
    requires
        i < fetched@.len(),
    ensures
        r == fetched_hashes(fetched@).subrange(0, i as int).contains(fetched_hashes(fetched@)[i as int]),
{
    let ghost hs = fetched_hashes(fetched@);
    let mut j: usize = 0;
    let mut seen = false;
    while j < i
        invariant
            j <= i < fetched@.len(),
            hs == fetched_hashes(fetched@),
            seen == hs.subrange(0, j as int).contains(hs[i as int]),
        decreases i - j,
    {
        let same = key_eq(&fetched[j].0, &fetched[i].0);
        proof {
            let pre = hs.subrange(0, j as int);
            assert(hs.subrange(0, j + 1) =~= pre.push(hs[j as int]));
            if pre.contains(hs[i as int]) {
                let w = choose|w: int| 0 <= w < pre.len() && pre[w] == hs[i as int];
                assert(pre.push(hs[j as int])[w] == hs[i as int]);
            }
            if same {
                assert(pre.push(hs[j as int])[j as int] == hs[i as int]);
            }
            if pre.push(hs[j as int]).contains(hs[i as int]) {
                let w = choose|w: int| 0 <= w < pre.len() + 1 && pre.push(hs[j as int])[w] == hs[i as int];
                if w < pre.len() {
                    assert(pre[w] == hs[i as int]);
                }
            }
        }
        if same {
            seen = true;
        }
        j = j + 1;
    }
    seen
}

/// An agent's balance from its transaction index, or None exactly when a
/// running balance leaves the `i64` range: `fetched[i]` is the i-th
/// link's target and the transaction it resolved to, if any. Duplicate
/// index links do not double-count.
pub fn compute_balance_checked(agent: &Vec<u8>, fetched: &[(Vec<u8>, Option<Transaction>)]) -> (r: Option<i64>)
    ensures
        r == (if balance_fits(agent@, fetched@) {
            Some(balance_over(agent@, fetched@, fetched@.len()) as i64)
        } else {
            None::<i64>
        }),
{
    let mut balance: i64 = 0;
    let mut i: usize = 0;
    while i < fetched.len()
        invariant
            i <= fetched@.len(),
            balance == balance_over(agent@, fetched@, i as nat),
            forall|k: nat| k <= i ==> i64::MIN <= #[trigger] balance_over(agent@, fetched@, k) <= i64::MAX,
        decreases fetched@.len() - i,
    {
        let seen = seen_before(fetched, i);
        let ghost next = balance_over(agent@, fetched@, (i + 1) as nat);
        proof {
            assert(next == if seen {
                balance_over(agent@, fetched@, i as nat)
            } else {
                match fetched@[i as int].1 {
                    Some(tx) => balance_over(agent@, fetched@, i as nat) + tx_delta(agent@, tx),
                    None => balance_over(agent@, fetched@, i as nat),
                }
            });
        }
        if !seen {
            if let Some(tx) = &fetched[i].1 {
                let moved = if key_eq(&tx.from_agent, agent) {
                    balance.checked_sub(tx.amount)
                } else if key_eq(&tx.to_agent, agent) {
                    balance.checked_add(tx.amount)
                } else {
                    Some(balance)
                };
                match moved {
                    Some(b) => {
                        balance = b;
                    },
                    None => {
                        proof {
                            assert(!(i64::MIN <= balance_over(agent@, fetched@, (i + 1) as nat) <= i64::MAX));
                        }
                        return None;
                    },
                }
            }
        }
        proof {
            assert forall|k: nat| k <= i + 1 implies i64::MIN <= #[trigger] balance_over(agent@, fetched@, k) <= i64::MAX by {
                if k == i + 1 {
                    assert(balance == next);
                }
            }
        }
        i = i + 1;
    }
    Some(balance)
}

/// An agent's balance from its transaction index: `fetched[i]` is the
/// i-th link's target and the transaction it resolved to, if any.
/// Duplicate index links do not double-count.
pub fn compute_balance(agent: &Vec<u8>, fetched: &[(Vec<u8>, Option<Transaction>)]) -> (r: i64)
    requires
        balance_fits(agent@, fetched@),
    ensures
        r == balance_over(agent@, fetched@, fetched@.len()),
{
    proof {
        assert(i64::MIN <= balance_over(agent@, fetched@, fetched@.len()) <= i64::MAX);
    }
    match compute_balance_checked(agent, fetched) {
        Some(b) => b,
        None => 0,
    }
}

/// The limit in force: the latest CreditLimit's, else the fresh-account
/// default −377.
pub fn current_credit_limit(latest: Option<i64>) -> (r: i64)
    ensures
        r == match latest {
            Some(l) => l as int,
            None => default_limit_spec(987),
        },
{
    match latest {
        Some(l) => l,
        None => default_credit_limit(GENESIS_CREDIT_SUPPLY),
    }
}

/// An agent's standing as `get_balance` reports it.
#[derive(Clone, Debug)]
pub struct BalanceResult {
    pub agent: Vec<u8>,
    pub balance: i64,
    pub credit_limit: i64,
    pub is_frozen: bool,
}

/// An account is frozen once its balance is at or below its limit.
pub fn balance_result(agent: Vec<u8>, balance: i64, credit_limit: i64) -> (r: BalanceResult)
    ensures
        r.agent == agent,
        r.balance == balance,
        r.credit_limit == credit_limit,
        r.is_frozen == (balance <= credit_limit),
{
    BalanceResult { agent, balance, credit_limit, is_frozen: balance <= credit_limit }
}

// ─────────────────────────────────────────────
// Spending and endorsement
// ─────────────────────────────────────────────

pub open spec fn basis_of(cl_last: Option<LinkTarget>, acct_last: Option<LinkTarget>) -> Option<Seq<u8>> {
    match cl_last {
        Some(LinkTarget::Action(h)) => Some(h@),
        Some(LinkTarget::Other) => None,
        None => match acct_last {
            Some(LinkTarget::Action(h)) => Some(h@),
            _ => None,
        },
    }
}

/// An agent's latest balance basis: the target of its last CreditLimit
/// link, else of its last Account link, when that target is an action.
pub fn latest_basis(cl_last: &Option<LinkTarget>, acct_last: &Option<LinkTarget>) -> (r: Option<Vec<u8>>)
    ensures
        match r {
            Some(h) => basis_of(*cl_last, *acct_last) == Some(h@),
            None => basis_of(*cl_last, *acct_last) is None,
        },
{
    let last = match cl_last {
        Some(t) => Some(t),
        None => match acct_last {
            Some(t) => Some(t),
            None => None,
        },
    };
    match last {
        Some(LinkTarget::Action(h)) => Some(h.clone()),
        _ => None,
    }
}

pub open spec fn spend_check(amount: i64, balance: i64, credit_limit: i64, basis: Option<Seq<u8>>) -> Result<Seq<u8>, EconomyError> {
    if amount <= 0 {
        Err(EconomyError::NonPositiveAmount)
    } else if balance - amount < credit_limit {
        Err(EconomyError::ExceedsCreditLimit)
    } else {
        match basis {
            Some(h) => Ok(h),
            None => Err(EconomyError::NoBasis),
        }
    }
}

/// The sender's side of a spend: a positive amount that keeps the
/// sender's balance at or above its limit, cited against its latest
/// basis. Returns the checkpoint to cite.
pub fn plan_transaction(amount: i64, balance: i64, credit_limit: i64, basis: Option<Vec<u8>>) -> (r: Result<Vec<u8>, EconomyError>)
    requires
        amount > 0 ==> balance - amount >= i64::MIN,
    ensures
        match r {
            Ok(h) => spend_check(amount, balance, credit_limit, opt_bytes(basis)) == Ok::<Seq<u8>, EconomyError>(h@),
            Err(e) => spend_check(amount, balance, credit_limit, opt_bytes(basis)) == Err::<Seq<u8>, EconomyError>(e),
        },
{
    if amount <= 0 {
        return Err(EconomyError::NonPositiveAmount);
    }
    if balance - amount < credit_limit {
        return Err(EconomyError::ExceedsCreditLimit);
    }
    match basis {
        Some(h) => Ok(h),
        None => Err(EconomyError::NoBasis),
    }
}

pub open spec fn opt_bytes(o: Option<Vec<u8>>) -> Option<Seq<u8>> {
    match o {
        Some(h) => Some(h@),
        None => None,
    }
}


/// What a recipient signs to endorse a spend.
#[derive(Clone, Debug)]
pub struct TransactionPayload {
    pub domain: String,
    pub dna_hash: Vec<u8>,
    pub from_agent: Vec<u8>,
    pub to_agent: Vec<u8>,
    pub amount: i64,
    pub checkpoint: Vec<u8>,
}

/// Domain-separation tag of transaction endorsements.
pub const SEAL_DOMAIN_TRANSACTION: &'static str = "toric.seal.transaction.v1";
/// Domain-separation tag of sealed credit limits.
pub const SEAL_DOMAIN_CREDIT_LIMIT: &'static str = "toric.seal.credit_limit.v1";
/// Domain-separation tag of sealed network states.
pub const SEAL_DOMAIN_NETWORK_STATE: &'static str = "toric.seal.network_state.v1";

fn domain_is(domain: &String, expected: &str) -> (r: bool)
    ensures
        r == (domain@ == expected@),
{
    let e: String = expected.to_owned();
    *domain == e
}

pub open spec fn endorsement_check(
    me: Seq<u8>,
    dna_hash: Seq<u8>,
    p: TransactionPayload,
    basis: Option<Seq<u8>>,
    balance: i64,
    credit_limit: i64,
) -> Result<(), EconomyError> {
    if p.to_agent@ != me {
        Err(EconomyError::NotAddressedToMe)
    } else if p.domain@ != SEAL_DOMAIN_TRANSACTION@ || p.dna_hash@ != dna_hash {
        Err(EconomyError::DomainMismatch)
    } else if p.amount <= 0 {
        Err(EconomyError::NonPositiveAmount)
    } else {
        match basis {
            None => Err(EconomyError::NoVisibleBasis),
            Some(h) => if h != p.checkpoint@ {
                Err(EconomyError::StaleCheckpoint)
            } else if balance - p.amount < credit_limit {
                Err(EconomyError::SpendOverLimit)
            } else {
                Ok(())
            },
        }
    }
}

/// The recipient's consent to a spend: addressed to us, in this network's
/// transaction domain, positive, citing the sender's latest basis in our
/// view, and within the sender's limit in our view.
pub fn check_endorsement(
    me: &Vec<u8>,
    dna_hash: &Vec<u8>,
    payload: &TransactionPayload,
    basis: &Option<Vec<u8>>,
    balance: i64,
    credit_limit: i64,
) -> (r: Result<(), EconomyError>)
    requires
        payload.amount > 0 ==> balance - payload.amount >= i64::MIN,
    ensures
        r == endorsement_check(me@, dna_hash@, *payload, opt_bytes(*basis), balance, credit_limit),
{
    if !key_eq(&payload.to_agent, me) {
        return Err(EconomyError::NotAddressedToMe);
    }
    if !domain_is(&payload.domain, SEAL_DOMAIN_TRANSACTION) || !key_eq(&payload.dna_hash, dna_hash) {
        return Err(EconomyError::DomainMismatch);
    }
    if payload.amount <= 0 {
        return Err(EconomyError::NonPositiveAmount);
    }
    match basis {
        None => Err(EconomyError::NoVisibleBasis),
        Some(h) => {
            if !key_eq(h, &payload.checkpoint) {
                return Err(EconomyError::StaleCheckpoint);
            }
            if balance - payload.amount < credit_limit {
                return Err(EconomyError::SpendOverLimit);
            }
            Ok(())
        },
    }
}


// ─────────────────────────────────────────────
// Attestation succession
// ─────────────────────────────────────────────

/// F(8): the first expansion threshold, while the network bootstraps.
pub const BOOTSTRAP_ATTESTATIONS: u64 = 21;

/// What `on_attestation_created` reports.
#[derive(Clone, Debug)]
pub struct FibonacciResult {
    pub attestation_count: u64,
    pub threshold_crossed: bool,
    pub new_credit_supply: Option<i64>,
    pub admission_allowance: Option<u32>,
    pub next_threshold: u64,
    /// The NetworkState authoritative for this count.
    pub network_state_hash: Vec<u8>,
}

/// The threshold the next attestation is measured against.
pub open spec fn current_threshold(current: Option<(NetworkState, Vec<u8>)>) -> u64 {
    match current {
        Some((s, _)) => s.next_fibonacci_threshold,
        None => 21,
    }
}

pub open spec fn next_count(current: Option<(NetworkState, Vec<u8>)>) -> int {
    match current {
        Some((s, _)) => s.attestation_count + 1,
        None => 1,
    }
}

/// The state one attestation on from `current` (the genesis state when
/// there is none): the count steps by one; on reaching the threshold the
/// supply expands to ⌊supply·φ⌋ (in binary64), the threshold moves to the next
/// Fibonacci number, the cycle steps and the phase becomes governed;
/// otherwise the economics carry over. Roster, lease clock ride through;
/// the successor points back at `current` and carries no seal.
pub open spec fn is_attestation_successor(current: Option<(NetworkState, Vec<u8>)>, s: NetworkState) -> bool {
    match current {
        None => {
            &&& s.attestation_count == 1
            &&& s.next_fibonacci_threshold == 21
            &&& s.credit_supply == 987
            &&& s.cycle == 0
            &&& s.phase == 0
            &&& s.authorized_signers@.len() == 0
            &&& s.prev_state_hash is None
            &&& s.roster_declared_at == 0
            &&& s.seal is None
        },
        Some((p, h)) => {
            let count = p.attestation_count + 1;
            &&& s.attestation_count == count
            &&& keys_view(s.authorized_signers@) == keys_view(p.authorized_signers@)
            &&& s.prev_state_hash matches Some(ph) && ph@ == h@
            &&& s.roster_declared_at == p.roster_declared_at
            &&& s.seal is None
            &&& if count >= p.next_fibonacci_threshold {
                &&& s.credit_supply == crate::curve::expand_spec(p.credit_supply as int)
                &&& s.next_fibonacci_threshold == next_fib(count as nat)
                &&& s.cycle == p.cycle + 1
                &&& s.phase == 1
            } else {
                &&& s.credit_supply == p.credit_supply
                &&& s.next_fibonacci_threshold == p.next_fibonacci_threshold
                &&& s.cycle == p.cycle
                &&& s.phase == p.phase
            }
        },
    }
}

/// The succession arithmetic stays in range: the count and cycle can
/// step, and a crossing's next threshold is a `u64` Fibonacci number.
pub open spec fn succession_defined(current: Option<(NetworkState, Vec<u8>)>) -> bool {
    match current {
        Some((p, _)) => p.attestation_count < u64::MAX && (p.attestation_count + 1
            >= p.next_fibonacci_threshold ==> (p.attestation_count + 1 < FIB_93 && p.cycle
            < u64::MAX)),
        None => true,
    }
}

/// The NetworkState the first writer of the next attestation count writes.
pub fn attestation_successor(current: &Option<(NetworkState, Vec<u8>)>) -> (r: NetworkState)
    requires
        succession_defined(*current),
    ensures
        is_attestation_successor(*current, r),
{
    match current {
        None => NetworkState {
            attestation_count: 1,
            next_fibonacci_threshold: BOOTSTRAP_ATTESTATIONS,
            credit_supply: GENESIS_CREDIT_SUPPLY,
            cycle: 0,
            phase: 0,
            authorized_signers: Vec::new(),
            prev_state_hash: None,
            roster_declared_at: 0,
            seal: None,
        },
        Some((p, h)) => {
            let count = p.attestation_count + 1;
            let roster = crate::roster::clone_keys(p.authorized_signers.as_slice());
            let prev_hash = h.clone();
            proof {
                assert(prev_hash@ =~= h@);
            }
            if count >= p.next_fibonacci_threshold {
                NetworkState {
                    attestation_count: count,
                    next_fibonacci_threshold: next_fibonacci(count),
                    credit_supply: expand_credit_supply(p.credit_supply),
                    cycle: p.cycle + 1,
                    phase: 1,
                    authorized_signers: roster,
                    prev_state_hash: Some(prev_hash),
                    roster_declared_at: p.roster_declared_at,
                    seal: None,
                }
            } else {
                NetworkState {
                    attestation_count: count,
                    next_fibonacci_threshold: p.next_fibonacci_threshold,
                    credit_supply: p.credit_supply,
                    cycle: p.cycle,
                    phase: p.phase,
                    authorized_signers: roster,
                    prev_state_hash: Some(prev_hash),
                    roster_declared_at: p.roster_declared_at,
                    seal: None,
                }
            }
        },
    }
}

/// The report for a count another writer already recorded: it crossed
/// iff its threshold moved past the one this agent measured against.
pub open spec fn is_existing_result(existing: NetworkState, hash: Vec<u8>, threshold: u64, r: FibonacciResult) -> bool {
    let crossed = existing.next_fibonacci_threshold > threshold;
    &&& r.attestation_count == existing.attestation_count
    &&& r.threshold_crossed == crossed
    &&& r.new_credit_supply == (if crossed { Some(existing.credit_supply) } else { None })
    &&& r.admission_allowance is None
    &&& r.next_threshold == existing.next_fibonacci_threshold
    &&& r.network_state_hash@ == hash@
}

/// Idempotency: the first recorded state (in anchor order) already
/// carrying the next count answers for it; None when this agent is the
/// first writer.
pub fn existing_attestation_result(
    current: &Option<(NetworkState, Vec<u8>)>,
    recorded: &[(NetworkState, Vec<u8>)],
) -> (r: Option<FibonacciResult>)
    requires
        succession_defined(*current),
    ensures
        match r {
            Some(res) => exists|i: int| {
                &&& 0 <= i < recorded@.len()
                &&& recorded@[i].0.attestation_count == next_count(*current)
                &&& (forall|j: int| 0 <= j < i ==> recorded@[j].0.attestation_count != next_count(*current))
                &&& is_existing_result(recorded@[i].0, recorded@[i].1, current_threshold(*current), res)
            },
            None => forall|j: int| 0 <= j < recorded@.len() ==> recorded@[j].0.attestation_count != next_count(*current),
        },
{
    let (count, threshold): (u64, u64) = match current {
        Some((s, _)) => (s.attestation_count + 1, s.next_fibonacci_threshold),
        None => (1, BOOTSTRAP_ATTESTATIONS),
    };
    let mut i: usize = 0;
    while i < recorded.len()
        invariant
            i <= recorded@.len(),
            count == next_count(*current),
            threshold == current_threshold(*current),
            forall|j: int| 0 <= j < i ==> recorded@[j].0.attestation_count != count,
        decreases recorded@.len() - i,
    {
        let (existing, hash) = &recorded[i];
        if existing.attestation_count == count {
            let crossed = existing.next_fibonacci_threshold > threshold;
            let h = hash.clone();
            proof {
                assert(h@ =~= hash@);
            }
            return Some(FibonacciResult {
                attestation_count: existing.attestation_count,
                threshold_crossed: crossed,
                new_credit_supply: if crossed { Some(existing.credit_supply) } else { None },
                admission_allowance: None,
                next_threshold: existing.next_fibonacci_threshold,
                network_state_hash: h,
            });
        }
        i = i + 1;
    }
    None
}


/// Whether the first writer's new state `next` reached the threshold it
/// was measured against.
pub fn attestation_crossed(current: &Option<(NetworkState, Vec<u8>)>, next: &NetworkState) -> (r: bool)
    ensures
        r == (next.attestation_count >= current_threshold(*current)),
{
    let threshold = match current {
        Some((s, _)) => s.next_fibonacci_threshold,
        None => BOOTSTRAP_ATTESTATIONS,
    };
    next.attestation_count >= threshold
}

/// The report of the first writer of a count, whose new state `next` was
/// written under `network_state_hash`: a crossing reports the expanded
/// supply and the admission allowance (`admission_allowance`, worked out
/// by the caller for a crossing); otherwise neither.
pub fn fresh_attestation_result(
    current: &Option<(NetworkState, Vec<u8>)>,
    next: &NetworkState,
    network_state_hash: Vec<u8>,
    admission_allowance: Option<u32>,
) -> (r: FibonacciResult)
    ensures
        ({
            let crossed = next.attestation_count >= current_threshold(*current);
            &&& r.attestation_count == next.attestation_count
            &&& r.threshold_crossed == crossed
            &&& r.new_credit_supply == (if crossed { Some(next.credit_supply) } else { None })
            &&& r.admission_allowance == (if crossed { admission_allowance } else { None })
            &&& r.next_threshold == next.next_fibonacci_threshold
            &&& r.network_state_hash@ == network_state_hash@
        }),
{
    let crossed = attestation_crossed(current, next);
    FibonacciResult {
        attestation_count: next.attestation_count,
        threshold_crossed: crossed,
        new_credit_supply: if crossed { Some(next.credit_supply) } else { None },
        admission_allowance: if crossed { admission_allowance } else { None },
        next_threshold: next.next_fibonacci_threshold,
        network_state_hash,
    }
}

/// The predecessor is an unrostered, well-formed state of the bootstrap or
/// first governed phase.
pub open spec fn bootstrap_predecessor(current: Option<(NetworkState, Vec<u8>)>) -> bool {
    match current {
        Some((p, _)) => {
            &&& p.authorized_signers@.len() == 0
            &&& p.phase <= 1
            &&& p.next_fibonacci_threshold > 0
            &&& crate::fibonacci::is_fib(p.next_fibonacci_threshold as nat)
            &&& p.credit_supply >= 987
        },
        None => true,
    }
}

pub open spec fn anchor_of(current: Option<(NetworkState, Vec<u8>)>) -> crate::ledger::AnchorLookup {
    match current {
        Some((p, _)) => crate::ledger::AnchorLookup::State(p),
        None => crate::ledger::AnchorLookup::NoEntry,
    }
}

/// Every NetworkState the attestation succession writes — the genesis
/// state, and each successor of an unrostered predecessor in the
/// bootstrap or first governed phase — is accepted by the ledger's
/// NetworkState rule, whoever authors it.
pub proof fn lemma_attestation_successor_valid(
    author: Seq<u8>,
    current: Option<(NetworkState, Vec<u8>)>,
    s: NetworkState,
    progenitor: Option<Seq<u8>>,
    signature_ok: Seq<bool>,
)
    requires
        succession_defined(current),
        bootstrap_predecessor(current),
        is_attestation_successor(current, s),
    ensures
        crate::ledger::network_state_verdict(author, s, anchor_of(current), progenitor, signature_ok)
            == crate::ledger::Verdict::Valid,
{
    match current {
        None => {
            assert(crate::fibonacci::fib(8) == 21) by {
                reveal_with_fuel(crate::fibonacci::fib, 9);
            }
            assert(crate::fibonacci::is_fib(21));
        },
        Some((p, h)) => {
            let count = p.attestation_count + 1;
            if count >= p.next_fibonacci_threshold {
                crate::fibonacci::lemma_fib_table();
                crate::curve::lemma_next_fib_le(count as nat, 93);
                let k = crate::fibonacci::next_fib_index(count as nat);
                crate::fibonacci::lemma_fib_monotone(3, k);
                assert(crate::fibonacci::fib(3) == 2) by {
                    reveal_with_fuel(crate::fibonacci::fib, 4);
                }
                assert(crate::fibonacci::is_fib(next_fib(count as nat)));
                crate::curve::lemma_expand_grows(p.credit_supply as int);
            }
            assert(s.authorized_signers@.len() == keys_view(s.authorized_signers@).len());
            assert(p.authorized_signers@.len() == keys_view(p.authorized_signers@).len());
        },
    }
}


// ─────────────────────────────────────────────
// Limits: the unsealed refresh and the sealed path
// ─────────────────────────────────────────────

/// The unsealed CreditLimit `update_credit_limit` commits: the default
/// limit for the current supply, no attested balance, no reputation.
pub fn unsealed_credit_limit(agent: Vec<u8>, credit_supply: i64, metadata_blob: Vec<u8>) -> (r: CreditLimit)
    requires
        supply_nat(credit_supply) * 377 <= u64::MAX,
    ensures
        r.agent == agent,
        r.limit == default_limit_spec(credit_supply),
        r.reputation_score == 0,
        r.attested_balance == 0,
        r.cycle == 0,
        r.seal is None,
        r.metadata_blob == metadata_blob,
{
    CreditLimit {
        agent,
        limit: default_credit_limit(credit_supply),
        reputation_score: 0,
        attested_balance: 0,
        cycle: 0,
        seal: None,
        metadata_blob,
    }
}

/// The ledger accepts the unsealed limit `update_credit_limit` writes for
/// its own author exactly while the default limit of the current supply
/// is no better than fresh-account terms (−377): from the first Fibonacci
/// expansion of the supply on, the unsealed refresh is refused.
pub proof fn lemma_unsealed_refresh_valid(author: Seq<u8>, cl: CreditLimit, anchor: crate::ledger::AnchorLookup, signature_ok: Seq<bool>)
    requires
        cl.agent@ == author,
        cl.reputation_score == 0,
        cl.attested_balance == 0,
        cl.seal is None,
    ensures
        (crate::ledger::credit_limit_verdict(author, cl, anchor, signature_ok) == crate::ledger::Verdict::Valid)
            <==> cl.limit >= -377,
{
    assert(crate::ledger::fresh_floor() == -377);
}

/// What roster members sign for a CreditLimit.
#[derive(Clone, Debug)]
pub struct CreditLimitPayload {
    pub domain: String,
    pub dna_hash: Vec<u8>,
    pub anchor_state_hash: Vec<u8>,
    pub agent: Vec<u8>,
    pub limit: i64,
    pub attested_balance: i64,
    pub reputation_score: u32,
    pub cycle: u64,
    /// The registry ReputationCache the score was read from.
    pub reputation_basis: Option<Vec<u8>>,
}

pub open spec fn limit_sign_check(
    dna_hash: Seq<u8>,
    p: CreditLimitPayload,
    current: Option<(NetworkState, Vec<u8>)>,
    basis: Option<(Vec<u8>, u32)>,
    balance: i64,
) -> Result<(), EconomyError> {
    if p.domain@ != SEAL_DOMAIN_CREDIT_LIMIT@ || p.dna_hash@ != dna_hash {
        Err(EconomyError::DomainMismatch)
    } else {
        match current {
            None => Err(EconomyError::NoNetworkState),
            Some((cur, h)) => if p.anchor_state_hash@ != h@ || p.cycle != cur.cycle {
                Err(EconomyError::NotCurrentAnchor)
            } else {
                match basis {
                    None => Err(EconomyError::NoReputationBasis),
                    Some((bh, score)) => match p.reputation_basis {
                        None => Err(EconomyError::BasisNotCited),
                        Some(c) => if c@ != bh@ {
                            Err(EconomyError::BasisNotLatest)
                        } else if p.reputation_score != score {
                            Err(EconomyError::ScoreMismatch)
                        } else if p.limit != credit_limit_spec(score, cur.credit_supply) {
                            Err(EconomyError::LimitNotLaw)
                        } else if p.attested_balance != balance {
                            Err(EconomyError::BalanceMismatch)
                        } else {
                            Ok(())
                        },
                    },
                }
            },
        }
    }
}

/// A roster member's consent to a sealed limit, against its own view: the
/// payload anchors to the current state and cycle, cites the agent's
/// latest reputation cache (`basis`: its hash and score) with that score,
/// carries exactly the law limit of the score, and attests the balance
/// this view computes.
pub fn check_limit_signature(
    dna_hash: &Vec<u8>,
    payload: &CreditLimitPayload,
    current: &Option<(NetworkState, Vec<u8>)>,
    basis: &Option<(Vec<u8>, u32)>,
    balance: i64,
) -> (r: Result<(), EconomyError>)
    ensures
        r == limit_sign_check(dna_hash@, *payload, *current, *basis, balance),
{
    if !domain_is(&payload.domain, SEAL_DOMAIN_CREDIT_LIMIT) || !key_eq(&payload.dna_hash, dna_hash) {
        return Err(EconomyError::DomainMismatch);
    }
    let (cur, h) = match current {
        None => {
            return Err(EconomyError::NoNetworkState);
        },
        Some(pair) => (&pair.0, &pair.1),
    };
    if !key_eq(&payload.anchor_state_hash, h) || payload.cycle != cur.cycle {
        return Err(EconomyError::NotCurrentAnchor);
    }
    let (bh, score) = match basis {
        None => {
            return Err(EconomyError::NoReputationBasis);
        },
        Some(pair) => (&pair.0, pair.1),
    };
    match &payload.reputation_basis {
        None => {
            return Err(EconomyError::BasisNotCited);
        },
        Some(c) => {
            if !key_eq(c, bh) {
                return Err(EconomyError::BasisNotLatest);
            }
        },
    }
    if payload.reputation_score != score {
        return Err(EconomyError::ScoreMismatch);
    }
    if payload.limit != credit_limit_for_reputation(score, cur.credit_supply) {
        return Err(EconomyError::LimitNotLaw);
    }
    if payload.attested_balance != balance {
        return Err(EconomyError::BalanceMismatch);
    }
    Ok(())
}

pub open spec fn is_refresh_payload(
    me: Seq<u8>,
    dna_hash: Seq<u8>,
    cur: NetworkState,
    h: Seq<u8>,
    bh: Seq<u8>,
    score: u32,
    balance: i64,
    p: CreditLimitPayload,
) -> bool {
    &&& p.domain@ == SEAL_DOMAIN_CREDIT_LIMIT@
    &&& p.dna_hash@ == dna_hash
    &&& p.anchor_state_hash@ == h
    &&& p.agent@ == me
    &&& p.limit == credit_limit_spec(score, cur.credit_supply)
    &&& p.attested_balance == balance
    &&& p.reputation_score == score
    &&& p.cycle == cur.cycle
    &&& p.reputation_basis matches Some(c) && c@ == bh
}

pub open spec fn refresh_outcome(
    me: Seq<u8>,
    dna_hash: Seq<u8>,
    current: Option<(NetworkState, Vec<u8>)>,
    basis: Option<(Vec<u8>, u32)>,
    balance: i64,
    r: Result<CreditLimitPayload, EconomyError>,
) -> bool {
    match current {
        None => r == Err::<CreditLimitPayload, EconomyError>(EconomyError::NoNetworkState),
        Some((cur, h)) => if cur.authorized_signers@.len() == 0 {
            r == Err::<CreditLimitPayload, EconomyError>(EconomyError::NoRosterDeclared)
        } else {
            match basis {
                None => r == Err::<CreditLimitPayload, EconomyError>(EconomyError::NoReputationBasis),
                Some((bh, score)) => r matches Ok(p) && is_refresh_payload(me, dna_hash, cur, h@, bh@, score, balance, p),
            }
        },
    }
}

/// The payload of a sealed limit refresh: the law limit of the agent's
/// latest reputation score over the current supply, its balance as
/// attested, anchored to the current state. Refused before sovereignty is
/// declared (unsealed fresh terms are the only path then) and without a
/// reputation basis.
pub fn plan_limit_refresh(
    me: &Vec<u8>,
    dna_hash: &Vec<u8>,
    current: &Option<(NetworkState, Vec<u8>)>,
    basis: &Option<(Vec<u8>, u32)>,
    balance: i64,
) -> (r: Result<CreditLimitPayload, EconomyError>)
    ensures
        refresh_outcome(me@, dna_hash@, *current, *basis, balance, r),
{
    let (cur, h) = match current {
        None => {
            return Err(EconomyError::NoNetworkState);
        },
        Some(pair) => (&pair.0, &pair.1),
    };
    if cur.authorized_signers.len() == 0 {
        return Err(EconomyError::NoRosterDeclared);
    }
    let (bh, score) = match basis {
        None => {
            return Err(EconomyError::NoReputationBasis);
        },
        Some(pair) => (&pair.0, pair.1),
    };
    let limit = credit_limit_for_reputation(score, cur.credit_supply);
    let domain: String = SEAL_DOMAIN_CREDIT_LIMIT.to_owned();
    let d = dna_hash.clone();
    let a = h.clone();
    let m = me.clone();
    let b = bh.clone();
    proof {
        assert(d@ =~= dna_hash@);
        assert(a@ =~= h@);
        assert(m@ =~= me@);
        assert(b@ =~= bh@);
    }
    Ok(CreditLimitPayload {
        domain,
        dna_hash: d,
        anchor_state_hash: a,
        agent: m,
        limit,
        attested_balance: balance,
        reputation_score: score,
        cycle: cur.cycle,
        reputation_basis: Some(b),
    })
}

/// The sealed CreditLimit a refresh commits: the payload's terms under
/// the collected roster signatures, anchored where the payload anchors.
pub fn sealed_credit_limit(
    payload: &CreditLimitPayload,
    signers: Vec<Vec<u8>>,
    signatures: Vec<Vec<u8>>,
    metadata_blob: Vec<u8>,
) -> (r: CreditLimit)
    ensures
        r.agent@ == payload.agent@,
        r.limit == payload.limit,
        r.reputation_score == payload.reputation_score,
        r.attested_balance == payload.attested_balance,
        r.cycle == payload.cycle,
        r.seal matches Some(seal) && seal.anchor_state_hash@ == payload.anchor_state_hash@
            && seal.signers == signers && seal.signatures == signatures,
        r.metadata_blob == metadata_blob,
{
    let agent = payload.agent.clone();
    let anchor = payload.anchor_state_hash.clone();
    proof {
        assert(agent@ =~= payload.agent@);
        assert(anchor@ =~= payload.anchor_state_hash@);
    }
    CreditLimit {
        agent,
        limit: payload.limit,
        reputation_score: payload.reputation_score,
        attested_balance: payload.attested_balance,
        cycle: payload.cycle,
        seal: Some(QuorumSeal { anchor_state_hash: anchor, signers, signatures }),
        metadata_blob,
    }
}

/// A sealed refresh needs nothing from the ledger but its seal: the
/// limit a refresh plans is bound to the anchored cycle and within the
/// Fibonacci ceiling, so the CreditLimit rule reduces to the seal rule
/// over the anchor's roster.
pub proof fn lemma_refresh_reduces_to_seal(
    me: Seq<u8>,
    dna_hash: Seq<u8>,
    cur: NetworkState,
    h: Seq<u8>,
    bh: Seq<u8>,
    score: u32,
    balance: i64,
    p: CreditLimitPayload,
    cl: CreditLimit,
    signature_ok: Seq<bool>,
)
    requires
        is_refresh_payload(me, dna_hash, cur, h, bh, score, balance, p),
        cl.agent@ == p.agent@,
        cl.limit == p.limit,
        cl.reputation_score == p.reputation_score,
        cl.attested_balance == p.attested_balance,
        cl.cycle == p.cycle,
        cl.seal is Some,
    ensures
        crate::ledger::credit_limit_verdict(me, cl, crate::ledger::AnchorLookup::State(cur), signature_ok)
            == crate::ledger::seal_check(cl.seal.unwrap(), cur.authorized_signers@, signature_ok),
{
}

/// An honest roster member whose view matches the refresher's signs: the
/// payload a refresh plans passes the member's own signature check.
pub proof fn lemma_refresh_payload_signable(
    me: Seq<u8>,
    dna_hash: Seq<u8>,
    cur: NetworkState,
    h: Vec<u8>,
    bh: Vec<u8>,
    score: u32,
    balance: i64,
    p: CreditLimitPayload,
)
    requires
        is_refresh_payload(me, dna_hash, cur, h@, bh@, score, balance, p),
    ensures
        limit_sign_check(dna_hash, p, Some((cur, h)), Some((bh, score)), balance) == Ok::<(), EconomyError>(()),
{
}


// ─────────────────────────────────────────────
// Sovereignty roster — declared, rotated, acceded
// ─────────────────────────────────────────────

/// What roster members sign for a governed NetworkState write.
#[derive(Clone, Debug)]
pub struct NetworkStatePayload {
    pub domain: String,
    pub dna_hash: Vec<u8>,
    pub anchor_state_hash: Vec<u8>,
    pub prev_state_hash: Vec<u8>,
    pub attestation_count: u64,
    pub next_fibonacci_threshold: u64,
    pub credit_supply: i64,
    pub cycle: u64,
    pub phase: u8,
    pub authorized_signers: Vec<Vec<u8>>,
    pub roster_declared_at: u64,
}

/// `s` is `cur` with a new roster, declared now: economics and count
/// unchanged, the lease clock restarted at the current count, pointing
/// back at `cur` (whose hash is `h`).
pub open spec fn is_roster_successor(cur: NetworkState, h: Seq<u8>, roster: Seq<Seq<u8>>, s: NetworkState) -> bool {
    &&& s.attestation_count == cur.attestation_count
    &&& s.next_fibonacci_threshold == cur.next_fibonacci_threshold
    &&& s.credit_supply == cur.credit_supply
    &&& s.cycle == cur.cycle
    &&& s.phase == cur.phase
    &&& keys_view(s.authorized_signers@) == roster
    &&& s.prev_state_hash matches Some(ph) && ph@ == h
    &&& s.roster_declared_at == cur.attestation_count
}

pub open spec fn declaration_outcome(
    current: Option<(NetworkState, Vec<u8>)>,
    roster: Seq<Seq<u8>>,
    r: Result<NetworkState, EconomyError>,
) -> bool {
    match current {
        None => r == Err::<NetworkState, EconomyError>(EconomyError::NoNetworkState),
        Some((cur, h)) => if cur.authorized_signers@.len() != 0 {
            r == Err::<NetworkState, EconomyError>(EconomyError::RosterAlreadyDeclared)
        } else if roster.len() == 0 {
            r == Err::<NetworkState, EconomyError>(EconomyError::DerivedRosterEmpty)
        } else {
            r matches Ok(s) && is_roster_successor(cur, h@, roster, s) && s.seal is None
        },
    }
}

/// The bootstrap declaration of sovereignty: the first, unsealed roster,
/// on a network that has a state and no roster yet.
pub fn declare_roster_state(current: &Option<(NetworkState, Vec<u8>)>, roster: &[Vec<u8>]) -> (r: Result<NetworkState, EconomyError>)
    ensures
        declaration_outcome(*current, keys_view(roster@), r),
{
    let (cur, h) = match current {
        None => {
            return Err(EconomyError::NoNetworkState);
        },
        Some(pair) => (&pair.0, &pair.1),
    };
    if cur.authorized_signers.len() != 0 {
        return Err(EconomyError::RosterAlreadyDeclared);
    }
    if roster.len() == 0 {
        return Err(EconomyError::DerivedRosterEmpty);
    }
    let ph = h.clone();
    proof {
        assert(ph@ =~= h@);
    }
    Ok(NetworkState {
        attestation_count: cur.attestation_count,
        next_fibonacci_threshold: cur.next_fibonacci_threshold,
        credit_supply: cur.credit_supply,
        cycle: cur.cycle,
        phase: cur.phase,
        authorized_signers: crate::roster::clone_keys(roster),
        prev_state_hash: Some(ph),
        roster_declared_at: cur.attestation_count,
        seal: None,
    })
}

/// The state carries a Fibonacci threshold and at least the genesis supply.
pub open spec fn well_formed_state(s: NetworkState) -> bool {
    &&& s.next_fibonacci_threshold > 0
    &&& crate::fibonacci::is_fib(s.next_fibonacci_threshold as nat)
    &&& s.credit_supply >= 987
}

/// The first roster declaration passes the ledger's NetworkState rule
/// exactly when no progenitor is configured or the progenitor authors it.
pub proof fn lemma_declaration_valid(
    author: Seq<u8>,
    cur: NetworkState,
    h: Seq<u8>,
    roster: Seq<Seq<u8>>,
    s: NetworkState,
    progenitor: Option<Seq<u8>>,
    signature_ok: Seq<bool>,
)
    requires
        well_formed_state(cur),
        cur.authorized_signers@.len() == 0,
        roster.len() > 0,
        is_roster_successor(cur, h, roster, s),
        s.seal is None,
    ensures
        (crate::ledger::network_state_verdict(author, s, crate::ledger::AnchorLookup::State(cur), progenitor, signature_ok)
            == crate::ledger::Verdict::Valid) <==> (progenitor is None || progenitor == Some(author)),
{
    assert(keys_view(cur.authorized_signers@).len() == 0);
    assert(keys_view(s.authorized_signers@) != keys_view(cur.authorized_signers@));
    assert(s.authorized_signers@.len() == keys_view(s.authorized_signers@).len());
}

pub open spec fn is_rotation_payload(
    dna_hash: Seq<u8>,
    cur: NetworkState,
    h: Seq<u8>,
    roster: Seq<Seq<u8>>,
    p: NetworkStatePayload,
) -> bool {
    &&& p.domain@ == SEAL_DOMAIN_NETWORK_STATE@
    &&& p.dna_hash@ == dna_hash
    &&& p.anchor_state_hash@ == h
    &&& p.prev_state_hash@ == h
    &&& p.attestation_count == cur.attestation_count
    &&& p.next_fibonacci_threshold == cur.next_fibonacci_threshold
    &&& p.credit_supply == cur.credit_supply
    &&& p.cycle == cur.cycle
    &&& p.phase == cur.phase
    &&& keys_view(p.authorized_signers@) == roster
    &&& p.roster_declared_at == cur.attestation_count
}

fn rotation_payload(dna_hash: &Vec<u8>, cur: &NetworkState, h: &Vec<u8>, roster: &[Vec<u8>]) -> (p: NetworkStatePayload)
    ensures
        is_rotation_payload(dna_hash@, *cur, h@, keys_view(roster@), p),
{
    let d = dna_hash.clone();
    let a = h.clone();
    let b = h.clone();
    proof {
        assert(d@ =~= dna_hash@);
        assert(a@ =~= h@);
        assert(b@ =~= h@);
    }
    NetworkStatePayload {
        domain: SEAL_DOMAIN_NETWORK_STATE.to_owned(),
        dna_hash: d,
        anchor_state_hash: a,
        prev_state_hash: b,
        attestation_count: cur.attestation_count,
        next_fibonacci_threshold: cur.next_fibonacci_threshold,
        credit_supply: cur.credit_supply,
        cycle: cur.cycle,
        phase: cur.phase,
        authorized_signers: crate::roster::clone_keys(roster),
        roster_declared_at: cur.attestation_count,
    }
}

pub open spec fn rotation_outcome(
    dna_hash: Seq<u8>,
    current: Option<(NetworkState, Vec<u8>)>,
    roster: Seq<Seq<u8>>,
    r: Result<NetworkStatePayload, EconomyError>,
) -> bool {
    match current {
        None => r == Err::<NetworkStatePayload, EconomyError>(EconomyError::NoNetworkState),
        Some((cur, h)) => if cur.authorized_signers@.len() == 0 {
            r == Err::<NetworkStatePayload, EconomyError>(EconomyError::NoRosterDeclared)
        } else if roster == keys_view(cur.authorized_signers@) {
            r == Err::<NetworkStatePayload, EconomyError>(EconomyError::RosterUnchanged)
        } else {
            r matches Ok(p) && is_rotation_payload(dna_hash, cur, h@, roster, p)
        },
    }
}

/// Rotation of sovereignty: a changed, freshly derived roster proposed
/// to the sitting roster with economics unchanged and the lease clock
/// restarted.
pub fn plan_rotation(dna_hash: &Vec<u8>, current: &Option<(NetworkState, Vec<u8>)>, roster: &[Vec<u8>]) -> (r: Result<NetworkStatePayload, EconomyError>)
    ensures
        rotation_outcome(dna_hash@, *current, keys_view(roster@), r),
{
    let (cur, h) = match current {
        None => {
            return Err(EconomyError::NoNetworkState);
        },
        Some(pair) => (&pair.0, &pair.1),
    };
    if cur.authorized_signers.len() == 0 {
        return Err(EconomyError::NoRosterDeclared);
    }
    if crate::ledger::keys_equal(roster, cur.authorized_signers.as_slice()) {
        return Err(EconomyError::RosterUnchanged);
    }
    Ok(rotation_payload(dna_hash, cur, h, roster))
}

pub open spec fn accession_outcome(
    dna_hash: Seq<u8>,
    current: Option<(NetworkState, Vec<u8>)>,
    roster: Seq<Seq<u8>>,
    r: Result<NetworkStatePayload, EconomyError>,
) -> bool {
    match current {
        None => r == Err::<NetworkStatePayload, EconomyError>(EconomyError::NoNetworkState),
        Some((cur, h)) => if cur.authorized_signers@.len() == 0 {
            r == Err::<NetworkStatePayload, EconomyError>(EconomyError::NoRosterDeclared)
        } else if !(cur.attestation_count >= cur.roster_declared_at && cur.attestation_count
            - cur.roster_declared_at >= SOVEREIGNTY_LEASE_ROUNDS) {
            r == Err::<NetworkStatePayload, EconomyError>(EconomyError::LeaseNotExpired)
        } else if roster.len() == 0 {
            r == Err::<NetworkStatePayload, EconomyError>(EconomyError::DerivedRosterEmpty)
        } else if roster == keys_view(cur.authorized_signers@) {
            r == Err::<NetworkStatePayload, EconomyError>(EconomyError::RosterUnchanged)
        } else {
            r matches Ok(p) && is_rotation_payload(dna_hash, cur, h@, roster, p)
        },
    }
}

/// Accession past a dead sovereign: once the sitting roster's lease has
/// run out, a non-empty, changed, freshly derived roster is proposed to
/// itself.
pub fn plan_accession(dna_hash: &Vec<u8>, current: &Option<(NetworkState, Vec<u8>)>, roster: &[Vec<u8>]) -> (r: Result<NetworkStatePayload, EconomyError>)
    ensures
        accession_outcome(dna_hash@, *current, keys_view(roster@), r),
{
    let (cur, h) = match current {
        None => {
            return Err(EconomyError::NoNetworkState);
        },
        Some(pair) => (&pair.0, &pair.1),
    };
    if cur.authorized_signers.len() == 0 {
        return Err(EconomyError::NoRosterDeclared);
    }
    if !roster_expired(cur.roster_declared_at, cur.attestation_count) {
        return Err(EconomyError::LeaseNotExpired);
    }
    if roster.len() == 0 {
        return Err(EconomyError::DerivedRosterEmpty);
    }
    if crate::ledger::keys_equal(roster, cur.authorized_signers.as_slice()) {
        return Err(EconomyError::RosterUnchanged);
    }
    Ok(rotation_payload(dna_hash, cur, h, roster))
}

/// The successor state a rotation or accession commits: the payload's
/// terms, sealed by the collected signatures, anchored to the predecessor.
pub fn sealed_roster_state(p: &NetworkStatePayload, signers: Vec<Vec<u8>>, signatures: Vec<Vec<u8>>) -> (s: NetworkState)
    ensures
        s.attestation_count == p.attestation_count,
        s.next_fibonacci_threshold == p.next_fibonacci_threshold,
        s.credit_supply == p.credit_supply,
        s.cycle == p.cycle,
        s.phase == p.phase,
        keys_view(s.authorized_signers@) == keys_view(p.authorized_signers@),
        s.prev_state_hash matches Some(ph) && ph@ == p.prev_state_hash@,
        s.roster_declared_at == p.roster_declared_at,
        s.seal matches Some(seal) && seal.anchor_state_hash@ == p.anchor_state_hash@
            && seal.signers == signers && seal.signatures == signatures,
{
    let ph = p.prev_state_hash.clone();
    let anchor = p.anchor_state_hash.clone();
    proof {
        assert(ph@ =~= p.prev_state_hash@);
        assert(anchor@ =~= p.anchor_state_hash@);
    }
    NetworkState {
        attestation_count: p.attestation_count,
        next_fibonacci_threshold: p.next_fibonacci_threshold,
        credit_supply: p.credit_supply,
        cycle: p.cycle,
        phase: p.phase,
        authorized_signers: crate::roster::clone_keys(p.authorized_signers.as_slice()),
        prev_state_hash: Some(ph),
        roster_declared_at: p.roster_declared_at,
        seal: Some(QuorumSeal { anchor_state_hash: anchor, signers, signatures }),
    }
}

/// A sealed rotation of a rostered, well-formed state is a rotation in
/// the ledger's sense (count and economics frozen, roster changed), so
/// the NetworkState rule reduces to the seal rule over the sitting
/// roster.
pub proof fn lemma_rotation_reduces_to_seal(
    author: Seq<u8>,
    cur: NetworkState,
    h: Seq<u8>,
    roster: Seq<Seq<u8>>,
    s: NetworkState,
    progenitor: Option<Seq<u8>>,
    signature_ok: Seq<bool>,
)
    requires
        well_formed_state(cur),
        cur.authorized_signers@.len() > 0,
        roster != keys_view(cur.authorized_signers@),
        is_roster_successor(cur, h, roster, s),
        s.seal matches Some(seal) && seal.anchor_state_hash@ == h,
    ensures
        crate::ledger::network_state_verdict(author, s, crate::ledger::AnchorLookup::State(cur), progenitor, signature_ok)
            == crate::ledger::seal_check(s.seal.unwrap(), cur.authorized_signers@, signature_ok),
{
}

pub open spec fn rotation_sign_check(
    dna_hash: Seq<u8>,
    p: NetworkStatePayload,
    current: Option<(NetworkState, Vec<u8>)>,
    expected_roster: Seq<Seq<u8>>,
) -> Result<(), EconomyError> {
    if p.domain@ != SEAL_DOMAIN_NETWORK_STATE@ || p.dna_hash@ != dna_hash {
        Err(EconomyError::DomainMismatch)
    } else {
        match current {
            None => Err(EconomyError::NoNetworkState),
            Some((cur, h)) => if p.anchor_state_hash@ != h@ || p.prev_state_hash@ != h@ {
                Err(EconomyError::NotCurrentAnchor)
            } else if p.attestation_count != cur.attestation_count
                || p.next_fibonacci_threshold != cur.next_fibonacci_threshold
                || p.credit_supply != cur.credit_supply || p.cycle != cur.cycle
                || p.phase != cur.phase || p.roster_declared_at != cur.attestation_count {
                Err(EconomyError::RotationEconomicsChanged)
            } else if keys_view(p.authorized_signers@) != expected_roster {
                Err(EconomyError::RosterDiverges)
            } else {
                Ok(())
            },
        }
    }
}

/// A roster member's consent to a successor state, against its own view:
/// it succeeds the current state, carries the economics unchanged with
/// the lease clock stamped now, and proposes exactly the roster this
/// member derives itself.
pub fn check_rotation_signature(
    dna_hash: &Vec<u8>,
    payload: &NetworkStatePayload,
    current: &Option<(NetworkState, Vec<u8>)>,
    expected_roster: &[Vec<u8>],
) -> (r: Result<(), EconomyError>)
    ensures
        r == rotation_sign_check(dna_hash@, *payload, *current, keys_view(expected_roster@)),
{
    if !domain_is(&payload.domain, SEAL_DOMAIN_NETWORK_STATE) || !key_eq(&payload.dna_hash, dna_hash) {
        return Err(EconomyError::DomainMismatch);
    }
    let (cur, h) = match current {
        None => {
            return Err(EconomyError::NoNetworkState);
        },
        Some(pair) => (&pair.0, &pair.1),
    };
    if !key_eq(&payload.anchor_state_hash, h) || !key_eq(&payload.prev_state_hash, h) {
        return Err(EconomyError::NotCurrentAnchor);
    }
    if payload.attestation_count != cur.attestation_count
        || payload.next_fibonacci_threshold != cur.next_fibonacci_threshold
        || payload.credit_supply != cur.credit_supply || payload.cycle != cur.cycle
        || payload.phase != cur.phase || payload.roster_declared_at != cur.attestation_count {
        return Err(EconomyError::RotationEconomicsChanged);
    }
    if !crate::ledger::keys_equal(payload.authorized_signers.as_slice(), expected_roster) {
        return Err(EconomyError::RosterDiverges);
    }
    Ok(())
}

/// A member whose view (current state, derived roster) matches the
/// proposer's signs the proposal.
pub proof fn lemma_rotation_payload_signable(
    dna_hash: Seq<u8>,
    cur: NetworkState,
    h: Vec<u8>,
    roster: Seq<Seq<u8>>,
    p: NetworkStatePayload,
)
    requires
        is_rotation_payload(dna_hash, cur, h@, roster, p),
    ensures
        rotation_sign_check(dna_hash, p, Some((cur, h)), roster) == Ok::<(), EconomyError>(()),
{
}


// ─────────────────────────────────────────────
// Economic snapshot — what closure sees of the economy
// ─────────────────────────────────────────────

/// One account as the snapshot reads it.
#[derive(Clone, Debug)]
pub struct AccountStanding {
    pub agent: Vec<u8>,
    pub balance: i64,
    pub credit_limit: i64,
}

/// The account population's frozen tally.
#[derive(Clone, Copy, Debug, PartialEq, Eq, Structural)]
pub struct FrozenTally {
    pub account_count: u32,
    pub frozen_count: u32,
    /// Σ|credit limit| over frozen accounts, saturating.
    pub frozen_credit_mass: u64,
    /// Σ|credit limit| over all accounts, saturating.
    pub total_credit_mass: u64,
}

pub open spec fn standing_agents(a: Seq<AccountStanding>) -> Seq<Seq<u8>> {
    a.map_values(|s: AccountStanding| s.agent@)
}

/// `a[i]` is the first account of its agent.
pub open spec fn first_of_agent(a: Seq<AccountStanding>, i: int) -> bool {
    !standing_agents(a).subrange(0, i).contains(a[i].agent@)
}

pub open spec fn abs_i64(x: i64) -> int {
    if x < 0 { -(x as int) } else { x as int }
}

pub open spec fn sat_u64(x: int) -> int {
    if x > u64::MAX { u64::MAX as int } else { x }
}

/// (accounts, frozen, frozen mass, total mass) over the first `k` entries,
/// each agent counted once.
pub open spec fn tally_over(a: Seq<AccountStanding>, k: nat) -> (int, int, int, int)
    decreases k,
{
    if k == 0 {
        (0, 0, 0, 0)
    } else {
        let i = k - 1;
        let t = tally_over(a, (k - 1) as nat);
        if !first_of_agent(a, i) {
            t
        } else {
            let mass = abs_i64(a[i].credit_limit);
            let frozen = a[i].balance <= a[i].credit_limit;
            (
                t.0 + 1,
                if frozen { t.1 + 1 } else { t.1 },
                if frozen { sat_u64(t.2 + mass) } else { t.2 },
                sat_u64(t.3 + mass),
            )
        }
    }
}

proof fn lemma_tally_bounds(a: Seq<AccountStanding>, k: nat)
    requires
        k <= a.len(),
    ensures
        0 <= tally_over(a, k).1 <= tally_over(a, k).0 <= k,
        0 <= tally_over(a, k).2 <= u64::MAX,
        0 <= tally_over(a, k).3 <= u64::MAX,
    decreases k,
{
    if k > 0 {
        lemma_tally_bounds(a, (k - 1) as nat);
    }
}

/// The frozen fraction's inputs over the global account population: each
/// agent's first account counts once; an account is frozen at or below
/// its limit; masses are |limit|, summed with saturation.
pub fn frozen_tally(accounts: &[AccountStanding]) -> (r: FrozenTally)
    requires
        accounts@.len() <= u32::MAX,
    ensures
        r.account_count == tally_over(accounts@, accounts@.len()).0,
        r.frozen_count == tally_over(accounts@, accounts@.len()).1,
        r.frozen_credit_mass == tally_over(accounts@, accounts@.len()).2,
        r.total_credit_mass == tally_over(accounts@, accounts@.len()).3,
{
    let ghost ag = standing_agents(accounts@);
    let mut count: u32 = 0;
    let mut frozen: u32 = 0;
    let mut frozen_mass: u64 = 0;
    let mut total_mass: u64 = 0;
    let mut i: usize = 0;
    while i < accounts.len()
        invariant
            i <= accounts@.len() <= u32::MAX,
            ag == standing_agents(accounts@),
            (count as int, frozen as int, frozen_mass as int, total_mass as int) == tally_over(accounts@, i as nat),
        decreases accounts@.len() - i,
    {
        proof {
            lemma_tally_bounds(accounts@, i as nat);
        }
        let mut j: usize = 0;
        let mut seen = false;
        while j < i
            invariant
                j <= i < accounts@.len(),
                ag == standing_agents(accounts@),
                seen == ag.subrange(0, j as int).contains(ag[i as int]),
            decreases i - j,
        {
            let same = key_eq(&accounts[j].agent, &accounts[i].agent);
            proof {
                let pre = ag.subrange(0, j as int);
                assert(ag.subrange(0, j + 1) =~= pre.push(ag[j as int]));
                if pre.contains(ag[i as int]) {
                    let w = choose|w: int| 0 <= w < pre.len() && pre[w] == ag[i as int];
                    assert(pre.push(ag[j as int])[w] == ag[i as int]);
                }
                if same {
                    assert(pre.push(ag[j as int])[j as int] == ag[i as int]);
                }
                if pre.push(ag[j as int]).contains(ag[i as int]) {
                    let w = choose|w: int| 0 <= w < pre.len() + 1 && pre.push(ag[j as int])[w] == ag[i as int];
                    if w < pre.len() {
                        assert(pre[w] == ag[i as int]);
                    }
                }
            }
            if same {
                seen = true;
            }
            j = j + 1;
        }
        if !seen {
            let a = &accounts[i];
            let mass: u64 = if a.credit_limit < 0 {
                (-(a.credit_limit as i128)) as u64
            } else {
                a.credit_limit as u64
            };
            count = count + 1;
            total_mass = total_mass.saturating_add(mass);
            if a.balance <= a.credit_limit {
                frozen = frozen + 1;
                frozen_mass = frozen_mass.saturating_add(mass);
            }
        }
        i = i + 1;
    }
    FrozenTally {
        account_count: count,
        frozen_count: frozen,
        frozen_credit_mass: frozen_mass,
        total_credit_mass: total_mass,
    }
}


/// The frozen fraction's numerator and denominator: by credit mass, or
/// by heads when no mass was measured; None when there are no accounts.
pub fn frozen_fraction_parts(t: &FrozenTally) -> (r: Option<(u64, u64)>)
    ensures
        r == (if t.account_count == 0 {
            None
        } else if t.total_credit_mass > 0 {
            Some((t.frozen_credit_mass, t.total_credit_mass))
        } else {
            Some((t.frozen_count as u64, t.account_count as u64))
        }),
{
    if t.account_count == 0 {
        None
    } else if t.total_credit_mass > 0 {
        Some((t.frozen_credit_mass, t.total_credit_mass))
    } else {
        Some((t.frozen_count as u64, t.account_count as u64))
    }
}


/// Credit is sum-zero: what one transaction moves out of its sender it
/// moves into its recipient.
pub proof fn lemma_transaction_sum_zero(tx: Transaction)
    requires
        tx.from_agent@ != tx.to_agent@,
    ensures
        tx_delta(tx.from_agent@, tx) + tx_delta(tx.to_agent@, tx) == 0,
{
}

/// Every transaction the ledger accepts is sum-zero: its sender loses
/// exactly the amount, its recipient gains exactly the amount, and no
/// third agent's balance moves.
pub proof fn lemma_valid_transaction_sum_zero(
    author: Seq<u8>,
    tx: Transaction,
    record: crate::ledger::CheckpointRecord,
    chain: Seq<crate::ledger::ChainEntry>,
    endorsement_ok: bool,
    other: Seq<u8>,
)
    requires
        crate::ledger::transaction_verdict(author, tx, record, chain, endorsement_ok) is Valid,
    ensures
        tx.amount > 0,
        tx_delta(tx.from_agent@, tx) == -(tx.amount as int),
        tx_delta(tx.to_agent@, tx) == tx.amount as int,
        tx_delta(tx.from_agent@, tx) + tx_delta(tx.to_agent@, tx) == 0,
        other != tx.from_agent@ && other != tx.to_agent@ ==> tx_delta(other, tx) == 0,
{
    lemma_transaction_sum_zero(tx);
}

/// A recorded state that did not move the threshold reports no crossing
/// and no new supply; one that moved it reports the crossing with its
/// supply.
pub proof fn lemma_existing_result_crossing(existing: NetworkState, hash: Vec<u8>, threshold: u64, r: FibonacciResult)
    requires
        is_existing_result(existing, hash, threshold, r),
    ensures
        existing.next_fibonacci_threshold <= threshold ==> !r.threshold_crossed && r.new_credit_supply is None,
        existing.next_fibonacci_threshold > threshold ==> r.threshold_crossed && r.new_credit_supply == Some(existing.credit_supply),
{
}

/// Idempotency: when the recorded state for the next count is the one
/// this agent would itself have written, the reported result is the
/// first writer's: crossed exactly when the new count reached the
/// threshold measured against, with the expanded supply only then.
pub proof fn lemma_recorded_successor_reports_as_fresh(
    current: Option<(NetworkState, Vec<u8>)>,
    s: NetworkState,
    hash: Vec<u8>,
    r: FibonacciResult,
)
    requires
        is_attestation_successor(current, s),
        is_existing_result(s, hash, current_threshold(current), r),
    ensures
        r.threshold_crossed == (s.attestation_count >= current_threshold(current)),
        r.new_credit_supply == (if s.attestation_count >= current_threshold(current) {
            Some(s.credit_supply)
        } else {
            None::<i64>
        }),
        r.attestation_count == s.attestation_count,
        r.next_threshold == s.next_fibonacci_threshold,
{
    match current {
        None => {},
        Some((p, h)) => {
            lemma_crossing_moves_threshold(p);
        },
    }
}

/// A crossing moves the threshold strictly past the one crossed.
proof fn lemma_crossing_moves_threshold(p: NetworkState)
    ensures
        p.attestation_count + 1 >= p.next_fibonacci_threshold ==> next_fib((p.attestation_count + 1) as nat)
            > p.next_fibonacci_threshold,
{
    crate::curve::lemma_next_fib_above((p.attestation_count + 1) as nat);
}

/// A member signs only the law limit: a refresh that passes the signing
/// check cites the latest reputation basis and its score, attests the
/// member's view of the balance, and carries exactly the limit the curve
/// gives that score at the current supply — neither more nor less.
pub proof fn lemma_signed_limit_is_the_law(
    dna_hash: Seq<u8>,
    p: CreditLimitPayload,
    current: Option<(NetworkState, Vec<u8>)>,
    basis: Option<(Vec<u8>, u32)>,
    balance: i64,
)
    requires
        limit_sign_check(dna_hash, p, current, basis, balance) is Ok,
    ensures
        current matches Some((cur, h)) && basis matches Some((bh, score))
            && p.reputation_score == score
            && p.limit == crate::curve::credit_limit_spec(score, cur.credit_supply)
            && p.attested_balance == balance
            && p.cycle == cur.cycle
            && p.anchor_state_hash@ == h@,
        p.dna_hash@ == dna_hash,
{
}

} // verus!
