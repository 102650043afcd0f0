//! The mutual-credit membrane, as law: the rules every peer applies to
//! the ledger's entries and links before storing or serving them. Agents,
//! hashes and signatures are raw bytes; what the rules need from the
//! distributed store (a fetched anchor, the author's chain, a signature
//! check) arrives as plain values.
use vstd::prelude::*;
use crate::curve::{
    default_credit_limit, default_limit_spec, expand_credit_supply, seal_threshold,
    GENESIS_CREDIT_SUPPLY,
};
use crate::fibonacci::{is_fib, is_fibonacci, next_fib, next_fibonacci, FIB_93};
use crate::curve::{fibonacci_ceiling, limit_ceiling, supply_nat};
use crate::roster::{contains_key, key_eq, keys_view};

verus! {

/// The rule an entry or link breaks.
#[derive(Clone, Copy, Debug, PartialEq, Eq, Structural)]
pub enum Rule {
    SealRosterEmpty,
    SealCountMismatch,
    SealDuplicateSigner,
    SealSignerNotInRoster,
    SealBelowThreshold,
    SealSignatureFailed,
    AnchorNoEntry,
    AnchorNotNetworkState,
    AccountAgentNotAuthor,
    AccountLimitBeyondFloor,
    AccountAlreadyExists,
    TxNonPositiveAmount,
    TxFromNotAuthor,
    TxSelfPayment,
    TxMissingCheckpoint,
    TxCheckpointNotOnAuthorChain,
    TxCheckpointNoEntry,
    TxCheckpointForOtherAgent,
    TxCheckpointWrongKind,
    TxNewerCreditLimit,
    TxSpendOverflow,
    TxBalanceUnderflow,
    TxExceedsLimit,
    TxMissingEndorsement,
    TxEndorsementFailed,
    LimitAgentNotAuthor,
    LimitUnsealedBeyondFreshTerms,
    LimitCycleMismatch,
    LimitBeyondFibonacciCeiling,
    StateZeroThreshold,
    StateThresholdNotFibonacci,
    StateSupplyBelowGenesis,
    StateBadGenesis,
    StateRotationChangesEconomics,
    StateRotationNoop,
    StateBadCountStep,
    StateCrossingArithmetic,
    StatePhaseRegression,
    StateNonCrossingChanged,
    StateNotProgenitor,
    StateSealOnEmptyRoster,
    StateGovernedUnsealed,
    StateSealWrongAnchor,
    ReceiptNonPositiveAmount,
    ReceiptNoRail,
    ReceiptEmptyDistribution,
    ReceiptZeroWeight,
    ReceiptDuplicateAgent,
    ReceiptWeightOverflow,
    LinkTargetNotAction,
    LinkNotTargetAuthor,
    LinkTargetNoEntry,
    LinkTargetNotTransaction,
    LinkBaseNotParty,
    LinkBaseNotAuthor,
    EntryImmutable,
    LinkPermanent,
    AgentPackageMissing,
}

/// The outcome of validating an operation: accepted, rejected by a rule,
/// or not decidable (an arithmetic fault the rules report as an error).
#[derive(Clone, Copy, Debug, PartialEq, Eq, Structural)]
pub enum Verdict {
    Valid,
    Invalid(Rule),
    Failed(Rule),
}

/// Quorum countersignature carried by membrane-crossing entries.
#[derive(Clone, Debug)]
pub struct QuorumSeal {
    pub anchor_state_hash: Vec<u8>,
    pub signers: Vec<Vec<u8>>,
    pub signatures: Vec<Vec<u8>>,
}

/// The scan of the signers in order: the first one that repeats an earlier
/// signer or is missing from the roster.
pub open spec fn signer_issue(signers: Seq<Seq<u8>>, roster: Seq<Seq<u8>>, i: int) -> Option<Rule> {
    if signers.subrange(0, i).contains(signers[i]) {
        Some(Rule::SealDuplicateSigner)
    } else if !roster.contains(signers[i]) {
        Some(Rule::SealSignerNotInRoster)
    } else {
        None
    }
}

pub open spec fn scan_signers(signers: Seq<Seq<u8>>, roster: Seq<Seq<u8>>, k: nat) -> Option<Rule>
    decreases k,
{
    if k == 0 {
        None
    } else {
        match scan_signers(signers, roster, (k - 1) as nat) {
            Some(r) => Some(r),
            None => signer_issue(signers, roster, k - 1),
        }
    }
}

/// Once a signer fault is found, later signers do not change it.
pub proof fn lemma_scan_signers_stable(signers: Seq<Seq<u8>>, roster: Seq<Seq<u8>>, j: nat, k: nat)
    requires
        j <= k,
        scan_signers(signers, roster, j) is Some,
    ensures
        scan_signers(signers, roster, k) == scan_signers(signers, roster, j),
    decreases k - j,
{
    if j < k {
        lemma_scan_signers_stable(signers, roster, j, (k - 1) as nat);
    }
}

/// ⌈n · 610/987⌉ signatures of a roster of n.
pub open spec fn seal_threshold_spec(n: nat) -> nat {
    (n * 610 + 986) / 987
}

/// The seal rule: a non-empty roster; one signature per signer; no signer
/// twice; every signer on the roster; at least ⌈n·φ⁻¹⌉ signers; every
/// signature valid over the payload (`signature_ok[i]` is the check of the
/// i-th signature).
pub open spec fn seal_verdict(
    signers: Seq<Seq<u8>>,
    n_signatures: nat,
    roster: Seq<Seq<u8>>,
    signature_ok: Seq<bool>,
) -> Verdict {
    if roster.len() == 0 {
        Verdict::Invalid(Rule::SealRosterEmpty)
    } else if signers.len() != n_signatures {
        Verdict::Invalid(Rule::SealCountMismatch)
    } else {
        match scan_signers(signers, roster, signers.len()) {
            Some(r) => Verdict::Invalid(r),
            None => if signers.len() < seal_threshold_spec(roster.len()) {
                Verdict::Invalid(Rule::SealBelowThreshold)
            } else if exists|i: int| 0 <= i < signers.len() && !#[trigger] signature_ok[i] {
                Verdict::Invalid(Rule::SealSignatureFailed)
            } else {
                Verdict::Valid
            },
        }
    }
}

/// Verifies a seal against a roster: signer legitimacy, threshold, and
/// every signature (checked by the caller over the payload bytes).
pub fn verify_seal(seal: &QuorumSeal, roster: &[Vec<u8>], signature_ok: &[bool]) -> (r: Verdict)
    requires
        signature_ok@.len() == seal.signers@.len(),
        roster@.len() * 610 + 986 <= u64::MAX,
    ensures
        r == seal_verdict(
            keys_view(seal.signers@),
            seal.signatures@.len(),
            keys_view(roster@),
            signature_ok@,
        ),
{
    let ghost sv = keys_view(seal.signers@);
    let ghost rv = keys_view(roster@);
    if roster.len() == 0 {
        return Verdict::Invalid(Rule::SealRosterEmpty);
    }
    if seal.signers.len() != seal.signatures.len() {
        return Verdict::Invalid(Rule::SealCountMismatch);
    }
    let mut i: usize = 0;
    while i < seal.signers.len()
        invariant
            i <= seal.signers@.len(),
            sv == keys_view(seal.signers@),
            rv == keys_view(roster@),
            scan_signers(sv, rv, i as nat) == None::<Rule>,
            seal.signers@.len() == seal.signatures@.len(),
            roster@.len() > 0,
            signature_ok@.len() == seal.signers@.len(),
        decreases seal.signers@.len() - i,
    {
        let mut j: usize = 0;
        let mut dup = false;
        while j < i
            invariant
                j <= i < seal.signers@.len(),
                sv == keys_view(seal.signers@),
                dup == sv.subrange(0, j as int).contains(sv[i as int]),
            decreases i - j,
        {
            let same = key_eq(&seal.signers[j], &seal.signers[i]);
            if same {
                dup = true;
            }
            proof {
                let pre = sv.subrange(0, j as int);
                assert(sv.subrange(0, j + 1) =~= pre.push(sv[j as int]));
                assert(same == (sv[j as int] == sv[i as int]));
                if pre.contains(sv[i as int]) {
                    let w = choose|w: int| 0 <= w < pre.len() && pre[w] == sv[i as int];
                    assert(pre.push(sv[j as int])[w] == sv[i as int]);
                }
                if same {
                    assert(pre.push(sv[j as int])[j as int] == sv[i as int]);
                }
                if pre.push(sv[j as int]).contains(sv[i as int]) {
                    let w = choose|w: int| 0 <= w < pre.len() + 1 && pre.push(sv[j as int])[w] == sv[i as int];
                    if w < pre.len() {
                        assert(pre[w] == sv[i as int]);
                    }
                }
            }
            j = j + 1;
        }
        if dup {
            proof {
                assert(signer_issue(sv, rv, i as int) == Some(Rule::SealDuplicateSigner));
                assert(scan_signers(sv, rv, i as nat + 1) == Some(Rule::SealDuplicateSigner));
                lemma_scan_signers_stable(sv, rv, i as nat + 1, sv.len());
                assert(scan_signers(sv, rv, sv.len()) == Some(Rule::SealDuplicateSigner));
                assert(rv.len() != 0);
                assert(sv.len() == seal.signatures@.len());
            }
            return Verdict::Invalid(Rule::SealDuplicateSigner);
        }
        if !contains_key(roster, &seal.signers[i]) {
            proof {
                lemma_scan_signers_stable(sv, rv, i as nat + 1, sv.len());
            }
            return Verdict::Invalid(Rule::SealSignerNotInRoster);
        }
        i = i + 1;
    }
    let required = seal_threshold(roster.len());
    if seal.signers.len() < required {
        return Verdict::Invalid(Rule::SealBelowThreshold);
    }
    let mut k: usize = 0;
    while k < signature_ok.len()
        invariant
            k <= signature_ok@.len(),
            forall|q: int| 0 <= q < k ==> signature_ok@[q],
            signature_ok@.len() == seal.signers@.len(),
            sv == keys_view(seal.signers@),
            rv == keys_view(roster@),
            scan_signers(sv, rv, sv.len()) == None::<Rule>,
            seal.signers@.len() == seal.signatures@.len(),
            roster@.len() > 0,
            sv.len() >= seal_threshold_spec(rv.len()),
        decreases signature_ok@.len() - k,
    {
        if !signature_ok[k] {
            proof {
                assert(!signature_ok@[k as int]);
            }
            return Verdict::Invalid(Rule::SealSignatureFailed);
        }
        k = k + 1;
    }
    Verdict::Valid
}

/// The sealing roster's keys are compared as byte strings.
pub fn keys_equal(a: &[Vec<u8>], b: &[Vec<u8>]) -> (r: bool)
    ensures
        r == (keys_view(a@) == keys_view(b@)),
{
    if a.len() != b.len() {
        proof {
            assert(keys_view(a@).len() != keys_view(b@).len());
        }
        return false;
    }
    let mut i: usize = 0;
    while i < a.len()
        invariant
            i <= a.len(),
            a.len() == b.len(),
            forall|q: int| 0 <= q < i ==> a@[q]@ == b@[q]@,
        decreases a.len() - i,
    {
        if !key_eq(&a[i], &b[i]) {
            proof {
                assert(keys_view(a@)[i as int] != keys_view(b@)[i as int]);
            }
            return false;
        }
        i = i + 1;
    }
    proof {
        assert(keys_view(a@) =~= keys_view(b@));
    }
    true
}

// ─────────────────────────────────────────────
// Entries
// ─────────────────────────────────────────────

#[derive(Clone, Debug)]
pub struct Account {
    pub agent: Vec<u8>,
    pub credit_limit: i64,
    pub metadata_blob: Vec<u8>,
}

#[derive(Clone, Debug)]
pub struct Transaction {
    pub from_agent: Vec<u8>,
    pub to_agent: Vec<u8>,
    pub amount: i64,
    /// The author's balance basis: their latest CreditLimit, or their
    /// Account creation when no limit exists yet.
    pub checkpoint: Option<Vec<u8>>,
    /// The recipient's endorsement of the spend.
    pub recipient_sig: Option<Vec<u8>>,
    pub metadata_blob: Vec<u8>,
}

#[derive(Clone, Debug)]
pub struct CreditLimit {
    pub agent: Vec<u8>,
    pub limit: i64,
    pub reputation_score: u32,
    /// Net position attested by the sealing quorum: the balance checkpoint.
    pub attested_balance: i64,
    /// Equals the anchor state's cycle when sealed.
    pub cycle: u64,
    /// None: a legacy/bootstrap limit, valid only at fresh-account terms.
    pub seal: Option<QuorumSeal>,
    pub metadata_blob: Vec<u8>,
}

#[derive(Clone, Debug)]
pub struct NetworkState {
    pub attestation_count: u64,
    pub next_fibonacci_threshold: u64,
    pub credit_supply: i64,
    pub cycle: u64,
    pub phase: u8,
    /// The sovereignty roster; empty while sealing is not yet active.
    pub authorized_signers: Vec<Vec<u8>>,
    /// Succession pointer; None only at genesis.
    pub prev_state_hash: Option<Vec<u8>>,
    /// Attestation count at which the sitting roster was declared.
    pub roster_declared_at: u64,
    pub seal: Option<QuorumSeal>,
}

#[derive(Clone, Debug)]
pub struct DistributionShare {
    pub agent: Vec<u8>,
    pub weight: u64,
}

/// External value entering the membrane as an attested, sealed fact.
#[derive(Clone, Debug)]
pub struct PaymentReceipt {
    pub artifact_manifest_hash: Vec<u8>,
    pub rail: String,
    pub external_proof: Vec<u8>,
    pub amount_external: i64,
    pub distribution: Vec<DistributionShare>,
    pub seal: QuorumSeal,
    pub metadata_blob: Vec<u8>,
}

/// What a seal's anchor hash resolved to.
#[derive(Clone, Debug)]
pub enum AnchorLookup {
    NoEntry,
    NotNetworkState,
    State(NetworkState),
}

/// The unsealed floor: −⌊987·φ⁻²⌋ on the rationals, −377.
pub open spec fn fresh_floor() -> int {
    default_limit_spec(987)
}

// ─────────────────────────────────────────────
// Account
// ─────────────────────────────────────────────

pub open spec fn account_verdict(author: Seq<u8>, account: Account, chain_has_account: bool) -> Verdict {
    if account.agent@ != author {
        Verdict::Invalid(Rule::AccountAgentNotAuthor)
    } else if account.credit_limit < fresh_floor() {
        Verdict::Invalid(Rule::AccountLimitBeyondFloor)
    } else if chain_has_account {
        Verdict::Invalid(Rule::AccountAlreadyExists)
    } else {
        Verdict::Valid
    }
}

/// An Account is authored by its agent, declares no better limit than the
/// unsealed floor, and is the first Account on the author's chain
/// (`chain_has_account` reports an earlier one).
pub fn validate_create_account(author: &Vec<u8>, account: &Account, chain_has_account: bool) -> (r: Verdict)
    ensures
        r == account_verdict(author@, *account, chain_has_account),
{
    if !key_eq(&account.agent, author) {
        return Verdict::Invalid(Rule::AccountAgentNotAuthor);
    }
    let floor = default_credit_limit(GENESIS_CREDIT_SUPPLY);
    if account.credit_limit < floor {
        return Verdict::Invalid(Rule::AccountLimitBeyondFloor);
    }
    if chain_has_account {
        return Verdict::Invalid(Rule::AccountAlreadyExists);
    }
    Verdict::Valid
}

// ─────────────────────────────────────────────
// Transaction — author binding + chain-walk balance law
// ─────────────────────────────────────────────

/// What the checkpoint record of a transaction carries.
#[derive(Clone, Debug)]
pub enum CheckpointEntry {
    NoEntry,
    CreditLimit(CreditLimit),
    Account(Account),
    Other,
}

#[derive(Clone, Debug)]
pub struct CheckpointRecord {
    pub author: Vec<u8>,
    pub entry: CheckpointEntry,
}

/// One action of the author's chain between the transaction and its
/// checkpoint, newest first.
#[derive(Clone, Copy, Debug)]
pub enum ChainEntry {
    /// The checkpoint action itself (skipped).
    Checkpoint,
    /// An earlier outgoing transaction of this amount.
    Transaction(i64),
    /// A CreditLimit newer than the cited checkpoint.
    CreditLimit,
    Other,
}

/// The walk of the author's chain: the sum of earlier spends, unless a newer
/// CreditLimit appears (Err(true)) or the sum leaves the `i64` range
/// (Err(false)) first.
pub open spec fn chain_walk(chain: Seq<ChainEntry>, k: nat) -> Result<int, bool>
    decreases k,
{
    if k == 0 {
        Ok(0)
    } else {
        match chain_walk(chain, (k - 1) as nat) {
            Err(e) => Err(e),
            Ok(spent) => match chain[k - 1] {
                ChainEntry::Transaction(a) => if i64::MIN <= spent + a <= i64::MAX {
                    Ok(spent + a)
                } else {
                    Err(false)
                },
                ChainEntry::CreditLimit => Err(true),
                _ => Ok(spent),
            },
        }
    }
}

/// The balance basis a checkpoint provides: (limit, attested balance), or
/// the rule it breaks.
pub open spec fn checkpoint_basis(author: Seq<u8>, record: CheckpointRecord) -> Result<(int, int), Rule> {
    if record.author@ != author {
        Err(Rule::TxCheckpointNotOnAuthorChain)
    } else {
        match record.entry {
            CheckpointEntry::NoEntry => Err(Rule::TxCheckpointNoEntry),
            CheckpointEntry::CreditLimit(cl) => if cl.agent@ != author {
                Err(Rule::TxCheckpointForOtherAgent)
            } else {
                Ok((cl.limit as int, cl.attested_balance as int))
            },
            CheckpointEntry::Account(acct) => if acct.agent@ != author {
                Err(Rule::TxCheckpointForOtherAgent)
            } else {
                Ok((acct.credit_limit as int, 0))
            },
            CheckpointEntry::Other => Err(Rule::TxCheckpointWrongKind),
        }
    }
}

pub open spec fn transaction_verdict(
    author: Seq<u8>,
    tx: Transaction,
    record: CheckpointRecord,
    chain: Seq<ChainEntry>,
    endorsement_ok: bool,
) -> Verdict {
    if tx.amount <= 0 {
        Verdict::Invalid(Rule::TxNonPositiveAmount)
    } else if tx.from_agent@ != author {
        Verdict::Invalid(Rule::TxFromNotAuthor)
    } else if tx.to_agent@ == tx.from_agent@ {
        Verdict::Invalid(Rule::TxSelfPayment)
    } else if tx.checkpoint is None {
        Verdict::Invalid(Rule::TxMissingCheckpoint)
    } else {
        match checkpoint_basis(author, record) {
            Err(rule) => Verdict::Invalid(rule),
            Ok((limit, basis)) => match chain_walk(chain, chain.len()) {
                Err(true) => Verdict::Invalid(Rule::TxNewerCreditLimit),
                Err(false) => Verdict::Failed(Rule::TxSpendOverflow),
                Ok(spent) => {
                    let post = basis - spent - tx.amount;
                    if !(i64::MIN <= basis - spent <= i64::MAX) || !(i64::MIN <= post <= i64::MAX) {
                        Verdict::Failed(Rule::TxBalanceUnderflow)
                    } else if post < limit {
                        Verdict::Invalid(Rule::TxExceedsLimit)
                    } else if tx.recipient_sig is None {
                        Verdict::Invalid(Rule::TxMissingEndorsement)
                    } else if !endorsement_ok {
                        Verdict::Invalid(Rule::TxEndorsementFailed)
                    } else {
                        Verdict::Valid
                    }
                },
            },
        }
    }
}

/// Whether the transaction rule reads past the transaction itself: a
/// positive amount, spent by the author to someone else, citing a
/// checkpoint. When it does not, the verdict is already decided, whatever
/// the checkpoint's record, the chain or the endorsement would show.
pub fn transaction_reads_checkpoint(author: &Vec<u8>, tx: &Transaction) -> (r: bool)
    ensures
        r == (tx.amount > 0 && tx.from_agent@ == author@ && tx.to_agent@ != tx.from_agent@
            && tx.checkpoint is Some),
        !r ==> forall|rec: CheckpointRecord, rec2: CheckpointRecord, ch: Seq<ChainEntry>, ch2: Seq<ChainEntry>, ok: bool, ok2: bool|
            #[trigger] transaction_verdict(author@, *tx, rec, ch, ok) == #[trigger] transaction_verdict(author@, *tx, rec2, ch2, ok2),
{
    tx.amount > 0 && key_eq(&tx.from_agent, author) && !key_eq(&tx.to_agent, &tx.from_agent)
        && tx.checkpoint.is_some()
}

/// Once the chain walk fails, later actions do not change the failure.
pub proof fn lemma_chain_walk_stable(chain: Seq<ChainEntry>, j: nat, k: nat)
    requires
        j <= k,
        chain_walk(chain, j) is Err,
    ensures
        chain_walk(chain, k) == chain_walk(chain, j),
    decreases k - j,
{
    if j < k {
        lemma_chain_walk_stable(chain, j, (k - 1) as nat);
    }
}

/// The transaction law: a positive amount, spent by its author to someone
/// else, against the author's latest basis (`record` is the checkpoint's
/// record, `chain` the author's actions back to it), within the credit
/// limit, and endorsed by the recipient (`endorsement_ok` is the check of
/// the recipient's signature over the spend).
pub fn validate_create_transaction(
    author: &Vec<u8>,
    tx: &Transaction,
    record: &CheckpointRecord,
    chain: &[ChainEntry],
    endorsement_ok: bool,
) -> (r: Verdict)
    ensures
        r == transaction_verdict(author@, *tx, *record, chain@, endorsement_ok),
{
    if tx.amount <= 0 {
        return Verdict::Invalid(Rule::TxNonPositiveAmount);
    }
    if !key_eq(&tx.from_agent, author) {
        return Verdict::Invalid(Rule::TxFromNotAuthor);
    }
    if key_eq(&tx.to_agent, &tx.from_agent) {
        return Verdict::Invalid(Rule::TxSelfPayment);
    }
    if tx.checkpoint.is_none() {
        return Verdict::Invalid(Rule::TxMissingCheckpoint);
    }
    if !key_eq(&record.author, author) {
        return Verdict::Invalid(Rule::TxCheckpointNotOnAuthorChain);
    }
    let (limit, basis_balance): (i64, i64) = match &record.entry {
        CheckpointEntry::NoEntry => {
            return Verdict::Invalid(Rule::TxCheckpointNoEntry);
        },
        CheckpointEntry::CreditLimit(cl) => {
            if !key_eq(&cl.agent, author) {
                return Verdict::Invalid(Rule::TxCheckpointForOtherAgent);
            }
            (cl.limit, cl.attested_balance)
        },
        CheckpointEntry::Account(acct) => {
            if !key_eq(&acct.agent, author) {
                return Verdict::Invalid(Rule::TxCheckpointForOtherAgent);
            }
            (acct.credit_limit, 0)
        },
        CheckpointEntry::Other => {
            return Verdict::Invalid(Rule::TxCheckpointWrongKind);
        },
    };
    let mut spent_since: i64 = 0;
    let mut i: usize = 0;
    while i < chain.len()
        invariant
            i <= chain@.len(),
            chain_walk(chain@, i as nat) == Ok::<int, bool>(spent_since as int),
            tx.amount > 0,
            tx.from_agent@ == author@,
            tx.to_agent@ != tx.from_agent@,
            tx.checkpoint is Some,
            checkpoint_basis(author@, *record) == Ok::<(int, int), Rule>((limit as int, basis_balance as int)),
        decreases chain@.len() - i,
    {
        match chain[i] {
            ChainEntry::Transaction(amount) => {
                match spent_since.checked_add(amount) {
                    Some(v) => {
                        spent_since = v;
                    },
                    None => {
                        proof {
                            lemma_chain_walk_stable(chain@, i as nat + 1, chain@.len());
                        }
                        return Verdict::Failed(Rule::TxSpendOverflow);
                    },
                }
            },
            ChainEntry::CreditLimit => {
                proof {
                    lemma_chain_walk_stable(chain@, i as nat + 1, chain@.len());
                }
                return Verdict::Invalid(Rule::TxNewerCreditLimit);
            },
            _ => {},
        }
        i = i + 1;
    }
    let post = match basis_balance.checked_sub(spent_since) {
        Some(b) => match b.checked_sub(tx.amount) {
            Some(p) => p,
            None => {
                return Verdict::Failed(Rule::TxBalanceUnderflow);
            },
        },
        None => {
            return Verdict::Failed(Rule::TxBalanceUnderflow);
        },
    };
    if post < limit {
        return Verdict::Invalid(Rule::TxExceedsLimit);
    }
    if tx.recipient_sig.is_none() {
        return Verdict::Invalid(Rule::TxMissingEndorsement);
    }
    if !endorsement_ok {
        return Verdict::Invalid(Rule::TxEndorsementFailed);
    }
    Verdict::Valid
}


// ─────────────────────────────────────────────
// CreditLimit — reputation made portable
// ─────────────────────────────────────────────

/// The seal rule applied to a seal over a roster.
pub open spec fn seal_check(seal: QuorumSeal, roster: Seq<Vec<u8>>, signature_ok: Seq<bool>) -> Verdict {
    seal_verdict(keys_view(seal.signers@), seal.signatures@.len(), keys_view(roster), signature_ok)
}

pub open spec fn credit_limit_verdict(
    author: Seq<u8>,
    cl: CreditLimit,
    anchor: AnchorLookup,
    signature_ok: Seq<bool>,
) -> Verdict {
    if cl.agent@ != author {
        Verdict::Invalid(Rule::LimitAgentNotAuthor)
    } else {
        match cl.seal {
            None => if cl.limit < fresh_floor() || cl.attested_balance != 0 || cl.reputation_score != 0 {
                Verdict::Invalid(Rule::LimitUnsealedBeyondFreshTerms)
            } else {
                Verdict::Valid
            },
            Some(seal) => match anchor {
                AnchorLookup::NoEntry => Verdict::Invalid(Rule::AnchorNoEntry),
                AnchorLookup::NotNetworkState => Verdict::Invalid(Rule::AnchorNotNetworkState),
                AnchorLookup::State(a) => if cl.cycle != a.cycle {
                    Verdict::Invalid(Rule::LimitCycleMismatch)
                } else if cl.limit < limit_ceiling(a.credit_supply) {
                    Verdict::Invalid(Rule::LimitBeyondFibonacciCeiling)
                } else {
                    seal_check(seal, a.authorized_signers@, signature_ok)
                },
            },
        }
    }
}

/// A roster short enough that ⌈n · 610/987⌉ is computed without overflow.
pub open spec fn roster_fits(roster: Seq<Vec<u8>>) -> bool {
    roster.len() * 610 + 986 <= u64::MAX
}

pub open spec fn anchor_roster_fits(anchor: AnchorLookup) -> bool {
    match anchor {
        AnchorLookup::State(a) => roster_fits(a.authorized_signers@),
        _ => true,
    }
}

/// The seal's signers and the signature checks line up one to one.
pub open spec fn checks_match(seal: Option<QuorumSeal>, signature_ok: Seq<bool>) -> bool {
    match seal {
        Some(s) => signature_ok.len() == s.signers@.len(),
        None => true,
    }
}

/// Whether the CreditLimit rule reads the seal's anchor: a self-authored,
/// sealed limit. When it does not, the verdict is already decided,
/// whatever the anchor and the signature checks would show.
pub fn credit_limit_reads_anchor(author: &Vec<u8>, cl: &CreditLimit) -> (r: bool)
    ensures
        r == (cl.agent@ == author@ && cl.seal is Some),
        !r ==> forall|a: AnchorLookup, a2: AnchorLookup, ok: Seq<bool>, ok2: Seq<bool>|
            #[trigger] credit_limit_verdict(author@, *cl, a, ok) == #[trigger] credit_limit_verdict(author@, *cl, a2, ok2),
{
    key_eq(&cl.agent, author) && cl.seal.is_some()
}

/// The CreditLimit law: self-authored; unsealed limits at fresh-account
/// terms only; sealed limits bound to the anchor's cycle, within the
/// Fibonacci ceiling over the anchored supply, and sealed by the anchor's
/// roster (`signature_ok[i]` checks the i-th seal signature).
pub fn validate_create_credit_limit(
    author: &Vec<u8>,
    cl: &CreditLimit,
    anchor: &AnchorLookup,
    signature_ok: &[bool],
) -> (r: Verdict)
    requires
        checks_match(cl.seal, signature_ok@),
        anchor_roster_fits(*anchor),
    ensures
        r == credit_limit_verdict(author@, *cl, *anchor, signature_ok@),
{
    if !key_eq(&cl.agent, author) {
        return Verdict::Invalid(Rule::LimitAgentNotAuthor);
    }
    match &cl.seal {
        None => {
            let floor = default_credit_limit(GENESIS_CREDIT_SUPPLY);
            if cl.limit < floor || cl.attested_balance != 0 || cl.reputation_score != 0 {
                return Verdict::Invalid(Rule::LimitUnsealedBeyondFreshTerms);
            }
            Verdict::Valid
        },
        Some(seal) => match anchor {
            AnchorLookup::NoEntry => Verdict::Invalid(Rule::AnchorNoEntry),
            AnchorLookup::NotNetworkState => Verdict::Invalid(Rule::AnchorNotNetworkState),
            AnchorLookup::State(a) => {
                if cl.cycle != a.cycle {
                    return Verdict::Invalid(Rule::LimitCycleMismatch);
                }
                let ceiling = fibonacci_ceiling(a.credit_supply);
                if cl.limit < ceiling {
                    return Verdict::Invalid(Rule::LimitBeyondFibonacciCeiling);
                }
                verify_seal(seal, a.authorized_signers.as_slice(), signature_ok)
            },
        },
    }
}


// ─────────────────────────────────────────────
// NetworkState — succession as law
// ─────────────────────────────────────────────

/// Supply, threshold, cycle and phase carried over unchanged.
pub open spec fn same_economics(a: NetworkState, b: NetworkState) -> bool {
    &&& a.credit_supply == b.credit_supply
    &&& a.next_fibonacci_threshold == b.next_fibonacci_threshold
    &&& a.cycle == b.cycle
    &&& a.phase == b.phase
}

/// The sovereignty chain: an empty-roster predecessor admits bootstrap
/// succession or the first roster declaration (by the progenitor, when
/// one is configured); a rostered predecessor demands a seal by its own
/// roster, anchored to it.
pub open spec fn roster_succession_verdict(
    author: Seq<u8>,
    state: NetworkState,
    prev: NetworkState,
    prev_hash: Seq<u8>,
    progenitor: Option<Seq<u8>>,
    signature_ok: Seq<bool>,
) -> Verdict {
    if prev.authorized_signers@.len() == 0 {
        match state.seal {
            None => if state.authorized_signers@.len() == 0 {
                Verdict::Valid
            } else {
                match progenitor {
                    Some(p) => if author != p {
                        Verdict::Invalid(Rule::StateNotProgenitor)
                    } else {
                        Verdict::Valid
                    },
                    None => Verdict::Valid,
                }
            },
            Some(_) => Verdict::Invalid(Rule::StateSealOnEmptyRoster),
        }
    } else {
        match state.seal {
            None => Verdict::Invalid(Rule::StateGovernedUnsealed),
            Some(seal) => if seal.anchor_state_hash@ != prev_hash {
                Verdict::Invalid(Rule::StateSealWrongAnchor)
            } else {
                seal_check(seal, prev.authorized_signers@, signature_ok)
            },
        }
    }
}

/// The prescribed genesis: count ≤ 1, cycle 0, phase 0, genesis supply,
/// no roster, no seal.
pub open spec fn is_genesis_shape(state: NetworkState) -> bool {
    &&& state.attestation_count <= 1
    &&& state.cycle == 0
    &&& state.phase == 0
    &&& state.credit_supply == 987
    &&& state.authorized_signers@.len() == 0
    &&& state.seal is None
}

/// The successor of `prev` crosses a Fibonacci threshold.
pub open spec fn crosses(prev: NetworkState) -> bool {
    prev.attestation_count + 1 >= prev.next_fibonacci_threshold
}

pub open spec fn succession_verdict(
    author: Seq<u8>,
    state: NetworkState,
    prev: NetworkState,
    prev_hash: Seq<u8>,
    progenitor: Option<Seq<u8>>,
    signature_ok: Seq<bool>,
) -> Verdict {
    if state.attestation_count == prev.attestation_count {
        if !same_economics(state, prev) {
            Verdict::Invalid(Rule::StateRotationChangesEconomics)
        } else if keys_view(state.authorized_signers@) == keys_view(prev.authorized_signers@) {
            Verdict::Invalid(Rule::StateRotationNoop)
        } else {
            roster_succession_verdict(author, state, prev, prev_hash, progenitor, signature_ok)
        }
    } else if state.attestation_count != prev.attestation_count + 1 {
        Verdict::Invalid(Rule::StateBadCountStep)
    } else if crosses(prev) {
        if state.credit_supply != crate::curve::expand_spec(prev.credit_supply as int)
            || state.next_fibonacci_threshold != next_fib(state.attestation_count as nat)
            || state.cycle != prev.cycle + 1 {
            Verdict::Invalid(Rule::StateCrossingArithmetic)
        } else if state.phase < 1 || state.phase < prev.phase {
            Verdict::Invalid(Rule::StatePhaseRegression)
        } else {
            roster_succession_verdict(author, state, prev, prev_hash, progenitor, signature_ok)
        }
    } else if !same_economics(state, prev) {
        Verdict::Invalid(Rule::StateNonCrossingChanged)
    } else {
        roster_succession_verdict(author, state, prev, prev_hash, progenitor, signature_ok)
    }
}

pub open spec fn network_state_verdict(
    author: Seq<u8>,
    state: NetworkState,
    prev: AnchorLookup,
    progenitor: Option<Seq<u8>>,
    signature_ok: Seq<bool>,
) -> Verdict {
    if state.next_fibonacci_threshold == 0 {
        Verdict::Invalid(Rule::StateZeroThreshold)
    } else if !is_fib(state.next_fibonacci_threshold as nat) {
        Verdict::Invalid(Rule::StateThresholdNotFibonacci)
    } else if state.credit_supply < 987 {
        Verdict::Invalid(Rule::StateSupplyBelowGenesis)
    } else {
        match state.prev_state_hash {
            None => if !is_genesis_shape(state) {
                Verdict::Invalid(Rule::StateBadGenesis)
            } else {
                Verdict::Valid
            },
            Some(prev_hash) => match prev {
                AnchorLookup::NoEntry => Verdict::Invalid(Rule::AnchorNoEntry),
                AnchorLookup::NotNetworkState => Verdict::Invalid(Rule::AnchorNotNetworkState),
                AnchorLookup::State(p) => succession_verdict(
                    author,
                    state,
                    p,
                    prev_hash@,
                    progenitor,
                    signature_ok,
                ),
            },
        }
    }
}

/// The inputs on which the succession rule is defined: the crossing's
/// next threshold is a `u64` Fibonacci number.
pub open spec fn succession_in_range(state: NetworkState, prev: AnchorLookup) -> bool {
    match prev {
        AnchorLookup::State(p) => (state.attestation_count == p.attestation_count + 1 && crosses(p))
            ==> state.attestation_count < FIB_93,
        _ => true,
    }
}

fn roster_succession(
    author: &Vec<u8>,
    state: &NetworkState,
    prev: &NetworkState,
    prev_hash: &Vec<u8>,
    progenitor: &Option<Vec<u8>>,
    signature_ok: &[bool],
) -> (r: Verdict)
    requires
        checks_match(state.seal, signature_ok@),
        roster_fits(prev.authorized_signers@),
    ensures
        r == roster_succession_verdict(
            author@,
            *state,
            *prev,
            prev_hash@,
            match progenitor { Some(p) => Some(p@), None => None },
            signature_ok@,
        ),
{
    if prev.authorized_signers.len() == 0 {
        match &state.seal {
            None => {
                if state.authorized_signers.len() == 0 {
                    return Verdict::Valid;
                }
                match progenitor {
                    Some(p) => {
                        if !key_eq(author, p) {
                            return Verdict::Invalid(Rule::StateNotProgenitor);
                        }
                        Verdict::Valid
                    },
                    None => Verdict::Valid,
                }
            },
            Some(_) => Verdict::Invalid(Rule::StateSealOnEmptyRoster),
        }
    } else {
        match &state.seal {
            None => Verdict::Invalid(Rule::StateGovernedUnsealed),
            Some(seal) => {
                if !key_eq(&seal.anchor_state_hash, prev_hash) {
                    return Verdict::Invalid(Rule::StateSealWrongAnchor);
                }
                verify_seal(seal, prev.authorized_signers.as_slice(), signature_ok)
            },
        }
    }
}

pub open spec fn opt_view(o: Option<Vec<u8>>) -> Option<Seq<u8>> {
    match o {
        Some(p) => Some(p@),
        None => None,
    }
}

/// Whether the NetworkState rule reads the predecessor: a Fibonacci
/// threshold, a supply not below genesis, and a succession pointer. When
/// it does not, the verdict is already decided, whatever the predecessor
/// and the signature checks would show.
pub fn network_state_reads_predecessor(state: &NetworkState) -> (r: bool)
    ensures
        r == (state.next_fibonacci_threshold != 0 && is_fib(state.next_fibonacci_threshold as nat)
            && state.credit_supply >= 987 && state.prev_state_hash is Some),
        !r ==> forall|author: Seq<u8>, p: AnchorLookup, p2: AnchorLookup, g: Option<Seq<u8>>, g2: Option<Seq<u8>>, ok: Seq<bool>, ok2: Seq<bool>|
            #[trigger] network_state_verdict(author, *state, p, g, ok) == #[trigger] network_state_verdict(author, *state, p2, g2, ok2),
{
    state.next_fibonacci_threshold != 0 && is_fibonacci(state.next_fibonacci_threshold)
        && state.credit_supply >= GENESIS_CREDIT_SUPPLY && state.prev_state_hash.is_some()
}

/// The NetworkState law: a Fibonacci threshold, supply never below
/// genesis, a genesis of the prescribed shape, and every successor either
/// a rotation (economics frozen, roster changed) or one attestation on
/// (crossing: supply ⌊·φ⌋, threshold the next Fibonacci number, cycle + 1,
/// phase ≥ 1 and never regressing; otherwise economics unchanged), then
/// the sovereignty chain. `prev` is what `prev_state_hash` resolved to;
/// `progenitor` the configured progenitor; `signature_ok` checks the seal.
pub fn validate_create_network_state(
    author: &Vec<u8>,
    state: &NetworkState,
    prev: &AnchorLookup,
    progenitor: &Option<Vec<u8>>,
    signature_ok: &[bool],
) -> (r: Verdict)
    requires
        checks_match(state.seal, signature_ok@),
        anchor_roster_fits(*prev),
        succession_in_range(*state, *prev),
    ensures
        r == network_state_verdict(author@, *state, *prev, opt_view(*progenitor), signature_ok@),
{
    if state.next_fibonacci_threshold == 0 {
        return Verdict::Invalid(Rule::StateZeroThreshold);
    }
    if !is_fibonacci(state.next_fibonacci_threshold) {
        return Verdict::Invalid(Rule::StateThresholdNotFibonacci);
    }
    if state.credit_supply < GENESIS_CREDIT_SUPPLY {
        return Verdict::Invalid(Rule::StateSupplyBelowGenesis);
    }
    let prev_hash = match &state.prev_state_hash {
        None => {
            if state.attestation_count > 1 || state.cycle != 0 || state.phase != 0
                || state.credit_supply != GENESIS_CREDIT_SUPPLY
                || state.authorized_signers.len() != 0 || state.seal.is_some() {
                return Verdict::Invalid(Rule::StateBadGenesis);
            }
            return Verdict::Valid;
        },
        Some(h) => h,
    };
    let p = match prev {
        AnchorLookup::NoEntry => {
            return Verdict::Invalid(Rule::AnchorNoEntry);
        },
        AnchorLookup::NotNetworkState => {
            return Verdict::Invalid(Rule::AnchorNotNetworkState);
        },
        AnchorLookup::State(p) => p,
    };
    if state.attestation_count == p.attestation_count {
        if state.credit_supply != p.credit_supply
            || state.next_fibonacci_threshold != p.next_fibonacci_threshold
            || state.cycle != p.cycle || state.phase != p.phase {
            return Verdict::Invalid(Rule::StateRotationChangesEconomics);
        }
        if keys_equal(state.authorized_signers.as_slice(), p.authorized_signers.as_slice()) {
            return Verdict::Invalid(Rule::StateRotationNoop);
        }
        return roster_succession(author, state, p, prev_hash, progenitor, signature_ok);
    }
    if p.attestation_count == u64::MAX || state.attestation_count != p.attestation_count + 1 {
        return Verdict::Invalid(Rule::StateBadCountStep);
    }
    let crossed = p.attestation_count + 1 >= p.next_fibonacci_threshold;
    if crossed {
        let expected_supply = expand_credit_supply(p.credit_supply);
        let expected_threshold = next_fibonacci(state.attestation_count);
        if state.credit_supply != expected_supply || state.next_fibonacci_threshold != expected_threshold
            || p.cycle == u64::MAX || state.cycle != p.cycle + 1 {
            return Verdict::Invalid(Rule::StateCrossingArithmetic);
        }
        if state.phase < 1 || state.phase < p.phase {
            return Verdict::Invalid(Rule::StatePhaseRegression);
        }
    } else {
        if state.credit_supply != p.credit_supply
            || state.next_fibonacci_threshold != p.next_fibonacci_threshold
            || state.cycle != p.cycle || state.phase != p.phase {
            return Verdict::Invalid(Rule::StateNonCrossingChanged);
        }
    }
    roster_succession(author, state, p, prev_hash, progenitor, signature_ok)
}


// ─────────────────────────────────────────────
// PaymentReceipt — the membrane oracle
// ─────────────────────────────────────────────

pub open spec fn share_agents(d: Seq<DistributionShare>) -> Seq<Seq<u8>> {
    d.map_values(|s: DistributionShare| s.agent@)
}

/// The share at `i` breaks a rule: zero weight, or an agent already listed.
pub open spec fn share_issue(d: Seq<DistributionShare>, i: int) -> Option<Rule> {
    if d[i].weight == 0 {
        Some(Rule::ReceiptZeroWeight)
    } else if share_agents(d).subrange(0, i).contains(d[i].agent@) {
        Some(Rule::ReceiptDuplicateAgent)
    } else {
        None
    }
}

/// The first issue among the first `k` shares, in order.
pub open spec fn scan_shares(d: Seq<DistributionShare>, k: nat) -> Option<Rule>
    decreases k,
{
    if k == 0 {
        None
    } else {
        match scan_shares(d, (k - 1) as nat) {
            Some(r) => Some(r),
            None => share_issue(d, k - 1),
        }
    }
}

/// Σ weight over the first `k` shares.
pub open spec fn weight_sum(d: Seq<DistributionShare>, k: nat) -> nat
    decreases k,
{
    if k == 0 {
        0
    } else {
        weight_sum(d, (k - 1) as nat) + d[k - 1].weight as nat
    }
}

/// Once a distribution fault is found, later shares do not change it.
pub proof fn lemma_scan_shares_stable(d: Seq<DistributionShare>, j: nat, k: nat)
    requires
        j <= k,
        scan_shares(d, j) is Some,
    ensures
        scan_shares(d, k) == scan_shares(d, j),
    decreases k - j,
{
    if j < k {
        lemma_scan_shares_stable(d, j, (k - 1) as nat);
    }
}

pub open spec fn receipt_verdict(
    receipt: PaymentReceipt,
    anchor: AnchorLookup,
    signature_ok: Seq<bool>,
) -> Verdict {
    let d = receipt.distribution@;
    if receipt.amount_external <= 0 {
        Verdict::Invalid(Rule::ReceiptNonPositiveAmount)
    } else if receipt.rail@.len() == 0 {
        Verdict::Invalid(Rule::ReceiptNoRail)
    } else if d.len() == 0 {
        Verdict::Invalid(Rule::ReceiptEmptyDistribution)
    } else {
        match scan_shares(d, d.len()) {
            Some(r) => Verdict::Invalid(r),
            None => if weight_sum(d, d.len()) > u64::MAX {
                Verdict::Invalid(Rule::ReceiptWeightOverflow)
            } else {
                match anchor {
                    AnchorLookup::NoEntry => Verdict::Invalid(Rule::AnchorNoEntry),
                    AnchorLookup::NotNetworkState => Verdict::Invalid(Rule::AnchorNotNetworkState),
                    AnchorLookup::State(a) => seal_check(receipt.seal, a.authorized_signers@, signature_ok),
                }
            },
        }
    }
}

/// The PaymentReceipt law: a positive amount on a named rail, a non-empty
/// distribution of distinct agents with positive weights summing within
/// `u64`, sealed by the anchor's roster — no money before sovereignty.
pub fn validate_create_payment_receipt(
    receipt: &PaymentReceipt,
    anchor: &AnchorLookup,
    signature_ok: &[bool],
) -> (r: Verdict)
    requires
        signature_ok@.len() == receipt.seal.signers@.len(),
        anchor_roster_fits(*anchor),
    ensures
        r == receipt_verdict(*receipt, *anchor, signature_ok@),
{
    let ghost d = receipt.distribution@;
    if receipt.amount_external <= 0 {
        return Verdict::Invalid(Rule::ReceiptNonPositiveAmount);
    }
    if receipt.rail.as_str().is_empty() {
        return Verdict::Invalid(Rule::ReceiptNoRail);
    }
    if receipt.distribution.len() == 0 {
        return Verdict::Invalid(Rule::ReceiptEmptyDistribution);
    }
    let mut sum: u128 = 0;
    let mut i: usize = 0;
    while i < receipt.distribution.len()
        invariant
            d == receipt.distribution@,
            i <= d.len(),
            scan_shares(d, i as nat) == None::<Rule>,
            sum == weight_sum(d, i as nat),
            sum <= i * 0xffff_ffff_ffff_ffff,
            d.len() <= usize::MAX,
            receipt.amount_external > 0,
            receipt.rail@.len() > 0,
            d.len() > 0,
        decreases d.len() - i,
    {
        let share = &receipt.distribution[i];
        if share.weight == 0 {
            proof {
                lemma_scan_shares_stable(d, i as nat + 1, d.len());
            }
            return Verdict::Invalid(Rule::ReceiptZeroWeight);
        }
        let mut j: usize = 0;
        let mut dup = false;
        while j < i
            invariant
                d == receipt.distribution@,
                j <= i < d.len(),
                dup == share_agents(d).subrange(0, j as int).contains(d[i as int].agent@),
            decreases i - j,
        {
            let same = key_eq(&receipt.distribution[j].agent, &receipt.distribution[i].agent);
            proof {
                let sa = share_agents(d);
                let pre = sa.subrange(0, j as int);
                assert(sa.subrange(0, j + 1) =~= pre.push(sa[j as int]));
                if pre.contains(d[i as int].agent@) {
                    let w = choose|w: int| 0 <= w < pre.len() && pre[w] == d[i as int].agent@;
                    assert(pre.push(sa[j as int])[w] == d[i as int].agent@);
                }
                if same {
                    assert(pre.push(sa[j as int])[j as int] == d[i as int].agent@);
                }
                if pre.push(sa[j as int]).contains(d[i as int].agent@) {
                    let w = choose|w: int| 0 <= w < pre.len() + 1 && pre.push(sa[j as int])[w] == d[i as int].agent@;
                    if w < pre.len() {
                        assert(pre[w] == d[i as int].agent@);
                    }
                }
            }
            if same {
                dup = true;
            }
            j = j + 1;
        }
        if dup {
            proof {
                lemma_scan_shares_stable(d, i as nat + 1, d.len());
            }
            return Verdict::Invalid(Rule::ReceiptDuplicateAgent);
        }
        proof {
            assert(i * 0xffff_ffff_ffff_ffff + 0xffff_ffff_ffff_ffff == (i + 1) * 0xffff_ffff_ffff_ffff) by (nonlinear_arith);
            assert((i + 1) * 0xffff_ffff_ffff_ffff <= 0xffff_ffff_ffff_ffff * 0xffff_ffff_ffff_ffff) by (nonlinear_arith)
                requires i + 1 <= 0xffff_ffff_ffff_ffff;
        }
        sum = sum + share.weight as u128;
        i = i + 1;
    }
    if sum > u64::MAX as u128 {
        return Verdict::Invalid(Rule::ReceiptWeightOverflow);
    }
    match anchor {
        AnchorLookup::NoEntry => Verdict::Invalid(Rule::AnchorNoEntry),
        AnchorLookup::NotNetworkState => Verdict::Invalid(Rule::AnchorNotNetworkState),
        AnchorLookup::State(a) => verify_seal(&receipt.seal, a.authorized_signers.as_slice(), signature_ok),
    }
}


// ─────────────────────────────────────────────
// Links — bound to entry authorship
// ─────────────────────────────────────────────

/// What a link target's record carries.
#[derive(Clone, Debug)]
pub enum TargetEntry {
    NoEntry,
    Transaction(Transaction),
    Other,
}

/// The record a link points at (the target was an action hash).
#[derive(Clone, Debug)]
pub struct LinkTargetRecord {
    pub author: Vec<u8>,
    pub entry: TargetEntry,
}

#[derive(Clone, Copy, Debug, PartialEq, Eq, Structural)]
pub enum LinkTypes {
    AgentToAccount,
    AgentToTransactions,
    AgentToCreditLimit,
    NetworkStateAnchor,
    PaymentReceiptAnchor,
    AccountsAnchor,
}

pub open spec fn tx_link_verdict(
    link_author: Seq<u8>,
    base_agent: Option<Seq<u8>>,
    target: Option<LinkTargetRecord>,
) -> Verdict {
    match target {
        None => Verdict::Invalid(Rule::LinkTargetNotAction),
        Some(rec) => if rec.author@ != link_author {
            Verdict::Invalid(Rule::LinkNotTargetAuthor)
        } else {
            match rec.entry {
                TargetEntry::NoEntry => Verdict::Invalid(Rule::LinkTargetNoEntry),
                TargetEntry::Other => Verdict::Invalid(Rule::LinkTargetNotTransaction),
                TargetEntry::Transaction(tx) => match base_agent {
                    Some(a) => if a == tx.from_agent@ || a == tx.to_agent@ {
                        Verdict::Valid
                    } else {
                        Verdict::Invalid(Rule::LinkBaseNotParty)
                    },
                    None => Verdict::Invalid(Rule::LinkBaseNotParty),
                },
            }
        },
    }
}

pub open spec fn self_index_link_verdict(
    link_author: Seq<u8>,
    base_agent: Option<Seq<u8>>,
    target: Option<LinkTargetRecord>,
) -> Verdict {
    match target {
        None => Verdict::Invalid(Rule::LinkTargetNotAction),
        Some(rec) => if rec.author@ != link_author {
            Verdict::Invalid(Rule::LinkNotTargetAuthor)
        } else if base_agent == Some(link_author) {
            Verdict::Valid
        } else {
            Verdict::Invalid(Rule::LinkBaseNotAuthor)
        },
    }
}

pub open spec fn anchor_link_verdict(link_author: Seq<u8>, target: Option<LinkTargetRecord>) -> Verdict {
    match target {
        None => Verdict::Invalid(Rule::LinkTargetNotAction),
        Some(rec) => if rec.author@ != link_author {
            Verdict::Invalid(Rule::LinkNotTargetAuthor)
        } else {
            Verdict::Valid
        },
    }
}

/// A transaction index link: made by the transaction's author, from the
/// sender's or the recipient's agent key (`base_agent`, when the base is
/// an agent key) to the transaction (`target`, when it is an action).
pub fn validate_tx_link(
    link_author: &Vec<u8>,
    base_agent: &Option<Vec<u8>>,
    target: &Option<LinkTargetRecord>,
) -> (r: Verdict)
    ensures
        r == tx_link_verdict(link_author@, opt_view(*base_agent), *target),
{
    let rec = match target {
        None => {
            return Verdict::Invalid(Rule::LinkTargetNotAction);
        },
        Some(rec) => rec,
    };
    if !key_eq(&rec.author, link_author) {
        return Verdict::Invalid(Rule::LinkNotTargetAuthor);
    }
    match &rec.entry {
        TargetEntry::NoEntry => Verdict::Invalid(Rule::LinkTargetNoEntry),
        TargetEntry::Other => Verdict::Invalid(Rule::LinkTargetNotTransaction),
        TargetEntry::Transaction(tx) => match base_agent {
            Some(a) => {
                if key_eq(a, &tx.from_agent) || key_eq(a, &tx.to_agent) {
                    Verdict::Valid
                } else {
                    Verdict::Invalid(Rule::LinkBaseNotParty)
                }
            },
            None => Verdict::Invalid(Rule::LinkBaseNotParty),
        },
    }
}

/// AgentToAccount / AgentToCreditLimit: the link's author authored the
/// target and the base is that same agent.
pub fn validate_self_index_link(
    link_author: &Vec<u8>,
    base_agent: &Option<Vec<u8>>,
    target: &Option<LinkTargetRecord>,
) -> (r: Verdict)
    ensures
        r == self_index_link_verdict(link_author@, opt_view(*base_agent), *target),
{
    let rec = match target {
        None => {
            return Verdict::Invalid(Rule::LinkTargetNotAction);
        },
        Some(rec) => rec,
    };
    if !key_eq(&rec.author, link_author) {
        return Verdict::Invalid(Rule::LinkNotTargetAuthor);
    }
    match base_agent {
        Some(a) => {
            if key_eq(a, link_author) {
                Verdict::Valid
            } else {
                Verdict::Invalid(Rule::LinkBaseNotAuthor)
            }
        },
        None => Verdict::Invalid(Rule::LinkBaseNotAuthor),
    }
}

/// Anchor links: only the target's author may anchor it.
pub fn validate_state_anchor_link(link_author: &Vec<u8>, target: &Option<LinkTargetRecord>) -> (r: Verdict)
    ensures
        r == anchor_link_verdict(link_author@, *target),
{
    match target {
        None => Verdict::Invalid(Rule::LinkTargetNotAction),
        Some(rec) => {
            if !key_eq(&rec.author, link_author) {
                Verdict::Invalid(Rule::LinkNotTargetAuthor)
            } else {
                Verdict::Valid
            }
        },
    }
}

pub open spec fn link_verdict(
    link_type: LinkTypes,
    link_author: Seq<u8>,
    base_agent: Option<Seq<u8>>,
    target: Option<LinkTargetRecord>,
) -> Verdict {
    match link_type {
        LinkTypes::AgentToAccount => self_index_link_verdict(link_author, base_agent, target),
        LinkTypes::AgentToTransactions => tx_link_verdict(link_author, base_agent, target),
        LinkTypes::AgentToCreditLimit => self_index_link_verdict(link_author, base_agent, target),
        _ => anchor_link_verdict(link_author, target),
    }
}

/// A ledger link's rule, by its type.
pub fn validate_link_create(
    link_type: LinkTypes,
    link_author: &Vec<u8>,
    base_agent: &Option<Vec<u8>>,
    target: &Option<LinkTargetRecord>,
) -> (r: Verdict)
    ensures
        r == link_verdict(link_type, link_author@, opt_view(*base_agent), *target),
{
    match link_type {
        LinkTypes::AgentToAccount => validate_self_index_link(link_author, base_agent, target),
        LinkTypes::AgentToTransactions => validate_tx_link(link_author, base_agent, target),
        LinkTypes::AgentToCreditLimit => validate_self_index_link(link_author, base_agent, target),
        _ => validate_state_anchor_link(link_author, target),
    }
}

// ─────────────────────────────────────────────
// validate() — dispatch
// ─────────────────────────────────────────────

/// A created entry together with what its rule reads from the store.
#[derive(Clone, Debug)]
pub enum EntryCheck {
    Account { author: Vec<u8>, account: Account, chain_has_account: bool },
    Transaction {
        author: Vec<u8>,
        tx: Transaction,
        record: CheckpointRecord,
        chain: Vec<ChainEntry>,
        endorsement_ok: bool,
    },
    CreditLimit { author: Vec<u8>, cl: CreditLimit, anchor: AnchorLookup, signature_ok: Vec<bool> },
    NetworkState {
        author: Vec<u8>,
        state: NetworkState,
        prev: AnchorLookup,
        progenitor: Option<Vec<u8>>,
        signature_ok: Vec<bool>,
    },
    PaymentReceipt { receipt: PaymentReceipt, anchor: AnchorLookup, signature_ok: Vec<bool> },
}

/// A DHT operation on the mutual-credit zome, flattened.
#[derive(Clone, Debug)]
pub enum LedgerOp {
    CreateEntry(EntryCheck),
    UpdateEntry,
    DeleteEntry,
    CreateLink { link_type: LinkTypes, author: Vec<u8>, base_agent: Option<Vec<u8>>, target: Option<LinkTargetRecord> },
    DeleteLink,
    /// An agent joins; `follows_validation_package` says whether the
    /// previous action is its validation package.
    CreateAgent { follows_validation_package: bool },
    Other,
}

pub open spec fn entry_verdict(c: EntryCheck) -> Verdict {
    match c {
        EntryCheck::Account { author, account, chain_has_account } =>
            account_verdict(author@, account, chain_has_account),
        EntryCheck::Transaction { author, tx, record, chain, endorsement_ok } =>
            transaction_verdict(author@, tx, record, chain@, endorsement_ok),
        EntryCheck::CreditLimit { author, cl, anchor, signature_ok } =>
            credit_limit_verdict(author@, cl, anchor, signature_ok@),
        EntryCheck::NetworkState { author, state, prev, progenitor, signature_ok } =>
            network_state_verdict(author@, state, prev, opt_view(progenitor), signature_ok@),
        EntryCheck::PaymentReceipt { receipt, anchor, signature_ok } =>
            receipt_verdict(receipt, anchor, signature_ok@),
    }
}

/// The inputs each entry rule is defined on.
pub open spec fn entry_check_in_domain(c: EntryCheck) -> bool {
    match c {
        EntryCheck::CreditLimit { cl, anchor, signature_ok, .. } =>
            checks_match(cl.seal, signature_ok@) && anchor_roster_fits(anchor),
        EntryCheck::NetworkState { state, prev, signature_ok, .. } =>
            checks_match(state.seal, signature_ok@) && anchor_roster_fits(prev)
                && succession_in_range(state, prev),
        EntryCheck::PaymentReceipt { receipt, anchor, signature_ok } =>
            signature_ok@.len() == receipt.seal.signers@.len() && anchor_roster_fits(anchor),
        _ => true,
    }
}

pub open spec fn op_in_domain(op: LedgerOp) -> bool {
    match op {
        LedgerOp::CreateEntry(c) => entry_check_in_domain(c),
        _ => true,
    }
}

pub open spec fn op_verdict(op: LedgerOp) -> Verdict {
    match op {
        LedgerOp::CreateEntry(c) => entry_verdict(c),
        LedgerOp::UpdateEntry => Verdict::Invalid(Rule::EntryImmutable),
        LedgerOp::DeleteEntry => Verdict::Invalid(Rule::EntryImmutable),
        LedgerOp::CreateLink { link_type, author, base_agent, target } =>
            link_verdict(link_type, author@, opt_view(base_agent), target),
        LedgerOp::DeleteLink => Verdict::Invalid(Rule::LinkPermanent),
        LedgerOp::CreateAgent { follows_validation_package } => if follows_validation_package {
            Verdict::Valid
        } else {
            Verdict::Invalid(Rule::AgentPackageMissing)
        },
        LedgerOp::Other => Verdict::Valid,
    }
}

/// A created entry's rule, by its kind.
pub fn validate_entry_create(c: &EntryCheck) -> (r: Verdict)
    requires
        entry_check_in_domain(*c),
    ensures
        r == entry_verdict(*c),
{
    match c {
        EntryCheck::Account { author, account, chain_has_account } =>
            validate_create_account(author, account, *chain_has_account),
        EntryCheck::Transaction { author, tx, record, chain, endorsement_ok } =>
            validate_create_transaction(author, tx, record, chain.as_slice(), *endorsement_ok),
        EntryCheck::CreditLimit { author, cl, anchor, signature_ok } =>
            validate_create_credit_limit(author, cl, anchor, signature_ok.as_slice()),
        EntryCheck::NetworkState { author, state, prev, progenitor, signature_ok } =>
            validate_create_network_state(author, state, prev, progenitor, signature_ok.as_slice()),
        EntryCheck::PaymentReceipt { receipt, anchor, signature_ok } =>
            validate_create_payment_receipt(receipt, anchor, signature_ok.as_slice()),
    }
}

/// The validation callback: creates go to their entry's or link's rule;
/// entries are immutable and links permanent, so every update or delete
/// is refused; a joining agent must follow its validation package.
pub fn validate(op: &LedgerOp) -> (r: Verdict)
    requires
        op_in_domain(*op),
    ensures
        r == op_verdict(*op),
        (op is UpdateEntry || op is DeleteEntry) ==> r == Verdict::Invalid(Rule::EntryImmutable),
        op is DeleteLink ==> r == Verdict::Invalid(Rule::LinkPermanent),
{
    match op {
        LedgerOp::CreateEntry(c) => validate_entry_create(c),
        LedgerOp::UpdateEntry => Verdict::Invalid(Rule::EntryImmutable),
        LedgerOp::DeleteEntry => Verdict::Invalid(Rule::EntryImmutable),
        LedgerOp::CreateLink { link_type, author, base_agent, target } =>
            validate_link_create(*link_type, author, base_agent, target),
        LedgerOp::DeleteLink => Verdict::Invalid(Rule::LinkPermanent),
        LedgerOp::CreateAgent { follows_validation_package } => {
            if *follows_validation_package {
                Verdict::Valid
            } else {
                Verdict::Invalid(Rule::AgentPackageMissing)
            }
        },
        LedgerOp::Other => Verdict::Valid,
    }
}


// ─────────────────────────────────────────────
// Laws
// ─────────────────────────────────────────────

/// A seal the rule accepts carries a quorum: at least ⌈n·610/987⌉
/// signers of a non-empty roster of n, each on the roster, none twice,
/// each with a verified signature, one per signer.
pub proof fn lemma_accepted_seal_is_quorum(
    signers: Seq<Seq<u8>>,
    n_signatures: nat,
    roster: Seq<Seq<u8>>,
    signature_ok: Seq<bool>,
)
    requires
        seal_verdict(signers, n_signatures, roster, signature_ok) == Verdict::Valid,
        signature_ok.len() == signers.len(),
    ensures
        roster.len() > 0,
        signers.len() == n_signatures,
        signers.len() >= (roster.len() * 610 + 986) / 987,
        forall|i: int| 0 <= i < signers.len() ==> roster.contains(#[trigger] signers[i]),
        forall|i: int, j: int| 0 <= i < j < signers.len() ==> signers[i] != signers[j],
        forall|i: int| 0 <= i < signers.len() ==> #[trigger] signature_ok[i],
{
    lemma_scan_clean(signers, roster, signers.len());
}

proof fn lemma_scan_clean(signers: Seq<Seq<u8>>, roster: Seq<Seq<u8>>, k: nat)
    requires
        k <= signers.len(),
        scan_signers(signers, roster, k) is None,
    ensures
        forall|i: int| 0 <= i < k ==> roster.contains(#[trigger] signers[i]),
        forall|i: int, j: int| 0 <= i < j < k ==> signers[i] != signers[j],
    decreases k,
{
    if k > 0 {
        lemma_scan_clean(signers, roster, (k - 1) as nat);
        let i = k - 1;
        assert(signer_issue(signers, roster, i) is None);
        assert forall|a: int, b: int| 0 <= a < b < k implies signers[a] != signers[b] by {
            if b == i {
                assert(signers.subrange(0, i)[a] == signers[a]);
            }
        }
    }
}

/// The balance law: a transaction the rule accepts leaves its author at
/// or above the credit limit of its basis — basis balance, less what was
/// spent since, less this amount.
pub proof fn lemma_accepted_spend_within_limit(
    author: Seq<u8>,
    tx: Transaction,
    record: CheckpointRecord,
    chain: Seq<ChainEntry>,
    endorsement_ok: bool,
)
    requires
        transaction_verdict(author, tx, record, chain, endorsement_ok) == Verdict::Valid,
    ensures
        tx.amount > 0,
        tx.from_agent@ == author,
        tx.to_agent@ != author,
        checkpoint_basis(author, record) matches Ok((limit, basis)) && chain_walk(chain, chain.len())
            matches Ok(spent) && basis - spent - tx.amount >= limit,
{
}


/// The unsealed path is damage-capped: an accepted CreditLimit without a
/// seal grants nothing beyond fresh-account terms.
pub proof fn lemma_unsealed_limit_is_capped(author: Seq<u8>, cl: CreditLimit, anchor: AnchorLookup, signature_ok: Seq<bool>)
    requires
        cl.seal is None,
        credit_limit_verdict(author, cl, anchor, signature_ok) == Verdict::Valid,
    ensures
        cl.agent@ == author,
        cl.limit >= -377,
        cl.attested_balance == 0,
        cl.reputation_score == 0,
{
}

/// Sovereignty is a chain: once a state carries a roster, every accepted
/// successor is sealed by that roster, anchored to that state.
pub proof fn lemma_governed_successor_is_sealed(
    author: Seq<u8>,
    state: NetworkState,
    prev: NetworkState,
    progenitor: Option<Seq<u8>>,
    signature_ok: Seq<bool>,
)
    requires
        prev.authorized_signers@.len() > 0,
        network_state_verdict(author, state, AnchorLookup::State(prev), progenitor, signature_ok) == Verdict::Valid,
        state.prev_state_hash is Some,
    ensures
        state.seal matches Some(seal) && seal.anchor_state_hash@ == state.prev_state_hash.unwrap()@
            && seal_check(seal, prev.authorized_signers@, signature_ok) == Verdict::Valid,
{
}

/// Supply only expands, the phase never regresses and the cycle only
/// steps: across every accepted succession from a state with a
/// non-negative supply.
pub proof fn lemma_succession_is_monotone(
    author: Seq<u8>,
    state: NetworkState,
    prev: NetworkState,
    progenitor: Option<Seq<u8>>,
    signature_ok: Seq<bool>,
)
    requires
        prev.credit_supply >= 0,
        state.prev_state_hash is Some,
        network_state_verdict(author, state, AnchorLookup::State(prev), progenitor, signature_ok) == Verdict::Valid,
    ensures
        state.credit_supply >= prev.credit_supply,
        state.phase >= prev.phase,
        state.cycle == prev.cycle || state.cycle == prev.cycle + 1,
        state.attestation_count == prev.attestation_count || state.attestation_count == prev.attestation_count + 1,
{
    if state.attestation_count == prev.attestation_count + 1 && crosses(prev) {
        crate::curve::lemma_expand_grows(prev.credit_supply as int);
    }
}

/// The supply of every state on an accepted chain from genesis is genesis
/// folded through ⌊supply·φ⌋ (in binary64) once per crossing: an accepted genesis
/// starts on it, and an accepted succession keeps a state on it.
pub proof fn lemma_supply_follows_the_crossings(
    author: Seq<u8>,
    state: NetworkState,
    prev: AnchorLookup,
    progenitor: Option<Seq<u8>>,
    signature_ok: Seq<bool>,
)
    requires
        network_state_verdict(author, state, prev, progenitor, signature_ok) == Verdict::Valid,
        state.prev_state_hash is Some ==> (prev matches AnchorLookup::State(p)
            && p.credit_supply == crate::curve::expected_supply_spec(p.cycle as nat)),
    ensures
        state.credit_supply == crate::curve::expected_supply_spec(state.cycle as nat),
{
    if state.prev_state_hash is Some {
        let p = prev->State_0;
        if state.attestation_count == p.attestation_count + 1 && crosses(p) {
            assert(crate::curve::expected_supply_spec((p.cycle + 1) as nat)
                == crate::curve::expand_spec(crate::curve::expected_supply_spec(p.cycle as nat)));
        }
    }
}

/// A well-formed, endorsed spend is measured against the limit of its
/// checkpoint: against a CreditLimit of the author, it is accepted exactly
/// when the attested balance, less what the author spent since and the
/// amount, stays at or above that CreditLimit's limit; against the
/// author's Account, exactly when −(spent + amount) stays at or above the
/// Account's limit.
pub proof fn lemma_transaction_measured_against_checkpoint(
    author: Seq<u8>,
    tx: Transaction,
    record: CheckpointRecord,
    chain: Seq<ChainEntry>,
    spent: int,
)
    requires
        tx.amount > 0,
        tx.from_agent@ == author,
        tx.to_agent@ != author,
        tx.checkpoint is Some,
        tx.recipient_sig is Some,
        record.author@ == author,
        chain_walk(chain, chain.len()) == Ok::<int, bool>(spent),
    ensures
        record.entry matches CheckpointEntry::CreditLimit(cl) ==> (cl.agent@ == author
            && i64::MIN <= cl.attested_balance - spent <= i64::MAX
            && i64::MIN <= cl.attested_balance - spent - tx.amount <= i64::MAX ==> (
            (transaction_verdict(author, tx, record, chain, true) is Valid)
                <==> cl.attested_balance - spent - tx.amount >= cl.limit)),
        record.entry matches CheckpointEntry::Account(acct) ==> (acct.agent@ == author
            && i64::MIN <= -spent <= i64::MAX && i64::MIN <= -spent - tx.amount <= i64::MAX ==> (
            (transaction_verdict(author, tx, record, chain, true) is Valid)
                <==> -spent - tx.amount >= acct.credit_limit)),
{
}

/// What every accepted spend satisfies: a positive amount, sent by its
/// author to someone else, citing a checkpoint, carrying the recipient's
/// endorsement, which checked out, and leaving the author at or above the
/// limit of that checkpoint.
pub proof fn lemma_valid_transaction_is_well_formed(
    author: Seq<u8>,
    tx: Transaction,
    record: CheckpointRecord,
    chain: Seq<ChainEntry>,
    endorsement_ok: bool,
)
    requires
        transaction_verdict(author, tx, record, chain, endorsement_ok) is Valid,
    ensures
        tx.amount > 0,
        tx.from_agent@ == author,
        tx.to_agent@ != author,
        tx.checkpoint is Some,
        tx.recipient_sig is Some,
        endorsement_ok,
        record.author@ == author,
        checkpoint_basis(author, record) matches Ok((limit, basis)) && chain_walk(chain, chain.len()) matches Ok(spent)
            && basis - spent - tx.amount >= limit,
        record.entry matches CheckpointEntry::CreditLimit(cl) ==> cl.agent@ == author,
        record.entry matches CheckpointEntry::Account(acct) ==> acct.agent@ == author,
{
}

} // verus!
