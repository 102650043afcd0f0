//! The registry: its membrane (what every peer accepts of manifests,
//! attestations, warrants, caches and links) and the coordinator's
//! integer decisions over what it reads — cache freshness, counters,
//! comparative cycles and standing, event order, the holonomy probe's
//! masses and the manifest's drift gate.
use vstd::prelude::*;
use crate::roster::{key_eq, keys_view};
use crate::golden::{golden_sign, sign_fits, sign_fits_exact, zphi_sign};
use crate::field::{pair_accumulate, pair_keys, pair_sums, pairs_view, raw_in_range, trunc_div, RawEdge};
use vstd::relations::{sorted_by, total_ordering};

verus! {

/// The rule a registry entry or link breaks.
#[derive(Clone, Copy, Debug, PartialEq, Eq, Structural)]
pub enum RegistryRule {
    CacheScoreOutOfRange,
    CacheDeltaOutOfRange,
    CacheRevealsExceedCommits,
    WarrantBlobEmpty,
    BaseNotAgent,
    BaseNotAction,
    TargetNotAction,
    EntryImmutable,
    LinkPermanent,
    AgentPackageMissing,
}

/// Accepted, rejected by a rule, or failed (the operation is refused
/// with an error rather than a verdict).
#[derive(Clone, Copy, Debug, PartialEq, Eq, Structural)]
pub enum RegistryVerdict {
    Valid,
    Invalid(RegistryRule),
    Failed(RegistryRule),
}

/// An agent's cached reputation: scores in parts per million.
#[derive(Clone, Debug)]
pub struct ReputationCache {
    pub agent: Vec<u8>,
    pub score: u32,
    pub score_delta: i32,
    /// Microseconds since the epoch.
    pub computed_at: i64,
    pub attestation_count: u32,
    pub warrant_count: u32,
    pub total_commits: u32,
    pub total_reveals: u32,
}

/// 10⁶: a score of 1.0 in parts per million.
pub const CACHE_SCORE_DENOM: u32 = 1_000_000;

pub open spec fn cache_verdict(c: ReputationCache) -> RegistryVerdict {
    if c.score > 1_000_000 {
        RegistryVerdict::Invalid(RegistryRule::CacheScoreOutOfRange)
    } else if c.score_delta > 1_000_000 || c.score_delta < -1_000_000 {
        RegistryVerdict::Invalid(RegistryRule::CacheDeltaOutOfRange)
    } else if c.total_reveals > c.total_commits {
        RegistryVerdict::Invalid(RegistryRule::CacheRevealsExceedCommits)
    } else {
        RegistryVerdict::Valid
    }
}

/// The representation of a cache is bounded: a score in [0, 10⁶], a
/// delta within ±10⁶, never more reveals than commits. An accepted cache
/// can at most claim a perfect score.
pub fn validate_create_reputation_cache(cache: &ReputationCache) -> (r: RegistryVerdict)
    ensures
        r == cache_verdict(*cache),
        r == RegistryVerdict::Valid ==> cache.score <= 1_000_000,
{
    if cache.score > CACHE_SCORE_DENOM {
        return RegistryVerdict::Invalid(RegistryRule::CacheScoreOutOfRange);
    }
    let magnitude: u32 = if cache.score_delta < 0 {
        (-(cache.score_delta as i64)) as u32
    } else {
        cache.score_delta as u32
    };
    if magnitude > CACHE_SCORE_DENOM {
        return RegistryVerdict::Invalid(RegistryRule::CacheDeltaOutOfRange);
    }
    if cache.total_reveals > cache.total_commits {
        return RegistryVerdict::Invalid(RegistryRule::CacheRevealsExceedCommits);
    }
    RegistryVerdict::Valid
}

/// A warrant carries evidence: its blob is not empty.
pub fn validate_create_warrant(metadata_blob: &Vec<u8>) -> (r: RegistryVerdict)
    ensures
        r == (if metadata_blob@.len() == 0 {
            RegistryVerdict::Invalid(RegistryRule::WarrantBlobEmpty)
        } else {
            RegistryVerdict::Valid
        }),
{
    if metadata_blob.len() == 0 {
        RegistryVerdict::Invalid(RegistryRule::WarrantBlobEmpty)
    } else {
        RegistryVerdict::Valid
    }
}

/// A created registry entry, with what its rule reads.
#[derive(Clone, Debug)]
pub enum RegistryEntry {
    Manifest,
    Attestation,
    Warrant { metadata_blob: Vec<u8> },
    ReputationCache(ReputationCache),
    TrustScoreCache,
    WarrantConfirmation,
    ConvergenceSignal,
    NetworkStateManifest,
    GeometryParams,
    NetworkGoalManifest,
    NetworkRoundManifest,
    NetworkIdentity,
}

#[derive(Clone, Copy, Debug, PartialEq, Eq, Structural)]
pub enum RegistryLinkTypes {
    AgentToManifest,
    ManifestToAttestation,
    ManifestToWarrant,
    AttestationToWarrant,
    AgentToReputationCache,
    ManifestToUpstream,
    UpstreamToDerivative,
    ContentHashToManifest,
    ManifestToValidationRequest,
    AgentToAttestation,
    ManifestToValidator,
    ManifestToTrustScoreCache,
    ManifestToWarrantConfirmation,
    AgentToConvergenceSignal,
    GlobalManifestAnchor,
    GeometryParamsAnchor,
    NetworkStateManifestAnchor,
    NetworkGoalManifestAnchor,
    NetworkRoundAnchor,
    NetworkIdentityAnchor,
}

/// What a link's addresses are.
#[derive(Clone, Copy, Debug)]
pub struct LinkAddresses {
    pub base_is_agent: bool,
    pub base_is_action: bool,
    pub target_is_action: bool,
}

/// A DHT operation on the registry zome, flattened.
#[derive(Clone, Debug)]
pub enum RegistryOp {
    CreateEntry(RegistryEntry),
    UpdateEntry,
    DeleteEntry,
    CreateLink { link_type: RegistryLinkTypes, addresses: LinkAddresses },
    DeleteLink,
    CreateAgent { follows_validation_package: bool },
    Other,
}

pub open spec fn registry_entry_verdict(e: RegistryEntry) -> RegistryVerdict {
    match e {
        RegistryEntry::Warrant { metadata_blob } => if metadata_blob@.len() == 0 {
            RegistryVerdict::Invalid(RegistryRule::WarrantBlobEmpty)
        } else {
            RegistryVerdict::Valid
        },
        RegistryEntry::ReputationCache(c) => cache_verdict(c),
        _ => RegistryVerdict::Valid,
    }
}

/// Link rules: an agent's manifest index runs from an agent key to an
/// action; manifest-based links start at an action; warrant links end at
/// one. Address-shape faults fail the operation.
pub open spec fn registry_link_verdict(t: RegistryLinkTypes, a: LinkAddresses) -> RegistryVerdict {
    match t {
        RegistryLinkTypes::AgentToManifest => if !a.base_is_agent {
            RegistryVerdict::Failed(RegistryRule::BaseNotAgent)
        } else if !a.target_is_action {
            RegistryVerdict::Failed(RegistryRule::TargetNotAction)
        } else {
            RegistryVerdict::Valid
        },
        RegistryLinkTypes::ManifestToAttestation => if !a.base_is_action {
            RegistryVerdict::Failed(RegistryRule::BaseNotAction)
        } else {
            RegistryVerdict::Valid
        },
        RegistryLinkTypes::ManifestToWarrant | RegistryLinkTypes::AttestationToWarrant => if !a.base_is_action {
            RegistryVerdict::Failed(RegistryRule::BaseNotAction)
        } else if !a.target_is_action {
            RegistryVerdict::Failed(RegistryRule::TargetNotAction)
        } else {
            RegistryVerdict::Valid
        },
        _ => RegistryVerdict::Valid,
    }
}

pub open spec fn registry_op_verdict(op: RegistryOp) -> RegistryVerdict {
    match op {
        RegistryOp::CreateEntry(e) => registry_entry_verdict(e),
        RegistryOp::UpdateEntry => RegistryVerdict::Invalid(RegistryRule::EntryImmutable),
        RegistryOp::DeleteEntry => RegistryVerdict::Invalid(RegistryRule::EntryImmutable),
        RegistryOp::CreateLink { link_type, addresses } => registry_link_verdict(link_type, addresses),
        RegistryOp::DeleteLink => RegistryVerdict::Invalid(RegistryRule::LinkPermanent),
        RegistryOp::CreateAgent { follows_validation_package } => if follows_validation_package {
            RegistryVerdict::Valid
        } else {
            RegistryVerdict::Invalid(RegistryRule::AgentPackageMissing)
        },
        RegistryOp::Other => RegistryVerdict::Valid,
    }
}

/// A registry link's rule: the shape of its base and target.
pub fn validate_registry_link(link_type: RegistryLinkTypes, a: LinkAddresses) -> (r: RegistryVerdict)
    ensures
        r == registry_link_verdict(link_type, a),
{
    match link_type {
        RegistryLinkTypes::AgentToManifest => {
            if !a.base_is_agent {
                RegistryVerdict::Failed(RegistryRule::BaseNotAgent)
            } else if !a.target_is_action {
                RegistryVerdict::Failed(RegistryRule::TargetNotAction)
            } else {
                RegistryVerdict::Valid
            }
        },
        RegistryLinkTypes::ManifestToAttestation => {
            if !a.base_is_action {
                RegistryVerdict::Failed(RegistryRule::BaseNotAction)
            } else {
                RegistryVerdict::Valid
            }
        },
        RegistryLinkTypes::ManifestToWarrant | RegistryLinkTypes::AttestationToWarrant => {
            if !a.base_is_action {
                RegistryVerdict::Failed(RegistryRule::BaseNotAction)
            } else if !a.target_is_action {
                RegistryVerdict::Failed(RegistryRule::TargetNotAction)
            } else {
                RegistryVerdict::Valid
            }
        },
        _ => RegistryVerdict::Valid,
    }
}

/// The registry's validation callback: entries are immutable and links
/// permanent; creates go to their rule; a joining agent must follow its
/// validation package.
pub fn validate_registry(op: &RegistryOp) -> (r: RegistryVerdict)
    ensures
        r == registry_op_verdict(*op),
        (op is UpdateEntry || op is DeleteEntry) ==> r == RegistryVerdict::Invalid(RegistryRule::EntryImmutable),
        op is DeleteLink ==> r == RegistryVerdict::Invalid(RegistryRule::LinkPermanent),
{
    match op {
        RegistryOp::CreateEntry(e) => match e {
            RegistryEntry::Warrant { metadata_blob } => validate_create_warrant(metadata_blob),
            RegistryEntry::ReputationCache(c) => validate_create_reputation_cache(c),
            _ => RegistryVerdict::Valid,
        },
        RegistryOp::UpdateEntry => RegistryVerdict::Invalid(RegistryRule::EntryImmutable),
        RegistryOp::DeleteEntry => RegistryVerdict::Invalid(RegistryRule::EntryImmutable),
        RegistryOp::CreateLink { link_type, addresses } => validate_registry_link(*link_type, *addresses),
        RegistryOp::DeleteLink => RegistryVerdict::Invalid(RegistryRule::LinkPermanent),
        RegistryOp::CreateAgent { follows_validation_package } => {
            if *follows_validation_package {
                RegistryVerdict::Valid
            } else {
                RegistryVerdict::Invalid(RegistryRule::AgentPackageMissing)
            }
        },
        RegistryOp::Other => RegistryVerdict::Valid,
    }
}


// ─────────────────────────────────────────────
// Cache freshness and the commit / reveal counters
// ─────────────────────────────────────────────

/// A reputation cache is stale once anyone else attested, or anyone
/// warranted, one of the agent's manifests after it was computed.
pub open spec fn reputation_fresh(agent: Seq<u8>, computed_at: i64, attestations: Seq<(Vec<u8>, i64)>, warrants: Seq<i64>) -> bool {
    &&& forall|i: int| 0 <= i < attestations.len() ==> (#[trigger] attestations[i]).0@ == agent
        || attestations[i].1 <= computed_at
    &&& forall|j: int| 0 <= j < warrants.len() ==> #[trigger] warrants[j] <= computed_at
}

/// Whether an agent's cache still stands: `attestations` are the (author,
/// time) of the attestation links on the agent's manifests, `warrants`
/// the times of their warrant links.
pub fn reputation_cache_fresh(agent: &Vec<u8>, computed_at: i64, attestations: &[(Vec<u8>, i64)], warrants: &[i64]) -> (r: bool)
    ensures
        r == reputation_fresh(agent@, computed_at, attestations@, warrants@),
{
    let mut i: usize = 0;
    while i < attestations.len()
        invariant
            i <= attestations@.len(),
            forall|q: int| 0 <= q < i ==> (#[trigger] attestations@[q]).0@ == agent@ || attestations@[q].1 <= computed_at,
        decreases attestations@.len() - i,
    {
        if !key_eq(&attestations[i].0, agent) && attestations[i].1 > computed_at {
            return false;
        }
        i = i + 1;
    }
    let mut j: usize = 0;
    while j < warrants.len()
        invariant
            j <= warrants@.len(),
            forall|q: int| 0 <= q < i ==> (#[trigger] attestations@[q]).0@ == agent@ || attestations@[q].1 <= computed_at,
            i == attestations@.len(),
            forall|q: int| 0 <= q < j ==> #[trigger] warrants@[q] <= computed_at,
        decreases warrants@.len() - j,
    {
        if warrants[j] > computed_at {
            return false;
        }
        j = j + 1;
    }
    true
}

/// A trust-score cache stands while no attestation or warrant
/// confirmation on the manifest is newer than it.
pub fn trust_cache_fresh(computed_at: i64, attestations: &[i64], confirmations: &[i64]) -> (r: bool)
    ensures
        r == ((forall|i: int| 0 <= i < attestations@.len() ==> #[trigger] attestations@[i] <= computed_at)
            && (forall|j: int| 0 <= j < confirmations@.len() ==> #[trigger] confirmations@[j] <= computed_at)),
{
    let mut i: usize = 0;
    while i < attestations.len()
        invariant
            i <= attestations@.len(),
            forall|q: int| 0 <= q < i ==> #[trigger] attestations@[q] <= computed_at,
        decreases attestations@.len() - i,
    {
        if attestations[i] > computed_at {
            return false;
        }
        i = i + 1;
    }
    let mut j: usize = 0;
    while j < confirmations.len()
        invariant
            j <= confirmations@.len(),
            i == attestations@.len(),
            forall|q: int| 0 <= q < i ==> #[trigger] attestations@[q] <= computed_at,
            forall|q: int| 0 <= q < j ==> #[trigger] confirmations@[q] <= computed_at,
        decreases confirmations@.len() - j,
    {
        if confirmations[j] > computed_at {
            return false;
        }
        j = j + 1;
    }
    true
}

/// The counters a new cache carries over: the latest cache's, or zeros.
pub open spec fn carried(prev: Option<ReputationCache>) -> (u32, u32, u32, i32, u32, u32) {
    match prev {
        Some(c) => (c.total_commits, c.total_reveals, c.score, c.score_delta, c.attestation_count, c.warrant_count),
        None => (0, 0, 0, 0, 0, 0),
    }
}

/// The cache written when an agent commits (`commit`) or reveals: every
/// figure carried over from the latest cache, one counter stepped.
pub fn bump_counter(prev: &Option<ReputationCache>, agent: Vec<u8>, now: i64, commit: bool) -> (r: ReputationCache)
    requires
        commit ==> carried(*prev).0 < u32::MAX,
        !commit ==> carried(*prev).1 < u32::MAX,
    ensures
        r.agent == agent,
        r.computed_at == now,
        r.score == carried(*prev).2,
        r.score_delta == carried(*prev).3,
        r.attestation_count == carried(*prev).4,
        r.warrant_count == carried(*prev).5,
        r.total_commits == carried(*prev).0 + (if commit { 1int } else { 0int }),
        r.total_reveals == carried(*prev).1 + (if commit { 0int } else { 1int }),
{
    let (commits, reveals, score, delta, att, warr): (u32, u32, u32, i32, u32, u32) = match prev {
        Some(c) => (c.total_commits, c.total_reveals, c.score, c.score_delta, c.attestation_count, c.warrant_count),
        None => (0, 0, 0, 0, 0, 0),
    };
    ReputationCache {
        agent,
        score,
        score_delta: delta,
        computed_at: now,
        attestation_count: att,
        warrant_count: warr,
        total_commits: if commit { commits + 1 } else { commits },
        total_reveals: if commit { reveals } else { reveals + 1 },
    }
}

// ─────────────────────────────────────────────
// Comparative attestations
// ─────────────────────────────────────────────

/// |x| as an integer.
pub open spec fn abs_int(x: int) -> int {
    if x < 0 { -x } else { x }
}

/// The cycle residual: this edge's margin less the cited path's margins.
pub open spec fn cycle_sum(margin: i64, cited: Seq<i64>, k: nat) -> int
    decreases k,
{
    if k == 0 {
        margin as int
    } else {
        cycle_sum(margin, cited, (k - 1) as nat) - cited[k - 1]
    }
}

/// The largest |margin| on the cycle.
pub open spec fn cycle_max(margin: i64, cited: Seq<i64>, k: nat) -> int
    decreases k,
{
    if k == 0 {
        abs_int(margin as int)
    } else {
        let m = cycle_max(margin, cited, (k - 1) as nat);
        let c = abs_int(cited[k - 1] as int);
        if c > m { c } else { m }
    }
}

/// A cycle is flat when its residual is within φ⁻⁴ of its largest
/// margin: max·(5 − 3φ) − residual ≥ 0.
pub open spec fn flat(residual_abs: int, max_abs: int) -> bool {
    golden_sign(5 * max_abs - residual_abs, -3 * max_abs) >= 0
}

/// The flatness test, exact in ℤ[φ].
pub fn cycle_is_flat(residual_abs: i128, max_abs: i128) -> (r: bool)
    requires
        0 <= residual_abs,
        0 <= max_abs <= 0x8000_0000_0000_0000,
        residual_abs <= 0x1_0000_0000_0000_0000_0000_0000,
        sign_fits(5 * max_abs - residual_abs, -3 * max_abs),
    ensures
        r == flat(residual_abs as int, max_abs as int),
{
    zphi_sign(5 * max_abs - residual_abs, -3 * max_abs) >= 0
}

/// An exactly closed cycle is flat, whatever its margins.
pub proof fn lemma_closed_cycle_is_flat(max_abs: int)
    requires
        max_abs >= 0,
    ensures
        flat(0, max_abs),
{
    let a = 5 * max_abs;
    let b = -3 * max_abs;
    let c = 2 * a + b;
    if max_abs > 0 {
        assert(c * c - 5 * b * b == 4 * max_abs * max_abs) by (nonlinear_arith)
            requires
                c == 7 * max_abs,
                b == -3 * max_abs,
        ;
        assert(4 * max_abs * max_abs > 0) by (nonlinear_arith)
            requires
                max_abs > 0,
        ;
    }
}

/// Why a comparative attestation is refused.
#[derive(Clone, Copy, Debug, PartialEq, Eq, Structural)]
pub enum ComparativeError {
    SelfComparison,
    CycleContradiction,
}

/// The cycle's test stays within `i128` (no test runs without a cited
/// cycle).
pub open spec fn cycle_fits(margin: i64, cited: Seq<i64>) -> bool {
    let s = cycle_sum(margin, cited, cited.len());
    let m = cycle_max(margin, cited, cited.len());
    &&& cited.len() < 0x1_0000_0000
    &&& cited.len() > 0 ==> sign_fits(5 * m - abs_int(s), -3 * m)
}

pub open spec fn comparative_verdict(winner: Seq<u8>, loser: Seq<u8>, margin: i64, cited: Seq<i64>) -> Result<(), ComparativeError> {
    if winner == loser {
        Err(ComparativeError::SelfComparison)
    } else if cited.len() > 0 && !flat(abs_int(cycle_sum(margin, cited, cited.len())), cycle_max(margin, cited, cited.len())) {
        Err(ComparativeError::CycleContradiction)
    } else {
        Ok(())
    }
}

proof fn lemma_cycle_bounds(margin: i64, cited: Seq<i64>, k: nat)
    requires
        k <= cited.len(),
    ensures
        0 <= cycle_max(margin, cited, k) <= 0x8000_0000_0000_0000,
        -(k + 1) * 0x8000_0000_0000_0000 <= cycle_sum(margin, cited, k) <= (k + 1) * 0x8000_0000_0000_0000,
    decreases k,
{
    if k > 0 {
        lemma_cycle_bounds(margin, cited, (k - 1) as nat);
    }
}

/// The checkpoint discipline of a comparative attestation: no artifact
/// is compared with itself, and a cited cycle (the margins of the prior
/// edges on the path loser → … → winner) must close flat with this
/// edge's margin. None exactly when the cycle's test would leave `i128`.
pub fn check_comparative_checked(winner: &Vec<u8>, loser: &Vec<u8>, margin: i64, cited: &[i64]) -> (r: Option<Result<(), ComparativeError>>)
    ensures
        r == (if winner@ != loser@ ==> cycle_fits(margin, cited@) {
            Some(comparative_verdict(winner@, loser@, margin, cited@))
        } else {
            None::<Result<(), ComparativeError>>
        }),
{
    if key_eq(winner, loser) {
        return Some(Err(ComparativeError::SelfComparison));
    }
    if cited.len() as u64 >= 0x1_0000_0000u64 {
        return None;
    }
    if cited.len() > 0 {
        let mut sum: i128 = margin as i128;
        let mut max_abs: i128 = if margin < 0 { -(margin as i128) } else { margin as i128 };
        let mut i: usize = 0;
        while i < cited.len()
            invariant
                i <= cited@.len() < 0x1_0000_0000,
                sum == cycle_sum(margin, cited@, i as nat),
                max_abs == cycle_max(margin, cited@, i as nat),
            decreases cited@.len() - i,
        {
            proof {
                lemma_cycle_bounds(margin, cited@, i as nat);
                assert((i + 2) * 0x8000_0000_0000_0000 <= 0x1_0000_0001 * 0x8000_0000_0000_0000) by (nonlinear_arith)
                    requires
                        i + 2 <= 0x1_0000_0001,
                ;
            }
            let c = cited[i] as i128;
            sum = sum - c;
            let ac: i128 = if c < 0 { -c } else { c };
            if ac > max_abs {
                max_abs = ac;
            }
            i = i + 1;
        }
        proof {
            lemma_cycle_bounds(margin, cited@, cited@.len() as nat);
            assert((cited@.len() + 1) * 0x8000_0000_0000_0000 <= 0x1_0000_0000_0000_0000_0000_0000) by (nonlinear_arith)
                requires
                    cited@.len() + 1 <= 0x1_0000_0000,
            ;
        }
        let residual: i128 = if sum < 0 { -sum } else { sum };
        if !sign_fits_exact(5 * max_abs - residual, -3 * max_abs) {
            return None;
        }
        if !cycle_is_flat(residual, max_abs) {
            return Some(Err(ComparativeError::CycleContradiction));
        }
    }
    Some(Ok(()))
}


/// The checkpoint discipline of a comparative attestation, on inputs whose
/// cycle test stays within `i128` (`check_comparative_checked` decides it).
pub fn check_comparative(winner: &Vec<u8>, loser: &Vec<u8>, margin: i64, cited: &[i64]) -> (r: Result<(), ComparativeError>)
    requires
        winner@ != loser@ ==> cycle_fits(margin, cited@),
    ensures
        r == comparative_verdict(winner@, loser@, margin, cited@),
{
    match check_comparative_checked(winner, loser, margin, cited) {
        Some(v) => v,
        None => Ok(()),
    }
}

/// A comparative attestation as read back: its blob's kind and edge, and
/// the attester's reputation in millionths.
#[derive(Clone, Debug)]
pub struct ComparativeRecord {
    pub kind: String,
    pub winner: Vec<u8>,
    pub loser: Vec<u8>,
    pub margin_millionths: i64,
    pub attester_rep: u32,
}

/// The kind tag of comparative attestation blobs.
pub const COMPARATIVE_KIND: &'static str = "comparative";

/// Σ over the first `k` comparative records naming `manifest` of the
/// signed margin (positive when it won) times the attester's reputation,
/// each rescaled once (truncated); and how many such records there are.
pub open spec fn standing_over(manifest: Seq<u8>, recs: Seq<ComparativeRecord>, k: nat) -> (int, int)
    decreases k,
{
    if k == 0 {
        (0, 0)
    } else {
        let s = standing_over(manifest, recs, (k - 1) as nat);
        let e = recs[k - 1];
        if e.kind@ != COMPARATIVE_KIND@ {
            s
        } else if e.winner@ == manifest {
            (s.0 + trunc_div(e.margin_millionths * e.attester_rep, 1_000_000), s.1 + 1)
        } else if e.loser@ == manifest {
            (s.0 + trunc_div(-e.margin_millionths * e.attester_rep, 1_000_000), s.1 + 1)
        } else {
            s
        }
    }
}

proof fn lemma_standing_bounds(manifest: Seq<u8>, recs: Seq<ComparativeRecord>, k: nat)
    requires
        k <= recs.len(),
    ensures
        0 <= standing_over(manifest, recs, k).1 <= k,
        -(k * 0x8000_0000_0000_0000_0000_0000) <= standing_over(manifest, recs, k).0 <= k * 0x8000_0000_0000_0000_0000_0000,
    decreases k,
{
    if k > 0 {
        lemma_standing_bounds(manifest, recs, (k - 1) as nat);
        let e = recs[k - 1];
        let p = e.margin_millionths * e.attester_rep;
        assert(-0x8000_0000_0000_0000 * 0xffff_ffff <= p <= 0x8000_0000_0000_0000 * 0xffff_ffff) by (nonlinear_arith)
            requires
                p == e.margin_millionths * e.attester_rep,
                -0x8000_0000_0000_0000 <= e.margin_millionths < 0x8000_0000_0000_0000,
                0 <= e.attester_rep <= 0xffff_ffff,
        ;
        assert((k - 1) * 0x8000_0000_0000_0000_0000_0000 + 0x8000_0000_0000_0000_0000_0000
            == k * 0x8000_0000_0000_0000_0000_0000) by (nonlinear_arith);
        let q = -e.margin_millionths * e.attester_rep;
        assert(-0x8000_0000_0000_0000 * 0xffff_ffff <= q <= 0x8000_0000_0000_0000 * 0xffff_ffff) by (nonlinear_arith)
            requires
                q == -e.margin_millionths * e.attester_rep,
                -0x8000_0000_0000_0000 <= e.margin_millionths < 0x8000_0000_0000_0000,
                0 <= e.attester_rep <= 0xffff_ffff,
        ;
        lemma_trunc_div_bound(p);
        lemma_trunc_div_bound(q);
    }
}

proof fn lemma_trunc_div_bound(p: int)
    ensures
        abs_int(trunc_div(p, 1_000_000)) <= abs_int(p),
{
    if p >= 0 {
        assert(p / 1_000_000 <= p);
    } else {
        assert((-p) / 1_000_000 <= -p);
    }
}

/// A manifest's comparative standing: attester-reputation-weighted net
/// preference mass (millionths, taken into `i64` by truncation) over the
/// comparative records that name it, and their number.
pub fn comparative_standing(manifest: &Vec<u8>, records: &[ComparativeRecord]) -> (r: (i64, u32))
    requires
        records@.len() <= u32::MAX,
    ensures
        r.0 == standing_over(manifest@, records@, records@.len() as nat).0 as i64,
        r.1 == standing_over(manifest@, records@, records@.len() as nat).1,
{
    let mut net: i128 = 0;
    let mut count: u32 = 0;
    let mut i: usize = 0;
    while i < records.len()
        invariant
            i <= records@.len() <= u32::MAX,
            (net as int, count as int) == standing_over(manifest@, records@, i as nat),
        decreases records@.len() - i,
    {
        proof {
            lemma_standing_bounds(manifest@, records@, (i + 1) as nat);
            assert((i + 1) * 0x8000_0000_0000_0000_0000_0000 <= 0x1_0000_0000 * 0x8000_0000_0000_0000_0000_0000) by (nonlinear_arith)
                requires
                    i + 1 <= 0x1_0000_0000,
            ;
        }
        let e = &records[i];
        let is_comparative = e.kind == COMPARATIVE_KIND.to_owned();
        if is_comparative {
            let signed: i128 = if key_eq(&e.winner, manifest) {
                e.margin_millionths as i128
            } else if key_eq(&e.loser, manifest) {
                -(e.margin_millionths as i128)
            } else {
                i = i + 1;
                continue;
            };
            proof {
                assert(-0x8000_0000_0000_0000 * 0xffff_ffff <= signed * e.attester_rep <= 0x8000_0000_0000_0000 * 0xffff_ffff) by (nonlinear_arith)
                    requires
                        -0x8000_0000_0000_0000 <= signed <= 0x8000_0000_0000_0000,
                        0 <= e.attester_rep <= 0xffff_ffff,
                ;
            }
            let p: i128 = signed * (e.attester_rep as i128);
            let q: i128 = if p >= 0 {
                p / 1_000_000
            } else {
                -((-p) / 1_000_000)
            };
            net = net + q;
            count = count + 1;
        }
        i = i + 1;
    }
    (net as i64, count)
}

/// The drift gate of the network's self-record: a new manifest is due
/// when none exists, when accumulated trust movement Σ|Δ| reaches φ⁻² of
/// the prior mass S_ref (always, with no prior mass), or when the
/// staleness ceiling in rounds is reached (rounds unknown count as
/// infinitely stale).
pub open spec fn due_spec(prior_exists: bool, sum_abs: u64, s_ref: u64, then: Option<u64>, now: Option<u64>) -> bool {
    let rounds: int = match (then, now) {
        (Some(t), Some(n)) => if n >= t { n - t } else { 0 },
        _ => u64::MAX as int,
    };
    !prior_exists || s_ref == 0 || golden_sign(sum_abs - 2 * s_ref, s_ref as int) >= 0
        || rounds >= crate::curve::STALENESS_CEILING_ROUNDS
}

/// The manifest write decision: due when no manifest exists, when the
/// drift reaches φ⁻², or when the staleness ceiling in rounds is hit
/// (rounds unknown count as stale).
pub fn manifest_due(prior_exists: bool, sum_abs: u64, s_ref: u64, then: Option<u64>, now: Option<u64>) -> (r: bool)
    requires
        sign_fits(sum_abs - 2 * s_ref, s_ref as int),
    ensures
        r == due_spec(prior_exists, sum_abs, s_ref, then, now),
{
    if !prior_exists {
        return true;
    }
    let rounds: u64 = match (then, now) {
        (Some(t), Some(n)) => n.saturating_sub(t),
        _ => u64::MAX,
    };
    crate::golden::drift_exceeds_threshold_exact(sum_abs, s_ref) || rounds >= crate::curve::STALENESS_CEILING_ROUNDS
}


// ─────────────────────────────────────────────
// Ordering by time
// ─────────────────────────────────────────────

/// Lexicographic order on (key, position) pairs: by key, ties by position.
pub open spec fn tag_order() -> spec_fn((int, int), (int, int)) -> bool {
    |x: (int, int), y: (int, int)| x.0 < y.0 || (x.0 == y.0 && x.1 <= y.1)
}

/// The (key, position) order is total.
pub proof fn lemma_tag_order_total()
    ensures
        total_ordering(tag_order()),
{
}

/// Each position tagged with its key.
pub open spec fn tagged(keys: Seq<i128>) -> Seq<(int, int)> {
    Seq::new(keys.len(), |i: int| (keys[i] as int, i))
}

pub open spec fn order_view(keys: Seq<i128>, order: Seq<usize>) -> Seq<(int, int)> {
    order.map_values(|j: usize| (keys[j as int] as int, j as int))
}

/// The positions of `keys` in ascending key order, ties kept in their
/// original order (a stable sort).
pub fn stable_order(keys: &[i128]) -> (r: Vec<usize>)
    ensures
        order_view(keys@, r@) == tagged(keys@).sort_by(tag_order()),
        forall|q: int| 0 <= q < r@.len() ==> #[trigger] r@[q] < keys@.len(),
{
    let mut sorted: Vec<usize> = Vec::new();
    let mut i: usize = 0;
    proof {
        lemma_tag_order_total();
        broadcast use vstd::seq_lib::group_to_multiset_ensures;
        assert(tagged(keys@).take(0) =~= Seq::<(int, int)>::empty());
        assert(order_view(keys@, sorted@) =~= Seq::<(int, int)>::empty());
    }
    while i < keys.len()
        invariant
            i <= keys@.len(),
            total_ordering(tag_order()),
            forall|q: int| 0 <= q < sorted@.len() ==> #[trigger] sorted@[q] < i,
            sorted_by(order_view(keys@, sorted@), tag_order()),
            order_view(keys@, sorted@).to_multiset() == tagged(keys@).take(i as int).to_multiset(),
        decreases keys@.len() - i,
    {
        let k = keys[i];
        let mut p: usize = 0;
        while p < sorted.len() && keys[sorted[p]] <= k
            invariant
                p <= sorted@.len(),
                forall|q: int| 0 <= q < sorted@.len() ==> #[trigger] sorted@[q] < i,
                i < keys@.len(),
                k == keys@[i as int],
                forall|q: int| 0 <= q < p ==> keys@[(#[trigger] sorted@[q]) as int] <= k,
            decreases sorted@.len() - p,
        {
            p = p + 1;
        }
        let ghost old_v = order_view(keys@, sorted@);
        let ghost xv = (k as int, i as int);
        proof {
            assert forall|q: int| 0 <= q < p implies tag_order()(#[trigger] old_v[q], xv) by {
                assert(old_v[q] == (keys@[sorted@[q] as int] as int, sorted@[q] as int));
            }
            if p < sorted@.len() {
                assert(keys@[sorted@[p as int] as int] > k);
                assert forall|q: int| p <= q < old_v.len() implies tag_order()(xv, #[trigger] old_v[q]) by {
                    if q > p {
                        assert(tag_order()(old_v[p as int], old_v[q]));
                    }
                }
            }
        }
        sorted.insert(p, i);
        proof {
            broadcast use vstd::seq_lib::group_to_multiset_ensures;
            let nv = order_view(keys@, sorted@);
            assert(nv =~= old_v.insert(p as int, xv));
            assert forall|a: int, b: int| 0 <= a < b < nv.len() implies #[trigger] tag_order()(nv[a], nv[b]) by {
                if a < p && b > p {
                    assert(tag_order()(old_v[a], xv));
                    assert(tag_order()(xv, old_v[b - 1]));
                } else if a == p && b > p {
                    assert(tag_order()(xv, old_v[b - 1]));
                } else if a < p && b == p {
                    assert(tag_order()(old_v[a], xv));
                }
            }
            assert(tagged(keys@).take(i + 1) =~= tagged(keys@).take(i as int).push(xv));
            assert(forall|q: int| 0 <= q < sorted@.len() ==> #[trigger] sorted@[q] < i + 1);
        }
        i = i + 1;
    }
    proof {
        assert(tagged(keys@).take(i as int) =~= tagged(keys@));
        let v = tagged(keys@);
        v.lemma_sort_by_ensures(tag_order());
        vstd::seq_lib::lemma_sorted_unique(order_view(keys@, sorted@), v.sort_by(tag_order()), tag_order());
    }
    sorted
}


/// The links found on one of an agent's manifests: (author, time) of its
/// attestation links and the times of its warrant links.
#[derive(Clone, Debug)]
pub struct ManifestLinks {
    pub attestations: Vec<(Vec<u8>, i64)>,
    pub warrants: Vec<i64>,
}

/// Attestations by others, as (time, true), in link order.
pub open spec fn attestation_actions(agent: Seq<u8>, atts: Seq<(Vec<u8>, i64)>, k: nat) -> Seq<(i64, bool)>
    decreases k,
{
    if k == 0 {
        Seq::empty()
    } else {
        let r = attestation_actions(agent, atts, (k - 1) as nat);
        if atts[k - 1].0@ != agent {
            r.push((atts[k - 1].1, true))
        } else {
            r
        }
    }
}

/// Warrants, as (time, false), in link order.
pub open spec fn warrant_actions(ws: Seq<i64>, k: nat) -> Seq<(i64, bool)>
    decreases k,
{
    if k == 0 {
        Seq::empty()
    } else {
        warrant_actions(ws, (k - 1) as nat).push((ws[k - 1], false))
    }
}

/// Every action on the first `k` manifests: each manifest's attestations
/// by others, then its warrants.
pub open spec fn gathered_actions(agent: Seq<u8>, ms: Seq<ManifestLinks>, k: nat) -> Seq<(i64, bool)>
    decreases k,
{
    if k == 0 {
        Seq::empty()
    } else {
        let m = ms[k - 1];
        gathered_actions(agent, ms, (k - 1) as nat)
            + attestation_actions(agent, m.attestations@, m.attestations@.len())
            + warrant_actions(m.warrants@, m.warrants@.len())
    }
}

pub open spec fn action_keys(acts: Seq<(i64, bool)>) -> Seq<i128> {
    acts.map_values(|a: (i64, bool)| a.0 as i128)
}

/// The outcomes in time order, ties in gathering order.
pub open spec fn events_in_time_order(acts: Seq<(i64, bool)>) -> Seq<bool> {
    tagged(action_keys(acts)).sort_by(tag_order()).map_values(|p: (int, int)| acts[p.1].1)
}

/// Whether an action has the given outcome.
pub open spec fn is_outcome(outcome: bool) -> spec_fn((i64, bool)) -> bool {
    |a: (i64, bool)| a.1 == outcome
}

/// How many of the actions have the given outcome.
pub open spec fn count_outcome(acts: Seq<(i64, bool)>, outcome: bool) -> nat {
    acts.filter(is_outcome(outcome)).len()
}

/// The reputation events of an agent: attestations others made of its
/// manifests (true) and warrants against them (false), in time order;
/// with the counts of each.
pub fn reputation_events(agent: &Vec<u8>, manifests: &[ManifestLinks]) -> (r: (Vec<bool>, u32, u32))
    requires
        gathered_actions(agent@, manifests@, manifests@.len() as nat).len() <= u32::MAX,
    ensures
        r.0@ == events_in_time_order(gathered_actions(agent@, manifests@, manifests@.len() as nat)),
        r.1 == count_outcome(gathered_actions(agent@, manifests@, manifests@.len() as nat), true),
        r.2 == count_outcome(gathered_actions(agent@, manifests@, manifests@.len() as nat), false),
        r.1 + r.2 == gathered_actions(agent@, manifests@, manifests@.len() as nat).len(),
{
    let ghost total = gathered_actions(agent@, manifests@, manifests@.len() as nat);
    let mut acts: Vec<(i64, bool)> = Vec::new();
    let mut n_att: u32 = 0;
    let mut n_war: u32 = 0;
    let mut m: usize = 0;
    proof {
        lemma_gathered_prefix(agent@, manifests@, 0, manifests@.len() as nat);
    }
    while m < manifests.len()
        invariant
            m <= manifests@.len(),
            acts@ == gathered_actions(agent@, manifests@, m as nat),
            n_att + n_war == acts@.len(),
            n_att == count_outcome(acts@, true),
            n_war == count_outcome(acts@, false),
            total == gathered_actions(agent@, manifests@, manifests@.len() as nat),
            total.len() <= u32::MAX,
            forall|j: nat| j <= manifests@.len() ==> (#[trigger] gathered_actions(agent@, manifests@, j)).len() <= total.len(),
        decreases manifests@.len() - m,
    {
        let ml = &manifests[m];
        let ghost before = acts@;
        proof {
            assert(gathered_actions(agent@, manifests@, (m + 1) as nat).len() <= total.len());
            lemma_warrant_actions_len(ml.warrants@, ml.warrants@.len() as nat);
        }
        let mut a: usize = 0;
        while a < ml.attestations.len()
            invariant
                a <= ml.attestations@.len(),
                acts@ == before + attestation_actions(agent@, ml.attestations@, a as nat),
                n_att + n_war == acts@.len(),
                n_att == count_outcome(acts@, true),
                n_war == count_outcome(acts@, false),
                before.len() + attestation_actions(agent@, ml.attestations@, ml.attestations@.len() as nat).len()
                    + warrant_actions(ml.warrants@, ml.warrants@.len() as nat).len() <= u32::MAX,
            decreases ml.attestations@.len() - a,
        {
            proof {
                lemma_attestation_actions_mono(agent@, ml.attestations@, (a + 1) as nat, ml.attestations@.len() as nat);
            }
            if !key_eq(&ml.attestations[a].0, agent) {
                proof {
                    acts@.lemma_filter_len_push(is_outcome(true), (ml.attestations@[a as int].1, true));
                    acts@.lemma_filter_len_push(is_outcome(false), (ml.attestations@[a as int].1, true));
                }
                acts.push((ml.attestations[a].1, true));
                n_att = n_att + 1;
            }
            proof {
                assert(acts@ =~= before + attestation_actions(agent@, ml.attestations@, (a + 1) as nat));
            }
            a = a + 1;
        }
        let ghost mid = acts@;
        let mut w: usize = 0;
        while w < ml.warrants.len()
            invariant
                w <= ml.warrants@.len(),
                acts@ == mid + warrant_actions(ml.warrants@, w as nat),
                n_att + n_war == acts@.len(),
                n_att == count_outcome(acts@, true),
                n_war == count_outcome(acts@, false),
                mid.len() + warrant_actions(ml.warrants@, ml.warrants@.len() as nat).len() <= u32::MAX,
                warrant_actions(ml.warrants@, ml.warrants@.len() as nat).len() == ml.warrants@.len(),
            decreases ml.warrants@.len() - w,
        {
            proof {
                lemma_warrant_actions_len(ml.warrants@, w as nat);
            }
            proof {
                acts@.lemma_filter_len_push(is_outcome(true), (ml.warrants@[w as int], false));
                acts@.lemma_filter_len_push(is_outcome(false), (ml.warrants@[w as int], false));
            }
            acts.push((ml.warrants[w], false));
            n_war = n_war + 1;
            proof {
                assert(acts@ =~= mid + warrant_actions(ml.warrants@, (w + 1) as nat));
            }
            w = w + 1;
        }
        proof {
            assert(acts@ =~= gathered_actions(agent@, manifests@, (m + 1) as nat));
        }
        m = m + 1;
    }
    let mut keys: Vec<i128> = Vec::new();
    let mut k: usize = 0;
    while k < acts.len()
        invariant
            k <= acts@.len(),
            keys@ == action_keys(acts@).take(k as int),
        decreases acts@.len() - k,
    {
        keys.push(acts[k].0 as i128);
        proof {
            assert(keys@ =~= action_keys(acts@).take(k + 1));
        }
        k = k + 1;
    }
    proof {
        assert(keys@ =~= action_keys(acts@));
    }
    let order = stable_order(keys.as_slice());
    let mut events: Vec<bool> = Vec::new();
    let mut q: usize = 0;
    proof {
        crate::registry::lemma_tag_order_total();
        tagged(keys@).lemma_sort_by_ensures(tag_order());
        broadcast use vstd::seq_lib::group_to_multiset_ensures;
    }
    while q < order.len()
        invariant
            q <= order@.len(),
            keys@ == action_keys(acts@),
            keys@.len() == acts@.len(),
            order_view(keys@, order@) == tagged(keys@).sort_by(tag_order()),
            forall|t: int| 0 <= t < order@.len() ==> #[trigger] order@[t] < keys@.len(),
            events@ == tagged(keys@).sort_by(tag_order()).map_values(|p: (int, int)| acts@[p.1].1).take(q as int),
        decreases order@.len() - q,
    {
        let j = order[q];
        events.push(acts[j].1);
        proof {
            let sv = tagged(keys@).sort_by(tag_order());
            assert(sv[q as int] == order_view(keys@, order@)[q as int]);
            assert(events@ =~= sv.map_values(|p: (int, int)| acts@[p.1].1).take(q + 1));
        }
        q = q + 1;
    }
    proof {
        assert(order_view(keys@, order@).len() == order@.len());
        assert(events@ =~= tagged(keys@).sort_by(tag_order()).map_values(|p: (int, int)| acts@[p.1].1));
    }
    (events, n_att, n_war)
}

proof fn lemma_warrant_actions_len(ws: Seq<i64>, k: nat)
    ensures
        warrant_actions(ws, k).len() == k,
    decreases k,
{
    if k > 0 {
        lemma_warrant_actions_len(ws, (k - 1) as nat);
    }
}

proof fn lemma_attestation_actions_mono(agent: Seq<u8>, atts: Seq<(Vec<u8>, i64)>, j: nat, k: nat)
    requires
        j <= k,
    ensures
        attestation_actions(agent, atts, j).len() <= attestation_actions(agent, atts, k).len(),
    decreases k - j,
{
    if j < k {
        lemma_attestation_actions_mono(agent, atts, j, (k - 1) as nat);
    }
}

proof fn lemma_gathered_prefix(agent: Seq<u8>, ms: Seq<ManifestLinks>, j: nat, k: nat)
    requires
        j <= k,
    ensures
        forall|i: nat| i <= k ==> (#[trigger] gathered_actions(agent, ms, i)).len() <= gathered_actions(agent, ms, k).len(),
    decreases k,
{
    if k > 0 {
        lemma_gathered_prefix(agent, ms, 0, (k - 1) as nat);
    }
}


/// The positions of the `n` most recent times (newest first, ties in
/// their original order).
pub fn most_recent(times: &[i64], n: usize) -> (r: Vec<usize>)
    ensures
        order_view(newest_first_keys(times@), r@) == tagged(newest_first_keys(times@)).sort_by(tag_order()).take(
            if n < times@.len() { n as int } else { times@.len() as int },
        ),
{
    let mut keys: Vec<i128> = Vec::new();
    let mut k: usize = 0;
    while k < times.len()
        invariant
            k <= times@.len(),
            keys@ == newest_first_keys(times@).take(k as int),
        decreases times@.len() - k,
    {
        keys.push(-(times[k] as i128));
        proof {
            assert(keys@ =~= newest_first_keys(times@).take(k + 1));
        }
        k = k + 1;
    }
    proof {
        assert(keys@ =~= newest_first_keys(times@));
    }
    let order = stable_order(keys.as_slice());
    let ghost full = order_view(keys@, order@);
    proof {
        crate::registry::lemma_tag_order_total();
        tagged(keys@).lemma_sort_by_ensures(tag_order());
        broadcast use vstd::seq_lib::group_to_multiset_ensures;
        assert(full.len() == order@.len());
        assert(tagged(keys@).len() == keys@.len());
        tagged(keys@).to_multiset_ensures();
        tagged(keys@).sort_by(tag_order()).to_multiset_ensures();
        assert(order@.len() == times@.len());
    }
    let limit: usize = if n < order.len() { n } else { order.len() };
    let mut out: Vec<usize> = Vec::new();
    let mut q: usize = 0;
    while q < limit
        invariant
            q <= limit <= order@.len(),
            full == order_view(keys@, order@),
            keys@ == newest_first_keys(times@),
            order@.len() == times@.len(),
            full == tagged(keys@).sort_by(tag_order()),
            limit == (if n < times@.len() { n as int } else { times@.len() as int }),
            order_view(keys@, out@) == full.take(q as int),
        decreases limit - q,
    {
        let ghost prev = out@;
        out.push(order[q]);
        proof {
            assert(full[q as int] == (keys@[order@[q as int] as int] as int, order@[q as int] as int));
            assert(order_view(keys@, out@) =~= order_view(keys@, prev).push(full[q as int]));
            assert(full.take(q + 1) =~= full.take(q as int).push(full[q as int]));
        }
        q = q + 1;
    }
    out
}

/// Newer first: times negated as keys.
pub open spec fn newest_first_keys(times: Seq<i64>) -> Seq<i128> {
    times.map_values(|t: i64| (-(t as int)) as i128)
}

/// A preference as the holonomy probe reads it.
pub open spec fn unit_edge(p: (Vec<u8>, Vec<u8>, i64)) -> RawEdge {
    RawEdge { winner: p.0, loser: p.1, margin: p.2, weight: 1 }
}

pub open spec fn unit_edges(prefs: Seq<(Vec<u8>, Vec<u8>, i64)>) -> Seq<RawEdge> {
    prefs.map_values(|p: (Vec<u8>, Vec<u8>, i64)| unit_edge(p))
}

/// Σ over the first `k` pairs of |net signed margin|.
pub open spec fn pair_residual(raw: Seq<RawEdge>, keys: Seq<(Seq<u8>, Seq<u8>)>, k: nat) -> int
    decreases k,
{
    if k == 0 {
        0
    } else {
        pair_residual(raw, keys, (k - 1) as nat) + abs_int(pair_sums(raw, keys[k - 1], raw.len()).0)
    }
}

/// Σ |margin| over the first `k` preferences.
pub open spec fn margin_mass(prefs: Seq<(Vec<u8>, Vec<u8>, i64)>, k: nat) -> int
    decreases k,
{
    if k == 0 {
        0
    } else {
        margin_mass(prefs, (k - 1) as nat) + abs_int(prefs[k - 1].2 as int)
    }
}

/// The normalized pairs of `k` raw edges number at most `k`.
proof fn lemma_pair_keys_len(raw: Seq<RawEdge>, k: nat)
    requires
        k <= raw.len(),
    ensures
        pair_keys(raw, k).len() <= k,
    decreases k,
{
    if k > 0 {
        lemma_pair_keys_len(raw, (k - 1) as nat);
    }
}

/// With unit weights, a pair's net margin over `k` edges is at most k·2⁶³.
proof fn lemma_unit_pair_sum(raw: Seq<RawEdge>, key: (Seq<u8>, Seq<u8>), k: nat)
    requires
        k <= raw.len(),
        forall|q: int| 0 <= q < raw.len() ==> (#[trigger] raw[q]).weight == 1,
    ensures
        -(k * 0x8000_0000_0000_0000) <= pair_sums(raw, key, k).0 <= k * 0x8000_0000_0000_0000,
    decreases k,
{
    if k > 0 {
        lemma_unit_pair_sum(raw, key, (k - 1) as nat);
        let e = raw[k - 1];
        assert(e.weight == 1);
        assert(e.weight * crate::field::raw_signed(e) == crate::field::raw_signed(e));
    }
}

/// With unit weights, the residual over `j` pairs of `n` edges is at most
/// j·n·2⁶³.
proof fn lemma_unit_pair_residual(raw: Seq<RawEdge>, keys: Seq<(Seq<u8>, Seq<u8>)>, j: nat)
    requires
        j <= keys.len(),
        forall|q: int| 0 <= q < raw.len() ==> (#[trigger] raw[q]).weight == 1,
    ensures
        0 <= pair_residual(raw, keys, j) <= j * (raw.len() * 0x8000_0000_0000_0000),
    decreases j,
{
    if j > 0 {
        lemma_unit_pair_residual(raw, keys, (j - 1) as nat);
        lemma_unit_pair_sum(raw, keys[j - 1], raw.len());
        let l = raw.len() * 0x8000_0000_0000_0000;
        assert(j * l == (j - 1) * l + l) by (nonlinear_arith);
    }
}

/// Fewer than 2³² preferences keep the holonomy residual within `i128`.
proof fn lemma_unit_pair_residual_fits(prefs: Seq<(Vec<u8>, Vec<u8>, i64)>)
    requires
        prefs.len() < 0x1_0000_0000,
    ensures
        ({
            let raw = unit_edges(prefs);
            let keys = pair_keys(raw, prefs.len() as nat);
            pair_residual(raw, keys, keys.len()) <= i128::MAX
        }),
{
    let raw = unit_edges(prefs);
    let n = prefs.len() as nat;
    assert forall|q: int| 0 <= q < raw.len() implies (#[trigger] raw[q]).weight == 1 by {
        assert(raw[q] == unit_edge(prefs[q]));
    }
    let keys = pair_keys(raw, n);
    lemma_pair_keys_len(raw, n);
    lemma_unit_pair_residual(raw, keys, keys.len());
    let kl = keys.len();
    assert(kl * (n * 0x8000_0000_0000_0000) <= i128::MAX) by (nonlinear_arith)
        requires
            kl <= n,
            n < 0x1_0000_0000,
    ;
}

/// The holonomy probe's masses over comparative preferences: opposite
/// preferences on a pair cancel, so the residual Σ|net margin per pair|
/// (at most the total) is the contradiction mass; the total is Σ|margin|.
pub fn holonomy_masses(prefs: &[(Vec<u8>, Vec<u8>, i64)]) -> (r: (i128, i128))
    requires
        prefs@.len() < 0x1_0000_0000,
    ensures
        ({
            let raw = unit_edges(prefs@);
            let keys = pair_keys(raw, raw.len());
            let res = pair_residual(raw, keys, keys.len());
            let tot = margin_mass(prefs@, prefs@.len() as nat);
            &&& r.1 == tot
            &&& r.0 == (if res < tot { res } else { tot })
        }),
{
    let mut raw: Vec<RawEdge> = Vec::new();
    let mut total: i128 = 0;
    let mut i: usize = 0;
    while i < prefs.len()
        invariant
            i <= prefs@.len() <= 0x1_0000_0000,
            raw@.len() == i,
            forall|q: int| 0 <= q < i ==> crate::field::raw_same(#[trigger] raw@[q], unit_edge(prefs@[q])),
            total == margin_mass(prefs@, i as nat),
            0 <= total <= i * 0x8000_0000_0000_0000,
        decreases prefs@.len() - i,
    {
        let p = &prefs[i];
        let w = p.0.clone();
        let l = p.1.clone();
        proof {
            assert(w@ =~= p.0@);
            assert(l@ =~= p.1@);
            assert((i + 1) * 0x8000_0000_0000_0000 == i * 0x8000_0000_0000_0000 + 0x8000_0000_0000_0000) by (nonlinear_arith);
        }
        raw.push(RawEdge { winner: w, loser: l, margin: p.2, weight: 1 });
        let m = p.2 as i128;
        total = total + if m < 0 { -m } else { m };
        i = i + 1;
    }
    let ghost ue = unit_edges(prefs@);
    proof {
        lemma_unit_pair_residual_fits(prefs@);
        assert(raw_in_range(raw@));
        crate::field::lemma_same_raw(raw@, ue, raw@.len() as nat);
    }
    let (keys, sums) = pair_accumulate(raw.as_slice());
    let ghost pk = pairs_view(keys@);
    proof {
        lemma_pair_residual_mono(ue, pk, pk.len());
    }
    let mut res: i128 = 0;
    let mut p: usize = 0;
    while p < keys.len()
        invariant
            p <= keys@.len() == sums@.len(),
            pk == pairs_view(keys@),
            pk == pair_keys(ue, ue.len()),
            raw@.len() == ue.len() <= 0x1_0000_0000,
            forall|key: (Seq<u8>, Seq<u8>)| #[trigger] pair_sums(raw@, key, raw@.len() as nat) == pair_sums(ue, key, raw@.len() as nat),
            forall|t: int| 0 <= t < keys@.len() ==> (#[trigger] sums@[t]).0 == pair_sums(raw@, (keys@[t].0@, keys@[t].1@), raw@.len() as nat).0,
            forall|j: nat| j <= pk.len() ==> #[trigger] pair_residual(ue, pk, j) <= pair_residual(ue, pk, pk.len()),
            pair_residual(ue, pk, pk.len()) <= i128::MAX,
            res == pair_residual(ue, pk, p as nat),
        decreases keys@.len() - p,
    {
        let v = sums[p].0;
        proof {
            crate::field::lemma_pair_sums_bounds(raw@, pk[p as int], raw@.len() as nat);
            assert(raw@.len() * 0x7fff_ffff_8000_0000_0000_0000 <= 0x1_0000_0000 * 0x7fff_ffff_8000_0000_0000_0000) by (nonlinear_arith)
                requires
                    raw@.len() <= 0x1_0000_0000,
            ;
            assert(pk[p as int] == (keys@[p as int].0@, keys@[p as int].1@));
            assert(pair_residual(ue, pk, (p + 1) as nat) <= pair_residual(ue, pk, pk.len()));
        }
        res = res + if v < 0 { -v } else { v };
        p = p + 1;
    }
    if res < total { (res, total) } else { (total, total) }
}


proof fn lemma_pair_residual_mono(raw: Seq<RawEdge>, keys: Seq<(Seq<u8>, Seq<u8>)>, k: nat)
    ensures
        forall|j: nat| j <= k ==> #[trigger] pair_residual(raw, keys, j) <= pair_residual(raw, keys, k),
    decreases k,
{
    if k > 0 {
        lemma_pair_residual_mono(raw, keys, (k - 1) as nat);
    }
}


/// The newest of a list of links by time: the last of those with the
/// greatest time. None for no links.
pub fn latest_link_index(times: &[i64]) -> (r: Option<usize>)
    ensures
        match r {
            None => times@.len() == 0,
            Some(i) => {
                &&& i < times@.len()
                &&& forall|j: int| 0 <= j < times@.len() ==> #[trigger] times@[j] <= times@[i as int]
                &&& forall|j: int| i < j < times@.len() ==> #[trigger] times@[j] < times@[i as int]
            },
        },
{
    if times.len() == 0 {
        return None;
    }
    let mut best: usize = 0;
    let mut k: usize = 1;
    while k < times.len()
        invariant
            1 <= k <= times@.len(),
            best < k,
            forall|j: int| 0 <= j < k ==> #[trigger] times@[j] <= times@[best as int],
            forall|j: int| best < j < k ==> #[trigger] times@[j] < times@[best as int],
        decreases times@.len() - k,
    {
        if times[k] >= times[best] {
            best = k;
        }
        k = k + 1;
    }
    Some(best)
}

/// Σ commits and Σ reveals over (commits, reveals) counters.
pub open spec fn counter_sums(c: Seq<(u32, u32)>, k: nat) -> (int, int)
    decreases k,
{
    if k == 0 {
        (0, 0)
    } else {
        let s = counter_sums(c, (k - 1) as nat);
        (s.0 + c[k - 1].0, s.1 + c[k - 1].1)
    }
}

/// The network's commit and reveal totals (probe 3's inputs).
pub fn reveal_totals(counters: &[(u32, u32)]) -> (r: (u64, u64))
    requires
        counters@.len() <= 0x1_0000_0000,
    ensures
        r.0 == counter_sums(counters@, counters@.len() as nat).0,
        r.1 == counter_sums(counters@, counters@.len() as nat).1,
{
    let mut commits: u64 = 0;
    let mut reveals: u64 = 0;
    let mut i: usize = 0;
    while i < counters.len()
        invariant
            i <= counters@.len() <= 0x1_0000_0000,
            (commits as int, reveals as int) == counter_sums(counters@, i as nat),
            commits <= i * 0xffff_ffff,
            reveals <= i * 0xffff_ffff,
        decreases counters@.len() - i,
    {
        proof {
            assert((i + 1) * 0xffff_ffff == i * 0xffff_ffff + 0xffff_ffff) by (nonlinear_arith);
            assert((i + 1) * 0xffff_ffff <= 0x1_0000_0000 * 0xffff_ffff) by (nonlinear_arith)
                requires
                    i + 1 <= 0x1_0000_0000,
            ;
        }
        commits = commits + counters[i].0 as u64;
        reveals = reveals + counters[i].1 as u64;
        i = i + 1;
    }
    (commits, reveals)
}

/// The cycle's scale is the largest margin on it: at least |margin| of the
/// new edge and of every cited edge, and equal to one of them.
pub proof fn lemma_cycle_max_is_largest(margin: i64, cited: Seq<i64>, k: nat)
    requires
        k <= cited.len(),
    ensures
        cycle_max(margin, cited, k) >= abs_int(margin as int),
        forall|i: int| 0 <= i < k ==> cycle_max(margin, cited, k) >= abs_int(#[trigger] cited[i] as int),
        cycle_max(margin, cited, k) == abs_int(margin as int)
            || exists|i: int| 0 <= i < k && cycle_max(margin, cited, k) == abs_int(#[trigger] cited[i] as int),
    decreases k,
{
    if k > 0 {
        lemma_cycle_max_is_largest(margin, cited, (k - 1) as nat);
        if cycle_max(margin, cited, k) != abs_int(margin as int) {
            if cycle_max(margin, cited, k) == abs_int(cited[k - 1] as int) {
                assert(0 <= k - 1 < k);
            } else {
                let i = choose|i: int| 0 <= i < k - 1 && cycle_max(margin, cited, (k - 1) as nat) == abs_int(#[trigger] cited[i] as int);
                assert(0 <= i < k);
            }
        }
    }
}

/// Σ of a list of margins.
pub open spec fn margin_total(s: Seq<i64>) -> int
    decreases s.len(),
{
    if s.len() == 0 {
        0
    } else {
        margin_total(s.drop_last()) + s.last()
    }
}

proof fn lemma_cycle_sum_total(margin: i64, cited: Seq<i64>, k: nat)
    requires
        k <= cited.len(),
    ensures
        cycle_sum(margin, cited, k) == margin - margin_total(cited.take(k as int)),
    decreases k,
{
    if k > 0 {
        lemma_cycle_sum_total(margin, cited, (k - 1) as nat);
        assert(cited.take(k as int).drop_last() =~= cited.take(k - 1));
    } else {
        assert(cited.take(0) =~= Seq::<i64>::empty());
    }
}

/// A cited cycle that closes exactly — the cited margins along the path
/// loser → … → winner add up to this edge's margin — is always accepted,
/// whatever the margins.
pub proof fn lemma_closed_cycle_accepted(winner: Seq<u8>, loser: Seq<u8>, margin: i64, cited: Seq<i64>)
    requires
        winner != loser,
        margin == margin_total(cited),
    ensures
        comparative_verdict(winner, loser, margin, cited) is Ok,
{
    lemma_cycle_sum_total(margin, cited, cited.len());
    assert(cited.take(cited.len() as int) =~= cited);
    lemma_cycle_max_is_largest(margin, cited, cited.len());
    lemma_closed_cycle_is_flat(cycle_max(margin, cited, cited.len()));
}

} // verus!
