use toric::blob_json::{computed_severity, manifest_scoreable, manifest_str_field, scoreable_blob_type, severity_from};
use toric::registry::{
    bump_counter, check_comparative, check_comparative_checked, comparative_standing, cycle_is_flat, holonomy_masses,
    latest_link_index, manifest_due, most_recent, reputation_cache_fresh, reputation_events,
    reveal_totals, stable_order, trust_cache_fresh, validate_create_reputation_cache,
    validate_create_warrant, validate_registry, ComparativeError, ComparativeRecord, LinkAddresses,
    ManifestLinks, RegistryEntry, RegistryLinkTypes, RegistryOp, RegistryRule, RegistryVerdict,
    ReputationCache,
};
use toric::golden::sign_fits_exact;
use toric::phifixed::reputation_recursion_exact;

fn k(n: u8) -> Vec<u8> {
    vec![n]
}

fn cache(score: u32, delta: i32, commits: u32, reveals: u32) -> ReputationCache {
    ReputationCache {
        agent: k(1),
        score,
        score_delta: delta,
        computed_at: 1_000,
        attestation_count: 4,
        warrant_count: 1,
        total_commits: commits,
        total_reveals: reveals,
    }
}

#[test]
fn cache_representation_is_bounded() {
    assert_eq!(validate_create_reputation_cache(&cache(1_000_000, -1_000_000, 3, 3)), RegistryVerdict::Valid);
    assert_eq!(validate_create_reputation_cache(&cache(1_000_001, 0, 0, 0)), RegistryVerdict::Invalid(RegistryRule::CacheScoreOutOfRange));
    assert_eq!(validate_create_reputation_cache(&cache(0, 1_000_001, 0, 0)), RegistryVerdict::Invalid(RegistryRule::CacheDeltaOutOfRange));
    assert_eq!(validate_create_reputation_cache(&cache(0, i32::MIN, 0, 0)), RegistryVerdict::Invalid(RegistryRule::CacheDeltaOutOfRange));
    assert_eq!(validate_create_reputation_cache(&cache(0, 0, 2, 3)), RegistryVerdict::Invalid(RegistryRule::CacheRevealsExceedCommits));
}

#[test]
fn registry_membrane() {
    assert_eq!(validate_create_warrant(&vec![]), RegistryVerdict::Invalid(RegistryRule::WarrantBlobEmpty));
    assert_eq!(validate_create_warrant(&vec![b'{']), RegistryVerdict::Valid);
    assert_eq!(validate_registry(&RegistryOp::UpdateEntry), RegistryVerdict::Invalid(RegistryRule::EntryImmutable));
    assert_eq!(validate_registry(&RegistryOp::DeleteEntry), RegistryVerdict::Invalid(RegistryRule::EntryImmutable));
    assert_eq!(validate_registry(&RegistryOp::DeleteLink), RegistryVerdict::Invalid(RegistryRule::LinkPermanent));
    assert_eq!(validate_registry(&RegistryOp::CreateAgent { follows_validation_package: false }), RegistryVerdict::Invalid(RegistryRule::AgentPackageMissing));
    assert_eq!(validate_registry(&RegistryOp::CreateEntry(RegistryEntry::Manifest)), RegistryVerdict::Valid);
    assert_eq!(validate_registry(&RegistryOp::CreateEntry(RegistryEntry::ReputationCache(cache(2_000_000, 0, 0, 0)))), RegistryVerdict::Invalid(RegistryRule::CacheScoreOutOfRange));
    let addr = |agent: bool, base_action: bool, target_action: bool| LinkAddresses { base_is_agent: agent, base_is_action: base_action, target_is_action: target_action };
    let link = |t: RegistryLinkTypes, a: LinkAddresses| RegistryOp::CreateLink { link_type: t, addresses: a };
    assert_eq!(validate_registry(&link(RegistryLinkTypes::AgentToManifest, addr(true, false, true))), RegistryVerdict::Valid);
    assert_eq!(validate_registry(&link(RegistryLinkTypes::AgentToManifest, addr(false, true, true))), RegistryVerdict::Failed(RegistryRule::BaseNotAgent));
    assert_eq!(validate_registry(&link(RegistryLinkTypes::AgentToManifest, addr(true, false, false))), RegistryVerdict::Failed(RegistryRule::TargetNotAction));
    assert_eq!(validate_registry(&link(RegistryLinkTypes::ManifestToAttestation, addr(true, false, true))), RegistryVerdict::Failed(RegistryRule::BaseNotAction));
    assert_eq!(validate_registry(&link(RegistryLinkTypes::ManifestToWarrant, addr(false, true, false))), RegistryVerdict::Failed(RegistryRule::TargetNotAction));
    assert_eq!(validate_registry(&link(RegistryLinkTypes::GlobalManifestAnchor, addr(false, false, false))), RegistryVerdict::Valid);
}

#[test]
fn cache_freshness() {
    let atts = vec![(k(1), 5_000), (k(2), 900)];
    assert!(reputation_cache_fresh(&k(1), 1_000, &atts, &[1_000]));
    assert!(!reputation_cache_fresh(&k(1), 1_000, &[(k(2), 1_001)], &[]));
    assert!(!reputation_cache_fresh(&k(1), 1_000, &[], &[1_001]));
    assert!(trust_cache_fresh(10, &[10, 9], &[3]));
    assert!(!trust_cache_fresh(10, &[11], &[]));
    assert!(!trust_cache_fresh(10, &[], &[11]));
}

#[test]
fn counters_step_and_carry() {
    let prev = Some(cache(700_000, 12, 5, 4));
    let c = bump_counter(&prev, k(1), 2_000, true);
    assert_eq!((c.total_commits, c.total_reveals, c.score, c.score_delta, c.attestation_count, c.warrant_count, c.computed_at), (6, 4, 700_000, 12, 4, 1, 2_000));
    let r = bump_counter(&prev, k(1), 2_000, false);
    assert_eq!((r.total_commits, r.total_reveals), (5, 5));
    let fresh = bump_counter(&None, k(3), 7, true);
    assert_eq!((fresh.total_commits, fresh.total_reveals, fresh.score), (1, 0, 0));
}

#[test]
fn cycle_flatness() {
    // a closed cycle is flat whatever its margins
    assert!(cycle_is_flat(0, 1_000_000));
    assert!(cycle_is_flat(0, 0));
    // φ⁻⁴ of 1 000 000 is 145 898.03…
    assert!(cycle_is_flat(145_898, 1_000_000));
    assert!(!cycle_is_flat(145_899, 1_000_000));
    assert_eq!(check_comparative(&k(1), &k(1), 10, &[]), Err(ComparativeError::SelfComparison));
    assert_eq!(check_comparative(&k(1), &k(2), 10, &[]), Ok(()));
    // cited path margins 60 + 40 cancel this edge's 100
    assert_eq!(check_comparative(&k(1), &k(2), 100, &[60, 40]), Ok(()));
    assert_eq!(check_comparative(&k(1), &k(2), 100, &[60, 10]), Err(ComparativeError::CycleContradiction));
}

fn rec(kind: &str, w: u8, l: u8, m: i64, rep: u32) -> ComparativeRecord {
    ComparativeRecord { kind: kind.to_string(), winner: k(w), loser: k(l), margin_millionths: m, attester_rep: rep }
}

#[test]
fn comparative_standing_weighs_by_reputation() {
    let records = vec![
        rec("comparative", 1, 2, 500_000, 500_000),
        rec("comparative", 3, 1, 200_000, 1_000_000),
        rec("comparative", 3, 4, 900_000, 1_000_000),
        rec("absolute", 1, 2, 900_000, 1_000_000),
        rec("comparative", 2, 1, 1, 1),
    ];
    // 250 000 − 200 000 + trunc(−1·1/10⁶) = 50 000
    assert_eq!(comparative_standing(&k(1), &records), (50_000, 3));
    assert_eq!(comparative_standing(&k(9), &records), (0, 0));
}

#[test]
fn drift_gate() {
    assert!(manifest_due(false, 0, 100, Some(1), Some(1)));
    assert!(manifest_due(true, 0, 0, Some(1), Some(1)));
    assert!(!manifest_due(true, 38, 100, Some(1), Some(21)));
    assert!(manifest_due(true, 39, 100, Some(1), Some(21)));
    assert!(manifest_due(true, 0, 100, Some(1), Some(22)));
    assert!(manifest_due(true, 0, 100, None, Some(22)));
    assert!(!manifest_due(true, 0, 100, Some(30), Some(22)));
}

#[test]
fn time_order_is_stable() {
    assert_eq!(stable_order(&[5, 1, 5, 0]), vec![3, 1, 0, 2]);
    assert_eq!(most_recent(&[5, 1, 5, 0, 9], 3), vec![4, 0, 2]);
    assert_eq!(most_recent(&[5, 1], 21), vec![0, 1]);
    assert_eq!(latest_link_index(&[3, 7, 7, 1]), Some(2));
    assert_eq!(latest_link_index(&[]), None);
}

#[test]
fn reputation_events_in_time_order() {
    let manifests = vec![
        ManifestLinks { attestations: vec![(k(2), 30), (k(1), 5), (k(3), 10)], warrants: vec![20] },
        ManifestLinks { attestations: vec![(k(4), 10)], warrants: vec![] },
    ];
    let (events, atts, warrants) = reputation_events(&k(1), &manifests);
    // self-attestation skipped; times 30, 10, 20, 10 → 10 (first), 10, 20, 30
    assert_eq!(events, vec![true, true, false, true]);
    assert_eq!((atts, warrants), (3, 1));
    let r = reputation_recursion_exact(&events);
    assert_eq!(r, reputation_recursion_exact(&[true, true, false, true]));
}

#[test]
fn holonomy_of_preferences() {
    // 1 > 2 by 100 and 2 > 1 by 60: residue 40 of mass 160; 3 > 4 by 10
    let prefs = vec![(k(1), k(2), 100), (k(2), k(1), 60), (k(3), k(4), 10)];
    assert_eq!(holonomy_masses(&prefs), (50, 170));
    // exact cancellation
    assert_eq!(holonomy_masses(&[(k(1), k(2), 5), (k(2), k(1), 5)]), (0, 10));
    assert_eq!(holonomy_masses(&[]), (0, 0));
}

#[test]
fn reveal_totals_sum() {
    assert_eq!(reveal_totals(&[(3, 2), (u32::MAX, u32::MAX)]), (u32::MAX as u64 + 3, u32::MAX as u64 + 2));
}

#[test]
fn warrant_severity_from_blob() {
    assert_eq!(computed_severity(b"prefix{\"computed_severity\": 420000, \"x\": 1}"), 420_000);
    assert_eq!(computed_severity(b"{\"computed_severity\": -1}"), 0);
    assert_eq!(computed_severity(b"not json"), 0);
    assert_eq!(computed_severity(b"{\"computed_severity\": 4294967297}"), 1);
    assert_eq!(severity_from(Some(7)), 7);
    assert_eq!(severity_from(None), 0);
}

#[test]
fn scoreable_manifest_types() {
    assert!(manifest_scoreable(b"{\"blob_type\": \"dataset\"}"));
    assert!(manifest_scoreable(b"xx{\"blob_type\": \"ai_model\", \"content_hash\": \"abc\"}"));
    assert!(!manifest_scoreable(b"{\"blob_type\": \"connector\"}"));
    assert!(!manifest_scoreable(b"\"blob_type\": \"dataset\""));
    assert!(!manifest_scoreable(b"{\"blob_type\": 3}"));
    assert_eq!(manifest_str_field(b"xx{\"content_hash\": \"abc\"}", "content_hash"), Some("abc".to_string()));
    assert!(scoreable_blob_type(&Some("inference_endpoint".to_string())));
    assert!(!scoreable_blob_type(&None));
}

#[test]
fn checked_cycle_test_reports_overflow() {
    assert_eq!(check_comparative_checked(&k(1), &k(2), 100, &[60, 40]), Some(Ok(())));
    assert_eq!(check_comparative_checked(&k(1), &k(2), 100, &[60, 10]), Some(Err(ComparativeError::CycleContradiction)));
    // no cited cycle: nothing is multiplied, whatever the margin
    assert_eq!(check_comparative_checked(&k(1), &k(2), i64::MIN, &[]), Some(Ok(())));
    assert_eq!(check_comparative(&k(1), &k(2), i64::MAX, &[]), Ok(()));
    // self-comparison is refused before any arithmetic
    assert_eq!(check_comparative_checked(&k(1), &k(1), i64::MIN, &[i64::MIN]), Some(Err(ComparativeError::SelfComparison)));
    // margins near 2⁶³ overflow the sign test
    assert_eq!(check_comparative_checked(&k(1), &k(2), i64::MIN, &[i64::MIN]), None);
    assert_eq!(check_comparative_checked(&k(1), &k(2), 1 << 40, &[1 << 40]), Some(Ok(())));
}

#[test]
fn sign_fit_decision() {
    assert!(sign_fits_exact(0, 0));
    assert!(sign_fits_exact(i128::MAX, 0));
    assert!(sign_fits_exact(3, 2));
    assert!(!sign_fits_exact(1, i128::MAX));
    assert!(!sign_fits_exact(1 << 126, -(1 << 63)));
    assert!(!sign_fits_exact(1 << 125, -1));
    assert!(sign_fits_exact(1 << 62, -1));
}

#[test]
fn holonomy_at_extreme_margins() {
    let prefs = vec![(k(1), k(2), i64::MIN), (k(1), k(2), i64::MIN)];
    assert_eq!(holonomy_masses(&prefs), (1i128 << 64, 1i128 << 64));
}
