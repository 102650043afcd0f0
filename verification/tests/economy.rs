use toric::curve::{credit_limit_for_reputation, expand_credit_supply};
use toric::economy::{
    attestation_successor, balance_result, check_endorsement, check_limit_signature,
    attestation_crossed, check_rotation_signature, compute_balance, compute_balance_checked,
    current_credit_limit, declare_roster_state, fresh_attestation_result,
    existing_attestation_result, frozen_fraction_parts, frozen_tally, latest_basis, plan_accession,
    plan_account, plan_limit_refresh, plan_rotation, plan_transaction, sealed_credit_limit,
    sealed_roster_state, unsealed_credit_limit, AccountStanding, EconomyError, LinkTarget,
    TransactionPayload, SEAL_DOMAIN_TRANSACTION,
};
use toric::ledger::{
    validate_create_credit_limit, validate_create_network_state, AnchorLookup, NetworkState, Rule,
    Transaction, Verdict,
};

fn k(n: u8) -> Vec<u8> {
    vec![n]
}

fn state(count: u64, threshold: u64, supply: i64, cycle: u64, phase: u8) -> NetworkState {
    NetworkState {
        attestation_count: count,
        next_fibonacci_threshold: threshold,
        credit_supply: supply,
        cycle,
        phase,
        authorized_signers: vec![],
        prev_state_hash: Some(k(100)),
        roster_declared_at: 0,
        seal: None,
    }
}

fn tx(from: u8, to: u8, amount: i64) -> Transaction {
    Transaction { from_agent: k(from), to_agent: k(to), amount, checkpoint: Some(k(50)), recipient_sig: None, metadata_blob: vec![] }
}

#[test]
fn admission_open_at_genesis_and_gated_after() {
    let a = plan_account(k(1), vec![9], &None).unwrap();
    assert_eq!(a.credit_limit, -377);
    assert_eq!(a.agent, k(1));
    assert!(plan_account(k(1), vec![], &Some(state(1, 2, 987, 0, 0))).is_ok());
    assert!(plan_account(k(1), vec![], &Some(state(13, 21, 987, 1, 1))).is_ok());
    // governed phase, count sitting on the previous Fibonacci number
    assert_eq!(plan_account(k(1), vec![], &Some(state(1, 2, 987, 1, 1))).unwrap_err(), EconomyError::AdmissionGateClosed);
}

#[test]
fn balance_counts_each_transaction_once() {
    let fetched = vec![
        (k(10), Some(tx(1, 2, 100))),
        (k(10), Some(tx(1, 2, 100))),
        (k(11), Some(tx(3, 1, 30))),
        (k(12), None),
        (k(13), Some(tx(2, 3, 5))),
    ];
    assert_eq!(compute_balance(&k(1), &fetched), -70);
    assert_eq!(compute_balance(&k(2), &fetched), 95);
    assert_eq!(compute_balance(&k(3), &fetched), -25);
    assert_eq!(compute_balance(&k(1), &[]), 0);
}

#[test]
fn balance_sums_to_zero_over_the_ledger() {
    let fetched = vec![(k(10), Some(tx(1, 2, 100))), (k(11), Some(tx(3, 1, 30))), (k(13), Some(tx(2, 3, 5)))];
    let total: i64 = [1u8, 2, 3].iter().map(|a| compute_balance(&k(*a), &fetched)).sum();
    assert_eq!(total, 0);
}

#[test]
fn limits_and_freezing() {
    assert_eq!(current_credit_limit(None), -377);
    assert_eq!(current_credit_limit(Some(-1000)), -1000);
    assert!(balance_result(k(1), -377, -377).is_frozen);
    assert!(!balance_result(k(1), -376, -377).is_frozen);
}

#[test]
fn spending_plan() {
    let basis = latest_basis(&Some(LinkTarget::Action(k(20))), &Some(LinkTarget::Action(k(21))));
    assert_eq!(basis, Some(k(20)));
    assert_eq!(latest_basis(&None, &Some(LinkTarget::Action(k(21)))), Some(k(21)));
    assert_eq!(latest_basis(&Some(LinkTarget::Other), &Some(LinkTarget::Action(k(21)))), None);
    assert_eq!(plan_transaction(10, 0, -377, Some(k(20))), Ok(k(20)));
    assert_eq!(plan_transaction(0, 0, -377, Some(k(20))), Err(EconomyError::NonPositiveAmount));
    assert_eq!(plan_transaction(378, 0, -377, Some(k(20))), Err(EconomyError::ExceedsCreditLimit));
    assert_eq!(plan_transaction(10, 0, -377, None), Err(EconomyError::NoBasis));
}

fn payload(amount: i64) -> TransactionPayload {
    TransactionPayload {
        domain: SEAL_DOMAIN_TRANSACTION.to_string(),
        dna_hash: k(77),
        from_agent: k(1),
        to_agent: k(2),
        amount,
        checkpoint: k(20),
    }
}

#[test]
fn endorsement_consent() {
    assert_eq!(check_endorsement(&k(2), &k(77), &payload(10), &Some(k(20)), 0, -377), Ok(()));
    assert_eq!(check_endorsement(&k(3), &k(77), &payload(10), &Some(k(20)), 0, -377), Err(EconomyError::NotAddressedToMe));
    assert_eq!(check_endorsement(&k(2), &k(78), &payload(10), &Some(k(20)), 0, -377), Err(EconomyError::DomainMismatch));
    let mut other_domain = payload(10);
    other_domain.domain = "toric.seal.credit_limit.v1".to_string();
    assert_eq!(check_endorsement(&k(2), &k(77), &other_domain, &Some(k(20)), 0, -377), Err(EconomyError::DomainMismatch));
    assert_eq!(check_endorsement(&k(2), &k(77), &payload(0), &Some(k(20)), 0, -377), Err(EconomyError::NonPositiveAmount));
    assert_eq!(check_endorsement(&k(2), &k(77), &payload(10), &None, 0, -377), Err(EconomyError::NoVisibleBasis));
    assert_eq!(check_endorsement(&k(2), &k(77), &payload(10), &Some(k(21)), 0, -377), Err(EconomyError::StaleCheckpoint));
    assert_eq!(check_endorsement(&k(2), &k(77), &payload(378), &Some(k(20)), 0, -377), Err(EconomyError::SpendOverLimit));
}

#[test]
fn attestation_succession_from_genesis() {
    let g = attestation_successor(&None);
    assert_eq!((g.attestation_count, g.next_fibonacci_threshold, g.credit_supply, g.cycle, g.phase), (1, 21, 987, 0, 0));
    assert!(g.prev_state_hash.is_none());
    // the genesis state passes the ledger rule
    assert_eq!(validate_create_network_state(&k(5), &g, &AnchorLookup::NoEntry, &None, &[]), Verdict::Valid);
    // a plain step
    let s = attestation_successor(&Some((g.clone(), k(40))));
    assert_eq!((s.attestation_count, s.next_fibonacci_threshold, s.credit_supply, s.cycle, s.phase), (2, 21, 987, 0, 0));
    assert_eq!(s.prev_state_hash, Some(k(40)));
    assert_eq!(validate_create_network_state(&k(5), &s, &AnchorLookup::State(g), &None, &[]), Verdict::Valid);
}

#[test]
fn attestation_succession_crosses_at_threshold() {
    let prev = state(20, 21, 987, 0, 0);
    let s = attestation_successor(&Some((prev.clone(), k(41))));
    assert_eq!(s.attestation_count, 21);
    assert_eq!(s.next_fibonacci_threshold, 34);
    assert_eq!(s.credit_supply, expand_credit_supply(987));
    assert_eq!(s.cycle, 1);
    assert_eq!(s.phase, 1);
    assert_eq!(validate_create_network_state(&k(5), &s, &AnchorLookup::State(prev), &None, &[]), Verdict::Valid);
}

#[test]
fn rostered_predecessor_refuses_unsealed_succession() {
    let mut prev = state(8, 21, 987, 0, 1);
    prev.authorized_signers = vec![k(1), k(2)];
    let s = attestation_successor(&Some((prev.clone(), k(42))));
    assert_eq!(validate_create_network_state(&k(5), &s, &AnchorLookup::State(prev), &None, &[]), Verdict::Invalid(Rule::StateGovernedUnsealed));
}

#[test]
fn idempotent_attestation_result() {
    let cur = Some((state(20, 21, 987, 0, 0), k(41)));
    let recorded = vec![(state(20, 21, 987, 0, 0), k(41)), (state(21, 34, 1596, 1, 1), k(43)), (state(21, 21, 987, 0, 0), k(44))];
    let r = existing_attestation_result(&cur, &recorded).unwrap();
    assert_eq!(r.attestation_count, 21);
    assert!(r.threshold_crossed);
    assert_eq!(r.new_credit_supply, Some(1596));
    assert_eq!(r.admission_allowance, None);
    assert_eq!(r.next_threshold, 34);
    assert_eq!(r.network_state_hash, k(43));
    assert!(existing_attestation_result(&cur, &recorded[..1]).is_none());
}

#[test]
fn unsealed_refresh_holds_only_at_fresh_terms() {
    let none = AnchorLookup::NoEntry;
    let cl = unsealed_credit_limit(k(1), 987, vec![]);
    assert_eq!(cl.limit, -377);
    assert_eq!(validate_create_credit_limit(&k(1), &cl, &none, &[]), Verdict::Valid);
    let cl = unsealed_credit_limit(k(1), 1596, vec![]);
    assert_eq!(cl.limit, -609);
    assert_eq!(validate_create_credit_limit(&k(1), &cl, &none, &[]), Verdict::Invalid(Rule::LimitUnsealedBeyondFreshTerms));
}

#[test]
fn sealed_refresh_flow() {
    let mut cur = state(30, 34, 1596, 1, 1);
    cur.authorized_signers = vec![k(1), k(2), k(3)];
    let current = Some((cur.clone(), k(45)));
    let basis = Some((k(46), 500_000u32));
    let p = plan_limit_refresh(&k(7), &k(77), &current, &basis, -20).unwrap();
    assert_eq!(p.limit, credit_limit_for_reputation(500_000, 1596));
    assert_eq!(p.attested_balance, -20);
    assert_eq!(p.cycle, 1);
    assert_eq!(p.reputation_basis, Some(k(46)));
    // an honest member with the same view signs
    assert_eq!(check_limit_signature(&k(77), &p, &current, &basis, -20), Ok(()));
    assert_eq!(check_limit_signature(&k(77), &p, &current, &basis, -21), Err(EconomyError::BalanceMismatch));
    assert_eq!(check_limit_signature(&k(77), &p, &current, &Some((k(47), 500_000)), -20), Err(EconomyError::BasisNotLatest));
    assert_eq!(check_limit_signature(&k(77), &p, &current, &Some((k(46), 400_000)), -20), Err(EconomyError::ScoreMismatch));
    assert_eq!(check_limit_signature(&k(77), &p, &current, &None, -20), Err(EconomyError::NoReputationBasis));
    assert_eq!(check_limit_signature(&k(77), &p, &None, &basis, -20), Err(EconomyError::NoNetworkState));
    assert_eq!(check_limit_signature(&k(78), &p, &current, &basis, -20), Err(EconomyError::DomainMismatch));
    let mut stale = p.clone();
    stale.cycle = 0;
    assert_eq!(check_limit_signature(&k(77), &stale, &current, &basis, -20), Err(EconomyError::NotCurrentAnchor));
    let mut greedy = p.clone();
    greedy.limit -= 1;
    assert_eq!(check_limit_signature(&k(77), &greedy, &current, &basis, -20), Err(EconomyError::LimitNotLaw));
    let mut uncited = p.clone();
    uncited.reputation_basis = None;
    assert_eq!(check_limit_signature(&k(77), &uncited, &current, &basis, -20), Err(EconomyError::BasisNotCited));
    // the committed limit needs nothing from the ledger but its seal
    let cl = sealed_credit_limit(&p, vec![k(1), k(2)], vec![k(8), k(9)], vec![]);
    let anchor = AnchorLookup::State(cur.clone());
    assert_eq!(validate_create_credit_limit(&k(7), &cl, &anchor, &[true, true]), Verdict::Valid);
    assert_eq!(validate_create_credit_limit(&k(7), &cl, &anchor, &[true, false]), Verdict::Invalid(Rule::SealSignatureFailed));
    // refusals
    assert_eq!(plan_limit_refresh(&k(7), &k(77), &None, &basis, 0).unwrap_err(), EconomyError::NoNetworkState);
    assert_eq!(plan_limit_refresh(&k(7), &k(77), &Some((state(3, 21, 987, 0, 0), k(45))), &basis, 0).unwrap_err(), EconomyError::NoRosterDeclared);
    assert_eq!(plan_limit_refresh(&k(7), &k(77), &current, &None, 0).unwrap_err(), EconomyError::NoReputationBasis);
}

#[test]
fn roster_declaration_rotation_accession() {
    let cur = state(8, 21, 987, 0, 1);
    let current = Some((cur.clone(), k(45)));
    let roster = vec![k(1), k(2), k(3)];
    let decl = declare_roster_state(&current, &roster).unwrap();
    assert_eq!(decl.authorized_signers, roster);
    assert_eq!(decl.roster_declared_at, 8);
    assert_eq!(decl.prev_state_hash, Some(k(45)));
    assert_eq!(validate_create_network_state(&k(1), &decl, &AnchorLookup::State(cur.clone()), &Some(k(1)), &[]), Verdict::Valid);
    assert_eq!(validate_create_network_state(&k(2), &decl, &AnchorLookup::State(cur.clone()), &Some(k(1)), &[]), Verdict::Invalid(Rule::StateNotProgenitor));
    assert_eq!(declare_roster_state(&current, &[]).unwrap_err(), EconomyError::DerivedRosterEmpty);
    assert_eq!(declare_roster_state(&None, &roster).unwrap_err(), EconomyError::NoNetworkState);

    let mut sitting = cur.clone();
    sitting.authorized_signers = roster.clone();
    sitting.roster_declared_at = 8;
    let governed = Some((sitting.clone(), k(46)));
    assert_eq!(declare_roster_state(&governed, &roster).unwrap_err(), EconomyError::RosterAlreadyDeclared);
    let fresh = vec![k(2), k(3), k(4)];
    let p = plan_rotation(&k(77), &governed, &fresh).unwrap();
    assert_eq!(p.authorized_signers, fresh);
    assert_eq!(p.roster_declared_at, 8);
    assert_eq!(check_rotation_signature(&k(77), &p, &governed, &fresh), Ok(()));
    assert_eq!(check_rotation_signature(&k(77), &p, &governed, &roster), Err(EconomyError::RosterDiverges));
    assert_eq!(plan_rotation(&k(77), &governed, &roster).unwrap_err(), EconomyError::RosterUnchanged);
    assert_eq!(plan_rotation(&k(77), &current, &fresh).unwrap_err(), EconomyError::NoRosterDeclared);
    let st = sealed_roster_state(&p, vec![k(1), k(2)], vec![k(8), k(9)]);
    let anchor = AnchorLookup::State(sitting.clone());
    assert_eq!(validate_create_network_state(&k(9), &st, &anchor, &None, &[true, true]), Verdict::Valid);
    assert_eq!(validate_create_network_state(&k(9), &st, &anchor, &None, &[false, true]), Verdict::Invalid(Rule::SealSignatureFailed));
    // accession waits for the lease: declared at 8, lease 21
    assert_eq!(plan_accession(&k(77), &governed, &fresh).unwrap_err(), EconomyError::LeaseNotExpired);
    let mut late = sitting.clone();
    late.attestation_count = 29;
    let expired = Some((late, k(47)));
    assert!(plan_accession(&k(77), &expired, &fresh).is_ok());
    assert_eq!(plan_accession(&k(77), &expired, &[]).unwrap_err(), EconomyError::DerivedRosterEmpty);
    assert_eq!(plan_accession(&k(77), &expired, &roster).unwrap_err(), EconomyError::RosterUnchanged);
}

#[test]
fn frozen_tally_counts_mass() {
    let accounts = vec![
        AccountStanding { agent: k(1), balance: -377, credit_limit: -377 },
        AccountStanding { agent: k(2), balance: 10, credit_limit: -377 },
        AccountStanding { agent: k(1), balance: 0, credit_limit: -377 },
        AccountStanding { agent: k(3), balance: -1000, credit_limit: -609 },
    ];
    let t = frozen_tally(&accounts);
    assert_eq!(t.account_count, 3);
    assert_eq!(t.frozen_count, 2);
    assert_eq!(t.frozen_credit_mass, 377 + 609);
    assert_eq!(t.total_credit_mass, 377 + 377 + 609);
    assert_eq!(frozen_fraction_parts(&t), Some((986, 1363)));
    let heads = frozen_tally(&[AccountStanding { agent: k(1), balance: 0, credit_limit: 0 }]);
    assert_eq!(frozen_fraction_parts(&heads), Some((1, 1)));
    assert_eq!(frozen_fraction_parts(&frozen_tally(&[])), None);
    let saturating = frozen_tally(&[
        AccountStanding { agent: k(1), balance: 0, credit_limit: i64::MIN },
        AccountStanding { agent: k(2), balance: 0, credit_limit: i64::MIN },
        AccountStanding { agent: k(3), balance: 0, credit_limit: i64::MIN },
    ]);
    assert_eq!(saturating.total_credit_mass, u64::MAX);
}

#[test]
fn checked_balance_reports_overflow() {
    let fetched = vec![(k(10), Some(tx(1, 2, 100))), (k(11), Some(tx(3, 1, 30))), (k(10), Some(tx(1, 2, 100)))];
    assert_eq!(compute_balance_checked(&k(1), &fetched), Some(-70));
    assert_eq!(compute_balance_checked(&k(2), &fetched), Some(100));
    assert_eq!(compute_balance_checked(&k(4), &fetched), Some(0));
    let big = vec![(k(10), Some(tx(2, 1, i64::MAX))), (k(11), Some(tx(3, 1, 1)))];
    assert_eq!(compute_balance_checked(&k(1), &big), None);
    assert_eq!(compute_balance_checked(&k(2), &big), Some(-i64::MAX));
    let low = vec![(k(10), Some(tx(1, 2, i64::MAX))), (k(11), Some(tx(1, 3, 2)))];
    assert_eq!(compute_balance_checked(&k(1), &low), None);
    // the overflow of a later link is reported even if a later one would bring it back
    let back = vec![(k(10), Some(tx(2, 1, i64::MAX))), (k(11), Some(tx(3, 1, 1))), (k(12), Some(tx(1, 3, 5)))];
    assert_eq!(compute_balance_checked(&k(1), &back), None);
}

#[test]
fn fresh_attestation_report() {
    let cur = Some((state(20, 21, 987, 0, 0), k(41)));
    let next = attestation_successor(&cur);
    assert!(attestation_crossed(&cur, &next));
    let r = fresh_attestation_result(&cur, &next, k(60), Some(7));
    assert_eq!(r.attestation_count, 21);
    assert!(r.threshold_crossed);
    assert_eq!(r.new_credit_supply, Some(1596));
    assert_eq!(r.admission_allowance, Some(7));
    assert_eq!(r.next_threshold, 34);
    assert_eq!(r.network_state_hash, k(60));

    let cur = Some((state(5, 21, 987, 0, 0), k(41)));
    let next = attestation_successor(&cur);
    assert!(!attestation_crossed(&cur, &next));
    let r = fresh_attestation_result(&cur, &next, k(61), Some(7));
    assert_eq!(r.attestation_count, 6);
    assert!(!r.threshold_crossed);
    assert_eq!(r.new_credit_supply, None);
    assert_eq!(r.admission_allowance, None);
    assert_eq!(r.next_threshold, 21);
    assert_eq!(r.network_state_hash, k(61));

    let genesis = attestation_successor(&None);
    assert!(!attestation_crossed(&None, &genesis));
    let r = fresh_attestation_result(&None, &genesis, k(62), None);
    assert_eq!((r.attestation_count, r.threshold_crossed, r.next_threshold), (1, false, 21));
}

#[test]
fn expansion_matches_binary64() {
    for x in [0i64, 1, 987, 1597, 10_000, 9_227_465, 102_334_154, 102_334_155, 4_000_000_000_000_000_000, -987, -1] {
        assert_eq!(expand_credit_supply(x), (x as f64 * 1.618_033_988_749_895).floor() as i64, "x = {x}");
    }
    // at F(40) the rounded product lands on F(41), the real one just below it
    assert_eq!(expand_credit_supply(102_334_155), 165_580_141);
    assert_eq!(expand_credit_supply(987), 1596);
    // beyond i64::MAX / φ the cast saturates
    assert_eq!(expand_credit_supply(i64::MAX), i64::MAX);
    assert_eq!(expand_credit_supply(i64::MIN), i64::MIN);
    // above 2⁵³ the supply itself is rounded first
    let mut x: i64 = 1;
    while x < i64::MAX / 3 {
        for d in [-3i64, -1, 0, 1, 3] {
            let y = x + d;
            assert_eq!(expand_credit_supply(y), (y as f64 * 1.618_033_988_749_895).floor() as i64, "y = {y}");
            assert_eq!(expand_credit_supply(-y), (-y as f64 * 1.618_033_988_749_895).floor() as i64, "y = -{y}");
        }
        x = x * 3 + 1;
    }
}
