use toric::curve::expand_credit_supply;
use toric::fibonacci::next_fibonacci;
use toric::ledger::{
    validate, validate_create_account, validate_create_credit_limit, validate_create_network_state,
    validate_create_payment_receipt, validate_create_transaction, validate_link_create,
    credit_limit_reads_anchor, network_state_reads_predecessor, transaction_reads_checkpoint,
    validate_self_index_link, validate_state_anchor_link, validate_tx_link,
    verify_seal, Account,
    AnchorLookup, ChainEntry, CheckpointEntry, CheckpointRecord, CreditLimit, DistributionShare,
    EntryCheck, LedgerOp, LinkTargetRecord, LinkTypes, NetworkState, PaymentReceipt, QuorumSeal,
    Rule, TargetEntry, Transaction, Verdict,
};

fn k(n: u8) -> Vec<u8> {
    vec![n]
}

fn seal(signers: &[u8], sigs: usize) -> QuorumSeal {
    QuorumSeal {
        anchor_state_hash: k(200),
        signers: signers.iter().map(|s| k(*s)).collect(),
        signatures: (0..sigs).map(|i| vec![i as u8]).collect(),
    }
}

fn roster3() -> Vec<Vec<u8>> {
    vec![k(1), k(2), k(3)]
}

fn state(count: u64, threshold: u64, supply: i64, cycle: u64, phase: u8) -> NetworkState {
    NetworkState {
        attestation_count: count,
        next_fibonacci_threshold: threshold,
        credit_supply: supply,
        cycle,
        phase,
        authorized_signers: vec![],
        prev_state_hash: Some(k(100)),
        roster_declared_at: 0,
        seal: None,
    }
}

#[test]
fn seal_of_two_of_three_is_a_quorum() {
    assert_eq!(verify_seal(&seal(&[1, 2], 2), &roster3(), &[true, true]), Verdict::Valid);
}

#[test]
fn seal_rules_each_refuse() {
    assert_eq!(verify_seal(&seal(&[1, 2], 2), &[], &[true, true]), Verdict::Invalid(Rule::SealRosterEmpty));
    assert_eq!(verify_seal(&seal(&[1, 2], 1), &roster3(), &[true, true]), Verdict::Invalid(Rule::SealCountMismatch));
    assert_eq!(verify_seal(&seal(&[1, 1], 2), &roster3(), &[true, true]), Verdict::Invalid(Rule::SealDuplicateSigner));
    assert_eq!(verify_seal(&seal(&[1, 9], 2), &roster3(), &[true, true]), Verdict::Invalid(Rule::SealSignerNotInRoster));
    assert_eq!(verify_seal(&seal(&[1], 1), &roster3(), &[true]), Verdict::Invalid(Rule::SealBelowThreshold));
    assert_eq!(verify_seal(&seal(&[1, 2], 2), &roster3(), &[true, false]), Verdict::Invalid(Rule::SealSignatureFailed));
}

#[test]
fn account_rules() {
    let acct = |agent: u8, limit: i64| Account { agent: k(agent), credit_limit: limit, metadata_blob: vec![] };
    assert_eq!(validate_create_account(&k(1), &acct(1, -377), false), Verdict::Valid);
    assert_eq!(validate_create_account(&k(1), &acct(2, -377), false), Verdict::Invalid(Rule::AccountAgentNotAuthor));
    assert_eq!(validate_create_account(&k(1), &acct(1, -378), false), Verdict::Invalid(Rule::AccountLimitBeyondFloor));
    assert_eq!(validate_create_account(&k(1), &acct(1, 0), true), Verdict::Invalid(Rule::AccountAlreadyExists));
}

fn tx(amount: i64) -> Transaction {
    Transaction {
        from_agent: k(1),
        to_agent: k(2),
        amount,
        checkpoint: Some(k(50)),
        recipient_sig: Some(k(7)),
        metadata_blob: vec![],
    }
}

fn account_record() -> CheckpointRecord {
    CheckpointRecord {
        author: k(1),
        entry: CheckpointEntry::Account(Account { agent: k(1), credit_limit: -377, metadata_blob: vec![] }),
    }
}

#[test]
fn transaction_within_limit_is_valid() {
    let chain = [ChainEntry::Transaction(200), ChainEntry::Other, ChainEntry::Checkpoint];
    // 0 − 200 − 100 = −300 ≥ −377
    assert_eq!(validate_create_transaction(&k(1), &tx(100), &account_record(), &chain, true), Verdict::Valid);
    // at the limit exactly: 0 − 200 − 177 = −377
    assert_eq!(validate_create_transaction(&k(1), &tx(177), &account_record(), &chain, true), Verdict::Valid);
}

#[test]
fn transaction_rules_each_refuse() {
    let chain = [ChainEntry::Transaction(200)];
    let rec = account_record();
    assert_eq!(validate_create_transaction(&k(1), &tx(0), &rec, &chain, true), Verdict::Invalid(Rule::TxNonPositiveAmount));
    assert_eq!(validate_create_transaction(&k(9), &tx(10), &rec, &chain, true), Verdict::Invalid(Rule::TxFromNotAuthor));
    let mut selfpay = tx(10);
    selfpay.to_agent = k(1);
    assert_eq!(validate_create_transaction(&k(1), &selfpay, &rec, &chain, true), Verdict::Invalid(Rule::TxSelfPayment));
    let mut nocp = tx(10);
    nocp.checkpoint = None;
    assert_eq!(validate_create_transaction(&k(1), &nocp, &rec, &chain, true), Verdict::Invalid(Rule::TxMissingCheckpoint));
    let foreign = CheckpointRecord { author: k(3), entry: rec.entry.clone() };
    assert_eq!(validate_create_transaction(&k(1), &tx(10), &foreign, &chain, true), Verdict::Invalid(Rule::TxCheckpointNotOnAuthorChain));
    let empty = CheckpointRecord { author: k(1), entry: CheckpointEntry::NoEntry };
    assert_eq!(validate_create_transaction(&k(1), &tx(10), &empty, &chain, true), Verdict::Invalid(Rule::TxCheckpointNoEntry));
    let other_agent = CheckpointRecord {
        author: k(1),
        entry: CheckpointEntry::Account(Account { agent: k(4), credit_limit: -377, metadata_blob: vec![] }),
    };
    assert_eq!(validate_create_transaction(&k(1), &tx(10), &other_agent, &chain, true), Verdict::Invalid(Rule::TxCheckpointForOtherAgent));
    let wrong = CheckpointRecord { author: k(1), entry: CheckpointEntry::Other };
    assert_eq!(validate_create_transaction(&k(1), &tx(10), &wrong, &chain, true), Verdict::Invalid(Rule::TxCheckpointWrongKind));
    let newer = [ChainEntry::Transaction(1), ChainEntry::CreditLimit];
    assert_eq!(validate_create_transaction(&k(1), &tx(10), &rec, &newer, true), Verdict::Invalid(Rule::TxNewerCreditLimit));
    let overflow = [ChainEntry::Transaction(i64::MAX), ChainEntry::Transaction(1)];
    assert_eq!(validate_create_transaction(&k(1), &tx(10), &rec, &overflow, true), Verdict::Failed(Rule::TxSpendOverflow));
    let min_basis = CheckpointRecord {
        author: k(1),
        entry: CheckpointEntry::CreditLimit(CreditLimit {
            agent: k(1),
            limit: i64::MIN,
            reputation_score: 0,
            attested_balance: i64::MIN + 5,
            cycle: 0,
            seal: None,
            metadata_blob: vec![],
        }),
    };
    assert_eq!(validate_create_transaction(&k(1), &tx(10), &min_basis, &[], true), Verdict::Failed(Rule::TxBalanceUnderflow));
    assert_eq!(validate_create_transaction(&k(1), &tx(178), &rec, &chain, true), Verdict::Invalid(Rule::TxExceedsLimit));
    let mut unsigned = tx(10);
    unsigned.recipient_sig = None;
    assert_eq!(validate_create_transaction(&k(1), &unsigned, &rec, &chain, true), Verdict::Invalid(Rule::TxMissingEndorsement));
    assert_eq!(validate_create_transaction(&k(1), &tx(10), &rec, &chain, false), Verdict::Invalid(Rule::TxEndorsementFailed));
}

fn limit(agent: u8, limit: i64, cycle: u64, sealed: bool) -> CreditLimit {
    CreditLimit {
        agent: k(agent),
        limit,
        reputation_score: if sealed { 500_000 } else { 0 },
        attested_balance: 0,
        cycle,
        seal: if sealed { Some(seal(&[1, 2], 2)) } else { None },
        metadata_blob: vec![],
    }
}

fn anchor(cycle: u64, supply: i64) -> AnchorLookup {
    let mut s = state(30, 34, supply, cycle, 1);
    s.authorized_signers = roster3();
    AnchorLookup::State(s)
}

#[test]
fn credit_limit_rules() {
    let a = anchor(3, 987);
    assert_eq!(validate_create_credit_limit(&k(1), &limit(1, -377, 0, false), &a, &[]), Verdict::Valid);
    assert_eq!(validate_create_credit_limit(&k(2), &limit(1, -377, 0, false), &a, &[]), Verdict::Invalid(Rule::LimitAgentNotAuthor));
    assert_eq!(validate_create_credit_limit(&k(1), &limit(1, -378, 0, false), &a, &[]), Verdict::Invalid(Rule::LimitUnsealedBeyondFreshTerms));
    // sealed: the ceiling over supply 987 is −next_fib(987) = −1597
    assert_eq!(validate_create_credit_limit(&k(1), &limit(1, -1597, 3, true), &a, &[true, true]), Verdict::Valid);
    assert_eq!(validate_create_credit_limit(&k(1), &limit(1, -1598, 3, true), &a, &[true, true]), Verdict::Invalid(Rule::LimitBeyondFibonacciCeiling));
    assert_eq!(validate_create_credit_limit(&k(1), &limit(1, -1000, 4, true), &a, &[true, true]), Verdict::Invalid(Rule::LimitCycleMismatch));
    assert_eq!(validate_create_credit_limit(&k(1), &limit(1, -1000, 3, true), &AnchorLookup::NoEntry, &[true, true]), Verdict::Invalid(Rule::AnchorNoEntry));
    assert_eq!(validate_create_credit_limit(&k(1), &limit(1, -1000, 3, true), &AnchorLookup::NotNetworkState, &[true, true]), Verdict::Invalid(Rule::AnchorNotNetworkState));
    assert_eq!(validate_create_credit_limit(&k(1), &limit(1, -1000, 3, true), &a, &[true, false]), Verdict::Invalid(Rule::SealSignatureFailed));
}

#[test]
fn ceiling_beyond_i64_wraps_like_the_cast() {
    // next_fib of a supply past F(92) is F(93), which the i64 cast wraps:
    // the ceiling becomes 2^64 − F(93), a positive number.
    let a = anchor(3, i64::MAX);
    let wrapped: i128 = (1i128 << 64) - 12200160415121876738i128;
    assert_eq!(validate_create_credit_limit(&k(1), &limit(1, wrapped as i64, 3, true), &a, &[true, true]), Verdict::Valid);
    assert_eq!(validate_create_credit_limit(&k(1), &limit(1, wrapped as i64 - 1, 3, true), &a, &[true, true]), Verdict::Invalid(Rule::LimitBeyondFibonacciCeiling));
}

fn genesis() -> NetworkState {
    NetworkState {
        attestation_count: 1,
        next_fibonacci_threshold: 21,
        credit_supply: 987,
        cycle: 0,
        phase: 0,
        authorized_signers: vec![],
        prev_state_hash: None,
        roster_declared_at: 0,
        seal: None,
    }
}

#[test]
fn network_state_genesis_and_succession() {
    let none = AnchorLookup::NoEntry;
    assert_eq!(validate_create_network_state(&k(1), &genesis(), &none, &None, &[]), Verdict::Valid);
    let mut bad = genesis();
    bad.cycle = 1;
    assert_eq!(validate_create_network_state(&k(1), &bad, &none, &None, &[]), Verdict::Invalid(Rule::StateBadGenesis));
    let mut zero = genesis();
    zero.next_fibonacci_threshold = 0;
    assert_eq!(validate_create_network_state(&k(1), &zero, &none, &None, &[]), Verdict::Invalid(Rule::StateZeroThreshold));
    let mut nonfib = genesis();
    nonfib.next_fibonacci_threshold = 22;
    assert_eq!(validate_create_network_state(&k(1), &nonfib, &none, &None, &[]), Verdict::Invalid(Rule::StateThresholdNotFibonacci));
    let mut poor = genesis();
    poor.credit_supply = 986;
    assert_eq!(validate_create_network_state(&k(1), &poor, &none, &None, &[]), Verdict::Invalid(Rule::StateSupplyBelowGenesis));

    // non-crossing succession
    let prev = AnchorLookup::State(state(5, 21, 987, 0, 0));
    assert_eq!(validate_create_network_state(&k(1), &state(6, 21, 987, 0, 0), &prev, &None, &[]), Verdict::Valid);
    assert_eq!(validate_create_network_state(&k(1), &state(7, 21, 987, 0, 0), &prev, &None, &[]), Verdict::Invalid(Rule::StateBadCountStep));
    assert_eq!(validate_create_network_state(&k(1), &state(6, 21, 988, 0, 0), &prev, &None, &[]), Verdict::Invalid(Rule::StateNonCrossingChanged));

    // crossing at 21: supply ⌊987·φ⌋, threshold next_fib(21) = 34, cycle + 1, phase ≥ 1
    let prev = AnchorLookup::State(state(20, 21, 987, 0, 0));
    let supply = expand_credit_supply(987);
    assert_eq!(supply, 1596);
    assert_eq!(next_fibonacci(21), 34);
    assert_eq!(validate_create_network_state(&k(1), &state(21, 34, supply, 1, 1), &prev, &None, &[]), Verdict::Valid);
    assert_eq!(validate_create_network_state(&k(1), &state(21, 34, 1597, 1, 1), &prev, &None, &[]), Verdict::Invalid(Rule::StateCrossingArithmetic));
    assert_eq!(validate_create_network_state(&k(1), &state(21, 34, supply, 1, 0), &prev, &None, &[]), Verdict::Invalid(Rule::StatePhaseRegression));
    assert_eq!(validate_create_network_state(&k(1), &state(21, 34, supply, 1, 1), &AnchorLookup::NoEntry, &None, &[]), Verdict::Invalid(Rule::AnchorNoEntry));
}

#[test]
fn sovereignty_chain() {
    let prev_state = state(8, 21, 987, 0, 0);
    let prev = AnchorLookup::State(prev_state.clone());
    // rotation that changes nothing
    assert_eq!(validate_create_network_state(&k(1), &state(8, 21, 987, 0, 0), &prev, &None, &[]), Verdict::Invalid(Rule::StateRotationNoop));
    let mut econ = state(8, 21, 1000, 0, 0);
    econ.authorized_signers = roster3();
    assert_eq!(validate_create_network_state(&k(1), &econ, &prev, &None, &[]), Verdict::Invalid(Rule::StateRotationChangesEconomics));
    // first declaration: progenitor-gated
    let mut decl = state(8, 21, 987, 0, 0);
    decl.authorized_signers = roster3();
    assert_eq!(validate_create_network_state(&k(1), &decl, &prev, &None, &[]), Verdict::Valid);
    assert_eq!(validate_create_network_state(&k(1), &decl, &prev, &Some(k(1)), &[]), Verdict::Valid);
    assert_eq!(validate_create_network_state(&k(2), &decl, &prev, &Some(k(1)), &[]), Verdict::Invalid(Rule::StateNotProgenitor));
    let mut sealed_decl = decl.clone();
    sealed_decl.seal = Some(seal(&[1, 2], 2));
    assert_eq!(validate_create_network_state(&k(1), &sealed_decl, &prev, &None, &[true, true]), Verdict::Invalid(Rule::StateSealOnEmptyRoster));
    // governed: sealed by the previous roster, anchored to the predecessor
    let mut governed_prev = state(8, 21, 987, 0, 1);
    governed_prev.authorized_signers = roster3();
    let gp = AnchorLookup::State(governed_prev);
    let mut next = state(9, 21, 987, 0, 1);
    next.authorized_signers = roster3();
    assert_eq!(validate_create_network_state(&k(1), &next, &gp, &None, &[]), Verdict::Invalid(Rule::StateGovernedUnsealed));
    let mut wrong_anchor = next.clone();
    wrong_anchor.seal = Some(seal(&[1, 2], 2));
    assert_eq!(validate_create_network_state(&k(1), &wrong_anchor, &gp, &None, &[true, true]), Verdict::Invalid(Rule::StateSealWrongAnchor));
    let mut sealed = next.clone();
    let mut s = seal(&[1, 2], 2);
    s.anchor_state_hash = k(100);
    sealed.seal = Some(s);
    assert_eq!(validate_create_network_state(&k(1), &sealed, &gp, &None, &[true, true]), Verdict::Valid);
}

fn receipt(dist: Vec<(u8, u64)>) -> PaymentReceipt {
    PaymentReceipt {
        artifact_manifest_hash: k(60),
        rail: "stripe".to_string(),
        external_proof: vec![1, 2, 3],
        amount_external: 500,
        distribution: dist.into_iter().map(|(a, w)| DistributionShare { agent: k(a), weight: w }).collect(),
        seal: seal(&[1, 2], 2),
        metadata_blob: vec![],
    }
}

#[test]
fn payment_receipt_rules() {
    let a = anchor(0, 987);
    assert_eq!(validate_create_payment_receipt(&receipt(vec![(1, 3), (2, 5)]), &a, &[true, true]), Verdict::Valid);
    let mut neg = receipt(vec![(1, 3)]);
    neg.amount_external = 0;
    assert_eq!(validate_create_payment_receipt(&neg, &a, &[true, true]), Verdict::Invalid(Rule::ReceiptNonPositiveAmount));
    let mut norail = receipt(vec![(1, 3)]);
    norail.rail = String::new();
    assert_eq!(validate_create_payment_receipt(&norail, &a, &[true, true]), Verdict::Invalid(Rule::ReceiptNoRail));
    assert_eq!(validate_create_payment_receipt(&receipt(vec![]), &a, &[true, true]), Verdict::Invalid(Rule::ReceiptEmptyDistribution));
    assert_eq!(validate_create_payment_receipt(&receipt(vec![(1, 3), (2, 0)]), &a, &[true, true]), Verdict::Invalid(Rule::ReceiptZeroWeight));
    assert_eq!(validate_create_payment_receipt(&receipt(vec![(1, 3), (1, 4)]), &a, &[true, true]), Verdict::Invalid(Rule::ReceiptDuplicateAgent));
    assert_eq!(validate_create_payment_receipt(&receipt(vec![(1, u64::MAX), (2, 1)]), &a, &[true, true]), Verdict::Invalid(Rule::ReceiptWeightOverflow));
    // no money before sovereignty: an empty anchor roster refuses the seal
    let bare = AnchorLookup::State(state(3, 21, 987, 0, 0));
    assert_eq!(validate_create_payment_receipt(&receipt(vec![(1, 3)]), &bare, &[true, true]), Verdict::Invalid(Rule::SealRosterEmpty));
}

#[test]
fn link_rules() {
    let txrec = Some(LinkTargetRecord { author: k(1), entry: TargetEntry::Transaction(tx(5)) });
    assert_eq!(validate_tx_link(&k(1), &Some(k(2)), &txrec), Verdict::Valid);
    assert_eq!(validate_tx_link(&k(1), &Some(k(1)), &txrec), Verdict::Valid);
    assert_eq!(validate_tx_link(&k(1), &Some(k(3)), &txrec), Verdict::Invalid(Rule::LinkBaseNotParty));
    assert_eq!(validate_tx_link(&k(1), &None, &txrec), Verdict::Invalid(Rule::LinkBaseNotParty));
    assert_eq!(validate_tx_link(&k(2), &Some(k(2)), &txrec), Verdict::Invalid(Rule::LinkNotTargetAuthor));
    assert_eq!(validate_tx_link(&k(1), &Some(k(2)), &None), Verdict::Invalid(Rule::LinkTargetNotAction));
    let empty = Some(LinkTargetRecord { author: k(1), entry: TargetEntry::NoEntry });
    assert_eq!(validate_tx_link(&k(1), &Some(k(2)), &empty), Verdict::Invalid(Rule::LinkTargetNoEntry));
    let other = Some(LinkTargetRecord { author: k(1), entry: TargetEntry::Other });
    assert_eq!(validate_tx_link(&k(1), &Some(k(2)), &other), Verdict::Invalid(Rule::LinkTargetNotTransaction));
    assert_eq!(validate_self_index_link(&k(1), &Some(k(1)), &other), Verdict::Valid);
    assert_eq!(validate_self_index_link(&k(1), &Some(k(2)), &other), Verdict::Invalid(Rule::LinkBaseNotAuthor));
    assert_eq!(validate_state_anchor_link(&k(1), &other), Verdict::Valid);
    assert_eq!(validate_state_anchor_link(&k(2), &other), Verdict::Invalid(Rule::LinkNotTargetAuthor));
    assert_eq!(validate_link_create(LinkTypes::AccountsAnchor, &k(2), &None, &other), Verdict::Invalid(Rule::LinkNotTargetAuthor));
    assert_eq!(validate_link_create(LinkTypes::AgentToCreditLimit, &k(1), &Some(k(1)), &other), Verdict::Valid);
}

#[test]
fn entries_immutable_links_permanent() {
    assert_eq!(validate(&LedgerOp::UpdateEntry), Verdict::Invalid(Rule::EntryImmutable));
    assert_eq!(validate(&LedgerOp::DeleteEntry), Verdict::Invalid(Rule::EntryImmutable));
    assert_eq!(validate(&LedgerOp::DeleteLink), Verdict::Invalid(Rule::LinkPermanent));
    assert_eq!(validate(&LedgerOp::CreateAgent { follows_validation_package: false }), Verdict::Invalid(Rule::AgentPackageMissing));
    assert_eq!(validate(&LedgerOp::CreateAgent { follows_validation_package: true }), Verdict::Valid);
    assert_eq!(validate(&LedgerOp::Other), Verdict::Valid);
    let check = EntryCheck::Account {
        author: k(1),
        account: Account { agent: k(1), credit_limit: -377, metadata_blob: vec![] },
        chain_has_account: false,
    };
    assert_eq!(validate(&LedgerOp::CreateEntry(check)), Verdict::Valid);
    let link = LedgerOp::CreateLink { link_type: LinkTypes::NetworkStateAnchor, author: k(1), base_agent: None, target: None };
    assert_eq!(validate(&link), Verdict::Invalid(Rule::LinkTargetNotAction));
}

#[test]
fn transaction_reads_its_checkpoint_only_past_the_header_rules() {
    assert!(transaction_reads_checkpoint(&k(1), &tx(10)));
    assert!(!transaction_reads_checkpoint(&k(1), &tx(0)));
    assert!(!transaction_reads_checkpoint(&k(9), &tx(10)));
    let mut selfpay = tx(10);
    selfpay.to_agent = k(1);
    assert!(!transaction_reads_checkpoint(&k(1), &selfpay));
    let mut nocp = tx(10);
    nocp.checkpoint = None;
    assert!(!transaction_reads_checkpoint(&k(1), &nocp));
}

#[test]
fn credit_limit_reads_its_anchor_only_when_sealed_and_self_authored() {
    assert!(credit_limit_reads_anchor(&k(1), &limit(1, -1000, 3, true)));
    assert!(!credit_limit_reads_anchor(&k(1), &limit(1, -377, 0, false)));
    assert!(!credit_limit_reads_anchor(&k(2), &limit(1, -1000, 3, true)));
}

#[test]
fn network_state_reads_its_predecessor_only_past_the_shape_rules() {
    assert!(network_state_reads_predecessor(&state(22, 34, 1597, 1, 1)));
    assert!(!network_state_reads_predecessor(&genesis()));
    assert!(!network_state_reads_predecessor(&state(22, 0, 1597, 1, 1)));
    assert!(!network_state_reads_predecessor(&state(22, 35, 1597, 1, 1)));
    assert!(!network_state_reads_predecessor(&state(22, 34, 986, 1, 1)));
}
