use toric::curve::{
    credit_limit_for_reputation, default_credit_limit, expected_supply, iroot5,
    mass_seal_threshold, roster_expired, seal_threshold, threshold_crossed,
    GENESIS_CREDIT_SUPPLY, INV_PHI_DEN, INV_PHI_NUM, INV_PHI_SQ_NUM, SOVEREIGNTY_LEASE_ROUNDS,
    STALENESS_CEILING_ROUNDS,
};
use toric::fibonacci::{is_fibonacci, next_fibonacci, previous_fibonacci};
use toric::golden::{
    default_credit_limit_exact, drift_exceeds_threshold_exact, mass_seal_threshold_exact,
    zphi_floor, zphi_sign,
};
use toric::phifixed::{reputation_recursion_exact, PhiFixed, PHIFIX_SCALE};
use toric::roster::{derive_roster_with_mass, jaccard_counts};

const PHI: f64 = 1.618_033_988_749_895;
const PHI_4: f64 = 6.854_101_966_249_685;
const INV_PHI: f64 = 0.618_033_988_749_895;
const INV_PHI_SQ: f64 = 0.381_966_011_250_105;
const PHI_SQ: f64 = 2.618_033_988_749_895;
const PHI_CU: f64 = 4.236_067_977_499_790;
const INV_PHI_CU: f64 = 0.236_067_977_499_790;
const INV_PHI_4: f64 = 0.145_898_033_750_315;
const DRIFT_THRESHOLD: f64 = INV_PHI_SQ;
const CAPTURE_ALARM: f64 = INV_PHI_CU;
const ADMISSION_GATE_FLOOR: f64 = 1.0 - INV_PHI_CU;
const PROBE_PASS_LINE_DEFAULT: f64 = INV_PHI;

fn k(n: u8) -> Vec<u8> {
    vec![n]
}

#[test]
fn threshold_crossed_semantics() {
    assert!(threshold_crossed(5u64, 5u64));
    assert!(threshold_crossed(6u64, 5u64));
    assert!(!threshold_crossed(4u64, 5u64));
    assert!(threshold_crossed(0.619_f64, INV_PHI));
}

#[test]
fn next_fibonacci_known_values() {
    assert_eq!(next_fibonacci(0), 2);
    assert_eq!(next_fibonacci(1), 2);
    assert_eq!(next_fibonacci(20), 21);
    assert_eq!(next_fibonacci(21), 34);
    assert_eq!(next_fibonacci(610), 987);
    assert_eq!(next_fibonacci(986), 987);
    assert_eq!(next_fibonacci(987), 1597);
}

#[test]
fn previous_fibonacci_known_values() {
    assert_eq!(previous_fibonacci(2), 1);
    assert_eq!(previous_fibonacci(21), 8);
    assert_eq!(previous_fibonacci(22), 13);
    assert_eq!(previous_fibonacci(987), 377);
}

#[test]
fn genesis_credit_supply_is_fibonacci() {
    let supply: u64 = 987;
    assert_eq!(next_fibonacci(supply), 1597);
    assert_eq!(previous_fibonacci(supply), 377);
}

#[test]
fn seal_threshold_is_ceiling_of_inv_phi() {
    for n in 1usize..=987 {
        let expected = ((n as f64) * INV_PHI).ceil() as usize;
        assert_eq!(seal_threshold(n), expected, "n = {}", n);
    }
    assert_eq!(seal_threshold(0), 0);
    assert_eq!(seal_threshold(1), 1);
    assert_eq!(seal_threshold(2), 2);
    assert_eq!(seal_threshold(3), 2);
    assert_eq!(seal_threshold(5), 4);
}

#[test]
fn seal_threshold_is_complement_of_quorum() {
    assert!(((1.0 - INV_PHI_SQ) - INV_PHI).abs() < 1e-12);
    for n in 1usize..=200 {
        let quorum = ((n as f64) * INV_PHI_SQ).ceil() as usize;
        assert!(seal_threshold(n) >= quorum, "n = {}", n);
    }
}

#[test]
fn default_credit_limit_matches_float_and_is_never_looser() {
    for supply in [GENESIS_CREDIT_SUPPLY, 1597, 2584, 4181, 6765] {
        let integer = default_credit_limit(supply);
        let float = -((supply as f64 * INV_PHI_SQ) as i64);
        assert!((integer - float).abs() <= 1, "supply = {}", supply);
        assert!(integer >= float, "supply = {}", supply);
    }
    assert_eq!(default_credit_limit(0), 0);
}

#[test]
fn is_fibonacci_known_values() {
    for f in [1u64, 2, 3, 5, 8, 13, 21, 34, 55, 89, 144, 987, 1597] {
        assert!(is_fibonacci(f), "{} should be Fibonacci", f);
    }
    for n in [0u64, 4, 6, 7, 9, 10, 20, 22, 100, 986, 988] {
        assert!(!is_fibonacci(n), "{} should not be Fibonacci", n);
    }
}

#[test]
fn rational_inv_phi_is_fibonacci_ratio() {
    assert!(is_fibonacci(INV_PHI_NUM));
    assert!(is_fibonacci(INV_PHI_DEN));
    assert_eq!(INV_PHI_DEN, GENESIS_CREDIT_SUPPLY as u64);
    let rational = INV_PHI_NUM as f64 / INV_PHI_DEN as f64;
    assert!((rational - INV_PHI).abs() < 1e-6);
}

#[test]
fn expected_supply_walks_fibonacci_neighborhood() {
    assert_eq!(expected_supply(0), GENESIS_CREDIT_SUPPLY);
    assert_eq!(expected_supply(1), 1596);
    assert_eq!(expected_supply(2), (1596.0 * PHI).floor() as i64);
}

#[test]
fn lease_arithmetic() {
    assert!(!roster_expired(0, 0));
    assert!(!roster_expired(0, SOVEREIGNTY_LEASE_ROUNDS - 1));
    assert!(roster_expired(0, SOVEREIGNTY_LEASE_ROUNDS));
    assert!(roster_expired(5, 5 + SOVEREIGNTY_LEASE_ROUNDS + 100));
    assert!(!roster_expired(100, 50));
}

#[test]
fn era_quantum_convergence() {
    assert_eq!(SOVEREIGNTY_LEASE_ROUNDS, STALENESS_CEILING_ROUNDS);
    assert!(is_fibonacci(SOVEREIGNTY_LEASE_ROUNDS));
    assert_eq!(SOVEREIGNTY_LEASE_ROUNDS, 21);
}

#[test]
fn era_quantum_is_the_partition_cell_count_at_closure_depth() {
    let mut lengths = vec![1u64, 2];
    while *lengths.last().unwrap() < 21 {
        let n = lengths.len();
        lengths.push(lengths[n - 1] + lengths[n - 2]);
    }
    assert_eq!(lengths[6], 21);
    assert_eq!(PHI_4.floor() as usize, 6);
    assert_eq!(STALENESS_CEILING_ROUNDS, 21);
    assert_eq!(SOVEREIGNTY_LEASE_ROUNDS, 21);
}

#[test]
fn mass_threshold_is_integer_phi_inverse() {
    assert_eq!(mass_seal_threshold(0), 0);
    assert_eq!(mass_seal_threshold(987), 610);
    for total in [1u64, 2, 100, 1000, 987_000] {
        let expected = ((total as f64) * INV_PHI).ceil() as u64;
        let got = mass_seal_threshold(total);
        assert!((got as i64 - expected as i64).abs() <= 1, "total = {}", total);
        assert!(got as f64 >= (total as f64) * (INV_PHI - 1e-6));
    }
}

#[test]
fn seat_stuffing_attack_is_dead() {
    let total: u64 = 300 + 20 * 16;
    let threshold = mass_seal_threshold(total);
    assert!(threshold > 20 * 16, "tail seats alone must not seal");
    assert!(300 + 6 * 16 >= threshold, "whale + six smalls suffices");
}

#[test]
fn mass_roster_matches_float_roster_semantics() {
    let scored = vec![(k(1), 50u64), (k(2), 30), (k(3), 15), (k(4), 5)];
    let roster = derive_roster_with_mass(&scored);
    let keys: Vec<Vec<u8>> = roster.iter().map(|(k, _)| k.clone()).collect();
    assert_eq!(keys, vec![k(1), k(2)]);
    assert_eq!(roster[0].1, 50);
    assert!(derive_roster_with_mass(&[]).is_empty());
    assert!(derive_roster_with_mass(&[(k(1), 0)]).is_empty());
}

#[test]
fn whale_veto_is_the_named_cost() {
    let total: u64 = 620;
    let smalls_combined: u64 = 320;
    assert!(smalls_combined < mass_seal_threshold(total));
}

#[test]
fn credit_limit_for_reputation_endpoints_match_the_rationals() {
    for supply in [987i64, 1597, 2584, 10_000] {
        assert_eq!(
            credit_limit_for_reputation(0, supply),
            default_credit_limit(supply),
            "zero-score endpoint must equal default_credit_limit at supply {supply}"
        );
        let full = -((supply as u64 * INV_PHI_NUM / INV_PHI_DEN) as i64);
        let ceiling = -(next_fibonacci(supply as u64) as i64);
        assert_eq!(
            credit_limit_for_reputation(1_000_000, supply),
            full.max(ceiling),
            "full-score endpoint must equal the φ⁻¹ rational at supply {supply}"
        );
    }
}

#[test]
fn credit_limit_for_reputation_is_monotone_and_ceiling_bounded() {
    for supply in [987i64, 1597] {
        let ceiling = -(next_fibonacci(supply as u64) as i64);
        let mut prev = credit_limit_for_reputation(0, supply);
        for s in (0..=1_000_000u32).step_by(2_500) {
            let l = credit_limit_for_reputation(s, supply);
            assert!(l <= prev, "limit must not shrink in magnitude as score rises (s={s})");
            assert!(l >= ceiling, "limit must never exceed the Fibonacci ceiling (s={s})");
            prev = l;
        }
    }
}

#[test]
fn credit_limit_ceiling_wraps_past_the_i64_fibonacci_range() {
    // next_fib(supply) = F(93) exceeds i64::MAX here; the ceiling is its
    // negation after the cast, 2^64 − F(93).
    assert_eq!(credit_limit_for_reputation(0, i64::MAX), 6_246_583_658_587_674_878);
    assert_eq!(credit_limit_for_reputation(1_000_000, 7_540_113_804_746_346_429), 6_246_583_658_587_674_878);
    assert_eq!(credit_limit_for_reputation(0, 7_540_113_804_746_346_428), -2_880_063_732_917_297_470);
}

#[test]
fn credit_limit_for_reputation_tracks_the_old_f64_curve() {
    for supply in [987i64, 1597] {
        let mut max_dev: i64 = 0;
        for s in (0..=1_000_000u32).step_by(1_000) {
            let integer = credit_limit_for_reputation(s, supply);
            let sf = s as f64 / 1_000_000.0;
            let lower = supply as f64 * INV_PHI_SQ;
            let upper = supply as f64 * INV_PHI;
            let t = sf.powf(PHI);
            let float_curve = -((lower + t * (upper - lower)) as i64);
            let ceiling = -(next_fibonacci(supply as u64) as i64);
            let float_clamped = float_curve.max(ceiling);
            max_dev = max_dev.max((integer - float_clamped).abs());
        }
        assert!(
            max_dev <= supply / 89,
            "deviation {max_dev} from the legacy curve exceeds supply/F(11) at supply {supply}"
        );
    }
}

#[test]
fn iroot5_floors_exactly() {
    assert_eq!(iroot5(0), 0);
    assert_eq!(iroot5(1), 1);
    assert_eq!(iroot5(31), 1);
    assert_eq!(iroot5(32), 2);
    assert_eq!(iroot5(33), 2);
    let big: u128 = 987u128.pow(5);
    assert_eq!(iroot5(big), 987);
    assert_eq!(iroot5(big - 1), 986);
}

#[test]
fn sign_test_against_known_values() {
    assert_eq!(zphi_sign(0, 1), 1);
    assert_eq!(zphi_sign(-1, 1), 1);
    assert_eq!(zphi_sign(2, -1), 1);
    assert_eq!(zphi_sign(1, -1), -1);
    assert_eq!(zphi_sign(-2, 1), -1);
    assert_eq!(zphi_sign(0, 0), 0);
    assert_eq!(zphi_sign(1 - 1, 1 - 1), 0);
}

#[test]
fn floor_matches_high_precision() {
    assert_eq!(zphi_floor(0, 1), 1);
    assert_eq!(zphi_floor(0, 2), 3);
    assert_eq!(zphi_floor(0, 10), 16);
    assert_eq!(zphi_floor(5, 0), 5);
    assert_eq!(zphi_floor(0, -1), -2);
}

#[test]
fn convergent_divergence_at_fibonacci_supplies() {
    let diverge = [2584i64, 6765, 17711, 46368, 121393, 317811];
    for &n in &diverge {
        let rational = -((n as u64 * INV_PHI_SQ_NUM / INV_PHI_DEN) as i64);
        let exact = default_credit_limit_exact(n);
        assert_eq!(exact - rational, -1, "supply {}: exact grants 1 more", n);
    }
    for &n in &[987i64, 1597, 4181, 10946, 28657, 75025, 1000, 5000] {
        let rational = -((n as u64 * INV_PHI_SQ_NUM / INV_PHI_DEN) as i64);
        assert_eq!(default_credit_limit_exact(n), rational, "supply {}", n);
    }
}

#[test]
fn exact_seal_threshold_agrees_with_rational_and_float() {
    for m in 1u64..=987 {
        let exact = mass_seal_threshold_exact(m);
        let float = ((m as f64) * INV_PHI).ceil() as u64;
        assert_eq!(exact, float, "mass {}", m);
    }
    assert_eq!(mass_seal_threshold_exact(0), 0);
    assert_eq!(mass_seal_threshold_exact(2), 2);
    assert_eq!(mass_seal_threshold_exact(987), 610);
}

#[test]
fn no_overflow_at_realistic_scales() {
    let big = 1_000_000_000_000u64;
    let t = mass_seal_threshold_exact(big);
    assert!(t > big / 2 && t < big);
}

#[test]
fn field_identities_hold_in_fixed_point() {
    let sq = PhiFixed::phi().mul(PhiFixed::phi());
    let rhs = PhiFixed::phi().add(PhiFixed::one());
    assert!((sq.a - rhs.a).abs() <= 1 && (sq.b - rhs.b).abs() <= 1);
    let one = PhiFixed::phi().mul(PhiFixed::phi().inv());
    assert!((one.a - PHIFIX_SCALE).abs() <= 2 && one.b.abs() <= 2);
    let s = PhiFixed::phi_pow(-1).add(PhiFixed::phi_pow(-2));
    assert_eq!(s, PhiFixed::one());
}

#[test]
fn gate_is_exact_at_the_boundary() {
    let rep = reputation_recursion_exact(&[true, true, false, true, true]);
    assert!(!rep.geq(PhiFixed::phi_pow(-1)));
    let rep2 = reputation_recursion_exact(&[true; 3]);
    assert!(rep2.geq(PhiFixed::phi_pow(-1)));
}

#[test]
fn drift_gate_exact_and_matches_float() {
    for (sum, sref) in [(38u64, 100u64), (382, 1000), (381, 1000), (383, 1000), (0, 100), (5, 0)] {
        let exact = drift_exceeds_threshold_exact(sum, sref);
        let float = sref == 0 || (sum as f64 / sref as f64) >= INV_PHI_SQ;
        assert_eq!(exact, float, "sum={} sref={}", sum, sref);
    }
    assert!(drift_exceeds_threshold_exact(381_966_012, 1_000_000_000));
    assert!(!drift_exceeds_threshold_exact(381_966_011, 1_000_000_000));
}

#[test]
fn determinism_is_replayable() {
    let a = reputation_recursion_exact(&[true, false, true, true, false]);
    let b = reputation_recursion_exact(&[true, false, true, true, false]);
    assert_eq!(a, b);
}

#[test]
fn positive_powers_are_fibonacci_pairs() {
    assert_eq!(PhiFixed::phi_pow(2), PhiFixed { a: PHIFIX_SCALE, b: PHIFIX_SCALE });
    assert_eq!(PhiFixed::phi_pow(3), PhiFixed { a: PHIFIX_SCALE, b: 2 * PHIFIX_SCALE });
    assert_eq!(PhiFixed::phi_pow(4), PhiFixed { a: 2 * PHIFIX_SCALE, b: 3 * PHIFIX_SCALE });
    assert_eq!(PhiFixed::phi_pow(-4), PhiFixed { a: 5 * PHIFIX_SCALE, b: -3 * PHIFIX_SCALE });
}

// The φ identities, in floating point and exactly in ℤ[φ] fixed point.

fn pp(n: i32) -> PhiFixed {
    PhiFixed::phi_pow(n)
}

#[test]
fn phi_identity() {
    let lhs = PHI;
    let rhs = 1.0 + INV_PHI;
    assert!((lhs - rhs).abs() < 1e-12, "φ identity broken: {lhs} ≠ {rhs}");
    assert_eq!(PhiFixed::phi(), PhiFixed::one().add(pp(-1)));
}

#[test]
fn phi_product_identity() {
    assert!((PHI * INV_PHI - 1.0).abs() < 1e-12);
    assert!((PHI_SQ * INV_PHI_SQ - 1.0).abs() < 1e-12);
    assert!((PHI_CU * INV_PHI_CU - 1.0).abs() < 1e-12);
    assert!((PHI_4 * INV_PHI_4 - 1.0).abs() < 1e-12);
    for k in 1..=4 {
        assert_eq!(pp(k).mul(pp(-k)), PhiFixed::one());
    }
}

#[test]
fn phi_power_chain() {
    assert!((PHI_SQ - PHI * PHI).abs() < 1e-10);
    assert!((PHI_CU - PHI * PHI_SQ).abs() < 1e-10);
    assert!((PHI_4 - PHI * PHI_CU).abs() < 1e-10);
    assert_eq!(pp(2), PhiFixed::phi().mul(PhiFixed::phi()));
    assert_eq!(pp(3), PhiFixed::phi().mul(pp(2)));
    assert_eq!(pp(4), PhiFixed::phi().mul(pp(3)));
}

#[test]
fn threshold_is_the_rung_gap() {
    assert!(((1.0 - INV_PHI) - DRIFT_THRESHOLD).abs() < 1e-12);
    assert_eq!(PhiFixed::one().sub(pp(-1)), pp(-2));
}

#[test]
fn golden_partition_of_unity() {
    assert!((INV_PHI + INV_PHI_SQ - 1.0).abs() < 1e-12);
    assert!((INV_PHI_SQ - (INV_PHI_CU + INV_PHI_4)).abs() < 1e-12);
    assert!((INV_PHI - (INV_PHI_SQ + INV_PHI_CU)).abs() < 1e-12);
    assert_eq!(pp(-1).add(pp(-2)), PhiFixed::one());
    assert_eq!(pp(-2), pp(-3).add(pp(-4)));
    assert_eq!(pp(-1), pp(-2).add(pp(-3)));
}

#[test]
fn alarm_margin_is_forced_to_the_negligibility_floor() {
    let margin = INV_PHI_SQ - CAPTURE_ALARM;
    assert!((margin - INV_PHI_4).abs() < 1e-12);
    assert!((ADMISSION_GATE_FLOOR - (INV_PHI + INV_PHI_4)).abs() < 1e-12);
    assert_eq!(INV_PHI_SQ, 1.0 - INV_PHI);
    assert_eq!(pp(-2).sub(pp(-3)), pp(-4));
    assert_eq!(PhiFixed::one().sub(pp(-3)), pp(-1).add(pp(-4)));
}

#[test]
fn trust_recursion_lattice_closure() {
    let a = INV_PHI;
    let amplification = 1.0 / (1.0 - a);
    assert!((amplification - PHI * PHI).abs() < 1e-9);
    let off_lattice: f64 = 1.0 / (1.0 - 0.5);
    assert!((off_lattice - 2.0).abs() < 1e-12);
    assert_eq!(PhiFixed::one().sub(pp(-1)).inv(), pp(2));
}

#[test]
fn probe_2_composition_is_the_rules_best_evidence() {
    let absolute_trigger = INV_PHI * (1.0 - PROBE_PASS_LINE_DEFAULT);
    assert!((absolute_trigger - INV_PHI_CU).abs() < 1e-12);
    assert!((absolute_trigger - CAPTURE_ALARM).abs() < 1e-12);
    assert_eq!(pp(-1).mul(PhiFixed::one().sub(pp(-1))), pp(-3));
}

#[test]
fn phifixed_from_int_scales_the_integer() {
    assert_eq!(PhiFixed::from_int(1), PhiFixed::one());
    assert_eq!(PhiFixed::from_int(-3), PhiFixed { a: -3 * PHIFIX_SCALE, b: 0 });
    assert_eq!(PhiFixed::from_int(2).add(PhiFixed::from_int(5)), PhiFixed::from_int(7));
}

/// The real value of a fixed-point ℤ[φ] number.
fn real_value(x: PhiFixed) -> f64 {
    (x.a as f64 + x.b as f64 * PHI) / PHIFIX_SCALE as f64
}

/// |sym-diff| / |union| from the library's integer counts.
fn jaccard_distance(a: &[Vec<u8>], b: &[Vec<u8>]) -> f64 {
    let (sym_diff, union) = jaccard_counts(a, b);
    if union == 0 {
        0.0
    } else {
        sym_diff as f64 / union as f64
    }
}

#[test]
fn jaccard_distance_cases() {
    assert_eq!(jaccard_distance(&[], &[]), 0.0);
    assert_eq!(jaccard_distance(&[k(1), k(2)], &[k(1), k(2)]), 0.0);
    assert_eq!(jaccard_distance(&[k(1)], &[k(2)]), 1.0);
    let d = jaccard_distance(&[k(1), k(2)], &[k(2), k(3)]);
    assert!((d - 2.0 / 3.0).abs() < 1e-12); // sym-diff 2, union 3
}

const REFS: [(&[bool], f64); 6] = [
    (&[true, true, true], 0.827254248594),
    (&[true, true, false, true, true], 0.614269078628),
    (&[false, false, false, false], 0.035015528100),
    (&[true, false, true, false, true, false, true, false], 0.414780798074),
    (&[true; 13], 0.804669304864),
    (&[false, true, true, false, true, false, true, true], 0.411888914312),
];

#[test]
fn recursion_matches_phicore_reference_vectors() {
    for (events, expected) in REFS {
        let got = real_value(reputation_recursion_exact(events));
        assert!((got - expected).abs() < 1e-6, "{:?}: got {}, phi_core says {}", events, got, expected);
    }
}

#[test]
fn phi_pow_exponent_law() {
    let one = PhiFixed::one();
    assert_eq!(PhiFixed::phi_pow(3).mul(PhiFixed::phi_pow(-5)), PhiFixed::phi_pow(-2));
    assert_eq!(PhiFixed::phi_pow(20).mul(PhiFixed::phi_pow(20)), PhiFixed::phi_pow(40));
    assert_eq!(PhiFixed::phi_pow(-21).mul(PhiFixed::phi_pow(-19)), PhiFixed::phi_pow(-40));
    for n in -40..=40 {
        assert_eq!(PhiFixed::phi_pow(n).mul(PhiFixed::phi_pow(-n)), one, "n = {n}");
        if n <= 38 {
            assert_eq!(PhiFixed::phi_pow(n).add(PhiFixed::phi_pow(n + 1)), PhiFixed::phi_pow(n + 2));
        }
    }
}

#[test]
fn phi_pow_inverse_is_exact() {
    assert_eq!(PhiFixed::phi_pow(1).inv(), PhiFixed { a: -PHIFIX_SCALE, b: PHIFIX_SCALE });
    assert_eq!(PhiFixed::one().inv(), PhiFixed::one());
    for n in -40..=40 {
        assert_eq!(PhiFixed::phi_pow(n).inv(), PhiFixed::phi_pow(-n), "n = {n}");
    }
}

#[test]
fn rational_default_limit_against_exact() {
    let mut supply: i64 = 0;
    while supply <= 2_000_000 {
        let exact = default_credit_limit_exact(supply);
        let rational = default_credit_limit(supply);
        assert!(exact <= rational && rational - 1 <= exact, "supply = {supply}");
        supply += if supply < 5_000 { 1 } else { 997 };
    }
    // far above the range the rational still never grants more
    assert!(default_credit_limit_exact(40_000_000_000) <= default_credit_limit(40_000_000_000));
}

#[test]
fn rational_seal_threshold_against_exact() {
    for m in 1..=987u64 {
        assert_eq!(mass_seal_threshold(m), mass_seal_threshold_exact(m), "m = {m}");
        assert_eq!(seal_threshold(m as usize) as u64, mass_seal_threshold_exact(m));
    }
    let mut m: u64 = 988;
    while m <= 2_000_000 {
        let exact = mass_seal_threshold_exact(m);
        let rational = mass_seal_threshold(m);
        assert!(exact <= rational && rational - 1 <= exact, "m = {m}");
        m += 991;
    }
    assert_eq!(mass_seal_threshold(0), 0);
    assert_eq!(mass_seal_threshold_exact(0), 0);
}

#[test]
fn roster_ignores_input_order() {
    let a = vec![(k(3), 20u64), (k(1), 20), (k(2), 10), (k(4), 50), (k(5), 20)];
    let mut b = a.clone();
    b.reverse();
    let mut c = a.clone();
    c.swap(0, 3);
    let ra = derive_roster_with_mass(&a);
    assert_eq!(ra, derive_roster_with_mass(&b));
    assert_eq!(ra, derive_roster_with_mass(&c));
    // ties by key ascending: 50, then 20s in key order 1, 3
    assert_eq!(ra.iter().map(|(key, _)| key.clone()).collect::<Vec<_>>(), vec![k(4), k(1), k(3)]);
}

#[test]
fn multiplying_by_phi_keeps_the_sign() {
    for (a, b) in [(3i128, -2i128), (-3, 2), (5, -3), (-5, 3), (8, -5), (0, 0), (1, 0), (-1, 0), (0, 1), (7, -4)] {
        assert_eq!(zphi_sign(b, a + b), zphi_sign(a, b), "({a}, {b})");
    }
}
