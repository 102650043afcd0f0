//! The credit geometry: genesis constants, the default and
//! reputation-interpolated credit limits, seal thresholds, and the
//! Fibonacci expansion of the credit supply.
use vstd::prelude::*;
use crate::fibonacci::{
    fib, is_fib, next_fib, next_fibonacci, is_next_fib_index, next_fib_index,
    lemma_next_fib_index, lemma_fib_monotone, lemma_fib_table, FIB_92, FIB_93,
};
use crate::golden::{golden_sign, is_golden_floor, lemma_golden_sign_monotone};
use vstd::std_specs::cmp::PartialOrdSpec;
use vstd::arithmetic::div_mod::{lemma_div_is_ordered, lemma_div_multiples_vanish};
use vstd::arithmetic::mul::lemma_mul_inequality;

verus! {

/// F(16). Genesis credit supply — the first expansion lands near F(17).
pub const GENESIS_CREDIT_SUPPLY: i64 = 987;

/// F(15). Numerator of the rational φ⁻¹ = 610/987.
pub const INV_PHI_NUM: u64 = 610;

/// F(14). Numerator of the rational φ⁻² = 377/987.
pub const INV_PHI_SQ_NUM: u64 = 377;

/// F(16). Shared denominator of the rational φ powers.
pub const INV_PHI_DEN: u64 = 987;

/// Fixed-point denominator of reputation scores (parts per million).
pub const SCORE_PPM_DENOM: u64 = 1_000_000;

/// Staleness ceiling in rounds: F(8).
pub const STALENESS_CEILING_ROUNDS: u64 = 21;

/// Sovereignty lease in rounds: F(8).
pub const SOVEREIGNTY_LEASE_ROUNDS: u64 = 21;

/// Probe identifiers of the economic domain.
pub const PROBE_SUPPLY_POSITION: u8 = 5;

pub const PROBE_ROSTER_CONFORMANCE: u8 = 6;

pub const PROBE_FROZEN_FRACTION: u8 = 7;

/// Probe 8: holonomy of the comparative-preference graph.
pub const PROBE_HOLONOMY: u8 = 8;

/// A credit supply clamped at zero.
pub open spec fn supply_nat(credit_supply: i64) -> nat {
    if credit_supply > 0 {
        credit_supply as nat
    } else {
        0
    }
}

/// −⌊supply · 377 / 987⌋: the rational φ⁻² share, negated.
pub open spec fn default_limit_spec(credit_supply: i64) -> int {
    -((supply_nat(credit_supply) * 377) / 987)
}

/// Default (unsealed) credit limit for a credit supply: −⌊supply × φ⁻²⌋
/// with the rational φ⁻² = 377/987; truncation never grants more than
/// the real φ⁻² share.
pub fn default_credit_limit(credit_supply: i64) -> (r: i64)
    requires
        supply_nat(credit_supply) * 377 <= u64::MAX,
    ensures
        r == default_limit_spec(credit_supply),
{
    let supply: u64 = if credit_supply > 0 { credit_supply as u64 } else { 0 };
    -((supply * INV_PHI_SQ_NUM / INV_PHI_DEN) as i64)
}

pub open spec fn pow5(x: int) -> int {
    x * x * x * x * x
}

pub open spec fn is_root5(n: int, r: int) -> bool {
    r >= 0 && pow5(r) <= n < pow5(r + 1)
}

/// ⌊n^(1/5)⌋.
pub open spec fn root5(n: int) -> int {
    choose|r: int| is_root5(n, r)
}

/// x⁵ is monotone on the naturals.
pub proof fn lemma_pow5_monotone(x: int, y: int)
    requires
        0 <= x <= y,
    ensures
        0 <= pow5(x) <= pow5(y),
{
    assert(0 <= x * x <= y * y) by (nonlinear_arith)
        requires
            0 <= x <= y,
    ;
    assert(0 <= x * x * x <= y * y * y) by (nonlinear_arith)
        requires
            0 <= x <= y,
            0 <= x * x <= y * y,
    ;
    assert(0 <= x * x * x * x <= y * y * y * y) by (nonlinear_arith)
        requires
            0 <= x <= y,
            0 <= x * x * x <= y * y * y,
    ;
    assert(0 <= x * x * x * x * x <= y * y * y * y * y) by (nonlinear_arith)
        requires
            0 <= x <= y,
            0 <= x * x * x * x <= y * y * y * y,
    ;
}

/// The integer fifth root is the unique r with r⁵ ≤ n < (r+1)⁵.
pub proof fn lemma_root5_is(n: int, r: int)
    requires
        is_root5(n, r),
    ensures
        root5(n) == r,
{
    let c = root5(n);
    assert(is_root5(n, c));
    if c < r {
        lemma_pow5_monotone(c + 1, r);
    } else if r < c {
        lemma_pow5_monotone(r + 1, c);
    }
}

/// x⁵, or `None` when it exceeds `u128`.
fn checked_pow5(x: u128) -> (r: Option<u128>)
    ensures
        r == (if pow5(x as int) <= u128::MAX { Some(pow5(x as int) as u128) } else { None::<u128> }),
{
    proof {
        lemma_pow5_monotone(0, x as int);
        if x >= 1 {
            assert(x * x <= x * x * x * x * x) by (nonlinear_arith)
                requires
                    x >= 1,
            ;
            assert(x * x * x <= x * x * x * x * x) by (nonlinear_arith)
                requires
                    x >= 1,
            ;
            assert(x * x * x * x <= x * x * x * x * x) by (nonlinear_arith)
                requires
                    x >= 1,
            ;
        }
    }
    let x2 = x.checked_mul(x)?;
    let x3 = x2.checked_mul(x)?;
    let x4 = x3.checked_mul(x)?;
    x4.checked_mul(x)
}

/// Integer floor of the 5th root, by binary search.
pub fn iroot5(n: u128) -> (r: u128)
    ensures
        is_root5(n as int, r as int),
{
    if n == 0 {
        return 0;
    }
    let mut lo: u128 = 0;
    let mut hi: u128 = 1 << 26;
    proof {
        assert(1u128 << 26 == 0x400_0000) by (bit_vector);
        assert(pow5(0x400_0001) > u128::MAX);
    }
    while lo < hi
        invariant
            lo <= hi <= 0x400_0000,
            pow5(lo as int) <= n,
            pow5(hi + 1) > n,
        decreases hi - lo,
    {
        let mid = (lo + hi + 1) / 2;
        match checked_pow5(mid) {
            Some(p) => {
                if p <= n {
                    lo = mid;
                } else {
                    hi = mid - 1;
                }
            },
            None => {
                hi = mid - 1;
            },
        }
    }
    lo
}

/// The score rescaled onto the F(16) denominator: s987 ∈ [0, 987].
pub open spec fn score_on_den(score_ppm: u32) -> int {
    let s = if score_ppm <= 1_000_000 { score_ppm as int } else { 1_000_000 };
    s * 987 / 1_000_000
}

pub open spec fn pow8(x: int) -> int {
    (x * x) * (x * x) * ((x * x) * (x * x))
}

/// t987 = 987·(s/987)^(8/5) = ⌊s987⁸ / 987³⌋^(1/5).
pub open spec fn curve_t(score_ppm: u32) -> int {
    root5(pow8(score_on_den(score_ppm)) / (987 * 987 * 987) as int)
}

/// The Fibonacci ceiling on a sealed limit over an anchored supply:
/// −next_fib(max(supply, 0)), negated after the cast to `i64`, so a next
/// Fibonacci number beyond the `i64` range enters modulo 2⁶⁴.
pub open spec fn limit_ceiling(credit_supply: i64) -> int {
    let nf = next_fib(supply_nat(credit_supply)) as int;
    if nf <= i64::MAX {
        -nf
    } else {
        0x1_0000_0000_0000_0000 - nf
    }
}

/// The ceiling of a sealed limit, as the `i64` arithmetic computes it.
pub(crate) fn fibonacci_ceiling(credit_supply: i64) -> (r: i64)
    ensures
        r == limit_ceiling(credit_supply),
{
    let supply: u64 = if credit_supply > 0 { credit_supply as u64 } else { 0 };
    proof {
        assert(supply < FIB_93);
    }
    let nf = next_fibonacci(supply);
    if nf <= i64::MAX as u64 {
        -(nf as i64)
    } else {
        proof {
            lemma_fib_table();
            let k = choose|k: nat| k >= 1 && #[trigger] fib(k) == nf as nat;
            if k <= 92 {
                lemma_fib_monotone(k, 92);
            } else {
                lemma_fib_monotone(93, k);
            }
        }
        let wrapped: i128 = nf as i128 - 0x1_0000_0000_0000_0000i128;
        let neg: i128 = -wrapped;
        assert(0 < neg < 0x8000_0000_0000_0000);
        neg as i64
    }
}

/// The reputation-interpolated limit: −⌊supply·(377·987 + 233·t987)/987²⌋,
/// never below the Fibonacci ceiling `limit_ceiling`.
pub open spec fn credit_limit_spec(score_ppm: u32, credit_supply: i64) -> int {
    let supply = supply_nat(credit_supply);
    let limit = -((supply * (377 * 987 + 233 * curve_t(score_ppm))) / (987 * 987) as int);
    let ceiling = limit_ceiling(credit_supply);
    if limit >= ceiling {
        limit
    } else {
        ceiling
    }
}

/// next_fib(n) ≤ F(j) for every index j ≥ 3 with F(j) > n.
pub proof fn lemma_next_fib_le(n: nat, j: nat)
    requires
        j >= 3,
        fib(j) > n,
    ensures
        next_fib(n) <= fib(j),
        is_next_fib_index(n, next_fib_index(n)),
    decreases j,
{
    lemma_fib_monotone(3, j);
    if j == 3 || fib((j - 1) as nat) <= n {
        lemma_next_fib_index(n, j);
    } else {
        lemma_next_fib_le(n, (j - 1) as nat);
        lemma_fib_monotone((j - 1) as nat, j);
    }
}

/// Reputation-interpolated credit limit — integer-exact, shared by the
/// computing coordinator and the verifying integrity rules.
/// limit(s) = −⌊supply·(φ⁻² + t·(φ⁻¹ − φ⁻²))⌋ with t = s^(8/5) on the F(16)
/// denominator, clamped to the Fibonacci ceiling.
pub fn credit_limit_for_reputation(score_ppm: u32, credit_supply: i64) -> (r: i64)
    ensures
        r == credit_limit_spec(score_ppm, credit_supply),
        r >= limit_ceiling(credit_supply),
        supply_nat(credit_supply) < FIB_92 ==> r <= 0,
{
    let supply: u128 = if credit_supply > 0 { credit_supply as u128 } else { 0 };
    let den: u128 = 987;
    let s_ppm: u128 = if (score_ppm as u64) < SCORE_PPM_DENOM {
        score_ppm as u128
    } else {
        SCORE_PPM_DENOM as u128
    };
    let s987 = s_ppm * den / (SCORE_PPM_DENOM as u128);
    proof {
        assert(s987 <= 987);
        lemma_pow5_monotone(0, s987 as int);
        assert(0 <= s987 * s987 <= 974169) by (nonlinear_arith)
            requires
                0 <= s987 <= 987,
        ;
    }
    let sq = s987 * s987;
    proof {
        assert(0 <= sq * sq <= 974169 * 974169) by (nonlinear_arith)
            requires
                0 <= sq <= 974169,
        ;
    }
    let q4 = sq * sq;
    proof {
        assert(0 <= q4 * q4 <= (974169 * 974169) * (974169 * 974169)) by (nonlinear_arith)
            requires
                0 <= q4 <= 974169 * 974169,
        ;
    }
    let p8 = q4 * q4;
    let den3: u128 = 987 * 987 * 987;
    let t987 = iroot5(p8 / den3);
    proof {
        assert(p8 as int == pow8(s987 as int));
        assert(p8 / den3 <= pow5(987)) by (nonlinear_arith)
            requires
                p8 <= (974169 * 974169) * (974169 * 974169),
                den3 == 961504803,
        ;
        if t987 > 987 {
            lemma_pow5_monotone(988, t987 as int);
        }
        assert(t987 <= 987);
        lemma_root5_is((p8 / den3) as int, t987 as int);
        assert(supply * (377 * 987 + 233 * t987) <= supply * 602070) by (nonlinear_arith)
            requires
                t987 <= 987,
                supply >= 0,
        ;
    }
    let num = supply * (INV_PHI_SQ_NUM as u128 * den + 233 * t987);
    proof {
        assert(num as int / 974169 <= supply) by (nonlinear_arith)
            requires
                num <= supply * 602070,
                supply >= 0,
        ;
    }
    let magnitude = (num / (den * den)) as i64;
    let limit = -magnitude;
    let ceiling = fibonacci_ceiling(credit_supply);
    proof {
        if supply_nat(credit_supply) < FIB_92 {
            lemma_fib_table();
            lemma_next_fib_le(supply as nat, 92);
        }
    }
    if limit >= ceiling {
        limit
    } else {
        ceiling
    }
}

/// Number of roster signatures required to seal a membrane-crossing
/// entry: ⌈roster × 610/987⌉, ceiling division so it never rounds down.
/// Empty roster ⇒ 0 (sealing not yet active).
pub fn seal_threshold(roster_len: usize) -> (r: usize)
    requires
        roster_len * 610 + 986 <= u64::MAX,
    ensures
        r == (roster_len * 610 + 986) / 987,
{
    let n = roster_len as u64;
    ((n * INV_PHI_NUM + INV_PHI_DEN - 1) / INV_PHI_DEN) as usize
}

/// Mass a set of signatures must carry: ⌈total_mass × 610/987⌉.
pub fn mass_seal_threshold(total_mass: u64) -> (r: u64)
    requires
        total_mass * 610 + 986 <= u64::MAX,
    ensures
        r == (total_mass * 610 + 986) / 987,
{
    (total_mass * INV_PHI_NUM + INV_PHI_DEN - 1) / INV_PHI_DEN
}

/// True when `current` has reached or crossed `threshold` (equal counts).
pub fn threshold_crossed<T: PartialOrd>(current: T, threshold: T) -> (r: bool)
    ensures
        T::obeys_partial_cmp_spec() ==> (r <==> current.partial_cmp_spec(&threshold) matches Some(
            core::cmp::Ordering::Greater | core::cmp::Ordering::Equal,
        )),
{
    current >= threshold
}

/// True when a roster declared at round `declared_at` has expired by
/// round `current` (saturating: a declaration in the future is never expired).
pub fn roster_expired(declared_at: u64, current: u64) -> (r: bool)
    ensures
        r == (current >= declared_at && current - declared_at >= SOVEREIGNTY_LEASE_ROUNDS),
{
    current.saturating_sub(declared_at) >= SOVEREIGNTY_LEASE_ROUNDS
}

/// Supply after `cycle` Fibonacci crossings: genesis folded through
/// `expand_spec` (⌊supply × φ⌋ in binary64) per crossing.
pub open spec fn expected_supply_spec(cycle: nat) -> int
    decreases cycle,
{
    if cycle == 0 {
        987
    } else {
        expand_spec(expected_supply_spec((cycle - 1) as nat))
    }
}

/// An integer clamped into the `i64` range (what a saturating cast does).
pub open spec fn clamp_i64(x: int) -> int {
    if x > i64::MAX {
        i64::MAX as int
    } else if x < i64::MIN {
        i64::MIN as int
    } else {
        x
    }
}

/// φ as the nearest binary64 number, 1.618033988749895, is
/// `PHI_BINARY64_SIGNIFICAND` / 2⁵².
pub const PHI_BINARY64_SIGNIFICAND: u128 = 7286977268806824;

/// The spacing of binary64 numbers around `n`: the least power of two p
/// with n < 2⁵³·p (1 below 2⁵³, where every integer is exact).
pub open spec fn ulp_for(n: nat) -> nat
    decreases n,
{
    if n < 0x20_0000_0000_0000 {
        1
    } else {
        2 * ulp_for(n / 2)
    }
}

/// `n` rounded to 53 significant bits, ties to even: the binary64 value
/// nearest to `n`.
pub open spec fn binary64_round(n: nat) -> nat {
    let p = ulp_for(n);
    let q = n / p;
    let r = n % p;
    if p == 1 {
        n
    } else if 2 * r > p || (2 * r == p && q % 2 == 1) {
        (q + 1) * p
    } else {
        q * p
    }
}

/// ⌊x × φ⌋ as binary64 computes it: `x` rounded to binary64, times
/// 1.618033988749895, the product rounded to binary64 (round-to-nearest
/// is symmetric in sign), floored, and cast to `i64` with saturation.
pub open spec fn expand_spec(x: int) -> int {
    let ax: nat = if x >= 0 { x as nat } else { (-x) as nat };
    let prod = binary64_round(binary64_round(ax) * 7286977268806824);
    let f = if x >= 0 {
        (prod / 0x10_0000_0000_0000) as int
    } else {
        -(((prod + 0xF_FFFF_FFFF_FFFF) / 0x10_0000_0000_0000) as int)
    };
    clamp_i64(f)
}

/// The binary64 spacing is a power of two p with n < 2⁵³·p, and p > 1
/// only when n ≥ 2⁵²·p.
pub proof fn lemma_ulp_for(n: nat)
    ensures
        ulp_for(n) >= 1,
        n < 0x20_0000_0000_0000 * ulp_for(n),
        ulp_for(n) == 1 || n >= 0x10_0000_0000_0000 * ulp_for(n),
        (ulp_for(n) == 1) == (n < 0x20_0000_0000_0000),
    decreases n,
{
    if n >= 0x20_0000_0000_0000 {
        lemma_ulp_for(n / 2);
    }
}

/// Rounding to binary64 loses less than one part in 2⁵²:
/// round(n)·(2⁵² + 1) ≥ n·2⁵², and round(n) ≤ 2n.
pub proof fn lemma_binary64_round_bounds(n: nat)
    ensures
        binary64_round(n) * 0x10_0000_0000_0001 >= n * 0x10_0000_0000_0000,
        binary64_round(n) <= 2 * n,
{
    lemma_ulp_for(n);
    let p = ulp_for(n);
    if p > 1 {
        let q = n / p;
        let r = n % p;
        vstd::arithmetic::div_mod::lemma_fundamental_div_mod(n as int, p as int);
        assert(0 <= r < p);
        assert(q >= 0x10_0000_0000_0000) by (nonlinear_arith)
            requires
                n == p * q + r,
                0 <= r < p,
                n >= 0x10_0000_0000_0000 * p,
                p > 1,
        ;
        assert(q * p * 0x10_0000_0000_0001 >= n * 0x10_0000_0000_0000) by (nonlinear_arith)
            requires
                n == p * q + r,
                0 <= r < p,
                q >= 0x10_0000_0000_0000,
                p > 1,
        ;
        assert((q + 1) * p <= 2 * n && q * p <= n) by (nonlinear_arith)
            requires
                n == p * q + r,
                0 <= r < p,
                q >= 1,
        ;
        assert((q + 1) * p * 0x10_0000_0000_0001 >= q * p * 0x10_0000_0000_0001) by (nonlinear_arith)
            requires
                p > 1,
        ;
    }
}

/// An expansion never shrinks a non-negative supply.
pub proof fn lemma_expand_grows(x: int)
    requires
        0 <= x <= i64::MAX,
    ensures
        expand_spec(x) >= x,
{
    let c: int = 0x10_0000_0000_0000;
    let m: int = 7286977268806824;
    let xr = binary64_round(x as nat);
    let prod = binary64_round(xr * 7286977268806824);
    lemma_binary64_round_bounds(x as nat);
    lemma_binary64_round_bounds(xr * 7286977268806824);
    assert(prod >= x * c) by (nonlinear_arith)
        requires
            xr * (c + 1) >= x * c,
            prod * (c + 1) >= xr * m * c,
            c == 0x10_0000_0000_0000,
            m == 7286977268806824,
            x >= 0,
            xr >= 0,
    {
        assert(prod * (c + 1) * (c + 1) >= xr * (c + 1) * m * c);
        assert(xr * (c + 1) * m * c >= x * c * m * c);
        assert(x * c * m * c >= x * c * (c + 1) * (c + 1));
    }
    vstd::arithmetic::div_mod::lemma_div_is_ordered(x * c, prod as int, c);
    vstd::arithmetic::div_mod::lemma_div_multiples_vanish(x, c);
    assert(x * c == c * x) by (nonlinear_arith);
}

/// `n` rounded to binary64 (53 significant bits, ties to even).
fn round_binary64(n: u128) -> (r: u128)
    requires
        n <= 0x40_0000_0000_0000_0000_0000_0000_0000,
    ensures
        r == binary64_round(n as nat),
        r <= 2 * n,
{
    proof {
        lemma_binary64_round_bounds(n as nat);
    }
    let mut p: u128 = 1;
    let mut m: u128 = n;
    while m >= 0x20_0000_0000_0000
        invariant
            n <= 0x40_0000_0000_0000_0000_0000_0000_0000,
            p >= 1,
            m as int == (n as int) / (p as int),
            p * m <= n,
            p * ulp_for(m as nat) == ulp_for(n as nat),
        decreases m,
    {
        proof {
            vstd::arithmetic::div_mod::lemma_div_denominator(n as int, p as int, 2);
            assert(2 * p <= p * m && p * 2 * (m / 2) <= p * m) by (nonlinear_arith)
                requires
                    m >= 0x20_0000_0000_0000,
                    p >= 1,
            ;
            assert(p * ulp_for(m as nat) == (p * 2) * ulp_for((m / 2) as nat)) by (nonlinear_arith)
                requires
                    ulp_for(m as nat) == 2 * ulp_for((m / 2) as nat),
            ;
        }
        m = m / 2;
        p = p * 2;
    }
    proof {
        assert(ulp_for(m as nat) == 1);
    }
    if p == 1 {
        return n;
    }
    let r = n % p;
    proof {
        vstd::arithmetic::div_mod::lemma_fundamental_div_mod(n as int, p as int);
    }
    if 2 * r > p || (2 * r == p && m % 2 == 1) {
        (m + 1) * p
    } else {
        m * p
    }
}

/// One Fibonacci expansion of the credit supply: ⌊supply × φ⌋ exactly as
/// binary64 arithmetic computes `floor(supply as f64 * 1.618033988749895)
/// as i64`, worked out in integers (see `expand_spec`). Rounding aside,
/// this is the exact ⌊supply × φ⌋. At F(40) = 102_334_155 the two part:
/// the rounded product reaches F(41) = 165_580_141 while the real one
/// stays just below it. That they agree on every smaller supply was
/// found by exhaustive search; it is not proved here.
pub fn expand_credit_supply(current: i64) -> (r: i64)
    ensures
        r == expand_spec(current as int),
        current >= 0 ==> r >= current,
{
    proof {
        if current >= 0 {
            lemma_expand_grows(current as int);
        }
    }
    let ax: u128 = if current >= 0 { current as u128 } else { (-(current as i128)) as u128 };
    let xr = round_binary64(ax);
    let prod = round_binary64(xr * PHI_BINARY64_SIGNIFICAND);
    let f: i128 = if current >= 0 {
        (prod / 0x10_0000_0000_0000) as i128
    } else {
        -(((prod + 0xF_FFFF_FFFF_FFFF) / 0x10_0000_0000_0000) as i128)
    };
    if f > i64::MAX as i128 {
        i64::MAX
    } else if f < i64::MIN as i128 {
        i64::MIN
    } else {
        f as i64
    }
}

/// Expected credit supply after `cycle` crossings: genesis folded through
/// ⌊supply × φ⌋ per crossing — the arithmetic integrity enforces per step,
/// replayed from origin.
pub fn expected_supply(cycle: u64) -> (r: i64)
    ensures
        r == expected_supply_spec(cycle as nat),
{
    let mut supply: i64 = GENESIS_CREDIT_SUPPLY;
    let mut i: u64 = 0;
    while i < cycle
        invariant
            i <= cycle,
            supply == expected_supply_spec(i as nat),
            supply >= 987,
        decreases cycle - i,
    {
        supply = expand_credit_supply(supply);
        i = i + 1;
    }
    supply
}

/// x⁵ strictly increases.
pub proof fn lemma_pow5_strict(x: int)
    requires
        x >= 0,
    ensures
        pow5(x) < pow5(x + 1),
{
    lemma_pow5_monotone(x, x + 1);
    let y = x + 1;
    assert(x * x * x * x * x < y * y * y * y * y) by (nonlinear_arith)
        requires
            0 <= x,
            y == x + 1,
    ;
}

/// Every non-negative integer has an integer fifth root.
pub proof fn lemma_root5_exists(n: int)
    requires
        n >= 0,
    ensures
        is_root5(n, root5(n)),
    decreases n,
{
    if n == 0 {
        lemma_root5_is(0, 0);
    } else {
        lemma_root5_exists(n - 1);
        let r = root5(n - 1);
        lemma_pow5_strict(r + 1);
        if pow5(r + 1) <= n {
            lemma_root5_is(n, r + 1);
        } else {
            lemma_root5_is(n, r);
        }
    }
}

/// The fifth root is monotone.
pub proof fn lemma_root5_monotone(n1: int, n2: int)
    requires
        0 <= n1 <= n2,
    ensures
        root5(n1) <= root5(n2),
{
    lemma_root5_exists(n1);
    lemma_root5_exists(n2);
    if root5(n1) > root5(n2) {
        lemma_pow5_monotone(root5(n2) + 1, root5(n1));
    }
}

/// x⁸ is monotone on the naturals.
pub proof fn lemma_pow8_monotone(x: int, y: int)
    requires
        0 <= x <= y,
    ensures
        0 <= pow8(x) <= pow8(y),
{
    assert(0 <= x * x <= y * y) by (nonlinear_arith)
        requires
            0 <= x <= y,
    ;
    let (a, b) = (x * x, y * y);
    assert(0 <= a * a <= b * b) by (nonlinear_arith)
        requires
            0 <= a <= b,
    ;
    let (c, d) = (a * a, b * b);
    assert(0 <= c * c <= d * d) by (nonlinear_arith)
        requires
            0 <= c <= d,
    ;
}

/// next_fib(n) > n for every n.
pub proof fn lemma_next_fib_above(n: nat)
    ensures
        next_fib(n) > n,
        is_next_fib_index(n, next_fib_index(n)),
{
    crate::fibonacci::lemma_fib_ge_index(n + 3);
    lemma_next_fib_le(n, n + 3);
}

/// Zero reputation earns exactly the unsealed default limit, wherever the
/// Fibonacci ceiling is an `i64`.
pub proof fn lemma_credit_limit_zero_score(credit_supply: i64)
    requires
        supply_nat(credit_supply) < FIB_92,
    ensures
        credit_limit_spec(0, credit_supply) == default_limit_spec(credit_supply),
{
    let supply = supply_nat(credit_supply);
    lemma_fib_table();
    lemma_next_fib_le(supply, 92);
    lemma_root5_is(0, 0);
    assert(score_on_den(0) == 0);
    assert(pow8(0) == 0);
    assert(curve_t(0) == 0);
    lemma_div_multiples_vanish((supply * 377) as int, 987);
    assert((supply * 377) * 987 == supply * (377 * 987 + 233 * 0)) by (nonlinear_arith);
    assert(987 * (supply * 377) == (supply * 377) * 987) by (nonlinear_arith);
    assert(((supply * 377) * 987) / (987 * 987) == (supply * 377) / 987) by {
        vstd::arithmetic::div_mod::lemma_div_denominator(((supply * 377) * 987) as int, 987, 987);
        vstd::arithmetic::div_mod::lemma_div_by_multiple((supply * 377) as int, 987);
    }
    lemma_next_fib_above(supply);
    assert((supply * 377) / 987 <= supply) by (nonlinear_arith);
}

/// Full reputation earns exactly −⌊supply · 610/987⌋, the rational φ⁻¹
/// share, clamped by the Fibonacci ceiling.
pub proof fn lemma_credit_limit_full_score(score_ppm: u32, credit_supply: i64)
    requires
        score_ppm >= 1_000_000,
    ensures
        ({
            let supply = supply_nat(credit_supply);
            let full = -((supply * 610) / 987);
            let ceiling = limit_ceiling(credit_supply);
            credit_limit_spec(score_ppm, credit_supply) == if full >= ceiling { full } else { ceiling }
        }),
{
    let supply = supply_nat(credit_supply);
    assert(score_on_den(score_ppm) == 987);
    assert(987 * 987 == 974169);
    assert(974169 * 974169 == 949005240561);
    assert(949005240561 * 949005240561 == 900610946612241479594721);
    assert(pow8(987) == 900610946612241479594721);
    assert(987 * 987 * 987 == 961504803);
    assert(961504803 * 987 == 949005240561);
    assert(949005240561 * 987 == 936668172433707);
    assert(pow5(987) == 936668172433707);
    assert(936668172433707 * 961504803 == 900610946612241479594721);
    assert(pow8(987) / (987 * 987 * 987) as int == pow5(987));
    lemma_root5_exists(pow5(987));
    lemma_pow5_strict(987);
    lemma_root5_is(pow5(987), 987);
    assert(curve_t(score_ppm) == 987);
    assert(supply * (377 * 987 + 233 * 987) == (supply * 610) * 987) by (nonlinear_arith);
    assert(((supply * 610) * 987) / (987 * 987) == (supply * 610) / 987) by {
        vstd::arithmetic::div_mod::lemma_div_denominator(((supply * 610) * 987) as int, 987, 987);
        vstd::arithmetic::div_mod::lemma_div_by_multiple((supply * 610) as int, 987);
    }
}

/// A higher reputation never shrinks the borrowing power: the limit
/// (a negative number) is monotone non-increasing in the score, and it
/// never passes the Fibonacci ceiling.
pub proof fn lemma_credit_limit_monotone(s1: u32, s2: u32, credit_supply: i64)
    requires
        s1 <= s2,
    ensures
        credit_limit_spec(s2, credit_supply) <= credit_limit_spec(s1, credit_supply),
        credit_limit_spec(s2, credit_supply) >= limit_ceiling(credit_supply),
{
    let supply = supply_nat(credit_supply);
    let c1 = if s1 <= 1_000_000 { s1 as int } else { 1_000_000 };
    let c2 = if s2 <= 1_000_000 { s2 as int } else { 1_000_000 };
    lemma_mul_inequality(c1, c2, 987);
    lemma_div_is_ordered(c1 * 987, c2 * 987, 1_000_000);
    let d1 = score_on_den(s1);
    let d2 = score_on_den(s2);
    assert(0 <= d1 <= d2);
    lemma_pow8_monotone(d1, d2);
    lemma_div_is_ordered(pow8(d1), pow8(d2), 961504803);
    lemma_root5_monotone(pow8(d1) / 961504803, pow8(d2) / 961504803);
    lemma_root5_exists(pow8(d1) / 961504803);
    let t1 = curve_t(s1);
    let t2 = curve_t(s2);
    assert(0 <= t1 <= t2);
    assert(supply * (372099 + 233 * t1) <= supply * (372099 + 233 * t2)) by (nonlinear_arith)
        requires
            0 <= t1 <= t2,
            supply >= 0,
    ;
    lemma_div_is_ordered(supply * (372099 + 233 * t1), supply * (372099 + 233 * t2), 974169);
}

/// The rational default limit against the exact one: with `f` = ⌊n·φ⁻²⌋
/// (what `default_credit_limit_exact` returns, negated), the rational
/// −⌊n·377/987⌋ never grants more borrowing power than −f, and up to a
/// supply of 2·10⁶ it grants at most one unit less.
pub proof fn lemma_default_limit_vs_exact(credit_supply: i64, f: int)
    requires
        is_golden_floor(2 * (supply_nat(credit_supply) as int), -(supply_nat(credit_supply) as int), f),
    ensures
        default_limit_spec(credit_supply) >= -f,
        supply_nat(credit_supply) <= 2_000_000 ==> default_limit_spec(credit_supply) - 1 <= -f,
{
    let n = supply_nat(credit_supply) as int;
    let q = (n * 377) / 987;
    assert(987 * q <= 377 * n && 377 * n - 986 <= 987 * q) by (nonlinear_arith)
        requires
            q == (n * 377) / 987,
            n >= 0,
    ;
    assert(default_limit_spec(credit_supply) == -q);
    // n·φ⁻² ≥ q: the rational 377/987 lies below φ⁻².
    if n == 0 {
        assert(golden_sign(2 * n - q, -n) == 0);
    } else {
        let c = 3 * n - 2 * q;
        assert(987 * c >= 2207 * n);
        assert(c * c > 5 * n * n) by (nonlinear_arith)
            requires
                987 * c >= 2207 * n,
                n > 0,
        ;
        assert(2 * (2 * n - q) + (-n) == c);
        assert(5 * (-n) * (-n) == 5 * n * n) by (nonlinear_arith);
        assert(golden_sign(2 * n - q, -n) > 0);
    }
    if q > f {
        lemma_golden_sign_monotone(2 * n - q, 2 * n - f - 1, -n);
    }
    if n <= 2_000_000 {
        // n·φ⁻² < q + 2.
        if n == 0 {
            assert(golden_sign(2 * n - q - 2, -n) < 0);
        } else {
            let c = 3 * n - 2 * q - 4;
            assert(987 * c <= 2207 * n - 1976);
            if c > 0 {
                assert(c * c < 5 * n * n) by (nonlinear_arith)
                    requires
                        0 < 987 * c <= 2207 * n - 1976,
                        1 <= n <= 2_000_000,
                {
                    assert(987 * c * (987 * c) <= (2207 * n - 1976) * (2207 * n - 1976));
                    assert(n * n <= 2_000_000 * n);
                    if n <= 5 {
                        assert(n * n <= 25);
                    }
                }
            }
            assert(2 * (2 * n - q - 2) + (-n) == c);
            assert(5 * (-n) * (-n) == 5 * n * n) by (nonlinear_arith);
            assert(golden_sign(2 * n - q - 2, -n) < 0);
        }
        if f >= q + 2 {
            lemma_golden_sign_monotone(2 * n - f, 2 * n - q - 2, -n);
        }
    }
}

/// The rational seal threshold against the exact one: for m > 0 with
/// `f` = ⌊m·φ⁻¹⌋ (so ⌈m·φ⁻¹⌉ = f + 1 is what `mass_seal_threshold_exact`
/// returns), s = ⌈m·610/987⌉ (what `seal_threshold` and
/// `mass_seal_threshold` return) is never below f + 1, exceeds it by at
/// most one up to m = 2·10⁶, and equals it for rosters of up to 987.
pub proof fn lemma_seal_threshold_vs_exact(m: int, f: int)
    requires
        m > 0,
        is_golden_floor(-m, m, f),
    ensures
        ({
            let s = (m * 610 + 986) / 987;
            &&& s * 987 >= m * 610
            &&& s * 987 < m * 610 + 987
            &&& s >= f + 1
            &&& m <= 2_000_000 ==> s <= f + 2
            &&& m <= 987 ==> s == f + 1
        }),
{
    let s = (m * 610 + 986) / 987;
    assert(987 * s <= 610 * m + 986 && 610 * m <= 987 * s) by (nonlinear_arith)
        requires
            s == (m * 610 + 986) / 987,
            m > 0,
    ;
    // m·φ⁻¹ < s.
    let c = m + 2 * s;
    assert(987 * c >= 2207 * m);
    assert(c * c > 5 * m * m) by (nonlinear_arith)
        requires
            987 * c >= 2207 * m,
            m > 0,
    ;
    assert(2 * (-m - s) + m == -c);
    assert((-c) * (-c) == c * c) by (nonlinear_arith);
    assert(golden_sign(-m - s, m) < 0);
    if f >= s {
        lemma_golden_sign_monotone(-m - f, -m - s, m);
    }
    if m <= 2_000_000 {
        // m·φ⁻¹ ≥ s − 2.
        let c2 = m + 2 * s - 4;
        assert(987 * c2 <= 2207 * m - 1976);
        if c2 > 0 {
            assert(c2 * c2 < 5 * m * m) by (nonlinear_arith)
                requires
                    0 < 987 * c2 <= 2207 * m - 1976,
                    1 <= m <= 2_000_000,
            {
                assert(987 * c2 * (987 * c2) <= (2207 * m - 1976) * (2207 * m - 1976));
                assert(m * m <= 2_000_000 * m);
                if m <= 5 {
                    assert(m * m <= 25);
                }
            }
            assert((-c2) * (-c2) == c2 * c2) by (nonlinear_arith);
        }
        assert(2 * (-m - (s - 2)) + m == -c2);
        assert(golden_sign(-m - (s - 2), m) >= 0);
        if f + 1 <= s - 2 {
            lemma_golden_sign_monotone(-m - (s - 2), -m - f - 1, m);
        }
    }
    if m <= 987 {
        // m·φ⁻¹ ≥ s − 1: no integer lies between m·φ⁻¹ and m·610/987.
        let c3 = m + 2 * s - 2;
        assert(987 * c3 <= 2207 * m - 2);
        if c3 > 0 {
            assert(c3 * c3 < 5 * m * m) by (nonlinear_arith)
                requires
                    0 < 987 * c3 <= 2207 * m - 2,
                    1 <= m <= 987,
            {
                assert(987 * c3 * (987 * c3) <= (2207 * m - 2) * (2207 * m - 2));
                assert(m * m <= 987 * m);
            }
            assert((-c3) * (-c3) == c3 * c3) by (nonlinear_arith);
        }
        assert(2 * (-m - (s - 1)) + m == -c3);
        assert(golden_sign(-m - (s - 1), m) >= 0);
        if f + 1 <= s - 1 {
            lemma_golden_sign_monotone(-m - (s - 1), -m - f - 1, m);
        }
    }
}

} // verus!
