//! Exact arithmetic in the golden integers ℤ[φ]: a value is a pair (a, b)
//! standing for a + b·φ with φ = (1 + √5)/2. Every threshold law of the
//! network has the shape ⌊n·φ⁻ᵏ⌋ or ⌈n·φ⁻ᵏ⌉, and n·φ⁻ᵏ always has integer
//! coefficients here, so the law layer runs on integers alone.
use vstd::prelude::*;

verus! {

/// The sign (−1, 0 or 1) of an integer.
pub open spec fn int_sign(x: int) -> int {
    if x > 0 {
        1
    } else if x < 0 {
        -1
    } else {
        0
    }
}

/// The sign of the real number a + b·φ.
///
/// 2·(a + b·φ) = c + b·√5 with c = 2a + b, so the sign is that of c when
/// b = 0, and otherwise follows from comparing c against −b·√5, which is
/// done exactly by comparing c² with 5·b².
pub open spec fn golden_sign(a: int, b: int) -> int {
    let c = 2 * a + b;
    if b == 0 {
        int_sign(a)
    } else if b > 0 {
        if c >= 0 {
            1
        } else {
            int_sign(5 * b * b - c * c)
        }
    } else {
        if c <= 0 {
            -1
        } else {
            int_sign(c * c - 5 * b * b)
        }
    }
}

/// `f` is ⌊a + b·φ⌋: a + b·φ − f is non-negative and a + b·φ − (f + 1) is negative.
pub open spec fn is_golden_floor(a: int, b: int, f: int) -> bool {
    golden_sign(a - f, b) >= 0 && golden_sign(a - f - 1, b) < 0
}

/// The intermediate values of `zphi_sign(a, b)` fit an `i128`.
pub open spec fn sign_fits(a: int, b: int) -> bool {
    b == 0 || (5 * b * b <= i128::MAX && (2 * a + b) * (2 * a + b) <= i128::MAX)
}

/// Whether `zphi_sign(a, b)` can run: decides `sign_fits` exactly.
pub fn sign_fits_exact(a: i128, b: i128) -> (r: bool)
    ensures
        r == sign_fits(a as int, b as int),
{
    if b == 0 {
        return true;
    }
    let bb = match b.checked_mul(b) {
        Some(v) => v,
        None => {
            proof {
                assert(5 * b * b > i128::MAX) by (nonlinear_arith)
                    requires
                        b * b > i128::MAX || b * b < i128::MIN,
                ;
            }
            return false;
        },
    };
    if bb.checked_mul(5).is_none() {
        proof {
            assert(b * b >= 0) by (nonlinear_arith);
            assert(5 * b * b == 5 * (b * b)) by (nonlinear_arith);
        }
        return false;
    }
    proof {
        assert(5 * b * b == 5 * (b * b)) by (nonlinear_arith);
    }
    let c = match a.checked_add(b) {
        Some(ab) => a.checked_add(ab),
        None => None,
    };
    match c {
        Some(c) => {
            proof {
                assert(c * c >= 0) by (nonlinear_arith);
            }
            c.checked_mul(c).is_some()
        },
        None => {
            proof {
                let cc = 2 * a + b;
                assert(cc * cc > i128::MAX) by (nonlinear_arith)
                    requires
                        cc > i128::MAX || cc < i128::MIN,
                ;
            }
            false
        },
    }
}

/// The intermediate values of `zphi_floor(a, b)` fit an `i128`: the search
/// interval [a + 2·min(b, 0) − 2, a + 2·max(b, 0) + 2] and every sign test
/// inside it.
pub open spec fn floor_fits(a: int, b: int) -> bool {
    let m = if b >= 0 { b } else { -b };
    &&& (3 * m + 4) * (3 * m + 4) <= i128::MAX
    &&& i128::MIN <= a - 2 * m - 2
    &&& a + 2 * m + 2 <= i128::MAX
}

/// The sign of a + b·φ only grows with a.
pub proof fn lemma_golden_sign_monotone(x: int, y: int, b: int)
    requires
        x <= y,
    ensures
        golden_sign(x, b) >= 0 ==> golden_sign(y, b) >= 0,
        golden_sign(x, b) > 0 ==> golden_sign(y, b) > 0,
{
    let cx = 2 * x + b;
    let cy = 2 * y + b;
    if b > 0 && cy < 0 {
        assert(cy * cy <= cx * cx) by (nonlinear_arith)
            requires
                cx <= cy,
                cy < 0,
        ;
    }
    if b < 0 && cx > 0 {
        assert(cx * cx <= cy * cy) by (nonlinear_arith)
            requires
                0 < cx <= cy,
        ;
    }
}

/// √5 is irrational: c² = 5·b² has no integer solution with b ≠ 0.
pub proof fn lemma_no_square_five(b: int, c: int)
    requires
        b > 0,
        c >= 0,
    ensures
        c * c != 5 * b * b,
    decreases b,
{
    if c * c != 5 * b * b {
        return;
    }
    let q = c / 5;
    let r = c % 5;
    assert(c == 5 * q + r);
    assert(c * c == 25 * q * q + 10 * q * r + r * r) by (nonlinear_arith)
        requires
            c == 5 * q + r,
    ;
    let k = b * b - 5 * (q * q) - 2 * (q * r);
    assert(r * r == 5 * k) by (nonlinear_arith)
        requires
            c * c == 25 * q * q + 10 * q * r + r * r,
            c * c == 5 * b * b,
            k == b * b - 5 * (q * q) - 2 * (q * r),
    ;
    assert(r == 0) by {
        assert(0 <= r < 5);
        if r == 1 {
            assert(r * r == 1) by (nonlinear_arith)
                requires
                    r == 1,
            ;
        } else if r == 2 {
            assert(r * r == 4) by (nonlinear_arith)
                requires
                    r == 2,
            ;
        } else if r == 3 {
            assert(r * r == 9) by (nonlinear_arith)
                requires
                    r == 3,
            ;
        } else if r == 4 {
            assert(r * r == 16) by (nonlinear_arith)
                requires
                    r == 4,
            ;
        }
    }
    assert(b * b == 5 * q * q) by (nonlinear_arith)
        requires
            c == 5 * q,
            c * c == 5 * b * b,
    ;
    assert(q > 0 && q < b) by (nonlinear_arith)
        requires
            b > 0,
            c == 5 * q,
            c * c == 5 * b * b,
            q >= 0,
    ;
    lemma_no_square_five(q, b);
}

/// a + b·φ is zero only when a = b = 0 (φ is irrational).
pub proof fn lemma_golden_sign_zero(a: int, b: int)
    ensures
        golden_sign(a, b) == 0 <==> (a == 0 && b == 0),
{
    let c = 2 * a + b;
    if b != 0 && golden_sign(a, b) == 0 {
        let bb = if b > 0 { b } else { -b };
        let cc = if c >= 0 { c } else { -c };
        assert(cc * cc == c * c && 5 * bb * bb == 5 * b * b) by (nonlinear_arith)
            requires
                bb == b || bb == -b,
                cc == c || cc == -c,
        ;
        lemma_no_square_five(bb, cc);
    }
}

/// Negating both coefficients negates the sign.
pub proof fn lemma_golden_sign_neg(a: int, b: int)
    ensures
        golden_sign(-a, -b) == -golden_sign(a, b),
{
    assert((2 * (-a) + (-b)) * (2 * (-a) + (-b)) == (2 * a + b) * (2 * a + b)) by (nonlinear_arith);
    assert(5 * (-b) * (-b) == 5 * b * b) by (nonlinear_arith);
}

proof fn lemma_times_phi_pos(a: int, b: int)
    requires
        b > 0,
    ensures
        golden_sign(b, a + b) == golden_sign(a, b),
{
    let x = 2 * a + b;
    let x2 = a + 3 * b;
    let y2 = a + b;
    let n1 = 5 * b * b - x * x;
    let n2 = x2 * x2 - 5 * y2 * y2;
    // 2·φ·(a + bφ) = (a + 3b) + (a + b)·√5, and the norm flips sign.
    assert(n2 == n1) by (nonlinear_arith)
        requires
            x == 2 * a + b,
            x2 == a + 3 * b,
            y2 == a + b,
            n1 == 5 * b * b - x * x,
            n2 == x2 * x2 - 5 * y2 * y2,
    ;
    let lhs = golden_sign(b, y2);
    let rhs = golden_sign(a, b);
    assert(rhs == if x >= 0 { 1 } else { int_sign(n1) });
    if y2 == 0 {
        assert(lhs == 1);
        assert(x == -b);
        assert(n1 > 0) by (nonlinear_arith)
            requires
                x == -b,
                b > 0,
                n1 == 5 * b * b - x * x,
        ;
    } else if y2 > 0 {
        assert(2 * b + y2 == x2);
        assert(x2 > 0);
        assert(lhs == 1);
        if x < 0 {
            assert(n1 > 0) by (nonlinear_arith)
                requires
                    x < 0,
                    x + b > 0,
                    b > 0,
                    n1 == 5 * b * b - x * x,
            ;
        }
    } else {
        assert(2 * b + y2 == x2);
        assert(x < 0);
        if x2 > 0 {
            assert(lhs == int_sign(x2 * x2 - 5 * y2 * y2));
        } else {
            assert(lhs == -1);
            assert(n1 < 0) by (nonlinear_arith)
                requires
                    x <= -5 * b,
                    b > 0,
                    n1 == 5 * b * b - x * x,
            ;
        }
    }
}

/// Multiplying by φ keeps the sign: φ·(a + b·φ) = b + (a + b)·φ, since
/// φ² = φ + 1, and φ > 0.
pub proof fn lemma_golden_sign_times_phi(a: int, b: int)
    ensures
        golden_sign(b, a + b) == golden_sign(a, b),
{
    if b > 0 {
        lemma_times_phi_pos(a, b);
    } else if b < 0 {
        lemma_times_phi_pos(-a, -b);
        lemma_golden_sign_neg(a, b);
        lemma_golden_sign_neg(b, a + b);
        assert(-(a + b) == (-a) + (-b));
    }
}

/// ⌊a + b·φ⌋ is unique.
pub proof fn lemma_golden_floor_unique(a: int, b: int, f: int, g: int)
    requires
        is_golden_floor(a, b, f),
        is_golden_floor(a, b, g),
    ensures
        f == g,
{
    if f < g {
        lemma_golden_sign_monotone(a - g, a - f - 1, b);
    } else if g < f {
        lemma_golden_sign_monotone(a - f, a - g - 1, b);
    }
}

/// Sign of a + b·φ, exact, integers only. Returns -1, 0, or 1.
pub fn zphi_sign(a: i128, b: i128) -> (r: i32)
    requires
        sign_fits(a as int, b as int),
    ensures
        r as int == golden_sign(a as int, b as int),
{
    if b == 0 {
        return if a > 0 {
            1
        } else if a < 0 {
            -1
        } else {
            0
        };
    }
    let ghost c: int = 2 * a + b;
    proof {
        assert(-0x1_0000_0000_0000_0000 < c < 0x1_0000_0000_0000_0000) by (nonlinear_arith)
            requires
                c * c <= i128::MAX,
        ;
        assert(-0x1_0000_0000_0000_0000 < b < 0x1_0000_0000_0000_0000) by (nonlinear_arith)
            requires
                5 * b * b <= i128::MAX,
        ;
        assert((-c) * (-c) == c * c) by (nonlinear_arith);
        assert(5 * b * b >= 0) by (nonlinear_arith);
    }
    let r = -(2 * a + b);
    let lhs = 5 * b * b;
    let rhs = r * r;
    if b > 0 {
        if r <= 0 {
            return 1;
        }
        if lhs > rhs {
            1
        } else if lhs < rhs {
            -1
        } else {
            0
        }
    } else {
        if r >= 0 {
            return -1;
        }
        if lhs > rhs {
            -1
        } else if lhs < rhs {
            1
        } else {
            0
        }
    }
}

/// Exact ⌊a + b·φ⌋ for integer coefficients, by binary search with the
/// exact sign test.
pub fn zphi_floor(a: i128, b: i128) -> (r: i128)
    requires
        floor_fits(a as int, b as int),
    ensures
        is_golden_floor(a as int, b as int, r as int),
{
    let ghost m: int = if b >= 0 { b as int } else { -b };
    let bmin: i128 = if b < 0 { b } else { 0 };
    let bmax: i128 = if b > 0 { b } else { 0 };
    let mut lo: i128 = a + 2 * bmin - 2;
    let mut hi: i128 = a + 2 * bmax + 2;
    proof {
        // a + b·φ − lo = 2 − 2·min(b, 0) + b·φ > 0
        let x = a - lo;
        let cx = 2 * x + b;
        if b < 0 {
            assert(cx * cx > 5 * b * b) by (nonlinear_arith)
                requires
                    b < 0,
                    cx == 4 - 3 * b,
            ;
        }
        // a + b·φ − (hi + 1) = −2·max(b, 0) − 3 + b·φ < 0
        let y = a - hi - 1;
        let cy = 2 * y + b;
        if b > 0 {
            assert(cy * cy > 5 * b * b) by (nonlinear_arith)
                requires
                    b > 0,
                    cy == -3 * b - 6,
            ;
        }
    }
    while lo < hi
        invariant
            a + 2 * bmin - 2 <= lo <= hi <= a + 2 * bmax + 2,
            bmin == (if b < 0 { b } else { 0 }),
            bmax == (if b > 0 { b } else { 0 }),
            m == (if b >= 0 { b as int } else { -b }),
            floor_fits(a as int, b as int),
            golden_sign(a - lo, b as int) >= 0,
            golden_sign(a - hi - 1, b as int) < 0,
        decreases hi - lo,
    {
        proof {
            assert(0 <= m < 0x1_0000_0000_0000_0000) by (nonlinear_arith)
                requires
                    (3 * m + 4) * (3 * m + 4) <= i128::MAX,
                    m >= 0,
            ;
        }
        let mid = lo + (hi - lo + 1) / 2;
        proof {
            let c = 2 * (a - mid) + b;
            assert(-3 * m - 4 <= c <= 3 * m + 4);
            assert(c * c <= (3 * m + 4) * (3 * m + 4)) by (nonlinear_arith)
                requires
                    -3 * m - 4 <= c <= 3 * m + 4,
            ;
            assert(5 * b * b <= (3 * m + 4) * (3 * m + 4)) by (nonlinear_arith)
                requires
                    m == (if b >= 0 { b as int } else { -b }),
            ;
        }
        if zphi_sign(a - mid, b) >= 0 {
            lo = mid;
        } else {
            hi = mid - 1;
        }
    }
    lo
}

/// Exact default credit limit: −⌊supply · φ⁻²⌋ with φ⁻² = 2 − φ, so
/// supply·φ⁻² = 2·supply − supply·φ.
pub fn default_credit_limit_exact(credit_supply: i64) -> (r: i64)
    requires
        floor_fits(2 * (if credit_supply > 0 { credit_supply as int } else { 0 }),
            -(if credit_supply > 0 { credit_supply as int } else { 0 })),
    ensures
        ({
            let n = if credit_supply > 0 { credit_supply as int } else { 0 };
            is_golden_floor(2 * n, -n, -(r as int))
        }),
        r <= 0,
{
    let n: i128 = if credit_supply > 0 { credit_supply as i128 } else { 0 };
    let f = zphi_floor(2 * n, -n);
    proof {
        // 0 ≤ ⌊n·φ⁻²⌋ ≤ n
        if n > 0 {
            assert((2 * (2 * n) + (-n)) * (2 * (2 * n) + (-n)) > 5 * (-n) * (-n)) by (nonlinear_arith)
                requires
                    n > 0,
            ;
            assert(golden_sign(n - 1, -n) < 0) by {
                if n > 2 {
                    assert((2 * (n - 1) + (-n)) * (2 * (n - 1) + (-n)) < 5 * (-n) * (-n))
                        by (nonlinear_arith)
                        requires
                            n > 2,
                    ;
                }
            }
        }
        if f < 0 {
            lemma_golden_sign_monotone(2 * n as int, 2 * n - f - 1, -n as int);
        }
        if f > n {
            lemma_golden_sign_monotone(2 * n - f, n - 1, -n as int);
        }
    }
    -(f as i64)
}

/// Exact seal mass threshold: ⌈mass · φ⁻¹⌉ with φ⁻¹ = φ − 1, so
/// mass·φ⁻¹ = −mass + mass·φ, and ⌈x⌉ = ⌊x⌋ + 1 because x is irrational
/// whenever mass ≠ 0.
pub fn mass_seal_threshold_exact(total_mass: u64) -> (r: u64)
    requires
        floor_fits(-(total_mass as int), total_mass as int),
    ensures
        total_mass == 0 ==> r == 0,
        total_mass > 0 ==> is_golden_floor(-(total_mass as int), total_mass as int, r - 1),
        r <= total_mass,
{
    if total_mass == 0 {
        return 0;
    }
    let n = total_mass as i128;
    let f = zphi_floor(-n, n);
    proof {
        // 0 ≤ ⌊n·φ⁻¹⌋ < n
        assert((2 * (-n) + n) * (2 * (-n) + n) < 5 * n * n) by (nonlinear_arith)
            requires
                n > 0,
        ;
        assert((2 * (-2 * n) + n) * (2 * (-2 * n) + n) > 5 * n * n) by (nonlinear_arith)
            requires
                n > 0,
        ;
        if f < 0 {
            lemma_golden_sign_monotone(-n as int, -n - f - 1, n as int);
        }
        if f > n - 1 {
            lemma_golden_sign_monotone(-n - f, -2 * n, n as int);
        }
    }
    (f + 1) as u64
}

/// Exact drift gate: D = Σ|Δ| / S_ref ≥ φ⁻² ⟺ Σ|Δ| − S_ref·(2 − φ) ≥ 0.
/// No prior mass (S_ref = 0) always writes.
pub fn drift_exceeds_threshold_exact(sum_abs_delta: u64, s_ref: u64) -> (r: bool)
    requires
        sign_fits(sum_abs_delta - 2 * s_ref, s_ref as int),
    ensures
        r == (s_ref == 0 || golden_sign(sum_abs_delta - 2 * s_ref, s_ref as int) >= 0),
{
    if s_ref == 0 {
        return true;
    }
    let s = sum_abs_delta as i128;
    let r = s_ref as i128;
    zphi_sign(s - 2 * r, r) >= 0
}

} // verus!
