//! Fixed-point ℚ(φ): a value a + b·φ is carried as the integer pair
//! (a, b) scaled by `PHIFIX_SCALE`. Every operation is integer-only, and
//! the per-step rescale is floor division, so every node computes
//! bit-identical pairs.
use vstd::prelude::*;
use crate::fibonacci::{fib, fib_i128, lemma_fib_monotone, lemma_fib_table, lemma_fib_table_high};
use crate::golden::{golden_sign, sign_fits, zphi_sign};

verus! {

pub const PHIFIX_SCALE: i128 = 1_000_000_000;

/// Largest |n| for which φⁿ is representable by `PhiFixed::phi_pow`.
pub const MAX_PHI_POW: i32 = 140;

#[derive(Clone, Copy, Debug, PartialEq, Eq, Structural)]
pub struct PhiFixed {
    pub a: i128,
    pub b: i128,
}

pub open spec fn fits(x: int) -> bool {
    i128::MIN <= x <= i128::MAX
}

pub open spec fn pf(a: int, b: int) -> PhiFixed {
    PhiFixed { a: a as i128, b: b as i128 }
}

pub open spec fn pf_one() -> PhiFixed {
    PhiFixed { a: PHIFIX_SCALE, b: 0 }
}

pub open spec fn pf_phi() -> PhiFixed {
    PhiFixed { a: 0, b: PHIFIX_SCALE }
}

pub open spec fn add_fits(x: PhiFixed, y: PhiFixed) -> bool {
    fits(x.a + y.a) && fits(x.b + y.b)
}

pub open spec fn add_spec(x: PhiFixed, y: PhiFixed) -> PhiFixed {
    pf(x.a + y.a, x.b + y.b)
}

pub open spec fn sub_fits(x: PhiFixed, y: PhiFixed) -> bool {
    fits(x.a - y.a) && fits(x.b - y.b)
}

pub open spec fn sub_spec(x: PhiFixed, y: PhiFixed) -> PhiFixed {
    pf(x.a - y.a, x.b - y.b)
}

/// (a + bφ)(c + dφ) = (ac + bd) + (ad + bc + bd)φ, as φ² = φ + 1; the
/// products are rescaled by floor division.
pub open spec fn mul_fits(x: PhiFixed, y: PhiFixed) -> bool {
    &&& fits(x.a * y.a)
    &&& fits(x.b * y.b)
    &&& fits(x.a * y.b)
    &&& fits(x.b * y.a)
    &&& fits(x.a * y.b + x.b * y.a)
    &&& fits(x.a * y.a + x.b * y.b)
    &&& fits(x.a * y.b + x.b * y.a + x.b * y.b)
}

pub open spec fn mul_spec(x: PhiFixed, y: PhiFixed) -> PhiFixed {
    pf(
        (x.a * y.a + x.b * y.b) / (PHIFIX_SCALE as int),
        (x.a * y.b + x.b * y.a + x.b * y.b) / (PHIFIX_SCALE as int),
    )
}

/// The (scaled) field norm a² + ab − b² of a + bφ.
pub open spec fn norm(x: PhiFixed) -> int {
    x.a * x.a + x.a * x.b - x.b * x.b
}

pub open spec fn inv_fits(x: PhiFixed) -> bool {
    let s = PHIFIX_SCALE as int;
    &&& fits(x.a * x.a)
    &&& fits(x.a * x.b)
    &&& fits(x.b * x.b)
    &&& fits(x.a * x.a + x.a * x.b)
    &&& fits(norm(x))
    &&& norm(x) != 0
    &&& fits(x.a + x.b)
    &&& fits((x.a + x.b) * s)
    &&& fits((x.a + x.b) * s * s)
    &&& fits(-x.b)
    &&& fits(-x.b * s)
    &&& fits(-x.b * s * s)
    &&& fits(((x.a + x.b) * s * s) / norm(x))
    &&& fits((-x.b * s * s) / norm(x))
}

/// x⁻¹ via the Galois conjugate: (a + b − bφ)/N(x), one Euclidean division.
pub open spec fn inv_spec(x: PhiFixed) -> PhiFixed {
    let s = PHIFIX_SCALE as int;
    pf(((x.a + x.b) * s * s) / norm(x), (-x.b * s * s) / norm(x))
}

pub open spec fn abs_int(n: int) -> nat {
    if n >= 0 {
        n as nat
    } else {
        (-n) as nat
    }
}

/// φⁿ = F(n)·φ + F(n−1) and φ⁻ⁿ = (−1)ⁿ·(F(n+1) − F(n)·φ), scaled.
pub open spec fn phi_pow_spec(n: int) -> PhiFixed {
    let m = abs_int(n);
    let s = PHIFIX_SCALE as int;
    if n == 0 {
        pf_one()
    } else if n > 0 {
        pf(fib((m - 1) as nat) * s, fib(m) * s)
    } else if m % 2 == 0 {
        pf(fib(m + 1) * s, -fib(m) * s)
    } else {
        pf(-fib(m + 1) * s, fib(m) * s)
    }
}

pub open spec fn phi_fixed_sign_fits(x: PhiFixed) -> bool {
    sign_fits(x.a as int, x.b as int)
}

/// φⁿ is representable for |n| ≤ 140: F(141)·scale fits an `i128`, F(142)·scale does not.
pub proof fn lemma_phi_pow_range(m: nat)
    requires
        m <= 140,
    ensures
        fib(m + 1) * (PHIFIX_SCALE as int) <= i128::MAX,
        fib(m) * (PHIFIX_SCALE as int) <= i128::MAX,
        fib(m + 1) <= 131151201344081895336534324866,
{
    lemma_fib_table_high();
    lemma_fib_monotone(m + 1, 141);
    if m >= 1 {
        lemma_fib_monotone(m, 141);
    }
}

impl PhiFixed {
    /// 0.
    pub fn zero() -> (r: Self)
        ensures
            r == pf(0, 0),
    {
        PhiFixed { a: 0, b: 0 }
    }

    /// 1.
    pub fn one() -> (r: Self)
        ensures
            r == pf_one(),
    {
        PhiFixed { a: PHIFIX_SCALE, b: 0 }
    }

    /// φ.
    pub fn phi() -> (r: Self)
        ensures
            r == pf_phi(),
    {
        PhiFixed { a: 0, b: PHIFIX_SCALE }
    }

    /// The integer `n`, scaled.
    pub fn from_int(n: i128) -> (r: Self)
        requires
            fits(n * PHIFIX_SCALE),
        ensures
            r == pf(n * PHIFIX_SCALE, 0),
    {
        PhiFixed { a: n * PHIFIX_SCALE, b: 0 }
    }

    /// The sum, or None when a coefficient leaves `i128`.
    pub fn checked_add(self, o: Self) -> (r: Option<Self>)
        ensures
            r == (if add_fits(self, o) { Some(add_spec(self, o)) } else { None::<PhiFixed> }),
    {
        let a = self.a.checked_add(o.a)?;
        let b = self.b.checked_add(o.b)?;
        Some(PhiFixed { a, b })
    }

    /// The sum.
    pub fn add(self, o: Self) -> (r: Self)
        requires
            add_fits(self, o),
        ensures
            r == add_spec(self, o),
    {
        PhiFixed { a: self.a + o.a, b: self.b + o.b }
    }

    /// The difference, or None when a coefficient leaves `i128`.
    pub fn checked_sub(self, o: Self) -> (r: Option<Self>)
        ensures
            r == (if sub_fits(self, o) { Some(sub_spec(self, o)) } else { None::<PhiFixed> }),
    {
        let a = self.a.checked_sub(o.a)?;
        let b = self.b.checked_sub(o.b)?;
        Some(PhiFixed { a, b })
    }

    /// The difference.
    pub fn sub(self, o: Self) -> (r: Self)
        requires
            sub_fits(self, o),
        ensures
            r == sub_spec(self, o),
    {
        PhiFixed { a: self.a - o.a, b: self.b - o.b }
    }

    /// (a+bφ)(c+dφ) = (ac+bd) + (ad+bc+bd)φ, φ² = φ+1, floor-rescaled.
    pub fn checked_mul(self, o: Self) -> (r: Option<Self>)
        ensures
            r == (if mul_fits(self, o) { Some(mul_spec(self, o)) } else { None::<PhiFixed> }),
    {
        let ac = self.a.checked_mul(o.a)?;
        let bd = self.b.checked_mul(o.b)?;
        let ad = self.a.checked_mul(o.b)?;
        let bc = self.b.checked_mul(o.a)?;
        let ad_bc = ad.checked_add(bc)?;
        let sum_a = ac.checked_add(bd)?;
        let sum_b = ad_bc.checked_add(bd)?;
        let a = sum_a.checked_div_euclid(PHIFIX_SCALE)?;
        let b = sum_b.checked_div_euclid(PHIFIX_SCALE)?;
        Some(PhiFixed { a, b })
    }

    /// The product, floor-rescaled.
    pub fn mul(self, o: Self) -> (r: Self)
        requires
            mul_fits(self, o),
        ensures
            r == mul_spec(self, o),
    {
        match self.checked_mul(o) {
            Some(r) => r,
            None => PhiFixed::zero(),
        }
    }

    /// Exact inverse via the Galois conjugate: x⁻¹ = (a+b − bφ)/N(x),
    /// N(x) = a² + ab − b² at full precision, one division.
    pub fn checked_inv(self) -> (r: Option<Self>)
        ensures
            r == (if inv_fits(self) { Some(inv_spec(self)) } else { None::<PhiFixed> }),
    {
        let aa = self.a.checked_mul(self.a)?;
        let ab = self.a.checked_mul(self.b)?;
        let bb = self.b.checked_mul(self.b)?;
        let s1 = aa.checked_add(ab)?;
        let nrm = s1.checked_sub(bb)?;
        if nrm == 0 {
            return None;
        }
        let apb = self.a.checked_add(self.b)?;
        let x1 = apb.checked_mul(PHIFIX_SCALE)?;
        let x2 = x1.checked_mul(PHIFIX_SCALE)?;
        let nb = 0i128.checked_sub(self.b)?;
        let y1 = nb.checked_mul(PHIFIX_SCALE)?;
        let y2 = y1.checked_mul(PHIFIX_SCALE)?;
        let a = x2.checked_div_euclid(nrm)?;
        let b = y2.checked_div_euclid(nrm)?;
        Some(PhiFixed { a, b })
    }

    /// The inverse.
    pub fn inv(self) -> (r: Self)
        requires
            inv_fits(self),
        ensures
            r == inv_spec(self),
    {
        match self.checked_inv() {
            Some(r) => r,
            None => PhiFixed::zero(),
        }
    }

    /// φⁿ exactly: φⁿ = F(n)φ + F(n−1); φ⁻ⁿ = (−1)ⁿ(F(n+1) − F(n)φ).
    pub fn phi_pow(n: i32) -> (r: Self)
        requires
            -MAX_PHI_POW <= n <= MAX_PHI_POW,
        ensures
            r == phi_pow_spec(n as int),
    {
        if n == 0 {
            return PhiFixed::one();
        }
        let m: u64 = if n > 0 { n as u64 } else { (-(n as i64)) as u64 };
        proof {
            lemma_phi_pow_range(m as nat);
            lemma_fib_monotone(m as nat + 1, m as nat + 2);
            assert(fib(m as nat + 2) == fib(m as nat) + fib(m as nat + 1));
            lemma_fib_monotone(1, m as nat);
        }
        let fm = fib_i128(m);
        let fm1 = fib_i128(m + 1);
        if n > 0 {
            proof {
                reveal_with_fuel(fib, 2);
                if m >= 2 {
                    lemma_fib_monotone((m - 1) as nat, m as nat);
                }
            }
            let fp = fib_i128(m - 1);
            proof {
                assert(fp <= fm);
            }
            PhiFixed { a: fp * PHIFIX_SCALE, b: fm * PHIFIX_SCALE }
        } else {
            if m % 2 == 0 {
                PhiFixed { a: fm1 * PHIFIX_SCALE, b: -(fm * PHIFIX_SCALE) }
            } else {
                PhiFixed { a: -(fm1 * PHIFIX_SCALE), b: fm * PHIFIX_SCALE }
            }
        }
    }

    /// Exact sign of the real value; the scale cancels.
    pub fn sign(self) -> (r: i32)
        requires
            phi_fixed_sign_fits(self),
        ensures
            r as int == golden_sign(self.a as int, self.b as int),
    {
        zphi_sign(self.a, self.b)
    }

    /// Whether this value is at least `o`, decided exactly.
    pub fn geq(self, o: Self) -> (r: bool)
        requires
            sub_fits(self, o),
            phi_fixed_sign_fits(sub_spec(self, o)),
        ensures
            r == (golden_sign(self.a - o.a, self.b - o.b) >= 0),
    {
        self.sub(o).sign() >= 0
    }
}


proof fn lemma_partition_positive(m: nat)
    requires
        2 <= m <= 139,
    ensures
        add_fits(phi_pow_spec(m - 1), phi_pow_spec(m as int)),
        add_spec(phi_pow_spec(m - 1), phi_pow_spec(m as int)) == phi_pow_spec(m + 1 as int),
{
    let s = PHIFIX_SCALE as int;
    reveal_with_fuel(fib, 2);
    lemma_phi_pow_range(m + 1);
    lemma_fib_monotone(1, m + 1);
    assert(fib(m + 1) == fib((m - 1) as nat) + fib(m));
    assert(fib(m) == fib((m - 2) as nat) + fib((m - 1) as nat));
    lemma_fib_monotone((m - 1) as nat, m + 1);
    assert(phi_pow_spec(m - 1) == pf(fib((m - 2) as nat) * s, fib((m - 1) as nat) * s));
    assert(phi_pow_spec(m as int) == pf(fib((m - 1) as nat) * s, fib(m) * s));
    assert(phi_pow_spec(m + 1 as int) == pf(fib(m) * s, fib(m + 1) * s));
}

proof fn lemma_partition_negative(m: nat)
    requires
        2 <= m <= 139,
    ensures
        add_fits(phi_pow_spec(-(m as int) - 1), phi_pow_spec(-(m as int))),
        add_spec(phi_pow_spec(-(m as int) - 1), phi_pow_spec(-(m as int))) == phi_pow_spec(-(m as int) + 1),
{
    let s = PHIFIX_SCALE as int;
    reveal_with_fuel(fib, 2);
    lemma_phi_pow_range(m + 1);
    lemma_fib_monotone(1, m + 2);
    assert(fib(m + 2) == fib(m) + fib(m + 1));
    assert(fib(m + 1) == fib((m - 1) as nat) + fib(m));
    lemma_fib_monotone(m, m + 2);
    lemma_fib_monotone((m - 1) as nat, m + 2);
    assert(abs_int(-(m as int) - 1) == m + 1);
    assert(abs_int(-(m as int)) == m);
    assert(abs_int(-(m as int) + 1) == m - 1);
    if m % 2 == 0 {
        assert(phi_pow_spec(-(m as int)) == pf(fib(m + 1) * s, -fib(m) * s));
        assert(phi_pow_spec(-(m as int) - 1) == pf(-fib(m + 2) * s, fib(m + 1) * s));
        assert(phi_pow_spec(-(m as int) + 1) == pf(-fib(m) * s, fib((m - 1) as nat) * s));
    } else {
        assert(phi_pow_spec(-(m as int)) == pf(-fib(m + 1) * s, fib(m) * s));
        assert(phi_pow_spec(-(m as int) - 1) == pf(fib(m + 2) * s, -fib(m + 1) * s));
        assert(phi_pow_spec(-(m as int) + 1) == pf(fib(m) * s, -fib((m - 1) as nat) * s));
    }
}

/// The golden partition, exactly: φⁿ⁻¹ + φⁿ = φⁿ⁺¹ for every representable
/// power (at n = −1 it reads φ⁻² + φ⁻¹ = 1).
pub proof fn lemma_phi_pow_partition(n: int)
    requires
        -139 <= n <= 139,
    ensures
        add_fits(phi_pow_spec(n - 1), phi_pow_spec(n)),
        add_spec(phi_pow_spec(n - 1), phi_pow_spec(n)) == phi_pow_spec(n + 1),
{
    reveal_with_fuel(fib, 4);
    if n >= 2 {
        lemma_partition_positive(n as nat);
    } else if n <= -2 {
        lemma_partition_negative((-n) as nat);
    }
}

/// Weight of the i-th event (0-based): φ^−(i+1) / (φ·(1 − φ^−N)), given the
/// inverted denominator.
pub open spec fn rec_weight(i: int, dinv: PhiFixed) -> PhiFixed {
    mul_spec(phi_pow_spec(-(i + 1)), dinv)
}

/// One event of the decay recursion: an attestation pulls toward 1, a
/// warrant pushes toward 0 with φ amplification.
pub open spec fn rec_step(rep: PhiFixed, w: PhiFixed, attestation: bool) -> PhiFixed {
    if attestation {
        add_spec(rep, mul_spec(sub_spec(pf_one(), rep), w))
    } else {
        sub_spec(rep, mul_spec(mul_spec(rep, w), pf_phi()))
    }
}

pub open spec fn rec_step_fits(rep: PhiFixed, w: PhiFixed, attestation: bool) -> bool {
    if attestation {
        &&& sub_fits(pf_one(), rep)
        &&& mul_fits(sub_spec(pf_one(), rep), w)
        &&& add_fits(rep, mul_spec(sub_spec(pf_one(), rep), w))
    } else {
        &&& mul_fits(rep, w)
        &&& mul_fits(mul_spec(rep, w), pf_phi())
        &&& sub_fits(rep, mul_spec(mul_spec(rep, w), pf_phi()))
    }
}

/// The reputation after the first k events, starting from φ⁻².
pub open spec fn rec_state(events: Seq<bool>, dinv: PhiFixed, k: nat) -> PhiFixed
    decreases k,
{
    if k == 0 {
        phi_pow_spec(-2)
    } else {
        rec_step(
            rec_state(events, dinv, (k - 1) as nat),
            rec_weight(k - 1, dinv),
            events[k - 1],
        )
    }
}

/// Every operation of the first k events stays inside `i128`.
pub open spec fn rec_steps_fit(events: Seq<bool>, dinv: PhiFixed, k: nat) -> bool
    decreases k,
{
    if k == 0 {
        true
    } else {
        &&& rec_steps_fit(events, dinv, (k - 1) as nat)
        &&& mul_fits(phi_pow_spec(-(k as int)), dinv)
        &&& rec_step_fits(
            rec_state(events, dinv, (k - 1) as nat),
            rec_weight(k - 1, dinv),
            events[k - 1],
        )
    }
}

/// φ − φ^(1−N) = φ·(1 − φ^−N).
pub open spec fn rec_denominator(n: int) -> PhiFixed {
    sub_spec(pf_phi(), phi_pow_spec(1 - n))
}

/// The recursion over `events` runs without overflowing `i128`.
pub open spec fn recursion_fits(events: Seq<bool>) -> bool {
    let n = events.len() as int;
    n == 0 || {
        &&& n <= MAX_PHI_POW
        &&& sub_fits(pf_phi(), phi_pow_spec(1 - n))
        &&& inv_fits(rec_denominator(n))
        &&& rec_steps_fit(events, inv_spec(rec_denominator(n)), events.len())
    }
}

/// The reputation decay recursion over a time-ordered event list
/// (true = attestation, false = warrant).
pub open spec fn reputation_recursion(events: Seq<bool>) -> PhiFixed {
    let n = events.len() as int;
    if n == 0 {
        phi_pow_spec(-2)
    } else {
        rec_state(events, inv_spec(rec_denominator(n)), events.len())
    }
}

/// The recursion's steps fit `i128` on every prefix of a sequence on which they fit.
pub proof fn lemma_rec_steps_fit_prefix(events: Seq<bool>, dinv: PhiFixed, j: nat, k: nat)
    requires
        j <= k,
        rec_steps_fit(events, dinv, k),
    ensures
        rec_steps_fit(events, dinv, j),
    decreases k - j,
{
    if j < k {
        lemma_rec_steps_fit_prefix(events, dinv, j, (k - 1) as nat);
    }
}

/// The reputation recursion, or `None` exactly when one of its integer
/// operations would overflow.
pub fn reputation_recursion_checked(events: &[bool]) -> (r: Option<PhiFixed>)
    ensures
        r == (if recursion_fits(events@) {
            Some(reputation_recursion(events@))
        } else {
            None::<PhiFixed>
        }),
{
    let n = events.len();
    if n == 0 {
        return Some(PhiFixed::phi_pow(-2));
    }
    if n > 140 {
        return None;
    }
    let n_total = n as i32;
    let denom = PhiFixed::phi().checked_sub(PhiFixed::phi_pow(1 - n_total))?;
    let dinv = denom.checked_inv()?;
    let mut rep = PhiFixed::phi_pow(-2);
    let mut i: usize = 0;
    while i < n
        invariant
            0 < n <= 140,
            n == events@.len(),
            i <= n,
            n_total as int == n as int,
            denom == rec_denominator(n as int),
            inv_fits(denom),
            dinv == inv_spec(denom),
            sub_fits(pf_phi(), phi_pow_spec(1 - n as int)),
            rep == rec_state(events@, dinv, i as nat),
            rec_steps_fit(events@, dinv, i as nat),
        decreases n - i,
    {
        let ghost prev = rep;
        let pw = PhiFixed::phi_pow(-(i as i32 + 1));
        let wo = pw.checked_mul(dinv);
        if wo.is_none() {
            proof {
                if recursion_fits(events@) {
                    lemma_rec_steps_fit_prefix(events@, dinv, i as nat + 1, n as nat);
                }
            }
            return None;
        }
        let w = wo.unwrap();
        let step = if events[i] {
            match PhiFixed::one().checked_sub(rep) {
                Some(d) => match d.checked_mul(w) {
                    Some(t) => rep.checked_add(t),
                    None => None,
                },
                None => None,
            }
        } else {
            match rep.checked_mul(w) {
                Some(t) => match t.checked_mul(PhiFixed::phi()) {
                    Some(t2) => rep.checked_sub(t2),
                    None => None,
                },
                None => None,
            }
        };
        match step {
            Some(next) => {
                rep = next;
            },
            None => {
                proof {
                    if recursion_fits(events@) {
                        lemma_rec_steps_fit_prefix(events@, dinv, i as nat + 1, n as nat);
                    }
                }
                return None;
            },
        }
        i = i + 1;
    }
    Some(rep)
}

/// The reputation decay recursion, exact: start at φ⁻²; the i-th event
/// carries weight φ⁻ⁱ / (φ·(1 − φ⁻ᴺ)); an attestation pulls toward 1, a
/// warrant pushes toward 0 with φ amplification. Every node computes the
/// identical (a, b) pair.
pub fn reputation_recursion_exact(events: &[bool]) -> (r: PhiFixed)
    requires
        recursion_fits(events@),
    ensures
        r == reputation_recursion(events@),
{
    match reputation_recursion_checked(events) {
        Some(r) => r,
        None => PhiFixed::zero(),
    }
}

/// Integer coefficients (a, b) of φⁿ = a + b·φ, for every integer n.
pub open spec fn phi_pow_coef(n: int) -> (int, int) {
    let m = abs_int(n);
    if n == 0 {
        (1, 0)
    } else if n > 0 {
        (fib((m - 1) as nat) as int, fib(m) as int)
    } else if m % 2 == 0 {
        (fib(m + 1) as int, -fib(m))
    } else {
        (-fib(m + 1), fib(m) as int)
    }
}

/// The product in ℤ[φ]: (a + bφ)(c + dφ) = (ac + bd) + (ad + bc + bd)φ.
pub open spec fn zphi_mul(x: (int, int), y: (int, int)) -> (int, int) {
    (x.0 * y.0 + x.1 * y.1, x.0 * y.1 + x.1 * y.0 + x.1 * y.1)
}

/// The field norm a² + ab − b² in ℤ[φ].
pub open spec fn zphi_norm(x: (int, int)) -> int {
    x.0 * x.0 + x.0 * x.1 - x.1 * x.1
}

/// (−1)ⁿ.
pub open spec fn neg_one_pow(n: int) -> int {
    if n % 2 == 0 {
        1
    } else {
        -1
    }
}

/// Multiplication by φ: φ·(a + bφ) = b + (a + b)φ.
pub open spec fn times_phi(x: (int, int)) -> (int, int) {
    (x.1, x.0 + x.1)
}

/// The scaled φⁿ carries the integer coefficients of φⁿ.
pub proof fn lemma_phi_pow_coef_scaled(n: int)
    ensures
        phi_pow_spec(n) == pf(phi_pow_coef(n).0 * (PHIFIX_SCALE as int), phi_pow_coef(n).1 * (PHIFIX_SCALE as int)),
{
}

/// φⁿ⁺¹ = φ·φⁿ on the coefficients, for every integer n.
pub proof fn lemma_phi_pow_coef_shift(n: int)
    ensures
        phi_pow_coef(n + 1) == times_phi(phi_pow_coef(n)),
{
    if n >= 1 {
        assert(abs_int(n) == n);
        assert(abs_int(n + 1) == n + 1);
        assert(fib((n + 1) as nat) == fib((n - 1) as nat) + fib(n as nat));
    } else if n == 0 {
        reveal_with_fuel(fib, 2);
    } else if n == -1 {
        reveal_with_fuel(fib, 3);
        assert(abs_int(n) == 1);
    } else {
        let m = -n;
        assert(abs_int(n) == m);
        assert(abs_int(n + 1) == m - 1);
        assert(fib((m + 1) as nat) == fib((m - 1) as nat) + fib(m as nat));
    }
}

/// Multiplying by φ commutes with a product: x·(y·φ) = (x·y)·φ.
pub proof fn lemma_zphi_mul_times_phi(x: (int, int), y: (int, int))
    ensures
        zphi_mul(x, times_phi(y)) == times_phi(zphi_mul(x, y)),
{
    let (a, b) = x;
    let (c, d) = y;
    assert(a * d + b * (c + d) == a * d + b * c + b * d) by (nonlinear_arith);
    assert(a * (c + d) + b * d + b * (c + d) == (a * c + b * d) + (a * d + b * c + b * d))
        by (nonlinear_arith);
}

/// The exponent law on coefficients: φⁿ · φᵏ = φⁿ⁺ᵏ for all integers n, k.
pub proof fn lemma_phi_pow_coef_mul(n: int, k: int)
    ensures
        zphi_mul(phi_pow_coef(n), phi_pow_coef(k)) == phi_pow_coef(n + k),
    decreases abs_int(k),
{
    let x = phi_pow_coef(n);
    if k == 0 {
        assert(x.0 * 1 + x.1 * 0 == x.0 && x.0 * 0 + x.1 * 1 + x.1 * 0 == x.1) by (nonlinear_arith);
    } else if k > 0 {
        lemma_phi_pow_coef_mul(n, k - 1);
        lemma_phi_pow_coef_shift(k - 1);
        lemma_phi_pow_coef_shift(n + k - 1);
        lemma_zphi_mul_times_phi(x, phi_pow_coef(k - 1));
    } else {
        lemma_phi_pow_coef_mul(n, k + 1);
        lemma_phi_pow_coef_shift(k);
        lemma_phi_pow_coef_shift(n + k);
        lemma_zphi_mul_times_phi(x, phi_pow_coef(k));
    }
}

/// Multiplying by φ flips the sign of the norm (N(φ) = −1).
proof fn lemma_norm_times_phi(x: (int, int))
    ensures
        zphi_norm(times_phi(x)) == -zphi_norm(x),
{
    let a = x.0;
    let b = x.1;
    assert(b * b + b * (a + b) - (a + b) * (a + b) == -(a * a + a * b - b * b)) by (nonlinear_arith);
}

/// N(φⁿ) = (−1)ⁿ, Cassini's identity in ℤ[φ].
pub proof fn lemma_phi_pow_coef_norm(n: int)
    ensures
        zphi_norm(phi_pow_coef(n)) == neg_one_pow(n),
    decreases abs_int(n),
{
    if n > 0 {
        lemma_phi_pow_coef_norm(n - 1);
        lemma_phi_pow_coef_shift(n - 1);
        lemma_norm_times_phi(phi_pow_coef(n - 1));
        assert(neg_one_pow(n) == -neg_one_pow(n - 1));
    } else if n < 0 {
        lemma_phi_pow_coef_norm(n + 1);
        lemma_phi_pow_coef_shift(n);
        lemma_norm_times_phi(phi_pow_coef(n));
        assert(neg_one_pow(n + 1) == -neg_one_pow(n));
    } else {
        assert(zphi_norm((1int, 0int)) == 1) by (nonlinear_arith);
    }
}

/// φ⁻ⁿ on the coefficients is the conjugate formula ((a + b)·N, −b·N)
/// with N = N(φⁿ) = (−1)ⁿ.
pub proof fn lemma_phi_pow_coef_inverse(n: int)
    ensures
        ({
            let (a, b) = phi_pow_coef(n);
            let nn = neg_one_pow(n);
            phi_pow_coef(-n) == ((a + b) * nn, -b * nn)
        }),
{
    let m = abs_int(n);
    let (a, b) = phi_pow_coef(n);
    let fp = fib((m - 1) as nat) as int;
    let f = fib(m) as int;
    let f1 = fib(m + 1) as int;
    if n > 0 {
        assert(m == n && abs_int(-n) == m);
        assert(f1 == fp + f);
        assert(a == fp && b == f);
        if n % 2 == 0 {
            assert(neg_one_pow(n) == 1);
            assert(phi_pow_coef(-n) == (f1, -f));
            assert((a + b) * 1 == f1 && -b * 1 == -f);
        } else {
            assert(neg_one_pow(n) == -1);
            assert(phi_pow_coef(-n) == (-f1, f));
            assert((a + b) * -1 == -f1 && -b * -1 == f);
        }
    } else if n < 0 {
        assert(m == -n && abs_int(-n) == m);
        assert(f1 == fp + f);
        assert(phi_pow_coef(-n) == (fp, f));
        if m % 2 == 0 {
            assert(n % 2 == 0);
            assert(a == f1 && b == -f);
            assert((a + b) * 1 == fp && -b * 1 == f);
        } else {
            assert(n % 2 == 1);
            assert(a == -f1 && b == f);
            assert((a + b) * -1 == fp && -b * -1 == f);
        }
    }
}

/// |coefficients of φⁿ| ≤ F(41) for |n| ≤ 40.
proof fn lemma_phi_pow_coef_small(n: int)
    requires
        -40 <= n <= 40,
    ensures
        -165580141 <= phi_pow_coef(n).0 <= 165580141,
        -165580141 <= phi_pow_coef(n).1 <= 165580141,
{
    lemma_fib_table();
    let m = abs_int(n);
    if m >= 1 {
        lemma_fib_monotone(m, 41);
        lemma_fib_monotone(m + 1, 41);
        if m >= 2 {
            lemma_fib_monotone((m - 1) as nat, 41);
        } else {
            reveal_with_fuel(fib, 2);
        }
    }
}

/// Products of coefficients bounded by F(41)·scale stay far inside `i128`.
proof fn lemma_scaled_product_bound(p: int, q: int)
    requires
        -165580141000000000 <= p <= 165580141000000000,
        -165580141000000000 <= q <= 165580141000000000,
    ensures
        -27416785094419881000000000000000000 <= p * q <= 27416785094419881000000000000000000,
{
    assert(-27416785094419881000000000000000000 <= p * q <= 27416785094419881000000000000000000)
        by (nonlinear_arith)
        requires
            -165580141000000000 <= p <= 165580141000000000,
            -165580141000000000 <= q <= 165580141000000000,
    ;
}

/// The floor rescale of a product of scaled integers is exact.
proof fn lemma_rescale_exact(a: int, b: int, c: int, d: int)
    ensures
        ((a * PHIFIX_SCALE) * (c * PHIFIX_SCALE) + (b * PHIFIX_SCALE) * (d * PHIFIX_SCALE))
            / (PHIFIX_SCALE as int) == (a * c + b * d) * PHIFIX_SCALE,
        ((a * PHIFIX_SCALE) * (d * PHIFIX_SCALE) + (b * PHIFIX_SCALE) * (c * PHIFIX_SCALE) + (b
            * PHIFIX_SCALE) * (d * PHIFIX_SCALE)) / (PHIFIX_SCALE as int) == (a * d + b * c + b * d)
            * PHIFIX_SCALE,
{
    let s = PHIFIX_SCALE as int;
    lemma_scaled_square(a, c);
    lemma_scaled_square(b, d);
    lemma_scaled_square(a, d);
    lemma_scaled_square(b, c);
    let x = a * c + b * d;
    let y = a * d + b * c + b * d;
    assert((a * c) * (s * s) + (b * d) * (s * s) == s * (x * s)) by (nonlinear_arith)
        requires
            x == a * c + b * d,
    ;
    assert((a * d) * (s * s) + (b * c) * (s * s) + (b * d) * (s * s) == s * (y * s)) by (nonlinear_arith)
        requires
            y == a * d + b * c + b * d,
    ;
    vstd::arithmetic::div_mod::lemma_div_multiples_vanish(x * s, s);
    vstd::arithmetic::div_mod::lemma_div_multiples_vanish(y * s, s);
}

/// (p·s)·(q·s) = (p·q)·s².
proof fn lemma_scaled_square(p: int, q: int)
    ensures
        (p * PHIFIX_SCALE) * (q * PHIFIX_SCALE) == (p * q) * ((PHIFIX_SCALE as int) * (PHIFIX_SCALE as int)),
{
    let s = PHIFIX_SCALE as int;
    assert((p * s) * (q * s) == (p * q) * (s * s)) by (nonlinear_arith);
}

/// φⁿ · φᵏ in fixed point, computed on the coefficients.
proof fn lemma_phi_pow_mul_exact(n: int, k: int)
    requires
        -MAX_PHI_POW <= n <= MAX_PHI_POW,
        -MAX_PHI_POW <= k <= MAX_PHI_POW,
    ensures
        mul_spec(phi_pow_spec(n), phi_pow_spec(k)) == phi_pow_spec(n + k),
        -40 <= n <= 40 && -40 <= k <= 40 ==> mul_fits(phi_pow_spec(n), phi_pow_spec(k)),
{
    let s = PHIFIX_SCALE as int;
    let (a, b) = phi_pow_coef(n);
    let (c, d) = phi_pow_coef(k);
    lemma_phi_pow_range(abs_int(n));
    lemma_phi_pow_range(abs_int(k));
    lemma_fib_monotone(1, abs_int(n) + 1);
    lemma_fib_monotone(1, abs_int(k) + 1);
    if abs_int(n) >= 2 {
        lemma_fib_monotone((abs_int(n) - 1) as nat, abs_int(n) + 1);
    }
    if abs_int(k) >= 2 {
        lemma_fib_monotone((abs_int(k) - 1) as nat, abs_int(k) + 1);
    }
    lemma_phi_pow_coef_scaled(n);
    lemma_phi_pow_coef_scaled(k);
    lemma_phi_pow_coef_scaled(n + k);
    lemma_phi_pow_coef_mul(n, k);
    let x = phi_pow_spec(n);
    let y = phi_pow_spec(k);
    assert(x.a as int == a * s && x.b as int == b * s);
    assert(y.a as int == c * s && y.b as int == d * s);
    lemma_rescale_exact(a, b, c, d);
    if -40 <= n <= 40 && -40 <= k <= 40 {
        lemma_phi_pow_coef_small(n);
        lemma_phi_pow_coef_small(k);
        lemma_scaled_product_bound(a * s, c * s);
        lemma_scaled_product_bound(b * s, d * s);
        lemma_scaled_product_bound(a * s, d * s);
        lemma_scaled_product_bound(b * s, c * s);
    }
}

/// The exponent law of `PhiFixed`: φⁿ · φᵏ = φⁿ⁺ᵏ exactly for every
/// representable pair (the floor rescale divides exactly), and for
/// |n|, |k| ≤ 40 the product's intermediate values fit `i128`. In
/// particular φⁿ · φ⁻ⁿ = 1.
pub proof fn lemma_phi_pow_mul(n: int, k: int)
    requires
        -MAX_PHI_POW <= n <= MAX_PHI_POW,
        -MAX_PHI_POW <= k <= MAX_PHI_POW,
    ensures
        mul_spec(phi_pow_spec(n), phi_pow_spec(k)) == phi_pow_spec(n + k),
        mul_spec(phi_pow_spec(n), phi_pow_spec(-n)) == pf_one(),
        -40 <= n <= 40 && -40 <= k <= 40 ==> mul_fits(phi_pow_spec(n), phi_pow_spec(k)),
{
    lemma_phi_pow_mul_exact(n, k);
    lemma_phi_pow_mul_exact(n, -n);
}

/// An exact quotient by ±s².
proof fn lemma_div_by_unit_square(q: int, nn: int)
    requires
        nn == 1 || nn == -1,
    ensures
        (q * nn * 1_000_000_000_000_000_000) / (nn * 1_000_000_000_000_000_000) == q,
{
    if nn == 1 {
        vstd::arithmetic::div_mod::lemma_div_multiples_vanish(q, 1_000_000_000_000_000_000);
        assert(q * nn * 1_000_000_000_000_000_000 == 1_000_000_000_000_000_000 * q);
    } else {
        vstd::arithmetic::div_mod::lemma_div_multiples_vanish(q, 1_000_000_000_000_000_000);
        assert(q * nn * 1_000_000_000_000_000_000 == -(1_000_000_000_000_000_000 * q));
        assert((-(1_000_000_000_000_000_000 * q)) / (-1_000_000_000_000_000_000int) == q);
    }
}

/// The inverse of `PhiFixed` on golden powers: for |n| ≤ 40, inv(φⁿ) is
/// computable in `i128` and equals φ⁻ⁿ exactly, since the norm of φⁿ is
/// ±scale² and the conjugate division leaves no remainder. So
/// inv(φ) = φ⁻¹ = φ − 1 and inv(1) = 1.
pub proof fn lemma_phi_pow_inv(n: int)
    requires
        -40 <= n <= 40,
    ensures
        inv_fits(phi_pow_spec(n)),
        inv_spec(phi_pow_spec(n)) == phi_pow_spec(-n),
{
    let s = PHIFIX_SCALE as int;
    let (a, b) = phi_pow_coef(n);
    let nn = neg_one_pow(n);
    lemma_phi_pow_coef_small(n);
    lemma_phi_pow_coef_scaled(n);
    lemma_phi_pow_coef_scaled(-n);
    lemma_phi_pow_coef_norm(n);
    lemma_phi_pow_coef_inverse(n);
    let x = phi_pow_spec(n);
    assert(x.a as int == a * s && x.b as int == b * s);
    lemma_scaled_product_bound(a * s, a * s);
    lemma_scaled_product_bound(a * s, b * s);
    lemma_scaled_product_bound(b * s, b * s);
    lemma_scaled_square(a, a);
    lemma_scaled_square(a, b);
    lemma_scaled_square(b, b);
    assert(norm(x) == nn * 1_000_000_000_000_000_000) by (nonlinear_arith)
        requires
            norm(x) == (a * a) * (s * s) + (a * b) * (s * s) - (b * b) * (s * s),
            a * a + a * b - b * b == nn,
            s == 1_000_000_000,
    ;
    let qa = (a + b) * nn * s;
    let qb = -b * nn * s;
    assert((x.a + x.b) * s * s == qa * nn * 1_000_000_000_000_000_000) by (nonlinear_arith)
        requires
            x.a + x.b == a * s + b * s,
            qa == (a + b) * nn * s,
            nn == 1 || nn == -1,
            s == 1_000_000_000,
    ;
    assert(-x.b * s * s == qb * nn * 1_000_000_000_000_000_000) by (nonlinear_arith)
        requires
            x.b == b * s,
            qb == -b * nn * s,
            nn == 1 || nn == -1,
            s == 1_000_000_000,
    ;
    lemma_div_by_unit_square(qa, nn);
    lemma_div_by_unit_square(qb, nn);
    assert(phi_pow_coef(-n) == ((a + b) * nn, -b * nn));
    assert(qa == ((a + b) * nn) * s && qb == (-b * nn) * s) by (nonlinear_arith)
        requires
            qa == (a + b) * nn * s,
            qb == -b * nn * s,
    ;
    assert(-165580141 * 2 <= (a + b) * nn <= 165580141 * 2 && -165580141 <= -b * nn <= 165580141)
        by (nonlinear_arith)
        requires
            -165580141 <= a <= 165580141,
            -165580141 <= b <= 165580141,
            nn == 1 || nn == -1,
    ;
}

} // verus!
