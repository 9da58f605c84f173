use vstd::prelude::*;

verus! {

/// Largest magnitude of a decimal mantissa: 2^96 - 1.
pub const MAX_MANTISSA: i128 = 79228162514264337593543950335;

/// Largest number of digits after the decimal point.
pub const MAX_SCALE: u32 = 28;

/// Ten to the power `n`.
pub open spec fn pow10(n: nat) -> int
    decreases n,
{
    if n == 0 {
        1
    } else {
        10 * pow10((n - 1) as nat)
    }
}

/// Powers of ten are at least 1.
pub proof fn lemma_pow10_positive(n: nat)
    ensures
        pow10(n) >= 1,
    decreases n,
{
    if n > 0 {
        lemma_pow10_positive((n - 1) as nat);
    }
}

/// `10^(a+b) == 10^a * 10^b`.
pub proof fn lemma_pow10_add(a: nat, b: nat)
    ensures
        pow10(a + b) == pow10(a) * pow10(b),
    decreases b,
{
    if b > 0 {
        lemma_pow10_add(a, (b - 1) as nat);
        assert(pow10(a + b) == 10 * pow10((a + b - 1) as nat));
        assert(pow10(a) * pow10(b) == pow10(a) * (10 * pow10((b - 1) as nat)));
        assert(pow10(a) * (10 * pow10((b - 1) as nat)) == 10 * (pow10(a) * pow10(
            (b - 1) as nat,
        ))) by (nonlinear_arith);
    }
}

/// An exact decimal amount: `mantissa / 10^scale`.
#[derive(Clone, Copy, Debug, PartialEq, Eq, Structural)]
pub struct Usdc {
    pub mantissa: i128,
    pub scale: u32,
}

impl Usdc {
    /// The mantissa and scale are within the range of a 96-bit decimal.
    pub open spec fn wf(self) -> bool {
        &&& -MAX_MANTISSA <= self.mantissa <= MAX_MANTISSA
        &&& self.scale <= MAX_SCALE
    }

    /// The mantissa that represents this amount at scale `s`, for `s >= self.scale`.
    pub open spec fn at_scale(self, s: nat) -> int {
        self.mantissa * pow10((s - self.scale) as nat)
    }

    /// Exact zero.
    pub fn zero() -> (r: Usdc)
        ensures
            r.wf(),
            r.mantissa == 0,
            r.scale == 0,
    {
        Usdc { mantissa: 0, scale: 0 }
    }
}

fn pow10_exec(n: u32) -> (r: i128)
    requires
        n <= MAX_SCALE,
    ensures
        r == pow10(n as nat),
        1 <= r <= 10000000000000000000000000000,
{
    let mut r: i128 = 1;
    let mut i: u32 = 0;
    proof {
        reveal_with_fuel(pow10, 29);
        assert(pow10(28) == 10000000000000000000000000000);
    }
    while i < n
        invariant
            i <= n <= MAX_SCALE,
            r == pow10(i as nat),
            1 <= r,
            r * pow10((MAX_SCALE - i) as nat) == 10000000000000000000000000000,
        decreases n - i,
    {
        proof {
            let k = (MAX_SCALE - i - 1) as nat;
            lemma_pow10_positive(k);
            assert(pow10((MAX_SCALE - i) as nat) == 10 * pow10(k));
            assert(r * (10 * pow10(k)) == (r * 10) * pow10(k)) by (nonlinear_arith);
            assert(r * 10 <= (r * 10) * pow10(k)) by (nonlinear_arith)
                requires
                    pow10(k) >= 1,
                    r >= 1,
            ;
        }
        r = r * 10;
        i = i + 1;
    }
    proof {
        lemma_pow10_positive((MAX_SCALE - i) as nat);
        assert(r <= r * pow10((MAX_SCALE - i) as nat)) by (nonlinear_arith)
            requires
                pow10((MAX_SCALE - i) as nat) >= 1,
                r >= 1,
        ;
    }
    r
}

/// The exact sum at the larger of the two scales, when its mantissa stays within range.
pub open spec fn sum_spec(a: Usdc, b: Usdc) -> Option<Usdc> {
    let s = if a.scale >= b.scale {
        a.scale
    } else {
        b.scale
    };
    let m = a.at_scale(s as nat) + b.at_scale(s as nat);
    if -MAX_MANTISSA <= m <= MAX_MANTISSA {
        Some(Usdc { mantissa: m as i128, scale: s })
    } else {
        None
    }
}

/// Brings `a` to scale `s`, or gives `None` when its mantissa there exceeds twice the range.
fn rescale_within(a: Usdc, s: u32) -> (r: Option<i128>)
    requires
        a.wf(),
        a.scale <= s <= MAX_SCALE,
    ensures
        r matches Some(v) ==> v == a.at_scale(s as nat),
        r matches Some(v) ==> -2 * MAX_MANTISSA <= v <= 2 * MAX_MANTISSA,
        r is None ==> (a.at_scale(s as nat) > 2 * MAX_MANTISSA || a.at_scale(s as nat) < -2
            * MAX_MANTISSA),
{
    let p = pow10_exec(s - a.scale);
    let limit = (2 * MAX_MANTISSA) / p;
    let m = a.mantissa;
    assert(m * p == a.at_scale(s as nat));
    proof {
        assert(limit * p <= 2 * MAX_MANTISSA) by (nonlinear_arith)
            requires
                limit as int == (2 * MAX_MANTISSA as int) / (p as int),
                p >= 1,
        ;
        assert(2 * MAX_MANTISSA < (limit + 1) * p) by (nonlinear_arith)
            requires
                limit as int == (2 * MAX_MANTISSA as int) / (p as int),
                p >= 1,
        ;
    }
    if m > limit {
        assert(m * p >= (limit + 1) * p) by (nonlinear_arith)
            requires
                m >= limit + 1,
                p >= 1,
        ;
        None
    } else if m < -limit {
        assert(m * p <= -((limit + 1) * p)) by (nonlinear_arith)
            requires
                m <= -(limit + 1),
                p >= 1,
        ;
        None
    } else {
        assert(-(limit * p) <= m * p <= limit * p) by (nonlinear_arith)
            requires
                -limit <= m <= limit,
                p >= 1,
        ;
        Some(m * p)
    }
}

/// Adds two amounts exactly, at the larger scale; `None` when the result is out of range.
pub fn checked_add(a: Usdc, b: Usdc) -> (r: Option<Usdc>)
    requires
        a.wf(),
        b.wf(),
    ensures
        r == sum_spec(a, b),
        r matches Some(v) ==> v.wf(),
{
    let s = if a.scale >= b.scale {
        a.scale
    } else {
        b.scale
    };
    proof {
        lemma_pow10_positive((s - a.scale) as nat);
        lemma_pow10_positive((s - b.scale) as nat);
    }
    let ma = match rescale_within(a, s) {
        Some(m) => m,
        None => {
            if a.scale < s {
                assert(b.at_scale(s as nat) == b.mantissa);
            } else {
                assert(a.at_scale(s as nat) == a.mantissa);
            }
            return None;
        },
    };
    let mb = match rescale_within(b, s) {
        Some(m) => m,
        None => {
            if a.scale < s {
                assert(b.at_scale(s as nat) == b.mantissa);
            } else {
                assert(a.at_scale(s as nat) == a.mantissa);
            }
            return None;
        },
    };
    if a.scale < s {
        assert(b.at_scale(s as nat) == b.mantissa);
    } else {
        assert(a.at_scale(s as nat) == a.mantissa);
    }
    let m = ma + mb;
    if m > MAX_MANTISSA || m < -MAX_MANTISSA {
        None
    } else {
        Some(Usdc { mantissa: m, scale: s })
    }
}

} // verus!
