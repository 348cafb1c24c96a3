//! Between integers and floating-point numbers.

use vstd::arithmetic::power2::{lemma_pow2_pos, lemma_pow2_strictly_increases, lemma_pow2_unfold, pow2};
use vstd::prelude::*;

use crate::float::Float;

verus! {

/// One more than the largest mantissa.
pub open spec fn full() -> int {
    0x20_0000_0000_0000
}

/// The least mantissa of a normal number.
pub open spec fn half_full() -> int {
    0x10_0000_0000_0000
}

impl Float {
    /// The number is `mantissa * 2^exponent`, up to its sign.
    pub open spec fn mantissa(self) -> int {
        let biased = self.magnitude() / half_full();
        let fraction = self.magnitude() % half_full();
        if biased == 0 {
            fraction
        } else {
            half_full() + fraction
        }
    }

    pub open spec fn exponent(self) -> int {
        let biased = self.magnitude() / half_full();
        if biased == 0 {
            -1074
        } else {
            biased - 1075
        }
    }

    /// The number is exactly the integer.
    pub open spec fn represents(self, i: int) -> bool {
        let m = if i < 0 {
            -i
        } else {
            i
        };
        &&& (i < 0) == (self.bits >= 0x8000_0000_0000_0000)
        &&& self.magnitude() < 0x7ff0_0000_0000_0000
        &&& if self.exponent() >= 0 {
            self.mantissa() * pow2(self.exponent() as nat) == m
        } else {
            self.mantissa() == m * pow2((-self.exponent()) as nat)
        }
    }

    /// The integer part, without bounds.
    pub open spec fn truncated(self) -> int {
        let t = if self.exponent() >= 0 {
            self.mantissa() * pow2(self.exponent() as nat)
        } else {
            self.mantissa() / pow2((-self.exponent()) as nat) as int
        };
        if self.bits >= 0x8000_0000_0000_0000 {
            -t
        } else {
            t
        }
    }
}

/// How many halvings bring the number below the largest mantissa.
pub open spec fn halvings(n: nat) -> nat
    decreases n,
{
    if n < full() {
        0
    } else {
        1 + halvings(n / 2)
    }
}

/// How many doublings bring a positive number to the least normal mantissa.
pub open spec fn doublings(n: nat) -> nat
    decreases full() - n,
{
    if n == 0 || n >= half_full() {
        0
    } else {
        1 + doublings(2 * n)
    }
}

/// The number in units of `2^halvings`, rounded to the nearest, ties to even.
pub open spec fn rounded_units(n: nat) -> nat {
    let p = pow2(halvings(n));
    let q = n / p;
    let rem = n % p;
    if 2 * rem > p || (2 * rem == p && q % 2 == 1) {
        q + 1
    } else {
        q
    }
}

/// The representable number next to `n`, ties to even.
pub open spec fn nearest(n: nat) -> nat {
    if n < full() {
        n
    } else {
        rounded_units(n) * pow2(halvings(n))
    }
}

/// The floating-point number that a natural number converts to.
pub open spec fn of_nat(n: nat) -> Float {
    if n == 0 {
        Float { bits: 0 }
    } else if n < full() {
        Float { bits: ((1074 - doublings(n)) * half_full() + n * pow2(doublings(n))) as u64 }
    } else {
        Float { bits: ((1074 + halvings(n)) * half_full() + rounded_units(n)) as u64 }
    }
}

/// The floating-point number that an integer converts to.
pub open spec fn of_int(i: int) -> Float {
    if i < 0 {
        of_nat((-i) as nat).negated()
    } else {
        of_nat(i as nat)
    }
}

proof fn lemma_pow2_values()
    ensures
        pow2(0) == 1,
        pow2(10) == 1024,
        pow2(11) == 2048,
        pow2(52) == 0x10_0000_0000_0000,
        pow2(53) == 0x20_0000_0000_0000,
{
    vstd::arithmetic::power2::lemma2_to64();
    vstd::arithmetic::power2::lemma2_to64_rest();
}

proof fn lemma_doublings(n: nat)
    requires
        0 < n < full(),
    ensures
        half_full() <= n * pow2(doublings(n)) < full(),
        doublings(n) <= 52,
    decreases full() - n,
{
    lemma_pow2_values();
    assert(n * pow2(52) >= half_full()) by (nonlinear_arith)
        requires n >= 1, pow2(52) == 0x10_0000_0000_0000;
    lemma_doublings_bound(n, 52);
    if n < half_full() {
        lemma_doublings(2 * n);
        let d = doublings(2 * n);
        lemma_pow2_unfold(d + 1);
        assert(n * (2 * pow2(d)) == (2 * n) * pow2(d)) by (nonlinear_arith);
    }
}

proof fn lemma_doublings_bound(n: nat, k: nat)
    requires
        n > 0,
        k <= 52,
        n * pow2(k) >= half_full(),
    ensures
        doublings(n) <= k,
    decreases k,
{
    if n < half_full() {
        if k == 0 {
            lemma_pow2_values();
        } else {
            lemma_pow2_unfold(k);
            assert(n * (2 * pow2((k - 1) as nat)) == (2 * n) * pow2((k - 1) as nat)) by (nonlinear_arith);
            lemma_doublings_bound(2 * n, (k - 1) as nat);
        }
    }
}

/// Halving brings the number between the least normal mantissa and the largest.
proof fn lemma_halvings(n: nat)
    requires
        n >= half_full(),
    ensures
        half_full() <= n / pow2(halvings(n)) < full(),
    decreases n,
{
    lemma_pow2_pos(halvings(n));
    if n < full() {
        lemma_pow2_values();
        assert(halvings(n) == 0);
        assert(n / 1 == n);
    } else {
        lemma_halvings(n / 2);
        let h = halvings(n / 2);
        lemma_pow2_unfold(h + 1);
        lemma_pow2_pos(h);
        vstd::arithmetic::div_mod::lemma_div_denominator(n as int, 2, pow2(h) as int);
        assert(halvings(n) == h + 1);
        assert(pow2(h + 1) == 2 * pow2(h));
        assert(n / (2 * pow2(h)) == (n / 2) / pow2(h));
    }
}

/// Every 64-bit number is within eleven halvings.
proof fn lemma_halvings_bound(n: nat, k: nat)
    requires
        n < full() * pow2(k),
        k <= 64,
    ensures
        halvings(n) <= k,
    decreases k,
{
    if n >= full() {
        lemma_pow2_values();
        if k > 0 {
            lemma_pow2_unfold(k);
            assert(full() * (2 * pow2((k - 1) as nat)) == 2 * (full() * pow2((k - 1) as nat))) by (nonlinear_arith);
            lemma_halvings_bound(n / 2, (k - 1) as nat);
        }
    }
}

proof fn lemma_fields(f: Float, biased: int, m: int)
    requires
        f.magnitude() == (biased - 1) * half_full() + m,
        1 <= biased < 2046,
        half_full() <= m <= full(),
    ensures
        m < full() ==> f.mantissa() == m && f.exponent() == biased - 1075,
        m == full() ==> f.mantissa() == half_full() && f.exponent() == biased - 1074,
        f.magnitude() < 0x7ff0_0000_0000_0000,
{
    let h = half_full();
    if m < full() {
        assert(f.magnitude() == biased * h + (m - h)) by (nonlinear_arith)
            requires f.magnitude() == (biased - 1) * h + m;
        vstd::arithmetic::div_mod::lemma_fundamental_div_mod_converse(f.magnitude(), h, biased, m - h);
    } else {
        assert(f.magnitude() == (biased + 1) * h + 0) by (nonlinear_arith)
            requires f.magnitude() == (biased - 1) * h + m, m == 2 * h;
        vstd::arithmetic::div_mod::lemma_fundamental_div_mod_converse(f.magnitude(), h, biased + 1, 0);
    }
    assert((biased - 1) * h + m <= 2044 * h + 2 * h) by (nonlinear_arith)
        requires 1 <= biased < 2046, m <= 2 * h, h > 0;
}

/// A converted number is the representable number next to the integer.
pub proof fn law_conversion_is_nearest(n: nat)
    requires
        n <= u64::MAX,
    ensures
        of_nat(n).represents(nearest(n) as int),
        !of_nat(n).nan(),
{
    lemma_pow2_values();
    let f = of_nat(n);
    if n == 0 {
        assert(f.mantissa() == 0 && f.exponent() == -1074);
        assert(0 * pow2(1074) == 0) by (nonlinear_arith);
    } else if n < full() {
        lemma_doublings(n);
        let d = doublings(n) as int;
        let m = n * pow2(doublings(n));
        assert((1074 - d) * half_full() >= 0 && (1074 - d) * half_full() <= 1074 * half_full()) by (nonlinear_arith)
            requires 0 <= d <= 52, half_full() == 0x10_0000_0000_0000;
        lemma_fields(f, 1075 - d, m as int);
        assert(f.exponent() == -d);
        assert(f.mantissa() == m);
        if d == 0 {
            assert(m == n && m * pow2(0) == n) by (nonlinear_arith)
                requires m == n * pow2(0), pow2(0) == 1;
        }
        assert(f.represents(n as int));
    } else {
        let h = halvings(n);
        lemma_halvings(n);
        lemma_halvings_bound(n, 11);
        lemma_pow2_pos(h);
        let p = pow2(h);
        let q = rounded_units(n);
        assert((1074 + h) * half_full() <= 1085 * half_full()) by (nonlinear_arith)
            requires h <= 11, half_full() == 0x10_0000_0000_0000;
        lemma_fields(f, 1075 + h as int, q as int);
        assert(q * p >= 0) by (nonlinear_arith) requires q >= 0, p >= 0;
        if q == full() {
            lemma_pow2_unfold(h + 1);
            assert(half_full() * (2 * p) == full() * p) by (nonlinear_arith)
                requires full() == 2 * half_full();
            assert(f.exponent() == h + 1);
            assert(f.represents((q * p) as int));
        } else {
            assert(f.exponent() == h);
            assert(f.represents((q * p) as int));
        }
    }
}

/// The integer part of a number that is an integer is that integer.
pub proof fn law_integer_truncates_to_itself(f: Float, i: int)
    requires
        f.represents(i),
    ensures
        f.truncated() == i,
{
    if f.exponent() < 0 {
        let p = pow2((-f.exponent()) as nat) as int;
        lemma_pow2_pos((-f.exponent()) as nat);
        let m = if i < 0 { -i } else { i };
        vstd::arithmetic::div_mod::lemma_div_by_multiple(m, p);
    }
}

/// An integer of at most 53 bits is converted and read back without loss.
pub proof fn law_small_integer_reads_back(i: int)
    requires
        -full() < i < full(),
    ensures
        of_int(i).truncated() == i,
{
    let n = if i < 0 { (-i) as nat } else { i as nat };
    law_conversion_is_nearest(n);
    let f = of_nat(n);
    assert(f.represents(n as int));
    if i < 0 {
        assert(f.bits < 0x8000_0000_0000_0000);
        assert(of_int(i).magnitude() == f.magnitude());
        assert(of_int(i).represents(i));
    }
    law_integer_truncates_to_itself(of_int(i), i);
}

/// A positive 32-bit number has a magnitude in the range of numbers from 1 on, so that
/// its exponent can be lowered by up to a thousand.
pub proof fn lemma_small_conversion(n: nat, down: int)
    requires
        0 < n < full(),
        0 <= down <= 1000,
    ensures
        of_nat(n).bits - down * half_full() >= 0,
        ({
            let f = Float { bits: (of_nat(n).bits - down * half_full()) as u64 };
            &&& f.mantissa() == of_nat(n).mantissa()
            &&& f.exponent() == of_nat(n).exponent() - down
            &&& f.bits < 0x7ff0_0000_0000_0000
        }),
{
    lemma_doublings(n);
    let d = doublings(n) as int;
    let m = (n * pow2(doublings(n))) as int;
    let h = half_full();
    assert((1074 - d) * h + m <= 1074 * h + full() && (1074 - d) * h + m >= 1022 * h + h) by (nonlinear_arith)
        requires 0 <= d <= 52, h == 0x10_0000_0000_0000, h <= m < full();
    assert(of_nat(n).bits == (1074 - d) * h + m);
    lemma_fields(of_nat(n), 1075 - d, m);
    assert((1074 - d) * h + m - down * h == (1074 - d - down) * h + m) by (nonlinear_arith);
    assert((1074 - d - down) * h + m >= 22 * h + h) by (nonlinear_arith)
        requires 0 <= d <= 52, 0 <= down <= 1000, h == 0x10_0000_0000_0000, h <= m;
    let f = Float { bits: (of_nat(n).bits - down * h) as u64 };
    assert(f.magnitude() == (1075 - d - down - 1) * h + m);
    lemma_fields(f, 1075 - d - down, m);
}

impl Float {
    /// The number nearest to a natural number, ties to even.
    pub fn from_u64(n: u64) -> (r: Float)
        ensures
            r == of_nat(n as nat),
            !r.nan(),
            r.bits < 0x8000_0000_0000_0000,
    {
        proof {
            lemma_pow2_values();
            law_conversion_is_nearest(n as nat);
        }
        if n == 0 {
            return Float { bits: 0 };
        }
        if n < 0x20_0000_0000_0000 {
            proof {
                lemma_doublings(n as nat);
            }
            let mut m: u64 = n;
            let mut d: u64 = 0;
            while m < 0x10_0000_0000_0000
                invariant
                    0 < n < 0x20_0000_0000_0000,
                    0 < m < 0x20_0000_0000_0000,
                    d + doublings(m as nat) == doublings(n as nat),
                    doublings(n as nat) <= 52,
                    m == n * pow2(d as nat),
                decreases full() - m,
            {
                proof {
                    lemma_pow2_unfold((d + 1) as nat);
                    assert(2 * (n * pow2(d as nat)) == n * (2 * pow2(d as nat))) by (nonlinear_arith);
                }
                m = m * 2;
                d = d + 1;
            }
            proof {
                assert(d == doublings(n as nat));
                assert((1074 - d) * half_full() <= 1074 * half_full() && (1074 - d) * half_full() >= 0) by (nonlinear_arith)
                    requires 0 <= d <= 52, half_full() == 0x10_0000_0000_0000;
            }
            Float { bits: (1074 - d) * 0x10_0000_0000_0000 + m }
        } else {
            proof {
                lemma_halvings(n as nat);
                lemma_halvings_bound(n as nat, 11);
            }
            let mut q: u64 = n;
            let mut h: u64 = 0;
            let mut p: u64 = 1;
            while q >= 0x20_0000_0000_0000
                invariant
                    h + halvings(q as nat) == halvings(n as nat),
                    halvings(n as nat) <= 11,
                    p == pow2(h as nat),
                    q == n as nat / pow2(h as nat),
                    h <= 11,
                    p <= 2048,
                decreases q,
            {
                proof {
                    lemma_pow2_unfold((h + 1) as nat);
                    lemma_pow2_pos(h as nat);
                    vstd::arithmetic::div_mod::lemma_div_denominator(n as int, pow2(h as nat) as int, 2);
                    assert(h + 1 <= 11);
                    lemma_pow2_values();
                    if h + 1 < 11 {
                        lemma_pow2_strictly_increases((h + 1) as nat, 11);
                    }
                    assert(pow2(h as nat) * 2 == 2 * pow2(h as nat));
                }
                q = q / 2;
                p = p * 2;
                h = h + 1;
            }
            proof {
                lemma_pow2_pos(h as nat);
            }
            let rem: u64 = n % p;
            proof {
                assert((1074 + h) * half_full() <= 1085 * half_full()) by (nonlinear_arith)
                    requires h <= 11, half_full() == 0x10_0000_0000_0000;
            }
            let units: u64 = if 2 * rem > p || (2 * rem == p && q % 2 == 1) {
                q + 1
            } else {
                q
            };
            Float { bits: (1074 + h) * 0x10_0000_0000_0000 + units }
        }
    }

    /// The number nearest to an integer, ties to even.
    pub fn from_i64(i: i64) -> (r: Float)
        ensures
            r == of_int(i as int),
            !r.nan(),
    {
        if i < 0 {
            let magnitude: u64 = (-(i + 1)) as u64 + 1;
            Float::from_u64(magnitude).neg()
        } else {
            Float::from_u64(i as u64)
        }
    }

    /// The integer part, kept within the bounds of `i64`; 0 for NaN.
    pub fn to_i64(self) -> (r: i64)
        ensures
            self.nan() ==> r == 0,
            !self.nan() ==> r == if self.truncated() < i64::MIN {
                i64::MIN as int
            } else if self.truncated() > i64::MAX {
                i64::MAX as int
            } else {
                self.truncated()
            },
    {
        if self.is_nan() {
            return 0;
        }
        let negative = self.bits >= 0x8000_0000_0000_0000;
        let magnitude: u64 = if negative {
            self.bits - 0x8000_0000_0000_0000
        } else {
            self.bits
        };
        let biased: u64 = magnitude / 0x10_0000_0000_0000;
        let fraction: u64 = magnitude % 0x10_0000_0000_0000;
        proof {
            lemma_pow2_values();
        }
        if biased < 1023 {
            proof {
                let e = (-self.exponent()) as nat;
                assert(e >= 53);
                if e > 53 {
                    lemma_pow2_strictly_increases(53, e);
                }
                assert(self.mantissa() < pow2(e));
                vstd::arithmetic::div_mod::lemma_basic_div(self.mantissa(), pow2(e) as int);
            }
            return 0;
        }
        let m: u64 = 0x10_0000_0000_0000 + fraction;
        if biased >= 1086 {
            proof {
                let e = self.exponent() as nat;
                assert(e >= 11);
                if e > 11 {
                    lemma_pow2_strictly_increases(11, e);
                }
                assert(m * pow2(e) >= 0x8000_0000_0000_0000) by (nonlinear_arith)
                    requires m >= 0x10_0000_0000_0000, pow2(e) >= 2048;
            }
            return if negative {
                i64::MIN
            } else {
                i64::MAX
            };
        }
        let t: u64 = if biased >= 1075 {
            let e: u64 = biased - 1075;
            proof {
                if e < 10 {
                    lemma_pow2_strictly_increases(e as nat, 10);
                }
                assert(m * pow2(e as nat) < 0x8000_0000_0000_0000) by (nonlinear_arith)
                    requires m < 0x20_0000_0000_0000, pow2(e as nat) <= 1024;
                vstd::bits::lemma_u64_shl_is_mul(m, e);
            }
            m << e
        } else {
            let e: u64 = 1075 - biased;
            proof {
                vstd::bits::lemma_u64_shr_is_div(m, e);
                lemma_pow2_pos(e as nat);
                assert(m as int / pow2(e as nat) as int <= m) by {
                    vstd::arithmetic::div_mod::lemma_div_is_ordered_by_denominator(m as int, 1, pow2(e as nat) as int);
                }
            }
            m >> e
        };
        assert(t < 0x8000_0000_0000_0000);
        if negative {
            -(t as i64)
        } else {
            t as i64
        }
    }
}

proof fn lemma_doublings_fall(n: nat, m: nat)
    requires
        0 < n <= m < full(),
    ensures
        doublings(m) <= doublings(n),
{
    lemma_doublings(n);
    let d = doublings(n);
    assert(m * pow2(d) >= n * pow2(d)) by (nonlinear_arith)
        requires n <= m;
    lemma_doublings_bound(m, d);
}

proof fn lemma_halvings_grow(n: nat, m: nat)
    requires
        n <= m,
    ensures
        halvings(n) <= halvings(m),
    decreases m,
{
    if n >= full() {
        lemma_halvings_grow(n / 2, m / 2);
    }
}

proof fn lemma_units_grow(n: nat, m: nat)
    requires
        full() <= n <= m,
        halvings(n) == halvings(m),
    ensures
        rounded_units(n) <= rounded_units(m),
{
    let p = pow2(halvings(n));
    lemma_pow2_pos(halvings(n));
    vstd::arithmetic::div_mod::lemma_div_is_ordered(n as int, m as int, p as int);
    vstd::arithmetic::div_mod::lemma_fundamental_div_mod(n as int, p as int);
    vstd::arithmetic::div_mod::lemma_fundamental_div_mod(m as int, p as int);
    if n / p == m / p {
        assert(p * (n / p) == p * (m / p));
        assert(n % p <= m % p);
    }
}

/// The pattern of a converted positive number lies in the range of its exponent.
proof fn lemma_bits_of_nat(n: nat)
    requires
        0 < n <= u64::MAX,
    ensures
        n < full() ==> of_nat(n).bits == (1074 - doublings(n)) * half_full() + n * pow2(doublings(n)) && half_full() <= n * pow2(
            doublings(n),
        ) < full() && doublings(n) <= 52,
        n >= full() ==> of_nat(n).bits == (1074 + halvings(n)) * half_full() + rounded_units(n) && half_full() <= rounded_units(n) <= full()
            && 1 <= halvings(n) <= 11,
        0 < of_nat(n).bits < 0x7ff0_0000_0000_0000,
{
    lemma_pow2_values();
    if n < full() {
        lemma_doublings(n);
        let d = doublings(n) as int;
        assert(1022 * half_full() <= (1074 - d) * half_full() <= 1074 * half_full()) by (nonlinear_arith)
            requires 0 <= d <= 52, half_full() == 0x10_0000_0000_0000;
    } else {
        lemma_halvings(n);
        lemma_halvings_bound(n, 11);
        let h = halvings(n) as int;
        assert(1074 * half_full() <= (1074 + h) * half_full() <= 1085 * half_full()) by (nonlinear_arith)
            requires 0 <= h <= 11, half_full() == 0x10_0000_0000_0000;
    }
}

/// Converting natural numbers keeps their order, strictly as far as they are converted
/// without loss.
pub proof fn law_conversion_keeps_the_order_of_naturals(n: nat, m: nat)
    requires
        n <= m <= u64::MAX,
    ensures
        of_nat(n).rank() <= of_nat(m).rank(),
        n < m && n < full() ==> of_nat(n).rank() < of_nat(m).rank(),
        of_nat(n).rank() >= 0,
        !of_nat(n).nan(),
{
    let h = half_full();
    if m > 0 {
        lemma_bits_of_nat(m);
    }
    if n > 0 {
        lemma_bits_of_nat(n);
        if m < full() {
            lemma_doublings_fall(n, m);
            let a = doublings(n) as int;
            let b = doublings(m) as int;
            let p = pow2(doublings(n));
            if a == b {
                lemma_pow2_pos(doublings(n));
                assert(n * p <= m * p && (n < m ==> n * p < m * p)) by (nonlinear_arith)
                    requires n <= m, p > 0;
            } else {
                assert((1074 - a) * h + h <= (1074 - b) * h) by (nonlinear_arith)
                    requires b < a, h > 0;
            }
        } else if n < full() {
            let a = doublings(n) as int;
            let b = halvings(m) as int;
            assert((1074 - a) * h <= 1074 * h && (1074 + b) * h >= 1074 * h + h) by (nonlinear_arith)
                requires a >= 0, b >= 1, h > 0;
        } else {
            lemma_halvings_grow(n, m);
            let a = halvings(n) as int;
            let b = halvings(m) as int;
            if a == b {
                lemma_units_grow(n, m);
            } else {
                assert((1074 + a) * h + h <= (1074 + b) * h) by (nonlinear_arith)
                    requires a < b, h > 0;
            }
        }
    }
}

/// Converting integers keeps their order, strictly as far as they are converted without loss.
pub proof fn law_conversion_keeps_the_order(i: int, j: int)
    requires
        -0x8000_0000_0000_0000 <= i <= j <= u64::MAX,
    ensures
        of_int(i).rank() <= of_int(j).rank(),
        i < j && -full() < i && j < full() ==> of_int(i).rank() < of_int(j).rank(),
        !of_int(i).nan(),
        !of_int(j).nan(),
{
    let a = if i < 0 { (-i) as nat } else { i as nat };
    let b = if j < 0 { (-j) as nat } else { j as nat };
    law_conversion_keeps_the_order_of_naturals(a, a);
    law_conversion_keeps_the_order_of_naturals(b, b);
    if a > 0 {
        lemma_bits_of_nat(a);
    }
    if b > 0 {
        lemma_bits_of_nat(b);
    }
    if i >= 0 {
        law_conversion_keeps_the_order_of_naturals(a, b);
    } else if j < 0 {
        law_conversion_keeps_the_order_of_naturals(b, a);
    }
}

/// The integer part of a number is what is left of it when the rest is cut off towards zero.
pub proof fn law_integer_part_is_towards_zero(f: Float)
    requires
        f.magnitude() < 0x7ff0_0000_0000_0000,
        f.exponent() < 0,
    ensures
        ({
            let p = pow2((-f.exponent()) as nat) as int;
            let t = f.truncated();
            if f.bits < 0x8000_0000_0000_0000 {
                0 <= f.mantissa() - t * p < p
            } else {
                0 <= f.mantissa() + t * p < p
            }
        }),
{
    let p = pow2((-f.exponent()) as nat) as int;
    lemma_pow2_pos((-f.exponent()) as nat);
    vstd::arithmetic::div_mod::lemma_fundamental_div_mod(f.mantissa(), p);
    let q = f.mantissa() / p;
    assert(p * q == q * p) by (nonlinear_arith);
    assert((-q) * p == -(q * p)) by (nonlinear_arith);
}

} // verus!
