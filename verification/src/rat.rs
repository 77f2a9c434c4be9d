//! Exact rational numbers over `i64`.
//!
//! The engine evaluates expressions over exact rationals instead of
//! machine floats: every arithmetic step either returns the exact
//! unreduced fraction or reports why it cannot (overflow of a component,
//! division by zero, or a result that is not rational).

use vstd::prelude::*;

verus! {

/// Does a mathematical integer fit in `i64`?
pub open spec fn in_i64(x: int) -> bool {
    i64::MIN <= x <= i64::MAX
}

/// Why a rational operation produced no rational result.
#[derive(Clone, Copy, Debug, PartialEq, Eq, Structural)]
pub enum NumError {
    /// A component of the unreduced result does not fit in `i64`.
    Overflow,
    /// Division by a rational whose value is zero.
    DivByZero,
    /// The exact result is not representable as a rational
    /// (an irrational root, a transcendental value, or a value
    /// outside the function's real domain).
    Inexact,
}

/// A rational number `num / den` with `den > 0`.
///
/// Fractions are kept unreduced; numeric equality is `same_value`
/// (cross-multiplication), while `==` is plain field equality.
#[derive(Clone, Copy, Debug, PartialEq, Eq, Structural)]
pub struct Rat {
    pub num: i64,
    pub den: i64,
}

impl Rat {
    /// Well-formed: positive denominator.
    pub open spec fn wf(self) -> bool {
        self.den > 0
    }

    /// Numeric equality: `a/b == c/d` iff `a*d == c*b`.
    pub open spec fn same_value(self, other: Rat) -> bool {
        self.num * other.den == other.num * self.den
    }

    pub open spec fn spec_is_zero(self) -> bool {
        self.num == 0
    }

    pub open spec fn spec_is_one(self) -> bool {
        self.num == self.den
    }

    /// The exact unreduced sum, or `None` when a component overflows.
    pub open spec fn spec_add(self, other: Rat) -> Option<Rat> {
        let x = self.num * other.den;
        let y = other.num * self.den;
        let d = self.den * other.den;
        if in_i64(x) && in_i64(y) && in_i64(x + y) && in_i64(d) {
            Some(Rat { num: (x + y) as i64, den: d as i64 })
        } else {
            None
        }
    }

    /// The exact unreduced difference, or `None` when a component overflows.
    pub open spec fn spec_sub(self, other: Rat) -> Option<Rat> {
        let x = self.num * other.den;
        let y = other.num * self.den;
        let d = self.den * other.den;
        if in_i64(x) && in_i64(y) && in_i64(x - y) && in_i64(d) {
            Some(Rat { num: (x - y) as i64, den: d as i64 })
        } else {
            None
        }
    }

    /// The exact unreduced product, or `None` when a component overflows.
    pub open spec fn spec_mul(self, other: Rat) -> Option<Rat> {
        let n = self.num * other.num;
        let d = self.den * other.den;
        if in_i64(n) && in_i64(d) {
            Some(Rat { num: n as i64, den: d as i64 })
        } else {
            None
        }
    }

    /// The exact negation, or `None` for the one unrepresentable case.
    pub open spec fn spec_neg(self) -> Option<Rat> {
        if in_i64(-self.num) {
            Some(Rat { num: (-self.num) as i64, den: self.den })
        } else {
            None
        }
    }

    /// The exact quotient, with the sign moved into the numerator.
    pub open spec fn spec_div(self, other: Rat) -> Result<Rat, NumError> {
        if other.num == 0 {
            Err(NumError::DivByZero)
        } else {
            let n = self.num * other.den;
            let d = self.den * other.num;
            if !(in_i64(n) && in_i64(d) && in_i64(-n) && in_i64(-d)) {
                Err(NumError::Overflow)
            } else if other.num > 0 {
                Ok(Rat { num: n as i64, den: d as i64 })
            } else {
                Ok(Rat { num: (-n) as i64, den: (-d) as i64 })
            }
        }
    }
}

/// `1/1`, the multiplicative unit.
pub open spec fn spec_rat_one() -> Rat {
    Rat { num: 1, den: 1 }
}

impl Rat {
    /// `base^k` for `k >= 0`, multiplying one factor at a time;
    /// `None` as soon as a partial product overflows.
    pub open spec fn spec_pow_nonneg(self, k: nat) -> Option<Rat>
        decreases k,
    {
        if k == 0 {
            Some(spec_rat_one())
        } else {
            match self.spec_pow_nonneg((k - 1) as nat) {
                Option::None => Option::None,
                Option::Some(p) => p.spec_mul(self),
            }
        }
    }

    /// `1 / self`, or an error for zero or the one overflowing numerator.
    pub open spec fn spec_invert(self) -> Result<Rat, NumError> {
        if self.num == 0 {
            Err(NumError::DivByZero)
        } else if self.num > 0 {
            Ok(Rat { num: self.den, den: self.num })
        } else if in_i64(-self.num) && in_i64(-self.den) {
            Ok(Rat { num: (-self.den) as i64, den: (-self.num) as i64 })
        } else {
            Err(NumError::Overflow)
        }
    }

    /// Is `self` an integer, i.e. does `den` divide `num` exactly?
    pub open spec fn spec_as_int(self) -> Option<i64> {
        if exists|q: int| in_i64(q) && #[trigger] (q * self.den) == self.num {
            Some((choose|q: int| in_i64(q) && #[trigger] (q * self.den) == self.num) as i64)
        } else {
            None
        }
    }
}

impl Rat {
    pub fn from_int(n: i64) -> (r: Rat)
        ensures
            r.wf(),
            r.num == n,
            r.den == 1,
    {
        Rat { num: n, den: 1 }
    }

    pub fn rat_zero() -> (r: Rat)
        ensures
            r == (Rat { num: 0i64, den: 1i64 }),
            r.wf(),
    {
        Rat { num: 0, den: 1 }
    }

    pub fn rat_one() -> (r: Rat)
        ensures
            r == spec_rat_one(),
            r.wf(),
    {
        Rat { num: 1, den: 1 }
    }

    pub fn is_zero(&self) -> (b: bool)
        ensures
            b == self.spec_is_zero(),
    {
        self.num == 0
    }

    pub fn is_one(&self) -> (b: bool)
        ensures
            b == self.spec_is_one(),
    {
        self.num == self.den
    }

    pub fn checked_add(self, other: Rat) -> (r: Option<Rat>)
        requires
            self.wf(),
            other.wf(),
        ensures
            r == self.spec_add(other),
            r is Some ==> r->Some_0.wf(),
    {
        proof {
            lemma_pos_mul_pos(self.den as int, other.den as int);
        }
        match self.num.checked_mul(other.den) {
            Option::None => Option::None,
            Option::Some(x) => match other.num.checked_mul(self.den) {
                Option::None => Option::None,
                Option::Some(y) => match x.checked_add(y) {
                    Option::None => Option::None,
                    Option::Some(n) => match self.den.checked_mul(other.den) {
                        Option::None => Option::None,
                        Option::Some(d) => Option::Some(Rat { num: n, den: d }),
                    },
                },
            },
        }
    }

    pub fn checked_sub(self, other: Rat) -> (r: Option<Rat>)
        requires
            self.wf(),
            other.wf(),
        ensures
            r == self.spec_sub(other),
            r is Some ==> r->Some_0.wf(),
    {
        proof {
            lemma_pos_mul_pos(self.den as int, other.den as int);
        }
        match self.num.checked_mul(other.den) {
            Option::None => Option::None,
            Option::Some(x) => match other.num.checked_mul(self.den) {
                Option::None => Option::None,
                Option::Some(y) => match x.checked_sub(y) {
                    Option::None => Option::None,
                    Option::Some(n) => match self.den.checked_mul(other.den) {
                        Option::None => Option::None,
                        Option::Some(d) => Option::Some(Rat { num: n, den: d }),
                    },
                },
            },
        }
    }

    pub fn checked_mul(self, other: Rat) -> (r: Option<Rat>)
        requires
            self.wf(),
            other.wf(),
        ensures
            r == self.spec_mul(other),
            r is Some ==> r->Some_0.wf(),
    {
        proof {
            lemma_pos_mul_pos(self.den as int, other.den as int);
        }
        match self.num.checked_mul(other.num) {
            Option::None => Option::None,
            Option::Some(n) => match self.den.checked_mul(other.den) {
                Option::None => Option::None,
                Option::Some(d) => Option::Some(Rat { num: n, den: d }),
            },
        }
    }

    pub fn checked_neg(self) -> (r: Option<Rat>)
        requires
            self.wf(),
        ensures
            r == self.spec_neg(),
            r is Some ==> r->Some_0.wf(),
    {
        if self.num == i64::MIN {
            Option::None
        } else {
            Option::Some(Rat { num: -self.num, den: self.den })
        }
    }

    pub fn checked_div(self, other: Rat) -> (r: Result<Rat, NumError>)
        requires
            self.wf(),
            other.wf(),
        ensures
            r == self.spec_div(other),
            r is Ok ==> r->Ok_0.wf(),
    {
        if other.num == 0 {
            return Result::Err(NumError::DivByZero);
        }
        let n = match self.num.checked_mul(other.den) {
            Option::None => {
                return Result::Err(NumError::Overflow);
            },
            Option::Some(n) => n,
        };
        let d = match self.den.checked_mul(other.num) {
            Option::None => {
                return Result::Err(NumError::Overflow);
            },
            Option::Some(d) => d,
        };
        if n == i64::MIN || d == i64::MIN {
            return Result::Err(NumError::Overflow);
        }
        proof {
            lemma_mul_sign(self.den as int, other.num as int);
        }
        if other.num > 0 {
            Result::Ok(Rat { num: n, den: d })
        } else {
            Result::Ok(Rat { num: -n, den: -d })
        }
    }
}

/// Does `n` have an exact integer square root?
pub open spec fn has_exact_sqrt(n: int) -> bool {
    exists|r: int| 0 <= r && #[trigger] (r * r) == n
}

/// The (unique) nonnegative integer square root, where one exists.
pub open spec fn spec_isqrt(n: int) -> int {
    choose|r: int| 0 <= r && #[trigger] (r * r) == n
}

impl Rat {
    /// The exact square root of the stored fraction: defined when the
    /// stored numerator and denominator are both perfect squares.
    pub open spec fn spec_sqrt(self) -> Result<Rat, NumError> {
        if self.num < 0 {
            Err(NumError::Inexact)
        } else if has_exact_sqrt(self.num as int) && has_exact_sqrt(self.den as int) {
            Ok(Rat { num: spec_isqrt(self.num as int) as i64, den: spec_isqrt(self.den as int) as i64 })
        } else {
            Err(NumError::Inexact)
        }
    }

    /// `self` raised to the rational `e`: defined when `e` is an integer.
    pub open spec fn spec_pow(self, e: Rat) -> Result<Rat, NumError> {
        match e.spec_as_int() {
            Option::None => Err(NumError::Inexact),
            Option::Some(k) => if k >= 0 {
                match self.spec_pow_nonneg(k as nat) {
                    Option::None => Err(NumError::Overflow),
                    Option::Some(p) => Ok(p),
                }
            } else if self.num == 0 {
                Err(NumError::DivByZero)
            } else {
                match self.spec_pow_nonneg((-(k as int)) as nat) {
                    Option::None => Err(NumError::Overflow),
                    Option::Some(p) => p.spec_invert(),
                }
            },
        }
    }
}

impl Rat {
    pub fn checked_invert(self) -> (r: Result<Rat, NumError>)
        requires
            self.wf(),
        ensures
            r == self.spec_invert(),
            r is Ok ==> r->Ok_0.wf(),
    {
        if self.num == 0 {
            Result::Err(NumError::DivByZero)
        } else if self.num > 0 {
            Result::Ok(Rat { num: self.den, den: self.num })
        } else if self.num == i64::MIN {
            Result::Err(NumError::Overflow)
        } else {
            Result::Ok(Rat { num: -self.den, den: -self.num })
        }
    }

    /// The integer this fraction denotes, if it denotes one.
    pub fn as_int(self) -> (r: Option<i64>)
        requires
            self.wf(),
        ensures
            r == self.spec_as_int(),
    {
        proof {
            lemma_euclid_div_bounds(self.num as int, self.den as int);
        }
        let q = match self.num.checked_div_euclid(self.den) {
            Option::None => {
                proof {
                    assert(false);
                }
                return Option::None;
            },
            Option::Some(q) => q,
        };
        let exact = match q.checked_mul(self.den) {
            Option::None => false,
            Option::Some(p) => p == self.num,
        };
        proof {
            lemma_int_quotient_unique(self.num as int, self.den as int, q as int);
        }
        if exact {
            Option::Some(q)
        } else {
            Option::None
        }
    }

    pub fn checked_pow(self, e: Rat) -> (r: Result<Rat, NumError>)
        requires
            self.wf(),
            e.wf(),
        ensures
            r == self.spec_pow(e),
            r is Ok ==> r->Ok_0.wf(),
    {
        let k = match e.as_int() {
            Option::None => {
                return Result::Err(NumError::Inexact);
            },
            Option::Some(k) => k,
        };
        if k < 0 && self.num == 0 {
            return Result::Err(NumError::DivByZero);
        }
        let m: u64 = if k >= 0 {
            k as u64
        } else if k == i64::MIN {
            9223372036854775808u64
        } else {
            (-k) as u64
        };
        let mut acc = Rat { num: 1, den: 1 };
        let mut i: u64 = 0;
        while i < m
            invariant
                self.wf(),
                acc.wf(),
                i <= m,
                self.spec_pow_nonneg(i as nat) == Some(acc),
                e.spec_as_int() == Some(k),
                m as int == if k >= 0 { k as int } else { -(k as int) },
                k < 0 ==> self.num != 0,
            decreases m - i,
        {
            acc = match acc.checked_mul(self) {
                Option::None => {
                    proof {
                        assert(((i + 1) as nat - 1) as nat == i as nat);
                        assert(self.spec_pow_nonneg((i + 1) as nat) is None);
                        lemma_pow_none_mono(self, (i + 1) as nat, m as nat);
                        if k >= 0 {
                            assert(m as nat == k as nat);
                        } else if k == i64::MIN {
                            assert(m as nat == (-(k as int)) as nat);
                        } else {
                            assert(m as nat == (-(k as int)) as nat);
                        }
                    }
                    return Result::Err(NumError::Overflow);
                },
                Option::Some(a) => a,
            };
            i = i + 1;
        }
        if k >= 0 {
            Result::Ok(acc)
        } else {
            acc.checked_invert()
        }
    }

    pub fn checked_sqrt(self) -> (r: Result<Rat, NumError>)
        requires
            self.wf(),
        ensures
            r == self.spec_sqrt(),
            r is Ok ==> r->Ok_0.wf(),
    {
        if self.num < 0 {
            return Result::Err(NumError::Inexact);
        }
        let rn = match exact_isqrt(self.num) {
            Option::None => {
                return Result::Err(NumError::Inexact);
            },
            Option::Some(v) => v,
        };
        let rd = match exact_isqrt(self.den) {
            Option::None => {
                return Result::Err(NumError::Inexact);
            },
            Option::Some(v) => v,
        };
        proof {
            lemma_isqrt_unique(self.num as int, rn as int);
            lemma_isqrt_unique(self.den as int, rd as int);
            assert(rd > 0) by (nonlinear_arith)
                requires
                    rd * rd == self.den,
                    self.den > 0,
                    rd >= 0,
            ;
        }
        Result::Ok(Rat { num: rn, den: rd })
    }
}

/// Exact integer square root of a nonnegative `i64`, by binary search.
fn exact_isqrt(n: i64) -> (r: Option<i64>)
    requires
        n >= 0,
    ensures
        match r {
            Option::Some(v) => 0 <= v && v * v == n,
            Option::None => !has_exact_sqrt(n as int),
        },
{
    let mut lo: i64 = 0;
    let mut hi: i64 = 3037000499;
    proof {
        assert((3037000499int + 1) * (3037000499int + 1) > i64::MAX) by (nonlinear_arith);
    }
    while lo < hi
        invariant
            0 <= lo <= hi <= 3037000499,
            lo * lo <= n,
            n < (hi + 1) * (hi + 1),
        decreases hi - lo,
    {
        let mid = lo + (hi - lo + 1) / 2;
        proof {
            assert(lo < mid <= hi);
            assert(0 <= mid * mid <= 3037000499int * 3037000499int) by (nonlinear_arith)
                requires
                    0 < mid <= 3037000499,
            ;
            assert(3037000499int * 3037000499int <= i64::MAX) by (nonlinear_arith);
        }
        if mid * mid <= n {
            lo = mid;
        } else {
            hi = mid - 1;
        }
    }
    if lo * lo == n {
        Option::Some(lo)
    } else {
        proof {
            assert forall|r: int| 0 <= r implies #[trigger] (r * r) != n by {
                if r < lo {
                    assert(r * r < lo * lo) by (nonlinear_arith)
                        requires
                            0 <= r < lo,
                    ;
                } else if r > lo {
                    assert(r * r >= (lo + 1) * (lo + 1)) by (nonlinear_arith)
                        requires
                            r >= lo + 1 >= 0,
                    ;
                }
            }
        }
        Option::None
    }
}

/// A nonnegative square root is unique, so it is the `choose`n one.
proof fn lemma_isqrt_unique(n: int, r: int)
    requires
        0 <= r,
        r * r == n,
    ensures
        has_exact_sqrt(n),
        spec_isqrt(n) == r,
{
    let c = spec_isqrt(n);
    assert(0 <= c && c * c == n);
    assert(c == r) by (nonlinear_arith)
        requires
            0 <= c,
            0 <= r,
            c * c == n,
            r * r == n,
    ;
}

/// Once a partial power overflows, every longer power overflows too.
proof fn lemma_pow_none_mono(b: Rat, k: nat, m: nat)
    requires
        b.spec_pow_nonneg(k) is None,
        k <= m,
    ensures
        b.spec_pow_nonneg(m) is None,
    decreases m - k,
{
    if k < m {
        lemma_pow_none_mono(b, (k + 1) as nat, m);
    }
}

/// Euclidean quotient of an `i64` by a positive `i64` fits in `i64`.
proof fn lemma_euclid_div_bounds(x: int, d: int)
    requires
        in_i64(x),
        0 < d <= i64::MAX,
    ensures
        in_i64(x / d),
{
    let q = x / d;
    let r = x % d;
    vstd::arithmetic::div_mod::lemma_fundamental_div_mod(x, d);
    assert(0 <= r < d);
    if x >= 0 {
        assert(q >= 0 && q <= x) by (nonlinear_arith)
            requires
                d * q + r == x,
                0 <= r < d,
                x >= 0,
        ;
    } else {
        assert(x <= q && q <= 0) by (nonlinear_arith)
            requires
                d * q + r == x,
                0 <= r < d,
                x < 0,
        ;
    }
}

/// For positive `d`, at most one integer `p` satisfies `p * d == x`,
/// and it is the Euclidean quotient of `x` by `d`.
proof fn lemma_int_quotient_unique(x: int, d: int, q: int)
    requires
        0 < d,
        q == x / d,
    ensures
        forall|p: int| #[trigger] (p * d) == x ==> p == q,
{
    assert forall|p: int| #[trigger] (p * d) == x implies p == q by {
        vstd::arithmetic::div_mod::lemma_fundamental_div_mod(x, d);
        let r = x % d;
        assert(0 <= r < d);
        assert(p == q) by (nonlinear_arith)
            requires
                p * d == x,
                d * q + r == x,
                0 <= r < d,
        ;
    }
}

/// The product of two positive integers is positive.
proof fn lemma_pos_mul_pos(a: int, b: int)
    requires
        a > 0,
        b > 0,
    ensures
        a * b > 0,
{
    assert(a * b > 0) by (nonlinear_arith)
        requires
            a > 0,
            b > 0,
    ;
}

/// Multiplying a positive by a nonzero keeps the second factor's sign.
proof fn lemma_mul_sign(a: int, b: int)
    requires
        a > 0,
        b != 0,
    ensures
        b > 0 ==> a * b > 0,
        b < 0 ==> a * b < 0,
{
    assert((b > 0 ==> a * b > 0) && (b < 0 ==> a * b < 0)) by (nonlinear_arith)
        requires
            a > 0,
            b != 0,
    ;
}

} // verus!
