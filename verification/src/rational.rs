use vstd::prelude::*;
use crate::digits::{
    add_mag, canonical, cmp_mag, from_u64, lemma_val_empty, lemma_val_lower, lemma_val_one,
    mul_mag, mul_small, pow10, shift_mag, sub_mag, trim, val,
};
use crate::error::EvalError;
use vstd::arithmetic::power::pow;
use vstd::arithmetic::div_mod::{
    lemma_fundamental_div_mod, lemma_fundamental_div_mod_converse, lemma_div_multiples_vanish,
    lemma_mod_multiples_basic,
};
use vstd::string::{StringExecFns, StrSliceExecFns};

verus! {

/// An exact rational number of arbitrary size: a sign, a numerator
/// magnitude and a positive denominator magnitude, the magnitudes stored
/// as little-endian decimal digit vectors. Negation, addition, subtraction
/// and multiplication are total; division fails only on a zero divisor and
/// exponentiation only outside its exact domain. There is no magnitude
/// limit.
#[derive(Debug)]
pub struct Rational {
    neg: bool,
    num: Vec<u8>,
    den: Vec<u8>,
}

impl View for Rational {
    type V = (int, int);

    /// A rational is viewed as its (numerator, denominator) pair, the
    /// denominator positive.
    closed spec fn view(&self) -> (int, int) {
        (
            if self.neg {
                -(val(self.num@) as int)
            } else {
                val(self.num@) as int
            },
            val(self.den@) as int,
        )
    }
}

/// Every reachable rational has a positive denominator.
pub open spec fn wf(v: Rational) -> bool {
    v@.1 >= 1
}

/// The signed value of a sign-and-magnitude pair.
pub open spec fn ival(neg: bool, s: Seq<u8>) -> int {
    if neg {
        -(val(s) as int)
    } else {
        val(s) as int
    }
}

/// The constant returned for the identifier `pi`, as a fraction.
pub open spec fn spec_pi() -> (int, int) {
    (355, 113)
}

/// Quotient of two fractions with a nonzero divisor, the denominator kept
/// positive.
pub open spec fn spec_div_val(a: (int, int), b: (int, int)) -> (int, int) {
    if b.0 < 0 {
        (-(a.0 * b.1), -(a.1 * b.0))
    } else {
        (a.0 * b.1, a.1 * b.0)
    }
}

/// Division at the specification level: rejects exactly the zero divisor.
pub open spec fn spec_div(a: (int, int), b: (int, int)) -> Result<(int, int), EvalError> {
    if b.0 == 0 {
        Err(EvalError::DivisionByZero)
    } else {
        Ok(spec_div_val(a, b))
    }
}

/// An evaluation result against its specified fraction: success with the
/// specified value, or the same error.
pub open spec fn val_outcome(r: Result<Rational, EvalError>, s: Result<(int, int), EvalError>) -> bool {
    match (r, s) {
        (Ok(v), Ok(m)) => v@ == m,
        (Err(a), Err(b)) => a == b,
        _ => false,
    }
}

/// An exact copy of a digit vector.
fn copy_digits(v: &Vec<u8>) -> (r: Vec<u8>)
    ensures
        r@ == v@,
{
    let mut out: Vec<u8> = Vec::new();
    let mut i: usize = 0;
    while i < v.len()
        invariant
            i <= v@.len(),
            out@ =~= v@.take(i as int),
        decreases v.len() - i,
    {
        out.push(v[i]);
        i += 1;
    }
    proof {
        assert(v@.take(v@.len() as int) =~= v@);
    }
    out
}

/// Signed addition over sign-and-magnitude pairs: same signs add the
/// magnitudes, opposite signs subtract the smaller from the larger.
fn signed_add(neg1: bool, m1: &Vec<u8>, neg2: bool, m2: &Vec<u8>) -> (r: (bool, Vec<u8>))
    requires
        canonical(m1@),
        canonical(m2@),
    ensures
        canonical(r.1@),
        ival(r.0, r.1@) == ival(neg1, m1@) + ival(neg2, m2@),
        r.0 ==> val(r.1@) >= 1,
{
    if neg1 == neg2 {
        let m = add_mag(m1, m2);
        let rneg: bool = if m.len() == 0 {
            false
        } else {
            neg1
        };
        proof {
            if m@.len() > 0 {
                lemma_val_lower(m@);
            }
        }
        (rneg, m)
    } else {
        let c = cmp_mag(m1, m2);
        if c == 0 {
            let e: Vec<u8> = Vec::new();
            proof {
                assert(e@ =~= Seq::<u8>::empty());
            }
            (false, e)
        } else if c > 0 {
            let m = sub_mag(m1, m2);
            proof {
                if m@.len() > 0 {
                    lemma_val_lower(m@);
                }
            }
            (if m.len() == 0 {
                false
            } else {
                neg1
            }, m)
        } else {
            let m = sub_mag(m2, m1);
            proof {
                if m@.len() > 0 {
                    lemma_val_lower(m@);
                }
            }
            (if m.len() == 0 {
                false
            } else {
                neg2
            }, m)
        }
    }
}

impl Rational {
    #[verifier::type_invariant]
    spec fn inv(self) -> bool {
        &&& canonical(self.num@)
        &&& canonical(self.den@)
        &&& val(self.den@) >= 1
        &&& (self.neg ==> val(self.num@) >= 1)
    }

    /// The whole number `n`.
    pub fn from_int(n: i64) -> (r: Rational)
        ensures
            r@ == (n as int, 1int),
    {
        let neg: bool = n < 0;
        let mag128: i128 = if neg {
            -(n as i128)
        } else {
            n as i128
        };
        proof {
            if neg {
                assert(mag128 >= 1);
            }
        }
        let num = from_u64(mag128 as u64);
        let den = from_u64(1);
        Rational { neg, num, den }
    }

    /// The fraction `num / den`, sign-normalised so the denominator is
    /// positive. `None` exactly when `den` is zero.
    pub fn new(num: i64, den: i64) -> (r: Option<Rational>)
        ensures
            r is Some <==> den != 0,
            r matches Some(v) ==> v@ == (if den > 0 {
                (num as int, den as int)
            } else {
                (-(num as int), -(den as int))
            }),
    {
        if den == 0 {
            return None;
        }
        let frac_neg: bool = (num < 0) != (den < 0);
        let nm: u64 = (if num < 0 {
            -(num as i128)
        } else {
            num as i128
        }) as u64;
        let dm: u64 = (if den < 0 {
            -(den as i128)
        } else {
            den as i128
        }) as u64;
        proof {
            if num != 0 {
                assert(nm >= 1);
            }
            assert(dm >= 1);
        }
        let nd = from_u64(nm);
        let dd = from_u64(dm);
        let neg: bool = if num == 0 {
            false
        } else {
            frac_neg
        };
        Some(Rational { neg, num: nd, den: dd })
    }

    /// A fixed exact approximation of the constant pi.
    pub fn approx_pi() -> (r: Rational)
        ensures
            r@ == spec_pi(),
    {
        Rational { neg: false, num: from_u64(355), den: from_u64(113) }
    }

    /// True exactly when this rational is the zero value.
    pub fn is_zero(&self) -> (r: bool)
        ensures
            r <==> self@.0 == 0,
    {
        proof {
            use_type_invariant(self);
            lemma_val_empty();
            if self.num@.len() > 0 {
                lemma_val_lower(self.num@);
            } else {
                assert(self.num@ =~= Seq::<u8>::empty());
            }
        }
        self.num.len() == 0
    }

    /// Arithmetic negation; total, it never fails.
    pub fn neg(self) -> (r: Rational)
        ensures
            r@ == (-self@.0, self@.1),
    {
        proof {
            use_type_invariant(&self);
            if self.num@.len() > 0 {
                lemma_val_lower(self.num@);
            }
        }
        if self.num.len() == 0 {
            self
        } else {
            Rational { neg: !self.neg, num: self.num, den: self.den }
        }
    }

    /// Exact sum; total, it never fails.
    pub fn add(self, other: Rational) -> (r: Rational)
        ensures
            r@.0 == self@.0 * other@.1 + other@.0 * self@.1,
            r@.1 == self@.1 * other@.1,
    {
        proof {
            use_type_invariant(&self);
            use_type_invariant(&other);
        }
        let t1 = mul_mag(&self.num, &other.den);
        let t2 = mul_mag(&other.num, &self.den);
        let den = mul_mag(&self.den, &other.den);
        proof {
            lemma_ival_scale(self.neg, val(self.num@), val(other.den@));
            lemma_ival_scale(other.neg, val(other.num@), val(self.den@));
            assert(ival(self.neg, t1@) == self@.0 * other@.1);
            assert(ival(other.neg, t2@) == other@.0 * self@.1);
            lemma_ival_scale(false, val(self.den@), val(other.den@));
            assert(val(self.den@) * val(other.den@) >= 1) by (nonlinear_arith)
                requires
                    val(self.den@) >= 1,
                    val(other.den@) >= 1,
            {}
        }
        let (rneg, rnum) = signed_add(self.neg, &t1, other.neg, &t2);
        Rational { neg: rneg, num: rnum, den }
    }

    /// Exact difference; total, it never fails.
    pub fn sub(self, other: Rational) -> (r: Rational)
        ensures
            r@.0 == self@.0 * other@.1 - other@.0 * self@.1,
            r@.1 == self@.1 * other@.1,
    {
        proof {
            use_type_invariant(&self);
            use_type_invariant(&other);
        }
        let t1 = mul_mag(&self.num, &other.den);
        let t2 = mul_mag(&other.num, &self.den);
        let den = mul_mag(&self.den, &other.den);
        proof {
            lemma_ival_scale(self.neg, val(self.num@), val(other.den@));
            lemma_ival_scale(other.neg, val(other.num@), val(self.den@));
            assert(ival(self.neg, t1@) == self@.0 * other@.1);
            assert(ival(other.neg, t2@) == other@.0 * self@.1);
            assert(ival(!other.neg, t2@) == -ival(other.neg, t2@));
            lemma_ival_scale(false, val(self.den@), val(other.den@));
            assert(val(self.den@) * val(other.den@) >= 1) by (nonlinear_arith)
                requires
                    val(self.den@) >= 1,
                    val(other.den@) >= 1,
            {}
        }
        let (rneg, rnum) = signed_add(self.neg, &t1, !other.neg, &t2);
        Rational { neg: rneg, num: rnum, den }
    }

    /// Exact product; total, it never fails.
    pub fn mul(self, other: Rational) -> (r: Rational)
        ensures
            r@.0 == self@.0 * other@.0,
            r@.1 == self@.1 * other@.1,
    {
        proof {
            use_type_invariant(&self);
            use_type_invariant(&other);
        }
        let num = mul_mag(&self.num, &other.num);
        let den = mul_mag(&self.den, &other.den);
        let neg: bool = if num.len() == 0 {
            false
        } else {
            self.neg != other.neg
        };
        proof {
            assert(val(self.den@) * val(other.den@) >= 1) by (nonlinear_arith)
                requires
                    val(self.den@) >= 1,
                    val(other.den@) >= 1,
            {}
            if num@.len() > 0 {
                lemma_val_lower(num@);
            }
            lemma_ival_mul(self.neg, val(self.num@), other.neg, val(other.num@));
            lemma_ival_scale(false, val(self.den@), val(other.den@));
        }
        Rational { neg, num, den }
    }

    /// Exact quotient; fails with `DivisionByZero` exactly when `other` is
    /// the zero value.
    pub fn div(self, other: Rational) -> (r: Result<Rational, EvalError>)
        ensures
            val_outcome(r, spec_div(self@, other@)),
    {
        proof {
            use_type_invariant(&self);
            use_type_invariant(&other);
            if other.num@.len() > 0 {
                lemma_val_lower(other.num@);
            }
        }
        if other.num.len() == 0 {
            return Err(EvalError::DivisionByZero);
        }
        let num = mul_mag(&self.num, &other.den);
        let den = mul_mag(&self.den, &other.num);
        let neg: bool = if num.len() == 0 {
            false
        } else {
            self.neg != other.neg
        };
        proof {
            assert(val(self.den@) * val(other.num@) >= 1) by (nonlinear_arith)
                requires
                    val(self.den@) >= 1,
                    val(other.num@) >= 1,
            {}
            if num@.len() > 0 {
                lemma_val_lower(num@);
            }
            lemma_ival_scale(self.neg, val(self.num@), val(other.den@));
            lemma_ival_mul(false, val(self.den@), other.neg, val(other.num@));
            assert(self@.0 * other@.1 == (if self.neg {
                -((val(self.num@) * val(other.den@)) as int)
            } else {
                (val(self.num@) * val(other.den@)) as int
            }));
            assert(self@.1 * other@.0 == (if other.neg {
                -((val(self.den@) * val(other.num@)) as int)
            } else {
                (val(self.den@) * val(other.num@)) as int
            }));
        }
        Ok(Rational { neg, num, den })
    }
}

/// Multiplying a signed value by a nonnegative factor scales the
/// magnitude and keeps the sign.
proof fn lemma_ival_scale(neg: bool, mval: nat, f: nat)
    ensures
        (if neg {
            -(mval as int)
        } else {
            mval as int
        }) * (f as int) == (if neg {
            -((mval * f) as int)
        } else {
            (mval * f) as int
        }),
{
    if neg {
        assert((-(mval as int)) * (f as int) == -((mval * f) as int)) by (nonlinear_arith);
    } else {
        assert((mval as int) * (f as int) == (mval * f) as int) by (nonlinear_arith);
    }
}

/// The product of two signed values has the product magnitude and the
/// exclusive-or sign.
proof fn lemma_ival_mul(neg1: bool, v1: nat, neg2: bool, v2: nat)
    ensures
        (if neg1 {
            -(v1 as int)
        } else {
            v1 as int
        }) * (if neg2 {
            -(v2 as int)
        } else {
            v2 as int
        }) == (if neg1 != neg2 {
            -((v1 * v2) as int)
        } else {
            (v1 * v2) as int
        }),
{
    assert((if neg1 {
        -(v1 as int)
    } else {
        v1 as int
    }) * (if neg2 {
        -(v2 as int)
    } else {
        v2 as int
    }) == (if neg1 != neg2 {
        -((v1 * v2) as int)
    } else {
        (v1 * v2) as int
    })) by (nonlinear_arith);
}


/// The magnitude of an integer.
pub open spec fn abs_int(n: int) -> int {
    if n < 0 {
        -n
    } else {
        n
    }
}

/// Exponentiation at the specification level. The exact domain: the
/// exponent must be an integer of fewer than nineteen decimal digits, and
/// a negative exponent needs a nonzero base.
pub open spec fn spec_pow_val(a: (int, int), b: (int, int)) -> Result<(int, int), EvalError> {
    if b.0 % b.1 != 0 || abs_int(b.0) >= b.1 * pow10(18) {
        Err(EvalError::InvalidExponent)
    } else {
        let k = b.0 / b.1;
        if k >= 0 {
            Ok((pow(a.0, k as nat), pow(a.1, k as nat)))
        } else if a.0 == 0 {
            Err(EvalError::InvalidExponent)
        } else {
            let pn = pow(a.1, (-k) as nat);
            let pd = pow(a.0, (-k) as nat);
            if pd < 0 {
                Ok((-pn, -pd))
            } else {
                Ok((pn, pd))
            }
        }
    }
}

/// For a negative numerator over a positive denominator, division and
/// divisibility can be read off the magnitudes.
proof fn lemma_neg_div(n: int, d: int)
    requires
        n < 0,
        1 <= d,
    ensures
        n % d == 0 <==> (-n) % d == 0,
        (-n) % d == 0 ==> n / d == -((-n) / d),
{
    lemma_fundamental_div_mod(-n, d);
    lemma_fundamental_div_mod(n, d);
    if (-n) % d == 0 {
        let q = (-n) / d;
        assert(n == d * (-q)) by (nonlinear_arith)
            requires
                -n == d * q,
        {}
        lemma_div_multiples_vanish(-q, d);
        assert((-q) * d == d * (-q)) by (nonlinear_arith);
        lemma_mod_multiples_basic(-q, d);
    }
    if n % d == 0 {
        let q = n / d;
        assert(-n == d * (-q)) by (nonlinear_arith)
            requires
                n == d * q,
        {}
        assert((-q) * d == d * (-q)) by (nonlinear_arith);
        lemma_mod_multiples_basic(-q, d);
    }
}

/// A power of a negated base is the power of the base, negated for odd
/// exponents.
proof fn lemma_pow_parity(v: int, e: nat)
    ensures
        pow(-v, e) == if e % 2 == 0 {
            pow(v, e)
        } else {
            -pow(v, e)
        },
    decreases e,
{
    if e > 0 {
        lemma_pow_parity(v, (e - 1) as nat);
        vstd::arithmetic::power::lemma_pow_adds(-v, (e - 1) as nat, 1);
        vstd::arithmetic::power::lemma_pow_adds(v, (e - 1) as nat, 1);
        vstd::arithmetic::power::lemma_pow1(-v);
        vstd::arithmetic::power::lemma_pow1(v);
        assert(e % 2 != (e - 1) as nat % 2 && e % 2 < 2) by (nonlinear_arith)
            requires
                e >= 1,
        {}
        assert((e - 1) as nat + 1 == e);
        assert(pow(-v, e) == pow(-v, (e - 1) as nat) * (-v));
        assert(pow(v, e) == pow(v, (e - 1) as nat) * v);
        if (e - 1) as nat % 2 == 0 {
            assert(e % 2 == 1);
            assert(pow(-v, (e - 1) as nat) == pow(v, (e - 1) as nat));
            assert(pow(v, (e - 1) as nat) * (-v) == -(pow(v, (e - 1) as nat) * v))
                by (nonlinear_arith);
            assert(pow(-v, e) == -pow(v, e));
        } else {
            assert(e % 2 == 0);
            assert(pow(-v, (e - 1) as nat) == -pow(v, (e - 1) as nat));
            assert((-pow(v, (e - 1) as nat)) * (-v) == pow(v, (e - 1) as nat) * v)
                by (nonlinear_arith);
            assert(pow(-v, e) == pow(v, e));
        }
    } else {
        vstd::arithmetic::power::lemma_pow0(v);
        vstd::arithmetic::power::lemma_pow0(-v);
        assert(e % 2 == 0);
    }
}

/// Repeated multiplication of a digit-vector magnitude.
fn pow_mag(x: &Vec<u8>, e: u64) -> (r: Vec<u8>)
    requires
        canonical(x@),
    ensures
        canonical(r@),
        val(r@) as int == pow(val(x@) as int, e as nat),
{
    if e == 0 {
        let mut v: Vec<u8> = Vec::new();
        v.push(1);
        proof {
            assert(v@ =~= seq![1u8]);
            lemma_val_one();
            vstd::arithmetic::power::lemma_pow0(val(x@) as int);
        }
        return v;
    }
    if x.len() == 0 {
        proof {
            vstd::arithmetic::power::lemma0_pow(e as nat);
            lemma_val_empty();
            assert(x@ =~= Seq::<u8>::empty());
        }
        let v: Vec<u8> = Vec::new();
        proof {
            assert(v@ =~= Seq::<u8>::empty());
        }
        return v;
    }
    if x.len() == 1 && x[0] == 1 {
        proof {
            assert(x@.drop_first() =~= Seq::<u8>::empty());
            lemma_val_empty();
            assert(val(x@) == x@[0] as nat + 10 * val(x@.drop_first()));
            vstd::arithmetic::power::lemma1_pow(e as nat);
        }
        let mut v: Vec<u8> = Vec::new();
        v.push(1);
        proof {
            assert(v@ =~= seq![1u8]);
            lemma_val_one();
        }
        return v;
    }
    let mut acc: Vec<u8> = Vec::new();
    acc.push(1);
    proof {
        assert(acc@ =~= seq![1u8]);
        lemma_val_one();
        vstd::arithmetic::power::lemma_pow0(val(x@) as int);
    }
    let mut i: u64 = 0;
    while i < e
        invariant
            i <= e,
            canonical(x@),
            canonical(acc@),
            val(acc@) as int == pow(val(x@) as int, i as nat),
        decreases e - i,
    {
        let next = mul_mag(&acc, x);
        proof {
            vstd::arithmetic::power::lemma_pow_adds(val(x@) as int, i as nat, 1);
            vstd::arithmetic::power::lemma_pow1(val(x@) as int);
            assert((val(acc@) * val(x@)) as int == pow(val(x@) as int, i as nat) * pow(
                val(x@) as int,
                1,
            )) by (nonlinear_arith)
                requires
                    val(acc@) as int == pow(val(x@) as int, i as nat),
                    pow(val(x@) as int, 1) == val(x@) as int,
            {}
        }
        acc = next;
        i += 1;
    }
    acc
}

/// The quotient of two magnitudes when it divides exactly and has at most
/// eighteen digits, found by binary search over machine words.
fn exp_quotient(m2: &Vec<u8>, d2: &Vec<u8>) -> (r: Option<u64>)
    requires
        canonical(m2@),
        canonical(d2@),
        val(d2@) >= 1,
        val(m2@) < val(d2@) * pow10(18),
    ensures
        r is Some <==> val(m2@) as int % (val(d2@) as int) == 0,
        r matches Some(q) ==> q as int == val(m2@) as int / (val(d2@) as int),
{
    let mut lo: u64 = 0;
    let mut hi: u64 = 1000000000000000000;
    proof {
        lemma_pow10_18();
        assert(val(d2@) * 0 == 0) by (nonlinear_arith);
    }
    while hi - lo > 1
        invariant
            lo < hi <= 1000000000000000000,
            canonical(m2@),
            canonical(d2@),
            val(d2@) >= 1,
            val(d2@) * lo <= val(m2@) < val(d2@) * hi,
        decreases hi - lo,
    {
        let mid: u64 = lo + (hi - lo) / 2;
        let tm = mul_small(d2, mid);
        let c = cmp_mag(&tm, m2);
        if c <= 0 {
            lo = mid;
        } else {
            hi = mid;
        }
    }
    let tq = mul_small(d2, lo);
    let c = cmp_mag(&tq, m2);
    proof {
        let m = val(m2@) as int;
        let d = val(d2@) as int;
        assert(0 <= m - d * lo) by (nonlinear_arith)
            requires
                d * lo <= m,
        {}
        assert(m - d * lo < d) by (nonlinear_arith)
            requires
                (m as int) < d * (lo + 1),
        {}
        assert(m == (lo as int) * d + (m - d * lo)) by (nonlinear_arith);
        lemma_fundamental_div_mod_converse(m, d, lo as int, m - d * lo);
    }
    if c == 0 {
        Some(lo)
    } else {
        None
    }
}

/// Ten to the eighteenth, spelled out.
proof fn lemma_pow10_18()
    ensures
        pow10(18) == 1000000000000000000,
{
    assert(pow10(18) == 1000000000000000000) by {
        reveal_with_fuel(pow10, 20);
    }
}

impl Rational {
    /// Exact exponentiation. The exponent must be an integer value of
    /// fewer than nineteen decimal digits; a negative exponent needs a
    /// nonzero base. Fails with `InvalidExponent` outside that domain.
    pub fn pow(self, other: Rational) -> (r: Result<Rational, EvalError>)
        ensures
            val_outcome(r, spec_pow_val(self@, other@)),
    {
        proof {
            use_type_invariant(&self);
            use_type_invariant(&other);
            lemma_val_empty();
            if other.num@.len() > 0 {
                lemma_val_lower(other.num@);
            } else {
                assert(other.num@ =~= Seq::<u8>::empty());
            }
            if self.num@.len() > 0 {
                lemma_val_lower(self.num@);
            } else {
                assert(self.num@ =~= Seq::<u8>::empty());
            }
            lemma_pow10_18();
        }
        let mut th = shift_mag(&other.den, 18);
        trim(&mut th);
        let szc = cmp_mag(&other.num, &th);
        proof {
            assert(val(other.den@) * pow10(18) == pow10(18) * val(other.den@))
                by (nonlinear_arith);
            assert(abs_int(other@.0) == val(other.num@));
        }
        if szc >= 0 {
            return Err(EvalError::InvalidExponent);
        }
        let qopt = exp_quotient(&other.num, &other.den);
        proof {
            if other.neg {
                lemma_neg_div(other@.0, other@.1);
            }
        }
        match qopt {
            None => Err(EvalError::InvalidExponent),
            Some(q) => {
                proof {
                    assert(other@.0 % other@.1 == 0);
                }
                if !other.neg {
                    proof {
                        assert(other@.0 / other@.1 == q as int);
                    }
                    let pn = pow_mag(&self.num, q);
                    let pd = pow_mag(&self.den, q);
                    let rneg: bool = if pn.len() == 0 {
                        false
                    } else {
                        self.neg && q % 2 == 1
                    };
                    proof {
                        lemma_pow_sign_bridge(self.neg, val(self.num@), q as nat);
                        vstd::arithmetic::power::lemma_pow_positive(val(self.den@) as int, q as nat);
                        if pn@.len() > 0 {
                            lemma_val_lower(pn@);
                        } else {
                            assert(pn@ =~= Seq::<u8>::empty());
                        }
                        assert(pow(self@.0, q as nat) == (if rneg {
                            -(val(pn@) as int)
                        } else {
                            val(pn@) as int
                        }));
                        assert(pow(self@.1, q as nat) == val(pd@) as int);
                    }
                    Ok(Rational { neg: rneg, num: pn, den: pd })
                } else {
                    proof {
                        assert(other@.0 / other@.1 == -(q as int));
                        lemma_fundamental_div_mod(val(other.num@) as int, val(other.den@) as int);
                        assert(q >= 1) by (nonlinear_arith)
                            requires
                                val(other.num@) as int == val(other.den@) as int * (q as int),
                                val(other.num@) >= 1,
                                val(other.den@) >= 1,
                        {}
                    }
                    if self.num.len() == 0 {
                        return Err(EvalError::InvalidExponent);
                    }
                    let pn = pow_mag(&self.den, q);
                    let pd = pow_mag(&self.num, q);
                    let rneg: bool = self.neg && q % 2 == 1;
                    proof {
                        assert(other@.0 / other@.1 == -(q as int));
                        lemma_pow_sign_bridge(self.neg, val(self.num@), q as nat);
                        vstd::arithmetic::power::lemma_pow_positive(val(self.den@) as int, q as nat);
                        vstd::arithmetic::power::lemma_pow_positive(val(self.num@) as int, q as nat);
                        if pn@.len() > 0 {
                            lemma_val_lower(pn@);
                        }
                        if pd@.len() > 0 {
                            lemma_val_lower(pd@);
                        }
                        assert((-(-(q as int))) as nat == q as nat);
                        assert(pow(self@.0, q as nat) == (if self.neg && q % 2 == 1 {
                            -(val(pd@) as int)
                        } else {
                            val(pd@) as int
                        }));
                        assert(pow(self@.1, q as nat) == val(pn@) as int);
                    }
                    Ok(Rational { neg: rneg, num: pn, den: pd })
                }
            },
        }
    }
}

/// The power of a signed base over its magnitude, with the parity sign.
proof fn lemma_pow_sign_bridge(neg: bool, v: nat, e: nat)
    ensures
        pow(if neg {
            -(v as int)
        } else {
            v as int
        }, e) == if neg && e % 2 == 1 {
            -pow(v as int, e)
        } else {
            pow(v as int, e)
        },
{
    if neg {
        lemma_pow_parity(v as int, e);
    }
}



/// The decimal digit character for `d` (meaningful for `d < 10`).
pub open spec fn digit_char(d: nat) -> char {
    if d == 0 {
        '0'
    } else if d == 1 {
        '1'
    } else if d == 2 {
        '2'
    } else if d == 3 {
        '3'
    } else if d == 4 {
        '4'
    } else if d == 5 {
        '5'
    } else if d == 6 {
        '6'
    } else if d == 7 {
        '7'
    } else if d == 8 {
        '8'
    } else {
        '9'
    }
}

/// The decimal rendering of a natural number, most significant digit first.
pub open spec fn nat_text(n: nat) -> Seq<char>
    decreases n,
{
    if n < 10 {
        seq![digit_char(n)]
    } else {
        nat_text(n / 10).push(digit_char(n % 10))
    }
}

/// The decimal rendering of an integer: a leading minus sign for negative
/// values, then the magnitude.
pub open spec fn int_text(n: int) -> Seq<char> {
    if n < 0 {
        seq!['-'] + nat_text((-n) as nat)
    } else {
        nat_text(n as nat)
    }
}

/// The one-character string for the decimal digit `d`.
fn digit_str(d: u8) -> (r: &'static str)
    requires
        d < 10,
    ensures
        r@ == seq![digit_char(d as nat)],
{
    proof {
        reveal_strlit("0");
        reveal_strlit("1");
        reveal_strlit("2");
        reveal_strlit("3");
        reveal_strlit("4");
        reveal_strlit("5");
        reveal_strlit("6");
        reveal_strlit("7");
        reveal_strlit("8");
        reveal_strlit("9");
        assert("0"@ =~= seq!['0']);
        assert("1"@ =~= seq!['1']);
        assert("2"@ =~= seq!['2']);
        assert("3"@ =~= seq!['3']);
        assert("4"@ =~= seq!['4']);
        assert("5"@ =~= seq!['5']);
        assert("6"@ =~= seq!['6']);
        assert("7"@ =~= seq!['7']);
        assert("8"@ =~= seq!['8']);
        assert("9"@ =~= seq!['9']);
    }
    if d == 0 {
        "0"
    } else if d == 1 {
        "1"
    } else if d == 2 {
        "2"
    } else if d == 3 {
        "3"
    } else if d == 4 {
        "4"
    } else if d == 5 {
        "5"
    } else if d == 6 {
        "6"
    } else if d == 7 {
        "7"
    } else if d == 8 {
        "8"
    } else {
        "9"
    }
}

/// The decimal text of a canonical digit vector is its digits read from
/// the high end.
proof fn lemma_nat_text_digits(s: Seq<u8>)
    requires
        canonical(s),
        s.len() > 0,
    ensures
        nat_text(val(s)) == Seq::new(s.len(), |i: int| digit_char(s[s.len() - 1 - i] as nat)),
    decreases s.len(),
{
    let v = val(s);
    assert(v == s[0] as nat + 10 * val(s.drop_first()));
    if s.len() == 1 {
        assert(s.drop_first() =~= Seq::<u8>::empty());
        assert(v == s[0] as nat);
        assert(nat_text(v) =~= Seq::new(s.len(), |i: int| digit_char(s[s.len() - 1 - i] as nat)));
    } else {
        assert(canonical(s.drop_first()));
        lemma_val_lower(s);
        assert(pow10((s.len() - 1) as nat) >= 10) by {
            crate::digits::lemma_pow10_mono(1, (s.len() - 1) as nat);
            assert(pow10(1) == 10 * pow10(0));
        }
        assert(v >= 10);
        assert(v as int == (val(s.drop_first()) as int) * 10 + s[0]) by (nonlinear_arith)
            requires
                v == s[0] as nat + 10 * val(s.drop_first()),
        {}
        lemma_fundamental_div_mod_converse(
            v as int,
            10,
            val(s.drop_first()) as int,
            s[0] as int,
        );
        assert(v % 10 == s[0] as nat);
        assert(v / 10 == val(s.drop_first()));
        lemma_nat_text_digits(s.drop_first());
        assert(nat_text(v) =~= Seq::new(s.len(), |i: int| digit_char(s[s.len() - 1 - i] as nat)));
    }
}

/// Appends the decimal text of a magnitude, or `0` for the empty one.
fn push_digits(out: &mut String, v: &Vec<u8>)
    requires
        canonical(v@),
    ensures
        final(out)@ == old(out)@ + nat_text(val(v@)),
{
    if v.len() == 0 {
        out.append("0");
        proof {
            reveal_strlit("0");
            assert(old(out)@ + nat_text(0) =~= final(out)@);
        }
        return ;
    }
    let mut i: usize = v.len();
    while i > 0
        invariant
            i <= v@.len(),
            canonical(v@),
            out@ == old(out)@ + Seq::new(
                (v@.len() - i) as nat,
                |j: int| digit_char(v@[v@.len() - 1 - j] as nat),
            ),
        decreases i,
    {
        i -= 1;
        proof {
            assert(v@[i as int] <= 9);
        }
        let d = digit_str(v[i]);
        out.append(d);
        proof {
            assert(out@ =~= old(out)@ + Seq::new(
                (v@.len() - i) as nat,
                |j: int| digit_char(v@[v@.len() - 1 - j] as nat),
            ));
        }
    }
    proof {
        lemma_nat_text_digits(v@);
        assert(out@ =~= old(out)@ + nat_text(val(v@)));
    }
}

impl Rational {
    /// The canonical text form: the numerator alone for whole values, and
    /// numerator, a slash, denominator otherwise.
    pub open spec fn text(self) -> Seq<char> {
        if self@.1 == 1 {
            int_text(self@.0)
        } else {
            int_text(self@.0) + seq!['/'] + int_text(self@.1)
        }
    }

    /// Renders the canonical text form.
    pub fn to_text(&self) -> (r: String)
        ensures
            r@ == self.text(),
    {
        proof {
            use_type_invariant(self);
            if self.num@.len() > 0 {
                lemma_val_lower(self.num@);
            }
            lemma_val_lower(self.den@);
            if self.den@.len() >= 2 {
                crate::digits::lemma_pow10_mono(1, (self.den@.len() - 1) as nat);
                assert(pow10(1) == 10 * pow10(0));
            }
        }
        let mut s = String::new();
        if self.neg {
            s.append("-");
            proof {
                reveal_strlit("-");
                assert(s@ =~= seq!['-']);
            }
        }
        push_digits(&mut s, &self.num);
        proof {
            assert(s@ =~= int_text(self@.0));
        }
        let whole: bool = self.den.len() == 1 && self.den[0] == 1;
        proof {
            if self.den@.len() == 1 {
                assert(self.den@.drop_first() =~= Seq::<u8>::empty());
                lemma_val_empty();
                assert(val(self.den@) == self.den@[0] as nat + 10 * val(self.den@.drop_first()));
            }
        }
        if !whole {
            s.append("/");
            proof {
                reveal_strlit("/");
                assert(s@ =~= int_text(self@.0) + seq!['/']);
            }
            push_digits(&mut s, &self.den);
        }
        proof {
            assert(s@ =~= self.text());
        }
        s
    }
}

impl Clone for Rational {
    /// A copy with the same value.
    fn clone(&self) -> (res: Self)
        ensures
            res@ == self@,
    {
        proof {
            use_type_invariant(self);
        }
        Rational { neg: self.neg, num: copy_digits(&self.num), den: copy_digits(&self.den) }
    }
}

impl PartialEq for Rational {
    /// Two rationals are equal exactly when they denote the same value,
    /// whether or not the fractions are reduced.
    fn eq(&self, other: &Rational) -> (r: bool) {
        proof {
            use_type_invariant(self);
            use_type_invariant(other);
            if self.num@.len() > 0 {
                lemma_val_lower(self.num@);
            }
            if other.num@.len() > 0 {
                lemma_val_lower(other.num@);
            }
            lemma_ival_scale(self.neg, val(self.num@), val(other.den@));
            lemma_ival_scale(other.neg, val(other.num@), val(self.den@));
            if self.neg != other.neg {
                assert(val(self.num@) >= 1 ==> val(self.num@) * val(other.den@) >= 1)
                    by (nonlinear_arith)
                    requires
                        val(other.den@) >= 1,
                {}
                assert(val(other.num@) >= 1 ==> val(other.num@) * val(self.den@) >= 1)
                    by (nonlinear_arith)
                    requires
                        val(self.den@) >= 1,
                {}
                assert(val(self.num@) == 0 ==> val(self.num@) * val(other.den@) == 0)
                    by (nonlinear_arith);
                assert(val(other.num@) == 0 ==> val(other.num@) * val(self.den@) == 0)
                    by (nonlinear_arith);
            }
        }
        if self.neg != other.neg {
            self.num.len() == 0 && other.num.len() == 0
        } else {
            let t1 = mul_mag(&self.num, &other.den);
            let t2 = mul_mag(&other.num, &self.den);
            cmp_mag(&t1, &t2) == 0
        }
    }
}

impl vstd::std_specs::cmp::PartialEqSpecImpl for Rational {
    open spec fn obeys_eq_spec() -> bool {
        true
    }

    open spec fn eq_spec(&self, other: &Rational) -> bool {
        self@.0 * other@.1 == other@.0 * self@.1
    }
}


} // verus!
