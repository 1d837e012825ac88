//! Exact rational numbers: a signed numerator over a strictly positive
//! denominator, with checked arithmetic that reports overflow instead of
//! wrapping, cross-multiplication equality, reduction to lowest terms,
//! and a decimal rendering.

use vstd::prelude::*;
use vstd::std_specs::cmp::PartialEqSpec;
use vstd::string::StringExecFns;

verus! {

/// Everything that can go wrong while evaluating an expression.
///
/// The arithmetic operators report `DivisionByZero` and
/// `ArithmeticOverflow`; the parser adds `MalformedExpression` (an
/// unexpected token, or a token where the grammar wanted another) and
/// `IllFormedExpression` (input ended where a factor was required).
#[derive(Debug, Clone, Copy, PartialEq, Eq, Structural)]
pub enum EvalError {
    DivisionByZero,
    MalformedExpression,
    IllFormedExpression,
    ArithmeticOverflow,
}

/// The mathematical value of a `Fraction`: a numerator and a denominator
/// as unbounded integers.  Contracts speak of these, never of machine
/// representations.
pub ghost struct Rat {
    pub n: int,
    pub d: int,
}

/// A `Rat` that a `Fraction` can hold: positive denominator, both
/// components within the machine ranges.
pub open spec fn rat_wf(r: Rat) -> bool {
    &&& i64::MIN <= r.n <= i64::MAX
    &&& 0 < r.d <= u64::MAX
}

/// Two rationals are equal exactly when cross-multiplication says so:
/// a/b == c/d iff a*d == c*b.  This holds of unreduced representations
/// too, which field-wise comparison would wrongly distinguish.
pub open spec fn rat_eq(a: Rat, b: Rat) -> bool {
    a.n * b.d == b.n * a.d
}

/// An exact rational number.  The denominator is always strictly
/// positive; the sign lives entirely in the numerator.  Arithmetic does
/// not reduce its results: callers wanting lowest terms call `simplify`.
#[derive(Debug, Clone, Copy)]
pub struct Fraction {
    numer: i64,
    denom: u64,
}

impl View for Fraction {
    type V = Rat;

    closed spec fn view(&self) -> Rat {
        Rat { n: self.numer as int, d: self.denom as int }
    }
}

impl Fraction {
    /// The denominator is never zero.
    #[verifier::type_invariant]
    spec fn type_inv(self) -> bool {
        self.denom > 0
    }

    /// Builds numer/denom.  A zero denominator is a programming error,
    /// not a recoverable condition, and is ruled out by the contract.
    pub fn new(numer: i64, denom: u64) -> (r: Self)
        requires
            denom != 0,
        ensures
            r@ == (Rat { n: numer as int, d: denom as int }),
    {
        Self { numer, denom }
    }

    /// The integer `n` as a fraction over 1.
    pub fn from_int(n: i64) -> (r: Self)
        ensures
            r@ == (Rat { n: n as int, d: 1int }),
    {
        Self { numer: n, denom: 1 }
    }

    pub fn numer(&self) -> (r: i64)
        ensures
            r == self@.n,
    {
        self.numer
    }

    pub fn denom(&self) -> (r: u64)
        ensures
            r == self@.d,
            r > 0,
    {
        proof {
            use_type_invariant(self);
        }
        self.denom
    }

    /// Sum over the least common denominator.
    pub fn add(self, rhs: Fraction) -> (r: Result<Fraction, EvalError>)
        ensures
            fres(r) == rat_add(self@, rhs@),
    {
        proof {
            use_type_invariant(&self);
            use_type_invariant(&rhs);
        }
        match self.denom.checked_mul(rhs.denom) {
            None => Err(EvalError::ArithmeticOverflow),
            Some(_) => {
                proof {
                    lemma_lcm_props(self.denom as nat, rhs.denom as nat);
                }
                let l = lcm(self.denom, rhs.denom);
                let m1 = l / self.denom;
                let m2 = l / rhs.denom;
                if m1 > i64::MAX as u64 || m2 > i64::MAX as u64 {
                    Err(EvalError::ArithmeticOverflow)
                } else {
                    match self.numer.checked_mul(m1 as i64) {
                        None => Err(EvalError::ArithmeticOverflow),
                        Some(t1) => match rhs.numer.checked_mul(m2 as i64) {
                            None => Err(EvalError::ArithmeticOverflow),
                            Some(t2) => match t1.checked_add(t2) {
                                None => Err(EvalError::ArithmeticOverflow),
                                Some(n) => Ok(Fraction { numer: n, denom: l }),
                            },
                        },
                    }
                }
            },
        }
    }

    /// Difference over the least common denominator.
    pub fn sub(self, rhs: Fraction) -> (r: Result<Fraction, EvalError>)
        ensures
            fres(r) == rat_sub(self@, rhs@),
    {
        proof {
            use_type_invariant(&self);
            use_type_invariant(&rhs);
        }
        match self.denom.checked_mul(rhs.denom) {
            None => Err(EvalError::ArithmeticOverflow),
            Some(_) => {
                proof {
                    lemma_lcm_props(self.denom as nat, rhs.denom as nat);
                }
                let l = lcm(self.denom, rhs.denom);
                let m1 = l / self.denom;
                let m2 = l / rhs.denom;
                if m1 > i64::MAX as u64 || m2 > i64::MAX as u64 {
                    Err(EvalError::ArithmeticOverflow)
                } else {
                    match self.numer.checked_mul(m1 as i64) {
                        None => Err(EvalError::ArithmeticOverflow),
                        Some(t1) => match rhs.numer.checked_mul(m2 as i64) {
                            None => Err(EvalError::ArithmeticOverflow),
                            Some(t2) => match t1.checked_sub(t2) {
                                None => Err(EvalError::ArithmeticOverflow),
                                Some(n) => Ok(Fraction { numer: n, denom: l }),
                            },
                        },
                    }
                }
            },
        }
    }

    /// Product, numerator by numerator and denominator by denominator.
    pub fn mul(self, rhs: Fraction) -> (r: Result<Fraction, EvalError>)
        ensures
            fres(r) == rat_mul(self@, rhs@),
    {
        proof {
            use_type_invariant(&self);
            use_type_invariant(&rhs);
        }
        match self.numer.checked_mul(rhs.numer) {
            None => Err(EvalError::ArithmeticOverflow),
            Some(n) => match self.denom.checked_mul(rhs.denom) {
                None => Err(EvalError::ArithmeticOverflow),
                Some(d) => {
                    proof {
                        assert(d > 0) by (nonlinear_arith)
                            requires
                                d == self.denom * rhs.denom,
                                self.denom > 0,
                                rhs.denom > 0,
                        ;
                    }
                    Ok(Fraction { numer: n, denom: d })
                },
            },
        }
    }

    /// Quotient: (a/b) / (c/d) == (a*d) / (b*c), with the divisor's
    /// sign folded into the numerator so the denominator stays
    /// positive.  Fails with `DivisionByZero` when the divisor's
    /// numerator is zero.
    pub fn div(self, rhs: Fraction) -> (r: Result<Fraction, EvalError>)
        ensures
            fres(r) == rat_div(self@, rhs@),
    {
        proof {
            use_type_invariant(&self);
            use_type_invariant(&rhs);
        }
        if rhs.numer == 0 {
            Err(EvalError::DivisionByZero)
        } else if rhs.denom > i64::MAX as u64 {
            Err(EvalError::ArithmeticOverflow)
        } else {
            match self.numer.checked_mul(rhs.denom as i64) {
                None => Err(EvalError::ArithmeticOverflow),
                Some(t) => {
                    let m = abs_u64(rhs.numer);
                    match m.checked_mul(self.denom) {
                        None => Err(EvalError::ArithmeticOverflow),
                        Some(d) => {
                            proof {
                                assert(d > 0) by (nonlinear_arith)
                                    requires
                                        d == m * self.denom,
                                        m > 0,
                                        self.denom > 0,
                                ;
                            }
                            if rhs.numer < 0 {
                                match 0i64.checked_sub(t) {
                                    None => Err(EvalError::ArithmeticOverflow),
                                    Some(n) => Ok(Fraction { numer: n, denom: d }),
                                }
                            } else {
                                Ok(Fraction { numer: t, denom: d })
                            }
                        },
                    }
                },
            }
        }
    }

    /// Negation, for the parser's unary minus.
    pub fn neg(self) -> (r: Result<Fraction, EvalError>)
        ensures
            fres(r) == rat_neg(self@),
    {
        proof {
            use_type_invariant(&self);
        }
        if self.numer == i64::MIN {
            Err(EvalError::ArithmeticOverflow)
        } else {
            Ok(Fraction { numer: -self.numer, denom: self.denom })
        }
    }

    /// The display form as text: the numerator alone when the
    /// denominator is 1, else "N / D", with the stored, possibly
    /// unsimplified components.
    pub fn render(&self) -> (s: String)
        ensures
            s@ == spec_render(self@),
    {
        proof {
            use_type_invariant(self);
        }
        let mut s = String::new();
        if self.numer < 0 {
            s.append("-");
            proof {
                reveal_strlit("-");
                assert(s@ =~= seq!['-']);
            }
            let m = abs_u64(self.numer);
            append_dec_u64(&mut s, m);
            proof {
                assert(s@ =~= dec_int(self@.n));
            }
        } else {
            append_dec_u64(&mut s, self.numer as u64);
            proof {
                assert(s@ =~= dec_int(self@.n));
            }
        }
        if self.denom != 1 {
            let ghost head = s@;
            s.append(" / ");
            proof {
                reveal_strlit(" / ");
                assert(s@ =~= head + seq![' ', '/', ' ']);
            }
            append_dec_u64(&mut s, self.denom);
            proof {
                assert(s@ =~= spec_render(self@));
            }
        }
        s
    }

    /// The same value in lowest terms: both components divided by
    /// their greatest common divisor.
    pub fn simplify(&self) -> (r: Self)
        ensures
            r@ == rat_simplify(self@),
            rat_eq(r@, self@),
    {
        proof {
            use_type_invariant(self);
            lemma_simplify_keeps_value(self@);
        }
        if self.numer == 0 {
            Fraction { numer: 0, denom: 1 }
        } else {
            let m = abs_u64(self.numer);
            let g = gcd(m, self.denom);
            proof {
                lemma_gcd_divides(m as nat, self.denom as nat);
            }
            let q = m / g;
            let dq = self.denom / g;
            proof {
                lemma_exact_div_facts(m as nat, self.denom as nat, g as nat);
                if self.numer < 0 {
                    assert(self.numer as int == g * (-(q as int))) by (nonlinear_arith)
                        requires
                            m == g * (q as int),
                            self.numer as int == -(m as int),
                    ;
                    vstd::arithmetic::div_mod::lemma_div_multiples_vanish(
                        -(q as int),
                        g as int,
                    );
                } else {
                    vstd::arithmetic::div_mod::lemma_div_multiples_vanish(q as int, g as int);
                }
            }
            let numer = if self.numer < 0 {
                if q > i64::MAX as u64 {
                    i64::MIN
                } else {
                    -(q as i64)
                }
            } else {
                q as i64
            };
            Fraction { numer, denom: dq }
        }
    }
}

/// The decimal digit `d` as a character.
pub open spec fn digit_char(d: nat) -> char
    recommends
        d < 10,
{
    if d == 0 {
        '0'
    } else if d == 1 {
        '1'
    } else if d == 2 {
        '2'
    } else if d == 3 {
        '3'
    } else if d == 4 {
        '4'
    } else if d == 5 {
        '5'
    } else if d == 6 {
        '6'
    } else if d == 7 {
        '7'
    } else if d == 8 {
        '8'
    } else {
        '9'
    }
}

/// The decimal rendering of a nonnegative number, most significant
/// digit first, with no leading zeros (zero itself is "0").
pub open spec fn dec_nat(n: nat) -> Seq<char>
    decreases n,
{
    if n < 10 {
        seq![digit_char(n)]
    } else {
        dec_nat(n / 10) + seq![digit_char(n % 10)]
    }
}

/// The decimal rendering of an integer: a leading minus sign for
/// negative numbers.
pub open spec fn dec_int(n: int) -> Seq<char> {
    if n < 0 {
        seq!['-'] + dec_nat((-n) as nat)
    } else {
        dec_nat(n as nat)
    }
}

/// The display form of a rational: the numerator alone when the
/// denominator is 1, else "N / D", both components as stored.
pub open spec fn spec_render(r: Rat) -> Seq<char> {
    if r.d == 1 {
        dec_int(r.n)
    } else {
        dec_int(r.n) + seq![' ', '/', ' '] + dec_nat(r.d as nat)
    }
}

/// The characters of a digit stack, least significant digit last.
spec fn rev_digit_chars(ds: Seq<u64>) -> Seq<char> {
    Seq::new(ds.len(), |i: int| digit_char(ds[ds.len() - 1 - i] as nat))
}

/// The one-character string for a decimal digit.
fn digit_str(d: u64) -> (r: &'static str)
    requires
        d < 10,
    ensures
        r@ == seq![digit_char(d as nat)],
{
    let s: &'static str = if d == 0 {
        "0"
    } else if d == 1 {
        "1"
    } else if d == 2 {
        "2"
    } else if d == 3 {
        "3"
    } else if d == 4 {
        "4"
    } else if d == 5 {
        "5"
    } else if d == 6 {
        "6"
    } else if d == 7 {
        "7"
    } else if d == 8 {
        "8"
    } else {
        "9"
    };
    proof {
        reveal_strlit("0");
        reveal_strlit("1");
        reveal_strlit("2");
        reveal_strlit("3");
        reveal_strlit("4");
        reveal_strlit("5");
        reveal_strlit("6");
        reveal_strlit("7");
        reveal_strlit("8");
        reveal_strlit("9");
        assert(s@ =~= seq![digit_char(d as nat)]);
    }
    s
}

/// Appends the decimal rendering of `n`: digits are peeled off least
/// significant first, then written out in reverse.
fn append_dec_u64(s: &mut String, n: u64)
    ensures
        final(s)@ == old(s)@ + dec_nat(n as nat),
{
    let mut digs: Vec<u64> = Vec::new();
    let mut m: u64 = n;
    loop
        invariant_except_break
            digs@.len() > 0 ==> m > 0,
        invariant
            forall|j: int| 0 <= j < digs@.len() ==> digs@[j] < 10,
            digs@.len() == 0 ==> m == n,
            digs@.len() > 0 ==> dec_nat(n as nat) == (if m > 0 {
                dec_nat(m as nat) + rev_digit_chars(digs@)
            } else {
                rev_digit_chars(digs@)
            }),
        ensures
            m == 0,
            digs@.len() > 0,
            forall|j: int| 0 <= j < digs@.len() ==> digs@[j] < 10,
            dec_nat(n as nat) == rev_digit_chars(digs@),
        decreases m,
    {
        let ghost old_digs = digs@;
        let ghost old_m = m as nat;
        let d = m % 10;
        digs.push(d);
        m = m / 10;
        proof {
            assert(digs@ =~= old_digs + seq![d]);
            lemma_rev_push(old_digs, d);
            if old_digs.len() == 0 {
                if old_m < 10 {
                    assert(rev_digit_chars(seq![d]) =~= seq![digit_char(d as nat)]);
                    assert(dec_nat(n as nat) == rev_digit_chars(digs@));
                } else {
                    assert(dec_nat(old_m) == dec_nat(old_m / 10) + seq![
                        digit_char(old_m % 10),
                    ]);
                    assert(dec_nat(n as nat) =~= dec_nat(m as nat) + rev_digit_chars(digs@));
                }
            } else {
                if old_m < 10 {
                    assert(dec_nat(old_m) =~= seq![digit_char(d as nat)]);
                    assert(dec_nat(n as nat) =~= rev_digit_chars(digs@));
                } else {
                    assert(dec_nat(old_m) == dec_nat(old_m / 10) + seq![
                        digit_char(old_m % 10),
                    ]);
                    assert(dec_nat(n as nat) =~= dec_nat(m as nat) + rev_digit_chars(digs@));
                }
            }
        }
        if m == 0 {
            break ;
        }
    }
    let mut k = digs.len();
    proof {
        assert(rev_digit_chars(digs@).take(0) =~= Seq::<char>::empty());
        assert(s@ + Seq::<char>::empty() =~= s@);
    }
    while k > 0
        invariant
            k <= digs@.len(),
            forall|j: int| 0 <= j < digs@.len() ==> digs@[j] < 10,
            dec_nat(n as nat) == rev_digit_chars(digs@),
            s@ == old(s)@ + rev_digit_chars(digs@).take(digs@.len() - k),
        decreases k,
    {
        k = k - 1;
        let dstr = digit_str(digs[k]);
        s.append(dstr);
        proof {
            let rev = rev_digit_chars(digs@);
            let done = digs@.len() - k;
            assert(rev[done - 1] == digit_char(digs@[k as int] as nat));
            assert(rev.take(done) =~= rev.take(done - 1) + seq![rev[done - 1]]);
            assert(s@ =~= old(s)@ + rev.take(done));
        }
    }
    proof {
        assert(rev_digit_chars(digs@).take(digs@.len() as int) =~= rev_digit_chars(digs@));
    }
}

/// Pushing a digit onto the stack prepends nothing and appends its
/// character at the front of the reversed reading.
proof fn lemma_rev_push(ds: Seq<u64>, d: u64)
    ensures
        rev_digit_chars(ds.push(d)) =~= seq![digit_char(d as nat)] + rev_digit_chars(ds),
{
    assert(ds.push(d) =~= ds + seq![d]);
}

/// The magnitude of `n` as an unsigned number; total, unlike negation,
/// which has no representation for the smallest numerator.
fn abs_u64(n: i64) -> (r: u64)
    ensures
        r == vstd::math::abs(n as int),
{
    if n >= 0 {
        n as u64
    } else {
        ((-(n + 1)) as u64) + 1
    }
}

/// For g dividing both m and d exactly: the quotients are what division
/// computes, they stay positive, and multiplying back restores m and d.
proof fn lemma_exact_div_facts(m: nat, d: nat, g: nat)
    requires
        m > 0,
        d > 0,
        g > 0,
        divides(g, m),
        divides(g, d),
    ensures
        m == g * (m / g),
        d == g * (d / g),
        1 <= m / g <= m,
        1 <= d / g <= d,
{
    let km: nat = choose|k: nat| m == #[trigger] (g * k);
    let kd: nat = choose|k: nat| d == #[trigger] (g * k);
    assert(km == m / g) by {
        vstd::arithmetic::div_mod::lemma_div_multiples_vanish(km as int, g as int);
    }
    assert(kd == d / g) by {
        vstd::arithmetic::div_mod::lemma_div_multiples_vanish(kd as int, g as int);
    }
    assert(1 <= km <= m && 1 <= kd <= d) by (nonlinear_arith)
        requires
            m == g * km,
            d == g * kd,
            m > 0,
            d > 0,
            g >= 1,
    ;
}

/// A positive divisor of a positive number is no larger than it.
proof fn lemma_divides_le(e: nat, n: nat)
    requires
        e > 0,
        n > 0,
        divides(e, n),
    ensures
        e <= n,
{
    let k: nat = choose|k: nat| n == #[trigger] (e * k);
    assert(e * k > 0 && e > 0 ==> k >= 1 && e * k >= e) by (nonlinear_arith);
}

/// The gcd is greatest in the order of divisibility: every common
/// divisor of a and b divides gcd(a, b).
pub proof fn lemma_gcd_greatest(a: nat, b: nat, e: nat)
    requires
        a > 0,
        b > 0,
        e > 0,
        divides(e, a),
        divides(e, b),
    ensures
        divides(e, spec_gcd(a, b)),
    decreases b,
{
    let r = a % b;
    if r == 0 {
        assert(spec_gcd(a, b) == spec_gcd(b, 0));
    } else {
        let ka: nat = choose|k: nat| a == #[trigger] (e * k);
        let kb: nat = choose|k: nat| b == #[trigger] (e * k);
        let q = a / b;
        assert(a == b * q + r) by {
            vstd::arithmetic::div_mod::lemma_fundamental_div_mod(a as int, b as int);
        }
        let kr = ka - kb * q;
        assert(r == e * kr) by (nonlinear_arith)
            requires
                a == e * ka,
                b == e * kb,
                a == b * q + r,
                kr == ka - kb * q,
        ;
        assert(kr >= 0) by (nonlinear_arith)
            requires
                r == e * kr,
                r > 0,
                e > 0,
        ;
        assert(divides(e, r)) by {
            assert(r == e * (kr as nat));
        }
        lemma_gcd_greatest(b, r, e);
        assert(spec_gcd(a, b) == spec_gcd(b, r));
    }
}

/// Reduction gives lowest terms: after `simplify`, numerator magnitude
/// and denominator share no factor — their gcd is 1 — and a zero
/// value is exactly 0/1.
pub proof fn lemma_simplify_lowest_terms(a: Rat)
    requires
        rat_wf(a),
    ensures
        rat_simplify(a).n == 0 ==> rat_simplify(a) == (Rat { n: 0, d: 1 }),
        rat_simplify(a).n != 0 ==> spec_gcd(
            vstd::math::abs(rat_simplify(a).n),
            rat_simplify(a).d as nat,
        ) == 1,
{
    if a.n != 0 {
        let m = vstd::math::abs(a.n);
        let ad = a.d as nat;
        let gn = spec_gcd(m, ad);
        let g = gn as int;
        lemma_gcd_divides(m, ad);
        lemma_exact_div_facts(m, ad, gn);
        let mq = m / gn;
        let dq = ad / gn;
        let s = rat_simplify(a);
        // The simplified numerator is the signed quotient, so its
        // magnitude is mq and the simplified denominator is dq.
        assert(a.n == g * (if a.n < 0 {
            -(mq as int)
        } else {
            mq as int
        })) by (nonlinear_arith)
            requires
                m == gn * mq,
                a.n < 0 ==> a.n == -(m as int),
                a.n >= 0 ==> a.n == m as int,
                g == gn as int,
        ;
        assert(s.n == (if a.n < 0 {
            -(mq as int)
        } else {
            mq as int
        })) by {
            vstd::arithmetic::div_mod::lemma_div_multiples_vanish(
                if a.n < 0 {
                    -(mq as int)
                } else {
                    mq as int
                },
                g,
            );
        }
        assert(vstd::math::abs(s.n) == mq);
        assert(s.d == dq as int);
        // Any common factor h of the quotients lifts to a common
        // divisor g * h of the originals, which must divide g; so
        // h is 1.
        let h = spec_gcd(mq, dq);
        lemma_gcd_divides(mq, dq);
        let k1: nat = choose|k: nat| mq == #[trigger] (h * k);
        let k2: nat = choose|k: nat| dq == #[trigger] (h * k);
        assert(m == (gn * h) * k1 && ad == (gn * h) * k2) by (nonlinear_arith)
            requires
                m == gn * mq,
                ad == gn * dq,
                mq == h * k1,
                dq == h * k2,
        ;
        assert(divides(gn * h, m));
        assert(divides(gn * h, ad));
        lemma_gcd_greatest(m, ad, gn * h);
        lemma_divides_le(gn * h, gn);
        assert(h == 1) by (nonlinear_arith)
            requires
                gn * h <= gn,
                gn >= 1,
                h >= 1,
        ;
    }
}

/// Reduction does not change the value: the simplified fraction is
/// cross-multiplication equal to the original.
pub proof fn lemma_simplify_keeps_value(a: Rat)
    requires
        rat_wf(a),
    ensures
        rat_eq(rat_simplify(a), a),
{
    if a.n != 0 {
        let m = vstd::math::abs(a.n);
        let gn = spec_gcd(m, a.d as nat);
        let g = gn as int;
        lemma_gcd_divides(m, a.d as nat);
        lemma_exact_div_facts(m, a.d as nat, gn);
        let q = (m / gn) as int;
        let s = if a.n < 0 {
            -q
        } else {
            q
        };
        assert(a.n == g * s) by (nonlinear_arith)
            requires
                m == gn * (m / gn),
                q == (m / gn) as int,
                g == gn as int,
                s == (if a.n < 0 {
                    -q
                } else {
                    q
                }),
                a.n < 0 ==> a.n == -(m as int),
                a.n >= 0 ==> a.n == m as int,
        ;
        assert(a.n / g == s) by {
            vstd::arithmetic::div_mod::lemma_div_multiples_vanish(s, g);
        }
        let sd = a.d / g;
        assert(a.d == g * sd) by {
            assert(a.d as nat == gn * ((a.d as nat) / gn));
        }
        assert(s * a.d == a.n * sd) by (nonlinear_arith)
            requires
                a.n == g * s,
                a.d == g * sd,
        ;
    }
}

/// `x` fits in an `i64`.
pub open spec fn in_i64(x: int) -> bool {
    i64::MIN <= x <= i64::MAX
}

/// `x` fits in a `u64`.
pub open spec fn in_u64(x: int) -> bool {
    0 <= x <= u64::MAX
}

/// The value of an arithmetic result: the view of the fraction on
/// success, the error unchanged otherwise.
pub open spec fn fres(r: Result<Fraction, EvalError>) -> Result<Rat, EvalError> {
    match r {
        Ok(f) => Ok(f@),
        Err(e) => Err(e),
    }
}

/// The sum over the least common denominator, or `ArithmeticOverflow`
/// where an intermediate value leaves the machine range.
pub open spec fn rat_add(a: Rat, b: Rat) -> Result<Rat, EvalError>
    recommends
        rat_wf(a),
        rat_wf(b),
{
    let l = spec_lcm(a.d as nat, b.d as nat) as int;
    let m1 = l / a.d;
    let m2 = l / b.d;
    let t1 = a.n * m1;
    let t2 = b.n * m2;
    if a.d * b.d > u64::MAX {
        Err(EvalError::ArithmeticOverflow)
    } else if m1 > i64::MAX || m2 > i64::MAX {
        Err(EvalError::ArithmeticOverflow)
    } else if !in_i64(t1) || !in_i64(t2) || !in_i64(t1 + t2) {
        Err(EvalError::ArithmeticOverflow)
    } else {
        Ok(Rat { n: t1 + t2, d: l })
    }
}

/// The difference over the least common denominator, or
/// `ArithmeticOverflow`.
pub open spec fn rat_sub(a: Rat, b: Rat) -> Result<Rat, EvalError>
    recommends
        rat_wf(a),
        rat_wf(b),
{
    let l = spec_lcm(a.d as nat, b.d as nat) as int;
    let m1 = l / a.d;
    let m2 = l / b.d;
    let t1 = a.n * m1;
    let t2 = b.n * m2;
    if a.d * b.d > u64::MAX {
        Err(EvalError::ArithmeticOverflow)
    } else if m1 > i64::MAX || m2 > i64::MAX {
        Err(EvalError::ArithmeticOverflow)
    } else if !in_i64(t1) || !in_i64(t2) || !in_i64(t1 - t2) {
        Err(EvalError::ArithmeticOverflow)
    } else {
        Ok(Rat { n: t1 - t2, d: l })
    }
}

/// The product, component by component, or `ArithmeticOverflow`.
pub open spec fn rat_mul(a: Rat, b: Rat) -> Result<Rat, EvalError>
    recommends
        rat_wf(a),
        rat_wf(b),
{
    if !in_i64(a.n * b.n) {
        Err(EvalError::ArithmeticOverflow)
    } else if a.d * b.d > u64::MAX {
        Err(EvalError::ArithmeticOverflow)
    } else {
        Ok(Rat { n: a.n * b.n, d: a.d * b.d })
    }
}

/// The quotient.  Division by a zero-valued fraction is
/// `DivisionByZero`; the divisor's sign moves onto the numerator so the
/// denominator stays positive.
pub open spec fn rat_div(a: Rat, b: Rat) -> Result<Rat, EvalError>
    recommends
        rat_wf(a),
        rat_wf(b),
{
    let m = vstd::math::abs(b.n) as int;
    if b.n == 0 {
        Err(EvalError::DivisionByZero)
    } else if b.d > i64::MAX {
        Err(EvalError::ArithmeticOverflow)
    } else if !in_i64(a.n * b.d) {
        Err(EvalError::ArithmeticOverflow)
    } else if !in_u64(m * a.d) {
        Err(EvalError::ArithmeticOverflow)
    } else if b.n < 0 && !in_i64(-(a.n * b.d)) {
        Err(EvalError::ArithmeticOverflow)
    } else {
        Ok(
            Rat {
                n: if b.n < 0 {
                    -(a.n * b.d)
                } else {
                    a.n * b.d
                },
                d: m * a.d,
            },
        )
    }
}

/// The negation; `ArithmeticOverflow` only on the one numerator whose
/// negation has no machine representation.
pub open spec fn rat_neg(a: Rat) -> Result<Rat, EvalError>
    recommends
        rat_wf(a),
{
    if !in_i64(-a.n) {
        Err(EvalError::ArithmeticOverflow)
    } else {
        Ok(Rat { n: -a.n, d: a.d })
    }
}

/// Both components divided by their gcd; a zero numerator reduces to
/// 0/1 directly, since gcd is only defined on positive numbers.
pub open spec fn rat_simplify(a: Rat) -> Rat
    recommends
        rat_wf(a),
{
    if a.n == 0 {
        Rat { n: 0, d: 1 }
    } else {
        let g = spec_gcd(vstd::math::abs(a.n), a.d as nat) as int;
        Rat { n: a.n / g, d: a.d / g }
    }
}

impl PartialEq for Fraction {
    /// Equality by cross-multiplication, so that unreduced fractions
    /// with the same value — 10/2 and 5/1 — compare equal.  The
    /// products are taken in a wide intermediate so no pair of
    /// operands can overflow.
    fn eq(&self, other: &Fraction) -> (r: bool) {
        proof {
            use_type_invariant(self);
            use_type_invariant(other);
            assert((i128::MIN as int) <= (self.numer as int) * (other.denom as int) <= (
            i128::MAX as int)) by (nonlinear_arith)
                requires
                    i64::MIN <= self.numer <= i64::MAX,
                    0 <= other.denom <= u64::MAX,
            ;
            assert((i128::MIN as int) <= (other.numer as int) * (self.denom as int) <= (
            i128::MAX as int)) by (nonlinear_arith)
                requires
                    i64::MIN <= other.numer <= i64::MAX,
                    0 <= self.denom <= u64::MAX,
            ;
        }
        (self.numer as i128) * (other.denom as i128) == (other.numer as i128) * (self.denom
            as i128)
    }
}

impl vstd::std_specs::cmp::PartialEqSpecImpl for Fraction {
    open spec fn obeys_eq_spec() -> bool {
        true
    }

    open spec fn eq_spec(&self, other: &Fraction) -> bool {
        rat_eq(self@, other@)
    }
}

/// Equality is cross-multiplication: for any two fractions a/b and
/// c/d — the denominators positive by construction — `x == y` holds
/// exactly when a*d == c*b, whether or not either side is reduced.
pub proof fn lemma_eq_is_cross_multiplication(x: Fraction, y: Fraction)
    ensures
        x.eq_spec(&y) == (x@.n * y@.d == y@.n * x@.d),
{
}

/// Cross-multiplication equality deserves the name: over positive
/// denominators it is reflexive, symmetric and transitive, so equal
/// means equal whatever representation a value arrived in.
pub proof fn lemma_rat_eq_is_equivalence(a: Rat, b: Rat, c: Rat)
    requires
        rat_wf(a),
        rat_wf(b),
        rat_wf(c),
    ensures
        rat_eq(a, a),
        rat_eq(a, b) == rat_eq(b, a),
        rat_eq(a, b) && rat_eq(b, c) ==> rat_eq(a, c),
{
    if rat_eq(a, b) && rat_eq(b, c) {
        assert(a.n * c.d == c.n * a.d) by (nonlinear_arith)
            requires
                a.n * b.d == b.n * a.d,
                b.n * c.d == c.n * b.d,
                b.d > 0,
        ;
    }
}

/// Addition is exact: a successful sum over the least common
/// denominator has, by cross-multiplication, precisely the value
/// (a.n * b.d + b.n * a.d) / (a.d * b.d) of the mathematical sum.
#[verifier::rlimit(60)]
pub proof fn lemma_add_is_exact_sum(a: Rat, b: Rat)
    requires
        rat_wf(a),
        rat_wf(b),
    ensures
        rat_add(a, b) matches Ok(c) ==> rat_eq(
            c,
            Rat { n: a.n * b.d + b.n * a.d, d: a.d * b.d },
        ),
{
    if rat_add(a, b) matches Ok(c) {
        lemma_lcm_props(a.d as nat, b.d as nat);
        let l = spec_lcm(a.d as nat, b.d as nat) as int;
        let m1 = l / a.d;
        let m2 = l / b.d;
        assert((a.n * m1 + b.n * m2) * (a.d * b.d) == (a.n * b.d + b.n * a.d) * l)
            by (nonlinear_arith)
            requires
                l == a.d * m1,
                l == b.d * m2,
        ;
        assert(l == a.d * m1) by {
            assert(spec_lcm(a.d as nat, b.d as nat) == (a.d as nat) * ((b.d as nat) / spec_gcd(
                a.d as nat,
                b.d as nat,
            )));
            assert(m1 == (b.d as nat) / spec_gcd(a.d as nat, b.d as nat));
        }
        assert(l == b.d * m2) by {
            assert(spec_lcm(a.d as nat, b.d as nat) == (b.d as nat) * ((a.d as nat) / spec_gcd(
                a.d as nat,
                b.d as nat,
            )));
            assert(m2 == (a.d as nat) / spec_gcd(a.d as nat, b.d as nat));
        }
    }
}

/// Subtraction is exact: a successful difference has, by
/// cross-multiplication, precisely the value
/// (a.n * b.d - b.n * a.d) / (a.d * b.d).
#[verifier::rlimit(60)]
pub proof fn lemma_sub_is_exact_difference(a: Rat, b: Rat)
    requires
        rat_wf(a),
        rat_wf(b),
    ensures
        rat_sub(a, b) matches Ok(c) ==> rat_eq(
            c,
            Rat { n: a.n * b.d - b.n * a.d, d: a.d * b.d },
        ),
{
    if rat_sub(a, b) matches Ok(c) {
        lemma_lcm_props(a.d as nat, b.d as nat);
        let l = spec_lcm(a.d as nat, b.d as nat) as int;
        let m1 = l / a.d;
        let m2 = l / b.d;
        assert((a.n * m1 - b.n * m2) * (a.d * b.d) == (a.n * b.d - b.n * a.d) * l)
            by (nonlinear_arith)
            requires
                l == a.d * m1,
                l == b.d * m2,
        ;
        assert(l == a.d * m1) by {
            assert(spec_lcm(a.d as nat, b.d as nat) == (a.d as nat) * ((b.d as nat) / spec_gcd(
                a.d as nat,
                b.d as nat,
            )));
            assert(m1 == (b.d as nat) / spec_gcd(a.d as nat, b.d as nat));
        }
        assert(l == b.d * m2) by {
            assert(spec_lcm(a.d as nat, b.d as nat) == (b.d as nat) * ((a.d as nat) / spec_gcd(
                a.d as nat,
                b.d as nat,
            )));
            assert(m2 == (a.d as nat) / spec_gcd(a.d as nat, b.d as nat));
        }
    }
}

/// Multiplication is exact: a successful product is, component by
/// component, (a.n * b.n) / (a.d * b.d).
pub proof fn lemma_mul_is_exact_product(a: Rat, b: Rat)
    requires
        rat_wf(a),
        rat_wf(b),
    ensures
        rat_mul(a, b) matches Ok(c) ==> c == (Rat { n: a.n * b.n, d: a.d * b.d }),
{
}

/// Division is exact: a successful quotient c satisfies, by
/// cross-multiplication, c == (a.n * b.d) / (a.d * b.n) — the rule
/// (a/b) / (c/d) == (a*d) / (b*c) — whatever the divisor's sign.
pub proof fn lemma_div_is_exact_quotient(a: Rat, b: Rat)
    requires
        rat_wf(a),
        rat_wf(b),
    ensures
        rat_div(a, b) matches Ok(c) ==> c.n * (a.d * b.n) == (a.n * b.d) * c.d,
{
    if rat_div(a, b) matches Ok(c) {
        let m = vstd::math::abs(b.n) as int;
        if b.n < 0 {
            assert((-(a.n * b.d)) * (a.d * b.n) == (a.n * b.d) * (m * a.d)) by (nonlinear_arith)
                requires
                    m == -b.n,
            ;
        } else {
            assert((a.n * b.d) * (a.d * b.n) == (a.n * b.d) * (m * a.d)) by (nonlinear_arith)
                requires
                    m == b.n,
            ;
        }
    }
}

/// Greatest common divisor by the classic Euclidean recursion, the
/// reference definition the executable `gcd` is proved against.
/// Meaningful for `b == 0` as well: `spec_gcd(a, 0) == a`.
pub open spec fn spec_gcd(a: nat, b: nat) -> nat
    decreases b,
{
    if b == 0 {
        a
    } else {
        spec_gcd(b, a % b)
    }
}

/// `d` divides `n` exactly.
pub open spec fn divides(d: nat, n: nat) -> bool {
    exists|k: nat| n == #[trigger] (d * k)
}

/// The gcd of two positive numbers is positive, divides both, and is
/// bounded by both.
pub proof fn lemma_gcd_divides(a: nat, b: nat)
    requires
        a > 0,
        b > 0,
    ensures
        spec_gcd(a, b) > 0,
        divides(spec_gcd(a, b), a),
        divides(spec_gcd(a, b), b),
        spec_gcd(a, b) <= a,
        spec_gcd(a, b) <= b,
    decreases b,
{
    let g = spec_gcd(a, b);
    let r = a % b;
    if r == 0 {
        assert(g == spec_gcd(b, 0) == b);
        assert(a == b * (a / b) + a % b) by {
            vstd::arithmetic::div_mod::lemma_fundamental_div_mod(a as int, b as int);
        }
        assert(a == b * ((a / b) as nat));
        assert(divides(b, a));
        assert(divides(b, b)) by {
            assert(b == b * 1);
        }
        // a is a positive multiple of b, so b <= a.
        let q: nat = (a / b) as nat;
        assert(b * q > 0 && b > 0 ==> q >= 1 && b * q >= b) by (nonlinear_arith);
    } else {
        lemma_gcd_divides(b, r);
        assert(g == spec_gcd(b, r));
        let kb: nat = choose|k: nat| b == #[trigger] (g * k);
        let kr: nat = choose|k: nat| r == #[trigger] (g * k);
        assert(a == b * (a / b) + r) by {
            vstd::arithmetic::div_mod::lemma_fundamental_div_mod(a as int, b as int);
        }
        let q: nat = (a / b) as nat;
        assert(a == (g * kb) * q + g * kr);
        assert((g * kb) * q + g * kr == g * (kb * q + kr)) by (nonlinear_arith);
        assert(a == g * (kb * q + kr));
        assert(divides(g, a));
        // g <= a and g <= b follow from g dividing positive a and b.
        assert(g <= a) by {
            let ka: nat = choose|k: nat| a == #[trigger] (g * k);
            assert(g * ka > 0 && g > 0 ==> ka >= 1 && g * ka >= g) by (nonlinear_arith);
        }
        assert(g <= b) by {
            assert(g * kb > 0 && g > 0 ==> kb >= 1 && g * kb >= g) by (nonlinear_arith);
        }
    }
}

/// Greatest common divisor of two strictly positive numbers, by
/// repeated subtraction.  Zero or negative inputs are a programming
/// error and are ruled out by the contract.
pub fn gcd(a: u64, b: u64) -> (r: u64)
    requires
        a > 0,
        b > 0,
    ensures
        r == spec_gcd(a as nat, b as nat),
    decreases a + b,
{
    if a == b {
        proof {
            lemma_gcd_same(a as nat);
        }
        a
    } else if a < b {
        proof {
            lemma_gcd_sub(a as nat, b as nat);
        }
        gcd(a, b - a)
    } else {
        proof {
            lemma_gcd_comm(a as nat, b as nat);
            lemma_gcd_sub(b as nat, a as nat);
            lemma_gcd_comm(b as nat, (a - b) as nat);
        }
        gcd(a - b, b)
    }
}

/// gcd(a, a) == a.
proof fn lemma_gcd_same(a: nat)
    requires
        a > 0,
    ensures
        spec_gcd(a, a) == a,
{
    assert(a % a == 0) by {
        vstd::arithmetic::div_mod::lemma_mod_self_0(a as int);
    }
    assert(spec_gcd(a, a) == spec_gcd(a, 0));
}

/// gcd is symmetric.
proof fn lemma_gcd_comm(a: nat, b: nat)
    requires
        a > 0,
        b > 0,
    ensures
        spec_gcd(a, b) == spec_gcd(b, a),
{
    if a == b {
    } else if a < b {
        // a % b == a, so gcd(a, b) unfolds to gcd(b, a) directly.
        assert(a % b == a) by {
            vstd::arithmetic::div_mod::lemma_small_mod(a, b);
        }
        assert(spec_gcd(a, b) == spec_gcd(b, a));
    } else {
        assert(b % a == b) by {
            vstd::arithmetic::div_mod::lemma_small_mod(b, a);
        }
        assert(spec_gcd(b, a) == spec_gcd(a, b));
    }
}

/// Reducing the second operand modulo the first keeps the gcd:
/// gcd(x, y) == gcd(x, y % x).
proof fn lemma_gcd_mod_right(x: nat, y: nat)
    requires
        x > 0,
        y > 0,
    ensures
        spec_gcd(x, y) == spec_gcd(x, y % x),
{
    if y < x {
        assert(y % x == y) by {
            vstd::arithmetic::div_mod::lemma_small_mod(y, x);
        }
    } else if y == x {
        assert(x % x == 0) by {
            vstd::arithmetic::div_mod::lemma_mod_self_0(x as int);
        }
        assert(spec_gcd(x, y) == spec_gcd(x, 0));
        assert(spec_gcd(x, y % x) == spec_gcd(x, 0));
    } else {
        assert(x % y == x) by {
            vstd::arithmetic::div_mod::lemma_small_mod(x, y);
        }
        // gcd(x, y) unfolds to gcd(y, x), which unfolds to gcd(x, y % x).
        assert(spec_gcd(x, y) == spec_gcd(y, x));
        assert(spec_gcd(y, x) == spec_gcd(x, y % x));
    }
}

/// Least common multiple: a * b / gcd(a, b).
pub open spec fn spec_lcm(a: nat, b: nat) -> nat
    recommends
        a > 0,
        b > 0,
{
    (a * b) / spec_gcd(a, b)
}

/// The lcm of positive a and b is an exact common multiple of both, at
/// least as large as either, at most a * b, and a * b == gcd * lcm.
pub proof fn lemma_lcm_props(a: nat, b: nat)
    requires
        a > 0,
        b > 0,
    ensures
        ({
            let g = spec_gcd(a, b);
            let l = spec_lcm(a, b);
            &&& a * b == g * l
            &&& l == a * (b / g)
            &&& l == b * (a / g)
            &&& l / a == b / g
            &&& l / b == a / g
            &&& a <= l
            &&& b <= l
            &&& l <= a * b
        }),
{
    let g = spec_gcd(a, b);
    let l = spec_lcm(a, b);
    lemma_gcd_divides(a, b);
    let k1: nat = choose|k: nat| a == #[trigger] (g * k);
    let k2: nat = choose|k: nat| b == #[trigger] (g * k);
    assert(k1 == a / g) by {
        vstd::arithmetic::div_mod::lemma_div_multiples_vanish(k1 as int, g as int);
    }
    assert(k2 == b / g) by {
        vstd::arithmetic::div_mod::lemma_div_multiples_vanish(k2 as int, g as int);
    }
    assert(a * b == g * (k1 * g * k2)) by (nonlinear_arith)
        requires
            a == g * k1,
            b == g * k2,
    ;
    assert(l == k1 * g * k2) by {
        assert((a * b) / g == (g * (k1 * g * k2)) / g);
        vstd::arithmetic::div_mod::lemma_div_multiples_vanish((k1 * g * k2) as int, g as int);
    }
    assert(k1 >= 1 && k2 >= 1) by (nonlinear_arith)
        requires
            a == g * k1,
            b == g * k2,
            a > 0,
            b > 0,
    ;
    assert(l == a * k2 && l == b * k1 && a <= l && b <= l) by (nonlinear_arith)
        requires
            l == k1 * g * k2,
            a == g * k1,
            b == g * k2,
            k1 >= 1,
            k2 >= 1,
            a > 0,
            b > 0,
    ;
    assert(l / a == k2) by {
        vstd::arithmetic::div_mod::lemma_div_multiples_vanish(k2 as int, a as int);
    }
    assert(l / b == k1) by {
        vstd::arithmetic::div_mod::lemma_div_multiples_vanish(k1 as int, b as int);
    }
    assert(g * l == a * b && l <= a * b) by (nonlinear_arith)
        requires
            a * b == g * (k1 * g * k2),
            l == k1 * g * k2,
            g >= 1,
            l >= 0,
    ;
}

/// Least common multiple of two strictly positive numbers whose product
/// fits the machine word; the product bound is what the direct formula
/// a * b / gcd(a, b) needs to avoid overflow.
pub fn lcm(a: u64, b: u64) -> (r: u64)
    requires
        a > 0,
        b > 0,
        a * b <= u64::MAX,
    ensures
        r == spec_lcm(a as nat, b as nat),
{
    proof {
        lemma_gcd_divides(a as nat, b as nat);
    }
    a * b / gcd(a, b)
}

/// Subtracting the smaller operand from the larger keeps the gcd:
/// gcd(a, b) == gcd(a, b - a) for 0 < a < b.
proof fn lemma_gcd_sub(a: nat, b: nat)
    requires
        0 < a < b,
    ensures
        spec_gcd(a, b) == spec_gcd(a, (b - a) as nat),
{
    assert((b - a) % (a as int) == (b as int) % (a as int)) by {
        vstd::arithmetic::div_mod::lemma_mod_sub_multiples_vanish(b as int, a as int);
    }
    lemma_gcd_mod_right(a, b);
    lemma_gcd_mod_right(a, (b - a) as nat);
}

} // verus!
