//! Exact rational arithmetic for the calculator engine.
//!
//! A [`Value`] is a numeric value held as a 64-bit numerator over a positive
//! 64-bit denominator. Every arithmetic operation reduces its result by the
//! greatest common divisor and reports overflow instead of wrapping, so a
//! successful computation denotes exactly the mathematical rational.

use vstd::arithmetic::div_mod::{
    lemma_fundamental_div_mod, lemma_div_multiples_vanish, lemma_div_nonincreasing,
    lemma_mod_multiples_basic, lemma_mod_self_0,
};
use vstd::math::abs;
use vstd::prelude::*;

verus! {

/// Mathematical model of a numeric value: the rational number `num / den`.
/// Meaningful when `den >= 1`.
pub struct Rat {
    pub num: int,
    pub den: int,
}

/// Well-formed rational: positive denominator.
pub open spec fn rat_wf(r: Rat) -> bool {
    r.den >= 1
}

/// `a` and `b` denote the same rational number (cross multiplication).
pub open spec fn rat_eq(a: Rat, b: Rat) -> bool {
    a.num * b.den == b.num * a.den
}

/// Exact sum of two rationals.
pub open spec fn rat_add(a: Rat, b: Rat) -> Rat {
    Rat { num: a.num * b.den + b.num * a.den, den: a.den * b.den }
}

/// Exact difference of two rationals.
pub open spec fn rat_sub(a: Rat, b: Rat) -> Rat {
    Rat { num: a.num * b.den - b.num * a.den, den: a.den * b.den }
}

/// Exact product of two rationals.
pub open spec fn rat_mul(a: Rat, b: Rat) -> Rat {
    Rat { num: a.num * b.num, den: a.den * b.den }
}

/// Exact quotient of two rationals; the divisor's sign moves into the
/// numerator so the denominator stays positive.
pub open spec fn rat_div(a: Rat, b: Rat) -> Rat
    recommends
        b.num != 0,
{
    if b.num >= 0 {
        Rat { num: a.num * b.den, den: a.den * b.num }
    } else {
        Rat { num: -(a.num * b.den), den: a.den * -b.num }
    }
}

/// Exact negation of a rational.
pub open spec fn rat_neg(a: Rat) -> Rat {
    Rat { num: -a.num, den: a.den }
}

/// Greatest common divisor, by Euclid's algorithm.
pub open spec fn gcd(a: nat, b: nat) -> nat
    decreases b,
{
    if b == 0 {
        a
    } else {
        gcd(b, a % b)
    }
}

/// `r` reduced by the greatest common divisor of numerator and denominator.
pub open spec fn rat_norm(r: Rat) -> Rat
    recommends
        rat_wf(r),
{
    let g = gcd(abs(r.num), r.den as nat) as int;
    Rat { num: r.num / g, den: r.den / g }
}

/// The rational fits the 64-bit representation of [`Value`].
pub open spec fn rat_fits(r: Rat) -> bool {
    &&& i64::MIN <= r.num <= i64::MAX
    &&& 1 <= r.den <= i64::MAX
}

/// The reduced form of `r` when it is representable, `None` otherwise.
pub open spec fn norm_fit(r: Rat) -> Option<Rat> {
    let m = rat_norm(r);
    if rat_fits(m) {
        Some(m)
    } else {
        None
    }
}

/// Bounded reducing sum: what [`Value::checked_add`] returns.
pub open spec fn norm_add(a: Rat, b: Rat) -> Option<Rat> {
    norm_fit(rat_add(a, b))
}

/// Bounded reducing difference: what [`Value::checked_sub`] returns.
pub open spec fn norm_sub(a: Rat, b: Rat) -> Option<Rat> {
    norm_fit(rat_sub(a, b))
}

/// Bounded reducing product: what [`Value::checked_mul`] returns.
pub open spec fn norm_mul(a: Rat, b: Rat) -> Option<Rat> {
    norm_fit(rat_mul(a, b))
}

/// Bounded reducing quotient: what [`Value::checked_div`] returns.
pub open spec fn norm_div(a: Rat, b: Rat) -> Option<Rat>
    recommends
        b.num != 0,
{
    norm_fit(rat_div(a, b))
}

/// Bounded reducing negation: what [`Value::checked_neg`] returns.
pub open spec fn norm_neg(a: Rat) -> Option<Rat> {
    norm_fit(rat_neg(a))
}

/// The greatest common divisor of `a` and `b >= 1` is positive and divides
/// both arguments.
proof fn lemma_gcd_divides(a: nat, b: nat)
    requires
        b >= 1,
    ensures
        gcd(a, b) >= 1,
        a % gcd(a, b) == 0,
        b % gcd(a, b) == 0,
    decreases b,
{
    if a % b == 0 {
        assert(gcd(a, b) == gcd(b, a % b));
        assert(gcd(b, 0) == b);
        lemma_mod_self_0(b as int);
    } else {
        lemma_gcd_divides(b, a % b);
        let g = gcd(b, a % b);
        assert(gcd(a, b) == g);
        lemma_fundamental_div_mod(a as int, b as int);
        lemma_fundamental_div_mod(b as int, g as int);
        lemma_fundamental_div_mod((a % b) as int, g as int);
        let qb = b as int / g as int;
        let qr = (a % b) as int / g as int;
        let q = a as int / b as int;
        assert(a as int == (qb * q + qr) * (g as int)) by (nonlinear_arith)
            requires
                a as int == (b as int) * q + (a % b) as int,
                b as int == (g as int) * qb,
                (a % b) as int == (g as int) * qr,
        ;
        lemma_mod_multiples_basic(qb * q + qr, g as int);
    }
}

/// Exact division: when `d` divides `x`, the quotient times `d` gives `x` back.
proof fn lemma_div_exact(x: int, d: int)
    requires
        d >= 1,
        x % d == 0,
    ensures
        x == d * (x / d),
{
    lemma_fundamental_div_mod(x, d);
}

/// Reducing a well-formed rational keeps its value and well-formedness.
proof fn lemma_norm_eq(r: Rat)
    requires
        rat_wf(r),
    ensures
        rat_eq(rat_norm(r), r),
        rat_wf(rat_norm(r)),
{
    let g = gcd(abs(r.num), r.den as nat) as int;
    lemma_gcd_divides(abs(r.num), r.den as nat);
    let aa = abs(r.num) as int;
    lemma_div_exact(aa, g);
    lemma_div_exact(r.den, g);
    let qa = aa / g;
    let qd = r.den / g;
    if r.num < 0 {
        assert(g * (-qa) == -(g * qa)) by (nonlinear_arith);
        assert(r.num == g * (-qa));
        lemma_div_multiples_vanish(-qa, g);
        assert(r.num / g == -qa);
    }
    assert(r.num == g * (r.num / g));
    assert((r.num / g) * r.den == r.num * qd) by (nonlinear_arith)
        requires
            r.num == g * (r.num / g),
            r.den == g * qd,
    ;
    assert(qd >= 1) by (nonlinear_arith)
        requires
            g >= 1,
            r.den >= 1,
            r.den == g * qd,
    ;
}

/// When a bounded operation succeeds, its result denotes exactly the
/// mathematical sum, difference, product, quotient or negation of its
/// operands — never an approximation — and is well-formed. Together with the
/// grammar this makes a successful evaluation equal to the mathematically
/// correct value of the expression.
pub proof fn lemma_checked_ops_exact(a: Rat, b: Rat)
    requires
        rat_wf(a),
        rat_wf(b),
    ensures
        norm_add(a, b) matches Some(r) ==> rat_eq(r, rat_add(a, b)) && rat_wf(r),
        norm_sub(a, b) matches Some(r) ==> rat_eq(r, rat_sub(a, b)) && rat_wf(r),
        norm_mul(a, b) matches Some(r) ==> rat_eq(r, rat_mul(a, b)) && rat_wf(r),
        b.num != 0 ==> (norm_div(a, b) matches Some(r) ==> rat_eq(r, rat_div(a, b)) && rat_wf(r)),
        norm_neg(a) matches Some(r) ==> rat_eq(r, rat_neg(a)) && rat_wf(r),
{
    assert(a.den * b.den >= 1) by (nonlinear_arith)
        requires
            a.den >= 1,
            b.den >= 1,
    ;
    lemma_norm_eq(rat_add(a, b));
    lemma_norm_eq(rat_sub(a, b));
    lemma_norm_eq(rat_mul(a, b));
    lemma_norm_eq(rat_neg(a));
    if b.num != 0 {
        assert(rat_wf(rat_div(a, b))) by (nonlinear_arith)
            requires
                a.den >= 1,
                b.num != 0,
        ;
        lemma_norm_eq(rat_div(a, b));
    }
}

/// Euclid's algorithm, executable.
fn gcd_u128(a0: u128, b0: u128) -> (g: u128)
    requires
        b0 >= 1,
    ensures
        g as nat == gcd(a0 as nat, b0 as nat),
        g >= 1,
{
    let mut a: u128 = a0;
    let mut b: u128 = b0;
    while b != 0
        invariant
            gcd(a as nat, b as nat) == gcd(a0 as nat, b0 as nat),
            b == 0 ==> a >= 1,
        decreases b,
    {
        let t: u128 = a % b;
        proof {
            assert(gcd(a as nat, b as nat) == gcd(b as nat, t as nat));
        }
        a = b;
        b = t;
    }
    proof {
        assert(gcd(a as nat, 0) == a as nat);
        lemma_gcd_divides(a0 as nat, b0 as nat);
    }
    a
}

/// Divide numerator and denominator by their greatest common divisor,
/// mirroring [`rat_norm`].
fn reduce_i128(num: i128, den: i128) -> (res: (i128, i128))
    requires
        1 <= den,
        num > i128::MIN,
    ensures
        res.0 as int == rat_norm(Rat { num: num as int, den: den as int }).num,
        res.1 as int == rat_norm(Rat { num: num as int, den: den as int }).den,
        1 <= res.1 <= den,
{
    let neg: bool = num < 0;
    let a: u128 = if neg {
        (-num) as u128
    } else {
        num as u128
    };
    let d: u128 = den as u128;
    proof {
        assert(a as nat == abs(num as int));
    }
    let g: u128 = gcd_u128(a, d);
    proof {
        lemma_gcd_divides(a as nat, d as nat);
        lemma_div_exact(a as int, g as int);
        lemma_div_exact(d as int, g as int);
        lemma_div_nonincreasing(a as int, g as int);
        lemma_div_nonincreasing(d as int, g as int);
    }
    let q: u128 = a / g;
    let dq: u128 = d / g;
    proof {
        assert(dq >= 1) by (nonlinear_arith)
            requires
                g >= 1,
                d >= 1,
                d as int == (g as int) * (dq as int),
        ;
        if neg {
            assert((g as int) * (-(q as int)) == -((g as int) * (q as int))) by (nonlinear_arith);
            assert(num as int == (g as int) * (-(q as int)));
            lemma_div_multiples_vanish(-(q as int), g as int);
        }
    }
    let n: i128 = if neg {
        -(q as i128)
    } else {
        q as i128
    };
    (n, dq as i128)
}

/// A calculator numeric value: an exact rational with 64-bit components.
#[derive(Clone, Copy, Debug, PartialEq, Eq, Structural)]
pub struct Value {
    num: i64,
    den: i64,
}

impl View for Value {
    type V = Rat;

    closed spec fn view(&self) -> Rat {
        Rat { num: self.num as int, den: self.den as int }
    }
}

impl Value {
    /// Positive denominator; every constructor establishes it.
    pub open spec fn wf(&self) -> bool {
        rat_wf(self@)
    }

    /// The integer `i` as a value.
    pub fn from_int(i: i64) -> (v: Value)
        ensures
            v@ == (Rat { num: i as int, den: 1int }),
            v.wf(),
    {
        Value { num: i, den: 1 }
    }

    /// `num / den` reduced to lowest terms, or `None` when the reduced form
    /// does not fit the 64-bit representation.
    pub fn new_ratio(num: i128, den: i128) -> (r: Option<Value>)
        requires
            1 <= den,
            num > i128::MIN,
        ensures
            ({
                let m = norm_fit(Rat { num: num as int, den: den as int });
                match r {
                    Some(v) => m == Some(v@) && v.wf(),
                    None => m is None,
                }
            }),
    {
        let (n, d) = reduce_i128(num, den);
        if i64::MIN as i128 <= n && n <= i64::MAX as i128 && d <= i64::MAX as i128 {
            Some(Value { num: n as i64, den: d as i64 })
        } else {
            None
        }
    }

    /// The numerator of the reduced rational.
    pub fn numerator(&self) -> (n: i64)
        ensures
            n as int == self@.num,
    {
        self.num
    }

    /// The (positive) denominator of the reduced rational.
    pub fn denominator(&self) -> (d: i64)
        ensures
            d as int == self@.den,
    {
        self.den
    }

    /// Whether the value is zero; zero divisors are rejected before dividing.
    pub fn is_zero(&self) -> (b: bool)
        ensures
            b == (self@.num == 0),
    {
        self.num == 0
    }

    /// `self + other`, reduced; `None` exactly when the reduced sum does not
    /// fit the representation.
    pub fn checked_add(self, other: Value) -> (r: Option<Value>)
        requires
            self.wf(),
            other.wf(),
        ensures
            ({
                let m = norm_add(self@, other@);
                match r {
                    Some(v) => m == Some(v@) && v.wf(),
                    None => m is None,
                }
            }),
    {
        let an: i128 = self.num as i128;
        let ad: i128 = self.den as i128;
        let bn: i128 = other.num as i128;
        let bd: i128 = other.den as i128;
        proof {
            lemma_prod_bound_pos(an as int, bd as int);
            lemma_prod_bound_pos(bn as int, ad as int);
            lemma_den_prod_bound(ad as int, bd as int);
        }
        let n: i128 = an * bd + bn * ad;
        let d: i128 = ad * bd;
        Value::new_ratio(n, d)
    }

    /// `self - other`, reduced; `None` exactly when the reduced difference
    /// does not fit the representation.
    pub fn checked_sub(self, other: Value) -> (r: Option<Value>)
        requires
            self.wf(),
            other.wf(),
        ensures
            ({
                let m = norm_sub(self@, other@);
                match r {
                    Some(v) => m == Some(v@) && v.wf(),
                    None => m is None,
                }
            }),
    {
        let an: i128 = self.num as i128;
        let ad: i128 = self.den as i128;
        let bn: i128 = other.num as i128;
        let bd: i128 = other.den as i128;
        proof {
            lemma_prod_bound_pos(an as int, bd as int);
            lemma_prod_bound_pos(bn as int, ad as int);
            lemma_den_prod_bound(ad as int, bd as int);
        }
        let n: i128 = an * bd - bn * ad;
        let d: i128 = ad * bd;
        Value::new_ratio(n, d)
    }

    /// `self * other`, reduced; `None` exactly when the reduced product does
    /// not fit the representation.
    pub fn checked_mul(self, other: Value) -> (r: Option<Value>)
        requires
            self.wf(),
            other.wf(),
        ensures
            ({
                let m = norm_mul(self@, other@);
                match r {
                    Some(v) => m == Some(v@) && v.wf(),
                    None => m is None,
                }
            }),
    {
        let an: i128 = self.num as i128;
        let ad: i128 = self.den as i128;
        let bn: i128 = other.num as i128;
        let bd: i128 = other.den as i128;
        proof {
            lemma_prod_bound_full(an as int, bn as int);
            lemma_den_prod_bound(ad as int, bd as int);
        }
        let n: i128 = an * bn;
        let d: i128 = ad * bd;
        Value::new_ratio(n, d)
    }

    /// `self / other` for a non-zero divisor, reduced; `None` exactly when
    /// the reduced quotient does not fit the representation.
    pub fn checked_div(self, other: Value) -> (r: Option<Value>)
        requires
            self.wf(),
            other.wf(),
            other@.num != 0,
        ensures
            ({
                let m = norm_div(self@, other@);
                match r {
                    Some(v) => m == Some(v@) && v.wf(),
                    None => m is None,
                }
            }),
    {
        let an: i128 = self.num as i128;
        let ad: i128 = self.den as i128;
        let bn: i128 = other.num as i128;
        let bd: i128 = other.den as i128;
        proof {
            lemma_prod_bound_pos(an as int, bd as int);
            lemma_prod_bound_den_div(ad as int, bn as int);
        }
        let n0: i128 = an * bd;
        if bn < 0 {
            Value::new_ratio(-n0, ad * -bn)
        } else {
            Value::new_ratio(n0, ad * bn)
        }
    }

    /// `-self`, reduced; `None` exactly when the reduced negation does not
    /// fit the representation.
    pub fn checked_neg(self) -> (r: Option<Value>)
        requires
            self.wf(),
        ensures
            ({
                let m = norm_neg(self@);
                match r {
                    Some(v) => m == Some(v@) && v.wf(),
                    None => m is None,
                }
            }),
    {
        Value::new_ratio(-(self.num as i128), self.den as i128)
    }
}

/// The character of a decimal digit.
pub open spec fn digit_char(d: int) -> char {
    if d == 0 {
        '0'
    } else if d == 1 {
        '1'
    } else if d == 2 {
        '2'
    } else if d == 3 {
        '3'
    } else if d == 4 {
        '4'
    } else if d == 5 {
        '5'
    } else if d == 6 {
        '6'
    } else if d == 7 {
        '7'
    } else if d == 8 {
        '8'
    } else {
        '9'
    }
}

/// Decimal digits of a non-negative integer, most significant first.
pub open spec fn dec_digits(n: int) -> Seq<char>
    recommends
        n >= 0,
    decreases n,
{
    if n < 10 {
        seq![digit_char(n)]
    } else {
        dec_digits(n / 10).push(digit_char(n % 10))
    }
}

/// Fractional digits of `r0 / den` by long division — at most `fuel` of
/// them — and the remainder left when they end.
pub open spec fn frac_digits(r0: int, den: int, fuel: nat) -> (Seq<char>, int)
    recommends
        0 <= r0 < den,
    decreases fuel,
{
    if r0 == 0 || fuel == 0 {
        (Seq::empty(), r0)
    } else {
        let d = (r0 * 10) / den;
        let rest = frac_digits((r0 * 10) % den, den, (fuel - 1) as nat);
        (seq![digit_char(d)] + rest.0, rest.1)
    }
}

/// How a value renders: an integer as its decimal digits; a fraction whose
/// decimal expansion ends within 64 digits as a decimal number; any other
/// fraction as `numerator/denominator`. A negative value gets a leading
/// minus sign. 64 digits cover every terminating expansion of a 64-bit
/// denominator.
pub open spec fn spec_render_rat(v: Rat) -> Seq<char>
    recommends
        rat_wf(v),
{
    let sign: Seq<char> = if v.num < 0 {
        seq!['-']
    } else {
        Seq::empty()
    };
    let a = abs(v.num) as int;
    if v.den == 1 {
        sign + dec_digits(a)
    } else {
        let ip = a / v.den;
        let r0 = a % v.den;
        if r0 == 0 {
            sign + dec_digits(ip)
        } else {
            let fd = frac_digits(r0, v.den, 64);
            if fd.1 == 0 {
                sign + dec_digits(ip) + seq!['.'] + fd.0
            } else {
                sign + dec_digits(a) + seq!['/'] + dec_digits(v.den)
            }
        }
    }
}

/// Append one decimal digit character.
fn push_digit(out: &mut String, d: u128)
    requires
        d < 10,
    ensures
        final(out)@ == old(out)@ + seq![digit_char(d as int)],
{
    let s: &str = if d == 0 {
        "0"
    } else if d == 1 {
        "1"
    } else if d == 2 {
        "2"
    } else if d == 3 {
        "3"
    } else if d == 4 {
        "4"
    } else if d == 5 {
        "5"
    } else if d == 6 {
        "6"
    } else if d == 7 {
        "7"
    } else if d == 8 {
        "8"
    } else {
        "9"
    };
    proof {
        reveal_strlit("0");
        reveal_strlit("1");
        reveal_strlit("2");
        reveal_strlit("3");
        reveal_strlit("4");
        reveal_strlit("5");
        reveal_strlit("6");
        reveal_strlit("7");
        reveal_strlit("8");
        reveal_strlit("9");
        assert(s@ =~= seq![digit_char(d as int)]);
    }
    out.append(s);
}

/// Append the decimal digits of `n`, most significant first.
fn append_digits(out: &mut String, n: u128)
    ensures
        final(out)@ == old(out)@ + dec_digits(n as int),
    decreases n,
{
    if n < 10 {
        push_digit(out, n);
    } else {
        append_digits(out, n / 10);
        push_digit(out, n % 10);
        proof {
            assert(out@ =~= old(out)@ + dec_digits(n as int));
        }
    }
}

/// The remainder left after at most `fuel` steps of decimal long division.
fn frac_rem(r0: u128, den: u128, fuel: u64) -> (rem: u128)
    requires
        1 <= den <= 0xffff_ffff_ffff_ffff,
        r0 < den,
    ensures
        rem as int == frac_digits(r0 as int, den as int, fuel as nat).1,
        rem < den,
    decreases fuel,
{
    if r0 == 0 || fuel == 0 {
        r0
    } else {
        let r10: u128 = r0 * 10;
        frac_rem(r10 % den, den, fuel - 1)
    }
}

/// Append at most `fuel` fractional digits of `r0 / den`; the remainder
/// comes back.
fn append_frac_digits(out: &mut String, r0: u128, den: u128, fuel: u64) -> (rem: u128)
    requires
        1 <= den <= 0xffff_ffff_ffff_ffff,
        r0 < den,
    ensures
        final(out)@ == old(out)@ + frac_digits(r0 as int, den as int, fuel as nat).0,
        rem as int == frac_digits(r0 as int, den as int, fuel as nat).1,
    decreases fuel,
{
    if r0 == 0 || fuel == 0 {
        r0
    } else {
        let r10: u128 = r0 * 10;
        let d: u128 = r10 / den;
        proof {
            vstd::arithmetic::div_mod::lemma_multiply_divide_lt(r10 as int, den as int, 10);
        }
        push_digit(out, d);
        let rem = append_frac_digits(out, r10 % den, den, fuel - 1);
        proof {
            assert(out@ =~= old(out)@ + frac_digits(r0 as int, den as int, fuel as nat).0);
        }
        rem
    }
}

impl Value {
    /// Render the value as text: integers plainly, terminating decimal
    /// expansions as decimal numbers, everything else in lowest terms as
    /// `numerator/denominator`.
    pub fn render(&self) -> (s: String)
        requires
            self.wf(),
        ensures
            s@ == spec_render_rat(self@),
    {
        let mut out = String::new();
        if self.num < 0 {
            out.append("-");
        }
        proof {
            reveal_strlit("-");
            if self@.num < 0 {
                assert(out@ =~= seq!['-']);
            }
        }
        let ghost sign = out@;
        let a: u128 = if self.num < 0 {
            (-(self.num as i128)) as u128
        } else {
            self.num as u128
        };
        proof {
            assert(a as int == abs(self@.num) as int);
        }
        let den: u128 = self.den as u128;
        if self.den == 1 {
            append_digits(&mut out, a);
            proof {
                assert(out@ =~= spec_render_rat(self@));
            }
        } else {
            let ip: u128 = a / den;
            let r0: u128 = a % den;
            if r0 == 0 {
                append_digits(&mut out, ip);
                proof {
                    assert(out@ =~= spec_render_rat(self@));
                }
            } else {
                let rem = frac_rem(r0, den, 64);
                if rem == 0 {
                    append_digits(&mut out, ip);
                    out.append(".");
                    proof {
                        reveal_strlit(".");
                    }
                    let _tail = append_frac_digits(&mut out, r0, den, 64);
                    proof {
                        assert(out@ =~= spec_render_rat(self@));
                    }
                } else {
                    append_digits(&mut out, a);
                    out.append("/");
                    proof {
                        reveal_strlit("/");
                    }
                    append_digits(&mut out, den);
                    proof {
                        assert(out@ =~= spec_render_rat(self@));
                    }
                }
            }
        }
        out
    }
}

/// Bound on a product of a 64-bit integer with a positive 64-bit integer.
proof fn lemma_prod_bound_pos(x: int, y: int)
    requires
        -0x8000_0000_0000_0000 <= x <= 0x7fff_ffff_ffff_ffff,
        1 <= y <= 0x7fff_ffff_ffff_ffff,
    ensures
        -0x3fff_ffff_ffff_ffff_8000_0000_0000_0000 <= x * y
            <= 0x3fff_ffff_ffff_ffff_8000_0000_0000_0000,
{
    assert(-0x3fff_ffff_ffff_ffff_8000_0000_0000_0000 <= x * y
        <= 0x3fff_ffff_ffff_ffff_8000_0000_0000_0000) by (nonlinear_arith)
        requires
            -0x8000_0000_0000_0000 <= x <= 0x7fff_ffff_ffff_ffff,
            1 <= y <= 0x7fff_ffff_ffff_ffff,
    ;
}

/// Bound on a product of two 64-bit integers.
proof fn lemma_prod_bound_full(x: int, y: int)
    requires
        -0x8000_0000_0000_0000 <= x <= 0x7fff_ffff_ffff_ffff,
        -0x8000_0000_0000_0000 <= y <= 0x7fff_ffff_ffff_ffff,
    ensures
        -0x4000_0000_0000_0000_0000_0000_0000_0000 < x * y
            <= 0x4000_0000_0000_0000_0000_0000_0000_0000,
{
    assert(-0x4000_0000_0000_0000_0000_0000_0000_0000 < x * y
        <= 0x4000_0000_0000_0000_0000_0000_0000_0000) by (nonlinear_arith)
        requires
            -0x8000_0000_0000_0000 <= x <= 0x7fff_ffff_ffff_ffff,
            -0x8000_0000_0000_0000 <= y <= 0x7fff_ffff_ffff_ffff,
    ;
}

/// A product of two positive 64-bit denominators stays positive and bounded.
proof fn lemma_den_prod_bound(x: int, y: int)
    requires
        1 <= x <= 0x7fff_ffff_ffff_ffff,
        1 <= y <= 0x7fff_ffff_ffff_ffff,
    ensures
        1 <= x * y <= 0x3fff_ffff_ffff_ffff_0000_0000_0000_0001,
{
    assert(1 <= x * y <= 0x3fff_ffff_ffff_ffff_0000_0000_0000_0001) by (nonlinear_arith)
        requires
            1 <= x <= 0x7fff_ffff_ffff_ffff,
            1 <= y <= 0x7fff_ffff_ffff_ffff,
    ;
}

/// The denominator built while dividing (`den * |divisor numerator|`) stays
/// positive and bounded.
proof fn lemma_prod_bound_den_div(x: int, y: int)
    requires
        1 <= x <= 0x7fff_ffff_ffff_ffff,
        -0x8000_0000_0000_0000 <= y <= 0x7fff_ffff_ffff_ffff,
        y != 0,
    ensures
        y > 0 ==> 1 <= x * y <= 0x3fff_ffff_ffff_ffff_8000_0000_0000_0000,
        y < 0 ==> 1 <= x * -y <= 0x3fff_ffff_ffff_ffff_8000_0000_0000_0000,
{
    assert((y > 0 ==> 1 <= x * y <= 0x3fff_ffff_ffff_ffff_8000_0000_0000_0000) && (y < 0 ==> 1
        <= x * -y <= 0x3fff_ffff_ffff_ffff_8000_0000_0000_0000)) by (nonlinear_arith)
        requires
            1 <= x <= 0x7fff_ffff_ffff_ffff,
            -0x8000_0000_0000_0000 <= y <= 0x7fff_ffff_ffff_ffff,
            y != 0,
    ;
}

} // verus!
