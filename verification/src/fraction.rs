//! Exact fractions for proportions and percentages, and their decimal
//! rendering.

use vstd::prelude::*;

use crate::chars::push_char;

verus! {

/// An exact non-negative fraction.  Proportions carry `count / total`;
/// percentages carry the same value scaled by one hundred.
#[derive(Debug, Clone, Copy, PartialEq, Eq, Structural)]
pub struct Fraction {
    pub num: u64,
    pub den: u64,
}

impl Fraction {
    /// A fraction is well formed when its denominator is nonzero.
    pub open spec fn wf(self) -> bool {
        self.den > 0
    }

    /// Strict comparison of the exact values, by cross-multiplication.
    pub open spec fn spec_gt(self, other: Fraction) -> bool {
        self.num * other.den > other.num * self.den
    }

    /// The fraction lies in the closed unit interval.
    pub open spec fn spec_in_unit(self) -> bool {
        self.num <= self.den
    }

    /// Strict comparison of the exact values.
    pub fn gt(&self, other: &Fraction) -> (r: bool)
        ensures
            r == self.spec_gt(*other),
    {
        proof {
            lemma_u64_mul_fits(self.num, other.den);
            lemma_u64_mul_fits(other.num, self.den);
        }
        (self.num as u128) * (other.den as u128) > (other.num as u128) * (self.den as u128)
    }
}

proof fn lemma_u64_mul_fits(a: u64, b: u64)
    ensures
        (a as int) * (b as int) <= u128::MAX,
{
    assert((a as int) * (b as int) <= u64::MAX * u64::MAX) by (nonlinear_arith)
        requires
            0 <= a <= u64::MAX,
            0 <= b <= u64::MAX,
    ;
}

/// The decimal digit character for a value below ten.
pub open spec fn digit_char(d: int) -> char {
    (48 + d) as char
}

/// The decimal numeral of a natural number, most significant digit
/// first.
pub open spec fn dec_str(n: int) -> Seq<char>
    decreases n,
{
    if n < 10 {
        seq![digit_char(if n < 0 {
            0
        } else {
            n
        })]
    } else {
        dec_str(n / 10).push(digit_char(n % 10))
    }
}

/// The first `fuel` digits of the decimal expansion of `rem / den`,
/// stopping early once the remainder vanishes.
pub open spec fn frac_digits(rem: int, den: int, fuel: nat) -> Seq<char>
    decreases fuel,
{
    if fuel == 0 || rem == 0 {
        Seq::empty()
    } else {
        seq![digit_char(rem * 10 / den)] + frac_digits(rem * 10 % den, den, (fuel - 1) as nat)
    }
}

/// How many fractional digits a rendered fraction shows at most.
pub open spec fn frac_precision() -> nat {
    8
}

/// The decimal rendering of a fraction: the integer part, then up to
/// eight fractional digits when the value is not integral.
pub open spec fn spec_frac_str(f: Fraction) -> Seq<char> {
    let q = f.num as int / f.den as int;
    let rem = f.num as int % f.den as int;
    if rem == 0 {
        dec_str(q)
    } else {
        dec_str(q) + seq!['.'] + frac_digits(rem, f.den as int, frac_precision())
    }
}

/// Appends the decimal numeral of `n` to `out`.
pub fn push_dec(out: &mut String, n: u64)
    ensures
        final(out)@ == old(out)@ + dec_str(n as int),
    decreases n,
{
    if n < 10 {
        push_char(out, digit_exec(n));
        proof {
            assert(old(out)@ + dec_str(n as int) =~= old(out)@.push(digit_char(n as int)));
        }
    } else {
        push_dec(out, n / 10);
        push_char(out, digit_exec(n % 10));
        proof {
            assert(old(out)@ + dec_str(n as int) =~= (old(out)@ + dec_str(n as int / 10)).push(
                digit_char(n as int % 10),
            ));
        }
    }
}

/// Appends the decimal rendering of the fraction to `out`.
pub fn push_frac(out: &mut String, f: &Fraction)
    requires
        f.wf(),
    ensures
        final(out)@ == old(out)@ + spec_frac_str(*f),
{
    let q = f.num / f.den;
    let rem = f.num % f.den;
    push_dec(out, q);
    if rem != 0 {
        push_char(out, '.');
        let ghost mid = out@;
        let mut r: u128 = rem as u128;
        let den: u128 = f.den as u128;
        let mut fuel: u64 = 8;
        proof {
            assert(mid.skip(mid.len() as int) =~= Seq::<char>::empty());
            assert(Seq::<char>::empty() + frac_digits(rem as int, f.den as int, 8)
                =~= frac_digits(rem as int, f.den as int, 8));
        }
        while fuel > 0 && r != 0
            invariant
                den == f.den as u128,
                den > 0,
                r < den,
                fuel <= 8,
                mid.len() <= out@.len(),
                out@.take(mid.len() as int) == mid,
                frac_digits(rem as int, f.den as int, frac_precision()) == out@.skip(
                    mid.len() as int,
                ) + frac_digits(r as int, f.den as int, fuel as nat),
            decreases fuel,
        {
            let ghost prev = out@;
            proof {
                assert((r as int) * 10 < (den as int) * 10) by (nonlinear_arith)
                    requires
                        (r as int) < (den as int),
                ;
                assert(((r as int) * 10) / (den as int) < 10) by (nonlinear_arith)
                    requires
                        (den as int) > 0,
                        (r as int) * 10 < (den as int) * 10,
                ;
                assert(((r as int) * 10) % (den as int) < (den as int)) by (nonlinear_arith)
                    requires
                        (den as int) > 0,
                ;
            }
            let d = (r * 10) / den;
            push_char(out, digit_u128(d));
            proof {
                assert(frac_digits(r as int, f.den as int, fuel as nat) == seq![
                    digit_char(r as int * 10 / f.den as int),
                ] + frac_digits(r as int * 10 % f.den as int, f.den as int, (fuel - 1) as nat));
                assert(d as int == r as int * 10 / f.den as int);
            }
            r = (r * 10) % den;
            fuel = fuel - 1;
            proof {
                assert(out@.skip(mid.len() as int) =~= prev.skip(mid.len() as int).push(
                    digit_char(d as int),
                ));
                assert(out@.take(mid.len() as int) =~= mid);
                assert(prev.skip(mid.len() as int).push(digit_char(d as int)) + frac_digits(
                    r as int,
                    f.den as int,
                    fuel as nat,
                ) =~= prev.skip(mid.len() as int) + (seq![digit_char(d as int)] + frac_digits(
                    r as int,
                    f.den as int,
                    fuel as nat,
                )));
            }
        }
        proof {
            assert(frac_digits(r as int, f.den as int, fuel as nat) == Seq::<char>::empty());
            assert(out@ =~= mid + frac_digits(rem as int, f.den as int, frac_precision()));
            assert(mid + frac_digits(rem as int, f.den as int, frac_precision()) =~= old(
                out,
            )@ + spec_frac_str(*f));
        }
    } else {
        proof {
            assert(old(out)@ + spec_frac_str(*f) =~= old(out)@ + dec_str(
                f.num as int / f.den as int,
            ));
        }
    }
}

fn digit_exec(d: u64) -> (c: char)
    requires
        d < 10,
    ensures
        c == digit_char(d as int),
{
    ((48 + d as u32) as u8) as char
}

fn digit_u128(d: u128) -> (c: char)
    requires
        d < 10,
    ensures
        c == digit_char(d as int),
{
    ((48 + d as u32) as u8) as char
}

} // verus!
