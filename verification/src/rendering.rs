//! The textual form of a polynomial: its non-zero terms in ascending power,
//! joined by `" + "`.

use crate::polynomial::Polynomial;
use vstd::prelude::*;
use vstd::string::StringExecFns;

verus! {

/// The text of the decimal digit `d`, for `0 <= d <= 9`.
pub open spec fn digit_text(d: int) -> Seq<char> {
    if d == 0 {
        "0"@
    } else if d == 1 {
        "1"@
    } else if d == 2 {
        "2"@
    } else if d == 3 {
        "3"@
    } else if d == 4 {
        "4"@
    } else if d == 5 {
        "5"@
    } else if d == 6 {
        "6"@
    } else if d == 7 {
        "7"@
    } else if d == 8 {
        "8"@
    } else {
        "9"@
    }
}

/// The decimal text of `n`, without leading zeros.
pub open spec fn decimal_nat(n: nat) -> Seq<char>
    decreases n,
{
    if n < 10 {
        digit_text(n as int)
    } else {
        decimal_nat(n / 10) + digit_text(n as int % 10)
    }
}

/// The decimal text of `v`, with a leading `-` where `v` is negative.
pub open spec fn decimal(v: int) -> Seq<char> {
    if v < 0 {
        "-"@ + decimal_nat((-v) as nat)
    } else {
        decimal_nat(v as nat)
    }
}

/// The text of the term with coefficient `coef` at power `power`: the bare
/// coefficient for the constant term, `{coef}x` for power 1, and
/// `{coef}x^{power}` above. The coefficient carries its own sign.
pub open spec fn term_text(coef: int, power: nat) -> Seq<char> {
    if power == 0 {
        decimal(coef)
    } else if power == 1 {
        decimal(coef) + "x"@
    } else {
        decimal(coef) + "x^"@ + decimal_nat(power)
    }
}

/// The texts of the terms of `coefficients` that are not zero, in ascending
/// power.
pub open spec fn terms(coefficients: Seq<int>) -> Seq<Seq<char>>
    decreases coefficients.len(),
{
    if coefficients.len() == 0 {
        Seq::empty()
    } else if coefficients.last() == 0 {
        terms(coefficients.drop_last())
    } else {
        terms(coefficients.drop_last()).push(
            term_text(coefficients.last(), (coefficients.len() - 1) as nat),
        )
    }
}

/// The `parts` in order, with `separator` between each two neighbours.
pub open spec fn joined(parts: Seq<Seq<char>>, separator: Seq<char>) -> Seq<char>
    decreases parts.len(),
{
    if parts.len() == 0 {
        Seq::empty()
    } else if parts.len() == 1 {
        parts[0]
    } else {
        joined(parts.drop_last(), separator) + separator + parts.last()
    }
}

/// The text of the polynomial with the given coefficients: its non-zero
/// terms joined by `" + "`, or `"0"` where it has none.
pub open spec fn rendering(coefficients: Seq<int>) -> Seq<char> {
    if terms(coefficients).len() == 0 {
        "0"@
    } else {
        joined(terms(coefficients), " + "@)
    }
}

/// A coefficient sequence of zeros only has no terms to show.
pub proof fn lemma_terms_of_zeros(coefficients: Seq<int>)
    requires
        forall|i: int| 0 <= i < coefficients.len() ==> coefficients[i] == 0,
    ensures
        terms(coefficients).len() == 0,
        rendering(coefficients) == "0"@,
    decreases coefficients.len(),
{
    if coefficients.len() > 0 {
        lemma_terms_of_zeros(coefficients.drop_last());
    }
}

/// The text of one decimal digit.
fn digit_str(d: u64) -> (text: &'static str)
    requires
        d < 10,
    ensures
        text@ == digit_text(d as int),
{
    if d == 0 {
        "0"
    } else if d == 1 {
        "1"
    } else if d == 2 {
        "2"
    } else if d == 3 {
        "3"
    } else if d == 4 {
        "4"
    } else if d == 5 {
        "5"
    } else if d == 6 {
        "6"
    } else if d == 7 {
        "7"
    } else if d == 8 {
        "8"
    } else {
        "9"
    }
}

/// Appends the decimal text of `n` to `out`.
fn append_decimal_nat(out: &mut String, n: u64)
    ensures
        final(out)@ == old(out)@ + decimal_nat(n as nat),
    decreases n,
{
    if n >= 10 {
        append_decimal_nat(out, n / 10);
    }
    out.append(digit_str(n % 10));
    proof {
        if n >= 10 {
            assert(out@ =~= old(out)@ + (decimal_nat(n as nat / 10) + digit_text(n as int % 10)));
        }
    }
}

/// Appends the decimal text of `v` to `out`.
fn append_decimal(out: &mut String, v: i32)
    ensures
        final(out)@ == old(out)@ + decimal(v as int),
{
    if v < 0 {
        let magnitude: i64 = -(v as i64);
        out.append("-");
        append_decimal_nat(out, magnitude as u64);
        proof {
            assert(out@ =~= old(out)@ + ("-"@ + decimal_nat((-v) as nat)));
        }
    } else {
        append_decimal_nat(out, v as u64);
    }
}

/// Appends the text of the term with coefficient `coef` at power `power` to
/// `out`.
fn append_term(out: &mut String, coef: i32, power: usize)
    ensures
        final(out)@ == old(out)@ + term_text(coef as int, power as nat),
{
    append_decimal(out, coef);
    if power == 1 {
        out.append("x");
        proof {
            assert(out@ =~= old(out)@ + (decimal(coef as int) + "x"@));
        }
    } else if power >= 2 {
        out.append("x^");
        append_decimal_nat(out, power as u64);
        proof {
            assert(out@ =~= old(out)@ + (decimal(coef as int) + "x^"@ + decimal_nat(
                power as nat,
            )));
        }
    }
}

impl Polynomial {
    /// The polynomial as text: its non-zero terms in ascending power, joined
    /// by `" + "`, each formatted by [`term_text`]; `"0"` where no
    /// coefficient differs from zero.
    pub fn render(&self) -> (text: String)
        ensures
            text@ == rendering(self@),
            (forall|i: int| 0 <= i < self@.len() ==> self@[i] == 0) ==> text@ == "0"@,
    {
        let ghost a = self@;
        let mut out = String::new();
        let mut any: bool = false;
        let mut i: usize = 0;
        proof {
            assert(a.take(0) =~= Seq::<int>::empty());
        }
        while i < self.coefficients.len()
            invariant
                i <= self.coefficients@.len(),
                a == self@,
                any == (terms(a.take(i as int)).len() > 0),
                out@ == joined(terms(a.take(i as int)), " + "@),
            decreases self.coefficients@.len() - i,
        {
            let coef: i32 = self.coefficients[i];
            let ghost shown = terms(a.take(i as int));
            proof {
                assert(a.take(i + 1).drop_last() =~= a.take(i as int));
                assert(a.take(i + 1).last() == coef as int);
            }
            if coef != 0 {
                if any {
                    out.append(" + ");
                }
                append_term(&mut out, coef, i);
                any = true;
                proof {
                    let term = term_text(coef as int, i as nat);
                    assert(terms(a.take(i + 1)) == shown.push(term));
                    assert(shown.push(term).drop_last() =~= shown);
                    assert(out@ =~= joined(shown.push(term), " + "@));
                }
            }
            i += 1;
        }
        proof {
            assert(a.take(self.coefficients@.len() as int) =~= a);
            if forall|i: int| 0 <= i < a.len() ==> a[i] == 0 {
                lemma_terms_of_zeros(a);
            }
        }
        if !any {
            out.append("0");
            proof {
                assert(out@ =~= "0"@);
            }
        }
        out
    }
}

} // verus!
