//! Polynomials with `i32` coefficients and their three products.

use crate::convolution::{
    cyclic_fold, cyclic_product, fold, fold_coefficient, lemma_fold_empty, lemma_fold_push,
    lemma_fold_wrapped, negacyclic_fold, negacyclic_product, pair_term, partial_coefficient,
    product, product_coefficient, product_len, ring_len, wrap_sign,
};
use crate::wrapping::{
    all_fit, fits, lemma_machine_ops, lemma_wrap_add, lemma_wrap_all_exact, wrap, wrap_all,
};
use vstd::prelude::*;

verus! {

/// The entries of `s` as mathematical integers.
pub open spec fn ints(s: Seq<i32>) -> Seq<int> {
    Seq::new(s.len(), |i: int| s[i] as int)
}

/// A polynomial with integer coefficients: `coefficients[i]` is the
/// coefficient of `x^i`, so index 0 holds the constant term. A polynomial
/// without coefficients is the zero polynomial.
#[derive(Debug)]
pub struct Polynomial {
    pub coefficients: Vec<i32>,
}

impl Clone for Polynomial {
    /// A polynomial with the same coefficients.
    fn clone(&self) -> (copy: Polynomial)
        ensures
            copy@ == self@,
            copy.coefficients@ == self.coefficients@,
    {
        Polynomial { coefficients: self.coefficients.clone() }
    }
}

impl View for Polynomial {
    type V = Seq<int>;

    /// The coefficient sequence, as mathematical integers.
    open spec fn view(&self) -> Seq<int> {
        ints(self.coefficients@)
    }
}

/// One step of a reduction modulo `x^n - 1` or `x^n + 1`: how the
/// coefficient at one power of the product entered its residue.
#[derive(Debug, Clone, Copy, PartialEq, Eq, Structural)]
pub struct FoldStep {
    /// The power of the product whose coefficient is folded.
    pub power: usize,
    /// The coefficient of the product at that power.
    pub coefficient: i32,
    /// The residue that receives it: `power % n`.
    pub residue: usize,
    /// Whether it is subtracted from the residue rather than added to it.
    pub subtracted: bool,
    /// The value at the residue before the step.
    pub previous: i32,
    /// The value at the residue after the step.
    pub updated: i32,
}

/// Whether `step` records how the coefficient at power `k` of `p` enters the
/// reduction of `p` to `n` coefficients, the lower powers having entered
/// before it.
pub open spec fn records_step(
    step: FoldStep,
    p: Seq<int>,
    n: nat,
    alternating: bool,
    k: int,
) -> bool {
    &&& step.power == k
    &&& step.coefficient == p[k]
    &&& step.residue == k % (n as int)
    &&& step.subtracted == (wrap_sign(k / (n as int), alternating) < 0)
    &&& step.previous == wrap(fold(p.take(k), n, alternating)[k % (n as int)])
    &&& step.updated == wrap(fold(p.take(k + 1), n, alternating)[k % (n as int)])
}

/// Whether `steps` records the reduction of `p` to `n` coefficients, power by
/// power in ascending order.
pub open spec fn records_fold(steps: Seq<FoldStep>, p: Seq<int>, n: nat, alternating: bool) -> bool {
    &&& steps.len() == p.len()
    &&& forall|k: int|
        0 <= k < steps.len() ==> records_step(#[trigger] steps[k], p, n, alternating, k)
}

/// Reduces `powers` to `n` coefficients: the coefficient at power `k` is
/// added to residue `k % n`, or subtracted from it where `alternating` is set
/// and `k / n` is odd. Where `record` is set the steps are handed back too.
fn fold_wrapping(powers: &Vec<i32>, n: usize, alternating: bool, record: bool) -> (out: (
    Vec<i32>,
    Vec<FoldStep>,
))
    requires
        n > 0 || powers@.len() == 0,
    ensures
        ints(out.0@) == wrap_all(fold(ints(powers@), n as nat, alternating)),
        record ==> records_fold(out.1@, ints(powers@), n as nat, alternating),
        !record ==> out.1@.len() == 0,
{
    let ghost p = ints(powers@);
    let mut folded: Vec<i32> = vec![0; n];
    let mut steps: Vec<FoldStep> = Vec::new();
    proof {
        lemma_fold_empty(n as nat, alternating);
        assert(p.take(0) =~= Seq::<int>::empty());
        assert(ints(folded@) =~= wrap_all(fold(p.take(0), n as nat, alternating)));
    }
    let mut k: usize = 0;
    while k < powers.len()
        invariant
            k <= powers@.len(),
            n > 0 || powers@.len() == 0,
            p == ints(powers@),
            folded@.len() == n,
            ints(folded@) == wrap_all(fold(p.take(k as int), n as nat, alternating)),
            record ==> steps@.len() == k,
            record ==> forall|t: int|
                0 <= t < k ==> records_step(#[trigger] steps@[t], p, n as nat, alternating, t),
            !record ==> steps@.len() == 0,
        decreases powers@.len() - k,
    {
        let coef: i32 = powers[k];
        let residue: usize = k % n;
        let subtracted: bool = alternating && (k / n) % 2 == 1;
        let ghost before = fold(p.take(k as int), n as nat, alternating);
        let ghost sign = wrap_sign(k as int / n as int, alternating);
        let previous: i32 = folded[residue];
        let updated: i32 = if subtracted {
            previous.wrapping_sub(coef)
        } else {
            previous.wrapping_add(coef)
        };
        proof {
            assert(previous as int == ints(folded@)[residue as int]);
            assert(previous as int == wrap(before[residue as int]));
            lemma_machine_ops(previous, coef);
            lemma_wrap_add(before[residue as int], coef as int);
            assert(p.take(k + 1) =~= p.take(k as int).push(coef as int));
            lemma_fold_push(p.take(k as int), coef as int, n as nat, alternating);
        }
        let ghost earlier = folded@;
        folded[residue] = updated;
        proof {
            let after = fold(p.take(k + 1), n as nat, alternating);
            assert forall|r: int| 0 <= r < n implies ints(folded@)[r] == wrap(after[r]) by {
                if r != residue {
                    assert(ints(folded@)[r] == ints(earlier)[r]);
                    assert(ints(earlier)[r] == wrap_all(before)[r]);
                }
            }
            assert(ints(folded@) =~= wrap_all(after));
        }
        if record {
            let step = FoldStep { power: k, coefficient: coef, residue, subtracted, previous, updated };
            steps.push(step);
        }
        k += 1;
    }
    proof {
        assert(p.take(powers@.len() as int) =~= p);
    }
    (folded, steps)
}

impl Polynomial {
    /// Makes the polynomial with the given coefficients, index 0 first.
    pub fn new(coefficients: Vec<i32>) -> (polynomial: Polynomial)
        ensures
            polynomial.coefficients == coefficients,
            polynomial@ == ints(coefficients@),
    {
        Polynomial { coefficients }
    }

    /// The product of `self` and `other`: coefficient `k` is the sum of
    /// `self[i] * other[j]` over all `i + j == k`, wrapped into `i32`. A
    /// coefficient is the exact sum exactly where that sum is representable;
    /// where all are, the result is the exact product. A product with an
    /// operand that has no coefficients has none either.
    pub fn multiply(&self, other: &Polynomial) -> (result: Polynomial)
        ensures
            result@.len() == product_len(self@.len(), other@.len()),
            result@ == wrap_all(product(self@, other@)),
            forall|k: int|
                0 <= k < result@.len() ==> (#[trigger] result@[k] == product_coefficient(
                    self@,
                    other@,
                    k,
                ) <==> fits(product_coefficient(self@, other@, k))),
            all_fit(product(self@, other@)) ==> result@ == product(self@, other@),
    {
        let n1: usize = self.coefficients.len();
        let n2: usize = other.coefficients.len();
        let ghost a = self@;
        let ghost b = other@;
        if n1 == 0 || n2 == 0 {
            let empty = Polynomial::new(Vec::new());
            proof {
                assert(empty@ =~= product(a, b));
            }
            return empty;
        }
        // One zero for each power of the product: those up to the degree of
        // `self`, then one more for each further coefficient of `other`.
        let mut result: Vec<i32> = vec![0; n1];
        let mut above: Vec<i32> = vec![0; n2 - 1];
        result.append(&mut above);
        let len: usize = result.len();
        let mut i: usize = 0;
        while i < n1
            invariant
                i <= n1,
                n1 == self.coefficients@.len(),
                n2 == other.coefficients@.len(),
                n2 > 0,
                len == n1 + n2 - 1,
                a == self@,
                b == other@,
                result@.len() == len,
                forall|k: int|
                    0 <= k < len ==> #[trigger] result@[k] as int == wrap(
                        partial_coefficient(a, b, k, i as nat),
                    ),
            decreases n1 - i,
        {
            let coef1: i32 = self.coefficients[i];
            let mut j: usize = 0;
            while j < n2
                invariant
                    i < n1,
                    j <= n2,
                    n1 == self.coefficients@.len(),
                    n2 == other.coefficients@.len(),
                    len == n1 + n2 - 1,
                    a == self@,
                    b == other@,
                    coef1 as int == a[i as int],
                    result@.len() == len,
                    forall|k: int|
                        0 <= k < len ==> #[trigger] result@[k] as int == wrap(
                            partial_coefficient(a, b, k, i as nat) + (if i <= k < i + j {
                                a[i as int] * b[k - i]
                            } else {
                                0
                            }),
                        ),
                decreases n2 - j,
            {
                let coef2: i32 = other.coefficients[j];
                let previous: i32 = result[i + j];
                let updated: i32 = previous.wrapping_add(coef1.wrapping_mul(coef2));
                proof {
                    let sum = partial_coefficient(a, b, (i + j) as int, i as nat);
                    lemma_machine_ops(coef1, coef2);
                    lemma_machine_ops(previous, coef1.wrapping_mul(coef2));
                    lemma_wrap_add(sum, coef1 * coef2);
                }
                result[i + j] = updated;
                j += 1;
            }
            proof {
                assert forall|k: int| 0 <= k < len implies #[trigger] result@[k] as int == wrap(
                    partial_coefficient(a, b, k, (i + 1) as nat),
                ) by {
                    assert(pair_term(a, b, k, i as int) == (if i <= k < i + n2 {
                        a[i as int] * b[k - i]
                    } else {
                        0
                    }));
                }
            }
            i += 1;
        }
        let result = Polynomial::new(result);
        proof {
            assert(result@ =~= wrap_all(product(a, b)));
            if all_fit(product(a, b)) {
                lemma_wrap_all_exact(product(a, b));
            }
        }
        result
    }

    /// The product of `self` and `other` reduced to as many coefficients as
    /// the longer operand has, modulo `x^n - 1` or, if `alternating`, modulo
    /// `x^n + 1`; with the steps of the reduction where `record` is set.
    fn convolve(&self, other: &Polynomial, alternating: bool, record: bool) -> (out: (
        Polynomial,
        Vec<FoldStep>,
    ))
        ensures
            out.0@ == wrap_all(
                fold(product(self@, other@), ring_len(self@.len(), other@.len()), alternating),
            ),
            out.0@ == wrap_all(
                fold(
                    wrap_all(product(self@, other@)),
                    ring_len(self@.len(), other@.len()),
                    alternating,
                ),
            ),
            record ==> records_fold(
                out.1@,
                wrap_all(product(self@, other@)),
                ring_len(self@.len(), other@.len()),
                alternating,
            ),
            !record ==> out.1@.len() == 0,
    {
        let full = self.multiply(other);
        let n: usize = if self.coefficients.len() >= other.coefficients.len() {
            self.coefficients.len()
        } else {
            other.coefficients.len()
        };
        let (folded, steps) = fold_wrapping(&full.coefficients, n, alternating, record);
        proof {
            lemma_fold_wrapped(product(self@, other@), n as nat, alternating);
        }
        (Polynomial::new(folded), steps)
    }

    /// The cyclic convolution of `self` and `other`: their product modulo
    /// `x^n - 1`, where `n` is the larger of the two lengths. The coefficient
    /// at power `k` of the product is added to residue `k % n`; the sums are
    /// wrapped into `i32`.
    ///
    /// The result is the wrapped reduction of the exact product, and just as
    /// well of the product as [`Polynomial::multiply`] gives it. The
    /// coefficient at residue `r` is the sum of that product's coefficients
    /// at the powers `r`, `r + n`, ... exactly where this sum is
    /// representable. Where every coefficient of the exact reduction is
    /// representable, the result is that reduction.
    pub fn cyclic_convolution(&self, other: &Polynomial) -> (result: Polynomial)
        ensures
            result@.len() == ring_len(self@.len(), other@.len()),
            result@ == wrap_all(cyclic_product(self@, other@)),
            result@ == wrap_all(
                cyclic_fold(
                    wrap_all(product(self@, other@)),
                    ring_len(self@.len(), other@.len()),
                ),
            ),
            forall|r: int|
                0 <= r < result@.len() ==> (#[trigger] result@[r] == fold_coefficient(
                    wrap_all(product(self@, other@)),
                    result@.len() as int,
                    r,
                    false,
                ) <==> fits(
                    fold_coefficient(
                        wrap_all(product(self@, other@)),
                        result@.len() as int,
                        r,
                        false,
                    ),
                )),
            all_fit(cyclic_product(self@, other@)) ==> result@ == cyclic_product(self@, other@),
    {
        let (result, _) = self.convolve(other, false, false);
        proof {
            if all_fit(cyclic_product(self@, other@)) {
                lemma_wrap_all_exact(cyclic_product(self@, other@));
            }
        }
        result
    }

    /// The negacyclic convolution of `self` and `other`: their product
    /// modulo `x^n + 1`, where `n` is the larger of the two lengths. The
    /// coefficient at power `k` of the product is added to residue `k % n`
    /// where `k / n` is even and subtracted from it where `k / n` is odd; the
    /// sums are wrapped into `i32`.
    ///
    /// The result is the wrapped reduction of the exact product, and just as
    /// well of the product as [`Polynomial::multiply`] gives it. The
    /// coefficient at residue `r` is the sum over `q` of `(-1)^q` times that
    /// product's coefficient at power `q * n + r` exactly where this sum is
    /// representable. Where every coefficient of the exact reduction is
    /// representable, the result is that reduction.
    pub fn negacyclic_convolution(&self, other: &Polynomial) -> (result: Polynomial)
        ensures
            result@.len() == ring_len(self@.len(), other@.len()),
            result@ == wrap_all(negacyclic_product(self@, other@)),
            result@ == wrap_all(
                negacyclic_fold(
                    wrap_all(product(self@, other@)),
                    ring_len(self@.len(), other@.len()),
                ),
            ),
            forall|r: int|
                0 <= r < result@.len() ==> (#[trigger] result@[r] == fold_coefficient(
                    wrap_all(product(self@, other@)),
                    result@.len() as int,
                    r,
                    true,
                ) <==> fits(
                    fold_coefficient(
                        wrap_all(product(self@, other@)),
                        result@.len() as int,
                        r,
                        true,
                    ),
                )),
            all_fit(negacyclic_product(self@, other@)) ==> result@ == negacyclic_product(
                self@,
                other@,
            ),
    {
        let (result, _) = self.convolve(other, true, false);
        proof {
            if all_fit(negacyclic_product(self@, other@)) {
                lemma_wrap_all_exact(negacyclic_product(self@, other@));
            }
        }
        result
    }

    /// The cyclic convolution of `self` and `other` as
    /// [`Polynomial::cyclic_convolution`] gives it, together with one
    /// [`FoldStep`] for each coefficient of their product, in ascending
    /// power: a record of how the result came about.
    pub fn cyclic_convolution_traced(&self, other: &Polynomial) -> (traced: (
        Polynomial,
        Vec<FoldStep>,
    ))
        ensures
            traced.0@ == wrap_all(cyclic_product(self@, other@)),
            records_fold(
                traced.1@,
                wrap_all(product(self@, other@)),
                ring_len(self@.len(), other@.len()),
                false,
            ),
    {
        self.convolve(other, false, true)
    }

    /// The negacyclic convolution of `self` and `other` as
    /// [`Polynomial::negacyclic_convolution`] gives it, together with one
    /// [`FoldStep`] for each coefficient of their product, in ascending
    /// power: a record of how the result came about.
    pub fn negacyclic_convolution_traced(&self, other: &Polynomial) -> (traced: (
        Polynomial,
        Vec<FoldStep>,
    ))
        ensures
            traced.0@ == wrap_all(negacyclic_product(self@, other@)),
            records_fold(
                traced.1@,
                wrap_all(product(self@, other@)),
                ring_len(self@.len(), other@.len()),
                true,
            ),
    {
        self.convolve(other, true, true)
    }
}

} // verus!
