//! The mathematics of the three products, over unbounded integers.
//!
//! A polynomial is modelled by its coefficient sequence: entry `i` is the
//! coefficient of `x^i`. The definitions here neither wrap nor overflow; the
//! executable operations are specified against them, and the laws on
//! wrapped sequences say what wrapping the coefficients into `i32` keeps of
//! them.

use crate::wrapping::{
    all_fit, congruent, lemma_wrap_all_exact, lemma_wrap_congruent, wrap, wrap_all,
};
use vstd::prelude::*;

verus! {

/// What `a[i]` contributes to coefficient `k` of the product of `a` and `b`:
/// `a[i] * b[k - i]` where both entries exist, and nothing otherwise.
pub open spec fn pair_term(a: Seq<int>, b: Seq<int>, k: int, i: int) -> int {
    if 0 <= i < a.len() && 0 <= k - i < b.len() {
        a[i] * b[k - i]
    } else {
        0
    }
}

/// The sum of `pair_term(a, b, k, i)` over `0 <= i < m`.
pub open spec fn partial_coefficient(a: Seq<int>, b: Seq<int>, k: int, m: nat) -> int
    decreases m,
{
    if m == 0 {
        0
    } else {
        partial_coefficient(a, b, k, (m - 1) as nat) + pair_term(a, b, k, m - 1)
    }
}

/// Coefficient `k` of the product of `a` and `b`: the sum of `a[i] * b[j]`
/// over all index pairs with `i + j == k`.
pub open spec fn product_coefficient(a: Seq<int>, b: Seq<int>, k: int) -> int {
    partial_coefficient(a, b, k, a.len())
}

/// The number of coefficients of a product of operands with `n1` and `n2`
/// coefficients. An operand without coefficients is the zero polynomial, and
/// so is any product with it.
pub open spec fn product_len(n1: nat, n2: nat) -> nat {
    if n1 == 0 || n2 == 0 {
        0
    } else {
        (n1 + n2 - 1) as nat
    }
}

/// The exact, unreduced product of `a` and `b`.
pub open spec fn product(a: Seq<int>, b: Seq<int>) -> Seq<int> {
    Seq::new(product_len(a.len(), b.len()), |k: int| product_coefficient(a, b, k))
}

/// Appending an entry `x` to the second operand adds to each partial sum the
/// one pair that reaches `x`.
proof fn lemma_partial_coefficient_push(a: Seq<int>, b: Seq<int>, x: int, k: int, m: nat)
    requires
        m <= a.len(),
    ensures
        partial_coefficient(a, b.push(x), k, m) == partial_coefficient(a, b, k, m) + (if 0 <= k
            - b.len() < m {
            a[k - b.len()] * x
        } else {
            0
        }),
    decreases m,
{
    if m > 0 {
        lemma_partial_coefficient_push(a, b, x, k, (m - 1) as nat);
        let i = m - 1;
        if 0 <= k - i < b.len() {
            assert(b.push(x)[k - i] == b[k - i]);
        }
    }
}

/// Against an operand without coefficients every partial sum is zero.
proof fn lemma_partial_coefficient_empty(a: Seq<int>, k: int, m: nat)
    ensures
        partial_coefficient(a, Seq::<int>::empty(), k, m) == 0,
    decreases m,
{
    if m > 0 {
        lemma_partial_coefficient_empty(a, k, (m - 1) as nat);
    }
}

/// The first `m` terms of the sum for `(a, b)` add up to the whole sum for
/// `(b, a.take(m))`.
proof fn lemma_partial_coefficient_mirror(a: Seq<int>, b: Seq<int>, k: int, m: nat)
    requires
        m <= a.len(),
    ensures
        partial_coefficient(a, b, k, m) == product_coefficient(b, a.take(m as int), k),
    decreases m,
{
    if m == 0 {
        assert(a.take(0) =~= Seq::<int>::empty());
        lemma_partial_coefficient_empty(b, k, b.len());
    } else {
        let i = m - 1;
        lemma_partial_coefficient_mirror(a, b, k, i as nat);
        assert(a.take(m as int) =~= a.take(i).push(a[i]));
        lemma_partial_coefficient_push(b, a.take(i), a[i], k, b.len());
        if 0 <= k - i < b.len() {
            assert(b[k - i] * a[i] == a[i] * b[k - i]) by (nonlinear_arith);
        }
    }
}

/// Every coefficient sum is symmetric in its operands.
pub proof fn lemma_product_coefficient_commutes(a: Seq<int>, b: Seq<int>, k: int)
    ensures
        product_coefficient(a, b, k) == product_coefficient(b, a, k),
{
    lemma_partial_coefficient_mirror(a, b, k, a.len());
    assert(a.take(a.len() as int) =~= a);
}

/// Multiplication is commutative: the product of `a` and `b` is, coefficient
/// by coefficient, the product of `b` and `a`.
pub proof fn lemma_product_commutes(a: Seq<int>, b: Seq<int>)
    ensures
        product(a, b) == product(b, a),
{
    assert forall|k: int| 0 <= k < product(a, b).len() implies product(a, b)[k] == product(
        b,
        a,
    )[k] by {
        lemma_product_coefficient_commutes(a, b, k);
    }
    assert(product(a, b) =~= product(b, a));
}

/// The sign with which a coefficient enters its residue after `q` wraps
/// around `n`: always `+1` where `x^n` is 1, and `(-1)^q` where `x^n` is -1
/// (`alternating`).
pub open spec fn wrap_sign(q: int, alternating: bool) -> int {
    if alternating && q % 2 != 0 {
        -1
    } else {
        1
    }
}

/// What power `q * n + r` of `p` contributes to residue `r`: its coefficient
/// with the sign of `q` wraps where `p` has such a power, and nothing
/// otherwise.
pub open spec fn fold_term(p: Seq<int>, n: int, r: int, alternating: bool, q: int) -> int {
    if 0 <= q * n + r < p.len() {
        wrap_sign(q, alternating) * p[q * n + r]
    } else {
        0
    }
}

/// The sum of `fold_term(p, n, r, alternating, q)` over `0 <= q < m`.
pub open spec fn fold_partial(p: Seq<int>, n: int, r: int, alternating: bool, m: nat) -> int
    decreases m,
{
    if m == 0 {
        0
    } else {
        fold_partial(p, n, r, alternating, (m - 1) as nat) + fold_term(
            p,
            n,
            r,
            alternating,
            m - 1,
        )
    }
}

/// Coefficient `r` of `p` reduced modulo `x^n - 1` or, if `alternating`,
/// modulo `x^n + 1`: the sum over all `q >= 0` of the coefficient of `p` at
/// power `q * n + r`, taken with the sign of `q` wraps. For `n >= 1` no power
/// of `p` needs `p.len()` wraps or more, so that many terms cover them all.
pub open spec fn fold_coefficient(p: Seq<int>, n: int, r: int, alternating: bool) -> int {
    fold_partial(p, n, r, alternating, p.len())
}

/// The `n` coefficients of `p` reduced modulo `x^n - 1` or `x^n + 1`.
pub open spec fn fold(p: Seq<int>, n: nat, alternating: bool) -> Seq<int> {
    Seq::new(n, |r: int| fold_coefficient(p, n as int, r, alternating))
}

/// `p` reduced modulo `x^n - 1`.
pub open spec fn cyclic_fold(p: Seq<int>, n: nat) -> Seq<int> {
    fold(p, n, false)
}

/// `p` reduced modulo `x^n + 1`.
pub open spec fn negacyclic_fold(p: Seq<int>, n: nat) -> Seq<int> {
    fold(p, n, true)
}

/// The size of the ring in which two operands with `n1` and `n2` coefficients
/// are convolved: the larger of the two.
pub open spec fn ring_len(n1: nat, n2: nat) -> nat {
    if n1 >= n2 {
        n1
    } else {
        n2
    }
}

/// The cyclic convolution of `a` and `b`: their product modulo `x^n - 1`,
/// where `n` is the larger of their lengths.
pub open spec fn cyclic_product(a: Seq<int>, b: Seq<int>) -> Seq<int> {
    cyclic_fold(product(a, b), ring_len(a.len(), b.len()))
}

/// The negacyclic convolution of `a` and `b`: their product modulo
/// `x^n + 1`, where `n` is the larger of their lengths.
pub open spec fn negacyclic_product(a: Seq<int>, b: Seq<int>) -> Seq<int> {
    negacyclic_fold(product(a, b), ring_len(a.len(), b.len()))
}

/// The sum of all entries of `s`.
pub open spec fn total(s: Seq<int>) -> int
    decreases s.len(),
{
    if s.len() == 0 {
        0
    } else {
        total(s.drop_last()) + s.last()
    }
}

/// A power `q * n + r` with `0 <= r < n` has quotient `q` and remainder `r`.
proof fn lemma_power_split(k: int, n: int, q: int, r: int)
    requires
        n > 0,
        0 <= r < n,
    ensures
        k == q * n + r <==> (k / n == q && k % n == r),
{
    if k == q * n + r {
        vstd::arithmetic::div_mod::lemma_fundamental_div_mod_converse(k, n, q, r);
    }
    if k / n == q && k % n == r {
        vstd::arithmetic::div_mod::lemma_fundamental_div_mod(k, n);
        assert(n * q == q * n) by (nonlinear_arith);
    }
}

/// Appending a coefficient `x` to `p` adds `x`, signed, to the partial sums
/// of the one residue that the new power belongs to, once they reach it.
proof fn lemma_fold_partial_push(
    p: Seq<int>,
    x: int,
    n: int,
    r: int,
    alternating: bool,
    m: nat,
)
    requires
        n > 0,
        0 <= r < n,
    ensures
        fold_partial(p.push(x), n, r, alternating, m) == fold_partial(p, n, r, alternating, m) + (
        if p.len() as int % n == r && p.len() as int / n < m {
            wrap_sign(p.len() as int / n, alternating) * x
        } else {
            0
        }),
    decreases m,
{
    if m > 0 {
        let q = m - 1;
        let k = q * n + r;
        lemma_fold_partial_push(p, x, n, r, alternating, q as nat);
        lemma_power_split(p.len() as int, n, q, r);
        if 0 <= k < p.len() {
            assert(p.push(x)[k] == p[k]);
        }
    }
}

/// Partial sums stay as they are once the wraps have left `p` behind.
proof fn lemma_fold_partial_stable(
    p: Seq<int>,
    n: int,
    r: int,
    alternating: bool,
    m1: nat,
    m2: nat,
)
    requires
        n > 0,
        0 <= r,
        m1 <= m2,
        m1 * n + r >= p.len(),
    ensures
        fold_partial(p, n, r, alternating, m2) == fold_partial(p, n, r, alternating, m1),
    decreases m2,
{
    if m2 > m1 {
        lemma_fold_partial_stable(p, n, r, alternating, m1, (m2 - 1) as nat);
        assert((m2 - 1) * n >= m1 * n) by (nonlinear_arith)
            requires
                m2 - 1 >= m1,
                n > 0,
        ;
    }
}

/// Appending a coefficient `x` to `p` changes the reduction of `p` at one
/// residue only: that of the new power, which gains `x` with the sign of the
/// new power's wraps.
pub proof fn lemma_fold_push(p: Seq<int>, x: int, n: nat, alternating: bool)
    requires
        n > 0,
    ensures
        fold(p.push(x), n, alternating) == fold(p, n, alternating).update(
            p.len() as int % n as int,
            fold(p, n, alternating)[p.len() as int % n as int] + wrap_sign(
                p.len() as int / n as int,
                alternating,
            ) * x,
        ),
{
    let len = p.len();
    let ni = n as int;
    let before = fold(p, n, alternating);
    let after = fold(p.push(x), n, alternating);
    let j = len as int % ni;
    let expected = before.update(j, before[j] + wrap_sign(len as int / ni, alternating) * x);
    assert(0 <= j < ni);
    assert(0 <= len as int / ni <= len) by (nonlinear_arith)
        requires
            ni > 0,
            len >= 0,
    ;
    assert forall|r: int| 0 <= r < n implies after[r] == expected[r] by {
        lemma_fold_partial_push(p, x, ni, r, alternating, (len + 1) as nat);
        assert(len * ni + r >= len) by (nonlinear_arith)
            requires
                ni > 0,
                len >= 0,
                r >= 0,
        ;
        lemma_fold_partial_stable(p, ni, r, alternating, len, (len + 1) as nat);
    }
    assert(after =~= expected);
}

/// The reduction of the polynomial without coefficients is zero everywhere.
pub proof fn lemma_fold_empty(n: nat, alternating: bool)
    ensures
        fold(Seq::<int>::empty(), n, alternating) == Seq::new(n, |r: int| 0int),
{
    assert(fold(Seq::<int>::empty(), n, alternating) =~= Seq::new(n, |r: int| 0int));
}

/// Replacing one entry changes the sum by the difference of the two values.
proof fn lemma_total_update(s: Seq<int>, j: int, v: int)
    requires
        0 <= j < s.len(),
    ensures
        total(s.update(j, v)) == total(s) - s[j] + v,
    decreases s.len(),
{
    if j == s.len() - 1 {
        assert(s.update(j, v).drop_last() =~= s.drop_last());
    } else {
        lemma_total_update(s.drop_last(), j, v);
        assert(s.update(j, v).drop_last() =~= s.drop_last().update(j, v));
    }
}

/// Zeros add up to zero.
proof fn lemma_total_zeros(n: nat)
    ensures
        total(Seq::new(n, |r: int| 0int)) == 0,
    decreases n,
{
    if n > 0 {
        lemma_total_zeros((n - 1) as nat);
        assert(Seq::new(n, |r: int| 0int).drop_last() =~= Seq::new(
            (n - 1) as nat,
            |r: int| 0int,
        ));
    }
}

/// Reducing modulo `x^n - 1` moves coefficients without changing a sign, so
/// it keeps their sum.
pub proof fn lemma_cyclic_fold_total(p: Seq<int>, n: nat)
    requires
        n > 0,
    ensures
        total(cyclic_fold(p, n)) == total(p),
    decreases p.len(),
{
    if p.len() == 0 {
        assert(p =~= Seq::<int>::empty());
        lemma_fold_empty(n, false);
        lemma_total_zeros(n);
    } else {
        let head = p.drop_last();
        let j = head.len() as int % n as int;
        assert(p =~= head.push(p.last()));
        lemma_cyclic_fold_total(head, n);
        lemma_fold_push(head, p.last(), n, false);
        lemma_total_update(fold(head, n, false), j, fold(head, n, false)[j] + 1 * p.last());
    }
}

/// The coefficients of the cyclic convolution of `a` and `b` add up to the
/// same sum as the coefficients of their unreduced product.
pub proof fn lemma_cyclic_product_total(a: Seq<int>, b: Seq<int>)
    ensures
        total(cyclic_product(a, b)) == total(product(a, b)),
{
    let n = ring_len(a.len(), b.len());
    if n > 0 {
        lemma_cyclic_fold_total(product(a, b), n);
    } else {
        assert(cyclic_product(a, b) =~= product(a, b));
    }
}

/// Wrapping each entry changes the sum by a multiple of 2^32 only.
pub proof fn lemma_total_wrapped(s: Seq<int>)
    ensures
        congruent(total(wrap_all(s)), total(s)),
    decreases s.len(),
{
    if s.len() > 0 {
        lemma_total_wrapped(s.drop_last());
        assert(wrap_all(s).drop_last() =~= wrap_all(s.drop_last()));
        assert(wrap_all(s).last() == wrap(s.last()));
    }
}

/// The wrapped coefficients of the cyclic convolution of `a` and `b` add up
/// to the same sum as the wrapped coefficients of their product, up to a
/// multiple of 2^32. The two sums are equal exactly where wrapping the
/// residues of the wrapped product does not change their sum, and so
/// wherever all those residues are representable.
pub proof fn lemma_cyclic_convolution_total(a: Seq<int>, b: Seq<int>)
    ensures
        congruent(total(wrap_all(cyclic_product(a, b))), total(wrap_all(product(a, b)))),
        total(wrap_all(cyclic_product(a, b))) == total(wrap_all(product(a, b))) <==> total(
            wrap_all(cyclic_fold(wrap_all(product(a, b)), ring_len(a.len(), b.len()))),
        ) == total(cyclic_fold(wrap_all(product(a, b)), ring_len(a.len(), b.len()))),
        all_fit(cyclic_fold(wrap_all(product(a, b)), ring_len(a.len(), b.len()))) ==> total(
            wrap_all(cyclic_product(a, b)),
        ) == total(wrap_all(product(a, b))),
{
    let n = ring_len(a.len(), b.len());
    let exact = product(a, b);
    let wrapped = wrap_all(exact);
    lemma_cyclic_product_total(a, b);
    lemma_total_wrapped(cyclic_product(a, b));
    lemma_total_wrapped(exact);
    lemma_fold_wrapped(exact, n, false);
    if n > 0 {
        lemma_cyclic_fold_total(wrapped, n);
    } else {
        assert(cyclic_fold(wrapped, n) =~= wrapped);
    }
    if all_fit(cyclic_fold(wrapped, n)) {
        lemma_wrap_all_exact(cyclic_fold(wrapped, n));
    }
}

/// Where `p` has at most `2 * n` coefficients no power wraps twice: residue
/// `r` receives the coefficient at power `r` and, signed by one wrap, the
/// coefficient at power `r + n`, as far as `p` has them.
pub proof fn lemma_fold_wraps_once(p: Seq<int>, n: nat, r: int, alternating: bool)
    requires
        n > 0,
        0 <= r < n,
        p.len() <= 2 * n,
    ensures
        fold(p, n, alternating)[r] == (if r < p.len() {
            p[r]
        } else {
            0
        }) + (if r + n < p.len() {
            wrap_sign(1, alternating) * p[r + n]
        } else {
            0
        }),
{
    let ni = n as int;
    assert(fold_partial(p, ni, r, alternating, 2) == fold_term(p, ni, r, alternating, 0)
        + fold_term(p, ni, r, alternating, 1)) by {
        reveal_with_fuel(fold_partial, 3);
    }
    assert(0 * ni + r == r && 1 * ni + r == r + n);
    if p.len() >= 2 {
        lemma_fold_partial_stable(p, ni, r, alternating, 2, p.len());
    } else {
        assert(p.len() * ni >= p.len()) by (nonlinear_arith)
            requires
                ni > 0,
                p.len() >= 0,
        ;
        lemma_fold_partial_stable(p, ni, r, alternating, p.len(), 2);
    }
}

/// Operands of one length `n` have a product of `2 * n - 1` coefficients, so
/// each residue is reached by at most two powers, `r` and `r + n`: the cyclic
/// convolution adds the two coefficients, and the negacyclic one subtracts
/// the second from the first. The last residue, `n - 1`, is reached by its
/// own power only. The same holds of the wrapped convolutions and the wrapped
/// product, with the sum or difference wrapped.
pub proof fn lemma_equal_lengths_wrap_once(a: Seq<int>, b: Seq<int>, r: int)
    requires
        a.len() == b.len(),
        0 <= r < a.len(),
    ensures
        cyclic_product(a, b)[r] == product(a, b)[r] + (if r + 1 < a.len() {
            product(a, b)[r + a.len()]
        } else {
            0
        }),
        negacyclic_product(a, b)[r] == product(a, b)[r] - (if r + 1 < a.len() {
            product(a, b)[r + a.len()]
        } else {
            0
        }),
        wrap_all(cyclic_product(a, b))[r] == wrap(
            wrap_all(product(a, b))[r] + (if r + 1 < a.len() {
                wrap_all(product(a, b))[r + a.len()]
            } else {
                0
            }),
        ),
        wrap_all(negacyclic_product(a, b))[r] == wrap(
            wrap_all(product(a, b))[r] - (if r + 1 < a.len() {
                wrap_all(product(a, b))[r + a.len()]
            } else {
                0
            }),
        ),
{
    let n = a.len();
    let wrapped = wrap_all(product(a, b));
    lemma_fold_wraps_once(product(a, b), n, r, false);
    lemma_fold_wraps_once(product(a, b), n, r, true);
    lemma_fold_wraps_once(wrapped, n, r, false);
    lemma_fold_wraps_once(wrapped, n, r, true);
    lemma_fold_wrapped(product(a, b), n, false);
    lemma_fold_wrapped(product(a, b), n, true);
    assert(wrap_all(fold(wrapped, n, false))[r] == wrap(fold(wrapped, n, false)[r]));
    assert(wrap_all(fold(wrapped, n, true))[r] == wrap(fold(wrapped, n, true)[r]));
}

/// Partial sums over wrapped coefficients are congruent to those over the
/// coefficients themselves.
proof fn lemma_fold_partial_wrapped(p: Seq<int>, n: int, r: int, alternating: bool, m: nat)
    ensures
        congruent(
            fold_partial(wrap_all(p), n, r, alternating, m),
            fold_partial(p, n, r, alternating, m),
        ),
    decreases m,
{
    if m > 0 {
        lemma_fold_partial_wrapped(p, n, r, alternating, (m - 1) as nat);
        let k = (m - 1) * n + r;
        let wrapped_term = fold_term(wrap_all(p), n, r, alternating, m - 1);
        let term = fold_term(p, n, r, alternating, m - 1);
        assert(congruent(wrapped_term, term)) by {
            if 0 <= k < p.len() {
                assert(wrap_all(p)[k] == wrap(p[k]));
                if wrap_sign(m - 1, alternating) == 1 {
                    assert(wrapped_term == wrap(p[k]) && term == p[k]);
                } else {
                    assert(wrapped_term == -wrap(p[k]) && term == -p[k]);
                }
            }
        }
    }
}

/// Reducing wrapped coefficients and wrapping the outcome gives what
/// reducing the coefficients themselves and wrapping the outcome gives: a
/// product may be wrapped before it is folded.
pub proof fn lemma_fold_wrapped(p: Seq<int>, n: nat, alternating: bool)
    ensures
        wrap_all(fold(wrap_all(p), n, alternating)) == wrap_all(fold(p, n, alternating)),
{
    assert forall|r: int| 0 <= r < n implies wrap(fold(wrap_all(p), n, alternating)[r]) == wrap(
        fold(p, n, alternating)[r],
    ) by {
        lemma_fold_partial_wrapped(p, n as int, r, alternating, p.len());
        lemma_wrap_congruent(fold(wrap_all(p), n, alternating)[r], fold(p, n, alternating)[r]);
    }
    assert(wrap_all(fold(wrap_all(p), n, alternating)) =~= wrap_all(fold(p, n, alternating)));
}

} // verus!
