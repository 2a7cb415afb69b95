//! Two's-complement wrapping of mathematical integers into the `i32` range.

use vstd::prelude::*;
use vstd::wrapping::i32_specs;

verus! {

/// Whether `x` is representable as an `i32`.
pub open spec fn fits(x: int) -> bool {
    -0x8000_0000 <= x < 0x8000_0000
}

/// The `i32` value that stands for `x`: the one integer in the `i32` range
/// that differs from `x` by a multiple of 2^32.
pub open spec fn wrap(x: int) -> int {
    (x + 0x8000_0000) % 0x1_0000_0000 - 0x8000_0000
}

/// Whether `x` and `y` differ by a multiple of 2^32.
pub open spec fn congruent(x: int, y: int) -> bool {
    (x - y) % 0x1_0000_0000 == 0
}

/// Every entry of `s`, wrapped.
pub open spec fn wrap_all(s: Seq<int>) -> Seq<int> {
    Seq::new(s.len(), |i: int| wrap(s[i]))
}

/// Whether every entry of `s` is representable as an `i32`.
pub open spec fn all_fit(s: Seq<int>) -> bool {
    forall|i: int| 0 <= i < s.len() ==> fits(#[trigger] s[i])
}

/// Wrapping leaves a sequence of representable values as it is.
pub proof fn lemma_wrap_all_exact(s: Seq<int>)
    requires
        all_fit(s),
    ensures
        wrap_all(s) == s,
{
    assert(wrap_all(s) =~= s);
}

/// Two integers wrap to the same value exactly when they are congruent.
pub proof fn lemma_wrap_congruent(x: int, y: int)
    ensures
        congruent(x, y) <==> wrap(x) == wrap(y),
{
}

/// Wrapping commutes with addition and subtraction: intermediate results may
/// be wrapped at any point without changing the wrapped outcome.
pub proof fn lemma_wrap_add(x: int, y: int)
    ensures
        wrap(wrap(x) + wrap(y)) == wrap(x + y),
        wrap(wrap(x) - wrap(y)) == wrap(x - y),
{
}

/// What the wrapping machine operations compute, in terms of [`wrap`].
pub proof fn lemma_machine_ops(x: i32, y: i32)
    ensures
        i32_specs::wrapping_add(x, y) == wrap(x + y),
        i32_specs::wrapping_sub(x, y) == wrap(x - y),
        i32_specs::wrapping_mul(x, y) == wrap(x * y),
{
}

} // verus!
