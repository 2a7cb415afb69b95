use polyconv::Polynomial;

fn poly(coefficients: &[i32]) -> Polynomial {
    Polynomial::new(coefficients.to_vec())
}

/// The convolution sum, computed term by term in 64 bits.
fn coefficient_sum(a: &[i32], b: &[i32], k: usize) -> i64 {
    let mut sum: i64 = 0;
    for i in 0..a.len() {
        if k >= i && k - i < b.len() {
            sum += (a[i] as i64) * (b[k - i] as i64);
        }
    }
    sum
}

#[test]
fn test_polynomial_multiplication() {
    let g = Polynomial::new(vec![1, 2, 3, 4]);
    let h = Polynomial::new(vec![5, 6, 7, 8]);
    let y = g.multiply(&h);
    assert_eq!(y.coefficients, vec![5, 16, 34, 60, 61, 52, 32]);
}

#[test]
fn test_cyclic_convolution() {
    let g = Polynomial::new(vec![1, 2, 3, 4]);
    let h = Polynomial::new(vec![5, 6, 7, 8]);
    let pwc = g.cyclic_convolution(&h);
    assert_eq!(pwc.coefficients, vec![66, 68, 66, 60]);
}

#[test]
fn test_negacyclic_convolution() {
    let g = Polynomial::new(vec![1, 2, 3, 4]);
    let h = Polynomial::new(vec![5, 6, 7, 8]);
    let nwc = g.negacyclic_convolution(&h);

    // Y(x) = 5 + 16x + 34x^2 + 60x^3 + 61x^4 + 52x^5 + 32x^6 and x^4 = -1:
    // x^0: 5 - 61, x^1: 16 - 52, x^2: 34 - 32, x^3: 60.
    assert_eq!(nwc.coefficients, vec![-56, -36, 2, 60]);
}

#[test]
fn new_keeps_the_coefficients_unchanged() {
    let p = Polynomial::new(vec![7, 0, -3]);
    assert_eq!(p.coefficients, vec![7, 0, -3]);
    assert_eq!(Polynomial::new(Vec::new()).coefficients, Vec::<i32>::new());
}

#[test]
fn clone_has_the_same_coefficients() {
    let p = poly(&[4, -1, 0, 9]);
    assert_eq!(p.clone().coefficients, p.coefficients);
}

#[test]
fn multiply_has_length_n1_plus_n2_minus_1() {
    assert_eq!(poly(&[1]).multiply(&poly(&[1])).coefficients.len(), 1);
    assert_eq!(poly(&[1, 2, 3]).multiply(&poly(&[4, 5])).coefficients.len(), 4);
    assert_eq!(poly(&[1, 2]).multiply(&poly(&[1, 2, 3, 4, 5])).coefficients.len(), 6);
}

#[test]
fn multiply_coefficients_are_the_convolution_sums() {
    let a = [3, -2, 0, 7, 1];
    let b = [-4, 5, 6];
    let y = poly(&a).multiply(&poly(&b));
    assert_eq!(y.coefficients, vec![-12, 23, 8, -40, 31, 47, 6]);
    for k in 0..y.coefficients.len() {
        assert_eq!(y.coefficients[k] as i64, coefficient_sum(&a, &b, k));
    }
}

#[test]
fn multiply_by_a_constant_scales() {
    assert_eq!(poly(&[1, -2, 3]).multiply(&poly(&[5])).coefficients, vec![5, -10, 15]);
    assert_eq!(poly(&[5]).multiply(&poly(&[1, -2, 3])).coefficients, vec![5, -10, 15]);
}

#[test]
fn multiply_is_commutative() {
    let a = poly(&[3, -2, 0, 7, 1]);
    let b = poly(&[-4, 5, 6]);
    assert_eq!(a.multiply(&b).coefficients, b.multiply(&a).coefficients);
    let g = poly(&[1, 2, 3, 4]);
    let h = poly(&[5, 6, 7, 8]);
    assert_eq!(g.multiply(&h).coefficients, h.multiply(&g).coefficients);
}

#[test]
fn multiply_with_an_empty_operand_is_empty() {
    let none = poly(&[]);
    let some = poly(&[1, 2, 3]);
    assert_eq!(none.multiply(&some).coefficients, Vec::<i32>::new());
    assert_eq!(some.multiply(&none).coefficients, Vec::<i32>::new());
    assert_eq!(none.multiply(&none).coefficients, Vec::<i32>::new());
}

#[test]
fn multiply_wraps_in_twos_complement() {
    assert_eq!(poly(&[65536]).multiply(&poly(&[65536])).coefficients, vec![0]);
    assert_eq!(poly(&[i32::MAX]).multiply(&poly(&[2])).coefficients, vec![-2]);
    assert_eq!(poly(&[i32::MIN]).multiply(&poly(&[-1])).coefficients, vec![i32::MIN]);
    // 2^30 + 2^30 leaves the range at power 1 only.
    assert_eq!(
        poly(&[1 << 30, 1 << 30]).multiply(&poly(&[1, 1])).coefficients,
        vec![1 << 30, i32::MIN, 1 << 30]
    );
}

#[test]
fn multiply_is_exact_where_partial_sums_leave_the_range() {
    // Power 1 is 2^30 * 2 - 2^30 = 2^30: the first pair alone, 2^31, is out
    // of range, the sum is not.
    let y = poly(&[1 << 30, -(1 << 30)]).multiply(&poly(&[1, 2]));
    assert_eq!(y.coefficients, vec![1 << 30, 1 << 30, i32::MIN]);
}

#[test]
fn cyclic_convolution_folds_onto_the_longer_length() {
    // Product 1 + 3x + 5x^2 + 3x^3, n = 3: x^3 = 1.
    let c = poly(&[1, 2, 3]).cyclic_convolution(&poly(&[1, 1]));
    assert_eq!(c.coefficients, vec![4, 3, 5]);
    let c = poly(&[1, 1]).cyclic_convolution(&poly(&[1, 2, 3]));
    assert_eq!(c.coefficients, vec![4, 3, 5]);
}

#[test]
fn negacyclic_convolution_folds_onto_the_longer_length() {
    // Product 1 + 3x + 5x^2 + 3x^3, n = 3: x^3 = -1.
    let c = poly(&[1, 2, 3]).negacyclic_convolution(&poly(&[1, 1]));
    assert_eq!(c.coefficients, vec![-2, 3, 5]);
    let c = poly(&[1, 1]).negacyclic_convolution(&poly(&[1, 2, 3]));
    assert_eq!(c.coefficients, vec![-2, 3, 5]);
}

#[test]
fn convolutions_of_constants_are_their_product() {
    assert_eq!(poly(&[6]).cyclic_convolution(&poly(&[7])).coefficients, vec![42]);
    assert_eq!(poly(&[6]).negacyclic_convolution(&poly(&[7])).coefficients, vec![42]);
}

#[test]
fn convolutions_without_wrapping_powers_are_the_product() {
    // Product 3 + 6x + 9x^2 has no power at or above n = 3.
    assert_eq!(poly(&[1, 2, 3]).cyclic_convolution(&poly(&[3])).coefficients, vec![3, 6, 9]);
    assert_eq!(poly(&[1, 2, 3]).negacyclic_convolution(&poly(&[3])).coefficients, vec![3, 6, 9]);
}

#[test]
fn cyclic_convolution_keeps_the_sum_of_coefficients() {
    let pairs: [(&[i32], &[i32]); 4] = [
        (&[1, 2, 3, 4], &[5, 6, 7, 8]),
        (&[3, -2, 0, 7, 1], &[-4, 5, 6]),
        (&[9], &[1, -1, 1, -1]),
        (&[-5, 5], &[2, 2]),
    ];
    for (a, b) in pairs {
        let full: i64 = poly(a).multiply(&poly(b)).coefficients.iter().map(|c| *c as i64).sum();
        let folded: i64 =
            poly(a).cyclic_convolution(&poly(b)).coefficients.iter().map(|c| *c as i64).sum();
        assert_eq!(folded, full);
    }
    let g = poly(&[1, 2, 3, 4]);
    let h = poly(&[5, 6, 7, 8]);
    assert_eq!(g.cyclic_convolution(&h).coefficients.iter().sum::<i32>(), 260);
    assert_eq!(g.multiply(&h).coefficients.iter().sum::<i32>(), 260);
}

#[test]
fn negacyclic_residues_are_the_alternating_sums() {
    let a = [3, -2, 0, 7, 1];
    let b = [-4, 5, 6, 2, -9];
    let n = 5;
    let full = poly(&a).multiply(&poly(&b)).coefficients;
    let folded = poly(&a).negacyclic_convolution(&poly(&b)).coefficients;
    assert_eq!(folded.len(), n);
    for r in 0..n {
        let mut expected: i64 = 0;
        let mut q = 0;
        while q * n + r < full.len() {
            let sign: i64 = if q % 2 == 0 { 1 } else { -1 };
            expected += sign * (full[q * n + r] as i64);
            q += 1;
        }
        assert_eq!(folded[r] as i64, expected);
    }
    assert_eq!(full, vec![-12, 23, 8, -34, 0, 65, 20, -61, -9]);
    assert_eq!(folded, vec![-77, 3, 69, -25, 0]);
}

#[test]
fn equal_lengths_hit_each_residue_at_most_twice() {
    let g = poly(&[1, 2, 3, 4]);
    let h = poly(&[5, 6, 7, 8]);
    let y = g.multiply(&h).coefficients;
    let pwc = g.cyclic_convolution(&h).coefficients;
    let nwc = g.negacyclic_convolution(&h).coefficients;
    assert_eq!(y.len(), 7);
    for r in 0..3 {
        assert_eq!(pwc[r], y[r] + y[r + 4]);
        assert_eq!(nwc[r], y[r] - y[r + 4]);
    }
    assert_eq!(pwc[3], y[3]);
    assert_eq!(nwc[3], y[3]);
}

#[test]
fn convolutions_with_an_empty_operand_are_zero() {
    let none = poly(&[]);
    let some = poly(&[1, 2, 3]);
    assert_eq!(none.cyclic_convolution(&some).coefficients, vec![0, 0, 0]);
    assert_eq!(some.cyclic_convolution(&none).coefficients, vec![0, 0, 0]);
    assert_eq!(none.negacyclic_convolution(&some).coefficients, vec![0, 0, 0]);
    assert_eq!(some.negacyclic_convolution(&none).coefficients, vec![0, 0, 0]);
    assert_eq!(none.cyclic_convolution(&none).coefficients, Vec::<i32>::new());
    assert_eq!(none.negacyclic_convolution(&none).coefficients, Vec::<i32>::new());
}

#[test]
fn convolutions_wrap_in_twos_complement() {
    // Product 2^30 + 2^31 x + 2^30 x^2, n = 2.
    let a = poly(&[1 << 30, 1 << 30]);
    let b = poly(&[1, 1]);
    assert_eq!(a.cyclic_convolution(&b).coefficients, vec![i32::MIN, i32::MIN]);
    assert_eq!(a.negacyclic_convolution(&b).coefficients, vec![0, i32::MIN]);
}

#[test]
fn cyclic_convolution_is_exact_where_only_the_product_leaves_the_range() {
    // Product 2^31 + 0 x - 2^31 x^2, n = 2: x^2 = 1 gives 0 + 0 x, though
    // 2^31 itself is out of range and stands as -2^31 in the product.
    let a = poly(&[i32::MIN, i32::MIN]);
    let b = poly(&[-1, 1]);
    assert_eq!(a.multiply(&b).coefficients, vec![i32::MIN, 0, i32::MIN]);
    assert_eq!(a.cyclic_convolution(&b).coefficients, vec![0, 0]);
}

#[test]
fn cyclic_convolution_of_unequal_lengths() {
    let a = poly(&[3, -2, 0, 7, 1]);
    let b = poly(&[-4, 5, 6]);
    assert_eq!(a.cyclic_convolution(&b).coefficients, vec![35, 29, 8, -40, 31]);
    assert_eq!(a.negacyclic_convolution(&b).coefficients, vec![-59, 17, 8, -40, 31]);
}

#[test]
fn operands_are_left_unchanged() {
    let g = poly(&[1, 2, 3, 4]);
    let h = poly(&[5, 6, 7, 8]);
    let _ = g.multiply(&h);
    let _ = g.cyclic_convolution(&h);
    let _ = g.negacyclic_convolution(&h);
    assert_eq!(g.coefficients, vec![1, 2, 3, 4]);
    assert_eq!(h.coefficients, vec![5, 6, 7, 8]);
}
