use zoda_rs::bignum::BigNat;
use zoda_rs::ff::F;
use zoda_rs::ntt::residues::{fft, ifft, roots_of_unity_domain};
use zoda_rs::polynomial::Polynomial;

fn big(v: u64) -> BigNat {
    BigNat::from_u64(v)
}

fn elem(v: u64, modulus: &BigNat) -> F {
    F { value: big(v), modulus: modulus.clone() }
}

fn value_of(x: &F) -> u64 {
    let d = x.value.digits();
    let lo = d.first().copied().unwrap_or(0) as u64;
    let hi = d.get(1).copied().unwrap_or(0) as u64;
    assert!(d.iter().skip(2).all(|&x| x == 0));
    lo | (hi << 32)
}

#[test]
fn ff_test_negation() {
    let modulus = big(7);

    let zero = F::zero(modulus.clone());
    let neg_zero = -&zero;
    assert!(zero.equals(&neg_zero));

    let three = elem(3, &modulus);
    let neg_three = -&three;
    let expected = elem(4, &modulus);
    assert!(neg_three.equals(&expected));

    let sum = &three + &neg_three;
    assert!(sum.equals(&zero));
}

#[test]
fn test_fft_interpolation() {
    let modulus = big(257);
    let n = 256;

    let domain = roots_of_unity_domain(n, modulus.clone());

    let coeffs = vec![
        F::new(7, modulus.clone()),
        F::new(3, modulus.clone()),
        F::new(5, modulus.clone()),
    ];

    let mut evals = coeffs.clone();
    evals.resize(n, F::zero(modulus.clone()));

    let omega = domain[1].clone();

    fft(&mut evals, &omega);

    let mut recovered = evals.clone();
    ifft(&mut recovered, &omega);

    let recovered_trimmed: Vec<F> = recovered.into_iter().take(coeffs.len()).collect();

    for (a, b) in coeffs.iter().zip(recovered_trimmed.iter()) {
        assert!(a.equals(b), "coeff mismatch: {} vs {}", value_of(a), value_of(b));
    }
}

#[test]
fn test_poly_eval() {
    let field_modulus = big(10000);
    // 1 + 2x + 3x^2
    let f = Polynomial::new(
        vec![elem(1, &field_modulus), elem(2, &field_modulus), elem(3, &field_modulus)],
        field_modulus.clone(),
    );

    let eval = f.evaluate(&elem(10, &field_modulus));

    eval.assert_eq(&elem(321, &field_modulus));
}

#[test]
fn test_lagrange_interpolate() {
    let field_modulus = big(10000);
    let xs = vec![elem(23, &field_modulus)];
    let ys = vec![elem(23, &field_modulus)];
    let poly = Polynomial::interpolate(&xs, &ys);
    let eval = poly.evaluate(&elem(10, &field_modulus));

    eval.assert_eq(&elem(23, &field_modulus));
}

#[test]
fn field_ops_mod_7() {
    let m = big(7);
    let a = elem(3, &m);
    let b = elem(5, &m);
    assert_eq!(value_of(&a.add(&b)), 1);
    assert_eq!(value_of(&a.sub(&b)), 5);
    assert_eq!(value_of(&b.sub(&a)), 2);
    assert_eq!(value_of(&a.mul(&b)), 1);
    // 3 / 5 = 3 * 5^5 mod 7 = 2, and 2 * 5 = 3 mod 7
    let q = a.div(&b);
    assert_eq!(value_of(&q), 2);
    assert_eq!(value_of(&q.mul(&b)), 3);
    assert_eq!(value_of(&b.clone().pow(3)), 6);
    assert!(!a.equals(&b));
    assert!(!a.equals(&elem(3, &big(11))));
    // the operators, by reference and by value
    assert_eq!(value_of(&(&a + &b)), 1);
    assert_eq!(value_of(&(&a - &b)), 5);
    assert_eq!(value_of(&(&a * &b)), 1);
    assert_eq!(value_of(&(&a / &b)), 2);
    assert_eq!(value_of(&(-&a)), 4);
    assert_eq!(value_of(&(a.clone() + b.clone())), 1);
    assert_eq!(value_of(&(b.clone() - a.clone())), 2);
    assert_eq!(value_of(&(a.clone() * b.clone())), 1);
    assert_eq!(value_of(&(a.clone() / b.clone())), 2);
    assert_eq!(value_of(&(-b)), 2);
}

#[test]
fn field_new_reduces_and_assign_ops() {
    let m = big(257);
    assert_eq!(value_of(&F::new(300, m.clone())), 43);
    assert_eq!(value_of(&F::from_biguint(big(514), m.clone())), 0);
    let mut x = elem(200, &m);
    x += elem(100, &m);
    assert_eq!(value_of(&x), 43);
    x *= elem(2, &m);
    assert_eq!(value_of(&x), 86);
    x /= elem(2, &m);
    assert_eq!(value_of(&x), 43);
    x /= F::zero(m.clone());
    assert_eq!(value_of(&x), 0);
}

#[test]
fn field_to_bytes_value_then_modulus() {
    let f = F { value: big(258), modulus: big(7) };
    assert_eq!(f.to_bytes(), vec![1, 2, 7]);
    let z = F::zero(big(256));
    assert_eq!(z.to_bytes(), vec![0, 1, 0]);
}

#[test]
fn fft_of_four_points_mod_17() {
    let m = big(17);
    // 4 has order 4 mod 17; evaluations of 1 + 2x + 3x^2 + 4x^3 at 1, 4, 16, 13
    let mut v: Vec<F> = [1, 2, 3, 4].iter().map(|&x| elem(x, &m)).collect();
    let root = elem(4, &m);
    fft(&mut v, &root);
    let got: Vec<u64> = v.iter().map(value_of).collect();
    assert_eq!(got, vec![10, 7, 15, 6]);
    ifft(&mut v, &root);
    let back: Vec<u64> = v.iter().map(value_of).collect();
    assert_eq!(back, vec![1, 2, 3, 4]);
}

#[test]
fn roots_domain_mod_17() {
    let d = roots_of_unity_domain(4, big(17));
    let got: Vec<u64> = d.iter().map(value_of).collect();
    // the first generator of 17 is 3, and 3^(16/4) = 13
    assert_eq!(got, vec![1, 13, 16, 4]);
}

#[test]
fn polynomial_sum_product_and_scale() {
    let m = big(10);
    let p = Polynomial::new(vec![elem(1, &m), elem(2, &m), elem(0, &m)], m.clone());
    assert_eq!(p.coeffs.len(), 2);
    assert_eq!(p.degree(), 1);
    let q = Polynomial::from_coeffs(vec![elem(9, &m), elem(8, &m)]);
    // (1 + 2x) + (9 + 8x) = 0 + 0x mod 10: every coefficient cancels
    let s = Polynomial::new(p.coeffs.clone(), m.clone()) + Polynomial::new(q.coeffs.clone(), m.clone());
    assert_eq!(s.coeffs.len(), 0);
    // (1 + 2x)(9 + 8x) = 9 + 26x + 16x^2 = 9 + 6x + 6x^2 mod 10
    let prod = Polynomial::new(p.coeffs.clone(), m.clone()) * q;
    let got: Vec<u64> = prod.coeffs.iter().map(value_of).collect();
    assert_eq!(got, vec![9, 6, 6]);
    let scaled = prod.scale(elem(5, &m));
    let got: Vec<u64> = scaled.coeffs.iter().map(value_of).collect();
    assert_eq!(got, vec![5]);
    assert_eq!(Polynomial::zero(m.clone()).degree(), 0);
    assert_eq!(value_of(&Polynomial::zero(m.clone()).evaluate(&elem(3, &m))), 0);
}

#[test]
fn lagrange_through_three_points_mod_101() {
    let m = big(101);
    let xs: Vec<F> = [1, 2, 3].iter().map(|&x| elem(x, &m)).collect();
    let ys: Vec<F> = [5, 7, 20].iter().map(|&y| elem(y, &m)).collect();
    let poly = Polynomial::interpolate(&xs, &ys);
    assert!(poly.coeffs.len() <= 3);
    for (x, y) in xs.iter().zip(ys.iter()) {
        assert!(poly.evaluate(x).equals(y));
    }
}

#[test]
fn evaluation_of_sums_products_and_multiples() {
    let m = big(101);
    let a = || Polynomial::new(vec![elem(4, &m), elem(0, &m), elem(7, &m)], m.clone());
    let b = || Polynomial::new(vec![elem(100, &m), elem(3, &m)], m.clone());
    let x = elem(9, &m);
    let ea = value_of(&a().evaluate(&x));
    let eb = value_of(&b().evaluate(&x));
    assert_eq!(value_of(&a().add(b()).evaluate(&x)), (ea + eb) % 101);
    assert_eq!(value_of(&a().mul(b()).evaluate(&x)), (ea * eb) % 101);
    assert_eq!(value_of(&a().scale(elem(5, &m)).evaluate(&x)), (5 * ea) % 101);
}

#[test]
fn subtract_then_add_back() {
    let m = big(13);
    for a in 0..13u64 {
        for b in 0..13u64 {
            let d = elem(a, &m).sub(&elem(b, &m));
            assert_eq!(value_of(&d.add(&elem(b, &m))), a);
        }
    }
}

#[test]
fn domain_root_has_order_four_mod_17() {
    let d = roots_of_unity_domain(4, big(17));
    let w = d[1].clone();
    assert_eq!(value_of(&w.clone().pow(2)), 16);
    assert_eq!(value_of(&w.pow(4)), 1);
}
