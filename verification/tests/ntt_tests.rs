use zoda_rs::babybear::BabyBear as Bb64;
use zoda_rs::field::babybear::{BabyBear, BABYBEAR_PRIME};
use zoda_rs::ntt::cpu::{intt, intt_babybear, ntt, ntt_babybear, roots_of_unity};
use zoda_rs::ntt_babybear;

const P: u32 = BABYBEAR_PRIME;

#[test]
fn roundtrip() {
    let prime = 257;
    let poly = vec![1, 3, 4, 5, 6, 7, 9, 10];
    let n = poly.len() as u32;
    let roots = roots_of_unity(n, prime);
    let ntt_out = ntt(poly.clone(), roots.clone(), prime);
    let intt_out = intt(ntt_out, roots, prime);
    assert_eq!(poly, intt_out);
}

#[test]
fn babybear_roundtrip() {
    for log_n in [0u32, 1, 4, 8, 12] {
        let n = 1usize << log_n;
        let original: Vec<BabyBear> = (0..n).map(|i| BabyBear::new((i * 7 + 3) as u64)).collect();
        let mut values = original.clone();
        ntt_babybear(&mut values);
        intt_babybear(&mut values);
        assert_eq!(original, values, "roundtrip failed for n={n}");
    }
}

#[test]
fn babybear_matches_naive_evaluation() {
    let n = 8usize;
    let roots = roots_of_unity(n as u32, P);
    let coeffs: Vec<BabyBear> = (0..n).map(|i| BabyBear::new((i * 13 + 5) as u64)).collect();
    let mut evals = coeffs.clone();
    ntt_babybear(&mut evals);
    for (k, root) in roots.iter().enumerate() {
        let x = BabyBear::new(*root as u64);
        let mut expected = BabyBear::zero();
        let mut xp = BabyBear::one();
        for c in &coeffs {
            expected = expected + *c * xp;
            xp = xp * x;
        }
        assert_eq!(evals[k], expected, "mismatch at evaluation point {k}");
    }
}

#[test]
fn test_ntt_intt_roundtrip() {
    let n = 256usize;
    let omega = Bb64::get_root_of_unity(n.trailing_zeros());

    let mut values: Vec<Bb64> = (0..n).map(|i| Bb64::new((i * 7 + 3) as u64)).collect();

    let original = values.clone();

    ntt_babybear::ntt(&mut values, omega);

    ntt_babybear::intt(&mut values, omega);

    for (a, b) in original.iter().zip(values.iter()) {
        assert_eq!(a.value, b.value, "NTT roundtrip failed");
    }
}

#[test]
fn test_polynomial_evaluation() {
    let n = 8usize;
    let omega = Bb64::get_root_of_unity(n.trailing_zeros());
    let domain = ntt_babybear::roots_of_unity_domain(n);

    let mut coeffs = vec![Bb64::zero(); n];
    coeffs[0] = Bb64::new(1);
    coeffs[1] = Bb64::new(2);
    coeffs[2] = Bb64::new(3);

    let mut evals = coeffs.clone();
    ntt_babybear::ntt(&mut evals, omega);

    assert_eq!(evals[0].value, 6);

    let x = domain[1];
    let expected = coeffs[0] + coeffs[1] * x + coeffs[2] * x * x;
    assert_eq!(evals[1].value, expected.value);
}

#[test]
fn test_roots_of_unity() {
    let n = 16usize;
    let domain = ntt_babybear::roots_of_unity_domain(n);

    assert_eq!(domain[0].value, 1);

    let omega = domain[1];
    let result = omega.pow(n as u64);
    assert_eq!(result.value, 1);

    for i in 0..n {
        for j in i + 1..n {
            assert_ne!(
                domain[i].value, domain[j].value,
                "domain[{}] = {} equals domain[{}] = {}",
                i, domain[i].value, j, domain[j].value
            );
        }
    }
}

#[test]
fn roots_of_unity_have_full_order_and_are_distinct() {
    let r = roots_of_unity(8, 17);
    assert_eq!(r[0], 1);
    assert_eq!((r[1] as u64).pow(4) % 17, 16);
    let mut sorted = r.clone();
    sorted.sort();
    sorted.dedup();
    assert_eq!(sorted.len(), 8);
}

#[test]
fn forward_transform_undoes_inverse() {
    let n = 16usize;
    let omega = Bb64::get_root_of_unity(4);
    let original: Vec<Bb64> = (0..n).map(|i| Bb64::new((i * i + 5) as u64)).collect();
    let mut values = original.clone();
    ntt_babybear::intt(&mut values, omega);
    ntt_babybear::ntt(&mut values, omega);
    assert_eq!(values, original);
}

#[test]
fn u32_forward_transform_undoes_inverse() {
    let roots = roots_of_unity(8, 17);
    let values: Vec<u32> = vec![3, 1, 4, 1, 5, 9, 2, 6];
    let back = ntt(intt(values.clone(), roots.clone(), 17), roots, 17);
    assert_eq!(back, values);
}
