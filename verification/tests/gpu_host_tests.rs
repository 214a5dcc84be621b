use zoda_rs::bignum::BigNat;
use zoda_rs::ff::F;
use zoda_rs::field::babybear::BabyBear;
use zoda_rs::metal::dispatch::{
    batched_fft_passes, bitrev_launch, butterfly_launch, shared_fft_launch, transform_log_size, Pass,
    Twiddles,
};
use zoda_rs::metal::metal::{bitreverse_permute, cpu_ifft, mod_pow, precompute_twiddles};
use zoda_rs::metal::metal_long::{
    biguint_to_limbs, compute_montgomery_params, f_to_limbs, find_root_of_unity, from_montgomery, inverse_root,
    limbs_to_f, modinv64, precompute_all_twiddles_2d, precompute_all_twiddles_flat, precompute_stage_twiddles, to_montgomery,
};
use zoda_rs::ntt::cuda::{launch_plan, PinnedSquare};

fn small(x: &BigNat) -> u64 {
    let d = x.digits();
    assert!(d.iter().skip(2).all(|&v| v == 0));
    d.first().copied().unwrap_or(0) as u64 | ((d.get(1).copied().unwrap_or(0) as u64) << 32)
}

#[test]
fn mod_pow_values() {
    assert_eq!(mod_pow(3, 4, 7), 4);
    assert_eq!(mod_pow(3, 0, 7), 1);
    assert_eq!(mod_pow(2, 10, 1000), 24);
}

#[test]
fn twiddles_for_eight_points_mod_257() {
    let t = precompute_twiddles(8, 257);
    assert_eq!(t, vec![1, 64, 241, 4, 256, 193, 16, 253]);
}

#[test]
fn cpu_ifft_recovers_coefficients() {
    // evaluations of 7 + 3x + 5x^2 at the powers of 3^32 mod 257
    let evals = vec![15, 119, 211, 99, 9, 249, 50, 75];
    let coeffs = cpu_ifft(evals, 8, 257);
    assert_eq!(coeffs, vec![7, 3, 5, 0, 0, 0, 0, 0]);
}

#[test]
fn bitreverse_permute_eight() {
    let mut v: Vec<u32> = (0..8).collect();
    bitreverse_permute(&mut v);
    assert_eq!(v, vec![0, 4, 2, 6, 1, 5, 3, 7]);
}

#[test]
fn modinv64_of_odd_values() {
    for a in [1u64, 3, 257, 0xffff_ffff_ffff_fff1] {
        let r = modinv64(a);
        assert_eq!(a.wrapping_mul(r), 1);
    }
    // an even value has no inverse; the six steps still give a value
    assert_eq!(modinv64(0), 64);
    assert_eq!(modinv64(2), 0);
}

#[test]
fn limbs_of_a_two_limb_value() {
    let x = BigNat::from_digits(vec![5, 0, 1]);
    assert_eq!(biguint_to_limbs(&x), [5, 1, 0, 0]);
    let f = F { value: x, modulus: BigNat::from_u64(1_000_000) };
    assert_eq!(f_to_limbs(&f), [5, 1, 0, 0]);
}

#[test]
fn limbs_to_element_and_back() {
    let modulus = BigNat::from_digits(vec![0, 0, 0, 0, 0, 0, 0, 0, 1]);
    let limbs = [7u64, 0, 2, 9];
    let f = limbs_to_f(&limbs, modulus);
    assert_eq!(f_to_limbs(&f), limbs);
    let g = limbs_to_f(&[300, 0, 0, 0], BigNat::from_u64(257));
    assert_eq!(small(&g.value), 43);
}

#[test]
fn montgomery_constants_mod_257() {
    let m = BigNat::from_u64(257);
    let (nprime, r2) = compute_montgomery_params(&m);
    assert_eq!(nprime, 71777214294589695);
    assert_eq!(257u64.wrapping_mul(nprime), u64::MAX);
    assert_eq!(small(&r2), 1);
    let x = BigNat::from_u64(13);
    let mont = to_montgomery(&x, &m, &r2);
    assert_eq!(small(&mont), 13);
    let back = from_montgomery(&mont, &m, nprime);
    assert_eq!(small(&back), 13);
}

#[test]
fn root_of_unity_of_order_four_mod_17() {
    let r = find_root_of_unity(4, &BigNat::from_u64(17));
    assert_eq!(small(&r), 13);
}

#[test]
fn all_stage_twiddles_mod_17() {
    let m = BigNat::from_u64(17);
    let root = BigNat::from_u64(13);
    let r2 = BigNat::from_u64(1);
    let flat = precompute_all_twiddles_flat(4, m.clone(), &root, &r2);
    assert_eq!(flat, vec![[1, 0, 0, 0], [1, 0, 0, 0], [13, 0, 0, 0]]);
    let stages = precompute_stage_twiddles(4, m.clone(), &root, &r2);
    assert_eq!(stages, vec![vec![[1, 0, 0, 0]], vec![[1, 0, 0, 0], [13, 0, 0, 0]]]);
    let batched = precompute_all_twiddles_2d(4, 2, m, &root, &r2);
    assert_eq!(batched.len(), 6);
    assert_eq!(&batched[0..3], &flat[..]);
    assert_eq!(&batched[3..6], &flat[..]);
}

#[test]
fn dispatch_sizes() {
    assert_eq!(shared_fft_launch(1000, 3), (12, 256));
    assert_eq!(shared_fft_launch(100, 2), (2, 100));
    assert_eq!(bitrev_launch(8, 3), (24, 128));
    assert_eq!(butterfly_launch(16, 2, 1), (16, 16));
    assert_eq!(butterfly_launch(1024, 4, 0), (2048, 64));
    assert_eq!(transform_log_size(8), 3);
    assert_eq!(transform_log_size(0), 32);
    assert_eq!(transform_log_size(12), 2);
}

#[test]
fn batched_passes_in_order() {
    let passes = batched_fft_passes(512, 2);
    assert_eq!(
        passes,
        vec![
            Pass::SharedFft { twiddles: Twiddles::Forward, groups: 4, width: 256 },
            Pass::Bitrev { threads: 1024, width: 128 },
            Pass::SharedFft { twiddles: Twiddles::Inverse, groups: 4, width: 256 },
            Pass::Bitrev { threads: 1024, width: 128 },
        ]
    );
}

#[test]
fn pinned_square_layout() {
    let mut sq = PinnedSquare::new(3, 2).unwrap();
    assert_eq!(sq.rows(), 3);
    assert_eq!(sq.cols(), 2);
    sq.set(2, 1, BabyBear::new(9));
    sq.set(0, 0, BabyBear::new(4));
    assert_eq!(sq.get(2, 1), BabyBear::new(9));
    assert_eq!(sq.as_slice(), &[4, 0, 0, 0, 0, 9]);
    assert_eq!(&sq[..], &[4, 0, 0, 0, 0, 9]);
    assert_eq!(sq[5], 9);
    sq.set_raw(1, 7);
    assert_eq!(sq.get(1, 0), BabyBear::new(7));
    assert_eq!(sq.column(1), &[0, 0, 9]);
    assert_eq!(sq.row(2), vec![BabyBear::new(0), BabyBear::new(9)]);
}

#[test]
fn launch_plan_roots_and_polynomials() {
    let (roots, polys) = launch_plan(64, 4, 16);
    assert_eq!(polys, 4);
    assert_eq!(roots.len(), 4);
    assert_eq!(roots[0], 1);
    let p = 2013265921u64;
    let w = roots[1] as u64;
    assert_eq!(w * w % p * w % p * w % p, 1);
    assert_ne!(w * w % p, 1);
}

#[test]
fn inverse_root_mod_17() {
    let inv = inverse_root(&BigNat::from_u64(13), &BigNat::from_u64(17));
    assert_eq!(small(&inv), 4);
}

#[test]
fn cpu_ifft_recovers_coefficients_at_256_points() {
    // evaluations of 7 + 3x + 5x^2 at the 256 powers of 3 mod 257, the
    // twiddles of a 256-point transform
    let t = precompute_twiddles(256, 257);
    let evals: Vec<u32> = t
        .iter()
        .map(|&x| {
            let x = x as u64;
            ((7 + 3 * x + 5 * x * x) % 257) as u32
        })
        .collect();
    let coeffs = cpu_ifft(evals, 256, 257);
    assert_eq!(coeffs[0], 7);
    assert_eq!(coeffs[1], 3);
    assert_eq!(coeffs[2], 5);
    assert!(coeffs[3..].iter().all(|&c| c == 0));
}

#[test]
fn empty_rows_and_columns() {
    let sq = PinnedSquare::new(0, 3).unwrap();
    assert!(sq.column(5).is_empty());
    let sq = PinnedSquare::new(4, 0).unwrap();
    assert!(sq.row(9).is_empty());
}
