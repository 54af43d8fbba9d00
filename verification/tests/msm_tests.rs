use ark_ec::AffineRepr;
use ark_ec::CurveGroup;
use ark_std::UniformRand;

use bucket_msm::bitmap::Bitmap;
use bucket_msm::collision_method_pippenger::{msm_slice, quick_msm, MSMRun};
use bucket_msm::curve::G1AffinePoint;
use bucket_msm::scalar::Scalar;
use bucket_msm::types::MsmError;

type G1Affine = ark_bls12_381::G1Affine;
type G1Projective = ark_bls12_381::G1Projective;
type Fr = ark_bls12_381::Fr;

const ZERO_G1: G1Projective = <G1Projective as ark_ec::AdditiveGroup>::ZERO;

fn run_for(points: Vec<G1Affine>, scalars: Vec<Scalar>, window_bits: u32) -> MSMRun {
    MSMRun {
        points: points.into_iter().map(|p| G1AffinePoint { p }).collect(),
        scalars,
        window_bits,
        max_batch: 16,
        max_collisions: 4,
    }
}

#[test]
fn test_bitmap() {
    let mut bitmap = Bitmap::new(1);
    println!("{:?}", bitmap);
    let a = bitmap.test_and_set(2);
    println!("{a}");
    println!("{:?}", bitmap);
}

#[test]
fn test_bitmap_test_and_set_and_clear() {
    let mut bitmap = Bitmap::new(100);
    assert_eq!(bitmap.test_and_set(37), false);
    assert_eq!(bitmap.test_and_set(37), true);
    assert_eq!(bitmap.test_and_set(37), true);
    assert_eq!(bitmap.test_and_set(38), false);
    bitmap.clear();
    assert_eq!(bitmap.test_and_set(37), false);
    assert_eq!(bitmap.test_and_set(37), true);
}

#[test]
fn test_msm_slice_window_size_1() {
    let scalar = Scalar::from_u64(0b101);
    let mut slices: Vec<u32> = vec![0; 3];
    msm_slice(scalar, &mut slices, 1).unwrap();
    assert_eq!(slices.iter().eq([1, 0, 1].iter()), true);
}

#[test]
fn test_msm_slice_window_size_2() {
    let scalar = Scalar::from_u64(0b000110);
    let mut slices: Vec<u32> = vec![0; 3];
    msm_slice(scalar, &mut slices, 2).unwrap();
    assert_eq!(slices.iter().eq([2, 1, 0].iter()), true);
}

#[test]
fn test_msm_slice_window_size_3() {
    let scalar = Scalar::from_u64(0b010111000);
    let mut slices: Vec<u32> = vec![0; 3];
    msm_slice(scalar, &mut slices, 3).unwrap();
    assert_eq!(slices.iter().eq([0, 0x80000001, 3].iter()), true);
}

#[test]
fn test_msm_slice_window_size_16() {
    let scalar = Scalar::from_u64(0x123400007FFF);
    let mut slices: Vec<u32> = vec![0; 3];
    msm_slice(scalar, &mut slices, 16).unwrap();
    assert_eq!(slices.iter().eq([0x7FFF, 0, 0x1234].iter()), true);
}

#[test]
fn test_msm_slice_rejects_bad_window_width() {
    let scalar = Scalar::from_u64(5);
    let mut slices: Vec<u32> = vec![0; 3];
    assert_eq!(msm_slice(scalar, &mut slices, 0), Err(MsmError::ConfigurationError));
    assert_eq!(msm_slice(scalar, &mut slices, 32), Err(MsmError::ConfigurationError));
}

#[test]
fn test_msm_slice_rejects_scalar_one_bit_too_wide() {
    // three 16-bit windows carry 48 bits; a 49-bit scalar must be refused
    let scalar = Scalar::from_u64(1u64 << 48);
    let mut slices: Vec<u32> = vec![0; 3];
    assert_eq!(msm_slice(scalar, &mut slices, 16), Err(MsmError::ConfigurationError));
}

#[test]
fn test_msm_slice_rejects_terminal_carry() {
    // all windows saturated: the signed re-encoding ends with carry 1
    let scalar = Scalar::from_u64(0xFFFF_FFFF_FFFF);
    let mut slices: Vec<u32> = vec![0; 3];
    assert_eq!(msm_slice(scalar, &mut slices, 16), Err(MsmError::ConfigurationError));
}

#[test]
fn test_msm_slice_decodes_back() {
    let value: u64 = 0x0123_4567_89AB_CDEF;
    for w in [1u32, 3, 8, 13, 16] {
        let n = (64 + w - 1) / w + 1;
        let mut slices: Vec<u32> = vec![0; n as usize];
        msm_slice(Scalar::from_u64(value), &mut slices, w).unwrap();
        let mut decoded: i128 = 0;
        for (i, d) in slices.iter().enumerate() {
            let mag = (d & 0x7FFF_FFFF) as i128;
            let sign = if d & 0x8000_0000 != 0 { -1i128 } else { 1i128 };
            decoded += sign * mag * (1i128 << (i as u32 * w));
        }
        assert_eq!(decoded, value as i128, "window width {w}");
    }
}

#[test]
fn test_run_empty_returns_identity() {
    let run = run_for(vec![], vec![], 8);
    let r = quick_msm(&run).unwrap();
    assert_eq!(r.p, ZERO_G1);
}

#[test]
fn test_run_zero_scalar_returns_identity() {
    let g = G1Affine::generator();
    let run = run_for(vec![g], vec![Scalar::from_u64(0)], 8);
    let r = quick_msm(&run).unwrap();
    assert_eq!(r.p, ZERO_G1);
}

#[test]
fn test_run_one_scalar_returns_point() {
    let g = G1Affine::generator();
    let run = run_for(vec![g], vec![Scalar::from_u64(1)], 8);
    let r = quick_msm(&run).unwrap();
    assert_eq!(r.p, G1Projective::from(g));
}

#[test]
fn test_run_small_combination() {
    let g = G1Affine::generator();
    let h = (G1Projective::from(g) + G1Projective::from(g)).into_affine();
    let run = run_for(
        vec![g, h],
        vec![Scalar::from_u64(3), Scalar::from_u64(5)],
        4,
    );
    let r = quick_msm(&run).unwrap();
    let expected = g * Fr::from(3u64) + h * Fr::from(5u64);
    assert_eq!(r.p, expected);
}

#[test]
fn test_run_length_mismatch() {
    let g = G1Affine::generator();
    let run = run_for(vec![g], vec![], 8);
    assert!(matches!(quick_msm(&run), Err(MsmError::LengthMismatchError)));
}

#[test]
fn test_run_bad_window_width() {
    let g = G1Affine::generator();
    let run = run_for(vec![g], vec![Scalar::from_u64(1)], 32);
    assert!(matches!(quick_msm(&run), Err(MsmError::ConfigurationError)));
}

#[test]
fn test_batching_does_not_change_result() {
    let mut rng = ark_std::test_rng();
    let points: Vec<G1Affine> = (0..24).map(|_| G1Projective::rand(&mut rng).into_affine()).collect();
    let scalars: Vec<Scalar> = (0..24)
        .map(|_| Scalar { limbs: ark_ff::PrimeField::into_bigint(Fr::rand(&mut rng)).0 })
        .collect();
    let mut results = Vec::new();
    for (max_batch, max_collisions) in [(1u32, 1u32), (2, 1), (4, 2), (16, 4), (1000, 1000)] {
        let run = MSMRun {
            points: points.iter().map(|p| G1AffinePoint { p: *p }).collect(),
            scalars: scalars.clone(),
            window_bits: 8,
            max_batch,
            max_collisions,
        };
        results.push(quick_msm(&run).unwrap().p);
    }
    for r in &results {
        assert_eq!(*r, results[0]);
    }
}

#[test]
fn test_cross_check_against_naive_double_and_add() {
    let mut rng = ark_std::test_rng();
    for window_bits in [4u32, 8, 13] {
        let n = 17;
        let points: Vec<G1Affine> = (0..n).map(|_| G1Projective::rand(&mut rng).into_affine()).collect();
        let frs: Vec<Fr> = (0..n).map(|_| Fr::rand(&mut rng)).collect();
        let scalars: Vec<Scalar> = frs
            .iter()
            .map(|f| Scalar { limbs: ark_ff::PrimeField::into_bigint(*f).0 })
            .collect();
        let run = MSMRun {
            points: points.iter().map(|p| G1AffinePoint { p: *p }).collect(),
            scalars,
            window_bits,
            max_batch: 64,
            max_collisions: 8,
        };
        let r = quick_msm(&run).unwrap();
        let mut naive = ZERO_G1;
        for (p, f) in points.iter().zip(frs.iter()) {
            naive += *p * *f;
        }
        assert_eq!(r.p, naive, "window width {window_bits}");
    }
}
