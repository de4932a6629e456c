use ark_bn254::{Fr, G1Projective};
use ark_ec::Group;
use ark_ff::{BigInt, FftField, Field, PrimeField};
use ec_gpu::{
    bitreverse, parallel_ec_fft, pow_vartime, serial_ec_fft, try_parallel_ec_fft, try_serial_ec_fft, EcError,
    Point, Scalar,
};

fn to_point(p: &G1Projective) -> Point {
    Point { x: p.x.into_bigint().0, y: p.y.into_bigint().0, z: p.z.into_bigint().0 }
}

fn from_point(p: &Point) -> G1Projective {
    let f = |l: [u64; 4]| ark_bn254::Fq::from_bigint(BigInt::new(l)).unwrap();
    G1Projective::new_unchecked(f(p.x), f(p.y), f(p.z))
}

fn to_scalar(s: &Fr) -> Scalar {
    Scalar { limbs: s.into_bigint().0 }
}

fn omega(log_n: u32) -> Fr {
    let mut omega = Fr::TWO_ADIC_ROOT_OF_UNITY;
    for _ in log_n..Fr::TWO_ADICITY {
        omega = omega.square();
    }
    omega
}

fn sample_points(n: usize, seed: u64) -> Vec<G1Projective> {
    let g = G1Projective::generator();
    (0..n as u64).map(|i| g * Fr::from(seed.wrapping_mul(7919).wrapping_add(i * i * 31 + i + 1))).collect()
}

fn naive_dft(a: &[G1Projective], w: Fr) -> Vec<G1Projective> {
    let n = a.len();
    (0..n)
        .map(|i| {
            let mut acc = G1Projective::default();
            for (j, p) in a.iter().enumerate() {
                acc += *p * w.pow([(i * j) as u64]);
            }
            acc
        })
        .collect()
}

fn run_serial(a: &[G1Projective], w: Fr, log_n: u32) -> Vec<G1Projective> {
    let mut v: Vec<Point> = a.iter().map(to_point).collect();
    serial_ec_fft(&mut v, &to_scalar(&w), log_n);
    v.iter().map(from_point).collect()
}

#[test]
fn parallel_ec_fft_consistency() {
    for round in 0..2u64 {
        for log_d in 0..10u32 {
            let d = 1usize << log_d;
            let coeffs = sample_points(d, round * 100 + log_d as u64);
            let w = omega(log_d);
            for log_threads in log_d..std::cmp::min(log_d + 1, 3) {
                let mut v1: Vec<Point> = coeffs.iter().map(to_point).collect();
                parallel_ec_fft(&mut v1, &to_scalar(&w), log_d, log_threads);
                let v2 = run_serial(&coeffs, w, log_d);
                let v1: Vec<G1Projective> = v1.iter().map(from_point).collect();
                assert!(v1 == v2);
            }
        }
    }
}

#[test]
fn parallel_matches_serial_for_every_split() {
    for log_d in 1..8u32 {
        let coeffs = sample_points(1 << log_d, 5);
        let w = omega(log_d);
        let serial = run_serial(&coeffs, w, log_d);
        for log_threads in 0..=log_d {
            let mut v: Vec<Point> = coeffs.iter().map(to_point).collect();
            parallel_ec_fft(&mut v, &to_scalar(&w), log_d, log_threads);
            let v: Vec<G1Projective> = v.iter().map(from_point).collect();
            assert!(v == serial, "log_d {} log_threads {}", log_d, log_threads);
        }
    }
}

#[test]
fn serial_matches_naive_dft() {
    for log_d in 0..7u32 {
        let coeffs = sample_points(1 << log_d, 11);
        let w = omega(log_d);
        assert!(run_serial(&coeffs, w, log_d) == naive_dft(&coeffs, w));
    }
}

#[test]
fn serial_two_points_is_sum_and_difference() {
    let coeffs = sample_points(2, 3);
    let out = run_serial(&coeffs, omega(1), 1);
    assert!(out[0] == coeffs[0] + coeffs[1]);
    assert!(out[1] == coeffs[0] - coeffs[1]);
    assert!(out[0] != coeffs[0]);
}

#[test]
fn serial_single_point_is_unchanged() {
    let coeffs = sample_points(1, 9);
    let mut v: Vec<Point> = coeffs.iter().map(to_point).collect();
    let before = v.clone();
    serial_ec_fft(&mut v, &to_scalar(&omega(0)), 0);
    assert_eq!(v, before);
}

#[test]
fn round_trip_scales_by_length() {
    for log_d in [0u32, 1, 4, 10] {
        let n = 1usize << log_d;
        let coeffs = sample_points(n, 21);
        let w = omega(log_d);
        let forward = run_serial(&coeffs, w, log_d);
        let back = run_serial(&forward, w.inverse().unwrap(), log_d);
        let scale = Fr::from(n as u64);
        for (b, c) in back.iter().zip(coeffs.iter()) {
            assert!(*b == *c * scale);
        }
    }
}

#[test]
fn curve_fft_consistency_sizes_one_to_ten() {
    for log_d in 1..=10u32 {
        let coeffs = sample_points(1 << log_d, 77);
        let w = omega(log_d);
        let serial = run_serial(&coeffs, w, log_d);
        let mut v: Vec<Point> = coeffs.iter().map(to_point).collect();
        parallel_ec_fft(&mut v, &to_scalar(&w), log_d, std::cmp::min(log_d, 3));
        let v: Vec<G1Projective> = v.iter().map(from_point).collect();
        let sa: Vec<_> = serial.iter().map(|p| ark_ec::CurveGroup::into_affine(*p)).collect();
        let pa: Vec<_> = v.iter().map(|p| ark_ec::CurveGroup::into_affine(*p)).collect();
        assert_eq!(sa, pa);
    }
}

#[test]
fn bitreverse_exact_values() {
    assert_eq!(bitreverse(1, 3), 4);
    assert_eq!(bitreverse(6, 3), 3);
    assert_eq!(bitreverse(0b1011, 4), 0b1101);
    assert_eq!(bitreverse(5, 0), 0);
    assert_eq!(bitreverse(0xFF, 4), 0xF);
    assert_eq!(bitreverse(1, 32), 0x8000_0000);
}

#[test]
fn bitreverse_twice_is_identity() {
    for l in 0..12u32 {
        for k in 0..(1u32 << l) {
            assert_eq!(bitreverse(bitreverse(k, l), l), k);
        }
    }
}

#[test]
fn pow_vartime_exact_values() {
    let three = Scalar::from_u64(3);
    assert_eq!(pow_vartime(&three, 5), Scalar::from_u64(243));
    assert_eq!(pow_vartime(&three, 0), Scalar::one());
    let w = Fr::from(123456789u64);
    for e in [1u64, 2, 63, 64, 1 << 40, u64::MAX] {
        assert_eq!(pow_vartime(&to_scalar(&w), e), to_scalar(&w.pow([e])));
    }
}

#[test]
fn error_messages() {
    assert_eq!(EcError::Simple("bad length").describe(), Some("bad length"));
    assert_eq!(EcError::Aborted.describe(), Some("GPU call was aborted!"));
    let e = EcError::Io(std::io::Error::new(std::io::ErrorKind::Other, "x"));
    assert_eq!(e.describe(), None);
}

#[test]
fn try_serial_rejects_wrong_length() {
    let coeffs = sample_points(3, 1);
    let mut v: Vec<Point> = coeffs.iter().map(to_point).collect();
    let before = v.clone();
    let r = try_serial_ec_fft(&mut v, &to_scalar(&omega(2)), 2);
    assert!(matches!(r, Err(EcError::Simple(_))));
    assert_eq!(v, before);
    let r = try_serial_ec_fft(&mut v, &to_scalar(&omega(2)), 40);
    assert!(matches!(r, Err(EcError::Simple(_))));
}

#[test]
fn try_serial_matches_serial() {
    let coeffs = sample_points(8, 2);
    let w = omega(3);
    let mut v: Vec<Point> = coeffs.iter().map(to_point).collect();
    assert!(try_serial_ec_fft(&mut v, &to_scalar(&w), 3).is_ok());
    let v: Vec<G1Projective> = v.iter().map(from_point).collect();
    assert!(v == run_serial(&coeffs, w, 3));
}

#[test]
fn try_parallel_rejects_too_many_parts() {
    let coeffs = sample_points(4, 4);
    let mut v: Vec<Point> = coeffs.iter().map(to_point).collect();
    let before = v.clone();
    let r = try_parallel_ec_fft(&mut v, &to_scalar(&omega(2)), 2, 3);
    assert!(matches!(r, Err(EcError::Simple(_))));
    assert_eq!(v, before);
    let r = try_parallel_ec_fft(&mut v, &to_scalar(&omega(3)), 3, 1);
    assert!(matches!(r, Err(EcError::Simple(_))));
    let r = try_parallel_ec_fft(&mut v, &to_scalar(&omega(2)), 2, 1);
    assert!(r.is_ok());
    let v: Vec<G1Projective> = v.iter().map(from_point).collect();
    assert!(v == run_serial(&coeffs, omega(2), 2));
}
