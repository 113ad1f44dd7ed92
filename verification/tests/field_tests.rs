use qrap::field::{AwsF1Prover, F1Accelerator, Fe256, MockHost};

#[test]
fn test_fe_add_mod() {
    let a = Fe256 { d: [1, 0, 0, 0] };
    let b = Fe256 { d: [2, 0, 0, 0] };
    let c = Fe256::add_mod(&a, &b);
    assert_eq!(c.d[0], 3);
}

#[test]
fn test_fe_sub_mod() {
    let a = Fe256 { d: [5, 0, 0, 0] };
    let b = Fe256 { d: [3, 0, 0, 0] };
    let c = Fe256::sub_mod(&a, &b);
    assert_eq!(c.d[0], 2);
}

#[test]
fn test_fe_mont_mul_by_one() {
    let one = Fe256 { d: [1, 0, 0, 0] };
    let r = Fe256::mont_mul(&one, &one);
    assert!(!r.is_zero());
}

#[test]
fn test_mock_host_init() {
    let host = F1Accelerator::new();
    assert!(host.init("dummy.xclbin").is_ok());
}

#[test]
fn test_mock_fe_mul_batch() {
    let host = F1Accelerator::new();
    let a = vec![Fe256 { d: [2, 0, 0, 0] }; 4];
    let b = vec![Fe256 { d: [3, 0, 0, 0] }; 4];
    let c = host.fe_mul_batch(&a, &b);
    assert_eq!(c.len(), 4);
}

use qrap::field::{ec_add_mixed, AffinePoint, ProjPoint};

const P: [u64; 4] = [0x3c208c16d87cfd47, 0x97816a916871ca8d, 0xb85045b68181585d, 0x30644e72e131a029];

#[test]
fn add_and_sub_wrap_around_the_modulus() {
    let p_minus_1 = Fe256 { d: [P[0] - 1, P[1], P[2], P[3]] };
    let two = Fe256 { d: [2, 0, 0, 0] };
    assert_eq!(Fe256::add_mod(&p_minus_1, &two).d, [1, 0, 0, 0]);
    let zero = Fe256 { d: [0, 0, 0, 0] };
    let one = Fe256 { d: [1, 0, 0, 0] };
    assert_eq!(Fe256::sub_mod(&zero, &one).d, p_minus_1.d);
    let (sum, carry) = Fe256::add_raw(&Fe256 { d: [u64::MAX; 4] }, &one);
    assert!(carry);
    assert_eq!(sum.d, [0, 0, 0, 0]);
    let (diff, borrow) = Fe256::sub_raw(&zero, &one);
    assert!(borrow);
    assert_eq!(diff.d, [u64::MAX; 4]);
}

#[test]
fn wide_products() {
    assert_eq!(Fe256::mul128(u64::MAX, u64::MAX), (u64::MAX - 1, 1));
    let a = Fe256 { d: [u64::MAX, 0, 0, 0] };
    let t = Fe256::mul_raw(&a, &a);
    assert_eq!(t, [1, u64::MAX - 1, 0, 0, 0, 0, 0, 0]);
}

#[test]
fn montgomery_products() {
    let one = Fe256 { d: [1, 0, 0, 0] };
    assert_eq!(
        Fe256::mont_mul(&one, &one).d,
        [0xed84884a014afa37, 0xeb2022850278edf8, 0xcf63e9cfb74492d9, 0x2e67157159e5c639]
    );
    // reduced inputs on which a reduction row carries past the product's
    // top limb: the carry is kept and the result is a * b / 2^256 mod p
    let a = Fe256 { d: [0xdad1b36a1d85d74d, 0x13358bf18dbfa616, 0x735865a3a3d2ac99, 0x192ea8aa054a6c55] };
    let b = Fe256 { d: [0x9098fd12c5a289c9, 0xd1dc6842a266da50, 0xd259543ed0730f8d, 0x1b6b16336093dacc] };
    assert_eq!(
        Fe256::mont_mul(&a, &b).d,
        [0x1fc1f8189a917af1, 0x6d59027acb76192e, 0x7d4d771a420f2ce0, 0x0e93237b606dd23a]
    );
    let two = Fe256 { d: [2, 0, 0, 0] };
    let three = Fe256 { d: [3, 0, 0, 0] };
    assert_eq!(
        Fe256::mont_mul(&two, &three).d,
        [0x64787549cd50eae7, 0x8d39ba47049c9f13, 0x42c61e4dc414b747, 0x2474f869b56a848a]
    );
}

#[test]
fn montgomery_product_of_unreduced_inputs() {
    let max = Fe256 { d: [u64::MAX; 4] };
    assert_eq!(
        Fe256::mont_mul(&max, &max).d,
        [0xb163fc3328cdfcee, 0x539eb7f39a07236b, 0x1713a41935c33a7c, 0xfe02c6fe78b42610]
    );
}

#[test]
fn raw_carries_and_borrows_propagate_through_full_limbs() {
    let a = Fe256 { d: [1, 0, 0, 0] };
    let b = Fe256 { d: [u64::MAX, u64::MAX, 0, 0] };
    let (sum, carry) = Fe256::add_raw(&a, &b);
    assert!(!carry);
    assert_eq!(sum.d, [0, 0, 1, 0]);
    let (sum2, carry2) = Fe256::add_raw(&b, &a);
    assert!(!carry2);
    assert_eq!(sum2.d, [0, 0, 1, 0]);

    let c = Fe256 { d: [0, 0, 1, 0] };
    let d = Fe256 { d: [1, u64::MAX, 0, 0] };
    let (diff, borrow) = Fe256::sub_raw(&c, &d);
    assert!(!borrow);
    assert_eq!(diff.d, [u64::MAX, 0, 0, 0]);
    let (back, borrow2) = Fe256::sub_raw(&d, &c);
    assert!(borrow2);
    assert_eq!(back.d, [1, u64::MAX, u64::MAX, u64::MAX]);
}

#[test]
fn modular_operations_on_reduced_inputs_with_full_limbs() {
    let a = Fe256 { d: [1, 0, 0, 0] };
    let b = Fe256 { d: [u64::MAX, u64::MAX, 0, 0] };
    assert_eq!(Fe256::add_mod(&a, &b).d, [0, 0, 1, 0]);
    assert_eq!(Fe256::add_mod(&b, &a).d, [0, 0, 1, 0]);
    let c = Fe256 { d: [0, 0, 1, 0] };
    let d = Fe256 { d: [1, u64::MAX, 0, 0] };
    assert_eq!(Fe256::sub_mod(&c, &d).d, [u64::MAX, 0, 0, 0]);
    assert_eq!(Fe256::add_mod(&Fe256::sub_mod(&c, &d), &d).d, c.d);
}

#[test]
fn msm_starts_from_first_nonzero_scalar() {
    let host = MockHost::default();
    let p1 = AffinePoint { x: Fe256 { d: [1, 0, 0, 0] }, y: Fe256 { d: [2, 0, 0, 0] } };
    let p2 = AffinePoint { x: Fe256 { d: [3, 0, 0, 0] }, y: Fe256 { d: [4, 0, 0, 0] } };
    let zero = Fe256::default();
    let one = Fe256 { d: [1, 0, 0, 0] };
    assert_eq!(host.msm(&[p1, p2], &[zero, zero]), ProjPoint::default());
    let r = host.msm(&[p1, p2], &[zero, one]);
    assert_eq!(r, ProjPoint { x: p2.x, y: p2.y, z: one });
    let r = host.msm(&[p1, p2], &[one, one]);
    assert_eq!(r, ProjPoint { x: p1.x, y: p1.y, z: one });
    let mut acc = ProjPoint::default();
    ec_add_mixed(&mut acc, &p2);
    assert_eq!(acc.z, one);
    let before = acc;
    ec_add_mixed(&mut acc, &p1);
    assert_eq!(acc, before);
    let mut data = vec![one; 2];
    host.ntt(&mut data, &[one], 1);
    assert_eq!(data, vec![one; 2]);
}

#[test]
fn f1_prover_placeholder() {
    let prover = AwsF1Prover::new();
    assert!(prover.init("image.xclbin").is_ok());
    assert_eq!(prover.prove(b"circuit", b"witness"), vec![0u8; 32]);
    let host = MockHost::new();
    let a = vec![Fe256 { d: [2, 0, 0, 0] }; 3];
    let b = vec![Fe256 { d: [3, 0, 0, 0] }; 2];
    let accel = F1Accelerator::default();
    assert_eq!(accel.fe_mul_batch(&a, &b), host.fe_mul_batch(&a, &b));
    assert_eq!(accel.fe_mul_batch(&a, &b).len(), 2);
}
