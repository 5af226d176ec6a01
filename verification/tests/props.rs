use num_bigint::BigUint;
use rug_gmpmee::fpowm::FPowmTable;
use rug_gmpmee::modpow::pow_mod;
use rug_gmpmee::natural::{eq_nat, from_bytes, from_u64, to_bytes, to_u64};
use rug_gmpmee::spown::spowm;
use rug_gmpmee::{usize_to_size_t_type, GmpMEEError};

#[test]
fn test_usize_to_size_t_ok() {
    assert_eq!(usize_to_size_t_type(0), Ok(0i64));
    assert_eq!(usize_to_size_t_type(123_456), Ok(123_456i64));
    assert_eq!(
        usize_to_size_t_type(i64::MAX as usize),
        Ok(i64::MAX)
    );
}

#[test]
fn test_usize_to_size_t_overflow() {
    assert_eq!(
        usize_to_size_t_type(usize::MAX),
        Err(GmpMEEError::Cast { value: usize::MAX })
    );
}

#[test]
fn test_from_bytes_trims() {
    let n = from_bytes(&vec![1u8, 0, 0, 0]);
    assert!(eq_nat(&n, &from_u64(1)));
    assert_eq!(to_bytes(&n).len(), 1);
    let z = from_bytes(&vec![0u8, 0, 0]);
    assert!(eq_nat(&z, &from_u64(0)));
    assert_eq!(to_bytes(&z).len(), 0);
}

#[test]
fn test_natural_u64_round_trip() {
    for &x in &[0u64, 1, 255, 256, 65_535, 0xdead_beef, u64::MAX] {
        assert_eq!(to_u64(&from_u64(x)), Some(x));
    }
    let big = BigUint::parse_bytes(b"10000000000000000", 16).unwrap();
    assert_eq!(to_u64(&from_bytes(&big.to_bytes_le())), None);
}

#[test]
fn test_pow_mod_oracle() {
    let cases: [(u64, u64, u64); 7] = [
        (2, 4, 13),
        (7, 0, 13),
        (0, 0, 7),
        (0, 5, 7),
        (29, 3, 13),
        (123_456_789, 987_654_321, 1_000_000_007),
        (1, 1, 2),
    ];
    for &(b, e, m) in cases.iter() {
        let r = pow_mod(&from_u64(b), &from_u64(e), &from_u64(m));
        let expected = BigUint::from(b).modpow(&BigUint::from(e), &BigUint::from(m));
        assert!(eq_nat(&r, &from_bytes(&expected.to_bytes_le())));
    }
}

#[test]
fn test_spowm_matches_single_powers() {
    let bases_u = [2u64, 1000, 0, 13, 999_999_937];
    let exponents_u = [100u64, 0, 17, 13, 2];
    let m = 999_999_937u64;
    let bases: Vec<_> = bases_u.iter().map(|&b| from_u64(b)).collect();
    let exponents: Vec<_> = exponents_u.iter().map(|&e| from_u64(e)).collect();
    let res = spowm(&bases, &exponents, &from_u64(m)).unwrap();
    let mb = BigUint::from(m);
    let mut expected = BigUint::from(1u64);
    for (&b, &e) in bases_u.iter().zip(exponents_u.iter()) {
        expected = (expected * BigUint::from(b).modpow(&BigUint::from(e), &mb)) % &mb;
    }
    assert!(eq_nat(&res, &from_bytes(&expected.to_bytes_le())));
}

#[test]
fn test_fpowm_matches_pow_mod() {
    let m = 1009u64;
    let b = 7u64;
    let tab = FPowmTable::init_precomp(&from_u64(b), &from_u64(m), 4, 8).unwrap();
    let mb = BigUint::from(m);
    for e in 0u64..=300 {
        let r = tab.fpowm(&from_u64(e));
        let expected = BigUint::from(b).modpow(&BigUint::from(e), &mb);
        assert!(eq_nat(&r, &from_bytes(&expected.to_bytes_le())));
    }
}

#[test]
fn test_spowm_bases_above_modulus() {
    let bases = vec![from_u64(1000), from_u64(77)];
    let exponents = vec![from_u64(5), from_u64(11)];
    let m = 13u64;
    let res = spowm(&bases, &exponents, &from_u64(m)).unwrap();
    let mb = BigUint::from(m);
    let expected = (BigUint::from(1000u64).modpow(&BigUint::from(5u64), &mb)
        * BigUint::from(77u64).modpow(&BigUint::from(11u64), &mb))
        % &mb;
    assert!(eq_nat(&res, &from_bytes(&expected.to_bytes_le())));
}
