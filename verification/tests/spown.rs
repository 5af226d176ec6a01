use num_bigint::BigUint;
use rug_gmpmee::natural::{eq_nat, from_bytes, from_u64};
use rug_gmpmee::spown::spowm;
use rug_gmpmee::GmpMEEError;

#[test]
fn test_1() {
    let bases = vec![from_u64(2)];
    let exponents = vec![from_u64(4)];
    let modulus = from_u64(13);
    let res = spowm(&bases, &exponents, &modulus).unwrap();
    assert!(eq_nat(&res, &from_u64(3)));
}

#[test]
fn test_2() {
    let bases = vec![from_u64(5), from_u64(7)];
    let exponents = vec![from_u64(3), from_u64(9)];
    let modulus = from_u64(13);
    let res = spowm(&bases, &exponents, &modulus).unwrap();
    assert!(eq_nat(&res, &from_u64(12)));
}

#[test]
fn test_5() {
    let bases_u = [5u64, 7, 8, 11, 12];
    let exponents_u = [3u64, 9, 4, 12, 2];
    let m = 13u64;
    let bases: Vec<_> = bases_u.iter().map(|&b| from_u64(b)).collect();
    let exponents: Vec<_> = exponents_u.iter().map(|&e| from_u64(e)).collect();
    let modulus = from_u64(m);
    let res = spowm(&bases, &exponents, &modulus).unwrap();
    let mb = BigUint::from(m);
    let mut expected = BigUint::from(1u64);
    for (&b, &e) in bases_u.iter().zip(exponents_u.iter()) {
        expected = (expected * BigUint::from(b).modpow(&BigUint::from(e), &mb)) % &mb;
    }
    assert!(eq_nat(&res, &from_bytes(&expected.to_bytes_le())));
}

#[test]
fn test_spowm_len_mismatch() {
    let bases = vec![from_u64(2), from_u64(3)];
    let exponents = vec![from_u64(4)];
    let modulus = from_u64(13);
    let res = spowm(&bases, &exponents, &modulus);
    assert_eq!(
        res.unwrap_err(),
        GmpMEEError::SPowmParameters { bases_len: 2, exponents_len: 1 }
    );
}

#[test]
fn test_spowm_empty() {
    let bases: Vec<rug_gmpmee::natural::Natural> = vec![];
    let exponents: Vec<rug_gmpmee::natural::Natural> = vec![];
    let modulus = from_u64(13);
    let res = spowm(&bases, &exponents, &modulus).unwrap();
    assert!(eq_nat(&res, &from_u64(1)));
}

#[test]
fn test_spowm_large_oracle() {
    let mb = BigUint::parse_bytes(
        b"CE9E0307D2AE75BDBEEC3E0A6E71A279417B56C955C602FFFD067586BACFDAC3",
        16,
    )
    .unwrap();
    let bu = [
        BigUint::parse_bytes(b"9D4505E0040C57AE1F3E84F2F8E07A69C0024C05ACE05666", 16).unwrap(),
        BigUint::parse_bytes(b"4CBD54EED6531C0E54E325D6F09CB648AE9185A7BDA6553E", 16).unwrap(),
    ];
    let eu = [
        BigUint::parse_bytes(b"B6EAF9FCA1590BD9644DBEFAA77BA01FD1C0D4F2D53BAAE9", 16).unwrap(),
        BigUint::parse_bytes(b"65B1786EC55961A8E2D3E4FE8505914A408D50E6B99B71CD", 16).unwrap(),
    ];
    let bases: Vec<_> = bu.iter().map(|b| from_bytes(&b.to_bytes_le())).collect();
    let exponents: Vec<_> = eu.iter().map(|e| from_bytes(&e.to_bytes_le())).collect();
    let modulus = from_bytes(&mb.to_bytes_le());
    let res = spowm(&bases, &exponents, &modulus).unwrap();
    let mut expected = BigUint::from(1u64);
    for (b, e) in bu.iter().zip(eu.iter()) {
        expected = (expected * b.modpow(e, &mb)) % &mb;
    }
    assert!(eq_nat(&res, &from_bytes(&expected.to_bytes_le())));
}
