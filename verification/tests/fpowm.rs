use num_bigint::{BigUint, RandBigInt};
use rug_gmpmee::fpowm::{
    cache_base_modulus, cache_fpown, cache_init_precomp, is_cache_initialized, FPowmCache,
    FPowmTable, FPownError,
};
use rug_gmpmee::natural::{eq_nat, from_bytes, from_u64};
use rug_gmpmee::GmpMEEError;

const P_3072: &str = "CE9E0307D2AE75BDBEEC3E0A6E71A279417B56C955C602FFFD067586BACFDAC3BCC49A49EB4D126F5E9255E57C14F3E09492B6496EC8AC1366FC4BB7F678573FA2767E6547FA727FC0E631AA6F155195C035AF7273F31DFAE1166D1805C8522E95F9AF9CE33239BF3B68111141C20026673A6C8B9AD5FA8372ED716799FE05C0BB6EAF9FCA1590BD9644DBEFAA77BA01FD1C0D4F2D53BAAE965B1786EC55961A8E2D3E4FE8505914A408D50E6B99B71CDA78D8F9AF1A662512F8C4C3A9E72AC72D40AE5D4A0E6571135CBBAAE08C7A2AA0892F664549FA7EEC81BA912743F3E584AC2B2092243C4A17EC98DF079D8EECB8B885E6BBAFA452AAFA8CB8C08024EFF28DE4AF4AC710DCD3D66FD88212101BCB412BCA775F94A2DCE18B1A6452D4CF818B6D099D4505E0040C57AE1F3E84F2F8E07A69C0024C05ACE05666A6B63B0695904478487E78CD0704C14461F24636D7A3F267A654EEDCF8789C7F627C72B4CBD54EED6531C0E54E325D6F09CB648AE9185A7BDA6553E40B125C78E5EAA867";

#[test]
fn test_init() {
    let res = FPowmTable::init(&from_u64(11), 16, 16);
    assert!(res.is_ok());
}

#[test]
fn test_init_precomp() {
    let res = FPowmTable::init_precomp(&from_u64(8), &from_u64(11), 16, 16);
    assert!(res.is_ok());
}

#[test]
fn test_precomp() {
    let mut res = FPowmTable::init(&from_u64(11), 16, 16).unwrap();
    res.precomp(&from_u64(8));
}

#[test]
fn test_fpown() {
    let p = from_u64(13);
    let b = from_u64(7);
    let e = from_u64(4);
    let tab = FPowmTable::init_precomp(&b, &p, 16, 16).unwrap();
    let res = tab.fpowm(&e);
    let expected = BigUint::from(7u64).modpow(&BigUint::from(4u64), &BigUint::from(13u64));
    assert!(eq_nat(&res, &from_bytes(&expected.to_bytes_le())));
    assert!(eq_nat(&res, &from_u64(9)));
}

#[test]
fn test_fpown_big() {
    let pb = BigUint::parse_bytes(P_3072.as_bytes(), 16).unwrap();
    let p = from_bytes(&pb.to_bytes_le());
    let mut rand = rand::thread_rng();
    let bb = rand.gen_biguint(2048);
    let eb = rand.gen_biguint(1024);
    let b = from_bytes(&bb.to_bytes_le());
    let e = from_bytes(&eb.to_bytes_le());
    let tab = FPowmTable::init_precomp(&b, &p, 16, 16).unwrap();
    let res = tab.fpowm(&e);
    let expected = bb.modpow(&eb, &pb);
    assert!(eq_nat(&res, &from_bytes(&expected.to_bytes_le())));
}

#[test]
fn test_fpowm_rebase() {
    let m = from_u64(1009);
    let mut tab = FPowmTable::init_precomp(&from_u64(3), &m, 4, 16).unwrap();
    let e = from_u64(777);
    let r1 = tab.fpowm(&e);
    let o1 = BigUint::from(3u64).modpow(&BigUint::from(777u64), &BigUint::from(1009u64));
    assert!(eq_nat(&r1, &from_bytes(&o1.to_bytes_le())));
    let w_before = tab.block_width;
    let l_before = tab.exponent_bitlen;
    tab.precomp(&from_u64(7));
    assert_eq!(tab.block_width, w_before);
    assert_eq!(tab.exponent_bitlen, l_before);
    let r2 = tab.fpowm(&e);
    let o2 = BigUint::from(7u64).modpow(&BigUint::from(777u64), &BigUint::from(1009u64));
    assert!(eq_nat(&r2, &from_bytes(&o2.to_bytes_le())));
}

#[test]
fn test_fpowm_oversized_exponent() {
    let m = from_u64(1009);
    let tab = FPowmTable::init_precomp(&from_u64(5), &m, 3, 8).unwrap();
    let e = from_u64((1u64 << 40) + 123);
    let res = tab.fpowm(&e);
    let expected = BigUint::from(5u64).modpow(
        &BigUint::from((1u64 << 40) + 123u64),
        &BigUint::from(1009u64),
    );
    assert!(eq_nat(&res, &from_bytes(&expected.to_bytes_le())));
}

#[test]
fn test_init_bad_width() {
    let res = FPowmTable::init(&from_u64(11), 32, 16);
    assert_eq!(
        res.unwrap_err(),
        GmpMEEError::FPowmParameters(FPownError::ExponentCast { value: 32 })
    );
}

#[test]
fn test_cache_scenario() {
    let mut cache = FPowmCache::new();
    assert!(!is_cache_initialized(&cache));
    assert!(cache_base_modulus(&cache).is_none());
    assert!(cache_fpown(&cache, &from_u64(4)).is_none());
    let first = cache_init_precomp(&mut cache, &from_u64(7), &from_u64(13), 16, 16);
    assert!(first.is_ok());
    assert!(first.unwrap());
    assert!(is_cache_initialized(&cache));
    let (b, m) = cache_base_modulus(&cache).unwrap();
    assert!(eq_nat(&b, &from_u64(7)));
    assert!(eq_nat(&m, &from_u64(13)));
    let r = cache_fpown(&cache, &from_u64(4)).unwrap();
    assert!(eq_nat(&r, &from_u64(9)));
    let second = cache_init_precomp(&mut cache, &from_u64(5), &from_u64(11), 8, 8);
    assert!(second.is_ok());
    assert!(!second.unwrap());
    let (b2, m2) = cache_base_modulus(&cache).unwrap();
    assert!(eq_nat(&b2, &from_u64(7)));
    assert!(eq_nat(&m2, &from_u64(13)));
}

#[test]
fn test_cache_bad_parameters() {
    let mut cache = FPowmCache::new();
    let res = cache_init_precomp(&mut cache, &from_u64(7), &from_u64(13), 40, 16);
    assert_eq!(
        res.unwrap_err(),
        GmpMEEError::FPowmParameters(FPownError::ExponentCast { value: 40 })
    );
    assert!(!is_cache_initialized(&cache));
}
