use lib::certificate::{
    assert_prime_certificate,
    central_pair,
    forbidden,
    four_prime_certificate,
    seed_certificate,
    Certificate,
    CertificateError,
};
use lib::primes::sieve;

#[test]
fn forbidden_values() {
    assert!(forbidden(5, 5, 0, 0));
    assert!(forbidden(5, 1, 2, 5));
    assert!(!forbidden(5, 1, 2, 3));
}

#[test]
fn central_pair_takes_the_smallest_odd_candidate() {
    let table = sieve(660);
    assert_eq!(central_pair(&table, 800, 300, 600, 0, 0, 0), Some((313, 487)));
    assert_eq!(central_pair(&table, 60, 20, 40, 0, 0, 0), Some((23, 37)));
}

#[test]
fn central_pair_skips_excluded_values() {
    let table = sieve(660);
    assert_eq!(central_pair(&table, 60, 20, 40, 23, 0, 0), Some((29, 31)));
    assert_eq!(central_pair(&table, 60, 20, 40, 23, 29, 0), None);
}

#[test]
fn central_pair_outside_the_window() {
    let table = sieve(660);
    assert_eq!(central_pair(&table, 10, 300, 600, 0, 0, 0), None);
}

#[test]
fn four_prime_certificates() {
    let table = sieve(660);
    assert_eq!(four_prime_certificate(&table, 1594, 300, 6, 0), Some([317, 479, 307, 491]));
    assert_eq!(four_prime_certificate(&table, 1288, 300, 6, 307), Some([313, 317, 311, 347]));
    assert_eq!(four_prime_certificate(&table, 1000, 300, 6, 0), None);
    assert_eq!(four_prime_certificate(&sieve(50), 120, 20, 4, 0), Some([23, 37, 29, 31]));
}

#[test]
fn seed_certificates_for_even_and_odd() {
    let table = sieve(660);
    assert_eq!(seed_certificate(&table, 1594, 300, 6, 307), Some(Certificate::Four([317, 479, 307, 491])));
    assert_eq!(
        seed_certificate(&table, 1595, 300, 6, 307),
        Some(Certificate::Five([307, 313, 317, 311, 347]))
    );
    assert_eq!(seed_certificate(&table, 1571, 300, 6, 307), None);
}

#[test]
fn seed_certificates_pass_the_check() {
    let table = sieve(660);
    for n in 1594..=1700usize {
        if let Some(cert) = seed_certificate(&table, n, 300, 6, 307) {
            assert_eq!(assert_prime_certificate(&cert, &table, n, 300), Ok(()), "n = {n}");
            assert_eq!(cert.values().iter().sum::<usize>(), n);
        }
    }
}

#[test]
fn certificate_values_and_json() {
    let cert = Certificate::Five([307, 313, 317, 311, 347]);
    assert_eq!(cert.values(), &[307, 313, 317, 311, 347]);
    assert_eq!(cert.to_json_array(), "[307, 313, 317, 311, 347]");
    assert_eq!(Certificate::Four([1, 2, 3, 4]).to_json_array(), "[1, 2, 3, 4]");
}

#[test]
fn certificate_with_a_repeated_prime() {
    let table = sieve(660);
    let cert = Certificate::Four([307, 311, 307, 313]);
    let err = assert_prime_certificate(&cert, &table, 1238, 300).unwrap_err();
    assert_eq!(err, CertificateError::RepeatedPrime { n: 1238, p: 307 });
    assert_eq!(err.message(), "certificate for 1238 repeats prime 307");
}

#[test]
fn certificate_with_a_composite() {
    let table = sieve(660);
    let cert = Certificate::Four([307, 309, 311, 313]);
    let err = assert_prime_certificate(&cert, &table, 1240, 300).unwrap_err();
    assert_eq!(err, CertificateError::NotPrime { n: 1240, p: 309 });
    assert_eq!(err.message(), "certificate for 1240 uses non-prime 309");
}

#[test]
fn certificate_outside_the_window() {
    let table = sieve(660);
    let cert = Certificate::Four([307, 311, 313, 601]);
    let err = assert_prime_certificate(&cert, &table, 1532, 300).unwrap_err();
    assert_eq!(err, CertificateError::OutsideWindow { n: 1532, p: 601, m: 300 });
    assert_eq!(err.message(), "certificate for 1532 uses 601 outside (300, 600)");
}

#[test]
fn certificate_with_the_wrong_sum() {
    let table = sieve(660);
    let cert = Certificate::Four([307, 311, 313, 317]);
    let err = assert_prime_certificate(&cert, &table, 1000, 300).unwrap_err();
    assert_eq!(err, CertificateError::WrongSum { n: 1000, total: 1248 });
    assert_eq!(err.message(), "certificate for 1000 sums to 1248");
}

#[test]
fn the_first_failed_check_is_reported() {
    let table = sieve(660);
    // 601 lies outside the window and comes before the composite 309.
    let cert = Certificate::Four([601, 309, 311, 313]);
    let err = assert_prime_certificate(&cert, &table, 1534, 300).unwrap_err();
    assert_eq!(err, CertificateError::OutsideWindow { n: 1534, p: 601, m: 300 });
}
