use algo::sieve::PrimeBits;

#[test]
fn sieve_test() {
    let p = PrimeBits::new();
    assert_eq!(p.is_prime(199), Some(true));
    assert_eq!(p.is_prime(198), Some(false));
    assert_eq!(p.num_primes(), 6542);
    assert_eq!(p.extract(60, 8), 0b1000_0010);
    assert_eq!(p.extract(0, 64), p.word(0));
    assert_eq!(p.extract(64, 64), p.word(1));
}

#[test]
fn sieve_test2() {
    let p = PrimeBits::new();
    for i in 0..128 {
        for j in 1..=64 {
            println!("{:2},{:2} {:064b}", i, j, p.extract(i, j));
        }
    }
}

#[test]
fn sieve_edges() {
    let p = PrimeBits::new();
    assert_eq!(p.is_prime(0), Some(false));
    assert_eq!(p.is_prime(1), Some(false));
    assert_eq!(p.is_prime(2), Some(true));
    assert_eq!(p.is_prime(65521), Some(true));
    assert_eq!(p.is_prime(65535), Some(false));
    assert_eq!(p.is_prime(65536), None);
    // bits 2, 3, 5, 7 of the first byte
    assert_eq!(p.extract(0, 8), 0b1010_1100);
    // 61 is prime, 62 and 63 are not, 67 is prime: bits 61..68
    assert_eq!(p.extract(61, 7), 0b100_0001);
}
