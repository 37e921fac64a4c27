use cubing::util::{binomial, factorial, power};

#[test]
pub fn binomials() {
    assert_eq!(495, binomial(12, 4));
    assert_eq!(495, binomial(12, 8));
    assert_eq!(1, binomial(16, 0));
    assert_eq!(13, binomial(13, 1));
    assert_eq!(13, binomial(13, 12));
}

#[test]
pub fn factorials() {
    assert_eq!(1, factorial(0));
    assert_eq!(1, factorial(1));
    assert_eq!(40320, factorial(8));
}

#[test]
pub fn powers() {
    assert_eq!(65536, power(2, 16));
    assert_eq!(8, power(2, 3));
    assert_eq!(2187, power(3, 7));
}
