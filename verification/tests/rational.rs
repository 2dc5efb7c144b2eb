use knipsa::rational::Rational;

#[test]
fn arithmetic_is_exact() {
    let third = Rational::from_i128(1, 3);
    let half = Rational::half();
    let sum = third.add(&half);
    assert!(sum.equals(&Rational::from_i128(5, 6)));
    let difference = third.sub(&half);
    assert!(difference.equals(&Rational::from_i128(-1, 6)));
    assert!(difference.is_negative());
    let product = third.mul(&half);
    assert!(product.equals(&Rational::from_i128(1, 6)));
    let quotient = third.div(&half);
    assert!(quotient.equals(&Rational::from_i128(2, 3)));
    let negated = third.neg();
    assert!(negated.equals(&Rational::from_i128(-1, 3)));
    assert!(Rational::from_i64(3).sub(&Rational::from_i64(3)).is_zero());
    assert!(Rational::one().is_positive());
}

#[test]
fn comparison_and_conversion() {
    let small = Rational::from_i128(-7, 2);
    let large = Rational::from_i64(4);
    assert_eq!(small.compare(&large), -1);
    assert_eq!(large.compare(&small), 1);
    assert_eq!(small.compare(&Rational::from_i128(-14, 4)), 0);
    assert!(small.lt(&large));
    assert!(small.le(&small));
    assert!(small.min(&large).equals(&small));
    assert!(small.max(&large).equals(&large));
    assert_eq!(Rational::from_i128(12, 3).to_i64(), Some(4));
    assert_eq!(Rational::from_i128(-12, 3).to_i64(), Some(-4));
    assert_eq!(Rational::from_i128(7, 2).to_i64(), None);
    assert_eq!(Rational::from_i128(-7, 2).to_i64(), None);
    assert_eq!(Rational::from_i128(i128::from(i64::MAX) + 1, 1).to_i64(), None);
    assert_eq!(Rational::from_i64(i64::MIN).to_i64(), Some(i64::MIN));
}
