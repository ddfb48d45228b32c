use orthogonal_gf2::{OrthoError, GF2};

#[test]
fn field_arithmetic() {
    let (z, o) = (GF2::zero(), GF2::one());
    assert_eq!(o.add(o), z);
    assert_eq!(o.add(z), o);
    assert_eq!(z.sub(o), o);
    assert_eq!(o.mul(o), o);
    assert_eq!(o.mul(z), z);
    assert_eq!(o.neg(), o);
    assert_eq!(z.neg(), z);
    assert!(z.is_zero() && o.is_one());
}

#[test]
fn field_division() {
    assert_eq!(GF2::one().div(GF2::one()), Ok(GF2::one()));
    assert_eq!(GF2::zero().div(GF2::one()), Ok(GF2::zero()));
    assert_eq!(GF2::one().div(GF2::zero()), Err(OrthoError::DivisionByZero));
}

#[test]
fn field_from_integer() {
    assert_eq!(GF2::from_integer(4), GF2::Zero);
    assert_eq!(GF2::from_integer(7), GF2::One);
    assert_eq!(GF2::from_integer(-3), GF2::One);
    assert_eq!(GF2::from_integer(-2), GF2::Zero);
    assert_eq!(GF2::from_integer(i64::MIN), GF2::Zero);
    assert_eq!(GF2::One.value(), 1);
    assert!(GF2::Zero < GF2::One);
}
