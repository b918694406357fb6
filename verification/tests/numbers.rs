use bridgman_core::bignum::{integer_from_i64, integer_text, rational_parse};
use bridgman_core::dimension::rational_string;
use bridgman_core::{
    DimensionError, Dimensions, ExactScalar, ExactValue, Grade, GradeError, ProductOp,
    QuantityError, ScalarError,
};

fn dims(powers: &[(&str, i64)]) -> Dimensions {
    Dimensions::from_integer_powers(powers.iter().map(|(k, v)| (k.to_string(), *v)).collect())
}

fn scalar(text: &str) -> ExactScalar {
    ExactScalar::parse(text).unwrap()
}

#[test]
fn integers_print_in_decimal() {
    assert_eq!(integer_text(&integer_from_i64(-12)), "-12");
    assert!(rational_parse("1/0").is_err());
}

#[test]
fn preserves_unknown_dimensions_and_exact_roots() {
    let d = dims(&[("user:q", 1), ("L", 2)]);
    let half = rational_parse("1/2").unwrap();
    let root = d.pow(&half);
    assert_eq!(root.signature(), "L:1,user:q:1/2");
    assert_eq!(Dimensions::parse_signature(&root.signature()).unwrap(), root);
}

#[test]
fn signature_orders_si_bases_first() {
    let d = dims(&[("J", 1), ("Theta", 1), ("M", 1), ("A", 1)]);
    assert_eq!(d.signature(), "M:1,Theta:1,J:1,A:1");
}

#[test]
fn canonicalizes_theta_aliases() {
    assert_eq!(dims(&[("\u{0398}", 1), ("Theta", -1)]), Dimensions::one());
    assert_eq!(dims(&[("\u{03b8}", 2)]), dims(&[("Theta", 2)]));
}

#[test]
fn zero_denominator_signature_is_an_invalid_power() {
    assert!(matches!(
        Dimensions::parse_signature("L:1/0"),
        Err(DimensionError::InvalidPower { .. })
    ));
    assert!(matches!(
        Dimensions::parse_signature("L"),
        Err(DimensionError::InvalidSignature(_))
    ));
}

#[test]
fn dimension_one_has_signature_one() {
    assert_eq!(Dimensions::one().signature(), "1");
    assert_eq!(Dimensions::parse_signature("1").unwrap(), Dimensions::one());
    assert!(Dimensions::one().is_one());
}

#[test]
fn dimensions_multiply_divide_and_cancel() {
    let force = dims(&[("M", 1), ("L", 1), ("T", -2)]);
    let length = dims(&[("L", 1)]);
    let energy = force.mul(&length);
    assert_eq!(energy.signature(), "M:1,L:2,T:-2");
    assert_eq!(energy.div(&length), force);
    assert_eq!(length.mul(&force), energy);
    assert!(force.div(&force).is_one());
    let powers = energy.powers();
    assert_eq!(powers.len(), 3);
    assert_eq!(powers[1].0, "L");
    assert_eq!(rational_string(&powers[1].1), "2");
}

#[test]
fn grades_outside_g3_are_refused() {
    assert_eq!(Grade::from_index(4), Err(GradeError(4)));
    for index in 0..4u8 {
        assert_eq!(Grade::from_index(index).unwrap().index(), index);
    }
}

#[test]
fn grades_of_products() {
    assert_eq!(Grade::Vector.product(ProductOp::Dot, Grade::Vector), Some(Grade::Scalar));
    assert_eq!(Grade::Vector.product(ProductOp::Wedge, Grade::Vector), Some(Grade::Bivector));
    assert_eq!(Grade::Vector.product(ProductOp::Mul, Grade::Vector), None);
    assert_eq!(Grade::Scalar.product(ProductOp::Mul, Grade::Vector), Some(Grade::Vector));
    assert_eq!(Grade::Bivector.product(ProductOp::Wedge, Grade::Bivector), None);
}

#[test]
fn zero_exact_value_cannot_be_divided_by_zero() {
    assert_eq!(
        ExactValue::default().divide_scalar(&ExactScalar::zero()),
        Err(QuantityError::DivisionByZero)
    );
}

#[test]
fn exact_values_sum_their_terms() {
    let value = ExactValue::from_terms(vec![scalar("1/2"), scalar("1/2"), scalar("1*pi^1")]);
    let terms: Vec<String> = value.terms().iter().map(|t| t.encoded()).collect();
    assert_eq!(terms, vec!["1", "1*pi^1"]);
    assert_eq!(value.monomial(), None);
    let three = scalar("3");
    assert_eq!(ExactValue::from_scalar(three.clone()).monomial(), Some(three));
    let back = value.add(&ExactValue::from_scalar(scalar("2"))).sub(&ExactValue::from_scalar(scalar("2")));
    assert_eq!(back, value);
}

#[test]
fn exact_pi_arithmetic_does_not_wrap_machine_integers() {
    let a = scalar("1*pi^2147483647");
    let b = a.multiply(&scalar("1*pi^1"));
    assert_eq!(b.encoded(), "1*pi^2147483648");
    assert_eq!(b.divide(&a).unwrap().encoded(), "1*pi^1");
    assert_eq!(a.divide(&ExactScalar::zero()), None);
}

#[test]
fn invalid_scalars_name_the_failing_part() {
    assert!(matches!(ExactScalar::parse("1/0"), Err(ScalarError::Coefficient { .. })));
    assert!(matches!(ExactScalar::parse("1*pi^x"), Err(ScalarError::PiExponent { .. })));
    assert_eq!(scalar("6/4").encoded(), "3/2");
    assert_eq!(scalar("-2*pi^-1").encoded(), "-2*pi^-1");
}

#[test]
fn debug_text_follows_the_fields() {
    assert_eq!(
        format!("{:?}", scalar("1/2")),
        "ExactScalar { rational: Ratio { numer: 1, denom: 2 }, pi_exponent: 0 }"
    );
    assert_eq!(
        format!("{:?}", ExactValue::from_scalar(scalar("3*pi^2"))),
        "ExactValue { terms: {2: Ratio { numer: 3, denom: 1 }} }"
    );
    assert_eq!(format!("{:?}", dims(&[("L", 1)])), "Dimensions({\"L\": Ratio { numer: 1, denom: 1 }})");
}

#[test]
fn encoded_scalars_parse_back_to_themselves() {
    for text in ["0", "3/2", "-2*pi^-1", "7*pi^3", "1*pi^2147483648"] {
        let s = scalar(text);
        assert_eq!(ExactScalar::parse(&s.encoded()).unwrap(), s);
    }
}

#[test]
fn grades_convert_to_and_from_their_index() {
    assert_eq!(u8::from(Grade::Bivector), 2);
    assert_eq!(Grade::try_from(3u8), Ok(Grade::Trivector));
    assert_eq!(Grade::try_from(4u8), Err(GradeError(4)));
}
