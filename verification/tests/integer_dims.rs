use bridgman_core::bignum::integer_from_i64;
use bridgman_core::integer_dims;
use bridgman_core::integer_dims::{
    canonical_key, canonicalize, clean, dimension_index, divide, equal, is_dimensionless, multiply,
    parse_signature, power, signature, superscript, ParseDimensionsError,
};
use indexmap::IndexMap;
use num_bigint::BigInt;

fn dimensions(entries: &[(&str, &str)]) -> IndexMap<String, BigInt> {
    entries
        .iter()
        .map(|(key, exponent)| ((*key).to_owned(), exponent.parse().expect("test exponent must be valid")))
        .collect()
}

#[test]
fn arithmetic_uses_arbitrary_precision_exponents() {
    let huge = "100000000000000000000000000000000000000000000000000";
    let left = dimensions(&[("L", huge), ("T", "-2")]);
    let right = dimensions(&[("L", huge), ("T", "2")]);
    let product = multiply(&left, &right);

    assert_eq!(product.len(), 1);
    assert_eq!(product["L"], huge.parse::<BigInt>().expect("valid integer") * 2);
}

#[test]
fn canonicalization_combines_theta_and_strips_zeroes() {
    let input = dimensions(&[("\u{0398}", "4"), ("Theta", "-4"), ("L", "0")]);
    assert!(canonicalize(&input).is_empty());
}

#[test]
fn signatures_and_formatting_are_canonical() {
    let input = dimensions(&[("T", "-2"), ("custom", "3"), ("M", "1"), ("L", "0")]);
    assert_eq!(signature(&input), "M:1,T:-2,custom:3");
    assert_eq!(integer_dims::format(&input), "M T\u{207b}\u{00b2} custom\u{00b3}");
    assert_eq!(parse_signature(&signature(&input)).expect("signature must parse"), canonicalize(&input));
}

#[test]
fn division_subtracts_and_keeps_the_order_of_first_appearance() {
    let left = dimensions(&[("T", "-1"), ("L", "1")]);
    let right = dimensions(&[("M", "1"), ("L", "1")]);
    let quotient = divide(&left, &right);
    let keys: Vec<&String> = quotient.keys().collect();
    assert_eq!(keys, vec!["T", "M"]);
    assert_eq!(quotient["M"], BigInt::from(-1));
}

#[test]
fn powers_scale_every_exponent_and_the_zeroth_power_is_empty() {
    let input = dimensions(&[("L", "2"), ("T", "-1"), ("N", "0")]);
    let cubed = power(&input, &integer_from_i64(3));
    assert_eq!(cubed, dimensions(&[("L", "6"), ("T", "-3")]));
    assert!(power(&input, &integer_from_i64(0)).is_empty());
}

#[test]
fn equality_ignores_zero_exponents_and_order() {
    let left = dimensions(&[("L", "1"), ("T", "-1"), ("M", "0")]);
    let right = dimensions(&[("T", "-1"), ("L", "1")]);
    assert!(equal(&left, &right));
    assert!(!equal(&left, &dimensions(&[("L", "1")])));
    assert!(!equal(&left, &dimensions(&[("L", "1"), ("T", "1")])));
}

#[test]
fn cleaning_and_dimensionless_checks() {
    let input = dimensions(&[("L", "0"), ("T", "0")]);
    assert!(is_dimensionless(&input));
    assert!(clean(&input).is_empty());
    assert!(!is_dimensionless(&dimensions(&[("L", "0"), ("T", "1")])));
    assert_eq!(integer_dims::format(&input), "1");
    assert_eq!(signature(&input), "1");
}

#[test]
fn identifiers_have_their_si_rank_and_spelling() {
    assert_eq!(dimension_index("M"), 0);
    assert_eq!(dimension_index("J"), 6);
    assert_eq!(dimension_index("custom"), 7);
    assert_eq!(canonical_key("\u{03b8}"), "Theta");
    assert_eq!(canonical_key("L"), "L");
    assert_eq!(superscript(&integer_from_i64(-120)), "\u{207b}\u{00b9}\u{00b2}\u{2070}");
}

#[test]
fn signatures_sort_other_identifiers_and_parse_back() {
    let input = dimensions(&[("zeta", "1"), ("alpha", "2"), ("\u{03b8}", "1"), ("L", "-1")]);
    assert_eq!(signature(&input), "L:-1,Theta:1,alpha:2,zeta:1");
    assert_eq!(parse_signature("1").unwrap(), IndexMap::new());
    assert_eq!(parse_signature("L:1,L:2").unwrap(), dimensions(&[("L", "2")]));
}

#[test]
fn malformed_signatures_are_refused_with_the_part() {
    assert_eq!(
        parse_signature("L:1,T").unwrap_err(),
        ParseDimensionsError::new("missing ':' in \"T\"".to_owned())
    );
    let error = parse_signature("L:x").unwrap_err();
    assert_eq!(error.message(), "invalid integer exponent \"x\"");
}
