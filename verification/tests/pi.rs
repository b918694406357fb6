use bridgman_core::bignum::{integer_from_i64, rational_mul, rational_parse, Integer, Rational};
use bridgman_core::{count_pi_groups_exact, pi_groups_exact, Dimensions};
use num_bigint::BigInt;

fn dims(powers: &[(&str, i64)]) -> Dimensions {
    Dimensions::from_integer_powers(powers.iter().map(|(k, v)| (k.to_string(), *v)).collect())
}

fn group(entries: &[(&str, i64)]) -> Vec<(String, Integer)> {
    entries.iter().map(|(name, value)| (name.to_string(), integer_from_i64(*value))).collect()
}

fn rational(text: &str) -> Rational {
    rational_parse(text).unwrap()
}

#[test]
fn pi_pi_basis_is_exact_and_deterministic() {
    let length = dims(&[("L", 1)]);
    let q = vec![("x".to_string(), length.clone()), ("y".to_string(), length)];
    assert_eq!(pi_groups_exact(&q), vec![group(&[("x", 1), ("y", -1)])]);
    assert_eq!(count_pi_groups_exact(&q), 1);
}

#[test]
fn arbitrary_precision_exponents_are_exact() {
    let huge = rational(&(BigInt::from(1) << 200usize).to_string());
    let doubled = rational_mul(&huge, &rational("2"));
    let q = vec![
        ("x".to_string(), Dimensions::from_rational_powers(vec![("L".to_string(), huge)])),
        ("y".to_string(), Dimensions::from_rational_powers(vec![("L".to_string(), doubled)])),
    ];
    assert_eq!(pi_groups_exact(&q), vec![group(&[("x", 2), ("y", -1)])]);
}

#[test]
fn velocity_length_and_time_form_one_group() {
    let q = vec![
        ("v".to_string(), dims(&[("L", 1), ("T", -1)])),
        ("l".to_string(), dims(&[("L", 1)])),
        ("t".to_string(), dims(&[("T", 1)])),
    ];
    assert_eq!(count_pi_groups_exact(&q), 1);
    assert_eq!(pi_groups_exact(&q), vec![group(&[("v", 1), ("l", -1), ("t", 1)])]);
}

#[test]
fn no_quantities_form_no_groups() {
    let q: Vec<(String, Dimensions)> = Vec::new();
    assert_eq!(count_pi_groups_exact(&q), 0);
    assert!(pi_groups_exact(&q).is_empty());
}

#[test]
fn a_dimensionless_quantity_is_a_group_of_its_own() {
    let q = vec![("ratio".to_string(), Dimensions::one()), ("l".to_string(), dims(&[("L", 1)]))];
    assert_eq!(count_pi_groups_exact(&q), 1);
    assert_eq!(pi_groups_exact(&q), vec![group(&[("ratio", 1)])]);
}

#[test]
fn fractional_exponents_give_whole_numbers_with_a_positive_lead() {
    let q = vec![
        ("x".to_string(), Dimensions::from_rational_powers(vec![("L".to_string(), rational("1/2"))])),
        ("y".to_string(), dims(&[("L", 1)])),
    ];
    assert_eq!(pi_groups_exact(&q), vec![group(&[("x", 2), ("y", -1)])]);
}

#[test]
fn independent_quantities_form_no_groups() {
    let q = vec![
        ("m".to_string(), dims(&[("M", 1)])),
        ("l".to_string(), dims(&[("L", 1)])),
    ];
    assert_eq!(count_pi_groups_exact(&q), 0);
    assert!(pi_groups_exact(&q).is_empty());
}

#[test]
fn each_free_quantity_gets_its_own_group() {
    let q = vec![
        ("a".to_string(), dims(&[("L", 1)])),
        ("b".to_string(), dims(&[("L", 2)])),
        ("c".to_string(), dims(&[("L", 3)])),
    ];
    assert_eq!(count_pi_groups_exact(&q), 2);
    assert_eq!(
        pi_groups_exact(&q),
        vec![group(&[("a", 2), ("b", -1)]), group(&[("a", 3), ("c", -1)])]
    );
}

#[test]
fn dimensionless_quantities_each_form_a_group() {
    let q: Vec<(String, Dimensions)> =
        ["p", "q", "r"].iter().map(|n| (n.to_string(), dims(&[]))).collect();
    assert_eq!(count_pi_groups_exact(&q), 3);
}

#[test]
fn the_count_is_the_number_of_quantities_less_the_rank() {
    // Velocity, length, time and mass: the dimension matrix has rank 3.
    let q = vec![
        ("v".to_string(), dims(&[("L", 1), ("T", -1)])),
        ("l".to_string(), dims(&[("L", 1)])),
        ("t".to_string(), dims(&[("T", 1)])),
        ("m".to_string(), dims(&[("M", 1)])),
    ];
    assert_eq!(count_pi_groups_exact(&q), 4 - 3);
    let mut reordered = q.clone();
    reordered.reverse();
    assert_eq!(count_pi_groups_exact(&reordered), 1);
}

#[test]
fn a_dimensionless_product_is_a_combination_of_the_groups() {
    // a^5 b^-1 c^-1 is dimensionless; its weights at the free columns b and
    // c over the groups' own entries there give coefficients 1 and 1.
    let q = vec![
        ("a".to_string(), dims(&[("L", 1)])),
        ("b".to_string(), dims(&[("L", 2)])),
        ("c".to_string(), dims(&[("L", 3)])),
    ];
    let groups = pi_groups_exact(&q);
    let weight = |g: &Vec<(String, Integer)>, name: &str| -> BigInt {
        g.iter()
            .find(|(n, _)| n == name)
            .map(|(_, e)| e.big().clone())
            .unwrap_or_default()
    };
    let coefficients = [BigInt::from(-1) / weight(&groups[0], "b"), BigInt::from(-1) / weight(&groups[1], "c")];
    let combined: Vec<BigInt> = ["a", "b", "c"]
        .iter()
        .map(|name| &coefficients[0] * weight(&groups[0], name) + &coefficients[1] * weight(&groups[1], name))
        .collect();
    assert_eq!(combined, vec![BigInt::from(5), BigInt::from(-1), BigInt::from(-1)]);
}
