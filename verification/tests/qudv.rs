use bridgman_core::qudv::{qudv_catalog, ExactRecord, QudvConversion, QudvDocument, QudvUnit};
use bridgman_core::{CatalogError, Dimensions, ExactScalar, Magnitude, QuantityError, Registry};

fn scalar(text: &str) -> ExactScalar {
    ExactScalar::parse(text).unwrap()
}

fn term(text: &str) -> ExactRecord {
    ExactRecord::Term { rational: scalar(text), pi_exponent: 0 }
}

fn fixture() -> QudvDocument {
    QudvDocument {
        schema_version: 2,
        sha256: "abc".to_string(),
        format: "OMG XMI".to_string(),
        kinds: vec![
            ("generalized".to_string(), None),
            ("temperature".to_string(), Some(Dimensions::from_integer_powers(vec![("Theta".to_string(), 1)]))),
        ],
        units: vec![
            (
                "celsius".to_string(),
                QudvUnit {
                    name: "degree Celsius".to_string(),
                    symbol: Some(String::new()),
                    quantity_kinds: vec!["temperature".to_string()],
                    si_factor: None,
                    conversion: Some(QudvConversion {
                        reference_unit: "kelvin".to_string(),
                        scale: term("1"),
                        offset: ExactRecord::Sum { sum: vec![term("273"), term("3/20")] },
                    }),
                },
            ),
            (
                "kelvin".to_string(),
                QudvUnit {
                    name: "kelvin".to_string(),
                    symbol: Some("K".to_string()),
                    quantity_kinds: vec!["temperature".to_string()],
                    si_factor: Some(term("1")),
                    conversion: Some(QudvConversion {
                        reference_unit: "kelvin".to_string(),
                        scale: term("1"),
                        offset: term("0"),
                    }),
                },
            ),
            (
                "unresolved".to_string(),
                QudvUnit {
                    name: "unresolved".to_string(),
                    symbol: None,
                    quantity_kinds: vec!["generalized".to_string()],
                    si_factor: None,
                    conversion: None,
                },
            ),
        ],
        applied_corrections: Ok("null".to_string()),
    }
}

#[test]
fn scopes_source_ids_and_preserves_unresolved_dimensions() {
    let c = qudv_catalog(&fixture()).unwrap();
    assert!(c.kinds.iter().any(|k| k.id == "qudv:abc:generalized" && k.dimensions.is_none()));
    let finite = vec![true; c.kinds.len()];
    let r = Registry::compile(c, finite).unwrap();
    assert_eq!(
        r.kind("qudv:abc:generalized").unwrap().dimensions(),
        Err(QuantityError::UnresolvedDimensions("qudv:abc:generalized".into()))
    );
}

#[test]
fn empty_symbol_is_absent_and_sums_are_exact() {
    let c = qudv_catalog(&fixture()).unwrap();
    let celsius = c.units.iter().find(|u| u.id == "qudv:abc:celsius").unwrap();
    assert_eq!(celsius.symbol, "degree Celsius");
    match &celsius.conversion.as_ref().unwrap().offset {
        Magnitude::Exact(value) => assert_eq!(value.terms(), vec![scalar("5463/20")]),
        Magnitude::Approximate(_) => panic!("the offset is exact"),
    }
    let unresolved = c.units.iter().find(|u| u.id == "qudv:abc:unresolved").unwrap();
    assert_eq!(unresolved.symbol, "unresolved");
    assert!(unresolved.conversion.is_none());
}

#[test]
fn provenance_names_the_source() {
    let c = qudv_catalog(&fixture()).unwrap();
    assert!(c.provenance.iter().any(|(name, value)| name == "source_sha256" && value == "abc"));
    assert!(c.provenance.iter().any(|(name, value)| name == "applied_corrections" && value == "null"));
    let kelvin = c.units.iter().find(|u| u.id == "qudv:abc:kelvin").unwrap();
    assert_eq!(kelvin.symbol, "K");
    assert_eq!(kelvin.kinds, vec!["qudv:abc:temperature".to_string()]);
}

#[test]
fn other_schema_versions_are_refused() {
    let mut document = fixture();
    document.schema_version = 3;
    assert!(matches!(
        qudv_catalog(&document),
        Err(CatalogError::Schema { expected: 2, actual: 3 })
    ));
}

#[test]
fn an_empty_source_hash_is_refused() {
    let mut document = fixture();
    document.sha256 = String::new();
    assert!(matches!(qudv_catalog(&document), Err(CatalogError::EmptySourceHash)));
}
