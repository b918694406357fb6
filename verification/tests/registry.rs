use bridgman_core::error::Operation;
use bridgman_core::{
    AffineRole, Catalog, CatalogError, Conversion, Dimensions, ExactScalar, ExactValue, Grade,
    KindDecl, Magnitude, Op, OperationDecl, ProductOp, QuantityError, RateFault, Record, Registry,
    UnitDecl, CATALOG_SCHEMA,
};

fn dims(powers: &[(&str, i64)]) -> Dimensions {
    Dimensions::from_integer_powers(powers.iter().map(|(k, v)| (k.to_string(), *v)).collect())
}

fn scalar(text: &str) -> ExactScalar {
    ExactScalar::parse(text).unwrap()
}

fn kind(id: &str, powers: &[(&str, i64)]) -> KindDecl {
    KindDecl {
        id: id.into(),
        dimensions: Some(dims(powers)),
        grade: Grade::Scalar,
        difference_kind: None,
        minimum: None,
        rate_of: None,
    }
}

fn unit(id: &str, symbol: &str, kinds: &[&str], reference: &str, scale: &str, offset: &str) -> UnitDecl {
    UnitDecl {
        id: id.into(),
        symbol: symbol.into(),
        kinds: kinds.iter().map(|k| k.to_string()).collect(),
        conversion: Some(Conversion {
            reference_unit: reference.into(),
            scale: Magnitude::Exact(scalar(scale)),
            offset: Magnitude::Exact(ExactValue::from_scalar(scalar(offset))),
        }),
        coherent_scale: Some(scalar(scale)),
    }
}

fn rule(left: &str, op: ProductOp, right: &str, result: &str, commutative: bool) -> OperationDecl {
    OperationDecl {
        left: left.into(),
        op,
        right: right.into(),
        result: result.into(),
        commutative,
        provenance: None,
    }
}

fn catalog(kinds: Vec<KindDecl>, units: Vec<UnitDecl>, operations: Vec<OperationDecl>) -> Catalog {
    Catalog {
        schema: CATALOG_SCHEMA,
        provenance: vec![],
        dimensionless: None,
        time: None,
        kinds,
        units,
        operations,
    }
}

fn compile(c: Catalog) -> Result<Registry, CatalogError> {
    let finite = vec![true; c.kinds.len()];
    Registry::compile(c, finite)
}

fn lengths() -> Catalog {
    catalog(
        vec![kind("length", &[("L", 1)]), kind("area", &[("L", 2)])],
        vec![
            unit("cm", "cm", &["length"], "cm", "1", "0"),
            unit("m2", "m2", &["area"], "m2", "1", "0"),
        ],
        vec![],
    )
}

/// Energy and torque share dimensions; a dot product of force and
/// displacement is energy and a wedge product is torque.
fn mechanics() -> Catalog {
    let mut force = kind("force", &[("M", 1), ("L", 1), ("T", -2)]);
    force.grade = Grade::Vector;
    let mut displacement = kind("displacement", &[("L", 1)]);
    displacement.grade = Grade::Vector;
    let mut torque = kind("torque", &[("M", 1), ("L", 2), ("T", -2)]);
    torque.grade = Grade::Bivector;
    catalog(
        vec![
            force,
            displacement,
            kind("energy", &[("M", 1), ("L", 2), ("T", -2)]),
            torque,
            kind("work", &[("M", 1), ("L", 2), ("T", -2)]),
        ],
        vec![],
        vec![],
    )
}

#[test]
fn operation_names_are_spelled_once() {
    for op in [Op::Add, Op::Sub, Op::Mul, Op::Div, Op::Dot, Op::Wedge] {
        assert_eq!(Op::parse(op.name()), Ok(op));
    }
    assert_eq!(
        ProductOp::parse("add"),
        Err(bridgman_core::OperationParseError::NotProduct(Op::Add))
    );
    assert_eq!(
        Op::parse("pow"),
        Err(bridgman_core::OperationParseError::Unknown("pow".into()))
    );
    assert_eq!(ProductOp::parse("wedge"), Ok(ProductOp::Wedge));
}

#[test]
fn products_are_derived_from_dimensions_and_grade() {
    let r = compile(lengths()).unwrap();
    let (l, a) = (r.kind("length").unwrap(), r.kind("area").unwrap());
    assert_eq!(l.product(ProductOp::Mul, l), Ok(a));
    assert_eq!(a.product(ProductOp::Div, l), Ok(l));
    assert_eq!(l.combine(Op::Mul, l), Ok(a));
    match a.product(ProductOp::Mul, a) {
        Err(QuantityError::NoProductKind { left, op, right, dimensions, grade }) => {
            assert_eq!((left.as_str(), op, right.as_str()), ("area", ProductOp::Mul, "area"));
            assert_eq!(dimensions.signature(), "L:4");
            assert_eq!(grade, Grade::Scalar);
        }
        other => panic!("unexpected {other:?}"),
    }
}

#[test]
fn twins_are_chosen_by_rows_and_grades() {
    let r = compile(mechanics()).unwrap();
    let k = |id| r.kind(id).unwrap();
    match k("force").product(ProductOp::Dot, k("displacement")) {
        Err(QuantityError::UnresolvedTwin { twins, .. }) => {
            assert_eq!(twins, vec!["energy".to_string(), "work".to_string()])
        }
        other => panic!("unexpected {other:?}"),
    }
    assert_eq!(k("force").product(ProductOp::Wedge, k("displacement")), Ok(k("torque")));
    assert!(matches!(
        k("force").product(ProductOp::Mul, k("displacement")),
        Err(QuantityError::UngradedProduct { left_grade: Grade::Vector, right_grade: Grade::Vector, .. })
    ));
    let mut with_row = mechanics();
    with_row.operations = vec![rule("force", ProductOp::Dot, "displacement", "work", true)];
    let r = compile(with_row).unwrap();
    let k = |id| r.kind(id).unwrap();
    assert_eq!(k("force").product(ProductOp::Dot, k("displacement")), Ok(k("work")));
    assert_eq!(k("displacement").product(ProductOp::Dot, k("force")), Ok(k("work")));
}

#[test]
fn invalid_declarations_are_refused_with_their_cause() {
    let mut commutative_division = lengths();
    commutative_division.operations = vec![rule("length", ProductOp::Div, "length", "area", true)];
    assert_eq!(
        compile(commutative_division).err(),
        Some(CatalogError::CommutativeQuotient { left: "length".into(), right: "length".into() })
    );
    let mut restated = lengths();
    restated.operations = vec![rule("length", ProductOp::Mul, "length", "area", false)];
    assert_eq!(
        compile(restated).err(),
        Some(CatalogError::DerivedOperationRule {
            left: "length".into(),
            op: ProductOp::Mul,
            right: "length".into(),
            result: "area".into(),
            derived: "area".into(),
        })
    );
    let mut zero = lengths();
    zero.units[0] = unit("cm", "cm", &["length"], "cm", "0", "0");
    assert_eq!(compile(zero).err(), Some(CatalogError::ZeroScale { unit: "cm".into() }));
    let mut crossed = lengths();
    crossed.units[0] = unit("cm", "cm", &["length"], "m2", "1", "0");
    assert!(matches!(compile(crossed), Err(CatalogError::IncompatibleReference { .. })));
    let mut nested = lengths();
    nested.kinds[0].difference_kind = Some("length".into());
    assert_eq!(
        compile(nested).err(),
        Some(CatalogError::NestedAffineSpace { point: "length".into(), difference: "length".into() })
    );
    let mut dimensional = lengths();
    dimensional.dimensionless = Some("length".into());
    assert_eq!(
        compile(dimensional).err(),
        Some(CatalogError::InvalidDimensionlessKind("length".into()))
    );
    let mut unreachable = lengths();
    unreachable.kinds[1].minimum = Some(scalar("0"));
    unreachable.units.push(unit("m2b", "m2b", &["area"], "m2b", "1", "0"));
    assert_eq!(
        compile(unreachable).err(),
        Some(CatalogError::InvalidMinimum { kind: "area".into() })
    );
    let mut duplicate = lengths();
    duplicate.kinds.push(kind("length", &[("L", 1)]));
    assert_eq!(
        compile(duplicate).err(),
        Some(CatalogError::Duplicate { record: Record::Kind, id: "length".into() })
    );
    let mut schema = lengths();
    schema.schema = 3;
    assert_eq!(compile(schema).err(), Some(CatalogError::Schema { expected: 4, actual: 3 }));
    let mut empty = lengths();
    empty.units[1].id = String::new();
    assert_eq!(compile(empty).err(), Some(CatalogError::EmptyId { record: Record::Unit }));
    let mut approximate = lengths();
    approximate.units[0].conversion.as_mut().unwrap().scale = Magnitude::Approximate(f64::INFINITY.to_bits());
    assert_eq!(
        compile(approximate).err(),
        Some(CatalogError::NonFiniteConversion { unit: "cm".into() })
    );
    let mut infinite = lengths();
    infinite.kinds[0].minimum = Some(scalar("0"));
    assert_eq!(
        Registry::compile(infinite, vec![false, true]).err(),
        Some(CatalogError::InvalidMinimum { kind: "length".into() })
    );
}

#[test]
fn handles_of_another_registry_are_refused() {
    let (a, b) = (compile(lengths()).unwrap(), compile(lengths()).unwrap());
    let (x, y) = (a.kind("length").unwrap(), b.kind("length").unwrap());
    assert_ne!(x, y);
    assert_eq!(x, a.kind("length").unwrap());
    assert_eq!(x.combine(Op::Add, y), Err(QuantityError::RegistryMismatch));
    assert_eq!(format!("{x:?}"), "Kind(\"length\")");
    assert_eq!(x.id(), "length");
    assert_eq!(
        a.kind("volume").err(),
        Some(QuantityError::Unknown { record: Record::Kind, id: "volume".into() })
    );
}

#[test]
fn equal_dimensions_do_not_make_kinds_interchangeable() {
    let r = compile(mechanics()).unwrap();
    let (energy, work) = (r.kind("energy").unwrap(), r.kind("work").unwrap());
    assert_eq!(
        energy.combine(Op::Add, work),
        Err(QuantityError::KindMismatch { expected: "energy".into(), actual: "work".into() })
    );
    assert_eq!(energy.combine(Op::Sub, energy), Ok(energy));
}

fn temperatures() -> Catalog {
    let mut temperature = kind("temperature", &[("Theta", 1)]);
    temperature.difference_kind = Some("temperature_difference".into());
    temperature.minimum = Some(scalar("0"));
    catalog(
        vec![temperature, kind("temperature_difference", &[("Theta", 1)])],
        vec![
            unit("kelvin", "K", &["temperature"], "kelvin", "1", "0"),
            unit("celsius", "degC", &["temperature"], "kelvin", "1", "5463/20"),
            unit("kelvin_delta", "delta_K", &["temperature_difference"], "kelvin_delta", "1", "0"),
            unit("fahrenheit_delta", "delta_degF", &["temperature_difference"], "kelvin_delta", "5/9", "0"),
        ],
        vec![],
    )
}

#[test]
fn affine_temperatures_follow_their_declared_space() {
    let r = compile(temperatures()).unwrap();
    let (t, d) = (r.kind("temperature").unwrap(), r.kind("temperature_difference").unwrap());
    assert_eq!(t.role(), AffineRole::Point);
    assert_eq!(d.role(), AffineRole::Difference);
    assert_eq!(t.combine(Op::Sub, t), Ok(d));
    assert_eq!(t.combine(Op::Add, d), Ok(t));
    assert_eq!(d.combine(Op::Add, t), Ok(t));
    assert_eq!(t.combine(Op::Sub, d), Ok(t));
    assert_eq!(
        t.combine(Op::Add, t),
        Err(QuantityError::UnsupportedOperation {
            operation: Operation::Binary(Op::Add),
            left: "temperature".into(),
            right: Some("temperature".into()),
        })
    );
    assert!(matches!(
        t.combine(Op::Mul, d),
        Err(QuantityError::UnsupportedOperation { .. })
    ));
    let (floor, in_unit) = t.minimum().unwrap();
    assert_eq!(floor.encoded(), "0");
    assert_eq!(in_unit.id(), "kelvin");
    assert_eq!(t.canonical_unit().unwrap().id(), "kelvin");
}

#[test]
fn exact_conversion_keeps_each_kinds_affine_role() {
    let r = compile(temperatures()).unwrap();
    let (t, d) = (r.kind("temperature").unwrap(), r.kind("temperature_difference").unwrap());
    let (k, c) = (r.unit("kelvin").unwrap(), r.unit("celsius").unwrap());
    let zero_celsius = t.convert_exact(ExactValue::zero(), c, k).unwrap();
    assert_eq!(zero_celsius.monomial().unwrap().encoded(), "5463/20");
    let back = t.convert_exact(zero_celsius, k, c).unwrap();
    assert!(back.is_zero());
    let (dk, df) = (r.unit("kelvin_delta").unwrap(), r.unit("fahrenheit_delta").unwrap());
    let nine = ExactValue::from_scalar(scalar("9"));
    assert_eq!(d.convert_exact(nine, df, dk).unwrap().monomial().unwrap().encoded(), "5");
    assert_eq!(
        t.convert_exact(ExactValue::zero(), dk, k),
        Err(QuantityError::UnitKindMismatch { unit: "kelvin_delta".into(), kind: "temperature".into() })
    );
}

#[test]
fn a_linear_kind_cannot_silently_discard_an_offset() {
    let r = compile(catalog(
        vec![kind("coordinate", &[("X", 1)])],
        vec![
            unit("base", "base", &["coordinate"], "base", "1", "0"),
            unit("shifted", "shifted", &["coordinate"], "base", "1", "10"),
        ],
        vec![],
    ))
    .unwrap();
    let coordinate = r.kind("coordinate").unwrap();
    assert_eq!(
        coordinate.convert_exact(ExactValue::zero(), r.unit("shifted").unwrap(), r.unit("base").unwrap()),
        Err(QuantityError::OffsetOnLinearKind { unit: "shifted".into(), kind: "coordinate".into() })
    );
}

#[test]
fn approximate_magnitudes_convert_but_refuse_exact_conversion() {
    let mut c = catalog(
        vec![kind("x", &[])],
        vec![unit("u", "u", &["x"], "u", "1", "0"), unit("v", "v", &["x"], "u", "1", "0")],
        vec![],
    );
    c.units[1].conversion.as_mut().unwrap().scale = Magnitude::Approximate(2.5f64.to_bits());
    let r = compile(c).unwrap();
    let (u, v) = (r.unit("u").unwrap(), r.unit("v").unwrap());
    assert_eq!(
        r.kind("x").unwrap().convert_exact(ExactValue::zero(), v, u),
        Err(QuantityError::ApproximateConversion { unit: "v".into() })
    );
}

#[test]
fn same_kind_symbol_collision_requires_a_unit_handle() {
    let r = compile(catalog(
        vec![kind("length", &[("L", 1)])],
        vec![unit("u1", "u", &["length"], "u1", "1", "0"), unit("u2", "u", &["length"], "u1", "2", "0")],
        vec![],
    ))
    .unwrap();
    let length = r.kind("length").unwrap();
    assert_eq!(r.resolve_symbol("u", Some(length)).err(), Some(QuantityError::AmbiguousUnit("u".into())));
    assert_eq!(r.units_for_symbol("u").unwrap().len(), 2);
    assert_eq!(r.kinds_for_symbol("u").unwrap(), vec![length]);
    assert_eq!(
        r.units_for_symbol("w").err(),
        Some(QuantityError::Unknown { record: Record::UnitSymbol, id: "w".into() })
    );
    let two = r.kind("length").unwrap().convert_exact(
        ExactValue::from_scalar(scalar("1")),
        r.unit("u2").unwrap(),
        r.unit("u1").unwrap(),
    );
    assert_eq!(two.unwrap().monomial().unwrap().encoded(), "2");
}

#[test]
fn the_dimensionless_kind_scales_and_cancels() {
    let mut c = lengths();
    c.kinds.push(kind("unitless", &[]));
    c.dimensionless = Some("unitless".into());
    let r = compile(c).unwrap();
    let (l, one) = (r.kind("length").unwrap(), r.kind("unitless").unwrap());
    assert_eq!(l.product(ProductOp::Mul, one), Ok(l));
    assert_eq!(one.product(ProductOp::Mul, l), Ok(l));
    assert_eq!(l.product(ProductOp::Div, one), Ok(l));
    assert_eq!(l.product(ProductOp::Div, l), Ok(one));
    assert_eq!(r.dimensionless(), Some(one));
}

#[test]
fn time_is_a_point_whose_differences_are_durations() {
    let mut time = kind("time", &[("T", 1)]);
    time.difference_kind = Some("duration".into());
    let mut velocity = kind("velocity", &[("L", 1), ("T", -1)]);
    velocity.rate_of = Some("length".into());
    let mut c = catalog(
        vec![
            time,
            kind("duration", &[("T", 1)]),
            kind("length", &[("L", 1)]),
            kind("span", &[("L", 1)]),
            velocity,
        ],
        vec![],
        vec![],
    );
    c.time = Some("time".into());
    let r = compile(c).unwrap();
    let k = |id| r.kind(id).unwrap();
    assert_eq!(r.time(), Some(k("time")));
    assert_eq!(k("velocity").rate_of(), Some(k("length")));
    assert_eq!(k("length").rate(), Some(k("velocity")));
    assert_eq!(k("velocity").product(ProductOp::Mul, k("duration")), Ok(k("length")));
    assert_eq!(k("duration").product(ProductOp::Mul, k("velocity")), Ok(k("length")));
    assert_eq!(k("length").product(ProductOp::Div, k("duration")), Ok(k("velocity")));
    assert!(matches!(
        k("span").product(ProductOp::Div, k("time")),
        Err(QuantityError::UnsupportedOperation { .. })
    ));
    let mut without_time = catalog(vec![kind("length", &[("L", 1)]), kind("speed", &[("L", 1), ("T", -1)])], vec![], vec![]);
    without_time.kinds[1].rate_of = Some("length".into());
    assert_eq!(
        compile(without_time).err(),
        Some(CatalogError::InvalidRate {
            rate: "speed".into(),
            of: "length".into(),
            fault: RateFault::NoTimeKind,
        })
    );
}

#[test]
fn errors_carry_their_tags() {
    assert_eq!(CatalogError::ZeroScale { unit: "u".into() }.tag(), "zero_scale");
    assert_eq!(
        CatalogError::ConflictingOperationRule { left: "a".into(), op: ProductOp::Mul, right: "b".into() }.tag(),
        "duplicate_rule"
    );
    assert_eq!(QuantityError::RegistryMismatch.tag(), "registry_mismatch");
    assert_eq!(RateFault::NoTimeKind.tag(), "no_time_kind");
    assert_eq!(Record::UnitSymbol.name(), "unit symbol");
    assert_eq!(Operation::DivideScalar.text(), "division by a number");
}

#[test]
fn provenance_notes_are_kept_by_name_the_last_note_winning() {
    let mut c = lengths();
    c.provenance = vec![
        ("source".to_string(), "first".to_string()),
        ("adapter".to_string(), "a".to_string()),
        ("source".to_string(), "second".to_string()),
    ];
    let r = compile(c).unwrap();
    assert_eq!(
        r.provenance(),
        &vec![
            ("adapter".to_string(), "a".to_string()),
            ("source".to_string(), "second".to_string()),
        ]
    );
}

#[test]
fn product_factors_carry_coherent_scales_into_the_result_unit() {
    let mut c = lengths();
    c.units[0].coherent_scale = Some(scalar("1/100"));
    let mut bare = unit("mm", "mm", &["length"], "mm", "1", "0");
    bare.coherent_scale = None;
    c.units.push(bare);
    let r = compile(c).unwrap();
    let cm = r.unit("cm").unwrap().index();
    let m2 = r.unit("m2").unwrap().index();
    let mm = r.unit("mm").unwrap().index();
    assert_eq!(r.product_factor(cm, ProductOp::Mul, cm, m2).unwrap().encoded(), "1/10000");
    assert_eq!(r.product_factor(m2, ProductOp::Div, cm, cm).unwrap().encoded(), "10000");
    assert_eq!(
        r.product_factor(cm, ProductOp::Mul, mm, m2).err(),
        Some(QuantityError::MissingCoherentScale { unit: "mm".into() })
    );
}
