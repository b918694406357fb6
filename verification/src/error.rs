//! What a refused catalog or a refused operation reports. Each error has a
//! view that holds its identifiers as character sequences and its dimensions
//! as maps, so that contracts can say which error comes.
use crate::catalog::{Op, ProductOp};
use crate::dimension::{DimMap, Dimensions};
use crate::grade::Grade;
use crate::scalar::{ExactScalar, ScalarModel};
use std::sync::Arc;
use vstd::prelude::*;

verus! {

#[verifier::external_type_specification]
#[verifier::external_body]
pub struct ExJsonError(serde_json::Error);

#[verifier::external_type_specification]
#[verifier::external_body]
pub struct ExYamlError(serde_yaml::Error);

/// Any quantity operation, as named when it is refused.
#[derive(Clone, Copy, Debug, PartialEq, Eq, Structural)]
pub enum Operation {
    Binary(Op),
    Scale,
    DivideScalar,
    Abs,
}

/// How an operation is named in a message.
pub open spec fn operation_text(operation: Operation) -> Seq<char> {
    match operation {
        Operation::Binary(op) => crate::catalog::op_name(op),
        Operation::Scale => "scaling"@,
        Operation::DivideScalar => "division by a number"@,
        Operation::Abs => "absolute value"@,
    }
}

impl Operation {
    /// The operation as a message names it.
    pub fn text(self) -> (r: &'static str)
        ensures
            r@ == operation_text(self),
    {
        proof {
            reveal_strlit("scaling");
            reveal_strlit("division by a number");
            reveal_strlit("absolute value");
        }
        match self {
            Operation::Binary(op) => op.name(),
            Operation::Scale => "scaling",
            Operation::DivideScalar => "division by a number",
            Operation::Abs => "absolute value",
        }
    }
}

/// The catalog record an identifier names.
#[derive(Clone, Copy, Debug, PartialEq, Eq, Structural)]
pub enum Record {
    Kind,
    Unit,
    UnitSymbol,
}

pub open spec fn record_name(record: Record) -> Seq<char> {
    match record {
        Record::Kind => "kind"@,
        Record::Unit => "unit"@,
        Record::UnitSymbol => "unit symbol"@,
    }
}

impl Record {
    pub fn name(self) -> (r: &'static str)
        ensures
            r@ == record_name(self),
    {
        proof {
            reveal_strlit("kind");
            reveal_strlit("unit");
            reveal_strlit("unit symbol");
        }
        match self {
            Record::Kind => "kind",
            Record::Unit => "unit",
            Record::UnitSymbol => "unit symbol",
        }
    }
}

/// `Arc::clone`: another pointer to the same allocation, so the same value.
#[verifier::external_body]
fn arc_clone<E>(a: &Arc<E>) -> (r: Arc<E>)
    ensures
        *r == **a,
{
    Arc::clone(a)
}

/// `Arc::ptr_eq`: whether two pointers share one allocation. Sharing one, they
/// hold the same value; nothing is said of two allocations.
#[verifier::external_body]
fn arc_ptr_eq<E>(a: &Arc<E>, b: &Arc<E>) -> (r: bool)
    ensures
        r ==> **a == **b,
{
    Arc::ptr_eq(a, b)
}

/// A document parser's own error, kept whole so that errors stay cloneable.
/// Equality is identity: two reports are equal only when they are the same
/// report.
#[derive(Debug)]
pub struct Shared<E>(Arc<E>);

impl<E> Shared<E> {
    /// The report held.
    pub closed spec fn value(&self) -> E {
        *self.0
    }

    /// Holds a report.
    pub fn new(error: E) -> (r: Shared<E>)
        ensures
            r.value() == error,
    {
        Shared(Arc::new(error))
    }

    /// The report held.
    pub fn get(&self) -> (r: &E)
        ensures
            *r == self.value(),
    {
        &*self.0
    }
}

impl<E> Clone for Shared<E> {
    /// Another handle on the same report.
    fn clone(&self) -> (r: Self)
        ensures
            r.value() == self.value(),
    {
        Shared(arc_clone(&self.0))
    }
}

impl<E> PartialEq for Shared<E> {
    /// Whether both handles hold the same report (not merely equal ones).
    fn eq(&self, other: &Self) -> (r: bool) {
        arc_ptr_eq(&self.0, &other.0)
    }
}

impl<E> Eq for Shared<E> {
}

impl<E> vstd::std_specs::cmp::PartialEqSpecImpl for Shared<E> {
    /// Identity of allocations is not a value: `==` promises nothing here.
    open spec fn obeys_eq_spec() -> bool {
        false
    }

    open spec fn eq_spec(&self, other: &Self) -> bool {
        self.value() == other.value()
    }
}

/// Why a kind's `rate_of` declaration is refused.
#[derive(Clone, Debug, PartialEq, Eq)]
pub enum RateFault {
    NoTimeKind,
    PointKind(String),
    Mismatch { dimensions: Dimensions, grade: Grade },
    AlsoRateOf(String),
}

/// A `RateFault` with its identifiers as text and its dimensions as a map.
pub enum RateFaultView {
    NoTimeKind,
    PointKind(Seq<char>),
    Mismatch { dimensions: DimMap, grade: Grade },
    AlsoRateOf(Seq<char>),
}

impl View for RateFault {
    type V = RateFaultView;

    open spec fn view(&self) -> RateFaultView {
        match self {
            RateFault::NoTimeKind => RateFaultView::NoTimeKind,
            RateFault::PointKind(k) => RateFaultView::PointKind(k@),
            RateFault::Mismatch { dimensions, grade } => RateFaultView::Mismatch {
                dimensions: dimensions@,
                grade: *grade,
            },
            RateFault::AlsoRateOf(k) => RateFaultView::AlsoRateOf(k@),
        }
    }
}

/// Why a catalog could not be read, imported or compiled. These are faults of
/// the declarations; nothing about a quantity has been computed yet.
#[derive(Clone, Debug, PartialEq, Eq)]
pub enum CatalogError {
    Schema { expected: u32, actual: u32 },
    Json(Shared<serde_json::Error>),
    Yaml(Shared<serde_yaml::Error>),
    Duplicate { record: Record, id: String },
    Unknown { record: Record, id: String },
    EmptyId { record: Record },
    UnresolvedDimensions(String),
    AffineDimensionMismatch { point: String, difference: String },
    NestedAffineSpace { point: String, difference: String },
    ZeroScale { unit: String },
    NonFiniteConversion { unit: String },
    IncompatibleReference { unit: String, reference: String, kind: String },
    NonIdentityReference { unit: String, reference: String },
    InvalidMinimum { kind: String },
    InvalidDimensionlessKind(String),
    ConflictingOperationRule { left: String, op: ProductOp, right: String },
    InvalidOperationRule {
        left: String,
        op: ProductOp,
        right: String,
        result: String,
        dimensions: Dimensions,
        grade: Grade,
    },
    DerivedOperationRule {
        left: String,
        op: ProductOp,
        right: String,
        result: String,
        derived: String,
    },
    CommutativeQuotient { left: String, right: String },
    UngradedOperationRule {
        left: String,
        op: ProductOp,
        right: String,
        left_grade: Grade,
        right_grade: Grade,
    },
    PointOperationRule { left: String, op: ProductOp, right: String, point: String },
    InvalidTimeKind(String),
    InvalidRate { rate: String, of: String, fault: RateFault },
    QudvDocument(Shared<serde_yaml::Error>),
    EmptySourceHash,
    NonMonomialScale { unit: String },
    MixedApproximateSum { unit: String },
    ProvenanceEncoding(Shared<serde_json::Error>),
}

/// A `CatalogError` with its identifiers as text, its dimensions as maps and
/// a parser's report left out.
pub enum CatalogErrorView {
    Schema { expected: u32, actual: u32 },
    Json,
    Yaml,
    Duplicate { record: Record, id: Seq<char> },
    Unknown { record: Record, id: Seq<char> },
    EmptyId { record: Record },
    UnresolvedDimensions(Seq<char>),
    AffineDimensionMismatch { point: Seq<char>, difference: Seq<char> },
    NestedAffineSpace { point: Seq<char>, difference: Seq<char> },
    ZeroScale { unit: Seq<char> },
    NonFiniteConversion { unit: Seq<char> },
    IncompatibleReference { unit: Seq<char>, reference: Seq<char>, kind: Seq<char> },
    NonIdentityReference { unit: Seq<char>, reference: Seq<char> },
    InvalidMinimum { kind: Seq<char> },
    InvalidDimensionlessKind(Seq<char>),
    ConflictingOperationRule { left: Seq<char>, op: ProductOp, right: Seq<char> },
    InvalidOperationRule {
        left: Seq<char>,
        op: ProductOp,
        right: Seq<char>,
        result: Seq<char>,
        dimensions: DimMap,
        grade: Grade,
    },
    DerivedOperationRule {
        left: Seq<char>,
        op: ProductOp,
        right: Seq<char>,
        result: Seq<char>,
        derived: Seq<char>,
    },
    CommutativeQuotient { left: Seq<char>, right: Seq<char> },
    UngradedOperationRule {
        left: Seq<char>,
        op: ProductOp,
        right: Seq<char>,
        left_grade: Grade,
        right_grade: Grade,
    },
    PointOperationRule { left: Seq<char>, op: ProductOp, right: Seq<char>, point: Seq<char> },
    InvalidTimeKind(Seq<char>),
    InvalidRate { rate: Seq<char>, of: Seq<char>, fault: RateFaultView },
    QudvDocument,
    EmptySourceHash,
    NonMonomialScale { unit: Seq<char> },
    MixedApproximateSum { unit: Seq<char> },
    ProvenanceEncoding,
}

impl View for CatalogError {
    type V = CatalogErrorView;

    open spec fn view(&self) -> CatalogErrorView {
        match self {
            CatalogError::Schema { expected, actual } => CatalogErrorView::Schema {
                expected: *expected,
                actual: *actual,
            },
            CatalogError::Json(_) => CatalogErrorView::Json,
            CatalogError::Yaml(_) => CatalogErrorView::Yaml,
            CatalogError::Duplicate { record, id } => CatalogErrorView::Duplicate {
                record: *record,
                id: id@,
            },
            CatalogError::Unknown { record, id } => CatalogErrorView::Unknown {
                record: *record,
                id: id@,
            },
            CatalogError::EmptyId { record } => CatalogErrorView::EmptyId { record: *record },
            CatalogError::UnresolvedDimensions(k) => CatalogErrorView::UnresolvedDimensions(k@),
            CatalogError::AffineDimensionMismatch { point, difference } =>
                CatalogErrorView::AffineDimensionMismatch { point: point@, difference: difference@ },
            CatalogError::NestedAffineSpace { point, difference } =>
                CatalogErrorView::NestedAffineSpace { point: point@, difference: difference@ },
            CatalogError::ZeroScale { unit } => CatalogErrorView::ZeroScale { unit: unit@ },
            CatalogError::NonFiniteConversion { unit } => CatalogErrorView::NonFiniteConversion {
                unit: unit@,
            },
            CatalogError::IncompatibleReference { unit, reference, kind } =>
                CatalogErrorView::IncompatibleReference {
                unit: unit@,
                reference: reference@,
                kind: kind@,
            },
            CatalogError::NonIdentityReference { unit, reference } =>
                CatalogErrorView::NonIdentityReference { unit: unit@, reference: reference@ },
            CatalogError::InvalidMinimum { kind } => CatalogErrorView::InvalidMinimum {
                kind: kind@,
            },
            CatalogError::InvalidDimensionlessKind(k) => CatalogErrorView::InvalidDimensionlessKind(
                k@,
            ),
            CatalogError::ConflictingOperationRule { left, op, right } =>
                CatalogErrorView::ConflictingOperationRule { left: left@, op: *op, right: right@ },
            CatalogError::InvalidOperationRule { left, op, right, result, dimensions, grade } =>
                CatalogErrorView::InvalidOperationRule {
                left: left@,
                op: *op,
                right: right@,
                result: result@,
                dimensions: dimensions@,
                grade: *grade,
            },
            CatalogError::DerivedOperationRule { left, op, right, result, derived } =>
                CatalogErrorView::DerivedOperationRule {
                left: left@,
                op: *op,
                right: right@,
                result: result@,
                derived: derived@,
            },
            CatalogError::CommutativeQuotient { left, right } =>
                CatalogErrorView::CommutativeQuotient { left: left@, right: right@ },
            CatalogError::UngradedOperationRule { left, op, right, left_grade, right_grade } =>
                CatalogErrorView::UngradedOperationRule {
                left: left@,
                op: *op,
                right: right@,
                left_grade: *left_grade,
                right_grade: *right_grade,
            },
            CatalogError::PointOperationRule { left, op, right, point } =>
                CatalogErrorView::PointOperationRule {
                left: left@,
                op: *op,
                right: right@,
                point: point@,
            },
            CatalogError::InvalidTimeKind(k) => CatalogErrorView::InvalidTimeKind(k@),
            CatalogError::InvalidRate { rate, of, fault } => CatalogErrorView::InvalidRate {
                rate: rate@,
                of: of@,
                fault: fault@,
            },
            CatalogError::QudvDocument(_) => CatalogErrorView::QudvDocument,
            CatalogError::EmptySourceHash => CatalogErrorView::EmptySourceHash,
            CatalogError::NonMonomialScale { unit } => CatalogErrorView::NonMonomialScale {
                unit: unit@,
            },
            CatalogError::MixedApproximateSum { unit } => CatalogErrorView::MixedApproximateSum {
                unit: unit@,
            },
            CatalogError::ProvenanceEncoding(_) => CatalogErrorView::ProvenanceEncoding,
        }
    }
}

/// Why an operation on a compiled registry's kinds, units or quantities was
/// refused.
#[derive(Clone, Debug, PartialEq, Eq)]
pub enum QuantityError {
    Unknown { record: Record, id: String },
    UnresolvedDimensions(String),
    UnresolvedConversion { unit: String },
    ApproximateConversion { unit: String },
    MissingCoherentScale { unit: String },
    NoCanonicalUnit { kind: String },
    RegistryMismatch,
    KindMismatch { expected: String, actual: String },
    UnsupportedOperation { operation: Operation, left: String, right: Option<String> },
    OffsetOnLinearKind { unit: String, kind: String },
    BelowMinimum { kind: String, unit: String, minimum: ExactScalar, value: ExactScalar },
    UnitKindMismatch { unit: String, kind: String },
    AmbiguousKind(String),
    AmbiguousUnit(String),
    NoProductKind {
        left: String,
        op: ProductOp,
        right: String,
        dimensions: Dimensions,
        grade: Grade,
    },
    UngradedProduct {
        left: String,
        op: ProductOp,
        right: String,
        left_grade: Grade,
        right_grade: Grade,
    },
    UnresolvedTwin { left: String, op: ProductOp, right: String, twins: Vec<String> },
    NonFiniteInput,
    NumericalFailure,
    DivisionByZero,
    DisconnectedConversion,
}

/// A `QuantityError` with its identifiers as text and its numbers as models.
pub enum QuantityErrorView {
    Unknown { record: Record, id: Seq<char> },
    UnresolvedDimensions(Seq<char>),
    UnresolvedConversion { unit: Seq<char> },
    ApproximateConversion { unit: Seq<char> },
    MissingCoherentScale { unit: Seq<char> },
    NoCanonicalUnit { kind: Seq<char> },
    RegistryMismatch,
    KindMismatch { expected: Seq<char>, actual: Seq<char> },
    UnsupportedOperation { operation: Operation, left: Seq<char>, right: Option<Seq<char>> },
    OffsetOnLinearKind { unit: Seq<char>, kind: Seq<char> },
    BelowMinimum { kind: Seq<char>, unit: Seq<char>, minimum: ScalarModel, value: ScalarModel },
    UnitKindMismatch { unit: Seq<char>, kind: Seq<char> },
    AmbiguousKind(Seq<char>),
    AmbiguousUnit(Seq<char>),
    NoProductKind {
        left: Seq<char>,
        op: ProductOp,
        right: Seq<char>,
        dimensions: DimMap,
        grade: Grade,
    },
    UngradedProduct {
        left: Seq<char>,
        op: ProductOp,
        right: Seq<char>,
        left_grade: Grade,
        right_grade: Grade,
    },
    UnresolvedTwin { left: Seq<char>, op: ProductOp, right: Seq<char>, twins: Seq<Seq<char>> },
    NonFiniteInput,
    NumericalFailure,
    DivisionByZero,
    DisconnectedConversion,
}

/// The texts of a sequence of strings.
pub open spec fn texts(s: Seq<String>) -> Seq<Seq<char>> {
    s.map_values(|t: String| t@)
}

impl View for QuantityError {
    type V = QuantityErrorView;

    open spec fn view(&self) -> QuantityErrorView {
        match self {
            QuantityError::Unknown { record, id } => QuantityErrorView::Unknown {
                record: *record,
                id: id@,
            },
            QuantityError::UnresolvedDimensions(k) => QuantityErrorView::UnresolvedDimensions(k@),
            QuantityError::UnresolvedConversion { unit } =>
                QuantityErrorView::UnresolvedConversion { unit: unit@ },
            QuantityError::ApproximateConversion { unit } =>
                QuantityErrorView::ApproximateConversion { unit: unit@ },
            QuantityError::MissingCoherentScale { unit } =>
                QuantityErrorView::MissingCoherentScale { unit: unit@ },
            QuantityError::NoCanonicalUnit { kind } => QuantityErrorView::NoCanonicalUnit {
                kind: kind@,
            },
            QuantityError::RegistryMismatch => QuantityErrorView::RegistryMismatch,
            QuantityError::KindMismatch { expected, actual } => QuantityErrorView::KindMismatch {
                expected: expected@,
                actual: actual@,
            },
            QuantityError::UnsupportedOperation { operation, left, right } =>
                QuantityErrorView::UnsupportedOperation {
                operation: *operation,
                left: left@,
                right: match right {
                    Some(r) => Some(r@),
                    None => None,
                },
            },
            QuantityError::OffsetOnLinearKind { unit, kind } =>
                QuantityErrorView::OffsetOnLinearKind { unit: unit@, kind: kind@ },
            QuantityError::BelowMinimum { kind, unit, minimum, value } =>
                QuantityErrorView::BelowMinimum {
                kind: kind@,
                unit: unit@,
                minimum: minimum@,
                value: value@,
            },
            QuantityError::UnitKindMismatch { unit, kind } =>
                QuantityErrorView::UnitKindMismatch { unit: unit@, kind: kind@ },
            QuantityError::AmbiguousKind(s) => QuantityErrorView::AmbiguousKind(s@),
            QuantityError::AmbiguousUnit(s) => QuantityErrorView::AmbiguousUnit(s@),
            QuantityError::NoProductKind { left, op, right, dimensions, grade } =>
                QuantityErrorView::NoProductKind {
                left: left@,
                op: *op,
                right: right@,
                dimensions: dimensions@,
                grade: *grade,
            },
            QuantityError::UngradedProduct { left, op, right, left_grade, right_grade } =>
                QuantityErrorView::UngradedProduct {
                left: left@,
                op: *op,
                right: right@,
                left_grade: *left_grade,
                right_grade: *right_grade,
            },
            QuantityError::UnresolvedTwin { left, op, right, twins } =>
                QuantityErrorView::UnresolvedTwin {
                left: left@,
                op: *op,
                right: right@,
                twins: texts(twins@),
            },
            QuantityError::NonFiniteInput => QuantityErrorView::NonFiniteInput,
            QuantityError::NumericalFailure => QuantityErrorView::NumericalFailure,
            QuantityError::DivisionByZero => QuantityErrorView::DivisionByZero,
            QuantityError::DisconnectedConversion => QuantityErrorView::DisconnectedConversion,
        }
    }
}

// ---------------------------------------------------------------------------
// Tags.
/// The tag that names a catalog fault to other languages.
pub open spec fn catalog_tag(e: CatalogErrorView) -> Seq<char> {
    match e {
        CatalogErrorView::Schema { .. } => "schema"@,
        CatalogErrorView::Json => "invalid_catalog"@,
        CatalogErrorView::Yaml => "invalid_catalog"@,
        CatalogErrorView::Duplicate { .. } => "duplicate"@,
        CatalogErrorView::Unknown { .. } => "unknown"@,
        CatalogErrorView::EmptyId { .. } => "empty_id"@,
        CatalogErrorView::UnresolvedDimensions(_) => "unresolved_dimensions"@,
        CatalogErrorView::AffineDimensionMismatch { .. } => "affine_dimension_mismatch"@,
        CatalogErrorView::NestedAffineSpace { .. } => "nested_affine_space"@,
        CatalogErrorView::ZeroScale { .. } => "zero_scale"@,
        CatalogErrorView::NonFiniteConversion { .. } => "nonfinite_conversion"@,
        CatalogErrorView::IncompatibleReference { .. } => "incompatible_reference"@,
        CatalogErrorView::NonIdentityReference { .. } => "non_identity_reference"@,
        CatalogErrorView::InvalidMinimum { .. } => "invalid_minimum"@,
        CatalogErrorView::InvalidDimensionlessKind(_) => "invalid_dimensionless_kind"@,
        CatalogErrorView::ConflictingOperationRule { .. } => "duplicate_rule"@,
        CatalogErrorView::InvalidOperationRule { .. } => "invalid_dimensions"@,
        CatalogErrorView::DerivedOperationRule { .. } => "derived_rule"@,
        CatalogErrorView::CommutativeQuotient { .. } => "commutative_quotient"@,
        CatalogErrorView::UngradedOperationRule { .. } => "ungraded_rule"@,
        CatalogErrorView::PointOperationRule { .. } => "point_rule"@,
        CatalogErrorView::InvalidTimeKind(_) => "invalid_time_kind"@,
        CatalogErrorView::InvalidRate { .. } => "invalid_rate"@,
        CatalogErrorView::QudvDocument => "invalid_qudv_document"@,
        CatalogErrorView::EmptySourceHash => "empty_source_hash"@,
        CatalogErrorView::NonMonomialScale { .. } => "non_monomial_scale"@,
        CatalogErrorView::MixedApproximateSum { .. } => "mixed_approximate_sum"@,
        CatalogErrorView::ProvenanceEncoding => "provenance_encoding"@,
    }
}

impl CatalogError {
    /// The tag that names this fault to other languages.
    pub fn tag(&self) -> (r: &'static str)
        ensures
            r@ == catalog_tag(self@),
    {
        proof {
            reveal_strlit("affine_dimension_mismatch");
            reveal_strlit("commutative_quotient");
            reveal_strlit("derived_rule");
            reveal_strlit("duplicate");
            reveal_strlit("duplicate_rule");
            reveal_strlit("empty_id");
            reveal_strlit("empty_source_hash");
            reveal_strlit("incompatible_reference");
            reveal_strlit("invalid_catalog");
            reveal_strlit("invalid_dimensionless_kind");
            reveal_strlit("invalid_dimensions");
            reveal_strlit("invalid_minimum");
            reveal_strlit("invalid_qudv_document");
            reveal_strlit("invalid_rate");
            reveal_strlit("invalid_time_kind");
            reveal_strlit("mixed_approximate_sum");
            reveal_strlit("nested_affine_space");
            reveal_strlit("non_identity_reference");
            reveal_strlit("non_monomial_scale");
            reveal_strlit("nonfinite_conversion");
            reveal_strlit("point_rule");
            reveal_strlit("provenance_encoding");
            reveal_strlit("schema");
            reveal_strlit("ungraded_rule");
            reveal_strlit("unknown");
            reveal_strlit("unresolved_dimensions");
            reveal_strlit("zero_scale");
        }
        match self {
            CatalogError::Schema { .. } => "schema",
            CatalogError::Json(_) => "invalid_catalog",
            CatalogError::Yaml(_) => "invalid_catalog",
            CatalogError::Duplicate { .. } => "duplicate",
            CatalogError::Unknown { .. } => "unknown",
            CatalogError::EmptyId { .. } => "empty_id",
            CatalogError::UnresolvedDimensions(_) => "unresolved_dimensions",
            CatalogError::AffineDimensionMismatch { .. } => "affine_dimension_mismatch",
            CatalogError::NestedAffineSpace { .. } => "nested_affine_space",
            CatalogError::ZeroScale { .. } => "zero_scale",
            CatalogError::NonFiniteConversion { .. } => "nonfinite_conversion",
            CatalogError::IncompatibleReference { .. } => "incompatible_reference",
            CatalogError::NonIdentityReference { .. } => "non_identity_reference",
            CatalogError::InvalidMinimum { .. } => "invalid_minimum",
            CatalogError::InvalidDimensionlessKind(_) => "invalid_dimensionless_kind",
            CatalogError::ConflictingOperationRule { .. } => "duplicate_rule",
            CatalogError::InvalidOperationRule { .. } => "invalid_dimensions",
            CatalogError::DerivedOperationRule { .. } => "derived_rule",
            CatalogError::CommutativeQuotient { .. } => "commutative_quotient",
            CatalogError::UngradedOperationRule { .. } => "ungraded_rule",
            CatalogError::PointOperationRule { .. } => "point_rule",
            CatalogError::InvalidTimeKind(_) => "invalid_time_kind",
            CatalogError::InvalidRate { .. } => "invalid_rate",
            CatalogError::QudvDocument(_) => "invalid_qudv_document",
            CatalogError::EmptySourceHash => "empty_source_hash",
            CatalogError::NonMonomialScale { .. } => "non_monomial_scale",
            CatalogError::MixedApproximateSum { .. } => "mixed_approximate_sum",
            CatalogError::ProvenanceEncoding(_) => "provenance_encoding",
        }
    }
}

/// The tag that names a refused operation to other languages.
pub open spec fn quantity_tag(e: QuantityErrorView) -> Seq<char> {
    match e {
        QuantityErrorView::Unknown { .. } => "unknown"@,
        QuantityErrorView::UnresolvedDimensions(_) => "unresolved_dimensions"@,
        QuantityErrorView::UnresolvedConversion { .. } => "unresolved_conversion"@,
        QuantityErrorView::ApproximateConversion { .. } => "approximate_conversion"@,
        QuantityErrorView::MissingCoherentScale { .. } => "missing_coherent_scale"@,
        QuantityErrorView::NoCanonicalUnit { .. } => "no_canonical_unit"@,
        QuantityErrorView::RegistryMismatch => "registry_mismatch"@,
        QuantityErrorView::KindMismatch { .. } => "kind_mismatch"@,
        QuantityErrorView::UnsupportedOperation { .. } => "unsupported_operation"@,
        QuantityErrorView::OffsetOnLinearKind { .. } => "offset_on_linear_kind"@,
        QuantityErrorView::BelowMinimum { .. } => "below_minimum"@,
        QuantityErrorView::UnitKindMismatch { .. } => "unit_kind_mismatch"@,
        QuantityErrorView::AmbiguousKind(_) => "ambiguous_kind"@,
        QuantityErrorView::AmbiguousUnit(_) => "ambiguous_unit"@,
        QuantityErrorView::NoProductKind { .. } => "no_product_kind"@,
        QuantityErrorView::UngradedProduct { .. } => "ungraded_product"@,
        QuantityErrorView::UnresolvedTwin { .. } => "unresolved_twin"@,
        QuantityErrorView::NonFiniteInput => "nonfinite_input"@,
        QuantityErrorView::NumericalFailure => "numerical_failure"@,
        QuantityErrorView::DivisionByZero => "division_by_zero"@,
        QuantityErrorView::DisconnectedConversion => "disconnected_conversion"@,
    }
}

impl QuantityError {
    /// The tag that names this fault to other languages.
    pub fn tag(&self) -> (r: &'static str)
        ensures
            r@ == quantity_tag(self@),
    {
        proof {
            reveal_strlit("ambiguous_kind");
            reveal_strlit("ambiguous_unit");
            reveal_strlit("approximate_conversion");
            reveal_strlit("below_minimum");
            reveal_strlit("disconnected_conversion");
            reveal_strlit("division_by_zero");
            reveal_strlit("kind_mismatch");
            reveal_strlit("missing_coherent_scale");
            reveal_strlit("no_canonical_unit");
            reveal_strlit("no_product_kind");
            reveal_strlit("nonfinite_input");
            reveal_strlit("numerical_failure");
            reveal_strlit("offset_on_linear_kind");
            reveal_strlit("registry_mismatch");
            reveal_strlit("ungraded_product");
            reveal_strlit("unit_kind_mismatch");
            reveal_strlit("unknown");
            reveal_strlit("unresolved_conversion");
            reveal_strlit("unresolved_dimensions");
            reveal_strlit("unresolved_twin");
            reveal_strlit("unsupported_operation");
        }
        match self {
            QuantityError::Unknown { .. } => "unknown",
            QuantityError::UnresolvedDimensions(_) => "unresolved_dimensions",
            QuantityError::UnresolvedConversion { .. } => "unresolved_conversion",
            QuantityError::ApproximateConversion { .. } => "approximate_conversion",
            QuantityError::MissingCoherentScale { .. } => "missing_coherent_scale",
            QuantityError::NoCanonicalUnit { .. } => "no_canonical_unit",
            QuantityError::RegistryMismatch => "registry_mismatch",
            QuantityError::KindMismatch { .. } => "kind_mismatch",
            QuantityError::UnsupportedOperation { .. } => "unsupported_operation",
            QuantityError::OffsetOnLinearKind { .. } => "offset_on_linear_kind",
            QuantityError::BelowMinimum { .. } => "below_minimum",
            QuantityError::UnitKindMismatch { .. } => "unit_kind_mismatch",
            QuantityError::AmbiguousKind(_) => "ambiguous_kind",
            QuantityError::AmbiguousUnit(_) => "ambiguous_unit",
            QuantityError::NoProductKind { .. } => "no_product_kind",
            QuantityError::UngradedProduct { .. } => "ungraded_product",
            QuantityError::UnresolvedTwin { .. } => "unresolved_twin",
            QuantityError::NonFiniteInput => "nonfinite_input",
            QuantityError::NumericalFailure => "numerical_failure",
            QuantityError::DivisionByZero => "division_by_zero",
            QuantityError::DisconnectedConversion => "disconnected_conversion",
        }
    }
}

/// The tag that names why a rate is refused.
pub open spec fn rate_fault_tag(e: RateFaultView) -> Seq<char> {
    match e {
        RateFaultView::NoTimeKind => "no_time_kind"@,
        RateFaultView::PointKind(_) => "point_kind"@,
        RateFaultView::Mismatch { .. } => "mismatch"@,
        RateFaultView::AlsoRateOf(_) => "also_rate_of"@,
    }
}

impl RateFault {
    /// The tag that names this fault to other languages.
    pub fn tag(&self) -> (r: &'static str)
        ensures
            r@ == rate_fault_tag(self@),
    {
        proof {
            reveal_strlit("also_rate_of");
            reveal_strlit("mismatch");
            reveal_strlit("no_time_kind");
            reveal_strlit("point_kind");
        }
        match self {
            RateFault::NoTimeKind => "no_time_kind",
            RateFault::PointKind(_) => "point_kind",
            RateFault::Mismatch { .. } => "mismatch",
            RateFault::AlsoRateOf(_) => "also_rate_of",
        }
    }
}

} // verus!
