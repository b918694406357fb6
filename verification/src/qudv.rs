//! Adapting a source-preserving QUDV schema-2 document to a catalog, without
//! inferring aliases, kinds, or operations. Every imported identifier is
//! scoped by the source's hash.
use crate::catalog::{
    Catalog, CatalogView, Conversion, ConversionView, KindDecl, KindDeclView, Magnitude,
    MagnitudeView, UnitDecl, UnitDeclView, CATALOG_SCHEMA,
};
use crate::search::{first_some, lemma_first_some_prefix, lemma_first_some_step};
use crate::dimension::{DimMap, Dimensions};
use crate::error::{texts, CatalogError, CatalogErrorView, Shared};
use crate::grade::Grade;
use crate::registry::opt_dims;
use crate::scalar::{
    terms_value, value_add, value_terms, ExactScalar, ExactValue, ScalarModel, ValueMap,
};
use crate::strings::string_push_str;
use vstd::prelude::*;

verus! {

/// An exact magnitude as the document writes it: one term, a sum of
/// records, or an approximation (the bits of its binary64 value).
pub enum ExactRecord {
    Term { rational: ExactScalar, pi_exponent: i32 },
    Sum { sum: Vec<ExactRecord> },
    Approximate { approximate: u64 },
}

/// A unit's conversion as the document writes it.
pub struct QudvConversion {
    pub reference_unit: String,
    pub scale: ExactRecord,
    pub offset: ExactRecord,
}

/// A resolved unit as the document writes it.
pub struct QudvUnit {
    pub name: String,
    /// An empty symbol is the producer's older spelling of an absent one.
    pub symbol: Option<String>,
    pub quantity_kinds: Vec<String>,
    pub si_factor: Option<ExactRecord>,
    pub conversion: Option<QudvConversion>,
}

/// The parts of a schema-2 document the adapter reads: the resolved kinds
/// and units in increasing order of their identifiers, and the applied
/// corrections already encoded as JSON text (or the encoder's refusal).
pub struct QudvDocument {
    pub schema_version: u32,
    pub sha256: String,
    pub format: String,
    pub kinds: Vec<(String, Option<Dimensions>)>,
    pub units: Vec<(String, QudvUnit)>,
    pub applied_corrections: Result<String, Shared<serde_json::Error>>,
}

/// What a record amounts to: an exact value, an approximation, or a sum that
/// mixes approximate and exact terms.
pub enum RecordValue {
    Exact(ValueMap),
    Approximate(u64),
    Mixed,
}

/// The value of a record.
pub open spec fn record_value(r: ExactRecord) -> RecordValue
    decreases r,
{
    match r {
        ExactRecord::Term { rational, pi_exponent } => RecordValue::Exact(
            terms_value(seq![(rational@.0, rational@.1 + pi_exponent)]),
        ),
        ExactRecord::Sum { sum } => sum_value(sum@),
        ExactRecord::Approximate { approximate } => RecordValue::Approximate(approximate),
    }
}

/// The value of a sum of records; an approximate term anywhere mixes it.
pub open spec fn sum_value(s: Seq<ExactRecord>) -> RecordValue
    decreases s,
{
    if s.len() == 0 {
        RecordValue::Exact(ValueMap::empty())
    } else {
        match sum_value(s.drop_last()) {
            RecordValue::Exact(t) => match record_value(s.last()) {
                RecordValue::Exact(v) => RecordValue::Exact(value_add(t, v)),
                _ => RecordValue::Mixed,
            },
            _ => RecordValue::Mixed,
        }
    }
}

/// Once a prefix of a sum is mixed, the whole sum is.
proof fn lemma_sum_mixed(s: Seq<ExactRecord>, n: int)
    requires
        0 <= n <= s.len(),
        !(sum_value(s.take(n)) is Exact),
    ensures
        sum_value(s) is Mixed,
    decreases s.len(),
{
    if n == s.len() {
        assert(s.take(n) =~= s);
        if s.len() > 0 {
            assert(sum_value(s) is Mixed);
        }
    } else {
        assert(s.drop_last().take(n) =~= s.take(n));
        lemma_sum_mixed(s.drop_last(), n);
    }
}

/// A record's value as a magnitude; a sum that mixes approximate and exact
/// terms is refused for the named unit.
fn magnitude(record: &ExactRecord, unit: &str) -> (r: Result<Magnitude<ExactValue>, CatalogError>)
    ensures
        match record_value(*record) {
            RecordValue::Exact(v) => r matches Ok(Magnitude::Exact(x)) && x@ == v,
            RecordValue::Approximate(b) => r matches Ok(Magnitude::Approximate(c)) && c == b,
            RecordValue::Mixed => r matches Err(e) && e@ == (CatalogErrorView::MixedApproximateSum {
                unit: unit@,
            }),
        },
    decreases record,
{
    match record {
        ExactRecord::Term { rational, pi_exponent } => {
            let exponent = crate::bignum::integer_add(
                &rational.pi_exponent,
                &crate::bignum::integer_from_i64(*pi_exponent as i64),
            );
            let scalar = ExactScalar {
                rational: crate::bignum::rational_clone(&rational.rational),
                pi_exponent: exponent,
            };
            Ok(Magnitude::Exact(ExactValue::from_scalar(scalar)))
        },
        ExactRecord::Sum { sum } => {
            let mut total = ExactValue::zero();
            let n = sum.len();
            assert(sum@.take(0) =~= Seq::<ExactRecord>::empty());
            for i in 0..n
                invariant
                    n == sum.len(),
                    *record == (ExactRecord::Sum { sum: *sum }),
                    sum_value(sum@.take(i as int)) == RecordValue::Exact(total@),
            {
                assert(sum@.take(i + 1).drop_last() =~= sum@.take(i as int));
                assert(sum@.take(i + 1).last() == sum@[i as int]);
                match magnitude(&sum[i], unit) {
                    Ok(Magnitude::Exact(v)) => {
                        total = total.add(&v);
                    },
                    Ok(Magnitude::Approximate(_)) => {
                        proof {
                            lemma_sum_mixed(sum@, i + 1);
                        }
                        return Err(CatalogError::MixedApproximateSum { unit: unit.to_owned() });
                    },
                    Err(e) => {
                        proof {
                            lemma_sum_mixed(sum@, i + 1);
                        }
                        return Err(e);
                    },
                }
            }
            assert(sum@.take(n as int) =~= sum@);
            Ok(Magnitude::Exact(total))
        },
        ExactRecord::Approximate { approximate } => Ok(Magnitude::Approximate(*approximate)),
    }
}

/// An identifier of the source, scoped by its hash.
pub open spec fn scope(sha: Seq<char>, id: Seq<char>) -> Seq<char> {
    "qudv:"@ + sha + ":"@ + id
}

/// The one term of a value, where it has exactly one.
pub open spec fn monomial_of(v: ValueMap) -> Option<ScalarModel> {
    if value_terms(v).len() == 1 {
        Some(value_terms(v)[0])
    } else {
        None
    }
}

/// The coherent scale of unit `i`: the one term of its exact SI factor.
pub open spec fn coherent_spec(d: QudvDocument, i: int) -> Result<Option<ScalarModel>, CatalogErrorView> {
    let (id, u) = d.units@[i];
    match u.si_factor {
        None => Ok(None),
        Some(r) => match record_value(r) {
            RecordValue::Mixed => Err(CatalogErrorView::MixedApproximateSum { unit: id@ }),
            RecordValue::Exact(v) => Ok(monomial_of(v)),
            RecordValue::Approximate(_) => Ok(None),
        },
    }
}

/// The conversion of unit `i`: its scale must be a single term.
pub open spec fn conversion_spec(d: QudvDocument, i: int) -> Result<Option<ConversionView>, CatalogErrorView> {
    let (id, u) = d.units@[i];
    match u.conversion {
        None => Ok(None),
        Some(c) => {
            let scale = match record_value(c.scale) {
                RecordValue::Mixed => Err(CatalogErrorView::MixedApproximateSum { unit: id@ }),
                RecordValue::Exact(v) => match monomial_of(v) {
                    Some(x) => Ok(MagnitudeView::Exact(x)),
                    None => Err(CatalogErrorView::NonMonomialScale { unit: id@ }),
                },
                RecordValue::Approximate(b) => Ok(MagnitudeView::Approximate(b)),
            };
            let offset = match record_value(c.offset) {
                RecordValue::Mixed => Err(CatalogErrorView::MixedApproximateSum { unit: id@ }),
                RecordValue::Exact(v) => Ok(MagnitudeView::Exact(v)),
                RecordValue::Approximate(b) => Ok(MagnitudeView::Approximate(b)),
            };
            match (scale, offset) {
                (Err(e), _) => Err(e),
                (_, Err(e)) => Err(e),
                (Ok(s), Ok(o)) => Ok(
                    Some(
                        ConversionView {
                            reference_unit: scope(d.sha256@, c.reference_unit@),
                            scale: s,
                            offset: o,
                        },
                    ),
                ),
            }
        },
    }
}

/// Unit `i` adapted: scoped identifiers, the symbol (or the name where the
/// symbol is absent or empty), the conversion and the coherent scale.
pub open spec fn unit_spec(d: QudvDocument, i: int) -> Result<UnitDeclView, CatalogErrorView> {
    let (id, u) = d.units@[i];
    match (coherent_spec(d, i), conversion_spec(d, i)) {
        (Err(e), _) => Err(e),
        (_, Err(e)) => Err(e),
        (Ok(cs), Ok(cv)) => Ok(
            UnitDeclView {
                id: scope(d.sha256@, id@),
                symbol: match u.symbol {
                    Some(s) => if s@.len() > 0 {
                        s@
                    } else {
                        u.name@
                    },
                    None => u.name@,
                },
                kinds: texts(u.quantity_kinds@).map_values(|k: Seq<char>| scope(d.sha256@, k)),
                conversion: cv,
                coherent_scale: cs,
            },
        ),
    }
}

pub open spec fn unit_faults(d: QudvDocument) -> spec_fn(int) -> Option<CatalogErrorView> {
    |i: int|
        match unit_spec(d, i) {
            Err(e) => Some(e),
            Ok(_) => None,
        }
}

/// Kind `i` adapted: a scalar kind with a scoped identifier and the
/// dimensions the source resolved, or none.
pub open spec fn kind_spec(d: QudvDocument, i: int) -> KindDeclView {
    KindDeclView {
        id: scope(d.sha256@, d.kinds@[i].0@),
        dimensions: opt_dims(d.kinds@[i].1),
        grade: Grade::Scalar,
        difference_kind: None,
        minimum: None,
        rate_of: None,
    }
}

/// The provenance an adapted catalog records, in increasing order of names.
pub open spec fn provenance_spec(d: QudvDocument, corrections: Seq<char>) -> Seq<(Seq<char>, Seq<char>)> {
    seq![("adapter"@, "qudv-iso80000/schema-2"@), ("applied_corrections"@, corrections)] + (if d.format@.len() > 0 {
        seq![("source_format"@, d.format@)]
    } else {
        Seq::empty()
    }) + seq![("source_sha256"@, d.sha256@)]
}

/// The catalog a schema-2 document adapts to: the schema and hash are
/// checked first, then each unit in order, then the corrections' encoding.
pub open spec fn qudv_catalog_spec(d: QudvDocument) -> Result<CatalogView, CatalogErrorView> {
    let nu = d.units@.len() as int;
    if d.schema_version != 2 {
        Err(CatalogErrorView::Schema { expected: 2, actual: d.schema_version })
    } else if d.sha256@.len() == 0 {
        Err(CatalogErrorView::EmptySourceHash)
    } else if first_some(nu, unit_faults(d)) is Some {
        Err(first_some(nu, unit_faults(d))->0)
    } else {
        match d.applied_corrections {
            Err(_) => Err(CatalogErrorView::ProvenanceEncoding),
            Ok(json) => Ok(
                CatalogView {
                    schema: CATALOG_SCHEMA,
                    provenance: provenance_spec(d, json@),
                    dimensionless: None,
                    time: None,
                    kinds: Seq::new(d.kinds@.len(), |i: int| kind_spec(d, i)),
                    units: Seq::new(d.units@.len(), |i: int| unit_spec(d, i)->Ok_0),
                    operations: 0,
                },
            ),
        }
    }
}

/// `qudv:<sha>:<id>`.
fn scoped(sha: &str, id: &str) -> (r: String)
    ensures
        r@ == scope(sha@, id@),
{
    proof {
        reveal_strlit("qudv:");
        reveal_strlit(":");
    }
    let mut r = "qudv:".to_owned();
    string_push_str(&mut r, sha);
    string_push_str(&mut r, ":");
    string_push_str(&mut r, id);
    r
}

/// Unit `i` of the document, adapted.
fn adapt_unit(d: &QudvDocument, i: usize) -> (r: Result<UnitDecl, CatalogError>)
    requires
        i < d.units.len(),
    ensures
        match (r, unit_spec(*d, i as int)) {
            (Ok(u), Ok(v)) => u@ == v,
            (Err(e), Err(v)) => e@ == v,
            _ => false,
        },
{
    let (id, unit) = &d.units[i];
    let sha = d.sha256.as_str();
    let coherent_scale = match &unit.si_factor {
        None => None,
        Some(record) => match magnitude(record, id.as_str()) {
            Ok(Magnitude::Exact(value)) => value.monomial(),
            Ok(Magnitude::Approximate(_)) => None,
            Err(e) => {
                return Err(e);
            },
        },
    };
    let conversion = match &unit.conversion {
        None => None,
        Some(c) => {
            let scale = match magnitude(&c.scale, id.as_str()) {
                Ok(Magnitude::Exact(value)) => match value.monomial() {
                    Some(x) => Magnitude::Exact(x),
                    None => {
                        return Err(CatalogError::NonMonomialScale { unit: id.clone() });
                    },
                },
                Ok(Magnitude::Approximate(b)) => Magnitude::Approximate(b),
                Err(e) => {
                    return Err(e);
                },
            };
            let offset = match magnitude(&c.offset, id.as_str()) {
                Ok(m) => m,
                Err(e) => {
                    return Err(e);
                },
            };
            Some(
                Conversion {
                    reference_unit: scoped(sha, c.reference_unit.as_str()),
                    scale,
                    offset,
                },
            )
        },
    };
    let symbol = match &unit.symbol {
        Some(s) => if s.as_str().is_empty() {
            unit.name.clone()
        } else {
            s.clone()
        },
        None => unit.name.clone(),
    };
    let mut kinds: Vec<String> = Vec::new();
    let n = unit.quantity_kinds.len();
    for j in 0..n
        invariant
            n == unit.quantity_kinds.len(),
            sha@ == d.sha256@,
            kinds.len() == j,
            texts(kinds@) == texts(unit.quantity_kinds@).map_values(|k: Seq<char>| scope(d.sha256@, k)).take(j as int),
    {
        kinds.push(scoped(sha, unit.quantity_kinds[j].as_str()));
        assert(texts(kinds@) =~= texts(unit.quantity_kinds@).map_values(|k: Seq<char>| scope(d.sha256@, k)).take(j + 1));
    }
    assert(texts(unit.quantity_kinds@).map_values(|k: Seq<char>| scope(d.sha256@, k)).take(n as int) =~= texts(unit.quantity_kinds@).map_values(|k: Seq<char>| scope(d.sha256@, k)));
    let u = UnitDecl { id: scoped(sha, id.as_str()), symbol, kinds, conversion, coherent_scale };
    Ok(u)
}

/// A source-preserving QUDV schema-2 document adapted to a catalog, without
/// inferring aliases, kinds, or operations.
pub fn qudv_catalog(d: &QudvDocument) -> (r: Result<Catalog, CatalogError>)
    ensures
        match (r, qudv_catalog_spec(*d)) {
            (Ok(c), Ok(v)) => c@ == v,
            (Err(e), Err(v)) => e@ == v,
            _ => false,
        },
{
    if d.schema_version != 2 {
        return Err(CatalogError::Schema { expected: 2, actual: d.schema_version });
    }
    if d.sha256.as_str().is_empty() {
        return Err(CatalogError::EmptySourceHash);
    }
    let sha = d.sha256.as_str();
    let nk = d.kinds.len();
    let mut kinds: Vec<KindDecl> = Vec::new();
    for i in 0..nk
        invariant
            nk == d.kinds.len(),
            sha@ == d.sha256@,
            kinds.len() == i,
            forall|j: int| 0 <= j < i ==> (#[trigger] kinds@[j])@ == kind_spec(*d, j),
    {
        let (id, dimensions) = &d.kinds[i];
        kinds.push(
            KindDecl {
                id: scoped(sha, id.as_str()),
                dimensions: match dimensions {
                    Some(x) => Some(x.clone()),
                    None => None,
                },
                grade: Grade::Scalar,
                difference_kind: None,
                minimum: None,
                rate_of: None,
            },
        );
    }
    let nu = d.units.len();
    let ghost f = unit_faults(*d);
    let mut units: Vec<UnitDecl> = Vec::new();
    for i in 0..nu
        invariant
            nu == d.units.len(),
            d.schema_version == 2,
            d.sha256@.len() > 0,
            f == unit_faults(*d),
            first_some(i as int, f) is None,
            units.len() == i,
            forall|j: int| 0 <= j < i ==> (unit_spec(*d, j) matches Ok(v) && (#[trigger] units@[j])@ == v),
    {
        proof {
            lemma_first_some_step(i as int, f);
        }
        match adapt_unit(d, i) {
            Ok(u) => {
                units.push(u);
            },
            Err(e) => {
                proof {
                    lemma_first_some_prefix(nu as int, i + 1, f);
                }
                return Err(e);
            },
        }
    }
    let corrections = match &d.applied_corrections {
        Ok(json) => json.clone(),
        Err(e) => {
            return Err(CatalogError::ProvenanceEncoding(e.clone()));
        },
    };
    proof {
        reveal_strlit("adapter");
        reveal_strlit("qudv-iso80000/schema-2");
        reveal_strlit("applied_corrections");
        reveal_strlit("source_format");
        reveal_strlit("source_sha256");
    }
    let mut provenance: Vec<(String, String)> = Vec::new();
    provenance.push(("adapter".to_owned(), "qudv-iso80000/schema-2".to_owned()));
    provenance.push(("applied_corrections".to_owned(), corrections));
    if !d.format.as_str().is_empty() {
        provenance.push(("source_format".to_owned(), d.format.clone()));
    }
    provenance.push(("source_sha256".to_owned(), d.sha256.clone()));
    let c = Catalog {
        schema: CATALOG_SCHEMA,
        provenance,
        dimensionless: None,
        time: None,
        kinds,
        units,
        operations: Vec::new(),
    };
    proof {
        assert(c@.kinds =~= Seq::new(d.kinds@.len(), |i: int| kind_spec(*d, i)));
        assert(c@.units =~= Seq::new(d.units@.len(), |i: int| unit_spec(*d, i)->Ok_0));
        assert(c@.provenance =~= provenance_spec(*d, corrections@));
    }
    Ok(c)
}

} // verus!
