//! A compiled catalog. `Registry::compile` checks a catalog's declarations and
//! resolves each kind's affine role, canonical unit, floor and rates; kinds
//! and units then become handles that carry their registry, so every
//! judgement about them is made here, once: which kinds combine and how, which
//! unit converts to which, and where a kind's values end.
use crate::catalog::{
    Op, bits_finite, bits_zero, is_finite_bits, is_zero_bits, unit_terminal, Catalog, KindDecl,
    Magnitude, ProductOp, UnitDecl,
};
use crate::dimension::{dims_mul, DimMap, Dimensions};
use crate::error::{texts, CatalogError, CatalogErrorView, Operation, QuantityError, QuantityErrorView, RateFault, RateFaultView, Record};
use crate::grade::Grade;
use crate::scalar::{scalar_div, scalar_mul, value_add, value_div_scalar, value_mul_scalar, value_sub, ExactScalar, ExactValue, ScalarModel, ValueMap};
use crate::strings::str_eq;
use crate::search::{
    first_index, first_some, first_where, index_in, lemma_first_some_none, lemma_first_some_none_all, lemma_first_some_prefix, lemma_first_some_step,
    lemma_first_where, lemma_first_where_at, lemma_first_where_none,
};
use vstd::prelude::*;

verus! {

/// How a kind takes part in additive arithmetic. It follows from the declared
/// affine spaces: a kind naming a `difference_kind` is a point kind, a kind
/// named as one is a difference kind, and every other kind is linear.
#[derive(Clone, Copy, Debug, PartialEq, Eq, Structural)]
pub enum AffineRole {
    Linear,
    Point,
    Difference,
}

/// A kind's least value, in one of its units.
#[derive(Clone, Debug)]
pub struct Minimum {
    pub declared: ExactScalar,
    pub unit: usize,
}

/// A kind as `compile` resolved it.
#[derive(Clone, Debug)]
pub struct CompiledKind {
    pub id: String,
    pub dimensions: Option<Dimensions>,
    pub grade: Grade,
    pub role: AffineRole,
    /// A point kind's declared difference kind.
    pub difference: Option<usize>,
    /// The first terminal unit declared for the kind.
    pub canonical: Option<usize>,
    /// The least value, in the canonical unit.
    pub minimum: Option<Minimum>,
    /// The kind this one is the rate of.
    pub rate_of: Option<usize>,
    /// The kind that is this one's rate.
    pub rate: Option<usize>,
}

/// A compiled kind with its identifier as text, its dimensions as a map and
/// its indices as integers.
pub struct CompiledKindView {
    pub id: Seq<char>,
    pub dimensions: Option<DimMap>,
    pub grade: Grade,
    pub role: AffineRole,
    pub difference: Option<int>,
    pub canonical: Option<int>,
    pub minimum: Option<(ScalarModel, int)>,
    pub rate_of: Option<int>,
    pub rate: Option<int>,
}

/// An optional index as an optional integer.
pub open spec fn opt_int(o: Option<usize>) -> Option<int> {
    match o {
        Some(i) => Some(i as int),
        None => None,
    }
}

/// Optional dimensions as an optional map.
pub open spec fn opt_dims(o: Option<Dimensions>) -> Option<DimMap> {
    match o {
        Some(d) => Some(d@),
        None => None,
    }
}

impl View for CompiledKind {
    type V = CompiledKindView;

    open spec fn view(&self) -> CompiledKindView {
        CompiledKindView {
            id: self.id@,
            dimensions: opt_dims(self.dimensions),
            grade: self.grade,
            role: self.role,
            difference: opt_int(self.difference),
            canonical: opt_int(self.canonical),
            minimum: match self.minimum {
                Some(m) => Some((m.declared@, m.unit as int)),
                None => None,
            },
            rate_of: opt_int(self.rate_of),
            rate: opt_int(self.rate),
        }
    }
}

// ---------------------------------------------------------------------------
// What a catalog declares, read as a specification.
/// The declared kind identifiers, in order.
pub open spec fn kind_ids(c: Catalog) -> Seq<Seq<char>> {
    c.kinds@.map_values(|k: KindDecl| k.id@)
}

/// The declared unit identifiers, in order.
pub open spec fn unit_ids(c: Catalog) -> Seq<Seq<char>> {
    c.units@.map_values(|u: UnitDecl| u.id@)
}

/// The kind an identifier names.
pub open spec fn kind_index(c: Catalog, id: Seq<char>) -> Option<int> {
    first_index(kind_ids(c), id)
}

/// The unit an identifier names.
pub open spec fn unit_index(c: Catalog, id: Seq<char>) -> Option<int> {
    first_index(unit_ids(c), id)
}

/// Kind `i`'s identifier is empty, or an earlier kind has it.
pub open spec fn kind_id_fault(c: Catalog, i: int) -> Option<CatalogErrorView> {
    let id = c.kinds@[i].id@;
    if id.len() == 0 {
        Some(CatalogErrorView::EmptyId { record: Record::Kind })
    } else if kind_index(c, id) != Some(i) {
        Some(CatalogErrorView::Duplicate { record: Record::Kind, id })
    } else {
        None
    }
}

/// The difference kind kind `i` declares, resolved.
pub open spec fn difference_of(c: Catalog, i: int) -> Option<int> {
    match c.kinds@[i].difference_kind {
        Some(d) => kind_index(c, d@),
        None => None,
    }
}

/// Kind `i` names an unknown difference kind, one of other dimensions, or a
/// point kind.
pub open spec fn difference_fault(c: Catalog, i: int) -> Option<CatalogErrorView> {
    match c.kinds@[i].difference_kind {
        None => None,
        Some(d) => match kind_index(c, d@) {
            None => Some(CatalogErrorView::Unknown { record: Record::Kind, id: d@ }),
            Some(t) => if opt_dims(c.kinds@[i].dimensions) != opt_dims(c.kinds@[t].dimensions) {
                Some(
                    CatalogErrorView::AffineDimensionMismatch {
                        point: c.kinds@[i].id@,
                        difference: d@,
                    },
                )
            } else if c.kinds@[t].difference_kind is Some {
                Some(
                    CatalogErrorView::NestedAffineSpace {
                        point: c.kinds@[i].id@,
                        difference: d@,
                    },
                )
            } else {
                None
            },
        },
    }
}

pub open spec fn kind_id_faults(c: Catalog) -> spec_fn(int) -> Option<CatalogErrorView> {
    |i: int| kind_id_fault(c, i)
}

pub open spec fn difference_faults(c: Catalog) -> spec_fn(int) -> Option<CatalogErrorView> {
    |i: int| difference_fault(c, i)
}

/// The first fault of the kind declarations: identifiers first, then affine
/// spaces.
pub open spec fn kinds_fault(c: Catalog) -> Option<CatalogErrorView> {
    let n = c.kinds@.len() as int;
    match first_some(n, kind_id_faults(c)) {
        Some(e) => Some(e),
        None => first_some(n, difference_faults(c)),
    }
}

/// Whether some kind names kind `i` as its difference kind.
pub open spec fn is_difference_kind(c: Catalog, i: int) -> bool {
    exists|j: int| 0 <= j < c.kinds@.len() && #[trigger] difference_of(c, j) == Some(i)
}

/// The affine role of kind `i`.
pub open spec fn role_of(c: Catalog, i: int) -> AffineRole {
    if c.kinds@[i].difference_kind is Some {
        AffineRole::Point
    } else if is_difference_kind(c, i) {
        AffineRole::Difference
    } else {
        AffineRole::Linear
    }
}

/// Kind `i` as its declaration and the affine spaces resolve it.
pub open spec fn resolved_kind(c: Catalog, i: int) -> CompiledKindView {
    CompiledKindView {
        id: c.kinds@[i].id@,
        dimensions: opt_dims(c.kinds@[i].dimensions),
        grade: c.kinds@[i].grade,
        role: role_of(c, i),
        difference: difference_of(c, i),
        canonical: None,
        minimum: None,
        rate_of: None,
        rate: None,
    }
}

// ---------------------------------------------------------------------------
// Compiling the kinds.
/// The declared kind identifiers.
fn declared_kind_ids(c: &Catalog) -> (r: Vec<String>)
    ensures
        texts(r@) == kind_ids(*c),
{
    let mut r: Vec<String> = Vec::new();
    let n = c.kinds.len();
    for i in 0..n
        invariant
            n == c.kinds.len(),
            r.len() == i,
            texts(r@) == kind_ids(*c).take(i as int),
    {
        r.push(c.kinds[i].id.clone());
        assert(r@[i as int]@ == c.kinds@[i as int].id@);
        assert(texts(r@) =~= kind_ids(*c).take(i + 1));
    }
    assert(kind_ids(*c).take(n as int) =~= kind_ids(*c));
    r
}

/// The declared unit identifiers.
fn declared_unit_ids(c: &Catalog) -> (r: Vec<String>)
    ensures
        texts(r@) == unit_ids(*c),
{
    let mut r: Vec<String> = Vec::new();
    let n = c.units.len();
    for i in 0..n
        invariant
            n == c.units.len(),
            r.len() == i,
            texts(r@) == unit_ids(*c).take(i as int),
    {
        r.push(c.units[i].id.clone());
        assert(r@[i as int]@ == c.units@[i as int].id@);
        assert(texts(r@) =~= unit_ids(*c).take(i + 1));
    }
    assert(unit_ids(*c).take(n as int) =~= unit_ids(*c));
    r
}

/// Whether two optional dimensions are equal.
fn same_dimensions(a: &Option<Dimensions>, b: &Option<Dimensions>) -> (r: bool)
    ensures
        r == (opt_dims(*a) == opt_dims(*b)),
{
    match (a, b) {
        (None, None) => true,
        (Some(x), Some(y)) => *x == *y,
        _ => false,
    }
}

/// Optional dimensions, copied.
fn clone_dimensions(a: &Option<Dimensions>) -> (r: Option<Dimensions>)
    ensures
        opt_dims(r) == opt_dims(*a),
{
    match a {
        Some(d) => Some(d.clone()),
        None => None,
    }
}

/// Resolve kind identities and affine spaces, fixing each kind's role once.
fn compile_kinds(c: &Catalog, ids: &Vec<String>) -> (r: Result<Vec<CompiledKind>, CatalogError>)
    requires
        texts(ids@) == kind_ids(*c),
    ensures
        kinds_fault(*c) matches Some(e) ==> (r matches Err(x) && x@ == e),
        kinds_fault(*c) is None ==> (r matches Ok(v) && v.len() == c.kinds.len() && forall|i: int|
            0 <= i < v.len() ==> (#[trigger] v@[i])@ == resolved_kind(*c, i)),
{
    let n = c.kinds.len();
    let ghost f1 = kind_id_faults(*c);
    let ghost f2 = difference_faults(*c);
    for i in 0..n
        invariant
            n == c.kinds.len(),
            texts(ids@) == kind_ids(*c),
            f1 == kind_id_faults(*c),
            first_some(i as int, f1) is None,
    {
        proof {
            lemma_first_some_step(i as int, f1);
        }
        let id = &c.kinds[i].id;
        if id.as_str().is_empty() {
            proof {
                lemma_first_some_prefix(n as int, i + 1, f1);
                assert(first_some(n as int, f1) == f1(i as int));
                assert(kinds_fault(*c) == f1(i as int));
                assert(f1(i as int) == Some(CatalogErrorView::EmptyId { record: Record::Kind }));
            }
            return Err(CatalogError::EmptyId { record: Record::Kind });
        }
        match index_in(ids, id.as_str()) {
            Some(j) if j == i => {},
            _ => {
                proof {
                    lemma_first_some_prefix(n as int, i + 1, f1);
                    assert(kinds_fault(*c) == f1(i as int));
                    assert(f1(i as int) == Some(CatalogErrorView::Duplicate { record: Record::Kind, id: id@ }));
                }
                return Err(CatalogError::Duplicate { record: Record::Kind, id: id.clone() });
            },
        }
    }
    let mut differences: Vec<Option<usize>> = Vec::new();
    for i in 0..n
        invariant
            n == c.kinds.len(),
            texts(ids@) == kind_ids(*c),
            f1 == kind_id_faults(*c),
            first_some(n as int, f1) is None,
            f2 == difference_faults(*c),
            first_some(i as int, f2) is None,
            differences.len() == i,
            forall|j: int| 0 <= j < i ==> opt_int(#[trigger] differences@[j]) == difference_of(*c, j),
            forall|j: int| 0 <= j < i ==> ((#[trigger] differences@[j]) matches Some(t) ==> t < n),
    {
        proof {
            lemma_first_some_step(i as int, f2);
        }
        let kind = &c.kinds[i];
        let difference = match &kind.difference_kind {
            None => None,
            Some(d) => {
                let t = match index_in(ids, d.as_str()) {
                    Some(t) => t,
                    None => {
                        proof {
                            lemma_first_some_prefix(n as int, i + 1, f2);
                            assert(kinds_fault(*c) == f2(i as int));
                            assert(f2(i as int) == Some(CatalogErrorView::Unknown { record: Record::Kind, id: d@ }));
                        }
                        return Err(CatalogError::Unknown { record: Record::Kind, id: d.clone() });
                    },
                };
                proof {
                    lemma_first_where(texts(ids@).len() as int, |j: int| texts(ids@)[j] == d@);
                }
                let target = &c.kinds[t];
                if !same_dimensions(&kind.dimensions, &target.dimensions) {
                    proof {
                        lemma_first_some_prefix(n as int, i + 1, f2);
                    }
                    return Err(
                        CatalogError::AffineDimensionMismatch {
                            point: kind.id.clone(),
                            difference: d.clone(),
                        },
                    );
                }
                if target.difference_kind.is_some() {
                    proof {
                        lemma_first_some_prefix(n as int, i + 1, f2);
                    }
                    return Err(
                        CatalogError::NestedAffineSpace {
                            point: kind.id.clone(),
                            difference: d.clone(),
                        },
                    );
                }
                Some(t)
            },
        };
        differences.push(difference);
    }
    let mut kinds: Vec<CompiledKind> = Vec::new();
    for i in 0..n
        invariant
            n == c.kinds.len(),
            differences.len() == n,
            forall|j: int| 0 <= j < n ==> opt_int(#[trigger] differences@[j]) == difference_of(*c, j),
            f1 == kind_id_faults(*c),
            f2 == difference_faults(*c),
            first_some(n as int, f1) is None,
            first_some(n as int, f2) is None,
            kinds.len() == i,
            forall|j: int| 0 <= j < i ==> (#[trigger] kinds@[j])@ == resolved_kind(*c, j),
    {
        let kind = &c.kinds[i];
        let mut named = false;
        for j in 0..n
            invariant
                n == c.kinds.len(),
                differences.len() == n,
                forall|m: int| 0 <= m < n ==> opt_int(#[trigger] differences@[m]) == difference_of(*c, m),
                named == exists|m: int| 0 <= m < j && #[trigger] difference_of(*c, m) == Some(i as int),
        {
            if differences[j] == Some(i) {
                named = true;
            }
            proof {
                if !named {
                    assert forall|m: int| 0 <= m < j + 1 implies #[trigger] difference_of(*c, m) != Some(i as int) by {
                        if m == j {
                            assert(opt_int(differences@[m]) == difference_of(*c, m));
                        }
                    }
                } else {
                    assert(exists|m: int| 0 <= m < j + 1 && #[trigger] difference_of(*c, m) == Some(i as int));
                }
            }
        }
        assert(named == is_difference_kind(*c, i as int));
        let role = if kind.difference_kind.is_some() {
            AffineRole::Point
        } else if named {
            AffineRole::Difference
        } else {
            AffineRole::Linear
        };
        kinds.push(
            CompiledKind {
                id: kind.id.clone(),
                dimensions: clone_dimensions(&kind.dimensions),
                grade: kind.grade,
                role,
                difference: differences[i],
                canonical: None,
                minimum: None,
                rate_of: None,
                rate: None,
            },
        );
        assert(kinds@[i as int]@ == resolved_kind(*c, i as int));
    }
    proof {
        assert(kinds_fault(*c) == first_some(n as int, f2));
    }
    Ok(kinds)
}

// ---------------------------------------------------------------------------
// Checking the units.
/// A zero scale, or a nonfinite approximate scale or offset. The coherent
/// scale is checked first, then the conversion's scale, then its offset.
pub open spec fn magnitude_fault(u: UnitDecl) -> Option<CatalogErrorView> {
    let zero = Some(CatalogErrorView::ZeroScale { unit: u.id@ });
    let nonfinite = Some(CatalogErrorView::NonFiniteConversion { unit: u.id@ });
    if u.coherent_scale matches Some(s) && s.rational@.0 == 0 {
        zero
    } else {
        match u.conversion {
            None => None,
            Some(c) => {
                let scale = match c.scale {
                    Magnitude::Exact(s) => if s.rational@.0 == 0 {
                        zero
                    } else {
                        None
                    },
                    Magnitude::Approximate(b) => if !bits_finite(b) {
                        nonfinite
                    } else if bits_zero(b) {
                        zero
                    } else {
                        None
                    },
                };
                if scale is Some {
                    scale
                } else {
                    match c.offset {
                        Magnitude::Approximate(b) => if !bits_finite(b) {
                            nonfinite
                        } else {
                            None
                        },
                        Magnitude::Exact(_) => None,
                    }
                }
            },
        }
    }
}

/// The `j`th kind a unit lists is not a declared kind.
pub open spec fn unknown_kind_fault(c: Catalog, u: UnitDecl, j: int) -> Option<CatalogErrorView> {
    if kind_index(c, u.kinds@[j]@) is None {
        Some(CatalogErrorView::Unknown { record: Record::Kind, id: u.kinds@[j]@ })
    } else {
        None
    }
}

pub open spec fn unknown_kind_faults(c: Catalog, u: UnitDecl) -> spec_fn(int) -> Option<CatalogErrorView> {
    |j: int| unknown_kind_fault(c, u, j)
}

/// Unit `i` has an empty identifier, a bad magnitude, the identifier of an
/// earlier unit, or lists an unknown kind.
pub open spec fn unit_fault(c: Catalog, i: int) -> Option<CatalogErrorView> {
    let u = c.units@[i];
    if u.id@.len() == 0 {
        Some(CatalogErrorView::EmptyId { record: Record::Unit })
    } else if magnitude_fault(u) is Some {
        magnitude_fault(u)
    } else if unit_index(c, u.id@) != Some(i) {
        Some(CatalogErrorView::Duplicate { record: Record::Unit, id: u.id@ })
    } else {
        first_some(u.kinds@.len() as int, unknown_kind_faults(c, u))
    }
}

pub open spec fn unit_faults(c: Catalog) -> spec_fn(int) -> Option<CatalogErrorView> {
    |i: int| unit_fault(c, i)
}

/// Whether a unit lists the kind named `id`.
pub open spec fn lists_kind(u: UnitDecl, id: Seq<char>) -> bool {
    texts(u.kinds@).contains(id)
}

/// The dimensions of the kind a name denotes.
pub open spec fn named_dimensions(c: Catalog, name: Seq<char>) -> Option<DimMap> {
    match kind_index(c, name) {
        Some(k) => opt_dims(c.kinds@[k].dimensions),
        None => None,
    }
}

/// The name of a unit's reference unit.
pub open spec fn reference_name(u: UnitDecl) -> Seq<char> {
    match u.conversion {
        Some(conv) => conv.reference_unit@,
        None => Seq::empty(),
    }
}

/// The `j`th kind of unit `i` has dimensions that no kind of its reference
/// unit `t` has.
pub open spec fn incompatible_fault(c: Catalog, i: int, t: int, j: int) -> Option<CatalogErrorView> {
    let u = c.units@[i];
    let target = c.units@[t];
    let name = u.kinds@[j]@;
    match named_dimensions(c, name) {
        None => None,
        Some(d) => if exists|m: int|
            0 <= m < target.kinds@.len() && #[trigger] named_dimensions(c, target.kinds@[m]@)
                == Some(d) {
            None
        } else {
            Some(
                CatalogErrorView::IncompatibleReference {
                    unit: u.id@,
                    reference: reference_name(u),
                    kind: name,
                },
            )
        },
    }
}

pub open spec fn incompatible_faults(c: Catalog, i: int, t: int) -> spec_fn(int) -> Option<
    CatalogErrorView,
> {
    |j: int| incompatible_fault(c, i, t, j)
}

/// Unit `i` names an unknown reference, one whose kinds have other
/// dimensions, or one that is not terminal.
pub open spec fn reference_fault(c: Catalog, i: int) -> Option<CatalogErrorView> {
    let u = c.units@[i];
    match u.conversion {
        None => None,
        Some(conv) => match unit_index(c, conv.reference_unit@) {
            None => Some(
                CatalogErrorView::Unknown { record: Record::Unit, id: conv.reference_unit@ },
            ),
            Some(t) => match first_some(u.kinds@.len() as int, incompatible_faults(c, i, t)) {
                Some(e) => Some(e),
                None => if !unit_terminal(c.units@[t]) {
                    Some(
                        CatalogErrorView::NonIdentityReference {
                            unit: u.id@,
                            reference: conv.reference_unit@,
                        },
                    )
                } else {
                    None
                },
            },
        },
    }
}

pub open spec fn reference_faults(c: Catalog) -> spec_fn(int) -> Option<CatalogErrorView> {
    |i: int| reference_fault(c, i)
}

/// Whether binary64 bits or an exact scalar make a zero or nonfinite
/// magnitude: the unit's magnitudes, checked.
fn check_magnitudes(u: &UnitDecl) -> (r: Result<(), CatalogError>)
    ensures
        magnitude_fault(*u) matches Some(e) ==> (r matches Err(x) && x@ == e),
        magnitude_fault(*u) is None ==> r is Ok,
{
    if let Some(s) = &u.coherent_scale {
        if crate::bignum::rational_is_zero(&s.rational) {
            return Err(CatalogError::ZeroScale { unit: u.id.clone() });
        }
    }
    let conversion = match &u.conversion {
        Some(conversion) => conversion,
        None => {
            return Ok(());
        },
    };
    match &conversion.scale {
        Magnitude::Exact(s) => {
            if crate::bignum::rational_is_zero(&s.rational) {
                return Err(CatalogError::ZeroScale { unit: u.id.clone() });
            }
        },
        Magnitude::Approximate(b) => {
            if !is_finite_bits(*b) {
                return Err(CatalogError::NonFiniteConversion { unit: u.id.clone() });
            }
            if is_zero_bits(*b) {
                return Err(CatalogError::ZeroScale { unit: u.id.clone() });
            }
        },
    }
    match &conversion.offset {
        Magnitude::Approximate(b) => {
            if !is_finite_bits(*b) {
                return Err(CatalogError::NonFiniteConversion { unit: u.id.clone() });
            }
            Ok(())
        },
        Magnitude::Exact(_) => Ok(()),
    }
}

/// Whether the strings hold `id`.
fn holds(names: &Vec<String>, id: &str) -> (r: bool)
    ensures
        r == texts(names@).contains(id@),
{
    let n = names.len();
    for j in 0..n
        invariant
            n == names.len(),
            forall|m: int| 0 <= m < j ==> (#[trigger] names@[m])@ != id@,
    {
        if str_eq(names[j].as_str(), id) {
            assert(texts(names@)[j as int] == id@);
            return true;
        }
    }
    proof {
        if texts(names@).contains(id@) {
            let m = choose|m: int| 0 <= m < texts(names@).len() && texts(names@)[m] == id@;
            assert(names@[m]@ == id@);
        }
    }
    false
}

/// Check every unit in order: identifiers, magnitudes, listed kinds.
fn check_units(c: &Catalog, kids: &Vec<String>, uids: &Vec<String>) -> (r: Result<
    (),
    CatalogError,
>)
    requires
        texts(kids@) == kind_ids(*c),
        texts(uids@) == unit_ids(*c),
    ensures
        first_some(c.units@.len() as int, unit_faults(*c)) matches Some(e) ==> (r matches Err(x)
            && x@ == e),
        first_some(c.units@.len() as int, unit_faults(*c)) is None ==> r is Ok,
{
    let n = c.units.len();
    let ghost f = unit_faults(*c);
    for i in 0..n
        invariant
            n == c.units.len(),
            texts(kids@) == kind_ids(*c),
            texts(uids@) == unit_ids(*c),
            f == unit_faults(*c),
            first_some(i as int, f) is None,
    {
        proof {
            lemma_first_some_step(i as int, f);
        }
        let u = &c.units[i];
        if u.id.as_str().is_empty() {
            proof {
                lemma_first_some_prefix(n as int, i + 1, f);
            }
            return Err(CatalogError::EmptyId { record: Record::Unit });
        }
        match check_magnitudes(u) {
            Err(e) => {
                proof {
                    lemma_first_some_prefix(n as int, i + 1, f);
                }
                return Err(e);
            },
            Ok(()) => {},
        }
        match index_in(uids, u.id.as_str()) {
            Some(j) if j == i => {},
            _ => {
                proof {
                    lemma_first_some_prefix(n as int, i + 1, f);
                    assert(f(i as int) == Some(
                        CatalogErrorView::Duplicate { record: Record::Unit, id: u.id@ },
                    ));
                }
                return Err(CatalogError::Duplicate { record: Record::Unit, id: u.id.clone() });
            },
        }
        let ghost g = unknown_kind_faults(*c, *u);
        let m = u.kinds.len();
        assert(f(i as int) == first_some(m as int, g));
        for j in 0..m
            invariant
                m == u.kinds.len(),
                n == c.units.len(),
                i < n,
                texts(kids@) == kind_ids(*c),
                g == unknown_kind_faults(*c, *u),
                first_some(j as int, g) is None,
                f == unit_faults(*c),
                first_some(i as int, f) is None,
                first_some(i + 1, f) == f(i as int),
                f(i as int) == first_some(m as int, g),
        {
            proof {
                lemma_first_some_step(j as int, g);
            }
            if index_in(kids, u.kinds[j].as_str()).is_none() {
                proof {
                    lemma_first_some_prefix(m as int, j + 1, g);
                    lemma_first_some_prefix(n as int, i + 1, f);
                    assert(f(i as int) == g(j as int));
                }
                return Err(CatalogError::Unknown { record: Record::Kind, id: u.kinds[j].clone() });
            }
        }
        assert(f(i as int) is None);
    }
    Ok(())
}

/// The dimensions of the kind a name denotes.
fn dimensions_named<'a>(c: &'a Catalog, kids: &Vec<String>, name: &str) -> (r: Option<&'a Dimensions>)
    requires
        texts(kids@) == kind_ids(*c),
    ensures
        r matches Some(d) ==> named_dimensions(*c, name@) == Some(d@),
        r is None ==> named_dimensions(*c, name@) is None,
{
    match index_in(kids, name) {
        Some(k) => {
            proof {
                lemma_first_where(kind_ids(*c).len() as int, |j: int| kind_ids(*c)[j] == name@);
            }
            match &c.kinds[k].dimensions {
                Some(d) => Some(d),
                None => None,
            }
        },
        None => None,
    }
}

/// Check unit `i`'s reference: known, of compatible dimensions, terminal.
fn check_reference(c: &Catalog, kids: &Vec<String>, uids: &Vec<String>, i: usize) -> (r: Result<
    (),
    CatalogError,
>)
    requires
        i < c.units.len(),
        texts(kids@) == kind_ids(*c),
        texts(uids@) == unit_ids(*c),
    ensures
        reference_fault(*c, i as int) matches Some(e) ==> (r matches Err(x) && x@ == e),
        reference_fault(*c, i as int) is None ==> r is Ok,
{
    let n = c.units.len();
    let u = &c.units[i];
    let conversion = match &u.conversion {
        Some(conversion) => conversion,
        None => {
            return Ok(());
        },
    };
    let reference = &conversion.reference_unit;
    let t = match index_in(uids, reference.as_str()) {
        Some(t) => t,
        None => {
            return Err(CatalogError::Unknown { record: Record::Unit, id: reference.clone() });
        },
    };
    proof {
        lemma_first_where(unit_ids(*c).len() as int, |j: int| unit_ids(*c)[j] == reference@);
    }
    let target = &c.units[t];
    let ghost g = incompatible_faults(*c, i as int, t as int);
    let m = u.kinds.len();
    for j in 0..m
        invariant
            m == u.kinds.len(),
            n == c.units.len(),
            i < n,
            t < n,
            *u == c.units@[i as int],
            *target == c.units@[t as int],
            u.conversion == Some(*conversion),
            *reference == conversion.reference_unit,
            texts(kids@) == kind_ids(*c),
            g == incompatible_faults(*c, i as int, t as int),
            first_some(j as int, g) is None,
            unit_index(*c, reference@) == Some(t as int),
    {
        proof {
            lemma_first_some_step(j as int, g);
        }
        if let Some(d) = dimensions_named(c, kids, u.kinds[j].as_str()) {
            let mut found = false;
            let k = target.kinds.len();
            for q in 0..k
                invariant
                    k == target.kinds.len(),
                    texts(kids@) == kind_ids(*c),
                    found == exists|p: int|
                        0 <= p < q && #[trigger] named_dimensions(*c, target.kinds@[p]@) == Some(
                            d@,
                        ),
            {
                match dimensions_named(c, kids, target.kinds[q].as_str()) {
                    Some(e) => {
                        if *e == *d {
                            found = true;
                        }
                    },
                    None => {},
                }
                proof {
                    if found {
                        assert(exists|p: int|
                            0 <= p < q + 1 && #[trigger] named_dimensions(
                                *c,
                                target.kinds@[p]@,
                            ) == Some(d@));
                    } else {
                        assert forall|p: int| 0 <= p < q + 1 implies #[trigger] named_dimensions(
                            *c,
                            target.kinds@[p]@,
                        ) != Some(d@) by {
                            if p == q {
                            }
                        }
                    }
                }
            }
            if !found {
                proof {
                    lemma_first_some_prefix(m as int, j + 1, g);
                    assert(g(j as int) == incompatible_fault(*c, i as int, t as int, j as int));
                    assert(named_dimensions(*c, u.kinds@[j as int]@) == Some(d@));
                    assert(incompatible_fault(*c, i as int, t as int, j as int) is Some);
                    assert(reference_fault(*c, i as int) == first_some(m as int, g));
                }
                return Err(
                    CatalogError::IncompatibleReference {
                        unit: u.id.clone(),
                        reference: reference.clone(),
                        kind: u.kinds[j].clone(),
                    },
                );
            }
        }
    }
    assert(first_some(m as int, g) is None);
    assert(reference_fault(*c, i as int) == (if !unit_terminal(c.units@[t as int]) {
                    Some(
                        CatalogErrorView::NonIdentityReference {
                            unit: u.id@,
                            reference: reference@,
                        },
                    )
                } else {
                    None
                }));
    if !target.is_terminal() {
        return Err(
            CatalogError::NonIdentityReference { unit: u.id.clone(), reference: reference.clone() },
        );
    }
    Ok(())
}

/// Check every unit's reference, in order.
fn check_references(c: &Catalog, kids: &Vec<String>, uids: &Vec<String>) -> (r: Result<
    (),
    CatalogError,
>)
    requires
        texts(kids@) == kind_ids(*c),
        texts(uids@) == unit_ids(*c),
    ensures
        first_some(c.units@.len() as int, reference_faults(*c)) matches Some(e) ==> (r matches Err(
            x,
        ) && x@ == e),
        first_some(c.units@.len() as int, reference_faults(*c)) is None ==> r is Ok,
{
    let n = c.units.len();
    let ghost f = reference_faults(*c);
    for i in 0..n
        invariant
            n == c.units.len(),
            texts(kids@) == kind_ids(*c),
            texts(uids@) == unit_ids(*c),
            f == reference_faults(*c),
            first_some(i as int, f) is None,
    {
        proof {
            lemma_first_some_step(i as int, f);
        }
        match check_reference(c, kids, uids, i) {
            Ok(()) => {},
            Err(e) => {
                proof {
                    lemma_first_some_prefix(n as int, i + 1, f);
                }
                return Err(e);
            },
        }
    }
    Ok(())
}

/// The units that can be kind `k`'s canonical unit: terminal ones listing it.
pub open spec fn canonical_candidates(c: Catalog, k: int) -> spec_fn(int) -> bool {
    |u: int| unit_terminal(c.units@[u]) && lists_kind(c.units@[u], c.kinds@[k].id@)
}

/// Kind `k`'s canonical unit: the first terminal unit that lists it.
pub open spec fn canonical_of(c: Catalog, k: int) -> Option<int> {
    first_where(c.units@.len() as int, canonical_candidates(c, k))
}

/// The canonical unit of kind `k`.
fn canonical_unit(c: &Catalog, k: usize) -> (r: Option<usize>)
    requires
        k < c.kinds.len(),
    ensures
        opt_int(r) == canonical_of(*c, k as int),
        r matches Some(u) ==> u < c.units.len(),
{
    let n = c.units.len();
    let ghost p = canonical_candidates(*c, k as int);
    for u in 0..n
        invariant
            n == c.units.len(),
            k < c.kinds.len(),
            p == canonical_candidates(*c, k as int),
            forall|j: int| 0 <= j < u ==> !#[trigger] p(j),
    {
        if c.units[u].is_terminal() && holds(&c.units[u].kinds, c.kinds[k].id.as_str()) {
            proof {
                lemma_first_where_at(n as int, p, u as int);
            }
            return Some(u);
        }
    }
    proof {
        lemma_first_where_none(n as int, p);
    }
    None
}

// ---------------------------------------------------------------------------
// Floors.
/// Kind `k`'s canonical unit, where it has one.
pub open spec fn canonical_index(c: Catalog, k: int) -> int {
    match canonical_of(c, k) {
        Some(u) => u,
        None => 0,
    }
}

/// Unit `u` lists kind `k` but does not convert to its canonical unit.
pub open spec fn off_canonical(c: Catalog, k: int, u: int) -> bool {
    &&& lists_kind(c.units@[u], c.kinds@[k].id@)
    &&& (c.units@[u].conversion is None || reference_name(c.units@[u]) != c.units@[canonical_index(c, k)].id@)
}

/// Kind `k` declares a floor that is not stated in a canonical unit every
/// unit of the kind reaches, or whose value has no finite binary64 value
/// (`finite[k]` says whether it has one).
pub open spec fn minimum_fault(c: Catalog, finite: Seq<bool>, k: int) -> Option<CatalogErrorView> {
    let invalid = Some(CatalogErrorView::InvalidMinimum { kind: c.kinds@[k].id@ });
    match c.kinds@[k].minimum {
        None => None,
        Some(_) => match canonical_of(c, k) {
            None => invalid,
            Some(_) => if exists|u: int|
                0 <= u < c.units@.len() && #[trigger] off_canonical(c, k, u) {
                invalid
            } else if !finite[k] {
                invalid
            } else {
                None
            },
        },
    }
}

pub open spec fn minimum_faults(c: Catalog, finite: Seq<bool>) -> spec_fn(int) -> Option<
    CatalogErrorView,
> {
    |k: int| minimum_fault(c, finite, k)
}

/// Check each kind's floor, in order.
fn check_minima(c: &Catalog, finite: &Vec<bool>) -> (r: Result<(), CatalogError>)
    requires
        finite.len() == c.kinds.len(),
    ensures
        first_some(c.kinds@.len() as int, minimum_faults(*c, finite@)) matches Some(e) ==> (r matches Err(x) && x@ == e),
        first_some(c.kinds@.len() as int, minimum_faults(*c, finite@)) is None ==> r is Ok,
{
    let n = c.kinds.len();
    let ghost f = minimum_faults(*c, finite@);
    for k in 0..n
        invariant
            n == c.kinds.len(),
            finite.len() == n,
            f == minimum_faults(*c, finite@),
            first_some(k as int, f) is None,
    {
        proof {
            lemma_first_some_step(k as int, f);
        }
        if c.kinds[k].minimum.is_some() {
            let invalid = CatalogError::InvalidMinimum { kind: c.kinds[k].id.clone() };
            let cu = match canonical_unit(c, k) {
                Some(cu) => cu,
                None => {
                    proof {
                        lemma_first_some_prefix(n as int, k + 1, f);
                    }
                    return Err(invalid);
                },
            };
            let nu = c.units.len();
            for u in 0..nu
                invariant
                    nu == c.units.len(),
                    n == c.kinds.len(),
                    k < n,
                    cu < nu,
                    canonical_of(*c, k as int) == Some(cu as int),
                    canonical_index(*c, k as int) == cu,
                    c.kinds@[k as int].minimum is Some,
                    finite.len() == n,
                    forall|v: int| 0 <= v < u ==> !#[trigger] off_canonical(*c, k as int, v),
                    first_some(k + 1, f) == f(k as int),
                    first_some(k as int, f) is None,
                    f == minimum_faults(*c, finite@),
                    invalid@ == (CatalogErrorView::InvalidMinimum { kind: c.kinds@[k as int].id@ }),
            {
                let unit = &c.units[u];
                if holds(&unit.kinds, c.kinds[k].id.as_str()) {
                    let off = match &unit.conversion {
                        None => true,
                        Some(conversion) => !str_eq(
                            conversion.reference_unit.as_str(),
                            c.units[cu].id.as_str(),
                        ),
                    };
                    if off {
                        proof {
                            assert(off_canonical(*c, k as int, u as int));
                            lemma_first_some_prefix(n as int, k + 1, f);
                        }
                        return Err(invalid);
                    }
                }
            }
            if !finite[k] {
                proof {
                    lemma_first_some_prefix(n as int, k + 1, f);
                }
                return Err(invalid);
            }
        }
    }
    Ok(())
}

// ---------------------------------------------------------------------------
// The dimensionless and time kinds.
/// The dimensionless kind, if the catalog names one and it is a linear kind
/// of dimension one.
pub open spec fn dimensionless_spec(c: Catalog) -> Result<Option<int>, CatalogErrorView> {
    match c.dimensionless {
        None => Ok(None),
        Some(id) => match kind_index(c, id@) {
            None => Err(CatalogErrorView::Unknown { record: Record::Kind, id: id@ }),
            Some(k) => if role_of(c, k) != AffineRole::Linear || opt_dims(c.kinds@[k].dimensions)
                != Some(DimMap::empty()) {
                Err(CatalogErrorView::InvalidDimensionlessKind(id@))
            } else {
                Ok(Some(k))
            },
        },
    }
}

/// The time kind, if the catalog names one and it is a scalar point kind.
pub open spec fn time_spec(c: Catalog) -> Result<Option<int>, CatalogErrorView> {
    match c.time {
        None => Ok(None),
        Some(id) => match kind_index(c, id@) {
            None => Err(CatalogErrorView::Unknown { record: Record::Kind, id: id@ }),
            Some(k) => if role_of(c, k) != AffineRole::Point || c.kinds@[k].grade != Grade::Scalar {
                Err(CatalogErrorView::InvalidTimeKind(id@))
            } else {
                Ok(Some(k))
            },
        },
    }
}

/// The duration rates are taken over: the time kind's difference kind.
pub open spec fn duration_spec(c: Catalog) -> Option<int> {
    match time_spec(c) {
        Ok(Some(t)) => difference_of(c, t),
        _ => None,
    }
}

/// The resolved kind `i`, with its role, dimensions and grade.
fn resolve_dimensionless(c: &Catalog, kids: &Vec<String>, kinds: &Vec<CompiledKind>) -> (r: Result<
    Option<usize>,
    CatalogError,
>)
    requires
        texts(kids@) == kind_ids(*c),
        kinds.len() == c.kinds.len(),
        forall|i: int| 0 <= i < kinds.len() ==> (#[trigger] kinds@[i])@ == resolved_kind(*c, i),
    ensures
        dimensionless_spec(*c) matches Err(e) ==> (r matches Err(x) && x@ == e),
        dimensionless_spec(*c) matches Ok(d) ==> (r matches Ok(x) && opt_int(x) == d),
        r matches Ok(Some(k)) ==> k < c.kinds.len(),
{
    match &c.dimensionless {
        None => Ok(None),
        Some(id) => {
            let k = match index_in(kids, id.as_str()) {
                Some(k) => k,
                None => {
                    return Err(CatalogError::Unknown { record: Record::Kind, id: id.clone() });
                },
            };
            proof {
                lemma_first_where(kind_ids(*c).len() as int, |j: int| kind_ids(*c)[j] == id@);
                assert(kinds@[k as int]@ == resolved_kind(*c, k as int));
            }
            let kind = &kinds[k];
            let one = Dimensions::one();
            let linear = match kind.role {
                AffineRole::Linear => true,
                _ => false,
            };
            let of_one = match &kind.dimensions {
                Some(d) => *d == one,
                None => false,
            };
            if !linear || !of_one {
                return Err(CatalogError::InvalidDimensionlessKind(id.clone()));
            }
            Ok(Some(k))
        },
    }
}

/// The time kind.
fn resolve_time(c: &Catalog, kids: &Vec<String>, kinds: &Vec<CompiledKind>) -> (r: Result<
    Option<usize>,
    CatalogError,
>)
    requires
        texts(kids@) == kind_ids(*c),
        kinds.len() == c.kinds.len(),
        forall|i: int| 0 <= i < kinds.len() ==> (#[trigger] kinds@[i])@ == resolved_kind(*c, i),
    ensures
        time_spec(*c) matches Err(e) ==> (r matches Err(x) && x@ == e),
        time_spec(*c) matches Ok(d) ==> (r matches Ok(x) && opt_int(x) == d),
        r matches Ok(Some(k)) ==> k < c.kinds.len(),
{
    match &c.time {
        None => Ok(None),
        Some(id) => {
            let k = match index_in(kids, id.as_str()) {
                Some(k) => k,
                None => {
                    return Err(CatalogError::Unknown { record: Record::Kind, id: id.clone() });
                },
            };
            proof {
                lemma_first_where(kind_ids(*c).len() as int, |j: int| kind_ids(*c)[j] == id@);
                assert(kinds@[k as int]@ == resolved_kind(*c, k as int));
            }
            let kind = &kinds[k];
            let point = match kind.role {
                AffineRole::Point => true,
                _ => false,
            };
            let scalar = match kind.grade {
                Grade::Scalar => true,
                _ => false,
            };
            if !point || !scalar {
                return Err(CatalogError::InvalidTimeKind(id.clone()));
            }
            Ok(Some(k))
        },
    }
}

// ---------------------------------------------------------------------------
// Rates.
/// The kind kind `j` declares itself the rate of, resolved.
pub open spec fn rate_target(c: Catalog, j: int) -> Option<int> {
    match c.kinds@[j].rate_of {
        Some(o) => kind_index(c, o@),
        None => None,
    }
}

/// The kinds that are the rate of `of`.
pub open spec fn rate_by(c: Catalog, of: int) -> spec_fn(int) -> bool {
    |j: int| rate_target(c, j) == Some(of)
}

/// Kind `i` declares itself the rate of an unknown kind, without a time kind,
/// of or as a point kind, with unresolved dimensions, where a rate times a
/// duration is not what it is the rate of, or where an earlier kind already
/// is that kind's rate.
pub open spec fn rate_fault(c: Catalog, duration: Option<int>, i: int) -> Option<CatalogErrorView> {
    let k = c.kinds@[i];
    match k.rate_of {
        None => None,
        Some(of_id) => match kind_index(c, of_id@) {
            None => Some(CatalogErrorView::Unknown { record: Record::Kind, id: of_id@ }),
            Some(of) => {
                let invalid = |f: RateFaultView|
                    Some(CatalogErrorView::InvalidRate { rate: k.id@, of: of_id@, fault: f });
                match duration {
                    None => invalid(RateFaultView::NoTimeKind),
                    Some(dur) => if role_of(c, i) == AffineRole::Point {
                        invalid(RateFaultView::PointKind(k.id@))
                    } else if role_of(c, of) == AffineRole::Point {
                        invalid(RateFaultView::PointKind(c.kinds@[of].id@))
                    } else if k.dimensions is None {
                        Some(CatalogErrorView::UnresolvedDimensions(k.id@))
                    } else if c.kinds@[of].dimensions is None {
                        Some(CatalogErrorView::UnresolvedDimensions(c.kinds@[of].id@))
                    } else if c.kinds@[dur].dimensions is None {
                        Some(CatalogErrorView::UnresolvedDimensions(c.kinds@[dur].id@))
                    } else {
                        let product = dims_mul(
                            opt_dims(k.dimensions)->0,
                            opt_dims(c.kinds@[dur].dimensions)->0,
                        );
                        if Some(product) != opt_dims(c.kinds@[of].dimensions) || k.grade
                            != c.kinds@[of].grade {
                            invalid(RateFaultView::Mismatch { dimensions: product, grade: k.grade })
                        } else {
                            match first_where(i, rate_by(c, of)) {
                                Some(j) => invalid(RateFaultView::AlsoRateOf(c.kinds@[j].id@)),
                                None => None,
                            }
                        }
                    },
                }
            },
        },
    }
}

pub open spec fn rate_faults(c: Catalog, duration: Option<int>) -> spec_fn(int) -> Option<
    CatalogErrorView,
> {
    |i: int| rate_fault(c, duration, i)
}

/// The kind kind `j` is the rate of.
fn rate_target_of(c: &Catalog, kids: &Vec<String>, j: usize) -> (r: Option<usize>)
    requires
        j < c.kinds.len(),
        texts(kids@) == kind_ids(*c),
    ensures
        opt_int(r) == rate_target(*c, j as int),
        r matches Some(t) ==> t < c.kinds.len(),
{
    match &c.kinds[j].rate_of {
        Some(o) => {
            let r = index_in(kids, o.as_str());
            proof {
                lemma_first_where(kind_ids(*c).len() as int, |m: int| kind_ids(*c)[m] == o@);
            }
            r
        },
        None => None,
    }
}

/// The first kind before `i` that is the rate of `of`.
fn earlier_rate(c: &Catalog, kids: &Vec<String>, i: usize, of: usize) -> (r: Option<usize>)
    requires
        i <= c.kinds.len(),
        texts(kids@) == kind_ids(*c),
    ensures
        opt_int(r) == first_where(i as int, rate_by(*c, of as int)),
        r matches Some(j) ==> j < i,
{
    let ghost p = rate_by(*c, of as int);
    for j in 0..i
        invariant
            i <= c.kinds.len(),
            texts(kids@) == kind_ids(*c),
            p == rate_by(*c, of as int),
            forall|m: int| 0 <= m < j ==> !#[trigger] p(m),
    {
        if rate_target_of(c, kids, j) == Some(of) {
            proof {
                lemma_first_where_at(i as int, p, j as int);
            }
            return Some(j);
        }
    }
    proof {
        lemma_first_where_none(i as int, p);
    }
    None
}

/// Check kind `i`'s rate declaration.
fn check_rate(
    c: &Catalog,
    kids: &Vec<String>,
    kinds: &Vec<CompiledKind>,
    duration: Option<usize>,
    i: usize,
) -> (r: Result<(), CatalogError>)
    requires
        i < c.kinds.len(),
        texts(kids@) == kind_ids(*c),
        kinds.len() == c.kinds.len(),
        forall|m: int| 0 <= m < kinds.len() ==> (#[trigger] kinds@[m])@ == resolved_kind(*c, m),
        duration matches Some(d) ==> d < c.kinds.len(),
    ensures
        rate_fault(*c, opt_int(duration), i as int) matches Some(e) ==> (r matches Err(x) && x@
            == e),
        rate_fault(*c, opt_int(duration), i as int) is None ==> r is Ok,
{
    let kind = &c.kinds[i];
    let of_id = match &kind.rate_of {
        Some(of_id) => of_id,
        None => {
            return Ok(());
        },
    };
    let of = match index_in(kids, of_id.as_str()) {
        Some(of) => of,
        None => {
            return Err(CatalogError::Unknown { record: Record::Kind, id: of_id.clone() });
        },
    };
    proof {
        lemma_first_where(kind_ids(*c).len() as int, |m: int| kind_ids(*c)[m] == of_id@);
        assert(kinds@[i as int]@ == resolved_kind(*c, i as int));
        assert(kinds@[of as int]@ == resolved_kind(*c, of as int));
    }
    let dur = match duration {
        Some(dur) => dur,
        None => {
            return Err(
                CatalogError::InvalidRate {
                    rate: kind.id.clone(),
                    of: of_id.clone(),
                    fault: RateFault::NoTimeKind,
                },
            );
        },
    };
    proof {
        assert(kinds@[dur as int]@ == resolved_kind(*c, dur as int));
    }
    if kinds[i].role == AffineRole::Point {
        return Err(
            CatalogError::InvalidRate {
                rate: kind.id.clone(),
                of: of_id.clone(),
                fault: RateFault::PointKind(kind.id.clone()),
            },
        );
    }
    if kinds[of].role == AffineRole::Point {
        return Err(
            CatalogError::InvalidRate {
                rate: kind.id.clone(),
                of: of_id.clone(),
                fault: RateFault::PointKind(c.kinds[of].id.clone()),
            },
        );
    }
    let rate = match &kind.dimensions {
        Some(d) => d,
        None => {
            return Err(CatalogError::UnresolvedDimensions(kind.id.clone()));
        },
    };
    let target = match &c.kinds[of].dimensions {
        Some(d) => d,
        None => {
            return Err(CatalogError::UnresolvedDimensions(c.kinds[of].id.clone()));
        },
    };
    let over = match &c.kinds[dur].dimensions {
        Some(d) => d,
        None => {
            return Err(CatalogError::UnresolvedDimensions(c.kinds[dur].id.clone()));
        },
    };
    let product = rate.mul(over);
    if !(product == *target) || kind.grade != c.kinds[of].grade {
        return Err(
            CatalogError::InvalidRate {
                rate: kind.id.clone(),
                of: of_id.clone(),
                fault: RateFault::Mismatch { dimensions: product, grade: kind.grade },
            },
        );
    }
    match earlier_rate(c, kids, i, of) {
        Some(j) => Err(
            CatalogError::InvalidRate {
                rate: kind.id.clone(),
                of: of_id.clone(),
                fault: RateFault::AlsoRateOf(c.kinds[j].id.clone()),
            },
        ),
        None => Ok(()),
    }
}

/// Check every kind's rate declaration, in order.
fn check_rates(
    c: &Catalog,
    kids: &Vec<String>,
    kinds: &Vec<CompiledKind>,
    duration: Option<usize>,
) -> (r: Result<(), CatalogError>)
    requires
        texts(kids@) == kind_ids(*c),
        kinds.len() == c.kinds.len(),
        forall|m: int| 0 <= m < kinds.len() ==> (#[trigger] kinds@[m])@ == resolved_kind(*c, m),
        duration matches Some(d) ==> d < c.kinds.len(),
    ensures
        first_some(c.kinds@.len() as int, rate_faults(*c, opt_int(duration))) matches Some(e) ==> (r matches Err(x) && x@ == e),
        first_some(c.kinds@.len() as int, rate_faults(*c, opt_int(duration))) is None ==> r is Ok,
{
    let n = c.kinds.len();
    let ghost f = rate_faults(*c, opt_int(duration));
    for i in 0..n
        invariant
            n == c.kinds.len(),
            texts(kids@) == kind_ids(*c),
            kinds.len() == n,
            forall|m: int| 0 <= m < kinds.len() ==> (#[trigger] kinds@[m])@ == resolved_kind(*c, m),
            duration matches Some(d) ==> d < n,
            f == rate_faults(*c, opt_int(duration)),
            first_some(i as int, f) is None,
    {
        proof {
            lemma_first_some_step(i as int, f);
        }
        match check_rate(c, kids, kinds, duration, i) {
            Ok(()) => {},
            Err(e) => {
                proof {
                    lemma_first_some_prefix(n as int, i + 1, f);
                }
                return Err(e);
            },
        }
    }
    Ok(())
}

// ---------------------------------------------------------------------------
// Derivation: which kind `left op right` is, from dimensions and grade.
/// What derivation resolved.
#[derive(Clone, Debug)]
pub enum Resolved {
    /// Exactly one non-point kind, the dimensionless kind's neutral rule, or
    /// the rate a duration chooses among twins.
    Kind(usize),
    /// Two or more non-point kinds, in declaration order.
    Twins(Vec<usize>),
    /// No kind has the product's dimensions and grade.
    NoKind,
}

/// The dimensions and grade of a product, and the kind they resolve to.
#[derive(Clone, Debug)]
pub struct Derivation {
    pub dimensions: Dimensions,
    pub grade: Grade,
    pub resolved: Resolved,
}

/// Why a product has no derivation.
#[derive(Clone, Copy, Debug, PartialEq, Eq, Structural)]
pub enum Underived {
    Point(usize),
    UnresolvedDimensions(usize),
    Ungraded { left: Grade, right: Grade },
}

pub enum ResolvedView {
    Kind(int),
    Twins(Seq<int>),
    NoKind,
}

pub struct DerivationView {
    pub dimensions: DimMap,
    pub grade: Grade,
    pub resolved: ResolvedView,
}

pub enum UnderivedView {
    Point(int),
    UnresolvedDimensions(int),
    Ungraded { left: Grade, right: Grade },
}

/// Indices as integers.
pub open spec fn ints(s: Seq<usize>) -> Seq<int> {
    s.map_values(|i: usize| i as int)
}

impl View for Derivation {
    type V = DerivationView;

    open spec fn view(&self) -> DerivationView {
        DerivationView {
            dimensions: self.dimensions@,
            grade: self.grade,
            resolved: match self.resolved {
                Resolved::Kind(k) => ResolvedView::Kind(k as int),
                Resolved::Twins(v) => ResolvedView::Twins(ints(v@)),
                Resolved::NoKind => ResolvedView::NoKind,
            },
        }
    }
}

impl View for Underived {
    type V = UnderivedView;

    open spec fn view(&self) -> UnderivedView {
        match *self {
            Underived::Point(k) => UnderivedView::Point(k as int),
            Underived::UnresolvedDimensions(k) => UnderivedView::UnresolvedDimensions(k as int),
            Underived::Ungraded { left, right } => UnderivedView::Ungraded { left, right },
        }
    }
}

/// The views of compiled kinds.
pub open spec fn kinds_view(s: Seq<CompiledKind>) -> Seq<CompiledKindView> {
    s.map_values(|k: CompiledKind| k@)
}

/// Whether kind `i` can be the result of a product of dimensions `d` and
/// grade `g`: a non-point kind of both.
pub open spec fn candidate(ks: Seq<CompiledKindView>, d: DimMap, g: Grade, i: int) -> bool {
    ks[i].role != AffineRole::Point && ks[i].grade == g && ks[i].dimensions == Some(d)
}

/// The candidates among the first `n` kinds, in declaration order.
pub open spec fn candidates(ks: Seq<CompiledKindView>, d: DimMap, g: Grade, n: int) -> Seq<int>
    decreases n,
{
    if n <= 0 {
        Seq::empty()
    } else if candidate(ks, d, g, n - 1) {
        candidates(ks, d, g, n - 1).push(n - 1)
    } else {
        candidates(ks, d, g, n - 1)
    }
}

/// The dimensionless kind's own rules: it is neutral under `mul`, divides
/// out, and is what a kind divided by itself is.
pub open spec fn neutral(one: Option<int>, l: int, op: ProductOp, r: int) -> Option<int> {
    match one {
        None => None,
        Some(o) => match op {
            ProductOp::Mul => if r == o {
                Some(l)
            } else if l == o {
                Some(r)
            } else {
                None
            },
            ProductOp::Div => if r == o {
                Some(l)
            } else if l == r {
                Some(o)
            } else {
                None
            },
            ProductOp::Dot | ProductOp::Wedge => None,
        },
    }
}

/// The kind rates choose: a rate times a duration is what it is the rate of,
/// and a kind divided by a duration is its rate.
pub open spec fn rate_choice(
    ks: Seq<CompiledKindView>,
    duration: Option<int>,
    l: int,
    op: ProductOp,
    r: int,
) -> Option<int> {
    match duration {
        None => None,
        Some(t) => match op {
            ProductOp::Mul => if r == t {
                ks[l].rate_of
            } else if l == t {
                ks[r].rate_of
            } else {
                None
            },
            ProductOp::Div => if r == t {
                ks[l].rate
            } else {
                None
            },
            ProductOp::Dot | ProductOp::Wedge => None,
        },
    }
}

/// What kind `l op r` is among the kinds `ks`. Point kinds take no part;
/// dimensions multiply (or divide) and grades combine in G3; the
/// dimensionless kind's rules come first, then the single candidate of those
/// dimensions and grade; where several remain, a rate chooses among them.
pub open spec fn derive_spec(
    ks: Seq<CompiledKindView>,
    one: Option<int>,
    duration: Option<int>,
    l: int,
    op: ProductOp,
    r: int,
) -> Result<DerivationView, UnderivedView> {
    if ks[l].role == AffineRole::Point {
        Err(UnderivedView::Point(l))
    } else if ks[r].role == AffineRole::Point {
        Err(UnderivedView::Point(r))
    } else {
        match (ks[l].dimensions, ks[r].dimensions) {
            (None, _) => Err(UnderivedView::UnresolvedDimensions(l)),
            (_, None) => Err(UnderivedView::UnresolvedDimensions(r)),
            (Some(dl), Some(dr)) => match crate::grade::grade_product(ks[l].grade, op, ks[r].grade) {
                None => Err(UnderivedView::Ungraded { left: ks[l].grade, right: ks[r].grade }),
                Some(g) => {
                    let d = if op == ProductOp::Div {
                        crate::dimension::dims_div(dl, dr)
                    } else {
                        dims_mul(dl, dr)
                    };
                    let cs = candidates(ks, d, g, ks.len() as int);
                    let resolved = match neutral(one, l, op, r) {
                        Some(k) => ResolvedView::Kind(k),
                        None => if cs.len() == 0 {
                            ResolvedView::NoKind
                        } else if cs.len() == 1 {
                            ResolvedView::Kind(cs[0])
                        } else {
                            match rate_choice(ks, duration, l, op, r) {
                                Some(k) => if cs.contains(k) {
                                    ResolvedView::Kind(k)
                                } else {
                                    ResolvedView::Twins(cs)
                                },
                                None => ResolvedView::Twins(cs),
                            }
                        },
                    };
                    Ok(DerivationView { dimensions: d, grade: g, resolved })
                },
            },
        }
    }
}

/// The view of a derivation's outcome.
pub open spec fn derivation_view(r: Result<Derivation, Underived>) -> Result<
    DerivationView,
    UnderivedView,
> {
    match r {
        Ok(d) => Ok(d@),
        Err(u) => Err(u@),
    }
}

/// Which kind `left op right` is, from dimensions and grade.
pub fn derive(
    kinds: &Vec<CompiledKind>,
    one: Option<usize>,
    duration: Option<usize>,
    left: usize,
    op: ProductOp,
    right: usize,
) -> (r: Result<Derivation, Underived>)
    requires
        left < kinds.len(),
        right < kinds.len(),
        one matches Some(o) ==> o < kinds.len(),
    ensures
        r matches Ok(d) ==> (d.resolved matches Resolved::Kind(k) ==> k < kinds.len()),
        r matches Ok(d) ==> (d.resolved matches Resolved::Twins(v) ==> forall|m: int|
            0 <= m < v.len() ==> #[trigger] v@[m] < kinds.len()),
        r matches Err(Underived::Point(k)) ==> k == left || k == right,
        r matches Err(Underived::UnresolvedDimensions(k)) ==> k == left || k == right,
        derivation_view(r) == derive_spec(
            kinds_view(kinds@),
            opt_int(one),
            opt_int(duration),
            left as int,
            op,
            right as int,
        ),
{
    let ghost ks = kinds_view(kinds@);
    if kinds[left].role == AffineRole::Point {
        return Err(Underived::Point(left));
    }
    if kinds[right].role == AffineRole::Point {
        return Err(Underived::Point(right));
    }
    let l = match &kinds[left].dimensions {
        Some(d) => d,
        None => {
            return Err(Underived::UnresolvedDimensions(left));
        },
    };
    let r = match &kinds[right].dimensions {
        Some(d) => d,
        None => {
            return Err(Underived::UnresolvedDimensions(right));
        },
    };
    let (lg, rg) = (kinds[left].grade, kinds[right].grade);
    let grade = match lg.product(op, rg) {
        Some(g) => g,
        None => {
            return Err(Underived::Ungraded { left: lg, right: rg });
        },
    };
    let dimensions = match op {
        ProductOp::Div => l.div(r),
        _ => l.mul(r),
    };
    let ghost d = dimensions@;
    let n = kinds.len();
    let mut found: Vec<usize> = Vec::new();
    for i in 0..n
        invariant
            n == kinds.len(),
            ks == kinds_view(kinds@),
            d == dimensions@,
            ints(found@) == candidates(ks, d, grade, i as int),
            forall|m: int| 0 <= m < found.len() ==> #[trigger] found@[m] < n,
    {
        let kind = &kinds[i];
        let same = match &kind.dimensions {
            Some(e) => *e == dimensions,
            None => false,
        };
        let is_candidate = kind.role != AffineRole::Point && kind.grade == grade && same;
        assert(ks[i as int] == kind@);
        if is_candidate {
            found.push(i);
            assert(ints(found@) =~= candidates(ks, d, grade, i as int).push(i as int));
        }
    }
    let ghost cs = candidates(ks, d, grade, n as int);
    let neutral_kind: Option<usize> = match one {
        None => None,
        Some(o) => match op {
            ProductOp::Mul => if right == o {
                Some(left)
            } else if left == o {
                Some(right)
            } else {
                None
            },
            ProductOp::Div => if right == o {
                Some(left)
            } else if left == right {
                Some(o)
            } else {
                None
            },
            _ => None,
        },
    };
    let resolved = match neutral_kind {
        Some(k) => Resolved::Kind(k),
        None => if found.len() == 0 {
            Resolved::NoKind
        } else if found.len() == 1 {
            Resolved::Kind(found[0])
        } else {
            let choice: Option<usize> = match duration {
                None => None,
                Some(t) => match op {
                    ProductOp::Mul => if right == t {
                        kinds[left].rate_of
                    } else if left == t {
                        kinds[right].rate_of
                    } else {
                        None
                    },
                    ProductOp::Div => if right == t {
                        kinds[left].rate
                    } else {
                        None
                    },
                    _ => None,
                },
            };
            assert(opt_int(choice) == rate_choice(ks, opt_int(duration), left as int, op, right as int));
            match choice {
                Some(k) => {
                    let mut present = false;
                    let m = found.len();
                    for j in 0..m
                        invariant
                            m == found.len(),
                            present == exists|q: int| 0 <= q < j && found@[q] == k,
                    {
                        if found[j] == k {
                            present = true;
                        }
                    }
                    proof {
                        if present {
                            let q = choose|q: int| 0 <= q < m && found@[q] == k;
                            assert(ints(found@)[q] == k as int);
                        } else {
                            assert forall|q: int| 0 <= q < cs.len() implies cs[q] != k as int by {
                                assert(ints(found@)[q] == found@[q] as int);
                            }
                        }
                    }
                    if present {
                        Resolved::Kind(k)
                    } else {
                        Resolved::Twins(found)
                    }
                },
                None => Resolved::Twins(found),
            }
        },
    };
    Ok(Derivation { dimensions, grade, resolved })
}

// ---------------------------------------------------------------------------
// The compiled kinds.
/// Kind `i` as `compile` leaves it: resolved, with its canonical unit, its
/// floor in that unit, and its rates.
pub open spec fn compiled_kind(c: Catalog, i: int) -> CompiledKindView {
    let base = resolved_kind(c, i);
    CompiledKindView {
        canonical: canonical_of(c, i),
        minimum: match (c.kinds@[i].minimum, canonical_of(c, i)) {
            (Some(m), Some(u)) => Some((m@, u)),
            _ => None,
        },
        rate_of: rate_target(c, i),
        rate: first_where(c.kinds@.len() as int, rate_by(c, i)),
        ..base
    }
}

/// Every compiled kind, in declaration order.
pub open spec fn compiled_kinds(c: Catalog) -> Seq<CompiledKindView> {
    Seq::new(c.kinds@.len(), |i: int| compiled_kind(c, i))
}

/// The kind that is kind `k`'s rate.
fn rate_of_kind(c: &Catalog, kids: &Vec<String>, k: usize) -> (r: Option<usize>)
    requires
        texts(kids@) == kind_ids(*c),
    ensures
        opt_int(r) == first_where(c.kinds@.len() as int, rate_by(*c, k as int)),
        r matches Some(j) ==> j < c.kinds.len(),
{
    earlier_rate(c, kids, c.kinds.len(), k)
}

/// Give each resolved kind its canonical unit, floor and rates.
fn finish_kinds(c: &Catalog, kids: &Vec<String>, kinds: Vec<CompiledKind>) -> (r: Vec<
    CompiledKind,
>)
    requires
        texts(kids@) == kind_ids(*c),
        kinds.len() == c.kinds.len(),
        forall|m: int| 0 <= m < kinds.len() ==> (#[trigger] kinds@[m])@ == resolved_kind(*c, m),
    ensures
        r.len() == c.kinds.len(),
        forall|m: int| 0 <= m < r.len() ==> (#[trigger] r@[m])@ == compiled_kind(*c, m),
        forall|m: int| 0 <= m < r.len() ==> ((#[trigger] r@[m]).dimensions matches Some(d) ==> crate::dimension::dims_ok(d@)),
{
    let n = kinds.len();
    let mut kinds = kinds;
    for k in 0..n
        invariant
            n == c.kinds.len(),
            texts(kids@) == kind_ids(*c),
            kinds.len() == n,
            forall|m: int| 0 <= m < k ==> (#[trigger] kinds@[m])@ == compiled_kind(*c, m),
            forall|m: int| k <= m < n ==> (#[trigger] kinds@[m])@ == resolved_kind(*c, m),
            forall|m: int| 0 <= m < k ==> ((#[trigger] kinds@[m]).dimensions matches Some(d) ==> crate::dimension::dims_ok(d@)),
    {
        if let Some(d) = &kinds[k].dimensions {
            d.well_formed();
        }
        let canonical = canonical_unit(c, k);
        let minimum = match (&c.kinds[k].minimum, canonical) {
            (Some(m), Some(u)) => Some(Minimum { declared: m.clone(), unit: u }),
            _ => None,
        };
        let rate_of = rate_target_of(c, kids, k);
        let rate = rate_of_kind(c, kids, k);
        let old = kinds[k].clone_kind();
        let kind = CompiledKind { canonical, minimum, rate_of, rate, ..old };
        kinds.set(k, kind);
        assert(kinds@[k as int]@ == compiled_kind(*c, k as int));
    }
    kinds
}

impl CompiledKind {
    /// A copy of the kind.
    pub fn clone_kind(&self) -> (r: CompiledKind)
        ensures
            r@ == self@,
    {
        CompiledKind {
            id: self.id.clone(),
            dimensions: clone_dimensions(&self.dimensions),
            grade: self.grade,
            role: self.role,
            difference: self.difference,
            canonical: self.canonical,
            minimum: match &self.minimum {
                Some(m) => Some(Minimum { declared: m.declared.clone(), unit: m.unit }),
                None => None,
            },
            rate_of: self.rate_of,
            rate: self.rate,
        }
    }
}

// ---------------------------------------------------------------------------
// Twin rows.
/// A kept row: `left op right` is `result` where derivation leaves twins.
#[derive(Clone, Copy, Debug, PartialEq, Eq, Structural)]
pub struct Twin {
    pub left: usize,
    pub op: ProductOp,
    pub right: usize,
    pub result: usize,
}

impl View for Twin {
    type V = (int, ProductOp, int, int);

    open spec fn view(&self) -> (int, ProductOp, int, int) {
        (self.left as int, self.op, self.right as int, self.result as int)
    }
}

pub open spec fn twins_view(s: Seq<Twin>) -> Seq<(int, ProductOp, int, int)> {
    s.map_values(|t: Twin| t@)
}

/// An index known to exist, or zero.
pub open spec fn index_or_zero(o: Option<int>) -> int {
    match o {
        Some(i) => i,
        None => 0,
    }
}

/// The rows operation `p` keeps: itself, and its mirror when it commutes
/// two different kinds.
pub open spec fn op_rows(c: Catalog, p: int) -> Seq<(int, ProductOp, int, int)> {
    let o = c.operations@[p];
    let l = index_or_zero(kind_index(c, o.left@));
    let r = index_or_zero(kind_index(c, o.right@));
    let res = index_or_zero(kind_index(c, o.result@));
    if o.commutative && l != r {
        seq![(l, o.op, r, res), (r, o.op, l, res)]
    } else {
        seq![(l, o.op, r, res)]
    }
}

/// The rows the first `n` operations keep, in order.
pub open spec fn twin_rows(c: Catalog, n: int) -> Seq<(int, ProductOp, int, int)>
    decreases n,
{
    if n <= 0 {
        Seq::empty()
    } else {
        twin_rows(c, n - 1) + op_rows(c, n - 1)
    }
}

/// Whether a row for `l op r` is among `rows`.
pub open spec fn has_row(rows: Seq<(int, ProductOp, int, int)>, l: int, op: ProductOp, r: int) -> bool {
    exists|q: int| 0 <= q < rows.len() && #[trigger] rows[q].0 == l && rows[q].1 == op && rows[q].2 == r
}

/// The dimensionless kind of a catalog that names a valid one.
pub open spec fn dimensionless_index(c: Catalog) -> Option<int> {
    match dimensionless_spec(c) {
        Ok(x) => x,
        Err(_) => None,
    }
}

/// Operation `p` is a commutative quotient, names an unknown or point kind,
/// has unresolved dimensions or no single grade, names a result of other
/// dimensions or grade, restates what derivation resolves, or repeats an
/// earlier row.
pub open spec fn operation_fault(c: Catalog, p: int) -> Option<CatalogErrorView> {
    let o = c.operations@[p];
    let ks = compiled_kinds(c);
    if o.commutative && o.op == ProductOp::Div {
        Some(CatalogErrorView::CommutativeQuotient { left: o.left@, right: o.right@ })
    } else {
        match (kind_index(c, o.left@), kind_index(c, o.right@), kind_index(c, o.result@)) {
            (None, _, _) => Some(CatalogErrorView::Unknown { record: Record::Kind, id: o.left@ }),
            (_, None, _) => Some(CatalogErrorView::Unknown { record: Record::Kind, id: o.right@ }),
            (_, _, None) => Some(CatalogErrorView::Unknown { record: Record::Kind, id: o.result@ }),
            (Some(l), Some(r), Some(res)) => {
                let point = |x: int|
                    Some(
                        CatalogErrorView::PointOperationRule {
                            left: o.left@,
                            op: o.op,
                            right: o.right@,
                            point: ks[x].id,
                        },
                    );
                if ks[res].role == AffineRole::Point {
                    point(res)
                } else if ks[res].dimensions is None {
                    Some(CatalogErrorView::UnresolvedDimensions(o.result@))
                } else {
                    match derive_spec(ks, dimensionless_index(c), duration_spec(c), l, o.op, r) {
                        Err(UnderivedView::Point(x)) => point(x),
                        Err(UnderivedView::UnresolvedDimensions(x)) => Some(
                            CatalogErrorView::UnresolvedDimensions(ks[x].id),
                        ),
                        Err(UnderivedView::Ungraded { left, right }) => Some(
                            CatalogErrorView::UngradedOperationRule {
                                left: o.left@,
                                op: o.op,
                                right: o.right@,
                                left_grade: left,
                                right_grade: right,
                            },
                        ),
                        Ok(d) => {
                            let invalid = Some(
                                CatalogErrorView::InvalidOperationRule {
                                    left: o.left@,
                                    op: o.op,
                                    right: o.right@,
                                    result: o.result@,
                                    dimensions: d.dimensions,
                                    grade: d.grade,
                                },
                            );
                            if ks[res].dimensions != Some(d.dimensions) || ks[res].grade != d.grade {
                                invalid
                            } else {
                                match d.resolved {
                                    ResolvedView::Kind(k) => Some(
                                        CatalogErrorView::DerivedOperationRule {
                                            left: o.left@,
                                            op: o.op,
                                            right: o.right@,
                                            result: o.result@,
                                            derived: ks[k].id,
                                        },
                                    ),
                                    ResolvedView::NoKind => invalid,
                                    ResolvedView::Twins(_) => if has_row(twin_rows(c, p), l, o.op, r) {
                                        Some(
                                            CatalogErrorView::ConflictingOperationRule {
                                                left: ks[l].id,
                                                op: o.op,
                                                right: ks[r].id,
                                            },
                                        )
                                    } else if o.commutative && l != r && has_row(
                                        twin_rows(c, p),
                                        r,
                                        o.op,
                                        l,
                                    ) {
                                        Some(
                                            CatalogErrorView::ConflictingOperationRule {
                                                left: ks[r].id,
                                                op: o.op,
                                                right: ks[l].id,
                                            },
                                        )
                                    } else {
                                        None
                                    },
                                }
                            }
                        },
                    }
                }
            },
        }
    }
}

pub open spec fn operation_faults(c: Catalog) -> spec_fn(int) -> Option<CatalogErrorView> {
    |p: int| operation_fault(c, p)
}

/// Whether a row for `l op r` is kept.
fn find_row(twins: &Vec<Twin>, l: usize, op: ProductOp, r: usize) -> (b: bool)
    ensures
        b == has_row(twins_view(twins@), l as int, op, r as int),
{
    let ghost rows = twins_view(twins@);
    let n = twins.len();
    for q in 0..n
        invariant
            n == twins.len(),
            rows == twins_view(twins@),
            forall|m: int| 0 <= m < q ==> !(#[trigger] rows[m].0 == l && rows[m].1 == op && rows[m].2 == r),
    {
        let t = twins[q];
        assert(rows[q as int] == t@);
        if t.left == l && t.op == op && t.right == r {
            assert(rows[q as int].0 == l && rows[q as int].1 == op && rows[q as int].2 == r);
            return true;
        }
    }
    proof {
        if has_row(rows, l as int, op, r as int) {
            let m = choose|m: int| 0 <= m < rows.len() && #[trigger] rows[m].0 == l && rows[m].1 == op && rows[m].2 == r;
            assert(!(rows[m].0 == l && rows[m].1 == op && rows[m].2 == r));
        }
    }
    false
}

/// Check operation `p` against the rows kept before it; give the kinds it
/// names.
fn check_operation(
    c: &Catalog,
    kids: &Vec<String>,
    kinds: &Vec<CompiledKind>,
    one: Option<usize>,
    duration: Option<usize>,
    twins: &Vec<Twin>,
    p: usize,
) -> (r: Result<(usize, usize, usize), CatalogError>)
    requires
        p < c.operations.len(),
        texts(kids@) == kind_ids(*c),
        kinds.len() == c.kinds.len(),
        forall|m: int| 0 <= m < kinds.len() ==> (#[trigger] kinds@[m])@ == compiled_kind(*c, m),
        opt_int(one) == dimensionless_index(*c),
        one matches Some(o) ==> o < kinds.len(),
        opt_int(duration) == duration_spec(*c),
        twins_view(twins@) == twin_rows(*c, p as int),
    ensures
        operation_fault(*c, p as int) matches Some(e) ==> (r matches Err(x) && x@ == e),
        operation_fault(*c, p as int) is None ==> (r matches Ok((l, rr, res)) && l < c.kinds.len()
            && rr < c.kinds.len() && res < c.kinds.len() && kind_index(
            *c,
            c.operations@[p as int].left@,
        ) == Some(l as int) && kind_index(*c, c.operations@[p as int].right@) == Some(rr as int)
            && kind_index(*c, c.operations@[p as int].result@) == Some(res as int)),
{
    let ghost ks = compiled_kinds(*c);
    assert(kinds_view(kinds@) =~= ks);
    let o = &c.operations[p];
    let op = o.op;
    if o.commutative && op == ProductOp::Div {
        return Err(
            CatalogError::CommutativeQuotient { left: o.left.clone(), right: o.right.clone() },
        );
    }
    let l = match index_in(kids, o.left.as_str()) {
        Some(l) => l,
        None => {
            return Err(CatalogError::Unknown { record: Record::Kind, id: o.left.clone() });
        },
    };
    let r = match index_in(kids, o.right.as_str()) {
        Some(r) => r,
        None => {
            return Err(CatalogError::Unknown { record: Record::Kind, id: o.right.clone() });
        },
    };
    let res = match index_in(kids, o.result.as_str()) {
        Some(res) => res,
        None => {
            return Err(CatalogError::Unknown { record: Record::Kind, id: o.result.clone() });
        },
    };
    proof {
        lemma_first_where(kind_ids(*c).len() as int, |m: int| kind_ids(*c)[m] == o.left@);
        lemma_first_where(kind_ids(*c).len() as int, |m: int| kind_ids(*c)[m] == o.right@);
        lemma_first_where(kind_ids(*c).len() as int, |m: int| kind_ids(*c)[m] == o.result@);
        assert(kinds@[l as int]@ == ks[l as int]);
        assert(kinds@[r as int]@ == ks[r as int]);
        assert(kinds@[res as int]@ == ks[res as int]);
    }
    if kinds[res].role == AffineRole::Point {
        return Err(
            CatalogError::PointOperationRule {
                left: o.left.clone(),
                op,
                right: o.right.clone(),
                point: kinds[res].id.clone(),
            },
        );
    }
    let result_dimensions = match &kinds[res].dimensions {
        Some(d) => d,
        None => {
            return Err(CatalogError::UnresolvedDimensions(o.result.clone()));
        },
    };
    let derivation = match derive(kinds, one, duration, l, op, r) {
        Ok(d) => d,
        Err(Underived::Point(x)) => {
            assert(kinds@[x as int]@ == ks[x as int]);
            return Err(
                CatalogError::PointOperationRule {
                    left: o.left.clone(),
                    op,
                    right: o.right.clone(),
                    point: kinds[x].id.clone(),
                },
            );
        },
        Err(Underived::UnresolvedDimensions(x)) => {
            assert(kinds@[x as int]@ == ks[x as int]);
            return Err(CatalogError::UnresolvedDimensions(kinds[x].id.clone()));
        },
        Err(Underived::Ungraded { left, right }) => {
            return Err(
                CatalogError::UngradedOperationRule {
                    left: o.left.clone(),
                    op,
                    right: o.right.clone(),
                    left_grade: left,
                    right_grade: right,
                },
            );
        },
    };
    if !(*result_dimensions == derivation.dimensions) || kinds[res].grade != derivation.grade {
        return Err(
            CatalogError::InvalidOperationRule {
                left: o.left.clone(),
                op,
                right: o.right.clone(),
                result: o.result.clone(),
                dimensions: derivation.dimensions,
                grade: derivation.grade,
            },
        );
    }
    match &derivation.resolved {
        Resolved::Kind(k) => {
            assert(kinds@[*k as int]@ == ks[*k as int]);
            return Err(
                CatalogError::DerivedOperationRule {
                    left: o.left.clone(),
                    op,
                    right: o.right.clone(),
                    result: o.result.clone(),
                    derived: kinds[*k].id.clone(),
                },
            );
        },
        Resolved::NoKind => {
            return Err(
                CatalogError::InvalidOperationRule {
                    left: o.left.clone(),
                    op,
                    right: o.right.clone(),
                    result: o.result.clone(),
                    dimensions: derivation.dimensions,
                    grade: derivation.grade,
                },
            );
        },
        Resolved::Twins(_) => {},
    }
    if find_row(twins, l, op, r) {
        return Err(
            CatalogError::ConflictingOperationRule {
                left: kinds[l].id.clone(),
                op,
                right: kinds[r].id.clone(),
            },
        );
    }
    if o.commutative && l != r && find_row(twins, r, op, l) {
        return Err(
            CatalogError::ConflictingOperationRule {
                left: kinds[r].id.clone(),
                op,
                right: kinds[l].id.clone(),
            },
        );
    }
    Ok((l, r, res))
}

// ---------------------------------------------------------------------------
// The registry.
/// A compiled catalog; `compile` is the only way to obtain one.
pub struct Registry {
    kinds: Vec<CompiledKind>,
    units: Vec<UnitDecl>,
    twins: Vec<Twin>,
    dimensionless: Option<usize>,
    time: Option<usize>,
    provenance: Vec<(String, String)>,
}

/// A registry as its compiled kinds, declared units, kept rows, named
/// kinds and provenance.
pub struct RegistryView {
    pub kinds: Seq<CompiledKindView>,
    pub units: Seq<UnitDecl>,
    pub twins: Seq<(int, ProductOp, int, int)>,
    pub dimensionless: Option<int>,
    pub time: Option<int>,
    /// Named notes by increasing name, one per name.
    pub provenance: Seq<(Seq<char>, Seq<char>)>,
}

impl View for Registry {
    type V = RegistryView;

    closed spec fn view(&self) -> RegistryView {
        RegistryView {
            kinds: kinds_view(self.kinds@),
            units: self.units@,
            twins: twins_view(self.twins@),
            dimensionless: opt_int(self.dimensionless),
            time: opt_int(self.time),
            provenance: crate::catalog::text_pairs(self.provenance@),
        }
    }
}

/// The identifiers of a registry's kinds.
pub open spec fn registry_kind_ids(v: RegistryView) -> Seq<Seq<char>> {
    v.kinds.map_values(|k: CompiledKindView| k.id)
}

/// The identifiers of a registry's units.
pub open spec fn registry_unit_ids(v: RegistryView) -> Seq<Seq<char>> {
    v.units.map_values(|u: UnitDecl| u.id@)
}

/// An optional index below `n`.
pub open spec fn below(o: Option<int>, n: int) -> bool {
    o matches Some(i) ==> 0 <= i < n
}

/// What every registry holds: its indices name kinds and units it has, every
/// kind a unit lists is one of its kinds, and every reference one of its
/// units.
pub open spec fn registry_ok(v: RegistryView) -> bool {
    let nk = v.kinds.len() as int;
    let nu = v.units.len() as int;
    &&& forall|i: int|
        0 <= i < nk ==> {
            let k = #[trigger] v.kinds[i];
            &&& below(k.difference, nk)
            &&& below(k.canonical, nu)
            &&& below(k.rate_of, nk)
            &&& below(k.rate, nk)
            &&& (k.minimum matches Some(m) ==> 0 <= m.1 < nu)
        }
    &&& forall|u: int, j: int|
        0 <= u < nu && 0 <= j < v.units[u].kinds@.len() ==> first_index(
            registry_kind_ids(v),
            (#[trigger] v.units[u].kinds@[j])@,
        ) is Some
    &&& forall|u: int|
        0 <= u < nu ==> ((#[trigger] v.units[u]).conversion matches Some(cv) ==> first_index(
            registry_unit_ids(v),
            cv.reference_unit@,
        ) is Some)
    &&& forall|t: int|
        0 <= t < v.twins.len() ==> {
            let row = #[trigger] v.twins[t];
            0 <= row.0 < nk && 0 <= row.2 < nk && 0 <= row.3 < nk
        }
    &&& below(v.dimensionless, nk)
    &&& below(v.time, nk)
}

/// Kind `i` is the rate of kind `t`, as a registry holds it: `t` names `i`
/// back, neither is a point kind, a rate times the duration has `t`'s
/// dimensions, and the two share a grade.
pub open spec fn rate_ok(v: RegistryView, i: int, t: int) -> bool {
    &&& v.kinds[t].rate == Some(i)
    &&& v.kinds[i].role != AffineRole::Point
    &&& v.kinds[t].role != AffineRole::Point
    &&& v.kinds[i].grade == v.kinds[t].grade
    &&& match duration_of(v) {
        Some(d) => match (v.kinds[i].dimensions, v.kinds[d].dimensions) {
            (Some(di), Some(dd)) => v.kinds[t].dimensions == Some(dims_mul(di, dd)),
            _ => false,
        },
        None => false,
    }
}

/// What a registry's kinds hold: a point kind has a difference kind, which
/// is a difference kind of the same dimensions; kept rows never give a point
/// kind; the dimensionless kind is linear and of dimension one; the time kind
/// is a scalar point kind; and rates are as `rate_ok` says.
#[verifier::opaque]
pub open spec fn registry_kinds_ok(v: RegistryView) -> bool {
    let nk = v.kinds.len() as int;
    &&& forall|i: int|
        0 <= i < nk ==> ((#[trigger] v.kinds[i]).role == AffineRole::Point) == (
        v.kinds[i].difference is Some)
    &&& forall|i: int|
        0 <= i < nk ==> ((#[trigger] v.kinds[i]).difference matches Some(d) ==> v.kinds[d].role
            == AffineRole::Difference && v.kinds[d].dimensions == v.kinds[i].dimensions)
    &&& forall|t: int|
        0 <= t < v.twins.len() ==> v.kinds[(#[trigger] v.twins[t]).3].role != AffineRole::Point
    &&& (v.dimensionless matches Some(o) ==> v.kinds[o].role == AffineRole::Linear
        && v.kinds[o].dimensions == Some(DimMap::empty()))
    &&& (v.time matches Some(t) ==> v.kinds[t].role == AffineRole::Point && v.kinds[t].grade
        == Grade::Scalar)
    &&& forall|i: int|
        0 <= i < nk ==> ((#[trigger] v.kinds[i]).rate_of matches Some(t) ==> rate_ok(v, i, t))
}

/// Every dimensions a registry holds are well formed.
#[verifier::opaque]
pub open spec fn registry_dims_ok(v: RegistryView) -> bool {
    forall|i: int|
        0 <= i < v.kinds.len() ==> ((#[trigger] v.kinds[i]).dimensions matches Some(d)
            ==> crate::dimension::dims_ok(d))
}

/// A unit's exact magnitudes are usable: a nonzero scale and a well-formed
/// offset.
pub open spec fn unit_magnitudes_ok(u: UnitDecl) -> bool {
    match u.conversion {
        None => true,
        Some(c) => {
            &&& match c.scale {
                Magnitude::Exact(s) => s.rational@.0 != 0,
                Magnitude::Approximate(_) => true,
            }
            &&& match c.offset {
                Magnitude::Exact(o) => crate::scalar::value_ok(o@),
                Magnitude::Approximate(_) => true,
            }
        },
    }
}

/// Every unit's exact magnitudes are usable.
#[verifier::opaque]
pub open spec fn registry_units_ok(v: RegistryView) -> bool {
    forall|u: int| 0 <= u < v.units.len() ==> unit_magnitudes_ok(#[trigger] v.units[u])
}

/// The first fault of a catalog: its schema, its kinds, its units, their
/// references, the floors (`finite[k]` says whether kind `k`'s floor has a
/// finite binary64 value), the dimensionless and time kinds, the rates, and
/// the twin rows, in that order.
pub open spec fn compile_fault(c: Catalog, finite: Seq<bool>) -> Option<CatalogErrorView> {
    let nk = c.kinds@.len() as int;
    let nu = c.units@.len() as int;
    if c.schema != crate::catalog::CATALOG_SCHEMA {
        Some(CatalogErrorView::Schema { expected: crate::catalog::CATALOG_SCHEMA, actual: c.schema })
    } else if kinds_fault(c) is Some {
        kinds_fault(c)
    } else if first_some(nu, unit_faults(c)) is Some {
        first_some(nu, unit_faults(c))
    } else if first_some(nu, reference_faults(c)) is Some {
        first_some(nu, reference_faults(c))
    } else if first_some(nk, minimum_faults(c, finite)) is Some {
        first_some(nk, minimum_faults(c, finite))
    } else if dimensionless_spec(c) is Err {
        Some(dimensionless_spec(c)->Err_0)
    } else if time_spec(c) is Err {
        Some(time_spec(c)->Err_0)
    } else if first_some(nk, rate_faults(c, duration_spec(c))) is Some {
        first_some(nk, rate_faults(c, duration_spec(c)))
    } else {
        first_some(c.operations@.len() as int, operation_faults(c))
    }
}

/// The time kind of a catalog that names a valid one.
pub open spec fn time_index(c: Catalog) -> Option<int> {
    match time_spec(c) {
        Ok(x) => x,
        Err(_) => None,
    }
}

/// The registry a catalog without faults compiles to.
pub open spec fn compiled_registry(c: Catalog) -> RegistryView {
    RegistryView {
        kinds: compiled_kinds(c),
        units: c.units@,
        twins: twin_rows(c, c.operations@.len() as int),
        dimensionless: dimensionless_index(c),
        time: time_index(c),
        provenance: crate::notes::notes_listing(crate::catalog::text_pairs(c.provenance@)),
    }
}

impl Registry {
    #[verifier::type_invariant]
    closed spec fn inv(self) -> bool {
        &&& registry_ok(self@)
        &&& registry_kinds_ok(self@)
        &&& registry_dims_ok(self@)
        &&& registry_units_ok(self@)
        &&& crate::ordered::keys_sorted(self@.provenance)
    }

    /// Check a catalog and compile it. `finite_minima[k]` says whether kind
    /// `k`'s declared floor has a finite binary64 value.
    pub fn compile(catalog: Catalog, finite_minima: Vec<bool>) -> (r: Result<Registry, CatalogError>)
        requires
            finite_minima.len() == catalog.kinds.len(),
        ensures
            compile_fault(catalog, finite_minima@) matches Some(e) ==> (r matches Err(x) && x@
                == e),
            compile_fault(catalog, finite_minima@) is None ==> (r matches Ok(reg) && reg@
                == compiled_registry(catalog)),
    {
        let c = &catalog;
        if c.schema != crate::catalog::CATALOG_SCHEMA {
            return Err(
                CatalogError::Schema {
                    expected: crate::catalog::CATALOG_SCHEMA,
                    actual: c.schema,
                },
            );
        }
        let kids = declared_kind_ids(c);
        let uids = declared_unit_ids(c);
        let resolved = match compile_kinds(c, &kids) {
            Ok(resolved) => resolved,
            Err(e) => {
                return Err(e);
            },
        };
        if let Err(e) = check_units(c, &kids, &uids) {
            return Err(e);
        }
        if let Err(e) = check_references(c, &kids, &uids) {
            return Err(e);
        }
        if let Err(e) = check_minima(c, &finite_minima) {
            return Err(e);
        }
        let one = match resolve_dimensionless(c, &kids, &resolved) {
            Ok(one) => one,
            Err(e) => {
                return Err(e);
            },
        };
        let time = match resolve_time(c, &kids, &resolved) {
            Ok(time) => time,
            Err(e) => {
                return Err(e);
            },
        };
        let duration = match time {
            Some(t) => resolved[t].difference,
            None => None,
        };
        proof {
            if let Some(t) = time {
                assert(resolved@[t as int]@ == resolved_kind(*c, t as int));
                lemma_first_where(kind_ids(*c).len() as int, |m: int| kind_ids(*c)[m] == c.kinds@[t as int].difference_kind->0@);
            }
        }
        if let Err(e) = check_rates(c, &kids, &resolved, duration) {
            return Err(e);
        }
        let kinds = finish_kinds(c, &kids, resolved);
        let mut twins: Vec<Twin> = Vec::new();
        let n = c.operations.len();
        let ghost f = operation_faults(*c);
        assert(twins_view(twins@) =~= twin_rows(*c, 0));
        assert(compile_fault(*c, finite_minima@) == first_some(n as int, f));
        for p in 0..n
            invariant
                n == c.operations.len(),
                compile_fault(*c, finite_minima@) == first_some(n as int, f),
                *c == catalog,
                texts(kids@) == kind_ids(*c),
                kinds.len() == c.kinds.len(),
                forall|m: int| 0 <= m < kinds.len() ==> (#[trigger] kinds@[m])@ == compiled_kind(*c, m),
                opt_int(one) == dimensionless_index(*c),
                one matches Some(o) ==> o < kinds.len(),
                opt_int(duration) == duration_spec(*c),
                twins_view(twins@) == twin_rows(*c, p as int),
                forall|m: int| 0 <= m < kinds.len() ==> ((#[trigger] kinds@[m]).dimensions matches Some(d) ==> crate::dimension::dims_ok(d@)),
                f == operation_faults(*c),
                first_some(p as int, f) is None,
        {
            proof {
                lemma_first_some_step(p as int, f);
            }
            let (l, r, res) = match check_operation(c, &kids, &kinds, one, duration, &twins, p) {
                Ok(x) => x,
                Err(e) => {
                    proof {
                        lemma_first_some_prefix(n as int, p + 1, f);
                    }
                    return Err(e);
                },
            };
            let o = &c.operations[p];
            twins.push(Twin { left: l, op: o.op, right: r, result: res });
            if o.commutative && l != r {
                twins.push(Twin { left: r, op: o.op, right: l, result: res });
            }
            assert(twins_view(twins@) =~= twin_rows(*c, p + 1));
        }
        proof {
            lemma_compiled_ok(catalog, finite_minima@);
            assert(kinds_view(kinds@) =~= compiled_kinds(catalog));
            reveal(registry_dims_ok);
            assert forall|i: int| 0 <= i < kinds_view(kinds@).len() implies ((#[trigger] kinds_view(kinds@)[i]).dimensions matches Some(d)
                ==> crate::dimension::dims_ok(d)) by {
                assert(kinds_view(kinds@)[i] == kinds@[i]@);
            }
        }
        let nu = c.units.len();
        proof {
            lemma_first_some_none_all(nu as int, unit_faults(*c));
        }
        for u in 0..nu
            invariant
                nu == c.units.len(),
                *c == catalog,
                first_some(nu as int, unit_faults(*c)) is None,
                forall|m: int| 0 <= m < nu ==> (#[trigger] unit_faults(*c)(m)) is None,
                forall|m: int| 0 <= m < u ==> unit_magnitudes_ok(#[trigger] c.units@[m]),
        {
            assert(unit_faults(*c)(u as int) is None);
            if let Some(conversion) = &c.units[u].conversion {
                if let Magnitude::Exact(o) = &conversion.offset {
                    o.well_formed();
                }
            }
            assert(unit_magnitudes_ok(c.units@[u as int]));
        }
        proof {
            reveal(registry_units_ok);
        }
        let ghost whole = catalog;
        let Catalog { units, provenance, .. } = catalog;
        assert(units@ == whole.units@);
        let provenance = crate::notes::sorted_notes(provenance);
        let registry = Registry { kinds, units, twins, dimensionless: one, time, provenance };
        Ok(registry)
    }
}

/// A catalog without faults compiles to a registry that holds what every
/// registry holds.
proof fn lemma_compiled_ok(c: Catalog, finite: Seq<bool>)
    requires
        compile_fault(c, finite) is None,
    ensures
        registry_ok(compiled_registry(c)),
        registry_kinds_ok(compiled_registry(c)),
{
    let v = compiled_registry(c);
    let nk = c.kinds@.len() as int;
    let nu = c.units@.len() as int;
    let no = c.operations@.len() as int;
    assert(registry_kind_ids(v) =~= kind_ids(c));
    assert(registry_unit_ids(v) =~= unit_ids(c));
    assert forall|i: int| 0 <= i < nk implies {
        let k = #[trigger] v.kinds[i];
        &&& below(k.difference, nk)
        &&& below(k.canonical, nu)
        &&& below(k.rate_of, nk)
        &&& below(k.rate, nk)
        &&& (k.minimum matches Some(m) ==> 0 <= m.1 < nu)
    } by {
        if let Some(d) = c.kinds@[i].difference_kind {
            lemma_first_where(nk, |m: int| kind_ids(c)[m] == d@);
        }
        lemma_first_where(nu, canonical_candidates(c, i));
        if let Some(o) = c.kinds@[i].rate_of {
            lemma_first_where(nk, |m: int| kind_ids(c)[m] == o@);
        }
        lemma_first_where(nk, rate_by(c, i));
    }
    lemma_first_some_none_all(nu, unit_faults(c));
    assert forall|u: int, j: int|
        0 <= u < nu && 0 <= j < v.units[u].kinds@.len() implies first_index(
        registry_kind_ids(v),
        (#[trigger] v.units[u].kinds@[j])@,
    ) is Some by {
        assert(unit_faults(c)(u) is None);
        lemma_first_some_none_all(
            c.units@[u].kinds@.len() as int,
            unknown_kind_faults(c, c.units@[u]),
        );
        assert(unknown_kind_faults(c, c.units@[u])(j) is None);
    }
    lemma_first_some_none_all(nu, reference_faults(c));
    assert forall|u: int|
        0 <= u < nu implies ((#[trigger] v.units[u]).conversion matches Some(cv) ==> first_index(
        registry_unit_ids(v),
        cv.reference_unit@,
    ) is Some) by {
        assert(reference_faults(c)(u) is None);
    }
    lemma_first_some_none_all(no, operation_faults(c));
    lemma_twin_rows_ok(c, no);
    if let Some(id) = c.dimensionless {
        lemma_first_where(nk, |m: int| kind_ids(c)[m] == id@);
    }
    if let Some(id) = c.time {
        lemma_first_where(nk, |m: int| kind_ids(c)[m] == id@);
    }
    lemma_compiled_kinds_ok(c, finite);
}

/// The kinds of a catalog without faults hold what a registry's kinds hold.
proof fn lemma_compiled_kinds_ok(c: Catalog, finite: Seq<bool>)
    requires
        compile_fault(c, finite) is None,
    ensures
        registry_kinds_ok(compiled_registry(c)),
{
    reveal(registry_kinds_ok);
    let v = compiled_registry(c);
    let nk = c.kinds@.len() as int;
    let no = c.operations@.len() as int;
    lemma_compiled_roles_ok(c, finite);
    lemma_first_some_none_all(no, operation_faults(c));
    lemma_twin_rows_ok(c, no);
    assert forall|t: int| 0 <= t < v.twins.len() implies v.kinds[(#[trigger] v.twins[t]).3].role
        != AffineRole::Point by {
        assert(v.twins[t] == twin_rows(c, no)[t]);
    }
    lemma_compiled_rates_ok(c, finite);
    if let Some(id) = c.dimensionless {
        lemma_first_where(nk, |m: int| kind_ids(c)[m] == id@);
    }
    if let Some(id) = c.time {
        lemma_first_where(nk, |m: int| kind_ids(c)[m] == id@);
    }
}

/// Points, their difference kinds, and the dimensionless and time kinds.
proof fn lemma_compiled_roles_ok(c: Catalog, finite: Seq<bool>)
    requires
        compile_fault(c, finite) is None,
    ensures
        ({
            let v = compiled_registry(c);
            let nk = v.kinds.len() as int;
            &&& forall|i: int|
                0 <= i < nk ==> ((#[trigger] v.kinds[i]).role == AffineRole::Point) == (
                v.kinds[i].difference is Some)
            &&& forall|i: int|
                0 <= i < nk ==> ((#[trigger] v.kinds[i]).difference matches Some(d) ==> v.kinds[d].role
                    == AffineRole::Difference && v.kinds[d].dimensions == v.kinds[i].dimensions)
        }),
{
    let v = compiled_registry(c);
    let nk = c.kinds@.len() as int;
    lemma_first_some_none_all(nk, difference_faults(c));
    assert forall|i: int| 0 <= i < nk implies ((#[trigger] v.kinds[i]).role == AffineRole::Point)
        == (v.kinds[i].difference is Some) by {
        assert(difference_faults(c)(i) is None);
        if let Some(d) = c.kinds@[i].difference_kind {
            lemma_first_where(nk, |m: int| kind_ids(c)[m] == d@);
        }
    }
    assert forall|i: int| 0 <= i < nk implies ((#[trigger] v.kinds[i]).difference matches Some(d)
        ==> v.kinds[d].role == AffineRole::Difference && v.kinds[d].dimensions
        == v.kinds[i].dimensions) by {
        assert(difference_faults(c)(i) is None);
        if let Some(dk) = c.kinds@[i].difference_kind {
            lemma_first_where(nk, |m: int| kind_ids(c)[m] == dk@);
            if let Some(d) = kind_index(c, dk@) {
                assert(difference_of(c, i) == Some(d));
                assert(is_difference_kind(c, d));
            }
        }
    }
}

/// Rates name each other, and a rate times the duration is what it is the
/// rate of.
proof fn lemma_compiled_rates_ok(c: Catalog, finite: Seq<bool>)
    requires
        compile_fault(c, finite) is None,
    ensures
        ({
            let v = compiled_registry(c);
            forall|i: int|
                0 <= i < v.kinds.len() ==> ((#[trigger] v.kinds[i]).rate_of matches Some(t)
                    ==> rate_ok(v, i, t))
        }),
{
    let v = compiled_registry(c);
    let nk = c.kinds@.len() as int;
    lemma_first_some_none_all(nk, rate_faults(c, duration_spec(c)));
    assert forall|i: int| 0 <= i < nk implies ((#[trigger] v.kinds[i]).rate_of matches Some(t)
        ==> rate_ok(v, i, t)) by {
        assert(rate_faults(c, duration_spec(c))(i) is None);
        if let Some(o) = c.kinds@[i].rate_of {
            lemma_first_where(nk, |m: int| kind_ids(c)[m] == o@);
            if let Some(t) = kind_index(c, o@) {
                lemma_rate_ok(c, i, t);
            }
        }
    }
}

/// Kind `i`, a declared rate of kind `t` without faults, is as `rate_ok`
/// says.
proof fn lemma_rate_ok(c: Catalog, i: int, t: int)
    requires
        0 <= i < c.kinds@.len(),
        0 <= t < c.kinds@.len(),
        rate_target(c, i) == Some(t),
        rate_fault(c, duration_spec(c), i) is None,
        time_spec(c) is Ok,
        dimensionless_spec(c) is Ok,
        kinds_fault(c) is None,
    ensures
        rate_ok(compiled_registry(c), i, t),
{
    let v = compiled_registry(c);
    let nk = c.kinds@.len() as int;
    let p = rate_by(c, t);
    lemma_first_where(i, p);
    assert(p(i));
    lemma_first_where_at(nk, p, i);
    assert(v.kinds[t].rate == Some(i));
    if let Some(id) = c.time {
        lemma_first_where(nk, |m: int| kind_ids(c)[m] == id@);
    }
    if let Some(tm) = time_index(c) {
        if let Some(dk) = c.kinds@[tm].difference_kind {
            lemma_first_where(nk, |m: int| kind_ids(c)[m] == dk@);
        }
        assert(duration_of(v) == duration_spec(c));
    }
}

/// The rows of operations without faults name declared kinds.
proof fn lemma_twin_rows_ok(c: Catalog, n: int)
    requires
        0 <= n <= c.operations@.len(),
        forall|p: int| 0 <= p < n ==> (#[trigger] operation_faults(c)(p)) is None,
    ensures
        forall|t: int|
            0 <= t < twin_rows(c, n).len() ==> {
                let row = #[trigger] twin_rows(c, n)[t];
                0 <= row.0 < c.kinds@.len() && 0 <= row.2 < c.kinds@.len() && 0 <= row.3
                    < c.kinds@.len() && compiled_kinds(c)[row.3].role != AffineRole::Point
            },
    decreases n,
{
    if n > 0 {
        lemma_twin_rows_ok(c, n - 1);
        let o = c.operations@[n - 1];
        assert(operation_faults(c)(n - 1) is None);
        let nk = c.kinds@.len() as int;
        lemma_first_where(nk, |m: int| kind_ids(c)[m] == o.left@);
        lemma_first_where(nk, |m: int| kind_ids(c)[m] == o.right@);
        lemma_first_where(nk, |m: int| kind_ids(c)[m] == o.result@);
        let prev = twin_rows(c, n - 1);
        assert forall|t: int| 0 <= t < twin_rows(c, n).len() implies {
            let row = #[trigger] twin_rows(c, n)[t];
            0 <= row.0 < nk && 0 <= row.2 < nk && 0 <= row.3 < nk && compiled_kinds(c)[row.3].role
                != AffineRole::Point
        } by {
            if t < prev.len() {
                assert(twin_rows(c, n)[t] == prev[t]);
            } else {
                assert(twin_rows(c, n)[t] == op_rows(c, n - 1)[t - prev.len()]);
            }
        }
    }
}

// ---------------------------------------------------------------------------
// Handles.
/// `std::ptr::eq` on two registries: whether they are one object. One object
/// has one value; nothing is said of two objects of equal value.
#[verifier::external_body]
fn same_object(a: &Registry, b: &Registry) -> (r: bool)
    ensures
        r ==> a@ == b@,
{
    std::ptr::eq(a, b)
}

/// A kind of a registry. Handles of different registries are never equal.
#[derive(Clone, Copy)]
pub struct Kind<'r> {
    registry: &'r Registry,
    index: usize,
}

/// A unit of a registry.
#[derive(Clone, Copy)]
pub struct Unit<'r> {
    registry: &'r Registry,
    index: usize,
}

/// The kind a name denotes in a registry (the first of that name).
pub open spec fn kind_of_name(v: RegistryView, name: Seq<char>) -> int {
    index_or_zero(first_index(registry_kind_ids(v), name))
}

/// The unit a name denotes in a registry.
pub open spec fn unit_of_name(v: RegistryView, name: Seq<char>) -> int {
    index_or_zero(first_index(registry_unit_ids(v), name))
}

/// The kinds unit `u` is declared for, in order.
pub open spec fn unit_kinds(v: RegistryView, u: int) -> Seq<int> {
    v.units[u].kinds@.map_values(|n: String| kind_of_name(v, n@))
}

impl<'r> Kind<'r> {
    #[verifier::type_invariant]
    closed spec fn inv(self) -> bool {
        self.index < self.registry.kinds@.len()
    }

    /// The registry the handle belongs to.
    pub closed spec fn owner(self) -> RegistryView {
        self.registry@
    }

    /// The kind's position in its registry.
    pub closed spec fn at(self) -> int {
        self.index as int
    }

    /// The compiled kind the handle names.
    pub open spec fn compiled(self) -> CompiledKindView {
        self.owner().kinds[self.at()]
    }

    pub fn registry(self) -> (r: &'r Registry)
        ensures
            r@ == self.owner(),
    {
        self.registry
    }

    /// The handle's position among its registry's kinds.
    pub fn index(self) -> (r: usize)
        ensures
            r == self.at(),
            r < self.owner().kinds.len(),
    {
        proof {
            use_type_invariant(self);
        }
        self.index
    }

    pub fn id(self) -> (r: &'r str)
        ensures
            r@ == self.compiled().id,
    {
        proof {
            use_type_invariant(self);
        }
        self.registry.kinds[self.index].id.as_str()
    }

    pub fn role(self) -> (r: AffineRole)
        ensures
            r == self.compiled().role,
    {
        proof {
            use_type_invariant(self);
        }
        self.registry.kinds[self.index].role
    }

    pub fn grade(self) -> (r: Grade)
        ensures
            r == self.compiled().grade,
    {
        proof {
            use_type_invariant(self);
        }
        self.registry.kinds[self.index].grade
    }

    pub fn dimensions(self) -> (r: Result<&'r Dimensions, QuantityError>)
        ensures
            self.compiled().dimensions matches Some(d) ==> (r matches Ok(x) && x@ == d),
            self.compiled().dimensions is None ==> (r matches Err(e) && e@
                == QuantityErrorView::UnresolvedDimensions(self.compiled().id)),
    {
        proof {
            use_type_invariant(self);
        }
        match &self.registry.kinds[self.index].dimensions {
            Some(d) => Ok(d),
            None => Err(QuantityError::UnresolvedDimensions(self.registry.kinds[self.index].id.clone())),
        }
    }

    /// The unit a computed quantity of this kind is held in.
    pub fn canonical_unit(self) -> (r: Result<Unit<'r>, QuantityError>)
        ensures
            self.compiled().canonical matches Some(u) ==> (r matches Ok(x) && x.at() == u
                && x.owner() == self.owner()),
            self.compiled().canonical is None ==> (r matches Err(e) && e@
                == QuantityErrorView::NoCanonicalUnit { kind: self.compiled().id }),
    {
        proof {
            use_type_invariant(self);
            use_type_invariant(self.registry);
            assert(self.registry@.kinds[self.index as int] == self.registry.kinds@[self.index as int]@);
        }
        match self.registry.kinds[self.index].canonical {
            Some(u) => Ok(Unit { registry: self.registry, index: u }),
            None => Err(QuantityError::NoCanonicalUnit { kind: self.registry.kinds[self.index].id.clone() }),
        }
    }

    /// The declared floor of this kind and the unit it is stated in.
    pub fn minimum(self) -> (r: Option<(&'r ExactScalar, Unit<'r>)>)
        ensures
            self.compiled().minimum matches Some(m) ==> (r matches Some(x) && x.0@ == m.0
                && x.1.at() == m.1 && x.1.owner() == self.owner()),
            self.compiled().minimum is None ==> r is None,
    {
        proof {
            use_type_invariant(self);
            use_type_invariant(self.registry);
            assert(self.registry@.kinds[self.index as int] == self.registry.kinds@[self.index as int]@);
        }
        match &self.registry.kinds[self.index].minimum {
            Some(m) => Some((&m.declared, Unit { registry: self.registry, index: m.unit })),
            None => None,
        }
    }

    /// The kind this one is the rate of.
    pub fn rate_of(self) -> (r: Option<Kind<'r>>)
        ensures
            self.compiled().rate_of matches Some(k) ==> (r matches Some(x) && x.at() == k
                && x.owner() == self.owner()),
            self.compiled().rate_of is None ==> r is None,
    {
        proof {
            use_type_invariant(self);
            use_type_invariant(self.registry);
            assert(self.registry@.kinds[self.index as int] == self.registry.kinds@[self.index as int]@);
        }
        match self.registry.kinds[self.index].rate_of {
            Some(k) => Some(Kind { registry: self.registry, index: k }),
            None => None,
        }
    }

    /// The kind that is this one's rate.
    pub fn rate(self) -> (r: Option<Kind<'r>>)
        ensures
            self.compiled().rate matches Some(k) ==> (r matches Some(x) && x.at() == k
                && x.owner() == self.owner()),
            self.compiled().rate is None ==> r is None,
    {
        proof {
            use_type_invariant(self);
            use_type_invariant(self.registry);
            assert(self.registry@.kinds[self.index as int] == self.registry.kinds@[self.index as int]@);
        }
        match self.registry.kinds[self.index].rate {
            Some(k) => Some(Kind { registry: self.registry, index: k }),
            None => None,
        }
    }

    /// Refuses a handle of another registry. Two registries of different
    /// value are always refused; whether two of equal value are is a matter
    /// of identity.
    pub fn same_registry(self, other: Kind<'_>) -> (r: Result<(), QuantityError>)
        ensures
            r is Ok ==> self.owner() == other.owner(),
            r matches Err(e) ==> e@ == QuantityErrorView::RegistryMismatch,
    {
        if same_object(self.registry, other.registry) {
            Ok(())
        } else {
            Err(QuantityError::RegistryMismatch)
        }
    }
}

impl<'r> Unit<'r> {
    #[verifier::type_invariant]
    closed spec fn inv(self) -> bool {
        self.index < self.registry.units@.len()
    }

    /// The registry the handle belongs to.
    pub closed spec fn owner(self) -> RegistryView {
        self.registry@
    }

    /// The unit's position in its registry.
    pub closed spec fn at(self) -> int {
        self.index as int
    }

    /// The declaration the handle names.
    pub open spec fn declaration(self) -> UnitDecl {
        self.owner().units[self.at()]
    }

    pub fn registry(self) -> (r: &'r Registry)
        ensures
            r@ == self.owner(),
    {
        self.registry
    }

    /// The handle's position among its registry's units.
    pub fn index(self) -> (r: usize)
        ensures
            r == self.at(),
            r < self.owner().units.len(),
    {
        proof {
            use_type_invariant(self);
        }
        self.index
    }

    pub fn id(self) -> (r: &'r str)
        ensures
            r@ == self.declaration().id@,
    {
        proof {
            use_type_invariant(self);
        }
        self.registry.units[self.index].id.as_str()
    }

    pub fn symbol(self) -> (r: &'r str)
        ensures
            r@ == self.declaration().symbol@,
    {
        proof {
            use_type_invariant(self);
        }
        self.registry.units[self.index].symbol.as_str()
    }

    /// The declaration the handle names.
    pub fn decl(self) -> (r: &'r UnitDecl)
        ensures
            *r == self.declaration(),
    {
        proof {
            use_type_invariant(self);
        }
        &self.registry.units[self.index]
    }
}

// ---------------------------------------------------------------------------
// Looking up kinds and units.
/// The units written with a symbol among the first `n`, in order.
pub open spec fn symbol_units(v: RegistryView, symbol: Seq<char>, n: int) -> Seq<int>
    decreases n,
{
    if n <= 0 {
        Seq::empty()
    } else if v.units[n - 1].symbol@ == symbol {
        symbol_units(v, symbol, n - 1).push(n - 1)
    } else {
        symbol_units(v, symbol, n - 1)
    }
}

/// `acc` with `x` added at the end unless it holds it already.
pub open spec fn push_new(acc: Seq<int>, x: int) -> Seq<int> {
    if acc.contains(x) {
        acc
    } else {
        acc.push(x)
    }
}

/// `acc` with each of `xs` added in turn, skipping repeats.
pub open spec fn push_all_new(acc: Seq<int>, xs: Seq<int>) -> Seq<int>
    decreases xs.len(),
{
    if xs.len() == 0 {
        acc
    } else {
        push_new(push_all_new(acc, xs.drop_last()), xs.last())
    }
}

/// The kinds of the units `us`, each once, in order of first appearance.
pub open spec fn kinds_of_units(v: RegistryView, us: Seq<int>) -> Seq<int>
    decreases us.len(),
{
    if us.len() == 0 {
        Seq::empty()
    } else {
        push_all_new(kinds_of_units(v, us.drop_last()), unit_kinds(v, us.last()))
    }
}

/// The positions of handles.
pub open spec fn kind_positions(s: Seq<Kind>) -> Seq<int> {
    s.map_values(|k: Kind| k.at())
}

pub open spec fn unit_positions(s: Seq<Unit>) -> Seq<int> {
    s.map_values(|u: Unit| u.at())
}

impl Registry {
    /// The registry holds what every registry holds.
    pub fn well_formed(&self)
        ensures
            registry_ok(self@),
            registry_kinds_ok(self@),
            registry_dims_ok(self@),
            registry_units_ok(self@),
    {
        proof {
            use_type_invariant(self);
        }
    }

    fn kind_position(&self, id: &str) -> (r: Option<usize>)
        ensures
            opt_int(r) == first_index(registry_kind_ids(self@), id@),
            r matches Some(i) ==> i < self@.kinds.len(),
    {
        let ghost ids = registry_kind_ids(self@);
        let ghost p = |i: int| ids[i] == id@;
        let n = self.kinds.len();
        for i in 0..n
            invariant
                n == self.kinds.len(),
                ids == registry_kind_ids(self@),
                p == (|i: int| ids[i] == id@),
                forall|j: int| 0 <= j < i ==> !#[trigger] p(j),
        {
            assert(ids[i as int] == self.kinds@[i as int].id@);
            if str_eq(self.kinds[i].id.as_str(), id) {
                proof {
                    lemma_first_where_at(ids.len() as int, p, i as int);
                }
                return Some(i);
            }
        }
        proof {
            lemma_first_where_none(ids.len() as int, p);
        }
        None
    }

    fn unit_position(&self, id: &str) -> (r: Option<usize>)
        ensures
            opt_int(r) == first_index(registry_unit_ids(self@), id@),
            r matches Some(i) ==> i < self@.units.len(),
    {
        let ghost ids = registry_unit_ids(self@);
        let ghost p = |i: int| ids[i] == id@;
        let n = self.units.len();
        for i in 0..n
            invariant
                n == self.units.len(),
                ids == registry_unit_ids(self@),
                p == (|i: int| ids[i] == id@),
                forall|j: int| 0 <= j < i ==> !#[trigger] p(j),
        {
            assert(ids[i as int] == self.units@[i as int].id@);
            if str_eq(self.units[i].id.as_str(), id) {
                proof {
                    lemma_first_where_at(ids.len() as int, p, i as int);
                }
                return Some(i);
            }
        }
        proof {
            lemma_first_where_none(ids.len() as int, p);
        }
        None
    }

    /// Named provenance notes by increasing name, one per name: the
    /// catalog's notes read as a map, a later note of a name replacing an
    /// earlier one.
    pub fn provenance(&self) -> (r: &Vec<(String, String)>)
        ensures
            crate::catalog::text_pairs(r@) == self@.provenance,
            crate::ordered::keys_sorted(self@.provenance),
    {
        proof {
            use_type_invariant(self);
        }
        &self.provenance
    }

    /// The kind with an identifier.
    pub fn kind(&self, id: &str) -> (r: Result<Kind<'_>, QuantityError>)
        ensures
            first_index(registry_kind_ids(self@), id@) matches Some(i) ==> (r matches Ok(k)
                && k.at() == i && k.owner() == self@),
            first_index(registry_kind_ids(self@), id@) is None ==> (r matches Err(e) && e@
                == QuantityErrorView::Unknown { record: Record::Kind, id: id@ }),
    {
        match self.kind_position(id) {
            Some(index) => Ok(Kind { registry: self, index }),
            None => Err(QuantityError::Unknown { record: Record::Kind, id: id.to_owned() }),
        }
    }

    /// Every declared kind, in declaration order.
    pub fn kinds(&self) -> (r: Vec<Kind<'_>>)
        ensures
            r.len() == self@.kinds.len(),
            forall|i: int| 0 <= i < r.len() ==> (#[trigger] r@[i]).at() == i && r@[i].owner() == self@,
    {
        let mut r: Vec<Kind<'_>> = Vec::new();
        let n = self.kinds.len();
        for index in 0..n
            invariant
                n == self.kinds.len(),
                r.len() == index,
                forall|i: int| 0 <= i < r.len() ==> (#[trigger] r@[i]).at() == i && r@[i].owner() == self@,
        {
            r.push(Kind { registry: self, index });
        }
        r
    }

    /// The unit with an identifier.
    pub fn unit(&self, id: &str) -> (r: Result<Unit<'_>, QuantityError>)
        ensures
            first_index(registry_unit_ids(self@), id@) matches Some(i) ==> (r matches Ok(u)
                && u.at() == i && u.owner() == self@),
            first_index(registry_unit_ids(self@), id@) is None ==> (r matches Err(e) && e@
                == QuantityErrorView::Unknown { record: Record::Unit, id: id@ }),
    {
        match self.unit_position(id) {
            Some(index) => Ok(Unit { registry: self, index }),
            None => Err(QuantityError::Unknown { record: Record::Unit, id: id.to_owned() }),
        }
    }

    /// Every declared unit, in declaration order.
    pub fn units(&self) -> (r: Vec<Unit<'_>>)
        ensures
            r.len() == self@.units.len(),
            forall|i: int| 0 <= i < r.len() ==> (#[trigger] r@[i]).at() == i && r@[i].owner() == self@,
    {
        let mut r: Vec<Unit<'_>> = Vec::new();
        let n = self.units.len();
        for index in 0..n
            invariant
                n == self.units.len(),
                r.len() == index,
                forall|i: int| 0 <= i < r.len() ==> (#[trigger] r@[i]).at() == i && r@[i].owner() == self@,
        {
            r.push(Unit { registry: self, index });
        }
        r
    }

    /// The time kind, if the catalog named one.
    pub fn time(&self) -> (r: Option<Kind<'_>>)
        ensures
            self@.time matches Some(t) ==> (r matches Some(k) && k.at() == t && k.owner() == self@),
            self@.time is None ==> r is None,
    {
        proof {
            use_type_invariant(self);
        }
        match self.time {
            Some(index) => Some(Kind { registry: self, index }),
            None => None,
        }
    }

    /// The dimensionless kind, if the catalog named one.
    pub fn dimensionless(&self) -> (r: Option<Kind<'_>>)
        ensures
            self@.dimensionless matches Some(t) ==> (r matches Some(k) && k.at() == t && k.owner()
                == self@),
            self@.dimensionless is None ==> r is None,
    {
        proof {
            use_type_invariant(self);
        }
        match self.dimensionless {
            Some(index) => Some(Kind { registry: self, index }),
            None => None,
        }
    }

    /// The units written with a symbol, in declaration order.
    pub fn units_for_symbol(&self, symbol: &str) -> (r: Result<Vec<Unit<'_>>, QuantityError>)
        ensures
            symbol_units(self@, symbol@, self@.units.len() as int).len() > 0 ==> (r matches Ok(v)
                && unit_positions(v@) == symbol_units(self@, symbol@, self@.units.len() as int)
                && forall|i: int| 0 <= i < v.len() ==> (#[trigger] v@[i]).owner() == self@),
            symbol_units(self@, symbol@, self@.units.len() as int).len() == 0 ==> (r matches Err(e)
                && e@ == QuantityErrorView::Unknown { record: Record::UnitSymbol, id: symbol@ }),
    {
        let mut found: Vec<Unit<'_>> = Vec::new();
        let n = self.units.len();
        for index in 0..n
            invariant
                n == self.units.len(),
                unit_positions(found@) == symbol_units(self@, symbol@, index as int),
                forall|i: int| 0 <= i < found.len() ==> (#[trigger] found@[i]).owner() == self@,
        {
            assert(self@.units[index as int] == self.units@[index as int]);
            if str_eq(self.units[index].symbol.as_str(), symbol) {
                found.push(Unit { registry: self, index });
                assert(unit_positions(found@) =~= symbol_units(self@, symbol@, index as int).push(
                    index as int,
                ));
            }
        }
        if found.len() == 0 {
            return Err(QuantityError::Unknown { record: Record::UnitSymbol, id: symbol.to_owned() });
        }
        Ok(found)
    }
}

impl<'r> Unit<'r> {
    /// The kinds this unit is declared for.
    pub fn kinds(self) -> (r: Vec<Kind<'r>>)
        ensures
            kind_positions(r@) == unit_kinds(self.owner(), self.at()),
            forall|i: int| 0 <= i < r.len() ==> (#[trigger] r@[i]).owner() == self.owner(),
    {
        proof {
            use_type_invariant(self);
            use_type_invariant(self.registry);
        }
        let registry = self.registry;
        let names = &registry.units[self.index].kinds;
        let mut r: Vec<Kind<'r>> = Vec::new();
        let n = names.len();
        for j in 0..n
            invariant
                n == names.len(),
                *names == registry@.units[self.index as int].kinds,
                self.index < registry@.units.len(),
                registry_ok(registry@),
                r.len() == j,
                kind_positions(r@) == unit_kinds(registry@, self.index as int).take(j as int),
                forall|i: int| 0 <= i < r.len() ==> (#[trigger] r@[i]).owner() == registry@,
        {
            assert(first_index(registry_kind_ids(registry@), registry@.units[self.index as int].kinds@[j as int]@) is Some);
            let index = match registry.kind_position(names[j].as_str()) {
                Some(index) => index,
                None => {
                    proof {
                        assert(false);
                    }
                    0
                },
            };
            r.push(Kind { registry, index });
            assert(unit_kinds(registry@, self.index as int)[j as int] == index as int);
            assert(kind_positions(r@) =~= unit_kinds(registry@, self.index as int).take(j + 1));
        }
        assert(unit_kinds(registry@, self.index as int).take(n as int) =~= unit_kinds(registry@, self.index as int));
        r
    }
}

// ---------------------------------------------------------------------------
// Kind arithmetic.
/// `l op r` refused as an unsupported operation.
pub open spec fn refused(v: RegistryView, operation: Operation, l: int, r: int) -> QuantityErrorView {
    QuantityErrorView::UnsupportedOperation {
        operation,
        left: v.kinds[l].id,
        right: Some(v.kinds[r].id),
    }
}

/// Kind `actual` where kind `expected` is required.
pub open spec fn mismatched(v: RegistryView, expected: int, actual: int) -> QuantityErrorView {
    QuantityErrorView::KindMismatch { expected: v.kinds[expected].id, actual: v.kinds[actual].id }
}

/// The kind of a sum or difference: one kind with itself, and a point kind
/// with its declared difference kind. Two points differ into their
/// difference kind; they never add.
pub open spec fn sum_spec(v: RegistryView, l: int, op: Op, r: int) -> Result<int, QuantityErrorView> {
    let ks = v.kinds;
    let refuse = Err(refused(v, Operation::Binary(op), l, r));
    match (ks[l].role, ks[r].role) {
        (AffineRole::Point, AffineRole::Point) => if op == Op::Sub {
            if l != r {
                Err(mismatched(v, l, r))
            } else {
                match ks[l].difference {
                    Some(d) => Ok(d),
                    None => refuse,
                }
            }
        } else {
            refuse
        },
        (AffineRole::Point, _) => match ks[l].difference {
            None => refuse,
            Some(d) => if r != d {
                Err(mismatched(v, d, r))
            } else {
                Ok(l)
            },
        },
        (_, AffineRole::Point) => if op == Op::Add {
            match ks[r].difference {
                None => Err(refused(v, Operation::Binary(op), r, l)),
                Some(d) => if l != d {
                    Err(mismatched(v, d, l))
                } else {
                    Ok(r)
                },
            }
        } else {
            refuse
        },
        _ => if l != r {
            Err(mismatched(v, l, r))
        } else {
            Ok(l)
        },
    }
}

/// The duration of a registry: its time kind's difference kind.
pub open spec fn duration_of(v: RegistryView) -> Option<int> {
    match v.time {
        Some(t) => v.kinds[t].difference,
        None => None,
    }
}

/// The rows kept for `l op r`.
pub open spec fn row_for(rows: Seq<(int, ProductOp, int, int)>, l: int, op: ProductOp, r: int) -> spec_fn(int) -> bool {
    |q: int| rows[q].0 == l && rows[q].1 == op && rows[q].2 == r
}

/// The result of the first row kept for `l op r`.
pub open spec fn twin_result(rows: Seq<(int, ProductOp, int, int)>, l: int, op: ProductOp, r: int) -> Option<int> {
    match first_where(rows.len() as int, row_for(rows, l, op, r)) {
        Some(q) => Some(rows[q].3),
        None => None,
    }
}

/// The identifiers of kinds.
pub open spec fn kind_texts(v: RegistryView, ks: Seq<int>) -> Seq<Seq<char>> {
    ks.map_values(|k: int| v.kinds[k].id)
}

/// The kind of a product or quotient: what derivation resolves, or among
/// twins the kept row's result.
pub open spec fn product_spec(v: RegistryView, l: int, op: ProductOp, r: int) -> Result<int, QuantityErrorView> {
    let ks = v.kinds;
    match derive_spec(ks, v.dimensionless, duration_of(v), l, op, r) {
        Err(UnderivedView::Point(_)) => Err(refused(v, Operation::Binary(crate::catalog::product_op(op)), l, r)),
        Err(UnderivedView::UnresolvedDimensions(x)) => Err(QuantityErrorView::UnresolvedDimensions(ks[x].id)),
        Err(UnderivedView::Ungraded { left, right }) => Err(
            QuantityErrorView::UngradedProduct {
                left: ks[l].id,
                op,
                right: ks[r].id,
                left_grade: left,
                right_grade: right,
            },
        ),
        Ok(d) => match d.resolved {
            ResolvedView::Kind(k) => Ok(k),
            ResolvedView::NoKind => Err(
                QuantityErrorView::NoProductKind {
                    left: ks[l].id,
                    op,
                    right: ks[r].id,
                    dimensions: d.dimensions,
                    grade: d.grade,
                },
            ),
            ResolvedView::Twins(cs) => match twin_result(v.twins, l, op, r) {
                Some(res) => Ok(res),
                None => Err(
                    QuantityErrorView::UnresolvedTwin {
                        left: ks[l].id,
                        op,
                        right: ks[r].id,
                        twins: kind_texts(v, cs),
                    },
                ),
            },
        },
    }
}

/// The kind of `l op r`: a product where `op` is one, else a sum.
pub open spec fn combine_spec(v: RegistryView, l: int, op: Op, r: int) -> Result<int, QuantityErrorView> {
    match crate::catalog::op_product(op) {
        Some(p) => product_spec(v, l, p, r),
        None => sum_spec(v, l, op, r),
    }
}

/// An outcome as a kind position or an error view.
pub open spec fn index_result(r: Result<usize, QuantityError>) -> Result<int, QuantityErrorView> {
    match r {
        Ok(i) => Ok(i as int),
        Err(e) => Err(e@),
    }
}

impl Registry {
    fn refuse(&self, operation: Operation, l: usize, r: usize) -> (e: QuantityError)
        requires
            l < self@.kinds.len(),
            r < self@.kinds.len(),
        ensures
            e@ == refused(self@, operation, l as int, r as int),
    {
        proof {
            assert(self@.kinds[l as int] == self.kinds@[l as int]@);
            assert(self@.kinds[r as int] == self.kinds@[r as int]@);
        }
        QuantityError::UnsupportedOperation {
            operation,
            left: self.kinds[l].id.clone(),
            right: Some(self.kinds[r].id.clone()),
        }
    }

    fn mismatch(&self, expected: usize, actual: usize) -> (e: QuantityError)
        requires
            expected < self@.kinds.len(),
            actual < self@.kinds.len(),
        ensures
            e@ == mismatched(self@, expected as int, actual as int),
    {
        proof {
            assert(self@.kinds[expected as int] == self.kinds@[expected as int]@);
            assert(self@.kinds[actual as int] == self.kinds@[actual as int]@);
        }
        QuantityError::KindMismatch {
            expected: self.kinds[expected].id.clone(),
            actual: self.kinds[actual].id.clone(),
        }
    }

    /// The kind of kind `l` plus or minus kind `r`.
    pub fn sum_at(&self, l: usize, op: Op, r: usize) -> (res: Result<usize, QuantityError>)
        requires
            l < self@.kinds.len(),
            r < self@.kinds.len(),
        ensures
            index_result(res) == sum_spec(self@, l as int, op, r as int),
            res matches Ok(k) ==> k < self@.kinds.len(),
    {
        proof {
            use_type_invariant(self);
            assert(self@.kinds[l as int] == self.kinds@[l as int]@);
            assert(self@.kinds[r as int] == self.kinds@[r as int]@);
        }
        let (lk, rk) = (&self.kinds[l], &self.kinds[r]);
        match (lk.role, rk.role) {
            (AffineRole::Point, AffineRole::Point) => {
                if op == Op::Sub {
                    if l != r {
                        return Err(self.mismatch(l, r));
                    }
                    match lk.difference {
                        Some(d) => Ok(d),
                        None => Err(self.refuse(Operation::Binary(op), l, r)),
                    }
                } else {
                    Err(self.refuse(Operation::Binary(op), l, r))
                }
            },
            (AffineRole::Point, _) => match lk.difference {
                None => Err(self.refuse(Operation::Binary(op), l, r)),
                Some(d) => if r != d {
                    Err(self.mismatch(d, r))
                } else {
                    Ok(l)
                },
            },
            (_, AffineRole::Point) => {
                if op == Op::Add {
                    match rk.difference {
                        None => Err(self.refuse(Operation::Binary(op), r, l)),
                        Some(d) => if l != d {
                            Err(self.mismatch(d, l))
                        } else {
                            Ok(r)
                        },
                    }
                } else {
                    Err(self.refuse(Operation::Binary(op), l, r))
                }
            },
            _ => if l != r {
                Err(self.mismatch(l, r))
            } else {
                Ok(l)
            },
        }
    }

    /// The result of the first row kept for `l op r`.
    fn twin_row(&self, l: usize, op: ProductOp, r: usize) -> (res: Option<usize>)
        ensures
            opt_int(res) == twin_result(self@.twins, l as int, op, r as int),
            res matches Some(k) ==> k < self@.kinds.len(),
    {
        proof {
            use_type_invariant(self);
        }
        let ghost rows = self@.twins;
        let ghost p = row_for(rows, l as int, op, r as int);
        let n = self.twins.len();
        for q in 0..n
            invariant
                n == self.twins.len(),
                rows == self@.twins,
                rows == twins_view(self.twins@),
                registry_ok(self@),
                p == row_for(rows, l as int, op, r as int),
                forall|m: int| 0 <= m < q ==> !#[trigger] p(m),
        {
            let t = self.twins[q];
            assert(rows[q as int] == t@);
            if t.left == l && t.op == op && t.right == r {
                proof {
                    lemma_first_where_at(n as int, p, q as int);
                }
                return Some(t.result);
            }
        }
        proof {
            lemma_first_where_none(n as int, p);
        }
        None
    }

    /// The kind of kind `l` times, divided by, dotted or wedged with kind
    /// `r`.
    pub fn product_at(&self, l: usize, op: ProductOp, r: usize) -> (res: Result<usize, QuantityError>)
        requires
            l < self@.kinds.len(),
            r < self@.kinds.len(),
        ensures
            index_result(res) == product_spec(self@, l as int, op, r as int),
            res matches Ok(k) ==> k < self@.kinds.len(),
    {
        proof {
            use_type_invariant(self);
            assert(kinds_view(self.kinds@) == self@.kinds);
            assert(self@.kinds[l as int] == self.kinds@[l as int]@);
            assert(self@.kinds[r as int] == self.kinds@[r as int]@);
        }
        let duration = match self.time {
            Some(t) => self.kinds[t].difference,
            None => None,
        };
        proof {
            if let Some(t) = self.time {
                assert(self@.kinds[t as int] == self.kinds@[t as int]@);
            }
        }
        match derive(&self.kinds, self.dimensionless, duration, l, op, r) {
            Err(Underived::Point(_)) => Err(self.refuse(Operation::Binary(op.op()), l, r)),
            Err(Underived::UnresolvedDimensions(x)) => {
                assert(self@.kinds[x as int] == self.kinds@[x as int]@);
                Err(QuantityError::UnresolvedDimensions(self.kinds[x].id.clone()))
            },
            Err(Underived::Ungraded { left, right }) => Err(
                QuantityError::UngradedProduct {
                    left: self.kinds[l].id.clone(),
                    op,
                    right: self.kinds[r].id.clone(),
                    left_grade: left,
                    right_grade: right,
                },
            ),
            Ok(d) => match d.resolved {
                Resolved::Kind(k) => Ok(k),
                Resolved::NoKind => Err(
                    QuantityError::NoProductKind {
                        left: self.kinds[l].id.clone(),
                        op,
                        right: self.kinds[r].id.clone(),
                        dimensions: d.dimensions,
                        grade: d.grade,
                    },
                ),
                Resolved::Twins(cs) => match self.twin_row(l, op, r) {
                    Some(res) => Ok(res),
                    None => {
                        let mut twins: Vec<String> = Vec::new();
                        let m = cs.len();
                        for j in 0..m
                            invariant
                                m == cs.len(),
                                forall|q: int| 0 <= q < m ==> #[trigger] cs@[q] < self@.kinds.len(),
                                self@.kinds == kinds_view(self.kinds@),
                                twins.len() == j,
                                texts(twins@) == kind_texts(self@, ints(cs@)).take(j as int),
                        {
                            assert(self@.kinds[cs@[j as int] as int] == self.kinds@[cs@[j as int] as int]@);
                            twins.push(self.kinds[cs[j]].id.clone());
                            assert(texts(twins@) =~= kind_texts(self@, ints(cs@)).take(j + 1));
                        }
                        assert(kind_texts(self@, ints(cs@)).take(m as int) =~= kind_texts(self@, ints(cs@)));
                        Err(
                            QuantityError::UnresolvedTwin {
                                left: self.kinds[l].id.clone(),
                                op,
                                right: self.kinds[r].id.clone(),
                                twins,
                            },
                        )
                    },
                },
            },
        }
    }

    /// The kind of kind `l` combined with kind `r`.
    pub fn combine_at(&self, l: usize, op: Op, r: usize) -> (res: Result<usize, QuantityError>)
        requires
            l < self@.kinds.len(),
            r < self@.kinds.len(),
        ensures
            index_result(res) == combine_spec(self@, l as int, op, r as int),
            res matches Ok(k) ==> k < self@.kinds.len(),
    {
        match op.product() {
            Some(p) => self.product_at(l, p, r),
            None => self.sum_at(l, op, r),
        }
    }
}

// ---------------------------------------------------------------------------
// Exact conversion.
/// Unit `u`'s exact conversion: its reference unit, scale and offset.
pub open spec fn exact_conversion_spec(v: RegistryView, u: int) -> Result<
    (int, ScalarModel, ValueMap),
    QuantityErrorView,
> {
    match v.units[u].conversion {
        None => Err(QuantityErrorView::UnresolvedConversion { unit: v.units[u].id@ }),
        Some(c) => match (c.scale, c.offset) {
            (Magnitude::Exact(s), Magnitude::Exact(o)) => Ok(
                (unit_of_name(v, c.reference_unit@), s@, o@),
            ),
            _ => Err(QuantityErrorView::ApproximateConversion { unit: v.units[u].id@ }),
        },
    }
}

/// Whether a scalar is zero.
pub open spec fn scalar_is_zero(x: ScalarModel) -> bool {
    let (coefficient, _) = x;
    coefficient.0 == 0
}

/// A value of kind `k` in unit `from`, exactly in unit `to`: both units must
/// be the kind's, with exact conversions to one reference; an offset applies
/// to point kinds and is refused on linear ones.
pub open spec fn convert_spec(v: RegistryView, k: int, value: ValueMap, from: int, to: int) -> Result<
    ValueMap,
    QuantityErrorView,
> {
    let ks = v.kinds;
    if !unit_kinds(v, from).contains(k) {
        Err(QuantityErrorView::UnitKindMismatch { unit: v.units[from].id@, kind: ks[k].id })
    } else if !unit_kinds(v, to).contains(k) {
        Err(QuantityErrorView::UnitKindMismatch { unit: v.units[to].id@, kind: ks[k].id })
    } else if ks[k].dimensions is None {
        Err(QuantityErrorView::UnresolvedDimensions(ks[k].id))
    } else {
        match (exact_conversion_spec(v, from), exact_conversion_spec(v, to)) {
            (Err(e), _) => Err(e),
            (_, Err(e)) => Err(e),
            (Ok((fr, fs, fo)), Ok((tr, ts, tof))) => if ks[k].role == AffineRole::Linear && (fo
                != ValueMap::empty() || tof != ValueMap::empty()) {
                Err(
                    QuantityErrorView::OffsetOnLinearKind {
                        unit: if fo == ValueMap::empty() {
                            v.units[to].id@
                        } else {
                            v.units[from].id@
                        },
                        kind: ks[k].id,
                    },
                )
            } else if fr != tr {
                Err(QuantityErrorView::DisconnectedConversion)
            } else {
                let scaled = value_mul_scalar(value, fs);
                let reference = if ks[k].role == AffineRole::Point {
                    value_sub(value_add(scaled, fo), tof)
                } else {
                    scaled
                };
                if scalar_is_zero(ts) {
                    Err(QuantityErrorView::DivisionByZero)
                } else {
                    Ok(value_div_scalar(reference, ts))
                }
            },
        }
    }
}

/// An outcome as a value or an error view.
pub open spec fn value_result(r: Result<ExactValue, QuantityError>) -> Result<ValueMap, QuantityErrorView> {
    match r {
        Ok(x) => Ok(x@),
        Err(e) => Err(e@),
    }
}

impl Registry {
    /// Refuses kind `k` for unit `u`, by position, where the unit is not
    /// declared for it.
    pub fn require_kind_at(&self, u: usize, k: usize) -> (r: Result<(), QuantityError>)
        requires
            u < self@.units.len(),
            k < self@.kinds.len(),
        ensures
            (r is Ok) == unit_kinds(self@, u as int).contains(k as int),
            r matches Err(e) ==> e@ == (QuantityErrorView::UnitKindMismatch {
                unit: self@.units[u as int].id@,
                kind: self@.kinds[k as int].id,
            }),
    {
        proof {
            use_type_invariant(self);
        }
        if self.unit_lists(u, k) {
            Ok(())
        } else {
            proof {
                assert(self@.kinds[k as int] == self.kinds@[k as int]@);
            }
            Err(
                QuantityError::UnitKindMismatch {
                    unit: self.units[u].id.clone(),
                    kind: self.kinds[k].id.clone(),
                },
            )
        }
    }

    /// Whether unit `u` is declared for kind `k`.
    fn unit_lists(&self, u: usize, k: usize) -> (r: bool)
        requires
            u < self@.units.len(),
        ensures
            r == unit_kinds(self@, u as int).contains(k as int),
    {
        proof {
            use_type_invariant(self);
        }
        let names = &self.units[u].kinds;
        let n = names.len();
        let ghost ks = unit_kinds(self@, u as int);
        for j in 0..n
            invariant
                n == names.len(),
                *names == self@.units[u as int].kinds,
                ks == unit_kinds(self@, u as int),
                u < self@.units.len(),
                registry_ok(self@),
                forall|m: int| 0 <= m < j ==> ks[m] != k as int,
        {
            assert(first_index(registry_kind_ids(self@), self@.units[u as int].kinds@[j as int]@) is Some);
            match self.kind_position(names[j].as_str()) {
                Some(i) => {
                    if i == k {
                        assert(ks[j as int] == k as int);
                        return true;
                    }
                },
                None => {},
            }
        }
        false
    }

    /// Unit `u`'s exact conversion.
    fn exact_conversion_at(&self, u: usize) -> (r: Result<(usize, &ExactScalar, &ExactValue), QuantityError>)
        requires
            u < self@.units.len(),
        ensures
            match (r, exact_conversion_spec(self@, u as int)) {
                (Ok((t, s, o)), Ok((ts, ss, os))) => t == ts && s@ == ss && o@ == os,
                (Err(e), Err(es)) => e@ == es,
                _ => false,
            },
    {
        proof {
            use_type_invariant(self);
        }
        let unit = &self.units[u];
        let conversion = match &unit.conversion {
            Some(c) => c,
            None => {
                return Err(QuantityError::UnresolvedConversion { unit: unit.id.clone() });
            },
        };
        match (&conversion.scale, &conversion.offset) {
            (Magnitude::Exact(s), Magnitude::Exact(o)) => {
                let t = match self.unit_position(conversion.reference_unit.as_str()) {
                    Some(t) => t,
                    None => {
                        proof {
                            assert(false);
                        }
                        0
                    },
                };
                Ok((t, s, o))
            },
            _ => Err(QuantityError::ApproximateConversion { unit: unit.id.clone() }),
        }
    }

    /// A value of kind `k` in unit `from`, exactly in unit `to`.
    pub fn convert_at(&self, k: usize, value: &ExactValue, from: usize, to: usize) -> (r: Result<
        ExactValue,
        QuantityError,
    >)
        requires
            k < self@.kinds.len(),
            from < self@.units.len(),
            to < self@.units.len(),
        ensures
            value_result(r) == convert_spec(self@, k as int, value@, from as int, to as int),
    {
        proof {
            use_type_invariant(self);
            assert(self@.kinds[k as int] == self.kinds@[k as int]@);
        }
        let kind = &self.kinds[k];
        if !self.unit_lists(from, k) {
            return Err(
                QuantityError::UnitKindMismatch { unit: self.units[from].id.clone(), kind: kind.id.clone() },
            );
        }
        if !self.unit_lists(to, k) {
            return Err(
                QuantityError::UnitKindMismatch { unit: self.units[to].id.clone(), kind: kind.id.clone() },
            );
        }
        if kind.dimensions.is_none() {
            return Err(QuantityError::UnresolvedDimensions(kind.id.clone()));
        }
        let (from_ref, from_scale, from_offset) = match self.exact_conversion_at(from) {
            Ok(x) => x,
            Err(e) => {
                return Err(e);
            },
        };
        let (to_ref, to_scale, to_offset) = match self.exact_conversion_at(to) {
            Ok(x) => x,
            Err(e) => {
                return Err(e);
            },
        };
        let from_zero = from_offset.is_zero();
        let to_zero = to_offset.is_zero();
        if kind.role == AffineRole::Linear && (!from_zero || !to_zero) {
            let unit = if from_zero {
                self.units[to].id.clone()
            } else {
                self.units[from].id.clone()
            };
            return Err(QuantityError::OffsetOnLinearKind { unit, kind: kind.id.clone() });
        }
        if from_ref != to_ref {
            return Err(QuantityError::DisconnectedConversion);
        }
        let mut reference = value.multiply_scalar(from_scale);
        if kind.role == AffineRole::Point {
            reference = reference.add(from_offset).sub(to_offset);
        }
        reference.divide_scalar(to_scale)
    }
}

// ---------------------------------------------------------------------------
// Arithmetic through handles.
/// An outcome as a kind position or an error view.
pub open spec fn handle_result(r: Result<Kind, QuantityError>) -> Result<int, QuantityErrorView> {
    match r {
        Ok(k) => Ok(k.at()),
        Err(e) => Err(e@),
    }
}

impl<'r> Kind<'r> {
    /// The kind of `self op other`. This is the only statement of kind
    /// arithmetic: quantities and authored expressions both ask it. A handle
    /// of another registry is refused; when both handles are of one registry
    /// the result is `combine_spec`'s.
    pub fn combine(self, op: Op, other: Self) -> (r: Result<Kind<'r>, QuantityError>)
        ensures
            self.owner() != other.owner() ==> handle_result(r) == Err::<int, QuantityErrorView>(
                QuantityErrorView::RegistryMismatch,
            ),
            handle_result(r) == Err::<int, QuantityErrorView>(QuantityErrorView::RegistryMismatch)
                || handle_result(r) == combine_spec(self.owner(), self.at(), op, other.at()),
            r matches Ok(k) ==> k.owner() == self.owner(),
    {
        proof {
            use_type_invariant(self);
            use_type_invariant(other);
        }
        if let Err(e) = self.same_registry(other) {
            return Err(e);
        }
        match self.registry.combine_at(self.index, op, other.index) {
            Ok(index) => Ok(Kind { registry: self.registry, index }),
            Err(e) => Err(e),
        }
    }

    /// Products and quotients: what derivation resolves, or among twins the
    /// kept row. A handle of another registry is refused.
    pub fn product(self, op: ProductOp, other: Self) -> (r: Result<Kind<'r>, QuantityError>)
        ensures
            self.owner() != other.owner() ==> handle_result(r) == Err::<int, QuantityErrorView>(
                QuantityErrorView::RegistryMismatch,
            ),
            handle_result(r) == Err::<int, QuantityErrorView>(QuantityErrorView::RegistryMismatch)
                || handle_result(r) == product_spec(self.owner(), self.at(), op, other.at()),
            r matches Ok(k) ==> k.owner() == self.owner(),
    {
        proof {
            use_type_invariant(self);
            use_type_invariant(other);
        }
        if let Err(e) = self.same_registry(other) {
            return Err(e);
        }
        match self.registry.product_at(self.index, op, other.index) {
            Ok(index) => Ok(Kind { registry: self.registry, index }),
            Err(e) => Err(e),
        }
    }

    /// Exact conversion of a value of this kind between two of its units.
    /// Units of another registry are refused.
    pub fn convert_exact(self, value: ExactValue, from: Unit<'r>, to: Unit<'r>) -> (r: Result<
        ExactValue,
        QuantityError,
    >)
        ensures
            from.owner() != self.owner() ==> value_result(r) == Err::<ValueMap, QuantityErrorView>(
                QuantityErrorView::RegistryMismatch,
            ),
            value_result(r) == Err::<ValueMap, QuantityErrorView>(
                QuantityErrorView::RegistryMismatch,
            ) || value_result(r) == convert_spec(
                self.owner(),
                self.at(),
                value@,
                from.at(),
                to.at(),
            ),
    {
        proof {
            use_type_invariant(self);
            use_type_invariant(from);
            use_type_invariant(to);
        }
        if !same_object(from.registry, self.registry) {
            return Err(QuantityError::RegistryMismatch);
        }
        if !self.registry.unit_lists(from.index, self.index) {
            return Err(
                QuantityError::UnitKindMismatch {
                    unit: self.registry.units[from.index].id.clone(),
                    kind: self.registry.kinds[self.index].id.clone(),
                },
            );
        }
        if !same_object(to.registry, self.registry) {
            return Err(QuantityError::RegistryMismatch);
        }
        self.registry.convert_at(self.index, &value, from.index, to.index)
    }
}

impl<'r> Unit<'r> {
    /// Refuses a kind of another registry, or one the unit is not declared
    /// for.
    pub fn require_kind(self, kind: Kind<'r>) -> (r: Result<(), QuantityError>)
        ensures
            self.owner() != kind.owner() ==> (r matches Err(e) && e@
                == QuantityErrorView::RegistryMismatch),
            r is Ok ==> self.owner() == kind.owner() && unit_kinds(self.owner(), self.at()).contains(
                kind.at(),
            ),
            self.owner() == kind.owner() ==> (r matches Err(e) ==> (e@
                == QuantityErrorView::RegistryMismatch || (!unit_kinds(self.owner(), self.at()).contains(kind.at())
                && e@ == QuantityErrorView::UnitKindMismatch {
                unit: self.declaration().id@,
                kind: kind.compiled().id,
            }))),
    {
        proof {
            use_type_invariant(self);
            use_type_invariant(kind);
        }
        if !same_object(self.registry, kind.registry) {
            return Err(QuantityError::RegistryMismatch);
        }
        proof {
            assert(kind.compiled() == kind.registry.kinds@[kind.index as int]@);
        }
        self.registry.require_kind_at(self.index, kind.index)
    }

    /// The refusal of an offset on a linear kind.
    pub fn offset_on(self, kind: Kind<'r>) -> (e: QuantityError)
        ensures
            e@ == (QuantityErrorView::OffsetOnLinearKind {
                unit: self.declaration().id@,
                kind: kind.compiled().id,
            }),
    {
        QuantityError::OffsetOnLinearKind { unit: self.id().to_owned(), kind: kind.id().to_owned() }
    }

    /// The unit's scale in the catalog's coherent basis.
    pub fn coherent_scale(self) -> (r: Result<&'r ExactScalar, QuantityError>)
        ensures
            self.declaration().coherent_scale matches Some(s) ==> (r matches Ok(x) && x@ == s@),
            self.declaration().coherent_scale is None ==> (r matches Err(e) && e@
                == QuantityErrorView::MissingCoherentScale { unit: self.declaration().id@ }),
    {
        let declaration = self.decl();
        match &declaration.coherent_scale {
            Some(s) => Ok(s),
            None => Err(QuantityError::MissingCoherentScale { unit: declaration.id.clone() }),
        }
    }

    /// The unit's conversion, where the catalog resolved it.
    pub fn declared_conversion(self) -> (r: Result<&'r crate::catalog::Conversion, QuantityError>)
        ensures
            self.declaration().conversion matches Some(c) ==> (r matches Ok(x) && *x == c),
            self.declaration().conversion is None ==> (r matches Err(e) && e@
                == QuantityErrorView::UnresolvedConversion { unit: self.declaration().id@ }),
    {
        let declaration = self.decl();
        match &declaration.conversion {
            Some(c) => Ok(c),
            None => Err(QuantityError::UnresolvedConversion { unit: declaration.id.clone() }),
        }
    }

    /// The reference unit of the unit's conversion.
    pub fn reference(self) -> (r: Result<Unit<'r>, QuantityError>)
        ensures
            self.declaration().conversion matches Some(c) ==> (r matches Ok(x) && x.owner()
                == self.owner() && x.at() == unit_of_name(self.owner(), c.reference_unit@)),
            self.declaration().conversion is None ==> (r matches Err(e) && e@
                == QuantityErrorView::UnresolvedConversion { unit: self.declaration().id@ }),
    {
        proof {
            use_type_invariant(self);
            use_type_invariant(self.registry);
        }
        let conversion = match self.declared_conversion() {
            Ok(c) => c,
            Err(e) => {
                return Err(e);
            },
        };
        let index = match self.registry.unit_position(conversion.reference_unit.as_str()) {
            Some(index) => index,
            None => {
                proof {
                    assert(false);
                }
                0
            },
        };
        Ok(Unit { registry: self.registry, index })
    }
}

impl PartialEq for Kind<'_> {
    /// The same registry object and the same position.
    fn eq(&self, other: &Self) -> (r: bool) {
        same_object(self.registry, other.registry) && self.index == other.index
    }
}

impl Eq for Kind<'_> {
}

impl vstd::std_specs::cmp::PartialEqSpecImpl for Kind<'_> {
    /// Identity of registries is not a value: `==` promises nothing here
    /// beyond what `eq` states.
    open spec fn obeys_eq_spec() -> bool {
        false
    }

    open spec fn eq_spec(&self, other: &Self) -> bool {
        self.owner() == other.owner() && self.at() == other.at()
    }
}

impl PartialEq for Unit<'_> {
    /// The same registry object and the same position.
    fn eq(&self, other: &Self) -> (r: bool) {
        same_object(self.registry, other.registry) && self.index == other.index
    }
}

impl Eq for Unit<'_> {
}

impl vstd::std_specs::cmp::PartialEqSpecImpl for Unit<'_> {
    /// Identity of registries is not a value: `==` promises nothing here
    /// beyond what `eq` states.
    open spec fn obeys_eq_spec() -> bool {
        false
    }

    open spec fn eq_spec(&self, other: &Self) -> bool {
        self.owner() == other.owner() && self.at() == other.at()
    }
}

impl core::fmt::Debug for Kind<'_> {
    /// `Kind("id")`.
    #[verifier::external_body]
    fn fmt(&self, f: &mut core::fmt::Formatter<'_>) -> core::fmt::Result {
        f.debug_tuple("Kind").field(&self.id()).finish()
    }
}

impl core::fmt::Debug for Unit<'_> {
    /// `Unit("id")`.
    #[verifier::external_body]
    fn fmt(&self, f: &mut core::fmt::Formatter<'_>) -> core::fmt::Result {
        f.debug_tuple("Unit").field(&self.id()).finish()
    }
}

// ---------------------------------------------------------------------------
// Symbols.
/// The kinds a symbol's units are declared for, each once.
pub open spec fn symbol_kinds_spec(v: RegistryView, symbol: Seq<char>) -> Result<Seq<int>, QuantityErrorView> {
    let us = symbol_units(v, symbol, v.units.len() as int);
    if us.len() == 0 {
        Err(QuantityErrorView::Unknown { record: Record::UnitSymbol, id: symbol })
    } else {
        Ok(kinds_of_units(v, us))
    }
}

/// Those of the units `us` declared for kind `k`, in order.
pub open spec fn units_of_kind(v: RegistryView, us: Seq<int>, k: int) -> Seq<int>
    decreases us.len(),
{
    if us.len() == 0 {
        Seq::empty()
    } else if unit_kinds(v, us.last()).contains(k) {
        units_of_kind(v, us.drop_last(), k).push(us.last())
    } else {
        units_of_kind(v, us.drop_last(), k)
    }
}

/// A value written with a unit symbol: its kind (given, or the one kind the
/// symbol's units have) and the one unit of that symbol for the kind.
pub open spec fn resolve_symbol_spec(v: RegistryView, symbol: Seq<char>, kind: Option<int>) -> Result<
    (int, int),
    QuantityErrorView,
> {
    let us = symbol_units(v, symbol, v.units.len() as int);
    let chosen = match kind {
        Some(k) => Ok(k),
        None => match symbol_kinds_spec(v, symbol) {
            Err(e) => Err(e),
            Ok(ks) => if ks.len() == 1 {
                Ok(ks[0])
            } else {
                Err(QuantityErrorView::AmbiguousKind(symbol))
            },
        },
    };
    match chosen {
        Err(e) => Err(e),
        Ok(k) => if us.len() == 0 {
            Err(QuantityErrorView::Unknown { record: Record::UnitSymbol, id: symbol })
        } else {
            let candidates = units_of_kind(v, us, k);
            if candidates.len() == 0 {
                Err(QuantityErrorView::UnitKindMismatch { unit: symbol, kind: v.kinds[k].id })
            } else if candidates.len() > 1 {
                Err(QuantityErrorView::AmbiguousUnit(symbol))
            } else {
                Ok((candidates[0], k))
            }
        },
    }
}

impl Registry {
    /// The positions of the units written with a symbol.
    fn symbol_positions(&self, symbol: &str) -> (r: Vec<usize>)
        ensures
            ints(r@) == symbol_units(self@, symbol@, self@.units.len() as int),
            forall|i: int| 0 <= i < r.len() ==> #[trigger] r@[i] < self@.units.len(),
    {
        let mut found: Vec<usize> = Vec::new();
        let n = self.units.len();
        for index in 0..n
            invariant
                n == self.units.len(),
                n == self@.units.len(),
                ints(found@) == symbol_units(self@, symbol@, index as int),
                forall|i: int| 0 <= i < found.len() ==> #[trigger] found@[i] < n,
        {
            assert(self@.units[index as int] == self.units@[index as int]);
            if str_eq(self.units[index].symbol.as_str(), symbol) {
                found.push(index);
                assert(ints(found@) =~= symbol_units(self@, symbol@, index as int).push(index as int));
            }
        }
        found
    }

    /// The kinds the given units are declared for, each once.
    fn kinds_of_positions(&self, us: &Vec<usize>) -> (r: Vec<usize>)
        requires
            forall|i: int| 0 <= i < us.len() ==> #[trigger] us@[i] < self@.units.len(),
        ensures
            ints(r@) == kinds_of_units(self@, ints(us@)),
            forall|i: int| 0 <= i < r.len() ==> #[trigger] r@[i] < self@.kinds.len(),
    {
        proof {
            use_type_invariant(self);
        }
        let mut result: Vec<usize> = Vec::new();
        let n = us.len();
        for i in 0..n
            invariant
                n == us.len(),
                forall|m: int| 0 <= m < n ==> #[trigger] us@[m] < self@.units.len(),
                ints(result@) == kinds_of_units(self@, ints(us@).take(i as int)),
                forall|m: int| 0 <= m < result.len() ==> #[trigger] result@[m] < self@.kinds.len(),
                registry_ok(self@),
        {
            let u = us[i];
            let names = &self.units[u].kinds;
            let ghost before = kinds_of_units(self@, ints(us@).take(i as int));
            let ghost uk = unit_kinds(self@, u as int);
            assert(ints(us@).take(i + 1).drop_last() =~= ints(us@).take(i as int));
            assert(ints(us@).take(i + 1).last() == u as int);
            let m = names.len();
            for j in 0..m
                invariant
                    m == names.len(),
                    *names == self@.units[u as int].kinds,
                    u < self@.units.len(),
                    registry_ok(self@),
                    uk == unit_kinds(self@, u as int),
                    ints(result@) == push_all_new(before, uk.take(j as int)),
                    forall|q: int| 0 <= q < result.len() ==> #[trigger] result@[q] < self@.kinds.len(),
            {
                assert(first_index(registry_kind_ids(self@), self@.units[u as int].kinds@[j as int]@) is Some);
                let k = match self.kind_position(names[j].as_str()) {
                    Some(k) => k,
                    None => {
                        proof {
                            assert(false);
                        }
                        0
                    },
                };
                assert(uk[j as int] == k as int);
                let mut present = false;
                let len = result.len();
                for q in 0..len
                    invariant
                        len == result.len(),
                        present == exists|p: int| 0 <= p < q && result@[p] == k,
                {
                    if result[q] == k {
                        present = true;
                    }
                }
                let ghost acc = ints(result@);
                proof {
                    assert(uk.take(j + 1).drop_last() =~= uk.take(j as int));
                    assert(uk.take(j + 1).last() == k as int);
                    if present {
                        let p = choose|p: int| 0 <= p < len && result@[p] == k;
                        assert(acc[p] == k as int);
                    } else {
                        assert forall|p: int| 0 <= p < acc.len() implies acc[p] != k as int by {
                            assert(acc[p] == result@[p] as int);
                        }
                    }
                }
                if !present {
                    result.push(k);
                    assert(ints(result@) =~= acc.push(k as int));
                }
            }
            assert(uk.take(m as int) =~= uk);
        }
        assert(ints(us@).take(n as int) =~= ints(us@));
        result
    }

    /// The kinds the units written with a symbol are declared for, each
    /// once, in order of first appearance.
    pub fn kinds_for_symbol(&self, symbol: &str) -> (r: Result<Vec<Kind<'_>>, QuantityError>)
        ensures
            match (r, symbol_kinds_spec(self@, symbol@)) {
                (Ok(v), Ok(ks)) => kind_positions(v@) == ks && forall|i: int|
                    0 <= i < v.len() ==> (#[trigger] v@[i]).owner() == self@,
                (Err(e), Err(es)) => e@ == es,
                _ => false,
            },
    {
        let us = self.symbol_positions(symbol);
        if us.len() == 0 {
            return Err(QuantityError::Unknown { record: Record::UnitSymbol, id: symbol.to_owned() });
        }
        let ks = self.kinds_of_positions(&us);
        let mut r: Vec<Kind<'_>> = Vec::new();
        let n = ks.len();
        for i in 0..n
            invariant
                n == ks.len(),
                forall|m: int| 0 <= m < n ==> #[trigger] ks@[m] < self@.kinds.len(),
                r.len() == i,
                kind_positions(r@) == ints(ks@).take(i as int),
                forall|m: int| 0 <= m < r.len() ==> (#[trigger] r@[m]).owner() == self@,
        {
            proof {
                use_type_invariant(self);
            }
            r.push(Kind { registry: self, index: ks[i] });
            assert(kind_positions(r@) =~= ints(ks@).take(i + 1));
        }
        assert(ints(ks@).take(n as int) =~= ints(ks@));
        Ok(r)
    }

    /// The unit and kind a value written with a symbol is of, by position.
    pub fn resolve_symbol_at(&self, symbol: &str, kind: Option<usize>) -> (r: Result<
        (usize, usize),
        QuantityError,
    >)
        requires
            kind matches Some(k) ==> k < self@.kinds.len(),
        ensures
            match (r, resolve_symbol_spec(self@, symbol@, opt_int(kind))) {
                (Ok((u, k)), Ok((su, sk))) => u == su && k == sk && u < self@.units.len() && k
                    < self@.kinds.len(),
                (Err(e), Err(es)) => e@ == es,
                _ => false,
            },
    {
        proof {
            use_type_invariant(self);
        }
        let us = self.symbol_positions(symbol);
        let k = match kind {
            Some(k) => k,
            None => {
                if us.len() == 0 {
                    return Err(
                        QuantityError::Unknown { record: Record::UnitSymbol, id: symbol.to_owned() },
                    );
                }
                let ks = self.kinds_of_positions(&us);
                if ks.len() != 1 {
                    return Err(QuantityError::AmbiguousKind(symbol.to_owned()));
                }
                ks[0]
            },
        };
        if us.len() == 0 {
            return Err(QuantityError::Unknown { record: Record::UnitSymbol, id: symbol.to_owned() });
        }
        let mut found: Vec<usize> = Vec::new();
        let n = us.len();
        for i in 0..n
            invariant
                n == us.len(),
                forall|m: int| 0 <= m < n ==> #[trigger] us@[m] < self@.units.len(),
                ints(found@) == units_of_kind(self@, ints(us@).take(i as int), k as int),
                forall|m: int| 0 <= m < found.len() ==> #[trigger] found@[m] < self@.units.len(),
        {
            assert(ints(us@).take(i + 1).drop_last() =~= ints(us@).take(i as int));
            assert(ints(us@).take(i + 1).last() == us@[i as int] as int);
            if self.unit_lists(us[i], k) {
                found.push(us[i]);
                assert(ints(found@) =~= units_of_kind(self@, ints(us@).take(i as int), k as int).push(us@[i as int] as int));
            }
        }
        assert(ints(us@).take(n as int) =~= ints(us@));
        if found.len() == 0 {
            assert(self@.kinds[k as int] == self.kinds@[k as int]@);
            return Err(
                QuantityError::UnitKindMismatch { unit: symbol.to_owned(), kind: self.kinds[k].id.clone() },
            );
        }
        if found.len() > 1 {
            return Err(QuantityError::AmbiguousUnit(symbol.to_owned()));
        }
        Ok((found[0], k))
    }

    /// The unit and kind of a value written with a unit symbol. The kind may
    /// be left to the symbol when the symbol names exactly one. A kind of
    /// another registry is refused.
    pub fn resolve_symbol<'r>(&'r self, symbol: &str, kind: Option<Kind<'r>>) -> (r: Result<
        (Unit<'r>, Kind<'r>),
        QuantityError,
    >)
        ensures
            kind matches Some(k) && k.owner() != self@ ==> (r matches Err(e) && e@
                == QuantityErrorView::RegistryMismatch),
            r matches Ok((u, k)) ==> u.owner() == self@ && k.owner() == self@ && resolve_symbol_spec(
                self@,
                symbol@,
                match kind {
                    Some(k) => Some(k.at()),
                    None => None,
                },
            ) == Ok::<(int, int), QuantityErrorView>((u.at(), k.at())),
            r matches Err(e) ==> (e@ == QuantityErrorView::RegistryMismatch || resolve_symbol_spec(
                self@,
                symbol@,
                match kind {
                    Some(k) => Some(k.at()),
                    None => None,
                },
            ) == Err::<(int, int), QuantityErrorView>(e@)),
            kind is None ==> match (r, resolve_symbol_spec(self@, symbol@, None)) {
                (Ok((u, k)), Ok((su, sk))) => u.at() == su && k.at() == sk && u.owner() == self@ && k.owner()
                    == self@,
                (Err(e), Err(es)) => e@ == es,
                _ => false,
            },
    {
        let index = match kind {
            Some(k) => {
                proof {
                    use_type_invariant(k);
                }
                if !same_object(k.registry, self) {
                    return Err(QuantityError::RegistryMismatch);
                }
                Some(k.index)
            },
            None => None,
        };
        match self.resolve_symbol_at(symbol, index) {
            Ok((u, k)) => Ok((Unit { registry: self, index: u }, Kind { registry: self, index: k })),
            Err(e) => Err(e),
        }
    }
}

} // verus!

verus! {

/// A unit's scale in the coherent basis, or the refusal naming the unit
/// that has none.
pub open spec fn coherent_of(v: RegistryView, u: int) -> Result<ScalarModel, QuantityErrorView> {
    match v.units[u].coherent_scale {
        Some(s) => Ok(s@),
        None => Err(QuantityErrorView::MissingCoherentScale { unit: v.units[u].id@ }),
    }
}

/// The exact factor that carries a product or quotient of values in units
/// `left` and `right` into unit `result`: the operands' coherent scales,
/// combined by `op`, over the result's coherent scale. The scales are read
/// left, right, result, and a zero divisor is refused.
pub open spec fn product_factor_spec(v: RegistryView, left: int, op: ProductOp, right: int, result: int) -> Result<
    ScalarModel,
    QuantityErrorView,
> {
    match coherent_of(v, left) {
        Err(e) => Err(e),
        Ok(a) => match coherent_of(v, right) {
            Err(e) => Err(e),
            Ok(b) => if op == ProductOp::Div && b.0.0 == 0 {
                Err(QuantityErrorView::DivisionByZero)
            } else {
                let combined = if op == ProductOp::Div {
                    scalar_div(a, b)
                } else {
                    scalar_mul(a, b)
                };
                match coherent_of(v, result) {
                    Err(e) => Err(e),
                    Ok(s) => if s.0.0 == 0 {
                        Err(QuantityErrorView::DivisionByZero)
                    } else {
                        Ok(scalar_div(combined, s))
                    },
                }
            },
        },
    }
}

impl Registry {
    /// A unit's coherent scale, by position.
    fn coherent_at(&self, u: usize) -> (r: Result<&ExactScalar, QuantityError>)
        requires
            u < self@.units.len(),
        ensures
            match (r, coherent_of(self@, u as int)) {
                (Ok(x), Ok(s)) => x@ == s,
                (Err(e), Err(es)) => e@ == es,
                _ => false,
            },
    {
        match &self.units[u].coherent_scale {
            Some(s) => Ok(s),
            None => Err(QuantityError::MissingCoherentScale { unit: self.units[u].id.clone() }),
        }
    }

    /// The exact factor by which the product (or quotient, for `Div`) of two
    /// values in units `left_unit` and `right_unit` is multiplied to be
    /// expressed in unit `result_unit`.
    pub fn product_factor(&self, left_unit: usize, op: ProductOp, right_unit: usize, result_unit: usize) -> (r: Result<
        ExactScalar,
        QuantityError,
    >)
        requires
            left_unit < self@.units.len(),
            right_unit < self@.units.len(),
            result_unit < self@.units.len(),
        ensures
            match (r, product_factor_spec(self@, left_unit as int, op, right_unit as int, result_unit as int)) {
                (Ok(x), Ok(s)) => x@ == s,
                (Err(e), Err(es)) => e@ == es,
                _ => false,
            },
    {
        let left = match self.coherent_at(left_unit) {
            Ok(s) => s,
            Err(e) => return Err(e),
        };
        let right = match self.coherent_at(right_unit) {
            Ok(s) => s,
            Err(e) => return Err(e),
        };
        let combined = match op {
            ProductOp::Div => match left.divide(right) {
                Some(q) => q,
                None => return Err(QuantityError::DivisionByZero),
            },
            _ => left.multiply(right),
        };
        let scale = match self.coherent_at(result_unit) {
            Ok(s) => s,
            Err(e) => return Err(e),
        };
        match combined.divide(scale) {
            Some(f) => Ok(f),
            None => Err(QuantityError::DivisionByZero),
        }
    }
}

} // verus!
