//! What a catalog declares: kinds, units and product rules, as data. Nothing
//! here is compiled in; `Registry::compile` turns a catalog into handles.
use crate::dimension::Dimensions;
use crate::grade::Grade;
use crate::scalar::{scalar_one, ExactScalar, ExactValue, ScalarModel, ValueMap};
use crate::strings::str_eq;
use vstd::prelude::*;

verus! {

/// The catalog schema this library compiles.
pub const CATALOG_SCHEMA: u32 = 4;

/// A binary operation of quantity arithmetic. `name` is its only spelling:
/// parsing and display both read it.
#[derive(Clone, Copy, Debug, PartialEq, Eq, Hash, Structural)]
pub enum Op {
    Add,
    Sub,
    Mul,
    Div,
    Dot,
    Wedge,
}

/// The operations a kind rule may declare. Additive arithmetic is determined
/// by kind identity and declared affine spaces, not by rules.
#[derive(Clone, Copy, Debug, PartialEq, Eq, Hash, Structural)]
pub enum ProductOp {
    Mul,
    Div,
    Dot,
    Wedge,
}

/// The spelling of an operation.
pub open spec fn op_name(op: Op) -> Seq<char> {
    match op {
        Op::Add => "add"@,
        Op::Sub => "sub"@,
        Op::Mul => "mul"@,
        Op::Div => "div"@,
        Op::Dot => "dot"@,
        Op::Wedge => "wedge"@,
    }
}

/// The product or quotient an operation is.
pub open spec fn op_product(op: Op) -> Option<ProductOp> {
    match op {
        Op::Mul => Some(ProductOp::Mul),
        Op::Div => Some(ProductOp::Div),
        Op::Dot => Some(ProductOp::Dot),
        Op::Wedge => Some(ProductOp::Wedge),
        Op::Add | Op::Sub => None,
    }
}

/// The operation a product is.
pub open spec fn product_op(op: ProductOp) -> Op {
    match op {
        ProductOp::Mul => Op::Mul,
        ProductOp::Div => Op::Div,
        ProductOp::Dot => Op::Dot,
        ProductOp::Wedge => Op::Wedge,
    }
}

/// Why a text is not an operation.
#[derive(Clone, Debug, PartialEq, Eq)]
pub enum OperationParseError {
    Unknown(String),
    NotProduct(Op),
}

/// The operation a text spells.
pub open spec fn op_named(text: Seq<char>) -> Option<Op> {
    if text == "add"@ {
        Some(Op::Add)
    } else if text == "sub"@ {
        Some(Op::Sub)
    } else if text == "mul"@ {
        Some(Op::Mul)
    } else if text == "div"@ {
        Some(Op::Div)
    } else if text == "dot"@ {
        Some(Op::Dot)
    } else if text == "wedge"@ {
        Some(Op::Wedge)
    } else {
        None
    }
}

impl Op {
    pub fn name(self) -> (r: &'static str)
        ensures
            r@ == op_name(self),
    {
        match self {
            Op::Add => "add",
            Op::Sub => "sub",
            Op::Mul => "mul",
            Op::Div => "div",
            Op::Dot => "dot",
            Op::Wedge => "wedge",
        }
    }

    /// The product or quotient this operation is, if it is one.
    pub fn product(self) -> (r: Option<ProductOp>)
        ensures
            r == op_product(self),
    {
        match self {
            Op::Mul => Some(ProductOp::Mul),
            Op::Div => Some(ProductOp::Div),
            Op::Dot => Some(ProductOp::Dot),
            Op::Wedge => Some(ProductOp::Wedge),
            Op::Add | Op::Sub => None,
        }
    }

    /// The operation spelled `text`.
    pub fn parse(text: &str) -> (r: Result<Op, OperationParseError>)
        ensures
            op_named(text@) matches Some(op) ==> r == Ok::<Op, OperationParseError>(op),
            op_named(text@) is None ==> (r matches Err(OperationParseError::Unknown(t)) && t@ == text@),
    {
        proof {
            reveal_strlit("add");
            reveal_strlit("sub");
            reveal_strlit("mul");
            reveal_strlit("div");
            reveal_strlit("dot");
            reveal_strlit("wedge");
        }
        if str_eq(text, "add") {
            Ok(Op::Add)
        } else if str_eq(text, "sub") {
            Ok(Op::Sub)
        } else if str_eq(text, "mul") {
            Ok(Op::Mul)
        } else if str_eq(text, "div") {
            Ok(Op::Div)
        } else if str_eq(text, "dot") {
            Ok(Op::Dot)
        } else if str_eq(text, "wedge") {
            Ok(Op::Wedge)
        } else {
            Err(OperationParseError::Unknown(text.to_owned()))
        }
    }
}

impl ProductOp {
    /// The operation this product is.
    pub fn op(self) -> (r: Op)
        ensures
            r == product_op(self),
    {
        match self {
            ProductOp::Mul => Op::Mul,
            ProductOp::Div => Op::Div,
            ProductOp::Dot => Op::Dot,
            ProductOp::Wedge => Op::Wedge,
        }
    }

    /// The spelling of this product.
    pub fn name(self) -> (r: &'static str)
        ensures
            r@ == op_name(product_op(self)),
    {
        self.op().name()
    }

    /// The product spelled `text`: an operation that is a product.
    pub fn parse(text: &str) -> (r: Result<ProductOp, OperationParseError>)
        ensures
            op_named(text@) is Some && op_product(op_named(text@)->0) is Some ==> r
                == Ok::<ProductOp, OperationParseError>(op_product(op_named(text@)->0)->0),
            op_named(text@) is Some && op_product(op_named(text@)->0) is None ==> r
                == Err::<ProductOp, OperationParseError>(
                OperationParseError::NotProduct(op_named(text@)->0),
            ),
            op_named(text@) is None ==> (r matches Err(OperationParseError::Unknown(t)) && t@
                == text@),
    {
        let op = Op::parse(text)?;
        match op.product() {
            Some(p) => Ok(p),
            None => Err(OperationParseError::NotProduct(op)),
        }
    }
}

/// A catalog: kinds, units and twin rows, as data. `Registry::compile` is
/// what checks it.
#[derive(Clone, Debug)]
pub struct Catalog {
    pub schema: u32,
    /// Named notes on where the catalog comes from, read as a map from
    /// names to text: a later note of a name replaces an earlier one. The
    /// compiled registry keeps them by increasing name.
    pub provenance: Vec<(String, String)>,
    /// The kind of pure numbers. Every other non-point kind keeps its kind
    /// when multiplied or divided by it, and a kind divided by itself is it.
    pub dimensionless: Option<String>,
    /// The kind of instants; its difference kind is the duration rates are
    /// taken over.
    pub time: Option<String>,
    pub kinds: Vec<KindDecl>,
    pub units: Vec<UnitDecl>,
    pub operations: Vec<OperationDecl>,
}

/// A declared kind.
#[derive(Clone, Debug)]
pub struct KindDecl {
    pub id: String,
    pub dimensions: Option<Dimensions>,
    /// Grade in G3; a scalar kind need not write it.
    pub grade: Grade,
    pub difference_kind: Option<String>,
    /// The least value a quantity of this kind may take, in its canonical
    /// unit (absolute zero for thermodynamic temperature).
    pub minimum: Option<ExactScalar>,
    /// The kind this one is the rate of: it times a duration is that kind.
    pub rate_of: Option<String>,
}

/// A declared unit.
#[derive(Clone, Debug)]
pub struct UnitDecl {
    pub id: String,
    pub symbol: String,
    pub kinds: Vec<String>,
    /// Absent while the source leaves the unit's conversion unresolved.
    pub conversion: Option<Conversion>,
    /// Display-unit scale in the catalog's common coherent basis, independent
    /// of its conversion reference (which may be gram rather than kilogram).
    pub coherent_scale: Option<ExactScalar>,
}

/// `value_in_reference = scale * value + offset`; the offset applies to
/// point quantities only.
#[derive(Clone, Debug)]
pub struct Conversion {
    pub reference_unit: String,
    pub scale: Magnitude<ExactScalar>,
    pub offset: Magnitude<ExactValue>,
}

/// A conversion magnitude: exact, or an approximation the exact-conversion
/// API refuses. An approximation is held as the bits of its IEEE-754 binary64
/// value.
#[derive(Clone, Debug)]
pub enum Magnitude<T> {
    Exact(T),
    Approximate(u64),
}

/// A declared product or quotient, kept to choose between twins.
#[derive(Clone, Debug)]
pub struct OperationDecl {
    pub left: String,
    pub op: ProductOp,
    pub right: String,
    pub result: String,
    pub commutative: bool,
    pub provenance: Option<String>,
}

/// Binary64 bits of a finite number: the exponent field is not all ones.
pub open spec fn bits_finite(bits: u64) -> bool {
    (bits >> 52u64) & 0x7ffu64 != 0x7ffu64
}

/// Binary64 bits of zero, of either sign.
pub open spec fn bits_zero(bits: u64) -> bool {
    bits & 0x7fff_ffff_ffff_ffffu64 == 0
}

/// Whether binary64 bits hold a finite number.
pub fn is_finite_bits(bits: u64) -> (r: bool)
    ensures
        r == bits_finite(bits),
{
    (bits >> 52u64) & 0x7ffu64 != 0x7ffu64
}

/// Whether binary64 bits hold zero.
pub fn is_zero_bits(bits: u64) -> (r: bool)
    ensures
        r == bits_zero(bits),
{
    bits & 0x7fff_ffff_ffff_ffffu64 == 0
}

/// The identity conversion: scale exactly one, offset exactly zero.
pub open spec fn conversion_identity(c: Conversion) -> bool {
    &&& c.scale matches Magnitude::Exact(s) && s@ == scalar_one()
    &&& c.offset matches Magnitude::Exact(v) && v@ == ValueMap::empty()
}

/// A terminal unit: its own reference, reached by identity.
pub open spec fn unit_terminal(u: UnitDecl) -> bool {
    u.conversion matches Some(c) && c.reference_unit@ == u.id@ && conversion_identity(c)
}

impl Conversion {
    /// Whether the conversion is the identity.
    pub fn is_identity(&self) -> (r: bool)
        ensures
            r == conversion_identity(*self),
    {
        let one = ExactScalar::one();
        match (&self.scale, &self.offset) {
            (Magnitude::Exact(s), Magnitude::Exact(v)) => *s == one && v.is_zero(),
            _ => false,
        }
    }
}

impl UnitDecl {
    /// A terminal reference: the unit is its own reference, reached by
    /// identity.
    pub fn is_terminal(&self) -> (r: bool)
        ensures
            r == unit_terminal(*self),
    {
        match &self.conversion {
            Some(c) => str_eq(c.reference_unit.as_str(), self.id.as_str()) && c.is_identity(),
            None => false,
        }
    }
}

/// A magnitude with its exact value as a model.
pub enum MagnitudeView<T> {
    Exact(T),
    Approximate(u64),
}

impl<T: View> View for Magnitude<T> {
    type V = MagnitudeView<T::V>;

    open spec fn view(&self) -> MagnitudeView<T::V> {
        match self {
            Magnitude::Exact(x) => MagnitudeView::Exact(x@),
            Magnitude::Approximate(b) => MagnitudeView::Approximate(*b),
        }
    }
}

/// A conversion with its identifiers as text and magnitudes as models.
pub struct ConversionView {
    pub reference_unit: Seq<char>,
    pub scale: MagnitudeView<ScalarModel>,
    pub offset: MagnitudeView<ValueMap>,
}

impl View for Conversion {
    type V = ConversionView;

    open spec fn view(&self) -> ConversionView {
        ConversionView {
            reference_unit: self.reference_unit@,
            scale: self.scale@,
            offset: self.offset@,
        }
    }
}

/// A unit declaration with its text and numbers as models.
pub struct UnitDeclView {
    pub id: Seq<char>,
    pub symbol: Seq<char>,
    pub kinds: Seq<Seq<char>>,
    pub conversion: Option<ConversionView>,
    pub coherent_scale: Option<ScalarModel>,
}

impl View for UnitDecl {
    type V = UnitDeclView;

    open spec fn view(&self) -> UnitDeclView {
        UnitDeclView {
            id: self.id@,
            symbol: self.symbol@,
            kinds: crate::error::texts(self.kinds@),
            conversion: match self.conversion {
                Some(c) => Some(c@),
                None => None,
            },
            coherent_scale: match self.coherent_scale {
                Some(s) => Some(s@),
                None => None,
            },
        }
    }
}

/// A kind declaration with its text and numbers as models.
pub struct KindDeclView {
    pub id: Seq<char>,
    pub dimensions: Option<crate::dimension::DimMap>,
    pub grade: Grade,
    pub difference_kind: Option<Seq<char>>,
    pub minimum: Option<ScalarModel>,
    pub rate_of: Option<Seq<char>>,
}

/// Optional text as an optional sequence.
pub open spec fn opt_text(o: Option<String>) -> Option<Seq<char>> {
    match o {
        Some(s) => Some(s@),
        None => None,
    }
}

impl View for KindDecl {
    type V = KindDeclView;

    open spec fn view(&self) -> KindDeclView {
        KindDeclView {
            id: self.id@,
            dimensions: match self.dimensions {
                Some(d) => Some(d@),
                None => None,
            },
            grade: self.grade,
            difference_kind: opt_text(self.difference_kind),
            minimum: match self.minimum {
                Some(m) => Some(m@),
                None => None,
            },
            rate_of: opt_text(self.rate_of),
        }
    }
}

/// Text pairs as pairs of sequences.
pub open spec fn text_pairs(s: Seq<(String, String)>) -> Seq<(Seq<char>, Seq<char>)> {
    s.map_values(|p: (String, String)| (p.0@, p.1@))
}

/// A catalog with its declarations as models.
pub struct CatalogView {
    pub schema: u32,
    pub provenance: Seq<(Seq<char>, Seq<char>)>,
    pub dimensionless: Option<Seq<char>>,
    pub time: Option<Seq<char>>,
    pub kinds: Seq<KindDeclView>,
    pub units: Seq<UnitDeclView>,
    pub operations: nat,
}

impl View for Catalog {
    type V = CatalogView;

    open spec fn view(&self) -> CatalogView {
        CatalogView {
            schema: self.schema,
            provenance: text_pairs(self.provenance@),
            dimensionless: opt_text(self.dimensionless),
            time: opt_text(self.time),
            kinds: self.kinds@.map_values(|k: KindDecl| k@),
            units: self.units@.map_values(|u: UnitDecl| u@),
            operations: self.operations@.len(),
        }
    }
}

} // verus!
