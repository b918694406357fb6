//! Exact dimensional and quantity-kind arithmetic. A `Catalog` declares kinds,
//! units and twin rows as data; `Registry::compile` checks it and hands out
//! `Kind` and `Unit` handles; `Kind::combine` says which kind an operation on
//! quantities of two kinds results in. `pi` finds the Buckingham Pi groups of
//! named quantities, and `integer_dims` is dimension arithmetic over
//! insertion-ordered maps with integer exponents.
pub mod bignum;
pub mod catalog;
pub mod dimension;
pub mod error;
pub mod grade;
pub mod integer_dims;
pub mod integer_round_trip;
pub mod laws;
pub mod notes;
pub mod numtheory;
pub mod qudv;
pub mod ordered;
pub mod ordered_int;
pub mod pi;
pub mod registry;
pub mod relations;
pub mod round_trip;
pub mod scalar;
pub mod search;
pub mod span;
pub mod strings;
pub mod text;

pub use catalog::{
    Catalog, Conversion, KindDecl, Magnitude, Op, OperationDecl, OperationParseError, ProductOp,
    UnitDecl, CATALOG_SCHEMA,
};
pub use dimension::{DimensionError, Dimensions};
pub use error::{CatalogError, Operation, QuantityError, RateFault, Record, Shared};
pub use grade::{Grade, GradeError};
pub use pi::{count_pi_groups_exact, pi_groups_exact};
pub use registry::{AffineRole, Kind, Registry, Unit};
pub use scalar::{ExactScalar, ExactValue, ScalarError};

use vstd::prelude::*;

verus! {
} // verus!
