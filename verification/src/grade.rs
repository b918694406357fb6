//! A kind's grade in the geometric algebra of three-dimensional space (G3).
//! The algebra is fixed; there is no signature field.
use crate::catalog::ProductOp;
use vstd::prelude::*;

verus! {

#[derive(Clone, Copy, Debug, PartialEq, Eq, Hash, PartialOrd, Ord, Structural)]
pub enum Grade {
    Scalar,
    Vector,
    Bivector,
    Trivector,
}

/// A grade index outside G3's grades 0 to 3.
#[derive(Clone, Copy, Debug, PartialEq, Eq, Structural)]
pub struct GradeError(pub u8);

/// The index of a grade.
pub open spec fn grade_index(g: Grade) -> nat {
    match g {
        Grade::Scalar => 0,
        Grade::Vector => 1,
        Grade::Bivector => 2,
        Grade::Trivector => 3,
    }
}

/// The grade of `left op right`, when the result has a single grade: a scalar
/// leaves the other factor's grade under every product and quotient; two
/// non-scalars have none under `mul` and `div`; `dot` lowers to the difference
/// of the grades and `wedge` raises to their sum, within G3.
pub open spec fn grade_product(left: Grade, op: ProductOp, right: Grade) -> Option<Grade> {
    let l = grade_index(left);
    let r = grade_index(right);
    let index: Option<int> = match op {
        ProductOp::Mul | ProductOp::Div => if l == 0 {
            Some(r as int)
        } else if r == 0 {
            Some(l as int)
        } else {
            None
        },
        ProductOp::Dot => Some(if l >= r { l - r } else { r - l }),
        ProductOp::Wedge => if l + r <= 3 {
            Some((l + r) as int)
        } else {
            None
        },
    };
    match index {
        Some(i) => Some(grade_of_index(i)),
        None => None,
    }
}

pub open spec fn grade_of_index(i: int) -> Grade {
    if i == 0 {
        Grade::Scalar
    } else if i == 1 {
        Grade::Vector
    } else if i == 2 {
        Grade::Bivector
    } else {
        Grade::Trivector
    }
}

impl Grade {
    pub fn index(self) -> (r: u8)
        ensures
            r == grade_index(self),
    {
        match self {
            Grade::Scalar => 0,
            Grade::Vector => 1,
            Grade::Bivector => 2,
            Grade::Trivector => 3,
        }
    }

    /// The grade with an index, or the index refused.
    pub fn from_index(index: u8) -> (r: Result<Grade, GradeError>)
        ensures
            index <= 3 ==> r == Ok::<Grade, GradeError>(grade_of_index(index as int)),
            index > 3 ==> r == Err::<Grade, GradeError>(GradeError(index)),
    {
        match index {
            0 => Ok(Grade::Scalar),
            1 => Ok(Grade::Vector),
            2 => Ok(Grade::Bivector),
            3 => Ok(Grade::Trivector),
            _ => Err(GradeError(index)),
        }
    }

    /// The grade of `self op other` in G3, if it has a single one.
    pub fn product(self, op: ProductOp, other: Grade) -> (r: Option<Grade>)
        ensures
            r == grade_product(self, op, other),
    {
        let l = self.index();
        let r = other.index();
        let index: Option<u8> = match op {
            ProductOp::Mul | ProductOp::Div => if l == 0 {
                Some(r)
            } else if r == 0 {
                Some(l)
            } else {
                None
            },
            ProductOp::Dot => Some(if l >= r { l - r } else { r - l }),
            ProductOp::Wedge => if l + r <= 3 {
                Some(l + r)
            } else {
                None
            },
        };
        match index {
            Some(i) => {
                let g = Grade::from_index(i);
                match g {
                    Ok(g) => Some(g),
                    Err(_) => None,
                }
            },
            None => None,
        }
    }
}

impl Default for Grade {
    fn default() -> (r: Grade)
        ensures
            r == Grade::Scalar,
    {
        Grade::Scalar
    }
}

impl From<Grade> for u8 {
    /// The grade's index.
    fn from(grade: Grade) -> (r: u8) {
        grade.index()
    }
}

impl vstd::std_specs::convert::FromSpecImpl<Grade> for u8 {
    open spec fn obeys_from_spec() -> bool {
        true
    }

    open spec fn from_spec(v: Grade) -> u8 {
        grade_index(v) as u8
    }
}

impl TryFrom<u8> for Grade {
    type Error = GradeError;

    /// The grade with an index, or the index refused.
    fn try_from(index: u8) -> (r: Result<Grade, GradeError>) {
        Grade::from_index(index)
    }
}

impl vstd::std_specs::convert::TryFromSpecImpl<u8> for Grade {
    open spec fn obeys_try_from_spec() -> bool {
        true
    }

    open spec fn try_from_spec(v: u8) -> Result<Grade, GradeError> {
        if v <= 3 {
            Ok(grade_of_index(v as int))
        } else {
            Err(GradeError(v))
        }
    }
}

} // verus!
