//! Scalar values, case sensitivity, and per-kind equality.
use vstd::prelude::*;

use crate::Error;

verus! {

/// Whether textual comparisons fold letter case before matching.
/// One flag applies uniformly to every comparison within a single query.
#[derive(Clone, Copy, Debug, PartialEq, Eq, Structural)]
pub enum Case {
    Sensitive,
    Insensitive,
}

/// A scalar cell of a table row or a condition, as a closed tagged union.
///
/// A floating-point cell is carried as its IEEE 754 bit pattern, so two
/// float cells are equal exactly when their bit patterns are.
#[derive(Debug, PartialEq)]
pub enum Scalar {
    Text(String),
    Integer(i64),
    Float(u64),
    Boolean(bool),
    Null,
}

/// The mathematical model of a [`Scalar`].
#[verifier::ext_equal]
pub enum ScalarV {
    Text(Seq<char>),
    Integer(int),
    Float(u64),
    Boolean(bool),
    Null,
}

impl View for Scalar {
    type V = ScalarV;

    open spec fn view(&self) -> ScalarV {
        match self {
            Scalar::Text(s) => ScalarV::Text(s@),
            Scalar::Integer(i) => ScalarV::Integer(*i as int),
            Scalar::Float(bits) => ScalarV::Float(*bits),
            Scalar::Boolean(b) => ScalarV::Boolean(*b),
            Scalar::Null => ScalarV::Null,
        }
    }
}

/// What `str::to_lowercase` returns for a given sequence of characters.
pub uninterp spec fn lower_of(s: Seq<char>) -> Seq<char>;

/// Relies on `str::to_lowercase`: the result depends on the characters of
/// the input alone.
#[verifier::external_body]
fn to_lowercase(s: &str) -> (r: String)
    ensures
        r@ == lower_of(s@),
{
    s.to_lowercase()
}

/// Case folding: the text a scalar is compared by under `Case::Insensitive`.
pub open spec fn fold_case(v: ScalarV) -> ScalarV {
    match v {
        ScalarV::Text(s) => ScalarV::Text(lower_of(s)),
        _ => v,
    }
}

/// The form a scalar is normalized to before comparison or index keying.
pub open spec fn normalize_spec(v: ScalarV, case: Case) -> ScalarV {
    if case == Case::Insensitive {
        fold_case(v)
    } else {
        v
    }
}

/// Whether two scalars are of comparable kinds.
pub open spec fn same_kind(a: ScalarV, b: ScalarV) -> bool {
    match (a, b) {
        (ScalarV::Text(_), ScalarV::Text(_)) => true,
        (ScalarV::Integer(_), ScalarV::Integer(_)) => true,
        (ScalarV::Float(_), ScalarV::Float(_)) => true,
        (ScalarV::Boolean(_), ScalarV::Boolean(_)) => true,
        (ScalarV::Null, ScalarV::Null) => true,
        _ => false,
    }
}

/// Equality of two scalars under a case rule; `None` when their kinds are
/// incomparable, which a query surfaces as `ConditionTypeMismatch`.
pub open spec fn scalar_eq_spec(a: ScalarV, b: ScalarV, case: Case) -> Option<bool> {
    if same_kind(a, b) {
        Some(normalize_spec(a, case) == normalize_spec(b, case))
    } else {
        None
    }
}

impl Scalar {
    /// An exact copy of the scalar.
    pub fn duplicate(&self) -> (r: Scalar)
        ensures
            r@ == self@,
    {
        match self {
            Scalar::Text(s) => Scalar::Text(s.clone()),
            Scalar::Integer(i) => Scalar::Integer(*i),
            Scalar::Float(bits) => Scalar::Float(*bits),
            Scalar::Boolean(b) => Scalar::Boolean(*b),
            Scalar::Null => Scalar::Null,
        }
    }

    /// Normalizes the scalar for comparison or index keying: under
    /// `Case::Insensitive` text is folded to lower case.
    pub fn normalize(&self, case: Case) -> (r: Scalar)
        ensures
            r@ == normalize_spec(self@, case),
    {
        match (self, case) {
            (Scalar::Text(s), Case::Insensitive) => Scalar::Text(to_lowercase(s.as_str())),
            _ => self.duplicate(),
        }
    }

    /// Exact structural equality, with no case rule applied.
    pub fn same(&self, other: &Scalar) -> (r: bool)
        ensures
            r == (self@ == other@),
    {
        match (self, other) {
            (Scalar::Text(a), Scalar::Text(b)) => *a == *b,
            (Scalar::Integer(a), Scalar::Integer(b)) => a == b,
            (Scalar::Float(a), Scalar::Float(b)) => a == b,
            (Scalar::Boolean(a), Scalar::Boolean(b)) => a == b,
            (Scalar::Null, Scalar::Null) => true,
            _ => false,
        }
    }

    /// Equality under a case rule, reporting `ConditionTypeMismatch` when
    /// the two kinds are incomparable.
    pub fn equals(&self, other: &Scalar, case: Case) -> (r: Result<bool, Error>)
        ensures
            match r {
                Ok(eq) => scalar_eq_spec(self@, other@, case) == Some(eq),
                Err(e) => scalar_eq_spec(self@, other@, case) is None
                    && e == Error::ConditionTypeMismatch,
            },
    {
        match (self, other) {
            (Scalar::Text(a), Scalar::Text(b)) => {
                if case == Case::Insensitive {
                    Ok(to_lowercase(a.as_str()) == to_lowercase(b.as_str()))
                } else {
                    Ok(*a == *b)
                }
            },
            (Scalar::Integer(a), Scalar::Integer(b)) => Ok(a == b),
            (Scalar::Float(a), Scalar::Float(b)) => Ok(a == b),
            (Scalar::Boolean(a), Scalar::Boolean(b)) => Ok(a == b),
            (Scalar::Null, Scalar::Null) => Ok(true),
            _ => Err(Error::ConditionTypeMismatch),
        }
    }
}

} // verus!
