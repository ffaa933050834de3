//! Conditions and row matching: per-condition equality with case rule and
//! wildcard fallback, and the full-scan match set.
use vstd::prelude::*;

use crate::scalar::{scalar_eq_spec, Case, Scalar, ScalarV};
use crate::table::{row_lookup, Row, RowV};
use crate::Error;

verus! {

/// The model of a condition: a column name and the scalar it must equal.
pub type CondV = (Seq<char>, ScalarV);

/// An equality constraint on one table column.
#[derive(Debug)]
pub struct Condition {
    pub field: String,
    pub value: Scalar,
}

impl View for Condition {
    type V = CondV;

    open spec fn view(&self) -> CondV {
        (self.field@, self.value@)
    }
}

/// The models of a sequence of conditions.
pub open spec fn conds_of(s: Seq<Condition>) -> Seq<CondV> {
    s.map_values(|c: Condition| (c.field@, c.value@))
}

/// The model of an optional wildcard argument.
pub open spec fn wild_of(w: Option<&Scalar>) -> Option<ScalarV> {
    match w {
        Some(v) => Some(v@),
        None => None,
    }
}

impl Condition {
    /// Builds the condition "this column must equal this value".
    pub fn new(field: String, value: Scalar) -> (r: Condition)
        ensures
            r@ == (field@, value@),
    {
        Condition { field, value }
    }
}

/// The field names a list of conditions constrains, in order.
pub open spec fn cond_fields(conds: Seq<CondV>) -> Seq<Seq<char>> {
    conds.map_values(|c: CondV| c.0)
}

/// The predicate a condition lookup searches with.
pub open spec fn cond_pred(field: Seq<char>) -> spec_fn(CondV) -> bool {
    |c: CondV| c.0 == field
}

/// The value of the first condition on a field, if any.
pub open spec fn conds_lookup(conds: Seq<CondV>, field: Seq<char>) -> Option<ScalarV> {
    match crate::seek::first_where(conds, cond_pred(field)) {
        Some(i) => Some(conds[i].1),
        None => None,
    }
}

/// Whether one condition holds of a row: the row's value at the field must
/// equal the condition value; a row lacking the field matches only against
/// a supplied wildcard default.  `None` marks a kind mismatch.
pub open spec fn cond_eval(row: RowV, c: CondV, case: Case, wild: Option<ScalarV>) -> Option<
    bool,
> {
    match row_lookup(row, c.0) {
        Some(v) => scalar_eq_spec(v, c.1, case),
        None => match wild {
            Some(w) => scalar_eq_spec(w, c.1, case),
            None => Some(false),
        },
    }
}

/// Whether every condition holds of a row; `None` when any single
/// comparison hits a kind mismatch.
pub open spec fn row_eval(row: RowV, conds: Seq<CondV>, case: Case, wild: Option<ScalarV>) -> Option<
    bool,
> {
    if exists|k: int|
        0 <= k < conds.len() && (#[trigger] cond_eval(row, conds[k], case, wild)) is None {
        None
    } else {
        Some(
            forall|k: int|
                0 <= k < conds.len() ==> (#[trigger] cond_eval(row, conds[k], case, wild)) == Some(
                    true,
                ),
        )
    }
}

/// Evaluates every condition against one row.
#[verifier::loop_isolation(false)]
pub fn row_matches(row: &Row, conds: &Vec<Condition>, case: Case, wildcard: Option<&Scalar>) -> (r:
    Result<bool, Error>)
    ensures
        match r {
            Ok(m) => row_eval(row@, conds_of(conds@), case, wild_of(wildcard)) == Some(m),
            Err(e) => row_eval(row@, conds_of(conds@), case, wild_of(wildcard)) is None && e
                == Error::ConditionTypeMismatch,
        },
{
    let ghost cs = conds_of(conds@);
    let n = conds.len();
    let mut all = true;
    let mut k: usize = 0;
    while k < n
        invariant
            n == conds.len(),
            0 <= k <= n,
            forall|j: int| 0 <= j < k ==> (#[trigger] cond_eval(row@, cs[j], case, wild_of(
                wildcard,
            ))) is Some,
            all == (forall|j: int|
                0 <= j < k ==> (#[trigger] cond_eval(row@, cs[j], case, wild_of(wildcard)))
                    == Some(true)),
        decreases n - k,
    {
        proof {
            assert(cs[k as int] == (conds@[k as int].field@, conds@[k as int].value@));
        }
        let cond = &conds[k];
        let step: Result<bool, Error> = match row.get(&cond.field) {
            Some(v) => v.equals(&cond.value, case),
            None => match wildcard {
                Some(w) => w.equals(&cond.value, case),
                None => Ok(false),
            },
        };
        match step {
            Ok(m) => {
                proof {
                    assert(cond_eval(row@, cs[k as int], case, wild_of(wildcard)) == Some(m));
                }
                if !m {
                    all = false;
                }
            },
            Err(e) => {
                proof {
                    assert(cond_eval(row@, cs[k as int], case, wild_of(wildcard)) is None);
                }
                return Err(e);
            },
        }
        k += 1;
    }
    Ok(all)
}

/// The positions, in ascending order, of the rows among the first `upto`
/// that every condition holds of.
pub open spec fn scan_matches(
    rows: Seq<RowV>,
    conds: Seq<CondV>,
    case: Case,
    wild: Option<ScalarV>,
    upto: int,
) -> Seq<int>
    decreases upto,
{
    if upto <= 0 {
        Seq::empty()
    } else {
        let pre = scan_matches(rows, conds, case, wild, upto - 1);
        if row_eval(rows[upto - 1], conds, case, wild) == Some(true) {
            pre.push(upto - 1)
        } else {
            pre
        }
    }
}

/// Whether a full scan hits a kind mismatch on any row.
pub open spec fn scan_error(
    rows: Seq<RowV>,
    conds: Seq<CondV>,
    case: Case,
    wild: Option<ScalarV>,
) -> bool {
    exists|i: int| 0 <= i < rows.len() && (#[trigger] row_eval(rows[i], conds, case, wild)) is None
}

/// What the scan's match set holds: exactly the matching row positions
/// below `upto`, each listed once, in ascending order.
pub proof fn lemma_scan_matches_props(
    rows: Seq<RowV>,
    conds: Seq<CondV>,
    case: Case,
    wild: Option<ScalarV>,
    upto: int,
)
    ensures
        forall|j: int|
            0 <= j < scan_matches(rows, conds, case, wild, upto).len() ==> 0 <= #[trigger] scan_matches(
                rows,
                conds,
                case,
                wild,
                upto,
            )[j] < upto && row_eval(rows[scan_matches(rows, conds, case, wild, upto)[j]], conds, case, wild)
                == Some(true),
        forall|i: int|
            0 <= i < upto && #[trigger] row_eval(rows[i], conds, case, wild) == Some(true)
                ==> scan_matches(rows, conds, case, wild, upto).contains(i),
        forall|j1: int, j2: int|
            0 <= j1 < j2 < scan_matches(rows, conds, case, wild, upto).len()
                ==> #[trigger] scan_matches(rows, conds, case, wild, upto)[j1]
                < #[trigger] scan_matches(rows, conds, case, wild, upto)[j2],
    decreases upto,
{
    if upto > 0 {
        lemma_scan_matches_props(rows, conds, case, wild, upto - 1);
        let pre = scan_matches(rows, conds, case, wild, upto - 1);
        let cur = scan_matches(rows, conds, case, wild, upto);
        assert(forall|i: int|
            0 <= i < upto - 1 && #[trigger] row_eval(rows[i], conds, case, wild) == Some(true)
                ==> pre.contains(i));
        assert forall|i: int|
            0 <= i < upto && #[trigger] row_eval(rows[i], conds, case, wild) == Some(true)
            implies cur.contains(i) by {
            if i < upto - 1 {
                assert(pre.contains(i));
                let j = choose|j: int| 0 <= j < pre.len() && pre[j] == i;
                assert(cur[j] == i);
            } else {
                assert(cur[cur.len() - 1] == i);
            }
        }
    }
}

} // verus!
