//! The bridge from evaluated expression values to concrete lookups: shape
//! checks on the selection argument, and the record-level entry point.
use vstd::prelude::*;

use crate::index::IndexHandle;
use crate::query::{conds_of, Condition};
use crate::registry::{find_spec, handle_of, result_models, TableSearch};
use crate::scalar::{Case, Scalar, ScalarV};
use crate::table::{strings_of, Row};
use crate::Error;

verus! {

/// The text a textual scalar carries; empty for any other kind.
pub open spec fn text_of(v: ScalarV) -> Seq<char> {
    match v {
        ScalarV::Text(s) => s,
        _ => Seq::empty(),
    }
}

/// Whether every item of a selection list is textual.
pub open spec fn all_text(s: Seq<Scalar>) -> bool {
    forall|i: int| 0 <= i < s.len() ==> (#[trigger] s[i])@ is Text
}

/// The texts a selection list carries.
pub open spec fn text_items(s: Seq<Scalar>) -> Seq<Seq<char>> {
    s.map_values(|x: Scalar| text_of(x@))
}

/// Checks that a selection value is a sequence of text items and hands the
/// column names on; any other item is a type error.
pub fn select_fields(values: &Vec<Scalar>) -> (r: Result<Vec<String>, Error>)
    ensures
        match r {
            Ok(names) => all_text(values@) && strings_of(names@) == text_items(values@),
            Err(e) => !all_text(values@) && e == Error::EvaluationError,
        },
{
    let mut names: Vec<String> = Vec::new();
    let n = values.len();
    let mut i: usize = 0;
    #[verifier::loop_isolation(false)]
    while i < n
        invariant
            n == values.len(),
            0 <= i <= n,
            names@.len() == i,
            forall|j: int| 0 <= j < i ==> (#[trigger] values@[j])@ is Text,
            forall|j: int| 0 <= j < i ==> strings_of(names@)[j] == text_items(values@)[j],
        decreases n - i,
    {
        match &values[i] {
            Scalar::Text(s) => {
                names.push(s.clone());
                proof {
                    assert(strings_of(names@)[i as int] == names@[i as int]@);
                    assert(text_items(values@)[i as int] == text_of(values@[i as int]@));
                }
            },
            _ => {
                proof {
                    assert(!(values@[i as int]@ is Text));
                }
                return Err(Error::EvaluationError);
            },
        }
        i += 1;
    }
    proof {
        assert(strings_of(names@) =~= text_items(values@));
    }
    Ok(names)
}

/// The model of an owned optional wildcard.
pub open spec fn owned_wild_of(w: Option<Scalar>) -> Option<ScalarV> {
    match w {
        Some(v) => Some(v@),
        None => None,
    }
}

/// One record's lookup, as a compiled call site performs it: the selection
/// value is checked to be a list of text items, and the query engine
/// answers with the matching rows, projected if a selection was given.
pub fn find_enrichment_table_records(
    select: Option<Vec<Scalar>>,
    enrichment_tables: &TableSearch,
    table: &String,
    case_sensitive: Case,
    wildcard: Option<Scalar>,
    condition: &Vec<Condition>,
    index: Option<IndexHandle>,
) -> (r: Result<Vec<Row>, Error>)
    ensures
        ({
            let conds = conds_of(condition@);
            let w = owned_wild_of(wildcard);
            match select {
                None => result_models(
                    r,
                    find_spec(
                        enrichment_tables@,
                        table@,
                        case_sensitive,
                        conds,
                        None,
                        w,
                        handle_of(index),
                    ),
                ),
                Some(v) => if all_text(v@) {
                    result_models(
                        r,
                        find_spec(
                            enrichment_tables@,
                            table@,
                            case_sensitive,
                            conds,
                            Some(text_items(v@)),
                            w,
                            handle_of(index),
                        ),
                    )
                } else {
                    r == Err::<Vec<Row>, Error>(Error::EvaluationError)
                },
            }
        }),
{
    let wild_ref: Option<&Scalar> = match &wildcard {
        Some(v) => Some(v),
        None => None,
    };
    match &select {
        None => enrichment_tables.find_table_rows(
            table,
            case_sensitive,
            condition,
            None,
            wild_ref,
            index,
        ),
        Some(values) => {
            match select_fields(values) {
                Err(e) => Err(e),
                Ok(names) => enrichment_tables.find_table_rows(
                    table,
                    case_sensitive,
                    condition,
                    Some(&names),
                    wild_ref,
                    index,
                ),
            }
        },
    }
}

} // verus!
