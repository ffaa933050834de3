//! The laws the library holds to, each proved over the same models the
//! public contracts use.
use vstd::prelude::*;

use crate::bridge::text_of;
use crate::index::{find_req, find_table, req_matches, req_pred, same_field_set, ReqV};
use crate::query::{
    cond_eval, lemma_scan_matches_props, row_eval, scan_error, scan_matches, CondV,
};
use crate::registry::{apply_select, find_spec, request_spec, sel_ok, RegV, SearchV};
use crate::scalar::{lower_of, scalar_eq_spec, Case, ScalarV};
use crate::seek::{first_where, lemma_first_where_push};
use crate::table::{project_row, row_lookup, RowV, TableV};
use crate::Error;

verus! {

/// Two field lists naming the same set contain the same names.
proof fn lemma_same_field_set_members(a: Seq<Seq<char>>, b: Seq<Seq<char>>, x: Seq<char>)
    requires
        same_field_set(a, b),
    ensures
        a.contains(x) == b.contains(x),
{
    if a.contains(x) {
        let i = choose|i: int| 0 <= i < a.len() && a[i] == x;
        assert(b.contains(a[i]));
    }
    if b.contains(x) {
        let i = choose|i: int| 0 <= i < b.len() && b[i] == x;
        assert(a.contains(b[i]));
    }
}

/// Requests over set-equal field lists match the same stored requests.
proof fn lemma_req_matches_equiv(
    q: ReqV,
    table: Seq<char>,
    fields: Seq<Seq<char>>,
    fields2: Seq<Seq<char>>,
    case: Case,
)
    requires
        same_field_set(fields2, fields),
    ensures
        req_matches(q, table, fields, case) == req_matches(q, table, fields2, case),
{
    assert forall|x: Seq<char>| #[trigger] fields.contains(x) == fields2.contains(x) by {
        lemma_same_field_set_members(fields2, fields, x);
    }
    if same_field_set(q.fields, fields) {
        assert(same_field_set(q.fields, fields2));
    }
    if same_field_set(q.fields, fields2) {
        assert(same_field_set(q.fields, fields));
    }
}

/// A first-match search cannot tell element-wise equal predicates apart.
proof fn lemma_first_where_equiv<T>(s: Seq<T>, p1: spec_fn(T) -> bool, p2: spec_fn(T) -> bool)
    requires
        forall|i: int| 0 <= i < s.len() ==> p1(s[i]) == p2(s[i]),
    ensures
        first_where(s, p1) == first_where(s, p2),
    decreases s.len(),
{
    if s.len() > 0 {
        assert(forall|i: int|
            0 <= i < s.len() - 1 ==> s.drop_first()[i] == s[i + 1] && p1(s[i + 1]) == p2(
                s[i + 1],
            ));
        lemma_first_where_equiv(s.drop_first(), p1, p2);
    }
}

/// Idempotent dedup: a second request for the same (table, field set,
/// case) combination, with the fields in any order, returns the same
/// handle as the first and leaves the registry unchanged.
pub proof fn lemma_request_index_idempotent(
    r: RegV,
    table: Seq<char>,
    fields: Seq<Seq<char>>,
    fields2: Seq<Seq<char>>,
    case: Case,
)
    requires
        same_field_set(fields2, fields),
        request_spec(r, table, fields, case).1 is Ok,
    ensures
        ({
            let (r1, res1) = request_spec(r, table, fields, case);
            let (r2, res2) = request_spec(r1, table, fields2, case);
            r2 == r1 && res2 == res1
        }),
{
    let (r1, res1) = request_spec(r, table, fields, case);
    assert forall|i: int|
        0 <= i < r.requests.len() ==> req_pred(table, fields, case)(#[trigger] r.requests[i])
            == req_pred(table, fields2, case)(r.requests[i]) by {
        if 0 <= i < r.requests.len() {
            lemma_req_matches_equiv(r.requests[i], table, fields, fields2, case);
        }
    }
    lemma_first_where_equiv(
        r.requests,
        req_pred(table, fields, case),
        req_pred(table, fields2, case),
    );
    match find_req(r.requests, table, fields, case) {
        Some(j) => {
            assert(r1 == r);
        },
        None => {
            let q = ReqV { table, fields, case };
            assert(r1.requests == r.requests.push(q));
            lemma_first_where_push(r.requests, req_pred(table, fields2, case), q);
            assert forall|x: Seq<char>| #[trigger] fields.contains(x) == fields2.contains(
                x,
            ) by {
                lemma_same_field_set_members(fields2, fields, x);
            }
            assert(same_field_set(fields, fields2));
            assert(req_matches(q, table, fields2, case));
            assert(find_req(r1.requests, table, fields2, case) == Some(r.requests.len() as int));
        },
    }
}

/// Completeness: for a row present in the table, a full scan whose
/// conditions are exactly that row's own cell values returns the row
/// among the results.  Excluded are only queries whose scan would abort
/// on a kind mismatch against some other row.
pub proof fn lemma_full_scan_completeness(
    d: SearchV,
    table: Seq<char>,
    case: Case,
    conds: Seq<CondV>,
    wild: Option<ScalarV>,
    ti: int,
    ri: int,
)
    requires
        find_table(d.tables, table) == Some(ti),
        0 <= ti < d.tables.len(),
        0 <= ri < d.tables[ti].rows.len(),
        forall|k: int|
            0 <= k < conds.len() ==> row_lookup(d.tables[ti].rows[ri], (#[trigger] conds[k]).0)
                == Some(conds[k].1),
        !scan_error(d.tables[ti].rows, conds, case, wild),
    ensures
        ({
            let res = find_spec(Some(d), table, case, conds, None, wild, None);
            &&& res is Ok
            &&& exists|j: int|
                0 <= j < res.unwrap().len() && res.unwrap()[j] == d.tables[ti].rows[ri]
        }),
{
    let t = d.tables[ti];
    let row = t.rows[ri];
    assert forall|k: int| 0 <= k < conds.len() implies (#[trigger] cond_eval(
        row,
        conds[k],
        case,
        wild,
    )) == Some(true) by {
        let v = conds[k].1;
        assert(row_lookup(row, conds[k].0) == Some(v));
        assert(crate::scalar::same_kind(v, v));
        assert(scalar_eq_spec(v, v, case) == Some(true));
    }
    assert(row_eval(row, conds, case, wild) == Some(true));
    let upto = t.rows.len() as int;
    lemma_scan_matches_props(t.rows, conds, case, wild, upto);
    let ids = scan_matches(t.rows, conds, case, wild, upto);
    assert(ids.contains(ri));
    let j = choose|j: int| 0 <= j < ids.len() && ids[j] == ri;
    let res = find_spec(Some(d), table, case, conds, None, wild, None);
    assert(res == apply_select(t, ids, None::<Seq<Seq<char>>>));
    assert(res.unwrap()[j] == t.rows[ids[j]]);
}

/// Case semantics at one condition on a textual cell: under
/// `Insensitive` the row matches exactly when the folded forms agree;
/// under `Sensitive` exactly when the texts are identical.
pub proof fn lemma_case_semantics(
    row: RowV,
    f: Seq<char>,
    a: Seq<char>,
    b: Seq<char>,
    wild: Option<ScalarV>,
)
    requires
        row_lookup(row, f) == Some(ScalarV::Text(a)),
    ensures
        cond_eval(row, (f, ScalarV::Text(b)), Case::Insensitive, wild) == Some(
            lower_of(a) == lower_of(b),
        ),
        cond_eval(row, (f, ScalarV::Text(b)), Case::Sensitive, wild) == Some(a == b),
{
    assert((ScalarV::Text(lower_of(a)) == ScalarV::Text(lower_of(b))) == (lower_of(a) == lower_of(
        b,
    )));
    assert((ScalarV::Text(a) == ScalarV::Text(b)) == (a == b));
}

/// A query under `Insensitive` matches a row whose textual cells differ
/// from the condition values only in letter case.
pub proof fn lemma_insensitive_query_matches(row: RowV, conds: Seq<CondV>, wild: Option<ScalarV>)
    requires
        forall|k: int|
            0 <= k < conds.len() ==> {
                &&& (#[trigger] row_lookup(row, conds[k].0)) matches Some(v) && v is Text
                    && lower_of(text_of(v)) == lower_of(text_of(conds[k].1))
                &&& conds[k].1 is Text
            },
    ensures
        row_eval(row, conds, Case::Insensitive, wild) == Some(true),
{
    assert forall|k: int| 0 <= k < conds.len() implies (#[trigger] cond_eval(
        row,
        conds[k],
        Case::Insensitive,
        wild,
    )) == Some(true) by {
        let v = row_lookup(row, conds[k].0).unwrap();
        assert(scalar_eq_spec(v, conds[k].1, Case::Insensitive) == Some(true));
    }
}

/// The same query under `Sensitive` does not match such a row: one
/// condition whose text differs exactly rules it out, as long as no other
/// condition aborts the scan with a kind mismatch.
pub proof fn lemma_sensitive_query_rejects(
    row: RowV,
    conds: Seq<CondV>,
    k: int,
    a: Seq<char>,
    b: Seq<char>,
    wild: Option<ScalarV>,
)
    requires
        0 <= k < conds.len(),
        row_lookup(row, conds[k].0) == Some(ScalarV::Text(a)),
        conds[k].1 == ScalarV::Text(b),
        a != b,
        forall|j: int|
            0 <= j < conds.len() ==> (#[trigger] cond_eval(row, conds[j], Case::Sensitive, wild))
                is Some,
    ensures
        row_eval(row, conds, Case::Sensitive, wild) == Some(false),
{
    assert(cond_eval(row, conds[k], Case::Sensitive, wild) == Some(false));
}

/// Projection purity: a selection within the schema never changes which
/// rows match, only projects each matched row; one outside the schema
/// fails the whole call with `SelectFieldMissing`.
pub proof fn lemma_projection_purity(
    d: SearchV,
    table: Seq<char>,
    case: Case,
    conds: Seq<CondV>,
    sel: Seq<Seq<char>>,
    wild: Option<ScalarV>,
    index: Option<int>,
    ti: int,
)
    requires
        find_table(d.tables, table) == Some(ti),
        0 <= ti < d.tables.len(),
    ensures
        sel_ok(d.tables[ti], sel) ==> ({
            let with = find_spec(Some(d), table, case, conds, Some(sel), wild, index);
            let without = find_spec(Some(d), table, case, conds, None, wild, index);
            match (with, without) {
                (Ok(a), Ok(b)) => a.len() == b.len() && (forall|j: int|
                    0 <= j < a.len() ==> a[j] == project_row(#[trigger] b[j], sel)),
                (Err(ea), Err(eb)) => ea == eb,
                _ => false,
            }
        }),
        !sel_ok(d.tables[ti], sel) ==> (find_spec(Some(d), table, case, conds, None, wild, index)
            is Ok ==> find_spec(Some(d), table, case, conds, Some(sel), wild, index) == Err::<
            Seq<RowV>,
            Error,
        >(Error::SelectFieldMissing)),
{
    let t = d.tables[ti];
    let with = find_spec(Some(d), table, case, conds, Some(sel), wild, index);
    let without = find_spec(Some(d), table, case, conds, None, wild, index);
    if sel_ok(t, sel) {
        match (with, without) {
            (Ok(a), Ok(b)) => {
                assert forall|j: int| 0 <= j < a.len() implies a[j] == project_row(
                    #[trigger] b[j],
                    sel,
                ) by {
                }
            },
            _ => {},
        }
    }
}

/// Wildcard semantics: a row lacking a conditioned column matches that
/// condition against the wildcard default when one is supplied, and
/// without one it never matches, whatever the other conditions say.
pub proof fn lemma_wildcard_semantics(
    row: RowV,
    conds: Seq<CondV>,
    k: int,
    case: Case,
    w: ScalarV,
)
    requires
        0 <= k < conds.len(),
        row_lookup(row, conds[k].0) is None,
    ensures
        cond_eval(row, conds[k], case, None) == Some(false),
        cond_eval(row, conds[k], case, Some(w)) == scalar_eq_spec(w, conds[k].1, case),
        row_eval(row, conds, case, None) != Some(true),
{
    assert(cond_eval(row, conds[k], case, None) == Some(false));
    if row_eval(row, conds, case, None) == Some(true) {
        assert(cond_eval(row, conds[k], case, None) == Some(true));
    }
}

} // verus!
