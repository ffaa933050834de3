//! The enrichment-table registry: table registration and index planning
//! during loading, a one-way transition to a frozen, shareable state, and
//! the read-only query engine.
use vstd::prelude::*;

use std::sync::Arc;

use crate::index::{
    build_index, buckets_of, find_bucket, find_req, find_table, index_key, index_wf, indexed_rows,
    indexes_of, ints_of, key_rows, lemma_key_rows_props, req_matches, req_pred, reqs_of,
    same_field_set, scalars_of, table_pred, tables_of, Index, IndexHandle, IndexRequest, IndexV,
    ReqV,
};
use crate::query::{
    cond_fields, cond_pred, conds_lookup, conds_of, row_eval, scan_error, scan_matches, wild_of,
    Condition, CondV,
};
use crate::scalar::{normalize_spec, Case, Scalar, ScalarV};
use crate::seek::{
    first_where, lemma_first_where_all_none, lemma_first_where_found, lemma_first_where_none,
    lemma_first_where_push,
};
use crate::table::{project_row, rows_of, strings_of, Row, RowV, Table, TableV};
use crate::Error;

verus! {

/// The registry's lifecycle: mutable while loading, then frozen for good.
#[derive(Clone, Copy, Debug, PartialEq, Eq, Structural)]
pub enum Lifecycle {
    Loading,
    Ready,
}

/// The model of a frozen snapshot.
#[verifier::ext_equal]
pub struct SearchV {
    pub tables: Seq<TableV>,
    pub indexes: Seq<IndexV>,
}

/// The frozen table store and its realized indexes, shared by reference
/// among every read-only handle once loading finishes.
#[derive(Debug)]
pub struct SearchData {
    tables: Vec<Table>,
    indexes: Vec<Index>,
}

impl View for SearchData {
    type V = SearchV;

    closed spec fn view(&self) -> SearchV {
        SearchV { tables: tables_of(self.tables@), indexes: indexes_of(self.indexes@) }
    }
}

/// Every index of a snapshot is well built for the table it names.
pub open spec fn search_wf(d: SearchV) -> bool {
    forall|k: int|
        0 <= k < d.indexes.len() ==> match find_table(d.tables, (#[trigger] d.indexes[k]).table) {
            Some(t) => index_wf(d.indexes[k], d.tables[t].rows),
            None => false,
        }
}

/// The indexes of a snapshot realize the planning requests one to one.
pub open spec fn indexes_model(d: SearchV, reqs: Seq<ReqV>) -> bool {
    &&& d.indexes.len() == reqs.len()
    &&& forall|k: int|
        0 <= k < reqs.len() ==> (#[trigger] d.indexes[k]).table == reqs[k].table
            && d.indexes[k].fields == reqs[k].fields && d.indexes[k].case == reqs[k].case
}

/// The model of the registry: its lifecycle, table store and requests.
#[verifier::ext_equal]
pub struct RegV {
    pub state: Lifecycle,
    pub tables: Seq<TableV>,
    pub requests: Seq<ReqV>,
}

/// What `register_table` does: appends the table, unless the registry is
/// frozen or the name is taken.
pub open spec fn register_spec(r: RegV, t: TableV) -> (RegV, Result<(), Error>) {
    if r.state != Lifecycle::Loading {
        (r, Err(Error::LifecycleError))
    } else if find_table(r.tables, t.name) is Some {
        (r, Err(Error::DuplicateTable))
    } else {
        (RegV { state: r.state, tables: r.tables.push(t), requests: r.requests }, Ok(()))
    }
}

/// What `request_index` does: hands back the position of the first stored
/// request covering the same (table, field set, case) combination, or
/// stores a new request; fails when frozen or when the table is unknown.
pub open spec fn request_spec(r: RegV, table: Seq<char>, fields: Seq<Seq<char>>, case: Case) -> (
    RegV,
    Result<int, Error>,
) {
    if r.state != Lifecycle::Loading {
        (r, Err(Error::LifecycleError))
    } else if find_table(r.tables, table) is None {
        (r, Err(Error::UnknownTable))
    } else {
        match find_req(r.requests, table, fields, case) {
            Some(j) => (r, Ok(j)),
            None => (
                RegV {
                    state: r.state,
                    tables: r.tables,
                    requests: r.requests.push(ReqV { table, fields, case }),
                },
                Ok(r.requests.len() as int),
            ),
        }
    }
}

/// Whether a list of names holds one equal to `s`.
#[verifier::loop_isolation(false)]
fn contains_string(v: &Vec<String>, s: &String) -> (r: bool)
    ensures
        r == strings_of(v@).contains(s@),
{
    let n = v.len();
    let mut i: usize = 0;
    while i < n
        invariant
            n == v.len(),
            0 <= i <= n,
            forall|j: int| 0 <= j < i ==> strings_of(v@)[j] != s@,
        decreases n - i,
    {
        proof {
            assert(strings_of(v@)[i as int] == v@[i as int]@);
        }
        if v[i] == *s {
            assert(strings_of(v@).contains(s@));
            return true;
        }
        i += 1;
    }
    proof {
        if strings_of(v@).contains(s@) {
            let j = choose|j: int|
                0 <= j < strings_of(v@).len() && strings_of(v@)[j] == s@;
            assert(false);
        }
    }
    false
}

/// Whether two field lists name the same set of fields.
fn fields_match(a: &Vec<String>, b: &Vec<String>) -> (r: bool)
    ensures
        r == same_field_set(strings_of(a@), strings_of(b@)),
{
    let mut forward = true;
    let n = a.len();
    let mut i: usize = 0;
    #[verifier::loop_isolation(false)]
    while i < n
        invariant
            n == a.len(),
            0 <= i <= n,
            forward == (forall|j: int|
                0 <= j < i ==> strings_of(b@).contains(#[trigger] strings_of(a@)[j])),
        decreases n - i,
    {
        proof {
            assert(strings_of(a@)[i as int] == a@[i as int]@);
        }
        if !contains_string(b, &a[i]) {
            forward = false;
        }
        i += 1;
    }
    if !forward {
        return false;
    }
    let m = b.len();
    let mut k: usize = 0;
    #[verifier::loop_isolation(false)]
    while k < m
        invariant
            m == b.len(),
            0 <= k <= m,
            forall|j: int| 0 <= j < k ==> strings_of(a@).contains(#[trigger] strings_of(b@)[j]),
        decreases m - k,
    {
        proof {
            assert(strings_of(b@)[k as int] == b@[k as int]@);
        }
        if !contains_string(a, &b[k]) {
            return false;
        }
        k += 1;
    }
    true
}

/// The position of the first table of that name in the store.
#[verifier::loop_isolation(false)]
fn find_table_exec(tables: &Vec<Table>, name: &String) -> (r: Option<usize>)
    ensures
        match r {
            Some(i) => i < tables@.len() && find_table(tables_of(tables@), name@) == Some(
                i as int,
            ),
            None => find_table(tables_of(tables@), name@) is None,
        },
{
    let ghost p = table_pred(name@);
    let n = tables.len();
    let mut i: usize = 0;
    while i < n
        invariant
            n == tables.len(),
            0 <= i <= n,
            forall|j: int| 0 <= j < i ==> !p(tables_of(tables@)[j]),
        decreases n - i,
    {
        proof {
            assert(tables_of(tables@)[i as int] == tables@[i as int]@);
        }
        if tables[i].name == *name {
            proof {
                lemma_first_where_found(tables_of(tables@), p, i as int);
            }
            return Some(i);
        }
        i += 1;
    }
    proof {
        lemma_first_where_none(tables_of(tables@), p);
    }
    None
}

/// The position of the first stored request covering the combination.
#[verifier::loop_isolation(false)]
fn find_req_exec(reqs: &Vec<IndexRequest>, table: &String, fields: &Vec<String>, case: Case) -> (r:
    Option<usize>)
    ensures
        match r {
            Some(i) => i < reqs@.len() && find_req(reqs_of(reqs@), table@, strings_of(fields@), case)
                == Some(i as int),
            None => find_req(reqs_of(reqs@), table@, strings_of(fields@), case) is None,
        },
{
    let ghost p = req_pred(table@, strings_of(fields@), case);
    let n = reqs.len();
    let mut i: usize = 0;
    while i < n
        invariant
            n == reqs.len(),
            0 <= i <= n,
            forall|j: int| 0 <= j < i ==> !p(reqs_of(reqs@)[j]),
        decreases n - i,
    {
        proof {
            assert(reqs_of(reqs@)[i as int] == reqs@[i as int]@);
        }
        let q = &reqs[i];
        let hit = if q.table == *table {
            if q.case == case {
                fields_match(&q.fields, fields)
            } else {
                false
            }
        } else {
            false
        };
        if hit {
            proof {
                lemma_first_where_found(reqs_of(reqs@), p, i as int);
            }
            return Some(i);
        }
        i += 1;
    }
    proof {
        lemma_first_where_none(reqs_of(reqs@), p);
    }
    None
}

/// The registry: owner of the table store and the planning requests while
/// loading, and of the shared snapshot once frozen.
#[derive(Debug)]
pub struct TableRegistry {
    state: Lifecycle,
    tables: Vec<Table>,
    requests: Vec<IndexRequest>,
    shared: Option<Arc<SearchData>>,
}

impl View for TableRegistry {
    type V = RegV;

    closed spec fn view(&self) -> RegV {
        RegV {
            state: self.state,
            tables: match self.shared {
                Some(a) => a@.tables,
                None => tables_of(self.tables@),
            },
            requests: reqs_of(self.requests@),
        }
    }
}

impl TableRegistry {
    /// The registry's invariant: requests are deduplicated and name
    /// registered tables; the snapshot exists exactly once frozen, holds
    /// the table store, and realizes every request with a well-built index.
    #[verifier::type_invariant]
    spec fn inv(self) -> bool {
        &&& forall|j1: int, j2: int|
            0 <= j1 < j2 < self@.requests.len() ==> !req_matches(
                #[trigger] self@.requests[j2],
                (#[trigger] self@.requests[j1]).table,
                self@.requests[j1].fields,
                self@.requests[j1].case,
            )
        &&& forall|j: int|
            0 <= j < self@.requests.len() ==> find_table(
                self@.tables,
                (#[trigger] self@.requests[j]).table,
            ) is Some
        &&& match self.state {
            Lifecycle::Loading => self.shared is None,
            Lifecycle::Ready => match self.shared {
                Some(a) => search_wf(a@) && indexes_model(a@, reqs_of(self.requests@)),
                None => false,
            },
        }
    }

    /// An empty registry, accepting tables and index requests.
    pub fn new() -> (r: TableRegistry)
        ensures
            r@ == (RegV {
                state: Lifecycle::Loading,
                tables: Seq::<TableV>::empty(),
                requests: Seq::<ReqV>::empty(),
            }),
    {
        let r = TableRegistry {
            state: Lifecycle::Loading,
            tables: Vec::new(),
            requests: Vec::new(),
            shared: None,
        };
        proof {
            assert(r@.tables =~= Seq::<TableV>::empty());
            assert(r@.requests =~= Seq::<ReqV>::empty());
            assert(r@ =~= (RegV {
                state: Lifecycle::Loading,
                tables: Seq::<TableV>::empty(),
                requests: Seq::<ReqV>::empty(),
            }));
        }
        r
    }

    /// Loads one table's schema and content.  Valid only while loading;
    /// a name already registered is refused.
    pub fn register_table(&mut self, name: String, columns: Vec<String>, rows: Vec<Row>) -> (r:
        Result<(), Error>)
        ensures
            ({
                let (r2, res) = register_spec(
                    old(self)@,
                    TableV { name: name@, columns: strings_of(columns@), rows: rows_of(rows@) },
                );
                final (self)@ == r2 && r == res
            }),
    {
        proof {
            use_type_invariant(&*self);
        }
        match self.state {
            Lifecycle::Ready => Err(Error::LifecycleError),
            Lifecycle::Loading => {
                match find_table_exec(&self.tables, &name) {
                    Some(_) => Err(Error::DuplicateTable),
                    None => {
                        let table = Table { name, columns, rows };
                        let ghost tv = table@;
                        let ghost oldr = self@;
                        proof {
                            assert forall|j: int|
                                0 <= j < oldr.requests.len() implies find_table(
                                oldr.tables.push(tv),
                                (#[trigger] oldr.requests[j]).table,
                            ) is Some by {
                                lemma_first_where_push(
                                    oldr.tables,
                                    table_pred(oldr.requests[j].table),
                                    tv,
                                );
                            }
                        }
                        let mut me = TableRegistry {
                            state: Lifecycle::Loading,
                            tables: Vec::new(),
                            requests: Vec::new(),
                            shared: None,
                        };
                        core::mem::swap(self, &mut me);
                        let TableRegistry { state, mut tables, requests, shared } = me;
                        proof {
                            assert(tables_of(tables@.push(table)) =~~= oldr.tables.push(tv));
                        }
                        tables.push(table);
                        *self = TableRegistry { state, tables, requests, shared };
                        proof {
                            assert(self@ =~~= (RegV {
                                state: oldr.state,
                                tables: oldr.tables.push(tv),
                                requests: oldr.requests,
                            }));
                        }
                        Ok(())
                    },
                }
            },
        }
    }

    /// Requests an index over (table, field set, case), deduplicating
    /// against prior requests for the same combination in any field order.
    pub fn request_index(&mut self, table: &String, fields: Vec<String>, case: Case) -> (r: Result<
        IndexHandle,
        Error,
    >)
        ensures
            ({
                let (r2, res) = request_spec(old(self)@, table@, strings_of(fields@), case);
                final (self)@ == r2 && match (r, res) {
                    (Ok(h), Ok(j)) => h.0 as int == j,
                    (Err(a), Err(b)) => a == b,
                    _ => false,
                }
            }),
    {
        proof {
            use_type_invariant(&*self);
        }
        match self.state {
            Lifecycle::Ready => Err(Error::LifecycleError),
            Lifecycle::Loading => {
                match find_table_exec(&self.tables, table) {
                    None => Err(Error::UnknownTable),
                    Some(_) => {
                        match find_req_exec(&self.requests, table, &fields, case) {
                            Some(j) => Ok(IndexHandle(j)),
                            None => {
                                let h = self.requests.len();
                                let request = IndexRequest { table: table.clone(), fields, case };
                                let ghost qv = request@;
                                let ghost oldr = self@;
                                proof {
                                    lemma_first_where_all_none(
                                        oldr.requests,
                                        req_pred(qv.table, qv.fields, qv.case),
                                    );
                                    let newreqs = oldr.requests.push(qv);
                                    assert forall|j1: int, j2: int|
                                        0 <= j1 < j2 < newreqs.len() implies !req_matches(
                                        #[trigger] newreqs[j2],
                                        (#[trigger] newreqs[j1]).table,
                                        newreqs[j1].fields,
                                        newreqs[j1].case,
                                    ) by {
                                        if j2 == oldr.requests.len() as int {
                                            let q1 = oldr.requests[j1];
                                            assert(!req_matches(q1, qv.table, qv.fields, qv.case));
                                            if req_matches(qv, q1.table, q1.fields, q1.case) {
                                                assert(req_matches(
                                                    q1,
                                                    qv.table,
                                                    qv.fields,
                                                    qv.case,
                                                ));
                                            }
                                        }
                                    }
                                }
                                let mut me = TableRegistry {
                                    state: Lifecycle::Loading,
                                    tables: Vec::new(),
                                    requests: Vec::new(),
                                    shared: None,
                                };
                                core::mem::swap(self, &mut me);
                                let TableRegistry { state, tables, mut requests, shared } = me;
                                proof {
                                    assert(reqs_of(requests@.push(request)) =~~= oldr.requests.push(
                                        qv,
                                    ));
                                }
                                requests.push(request);
                                *self = TableRegistry { state, tables, requests, shared };
                                proof {
                                    assert(self@ =~~= (RegV {
                                        state: oldr.state,
                                        tables: oldr.tables,
                                        requests: oldr.requests.push(qv),
                                    }));
                                }
                                Ok(IndexHandle(h))
                            },
                        }
                    },
                }
            },
        }
    }
}

/// The model of an optional column selection.
pub open spec fn sel_of(select: Option<&Vec<String>>) -> Option<Seq<Seq<char>>> {
    match select {
        Some(v) => Some(strings_of(v@)),
        None => None,
    }
}

/// Whether every selected column is part of the table's schema.
pub open spec fn sel_ok(t: TableV, sel: Seq<Seq<char>>) -> bool {
    forall|i: int| 0 <= i < sel.len() ==> t.columns.contains(#[trigger] sel[i])
}

/// Projection of the matched rows, or the whole rows without a selection;
/// a selection naming a column outside the schema fails the whole call.
pub open spec fn apply_select(t: TableV, ids: Seq<int>, sel: Option<Seq<Seq<char>>>) -> Result<
    Seq<RowV>,
    Error,
> {
    match sel {
        None => Ok(ids.map_values(|i: int| t.rows[i])),
        Some(s) => if sel_ok(t, s) {
            Ok(ids.map_values(|i: int| project_row(t.rows[i], s)))
        } else {
            Err(Error::SelectFieldMissing)
        },
    }
}

/// The key an index is probed with: the condition values, normalized as
/// the index was built, in the index's canonical field order.
pub open spec fn probe_key(conds: Seq<CondV>, fields: Seq<Seq<char>>, case: Case) -> Seq<ScalarV> {
    Seq::new(fields.len(), |i: int| normalize_spec(conds_lookup(conds, fields[i]).unwrap(), case))
}

/// Whether a handle names an index of this snapshot that covers the
/// query's table, case rule and exact condition field set.
pub open spec fn index_usable(
    d: SearchV,
    h: int,
    table: Seq<char>,
    case: Case,
    conds: Seq<CondV>,
) -> bool {
    &&& 0 <= h < d.indexes.len()
    &&& d.indexes[h].table == table
    &&& d.indexes[h].case == case
    &&& same_field_set(d.indexes[h].fields, cond_fields(conds))
}

/// The model of a handle argument.
pub open spec fn handle_of(h: Option<IndexHandle>) -> Option<int> {
    match h {
        Some(x) => Some(x.0 as int),
        None => None,
    }
}

/// What a lookup returns: every failure, and the matched rows in original
/// table order, projected when a selection is supplied.
pub open spec fn find_spec(
    s: Option<SearchV>,
    table: Seq<char>,
    case: Case,
    conds: Seq<CondV>,
    sel: Option<Seq<Seq<char>>>,
    wild: Option<ScalarV>,
    index: Option<int>,
) -> Result<Seq<RowV>, Error> {
    match s {
        None => Err(Error::TableNotLoaded),
        Some(d) => match find_table(d.tables, table) {
            None => Err(Error::UnknownTable),
            Some(ti) => {
                let t = d.tables[ti];
                match index {
                    Some(h) => if !index_usable(d, h, table, case, conds) {
                        Err(Error::IndexTableMismatch)
                    } else {
                        apply_select(
                            t,
                            indexed_rows(
                                t.rows,
                                d.indexes[h].fields,
                                case,
                                probe_key(conds, d.indexes[h].fields, case),
                            ),
                            sel,
                        )
                    },
                    None => if scan_error(t.rows, conds, case, wild) {
                        Err(Error::ConditionTypeMismatch)
                    } else {
                        apply_select(
                            t,
                            scan_matches(t.rows, conds, case, wild, t.rows.len() as int),
                            sel,
                        )
                    },
                }
            },
        },
    }
}

/// How an executable result realizes its model: same failure, or the
/// same rows.
pub open spec fn result_models(r: Result<Vec<Row>, Error>, s: Result<Seq<RowV>, Error>) -> bool {
    match (r, s) {
        (Ok(v), Ok(sv)) => rows_of(v@) == sv,
        (Err(a), Err(b)) => a == b,
        _ => false,
    }
}

/// Whether a list of conditions constrains the named field.
#[verifier::loop_isolation(false)]
fn find_cond(conds: &Vec<Condition>, field: &String) -> (r: Option<usize>)
    ensures
        match r {
            Some(i) => i < conds@.len() && first_where(conds_of(conds@), cond_pred(field@))
                == Some(i as int),
            None => first_where(conds_of(conds@), cond_pred(field@)) is None,
        },
{
    let ghost p = cond_pred(field@);
    let n = conds.len();
    let mut i: usize = 0;
    while i < n
        invariant
            n == conds.len(),
            0 <= i <= n,
            forall|j: int| 0 <= j < i ==> !p(conds_of(conds@)[j]),
        decreases n - i,
    {
        proof {
            assert(conds_of(conds@)[i as int] == (conds@[i as int].field@, conds@[i as int].value@));
        }
        if conds[i].field == *field {
            proof {
                lemma_first_where_found(conds_of(conds@), p, i as int);
            }
            return Some(i);
        }
        i += 1;
    }
    proof {
        lemma_first_where_none(conds_of(conds@), p);
    }
    None
}

/// Whether the conditions' field set is exactly the index's field set.
#[verifier::loop_isolation(false)]
fn fields_cover(fields: &Vec<String>, conds: &Vec<Condition>) -> (r: bool)
    ensures
        r == same_field_set(strings_of(fields@), cond_fields(conds_of(conds@))),
{
    let ghost cf = cond_fields(conds_of(conds@));
    let n = fields.len();
    let mut i: usize = 0;
    while i < n
        invariant
            n == fields.len(),
            0 <= i <= n,
            forall|j: int| 0 <= j < i ==> cf.contains(#[trigger] strings_of(fields@)[j]),
        decreases n - i,
    {
        proof {
            assert(strings_of(fields@)[i as int] == fields@[i as int]@);
        }
        match find_cond(conds, &fields[i]) {
            Some(j) => {
                proof {
                    crate::seek::lemma_first_where_some(
                        conds_of(conds@),
                        cond_pred(fields@[i as int]@),
                        j as int,
                    );
                    assert(cf[j as int] == conds_of(conds@)[j as int].0);
                    assert(cf.contains(strings_of(fields@)[i as int]));
                }
            },
            None => {
                proof {
                    lemma_first_where_all_none(conds_of(conds@), cond_pred(fields@[i as int]@));
                    if cf.contains(strings_of(fields@)[i as int]) {
                        let j = choose|j: int| 0 <= j < cf.len() && cf[j] == strings_of(
                            fields@,
                        )[i as int];
                        assert(cond_pred(fields@[i as int]@)(conds_of(conds@)[j]));
                    }
                }
                return false;
            },
        }
        i += 1;
    }
    let m = conds.len();
    let mut k: usize = 0;
    while k < m
        invariant
            m == conds.len(),
            0 <= k <= m,
            forall|j: int| 0 <= j < i ==> cf.contains(#[trigger] strings_of(fields@)[j]),
            i as int == strings_of(fields@).len(),
            forall|j: int| 0 <= j < k ==> strings_of(fields@).contains(#[trigger] cf[j]),
        decreases m - k,
    {
        proof {
            assert(cf[k as int] == conds@[k as int].field@);
        }
        if !contains_string(fields, &conds[k].field) {
            proof {
                assert(!strings_of(fields@).contains(cf[k as int]));
            }
            return false;
        }
        k += 1;
    }
    true
}

/// The normalized probe key for an index whose field set the conditions
/// cover exactly.
#[verifier::loop_isolation(false)]
fn build_probe_key(fields: &Vec<String>, conds: &Vec<Condition>, case: Case) -> (r: Vec<Scalar>)
    requires
        forall|i: int|
            0 <= i < strings_of(fields@).len() ==> cond_fields(conds_of(conds@)).contains(
                #[trigger] strings_of(fields@)[i],
            ),
    ensures
        scalars_of(r@) == probe_key(conds_of(conds@), strings_of(fields@), case),
{
    let ghost cs = conds_of(conds@);
    let ghost sf = strings_of(fields@);
    let n = fields.len();
    let mut key: Vec<Scalar> = Vec::new();
    let mut i: usize = 0;
    while i < n
        invariant
            n == fields.len(),
            0 <= i <= n,
            key@.len() == i,
            forall|j: int| 0 <= j < i ==> scalars_of(key@)[j] == #[trigger] probe_key(
                cs,
                sf,
                case,
            )[j],
        decreases n - i,
    {
        proof {
            assert(sf[i as int] == fields@[i as int]@);
        }
        match find_cond(conds, &fields[i]) {
            Some(j) => {
                key.push(conds[j].value.normalize(case));
                proof {
                    crate::seek::lemma_first_where_some(cs, cond_pred(sf[i as int]), j as int);
                    assert(cs[j as int] == (conds@[j as int].field@, conds@[j as int].value@));
                    assert(conds_lookup(cs, sf[i as int]) == Some(conds@[j as int].value@));
                    assert(probe_key(cs, sf, case)[i as int] == normalize_spec(
                        conds_lookup(cs, sf[i as int]).unwrap(),
                        case,
                    ));
                    assert(scalars_of(key@)[i as int] == key@[i as int]@);
                }
            },
            None => {
                proof {
                    lemma_first_where_all_none(cs, cond_pred(sf[i as int]));
                    assert(cond_fields(cs).contains(sf[i as int]));
                    let j = choose|j: int|
                        0 <= j < cond_fields(cs).len() && cond_fields(cs)[j] == sf[i as int];
                    assert(cond_pred(sf[i as int])(cs[j]));
                    assert(false);
                }
                // unreachable: the field set was checked to be covered
                return key;
            },
        }
        i += 1;
    }
    proof {
        assert(scalars_of(key@) =~= probe_key(cs, sf, case));
    }
    key
}

/// A copy of a bucket's row positions.
#[verifier::loop_isolation(false)]
fn copy_ids(v: &Vec<usize>) -> (r: Vec<usize>)
    ensures
        r@ == v@,
{
    let mut out: Vec<usize> = Vec::new();
    let n = v.len();
    let mut i: usize = 0;
    while i < n
        invariant
            n == v.len(),
            0 <= i <= n,
            out@ == v@.take(i as int),
        decreases n - i,
    {
        out.push(v[i]);
        proof {
            assert(out@ =~= v@.take(i as int + 1));
        }
        i += 1;
    }
    proof {
        assert(v@.take(n as int) =~= v@);
    }
    out
}

/// The full scan: every row every condition holds of, in table order.
#[verifier::loop_isolation(false)]
fn scan_ids(tbl: &Table, conds: &Vec<Condition>, case: Case, wildcard: Option<&Scalar>) -> (r:
    Result<Vec<usize>, Error>)
    ensures
        match r {
            Ok(ids) => !scan_error(tbl@.rows, conds_of(conds@), case, wild_of(wildcard))
                && ints_of(ids@) == scan_matches(
                tbl@.rows,
                conds_of(conds@),
                case,
                wild_of(wildcard),
                tbl@.rows.len() as int,
            ) && (forall|j: int| 0 <= j < ids@.len() ==> (#[trigger] ids@[j]) < tbl.rows@.len()),
            Err(e) => scan_error(tbl@.rows, conds_of(conds@), case, wild_of(wildcard)) && e
                == Error::ConditionTypeMismatch,
        },
{
    let ghost rowsv = tbl@.rows;
    let ghost cs = conds_of(conds@);
    let ghost w = wild_of(wildcard);
    let n = tbl.rows.len();
    let mut ids: Vec<usize> = Vec::new();
    let mut i: usize = 0;
    while i < n
        invariant
            n == tbl.rows.len(),
            0 <= i <= n,
            forall|j: int| 0 <= j < i ==> (#[trigger] row_eval(rowsv[j], cs, case, w)) is Some,
            ints_of(ids@) == scan_matches(rowsv, cs, case, w, i as int),
            forall|j: int| 0 <= j < ids@.len() ==> (#[trigger] ids@[j]) < i,
        decreases n - i,
    {
        proof {
            assert(rowsv[i as int] == tbl.rows@[i as int]@);
        }
        match crate::query::row_matches(&tbl.rows[i], conds, case, wildcard) {
            Ok(m) => {
                if m {
                    ids.push(i);
                    proof {
                        assert(ints_of(ids@) =~= scan_matches(rowsv, cs, case, w, i as int + 1));
                    }
                } else {
                    proof {
                        assert(ints_of(ids@) == scan_matches(rowsv, cs, case, w, i as int + 1));
                    }
                }
            },
            Err(e) => {
                proof {
                    assert(scan_error(rowsv, cs, case, w));
                }
                return Err(e);
            },
        }
        i += 1;
    }
    proof {
        if scan_error(rowsv, cs, case, w) {
            let j = choose|j: int|
                0 <= j < rowsv.len() && (#[trigger] row_eval(rowsv[j], cs, case, w)) is None;
            assert(false);
        }
    }
    Ok(ids)
}

/// Projection and copy of the matched rows, in match order.
#[verifier::loop_isolation(false)]
fn emit(tbl: &Table, ids: &Vec<usize>, select: Option<&Vec<String>>) -> (r: Result<Vec<Row>, Error>)
    requires
        forall|j: int| 0 <= j < ids@.len() ==> (#[trigger] ids@[j]) < tbl.rows@.len(),
    ensures
        result_models(r, apply_select(tbl@, ints_of(ids@), sel_of(select))),
{
    let n = ids.len();
    match select {
        None => {
            let mut out: Vec<Row> = Vec::new();
            let mut k: usize = 0;
            while k < n
                invariant
                    n == ids.len(),
                    0 <= k <= n,
                    out@.len() == k,
                    forall|j: int|
                        0 <= j < k ==> rows_of(out@)[j] == tbl@.rows[(#[trigger] ids@[j]) as int],
                decreases n - k,
            {
                let id = ids[k];
                let copy = tbl.rows[id].duplicate();
                proof {
                    assert(copy@ == tbl.rows@[id as int]@);
                    assert(tbl@.rows[id as int] == tbl.rows@[id as int]@);
                }
                out.push(copy);
                proof {
                    assert(rows_of(out@)[k as int] == out@[k as int]@);
                }
                k += 1;
            }
            proof {
                assert(rows_of(out@) =~~= ints_of(ids@).map_values(|i: int| tbl@.rows[i]));
            }
            Ok(out)
        },
        Some(sel) => {
            let m = sel.len();
            let mut s: usize = 0;
            while s < m
                invariant
                    m == sel.len(),
                    0 <= s <= m,
                    forall|j: int| 0 <= j < s ==> tbl@.columns.contains(#[trigger] strings_of(sel@)[j]),
                decreases m - s,
            {
                proof {
                    assert(strings_of(sel@)[s as int] == sel@[s as int]@);
                }
                if !contains_string(&tbl.columns, &sel[s]) {
                    proof {
                        assert(!sel_ok(tbl@, strings_of(sel@)));
                    }
                    return Err(Error::SelectFieldMissing);
                }
                s += 1;
            }
            proof {
                assert(sel_ok(tbl@, strings_of(sel@)));
            }
            let mut out: Vec<Row> = Vec::new();
            let mut k: usize = 0;
            while k < n
                invariant
                    n == ids.len(),
                    0 <= k <= n,
                    out@.len() == k,
                    forall|j: int|
                        0 <= j < k ==> rows_of(out@)[j] == project_row(
                            tbl@.rows[(#[trigger] ids@[j]) as int],
                            strings_of(sel@),
                        ),
                decreases n - k,
            {
                let id = ids[k];
                let copy = tbl.rows[id].project(sel);
                proof {
                    assert(copy@ == project_row(tbl.rows@[id as int]@, strings_of(sel@)));
                    assert(tbl@.rows[id as int] == tbl.rows@[id as int]@);
                }
                out.push(copy);
                proof {
                    assert(rows_of(out@)[k as int] == out@[k as int]@);
                }
                k += 1;
            }
            proof {
                assert(rows_of(out@) =~~= ints_of(ids@).map_values(
                    |i: int| project_row(tbl@.rows[i], strings_of(sel@)),
                ));
            }
            Ok(out)
        },
    }
}

/// A lightweight, freely shareable, read-only handle into the registry.
/// Queries through a handle taken before the registry froze fail with
/// `TableNotLoaded`.
#[derive(Debug)]
pub struct TableSearch {
    shared: Option<Arc<SearchData>>,
}

impl View for TableSearch {
    type V = Option<SearchV>;

    closed spec fn view(&self) -> Option<SearchV> {
        match self.shared {
            Some(a) => Some(a@),
            None => None,
        }
    }
}

impl Clone for TableSearch {
    /// Another handle to the same snapshot.
    fn clone(&self) -> (r: Self)
        ensures
            r@ == self@,
    {
        proof {
            use_type_invariant(&*self);
        }
        match &self.shared {
            None => TableSearch { shared: None },
            Some(a) => TableSearch { shared: Some(a.clone()) },
        }
    }
}

impl TableSearch {
    /// The snapshot is sound: every index is well built for its table.
    #[verifier::type_invariant]
    spec fn inv(self) -> bool {
        match self.shared {
            Some(a) => search_wf(a@),
            None => true,
        }
    }

    /// Answers one lookup: failures as `find_spec` states them, and the
    /// matched rows in original table order, projected when a selection
    /// is supplied.
    pub fn find_table_rows(
        &self,
        table: &String,
        case: Case,
        condition: &Vec<Condition>,
        select: Option<&Vec<String>>,
        wildcard: Option<&Scalar>,
        index: Option<IndexHandle>,
    ) -> (r: Result<Vec<Row>, Error>)
        ensures
            result_models(
                r,
                find_spec(
                    self@,
                    table@,
                    case,
                    conds_of(condition@),
                    sel_of(select),
                    wild_of(wildcard),
                    handle_of(index),
                ),
            ),
    {
        proof {
            use_type_invariant(&*self);
        }
        let data: &SearchData = match &self.shared {
            None => {
                return Err(Error::TableNotLoaded);
            },
            Some(a) => &**a,
        };
        let ghost d = data@;
        let ti = match find_table_exec(&data.tables, table) {
            None => {
                return Err(Error::UnknownTable);
            },
            Some(t) => t,
        };
        let tbl = &data.tables[ti];
        proof {
            assert(tbl@ == d.tables[ti as int]);
        }
        match index {
            Some(h) => {
                let ghost conds = conds_of(condition@);
                if h.0 >= data.indexes.len() {
                    return Err(Error::IndexTableMismatch);
                }
                let idx = &data.indexes[h.0];
                proof {
                    assert(idx@ == d.indexes[h.0 as int]);
                }
                let usable = if idx.table == *table {
                    if idx.case == case {
                        fields_cover(&idx.fields, condition)
                    } else {
                        false
                    }
                } else {
                    false
                };
                if !usable {
                    return Err(Error::IndexTableMismatch);
                }
                proof {
                    assert(index_usable(d, h.0 as int, table@, case, conds));
                    assert(find_table(d.tables, idx@.table) == Some(ti as int));
                    assert(index_wf(idx@, tbl@.rows));
                }
                let key = build_probe_key(&idx.fields, condition, case);
                let ghost kv = scalars_of(key@);
                let ids: Vec<usize> = match find_bucket(&idx.buckets, &key) {
                    Some(b) => {
                        proof {
                            assert(buckets_of(idx.buckets@)[b as int] == idx@.buckets[b as int]);
                            assert(idx@.buckets[b as int].1 == key_rows(
                                tbl@.rows,
                                idx@.fields,
                                idx@.case,
                                kv,
                                tbl@.rows.len() as int,
                            ));
                            lemma_key_rows_props(
                                tbl@.rows,
                                idx@.fields,
                                idx@.case,
                                kv,
                                tbl@.rows.len() as int,
                            );
                        }
                        copy_ids(&idx.buckets[b].rows)
                    },
                    None => {
                        proof {
                            lemma_key_rows_props(
                                tbl@.rows,
                                idx@.fields,
                                idx@.case,
                                kv,
                                tbl@.rows.len() as int,
                            );
                            let kr = key_rows(
                                tbl@.rows,
                                idx@.fields,
                                idx@.case,
                                kv,
                                tbl@.rows.len() as int,
                            );
                            if kr.len() > 0 {
                                let witness = kr[0];
                                assert(index_key(tbl@.rows[witness], idx@.fields, idx@.case)
                                    == Some(kv));
                                assert(false);
                            }
                            assert(ints_of(Seq::<usize>::empty()) =~= kr);
                        }
                        Vec::new()
                    },
                };
                proof {
                    assert(ints_of(ids@) == indexed_rows(tbl@.rows, idx@.fields, case, kv));
                    assert(kv == probe_key(conds, idx@.fields, case));
                    assert forall|j: int| 0 <= j < ids@.len() implies (#[trigger] ids@[j])
                        < tbl.rows@.len() by {
                        assert(ints_of(ids@)[j] == ids@[j] as int);
                    }
                }
                emit(tbl, &ids, select)
            },
            None => {
                match scan_ids(tbl, condition, case, wildcard) {
                    Err(e) => Err(e),
                    Ok(ids) => emit(tbl, &ids, select),
                }
            },
        }
    }
}

impl TableRegistry {
    /// Freezes the registry: realizes every pending index request by one
    /// scan of its table, and makes the snapshot shareable.  A repeated
    /// call is a no-op.
    pub fn finish_load(&mut self)
        ensures
            final (self)@.state == Lifecycle::Ready,
            final (self)@.tables == old(self)@.tables,
            final (self)@.requests == old(self)@.requests,
            old(self)@.state == Lifecycle::Ready ==> final (self)@ == old(self)@,
    {
        proof {
            use_type_invariant(&*self);
        }
        let ghost oldr = self@;
        let is_ready = match self.state {
            Lifecycle::Ready => true,
            Lifecycle::Loading => false,
        };
        if is_ready {
            return;
        }
        let mut me = TableRegistry {
            state: Lifecycle::Loading,
            tables: Vec::new(),
            requests: Vec::new(),
            shared: None,
        };
        core::mem::swap(self, &mut me);
        let TableRegistry { state: _, tables, requests, shared: _ } = me;
        let ghost tv = tables_of(tables@);
        let ghost rv = reqs_of(requests@);
        let mut indexes: Vec<Index> = Vec::new();
        let n = requests.len();
        let mut k: usize = 0;
        #[verifier::loop_isolation(false)]
        while k < n
            invariant
                n == requests.len(),
                0 <= k <= n,
                indexes@.len() == k,
                forall|k2: int|
                    0 <= k2 < k ==> {
                        &&& indexes_of(indexes@)[k2].table == (#[trigger] rv[k2]).table
                        &&& indexes_of(indexes@)[k2].fields == rv[k2].fields
                        &&& indexes_of(indexes@)[k2].case == rv[k2].case
                        &&& match find_table(tv, rv[k2].table) {
                            Some(t) => index_wf(indexes_of(indexes@)[k2], tv[t].rows),
                            None => false,
                        }
                    },
            decreases n - k,
        {
            let req = &requests[k];
            proof {
                assert(rv[k as int] == requests@[k as int]@);
            }
            match find_table_exec(&tables, &req.table) {
                Some(t) => {
                    let idx = build_index(&tables[t], req);
                    proof {
                        assert(tables@[t as int]@ == tv[t as int]);
                    }
                    indexes.push(idx);
                    proof {
                        assert(indexes_of(indexes@)[k as int] == indexes@[k as int]@);
                    }
                },
                None => {
                    proof {
                        assert(find_table(oldr.tables, rv[k as int].table) is Some);
                        assert(false);
                    }
                },
            }
            k += 1;
        }
        proof {
            let d = SearchV { tables: tv, indexes: indexes_of(indexes@) };
            assert(d.indexes.len() == rv.len());
            assert forall|k2: int| 0 <= k2 < d.indexes.len() implies match find_table(
                d.tables,
                (#[trigger] d.indexes[k2]).table,
            ) {
                Some(t) => index_wf(d.indexes[k2], d.tables[t].rows),
                None => false,
            } by {
                assert(indexes_of(indexes@)[k2].table == (rv[k2]).table);
            }
            assert(search_wf(d));
            assert forall|k2: int|
                0 <= k2 < rv.len() implies (#[trigger] d.indexes[k2]).table == rv[k2].table
                && d.indexes[k2].fields == rv[k2].fields && d.indexes[k2].case
                == rv[k2].case by {
                assert(indexes_of(indexes@)[k2].table == (rv[k2]).table);
            }
            assert(indexes_model(d, rv));
        }
        *self = TableRegistry {
            state: Lifecycle::Ready,
            tables: Vec::new(),
            requests,
            shared: Some(Arc::new(SearchData { tables, indexes })),
        };
        proof {
            assert(self@ =~~= (RegV { state: Lifecycle::Ready, tables: tv, requests: rv }));
        }
    }

    /// A read-only handle.  Taken before the registry froze, its queries
    /// fail with `TableNotLoaded`; taken after, it answers from the
    /// shared snapshot.
    pub fn as_readonly(&self) -> (r: TableSearch)
        ensures
            self@.state == Lifecycle::Loading ==> r@ is None,
            self@.state == Lifecycle::Ready ==> match r@ {
                Some(d) => d.tables == self@.tables && indexes_model(d, self@.requests)
                    && search_wf(d),
                None => false,
            },
    {
        proof {
            use_type_invariant(&*self);
        }
        match &self.shared {
            None => TableSearch { shared: None },
            Some(a) => TableSearch { shared: Some(a.clone()) },
        }
    }

    /// The names of the registered tables, in registration order.
    #[verifier::loop_isolation(false)]
    pub fn table_ids(&self) -> (r: Vec<String>)
        ensures
            r@.len() == self@.tables.len(),
            forall|i: int| 0 <= i < r@.len() ==> (#[trigger] r@[i])@ == self@.tables[i].name,
    {
        proof {
            use_type_invariant(&*self);
        }
        let src: &Vec<Table> = match &self.shared {
            Some(a) => &(**a).tables,
            None => &self.tables,
        };
        let ghost stv = self@.tables;
        let n = src.len();
        let mut out: Vec<String> = Vec::new();
        let mut i: usize = 0;
        while i < n
            invariant
                n == src.len(),
                stv == tables_of(src@),
                0 <= i <= n,
                out@.len() == i,
                forall|j: int| 0 <= j < i ==> (#[trigger] out@[j])@ == stv[j].name,
            decreases n - i,
        {
            out.push(src[i].name.clone());
            proof {
                assert(stv[i as int] == src@[i as int]@);
            }
            i += 1;
        }
        out
    }
}

} // verus!
