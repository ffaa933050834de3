//! Prebuilt equality indexes: composite keys over a field set, with the
//! matching row positions kept in original table order.
use vstd::prelude::*;

use crate::scalar::{normalize_spec, Case, Scalar, ScalarV};
use crate::seek::first_where;
use crate::table::{row_lookup, strings_of, Row, RowV, Table, TableV};

verus! {

/// An opaque identifier, one-to-one with a realized index.
#[derive(Clone, Copy, Debug, PartialEq, Eq, Structural)]
pub struct IndexHandle(pub usize);

/// The model of an index request.
#[verifier::ext_equal]
pub struct ReqV {
    pub table: Seq<char>,
    pub fields: Seq<Seq<char>>,
    pub case: Case,
}

/// A planning request for an index over one (table, field set, case rule)
/// combination.
#[derive(Debug)]
pub struct IndexRequest {
    pub table: String,
    pub fields: Vec<String>,
    pub case: Case,
}

impl View for IndexRequest {
    type V = ReqV;

    open spec fn view(&self) -> ReqV {
        ReqV { table: self.table@, fields: strings_of(self.fields@), case: self.case }
    }
}

/// The models of a sequence of requests.
pub open spec fn reqs_of(s: Seq<IndexRequest>) -> Seq<ReqV> {
    s.map_values(|q: IndexRequest| q@)
}

/// The models of a sequence of tables.
pub open spec fn tables_of(s: Seq<Table>) -> Seq<TableV> {
    s.map_values(|t: Table| t@)
}

/// The models of a sequence of scalars.
pub open spec fn scalars_of(s: Seq<Scalar>) -> Seq<ScalarV> {
    s.map_values(|x: Scalar| x@)
}

/// A sequence of positions as mathematical integers.
pub open spec fn ints_of(s: Seq<usize>) -> Seq<int> {
    s.map_values(|u: usize| u as int)
}

/// Whether two field lists name the same set of fields, in any order.
pub open spec fn same_field_set(a: Seq<Seq<char>>, b: Seq<Seq<char>>) -> bool {
    (forall|i: int| 0 <= i < a.len() ==> b.contains(#[trigger] a[i])) && (forall|i: int|
        0 <= i < b.len() ==> a.contains(#[trigger] b[i]))
}

/// Whether a stored request covers a request for (table, field set, case).
pub open spec fn req_matches(q: ReqV, table: Seq<char>, fields: Seq<Seq<char>>, case: Case) -> bool {
    q.table == table && same_field_set(q.fields, fields) && q.case == case
}

/// The predicate a request lookup searches with.
pub open spec fn req_pred(table: Seq<char>, fields: Seq<Seq<char>>, case: Case) -> spec_fn(
    ReqV,
) -> bool {
    |q: ReqV| req_matches(q, table, fields, case)
}

/// The first stored request covering (table, field set, case), if any.
pub open spec fn find_req(
    reqs: Seq<ReqV>,
    table: Seq<char>,
    fields: Seq<Seq<char>>,
    case: Case,
) -> Option<int> {
    first_where(reqs, req_pred(table, fields, case))
}

/// The predicate a table lookup searches with.
pub open spec fn table_pred(name: Seq<char>) -> spec_fn(TableV) -> bool {
    |t: TableV| t.name == name
}

/// The position of the first table of that name, if any.
pub open spec fn find_table(tables: Seq<TableV>, name: Seq<char>) -> Option<int> {
    first_where(tables, table_pred(name))
}

/// Whether a row has a cell for every indexed field.
pub open spec fn row_has_fields(row: RowV, fields: Seq<Seq<char>>) -> bool {
    forall|i: int| 0 <= i < fields.len() ==> row_lookup(row, #[trigger] fields[i]) is Some
}

/// The composite key of a row: its normalized values at the indexed
/// fields, in the index's canonical field order.
pub open spec fn key_of(row: RowV, fields: Seq<Seq<char>>, case: Case) -> Seq<ScalarV> {
    Seq::new(fields.len(), |i: int| normalize_spec(row_lookup(row, fields[i]).unwrap(), case))
}

/// The key a row is indexed under, or `None` when the row lacks one of the
/// indexed fields and is excluded from the index.
pub open spec fn index_key(row: RowV, fields: Seq<Seq<char>>, case: Case) -> Option<Seq<ScalarV>> {
    if row_has_fields(row, fields) {
        Some(key_of(row, fields, case))
    } else {
        None
    }
}

/// The positions, in ascending order, of the rows among the first `upto`
/// that are indexed under `key`.
pub open spec fn key_rows(
    rows: Seq<RowV>,
    fields: Seq<Seq<char>>,
    case: Case,
    key: Seq<ScalarV>,
    upto: int,
) -> Seq<int>
    decreases upto,
{
    if upto <= 0 {
        Seq::empty()
    } else {
        let pre = key_rows(rows, fields, case, key, upto - 1);
        if index_key(rows[upto - 1], fields, case) == Some(key) {
            pre.push(upto - 1)
        } else {
            pre
        }
    }
}

/// The bucket an index answers a probe for `key` with.
pub open spec fn indexed_rows(
    rows: Seq<RowV>,
    fields: Seq<Seq<char>>,
    case: Case,
    key: Seq<ScalarV>,
) -> Seq<int> {
    key_rows(rows, fields, case, key, rows.len() as int)
}

/// What a key's row list holds: exactly the positions indexed under the
/// key, each once, ascending.
pub proof fn lemma_key_rows_props(
    rows: Seq<RowV>,
    fields: Seq<Seq<char>>,
    case: Case,
    key: Seq<ScalarV>,
    upto: int,
)
    ensures
        forall|j: int|
            0 <= j < key_rows(rows, fields, case, key, upto).len() ==> 0 <= #[trigger] key_rows(
                rows,
                fields,
                case,
                key,
                upto,
            )[j] < upto && index_key(rows[key_rows(rows, fields, case, key, upto)[j]], fields, case)
                == Some(key),
        forall|i: int|
            0 <= i < upto && #[trigger] index_key(rows[i], fields, case) == Some(key) ==> key_rows(
                rows,
                fields,
                case,
                key,
                upto,
            ).contains(i),
        forall|j1: int, j2: int|
            0 <= j1 < j2 < key_rows(rows, fields, case, key, upto).len() ==> #[trigger] key_rows(
                rows,
                fields,
                case,
                key,
                upto,
            )[j1] < #[trigger] key_rows(rows, fields, case, key, upto)[j2],
    decreases upto,
{
    if upto > 0 {
        lemma_key_rows_props(rows, fields, case, key, upto - 1);
        let pre = key_rows(rows, fields, case, key, upto - 1);
        let cur = key_rows(rows, fields, case, key, upto);
        assert forall|i: int|
            0 <= i < upto && #[trigger] index_key(rows[i], fields, case) == Some(key)
            implies cur.contains(i) by {
            if i < upto - 1 {
                assert(pre.contains(i));
                let j = choose|j: int| 0 <= j < pre.len() && pre[j] == i;
                assert(cur[j] == i);
            } else {
                assert(cur[cur.len() - 1] == i);
            }
        }
    }
}

/// A key no row below `upto` is indexed under has an empty row list.
pub proof fn lemma_key_rows_empty(
    rows: Seq<RowV>,
    fields: Seq<Seq<char>>,
    case: Case,
    key: Seq<ScalarV>,
    upto: int,
)
    requires
        forall|i: int| 0 <= i < upto ==> #[trigger] index_key(rows[i], fields, case) != Some(key),
    ensures
        key_rows(rows, fields, case, key, upto) == Seq::<int>::empty(),
    decreases upto,
{
    if upto > 0 {
        lemma_key_rows_empty(rows, fields, case, key, upto - 1);
    }
}

/// One bucket of an index: a composite key and the positions of the rows
/// sharing it, in original table order.
#[derive(Debug)]
pub struct IndexBucket {
    pub key: Vec<Scalar>,
    pub rows: Vec<usize>,
}

impl View for IndexBucket {
    type V = (Seq<ScalarV>, Seq<int>);

    open spec fn view(&self) -> (Seq<ScalarV>, Seq<int>) {
        (scalars_of(self.key@), ints_of(self.rows@))
    }
}

/// The models of a sequence of buckets.
pub open spec fn buckets_of(s: Seq<IndexBucket>) -> Seq<(Seq<ScalarV>, Seq<int>)> {
    s.map_values(|b: IndexBucket| b@)
}

/// The model of a realized index.
#[verifier::ext_equal]
pub struct IndexV {
    pub table: Seq<char>,
    pub fields: Seq<Seq<char>>,
    pub case: Case,
    pub buckets: Seq<(Seq<ScalarV>, Seq<int>)>,
}

/// A realized index for one (table, field set, case rule) combination.
/// Built once by scanning the table, then only read.
#[derive(Debug)]
pub struct Index {
    pub table: String,
    pub fields: Vec<String>,
    pub case: Case,
    pub buckets: Vec<IndexBucket>,
}

impl View for Index {
    type V = IndexV;

    open spec fn view(&self) -> IndexV {
        IndexV {
            table: self.table@,
            fields: strings_of(self.fields@),
            case: self.case,
            buckets: buckets_of(self.buckets@),
        }
    }
}

/// The models of a sequence of indexes.
pub open spec fn indexes_of(s: Seq<Index>) -> Seq<IndexV> {
    s.map_values(|x: Index| x@)
}

/// What a well-built index holds of its table's rows: every bucket lists
/// exactly the rows indexed under its key, keys are not repeated, and
/// every indexed row has a bucket.
pub open spec fn index_wf(iv: IndexV, rows: Seq<RowV>) -> bool {
    &&& forall|j: int|
        0 <= j < iv.buckets.len() ==> (#[trigger] iv.buckets[j]).1 == key_rows(
            rows,
            iv.fields,
            iv.case,
            iv.buckets[j].0,
            rows.len() as int,
        )
    &&& forall|j1: int, j2: int|
        0 <= j1 < j2 < iv.buckets.len() ==> (#[trigger] iv.buckets[j1]).0 != (
        #[trigger] iv.buckets[j2]).0
    &&& forall|i: int|
        0 <= i < rows.len() && (#[trigger] index_key(rows[i], iv.fields, iv.case)) is Some
            ==> exists|j: int|
            0 <= j < iv.buckets.len() && (#[trigger] iv.buckets[j]).0 == index_key(
                rows[i],
                iv.fields,
                iv.case,
            ).unwrap()
}

/// Exact equality of two normalized key vectors.
#[verifier::loop_isolation(false)]
pub fn keys_equal(a: &Vec<Scalar>, b: &Vec<Scalar>) -> (r: bool)
    ensures
        r == (scalars_of(a@) == scalars_of(b@)),
{
    if a.len() != b.len() {
        assert(scalars_of(a@).len() != scalars_of(b@).len());
        return false;
    }
    let n = a.len();
    let mut i: usize = 0;
    while i < n
        invariant
            n == a.len() == b.len(),
            0 <= i <= n,
            forall|j: int| 0 <= j < i ==> scalars_of(a@)[j] == scalars_of(b@)[j],
        decreases n - i,
    {
        proof {
            assert(scalars_of(a@)[i as int] == a@[i as int]@);
            assert(scalars_of(b@)[i as int] == b@[i as int]@);
        }
        if !a[i].same(&b[i]) {
            assert(scalars_of(a@) != scalars_of(b@));
            return false;
        }
        i += 1;
    }
    proof {
        assert(scalars_of(a@) =~= scalars_of(b@));
    }
    true
}

/// The key a row is indexed under, computed as the index build does.
#[verifier::loop_isolation(false)]
pub fn compute_key(row: &Row, fields: &Vec<String>, case: Case) -> (r: Option<Vec<Scalar>>)
    ensures
        match r {
            Some(k) => index_key(row@, strings_of(fields@), case) == Some(scalars_of(k@)),
            None => index_key(row@, strings_of(fields@), case) is None,
        },
{
    let ghost sf = strings_of(fields@);
    let n = fields.len();
    let mut key: Vec<Scalar> = Vec::new();
    let mut i: usize = 0;
    while i < n
        invariant
            n == fields.len(),
            0 <= i <= n,
            key@.len() == i,
            forall|j: int| 0 <= j < i ==> row_lookup(row@, #[trigger] sf[j]) is Some,
            forall|j: int|
                0 <= j < i ==> scalars_of(key@)[j] == normalize_spec(
                    row_lookup(row@, #[trigger] sf[j]).unwrap(),
                    case,
                ),
        decreases n - i,
    {
        proof {
            assert(sf[i as int] == fields@[i as int]@);
        }
        match row.get(&fields[i]) {
            Some(v) => {
                key.push(v.normalize(case));
                proof {
                    assert(scalars_of(key@)[i as int] == key@[i as int]@);
                }
            },
            None => {
                assert(!row_has_fields(row@, sf));
                return None;
            },
        }
        i += 1;
    }
    proof {
        assert(row_has_fields(row@, sf));
        assert(scalars_of(key@) =~= key_of(row@, sf, case));
    }
    Some(key)
}

/// The position of the bucket holding `key`, if the index has one.
#[verifier::loop_isolation(false)]
pub(crate) fn find_bucket(buckets: &Vec<IndexBucket>, key: &Vec<Scalar>) -> (r: Option<usize>)
    ensures
        match r {
            Some(j) => 0 <= j < buckets@.len() && buckets_of(buckets@)[j as int].0 == scalars_of(
                key@,
            ),
            None => forall|j: int|
                0 <= j < buckets@.len() ==> (#[trigger] buckets_of(buckets@)[j]).0 != scalars_of(
                    key@,
                ),
        },
{
    let n = buckets.len();
    let mut j: usize = 0;
    while j < n
        invariant
            n == buckets.len(),
            0 <= j <= n,
            forall|j2: int|
                0 <= j2 < j ==> (#[trigger] buckets_of(buckets@)[j2]).0 != scalars_of(key@),
        decreases n - j,
    {
        proof {
            assert(buckets_of(buckets@)[j as int] == buckets@[j as int]@);
        }
        if keys_equal(&buckets[j].key, key) {
            return Some(j);
        }
        j += 1;
    }
    None
}

/// A copy of a list of field names.
#[verifier::loop_isolation(false)]
pub fn clone_strings(v: &Vec<String>) -> (r: Vec<String>)
    ensures
        r@ == v@,
{
    let mut out: Vec<String> = Vec::new();
    let n = v.len();
    let mut i: usize = 0;
    while i < n
        invariant
            n == v.len(),
            0 <= i <= n,
            out@ == v@.take(i as int),
        decreases n - i,
    {
        out.push(v[i].clone());
        proof {
            assert(out@ =~= v@.take(i as int + 1));
        }
        i += 1;
    }
    proof {
        assert(v@.take(n as int) =~= v@);
    }
    out
}

/// Builds the index one request asks for by scanning the table once: each
/// row with a full key is appended to its key's bucket, so buckets keep
/// original table order.
#[verifier::loop_isolation(false)]
pub fn build_index(table: &Table, request: &IndexRequest) -> (idx: Index)
    ensures
        idx@.table == request@.table,
        idx@.fields == request@.fields,
        idx@.case == request@.case,
        index_wf(idx@, table@.rows),
{
    let ghost sf = strings_of(request.fields@);
    let ghost rowsv = table@.rows;
    let mut buckets: Vec<IndexBucket> = Vec::new();
    let n = table.rows.len();
    let mut i: usize = 0;
    while i < n
        invariant
            n == table.rows.len(),
            0 <= i <= n,
            forall|j: int|
                0 <= j < buckets_of(buckets@).len() ==> (#[trigger] buckets_of(buckets@)[j]).1
                    == key_rows(rowsv, sf, request@.case, buckets_of(buckets@)[j].0, i as int),
            forall|j1: int, j2: int|
                0 <= j1 < j2 < buckets_of(buckets@).len() ==> (#[trigger] buckets_of(
                    buckets@,
                )[j1]).0 != (#[trigger] buckets_of(buckets@)[j2]).0,
            forall|i2: int|
                0 <= i2 < i && (#[trigger] index_key(rowsv[i2], sf, request@.case)) is Some
                    ==> exists|j: int|
                    0 <= j < buckets_of(buckets@).len() && (#[trigger] buckets_of(buckets@)[j]).0
                        == index_key(rowsv[i2], sf, request@.case).unwrap(),
        decreases n - i,
    {
        let ghost oldb = buckets_of(buckets@);
        let ghost case = request@.case;
        proof {
            assert(rowsv[i as int] == table.rows@[i as int]@);
        }
        match compute_key(&table.rows[i], &request.fields, request.case) {
            Some(key) => {
                let ghost kv = scalars_of(key@);
                match find_bucket(&buckets, &key) {
                    Some(j) => {
                        let ghost before = buckets@;
                        let mut bucket = buckets.remove(j);
                        bucket.rows.push(i);
                        buckets.insert(j, bucket);
                        proof {
                            assert(buckets@ =~= before.update(j as int, bucket));
                            let newb = buckets_of(buckets@);
                            assert(ints_of(bucket.rows@) =~= oldb[j as int].1.push(i as int));
                            assert(newb[j as int] == (kv, oldb[j as int].1.push(i as int)));
                            assert(forall|j2: int|
                                0 <= j2 < newb.len() && j2 != j ==> #[trigger] newb[j2]
                                    == oldb[j2]);
                            assert forall|j2: int| 0 <= j2 < newb.len() implies (
                            #[trigger] newb[j2]).1 == key_rows(
                                rowsv,
                                sf,
                                case,
                                newb[j2].0,
                                i as int + 1,
                            ) by {
                                if j2 == j {
                                    assert(index_key(rowsv[i as int], sf, case) == Some(kv));
                                } else {
                                    assert(newb[j2].0 != kv);
                                    assert(index_key(rowsv[i as int], sf, case) != Some(
                                        newb[j2].0,
                                    ));
                                }
                            }
                            assert forall|i2: int|
                                0 <= i2 < i as int + 1 && (#[trigger] index_key(
                                    rowsv[i2],
                                    sf,
                                    case,
                                )) is Some implies exists|j2: int|
                                0 <= j2 < newb.len() && (#[trigger] newb[j2]).0 == index_key(
                                    rowsv[i2],
                                    sf,
                                    case,
                                ).unwrap() by {
                                if i2 < i as int {
                                    let j2 = choose|j2: int|
                                        0 <= j2 < oldb.len() && (#[trigger] oldb[j2]).0
                                            == index_key(rowsv[i2], sf, case).unwrap();
                                    assert(newb[j2].0 == index_key(rowsv[i2], sf, case).unwrap());
                                } else {
                                    assert(newb[j as int].0 == index_key(
                                        rowsv[i2],
                                        sf,
                                        case,
                                    ).unwrap());
                                }
                            }
                        }
                    },
                    None => {
                        let mut rows_list: Vec<usize> = Vec::new();
                        rows_list.push(i);
                        buckets.push(IndexBucket { key, rows: rows_list });
                        proof {
                            let newb = buckets_of(buckets@);
                            assert(newb =~~= oldb.push((kv, Seq::<int>::empty().push(i as int))));
                            assert forall|i2: int|
                                0 <= i2 < i as int implies #[trigger] index_key(rowsv[i2], sf, case)
                                != Some(kv) by {
                                if index_key(rowsv[i2], sf, case) == Some(kv) {
                                    assert((exists|j2: int|
                                        0 <= j2 < oldb.len() && (#[trigger] oldb[j2]).0
                                            == index_key(rowsv[i2], sf, case).unwrap()));
                                    let j2 = choose|j2: int|
                                        0 <= j2 < oldb.len() && (#[trigger] oldb[j2]).0
                                            == index_key(rowsv[i2], sf, case).unwrap();
                                    assert(oldb[j2].0 == kv);
                                }
                            }
                            lemma_key_rows_empty(rowsv, sf, case, kv, i as int);
                            assert forall|j2: int| 0 <= j2 < newb.len() implies (
                            #[trigger] newb[j2]).1 == key_rows(
                                rowsv,
                                sf,
                                case,
                                newb[j2].0,
                                i as int + 1,
                            ) by {
                                if j2 < oldb.len() {
                                    assert(newb[j2] == oldb[j2]);
                                    assert(newb[j2].0 != kv);
                                    assert(index_key(rowsv[i as int], sf, case) != Some(
                                        newb[j2].0,
                                    ));
                                } else {
                                    assert(newb[j2].0 == kv);
                                    assert(index_key(rowsv[i as int], sf, case) == Some(kv));
                                    assert(key_rows(rowsv, sf, case, kv, i as int + 1) =~= Seq::<
                                        int,
                                    >::empty().push(i as int));
                                }
                            }
                            assert forall|i2: int|
                                0 <= i2 < i as int + 1 && (#[trigger] index_key(
                                    rowsv[i2],
                                    sf,
                                    case,
                                )) is Some implies exists|j2: int|
                                0 <= j2 < newb.len() && (#[trigger] newb[j2]).0 == index_key(
                                    rowsv[i2],
                                    sf,
                                    case,
                                ).unwrap() by {
                                if i2 < i as int {
                                    let j2 = choose|j2: int|
                                        0 <= j2 < oldb.len() && (#[trigger] oldb[j2]).0
                                            == index_key(rowsv[i2], sf, case).unwrap();
                                    assert(newb[j2].0 == index_key(rowsv[i2], sf, case).unwrap());
                                } else {
                                    assert(newb[oldb.len() as int].0 == index_key(
                                        rowsv[i2],
                                        sf,
                                        case,
                                    ).unwrap());
                                }
                            }
                        }
                    },
                }
            },
            None => {
                proof {
                    assert(index_key(rowsv[i as int], sf, case) is None);
                    assert forall|j2: int| 0 <= j2 < oldb.len() implies (
                    #[trigger] oldb[j2]).1 == key_rows(
                        rowsv,
                        sf,
                        case,
                        oldb[j2].0,
                        i as int + 1,
                    ) by {
                        assert(index_key(rowsv[i as int], sf, case) != Some(oldb[j2].0));
                    }
                }
            },
        }
        i += 1;
    }
    let idx = Index {
        table: request.table.clone(),
        fields: clone_strings(&request.fields),
        case: request.case,
        buckets,
    };
    proof {
        assert(idx@.fields == sf);
        assert(idx@.fields == request@.fields);
        assert(rowsv.len() == n as int);
        assert(forall|j: int|
            0 <= j < idx@.buckets.len() ==> (#[trigger] idx@.buckets[j]) == buckets_of(
                idx.buckets@,
            )[j]);
        assert(index_wf(idx@, rowsv));
    }
    idx
}

} // verus!
