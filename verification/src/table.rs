//! Tables and rows: ordered columns, insertion-ordered row cells, lookup
//! and column projection.
use vstd::prelude::*;

use crate::scalar::{Scalar, ScalarV};
use crate::seek::{first_where, lemma_first_where_found, lemma_first_where_none};

verus! {

/// The model of a row: its cells in insertion order.
pub type RowV = Seq<(Seq<char>, ScalarV)>;

/// One table row: an insertion-ordered mapping from column name to scalar.
/// A column the row has no cell for is absent from the row.
#[derive(Debug, PartialEq)]
pub struct Row {
    pub cells: Vec<(String, Scalar)>,
}

/// The model of a sequence of cells.
pub open spec fn row_view_of(cells: Seq<(String, Scalar)>) -> RowV {
    cells.map_values(|c: (String, Scalar)| (c.0@, c.1@))
}

impl View for Row {
    type V = RowV;

    open spec fn view(&self) -> RowV {
        row_view_of(self.cells@)
    }
}

/// The sequence of character sequences a list of names stands for.
pub open spec fn strings_of(s: Seq<String>) -> Seq<Seq<char>> {
    s.map_values(|x: String| x@)
}

/// The models of a sequence of rows.
pub open spec fn rows_of(s: Seq<Row>) -> Seq<RowV> {
    s.map_values(|r: Row| r@)
}

/// The row's value at a column: its first cell of that name, if any.
pub open spec fn row_lookup(row: RowV, field: Seq<char>) -> Option<ScalarV> {
    match first_where(row, |c: (Seq<char>, ScalarV)| c.0 == field) {
        Some(i) => Some(row[i].1),
        None => None,
    }
}

impl Row {
    /// Builds a row from its cells.
    pub fn new(cells: Vec<(String, Scalar)>) -> (r: Row)
        ensures
            r.cells@ == cells@,
    {
        Row { cells }
    }

    /// The row's value at a column, or `None` when the row lacks it.
    #[verifier::loop_isolation(false)]
    pub fn get(&self, field: &String) -> (r: Option<&Scalar>)
        ensures
            match r {
                Some(v) => row_lookup(self@, field@) == Some(v@),
                None => row_lookup(self@, field@) is None,
            },
    {
        let ghost p = |c: (Seq<char>, ScalarV)| c.0 == field@;
        let n = self.cells.len();
        let mut i: usize = 0;
        while i < n
            invariant
                n == self.cells.len(),
                0 <= i <= n,
                forall|j: int| 0 <= j < i ==> !p(self@[j]),
            decreases n - i,
        {
            proof {
                assert(self@[i as int] == (self.cells@[i as int].0@, self.cells@[i as int].1@));
            }
            if self.cells[i].0 == *field {
                proof {
                    lemma_first_where_found(self@, p, i as int);
                }
                return Some(&self.cells[i].1);
            }
            i += 1;
        }
        proof {
            lemma_first_where_none(self@, p);
        }
        None
    }

    /// An exact copy of the row.
    #[verifier::loop_isolation(false)]
    pub fn duplicate(&self) -> (r: Row)
        ensures
            r@ == self@,
    {
        let mut cells: Vec<(String, Scalar)> = Vec::new();
        let n = self.cells.len();
        let mut i: usize = 0;
        while i < n
            invariant
                n == self.cells.len(),
                0 <= i <= n,
                row_view_of(cells@) == self@.take(i as int),
            decreases n - i,
        {
            let cell = &self.cells[i];
            cells.push((cell.0.clone(), cell.1.duplicate()));
            proof {
                assert(row_view_of(cells@) =~~= self@.take(i as int + 1));
            }
            i += 1;
        }
        proof {
            assert(self@.take(n as int) =~= self@);
        }
        Row { cells }
    }
}

/// The model of a table.
#[verifier::ext_equal]
pub struct TableV {
    pub name: Seq<char>,
    pub columns: Seq<Seq<char>>,
    pub rows: Seq<RowV>,
}

/// An enrichment table: a name, an ordered schema of column names, and an
/// ordered sequence of rows.  Fixed once registered.
#[derive(Debug)]
pub struct Table {
    pub name: String,
    pub columns: Vec<String>,
    pub rows: Vec<Row>,
}

impl View for Table {
    type V = TableV;

    open spec fn view(&self) -> TableV {
        TableV { name: self.name@, columns: strings_of(self.columns@), rows: rows_of(self.rows@) }
    }
}

/// Projection of a row to the selected columns, in the requested order;
/// a selected column the row lacks contributes no cell.
pub open spec fn project_row(row: RowV, select: Seq<Seq<char>>) -> RowV
    decreases select.len(),
{
    if select.len() == 0 {
        Seq::empty()
    } else {
        let rest = project_row(row, select.drop_first());
        match row_lookup(row, select[0]) {
            Some(v) => seq![(select[0], v)] + rest,
            None => rest,
        }
    }
}

/// Extending the selection by one column appends that column's cell, if the
/// row has one.
pub proof fn lemma_project_row_push(row: RowV, select: Seq<Seq<char>>, field: Seq<char>)
    ensures
        project_row(row, select.push(field)) == match row_lookup(row, field) {
            Some(v) => project_row(row, select).push((field, v)),
            None => project_row(row, select),
        },
    decreases select.len(),
{
    let ext = select.push(field);
    if select.len() == 0 {
        let empty: Seq<Seq<char>> = Seq::empty();
        assert(ext.drop_first() =~= empty);
        assert(ext[0] == field);
        assert(project_row(row, empty) =~= Seq::<(Seq<char>, ScalarV)>::empty());
        assert(row_lookup(row, ext[0]) == row_lookup(row, field));
        match row_lookup(row, field) {
            Some(v) => {
                assert(project_row(row, ext) =~~= project_row(row, select).push((field, v)));
            },
            None => {
                assert(project_row(row, ext) =~~= project_row(row, select));
            },
        }
    } else {
        assert(ext.drop_first() =~= select.drop_first().push(field));
        assert(ext[0] == select[0]);
        assert(row_lookup(row, ext[0]) == row_lookup(row, select[0]));
        lemma_project_row_push(row, select.drop_first(), field);
        assert(project_row(row, ext.drop_first()) == project_row(
            row,
            select.drop_first().push(field),
        ));
        match row_lookup(row, field) {
            Some(v) => {
                assert(project_row(row, ext) =~~= project_row(row, select).push((field, v)));
            },
            None => {
                assert(project_row(row, ext) =~~= project_row(row, select));
            },
        }
    }
}

impl Row {
    /// The row projected to the selected columns, in the requested order.
    #[verifier::loop_isolation(false)]
    pub fn project(&self, select: &Vec<String>) -> (r: Row)
        ensures
            r@ == project_row(self@, strings_of(select@)),
    {
        let mut cells: Vec<(String, Scalar)> = Vec::new();
        let n = select.len();
        let mut i: usize = 0;
        while i < n
            invariant
                n == select.len(),
                0 <= i <= n,
                row_view_of(cells@) == project_row(self@, strings_of(select@).take(i as int)),
            decreases n - i,
        {
            let ghost taken = strings_of(select@).take(i as int);
            proof {
                assert(strings_of(select@)[i as int] == select@[i as int]@);
                assert(strings_of(select@).take(i as int + 1) =~= taken.push(select@[i as int]@));
                lemma_project_row_push(self@, taken, select@[i as int]@);
            }
            match self.get(&select[i]) {
                Some(v) => {
                    cells.push((select[i].clone(), v.duplicate()));
                    proof {
                        assert(row_view_of(cells@) =~~= project_row(
                            self@,
                            strings_of(select@).take(i as int + 1),
                        ));
                    }
                },
                None => {
                    proof {
                        assert(row_view_of(cells@) == project_row(
                            self@,
                            strings_of(select@).take(i as int + 1),
                        ));
                    }
                },
            }
            i += 1;
        }
        proof {
            assert(strings_of(select@).take(n as int) =~= strings_of(select@));
        }
        Row { cells }
    }
}

} // verus!
