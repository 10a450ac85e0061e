//! Row predicates and filtering.
use vstd::prelude::*;
use crate::error::QueryError;
use crate::table::{Field, Table, column_index, copy_fields, copy_row, index_of, row_view, rows_view, schema_view};
use crate::value::{Cell, DataType, Value, compare, value_cmp};

verus! {

/// A comparison operator.
#[derive(Clone, Copy, Debug, PartialEq, Eq, Structural)]
pub enum CmpOp {
    Eq,
    Ne,
    Lt,
    Le,
    Gt,
    Ge,
}

/// A boolean expression over the cells of a row, in three-valued logic.
#[derive(Debug)]
pub enum Predicate {
    /// `column op literal`; unknown (null) when the cell is null or the types do not compare.
    Compare(Vec<char>, CmpOp, Value),
    /// The named column is not null.
    NotNull(Vec<char>),
    And(Box<Predicate>, Box<Predicate>),
    Or(Box<Predicate>, Box<Predicate>),
    Not(Box<Predicate>),
}

/// Whether `op` holds of a comparison result `c` (-1, 0 or 1).
pub open spec fn op_holds(op: CmpOp, c: int) -> bool {
    match op {
        CmpOp::Eq => c == 0,
        CmpOp::Ne => c != 0,
        CmpOp::Lt => c < 0,
        CmpOp::Le => c <= 0,
        CmpOp::Gt => c > 0,
        CmpOp::Ge => c >= 0,
    }
}

/// Every column that `p` names is in the schema.
pub open spec fn names_known(s: Seq<(Seq<char>, DataType)>, p: Predicate) -> bool
    decreases p,
{
    match p {
        Predicate::Compare(n, _, _) => index_of(s, n@).is_some(),
        Predicate::NotNull(n) => index_of(s, n@).is_some(),
        Predicate::And(a, b) => names_known(s, *a) && names_known(s, *b),
        Predicate::Or(a, b) => names_known(s, *a) && names_known(s, *b),
        Predicate::Not(a) => names_known(s, *a),
    }
}

/// Three-valued value of `p` on a row: `None` stands for unknown.
pub open spec fn eval(s: Seq<(Seq<char>, DataType)>, p: Predicate, row: Seq<Cell>) -> Option<bool>
    decreases p,
{
    match p {
        Predicate::Compare(n, op, lit) => match value_cmp(row[index_of(s, n@).unwrap()], lit@) {
            Some(c) => Some(op_holds(op, c)),
            None => None,
        },
        Predicate::NotNull(n) => Some(!(row[index_of(s, n@).unwrap()] is Null)),
        Predicate::And(a, b) => {
            let (x, y) = (eval(s, *a, row), eval(s, *b, row));
            if x == Some(false) || y == Some(false) {
                Some(false)
            } else if x == Some(true) && y == Some(true) {
                Some(true)
            } else {
                None
            }
        },
        Predicate::Or(a, b) => {
            let (x, y) = (eval(s, *a, row), eval(s, *b, row));
            if x == Some(true) || y == Some(true) {
                Some(true)
            } else if x == Some(false) && y == Some(false) {
                Some(false)
            } else {
                None
            }
        },
        Predicate::Not(a) => match eval(s, *a, row) {
            Some(x) => Some(!x),
            None => None,
        },
    }
}

/// Whether a row passes `p`: only a known true passes.
pub open spec fn passes(s: Seq<(Seq<char>, DataType)>, p: Predicate) -> spec_fn(Seq<Cell>) -> bool {
    |row: Seq<Cell>| eval(s, p, row) == Some(true)
}

/// Evaluates `p` on one row of a table with schema `fields`.
pub fn eval_row(fields: &Vec<Field>, p: &Predicate, row: &Vec<Value>) -> (r: Option<bool>)
    requires
        names_known(schema_view(fields@), *p),
        crate::table::names_unique(schema_view(fields@)),
        row@.len() == fields@.len(),
    ensures
        r == eval(schema_view(fields@), *p, row_view(*row)),
    decreases p,
{
    match p {
        Predicate::Compare(n, op, lit) => {
            let i = column_index(fields, n).unwrap();
            match compare(&row[i], lit) {
                Some(c) => Some(
                    match op {
                        CmpOp::Eq => c == 0,
                        CmpOp::Ne => c != 0,
                        CmpOp::Lt => c < 0,
                        CmpOp::Le => c <= 0,
                        CmpOp::Gt => c > 0,
                        CmpOp::Ge => c >= 0,
                    },
                ),
                None => None,
            }
        },
        Predicate::NotNull(n) => {
            let i = column_index(fields, n).unwrap();
            Some(!matches!(row[i], Value::Null))
        },
        Predicate::And(a, b) => {
            let x = eval_row(fields, a, row);
            let y = eval_row(fields, b, row);
            if x == Some(false) || y == Some(false) {
                Some(false)
            } else if x == Some(true) && y == Some(true) {
                Some(true)
            } else {
                None
            }
        },
        Predicate::Or(a, b) => {
            let x = eval_row(fields, a, row);
            let y = eval_row(fields, b, row);
            if x == Some(true) || y == Some(true) {
                Some(true)
            } else if x == Some(false) && y == Some(false) {
                Some(false)
            } else {
                None
            }
        },
        Predicate::Not(a) => match eval_row(fields, a, row) {
            Some(x) => Some(!x),
            None => None,
        },
    }
}

/// Decides `names_known`.
pub fn check_names(fields: &Vec<Field>, p: &Predicate) -> (r: bool)
    requires
        crate::table::names_unique(schema_view(fields@)),
    ensures
        r == names_known(schema_view(fields@), *p),
    decreases p,
{
    match p {
        Predicate::Compare(n, _, _) => column_index(fields, n).is_some(),
        Predicate::NotNull(n) => column_index(fields, n).is_some(),
        Predicate::And(a, b) => check_names(fields, a) && check_names(fields, b),
        Predicate::Or(a, b) => check_names(fields, a) && check_names(fields, b),
        Predicate::Not(a) => check_names(fields, a),
    }
}

/// The rows of `t` on which `p` is true, in their order; `SchemaError` when `p`
/// names a column that `t` lacks.
pub fn filter(t: &Table, p: &Predicate) -> (r: Result<Table, QueryError>)
    requires
        t.wf(),
    ensures
        !names_known(t.schema(), *p) ==> r == Err::<Table, QueryError>(QueryError::SchemaError),
        names_known(t.schema(), *p) ==> (r matches Ok(o) && o.wf() && o.schema() == t.schema()
            && o.cells() == t.cells().filter(passes(t.schema(), *p))),
{
    if !check_names(&t.fields, p) {
        return Err(QueryError::SchemaError);
    }
    let ghost f = passes(t.schema(), *p);
    let mut rows: Vec<Vec<Value>> = Vec::new();
    let mut i: usize = 0;
    while i < t.rows.len()
        invariant
            t.wf(),
            names_known(t.schema(), *p),
            f == passes(t.schema(), *p),
            i <= t.rows.len(),
            rows_view(rows@) == t.cells().take(i as int).filter(f),
            crate::table::rows_fit(t.schema(), rows_view(rows@)),
        decreases t.rows.len() - i,
    {
        proof {
            assert(t.cells()[i as int] == row_view(t.rows@[i as int]));
        }
        let keep = eval_row(&t.fields, p, &t.rows[i]) == Some(true);
        proof {
            reveal(Seq::filter);
            let c = t.cells().take(i + 1);
            assert(c.drop_last() =~= t.cells().take(i as int));
            assert(c.last() == row_view(t.rows@[i as int]));
            assert(f(c.last()) == keep);
            if keep {
                assert(c.filter(f) == t.cells().take(i as int).filter(f).push(c.last()));
            } else {
                assert(c.filter(f) == t.cells().take(i as int).filter(f));
            }
        }
        if keep {
            let row = copy_row(&t.rows[i]);
            let ghost prev = rows@;
            rows.push(row);
            proof {
                assert(rows_view(rows@) =~= rows_view(prev).push(row_view(row)));
                assert(t.cells()[i as int] == row_view(row));
            }
        }
        i = i + 1;
    }
    proof {
        assert(t.cells().take(i as int) =~= t.cells());
    }
    let o = Table { fields: copy_fields(&t.fields), rows };
    Ok(o)
}

/// Every named column (every column, when no name is given) is non-null in `row`.
pub open spec fn null_free(s: Seq<(Seq<char>, DataType)>, names: Seq<Seq<char>>, row: Seq<Cell>) -> bool {
    if names.len() == 0 {
        forall|j: int| 0 <= j < row.len() ==> !(#[trigger] row[j] is Null)
    } else {
        forall|i: int| 0 <= i < names.len() ==> !(row[index_of(s, #[trigger] names[i]).unwrap()] is Null)
    }
}

pub open spec fn keeps(s: Seq<(Seq<char>, DataType)>, names: Seq<Seq<char>>) -> spec_fn(Seq<Cell>) -> bool {
    |row: Seq<Cell>| null_free(s, names, row)
}

/// Every name is a column of the schema.
pub open spec fn all_known(s: Seq<(Seq<char>, DataType)>, names: Seq<Seq<char>>) -> bool {
    forall|i: int| 0 <= i < names.len() ==> index_of(s, #[trigger] names[i]).is_some()
}

pub open spec fn names_of(v: Seq<Vec<char>>) -> Seq<Seq<char>> {
    v.map_values(|n: Vec<char>| n@)
}

/// Decides `null_free` for one row.
fn row_null_free(fields: &Vec<Field>, names: &Vec<Vec<char>>, row: &Vec<Value>) -> (r: bool)
    requires
        crate::table::names_unique(schema_view(fields@)),
        all_known(schema_view(fields@), names_of(names@)),
        row@.len() == fields@.len(),
    ensures
        r == null_free(schema_view(fields@), names_of(names@), row_view(*row)),
{
    let ghost s = schema_view(fields@);
    let ghost rv = row_view(*row);
    if names.len() == 0 {
        let mut j: usize = 0;
        while j < row.len()
            invariant
                rv == row_view(*row),
                names@.len() == 0,
                j <= row@.len(),
                forall|q: int| 0 <= q < j ==> !(#[trigger] rv[q] is Null),
            decreases row.len() - j,
        {
            if matches!(row[j], Value::Null) {
                proof {
                    assert(rv[j as int] is Null);
                    assert(names_of(names@).len() == 0);
                    assert(rv.len() == row@.len());
                }
                return false;
            }
            j = j + 1;
        }
        return true;
    }
    let mut i: usize = 0;
    while i < names.len()
        invariant
            s == schema_view(fields@),
            rv == row_view(*row),
            crate::table::names_unique(s),
            all_known(s, names_of(names@)),
            row@.len() == fields@.len(),
            names@.len() > 0,
            i <= names@.len(),
            forall|q: int| 0 <= q < i ==> !(rv[index_of(s, #[trigger] names_of(names@)[q]).unwrap()] is Null),
        decreases names.len() - i,
    {
        proof {
            assert(names_of(names@)[i as int] == names@[i as int]@);
        }
        let c = column_index(fields, &names[i]).unwrap();
        if matches!(row[c], Value::Null) {
            proof {
                assert(rv[c as int] is Null);
            }
            return false;
        }
        i = i + 1;
    }
    true
}

/// The rows of `t` in which the named columns (all columns, when `names` is empty)
/// are non-null, in their order; `SchemaError` when a name is not a column.
pub fn drop_nulls(t: &Table, names: &Vec<Vec<char>>) -> (r: Result<Table, QueryError>)
    requires
        t.wf(),
    ensures
        !all_known(t.schema(), names_of(names@)) ==> r == Err::<Table, QueryError>(QueryError::SchemaError),
        all_known(t.schema(), names_of(names@)) ==> (r matches Ok(o) && o.wf() && o.schema() == t.schema()
            && o.cells() == t.cells().filter(keeps(t.schema(), names_of(names@)))),
{
    let ghost s = t.schema();
    let mut i: usize = 0;
    while i < names.len()
        invariant
            s == t.schema(),
            crate::table::names_unique(s),
            i <= names@.len(),
            forall|q: int| 0 <= q < i ==> index_of(s, #[trigger] names_of(names@)[q]).is_some(),
        decreases names.len() - i,
    {
        proof {
            assert(names_of(names@)[i as int] == names@[i as int]@);
        }
        if column_index(&t.fields, &names[i]).is_none() {
            return Err(QueryError::SchemaError);
        }
        i = i + 1;
    }
    let ghost f = keeps(s, names_of(names@));
    let mut rows: Vec<Vec<Value>> = Vec::new();
    let mut i: usize = 0;
    while i < t.rows.len()
        invariant
            t.wf(),
            s == t.schema(),
            all_known(s, names_of(names@)),
            f == keeps(s, names_of(names@)),
            i <= t.rows.len(),
            rows_view(rows@) == t.cells().take(i as int).filter(f),
            crate::table::rows_fit(s, rows_view(rows@)),
        decreases t.rows.len() - i,
    {
        proof {
            assert(t.cells()[i as int] == row_view(t.rows@[i as int]));
            assert(t.cells()[i as int].len() == s.len());
        }
        let keep = row_null_free(&t.fields, names, &t.rows[i]);
        proof {
            reveal(Seq::filter);
            let c = t.cells().take(i + 1);
            assert(c.drop_last() =~= t.cells().take(i as int));
            assert(c.last() == row_view(t.rows@[i as int]));
            assert(f(c.last()) == keep);
        }
        if keep {
            let row = copy_row(&t.rows[i]);
            let ghost prev = rows@;
            rows.push(row);
            proof {
                assert(rows_view(rows@) =~= rows_view(prev).push(row_view(row)));
                assert(t.cells()[i as int] == row_view(row));
            }
        }
        i = i + 1;
    }
    proof {
        assert(t.cells().take(i as int) =~= t.cells());
    }
    Ok(Table { fields: copy_fields(&t.fields), rows })
}

} // verus!
