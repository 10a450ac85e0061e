//! Column expressions and projection.
use vstd::prelude::*;
use crate::column::{cells_of, column_values, div_toward_zero, extreme, extreme_value, mean_millionths, mean_value, numeric, sums_fit};
use crate::error::QueryError;
use crate::sort::column_of;
use crate::table::{Field, Table, column_index, index_of, names_unique, row_view, schema_view};
use crate::value::{Cell, DataType, SCALE, Value, copy_chars, copy_value, scaled};

verus! {

/// An arithmetic operator. Division always gives a float.
#[derive(Clone, Copy, Debug, PartialEq, Eq, Structural)]
pub enum ArithOp {
    Add,
    Sub,
    Mul,
    Div,
}

/// An expression computing one cell per row.
#[derive(Debug)]
pub enum Expr {
    /// The named column.
    Col(Vec<char>),
    /// A constant.
    Lit(Value),
    /// Arithmetic on two numeric expressions; null when either side is null.
    Arith(ArithOp, Box<Expr>, Box<Expr>),
    /// Mean of a numeric column over all rows, the same in every row.
    Mean(Vec<char>),
    /// Smallest value of a column over all rows, the same in every row.
    Min(Vec<char>),
    /// Largest value of a column over all rows, the same in every row.
    Max(Vec<char>),
    /// A numeric expression as a float.
    ToFloat(Box<Expr>),
}

/// An expression and the name of the column it produces.
#[derive(Debug)]
pub struct Projection {
    pub expr: Expr,
    pub alias: Vec<char>,
}

pub open spec fn is_numeric_type(t: DataType) -> bool {
    t == DataType::Integer || t == DataType::Float
}

/// Type of a literal cell (a null literal is text).
pub open spec fn literal_type(c: Cell) -> DataType {
    match c {
        Cell::Bool(_) => DataType::Boolean,
        Cell::Int(_) => DataType::Integer,
        Cell::Float(_) => DataType::Float,
        _ => DataType::Text,
    }
}

/// The type of `e` over schema `s`; `SchemaError` for an unknown column, else
/// `TypeMismatch` for arithmetic, a mean or a cast on a non-numeric type (the
/// left operand is looked at first).
pub open spec fn expr_type(s: Seq<(Seq<char>, DataType)>, e: Expr) -> Result<DataType, QueryError>
    decreases e,
{
    match e {
        Expr::Col(n) => match index_of(s, n@) {
            Some(i) => Ok(s[i].1),
            None => Err(QueryError::SchemaError),
        },
        Expr::Lit(v) => Ok(literal_type(v@)),
        Expr::Arith(op, a, b) => match expr_type(s, *a) {
            Err(x) => Err(x),
            Ok(ta) => match expr_type(s, *b) {
                Err(x) => Err(x),
                Ok(tb) => if !is_numeric_type(ta) || !is_numeric_type(tb) {
                    Err(QueryError::TypeMismatch)
                } else if op != ArithOp::Div && ta == DataType::Integer && tb == DataType::Integer {
                    Ok(DataType::Integer)
                } else {
                    Ok(DataType::Float)
                },
            },
        },
        Expr::Mean(n) => match index_of(s, n@) {
            Some(i) => if is_numeric_type(s[i].1) { Ok(DataType::Float) } else { Err(QueryError::TypeMismatch) },
            None => Err(QueryError::SchemaError),
        },
        Expr::Min(n) => match index_of(s, n@) {
            Some(i) => Ok(s[i].1),
            None => Err(QueryError::SchemaError),
        },
        Expr::Max(n) => match index_of(s, n@) {
            Some(i) => Ok(s[i].1),
            None => Err(QueryError::SchemaError),
        },
        Expr::ToFloat(a) => match expr_type(s, *a) {
            Err(x) => Err(x),
            Ok(ta) => if is_numeric_type(ta) { Ok(DataType::Float) } else { Err(QueryError::TypeMismatch) },
        },
    }
}

pub open spec fn in_i64(x: int) -> bool {
    i64::MIN <= x <= i64::MAX
}

/// A numeric cell in millionths.
pub open spec fn as_millionths(c: Cell) -> int {
    match c {
        Cell::Int(v) => v * SCALE,
        Cell::Float(m) => m,
        _ => 0,
    }
}

/// Arithmetic on two non-null numeric cells; `None` when the result does not fit.
/// Floats are fixed-point: products and quotients round toward zero, and a
/// division by zero gives null.
pub open spec fn arith(op: ArithOp, x: Cell, y: Cell) -> Option<Cell> {
    if op != ArithOp::Div && x is Int && y is Int {
        let (a, b) = (x->Int_0, y->Int_0);
        let r = match op {
            ArithOp::Add => a + b,
            ArithOp::Sub => a - b,
            _ => a * b,
        };
        if in_i64(r) { Some(Cell::Int(r)) } else { None }
    } else {
        let (a, b) = (as_millionths(x), as_millionths(y));
        if op == ArithOp::Div && b == 0 {
            Some(Cell::Null)
        } else {
            let r = match op {
                ArithOp::Add => a + b,
                ArithOp::Sub => a - b,
                ArithOp::Mul => div_toward_zero(a * b, SCALE as int),
                ArithOp::Div => div_toward_zero(a * SCALE, b),
            };
            if in_i64(r) { Some(Cell::Float(r)) } else { None }
        }
    }
}

/// The broadcast mean of a column, or `None` when it does not fit.
pub open spec fn mean_cell(col: Seq<Cell>) -> Option<Cell> {
    if !sums_fit(col) {
        None
    } else {
        match mean_millionths(col) {
            Some(m) => if in_i64(m) { Some(Cell::Float(m)) } else { None },
            None => Some(Cell::Null),
        }
    }
}

/// Value of a well-typed `e` on `row` of the table with schema `s` and rows `rows`;
/// `None` when a result does not fit in 64 bits.
pub open spec fn eval(s: Seq<(Seq<char>, DataType)>, rows: Seq<Seq<Cell>>, e: Expr, row: Seq<Cell>) -> Option<Cell>
    decreases e,
{
    match e {
        Expr::Col(n) => Some(row[index_of(s, n@).unwrap()]),
        Expr::Lit(v) => Some(v@),
        Expr::Arith(op, a, b) => match eval(s, rows, *a, row) {
            None => None,
            Some(x) => match eval(s, rows, *b, row) {
                None => None,
                Some(y) => if x is Null || y is Null { Some(Cell::Null) } else { arith(op, x, y) },
            },
        },
        Expr::Mean(n) => mean_cell(column_of(rows, index_of(s, n@).unwrap())),
        Expr::Min(n) => Some(extreme(column_of(rows, index_of(s, n@).unwrap()), false)),
        Expr::Max(n) => Some(extreme(column_of(rows, index_of(s, n@).unwrap()), true)),
        Expr::ToFloat(a) => match eval(s, rows, *a, row) {
            None => None,
            Some(x) => match x {
                Cell::Int(v) => if in_i64(v * SCALE) { Some(Cell::Float(v * SCALE)) } else { None },
                _ => Some(x),
            },
        },
    }
}

/// Decides `expr_type`.
pub fn type_of(fields: &Vec<Field>, e: &Expr) -> (r: Result<DataType, QueryError>)
    requires
        names_unique(schema_view(fields@)),
    ensures
        r == expr_type(schema_view(fields@), *e),
    decreases e,
{
    match e {
        Expr::Col(n) => match column_index(fields, n) {
            Some(i) => Ok(fields[i].dtype),
            None => Err(QueryError::SchemaError),
        },
        Expr::Lit(v) => Ok(
            match v {
                Value::Bool(_) => DataType::Boolean,
                Value::Int(_) => DataType::Integer,
                Value::Float(_) => DataType::Float,
                _ => DataType::Text,
            },
        ),
        Expr::Arith(op, a, b) => {
            let ta = type_of(fields, a)?;
            let tb = type_of(fields, b)?;
            if !(ta == DataType::Integer || ta == DataType::Float) || !(tb == DataType::Integer || tb == DataType::Float) {
                Err(QueryError::TypeMismatch)
            } else if *op != ArithOp::Div && ta == DataType::Integer && tb == DataType::Integer {
                Ok(DataType::Integer)
            } else {
                Ok(DataType::Float)
            }
        },
        Expr::Mean(n) => match column_index(fields, n) {
            Some(i) => if fields[i].dtype == DataType::Integer || fields[i].dtype == DataType::Float {
                Ok(DataType::Float)
            } else {
                Err(QueryError::TypeMismatch)
            },
            None => Err(QueryError::SchemaError),
        },
        Expr::Min(n) => match column_index(fields, n) {
            Some(i) => Ok(fields[i].dtype),
            None => Err(QueryError::SchemaError),
        },
        Expr::Max(n) => match column_index(fields, n) {
            Some(i) => Ok(fields[i].dtype),
            None => Err(QueryError::SchemaError),
        },
        Expr::ToFloat(a) => {
            let ta = type_of(fields, a)?;
            if ta == DataType::Integer || ta == DataType::Float {
                Ok(DataType::Float)
            } else {
                Err(QueryError::TypeMismatch)
            }
        },
    }
}

fn to_i64(x: i128) -> (r: Option<Value>)
    ensures
        in_i64(x as int) ==> (r matches Some(v) && v@ == Cell::Float(x as int)),
        !in_i64(x as int) ==> r is None,
{
    if x < i64::MIN as i128 || x > i64::MAX as i128 {
        None
    } else {
        Some(Value::Float(x as i64))
    }
}

/// `div_toward_zero(a, b)` for `b != 0`.
fn quotient(a: i128, b: i128) -> (r: i128)
    requires
        b != 0,
        a > i128::MIN,
        b > i128::MIN,
    ensures
        r == crate::column::div_toward_zero(a as int, b as int),
{
    let (x, y) = (if a >= 0 { a } else { -a }, if b >= 0 { b } else { -b });
    let q = x / y;
    proof {
        assert(0 <= q <= x) by {
            vstd::arithmetic::div_mod::lemma_div_is_ordered_by_denominator(x as int, 1, y as int);
            vstd::arithmetic::div_mod::lemma_div_pos_is_pos(x as int, y as int);
        }
    }
    if (a >= 0) == (b >= 0) { q } else { -q }
}

/// Computes `arith` on two non-null numeric cells.
pub fn arith_values(op: ArithOp, x: &Value, y: &Value) -> (r: Option<Value>)
    requires
        x@ is Int || x@ is Float,
        y@ is Int || y@ is Float,
    ensures
        match arith(op, x@, y@) {
            Some(c) => r matches Some(v) && v@ == c,
            None => r is None,
        },
{
    if op != ArithOp::Div {
        if let (Value::Int(a), Value::Int(b)) = (x, y) {
            let w: i128 = match op {
                ArithOp::Add => *a as i128 + *b as i128,
                ArithOp::Sub => *a as i128 - *b as i128,
                _ => {
                    proof {
                        let (aa, bb) = (*a as int, *b as int);
                        assert(-0x4000_0000_0000_0000_0000_0000_0000_0000 <= aa * bb <= 0x4000_0000_0000_0000_0000_0000_0000_0000) by (nonlinear_arith)
                            requires
                                -0x8000_0000_0000_0000 <= aa <= 0x7fff_ffff_ffff_ffff,
                                -0x8000_0000_0000_0000 <= bb <= 0x7fff_ffff_ffff_ffff,
                        ;
                    }
                    *a as i128 * *b as i128
                },
            };
            if w < i64::MIN as i128 || w > i64::MAX as i128 {
                return None;
            }
            return Some(Value::Int(w as i64));
        }
    }
    let (a, a_int): (i128, bool) = match x {
        Value::Int(v) => (scaled(*v), true),
        Value::Float(m) => (*m as i128, false),
        _ => (0, false),
    };
    let b: i128 = match y {
        Value::Int(v) => scaled(*v),
        Value::Float(m) => *m as i128,
        _ => 0,
    };
    proof {
        assert(-0x8000_0000_0000_0000 * 1_000_000 <= a <= 0x7fff_ffff_ffff_ffff * 1_000_000);
        assert(-0x8000_0000_0000_0000 * 1_000_000 <= b <= 0x7fff_ffff_ffff_ffff * 1_000_000);
        assert(a as int == as_millionths(x@) && b as int == as_millionths(y@));
    }
    match op {
        ArithOp::Add => to_i64(a + b),
        ArithOp::Sub => to_i64(a - b),
        ArithOp::Mul => {
            let p: i128 = match (x, y) {
                (Value::Int(v), Value::Float(m)) => {
                    proof {
                        lemma_exact_div(*v as int * *m as int);
                        assert(a * b == (*v as int * *m as int) * SCALE) by (nonlinear_arith)
                            requires
                                a == *v as int * SCALE,
                                b == *m as int,
                        ;
                        lemma_i64_product(*v as int, *m as int);
                    }
                    *v as i128 * *m as i128
                },
                (Value::Float(m), Value::Int(v)) => {
                    proof {
                        lemma_exact_div(*v as int * *m as int);
                        assert(a * b == (*v as int * *m as int) * SCALE) by (nonlinear_arith)
                            requires
                                b == *v as int * SCALE,
                                a == *m as int,
                        ;
                        lemma_i64_product(*v as int, *m as int);
                    }
                    *v as i128 * *m as i128
                },
                (Value::Float(m1), Value::Float(m2)) => {
                    proof {
                        lemma_i64_product(*m1 as int, *m2 as int);
                    }
                    quotient(*m1 as i128 * *m2 as i128, 1_000_000)
                },
                _ => 0,
            };
            to_i64(p)
        },
        ArithOp::Div => {
            if b == 0 {
                return Some(Value::Null);
            }
            proof {
                assert(-0x8000_0000_0000_0000 * 1_000_000 * 1_000_000 <= a * 1_000_000 <= 0x7fff_ffff_ffff_ffff * 1_000_000 * 1_000_000)
                    by (nonlinear_arith)
                    requires
                        -0x8000_0000_0000_0000 * 1_000_000 <= a <= 0x7fff_ffff_ffff_ffff * 1_000_000,
                ;
            }
            to_i64(quotient(a * 1_000_000, b))
        },
    }
}

proof fn lemma_exact_div(k: int)
    ensures
        crate::column::div_toward_zero(k * SCALE, SCALE as int) == k,
{
    if k >= 0 {
        vstd::arithmetic::div_mod::lemma_div_by_multiple(k, SCALE as int);
        assert(k * SCALE >= 0) by (nonlinear_arith)
            requires
                k >= 0,
        ;
    } else {
        vstd::arithmetic::div_mod::lemma_div_by_multiple(-k, SCALE as int);
        assert(k * SCALE < 0) by (nonlinear_arith)
            requires
                k < 0,
        ;
        assert(-(k * SCALE) == (-k) * SCALE) by (nonlinear_arith);
    }
}

proof fn lemma_i64_product(a: int, b: int)
    requires
        in_i64(a),
        in_i64(b),
    ensures
        -0x4000_0000_0000_0000_0000_0000_0000_0000 <= a * b <= 0x4000_0000_0000_0000_0000_0000_0000_0000,
{
    assert(-0x4000_0000_0000_0000_0000_0000_0000_0000 <= a * b <= 0x4000_0000_0000_0000_0000_0000_0000_0000) by (nonlinear_arith)
        requires
            -0x8000_0000_0000_0000 <= a <= 0x7fff_ffff_ffff_ffff,
            -0x8000_0000_0000_0000 <= b <= 0x7fff_ffff_ffff_ffff,
    ;
}

/// The cells of a row fit the schema.
pub open spec fn row_fits(s: Seq<(Seq<char>, DataType)>, row: Seq<Cell>) -> bool {
    row.len() == s.len() && forall|j: int| 0 <= j < s.len() ==> crate::value::fits(#[trigger] row[j], s[j].1)
}

/// A value computed by a well-typed expression has the expression's type.
pub proof fn lemma_eval_fits(s: Seq<(Seq<char>, DataType)>, rows: Seq<Seq<Cell>>, e: Expr, row: Seq<Cell>)
    requires
        crate::table::rows_fit(s, rows),
        row_fits(s, row) || is_aggregate(e),
        expr_type(s, e) is Ok,
    ensures
        eval(s, rows, e, row) matches Some(c) ==> crate::value::fits(c, expr_type(s, e)->Ok_0),
    decreases e,
{
    match e {
        Expr::Arith(op, a, b) => {
            lemma_eval_fits(s, rows, *a, row);
            lemma_eval_fits(s, rows, *b, row);
        },
        Expr::ToFloat(a) => {
            lemma_eval_fits(s, rows, *a, row);
        },
        Expr::Min(n) => {
            let k = index_of(s, n@).unwrap();
            assert forall|i: int| 0 <= i < column_of(rows, k).len() implies crate::value::fits(#[trigger] column_of(rows, k)[i], s[k].1) by {
                assert(rows[i].len() == s.len());
            }
            crate::group::lemma_extreme_fits(column_of(rows, k), false, s[k].1);
        },
        Expr::Max(n) => {
            let k = index_of(s, n@).unwrap();
            assert forall|i: int| 0 <= i < column_of(rows, k).len() implies crate::value::fits(#[trigger] column_of(rows, k)[i], s[k].1) by {
                assert(rows[i].len() == s.len());
            }
            crate::group::lemma_extreme_fits(column_of(rows, k), true, s[k].1);
        },
        _ => {},
    }
}

/// Computes `eval` of a well-typed expression on one row.
pub fn eval_expr(t: &Table, e: &Expr, row: &Vec<Value>) -> (r: Option<Value>)
    requires
        t.wf(),
        row_fits(t.schema(), row_view(*row)) || is_aggregate(*e),
        expr_type(t.schema(), *e) is Ok,
    ensures
        match eval(t.schema(), t.cells(), *e, row_view(*row)) {
            Some(c) => r matches Some(v) && v@ == c,
            None => r is None,
        },
    decreases e,
{
    let ghost s = t.schema();
    match e {
        Expr::Col(n) => {
            let i = column_index(&t.fields, n).unwrap();
            proof {
                assert(row_view(*row)[i as int] == row@[i as int]@);
            }
            Some(copy_value(&row[i]))
        },
        Expr::Lit(v) => Some(copy_value(v)),
        Expr::Arith(op, a, b) => {
            let x = eval_expr(t, a, row)?;
            let y = eval_expr(t, b, row)?;
            if matches!(x, Value::Null) || matches!(y, Value::Null) {
                return Some(Value::Null);
            }
            proof {
                lemma_eval_fits(s, t.cells(), **a, row_view(*row));
                lemma_eval_fits(s, t.cells(), **b, row_view(*row));
            }
            arith_values(*op, &x, &y)
        },
        Expr::Mean(n) => {
            let i = column_index(&t.fields, n).unwrap();
            let col = column_values_of(t, i);
            proof {
                assert(numeric(cells_of(col@))) by {
                    assert forall|q: int| 0 <= q < cells_of(col@).len() implies (#[trigger] cells_of(col@)[q] is Null || cells_of(col@)[q] is Int || cells_of(col@)[q] is Float) by {
                        assert(t.cells()[q].len() == s.len());
                        assert(crate::value::fits(t.cells()[q][i as int], s[i as int].1));
                    }
                }
            }
            match mean_value(&col) {
                Ok(v) => Some(v),
                Err(_) => None,
            }
        },
        Expr::Min(n) => {
            let i = column_index(&t.fields, n).unwrap();
            Some(extreme_value(&column_values_of(t, i), false))
        },
        Expr::Max(n) => {
            let i = column_index(&t.fields, n).unwrap();
            Some(extreme_value(&column_values_of(t, i), true))
        },
        Expr::ToFloat(a) => {
            let x = eval_expr(t, a, row)?;
            match x {
                Value::Int(v) => to_i64(scaled(v)),
                _ => Some(x),
            }
        },
    }
}

/// Column `i` of a well-formed table.
fn column_values_of(t: &Table, i: usize) -> (r: Vec<Value>)
    requires
        t.wf(),
        i < t.schema().len(),
    ensures
        cells_of(r@) == column_of(t.cells(), i as int),
{
    proof {
        assert forall|q: int| 0 <= q < t.rows@.len() implies i < (#[trigger] t.rows@[q])@.len() by {
            assert(t.cells()[q] == row_view(t.rows@[q]));
        }
    }
    column_values(&t.rows, i)
}

/// The output types of the projections, or the first error among them.
pub open spec fn proj_types(s: Seq<(Seq<char>, DataType)>, ps: Seq<Projection>) -> Result<Seq<DataType>, QueryError>
    decreases ps.len(),
{
    if ps.len() == 0 {
        Ok(Seq::empty())
    } else {
        match proj_types(s, ps.drop_last()) {
            Err(x) => Err(x),
            Ok(ts) => match expr_type(s, ps.last().expr) {
                Err(x) => Err(x),
                Ok(t) => Ok(ts.push(t)),
            },
        }
    }
}

proof fn lemma_proj_types_prefix(s: Seq<(Seq<char>, DataType)>, ps: Seq<Projection>, k: int)
    requires
        0 <= k <= ps.len(),
        proj_types(s, ps.take(k)) is Err,
    ensures
        proj_types(s, ps) == proj_types(s, ps.take(k)),
    decreases ps.len() - k,
{
    if k < ps.len() {
        let p = ps.take(k + 1);
        assert(p.drop_last() =~= ps.take(k));
        lemma_proj_types_prefix(s, ps, k + 1);
    } else {
        assert(ps.take(k) =~= ps);
    }
}

proof fn lemma_proj_types_each(s: Seq<(Seq<char>, DataType)>, ps: Seq<Projection>)
    requires
        proj_types(s, ps) is Ok,
    ensures
        proj_types(s, ps)->Ok_0.len() == ps.len(),
        forall|q: int| 0 <= q < ps.len() ==> #[trigger] expr_type(s, ps[q].expr) == Ok::<DataType, QueryError>(proj_types(s, ps)->Ok_0[q]),
    decreases ps.len(),
{
    if ps.len() > 0 {
        lemma_proj_types_each(s, ps.drop_last());
        assert forall|q: int| 0 <= q < ps.len() implies #[trigger] expr_type(s, ps[q].expr) == Ok::<DataType, QueryError>(proj_types(s, ps)->Ok_0[q]) by {
            if q < ps.len() - 1 {
                assert(ps.drop_last()[q] == ps[q]);
            }
        }
    }
}

/// Whether an expression is an aggregate over the whole column.
pub open spec fn is_aggregate(e: Expr) -> bool {
    e is Mean || e is Min || e is Max
}

/// The projections are all aggregates (and there is at least one): the result has one row.
pub open spec fn all_aggregates(ps: Seq<Projection>) -> bool {
    ps.len() > 0 && forall|i: int| 0 <= i < ps.len() ==> is_aggregate(#[trigger] ps[i].expr)
}

/// The rows that the projections are evaluated on.
pub open spec fn eval_rows(rows: Seq<Seq<Cell>>, ps: Seq<Projection>) -> Seq<Seq<Cell>> {
    if all_aggregates(ps) { seq![Seq::<Cell>::empty()] } else { rows }
}

/// Every projection has a value on every row.
pub open spec fn all_defined(s: Seq<(Seq<char>, DataType)>, rows: Seq<Seq<Cell>>, ps: Seq<Projection>) -> bool {
    forall|i: int, j: int| 0 <= i < eval_rows(rows, ps).len() && 0 <= j < ps.len()
        ==> #[trigger] eval(s, rows, ps[j].expr, eval_rows(rows, ps)[i]) is Some
}

/// The output row for input row `row`.
pub open spec fn projected_row(s: Seq<(Seq<char>, DataType)>, rows: Seq<Seq<Cell>>, ps: Seq<Projection>, row: Seq<Cell>) -> Seq<Cell> {
    ps.map_values(|p: Projection| eval(s, rows, p.expr, row).unwrap())
}

/// The schema of the projection.
pub open spec fn projected_schema(ps: Seq<Projection>, ts: Seq<DataType>) -> Seq<(Seq<char>, DataType)> {
    Seq::new(ps.len(), |j: int| (ps[j].alias@, ts[j]))
}

/// Evaluates the projections on the rows of `t`: the output has one column per
/// projection, named by its alias, in the order given, and one row per input row,
/// or a single row when every projection is an aggregate. Errors: the first
/// projection's error in order (`SchemaError` for an unknown column, `TypeMismatch`),
/// `SchemaError` when two aliases clash, `Overflow` when a value does not fit.
pub fn select(t: &Table, ps: &Vec<Projection>) -> (r: Result<Table, QueryError>)
    requires
        t.wf(),
    ensures
        proj_types(t.schema(), ps@) matches Err(x) ==> r == Err::<Table, QueryError>(x),
        proj_types(t.schema(), ps@) matches Ok(ts) ==> {
            let out = projected_schema(ps@, ts);
            &&& !names_unique(out) ==> r == Err::<Table, QueryError>(QueryError::SchemaError)
            &&& names_unique(out) && !all_defined(t.schema(), t.cells(), ps@) ==> r == Err::<Table, QueryError>(QueryError::Overflow)
            &&& names_unique(out) && all_defined(t.schema(), t.cells(), ps@) ==> (r matches Ok(o) && o.wf() && o.schema() == out
                && o.cells() == eval_rows(t.cells(), ps@).map_values(|row: Seq<Cell>| projected_row(t.schema(), t.cells(), ps@, row)))
        },
{
    let ghost s = t.schema();
    let m = ps.len();
    let mut types: Vec<DataType> = Vec::new();
    let mut j: usize = 0;
    while j < m
        invariant
            m == ps@.len(),
            s == t.schema(),
            names_unique(s),
            j <= m,
            proj_types(s, ps@.take(j as int)) == Ok::<Seq<DataType>, QueryError>(types@),
        decreases m - j,
    {
        proof {
            assert(ps@.take(j + 1).drop_last() =~= ps@.take(j as int));
        }
        match type_of(&t.fields, &ps[j].expr) {
            Ok(ty) => types.push(ty),
            Err(x) => {
                proof {
                    lemma_proj_types_prefix(s, ps@, (j + 1) as int);
                }
                return Err(x);
            },
        }
        j = j + 1;
    }
    proof {
        assert(ps@.take(m as int) =~= ps@);
    }
    let ghost ts = types@;
    let mut names: Vec<Vec<char>> = Vec::new();
    let mut j: usize = 0;
    while j < m
        invariant
            m == ps@.len(),
            j <= m,
            names@.len() == j,
            forall|q: int| 0 <= q < j ==> (#[trigger] names@[q])@ == ps@[q].alias@,
        decreases m - j,
    {
        names.push(copy_chars(&ps[j].alias));
        j = j + 1;
    }
    let ghost out = projected_schema(ps@, ts);
    if !crate::csv::distinct_names(&names) {
        proof {
            let (a, b) = choose|a: int, b: int| 0 <= a < b < names@.len() && names@[a]@ == names@[b]@;
            assert(out[a].0 == out[b].0);
        }
        return Err(QueryError::SchemaError);
    }
    proof {
        assert forall|a: int, b: int| #![trigger out[a], out[b]] 0 <= a < b < out.len() implies out[a].0 != out[b].0 by {
            assert(names@[a]@ == out[a].0 && names@[b]@ == out[b].0);
        }
        lemma_proj_types_each(s, ps@);
    }
    // one row, or one per input row
    let mut all_agg = m > 0;
    let mut j: usize = 0;
    while j < m
        invariant
            m == ps@.len(),
            j <= m,
            all_agg == (m > 0 && forall|q: int| 0 <= q < j ==> is_aggregate(#[trigger] ps@[q].expr)),
        decreases m - j,
    {
        if !matches!(ps[j].expr, Expr::Mean(_) | Expr::Min(_) | Expr::Max(_)) {
            all_agg = false;
        }
        j = j + 1;
    }
    let ghost er = eval_rows(t.cells(), ps@);
    let n: usize = if all_agg { 1 } else { t.rows.len() };
    let empty: Vec<Value> = Vec::new();
    proof {
        assert(row_view(empty) =~= Seq::<Cell>::empty());
        assert(er.len() == n);
    }
    let mut rows: Vec<Vec<Value>> = Vec::new();
    let mut i: usize = 0;
    while i < n
        invariant
            t.wf(),
            s == t.schema(),
            m == ps@.len(),
            ts.len() == m,
            forall|q: int| 0 <= q < m ==> #[trigger] expr_type(s, ps@[q].expr) == Ok::<DataType, QueryError>(ts[q]),
            er == eval_rows(t.cells(), ps@),
            n == er.len(),
            proj_types(s, ps@) == Ok::<Seq<DataType>, QueryError>(ts),
            names_unique(projected_schema(ps@, ts)),
            all_agg == all_aggregates(ps@),
            !all_agg ==> n == t.rows@.len(),
            row_view(empty) == Seq::<Cell>::empty(),
            i <= n,
            rows@.len() == i,
            forall|q: int| 0 <= q < i ==> row_view(#[trigger] rows@[q]) == projected_row(s, t.cells(), ps@, er[q]),
            forall|q: int| 0 <= q < i ==> row_fits(projected_schema(ps@, ts), row_view(#[trigger] rows@[q])),
            forall|q: int, j: int| 0 <= q < i && 0 <= j < m ==> #[trigger] eval(s, t.cells(), ps@[j].expr, #[trigger] er[q]) is Some,
        decreases n - i,
    {
        let src: &Vec<Value> = if all_agg { &empty } else { &t.rows[i] };
        proof {
            if !all_agg {
                assert(t.cells()[i as int] == row_view(t.rows@[i as int]));
                assert(t.cells()[i as int].len() == s.len());
            }
            assert(row_view(*src) == er[i as int]);
        }
        let mut row: Vec<Value> = Vec::new();
        let mut j: usize = 0;
        while j < m
            invariant
                t.wf(),
                s == t.schema(),
                m == ps@.len(),
                ts.len() == m,
                forall|q: int| 0 <= q < m ==> #[trigger] expr_type(s, ps@[q].expr) == Ok::<DataType, QueryError>(ts[q]),
                all_agg == all_aggregates(ps@),
                proj_types(s, ps@) == Ok::<Seq<DataType>, QueryError>(ts),
                names_unique(projected_schema(ps@, ts)),
                row_view(*src) == er[i as int],
                i < n,
                n == er.len(),
                er == eval_rows(t.cells(), ps@),
                !all_agg ==> row_fits(s, row_view(*src)),
                j <= m,
                row@.len() == j,
                forall|k: int| 0 <= k < j ==> Some((#[trigger] row@[k])@) == eval(s, t.cells(), ps@[k].expr, er[i as int]),
                forall|k: int| 0 <= k < j ==> crate::value::fits((#[trigger] row@[k])@, ts[k]),
            decreases m - j,
        {
            proof {
                if all_agg {
                    assert(is_aggregate(ps@[j as int].expr));
                }
                assert(expr_type(s, ps@[j as int].expr) == Ok::<DataType, QueryError>(ts[j as int]));
                lemma_eval_fits(s, t.cells(), ps@[j as int].expr, row_view(*src));
            }
            let v = match eval_expr(t, &ps[j].expr, src) {
                Some(v) => v,
                None => {
                    proof {
                        assert(eval(s, t.cells(), ps@[j as int].expr, er[i as int]) is None);
                        assert(!all_defined(s, t.cells(), ps@));
                    }
                    return Err(QueryError::Overflow);
                },
            };
            row.push(v);
            j = j + 1;
        }
        proof {
            assert(row_view(row) =~= projected_row(s, t.cells(), ps@, er[i as int]));
            assert forall|k: int| 0 <= k < m implies #[trigger] eval(s, t.cells(), ps@[k].expr, er[i as int]) is Some by {
                assert(Some(row@[k]@) == eval(s, t.cells(), ps@[k].expr, er[i as int]));
            }
            assert forall|k: int| 0 <= k < m implies crate::value::fits(#[trigger] row_view(row)[k], projected_schema(ps@, ts)[k].1) by {
                assert(crate::value::fits(row@[k]@, ts[k]));
            }
        }
        rows.push(row);
        i = i + 1;
    }
    let mut fields: Vec<Field> = Vec::new();
    let mut j: usize = 0;
    while j < m
        invariant
            m == ps@.len(),
            types@ == ts,
            ts.len() == m,
            j <= m,
            fields@.len() == j,
            forall|q: int| 0 <= q < j ==> (#[trigger] fields@[q]).name@ == ps@[q].alias@ && fields@[q].dtype == ts[q],
        decreases m - j,
    {
        fields.push(Field { name: copy_chars(&ps[j].alias), dtype: types[j] });
        j = j + 1;
    }
    let o = Table { fields, rows };
    proof {
        assert(o.schema() =~= out);
        assert(o.cells() =~= er.map_values(|row: Seq<Cell>| projected_row(s, t.cells(), ps@, row)));
        assert forall|q: int| 0 <= q < o.cells().len() implies #[trigger] o.cells()[q].len() == out.len() && (forall|j: int|
            0 <= j < out.len() ==> crate::value::fits(#[trigger] o.cells()[q][j], out[j].1)) by {
            assert(o.cells()[q] == row_view(o.rows@[q]));
        }
    }
    Ok(o)
}

} // verus!
