//! Grouping rows by the value of one column, with one output row per group.
use vstd::prelude::*;
use crate::column::{cells_of, column_values, distinct, distinct_values, extreme, extreme_value, mean_millionths, mean_value, numeric, sums_fit};
use crate::error::QueryError;
use crate::sort::column_of;
use crate::table::{Field, Table, column_index, index_of, names_unique, row_view, rows_view, schema_view, copy_row};
use crate::value::{Cell, DataType, Value, copy_chars, copy_value, values_equal};

verus! {

/// A reducer over the rows of a group.
#[derive(Debug)]
pub enum Agg {
    /// Number of rows.
    Count,
    /// Number of distinct values of a column (null counts as a value).
    CountDistinct(Vec<char>),
    /// Smallest non-null value of a column.
    Min(Vec<char>),
    /// Largest non-null value of a column.
    Max(Vec<char>),
    /// Mean of the non-null values of a numeric column, as a float.
    Mean(Vec<char>),
}

/// A reducer and the name of the column it produces.
#[derive(Debug)]
pub struct Aggregation {
    pub op: Agg,
    pub alias: Vec<char>,
}

/// The column that `a` reads, if any.
pub open spec fn agg_column(a: Agg) -> Option<Seq<char>> {
    match a {
        Agg::Count => None,
        Agg::CountDistinct(n) => Some(n@),
        Agg::Min(n) => Some(n@),
        Agg::Max(n) => Some(n@),
        Agg::Mean(n) => Some(n@),
    }
}

/// Every column that the aggregations read is in the schema.
pub open spec fn agg_names_known(s: Seq<(Seq<char>, DataType)>, aggs: Seq<Aggregation>) -> bool {
    forall|i: int| 0 <= i < aggs.len() ==> (#[trigger] agg_column(aggs[i].op) matches Some(n) ==> index_of(s, n).is_some())
}

/// A mean reads a column of integers or floats.
pub open spec fn agg_types_fit(s: Seq<(Seq<char>, DataType)>, aggs: Seq<Aggregation>) -> bool {
    forall|i: int| 0 <= i < aggs.len() ==> (#[trigger] aggs[i].op matches Agg::Mean(n) ==> (
        s[index_of(s, n@).unwrap()].1 == DataType::Integer || s[index_of(s, n@).unwrap()].1 == DataType::Float))
}

/// Type of the column that `a` produces.
pub open spec fn agg_type(s: Seq<(Seq<char>, DataType)>, a: Agg) -> DataType {
    match a {
        Agg::Count => DataType::Integer,
        Agg::CountDistinct(_) => DataType::Integer,
        Agg::Min(n) => s[index_of(s, n@).unwrap()].1,
        Agg::Max(n) => s[index_of(s, n@).unwrap()].1,
        Agg::Mean(_) => DataType::Float,
    }
}

/// Schema of the grouped table: the key column, then one column per aggregation.
pub open spec fn grouped_schema(s: Seq<(Seq<char>, DataType)>, c: int, aggs: Seq<Aggregation>) -> Seq<(Seq<char>, DataType)> {
    seq![s[c]] + aggs.map_values(|a: Aggregation| (a.alias@, agg_type(s, a.op)))
}

/// The rows whose column `c` holds `k`, in their order.
pub open spec fn group_of(rows: Seq<Seq<Cell>>, c: int, k: Cell) -> Seq<Seq<Cell>> {
    rows.filter(|r: Seq<Cell>| r[c] == k)
}

/// Whether `a` has a result on group `g` that fits in 64 bits.
pub open spec fn agg_fits(s: Seq<(Seq<char>, DataType)>, a: Agg, g: Seq<Seq<Cell>>) -> bool {
    match a {
        Agg::Count => g.len() <= i64::MAX,
        Agg::CountDistinct(n) => distinct(column_of(g, index_of(s, n@).unwrap())).len() <= i64::MAX,
        Agg::Mean(n) => {
            let col = column_of(g, index_of(s, n@).unwrap());
            sums_fit(col) && (mean_millionths(col) matches Some(m) ==> i64::MIN <= m <= i64::MAX)
        },
        _ => true,
    }
}

/// What `a` gives on group `g`.
pub open spec fn agg_cell(s: Seq<(Seq<char>, DataType)>, a: Agg, g: Seq<Seq<Cell>>) -> Cell {
    match a {
        Agg::Count => Cell::Int(g.len() as int),
        Agg::CountDistinct(n) => Cell::Int(distinct(column_of(g, index_of(s, n@).unwrap())).len() as int),
        Agg::Min(n) => extreme(column_of(g, index_of(s, n@).unwrap()), false),
        Agg::Max(n) => extreme(column_of(g, index_of(s, n@).unwrap()), true),
        Agg::Mean(n) => match mean_millionths(column_of(g, index_of(s, n@).unwrap())) {
            Some(m) => Cell::Float(m),
            None => Cell::Null,
        },
    }
}

/// The output row of the group with key `k`.
pub open spec fn group_row(s: Seq<(Seq<char>, DataType)>, rows: Seq<Seq<Cell>>, c: int, aggs: Seq<Aggregation>, k: Cell) -> Seq<Cell> {
    seq![k] + aggs.map_values(|a: Aggregation| agg_cell(s, a.op, group_of(rows, c, k)))
}

/// Every aggregation fits on every group.
pub open spec fn all_fit(s: Seq<(Seq<char>, DataType)>, rows: Seq<Seq<Cell>>, c: int, aggs: Seq<Aggregation>) -> bool {
    forall|g: int, i: int| 0 <= g < distinct(column_of(rows, c)).len() && 0 <= i < aggs.len()
        ==> #[trigger] agg_fits(s, aggs[i].op, group_of(rows, c, #[trigger] distinct(column_of(rows, c))[g]))
}

/// The rows of `rows` whose column `c` holds the value `k`.
pub fn rows_with_key(rows: &Vec<Vec<Value>>, c: usize, k: &Value) -> (r: Vec<Vec<Value>>)
    requires
        forall|i: int| 0 <= i < rows@.len() ==> c < (#[trigger] rows@[i])@.len(),
    ensures
        rows_view(r@) == group_of(rows_view(rows@), c as int, k@),
        forall|i: int| 0 <= i < r@.len() ==> rows_view(rows@).contains(#[trigger] rows_view(r@)[i]),
{
    let ghost f = |r: Seq<Cell>| r[c as int] == k@;
    let ghost all = rows_view(rows@);
    let mut out: Vec<Vec<Value>> = Vec::new();
    let mut i: usize = 0;
    while i < rows.len()
        invariant
            forall|i: int| 0 <= i < rows@.len() ==> c < (#[trigger] rows@[i])@.len(),
            all == rows_view(rows@),
            f == (|r: Seq<Cell>| r[c as int] == k@),
            i <= rows.len(),
            rows_view(out@) == all.take(i as int).filter(f),
            forall|q: int| 0 <= q < out@.len() ==> all.contains(#[trigger] rows_view(out@)[q]),
        decreases rows.len() - i,
    {
        proof {
            reveal(Seq::filter);
            assert(all[i as int] == row_view(rows@[i as int]));
            assert(all.take(i + 1).drop_last() =~= all.take(i as int));
            assert(all.take(i + 1).last() == all[i as int]);
        }
        if values_equal(&rows[i][c], k) {
            let row = copy_row(&rows[i]);
            let ghost prev = out@;
            out.push(row);
            proof {
                assert(rows_view(out@) =~= rows_view(prev).push(row_view(row)));
                assert(rows_view(out@)[out@.len() - 1] == all[i as int]);
                assert forall|q: int| 0 <= q < out@.len() implies all.contains(#[trigger] rows_view(out@)[q]) by {
                    if q < out@.len() - 1 {
                        assert(rows_view(out@)[q] == rows_view(prev)[q]);
                    }
                }
            }
        }
        i = i + 1;
    }
    proof {
        assert(all.take(i as int) =~= all);
    }
    out
}

/// Extremes of cells of one type have that type.
pub proof fn lemma_extreme_fits(s: Seq<Cell>, largest: bool, t: DataType)
    requires
        forall|i: int| 0 <= i < s.len() ==> crate::value::fits(#[trigger] s[i], t),
    ensures
        crate::value::fits(extreme(s, largest), t),
    decreases s.len(),
{
    if s.len() > 0 {
        lemma_extreme_fits(s.drop_last(), largest, t);
    }
}

/// Computes `agg_cell` of one group; `Overflow` exactly when it does not fit.
fn aggregate(fields: &Vec<Field>, a: &Agg, g: &Vec<Vec<Value>>) -> (r: Result<Value, QueryError>)
    requires
        names_unique(schema_view(fields@)),
        agg_column(*a) matches Some(n) ==> index_of(schema_view(fields@), n).is_some(),
        crate::table::rows_fit(schema_view(fields@), rows_view(g@)),
        a matches Agg::Mean(n) ==> (schema_view(fields@)[index_of(schema_view(fields@), n@).unwrap()].1 == DataType::Integer
            || schema_view(fields@)[index_of(schema_view(fields@), n@).unwrap()].1 == DataType::Float),
    ensures
        r is Ok <==> agg_fits(schema_view(fields@), *a, rows_view(g@)),
        r matches Ok(v) ==> v@ == agg_cell(schema_view(fields@), *a, rows_view(g@)),
        r is Err ==> r == Err::<Value, QueryError>(QueryError::Overflow),
{
    let ghost s = schema_view(fields@);
    proof {
        assert forall|i: int| 0 <= i < g@.len() implies fields@.len() == (#[trigger] g@[i])@.len() by {
            assert(rows_view(g@)[i] == row_view(g@[i]));
        }
    }
    match a {
        Agg::Count => {
            assert(rows_view(g@).len() == g@.len());
            if g.len() as u64 > i64::MAX as u64 {
                return Err(QueryError::Overflow);
            }
            Ok(Value::Int(g.len() as i64))
        },
        Agg::CountDistinct(n) => {
            let c = column_index(fields, n).unwrap();
            let d = distinct_values(&column_values(g, c));
            if d.len() as u64 > i64::MAX as u64 {
                return Err(QueryError::Overflow);
            }
            Ok(Value::Int(d.len() as i64))
        },
        Agg::Min(n) => {
            let c = column_index(fields, n).unwrap();
            Ok(extreme_value(&column_values(g, c), false))
        },
        Agg::Max(n) => {
            let c = column_index(fields, n).unwrap();
            Ok(extreme_value(&column_values(g, c), true))
        },
        Agg::Mean(n) => {
            let c = column_index(fields, n).unwrap();
            let col = column_values(g, c);
            proof {
                let cv = cells_of(col@);
                assert forall|i: int| 0 <= i < cv.len() implies (#[trigger] cv[i] is Null || cv[i] is Int || cv[i] is Float) by {
                    assert(rows_view(g@)[i].len() == s.len());
                    assert(crate::value::fits(rows_view(g@)[i][c as int], s[c as int].1));
                }
                assert(numeric(cv));
            }
            mean_value(&col)
        },
    }
}

/// The output rows of a grouping have the grouped schema's types.
proof fn lemma_group_row_fits(s: Seq<(Seq<char>, DataType)>, rows: Seq<Seq<Cell>>, c: int, aggs: Seq<Aggregation>, kv: Seq<Cell>, q: int)
    requires
        0 <= c < s.len(),
        crate::table::rows_fit(s, rows),
        agg_names_known(s, aggs),
        kv == distinct(column_of(rows, c)),
        0 <= q < kv.len(),
        all_fit(s, rows, c, aggs),
    ensures
        group_row(s, rows, c, aggs, kv[q]).len() == grouped_schema(s, c, aggs).len(),
        forall|j: int| 0 <= j < grouped_schema(s, c, aggs).len() ==> crate::value::fits(
            #[trigger] group_row(s, rows, c, aggs, kv[q])[j], grouped_schema(s, c, aggs)[j].1),
{
    let gs = grouped_schema(s, c, aggs);
    let row = group_row(s, rows, c, aggs, kv[q]);
    let g = group_of(rows, c, kv[q]);
    lemma_distinct_from(column_of(rows, c), q);
    let w = choose|w: int| 0 <= w < rows.len() && column_of(rows, c)[w] == kv[q];
    assert(rows[w].len() == s.len());
    assert(crate::value::fits(rows[w][c], s[c].1));
    assert forall|j: int| 0 <= j < gs.len() implies crate::value::fits(#[trigger] row[j], gs[j].1) by {
        if j > 0 {
            let a = aggs[j - 1];
            assert(agg_fits(s, a.op, group_of(rows, c, kv[q])));
            assert(row[j] == agg_cell(s, a.op, g));
            assert(gs[j] == (a.alias@, agg_type(s, a.op)));
            assert(agg_column(aggs[j - 1].op) matches Some(n) ==> index_of(s, n).is_some());
            lemma_group_fits(rows, c, kv[q], s);
            match a.op {
                Agg::Min(n) => {
                    let k = index_of(s, n@).unwrap();
                    lemma_column_fits(g, k, s);
                    lemma_extreme_fits(column_of(g, k), false, s[k].1);
                },
                Agg::Max(n) => {
                    let k = index_of(s, n@).unwrap();
                    lemma_column_fits(g, k, s);
                    lemma_extreme_fits(column_of(g, k), true, s[k].1);
                },
                _ => {},
            }
        }
    }
}

/// Every value of `distinct(s)` occurs in `s`.
pub proof fn lemma_distinct_from(s: Seq<Cell>, q: int)
    requires
        0 <= q < distinct(s).len(),
    ensures
        exists|w: int| 0 <= w < s.len() && s[w] == distinct(s)[q],
    decreases s.len(),
{
    let d = distinct(s.drop_last());
    if q < d.len() {
        lemma_distinct_from(s.drop_last(), q);
        let w = choose|w: int| 0 <= w < s.drop_last().len() && s.drop_last()[w] == d[q];
        assert(s[w] == distinct(s)[q]);
    } else {
        assert(s[s.len() - 1] == distinct(s)[q]);
    }
}

/// The rows of a group fit the schema.
proof fn lemma_group_fits(rows: Seq<Seq<Cell>>, c: int, k: Cell, s: Seq<(Seq<char>, DataType)>)
    requires
        crate::table::rows_fit(s, rows),
    ensures
        crate::table::rows_fit(s, group_of(rows, c, k)),
    decreases rows.len(),
{
    reveal(Seq::filter);
    if rows.len() > 0 {
        assert(crate::table::rows_fit(s, rows.drop_last())) by {
            assert forall|i: int| 0 <= i < rows.drop_last().len() implies #[trigger] rows.drop_last()[i].len() == s.len() && (forall|j: int|
                0 <= j < s.len() ==> crate::value::fits(#[trigger] rows.drop_last()[i][j], s[j].1)) by {
                assert(rows.drop_last()[i] == rows[i]);
            }
        }
        lemma_group_fits(rows.drop_last(), c, k, s);
        let g = group_of(rows, c, k);
        let g0 = group_of(rows.drop_last(), c, k);
        assert forall|i: int| 0 <= i < g.len() implies #[trigger] g[i].len() == s.len() && (forall|j: int|
            0 <= j < s.len() ==> crate::value::fits(#[trigger] g[i][j], s[j].1)) by {
            if i < g0.len() {
                assert(g[i] == g0[i]);
            } else {
                assert(g[i] == rows[rows.len() - 1]);
            }
        }
    }
}

/// The cells of a column fit its type.
proof fn lemma_column_fits(rows: Seq<Seq<Cell>>, k: int, s: Seq<(Seq<char>, DataType)>)
    requires
        crate::table::rows_fit(s, rows),
        0 <= k < s.len(),
    ensures
        forall|i: int| 0 <= i < rows.len() ==> crate::value::fits(#[trigger] column_of(rows, k)[i], s[k].1),
{
    assert forall|i: int| 0 <= i < rows.len() implies crate::value::fits(#[trigger] column_of(rows, k)[i], s[k].1) by {
        assert(rows[i].len() == s.len());
    }
}

/// Name of output column `p` of a grouping: the key, then the aliases.
pub open spec fn out_name(key: Seq<char>, aggs: Seq<Aggregation>, p: int) -> Seq<char> {
    if p == 0 { key } else { aggs[p - 1].alias@ }
}

fn name_at<'a>(key: &'a Vec<char>, aggs: &'a Vec<Aggregation>, p: usize) -> (r: &'a Vec<char>)
    requires
        p <= aggs@.len(),
    ensures
        r@ == out_name(key@, aggs@, p as int),
{
    if p == 0 { key } else { &aggs[p - 1].alias }
}

/// Whether the key name and the aliases are pairwise different.
fn out_names_unique(key: &Vec<char>, aggs: &Vec<Aggregation>) -> (r: bool)
    ensures
        r == forall|a: int, b: int| 0 <= a < b <= aggs@.len() ==> out_name(key@, aggs@, a) != out_name(key@, aggs@, b),
{
    let m = aggs.len();
    let mut a: usize = 0;
    while a < m
        invariant
            m == aggs@.len(),
            a <= m,
            forall|x: int, y: int| 0 <= x < a && x < y <= m ==> out_name(key@, aggs@, x) != out_name(key@, aggs@, y),
        decreases m - a,
    {
        let mut b: usize = a;
        while b < m
            invariant
                m == aggs@.len(),
                a < m,
                a <= b <= m,
                forall|x: int, y: int| 0 <= x < a && x < y <= m ==> out_name(key@, aggs@, x) != out_name(key@, aggs@, y),
                forall|y: int| a < y <= b ==> out_name(key@, aggs@, a as int) != out_name(key@, aggs@, y),
            decreases m - b,
        {
            let x = name_at(key, aggs, a);
            let y = name_at(key, aggs, b + 1);
            let c = crate::value::compare_chars(x, y);
            proof {
                crate::value::lemma_chars_cmp_zero(x@, y@);
            }
            if c == 0 {
                return false;
            }
            b = b + 1;
        }
        a = a + 1;
    }
    true
}

/// Groups the rows of `t` by the column named `key`: one row per distinct key value,
/// in order of first appearance, holding the key and then each aggregation over the
/// group's rows. `SchemaError` when a column is unknown or two output names clash,
/// `TypeMismatch` when a mean reads a text or boolean column, `Overflow` when a
/// result does not fit in 64 bits.
pub fn group_by(t: &Table, key: &Vec<char>, aggs: &Vec<Aggregation>) -> (r: Result<Table, QueryError>)
    requires
        t.wf(),
    ensures
        (index_of(t.schema(), key@) is None || !agg_names_known(t.schema(), aggs@)) ==> r == Err::<Table, QueryError>(QueryError::SchemaError),
        index_of(t.schema(), key@) matches Some(c) ==> agg_names_known(t.schema(), aggs@) ==> {
            let gs = grouped_schema(t.schema(), c, aggs@);
            let keys = distinct(column_of(t.cells(), c));
            &&& !names_unique(gs) ==> r == Err::<Table, QueryError>(QueryError::SchemaError)
            &&& names_unique(gs) && !agg_types_fit(t.schema(), aggs@) ==> r == Err::<Table, QueryError>(QueryError::TypeMismatch)
            &&& names_unique(gs) && agg_types_fit(t.schema(), aggs@) && !all_fit(t.schema(), t.cells(), c, aggs@)
                ==> r == Err::<Table, QueryError>(QueryError::Overflow)
            &&& names_unique(gs) && agg_types_fit(t.schema(), aggs@) && all_fit(t.schema(), t.cells(), c, aggs@)
                ==> (r matches Ok(o) && o.wf() && o.schema() == gs
                && o.cells() == keys.map_values(|k: Cell| group_row(t.schema(), t.cells(), c, aggs@, k)))
        },
{
    let ghost s = t.schema();
    let c = match column_index(&t.fields, key) {
        Some(c) => c,
        None => return Err(QueryError::SchemaError),
    };
    let m = aggs.len();
    let mut i: usize = 0;
    while i < m
        invariant
            m == aggs@.len(),
            s == t.schema(),
            names_unique(s),
            i <= m,
            forall|j: int| 0 <= j < i ==> (#[trigger] agg_column(aggs@[j].op) matches Some(n) ==> index_of(s, n).is_some()),
        decreases m - i,
    {
        let known = match &aggs[i].op {
            Agg::Count => true,
            Agg::CountDistinct(n) => column_index(&t.fields, n).is_some(),
            Agg::Min(n) => column_index(&t.fields, n).is_some(),
            Agg::Max(n) => column_index(&t.fields, n).is_some(),
            Agg::Mean(n) => column_index(&t.fields, n).is_some(),
        };
        if !known {
            proof {
                assert(!(agg_column(aggs@[i as int].op) matches Some(n) ==> index_of(s, n).is_some()));
            }
            return Err(QueryError::SchemaError);
        }
        i = i + 1;
    }
    let ghost gs = grouped_schema(s, c as int, aggs@);
    proof {
        assert(agg_names_known(s, aggs@));
        assert(s[c as int].0 == key@);
        assert forall|p: int| 0 <= p <= aggs@.len() implies #[trigger] gs[p].0 == out_name(key@, aggs@, p) by {
            if p > 0 {
                assert(gs[p] == (seq![s[c as int]] + aggs@.map_values(|a: Aggregation| (a.alias@, agg_type(s, a.op))))[p]);
            }
        }
    }
    if !out_names_unique(key, aggs) {
        proof {
            let (a, b) = choose|a: int, b: int| 0 <= a < b <= aggs@.len() && out_name(key@, aggs@, a) == out_name(key@, aggs@, b);
            assert(gs[a].0 == gs[b].0);
        }
        return Err(QueryError::SchemaError);
    }
    proof {
        assert forall|a: int, b: int| #![trigger gs[a], gs[b]] 0 <= a < b < gs.len() implies gs[a].0 != gs[b].0 by {
            assert(gs[a].0 == out_name(key@, aggs@, a));
            assert(gs[b].0 == out_name(key@, aggs@, b));
        }
    }
    let mut i: usize = 0;
    while i < m
        invariant
            m == aggs@.len(),
            s == t.schema(),
            names_unique(s),
            agg_names_known(s, aggs@),
            index_of(s, key@) == Some(c as int),
            gs == grouped_schema(s, c as int, aggs@),
            names_unique(gs),
            i <= m,
            forall|j: int| 0 <= j < i ==> (#[trigger] aggs@[j].op matches Agg::Mean(n) ==> (
                s[index_of(s, n@).unwrap()].1 == DataType::Integer || s[index_of(s, n@).unwrap()].1 == DataType::Float)),
        decreases m - i,
    {
        if let Agg::Mean(n) = &aggs[i].op {
            proof {
                assert(agg_column(aggs@[i as int].op) == Some(n@));
            }
            let k = column_index(&t.fields, n).unwrap();
            if !(t.fields[k].dtype == DataType::Integer || t.fields[k].dtype == DataType::Float) {
                proof {
                    assert(agg_names_known(s, aggs@));
                    assert(index_of(s, key@) == Some(c as int));
                    assert(names_unique(gs));
                }
                return Err(QueryError::TypeMismatch);
            }
        }
        i = i + 1;
    }
    proof {
        assert forall|q: int| 0 <= q < t.rows@.len() implies c < (#[trigger] t.rows@[q])@.len() by {
            assert(t.cells()[q] == row_view(t.rows@[q]));
        }
    }
    let keys = distinct_values(&column_values(&t.rows, c));
    let ghost kv = distinct(column_of(t.cells(), c as int));
    proof {
        assert(agg_types_fit(s, aggs@));
    }
    let mut rows: Vec<Vec<Value>> = Vec::new();
    let mut g: usize = 0;
    while g < keys.len()
        invariant
            m == aggs@.len(),
            s == t.schema(),
            t.wf(),
            c < s.len(),
            agg_names_known(s, aggs@),
            agg_types_fit(s, aggs@),
            forall|q: int| 0 <= q < t.rows@.len() ==> c < (#[trigger] t.rows@[q])@.len(),
            index_of(s, key@) == Some(c as int),
            gs == grouped_schema(s, c as int, aggs@),
            names_unique(gs),
            kv == distinct(column_of(t.cells(), c as int)),
            cells_of(keys@) == kv,
            g <= keys@.len(),
            rows@.len() == g,
            forall|q: int| 0 <= q < g ==> row_view(#[trigger] rows@[q]) == group_row(s, t.cells(), c as int, aggs@, kv[q]),
            forall|q: int, j: int| 0 <= q < g && 0 <= j < m ==> #[trigger] agg_fits(s, aggs@[j].op, group_of(t.cells(), c as int, #[trigger] kv[q])),
        decreases keys@.len() - g,
    {
        let grp = rows_with_key(&t.rows, c, &keys[g]);
        proof {
            assert(kv[g as int] == keys@[g as int]@);
            assert forall|q: int| 0 <= q < rows_view(grp@).len() implies #[trigger] rows_view(grp@)[q].len() == s.len() && (forall|j: int|
                0 <= j < s.len() ==> crate::value::fits(#[trigger] rows_view(grp@)[q][j], s[j].1)) by {
                let w = choose|w: int| 0 <= w < t.cells().len() && t.cells()[w] == rows_view(grp@)[q];
                assert(t.cells()[w].len() == s.len());
            }
        }
        let mut row: Vec<Value> = Vec::new();
        row.push(copy_value(&keys[g]));
        let mut j: usize = 0;
        while j < m
            invariant
                m == aggs@.len(),
                s == t.schema(),
                names_unique(s),
                agg_names_known(s, aggs@),
                agg_types_fit(s, aggs@),
                crate::table::rows_fit(s, rows_view(grp@)),
                rows_view(grp@) == group_of(t.cells(), c as int, kv[g as int]),
                index_of(s, key@) == Some(c as int),
                gs == grouped_schema(s, c as int, aggs@),
                names_unique(gs),
                kv == distinct(column_of(t.cells(), c as int)),
                cells_of(keys@) == kv,
                g < keys@.len(),
                j <= m,
                row@.len() == j + 1,
                row@[0]@ == kv[g as int],
                forall|q: int| 0 <= q < j ==> (#[trigger] row@[q + 1])@ == agg_cell(s, aggs@[q].op, rows_view(grp@)),
                forall|q: int| 0 <= q < j ==> #[trigger] agg_fits(s, aggs@[q].op, rows_view(grp@)),
            decreases m - j,
        {
            proof {
                assert(agg_column(aggs@[j as int].op) matches Some(n) ==> index_of(s, n).is_some());
                assert(aggs@[j as int].op matches Agg::Mean(n) ==> (
                    s[index_of(s, n@).unwrap()].1 == DataType::Integer || s[index_of(s, n@).unwrap()].1 == DataType::Float));
            }
            let v = match aggregate(&t.fields, &aggs[j].op, &grp) {
                Ok(v) => v,
                Err(e) => {
                    proof {
                        assert(!agg_fits(s, aggs@[j as int].op, group_of(t.cells(), c as int, kv[g as int])));
                        assert(kv.len() == keys@.len());
                        assert(0 <= g < distinct(column_of(t.cells(), c as int)).len());
                        assert(!all_fit(s, t.cells(), c as int, aggs@));
                        assert(agg_names_known(s, aggs@));
                        assert(index_of(s, key@) == Some(c as int));
                        assert(names_unique(gs));
                        assert(agg_types_fit(s, aggs@));
                    }
                    return Err(e);
                },
            };
            row.push(v);
            j = j + 1;
        }
        proof {
            let want = group_row(s, t.cells(), c as int, aggs@, kv[g as int]);
            assert forall|q: int| 0 <= q < row@.len() implies #[trigger] row_view(row)[q] == want[q] by {
                if q > 0 {
                    assert(row@[(q - 1) + 1]@ == agg_cell(s, aggs@[q - 1].op, rows_view(grp@)));
                }
            }
            assert(row_view(row) =~= want);
        }
        rows.push(row);
        g = g + 1;
    }
    let mut fields: Vec<Field> = Vec::new();
    fields.push(Field { name: copy_chars(&t.fields[c].name), dtype: t.fields[c].dtype });
    let mut j: usize = 0;
    while j < m
        invariant
            m == aggs@.len(),
            s == t.schema(),
            names_unique(s),
            c < s.len(),
            agg_names_known(s, aggs@),
            index_of(s, key@) == Some(c as int),
            gs == grouped_schema(s, c as int, aggs@),
            names_unique(gs),
                        j <= m,
            fields@.len() == j + 1,
            forall|q: int| 0 <= q < j + 1 ==> (#[trigger] schema_view(fields@)[q]) == gs[q],
        decreases m - j,
    {
        proof {
            assert(agg_column(aggs@[j as int].op) matches Some(n) ==> index_of(s, n).is_some());
        }
        let dtype = match &aggs[j].op {
            Agg::Count => DataType::Integer,
            Agg::CountDistinct(_) => DataType::Integer,
            Agg::Min(n) => t.fields[column_index(&t.fields, n).unwrap()].dtype,
            Agg::Max(n) => t.fields[column_index(&t.fields, n).unwrap()].dtype,
            Agg::Mean(_) => DataType::Float,
        };
        let ghost prevf = fields@;
        fields.push(Field { name: copy_chars(&aggs[j].alias), dtype });
        proof {
            assert(gs[j + 1] == aggs@.map_values(|a: Aggregation| (a.alias@, agg_type(s, a.op)))[j as int]);
            assert(schema_view(fields@)[j + 1] == gs[j + 1]);
            assert forall|q: int| 0 <= q < j + 1 implies (#[trigger] schema_view(fields@)[q]) == gs[q] by {
                assert(fields@[q] == prevf[q]);
                assert(schema_view(prevf)[q] == gs[q]);
            }
        }
        j = j + 1;
    }
    let o = Table { fields, rows };
    proof {
        assert(agg_names_known(s, aggs@));
        assert(index_of(s, key@) == Some(c as int));
        assert(names_unique(gs));
        assert(agg_types_fit(s, aggs@));
        assert(o.schema() =~= gs);
        assert forall|q: int| 0 <= q < o.cells().len() implies #[trigger] o.cells()[q].len() == gs.len() && (forall|j: int|
            0 <= j < gs.len() ==> crate::value::fits(#[trigger] o.cells()[q][j], gs[j].1)) by {
            lemma_group_row_fits(s, t.cells(), c as int, aggs@, kv, q);
            assert(o.cells()[q] == row_view(o.rows@[q]));
        }
        assert(o.cells() =~= kv.map_values(|k: Cell| group_row(s, t.cells(), c as int, aggs@, k)));
    }
    Ok(o)
}

} // verus!
