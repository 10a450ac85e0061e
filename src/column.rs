//! Computations over one column: distinct values, extremes and the mean.
use vstd::prelude::*;
use crate::error::QueryError;
use crate::table::{row_view, rows_view};
use crate::value::{Cell, DataType, SCALE, Value, compare, copy_value, value_cmp, values_equal};

verus! {

/// The distinct values of `s` in order of first appearance (nulls count as one value).
pub open spec fn distinct(s: Seq<Cell>) -> Seq<Cell>
    decreases s.len(),
{
    if s.len() == 0 {
        Seq::empty()
    } else {
        let d = distinct(s.drop_last());
        if d.contains(s.last()) { d } else { d.push(s.last()) }
    }
}

/// The smallest (or, with `largest`, the largest) non-null value; null when there is none.
pub open spec fn extreme(s: Seq<Cell>, largest: bool) -> Cell
    decreases s.len(),
{
    if s.len() == 0 {
        Cell::Null
    } else {
        let m = extreme(s.drop_last(), largest);
        let x = s.last();
        if x is Null {
            m
        } else if m is Null {
            x
        } else {
            match value_cmp(x, m) {
                Some(c) => if (largest && c > 0) || (!largest && c < 0) { x } else { m },
                None => m,
            }
        }
    }
}

/// A numeric cell in millionths; 0 for the others.
pub open spec fn millionths(c: Cell) -> int {
    match c {
        Cell::Int(x) => x * SCALE,
        Cell::Float(x) => x,
        _ => 0,
    }
}

/// Sum, in millionths, of the non-null numeric cells.
pub open spec fn sum_millionths(s: Seq<Cell>) -> int
    decreases s.len(),
{
    if s.len() == 0 { 0 } else { sum_millionths(s.drop_last()) + millionths(s.last()) }
}

/// Number of non-null cells.
pub open spec fn count_present(s: Seq<Cell>) -> int
    decreases s.len(),
{
    if s.len() == 0 { 0 } else { count_present(s.drop_last()) + if s.last() is Null { 0int } else { 1int } }
}

pub open spec fn abs(a: int) -> int {
    if a >= 0 { a } else { -a }
}

/// Integer division rounded toward zero.
pub open spec fn div_toward_zero(a: int, b: int) -> int {
    let q = abs(a) / abs(b);
    if (a >= 0) == (b >= 0) { q } else { -q }
}

/// The mean of the non-null cells of a numeric column, in millionths, rounded toward
/// zero; `None` when there is none.
pub open spec fn mean_millionths(s: Seq<Cell>) -> Option<int> {
    if count_present(s) == 0 {
        None
    } else {
        Some(div_toward_zero(sum_millionths(s), count_present(s)))
    }
}

/// A column holds only nulls, integers and floats.
pub open spec fn numeric(s: Seq<Cell>) -> bool {
    forall|i: int| 0 <= i < s.len() ==> (#[trigger] s[i] is Null || s[i] is Int || s[i] is Float)
}

/// The cells of a vector of values.
pub open spec fn cells_of(v: Seq<Value>) -> Seq<Cell> {
    v.map_values(|x: Value| x@)
}

/// Column `c` of `rows`.
pub fn column_values(rows: &Vec<Vec<Value>>, c: usize) -> (r: Vec<Value>)
    requires
        forall|i: int| 0 <= i < rows@.len() ==> c < (#[trigger] rows@[i])@.len(),
    ensures
        cells_of(r@) == crate::sort::column_of(rows_view(rows@), c as int),
{
    let mut r: Vec<Value> = Vec::new();
    let mut i: usize = 0;
    while i < rows.len()
        invariant
            forall|i: int| 0 <= i < rows@.len() ==> c < (#[trigger] rows@[i])@.len(),
            i <= rows.len(),
            r@.len() == i,
            forall|j: int| 0 <= j < i ==> (#[trigger] r@[j])@ == rows@[j]@[c as int]@,
        decreases rows.len() - i,
    {
        r.push(copy_value(&rows[i][c]));
        i = i + 1;
    }
    proof {
        let cv = crate::sort::column_of(rows_view(rows@), c as int);
        assert forall|j: int| 0 <= j < r@.len() implies #[trigger] cells_of(r@)[j] == cv[j] by {
            assert(rows_view(rows@)[j] == row_view(rows@[j]));
        }
        assert(cells_of(r@) =~= cv);
    }
    r
}

/// The distinct values of a column; see `distinct`.
pub fn distinct_values(v: &Vec<Value>) -> (r: Vec<Value>)
    ensures
        cells_of(r@) == distinct(cells_of(v@)),
{
    let mut r: Vec<Value> = Vec::new();
    let mut i: usize = 0;
    while i < v.len()
        invariant
            i <= v.len(),
            cells_of(r@) == distinct(cells_of(v@).take(i as int)),
        decreases v.len() - i,
    {
        let ghost s = cells_of(v@).take(i + 1);
        proof {
            assert(s.drop_last() =~= cells_of(v@).take(i as int));
            assert(s.last() == v@[i as int]@);
        }
        let mut j: usize = 0;
        let mut seen = false;
        while j < r.len()
            invariant_except_break
                !seen,
            invariant
                i < v.len(),
                j <= r.len(),
                forall|q: int| 0 <= q < j ==> (#[trigger] r@[q])@ != v@[i as int]@,
            ensures
                seen ==> cells_of(r@).contains(v@[i as int]@),
                !seen ==> forall|q: int| 0 <= q < r@.len() ==> (#[trigger] r@[q])@ != v@[i as int]@,
            decreases r.len() - j,
        {
            if values_equal(&r[j], &v[i]) {
                seen = true;
                proof {
                    assert(cells_of(r@)[j as int] == v@[i as int]@);
                }
                break;
            }
            j = j + 1;
        }
        proof {
            if !seen {
                assert(!cells_of(r@).contains(v@[i as int]@)) by {
                    if cells_of(r@).contains(v@[i as int]@) {
                        let q = choose|q: int| 0 <= q < cells_of(r@).len() && cells_of(r@)[q] == v@[i as int]@;
                        assert(r@[q]@ == cells_of(r@)[q]);
                    }
                }
            }
        }
        if !seen {
            let x = copy_value(&v[i]);
            let ghost prev = r@;
            r.push(x);
            proof {
                assert(cells_of(r@) =~= cells_of(prev).push(x@));
            }
        }
        i = i + 1;
    }
    proof {
        assert(cells_of(v@).take(i as int) =~= cells_of(v@));
    }
    r
}

/// The smallest (or largest) non-null value of a column; see `extreme`.
pub fn extreme_value(v: &Vec<Value>, largest: bool) -> (r: Value)
    ensures
        r@ == extreme(cells_of(v@), largest),
{
    let mut m = Value::Null;
    let mut i: usize = 0;
    while i < v.len()
        invariant
            i <= v.len(),
            m@ == extreme(cells_of(v@).take(i as int), largest),
        decreases v.len() - i,
    {
        let ghost s = cells_of(v@).take(i + 1);
        proof {
            assert(s.drop_last() =~= cells_of(v@).take(i as int));
            assert(s.last() == v@[i as int]@);
        }
        if matches!(v[i], Value::Null) {
        } else if matches!(m, Value::Null) {
            m = copy_value(&v[i]);
        } else {
            match compare(&v[i], &m) {
                Some(c) => {
                    if (largest && c > 0) || (!largest && c < 0) {
                        m = copy_value(&v[i]);
                    }
                },
                None => {},
            }
        }
        i = i + 1;
    }
    proof {
        assert(cells_of(v@).take(i as int) =~= cells_of(v@));
    }
    m
}

/// The mean of a numeric column, as a float cell (null when no cell is present);
/// `TypeMismatch` when the column holds text or booleans, `Overflow` when a partial
/// sum leaves the 128-bit range or the mean leaves the 64-bit range.
pub fn mean_value(v: &Vec<Value>) -> (r: Result<Value, QueryError>)
    ensures
        !numeric(cells_of(v@)) ==> r == Err::<Value, QueryError>(QueryError::TypeMismatch),
        r is Ok ==> sums_fit(cells_of(v@)) && (mean_millionths(cells_of(v@)) matches Some(m) ==> i64::MIN <= m <= i64::MAX),
        numeric(cells_of(v@)) && r is Ok ==> r->Ok_0@ == match mean_millionths(cells_of(v@)) {
            Some(m) => Cell::Float(m),
            None => Cell::Null,
        },
        numeric(cells_of(v@)) && r is Err ==> r == Err::<Value, QueryError>(QueryError::Overflow)
            && (!sums_fit(cells_of(v@)) || !(mean_millionths(cells_of(v@)) matches Some(m) ==> i64::MIN <= m <= i64::MAX)),
        numeric(cells_of(v@)) && sums_fit(cells_of(v@)) && (mean_millionths(cells_of(v@)) matches Some(m) ==> i64::MIN <= m <= i64::MAX) ==> r is Ok,
{
    let mut i: usize = 0;
    while i < v.len()
        invariant
            i <= v.len(),
            forall|q: int| 0 <= q < i ==> (#[trigger] cells_of(v@)[q] is Null || cells_of(v@)[q] is Int || cells_of(v@)[q] is Float),
        decreases v.len() - i,
    {
        match &v[i] {
            Value::Null | Value::Int(_) | Value::Float(_) => {},
            _ => {
                proof {
                    assert(!(cells_of(v@)[i as int] is Null || cells_of(v@)[i as int] is Int || cells_of(v@)[i as int] is Float));
                }
                return Err(QueryError::TypeMismatch);
            },
        }
        i = i + 1;
    }
    proof {
        assert(numeric(cells_of(v@)));
        assert(cells_of(v@).take(0) =~= Seq::<Cell>::empty());
    }
    let mut sum: i128 = 0;
    let mut count: u64 = 0;
    let mut i: usize = 0;
    while i < v.len()
        invariant
            i <= v.len(),
            v@.len() <= usize::MAX,
            numeric(cells_of(v@)),
            sum == sum_millionths(cells_of(v@).take(i as int)),
            count == count_present(cells_of(v@).take(i as int)),
            count <= i,
            forall|k: int| 0 <= k <= i ==> #[trigger] prefix_fits(cells_of(v@), k),
        decreases v.len() - i,
    {
        let ghost s = cells_of(v@).take(i + 1);
        proof {
            assert(s.drop_last() =~= cells_of(v@).take(i as int));
            assert(s.last() == v@[i as int]@);
        }
        let add: i128 = match &v[i] {
            Value::Int(x) => crate::value::scaled(*x),
            Value::Float(x) => *x as i128,
            _ => 0,
        };
        match sum.checked_add(add) {
            Some(s2) if s2 != i128::MIN => {
                sum = s2;
            },
            _ => {
                proof {
                    assert(!prefix_fits(cells_of(v@), i + 1));
                }
                return Err(QueryError::Overflow);
            },
        }
        if !matches!(v[i], Value::Null) {
            count = count + 1;
        }
        i = i + 1;
        proof {
            assert(prefix_fits(cells_of(v@), i as int));
        }
    }
    proof {
        assert(cells_of(v@).take(i as int) =~= cells_of(v@));
    }
    proof {
        assert(prefix_fits(cells_of(v@), i as int));
    }
    if count == 0 {
        return Ok(Value::Null);
    }
    let c = count as i128;
    let q: i128 = if sum >= 0 { sum / c } else { -((-sum) / c) };
    if q < i64::MIN as i128 || q > i64::MAX as i128 {
        return Err(QueryError::Overflow);
    }
    Ok(Value::Float(q as i64))
}

/// The sum of the first `k` cells stays within the 128-bit range.
pub open spec fn prefix_fits(s: Seq<Cell>, k: int) -> bool {
    -i128::MAX <= sum_millionths(s.take(k)) <= i128::MAX
}

/// Every partial sum of the cells stays within the 128-bit range.
pub open spec fn sums_fit(s: Seq<Cell>) -> bool {
    forall|k: int| 0 <= k <= s.len() ==> #[trigger] prefix_fits(s, k)
}

/// A float cell plus 3.0; `None` when the sum does not fit.
pub open spec fn plus_three(c: Cell) -> Option<Cell> {
    match c {
        Cell::Float(m) => if m + 3 * SCALE <= i64::MAX { Some(Cell::Float(m + 3 * SCALE)) } else { None },
        _ => Some(c),
    }
}

/// Adds 3.0 to every value of a float column (nulls stay null). `TypeMismatch` when
/// the column is not of float type; `Overflow` when a sum does not fit.
pub fn add_3(dtype: DataType, v: &Vec<Value>) -> (r: Result<Vec<Value>, QueryError>)
    requires
        forall|i: int| 0 <= i < v@.len() ==> crate::value::fits(#[trigger] v@[i]@, dtype),
    ensures
        dtype != DataType::Float ==> r == Err::<Vec<Value>, QueryError>(QueryError::TypeMismatch),
        dtype == DataType::Float && (forall|i: int| 0 <= i < v@.len() ==> #[trigger] plus_three(v@[i]@) is Some) ==> (r matches Ok(o)
            && cells_of(o@) == cells_of(v@).map_values(|c: Cell| plus_three(c).unwrap())),
        dtype == DataType::Float && !(forall|i: int| 0 <= i < v@.len() ==> #[trigger] plus_three(v@[i]@) is Some)
            ==> r == Err::<Vec<Value>, QueryError>(QueryError::Overflow),
{
    if dtype != DataType::Float {
        return Err(QueryError::TypeMismatch);
    }
    let mut out: Vec<Value> = Vec::new();
    let mut i: usize = 0;
    while i < v.len()
        invariant
            dtype == DataType::Float,
            forall|i: int| 0 <= i < v@.len() ==> crate::value::fits(#[trigger] v@[i]@, dtype),
            i <= v.len(),
            out@.len() == i,
            forall|q: int| 0 <= q < i ==> plus_three(v@[q]@) == Some((#[trigger] out@[q])@),
        decreases v.len() - i,
    {
        let x = match &v[i] {
            Value::Float(m) => {
                if *m > i64::MAX - 3_000_000 {
                    proof {
                        assert(plus_three(v@[i as int]@) is None);
                    }
                    return Err(QueryError::Overflow);
                }
                Value::Float(*m + 3_000_000)
            },
            other => {
                proof {
                    assert(crate::value::fits(v@[i as int]@, dtype));
                }
                copy_value(other)
            },
        };
        out.push(x);
        i = i + 1;
    }
    proof {
        assert forall|q: int| 0 <= q < v@.len() implies #[trigger] plus_three(v@[q]@) is Some by {
            assert(plus_three(v@[q]@) == Some(out@[q]@));
        }
        assert(cells_of(out@) =~= cells_of(v@).map_values(|c: Cell| plus_three(c).unwrap())) by {
            assert forall|q: int| 0 <= q < out@.len() implies #[trigger] cells_of(out@)[q] == cells_of(v@).map_values(|c: Cell| plus_three(c).unwrap())[q] by {
                assert(plus_three(v@[q]@) == Some(out@[q]@));
            }
        }
    }
    Ok(out)
}

} // verus!
