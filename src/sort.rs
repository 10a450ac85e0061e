//! Stable sorting of a table by one column.
use vstd::prelude::*;
use crate::error::QueryError;
use crate::value::Value;
use crate::table::{Field, Table, column_index, copy_fields, copy_row, index_of, row_view, rows_fit, schema_view};
use crate::value::{Cell, DataType, compare_keys, key_cmp, lemma_key_order};
use crate::predicate::{all_known, names_of};

verus! {

/// Lexicographic order of two rows on the columns `cols`, each by `key_cmp`.
pub open spec fn rows_cmp(a: Seq<Cell>, b: Seq<Cell>, cols: Seq<int>, desc: bool) -> int
    decreases cols.len(),
{
    if cols.len() == 0 {
        0
    } else {
        let c = key_cmp(a[cols[0]], b[cols[0]], desc);
        if c != 0 { c } else { rows_cmp(a, b, cols.drop_first(), desc) }
    }
}

/// Row `i` goes before row `j` in a stable sort: its key is smaller, or the keys
/// are equal and it came first.
pub open spec fn goes_before(rows: Seq<Seq<Cell>>, cols: Seq<int>, desc: bool, i: int, j: int) -> bool {
    rows_cmp(rows[i], rows[j], cols, desc) < 0 || (rows_cmp(rows[i], rows[j], cols, desc) == 0 && i < j)
}

/// `idx` lists the positions of `rows` once each, in stable sorted order.
pub open spec fn stable_order(rows: Seq<Seq<Cell>>, cols: Seq<int>, desc: bool, idx: Seq<int>) -> bool {
    &&& idx.len() == rows.len()
    &&& forall|k: int| 0 <= k < idx.len() ==> 0 <= #[trigger] idx[k] < rows.len()
    &&& forall|a: int, b: int| #![trigger idx[a], idx[b]] 0 <= a < b < idx.len() ==> idx[a] != idx[b]
    &&& forall|a: int, b: int| #![trigger idx[a], idx[b]] 0 <= a < b < idx.len() ==> goes_before(rows, cols, desc, idx[a], idx[b])
}

/// Column `c` of the rows.
pub open spec fn column_of(rows: Seq<Seq<Cell>>, c: int) -> Seq<Cell> {
    rows.map_values(|r: Seq<Cell>| r[c])
}

/// `out` is `rows` sorted stably on the columns `cols`.
pub open spec fn sorted_stably(rows: Seq<Seq<Cell>>, cols: Seq<int>, desc: bool, out: Seq<Seq<Cell>>) -> bool {
    exists|idx: Seq<int>|
        stable_order(rows, cols, desc, idx) && out == idx.map_values(|i: int| rows[i])
}

/// Positions of the named columns.
pub open spec fn column_positions(s: Seq<(Seq<char>, DataType)>, names: Seq<Seq<char>>) -> Seq<int> {
    names.map_values(|n: Seq<char>| index_of(s, n).unwrap())
}

/// On rows of one schema, `rows_cmp` is a total order.
pub proof fn lemma_rows_order(a: Seq<Cell>, b: Seq<Cell>, c: Seq<Cell>, cols: Seq<int>, s: Seq<(Seq<char>, DataType)>, desc: bool)
    requires
        crate::expr::row_fits(s, a),
        crate::expr::row_fits(s, b),
        crate::expr::row_fits(s, c),
        forall|k: int| 0 <= k < cols.len() ==> 0 <= #[trigger] cols[k] < s.len(),
    ensures
        rows_cmp(a, b, cols, desc) == -rows_cmp(b, a, cols, desc),
        rows_cmp(a, b, cols, desc) <= 0 && rows_cmp(b, c, cols, desc) <= 0 ==> rows_cmp(a, c, cols, desc) <= 0,
        rows_cmp(a, b, cols, desc) <= 0 && rows_cmp(b, c, cols, desc) < 0 ==> rows_cmp(a, c, cols, desc) < 0,
        rows_cmp(a, b, cols, desc) < 0 && rows_cmp(b, c, cols, desc) <= 0 ==> rows_cmp(a, c, cols, desc) < 0,
    decreases cols.len(),
{
    if cols.len() > 0 {
        let k = cols[0];
        assert(0 <= k < s.len());
        lemma_key_order(a[k], b[k], c[k], s[k].1, desc);
        lemma_key_order(b[k], a[k], c[k], s[k].1, desc);
        lemma_key_order(a[k], c[k], b[k], s[k].1, desc);
        lemma_rows_order(a, b, c, cols.drop_first(), s, desc);
    }
}

/// Compares two rows on the columns `cols`; see `rows_cmp`.
pub fn compare_rows(a: &Vec<Value>, b: &Vec<Value>, cols: &Vec<usize>, desc: bool) -> (r: i8)
    requires
        forall|k: int| 0 <= k < cols@.len() ==> #[trigger] cols@[k] < a@.len() && cols@[k] < b@.len(),
    ensures
        r as int == rows_cmp(row_view(*a), row_view(*b), cols@.map_values(|c: usize| c as int), desc),
{
    let ghost cs = cols@.map_values(|c: usize| c as int);
    let mut k: usize = 0;
    proof {
        assert(cs.skip(0) =~= cs);
    }
    while k < cols.len()
        invariant
            forall|k: int| 0 <= k < cols@.len() ==> #[trigger] cols@[k] < a@.len() && cols@[k] < b@.len(),
            cs == cols@.map_values(|c: usize| c as int),
            k <= cols@.len(),
            rows_cmp(row_view(*a), row_view(*b), cs, desc) == rows_cmp(row_view(*a), row_view(*b), cs.skip(k as int), desc),
        decreases cols.len() - k,
    {
        let c = cols[k];
        let r = compare_keys(&a[c], &b[c], desc);
        proof {
            assert(cs.skip(k as int).drop_first() =~= cs.skip(k + 1));
            assert(cs.skip(k as int)[0] == c as int);
            assert(row_view(*a)[c as int] == a@[c as int]@);
            assert(row_view(*b)[c as int] == b@[c as int]@);
        }
        if r != 0 {
            return r;
        }
        k = k + 1;
    }
    0
}

/// Finds the positions of the named columns.
pub fn resolve_columns(fields: &Vec<Field>, names: &Vec<Vec<char>>) -> (r: Option<Vec<usize>>)
    requires
        crate::table::names_unique(schema_view(fields@)),
    ensures
        all_known(schema_view(fields@), names_of(names@)) ==> (r matches Some(cs)
            && cs@.map_values(|c: usize| c as int) == column_positions(schema_view(fields@), names_of(names@))
            && forall|k: int| 0 <= k < cs@.len() ==> #[trigger] cs@[k] < fields@.len()),
        !all_known(schema_view(fields@), names_of(names@)) ==> r is None,
{
    let ghost s = schema_view(fields@);
    let mut out: Vec<usize> = Vec::new();
    let mut i: usize = 0;
    while i < names.len()
        invariant
            s == schema_view(fields@),
            crate::table::names_unique(s),
            i <= names@.len(),
            out@.len() == i,
            forall|q: int| 0 <= q < i ==> index_of(s, #[trigger] names_of(names@)[q]) == Some((out@[q]) as int),
            forall|k: int| 0 <= k < i ==> #[trigger] out@[k] < fields@.len(),
        decreases names.len() - i,
    {
        proof {
            assert(names_of(names@)[i as int] == names@[i as int]@);
        }
        match column_index(fields, &names[i]) {
            Some(c) => out.push(c),
            None => {
                return None;
            },
        }
        i = i + 1;
    }
    proof {
        let ov = out@.map_values(|c: usize| c as int);
        let want = column_positions(s, names_of(names@));
        assert forall|q: int| 0 <= q < out@.len() implies #[trigger] ov[q] == want[q] by {
            assert(index_of(s, names_of(names@)[q]) == Some((out@[q]) as int));
        }
        assert(ov =~= want);
    }
    Some(out)
}

/// Sorts the rows of `t` on the columns named `by`, the first deciding and each
/// next one breaking ties, ascending or descending, nulls last; rows with equal
/// keys keep their order. `SchemaError` when `t` lacks one of the columns.
pub fn sort(t: &Table, by: &Vec<Vec<char>>, descending: bool) -> (r: Result<Table, QueryError>)
    requires
        t.wf(),
    ensures
        !all_known(t.schema(), names_of(by@)) ==> r == Err::<Table, QueryError>(QueryError::SchemaError),
        all_known(t.schema(), names_of(by@)) ==> (r matches Ok(o) && o.wf() && o.schema() == t.schema()
            && sorted_stably(t.cells(), column_positions(t.schema(), names_of(by@)), descending, o.cells())),
{
    let cols = match resolve_columns(&t.fields, by) {
        Some(c) => c,
        None => return Err(QueryError::SchemaError),
    };
    let ghost s = t.schema();
    let ghost cs = cols@.map_values(|c: usize| c as int);
    let ghost rows = t.cells();
    let n = t.rows.len();
    proof {
        assert forall|k: int| 0 <= k < cs.len() implies 0 <= #[trigger] cs[k] < s.len() by {
            assert(cs[k] == cols@[k] as int);
        }
        assert forall|q: int| 0 <= q < n implies crate::expr::row_fits(s, #[trigger] rows[q]) by {
            assert(rows[q].len() == s.len());
        }
        assert forall|q: int| 0 <= q < n implies (#[trigger] t.rows@[q])@.len() == s.len() by {
            assert(rows[q] == row_view(t.rows@[q]));
        }
    }
    let mut idx: Vec<usize> = Vec::new();
    let mut m: usize = 0;
    while m < n
        invariant
            n == rows.len(),
            n == t.rows@.len(),
            rows == t.cells(),
            cs == cols@.map_values(|c: usize| c as int),
            forall|k: int| 0 <= k < cs.len() ==> 0 <= #[trigger] cs[k] < s.len(),
            forall|k: int| 0 <= k < cols@.len() ==> #[trigger] cols@[k] < s.len(),
            forall|q: int| 0 <= q < n ==> crate::expr::row_fits(s, #[trigger] rows[q]),
            forall|q: int| 0 <= q < n ==> (#[trigger] t.rows@[q])@.len() == s.len(),
            m <= n,
            idx@.len() == m,
            forall|k: int| 0 <= k < m ==> #[trigger] idx@[k] < m,
            forall|a: int, b: int| #![trigger idx@[a], idx@[b]] 0 <= a < b < m ==> idx@[a] != idx@[b],
            forall|a: int, b: int| #![trigger idx@[a], idx@[b]]
                0 <= a < b < m ==> goes_before(rows, cs, descending, idx@[a] as int, idx@[b] as int),
        decreases n - m,
    {
        let mut p: usize = 0;
        while p < m
            invariant
                n == rows.len(),
                n == t.rows@.len(),
                rows == t.cells(),
                cs == cols@.map_values(|c: usize| c as int),
                forall|k: int| 0 <= k < cols@.len() ==> #[trigger] cols@[k] < s.len(),
                forall|q: int| 0 <= q < n ==> (#[trigger] t.rows@[q])@.len() == s.len(),
                m < n,
                idx@.len() == m,
                forall|k: int| 0 <= k < m ==> #[trigger] idx@[k] < m,
                p <= m,
                forall|q: int| 0 <= q < p ==> rows_cmp(rows[#[trigger] idx@[q] as int], rows[m as int], cs, descending) <= 0,
            ensures
                p <= m,
                forall|q: int| 0 <= q < p ==> rows_cmp(rows[#[trigger] idx@[q] as int], rows[m as int], cs, descending) <= 0,
                p < m ==> rows_cmp(rows[idx@[p as int] as int], rows[m as int], cs, descending) > 0,
            decreases m - p,
        {
            proof {
                assert(rows[idx@[p as int] as int] == row_view(t.rows@[idx@[p as int] as int]));
                assert(rows[m as int] == row_view(t.rows@[m as int]));
                assert((t.rows@[idx@[p as int] as int])@.len() == s.len());
                assert((t.rows@[m as int])@.len() == s.len());
            }
            if compare_rows(&t.rows[idx[p]], &t.rows[m], &cols, descending) > 0 {
                break;
            }
            p = p + 1;
        }
        let ghost prev = idx@;
        idx.insert(p, m);
        proof {
            let km = rows[m as int];
            assert forall|a: int, b: int| #![trigger idx@[a], idx@[b]]
                0 <= a < b < m + 1 implies goes_before(rows, cs, descending, idx@[a] as int, idx@[b] as int) by {
                if a < p && b == p {
                    lemma_rows_order(rows[prev[a] as int], km, km, cs, s, descending);
                } else if a == p && b > p {
                    let q = prev[b - 1] as int;
                    let pp = prev[p as int] as int;
                    lemma_rows_order(rows[pp], rows[q], km, cs, s, descending);
                    lemma_rows_order(km, rows[q], rows[pp], cs, s, descending);
                    if b - 1 > p {
                        assert(goes_before(rows, cs, descending, prev[p as int] as int, prev[b - 1] as int));
                    }
                } else if a < p && b < p {
                    assert(idx@[a] == prev[a] && idx@[b] == prev[b]);
                } else if a < p {
                    assert(idx@[a] == prev[a] && idx@[b] == prev[b - 1]);
                } else {
                    assert(idx@[a] == prev[a - 1] && idx@[b] == prev[b - 1]);
                }
            }
            assert forall|a: int, b: int| #![trigger idx@[a], idx@[b]] 0 <= a < b < m + 1 implies idx@[a] != idx@[b] by {
                if a < p && b < p {
                    assert(idx@[a] == prev[a] && idx@[b] == prev[b]);
                } else if a < p && b > p {
                    assert(idx@[a] == prev[a] && idx@[b] == prev[b - 1]);
                } else if a > p {
                    assert(idx@[a] == prev[a - 1] && idx@[b] == prev[b - 1]);
                } else if a == p {
                    assert(idx@[b] == prev[b - 1]);
                } else {
                    assert(idx@[a] == prev[a]);
                }
            }
            assert forall|k: int| 0 <= k < m + 1 implies #[trigger] idx@[k] < m + 1 by {
                if k < p {
                    assert(idx@[k] == prev[k]);
                } else if k > p {
                    assert(idx@[k] == prev[k - 1]);
                }
            }
        }
        m = m + 1;
    }
    let mut out: Vec<Vec<Value>> = Vec::new();
    let mut k: usize = 0;
    while k < n
        invariant
            n == t.cells().len(),
            idx@.len() == n,
            forall|q: int| 0 <= q < n ==> #[trigger] idx@[q] < n,
            k <= n,
            out@.len() == k,
            forall|q: int| 0 <= q < k ==> row_view(#[trigger] out@[q]) == t.cells()[idx@[q] as int],
        decreases n - k,
    {
        proof {
            assert(t.cells()[idx@[k as int] as int] == row_view(t.rows@[idx@[k as int] as int]));
        }
        out.push(copy_row(&t.rows[idx[k]]));
        k = k + 1;
    }
    let o = Table { fields: copy_fields(&t.fields), rows: out };
    proof {
        let ix = idx@.map_values(|i: usize| i as int);
        assert(stable_order(rows, cs, descending, ix)) by {
            assert forall|a: int, b: int| #![trigger ix[a], ix[b]] 0 <= a < b < ix.len() implies goes_before(rows, cs, descending, ix[a], ix[b]) by {
                assert(idx@[a] as int == ix[a] && idx@[b] as int == ix[b]);
            }
            assert forall|a: int, b: int| #![trigger ix[a], ix[b]] 0 <= a < b < ix.len() implies ix[a] != ix[b] by {
                assert(idx@[a] as int == ix[a] && idx@[b] as int == ix[b]);
            }
        }
        assert(o.cells() =~= ix.map_values(|i: int| t.cells()[i]));
        assert forall|a: int| 0 <= a < o.cells().len() implies rows_fit(t.schema(), seq![#[trigger] o.cells()[a]]) by {
            assert(o.cells()[a] == t.cells()[ix[a]]);
        }
    }
    Ok(o)
}

} // verus!
