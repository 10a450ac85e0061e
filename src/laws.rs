//! Laws that relate several calls of the library.
use vstd::prelude::*;
use crate::predicate::{Predicate, passes};
use crate::table::Table;
use crate::value::Cell;
use crate::column::distinct;
use crate::group::group_of;
use crate::sort::{column_of, goes_before, rows_cmp, stable_order};

verus! {

/// Keeping the rows of a sequence that satisfy `f`, twice, keeps the same rows as once.
pub proof fn lemma_filter_twice(s: Seq<Seq<Cell>>, f: spec_fn(Seq<Cell>) -> bool)
    ensures
        s.filter(f).filter(f) == s.filter(f),
    decreases s.len(),
{
    reveal(Seq::filter);
    if s.len() > 0 {
        lemma_filter_twice(s.drop_last(), f);
        let sub = s.drop_last().filter(f);
        if f(s.last()) {
            assert(sub.push(s.last()).drop_last() =~= sub);
        }
    }
}

/// Filtering is idempotent: filtering the result of `filter(t, p)` by `p` again
/// gives the same rows (the schema is unchanged by either call).
pub proof fn filter_idempotent(t: Table, p: Predicate)
    ensures
        t.cells().filter(passes(t.schema(), p)).filter(passes(t.schema(), p)) == t.cells().filter(
            passes(t.schema(), p),
        ),
{
    lemma_filter_twice(t.cells(), passes(t.schema(), p));
}

/// Total size of the groups of `rows` with the keys `keys`.
pub open spec fn group_sizes(rows: Seq<Seq<Cell>>, c: int, keys: Seq<Cell>) -> int
    decreases keys.len(),
{
    if keys.len() == 0 {
        0
    } else {
        group_sizes(rows, c, keys.drop_last()) + group_of(rows, c, keys.last()).len()
    }
}

/// How many times `v` occurs in `s`.
pub open spec fn occurrences(s: Seq<Cell>, v: Cell) -> int
    decreases s.len(),
{
    if s.len() == 0 { 0 } else { occurrences(s.drop_last(), v) + if s.last() == v { 1int } else { 0int } }
}

proof fn lemma_group_push(rows: Seq<Seq<Cell>>, c: int, k: Cell)
    requires
        rows.len() > 0,
    ensures
        group_of(rows, c, k).len() == group_of(rows.drop_last(), c, k).len() + if rows.last()[c] == k { 1int } else { 0int },
{
    reveal(Seq::filter);
}

proof fn lemma_sizes_push(rows: Seq<Seq<Cell>>, c: int, keys: Seq<Cell>)
    requires
        rows.len() > 0,
    ensures
        group_sizes(rows, c, keys) == group_sizes(rows.drop_last(), c, keys) + occurrences(keys, rows.last()[c]),
    decreases keys.len(),
{
    if keys.len() > 0 {
        lemma_sizes_push(rows, c, keys.drop_last());
        lemma_group_push(rows, c, keys.last());
    }
}

proof fn lemma_distinct_once(s: Seq<Cell>, v: Cell)
    ensures
        occurrences(distinct(s), v) == if distinct(s).contains(v) { 1int } else { 0int },
    decreases s.len(),
{
    if s.len() > 0 {
        let d = distinct(s.drop_last());
        lemma_distinct_once(s.drop_last(), v);
        if !d.contains(s.last()) {
            let e = d.push(s.last());
            assert(e.drop_last() =~= d);
            if e.contains(v) && !d.contains(v) {
                assert(v == s.last()) by {
                    let i = choose|i: int| 0 <= i < e.len() && e[i] == v;
                    if i < d.len() {
                        assert(d[i] == v);
                    }
                }
            }
            if d.contains(v) {
                let i = choose|i: int| 0 <= i < d.len() && d[i] == v;
                assert(e[i] == v);
            }
            if v == s.last() {
                assert(e[e.len() - 1] == v);
            }
        }
    }
}

proof fn lemma_absent_group_empty(rows: Seq<Seq<Cell>>, c: int, k: Cell)
    requires
        !distinct(column_of(rows, c)).contains(k),
    ensures
        group_of(rows, c, k).len() == 0,
    decreases rows.len(),
{
    if rows.len() > 0 {
        let col = column_of(rows, c);
        assert(col.drop_last() =~= column_of(rows.drop_last(), c));
        let d = distinct(col.drop_last());
        if d.contains(k) {
            let i = choose|i: int| 0 <= i < d.len() && d[i] == k;
            if !d.contains(col.last()) {
                assert(distinct(col)[i] == k);
            }
        }
        lemma_absent_group_empty(rows.drop_last(), c, k);
        lemma_group_push(rows, c, k);
        if !d.contains(col.last()) {
            assert(distinct(col)[d.len() as int] == col.last());
        }
    }
}

/// Grouping is a partition: the groups of the distinct key values together hold
/// every row once, so the per-group row counts add up to the number of rows.
pub proof fn group_counts_partition(rows: Seq<Seq<Cell>>, c: int)
    ensures
        group_sizes(rows, c, distinct(column_of(rows, c))) == rows.len(),
    decreases rows.len(),
{
    if rows.len() > 0 {
        let prev = rows.drop_last();
        let col = column_of(rows, c);
        let v = rows.last()[c];
        assert(col.drop_last() =~= column_of(prev, c));
        assert(col.last() == v);
        let d = distinct(column_of(prev, c));
        group_counts_partition(prev, c);
        lemma_sizes_push(rows, c, distinct(col));
        if d.contains(v) {
            lemma_distinct_once(column_of(prev, c), v);
            lemma_distinct_once(col, v);
        } else {
            let e = d.push(v);
            assert(distinct(col) == e);
            assert(e.drop_last() =~= d);
            lemma_distinct_once(col, v);
            assert(e[e.len() - 1] == v);
            lemma_absent_group_empty(prev, c, v);
            lemma_sizes_push(rows, c, d);
            lemma_distinct_once(column_of(prev, c), v);
            lemma_group_push(rows, c, v);
            assert(group_sizes(prev, c, e) == group_sizes(prev, c, d) + group_of(prev, c, v).len());
        }
    }
}

/// Sorting is stable: in a stable sorted order of `rows` (as `sort` returns it),
/// any two output rows with equal keys appear in the order they had in the input.
pub proof fn sort_keeps_ties_in_order(rows: Seq<Seq<Cell>>, cols: Seq<int>, desc: bool, idx: Seq<int>, a: int, b: int)
    requires
        stable_order(rows, cols, desc, idx),
        0 <= a < b < idx.len(),
        rows_cmp(rows[idx[a]], rows[idx[b]], cols, desc) == 0,
    ensures
        idx[a] < idx[b],
{
    assert(goes_before(rows, cols, desc, idx[a], idx[b]));
}

} // verus!
