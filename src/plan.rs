//! Lazy query plans: a tree of operations over a source table, run by `collect`.
use vstd::prelude::*;
use crate::error::QueryError;
use crate::expr::{Projection, all_defined, eval_rows, projected_row, projected_schema, proj_types, select};
use crate::group::{Aggregation, agg_names_known, agg_types_fit, all_fit, group_by, group_row, grouped_schema};
use crate::predicate::{Predicate, all_known, drop_nulls, filter, keeps, names_known, names_of, passes};
use crate::sort::{column_positions, sorted_stably, sort};
use crate::table::{Table, copy_fields, copy_row, index_of, names_unique, row_view};
use crate::column::distinct;
use crate::value::{Cell, DataType, Value};
use crate::sort::column_of;

verus! {

/// A table as a schema and rows of cells.
pub type Model = (Seq<(Seq<char>, DataType)>, Seq<Seq<Cell>>);

/// One operation of a plan.
#[derive(Debug)]
pub enum Op {
    /// Keeps the rows on which the predicate is true.
    Filter(Predicate),
    /// Keeps the rows in which the named columns (all, when none is named) are non-null.
    DropNulls(Vec<Vec<char>>),
    /// Drops all columns and computes the projections.
    Select(Vec<Projection>),
    /// Groups by a column and aggregates each group.
    GroupBy(Vec<char>, Vec<Aggregation>),
    /// Sorts stably by the named columns, descending when the flag is set.
    Sort(Vec<Vec<char>>, bool),
}

/// A lazy plan: a source table and the operations chained onto it, in order.
/// Nothing is computed until `collect`.
#[derive(Debug)]
pub struct LazyPlan {
    pub source: Table,
    pub ops: Vec<Op>,
}

pub open spec fn filter_step(m: Model, p: Predicate, r: Result<Model, QueryError>) -> bool {
    if !names_known(m.0, p) {
        r == Err::<Model, QueryError>(QueryError::SchemaError)
    } else {
        r == Ok::<Model, QueryError>((m.0, m.1.filter(passes(m.0, p))))
    }
}

pub open spec fn drop_nulls_step(m: Model, names: Seq<Seq<char>>, r: Result<Model, QueryError>) -> bool {
    if !all_known(m.0, names) {
        r == Err::<Model, QueryError>(QueryError::SchemaError)
    } else {
        r == Ok::<Model, QueryError>((m.0, m.1.filter(keeps(m.0, names))))
    }
}

pub open spec fn select_step(m: Model, ps: Seq<Projection>, r: Result<Model, QueryError>) -> bool {
    match proj_types(m.0, ps) {
        Err(x) => r == Err::<Model, QueryError>(x),
        Ok(ts) => {
            let out = projected_schema(ps, ts);
            if !names_unique(out) {
                r == Err::<Model, QueryError>(QueryError::SchemaError)
            } else if !all_defined(m.0, m.1, ps) {
                r == Err::<Model, QueryError>(QueryError::Overflow)
            } else {
                r == Ok::<Model, QueryError>((out, eval_rows(m.1, ps).map_values(|row: Seq<Cell>| projected_row(m.0, m.1, ps, row))))
            }
        },
    }
}

pub open spec fn group_step(m: Model, key: Seq<char>, aggs: Seq<Aggregation>, r: Result<Model, QueryError>) -> bool {
    match index_of(m.0, key) {
        None => r == Err::<Model, QueryError>(QueryError::SchemaError),
        Some(c) => if !agg_names_known(m.0, aggs) {
            r == Err::<Model, QueryError>(QueryError::SchemaError)
        } else {
            let gs = grouped_schema(m.0, c, aggs);
            if !names_unique(gs) {
                r == Err::<Model, QueryError>(QueryError::SchemaError)
            } else if !agg_types_fit(m.0, aggs) {
                r == Err::<Model, QueryError>(QueryError::TypeMismatch)
            } else if !all_fit(m.0, m.1, c, aggs) {
                r == Err::<Model, QueryError>(QueryError::Overflow)
            } else {
                r == Ok::<Model, QueryError>((gs, distinct(column_of(m.1, c)).map_values(|k: Cell| group_row(m.0, m.1, c, aggs, k))))
            }
        },
    }
}

pub open spec fn sort_step(m: Model, by: Seq<Seq<char>>, desc: bool, r: Result<Model, QueryError>) -> bool {
    if !all_known(m.0, by) {
        r == Err::<Model, QueryError>(QueryError::SchemaError)
    } else {
        r matches Ok(o) && o.0 == m.0 && sorted_stably(m.1, column_positions(m.0, by), desc, o.1)
    }
}

/// `r` follows from the result `m` of the earlier operations by `op`.
pub open spec fn after(m: Result<Model, QueryError>, op: Op, r: Result<Model, QueryError>) -> bool {
    match m {
        Err(x) => r == Err::<Model, QueryError>(x),
        Ok(mm) => match op {
            Op::Filter(pred) => filter_step(mm, pred, r),
            Op::DropNulls(names) => drop_nulls_step(mm, names_of(names@), r),
            Op::Select(ps) => select_step(mm, ps@, r),
            Op::GroupBy(key, aggs) => group_step(mm, key@, aggs@, r),
            Op::Sort(by, desc) => sort_step(mm, names_of(by@), desc, r),
        },
    }
}

/// `trace` lists the result before each operation and after the last: it starts
/// with `src`, and each entry follows from the one before by that operation.
pub open spec fn is_trace(src: Model, ops: Seq<Op>, trace: Seq<Result<Model, QueryError>>) -> bool {
    &&& trace.len() == ops.len() + 1
    &&& trace[0] == Ok::<Model, QueryError>(src)
    &&& forall|i: int| 0 <= i < ops.len() ==> #[trigger] after(trace[i], ops[i], trace[i + 1])
}

/// `r` is what running `ops` on `src` gives: the first failing operation's error,
/// or the table of the last one.
pub open spec fn outcome(src: Model, ops: Seq<Op>, r: Result<Model, QueryError>) -> bool {
    exists|trace: Seq<Result<Model, QueryError>>| #[trigger] is_trace(src, ops, trace) && trace.last() == r
}

/// A table's model.
pub open spec fn model_of(r: Result<Table, QueryError>) -> Result<Model, QueryError> {
    match r {
        Ok(t) => Ok((t.schema(), t.cells())),
        Err(x) => Err(x),
    }
}

/// Copies a table.
pub fn copy_table(t: &Table) -> (r: Table)
    ensures
        r.schema() == t.schema(),
        r.cells() == t.cells(),
{
    let mut rows: Vec<Vec<Value>> = Vec::new();
    let mut i: usize = 0;
    while i < t.rows.len()
        invariant
            i <= t.rows.len(),
            rows@.len() == i,
            forall|q: int| 0 <= q < i ==> row_view(#[trigger] rows@[q]) == t.cells()[q],
        decreases t.rows.len() - i,
    {
        proof {
            assert(t.cells()[i as int] == row_view(t.rows@[i as int]));
        }
        rows.push(copy_row(&t.rows[i]));
        i = i + 1;
    }
    let r = Table { fields: copy_fields(&t.fields), rows };
    proof {
        assert(r.cells() =~= t.cells());
    }
    r
}

/// Runs one operation on a well-formed table.
pub fn apply(t: &Table, op: &Op) -> (r: Result<Table, QueryError>)
    requires
        t.wf(),
    ensures
        after(Ok((t.schema(), t.cells())), *op, model_of(r)),
        r matches Ok(o) ==> o.wf(),
{
    match op {
        Op::Filter(pred) => filter(t, pred),
        Op::DropNulls(names) => drop_nulls(t, names),
        Op::Select(ps) => select(t, ps),
        Op::GroupBy(key, aggs) => group_by(t, key, aggs),
        Op::Sort(by, desc) => sort(t, by, *desc),
    }
}

impl LazyPlan {
    /// A plan that reads `source` and does nothing else yet.
    pub fn scan(source: Table) -> (r: LazyPlan)
        ensures
            r.source == source,
            r.ops@.len() == 0,
    {
        LazyPlan { source, ops: Vec::new() }
    }

    /// Chains an operation onto the plan.
    pub fn then(self, op: Op) -> (r: LazyPlan)
        ensures
            r.source == self.source,
            r.ops@ == self.ops@.push(op),
    {
        let mut ops = self.ops;
        ops.push(op);
        LazyPlan { source: self.source, ops }
    }

    /// Runs the plan: each operation on the result of the one before, in the order
    /// they were chained; the first error stops the run.
    pub fn collect(&self) -> (r: Result<Table, QueryError>)
        requires
            self.source.wf(),
        ensures
            outcome((self.source.schema(), self.source.cells()), self.ops@, model_of(r)),
            r matches Ok(t) ==> t.wf(),
    {
        let ghost src = (self.source.schema(), self.source.cells());
        let mut cur: Result<Table, QueryError> = Ok(copy_table(&self.source));
        let ghost mut trace: Seq<Result<Model, QueryError>> = seq![model_of(cur)];
        let mut i: usize = 0;
        while i < self.ops.len()
            invariant
                i <= self.ops@.len(),
                src == (self.source.schema(), self.source.cells()),
                trace.len() == i + 1,
                trace[0] == Ok::<Model, QueryError>(src),
                forall|k: int| 0 <= k < i ==> #[trigger] after(trace[k], self.ops@[k], trace[k + 1]),
                trace.last() == model_of(cur),
                cur matches Ok(t) ==> t.wf(),
            decreases self.ops.len() - i,
        {
            let next = match &cur {
                Err(x) => Err(*x),
                Ok(t) => apply(t, &self.ops[i]),
            };
            proof {
                let old_trace = trace;
                trace = trace.push(model_of(next));
                assert forall|k: int| 0 <= k < i + 1 implies #[trigger] after(trace[k], self.ops@[k], trace[k + 1]) by {
                    if k < i {
                        assert(trace[k] == old_trace[k] && trace[k + 1] == old_trace[k + 1]);
                    }
                }
            }
            cur = next;
            i = i + 1;
        }
        proof {
            assert(is_trace(src, self.ops@, trace));
        }
        cur
    }
}

} // verus!
