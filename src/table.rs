//! Materialised tables: a schema and rows of cells.
use vstd::prelude::*;
use crate::error::QueryError;
use crate::value::{Cell, DataType, Value, copy_chars, copy_value, compare_chars, lemma_chars_cmp_zero, fits};

verus! {

/// A column of a schema: its name and declared type.
#[derive(Clone, Debug, PartialEq, Eq)]
pub struct Field {
    pub name: Vec<char>,
    pub dtype: DataType,
}

/// A schema and its rows; each row holds one cell per column.
#[derive(Clone, Debug, PartialEq, Eq)]
pub struct Table {
    pub fields: Vec<Field>,
    pub rows: Vec<Vec<Value>>,
}

/// The cells of a row.
pub open spec fn row_view(r: Vec<Value>) -> Seq<Cell> {
    r@.map_values(|v: Value| v@)
}

/// The cells of a sequence of rows.
pub open spec fn rows_view(rs: Seq<Vec<Value>>) -> Seq<Seq<Cell>> {
    rs.map_values(|r: Vec<Value>| row_view(r))
}

/// A schema as (name, type) pairs.
pub open spec fn schema_view(fs: Seq<Field>) -> Seq<(Seq<char>, DataType)> {
    fs.map_values(|f: Field| (f.name@, f.dtype))
}

/// Column names must be unique.
pub open spec fn names_unique(s: Seq<(Seq<char>, DataType)>) -> bool {
    forall|i: int, j: int| #![trigger s[i], s[j]] 0 <= i < j < s.len() ==> s[i].0 != s[j].0
}

/// Every row has one cell per column, of the column's type.
pub open spec fn rows_fit(s: Seq<(Seq<char>, DataType)>, rows: Seq<Seq<Cell>>) -> bool {
    forall|i: int|
        0 <= i < rows.len() ==> #[trigger] rows[i].len() == s.len() && (forall|j: int|
            0 <= j < s.len() ==> fits(#[trigger] rows[i][j], s[j].1))
}

/// Position of the column named `name`, if there is one.
pub open spec fn index_of(s: Seq<(Seq<char>, DataType)>, name: Seq<char>) -> Option<int> {
    if exists|i: int| 0 <= i < s.len() && s[i].0 == name {
        Some(choose|i: int| 0 <= i < s.len() && s[i].0 == name)
    } else {
        None
    }
}

impl Table {
    /// The rows, as cells.
    pub open spec fn cells(&self) -> Seq<Seq<Cell>> {
        rows_view(self.rows@)
    }

    /// The schema, as (name, type) pairs.
    pub open spec fn schema(&self) -> Seq<(Seq<char>, DataType)> {
        schema_view(self.fields@)
    }

    pub open spec fn wf(&self) -> bool {
        &&& names_unique(self.schema())
        &&& rows_fit(self.schema(), self.cells())
    }

    /// Number of rows.
    pub fn len(&self) -> (r: usize)
        ensures
            r == self.cells().len(),
    {
        self.rows.len()
    }

    /// Number of columns.
    pub fn width(&self) -> (r: usize)
        ensures
            r == self.fields@.len(),
    {
        self.fields.len()
    }

    /// The first `n` rows; `InvalidArgument` when `n` is negative.
    pub fn head(&self, n: i64) -> (r: Result<Table, QueryError>)
        requires
            self.wf(),
        ensures
            n < 0 ==> r == Err::<Table, QueryError>(QueryError::InvalidArgument),
            n >= 0 ==> (r matches Ok(t) && t.wf() && t.schema() == self.schema()
                && t.cells() == self.cells().take(
                if n < self.cells().len() { n as int } else { self.cells().len() as int },
            ) && t.cells().len() == if n < self.cells().len() { n as int } else { self.cells().len() as int }),
    {
        if n < 0 {
            return Err(QueryError::InvalidArgument);
        }
        let k: usize = if (n as u64) < self.rows.len() as u64 { n as usize } else { self.rows.len() };
        let mut rows: Vec<Vec<Value>> = Vec::new();
        let mut i: usize = 0;
        while i < k
            invariant
                k <= self.rows.len(),
                i <= k,
                rows@.len() == i,
                forall|j: int| 0 <= j < i ==> row_view(#[trigger] rows@[j]) == self.cells()[j],
            decreases k - i,
        {
            let row = copy_row(&self.rows[i]);
            proof {
                assert(self.cells()[i as int] == row_view(self.rows@[i as int]));
            }
            rows.push(row);
            i = i + 1;
        }
        let t = Table { fields: copy_fields(&self.fields), rows };
        proof {
            assert(rows_view(rows@) =~= self.cells().take(k as int));
            assert(t.cells() =~= self.cells().take(k as int));
            assert forall|a: int| 0 <= a < t.cells().len() implies #[trigger] t.cells()[a].len() == t.schema().len() && (forall|j: int|
                0 <= j < t.schema().len() ==> fits(#[trigger] t.cells()[a][j], t.schema()[j].1)) by {
                assert(t.cells()[a] == self.cells()[a]);
            }
        }
        Ok(t)
    }
}

/// Copies a row.
pub fn copy_row(r: &Vec<Value>) -> (c: Vec<Value>)
    ensures
        row_view(c) == row_view(*r),
{
    let mut c: Vec<Value> = Vec::new();
    let mut i: usize = 0;
    while i < r.len()
        invariant
            i <= r.len(),
            c@.len() == i,
            forall|j: int| 0 <= j < i ==> (#[trigger] c@[j])@ == r@[j]@,
        decreases r.len() - i,
    {
        c.push(copy_value(&r[i]));
        i = i + 1;
    }
    proof {
        assert(row_view(c) =~= row_view(*r));
    }
    c
}

/// Copies a schema.
pub fn copy_fields(fs: &Vec<Field>) -> (c: Vec<Field>)
    ensures
        schema_view(c@) == schema_view(fs@),
{
    let mut c: Vec<Field> = Vec::new();
    let mut i: usize = 0;
    while i < fs.len()
        invariant
            i <= fs.len(),
            c@.len() == i,
            forall|j: int| 0 <= j < i ==> (#[trigger] c@[j]).name@ == fs@[j].name@
                && c@[j].dtype == fs@[j].dtype,
        decreases fs.len() - i,
    {
        c.push(Field { name: copy_chars(&fs[i].name), dtype: fs[i].dtype });
        i = i + 1;
    }
    proof {
        assert(schema_view(c@) =~= schema_view(fs@));
    }
    c
}

/// Finds the column named `name`.
pub fn column_index(fs: &Vec<Field>, name: &Vec<char>) -> (r: Option<usize>)
    requires
        names_unique(schema_view(fs@)),
    ensures
        match r {
            Some(i) => index_of(schema_view(fs@), name@) == Some(i as int) && i < fs@.len(),
            None => index_of(schema_view(fs@), name@).is_none(),
        },
{
    let mut i: usize = 0;
    while i < fs.len()
        invariant
            i <= fs.len(),
            names_unique(schema_view(fs@)),
            forall|j: int| 0 <= j < i ==> schema_view(fs@)[j].0 != name@,
        decreases fs.len() - i,
    {
        let c = compare_chars(&fs[i].name, name);
        proof {
            lemma_chars_cmp_zero(fs@[i as int].name@, name@);
        }
        if c == 0 {
            proof {
                let s = schema_view(fs@);
                assert(s[i as int].0 == name@);
                assert(exists|j: int| 0 <= j < s.len() && s[j].0 == name@);
                let j = choose|j: int| 0 <= j < s.len() && s[j].0 == name@;
                assert(s[j].0 == name@);
                if j < i {
                    assert(s[j].0 != s[i as int].0);
                } else if j > i {
                    assert(s[i as int].0 != s[j].0);
                }
            }
            return Some(i);
        }
        i = i + 1;
    }
    None
}

} // verus!
