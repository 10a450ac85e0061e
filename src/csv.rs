//! Reading CSV text into a table, with the column types inferred from the fields.
use vstd::prelude::*;
use crate::error::QueryError;
use crate::table::{Field, Table, names_unique, row_view};
use crate::text::{classify, csv_fields, decimal, push_decimal, read_field, read_fields, split, split_on};
use crate::value::{Cell, DataType, SCALE, Value, copy_chars, fits};

verus! {

/// The lines of `text`; a final newline ends the last line rather than starting an empty one.
pub open spec fn lines(text: Seq<char>) -> Seq<Seq<char>> {
    let ls = split(text, '\n');
    if ls.last().len() == 0 { ls.drop_last() } else { ls }
}

/// The fields of each line (see `csv_fields`).
pub open spec fn records(text: Seq<char>) -> Seq<Seq<Seq<char>>> {
    lines(text).map_values(|l: Seq<char>| csv_fields(l))
}

/// The name given to column `j` (from 0) when the text has no header: `column_1`, ...
pub open spec fn default_name(j: nat) -> Seq<char> {
    seq!['c', 'o', 'l', 'u', 'm', 'n', '_'] + decimal(j + 1)
}

/// Column names: the first record, or default names as many as its fields.
pub open spec fn header(text: Seq<char>, has_header: bool) -> Seq<Seq<char>> {
    if has_header {
        records(text)[0]
    } else {
        Seq::new(records(text)[0].len(), |j: int| default_name(j as nat))
    }
}

/// The records that hold data.
pub open spec fn data(text: Seq<char>, has_header: bool) -> Seq<Seq<Seq<char>>> {
    records(text).skip(if has_header { 1int } else { 0int })
}

/// A field can be widened to a float: a decimal, or an integer of at most 12 digits.
pub open spec fn float_like(c: Cell) -> bool {
    c is Float || (c matches Cell::Int(v) && -1_000_000_000_000 < v < 1_000_000_000_000)
}

/// The type of a column whose fields read as `cs`: the narrowest of boolean, integer,
/// float that holds every present field; text when none does or no field is present.
pub open spec fn column_type(cs: Seq<Cell>) -> DataType {
    if forall|i: int| 0 <= i < cs.len() ==> #[trigger] cs[i] is Null {
        DataType::Text
    } else if forall|i: int| 0 <= i < cs.len() ==> (#[trigger] cs[i] is Null || cs[i] is Bool) {
        DataType::Boolean
    } else if forall|i: int| 0 <= i < cs.len() ==> (#[trigger] cs[i] is Null || cs[i] is Int) {
        DataType::Integer
    } else if forall|i: int| 0 <= i < cs.len() ==> (#[trigger] cs[i] is Null || float_like(cs[i])) {
        DataType::Float
    } else {
        DataType::Text
    }
}

/// The cell of field `f`, read as `c`, in a column of type `t`.
pub open spec fn cell_as(f: Seq<char>, c: Cell, t: DataType) -> Cell {
    if c is Null {
        Cell::Null
    } else {
        match t {
            DataType::Text => Cell::Str(f),
            DataType::Float => match c {
                Cell::Int(v) => Cell::Float(v * SCALE),
                _ => c,
            },
            _ => c,
        }
    }
}

/// What column `j` of the data reads as.
pub open spec fn column_cells(rows: Seq<Seq<Seq<char>>>, j: int) -> Seq<Cell> {
    rows.map_values(|r: Seq<Seq<char>>| classify(r[j]))
}

/// The inferred column types.
pub open spec fn column_types(rows: Seq<Seq<Seq<char>>>, width: nat) -> Seq<DataType> {
    Seq::new(width, |j: int| column_type(column_cells(rows, j)))
}

/// The table's cells for the data records.
pub open spec fn table_cells(rows: Seq<Seq<Seq<char>>>, types: Seq<DataType>) -> Seq<Seq<Cell>> {
    rows.map_values(|r: Seq<Seq<char>>| Seq::new(types.len(), |j: int| cell_as(r[j], classify(r[j]), types[j])))
}

/// Every data record has as many fields as there are columns.
pub open spec fn widths_match(text: Seq<char>, has_header: bool) -> bool {
    forall|i: int| 0 <= i < data(text, has_header).len() ==> #[trigger] data(text, has_header)[i].len() == header(text, has_header).len()
}

/// Fields of records, as character sequences.
pub open spec fn fields_view(v: Seq<Vec<Vec<char>>>) -> Seq<Seq<Seq<char>>> {
    v.map_values(|r: Vec<Vec<char>>| r@.map_values(|f: Vec<char>| f@))
}

/// Splits `text` into records of fields; see `records`.
pub fn read_records(text: &Vec<char>) -> (r: Vec<Vec<Vec<char>>>)
    ensures
        fields_view(r@) == records(text@),
{
    let mut ls = split_on(text, '\n');
    proof {
        crate::text::lemma_split_nonempty(text@, '\n');
    }
    let ghost all = ls@.map_values(|p: Vec<char>| p@);
    if ls[ls.len() - 1].len() == 0 {
        ls.pop();
        proof {
            assert(ls@.map_values(|p: Vec<char>| p@) =~= all.drop_last());
        }
    }
    let mut out: Vec<Vec<Vec<char>>> = Vec::new();
    let mut i: usize = 0;
    while i < ls.len()
        invariant
            ls@.map_values(|p: Vec<char>| p@) == lines(text@),
            i <= ls.len(),
            out@.len() == i,
            forall|q: int| 0 <= q < i ==> #[trigger] fields_view(out@)[q] == csv_fields(lines(text@)[q]),
        decreases ls.len() - i,
    {
        let fs = read_fields(&ls[i]);
        proof {
            assert(ls@.map_values(|p: Vec<char>| p@)[i as int] == ls@[i as int]@);
        }
        let ghost prev = out@;
        out.push(fs);
        proof {
            assert forall|q: int| 0 <= q < i + 1 implies #[trigger] fields_view(out@)[q] == csv_fields(lines(text@)[q]) by {
                if q < i {
                    assert(out@[q] == prev[q]);
                    assert(fields_view(prev)[q] == csv_fields(lines(text@)[q]));
                }
            }
        }
        i = i + 1;
    }
    proof {
        assert(fields_view(out@) =~= records(text@));
    }
    out
}

/// Whether the names are pairwise different.
pub fn distinct_names(names: &Vec<Vec<char>>) -> (r: bool)
    ensures
        r == forall|a: int, b: int| 0 <= a < b < names@.len() ==> names@[a]@ != names@[b]@,
{
    let n = names.len();
    let mut a: usize = 0;
    while a < n
        invariant
            n == names@.len(),
            a <= n,
            forall|x: int, y: int| 0 <= x < a && x < y < n ==> names@[x]@ != names@[y]@,
        decreases n - a,
    {
        let mut b: usize = a + 1;
        while b < n
            invariant
                n == names@.len(),
                a < n,
                a + 1 <= b <= n,
                forall|x: int, y: int| 0 <= x < a && x < y < n ==> names@[x]@ != names@[y]@,
                forall|y: int| a < y < b ==> names@[a as int]@ != names@[y]@,
            decreases n - b,
        {
            let c = crate::value::compare_chars(&names[a], &names[b]);
            proof {
                crate::value::lemma_chars_cmp_zero(names@[a as int]@, names@[b as int]@);
            }
            if c == 0 {
                return false;
            }
            b = b + 1;
        }
        a = a + 1;
    }
    true
}

/// The type inferred for a column whose fields read as `cells`; see `column_type`.
pub fn infer_type(cells: &Vec<Value>) -> (r: DataType)
    ensures
        r == column_type(crate::column::cells_of(cells@)),
{
    let ghost cs = crate::column::cells_of(cells@);
    let mut all_null = true;
    let mut all_bool = true;
    let mut all_int = true;
    let mut all_float = true;
    let mut i: usize = 0;
    while i < cells.len()
        invariant
            cs == crate::column::cells_of(cells@),
            i <= cells.len(),
            all_null == forall|q: int| 0 <= q < i ==> #[trigger] cs[q] is Null,
            all_bool == forall|q: int| 0 <= q < i ==> (#[trigger] cs[q] is Null || cs[q] is Bool),
            all_int == forall|q: int| 0 <= q < i ==> (#[trigger] cs[q] is Null || cs[q] is Int),
            all_float == forall|q: int| 0 <= q < i ==> (#[trigger] cs[q] is Null || float_like(cs[q])),
        decreases cells.len() - i,
    {
        proof {
            assert(cs[i as int] == cells@[i as int]@);
        }
        match &cells[i] {
            Value::Null => {},
            Value::Bool(_) => {
                all_null = false;
                all_int = false;
                all_float = false;
            },
            Value::Int(v) => {
                all_null = false;
                all_bool = false;
                if !(-1_000_000_000_000 < *v && *v < 1_000_000_000_000) {
                    all_float = false;
                }
            },
            Value::Float(_) => {
                all_null = false;
                all_bool = false;
                all_int = false;
            },
            Value::Str(_) => {
                all_null = false;
                all_bool = false;
                all_int = false;
                all_float = false;
            },
        }
        i = i + 1;
    }
    if all_null {
        DataType::Text
    } else if all_bool {
        DataType::Boolean
    } else if all_int {
        DataType::Integer
    } else if all_float {
        DataType::Float
    } else {
        DataType::Text
    }
}

/// The cell for field `f`, read as `c`, in a column of type `t`; see `cell_as`.
pub fn convert(f: &Vec<char>, c: &Value, t: DataType) -> (r: Value)
    requires
        t == DataType::Float ==> float_like(c@) || c@ is Null,
    ensures
        r@ == cell_as(f@, c@, t),
{
    if matches!(c, Value::Null) {
        return Value::Null;
    }
    match t {
        DataType::Text => Value::Str(copy_chars(f)),
        DataType::Float => match c {
            Value::Int(v) => {
                proof {
                    assert(-1_000_000_000_000_000_000 < *v * 1_000_000 < 1_000_000_000_000_000_000) by (nonlinear_arith)
                        requires
                            -1_000_000_000_000 < *v < 1_000_000_000_000,
                    ;
                }
                Value::Float(*v * 1_000_000)
            },
            _ => crate::value::copy_value(c),
        },
        _ => crate::value::copy_value(c),
    }
}

/// The schema that `read_csv` gives: the header names with the inferred types.
pub open spec fn csv_schema(text: Seq<char>, has_header: bool) -> Seq<(Seq<char>, DataType)> {
    let h = header(text, has_header);
    let ts = column_types(data(text, has_header), h.len());
    Seq::new(h.len(), |j: int| (h[j], ts[j]))
}

/// Column names for a text without header: `column_1`, `column_2`, ...
fn default_names(n: usize) -> (r: Vec<Vec<char>>)
    ensures
        r@.len() == n,
        forall|j: int| 0 <= j < n ==> (#[trigger] r@[j])@ == default_name(j as nat),
{
    let mut r: Vec<Vec<char>> = Vec::new();
    let mut j: usize = 0;
    while j < n
        invariant
            j <= n,
            r@.len() == j,
            forall|q: int| 0 <= q < j ==> (#[trigger] r@[q])@ == default_name(q as nat),
        decreases n - j,
    {
        let mut name: Vec<char> = vec!['c', 'o', 'l', 'u', 'm', 'n', '_'];
        proof {
            assert(name@ =~= seq!['c', 'o', 'l', 'u', 'm', 'n', '_']);
        }
        push_decimal(&mut name, j as u64 + 1);
        r.push(name);
        j = j + 1;
    }
    r
}

/// Reads CSV text: lines split at newlines (a final newline ends the last line),
/// fields split at commas outside double quotes, with a header line when `has_header` (else the columns
/// are named `column_1`, ...). Each column gets the narrowest type that holds all
/// its fields (see `column_type`); empty fields are null. `ParseError` when a data
/// line has another number of fields than the first line, or two names clash.
/// Text without lines gives a table without columns.
pub fn read_csv(text: &Vec<char>, has_header: bool) -> (r: Result<Table, QueryError>)
    ensures
        records(text@).len() == 0 ==> (r matches Ok(t) && t.wf() && t.schema().len() == 0 && t.cells().len() == 0),
        records(text@).len() > 0 ==> {
            &&& (r is Ok <==> widths_match(text@, has_header) && names_unique(csv_schema(text@, has_header)))
            &&& r is Err ==> r == Err::<Table, QueryError>(QueryError::ParseError)
            &&& r matches Ok(t) ==> t.wf() && t.schema() == csv_schema(text@, has_header)
                && t.cells() == table_cells(data(text@, has_header), column_types(data(text@, has_header), header(text@, has_header).len()))
                && t.schema().len() == records(text@)[0].len()
                && t.cells().len() == records(text@).len() - (if has_header { 1int } else { 0int })
        },
{
    let recs = read_records(text);
    let ghost rv = records(text@);
    if recs.len() == 0 {
        let t = Table { fields: Vec::new(), rows: Vec::new() };
        proof {
            assert(t.schema() =~= Seq::<(Seq<char>, DataType)>::empty());
            assert(t.cells() =~= Seq::<Seq<Cell>>::empty());
        }
        return Ok(t);
    }
    let width = recs[0].len();
    proof {
        assert(rv[0] == recs@[0]@.map_values(|f: Vec<char>| f@));
    }
    let names: Vec<Vec<char>> = if has_header {
        let mut v: Vec<Vec<char>> = Vec::new();
        let mut j: usize = 0;
        while j < width
            invariant
                width == recs@[0]@.len(),
                rv == fields_view(recs@),
                recs@.len() > 0,
                j <= width,
                v@.len() == j,
                forall|q: int| 0 <= q < j ==> (#[trigger] v@[q])@ == rv[0][q],
            decreases width - j,
        {
            proof {
                assert(rv[0][j as int] == recs@[0]@[j as int]@);
            }
            v.push(copy_chars(&recs[0][j]));
            j = j + 1;
        }
        v
    } else {
        default_names(width)
    };
    let ghost h = header(text@, has_header);
    proof {
        assert(h.len() == width);
        assert forall|j: int| 0 <= j < width implies (#[trigger] names@[j])@ == h[j] by {}
    }
    if !distinct_names(&names) {
        proof {
            let (a, b) = choose|a: int, b: int| 0 <= a < b < names@.len() && names@[a]@ == names@[b]@;
            assert(csv_schema(text@, has_header)[a].0 == csv_schema(text@, has_header)[b].0);
        }
        return Err(QueryError::ParseError);
    }
    let skip: usize = if has_header { 1 } else { 0 };
    let ghost dv = data(text@, has_header);
    let n = recs.len() - skip;
    proof {
        assert(dv.len() == n);
        assert forall|i: int| 0 <= i < n implies #[trigger] dv[i] == recs@[i + skip]@.map_values(|f: Vec<char>| f@) by {
            assert(dv[i] == rv[i + skip]);
        }
    }
    let mut i: usize = 0;
    while i < n
        invariant
            n == dv.len(),
            n + skip == recs@.len(),
            recs@.len() <= usize::MAX,
            h.len() == width,
            forall|q: int| 0 <= q < n ==> #[trigger] dv[q] == recs@[q + skip]@.map_values(|f: Vec<char>| f@),
            dv == data(text@, has_header),
            h == header(text@, has_header),
            records(text@).len() > 0,
            i <= n,
            forall|q: int| 0 <= q < i ==> #[trigger] dv[q].len() == width,
        decreases n - i,
    {
        if recs[i + skip].len() != width {
            proof {
                assert(dv[i as int].len() != h.len());
            }
            return Err(QueryError::ParseError);
        }
        i = i + 1;
    }
    // read every field
    let mut cls: Vec<Vec<Value>> = Vec::new();
    let mut i: usize = 0;
    while i < n
        invariant
            n == dv.len(),
            n + skip == recs@.len(),
            recs@.len() <= usize::MAX,
            forall|q: int| 0 <= q < n ==> #[trigger] dv[q] == recs@[q + skip]@.map_values(|f: Vec<char>| f@),
            forall|q: int| 0 <= q < n ==> #[trigger] dv[q].len() == width,
            i <= n,
            cls@.len() == i,
            forall|q: int, j: int| 0 <= q < i && 0 <= j < width ==> (#[trigger] cls@[q]@[j])@ == classify(dv[q][j]),
            forall|q: int| 0 <= q < i ==> (#[trigger] cls@[q])@.len() == width,
        decreases n - i,
    {
        let mut row: Vec<Value> = Vec::new();
        let mut j: usize = 0;
        while j < width
            invariant
                n == dv.len(),
                i < n,
                n + skip == recs@.len(),
            recs@.len() <= usize::MAX,
                dv[i as int] == recs@[i + skip]@.map_values(|f: Vec<char>| f@),
                dv[i as int].len() == width,
                j <= width,
                row@.len() == j,
                forall|k: int| 0 <= k < j ==> (#[trigger] row@[k])@ == classify(dv[i as int][k]),
            decreases width - j,
        {
            proof {
                assert(dv[i as int][j as int] == recs@[i + skip]@[j as int]@);
            }
            row.push(read_field(&recs[i + skip][j]));
            j = j + 1;
        }
        cls.push(row);
        i = i + 1;
    }
    // infer the types
    let mut types: Vec<DataType> = Vec::new();
    let mut j: usize = 0;
    while j < width
        invariant
            n == dv.len(),
            cls@.len() == n,
            forall|q: int| 0 <= q < n ==> #[trigger] dv[q].len() == width,
            forall|q: int, j: int| 0 <= q < n && 0 <= j < width ==> (#[trigger] cls@[q]@[j])@ == classify(dv[q][j]),
            forall|q: int| 0 <= q < n ==> (#[trigger] cls@[q])@.len() == width,
            j <= width,
            types@.len() == j,
            forall|k: int| 0 <= k < j ==> #[trigger] types@[k] == column_types(dv, width as nat)[k],
        decreases width - j,
    {
        let mut col: Vec<Value> = Vec::new();
        let mut i: usize = 0;
        while i < n
            invariant
                n == cls@.len(),
                j < width,
                forall|q: int| 0 <= q < n ==> (#[trigger] cls@[q])@.len() == width,
                i <= n,
                col@.len() == i,
                forall|q: int| 0 <= q < i ==> (#[trigger] col@[q])@ == cls@[q]@[j as int]@,
            decreases n - i,
        {
            col.push(crate::value::copy_value(&cls[i][j]));
            i = i + 1;
        }
        proof {
            assert(crate::column::cells_of(col@) =~= column_cells(dv, j as int)) by {
                assert forall|q: int| 0 <= q < n implies #[trigger] crate::column::cells_of(col@)[q] == column_cells(dv, j as int)[q] by {
                    assert(col@[q]@ == cls@[q]@[j as int]@);
                }
            }
        }
        types.push(infer_type(&col));
        j = j + 1;
    }
    let ghost ts = column_types(dv, width as nat);
    proof {
        assert(types@ =~= ts);
    }
    // build the rows
    let mut rows: Vec<Vec<Value>> = Vec::new();
    let mut i: usize = 0;
    while i < n
        invariant
            n == dv.len(),
            n + skip == recs@.len(),
            recs@.len() <= usize::MAX,
            cls@.len() == n,
            types@ == ts,
            ts == column_types(dv, width as nat),
            ts.len() == width,
            forall|q: int| 0 <= q < n ==> #[trigger] dv[q] == recs@[q + skip]@.map_values(|f: Vec<char>| f@),
            forall|q: int| 0 <= q < n ==> #[trigger] dv[q].len() == width,
            forall|q: int, j: int| 0 <= q < n && 0 <= j < width ==> (#[trigger] cls@[q]@[j])@ == classify(dv[q][j]),
            forall|q: int| 0 <= q < n ==> (#[trigger] cls@[q])@.len() == width,
            i <= n,
            rows@.len() == i,
            forall|q: int| 0 <= q < i ==> row_view(#[trigger] rows@[q]) == table_cells(dv, ts)[q],
        decreases n - i,
    {
        let mut row: Vec<Value> = Vec::new();
        let mut j: usize = 0;
        while j < width
            invariant
                n == dv.len(),
                i < n,
                n + skip == recs@.len(),
            recs@.len() <= usize::MAX,
                cls@.len() == n,
                types@ == ts,
                ts == column_types(dv, width as nat),
                ts.len() == width,
                dv[i as int] == recs@[i + skip]@.map_values(|f: Vec<char>| f@),
                dv[i as int].len() == width,
                forall|j: int| 0 <= j < width ==> (#[trigger] cls@[i as int]@[j])@ == classify(dv[i as int][j]),
                cls@[i as int]@.len() == width,
                j <= width,
                row@.len() == j,
                forall|k: int| 0 <= k < j ==> (#[trigger] row@[k])@ == cell_as(dv[i as int][k], classify(dv[i as int][k]), ts[k]),
            decreases width - j,
        {
            proof {
                assert(dv[i as int][j as int] == recs@[i + skip]@[j as int]@);
                lemma_float_column(dv, j as int, i as int);
            }
            row.push(convert(&recs[i + skip][j], &cls[i][j], types[j]));
            j = j + 1;
        }
        proof {
            assert(row_view(row) =~= table_cells(dv, ts)[i as int]);
        }
        rows.push(row);
        i = i + 1;
    }
    let mut fields: Vec<Field> = Vec::new();
    let mut j: usize = 0;
    while j < width
        invariant
            names@.len() == width,
            types@.len() == width,
            j <= width,
            fields@.len() == j,
            forall|k: int| 0 <= k < j ==> (#[trigger] fields@[k]).name@ == names@[k]@ && fields@[k].dtype == types@[k],
        decreases width - j,
    {
        fields.push(Field { name: copy_chars(&names[j]), dtype: types[j] });
        j = j + 1;
    }
    let t = Table { fields, rows };
    proof {
        assert(t.schema() =~= csv_schema(text@, has_header));
        assert(t.cells() =~= table_cells(dv, ts));
        lemma_cells_fit(dv, ts, width as nat, t.schema());
    }
    Ok(t)
}

/// In a float column every present field reads as a number that widens to a float.
proof fn lemma_float_column(rows: Seq<Seq<Seq<char>>>, j: int, i: int)
    requires
        0 <= i < rows.len(),
    ensures
        column_type(column_cells(rows, j)) == DataType::Float ==> float_like(classify(rows[i][j])) || classify(rows[i][j]) is Null,
{
    let cs = column_cells(rows, j);
    assert(cs[i] == classify(rows[i][j]));
}

/// The cells that `read_csv` builds fit the inferred types.
proof fn lemma_cells_fit(rows: Seq<Seq<Seq<char>>>, ts: Seq<DataType>, width: nat, s: Seq<(Seq<char>, DataType)>)
    requires
        ts == column_types(rows, width),
        s.len() == width,
        forall|j: int| 0 <= j < width ==> #[trigger] s[j].1 == ts[j],
        forall|q: int| 0 <= q < rows.len() ==> #[trigger] rows[q].len() == width,
    ensures
        crate::table::rows_fit(s, table_cells(rows, ts)),
{
    let tc = table_cells(rows, ts);
    assert forall|i: int| 0 <= i < tc.len() implies #[trigger] tc[i].len() == s.len() && (forall|j: int|
        0 <= j < s.len() ==> fits(#[trigger] tc[i][j], s[j].1)) by {
        assert forall|j: int| 0 <= j < s.len() implies fits(#[trigger] tc[i][j], s[j].1) by {
            let f = rows[i][j];
            let c = classify(f);
            let cs = column_cells(rows, j);
            assert(cs[i] == c);
            crate::text::lemma_classify_range(f);
            assert(tc[i][j] == cell_as(f, c, ts[j]));
            let t = column_type(cs);
            assert(ts[j] == t);
            if !(c is Null) {
                if t == DataType::Boolean {
                    assert(cs[i] is Null || cs[i] is Bool);
                } else if t == DataType::Integer {
                    assert(cs[i] is Null || cs[i] is Int);
                } else if t == DataType::Float {
                    assert(cs[i] is Null || float_like(cs[i]));
                    if let Cell::Int(v) = c {
                        assert(-1_000_000_000_000_000_000 < v * SCALE < 1_000_000_000_000_000_000) by (nonlinear_arith)
                            requires
                                -1_000_000_000_000 < v < 1_000_000_000_000,
                                SCALE == 1_000_000,
                        ;
                    }
                }
            }
        }
    }
}

} // verus!
