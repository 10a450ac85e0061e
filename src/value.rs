//! Cell values, their types, and the orders and equalities the queries use.
use vstd::prelude::*;

verus! {

/// Fixed-point scale of floating-point cells: a `Float(m)` stands for `m / SCALE`.
pub const SCALE: i64 = 1_000_000;

/// The declared type of a column.
#[derive(Clone, Copy, Debug, PartialEq, Eq, Structural)]
pub enum DataType {
    Boolean,
    Integer,
    Float,
    Text,
}

/// One cell. Floating-point cells hold millionths (see `SCALE`).
#[derive(Clone, Debug, PartialEq, Eq)]
pub enum Value {
    Null,
    Bool(bool),
    Int(i64),
    Float(i64),
    Str(Vec<char>),
}

/// What a cell holds, as mathematical values.
pub enum Cell {
    Null,
    Bool(bool),
    Int(int),
    Float(int),
    Str(Seq<char>),
}

impl View for Value {
    type V = Cell;

    open spec fn view(&self) -> Cell {
        match self {
            Value::Null => Cell::Null,
            Value::Bool(b) => Cell::Bool(*b),
            Value::Int(x) => Cell::Int(*x as int),
            Value::Float(x) => Cell::Float(*x as int),
            Value::Str(s) => Cell::Str(s@),
        }
    }
}

/// Whether a cell may stand in a column of type `t` (a null may stand anywhere).
pub open spec fn fits(v: Cell, t: DataType) -> bool {
    match v {
        Cell::Null => true,
        Cell::Bool(_) => t == DataType::Boolean,
        Cell::Int(x) => t == DataType::Integer && i64::MIN <= x <= i64::MAX,
        Cell::Float(x) => t == DataType::Float && i64::MIN <= x <= i64::MAX,
        Cell::Str(_) => t == DataType::Text,
    }
}

/// Lexicographic order of character sequences: -1, 0 or 1.
pub open spec fn chars_cmp(a: Seq<char>, b: Seq<char>) -> int
    decreases a.len(),
{
    if a.len() == 0 {
        if b.len() == 0 { 0 } else { -1 }
    } else if b.len() == 0 {
        1
    } else if a[0] < b[0] {
        -1
    } else if a[0] > b[0] {
        1
    } else {
        chars_cmp(a.drop_first(), b.drop_first())
    }
}

pub open spec fn int_cmp(x: int, y: int) -> int {
    if x < y { -1 } else if x > y { 1 } else { 0 }
}

/// Comparison of two non-null cells of comparable types; `None` when either is
/// null or the types cannot be compared. Integers and floats compare as numbers.
pub open spec fn value_cmp(a: Cell, b: Cell) -> Option<int> {
    match (a, b) {
        (Cell::Bool(x), Cell::Bool(y)) => Some(
            if x == y { 0 } else if !x { -1 } else { 1 },
        ),
        (Cell::Int(x), Cell::Int(y)) => Some(int_cmp(x, y)),
        (Cell::Float(x), Cell::Float(y)) => Some(int_cmp(x, y)),
        (Cell::Int(x), Cell::Float(y)) => Some(int_cmp(x * SCALE, y)),
        (Cell::Float(x), Cell::Int(y)) => Some(int_cmp(x, y * SCALE)),
        (Cell::Str(x), Cell::Str(y)) => Some(chars_cmp(x, y)),
        _ => None,
    }
}

proof fn lemma_chars_cmp_suffix(a: Seq<char>, b: Seq<char>, i: int)
    requires
        0 <= i < a.len(),
        i < b.len(),
        a[i] == b[i],
    ensures
        chars_cmp(a.subrange(i, a.len() as int), b.subrange(i, b.len() as int)) == chars_cmp(
            a.subrange(i + 1, a.len() as int),
            b.subrange(i + 1, b.len() as int),
        ),
{
    assert(a.subrange(i, a.len() as int).drop_first() =~= a.subrange(i + 1, a.len() as int));
    assert(b.subrange(i, b.len() as int).drop_first() =~= b.subrange(i + 1, b.len() as int));
}

/// Compares two character sequences lexicographically.
pub fn compare_chars(a: &Vec<char>, b: &Vec<char>) -> (r: i8)
    ensures
        r as int == chars_cmp(a@, b@),
        -1 <= r <= 1,
{
    let mut i: usize = 0;
    proof {
        assert(a@.subrange(0, a@.len() as int) =~= a@);
        assert(b@.subrange(0, b@.len() as int) =~= b@);
    }
    while i < a.len() && i < b.len()
        invariant
            i <= a.len(),
            i <= b.len(),
            chars_cmp(a@, b@) == chars_cmp(
                a@.subrange(i as int, a@.len() as int),
                b@.subrange(i as int, b@.len() as int),
            ),
        decreases a.len() - i,
    {
        let x = a[i];
        let y = b[i];
        if x < y {
            return -1;
        }
        if x > y {
            return 1;
        }
        proof {
            lemma_chars_cmp_suffix(a@, b@, i as int);
        }
        i = i + 1;
    }
    if i < a.len() {
        1
    } else if i < b.len() {
        -1
    } else {
        0
    }
}

fn compare_ints(x: i128, y: i128) -> (r: i8)
    ensures
        r as int == int_cmp(x as int, y as int),
{
    if x < y {
        -1
    } else if x > y {
        1
    } else {
        0
    }
}

/// An integer as a fixed-point number of millionths.
pub fn scaled(x: i64) -> (r: i128)
    ensures
        r == x * SCALE,
{
    let w = x as i128;
    proof {
        assert(-0x8000_0000_0000_0000 <= w <= 0x7fff_ffff_ffff_ffff);
        assert(-0x8000_0000_0000_0000 * 1_000_000 <= w * 1_000_000 <= 0x7fff_ffff_ffff_ffff * 1_000_000)
            by (nonlinear_arith)
            requires
                -0x8000_0000_0000_0000 <= w <= 0x7fff_ffff_ffff_ffff,
        ;
    }
    w * 1_000_000
}

/// Compares two cells; see `value_cmp`.
pub fn compare(a: &Value, b: &Value) -> (r: Option<i8>)
    ensures
        match value_cmp(a@, b@) {
            Some(c) => r == Some(c as i8) && -1 <= c <= 1,
            None => r.is_none(),
        },
{
    match (a, b) {
        (Value::Bool(x), Value::Bool(y)) => Some(
            if *x == *y {
                0
            } else if !*x {
                -1
            } else {
                1
            },
        ),
        (Value::Int(x), Value::Int(y)) => Some(compare_ints(*x as i128, *y as i128)),
        (Value::Float(x), Value::Float(y)) => Some(compare_ints(*x as i128, *y as i128)),
        (Value::Int(x), Value::Float(y)) => Some(compare_ints(scaled(*x), *y as i128)),
        (Value::Float(x), Value::Int(y)) => Some(compare_ints(*x as i128, scaled(*y))),
        (Value::Str(x), Value::Str(y)) => Some(compare_chars(x, y)),
        _ => None,
    }
}

/// Whether two cells hold the same value (nulls are equal to each other).
pub fn values_equal(a: &Value, b: &Value) -> (r: bool)
    ensures
        r == (a@ == b@),
{
    match (a, b) {
        (Value::Null, Value::Null) => true,
        (Value::Bool(x), Value::Bool(y)) => *x == *y,
        (Value::Int(x), Value::Int(y)) => *x == *y,
        (Value::Float(x), Value::Float(y)) => *x == *y,
        (Value::Str(x), Value::Str(y)) => {
            let c = compare_chars(x, y);
            proof {
                lemma_chars_cmp_zero(x@, y@);
            }
            c == 0
        },
        _ => false,
    }
}

/// Copies a cell.
pub fn copy_value(v: &Value) -> (r: Value)
    ensures
        r@ == v@,
{
    match v {
        Value::Null => Value::Null,
        Value::Bool(b) => Value::Bool(*b),
        Value::Int(x) => Value::Int(*x),
        Value::Float(x) => Value::Float(*x),
        Value::Str(s) => Value::Str(copy_chars(s)),
    }
}

/// Copies a character sequence.
pub fn copy_chars(s: &Vec<char>) -> (r: Vec<char>)
    ensures
        r@ == s@,
{
    let mut r: Vec<char> = Vec::new();
    let mut i: usize = 0;
    while i < s.len()
        invariant
            i <= s.len(),
            r@ == s@.subrange(0, i as int),
        decreases s.len() - i,
    {
        r.push(s[i]);
        i = i + 1;
        proof {
            assert(r@ =~= s@.subrange(0, i as int));
        }
    }
    proof {
        assert(r@ =~= s@);
    }
    r
}

/// Characters compare equal exactly when the sequences are equal.
pub proof fn lemma_chars_cmp_zero(a: Seq<char>, b: Seq<char>)
    ensures
        (chars_cmp(a, b) == 0) == (a == b),
    decreases a.len(),
{
    if a.len() > 0 && b.len() > 0 {
        lemma_chars_cmp_zero(a.drop_first(), b.drop_first());
        if a[0] == b[0] {
            if a.drop_first() == b.drop_first() {
                assert(a =~= seq![a[0]] + a.drop_first());
                assert(b =~= seq![b[0]] + b.drop_first());
            }
        } else {
            assert(a[0] != b[0]);
        }
        if a == b {
            assert(a.drop_first() == b.drop_first());
        }
    } else if a.len() == 0 && b.len() != 0 {
        assert(a != b);
    } else if a.len() != 0 && b.len() == 0 {
        assert(a != b);
    } else {
        assert(a =~= b);
    }
}

} // verus!

verus! {

/// Swapping the arguments of `chars_cmp` negates it.
pub proof fn lemma_chars_cmp_antisym(a: Seq<char>, b: Seq<char>)
    ensures
        chars_cmp(a, b) == -chars_cmp(b, a),
        -1 <= chars_cmp(a, b) <= 1,
    decreases a.len(),
{
    if a.len() > 0 && b.len() > 0 {
        lemma_chars_cmp_antisym(a.drop_first(), b.drop_first());
    }
}

/// `chars_cmp` is a strict order.
pub proof fn lemma_chars_cmp_trans(a: Seq<char>, b: Seq<char>, c: Seq<char>)
    requires
        chars_cmp(a, b) < 0,
        chars_cmp(b, c) < 0,
    ensures
        chars_cmp(a, c) < 0,
    decreases a.len(),
{
    if a.len() > 0 && b.len() > 0 && c.len() > 0 {
        if a[0] == b[0] && b[0] == c[0] {
            lemma_chars_cmp_trans(a.drop_first(), b.drop_first(), c.drop_first());
        }
    }
}

/// Order of sort keys: nulls last whatever the direction; otherwise `value_cmp`,
/// reversed when `desc`.
pub open spec fn key_cmp(a: Cell, b: Cell, desc: bool) -> int {
    if a is Null {
        if b is Null { 0 } else { 1 }
    } else if b is Null {
        -1
    } else {
        let c = match value_cmp(a, b) {
            Some(c) => c,
            None => 0,
        };
        if desc { -c } else { c }
    }
}

/// Compares two sort keys; see `key_cmp`.
pub fn compare_keys(a: &Value, b: &Value, desc: bool) -> (r: i8)
    ensures
        r as int == key_cmp(a@, b@, desc),
{
    match (a, b) {
        (Value::Null, Value::Null) => 0,
        (Value::Null, _) => 1,
        (_, Value::Null) => -1,
        _ => {
            let c: i8 = match compare(a, b) {
                Some(c) => c,
                None => 0,
            };
            if desc { -c } else { c }
        },
    }
}

/// On cells of one column type, `key_cmp` is a total order.
pub proof fn lemma_key_order(a: Cell, b: Cell, c: Cell, t: DataType, desc: bool)
    requires
        fits(a, t),
        fits(b, t),
        fits(c, t),
    ensures
        key_cmp(a, b, desc) == -key_cmp(b, a, desc),
        key_cmp(a, a, desc) == 0,
        key_cmp(a, b, desc) == 0 ==> a == b,
        key_cmp(a, b, desc) <= 0 && key_cmp(b, c, desc) <= 0 ==> key_cmp(a, c, desc) <= 0,
        key_cmp(a, b, desc) <= 0 && key_cmp(b, c, desc) < 0 ==> key_cmp(a, c, desc) < 0,
        key_cmp(a, b, desc) < 0 && key_cmp(b, c, desc) <= 0 ==> key_cmp(a, c, desc) < 0,
{
    match (a, b, c) {
        (Cell::Str(x), Cell::Str(y), Cell::Str(z)) => {
            lemma_chars_cmp_antisym(x, y);
            lemma_chars_cmp_antisym(y, z);
            lemma_chars_cmp_antisym(x, z);
            lemma_chars_cmp_zero(x, x);
            lemma_chars_cmp_zero(x, y);
            lemma_chars_cmp_zero(y, z);
            lemma_chars_cmp_zero(x, z);
            if desc {
                if chars_cmp(z, y) < 0 && chars_cmp(y, x) < 0 {
                    lemma_chars_cmp_trans(z, y, x);
                }
                lemma_chars_cmp_antisym(z, x);
            } else if chars_cmp(x, y) < 0 && chars_cmp(y, z) < 0 {
                lemma_chars_cmp_trans(x, y, z);
            }
        },
        (Cell::Str(x), Cell::Str(y), _) => {
            lemma_chars_cmp_antisym(x, y);
            lemma_chars_cmp_zero(x, x);
            lemma_chars_cmp_zero(x, y);
        },
        (Cell::Str(x), _, _) => {
            lemma_chars_cmp_zero(x, x);
        },
        _ => {},
    }
}

} // verus!
