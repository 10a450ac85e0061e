use lazy_table::column::add_3;
use lazy_table::csv::read_csv;
use lazy_table::error::QueryError;
use lazy_table::expr::{ArithOp, Expr, Projection};
use lazy_table::group::{Agg, Aggregation};
use lazy_table::plan::{LazyPlan, Op};
use lazy_table::predicate::{CmpOp, Predicate};
use lazy_table::predicate::{drop_nulls, filter};
use lazy_table::sort::sort;
use lazy_table::table::Table;
use lazy_table::value::{DataType, Value};

fn s(x: &str) -> Vec<char> {
    x.chars().collect()
}

fn text(x: &str) -> Value {
    Value::Str(s(x))
}

fn csv(x: &str) -> Table {
    read_csv(&s(x), true).unwrap()
}

fn col(name: &str) -> Box<Expr> {
    Box::new(Expr::Col(s(name)))
}

fn proj(e: Expr, alias: &str) -> Projection {
    Projection { expr: e, alias: s(alias) }
}

fn eq(column: &str, v: Value) -> Predicate {
    Predicate::Compare(s(column), CmpOp::Eq, v)
}

#[test]
fn csv_counts_match_lines_and_fields() {
    let t = csv("a,b,c\n1,2,3\n4,5,6\n7,8,9\n");
    assert_eq!(t.width(), 3);
    assert_eq!(t.len(), 3);
    let t = read_csv(&s("a,b\n1,2\n3,4"), false).unwrap();
    assert_eq!(t.width(), 2);
    assert_eq!(t.len(), 3);
    assert_eq!(t.fields[0].name, s("column_1"));
    assert_eq!(t.fields[1].name, s("column_2"));
}

#[test]
fn csv_infers_types() {
    let t = csv("b,i,f,w,t,e\ntrue,1,2.5,3,x,\nfalse,-20,3,1.25,7,\n");
    let types: Vec<DataType> = t.fields.iter().map(|f| f.dtype).collect();
    assert_eq!(
        types,
        vec![DataType::Boolean, DataType::Integer, DataType::Float, DataType::Float, DataType::Text, DataType::Text]
    );
    assert_eq!(
        t.rows[0],
        vec![Value::Bool(true), Value::Int(1), Value::Float(2_500_000), Value::Float(3_000_000), text("x"), Value::Null]
    );
    assert_eq!(
        t.rows[1],
        vec![Value::Bool(false), Value::Int(-20), Value::Float(3_000_000), Value::Float(1_250_000), text("7"), Value::Null]
    );
}

#[test]
fn csv_rejects_ragged_rows_and_clashing_names() {
    assert_eq!(read_csv(&s("a,b\n1,2\n3\n"), true), Err(QueryError::ParseError));
    assert_eq!(read_csv(&s("a,a\n1,2\n"), true), Err(QueryError::ParseError));
    let t = read_csv(&s(""), true).unwrap();
    assert_eq!((t.width(), t.len()), (0, 0));
}

#[test]
fn filter_twice_is_filter_once() {
    let t = csv("k,v\na,1\nb,2\na,3\n,4\n");
    let p = eq("k", text("a"));
    let once = filter(&t, &p).unwrap();
    let twice = filter(&once, &p).unwrap();
    assert_eq!(once, twice);
    assert_eq!(once.rows, vec![vec![text("a"), Value::Int(1)], vec![text("a"), Value::Int(3)]]);
}

#[test]
fn filter_nulls_never_pass() {
    let t = csv("k,v\na,1\n,2\n");
    let not_a = Predicate::Not(Box::new(eq("k", text("a"))));
    assert_eq!(filter(&t, &not_a).unwrap().len(), 0);
    let present = Predicate::NotNull(s("k"));
    assert_eq!(filter(&t, &present).unwrap().len(), 1);
    let gt = Predicate::Compare(s("v"), CmpOp::Gt, Value::Float(1_500_000));
    assert_eq!(filter(&t, &gt).unwrap().rows, vec![vec![Value::Null, Value::Int(2)]]);
    assert_eq!(filter(&t, &eq("nope", Value::Int(1))), Err(QueryError::SchemaError));
}

#[test]
fn head_takes_min_of_n_and_len() {
    let t = csv("x\n1\n2\n3\n");
    assert_eq!(t.head(2).unwrap().len(), 2);
    assert_eq!(t.head(10).unwrap().len(), 3);
    assert_eq!(t.head(0).unwrap().len(), 0);
    assert_eq!(t.head(-1), Err(QueryError::InvalidArgument));
}

#[test]
fn group_counts_add_up_to_rows() {
    let t = csv("d,s\nx,1\ny,2\nx,3\n,4\nx,1\n");
    let aggs = vec![
        Aggregation { op: Agg::Count, alias: s("n") },
        Aggregation { op: Agg::CountDistinct(s("s")), alias: s("u") },
        Aggregation { op: Agg::Min(s("s")), alias: s("lo") },
        Aggregation { op: Agg::Max(s("s")), alias: s("hi") },
        Aggregation { op: Agg::Mean(s("s")), alias: s("m") },
    ];
    let g = lazy_table::group::group_by(&t, &s("d"), &aggs).unwrap();
    assert_eq!(
        g.rows,
        vec![
            vec![text("x"), Value::Int(3), Value::Int(2), Value::Int(1), Value::Int(3), Value::Float(1_666_666)],
            vec![text("y"), Value::Int(1), Value::Int(1), Value::Int(2), Value::Int(2), Value::Float(2_000_000)],
            vec![Value::Null, Value::Int(1), Value::Int(1), Value::Int(4), Value::Int(4), Value::Float(4_000_000)],
        ]
    );
    let total: i64 = g.rows.iter().map(|r| match r[1] {
        Value::Int(n) => n,
        _ => 0,
    }).sum();
    assert_eq!(total, t.len() as i64);
}

#[test]
fn group_errors() {
    let t = csv("d,s\nx,a\n");
    let mean_text = vec![Aggregation { op: Agg::Mean(s("s")), alias: s("m") }];
    assert_eq!(lazy_table::group::group_by(&t, &s("d"), &mean_text), Err(QueryError::TypeMismatch));
    let clash = vec![Aggregation { op: Agg::Count, alias: s("d") }];
    assert_eq!(lazy_table::group::group_by(&t, &s("d"), &clash), Err(QueryError::SchemaError));
    assert_eq!(lazy_table::group::group_by(&t, &s("zz"), &vec![]), Err(QueryError::SchemaError));
}

#[test]
fn sort_keeps_order_of_equal_keys() {
    let t = csv("k,tag\n2,a\n1,b\n2,c\n1,d\n,e\n");
    let asc = sort(&t, &vec![s("k")], false).unwrap();
    let tags: Vec<Value> = asc.rows.iter().map(|r| r[1].clone()).collect();
    assert_eq!(tags, vec![text("b"), text("d"), text("a"), text("c"), text("e")]);
    let desc = sort(&t, &vec![s("k")], true).unwrap();
    let tags: Vec<Value> = desc.rows.iter().map(|r| r[1].clone()).collect();
    assert_eq!(tags, vec![text("a"), text("c"), text("b"), text("d"), text("e")]);
    assert_eq!(sort(&t, &vec![s("nope")], false), Err(QueryError::SchemaError));
}

#[test]
fn oldest_tv_shows_scenario() {
    let src = csv("title,type,release_year\nA,TV Show,1999\nB,Movie,2020\nC,TV Show,1985\n");
    let plan = LazyPlan::scan(src)
        .then(Op::Filter(eq("type", text("TV Show"))))
        .then(Op::Select(vec![
            proj(Expr::Col(s("title")), "title"),
            proj(Expr::ToFloat(col("release_year")), "release_year"),
        ]))
        .then(Op::Sort(vec![s("release_year")], false));
    let out = plan.collect().unwrap().head(5).unwrap();
    assert_eq!(out.len(), 2);
    assert_eq!(out.fields[1].dtype, DataType::Float);
    assert_eq!(
        out.rows,
        vec![vec![text("C"), Value::Float(1_985_000_000)], vec![text("A"), Value::Float(1_999_000_000)]]
    );
}

#[test]
fn relative_ash_scenario() {
    let t = csv("ash\n2.0\n4.0\n6.0\n");
    let ps = vec![proj(Expr::Arith(ArithOp::Div, col("ash"), Box::new(Expr::Mean(s("ash")))), "relative_ash")];
    let out = lazy_table::expr::select(&t, &ps).unwrap();
    assert_eq!(
        out.rows,
        vec![vec![Value::Float(500_000)], vec![Value::Float(1_000_000)], vec![Value::Float(1_500_000)]]
    );
}

#[test]
fn select_arithmetic_and_aggregates() {
    let t = csv("a,p\n14.5,1.25\n13,2\n");
    let ps = vec![
        proj(Expr::Col(s("a")), "alcohol_level"),
        proj(Expr::Arith(ArithOp::Add, col("p"), Box::new(Expr::Lit(Value::Int(2)))), "p+2"),
        proj(Expr::Arith(ArithOp::Mul, col("a"), col("p")), "ap"),
    ];
    let out = lazy_table::expr::select(&t, &ps).unwrap();
    assert_eq!(
        out.rows,
        vec![
            vec![Value::Float(14_500_000), Value::Float(3_250_000), Value::Float(18_125_000)],
            vec![Value::Float(13_000_000), Value::Float(4_000_000), Value::Float(26_000_000)],
        ]
    );
    let aggs = vec![proj(Expr::Min(s("a")), "min_a"), proj(Expr::Max(s("a")), "max_a")];
    let out = lazy_table::expr::select(&t, &aggs).unwrap();
    assert_eq!(out.rows, vec![vec![Value::Float(13_000_000), Value::Float(14_500_000)]]);
}

#[test]
fn select_errors() {
    let t = csv("n,w\n999999999999,x\n");
    let over = vec![proj(Expr::Arith(ArithOp::Mul, col("n"), col("n")), "n2")];
    assert_eq!(lazy_table::expr::select(&t, &over), Err(QueryError::Overflow));
    let bad = vec![proj(Expr::Arith(ArithOp::Add, col("w"), col("n")), "x")];
    assert_eq!(lazy_table::expr::select(&t, &bad), Err(QueryError::TypeMismatch));
    let unknown = vec![proj(Expr::Col(s("zz")), "x")];
    assert_eq!(lazy_table::expr::select(&t, &unknown), Err(QueryError::SchemaError));
    let clash = vec![proj(Expr::Col(s("n")), "x"), proj(Expr::Col(s("w")), "x")];
    assert_eq!(lazy_table::expr::select(&t, &clash), Err(QueryError::SchemaError));
}

#[test]
fn add_three_to_floats() {
    let r = add_3(DataType::Float, &vec![Value::Float(1_500_000), Value::Null]).unwrap();
    assert_eq!(r, vec![Value::Float(4_500_000), Value::Null]);
    assert_eq!(add_3(DataType::Integer, &vec![Value::Int(1)]), Err(QueryError::TypeMismatch));
}

#[test]
fn plan_stops_at_first_error() {
    let src = csv("a\n1\n");
    let plan = LazyPlan::scan(src)
        .then(Op::Sort(vec![s("zz")], false))
        .then(Op::Select(vec![proj(Expr::Col(s("a")), "a")]));
    assert_eq!(plan.collect(), Err(QueryError::SchemaError));
}

#[test]
fn sort_on_several_columns() {
    let t = csv("a,b,tag\n1,2,x\n0,5,y\n1,1,z\n0,5,w\n");
    let out = sort(&t, &vec![s("a"), s("b")], false).unwrap();
    let tags: Vec<Value> = out.rows.iter().map(|r| r[2].clone()).collect();
    assert_eq!(tags, vec![text("y"), text("w"), text("z"), text("x")]);
    let same = sort(&t, &vec![], false).unwrap();
    assert_eq!(same.rows, t.rows);
}

#[test]
fn drop_nulls_on_named_or_all_columns() {
    let t = csv("a,b\n1,\n,2\n3,4\n");
    assert_eq!(drop_nulls(&t, &vec![s("a")]).unwrap().len(), 2);
    assert_eq!(drop_nulls(&t, &vec![]).unwrap().rows, vec![vec![Value::Int(3), Value::Int(4)]]);
    assert_eq!(drop_nulls(&t, &vec![s("c")]), Err(QueryError::SchemaError));
}

#[test]
fn csv_quoted_fields() {
    let t = csv("title,desc\n\"a, b\",\"say \"\"hi\"\"\"\nplain,x\n");
    assert_eq!(t.width(), 2);
    assert_eq!(t.rows[0], vec![text("a, b"), text("say \"hi\"")]);
    assert_eq!(t.rows[1], vec![text("plain"), text("x")]);
}
