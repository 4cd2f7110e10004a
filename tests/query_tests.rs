use engine::binder::{BindError, Binder, BoundExpr, BoundStmt, Catalog, DataType, Value};
use engine::executor::{
    eval_binop, eval_expr, eval_predicate, ExecError, Executor, FilterOp, Operator, ProjectionOp,
    RowsOp,
};
use engine::lexer::{tokenize, LexError, TokenKind};
use engine::optimizer::Optimizer;
use engine::parser::{BinaryOp, Expr, Parser, Statement};
use engine::physical_planner::{PhysicalPlan, PhysicalPlanner};
use engine::planner::{LogicalPlan, Planner};
use engine::storage::Catalog as StorageCatalog;

fn parse(sql: &str) -> Statement {
    let mut p = Parser::new(sql).expect("lexes");
    p.parse_statement().expect("parses")
}

fn users_binder() -> Binder {
    let mut b = Binder::new(Catalog::new());
    b.bind(parse("CREATE TABLE users(id INT, name VARCHAR);")).expect("binds");
    b
}

fn int_row(vals: &[i64]) -> Vec<Value> {
    vals.iter().map(|v| Value::Int(*v)).collect()
}

#[test]
fn lexes_keywords_identifiers_and_literals() {
    let toks = tokenize("select Id, 'it''s' FROM t WHERE x <= 42 -- trailing\n;").unwrap();
    let kinds: Vec<TokenKind> = toks.iter().map(|t| t.kind.clone()).collect();
    assert_eq!(
        kinds,
        vec![
            TokenKind::Select,
            TokenKind::Identifier("Id".to_string()),
            TokenKind::Comma,
            TokenKind::StringLiteral("it".to_string()),
            TokenKind::StringLiteral("s".to_string()),
            TokenKind::From,
            TokenKind::Identifier("t".to_string()),
            TokenKind::Where,
            TokenKind::Identifier("x".to_string()),
            TokenKind::LtEq,
            TokenKind::IntLiteral(42),
            TokenKind::Semicolon,
            TokenKind::EOF,
        ]
    );
    assert_eq!((toks[0].line, toks[0].col), (1, 1));
    assert_eq!((toks[11].line, toks[11].col), (2, 1));
}

#[test]
fn lexes_not_equal_and_comparisons() {
    let toks = tokenize("a <> b >= c > d < e").unwrap();
    assert_eq!(toks[1].kind, TokenKind::NotEq);
    assert_eq!(toks[3].kind, TokenKind::GtEq);
    assert_eq!(toks[5].kind, TokenKind::Gt);
    assert_eq!(toks[7].kind, TokenKind::Lt);
}

#[test]
fn lex_errors_carry_positions() {
    match tokenize("SELECT 'abc") {
        Err(LexError::UnterminatedString(1, 12)) => {}
        other => panic!("unexpected {:?}", other),
    }
    match tokenize("SELECT #") {
        Err(LexError::UnexpectedChar('#', 1, 8)) => {}
        other => panic!("unexpected {:?}", other),
    }
    match tokenize("99999999999999999999") {
        Err(LexError::InvalidNumber(s, 1, 1)) => assert_eq!(s, "99999999999999999999"),
        other => panic!("unexpected {:?}", other),
    }
}

#[test]
fn parses_create_table() {
    match parse("CREATE TABLE users(id INT, name VARCHAR);") {
        Statement::CreateTable { name, columns } => {
            assert_eq!(name, "users");
            assert_eq!(
                columns,
                vec![
                    ("id".to_string(), "INT".to_string()),
                    ("name".to_string(), "VARCHAR".to_string())
                ]
            );
        }
        other => panic!("unexpected {:?}", other),
    }
}

#[test]
fn parses_create_index_with_words_in_any_case() {
    match parse("create index ix on users(id);") {
        Statement::CreateIndex { index_name, table, column } => {
            assert_eq!((index_name.as_str(), table.as_str(), column.as_str()), ("ix", "users", "id"));
        }
        other => panic!("unexpected {:?}", other),
    }
}

#[test]
fn parses_precedence_and_parentheses() {
    match parse("SELECT a FROM t WHERE a = 1 OR b = 2 AND c = 3;") {
        Statement::Select { filter: Some(Expr::BinaryOp { op, right, .. }), .. } => {
            assert_eq!(op, BinaryOp::Or);
            assert!(matches!(*right, Expr::BinaryOp { op: BinaryOp::And, .. }));
        }
        other => panic!("unexpected {:?}", other),
    }
    match parse("SELECT a FROM t WHERE (a = 1 OR b = 2) AND c = 3;") {
        Statement::Select { filter: Some(Expr::BinaryOp { op, left, .. }), .. } => {
            assert_eq!(op, BinaryOp::And);
            assert!(matches!(*left, Expr::BinaryOp { op: BinaryOp::Or, .. }));
        }
        other => panic!("unexpected {:?}", other),
    }
}

#[test]
fn rejects_missing_semicolon_and_unknown_start() {
    let mut p = Parser::new("SELECT a FROM t").unwrap();
    assert!(p.parse_statement().is_err());
    let mut p = Parser::new("UPDATE t;").unwrap();
    assert!(p.parse_statement().is_err());
}

#[test]
fn data_type_names() {
    assert_eq!(DataType::from_str("Integer"), Some(DataType::Int));
    assert_eq!(DataType::from_str("TEXT"), Some(DataType::Varchar));
    assert_eq!(DataType::from_str("string"), Some(DataType::Varchar));
    assert_eq!(DataType::from_str("float"), None);
}

#[test]
fn duplicate_table_is_a_bind_error() {
    let mut b = Binder::new(Catalog::new());
    assert!(b.bind(parse("CREATE TABLE users(id INT);")).is_ok());
    match b.bind(parse("CREATE TABLE Users(id INT);")) {
        Err(BindError::DuplicateTable(_)) => {}
        other => panic!("unexpected {:?}", other),
    }
    assert_eq!(b.catalog.tables.len(), 1);
}

#[test]
fn unknown_type_column_and_arity_are_bind_errors() {
    let mut b = Binder::new(Catalog::new());
    assert!(matches!(
        b.bind(parse("CREATE TABLE t(a BLOB);")),
        Err(BindError::UnknownType(_))
    ));
    let mut b = users_binder();
    assert!(matches!(
        b.bind(parse("SELECT age FROM users;")),
        Err(BindError::UnknownColumn(_))
    ));
    assert!(matches!(
        b.bind(parse("INSERT INTO users(id) VALUES (1, 'a');")),
        Err(BindError::ArityMismatch)
    ));
    assert!(matches!(
        b.bind(parse("SELECT id FROM nobody;")),
        Err(BindError::UnknownTable(_))
    ));
}

#[test]
fn binds_columns_to_ordinals() {
    let mut b = users_binder();
    match b.bind(parse("SELECT name, id FROM users WHERE id > 1;")).unwrap() {
        BoundStmt::Select { projections, filter, .. } => {
            assert!(matches!(projections[0], BoundExpr::Column { ordinal: 1, data_type: DataType::Varchar, .. }));
            assert!(matches!(projections[1], BoundExpr::Column { ordinal: 0, data_type: DataType::Int, .. }));
            assert!(matches!(filter, Some(BoundExpr::BinaryOp { op: BinaryOp::Gt, data_type: DataType::Int, .. })));
        }
        other => panic!("unexpected {:?}", other),
    }
    match b.bind(parse("INSERT INTO users(name, id) VALUES ('bob', 2);")).unwrap() {
        BoundStmt::Insert { col_ordinals, values, .. } => {
            assert_eq!(col_ordinals, vec![1, 0]);
            assert_eq!(values.len(), 2);
        }
        other => panic!("unexpected {:?}", other),
    }
    match b.bind(parse("CREATE INDEX ix ON users(id);")).unwrap() {
        BoundStmt::CreateIndex { order, .. } => assert_eq!(order, 4),
        other => panic!("unexpected {:?}", other),
    }
}

fn select_plan(b: &mut Binder, sql: &str) -> LogicalPlan {
    let bound = b.bind(parse(sql)).unwrap();
    let planner = Planner::new(&b.catalog);
    planner.plan(bound).unwrap()
}

#[test]
fn select_plans_projection_over_filter_over_scan() {
    let mut b = users_binder();
    match select_plan(&mut b, "SELECT id FROM users WHERE id > 1;") {
        LogicalPlan::Projection { input, exprs } => {
            assert_eq!(exprs.len(), 1);
            match *input {
                LogicalPlan::Filter { input, .. } => {
                    assert!(matches!(*input, LogicalPlan::SeqScan { predicate: None, .. }))
                }
                other => panic!("unexpected {:?}", other),
            }
        }
        other => panic!("unexpected {:?}", other),
    }
}

fn lit(v: i64) -> BoundExpr {
    BoundExpr::Literal(Value::Int(v))
}

fn col(ordinal: usize) -> BoundExpr {
    BoundExpr::Column { table: "t".to_string(), col: "c".to_string(), ordinal, data_type: DataType::Int }
}

fn cmp(l: BoundExpr, op: BinaryOp, r: BoundExpr) -> BoundExpr {
    BoundExpr::BinaryOp { left: Box::new(l), op, right: Box::new(r), data_type: DataType::Int }
}

fn scan() -> LogicalPlan {
    LogicalPlan::SeqScan { table: "t".to_string(), predicate: None }
}

#[test]
fn optimizer_merges_filters_and_projections() {
    let plan = LogicalPlan::Filter {
        input: Box::new(LogicalPlan::Filter {
            input: Box::new(scan()),
            predicate: cmp(col(0), BinaryOp::Gt, lit(1)),
        }),
        predicate: cmp(col(0), BinaryOp::Lt, lit(5)),
    };
    match Optimizer::optimize(plan) {
        LogicalPlan::Filter { input, predicate } => {
            assert!(matches!(*input, LogicalPlan::SeqScan { .. }));
            assert!(matches!(predicate, BoundExpr::BinaryOp { op: BinaryOp::And, .. }));
        }
        other => panic!("unexpected {:?}", other),
    }
    let plan = LogicalPlan::Projection {
        input: Box::new(LogicalPlan::Projection { input: Box::new(scan()), exprs: vec![col(0), col(1)] }),
        exprs: vec![col(1)],
    };
    match Optimizer::optimize(plan) {
        LogicalPlan::Projection { input, exprs } => {
            assert!(matches!(*input, LogicalPlan::SeqScan { .. }));
            assert_eq!(exprs.len(), 1);
        }
        other => panic!("unexpected {:?}", other),
    }
}

#[test]
fn optimizer_pushes_filter_below_projection() {
    let plan = LogicalPlan::Filter {
        input: Box::new(LogicalPlan::Projection { input: Box::new(scan()), exprs: vec![col(0)] }),
        predicate: cmp(col(0), BinaryOp::Eq, lit(2)),
    };
    match Optimizer::optimize(plan) {
        LogicalPlan::Projection { input, .. } => {
            assert!(matches!(*input, LogicalPlan::Filter { .. }))
        }
        other => panic!("unexpected {:?}", other),
    }
}

/// Runs a `SELECT` over the given rows of its table: bind, plan, optimize,
/// choose scans (no index), execute.
fn run_select(b: &mut Binder, sql: &str, rows: Vec<Vec<Value>>) -> Vec<Vec<String>> {
    let bound = b.bind(parse(sql)).unwrap();
    let logical = Optimizer::optimize(Planner::new(&b.catalog).plan(bound).unwrap());
    let cat = StorageCatalog::new();
    let physical = PhysicalPlanner::new(&cat).create_physical_plan(logical).unwrap();
    fn build(p: PhysicalPlan, rows: &mut Option<Vec<Vec<Value>>>) -> Operator {
        match p {
            PhysicalPlan::SeqScan { predicate: None, .. } => Operator::Rows(RowsOp::new(rows.take().unwrap())),
            PhysicalPlan::Filter { input, predicate } => Operator::Filter(FilterOp::new(build(*input, rows), predicate)),
            PhysicalPlan::Projection { input, exprs } => Operator::Projection(ProjectionOp::new(build(*input, rows), exprs)),
            other => panic!("unexpected {:?}", other),
        }
    }
    let out = Executor::new(build(physical, &mut Some(rows))).execute().unwrap();
    out.iter()
        .map(|r| {
            r.iter()
                .map(|v| match v {
                    Value::Int(i) => i.to_string(),
                    Value::String(s) => s.clone(),
                })
                .collect()
        })
        .collect()
}

fn user(id: i64, name: &str) -> Vec<Value> {
    vec![Value::Int(id), Value::String(name.to_string())]
}

#[test]
fn select_all_columns_of_one_row() {
    let mut b = users_binder();
    assert!(b.bind(parse("INSERT INTO users(id,name) VALUES (1,'alice');")).is_ok());
    let rows = run_select(&mut b, "SELECT id, name FROM users;", vec![user(1, "alice")]);
    assert_eq!(rows, vec![vec!["1".to_string(), "alice".to_string()]]);
}

#[test]
fn select_with_greater_than_filter() {
    let mut b = users_binder();
    let rows = run_select(&mut b, "SELECT id FROM users WHERE id > 1;", vec![user(1, "alice"), user(2, "bob")]);
    assert_eq!(rows, vec![vec!["2".to_string()]]);
}

#[test]
fn equality_on_indexed_column_uses_index_scan() {
    let mut cat = StorageCatalog::new();
    cat.create_index("Users".to_string(), "ID".to_string(), "ix".to_string(), 4, 7);
    let mut b = users_binder();
    let bound = b.bind(parse("SELECT name FROM users WHERE id = 2;")).unwrap();
    let logical = Optimizer::optimize(Planner::new(&b.catalog).plan(bound).unwrap());
    let pp = PhysicalPlanner::new(&cat);
    match pp.create_physical_plan(logical).unwrap() {
        PhysicalPlan::Projection { input, .. } => match *input {
            PhysicalPlan::IndexScan { index_name, table_name, .. } => {
                assert_eq!(index_name, "ix");
                assert_eq!(table_name, "users");
            }
            other => panic!("unexpected {:?}", other),
        },
        other => panic!("unexpected {:?}", other),
    }
    let bound = b.bind(parse("SELECT name FROM users WHERE name = 'bob';")).unwrap();
    let logical = Optimizer::optimize(Planner::new(&b.catalog).plan(bound).unwrap());
    match pp.create_physical_plan(logical).unwrap() {
        PhysicalPlan::Projection { input, .. } => assert!(matches!(*input, PhysicalPlan::Filter { .. })),
        other => panic!("unexpected {:?}", other),
    }
}

#[test]
fn evaluates_comparisons_to_integers() {
    let row = vec![Value::Int(3), Value::String("bob".to_string())];
    match eval_expr(&cmp(col(0), BinaryOp::Gt, lit(1)), &row).unwrap() {
        Value::Int(1) => {}
        other => panic!("unexpected {:?}", other),
    }
    let s = BoundExpr::Literal(Value::String("bob".to_string()));
    let name = BoundExpr::Column { table: "t".to_string(), col: "n".to_string(), ordinal: 1, data_type: DataType::Varchar };
    assert!(eval_predicate(&cmp(name, BinaryOp::Eq, s), &row).unwrap());
    assert_eq!(
        eval_binop(&Value::Int(1), BinaryOp::NotEq, &Value::Int(2)).unwrap_err(),
        ExecError::UnsupportedOperation
    );
    assert_eq!(eval_expr(&col(5), &row).unwrap_err(), ExecError::ColumnOutOfRange);
    assert!(!eval_predicate(&BoundExpr::Literal(Value::String(String::new())), &row).unwrap());
}

#[test]
fn executor_filters_and_projects() {
    let rows = vec![int_row(&[1, 10]), int_row(&[2, 20]), int_row(&[3, 30])];
    let filter = FilterOp::new(Operator::Rows(RowsOp::new(rows)), cmp(col(0), BinaryOp::Gt, lit(1)));
    let proj = ProjectionOp::new(Operator::Filter(filter), vec![col(1)]);
    let mut exec = Executor::new(Operator::Projection(proj));
    let out = exec.execute().unwrap();
    let got: Vec<i64> = out
        .iter()
        .map(|r| match r[0] {
            Value::Int(v) => v,
            _ => panic!("not an int"),
        })
        .collect();
    assert_eq!(got, vec![20, 30]);
}

#[test]
fn executor_reports_evaluation_errors() {
    let rows = vec![int_row(&[1]), int_row(&[2])];
    let filter = FilterOp::new(Operator::Rows(RowsOp::new(rows)), cmp(col(3), BinaryOp::Eq, lit(1)));
    let mut exec = Executor::new(Operator::Filter(filter));
    assert_eq!(exec.execute().unwrap_err(), ExecError::ColumnOutOfRange);
}

#[test]
fn unicode_white_space_separates_tokens() {
    let toks = tokenize("SELECT\u{a0}a\tFROM\u{2003}t").unwrap();
    assert_eq!(toks.len(), 5);
    assert_eq!(toks[1].kind, TokenKind::Identifier("a".to_string()));
    assert_eq!(toks[3].kind, TokenKind::Identifier("t".to_string()));
    assert_eq!((toks[2].line, toks[2].col), (1, 10));
}

#[test]
fn identifiers_keep_their_case() {
    let toks = tokenize("SELECT Foo, 12 FROM t -- c\n;").unwrap();
    let got: Vec<(TokenKind, usize, usize)> = toks.iter().map(|t| (t.kind.clone(), t.line, t.col)).collect();
    assert_eq!(
        got,
        vec![
            (TokenKind::Select, 1, 1),
            (TokenKind::Identifier("Foo".to_string()), 1, 8),
            (TokenKind::Comma, 1, 11),
            (TokenKind::IntLiteral(12), 1, 13),
            (TokenKind::From, 1, 16),
            (TokenKind::Identifier("t".to_string()), 1, 21),
            (TokenKind::Semicolon, 2, 1),
            (TokenKind::EOF, 2, 2),
        ]
    );
    assert_eq!(tokenize("sElEcT")
        .unwrap()[0]
        .kind, TokenKind::Select);
}

#[test]
fn index_needs_an_integer_literal() {
    let mut cat = StorageCatalog::new();
    cat.create_index("users".to_string(), "name".to_string(), "ixn".to_string(), 4, 7);
    let mut b = users_binder();
    let bound = b.bind(parse("SELECT id FROM users WHERE name = 'bob';")).unwrap();
    let logical = Optimizer::optimize(Planner::new(&b.catalog).plan(bound).unwrap());
    match PhysicalPlanner::new(&cat).create_physical_plan(logical).unwrap() {
        PhysicalPlan::Projection { input, .. } => assert!(matches!(*input, PhysicalPlan::Filter { .. })),
        other => panic!("unexpected {:?}", other),
    }
}
