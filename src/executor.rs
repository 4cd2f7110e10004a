//! The Volcano executor: expression evaluation and pull-based operators.
use vstd::prelude::*;
use crate::binder::{BoundExpr, Value, ValueModel, values_model};
use crate::parser::BinaryOp;

verus! {

pub type Tuple = Vec<Value>;

/// The values of a row.
pub type RowModel = Seq<ValueModel>;

pub open spec fn row_model(t: Tuple) -> RowModel {
    values_model(t@)
}

/// Why evaluation failed.
#[derive(Debug, Clone, Copy, PartialEq, Eq, Structural)]
pub enum ExecError {
    /// The operator is not defined on these operand types.
    UnsupportedOperation,
    /// A column ordinal is past the end of the row.
    ColumnOutOfRange,
}

pub open spec fn bool_value(b: bool) -> ValueModel {
    ValueModel::Int(if b { 1 } else { 0 })
}

/// Integers compare with `=`, `<`, `>`; strings with `=`; the result is the
/// integer 1 or 0. Anything else is undefined.
pub open spec fn binop_value(l: ValueModel, op: BinaryOp, r: ValueModel) -> Option<ValueModel> {
    match (l, r) {
        (ValueModel::Int(a), ValueModel::Int(b)) => match op {
            BinaryOp::Eq => Some(bool_value(a == b)),
            BinaryOp::Lt => Some(bool_value(a < b)),
            BinaryOp::Gt => Some(bool_value(a > b)),
            _ => None,
        },
        (ValueModel::Str(a), ValueModel::Str(b)) => match op {
            BinaryOp::Eq => Some(bool_value(a == b)),
            _ => None,
        },
        _ => None,
    }
}

/// The value of `e` on `row`, if it is defined.
pub open spec fn eval(e: BoundExpr, row: RowModel) -> Option<ValueModel>
    decreases e,
{
    match e {
        BoundExpr::Literal(v) => Some(v@),
        BoundExpr::Column { ordinal, .. } => if ordinal < row.len() {
            Some(row[ordinal as int])
        } else {
            None
        },
        BoundExpr::BinaryOp { left, op, right, .. } => match (eval(*left, row), eval(*right, row)) {
            (Some(a), Some(b)) => binop_value(a, op, b),
            _ => None,
        },
    }
}

/// A non-zero integer or a non-empty string.
pub open spec fn truthy(v: ValueModel) -> bool {
    match v {
        ValueModel::Int(i) => i != 0,
        ValueModel::Str(s) => s.len() > 0,
    }
}

pub fn eval_binop(left: &Value, op: BinaryOp, right: &Value) -> (r: Result<Value, ExecError>)
    ensures
        r is Ok <==> binop_value(left@, op, right@) is Some,
        r matches Ok(v) ==> Some(v@) == binop_value(left@, op, right@),
{
    match (left, right) {
        (Value::Int(l), Value::Int(r)) => match op {
            BinaryOp::Eq => Ok(Value::Int(if *l == *r { 1 } else { 0 })),
            BinaryOp::Lt => Ok(Value::Int(if *l < *r { 1 } else { 0 })),
            BinaryOp::Gt => Ok(Value::Int(if *l > *r { 1 } else { 0 })),
            _ => Err(ExecError::UnsupportedOperation),
        },
        (Value::String(l), Value::String(r)) => match op {
            BinaryOp::Eq => Ok(Value::Int(if *l == *r { 1 } else { 0 })),
            _ => Err(ExecError::UnsupportedOperation),
        },
        _ => Err(ExecError::UnsupportedOperation),
    }
}

pub fn eval_expr(expr: &BoundExpr, row: &Tuple) -> (r: Result<Value, ExecError>)
    ensures
        r is Ok <==> eval(*expr, row_model(*row)) is Some,
        r matches Ok(v) ==> Some(v@) == eval(*expr, row_model(*row)),
    decreases expr,
{
    match expr {
        BoundExpr::Literal(v) => Ok(v.copy_value()),
        BoundExpr::Column { ordinal, .. } => {
            if *ordinal < row.len() {
                Ok(row[*ordinal].copy_value())
            } else {
                Err(ExecError::ColumnOutOfRange)
            }
        },
        BoundExpr::BinaryOp { left, op, right, .. } => {
            let l = eval_expr(left, row)?;
            let r = eval_expr(right, row)?;
            eval_binop(&l, *op, &r)
        },
    }
}

pub fn eval_predicate(pred: &BoundExpr, row: &Tuple) -> (r: Result<bool, ExecError>)
    ensures
        r is Ok <==> eval(*pred, row_model(*row)) is Some,
        r matches Ok(b) ==> b == truthy(eval(*pred, row_model(*row)).unwrap()),
{
    match eval_expr(pred, row)? {
        Value::Int(i) => Ok(i != 0),
        Value::String(s) => Ok(!s.as_str().is_empty()),
    }
}

/// The rows still to come, and whether an error ends them.
pub type Stream = (Seq<RowModel>, bool);

/// The rows of `rows` that satisfy `pred`, up to the first row on which it
/// is undefined, which ends the stream with an error.
pub open spec fn filter_stream(rows: Seq<RowModel>, failed: bool, pred: BoundExpr) -> Stream
    decreases rows.len(),
{
    if rows.len() == 0 {
        (Seq::empty(), failed)
    } else {
        match eval(pred, rows[0]) {
            None => (Seq::empty(), true),
            Some(v) => {
                let rest = filter_stream(rows.skip(1), failed, pred);
                if truthy(v) {
                    (seq![rows[0]] + rest.0, rest.1)
                } else {
                    rest
                }
            },
        }
    }
}

/// The values of `exprs` on `row`, if all are defined.
pub open spec fn project_row(exprs: Seq<BoundExpr>, row: RowModel) -> Option<RowModel>
    decreases exprs.len(),
{
    if exprs.len() == 0 {
        Some(Seq::empty())
    } else {
        match (project_row(exprs.drop_last(), row), eval(exprs.last(), row)) {
            (Some(vs), Some(v)) => Some(vs.push(v)),
            _ => None,
        }
    }
}

/// Each row of `rows` projected, up to the first row on which an expression
/// is undefined, which ends the stream with an error.
pub open spec fn project_stream(rows: Seq<RowModel>, failed: bool, exprs: Seq<BoundExpr>) -> Stream
    decreases rows.len(),
{
    if rows.len() == 0 {
        (Seq::empty(), failed)
    } else {
        match project_row(exprs, rows[0]) {
            None => (Seq::empty(), true),
            Some(r) => {
                let rest = project_stream(rows.skip(1), failed, exprs);
                (seq![r] + rest.0, rest.1)
            },
        }
    }
}

/// The output of `s` once its first row is taken.
pub open spec fn advanced(s: Stream) -> Stream {
    (s.0.skip(1), s.1)
}

/// Rows produced by a scan, handed out one by one.
pub struct RowsOp {
    rows: Vec<Tuple>,
    next: usize,
}

pub struct FilterOp {
    child: Box<Operator>,
    predicate: BoundExpr,
}

pub struct ProjectionOp {
    child: Box<Operator>,
    exprs: Vec<BoundExpr>,
}

/// An operator tree.
pub enum Operator {
    Rows(RowsOp),
    Filter(FilterOp),
    Projection(ProjectionOp),
}

impl RowsOp {
    pub fn new(rows: Vec<Tuple>) -> (r: RowsOp)
        ensures
            r.stream() == (rows@.map_values(|t: Tuple| row_model(t)), false),
    {
        let r = RowsOp { rows, next: 0 };
        assert(r.rows@.skip(0) =~= r.rows@);
        r
    }

    pub closed spec fn stream(&self) -> Stream {
        (self.rows@.skip(self.next as int).map_values(|t: Tuple| row_model(t)), false)
    }

    pub closed spec fn wf(&self) -> bool {
        self.next <= self.rows@.len()
    }
}

impl FilterOp {
    pub fn new(child: Operator, predicate: BoundExpr) -> (r: FilterOp)
        ensures
            r.stream() == filter_stream(child.stream().0, child.stream().1, predicate),
            r.wf() == child.wf(),
    {
        FilterOp { child: Box::new(child), predicate }
    }

    pub closed spec fn stream(&self) -> Stream {
        let s = self.child.stream();
        filter_stream(s.0, s.1, self.predicate)
    }

    pub closed spec fn wf(&self) -> bool {
        self.child.wf()
    }
}

impl FilterOp {
    /// The next row of the child that satisfies the predicate.
    fn next_row(&mut self) -> (r: Result<Option<Tuple>, ExecError>)
        requires
            old(self).wf(),
        ensures
            final(self).wf(),
            final(self).child.height() == old(self).child.height(),
            final(self).predicate == old(self).predicate,
            old(self).stream().0.len() > 0 ==> (r matches Ok(Some(t)) && row_model(t)
                == old(self).stream().0[0] && final(self).stream() == advanced(old(self).stream())),
            old(self).stream().0.len() == 0 && old(self).stream().1 ==> r is Err,
            old(self).stream().0.len() == 0 && !old(self).stream().1 ==> (r matches Ok(None)
                && final(self).stream() == old(self).stream()),
        decreases old(self).child.height() + 1, 0nat,
    {
        loop
            invariant
                self.child.wf(),
                self.child.height() == old(self).child.height(),
                self.predicate == old(self).predicate,
                self.stream() == old(self).stream(),
            decreases self.child.stream().0.len(),
        {
            let ghost cs = self.child.stream();
            match self.child.next_row() {
                Ok(Some(row)) => {
                    match eval_predicate(&self.predicate, &row) {
                        Ok(true) => {
                            return Ok(Some(row));
                        },
                        Ok(false) => {},
                        Err(e) => {
                            return Err(e);
                        },
                    }
                },
                Ok(None) => {
                    return Ok(None);
                },
                Err(e) => {
                    return Err(e);
                },
            }
        }
    }
}

impl ProjectionOp {
    pub fn new(child: Operator, exprs: Vec<BoundExpr>) -> (r: ProjectionOp)
        ensures
            r.stream() == project_stream(child.stream().0, child.stream().1, exprs@),
            r.wf() == child.wf(),
    {
        ProjectionOp { child: Box::new(child), exprs }
    }

    pub closed spec fn stream(&self) -> Stream {
        let s = self.child.stream();
        project_stream(s.0, s.1, self.exprs@)
    }

    pub closed spec fn wf(&self) -> bool {
        self.child.wf()
    }
}

impl Operator {
    /// What the operator will still produce.
    pub closed spec fn stream(&self) -> Stream
        decreases self,
    {
        match self {
            Operator::Rows(op) => op.stream(),
            Operator::Filter(op) => {
                let s = op.child.stream();
                filter_stream(s.0, s.1, op.predicate)
            },
            Operator::Projection(op) => {
                let s = op.child.stream();
                project_stream(s.0, s.1, op.exprs@)
            },
        }
    }

    pub closed spec fn wf(&self) -> bool
        decreases self,
    {
        match self {
            Operator::Rows(op) => op.wf(),
            Operator::Filter(op) => op.child.wf(),
            Operator::Projection(op) => op.child.wf(),
        }
    }

    pub closed spec fn height(&self) -> nat
        decreases self,
    {
        match self {
            Operator::Rows(_) => 0,
            Operator::Filter(op) => op.child.height() + 1,
            Operator::Projection(op) => op.child.height() + 1,
        }
    }

    /// The next row: the first of the stream; `None` at its end, or the
    /// error that ends it.
    pub fn next_row(&mut self) -> (r: Result<Option<Tuple>, ExecError>)
        requires
            old(self).wf(),
        ensures
            final(self).wf(),
            final(self).height() == old(self).height(),
            old(self).stream().0.len() > 0 ==> (r matches Ok(Some(t)) && row_model(t)
                == old(self).stream().0[0] && final(self).stream() == advanced(old(self).stream())),
            old(self).stream().0.len() == 0 && old(self).stream().1 ==> r is Err,
            old(self).stream().0.len() == 0 && !old(self).stream().1 ==> (r matches Ok(None)
                && final(self).stream() == old(self).stream()),
        decreases old(self).height(), 1nat,
    {
        match self {
            Operator::Rows(op) => {
                if op.next < op.rows.len() {
                    let t = copy_row(&op.rows[op.next]);
                    let ghost before = op.rows@.skip(op.next as int);
                    op.next = op.next + 1;
                    assert(op.rows@.skip(op.next as int) =~= before.skip(1));
                    assert(before.map_values(|t: Tuple| row_model(t)).skip(1) =~= before.skip(
                        1,
                    ).map_values(|t: Tuple| row_model(t)));
                    Ok(Some(t))
                } else {
                    assert(op.rows@.skip(op.next as int).len() == 0);
                    Ok(None)
                }
            },
            Operator::Filter(op) => op.next_row(),
            Operator::Projection(op) => {
                match op.child.next_row() {
                    Ok(Some(row)) => {
                        let out = project(&op.exprs, &row)?;
                        Ok(Some(out))
                    },
                    Ok(None) => Ok(None),
                    Err(e) => Err(e),
                }
            },
        }
    }
}

impl Operator {
    /// Drops whatever rows are left.
    pub fn close_all(&mut self)
        requires
            old(self).wf(),
        ensures
            final(self).wf(),
            final(self).height() == old(self).height(),
            final(self).stream() == (Seq::<RowModel>::empty(), false),
        decreases old(self).height(),
    {
        match self {
            Operator::Rows(op) => {
                op.next = op.rows.len();
                assert(op.rows@.skip(op.next as int).len() == 0);
                assert(op.stream().0 =~= Seq::<RowModel>::empty());
            },
            Operator::Filter(op) => {
                op.child.close_all();
            },
            Operator::Projection(op) => {
                op.child.close_all();
            },
        }
    }
}

/// An operator of the Volcano model: opened, pulled row by row, closed.
pub trait PhysicalOp {
    /// What the operator will still produce.
    spec fn remaining(&self) -> Stream;

    /// Whether the operator's state is consistent.
    spec fn ready(&self) -> bool;

    fn open(&mut self) -> (r: Result<(), ExecError>)
        requires
            old(self).ready(),
        ensures
            final(self).ready(),
            final(self).remaining() == old(self).remaining(),
            r is Ok,
    ;

    fn next(&mut self) -> (r: Result<Option<Tuple>, ExecError>)
        requires
            old(self).ready(),
        ensures
            final(self).ready(),
            old(self).remaining().0.len() > 0 ==> (r matches Ok(Some(t)) && row_model(t)
                == old(self).remaining().0[0] && final(self).remaining() == advanced(
                old(self).remaining(),
            )),
            old(self).remaining().0.len() == 0 && old(self).remaining().1 ==> r is Err,
            old(self).remaining().0.len() == 0 && !old(self).remaining().1 ==> (r matches Ok(None)
                && final(self).remaining() == old(self).remaining()),
    ;

    fn close(&mut self) -> (r: Result<(), ExecError>)
        requires
            old(self).ready(),
        ensures
            final(self).ready(),
            final(self).remaining() == (Seq::<RowModel>::empty(), false),
            r is Ok,
    ;
}

impl PhysicalOp for Operator {
    open spec fn remaining(&self) -> Stream {
        self.stream()
    }

    open spec fn ready(&self) -> bool {
        self.wf()
    }

    fn open(&mut self) -> (r: Result<(), ExecError>) {
        Ok(())
    }

    fn next(&mut self) -> (r: Result<Option<Tuple>, ExecError>) {
        self.next_row()
    }

    fn close(&mut self) -> (r: Result<(), ExecError>) {
        self.close_all();
        Ok(())
    }
}

/// Runs an operator tree to completion.
pub struct Executor {
    root: Operator,
}

impl Executor {
    pub fn new(root: Operator) -> (r: Executor)
        requires
            root.wf(),
        ensures
            r.wf(),
            r.output() == root.stream(),
    {
        Executor { root }
    }

    pub closed spec fn wf(&self) -> bool {
        self.root.wf()
    }

    /// What the operator tree will still produce.
    pub closed spec fn output(&self) -> Stream {
        self.root.stream()
    }

    /// Opens the tree, pulls every row, and closes it. Fails with the error
    /// that ends the output, if one does.
    pub fn execute(&mut self) -> (r: Result<Vec<Tuple>, ExecError>)
        requires
            old(self).wf(),
        ensures
            final(self).wf(),
            !old(self).output().1 ==> (r matches Ok(rows) && rows@.map_values(|t: Tuple| row_model(t))
                == old(self).output().0),
            old(self).output().1 ==> r is Err,
    {
        let ghost out = self.root.stream();
        let _ = self.root.open();
        let mut rows: Vec<Tuple> = Vec::new();
        loop
            invariant
                self.root.wf(),
                out == old(self).output(),
                out == (rows@.map_values(|t: Tuple| row_model(t)) + self.root.stream().0,
                    self.root.stream().1),
            ensures
                self.root.wf(),
                !out.1,
                out.0 == rows@.map_values(|t: Tuple| row_model(t)),
            decreases self.root.stream().0.len(),
        {
            let ghost before = rows@.map_values(|t: Tuple| row_model(t));
            let ghost s = self.root.stream();
            let step = match self.root.next() {
                Ok(step) => step,
                Err(e) => {
                    return Err(e);
                },
            };
            match step {
                Some(row) => {
                    let ghost m = row_model(row);
                    rows.push(row);
                    assert(rows@.map_values(|t: Tuple| row_model(t)) =~= before.push(m));
                    assert(before + s.0 =~= before.push(m) + s.0.skip(1));
                },
                None => {
                    assert(s.0 =~= Seq::<RowModel>::empty());
                    assert(before + s.0 =~= before);
                    break;
                },
            }
        }
        let _ = self.root.close();
        Ok(rows)
    }
}

/// A copy of a row.
fn copy_row(t: &Tuple) -> (r: Tuple)
    ensures
        row_model(r) == row_model(*t),
{
    let mut out: Tuple = Vec::new();
    let mut i: usize = 0;
    while i < t.len()
        invariant
            i <= t@.len(),
            values_model(out@) == values_model(t@).take(i as int),
        decreases t@.len() - i,
    {
        let v = t[i].copy_value();
        let ghost before = out@;
        out.push(v);
        assert(out@ =~= before.push(v));
        assert(values_model(out@) =~= values_model(before).push(v@));
        i = i + 1;
        assert(values_model(out@) =~= values_model(t@).take(i as int));
    }
    assert(values_model(t@).take(i as int) =~= values_model(t@));
    out
}

/// The values of `exprs` on `row`.
fn project(exprs: &Vec<BoundExpr>, row: &Tuple) -> (r: Result<Tuple, ExecError>)
    ensures
        r is Ok <==> project_row(exprs@, row_model(*row)) is Some,
        r matches Ok(t) ==> Some(row_model(t)) == project_row(exprs@, row_model(*row)),
{
    let mut out: Tuple = Vec::new();
    let mut i: usize = 0;
    while i < exprs.len()
        invariant
            i <= exprs@.len(),
            project_row(exprs@.take(i as int), row_model(*row)) == Some(row_model(out)),
        decreases exprs@.len() - i,
    {
        assert(exprs@.take(i + 1).drop_last() =~= exprs@.take(i as int));
        match eval_expr(&exprs[i], row) {
            Ok(v) => {
                let ghost before = row_model(out);
                out.push(v);
                assert(row_model(out) =~= before.push(v@));
            },
            Err(e) => {
                proof {
                    lemma_project_row_prefix_fails(exprs@, row_model(*row), i + 1);
                }
                return Err(e);
            },
        }
        i = i + 1;
    }
    assert(exprs@.take(i as int) =~= exprs@);
    Ok(out)
}

/// Once an expression is undefined, the whole projection is.
proof fn lemma_project_row_prefix_fails(exprs: Seq<BoundExpr>, row: RowModel, n: int)
    requires
        0 < n <= exprs.len(),
        project_row(exprs.take(n), row) is None,
    ensures
        project_row(exprs, row) is None,
    decreases exprs.len() - n,
{
    if n < exprs.len() {
        assert(exprs.take(n + 1).drop_last() =~= exprs.take(n));
        lemma_project_row_prefix_fails(exprs, row, n + 1);
    } else {
        assert(exprs.take(n) =~= exprs);
    }
}

} // verus!
