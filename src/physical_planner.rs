//! The physical planner: chooses an index scan for `column = integer
//! literal` predicates on an indexed column, a sequential scan otherwise.
use vstd::prelude::*;
use crate::binder::{BoundExpr, DataType, Value};
use crate::parser::BinaryOp;
use crate::planner::{LogicalPlan, PlanError};
use crate::storage::{Catalog, IndexInfo, indexes_on};
use crate::text::{ascii_lower, eq_ignore_ascii_case};

verus! {

#[derive(Debug)]
pub enum PhysicalPlan {
    CreateTable { table_name: String, columns: Vec<(String, DataType)> },
    Insert { table_name: String, col_ordinals: Vec<usize>, values: Vec<BoundExpr> },
    SeqScan { table_name: String, predicate: Option<BoundExpr> },
    IndexScan { table_name: String, index_name: String, predicate: BoundExpr },
    Filter { input: Box<PhysicalPlan>, predicate: BoundExpr },
    Projection { input: Box<PhysicalPlan>, exprs: Vec<BoundExpr> },
}

/// The column of a predicate `column = integer literal` (either way round).
pub open spec fn eq_column(e: BoundExpr) -> Option<Seq<char>> {
    match e {
        BoundExpr::BinaryOp { left, op: BinaryOp::Eq, right, .. } => match (*left, *right) {
            (BoundExpr::Column { col, .. }, BoundExpr::Literal(Value::Int(_))) => Some(col@),
            (BoundExpr::Literal(Value::Int(_)), BoundExpr::Column { col, .. }) => Some(col@),
            _ => None,
        },
        _ => None,
    }
}

/// The first of these indexes on `column` (named in any ASCII case).
pub open spec fn index_for(s: Seq<IndexInfo>, column: Seq<char>) -> Option<IndexInfo>
    decreases s.len(),
{
    if s.len() == 0 {
        None
    } else if ascii_lower(s[0].column@) == ascii_lower(column) {
        Some(s[0])
    } else {
        index_for(s.skip(1), column)
    }
}

/// A sequential scan of `table` with no embedded predicate.
pub open spec fn is_plain_scan(p: PhysicalPlan, table: String) -> bool {
    p matches PhysicalPlan::SeqScan { table_name, predicate: None } && table_name@ == table@
}

/// The scan chosen for `table` with `predicate`.
pub open spec fn scan_plan(p: PhysicalPlan, table: String, predicate: Option<BoundExpr>, cat: Catalog) -> bool {
    match predicate {
        Some(pred) => match eq_column(pred) {
            Some(c) if index_for(indexes_on(cat.indexes@, table@), c) is Some => {
                let idx = index_for(indexes_on(cat.indexes@, table@), c).unwrap();
                p matches PhysicalPlan::IndexScan { table_name, index_name, predicate: q }
                    && table_name@ == table@ && index_name@ == idx.name@ && q == pred
            },
            _ => p matches PhysicalPlan::Filter { input, predicate: q } && q == pred
                && is_plain_scan(*input, table),
        },
        None => is_plain_scan(p, table),
    }
}

/// `p` carries out `l`: scans as `scan_plan` chooses, a filter directly over
/// a scan without predicate as that scan with the filter's predicate, the
/// rest node for node.
pub open spec fn implements(l: LogicalPlan, p: PhysicalPlan, cat: Catalog) -> bool
    decreases l,
{
    match l {
        LogicalPlan::CreateTable { table_name, columns } => p == PhysicalPlan::CreateTable {
            table_name,
            columns,
        },
        LogicalPlan::CreateIndex { .. } => false,
        LogicalPlan::Insert { table_name, col_ordinals, values } => p == PhysicalPlan::Insert {
            table_name,
            col_ordinals,
            values,
        },
        LogicalPlan::SeqScan { table, predicate } => scan_plan(p, table, predicate, cat),
        LogicalPlan::Filter { input, predicate } => match *input {
            LogicalPlan::SeqScan { table, predicate: None } => scan_plan(p, table, Some(predicate), cat),
            _ => match p {
                PhysicalPlan::Filter { input: pi, predicate: q } => q == predicate && implements(
                    *input,
                    *pi,
                    cat,
                ),
                _ => false,
            },
        },
        LogicalPlan::Projection { input, exprs } => match p {
            PhysicalPlan::Projection { input: pi, exprs: q } => q == exprs && implements(
                *input,
                *pi,
                cat,
            ),
            _ => false,
        },
    }
}

/// Whether a plan creates an index somewhere.
pub open spec fn creates_index(l: LogicalPlan) -> bool
    decreases l,
{
    match l {
        LogicalPlan::CreateIndex { .. } => true,
        LogicalPlan::Filter { input, .. } => creates_index(*input),
        LogicalPlan::Projection { input, .. } => creates_index(*input),
        _ => false,
    }
}

pub struct PhysicalPlanner<'a> {
    catalog: &'a Catalog,
}

impl<'a> PhysicalPlanner<'a> {
    pub fn new(catalog: &'a Catalog) -> (r: PhysicalPlanner<'a>)
        ensures
            r.catalog() == *catalog,
    {
        PhysicalPlanner { catalog }
    }

    pub closed spec fn catalog(&self) -> Catalog {
        *self.catalog
    }

    /// The physical plan of a logical plan. Index creation is carried out
    /// while binding, so a plan that creates one is refused.
    pub fn create_physical_plan(&self, logical: LogicalPlan) -> (r: Result<PhysicalPlan, PlanError>)
        ensures
            r is Ok <==> !creates_index(logical),
            r matches Ok(p) ==> implements(logical, p, self.catalog()),
    {
        self.plan_node(logical)
    }

    fn plan_node(&self, node: LogicalPlan) -> (r: Result<PhysicalPlan, PlanError>)
        ensures
            r is Ok <==> !creates_index(node),
            r matches Ok(p) ==> implements(node, p, self.catalog()),
        decreases node,
    {
        let ghost n0 = node;
        match node {
            LogicalPlan::CreateTable { table_name, columns } => Ok(
                PhysicalPlan::CreateTable { table_name, columns },
            ),
            LogicalPlan::CreateIndex { .. } => Err(PlanError::UnplannableStatement),
            LogicalPlan::Insert { table_name, col_ordinals, values } => Ok(
                PhysicalPlan::Insert { table_name, col_ordinals, values },
            ),
            LogicalPlan::SeqScan { table, predicate } => Ok(self.plan_scan(table, predicate)),
            LogicalPlan::Filter { input, predicate } => match *input {
                LogicalPlan::SeqScan { table, predicate: None } => {
                    assert(!creates_index(LogicalPlan::SeqScan { table, predicate: None }));
                    assert(!creates_index(n0));
                    Ok(self.plan_scan(table, Some(predicate)))
                },
                other => {
                    let child = self.plan_node(other)?;
                    Ok(PhysicalPlan::Filter { input: Box::new(child), predicate })
                },
            },
            LogicalPlan::Projection { input, exprs } => {
                let child = self.plan_node(*input)?;
                Ok(PhysicalPlan::Projection { input: Box::new(child), exprs })
            },
        }
    }

    fn plan_scan(&self, table: String, predicate: Option<BoundExpr>) -> (r: PhysicalPlan)
        ensures
            scan_plan(r, table, predicate, self.catalog()),
    {
        if let Some(pred) = predicate {
            if let Some(col) = Self::extract_eq_pred(&pred) {
                let indexes = self.catalog.get_indexes(table.as_str());
                let ghost s = indexes_on(self.catalog.indexes@, table@);
                let mut i: usize = 0;
                assert(s.skip(0) =~= s);
                while i < indexes.len()
                    invariant
                        i <= indexes@.len() == s.len(),
                        s == indexes_on(self.catalog().indexes@, table@),
                        eq_column(pred) == Some(col@),
                        predicate == Some(pred),
                        forall|j: int|
                            0 <= j < indexes@.len() ==> crate::storage::same_index(
                                #[trigger] indexes@[j],
                                s[j],
                            ),
                        index_for(s, col@) == index_for(s.skip(i as int), col@),
                    decreases indexes@.len() - i,
                {
                    assert(s.skip(i as int)[0] == s[i as int]);
                    if eq_ignore_ascii_case(indexes[i].column.as_str(), col.as_str()) {
                        assert(crate::storage::same_index(indexes@[i as int], s[i as int]));
                        assert(index_for(s, col@) == Some(s[i as int]));
                        return PhysicalPlan::IndexScan {
                            table_name: table,
                            index_name: indexes[i].name.clone(),
                            predicate: pred,
                        };
                    }
                    assert(s.skip(i as int).skip(1) =~= s.skip(i + 1));
                    i = i + 1;
                }
                return PhysicalPlan::Filter {
                    input: Box::new(PhysicalPlan::SeqScan { table_name: table, predicate: None }),
                    predicate: pred,
                };
            }
            return PhysicalPlan::Filter {
                input: Box::new(PhysicalPlan::SeqScan { table_name: table, predicate: None }),
                predicate: pred,
            };
        }
        PhysicalPlan::SeqScan { table_name: table, predicate: None }
    }

    /// The column of a predicate `column = integer literal`.
    fn extract_eq_pred(expr: &BoundExpr) -> (r: Option<String>)
        ensures
            r matches Some(c) ==> eq_column(*expr) == Some(c@),
            r is None ==> eq_column(*expr) is None,
    {
        if let BoundExpr::BinaryOp { left, op: BinaryOp::Eq, right, .. } = expr {
            match (&**left, &**right) {
                (BoundExpr::Column { col, .. }, BoundExpr::Literal(Value::Int(_))) => {
                    return Some(col.clone());
                },
                (BoundExpr::Literal(Value::Int(_)), BoundExpr::Column { col, .. }) => {
                    return Some(col.clone());
                },
                _ => {},
            }
        }
        None
    }
}

} // verus!
