//! The logical planner: bound statements to logical plans.
use vstd::prelude::*;
use crate::binder::{BoundExpr, BoundStmt, Catalog, DataType};

verus! {

#[derive(Debug)]
pub enum LogicalPlan {
    CreateTable { table_name: String, columns: Vec<(String, DataType)> },
    CreateIndex { index_name: String, table: String, column: String, order: usize },
    Insert { table_name: String, col_ordinals: Vec<usize>, values: Vec<BoundExpr> },
    SeqScan { table: String, predicate: Option<BoundExpr> },
    Filter { input: Box<LogicalPlan>, predicate: BoundExpr },
    Projection { input: Box<LogicalPlan>, exprs: Vec<BoundExpr> },
}

/// Why a plan could not be made.
#[derive(Debug, Clone)]
pub enum PlanError {
    UnknownTable(String),
    /// Index creation is carried out while binding, not planned.
    UnplannableStatement,
}

/// The scan of `table` with no embedded predicate.
pub open spec fn is_scan_of(p: LogicalPlan, table: Seq<char>) -> bool {
    match p {
        LogicalPlan::SeqScan { table: t, predicate: None } => t@ == table,
        _ => false,
    }
}

/// The plan of a `SELECT`: projections over the filtered scan.
pub open spec fn select_plan(
    p: LogicalPlan,
    table: Seq<char>,
    projections: Vec<BoundExpr>,
    filter: Option<BoundExpr>,
) -> bool {
    match p {
        LogicalPlan::Projection { input, exprs } => {
            &&& exprs == projections
            &&& match (filter, *input) {
                (None, scan) => is_scan_of(scan, table),
                (Some(f), LogicalPlan::Filter { input: scan, predicate }) => predicate == f
                    && is_scan_of(*scan, table),
                _ => false,
            }
        },
        _ => false,
    }
}

pub struct Planner<'a> {
    catalog: &'a Catalog,
}

impl<'a> Planner<'a> {
    pub fn new(catalog: &'a Catalog) -> (r: Planner<'a>)
        ensures
            r.catalog() == *catalog,
    {
        Planner { catalog }
    }

    pub closed spec fn catalog(&self) -> Catalog {
        *self.catalog
    }

    /// A `SELECT` becomes a projection over an optional filter over a
    /// sequential scan; the other statements map one to one. `INSERT` and
    /// `SELECT` name a table that must exist.
    pub fn plan(&self, stmt: BoundStmt) -> (r: Result<LogicalPlan, PlanError>)
        ensures
            match stmt {
                BoundStmt::CreateTable { name, columns } => r matches Ok(
                    LogicalPlan::CreateTable { table_name, columns: cs },
                ) && table_name == name && cs == columns,
                BoundStmt::CreateIndex { index_name, table, column, order } => r matches Ok(
                    LogicalPlan::CreateIndex { index_name: i, table: t, column: c, order: o },
                ) && i == index_name && t == table && c == column && o == order,
                BoundStmt::Insert { table, col_ordinals, values } => {
                    &&& r is Ok <==> self.catalog().has_table(table@)
                    &&& r matches Ok(p) ==> p matches LogicalPlan::Insert {
                        table_name: t,
                        col_ordinals: o,
                        values: v,
                    } && t == table && o == col_ordinals && v == values
                },
                BoundStmt::Select { projections, table, filter } => {
                    &&& r is Ok <==> self.catalog().has_table(table@)
                    &&& r matches Ok(p) ==> select_plan(p, table@, projections, filter)
                },
            },
    {
        match stmt {
            BoundStmt::CreateTable { name, columns } => Ok(
                LogicalPlan::CreateTable { table_name: name, columns },
            ),
            BoundStmt::CreateIndex { index_name, table, column, order } => Ok(
                LogicalPlan::CreateIndex { index_name, table, column, order },
            ),
            BoundStmt::Insert { table, col_ordinals, values } => {
                if self.catalog.get_table(table.as_str()).is_err() {
                    return Err(PlanError::UnknownTable(table));
                }
                Ok(LogicalPlan::Insert { table_name: table, col_ordinals, values })
            },
            BoundStmt::Select { projections, table, filter } => self.plan_select(
                table,
                projections,
                filter,
            ),
        }
    }

    fn plan_select(&self, table: String, projections: Vec<BoundExpr>, filter: Option<BoundExpr>) -> (r: Result<LogicalPlan, PlanError>)
        ensures
            r is Ok <==> self.catalog().has_table(table@),
            r matches Ok(p) ==> select_plan(p, table@, projections, filter),
    {
        if self.catalog.get_table(table.as_str()).is_err() {
            return Err(PlanError::UnknownTable(table));
        }
        let scan_table = table.clone();
        let mut plan = LogicalPlan::SeqScan { table: scan_table, predicate: None };
        if let Some(pred) = filter {
            plan = LogicalPlan::Filter { input: Box::new(plan), predicate: pred };
        }
        plan = LogicalPlan::Projection { input: Box::new(plan), exprs: projections };
        Ok(plan)
    }
}

} // verus!
