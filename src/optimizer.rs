//! The optimizer: local rewrite rules applied until a pass changes nothing.
//!
//! Rules: `Filter(Filter(X, p1), p2) → Filter(X, p1 AND p2)`;
//! `Filter(Projection(X, e), p) → Projection(Filter(X, p), e)`;
//! `Projection(Projection(X, _), e) → Projection(X, e)`.
use vstd::prelude::*;
use crate::binder::{BoundExpr, DataType};
use crate::parser::BinaryOp;
use crate::planner::LogicalPlan;

verus! {

/// The conjunction of two predicates.
pub open spec fn conj(p1: BoundExpr, p2: BoundExpr) -> BoundExpr {
    BoundExpr::BinaryOp {
        left: Box::new(p1),
        op: BinaryOp::And,
        right: Box::new(p2),
        data_type: DataType::Int,
    }
}

/// One of the rules applied at the root of `p`, and whether one applied.
pub open spec fn rule_at_root(p: LogicalPlan) -> (LogicalPlan, bool) {
    match p {
        LogicalPlan::Filter { input, predicate } => match *input {
            LogicalPlan::Filter { input: inner, predicate: p1 } => (
                LogicalPlan::Filter { input: inner, predicate: conj(p1, predicate) },
                true,
            ),
            LogicalPlan::Projection { input: inner, exprs } => (
                LogicalPlan::Projection {
                    input: Box::new(LogicalPlan::Filter { input: inner, predicate }),
                    exprs,
                },
                true,
            ),
            _ => (LogicalPlan::Filter { input, predicate }, false),
        },
        LogicalPlan::Projection { input, exprs } => match *input {
            LogicalPlan::Projection { input: inner, .. } => (
                LogicalPlan::Projection { input: inner, exprs },
                true,
            ),
            _ => (LogicalPlan::Projection { input, exprs }, false),
        },
        _ => (p, false),
    }
}

/// One bottom-up pass: the inputs are rewritten first, then the rules are
/// tried at the node. The flag tells whether any rule applied.
pub open spec fn pass(p: LogicalPlan) -> (LogicalPlan, bool)
    decreases p,
{
    match p {
        LogicalPlan::Filter { input, predicate } => {
            let (i, c) = pass(*input);
            let (q, d) = rule_at_root(LogicalPlan::Filter { input: Box::new(i), predicate });
            (q, c || d)
        },
        LogicalPlan::Projection { input, exprs } => {
            let (i, c) = pass(*input);
            let (q, d) = rule_at_root(LogicalPlan::Projection { input: Box::new(i), exprs });
            (q, c || d)
        },
        _ => (p, false),
    }
}

/// A measure that every rule lowers: a filter weighs twice its input plus
/// one, a projection its input plus one.
pub open spec fn weight(p: LogicalPlan) -> nat
    decreases p,
{
    match p {
        LogicalPlan::Filter { input, .. } => 2 * weight(*input) + 1,
        LogicalPlan::Projection { input, .. } => weight(*input) + 1,
        _ => 1,
    }
}

proof fn lemma_weight_positive(p: LogicalPlan)
    ensures
        weight(p) >= 1,
    decreases p,
{
    match p {
        LogicalPlan::Filter { input, .. } => lemma_weight_positive(*input),
        LogicalPlan::Projection { input, .. } => lemma_weight_positive(*input),
        _ => {},
    }
}

proof fn lemma_rule_weight(p: LogicalPlan)
    ensures
        rule_at_root(p).1 ==> weight(rule_at_root(p).0) < weight(p),
        !rule_at_root(p).1 ==> rule_at_root(p).0 == p,
{
    match p {
        LogicalPlan::Filter { input, predicate } => match *input {
            LogicalPlan::Filter { input: inner, predicate: p1 } => {
                assert(weight(p) == 2 * weight(*input) + 1);
                lemma_weight_positive(*inner);
                assert(weight(*input) == 2 * weight(*inner) + 1);
                assert(weight(rule_at_root(p).0) == 2 * weight(*inner) + 1);
            },
            LogicalPlan::Projection { input: inner, exprs } => {
                assert(weight(p) == 2 * weight(*input) + 1);
                lemma_weight_positive(*inner);
                assert(weight(*input) == weight(*inner) + 1);
                assert(weight(LogicalPlan::Filter { input: inner, predicate }) == 2 * weight(*inner) + 1);
            },
            _ => {},
        },
        LogicalPlan::Projection { input, exprs } => match *input {
            LogicalPlan::Projection { input: inner, .. } => {
                assert(weight(p) == weight(*input) + 1);
                assert(weight(*input) == weight(*inner) + 1);
                assert(weight(rule_at_root(p).0) == weight(*inner) + 1);
            },
            _ => {},
        },
        _ => {},
    }
}

/// A pass that applies a rule lowers the weight; one that applies none
/// leaves the plan as it was.
pub proof fn lemma_pass_weight(p: LogicalPlan)
    ensures
        pass(p).1 ==> weight(pass(p).0) < weight(p),
        !pass(p).1 ==> pass(p).0 == p,
    decreases p,
{
    match p {
        LogicalPlan::Filter { input, predicate } => {
            lemma_pass_weight(*input);
            let (i, c) = pass(*input);
            let mid = LogicalPlan::Filter { input: Box::new(i), predicate };
            lemma_rule_weight(mid);
        },
        LogicalPlan::Projection { input, exprs } => {
            lemma_pass_weight(*input);
            let (i, c) = pass(*input);
            let mid = LogicalPlan::Projection { input: Box::new(i), exprs };
            lemma_rule_weight(mid);
        },
        _ => {},
    }
}

/// Passes are repeated until one changes nothing.
pub open spec fn fixpoint(p: LogicalPlan) -> LogicalPlan
    decreases weight(p),
{
    if pass(p).1 {
        proof {
            lemma_pass_weight(p);
        }
        fixpoint(pass(p).0)
    } else {
        p
    }
}

pub struct Optimizer;

impl Optimizer {
    /// Rewrites `plan` until a pass leaves it unchanged.
    pub fn optimize(plan: LogicalPlan) -> (r: LogicalPlan)
        ensures
            r == fixpoint(plan),
            pass(r) == (r, false),
    {
        let mut current = plan;
        loop
            invariant
                fixpoint(current) == fixpoint(plan),
            decreases weight(current),
        {
            let ghost before = current;
            let (next, changed) = Self::rewrite(current);
            proof {
                lemma_pass_weight(before);
            }
            if !changed {
                return next;
            }
            current = next;
        }
    }

    /// One bottom-up pass.
    fn rewrite(plan: LogicalPlan) -> (r: (LogicalPlan, bool))
        ensures
            r == pass(plan),
        decreases plan,
    {
        match plan {
            LogicalPlan::Filter { input, predicate } => {
                let (new_input, c) = Self::rewrite(*input);
                let (q, d) = Self::apply_rules(
                    LogicalPlan::Filter { input: Box::new(new_input), predicate },
                );
                (q, c || d)
            },
            LogicalPlan::Projection { input, exprs } => {
                let (new_input, c) = Self::rewrite(*input);
                let (q, d) = Self::apply_rules(
                    LogicalPlan::Projection { input: Box::new(new_input), exprs },
                );
                (q, c || d)
            },
            other => (other, false),
        }
    }

    /// The rules tried at the root of `plan`.
    fn apply_rules(plan: LogicalPlan) -> (r: (LogicalPlan, bool))
        ensures
            r == rule_at_root(plan),
    {
        match plan {
            LogicalPlan::Filter { input, predicate } => match *input {
                LogicalPlan::Filter { input: inner, predicate: p1 } => {
                    let combined = BoundExpr::BinaryOp {
                        left: Box::new(p1),
                        op: BinaryOp::And,
                        right: Box::new(predicate),
                        data_type: DataType::Int,
                    };
                    (LogicalPlan::Filter { input: inner, predicate: combined }, true)
                },
                LogicalPlan::Projection { input: proj_input, exprs } => (
                    LogicalPlan::Projection {
                        input: Box::new(LogicalPlan::Filter { input: proj_input, predicate }),
                        exprs,
                    },
                    true,
                ),
                other => (LogicalPlan::Filter { input: Box::new(other), predicate }, false),
            },
            LogicalPlan::Projection { input, exprs } => match *input {
                LogicalPlan::Projection { input: inner, exprs: _ } => (
                    LogicalPlan::Projection { input: inner, exprs },
                    true,
                ),
                other => (LogicalPlan::Projection { input: Box::new(other), exprs }, false),
            },
            other => (other, false),
        }
    }
}

} // verus!
