//! Optimizer: rewrites of plans by rules, and cost estimates.

pub mod cost;
pub mod rules;

use crate::query::catalog::{Catalog, DescModel};
use crate::query::error::QueryError;
use crate::query::planner::{LogicalPlan, PlanModel};
use rules::{folded_plan, predicates_pushed, projections_pushed, pruned};
use vstd::prelude::*;

verus! {

/// A plan after all rewrites, at the time `now_ns`.
pub open spec fn optimized(p: PlanModel, tables: Seq<DescModel>, now_ns: i64) -> PlanModel {
    pruned(projections_pushed(predicates_pushed(folded_plan(p, now_ns))), tables)
}

/// Rewrites plans over the tables of a catalog.
pub struct Optimizer<'a> {
    pub catalog: &'a Catalog,
}

impl<'a> Optimizer<'a> {
    /// An optimizer for the tables of a catalog.
    pub fn new(catalog: &'a Catalog) -> (o: Optimizer<'a>)
        ensures
            o.catalog == catalog,
    {
        Optimizer { catalog }
    }

    /// Rewrites a plan, at the time `now_ns`. It never fails.
    pub fn optimize(&self, plan: LogicalPlan, now_ns: i64) -> (out: Result<LogicalPlan, QueryError>)
        ensures
            out matches Ok(p) && p@ == optimized(plan@, self.catalog@, now_ns),
    {
        let plan = rules::fold_constants(plan, now_ns);
        let plan = rules::predicate_pushdown(plan);
        let plan = rules::projection_pushdown(plan);
        let plan = rules::partition_prune(plan, self.catalog);
        Ok(plan)
    }
}

} // verus!
