//! Cost model for the choice of a join strategy.

use crate::query::catalog::{TableDesc, TableStats};
use crate::query::planner::JoinStrategy;
use vstd::prelude::*;

verus! {

/// Up to this many rows on one side a join is done by nested loops.
pub const SMALL_ROWS: u64 = 10_000;

/// Up to this many rows on both sides a join is done by hashing.
pub const MEDIUM_ROWS: u64 = 1_000_000;

/// The rows of all partitions together.
pub open spec fn total_rows(stats: Seq<TableStats>) -> nat
    decreases stats.len(),
{
    if stats.len() == 0 {
        0
    } else {
        total_rows(stats.drop_last()) + stats.last().row_count as nat
    }
}

proof fn lemma_total_grows(stats: Seq<TableStats>, n: int)
    requires
        0 <= n <= stats.len(),
    ensures
        total_rows(stats.take(n)) <= total_rows(stats),
    decreases stats.len() - n,
{
    if n < stats.len() {
        assert(stats.take(n + 1).drop_last() =~= stats.take(n));
        lemma_total_grows(stats, n + 1);
    } else {
        assert(stats.take(n) =~= stats);
    }
}

/// The rows of all partitions together, where they can be counted in 64 bits.
pub fn checked_rows(stats: &Vec<TableStats>) -> (out: Option<u64>)
    ensures
        match out {
            Some(n) => n == total_rows(stats@),
            None => total_rows(stats@) > u64::MAX,
        },
{
    let mut sum: u64 = 0;
    for i in 0..stats.len()
        invariant
            sum == total_rows(stats@.take(i as int)),
    {
        assert(stats@.take(i + 1).drop_last() =~= stats@.take(i as int));
        proof {
            lemma_total_grows(stats@, i + 1);
        }
        match sum.checked_add(stats[i].row_count) {
            Some(s) => {
                sum = s;
            },
            None => {
                return None;
            },
        }
    }
    assert(stats@.take(stats@.len() as int) =~= stats@);
    Some(sum)
}

/// The rows of a table over all its partitions.
pub fn estimated_rows(desc: &TableDesc) -> (n: u64)
    requires
        total_rows(desc.stats@) <= u64::MAX,
    ensures
        n == total_rows(desc.stats@),
{
    match checked_rows(&desc.stats) {
        Some(n) => n,
        None => 0,
    }
}

/// The strategy for a join of tables with the given numbers of rows.
pub open spec fn strategy_for(left_rows: nat, right_rows: nat) -> JoinStrategy {
    if left_rows <= SMALL_ROWS || right_rows <= SMALL_ROWS {
        JoinStrategy::NestedLoop
    } else if left_rows <= MEDIUM_ROWS && right_rows <= MEDIUM_ROWS {
        JoinStrategy::Hash
    } else {
        JoinStrategy::SortMerge
    }
}

/// Chooses the strategy for a join of tables with the given numbers of rows.
pub fn choose_join_strategy(left_rows: u64, right_rows: u64) -> (s: JoinStrategy)
    ensures
        s == strategy_for(left_rows as nat, right_rows as nat),
{
    if left_rows <= SMALL_ROWS || right_rows <= SMALL_ROWS {
        JoinStrategy::NestedLoop
    } else if left_rows <= MEDIUM_ROWS && right_rows <= MEDIUM_ROWS {
        JoinStrategy::Hash
    } else {
        JoinStrategy::SortMerge
    }
}

/// The strategy does not depend on which table stands on the left.
pub proof fn strategy_is_symmetric(left_rows: nat, right_rows: nat)
    ensures
        strategy_for(left_rows, right_rows) == strategy_for(right_rows, left_rows),
{
}

} // verus!
