//! What evaluation costs.
//!
//! Every step of the evaluator and every operator has a price. The prices add
//! up; a program that would cost more than its budget is stopped.

use vstd::prelude::*;

verus! {

/// An amount of work.
pub type Cost = u64;

/// The price of a quoted value.
pub const QUOTE_COST: Cost = 20;

/// The price of running a value as a program.
pub const APPLY_COST: Cost = 90;

/// The price of calling an operator, on top of what the operator asks.
pub const OP_COST: Cost = 1;

/// The price of looking a value up in the environment, before the path is
/// walked.
pub const TRAVERSE_BASE_COST: Cost = 40;

/// The price of each zero byte at the start of a path.
pub const TRAVERSE_COST_PER_ZERO_BYTE: Cost = 4;

/// The price of each bit of a path.
pub const TRAVERSE_COST_PER_BIT: Cost = 4;

/// The cost after a step of price `step`, where the budget allows it.
pub open spec fn charged(cost: Cost, step: Cost, max_cost: Cost) -> Option<Cost> {
    if cost + step <= max_cost {
        Some((cost + step) as Cost)
    } else {
        None
    }
}

/// Adds the price of a step to the cost so far. `None` where the sum is over
/// the budget.
pub fn charge(cost: Cost, step: Cost, max_cost: Cost) -> (r: Option<Cost>)
    ensures
        r == charged(cost, step, max_cost),
{
    match cost.checked_add(step) {
        Some(sum) => if sum <= max_cost {
            Some(sum)
        } else {
            None
        },
        None => None,
    }
}

} // verus!
