//! The mathematical model of crafting: what a request does to the ledgers.

use crate::graph::{CatalogView, ClassificationView};
use crate::ledger::amount;
use vstd::arithmetic::div_mod::lemma_fundamental_div_mod;
use vstd::prelude::*;

verus! {

/// The three ledgers of a calculation as mathematical maps.
pub struct LedgerView {
    /// Units produced or declared, and not yet consumed, by item identifier.
    pub surplus: Map<Seq<char>, nat>,
    /// Crafting operations performed, by item identifier.
    pub completed: Map<Seq<char>, nat>,
    /// Base material consumed, by material identifier.
    pub base: Map<Seq<char>, nat>,
}

impl LedgerView {
    /// The ledgers before anything was crafted or declared.
    pub open spec fn empty() -> LedgerView {
        LedgerView { surplus: Map::empty(), completed: Map::empty(), base: Map::empty() }
    }

    /// No quantity is above `limit`.
    pub open spec fn within(self, limit: nat) -> bool {
        &&& forall|id: Seq<char>| self.surplus.contains_key(id) ==> #[trigger] self.surplus[id] <= limit
        &&& forall|id: Seq<char>|
            self.completed.contains_key(id) ==> #[trigger] self.completed[id] <= limit
        &&& forall|id: Seq<char>| self.base.contains_key(id) ==> #[trigger] self.base[id] <= limit
    }
}

/// The least number of operations whose output covers `demand`, where one
/// operation yields `per_operation` units.
pub open spec fn operations_needed(demand: nat, per_operation: nat) -> nat {
    if demand % per_operation == 0 {
        demand / per_operation
    } else {
        demand / per_operation + 1
    }
}

/// The units of a request for `count` that the surplus of `held` covers.
pub open spec fn drawn_from_surplus(held: nat, count: nat) -> nat {
    if count <= held {
        count
    } else {
        held
    }
}

/// The ledgers after `count` units of `id` were declared as stock.
pub open spec fn add_extra_spec(s: LedgerView, id: Seq<char>, count: nat) -> LedgerView {
    LedgerView { surplus: s.surplus.insert(id, amount(s.surplus, id) + count), ..s }
}

/// The ledgers after `count` units of base material `id` were consumed.
pub open spec fn add_base_spec(s: LedgerView, id: Seq<char>, count: nat) -> LedgerView {
    LedgerView { base: s.base.insert(id, amount(s.base, id) + count), ..s }
}

/// The operations that a request for `count` units of the item at `item`
/// starts: what the surplus does not cover is produced anew.
pub open spec fn operations_for(cat: CatalogView, s: LedgerView, item: int, count: nat) -> nat {
    let held = amount(s.surplus, cat.items[item].id);
    operations_needed((count - drawn_from_surplus(held, count)) as nat, cat.yield_of(item))
}

/// The ledgers after the item's own entries were brought up to date for a
/// request of `count` units: the surplus gives what it covers and takes what
/// the new operations produce beyond the rest, and the operations are
/// counted.
pub open spec fn settle_item(cat: CatalogView, s: LedgerView, item: int, count: nat) -> LedgerView {
    let id = cat.items[item].id;
    let held = amount(s.surplus, id);
    let drawn = drawn_from_surplus(held, count);
    let operations = operations_for(cat, s, item, count);
    let produced = operations * cat.yield_of(item);
    LedgerView {
        surplus: s.surplus.insert(id, (held - drawn + produced - (count - drawn)) as nat),
        completed: s.completed.insert(id, amount(s.completed, id) + operations),
        base: s.base,
    }
}

/// The ledgers after `count` units of the item at `item` were requested.
pub open spec fn craft_spec(cat: CatalogView, s: LedgerView, item: int, count: nat) -> LedgerView
    decreases cat.rank(item), cat.ingredients(item).len() + 1,
    when cat.wf() && cat.has(item)
{
    consume_spec(cat, settle_item(cat, s, item, count), item, operations_for(cat, s, item, count), 0)
}

/// The ledgers after the ingredient lines of the item at `item` from line
/// `k` on were supplied for `operations` operations, one after the other.
pub open spec fn consume_spec(
    cat: CatalogView,
    s: LedgerView,
    item: int,
    operations: nat,
    k: nat,
) -> LedgerView
    decreases cat.rank(item), cat.ingredients(item).len() - k,
    when cat.wf() && cat.has(item)
    via consume_spec_decreases
{
    if k >= cat.ingredients(item).len() {
        s
    } else {
        let line = cat.ingredients(item)[k as int];
        let needed = operations * line.1;
        let supplied = match cat.classify(line.0) {
            ClassificationView::Recurse(j) => craft_spec(cat, s, j, needed),
            _ => add_base_spec(s, cat.id_of(line.0), needed),
        };
        consume_spec(cat, supplied, item, operations, k + 1)
    }
}

#[via_fn]
proof fn consume_spec_decreases(cat: CatalogView, s: LedgerView, item: int, operations: nat, k: nat) {
    if k < cat.ingredients(item).len() {
        match cat.classify(cat.ingredients(item)[k as int].0) {
            ClassificationView::Recurse(j) => {
                cat.lemma_rank_decreases(item, k as int, j);
            },
            _ => {},
        }
    }
}

/// A request for `count` units of the item at `item` stays within `limit`:
/// no demand that it passes on and no total that it reaches is above it.
pub open spec fn craft_fits(cat: CatalogView, s: LedgerView, item: int, count: nat, limit: nat) -> bool
    decreases cat.rank(item), cat.ingredients(item).len() + 1,
    when cat.wf() && cat.has(item)
{
    let operations = operations_for(cat, s, item, count);
    &&& amount(s.completed, cat.items[item].id) + operations <= limit
    &&& consume_fits(cat, settle_item(cat, s, item, count), item, operations, 0, limit)
}

/// Supplying the ingredient lines from line `k` on stays within `limit`.
pub open spec fn consume_fits(
    cat: CatalogView,
    s: LedgerView,
    item: int,
    operations: nat,
    k: nat,
    limit: nat,
) -> bool
    decreases cat.rank(item), cat.ingredients(item).len() - k,
    when cat.wf() && cat.has(item)
    via consume_fits_decreases
{
    if k >= cat.ingredients(item).len() {
        true
    } else {
        let line = cat.ingredients(item)[k as int];
        let needed = operations * line.1;
        &&& needed <= limit
        &&& match cat.classify(line.0) {
            ClassificationView::Recurse(j) => {
                &&& craft_fits(cat, s, j, needed, limit)
                &&& consume_fits(cat, craft_spec(cat, s, j, needed), item, operations, k + 1, limit)
            },
            _ => {
                &&& amount(s.base, cat.id_of(line.0)) + needed <= limit
                &&& consume_fits(
                    cat,
                    add_base_spec(s, cat.id_of(line.0), needed),
                    item,
                    operations,
                    k + 1,
                    limit,
                )
            },
        }
    }
}

#[via_fn]
proof fn consume_fits_decreases(
    cat: CatalogView,
    s: LedgerView,
    item: int,
    operations: nat,
    k: nat,
    limit: nat,
) {
    if k < cat.ingredients(item).len() {
        match cat.classify(cat.ingredients(item)[k as int].0) {
            ClassificationView::Recurse(j) => {
                cat.lemma_rank_decreases(item, k as int, j);
            },
            _ => {},
        }
    }
}

/// The operations needed cover the demand, no smaller number of operations
/// does, and what they produce beyond the demand is less than the yield of
/// one operation.
pub proof fn lemma_operations_needed(demand: nat, per_operation: nat)
    requires
        per_operation >= 1,
    ensures
        operations_needed(demand, per_operation) * per_operation >= demand,
        operations_needed(demand, per_operation) * per_operation - demand == if demand
            % per_operation == 0 {
            0
        } else {
            per_operation - demand % per_operation
        },
        operations_needed(demand, per_operation) * per_operation - demand < per_operation,
        operations_needed(demand, per_operation) <= demand,
{
    let q = demand / per_operation;
    let r = demand % per_operation;
    lemma_fundamental_div_mod(demand as int, per_operation as int);
    assert(demand == per_operation * q + r);
    assert(0 <= r < per_operation);
    assert((q + 1) * per_operation == q * per_operation + per_operation) by (nonlinear_arith);
    assert(per_operation * q == q * per_operation) by (nonlinear_arith);
    assert(q <= q * per_operation) by (nonlinear_arith)
        requires
            per_operation >= 1,
            q >= 0,
    ;
}

/// No smaller number of operations covers the demand.
pub proof fn lemma_operations_least(demand: nat, per_operation: nat, n: nat)
    requires
        per_operation >= 1,
        n * per_operation >= demand,
    ensures
        n >= operations_needed(demand, per_operation),
{
    let q = demand / per_operation;
    let r = demand % per_operation;
    lemma_fundamental_div_mod(demand as int, per_operation as int);
    assert(per_operation * q == q * per_operation) by (nonlinear_arith);
    if n < operations_needed(demand, per_operation) {
        if r == 0 {
            assert(n * per_operation <= (q - 1) * per_operation) by (nonlinear_arith)
                requires
                    n <= q - 1,
                    per_operation >= 1,
            ;
            assert((q - 1) * per_operation == q * per_operation - per_operation)
                by (nonlinear_arith);
        } else {
            assert(n * per_operation <= q * per_operation) by (nonlinear_arith)
                requires
                    n <= q,
                    per_operation >= 1,
            ;
        }
    }
}

} // verus!
