//! The crafting calculator: requests against a catalog, and the ledgers that
//! they leave behind.

use crate::catalog::{Catalog, Classification};
use crate::ledger::{amount, Ledger};
use crate::model::{
    add_base_spec, add_extra_spec, consume_fits, consume_spec, craft_fits, craft_spec,
    lemma_operations_needed, operations_for, settle_item, LedgerView,
};
use vstd::prelude::*;

verus! {

/// Why a request was not carried out.
#[derive(Debug, Clone, Copy, PartialEq, Eq)]
pub enum CraftError {
    /// The catalog has no item at the position given.
    UnknownItem,
    /// A quantity on the way left 64 bits.
    Overflow,
}

/// The state of one calculation: the surplus of each item, the operations
/// performed for each item, and the base material consumed.
pub struct CraftingCalculator {
    base_materials: Ledger,
    completed_crafts: Ledger,
    extra_crafts: Ledger,
}

impl View for CraftingCalculator {
    type V = LedgerView;

    closed spec fn view(&self) -> LedgerView {
        LedgerView {
            surplus: self.extra_crafts@,
            completed: self.completed_crafts@,
            base: self.base_materials@,
        }
    }
}

impl CraftingCalculator {
    /// The three ledgers are well formed.
    pub closed spec fn wf(&self) -> bool {
        &&& self.base_materials.wf()
        &&& self.completed_crafts.wf()
        &&& self.extra_crafts.wf()
    }

    /// Every quantity of a well-formed calculator is a number of 64 bits:
    /// none is below 0 and none above the greatest such number.
    pub proof fn lemma_quantities_in_range(&self)
        requires
            self.wf(),
        ensures
            self@.within(u64::MAX as nat),
    {
        self.base_materials.lemma_keys();
        self.completed_crafts.lemma_keys();
        self.extra_crafts.lemma_keys();
    }

    /// A calculation in which nothing was crafted or declared yet.
    pub fn new() -> (calculator: Self)
        ensures
            calculator.wf(),
            calculator@ == LedgerView::empty(),
    {
        CraftingCalculator {
            base_materials: Ledger::new(),
            completed_crafts: Ledger::new(),
            extra_crafts: Ledger::new(),
        }
    }

    /// The base material consumed so far.
    pub fn base_materials(&self) -> (ledger: &Ledger)
        requires
            self.wf(),
        ensures
            ledger.wf(),
            ledger@ == self@.base,
    {
        &self.base_materials
    }

    /// The operations performed so far.
    pub fn completed(&self) -> (ledger: &Ledger)
        requires
            self.wf(),
        ensures
            ledger.wf(),
            ledger@ == self@.completed,
    {
        &self.completed_crafts
    }

    /// The units in surplus.
    pub fn surplus(&self) -> (ledger: &Ledger)
        requires
            self.wf(),
        ensures
            ledger.wf(),
            ledger@ == self@.surplus,
    {
        &self.extra_crafts
    }

    /// The operations counted for `id`. Gives `id` an entry of 0 where it
    /// had none.
    pub fn completed_crafts(&mut self, id: &str) -> (count: u64)
        requires
            old(self).wf(),
        ensures
            final(self).wf(),
            count == amount(old(self)@.completed, id@),
            final(self)@ == (LedgerView {
                completed: old(self)@.completed.insert(id@, count as nat),
                ..old(self)@
            }),
    {
        let count = self.completed_crafts.get(id);
        self.completed_crafts.set(id, count);
        count
    }

    /// The surplus held of `id`. Gives `id` an entry of 0 where it had none.
    pub fn extra_crafts(&mut self, id: &str) -> (count: u64)
        requires
            old(self).wf(),
        ensures
            final(self).wf(),
            count == amount(old(self)@.surplus, id@),
            final(self)@ == (LedgerView {
                surplus: old(self)@.surplus.insert(id@, count as nat),
                ..old(self)@
            }),
    {
        let count = self.extra_crafts.get(id);
        self.extra_crafts.set(id, count);
        count
    }

    /// Counts `count` units of base material `material` as consumed. Where
    /// the total would leave 64 bits, nothing changes.
    pub fn add_base_material(&mut self, material: &str, count: u64) -> (result: Result<
        (),
        CraftError,
    >)
        requires
            old(self).wf(),
        ensures
            final(self).wf(),
            result is Ok <==> amount(old(self)@.base, material@) + count <= u64::MAX,
            result is Ok ==> final(self)@ == add_base_spec(old(self)@, material@, count as nat),
            result is Err ==> result == Err::<(), CraftError>(CraftError::Overflow) && final(self)@
                == old(self)@,
    {
        if self.base_materials.add(material, count) {
            Ok(())
        } else {
            Err(CraftError::Overflow)
        }
    }

    /// Declares `count` units of the item at position `item` as stock, for
    /// later requests for that item to use. Where the request cannot be
    /// carried out, nothing changes.
    pub fn add_extra(&mut self, catalog: &Catalog, item: usize, count: u64) -> (result: Result<
        (),
        CraftError,
    >)
        requires
            old(self).wf(),
        ensures
            final(self).wf(),
            match result {
                Ok(_) => {
                    &&& catalog@.has(item as int)
                    &&& amount(old(self)@.surplus, catalog@.items[item as int].id) + count
                        <= u64::MAX
                    &&& final(self)@ == add_extra_spec(
                        old(self)@,
                        catalog@.items[item as int].id,
                        count as nat,
                    )
                },
                Err(CraftError::UnknownItem) => !catalog@.has(item as int) && final(self)@ == old(
                    self,
                )@,
                Err(CraftError::Overflow) => {
                    &&& catalog@.has(item as int)
                    &&& amount(old(self)@.surplus, catalog@.items[item as int].id) + count
                        > u64::MAX
                    &&& final(self)@ == old(self)@
                },
            },
    {
        if item >= catalog.len() {
            return Err(CraftError::UnknownItem);
        }
        if self.extra_crafts.add(catalog.item(item).id.as_str(), count) {
            Ok(())
        } else {
            Err(CraftError::Overflow)
        }
    }

    /// A calculator with the same ledgers.
    pub fn duplicate(&self) -> (copy: Self)
        requires
            self.wf(),
        ensures
            copy.wf(),
            copy@ == self@,
    {
        CraftingCalculator {
            base_materials: self.base_materials.duplicate(),
            completed_crafts: self.completed_crafts.duplicate(),
            extra_crafts: self.extra_crafts.duplicate(),
        }
    }

    /// Requests `count` units of the item at position `item`: the surplus
    /// is used first, the rest is produced by whole operations whose excess
    /// goes to the surplus, and every ingredient line is supplied in turn,
    /// by crafting or from base material. Where the request cannot be
    /// carried out, nothing changes.
    pub fn craft(&mut self, catalog: &Catalog, item: usize, count: u64) -> (result: Result<
        (),
        CraftError,
    >)
        requires
            old(self).wf(),
            catalog.wf(),
        ensures
            final(self).wf(),
            match result {
                Ok(_) => {
                    &&& catalog@.has(item as int)
                    &&& craft_fits(catalog@, old(self)@, item as int, count as nat, u64::MAX as nat)
                    &&& final(self)@ == craft_spec(catalog@, old(self)@, item as int, count as nat)
                },
                Err(CraftError::UnknownItem) => !catalog@.has(item as int) && final(self)@ == old(
                    self,
                )@,
                Err(CraftError::Overflow) => {
                    &&& catalog@.has(item as int)
                    &&& !craft_fits(
                        catalog@,
                        old(self)@,
                        item as int,
                        count as nat,
                        u64::MAX as nat,
                    )
                    &&& final(self)@ == old(self)@
                },
            },
    {
        if item >= catalog.len() {
            return Err(CraftError::UnknownItem);
        }
        let mut trial = self.duplicate();
        if trial.supply(catalog, item, count) {
            *self = trial;
            Ok(())
        } else {
            Err(CraftError::Overflow)
        }
    }

    /// Carries out a request on the ledgers as they stand. Stops at the
    /// first quantity that leaves 64 bits, with the ledgers as they are
    /// then.
    fn supply(&mut self, catalog: &Catalog, item: usize, count: u64) -> (done: bool)
        requires
            old(self).wf(),
            catalog.wf(),
            catalog@.has(item as int),
        ensures
            final(self).wf(),
            done == craft_fits(catalog@, old(self)@, item as int, count as nat, u64::MAX as nat),
            done ==> final(self)@ == craft_spec(catalog@, old(self)@, item as int, count as nat),
        decreases catalog@.rank(item as int),
    {
        let entry = catalog.item(item);
        let id = entry.id.as_str();
        let recipe = entry.recipe.as_ref().unwrap();
        let ghost cat = catalog@;
        let ghost before = self@;
        let ghost settled = settle_item(cat, before, item as int, count as nat);

        let held = self.extra_crafts(id);
        let drawn = if count <= held {
            count
        } else {
            held
        };
        let rest = count - drawn;
        let per_operation = recipe.yield_per_operation as u64;
        let part = rest % per_operation;
        proof {
            lemma_operations_needed(rest as nat, per_operation as nat);
        }
        let operations = if part == 0 {
            rest / per_operation
        } else {
            rest / per_operation + 1
        };
        let spare = if part == 0 {
            0
        } else {
            per_operation - part
        };
        assert(operations == operations_for(cat, before, item as int, count as nat));
        self.extra_crafts.set(id, held - drawn + spare);
        let counted = self.completed_crafts(id);
        let total = match counted.checked_add(operations) {
            Some(total) => total,
            None => {
                return false;
            },
        };
        self.completed_crafts.set(id, total);
        proof {
            assert(self@.surplus =~= settled.surplus);
            assert(self@.completed =~= settled.completed);
            assert(self@ == settled);
        }
        let mut k: usize = 0;
        while k < recipe.ingredients.len()
            invariant
                self.wf(),
                catalog.wf(),
                cat == catalog@,
                before == old(self)@,
                cat.has(item as int),
                recipe@ == cat.items[item as int].recipe->0,
                k <= recipe.ingredients.len(),
                consume_spec(cat, self@, item as int, operations as nat, k as nat) == consume_spec(
                    cat,
                    settled,
                    item as int,
                    operations as nat,
                    0,
                ),
                consume_fits(cat, self@, item as int, operations as nat, k as nat, u64::MAX as nat)
                    == consume_fits(
                    cat,
                    settled,
                    item as int,
                    operations as nat,
                    0,
                    u64::MAX as nat,
                ),
                craft_fits(cat, before, item as int, count as nat, u64::MAX as nat) == consume_fits(
                    cat,
                    settled,
                    item as int,
                    operations as nat,
                    0,
                    u64::MAX as nat,
                ),
                craft_spec(cat, before, item as int, count as nat) == consume_spec(
                    cat,
                    settled,
                    item as int,
                    operations as nat,
                    0,
                ),
            decreases recipe.ingredients.len() - k,
        {
            let line = &recipe.ingredients[k];
            let ghost now = self@;
            proof {
                assert(cat.ingredients(item as int)[k as int] == (line.0@, line.1 as nat));
                assert(consume_fits(cat, now, item as int, operations as nat, k as nat, u64::MAX as nat)
                    ==> operations * line.1 <= u64::MAX);
            }
            let needed = match operations.checked_mul(line.1 as u64) {
                Some(n) => n,
                None => {
                    return false;
                },
            };
            match catalog.classify(&line.0) {
                Classification::Recurse(j) => {
                    proof {
                        cat.lemma_rank_decreases(item as int, k as int, j as int);
                        assert(consume_fits(
                            cat,
                            now,
                            item as int,
                            operations as nat,
                            k as nat,
                            u64::MAX as nat,
                        ) ==> craft_fits(cat, now, j as int, needed as nat, u64::MAX as nat));
                    }
                    if !self.supply(catalog, j, needed) {
                        return false;
                    }
                },
                _ => {
                    proof {
                        assert(consume_fits(
                            cat,
                            now,
                            item as int,
                            operations as nat,
                            k as nat,
                            u64::MAX as nat,
                        ) ==> amount(now.base, cat.id_of(line.0@)) + needed <= u64::MAX);
                    }
                    if self.add_base_material(line.0.get_id(catalog), needed).is_err() {
                        return false;
                    }
                },
            }
            k += 1;
        }
        true
    }
}

} // verus!
