//! What holds of a single request, and of a request after a declaration
//! of stock.

use crate::graph::{CatalogView, ClassificationView};
use crate::laws::reach::{
    draws_on, entry, lemma_consume_frame, lemma_craft_base_frame, lemma_craft_frame,
    lemma_own_id_outside_ingredients, outside, reaches,
};
use crate::ledger::amount;
use crate::model::{
    add_base_spec, add_extra_spec, consume_spec, craft_spec, drawn_from_surplus,
    lemma_operations_needed, operations_for, settle_item, LedgerView,
};
use vstd::prelude::*;

verus! {

/// Non-negativity. A request takes from the surplus no more than it holds
/// and no more than was asked for, and the operations that it starts
/// produce at least what is then still missing: no quantity of the
/// ledgers goes below 0, at any point.
pub proof fn lemma_non_negativity(cat: CatalogView, s: LedgerView, item: int, count: nat)
    requires
        cat.wf(),
        cat.has(item),
    ensures
        ({
            let held = amount(s.surplus, cat.items[item].id);
            let drawn = drawn_from_surplus(held, count);
            &&& drawn <= held
            &&& drawn <= count
            &&& operations_for(cat, s, item, count) * cat.yield_of(item) >= count - drawn
        }),
        forall|id: Seq<char>| #[trigger]
            craft_spec(cat, s, item, count).surplus.contains_key(id) ==> craft_spec(
                cat,
                s,
                item,
                count,
            ).surplus[id] >= 0,
        forall|id: Seq<char>| #[trigger]
            craft_spec(cat, s, item, count).completed.contains_key(id) ==> craft_spec(
                cat,
                s,
                item,
                count,
            ).completed[id] >= 0,
        forall|id: Seq<char>| #[trigger]
            craft_spec(cat, s, item, count).base.contains_key(id) ==> craft_spec(
                cat,
                s,
                item,
                count,
            ).base[id] >= 0,
{
    let held = amount(s.surplus, cat.items[item].id);
    let drawn = drawn_from_surplus(held, count);
    lemma_operations_needed((count - drawn) as nat, cat.yield_of(item));
}


/// Conservation. After a request, the operations counted for the item are
/// those counted before and those that the request started, and what the
/// item had in surplus together with what those operations produced is
/// what the request asked for together with what is in surplus now.
pub proof fn lemma_conservation(cat: CatalogView, s: LedgerView, item: int, count: nat)
    requires
        cat.wf(),
        cat.has(item),
    ensures
        ({
            let after = craft_spec(cat, s, item, count);
            let id = cat.items[item].id;
            let operations = operations_for(cat, s, item, count);
            &&& after.completed.contains_key(id)
            &&& after.surplus.contains_key(id)
            &&& after.completed[id] == amount(s.completed, id) + operations
            &&& amount(s.surplus, id) + operations * cat.yield_of(item) == count + after.surplus[id]
        }),
{
    let id = cat.items[item].id;
    let held = amount(s.surplus, id);
    let drawn = if count <= held {
        count
    } else {
        held
    };
    lemma_operations_needed((count - drawn) as nat, cat.yield_of(item));
    lemma_own_id_outside_ingredients(cat, item);
    lemma_consume_frame(
        cat,
        settle_item(cat, s, item, count),
        item,
        operations_for(cat, s, item, count),
        0,
        id,
    );
}

/// Every entry of `before` is in `after` with the same quantity, and every
/// other entry of `after` holds 0.
pub open spec fn zero_extension(before: Map<Seq<char>, nat>, after: Map<Seq<char>, nat>) -> bool {
    forall|id: Seq<char>|
        #![trigger after.contains_key(id)]
        {
            &&& before.contains_key(id) ==> after.contains_key(id) && after[id] == before[id]
            &&& !before.contains_key(id) && after.contains_key(id) ==> after[id] == 0
        }
}

/// The ledgers `after` hold the quantities of `before`, and beyond them
/// only entries of 0.
pub open spec fn only_zero_entries_added(before: LedgerView, after: LedgerView) -> bool {
    &&& zero_extension(before.surplus, after.surplus)
    &&& zero_extension(before.completed, after.completed)
    &&& zero_extension(before.base, after.base)
}

/// A request that the surplus covers starts no operation, neither for the
/// item nor for anything that its ingredients refer to: it takes the units
/// from the item's surplus, and beyond that adds only entries of 0.
pub proof fn lemma_covered_by_surplus(cat: CatalogView, s: LedgerView, item: int, count: nat)
    requires
        cat.wf(),
        cat.has(item),
        count <= amount(s.surplus, cat.items[item].id),
    ensures
        operations_for(cat, s, item, count) == 0,
        only_zero_entries_added(
            LedgerView {
                surplus: s.surplus.insert(
                    cat.items[item].id,
                    (amount(s.surplus, cat.items[item].id) - count) as nat,
                ),
                ..s
            },
            craft_spec(cat, s, item, count),
        ),
    decreases cat.rank(item), cat.ingredients(item).len() + 1,
{
    let id = cat.items[item].id;
    let taken = LedgerView {
        surplus: s.surplus.insert(id, (amount(s.surplus, id) - count) as nat),
        ..s
    };
    let settled = settle_item(cat, s, item, count);
    lemma_operations_needed(0, cat.yield_of(item));
    assert(0nat * cat.yield_of(item) == 0) by (nonlinear_arith);
    assert(operations_for(cat, s, item, count) == 0);
    assert(settled.surplus =~= taken.surplus);
    assert(settled.completed =~= s.completed.insert(id, amount(s.completed, id)));
    assert(only_zero_entries_added(taken, settled));
    lemma_idle_consume(cat, settled, item, 0);
    lemma_only_zero_entries_chain(taken, settled, craft_spec(cat, s, item, count));
}

/// Adding only entries of 0, twice, adds only entries of 0.
pub proof fn lemma_only_zero_entries_chain(a: LedgerView, b: LedgerView, c: LedgerView)
    requires
        only_zero_entries_added(a, b),
        only_zero_entries_added(b, c),
    ensures
        only_zero_entries_added(a, c),
{
    assert forall|id: Seq<char>| #![trigger c.surplus.contains_key(id)] {
        &&& a.surplus.contains_key(id) ==> c.surplus.contains_key(id) && c.surplus[id] == a.surplus[id]
        &&& !a.surplus.contains_key(id) && c.surplus.contains_key(id) ==> c.surplus[id] == 0
    } by {
        assert(b.surplus.contains_key(id) ==> c.surplus.contains_key(id));
    }
    assert forall|id: Seq<char>| #![trigger c.completed.contains_key(id)] {
        &&& a.completed.contains_key(id) ==> c.completed.contains_key(id) && c.completed[id]
            == a.completed[id]
        &&& !a.completed.contains_key(id) && c.completed.contains_key(id) ==> c.completed[id] == 0
    } by {
        assert(b.completed.contains_key(id) ==> c.completed.contains_key(id));
    }
    assert forall|id: Seq<char>| #![trigger c.base.contains_key(id)] {
        &&& a.base.contains_key(id) ==> c.base.contains_key(id) && c.base[id] == a.base[id]
        &&& !a.base.contains_key(id) && c.base.contains_key(id) ==> c.base[id] == 0
    } by {
        assert(b.base.contains_key(id) ==> c.base.contains_key(id));
    }
}

/// Supplying ingredient lines for no operation adds only entries of 0.
pub proof fn lemma_idle_consume(cat: CatalogView, s: LedgerView, item: int, k: nat)
    requires
        cat.wf(),
        cat.has(item),
    ensures
        only_zero_entries_added(s, consume_spec(cat, s, item, 0, k)),
    decreases cat.rank(item), cat.ingredients(item).len() - k,
{
    if k < cat.ingredients(item).len() {
        let line = cat.ingredients(item)[k as int];
        assert(0nat * line.1 == 0) by (nonlinear_arith);
        let supplied = match cat.classify(line.0) {
            ClassificationView::Recurse(j) => craft_spec(cat, s, j, 0),
            _ => add_base_spec(s, cat.id_of(line.0), 0),
        };
        match cat.classify(line.0) {
            ClassificationView::Recurse(j) => {
                assert(cat.feeds(item, k as int, j));
                cat.lemma_rank_decreases(item, k as int, j);
                lemma_covered_by_surplus(cat, s, j, 0);
                let id = cat.items[j].id;
                let taken = LedgerView {
                    surplus: s.surplus.insert(id, amount(s.surplus, id)),
                    ..s
                };
                assert(only_zero_entries_added(s, taken));
                lemma_only_zero_entries_chain(s, taken, supplied);
            },
            _ => {
                let id = cat.id_of(line.0);
                assert(supplied.base =~= s.base.insert(id, amount(s.base, id)));
            },
        }
        assert(only_zero_entries_added(s, supplied));
        lemma_idle_consume(cat, supplied, item, k + 1);
        lemma_only_zero_entries_chain(s, supplied, consume_spec(cat, s, item, 0, k));
    }
}

/// Zero no-op. A request for no units changes no quantity: it adds only
/// entries of 0.
pub proof fn lemma_zero_request(cat: CatalogView, s: LedgerView, item: int)
    requires
        cat.wf(),
        cat.has(item),
    ensures
        only_zero_entries_added(s, craft_spec(cat, s, item, 0)),
{
    let id = cat.items[item].id;
    let taken = LedgerView { surplus: s.surplus.insert(id, amount(s.surplus, id)), ..s };
    lemma_covered_by_surplus(cat, s, item, 0);
    assert(only_zero_entries_added(s, taken));
    lemma_only_zero_entries_chain(s, taken, craft_spec(cat, s, item, 0));
}

/// Surplus precedence. After `extra` units of an item were declared as
/// stock, a request for at most as many units of it starts no operation,
/// neither for the item nor for anything that its ingredients refer to,
/// and takes exactly the units asked for from the item's surplus.
pub proof fn lemma_surplus_precedence(
    cat: CatalogView,
    s: LedgerView,
    item: int,
    extra: nat,
    count: nat,
)
    requires
        cat.wf(),
        cat.has(item),
        count <= extra,
    ensures
        ({
            let id = cat.items[item].id;
            let stocked = add_extra_spec(s, id, extra);
            let after = craft_spec(cat, stocked, item, count);
            &&& operations_for(cat, stocked, item, count) == 0
            &&& after.surplus.contains_key(id)
            &&& after.surplus[id] == stocked.surplus[id] - count
            &&& zero_extension(stocked.surplus.remove(id), after.surplus.remove(id))
            &&& zero_extension(stocked.completed, after.completed)
            &&& zero_extension(stocked.base, after.base)
        }),
{
    let id = cat.items[item].id;
    let stocked = add_extra_spec(s, id, extra);
    lemma_covered_by_surplus(cat, stocked, item, count);
    let after = craft_spec(cat, stocked, item, count);
    let taken = stocked.surplus.insert(id, (amount(stocked.surplus, id) - count) as nat);
    assert(taken.contains_key(id));
    assert(after.surplus.contains_key(id));
    assert forall|other: Seq<char>|
        #![trigger after.surplus.remove(id).contains_key(other)]
        {
            &&& stocked.surplus.remove(id).contains_key(other) ==> after.surplus.remove(
                id,
            ).contains_key(other) && after.surplus.remove(id)[other] == stocked.surplus.remove(
                id,
            )[other]
            &&& !stocked.surplus.remove(id).contains_key(other) && after.surplus.remove(
                id,
            ).contains_key(other) ==> after.surplus.remove(id)[other] == 0
        } by {
        if other != id {
            assert(after.surplus.contains_key(other) ==> true);
            assert(taken.contains_key(other) == stocked.surplus.contains_key(other));
        }
    }
}

/// Zero no-op, to the entry. Where every other item that the demand
/// reaches and every base material that it ends in has its entries
/// already, a request for no units changes nothing but this: the item
/// itself gets an entry of 0 where it had none.
pub proof fn lemma_zero_request_exact(cat: CatalogView, s: LedgerView, item: int)
    requires
        cat.wf(),
        cat.has(item),
        forall|x: int| #[trigger]
            reaches(cat, item, x) && x != item ==> s.surplus.contains_key(cat.items[x].id)
                && s.completed.contains_key(cat.items[x].id),
        forall|id: Seq<char>| #[trigger] draws_on(cat, item, id) ==> s.base.contains_key(id),
    ensures
        craft_spec(cat, s, item, 0) == (LedgerView {
            surplus: s.surplus.insert(cat.items[item].id, amount(s.surplus, cat.items[item].id)),
            completed: s.completed.insert(
                cat.items[item].id,
                amount(s.completed, cat.items[item].id),
            ),
            base: s.base,
        }),
{
    let own = cat.items[item].id;
    let after = craft_spec(cat, s, item, 0);
    lemma_zero_request(cat, s, item);
    lemma_covered_by_surplus(cat, s, item, 0);
    lemma_conservation(cat, s, item, 0);
    assert(0nat * cat.yield_of(item) == 0) by (nonlinear_arith);
    assert forall|id: Seq<char>|
        #![trigger entry(after.surplus, id)]
        #![trigger entry(after.completed, id)]
        entry(after.surplus, id) == entry(s.surplus.insert(own, amount(s.surplus, own)), id)
            && entry(after.completed, id) == entry(
            s.completed.insert(own, amount(s.completed, own)),
            id,
        ) by {
        if id != own {
            if outside(cat, item, id) {
                lemma_craft_frame(cat, s, item, 0, id);
            } else {
                let x = choose|x: int| #[trigger] reaches(cat, item, x) && cat.items[x].id == id;
                assert(s.surplus.contains_key(id) && s.completed.contains_key(id));
                assert(after.surplus.contains_key(id) && after.completed.contains_key(id));
            }
        }
    }
    assert forall|id: Seq<char>| #[trigger] entry(after.base, id) == entry(s.base, id) by {
        if draws_on(cat, item, id) {
            assert(after.base.contains_key(id));
        } else {
            lemma_craft_base_frame(cat, s, item, 0, id);
        }
    }
    assert(after.surplus =~= s.surplus.insert(own, amount(s.surplus, own))) by {
        assert forall|id: Seq<char>|
            #![trigger after.surplus.contains_key(id)]
            after.surplus.contains_key(id) == s.surplus.insert(
                own,
                amount(s.surplus, own),
            ).contains_key(id) && (after.surplus.contains_key(id) ==> after.surplus[id]
                == s.surplus.insert(own, amount(s.surplus, own))[id]) by {
            assert(entry(after.surplus, id) == entry(
                s.surplus.insert(own, amount(s.surplus, own)),
                id,
            ));
        }
    }
    assert(after.completed =~= s.completed.insert(own, amount(s.completed, own))) by {
        assert forall|id: Seq<char>|
            #![trigger after.completed.contains_key(id)]
            after.completed.contains_key(id) == s.completed.insert(
                own,
                amount(s.completed, own),
            ).contains_key(id) && (after.completed.contains_key(id) ==> after.completed[id]
                == s.completed.insert(own, amount(s.completed, own))[id]) by {
            assert(entry(after.completed, id) == entry(
                s.completed.insert(own, amount(s.completed, own)),
                id,
            ));
        }
    }
    assert(after.base =~= s.base) by {
        assert forall|id: Seq<char>|
            #![trigger after.base.contains_key(id)]
            after.base.contains_key(id) == s.base.contains_key(id) && (after.base.contains_key(id)
                ==> after.base[id] == s.base[id]) by {
            assert(entry(after.base, id) == entry(s.base, id));
        }
    }
}

} // verus!
