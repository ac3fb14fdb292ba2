//! Requests that have nothing in common: the order in which they are made
//! makes no difference.

use crate::graph::{CatalogView, ClassificationView};
use crate::laws::reach::{
    entry, lemma_consume_frame, lemma_craft_frame, lemma_own_id_outside_ingredients,
    lemma_reach_rank, lemma_reach_through, lemma_unreached_is_outside, outside, reaches,
};
use crate::ledger::amount;
use crate::model::{
    add_base_spec, consume_spec, craft_spec, operations_for, settle_item, LedgerView,
};
use vstd::prelude::*;

verus! {

/// Two ledgers hold the same surplus and the same operation count for
/// every item that demand for the item at `item` reaches.
pub open spec fn agree_within(cat: CatalogView, item: int, a: LedgerView, b: LedgerView) -> bool {
    forall|x: int| #[trigger]
        reaches(cat, item, x) ==> entry(a.surplus, cat.items[x].id) == entry(
            b.surplus,
            cat.items[x].id,
        ) && entry(a.completed, cat.items[x].id) == entry(b.completed, cat.items[x].id)
}

/// Two ledgers hold the same surplus and the same operation count for
/// every item that demand passed on by the item at `item` reaches.
pub open spec fn agree_below(cat: CatalogView, item: int, a: LedgerView, b: LedgerView) -> bool {
    forall|k: int, j: int| #[trigger] cat.feeds(item, k, j) ==> agree_within(cat, j, a, b)
}

/// From `a` to `a2` the base material changes as it does from `b` to
/// `b2`: every quantity grows by the same, no entry is lost, and the same
/// entries are new.
pub open spec fn same_base_change(
    a: Map<Seq<char>, nat>,
    a2: Map<Seq<char>, nat>,
    b: Map<Seq<char>, nat>,
    b2: Map<Seq<char>, nat>,
) -> bool {
    forall|id: Seq<char>|
        #![trigger a2.contains_key(id)]
        #![trigger b2.contains_key(id)]
        {
            &&& amount(a2, id) + amount(b, id) == amount(b2, id) + amount(a, id)
            &&& a.contains_key(id) ==> a2.contains_key(id)
            &&& b.contains_key(id) ==> b2.contains_key(id)
            &&& a2.contains_key(id) && !a.contains_key(id) ==> b2.contains_key(id)
            &&& b2.contains_key(id) && !b.contains_key(id) ==> a2.contains_key(id)
        }
}

proof fn lemma_same_base_change_chain(
    a: Map<Seq<char>, nat>,
    a2: Map<Seq<char>, nat>,
    a3: Map<Seq<char>, nat>,
    b: Map<Seq<char>, nat>,
    b2: Map<Seq<char>, nat>,
    b3: Map<Seq<char>, nat>,
)
    requires
        same_base_change(a, a2, b, b2),
        same_base_change(a2, a3, b2, b3),
    ensures
        same_base_change(a, a3, b, b3),
{
    assert forall|id: Seq<char>|
        #![trigger a3.contains_key(id)]
        #![trigger b3.contains_key(id)]
        {
            &&& amount(a3, id) + amount(b, id) == amount(b3, id) + amount(a, id)
            &&& a.contains_key(id) ==> a3.contains_key(id)
            &&& b.contains_key(id) ==> b3.contains_key(id)
            &&& a3.contains_key(id) && !a.contains_key(id) ==> b3.contains_key(id)
            &&& b3.contains_key(id) && !b.contains_key(id) ==> a3.contains_key(id)
        } by {
        assert(a2.contains_key(id) || !a2.contains_key(id));
        assert(b2.contains_key(id) || !b2.contains_key(id));
    }
}

/// The same request on two ledgers that agree on what the request can
/// reach leaves them agreeing there, and changes the base material of
/// both alike.
pub proof fn lemma_craft_alike(cat: CatalogView, a: LedgerView, b: LedgerView, item: int, count: nat)
    requires
        cat.wf(),
        cat.has(item),
        agree_within(cat, item, a, b),
    ensures
        agree_within(cat, item, craft_spec(cat, a, item, count), craft_spec(cat, b, item, count)),
        same_base_change(
            a.base,
            craft_spec(cat, a, item, count).base,
            b.base,
            craft_spec(cat, b, item, count).base,
        ),
    decreases cat.rank(item), cat.ingredients(item).len() + 1,
{
    let id = cat.items[item].id;
    assert(reaches(cat, item, item));
    let operations = operations_for(cat, a, item, count);
    assert(operations == operations_for(cat, b, item, count));
    let a1 = settle_item(cat, a, item, count);
    let b1 = settle_item(cat, b, item, count);
    let a2 = craft_spec(cat, a, item, count);
    let b2 = craft_spec(cat, b, item, count);
    assert(entry(a1.surplus, id) == entry(b1.surplus, id));
    assert(entry(a1.completed, id) == entry(b1.completed, id));
    assert forall|k: int, j: int| #[trigger] cat.feeds(item, k, j) implies agree_within(
        cat,
        j,
        a1,
        b1,
    ) by {
        cat.lemma_rank_decreases(item, k, j);
        assert forall|x: int| #[trigger] reaches(cat, j, x) implies entry(
            a1.surplus,
            cat.items[x].id,
        ) == entry(b1.surplus, cat.items[x].id) && entry(a1.completed, cat.items[x].id) == entry(
            b1.completed,
            cat.items[x].id,
        ) by {
            lemma_reach_rank(cat, j, x);
            lemma_reach_through(cat, item, k, j, x);
            assert(cat.items[x].id != id);
        }
    }
    lemma_consume_alike(cat, a1, b1, item, operations, 0);
    lemma_own_id_outside_ingredients(cat, item);
    lemma_consume_frame(cat, a1, item, operations, 0, id);
    lemma_consume_frame(cat, b1, item, operations, 0, id);
    assert forall|x: int| #[trigger] reaches(cat, item, x) implies entry(
        a2.surplus,
        cat.items[x].id,
    ) == entry(b2.surplus, cat.items[x].id) && entry(a2.completed, cat.items[x].id) == entry(
        b2.completed,
        cat.items[x].id,
    ) by {
        if x != item {
            let (k, j) = choose|k: int, j: int| #[trigger]
                cat.feeds(item, k, j) && reaches(cat, j, x);
            assert(agree_within(cat, j, a2, b2));
        }
    }
}

/// Supplying the same ingredient lines for the same operations on two
/// ledgers that agree on what the demand passed on can reach leaves them
/// agreeing there, and changes the base material of both alike.
pub proof fn lemma_consume_alike(
    cat: CatalogView,
    a: LedgerView,
    b: LedgerView,
    item: int,
    operations: nat,
    k: nat,
)
    requires
        cat.wf(),
        cat.has(item),
        agree_below(cat, item, a, b),
    ensures
        agree_below(
            cat,
            item,
            consume_spec(cat, a, item, operations, k),
            consume_spec(cat, b, item, operations, k),
        ),
        same_base_change(
            a.base,
            consume_spec(cat, a, item, operations, k).base,
            b.base,
            consume_spec(cat, b, item, operations, k).base,
        ),
    decreases cat.rank(item), cat.ingredients(item).len() - k,
{
    if k < cat.ingredients(item).len() {
        let line = cat.ingredients(item)[k as int];
        let needed = operations * line.1;
        let a1 = match cat.classify(line.0) {
            ClassificationView::Recurse(j) => craft_spec(cat, a, j, needed),
            _ => add_base_spec(a, cat.id_of(line.0), needed),
        };
        let b1 = match cat.classify(line.0) {
            ClassificationView::Recurse(j) => craft_spec(cat, b, j, needed),
            _ => add_base_spec(b, cat.id_of(line.0), needed),
        };
        match cat.classify(line.0) {
            ClassificationView::Recurse(j) => {
                assert(cat.feeds(item, k as int, j));
                cat.lemma_rank_decreases(item, k as int, j);
                lemma_craft_alike(cat, a, b, j, needed);
                assert forall|k2: int, j2: int| #[trigger] cat.feeds(item, k2, j2) implies agree_within(
                    cat,
                    j2,
                    a1,
                    b1,
                ) by {
                    assert(agree_within(cat, j2, a, b));
                    assert forall|x: int| #[trigger] reaches(cat, j2, x) implies entry(
                        a1.surplus,
                        cat.items[x].id,
                    ) == entry(b1.surplus, cat.items[x].id) && entry(
                        a1.completed,
                        cat.items[x].id,
                    ) == entry(b1.completed, cat.items[x].id) by {
                        cat.lemma_rank_decreases(item, k2, j2);
                        lemma_reach_rank(cat, j2, x);
                        if !reaches(cat, j, x) {
                            lemma_unreached_is_outside(cat, j, x);
                            lemma_craft_frame(cat, a, j, needed, cat.items[x].id);
                            lemma_craft_frame(cat, b, j, needed, cat.items[x].id);
                        }
                    }
                }
            },
            _ => {
                assert forall|k2: int, j2: int| #[trigger] cat.feeds(item, k2, j2) implies agree_within(
                    cat,
                    j2,
                    a1,
                    b1,
                ) by {
                    assert(agree_within(cat, j2, a, b));
                }
            },
        }
        assert(same_base_change(a.base, a1.base, b.base, b1.base));
        lemma_consume_alike(cat, a1, b1, item, operations, k + 1);
        lemma_same_base_change_chain(
            a.base,
            a1.base,
            consume_spec(cat, a, item, operations, k).base,
            b.base,
            b1.base,
            consume_spec(cat, b, item, operations, k).base,
        );
    } else {
        assert forall|k2: int, j2: int| #[trigger] cat.feeds(item, k2, j2) implies agree_within(
            cat,
            j2,
            consume_spec(cat, a, item, operations, k),
            consume_spec(cat, b, item, operations, k),
        ) by {
            assert(agree_within(cat, j2, a, b));
        }
    }
}

/// Demand for the items at `a` and at `b` reaches no item in common.
pub open spec fn independent(cat: CatalogView, a: int, b: int) -> bool {
    forall|x: int| #![trigger reaches(cat, a, x)] #![trigger reaches(cat, b, x)]
        !(reaches(cat, a, x) && reaches(cat, b, x))
}

/// A request leaves ledgers that agree, on everything that an independent
/// request can reach, with the ledgers before it.
proof fn lemma_independent_untouched(
    cat: CatalogView,
    s: LedgerView,
    a: int,
    n: nat,
    b: int,
)
    requires
        cat.wf(),
        cat.has(a),
        cat.has(b),
        independent(cat, a, b),
    ensures
        agree_within(cat, b, craft_spec(cat, s, a, n), s),
{
    assert forall|x: int| #[trigger] reaches(cat, b, x) implies entry(
        craft_spec(cat, s, a, n).surplus,
        cat.items[x].id,
    ) == entry(s.surplus, cat.items[x].id) && entry(
        craft_spec(cat, s, a, n).completed,
        cat.items[x].id,
    ) == entry(s.completed, cat.items[x].id) by {
        lemma_reach_rank(cat, b, x);
        lemma_unreached_is_outside(cat, a, x);
        lemma_craft_frame(cat, s, a, n, cat.items[x].id);
    }
}

/// Commutative accumulation. Two requests whose demand reaches no item in
/// common leave the same ledgers in either order: the same base material
/// totals, the same operation counts and the same surplus.
pub proof fn lemma_independent_requests_commute(
    cat: CatalogView,
    s: LedgerView,
    a: int,
    n: nat,
    b: int,
    m: nat,
)
    requires
        cat.wf(),
        cat.has(a),
        cat.has(b),
        independent(cat, a, b),
    ensures
        craft_spec(cat, craft_spec(cat, s, a, n), b, m) == craft_spec(
            cat,
            craft_spec(cat, s, b, m),
            a,
            n,
        ),
{
    let t1 = craft_spec(cat, s, a, n);
    let t2 = craft_spec(cat, s, b, m);
    let u1 = craft_spec(cat, t1, b, m);
    let u2 = craft_spec(cat, t2, a, n);
    lemma_independent_untouched(cat, s, a, n, b);
    lemma_independent_untouched(cat, s, b, m, a);
    lemma_craft_alike(cat, t1, s, b, m);
    lemma_craft_alike(cat, t2, s, a, n);
    assert forall|id: Seq<char>|
        #![trigger entry(u1.surplus, id)]
        #![trigger entry(u1.completed, id)]
        entry(u1.surplus, id) == entry(u2.surplus, id) && entry(u1.completed, id) == entry(
            u2.completed,
            id,
        ) by {
        if !outside(cat, a, id) {
            let x = choose|x: int| #[trigger] reaches(cat, a, x) && cat.items[x].id == id;
            lemma_reach_rank(cat, a, x);
            lemma_unreached_is_outside(cat, b, x);
            lemma_craft_frame(cat, t1, b, m, id);
        } else if !outside(cat, b, id) {
            let x = choose|x: int| #[trigger] reaches(cat, b, x) && cat.items[x].id == id;
            lemma_reach_rank(cat, b, x);
            lemma_unreached_is_outside(cat, a, x);
            lemma_craft_frame(cat, t2, a, n, id);
        } else {
            lemma_craft_frame(cat, s, a, n, id);
            lemma_craft_frame(cat, s, b, m, id);
            lemma_craft_frame(cat, t1, b, m, id);
            lemma_craft_frame(cat, t2, a, n, id);
        }
    }
    assert forall|id: Seq<char>| entry(u1.base, id) == entry(u2.base, id) by {
        assert(t1.base.contains_key(id) || !t1.base.contains_key(id));
        assert(t2.base.contains_key(id) || !t2.base.contains_key(id));
        assert(u1.base.contains_key(id) || !u1.base.contains_key(id));
        assert(u2.base.contains_key(id) || !u2.base.contains_key(id));
    }
    assert forall|id: Seq<char>|
        #![trigger u1.surplus.contains_key(id)]
        #![trigger u2.surplus.contains_key(id)]
        u1.surplus.contains_key(id) == u2.surplus.contains_key(id) && (u1.surplus.contains_key(id)
            ==> u1.surplus[id] == u2.surplus[id]) by {
        assert(entry(u1.surplus, id) == entry(u2.surplus, id));
    }
    assert(u1.surplus =~= u2.surplus);
    assert forall|id: Seq<char>|
        #![trigger u1.completed.contains_key(id)]
        #![trigger u2.completed.contains_key(id)]
        u1.completed.contains_key(id) == u2.completed.contains_key(id) && (
        u1.completed.contains_key(id) ==> u1.completed[id] == u2.completed[id]) by {
        assert(entry(u1.completed, id) == entry(u2.completed, id));
    }
    assert(u1.completed =~= u2.completed);
    assert(u1.base =~= u2.base) by {
        assert forall|id: Seq<char>| u1.base.contains_key(id) == u2.base.contains_key(id) && (
        u1.base.contains_key(id) ==> u1.base[id] == u2.base[id]) by {
            assert(entry(u1.base, id) == entry(u2.base, id));
        }
    }
}

} // verus!
