//! What holds of recipe depths.

use crate::graph::{deepest_ingredient, recipe_depth, CatalogView, ClassificationView};
use vstd::prelude::*;

verus! {

/// No ingredient line of the item at `i` passes its demand on.
pub open spec fn all_terminal(cat: CatalogView, i: int) -> bool {
    forall|k: int, j: int| !#[trigger] cat.feeds(i, k, j)
}

/// What the greatest depth among the first `k` ingredient lines is: at
/// least the depth of each item that one of them passes demand on to, and
/// the depth of one of those items, or 0 where there is none.
proof fn lemma_deepest_is_greatest(cat: CatalogView, i: int, k: nat)
    requires
        cat.wf(),
        cat.has(i),
        k <= cat.ingredients(i).len(),
    ensures
        forall|m: int, j: int|
            0 <= m < k && #[trigger] cat.feeds(i, m, j) ==> recipe_depth(cat, j)
                <= deepest_ingredient(cat, i, k),
        (forall|m: int, j: int| 0 <= m < k ==> !#[trigger] cat.feeds(i, m, j)) ==> deepest_ingredient(
            cat,
            i,
            k,
        ) == 0,
        (exists|m: int, j: int| 0 <= m < k && #[trigger] cat.feeds(i, m, j)) ==> exists|
            m: int,
            j: int,
        |
            0 <= m < k && #[trigger] cat.feeds(i, m, j) && recipe_depth(cat, j)
                == deepest_ingredient(cat, i, k),
    decreases k,
{
    if k > 0 {
        let before = (k - 1) as nat;
        lemma_deepest_is_greatest(cat, i, before);
        let class = cat.classify(cat.ingredients(i)[k - 1].0);
        assert forall|m: int, j: int| 0 <= m < k && #[trigger] cat.feeds(i, m, j) implies recipe_depth(
            cat,
            j,
        ) <= deepest_ingredient(cat, i, k) by {
            if m < k - 1 {
                assert(recipe_depth(cat, j) <= deepest_ingredient(cat, i, before));
            }
        }
        if forall|m: int, j: int| 0 <= m < k ==> !#[trigger] cat.feeds(i, m, j) {
            match class {
                ClassificationView::Recurse(j) => {
                    assert(cat.feeds(i, k - 1, j));
                },
                _ => {},
            }
        }
        if exists|m: int, j: int| 0 <= m < k && #[trigger] cat.feeds(i, m, j) {
            match class {
                ClassificationView::Recurse(j) => {
                    assert(cat.feeds(i, k - 1, j));
                    if recipe_depth(cat, j) > deepest_ingredient(cat, i, before) {
                        assert(0 <= k - 1 < k && cat.feeds(i, k - 1, j) && recipe_depth(cat, j)
                            == deepest_ingredient(cat, i, k));
                    } else {
                        lemma_depth_positive(cat, j);
                        assert(exists|m: int, j: int| 0 <= m < before && #[trigger] cat.feeds(i, m, j));
                        let (m0, j0) = choose|m: int, j: int|
                            0 <= m < before && #[trigger] cat.feeds(i, m, j) && recipe_depth(cat, j)
                                == deepest_ingredient(cat, i, before);
                        assert(0 <= m0 < k && cat.feeds(i, m0, j0) && recipe_depth(cat, j0)
                            == deepest_ingredient(cat, i, k));
                    }
                },
                _ => {
                    let (m1, j1) = choose|m: int, j: int| 0 <= m < k && #[trigger] cat.feeds(i, m, j);
                    assert(m1 < before);
                    let (m0, j0) = choose|m: int, j: int|
                        0 <= m < before && #[trigger] cat.feeds(i, m, j) && recipe_depth(cat, j)
                            == deepest_ingredient(cat, i, before);
                    assert(0 <= m0 < k && cat.feeds(i, m0, j0) && recipe_depth(cat, j0)
                        == deepest_ingredient(cat, i, k));
                },
            }
        }
    }
}

/// Every recipe depth is at least 1.
pub proof fn lemma_depth_positive(cat: CatalogView, i: int)
    requires
        cat.wf(),
        cat.has(i),
    ensures
        recipe_depth(cat, i) >= 1,
{
}

/// An item none of whose ingredients passes its demand on, because each is
/// a raw material or a material outside the catalog, has recipe depth 1.
pub proof fn lemma_depth_base_case(cat: CatalogView, i: int)
    requires
        cat.wf(),
        cat.has(i),
        all_terminal(cat, i),
    ensures
        recipe_depth(cat, i) == 1,
{
    lemma_deepest_is_greatest(cat, i, cat.ingredients(i).len());
}

/// The recipe depth of an item is one more than the greatest recipe depth
/// among the items that its ingredients pass demand on to: it is above the
/// depth of each of them, and just one above the depth of one of them.
pub proof fn lemma_depth_recursion(cat: CatalogView, i: int)
    requires
        cat.wf(),
        cat.has(i),
        !all_terminal(cat, i),
    ensures
        forall|k: int, j: int| #[trigger]
            cat.feeds(i, k, j) ==> recipe_depth(cat, j) < recipe_depth(cat, i),
        exists|k: int, j: int| #[trigger]
            cat.feeds(i, k, j) && recipe_depth(cat, i) == 1 + recipe_depth(cat, j),
{
    lemma_deepest_is_greatest(cat, i, cat.ingredients(i).len());
    let (k0, j0) = choose|k: int, j: int| #[trigger] cat.feeds(i, k, j);
    assert(0 <= k0 < cat.ingredients(i).len() && cat.feeds(i, k0, j0));
    let (m, j) = choose|m: int, j: int|
        0 <= m < cat.ingredients(i).len() && #[trigger] cat.feeds(i, m, j) && recipe_depth(cat, j)
            == deepest_ingredient(cat, i, cat.ingredients(i).len());
    assert(cat.feeds(i, m, j) && recipe_depth(cat, i) == 1 + recipe_depth(cat, j));
}

} // verus!
