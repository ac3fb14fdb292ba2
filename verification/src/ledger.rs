//! A ledger of quantities by identifier.

use crate::text::{comes_before, lemma_text_order_total, lemma_text_order_transitive, text_before};
use vstd::hash_map::StringHashMap;
use vstd::prelude::*;

verus! {

/// The quantity that a ledger holds for `id`: 0 where it has no entry.
pub open spec fn amount(m: Map<Seq<char>, nat>, id: Seq<char>) -> nat {
    if m.contains_key(id) {
        m[id]
    } else {
        0
    }
}

/// Every identifier stands before those that follow it.
pub open spec fn ascending(ids: Seq<Seq<char>>) -> bool {
    forall|i: int, j: int|
        0 <= i < j < ids.len() ==> text_before(#[trigger] ids[i], #[trigger] ids[j])
}

/// `ids` are the identifiers of the entries of `m`, in ascending order.
pub open spec fn lists(ids: Seq<Seq<char>>, m: Map<Seq<char>, nat>) -> bool {
    &&& ascending(ids)
    &&& forall|id: Seq<char>|
        #![trigger m.contains_key(id)]
        #![trigger ids.contains(id)]
        m.contains_key(id) <==> ids.contains(id)
}

/// The identifiers of the entries of `m`, in ascending order.
pub open spec fn sorted_ids(m: Map<Seq<char>, nat>) -> Seq<Seq<char>> {
    choose|ids: Seq<Seq<char>>| lists(ids, m)
}

/// An identifier occurs in an ascending listing at one place only.
proof fn lemma_ascending_distinct(ids: Seq<Seq<char>>, i: int, j: int)
    requires
        ascending(ids),
        0 <= i < ids.len(),
        0 <= j < ids.len(),
        ids[i] == ids[j],
    ensures
        i == j,
{
    lemma_text_order_total(ids[i], ids[j]);
}

/// The entries of a ledger have one ascending listing only.
pub proof fn lemma_listing_unique(a: Seq<Seq<char>>, b: Seq<Seq<char>>, m: Map<Seq<char>, nat>)
    requires
        lists(a, m),
        lists(b, m),
    ensures
        a == b,
    decreases a.len(),
{
    if a.len() == 0 {
        if b.len() > 0 {
            assert(b.contains(b[0]));
            assert(m.contains_key(b[0]));
            assert(a.contains(b[0]));
        }
        assert(a =~= b);
    } else {
        let x = a.last();
        assert(a.contains(x));
        assert(m.contains_key(x));
        assert(b.contains(x));
        let j = choose|j: int| 0 <= j < b.len() && b[j] == x;
        let y = b.last();
        assert(b.contains(y));
        assert(m.contains_key(y));
        assert(a.contains(y));
        let i = choose|i: int| 0 <= i < a.len() && a[i] == y;
        if j < b.len() - 1 {
            assert(text_before(b[j], b[b.len() - 1]));
            if i < a.len() - 1 {
                assert(text_before(a[i], a[a.len() - 1]));
                lemma_text_order_transitive(x, y, x);
            }
            lemma_text_order_total(x, x);
        }
        assert(x == y);
        let rest = m.remove(x);
        assert forall|id: Seq<char>|
            #![trigger rest.contains_key(id)]
            #![trigger a.drop_last().contains(id)]
            rest.contains_key(id) <==> a.drop_last().contains(id) by {
            if rest.contains_key(id) {
                assert(m.contains_key(id));
                assert(a.contains(id));
                let h = choose|h: int| 0 <= h < a.len() && a[h] == id;
                assert(a.drop_last()[h] == id);
            }
            if a.drop_last().contains(id) {
                let h = choose|h: int| 0 <= h < a.drop_last().len() && a.drop_last()[h] == id;
                assert(a[h] == id);
                assert(a.contains(id));
                if id == x {
                    lemma_ascending_distinct(a, h, a.len() - 1);
                }
            }
        }
        assert forall|id: Seq<char>|
            #![trigger rest.contains_key(id)]
            #![trigger b.drop_last().contains(id)]
            rest.contains_key(id) <==> b.drop_last().contains(id) by {
            if rest.contains_key(id) {
                assert(m.contains_key(id));
                assert(b.contains(id));
                let h = choose|h: int| 0 <= h < b.len() && b[h] == id;
                assert(b.drop_last()[h] == id);
            }
            if b.drop_last().contains(id) {
                let h = choose|h: int| 0 <= h < b.drop_last().len() && b.drop_last()[h] == id;
                assert(b[h] == id);
                assert(b.contains(id));
                if id == x {
                    lemma_ascending_distinct(b, h, b.len() - 1);
                }
            }
        }
        assert forall|i: int, j: int| 0 <= i < j < a.drop_last().len() implies text_before(
            #[trigger] a.drop_last()[i],
            #[trigger] a.drop_last()[j],
        ) by {
            assert(text_before(a[i], a[j]));
        }
        assert forall|i: int, j: int| 0 <= i < j < b.drop_last().len() implies text_before(
            #[trigger] b.drop_last()[i],
            #[trigger] b.drop_last()[j],
        ) by {
            assert(text_before(b[i], b[j]));
        }
        lemma_listing_unique(a.drop_last(), b.drop_last(), rest);
        assert(a =~= a.drop_last().push(x));
        assert(b =~= b.drop_last().push(y));
    }
}

/// Quantities by identifier. The identifiers are also kept in ascending
/// order, for going through the entries.
pub struct Ledger {
    amounts: StringHashMap<u64>,
    order: Vec<String>,
}

impl View for Ledger {
    type V = Map<Seq<char>, nat>;

    closed spec fn view(&self) -> Map<Seq<char>, nat> {
        Map::new(
            |id: Seq<char>| self.amounts@.contains_key(id),
            |id: Seq<char>| self.amounts@[id] as nat,
        )
    }
}

impl Ledger {
    /// The identifiers in the order in which they are kept.
    pub closed spec fn keys(&self) -> Seq<Seq<char>> {
        Seq::new(self.order@.len(), |i: int| self.order@[i]@)
    }

    /// The identifiers kept are those of the entries, in ascending order.
    pub closed spec fn wf(&self) -> bool {
        lists(self.keys(), self@)
    }

    /// In a well-formed ledger the identifiers kept are those of the
    /// entries in ascending order, and every quantity fits in 64 bits.
    pub proof fn lemma_keys(&self)
        requires
            self.wf(),
        ensures
            self.keys() == sorted_ids(self@),
            lists(self.keys(), self@),
            forall|id: Seq<char>| self@.contains_key(id) ==> #[trigger] self@[id] <= u64::MAX,
    {
        lemma_listing_unique(self.keys(), sorted_ids(self@), self@);
    }

    /// An empty ledger.
    pub fn new() -> (ledger: Ledger)
        ensures
            ledger.wf(),
            ledger@ == Map::<Seq<char>, nat>::empty(),
    {
        let ledger = Ledger { amounts: StringHashMap::new(), order: Vec::new() };
        assert(ledger@ =~= Map::<Seq<char>, nat>::empty());
        assert(ledger.keys() =~= Seq::<Seq<char>>::empty());
        ledger
    }

    /// Whether the ledger has an entry for `id`.
    pub fn contains(&self, id: &str) -> (found: bool)
        ensures
            found == self@.contains_key(id@),
    {
        self.amounts.contains_key(id)
    }

    /// The quantity held for `id`, 0 where there is no entry.
    pub fn get(&self, id: &str) -> (n: u64)
        ensures
            n == amount(self@, id@),
    {
        match self.amounts.get(id) {
            Some(n) => *n,
            None => 0,
        }
    }

    /// Sets the quantity held for `id`, entering `id` where it is new.
    pub fn set(&mut self, id: &str, value: u64)
        requires
            old(self).wf(),
        ensures
            final(self).wf(),
            final(self)@ == old(self)@.insert(id@, value as nat),
    {
        let known = self.amounts.contains_key(id);
        self.amounts.insert(id.to_owned(), value);
        assert(self@ =~= old(self)@.insert(id@, value as nat));
        let ghost ids = old(self).keys();
        if known {
            assert(self.keys() =~= ids);
            assert forall|key: Seq<char>|
                #![trigger self@.contains_key(key)]
                #![trigger self.keys().contains(key)]
                self@.contains_key(key) <==> self.keys().contains(key) by {
                assert(old(self)@.contains_key(key) <==> ids.contains(key));
            }
        } else {
            let mut at: usize = 0;
            while at < self.order.len() && comes_before(self.order[at].as_str(), id)
                invariant
                    at <= self.order@.len(),
                    self.keys() == ids,
                    forall|h: int| 0 <= h < at ==> text_before(#[trigger] ids[h], id@),
                decreases self.order@.len() - at,
            {
                at += 1;
            }
            self.order.insert(at, id.to_owned());
            proof {
                let next = self.keys();
                assert(next =~= ids.insert(at as int, id@));
                assert forall|i: int, j: int| 0 <= i < j < next.len() implies text_before(
                    #[trigger] next[i],
                    #[trigger] next[j],
                ) by {
                    if j == at {
                        assert(text_before(ids[i], id@));
                    } else if i == at {
                        assert(ids.contains(ids[at as int]));
                        lemma_text_order_total(ids[at as int], id@);
                        if j > at + 1 {
                            assert(text_before(ids[at as int], ids[j - 1]));
                            lemma_text_order_transitive(id@, ids[at as int], ids[j - 1]);
                        }
                    } else if i < at && at < j {
                        assert(text_before(ids[i], ids[j - 1]));
                    } else if j < at {
                        assert(text_before(ids[i], ids[j]));
                    } else {
                        assert(text_before(ids[i - 1], ids[j - 1]));
                    }
                }
                assert forall|key: Seq<char>|
                    #![trigger self@.contains_key(key)]
                    #![trigger next.contains(key)]
                    self@.contains_key(key) <==> next.contains(key) by {
                    assert(old(self)@.contains_key(key) <==> ids.contains(key));
                    if ids.contains(key) {
                        let h = choose|h: int| 0 <= h < ids.len() && ids[h] == key;
                        if h < at {
                            assert(next[h] == key);
                        } else {
                            assert(next[h + 1] == key);
                        }
                    }
                    if key == id@ {
                        assert(next[at as int] == key);
                    }
                    if next.contains(key) {
                        let h = choose|h: int| 0 <= h < next.len() && next[h] == key;
                        if h < at {
                            assert(ids[h] == key);
                        } else if h > at {
                            assert(ids[h - 1] == key);
                        }
                    }
                }
            }
        }
    }

    /// Adds `n` to the quantity held for `id`, unless the sum leaves 64
    /// bits: then the ledger stays as it is.
    pub fn add(&mut self, id: &str, n: u64) -> (done: bool)
        requires
            old(self).wf(),
        ensures
            final(self).wf(),
            done == (amount(old(self)@, id@) + n <= u64::MAX),
            done ==> final(self)@ == old(self)@.insert(
                id@,
                (amount(old(self)@, id@) + n) as nat,
            ),
            !done ==> final(self)@ == old(self)@,
    {
        let held = self.get(id);
        match held.checked_add(n) {
            Some(sum) => {
                self.set(id, sum);
                true
            },
            None => false,
        }
    }

    /// The number of entries.
    pub fn len(&self) -> (n: usize)
        ensures
            n == self.keys().len(),
    {
        self.order.len()
    }

    /// The identifier of the `i`-th entry in ascending order.
    pub fn key(&self, i: usize) -> (id: &str)
        requires
            i < self.keys().len(),
        ensures
            id@ == self.keys()[i as int],
    {
        self.order[i].as_str()
    }

    /// A ledger with the same entries.
    pub fn duplicate(&self) -> (copy: Ledger)
        requires
            self.wf(),
        ensures
            copy.wf(),
            copy@ == self@,
    {
        let mut amounts: StringHashMap<u64> = StringHashMap::new();
        let mut order: Vec<String> = Vec::new();
        let mut i: usize = 0;
        while i < self.order.len()
            invariant
                self.wf(),
                i <= self.order@.len(),
                order@.len() == i,
                forall|h: int| 0 <= h < i ==> (#[trigger] order@[h])@ == self.keys()[h],
                forall|id: Seq<char>|
                    #![trigger amounts@.contains_key(id)]
                    amounts@.contains_key(id) <==> self.keys().take(i as int).contains(id),
                forall|id: Seq<char>|
                    amounts@.contains_key(id) ==> #[trigger] amounts@[id] == self.amounts@[id],
            decreases self.order@.len() - i,
        {
            let id = self.order[i].as_str();
            let ghost early = self.keys().take(i as int);
            let ghost next = self.keys().take(i + 1);
            assert(self.keys()[i as int] == id@);
            assert(self.keys().contains(id@));
            let held = self.get(id);
            amounts.insert(id.to_owned(), held);
            order.push(id.to_owned());
            proof {
                assert forall|key: Seq<char>|
                    #![trigger amounts@.contains_key(key)]
                    amounts@.contains_key(key) <==> next.contains(key) by {
                    if early.contains(key) {
                        let h = choose|h: int| 0 <= h < early.len() && early[h] == key;
                        assert(next[h] == key);
                    }
                    if key == id@ {
                        assert(next[i as int] == key);
                    }
                    if next.contains(key) {
                        let h = choose|h: int| 0 <= h < next.len() && next[h] == key;
                        if h < i {
                            assert(early[h] == key);
                        }
                    }
                }
            }
            i += 1;
        }
        let copy = Ledger { amounts, order };
        proof {
            assert(self.keys().take(i as int) =~= self.keys());
            assert(copy.keys() =~= self.keys());
            assert forall|id: Seq<char>| self@.contains_key(id) <==> copy@.contains_key(id) by {
                assert(self@.contains_key(id) <==> self.keys().contains(id));
            }
            assert(copy@ =~= self@);
        }
        copy
    }
}

} // verus!
