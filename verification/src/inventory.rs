//! The player's inventory: how many copies of each fruit it holds, kept in
//! the order of the fruits' names.
use vstd::prelude::*;

use crate::gacha::{AddFruitResult, DlcState, FruitDef};
use crate::text::{
    chars_of, compare_chars, lemma_text_before_total, lemma_text_before_transitive,
    string_from_chars, text_before, Precedence,
};

verus! {

/// The number of copies of `name` that `m` records; none when absent.
pub open spec fn quantity(m: Map<Seq<char>, u32>, name: Seq<char>) -> u32 {
    if m.contains_key(name) {
        m[name]
    } else {
        0
    }
}

/// Storing one more `name` under a limit of `limit` copies: the result, and
/// the counts afterwards.
pub open spec fn add_outcome(m: Map<Seq<char>, u32>, name: Seq<char>, limit: u32) -> (
    AddFruitResult,
    Map<Seq<char>, u32>,
) {
    let current = quantity(m, name);
    if current >= limit {
        (AddFruitResult::DuplicateLimitReached { current, limit }, m)
    } else {
        (AddFruitResult::Stored { new_total: (current + 1) as u32 }, m.insert(name, (current + 1) as u32))
    }
}

/// Name and count pairs, the names taken as characters.
pub open spec fn pairs_view(s: Seq<(String, u32)>) -> Seq<(Seq<char>, u32)> {
    s.map_values(|e: (String, u32)| (e.0@, e.1))
}

/// The names of `s` stand in strictly ascending order.
pub open spec fn names_ascending(s: Seq<(Seq<char>, u32)>) -> bool {
    forall|i: int, j: int| 0 <= i < j < s.len() ==> text_before(#[trigger] s[i].0, #[trigger] s[j].0)
}

/// The counts that a listing of distinct names records.
pub open spec fn listing_map(s: Seq<(Seq<char>, u32)>) -> Map<Seq<char>, u32> {
    Map::new(
        |k: Seq<char>| exists|i: int| 0 <= i < s.len() && #[trigger] s[i].0 == k,
        |k: Seq<char>| s[choose|i: int| 0 <= i < s.len() && #[trigger] s[i].0 == k].1,
    )
}

/// Applying the pairs of `s` in order, a later count of a name replacing an
/// earlier one.
pub open spec fn map_from_pairs(s: Seq<(Seq<char>, u32)>) -> Map<Seq<char>, u32>
    decreases s.len(),
{
    if s.len() == 0 {
        Map::empty()
    } else {
        map_from_pairs(s.drop_last()).insert(s.last().0, s.last().1)
    }
}

/// In a listing of distinct names, each entry is the count of its name.
pub proof fn lemma_listing_entry(s: Seq<(Seq<char>, u32)>, i: int)
    requires
        names_ascending(s),
        0 <= i < s.len(),
    ensures
        listing_map(s).contains_key(s[i].0),
        listing_map(s)[s[i].0] == s[i].1,
{
    assert(listing_map(s).dom().contains(s[i].0));
    let j = choose|j: int| 0 <= j < s.len() && #[trigger] s[j].0 == s[i].0;
    if j != i {
        lemma_text_before_total(s[i].0, s[i].0);
        if j < i {
            assert(text_before(s[j].0, s[i].0));
        } else {
            assert(text_before(s[i].0, s[j].0));
        }
    }
}

/// The counts of the listing `s` after `key` is put in at `pos`, where the
/// names before `pos` come before `key` and those from `pos` on after it.
proof fn lemma_listing_insert(s: Seq<(Seq<char>, u32)>, pos: int, key: Seq<char>, v: u32)
    requires
        names_ascending(s),
        0 <= pos <= s.len(),
        forall|k: int| 0 <= k < pos ==> text_before(#[trigger] s[k].0, key),
        forall|k: int| pos <= k < s.len() ==> text_before(key, #[trigger] s[k].0),
    ensures
        names_ascending(s.insert(pos, (key, v))),
        listing_map(s.insert(pos, (key, v))) == listing_map(s).insert(key, v),
{
    let t = s.insert(pos, (key, v));
    assert(names_ascending(t)) by {
        assert forall|i: int, j: int| 0 <= i < j < t.len() implies text_before(
            #[trigger] t[i].0,
            #[trigger] t[j].0,
        ) by {
            if i < pos && j < pos {
                assert(t[i] == s[i] && t[j] == s[j]);
            } else if i < pos && j == pos {
                assert(t[i] == s[i]);
            } else if i < pos {
                assert(t[i] == s[i] && t[j] == s[j - 1]);
            } else if i == pos {
                assert(t[j] == s[j - 1]);
            } else {
                assert(t[i] == s[i - 1] && t[j] == s[j - 1]);
            }
        }
    }
    let m = listing_map(s).insert(key, v);
    assert forall|k: Seq<char>| #[trigger] listing_map(t).contains_key(k) <==> m.contains_key(k) by {
        if listing_map(t).contains_key(k) {
            let i = choose|i: int| 0 <= i < t.len() && #[trigger] t[i].0 == k;
            if i < pos {
                assert(s[i].0 == k);
            } else if i > pos {
                assert(s[i - 1].0 == k);
            }
        }
        if m.contains_key(k) && k != key {
            let i = choose|i: int| 0 <= i < s.len() && #[trigger] s[i].0 == k;
            if i < pos {
                assert(t[i].0 == k);
            } else {
                assert(t[i + 1].0 == k);
            }
        }
        if k == key {
            assert(t[pos].0 == k);
        }
    }
    assert forall|k: Seq<char>| #[trigger] listing_map(t).contains_key(k) implies listing_map(t)[k]
        == m[k] by {
        let i = choose|i: int| 0 <= i < t.len() && #[trigger] t[i].0 == k;
        lemma_listing_entry(t, i);
        if i < pos {
            assert(t[i] == s[i]);
            lemma_listing_entry(s, i);
            lemma_text_before_total(k, key);
        } else if i > pos {
            assert(t[i] == s[i - 1]);
            lemma_listing_entry(s, i - 1);
            lemma_text_before_total(k, key);
        }
    }
    assert(listing_map(t) =~= m);
}

/// The counts of the listing `s` after the count of `s[pos]` becomes `v`.
proof fn lemma_listing_update(s: Seq<(Seq<char>, u32)>, pos: int, v: u32)
    requires
        names_ascending(s),
        0 <= pos < s.len(),
    ensures
        names_ascending(s.update(pos, (s[pos].0, v))),
        listing_map(s.update(pos, (s[pos].0, v))) == listing_map(s).insert(s[pos].0, v),
{
    let key = s[pos].0;
    let t = s.update(pos, (key, v));
    assert(names_ascending(t)) by {
        assert forall|i: int, j: int| 0 <= i < j < t.len() implies text_before(
            #[trigger] t[i].0,
            #[trigger] t[j].0,
        ) by {
            assert(t[i].0 == s[i].0 && t[j].0 == s[j].0);
        }
    }
    let m = listing_map(s).insert(key, v);
    assert forall|k: Seq<char>| #[trigger] listing_map(t).contains_key(k) <==> m.contains_key(k) by {
        if listing_map(t).contains_key(k) {
            let i = choose|i: int| 0 <= i < t.len() && #[trigger] t[i].0 == k;
            assert(s[i].0 == k);
        }
        if m.contains_key(k) && k != key {
            let i = choose|i: int| 0 <= i < s.len() && #[trigger] s[i].0 == k;
            assert(t[i].0 == k);
        }
        if k == key {
            assert(t[pos].0 == k);
        }
    }
    assert forall|k: Seq<char>| #[trigger] listing_map(t).contains_key(k) implies listing_map(t)[k]
        == m[k] by {
        let i = choose|i: int| 0 <= i < t.len() && #[trigger] t[i].0 == k;
        lemma_listing_entry(t, i);
        if i != pos {
            lemma_listing_entry(s, i);
            assert(t[i] == s[i]);
            assert(k != key) by {
                if i < pos {
                    assert(text_before(s[i].0, s[pos].0));
                } else {
                    assert(text_before(s[pos].0, s[i].0));
                }
                lemma_text_before_total(k, k);
            }
        }
    }
    assert(listing_map(t) =~= m);
}

/// Rebuilding an inventory from its own listing gives it back: applying
/// the pairs of a listing of distinct names records exactly their counts.
pub proof fn lemma_rebuild_from_listing(s: Seq<(Seq<char>, u32)>)
    requires
        names_ascending(s),
    ensures
        map_from_pairs(s) == listing_map(s),
    decreases s.len(),
{
    if s.len() == 0 {
        assert(listing_map(s) =~= Map::<Seq<char>, u32>::empty());
    } else {
        let init = s.drop_last();
        assert(names_ascending(init)) by {
            assert forall|i: int, j: int| 0 <= i < j < init.len() implies text_before(
                #[trigger] init[i].0,
                #[trigger] init[j].0,
            ) by {
                assert(init[i] == s[i] && init[j] == s[j]);
            }
        }
        lemma_rebuild_from_listing(init);
        let last = s.last();
        assert(last == s[s.len() - 1]);
        assert forall|k: int| 0 <= k < init.len() implies text_before(#[trigger] init[k].0, last.0) by {
            assert(init[k] == s[k]);
        }
        lemma_listing_insert(init, init.len() as int, last.0, last.1);
        assert(init.insert(init.len() as int, (last.0, last.1)) =~= s);
    }
}

/// Storing a fruit never takes a count beyond the limit: if every count is
/// within `limit` before, every count is within it after.
pub proof fn lemma_add_within_limit(m: Map<Seq<char>, u32>, name: Seq<char>, limit: u32)
    requires
        forall|k: Seq<char>| #[trigger] m.contains_key(k) ==> m[k] <= limit,
    ensures
        forall|k: Seq<char>| #[trigger] add_outcome(m, name, limit).1.contains_key(k)
            ==> add_outcome(m, name, limit).1[k] <= limit,
{
}

/// Fruits are stored independently: storing one fruit leaves the count of
/// every other fruit as it was.
pub proof fn lemma_add_other_fruits(m: Map<Seq<char>, u32>, name: Seq<char>, limit: u32, other: Seq<char>)
    requires
        other != name,
    ensures
        quantity(add_outcome(m, name, limit).1, other) == quantity(m, other),
{
}

/// A fruit is stored exactly when fewer copies than the limit are held, and
/// then its count grows by one; otherwise nothing changes.
pub proof fn lemma_add_stores_below_limit(m: Map<Seq<char>, u32>, name: Seq<char>, limit: u32)
    ensures
        add_outcome(m, name, limit).0 is Stored <==> quantity(m, name) < limit,
        quantity(m, name) < limit ==> quantity(add_outcome(m, name, limit).1, name) == quantity(
            m,
            name,
        ) + 1,
        quantity(m, name) >= limit ==> add_outcome(m, name, limit).1 == m,
{
}

/// Storing, one after another from an empty inventory, each fruit name of
/// `stores` under its limit: the result of each store, and the counts at
/// the end.
pub open spec fn store_all(stores: Seq<(Seq<char>, u32)>) -> (Seq<AddFruitResult>, Map<Seq<char>, u32>)
    decreases stores.len(),
{
    if stores.len() == 0 {
        (Seq::empty(), Map::empty())
    } else {
        let before = store_all(stores.drop_last());
        let step = add_outcome(before.1, stores.last().0, stores.last().1);
        (before.0.push(step.0), step.1)
    }
}

/// How many of the stores of `stores` named `name` succeeded.
pub open spec fn successful_stores(stores: Seq<(Seq<char>, u32)>, name: Seq<char>) -> nat
    decreases stores.len(),
{
    if stores.len() == 0 {
        0
    } else {
        successful_stores(stores.drop_last(), name) + if stores.last().0 == name
            && store_all(stores).0.last() is Stored {
            1nat
        } else {
            0nat
        }
    }
}

/// What a store reports is the inventory's count: a stored fruit's new
/// total is its count afterwards, one more than before; a refused store
/// reports the count held, which has reached the limit it reports.
pub proof fn lemma_add_result_reports_count(m: Map<Seq<char>, u32>, name: Seq<char>, limit: u32)
    ensures
        add_outcome(m, name, limit).0 matches AddFruitResult::Stored { new_total } ==> new_total
            == quantity(add_outcome(m, name, limit).1, name) && new_total == quantity(m, name) + 1,
        add_outcome(m, name, limit).0 matches AddFruitResult::DuplicateLimitReached {
            current,
            limit: reported,
        } ==> current == quantity(m, name) && reported == limit && current >= limit,
{
}

/// Storing keeps every count at least one: if every recorded count is at
/// least one before, it is after.
pub proof fn lemma_add_keeps_counts_positive(m: Map<Seq<char>, u32>, name: Seq<char>, limit: u32)
    requires
        forall|k: Seq<char>| #[trigger] m.contains_key(k) ==> m[k] >= 1,
    ensures
        forall|k: Seq<char>| #[trigger] add_outcome(m, name, limit).1.contains_key(k)
            ==> add_outcome(m, name, limit).1[k] >= 1,
{
}

/// After any stores from an empty inventory, each store has a result, every
/// recorded count is at least one, and the count of each name is the number
/// of its stores that succeeded.
pub proof fn lemma_store_all_counts(stores: Seq<(Seq<char>, u32)>)
    ensures
        store_all(stores).0.len() == stores.len(),
        forall|k: Seq<char>| #[trigger] store_all(stores).1.contains_key(k) ==> store_all(
            stores,
        ).1[k] >= 1,
        forall|name: Seq<char>| #[trigger] quantity(store_all(stores).1, name) == successful_stores(
            stores,
            name,
        ),
    decreases stores.len(),
{
    if stores.len() > 0 {
        let init = stores.drop_last();
        lemma_store_all_counts(init);
        let m = store_all(init).1;
        lemma_add_keeps_counts_positive(m, stores.last().0, stores.last().1);
        assert forall|name: Seq<char>| #[trigger] quantity(store_all(stores).1, name)
            == successful_stores(stores, name) by {
            assert(quantity(m, name) == successful_stores(init, name));
            if name != stores.last().0 {
                lemma_add_other_fruits(m, stores.last().0, stores.last().1, name);
            } else {
                lemma_add_stores_below_limit(m, stores.last().0, stores.last().1);
            }
        }
    }
}

/// The player's fruits and how many copies of each are held.
#[derive(Debug)]
pub struct PlayerInventory {
    items: Vec<(String, u32)>,
}

impl View for PlayerInventory {
    type V = Map<Seq<char>, u32>;

    closed spec fn view(&self) -> Map<Seq<char>, u32> {
        listing_map(pairs_view(self.items@))
    }
}

impl PlayerInventory {
    /// The inventory is kept with its names in ascending order, each once.
    pub closed spec fn wf(&self) -> bool {
        names_ascending(pairs_view(self.items@))
    }

    /// An empty inventory.
    pub fn new() -> (r: Self)
        ensures
            r.wf(),
            r@ == Map::<Seq<char>, u32>::empty(),
    {
        let r = PlayerInventory { items: Vec::new() };
        assert(r@ =~= Map::<Seq<char>, u32>::empty());
        r
    }

    /// Where `key` stands: the index of the first name that does not come
    /// before it, and whether that name is `key`.
    fn locate(&self, key: &[char]) -> (r: (usize, bool))
        requires
            self.wf(),
        ensures
            r.0 <= self.items@.len(),
            forall|k: int| 0 <= k < r.0 ==> text_before(#[trigger] self.items@[k].0@, key@),
            r.1 ==> r.0 < self.items@.len() && self.items@[r.0 as int].0@ == key@,
            !r.1 ==> forall|k: int|
                r.0 <= k < self.items@.len() ==> text_before(key@, #[trigger] self.items@[k].0@),
    {
        let ghost pv = pairs_view(self.items@);
        let mut i: usize = 0;
        while i < self.items.len()
            invariant
                i <= self.items@.len(),
                pv == pairs_view(self.items@),
                names_ascending(pv),
                forall|k: int| 0 <= k < i ==> text_before(#[trigger] self.items@[k].0@, key@),
            decreases self.items@.len() - i,
        {
            let name = chars_of(self.items[i].0.as_str());
            match compare_chars(&name, key) {
                Precedence::Before => {},
                Precedence::Same => {
                    return (i, true);
                },
                Precedence::After => {
                    assert forall|k: int| i <= k < self.items@.len() implies text_before(
                        key@,
                        #[trigger] self.items@[k].0@,
                    ) by {
                        if k > i {
                            assert(pv[i as int].0 == self.items@[i as int].0@);
                            assert(pv[k].0 == self.items@[k].0@);
                            assert(text_before(pv[i as int].0, pv[k].0));
                            lemma_text_before_transitive(
                                key@,
                                self.items@[i as int].0@,
                                self.items@[k].0@,
                            );
                        }
                    }
                    return (i, false);
                },
            }
            i = i + 1;
        }
        (i, false)
    }

    /// Records `value` copies of the fruit named `key`.
    fn set_quantity(&mut self, key: &[char], value: u32)
        requires
            old(self).wf(),
        ensures
            final(self).wf(),
            final(self)@ == old(self)@.insert(key@, value),
    {
        let (pos, found) = self.locate(key);
        let ghost s = pairs_view(self.items@);
        if found {
            let name = string_from_chars(key);
            self.items.set(pos, (name, value));
            proof {
                lemma_listing_update(s, pos as int, value);
                assert(pairs_view(self.items@) =~= s.update(pos as int, (s[pos as int].0, value)));
            }
        } else {
            let name = string_from_chars(key);
            self.items.insert(pos, (name, value));
            proof {
                assert forall|k: int| 0 <= k < pos implies text_before(#[trigger] s[k].0, key@) by {
                    assert(s[k].0 == old(self).items@[k].0@);
                }
                assert forall|k: int| pos <= k < s.len() implies text_before(key@, #[trigger] s[k].0) by {
                    assert(s[k].0 == old(self).items@[k].0@);
                }
                lemma_listing_insert(s, pos as int, key@, value);
                assert(pairs_view(self.items@) =~= s.insert(pos as int, (key@, value)));
            }
        }
    }

    /// How many copies of the fruit named `fruit_name` are held.
    pub fn quantity_of(&self, fruit_name: &str) -> (r: u32)
        requires
            self.wf(),
        ensures
            r == quantity(self@, fruit_name@),
    {
        let key = chars_of(fruit_name);
        let (pos, found) = self.locate(&key);
        let ghost s = pairs_view(self.items@);
        if found {
            proof {
                lemma_listing_entry(s, pos as int);
            }
            self.items[pos].1
        } else {
            proof {
                if self@.contains_key(key@) {
                    let k = choose|k: int| 0 <= k < s.len() && #[trigger] s[k].0 == key@;
                    assert(s[k].0 == self.items@[k].0@);
                    lemma_text_before_total(key@, key@);
                }
            }
            0
        }
    }

    /// How many copies of `_fruit` may be held under `dlc_state`.
    pub fn limit_for(&self, _fruit: &FruitDef, dlc_state: DlcState) -> (r: u32)
        ensures
            r == dlc_state.duplicate_limit,
    {
        dlc_state.duplicate_limit
    }

    /// Stores one more copy of `fruit`, unless the inventory already holds
    /// as many as `dlc_state` allows; then nothing changes.
    pub fn add_fruit(&mut self, fruit: &FruitDef, dlc_state: DlcState) -> (r: AddFruitResult)
        requires
            old(self).wf(),
        ensures
            final(self).wf(),
            (r, final(self)@) == add_outcome(old(self)@, fruit.name@, dlc_state.duplicate_limit),
            r is Stored <==> quantity(old(self)@, fruit.name@) < dlc_state.duplicate_limit,
            r matches AddFruitResult::Stored { new_total } ==> new_total == quantity(
                final(self)@,
                fruit.name@,
            ) && new_total == quantity(old(self)@, fruit.name@) + 1,
            r matches AddFruitResult::DuplicateLimitReached { current, limit } ==> current
                == quantity(old(self)@, fruit.name@) && limit == dlc_state.duplicate_limit
                && final(self)@ == old(self)@,
            forall|n: Seq<char>| n != fruit.name@ ==> #[trigger] quantity(final(self)@, n)
                == quantity(old(self)@, n),
    {
        let current = self.quantity_of(fruit.name);
        let limit = self.limit_for(fruit, dlc_state);
        if current >= limit {
            return AddFruitResult::DuplicateLimitReached { current, limit };
        }
        let key = chars_of(fruit.name);
        self.set_quantity(&key, current + 1);
        AddFruitResult::Stored { new_total: current + 1 }
    }

    /// The fruits held and their counts, in ascending order of name.
    pub fn entries(&self) -> (r: Vec<(String, u32)>)
        requires
            self.wf(),
        ensures
            names_ascending(pairs_view(r@)),
            listing_map(pairs_view(r@)) == self@,
    {
        let mut r: Vec<(String, u32)> = Vec::new();
        let mut i: usize = 0;
        while i < self.items.len()
            invariant
                i <= self.items@.len(),
                pairs_view(r@) == pairs_view(self.items@).take(i as int),
            decreases self.items@.len() - i,
        {
            let ghost before = r@;
            let entry = &self.items[i];
            let name = entry.0.clone();
            assert(name@ == self.items@[i as int].0@);
            r.push((name, entry.1));
            assert(r@ == before.push((name, self.items@[i as int].1)));
            assert(pairs_view(r@) =~= pairs_view(before).push((name@, self.items@[i as int].1)));
            assert(pairs_view(r@) =~= pairs_view(self.items@).take(i + 1));
            i = i + 1;
        }
        assert(pairs_view(self.items@).take(i as int) =~= pairs_view(self.items@));
        r
    }

    /// An inventory holding the given counts, a later count of a name
    /// replacing an earlier one.
    pub fn from_entries(entries: Vec<(String, u32)>) -> (r: Self)
        ensures
            r.wf(),
            r@ == map_from_pairs(pairs_view(entries@)),
    {
        let mut r = PlayerInventory::new();
        let mut i: usize = 0;
        while i < entries.len()
            invariant
                i <= entries@.len(),
                r.wf(),
                r@ == map_from_pairs(pairs_view(entries@).take(i as int)),
            decreases entries@.len() - i,
        {
            let key = chars_of(entries[i].0.as_str());
            r.set_quantity(&key, entries[i].1);
            assert(pairs_view(entries@).take(i + 1).drop_last() =~= pairs_view(entries@).take(
                i as int,
            ));
            i = i + 1;
        }
        assert(pairs_view(entries@).take(i as int) =~= pairs_view(entries@));
        r
    }
}

} // verus!
