//! An id-recycling store.
//!
//! Each occupied id maps to a value. `insert` hands out the lowest id that is
//! not currently occupied (ids start at 1), and `remove` frees an id for
//! reuse. The internal upper bound always equals the highest occupied id, so
//! repeated insert/remove cycles at the tail do not leak ever-growing ids.

use vstd::prelude::*;

verus! {

/// True when the ids of the entry sequence are strictly increasing.
spec fn strictly_sorted_ids<T>(s: Seq<(usize, T)>) -> bool {
    forall|i: int, j: int| 0 <= i < j < s.len() ==> #[trigger] s[i].0 < #[trigger] s[j].0
}

/// True when the id sequence is strictly increasing.
pub open spec fn strictly_sorted(s: Seq<usize>) -> bool {
    forall|i: int, j: int| 0 <= i < j < s.len() ==> #[trigger] s[i] < #[trigger] s[j]
}

/// True when some entry of the sequence carries the id `k`.
spec fn occupies<T>(s: Seq<(usize, T)>, k: nat) -> bool {
    exists|i: int| 0 <= i < s.len() && (#[trigger] s[i]).0 as nat == k
}

/// True when the id sequence holds `k`.
pub open spec fn id_listed(s: Seq<usize>, k: nat) -> bool {
    exists|i: int| 0 <= i < s.len() && #[trigger] s[i] as nat == k
}

/// The mapping described by a sequence of (id, value) entries; a later
/// entry with the same id would win, though well-formed stores have no
/// duplicate ids.
spec fn pairs_map<T>(s: Seq<(usize, T)>) -> Map<nat, T>
    decreases s.len(),
{
    if s.len() == 0 {
        Map::empty()
    } else {
        pairs_map(s.drop_last()).insert(s.last().0 as nat, s.last().1)
    }
}

/// True when no two entries share an id.
spec fn unique_ids<T>(s: Seq<(usize, T)>) -> bool {
    forall|i: int, j: int| 0 <= i < j < s.len() ==> (#[trigger] s[i]).0 != (#[trigger] s[j]).0
}

proof fn lemma_pm_contains<T>(s: Seq<(usize, T)>)
    ensures
        forall|k: nat| #[trigger] pairs_map(s).dom().contains(k) <==> occupies(s, k),
    decreases s.len(),
{
    if s.len() > 0 {
        lemma_pm_contains(s.drop_last());
        assert forall|k: nat| #[trigger] pairs_map(s).dom().contains(k) <==> occupies(s, k) by {
            if pairs_map(s).dom().contains(k) {
                if k == s.last().0 as nat {
                    let w: int = s.len() as int - 1;
                    assert(0 <= w < s.len() && s[w].0 as nat == k);
                    assert(occupies(s, k));
                } else {
                    assert(pairs_map(s.drop_last()).dom().contains(k));
                    assert(occupies(s.drop_last(), k));
                    let i = choose|i: int| 0 <= i < s.drop_last().len()
                        && (#[trigger] s.drop_last()[i]).0 as nat == k;
                    assert(s.drop_last()[i] == s[i]);
                    assert(0 <= i < s.len() && s[i].0 as nat == k);
                    assert(occupies(s, k));
                }
            }
            if occupies(s, k) {
                let i = choose|i: int| 0 <= i < s.len() && (#[trigger] s[i]).0 as nat == k;
                if i < s.len() - 1 {
                    assert(s.drop_last()[i] == s[i]);
                    assert(0 <= i < s.drop_last().len() && s.drop_last()[i].0 as nat == k);
                    assert(occupies(s.drop_last(), k));
                    assert(pairs_map(s.drop_last()).dom().contains(k));
                }
                assert(pairs_map(s).dom().contains(k));
            }
        }
    }
}

proof fn lemma_pm_value<T>(s: Seq<(usize, T)>, i: int)
    requires
        unique_ids(s),
        0 <= i < s.len(),
    ensures
        pairs_map(s).dom().contains(s[i].0 as nat),
        pairs_map(s)[s[i].0 as nat] == s[i].1,
    decreases s.len(),
{
    if i == s.len() - 1 {
    } else {
        assert forall|a: int, b: int| 0 <= a < b < s.drop_last().len() implies (
        #[trigger] s.drop_last()[a]).0 != (#[trigger] s.drop_last()[b]).0 by {
            assert(s.drop_last()[a] == s[a] && s.drop_last()[b] == s[b]);
        }
        lemma_pm_value(s.drop_last(), i);
        assert(s.drop_last()[i] == s[i]);
        assert(s[i].0 != s.last().0);
    }
}

/// The store's invariant over its raw parts: both lists sorted, ids in
/// range, freed and occupied ids disjoint, and every id up to the bound
/// accounted for.
spec fn wf_parts<T>(entries: Seq<(usize, T)>, available: Seq<usize>, max_entry: usize) -> bool {
    &&& strictly_sorted_ids(entries)
    &&& (forall|i: int| 0 <= i < entries.len() ==> 1 <= (#[trigger] entries[i]).0 <= max_entry)
    &&& strictly_sorted(available)
    &&& (forall|i: int| 0 <= i < available.len() ==> 1 <= #[trigger] available[i] < max_entry)
    &&& (forall|i: int, j: int|
        0 <= i < entries.len() && 0 <= j < available.len()
            ==> (#[trigger] entries[i]).0 != #[trigger] available[j])
    &&& (forall|k: nat| 1 <= k <= max_entry ==> occupies(entries, k) || id_listed(available, k))
}

/// For every replacement value, updating the value half of entry `i` in
/// place preserves the invariant, since the ids do not change.
proof fn lemma_wf_update_all<T>(
    entries: Seq<(usize, T)>,
    available: Seq<usize>,
    max_entry: usize,
    i: int,
)
    requires
        wf_parts(entries, available, max_entry),
        0 <= i < entries.len(),
    ensures
        forall|v: T|
            #[trigger] wf_parts(entries.update(i, (entries[i].0, v)), available, max_entry),
{
    assert forall|v: T|
        #[trigger] wf_parts(entries.update(i, (entries[i].0, v)), available, max_entry) by {
        let s2 = entries.update(i, (entries[i].0, v));
        assert forall|a: int, b: int| 0 <= a < b < s2.len() implies (#[trigger] s2[a]).0 < (
        #[trigger] s2[b]).0 by {
            assert(s2[a].0 == entries[a].0 && s2[b].0 == entries[b].0);
        }
        assert forall|a: int| 0 <= a < s2.len() implies 1 <= (#[trigger] s2[a]).0 <= max_entry by {
            assert(s2[a].0 == entries[a].0);
        }
        assert forall|a: int, b: int|
            0 <= a < s2.len() && 0 <= b < available.len() implies (#[trigger] s2[a]).0
            != #[trigger] available[b] by {
            assert(s2[a].0 == entries[a].0);
        }
        assert forall|k: nat| 1 <= k <= max_entry implies occupies(s2, k) || id_listed(
            available,
            k,
        ) by {
            if occupies(entries, k) {
                let j = choose|j: int|
                    0 <= j < entries.len() && (#[trigger] entries[j]).0 as nat == k;
                assert(s2[j].0 as nat == k);
            }
        }
    }
}

/// An id-recycling store: ids handed out lowest-first, freed ids reused,
/// and the internal bound tracking the highest occupied id exactly.
pub struct UniqueIdList<T> {
    /// Occupied (id, value) entries, sorted by strictly increasing id.
    entries: Vec<(usize, T)>,
    /// Freed ids below `max_entry`, sorted strictly increasing.
    available: Vec<usize>,
    /// The highest occupied id, or 0 when the store is empty.
    max_entry: usize,
}

impl<T> View for UniqueIdList<T> {
    type V = Map<nat, T>;

    closed spec fn view(&self) -> Map<nat, T> {
        pairs_map(self.entries@)
    }
}

impl<T> UniqueIdList<T> {
    /// The highest occupied id, or 0 when the store is empty.
    pub closed spec fn bound(&self) -> nat {
        self.max_entry as nat
    }

    /// Internal invariant: both lists sorted, ids in range, freed and
    /// occupied ids disjoint, and every id up to the bound accounted for.
    pub closed spec fn wf(&self) -> bool {
        wf_parts(self.entries@, self.available@, self.max_entry)
    }

    /// Every occupied id lies in [1, bound], the bound itself is occupied
    /// whenever the store is non-empty, and a zero bound means emptiness:
    /// the bound tracks the true highest occupied id.
    pub proof fn lemma_bound_tight(&self)
        requires
            self.wf(),
        ensures
            forall|k: nat| #[trigger] self@.dom().contains(k) ==> 1 <= k <= self.bound(),
            self.bound() > 0 ==> self@.dom().contains(self.bound()),
            self.bound() == 0 ==> self@.dom() =~= Set::empty(),
    {
        lemma_pm_contains(self.entries@);
        if self.bound() > 0 {
            assert(occupies(self.entries@, self.max_entry as nat) || id_listed(
                self.available@,
                self.max_entry as nat,
            ));
            if id_listed(self.available@, self.max_entry as nat) {
                let j = choose|j: int|
                    0 <= j < self.available@.len() && #[trigger] self.available@[j] as nat
                        == self.max_entry as nat;
                assert(self.available@[j] < self.max_entry);
            }
        }
        assert forall|k: nat| #[trigger] self@.dom().contains(k) implies 1 <= k <= self.bound() by {
            let i = choose|i: int|
                0 <= i < self.entries@.len() && (#[trigger] self.entries@[i]).0 as nat == k;
        }
    }

    /// A fresh, empty store.
    pub fn new() -> (r: UniqueIdList<T>)
        ensures
            r.wf(),
            r@ =~= Map::<nat, T>::empty(),
            r.bound() == 0,
    {
        let r = UniqueIdList { entries: Vec::new(), available: Vec::new(), max_entry: 0 };
        proof {
            lemma_pm_contains(r.entries@);
        }
        r
    }

    /// First index of `entries` whose id is at least `id`, or the length.
    fn find_from(&self, id: usize) -> (pos: usize)
        ensures
            pos <= self.entries@.len(),
            forall|j: int| 0 <= j < pos ==> (#[trigger] self.entries@[j]).0 < id,
            pos < self.entries@.len() ==> self.entries@[pos as int].0 >= id,
    {
        let mut i: usize = 0;
        while i < self.entries.len()
            invariant
                i <= self.entries@.len(),
                forall|j: int| 0 <= j < i ==> (#[trigger] self.entries@[j]).0 < id,
            decreases self.entries@.len() - i,
        {
            if self.entries[i].0 >= id {
                return i;
            }
            i += 1;
        }
        i
    }

    /// Store `item` under the lowest id not currently occupied, and return
    /// that id. Ids start at 1.
    pub fn insert(&mut self, item: T) -> (id: usize)
        requires
            old(self).wf(),
            old(self).bound() < usize::MAX as nat,
        ensures
            final(self).wf(),
            1 <= id,
            !old(self)@.dom().contains(id as nat),
            forall|k: nat| 1 <= k < id as nat ==> old(self)@.dom().contains(k),
            final(self)@ == old(self)@.insert(id as nat, item),
            final(self).bound() == if id as nat > old(self).bound() {
                id as nat
            } else {
                old(self).bound()
            },
    {
        proof {
            lemma_pm_contains(self.entries@);
        }
        if self.available.len() > 0 {
            let id = self.available.remove(0);
            let ghost old_entries = self.entries@;
            assert forall|k: nat| 1 <= k < id as nat implies occupies(old_entries, k) by {
                if id_listed(self.available@, k) {
                    let j = choose|j: int|
                        0 <= j < self.available@.len() && #[trigger] self.available@[j] as nat == k;
                    assert(old(self).available@[j + 1] as nat == k);
                    assert(old(self).available@[0] < old(self).available@[j + 1]);
                } else {
                    if id_listed(old(self).available@, k) {
                        let j = choose|j: int|
                            0 <= j < old(self).available@.len()
                                && #[trigger] old(self).available@[j] as nat == k;
                        assert(j > 0 ==> self.available@[j - 1] as nat == k);
                    }
                }
            }
            let pos = self.find_from(id);
            self.entries.insert(pos, (id, item));
            proof {
                old_entries.insert_ensures(pos as int, (id, item));
                assert(!occupies(old_entries, id as nat));
                assert forall|k: nat| 1 <= k <= self.max_entry implies occupies(self.entries@, k)
                    || id_listed(self.available@, k) by {
                    if occupies(old_entries, k) {
                        let i = choose|i: int|
                            0 <= i < old_entries.len() && (#[trigger] old_entries[i]).0 as nat == k;
                        if i < pos {
                            assert(self.entries@[i].0 as nat == k);
                        } else {
                            assert(self.entries@[i + 1].0 as nat == k);
                        }
                    } else if id_listed(old(self).available@, k) {
                        let j = choose|j: int|
                            0 <= j < old(self).available@.len()
                                && #[trigger] old(self).available@[j] as nat == k;
                        if j == 0 {
                            assert(occupies(self.entries@, k));
                        } else {
                            assert(self.available@[j - 1] as nat == k);
                        }
                    }
                }
                assert forall|i: int, j: int|
                    0 <= i < self.entries@.len() && 0 <= j < self.available@.len() implies (
                #[trigger] self.entries@[i]).0 != #[trigger] self.available@[j] by {
                    assert(old(self).available@[j + 1] == self.available@[j]);
                    if i < pos {
                        assert(self.entries@[i] == old_entries[i]);
                    } else if i > pos {
                        assert(self.entries@[i] == old_entries[i - 1]);
                    }
                }
                lemma_pm_insert(old_entries, pos as int, id, item);
                lemma_pm_contains(old_entries);
            }
            id
        } else {
            let id = self.max_entry + 1;
            let ghost old_entries = self.entries@;
            self.max_entry = id;
            self.entries.push((id, item));
            proof {
                assert(self.entries@.drop_last() =~= old_entries);
                assert(!occupies(old_entries, id as nat));
                assert forall|k: nat| 1 <= k < id as nat implies occupies(old_entries, k) by {
                    assert(!id_listed(old(self).available@, k));
                }
                assert forall|k: nat| 1 <= k <= self.max_entry implies occupies(self.entries@, k)
                    || id_listed(self.available@, k) by {
                    if k == id as nat {
                        assert(self.entries@[self.entries@.len() - 1].0 as nat == k);
                    } else {
                        assert(occupies(old_entries, k));
                        let i = choose|i: int|
                            0 <= i < old_entries.len() && (#[trigger] old_entries[i]).0 as nat == k;
                        assert(self.entries@[i].0 as nat == k);
                    }
                }
                lemma_pm_contains(old_entries);
            }
            id
        }
    }

    /// Index of the entry carrying `id`, if occupied.
    fn find_exact(&self, id: usize) -> (r: Option<usize>)
        ensures
            r matches Some(i) ==> i < self.entries@.len() && self.entries@[i as int].0 == id,
            r is None ==> !occupies(self.entries@, id as nat),
    {
        let mut i: usize = 0;
        while i < self.entries.len()
            invariant
                i <= self.entries@.len(),
                forall|j: int| 0 <= j < i ==> (#[trigger] self.entries@[j]).0 != id,
            decreases self.entries@.len() - i,
        {
            if self.entries[i].0 == id {
                return Some(i);
            }
            i += 1;
        }
        None
    }

    /// Remove and return the value stored under `index`, freeing the id for
    /// reuse; `None` (and no change) when the id is not occupied. When the
    /// highest occupied id is removed, the bound shrinks past any freed ids
    /// directly below it, so it again equals the highest occupied id.
    pub fn remove(&mut self, index: usize) -> (r: Option<T>)
        requires
            old(self).wf(),
        ensures
            final(self).wf(),
            old(self)@.dom().contains(index as nat) ==> r == Some(old(self)@[index as nat])
                && final(self)@ == old(self)@.remove(index as nat),
            !old(self)@.dom().contains(index as nat) ==> r is None && final(self)@ == old(self)@
                && final(self).bound() == old(self).bound(),
            final(self).bound() <= old(self).bound(),
    {
        proof {
            lemma_pm_contains(self.entries@);
        }
        match self.find_exact(index) {
            None => None,
            Some(i) => {
                let ghost old_entries = self.entries@;
                proof {
                    lemma_pm_value(old_entries, i as int);
                    lemma_pm_remove(old_entries, i as int);
                }
                let entry = self.entries.remove(i);
                proof {
                    old_entries.remove_ensures(i as int);
                }
                if entry.0 == self.max_entry {
                    proof {
                        if (i as int) < old_entries.len() - 1 {
                            assert(old_entries[i as int].0 < old_entries[old_entries.len() - 1].0);
                            assert(old_entries[old_entries.len() - 1].0 <= old(self).max_entry);
                        }
                        assert(i as int == old_entries.len() - 1);
                    }
                    if self.entries.len() == 0 {
                        self.max_entry = 0;
                    } else {
                        self.max_entry = self.entries[self.entries.len() - 1].0;
                    }
                    let ghost mid_avail = self.available@;
                    let ghost new_max = self.max_entry;
                    while self.available.len() > 0 && self.available[self.available.len() - 1]
                        > self.max_entry
                        invariant
                            strictly_sorted(self.available@),
                            self.available@.len() <= mid_avail.len(),
                            self.available@ =~= mid_avail.take(self.available@.len() as int),
                            forall|k: nat|
                                id_listed(mid_avail, k) && k <= new_max as nat ==> id_listed(
                                    self.available@,
                                    k,
                                ),
                            self.max_entry == new_max,
                            self.entries@ == old_entries.remove(i as int),
                        decreases self.available@.len(),
                    {
                        let ghost pre = self.available@;
                        self.available.pop();
                        proof {
                            assert(self.available@ =~= pre.drop_last());
                            assert forall|a: int, b: int|
                                0 <= a < b < self.available@.len() implies #[trigger] self
                                .available@[a] < #[trigger] self.available@[b] by {
                                assert(self.available@[a] == pre[a]);
                                assert(self.available@[b] == pre[b]);
                            }
                            assert(self.available@ =~= mid_avail.take(
                                self.available@.len() as int,
                            ));
                            assert forall|k: nat|
                                id_listed(mid_avail, k) && k <= new_max as nat implies id_listed(
                                self.available@,
                                k,
                            ) by {
                                let j = choose|j: int|
                                    0 <= j < pre.len() && #[trigger] pre[j] as nat == k;
                                assert(pre[pre.len() - 1] > new_max);
                                assert(j < pre.len() - 1);
                                assert(self.available@[j] == pre[j]);
                            }
                        }
                    }
                    proof {
                        self.lemma_after_max_removal(old(self), old_entries, i as int, mid_avail);
                    }
                } else {
                    let p = self.avail_find_from(index);
                    let ghost old_avail = self.available@;
                    self.available.insert(p, index);
                    proof {
                        old_avail.insert_ensures(p as int, index);
                        self.lemma_after_mid_removal(old(self), old_entries, i as int, p as int);
                    }
                }
                Some(entry.1)
            },
        }
    }

    /// First index of `available` whose id is at least `id`, or the length.
    fn avail_find_from(&self, id: usize) -> (pos: usize)
        ensures
            pos <= self.available@.len(),
            forall|j: int| 0 <= j < pos ==> #[trigger] self.available@[j] < id,
            pos < self.available@.len() ==> self.available@[pos as int] >= id,
    {
        let mut i: usize = 0;
        while i < self.available.len()
            invariant
                i <= self.available@.len(),
                forall|j: int| 0 <= j < i ==> #[trigger] self.available@[j] < id,
            decreases self.available@.len() - i,
        {
            if self.available[i] >= id {
                return i;
            }
            i += 1;
        }
        i
    }

    /// Restores the invariant after the highest occupied id was removed and
    /// the freed ids above the new bound were discarded.
    proof fn lemma_after_max_removal(
        &self,
        pre: &UniqueIdList<T>,
        old_entries: Seq<(usize, T)>,
        i: int,
        mid_avail: Seq<usize>,
    )
        requires
            pre.wf(),
            old_entries == pre.entries@,
            mid_avail == pre.available@,
            0 <= i < old_entries.len(),
            i == old_entries.len() - 1,
            old_entries[i].0 == pre.max_entry,
            self.entries@ =~= old_entries.remove(i),
            self.max_entry as int == if self.entries@.len() == 0 {
                0
            } else {
                self.entries@[self.entries@.len() - 1].0 as int
            },
            strictly_sorted(self.available@),
            self.available@.len() <= mid_avail.len(),
            self.available@ =~= mid_avail.take(self.available@.len() as int),
            forall|k: nat|
                id_listed(mid_avail, k) && k <= self.max_entry as nat
                    ==> id_listed(self.available@, k),
            self.available@.len() == 0 || self.available@[self.available@.len() - 1]
                <= self.max_entry,
        ensures
            self.wf(),
            self.max_entry <= pre.max_entry,
    {
        old_entries.remove_ensures(i);
        assert forall|j: int| 0 <= j < self.entries@.len() implies 1 <= (
        #[trigger] self.entries@[j]).0 <= self.max_entry by {
            assert(self.entries@[j] == old_entries[j]);
            assert(self.entries@[self.entries@.len() - 1] == old_entries[self.entries@.len() - 1]);
        }
        if self.entries@.len() > 0 {
            assert(self.max_entry < pre.max_entry);
        }
        assert forall|j: int| 0 <= j < self.available@.len() implies 1 <= #[trigger] self
            .available@[j] < self.max_entry by {
            assert(self.available@[j] == mid_avail[j]);
            assert(self.available@[j] <= self.available@[self.available@.len() - 1]);
            if self.available@[j] as nat == self.max_entry as nat {
                assert(self.entries@.len() > 0);
                assert(old_entries[self.entries@.len() - 1].0 == self.max_entry);
                assert(pre.entries@[self.entries@.len() - 1].0 != pre.available@[j]);
            }
        }
        assert forall|a: int, b: int|
            0 <= a < self.entries@.len() && 0 <= b < self.available@.len() implies (
        #[trigger] self.entries@[a]).0 != #[trigger] self.available@[b] by {
            assert(self.entries@[a] == old_entries[a]);
            assert(self.available@[b] == mid_avail[b]);
        }
        assert forall|k: nat| 1 <= k <= self.max_entry implies occupies(self.entries@, k)
            || id_listed(self.available@, k) by {
            assert(k < pre.max_entry as nat);
            assert(occupies(old_entries, k) || id_listed(mid_avail, k));
            if occupies(old_entries, k) {
                let j = choose|j: int|
                    0 <= j < old_entries.len() && (#[trigger] old_entries[j]).0 as nat == k;
                assert(j < i);
                assert(self.entries@[j].0 as nat == k);
            }
        }
    }

    /// Restores the invariant after a non-maximal id was removed and added
    /// to the free list.
    proof fn lemma_after_mid_removal(
        &self,
        pre: &UniqueIdList<T>,
        old_entries: Seq<(usize, T)>,
        i: int,
        p: int,
    )
        requires
            pre.wf(),
            old_entries == pre.entries@,
            0 <= i < old_entries.len(),
            old_entries[i].0 != pre.max_entry,
            self.entries@ =~= old_entries.remove(i),
            self.max_entry == pre.max_entry,
            0 <= p <= pre.available@.len(),
            forall|j: int| 0 <= j < p ==> #[trigger] pre.available@[j] < old_entries[i].0,
            p < pre.available@.len() ==> pre.available@[p] >= old_entries[i].0,
            self.available@ =~= pre.available@.insert(p, old_entries[i].0),
        ensures
            self.wf(),
    {
        old_entries.remove_ensures(i);
        pre.available@.insert_ensures(p, old_entries[i].0);
        let id = old_entries[i].0;
        assert(1 <= id <= pre.max_entry);
        assert(id < pre.max_entry) by {
            assert(occupies(pre.entries@, pre.max_entry as nat) || id_listed(
                pre.available@,
                pre.max_entry as nat,
            ));
            if id_listed(pre.available@, pre.max_entry as nat) {
                let j = choose|j: int|
                    0 <= j < pre.available@.len() && #[trigger] pre.available@[j] as nat
                        == pre.max_entry as nat;
                assert(pre.available@[j] < pre.max_entry);
            }
            let m = choose|m: int|
                0 <= m < pre.entries@.len() && (#[trigger] pre.entries@[m]).0 as nat
                    == pre.max_entry as nat;
            assert(m != i);
            if m < i {
                assert(pre.entries@[m].0 < pre.entries@[i].0);
            }
        }
        assert(p < pre.available@.len() ==> pre.available@[p] > id) by {
            if p < pre.available@.len() {
                assert(pre.entries@[i].0 != pre.available@[p]);
            }
        }
        assert forall|a: int, b: int|
            0 <= a < self.available@.len() && 0 <= b < self.available@.len() && a < b implies
            #[trigger] self.available@[a] < #[trigger] self.available@[b] by {
            assert(self.available@[a] == if a < p {
                pre.available@[a]
            } else if a == p {
                id
            } else {
                pre.available@[a - 1]
            });
            assert(self.available@[b] == if b < p {
                pre.available@[b]
            } else if b == p {
                id
            } else {
                pre.available@[b - 1]
            });
        }
        assert forall|j: int| 0 <= j < self.entries@.len() implies 1 <= (
        #[trigger] self.entries@[j]).0 <= self.max_entry by {
            assert(self.entries@[j] == if j < i {
                old_entries[j]
            } else {
                old_entries[j + 1]
            });
        }
        assert forall|a: int, b: int|
            0 <= a < self.entries@.len() && 0 <= b < self.available@.len() implies (
        #[trigger] self.entries@[a]).0 != #[trigger] self.available@[b] by {
            let ea = if a < i {
                old_entries[a]
            } else {
                old_entries[a + 1]
            };
            assert(self.entries@[a] == ea);
            if self.available@[b] != id {
                let vb = if b < p {
                    pre.available@[b]
                } else {
                    pre.available@[b - 1]
                };
                assert(self.available@[b] == vb);
            } else {
                if a < i {
                    assert(old_entries[a].0 < old_entries[i].0);
                } else {
                    assert(old_entries[i].0 < old_entries[a + 1].0);
                }
            }
        }
        assert forall|k: nat| 1 <= k <= self.max_entry implies occupies(self.entries@, k)
            || id_listed(self.available@, k) by {
            if k == id as nat {
                assert(self.available@[p] as nat == k);
            } else if occupies(old_entries, k) {
                let j = choose|j: int|
                    0 <= j < old_entries.len() && (#[trigger] old_entries[j]).0 as nat == k;
                assert(j != i);
                if j < i {
                    assert(self.entries@[j].0 as nat == k);
                } else {
                    assert(self.entries@[j - 1].0 as nat == k);
                }
            } else {
                assert(id_listed(pre.available@, k));
                let j = choose|j: int|
                    0 <= j < pre.available@.len() && #[trigger] pre.available@[j] as nat == k;
                if j < p {
                    assert(self.available@[j] as nat == k);
                } else {
                    assert(self.available@[j + 1] as nat == k);
                }
            }
        }
    }

    /// Borrow the value stored under `index`, if occupied.
    pub fn get(&self, index: usize) -> (r: Option<&T>)
        requires
            self.wf(),
        ensures
            r matches Some(v) ==> self@.dom().contains(index as nat) && *v == self@[index as nat],
            r is None ==> !self@.dom().contains(index as nat),
    {
        proof {
            lemma_pm_contains(self.entries@);
        }
        match self.find_exact(index) {
            None => None,
            Some(i) => {
                proof {
                    lemma_pm_value(self.entries@, i as int);
                }
                Some(&self.entries[i].1)
            },
        }
    }

    /// Mutably borrow the value stored under `index`, which must be occupied.
    pub fn get_mut(&mut self, index: usize) -> (r: &mut T)
        requires
            old(self).wf(),
            old(self)@.dom().contains(index as nat),
        ensures
            *r == old(self)@[index as nat],
            final(self).wf(),
            final(self)@ == old(self)@.insert(index as nat, *final(r)),
            final(self).bound() == old(self).bound(),
    {
        proof {
            lemma_pm_contains(self.entries@);
        }
        let i = match self.find_exact(index) {
            Some(i) => i,
            None => {
                proof {
                    assert(false);
                }
                0
            },
        };
        proof {
            lemma_pm_value(self.entries@, i as int);
            lemma_pm_update_all(self.entries@, i as int);
            lemma_wf_update_all(self.entries@, self.available@, self.max_entry, i as int);
        }
        let entry = vec_index_mut(&mut self.entries, i);
        pair_value_mut(entry)
    }

    /// True when the bound has reached the largest representable id, so
    /// no fresh id above it could be handed out.
    pub fn at_capacity(&self) -> (r: bool)
        requires
            self.wf(),
        ensures
            r == (self.bound() == usize::MAX as nat),
            self.bound() <= usize::MAX as nat,
    {
        self.max_entry == usize::MAX
    }

    /// The occupied ids, in increasing order.
    pub fn iter(&self) -> (ids: Vec<usize>)
        requires
            self.wf(),
        ensures
            strictly_sorted(ids@),
            forall|j: int| 0 <= j < ids@.len() ==> self@.dom().contains(#[trigger] ids@[j] as nat),
            forall|k: nat| #[trigger] self@.dom().contains(k) ==> id_listed(ids@, k),
    {
        proof {
            lemma_pm_contains(self.entries@);
        }
        let mut ids: Vec<usize> = Vec::new();
        let mut i: usize = 0;
        while i < self.entries.len()
            invariant
                self.wf(),
                i <= self.entries@.len(),
                ids@.len() == i,
                forall|j: int| 0 <= j < i ==> #[trigger] ids@[j] == self.entries@[j].0,
            decreases self.entries@.len() - i,
        {
            ids.push(self.entries[i].0);
            i += 1;
        }
        proof {
            assert forall|k: nat| #[trigger] self@.dom().contains(k) implies id_listed(ids@, k) by {
                let j = choose|j: int|
                    0 <= j < self.entries@.len() && (#[trigger] self.entries@[j]).0 as nat == k;
                assert(ids@[j] as nat == k);
            }
        }
        ids
    }
}

/// Lowest-available reuse: when `id` is occupied and every positive id
/// below it is occupied too, then after removing `id` it is again the
/// least unoccupied positive id — exactly the id that `insert`'s contract
/// says the next insertion returns.
pub proof fn lemma_reuse_after_remove<T>(m: Map<nat, T>, id: nat)
    requires
        1 <= id,
        m.dom().contains(id),
        forall|k: nat| 1 <= k < id ==> m.dom().contains(k),
    ensures
        !m.remove(id).dom().contains(id),
        forall|k: nat| 1 <= k < id ==> m.remove(id).dom().contains(k),
{
}

/// Serialized insertions lose nothing and never hand out the same id
/// twice: after two inserts in a row, both ids are present, they differ,
/// and every previously stored entry is still there. Under the registry's
/// exclusive access every concurrent run of insertions serializes, so any
/// N of them yield N distinct ids.
pub proof fn lemma_serialized_inserts<T>(m0: Map<nat, T>, id1: nat, v1: T, id2: nat, v2: T)
    requires
        !m0.dom().contains(id1),
        !m0.insert(id1, v1).dom().contains(id2),
    ensures
        id1 != id2,
        m0.insert(id1, v1).insert(id2, v2).dom().contains(id1),
        m0.insert(id1, v1).insert(id2, v2).dom().contains(id2),
        forall|k: nat|
            #[trigger] m0.dom().contains(k) ==> m0.insert(id1, v1).insert(id2, v2).dom().contains(
                k,
            ),
{
}

/// Mutably borrow element `i` of a vector.
pub(crate) fn vec_index_mut<T>(v: &mut Vec<T>, i: usize) -> (r: &mut T)
    requires
        i < old(v).len(),
    ensures
        *r == old(v)@[i as int],
        final(v)@ == old(v)@.update(i as int, *final(r)),
{
    &mut v[i]
}

/// Mutably borrow the value half of an (id, value) pair.
fn pair_value_mut<T>(e: &mut (usize, T)) -> (r: &mut T)
    ensures
        *r == old(e).1,
        *final(e) == (old(e).0, *final(r)),
{
    &mut e.1
}

proof fn lemma_pm_insert<T>(s: Seq<(usize, T)>, pos: int, id: usize, v: T)
    requires
        unique_ids(s),
        0 <= pos <= s.len(),
        !occupies(s, id as nat),
    ensures
        pairs_map(s.insert(pos, (id, v))) =~= pairs_map(s).insert(id as nat, v),
{
    let s2 = s.insert(pos, (id, v));
    s.insert_ensures(pos, (id, v));
    lemma_pm_contains(s);
    lemma_pm_contains(s2);
    assert forall|a: int, b: int| 0 <= a < b < s2.len() implies (#[trigger] s2[a]).0 != (
    #[trigger] s2[b]).0 by {
        let oa = if a < pos {
            s[a]
        } else if a == pos {
            (id, v)
        } else {
            s[a - 1]
        };
        let ob = if b < pos {
            s[b]
        } else if b == pos {
            (id, v)
        } else {
            s[b - 1]
        };
        assert(s2[a] == oa && s2[b] == ob);
        if a == pos {
            assert(ob == s[b - 1]);
            assert(ob.0 as nat != id as nat);
        } else if b == pos {
            assert(oa.0 as nat != id as nat);
        }
    }
    assert forall|k: nat| pairs_map(s2).dom().contains(k) <==> pairs_map(s).insert(
        id as nat,
        v,
    ).dom().contains(k) by {
        if occupies(s2, k) {
            let j = choose|j: int| 0 <= j < s2.len() && (#[trigger] s2[j]).0 as nat == k;
            if j < pos {
                assert(s[j].0 as nat == k);
            } else if j > pos {
                assert(s[j - 1].0 as nat == k);
            }
        }
        if occupies(s, k) {
            let j = choose|j: int| 0 <= j < s.len() && (#[trigger] s[j]).0 as nat == k;
            if j < pos {
                assert(s2[j].0 as nat == k);
            } else {
                assert(s2[j + 1].0 as nat == k);
            }
        }
        if k == id as nat {
            assert(s2[pos].0 as nat == k);
        }
    }
    assert forall|k: nat| pairs_map(s2).dom().contains(k) implies pairs_map(s2)[k] == pairs_map(
        s,
    ).insert(id as nat, v)[k] by {
        let j = choose|j: int| 0 <= j < s2.len() && (#[trigger] s2[j]).0 as nat == k;
        lemma_pm_value(s2, j);
        if k == id as nat {
            assert(j == pos) by {
                if j < pos {
                    assert(s[j].0 as nat == k);
                } else if j > pos {
                    assert(s[j - 1].0 as nat == k);
                }
            }
            assert(pairs_map(s2)[k] == v);
        } else {
            assert(j != pos);
            if j < pos {
                lemma_pm_value(s, j);
                assert(s2[j] == s[j]);
            } else {
                lemma_pm_value(s, j - 1);
                assert(s2[j] == s[j - 1]);
            }
        }
    }
}

proof fn lemma_pm_remove<T>(s: Seq<(usize, T)>, i: int)
    requires
        unique_ids(s),
        0 <= i < s.len(),
    ensures
        pairs_map(s.remove(i)) =~= pairs_map(s).remove(s[i].0 as nat),
{
    let s2 = s.remove(i);
    s.remove_ensures(i);
    lemma_pm_contains(s);
    lemma_pm_contains(s2);
    assert forall|a: int, b: int| 0 <= a < b < s2.len() implies (#[trigger] s2[a]).0 != (
    #[trigger] s2[b]).0 by {
        let oa = if a < i {
            s[a]
        } else {
            s[a + 1]
        };
        let ob = if b < i {
            s[b]
        } else {
            s[b + 1]
        };
        assert(s2[a] == oa && s2[b] == ob);
    }
    assert forall|k: nat| pairs_map(s2).dom().contains(k) <==> pairs_map(s).remove(
        s[i].0 as nat,
    ).dom().contains(k) by {
        if occupies(s2, k) {
            let j = choose|j: int| 0 <= j < s2.len() && (#[trigger] s2[j]).0 as nat == k;
            if j < i {
                assert(s[j].0 as nat == k);
                assert(s[j].0 != s[i].0);
            } else {
                assert(s[j + 1].0 as nat == k);
                assert(s[j + 1].0 != s[i].0);
            }
        }
        if occupies(s, k) && k != s[i].0 as nat {
            let j = choose|j: int| 0 <= j < s.len() && (#[trigger] s[j]).0 as nat == k;
            assert(j != i);
            if j < i {
                assert(s2[j].0 as nat == k);
            } else {
                assert(s2[j - 1].0 as nat == k);
            }
        }
    }
    assert forall|k: nat| pairs_map(s2).dom().contains(k) implies pairs_map(s2)[k] == pairs_map(
        s,
    ).remove(s[i].0 as nat)[k] by {
        let j = choose|j: int| 0 <= j < s2.len() && (#[trigger] s2[j]).0 as nat == k;
        lemma_pm_value(s2, j);
        if j < i {
            lemma_pm_value(s, j);
            assert(s2[j] == s[j]);
        } else {
            lemma_pm_value(s, j + 1);
            assert(s2[j] == s[j + 1]);
        }
    }
}

/// For every replacement value, updating the value half of entry `i` in
/// place updates the mapping at that entry's id.
proof fn lemma_pm_update_all<T>(s: Seq<(usize, T)>, i: int)
    requires
        unique_ids(s),
        0 <= i < s.len(),
    ensures
        forall|v: T|
            #[trigger] pairs_map(s.update(i, (s[i].0, v))) =~= pairs_map(s).insert(
                s[i].0 as nat,
                v,
            ),
{
    assert forall|v: T|
        #[trigger] pairs_map(s.update(i, (s[i].0, v))) =~= pairs_map(s).insert(
            s[i].0 as nat,
            v,
        ) by {
        lemma_pm_update_one(s, i, v);
    }
}

proof fn lemma_pm_update_one<T>(s: Seq<(usize, T)>, i: int, v: T)
    requires
        unique_ids(s),
        0 <= i < s.len(),
    ensures
        pairs_map(s.update(i, (s[i].0, v))) =~= pairs_map(s).insert(s[i].0 as nat, v),
{
    let s2 = s.update(i, (s[i].0, v));
    lemma_pm_contains(s);
    lemma_pm_contains(s2);
    assert forall|a: int, b: int| 0 <= a < b < s2.len() implies (#[trigger] s2[a]).0 != (
    #[trigger] s2[b]).0 by {
        assert(s2[a].0 == s[a].0 && s2[b].0 == s[b].0);
    }
    assert forall|k: nat| pairs_map(s2).dom().contains(k) <==> pairs_map(s).insert(
        s[i].0 as nat,
        v,
    ).dom().contains(k) by {
        if occupies(s2, k) {
            let j = choose|j: int| 0 <= j < s2.len() && (#[trigger] s2[j]).0 as nat == k;
            assert(s[j].0 as nat == k);
        }
        if occupies(s, k) {
            let j = choose|j: int| 0 <= j < s.len() && (#[trigger] s[j]).0 as nat == k;
            assert(s2[j].0 as nat == k);
        }
    }
    assert forall|k: nat| pairs_map(s2).dom().contains(k) implies pairs_map(s2)[k] == pairs_map(
        s,
    ).insert(s[i].0 as nat, v)[k] by {
        let j = choose|j: int| 0 <= j < s2.len() && (#[trigger] s2[j]).0 as nat == k;
        lemma_pm_value(s2, j);
        if k == s[i].0 as nat {
            assert(j == i);
            assert(s2[j].1 == v);
        } else {
            assert(j != i);
            lemma_pm_value(s, j);
            assert(s2[j] == s[j]);
        }
    }
}

} // verus!

