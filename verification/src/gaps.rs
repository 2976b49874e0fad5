//! Choosing unused document ids: the gaps between the keys of the table are
//! filled first, from the smallest id up, and the ids past the largest key are
//! taken only when the gaps do not suffice.

use crate::DocumentId;
use vstd::prelude::*;

verus! {

/// Whether `id` can be handed out while the table holds `keys`: it is not a
/// key, and it lies above some key unless there is no key at all. Ids below the
/// smallest key are never handed out.
pub open spec fn available(keys: Set<u64>, id: u64) -> bool {
    &&& !keys.contains(id)
    &&& (exists|k: u64| keys.contains(k)) ==> (exists|k: u64| keys.contains(k) && k < id)
}

/// Whether `ids` are the `count` smallest available ids, in ascending order.
pub open spec fn is_allocation(keys: Set<u64>, count: nat, ids: Seq<DocumentId>) -> bool {
    &&& ids.len() == count
    &&& forall|i: int, j: int|
        0 <= i < j < ids.len() ==> (#[trigger] ids[i]).0 < (#[trigger] ids[j]).0
    &&& forall|i: int| 0 <= i < ids.len() ==> available(keys, (#[trigger] ids[i]).0)
    &&& forall|id: u64| #[trigger]
        available(keys, id) && ids.len() > 0 && id < ids.last().0 ==> ids.contains(DocumentId(id))
}

/// Whether `least` is the smallest of `keys`.
pub open spec fn is_least(keys: Set<u64>, least: u64) -> bool {
    &&& keys.contains(least)
    &&& forall|k: u64| keys.contains(k) ==> least <= k
}

/// Whether fewer than `count` ids are available: the ids from the smallest
/// key up to the largest id there is cannot hold the keys and `count` more.
pub open spec fn exhausted(keys: Set<u64>, count: nat) -> bool {
    &&& keys.finite()
    &&& exists|least: u64| #[trigger]
        is_least(keys, least) && least + keys.len() + count > u64::MAX + 1
}

/// When the ids are exhausted, no sequence of ids is an allocation.
pub proof fn lemma_exhausted_has_no_allocation(keys: Set<u64>, count: nat, ids: Seq<DocumentId>)
    requires
        exhausted(keys, count),
    ensures
        !is_allocation(keys, count, ids),
{
    if is_allocation(keys, count, ids) {
        let least = choose|least: u64| #[trigger]
            is_least(keys, least) && least + keys.len() + count > u64::MAX + 1;
        let chosen = Seq::new(count, |i: int| ids[i].0);
        let taken = chosen.to_set();
        assert(chosen.no_duplicates());
        chosen.unique_seq_to_set();
        vstd::seq_lib::seq_to_set_is_finite(chosen);
        assert(keys.disjoint(taken)) by {
            assert forall|x: u64| keys.contains(x) implies !taken.contains(x) by {
                if taken.contains(x) {
                    let i = choose|i: int| 0 <= i < chosen.len() && chosen[i] == x;
                    assert(available(keys, ids[i].0));
                }
            }
        }
        vstd::set_lib::lemma_set_disjoint_lens(keys, taken);
        let all = keys + taken;
        vstd::set_lib::lemma_set_union_finite_iff(keys, taken);
        let widen = |x: u64| x as int;
        let wide = all.map(widen);
        assert(vstd::relations::injective_on(widen, all));
        vstd::set_lib::lemma_map_size(all, wide, widen);
        let range = vstd::set_lib::set_int_range(least as int, u64::MAX + 1);
        vstd::set_lib::lemma_int_range(least as int, u64::MAX + 1);
        assert(wide.subset_of(range)) by {
            assert forall|y: int| wide.contains(y) implies range.contains(y) by {
                let x = choose|x: u64| all.contains(x) && widen(x) == y;
                if taken.contains(x) {
                    let i = choose|i: int| 0 <= i < chosen.len() && chosen[i] == x;
                    assert(available(keys, ids[i].0));
                    let k = choose|k: u64| keys.contains(k) && k < x;
                }
            }
        }
        vstd::set_lib::lemma_len_subset(wide, range);
    }
}

/// Two allocations for the same keys and the same count agree in their first
/// `upto` ids.
proof fn lemma_same_prefix(
    keys: Set<u64>,
    count: nat,
    a: Seq<DocumentId>,
    b: Seq<DocumentId>,
    upto: nat,
)
    requires
        is_allocation(keys, count, a),
        is_allocation(keys, count, b),
        upto <= count,
    ensures
        forall|i: int| 0 <= i < upto ==> a[i] == b[i],
    decreases upto,
{
    if upto > 0 {
        lemma_same_prefix(keys, count, a, b, (upto - 1) as nat);
        let i = upto - 1;
        if a[i].0 < b[i].0 {
            assert(available(keys, a[i].0));
            assert(b[i].0 <= b.last().0);
            let j = choose|j: int| 0 <= j < b.len() && b[j] == DocumentId(a[i].0);
            if j < i {
                assert(a[j] == b[j]);
            }
        } else if b[i].0 < a[i].0 {
            assert(available(keys, b[i].0));
            assert(a[i].0 <= a.last().0);
            let j = choose|j: int| 0 <= j < a.len() && a[j] == DocumentId(b[i].0);
            if j < i {
                assert(a[j] == b[j]);
            }
        }
    }
}

/// The keys and the count determine the allocation: there is at most one.
pub proof fn lemma_allocation_unique(
    keys: Set<u64>,
    count: nat,
    a: Seq<DocumentId>,
    b: Seq<DocumentId>,
)
    requires
        is_allocation(keys, count, a),
        is_allocation(keys, count, b),
    ensures
        a == b,
{
    lemma_same_prefix(keys, count, a, b, count);
    assert(a =~= b);
}

/// Whether each element of `keys` is below the ones after it.
spec fn ascending(keys: Seq<u64>) -> bool {
    forall|i: int, j: int| 0 <= i < j < keys.len() ==> keys[i] < keys[j]
}

/// The id that follows the last of `keys`, or the first id there is.
spec fn past(keys: Seq<u64>) -> int {
    if keys.len() == 0 {
        0
    } else {
        keys.last() + 1
    }
}

/// The `len` ids from `from` on.
spec fn run(from: int, len: nat) -> Seq<DocumentId> {
    Seq::new(len, |t: int| DocumentId((from + t) as u64))
}

/// What holds of the ids collected once the keys `seen` were visited: they are
/// the smallest available ids below the last of these keys, all of them unless
/// `count` were found.
spec fn collected(count: nat, ids: Seq<DocumentId>, seen: Seq<u64>) -> bool {
    &&& ids.len() <= count
    &&& ascending(seen)
    &&& seen.len() == 0 ==> ids.len() == 0
    &&& forall|i: int, j: int|
        0 <= i < j < ids.len() ==> (#[trigger] ids[i]).0 < (#[trigger] ids[j]).0
    &&& forall|i: int|
        0 <= i < ids.len() ==> seen[0] < (#[trigger] ids[i]).0 < seen.last() && !seen.contains(
            ids[i].0,
        )
    &&& forall|id: u64|
        seen.len() > 0 && seen[0] < id < seen.last() && !(#[trigger] seen.contains(id)) && (
        ids.len() < count || (ids.len() > 0 && id < ids.last().0)) ==> ids.contains(DocumentId(id))
    &&& seen.len() > 0 ==> ids.len() + seen.len() <= seen.last() - seen[0] + 1
    &&& seen.len() > 0 && ids.len() < count ==> ids.len() + seen.len() == seen.last() - seen[0]
        + 1
}

/// The set of an ascending sequence of keys has as many elements as the
/// sequence, and its first element is the least of them.
proof fn lemma_ascending_set(seen: Seq<u64>)
    requires
        ascending(seen),
    ensures
        seen.to_set().finite(),
        seen.to_set().len() == seen.len(),
        seen.len() > 0 ==> is_least(seen.to_set(), seen[0]),
        forall|least: u64| #[trigger]
            is_least(seen.to_set(), least) ==> seen.len() > 0 && least == seen[0],
{
    vstd::seq_lib::seq_to_set_is_finite(seen);
    seen.unique_seq_to_set();
    assert forall|least: u64| #[trigger] is_least(seen.to_set(), least) implies seen.len() > 0
        && least == seen[0] by {
        let i = choose|i: int| 0 <= i < seen.len() && seen[i] == least;
        assert(seen.to_set().contains(seen[0]));
    }
    if seen.len() > 0 {
        assert(seen.to_set().contains(seen[0]));
        assert forall|k: u64| seen.to_set().contains(k) implies seen[0] <= k by {
            let i = choose|i: int| 0 <= i < seen.len() && seen[i] == k;
        }
    }
}

/// Visiting a key above all keys seen keeps what holds of the ids collected,
/// when the ids between the last key and this one were added as far as wanted.
proof fn lemma_visit(count: nat, ids: Seq<DocumentId>, seen: Seq<u64>, key: u64, added: nat)
    requires
        collected(count, ids, seen),
        forall|i: int| 0 <= i < seen.len() ==> seen[i] < key,
        seen.len() == 0 ==> added == 0,
        seen.len() > 0 ==> added <= key - seen.last() - 1 && ids.len() + added <= count && (
        ids.len() + added == count || added == key - seen.last() - 1),
    ensures
        collected(count, ids + run(past(seen), added), seen.push(key)),
{
    let after = ids + run(past(seen), added);
    let seen2 = seen.push(key);
    if seen.len() == 0 {
        assert(after =~= ids);
    } else {
        let last = seen.last();
        assert forall|i: int| 0 <= i < after.len() implies (#[trigger] after[i]).0 == (if i
            < ids.len() {
            ids[i].0 as int
        } else {
            last + 1 + (i - ids.len())
        }) by {}
        assert forall|i: int| 0 <= i < after.len() implies seen2[0] < (#[trigger] after[i]).0
            < seen2.last() && !seen2.contains(after[i].0) by {
            let x = after[i].0;
            if i < ids.len() {
                assert(after[i] == ids[i]);
                assert(!seen.contains(x));
            }
            if seen2.contains(x) {
                let j = choose|j: int| 0 <= j < seen2.len() && seen2[j] == x;
                if j < seen.len() {
                    assert(seen[j] == x);
                    assert(seen[j] <= last);
                }
            }
        }
        assert forall|id: u64|
            seen2[0] < id < seen2.last() && !(#[trigger] seen2.contains(id)) && (after.len() < count
                || (after.len() > 0 && id < after.last().0)) implies after.contains(
            DocumentId(id),
        ) by {
            if id < last {
                if seen.contains(id) {
                    let j = choose|j: int| 0 <= j < seen.len() && seen[j] == id;
                    assert(seen2[j] == id);
                }
                if added == 0 {
                    assert(after =~= ids);
                }
                assert(ids.contains(DocumentId(id)));
                let i = choose|i: int| 0 <= i < ids.len() && ids[i] == DocumentId(id);
                assert(after[i] == DocumentId(id));
            } else if id == last {
                assert(seen2[seen.len() - 1] == id);
            } else {
                if added == 0 {
                    assert(after =~= ids);
                    if ids.len() > 0 {
                        assert(ids[ids.len() - 1].0 < last);
                    }
                }
                let i = ids.len() + (id - last - 1);
                assert(after[i] == DocumentId(id));
            }
        }
    }
    assert(ascending(seen2));
}

/// Once `count` ids were collected they are the allocation.
proof fn lemma_full(count: nat, ids: Seq<DocumentId>, seen: Seq<u64>)
    requires
        collected(count, ids, seen),
        ids.len() == count,
    ensures
        is_allocation(seen.to_set(), count, ids),
        !exhausted(seen.to_set(), count),
{
    let keys = seen.to_set();
    lemma_ascending_set(seen);
    if seen.len() > 0 {
        assert(keys.contains(seen[0]));
    }
    assert forall|i: int| 0 <= i < ids.len() implies available(keys, (#[trigger] ids[i]).0) by {}
    assert forall|id: u64| #[trigger]
        available(keys, id) && ids.len() > 0 && id < ids.last().0 implies ids.contains(
        DocumentId(id),
    ) by {
        let k = choose|k: u64| keys.contains(k) && k < id;
        assert(ids[ids.len() - 1].0 < seen.last());
    }
}

/// When too few ids were collected, the ones that follow the last key complete
/// the allocation, provided there are enough of them.
proof fn lemma_extended(count: nat, ids: Seq<DocumentId>, seen: Seq<u64>, start: int)
    requires
        collected(count, ids, seen),
        ids.len() < count,
        start == past(seen),
        start + (count - ids.len()) - 1 <= u64::MAX,
    ensures
        is_allocation(seen.to_set(), count, ids + run(start, (count - ids.len()) as nat)),
        !exhausted(seen.to_set(), count),
{
    let keys = seen.to_set();
    let all = ids + run(start, (count - ids.len()) as nat);
    lemma_ascending_set(seen);
    assert forall|i: int| 0 <= i < all.len() implies (#[trigger] all[i]).0 == (if i < ids.len() {
        ids[i].0 as int
    } else {
        start + (i - ids.len())
    }) by {}
    if seen.len() > 0 {
        assert(keys.contains(seen[0]));
    }
    assert forall|i: int| 0 <= i < all.len() implies available(keys, (#[trigger] all[i]).0) by {
        let x = all[i].0;
        if i < ids.len() {
            assert(all[i] == ids[i]);
        } else if keys.contains(x) {
            let j = choose|j: int| 0 <= j < seen.len() && seen[j] == x;
            assert(seen[j] <= seen.last());
        }
    }
    assert forall|id: u64| #[trigger]
        available(keys, id) && all.len() > 0 && id < all.last().0 implies all.contains(
        DocumentId(id),
    ) by {
        if id < start {
            let k = choose|k: u64| keys.contains(k) && k < id;
            assert(id != seen.last()) by {
                assert(keys.contains(seen.last()));
            }
            assert(ids.contains(DocumentId(id)));
            let i = choose|i: int| 0 <= i < ids.len() && ids[i] == DocumentId(id);
            assert(all[i] == DocumentId(id));
        } else {
            let i = ids.len() + (id - start);
            assert(all[i] == DocumentId(id));
        }
    }
}

/// When too few ids were collected and too few follow the last key, the ids
/// are exhausted.
proof fn lemma_exhausted(count: nat, ids: Seq<DocumentId>, seen: Seq<u64>)
    requires
        collected(count, ids, seen),
        ids.len() < count,
        seen.len() > 0,
        seen.last() + (count - ids.len()) > u64::MAX,
    ensures
        exhausted(seen.to_set(), count),
{
    lemma_ascending_set(seen);
    assert(is_least(seen.to_set(), seen[0]));
}

/// The state of one pass over the keys of the table in ascending order, during
/// which the ids in the gaps between them are collected until `count` are found.
pub struct GapScan {
    count: usize,
    ids: Vec<DocumentId>,
    previous: Option<u64>,
    seen: Ghost<Seq<u64>>,
}

impl GapScan {
    /// The keys visited so far.
    pub closed spec fn keys(&self) -> Set<u64> {
        self.seen@.to_set()
    }

    /// How many ids are wanted.
    pub closed spec fn count(&self) -> nat {
        self.count as nat
    }

    /// What holds between visits.
    pub closed spec fn wf(&self) -> bool {
        &&& collected(self.count as nat, self.ids@, self.seen@)
        &&& self.previous == if self.seen@.len() == 0 {
            None
        } else {
            Some(self.seen@.last())
        }
    }

    /// Starts a pass that is to find `count` ids.
    pub fn new(count: usize) -> (scan: GapScan)
        ensures
            scan.wf(),
            scan.count() == count,
            scan.keys() == Set::<u64>::empty(),
    {
        let scan = GapScan { count, ids: Vec::new(), previous: None, seen: Ghost(Seq::empty()) };
        assert(scan.seen@.to_set() =~= Set::<u64>::empty());
        scan
    }

    /// Takes note of the next key of the table, which must lie above all keys
    /// visited before, and collects the ids between the last key and this one
    /// as far as they are still wanted.
    pub fn visit(&mut self, key: DocumentId)
        requires
            old(self).wf(),
            forall|k: u64| old(self).keys().contains(k) ==> k < key.0,
        ensures
            final(self).wf(),
            final(self).count() == old(self).count(),
            final(self).keys() == old(self).keys().insert(key.0),
    {
        let ghost seen = self.seen@;
        let ghost ids = self.ids@;
        let current = key.0;
        let ghost mut added: nat = 0;
        proof {
            assert forall|i: int| 0 <= i < seen.len() implies seen[i] < current by {
                assert(seen.contains(seen[i]));
                assert(old(self).keys().contains(seen[i]));
            }
            assert(self.ids@ =~= ids + run(past(seen), 0));
        }
        if let Some(previous) = self.previous {
            let mut id: u64 = previous + 1;
            while id < current && self.ids.len() < self.count
                invariant
                    previous < id <= current,
                    self.count == old(self).count,
                    self.previous == old(self).previous,
                    self.seen == old(self).seen,
                    self.ids@.len() <= self.count,
                    added == id - previous - 1,
                    self.ids@ == ids + run(previous + 1, added),
                decreases current - id,
            {
                self.ids.push(DocumentId(id));
                id = id + 1;
                proof {
                    added = added + 1;
                    assert(self.ids@ =~= ids + run(previous + 1, added));
                }
            }
        }
        proof {
            lemma_visit(self.count as nat, ids, seen, current, added);
            seen.lemma_push_to_set_commute(current);
        }
        self.previous = Some(current);
        self.seen = Ghost(seen.push(current));
    }

    /// Ends the pass. The ids collected are handed out, completed by the ids
    /// that follow the last key where too few were found in the gaps; `None`
    /// tells that there are not enough ids left.
    pub fn finish(self) -> (r: Option<Vec<DocumentId>>)
        requires
            self.wf(),
        ensures
            r matches Some(ids) ==> is_allocation(self.keys(), self.count(), ids@),
            r is None <==> exhausted(self.keys(), self.count()),
    {
        let ghost seen = self.seen@;
        let ghost collected_ids = self.ids@;
        let count = self.count;
        let mut ids = self.ids;
        if ids.len() == count {
            proof {
                lemma_full(count as nat, collected_ids, seen);
            }
            return Some(ids);
        }
        let missing: u64 = (count - ids.len()) as u64;
        let start: u64 = match self.previous {
            None => 0,
            Some(previous) => {
                if previous == u64::MAX {
                    proof {
                        lemma_exhausted(count as nat, collected_ids, seen);
                    }
                    return None;
                }
                previous + 1
            },
        };
        if missing - 1 > u64::MAX - start {
            proof {
                lemma_exhausted(count as nat, collected_ids, seen);
            }
            return None;
        }
        let mut taken: u64 = 0;
        while taken < missing
            invariant
                taken <= missing,
                missing == count - collected_ids.len(),
                start + missing - 1 <= u64::MAX,
                ids@ == collected_ids + run(start as int, taken as nat),
            decreases missing - taken,
        {
            ids.push(DocumentId(start + taken));
            taken = taken + 1;
            assert(ids@ =~= collected_ids + run(start as int, taken as nat));
        }
        proof {
            lemma_extended(count as nat, collected_ids, seen, start as int);
        }
        Some(ids)
    }
}

} // verus!
