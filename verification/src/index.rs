use vstd::prelude::*;

verus! {

/// One entry of the hash index: the position of its value in the value store,
/// the value's seeded hash, and the caller-defined payload. Entries never hold
/// byte content; the store is the single source of truth for the bytes.
#[derive(Clone, Copy)]
pub(crate) struct Entry<P> {
    pub store_idx: usize,
    pub hash: u64,
    pub payload: P,
}

/// The home slot of a hash in a table of `cap` slots.
pub(crate) open spec fn home(h: u64, cap: int) -> int {
    h as int % cap
}

/// Cyclic probe distance from slot `from` to slot `to`.
pub(crate) open spec fn dist(cap: int, from: int, to: int) -> int {
    if to >= from {
        to - from
    } else {
        to + cap - from
    }
}

/// The slot reached `d` probe steps after `from`, wrapping at `cap`.
pub(crate) open spec fn slot_at(cap: int, from: int, d: int) -> int {
    if from + d < cap {
        from + d
    } else {
        from + d - cap
    }
}

/// Probing from `from` reaches any slot `to` after exactly `dist` steps.
pub(crate) proof fn lemma_slot_at_dist(cap: int, from: int, to: int)
    requires
        0 <= from < cap,
        0 <= to < cap,
    ensures
        0 <= dist(cap, from, to) < cap,
        slot_at(cap, from, dist(cap, from, to)) == to,
{
}

/// Number of occupied slots among the first `k` of the table.
pub(crate) open spec fn occ_count(slots: Seq<Option<usize>>, k: int) -> int
    decreases k,
{
    if k <= 0 {
        0
    } else {
        occ_count(slots, k - 1) + if slots[k - 1] is Some {
            1int
        } else {
            0int
        }
    }
}

pub(crate) proof fn lemma_occ_count_bounds(slots: Seq<Option<usize>>, k: int)
    requires
        k >= 0,
    ensures
        0 <= occ_count(slots, k) <= k,
    decreases k,
{
    if k > 0 {
        lemma_occ_count_bounds(slots, k - 1);
    }
}

/// A fully occupied prefix has as many occupied slots as it is long.
pub(crate) proof fn lemma_occ_count_full(slots: Seq<Option<usize>>, k: int)
    requires
        k >= 0,
        forall|s: int| 0 <= s < k ==> slots[s] is Some,
    ensures
        occ_count(slots, k) == k,
    decreases k,
{
    if k > 0 {
        lemma_occ_count_full(slots, k - 1);
    }
}

/// An empty prefix has no occupied slots.
pub(crate) proof fn lemma_occ_count_none(slots: Seq<Option<usize>>, k: int)
    requires
        forall|s: int| 0 <= s < k ==> slots[s] is None,
    ensures
        occ_count(slots, k) == 0,
    decreases k,
{
    if k > 0 {
        lemma_occ_count_none(slots, k - 1);
    }
}

/// Filling one empty slot raises the occupied count by exactly one.
pub(crate) proof fn lemma_occ_count_update(slots: Seq<Option<usize>>, k: int, s: int, j: usize)
    requires
        0 <= s < slots.len(),
        slots[s] is None,
        k <= slots.len(),
    ensures
        occ_count(slots.update(s, Some(j)), k) == occ_count(slots, k) + if s < k {
            1int
        } else {
            0int
        },
    decreases k,
{
    if k > 0 {
        lemma_occ_count_update(slots, k - 1, s, j);
    }
}

/// The table is a sound open-addressing index for the first `n` entries:
/// every slot points at a placed entry, every placed entry `j` sits in its
/// recorded slot `slot_of[j]`, no slot is shared, and no probe path from an
/// entry's home slot to its resting slot crosses an empty slot.
pub(crate) open spec fn table_ok<P>(
    slots: Seq<Option<usize>>,
    entries: Seq<Entry<P>>,
    slot_of: Seq<usize>,
    n: int,
) -> bool {
    let cap = slots.len() as int;
    &&& slot_of.len() == n
    &&& n <= entries.len()
    &&& occ_count(slots, cap) == n
    &&& (forall|j: int|
        0 <= j < n ==> (#[trigger] slot_of[j]) < cap && slots[slot_of[j] as int] == Some(j as usize))
    &&& (forall|s: int|
        0 <= s < cap && (#[trigger] slots[s]) is Some ==> slots[s]->0 < n && slot_of[slots[s]->0 as int] as int
            == s)
    &&& (forall|j: int, d: int|
        0 <= j < n && 0 <= d < dist(cap, home(entries[j].hash, cap), slot_of[j] as int)
            ==> slots[#[trigger] slot_at(cap, home(entries[j].hash, cap), d)] is Some)
}

/// Finds the first empty slot on the probe path of `h`, together with the
/// ghost probe distance; every earlier slot on the path is occupied.
pub(crate) fn find_empty_slot(slots: &Vec<Option<usize>>, h: u64) -> (r: (usize, Ghost<int>))
    requires
        slots@.len() > 0,
        occ_count(slots@, slots@.len() as int) < slots@.len(),
    ensures
        r.0 < slots@.len(),
        slots@[r.0 as int] is None,
        0 <= r.1@ < slots@.len(),
        r.0 as int == slot_at(slots@.len() as int, home(h, slots@.len() as int), r.1@),
        forall|d: int|
            0 <= d < r.1@ ==> slots@[slot_at(slots@.len() as int, home(h, slots@.len() as int), d)] is Some,
{
    let cap = slots.len();
    let ghost capi = cap as int;
    let ghost hm = home(h, capi);
    let mut i: usize = (h % (cap as u64)) as usize;
    let mut steps: usize = 0;
    proof {
        assert(0 <= hm < capi);
        assert(i as int == hm);
    }
    while steps < cap
        invariant
            slots@.len() == cap,
            cap > 0,
            capi == cap as int,
            hm == home(h, capi),
            0 <= hm < capi,
            steps <= cap,
            i as int == slot_at(capi, hm, steps as int),
            occ_count(slots@, capi) < capi,
            forall|d: int| 0 <= d < steps ==> slots@[slot_at(capi, hm, d)] is Some,
        decreases cap - steps,
    {
        if slots[i].is_none() {
            return (i, Ghost(steps as int));
        }
        steps = steps + 1;
        i = if i + 1 == cap {
            0
        } else {
            i + 1
        };
    }
    proof {
        assert forall|s: int| 0 <= s < capi implies slots@[s] is Some by {
            lemma_slot_at_dist(capi, hm, s);
            assert(slots@[slot_at(capi, hm, dist(capi, hm, s))] is Some);
        }
        lemma_occ_count_full(slots@, capi);
        assert(false);
    }
    vstd::pervasive::unreached()
}

} // verus!
