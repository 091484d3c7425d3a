use vstd::prelude::*;

verus! {

use crate::hashing::{compute_hash, fresh_seed, hash_bytes};
use crate::index::{
    dist, find_empty_slot, home, lemma_occ_count_none, lemma_occ_count_update, lemma_slot_at_dist,
    slot_at, table_ok, Entry,
};
use crate::model::{
    contains_val, fold_if_new, fold_or_update, lemma_fold_if_new_prefix, lemma_fold_if_new_snoc, lemma_fold_if_new_vals,
    lemma_fold_or_update_snoc, lemma_fold_or_update_vals, lookup, pos_of, step_if_new,
    step_or_update, vals_after, view_wf, Batch, MapView, OutputType,
};
use crate::store::{array_seq, store_seq, FinishedArray, ValueStore};

/// The size, in number of slots, of the initial hash table.
pub const INITIAL_MAP_CAPACITY: usize = 512;

/// Estimated bookkeeping bytes per distinct entry (table slot, index entry,
/// payload), used by the approximate memory accounting of `size`.
pub const ENTRY_SIZE_ESTIMATE: usize = 64;

/// Upper bound on the number of distinct values (null included) a map can
/// hold; it keeps the table-growth arithmetic within machine limits.
pub const MAX_DISTINCT: usize = 0x1000_0000;

/// Upper bound on the length of one stored byte sequence, below the limits of
/// the byte-view output format.
pub const MAX_VALUE_LEN: usize = 0x4000_0000;

/// Addition that stops at `usize::MAX`, mirroring the saturating arithmetic
/// of the approximate memory accounting.
pub open spec fn sat_add_int(a: int, b: int) -> int {
    if a + b > usize::MAX {
        usize::MAX as int
    } else {
        a + b
    }
}

/// The saturating sum of the lengths of all stored byte sequences.
pub open spec fn bytes_sum(vals: Seq<Option<Seq<u8>>>) -> int
    decreases vals.len(),
{
    if vals.len() == 0 {
        0
    } else {
        sat_add_int(
            bytes_sum(vals.drop_last()),
            match vals.last() {
                Some(b) => b.len() as int,
                None => 0,
            },
        )
    }
}

pub proof fn lemma_bytes_sum_bounds(vals: Seq<Option<Seq<u8>>>)
    ensures
        0 <= bytes_sum(vals) <= usize::MAX,
    decreases vals.len(),
{
    if vals.len() > 0 {
        lemma_bytes_sum_bounds(vals.drop_last());
    }
}

/// Approximate byte size of a map in a given state: the stored content plus a
/// fixed estimate per distinct entry, saturating at `usize::MAX`.
pub open spec fn spec_size<P>(m: MapView<P>) -> int {
    sat_add_int(
        bytes_sum(m.vals),
        if m.vals.len() * ENTRY_SIZE_ESTIMATE > usize::MAX {
            usize::MAX as int
        } else {
            m.vals.len() * ENTRY_SIZE_ESTIMATE
        },
    )
}

/// Deduplicating map from byte sequences (plus the single null) to
/// caller-defined payloads, preserving first-seen order.
///
/// Distinct values live once in the `ValueStore`; the open-addressing table
/// `slots` holds, per occupied slot, an index into `entries`, and each entry
/// references its value by store position instead of holding bytes. `null`
/// carries the payload and store position of the one null entry, if any.
/// `hashes_buffer` is scratch reused across batches, and `bytes_total` backs
/// the approximate memory accounting.
pub struct ArrowBytesViewMap<P> {
    output_type: OutputType,
    slots: Vec<Option<usize>>,
    entries: Vec<Entry<P>>,
    store: ValueStore,
    null: Option<(P, usize)>,
    seed: u64,
    hashes_buffer: Vec<u64>,
    bytes_total: usize,
    slot_of: Ghost<Seq<usize>>,
}

impl<P: Copy> ArrowBytesViewMap<P> {
    spec fn vals(&self) -> Seq<Option<Seq<u8>>> {
        store_seq(self.store)
    }

    spec fn n_entries(&self) -> int {
        self.entries@.len() as int
    }

    /// The store position of the null entry, if any.
    spec fn null_pos(&self) -> int {
        (self.null->0).1 as int
    }

    /// How the value store, the entries and the null slot fit together.
    spec fn store_wf(&self) -> bool {
        let vals = self.vals();
        let n = self.n_entries();
        &&& (match self.null {
            Some(_) => {
                &&& self.null_pos() < vals.len()
                &&& vals.len() == n + 1
                &&& (forall|j: int|
                    0 <= j < n ==> (#[trigger] self.entries@[j].store_idx) as int == (if j
                        < self.null_pos() {
                        j
                    } else {
                        j + 1
                    }))
            },
            None => {
                &&& vals.len() == n
                &&& (forall|j: int|
                    0 <= j < n ==> (#[trigger] self.entries@[j].store_idx) as int == j)
            },
        })
        &&& (forall|p: int|
            0 <= p < vals.len() ==> (((#[trigger] vals[p]) is None) <==> (self.null is Some && p
                == self.null_pos())))
        &&& (forall|p: int, q: int| 0 <= p < q < vals.len() ==> vals[p] != vals[q])
        &&& (forall|j: int|
            0 <= j < n ==> (#[trigger] self.entries@[j].hash) == hash_bytes(
                self.seed,
                vals[self.entries@[j].store_idx as int]->0,
            ))
    }

    /// The internal invariant: a sound table over the entries, a consistent
    /// store, and exact byte accounting.
    pub closed spec fn wf(&self) -> bool {
        &&& self.store_wf()
        &&& self.slots@.len() > 0
        &&& self.slots@.len() <= 0x4000_0010
        &&& self.vals().len() <= MAX_DISTINCT
        &&& self.n_entries() < self.slots@.len()
        &&& table_ok(self.slots@, self.entries@, self.slot_of@, self.n_entries())
        &&& self.bytes_total as int == bytes_sum(self.vals())
    }

    /// The payload attached to store position `p`.
    spec fn pay_at(&self, p: int) -> P {
        match self.null {
            Some((pv, _)) => {
                if p == self.null_pos() {
                    pv
                } else if p < self.null_pos() {
                    self.entries@[p].payload
                } else {
                    self.entries@[p - 1].payload
                }
            },
            None => self.entries@[p].payload,
        }
    }

    /// Creates an empty map for batches of the given kind.
    pub fn new(output_type: OutputType) -> (r: Self)
        ensures
            r.wf(),
            (r@ == MapView::<P> {
                kind: output_type,
                vals: Seq::<Option<Seq<u8>>>::empty(),
                pays: Seq::<P>::empty(),
            }),
    {
        let mut slots: Vec<Option<usize>> = Vec::new();
        let mut k: usize = 0;
        while k < INITIAL_MAP_CAPACITY
            invariant
                slots@.len() == k,
                k <= INITIAL_MAP_CAPACITY,
                forall|s: int| 0 <= s < k ==> slots@[s] is None,
            decreases INITIAL_MAP_CAPACITY - k,
        {
            slots.push(None);
            k = k + 1;
        }
        let r = ArrowBytesViewMap {
            output_type,
            slots,
            entries: Vec::new(),
            store: ValueStore::new(),
            null: None,
            seed: fresh_seed(),
            hashes_buffer: Vec::new(),
            bytes_total: 0,
            slot_of: Ghost(Seq::empty()),
        };
        proof {
            lemma_occ_count_none(r.slots@, r.slots@.len() as int);
            assert(r@.pays =~= Seq::<P>::empty());
            assert(r@ =~= MapView::<P> {
                kind: output_type,
                vals: Seq::<Option<Seq<u8>>>::empty(),
                pays: Seq::<P>::empty(),
            });
        }
        r
    }

    /// Returns the map's contents and leaves behind a fresh empty map of the
    /// same kind, so the map can be reset without losing its configuration.
    pub fn take(&mut self) -> (r: Self)
        requires
            old(self).wf(),
        ensures
            r.wf(),
            final(self).wf(),
            r@ == old(self)@,
            (final(self)@ == MapView::<P> {
                kind: old(self)@.kind,
                vals: Seq::<Option<Seq<u8>>>::empty(),
                pays: Seq::<P>::empty(),
            }),
    {
        let mut other = Self::new(self.output_type);
        core::mem::swap(self, &mut other);
        other
    }

    /// The kind of data this map was configured for at construction.
    pub fn output_type(&self) -> (r: OutputType)
        ensures
            r == self@.kind,
    {
        self.output_type
    }

    /// Total number of distinct entries, the null entry included.
    pub fn len(&self) -> (r: usize)
        requires
            self.wf(),
        ensures
            r == self@.vals.len(),
    {
        self.entries.len() + if self.null.is_some() {
            1
        } else {
            0
        }
    }

    /// Whether nothing has been inserted yet.
    pub fn is_empty(&self) -> (r: bool)
        requires
            self.wf(),
        ensures
            r == (self@.vals.len() == 0),
    {
        self.entries.len() == 0 && self.null.is_none()
    }

    /// Number of distinct non-null entries.
    pub fn non_null_len(&self) -> (r: usize)
        requires
            self.wf(),
        ensures
            r as int == self@.vals.len() - (if contains_val(self@.vals, None) {
                1int
            } else {
                0int
            }),
    {
        proof {
            if self.null is Some {
                assert(self.vals()[self.null_pos()] is None);
                assert(contains_val(self@.vals, None));
            } else {
                if contains_val(self@.vals, None) {
                    let p = choose|p: int|
                        0 <= p < self.vals().len() && self.vals()[p] == None::<Seq<u8>>;
                    assert(self.vals()[p] is None);
                    assert(false);
                }
            }
        }
        self.entries.len()
    }

    /// Approximate number of bytes used by the map's contents: stored bytes
    /// plus a fixed estimate per distinct entry. A budgeting figure, not a
    /// precise allocation count.
    pub fn size(&self) -> (r: usize)
        requires
            self.wf(),
        ensures
            r as int == spec_size(self@),
    {
        let n = self.len();
        let entries_part = if n > usize::MAX / ENTRY_SIZE_ESTIMATE {
            usize::MAX
        } else {
            n * ENTRY_SIZE_ESTIMATE
        };
        self.bytes_total.saturating_add(entries_part)
    }

    /// Finalizes the map into the output collection holding every distinct
    /// value, in first-seen order, reusing the stored bytes. Consumes the map;
    /// the payloads are discarded with it.
    pub fn into_state(self) -> (r: FinishedArray)
        ensures
            array_seq(r) == self@.vals,
    {
        let ArrowBytesViewMap { store, .. } = self;
        store.finish()
    }
}

impl<P: Copy> ArrowBytesViewMap<P> {
    /// The slot holds an entry whose stored bytes are not `v`.
    spec fn slot_mismatch(&self, s: int, v: Seq<u8>) -> bool {
        &&& self.slots@[s] is Some
        &&& self.vals()[self.entries@[self.slots@[s]->0 as int].store_idx as int] != Some(v)
    }

    /// Every entry references a live, non-null store position.
    proof fn lemma_entry_valid(&self, j: int)
        requires
            self.store_wf(),
            0 <= j < self.n_entries(),
        ensures
            self.entries@[j].store_idx < self.vals().len(),
            self.vals()[self.entries@[j].store_idx as int] is Some,
    {
        let sidx = self.entries@[j].store_idx as int;
        match self.null {
            Some(_) => {
                assert(sidx != self.null_pos());
            },
            None => {},
        }
    }

    /// Every non-null store position is referenced by an entry.
    proof fn lemma_pos_has_entry(&self, p: int)
        requires
            self.store_wf(),
            0 <= p < self.vals().len(),
            self.vals()[p] is Some,
        ensures
            exists|j: int|
                0 <= j < self.n_entries() && (#[trigger] self.entries@[j].store_idx) as int == p,
    {
        match self.null {
            Some(_) => {
                let np = self.null_pos();
                assert(p != np);
                if p < np {
                    assert(self.entries@[p].store_idx as int == p);
                } else {
                    assert(self.entries@[p - 1].store_idx as int == p);
                }
            },
            None => {
                assert(self.entries@[p].store_idx as int == p);
            },
        }
    }

    /// The payload the view attaches to entry `j`'s store position is the
    /// entry's own payload, and looking its value up finds exactly it.
    proof fn lemma_found_payload(&self, j: int)
        requires
            self.wf(),
            0 <= j < self.n_entries(),
        ensures
            contains_val(self@.vals, self.vals()[self.entries@[j].store_idx as int]),
            pos_of(self@.vals, self.vals()[self.entries@[j].store_idx as int])
                == self.entries@[j].store_idx as int,
            lookup(self@, self.vals()[self.entries@[j].store_idx as int])
                == Some(self.entries@[j].payload),
    {
        let sidx = self.entries@[j].store_idx as int;
        let v = self.vals()[sidx];
        self.lemma_entry_valid(j);
        assert(contains_val(self@.vals, v));
        let p = pos_of(self@.vals, v);
        assert(0 <= p < self.vals().len() && self.vals()[p] == v);
        assert(p == sidx);
        assert(self@.pays[sidx] == self.pay_at(sidx));
        match self.null {
            Some(_) => {
                let np = self.null_pos();
                assert(sidx != np);
                if sidx < np {
                    assert(self.entries@[sidx].store_idx as int == sidx);
                    assert(self.pay_at(sidx) == self.entries@[sidx].payload);
                    assert(j == sidx);
                } else {
                    assert(self.entries@[sidx - 1].store_idx as int == sidx);
                    assert(j == sidx - 1);
                }
            },
            None => {
                assert(j == sidx);
            },
        }
    }

    /// Looking up null finds the null entry's payload.
    proof fn lemma_null_lookup(&self)
        requires
            self.wf(),
            self.null is Some,
        ensures
            contains_val(self@.vals, None),
            pos_of(self@.vals, None) == self.null_pos(),
            lookup(self@, None) == Some((self.null->0).0),
    {
        let np = self.null_pos();
        assert(self.vals()[np] is None);
        assert(contains_val(self@.vals, None));
        let p = pos_of(self@.vals, None);
        assert(0 <= p < self.vals().len() && self.vals()[p] == None::<Seq<u8>>);
        assert(p == np);
        assert(self@.pays[np] == self.pay_at(np));
    }

    /// A well-formed map always has a well-formed view.
    proof fn lemma_wf_implies_view_wf(&self)
        requires
            self.wf(),
        ensures
            view_wf(self@),
    {
    }

    /// Probes the table for an entry holding exactly `value`. `None` means the
    /// value has never been inserted.
    fn find_entry(&self, h: u64, value: &[u8]) -> (r: Option<usize>)
        requires
            self.wf(),
            h == hash_bytes(self.seed, value@),
        ensures
            match r {
                Some(j) => {
                    &&& (j as int) < self.n_entries()
                    &&& self.entries@[j as int].store_idx < self@.vals.len()
                    &&& self@.vals[self.entries@[j as int].store_idx as int] == Some(value@)
                    &&& contains_val(self@.vals, Some(value@))
                    &&& pos_of(self@.vals, Some(value@)) == self.entries@[j as int].store_idx as int
                    &&& lookup(self@, Some(value@)) == Some(self.entries@[j as int].payload)
                },
                None => !contains_val(self@.vals, Some(value@)),
            },
    {
        let cap = self.slots.len();
        let ghost capi = cap as int;
        let ghost hm = home(h, capi);
        let mut i: usize = (h % (cap as u64)) as usize;
        let mut steps: usize = 0;
        while steps < cap
            invariant
                self.wf(),
                h == hash_bytes(self.seed, value@),
                cap == self.slots@.len(),
                capi == cap as int,
                hm == home(h, capi),
                0 <= hm < capi,
                steps <= cap,
                i as int == slot_at(capi, hm, steps as int),
                forall|d: int| 0 <= d < steps ==> self.slot_mismatch(slot_at(capi, hm, d), value@),
            decreases cap - steps,
        {
            match self.slots[i] {
                None => {
                    proof {
                        self.lemma_probe_failed(h, value@, hm, steps as int, capi);
                    }
                    return None;
                },
                Some(j) => {
                    proof {
                        assert(self.slots@[i as int] is Some);
                        assert((j as int) < self.n_entries());
                    }
                    if self.entries[j].hash == h {
                        let sidx = self.entries[j].store_idx;
                        proof {
                            self.lemma_entry_valid(j as int);
                        }
                        let stored = self.store.get(sidx);
                        if bytes_eq(stored, value) {
                            proof {
                                self.lemma_found_payload(j as int);
                            }
                            return Some(j);
                        }
                        proof {
                            assert(self.vals()[sidx as int] != Some(value@));
                            assert(self.slot_mismatch(i as int, value@));
                        }
                    } else {
                        proof {
                            let sidx = self.entries@[j as int].store_idx as int;
                            self.lemma_entry_valid(j as int);
                            if self.vals()[sidx] == Some(value@) {
                                assert(self.entries@[j as int].hash == hash_bytes(
                                    self.seed,
                                    value@,
                                ));
                                assert(false);
                            }
                            assert(self.slot_mismatch(i as int, value@));
                        }
                    }
                    proof {
                        assert(slot_at(capi, hm, steps as int) == i as int);
                    }
                    steps = steps + 1;
                    i = if i + 1 == cap {
                        0
                    } else {
                        i + 1
                    };
                },
            }
        }
        proof {
            self.lemma_probe_failed(h, value@, hm, cap as int, capi);
        }
        None
    }

    /// After probing `steps` slots from `h`'s home without a match, and with
    /// the next slot empty (or every slot probed), the value is absent.
    proof fn lemma_probe_failed(&self, h: u64, v: Seq<u8>, hm: int, steps: int, capi: int)
        requires
            self.wf(),
            h == hash_bytes(self.seed, v),
            capi == self.slots@.len() as int,
            hm == home(h, capi),
            0 <= hm < capi,
            0 <= steps <= capi,
            forall|d: int| 0 <= d < steps ==> self.slot_mismatch(slot_at(capi, hm, d), v),
            steps < capi ==> self.slots@[slot_at(capi, hm, steps)] is None,
        ensures
            !contains_val(self@.vals, Some(v)),
    {
        if contains_val(self.vals(), Some(v)) {
            let p = choose|p: int| 0 <= p < self.vals().len() && self.vals()[p] == Some(v);
            self.lemma_pos_has_entry(p);
            let j = choose|j: int|
                0 <= j < self.n_entries() && (#[trigger] self.entries@[j].store_idx) as int == p;
            assert(self.entries@[j].hash == hash_bytes(self.seed, v));
            assert(home(self.entries@[j].hash, capi) == hm);
            let sj = self.slot_of@[j] as int;
            assert(self.slots@[sj] == Some(j as usize));
            lemma_slot_at_dist(capi, hm, sj);
            let dj = dist(capi, hm, sj);
            if dj < steps {
                assert(self.slot_mismatch(slot_at(capi, hm, dj), v));
                assert(slot_at(capi, hm, dj) == sj);
                assert(self.slots@[sj]->0 == j as usize);
                assert(self.vals()[self.entries@[j].store_idx as int] != Some(v));
                assert(false);
            } else if dj == steps {
                assert(self.slots@[slot_at(capi, hm, steps)] is None);
                assert(false);
            } else {
                assert(self.slots@[slot_at(capi, hm, steps)] is Some);
                assert(false);
            }
        }
    }
}

/// Placing entry `m` into the empty slot that probing found keeps the table
/// sound: every earlier slot on `m`'s probe path is occupied, so no probe for
/// an existing entry ever crosses a new hole.
proof fn lemma_table_insert<P>(
    old_slots: Seq<Option<usize>>,
    new_slots: Seq<Option<usize>>,
    entries: Seq<Entry<P>>,
    old_sof: Seq<usize>,
    m: usize,
    s: usize,
    d: int,
)
    requires
        table_ok(old_slots, entries, old_sof, m as int),
        (m as int) < entries.len(),
        (s as int) < old_slots.len(),
        old_slots[s as int] is None,
        new_slots == old_slots.update(s as int, Some(m)),
        0 <= d < old_slots.len(),
        s as int == slot_at(
            old_slots.len() as int,
            home(entries[m as int].hash, old_slots.len() as int),
            d,
        ),
        forall|d2: int|
            0 <= d2 < d ==> old_slots[slot_at(
                old_slots.len() as int,
                home(entries[m as int].hash, old_slots.len() as int),
                d2,
            )] is Some,
    ensures
        table_ok(new_slots, entries, old_sof.push(s), m + 1),
{
    let cap = old_slots.len() as int;
    let m = m as int;
    let s = s as int;
    let sof = old_sof.push(s as usize);
    let hm = home(entries[m].hash, cap);
    lemma_occ_count_update(old_slots, cap, s, m as usize);
    assert forall|j: int|
        0 <= j < m + 1 implies (#[trigger] sof[j]) < cap && new_slots[sof[j] as int] == Some(
        j as usize,
    ) by {
        if j < m {
            assert(old_slots[old_sof[j] as int] == Some(j as usize));
            assert(old_sof[j] as int != s);
        }
    }
    assert forall|s2: int|
        0 <= s2 < cap && (#[trigger] new_slots[s2]) is Some implies new_slots[s2]->0 < m + 1
        && sof[new_slots[s2]->0 as int] as int == s2 by {
        if s2 != s {
            assert(old_slots[s2] is Some);
            assert(old_slots[s2]->0 < m);
        }
    }
    assert(dist(cap, hm, s) == d);
    assert forall|j: int, d2: int|
        0 <= j < m + 1 && 0 <= d2 < dist(cap, home(entries[j].hash, cap), sof[j] as int)
        implies new_slots[#[trigger] slot_at(cap, home(entries[j].hash, cap), d2)] is Some by {
        if j < m {
            assert(sof[j] == old_sof[j]);
            assert(old_slots[slot_at(cap, home(entries[j].hash, cap), d2)] is Some);
        } else {
            assert(sof[j] as int == s);
            assert(old_slots[slot_at(cap, hm, d2)] is Some);
        }
    }
}

impl<P: Copy> ArrowBytesViewMap<P> {
    /// Rebuilds the table with room for at least twice the entries, re-placing
    /// every entry along its probe path. The map's contents do not change.
    fn grow(&mut self)
        requires
            old(self).wf(),
            old(self).n_entries() < MAX_DISTINCT,
        ensures
            final(self).wf(),
            final(self)@ == old(self)@,
            final(self).seed == old(self).seed,
            final(self).hashes_buffer == old(self).hashes_buffer,
            final(self).entries == old(self).entries,
            final(self).null == old(self).null,
            final(self).slots@.len() >= 2 * (final(self).n_entries() + 1),
    {
        let n = self.entries.len();
        let new_cap = 4 * (n + 1);
        let mut new_slots: Vec<Option<usize>> = Vec::new();
        let mut k: usize = 0;
        while k < new_cap
            invariant
                new_slots@.len() == k,
                k <= new_cap,
                forall|s: int| 0 <= s < k ==> new_slots@[s] is None,
            decreases new_cap - k,
        {
            new_slots.push(None);
            k = k + 1;
        }
        proof {
            lemma_occ_count_none(new_slots@, new_slots@.len() as int);
        }
        let ghost mut new_sof: Seq<usize> = Seq::empty();
        let mut j: usize = 0;
        while j < self.entries.len()
            invariant
                self == old(self),
                old(self).wf(),
                n == self.entries@.len(),
                j <= n,
                new_slots@.len() == new_cap,
                new_cap == 4 * (n + 1),
                n < MAX_DISTINCT,
                table_ok(new_slots@, self.entries@, new_sof, j as int),
            decreases n - j,
        {
            let h = self.entries[j].hash;
            proof {
                crate::index::lemma_occ_count_bounds(new_slots@, new_slots@.len() as int);
            }
            let (s, Ghost(d)) = find_empty_slot(&new_slots, h);
            let ghost before = new_slots@;
            new_slots.set(s, Some(j));
            proof {
                lemma_table_insert(before, new_slots@, self.entries@, new_sof, j, s, d);
                new_sof = new_sof.push(s);
            }
            j = j + 1;
        }
        self.slots = new_slots;
        self.slot_of = Ghost(new_sof);
        proof {
            assert(self@.pays =~= old(self)@.pays);
            assert(self@ =~= old(self)@);
        }
    }

    /// Appends a never-seen non-null value with its payload: one new store
    /// position, one new entry, one newly occupied slot.
    fn insert_new_value(&mut self, value: &[u8], h: u64, payload: P)
        requires
            old(self).wf(),
            h == hash_bytes(old(self).seed, value@),
            !contains_val(old(self)@.vals, Some(value@)),
            old(self)@.vals.len() < MAX_DISTINCT,
            value@.len() < MAX_VALUE_LEN,
        ensures
            final(self).wf(),
            (final(self)@ == MapView::<P> {
                kind: old(self)@.kind,
                vals: old(self)@.vals.push(Some(value@)),
                pays: old(self)@.pays.push(payload),
            }),
            final(self).seed == old(self).seed,
            final(self).hashes_buffer == old(self).hashes_buffer,
    {
        if 2 * (self.entries.len() + 1) > self.slots.len() {
            self.grow();
        }
        let ghost pre = *self;
        let j_new = self.entries.len();
        let (s, Ghost(d)) = find_empty_slot(&self.slots, h);
        let sidx = self.store.len();
        self.store.append_value(value);
        self.entries.push(Entry { store_idx: sidx, hash: h, payload });
        let ghost mid_slots = self.slots@;
        self.slots.set(s, Some(j_new));
        self.slot_of = Ghost(pre.slot_of@.push(s));
        self.bytes_total = self.bytes_total.saturating_add(value.len());
        proof {
            let n = pre.n_entries();
            let vals = pre.vals();
            let vals2 = self.vals();
            assert(vals2 == vals.push(Some(value@)));
            // the table stays sound with the new entry placed in the found slot
            assert(table_ok(mid_slots, self.entries@, pre.slot_of@, n));
            lemma_table_insert(mid_slots, self.slots@, self.entries@, pre.slot_of@, j_new, s, d);
            // no stored value equals the new one
            assert forall|p: int| 0 <= p < vals.len() implies vals[p] != Some(value@) by {
                if vals[p] == Some(value@) {
                    assert(contains_val(vals, Some(value@)));
                }
            }
            // store shape: the new entry sits one past the old end
            match self.null {
                Some(_) => {
                    assert(self.null_pos() <= n);
                    assert(self.entries@[n].store_idx as int == n + 1);
                },
                None => {},
            }
            // byte accounting
            lemma_bytes_sum_bounds(vals);
            assert(vals2.drop_last() =~= vals);
            assert(bytes_sum(vals2) == sat_add_int(bytes_sum(vals), value@.len() as int));
            // the view gains exactly one pair
            assert forall|p: int| 0 <= p < vals.len() implies self.pay_at(p) == pre.pay_at(p) by {}
            assert(self@.pays =~= pre@.pays.push(payload));
            assert(self@ =~= (MapView::<P> {
                kind: pre@.kind,
                vals: pre@.vals.push(Some(value@)),
                pays: pre@.pays.push(payload),
            }));
            assert(pre@ == old(self)@);
        }
    }

    /// First null of the map's lifetime: appends the null placeholder and
    /// creates the null entry with its payload.
    fn insert_new_null(&mut self, payload: P)
        requires
            old(self).wf(),
            old(self).null is None,
            old(self)@.vals.len() < MAX_DISTINCT,
        ensures
            final(self).wf(),
            final(self).null is Some,
            (final(self)@ == MapView::<P> {
                kind: old(self)@.kind,
                vals: old(self)@.vals.push(None),
                pays: old(self)@.pays.push(payload),
            }),
            final(self).seed == old(self).seed,
            final(self).hashes_buffer == old(self).hashes_buffer,
    {
        let ghost pre = *self;
        let idx = self.store.len();
        self.store.append_null();
        self.null = Some((payload, idx));
        proof {
            let n = pre.n_entries();
            let vals = pre.vals();
            let vals2 = self.vals();
            assert(vals2 == vals.push(None::<Seq<u8>>));
            assert(self.null_pos() == n);
            assert forall|p: int| 0 <= p < vals.len() implies vals[p] != None::<Seq<u8>> by {
                assert(!(pre.null is Some));
            }
            lemma_bytes_sum_bounds(vals);
            assert(vals2.drop_last() =~= vals);
            assert(bytes_sum(vals2) == bytes_sum(vals));
            assert forall|p: int| 0 <= p < vals.len() implies self.pay_at(p) == pre.pay_at(p) by {}
            assert(self@.pays =~= pre@.pays.push(payload));
            assert(self@ =~= (MapView::<P> {
                kind: pre@.kind,
                vals: pre@.vals.push(None),
                pays: pre@.pays.push(payload),
            }));
        }
    }

    /// Replaces the payload of entry `j`, in place.
    fn update_entry_payload(&mut self, j: usize, x: P)
        requires
            old(self).wf(),
            (j as int) < old(self).n_entries(),
        ensures
            final(self).wf(),
            (final(self)@ == MapView::<P> {
                kind: old(self)@.kind,
                vals: old(self)@.vals,
                pays: old(self)@.pays.update(
                    old(self).entries@[j as int].store_idx as int,
                    x,
                ),
            }),
            final(self).seed == old(self).seed,
            final(self).hashes_buffer == old(self).hashes_buffer,
    {
        let ghost pre = *self;
        let mut e = self.entries[j];
        e.payload = x;
        self.entries.set(j, e);
        proof {
            let n = pre.n_entries();
            let sidx = pre.entries@[j as int].store_idx as int;
            pre.lemma_entry_valid(j as int);
            assert forall|j2: int|
                0 <= j2 < n implies (#[trigger] self.entries@[j2]).store_idx
                == pre.entries@[j2].store_idx && self.entries@[j2].hash == pre.entries@[j2].hash by {}
            assert(table_ok(self.slots@, self.entries@, self.slot_of@, n)) by {
                assert forall|j2: int, d2: int|
                    0 <= j2 < n && 0 <= d2 < dist(
                        self.slots@.len() as int,
                        home(self.entries@[j2].hash, self.slots@.len() as int),
                        self.slot_of@[j2] as int,
                    ) implies self.slots@[#[trigger] slot_at(
                    self.slots@.len() as int,
                    home(self.entries@[j2].hash, self.slots@.len() as int),
                    d2,
                )] is Some by {
                    assert(self.entries@[j2].hash == pre.entries@[j2].hash);
                    assert(self.slots@[slot_at(
                        self.slots@.len() as int,
                        home(pre.entries@[j2].hash, self.slots@.len() as int),
                        d2,
                    )] is Some);
                }
            }
            assert forall|p: int|
                0 <= p < self.vals().len() && p != sidx implies self.pay_at(p) == pre.pay_at(
                p,
            ) by {}
            assert(self.pay_at(sidx) == x) by {
                match pre.null {
                    Some(_) => {
                        let np = pre.null_pos();
                        if sidx < np {
                            assert(j as int == sidx);
                        } else {
                            assert(j as int == sidx - 1);
                        }
                    },
                    None => {
                        assert(j as int == sidx);
                    },
                }
            }
            assert(self@.pays =~= pre@.pays.update(sidx, x));
            assert(self@ =~= (MapView::<P> {
                kind: pre@.kind,
                vals: pre@.vals,
                pays: pre@.pays.update(sidx, x),
            }));
        }
    }

    /// Replaces the null entry's payload, in place.
    fn set_null_payload(&mut self, x: P)
        requires
            old(self).wf(),
            old(self).null is Some,
        ensures
            final(self).wf(),
            final(self).null is Some,
            (final(self)@ == MapView::<P> {
                kind: old(self)@.kind,
                vals: old(self)@.vals,
                pays: old(self)@.pays.update(old(self).null_pos(), x),
            }),
            final(self).seed == old(self).seed,
            final(self).hashes_buffer == old(self).hashes_buffer,
    {
        let ghost pre = *self;
        if let Some((_, idx)) = self.null {
            self.null = Some((x, idx));
        }
        proof {
            let np = pre.null_pos();
            assert(self.null_pos() == np);
            assert forall|p: int|
                0 <= p < self.vals().len() && p != np implies self.pay_at(p) == pre.pay_at(p) by {}
            assert(self.pay_at(np) == x);
            assert(self@.pays =~= pre@.pays.update(np, x));
            assert(self@ =~= (MapView::<P> {
                kind: pre@.kind,
                vals: pre@.vals,
                pays: pre@.pays.update(np, x),
            }));
        }
    }
}

/// The caller-supplied payload strategy: how payloads are created for new
/// values, observed for present ones, and updated in place. The map never
/// interprets payloads; it promises to invoke exactly one of these per input
/// position, in input order.
pub trait PayloadOps<P> {
    /// Builds the payload of a value seen for the first time (`None` stands
    /// for the null value).
    fn make_payload(&mut self, value: Option<&[u8]>) -> P;

    /// Sees the payload of a value that is already present (insert-if-new).
    fn observe_payload(&mut self, payload: P);

    /// Reworks, in place, the payload of a value that is already present
    /// (insert-or-update).
    fn update_payload(&mut self, payload: &mut P);
}

impl<P: Copy> ArrowBytesViewMap<P> {
    /// Clears the reused scratch buffer and fills it with the seeded hash of
    /// every non-null batch position; the buffer keeps its allocation across
    /// batches.
    fn fill_hashes(&mut self, values: &Batch)
        requires
            old(self).wf(),
        ensures
            final(self).wf(),
            final(self)@ == old(self)@,
            final(self).seed == old(self).seed,
            final(self).hashes_buffer@.len() == values@.len(),
            forall|k: int|
                0 <= k < values@.len() && (#[trigger] values@[k]) is Some
                    ==> final(self).hashes_buffer@[k] == hash_bytes(
                    final(self).seed,
                    values@[k]->0,
                ),
    {
        self.hashes_buffer.clear();
        let n = values.values.len();
        let mut k: usize = 0;
        while k < n
            invariant
                self.wf(),
                self@ == old(self)@,
                self.seed == old(self).seed,
                n == values.values@.len(),
                n == values@.len(),
                k <= n,
                self.hashes_buffer@.len() == k,
                forall|t: int|
                    0 <= t < k && (#[trigger] values@[t]) is Some ==> self.hashes_buffer@[t]
                        == hash_bytes(self.seed, values@[t]->0),
            decreases n - k,
        {
            proof {
                assert(values@[k as int] == values.values@[k as int].deep_view());
            }
            let h = match &values.values[k] {
                Some(v) => {
                    proof {
                        assert(v.deep_view() =~= v@);
                    }
                    compute_hash(self.seed, v.as_slice())
                },
                None => 0,
            };
            self.hashes_buffer.push(h);
            k = k + 1;
        }
    }

    /// Inserts each value of `values` in input order. An unseen value (and
    /// the first null) gets the payload `make_payload` builds for it; a value
    /// already present keeps its payload, which is reported to
    /// `observe_payload`. Exactly one of the two runs per position.
    ///
    /// The distinct values after the call are exactly the old ones followed by
    /// the batch's unseen values, in first-seen order, and no already-stored
    /// payload changes.
    pub fn insert_if_new<Ops: PayloadOps<P>>(&mut self, values: &Batch, ops: &mut Ops)
        requires
            old(self).wf(),
            values.output_type == old(self)@.kind,
            old(self)@.vals.len() + values@.len() <= MAX_DISTINCT,
            forall|k: int|
                0 <= k < values@.len() && (#[trigger] values@[k]) is Some ==> values@[k]->0.len()
                    < MAX_VALUE_LEN,
        ensures
            final(self).wf(),
            view_wf(final(self)@),
            final(self)@.kind == old(self)@.kind,
            final(self)@.vals == vals_after(old(self)@.vals, values@),
            forall|p: int|
                0 <= p < old(self)@.vals.len() ==> final(self)@.pays[p] == old(self)@.pays[p],
            exists|out: Seq<P>|
                out.len() == values@.len() && final(self)@ == #[trigger] fold_if_new(
                    old(self)@,
                    values@,
                    out,
                ),
    {
        let ghost m0 = self@;
        self.fill_hashes(values);
        let ghost mut outs: Seq<P> = Seq::empty();
        let n_vals = values.values.len();
        let mut i: usize = 0;
        while i < n_vals
            invariant
                self.wf(),
                n_vals == values@.len(),
                n_vals == values.values@.len(),
                i <= n_vals,
                outs.len() == i,
                self@ == fold_if_new(m0, values@.take(i as int), outs),
                self@.vals.len() <= m0.vals.len() + i,
                m0.vals.len() + values@.len() <= MAX_DISTINCT,
                forall|k: int|
                    0 <= k < values@.len() && (#[trigger] values@[k]) is Some
                        ==> values@[k]->0.len() < MAX_VALUE_LEN,
                self.hashes_buffer@.len() == values@.len(),
                forall|k: int|
                    0 <= k < values@.len() && (#[trigger] values@[k]) is Some
                        ==> self.hashes_buffer@[k] == hash_bytes(self.seed, values@[k]->0),
            decreases n_vals - i,
        {
            let ghost mpre = self@;
            let ghost vk = values@[i as int];
            proof {
                assert(values@[i as int] == values.values@[i as int].deep_view());
            }
            let p: P = match &values.values[i] {
                None => {
                    proof {
                        assert(vk is None);
                    }
                    match self.null {
                        Some((p0, _)) => {
                            proof {
                                self.lemma_null_lookup();
                                assert(contains_val(mpre.vals, vk));
                                assert(self@ == step_if_new(mpre, vk, p0));
                            }
                            ops.observe_payload(p0);
                            p0
                        },
                        None => {
                            proof {
                                if contains_val(self@.vals, None) {
                                    let q = choose|q: int|
                                        0 <= q < self.vals().len() && self.vals()[q]
                                            == None::<Seq<u8>>;
                                    assert(self.vals()[q] is None);
                                    assert(false);
                                }
                            }
                            let p0 = ops.make_payload(None);
                            self.insert_new_null(p0);
                            proof {
                                assert(self@ == step_if_new(mpre, vk, p0));
                            }
                            p0
                        },
                    }
                },
                Some(v) => {
                    proof {
                        assert(values.values@[i as int] == Some(*v));
                        assert(v.deep_view() =~= v@);
                        assert(vk == Some(v@));
                    }
                    let h = self.hashes_buffer[i];
                    match self.find_entry(h, v.as_slice()) {
                        Some(j) => {
                            let p0 = self.entries[j].payload;
                            proof {
                                assert(contains_val(mpre.vals, vk));
                                assert(self@ == step_if_new(mpre, vk, p0));
                            }
                            ops.observe_payload(p0);
                            p0
                        },
                        None => {
                            let p0 = ops.make_payload(Some(v.as_slice()));
                            self.insert_new_value(v.as_slice(), h, p0);
                            proof {
                                assert(self@ == step_if_new(mpre, vk, p0));
                            }
                            p0
                        },
                    }
                },
            };
            proof {
                lemma_fold_if_new_snoc(m0, values@.take(i as int), outs, vk, p);
                outs = outs.push(p);
                assert(values@.take(i + 1) =~= values@.take(i as int).push(vk));
                assert(self@ == fold_if_new(m0, values@.take(i + 1), outs));
            }
            i = i + 1;
        }
        proof {
            assert(values@.take(n_vals as int) =~= values@);
            assert(self@ == fold_if_new(m0, values@, outs));
            self.lemma_wf_implies_view_wf();
            lemma_fold_if_new_vals(m0, values@, outs);
            lemma_fold_if_new_prefix(m0, values@, outs);
        }
    }

    /// Inserts each value of `values` in input order. An unseen value (and
    /// the first null) gets the payload `make_payload` builds for it; a value
    /// already present has its payload reworked in place by `update_payload`.
    /// Exactly one of the two runs per position. This is the only operation
    /// that changes a payload after its creation.
    pub fn insert_or_update<Ops: PayloadOps<P>>(&mut self, values: &Batch, ops: &mut Ops)
        requires
            old(self).wf(),
            values.output_type == old(self)@.kind,
            old(self)@.vals.len() + values@.len() <= MAX_DISTINCT,
            forall|k: int|
                0 <= k < values@.len() && (#[trigger] values@[k]) is Some ==> values@[k]->0.len()
                    < MAX_VALUE_LEN,
        ensures
            final(self).wf(),
            view_wf(final(self)@),
            final(self)@.kind == old(self)@.kind,
            final(self)@.vals == vals_after(old(self)@.vals, values@),
            exists|out: Seq<P>|
                out.len() == values@.len() && final(self)@ == #[trigger] fold_or_update(
                    old(self)@,
                    values@,
                    out,
                ),
    {
        let ghost m0 = self@;
        self.fill_hashes(values);
        let ghost mut outs: Seq<P> = Seq::empty();
        let n_vals = values.values.len();
        let mut i: usize = 0;
        while i < n_vals
            invariant
                self.wf(),
                n_vals == values@.len(),
                n_vals == values.values@.len(),
                i <= n_vals,
                outs.len() == i,
                self@ == fold_or_update(m0, values@.take(i as int), outs),
                self@.vals.len() <= m0.vals.len() + i,
                m0.vals.len() + values@.len() <= MAX_DISTINCT,
                forall|k: int|
                    0 <= k < values@.len() && (#[trigger] values@[k]) is Some
                        ==> values@[k]->0.len() < MAX_VALUE_LEN,
                self.hashes_buffer@.len() == values@.len(),
                forall|k: int|
                    0 <= k < values@.len() && (#[trigger] values@[k]) is Some
                        ==> self.hashes_buffer@[k] == hash_bytes(self.seed, values@[k]->0),
            decreases n_vals - i,
        {
            let ghost mpre = self@;
            let ghost vk = values@[i as int];
            proof {
                assert(values@[i as int] == values.values@[i as int].deep_view());
            }
            let p: P = match &values.values[i] {
                None => {
                    proof {
                        assert(vk is None);
                    }
                    match self.null {
                        Some((p0, _)) => {
                            proof {
                                self.lemma_null_lookup();
                                assert(contains_val(mpre.vals, vk));
                            }
                            let mut pl = p0;
                            ops.update_payload(&mut pl);
                            self.set_null_payload(pl);
                            proof {
                                assert(self@ == step_or_update(mpre, vk, pl));
                            }
                            pl
                        },
                        None => {
                            proof {
                                if contains_val(self@.vals, None) {
                                    let q = choose|q: int|
                                        0 <= q < self.vals().len() && self.vals()[q]
                                            == None::<Seq<u8>>;
                                    assert(self.vals()[q] is None);
                                    assert(false);
                                }
                            }
                            let p0 = ops.make_payload(None);
                            self.insert_new_null(p0);
                            proof {
                                assert(self@ == step_or_update(mpre, vk, p0));
                            }
                            p0
                        },
                    }
                },
                Some(v) => {
                    proof {
                        assert(values.values@[i as int] == Some(*v));
                        assert(v.deep_view() =~= v@);
                        assert(vk == Some(v@));
                    }
                    let h = self.hashes_buffer[i];
                    match self.find_entry(h, v.as_slice()) {
                        Some(j) => {
                            let mut pl = self.entries[j].payload;
                            ops.update_payload(&mut pl);
                            proof {
                                assert(contains_val(mpre.vals, vk));
                                assert(pos_of(mpre.vals, vk) == self.entries@[j as int].store_idx);
                            }
                            self.update_entry_payload(j, pl);
                            proof {
                                assert(self@ == step_or_update(mpre, vk, pl));
                            }
                            pl
                        },
                        None => {
                            let p0 = ops.make_payload(Some(v.as_slice()));
                            self.insert_new_value(v.as_slice(), h, p0);
                            proof {
                                assert(self@ == step_or_update(mpre, vk, p0));
                            }
                            p0
                        },
                    }
                },
            };
            proof {
                lemma_fold_or_update_snoc(m0, values@.take(i as int), outs, vk, p);
                outs = outs.push(p);
                assert(values@.take(i + 1) =~= values@.take(i as int).push(vk));
                assert(self@ == fold_or_update(m0, values@.take(i + 1), outs));
            }
            i = i + 1;
        }
        proof {
            assert(values@.take(n_vals as int) =~= values@);
            assert(self@ == fold_or_update(m0, values@, outs));
            self.lemma_wf_implies_view_wf();
            lemma_fold_or_update_vals(m0, values@, outs);
        }
    }

    /// Pure lookup: for each position of `values`, the payload attached to
    /// that value (or to null), or `None` where the value was never inserted.
    /// The map is only read; nothing about it changes.
    pub fn get_payloads(&self, values: &Batch) -> (r: Vec<Option<P>>)
        requires
            self.wf(),
            values.output_type == self@.kind,
        ensures
            r@.len() == values@.len(),
            forall|k: int| 0 <= k < values@.len() ==> r@[k] == lookup(self@, values@[k]),
    {
        let n_vals = values.values.len();
        let mut r: Vec<Option<P>> = Vec::new();
        let mut i: usize = 0;
        while i < n_vals
            invariant
                self.wf(),
                values.output_type == self@.kind,
                n_vals == values@.len(),
                n_vals == values.values@.len(),
                i <= n_vals,
                r@.len() == i,
                forall|k: int| 0 <= k < i ==> r@[k] == lookup(self@, values@[k]),
            decreases n_vals - i,
        {
            let ghost vk = values@[i as int];
            proof {
                assert(values@[i as int] == values.values@[i as int].deep_view());
            }
            let p: Option<P> = match &values.values[i] {
                None => {
                    proof {
                        assert(vk is None);
                    }
                    match self.null {
                        Some((p0, _)) => {
                            proof {
                                self.lemma_null_lookup();
                            }
                            Some(p0)
                        },
                        None => {
                            proof {
                                if contains_val(self@.vals, None) {
                                    let q = choose|q: int|
                                        0 <= q < self.vals().len() && self.vals()[q]
                                            == None::<Seq<u8>>;
                                    assert(self.vals()[q] is None);
                                    assert(false);
                                }
                            }
                            None
                        },
                    }
                },
                Some(v) => {
                    proof {
                        assert(values.values@[i as int] == Some(*v));
                        assert(v.deep_view() =~= v@);
                        assert(vk == Some(v@));
                    }
                    let h = compute_hash(self.seed, v.as_slice());
                    match self.find_entry(h, v.as_slice()) {
                        Some(j) => Some(self.entries[j].payload),
                        None => None,
                    }
                },
            };
            proof {
                assert(p == lookup(self@, vk));
            }
            r.push(p);
            i = i + 1;
        }
        r
    }
}

/// Exact byte-for-byte comparison of two slices.
fn bytes_eq(a: &[u8], b: &[u8]) -> (r: bool)
    ensures
        r == (a@ == b@),
{
    if a.len() != b.len() {
        proof {
            if a@ == b@ {
                assert(a@.len() == b@.len());
            }
        }
        return false;
    }
    let mut k: usize = 0;
    while k < a.len()
        invariant
            a@.len() == b@.len(),
            k <= a@.len(),
            forall|t: int| 0 <= t < k ==> a@[t] == b@[t],
        decreases a@.len() - k,
    {
        if a[k] != b[k] {
            proof {
                if a@ == b@ {
                    assert(a@[k as int] == b@[k as int]);
                }
            }
            return false;
        }
        k = k + 1;
    }
    proof {
        assert(a@ =~= b@);
    }
    true
}

impl<P: Copy> View for ArrowBytesViewMap<P> {
    type V = MapView<P>;

    closed spec fn view(&self) -> MapView<P> {
        MapView {
            kind: self.output_type,
            vals: store_seq(self.store),
            pays: Seq::new(store_seq(self.store).len(), |p: int| self.pay_at(p)),
        }
    }
}

} // verus!
