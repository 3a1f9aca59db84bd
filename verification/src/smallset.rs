//! Fixed-capacity open-addressing set of term ids with tombstone deletion.
//!
//! Slots hold `EMPTY_SLOT`, `TOMBSTONE`, or a live term id. Lookup probes
//! linearly from the id's hash slot and stops only at `EMPTY_SLOT`, so a
//! deletion that fragmented a probe run cannot hide a stored element.

use vstd::prelude::*;

verus! {

/// Slot value marking a never-used slot; probe runs stop here.
pub const EMPTY_SLOT: u8 = 0;

/// Slot value marking a deleted slot; probe runs continue past it.
pub const TOMBSTONE: u8 = 0xff;

/// A slot payload is live when it is neither sentinel.
pub open spec fn slot_live(b: u8) -> bool {
    b != EMPTY_SLOT && b != TOMBSTONE
}

/// Home slot of a value in a table of `cap` slots.
pub open spec fn spec_hash(v: u8, cap: int) -> int
    recommends
        cap >= 1,
{
    v as int % cap
}

/// The slot reached after `k` probe steps from home slot `h`, wrapping once.
pub open spec fn probe_pos(h: int, k: int, cap: int) -> int
    recommends
        0 <= h < cap,
        0 <= k <= cap,
{
    if h + k < cap {
        h + k
    } else {
        h + k - cap
    }
}

/// Number of probe steps from home slot `h` to slot `i`.
pub open spec fn probe_dist(h: int, i: int, cap: int) -> int
    recommends
        0 <= h < cap,
        0 <= i < cap,
{
    if i >= h {
        i - h
    } else {
        i + cap - h
    }
}

/// The probe run from the home slot of the value stored at `i` up to (not
/// including) `i` passes neither an empty slot nor another copy of the value:
/// probing for that value is guaranteed to reach slot `i`.
pub open spec fn chain_ok(s: Seq<u8>, i: int) -> bool {
    forall|k: int|
        0 <= k < probe_dist(spec_hash(s[i], s.len() as int), i, s.len() as int) ==> #[trigger] s[
            probe_pos(spec_hash(s[i], s.len() as int), k, s.len() as int)
        ] != EMPTY_SLOT && s[probe_pos(spec_hash(s[i], s.len() as int), k, s.len() as int)] != s[i]
}

/// Every live slot is reachable by probing from its value's home slot.
/// This is the well-formedness condition of a slot array.
pub open spec fn coherent(s: Seq<u8>) -> bool {
    forall|i: int| 0 <= i < s.len() && slot_live(s[i]) ==> #[trigger] chain_ok(s, i)
}

/// The live payloads of a slot array, in slot order.
pub open spec fn live_values(s: Seq<u8>) -> Seq<u8>
    decreases s.len(),
{
    if s.len() == 0 {
        Seq::empty()
    } else if slot_live(s.last()) {
        live_values(s.drop_last()).push(s.last())
    } else {
        live_values(s.drop_last())
    }
}

/// A value the set can store: any byte that is not one of the two sentinels.
#[derive(Clone, Copy, Debug, PartialEq, Eq, Structural)]
pub struct SmallsetItem {
    value: u8,
}

impl SmallsetItem {
    /// The payload byte.
    pub closed spec fn spec_get(self) -> u8 {
        self.value
    }

    #[verifier::type_invariant]
    spec fn inv(self) -> bool {
        slot_live(self.value)
    }

    /// Accepts any byte except the two sentinels; the set's control state
    /// can therefore never collide with stored data.
    pub fn try_new(value: u8) -> (r: Option<SmallsetItem>)
        ensures
            slot_live(value) <==> (r matches Some(item) && item.spec_get() == value),
            !slot_live(value) <==> r is None,
    {
        if value == EMPTY_SLOT || value == TOMBSTONE {
            None
        } else {
            Some(SmallsetItem { value })
        }
    }

    /// The payload byte, always a non-sentinel.
    pub fn get(self) -> (r: u8)
        ensures
            r == self.spec_get(),
            slot_live(r),
    {
        proof {
            use_type_invariant(self);
        }
        self.value
    }
}

/// Fixed-capacity set of non-sentinel bytes, open addressing with linear
/// probing over `SIZE` slots.
#[derive(Debug)]
pub struct Smallset<const SIZE: usize> {
    slots: Vec<u8>,
}

impl<const SIZE: usize> View for Smallset<SIZE> {
    type V = Set<u8>;

    /// The set of live payloads.
    closed spec fn view(&self) -> Set<u8> {
        Set::new(|v: u8| slot_live(v) && self.slots@.contains(v))
    }
}

impl<const SIZE: usize> Smallset<SIZE> {
    /// The raw slot array, sentinels included.
    pub closed spec fn slots_view(self) -> Seq<u8> {
        self.slots@
    }

    /// The slot array has exactly `SIZE` slots and every stored element is
    /// reachable from its home slot.
    pub open spec fn wf(self) -> bool {
        self.slots_view().len() == SIZE && coherent(self.slots_view())
    }

    /// Number of live slots, the set's mathematical size.
    pub open spec fn spec_size(self) -> nat {
        live_values(self.slots_view()).len()
    }

    /// Construct a new set without any elements.
    pub fn new_empty() -> (r: Self)
        ensures
            r.wf(),
            r@ == Set::<u8>::empty(),
            r.spec_size() == 0,
            forall|i: int| 0 <= i < SIZE ==> r.slots_view()[i] == EMPTY_SLOT,
    {
        let slots: Vec<u8> = vec![EMPTY_SLOT; SIZE];
        let r = Smallset { slots };
        proof {
            assert(forall|i: int| 0 <= i < SIZE ==> r.slots@[i] == EMPTY_SLOT);
            lemma_live_values_all_dead(r.slots@);
            assert(r@ =~= Set::<u8>::empty());
        }
        r
    }

    fn hash(data: u8) -> (r: usize)
        requires
            SIZE >= 1,
        ensures
            r == spec_hash(data, SIZE as int),
            r < SIZE,
    {
        data as usize % SIZE
    }

    fn probe(previous_index: usize) -> (r: usize)
        requires
            previous_index < SIZE,
        ensures
            r as int == if previous_index + 1 < SIZE {
                previous_index + 1
            } else {
                0
            },
    {
        if previous_index + 1 == SIZE {
            0
        } else {
            previous_index + 1
        }
    }

    /// Find the slot holding `data`, probing from its home slot and stopping
    /// only at an empty slot.
    fn locate_value(&self, data: u8) -> (r: Option<usize>)
        requires
            self.wf(),
            SIZE >= 1,
            slot_live(data),
        ensures
            match r {
                Some(i) => i < SIZE && self.slots_view()[i as int] == data,
                None => !self@.contains(data),
            },
    {
        let h = Self::hash(data);
        let mut pos = h;
        let mut k: usize = 0;
        while k < SIZE
            invariant
                self.wf(),
                SIZE >= 1,
                slot_live(data),
                h == spec_hash(data, SIZE as int),
                h < SIZE,
                k <= SIZE,
                pos == probe_pos(h as int, k as int, SIZE as int),
                pos < SIZE,
                forall|kk: int|
                    0 <= kk < k ==> #[trigger] self.slots_view()[probe_pos(h as int, kk, SIZE as int)]
                        != data && self.slots_view()[probe_pos(h as int, kk, SIZE as int)]
                        != EMPTY_SLOT,
            decreases SIZE - k,
        {
            let v = self.slots[pos];
            if v == data {
                return Some(pos);
            }
            if v == EMPTY_SLOT {
                proof {
                    self.lemma_absent(data, k as int);
                }
                return None;
            }
            k = k + 1;
            pos = Self::probe(pos);
        }
        proof {
            self.lemma_absent(data, SIZE as int);
        }
        None
    }

    /// If the first `k` probe positions for `data` hold neither `data` nor an
    /// empty slot, and position `k` (when `k < SIZE`) holds an empty slot,
    /// then `data` is not stored anywhere.
    proof fn lemma_absent(self, data: u8, k: int)
        requires
            self.wf(),
            SIZE >= 1,
            slot_live(data),
            0 <= k <= SIZE,
            forall|kk: int|
                0 <= kk < k ==> #[trigger] self.slots_view()[probe_pos(
                    spec_hash(data, SIZE as int),
                    kk,
                    SIZE as int,
                )] != data && self.slots_view()[probe_pos(
                    spec_hash(data, SIZE as int),
                    kk,
                    SIZE as int,
                )] != EMPTY_SLOT,
            k < SIZE ==> self.slots_view()[probe_pos(spec_hash(data, SIZE as int), k, SIZE as int)]
                == EMPTY_SLOT,
        ensures
            !self@.contains(data),
    {
        let s = self.slots_view();
        let cap = SIZE as int;
        let h = spec_hash(data, cap);
        if self@.contains(data) {
            let j = choose|j: int| 0 <= j < s.len() && s[j] == data;
            let d = probe_dist(h, j, cap);
            assert(probe_pos(h, d, cap) == j);
            assert(chain_ok(s, j));
            if d < k {
                assert(s[probe_pos(h, d, cap)] != data);
            } else if d == k {
                assert(s[probe_pos(h, d, cap)] == EMPTY_SLOT);
            } else {
                assert(s[probe_pos(spec_hash(s[j], cap), k, cap)] != EMPTY_SLOT);
            }
        }
    }

    /// Check if this value is stored in the set.
    pub fn contains(&self, data: SmallsetItem) -> (r: bool)
        requires
            self.wf(),
            SIZE >= 1,
        ensures
            r == self@.contains(data.spec_get()),
    {
        self.contains_id(data.get())
    }

    /// Check if this payload byte is stored in the set.
    pub(crate) fn contains_id(&self, data: u8) -> (r: bool)
        requires
            self.wf(),
            SIZE >= 1,
            slot_live(data),
        ensures
            r == self@.contains(data),
    {
        match self.locate_value(data) {
            Some(i) => {
                proof {
                    assert(self.slots_view().contains(data)) by {
                        assert(self.slots_view()[i as int] == data);
                    }
                }
                true
            },
            None => false,
        }
    }

    /// Find the first empty or tombstone slot on `data`'s probe run, the slot
    /// where `data` may be written once lookup has ruled out a stored copy.
    fn locate_insertion_slot(&self, data: u8) -> (r: Option<usize>)
        requires
            self.wf(),
            SIZE >= 1,
            slot_live(data),
        ensures
            match r {
                Some(i) => i < SIZE && !slot_live(self.slots_view()[i as int]) && forall|kk: int|
                    0 <= kk < probe_dist(spec_hash(data, SIZE as int), i as int, SIZE as int)
                        ==> slot_live(
                        #[trigger] self.slots_view()[probe_pos(
                            spec_hash(data, SIZE as int),
                            kk,
                            SIZE as int,
                        )],
                    ),
                None => forall|i: int| 0 <= i < SIZE ==> slot_live(#[trigger] self.slots_view()[i]),
            },
    {
        let h = Self::hash(data);
        let mut pos = h;
        let mut k: usize = 0;
        while k < SIZE
            invariant
                self.wf(),
                SIZE >= 1,
                slot_live(data),
                h == spec_hash(data, SIZE as int),
                h < SIZE,
                k <= SIZE,
                pos == probe_pos(h as int, k as int, SIZE as int),
                pos < SIZE,
                forall|kk: int|
                    0 <= kk < k ==> slot_live(
                        #[trigger] self.slots_view()[probe_pos(h as int, kk, SIZE as int)],
                    ),
            decreases SIZE - k,
        {
            let v = self.slots[pos];
            if v == EMPTY_SLOT || v == TOMBSTONE {
                proof {
                    assert(probe_dist(h as int, pos as int, SIZE as int) == k);
                }
                return Some(pos);
            }
            k = k + 1;
            pos = Self::probe(pos);
        }
        proof {
            assert forall|i: int| 0 <= i < SIZE implies slot_live(#[trigger] self.slots_view()[i]) by {
                let d = probe_dist(h as int, i, SIZE as int);
                assert(probe_pos(h as int, d, SIZE as int) == i);
                assert(slot_live(self.slots_view()[probe_pos(h as int, d, SIZE as int)]));
            }
        }
        None
    }

    /// Insert this value, reporting whether it is new, or fail when every
    /// slot already holds some other value: the set is full, which is the
    /// caller's signal to migrate to unbounded storage.
    pub fn insert(&mut self, data: SmallsetItem) -> (r: Result<bool, u8>)
        requires
            old(self).wf(),
            SIZE >= 1,
        ensures
            final(self).wf(),
            forall|i: int|
                0 <= i < SIZE ==> #[trigger] final(self).slots_view()[i] == old(self).slots_view()[i]
                    || final(self).slots_view()[i] == data.spec_get(),
            match r {
                Ok(true) => !old(self)@.contains(data.spec_get()) && final(self)@ == old(
                    self,
                )@.insert(data.spec_get()),
                Ok(false) => old(self)@.contains(data.spec_get()) && *final(self) == *old(self),
                Err(e) => e == data.spec_get() && *final(self) == *old(self) && !old(
                    self,
                )@.contains(data.spec_get()) && old(self).spec_size() == SIZE,
            },
    {
        let v = data.get();
        if let Some(i) = self.locate_value(v) {
            proof {
                assert(self.slots_view().contains(v)) by {
                    assert(self.slots_view()[i as int] == v);
                }
            }
            return Ok(false);
        }
        match self.locate_insertion_slot(v) {
            None => {
                proof {
                    lemma_live_values_all_live(self.slots_view());
                }
                Err(v)
            },
            Some(pos) => {
                proof {
                    assert(!self.slots_view().contains(v)) by {
                        if self.slots_view().contains(v) {
                            assert(self@.contains(v));
                        }
                    }
                    lemma_insert_preserves(self.slots_view(), pos as int, v);
                }
                let ghost s_old = self.slots_view();
                self.slots.set(pos, v);
                proof {
                    assert(self@ =~= old(self)@.insert(v)) by {
                        let t = self.slots_view();
                        assert forall|u: u8| #[trigger] t.contains(u) && slot_live(u) implies u == v
                            || s_old.contains(u) by {
                            let j = choose|j: int| 0 <= j < t.len() && t[j] == u;
                            if j != pos as int {
                                assert(s_old[j] == u);
                            }
                        }
                        assert(t[pos as int] == v);
                        assert forall|u: u8| slot_live(u) && s_old.contains(u) implies t.contains(
                            u,
                        ) by {
                            let j = choose|j: int| 0 <= j < s_old.len() && s_old[j] == u;
                            assert(j != pos as int);
                            assert(t[j] == u);
                        }
                    }
                }
                Ok(true)
            },
        }
    }

    /// Remove this value, reporting whether it was stored. The slot becomes
    /// empty when the next probe slot is empty (the probe run may shrink),
    /// otherwise a tombstone, preserving reachability of every other element.
    pub fn remove(&mut self, data: SmallsetItem) -> (r: bool)
        requires
            old(self).wf(),
            SIZE >= 1,
        ensures
            final(self).wf(),
            r == old(self)@.contains(data.spec_get()),
            final(self)@ == old(self)@.remove(data.spec_get()),
            !r ==> *final(self) == *old(self),
    {
        let v = data.get();
        match self.locate_value(v) {
            None => {
                proof {
                    assert(self@ =~= self@.remove(v));
                }
                false
            },
            Some(pos) => {
                let next = Self::probe(pos);
                let clear = if self.slots[next] == EMPTY_SLOT {
                    EMPTY_SLOT
                } else {
                    TOMBSTONE
                };
                proof {
                    assert(self.slots_view().contains(v)) by {
                        assert(self.slots_view()[pos as int] == v);
                    }
                    lemma_remove_preserves(self.slots_view(), pos as int, clear);
                    lemma_coherent_no_dup(self.slots_view());
                }
                let ghost s_old = self.slots_view();
                self.slots.set(pos, clear);
                proof {
                    assert(self@ =~= old(self)@.remove(v)) by {
                        let t = self.slots_view();
                        assert forall|u: u8| #[trigger] t.contains(u) && slot_live(u) implies
                            s_old.contains(u) && u != v by {
                            let j = choose|j: int| 0 <= j < t.len() && t[j] == u;
                            assert(j != pos as int);
                            assert(s_old[j] == u);
                            if u == v {
                                assert(s_old[pos as int] == v);
                                assert(false);
                            }
                        }
                        assert forall|u: u8| slot_live(u) && s_old.contains(u) && u != v implies t
                            .contains(u) by {
                            let j = choose|j: int| 0 <= j < s_old.len() && s_old[j] == u;
                            assert(j != pos as int);
                            assert(t[j] == u);
                        }
                    }
                }
                true
            },
        }
    }

    /// Number of elements stored in this set.
    pub fn size(&self) -> (r: usize)
        ensures
            r == self.spec_size(),
    {
        let mut count: usize = 0;
        let mut i: usize = 0;
        let n = self.slots.len();
        while i < n
            invariant
                i <= n,
                n == self.slots_view().len(),
                count == live_values(self.slots_view().subrange(0, i as int)).len(),
                count <= i,
            decreases n - i,
        {
            let v = self.slots[i];
            proof {
                let pre = self.slots_view().subrange(0, i as int);
                let cur = self.slots_view().subrange(0, i as int + 1);
                assert(cur.drop_last() =~= pre);
                assert(cur.last() == self.slots_view()[i as int]);
            }
            if v != EMPTY_SLOT && v != TOMBSTONE {
                count = count + 1;
            }
            i = i + 1;
        }
        proof {
            assert(self.slots_view().subrange(0, n as int) =~= self.slots_view());
        }
        count
    }

    /// Number of elements this set can store.
    pub fn capacity(&self) -> (r: usize)
        ensures
            r == SIZE,
    {
        SIZE
    }

    /// Every stored element, in slot order. Rebuilding the list re-scans the
    /// slots; there is no hidden cursor state.
    pub fn iter(&self) -> (r: Vec<u8>)
        ensures
            r@ == live_values(self.slots_view()),
    {
        let mut out: Vec<u8> = Vec::new();
        let mut i: usize = 0;
        let n = self.slots.len();
        while i < n
            invariant
                i <= n,
                n == self.slots_view().len(),
                out@ == live_values(self.slots_view().subrange(0, i as int)),
            decreases n - i,
        {
            let v = self.slots[i];
            proof {
                let pre = self.slots_view().subrange(0, i as int);
                let cur = self.slots_view().subrange(0, i as int + 1);
                assert(cur.drop_last() =~= pre);
                assert(cur.last() == self.slots_view()[i as int]);
            }
            if v != EMPTY_SLOT && v != TOMBSTONE {
                out.push(v);
            }
            i = i + 1;
        }
        proof {
            assert(self.slots_view().subrange(0, n as int) =~= self.slots_view());
        }
        out
    }

    /// Reset every slot to empty.
    pub fn clear(&mut self)
        ensures
            final(self).wf(),
            final(self)@ == Set::<u8>::empty(),
            final(self).spec_size() == 0,
            forall|i: int| 0 <= i < SIZE ==> final(self).slots_view()[i] == EMPTY_SLOT,
    {
        self.slots = vec![EMPTY_SLOT; SIZE];
        proof {
            lemma_live_values_all_dead(self.slots_view());
            assert(self@ =~= Set::<u8>::empty());
        }
    }

    /// Construct a set from existing storage. The storage is not changed in
    /// any way and must have been produced by a `Smallset` of the same
    /// capacity, which is what the two preconditions state.
    pub fn reiterpret(backing: Vec<u8>) -> (r: Self)
        requires
            backing@.len() == SIZE,
            coherent(backing@),
        ensures
            r.wf(),
            r.slots_view() == backing@,
    {
        Smallset { slots: backing }
    }

    /// The raw slot bytes, for serialization.
    pub fn raw_slots(&self) -> (r: Vec<u8>)
        ensures
            r@ == self.slots_view(),
    {
        let mut out: Vec<u8> = Vec::new();
        let mut i: usize = 0;
        let n = self.slots.len();
        while i < n
            invariant
                i <= n,
                n == self.slots_view().len(),
                out@ == self.slots_view().subrange(0, i as int),
            decreases n - i,
        {
            out.push(self.slots[i]);
            proof {
                assert(out@ =~= self.slots_view().subrange(0, i as int + 1));
            }
            i = i + 1;
        }
        proof {
            assert(self.slots_view().subrange(0, n as int) =~= self.slots_view());
        }
        out
    }

    /// Clone this set's live elements into a compatible set of possibly
    /// different capacity, eliminating tombstones in the process. The target
    /// capacity must be able to hold the element count.
    pub fn compact<const OTHERSIZE: usize>(&self, target: &mut Smallset<OTHERSIZE>)
        requires
            self.wf(),
            OTHERSIZE >= 1,
            self.spec_size() <= OTHERSIZE,
        ensures
            final(target).wf(),
            final(target)@ == self@,
            forall|i: int|
                0 <= i < OTHERSIZE ==> #[trigger] final(target).slots_view()[i] != TOMBSTONE,
    {
        target.clear();
        let items = self.iter();
        proof {
            lemma_coherent_no_dup(self.slots_view());
            lemma_live_values_elems(self.slots_view());
            lemma_live_values_no_dup(self.slots_view());
            assert forall|j: int| 0 <= j < items@.len() implies slot_live(#[trigger] items@[j]) by {
                assert(items@.contains(items@[j]));
            }
        }
        let mut idx: usize = 0;
        while idx < items.len()
            invariant
                self.wf(),
                OTHERSIZE >= 1,
                idx <= items@.len(),
                items@ == live_values(self.slots_view()),
                items@.len() <= OTHERSIZE,
                items@.no_duplicates(),
                forall|j: int| 0 <= j < items@.len() ==> slot_live(#[trigger] items@[j]),
                target.wf(),
                target@ =~= items@.subrange(0, idx as int).to_set(),
                forall|i: int|
                    0 <= i < OTHERSIZE ==> #[trigger] target.slots_view()[i] != TOMBSTONE,
            decreases items@.len() - idx,
        {
            let b = items[idx];
            proof {
                items@.subrange(0, idx as int).unique_seq_to_set();
                items@.subrange(0, idx as int).lemma_cardinality_of_set();
                target.lemma_size_is_cardinality();
                assert(items@.subrange(0, idx as int).no_duplicates());
                assert(target.spec_size() < OTHERSIZE);
            }
            match SmallsetItem::try_new(b) {
                Some(item) => {
                    match target.insert(item) {
                        Ok(_) => (),
                        Err(_) => {
                            proof {
                                assert(false);
                            }
                        },
                    }
                },
                None => {
                    proof {
                        assert(false);
                    }
                },
            }
            proof {
                let pre = items@.subrange(0, idx as int);
                let cur = items@.subrange(0, idx as int + 1);
                assert(cur.drop_last() =~= pre);
                assert(cur.last() == b);
                assert(target@ =~= cur.to_set()) by {
                    assert forall|u: u8| #[trigger] cur.to_set().contains(u) implies pre.to_set()
                        .insert(b).contains(u) by {
                        let j = choose|j: int| 0 <= j < cur.len() && cur[j] == u;
                        if j < idx as int {
                            assert(pre[j] == u);
                        }
                    }
                    assert forall|u: u8| pre.to_set().insert(b).contains(u) implies #[trigger] cur
                        .to_set().contains(u) by {
                        if u == b {
                            assert(cur[idx as int] == u);
                        } else {
                            let j = choose|j: int| 0 <= j < pre.len() && pre[j] == u;
                            assert(cur[j] == u);
                        }
                    }
                }
            }
            idx = idx + 1;
        }
        proof {
            assert(items@.subrange(0, items@.len() as int) =~= items@);
            assert(target@ =~= self@) by {
                assert forall|u: u8| items@.to_set().contains(u) implies self@.contains(u) by {
                    assert(items@.contains(u));
                }
                assert forall|u: u8| self@.contains(u) implies items@.to_set().contains(u) by {
                    assert(items@.contains(u));
                }
            }
        }
    }

    /// The element list a well-formed set hands out is duplicate-free, holds
    /// only non-sentinel bytes, and covers exactly the set's elements.
    pub proof fn lemma_iter_props(self)
        requires
            self.wf(),
        ensures
            live_values(self.slots_view()).to_set() == self@,
            live_values(self.slots_view()).no_duplicates(),
            forall|j: int|
                0 <= j < live_values(self.slots_view()).len() ==> slot_live(
                    #[trigger] live_values(self.slots_view())[j],
                ),
    {
        let s = self.slots_view();
        lemma_coherent_no_dup(s);
        lemma_live_values_elems(s);
        lemma_live_values_no_dup(s);
        assert forall|j: int| 0 <= j < live_values(s).len() implies slot_live(
            #[trigger] live_values(s)[j],
        ) by {
            assert(live_values(s).contains(live_values(s)[j]));
        }
        assert(live_values(s).to_set() =~= self@) by {
            assert forall|u: u8| live_values(s).to_set().contains(u) implies self@.contains(u) by {
                assert(live_values(s).contains(u));
            }
            assert forall|u: u8| self@.contains(u) implies live_values(s).to_set().contains(u) by {
                assert(live_values(s).contains(u));
            }
        }
    }

    /// Two sets with the same slot array hold the same elements.
    pub proof fn lemma_same_slots(a: Self, b: Self)
        requires
            a.slots_view() == b.slots_view(),
        ensures
            a@ == b@,
            a.spec_size() == b.spec_size(),
    {
        assert(a@ =~= b@);
    }

    /// The set's mathematical size equals the cardinality of the set of
    /// stored values: a coherent slot array stores no value twice.
    pub proof fn lemma_size_is_cardinality(self)
        requires
            self.wf(),
        ensures
            self.spec_size() == self@.len(),
            self.spec_size() <= SIZE,
            self@.finite(),
    {
        let s = self.slots_view();
        lemma_coherent_no_dup(s);
        lemma_live_values_elems(s);
        lemma_live_values_no_dup(s);
        live_values(s).unique_seq_to_set();
        assert(live_values(s).to_set() =~= self@) by {
            assert forall|u: u8| live_values(s).to_set().contains(u) implies self@.contains(u) by {
                assert(live_values(s).contains(u));
            }
            assert forall|u: u8| self@.contains(u) implies live_values(s).to_set().contains(u) by {
                assert(live_values(s).contains(u));
            }
        }
    }
}

/// In a coherent slot array, two distinct live slots never hold the same
/// value: the set stores no duplicates.
pub proof fn lemma_coherent_no_dup(s: Seq<u8>)
    requires
        coherent(s),
    ensures
        forall|i: int, j: int|
            0 <= i < s.len() && 0 <= j < s.len() && i != j && slot_live(#[trigger] s[i])
                && slot_live(#[trigger] s[j]) ==> s[i] != s[j],
{
    let cap = s.len() as int;
    assert forall|i: int, j: int|
        0 <= i < s.len() && 0 <= j < s.len() && i != j && slot_live(#[trigger] s[i]) && slot_live(
            #[trigger] s[j],
        ) implies s[i] != s[j] by {
        if s[i] == s[j] {
            let h = spec_hash(s[i], cap);
            let di = probe_dist(h, i, cap);
            let dj = probe_dist(h, j, cap);
            assert(probe_pos(h, di, cap) == i);
            assert(probe_pos(h, dj, cap) == j);
            if di < dj {
                assert(chain_ok(s, j));
                assert(s[probe_pos(spec_hash(s[j], cap), di, cap)] != s[j]);
            } else {
                assert(chain_ok(s, i));
                assert(s[probe_pos(spec_hash(s[i], cap), dj, cap)] != s[i]);
            }
        }
    }
}

/// The live values of a slot array are exactly the live bytes the array
/// contains, and there are no more of them than slots.
proof fn lemma_live_values_elems(s: Seq<u8>)
    ensures
        forall|v: u8| #[trigger] live_values(s).contains(v) <==> (slot_live(v) && s.contains(v)),
        live_values(s).len() <= s.len(),
    decreases s.len(),
{
    if s.len() > 0 {
        let prefix = s.drop_last();
        let lv = live_values(s);
        let lvp = live_values(prefix);
        lemma_live_values_elems(prefix);
        assert forall|v: u8| #[trigger] lv.contains(v) implies (slot_live(v) && s.contains(v)) by {
            if slot_live(s.last()) && v == s.last() {
                assert(s[s.len() - 1] == v);
                assert(s.contains(v));
            } else {
                let ji = choose|ji: int| 0 <= ji < lv.len() && lv[ji] == v;
                if slot_live(s.last()) {
                    assert(lv == lvp.push(s.last()));
                    assert(ji < lv.len() - 1);
                    assert(lvp[ji] == v);
                    assert(lvp.contains(v));
                } else {
                    assert(lv == lvp);
                    assert(lvp.contains(v));
                }
                assert(slot_live(v) && prefix.contains(v));
                let j = choose|j: int| 0 <= j < prefix.len() && prefix[j] == v;
                assert(s[j] == prefix[j]);
                assert(s.contains(v));
            }
        }
        assert forall|v: u8| (slot_live(v) && s.contains(v)) implies #[trigger] lv.contains(v) by {
            let j = choose|j: int| 0 <= j < s.len() && s[j] == v;
            if j == s.len() - 1 {
                assert(slot_live(s.last()));
                assert(lv[lv.len() - 1] == v);
                assert(lv.contains(v));
            } else {
                assert(prefix[j] == s[j]);
                assert(prefix.contains(v));
                assert(lvp.contains(v));
                let jj = choose|jj: int| 0 <= jj < lvp.len() && lvp[jj] == v;
                if slot_live(s.last()) {
                    assert(lv == lvp.push(s.last()));
                    assert(lv[jj] == v);
                } else {
                    assert(lv == lvp);
                }
                assert(lv.contains(v));
            }
        }
    }
}

/// When no two live slots share a value, the live values are pairwise
/// distinct.
proof fn lemma_live_values_no_dup(s: Seq<u8>)
    requires
        forall|i: int, j: int|
            0 <= i < s.len() && 0 <= j < s.len() && i != j && slot_live(#[trigger] s[i])
                && slot_live(#[trigger] s[j]) ==> s[i] != s[j],
    ensures
        live_values(s).no_duplicates(),
    decreases s.len(),
{
    if s.len() > 0 {
        let prefix = s.drop_last();
        lemma_live_values_no_dup(prefix);
        lemma_live_values_elems(prefix);
        if slot_live(s.last()) {
            if live_values(prefix).contains(s.last()) {
                let j = choose|j: int| 0 <= j < prefix.len() && prefix[j] == s.last();
                assert(s[j] == s[s.len() - 1]);
                assert(false);
            }
        }
    }
}

/// Decide whether a slot array is coherent: every live slot must be
/// reachable from its value's home slot without crossing an empty slot or a
/// duplicate. Used to validate slot arrays read from persisted state before
/// they are adopted as sets.
pub fn slots_coherent(backing: &Vec<u8>) -> (r: bool)
    ensures
        r == coherent(backing@),
{
    let n = backing.len();
    let mut i: usize = 0;
    while i < n
        invariant
            i <= n,
            n == backing@.len(),
            forall|ii: int|
                0 <= ii < i && slot_live(backing@[ii]) ==> #[trigger] chain_ok(backing@, ii),
        decreases n - i,
    {
        let v = backing[i];
        if v != EMPTY_SLOT && v != TOMBSTONE {
            let h = (v as usize) % n;
            let d = if i >= h {
                i - h
            } else {
                n - h + i
            };
            proof {
                assert(h == spec_hash(v, n as int));
                assert(d == probe_dist(h as int, i as int, n as int));
            }
            let mut k: usize = 0;
            let mut pos = h;
            while k < d
                invariant
                    n == backing@.len(),
                    i < n,
                    v == backing@[i as int],
                    slot_live(v),
                    h == spec_hash(v, n as int),
                    h < n,
                    d == probe_dist(h as int, i as int, n as int),
                    d < n,
                    k <= d,
                    pos == probe_pos(h as int, k as int, n as int),
                    pos < n,
                    forall|kk: int|
                        0 <= kk < k ==> #[trigger] backing@[probe_pos(h as int, kk, n as int)]
                            != EMPTY_SLOT && backing@[probe_pos(h as int, kk, n as int)] != v,
                decreases d - k,
            {
                let w = backing[pos];
                if w == EMPTY_SLOT || w == v {
                    proof {
                        if coherent(backing@) {
                            assert(chain_ok(backing@, i as int));
                            assert(backing@[probe_pos(
                                spec_hash(backing@[i as int], n as int),
                                k as int,
                                n as int,
                            )] != EMPTY_SLOT && backing@[probe_pos(
                                spec_hash(backing@[i as int], n as int),
                                k as int,
                                n as int,
                            )] != backing@[i as int]);
                            assert(false);
                        }
                    }
                    return false;
                }
                k = k + 1;
                pos = if pos + 1 == n {
                    0
                } else {
                    pos + 1
                };
            }
            proof {
                assert(chain_ok(backing@, i as int));
            }
        }
        i = i + 1;
    }
    true
}

/// A slot array with no live slot has no live values.
proof fn lemma_live_values_all_dead(s: Seq<u8>)
    requires
        forall|i: int| 0 <= i < s.len() ==> !slot_live(#[trigger] s[i]),
    ensures
        live_values(s).len() == 0,
    decreases s.len(),
{
    if s.len() > 0 {
        lemma_live_values_all_dead(s.drop_last());
    }
}

/// A slot array whose slots are all live has as many live values as slots.
proof fn lemma_live_values_all_live(s: Seq<u8>)
    requires
        forall|i: int| 0 <= i < s.len() ==> slot_live(#[trigger] s[i]),
    ensures
        live_values(s).len() == s.len(),
    decreases s.len(),
{
    if s.len() > 0 {
        lemma_live_values_all_live(s.drop_last());
    }
}

/// Writing a live value `v` into a free slot that probing for `v` reaches
/// without passing an empty slot keeps the array coherent.
proof fn lemma_insert_preserves(s: Seq<u8>, pos: int, v: u8)
    requires
        coherent(s),
        0 <= pos < s.len(),
        !slot_live(s[pos]),
        slot_live(v),
        !s.contains(v),
        forall|kk: int|
            0 <= kk < probe_dist(spec_hash(v, s.len() as int), pos, s.len() as int) ==> slot_live(
                #[trigger] s[probe_pos(spec_hash(v, s.len() as int), kk, s.len() as int)],
            ),
    ensures
        coherent(s.update(pos, v)),
{
    let cap = s.len() as int;
    let t = s.update(pos, v);
    let h = spec_hash(v, cap);
    assert forall|i: int| 0 <= i < cap && slot_live(t[i]) implies chain_ok(t, i) by {
        if i == pos {
            assert forall|k: int|
                0 <= k < probe_dist(spec_hash(t[i], cap), i, cap) implies #[trigger] t[probe_pos(
                spec_hash(t[i], cap),
                k,
                cap,
            )] != EMPTY_SLOT && t[probe_pos(spec_hash(t[i], cap), k, cap)] != t[i] by {
                let p = probe_pos(h, k, cap);
                assert(probe_dist(h, p, cap) == k);
                assert(slot_live(s[p]));
                assert(s[p] != v) by {
                    if s[p] == v {
                        assert(s.contains(v));
                    }
                }
            }
        } else {
            let w = s[i];
            let hw = spec_hash(w, cap);
            assert(chain_ok(s, i));
            assert forall|k: int|
                0 <= k < probe_dist(spec_hash(t[i], cap), i, cap) implies #[trigger] t[probe_pos(
                spec_hash(t[i], cap),
                k,
                cap,
            )] != EMPTY_SLOT && t[probe_pos(spec_hash(t[i], cap), k, cap)] != t[i] by {
                let p = probe_pos(hw, k, cap);
                assert(s[probe_pos(spec_hash(s[i], cap), k, cap)] != EMPTY_SLOT);
                if p == pos {
                    assert(t[p] == v);
                    assert(s[i] != v) by {
                        if s[i] == v {
                            assert(s.contains(v));
                        }
                    }
                }
            }
        }
    }
}

/// Clearing the slot of a stored value to a tombstone, or to empty when the
/// next probe slot is empty, keeps the array coherent.
proof fn lemma_remove_preserves(s: Seq<u8>, pos: int, c: u8)
    requires
        coherent(s),
        0 <= pos < s.len(),
        slot_live(s[pos]),
        c == EMPTY_SLOT || c == TOMBSTONE,
        c == EMPTY_SLOT ==> s[if pos + 1 < s.len() {
            pos + 1
        } else {
            0
        }] == EMPTY_SLOT,
    ensures
        coherent(s.update(pos, c)),
{
    let cap = s.len() as int;
    let t = s.update(pos, c);
    let next = if pos + 1 < cap {
        pos + 1
    } else {
        0
    };
    assert forall|i: int| 0 <= i < cap && slot_live(t[i]) implies chain_ok(t, i) by {
        assert(i != pos);
        let w = s[i];
        let hw = spec_hash(w, cap);
        assert(chain_ok(s, i));
        let d = probe_dist(hw, i, cap);
        assert forall|k: int|
            0 <= k < probe_dist(spec_hash(t[i], cap), i, cap) implies #[trigger] t[probe_pos(
            spec_hash(t[i], cap),
            k,
            cap,
        )] != EMPTY_SLOT && t[probe_pos(spec_hash(t[i], cap), k, cap)] != t[i] by {
            let p = probe_pos(hw, k, cap);
            assert(s[probe_pos(spec_hash(s[i], cap), k, cap)] != EMPTY_SLOT);
            if p == pos {
                if c == EMPTY_SLOT {
                    assert(probe_pos(hw, k + 1, cap) == next);
                    if k + 1 < d {
                        assert(s[probe_pos(spec_hash(s[i], cap), k + 1, cap)] != EMPTY_SLOT);
                        assert(false);
                    } else {
                        assert(probe_pos(hw, d, cap) == i);
                        assert(next == i);
                        assert(false);
                    }
                }
            }
        }
    }
}

} // verus!
