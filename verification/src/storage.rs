//! The engine: term interner, key index, inline slot array with free-slot
//! recycling, and unbounded overflow storage.
//!
//! Every known key is backed by exactly one storage tier: an inline slot
//! (`IndexLocation::Small`) holding a fixed-capacity set, or an entry in the
//! unbounded tier (`IndexLocation::Big`). A key moves from the inline tier to
//! the unbounded tier at most once, when its inline set overflows, and never
//! back; the vacated slot offset is recycled through a free list.

use vstd::prelude::*;

use crate::doublemap::DoubleMap;
use crate::smallset::{slot_live, Smallset, SmallsetItem};

verus! {

/// The interner assigns ids 1 through this bound; 0 and 255 stay reserved
/// for the inline sets' sentinels.
pub const MAX_TERMS: usize = 253;

/// A record key: a nonzero 64-bit identifier. Zero is reserved so that a
/// slot holding an optional key costs exactly one key width; the constructor
/// rejects it.
#[derive(Clone, Copy, Debug, PartialEq, Eq, Structural)]
pub struct Key {
    value: u64,
}

impl Key {
    /// The key's numeric value.
    pub closed spec fn spec_get(self) -> u64 {
        self.value
    }

    #[verifier::type_invariant]
    spec fn inv(self) -> bool {
        self.value != 0
    }

    /// Accepts any nonzero value.
    pub fn new(value: u64) -> (r: Option<Key>)
        ensures
            value != 0 <==> (r matches Some(k) && k.spec_get() == value),
            value == 0 <==> r is None,
    {
        if value == 0 {
            None
        } else {
            Some(Key { value })
        }
    }

    /// The key's numeric value, always nonzero.
    pub fn get(self) -> (r: u64)
        ensures
            r == self.spec_get(),
            r != 0,
    {
        proof {
            use_type_invariant(self);
        }
        self.value
    }
}

/// Where a key's tag set is stored: an inline slot offset, or the unbounded
/// tier.
#[derive(Clone, Copy, Debug)]
pub enum IndexLocation {
    /// Offset into the inline slot array, in number of slots.
    Small(usize),
    /// The key's set lives in the unbounded tier.
    Big,
}

/// No two entries of an association list share a key.
pub open spec fn unique_keys<V>(s: Seq<(u64, V)>) -> bool {
    forall|i: int, j: int|
        0 <= i < s.len() && 0 <= j < s.len() && i != j ==> (#[trigger] s[i]).0 != (
        #[trigger] s[j]).0
}

/// Whether an association list has an entry for this key.
pub open spec fn assoc_has_key<V>(s: Seq<(u64, V)>, k: u64) -> bool {
    exists|i: int| 0 <= i < s.len() && (#[trigger] s[i]).0 == k
}

/// The position of this key's entry.
pub open spec fn assoc_index<V>(s: Seq<(u64, V)>, k: u64) -> int {
    choose|i: int| 0 <= i < s.len() && (#[trigger] s[i]).0 == k
}

/// The value stored beside this key.
pub open spec fn assoc_value<V>(s: Seq<(u64, V)>, k: u64) -> V {
    s[assoc_index(s, k)].1
}

/// In a list with unique keys, the entry at position `i` is the one every
/// association lookup of its key finds.
pub proof fn lemma_assoc_at<V>(s: Seq<(u64, V)>, i: int)
    requires
        unique_keys(s),
        0 <= i < s.len(),
    ensures
        assoc_has_key(s, s[i].0),
        assoc_index(s, s[i].0) == i,
        assoc_value(s, s[i].0) == s[i].1,
{
    assert(assoc_has_key(s, s[i].0));
    let j = assoc_index(s, s[i].0);
    assert(0 <= j < s.len() && s[j].0 == s[i].0);
}

/// Appending an entry with a fresh key keeps keys unique, adds exactly that
/// key, and changes no other lookup.
pub proof fn lemma_assoc_push<V>(s: Seq<(u64, V)>, p: (u64, V))
    requires
        unique_keys(s),
        !assoc_has_key(s, p.0),
    ensures
        unique_keys(s.push(p)),
        forall|k: u64| #[trigger] assoc_has_key(s.push(p), k) <==> (assoc_has_key(s, k) || k == p.0),
        forall|k: u64|
            assoc_has_key(s, k) ==> #[trigger] assoc_value(s.push(p), k) == assoc_value(s, k),
        assoc_value(s.push(p), p.0) == p.1,
{
    let t = s.push(p);
    assert forall|i: int, j: int|
        0 <= i < t.len() && 0 <= j < t.len() && i != j implies (#[trigger] t[i]).0 != (
    #[trigger] t[j]).0 by {
        if i == t.len() - 1 {
            if s[j].0 == p.0 {
                assert(assoc_has_key(s, p.0));
            }
        } else if j == t.len() - 1 {
            if s[i].0 == p.0 {
                assert(assoc_has_key(s, p.0));
            }
        }
    }
    assert forall|k: u64| #[trigger] assoc_has_key(t, k) implies (assoc_has_key(s, k) || k
        == p.0) by {
        let i = choose|i: int| 0 <= i < t.len() && (#[trigger] t[i]).0 == k;
        if i < s.len() {
            assert(s[i].0 == k);
        }
    }
    assert forall|k: u64| (assoc_has_key(s, k) || k == p.0) implies #[trigger] assoc_has_key(
        t,
        k,
    ) by {
        if assoc_has_key(s, k) {
            let i = choose|i: int| 0 <= i < s.len() && (#[trigger] s[i]).0 == k;
            assert(t[i].0 == k);
        } else {
            assert(t[t.len() - 1].0 == k);
        }
    }
    assert forall|k: u64| assoc_has_key(s, k) implies #[trigger] assoc_value(t, k) == assoc_value(
        s,
        k,
    ) by {
        let i = assoc_index(s, k);
        assert(0 <= i < s.len() && s[i].0 == k);
        assert(t[i].0 == k);
        lemma_assoc_at(t, i);
        lemma_assoc_at(s, i);
    }
    lemma_assoc_at(t, t.len() - 1);
}

/// Replacing the value at position `i` keeps keys unique and changes the
/// lookup of that entry's key alone.
pub proof fn lemma_assoc_update<V>(s: Seq<(u64, V)>, i: int, v: V)
    requires
        unique_keys(s),
        0 <= i < s.len(),
    ensures
        unique_keys(s.update(i, (s[i].0, v))),
        forall|k: u64|
            #[trigger] assoc_has_key(s.update(i, (s[i].0, v)), k) <==> assoc_has_key(s, k),
        forall|k: u64|
            assoc_has_key(s, k) && k != s[i].0 ==> #[trigger] assoc_value(
                s.update(i, (s[i].0, v)),
                k,
            ) == assoc_value(s, k),
        assoc_value(s.update(i, (s[i].0, v)), s[i].0) == v,
{
    let t = s.update(i, (s[i].0, v));
    assert(forall|j: int| 0 <= j < s.len() ==> (#[trigger] t[j]).0 == s[j].0);
    assert forall|a: int, b: int|
        0 <= a < t.len() && 0 <= b < t.len() && a != b implies (#[trigger] t[a]).0 != (
    #[trigger] t[b]).0 by {
        assert(s[a].0 != s[b].0);
    }
    assert forall|k: u64| #[trigger] assoc_has_key(t, k) implies assoc_has_key(s, k) by {
        let j = choose|j: int| 0 <= j < t.len() && (#[trigger] t[j]).0 == k;
        assert(s[j].0 == k);
    }
    assert forall|k: u64| assoc_has_key(s, k) implies #[trigger] assoc_has_key(t, k) by {
        let j = choose|j: int| 0 <= j < s.len() && (#[trigger] s[j]).0 == k;
        assert(t[j].0 == k);
    }
    assert forall|k: u64| assoc_has_key(s, k) && k != s[i].0 implies #[trigger] assoc_value(t, k)
        == assoc_value(s, k) by {
        let j = assoc_index(s, k);
        assert(0 <= j < s.len() && s[j].0 == k);
        assert(j != i);
        assert(t[j] == s[j]);
        lemma_assoc_at(t, j);
        lemma_assoc_at(s, j);
    }
    lemma_assoc_at(t, i);
}

/// A stored id list holds non-sentinel bytes with no repeats: it represents
/// a set.
pub open spec fn id_list_wf(s: Seq<u8>) -> bool {
    (forall|m: int| 0 <= m < s.len() ==> slot_live(#[trigger] s[m])) && s.no_duplicates()
}

/// Every byte of an id list is an assigned id: at most `n`, the number of
/// interned terms.
pub open spec fn id_list_below(s: Seq<u8>, n: int) -> bool {
    forall|m: int| 0 <= m < s.len() ==> (#[trigger] s[m]) as int <= n
}

/// Every member of an id set is an assigned id: at most `n`, the number of
/// interned terms.
pub open spec fn set_ids_below(s: Set<u8>, n: int) -> bool {
    forall|v: u8| #[trigger] s.contains(v) ==> v as int <= n
}

/// The engine. `SMALLSIZE` is the capacity of every inline set in this
/// instance.
pub struct Database<const SMALLSIZE: usize> {
    pub(crate) terms: DoubleMap,
    pub(crate) index: Vec<(u64, IndexLocation)>,
    pub(crate) holes: Vec<usize>,
    pub(crate) small_keys: Vec<u64>,
    pub(crate) small_storage: Vec<Smallset<SMALLSIZE>>,
    pub(crate) big_storage: Vec<(u64, Vec<u8>)>,
}

impl<const SMALLSIZE: usize> Database<SMALLSIZE> {
    /// The interner itself.
    pub closed spec fn spec_interner(self) -> DoubleMap {
        self.terms
    }

    /// The interner's (term, id) pairs, in id order.
    pub open spec fn spec_term_pairs(self) -> Seq<(Seq<char>, u8)> {
        self.spec_interner()@
    }

    /// The interned terms in id order: the term with id `n` is at position
    /// `n - 1`.
    pub open spec fn spec_terms(self) -> Seq<Seq<char>> {
        self.spec_term_pairs().map_values(|p: (Seq<char>, u8)| p.0)
    }

    /// The key index as an association list.
    pub closed spec fn spec_index(self) -> Seq<(u64, IndexLocation)> {
        self.index@
    }

    /// The recycled inline slot offsets.
    pub closed spec fn spec_holes(self) -> Seq<usize> {
        self.holes@
    }

    /// The key bound to each inline slot; 0 marks an unbound slot.
    pub closed spec fn spec_small_keys(self) -> Seq<u64> {
        self.small_keys@
    }

    /// The inline sets, parallel to `spec_small_keys`.
    pub closed spec fn spec_small_sets(self) -> Seq<Smallset<SMALLSIZE>> {
        self.small_storage@
    }

    /// The unbounded tier: each key beside its id list.
    pub closed spec fn spec_big(self) -> Seq<(u64, Seq<u8>)> {
        self.big_storage@.map_values(|p: (u64, Vec<u8>)| (p.0, p.1@))
    }

    /// Whether the engine knows this key.
    pub open spec fn known(self, k: u64) -> bool {
        assoc_has_key(self.spec_index(), k)
    }

    /// Where a known key's set is stored.
    pub open spec fn loc_of(self, k: u64) -> IndexLocation {
        assoc_value(self.spec_index(), k)
    }

    /// The set of term ids attached to a known key.
    pub open spec fn ids_of(self, k: u64) -> Set<u8> {
        match self.loc_of(k) {
            IndexLocation::Small(s) => self.spec_small_sets()[s as int]@,
            IndexLocation::Big => assoc_value(self.spec_big(), k).to_set(),
        }
    }

    /// The engine's internal invariant. Interned ids are sequential from 1;
    /// the index, the inline slot array and the unbounded tier agree with
    /// one another; every key is backed by exactly one tier; the free list
    /// names exactly unbound slots, once each.
    pub open spec fn wf(self) -> bool {
        &&& self.spec_interner().wf()
        &&& self.spec_term_pairs().len() <= MAX_TERMS
        &&& forall|i: int|
            0 <= i < self.spec_term_pairs().len() ==> (#[trigger] self.spec_term_pairs()[i]).1
                as int == i + 1
        &&& self.spec_small_keys().len() == self.spec_small_sets().len()
        &&& forall|i: int|
            0 <= i < self.spec_small_sets().len() ==> (#[trigger] self.spec_small_sets()[i]).wf()
        &&& unique_keys(self.spec_index())
        &&& forall|i: int| 0 <= i < self.spec_index().len() ==> (#[trigger] self.spec_index()[i]).0 != 0
        &&& forall|i: int|
            0 <= i < self.spec_index().len() ==> match (#[trigger] self.spec_index()[i]).1 {
                IndexLocation::Small(s) => s < self.spec_small_keys().len()
                    && self.spec_small_keys()[s as int] == self.spec_index()[i].0 && !assoc_has_key(
                    self.spec_big(),
                    self.spec_index()[i].0,
                ),
                IndexLocation::Big => assoc_has_key(self.spec_big(), self.spec_index()[i].0),
            }
        &&& forall|s: int|
            0 <= s < self.spec_small_keys().len() && #[trigger] self.spec_small_keys()[s] != 0
                ==> assoc_has_key(self.spec_index(), self.spec_small_keys()[s]) && assoc_value(
                self.spec_index(),
                self.spec_small_keys()[s],
            ) == IndexLocation::Small(s as usize)
        &&& unique_keys(self.spec_big())
        &&& forall|b: int|
            0 <= b < self.spec_big().len() ==> (#[trigger] self.spec_big()[b]).0 != 0
                && assoc_has_key(self.spec_index(), self.spec_big()[b].0) && assoc_value(
                self.spec_index(),
                self.spec_big()[b].0,
            ) == IndexLocation::Big
        &&& forall|b: int|
            0 <= b < self.spec_big().len() ==> id_list_wf((#[trigger] self.spec_big()[b]).1)
        &&& forall|i: int|
            0 <= i < self.spec_small_sets().len() ==> set_ids_below(
                (#[trigger] self.spec_small_sets()[i])@,
                self.spec_term_pairs().len() as int,
            )
        &&& forall|b: int|
            0 <= b < self.spec_big().len() ==> id_list_below(
                (#[trigger] self.spec_big()[b]).1,
                self.spec_term_pairs().len() as int,
            )
        &&& forall|h: int|
            0 <= h < self.spec_holes().len() ==> (#[trigger] self.spec_holes()[h]) < self
                .spec_small_keys().len() && self.spec_small_keys()[self.spec_holes()[h] as int]
                == 0
        &&& self.spec_holes().no_duplicates()
    }

    /// Look up a key's storage location in the index.
    pub(crate) fn lookup_index(&self, key: u64) -> (r: Option<IndexLocation>)
        requires
            self.wf(),
        ensures
            match r {
                Some(loc) => self.known(key) && loc == self.loc_of(key),
                None => !self.known(key),
            },
    {
        let n = self.index.len();
        let mut i: usize = 0;
        while i < n
            invariant
                self.wf(),
                i <= n,
                n == self.spec_index().len(),
                forall|ii: int| 0 <= ii < i ==> (#[trigger] self.spec_index()[ii]).0 != key,
            decreases n - i,
        {
            let entry = &self.index[i];
            if entry.0 == key {
                proof {
                    lemma_assoc_at(self.spec_index(), i as int);
                }
                return Some(entry.1);
            }
            i = i + 1;
        }
        proof {
            if self.known(key) {
                let j = choose|j: int|
                    0 <= j < self.spec_index().len() && (#[trigger] self.spec_index()[j]).0 == key;
            }
        }
        None
    }

    /// Creates a new record for the key, reporting whether it was new.
    /// The new record starts with no terms and lives inline: when the free
    /// list is nonempty its most recently recycled offset is consumed and
    /// the key is bound there without growing the inline array, else exactly
    /// one fresh inline slot is appended.
    pub fn create_record(&mut self, key: Key) -> (r: bool)
        requires
            old(self).wf(),
        ensures
            final(self).wf(),
            r == !old(self).known(key.spec_get()),
            !r ==> *final(self) == *old(self),
            final(self).spec_term_pairs() == old(self).spec_term_pairs(),
            final(self).spec_big() == old(self).spec_big(),
            forall|k2: u64|
                #[trigger] final(self).known(k2) <==> (old(self).known(k2) || k2 == key.spec_get()),
            forall|k2: u64|
                old(self).known(k2) ==> #[trigger] final(self).ids_of(k2) == old(self).ids_of(k2)
                    && final(self).loc_of(k2) == old(self).loc_of(k2),
            final(self).known(key.spec_get()),
            final(self).ids_of(key.spec_get()) == if old(self).known(key.spec_get()) {
                old(self).ids_of(key.spec_get())
            } else {
                Set::<u8>::empty()
            },
            r && old(self).spec_holes().len() > 0 ==> final(self).spec_holes() == old(
                self,
            ).spec_holes().drop_last() && final(self).spec_small_keys() == old(
                self,
            ).spec_small_keys().update(
                old(self).spec_holes().last() as int,
                key.spec_get(),
            ) && final(self).loc_of(key.spec_get()) == IndexLocation::Small(
                old(self).spec_holes().last(),
            ),
            r && old(self).spec_holes().len() == 0 ==> final(self).spec_holes() == old(
                self,
            ).spec_holes() && final(self).spec_small_keys() == old(
                self,
            ).spec_small_keys().push(key.spec_get()) && (final(self).loc_of(key.spec_get())
                matches IndexLocation::Small(s) && s == old(self).spec_small_keys().len()),
    {
        let k = key.get();
        if self.lookup_index(k).is_some() {
            return false;
        }
        let ghost pre = *self;
        let slot_opt = self.holes.pop();
        match slot_opt {
            Some(hole) => {
                proof {
                    assert(pre.spec_holes()[pre.spec_holes().len() - 1] == hole);
                    assert(hole < self.small_keys@.len());
                    assert(self.small_keys@[hole as int] == 0);
                }
                self.small_storage[hole].clear();
                self.small_keys.set(hole, k);
                self.index.push((k, IndexLocation::Small(hole)));
                proof {
                    self.lemma_create_in_slot(pre, key, hole, true);
                }
            },
            None => {
                let fresh = self.small_storage.len();
                self.small_keys.push(k);
                self.small_storage.push(Smallset::new_empty());
                self.index.push((k, IndexLocation::Small(fresh)));
                proof {
                    self.lemma_create_in_slot(pre, key, fresh, false);
                }
            },
        }
        true
    }

    /// After binding `key` to slot `slot` (a recycled hole, or a freshly
    /// appended slot), the invariant holds again and every other key's view
    /// of the engine is unchanged.
    proof fn lemma_create_in_slot(self, pre: Self, key: Key, slot: usize, reused: bool)
        requires
            pre.wf(),
            !pre.known(key.spec_get()),
            key.spec_get() != 0,
            self.terms == pre.terms,
            self.big_storage == pre.big_storage,
            reused ==> {
                &&& pre.spec_holes().len() > 0
                &&& slot == pre.spec_holes()[pre.spec_holes().len() - 1]
                &&& self.spec_holes() == pre.spec_holes().drop_last()
                &&& 0 <= slot < pre.spec_small_keys().len()
                &&& pre.spec_small_keys()[slot as int] == 0
                &&& self.spec_small_keys() == pre.spec_small_keys().update(
                    slot as int,
                    key.spec_get(),
                )
                &&& self.spec_small_sets().len() == pre.spec_small_sets().len()
                &&& self.spec_small_sets()[slot as int].wf()
                &&& self.spec_small_sets()[slot as int]@ == Set::<u8>::empty()
                &&& forall|i: int|
                    0 <= i < pre.spec_small_sets().len() && i != slot
                        ==> #[trigger] self.spec_small_sets()[i] == pre.spec_small_sets()[i]
            },
            !reused ==> {
                &&& slot == pre.spec_small_keys().len()
                &&& self.spec_holes() == pre.spec_holes()
                &&& self.spec_small_keys() == pre.spec_small_keys().push(key.spec_get())
                &&& self.spec_small_sets().len() == pre.spec_small_sets().len() + 1
                &&& self.spec_small_sets()[slot as int].wf()
                &&& self.spec_small_sets()[slot as int]@ == Set::<u8>::empty()
                &&& forall|i: int|
                    0 <= i < pre.spec_small_sets().len() ==> #[trigger] self.spec_small_sets()[i]
                        == pre.spec_small_sets()[i]
            },
            self.spec_index() == pre.spec_index().push(
                (key.spec_get(), IndexLocation::Small(slot)),
            ),
        ensures
            self.wf(),
            forall|k2: u64|
                #[trigger] self.known(k2) <==> (pre.known(k2) || k2 == key.spec_get()),
            forall|k2: u64|
                pre.known(k2) ==> #[trigger] self.ids_of(k2) == pre.ids_of(k2) && self.loc_of(k2)
                    == pre.loc_of(k2),
            self.known(key.spec_get()),
            self.ids_of(key.spec_get()) == Set::<u8>::empty(),
            self.loc_of(key.spec_get()) == IndexLocation::Small(slot),
    {
        let k = key.spec_get();
        lemma_assoc_push(pre.spec_index(), (k, IndexLocation::Small(slot)));
        assert(self.spec_big() == pre.spec_big());
        // The freshly bound slot was not the target of any index entry.
        assert forall|i: int| 0 <= i < pre.spec_index().len() implies match (
        #[trigger] pre.spec_index()[i]).1 {
            IndexLocation::Small(s) => s != slot,
            IndexLocation::Big => true,
        } by {
            match pre.spec_index()[i].1 {
                IndexLocation::Small(s) => {
                    if s == slot {
                        if reused {
                            assert(pre.spec_small_keys()[s as int] == pre.spec_index()[i].0);
                            assert(pre.spec_index()[i].0 != 0);
                        } else {
                            assert(s < pre.spec_small_keys().len());
                        }
                    }
                },
                IndexLocation::Big => {},
            }
        }
        // Invariant clause by clause.
        assert forall|i: int| 0 <= i < self.spec_index().len() implies match (
        #[trigger] self.spec_index()[i]).1 {
            IndexLocation::Small(s) => s < self.spec_small_keys().len()
                && self.spec_small_keys()[s as int] == self.spec_index()[i].0 && !assoc_has_key(
                self.spec_big(),
                self.spec_index()[i].0,
            ),
            IndexLocation::Big => assoc_has_key(self.spec_big(), self.spec_index()[i].0),
        } by {
            if i < pre.spec_index().len() {
                assert(self.spec_index()[i] == pre.spec_index()[i]);
            } else {
                assert(self.spec_index()[i] == (k, IndexLocation::Small(slot)));
                if assoc_has_key(self.spec_big(), k) {
                    let b = assoc_index(self.spec_big(), k);
                    assert(0 <= b < pre.spec_big().len() && pre.spec_big()[b].0 == k);
                    assert(pre.known(k));
                }
            }
        }
        assert forall|s: int|
            0 <= s < self.spec_small_keys().len() && #[trigger] self.spec_small_keys()[s]
                != 0 implies assoc_has_key(self.spec_index(), self.spec_small_keys()[s])
            && assoc_value(self.spec_index(), self.spec_small_keys()[s]) == IndexLocation::Small(
            s as usize,
        ) by {
            if s == slot as int {
                assert(self.spec_small_keys()[s] == k);
            } else {
                assert(self.spec_small_keys()[s] == pre.spec_small_keys()[s]);
                assert(pre.spec_small_keys()[s] != k) by {
                    if pre.spec_small_keys()[s] == k {
                        assert(pre.known(k));
                    }
                }
            }
        }
        assert forall|h: int| 0 <= h < self.spec_holes().len() implies (
        #[trigger] self.spec_holes()[h]) < self.spec_small_keys().len() && self.spec_small_keys()[
            self.spec_holes()[h] as int
        ] == 0 by {
            if reused {
                assert(self.spec_holes()[h] == pre.spec_holes()[h]);
                assert(pre.spec_holes()[h] != slot) by {
                    if pre.spec_holes()[h] == slot {
                        assert(pre.spec_holes()[h as int] == pre.spec_holes()[pre.spec_holes().len() - 1]);
                        assert(pre.spec_holes()[pre.spec_holes().len() - 1] == slot);
                        assert(!pre.spec_holes().no_duplicates());
                    }
                }
            } else {
                assert(self.spec_holes()[h] == pre.spec_holes()[h]);
            }
        }
        assert(self.spec_holes().no_duplicates()) by {
            if reused {
                assert forall|a: int, b: int|
                    0 <= a < self.spec_holes().len() && 0 <= b < self.spec_holes().len() && a
                        != b implies self.spec_holes()[a] != self.spec_holes()[b] by {
                    assert(pre.spec_holes()[a] != pre.spec_holes()[b]);
                }
            }
        }
        // Other keys see the same state.
        assert forall|k2: u64| pre.known(k2) implies #[trigger] self.ids_of(k2) == pre.ids_of(k2)
            && self.loc_of(k2) == pre.loc_of(k2) by {
            assert(k2 != k);
            assert(self.loc_of(k2) == pre.loc_of(k2));
            match pre.loc_of(k2) {
                IndexLocation::Small(s) => {
                    let i = assoc_index(pre.spec_index(), k2);
                    assert(0 <= i < pre.spec_index().len() && pre.spec_index()[i].0 == k2);
                    lemma_assoc_at(pre.spec_index(), i);
                    assert(pre.spec_index()[i].1 == IndexLocation::Small(s));
                    assert(s != slot);
                    assert(self.spec_small_sets()[s as int] == pre.spec_small_sets()[s as int]);
                },
                IndexLocation::Big => {
                    assert(self.spec_big() == pre.spec_big());
                },
            }
        }
    }

    /// The spec accessors name exactly the concrete fields.
    pub(crate) proof fn lemma_field_views(self)
        ensures
            self.spec_interner() == self.terms,
            self.spec_index() == self.index@,
            self.spec_holes() == self.holes@,
            self.spec_small_keys() == self.small_keys@,
            self.spec_small_sets() == self.small_storage@,
            self.spec_big() == self.big_storage@.map_values(|p: (u64, Vec<u8>)| (p.0, p.1@)),
    {
    }

    /// What the index entry of a known key implies about the backing tiers.
    pub proof fn lemma_loc_facts(self, k: u64)
        requires
            self.wf(),
            self.known(k),
        ensures
            k != 0,
            match self.loc_of(k) {
                IndexLocation::Small(s) => s < self.spec_small_keys().len() && s < self
                    .spec_small_sets().len() && self.spec_small_keys()[s as int] == k
                    && !assoc_has_key(self.spec_big(), k) && self.spec_small_sets()[s as int].wf(),
                IndexLocation::Big => assoc_has_key(self.spec_big(), k),
            },
    {
        let i = assoc_index(self.spec_index(), k);
        assert(0 <= i < self.spec_index().len() && self.spec_index()[i].0 == k);
        lemma_assoc_at(self.spec_index(), i);
        assert(self.spec_index()[i].1 == self.loc_of(k));
        match self.spec_index()[i].1 {
            IndexLocation::Small(s) => {
                assert(self.spec_small_sets()[s as int].wf());
            },
            IndexLocation::Big => {},
        }
    }

    /// Two distinct bound inline slots never hold the same key.
    pub proof fn lemma_bound_keys_distinct(self)
        requires
            self.wf(),
        ensures
            forall|i: int, j: int|
                0 <= i < self.spec_small_keys().len() && 0 <= j < self.spec_small_keys().len() && i
                    != j && #[trigger] self.spec_small_keys()[i] != 0
                    && #[trigger] self.spec_small_keys()[j] != 0 ==> self.spec_small_keys()[i]
                    != self.spec_small_keys()[j],
    {
        vstd::std_specs::vec::axiom_spec_len(&self.small_keys);
        self.lemma_field_views();
        assert forall|i: int, j: int|
            0 <= i < self.spec_small_keys().len() && 0 <= j < self.spec_small_keys().len() && i
                != j && #[trigger] self.spec_small_keys()[i] != 0
                && #[trigger] self.spec_small_keys()[j] != 0 implies self.spec_small_keys()[i]
            != self.spec_small_keys()[j] by {
            if self.spec_small_keys()[i] == self.spec_small_keys()[j] {
                assert(assoc_value(self.spec_index(), self.spec_small_keys()[i])
                    == IndexLocation::Small(i as usize));
                assert(assoc_value(self.spec_index(), self.spec_small_keys()[j])
                    == IndexLocation::Small(j as usize));
            }
        }
    }

    /// No two interned terms are the same string.
    pub proof fn lemma_terms_distinct(self)
        requires
            self.wf(),
        ensures
            forall|i: int, j: int|
                0 <= i < self.spec_terms().len() && 0 <= j < self.spec_terms().len() && i != j
                    ==> #[trigger] self.spec_terms()[i] != #[trigger] self.spec_terms()[j],
    {
        assert forall|i: int, j: int|
            0 <= i < self.spec_terms().len() && 0 <= j < self.spec_terms().len() && i
                != j implies #[trigger] self.spec_terms()[i] != #[trigger] self.spec_terms()[j] by {
            assert(self.spec_terms()[i] == self.spec_term_pairs()[i].0);
            assert(self.spec_terms()[j] == self.spec_term_pairs()[j].0);
            assert(self.spec_interner().wf());
        }
    }

    /// The position of a known key's index entry.
    fn index_pos(&self, key: u64) -> (r: usize)
        requires
            self.wf(),
            self.known(key),
        ensures
            r < self.spec_index().len(),
            self.spec_index()[r as int].0 == key,
            r == assoc_index(self.spec_index(), key),
            self.spec_index()[r as int].1 == self.loc_of(key),
    {
        let n = self.index.len();
        let mut i: usize = 0;
        while i < n
            invariant
                self.wf(),
                i <= n,
                n == self.spec_index().len(),
                forall|ii: int| 0 <= ii < i ==> (#[trigger] self.spec_index()[ii]).0 != key,
            decreases n - i,
        {
            if self.index[i].0 == key {
                proof {
                    lemma_assoc_at(self.spec_index(), i as int);
                }
                return i;
            }
            i = i + 1;
        }
        proof {
            let j = choose|j: int|
                0 <= j < self.spec_index().len() && (#[trigger] self.spec_index()[j]).0 == key;
            assert(false);
        }
        0
    }

    /// The position of a key's entry in the unbounded tier.
    pub(crate) fn big_pos(&self, key: u64) -> (r: usize)
        requires
            self.wf(),
            assoc_has_key(self.spec_big(), key),
        ensures
            r < self.spec_big().len(),
            self.spec_big()[r as int].0 == key,
            r == assoc_index(self.spec_big(), key),
    {
        let n = self.big_storage.len();
        let mut i: usize = 0;
        while i < n
            invariant
                self.wf(),
                i <= n,
                n == self.spec_big().len(),
                forall|ii: int| 0 <= ii < i ==> (#[trigger] self.spec_big()[ii]).0 != key,
            decreases n - i,
        {
            let entry = &self.big_storage[i];
            proof {
                assert(self.spec_big()[i as int].0 == self.big_storage@[i as int].0);
            }
            if entry.0 == key {
                proof {
                    lemma_assoc_at(self.spec_big(), i as int);
                }
                return i;
            }
            i = i + 1;
        }
        proof {
            let j = choose|j: int|
                0 <= j < self.spec_big().len() && (#[trigger] self.spec_big()[j]).0 == key;
            assert(false);
        }
        0
    }

    /// Insert an id into a key's unbounded set, reporting whether it is new.
    /// The unbounded tier never reports "full".
    fn big_insert(&mut self, key: u64, item: SmallsetItem) -> (newly: bool)
        requires
            old(self).wf(),
            old(self).known(key),
            old(self).loc_of(key) is Big,
            item.spec_get() as int <= old(self).spec_term_pairs().len(),
        ensures
            final(self).wf(),
            final(self).spec_term_pairs() == old(self).spec_term_pairs(),
            final(self).spec_index() == old(self).spec_index(),
            final(self).spec_holes() == old(self).spec_holes(),
            final(self).spec_small_keys() == old(self).spec_small_keys(),
            final(self).spec_small_sets() == old(self).spec_small_sets(),
            final(self).spec_big().len() == old(self).spec_big().len(),
            forall|b: int|
                0 <= b < old(self).spec_big().len() ==> (#[trigger] final(self).spec_big()[b]).0
                    == old(self).spec_big()[b].0,
            newly == !old(self).ids_of(key).contains(item.spec_get()),
            final(self).ids_of(key) == old(self).ids_of(key).insert(item.spec_get()),
            forall|k2: u64|
                k2 != key && old(self).known(k2) ==> #[trigger] final(self).ids_of(k2) == old(
                    self,
                ).ids_of(k2),
    {
        let id = item.get();
        proof {
            self.lemma_loc_facts(key);
        }
        let pos = self.big_pos(key);
        let ghost oldlist = self.spec_big()[pos as int].1;
        proof {
            assert(old(self).ids_of(key) == oldlist.to_set()) by {
                assert(assoc_value(self.spec_big(), key) == oldlist);
            }
        }
        let n = self.big_storage[pos].1.len();
        let mut j: usize = 0;
        while j < n
            invariant
                *self == *old(self),
                self.wf(),
                id == item.spec_get(),
                slot_live(id),
                pos < self.spec_big().len(),
                pos < self.big_storage@.len(),
                pos as int == assoc_index(self.spec_big(), key),
                self.spec_big()[pos as int].0 == key,
                oldlist == self.spec_big()[pos as int].1,
                old(self).known(key),
                old(self).loc_of(key) is Big,
                old(self).ids_of(key) == oldlist.to_set(),
                j <= n,
                n == oldlist.len(),
                forall|jj: int| 0 <= jj < j ==> oldlist[jj] != id,
            decreases n - j,
        {
            let entry = &self.big_storage[pos];
            proof {
                assert(oldlist == self.big_storage@[pos as int].1@);
            }
            if entry.1[j] == id {
                proof {
                    assert(oldlist.contains(id)) by {
                        assert(oldlist[j as int] == id);
                    }
                    assert(old(self).ids_of(key).contains(id));
                    assert(old(self).ids_of(key).insert(id) =~= old(self).ids_of(key));
                }
                return false;
            }
            j = j + 1;
        }
        proof {
            assert(!oldlist.contains(id)) by {
                if oldlist.contains(id) {
                    let jj = choose|jj: int| 0 <= jj < oldlist.len() && oldlist[jj] == id;
                }
            }
            assert(!old(self).ids_of(key).contains(id));
        }
        // Copy the list, extend it, and write the entry back.
        let mut list: Vec<u8> = Vec::new();
        let mut j2: usize = 0;
        while j2 < n
            invariant
                *self == *old(self),
                pos < self.spec_big().len(),
                pos < self.big_storage@.len(),
                n == oldlist.len(),
                oldlist == self.spec_big()[pos as int].1,
                j2 <= n,
                list@ == oldlist.subrange(0, j2 as int),
            decreases n - j2,
        {
            let entry = &self.big_storage[pos];
            proof {
                assert(oldlist == self.big_storage@[pos as int].1@);
            }
            list.push(entry.1[j2]);
            proof {
                assert(list@ =~= oldlist.subrange(0, j2 as int + 1));
            }
            j2 = j2 + 1;
        }
        proof {
            assert(list@ =~= oldlist);
        }
        list.push(id);
        self.big_storage.set(pos, (key, list));
        proof {
            assert(self.big_storage@[pos as int].1@ == oldlist.push(id));
            self.lemma_big_entry_extended(*old(self), key, pos as int, id);
        }
        true
    }

    /// After extending the id list of the unbounded entry at `pos` with a
    /// fresh non-sentinel id, the invariant holds again, the entry's key now
    /// maps to the extended set, and every other key is untouched.
    proof fn lemma_big_entry_extended(self, pre: Self, key: u64, pos: int, id: u8)
        requires
            pre.wf(),
            pre.known(key),
            pre.loc_of(key) is Big,
            0 <= pos < pre.spec_big().len(),
            pre.spec_big()[pos].0 == key,
            pos == assoc_index(pre.spec_big(), key),
            slot_live(id),
            id as int <= pre.spec_term_pairs().len(),
            !pre.spec_big()[pos].1.contains(id),
            self.terms == pre.terms,
            self.index == pre.index,
            self.holes == pre.holes,
            self.small_keys == pre.small_keys,
            self.small_storage == pre.small_storage,
            self.big_storage@.len() == pre.big_storage@.len(),
            forall|b: int|
                0 <= b < pre.big_storage@.len() && b != pos ==> #[trigger] self.big_storage@[b]
                    == pre.big_storage@[b],
            self.big_storage@[pos].0 == key,
            self.big_storage@[pos].1@ == pre.spec_big()[pos].1.push(id),
        ensures
            self.wf(),
            self.spec_big().len() == pre.spec_big().len(),
            forall|b: int|
                0 <= b < pre.spec_big().len() ==> (#[trigger] self.spec_big()[b]).0 == pre
                    .spec_big()[b].0,
            self.ids_of(key) == pre.ids_of(key).insert(id),
            forall|k2: u64|
                k2 != key && pre.known(k2) ==> #[trigger] self.ids_of(k2) == pre.ids_of(k2),
    {
        let oldlist = pre.spec_big()[pos].1;
        let newlist = oldlist.push(id);
        assert(self.spec_big() =~= pre.spec_big().update(pos, (key, newlist)));
        lemma_assoc_update(pre.spec_big(), pos, newlist);
        assert forall|b: int| 0 <= b < pre.spec_big().len() implies (
        #[trigger] self.spec_big()[b]).0 == pre.spec_big()[b].0 by {
            if b != pos {
                assert(self.spec_big()[b] == pre.spec_big()[b]);
            }
        }
        // The invariant, clause by clause.
        assert forall|b: int| 0 <= b < self.spec_big().len() implies id_list_wf(
            (#[trigger] self.spec_big()[b]).1,
        ) by {
            if b == pos {
                assert(id_list_wf(oldlist));
                assert forall|m: int, m2: int|
                    0 <= m < newlist.len() && 0 <= m2 < newlist.len() && m != m2 implies newlist[m]
                    != newlist[m2] by {
                    if m == newlist.len() - 1 {
                        if newlist[m] == newlist[m2] {
                            assert(oldlist.contains(id)) by {
                                assert(oldlist[m2] == id);
                            }
                        }
                    } else if m2 == newlist.len() - 1 {
                        if newlist[m] == newlist[m2] {
                            assert(oldlist.contains(id)) by {
                                assert(oldlist[m] == id);
                            }
                        }
                    } else {
                        assert(oldlist[m] != oldlist[m2]);
                    }
                }
                assert(newlist.no_duplicates());
                assert forall|m: int| 0 <= m < newlist.len() implies slot_live(
                    #[trigger] newlist[m],
                ) by {
                    if m < newlist.len() - 1 {
                        assert(slot_live(oldlist[m]));
                    }
                }
            } else {
                assert(self.spec_big()[b] == pre.spec_big()[b]);
                assert(id_list_wf(pre.spec_big()[b].1));
            }
        }
        assert forall|i: int| 0 <= i < self.spec_index().len() implies match (
        #[trigger] self.spec_index()[i]).1 {
            IndexLocation::Small(s) => s < self.spec_small_keys().len()
                && self.spec_small_keys()[s as int] == self.spec_index()[i].0 && !assoc_has_key(
                self.spec_big(),
                self.spec_index()[i].0,
            ),
            IndexLocation::Big => assoc_has_key(self.spec_big(), self.spec_index()[i].0),
        } by {
            assert(pre.spec_index()[i] == self.spec_index()[i]);
        }
        assert forall|b: int| 0 <= b < self.spec_big().len() implies (
        #[trigger] self.spec_big()[b]).0 != 0 && assoc_has_key(
            self.spec_index(),
            self.spec_big()[b].0,
        ) && assoc_value(self.spec_index(), self.spec_big()[b].0) == IndexLocation::Big by {
            assert(self.spec_big()[b].0 == pre.spec_big()[b].0);
        }
        assert forall|b: int| 0 <= b < self.spec_big().len() implies id_list_below(
            (#[trigger] self.spec_big()[b]).1,
            self.spec_term_pairs().len() as int,
        ) by {
            if b == pos {
                assert forall|m: int| 0 <= m < newlist.len() implies (#[trigger] newlist[m]) as int
                    <= self.spec_term_pairs().len() by {
                    if m < newlist.len() - 1 {
                        assert(oldlist[m] as int <= pre.spec_term_pairs().len());
                    }
                }
            } else {
                assert(self.spec_big()[b] == pre.spec_big()[b]);
                assert(id_list_below(pre.spec_big()[b].1, pre.spec_term_pairs().len() as int));
            }
        }
        // The key's set gained exactly the new id.
        assert(assoc_value(self.spec_big(), key) == newlist);
        assert(self.loc_of(key) == pre.loc_of(key));
        assert(pre.ids_of(key) == oldlist.to_set()) by {
            assert(assoc_value(pre.spec_big(), key) == oldlist);
        }
        assert(self.ids_of(key) =~= pre.ids_of(key).insert(id)) by {
            assert forall|u: u8| newlist.to_set().contains(u) implies oldlist.to_set().insert(
                id,
            ).contains(u) by {
                let m = choose|m: int| 0 <= m < newlist.len() && newlist[m] == u;
                if m < newlist.len() - 1 {
                    assert(oldlist[m] == u);
                    assert(oldlist.contains(u));
                }
            }
            assert forall|u: u8| oldlist.to_set().insert(id).contains(u) implies newlist.to_set()
                .contains(u) by {
                if u == id {
                    assert(newlist[newlist.len() - 1] == u);
                } else {
                    let m = choose|m: int| 0 <= m < oldlist.len() && oldlist[m] == u;
                    assert(newlist[m] == u);
                }
                assert(newlist.contains(u));
            }
        }
        // Every other key's set is untouched.
        assert forall|k2: u64| k2 != key && pre.known(k2) implies #[trigger] self.ids_of(k2)
            == pre.ids_of(k2) by {
            pre.lemma_loc_facts(k2);
            assert(self.loc_of(k2) == pre.loc_of(k2));
            match pre.loc_of(k2) {
                IndexLocation::Small(s) => {},
                IndexLocation::Big => {
                    assert(assoc_value(self.spec_big(), k2) == assoc_value(pre.spec_big(), k2));
                },
            }
        }
    }

    /// Migrate a key's set from its inline slot to the unbounded tier: copy
    /// every element over, repoint the index entry, unbind the slot and push
    /// the vacated offset onto the free list. One-way; the key's set of ids
    /// is preserved exactly, no other key's location moves, and at no point
    /// is the key in both tiers or in neither.
    fn evict_into_large(&mut self, key: Key)
        requires
            old(self).wf(),
            old(self).known(key.spec_get()),
            old(self).loc_of(key.spec_get()) is Small,
        ensures
            final(self).wf(),
            final(self).spec_term_pairs() == old(self).spec_term_pairs(),
            forall|k2: u64| #[trigger] final(self).known(k2) <==> old(self).known(k2),
            forall|k2: u64|
                old(self).known(k2) ==> #[trigger] final(self).ids_of(k2) == old(self).ids_of(k2),
            forall|k2: u64|
                old(self).known(k2) && k2 != key.spec_get() ==> #[trigger] final(self).loc_of(k2)
                    == old(self).loc_of(k2),
            final(self).loc_of(key.spec_get()) is Big,
            old(self).loc_of(key.spec_get()) matches IndexLocation::Small(s)
                ==> final(self).spec_holes() == old(self).spec_holes().push(s)
                && final(self).spec_small_keys() == old(self).spec_small_keys().update(
                s as int,
                0u64,
            ),
    {
        let k = key.get();
        let ipos = self.index_pos(k);
        proof {
            self.lemma_loc_facts(k);
        }
        let s = match self.index[ipos].1 {
            IndexLocation::Small(s) => s,
            IndexLocation::Big => {
                proof {
                    assert(false);
                }
                0
            },
        };
        let items = self.small_storage[s].iter();
        proof {
            self.spec_small_sets()[s as int].lemma_iter_props();
        }
        let ghost pre = *self;
        self.big_storage.push((k, items));
        self.index.set(ipos, (k, IndexLocation::Big));
        self.small_keys.set(s, 0);
        self.holes.push(s);
        proof {
            assert(self.spec_big() =~= pre.spec_big().push((k, items@)));
            self.lemma_evicted(pre, k, ipos as int, s, items@);
        }
    }

    /// After copying the inline set at slot `s` into a fresh unbounded entry,
    /// repointing the key's index entry, unbinding the slot and recycling it,
    /// the invariant holds again and every key maps to the same id set.
    proof fn lemma_evicted(self, pre: Self, k: u64, ipos: int, s: usize, items: Seq<u8>)
        requires
            pre.wf(),
            pre.known(k),
            k != 0,
            0 <= ipos < pre.spec_index().len(),
            pre.spec_index()[ipos] == (k, IndexLocation::Small(s)),
            ipos == assoc_index(pre.spec_index(), k),
            pre.loc_of(k) == IndexLocation::Small(s),
            s < pre.spec_small_keys().len(),
            pre.spec_small_keys()[s as int] == k,
            !assoc_has_key(pre.spec_big(), k),
            items.to_set() == pre.spec_small_sets()[s as int]@,
            id_list_wf(items),
            self.terms == pre.terms,
            self.small_storage == pre.small_storage,
            self.spec_big() == pre.spec_big().push((k, items)),
            self.spec_index() == pre.spec_index().update(ipos, (k, IndexLocation::Big)),
            self.spec_small_keys() == pre.spec_small_keys().update(s as int, 0u64),
            self.spec_holes() == pre.spec_holes().push(s),
        ensures
            self.wf(),
            forall|k2: u64| #[trigger] self.known(k2) <==> pre.known(k2),
            forall|k2: u64|
                pre.known(k2) ==> #[trigger] self.ids_of(k2) == pre.ids_of(k2),
            forall|k2: u64|
                pre.known(k2) && k2 != k ==> #[trigger] self.loc_of(k2) == pre.loc_of(k2),
            self.loc_of(k) is Big,
    {
        vstd::std_specs::vec::axiom_spec_len(&pre.small_keys);
        lemma_assoc_update(pre.spec_index(), ipos, IndexLocation::Big);
        lemma_assoc_push(pre.spec_big(), (k, items));
        assert(self.spec_index() == pre.spec_index().update(
            ipos,
            (pre.spec_index()[ipos].0, IndexLocation::Big),
        ));
        assert(self.loc_of(k) == IndexLocation::Big);
        // Keys other than `k` keep their index entries.
        assert forall|k2: u64| #[trigger] self.known(k2) <==> pre.known(k2) by {}
        assert forall|k2: u64| pre.known(k2) && k2 != k implies self.loc_of(k2) == pre.loc_of(
            k2,
        ) by {}
        // The invariant, clause by clause.
        assert forall|i: int| 0 <= i < self.spec_index().len() implies (
        #[trigger] self.spec_index()[i]).0 != 0 by {
            if i != ipos {
                assert(self.spec_index()[i] == pre.spec_index()[i]);
            }
        }
        assert forall|i: int| 0 <= i < self.spec_index().len() implies match (
        #[trigger] self.spec_index()[i]).1 {
            IndexLocation::Small(s2) => s2 < self.spec_small_keys().len()
                && self.spec_small_keys()[s2 as int] == self.spec_index()[i].0 && !assoc_has_key(
                self.spec_big(),
                self.spec_index()[i].0,
            ),
            IndexLocation::Big => assoc_has_key(self.spec_big(), self.spec_index()[i].0),
        } by {
            if i == ipos {
                assert(self.spec_index()[i] == (k, IndexLocation::Big));
            } else {
                assert(self.spec_index()[i] == pre.spec_index()[i]);
                let key_i = pre.spec_index()[i].0;
                assert(key_i != k);
                match pre.spec_index()[i].1 {
                    IndexLocation::Small(s2) => {
                        assert(pre.spec_small_keys()[s2 as int] == key_i);
                        assert(s2 != s) by {
                            if s2 == s {
                                assert(pre.spec_small_keys()[s as int] == key_i);
                            }
                        }
                        assert(self.spec_small_keys()[s2 as int] == key_i);
                    },
                    IndexLocation::Big => {},
                }
            }
        }
        assert forall|s2: int|
            0 <= s2 < self.spec_small_keys().len() && #[trigger] self.spec_small_keys()[s2]
                != 0 implies assoc_has_key(self.spec_index(), self.spec_small_keys()[s2])
            && assoc_value(self.spec_index(), self.spec_small_keys()[s2]) == IndexLocation::Small(
            s2 as usize,
        ) by {
            assert(s2 != s);
            let k2 = pre.spec_small_keys()[s2];
            assert(self.spec_small_keys()[s2] == k2);
            assert(k2 != k) by {
                if k2 == k {
                    assert(assoc_value(pre.spec_index(), k) == IndexLocation::Small(s2 as usize));
                }
            }
        }
        assert forall|b: int| 0 <= b < self.spec_big().len() implies (
        #[trigger] self.spec_big()[b]).0 != 0 && assoc_has_key(
            self.spec_index(),
            self.spec_big()[b].0,
        ) && assoc_value(self.spec_index(), self.spec_big()[b].0) == IndexLocation::Big by {
            if b < pre.spec_big().len() {
                assert(self.spec_big()[b] == pre.spec_big()[b]);
                assert(pre.spec_big()[b].0 != k);
            } else {
                assert(self.spec_big()[b] == (k, items));
            }
        }
        assert forall|b: int| 0 <= b < self.spec_big().len() implies id_list_wf(
            (#[trigger] self.spec_big()[b]).1,
        ) by {
            if b < pre.spec_big().len() {
                assert(self.spec_big()[b] == pre.spec_big()[b]);
                assert(id_list_wf(pre.spec_big()[b].1));
            }
        }
        assert forall|b: int| 0 <= b < self.spec_big().len() implies id_list_below(
            (#[trigger] self.spec_big()[b]).1,
            self.spec_term_pairs().len() as int,
        ) by {
            if b < pre.spec_big().len() {
                assert(self.spec_big()[b] == pre.spec_big()[b]);
                assert(id_list_below(pre.spec_big()[b].1, pre.spec_term_pairs().len() as int));
            } else {
                assert(self.spec_big()[b] == (k, items));
                assert(set_ids_below(
                    pre.spec_small_sets()[s as int]@,
                    pre.spec_term_pairs().len() as int,
                ));
                assert forall|m: int| 0 <= m < items.len() implies (#[trigger] items[m]) as int
                    <= self.spec_term_pairs().len() by {
                    assert(items.contains(items[m]));
                    assert(items.to_set().contains(items[m]));
                }
            }
        }
        assert forall|h: int| 0 <= h < self.spec_holes().len() implies (
        #[trigger] self.spec_holes()[h]) < self.spec_small_keys().len()
            && self.spec_small_keys()[self.spec_holes()[h] as int] == 0 by {
            if h < pre.spec_holes().len() {
                assert(self.spec_holes()[h] == pre.spec_holes()[h]);
                assert(pre.spec_small_keys()[pre.spec_holes()[h] as int] == 0);
                assert(pre.spec_holes()[h] != s) by {
                    if pre.spec_holes()[h] == s {
                        assert(pre.spec_small_keys()[s as int] == 0);
                    }
                }
            } else {
                assert(self.spec_holes()[h] == s);
            }
        }
        assert(self.spec_holes().no_duplicates()) by {
            assert forall|a: int, b: int|
                0 <= a < self.spec_holes().len() && 0 <= b < self.spec_holes().len() && a
                    != b implies self.spec_holes()[a] != self.spec_holes()[b] by {
                if a < pre.spec_holes().len() && b < pre.spec_holes().len() {
                    assert(pre.spec_holes()[a] != pre.spec_holes()[b]);
                } else if a < pre.spec_holes().len() {
                    assert(self.spec_holes()[b] == s);
                    if pre.spec_holes()[a] == s {
                        assert(pre.spec_small_keys()[s as int] == 0);
                    }
                } else {
                    assert(self.spec_holes()[a] == s);
                    if b < pre.spec_holes().len() && pre.spec_holes()[b] == s {
                        assert(pre.spec_small_keys()[s as int] == 0);
                    }
                }
            }
        }
        // Every key keeps its id set.
        assert forall|k2: u64| pre.known(k2) implies #[trigger] self.ids_of(k2) == pre.ids_of(
            k2,
        ) by {
            if k2 == k {
                assert(assoc_value(self.spec_big(), k) == items);
                assert(self.ids_of(k) == items.to_set());
                assert(pre.ids_of(k) == pre.spec_small_sets()[s as int]@);
            } else {
                assert(self.loc_of(k2) == pre.loc_of(k2));
                match pre.loc_of(k2) {
                    IndexLocation::Small(s2) => {},
                    IndexLocation::Big => {
                        pre.lemma_loc_facts(k2);
                        assert(assoc_value(self.spec_big(), k2) == assoc_value(
                            pre.spec_big(),
                            k2,
                        ));
                    },
                }
            }
        }
    }

    /// After replacing the inline set at slot `s` (the slot of key `k`) with
    /// a well-formed set holding the old elements plus `id`, the invariant
    /// holds again, `k` maps to the extended set and no other key changed.
    proof fn lemma_small_set_changed(self, pre: Self, k: u64, s: usize, id: u8)
        requires
            pre.wf(),
            pre.known(k),
            pre.loc_of(k) == IndexLocation::Small(s),
            s < pre.spec_small_sets().len(),
            slot_live(id),
            id as int <= pre.spec_term_pairs().len(),
            self.terms == pre.terms,
            self.index == pre.index,
            self.holes == pre.holes,
            self.small_keys == pre.small_keys,
            self.big_storage == pre.big_storage,
            self.spec_small_sets().len() == pre.spec_small_sets().len(),
            forall|i: int|
                0 <= i < pre.spec_small_sets().len() && i != s ==> #[trigger] self.spec_small_sets()[i]
                    == pre.spec_small_sets()[i],
            self.spec_small_sets()[s as int].wf(),
            self.spec_small_sets()[s as int]@ == pre.spec_small_sets()[s as int]@.insert(id),
        ensures
            self.wf(),
            self.spec_term_pairs() == pre.spec_term_pairs(),
            forall|k2: u64| #[trigger] self.known(k2) <==> pre.known(k2),
            forall|k2: u64|
                pre.known(k2) && k2 != k ==> #[trigger] self.ids_of(k2) == pre.ids_of(k2),
            forall|k2: u64| #[trigger] self.loc_of(k2) == pre.loc_of(k2),
            self.ids_of(k) == pre.ids_of(k).insert(id),
    {
        assert forall|k2: u64| #[trigger] self.loc_of(k2) == pre.loc_of(k2) by {}
        assert forall|i: int| 0 <= i < self.spec_small_sets().len() implies (
        #[trigger] self.spec_small_sets()[i]).wf() by {
            if i != s {
                assert(self.spec_small_sets()[i] == pre.spec_small_sets()[i]);
                assert(pre.spec_small_sets()[i].wf());
            }
        }
        assert forall|i: int| 0 <= i < self.spec_small_sets().len() implies set_ids_below(
            (#[trigger] self.spec_small_sets()[i])@,
            self.spec_term_pairs().len() as int,
        ) by {
            if i == s {
                assert(set_ids_below(
                    pre.spec_small_sets()[s as int]@,
                    pre.spec_term_pairs().len() as int,
                ));
                assert forall|v: u8|
                    #[trigger] self.spec_small_sets()[s as int]@.contains(v) implies v as int
                    <= self.spec_term_pairs().len() by {
                    if v != id {
                        assert(pre.spec_small_sets()[s as int]@.contains(v));
                    }
                }
            } else {
                assert(self.spec_small_sets()[i] == pre.spec_small_sets()[i]);
                assert(set_ids_below(
                    pre.spec_small_sets()[i]@,
                    pre.spec_term_pairs().len() as int,
                ));
            }
        }
        assert(self.ids_of(k) == pre.ids_of(k).insert(id)) by {
            assert(self.loc_of(k) == pre.loc_of(k));
        }
        assert forall|k2: u64| pre.known(k2) && k2 != k implies #[trigger] self.ids_of(k2)
            == pre.ids_of(k2) by {
            assert(self.loc_of(k2) == pre.loc_of(k2));
            match pre.loc_of(k2) {
                IndexLocation::Small(s2) => {
                    pre.lemma_loc_facts(k2);
                    pre.lemma_loc_facts(k);
                    assert(pre.spec_small_keys()[s2 as int] == k2);
                    assert(s2 != s) by {
                        if s2 == s {
                            assert(pre.spec_small_keys()[s as int] == k);
                        }
                    }
                    assert(self.spec_small_sets()[s2 as int] == pre.spec_small_sets()[s2 as int]);
                },
                IndexLocation::Big => {},
            }
        }
    }

    /// Chaining the interning step, the record-creation step and the actual
    /// set extension yields exactly the `set_flag` transition.
    proof fn lemma_set_flag_compose(
        pre0: Self,
        pre1: Self,
        pre2: Self,
        post: Self,
        k: u64,
        t: Seq<char>,
        id: u8,
        newly: bool,
    )
        requires
            pre1.spec_index() == pre0.spec_index(),
            pre1.spec_small_keys() == pre0.spec_small_keys(),
            pre1.spec_small_sets() == pre0.spec_small_sets(),
            pre1.spec_big() == pre0.spec_big(),
            id as int == interned_id(pre0.spec_terms(), t),
            pre1.spec_terms() == terms_after_intern(pre0.spec_terms(), t),
            pre2.spec_term_pairs() == pre1.spec_term_pairs(),
            forall|k2: u64| #[trigger] pre2.known(k2) <==> (pre1.known(k2) || k2 == k),
            forall|k2: u64| pre1.known(k2) ==> #[trigger] pre2.ids_of(k2) == pre1.ids_of(k2),
            forall|k2: u64| pre1.known(k2) ==> #[trigger] pre2.loc_of(k2) == pre1.loc_of(k2),
            pre2.known(k),
            pre2.ids_of(k) == if pre1.known(k) {
                pre1.ids_of(k)
            } else {
                Set::<u8>::empty()
            },
            post.spec_term_pairs() == pre2.spec_term_pairs(),
            forall|k2: u64| #[trigger] post.known(k2) <==> pre2.known(k2),
            forall|k2: u64|
                pre2.known(k2) && k2 != k ==> #[trigger] post.ids_of(k2) == pre2.ids_of(k2),
            forall|k2: u64|
                pre2.known(k2) && k2 != k ==> #[trigger] post.loc_of(k2) == pre2.loc_of(k2),
            post.loc_of(k) == pre2.loc_of(k) || post.loc_of(k) is Big,
            post.ids_of(k) == pre2.ids_of(k).insert(id),
            newly == !pre2.ids_of(k).contains(id),
        ensures
            Self::set_flag_post(pre0, post, k, t, newly),
    {
        assert forall|k2: u64| #[trigger] pre1.known(k2) == pre0.known(k2) by {}
        assert forall|k2: u64| #[trigger] pre1.ids_of(k2) == pre0.ids_of(k2) by {
            assert(pre1.loc_of(k2) == pre0.loc_of(k2));
        }
        assert forall|k2: u64| #[trigger] pre1.loc_of(k2) == pre0.loc_of(k2) by {}
        assert forall|k2: u64|
            pre0.known(k2) && k2 != k implies #[trigger] post.loc_of(k2) == pre0.loc_of(k2) by {
            assert(pre1.known(k2));
            assert(pre2.known(k2));
            assert(pre2.loc_of(k2) == pre1.loc_of(k2));
        }
        if pre0.known(k) && pre0.loc_of(k) is Big {
            assert(pre1.known(k));
            assert(pre2.loc_of(k) == pre1.loc_of(k));
            assert(post.loc_of(k) is Big);
        }
        assert(post.spec_terms() == pre2.spec_terms());
        assert(pre2.spec_terms() == pre1.spec_terms());
        assert(interned_id(pre0.spec_terms(), t) as u8 == id);
        assert forall|k2: u64| #[trigger] post.known(k2) <==> (pre0.known(k2) || k2 == k) by {}
        assert forall|k2: u64|
            pre0.known(k2) && k2 != k implies #[trigger] post.ids_of(k2) == pre0.ids_of(k2) by {
            assert(pre1.known(k2));
            assert(pre2.known(k2));
        }
    }

    /// The transition `set_flag` performs, over the engine's mathematical
    /// views: the term is interned (fresh terms get the next id), the key is
    /// created if absent, the interned id joins the key's set, and nothing
    /// else changes. `newly` reports whether the key lacked the term before.
    pub open spec fn set_flag_post(
        pre: Self,
        post: Self,
        k: u64,
        t: Seq<char>,
        newly: bool,
    ) -> bool {
        let id = interned_id(pre.spec_terms(), t) as u8;
        let pre_ids = if pre.known(k) {
            pre.ids_of(k)
        } else {
            Set::<u8>::empty()
        };
        &&& post.spec_terms() == terms_after_intern(pre.spec_terms(), t)
        &&& forall|k2: u64| #[trigger] post.known(k2) <==> (pre.known(k2) || k2 == k)
        &&& forall|k2: u64|
            pre.known(k2) && k2 != k ==> #[trigger] post.ids_of(k2) == pre.ids_of(k2)
        &&& forall|k2: u64|
            pre.known(k2) && k2 != k ==> #[trigger] post.loc_of(k2) == pre.loc_of(k2)
        &&& (pre.known(k) && pre.loc_of(k) is Big ==> post.loc_of(k) is Big)
        &&& post.ids_of(k) == pre_ids.insert(id)
        &&& newly == !pre_ids.contains(id)
    }

    /// Attach a term to a key, interning the term and creating the record as
    /// needed. When the key's inline set is full, the key migrates to the
    /// unbounded tier and the insert is retried there, which always succeeds:
    /// the only error is term-id exhaustion.
    pub fn set_flag(&mut self, key: Key, term: &str) -> (r: Result<bool, ()>)
        requires
            old(self).wf(),
            SMALLSIZE >= 1,
        ensures
            final(self).wf(),
            match r {
                Ok(newly) => Self::set_flag_post(
                    *old(self),
                    *final(self),
                    key.spec_get(),
                    term@,
                    newly,
                ),
                Err(()) => *final(self) == *old(self),
            },
            r is Ok <==> intern_ok(old(self).spec_terms(), term@),
            old(self).known(key.spec_get()) ==> (old(self).loc_of(key.spec_get())
                matches IndexLocation::Small(s) ==> ({
                &&& final(self).loc_of(key.spec_get()) == IndexLocation::Small(s)
                &&& final(self).spec_holes() == old(self).spec_holes()
                &&& final(self).spec_small_keys() == old(self).spec_small_keys()
            } || {
                &&& final(self).loc_of(key.spec_get()) is Big
                &&& final(self).spec_holes() == old(self).spec_holes().push(s)
                &&& final(self).spec_small_keys() == old(self).spec_small_keys().update(
                    s as int,
                    0u64,
                )
            })),
    {
        let item = match self.add_term(term) {
            Ok(it) => it,
            Err(()) => {
                return Err(());
            },
        };
        let ghost id = item.spec_get();
        let ghost pre1 = *self;
        self.create_record(key);
        let ghost pre2 = *self;
        let k = key.get();
        proof {
            assert(forall|k2: u64| #[trigger] pre1.ids_of(k2) == old(self).ids_of(k2));
            assert(forall|k2: u64| #[trigger] pre1.known(k2) == old(self).known(k2));
            assert(forall|k2: u64| #[trigger] pre1.loc_of(k2) == old(self).loc_of(k2));
            assert(self.known(k));
            self.lemma_loc_facts(k);
            assert(pre2.ids_of(k) == if old(self).known(k) {
                old(self).ids_of(k)
            } else {
                Set::<u8>::empty()
            });
            assert forall|k2: u64|
                pre1.known(k2) implies #[trigger] pre2.loc_of(k2) == pre1.loc_of(k2) by {
                assert(pre2.ids_of(k2) == pre1.ids_of(k2));
            }
            assert(id as int <= pre2.spec_term_pairs().len()) by {
                if terms_contain(old(self).spec_terms(), term@) {
                    let p = term_position(old(self).spec_terms(), term@);
                    assert(0 <= p < old(self).spec_terms().len() && old(self).spec_terms()[p]
                        == term@);
                }
            }
            if old(self).known(k) {
                assert(pre2 == pre1);
                assert(pre2.loc_of(k) == old(self).loc_of(k));
                assert(pre2.spec_holes() == old(self).spec_holes());
                assert(pre2.spec_small_keys() == old(self).spec_small_keys());
            }
        }
        let loc = match self.lookup_index(k) {
            Some(l) => l,
            None => {
                proof {
                    assert(false);
                }
                IndexLocation::Big
            },
        };
        match loc {
            IndexLocation::Small(s) => {
                let res = self.small_storage[s].insert(item);
                match res {
                    Ok(newly) => {
                        proof {
                            if newly {
                                self.lemma_small_set_changed(pre2, k, s, id);
                            } else {
                                assert(pre2.spec_small_sets()[s as int]@.contains(id));
                                assert(self.spec_small_sets()[s as int]@
                                    == pre2.spec_small_sets()[s as int]@.insert(id)) by {
                                    assert(self.spec_small_sets()[s as int]
                                        == pre2.spec_small_sets()[s as int]);
                                    assert(pre2.spec_small_sets()[s as int]@.insert(id)
                                        =~= pre2.spec_small_sets()[s as int]@);
                                }
                                self.lemma_small_set_changed(pre2, k, s, id);
                            }
                            assert(newly == !pre2.ids_of(k).contains(id)) by {
                                assert(pre2.ids_of(k) == pre2.spec_small_sets()[s as int]@);
                            }
                            Self::lemma_set_flag_compose(
                                *old(self),
                                pre1,
                                pre2,
                                *self,
                                k,
                                term@,
                                id,
                                newly,
                            );
                            if old(self).known(k) {
                                assert(self.loc_of(k) == pre2.loc_of(k));
                                assert(self.spec_holes() == pre2.spec_holes());
                                assert(self.spec_small_keys() == pre2.spec_small_keys());
                            }
                        }
                        Ok(newly)
                    },
                    Err(_) => {
                        proof {
                            assert(self.spec_small_sets() =~= pre2.spec_small_sets());
                            assert(self.spec_small_sets() == pre2.spec_small_sets());
                            assert(!pre2.ids_of(k).contains(id)) by {
                                assert(pre2.ids_of(k) == pre2.spec_small_sets()[s as int]@);
                            }
                        }
                        let ghost pre3 = *self;
                        self.evict_into_large(key);
                        let ghost pre4 = *self;
                        let newly = self.big_insert(k, item);
                        proof {
                            assert(pre4.ids_of(k) == pre2.ids_of(k));
                            assert(newly == !pre2.ids_of(k).contains(id));
                            assert forall|k2: u64| #[trigger] self.known(k2) <==> pre2.known(
                                k2,
                            ) by {
                                assert(self.known(k2) == pre4.known(k2));
                                assert(pre4.known(k2) == pre3.known(k2));
                            }
                            assert forall|k2: u64|
                                pre2.known(k2) && k2 != k implies #[trigger] self.ids_of(k2)
                                == pre2.ids_of(k2) by {
                                assert(pre4.known(k2));
                                assert(pre4.ids_of(k2) == pre2.ids_of(k2));
                            }
                            assert(self.ids_of(k) == pre2.ids_of(k).insert(id));
                            assert(forall|k2: u64|
                                #[trigger] pre3.loc_of(k2) == pre2.loc_of(k2));
                            assert(forall|k2: u64| #[trigger] self.loc_of(k2) == pre4.loc_of(k2));
                            assert forall|k2: u64|
                                pre2.known(k2) && k2 != k implies #[trigger] self.loc_of(k2)
                                == pre2.loc_of(k2) by {
                                assert(pre3.known(k2));
                                assert(pre4.loc_of(k2) == pre3.loc_of(k2));
                            }
                            assert(self.loc_of(k) is Big);
                            Self::lemma_set_flag_compose(
                                *old(self),
                                pre1,
                                pre2,
                                *self,
                                k,
                                term@,
                                id,
                                newly,
                            );
                            if old(self).known(k) {
                                assert(pre3.loc_of(k) == old(self).loc_of(k));
                                assert(pre3.spec_holes() == old(self).spec_holes());
                                assert(pre3.spec_small_keys() == old(self).spec_small_keys());
                                assert(pre4.spec_holes() == pre3.spec_holes().push(s));
                                assert(pre4.spec_small_keys() == pre3.spec_small_keys().update(
                                    s as int,
                                    0u64,
                                ));
                                assert(self.spec_holes() == pre4.spec_holes());
                                assert(self.spec_small_keys() == pre4.spec_small_keys());
                            }
                        }
                        Ok(newly)
                    },
                }
            },
            IndexLocation::Big => {
                let newly = self.big_insert(k, item);
                proof {
                    assert(newly == !pre2.ids_of(k).contains(id));
                    assert forall|k2: u64| #[trigger] self.known(k2) <==> pre2.known(k2) by {}
                    assert(forall|k2: u64| #[trigger] self.loc_of(k2) == pre2.loc_of(k2));
                    Self::lemma_set_flag_compose(
                        *old(self),
                        pre1,
                        pre2,
                        *self,
                        k,
                        term@,
                        id,
                        newly,
                    );
                    if old(self).known(k) && old(self).loc_of(k) is Small {
                        assert(pre2.loc_of(k) == old(self).loc_of(k));
                        assert(false);
                    }
                }
                Ok(newly)
            },
        }
    }

    /// The id under which a term is interned, if it is.
    pub fn get_term_id(&self, term: &str) -> (r: Option<u8>)
        requires
            self.wf(),
        ensures
            r == self.terms_lookup(term@),
    {
        let r = self.terms.get_forward(term);
        proof {
            self.lemma_terms_agree(term@);
            if self.terms.has_term(term@) {
                let i = self.terms.term_index(term@);
                assert(0 <= i < self.spec_term_pairs().len() && self.spec_term_pairs()[i].0
                    == term@);
                assert(self.spec_term_pairs()[i].1 as int == i + 1);
                assert(terms_contain(self.spec_terms(), term@));
                let j = term_position(self.spec_terms(), term@);
                assert(0 <= j < self.spec_terms().len() && self.spec_terms()[j] == term@);
                assert(self.spec_term_pairs()[j].0 == term@);
                assert(i == j) by {
                    if i != j {
                        assert(self.spec_interner().wf());
                        assert((self.spec_term_pairs()[i]).0 != (self.spec_term_pairs()[j]).0);
                    }
                }
            }
        }
        r
    }

    /// The id of an interned term: one more than its position in the term
    /// list.
    pub open spec fn terms_lookup(self, t: Seq<char>) -> Option<u8> {
        if terms_contain(self.spec_terms(), t) {
            Some((term_position(self.spec_terms(), t) + 1) as u8)
        } else {
            None
        }
    }

    /// Tries to intern a term, failing once the id space is exhausted.
    /// Interning is idempotent per term and assigns ids in first-seen order:
    /// the n-th distinct term gets id n.
    pub fn add_term(&mut self, term: &str) -> (r: Result<SmallsetItem, ()>)
        requires
            old(self).wf(),
        ensures
            final(self).wf(),
            final(self).spec_index() == old(self).spec_index(),
            final(self).spec_holes() == old(self).spec_holes(),
            final(self).spec_small_keys() == old(self).spec_small_keys(),
            final(self).spec_small_sets() == old(self).spec_small_sets(),
            final(self).spec_big() == old(self).spec_big(),
            match r {
                Ok(item) => {
                    &&& item.spec_get() as int == interned_id(old(self).spec_terms(), term@)
                    &&& final(self).spec_terms() == terms_after_intern(
                        old(self).spec_terms(),
                        term@,
                    )
                    &&& final(self).terms_lookup(term@) == Some(item.spec_get())
                    &&& terms_contain(old(self).spec_terms(), term@) ==> *final(self) == *old(self)
                },
                Err(()) => {
                    &&& *final(self) == *old(self)
                    &&& !terms_contain(old(self).spec_terms(), term@)
                    &&& old(self).spec_terms().len() == MAX_TERMS
                },
            },
    {
        proof {
            self.lemma_terms_agree(term@);
        }
        if let Some(id) = self.terms.get_forward(term) {
            proof {
                let i = self.terms.term_index(term@);
                assert(0 <= i < self.spec_term_pairs().len() && self.spec_term_pairs()[i].0
                    == term@);
                assert(self.spec_term_pairs()[i].1 as int == i + 1);
                assert(terms_contain(self.spec_terms(), term@));
                assert(term_position(self.spec_terms(), term@) == i) by {
                    assert(self.spec_terms()[i] == term@);
                    let j = term_position(self.spec_terms(), term@);
                    assert(0 <= j < self.spec_terms().len() && self.spec_terms()[j] == term@);
                    assert(self.spec_term_pairs()[j].0 == term@);
                    if i != j {
                        assert(self.terms.wf());
                        assert(false);
                    }
                }
            }
            let item_opt = SmallsetItem::try_new(id);
            match item_opt {
                Some(item) => {
                    return Ok(item);
                },
                None => {
                    proof {
                        let i = self.terms.term_index(term@);
                        assert(id as int == i + 1);
                        assert(1 <= id as int <= MAX_TERMS);
                        assert(false);
                    }
                    return Err(());
                },
            }
        }
        let count = self.terms.len();
        if count >= MAX_TERMS {
            return Err(());
        }
        let id = (count + 1) as u8;
        proof {
            assert(count < MAX_TERMS);
            assert(id as int == count + 1);
            assert(!self.terms.has_id(id)) by {
                if self.terms.has_id(id) {
                    let i = self.terms.id_index(id);
                    assert(0 <= i < self.spec_term_pairs().len());
                    assert(self.spec_term_pairs()[i].1 == id);
                    assert(self.spec_term_pairs()[i].1 as int == i + 1);
                }
            }
        }
        let ghost pre = *self;
        let owned = term.to_owned();
        self.terms.insert(owned, id);
        let item_opt = SmallsetItem::try_new(id);
        match item_opt {
            Some(item) => {
                proof {
                    assert(self.spec_term_pairs() == pre.spec_term_pairs().push((term@, id)));
                    assert(self.spec_terms() =~= pre.spec_terms().push(term@));
                    assert forall|i: int|
                        0 <= i < self.spec_term_pairs().len() implies (
                    #[trigger] self.spec_term_pairs()[i]).1 as int == i + 1 by {
                        if i < pre.spec_term_pairs().len() {
                            assert(self.spec_term_pairs()[i] == pre.spec_term_pairs()[i]);
                        }
                    }
                    self.lemma_terms_agree(term@);
                    assert(self.spec_terms()[self.spec_terms().len() - 1] == term@);
                    assert(terms_contain(self.spec_terms(), term@));
                    let j = term_position(self.spec_terms(), term@);
                    assert(0 <= j < self.spec_terms().len() && self.spec_terms()[j] == term@);
                    assert(j == pre.spec_terms().len()) by {
                        if j < pre.spec_terms().len() {
                            assert(pre.spec_terms()[j] == term@);
                            assert(terms_contain(pre.spec_terms(), term@));
                        }
                    }
                }
                Ok(item)
            },
            None => {
                proof {
                    assert(1 <= id as int <= MAX_TERMS);
                    assert(false);
                }
                Err(())
            },
        }
    }

    /// The interner's spec-level lookup agrees with the term list: a term is
    /// mapped by the interner exactly when it occurs in the term list.
    proof fn lemma_terms_agree(self, t: Seq<char>)
        requires
            self.terms.wf(),
        ensures
            self.terms.has_term(t) <==> terms_contain(self.spec_terms(), t),
    {
        if self.terms.has_term(t) {
            let i = self.terms.term_index(t);
            assert(0 <= i < self.spec_term_pairs().len() && self.spec_term_pairs()[i].0 == t);
            assert(self.spec_terms()[i] == t);
            assert(terms_contain(self.spec_terms(), t));
        }
        if terms_contain(self.spec_terms(), t) {
            let i = term_position(self.spec_terms(), t);
            assert(0 <= i < self.spec_terms().len() && self.spec_terms()[i] == t);
            assert(self.spec_term_pairs()[i].0 == t);
            assert(self.terms.has_term(t));
        }
    }
}

impl<const SMALLSIZE: usize> Database<SMALLSIZE> {
    /// Every known key: unbounded-tier keys in insertion order, then the
    /// bound inline keys in slot order.
    pub open spec fn spec_key_listing(self) -> Seq<u64> {
        self.spec_big().map_values(|p: (u64, Seq<u8>)| p.0) + crate::codec::compact_keys(
            self.spec_small_keys(),
        )
    }

    /// The listing holds exactly the known keys: every key of either tier,
    /// and nothing else.
    proof fn lemma_listing_complete(self)
        requires
            self.wf(),
        ensures
            forall|k: u64| #[trigger] self.spec_key_listing().contains(k) <==> self.known(k),
    {
        let bigkeys = self.spec_big().map_values(|p: (u64, Seq<u8>)| p.0);
        let ck = crate::codec::compact_keys(self.spec_small_keys());
        let listing = self.spec_key_listing();
        crate::codec::lemma_compact_keys_elems(self.spec_small_keys());
        assert forall|k: u64| #[trigger] listing.contains(k) implies self.known(k) by {
            let x = choose|x: int| 0 <= x < listing.len() && listing[x] == k;
            if x < bigkeys.len() {
                assert(bigkeys[x] == self.spec_big()[x].0);
                assert((self.spec_big()[x]).0 == k);
            } else {
                assert(ck[x - bigkeys.len()] == k);
                assert(ck.contains(k));
                assert(self.spec_small_keys().contains(k));
                let i = choose|i: int|
                    0 <= i < self.spec_small_keys().len() && self.spec_small_keys()[i] == k;
                assert(self.spec_small_keys()[i] != 0);
            }
        }
        assert forall|k: u64| self.known(k) implies #[trigger] listing.contains(k) by {
            self.lemma_loc_facts(k);
            match self.loc_of(k) {
                IndexLocation::Small(s) => {
                    assert(self.spec_small_keys()[s as int] == k && k != 0);
                    assert(ck.contains(k));
                    let j = choose|j: int| 0 <= j < ck.len() && ck[j] == k;
                    assert(listing[bigkeys.len() + j] == k);
                },
                IndexLocation::Big => {
                    let b = assoc_index(self.spec_big(), k);
                    assert(0 <= b < self.spec_big().len() && self.spec_big()[b].0 == k);
                    assert(bigkeys[b] == k);
                    assert(listing[b] == k);
                },
            }
        }
    }

    /// List every known key, drawn from the unbounded tier first, then from
    /// the inline slots that currently hold a bound key: the listing holds
    /// exactly the known keys. Re-running re-scans the storage; there is no
    /// hidden cursor state.
    pub fn list_keys(&self) -> (r: Vec<Key>)
        requires
            self.wf(),
        ensures
            r@.map_values(|key: Key| key.spec_get()) == self.spec_key_listing(),
            forall|k: u64| #[trigger] self.spec_key_listing().contains(k) <==> self.known(k),
    {
        proof {
            self.lemma_listing_complete();
        }
        let ghost bigkeys = self.spec_big().map_values(|p: (u64, Seq<u8>)| p.0);
        let mut out: Vec<Key> = Vec::new();
        let m = self.big_storage.len();
        let mut b: usize = 0;
        proof {
            self.lemma_field_views();
        }
        while b < m
            invariant
                self.wf(),
                bigkeys == self.spec_big().map_values(|p: (u64, Seq<u8>)| p.0),
                b <= m,
                m == self.spec_big().len(),
                out@.len() == b,
                forall|x: int| 0 <= x < b ==> (#[trigger] out@[x]).spec_get() == bigkeys[x],
            decreases m - b,
        {
            proof {
                self.lemma_field_views();
                assert(self.spec_big()[b as int].0 == self.big_storage@[b as int].0);
                assert(self.spec_big()[b as int].0 != 0);
                assert(bigkeys[b as int] == self.spec_big()[b as int].0);
            }
            let entry = &self.big_storage[b];
            match Key::new(entry.0) {
                Some(kk) => {
                    out.push(kk);
                },
                None => {
                    proof {
                        assert(false);
                    }
                },
            }
            b = b + 1;
        }
        let ghost smallpart = crate::codec::compact_keys(self.spec_small_keys());
        let n = self.small_keys.len();
        let mut i: usize = 0;
        while i < n
            invariant
                self.wf(),
                bigkeys == self.spec_big().map_values(|p: (u64, Seq<u8>)| p.0),
                m == self.spec_big().len(),
                i <= n,
                n == self.spec_small_keys().len(),
                out@.len() == m + crate::codec::compact_keys(
                    self.spec_small_keys().subrange(0, i as int),
                ).len(),
                forall|x: int| 0 <= x < m ==> (#[trigger] out@[x]).spec_get() == bigkeys[x],
                forall|x: int|
                    m <= x < out@.len() ==> (#[trigger] out@[x]).spec_get()
                        == crate::codec::compact_keys(
                        self.spec_small_keys().subrange(0, i as int),
                    )[x - m],
            decreases n - i,
        {
            let ghost kpre = self.spec_small_keys().subrange(0, i as int);
            let ghost kcur = self.spec_small_keys().subrange(0, i as int + 1);
            proof {
                self.lemma_field_views();
                assert(kcur.drop_last() =~= kpre);
                assert(kcur.last() == self.spec_small_keys()[i as int]);
            }
            let kv = self.small_keys[i];
            if kv != 0 {
                match Key::new(kv) {
                    Some(kk) => {
                        out.push(kk);
                    },
                    None => {
                        proof {
                            assert(false);
                        }
                    },
                }
            }
            proof {
                assert(crate::codec::compact_keys(kcur) == if kv != 0 {
                    crate::codec::compact_keys(kpre).push(kv)
                } else {
                    crate::codec::compact_keys(kpre)
                });
                assert forall|x: int|
                    m <= x < out@.len() implies (#[trigger] out@[x]).spec_get()
                    == crate::codec::compact_keys(kcur)[x - m] by {
                    if x < m + crate::codec::compact_keys(kpre).len() {
                        assert(out@[x].spec_get() == crate::codec::compact_keys(kpre)[x - m]);
                    }
                }
            }
            i = i + 1;
        }
        proof {
            assert(self.spec_small_keys().subrange(0, n as int) =~= self.spec_small_keys());
            let lhs = out@.map_values(|key: Key| key.spec_get());
            assert forall|x: int| 0 <= x < lhs.len() implies lhs[x] == self.spec_key_listing()[
                x
            ] by {
                assert(lhs[x] == out@[x].spec_get());
                if x < m {
                    assert(out@[x].spec_get() == bigkeys[x]);
                } else {
                    assert(out@[x].spec_get() == smallpart[x - m]);
                }
            }
            assert(lhs =~= self.spec_key_listing());
        }
        out
    }

    /// Every interned term, in id order.
    pub fn list_terms(&self) -> (r: Vec<String>)
        requires
            self.wf(),
        ensures
            r.deep_view() == self.spec_terms(),
    {
        proof {
            self.lemma_field_views();
        }
        self.terms.lefts()
    }

    /// The keys of a list that were already present when their turn came: a
    /// key the engine already knew, or one repeated earlier in the list.
    pub open spec fn bulk_existing(pre: Self, keys: Seq<Key>) -> Seq<Key>
        decreases keys.len(),
    {
        if keys.len() == 0 {
            Seq::empty()
        } else {
            let front = Self::bulk_existing(pre, keys.drop_last());
            if pre.known(keys.last().spec_get()) || keys.drop_last().map_values(
                |kk: Key| kk.spec_get(),
            ).contains(keys.last().spec_get()) {
                front.push(keys.last())
            } else {
                front
            }
        }
    }

    /// Create a record for every key of the list, in order, and report the
    /// subset that already existed. Creation is idempotent, so the engine
    /// afterwards knows exactly the old keys plus the listed ones, each with
    /// its old set (or an empty one if new).
    pub fn create_records_bulk(&mut self, keys: &Vec<Key>) -> (existing: Vec<Key>)
        requires
            old(self).wf(),
        ensures
            final(self).wf(),
            final(self).spec_term_pairs() == old(self).spec_term_pairs(),
            forall|k2: u64|
                #[trigger] final(self).known(k2) <==> (old(self).known(k2) || keys@.map_values(
                    |kk: Key| kk.spec_get(),
                ).contains(k2)),
            forall|k2: u64|
                old(self).known(k2) ==> #[trigger] final(self).ids_of(k2) == old(self).ids_of(k2),
            forall|i: int|
                0 <= i < keys@.len() ==> final(self).ids_of((#[trigger] keys@[i]).spec_get())
                    == if old(self).known(keys@[i].spec_get()) {
                    old(self).ids_of(keys@[i].spec_get())
                } else {
                    Set::<u8>::empty()
                },
            existing@ == Self::bulk_existing(*old(self), keys@),
    {
        let mut existing: Vec<Key> = Vec::new();
        let n = keys.len();
        let mut i: usize = 0;
        while i < n
            invariant
                self.wf(),
                i <= n,
                n == keys@.len(),
                self.spec_term_pairs() == old(self).spec_term_pairs(),
                forall|k2: u64|
                    #[trigger] self.known(k2) <==> (old(self).known(k2) || keys@.subrange(
                        0,
                        i as int,
                    ).map_values(|kk: Key| kk.spec_get()).contains(k2)),
                forall|k2: u64|
                    old(self).known(k2) ==> #[trigger] self.ids_of(k2) == old(self).ids_of(k2),
                forall|ii: int|
                    0 <= ii < i ==> self.ids_of((#[trigger] keys@[ii]).spec_get()) == if old(
                        self,
                    ).known(keys@[ii].spec_get()) {
                        old(self).ids_of(keys@[ii].spec_get())
                    } else {
                        Set::<u8>::empty()
                    },
                existing@ == Self::bulk_existing(*old(self), keys@.subrange(0, i as int)),
            decreases n - i,
        {
            let key = keys[i];
            let ghost cur = *self;
            let created = self.create_record(key);
            proof {
                let kpre = keys@.subrange(0, i as int);
                let kcur = keys@.subrange(0, i as int + 1);
                let kprem = kpre.map_values(|kk: Key| kk.spec_get());
                let kcurm = kcur.map_values(|kk: Key| kk.spec_get());
                assert(kcur.drop_last() =~= kpre);
                assert(kcur.last() == keys@[i as int]);
                // Which keys are known now.
                assert forall|k2: u64|
                    #[trigger] self.known(k2) <==> (old(self).known(k2) || kcurm.contains(k2)) by {
                    assert(self.known(k2) <==> (cur.known(k2) || k2 == key.spec_get()));
                    if kcurm.contains(k2) && k2 != key.spec_get() {
                        let x = choose|x: int| 0 <= x < kcurm.len() && #[trigger] kcurm[x] == k2;
                        assert(kprem[x] == k2);
                        assert(kprem.contains(k2));
                    }
                    if kprem.contains(k2) {
                        let x = choose|x: int| 0 <= x < kprem.len() && #[trigger] kprem[x] == k2;
                        assert(kcurm[x] == k2);
                    }
                    if k2 == key.spec_get() {
                        assert(kcurm[i as int] == k2);
                    }
                }
                // The new key's set, and every earlier key's set.
                assert forall|ii: int|
                    0 <= ii < i + 1 implies self.ids_of((#[trigger] keys@[ii]).spec_get()) == if old(
                    self,
                ).known(keys@[ii].spec_get()) {
                    old(self).ids_of(keys@[ii].spec_get())
                } else {
                    Set::<u8>::empty()
                } by {
                    if ii < i as int {
                        assert(kprem[ii] == keys@[ii].spec_get());
                        assert(kprem.contains(keys@[ii].spec_get()));
                        assert(cur.known(keys@[ii].spec_get()));
                        assert(self.ids_of(keys@[ii].spec_get()) == cur.ids_of(
                            keys@[ii].spec_get(),
                        ));
                    } else {
                        if cur.known(key.spec_get()) {
                            assert(self.ids_of(key.spec_get()) == cur.ids_of(key.spec_get()));
                            if !old(self).known(key.spec_get()) {
                                assert(kprem.contains(key.spec_get()));
                                let x = choose|x: int|
                                    0 <= x < kprem.len() && #[trigger] kprem[x] == key.spec_get();
                                assert(keys@[x].spec_get() == key.spec_get());
                                assert(cur.ids_of(keys@[x].spec_get()) == Set::<u8>::empty());
                            }
                        }
                    }
                }
                // The reported subset.
                assert(created == !cur.known(key.spec_get()));
            }
            if !created {
                existing.push(key);
            }
            proof {
                assert(existing@ =~= Self::bulk_existing(
                    *old(self),
                    keys@.subrange(0, i as int + 1),
                ));
            }
            i = i + 1;
        }
        proof {
            assert(keys@.subrange(0, n as int) =~= keys@);
        }
        existing
    }

    /// Attach one term to every key of the list, creating records as needed.
    /// The single failure is term-id exhaustion, detected before any key is
    /// touched; afterwards every listed key's set includes the term's id.
    pub fn set_flag_bulk(&mut self, keys: &Vec<Key>, term: &str) -> (r: Result<(), ()>)
        requires
            old(self).wf(),
            SMALLSIZE >= 1,
        ensures
            final(self).wf(),
            r is Ok <==> intern_ok(old(self).spec_terms(), term@),
            match r {
                Ok(()) => {
                    &&& final(self).spec_terms() == terms_after_intern(
                        old(self).spec_terms(),
                        term@,
                    )
                    &&& forall|k2: u64|
                        #[trigger] final(self).known(k2) <==> (old(self).known(k2)
                            || keys@.map_values(|kk: Key| kk.spec_get()).contains(k2))
                    &&& forall|k2: u64|
                        old(self).known(k2) && !keys@.map_values(|kk: Key| kk.spec_get()).contains(
                            k2,
                        ) ==> #[trigger] final(self).ids_of(k2) == old(self).ids_of(k2)
                    &&& forall|i: int|
                        0 <= i < keys@.len() ==> final(self).ids_of(
                            (#[trigger] keys@[i]).spec_get(),
                        ) == (if old(self).known(keys@[i].spec_get()) {
                            old(self).ids_of(keys@[i].spec_get())
                        } else {
                            Set::<u8>::empty()
                        }).insert(interned_id(old(self).spec_terms(), term@) as u8)
                },
                Err(()) => *final(self) == *old(self),
            },
    {
        let item = match self.add_term(term) {
            Ok(it) => it,
            Err(()) => {
                return Err(());
            },
        };
        let ghost id = item.spec_get();
        let ghost pre1 = *self;
        proof {
            pre1.lemma_terms_distinct();
            assert(forall|k2: u64| #[trigger] pre1.known(k2) == old(self).known(k2));
            assert(forall|k2: u64| #[trigger] pre1.ids_of(k2) == old(self).ids_of(k2));
            assert(terms_contain(pre1.spec_terms(), term@));
            assert(interned_id(pre1.spec_terms(), term@) == id as int) by {
                let p = term_position(pre1.spec_terms(), term@);
                assert(0 <= p < pre1.spec_terms().len() && pre1.spec_terms()[p] == term@);
                if terms_contain(old(self).spec_terms(), term@) {
                    assert(pre1.spec_terms() == old(self).spec_terms());
                } else {
                    assert(pre1.spec_terms() == old(self).spec_terms().push(term@));
                    assert(p == old(self).spec_terms().len()) by {
                        if p < old(self).spec_terms().len() {
                            assert(old(self).spec_terms()[p] == term@);
                        }
                    }
                }
            }
        }
        let n = keys.len();
        let mut i: usize = 0;
        while i < n
            invariant
                self.wf(),
                SMALLSIZE >= 1,
                i <= n,
                n == keys@.len(),
                id == item.spec_get(),
                self.spec_terms() == pre1.spec_terms(),
                terms_contain(self.spec_terms(), term@),
                interned_id(self.spec_terms(), term@) == id as int,
                forall|k2: u64|
                    #[trigger] self.known(k2) <==> (pre1.known(k2) || keys@.subrange(
                        0,
                        i as int,
                    ).map_values(|kk: Key| kk.spec_get()).contains(k2)),
                forall|k2: u64|
                    pre1.known(k2) && !keys@.subrange(0, i as int).map_values(
                        |kk: Key| kk.spec_get(),
                    ).contains(k2) ==> #[trigger] self.ids_of(k2) == pre1.ids_of(k2),
                forall|ii: int|
                    0 <= ii < i ==> self.ids_of((#[trigger] keys@[ii]).spec_get()) == (if pre1.known(
                        keys@[ii].spec_get(),
                    ) {
                        pre1.ids_of(keys@[ii].spec_get())
                    } else {
                        Set::<u8>::empty()
                    }).insert(id),
            decreases n - i,
        {
            let key = keys[i];
            let ghost cur = *self;
            let res = self.set_flag(key, term);
            proof {
                let kpre = keys@.subrange(0, i as int);
                let kcur = keys@.subrange(0, i as int + 1);
                let kprem = kpre.map_values(|kk: Key| kk.spec_get());
                let kcurm = kcur.map_values(|kk: Key| kk.spec_get());
                assert(kcur.drop_last() =~= kpre);
                assert(kcur.last() == keys@[i as int]);
                assert(res is Ok);
                let newly = res->Ok_0;
                assert(Self::set_flag_post(cur, *self, key.spec_get(), term@, newly));
                assert(interned_id(cur.spec_terms(), term@) as u8 == id);
                assert(self.spec_terms() == cur.spec_terms());
                assert forall|k2: u64|
                    #[trigger] self.known(k2) <==> (pre1.known(k2) || kcurm.contains(k2)) by {
                    if kcurm.contains(k2) && k2 != key.spec_get() {
                        let x = choose|x: int| 0 <= x < kcurm.len() && #[trigger] kcurm[x] == k2;
                        assert(kprem[x] == k2);
                        assert(kprem.contains(k2));
                    }
                    if kprem.contains(k2) {
                        let x = choose|x: int| 0 <= x < kprem.len() && #[trigger] kprem[x] == k2;
                        assert(kcurm[x] == k2);
                    }
                    if k2 == key.spec_get() {
                        assert(kcurm[i as int] == k2);
                    }
                }
                assert forall|k2: u64|
                    pre1.known(k2) && !kcurm.contains(k2) implies #[trigger] self.ids_of(k2)
                    == pre1.ids_of(k2) by {
                    assert(k2 != key.spec_get()) by {
                        if k2 == key.spec_get() {
                            assert(kcurm[i as int] == k2);
                        }
                    }
                    assert forall|x: int| 0 <= x < kprem.len() implies #[trigger] kprem[x]
                        != k2 by {
                        if kprem[x] == k2 {
                            assert(kcurm[x] == k2);
                        }
                    }
                    assert(!kprem.contains(k2));
                    assert(cur.ids_of(k2) == pre1.ids_of(k2));
                    assert(cur.known(k2));
                }
                assert forall|ii: int|
                    0 <= ii < i + 1 implies self.ids_of((#[trigger] keys@[ii]).spec_get()) == (
                if pre1.known(keys@[ii].spec_get()) {
                    pre1.ids_of(keys@[ii].spec_get())
                } else {
                    Set::<u8>::empty()
                }).insert(id) by {
                    let k2 = keys@[ii].spec_get();
                    let target = (if pre1.known(k2) {
                        pre1.ids_of(k2)
                    } else {
                        Set::<u8>::empty()
                    }).insert(id);
                    if ii == i as int {
                        if cur.known(k2) {
                            if pre1.known(k2) && !kprem.contains(k2) {
                                assert(cur.ids_of(k2) == pre1.ids_of(k2));
                                assert(self.ids_of(k2) == pre1.ids_of(k2).insert(id));
                            } else if kprem.contains(k2) {
                                let x = choose|x: int|
                                    0 <= x < kprem.len() && #[trigger] kprem[x] == k2;
                                assert(keys@[x].spec_get() == k2);
                                assert(cur.ids_of(k2) == target);
                                assert(self.ids_of(k2) == target.insert(id));
                                assert(target.insert(id) =~= target);
                            } else {
                                assert(pre1.known(k2));
                            }
                        } else {
                            assert(!pre1.known(k2));
                            assert(self.ids_of(k2) == Set::<u8>::empty().insert(id));
                        }
                    } else {
                        if k2 == key.spec_get() {
                            assert(cur.ids_of(k2) == target);
                            assert(cur.known(k2)) by {
                                assert(kprem[ii] == k2);
                            }
                            assert(self.ids_of(k2) == target.insert(id));
                            assert(target.insert(id) =~= target);
                        } else {
                            assert(cur.known(k2)) by {
                                assert(kprem[ii] == k2);
                            }
                            assert(self.ids_of(k2) == cur.ids_of(k2));
                        }
                    }
                }
            }
            i = i + 1;
        }
        proof {
            assert(keys@.subrange(0, n as int) =~= keys@);
        }
        Ok(())
    }
}

impl<const SMALLSIZE: usize> Default for Database<SMALLSIZE> {
    /// An engine with no terms, no keys and no storage.
    fn default() -> (r: Self)
        ensures
            r.wf(),
            r.spec_term_pairs() == Seq::<(Seq<char>, u8)>::empty(),
            r.spec_index() == Seq::<(u64, IndexLocation)>::empty(),
            r.spec_holes() == Seq::<usize>::empty(),
            r.spec_small_keys() == Seq::<u64>::empty(),
            r.spec_small_sets() == Seq::<Smallset<SMALLSIZE>>::empty(),
            r.spec_big() == Seq::<(u64, Seq<u8>)>::empty(),
    {
        let r = Database {
            terms: DoubleMap::new(),
            index: Vec::new(),
            holes: Vec::new(),
            small_keys: Vec::new(),
            small_storage: Vec::new(),
            big_storage: Vec::new(),
        };
        proof {
            assert(r.spec_big() =~= Seq::<(u64, Seq<u8>)>::empty());
            assert(r.spec_terms() =~= Seq::<Seq<char>>::empty());
        }
        r
    }
}

/// Whether a term occurs in the term list.
pub open spec fn terms_contain(terms: Seq<Seq<char>>, t: Seq<char>) -> bool {
    exists|i: int| 0 <= i < terms.len() && terms[i] == t
}

/// The position of a term in the term list.
pub open spec fn term_position(terms: Seq<Seq<char>>, t: Seq<char>) -> int {
    choose|i: int| 0 <= i < terms.len() && terms[i] == t
}

/// Whether interning may proceed: the term is already known, or there is
/// room for one more.
pub open spec fn intern_ok(terms: Seq<Seq<char>>, t: Seq<char>) -> bool {
    terms_contain(terms, t) || terms.len() < MAX_TERMS
}

/// The id interning assigns: the existing one for a known term, else the
/// next sequential id.
pub open spec fn interned_id(terms: Seq<Seq<char>>, t: Seq<char>) -> int {
    if terms_contain(terms, t) {
        term_position(terms, t) + 1
    } else {
        terms.len() as int + 1
    }
}

/// The term list after interning: unchanged for a known term, else extended
/// by the new one.
pub open spec fn terms_after_intern(terms: Seq<Seq<char>>, t: Seq<char>) -> Seq<Seq<char>> {
    if terms_contain(terms, t) {
        terms
    } else {
        terms.push(t)
    }
}

} // verus!
