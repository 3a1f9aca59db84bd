//! Binary persistence: a compact self-describing snapshot of the engine.
//!
//! The snapshot holds the term list in id order (ids become implicit), the
//! bound inline keys and their raw slot arrays with vacated slots filtered
//! out, and the unbounded tier. Loading validates everything it reads and
//! rebuilds the index; compaction loses slot numbering but never contents.

use vstd::prelude::*;

use crate::doublemap::DoubleMap;
use crate::smallset::{coherent, slot_live, slots_coherent, Smallset, EMPTY_SLOT, TOMBSTONE};
use crate::storage::{
    assoc_has_key, assoc_index, assoc_value, id_list_below, id_list_wf, lemma_assoc_at,
    set_ids_below, unique_keys, Database, IndexLocation, MAX_TERMS,
};

verus! {

#[verifier::external_type_specification]
#[verifier::external_body]
pub struct ExEncodeError(rmp_serde::encode::Error);

#[verifier::external_type_specification]
#[verifier::external_body]
pub struct ExDecodeError(rmp_serde::decode::Error);

/// Why loading a snapshot failed. Either way no engine state is produced:
/// a load never yields a partially populated engine.
#[derive(Debug)]
pub enum LoadError {
    /// The bytes are not a well-formed snapshot document.
    Decode(rmp_serde::decode::Error),
    /// The document decoded but its contents break the engine's invariants:
    /// a wrong set width, a zero or repeated key, a key in both tiers, a
    /// repeated term, or a malformed slot array.
    Invalid,
}

/// The snapshot bytes of a state tuple: term list, bound inline keys, their
/// raw slot arrays, and the unbounded tier. A function of the values alone.
pub uninterp spec fn packed_state(
    terms: Seq<Seq<char>>,
    keys: Seq<u64>,
    sets: Seq<Seq<u8>>,
    big: Seq<(u64, Seq<u8>)>,
) -> Seq<u8>;

/// Within the MessagePack format's length limits: the encoder stores every
/// list and string length in at most 32 bits, so only states whose parts
/// stay below those limits survive a round trip. A term is bounded in
/// characters; four UTF-8 bytes per character keep its encoded form under
/// the 32-bit byte limit.
pub open spec fn within_length_limits(
    terms: Seq<Seq<char>>,
    keys: Seq<u64>,
    sets: Seq<Seq<u8>>,
    big: Seq<(u64, Seq<u8>)>,
) -> bool {
    &&& terms.len() < 0x100000000
    &&& forall|i: int| 0 <= i < terms.len() ==> (#[trigger] terms[i]).len() < 0x40000000
    &&& keys.len() < 0x100000000
    &&& sets.len() < 0x100000000
    &&& forall|i: int| 0 <= i < sets.len() ==> (#[trigger] sets[i]).len() < 0x100000000
    &&& big.len() < 0x100000000
    &&& forall|i: int| 0 <= i < big.len() ==> (#[trigger] big[i]).1.len() < 0x100000000
}

/// Relies on rmp_serde::to_vec: the MessagePack encoding of the given tuple,
/// a function of the argument values alone. Serialization of these types has
/// no failure of its own — the one error path is the output buffer's
/// allocator, and exhausted memory is treated as outside the machine model,
/// as it is for every vector the verified code grows. Beyond the format's
/// 32-bit length limits the encoder silently truncates length headers, so
/// there only the bytes themselves are claimed, not their decodability.
#[verifier::external_body]
fn encode_state(
    terms: &Vec<String>,
    keys: &Vec<u64>,
    sets: &Vec<Vec<u8>>,
    big: &Vec<(u64, Vec<u8>)>,
) -> (r: Result<Vec<u8>, rmp_serde::encode::Error>)
    ensures
        r matches Ok(b) ==> b@ == packed_state(terms.deep_view(), keys@, sets.deep_view(), big.deep_view()),
        r is Ok <== within_length_limits(
            terms.deep_view(),
            keys@,
            sets.deep_view(),
            big.deep_view(),
        ),
{
    rmp_serde::to_vec(&(terms, keys, sets, big))
}

/// The decoded form of a snapshot document, before validation.
pub type StateTuple = (Vec<String>, Vec<u64>, Vec<Vec<u8>>, Vec<(u64, Vec<u8>)>);

/// Relies on rmp_serde::from_slice: decoding inverts the encoding, so bytes
/// that `rmp_serde::to_vec` produced for a tuple decode back to exactly that
/// tuple. The inversion is claimed only within the format's length limits;
/// beyond them the encoder truncates length headers, so its output no longer
/// determines the tuple.
#[verifier::external_body]
fn decode_state(bytes: &[u8]) -> (r: Result<StateTuple, rmp_serde::decode::Error>)
    ensures
        r is Err ==> forall|t: Seq<Seq<char>>, k: Seq<u64>, s: Seq<Seq<u8>>, b: Seq<(u64, Seq<u8>)>|
            within_length_limits(t, k, s, b) ==> bytes@ != #[trigger] packed_state(t, k, s, b),
        r matches Ok(v) ==> forall|t: Seq<Seq<char>>, k: Seq<u64>, s: Seq<Seq<u8>>, b: Seq<(u64, Seq<u8>)>|
            within_length_limits(t, k, s, b) && bytes@ == #[trigger] packed_state(t, k, s, b) ==> (
            v.0.deep_view() == t && v.1@ == k && v.2.deep_view() == s && v.3.deep_view() == b),
{
    rmp_serde::from_slice(bytes)
}

/// The bound inline keys, in slot order, vacated slots dropped.
pub open spec fn compact_keys(keys: Seq<u64>) -> Seq<u64>
    decreases keys.len(),
{
    if keys.len() == 0 {
        Seq::empty()
    } else if keys.last() != 0 {
        compact_keys(keys.drop_last()).push(keys.last())
    } else {
        compact_keys(keys.drop_last())
    }
}

/// The raw slot arrays of the bound inline slots, parallel to
/// `compact_keys`.
pub open spec fn compact_sets<const SMALLSIZE: usize>(
    keys: Seq<u64>,
    sets: Seq<Smallset<SMALLSIZE>>,
) -> Seq<Seq<u8>>
    recommends
        keys.len() == sets.len(),
    decreases keys.len(),
{
    if keys.len() == 0 {
        Seq::empty()
    } else {
        let front = compact_sets(keys.drop_last(), sets.drop_last());
        if keys.last() != 0 {
            front.push(sets.last().slots_view())
        } else {
            front
        }
    }
}

/// The compacted key list pairs each bound slot's key with that slot's raw
/// array: every bound slot appears, nothing else does, and when the bound
/// keys are pairwise distinct the compacted list has no repeats.
pub proof fn lemma_compact_parallel<const SMALLSIZE: usize>(
    keys: Seq<u64>,
    sets: Seq<Smallset<SMALLSIZE>>,
)
    requires
        keys.len() == sets.len(),
    ensures
        compact_keys(keys).len() == compact_sets(keys, sets).len(),
        compact_keys(keys).len() <= keys.len(),
        forall|j: int|
            0 <= j < compact_keys(keys).len() ==> #[trigger] compact_keys(keys)[j] != 0 && exists|
                i: int,
            |
                0 <= i < keys.len() && keys[i] == compact_keys(keys)[j] && compact_sets(
                    keys,
                    sets,
                )[j] == sets[i].slots_view(),
        forall|i: int|
            0 <= i < keys.len() && #[trigger] keys[i] != 0 ==> compact_keys(keys).contains(keys[i]),
        forall|v: u64| #[trigger] compact_keys(keys).contains(v) ==> v != 0 && keys.contains(v),
    decreases keys.len(),
{
    if keys.len() > 0 {
        let kp = keys.drop_last();
        let sp = sets.drop_last();
        lemma_compact_parallel(kp, sp);
        let ck = compact_keys(keys);
        let cs = compact_sets(keys, sets);
        let ckp = compact_keys(kp);
        let csp = compact_sets(kp, sp);
        assert forall|j: int| 0 <= j < ck.len() implies #[trigger] ck[j] != 0 && exists|i: int|
            0 <= i < keys.len() && keys[i] == ck[j] && cs[j] == sets[i].slots_view() by {
            if keys.last() != 0 && j == ck.len() - 1 {
                assert(ck[j] == keys[keys.len() - 1]);
                assert(cs[j] == sets[keys.len() - 1].slots_view());
            } else {
                assert(ckp[j] != 0 && exists|i: int|
                    0 <= i < kp.len() && kp[i] == ckp[j] && csp[j] == sp[i].slots_view());
                let i = choose|i: int|
                    0 <= i < kp.len() && kp[i] == ckp[j] && csp[j] == sp[i].slots_view();
                assert(keys[i] == kp[i]);
                assert(sets[i] == sp[i]);
                assert(cs[j] == sets[i].slots_view());
            }
        }
        assert forall|i: int|
            0 <= i < keys.len() && #[trigger] keys[i] != 0 implies ck.contains(keys[i]) by {
            if i == keys.len() - 1 {
                assert(ck[ck.len() - 1] == keys[i]);
            } else {
                assert(kp[i] == keys[i]);
                assert(ckp.contains(keys[i]));
                let j = choose|j: int| 0 <= j < ckp.len() && ckp[j] == keys[i];
                assert(ck[j] == keys[i]);
            }
        }
        assert forall|v: u64| #[trigger] ck.contains(v) implies v != 0 && keys.contains(v) by {
            let j = choose|j: int| 0 <= j < ck.len() && ck[j] == v;
            if keys.last() != 0 && j == ck.len() - 1 {
                assert(keys[keys.len() - 1] == v);
            } else {
                assert(ckp[j] == v);
                assert(ckp.contains(v));
                assert(kp.contains(v));
                let i = choose|i: int| 0 <= i < kp.len() && kp[i] == v;
                assert(keys[i] == v);
            }
        }
    }
}

/// When the bound slot keys are pairwise distinct, the compacted key list
/// has no repeats.
pub proof fn lemma_compact_keys_no_dup(keys: Seq<u64>)
    requires
        forall|i: int, j: int|
            0 <= i < keys.len() && 0 <= j < keys.len() && i != j && #[trigger] keys[i] != 0 && (
            #[trigger] keys[j]) != 0 ==> keys[i] != keys[j],
    ensures
        compact_keys(keys).no_duplicates(),
    decreases keys.len(),
{
    if keys.len() > 0 {
        let kp = keys.drop_last();
        lemma_compact_keys_no_dup(kp);
        if keys.last() != 0 {
            let ckp = compact_keys(kp);
            if ckp.contains(keys.last()) {
                assert(kp.contains(keys.last())) by {
                    lemma_compact_keys_elems(kp);
                }
                let i = choose|i: int| 0 <= i < kp.len() && kp[i] == keys.last();
                assert(keys[i] == keys[keys.len() - 1]);
                assert(keys[i] != 0);
                assert(false);
            }
        }
    }
}

/// Every compacted key is a nonzero key of the uncompacted list, and every
/// nonzero key of the uncompacted list survives compaction.
pub proof fn lemma_compact_keys_elems(keys: Seq<u64>)
    ensures
        forall|v: u64| #[trigger] compact_keys(keys).contains(v) ==> v != 0 && keys.contains(v),
        forall|i: int|
            0 <= i < keys.len() && #[trigger] keys[i] != 0 ==> compact_keys(keys).contains(keys[i]),
    decreases keys.len(),
{
    if keys.len() > 0 {
        let kp = keys.drop_last();
        lemma_compact_keys_elems(kp);
        let ck = compact_keys(keys);
        let ckp = compact_keys(kp);
        assert forall|v: u64| #[trigger] ck.contains(v) implies v != 0 && keys.contains(v) by {
            let j = choose|j: int| 0 <= j < ck.len() && ck[j] == v;
            if keys.last() != 0 && j == ck.len() - 1 {
                assert(keys[keys.len() - 1] == v);
            } else {
                assert(ckp[j] == v);
                assert(ckp.contains(v));
                let i = choose|i: int| 0 <= i < kp.len() && kp[i] == v;
                assert(keys[i] == v);
            }
        }
        assert forall|i: int|
            0 <= i < keys.len() && #[trigger] keys[i] != 0 implies ck.contains(keys[i]) by {
            if i == keys.len() - 1 {
                assert(ck[ck.len() - 1] == keys[i]);
            } else {
                assert(kp[i] == keys[i]);
                assert(ckp.contains(keys[i]));
                let j = choose|j: int| 0 <= j < ckp.len() && ckp[j] == keys[i];
                assert(ck[j] == keys[i]);
            }
        }
    }
}

/// A fresh copy of a byte list.
fn copy_bytes(src: &Vec<u8>) -> (r: Vec<u8>)
    ensures
        r@ == src@,
{
    let n = src.len();
    let mut out: Vec<u8> = Vec::new();
    let mut j: usize = 0;
    while j < n
        invariant
            j <= n,
            n == src@.len(),
            out@ == src@.subrange(0, j as int),
        decreases n - j,
    {
        out.push(src[j]);
        proof {
            assert(out@ =~= src@.subrange(0, j as int + 1));
        }
        j = j + 1;
    }
    proof {
        assert(src@.subrange(0, n as int) =~= src@);
    }
    out
}

/// Whether a decoded state tuple can be adopted as engine state: few enough
/// distinct terms, nonzero distinct inline keys each with a set, and an
/// unbounded tier of nonzero distinct keys disjoint from the inline keys,
/// each with a duplicate-free list of non-sentinel ids.
pub open spec fn state_tuple_ok<const SMALLSIZE: usize>(
    terms: Seq<Seq<char>>,
    keys: Seq<u64>,
    sets: Seq<Smallset<SMALLSIZE>>,
    big: Seq<(u64, Seq<u8>)>,
) -> bool {
    &&& terms.len() <= MAX_TERMS
    &&& forall|i: int, j: int|
        0 <= i < terms.len() && 0 <= j < terms.len() && i != j ==> #[trigger] terms[i]
            != #[trigger] terms[j]
    &&& keys.len() == sets.len()
    &&& forall|i: int| 0 <= i < keys.len() ==> #[trigger] keys[i] != 0
    &&& forall|i: int, j: int|
        0 <= i < keys.len() && 0 <= j < keys.len() && i != j ==> (#[trigger] keys[i]) != (
        #[trigger] keys[j])
    &&& unique_keys(big)
    &&& forall|b: int|
        0 <= b < big.len() ==> (#[trigger] big[b]).0 != 0 && !keys.contains(big[b].0)
            && id_list_wf(big[b].1)
    &&& forall|i: int|
        0 <= i < sets.len() ==> set_ids_below((#[trigger] sets[i])@, terms.len() as int)
    &&& forall|b: int| 0 <= b < big.len() ==> id_list_below((#[trigger] big[b]).1, terms.len() as int)
}

impl<const SMALLSIZE: usize> Database<SMALLSIZE> {
    /// Whether a key occurs in a list.
    fn key_list_contains(keys: &Vec<u64>, v: u64) -> (r: bool)
        ensures
            r == keys@.contains(v),
    {
        let n = keys.len();
        let mut j: usize = 0;
        while j < n
            invariant
                j <= n,
                n == keys@.len(),
                forall|jj: int| 0 <= jj < j ==> keys@[jj] != v,
            decreases n - j,
        {
            if keys[j] == v {
                return true;
            }
            j = j + 1;
        }
        proof {
            if keys@.contains(v) {
                let jj = choose|jj: int| 0 <= jj < keys@.len() && keys@[jj] == v;
            }
        }
        false
    }

    /// Build the key index for rebuilt state: one entry per inline slot, at
    /// its offset, followed by one `Big` entry per unbounded key.
    fn build_index(small_keys: &Vec<u64>, big_storage: &Vec<(u64, Vec<u8>)>) -> (r: Vec<
        (u64, IndexLocation),
    >)
        ensures
            r@.len() == small_keys@.len() + big_storage@.len(),
            forall|ii: int|
                0 <= ii < small_keys@.len() ==> #[trigger] r@[ii] == (
                    small_keys@[ii],
                    IndexLocation::Small(ii as usize),
                ),
            forall|bb: int|
                0 <= bb < big_storage@.len() ==> #[trigger] r@[small_keys@.len() + bb] == (
                    big_storage@[bb].0,
                    IndexLocation::Big,
                ),
    {
        let kn = small_keys.len();
        let bn = big_storage.len();
        let mut index: Vec<(u64, IndexLocation)> = Vec::new();
        let mut i: usize = 0;
        while i < kn
            invariant
                i <= kn,
                kn == small_keys@.len(),
                index@.len() == i,
                forall|ii: int|
                    0 <= ii < i ==> #[trigger] index@[ii] == (
                        small_keys@[ii],
                        IndexLocation::Small(ii as usize),
                    ),
            decreases kn - i,
        {
            index.push((small_keys[i], IndexLocation::Small(i)));
            i = i + 1;
        }
        let mut b: usize = 0;
        while b < bn
            invariant
                b <= bn,
                kn == small_keys@.len(),
                bn == big_storage@.len(),
                index@.len() == kn + b,
                forall|ii: int|
                    0 <= ii < kn ==> #[trigger] index@[ii] == (
                        small_keys@[ii],
                        IndexLocation::Small(ii as usize),
                    ),
                forall|bb: int|
                    0 <= bb < b ==> #[trigger] index@[kn + bb] == (
                        big_storage@[bb].0,
                        IndexLocation::Big,
                    ),
            decreases bn - b,
        {
            let entry = &big_storage[b];
            index.push((entry.0, IndexLocation::Big));
            b = b + 1;
        }
        index
    }

    /// Rebuild an engine from snapshot parts: terms in id order, the bound
    /// inline keys with their sets in slot order, and the unbounded tier.
    /// Every invariant the parts could break is checked; a violation is a
    /// hard construction error and yields no engine. The rebuilt engine has
    /// an empty free list: compaction left no holes to recycle.
    pub fn from_existing_data(
        terms: Vec<String>,
        small_keys: Vec<u64>,
        small_storage: Vec<Smallset<SMALLSIZE>>,
        big_storage: Vec<(u64, Vec<u8>)>,
    ) -> (r: Result<Self, ()>)
        requires
            forall|i: int| 0 <= i < small_storage@.len() ==> (#[trigger] small_storage@[i]).wf(),
        ensures
            match r {
                Ok(db) => {
                    &&& state_tuple_ok(
                        terms.deep_view(),
                        small_keys@,
                        small_storage@,
                        big_storage.deep_view(),
                    )
                    &&& db.wf()
                    &&& db.spec_terms() == terms.deep_view()
                    &&& db.spec_small_keys() == small_keys@
                    &&& db.spec_small_sets() == small_storage@
                    &&& db.spec_big() == big_storage.deep_view()
                    &&& db.spec_holes() == Seq::<usize>::empty()
                },
                Err(()) => !state_tuple_ok(
                    terms.deep_view(),
                    small_keys@,
                    small_storage@,
                    big_storage.deep_view(),
                ),
            },
    {
        let ghost tv = terms.deep_view();
        let ghost kv = small_keys@;
        let ghost sv = small_storage@;
        let ghost bv = big_storage.deep_view();
        // The term list: capacity and pairwise distinctness.
        if terms.len() > MAX_TERMS {
            return Err(());
        }
        let tn = terms.len();
        let mut i: usize = 0;
        while i < tn
            invariant
                tv == terms.deep_view(),
                i <= tn,
                tn == terms@.len(),
                forall|a: int, b2: int|
                    0 <= a < i && 0 <= b2 < a ==> #[trigger] tv[a] != #[trigger] tv[b2],
            decreases tn - i,
        {
            let mut j: usize = 0;
            while j < i
                invariant
                    tv == terms.deep_view(),
                    j <= i < tn,
                    tn == terms@.len(),
                    forall|b2: int| 0 <= b2 < j ==> tv[i as int] != #[trigger] tv[b2],
                decreases i - j,
            {
                proof {
                    assert(tv[i as int] == terms@[i as int]@);
                    assert(tv[j as int] == terms@[j as int]@);
                }
                if terms[i] == terms[j] {
                    return Err(());
                }
                j = j + 1;
            }
            proof {
                assert forall|a: int, b2: int|
                    0 <= a < i + 1 && 0 <= b2 < a implies #[trigger] tv[a] != #[trigger] tv[b2] by {
                    if a == i as int {
                        assert(tv[i as int] != tv[b2]);
                    }
                }
            }
            i = i + 1;
        }
        // The interner: term n gets id n + 1.
        let mut dm = DoubleMap::new();
        let mut i2: usize = 0;
        while i2 < tn
            invariant
                tv == terms.deep_view(),
                i2 <= tn,
                tn == terms@.len(),
                tn <= MAX_TERMS,
                forall|a: int, b2: int|
                    0 <= a < tn && 0 <= b2 < tn && a != b2 ==> #[trigger] tv[a] != #[trigger] tv[b2],
                dm.wf(),
                dm@.len() == i2,
                forall|ii: int|
                    0 <= ii < i2 ==> (#[trigger] dm@[ii]).0 == tv[ii] && dm@[ii].1 as int == ii + 1,
            decreases tn - i2,
        {
            let t = terms[i2].clone();
            let id = (i2 + 1) as u8;
            proof {
                assert(t@ == tv[i2 as int]);
                assert(!dm.has_term(t@)) by {
                    if dm.has_term(t@) {
                        let x = dm.term_index(t@);
                        assert(0 <= x < dm@.len() && dm@[x].0 == t@);
                        assert(tv[x] == tv[i2 as int]);
                    }
                }
                assert(!dm.has_id(id)) by {
                    if dm.has_id(id) {
                        let x = dm.id_index(id);
                        assert(0 <= x < dm@.len() && dm@[x].1 == id);
                        assert(dm@[x].1 as int == x + 1);
                    }
                }
            }
            dm.insert(t, id);
            i2 = i2 + 1;
        }
        // The inline tier: one set per key, keys nonzero and distinct.
        if small_keys.len() != small_storage.len() {
            return Err(());
        }
        let kn = small_keys.len();
        let mut i3: usize = 0;
        while i3 < kn
            invariant
                kv == small_keys@,
                i3 <= kn,
                kn == kv.len(),
                forall|ii: int| 0 <= ii < i3 ==> #[trigger] kv[ii] != 0,
                forall|a: int, b2: int|
                    0 <= a < i3 && 0 <= b2 < a ==> (#[trigger] kv[a]) != (#[trigger] kv[b2]),
            decreases kn - i3,
        {
            let k = small_keys[i3];
            if k == 0 {
                return Err(());
            }
            let mut j: usize = 0;
            while j < i3
                invariant
                    kv == small_keys@,
                    j <= i3 < kn,
                    kn == kv.len(),
                    k == kv[i3 as int],
                    forall|b2: int| 0 <= b2 < j ==> kv[i3 as int] != #[trigger] kv[b2],
                decreases i3 - j,
            {
                if small_keys[j] == k {
                    return Err(());
                }
                j = j + 1;
            }
            proof {
                assert forall|a: int, b2: int|
                    0 <= a < i3 + 1 && 0 <= b2 < a implies (#[trigger] kv[a]) != (
                #[trigger] kv[b2]) by {
                    if a == i3 as int {
                        assert(kv[i3 as int] != kv[b2]);
                    }
                }
            }
            i3 = i3 + 1;
        }
        // Every stored id of every inline set is an assigned one.
        let mut i5: usize = 0;
        while i5 < kn
            invariant
                sv == small_storage@,
                tv == terms.deep_view(),
                tn == tv.len(),
                kn == sv.len(),
                i5 <= kn,
                forall|ii: int| 0 <= ii < sv.len() ==> (#[trigger] sv[ii]).wf(),
                forall|ii: int|
                    0 <= ii < i5 ==> set_ids_below((#[trigger] sv[ii])@, tv.len() as int),
            decreases kn - i5,
        {
            let vals = small_storage[i5].iter();
            proof {
                sv[i5 as int].lemma_iter_props();
            }
            let vn = vals.len();
            let mut j5: usize = 0;
            while j5 < vn
                invariant
                    sv == small_storage@,
                    tv == terms.deep_view(),
                    tn == tv.len(),
                    i5 < sv.len(),
                    vals@.to_set() == sv[i5 as int]@,
                    j5 <= vn,
                    vn == vals@.len(),
                    forall|jj: int| 0 <= jj < j5 ==> (#[trigger] vals@[jj]) as int <= tn,
                decreases vn - j5,
            {
                if (vals[j5] as usize) > tn {
                    proof {
                        assert(vals@.contains(vals@[j5 as int]));
                        assert(sv[i5 as int]@.contains(vals@[j5 as int]));
                        assert(!set_ids_below(sv[i5 as int]@, tv.len() as int));
                    }
                    return Err(());
                }
                j5 = j5 + 1;
            }
            proof {
                assert forall|v: u8| #[trigger] sv[i5 as int]@.contains(v) implies v as int
                    <= tv.len() by {
                    assert(vals@.to_set().contains(v));
                    assert(vals@.contains(v));
                    let jj = choose|jj: int| 0 <= jj < vals@.len() && vals@[jj] == v;
                }
                assert(set_ids_below(sv[i5 as int]@, tv.len() as int));
            }
            i5 = i5 + 1;
        }
        // The unbounded tier: nonzero distinct keys, disjoint from the
        // inline keys, each with a duplicate-free list of non-sentinel ids.
        let bn = big_storage.len();
        let mut b: usize = 0;
        while b < bn
            invariant
                kv == small_keys@,
                bv == big_storage.deep_view(),
                b <= bn,
                bn == big_storage@.len(),
                bn == bv.len(),
                tv == terms.deep_view(),
                tn == tv.len(),
                forall|bb: int|
                    0 <= bb < b ==> (#[trigger] bv[bb]).0 != 0 && !kv.contains(bv[bb].0)
                        && id_list_wf(bv[bb].1),
                forall|bb: int| 0 <= bb < b ==> id_list_below((#[trigger] bv[bb]).1, tv.len() as int),
                forall|bb: int, bb2: int|
                    0 <= bb < b && 0 <= bb2 < bb ==> (#[trigger] bv[bb]).0 != (#[trigger] bv[bb2]).0,
            decreases bn - b,
        {
            let entry = &big_storage[b];
            proof {
                assert(bv[b as int].0 == entry.0);
                assert(bv[b as int].1 =~= entry.1@);
            }
            if entry.0 == 0 {
                return Err(());
            }
            if Self::key_list_contains(&small_keys, entry.0) {
                return Err(());
            }
            let mut bb2: usize = 0;
            while bb2 < b
                invariant
                    bv == big_storage.deep_view(),
                    bb2 <= b < bn,
                    bn == big_storage@.len(),
                    bn == bv.len(),
                    bv[b as int].0 == big_storage@[b as int].0,
                    forall|x: int| 0 <= x < bb2 ==> bv[b as int].0 != (#[trigger] bv[x]).0,
                decreases b - bb2,
            {
                let other = &big_storage[bb2];
                proof {
                    assert(bv[bb2 as int].0 == other.0);
                }
                let here = &big_storage[b];
                if other.0 == here.0 {
                    return Err(());
                }
                bb2 = bb2 + 1;
            }
            let entry2 = &big_storage[b];
            let mn = entry2.1.len();
            let mut m: usize = 0;
            while m < mn
                invariant
                    bv == big_storage.deep_view(),
                    tv == terms.deep_view(),
                    tn == tv.len(),
                    m <= mn,
                    b < bn,
                    bn == big_storage@.len(),
                    mn == bv[b as int].1.len(),
                    bv[b as int].1 == big_storage@[b as int].1@,
                    forall|mm: int| 0 <= mm < m ==> slot_live(#[trigger] bv[b as int].1[mm]),
                    forall|mm: int| 0 <= mm < m ==> (#[trigger] bv[b as int].1[mm]) as int <= tn,
                    forall|mm: int, mm2: int|
                        0 <= mm < m && 0 <= mm2 < mm ==> (#[trigger] bv[b as int].1[mm]) != (
                        #[trigger] bv[b as int].1[mm2]),
                decreases mn - m,
            {
                let here = &big_storage[b];
                let v = here.1[m];
                if v == EMPTY_SLOT || v == TOMBSTONE {
                    proof {
                        assert(!slot_live(bv[b as int].1[m as int]));
                        assert(!id_list_wf(bv[b as int].1));
                    }
                    return Err(());
                }
                if (v as usize) > tn {
                    proof {
                        assert((bv[b as int].1[m as int]) as int > tv.len());
                        assert(!id_list_below(bv[b as int].1, tv.len() as int));
                    }
                    return Err(());
                }
                let mut m2: usize = 0;
                while m2 < m
                    invariant
                        bv == big_storage.deep_view(),
                        m2 <= m < mn,
                        b < bn,
                        bn == big_storage@.len(),
                        mn == bv[b as int].1.len(),
                        bv[b as int].1 == big_storage@[b as int].1@,
                        v == bv[b as int].1[m as int],
                        forall|x: int| 0 <= x < m2 ==> v != #[trigger] bv[b as int].1[x],
                    decreases m - m2,
                {
                    let here2 = &big_storage[b];
                    if here2.1[m2] == v {
                        proof {
                            assert(bv[b as int].1[m as int] == bv[b as int].1[m2 as int]);
                            assert(!bv[b as int].1.no_duplicates());
                            assert(!id_list_wf(bv[b as int].1));
                        }
                        return Err(());
                    }
                    m2 = m2 + 1;
                }
                proof {
                    assert forall|mm: int, mm2: int|
                        0 <= mm < m + 1 && 0 <= mm2 < mm implies (#[trigger] bv[b as int].1[mm])
                        != (#[trigger] bv[b as int].1[mm2]) by {
                        if mm == m as int {
                            assert(v != bv[b as int].1[mm2]);
                        }
                    }
                }
                m = m + 1;
            }
            proof {
                assert(id_list_below(bv[b as int].1, tv.len() as int));
                assert(id_list_wf(bv[b as int].1)) by {
                    assert forall|mm: int, mm2: int|
                        0 <= mm < bv[b as int].1.len() && 0 <= mm2 < bv[b as int].1.len() && mm
                            != mm2 implies bv[b as int].1[mm] != bv[b as int].1[mm2] by {
                        if mm > mm2 {
                            assert((bv[b as int].1[mm]) != (bv[b as int].1[mm2]));
                        } else {
                            assert((bv[b as int].1[mm2]) != (bv[b as int].1[mm]));
                        }
                    }
                }
                assert forall|bb: int, bb2x: int|
                    0 <= bb < b + 1 && 0 <= bb2x < bb implies (#[trigger] bv[bb]).0 != (
                #[trigger] bv[bb2x]).0 by {
                    if bb == b as int {
                        assert(bv[b as int].0 != bv[bb2x].0);
                    }
                }
            }
            b = b + 1;
        }
        let index = Self::build_index(&small_keys, &big_storage);
        proof {
            assert forall|bb: int| 0 <= bb < bn implies #[trigger] index@[kv.len() as int + bb]
                == (bv[bb].0, IndexLocation::Big) by {
                assert(bv[bb].0 == big_storage@[bb].0);
            }
        }
        let db = Database {
            terms: dm,
            index,
            holes: Vec::new(),
            small_keys,
            small_storage,
            big_storage,
        };
        proof {
            db.lemma_field_views();
            assert(db.spec_big() =~= bv) by {
                assert forall|ii: int| 0 <= ii < bn implies db.spec_big()[ii] == bv[ii] by {
                    assert(db.big_storage@[ii].1.deep_view() =~= db.big_storage@[ii].1@);
                    assert(bv[ii] == db.big_storage@[ii].deep_view());
                    assert(db.spec_big()[ii] == (db.big_storage@[ii].0, db.big_storage@[ii].1@));
                }
            }
            assert forall|a: int, b2: int|
                0 <= a < kn && 0 <= b2 < kn && a != b2 implies (#[trigger] kv[a]) != (
            #[trigger] kv[b2]) by {
                if a > b2 {
                    assert(kv[a] != kv[b2]);
                } else {
                    assert(kv[b2] != kv[a]);
                }
            }
            assert forall|a: int, b2: int|
                0 <= a < bn && 0 <= b2 < bn && a != b2 implies (#[trigger] bv[a]).0 != (
            #[trigger] bv[b2]).0 by {
                if a > b2 {
                    assert(bv[a].0 != bv[b2].0);
                } else {
                    assert(bv[b2].0 != bv[a].0);
                }
            }
            db.lemma_adopted(tv, kv, sv, bv, kn as int, bn as int);
            assert(state_tuple_ok(tv, kv, sv, bv));
        }
        Ok(db)
    }

    /// A freshly assembled engine whose parts passed validation satisfies
    /// the invariant and exposes exactly those parts.
    proof fn lemma_adopted(
        self,
        tv: Seq<Seq<char>>,
        kv: Seq<u64>,
        sv: Seq<Smallset<SMALLSIZE>>,
        bv: Seq<(u64, Seq<u8>)>,
        kn: int,
        bn: int,
    )
        requires
            self.spec_interner().wf(),
            self.spec_term_pairs().len() == tv.len(),
            tv.len() <= MAX_TERMS,
            forall|ii: int|
                0 <= ii < tv.len() ==> (#[trigger] self.spec_term_pairs()[ii]).0 == tv[ii]
                    && self.spec_term_pairs()[ii].1 as int == ii + 1,
            self.spec_small_keys() == kv,
            self.spec_small_sets() == sv,
            self.spec_big() == bv,
            self.spec_holes() == Seq::<usize>::empty(),
            kn == kv.len(),
            bn == bv.len(),
            sv.len() == kv.len(),
            forall|ii: int| 0 <= ii < sv.len() ==> (#[trigger] sv[ii]).wf(),
            forall|ii: int| 0 <= ii < sv.len() ==> set_ids_below((#[trigger] sv[ii])@, tv.len() as int),
            forall|bb: int| 0 <= bb < bn ==> id_list_below((#[trigger] bv[bb]).1, tv.len() as int),
            forall|ii: int| 0 <= ii < kn ==> #[trigger] kv[ii] != 0,
            forall|a: int, b2: int|
                0 <= a < kn && 0 <= b2 < kn && a != b2 ==> (#[trigger] kv[a]) != (#[trigger] kv[b2]),
            forall|bb: int|
                0 <= bb < bn ==> (#[trigger] bv[bb]).0 != 0 && !kv.contains(bv[bb].0) && id_list_wf(
                    bv[bb].1,
                ),
            forall|a: int, b2: int|
                0 <= a < bn && 0 <= b2 < bn && a != b2 ==> (#[trigger] bv[a]).0 != (
                #[trigger] bv[b2]).0,
            self.spec_index().len() == kn + bn,
            forall|ii: int|
                0 <= ii < kn ==> #[trigger] self.spec_index()[ii] == (
                    kv[ii],
                    IndexLocation::Small(ii as usize),
                ),
            forall|bb: int|
                0 <= bb < bn ==> #[trigger] self.spec_index()[kn + bb] == (
                    bv[bb].0,
                    IndexLocation::Big,
                ),
        ensures
            self.wf(),
            self.spec_terms() == tv,
    {
        vstd::std_specs::vec::axiom_spec_len(&self.small_keys);
        self.lemma_field_views();
        assert(self.spec_term_pairs().len() == tv.len());
        assert forall|ii: int| 0 <= ii < self.spec_small_sets().len() implies set_ids_below(
            (#[trigger] self.spec_small_sets()[ii])@,
            self.spec_term_pairs().len() as int,
        ) by {
            assert(set_ids_below(sv[ii]@, tv.len() as int));
        }
        assert forall|bb: int| 0 <= bb < self.spec_big().len() implies id_list_below(
            (#[trigger] self.spec_big()[bb]).1,
            self.spec_term_pairs().len() as int,
        ) by {
            assert(id_list_below(bv[bb].1, tv.len() as int));
        }
        assert(self.spec_terms() =~= tv) by {
            assert forall|ii: int| 0 <= ii < tv.len() implies self.spec_terms()[ii] == tv[ii] by {
                assert(self.spec_terms()[ii] == self.spec_term_pairs()[ii].0);
            }
        }
        let ix = self.spec_index();
        assert(unique_keys(ix)) by {
            assert forall|a: int, b2: int|
                0 <= a < ix.len() && 0 <= b2 < ix.len() && a != b2 implies (#[trigger] ix[a]).0 != (
            #[trigger] ix[b2]).0 by {
                if a < kn && b2 < kn {
                    assert(kv[a] != kv[b2]);
                } else if a >= kn && b2 >= kn {
                    let ba = a - kn;
                    let bb2 = b2 - kn;
                    assert(ix[kn + ba] == (bv[ba].0, IndexLocation::Big));
                    assert(ix[kn + bb2] == (bv[bb2].0, IndexLocation::Big));
                    assert(bv[ba].0 != bv[bb2].0);
                } else if a < kn {
                    let bb2 = b2 - kn;
                    assert(ix[kn + bb2] == (bv[bb2].0, IndexLocation::Big));
                    if kv[a] == bv[bb2].0 {
                        assert(kv.contains(bv[bb2].0));
                    }
                } else {
                    let ba = a - kn;
                    assert(ix[kn + ba] == (bv[ba].0, IndexLocation::Big));
                    if kv[b2] == bv[ba].0 {
                        assert(kv.contains(bv[ba].0));
                    }
                }
            }
        }
        assert forall|ii: int| 0 <= ii < ix.len() implies (#[trigger] ix[ii]).0 != 0 by {
            if ii >= kn {
                let bb = ii - kn;
                assert(ix[kn + bb] == (bv[bb].0, IndexLocation::Big));
            }
        }
        assert forall|ii: int| 0 <= ii < ix.len() implies match (#[trigger] ix[ii]).1 {
            IndexLocation::Small(s) => s < self.spec_small_keys().len()
                && self.spec_small_keys()[s as int] == ix[ii].0 && !assoc_has_key(
                self.spec_big(),
                ix[ii].0,
            ),
            IndexLocation::Big => assoc_has_key(self.spec_big(), ix[ii].0),
        } by {
            if ii < kn {
                assert(ix[ii] == (kv[ii], IndexLocation::Small(ii as usize)));
                if assoc_has_key(self.spec_big(), kv[ii]) {
                    let bb = choose|bb: int|
                        0 <= bb < bv.len() && (#[trigger] bv[bb]).0 == kv[ii];
                    assert(kv.contains(bv[bb].0));
                    assert(false);
                }
            } else {
                let bb = ii - kn;
                assert(ix[kn + bb] == (bv[bb].0, IndexLocation::Big));
                assert(assoc_has_key(self.spec_big(), bv[bb].0)) by {
                    assert(self.spec_big()[bb].0 == bv[bb].0);
                }
            }
        }
        assert forall|s: int|
            0 <= s < self.spec_small_keys().len() && #[trigger] self.spec_small_keys()[s]
                != 0 implies assoc_has_key(self.spec_index(), self.spec_small_keys()[s])
            && assoc_value(self.spec_index(), self.spec_small_keys()[s]) == IndexLocation::Small(
            s as usize,
        ) by {
            assert(ix[s] == (kv[s], IndexLocation::Small(s as usize)));
            lemma_assoc_at(ix, s);
        }
        assert forall|bb: int| 0 <= bb < self.spec_big().len() implies (
        #[trigger] self.spec_big()[bb]).0 != 0 && assoc_has_key(
            self.spec_index(),
            self.spec_big()[bb].0,
        ) && assoc_value(self.spec_index(), self.spec_big()[bb].0) == IndexLocation::Big by {
            assert(ix[kn + bb] == (bv[bb].0, IndexLocation::Big));
            lemma_assoc_at(ix, kn + bb);
        }
    }

    /// The bytes `dump` produces for this state.
    pub open spec fn dump_encoding(self) -> Seq<u8> {
        packed_state(
            self.spec_terms(),
            compact_keys(self.spec_small_keys()),
            compact_sets(self.spec_small_keys(), self.spec_small_sets()),
            self.spec_big(),
        )
    }

    /// Whether this state's compacted parts stay below the snapshot format's
    /// 32-bit length limits. Every state reachable through the public
    /// operations does by a wide margin: at most 253 terms and at most 254
    /// ids per set.
    pub open spec fn dump_within_limits(self) -> bool {
        within_length_limits(
            self.spec_terms(),
            compact_keys(self.spec_small_keys()),
            compact_sets(self.spec_small_keys(), self.spec_small_sets()),
            self.spec_big(),
        )
    }

    /// The term list in ascending id order, so that on disk an id is just a
    /// position plus one.
    pub fn compact_terms(&self) -> (r: Vec<String>)
        requires
            self.wf(),
        ensures
            r.deep_view() == self.spec_terms(),
    {
        proof {
            self.lemma_field_views();
        }
        self.terms.lefts()
    }

    /// The bound inline keys and their raw slot arrays, vacated slots
    /// filtered out.
    pub fn compact_small_items(&self) -> (r: (Vec<u64>, Vec<Vec<u8>>))
        requires
            self.wf(),
        ensures
            r.0@ == compact_keys(self.spec_small_keys()),
            r.1.deep_view() == compact_sets(self.spec_small_keys(), self.spec_small_sets()),
    {
        let mut keys: Vec<u64> = Vec::new();
        let mut sets: Vec<Vec<u8>> = Vec::new();
        let n = self.small_keys.len();
        let mut i: usize = 0;
        proof {
            self.lemma_field_views();
        }
        while i < n
            invariant
                self.wf(),
                i <= n,
                n == self.spec_small_keys().len(),
                n == self.spec_small_sets().len(),
                keys@ == compact_keys(self.spec_small_keys().subrange(0, i as int)),
                sets.deep_view() == compact_sets(
                    self.spec_small_keys().subrange(0, i as int),
                    self.spec_small_sets().subrange(0, i as int),
                ),
            decreases n - i,
        {
            proof {
                self.lemma_field_views();
                let kpre = self.spec_small_keys().subrange(0, i as int);
                let kcur = self.spec_small_keys().subrange(0, i as int + 1);
                let spre = self.spec_small_sets().subrange(0, i as int);
                let scur = self.spec_small_sets().subrange(0, i as int + 1);
                assert(kcur.drop_last() =~= kpre);
                assert(scur.drop_last() =~= spre);
                assert(kcur.last() == self.spec_small_keys()[i as int]);
                assert(scur.last() == self.spec_small_sets()[i as int]);
            }
            let k = self.small_keys[i];
            if k != 0 {
                keys.push(k);
                let raw = self.small_storage[i].raw_slots();
                sets.push(raw);
                proof {
                    assert(sets.deep_view() =~~= compact_sets(
                        self.spec_small_keys().subrange(0, i as int + 1),
                        self.spec_small_sets().subrange(0, i as int + 1),
                    ));
                }
            } else {
                proof {
                    assert(sets.deep_view() =~~= compact_sets(
                        self.spec_small_keys().subrange(0, i as int + 1),
                        self.spec_small_sets().subrange(0, i as int + 1),
                    ));
                }
            }
            i = i + 1;
        }
        proof {
            assert(self.spec_small_keys().subrange(0, n as int) =~= self.spec_small_keys());
            assert(self.spec_small_sets().subrange(0, n as int) =~= self.spec_small_sets());
        }
        (keys, sets)
    }

    /// A copy of the unbounded tier.
    fn big_snapshot(&self) -> (r: Vec<(u64, Vec<u8>)>)
        requires
            self.wf(),
        ensures
            r.deep_view() == self.spec_big(),
    {
        let mut out: Vec<(u64, Vec<u8>)> = Vec::new();
        let m = self.big_storage.len();
        let mut b: usize = 0;
        proof {
            self.lemma_field_views();
        }
        while b < m
            invariant
                self.wf(),
                b <= m,
                m == self.spec_big().len(),
                out@.len() == b,
                forall|ii: int|
                    0 <= ii < b ==> (#[trigger] out@[ii]).0 == self.spec_big()[ii].0
                        && out@[ii].1@ == self.spec_big()[ii].1,
            decreases m - b,
        {
            proof {
                self.lemma_field_views();
            }
            let entry = &self.big_storage[b];
            let list = self.big_ids(b);
            out.push((entry.0, list));
            b = b + 1;
        }
        proof {
            let dv = out.deep_view();
            assert forall|ii: int| 0 <= ii < m implies dv[ii] == self.spec_big()[ii] by {
                assert(dv[ii] == out@[ii].deep_view());
                assert(out@[ii].1.deep_view() =~= out@[ii].1@);
                assert(dv[ii].0 == out@[ii].0 && dv[ii].1 == out@[ii].1.deep_view());
            }
            assert(dv =~= self.spec_big());
        }
        out
    }

    /// Two engine states answer every query alike: same terms, same known
    /// keys, and the same id set for every known key.
    pub open spec fn state_equiv(a: Self, b: Self) -> bool {
        &&& a.spec_terms() == b.spec_terms()
        &&& forall|k: u64| #[trigger] a.known(k) <==> #[trigger] b.known(k)
        &&& forall|k: u64| a.known(k) ==> #[trigger] a.ids_of(k) == b.ids_of(k)
    }

    /// An engine rebuilt from the compacted parts of a well-formed engine is
    /// query-equivalent to it: compaction renumbers slots but preserves every
    /// key's id set.
    proof fn lemma_read_equiv(db: Self, d2: Self)
        requires
            db.wf(),
            d2.wf(),
            d2.spec_terms() == db.spec_terms(),
            d2.spec_small_keys() == compact_keys(db.spec_small_keys()),
            d2.spec_small_sets().len() == compact_sets(
                db.spec_small_keys(),
                db.spec_small_sets(),
            ).len(),
            forall|ii: int|
                0 <= ii < d2.spec_small_sets().len() ==> (#[trigger] d2.spec_small_sets()[ii]).slots_view()
                    == compact_sets(db.spec_small_keys(), db.spec_small_sets())[ii],
            d2.spec_big() == db.spec_big(),
        ensures
            Self::state_equiv(db, d2),
    {
        let dkeys = db.spec_small_keys();
        let dsets = db.spec_small_sets();
        let ck = compact_keys(dkeys);
        let cs = compact_sets(dkeys, dsets);
        lemma_compact_parallel(dkeys, dsets);
        db.lemma_bound_keys_distinct();
        assert forall|k: u64| db.known(k) implies #[trigger] d2.known(k) by {
            db.lemma_loc_facts(k);
            match db.loc_of(k) {
                IndexLocation::Small(s) => {
                    assert(dkeys[s as int] == k && k != 0);
                    assert(ck.contains(k));
                    let j = choose|j: int| 0 <= j < ck.len() && ck[j] == k;
                    assert(d2.spec_small_keys()[j] == k);
                },
                IndexLocation::Big => {
                    let b = assoc_index(db.spec_big(), k);
                    assert(0 <= b < db.spec_big().len() && db.spec_big()[b].0 == k);
                    assert((d2.spec_big()[b]).0 == k);
                },
            }
        }
        assert forall|k: u64| d2.known(k) implies #[trigger] db.known(k) by {
            d2.lemma_loc_facts(k);
            match d2.loc_of(k) {
                IndexLocation::Small(j) => {
                    assert(ck[j as int] == k);
                    assert(ck.contains(k)) by {
                        assert(ck[j as int] == k);
                    }
                    assert(dkeys.contains(k) && k != 0);
                    let i = choose|i: int| 0 <= i < dkeys.len() && dkeys[i] == k;
                    assert(dkeys[i] != 0);
                },
                IndexLocation::Big => {
                    let b = assoc_index(d2.spec_big(), k);
                    assert(0 <= b < d2.spec_big().len() && d2.spec_big()[b].0 == k);
                    assert((db.spec_big()[b]).0 == k);
                },
            }
        }
        assert forall|k: u64| db.known(k) implies #[trigger] db.ids_of(k) == d2.ids_of(k) by {
            db.lemma_loc_facts(k);
            assert(d2.known(k));
            d2.lemma_loc_facts(k);
            match db.loc_of(k) {
                IndexLocation::Small(s) => {
                    match d2.loc_of(k) {
                        IndexLocation::Big => {
                            assert(assoc_has_key(d2.spec_big(), k));
                            let b = assoc_index(d2.spec_big(), k);
                            assert(0 <= b < d2.spec_big().len() && d2.spec_big()[b].0 == k);
                            assert((db.spec_big()[b]).0 == k);
                            assert(assoc_has_key(db.spec_big(), k));
                            assert(false);
                        },
                        IndexLocation::Small(j) => {
                            assert(d2.spec_small_keys()[j as int] == k);
                            assert(ck[j as int] == k);
                            assert(ck[j as int] != 0 && exists|i: int|
                                0 <= i < dkeys.len() && dkeys[i] == ck[j as int] && cs[j as int]
                                    == dsets[i].slots_view());
                            let i = choose|i: int|
                                0 <= i < dkeys.len() && dkeys[i] == ck[j as int] && cs[j as int]
                                    == dsets[i].slots_view();
                            assert(i == s as int) by {
                                if i != s as int {
                                    assert(dkeys[i] == k && dkeys[s as int] == k);
                                    assert(dkeys[i] != 0 && dkeys[s as int] != 0);
                                }
                            }
                            assert(d2.spec_small_sets()[j as int].slots_view() == cs[j as int]);
                            Smallset::lemma_same_slots(
                                d2.spec_small_sets()[j as int],
                                dsets[s as int],
                            );
                            assert(d2.ids_of(k) == d2.spec_small_sets()[j as int]@);
                            assert(db.ids_of(k) == dsets[s as int]@);
                        },
                    }
                },
                IndexLocation::Big => {
                    match d2.loc_of(k) {
                        IndexLocation::Small(j) => {
                            assert(ck[j as int] == k);
                            assert(ck.contains(k)) by {
                                assert(ck[j as int] == k);
                            }
                            assert(dkeys.contains(k));
                            let i = choose|i: int| 0 <= i < dkeys.len() && dkeys[i] == k;
                            assert(dkeys[i] != 0);
                            assert(assoc_value(db.spec_index(), k) == IndexLocation::Small(
                                i as usize,
                            ));
                            assert(false);
                        },
                        IndexLocation::Big => {
                            assert(d2.ids_of(k) == assoc_value(d2.spec_big(), k).to_set());
                            assert(db.ids_of(k) == assoc_value(db.spec_big(), k).to_set());
                        },
                    }
                },
            }
        }
    }

    /// Deserialize an engine from snapshot bytes. Bytes that any well-formed
    /// engine's `dump` produced load successfully, into an engine that is
    /// query-equivalent to it; anything malformed fails cleanly without
    /// producing a partially populated engine.
    pub fn read(bytes: &[u8]) -> (r: Result<Self, LoadError>)
        ensures
            r matches Ok(db) ==> db.wf() && db.spec_holes() == Seq::<usize>::empty(),
            forall|db: Self|
                db.wf() && db.dump_within_limits() && bytes@ == #[trigger] db.dump_encoding() ==> (
                r matches Ok(d2) && Self::state_equiv(db, d2)),
    {
        let decoded = decode_state(bytes);
        let tuple = match decoded {
            Ok(t) => t,
            Err(e) => {
                proof {
                    assert forall|db: Self|
                        db.wf() && db.dump_within_limits() && bytes@
                        == #[trigger] db.dump_encoding() implies false by {
                        assert(bytes@ == packed_state(
                            db.spec_terms(),
                            compact_keys(db.spec_small_keys()),
                            compact_sets(db.spec_small_keys(), db.spec_small_sets()),
                            db.spec_big(),
                        ));
                    }
                }
                return Err(LoadError::Decode(e));
            },
        };
        let (terms, keys, rawsets, big) = tuple;
        let ghost tdv = terms.deep_view();
        let ghost kdv = keys@;
        let ghost rdv = rawsets.deep_view();
        let ghost bdv = big.deep_view();
        proof {
            assert forall|db: Self|
                db.wf() && db.dump_within_limits() && bytes@
                == #[trigger] db.dump_encoding() implies (tdv == db.spec_terms() && kdv
                == compact_keys(db.spec_small_keys()) && rdv == compact_sets(
                db.spec_small_keys(),
                db.spec_small_sets(),
            ) && bdv == db.spec_big()) by {
                assert(bytes@ == packed_state(
                    db.spec_terms(),
                    compact_keys(db.spec_small_keys()),
                    compact_sets(db.spec_small_keys(), db.spec_small_sets()),
                    db.spec_big(),
                ));
            }
        }
        let mut sets: Vec<Smallset<SMALLSIZE>> = Vec::new();
        let rn = rawsets.len();
        let mut idx: usize = 0;
        while idx < rn
            invariant
                rn == rawsets@.len(),
                rdv == rawsets.deep_view(),
                idx <= rn,
                sets@.len() == idx,
                forall|ii: int|
                    0 <= ii < idx ==> (#[trigger] sets@[ii]).wf() && sets@[ii].slots_view()
                        == rdv[ii],
                forall|db: Self|
                    db.wf() && db.dump_within_limits() && bytes@ == #[trigger] db.dump_encoding()
                        ==> (tdv == db.spec_terms() && kdv == compact_keys(db.spec_small_keys())
                        && rdv == compact_sets(db.spec_small_keys(), db.spec_small_sets()) && bdv
                        == db.spec_big()),
            decreases rn - idx,
        {
            let raw = &rawsets[idx];
            proof {
                assert(rdv[idx as int] =~= raw@);
            }
            let good_len = raw.len() == SMALLSIZE;
            let coherent_raw = slots_coherent(raw);
            if !good_len || !coherent_raw {
                proof {
                    assert forall|db: Self|
                        db.wf() && db.dump_within_limits() && bytes@
                        == #[trigger] db.dump_encoding() implies false by {
                        lemma_compact_parallel(db.spec_small_keys(), db.spec_small_sets());
                        let cs = compact_sets(db.spec_small_keys(), db.spec_small_sets());
                        let ck = compact_keys(db.spec_small_keys());
                        assert(ck[idx as int] != 0 && exists|i: int|
                            0 <= i < db.spec_small_keys().len() && db.spec_small_keys()[i] == ck[
                                idx as int
                            ] && cs[idx as int] == db.spec_small_sets()[i].slots_view());
                        let i = choose|i: int|
                            0 <= i < db.spec_small_keys().len() && db.spec_small_keys()[i] == ck[
                                idx as int
                            ] && cs[idx as int] == db.spec_small_sets()[i].slots_view();
                        assert(db.spec_small_sets()[i].wf());
                        assert(raw@.len() == SMALLSIZE && coherent(raw@));
                    }
                }
                return Err(LoadError::Invalid);
            }
            let copy = copy_bytes(raw);
            let ss = Smallset::reiterpret(copy);
            sets.push(ss);
            idx = idx + 1;
        }
        let ghost sv = sets@;
        match Self::from_existing_data(terms, keys, sets, big) {
            Ok(db2) => {
                proof {
                    assert forall|db: Self|
                        db.wf() && db.dump_within_limits() && bytes@
                        == #[trigger] db.dump_encoding() implies Self::state_equiv(db, db2) by {
                        lemma_compact_parallel(db.spec_small_keys(), db.spec_small_sets());
                        Self::lemma_read_equiv(db, db2);
                    }
                }
                Ok(db2)
            },
            Err(()) => {
                proof {
                    assert forall|db: Self|
                        db.wf() && db.dump_within_limits() && bytes@
                        == #[trigger] db.dump_encoding() implies false by {
                        lemma_compact_parallel(db.spec_small_keys(), db.spec_small_sets());
                        db.lemma_bound_keys_distinct();
                        db.lemma_terms_distinct();
                        lemma_compact_keys_no_dup(db.spec_small_keys());
                        let ck = compact_keys(db.spec_small_keys());
                        assert forall|a: int| 0 <= a < ck.len() implies #[trigger] ck[a] != 0 by {
                            assert(ck.contains(ck[a]));
                        }
                        assert forall|a: int, b2: int|
                            0 <= a < ck.len() && 0 <= b2 < ck.len() && a != b2 implies (
                        #[trigger] ck[a]) != (#[trigger] ck[b2]) by {
                            assert(ck.no_duplicates());
                        }
                        assert forall|b2: int| 0 <= b2 < db.spec_big().len() implies (
                        #[trigger] db.spec_big()[b2]).0 != 0 && !ck.contains(db.spec_big()[b2].0)
                            && id_list_wf(db.spec_big()[b2].1) by {
                            if ck.contains(db.spec_big()[b2].0) {
                                assert(db.spec_small_keys().contains(db.spec_big()[b2].0));
                                let i = choose|i: int|
                                    0 <= i < db.spec_small_keys().len()
                                        && db.spec_small_keys()[i] == db.spec_big()[b2].0;
                                assert(db.spec_small_keys()[i] != 0);
                                assert(assoc_value(db.spec_index(), db.spec_big()[b2].0)
                                    == IndexLocation::Small(i as usize));
                                assert(assoc_value(db.spec_index(), db.spec_big()[b2].0)
                                    == IndexLocation::Big);
                            }
                        }
                        assert forall|ii: int| 0 <= ii < sv.len() implies set_ids_below(
                            (#[trigger] sv[ii])@,
                            tdv.len() as int,
                        ) by {
                            let cs = compact_sets(db.spec_small_keys(), db.spec_small_sets());
                            assert(ck[ii] != 0 && exists|i: int|
                                0 <= i < db.spec_small_keys().len() && db.spec_small_keys()[i]
                                    == ck[ii] && cs[ii] == db.spec_small_sets()[i].slots_view());
                            let i = choose|i: int|
                                0 <= i < db.spec_small_keys().len() && db.spec_small_keys()[i]
                                    == ck[ii] && cs[ii] == db.spec_small_sets()[i].slots_view();
                            assert(sv[ii].slots_view() == cs[ii]);
                            Smallset::lemma_same_slots(sv[ii], db.spec_small_sets()[i]);
                            assert(set_ids_below(
                                db.spec_small_sets()[i]@,
                                db.spec_term_pairs().len() as int,
                            ));
                        }
                        assert forall|bb: int| 0 <= bb < bdv.len() implies id_list_below(
                            (#[trigger] bdv[bb]).1,
                            tdv.len() as int,
                        ) by {
                            assert(bdv[bb] == db.spec_big()[bb]);
                            assert(id_list_below(
                                db.spec_big()[bb].1,
                                db.spec_term_pairs().len() as int,
                            ));
                        }
                        assert(state_tuple_ok(tdv, kdv, sv, bdv));
                    }
                }
                Err(LoadError::Invalid)
            },
        }
    }

    /// Serialize the full state into one self-describing binary document:
    /// the call succeeds and returns exactly this state's snapshot bytes
    /// whenever the state fits the format's length limits. An encoding
    /// failure is returned verbatim; nothing is written in memory either
    /// way.
    pub fn dump(&self) -> (r: Result<Vec<u8>, rmp_serde::encode::Error>)
        requires
            self.wf(),
        ensures
            r matches Ok(b) ==> b@ == self.dump_encoding(),
            r is Ok <== self.dump_within_limits(),
    {
        let terms = self.compact_terms();
        let (keys, sets) = self.compact_small_items();
        let big = self.big_snapshot();
        let r = encode_state(&terms, &keys, &sets, &big);
        proof {
            if self.dump_within_limits() {
                assert(within_length_limits(
                    terms.deep_view(),
                    keys@,
                    sets.deep_view(),
                    big.deep_view(),
                ));
            }
        }
        r
    }
}

} // verus!
