//! Horizontal and vertical queries over the engine's storage.
//!
//! A horizontal query lists the terms of one key; a vertical query scans
//! every key for one term, or for at least `bound` of a list of terms. Both
//! vertical kinds are full scans by design: no inverted index is kept.

use vstd::prelude::*;
use vstd::string::StringExecFns;

use crate::smallset::{live_values, slot_live, Smallset};
use crate::storage::{
    assoc_has_key, assoc_index, assoc_value, term_position, terms_contain, Database, IndexLocation,
    Key, MAX_TERMS,
};

verus! {

/// The term a non-sentinel id resolves to: ids count from 1 in term-list
/// order.
pub open spec fn resolve_id(terms: Seq<Seq<char>>, id: u8) -> Option<Seq<char>> {
    if 1 <= id as int && id as int <= terms.len() {
        Some(terms[id as int - 1])
    } else {
        None
    }
}

/// The terms a list of ids resolves to, in list order; an id that resolves
/// to no term is silently skipped.
pub open spec fn resolve_list(terms: Seq<Seq<char>>, ids: Seq<u8>) -> Seq<Seq<char>>
    decreases ids.len(),
{
    if ids.len() == 0 {
        Seq::empty()
    } else {
        let front = resolve_list(terms, ids.drop_last());
        match resolve_id(terms, ids.last()) {
            Some(t) => front.push(t),
            None => front,
        }
    }
}

/// How many positions of `ids` name an id that the set `have` contains; an
/// id repeated in the list counts once per occurrence.
pub open spec fn match_count(ids: Seq<u8>, have: Set<u8>) -> nat
    decreases ids.len(),
{
    if ids.len() == 0 {
        0
    } else {
        match_count(ids.drop_last(), have) + if have.contains(ids.last()) {
            1nat
        } else {
            0nat
        }
    }
}

/// A scan over a prefix of the id list can only lower the count.
proof fn lemma_match_count_prefix(ids: Seq<u8>, have: Set<u8>, n: int)
    requires
        0 <= n <= ids.len(),
    ensures
        match_count(ids.subrange(0, n), have) <= match_count(ids, have),
    decreases ids.len(),
{
    if n == ids.len() {
        assert(ids.subrange(0, n) =~= ids);
    } else {
        lemma_match_count_prefix(ids.drop_last(), have, n);
        assert(ids.drop_last().subrange(0, n) =~= ids.subrange(0, n));
    }
}

/// A vertical query: one term, or at least `bound` of a list of terms.
#[derive(Clone, Debug)]
pub enum Query {
    /// Keys whose set contains the given term.
    Simple { term: String },
    /// Keys whose set contains at least `bound` of the given terms.
    KofN { terms: Vec<String>, bound: usize },
}

impl<const SMALLSIZE: usize> Database<SMALLSIZE> {
    /// The interner's reverse lookup is exactly positional resolution.
    proof fn lemma_backward_resolves(self, id: u8)
        requires
            self.wf(),
        ensures
            self.spec_interner().spec_backward(id) == resolve_id(self.spec_terms(), id),
    {
        let dm = self.spec_interner();
        if dm.has_id(id) {
            let j = dm.id_index(id);
            assert(0 <= j < dm@.len() && dm@[j].1 == id);
            assert(self.spec_term_pairs()[j].1 as int == j + 1);
            assert(self.spec_terms()[id as int - 1] == dm@[j].0);
        } else {
            if 1 <= id as int && id as int <= self.spec_terms().len() {
                assert(self.spec_term_pairs()[id as int - 1].1 as int == id as int);
                assert(dm@[id as int - 1].1 == id);
                assert(dm.has_id(id));
                assert(false);
            }
        }
    }

    /// The term string a (resolvable) id stands for.
    pub fn explain_term_id(&self, term_id: u8) -> (r: Option<&String>)
        requires
            self.wf(),
        ensures
            match r {
                Some(s) => resolve_id(self.spec_terms(), term_id) == Some(s@),
                None => resolve_id(self.spec_terms(), term_id) is None,
            },
    {
        proof {
            self.lemma_field_views();
            self.lemma_backward_resolves(term_id);
        }
        self.terms.get_backward(term_id)
    }

    /// Resolve a list of ids to their term strings, skipping unresolvable
    /// ids.
    fn resolve_all(&self, ids: &Vec<u8>) -> (r: Vec<String>)
        requires
            self.wf(),
        ensures
            r.deep_view() == resolve_list(self.spec_terms(), ids@),
    {
        let mut out: Vec<String> = Vec::new();
        let n = ids.len();
        let mut j: usize = 0;
        while j < n
            invariant
                self.wf(),
                j <= n,
                n == ids@.len(),
                out.deep_view() == resolve_list(self.spec_terms(), ids@.subrange(0, j as int)),
            decreases n - j,
        {
            proof {
                self.lemma_field_views();
                self.lemma_backward_resolves(ids@[j as int]);
                let pre = ids@.subrange(0, j as int);
                let cur = ids@.subrange(0, j as int + 1);
                assert(cur.drop_last() =~= pre);
                assert(cur.last() == ids@[j as int]);
            }
            match self.terms.get_backward(ids[j]) {
                Some(s) => {
                    let copy = s.clone();
                    out.push(copy);
                    proof {
                        assert(out.deep_view() =~= resolve_list(
                            self.spec_terms(),
                            ids@.subrange(0, j as int + 1),
                        ));
                    }
                },
                None => {
                    proof {
                        assert(out.deep_view() =~= resolve_list(
                            self.spec_terms(),
                            ids@.subrange(0, j as int + 1),
                        ));
                    }
                },
            }
            j = j + 1;
        }
        proof {
            assert(ids@.subrange(0, n as int) =~= ids@);
        }
        out
    }

    /// The ids of a known key's set, in the order a listing of the key's
    /// terms walks them: slot order for the inline tier, insertion order for
    /// the unbounded tier.
    pub open spec fn key_id_list(self, k: u64) -> Seq<u8> {
        match self.loc_of(k) {
            IndexLocation::Small(s) => live_values(self.spec_small_sets()[s as int].slots_view()),
            IndexLocation::Big => assoc_value(self.spec_big(), k),
        }
    }

    /// All terms attached to a key, or nothing when the key is unknown. An
    /// id that resolves to no term is skipped rather than failing the query.
    pub fn horizontal_query(&self, key: &Key) -> (r: Option<Vec<String>>)
        requires
            self.wf(),
        ensures
            r is Some <==> self.known(key.spec_get()),
            match r {
                Some(v) => v.deep_view() == resolve_list(
                    self.spec_terms(),
                    self.key_id_list(key.spec_get()),
                ),
                None => !self.known(key.spec_get()),
            },
    {
        let k = key.get();
        match self.lookup_index(k) {
            None => None,
            Some(IndexLocation::Small(s)) => {
                proof {
                    self.lemma_loc_facts(k);
                    self.lemma_field_views();
                }
                let ids = self.small_storage[s].iter();
                Some(self.resolve_all(&ids))
            },
            Some(IndexLocation::Big) => {
                proof {
                    self.lemma_loc_facts(k);
                }
                let pos = self.big_pos(k);
                let ids = self.big_ids(pos);
                Some(self.resolve_all(&ids))
            },
        }
    }

    /// A copy of the id list of the unbounded entry at `pos`.
    pub(crate) fn big_ids(&self, pos: usize) -> (r: Vec<u8>)
        requires
            self.wf(),
            pos < self.spec_big().len(),
        ensures
            r@ == self.spec_big()[pos as int].1,
    {
        let ghost list = self.spec_big()[pos as int].1;
        proof {
            self.lemma_field_views();
        }
        let n = self.big_storage[pos].1.len();
        let mut out: Vec<u8> = Vec::new();
        let mut j: usize = 0;
        while j < n
            invariant
                pos < self.big_storage@.len(),
                list == self.spec_big()[pos as int].1,
                list == self.big_storage@[pos as int].1@,
                j <= n,
                n == list.len(),
                out@ == list.subrange(0, j as int),
            decreases n - j,
        {
            let entry = &self.big_storage[pos];
            out.push(entry.1[j]);
            proof {
                assert(out@ =~= list.subrange(0, j as int + 1));
            }
            j = j + 1;
        }
        proof {
            assert(list.subrange(0, n as int) =~= list);
        }
        out
    }

    /// The keys of the inline slots `0..n` that are bound and whose set
    /// contains at least `bound` of `ids`, in slot order.
    pub open spec fn small_matches_upto(self, ids: Seq<u8>, bound: int, n: int) -> Seq<u64>
        decreases n,
    {
        if n <= 0 {
            Seq::empty()
        } else {
            let front = self.small_matches_upto(ids, bound, n - 1);
            if self.spec_small_keys()[n - 1] != 0 && match_count(
                ids,
                self.spec_small_sets()[n - 1]@,
            ) >= bound {
                front.push(self.spec_small_keys()[n - 1])
            } else {
                front
            }
        }
    }

    /// The keys of the unbounded entries `0..n` whose set contains at least
    /// `bound` of `ids`, in entry order.
    pub open spec fn big_matches_upto(self, ids: Seq<u8>, bound: int, n: int) -> Seq<u64>
        decreases n,
    {
        if n <= 0 {
            Seq::empty()
        } else {
            let front = self.big_matches_upto(ids, bound, n - 1);
            if match_count(ids, self.spec_big()[n - 1].1.to_set()) >= bound {
                front.push(self.spec_big()[n - 1].0)
            } else {
                front
            }
        }
    }

    /// Every key whose set contains at least `bound` of `ids`: inline keys
    /// in slot order, then unbounded keys in insertion order.
    pub open spec fn vertical_matches(self, ids: Seq<u8>, bound: int) -> Seq<u64> {
        self.small_matches_upto(ids, bound, self.spec_small_keys().len() as int)
            + self.big_matches_upto(ids, bound, self.spec_big().len() as int)
    }

    /// Whether an inline set contains at least `bound` of `ids`, stopping as
    /// soon as the running count reaches the bound.
    fn small_set_reaches(set: &Smallset<SMALLSIZE>, ids: &Vec<u8>, bound: usize) -> (r: bool)
        requires
            set.wf(),
            SMALLSIZE >= 1,
            forall|j: int| 0 <= j < ids@.len() ==> slot_live(#[trigger] ids@[j]),
        ensures
            r == (match_count(ids@, set@) >= bound),
    {
        if bound == 0 {
            return true;
        }
        let mut total: usize = 0;
        let n = ids.len();
        let mut j: usize = 0;
        while j < n
            invariant
                set.wf(),
                SMALLSIZE >= 1,
                forall|jj: int| 0 <= jj < ids@.len() ==> slot_live(#[trigger] ids@[jj]),
                j <= n,
                n == ids@.len(),
                total == match_count(ids@.subrange(0, j as int), set@),
                total < bound,
            decreases n - j,
        {
            proof {
                let pre = ids@.subrange(0, j as int);
                let cur = ids@.subrange(0, j as int + 1);
                assert(cur.drop_last() =~= pre);
                assert(cur.last() == ids@[j as int]);
            }
            if set.contains_id(ids[j]) {
                total = total + 1;
                if total >= bound {
                    proof {
                        lemma_match_count_prefix(ids@, set@, j as int + 1);
                    }
                    return true;
                }
            }
            j = j + 1;
        }
        proof {
            assert(ids@.subrange(0, n as int) =~= ids@);
        }
        false
    }

    /// Whether an unbounded id list contains at least `bound` of `ids`, with
    /// the same short-circuit.
    fn big_list_reaches(list: &Vec<u8>, ids: &Vec<u8>, bound: usize) -> (r: bool)
        ensures
            r == (match_count(ids@, list@.to_set()) >= bound),
    {
        if bound == 0 {
            return true;
        }
        let mut total: usize = 0;
        let n = ids.len();
        let mut j: usize = 0;
        while j < n
            invariant
                j <= n,
                n == ids@.len(),
                total == match_count(ids@.subrange(0, j as int), list@.to_set()),
                total < bound,
            decreases n - j,
        {
            proof {
                let pre = ids@.subrange(0, j as int);
                let cur = ids@.subrange(0, j as int + 1);
                assert(cur.drop_last() =~= pre);
                assert(cur.last() == ids@[j as int]);
            }
            if Self::list_contains(list, ids[j]) {
                total = total + 1;
                if total >= bound {
                    proof {
                        lemma_match_count_prefix(ids@, list@.to_set(), j as int + 1);
                    }
                    return true;
                }
            }
            j = j + 1;
        }
        proof {
            assert(ids@.subrange(0, n as int) =~= ids@);
        }
        false
    }

    /// Whether a byte occurs in a list.
    fn list_contains(list: &Vec<u8>, v: u8) -> (r: bool)
        ensures
            r == list@.contains(v),
    {
        let n = list.len();
        let mut j: usize = 0;
        while j < n
            invariant
                j <= n,
                n == list@.len(),
                forall|jj: int| 0 <= jj < j ==> list@[jj] != v,
            decreases n - j,
        {
            if list[j] == v {
                return true;
            }
            j = j + 1;
        }
        proof {
            if list@.contains(v) {
                let jj = choose|jj: int| 0 <= jj < list@.len() && list@[jj] == v;
            }
        }
        false
    }

    /// Scan every key, inline slots first, then unbounded entries, and
    /// collect those whose set contains at least `bound` of `ids`.
    fn scan_matching(&self, ids: &Vec<u8>, bound: usize) -> (r: Vec<Key>)
        requires
            self.wf(),
            SMALLSIZE >= 1,
            forall|j: int| 0 <= j < ids@.len() ==> slot_live(#[trigger] ids@[j]),
        ensures
            r@.map_values(|key: Key| key.spec_get()) == self.vertical_matches(ids@, bound as int),
    {
        let mut out: Vec<Key> = Vec::new();
        let n = self.small_keys.len();
        let mut i: usize = 0;
        proof {
            self.lemma_field_views();
        }
        while i < n
            invariant
                self.wf(),
                SMALLSIZE >= 1,
                forall|j: int| 0 <= j < ids@.len() ==> slot_live(#[trigger] ids@[j]),
                i <= n,
                n == self.spec_small_keys().len(),
                out@.map_values(|key: Key| key.spec_get()) == self.small_matches_upto(
                    ids@,
                    bound as int,
                    i as int,
                ),
            decreases n - i,
        {
            proof {
                self.lemma_field_views();
            }
            let kv = self.small_keys[i];
            if kv != 0 {
                if Self::small_set_reaches(&self.small_storage[i], ids, bound) {
                    match Key::new(kv) {
                        Some(kk) => {
                            out.push(kk);
                        },
                        None => {
                            proof {
                                assert(false);
                            }
                        },
                    }
                }
            }
            proof {
                assert(out@.map_values(|key: Key| key.spec_get()) =~= self.small_matches_upto(
                    ids@,
                    bound as int,
                    i as int + 1,
                ));
            }
            i = i + 1;
        }
        let m = self.big_storage.len();
        let mut b: usize = 0;
        while b < m
            invariant
                self.wf(),
                SMALLSIZE >= 1,
                forall|j: int| 0 <= j < ids@.len() ==> slot_live(#[trigger] ids@[j]),
                b <= m,
                m == self.spec_big().len(),
                n == self.spec_small_keys().len(),
                out@.map_values(|key: Key| key.spec_get()) == self.small_matches_upto(
                    ids@,
                    bound as int,
                    n as int,
                ) + self.big_matches_upto(ids@, bound as int, b as int),
            decreases m - b,
        {
            proof {
                self.lemma_field_views();
                assert(self.spec_big()[b as int].1 == self.big_storage@[b as int].1@);
                assert(self.spec_big()[b as int].0 == self.big_storage@[b as int].0);
            }
            let ghost before = out@;
            let entry = &self.big_storage[b];
            let matched = Self::big_list_reaches(&entry.1, ids, bound);
            proof {
                assert(matched == (match_count(ids@, self.spec_big()[b as int].1.to_set())
                    >= bound as int));
            }
            if matched {
                proof {
                    assert(self.spec_big()[b as int].0 != 0);
                }
                match Key::new(entry.0) {
                    Some(kk) => {
                        out.push(kk);
                        proof {
                            assert(kk.spec_get() == self.spec_big()[b as int].0);
                            assert(out@ == before.push(kk));
                        }
                    },
                    None => {
                        proof {
                            assert(false);
                        }
                    },
                }
            }
            proof {
                let front = self.big_matches_upto(ids@, bound as int, b as int);
                let next = self.big_matches_upto(ids@, bound as int, b as int + 1);
                let small_part = self.small_matches_upto(ids@, bound as int, n as int);
                assert(next == if matched {
                    front.push(self.spec_big()[b as int].0)
                } else {
                    front
                });
                assert(before.map_values(|key: Key| key.spec_get()) == small_part + front);
                if matched {
                    assert(out@.map_values(|key: Key| key.spec_get()) =~= before.map_values(
                        |key: Key| key.spec_get(),
                    ).push(self.spec_big()[b as int].0));
                    assert((small_part + front).push(self.spec_big()[b as int].0) =~= small_part
                        + next);
                } else {
                    assert(out@ == before);
                }
                assert(out@.map_values(|key: Key| key.spec_get()) =~= small_part + next);
            }
            b = b + 1;
        }
        out
    }

    /// Keys whose set contains the given id, inline keys first.
    fn simple_vertical_query(&self, term_id: u8) -> (r: Vec<Key>)
        requires
            self.wf(),
            SMALLSIZE >= 1,
            slot_live(term_id),
        ensures
            r@.map_values(|key: Key| key.spec_get()) == self.vertical_matches(seq![term_id], 1),
    {
        let ids: Vec<u8> = vec![term_id];
        proof {
            assert(ids@ =~= seq![term_id]);
        }
        self.scan_matching(&ids, 1)
    }

    /// Keys whose set contains at least `bound` of the given ids.
    fn k_of_n_query(&self, ids: &Vec<u8>, bound: usize) -> (r: Vec<Key>)
        requires
            self.wf(),
            SMALLSIZE >= 1,
            forall|j: int| 0 <= j < ids@.len() ==> slot_live(#[trigger] ids@[j]),
        ensures
            r@.map_values(|key: Key| key.spec_get()) == self.vertical_matches(ids@, bound as int),
    {
        self.scan_matching(ids, bound)
    }

    /// A resolved term list holds exactly the terms some listed id resolves
    /// to.
    pub proof fn lemma_resolve_list_membership(terms: Seq<Seq<char>>, ids: Seq<u8>)
        ensures
            forall|t: Seq<char>|
                #[trigger] resolve_list(terms, ids).contains(t) <==> exists|j: int|
                    0 <= j < ids.len() && resolve_id(terms, #[trigger] ids[j]) == Some(t),
        decreases ids.len(),
    {
        if ids.len() > 0 {
            let front = ids.drop_last();
            Self::lemma_resolve_list_membership(terms, front);
            let rl = resolve_list(terms, ids);
            let rlf = resolve_list(terms, front);
            assert forall|t: Seq<char>| #[trigger] rl.contains(t) implies exists|j: int|
                0 <= j < ids.len() && resolve_id(terms, #[trigger] ids[j]) == Some(t) by {
                let x = choose|x: int| 0 <= x < rl.len() && rl[x] == t;
                match resolve_id(terms, ids.last()) {
                    Some(t2) => {
                        if x == rl.len() - 1 {
                            assert(resolve_id(terms, ids[ids.len() - 1]) == Some(t));
                        } else {
                            assert(rlf[x] == t);
                            assert(rlf.contains(t));
                            let j = choose|j: int|
                                0 <= j < front.len() && resolve_id(terms, #[trigger] front[j])
                                    == Some(t);
                            assert(resolve_id(terms, ids[j]) == Some(t));
                        }
                    },
                    None => {
                        assert(rlf[x] == t);
                        assert(rlf.contains(t));
                        let j = choose|j: int|
                            0 <= j < front.len() && resolve_id(terms, #[trigger] front[j]) == Some(
                                t,
                            );
                        assert(resolve_id(terms, ids[j]) == Some(t));
                    },
                }
            }
            assert forall|t: Seq<char>|
                (exists|j: int|
                    0 <= j < ids.len() && resolve_id(terms, #[trigger] ids[j]) == Some(
                        t,
                    )) implies #[trigger] rl.contains(t) by {
                let j = choose|j: int|
                    0 <= j < ids.len() && resolve_id(terms, #[trigger] ids[j]) == Some(t);
                if j == ids.len() - 1 {
                    assert(rl[rl.len() - 1] == t);
                } else {
                    assert(front[j] == ids[j]);
                    assert(rlf.contains(t));
                    let x = choose|x: int| 0 <= x < rlf.len() && rlf[x] == t;
                    assert(rl[x] == t);
                }
            }
        }
    }

    /// The id list a key's terms are read from holds exactly the ids of the
    /// key's set.
    pub proof fn lemma_key_id_list(self, k: u64)
        requires
            self.wf(),
            self.known(k),
        ensures
            forall|id: u8|
                #[trigger] self.key_id_list(k).contains(id) <==> self.ids_of(k).contains(id),
    {
        self.lemma_loc_facts(k);
        match self.loc_of(k) {
            IndexLocation::Small(s) => {
                self.spec_small_sets()[s as int].lemma_iter_props();
                let lv = live_values(self.spec_small_sets()[s as int].slots_view());
                assert forall|id: u8| #[trigger] lv.contains(id) implies self.ids_of(k).contains(
                    id,
                ) by {
                    assert(lv.to_set().contains(id));
                }
                assert forall|id: u8| self.ids_of(k).contains(id) implies #[trigger] lv.contains(
                    id,
                ) by {
                    assert(lv.to_set().contains(id));
                }
            },
            IndexLocation::Big => {
                let list = assoc_value(self.spec_big(), k);
                assert(forall|id: u8| #[trigger] list.to_set().contains(id) == list.contains(id));
            },
        }
    }

    /// A vertical scan returns exactly the known keys whose id set matches
    /// at least `bound` of the given ids, each once.
    pub proof fn lemma_vertical_membership(self, ids: Seq<u8>, bound: int)
        requires
            self.wf(),
        ensures
            forall|k: u64|
                #[trigger] self.vertical_matches(ids, bound).contains(k) <==> (self.known(k)
                    && match_count(ids, self.ids_of(k)) >= bound),
            self.vertical_matches(ids, bound).no_duplicates(),
    {
        let kn = self.spec_small_keys().len() as int;
        let bn = self.spec_big().len() as int;
        let sm = self.small_matches_upto(ids, bound, kn);
        let bm = self.big_matches_upto(ids, bound, bn);
        self.lemma_small_matches_membership(ids, bound, kn);
        self.lemma_big_matches_membership(ids, bound, bn);
        self.lemma_bound_keys_distinct();
        // Soundness and completeness of the combined scan.
        assert forall|k: u64| #[trigger] self.vertical_matches(ids, bound).contains(
            k,
        ) implies (self.known(k) && match_count(ids, self.ids_of(k)) >= bound) by {
            let x = choose|x: int|
                0 <= x < (sm + bm).len() && (sm + bm)[x] == k;
            if x < sm.len() {
                assert(sm.contains(k)) by {
                    assert(sm[x] == k);
                }
                let s = choose|s: int|
                    0 <= s < kn && #[trigger] self.spec_small_keys()[s] == k
                        && self.spec_small_keys()[s] != 0 && match_count(
                        ids,
                        self.spec_small_sets()[s]@,
                    ) >= bound;
                assert(self.loc_of(k) == IndexLocation::Small(s as usize));
                assert(self.ids_of(k) == self.spec_small_sets()[s]@);
            } else {
                assert(bm.contains(k)) by {
                    assert(bm[x - sm.len()] == k);
                }
                let b = choose|b: int|
                    0 <= b < bn && (#[trigger] self.spec_big()[b]).0 == k && match_count(
                        ids,
                        self.spec_big()[b].1.to_set(),
                    ) >= bound;
                assert(self.known(k) && self.loc_of(k) == IndexLocation::Big);
                assert(assoc_value(self.spec_big(), k) == self.spec_big()[b].1) by {
                    crate::storage::lemma_assoc_at(self.spec_big(), b);
                }
            }
        }
        assert forall|k: u64|
            (self.known(k) && match_count(ids, self.ids_of(k))
                >= bound) implies #[trigger] self.vertical_matches(ids, bound).contains(k) by {
            self.lemma_loc_facts(k);
            match self.loc_of(k) {
                IndexLocation::Small(s) => {
                    assert(self.spec_small_keys()[s as int] == k && k != 0);
                    assert(self.ids_of(k) == self.spec_small_sets()[s as int]@);
                    assert(sm.contains(k));
                    let x = choose|x: int| 0 <= x < sm.len() && sm[x] == k;
                    assert((sm + bm)[x] == k);
                },
                IndexLocation::Big => {
                    let b = assoc_index(self.spec_big(), k);
                    assert(0 <= b < bn && self.spec_big()[b].0 == k);
                    assert(assoc_value(self.spec_big(), k) == self.spec_big()[b].1);
                    assert(bm.contains(k));
                    let x = choose|x: int| 0 <= x < bm.len() && bm[x] == k;
                    assert((sm + bm)[sm.len() + x] == k);
                },
            }
        }
        // No key is reported twice: bound slot keys are distinct, unbounded
        // keys are distinct, and the tiers are disjoint.
        assert(self.vertical_matches(ids, bound).no_duplicates()) by {
            assert forall|a: int, b2: int|
                0 <= a < (sm + bm).len() && 0 <= b2 < (sm + bm).len() && a != b2 implies (sm
                + bm)[a] != (sm + bm)[b2] by {
                self.lemma_small_matches_no_dup(ids, bound, kn);
                self.lemma_big_matches_no_dup(ids, bound, bn);
                if a < sm.len() && b2 < sm.len() {
                    assert(sm[a] != sm[b2]);
                } else if a >= sm.len() && b2 >= sm.len() {
                    assert(bm[a - sm.len()] != bm[b2 - sm.len()]);
                } else {
                    let xa = if a < sm.len() { a } else { b2 };
                    let xb = if a < sm.len() { b2 } else { a };
                    assert(sm.contains(sm[xa])) by {
                        assert(0 <= xa < sm.len());
                    }
                    assert(bm.contains(bm[xb - sm.len()]));
                    if sm[xa] == bm[xb - sm.len()] {
                        let k = sm[xa];
                        let s = choose|s: int|
                            0 <= s < kn && #[trigger] self.spec_small_keys()[s] == k
                                && self.spec_small_keys()[s] != 0 && match_count(
                                ids,
                                self.spec_small_sets()[s]@,
                            ) >= bound;
                        let b = choose|b: int|
                            0 <= b < bn && (#[trigger] self.spec_big()[b]).0 == k && match_count(
                                ids,
                                self.spec_big()[b].1.to_set(),
                            ) >= bound;
                        assert(self.loc_of(k) == IndexLocation::Small(s as usize));
                        assert(!assoc_has_key(self.spec_big(), k));
                        assert(assoc_has_key(self.spec_big(), k)) by {
                            assert(self.spec_big()[b].0 == k);
                        }
                    }
                }
            }
        }
    }

    /// Membership of the inline-tier scan prefix.
    proof fn lemma_small_matches_membership(self, ids: Seq<u8>, bound: int, n: int)
        requires
            self.wf(),
            0 <= n <= self.spec_small_keys().len(),
        ensures
            forall|k: u64|
                #[trigger] self.small_matches_upto(ids, bound, n).contains(k) <==> exists|s: int|
                    0 <= s < n && #[trigger] self.spec_small_keys()[s] == k
                        && self.spec_small_keys()[s] != 0 && match_count(
                        ids,
                        self.spec_small_sets()[s]@,
                    ) >= bound,
        decreases n,
    {
        if n > 0 {
            self.lemma_small_matches_membership(ids, bound, n - 1);
            let cur = self.small_matches_upto(ids, bound, n);
            let front = self.small_matches_upto(ids, bound, n - 1);
            assert forall|k: u64| #[trigger] cur.contains(k) implies exists|s: int|
                0 <= s < n && #[trigger] self.spec_small_keys()[s] == k
                    && self.spec_small_keys()[s] != 0 && match_count(
                    ids,
                    self.spec_small_sets()[s]@,
                ) >= bound by {
                let x = choose|x: int| 0 <= x < cur.len() && cur[x] == k;
                if x < front.len() {
                    assert(front.contains(k)) by {
                        assert(front[x] == k);
                    }
                } else {
                    assert(self.spec_small_keys()[n - 1] == k);
                }
            }
            assert forall|k: u64|
                (exists|s: int|
                    0 <= s < n && #[trigger] self.spec_small_keys()[s] == k
                        && self.spec_small_keys()[s] != 0 && match_count(
                        ids,
                        self.spec_small_sets()[s]@,
                    ) >= bound) implies #[trigger] cur.contains(k) by {
                let s = choose|s: int|
                    0 <= s < n && #[trigger] self.spec_small_keys()[s] == k
                        && self.spec_small_keys()[s] != 0 && match_count(
                        ids,
                        self.spec_small_sets()[s]@,
                    ) >= bound;
                if s < n - 1 {
                    assert(front.contains(k));
                    let x = choose|x: int| 0 <= x < front.len() && front[x] == k;
                    assert(cur[x] == k);
                } else {
                    assert(cur[cur.len() - 1] == k);
                }
            }
        }
    }

    /// The inline-tier scan prefix repeats no key.
    proof fn lemma_small_matches_no_dup(self, ids: Seq<u8>, bound: int, n: int)
        requires
            self.wf(),
            0 <= n <= self.spec_small_keys().len(),
        ensures
            self.small_matches_upto(ids, bound, n).no_duplicates(),
        decreases n,
    {
        if n > 0 {
            self.lemma_small_matches_no_dup(ids, bound, n - 1);
            self.lemma_small_matches_membership(ids, bound, n - 1);
            self.lemma_bound_keys_distinct();
            let front = self.small_matches_upto(ids, bound, n - 1);
            if self.spec_small_keys()[n - 1] != 0 && match_count(
                ids,
                self.spec_small_sets()[n - 1]@,
            ) >= bound {
                if front.contains(self.spec_small_keys()[n - 1]) {
                    let s = choose|s: int|
                        0 <= s < n - 1 && #[trigger] self.spec_small_keys()[s]
                            == self.spec_small_keys()[n - 1] && self.spec_small_keys()[s] != 0
                            && match_count(ids, self.spec_small_sets()[s]@) >= bound;
                    assert(false);
                }
            }
        }
    }

    /// Membership of the unbounded-tier scan prefix.
    proof fn lemma_big_matches_membership(self, ids: Seq<u8>, bound: int, n: int)
        requires
            self.wf(),
            0 <= n <= self.spec_big().len(),
        ensures
            forall|k: u64|
                #[trigger] self.big_matches_upto(ids, bound, n).contains(k) <==> exists|b: int|
                    0 <= b < n && (#[trigger] self.spec_big()[b]).0 == k && match_count(
                        ids,
                        self.spec_big()[b].1.to_set(),
                    ) >= bound,
        decreases n,
    {
        if n > 0 {
            self.lemma_big_matches_membership(ids, bound, n - 1);
            let cur = self.big_matches_upto(ids, bound, n);
            let front = self.big_matches_upto(ids, bound, n - 1);
            assert forall|k: u64| #[trigger] cur.contains(k) implies exists|b: int|
                0 <= b < n && (#[trigger] self.spec_big()[b]).0 == k && match_count(
                    ids,
                    self.spec_big()[b].1.to_set(),
                ) >= bound by {
                let x = choose|x: int| 0 <= x < cur.len() && cur[x] == k;
                if x < front.len() {
                    assert(front.contains(k)) by {
                        assert(front[x] == k);
                    }
                } else {
                    assert((self.spec_big()[n - 1]).0 == k);
                }
            }
            assert forall|k: u64|
                (exists|b: int|
                    0 <= b < n && (#[trigger] self.spec_big()[b]).0 == k && match_count(
                        ids,
                        self.spec_big()[b].1.to_set(),
                    ) >= bound) implies #[trigger] cur.contains(k) by {
                let b = choose|b: int|
                    0 <= b < n && (#[trigger] self.spec_big()[b]).0 == k && match_count(
                        ids,
                        self.spec_big()[b].1.to_set(),
                    ) >= bound;
                if b < n - 1 {
                    assert(front.contains(k));
                    let x = choose|x: int| 0 <= x < front.len() && front[x] == k;
                    assert(cur[x] == k);
                } else {
                    assert(cur[cur.len() - 1] == k);
                }
            }
        }
    }

    /// The unbounded-tier scan prefix repeats no key.
    proof fn lemma_big_matches_no_dup(self, ids: Seq<u8>, bound: int, n: int)
        requires
            self.wf(),
            0 <= n <= self.spec_big().len(),
        ensures
            self.big_matches_upto(ids, bound, n).no_duplicates(),
        decreases n,
    {
        if n > 0 {
            self.lemma_big_matches_no_dup(ids, bound, n - 1);
            self.lemma_big_matches_membership(ids, bound, n - 1);
            let front = self.big_matches_upto(ids, bound, n - 1);
            if match_count(ids, self.spec_big()[n - 1].1.to_set()) >= bound {
                if front.contains(self.spec_big()[n - 1].0) {
                    let b = choose|b: int|
                        0 <= b < n - 1 && (#[trigger] self.spec_big()[b]).0 == self.spec_big()[n
                            - 1].0 && match_count(ids, self.spec_big()[b].1.to_set()) >= bound;
                    assert(false);
                }
            }
        }
    }

    /// The id an interned term resolves to.
    pub open spec fn id_of_term(self, t: Seq<char>) -> u8 {
        (term_position(self.spec_terms(), t) + 1) as u8
    }

    /// The ids a term list resolves to, position by position; meaningful
    /// when every term is interned.
    pub open spec fn resolved_ids(self, ts: Seq<Seq<char>>) -> Seq<u8> {
        Seq::new(ts.len(), |j: int| self.id_of_term(ts[j]))
    }

    /// The message names the first term of the list that is not interned.
    pub open spec fn names_first_unresolved(self, ts: Seq<Seq<char>>, msg: Seq<char>) -> bool {
        exists|j: int|
            0 <= j < ts.len() && !terms_contain(self.spec_terms(), #[trigger] ts[j]) && (forall|
                jj: int,
            |
                0 <= jj < j ==> terms_contain(self.spec_terms(), #[trigger] ts[jj])) && msg
                == "unknown term "@ + ts[j]
    }

    /// Run a vertical query. A term that is not interned fails the whole
    /// query with a message naming it; a `KofN` query fails on the first
    /// such term. `bound == 0` matches every key.
    pub fn vertical_query(&self, query: &Query) -> (r: Result<Vec<Key>, String>)
        requires
            self.wf(),
            SMALLSIZE >= 1,
        ensures
            match r {
                Ok(keys) => match *query {
                    Query::Simple { ref term } => terms_contain(self.spec_terms(), term@)
                        && keys@.map_values(|key: Key| key.spec_get()) == self.vertical_matches(
                        seq![self.id_of_term(term@)],
                        1,
                    ),
                    Query::KofN { ref terms, bound } => (forall|j: int|
                        0 <= j < terms.deep_view().len() ==> terms_contain(
                            self.spec_terms(),
                            #[trigger] terms.deep_view()[j],
                        )) && keys@.map_values(|key: Key| key.spec_get()) == self.vertical_matches(
                        self.resolved_ids(terms.deep_view()),
                        bound as int,
                    ),
                },
                Err(msg) => match *query {
                    Query::Simple { ref term } => !terms_contain(self.spec_terms(), term@) && msg@
                        == "unknown term "@ + term@,
                    Query::KofN { ref terms, bound } => self.names_first_unresolved(
                        terms.deep_view(),
                        msg@,
                    ),
                },
            },
    {
        match query {
            Query::Simple { term } => {
                proof {
                    assert(*query matches Query::Simple { term: t2 } && t2@ == term@);
                }
                match self.get_term_id(term.as_str()) {
                    Some(id) => {
                        proof {
                            assert(terms_contain(self.spec_terms(), term@));
                            assert(id == self.id_of_term(term@));
                            assert(1 <= id as int <= MAX_TERMS);
                        }
                        Ok(self.simple_vertical_query(id))
                    },
                    None => Err("unknown term ".to_owned().concat(term.as_str())),
                }
            },
            Query::KofN { terms, bound } => {
                proof {
                    assert(*query matches Query::KofN { terms: t2, bound: b2 } && t2.deep_view()
                        == terms.deep_view() && b2 == *bound);
                }
                let ghost ts = terms.deep_view();
                let mut ids: Vec<u8> = Vec::new();
                let n = terms.len();
                let mut j: usize = 0;
                while j < n
                    invariant
                        self.wf(),
                        SMALLSIZE >= 1,
                        (*query) matches Query::KofN { terms: t2, bound: b2 } && t2.deep_view()
                            == ts,
                        ts == terms.deep_view(),
                        j <= n,
                        n == ts.len(),
                        forall|jj: int|
                            0 <= jj < j ==> terms_contain(self.spec_terms(), #[trigger] ts[jj]),
                        ids@ == self.resolved_ids(ts).subrange(0, j as int),
                        forall|jj: int| 0 <= jj < ids@.len() ==> slot_live(#[trigger] ids@[jj]),
                    decreases n - j,
                {
                    proof {
                        assert(ts[j as int] == terms@[j as int]@);
                    }
                    match self.get_term_id(terms[j].as_str()) {
                        Some(id) => {
                            proof {
                                assert(id == self.id_of_term(ts[j as int]));
                                assert(1 <= id as int <= MAX_TERMS);
                            }
                            ids.push(id);
                            proof {
                                assert(ids@ =~= self.resolved_ids(ts).subrange(0, j as int + 1));
                            }
                        },
                        None => {
                            let msg = "unknown term ".to_owned().concat(terms[j].as_str());
                            proof {
                                assert(!terms_contain(self.spec_terms(), ts[j as int]));
                                assert(msg@ == "unknown term "@ + ts[j as int]);
                                assert(self.names_first_unresolved(ts, msg@)) by {
                                    assert((j as int) < ts.len() && !terms_contain(
                                        self.spec_terms(),
                                        ts[j as int],
                                    ) && (forall|jj: int|
                                        0 <= jj < j as int ==> terms_contain(
                                            self.spec_terms(),
                                            #[trigger] ts[jj],
                                        )) && msg@ == "unknown term "@ + ts[j as int]);
                                }
                            }
                            return Err(msg);
                        },
                    }
                    j = j + 1;
                }
                proof {
                    assert(ids@ =~= self.resolved_ids(ts));
                }
                Ok(self.k_of_n_query(&ids, *bound))
            },
        }
    }
}

} // verus!
