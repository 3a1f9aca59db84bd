//! The engine's cross-cutting laws, each stated and proved over the
//! mathematical views that the operations' contracts use.

use vstd::prelude::*;

use crate::query::{resolve_id, resolve_list};
use crate::smallset::Smallset;
use crate::storage::{
    assoc_index, id_list_below, interned_id, intern_ok, set_ids_below, term_position,
    terms_after_intern, terms_contain, Database, IndexLocation, MAX_TERMS,
};

verus! {

/// Interning is idempotent per distinct term and monotonic: a term already
/// interned keeps its id and leaves the list unchanged, a fresh term gets
/// the next sequential id, and interning the same term again afterwards
/// changes nothing.
pub proof fn law_intern_idempotent(terms: Seq<Seq<char>>, t: Seq<char>)
    requires
        forall|i: int, j: int|
            0 <= i < terms.len() && 0 <= j < terms.len() && i != j ==> #[trigger] terms[i]
                != #[trigger] terms[j],
    ensures
        terms_contain(terms_after_intern(terms, t), t),
        interned_id(terms_after_intern(terms, t), t) == interned_id(terms, t),
        terms_after_intern(terms_after_intern(terms, t), t) == terms_after_intern(terms, t),
        !terms_contain(terms, t) ==> interned_id(terms, t) == terms.len() + 1,
{
    let after = terms_after_intern(terms, t);
    if terms_contain(terms, t) {
        let p = term_position(terms, t);
        assert(0 <= p < terms.len() && terms[p] == t);
    } else {
        assert(after == terms.push(t));
        assert(after[terms.len() as int] == t);
        assert(terms_contain(after, t));
        let p = term_position(after, t);
        assert(0 <= p < after.len() && after[p] == t);
        assert(p == terms.len()) by {
            if p < terms.len() {
                assert(terms[p] == t);
                assert(terms_contain(terms, t));
            }
        }
    }
}

/// After attaching a term to a key, a horizontal query of that key includes
/// the term; attaching the same term to the same key again reports "already
/// present" and leaves the key's set unchanged.
pub proof fn law_set_flag_queries<const SMALLSIZE: usize>(
    pre: Database<SMALLSIZE>,
    mid: Database<SMALLSIZE>,
    post: Database<SMALLSIZE>,
    k: u64,
    t: Seq<char>,
    newly: bool,
    newly2: bool,
)
    requires
        pre.wf(),
        mid.wf(),
        post.wf(),
        intern_ok(pre.spec_terms(), t),
        Database::set_flag_post(pre, mid, k, t, newly),
        Database::set_flag_post(mid, post, k, t, newly2),
    ensures
        mid.known(k),
        resolve_list(mid.spec_terms(), mid.key_id_list(k)).contains(t),
        newly2 == false,
        post.ids_of(k) == mid.ids_of(k),
{
    pre.lemma_terms_distinct();
    mid.lemma_terms_distinct();
    let id0 = interned_id(pre.spec_terms(), t);
    let id = id0 as u8;
    if terms_contain(pre.spec_terms(), t) {
        let p = term_position(pre.spec_terms(), t);
        assert(0 <= p < pre.spec_terms().len() && pre.spec_terms()[p] == t);
        assert(id0 == p + 1);
        assert(mid.spec_terms() == pre.spec_terms());
    } else {
        assert(mid.spec_terms() == pre.spec_terms().push(t));
        assert(id0 == pre.spec_terms().len() + 1);
    }
    assert(1 <= id0 <= MAX_TERMS);
    assert(id as int == id0);
    assert(mid.spec_terms()[id0 - 1] == t);
    assert(resolve_id(mid.spec_terms(), id) == Some(t));
    assert(mid.known(k));
    assert(mid.ids_of(k).contains(id));
    mid.lemma_key_id_list(k);
    Database::<SMALLSIZE>::lemma_resolve_list_membership(mid.spec_terms(), mid.key_id_list(k));
    assert(mid.key_id_list(k).contains(id));
    let j = choose|j: int| 0 <= j < mid.key_id_list(k).len() && mid.key_id_list(k)[j] == id;
    assert(resolve_id(mid.spec_terms(), mid.key_id_list(k)[j]) == Some(t));
    assert(resolve_list(mid.spec_terms(), mid.key_id_list(k)).contains(t));
    // The second attachment interns the same id and adds nothing.
    assert(terms_contain(mid.spec_terms(), t)) by {
        assert(mid.spec_terms()[id0 - 1] == t);
    }
    let p2 = term_position(mid.spec_terms(), t);
    assert(0 <= p2 < mid.spec_terms().len() && mid.spec_terms()[p2] == t);
    assert(p2 == id0 - 1) by {
        if p2 != id0 - 1 {
            assert(mid.spec_terms()[p2] != mid.spec_terms()[id0 - 1]);
        }
    }
    assert(interned_id(mid.spec_terms(), t) == id0);
    assert(newly2 == !mid.ids_of(k).contains(id));
    assert(post.ids_of(k) =~= mid.ids_of(k));
}

/// A value just inserted into an inline set is found by lookup; removing it
/// makes lookup miss exactly it; and the size an inline set reports is the
/// cardinality of the set of values it stores, which never exceeds the
/// capacity.
pub proof fn law_smallset_round_trip<const SIZE: usize>(s: Smallset<SIZE>, v: u8, w: u8)
    requires
        s.wf(),
    ensures
        s@.insert(v).contains(v),
        !s@.insert(v).remove(v).contains(v),
        w != v ==> (s@.insert(v).remove(v).contains(w) <==> s@.contains(w)),
        s.spec_size() == s@.len(),
        s.spec_size() <= SIZE,
{
    s.lemma_size_is_cardinality();
}

/// A key holding more distinct term ids than an inline set can store must
/// live in the unbounded tier: the inline tier physically cannot hold it.
pub proof fn law_overflow_forces_big<const SMALLSIZE: usize>(db: Database<SMALLSIZE>, k: u64)
    requires
        db.wf(),
        db.known(k),
        db.ids_of(k).len() > SMALLSIZE,
    ensures
        db.loc_of(k) is Big,
{
    db.lemma_loc_facts(k);
    match db.loc_of(k) {
        IndexLocation::Small(s) => {
            db.spec_small_sets()[s as int].lemma_size_is_cardinality();
            assert(db.ids_of(k) == db.spec_small_sets()[s as int]@);
            assert(false);
        },
        IndexLocation::Big => {},
    }
}

/// Attaching a term the engine has never seen reports it as new for every
/// key: the fresh term's id is one past every id a stored set can hold, so
/// the attachment is never "already present" — and it never fails for lack
/// of storage either, whatever the key's tier.
pub proof fn law_fresh_term_is_new<const SMALLSIZE: usize>(
    pre: Database<SMALLSIZE>,
    post: Database<SMALLSIZE>,
    k: u64,
    t: Seq<char>,
    newly: bool,
)
    requires
        pre.wf(),
        !terms_contain(pre.spec_terms(), t),
        intern_ok(pre.spec_terms(), t),
        Database::set_flag_post(pre, post, k, t, newly),
    ensures
        newly,
{
    let id0 = interned_id(pre.spec_terms(), t);
    let id = id0 as u8;
    assert(id0 == pre.spec_terms().len() + 1);
    assert(pre.spec_terms().len() < MAX_TERMS);
    assert(id as int == id0);
    if pre.known(k) {
        pre.lemma_loc_facts(k);
        if pre.ids_of(k).contains(id) {
            match pre.loc_of(k) {
                IndexLocation::Small(s) => {
                    assert(set_ids_below(
                        pre.spec_small_sets()[s as int]@,
                        pre.spec_term_pairs().len() as int,
                    ));
                    assert(pre.ids_of(k) == pre.spec_small_sets()[s as int]@);
                    assert(id as int <= pre.spec_term_pairs().len());
                    assert(false);
                },
                IndexLocation::Big => {
                    let b = assoc_index(pre.spec_big(), k);
                    assert(0 <= b < pre.spec_big().len() && pre.spec_big()[b].0 == k);
                    let list = pre.spec_big()[b].1;
                    assert(pre.ids_of(k) == list.to_set());
                    assert(list.contains(id));
                    let m = choose|m: int| 0 <= m < list.len() && list[m] == id;
                    assert(id_list_below(list, pre.spec_term_pairs().len() as int));
                    assert(list[m] as int <= pre.spec_term_pairs().len());
                    assert(false);
                },
            }
        }
    }
}

/// Query-equivalent states answer every query alike: the same keys are
/// known, a horizontal query of any known key lists the same terms, and a
/// vertical query over any id list and bound matches the same keys.
pub proof fn law_equivalent_states_answer_alike<const SMALLSIZE: usize>(
    a: Database<SMALLSIZE>,
    b: Database<SMALLSIZE>,
    k: u64,
    ids: Seq<u8>,
    bound: int,
)
    requires
        a.wf(),
        b.wf(),
        Database::state_equiv(a, b),
    ensures
        a.known(k) <==> b.known(k),
        a.known(k) ==> (forall|t: Seq<char>|
            #[trigger] resolve_list(a.spec_terms(), a.key_id_list(k)).contains(t) <==> resolve_list(
                b.spec_terms(),
                b.key_id_list(k),
            ).contains(t)),
        forall|k2: u64|
            #[trigger] a.vertical_matches(ids, bound).contains(k2) <==> b.vertical_matches(
                ids,
                bound,
            ).contains(k2),
{
    a.lemma_vertical_membership(ids, bound);
    b.lemma_vertical_membership(ids, bound);
    assert forall|k2: u64| #[trigger] a.vertical_matches(ids, bound).contains(k2)
        <==> b.vertical_matches(ids, bound).contains(k2) by {
        if a.known(k2) {
            assert(a.ids_of(k2) == b.ids_of(k2));
        }
    }
    if a.known(k) {
        a.lemma_key_id_list(k);
        b.lemma_key_id_list(k);
        Database::<SMALLSIZE>::lemma_resolve_list_membership(a.spec_terms(), a.key_id_list(k));
        Database::<SMALLSIZE>::lemma_resolve_list_membership(b.spec_terms(), b.key_id_list(k));
        assert(b.known(k));
        assert(a.ids_of(k) == b.ids_of(k));
        assert forall|t: Seq<char>|
            #[trigger] resolve_list(a.spec_terms(), a.key_id_list(k)).contains(t)
                <==> resolve_list(b.spec_terms(), b.key_id_list(k)).contains(t) by {
            if resolve_list(a.spec_terms(), a.key_id_list(k)).contains(t) {
                let j = choose|j: int|
                    0 <= j < a.key_id_list(k).len() && resolve_id(
                        a.spec_terms(),
                        #[trigger] a.key_id_list(k)[j],
                    ) == Some(t);
                let id = a.key_id_list(k)[j];
                assert(a.key_id_list(k).contains(id));
                assert(b.ids_of(k).contains(id));
                assert(b.key_id_list(k).contains(id));
                let j2 = choose|j2: int|
                    0 <= j2 < b.key_id_list(k).len() && b.key_id_list(k)[j2] == id;
                assert(resolve_id(b.spec_terms(), b.key_id_list(k)[j2]) == Some(t));
            }
            if resolve_list(b.spec_terms(), b.key_id_list(k)).contains(t) {
                let j = choose|j: int|
                    0 <= j < b.key_id_list(k).len() && resolve_id(
                        b.spec_terms(),
                        #[trigger] b.key_id_list(k)[j],
                    ) == Some(t);
                let id = b.key_id_list(k)[j];
                assert(b.key_id_list(k).contains(id));
                assert(a.ids_of(k).contains(id));
                assert(a.key_id_list(k).contains(id));
                let j2 = choose|j2: int|
                    0 <= j2 < a.key_id_list(k).len() && a.key_id_list(k)[j2] == id;
                assert(resolve_id(a.spec_terms(), a.key_id_list(k)[j2]) == Some(t));
            }
        }
    }
}

} // verus!
