//! Bidirectional interner table between term strings and term ids.
//!
//! Pairs are kept in insertion order; no two pairs may share a term and no
//! two pairs may share an id, so both lookup directions are functions.

use vstd::prelude::*;

verus! {

/// The mathematical content of a pair list: each term string as a character
/// sequence beside its id.
pub open spec fn pairs_view(s: Seq<(String, u8)>) -> Seq<(Seq<char>, u8)> {
    s.map_values(|p: (String, u8)| (p.0@, p.1))
}

/// A bidirectional map between term strings and byte-sized ids.
pub struct DoubleMap {
    pairs: Vec<(String, u8)>,
}

impl View for DoubleMap {
    type V = Seq<(Seq<char>, u8)>;

    /// The (term, id) pairs in insertion order.
    closed spec fn view(&self) -> Seq<(Seq<char>, u8)> {
        pairs_view(self.pairs@)
    }
}

impl DoubleMap {
    /// No two pairs share a term and no two pairs share an id: both
    /// directions of the map are functions.
    pub open spec fn wf(self) -> bool {
        forall|i: int, j: int|
            0 <= i < self@.len() && 0 <= j < self@.len() && i != j ==> (#[trigger] self@[i]).0 != (
            #[trigger] self@[j]).0 && self@[i].1 != self@[j].1
    }

    /// Whether some pair maps this term.
    pub open spec fn has_term(self, t: Seq<char>) -> bool {
        exists|i: int| 0 <= i < self@.len() && (#[trigger] self@[i]).0 == t
    }

    /// The position of the pair mapping this term.
    pub open spec fn term_index(self, t: Seq<char>) -> int {
        choose|i: int| 0 <= i < self@.len() && (#[trigger] self@[i]).0 == t
    }

    /// The id of a term, when the term is mapped.
    pub open spec fn spec_forward(self, t: Seq<char>) -> Option<u8> {
        if self.has_term(t) {
            Some(self@[self.term_index(t)].1)
        } else {
            None
        }
    }

    /// Whether some pair maps this id.
    pub open spec fn has_id(self, id: u8) -> bool {
        exists|i: int| 0 <= i < self@.len() && (#[trigger] self@[i]).1 == id
    }

    /// The position of the pair mapping this id.
    pub open spec fn id_index(self, id: u8) -> int {
        choose|i: int| 0 <= i < self@.len() && (#[trigger] self@[i]).1 == id
    }

    /// The term of an id, when the id is mapped.
    pub open spec fn spec_backward(self, id: u8) -> Option<Seq<char>> {
        if self.has_id(id) {
            Some(self@[self.id_index(id)].0)
        } else {
            None
        }
    }

    /// An empty map.
    pub fn new() -> (r: Self)
        ensures
            r.wf(),
            r@ == Seq::<(Seq<char>, u8)>::empty(),
    {
        let r = DoubleMap { pairs: Vec::new() };
        proof {
            assert(r@ =~= Seq::<(Seq<char>, u8)>::empty());
        }
        r
    }

    /// Add a pair. The term and the id must both be fresh, which keeps both
    /// lookup directions functions.
    pub fn insert(&mut self, first: String, second: u8)
        requires
            old(self).wf(),
            !old(self).has_term(first@),
            !old(self).has_id(second),
        ensures
            final(self).wf(),
            final(self)@ == old(self)@.push((first@, second)),
    {
        let ghost pre = self@;
        self.pairs.push((first, second));
        proof {
            assert(self@ =~= pre.push((first@, second)));
            assert forall|i: int, j: int|
                0 <= i < self@.len() && 0 <= j < self@.len() && i != j implies (
            #[trigger] self@[i]).0 != (#[trigger] self@[j]).0 && self@[i].1 != self@[j].1 by {
                if i == self@.len() - 1 {
                    if pre[j].0 == first@ {
                        assert(old(self).has_term(first@));
                    }
                    if pre[j].1 == second {
                        assert(old(self).has_id(second));
                    }
                } else if j == self@.len() - 1 {
                    if pre[i].0 == first@ {
                        assert(old(self).has_term(first@));
                    }
                    if pre[i].1 == second {
                        assert(old(self).has_id(second));
                    }
                }
            }
        }
    }

    /// The id mapped to this term, if any.
    pub fn get_forward(&self, key: &str) -> (r: Option<u8>)
        requires
            self.wf(),
        ensures
            r == self.spec_forward(key@),
    {
        let owned = key.to_owned();
        let n = self.pairs.len();
        let mut i: usize = 0;
        while i < n
            invariant
                self.wf(),
                owned@ == key@,
                i <= n,
                n == self@.len(),
                forall|ii: int| 0 <= ii < i ==> (#[trigger] self@[ii]).0 != key@,
            decreases n - i,
        {
            let pair = &self.pairs[i];
            if pair.0 == owned {
                proof {
                    assert(self@[i as int].0 == key@);
                    let j = self.term_index(key@);
                    assert(0 <= j < self@.len() && self@[j].0 == key@);
                    assert(j == i as int);
                }
                return Some(pair.1);
            }
            i = i + 1;
        }
        proof {
            if self.has_term(key@) {
                let j = self.term_index(key@);
                assert(0 <= j < self@.len() && self@[j].0 == key@);
            }
        }
        None
    }

    /// The term mapped to this id, if any.
    pub fn get_backward(&self, key: u8) -> (r: Option<&String>)
        requires
            self.wf(),
        ensures
            match r {
                Some(s) => self.spec_backward(key) == Some(s@),
                None => self.spec_backward(key) is None,
            },
    {
        let n = self.pairs.len();
        let mut i: usize = 0;
        while i < n
            invariant
                self.wf(),
                i <= n,
                n == self@.len(),
                forall|ii: int| 0 <= ii < i ==> (#[trigger] self@[ii]).1 != key,
            decreases n - i,
        {
            let pair = &self.pairs[i];
            if pair.1 == key {
                proof {
                    assert(self@[i as int].1 == key);
                    let j = self.id_index(key);
                    assert(0 <= j < self@.len() && self@[j].1 == key);
                    assert(j == i as int);
                }
                return Some(&pair.0);
            }
            i = i + 1;
        }
        proof {
            if self.has_id(key) {
                let j = self.id_index(key);
                assert(0 <= j < self@.len() && self@[j].1 == key);
            }
        }
        None
    }

    /// Every term, in insertion (id) order.
    pub fn lefts(&self) -> (r: Vec<String>)
        ensures
            r.deep_view() == self@.map_values(|p: (Seq<char>, u8)| p.0),
    {
        let ghost goal = self@.map_values(|p: (Seq<char>, u8)| p.0);
        let mut out: Vec<String> = Vec::new();
        let n = self.pairs.len();
        let mut i: usize = 0;
        while i < n
            invariant
                goal == self@.map_values(|p: (Seq<char>, u8)| p.0),
                i <= n,
                n == self@.len(),
                n == self.pairs@.len(),
                self@ == pairs_view(self.pairs@),
                out@.len() == i,
                forall|ii: int| 0 <= ii < i ==> (#[trigger] out@[ii])@ == goal[ii],
            decreases n - i,
        {
            let pair = &self.pairs[i];
            let copied = pair.0.clone();
            proof {
                assert(copied@ == self.pairs@[i as int].0@);
                assert(self@[i as int].0 == self.pairs@[i as int].0@);
                assert(goal[i as int] == self@[i as int].0);
            }
            out.push(copied);
            i = i + 1;
        }
        proof {
            let dv = out.deep_view();
            assert forall|ii: int| 0 <= ii < n implies dv[ii] == goal[ii] by {
                assert(dv[ii] == out@[ii].deep_view());
                assert(out@[ii]@ == goal[ii]);
            }
            assert(dv =~= goal);
        }
        out
    }

    /// Number of pairs.
    pub fn len(&self) -> (r: usize)
        ensures
            r == self@.len(),
    {
        self.pairs.len()
    }

    /// Adopt an existing pair list, refusing one in which two terms share an
    /// id or two ids share a term: such a list is not a bidirectional map.
    pub fn from_entries(entries: Vec<(String, u8)>) -> (r: Result<Self, ()>)
        ensures
            match r {
                Ok(m) => m@ == pairs_view(entries@) && m.wf(),
                Err(()) => !(forall|i: int, j: int|
                    0 <= i < entries@.len() && 0 <= j < entries@.len() && i != j ==> (
                    #[trigger] pairs_view(entries@)[i]).0 != (#[trigger] pairs_view(
                        entries@,
                    )[j]).0 && pairs_view(entries@)[i].1 != pairs_view(entries@)[j].1),
            },
    {
        let ghost pv = pairs_view(entries@);
        let n = entries.len();
        let mut i: usize = 0;
        while i < n
            invariant
                i <= n,
                n == entries@.len(),
                pv == pairs_view(entries@),
                forall|ii: int, jj: int|
                    0 <= ii < i && 0 <= jj < ii ==> (#[trigger] pv[ii]).0 != (#[trigger] pv[jj]).0
                        && pv[ii].1 != pv[jj].1,
            decreases n - i,
        {
            let mut j: usize = 0;
            while j < i
                invariant
                    j <= i < n,
                    n == entries@.len(),
                    pv == pairs_view(entries@),
                    forall|jj: int|
                        0 <= jj < j ==> (#[trigger] pv[jj]).0 != pv[i as int].0 && pv[jj].1 != pv[
                            i as int
                        ].1,
                decreases i - j,
            {
                let a = &entries[i];
                let b = &entries[j];
                if a.0 == b.0 || a.1 == b.1 {
                    proof {
                        assert(pv[i as int].0 == pv[j as int].0 || pv[i as int].1 == pv[
                            j as int
                        ].1);
                    }
                    return Err(());
                }
                j = j + 1;
            }
            i = i + 1;
        }
        let r = DoubleMap { pairs: entries };
        proof {
            assert forall|i2: int, j2: int|
                0 <= i2 < r@.len() && 0 <= j2 < r@.len() && i2 != j2 implies (
            #[trigger] r@[i2]).0 != (#[trigger] r@[j2]).0 && r@[i2].1 != r@[j2].1 by {
                if i2 > j2 {
                    assert((pv[i2]).0 != (pv[j2]).0 && pv[i2].1 != pv[j2].1);
                } else {
                    assert((pv[j2]).0 != (pv[i2]).0 && pv[j2].1 != pv[i2].1);
                }
            }
        }
        Ok(r)
    }
}

} // verus!
