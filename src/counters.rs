//! The rows of a dynamic list of counters: each row has an id that is never
//! reused, rows are added at the end and removed by id. The ids are the keys
//! that the keyed list reconciler works with.
use vstd::prelude::*;
use crate::keyed::unique;

verus! {

/// `s` without the occurrences of `key` among its first `k` elements.
pub open spec fn without_upto(s: Seq<u64>, key: u64, k: int) -> Seq<u64>
    decreases k,
{
    if k <= 0 {
        Seq::empty()
    } else if s[k - 1] == key {
        without_upto(s, key, k - 1)
    } else {
        without_upto(s, key, k - 1).push(s[k - 1])
    }
}

pub open spec fn without(s: Seq<u64>, key: u64) -> Seq<u64> {
    without_upto(s, key, s.len() as int)
}

proof fn lemma_without_upto(s: Seq<u64>, key: u64, k: int)
    requires
        0 <= k <= s.len(),
        unique(s),
    ensures
        unique(without_upto(s, key, k)),
        forall|x: u64| #[trigger] without_upto(s, key, k).contains(x) ==> x != key && exists|i: int|
            0 <= i < k && s[i] == x,
    decreases k,
{
    if k > 0 {
        lemma_without_upto(s, key, k - 1);
        let prev = without_upto(s, key, k - 1);
        let cur = without_upto(s, key, k);
        if s[k - 1] != key {
            assert(cur == prev.push(s[k - 1]));
            assert forall|x: u64| #[trigger] cur.contains(x) implies x != key && exists|i: int| 0 <= i < k && s[i] == x by {
                let w = choose|w: int| 0 <= w < cur.len() && cur[w] == x;
                if w < prev.len() {
                    assert(prev[w] == x);
                    assert(prev.contains(x));
                } else {
                    assert(s[k - 1] == x);
                }
            }
            assert forall|a: int, b: int| 0 <= a < b < cur.len() implies cur[a] != cur[b] by {
                if b == cur.len() - 1 {
                    assert(prev.contains(cur[a]));
                    let i = choose|i: int| 0 <= i < k - 1 && s[i] == cur[a];
                    assert(s[i] != s[k - 1]);
                } else {
                    assert(cur[a] == prev[a] && cur[b] == prev[b]);
                }
            }
        }
    }
}

/// The ids of the rows, in display order, and the next id to hand out.
pub struct CounterList {
    ids: Vec<u64>,
    next_id: u64,
}

impl View for CounterList {
    type V = Seq<u64>;

    closed spec fn view(&self) -> Seq<u64> {
        self.ids@
    }
}

impl CounterList {
    pub closed spec fn next_id_spec(&self) -> nat {
        self.next_id as nat
    }

    /// Ids are unique and below the next id to hand out.
    pub closed spec fn wf(&self) -> bool {
        unique(self.ids@) && forall|i: int| 0 <= i < self.ids@.len() ==> self.ids@[i] < self.next_id
    }

    /// Rows with ids `0..initial_length`.
    pub fn new(initial_length: u64) -> (r: Self)
        ensures
            r.wf(),
            r@ == Seq::new(initial_length as nat, |i: int| i as u64),
            r.next_id_spec() == initial_length,
    {
        let mut ids: Vec<u64> = Vec::new();
        let mut i: u64 = 0;
        while i < initial_length
            invariant
                i <= initial_length,
                ids@ == Seq::new(i as nat, |j: int| j as u64),
            decreases initial_length - i,
        {
            ids.push(i);
            i = i + 1;
            assert(ids@ =~= Seq::new(i as nat, |j: int| j as u64));
        }
        CounterList { ids, next_id: initial_length }
    }

    /// Adds a row at the end under a fresh id and returns it; `None` once
    /// the ids are used up.
    pub fn add(&mut self) -> (r: Option<u64>)
        requires
            old(self).wf(),
        ensures
            final(self).wf(),
            match r {
                Some(id) => id as nat == old(self).next_id_spec() && !old(self)@.contains(id) && final(self)@
                    == old(self)@.push(id) && final(self).next_id_spec() == id + 1,
                None => old(self).next_id_spec() == u64::MAX && final(self)@ == old(self)@
                    && final(self).next_id_spec() == old(self).next_id_spec(),
            },
    {
        if self.next_id == u64::MAX {
            return None;
        }
        let id = self.next_id;
        proof {
            if self.ids@.contains(id) {
                let i = choose|i: int| 0 <= i < self.ids@.len() && self.ids@[i] == id;
                assert(self.ids@[i] < self.next_id);
            }
        }
        self.ids.push(id);
        self.next_id = id + 1;
        proof {
            let s = self.ids@;
            assert forall|a: int, b: int| 0 <= a < b < s.len() implies s[a] != s[b] by {
                if b == s.len() - 1 {
                    assert(old(self).ids@[a] < id);
                } else {
                    assert(s[a] == old(self).ids@[a] && s[b] == old(self).ids@[b]);
                }
            }
            assert forall|i: int| 0 <= i < s.len() implies s[i] < self.next_id by {
                if i < s.len() - 1 {
                    assert(s[i] == old(self).ids@[i]);
                }
            }
        }
        Some(id)
    }

    /// Removes the row with this id, if there is one.
    pub fn remove(&mut self, id: u64)
        requires
            old(self).wf(),
        ensures
            final(self).wf(),
            final(self)@ == without(old(self)@, id),
            final(self).next_id_spec() == old(self).next_id_spec(),
    {
        let ghost s = self.ids@;
        let mut kept: Vec<u64> = Vec::new();
        let mut i: usize = 0;
        while i < self.ids.len()
            invariant
                self.ids@ == s,
                i <= s.len(),
                kept@ == without_upto(s, id, i as int),
            decreases s.len() - i,
        {
            if self.ids[i] != id {
                kept.push(self.ids[i]);
            }
            i = i + 1;
        }
        proof {
            lemma_without_upto(s, id, s.len() as int);
            assert forall|j: int| 0 <= j < kept@.len() implies kept@[j] < self.next_id by {
                assert(kept@.contains(kept@[j]));
                let w = choose|w: int| 0 <= w < s.len() && s[w] == kept@[j];
            }
        }
        self.ids = kept;
    }

    /// The ids, in display order.
    pub fn ids(&self) -> (r: &Vec<u64>)
        ensures
            r@ == self@,
    {
        &self.ids
    }
}

} // verus!
