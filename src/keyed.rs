//! The keyed list reconciler: from the keys of the previous and the next
//! version of a list, which entries to tear down, which to build, and which
//! to move. Entries whose key persists are kept, never rebuilt.
use vstd::prelude::*;

verus! {

/// A new entry to build with the view builder, at position `at` of the new list.
#[derive(Debug, Clone, Copy, PartialEq, Eq, Structural)]
pub struct Insert {
    pub key: u64,
    pub at: usize,
}

/// A kept entry that changes position.
#[derive(Debug, Clone, Copy, PartialEq, Eq, Structural)]
pub struct Move {
    pub key: u64,
    pub from: usize,
    pub to: usize,
}

/// The instructions that turn the old list into the new one.
pub struct ListDiff {
    /// Keys to tear down, in their old order.
    pub removed: Vec<u64>,
    /// Entries to build, in their new order.
    pub added: Vec<Insert>,
    /// Kept entries whose position changes, in their new order.
    pub moved: Vec<Move>,
}

/// Why a list update was refused.
#[derive(Debug, Clone, Copy, PartialEq, Eq, Structural)]
pub enum KeyError {
    /// A key occurs twice in one version of the list.
    DuplicateKey,
    /// The number of freshly built entries is not the number of new keys.
    BuildCountMismatch,
}

pub open spec fn unique(s: Seq<u64>) -> bool {
    forall|i: int, j: int| 0 <= i < j < s.len() ==> s[i] != s[j]
}

/// Where `key` stands in `s`.
pub open spec fn position(s: Seq<u64>, key: u64) -> int {
    choose|i: int| 0 <= i < s.len() && s[i] == key
}

/// The keys among the first `k` old keys that the new list drops.
pub open spec fn removed_upto(old: Seq<u64>, new: Seq<u64>, k: int) -> Seq<u64>
    decreases k,
{
    if k <= 0 {
        Seq::empty()
    } else if new.contains(old[k - 1]) {
        removed_upto(old, new, k - 1)
    } else {
        removed_upto(old, new, k - 1).push(old[k - 1])
    }
}

/// The entries among the first `k` new keys that the old list lacks.
pub open spec fn added_upto(old: Seq<u64>, new: Seq<u64>, k: int) -> Seq<Insert>
    decreases k,
{
    if k <= 0 {
        Seq::empty()
    } else if old.contains(new[k - 1]) {
        added_upto(old, new, k - 1)
    } else {
        added_upto(old, new, k - 1).push(Insert { key: new[k - 1], at: (k - 1) as usize })
    }
}

/// The kept entries among the first `k` new keys whose position changed.
pub open spec fn moved_upto(old: Seq<u64>, new: Seq<u64>, k: int) -> Seq<Move>
    decreases k,
{
    if k <= 0 {
        Seq::empty()
    } else if old.contains(new[k - 1]) && position(old, new[k - 1]) != k - 1 {
        moved_upto(old, new, k - 1).push(
            Move { key: new[k - 1], from: position(old, new[k - 1]) as usize, to: (k - 1) as usize },
        )
    } else {
        moved_upto(old, new, k - 1)
    }
}

fn has_duplicate(s: &Vec<u64>) -> (r: bool)
    ensures
        r == !unique(s@),
{
    let mut i: usize = 0;
    while i < s.len()
        invariant
            i <= s@.len(),
            forall|a: int, b: int| 0 <= a < b < s@.len() && a < i ==> s@[a] != s@[b],
        decreases s@.len() - i,
    {
        let mut j: usize = i + 1;
        while j < s.len()
            invariant
                i < s@.len(),
                i + 1 <= j <= s@.len(),
                forall|a: int, b: int| 0 <= a < b < s@.len() && a < i ==> s@[a] != s@[b],
                forall|b: int| i < b < j ==> s@[i as int] != s@[b],
            decreases s@.len() - j,
        {
            if s[i] == s[j] {
                return true;
            }
            j = j + 1;
        }
        i = i + 1;
    }
    false
}

fn find_key(s: &Vec<u64>, key: u64) -> (r: Option<usize>)
    ensures
        match r {
            Some(i) => i < s@.len() && s@[i as int] == key,
            None => !s@.contains(key),
        },
{
    let mut i: usize = 0;
    while i < s.len()
        invariant
            i <= s@.len(),
            forall|j: int| 0 <= j < i ==> s@[j] != key,
        decreases s@.len() - i,
    {
        if s[i] == key {
            return Some(i);
        }
        i = i + 1;
    }
    None
}

/// Compares two versions of a keyed list. Fails when a key occurs twice in
/// either version.
pub fn reconcile(old: &Vec<u64>, new: &Vec<u64>) -> (r: Result<ListDiff, KeyError>)
    ensures
        match r {
            Ok(d) => unique(old@) && unique(new@) && d.removed@ == removed_upto(old@, new@, old@.len() as int)
                && d.added@ == added_upto(old@, new@, new@.len() as int) && d.moved@ == moved_upto(
                old@,
                new@,
                new@.len() as int,
            ),
            Err(e) => !(unique(old@) && unique(new@)) && e == KeyError::DuplicateKey,
        },
{
    if has_duplicate(old) || has_duplicate(new) {
        return Err(KeyError::DuplicateKey);
    }
    let mut added: Vec<Insert> = Vec::new();
    let mut moved: Vec<Move> = Vec::new();
    let mut j: usize = 0;
    while j < new.len()
        invariant
            unique(old@),
            j <= new@.len(),
            added@ == added_upto(old@, new@, j as int),
            moved@ == moved_upto(old@, new@, j as int),
        decreases new@.len() - j,
    {
        let key = new[j];
        match find_key(old, key) {
            Some(i) => {
                proof {
                    assert(old@.contains(key));
                    let p = position(old@, key);
                    if p != i as int {
                        if p < i as int {
                            assert(old@[p] != old@[i as int]);
                        } else {
                            assert(old@[i as int] != old@[p]);
                        }
                    }
                }
                if i != j {
                    moved.push(Move { key, from: i, to: j });
                }
            },
            None => {
                added.push(Insert { key, at: j });
            },
        }
        j = j + 1;
    }
    let mut removed: Vec<u64> = Vec::new();
    let mut i: usize = 0;
    while i < old.len()
        invariant
            i <= old@.len(),
            removed@ == removed_upto(old@, new@, i as int),
        decreases old@.len() - i,
    {
        let key = old[i];
        match find_key(new, key) {
            Some(_) => {},
            None => {
                removed.push(key);
            },
        }
        i = i + 1;
    }
    Ok(ListDiff { removed, added, moved })
}

/// The entries of a keyed list: a key and its per-entry state (for instance
/// the handle of the row's own signal), in display order.
pub struct KeyedEntries<S> {
    keys: Vec<u64>,
    states: Vec<S>,
}

impl<S: Copy> KeyedEntries<S> {
    pub closed spec fn keys_spec(&self) -> Seq<u64> {
        self.keys@
    }

    pub closed spec fn states_spec(&self) -> Seq<S> {
        self.states@
    }

    pub closed spec fn wf(&self) -> bool {
        self.keys@.len() == self.states@.len()
    }

    pub fn new() -> (r: Self)
        ensures
            r.wf(),
            r.keys_spec().len() == 0,
    {
        KeyedEntries { keys: Vec::new(), states: Vec::new() }
    }

    /// Moves to the next version of the list. `fresh` holds the states built
    /// for the new keys, in their new order; a kept key keeps its state.
    pub fn apply(&mut self, new: &Vec<u64>, fresh: &Vec<S>) -> (r: Result<ListDiff, KeyError>)
        requires
            old(self).wf(),
        ensures
            final(self).wf(),
            match r {
                Ok(d) => {
                    let old_keys = old(self).keys_spec();
                    &&& unique(old_keys) && unique(new@)
                    &&& d.removed@ == removed_upto(old_keys, new@, old_keys.len() as int)
                    &&& d.added@ == added_upto(old_keys, new@, new@.len() as int)
                    &&& d.moved@ == moved_upto(old_keys, new@, new@.len() as int)
                    &&& fresh@.len() == d.added@.len()
                    &&& final(self).keys_spec() == new@
                    &&& forall|j: int|
                        0 <= j < new@.len() ==> #[trigger] final(self).states_spec()[j] == if old_keys.contains(
                            new@[j],
                        ) {
                            old(self).states_spec()[position(old_keys, new@[j])]
                        } else {
                            fresh@[added_upto(old_keys, new@, j).len() as int]
                        }
                },
                Err(e) => *final(self) == *old(self) && (e == KeyError::DuplicateKey <==> !(unique(
                    old(self).keys_spec(),
                ) && unique(new@))) && (e == KeyError::BuildCountMismatch ==> fresh@.len() != added_upto(
                    old(self).keys_spec(),
                    new@,
                    new@.len() as int,
                ).len()),
            },
    {
        let d = match reconcile(&self.keys, new) {
            Ok(d) => d,
            Err(e) => {
                return Err(e);
            },
        };
        if fresh.len() != d.added.len() {
            return Err(KeyError::BuildCountMismatch);
        }
        let ghost old_keys = self.keys@;
        let flen = fresh.len();
        let mut keys: Vec<u64> = Vec::new();
        let mut states: Vec<S> = Vec::new();
        let mut next: usize = 0;
        let mut j: usize = 0;
        while j < new.len()
            invariant
                self.wf(),
                old_keys == self.keys@,
                unique(old_keys),
                j <= new@.len(),
                fresh@.len() == added_upto(old_keys, new@, new@.len() as int).len(),
                flen == fresh@.len(),
                next == added_upto(old_keys, new@, j as int).len(),
                keys@ == new@.subrange(0, j as int),
                states@.len() == j,
                forall|q: int|
                    0 <= q < j ==> #[trigger] states@[q] == if old_keys.contains(new@[q]) {
                        self.states@[position(old_keys, new@[q])]
                    } else {
                        fresh@[added_upto(old_keys, new@, q).len() as int]
                    },
            decreases new@.len() - j,
        {
            proof {
                lemma_added_grows(old_keys, new@, j as int + 1, new@.len() as int);
            }
            let key = new[j];
            match find_key(&self.keys, key) {
                Some(i) => {
                    proof {
                        assert(old_keys.contains(key));
                        let p = position(old_keys, key);
                        if p != i as int {
                            if p < i as int {
                                assert(old_keys[p] != old_keys[i as int]);
                            } else {
                                assert(old_keys[i as int] != old_keys[p]);
                            }
                        }
                    }
                    states.push(self.states[i]);
                },
                None => {
                    assert(added_upto(old_keys, new@, j as int + 1).len() == next + 1);
                    states.push(fresh[next]);
                    next = next + 1;
                },
            }
            keys.push(key);
            j = j + 1;
            assert(keys@ =~= new@.subrange(0, j as int));
        }
        assert(keys@ =~= new@);
        self.keys = keys;
        self.states = states;
        Ok(d)
    }

    /// The keys, in display order.
    pub fn keys(&self) -> (r: &Vec<u64>)
        ensures
            r@ == self.keys_spec(),
    {
        &self.keys
    }

    /// The state of the entry at position `i`.
    pub fn state(&self, i: usize) -> (r: Option<S>)
        requires
            self.wf(),
        ensures
            match r {
                Some(x) => i < self.states_spec().len() && x == self.states_spec()[i as int],
                None => i >= self.states_spec().len(),
            },
    {
        if i < self.states.len() {
            Some(self.states[i])
        } else {
            None
        }
    }
}

proof fn lemma_added_grows(old: Seq<u64>, new: Seq<u64>, j: int, k: int)
    requires
        0 <= j <= k,
    ensures
        added_upto(old, new, j).len() <= added_upto(old, new, k).len(),
    decreases k - j,
{
    if j < k {
        lemma_added_grows(old, new, j, k - 1);
    }
}

proof fn lemma_nothing_removed(old: Seq<u64>, new: Seq<u64>, k: int)
    requires
        k <= old.len(),
        forall|key: u64| old.contains(key) ==> new.contains(key),
    ensures
        removed_upto(old, new, k) == Seq::<u64>::empty(),
    decreases k,
{
    if k > 0 {
        lemma_nothing_removed(old, new, k - 1);
        assert(old.contains(old[k - 1]));
    }
}

proof fn lemma_nothing_added(old: Seq<u64>, new: Seq<u64>, k: int)
    requires
        k <= new.len(),
        forall|key: u64| new.contains(key) ==> old.contains(key),
    ensures
        added_upto(old, new, k) == Seq::<Insert>::empty(),
    decreases k,
{
    if k > 0 {
        lemma_nothing_added(old, new, k - 1);
        assert(new.contains(new[k - 1]));
    }
}

/// Reordering builds and tears down nothing: when both versions hold the
/// same keys, the diff only moves entries.
pub proof fn lemma_reorder_only_moves(old: Seq<u64>, new: Seq<u64>)
    requires
        forall|key: u64| old.contains(key) <==> new.contains(key),
    ensures
        removed_upto(old, new, old.len() as int) == Seq::<u64>::empty(),
        added_upto(old, new, new.len() as int) == Seq::<Insert>::empty(),
{
    lemma_nothing_removed(old, new, old.len() as int);
    lemma_nothing_added(old, new, new.len() as int);
}

} // verus!
