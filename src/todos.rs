//! A list of tasks, each done or not.
use vstd::prelude::*;

verus! {

#[derive(Debug, Clone, Copy, PartialEq, Eq, Structural)]
pub struct Todo {
    pub completed: bool,
}

#[derive(Debug, Clone)]
pub struct Todos(Vec<Todo>);

/// How many of the flags are `false`.
pub open spec fn count_open(s: Seq<bool>) -> nat
    decreases s.len(),
{
    if s.len() == 0 {
        0
    } else {
        count_open(s.drop_last()) + if s.last() {
            0nat
        } else {
            1nat
        }
    }
}

proof fn lemma_count_open_bound(s: Seq<bool>)
    ensures
        count_open(s) <= s.len(),
    decreases s.len(),
{
    if s.len() > 0 {
        lemma_count_open_bound(s.drop_last());
    }
}

impl View for Todos {
    type V = Seq<bool>;

    closed spec fn view(&self) -> Seq<bool> {
        self.0@.map_values(|t: Todo| t.completed)
    }
}

impl Todos {
    /// One task per flag, done where the flag is `true`.
    pub fn new(v: Vec<bool>) -> (r: Self)
        ensures
            r@ == v@,
    {
        let mut items: Vec<Todo> = Vec::new();
        let mut i: usize = 0;
        while i < v.len()
            invariant
                i <= v@.len(),
                items@.len() == i,
                forall|j: int| 0 <= j < i ==> (#[trigger] items@[j]).completed == v@[j],
            decreases v@.len() - i,
        {
            items.push(Todo { completed: v[i] });
            i = i + 1;
        }
        let r = Todos(items);
        assert(r@ =~= v@);
        r
    }

    /// Adds a task at the end.
    pub fn push(&mut self, completed: bool)
        ensures
            final(self)@ == old(self)@.push(completed),
    {
        self.0.push(Todo { completed });
        assert(self@ =~= old(self)@.push(completed));
    }

    /// How many tasks are not done yet.
    pub fn num_remaining(&self) -> (r: usize)
        ensures
            r == count_open(self@),
    {
        let mut n: usize = 0;
        let mut i: usize = 0;
        while i < self.0.len()
            invariant
                i <= self@.len(),
                self@.len() == self.0@.len(),
                n == count_open(self@.subrange(0, i as int)),
            decreases self@.len() - i,
        {
            proof {
                assert(self@.subrange(0, i as int + 1).drop_last() =~= self@.subrange(0, i as int));
                lemma_count_open_bound(self@.subrange(0, i as int));
            }
            if !self.0[i].completed {
                n = n + 1;
            }
            i = i + 1;
        }
        assert(self@.subrange(0, self@.len() as int) =~= self@);
        n
    }
}

} // verus!
