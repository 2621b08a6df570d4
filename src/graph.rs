//! The dependency graph of the runtime, and which nodes a write reaches.
use vstd::prelude::*;

verus! {

/// What a node of the runtime is.
#[derive(Debug, Clone, Copy, PartialEq, Eq, Structural)]
pub enum NodeKind {
    Signal,
    Effect,
    Memo,
}

/// One node as the contracts see it. `sources` lists what the node read
/// during its last run; `dirty` means "needs to run" for an effect and
/// "cache invalid" for a memo.
pub struct NodeModel {
    pub kind: NodeKind,
    pub alive: bool,
    pub scope: nat,
    pub sources: Seq<usize>,
    pub dirty: bool,
    pub version: nat,
}

/// The nodes reachable from `root` along at most `k` edges, where an edge
/// goes from a node to each live node that read it in its last run.
pub open spec fn reached(nodes: Seq<NodeModel>, root: int, k: nat) -> Set<int>
    decreases k,
{
    if k == 0 {
        set![root]
    } else {
        let prev = reached(nodes, root, (k - 1) as nat);
        Set::new(
            |n: int|
                prev.contains(n) || (0 <= n < nodes.len() && nodes[n].alive && exists|j: int|
                    0 <= j < nodes[n].sources.len() && #[trigger] prev.contains(
                        nodes[n].sources[j] as int,
                    )),
        )
    }
}

pub open spec fn reach_within(nodes: Seq<NodeModel>, root: int, n: int, k: nat) -> bool {
    reached(nodes, root, k).contains(n)
}

pub proof fn lemma_reach_step(nodes: Seq<NodeModel>, root: int, n: int, k: nat)
    ensures
        reach_within(nodes, root, n, k + 1) == (reach_within(nodes, root, n, k) || (0 <= n
            < nodes.len() && nodes[n].alive && exists|j: int|
            0 <= j < nodes[n].sources.len() && #[trigger] reach_within(
                nodes,
                root,
                nodes[n].sources[j] as int,
                k,
            ))),
{
    let k1 = (k + 1) as nat;
    assert((k1 - 1) as nat == k);
    let prev = reached(nodes, root, k);
    if 0 <= n < nodes.len() && nodes[n].alive {
        if exists|j: int|
            0 <= j < nodes[n].sources.len() && #[trigger] reach_within(
                nodes,
                root,
                nodes[n].sources[j] as int,
                k,
            ) {
            let j = choose|j: int|
                0 <= j < nodes[n].sources.len() && #[trigger] reach_within(
                    nodes,
                    root,
                    nodes[n].sources[j] as int,
                    k,
                );
            assert(prev.contains(nodes[n].sources[j] as int));
        }
        if exists|j: int|
            0 <= j < nodes[n].sources.len() && #[trigger] prev.contains(nodes[n].sources[j] as int) {
            let j = choose|j: int|
                0 <= j < nodes[n].sources.len() && #[trigger] prev.contains(
                    nodes[n].sources[j] as int,
                );
            assert(reach_within(nodes, root, nodes[n].sources[j] as int, k));
        }
    }
}

/// `n` depends, directly or through memos, on `root`.
pub open spec fn reaches(nodes: Seq<NodeModel>, root: int, n: int) -> bool {
    exists|k: nat| reach_within(nodes, root, n, k)
}

/// Every source of every node is a node.
pub open spec fn sources_in_range(nodes: Seq<NodeModel>) -> bool {
    forall|n: int, j: int|
        0 <= n < nodes.len() && 0 <= j < nodes[n].sources.len() ==> #[trigger] nodes[n].sources[j]
            < nodes.len()
}

pub open spec fn count_true(s: Seq<bool>) -> nat
    decreases s.len(),
{
    if s.len() == 0 {
        0
    } else {
        count_true(s.drop_last()) + if s.last() {
            1nat
        } else {
            0nat
        }
    }
}

proof fn lemma_count_bound(s: Seq<bool>)
    ensures
        count_true(s) <= s.len(),
    decreases s.len(),
{
    if s.len() > 0 {
        lemma_count_bound(s.drop_last());
    }
}

proof fn lemma_count_grows(a: Seq<bool>, b: Seq<bool>, w: int)
    requires
        a.len() == b.len(),
        forall|i: int| 0 <= i < a.len() && #[trigger] a[i] ==> b[i],
        0 <= w < a.len(),
        !a[w],
        b[w],
    ensures
        count_true(a) < count_true(b),
    decreases a.len(),
{
    let n = a.len() - 1;
    if w == n {
        lemma_count_le(a.drop_last(), b.drop_last());
    } else {
        assert forall|i: int| 0 <= i < a.drop_last().len() && #[trigger] a.drop_last()[i] implies b.drop_last()[i] by {
            assert(a[i]);
        }
        lemma_count_grows(a.drop_last(), b.drop_last(), w);
        assert(a[n] ==> b[n]);
    }
}

proof fn lemma_count_le(a: Seq<bool>, b: Seq<bool>)
    requires
        a.len() == b.len(),
        forall|i: int| 0 <= i < a.len() && #[trigger] a[i] ==> b[i],
    ensures
        count_true(a) <= count_true(b),
    decreases a.len(),
{
    if a.len() > 0 {
        let n = a.len() - 1;
        assert forall|i: int| 0 <= i < a.drop_last().len() && #[trigger] a.drop_last()[i] implies b.drop_last()[i] by {
            assert(a[i]);
        }
        lemma_count_le(a.drop_last(), b.drop_last());
        assert(a[n] ==> b[n]);
    }
}

proof fn lemma_reach_outside(nodes: Seq<NodeModel>, root: int, n: int, k: nat)
    requires
        !(0 <= n < nodes.len()),
    ensures
        reach_within(nodes, root, n, k) == (n == root),
    decreases k,
{
    if k > 0 {
        lemma_reach_outside(nodes, root, n, (k - 1) as nat);
        lemma_reach_step(nodes, root, n, (k - 1) as nat);
    }
}

proof fn lemma_reach_mono(nodes: Seq<NodeModel>, root: int, n: int, k: nat, d: nat)
    requires
        reach_within(nodes, root, n, k),
    ensures
        reach_within(nodes, root, n, k + d),
    decreases d,
{
    if d > 0 {
        lemma_reach_mono(nodes, root, n, k, (d - 1) as nat);
        lemma_reach_step(nodes, root, n, (k + d - 1) as nat);
    }
}

/// Once one more step reaches nothing new, no number of steps does.
proof fn lemma_reach_settled(nodes: Seq<NodeModel>, root: int, k: nat, d: nat)
    requires
        0 <= root < nodes.len(),
        forall|n: int|
            0 <= n < nodes.len() ==> reach_within(nodes, root, n, k + 1) == reach_within(
                nodes,
                root,
                n,
                k,
            ),
    ensures
        forall|n: int| reach_within(nodes, root, n, k + d) == reach_within(nodes, root, n, k),
    decreases d,
{
    if d == 0 {
    } else {
        lemma_reach_settled(nodes, root, k, (d - 1) as nat);
        assert forall|n: int| reach_within(nodes, root, n, k + d) == reach_within(nodes, root, n, k) by {
            if 0 <= n < nodes.len() {
                let kd = (k + d - 1) as nat;
                lemma_reach_step(nodes, root, n, kd);
                assert(kd + 1 == k + d);
                lemma_reach_step(nodes, root, n, kd);
                assert(kd + 1 == k + d);
                if reach_within(nodes, root, n, k + d) && !reach_within(nodes, root, n, kd) {
                    let j = choose|j: int|
                        0 <= j < nodes[n].sources.len() && #[trigger] reach_within(
                            nodes,
                            root,
                            nodes[n].sources[j] as int,
                            kd,
                        );
                    let src = nodes[n].sources[j] as int;
                    assert(kd == k + (d - 1) as nat);
                    assert(reach_within(nodes, root, src, k + (d - 1) as nat) == reach_within(nodes, root, src, k));
                    assert(reach_within(nodes, root, src, k));
                    lemma_reach_step(nodes, root, n, k);
                    assert(reach_within(nodes, root, n, k + 1));
                }
                if reach_within(nodes, root, n, k) {
                    lemma_reach_mono(nodes, root, n, k, d);
                }
            } else {
                lemma_reach_outside(nodes, root, n, k + d);
                lemma_reach_outside(nodes, root, n, k);
            }
        }
    }
}

proof fn lemma_reaches_at(nodes: Seq<NodeModel>, root: int, k: nat)
    requires
        0 <= root < nodes.len(),
        forall|n: int|
            0 <= n < nodes.len() ==> reach_within(nodes, root, n, k + 1) == reach_within(
                nodes,
                root,
                n,
                k,
            ),
    ensures
        forall|n: int| reaches(nodes, root, n) == reach_within(nodes, root, n, k),
{
    assert forall|n: int| reaches(nodes, root, n) == reach_within(nodes, root, n, k) by {
        if reaches(nodes, root, n) {
            let k2 = choose|k2: nat| reach_within(nodes, root, n, k2);
            if k2 <= k {
                lemma_reach_mono(nodes, root, n, k2, (k - k2) as nat);
            } else {
                lemma_reach_settled(nodes, root, k, (k2 - k) as nat);
            }
        }
    }
}

/// Whether some source of node `n` is marked.
fn any_source_marked(srcs: &Vec<usize>, marked: &Vec<bool>) -> (r: bool)
    requires
        forall|j: int| 0 <= j < srcs@.len() ==> #[trigger] srcs@[j] < marked@.len(),
    ensures
        r == exists|j: int| 0 <= j < srcs@.len() && #[trigger] marked@[srcs@[j] as int],
{
    let mut j: usize = 0;
    let mut found = false;
    while j < srcs.len() && !found
        invariant
            j <= srcs@.len(),
            forall|j2: int| 0 <= j2 < srcs@.len() ==> #[trigger] srcs@[j2] < marked@.len(),
            found == exists|j2: int| 0 <= j2 < j && #[trigger] marked@[srcs@[j2] as int],
        decreases srcs@.len() - j,
    {
        if marked[srcs[j]] {
            found = true;
        }
        j = j + 1;
    }
    found
}

#[verifier::loop_isolation(false)]
/// Marks every node that depends, directly or through memos, on `root`.
pub fn mark_dependents(
    alive: &Vec<bool>,
    sources: &Vec<Vec<usize>>,
    root: usize,
    Ghost(nodes): Ghost<Seq<NodeModel>>,
) -> (marked: Vec<bool>)
    requires
        root < nodes.len(),
        alive@.len() == nodes.len(),
        sources@.len() == nodes.len(),
        sources_in_range(nodes),
        forall|i: int|
            0 <= i < nodes.len() ==> alive@[i] == #[trigger] nodes[i].alive && sources@[i]@
                == nodes[i].sources,
    ensures
        marked@.len() == nodes.len(),
        forall|n: int| 0 <= n < nodes.len() ==> marked@[n] == reaches(nodes, root as int, n),
{
    let len = alive.len();
    let mut marked: Vec<bool> = Vec::new();
    let mut i: usize = 0;
    while i < len
        invariant
            i <= len,
            len == nodes.len(),
            root < len,
            alive@.len() == nodes.len(),
            sources@.len() == nodes.len(),
            sources_in_range(nodes),
            marked@.len() == i,
            forall|n: int| 0 <= n < i ==> marked@[n] == reach_within(nodes, root as int, n, 0),
        decreases len - i,
    {
        marked.push(i == root);
        i = i + 1;
    }
    let ghost mut k: nat = 0;
    loop
        invariant
            len == nodes.len(),
            alive@.len() == nodes.len(),
            sources@.len() == nodes.len(),
            root < len,
            sources_in_range(nodes),
            marked@.len() == len,
            forall|n: int| 0 <= n < len ==> marked@[n] == reach_within(nodes, root as int, n, k),
        decreases len - count_true(marked@),
    {
        let mut next: Vec<bool> = Vec::new();
        let mut changed = false;
        let mut n: usize = 0;
        while n < len
            invariant
                len == nodes.len(),
                alive@.len() == nodes.len(),
                sources@.len() == nodes.len(),
                sources_in_range(nodes),
                marked@.len() == len,
                forall|m: int| 0 <= m < len ==> marked@[m] == reach_within(nodes, root as int, m, k),
                n <= len,
                next@.len() == n,
                forall|m: int|
                    0 <= m < n ==> next@[m] == reach_within(nodes, root as int, m, k + 1),
                forall|m: int| 0 <= m < n && #[trigger] marked@[m] ==> next@[m],
                changed == exists|m: int| 0 <= m < n && next@[m] && !#[trigger] marked@[m],
            decreases len - n,
        {
            let mut v = marked[n];
            proof {
                lemma_reach_step(nodes, root as int, n as int, k);
                assert(alive@[n as int] == nodes[n as int].alive);
            }
            if !v && alive[n] {
                let srcs = &sources[n];
                proof {
                    assert(alive@[n as int] == nodes[n as int].alive);
                    assert forall|j: int| 0 <= j < srcs@.len() implies #[trigger] srcs@[j] < marked@.len() by {
                        assert(nodes[n as int].sources[j] < nodes.len());
                    }
                }
                v = any_source_marked(srcs, &marked);
                proof {
                    if v {
                        let j = choose|j: int| 0 <= j < srcs@.len() && #[trigger] marked@[srcs@[j] as int];
                        assert(reach_within(nodes, root as int, nodes[n as int].sources[j] as int, k));
                    } else {
                        assert forall|j: int| 0 <= j < nodes[n as int].sources.len() implies !#[trigger] reach_within(
                            nodes,
                            root as int,
                            nodes[n as int].sources[j] as int,
                            k,
                        ) by {
                            assert(marked@[srcs@[j] as int] == reach_within(nodes, root as int, srcs@[j] as int, k));
                        }
                    }
                }
            }
            if v && !marked[n] {
                changed = true;
            }
            next.push(v);
            n = n + 1;
        }
        if !changed {
            proof {
                assert forall|m: int| 0 <= m < nodes.len() implies reach_within(nodes, root as int, m, k + 1)
                    == reach_within(nodes, root as int, m, k) by {
                    assert(next@[m] == marked@[m]);
                }
                lemma_reaches_at(nodes, root as int, k);
            }
            return marked;
        }
        proof {
            let m = choose|m: int| 0 <= m < len && next@[m] && !#[trigger] marked@[m];
            lemma_count_grows(marked@, next@, m);
            lemma_count_bound(next@);
            k = k + 1;
        }
        marked = next;
    }
}

} // verus!
