//! What a write propagates to, stated over the runtime's model.
use vstd::prelude::*;
use crate::graph::{NodeKind, NodeModel, reach_within, reaches, lemma_reach_step};
use crate::runtime::{
    RuntimeModel, NodeId, well_formed, after_write, after_begin, after_read, after_end, after_pass,
    due_upto, due_effects, is_due,
};

verus! {

proof fn lemma_unreached(nodes: Seq<NodeModel>, a: int, c: usize, e: int, k: nat)
    requires
        0 <= c < nodes.len(),
        0 <= e < nodes.len(),
        a != c,
        a != e,
        nodes[c as int].sources.len() == 0,
        nodes[e].sources == seq![c],
    ensures
        !reach_within(nodes, a, c as int, k),
        !reach_within(nodes, a, e, k),
    decreases k,
{
    if k > 0 {
        let k1 = (k - 1) as nat;
        lemma_unreached(nodes, a, c, e, k1);
        lemma_reach_step(nodes, a, c as int, k1);
        lemma_reach_step(nodes, a, e, k1);
        assert(k1 + 1 == k);
        if reach_within(nodes, a, e, k) {
            let j = choose|j: int|
                0 <= j < nodes[e].sources.len() && #[trigger] reach_within(nodes, a, nodes[e].sources[j] as int, k1);
            assert(nodes[e].sources[j] == c);
        }
    }
}

/// The due list is in registration order, without repeats, and holds exactly
/// the due effects.
pub proof fn lemma_due_list<V>(m: RuntimeModel<V>, k: int)
    requires
        well_formed(m),
        k <= m.nodes.len(),
    ensures
        forall|i: int, j: int|
            0 <= i < j < due_upto(m, k).len() ==> (#[trigger] due_upto(m, k)[i]).index < (#[trigger] due_upto(
                m,
                k,
            )[j]).index,
        forall|i: int|
            0 <= i < due_upto(m, k).len() ==> (#[trigger] due_upto(m, k)[i]).index < k && is_due(
                m,
                due_upto(m, k)[i].index as int,
            ),
        forall|q: int| 0 <= q < k && #[trigger] is_due(m, q) ==> due_upto(m, k).contains(NodeId { index: q as usize }),
    decreases k,
{
    if k > 0 {
        lemma_due_list(m, k - 1);
        let d = due_upto(m, k - 1);
        if is_due(m, k - 1) {
            let top = NodeId { index: (k - 1) as usize };
            assert(due_upto(m, k) == d.push(top));
            assert(top.index == k - 1);
            assert forall|q: int| 0 <= q < k && #[trigger] is_due(m, q) implies due_upto(m, k).contains(
                NodeId { index: q as usize },
            ) by {
                if q == k - 1 {
                    assert(due_upto(m, k)[d.len() as int] == NodeId { index: q as usize });
                } else {
                    let w = choose|w: int| 0 <= w < d.len() && d[w] == NodeId { index: q as usize };
                    assert(due_upto(m, k)[w] == NodeId { index: q as usize });
                }
            }
        } else {
            assert(due_upto(m, k) == d);
        }
    }
}

/// Dependency exactness: once an effect's run has read only the signal `c`,
/// a write to another signal `a` does not make it due, and a write to `c`
/// does.
pub proof fn lemma_exact_dependencies<V>(m: RuntimeModel<V>, e: usize, a: usize, c: usize, va: V, vc: V)
    requires
        well_formed(m),
        e < m.nodes.len(),
        a < m.nodes.len(),
        c < m.nodes.len(),
        a != c,
        m.nodes[e as int].kind == NodeKind::Effect,
        m.nodes[e as int].alive,
        m.nodes[a as int].kind == NodeKind::Signal,
        m.nodes[c as int].kind == NodeKind::Signal,
    ensures
        ({
            let ran = after_end(after_read(after_begin(m, e as int), c as int));
            &&& ran.nodes[e as int].sources == seq![c]
            &&& !is_due(after_write(ran, a as int, va), e as int)
            &&& is_due(after_write(ran, c as int, vc), e as int)
        }),
{
    let begun = after_begin(m, e as int);
    assert(begun.running.last() == e);
    assert(begun.nodes[e as int].sources == Seq::<usize>::empty());
    let ran = after_end(after_read(begun, c as int));
    assert(ran.nodes[e as int].sources =~= seq![c]);
    assert(ran.nodes[c as int] == m.nodes[c as int]);
    assert(ran.nodes[c as int].sources.len() == 0);
    assert(!ran.nodes[e as int].dirty);
    if reaches(ran.nodes, a as int, e as int) {
        let k = choose|k: nat| reach_within(ran.nodes, a as int, e as int, k);
        lemma_unreached(ran.nodes, a as int, c, e as int, k);
    }
    lemma_reach_step(ran.nodes, c as int, e as int, 0);
    assert(ran.nodes[e as int].sources[0] == c);
    assert(reach_within(ran.nodes, c as int, c as int, 0));
    assert(reach_within(ran.nodes, c as int, e as int, 1));
    assert(reaches(ran.nodes, c as int, e as int));
}

/// One flush per write: after a write to `x`, every live effect that read `x`
/// is due, and the due list names each effect once.
pub proof fn lemma_single_flush<V>(m: RuntimeModel<V>, x: usize, v: V, y: usize, z: usize)
    requires
        well_formed(m),
        x < m.nodes.len(),
        m.nodes[x as int].kind == NodeKind::Signal,
        m.nodes[x as int].alive,
        y < m.nodes.len(),
        z < m.nodes.len(),
        m.nodes[y as int].kind == NodeKind::Effect && m.nodes[y as int].alive && m.nodes[y as int].sources.contains(x),
        m.nodes[z as int].kind == NodeKind::Effect && m.nodes[z as int].alive && m.nodes[z as int].sources.contains(x),
    ensures
        ({
            let due = due_effects(after_write(m, x as int, v));
            &&& due.contains(NodeId { index: y })
            &&& due.contains(NodeId { index: z })
            &&& forall|i: int, j: int| 0 <= i < due.len() && 0 <= j < due.len() && due[i] == due[j] ==> i == j
        }),
{
    let w = after_write(m, x as int, v);
    assert(reach_within(m.nodes, x as int, x as int, 0));
    lemma_reach_step(m.nodes, x as int, y as int, 0);
    lemma_reach_step(m.nodes, x as int, z as int, 0);
    let jy = choose|j: int| 0 <= j < m.nodes[y as int].sources.len() && m.nodes[y as int].sources[j] == x;
    let jz = choose|j: int| 0 <= j < m.nodes[z as int].sources.len() && m.nodes[z as int].sources[j] == x;
    assert(reach_within(m.nodes, x as int, m.nodes[y as int].sources[jy] as int, 0));
    assert(reach_within(m.nodes, x as int, m.nodes[z as int].sources[jz] as int, 0));
    assert(reach_within(m.nodes, x as int, y as int, 1));
    assert(reach_within(m.nodes, x as int, z as int, 1));
    assert(reaches(m.nodes, x as int, y as int) && reaches(m.nodes, x as int, z as int));
    assert(is_due(w, y as int) && is_due(w, z as int));
    assert(well_formed(w)) by {
        assert forall|i: int| 0 <= i < w.nodes.len() implies #[trigger] w.nodes[i].kind == m.nodes[i].kind
            && w.nodes[i].scope == m.nodes[i].scope && w.nodes[i].sources == m.nodes[i].sources by {}
        assert forall|i: int|
            0 <= i < w.nodes.len() && #[trigger] w.nodes[i].kind == NodeKind::Memo && !w.nodes[i].dirty implies w.values[i] is Some by {
            assert(!m.nodes[i].dirty);
        }
    }
    lemma_due_list(w, w.nodes.len() as int);
    let due = due_effects(w);
    assert(due.contains(NodeId { index: y as int as usize }));
    assert(due.contains(NodeId { index: z as int as usize }));
    assert forall|i: int, j: int| 0 <= i < due.len() && 0 <= j < due.len() && due[i] == due[j] implies i == j by {
        if i < j {
            assert(due[i].index < due[j].index);
        } else if j < i {
            assert(due[j].index < due[i].index);
        }
    }
}

/// Memos are pulled, never pushed: a write and the pass after it leave every
/// memo's cached value as it was, only marking invalid the memos that depend
/// on the signal, and no memo is ever in a due list.
pub proof fn lemma_memos_stay_lazy<V>(m: RuntimeModel<V>, s: usize, v: V, memo: usize)
    requires
        well_formed(m),
        s < m.nodes.len(),
        m.nodes[s as int].kind == NodeKind::Signal,
        memo < m.nodes.len(),
        m.nodes[memo as int].kind == NodeKind::Memo,
    ensures
        ({
            let w = after_write(m, s as int, v);
            &&& w.values[memo as int] == m.values[memo as int]
            &&& after_pass(w).values[memo as int] == m.values[memo as int]
            &&& reaches(m.nodes, s as int, memo as int) ==> w.nodes[memo as int].dirty
            &&& !due_effects(w).contains(NodeId { index: memo })
        }),
{
    let w = after_write(m, s as int, v);
    assert(well_formed(w)) by {
        assert forall|i: int| 0 <= i < w.nodes.len() implies #[trigger] w.nodes[i].kind == m.nodes[i].kind
            && w.nodes[i].scope == m.nodes[i].scope && w.nodes[i].sources == m.nodes[i].sources by {}
        assert forall|i: int|
            0 <= i < w.nodes.len() && #[trigger] w.nodes[i].kind == NodeKind::Memo && !w.nodes[i].dirty implies w.values[i] is Some by {
            assert(!m.nodes[i].dirty);
        }
    }
    lemma_due_list(w, w.nodes.len() as int);
    if due_effects(w).contains(NodeId { index: memo }) {
        let i = choose|i: int| 0 <= i < due_effects(w).len() && due_effects(w)[i] == NodeId { index: memo };
        assert(is_due(w, memo as int));
    }
}

} // verus!
