//! The signal store and effect scheduler: an arena of signals, effects and
//! memos owned by scopes, with the dependency edges that each effect or memo
//! recorded during its last run.
//!
//! The runtime holds no closures. Whoever owns the computations drives it:
//! `begin_run` before running an effect or memo, `read` for every value the
//! computation reads, `end_run` / `end_memo` after it, and `take_pass` after a
//! write to learn which effects are due, in registration order.
use vstd::prelude::*;
use crate::graph::{NodeKind, NodeModel, reaches, sources_in_range, mark_dependents};

verus! {

/// What can go wrong when the runtime is used.
#[derive(Debug, Clone, Copy, PartialEq, Eq, Structural)]
pub enum RuntimeError {
    /// The node or scope was disposed.
    UseAfterDispose,
    /// Writes kept causing writes for more passes than the bound allows.
    PropagationCycle,
    /// The handle names no node of the required kind, or the run being ended
    /// is not the innermost one.
    InvalidHandle,
}

/// A handle on a signal, effect or memo: its index in the arena.
#[derive(Debug, Clone, Copy, PartialEq, Eq, Structural)]
pub struct NodeId {
    pub index: usize,
}

/// A handle on a scope: its index in the scope arena.
#[derive(Debug, Clone, Copy, PartialEq, Eq, Structural)]
pub struct ScopeId {
    pub index: usize,
}

/// One scope as the contracts see it. Scope 0 is the root and its own parent;
/// every other scope has a parent created before it.
pub struct ScopeModel {
    pub parent: nat,
    pub alive: bool,
}

/// A value provided to a scope under a key, for the scopes inside it.
pub struct ContextEntry<V> {
    pub scope: nat,
    pub key: u64,
    pub value: V,
}

/// The runtime as the contracts see it.
pub struct RuntimeModel<V> {
    pub nodes: Seq<NodeModel>,
    pub values: Seq<Option<V>>,
    pub scopes: Seq<ScopeModel>,
    /// The effects and memos now running, innermost last.
    pub running: Seq<usize>,
    /// Passes flushed since the runtime was last quiet.
    pub passes: nat,
    pub max_passes: nat,
    /// Provided context values, oldest first.
    pub contexts: Seq<ContextEntry<V>>,
}

pub open spec fn well_formed<V>(m: RuntimeModel<V>) -> bool {
    &&& m.values.len() == m.nodes.len()
    &&& m.nodes.len() <= usize::MAX
    &&& m.scopes.len() >= 1
    &&& m.scopes[0].parent == 0
    &&& forall|i: int| 0 < i < m.scopes.len() ==> #[trigger] m.scopes[i].parent < i
    &&& forall|i: int| 0 <= i < m.nodes.len() ==> #[trigger] m.nodes[i].scope < m.scopes.len()
    &&& sources_in_range(m.nodes)
    &&& forall|i: int|
        0 <= i < m.nodes.len() && #[trigger] m.nodes[i].kind == NodeKind::Signal ==> m.nodes[i].sources.len() == 0
            && m.values[i] is Some
    &&& forall|i: int|
        0 <= i < m.nodes.len() && #[trigger] m.nodes[i].kind == NodeKind::Memo && !m.nodes[i].dirty
            ==> m.values[i] is Some
    &&& forall|j: int|
        0 <= j < m.running.len() ==> #[trigger] m.running[j] < m.nodes.len() && m.nodes[m.running[j] as int].kind
            != NodeKind::Signal
    &&& m.passes <= m.max_passes
    &&& forall|i: int| 0 <= i < m.contexts.len() ==> #[trigger] m.contexts[i].scope < m.scopes.len()
}

/// Scope `i` is `t` or lies inside it.
pub open spec fn within(scopes: Seq<ScopeModel>, i: int, t: int) -> bool
    decreases i,
{
    if i == t {
        true
    } else if 0 < i < scopes.len() && scopes[i].parent < i {
        within(scopes, scopes[i].parent as int, t)
    } else {
        false
    }
}

pub open spec fn bump(v: nat) -> nat {
    if v >= u64::MAX {
        0
    } else {
        v + 1
    }
}

/// Checks a handle that must name a live node of one of the given kinds.
pub open spec fn check_node<V>(m: RuntimeModel<V>, i: int, signal: bool, tracker: bool) -> Result<(), RuntimeError> {
    if !(0 <= i < m.nodes.len()) {
        Err(RuntimeError::InvalidHandle)
    } else if m.nodes[i].kind == NodeKind::Signal && !signal {
        Err(RuntimeError::InvalidHandle)
    } else if m.nodes[i].kind != NodeKind::Signal && !tracker {
        Err(RuntimeError::InvalidHandle)
    } else if !m.nodes[i].alive {
        Err(RuntimeError::UseAfterDispose)
    } else {
        Ok(())
    }
}

/// Checks a handle that must name a live signal or memo.
pub open spec fn check_readable<V>(m: RuntimeModel<V>, i: int) -> Result<(), RuntimeError> {
    if 0 <= i < m.nodes.len() && m.nodes[i].kind == NodeKind::Effect {
        Err(RuntimeError::InvalidHandle)
    } else {
        check_node(m, i, true, true)
    }
}

pub open spec fn check_scope<V>(m: RuntimeModel<V>, i: int) -> Result<(), RuntimeError> {
    if !(0 <= i < m.scopes.len()) {
        Err(RuntimeError::InvalidHandle)
    } else if !m.scopes[i].alive {
        Err(RuntimeError::UseAfterDispose)
    } else {
        Ok(())
    }
}

/// A fresh runtime: the root scope and no nodes.
pub open spec fn empty_runtime<V>(max_passes: nat) -> RuntimeModel<V> {
    RuntimeModel {
        nodes: Seq::empty(),
        values: Seq::empty(),
        scopes: seq![ScopeModel { parent: 0, alive: true }],
        running: Seq::empty(),
        passes: 0,
        max_passes,
        contexts: Seq::empty(),
    }
}

pub open spec fn after_create_scope<V>(m: RuntimeModel<V>, parent: int) -> RuntimeModel<V> {
    RuntimeModel { scopes: m.scopes.push(ScopeModel { parent: parent as nat, alive: true }), ..m }
}

/// A new node: signals start clean with their value, effects start due and
/// memos start with no cached value.
pub open spec fn after_create<V>(m: RuntimeModel<V>, scope: int, kind: NodeKind, value: Option<V>) -> RuntimeModel<V> {
    RuntimeModel {
        nodes: m.nodes.push(
            NodeModel {
                kind,
                alive: true,
                scope: scope as nat,
                sources: Seq::empty(),
                dirty: kind != NodeKind::Signal,
                version: 0,
            },
        ),
        values: m.values.push(value),
        ..m
    }
}

/// A write replaces the value, bumps the version, and marks every live
/// effect and memo that depends on the signal, directly or through memos.
pub open spec fn after_write<V>(m: RuntimeModel<V>, s: int, v: V) -> RuntimeModel<V> {
    RuntimeModel {
        nodes: Seq::new(
            m.nodes.len(),
            |n: int|
                NodeModel {
                    dirty: m.nodes[n].dirty || (n != s && reaches(m.nodes, s, n)),
                    version: if n == s {
                        bump(m.nodes[n].version)
                    } else {
                        m.nodes[n].version
                    },
                    ..m.nodes[n]
                },
        ),
        values: m.values.update(s, Some(v)),
        ..m
    }
}

/// The effect is live and waits to run.
pub open spec fn is_due<V>(m: RuntimeModel<V>, i: int) -> bool {
    0 <= i < m.nodes.len() && m.nodes[i].kind == NodeKind::Effect && m.nodes[i].alive && m.nodes[i].dirty
}

/// The due effects among the first `k` nodes, in registration order.
pub open spec fn due_upto<V>(m: RuntimeModel<V>, k: int) -> Seq<NodeId>
    decreases k,
{
    if k <= 0 {
        Seq::empty()
    } else if is_due(m, k - 1) {
        due_upto(m, k - 1).push(NodeId { index: (k - 1) as usize })
    } else {
        due_upto(m, k - 1)
    }
}

pub open spec fn due_effects<V>(m: RuntimeModel<V>) -> Seq<NodeId> {
    due_upto(m, m.nodes.len() as int)
}

/// What `take_pass` returns.
pub open spec fn pass_outcome<V>(m: RuntimeModel<V>) -> Result<Seq<NodeId>, RuntimeError> {
    if due_effects(m).len() == 0 {
        Ok(Seq::empty())
    } else if m.passes >= m.max_passes {
        Err(RuntimeError::PropagationCycle)
    } else {
        Ok(due_effects(m))
    }
}

/// The state after `take_pass`: a quiet runtime starts counting again.
pub open spec fn after_pass<V>(m: RuntimeModel<V>) -> RuntimeModel<V> {
    if due_effects(m).len() == 0 {
        RuntimeModel { passes: 0, ..m }
    } else if m.passes >= m.max_passes {
        m
    } else {
        RuntimeModel { passes: m.passes + 1, ..m }
    }
}

/// Starting a run forgets the edges of the last one; an effect is no longer
/// due once it runs.
pub open spec fn after_begin<V>(m: RuntimeModel<V>, n: int) -> RuntimeModel<V> {
    RuntimeModel {
        nodes: m.nodes.update(
            n,
            NodeModel {
                sources: Seq::empty(),
                dirty: if m.nodes[n].kind == NodeKind::Effect {
                    false
                } else {
                    m.nodes[n].dirty
                },
                ..m.nodes[n]
            },
        ),
        running: m.running.push(n as usize),
        ..m
    }
}

/// Checks that `n` is the innermost run and of the given kind.
pub open spec fn check_end<V>(m: RuntimeModel<V>, n: int, kind: NodeKind) -> Result<(), RuntimeError> {
    if m.running.len() == 0 || m.running.last() as int != n || m.nodes[n].kind != kind {
        Err(RuntimeError::InvalidHandle)
    } else {
        Ok(())
    }
}

pub open spec fn after_end<V>(m: RuntimeModel<V>) -> RuntimeModel<V> {
    RuntimeModel { running: m.running.drop_last(), ..m }
}

/// Ending a memo's run caches its value as valid.
pub open spec fn after_end_memo<V>(m: RuntimeModel<V>, n: int, v: V) -> RuntimeModel<V> {
    RuntimeModel {
        nodes: m.nodes.update(n, NodeModel { dirty: false, ..m.nodes[n] }),
        values: m.values.update(n, Some(v)),
        running: m.running.drop_last(),
        ..m
    }
}

/// A read made while an effect or memo runs records an edge from the node
/// read to the innermost run, once.
pub open spec fn after_read<V>(m: RuntimeModel<V>, n: int) -> RuntimeModel<V> {
    if m.running.len() == 0 {
        m
    } else {
        let t = m.running.last() as int;
        if m.nodes[t].sources.contains(n as usize) {
            m
        } else {
            RuntimeModel {
                nodes: m.nodes.update(t, NodeModel { sources: m.nodes[t].sources.push(n as usize), ..m.nodes[t] }),
                ..m
            }
        }
    }
}

/// What a read returns: a signal's value, a memo's cached value while it is
/// valid, and `None` for a memo that must be recomputed first.
pub open spec fn read_value<V>(m: RuntimeModel<V>, n: int) -> Option<V> {
    if m.nodes[n].kind == NodeKind::Memo && m.nodes[n].dirty {
        None
    } else {
        m.values[n]
    }
}

/// Disposing a scope disposes every scope inside it and every node they own:
/// the nodes lose their edges, and as dead nodes are never due again.
pub open spec fn after_dispose<V>(m: RuntimeModel<V>, t: int) -> RuntimeModel<V> {
    RuntimeModel {
        nodes: Seq::new(
            m.nodes.len(),
            |n: int|
                if within(m.scopes, m.nodes[n].scope as int, t) {
                    NodeModel { alive: false, sources: Seq::empty(), ..m.nodes[n] }
                } else {
                    m.nodes[n]
                },
        ),
        scopes: Seq::new(
            m.scopes.len(),
            |i: int|
                ScopeModel { alive: m.scopes[i].alive && !within(m.scopes, i, t), ..m.scopes[i] },
        ),
        ..m
    }
}

proof fn lemma_write_keeps_wf<V>(m: RuntimeModel<V>, s: int, v: V)
    requires
        well_formed(m),
        0 <= s < m.nodes.len(),
        m.nodes[s].kind == NodeKind::Signal,
    ensures
        well_formed(after_write(m, s, v)),
{
    let w = after_write(m, s, v);
    assert forall|i: int| 0 <= i < w.nodes.len() implies #[trigger] w.nodes[i].kind == m.nodes[i].kind
        && w.nodes[i].scope == m.nodes[i].scope && w.nodes[i].sources == m.nodes[i].sources by {}
    assert forall|i: int|
        0 <= i < w.nodes.len() && #[trigger] w.nodes[i].kind == NodeKind::Memo && !w.nodes[i].dirty implies w.values[i] is Some by {
        assert(!m.nodes[i].dirty);
    }
}

proof fn lemma_dispose_keeps_wf<V>(m: RuntimeModel<V>, t: int)
    requires
        well_formed(m),
    ensures
        well_formed(after_dispose(m, t)),
{
    let w = after_dispose(m, t);
    assert forall|i: int| 0 <= i < w.nodes.len() implies #[trigger] w.nodes[i].kind == m.nodes[i].kind
        && w.nodes[i].scope == m.nodes[i].scope && w.nodes[i].dirty == m.nodes[i].dirty
        && (w.nodes[i].sources == m.nodes[i].sources || w.nodes[i].sources.len() == 0) by {}
    assert forall|n: int, j: int|
        0 <= n < w.nodes.len() && 0 <= j < w.nodes[n].sources.len() implies #[trigger] w.nodes[n].sources[j]
        < w.nodes.len() by {
        assert(w.nodes[n].sources == m.nodes[n].sources);
    }
    assert forall|i: int| 0 < i < w.scopes.len() implies #[trigger] w.scopes[i].parent < i by {
        assert(w.scopes[i].parent == m.scopes[i].parent);
    }
}

fn contains_index(v: &Vec<usize>, x: usize) -> (r: bool)
    ensures
        r == v@.contains(x),
{
    let mut i: usize = 0;
    while i < v.len()
        invariant
            i <= v@.len(),
            forall|j: int| 0 <= j < i ==> v@[j] != x,
        decreases v@.len() - i,
    {
        if v[i] == x {
            assert(v@[i as int] == x);
            return true;
        }
        i = i + 1;
    }
    false
}

pub open spec fn after_provide<V>(m: RuntimeModel<V>, scope: int, key: u64, value: V) -> RuntimeModel<V> {
    RuntimeModel { contexts: m.contexts.push(ContextEntry { scope: scope as nat, key, value }), ..m }
}

/// The latest value provided for `key` directly in `scope` among the first
/// `k` entries.
pub open spec fn provided_upto<V>(ctx: Seq<ContextEntry<V>>, scope: int, key: u64, k: int) -> Option<V>
    decreases k,
{
    if k <= 0 {
        None
    } else if ctx[k - 1].scope == scope && ctx[k - 1].key == key {
        Some(ctx[k - 1].value)
    } else {
        provided_upto(ctx, scope, key, k - 1)
    }
}

/// The value for `key` seen from `scope`: provided in the scope itself or,
/// failing that, in the nearest enclosing scope that provides one.
pub open spec fn lookup_context<V>(m: RuntimeModel<V>, scope: int, key: u64) -> Option<V>
    decreases scope,
{
    if !(0 <= scope < m.scopes.len()) {
        None
    } else {
        match provided_upto(m.contexts, scope, key, m.contexts.len() as int) {
            Some(v) => Some(v),
            None => if scope > 0 && m.scopes[scope].parent < scope {
                lookup_context(m, m.scopes[scope].parent as int, key)
            } else {
                None
            },
        }
    }
}

pub open spec fn after_store<V>(m: RuntimeModel<V>, s: int, v: V) -> RuntimeModel<V> {
    RuntimeModel { values: m.values.update(s, Some(v)), ..m }
}

proof fn lemma_store_keeps_wf<V>(m: RuntimeModel<V>, s: int, v: V)
    requires
        well_formed(m),
        0 <= s < m.nodes.len(),
    ensures
        well_formed(after_store(m, s, v)),
{
}

proof fn lemma_write_after_store<V>(m: RuntimeModel<V>, s: int, v: V)
    requires
        well_formed(m),
        0 <= s < m.nodes.len(),
    ensures
        after_write(after_store(m, s, v), s, v) == after_write(m, s, v),
{
    assert(after_write(after_store(m, s, v), s, v).values =~= after_write(m, s, v).values);
    assert(after_write(after_store(m, s, v), s, v).nodes =~= after_write(m, s, v).nodes);
}

proof fn lemma_create_keeps_wf<V>(m: RuntimeModel<V>, scope: int, kind: NodeKind, value: Option<V>)
    requires
        well_formed(m),
        check_scope(m, scope) is Ok,
        m.nodes.len() < usize::MAX,
        kind == NodeKind::Signal ==> value is Some,
    ensures
        well_formed(after_create(m, scope, kind, value)),
{
    let w = after_create(m, scope, kind, value);
    let n = m.nodes.len() as int;
    assert forall|i: int| 0 <= i < n implies #[trigger] w.nodes[i] == m.nodes[i] && w.values[i] == m.values[i] by {}
    assert forall|i: int, j: int|
        0 <= i < w.nodes.len() && 0 <= j < w.nodes[i].sources.len() implies #[trigger] w.nodes[i].sources[j]
        < w.nodes.len() by {
        assert(m.nodes[i].sources[j] < m.nodes.len());
    }
    assert forall|j: int| 0 <= j < w.running.len() implies #[trigger] w.running[j] < w.nodes.len()
        && w.nodes[w.running[j] as int].kind != NodeKind::Signal by {
        assert(m.running[j] < m.nodes.len());
    }
}

proof fn lemma_end_memo_keeps_wf<V>(m: RuntimeModel<V>, n: int, v: V)
    requires
        well_formed(m),
        0 <= n < m.nodes.len(),
        check_end(m, n, NodeKind::Memo) is Ok,
    ensures
        well_formed(after_end_memo(m, n, v)),
{
    let w = after_end_memo(m, n, v);
    assert forall|i: int| 0 <= i < w.nodes.len() implies #[trigger] w.nodes[i].kind == m.nodes[i].kind
        && w.nodes[i].sources == m.nodes[i].sources && w.nodes[i].scope == m.nodes[i].scope by {}
    assert forall|i: int|
        0 <= i < w.nodes.len() && #[trigger] w.nodes[i].kind == NodeKind::Signal implies w.nodes[i].sources.len() == 0
        && w.values[i] is Some by {
        assert(i != n);
    }
    assert forall|j: int| 0 <= j < w.running.len() implies #[trigger] w.running[j] < w.nodes.len()
        && w.nodes[w.running[j] as int].kind != NodeKind::Signal by {
        assert(w.running[j] == m.running[j]);
    }
    assert forall|i: int, j: int|
        0 <= i < w.nodes.len() && 0 <= j < w.nodes[i].sources.len() implies #[trigger] w.nodes[i].sources[j]
        < w.nodes.len() by {
        assert(w.nodes[i].sources == m.nodes[i].sources);
    }
    assert forall|i: int|
        0 <= i < w.nodes.len() && #[trigger] w.nodes[i].kind == NodeKind::Memo && !w.nodes[i].dirty implies w.values[i] is Some by {
        if i != n {
            assert(w.nodes[i] == m.nodes[i]);
        }
    }
    assert forall|i: int| 0 <= i < w.nodes.len() implies #[trigger] w.nodes[i].scope < w.scopes.len() by {
        assert(w.nodes[i].scope == m.nodes[i].scope);
    }
}

/// The reactive runtime; `V` is the type of the values that signals and memos
/// hold.
pub struct Runtime<V> {
    kinds: Vec<NodeKind>,
    alive: Vec<bool>,
    owner: Vec<usize>,
    sources: Vec<Vec<usize>>,
    dirty: Vec<bool>,
    versions: Vec<u64>,
    values: Vec<Option<V>>,
    scope_parent: Vec<usize>,
    scope_alive: Vec<bool>,
    running: Vec<usize>,
    passes: u64,
    max_passes: u64,
    ctx_scope: Vec<usize>,
    ctx_key: Vec<u64>,
    ctx_value: Vec<V>,
}

impl<V> View for Runtime<V> {
    type V = RuntimeModel<V>;

    closed spec fn view(&self) -> RuntimeModel<V> {
        RuntimeModel {
            nodes: Seq::new(
                self.kinds@.len(),
                |i: int|
                    NodeModel {
                        kind: self.kinds@[i],
                        alive: self.alive@[i],
                        scope: self.owner@[i] as nat,
                        sources: self.sources@[i]@,
                        dirty: self.dirty@[i],
                        version: self.versions@[i] as nat,
                    },
            ),
            values: self.values@,
            scopes: Seq::new(
                self.scope_parent@.len(),
                |i: int| ScopeModel { parent: self.scope_parent@[i] as nat, alive: self.scope_alive@[i] },
            ),
            running: self.running@,
            passes: self.passes as nat,
            max_passes: self.max_passes as nat,
            contexts: Seq::new(
                self.ctx_scope@.len(),
                |i: int| ContextEntry { scope: self.ctx_scope@[i] as nat, key: self.ctx_key@[i], value: self.ctx_value@[i] },
            ),
        }
    }
}

impl<V> Runtime<V> {
    pub closed spec fn wf(&self) -> bool {
        &&& self.alive@.len() == self.kinds@.len()
        &&& self.owner@.len() == self.kinds@.len()
        &&& self.sources@.len() == self.kinds@.len()
        &&& self.dirty@.len() == self.kinds@.len()
        &&& self.versions@.len() == self.kinds@.len()
        &&& self.scope_alive@.len() == self.scope_parent@.len()
        &&& self.ctx_key@.len() == self.ctx_scope@.len()
        &&& self.ctx_value@.len() == self.ctx_scope@.len()
        &&& well_formed(self@)
    }

    /// A runtime with only the root scope; `max_passes` bounds how many passes
    /// one propagation may take before it is reported as a cycle.
    pub fn new(max_passes: u64) -> (r: Self)
        ensures
            r.wf(),
            r@ == empty_runtime::<V>(max_passes as nat),
    {
        let mut scope_parent: Vec<usize> = Vec::new();
        scope_parent.push(0);
        let mut scope_alive: Vec<bool> = Vec::new();
        scope_alive.push(true);
        let r = Runtime {
            kinds: Vec::new(),
            alive: Vec::new(),
            owner: Vec::new(),
            sources: Vec::new(),
            dirty: Vec::new(),
            versions: Vec::new(),
            values: Vec::new(),
            scope_parent,
            scope_alive,
            running: Vec::new(),
            passes: 0,
            max_passes,
            ctx_scope: Vec::new(),
            ctx_key: Vec::new(),
            ctx_value: Vec::new(),
        };
        assert(r@.nodes =~= Seq::<NodeModel>::empty());
        assert(r@.scopes =~= seq![ScopeModel { parent: 0, alive: true }]);
        assert(r@.contexts =~= Seq::<ContextEntry<V>>::empty());
        r
    }

    /// The scope that owns everything not created inside another scope.
    pub fn root_scope(&self) -> (r: ScopeId)
        ensures
            r.index == 0,
    {
        ScopeId { index: 0 }
    }

    fn check_node_exec(&self, i: usize, signal: bool, tracker: bool) -> (r: Result<(), RuntimeError>)
        requires
            self.wf(),
        ensures
            r == check_node(self@, i as int, signal, tracker),
    {
        if i >= self.kinds.len() {
            return Err(RuntimeError::InvalidHandle);
        }
        let kind = self.kinds[i];
        if kind == NodeKind::Signal && !signal {
            return Err(RuntimeError::InvalidHandle);
        }
        if kind != NodeKind::Signal && !tracker {
            return Err(RuntimeError::InvalidHandle);
        }
        if !self.alive[i] {
            return Err(RuntimeError::UseAfterDispose);
        }
        Ok(())
    }

    fn check_scope_exec(&self, i: usize) -> (r: Result<(), RuntimeError>)
        requires
            self.wf(),
        ensures
            r == check_scope(self@, i as int),
    {
        if i >= self.scope_parent.len() {
            return Err(RuntimeError::InvalidHandle);
        }
        if !self.scope_alive[i] {
            return Err(RuntimeError::UseAfterDispose);
        }
        Ok(())
    }

    /// Opens a scope inside `parent`.
    pub fn create_scope(&mut self, parent: ScopeId) -> (r: Result<ScopeId, RuntimeError>)
        requires
            old(self).wf(),
            old(self)@.scopes.len() < usize::MAX,
        ensures
            final(self).wf(),
            match r {
                Ok(id) => check_scope(old(self)@, parent.index as int) is Ok && id.index == old(self)@.scopes.len()
                    && final(self)@ == after_create_scope(old(self)@, parent.index as int),
                Err(e) => check_scope(old(self)@, parent.index as int) == Err::<(), RuntimeError>(e)
                    && final(self)@ == old(self)@,
            },
    {
        match self.check_scope_exec(parent.index) {
            Err(e) => Err(e),
            Ok(()) => {
                let id = self.scope_parent.len();
                self.scope_parent.push(parent.index);
                self.scope_alive.push(true);
                assert(self@.scopes =~= after_create_scope(old(self)@, parent.index as int).scopes);
                Ok(ScopeId { index: id })
            },
        }
    }

    fn create_node(&mut self, scope: ScopeId, kind: NodeKind, value: Option<V>) -> (r: Result<NodeId, RuntimeError>)
        requires
            old(self).wf(),
            old(self)@.nodes.len() < usize::MAX,
            kind == NodeKind::Signal ==> value is Some,
        ensures
            final(self).wf(),
            match r {
                Ok(id) => check_scope(old(self)@, scope.index as int) is Ok && id.index == old(self)@.nodes.len()
                    && final(self)@ == after_create(old(self)@, scope.index as int, kind, value),
                Err(e) => check_scope(old(self)@, scope.index as int) == Err::<(), RuntimeError>(e)
                    && final(self)@ == old(self)@,
            },
    {
        match self.check_scope_exec(scope.index) {
            Err(e) => Err(e),
            Ok(()) => {
                let id = self.kinds.len();
                self.kinds.push(kind);
                self.alive.push(true);
                self.owner.push(scope.index);
                self.sources.push(Vec::new());
                self.dirty.push(kind != NodeKind::Signal);
                self.versions.push(0);
                self.values.push(value);
                let ghost want = after_create(old(self)@, scope.index as int, kind, value);
                proof {
                    lemma_create_keeps_wf(old(self)@, scope.index as int, kind, value);
                }
                assert(self@.nodes =~= want.nodes);
                assert(self@.values =~= want.values);
                assert(self@.scopes =~= want.scopes);
                Ok(NodeId { index: id })
            },
        }
    }

    /// Creates a signal holding `value`, owned by `scope`.
    pub fn create_signal(&mut self, scope: ScopeId, value: V) -> (r: Result<NodeId, RuntimeError>)
        requires
            old(self).wf(),
            old(self)@.nodes.len() < usize::MAX,
        ensures
            final(self).wf(),
            match r {
                Ok(id) => check_scope(old(self)@, scope.index as int) is Ok && id.index == old(self)@.nodes.len()
                    && final(self)@ == after_create(old(self)@, scope.index as int, NodeKind::Signal, Some(value)),
                Err(e) => check_scope(old(self)@, scope.index as int) == Err::<(), RuntimeError>(e)
                    && final(self)@ == old(self)@,
            },
    {
        self.create_node(scope, NodeKind::Signal, Some(value))
    }

    /// Registers an effect owned by `scope`. It is due at once: its first run
    /// records what it reads.
    pub fn create_effect(&mut self, scope: ScopeId) -> (r: Result<NodeId, RuntimeError>)
        requires
            old(self).wf(),
            old(self)@.nodes.len() < usize::MAX,
        ensures
            final(self).wf(),
            match r {
                Ok(id) => check_scope(old(self)@, scope.index as int) is Ok && id.index == old(self)@.nodes.len()
                    && final(self)@ == after_create(old(self)@, scope.index as int, NodeKind::Effect, None),
                Err(e) => check_scope(old(self)@, scope.index as int) == Err::<(), RuntimeError>(e)
                    && final(self)@ == old(self)@,
            },
    {
        self.create_node(scope, NodeKind::Effect, None)
    }

    /// Creates a memo owned by `scope`, with no cached value yet.
    pub fn create_memo(&mut self, scope: ScopeId) -> (r: Result<NodeId, RuntimeError>)
        requires
            old(self).wf(),
            old(self)@.nodes.len() < usize::MAX,
        ensures
            final(self).wf(),
            match r {
                Ok(id) => check_scope(old(self)@, scope.index as int) is Ok && id.index == old(self)@.nodes.len()
                    && final(self)@ == after_create(old(self)@, scope.index as int, NodeKind::Memo, None),
                Err(e) => check_scope(old(self)@, scope.index as int) == Err::<(), RuntimeError>(e)
                    && final(self)@ == old(self)@,
            },
    {
        self.create_node(scope, NodeKind::Memo, None)
    }

    /// Replaces a signal's value and marks everything that depends on it.
    /// Every write counts as a change, also of an equal value.
    pub fn write(&mut self, signal: NodeId, value: V) -> (r: Result<(), RuntimeError>)
        requires
            old(self).wf(),
        ensures
            final(self).wf(),
            r == check_node(old(self)@, signal.index as int, true, false),
            r is Ok ==> final(self)@ == after_write(old(self)@, signal.index as int, value),
            r is Err ==> final(self)@ == old(self)@,
    {
        let s = signal.index;
        match self.check_node_exec(s, true, false) {
            Err(e) => Err(e),
            Ok(()) => {
                let ghost m = self@;
                self.values.set(s, Some(value));
                proof {
                    lemma_store_keeps_wf(m, s as int, value);
                    lemma_write_after_store(m, s as int, value);
                }
                self.propagate(s, Ghost(value));
                Ok(())
            },
        }
    }

    /// Replaces a signal's value with `f` applied to it, then propagates as
    /// `write` does.
    pub fn update<F: FnOnce(V) -> V>(&mut self, signal: NodeId, f: F) -> (r: Result<(), RuntimeError>)
        requires
            old(self).wf(),
            forall|v: V| f.requires((v,)),
        ensures
            final(self).wf(),
            r == check_node(old(self)@, signal.index as int, true, false),
            r is Ok ==> exists|nv: V|
                f.ensures((old(self)@.values[signal.index as int].unwrap(),), nv) && final(self)@
                    == after_write(old(self)@, signal.index as int, nv),
            r is Err ==> final(self)@ == old(self)@,
    {
        let s = signal.index;
        match self.check_node_exec(s, true, false) {
            Err(e) => Err(e),
            Ok(()) => {
                let ghost m = self@;
                let mut slot: Option<V> = None;
                std::mem::swap(&mut slot, &mut self.values[s]);
                let v = slot.unwrap();
                let nv = f(v);
                self.values.set(s, Some(nv));
                proof {
                    assert(self.values@ =~= m.values.update(s as int, Some(nv)));
                    lemma_store_keeps_wf(m, s as int, nv);
                    lemma_write_after_store(m, s as int, nv);
                }
                self.propagate(s, Ghost(nv));
                Ok(())
            },
        }
    }

    /// Marks everything that depends on signal `s`, whose new value `value`
    /// is already stored, and bumps its version.
    fn propagate(&mut self, s: usize, Ghost(value): Ghost<V>)
        requires
            old(self).wf(),
            check_node(old(self)@, s as int, true, false) is Ok,
            old(self)@.values[s as int] == Some(value),
        ensures
            final(self).wf(),
            final(self)@ == after_write(old(self)@, s as int, value),
    {
        {
            {
                let ghost m = self@;
                let marked = mark_dependents(&self.alive, &self.sources, s, Ghost(m.nodes));
                let len = self.dirty.len();
                let mut n: usize = 0;
                while n < len
                    invariant
                        old(self).wf(),
                        m == old(self)@,
                        len == m.nodes.len(),
                        s < len,
                        marked@.len() == len,
                        forall|j: int| 0 <= j < len ==> marked@[j] == reaches(m.nodes, s as int, j),
                        n <= len,
                        self.kinds == old(self).kinds,
                        self.alive == old(self).alive,
                        self.owner == old(self).owner,
                        self.sources == old(self).sources,
                        self.versions == old(self).versions,
                        self.values == old(self).values,
                        self.scope_parent == old(self).scope_parent,
                        self.scope_alive == old(self).scope_alive,
                        self.running == old(self).running,
                        self.passes == old(self).passes,
                        self.max_passes == old(self).max_passes,
                        self.ctx_scope == old(self).ctx_scope,
                        self.ctx_key == old(self).ctx_key,
                        self.ctx_value == old(self).ctx_value,
                        self.dirty@.len() == len,
                        forall|j: int|
                            0 <= j < len ==> #[trigger] self.dirty@[j] == if j < n {
                                old(self).dirty@[j] || (j != s && marked@[j])
                            } else {
                                old(self).dirty@[j]
                            },
                    decreases len - n,
                {
                    if n != s && marked[n] {
                        self.dirty.set(n, true);
                    }
                    n = n + 1;
                }
                let v = self.versions[s];
                let next: u64 = if v == u64::MAX {
                    0
                } else {
                    v + 1
                };
                self.versions.set(s, next);
                let ghost want = after_write(m, s as int, value);
                assert(m.values.update(s as int, Some(value)) =~= m.values);
                assert(self@.nodes =~= want.nodes);
                assert(self@.values =~= want.values);
                proof {
                    lemma_write_keeps_wf(m, s as int, value);
                }
            }
        }
    }

    /// The due effects, in the order they were registered. Returns an empty
    /// list once nothing is due, and fails with `PropagationCycle` when more
    /// passes are due than the bound allows since the runtime was last quiet.
    pub fn take_pass(&mut self) -> (r: Result<Vec<NodeId>, RuntimeError>)
        requires
            old(self).wf(),
        ensures
            final(self).wf(),
            final(self)@ == after_pass(old(self)@),
            match r {
                Ok(list) => pass_outcome(old(self)@) == Ok::<Seq<NodeId>, RuntimeError>(list@),
                Err(e) => pass_outcome(old(self)@) == Err::<Seq<NodeId>, RuntimeError>(e),
            },
    {
        let ghost m = self@;
        let mut due: Vec<NodeId> = Vec::new();
        let len = self.kinds.len();
        let mut i: usize = 0;
        while i < len
            invariant
                self.wf(),
                self@ == m,
                len == m.nodes.len(),
                i <= len,
                due@ == due_upto(m, i as int),
            decreases len - i,
        {
            if self.kinds[i] == NodeKind::Effect && self.alive[i] && self.dirty[i] {
                due.push(NodeId { index: i });
            }
            i = i + 1;
        }
        if due.len() == 0 {
            assert(due@ =~= Seq::<NodeId>::empty());
            self.passes = 0;
            assert(self@ =~= after_pass(m));
            return Ok(due);
        }
        if self.passes >= self.max_passes {
            return Err(RuntimeError::PropagationCycle);
        }
        self.passes = self.passes + 1;
        assert(self@ =~= after_pass(m));
        Ok(due)
    }

    /// Starts a run of an effect or memo: forgets the edges of its last run
    /// and makes it the innermost run, to which reads are attributed.
    pub fn begin_run(&mut self, node: NodeId) -> (r: Result<(), RuntimeError>)
        requires
            old(self).wf(),
        ensures
            final(self).wf(),
            r == check_node(old(self)@, node.index as int, false, true),
            r is Ok ==> final(self)@ == after_begin(old(self)@, node.index as int),
            r is Err ==> final(self)@ == old(self)@,
    {
        let n = node.index;
        match self.check_node_exec(n, false, true) {
            Err(e) => Err(e),
            Ok(()) => {
                let ghost m = self@;
                self.sources.set(n, Vec::new());
                if self.kinds[n] == NodeKind::Effect {
                    self.dirty.set(n, false);
                }
                self.running.push(n);
                let ghost want = after_begin(m, n as int);
                assert(self@.nodes =~= want.nodes);
                assert(self@.running =~= want.running);
                assert(self@ =~= want);
                Ok(())
            },
        }
    }

    fn check_end_exec(&self, n: usize, kind: NodeKind) -> (r: Result<(), RuntimeError>)
        requires
            self.wf(),
            n < self@.nodes.len(),
        ensures
            r == check_end(self@, n as int, kind),
    {
        let top = self.running.len();
        if top == 0 || self.running[top - 1] != n || self.kinds[n] != kind {
            Err(RuntimeError::InvalidHandle)
        } else {
            Ok(())
        }
    }

    /// Ends the innermost run, which must be the effect `node`.
    pub fn end_run(&mut self, node: NodeId) -> (r: Result<(), RuntimeError>)
        requires
            old(self).wf(),
        ensures
            final(self).wf(),
            r == (if node.index < old(self)@.nodes.len() {
                check_end(old(self)@, node.index as int, NodeKind::Effect)
            } else {
                Err(RuntimeError::InvalidHandle)
            }),
            r is Ok ==> final(self)@ == after_end(old(self)@),
            r is Err ==> final(self)@ == old(self)@,
    {
        let n = node.index;
        if n >= self.kinds.len() {
            return Err(RuntimeError::InvalidHandle);
        }
        match self.check_end_exec(n, NodeKind::Effect) {
            Err(e) => Err(e),
            Ok(()) => {
                let ghost m = self@;
                self.running.pop();
                assert(self@.running =~= after_end(m).running);
                assert(self@ =~= after_end(m));
                Ok(())
            },
        }
    }

    /// Ends the innermost run, which must be the memo `node`, and caches the
    /// value it computed.
    pub fn end_memo(&mut self, node: NodeId, value: V) -> (r: Result<(), RuntimeError>)
        requires
            old(self).wf(),
        ensures
            final(self).wf(),
            r == (if node.index < old(self)@.nodes.len() {
                check_end(old(self)@, node.index as int, NodeKind::Memo)
            } else {
                Err(RuntimeError::InvalidHandle)
            }),
            r is Ok ==> final(self)@ == after_end_memo(old(self)@, node.index as int, value),
            r is Err ==> final(self)@ == old(self)@,
    {
        let n = node.index;
        if n >= self.kinds.len() {
            return Err(RuntimeError::InvalidHandle);
        }
        match self.check_end_exec(n, NodeKind::Memo) {
            Err(e) => Err(e),
            Ok(()) => {
                let ghost m = self@;
                self.running.pop();
                self.dirty.set(n, false);
                self.values.set(n, Some(value));
                let ghost want = after_end_memo(m, n as int, value);
                proof {
                    lemma_end_memo_keeps_wf(m, n as int, value);
                }
                assert(self@.nodes =~= want.nodes);
                assert(self@.values =~= want.values);
                assert(self@.running =~= want.running);
                assert(self@ =~= want);
                Ok(())
            },
        }
    }

    /// Reads a signal or memo; an effect holds no value. While an effect or memo runs, the read is
    /// recorded as an edge to the innermost run. A memo whose cache is invalid
    /// gives `None`: run it (`begin_run` ... `end_memo`) and read again.
    pub fn read(&mut self, node: NodeId) -> (r: Result<Option<&V>, RuntimeError>)
        requires
            old(self).wf(),
        ensures
            final(self).wf(),
            match r {
                Ok(o) => check_readable(old(self)@, node.index as int) is Ok
                    && final(self)@ == after_read(old(self)@, node.index as int)
                    && match o {
                        Some(x) => read_value(old(self)@, node.index as int) == Some(*x),
                        None => read_value(old(self)@, node.index as int) is None,
                    },
                Err(e) => check_readable(old(self)@, node.index as int) == Err::<(), RuntimeError>(e)
                    && final(self)@ == old(self)@,
            },
    {
        let n = node.index;
        if n < self.kinds.len() && self.kinds[n] == NodeKind::Effect {
            return Err(RuntimeError::InvalidHandle);
        }
        match self.check_node_exec(n, true, true) {
            Err(e) => Err(e),
            Ok(()) => {
                self.track(n);
                if self.kinds[n] == NodeKind::Memo && self.dirty[n] {
                    Ok(None)
                } else {
                    Ok(self.values[n].as_ref())
                }
            },
        }
    }

    fn track(&mut self, n: usize)
        requires
            old(self).wf(),
            n < old(self)@.nodes.len(),
        ensures
            final(self).wf(),
            final(self)@ == after_read(old(self)@, n as int),
            final(self).values == old(self).values,
            final(self).kinds == old(self).kinds,
            final(self).dirty == old(self).dirty,
    {
        let ghost m = self@;
        let top = self.running.len();
        if top == 0 {
            return;
        }
        let t = self.running[top - 1];
        assert(m.running[top - 1] == t);
        if contains_index(&self.sources[t], n) {
            assert(m.nodes[t as int].sources == self.sources@[t as int]@);
            return;
        }
        let mut srcs: Vec<usize> = Vec::new();
        std::mem::swap(&mut srcs, &mut self.sources[t]);
        srcs.push(n);
        std::mem::swap(&mut srcs, &mut self.sources[t]);
        let ghost want = after_read(m, n as int);
        assert(self@.nodes =~= want.nodes);
        assert(self@ =~= want);
        assert forall|i: int, j: int|
            0 <= i < want.nodes.len() && 0 <= j < want.nodes[i].sources.len() implies #[trigger] want.nodes[i].sources[j]
            < want.nodes.len() by {
            if i == t as int && j == want.nodes[i].sources.len() - 1 {
            } else {
                assert(want.nodes[i].sources[j] == m.nodes[i].sources[j]);
            }
        }
    }

    /// Disposes `scope`, every scope inside it and every node they own.
    pub fn dispose(&mut self, scope: ScopeId) -> (r: Result<(), RuntimeError>)
        requires
            old(self).wf(),
        ensures
            final(self).wf(),
            r == check_scope(old(self)@, scope.index as int),
            r is Ok ==> final(self)@ == after_dispose(old(self)@, scope.index as int),
            r is Err ==> final(self)@ == old(self)@,
    {
        let t = scope.index;
        match self.check_scope_exec(t) {
            Err(e) => Err(e),
            Ok(()) => {
                let ghost m = self@;
                let slen = self.scope_parent.len();
                let mut gone: Vec<bool> = Vec::new();
                let mut i: usize = 0;
                while i < slen
                    invariant
                        self@ == m,
                        self.wf(),
                        slen == m.scopes.len(),
                        i <= slen,
                        gone@.len() == i,
                        forall|j: int| 0 <= j < i ==> gone@[j] == within(m.scopes, j, t as int),
                    decreases slen - i,
                {
                    let g = if i == t {
                        true
                    } else if i > 0 {
                        assert(m.scopes[i as int].parent < i);
                        gone[self.scope_parent[i]]
                    } else {
                        false
                    };
                    gone.push(g);
                    i = i + 1;
                }
                let mut i: usize = 0;
                while i < slen
                    invariant
                        old(self).wf(),
                        m == old(self)@,
                        slen == m.scopes.len(),
                        gone@.len() == slen,
                        forall|j: int| 0 <= j < slen ==> gone@[j] == within(m.scopes, j, t as int),
                        i <= slen,
                        self.kinds == old(self).kinds,
                        self.alive == old(self).alive,
                        self.owner == old(self).owner,
                        self.sources == old(self).sources,
                        self.dirty == old(self).dirty,
                        self.versions == old(self).versions,
                        self.values == old(self).values,
                        self.scope_parent == old(self).scope_parent,
                        self.running == old(self).running,
                        self.passes == old(self).passes,
                        self.max_passes == old(self).max_passes,
                        self.ctx_scope == old(self).ctx_scope,
                        self.ctx_key == old(self).ctx_key,
                        self.ctx_value == old(self).ctx_value,
                        self.scope_alive@.len() == slen,
                        forall|j: int|
                            0 <= j < slen ==> #[trigger] self.scope_alive@[j] == if j < i {
                                old(self).scope_alive@[j] && !gone@[j]
                            } else {
                                old(self).scope_alive@[j]
                            },
                    decreases slen - i,
                {
                    if gone[i] {
                        self.scope_alive.set(i, false);
                    }
                    i = i + 1;
                }
                let len = self.kinds.len();
                let mut n: usize = 0;
                while n < len
                    invariant
                        old(self).wf(),
                        m == old(self)@,
                        slen == m.scopes.len(),
                        gone@.len() == slen,
                        forall|j: int| 0 <= j < slen ==> gone@[j] == within(m.scopes, j, t as int),
                        len == m.nodes.len(),
                        n <= len,
                        self.kinds == old(self).kinds,
                        self.owner == old(self).owner,
                        self.dirty == old(self).dirty,
                        self.versions == old(self).versions,
                        self.values == old(self).values,
                        self.scope_parent == old(self).scope_parent,
                        self.running == old(self).running,
                        self.passes == old(self).passes,
                        self.max_passes == old(self).max_passes,
                        self.ctx_scope == old(self).ctx_scope,
                        self.ctx_key == old(self).ctx_key,
                        self.ctx_value == old(self).ctx_value,
                        self.scope_alive@.len() == slen,
                        forall|j: int|
                            0 <= j < slen ==> #[trigger] self.scope_alive@[j] == (old(self).scope_alive@[j]
                                && !gone@[j]),
                        self.alive@.len() == len,
                        self.sources@.len() == len,
                        forall|j: int|
                            0 <= j < len ==> #[trigger] self.alive@[j] == if j < n && gone@[
                                old(self).owner@[j] as int] {
                                false
                            } else {
                                old(self).alive@[j]
                            },
                        forall|j: int|
                            0 <= j < len ==> #[trigger] self.sources@[j]@ == if j < n && gone@[
                                old(self).owner@[j] as int] {
                                Seq::<usize>::empty()
                            } else {
                                old(self).sources@[j]@
                            },
                    decreases len - n,
                {
                    assert(m.nodes[n as int].scope < slen);
                    if gone[self.owner[n]] {
                        self.alive.set(n, false);
                        self.sources.set(n, Vec::new());
                    }
                    n = n + 1;
                }
                let ghost want = after_dispose(m, t as int);
                assert(self@.nodes =~= want.nodes);
                assert(self@.scopes =~= want.scopes);
                assert(self@ =~= want);
                proof {
                    lemma_dispose_keeps_wf(m, t as int);
                }
                Ok(())
            },
        }
    }

    /// Provides `value` under `key` to `scope` and the scopes inside it; a
    /// later value for the same scope and key hides an earlier one.
    pub fn provide_context(&mut self, scope: ScopeId, key: u64, value: V) -> (r: Result<(), RuntimeError>)
        requires
            old(self).wf(),
        ensures
            final(self).wf(),
            r == check_scope(old(self)@, scope.index as int),
            r is Ok ==> final(self)@ == after_provide(old(self)@, scope.index as int, key, value),
            r is Err ==> final(self)@ == old(self)@,
    {
        match self.check_scope_exec(scope.index) {
            Err(e) => Err(e),
            Ok(()) => {
                let ghost m = self@;
                self.ctx_scope.push(scope.index);
                self.ctx_key.push(key);
                self.ctx_value.push(value);
                let ghost want = after_provide(m, scope.index as int, key, value);
                assert(self@.contexts =~= want.contexts);
                assert(self@.nodes =~= want.nodes);
                assert(self@.scopes =~= want.scopes);
                assert(self@ =~= want);
                Ok(())
            },
        }
    }

    fn find_provided(&self, scope: usize, key: u64) -> (r: Option<usize>)
        requires
            self.wf(),
        ensures
            match r {
                Some(i) => i < self@.contexts.len() && provided_upto(self@.contexts, scope as int, key, self@.contexts.len() as int)
                    == Some(self@.contexts[i as int].value),
                None => provided_upto(self@.contexts, scope as int, key, self@.contexts.len() as int) is None,
            },
    {
        let ghost ctx = self@.contexts;
        let mut k = self.ctx_scope.len();
        while k > 0
            invariant
                self.wf(),
                ctx == self@.contexts,
                k <= ctx.len(),
                provided_upto(ctx, scope as int, key, ctx.len() as int) == provided_upto(ctx, scope as int, key, k as int),
            decreases k,
        {
            k = k - 1;
            if self.ctx_scope[k] == scope && self.ctx_key[k] == key {
                return Some(k);
            }
        }
        None
    }

    /// The context value for `key` seen from `scope`, looked up through the
    /// enclosing scopes.
    pub fn use_context(&self, scope: ScopeId, key: u64) -> (r: Result<Option<&V>, RuntimeError>)
        requires
            self.wf(),
        ensures
            match r {
                Ok(o) => check_scope(self@, scope.index as int) is Ok && match o {
                    Some(x) => lookup_context(self@, scope.index as int, key) == Some(*x),
                    None => lookup_context(self@, scope.index as int, key) is None,
                },
                Err(e) => check_scope(self@, scope.index as int) == Err::<(), RuntimeError>(e),
            },
    {
        match self.check_scope_exec(scope.index) {
            Err(e) => Err(e),
            Ok(()) => {
                let mut s = scope.index;
                loop
                    invariant
                        self.wf(),
                        s < self@.scopes.len(),
                        check_scope(self@, scope.index as int) is Ok,
                        lookup_context(self@, scope.index as int, key) == lookup_context(self@, s as int, key),
                    decreases s,
                {
                    match self.find_provided(s, key) {
                        Some(i) => {
                            return Ok(Some(&self.ctx_value[i]));
                        },
                        None => {
                            if s == 0 {
                                return Ok(None);
                            }
                            assert(self@.scopes[s as int].parent < s);
                            s = self.scope_parent[s];
                        },
                    }
                }
            },
        }
    }

    /// How many times the signal was written, modulo 2^64.
    pub fn version(&self, node: NodeId) -> (r: Option<u64>)
        requires
            self.wf(),
        ensures
            match r {
                Some(v) => node.index < self@.nodes.len() && v == self@.nodes[node.index as int].version,
                None => node.index >= self@.nodes.len(),
            },
    {
        if node.index < self.versions.len() {
            Some(self.versions[node.index])
        } else {
            None
        }
    }

    /// Whether the node exists and has not been disposed.
    pub fn is_alive(&self, node: NodeId) -> (r: bool)
        requires
            self.wf(),
        ensures
            r == (node.index < self@.nodes.len() && self@.nodes[node.index as int].alive),
    {
        node.index < self.alive.len() && self.alive[node.index]
    }
}

} // verus!
