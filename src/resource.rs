//! Async data bound to a source signal. Each run of the resource's effect
//! starts a load under a fresh generation; a completion is applied only if no
//! newer load was started since, so stale results are discarded.
use vstd::prelude::*;

verus! {

/// Where the latest load stands. `Settled(g)`: the load of generation `g`
/// was applied, and its value or error is the resource's payload.
#[derive(Debug, Clone, Copy, PartialEq, Eq, Structural)]
pub enum ResourceState {
    Idle,
    Loading(u64),
    Settled(u64),
}

/// A resource as the contracts see it.
pub struct ResourceModel<T, E> {
    pub generation: nat,
    pub state: ResourceState,
    /// The payload of the last load that was applied.
    pub latest: Option<Result<T, E>>,
}

pub open spec fn fresh_resource<T, E>() -> ResourceModel<T, E> {
    ResourceModel { generation: 0, state: ResourceState::Idle, latest: None }
}

/// Starting a load takes the next generation and enters `Loading`; the last
/// payload stays readable meanwhile.
pub open spec fn after_start<T, E>(m: ResourceModel<T, E>) -> ResourceModel<T, E> {
    ResourceModel {
        generation: m.generation + 1,
        state: ResourceState::Loading((m.generation + 1) as u64),
        latest: m.latest,
    }
}

/// A completion is current when it belongs to the latest load started.
pub open spec fn is_current<T, E>(m: ResourceModel<T, E>, g: u64) -> bool {
    m.generation > 0 && g as nat == m.generation
}

pub open spec fn after_complete<T, E>(m: ResourceModel<T, E>, g: u64, result: Result<T, E>) -> ResourceModel<T, E> {
    if is_current(m, g) {
        ResourceModel {
            generation: m.generation,
            state: ResourceState::Settled(g),
            latest: Some(result),
        }
    } else {
        m
    }
}

pub struct Resource<T, E> {
    generation: u64,
    state: ResourceState,
    latest: Option<Result<T, E>>,
}

impl<T, E> View for Resource<T, E> {
    type V = ResourceModel<T, E>;

    closed spec fn view(&self) -> ResourceModel<T, E> {
        ResourceModel { generation: self.generation as nat, state: self.state, latest: self.latest }
    }
}

impl<T, E> Resource<T, E> {
    /// A resource that has not loaded yet.
    pub fn new() -> (r: Self)
        ensures
            r@ == fresh_resource::<T, E>(),
    {
        Resource { generation: 0, state: ResourceState::Idle, latest: None }
    }

    /// Starts a load (the source changed, or this is the first run) and
    /// returns its generation, to be handed back with its result. Gives `None`
    /// and changes nothing once the generations are used up.
    pub fn start_load(&mut self) -> (r: Option<u64>)
        ensures
            match r {
                Some(g) => old(self)@.generation < u64::MAX && g as nat == old(self)@.generation + 1
                    && final(self)@ == after_start(old(self)@),
                None => old(self)@.generation == u64::MAX && final(self)@ == old(self)@,
            },
    {
        if self.generation == u64::MAX {
            return None;
        }
        self.generation = self.generation + 1;
        self.state = ResourceState::Loading(self.generation);
        Some(self.generation)
    }

    /// Hands back the result of the load of generation `g`. Returns whether
    /// it was applied: a result of an older load is discarded.
    pub fn complete(&mut self, g: u64, result: Result<T, E>) -> (r: bool)
        ensures
            r == is_current(old(self)@, g),
            final(self)@ == after_complete(old(self)@, g, result),
    {
        if self.generation == 0 || g != self.generation {
            return false;
        }
        self.state = ResourceState::Settled(g);
        self.latest = Some(result);
        true
    }

    /// The last payload applied, also while a newer load is pending; `None`
    /// before the first load completes.
    pub fn read(&self) -> (r: Option<&Result<T, E>>)
        ensures
            match r {
                Some(x) => self@.latest == Some(*x),
                None => self@.latest is None,
            },
    {
        self.latest.as_ref()
    }

    /// Whether a load is pending.
    pub fn loading(&self) -> (r: bool)
        ensures
            r == self@.state is Loading,
    {
        match self.state {
            ResourceState::Loading(_) => true,
            _ => false,
        }
    }

    pub fn state(&self) -> (r: &ResourceState)
        ensures
            *r == self@.state,
    {
        &self.state
    }

    /// The generation of the latest load started; 0 before the first.
    pub fn generation(&self) -> (r: u64)
        ensures
            r as nat == self@.generation,
    {
        self.generation
    }
}

/// Stale results are discarded: when two loads are started and the first
/// completes after the second, the resource ends with the second's result.
pub proof fn lemma_stale_load_discarded<T, E>(m: ResourceModel<T, E>, first: Result<T, E>, second: Result<T, E>)
    requires
        m.generation + 2 <= u64::MAX,
    ensures
        ({
            let g1 = (m.generation + 1) as u64;
            let g2 = (m.generation + 2) as u64;
            let done = after_complete(
                after_complete(after_start(after_start(m)), g2, second),
                g1,
                first,
            );
            &&& done.latest == Some(second)
            &&& done.state == ResourceState::Settled(g2)
        }),
{
}

} // verus!
