//! An explicitly dispatched async mutation. Unlike a resource, an action
//! keeps no generations: its value is the result of whichever call completed
//! last.
use vstd::prelude::*;

verus! {

/// An action as the contracts see it.
pub struct ActionModel<I, T, E> {
    pub input: Option<I>,
    pub pending: bool,
    pub value: Option<Result<T, E>>,
}

pub open spec fn fresh_action<I, T, E>() -> ActionModel<I, T, E> {
    ActionModel { input: None, pending: false, value: None }
}

pub open spec fn after_dispatch<I, T, E>(m: ActionModel<I, T, E>, input: I) -> ActionModel<I, T, E> {
    ActionModel { input: Some(input), pending: true, value: m.value }
}

pub open spec fn after_finish<I, T, E>(m: ActionModel<I, T, E>, result: Result<T, E>) -> ActionModel<I, T, E> {
    ActionModel { input: m.input, pending: false, value: Some(result) }
}

pub struct Action<I, T, E> {
    input: Option<I>,
    pending: bool,
    value: Option<Result<T, E>>,
}

impl<I, T, E> View for Action<I, T, E> {
    type V = ActionModel<I, T, E>;

    closed spec fn view(&self) -> ActionModel<I, T, E> {
        ActionModel { input: self.input, pending: self.pending, value: self.value }
    }
}

impl<I, T, E> Action<I, T, E> {
    pub fn new() -> (r: Self)
        ensures
            r@ == fresh_action::<I, T, E>(),
    {
        Action { input: None, pending: false, value: None }
    }

    /// Records a call with `input`; the caller starts the mutation.
    pub fn dispatch(&mut self, input: I)
        ensures
            final(self)@ == after_dispatch(old(self)@, input),
    {
        self.input = Some(input);
        self.pending = true;
    }

    /// Hands back the result of a call, whichever call it was.
    pub fn complete(&mut self, result: Result<T, E>)
        ensures
            final(self)@ == after_finish(old(self)@, result),
    {
        self.pending = false;
        self.value = Some(result);
    }

    /// The input of the latest dispatch.
    pub fn input(&self) -> (r: Option<&I>)
        ensures
            match r {
                Some(x) => self@.input == Some(*x),
                None => self@.input is None,
            },
    {
        self.input.as_ref()
    }

    pub fn pending(&self) -> (r: bool)
        ensures
            r == self@.pending,
    {
        self.pending
    }

    /// The result of the call that completed last.
    pub fn value(&self) -> (r: Option<&Result<T, E>>)
        ensures
            match r {
                Some(x) => self@.value == Some(*x),
                None => self@.value is None,
            },
    {
        self.value.as_ref()
    }
}

/// Calls are independent: when `x` is dispatched before `y` but completes
/// after it, the value is `x`'s result, while the input is `y`.
pub proof fn lemma_last_completion_wins<I, T, E>(
    m: ActionModel<I, T, E>,
    x: I,
    y: I,
    rx: Result<T, E>,
    ry: Result<T, E>,
)
    ensures
        ({
            let done = after_finish(after_finish(after_dispatch(after_dispatch(m, x), y), ry), rx);
            &&& done.value == Some(rx)
            &&& done.input == Some(y)
            &&& !done.pending
        }),
{
}

} // verus!
