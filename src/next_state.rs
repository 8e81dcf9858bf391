use vstd::prelude::*;

verus! {

/// Single-slot holder for a requested transition. Only one state can be
/// pending at a time: a later request overwrites an earlier one.
pub struct NextState<S> {
    pending: Option<S>,
}

impl<S> View for NextState<S> {
    type V = Option<S>;

    closed spec fn view(&self) -> Option<S> {
        self.pending
    }
}

impl<S: Copy> NextState<S> {
    /// An empty mailbox.
    pub fn new() -> (r: Self)
        ensures
            r@ == None::<S>,
    {
        NextState { pending: None }
    }

    /// Requests a transition to `next_state`, replacing any pending request.
    pub fn set(&mut self, next_state: S)
        ensures
            final(self)@ == Some(next_state),
    {
        self.pending = Some(next_state);
    }

    /// Reads the pending request and clears the slot.
    pub fn take(&mut self) -> (r: Option<S>)
        ensures
            r == old(self)@,
            final(self)@ == None::<S>,
    {
        self.pending.take()
    }

    /// The pending request, left in place.
    pub fn pending(&self) -> (r: Option<S>)
        ensures
            r == self@,
    {
        self.pending
    }
}

impl<S: Copy> Default for NextState<S> {
    fn default() -> (r: Self)
        ensures
            r@ == None::<S>,
    {
        NextState { pending: None }
    }
}

} // verus!
