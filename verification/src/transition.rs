//! The handle of a transition: a flag that tells whether one is under way.

use vstd::prelude::*;
use leptos_reactive::{ReadSignal, Scope, WriteSignal};
use crate::scope::{make_signal, read, read_gave, scope_of, signal_made, Root};

verus! {

/// A transition's scope and the two halves of its `pending` signal.
#[derive(Copy, Clone)]
pub struct Transition {
    scope: Scope,
    pending: ReadSignal<bool>,
    set_pending: WriteSignal<bool>,
}

/// A transition under the root `cx`, with a `pending` signal of its own that
/// starts at `false`: the one signal that is made, whose two halves the
/// transition holds.
pub fn use_transition(cx: &Root) -> (transition: Transition)
    ensures
        transition.scope() == cx.scope(),
        signal_made(*cx, false, transition.pending_signal(), transition.set_pending_signal()),
{
    let (pending, set_pending) = make_signal(cx, false);
    Transition { scope: scope_of(cx), pending, set_pending }
}

impl Transition {
    /// The scope that the transition was made under.
    pub closed spec fn scope(&self) -> Scope {
        self.scope
    }

    /// The reading half of the transition's `pending` signal.
    pub closed spec fn pending_signal(&self) -> ReadSignal<bool> {
        self.pending
    }

    /// The writing half of the transition's `pending` signal.
    pub closed spec fn set_pending_signal(&self) -> WriteSignal<bool> {
        self.set_pending
    }

    /// What a read of the `pending` signal means: the value that was read, and
    /// `false` where the signal is gone.
    pub fn pending_of(read: Option<bool>) -> (pending: bool)
        ensures
            pending == (read == Some(true)),
    {
        match read {
            Some(pending) => pending,
            None => false,
        }
    }

    /// Whether the transition is under way: its `pending` signal is read, and
    /// the answer is what `pending_of` makes of that.
    pub fn pending(&self) -> (pending: bool)
        ensures
            exists|read: Option<bool>| #[trigger]
                read_gave(self.pending_signal(), read) && pending == (read == Some(true)),
    {
        let read = read(&self.pending);
        let pending = Self::pending_of(read);
        assert(read_gave(self.pending_signal(), read) && pending == (read == Some(true)));
        pending
    }
}

} // verus!
