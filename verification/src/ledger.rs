//! The scopes of the rows: where they are opened, and what became of each.

use vstd::prelude::*;
use leptos_reactive::{Scope, ScopeDisposer};
use crate::scope::{
    child_opened, dispose, hand_over, handed_over, made_by, maps, open, scope_disposed, Root,
};

verus! {

/// One thing that happened to the scopes under a parent.
pub enum ScopeEvent {
    /// A scope was opened.
    Opened(ScopeDisposer),
    /// A scope was disposed of at once.
    Closed(ScopeDisposer),
    /// Scopes were handed, as one batch, to the runtime's queue of tasks, to be
    /// disposed of there: behind the pass where the runtime queues, and before
    /// the hand-over returns where it runs the task at once.
    Deferred(Seq<ScopeDisposer>),
}

/// The opening of each of `scopes`, in order.
pub open spec fn opened_all(scopes: Seq<ScopeDisposer>) -> Seq<ScopeEvent> {
    Seq::new(scopes.len(), |i: int| ScopeEvent::Opened(scopes[i]))
}

/// The disposal of each of `scopes`, in order.
pub open spec fn closed_all(scopes: Seq<ScopeDisposer>) -> Seq<ScopeEvent> {
    Seq::new(scopes.len(), |i: int| ScopeEvent::Closed(scopes[i]))
}

/// The root under which the rows' scopes are opened, with the record of
/// everything that happened to those scopes, in the order in which it happened.
/// The record exists only in proofs. Nothing but `open`, `close` and `defer`
/// writes it, and each of them adds its entry where it makes the call.
pub struct ScopeLedger {
    parent: &'static Root,
    history: Ghost<Seq<ScopeEvent>>,
}

impl ScopeLedger {
    /// The root under which the rows' scopes are opened.
    pub closed spec fn parent(&self) -> Root {
        *self.parent
    }

    /// What happened so far, first to last.
    pub closed spec fn history(&self) -> Seq<ScopeEvent> {
        self.history@
    }

    pub(crate) fn new(parent: &'static Root) -> (ledger: Self)
        ensures
            ledger.parent() == *parent,
            ledger.history() == Seq::<ScopeEvent>::empty(),
    {
        ScopeLedger { parent, history: Ghost(Seq::empty()) }
    }

    /// Opens a child scope of the parent, maps `item` in it, and records the
    /// scope as opened.
    pub(crate) fn open<T, U, M: Fn(Scope, &T) -> U>(&mut self, map_fn: &M, item: &T) -> (row: (
        U,
        ScopeDisposer,
    ))
        requires
            maps(*map_fn, *item),
        ensures
            made_by(*map_fn, *item, row.0),
            child_opened(old(self).parent(), *map_fn, *item, row.0, row.1),
            final(self).history() == old(self).history().push(ScopeEvent::Opened(row.1)),
            final(self).parent() == old(self).parent(),
    {
        let (value, scope) = open(self.parent, map_fn, item);
        self.history = Ghost(self.history@.push(ScopeEvent::Opened(scope)));
        (value, scope)
    }

    /// Disposes of `scope` now, and records it as closed.
    pub(crate) fn close(&mut self, scope: ScopeDisposer)
        ensures
            scope_disposed(scope),
            final(self).history() == old(self).history().push(ScopeEvent::Closed(scope)),
            final(self).parent() == old(self).parent(),
    {
        self.history = Ghost(self.history@.push(ScopeEvent::Closed(scope)));
        dispose(scope);
    }

    /// Hands `scopes` to the runtime's queue for disposal, and records the
    /// batch.
    pub(crate) fn defer(&mut self, scopes: Vec<ScopeDisposer>)
        ensures
            handed_over(scopes),
            final(self).history() == old(self).history().push(ScopeEvent::Deferred(scopes@)),
            final(self).parent() == old(self).parent(),
    {
        self.history = Ghost(self.history@.push(ScopeEvent::Deferred(scopes@)));
        hand_over(scopes);
    }
}

} // verus!
