//! The keyed list as a derived signal.

use vstd::prelude::*;
use vstd::std_specs::cmp::PartialEqSpec;
use vstd::std_specs::hash::obeys_key_model;
use std::hash::Hash;
use leptos_reactive::{ReadSignal, Scope, WriteSignal};
use crate::keyed::{reconciled, KeyedList};
use crate::matching::{keys_each, one_key_each};
use crate::scope::{
    make_signal, maps_each, pass_registered, register, signal_made, write_signal, wrote, Root,
};

verus! {

/// What one run of the effect behind `map_keyed` does: `next` is the list of rows
/// that it was handed, or on the first run an empty list under the root `cx`,
/// reconciled with what `list` returned.
pub open spec fn one_pass<T: PartialEq, U, K, L: Fn() -> Vec<T>, M: Fn(Scope, &T) -> U, F: Fn(&T) -> K>(
    cx: Root,
    list: &L,
    map_fn: &M,
    key_fn: &F,
    prev: Option<KeyedList<T, U>>,
    next: KeyedList<T, U>,
) -> bool {
    exists|start: KeyedList<T, U>, items: Vec<T>|
        {
            &&& match prev {
                Some(rows) => start == rows,
                None => {
                    &&& start.wf()
                    &&& start.items().len() == 0
                    &&& start.rows().len() == 0
                    &&& start.ledger().parent() == cx
                    &&& start.ledger().history().len() == 0
                },
            }
            &&& call_ensures(*list, (), items)
            &&& #[trigger] reconciled(start, next, items@, *map_fn, *key_fn)
        }
}

/// What the effect behind `map_keyed` works with: the scope of the rows, the
/// three functions, and the writing half of the signal of mapped elements.
#[verifier::reject_recursive_types(U)]
pub struct Pass<U: 'static, L, M, F> {
    pub cx: &'static Root,
    pub list: L,
    pub map_fn: M,
    pub key_fn: F,
    pub sink: WriteSignal<Vec<U>>,
}

impl<T, U, K, L, M, F> Pass<U, L, M, F> where
    T: PartialEq + 'static,
    U: Clone + 'static,
    K: Eq + Hash,
    L: Fn() -> Vec<T>,
    M: Fn(Scope, &T) -> U,
    F: Fn(&T) -> K,
 {
    /// The three functions can be run: `list` as it is, and `map_fn` and
    /// `key_fn` on every item that `list` returns, with one key for each item;
    /// and items and keys compare as they should.
    pub open spec fn ready(&self) -> bool {
        &&& T::obeys_eq_spec()
        &&& obeys_key_model::<K>()
        &&& call_requires(self.list, ())
        &&& one_key_each(self.key_fn)
        &&& forall|items: Vec<T>| #[trigger]
            call_ensures(self.list, (), items) ==> maps_each(self.map_fn, items@) && keys_each(
                self.key_fn,
                items@,
            )
    }

    /// One run of the effect: the rows handed in, or on the first run an empty
    /// list under the scope, are reconciled with what `list` returns, and a copy
    /// of the mapped elements is written to the signal, once.
    pub fn run(&self, prev: Option<KeyedList<T, U>>) -> (next: KeyedList<T, U>)
        requires
            self.ready(),
            prev matches Some(rows) ==> rows.wf() && keys_each(self.key_fn, rows.items()),
        ensures
            next.wf(),
            keys_each(self.key_fn, next.items()),
            one_pass(*self.cx, &self.list, &self.map_fn, &self.key_fn, prev, next),
            exists|out: Vec<U>|
                {
                    &&& #[trigger] wrote(self.sink, out)
                    &&& out.len() == next.outputs().len()
                    &&& forall|i: int| 0 <= i < out.len() ==> cloned(next.outputs()[i], #[trigger] out[i])
                },
    {
        let mut rows = match prev {
            Some(rows) => rows,
            None => KeyedList::new(self.cx),
        };
        let ghost start = rows;
        let items = (self.list)();
        let ghost listed = items;
        rows.reconcile(items, &self.map_fn, &self.key_fn);
        let out = rows.output();
        let ghost written = out;
        write_signal(&self.sink, out);
        assert(reconciled(start, rows, listed@, self.map_fn, self.key_fn));
        assert(wrote(self.sink, written));
        rows
    }
}

/// Maps the list that `list` returns to a signal of mapped elements, and keeps
/// the two in step: whenever a signal that `list` reads changes, the rows are
/// reconciled with the new list by key, so that an element is mapped once, in a
/// scope of its own, and lives until its key leaves the list. The signal is
/// written once for each pass, with the pass's finished output.
///
/// What is returned is the reading half of a signal made under the root `cx`
/// that starts empty, and the pass that writes to its other half is registered
/// as an effect under `cx`.
pub fn map_keyed<T, U, K>(
    cx: &'static Root,
    list: impl Fn() -> Vec<T> + 'static,
    map_fn: impl Fn(Scope, &T) -> U + 'static,
    key_fn: impl Fn(&T) -> K + 'static,
) -> (mapped: ReadSignal<Vec<U>>) where T: PartialEq + 'static, K: Eq + Hash, U: Clone + 'static
    requires
        T::obeys_eq_spec(),
        obeys_key_model::<K>(),
        call_requires(list, ()),
        one_key_each(key_fn),
        forall|items: Vec<T>| #[trigger]
            call_ensures(list, (), items) ==> maps_each(map_fn, items@) && keys_each(key_fn, items@),
    ensures
        exists|start: Vec<U>, sink: WriteSignal<Vec<U>>|
            {
                &&& start.len() == 0
                &&& #[trigger] signal_made(*cx, start, mapped, sink)
                &&& pass_registered((Pass { cx, list, map_fn, key_fn, sink }))
            },
{
    let start: Vec<U> = Vec::new();
    let ghost empty = start;
    let (mapped, sink) = make_signal(cx, start);
    let pass = Pass { cx, list, map_fn, key_fn, sink };
    let ghost registered = pass;
    register(pass);
    assert(signal_made(*cx, empty, mapped, sink) && pass_registered(registered));
    mapped
}

} // verus!
