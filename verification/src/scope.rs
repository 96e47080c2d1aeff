//! The boundary to the reactive runtime: the scope types and the few calls the
//! library makes into `leptos_reactive`.
//!
//! The runtime is built for the client (`csr`). Built so, each thread has one
//! runtime, which is there from the start and is never disposed of: no call
//! below can meet a runtime that is gone.

use vstd::prelude::*;
use std::hash::Hash;
use crate::keyed::KeyedList;
use crate::map::Pass;
use leptos_reactive::{
    create_effect, create_runtime, create_signal, queue_microtask, raw_scope_and_disposer,
    ReadSignal, RuntimeId, Scope, ScopeDisposer, SignalGet, SignalSet, WriteSignal,
};

verus! {

/// `leptos_reactive::RuntimeId`: the handle of a reactive runtime, carried
/// through.
#[verifier::external_type_specification]
#[verifier::external_body]
pub struct ExRuntimeId(RuntimeId);

/// `leptos_reactive::Scope`: the handle of a reactive scope. It is carried
/// through; nothing is known of what it holds.
#[verifier::external_type_specification]
#[verifier::external_body]
pub struct ExScope(Scope);

/// `leptos_reactive::ScopeDisposer`: the one handle by which a scope is
/// disposed. It is carried through; nothing is known of what it holds.
#[verifier::external_type_specification]
#[verifier::external_body]
pub struct ExScopeDisposer(ScopeDisposer);

/// `leptos_reactive::ReadSignal`: the reading half of a signal, carried through.
#[verifier::external_type_specification]
#[verifier::external_body]
#[verifier::reject_recursive_types(T)]
pub struct ExReadSignal<T: 'static>(ReadSignal<T>);

/// `leptos_reactive::WriteSignal`: the writing half of a signal, carried through.
#[verifier::external_type_specification]
#[verifier::external_body]
#[verifier::reject_recursive_types(T)]
pub struct ExWriteSignal<T: 'static>(WriteSignal<T>);

/// The handle of the thread's runtime, as `create_runtime` gave it.
pub struct NewRuntime {
    id: RuntimeId,
}

/// A root scope that this library opened, and whose disposer it keeps for good.
/// Nothing can reach the disposer, so the scope is never disposed of: it is
/// alive wherever a root is met. Roots are made by `open_root` alone.
pub struct Root {
    scope: Scope,
    disposer: ScopeDisposer,
}

impl Root {
    /// Every root was opened by `open_root`.
    #[verifier::type_invariant]
    spec fn opened(self) -> bool {
        root_opened(self)
    }

    /// The scope of the root. Outside this library only proofs can name it: no
    /// public function hands it out, so that no caller can dispose of it.
    pub closed spec fn scope(&self) -> Scope {
        self.scope
    }
}

/// Calls `create_runtime`, which in the client build only names the thread's
/// runtime and cannot fail.
#[verifier::external_body]
fn new_runtime() -> NewRuntime {
    NewRuntime { id: create_runtime() }
}

/// Calls `raw_scope_and_disposer`: a new root scope in the thread's runtime,
/// with its disposer. The call fails only on a runtime that is gone, which the
/// thread's runtime never is. The scope and its disposer are put, as a root,
/// where they stay for good.
#[verifier::external_body]
fn new_root(runtime: NewRuntime) -> &'static Root {
    let (scope, disposer) = raw_scope_and_disposer(runtime.id);
    Box::leak(Box::new(Root { scope, disposer }))
}

/// A call of `new_root` gave `root`.
pub closed spec fn root_opened(root: Root) -> bool {
    exists|runtime: NewRuntime| call_ensures(new_root, (runtime,), &root)
}

/// Opens a root scope in the thread's runtime. The scope is never disposed of.
pub fn open_root() -> (root: &'static Root)
    ensures
        root_opened(*root),
{
    new_root(new_runtime())
}

/// `value` is something `map_fn` may return for `item`, in some scope.
pub open spec fn made_by<T, U, M: Fn(Scope, &T) -> U>(map_fn: M, item: T, value: U) -> bool {
    exists|c: Scope| call_ensures(map_fn, (c, &item), value)
}

/// `map_fn` accepts `item` in every scope.
pub open spec fn maps<T, U, M: Fn(Scope, &T) -> U>(map_fn: M, item: T) -> bool {
    forall|c: Scope| call_requires(map_fn, (c, &item))
}

/// `map_fn` accepts each of `items` in every scope.
pub open spec fn maps_each<T, U, M: Fn(Scope, &T) -> U>(map_fn: M, items: Seq<T>) -> bool {
    forall|i: int| 0 <= i < items.len() ==> maps(map_fn, #[trigger] items[i])
}

/// Runs `map_fn` on `item` in the scope `cx`.
pub(crate) fn map_in<T, U, M: Fn(Scope, &T) -> U>(map_fn: &M, cx: Scope, item: &T) -> (value: U)
    requires
        call_requires(*map_fn, (cx, item)),
    ensures
        call_ensures(*map_fn, (cx, item), value),
{
    map_fn(cx, item)
}

/// Calls `Scope::run_child_scope`: opens a child of the root `cx`, runs `map_fn`
/// on `item` inside it once, and hands back what `map_fn` returned with the
/// child's disposer. Trusted: that the value is `map_fn`'s own result for `item`.
/// The runtime panics where the parent was disposed of and another scope has
/// taken its place; a root is never disposed of.
#[verifier::external_body]
fn open_child<T, U, M: Fn(Scope, &T) -> U>(cx: &Root, map_fn: &M, item: &T) -> (r: (
    U,
    ScopeDisposer,
))
    requires
        root_opened(*cx),
        maps(*map_fn, *item),
    ensures
        made_by(*map_fn, *item, r.0),
{
    cx.scope.run_child_scope(|child| map_in(map_fn, child, item))
}

/// A call of `open_child` under `cx` gave `value` for `item`, in a scope that
/// `scope` disposes of.
pub closed spec fn child_opened<T, U, M: Fn(Scope, &T) -> U>(
    cx: Root,
    map_fn: M,
    item: T,
    value: U,
    scope: ScopeDisposer,
) -> bool {
    call_ensures(open_child::<T, U, M>, (&cx, &map_fn, &item), (value, scope))
}

/// The scope of `cx`, for the one place that keeps it.
pub(crate) fn scope_of(cx: &Root) -> (scope: Scope)
    ensures
        scope == cx.scope(),
{
    cx.scope
}

/// Opens a child scope of `cx` and maps `item` in it.
pub(crate) fn open<T, U, M: Fn(Scope, &T) -> U>(cx: &Root, map_fn: &M, item: &T) -> (r: (
    U,
    ScopeDisposer,
))
    requires
        maps(*map_fn, *item),
    ensures
        made_by(*map_fn, *item, r.0),
        child_opened(*cx, *map_fn, *item, r.0, r.1),
{
    proof {
        use_type_invariant(cx);
    }
    open_child(cx, map_fn, item)
}

/// Calls `ScopeDisposer::dispose`, which runs the scope's cleanups and frees what
/// it owns. Nothing is claimed of the runtime afterwards.
#[verifier::external_body]
fn dispose_scope(scope: ScopeDisposer) {
    scope.dispose()
}

/// A call of `dispose_scope` disposed of the scope of `scope`.
pub closed spec fn scope_disposed(scope: ScopeDisposer) -> bool {
    call_ensures(dispose_scope, (scope,), ())
}

/// Disposes of the scope of `scope`.
pub(crate) fn dispose(scope: ScopeDisposer)
    ensures
        scope_disposed(scope),
{
    dispose_scope(scope)
}

/// Disposes of every scope of `scopes`, first to last: the list is turned over,
/// and then emptied from its end.
pub(crate) fn dispose_all(scopes: Vec<ScopeDisposer>)
    ensures
        forall|i: int| 0 <= i < scopes.len() ==> scope_disposed(#[trigger] scopes[i]),
{
    let ghost all = scopes@;
    let mut rest = scopes;
    let mut stack: Vec<ScopeDisposer> = Vec::with_capacity(rest.len());
    while rest.len() > 0
        invariant
            rest.len() + stack.len() == all.len(),
            forall|k: int| 0 <= k < rest.len() ==> rest[k] == all[k],
            forall|k: int| 0 <= k < stack.len() ==> #[trigger] stack[k] == all[all.len() - 1 - k],
        decreases rest.len(),
    {
        match rest.pop() {
            Some(scope) => stack.push(scope),
            None => {},
        }
    }
    while stack.len() > 0
        invariant
            stack.len() <= all.len(),
            forall|k: int| 0 <= k < stack.len() ==> #[trigger] stack[k] == all[all.len() - 1 - k],
            forall|i: int| 0 <= i < all.len() - stack.len() ==> scope_disposed(#[trigger] all[i]),
        decreases stack.len(),
    {
        match stack.pop() {
            Some(scope) => dispose(scope),
            None => {},
        }
    }
}

/// Calls `queue_microtask` with a task that disposes `scopes`, first to last.
/// Compiled for the browser, the runtime queues the task behind the current
/// one, and panics where there is no window to queue it with; compiled for any
/// other target, it runs the task before it returns.
#[verifier::external_body]
fn defer_dispose(scopes: Vec<ScopeDisposer>) {
    queue_microtask(move || dispose_all(scopes))
}

/// A call of `defer_dispose` handed `scopes` to the runtime's queue.
pub closed spec fn handed_over(scopes: Vec<ScopeDisposer>) -> bool {
    call_ensures(defer_dispose, (scopes,), ())
}

/// Hands `scopes` to the runtime's queue, to be disposed of first to last.
pub(crate) fn hand_over(scopes: Vec<ScopeDisposer>)
    ensures
        handed_over(scopes),
{
    defer_dispose(scopes)
}

/// Calls `create_signal`: a new signal owned by the root `cx` that starts at
/// `value`, as its reading and its writing half. The call fails only on a
/// runtime that is gone, which the thread's runtime never is.
#[verifier::external_body]
fn new_signal<V>(cx: &Root, value: V) -> (halves: (ReadSignal<V>, WriteSignal<V>))
    requires
        root_opened(*cx),
{
    create_signal(cx.scope, value)
}

/// A call of `new_signal` under `cx` with `start` gave the halves `read` and
/// `write`.
pub closed spec fn signal_made<V>(
    cx: Root,
    start: V,
    read: ReadSignal<V>,
    write: WriteSignal<V>,
) -> bool {
    call_ensures(new_signal::<V>, (&cx, start), (read, write))
}

/// Makes a signal under `cx` that starts at `value`.
pub(crate) fn make_signal<V>(cx: &Root, value: V) -> (halves: (ReadSignal<V>, WriteSignal<V>))
    ensures
        signal_made(*cx, value, halves.0, halves.1),
{
    proof {
        use_type_invariant(cx);
    }
    new_signal(cx, value)
}

/// Calls `SignalSet::set` on a `WriteSignal`: the signal takes `value` and its
/// subscribers are told. On a signal that is gone the runtime warns and does
/// nothing.
#[verifier::external_body]
fn set_signal<V>(signal: &WriteSignal<V>, value: V) {
    signal.set(value)
}

/// A call of `set_signal` handed `value` to `signal`.
pub closed spec fn wrote<V>(signal: WriteSignal<V>, value: V) -> bool {
    call_ensures(set_signal::<V>, (&signal, value), ())
}

/// Writes `value` to `signal`.
pub(crate) fn write_signal<V>(signal: &WriteSignal<V>, value: V)
    ensures
        wrote(*signal, value),
{
    set_signal(signal, value)
}

/// Calls `SignalGet::try_get` on a `ReadSignal`: a copy of the signal's value now,
/// or `None` where the signal or its runtime is gone. The value is whatever was
/// last written, which this library cannot know.
#[verifier::external_body]
fn read_signal<V: Clone>(signal: &ReadSignal<V>) -> (value: Option<V>) {
    signal.try_get()
}

/// A call of `read_signal` on `signal` gave `value`.
pub closed spec fn read_gave<V: Clone>(signal: ReadSignal<V>, value: Option<V>) -> bool {
    call_ensures(read_signal::<V>, (&signal,), value)
}

/// Reads `signal`.
pub(crate) fn read<V: Clone>(signal: &ReadSignal<V>) -> (value: Option<V>)
    ensures
        read_gave(*signal, value),
{
    read_signal(signal)
}

/// Calls `create_effect` under the root of `pass`, with an effect that runs
/// `pass` on what the runtime hands in: `None` at once, and then, whenever a
/// signal that a run has read changes, what the run before returned. So a run
/// must accept `None` and whatever a run has returned. The call fails only on a
/// runtime that is gone, which the thread's runtime never is.
#[verifier::external_body]
fn run_pass<T, U, K, L, M, F>(pass: Pass<U, L, M, F>) where
    T: PartialEq + 'static,
    U: Clone + 'static,
    K: Eq + Hash,
    L: Fn() -> Vec<T> + 'static,
    M: Fn(Scope, &T) -> U + 'static,
    F: Fn(&T) -> K + 'static,

    requires
        root_opened(*pass.cx),
        call_requires(Pass::<U, L, M, F>::run, (&pass, None::<KeyedList<T, U>>)),
        forall|prev: Option<KeyedList<T, U>>, next: KeyedList<T, U>| #[trigger]
            call_ensures(Pass::<U, L, M, F>::run, (&pass, prev), next) ==> call_requires(
                Pass::<U, L, M, F>::run,
                (&pass, Some(next)),
            ),
{
    create_effect(pass.cx.scope, move |prev| pass.run(prev))
}

/// A call of `run_pass` registered `pass` as an effect.
pub closed spec fn pass_registered<T, U, K, L, M, F>(pass: Pass<U, L, M, F>) -> bool where
    T: PartialEq + 'static,
    U: Clone + 'static,
    K: Eq + Hash,
    L: Fn() -> Vec<T> + 'static,
    M: Fn(Scope, &T) -> U + 'static,
    F: Fn(&T) -> K + 'static,
 {
    call_ensures(run_pass::<T, U, K, L, M, F>, (pass,), ())
}

/// Registers `pass` as an effect under its root: it runs once at once, and
/// again whenever a signal that it read changes.
pub(crate) fn register<T, U, K, L, M, F>(pass: Pass<U, L, M, F>) where
    T: PartialEq + 'static,
    U: Clone + 'static,
    K: Eq + Hash,
    L: Fn() -> Vec<T> + 'static,
    M: Fn(Scope, &T) -> U + 'static,
    F: Fn(&T) -> K + 'static,

    requires
        pass.ready(),
    ensures
        pass_registered(pass),
{
    proof {
        use_type_invariant(pass.cx);
    }
    run_pass(pass)
}

} // verus!
