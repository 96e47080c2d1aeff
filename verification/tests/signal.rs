use keyed_map::map::{map_keyed, Pass};
use keyed_map::transition::{use_transition, Transition};
use keyed_map::scope::open_root;
use leptos_reactive::{
    create_runtime, create_signal, on_cleanup, raw_scope_and_disposer, SignalGet, SignalSet,
};
use std::cell::RefCell;
use std::rc::Rc;

/// A scope of the caller's own, in the thread's runtime, for the signals that
/// the lists are read from.
fn own_scope() -> leptos_reactive::Scope {
    raw_scope_and_disposer(create_runtime()).0
}

#[test]
fn map_keyed_follows_its_list() {
    let cx = open_root();
    let created = Rc::new(RefCell::new(Vec::new()));
    let disposed = Rc::new(RefCell::new(Vec::new()));
    let (list, set_list) = create_signal(own_scope(), vec![1u32, 2, 3]);
    let mapped = {
        let created = created.clone();
        let disposed = disposed.clone();
        map_keyed(
            cx,
            move || list.get(),
            move |cx, item: &u32| {
                let item = *item;
                created.borrow_mut().push(item);
                let disposed = disposed.clone();
                on_cleanup(cx, move || disposed.borrow_mut().push(item));
                item * 10
            },
            |item: &u32| *item,
        )
    };
    assert_eq!(mapped.get(), vec![10, 20, 30]);
    assert_eq!(*created.borrow(), vec![1, 2, 3]);

    set_list.set(vec![3, 1, 4]);
    assert_eq!(mapped.get(), vec![30, 10, 40]);
    assert_eq!(*created.borrow(), vec![1, 2, 3, 4]);
    assert_eq!(*disposed.borrow(), vec![2]);

    set_list.set(vec![]);
    assert_eq!(mapped.get(), Vec::<u32>::new());
    assert_eq!(*disposed.borrow(), vec![2, 3, 1, 4]);

    set_list.set(vec![7]);
    assert_eq!(mapped.get(), vec![70]);
    assert_eq!(*created.borrow(), vec![1, 2, 3, 4, 7]);

}

#[test]
fn map_keyed_of_an_empty_list_is_empty() {
    let cx = open_root();
    let mapped = map_keyed(cx, || Vec::<u8>::new(), |_cx, item: &u8| *item, |item: &u8| *item);
    assert_eq!(mapped.get(), Vec::<u8>::new());
}

#[test]
fn a_new_transition_is_not_pending() {
    let cx = open_root();
    let transition = use_transition(cx);
    assert!(!transition.pending());
    let copy = transition;
    assert!(!copy.pending());
}

#[test]
fn pending_of_takes_a_lost_signal_as_not_pending() {
    assert!(Transition::pending_of(Some(true)));
    assert!(!Transition::pending_of(Some(false)));
    assert!(!Transition::pending_of(None));
}

#[test]
fn a_pass_reconciles_and_writes_the_signal() {
    let cx = open_root();
    let (list, set_list) = create_signal(own_scope(), vec![1u32, 2, 3]);
    let (mapped, sink) = create_signal(own_scope(), vec![0u32]);
    let pass = Pass {
        cx,
        list: move || list.get(),
        map_fn: |_cx, item: &u32| *item + 100,
        key_fn: |item: &u32| *item,
        sink,
    };
    let rows = pass.run(None);
    assert_eq!(rows.len(), 3);
    assert_eq!(rows.output(), vec![101, 102, 103]);
    assert_eq!(mapped.get(), vec![101, 102, 103]);

    set_list.set(vec![3, 4]);
    let rows = pass.run(Some(rows));
    assert_eq!(rows.output(), vec![103, 104]);
    assert_eq!(mapped.get(), vec![103, 104]);

}
