use keyed_map::keyed::KeyedList;
use keyed_map::scope::{open_root, Root};
use leptos_reactive::{on_cleanup, Scope};
use std::cell::{Cell, RefCell};
use std::collections::HashMap;
use std::rc::Rc;

type Item = (u8, u8);

/// The matching on plain values, step by step: for each new position the old
/// position whose row it takes, and the old positions whose scope is disposed,
/// in order.
fn model(old: &[Item], new: &[Item]) -> (Vec<Option<usize>>, Vec<usize>) {
    let mut source: Vec<Option<usize>> = vec![None; new.len()];
    let mut disposed = Vec::new();
    if new.is_empty() {
        return (source, (0..old.len()).collect());
    }
    let mut start = 0;
    while start < old.len() && start < new.len() && old[start] == new[start] {
        source[start] = Some(start);
        start += 1;
    }
    let mut end = old.len();
    let mut new_end = new.len();
    while end > start && new_end > start && old[end - 1] == new[new_end - 1] {
        end -= 1;
        new_end -= 1;
        source[new_end] = Some(end);
    }
    let mut first: HashMap<u8, usize> = HashMap::new();
    let mut next: Vec<Option<usize>> = vec![None; new_end - start];
    for j in (start..new_end).rev() {
        next[j - start] = first.get(&new[j].0).copied();
        first.insert(new[j].0, j);
    }
    for i in start..end {
        match first.get(&old[i].0).copied() {
            Some(j) => {
                source[j] = Some(i);
                if let Some(after) = next[j - start] {
                    first.insert(old[i].0, after);
                }
            }
            None => disposed.push(i),
        }
    }
    (source, disposed)
}

/// Runs one pass from `old` to `new` on a real list and holds it against the
/// model: which rows are kept, which are made, and which scopes are disposed.
fn pass_agrees_with_model(cx: &'static Root, old: &[Item], new: &[Item]) {
    let serial = Rc::new(Cell::new(0usize));
    let disposed = Rc::new(RefCell::new(Vec::new()));
    let map_fn = {
        let serial = serial.clone();
        let disposed = disposed.clone();
        move |cx: Scope, item: &Item| {
            let id = serial.get();
            serial.set(id + 1);
            let disposed = disposed.clone();
            on_cleanup(cx, move || disposed.borrow_mut().push(id));
            (*item, id)
        }
    };
    let key_fn = |item: &Item| item.0;

    let mut list = KeyedList::new(cx);
    list.reconcile(old.to_vec(), &map_fn, &key_fn);
    let before = list.output();
    assert_eq!(before.len(), old.len());
    assert_eq!(*disposed.borrow(), Vec::<usize>::new());

    let (source, gone) = model(old, new);
    list.reconcile(new.to_vec(), &map_fn, &key_fn);
    let after = list.output();
    assert_eq!(after.len(), new.len(), "{:?} -> {:?}", old, new);
    let mut fresh = old.len();
    for j in 0..new.len() {
        match source[j] {
            Some(i) => assert_eq!(after[j], before[i], "{:?} -> {:?} at {}", old, new, j),
            None => {
                assert_eq!(after[j], (new[j], fresh), "{:?} -> {:?} at {}", old, new, j);
                fresh += 1;
            }
        }
    }
    assert_eq!(serial.get(), fresh, "{:?} -> {:?}", old, new);
    assert_eq!(*disposed.borrow(), gone, "{:?} -> {:?}", old, new);

    // every scope that is still held goes when the list is emptied
    disposed.borrow_mut().clear();
    list.reconcile(Vec::new(), &map_fn, &key_fn);
    let kept: Vec<usize> = after.iter().map(|row| row.1).collect();
    assert_eq!(*disposed.borrow(), kept, "{:?} -> {:?}", old, new);
}

/// All lists of up to `len` items over two keys with two payloads each.
fn lists_up_to(len: usize) -> Vec<Vec<Item>> {
    let items: [Item; 4] = [(0, 0), (0, 1), (1, 0), (1, 1)];
    let mut all: Vec<Vec<Item>> = vec![Vec::new()];
    let mut last: Vec<Vec<Item>> = vec![Vec::new()];
    for _ in 0..len {
        let mut longer = Vec::new();
        for list in &last {
            for item in items {
                let mut list = list.clone();
                list.push(item);
                longer.push(list);
            }
        }
        all.extend(longer.iter().cloned());
        last = longer;
    }
    all
}

#[test]
fn every_short_pass_agrees_with_the_model() {
    let cx = open_root();
    let lists = lists_up_to(3);
    assert_eq!(lists.len(), 85);
    for old in &lists {
        for new in &lists {
            pass_agrees_with_model(cx, old, new);
        }
    }
}

/// A small generator of numbers that only has to be the same on every run.
fn step(state: &mut u64) -> u64 {
    *state = state.wrapping_mul(6364136223846793005).wrapping_add(1442695040888963407);
    *state >> 33
}

fn some_list(state: &mut u64, keys: u64) -> Vec<Item> {
    let len = step(state) % 9;
    (0..len).map(|_| ((step(state) % keys) as u8, (step(state) % 2) as u8)).collect()
}

#[test]
fn longer_passes_with_repeated_keys_agree_with_the_model() {
    let cx = open_root();
    let mut state = 7;
    for _ in 0..1500 {
        let old = some_list(&mut state, 4);
        let new = some_list(&mut state, 4);
        pass_agrees_with_model(cx, &old, &new);
    }
}

#[test]
fn longer_passes_with_rare_repeats_agree_with_the_model() {
    let cx = open_root();
    let mut state = 11;
    for _ in 0..1500 {
        let old = some_list(&mut state, 40);
        let new = some_list(&mut state, 40);
        pass_agrees_with_model(cx, &old, &new);
    }
}
