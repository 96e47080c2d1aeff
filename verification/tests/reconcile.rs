use keyed_map::keyed::{keys_are_distinct, skip_prefix, KeyedList};
use keyed_map::scope::open_root;
use leptos_reactive::{on_cleanup, Scope};
use std::cell::{Cell, RefCell};
use std::rc::Rc;

/// What the map function did: the items it was run for, the items whose scope
/// was disposed, and the serial number that the next mapped element will carry.
#[derive(Clone, Default)]
struct Log {
    created: Rc<RefCell<Vec<char>>>,
    disposed: Rc<RefCell<Vec<char>>>,
    serial: Rc<Cell<u32>>,
}

impl Log {
    fn created(&self) -> Vec<char> {
        self.created.borrow().clone()
    }

    fn disposed(&self) -> Vec<char> {
        self.disposed.borrow().clone()
    }

    fn forget(&self) {
        self.created.borrow_mut().clear();
        self.disposed.borrow_mut().clear();
    }
}

/// Maps an item to the item with a serial number, so that a row made twice shows.
fn mapper(log: &Log) -> impl Fn(Scope, &char) -> (char, u32) {
    let log = log.clone();
    move |cx, item| {
        let item = *item;
        log.created.borrow_mut().push(item);
        let disposed = log.disposed.clone();
        on_cleanup(cx, move || disposed.borrow_mut().push(item));
        let serial = log.serial.get();
        log.serial.set(serial + 1);
        (item, serial)
    }
}

fn identity(item: &char) -> char {
    *item
}

fn chars(s: &str) -> Vec<char> {
    s.chars().collect()
}

/// A list under a fresh scope, already reconciled with `first`.
fn list_of(first: &str, log: &Log) -> KeyedList<char, (char, u32)> {
    let cx = open_root();
    let mut list = KeyedList::new(cx);
    list.reconcile(chars(first), &mapper(log), &identity);
    log.forget();
    list
}

#[test]
fn scenario_pure_append() {
    let log = Log::default();
    let mut list = list_of("abc", &log);
    list.reconcile(chars("abcd"), &mapper(&log), &identity);
    assert_eq!(list.output(), vec![('a', 0), ('b', 1), ('c', 2), ('d', 3)]);
    assert_eq!(log.disposed(), vec![]);
    assert_eq!(log.created(), vec!['d']);
}

#[test]
fn scenario_reorder() {
    let log = Log::default();
    let mut list = list_of("abc", &log);
    list.reconcile(chars("cab"), &mapper(&log), &identity);
    assert_eq!(list.output(), vec![('c', 2), ('a', 0), ('b', 1)]);
    assert_eq!(log.disposed(), vec![]);
    assert_eq!(log.created(), vec![]);
}

#[test]
fn scenario_middle_removal() {
    let log = Log::default();
    let mut list = list_of("abcd", &log);
    list.reconcile(chars("ad"), &mapper(&log), &identity);
    assert_eq!(list.output(), vec![('a', 0), ('d', 3)]);
    assert_eq!(log.disposed(), vec!['b', 'c']);
    assert_eq!(log.created(), vec![]);
}

#[test]
fn scenario_full_clear() {
    let log = Log::default();
    let mut list = list_of("abc", &log);
    list.reconcile(chars(""), &mapper(&log), &identity);
    assert_eq!(list.output(), vec![]);
    assert_eq!(list.len(), 0);
    assert_eq!(log.disposed(), vec!['a', 'b', 'c']);
    assert_eq!(log.created(), vec![]);
}

#[test]
fn new_list_is_empty() {
    let cx = open_root();
    let list: KeyedList<char, (char, u32)> = KeyedList::new(cx);
    assert_eq!(list.len(), 0);
    assert_eq!(list.output(), vec![]);
}

#[test]
fn first_pass_maps_every_item_in_order() {
    let log = Log::default();
    let cx = open_root();
    let mut list = KeyedList::new(cx);
    list.reconcile(chars("xyz"), &mapper(&log), &identity);
    assert_eq!(list.output(), vec![('x', 0), ('y', 1), ('z', 2)]);
    assert_eq!(list.len(), 3);
    assert_eq!(log.created(), vec!['x', 'y', 'z']);
    assert_eq!(log.disposed(), vec![]);
}

#[test]
fn empty_to_empty_does_nothing() {
    let log = Log::default();
    let cx = open_root();
    let mut list = KeyedList::new(cx);
    list.reconcile(chars(""), &mapper(&log), &identity);
    assert_eq!(list.output(), vec![]);
    assert_eq!(log.created(), vec![]);
    assert_eq!(log.disposed(), vec![]);
}

#[test]
fn same_list_opens_and_disposes_nothing() {
    let log = Log::default();
    let mut list = list_of("abcde", &log);
    list.reconcile(chars("abcde"), &mapper(&log), &identity);
    assert_eq!(list.output(), vec![('a', 0), ('b', 1), ('c', 2), ('d', 3), ('e', 4)]);
    assert_eq!(log.created(), vec![]);
    assert_eq!(log.disposed(), vec![]);
}

#[test]
fn shorter_list_leaves_no_row_behind() {
    let log = Log::default();
    let mut list = list_of("abcde", &log);
    list.reconcile(chars("ab"), &mapper(&log), &identity);
    assert_eq!(list.len(), 2);
    assert_eq!(list.output(), vec![('a', 0), ('b', 1)]);
    assert_eq!(log.disposed(), vec!['c', 'd', 'e']);
    // nothing is left to dispose once the two rows have gone too
    log.forget();
    list.reconcile(chars(""), &mapper(&log), &identity);
    assert_eq!(log.disposed(), vec!['a', 'b']);
}

#[test]
fn removed_keys_are_disposed_once_each() {
    let log = Log::default();
    let mut list = list_of("abcde", &log);
    list.reconcile(chars("exa"), &mapper(&log), &identity);
    assert_eq!(list.output(), vec![('e', 4), ('x', 5), ('a', 0)]);
    assert_eq!(log.disposed(), vec!['b', 'c', 'd']);
    assert_eq!(log.created(), vec!['x']);
    log.forget();
    list.reconcile(chars(""), &mapper(&log), &identity);
    assert_eq!(log.disposed(), vec!['e', 'x', 'a']);
}

#[test]
fn output_follows_the_order_of_the_new_items() {
    let log = Log::default();
    let mut list = list_of("abcd", &log);
    list.reconcile(chars("dqbpa"), &mapper(&log), &identity);
    let keys: Vec<char> = list.output().iter().map(|row| row.0).collect();
    assert_eq!(keys, chars("dqbpa"));
    assert_eq!(list.output(), vec![('d', 3), ('q', 4), ('b', 1), ('p', 5), ('a', 0)]);
    assert_eq!(log.disposed(), vec!['c']);
    assert_eq!(log.created(), vec!['q', 'p']);
}

#[test]
fn common_ends_stay_and_the_middle_is_matched() {
    let log = Log::default();
    let mut list = list_of("abcd", &log);
    list.reconcile(chars("axd"), &mapper(&log), &identity);
    assert_eq!(list.output(), vec![('a', 0), ('x', 4), ('d', 3)]);
    assert_eq!(log.disposed(), vec!['b', 'c']);
    assert_eq!(log.created(), vec!['x']);
}

#[test]
fn rows_of_a_common_suffix_move_with_it() {
    let log = Log::default();
    let mut list = list_of("ab", &log);
    list.reconcile(chars("xyab"), &mapper(&log), &identity);
    assert_eq!(list.output(), vec![('x', 2), ('y', 3), ('a', 0), ('b', 1)]);
    assert_eq!(log.disposed(), vec![]);
    assert_eq!(log.created(), vec!['x', 'y']);
}

#[test]
fn all_keys_replaced() {
    let log = Log::default();
    let mut list = list_of("abc", &log);
    list.reconcile(chars("xy"), &mapper(&log), &identity);
    assert_eq!(list.output(), vec![('x', 3), ('y', 4)]);
    assert_eq!(log.disposed(), vec!['a', 'b', 'c']);
    assert_eq!(log.created(), vec!['x', 'y']);
}

/// Items that pair a key with a payload: equal keys, different elements.
fn keyed_mapper(
    log: &Rc<RefCell<Vec<&'static str>>>,
) -> impl Fn(Scope, &(u32, &'static str)) -> &'static str {
    let log = log.clone();
    move |cx, item| {
        let payload = item.1;
        let log = log.clone();
        on_cleanup(cx, move || log.borrow_mut().push(payload));
        payload
    }
}

fn first_of(item: &(u32, &'static str)) -> u32 {
    item.0
}

#[test]
fn kept_key_keeps_its_row_when_the_element_changes() {
    let disposed = Rc::new(RefCell::new(Vec::new()));
    let cx = open_root();
    let mut list = KeyedList::new(cx);
    list.reconcile(vec![(1, "one"), (2, "two"), (3, "three")], &keyed_mapper(&disposed), &first_of);
    list.reconcile(vec![(3, "drei"), (1, "eins"), (4, "vier")], &keyed_mapper(&disposed), &first_of);
    // rows 3 and 1 are the old ones, mapped from the old elements
    assert_eq!(list.output(), vec!["three", "one", "vier"]);
    assert_eq!(*disposed.borrow(), vec!["two"]);
}

#[test]
fn repeated_new_keys_are_matched_in_order() {
    let disposed = Rc::new(RefCell::new(Vec::new()));
    let cx = open_root();
    let mut list = KeyedList::new(cx);
    list.reconcile(vec![(1, "p")], &keyed_mapper(&disposed), &first_of);
    list.reconcile(vec![(1, "a"), (1, "b")], &keyed_mapper(&disposed), &first_of);
    // the old row goes to the first place of its key, the second place is new
    assert_eq!(list.output(), vec!["p", "b"]);
    assert_eq!(*disposed.borrow(), Vec::<&str>::new());
}

#[test]
fn repeated_old_keys_pile_on_the_last_place() {
    let disposed = Rc::new(RefCell::new(Vec::new()));
    let cx = open_root();
    let mut list = KeyedList::new(cx);
    list.reconcile(vec![(1, "p"), (1, "q")], &keyed_mapper(&disposed), &first_of);
    list.reconcile(vec![(9, "z"), (1, "r")], &keyed_mapper(&disposed), &first_of);
    // the last old row of the key wins the key's only new place; none is disposed
    assert_eq!(list.output(), vec!["z", "q"]);
    assert_eq!(*disposed.borrow(), Vec::<&str>::new());
}

#[test]
fn repeated_keys_on_both_sides_pair_off() {
    let disposed = Rc::new(RefCell::new(Vec::new()));
    let cx = open_root();
    let mut list = KeyedList::new(cx);
    list.reconcile(vec![(1, "p"), (2, "m"), (1, "q"), (1, "r")], &keyed_mapper(&disposed), &first_of);
    list.reconcile(vec![(1, "a"), (1, "b"), (3, "n")], &keyed_mapper(&disposed), &first_of);
    // first with first; the last place of the key takes the last old row
    assert_eq!(list.output(), vec!["p", "r", "n"]);
    assert_eq!(*disposed.borrow(), vec!["m"]);
}

#[test]
fn skip_prefix_counts_the_equal_front() {
    assert_eq!(skip_prefix(&vec![1, 2, 3], &vec![1, 2, 4]), 2);
    assert_eq!(skip_prefix(&vec![1, 2, 3], &vec![1, 2, 3, 4]), 3);
    assert_eq!(skip_prefix(&vec![5, 2, 3], &vec![1, 2, 3]), 0);
    assert_eq!(skip_prefix(&Vec::<u8>::new(), &vec![1]), 0);
    assert_eq!(skip_prefix(&vec![7, 7], &vec![7]), 1);
}

#[test]
fn keys_are_distinct_finds_a_repeated_key() {
    assert!(keys_are_distinct(&vec![(1, "a"), (2, "b"), (3, "c")], &first_of));
    assert!(!keys_are_distinct(&vec![(1, "a"), (2, "b"), (1, "c")], &first_of));
    assert!(!keys_are_distinct(&vec![(7, "a"), (7, "a")], &first_of));
    assert!(keys_are_distinct(&vec![(7, "a")], &first_of));
    assert!(keys_are_distinct(&Vec::<(u32, &'static str)>::new(), &first_of));
}
