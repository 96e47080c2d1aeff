//! What holds of every pass, proved from the contract of `reconcile`.

use vstd::prelude::*;
use vstd::std_specs::cmp::PartialEqSpec;
use leptos_reactive::{Scope, ScopeDisposer};
use crate::keyed::{reconciled, KeyedList};
use crate::ledger::{closed_all, opened_all, ScopeEvent};
use crate::matching::{
    common_prefix, common_suffix, distinct, ends_agree, equal_items_share_key, feeds,
    is_common_prefix, is_common_suffix, key_of, keys_of, lemma_absent_key_removed,
    lemma_common_prefix_exists, lemma_common_prefix_is, lemma_common_suffix_exists,
    lemma_common_suffix_is, lemma_feeds_by_key, lemma_first_occurrence,
    lemma_matched_one_source, lemma_matched_one_target, lemma_occurrences_distinct,
    lemma_occurrences_found, lemma_pick_none, lemma_pick_places, lemma_rank_below_count,
    lemma_removed_key_absent, matched, occurrences, pick, rank, removed, reused, tally,
};
use crate::scope::{handed_over, made_by, scope_disposed};

verus! {

/// A key that the old and the new list both hold keeps its row: the mapped
/// element and the scope at the key's new place are those that stood at its
/// old place, wherever the key has moved.
pub proof fn law_identity_preserved<T: PartialEq, U, K, M: Fn(Scope, &T) -> U, F: Fn(&T) -> K>(
    before: KeyedList<T, U>,
    after: KeyedList<T, U>,
    b: Seq<T>,
    map_fn: M,
    key_fn: F,
    i: int,
    j: int,
)
    requires
        before.wf(),
        reconciled(before, after, b, map_fn, key_fn),
        distinct(keys_of(key_fn, before.items())),
        distinct(keys_of(key_fn, b)),
        equal_items_share_key::<T, K, F>(key_fn),
        0 <= i < before.items().len(),
        0 <= j < b.len(),
        key_of(key_fn, before.items()[i]) == key_of(key_fn, b[j]),
    ensures
        after.rows()[j] == before.rows()[i],
        after.outputs()[j] == before.outputs()[i],
        after.scopes()[j] == before.scopes()[i],
{
    before.lemma_rows_align();
    lemma_feeds_by_key(before.items(), b, key_fn, i, j);
}

/// The scope of every row whose key the new list no longer holds is disposed
/// of by the pass, once. Where the new list is empty, all old scopes form the
/// one batch that is handed to the runtime's queue for disposal. Otherwise the
/// pass disposes of the scopes of the removed rows, one for each such row, in
/// the order of the rows, before it opens any; a row whose key is gone is
/// removed, its scope was handed to the runtime for disposal, and in the record
/// it is the one disposed of behind those of the removed rows before it.
pub proof fn law_removed_scopes_disposed<T: PartialEq, U, K, M: Fn(Scope, &T) -> U, F: Fn(&T) -> K>(
    before: KeyedList<T, U>,
    after: KeyedList<T, U>,
    b: Seq<T>,
    map_fn: M,
    key_fn: F,
    i: int,
)
    requires
        before.wf(),
        reconciled(before, after, b, map_fn, key_fn),
        equal_items_share_key::<T, K, F>(key_fn),
        0 <= i < before.items().len(),
        forall|j: int|
            0 <= j < b.len() ==> key_of(key_fn, before.items()[i]) != key_of(key_fn, #[trigger] b[j]),
    ensures
        ({
            let a = before.items();
            let ka = keys_of(key_fn, a);
            let kb = keys_of(key_fn, b);
            let gone = |t: int| removed(a, b, ka, kb, t);
            let closed = pick(before.scopes(), gone, 0, a.len() as int);
            let opened = pick(after.scopes(), |j: int| !reused(a, b, ka, kb, j), 0, b.len() as int);
            if b.len() == 0 {
                &&& after.ledger().history() == before.ledger().history().push(
                    ScopeEvent::Deferred(before.scopes()),
                )
                &&& before.scopes().len() == a.len()
                &&& exists|batch: Vec<ScopeDisposer>|
                    batch@ == before.scopes() && #[trigger] handed_over(batch)
            } else {
                &&& after.ledger().history() == before.ledger().history() + closed_all(closed)
                    + opened_all(opened)
                &&& closed.len() == tally(gone, 0, a.len() as int)
                &&& gone(i)
                &&& scope_disposed(before.scopes()[i])
                &&& tally(gone, 0, i) < closed.len()
                &&& closed[tally(gone, 0, i) as int] == before.scopes()[i]
            }
        }),
{
    before.lemma_rows_align();
    let a = before.items();
    let ka = keys_of(key_fn, a);
    let kb = keys_of(key_fn, b);
    let gone = |t: int| removed(a, b, ka, kb, t);
    if b.len() > 0 {
        lemma_pick_places(before.scopes(), gone, 0, a.len() as int);
        lemma_absent_key_removed(a, b, key_fn, i);
        let closed = pick(before.scopes(), gone, 0, a.len() as int);
        let opened = pick(after.scopes(), |j: int| !reused(a, b, ka, kb, j), 0, b.len() as int);
        assert(after.ledger().history() == before.ledger().history() + closed_all(closed)
            + opened_all(opened));
        assert(gone(i));
        assert(closed.len() == tally(gone, 0, a.len() as int));
        assert(tally(gone, 0, i) < closed.len());
        assert(closed[tally(gone, 0, i) as int] == before.scopes()[i]);
    }
}

/// No scope is disposed for a key that stays: where no key occurs twice in the
/// old list, a row that the pass removes holds a key that the new list does not
/// hold.
pub proof fn law_kept_keys_not_disposed<T: PartialEq, U, K, M: Fn(Scope, &T) -> U, F: Fn(&T) -> K>(
    before: KeyedList<T, U>,
    after: KeyedList<T, U>,
    b: Seq<T>,
    map_fn: M,
    key_fn: F,
    i: int,
    j: int,
)
    requires
        before.wf(),
        reconciled(before, after, b, map_fn, key_fn),
        distinct(keys_of(key_fn, before.items())),
        equal_items_share_key::<T, K, F>(key_fn),
        0 <= i < before.items().len(),
        0 <= j < b.len(),
        key_of(key_fn, before.items()[i]) == key_of(key_fn, b[j]),
    ensures
        !removed(before.items(), b, keys_of(key_fn, before.items()), keys_of(key_fn, b), i),
{
    let a = before.items();
    if removed(a, b, keys_of(key_fn, a), keys_of(key_fn, b), i) {
        lemma_removed_key_absent(a, b, key_fn, i, j);
    }
}

/// A pass over a list that is, element for element, the old one opens no scope
/// and disposes none, and leaves every row where it was. (For a list without
/// items, the batch handed over for disposal is empty.)
pub proof fn law_same_list_changes_nothing<T: PartialEq, U, K, M: Fn(Scope, &T) -> U, F: Fn(&T) -> K>(
    before: KeyedList<T, U>,
    after: KeyedList<T, U>,
    b: Seq<T>,
    map_fn: M,
    key_fn: F,
)
    requires
        before.wf(),
        reconciled(before, after, b, map_fn, key_fn),
        b.len() == before.items().len(),
        forall|i: int| 0 <= i < b.len() ==> #[trigger] before.items()[i].eq_spec(&b[i]),
    ensures
        after.rows() == before.rows(),
        b.len() > 0 ==> after.ledger().history() == before.ledger().history(),
        b.len() == 0 ==> after.ledger().history() == before.ledger().history().push(
            ScopeEvent::Deferred(Seq::<ScopeDisposer>::empty()),
        ),
{
    before.lemma_rows_align();
    let a = before.items();
    let ka = keys_of(key_fn, a);
    let kb = keys_of(key_fn, b);
    let n = a.len() as int;
    assert(is_common_prefix(a, b, n));
    lemma_common_prefix_is(a, b, n);
    assert(is_common_suffix(a, b, n, 0));
    lemma_common_suffix_is(a, b, n, 0);
    assert forall|j: int| 0 <= j < n implies after.rows()[j] == before.rows()[j] by {
        assert(feeds(a, b, ka, kb, j, j));
    }
    assert(after.rows() =~= before.rows());
    if n > 0 {
        assert forall|j: int| 0 <= j < n implies reused(a, b, ka, kb, j) by {
            assert(feeds(a, b, ka, kb, j, j));
        }
        lemma_pick_none(before.scopes(), |i: int| removed(a, b, ka, kb, i), 0, n);
        lemma_pick_none(after.scopes(), |j: int| !reused(a, b, ka, kb, j), 0, n);
        assert(after.ledger().history() =~= before.ledger().history());
    } else {
        assert(before.scopes() =~= Seq::<ScopeDisposer>::empty());
    }
}

/// Every row goes one way: an old row feeds at most one new position, a new
/// position is fed by at most one old row, and a row that feeds a position is not
/// removed, so that no scope is both kept and disposed, or kept twice.
pub proof fn law_each_row_goes_one_way<T: PartialEq, K>(
    a: Seq<T>,
    b: Seq<T>,
    ka: Seq<K>,
    kb: Seq<K>,
    i: int,
    j: int,
    other_i: int,
    other_j: int,
)
    requires
        feeds(a, b, ka, kb, i, j),
    ensures
        feeds(a, b, ka, kb, other_i, j) ==> other_i == i,
        feeds(a, b, ka, kb, i, other_j) ==> other_j == j,
        !removed(a, b, ka, kb, i),
{
    lemma_common_prefix_exists(a, b);
    let p = common_prefix(a, b);
    lemma_common_suffix_exists(a, b, p);
    let s = common_suffix(a, b, p);
    let hx = a.len() - s;
    let hy = b.len() - s;
    if p <= j < hy {
        assert(matched(ka, kb, p, hx, hy, i, j));
        if feeds(a, b, ka, kb, other_i, j) {
            lemma_matched_one_source(ka, kb, p, hx, hy, i, other_i, j);
        }
        if feeds(a, b, ka, kb, i, other_j) {
            assert(p <= other_j < hy);
            lemma_matched_one_target(ka, kb, p, hx, hy, i, j, other_j);
        }
        lemma_occurrences_found(kb, ka[i], p, hy);
    }
}

/// No row is lost: where no key occurs twice in the old list, every old row
/// either feeds a new position or is removed, so that its scope is kept or
/// disposed and none is left behind.
pub proof fn law_no_row_is_lost<T: PartialEq, K>(
    a: Seq<T>,
    b: Seq<T>,
    ka: Seq<K>,
    kb: Seq<K>,
    i: int,
)
    requires
        ka.len() == a.len(),
        kb.len() == b.len(),
        distinct(ka),
        0 <= i < a.len(),
    ensures
        removed(a, b, ka, kb, i) || exists|j: int| feeds(a, b, ka, kb, i, j),
{
    lemma_common_prefix_exists(a, b);
    let p = common_prefix(a, b);
    lemma_common_suffix_exists(a, b, p);
    let s = common_suffix(a, b, p);
    let hx = a.len() - s;
    let hy = b.len() - s;
    if i < p {
        assert(feeds(a, b, ka, kb, i, i));
    } else if i >= hx {
        assert(feeds(a, b, ka, kb, i, i - a.len() + b.len()));
    } else if occurrences(kb, ka[i], p, hy) > 0 {
        lemma_first_occurrence(kb, ka[i], p, hy);
        let j = choose|j: int| p <= j < hy && kb[j] == ka[i] && #[trigger] rank(kb, p, j) == 0;
        lemma_occurrences_distinct(ka, ka[i], p, hx);
        lemma_rank_below_count(ka, p, hx, i);
        lemma_rank_below_count(kb, p, hy, j);
        assert(matched(ka, kb, p, hx, hy, i, j));
        assert(feeds(a, b, ka, kb, i, j));
    }
}

/// Rows are made for new keys only: where no key occurs twice on either side
/// and equal elements share their key, a new position gets a fresh row exactly
/// when the old list does not hold its key.
pub proof fn law_new_rows_for_new_keys<T: PartialEq, K, F: Fn(&T) -> K>(
    a: Seq<T>,
    b: Seq<T>,
    key_fn: F,
    j: int,
)
    requires
        distinct(keys_of(key_fn, a)),
        distinct(keys_of(key_fn, b)),
        equal_items_share_key::<T, K, F>(key_fn),
        0 <= j < b.len(),
    ensures
        !reused(a, b, keys_of(key_fn, a), keys_of(key_fn, b), j) <==> forall|i: int|
            0 <= i < a.len() ==> key_of(key_fn, #[trigger] a[i]) != key_of(key_fn, b[j]),
{
    let ka = keys_of(key_fn, a);
    let kb = keys_of(key_fn, b);
    if reused(a, b, ka, kb, j) {
        let i = choose|i: int| feeds(a, b, ka, kb, i, j);
        lemma_feeds_by_key(a, b, key_fn, i, j);
        assert(key_of(key_fn, a[i]) == key_of(key_fn, b[j]));
    } else {
        assert forall|i: int| 0 <= i < a.len() implies key_of(key_fn, #[trigger] a[i]) != key_of(
            key_fn,
            b[j],
        ) by {
            lemma_feeds_by_key(a, b, key_fn, i, j);
        }
    }
}

/// A row that is kept stays with its key: where equal elements share their key,
/// the new position that an old row feeds holds the key that the row was made
/// for.
pub proof fn law_kept_row_keeps_key<T: PartialEq, K, F: Fn(&T) -> K>(
    a: Seq<T>,
    b: Seq<T>,
    key_fn: F,
    i: int,
    j: int,
)
    requires
        equal_items_share_key::<T, K, F>(key_fn),
        feeds(a, b, keys_of(key_fn, a), keys_of(key_fn, b), i, j),
    ensures
        key_of(key_fn, a[i]) == key_of(key_fn, b[j]),
{
    let ka = keys_of(key_fn, a);
    let kb = keys_of(key_fn, b);
    lemma_common_prefix_exists(a, b);
    let p = common_prefix(a, b);
    lemma_common_suffix_exists(a, b, p);
    let s = common_suffix(a, b, p);
    if j < p {
        assert(a[j].eq_spec(&b[j]));
    } else if j >= b.len() - s {
        assert(ends_agree(a, b, b.len() - 1 - j));
    } else {
        assert(matched(ka, kb, p, a.len() - s, b.len() - s, i, j));
    }
}

/// After a pass the list holds one mapped element and one scope for each new
/// item and none beyond, however long the old list was.
pub proof fn law_length_follows_input<T: PartialEq, U, K, M: Fn(Scope, &T) -> U, F: Fn(&T) -> K>(
    before: KeyedList<T, U>,
    after: KeyedList<T, U>,
    b: Seq<T>,
    map_fn: M,
    key_fn: F,
)
    requires
        reconciled(before, after, b, map_fn, key_fn),
    ensures
        after.items() == b,
        after.outputs().len() == b.len(),
        after.scopes().len() == b.len(),
{
}

/// `value` is something `map_fn` may return for an item that carries the key of
/// `item`.
pub open spec fn mapped_for<T, U, K, M: Fn(Scope, &T) -> U, F: Fn(&T) -> K>(
    map_fn: M,
    key_fn: F,
    item: T,
    value: U,
) -> bool {
    exists|t: T| key_of(key_fn, t) == key_of(key_fn, item) && #[trigger] made_by(map_fn, t, value)
}

/// Each mapped element of `list` stands at the place of the item whose key it
/// was mapped for.
pub open spec fn mapped_in_order<T, U, K, M: Fn(Scope, &T) -> U, F: Fn(&T) -> K>(
    list: KeyedList<T, U>,
    map_fn: M,
    key_fn: F,
) -> bool {
    forall|i: int|
        0 <= i < list.items().len() ==> mapped_for(
            map_fn,
            key_fn,
            list.items()[i],
            #[trigger] list.outputs()[i],
        )
}

/// The mapped elements follow the order of the items: where every old element
/// stood at the place of the item it was mapped for, every new one does, whether
/// its row was kept or made in this pass.
pub proof fn law_output_follows_items<T: PartialEq, U, K, M: Fn(Scope, &T) -> U, F: Fn(&T) -> K>(
    before: KeyedList<T, U>,
    after: KeyedList<T, U>,
    b: Seq<T>,
    map_fn: M,
    key_fn: F,
)
    requires
        before.wf(),
        reconciled(before, after, b, map_fn, key_fn),
        equal_items_share_key::<T, K, F>(key_fn),
        mapped_in_order(before, map_fn, key_fn),
    ensures
        mapped_in_order(after, map_fn, key_fn),
{
    before.lemma_rows_align();
    let a = before.items();
    let ka = keys_of(key_fn, a);
    let kb = keys_of(key_fn, b);
    assert forall|j: int| 0 <= j < after.items().len() implies mapped_for(
        map_fn,
        key_fn,
        after.items()[j],
        #[trigger] after.outputs()[j],
    ) by {
        if reused(a, b, ka, kb, j) {
            let i = choose|i: int| feeds(a, b, ka, kb, i, j);
            assert(feeds(a, b, ka, kb, i, j));
            law_kept_row_keeps_key(a, b, key_fn, i, j);
            assert(after.rows()[j] == before.rows()[i]);
            assert(after.outputs()[j] == before.outputs()[i]);
            assert(mapped_for(map_fn, key_fn, a[i], before.outputs()[i]));
            let t = choose|t: T|
                key_of(key_fn, t) == key_of(key_fn, a[i]) && #[trigger] made_by(
                    map_fn,
                    t,
                    before.outputs()[i],
                );
            assert(key_of(key_fn, t) == key_of(key_fn, b[j]) && made_by(
                map_fn,
                t,
                after.outputs()[j],
            ));
        } else {
            assert(made_by(map_fn, b[j], after.rows()[j].value));
            assert(key_of(key_fn, b[j]) == key_of(key_fn, b[j]) && made_by(
                map_fn,
                b[j],
                after.outputs()[j],
            ));
        }
    }
}

} // verus!
