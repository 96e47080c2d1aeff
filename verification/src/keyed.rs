//! The keyed list: the rows it keeps between passes, and the passes themselves.

use vstd::prelude::*;
use vstd::std_specs::cmp::PartialEqSpec;
use vstd::std_specs::hash::obeys_key_model;
use std::collections::{HashMap, HashSet};
use std::hash::Hash;
use leptos_reactive::{Scope, ScopeDisposer};
use crate::ledger::{closed_all, opened_all, ScopeEvent, ScopeLedger};
use crate::scope::{child_opened, handed_over, made_by, maps_each, scope_disposed, Root};
use crate::matching::{
    common_prefix, common_suffix, distinct, ends_agree, feeds, indexed, is_common_prefix,
    is_common_suffix, keys_each, keys_of, lemma_common_prefix_is, lemma_common_suffix_is,
    lemma_occurrences_found, lemma_occurrences_skip, lemma_pick_none, lemma_pick_same,
    lemma_common_prefix_exists, lemma_common_suffix_exists, lemma_pick_split,
    lemma_rank_below_count, lemma_rank_orders, matched, occurrences, one_key_each, pick, rank,
    removed, reused,
};

verus! {

broadcast use vstd::std_specs::hash::group_hash_axioms;

/// One row: the mapped element and the scope it was made in.
pub struct Entry<U> {
    pub value: U,
    pub scope: ScopeDisposer,
}

/// A vector of `n` empty slots.
fn empty_slots<X>(n: usize) -> (v: Vec<Option<X>>)
    ensures
        v.len() == n,
        forall|i: int| 0 <= i < n ==> v[i] is None,
{
    let mut v: Vec<Option<X>> = Vec::with_capacity(n);
    while v.len() < n
        invariant
            v.len() <= n,
            forall|i: int| 0 <= i < v.len() ==> v[i] is None,
        decreases n - v.len(),
    {
        v.push(None);
    }
    v
}

/// Tells whether no key occurs twice among `items`: what a caller has to see to
/// before a pass, and can test with this.
pub fn keys_are_distinct<T, K: Eq + Hash, F: Fn(&T) -> K>(items: &Vec<T>, key_fn: &F) -> (ok: bool)
    requires
        obeys_key_model::<K>(),
        one_key_each(*key_fn),
        keys_each(*key_fn, items@),
    ensures
        ok == distinct(keys_of(*key_fn, items@)),
{
    let ghost y = keys_of(*key_fn, items@);
    let mut seen: HashSet<K> = HashSet::with_capacity(items.len());
    let mut i: usize = 0;
    while i < items.len()
        invariant
            obeys_key_model::<K>(),
            one_key_each(*key_fn),
            keys_each(*key_fn, items@),
            y == keys_of(*key_fn, items@),
            i <= items.len(),
            forall|k: K| #[trigger] seen@.contains(k) <==> exists|t: int| 0 <= t < i && y[t] == k,
            forall|s: int, t: int| 0 <= s < t < i ==> y[s] != y[t],
        decreases items.len() - i,
    {
        let k = key_fn(&items[i]);
        assert(k == y[i as int]);
        let ghost before = seen@;
        let fresh = seen.insert(k);
        if !fresh {
            proof {
                assert(before.contains(y[i as int]));
                let t = choose|t: int| 0 <= t < i && y[t] == y[i as int];
                assert(0 <= t < i < y.len() && y[t] == y[i as int]);
            }
            return false;
        }
        proof {
            assert forall|k2: K| #[trigger] seen@.contains(k2) <==> exists|t: int|
                0 <= t < i + 1 && y[t] == k2 by {
                if seen@.contains(k2) {
                    if k2 == y[i as int] {
                        assert(0 <= i < i + 1 && y[i as int] == k2);
                    } else {
                        assert(before.contains(k2));
                        let t = choose|t: int| 0 <= t < i && y[t] == k2;
                        assert(0 <= t < i + 1 && y[t] == k2);
                    }
                }
                if exists|t: int| 0 <= t < i + 1 && y[t] == k2 {
                    let t = choose|t: int| 0 <= t < i + 1 && y[t] == k2;
                    if t < i {
                        assert(before.contains(k2));
                    }
                }
            }
            assert forall|s: int, t: int| 0 <= s < t < i + 1 implies y[s] != y[t] by {
                if t == i && y[s] == y[t] {
                    assert(before.contains(y[i as int]));
                }
            }
        }
        i += 1;
    }
    true
}

/// The length of the run of equal elements at the front of `a` and `b`.
pub fn skip_prefix<T: PartialEq>(a: &Vec<T>, b: &Vec<T>) -> (p: usize)
    requires
        T::obeys_eq_spec(),
    ensures
        p == common_prefix(a@, b@),
        is_common_prefix(a@, b@, p as int),
{
    let mut p: usize = 0;
    while p < a.len() && p < b.len() && a[p] == b[p]
        invariant
            T::obeys_eq_spec(),
            p <= a.len(),
            p <= b.len(),
            forall|i: int| 0 <= i < p ==> #[trigger] a@[i].eq_spec(&b@[i]),
        decreases a.len() - p,
    {
        p += 1;
    }
    proof {
        lemma_common_prefix_is(a@, b@, p as int);
    }
    p
}

/// Moves the rows of the common suffix from `slots` to their new places in
/// `staged`, and returns the length of that suffix.
fn carry_suffix<T: PartialEq, U>(
    a: &Vec<T>,
    b: &Vec<T>,
    start: usize,
    slots: &mut Vec<Option<Entry<U>>>,
    staged: &mut Vec<Option<Entry<U>>>,
) -> (s: usize)
    requires
        T::obeys_eq_spec(),
        start <= a.len(),
        start <= b.len(),
        old(slots).len() == a.len(),
        old(staged).len() == b.len(),
    ensures
        s == common_suffix(a@, b@, start as int),
        is_common_suffix(a@, b@, start as int, s as int),
        final(slots).len() == a.len(),
        final(staged).len() == b.len(),
        forall|i: int| 0 <= i < a.len() - s ==> final(slots)[i] == old(slots)[i],
        forall|i: int| a.len() - s <= i < a.len() ==> final(slots)[i] is None,
        forall|j: int| 0 <= j < b.len() - s ==> final(staged)[j] == old(staged)[j],
        forall|j: int|
            b.len() - s <= j < b.len() ==> #[trigger] final(staged)[j] == old(slots)[j - b.len()
                + a.len()],
{
    let mut end = a.len();
    let mut new_end = b.len();
    while end > start && new_end > start && a[end - 1] == b[new_end - 1]
        invariant
            T::obeys_eq_spec(),
            start <= end <= a.len(),
            start <= new_end <= b.len(),
            a.len() - end == b.len() - new_end,
            slots.len() == a.len(),
            staged.len() == b.len(),
            forall|t: int| 0 <= t < a.len() - end ==> #[trigger] ends_agree(a@, b@, t),
            forall|i: int| 0 <= i < end ==> slots[i] == old(slots)[i],
            forall|i: int| end <= i < a.len() ==> slots[i] is None,
            forall|j: int| 0 <= j < new_end ==> staged[j] == old(staged)[j],
            forall|j: int|
                new_end <= j < b.len() ==> #[trigger] staged[j] == old(slots)[j - b.len()
                    + a.len()],
        decreases end,
    {
        proof {
            assert(ends_agree(a@, b@, a.len() - end));
        }
        end -= 1;
        new_end -= 1;
        let row = slots[end].take();
        staged[new_end] = row;
    }
    let s = a.len() - end;
    proof {
        lemma_common_suffix_is(a@, b@, start as int, s as int);
    }
    s
}

/// Indexes the window `[lo, hi)` of `b` by key, scanning from its end: the first
/// position of each key, and for each position the next one with the same key.
fn index_keys<T, K: Eq + Hash, F: Fn(&T) -> K>(b: &Vec<T>, key_fn: &F, lo: usize, hi: usize) -> (r: (
    HashMap<K, usize>,
    Vec<Option<usize>>,
))
    requires
        lo <= hi <= b.len(),
        obeys_key_model::<K>(),
        one_key_each(*key_fn),
        keys_each(*key_fn, b@),
    ensures
        indexed(keys_of(*key_fn, b@), lo as int, hi as int, r.0@, r.1@),
{
    let ghost y = keys_of(*key_fn, b@);
    let mut first: HashMap<K, usize> = HashMap::with_capacity(hi - lo);
    let mut next: Vec<Option<usize>> = empty_slots(hi - lo);
    let mut j = hi;
    while j > lo
        invariant
            lo <= j <= hi <= b.len(),
            obeys_key_model::<K>(),
            one_key_each(*key_fn),
            keys_each(*key_fn, b@),
            y == keys_of(*key_fn, b@),
            next.len() == hi - lo,
            forall|k: K| #[trigger]
                first@.contains_key(k) <==> exists|t: int| j <= t < hi && y[t] == k,
            forall|k: K| #[trigger]
                first@.contains_key(k) ==> j <= first@[k] < hi && y[first@[k] as int] == k
                    && forall|t: int| j <= t < first@[k] ==> y[t] != k,
            forall|t: int|
                j <= t < hi ==> match #[trigger] next[t - lo] {
                    Some(t2) => t < t2 < hi && y[t2 as int] == y[t] && forall|u: int|
                        t < u < t2 ==> y[u] != y[t],
                    None => forall|u: int| t < u < hi ==> y[u] != y[t],
                },
        decreases j,
    {
        j -= 1;
        let k = key_fn(&b[j]);
        assert(k == y[j as int]);
        let seen: Option<usize> = match first.get(&k) {
            Some(t) => Some(*t),
            None => None,
        };
        let ghost before = first@;
        let ghost next_before = next@;
        next[j - lo] = seen;
        first.insert(k, j);
        proof {
            assert forall|k2: K| #[trigger]
                first@.contains_key(k2) <==> exists|t: int| j <= t < hi && y[t] == k2 by {
                if first@.contains_key(k2) {
                    if k2 == k {
                        assert(j <= j < hi && y[j as int] == k2);
                    } else {
                        assert(before.contains_key(k2));
                        let t = choose|t: int| j + 1 <= t < hi && y[t] == k2;
                        assert(j <= t < hi && y[t] == k2);
                    }
                }
                if exists|t: int| j <= t < hi && y[t] == k2 {
                    let t = choose|t: int| j <= t < hi && y[t] == k2;
                    if k2 != k {
                        assert(j + 1 <= t < hi && y[t] == k2);
                        assert(before.contains_key(k2));
                    }
                }
            }
            assert forall|t: int| j <= t < hi implies match #[trigger] next[t - lo] {
                Some(t2) => t < t2 < hi && y[t2 as int] == y[t] && forall|u: int|
                    t < u < t2 ==> y[u] != y[t],
                None => forall|u: int| t < u < hi ==> y[u] != y[t],
            } by {
                if t == j {
                    if before.contains_key(k) {
                    } else {
                        assert forall|u: int| t < u < hi implies y[u] != y[t] by {
                            if y[u] == k {
                                assert(j + 1 <= u < hi && y[u] == k);
                            }
                        }
                    }
                } else {
                    assert(next[t - lo] == next_before[t - lo]);
                }
            }
        }
    }
    proof {
        assert forall|k: K| #[trigger]
            first@.contains_key(k) <==> occurrences(y, k, lo as int, hi as int) > 0 by {
            lemma_occurrences_found(y, k, lo as int, hi as int);
        }
        assert forall|k: K| #[trigger] first@.contains_key(k) implies lo <= first@[k] < hi
            && y[first@[k] as int] == k && rank(y, lo as int, first@[k] as int) == 0 by {
            lemma_occurrences_skip(y, k, lo as int, lo as int, first@[k] as int);
        }
        assert forall|t: int| lo <= t < hi implies match #[trigger] next[t - lo] {
            Some(t2) => t < t2 < hi && y[t2 as int] == y[t] && rank(y, lo as int, t2 as int)
                == rank(y, lo as int, t) + 1,
            None => rank(y, lo as int, t) + 1 == occurrences(y, y[t], lo as int, hi as int),
        } by {
            match next[t - lo] {
                Some(t2) => {
                    lemma_occurrences_skip(y, y[t], lo as int, t + 1, t2 as int);
                },
                None => {
                    lemma_occurrences_skip(y, y[t], lo as int, t + 1, hi as int);
                },
            }
        }
    }
    (first, next)
}

/// The scopes held in `slots`, position by position.
pub open spec fn scopes_of<U>(slots: Seq<Option<Entry<U>>>) -> Seq<ScopeDisposer> {
    Seq::new(slots.len(), |i: int| slots[i].unwrap().scope)
}

/// What slot `j` of the staging holds once the old positions `[lo, i)` have been
/// matched: `from` is the old position whose row lies there, if any.
pub open spec fn staged_from<K>(x: Seq<K>, y: Seq<K>, lo: int, hy: int, i: int, j: int, from: Option<
    int,
>) -> bool {
    let k = y[j];
    let r = rank(y, lo, j);
    let total = occurrences(y, k, lo, hy);
    let seen = occurrences(x, k, lo, i);
    &&& from is Some <==> (if r + 1 < total {
        r < seen
    } else {
        seen >= total
    })
    &&& from matches Some(f) ==> lo <= f < i && x[f] == k && rank(x, lo, f) == (if r + 1 < total {
        r as int
    } else {
        seen - 1
    })
}

/// Steps through the old window `[lo, hx)`: a row whose key the new window
/// `[lo, hy)` holds moves to the staging slot that the index names, and the index
/// advances to the key's next position where there is one; a row whose key is
/// gone has its scope disposed.
fn match_pass<T, U, K: Eq + Hash, F: Fn(&T) -> K>(
    a: &Vec<T>,
    key_fn: &F,
    lo: usize,
    hx: usize,
    hy: usize,
    first: HashMap<K, usize>,
    next: &Vec<Option<usize>>,
    slots: &mut Vec<Option<Entry<U>>>,
    staged: &mut Vec<Option<Entry<U>>>,
    ledger: &mut ScopeLedger,
    Ghost(y): Ghost<Seq<K>>,
)
    requires
        obeys_key_model::<K>(),
        one_key_each(*key_fn),
        keys_each(*key_fn, a@),
        lo <= hx <= a.len(),
        old(slots).len() == a.len(),
        lo <= hy <= old(staged).len(),
        hy <= y.len(),
        indexed(y, lo as int, hy as int, first@, next@),
        forall|t: int| lo <= t < hx ==> old(slots)[t] is Some,
        forall|j: int| lo <= j < hy ==> old(staged)[j] is None,
    ensures
        final(slots).len() == a.len(),
        final(staged).len() == old(staged).len(),
        forall|t: int| lo <= t < hx ==> final(slots)[t] is None,
        forall|t: int| 0 <= t < a.len() && !(lo <= t < hx) ==> final(slots)[t] == old(slots)[t],
        forall|j: int|
            0 <= j < old(staged).len() && !(lo <= j < hy) ==> final(staged)[j] == old(staged)[j],
        forall|i: int, j: int| #[trigger]
            matched(keys_of(*key_fn, a@), y, lo as int, hx as int, hy as int, i, j)
                ==> final(staged)[j] == old(slots)[i],
        forall|j: int|
            lo <= j < hy && (#[trigger] final(staged)[j]) is Some ==> exists|i: int| #[trigger]
                matched(keys_of(*key_fn, a@), y, lo as int, hx as int, hy as int, i, j),
        final(ledger).history() == old(ledger).history() + closed_all(
            pick(
                scopes_of(old(slots)@),
                |i: int| occurrences(y, keys_of(*key_fn, a@)[i], lo as int, hy as int) == 0,
                lo as int,
                hx as int,
            ),
        ),
        forall|i: int|
            lo <= i < hx && occurrences(y, keys_of(*key_fn, a@)[i], lo as int, hy as int) == 0
                ==> scope_disposed(#[trigger] scopes_of(old(slots)@)[i]),
        final(ledger).parent() == old(ledger).parent(),
{
    let ghost x = keys_of(*key_fn, a@);
    let ghost slots0 = slots@;
    let ghost staged0 = staged@;
    let ghost history0 = ledger.history();
    let ghost gone = |i: int| occurrences(y, x[i], lo as int, hy as int) == 0;
    let ghost mut src: Seq<Option<int>> = Seq::new(staged@.len(), |j: int| None);
    let mut first = first;
    let mut i = lo;
    proof {
        assert forall|j: int| lo <= j < hy implies staged_from(
            x,
            y,
            lo as int,
            hy as int,
            lo as int,
            j,
            #[trigger] src[j],
        ) by {
            lemma_rank_below_count(y, lo as int, hy as int, j);
        }
        assert(history0 + closed_all(pick(scopes_of(slots0), gone, lo as int, lo as int))
            =~= history0);
    }
    while i < hx
        invariant
            obeys_key_model::<K>(),
            one_key_each(*key_fn),
            keys_each(*key_fn, a@),
            x == keys_of(*key_fn, a@),
            lo <= i <= hx <= a.len(),
            slots.len() == a.len(),
            slots0.len() == a.len(),
            staged.len() == staged0.len(),
            src.len() == staged0.len(),
            lo <= hy <= staged.len(),
            hy <= y.len(),
            next.len() == hy - lo,
            gone == |i: int| occurrences(y, x[i], lo as int, hy as int) == 0,
            forall|t: int| lo <= t < hx ==> slots0[t] is Some,
            forall|k: K| #[trigger]
                first@.contains_key(k) <==> occurrences(y, k, lo as int, hy as int) > 0,
            forall|k: K| #[trigger]
                first@.contains_key(k) ==> lo <= first@[k] < hy && y[first@[k] as int] == k && rank(
                    y,
                    lo as int,
                    first@[k] as int,
                ) == (if occurrences(x, k, lo as int, i as int) < occurrences(
                    y,
                    k,
                    lo as int,
                    hy as int,
                ) - 1 {
                    occurrences(x, k, lo as int, i as int) as int
                } else {
                    occurrences(y, k, lo as int, hy as int) - 1
                }),
            forall|j: int|
                lo <= j < hy ==> match #[trigger] next[j - lo] {
                    Some(j2) => j < j2 < hy && y[j2 as int] == y[j] && rank(y, lo as int, j2 as int)
                        == rank(y, lo as int, j) + 1,
                    None => rank(y, lo as int, j) + 1 == occurrences(y, y[j], lo as int, hy as int),
                },
            forall|j: int|
                lo <= j < hy ==> staged_from(x, y, lo as int, hy as int, i as int, j, #[trigger] src[j]),
            forall|j: int|
                lo <= j < hy ==> #[trigger] staged[j] == (match src[j] {
                    Some(f) => slots0[f],
                    None => None,
                }),
            forall|j: int| 0 <= j < staged.len() && !(lo <= j < hy) ==> staged[j] == staged0[j],
            forall|t: int| lo <= t < i ==> slots[t] is None,
            forall|t: int| 0 <= t < a.len() && !(lo <= t < i) ==> slots[t] == slots0[t],
            ledger.history() == history0 + closed_all(
                pick(scopes_of(slots0), gone, lo as int, i as int),
            ),
            forall|t: int|
                lo <= t < i && occurrences(y, x[t], lo as int, hy as int) == 0 ==> scope_disposed(
                    #[trigger] scopes_of(slots0)[t],
                ),
            ledger.parent() == old(ledger).parent(),
        decreases hx - i,
    {
        let k = key_fn(&a[i]);
        assert(k == x[i as int]);
        let hit: Option<usize> = match first.get(&k) {
            Some(t) => Some(*t),
            None => None,
        };
        let ghost first_before = first@;
        let ghost src_before = src;
        let ghost seen = occurrences(x, k, lo as int, i as int);
        let ghost total = occurrences(y, k, lo as int, hy as int);
        match hit {
            Some(j) => {
                assert(first_before.contains_key(k));
                let row = slots[i].take();
                staged[j] = row;
                proof {
                    src = src.update(j as int, Some(i as int));
                    lemma_rank_below_count(y, lo as int, hy as int, j as int);
                }
                match next[j - lo] {
                    Some(j2) => {
                        proof {
                            lemma_rank_below_count(y, lo as int, hy as int, j2 as int);
                        }
                        first.insert(k, j2);
                    },
                    None => {},
                }
                proof {
                    assert forall|k2: K| #[trigger] first@.contains_key(k2) implies lo
                        <= first@[k2] < hy && y[first@[k2] as int] == k2 && rank(
                        y,
                        lo as int,
                        first@[k2] as int,
                    ) == (if occurrences(x, k2, lo as int, i + 1) < occurrences(
                        y,
                        k2,
                        lo as int,
                        hy as int,
                    ) - 1 {
                        occurrences(x, k2, lo as int, i + 1) as int
                    } else {
                        occurrences(y, k2, lo as int, hy as int) - 1
                    }) by {
                        assert(first_before.contains_key(k2));
                    }
                    assert forall|j3: int| lo <= j3 < hy implies staged_from(
                        x,
                        y,
                        lo as int,
                        hy as int,
                        i + 1,
                        j3,
                        #[trigger] src[j3],
                    ) by {
                        assert(staged_from(x, y, lo as int, hy as int, i as int, j3, src_before[j3]));
                        lemma_rank_below_count(y, lo as int, hy as int, j3);
                        if y[j3] == k && j3 != j {
                            if j3 < j {
                                lemma_rank_orders(y, lo as int, j3, j as int);
                            } else {
                                lemma_rank_orders(y, lo as int, j as int, j3);
                            }
                        }
                    }
                    assert(!gone(i as int));
                }
            },
            None => {
                assert(!first_before.contains_key(k));
                let row = slots[i].take();
                match row {
                    Some(entry) => {
                        let Entry { value: _value, scope } = entry;
                        ledger.close(scope);
                    },
                    None => {},
                }
                proof {
                    assert forall|j3: int| lo <= j3 < hy implies staged_from(
                        x,
                        y,
                        lo as int,
                        hy as int,
                        i + 1,
                        j3,
                        #[trigger] src[j3],
                    ) by {
                        assert(staged_from(x, y, lo as int, hy as int, i as int, j3, src_before[j3]));
                        lemma_rank_below_count(y, lo as int, hy as int, j3);
                    }
                    assert(gone(i as int));
                    assert(scopes_of(slots0)[i as int] == slots0[i as int].unwrap().scope);
                    assert(ledger.history() =~= history0 + closed_all(
                        pick(scopes_of(slots0), gone, lo as int, i + 1),
                    ));
                }
            },
        }
        i += 1;
    }
    proof {
        assert forall|i2: int, j: int| #[trigger]
            matched(x, y, lo as int, hx as int, hy as int, i2, j) implies staged[j]
            == slots0[i2] by {
            assert(staged_from(x, y, lo as int, hy as int, hx as int, j, src[j]));
            lemma_rank_below_count(x, lo as int, hx as int, i2);
            lemma_rank_below_count(y, lo as int, hy as int, j);
            let f = src[j].unwrap();
            if f < i2 {
                lemma_rank_orders(x, lo as int, f, i2);
            }
            if i2 < f {
                lemma_rank_orders(x, lo as int, i2, f);
            }
        }
        assert forall|j: int| lo <= j < hy && (#[trigger] staged[j]) is Some implies exists|i2: int|
            #[trigger] matched(x, y, lo as int, hx as int, hy as int, i2, j) by {
            assert(staged_from(x, y, lo as int, hy as int, hx as int, j, src[j]));
            lemma_rank_below_count(y, lo as int, hy as int, j);
            let f = src[j].unwrap();
            assert(matched(x, y, lo as int, hx as int, hy as int, f, j));
        }
    }
}

/// Walks the new positions from `lo`: a staged row goes to its place in `slots`, a
/// gap gets a fresh scope and a freshly mapped element.
fn fill_pass<T, U, M: Fn(Scope, &T) -> U>(
    b: &Vec<T>,
    map_fn: &M,
    lo: usize,
    staged: &mut Vec<Option<Entry<U>>>,
    slots: &mut Vec<Option<Entry<U>>>,
    ledger: &mut ScopeLedger,
)
    requires
        maps_each(*map_fn, b@),
        lo <= b.len(),
        old(staged).len() == b.len(),
        lo <= old(slots).len(),
    ensures
        final(slots).len() == (if old(slots).len() < b.len() {
            b.len()
        } else {
            old(slots).len()
        }),
        forall|j: int| 0 <= j < lo ==> final(slots)[j] == old(slots)[j],
        forall|j: int| b.len() <= j < old(slots).len() ==> final(slots)[j] == old(slots)[j],
        forall|j: int|
            lo <= j < b.len() ==> {
                &&& (#[trigger] final(slots)[j]) is Some
                &&& old(staged)[j] is Some ==> final(slots)[j] == old(staged)[j]
                &&& old(staged)[j] is None ==> made_by(*map_fn, b[j], final(slots)[j].unwrap().value)
                    && child_opened(
                    old(ledger).parent(),
                    *map_fn,
                    b[j],
                    final(slots)[j].unwrap().value,
                    final(slots)[j].unwrap().scope,
                )
            },
        final(ledger).history() == old(ledger).history() + opened_all(
            pick(scopes_of(final(slots)@), |j: int| old(staged)[j] is None, lo as int, b.len() as int),
        ),
        final(ledger).parent() == old(ledger).parent(),
{
    let ghost slots0 = slots@;
    let ghost staged0 = staged@;
    let ghost history0 = ledger.history();
    let ghost gap = |j: int| staged0[j] is None;
    let mut j = lo;
    assert(history0 + opened_all(pick(scopes_of(slots@), gap, lo as int, lo as int)) =~= history0);
    while j < b.len()
        invariant
            maps_each(*map_fn, b@),
            lo <= j <= b.len(),
            staged.len() == b.len(),
            staged0.len() == b.len(),
            lo <= slots0.len(),
            gap == |j: int| staged0[j] is None,
            slots.len() == (if slots0.len() < j {
                j as int
            } else {
                slots0.len() as int
            }),
            forall|t: int| j <= t < b.len() ==> staged[t] == staged0[t],
            forall|t: int| 0 <= t < lo ==> slots[t] == slots0[t],
            forall|t: int| j <= t < slots0.len() ==> slots[t] == slots0[t],
            forall|t: int|
                lo <= t < j ==> {
                    &&& (#[trigger] slots[t]) is Some
                    &&& staged0[t] is Some ==> slots[t] == staged0[t]
                    &&& staged0[t] is None ==> made_by(*map_fn, b[t], slots[t].unwrap().value)
                        && child_opened(
                        old(ledger).parent(),
                        *map_fn,
                        b[t],
                        slots[t].unwrap().value,
                        slots[t].unwrap().scope,
                    )
                },
            ledger.history() == history0 + opened_all(
                pick(scopes_of(slots@), gap, lo as int, j as int),
            ),
            ledger.parent() == old(ledger).parent(),
        decreases b.len() - j,
    {
        let ghost slots_before = slots@;
        let row = match staged[j].take() {
            Some(row) => row,
            None => {
                let (value, scope) = ledger.open(map_fn, &b[j]);
                Entry { value, scope }
            },
        };
        if j < slots.len() {
            slots[j] = Some(row);
        } else {
            slots.push(Some(row));
        }
        proof {
            lemma_pick_same(
                scopes_of(slots_before),
                gap,
                scopes_of(slots@),
                gap,
                lo as int,
                j as int,
            );
            assert(scopes_of(slots@)[j as int] == slots[j as int].unwrap().scope);
            assert(ledger.history() =~= history0 + opened_all(
                pick(scopes_of(slots@), gap, lo as int, j + 1),
            ));
        }
        j += 1;
    }
}

/// A list of rows kept in step with a list of items: one row for each item, made
/// once for the item's key and kept for as long as the key stays.
pub struct KeyedList<T, U> {
    items: Vec<T>,
    slots: Vec<Option<Entry<U>>>,
    ledger: ScopeLedger,
}

/// What one pass does: `after` is `before` reconciled with the items `b`. A row
/// whose old position feeds a new one is the old row itself, value and scope;
/// every other row was mapped from its item in a scope of its own. The pass
/// first disposed the scopes of the removed old rows, in the order of the rows,
/// and then opened the scopes of the new rows, in the order of the rows; where
/// `b` is empty, all old scopes were instead handed in one batch to the
/// runtime's queue of tasks, which disposes of them behind the pass where it
/// queues, and before the hand-over returns where it runs a task at once.
pub open spec fn reconciled<T: PartialEq, U, K, M: Fn(Scope, &T) -> U, F: Fn(&T) -> K>(
    before: KeyedList<T, U>,
    after: KeyedList<T, U>,
    b: Seq<T>,
    map_fn: M,
    key_fn: F,
) -> bool {
    let a = before.items();
    let ka = keys_of(key_fn, a);
    let kb = keys_of(key_fn, b);
    &&& after.wf()
    &&& after.items() == b
    &&& after.rows().len() == b.len()
    &&& forall|i: int, j: int| #[trigger]
        feeds(a, b, ka, kb, i, j) ==> after.rows()[j] == before.rows()[i]
    &&& forall|j: int|
        0 <= j < b.len() && !#[trigger] reused(a, b, ka, kb, j) ==> made_by(
            map_fn,
            b[j],
            after.rows()[j].value,
        ) && child_opened(
            before.ledger().parent(),
            map_fn,
            b[j],
            after.rows()[j].value,
            after.rows()[j].scope,
        )
    &&& after.ledger().parent() == before.ledger().parent()
    &&& if b.len() == 0 {
        exists|batch: Vec<ScopeDisposer>| batch@ == before.scopes() && #[trigger] handed_over(batch)
    } else {
        forall|i: int| #[trigger]
            removed(a, b, ka, kb, i) ==> scope_disposed(before.scopes()[i])
    }
    &&& after.ledger().history() == if b.len() == 0 {
        before.ledger().history().push(ScopeEvent::Deferred(before.scopes()))
    } else {
        before.ledger().history() + closed_all(
            pick(before.scopes(), |i: int| removed(a, b, ka, kb, i), 0, a.len() as int),
        ) + opened_all(
            pick(after.scopes(), |j: int| !reused(a, b, ka, kb, j), 0, b.len() as int),
        )
    }
}

impl<T, U> KeyedList<T, U> {
    /// One row for each item, and no row taken out.
    pub closed spec fn wf(&self) -> bool {
        &&& self.slots.len() == self.items.len()
        &&& forall|i: int| 0 <= i < self.slots.len() ==> self.slots[i] is Some
    }

    /// The items that the rows stand for.
    pub closed spec fn items(&self) -> Seq<T> {
        self.items@
    }

    /// The rows, position by position.
    pub closed spec fn rows(&self) -> Seq<Entry<U>> {
        Seq::new(self.slots.len() as nat, |i: int| self.slots[i].unwrap())
    }

    /// The parent scope and the record of the rows' scopes.
    pub closed spec fn ledger(&self) -> ScopeLedger {
        self.ledger
    }

    /// The mapped elements, position by position.
    pub open spec fn outputs(&self) -> Seq<U> {
        Seq::new(self.rows().len(), |i: int| self.rows()[i].value)
    }

    /// The rows' scopes, position by position.
    pub open spec fn scopes(&self) -> Seq<ScopeDisposer> {
        Seq::new(self.rows().len(), |i: int| self.rows()[i].scope)
    }

    /// What the passes reach before the rows past the new length are cut off and
    /// the new items are kept: all that `reconciled` says, on the slots.
    spec fn settled<K, M: Fn(Scope, &T) -> U, F: Fn(&T) -> K>(
        before: Self,
        after: Self,
        b: Seq<T>,
        map_fn: M,
        key_fn: F,
    ) -> bool where T: PartialEq {
        let a = before.items@;
        let ka = keys_of(key_fn, a);
        let kb = keys_of(key_fn, b);
        &&& after.items@ == a
        &&& after.slots.len() >= b.len()
        &&& forall|j: int| 0 <= j < b.len() ==> after.slots[j] is Some
        &&& forall|i: int, j: int| #[trigger]
            feeds(a, b, ka, kb, i, j) ==> after.slots[j] == before.slots[i]
        &&& forall|j: int|
            0 <= j < b.len() && !#[trigger] reused(a, b, ka, kb, j) ==> made_by(
                map_fn,
                b[j],
                after.slots[j].unwrap().value,
            ) && child_opened(
                before.ledger.parent(),
                map_fn,
                b[j],
                after.slots[j].unwrap().value,
                after.slots[j].unwrap().scope,
            )
        &&& after.ledger.parent() == before.ledger.parent()
        &&& if b.len() == 0 {
            exists|batch: Vec<ScopeDisposer>|
                batch@ == scopes_of(before.slots@) && #[trigger] handed_over(batch)
        } else {
            forall|i: int| #[trigger]
                removed(a, b, ka, kb, i) ==> scope_disposed(scopes_of(before.slots@)[i])
        }
        &&& after.ledger.history() == if b.len() == 0 {
            before.ledger.history().push(ScopeEvent::Deferred(scopes_of(before.slots@)))
        } else {
            before.ledger.history() + closed_all(
                pick(scopes_of(before.slots@), |i: int| removed(a, b, ka, kb, i), 0, a.len() as int),
            ) + opened_all(
                pick(scopes_of(after.slots@), |j: int| !reused(a, b, ka, kb, j), 0, b.len() as int),
            )
        }
    }

    /// A well-formed list holds one row for each item.
    pub proof fn lemma_rows_align(&self)
        requires
            self.wf(),
        ensures
            self.rows().len() == self.items().len(),
            self.outputs().len() == self.items().len(),
            self.scopes().len() == self.items().len(),
    {
    }

    /// An empty list whose rows will open their scopes under the root `cx`.
    pub fn new(cx: &'static Root) -> (list: Self)
        ensures
            list.wf(),
            list.items() == Seq::<T>::empty(),
            list.rows() == Seq::<Entry<U>>::empty(),
            list.ledger().parent() == *cx,
            list.ledger().history() == Seq::<ScopeEvent>::empty(),
    {
        let list = KeyedList { items: Vec::new(), slots: Vec::new(), ledger: ScopeLedger::new(cx) };
        assert(list.rows() =~= Seq::<Entry<U>>::empty());
        list
    }

    /// The number of rows.
    pub fn len(&self) -> (n: usize)
        requires
            self.wf(),
        ensures
            n == self.rows().len(),
            n == self.items().len(),
    {
        self.slots.len()
    }

    /// A copy of the mapped elements, position by position.
    pub fn output(&self) -> (out: Vec<U>) where U: Clone
        requires
            self.wf(),
        ensures
            out.len() == self.outputs().len(),
            forall|i: int| 0 <= i < out.len() ==> cloned(self.outputs()[i], #[trigger] out[i]),
    {
        let mut out: Vec<U> = Vec::with_capacity(self.slots.len());
        let mut i: usize = 0;
        while i < self.slots.len()
            invariant
                self.wf(),
                i <= self.slots.len(),
                out.len() == i,
                forall|t: int| 0 <= t < i ==> cloned(self.slots[t].unwrap().value, #[trigger] out[t]),
            decreases self.slots.len() - i,
        {
            match &self.slots[i] {
                Some(row) => out.push(row.value.clone()),
                None => {},
            }
            i += 1;
        }
        out
    }

    /// The fast path for an empty new list: every scope goes, in one batch, to
    /// the runtime's queue for disposal, and the rows are dropped.
    fn clear<K, M: Fn(Scope, &T) -> U, F: Fn(&T) -> K>(
        &mut self,
        Ghost(map_fn): Ghost<M>,
        Ghost(key_fn): Ghost<F>,
    ) where T: PartialEq
        requires
            old(self).wf(),
        ensures
            Self::settled(*old(self), *final(self), Seq::<T>::empty(), map_fn, key_fn),
    {
        let ghost slots0 = self.slots@;
        let mut doomed: Vec<ScopeDisposer> = Vec::with_capacity(self.slots.len());
        let mut i: usize = 0;
        while i < self.slots.len()
            invariant
                i <= self.slots.len(),
                self.slots.len() == slots0.len(),
                self.items == old(self).items,
                self.ledger == old(self).ledger,
                forall|t: int| 0 <= t < slots0.len() ==> slots0[t] is Some,
                forall|t: int| i <= t < slots0.len() ==> self.slots[t] == slots0[t],
                doomed@ == scopes_of(slots0).subrange(0, i as int),
            decreases self.slots.len() - i,
        {
            let ghost doomed_before = doomed@;
            match self.slots[i].take() {
                Some(row) => {
                    assert(Some(row) == slots0[i as int]);
                    let Entry { value: _value, scope } = row;
                    assert(scope == scopes_of(slots0)[i as int]);
                    doomed.push(scope);
                },
                None => {},
            }
            assert(doomed@ == doomed_before.push(scopes_of(slots0)[i as int]));
            i += 1;
            assert(doomed@ =~= scopes_of(slots0).subrange(0, i as int));
        }
        assert(doomed@ =~= scopes_of(slots0));
        self.slots = Vec::new();
        self.ledger.defer(doomed);
    }

    /// The fast path for an empty old list: a fresh scope and a freshly mapped
    /// element for every item, in order.
    fn fill_all<K, M: Fn(Scope, &T) -> U, F: Fn(&T) -> K>(
        &mut self,
        b: &Vec<T>,
        map_fn: &M,
        Ghost(key_fn): Ghost<F>,
    ) where T: PartialEq
        requires
            old(self).wf(),
            old(self).items@.len() == 0,
            b.len() > 0,
            maps_each(*map_fn, b@),
        ensures
            Self::settled(*old(self), *final(self), b@, *map_fn, key_fn),
    {
        let ghost a = self.items@;
        let ghost ka = keys_of(key_fn, a);
        let ghost kb = keys_of(key_fn, b@);
        let ghost fresh = |j: int| !reused(a, b@, ka, kb, j);
        let ghost history0 = self.ledger.history();
        assert(history0 + opened_all(pick(scopes_of(self.slots@), fresh, 0, 0)) =~= history0);
        let mut j: usize = 0;
        while j < b.len()
            invariant
                maps_each(*map_fn, b@),
                j <= b.len(),
                self.slots.len() == j,
                self.items == old(self).items,
                a.len() == 0,
                fresh == |j: int| !reused(a, b@, ka, kb, j),
                forall|t: int|
                    0 <= t < j ==> (#[trigger] self.slots[t]) is Some && made_by(
                        *map_fn,
                        b[t],
                        self.slots[t].unwrap().value,
                    ) && child_opened(
                        old(self).ledger.parent(),
                        *map_fn,
                        b[t],
                        self.slots[t].unwrap().value,
                        self.slots[t].unwrap().scope,
                    ),
                self.ledger.history() == history0 + opened_all(
                    pick(scopes_of(self.slots@), fresh, 0, j as int),
                ),
                self.ledger.parent() == old(self).ledger.parent(),
            decreases b.len() - j,
        {
            let ghost slots_before = self.slots@;
            let (value, scope) = self.ledger.open(map_fn, &b[j]);
            self.slots.push(Some(Entry { value, scope }));
            proof {
                lemma_pick_same(
                    scopes_of(slots_before),
                    fresh,
                    scopes_of(self.slots@),
                    fresh,
                    0,
                    j as int,
                );
                assert(scopes_of(self.slots@)[j as int] == self.slots[j as int].unwrap().scope);
                assert(fresh(j as int)) by {
                    assert forall|i: int| !feeds(a, b@, ka, kb, i, j as int) by {}
                }
                assert(self.ledger.history() =~= history0 + opened_all(
                    pick(scopes_of(self.slots@), fresh, 0, j + 1),
                ));
            }
            j += 1;
        }
        proof {
            lemma_pick_none(scopes_of(old(self).slots@), |i: int| removed(a, b@, ka, kb, i), 0, 0);
            assert(history0 + closed_all(Seq::<ScopeDisposer>::empty()) =~= history0);
            assert forall|i: int| !#[trigger] removed(a, b@, ka, kb, i) by {
                lemma_common_prefix_exists(a, b@);
                lemma_common_suffix_exists(a, b@, common_prefix(a, b@));
            }
        }
    }

    /// The general path: skip the common prefix, carry the common suffix over,
    /// index the new window by key, match the old window against it, and fill
    /// what is left.
    fn diff<K: Eq + Hash, M: Fn(Scope, &T) -> U, F: Fn(&T) -> K>(
        &mut self,
        b: &Vec<T>,
        map_fn: &M,
        key_fn: &F,
    ) where T: PartialEq
        requires
            old(self).wf(),
            b.len() > 0,
            T::obeys_eq_spec(),
            obeys_key_model::<K>(),
            one_key_each(*key_fn),
            keys_each(*key_fn, b@),
            keys_each(*key_fn, old(self).items@),
            maps_each(*map_fn, b@),
        ensures
            Self::settled(*old(self), *final(self), b@, *map_fn, *key_fn),
    {
        let ghost a = self.items@;
        let ghost ka = keys_of(*key_fn, a);
        let ghost kb = keys_of(*key_fn, b@);
        let ghost slots0 = self.slots@;
        let mut staged: Vec<Option<Entry<U>>> = empty_slots(b.len());
        let start = skip_prefix(&self.items, b);
        let tail = carry_suffix(&self.items, b, start, &mut self.slots, &mut staged);
        let end = self.items.len() - tail;
        let new_end = b.len() - tail;
        let ghost slots1 = self.slots@;
        let ghost staged1 = staged@;
        let (first, next) = index_keys(b, key_fn, start, new_end);
        match_pass(
            &self.items,
            key_fn,
            start,
            end,
            new_end,
            first,
            &next,
            &mut self.slots,
            &mut staged,
            &mut self.ledger,
            Ghost(kb),
        );
        let ghost staged2 = staged@;
        fill_pass(b, map_fn, start, &mut staged, &mut self.slots, &mut self.ledger);
        proof {
            let n = a.len() as int;
            let m = b.len() as int;
            let p = start as int;
            let hx = end as int;
            let hy = new_end as int;
            let slots3 = self.slots@;
            assert forall|j: int| p <= j < m implies (staged2[j] is None <==> !reused(
                a,
                b@,
                ka,
                kb,
                j,
            )) by {
                if j >= hy {
                    assert(feeds(a, b@, ka, kb, j - m + n, j));
                } else {
                    if staged2[j] is Some {
                        let i = choose|i: int| #[trigger] matched(ka, kb, p, hx, hy, i, j);
                        assert(feeds(a, b@, ka, kb, i, j));
                    }
                    if reused(a, b@, ka, kb, j) {
                        let i = choose|i: int| feeds(a, b@, ka, kb, i, j);
                        assert(matched(ka, kb, p, hx, hy, i, j));
                    }
                }
            }
            assert forall|j: int| 0 <= j < p implies reused(a, b@, ka, kb, j) by {
                assert(feeds(a, b@, ka, kb, j, j));
            }
            assert forall|i: int, j: int| #[trigger] feeds(a, b@, ka, kb, i, j) implies slots3[j]
                == slots0[i] by {
                if j < p {
                } else if j >= hy {
                } else {
                    assert(matched(ka, kb, p, hx, hy, i, j));
                }
            }
            // the scopes disposed
            assert forall|i: int| #[trigger] removed(a, b@, ka, kb, i) implies scope_disposed(
                scopes_of(slots0)[i],
            ) by {
                assert(scopes_of(slots1)[i] == scopes_of(slots0)[i]);
            }
            let gone_mid = |i: int| occurrences(kb, ka[i], p, hy) == 0;
            let gone = |i: int| removed(a, b@, ka, kb, i);
            lemma_pick_same(scopes_of(slots1), gone_mid, scopes_of(slots0), gone, p, hx);
            lemma_pick_none(scopes_of(slots0), gone, 0, p);
            lemma_pick_none(scopes_of(slots0), gone, hx, n);
            lemma_pick_split(scopes_of(slots0), gone, 0, p, hx);
            lemma_pick_split(scopes_of(slots0), gone, 0, hx, n);
            assert(pick(scopes_of(slots0), gone, 0, n) =~= pick(scopes_of(slots1), gone_mid, p, hx));
            // the scopes opened
            let gap = |j: int| staged2[j] is None;
            let fresh = |j: int| !reused(a, b@, ka, kb, j);
            lemma_pick_same(scopes_of(slots3), gap, scopes_of(slots3), fresh, p, m);
            lemma_pick_none(scopes_of(slots3), fresh, 0, p);
            lemma_pick_split(scopes_of(slots3), fresh, 0, p, m);
            assert(pick(scopes_of(slots3), fresh, 0, m) =~= pick(scopes_of(slots3), gap, p, m));
        }
    }

    /// Brings the rows in step with `new_items`. Rows whose elements are equal at
    /// the front and at the back of both lists stay where they are; in between,
    /// a row is kept for each key that both lists hold and moves to the key's
    /// new place, the scope of a row whose key is gone is disposed, and an item
    /// without a row gets a fresh scope and a freshly mapped element.
    ///
    pub fn reconcile<K: Eq + Hash, M: Fn(Scope, &T) -> U, F: Fn(&T) -> K>(
        &mut self,
        new_items: Vec<T>,
        map_fn: &M,
        key_fn: &F,
    ) where T: PartialEq
        requires
            old(self).wf(),
            T::obeys_eq_spec(),
            obeys_key_model::<K>(),
            one_key_each(*key_fn),
            keys_each(*key_fn, new_items@),
            keys_each(*key_fn, old(self).items()),
            maps_each(*map_fn, new_items@),
        ensures
            reconciled(*old(self), *final(self), new_items@, *map_fn, *key_fn),
    {
        if new_items.len() == 0 {
            self.clear::<K, M, F>(Ghost(*map_fn), Ghost(*key_fn));
        } else if self.items.len() == 0 {
            self.fill_all::<K, M, F>(&new_items, map_fn, Ghost(*key_fn));
        } else {
            self.diff(&new_items, map_fn, key_fn);
        }
        let ghost settled_slots = self.slots@;
        self.slots.truncate(new_items.len());
        self.items = new_items;
        proof {
            let a = old(self).items@;
            let b = self.items@;
            let ka = keys_of(*key_fn, a);
            let kb = keys_of(*key_fn, b);
            assert(old(self).scopes() =~= scopes_of(old(self).slots@));
            if b.len() > 0 {
                lemma_pick_same(
                    scopes_of(old(self).slots@),
                    |i: int| removed(a, b, ka, kb, i),
                    old(self).scopes(),
                    |i: int| removed(a, b, ka, kb, i),
                    0,
                    a.len() as int,
                );
                lemma_pick_same(
                    scopes_of(settled_slots),
                    |j: int| !reused(a, b, ka, kb, j),
                    self.scopes(),
                    |j: int| !reused(a, b, ka, kb, j),
                    0,
                    b.len() as int,
                );
            }
        }
    }
}

} // verus!
