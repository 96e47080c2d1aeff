//! The mathematics of the diff: where two sequences agree at their ends, and which
//! old position feeds which new one in between.

use vstd::prelude::*;
use vstd::std_specs::cmp::PartialEqSpec;

verus! {

/// Number of positions in `[lo, hi)` at which `s` holds `k`.
pub open spec fn occurrences<K>(s: Seq<K>, k: K, lo: int, hi: int) -> nat
    decreases hi - lo,
{
    if hi <= lo {
        0
    } else {
        occurrences(s, k, lo, hi - 1) + if s[hi - 1] == k {
            1nat
        } else {
            0nat
        }
    }
}

/// How many positions of `[lo, i)` hold the key found at `i`: the place of `i`
/// among the positions that share its key.
pub open spec fn rank<K>(s: Seq<K>, lo: int, i: int) -> nat {
    occurrences(s, s[i], lo, i)
}

/// No key occurs twice in `s`.
pub open spec fn distinct<K>(s: Seq<K>) -> bool {
    forall|i: int, j: int| 0 <= i < j < s.len() ==> s[i] != s[j]
}

/// A longer window holds a key at least as often.
pub proof fn lemma_occurrences_grow<K>(s: Seq<K>, k: K, lo: int, a: int, b: int)
    requires
        lo <= a <= b,
    ensures
        occurrences(s, k, lo, a) <= occurrences(s, k, lo, b),
    decreases b - a,
{
    if a < b {
        lemma_occurrences_grow(s, k, lo, a, b - 1);
    }
}

/// Positions that do not hold a key add nothing to its count.
pub proof fn lemma_occurrences_skip<K>(s: Seq<K>, k: K, lo: int, a: int, b: int)
    requires
        lo <= a <= b,
        forall|i: int| a <= i < b ==> s[i] != k,
    ensures
        occurrences(s, k, lo, b) == occurrences(s, k, lo, a),
    decreases b - a,
{
    if a < b {
        lemma_occurrences_skip(s, k, lo, a, b - 1);
    }
}

/// A key is counted exactly when some position of the window holds it.
pub proof fn lemma_occurrences_found<K>(s: Seq<K>, k: K, lo: int, hi: int)
    ensures
        occurrences(s, k, lo, hi) > 0 <==> exists|i: int| lo <= i < hi && s[i] == k,
    decreases hi - lo,
{
    if lo < hi {
        lemma_occurrences_found(s, k, lo, hi - 1);
        if s[hi - 1] == k {
            assert(lo <= hi - 1 < hi && s[hi - 1] == k);
        }
    }
}

/// A key that occurs in `[lo, hi)` has a first position there.
pub proof fn lemma_first_occurrence<K>(s: Seq<K>, k: K, lo: int, hi: int)
    requires
        occurrences(s, k, lo, hi) > 0,
    ensures
        exists|i: int| lo <= i < hi && s[i] == k && #[trigger] rank(s, lo, i) == 0,
    decreases hi - lo,
{
    if occurrences(s, k, lo, hi - 1) > 0 {
        lemma_first_occurrence(s, k, lo, hi - 1);
        let i = choose|i: int| lo <= i < hi - 1 && s[i] == k && #[trigger] rank(s, lo, i) == 0;
        assert(lo <= i < hi && s[i] == k && rank(s, lo, i) == 0);
    } else {
        assert(lo <= hi - 1 < hi && s[hi - 1] == k && rank(s, lo, hi - 1) == 0);
    }
}

/// The rank of a position lies below the count of its key.
pub proof fn lemma_rank_below_count<K>(s: Seq<K>, lo: int, hi: int, i: int)
    requires
        lo <= i < hi,
    ensures
        rank(s, lo, i) < occurrences(s, s[i], lo, hi),
{
    lemma_occurrences_grow(s, s[i], lo, i + 1, hi);
}

/// Of two positions with one key, the later has the higher rank.
pub proof fn lemma_rank_orders<K>(s: Seq<K>, lo: int, i: int, j: int)
    requires
        lo <= i < j,
        s[i] == s[j],
    ensures
        rank(s, lo, i) < rank(s, lo, j),
{
    lemma_occurrences_grow(s, s[i], lo, i + 1, j);
}

/// Where no key occurs twice, a key is counted at most once, and not before the
/// position that holds it.
pub proof fn lemma_occurrences_distinct<K>(s: Seq<K>, k: K, lo: int, hi: int)
    requires
        distinct(s),
        0 <= lo,
        hi <= s.len(),
    ensures
        occurrences(s, k, lo, hi) <= 1,
        forall|i: int| lo <= i < hi && s[i] == k ==> occurrences(s, k, lo, i) == 0,
    decreases hi - lo,
{
    if lo < hi {
        lemma_occurrences_distinct(s, k, lo, hi - 1);
        if s[hi - 1] == k {
            lemma_occurrences_found(s, k, lo, hi - 1);
        }
    }
}

/// `p` positions from the front hold equal elements, and the next do not.
pub open spec fn is_common_prefix<T: PartialEq>(a: Seq<T>, b: Seq<T>, p: int) -> bool {
    &&& 0 <= p <= a.len()
    &&& p <= b.len()
    &&& forall|i: int| 0 <= i < p ==> #[trigger] a[i].eq_spec(&b[i])
    &&& p < a.len() && p < b.len() ==> !a[p].eq_spec(&b[p])
}

/// The number of leading positions at which `a` and `b` hold equal elements.
pub open spec fn common_prefix<T: PartialEq>(a: Seq<T>, b: Seq<T>) -> int {
    choose|p: int| is_common_prefix(a, b, p)
}

/// The elements `t` places before the ends of `a` and `b` are equal.
pub open spec fn ends_agree<T: PartialEq>(a: Seq<T>, b: Seq<T>, t: int) -> bool {
    a[a.len() - 1 - t].eq_spec(&b[b.len() - 1 - t])
}

/// Behind the first `p` positions, `s` positions from the back hold equal
/// elements, and the next do not.
pub open spec fn is_common_suffix<T: PartialEq>(a: Seq<T>, b: Seq<T>, p: int, s: int) -> bool {
    &&& 0 <= s
    &&& p + s <= a.len()
    &&& p + s <= b.len()
    &&& forall|t: int| 0 <= t < s ==> #[trigger] ends_agree(a, b, t)
    &&& p + s < a.len() && p + s < b.len() ==> !ends_agree(a, b, s)
}

/// The number of trailing positions, not reaching into the first `p`, at which
/// `a` and `b` hold equal elements.
pub open spec fn common_suffix<T: PartialEq>(a: Seq<T>, b: Seq<T>, p: int) -> int {
    choose|s: int| is_common_suffix(a, b, p, s)
}

/// The common prefix has one length only.
pub proof fn lemma_common_prefix_is<T: PartialEq>(a: Seq<T>, b: Seq<T>, p: int)
    requires
        is_common_prefix(a, b, p),
    ensures
        common_prefix(a, b) == p,
{
    let q = common_prefix(a, b);
    assert(is_common_prefix(a, b, q));
    if q < p {
        assert(a[q].eq_spec(&b[q]));
    }
    if p < q {
        assert(a[p].eq_spec(&b[p]));
    }
}

/// The common suffix has one length only.
pub proof fn lemma_common_suffix_is<T: PartialEq>(a: Seq<T>, b: Seq<T>, p: int, s: int)
    requires
        is_common_suffix(a, b, p, s),
    ensures
        common_suffix(a, b, p) == s,
{
    let q = common_suffix(a, b, p);
    assert(is_common_suffix(a, b, p, q));
    if q < s {
        assert(ends_agree(a, b, q));
    }
    if s < q {
        assert(ends_agree(a, b, s));
    }
}

/// Inside the windows `[lo, hx)` of the old keys `x` and `[lo, hy)` of the new
/// keys `y`, old position `i` feeds new position `j`. Equal keys pair off in
/// order of appearance; where the old window holds a key at least as often as
/// the new one, the last new position of that key is fed by the last old one.
pub open spec fn matched<K>(x: Seq<K>, y: Seq<K>, lo: int, hx: int, hy: int, i: int, j: int) -> bool {
    &&& lo <= i < hx
    &&& lo <= j < hy
    &&& x[i] == y[j]
    &&& if rank(y, lo, j) + 1 < occurrences(y, y[j], lo, hy) {
        rank(x, lo, i) == rank(y, lo, j)
    } else {
        &&& rank(x, lo, i) + 1 == occurrences(x, x[i], lo, hx)
        &&& rank(y, lo, j) <= rank(x, lo, i)
    }
}

/// At most one old position feeds a new one.
pub proof fn lemma_matched_one_source<K>(
    x: Seq<K>,
    y: Seq<K>,
    lo: int,
    hx: int,
    hy: int,
    i: int,
    other: int,
    j: int,
)
    requires
        matched(x, y, lo, hx, hy, i, j),
        matched(x, y, lo, hx, hy, other, j),
    ensures
        i == other,
{
    if i < other {
        lemma_rank_orders(x, lo, i, other);
    }
    if other < i {
        lemma_rank_orders(x, lo, other, i);
    }
}

/// An old position feeds at most one new one.
pub proof fn lemma_matched_one_target<K>(
    x: Seq<K>,
    y: Seq<K>,
    lo: int,
    hx: int,
    hy: int,
    i: int,
    j: int,
    other: int,
)
    requires
        matched(x, y, lo, hx, hy, i, j),
        matched(x, y, lo, hx, hy, i, other),
    ensures
        j == other,
{
    lemma_rank_below_count(y, lo, hy, j);
    lemma_rank_below_count(y, lo, hy, other);
    if j < other {
        lemma_rank_orders(y, lo, j, other);
    }
    if other < j {
        lemma_rank_orders(y, lo, other, j);
    }
}

/// Old position `i` of `a` feeds new position `j` of `b`: by place in the common
/// prefix and the common suffix, by key in between.
pub open spec fn feeds<T: PartialEq, K>(
    a: Seq<T>,
    b: Seq<T>,
    ka: Seq<K>,
    kb: Seq<K>,
    i: int,
    j: int,
) -> bool {
    let p = common_prefix(a, b);
    let s = common_suffix(a, b, p);
    &&& 0 <= i < a.len()
    &&& 0 <= j < b.len()
    &&& if j < p {
        i == j
    } else if j >= b.len() - s {
        i - a.len() == j - b.len()
    } else {
        matched(ka, kb, p, a.len() - s, b.len() - s, i, j)
    }
}

/// Some old position feeds new position `j`.
pub open spec fn reused<T: PartialEq, K>(a: Seq<T>, b: Seq<T>, ka: Seq<K>, kb: Seq<K>, j: int) -> bool {
    exists|i: int| feeds(a, b, ka, kb, i, j)
}

/// Old position `i` lies between the common ends and its key is gone from the
/// new window.
pub open spec fn removed<T: PartialEq, K>(a: Seq<T>, b: Seq<T>, ka: Seq<K>, kb: Seq<K>, i: int) -> bool {
    let p = common_prefix(a, b);
    let s = common_suffix(a, b, p);
    &&& p <= i < a.len() - s
    &&& occurrences(kb, ka[i], p, b.len() - s) == 0
}

/// The key that `key_fn` gives to `item`.
pub open spec fn key_of<T, K, F: Fn(&T) -> K>(key_fn: F, item: T) -> K {
    choose|k: K| call_ensures(key_fn, (&item,), k)
}

/// The keys of `items`, position by position.
pub open spec fn keys_of<T, K, F: Fn(&T) -> K>(key_fn: F, items: Seq<T>) -> Seq<K> {
    Seq::new(items.len(), |i: int| key_of(key_fn, items[i]))
}

/// `key_fn` gives each item one key: whatever it returns for an item is that
/// item's key.
pub open spec fn one_key_each<T, K, F: Fn(&T) -> K>(key_fn: F) -> bool {
    forall|t: T, k: K| call_ensures(key_fn, (&t,), k) ==> k == key_of(key_fn, t)
}

/// `key_fn` accepts each of `items`.
pub open spec fn keys_each<T, K, F: Fn(&T) -> K>(key_fn: F, items: Seq<T>) -> bool {
    forall|i: int| 0 <= i < items.len() ==> call_requires(key_fn, (&#[trigger] items[i],))
}

/// Elements that compare equal carry the same key.
pub open spec fn equal_items_share_key<T: PartialEq, K, F: Fn(&T) -> K>(key_fn: F) -> bool {
    forall|s: T, t: T| #[trigger] s.eq_spec(&t) ==> key_of(key_fn, s) == key_of(key_fn, t)
}

/// What a table of first positions and a table of next positions hold once the
/// window `[lo, hi)` of `y` is indexed: each key of the window maps to its first
/// position there, and each position knows the next one with its key.
pub open spec fn indexed<K>(
    y: Seq<K>,
    lo: int,
    hi: int,
    first: Map<K, usize>,
    next: Seq<Option<usize>>,
) -> bool {
    &&& next.len() == hi - lo
    &&& forall|k: K| #[trigger] first.contains_key(k) <==> occurrences(y, k, lo, hi) > 0
    &&& forall|k: K| #[trigger]
        first.contains_key(k) ==> lo <= first[k] < hi && y[first[k] as int] == k && rank(
            y,
            lo,
            first[k] as int,
        ) == 0
    &&& forall|j: int|
        lo <= j < hi ==> match #[trigger] next[j - lo] {
            Some(j2) => j < j2 < hi && y[j2 as int] == y[j] && rank(y, lo, j2 as int) == rank(
                y,
                lo,
                j,
            ) + 1,
            None => rank(y, lo, j) + 1 == occurrences(y, y[j], lo, hi),
        }
}

/// The elements of `s` at the positions of `[lo, hi)` that `keep` accepts, in order.
pub open spec fn pick<A>(s: Seq<A>, keep: spec_fn(int) -> bool, lo: int, hi: int) -> Seq<A>
    decreases hi - lo,
{
    if hi <= lo {
        Seq::empty()
    } else if keep(hi - 1) {
        pick(s, keep, lo, hi - 1).push(s[hi - 1])
    } else {
        pick(s, keep, lo, hi - 1)
    }
}

/// What is picked depends only on the window: on its elements and on which of
/// its positions are accepted.
pub proof fn lemma_pick_same<A>(
    s: Seq<A>,
    keep: spec_fn(int) -> bool,
    other: Seq<A>,
    other_keep: spec_fn(int) -> bool,
    lo: int,
    hi: int,
)
    requires
        forall|i: int| lo <= i < hi ==> s[i] == other[i] && keep(i) == other_keep(i),
    ensures
        pick(s, keep, lo, hi) == pick(other, other_keep, lo, hi),
    decreases hi - lo,
{
    if lo < hi {
        lemma_pick_same(s, keep, other, other_keep, lo, hi - 1);
    }
}

/// Nothing is picked where no position is accepted.
pub proof fn lemma_pick_none<A>(s: Seq<A>, keep: spec_fn(int) -> bool, lo: int, hi: int)
    requires
        forall|i: int| lo <= i < hi ==> !#[trigger] keep(i),
    ensures
        pick(s, keep, lo, hi) == Seq::<A>::empty(),
    decreases hi - lo,
{
    if lo < hi {
        lemma_pick_none(s, keep, lo, hi - 1);
    }
}

/// Picking from a window is picking from its two parts, one after the other.
pub proof fn lemma_pick_split<A>(s: Seq<A>, keep: spec_fn(int) -> bool, lo: int, mid: int, hi: int)
    requires
        lo <= mid <= hi,
    ensures
        pick(s, keep, lo, hi) == pick(s, keep, lo, mid) + pick(s, keep, mid, hi),
    decreases hi - mid,
{
    if mid < hi {
        lemma_pick_split(s, keep, lo, mid, hi - 1);
        if keep(hi - 1) {
            assert(pick(s, keep, lo, hi) =~= pick(s, keep, lo, mid) + pick(s, keep, mid, hi));
        }
    } else {
        assert(pick(s, keep, lo, hi) =~= pick(s, keep, lo, mid) + pick(s, keep, mid, hi));
    }
}

/// Number of positions in `[lo, hi)` that `keep` accepts.
pub open spec fn tally(keep: spec_fn(int) -> bool, lo: int, hi: int) -> nat
    decreases hi - lo,
{
    if hi <= lo {
        0
    } else if keep(hi - 1) {
        tally(keep, lo, hi - 1) + 1
    } else {
        tally(keep, lo, hi - 1)
    }
}

/// `pick` holds one element for each accepted position, and the element of an
/// accepted position `i` stands behind those of the accepted positions before it.
pub proof fn lemma_pick_places<A>(s: Seq<A>, keep: spec_fn(int) -> bool, lo: int, hi: int)
    ensures
        pick(s, keep, lo, hi).len() == tally(keep, lo, hi),
        forall|i: int|
            lo <= i < hi && #[trigger] keep(i) ==> tally(keep, lo, i) < tally(keep, lo, hi) && pick(
                s,
                keep,
                lo,
                hi,
            )[tally(keep, lo, i) as int] == s[i],
    decreases hi - lo,
{
    if lo < hi {
        lemma_pick_places(s, keep, lo, hi - 1);
    }
}

/// Two sequences have a common prefix.
pub proof fn lemma_common_prefix_exists<T: PartialEq>(a: Seq<T>, b: Seq<T>)
    ensures
        is_common_prefix(a, b, common_prefix(a, b)),
{
    lemma_prefix_from(a, b, 0);
}

proof fn lemma_prefix_from<T: PartialEq>(a: Seq<T>, b: Seq<T>, p: int)
    requires
        0 <= p <= a.len(),
        p <= b.len(),
        forall|i: int| 0 <= i < p ==> #[trigger] a[i].eq_spec(&b[i]),
    ensures
        exists|q: int| is_common_prefix(a, b, q),
    decreases a.len() - p,
{
    if p < a.len() && p < b.len() && a[p].eq_spec(&b[p]) {
        lemma_prefix_from(a, b, p + 1);
    } else {
        assert(is_common_prefix(a, b, p));
    }
}

/// Behind any prefix, two sequences have a common suffix.
pub proof fn lemma_common_suffix_exists<T: PartialEq>(a: Seq<T>, b: Seq<T>, p: int)
    requires
        0 <= p <= a.len(),
        p <= b.len(),
    ensures
        is_common_suffix(a, b, p, common_suffix(a, b, p)),
{
    lemma_suffix_from(a, b, p, 0);
}

proof fn lemma_suffix_from<T: PartialEq>(a: Seq<T>, b: Seq<T>, p: int, s: int)
    requires
        0 <= s,
        p + s <= a.len(),
        p + s <= b.len(),
        forall|t: int| 0 <= t < s ==> #[trigger] ends_agree(a, b, t),
    ensures
        exists|q: int| is_common_suffix(a, b, p, q),
    decreases a.len() - p - s,
{
    if p + s < a.len() && p + s < b.len() && ends_agree(a, b, s) {
        lemma_suffix_from(a, b, p, s + 1);
    } else {
        assert(is_common_suffix(a, b, p, s));
    }
}

/// Where no key occurs twice on either side and equal elements share their
/// key, an old position feeds a new one exactly when the two hold the same key.
pub proof fn lemma_feeds_by_key<T: PartialEq, K, F: Fn(&T) -> K>(
    a: Seq<T>,
    b: Seq<T>,
    key_fn: F,
    i: int,
    j: int,
)
    requires
        distinct(keys_of(key_fn, a)),
        distinct(keys_of(key_fn, b)),
        equal_items_share_key::<T, K, F>(key_fn),
        0 <= i < a.len(),
        0 <= j < b.len(),
    ensures
        feeds(a, b, keys_of(key_fn, a), keys_of(key_fn, b), i, j) <==> key_of(key_fn, a[i]) == key_of(
            key_fn,
            b[j],
        ),
{
    let ka = keys_of(key_fn, a);
    let kb = keys_of(key_fn, b);
    lemma_common_prefix_exists(a, b);
    let p = common_prefix(a, b);
    lemma_common_suffix_exists(a, b, p);
    let s = common_suffix(a, b, p);
    let n = a.len() as int;
    let m = b.len() as int;
    let same_key = key_of(key_fn, a[i]) == key_of(key_fn, b[j]);
    assert(same_key <==> ka[i] == kb[j]);
    // a position of the common ends holds the same key on both sides
    assert forall|t: int| 0 <= t < p implies #[trigger] ka[t] == kb[t] by {
        assert(a[t].eq_spec(&b[t]));
    }
    assert forall|u: int| n - s <= u < n implies #[trigger] ka[u] == kb[u - n + m] by {
        assert(ends_agree(a, b, n - 1 - u));
    }
    if j < p {
        assert(ka[j] == kb[j]);
        assert(feeds(a, b, ka, kb, i, j) <==> i == j);
        if i != j {
            assert(ka[i] != ka[j]);
        }
    } else if j >= m - s {
        let u = j - m + n;
        assert(ka[u] == kb[j]);
        assert(feeds(a, b, ka, kb, i, j) <==> i == u);
        if i != u {
            assert(ka[i] != ka[u]);
        }
    } else {
        assert(feeds(a, b, ka, kb, i, j) <==> matched(ka, kb, p, n - s, m - s, i, j));
        if ka[i] == kb[j] {
            if i < p {
                assert(ka[i] == kb[i]);
                assert(kb[i] != kb[j]);
            }
            if i >= n - s {
                assert(ka[i] == kb[i - n + m]);
                assert(kb[j] != kb[i - n + m]);
            }
            assert(p <= i < n - s);
            lemma_occurrences_distinct(ka, ka[i], p, n - s);
            lemma_occurrences_distinct(kb, kb[j], p, m - s);
            lemma_rank_below_count(ka, p, n - s, i);
            lemma_rank_below_count(kb, p, m - s, j);
            assert(rank(ka, p, i) == 0);
            assert(rank(kb, p, j) == 0);
            assert(occurrences(ka, ka[i], p, n - s) == 1);
            assert(occurrences(kb, kb[j], p, m - s) == 1);
            assert(matched(ka, kb, p, n - s, m - s, i, j));
        }
    }
}

/// Where equal elements share their key, an old position whose key the new
/// list does not hold is removed.
pub proof fn lemma_absent_key_removed<T: PartialEq, K, F: Fn(&T) -> K>(
    a: Seq<T>,
    b: Seq<T>,
    key_fn: F,
    i: int,
)
    requires
        equal_items_share_key::<T, K, F>(key_fn),
        0 <= i < a.len(),
        forall|j: int| 0 <= j < b.len() ==> key_of(key_fn, a[i]) != key_of(key_fn, #[trigger] b[j]),
    ensures
        removed(a, b, keys_of(key_fn, a), keys_of(key_fn, b), i),
{
    let ka = keys_of(key_fn, a);
    let kb = keys_of(key_fn, b);
    lemma_common_prefix_exists(a, b);
    let p = common_prefix(a, b);
    lemma_common_suffix_exists(a, b, p);
    let s = common_suffix(a, b, p);
    let n = a.len() as int;
    let m = b.len() as int;
    if i < p {
        assert(a[i].eq_spec(&b[i]));
        assert(key_of(key_fn, a[i]) == key_of(key_fn, b[i]));
    }
    if i >= n - s {
        let j = i - n + m;
        assert(ends_agree(a, b, n - 1 - i));
        assert(key_of(key_fn, a[i]) == key_of(key_fn, b[j]));
    }
    lemma_occurrences_found(kb, ka[i], p, m - s);
    if occurrences(kb, ka[i], p, m - s) > 0 {
        let j = choose|j: int| p <= j < m - s && kb[j] == ka[i];
        assert(key_of(key_fn, a[i]) == key_of(key_fn, b[j]));
    }
}

/// Where, besides, no key occurs twice on either side, a removed old position
/// holds a key that the new list does not hold.
pub proof fn lemma_removed_key_absent<T: PartialEq, K, F: Fn(&T) -> K>(
    a: Seq<T>,
    b: Seq<T>,
    key_fn: F,
    i: int,
    j: int,
)
    requires
        distinct(keys_of(key_fn, a)),
        equal_items_share_key::<T, K, F>(key_fn),
        removed(a, b, keys_of(key_fn, a), keys_of(key_fn, b), i),
        0 <= i < a.len(),
        0 <= j < b.len(),
    ensures
        key_of(key_fn, a[i]) != key_of(key_fn, b[j]),
{
    let ka = keys_of(key_fn, a);
    let kb = keys_of(key_fn, b);
    lemma_common_prefix_exists(a, b);
    let p = common_prefix(a, b);
    lemma_common_suffix_exists(a, b, p);
    let s = common_suffix(a, b, p);
    let n = a.len() as int;
    let m = b.len() as int;
    lemma_occurrences_found(kb, ka[i], p, m - s);
    if ka[i] == kb[j] {
        if j < p {
            assert(a[j].eq_spec(&b[j]));
            assert(ka[j] == kb[j]);
        } else if j >= m - s {
            assert(ends_agree(a, b, m - 1 - j));
            assert(ka[j - m + n] == kb[j]);
        } else {
            assert(p <= j < m - s && kb[j] == ka[i]);
        }
    }
}

} // verus!
