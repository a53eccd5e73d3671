//! Stable sorting by keys.

use crate::domain::text;
use crate::domain::text::{text_order, TextOrder};
use vstd::prelude::*;

verus! {

/// A key by which items are sorted.
pub trait SortKey: Sized {
    /// Whether an item with this key comes before one with the other.
    spec fn precedes(&self, other: &Self) -> bool;

    proof fn precedes_asymmetric(a: &Self, b: &Self)
        ensures
            !(a.precedes(b) && b.precedes(a)),
    ;

    proof fn precedes_transitive(a: &Self, b: &Self, c: &Self)
        requires
            a.precedes(b),
            b.precedes(c),
        ensures
            a.precedes(c),
    ;

    proof fn precedes_splits(a: &Self, b: &Self, c: &Self)
        requires
            a.precedes(c),
        ensures
            a.precedes(b) || b.precedes(c),
    ;

    fn comes_first(&self, other: &Self) -> (r: bool)
        ensures
            r == self.precedes(other),
    ;
}

/// Numbers in ascending order.
impl SortKey for u32 {
    open spec fn precedes(&self, other: &Self) -> bool {
        *self < *other
    }

    proof fn precedes_asymmetric(a: &Self, b: &Self) {
    }

    proof fn precedes_transitive(a: &Self, b: &Self, c: &Self) {
    }

    proof fn precedes_splits(a: &Self, b: &Self, c: &Self) {
    }

    fn comes_first(&self, other: &Self) -> (r: bool) {
        *self < *other
    }
}

/// A number that sorts in descending order.
#[derive(Debug, Clone, Copy, PartialEq, Eq, Structural)]
pub struct Descending {
    pub value: u32,
}

impl SortKey for Descending {
    open spec fn precedes(&self, other: &Self) -> bool {
        self.value > other.value
    }

    proof fn precedes_asymmetric(a: &Self, b: &Self) {
    }

    proof fn precedes_transitive(a: &Self, b: &Self, c: &Self) {
    }

    proof fn precedes_splits(a: &Self, b: &Self, c: &Self) {
    }

    fn comes_first(&self, other: &Self) -> (r: bool) {
        self.value > other.value
    }
}

/// Texts in lexicographic order.
impl<'a> SortKey for &'a str {
    open spec fn precedes(&self, other: &Self) -> bool {
        text::text_before(self@, other@)
    }

    proof fn precedes_asymmetric(a: &Self, b: &Self) {
        text::lemma_text_order_strict(a@, b@);
    }

    proof fn precedes_transitive(a: &Self, b: &Self, c: &Self) {
        text::lemma_text_order_transitive(a@, b@, c@);
    }

    proof fn precedes_splits(a: &Self, b: &Self, c: &Self) {
        text::lemma_text_order_total(a@, b@);
        if text::text_before(b@, a@) {
            text::lemma_text_order_transitive(b@, a@, c@);
        }
    }

    fn comes_first(&self, other: &Self) -> (r: bool) {
        match text_order(self, other) {
            TextOrder::Before => true,
            _ => false,
        }
    }
}

/// Whether item `x` stands before item `y` in a stable order: by the key, and
/// among equal keys by position.
pub open spec fn placed_before(first: spec_fn(int, int) -> bool, x: usize, y: usize) -> bool {
    first(x as int, y as int) || (!first(y as int, x as int) && x < y)
}

/// Whether `first` orders positions by keys, some of which may be equal.
pub open spec fn weak_order(first: spec_fn(int, int) -> bool) -> bool {
    &&& forall|a: int, b: int| !(#[trigger] first(a, b) && first(b, a))
    &&& forall|a: int, b: int, c: int| #[trigger]
        first(a, b) && #[trigger] first(b, c) ==> first(a, c)
    &&& forall|a: int, b: int, c: int|
        #![trigger first(a, c), first(a, b)]
        #![trigger first(a, c), first(b, c)]
        first(a, c) ==> first(a, b) || first(b, c)
}

/// Whether each position stands before all that follow it.
pub open spec fn in_order(first: spec_fn(int, int) -> bool, list: Seq<usize>) -> bool {
    forall|i: int, j: int|
        #![trigger list[i], list[j]]
        0 <= i < j < list.len() ==> placed_before(first, list[i], list[j])
}

/// Whether `order` lists the positions below `n` once each, in stable order.
pub open spec fn is_stable_order(
    order: Seq<usize>,
    n: nat,
    first: spec_fn(int, int) -> bool,
) -> bool {
    &&& order.len() == n
    &&& forall|i: int| 0 <= i < order.len() ==> (#[trigger] order[i]) < n
    &&& forall|k: usize| k < n ==> #[trigger] order.contains(k)
    &&& in_order(first, order)
}

/// The stable order of the positions below `n`.
pub open spec fn stable_order(n: nat, first: spec_fn(int, int) -> bool) -> Seq<usize> {
    choose|order: Seq<usize>| is_stable_order(order, n, first)
}

proof fn lemma_placed_strict(first: spec_fn(int, int) -> bool, x: usize, y: usize)
    requires
        weak_order(first),
    ensures
        !(placed_before(first, x, y) && placed_before(first, y, x)),
{
}

proof fn lemma_placed_transitive(
    first: spec_fn(int, int) -> bool,
    x: usize,
    y: usize,
    z: usize,
)
    requires
        weak_order(first),
        placed_before(first, x, y),
        placed_before(first, y, z),
    ensures
        placed_before(first, x, z),
{
    let (a, b, c) = (x as int, y as int, z as int);
    if first(a, b) {
        if !first(b, c) {
            if !first(a, c) {
                assert(first(a, c) || first(c, b));
            }
        }
    } else if first(b, c) {
        assert(first(b, a) || first(a, c));
    } else {
        if first(c, a) {
            assert(first(c, b) || first(b, a));
        }
    }
}

/// Two lists in order with the same positions are the same list.
proof fn lemma_in_order_unique(
    first: spec_fn(int, int) -> bool,
    a: Seq<usize>,
    b: Seq<usize>,
)
    requires
        weak_order(first),
        a.len() == b.len(),
        in_order(first, a),
        in_order(first, b),
        forall|i: int| 0 <= i < a.len() ==> b.contains(#[trigger] a[i]),
        forall|i: int| 0 <= i < b.len() ==> a.contains(#[trigger] b[i]),
    ensures
        a == b,
    decreases a.len(),
{
    if a.len() == 0 {
        assert(a =~= b);
    } else {
        let n = a.len() - 1;
        assert(b.contains(a[n]));
        assert(a.contains(b[n]));
        let i = choose|i: int| 0 <= i < a.len() && a[i] == b[n];
        let j = choose|j: int| 0 <= j < b.len() && b[j] == a[n];
        if a[n] != b[n] {
            assert(placed_before(first, a[i], a[n]));
            assert(placed_before(first, b[j], b[n]));
            lemma_placed_strict(first, a[n], b[n]);
        }
        let x = a.drop_last();
        let y = b.drop_last();
        assert forall|k: int| 0 <= k < x.len() implies y.contains(#[trigger] x[k]) by {
            assert(x[k] == a[k]);
            assert(b.contains(a[k]));
            let m = choose|m: int| 0 <= m < b.len() && b[m] == a[k];
            if m == n {
                assert(placed_before(first, a[k], a[n]));
                lemma_placed_strict(first, a[k], a[n]);
            }
            assert(y[m] == x[k]);
        }
        assert forall|k: int| 0 <= k < y.len() implies x.contains(#[trigger] y[k]) by {
            assert(y[k] == b[k]);
            assert(a.contains(b[k]));
            let m = choose|m: int| 0 <= m < a.len() && a[m] == b[k];
            if m == n {
                assert(placed_before(first, b[k], b[n]));
                lemma_placed_strict(first, b[k], b[n]);
            }
            assert(x[m] == y[k]);
        }
        lemma_in_order_unique(first, x, y);
        assert(a =~= x.push(a[n]));
        assert(b =~= y.push(b[n]));
    }
}

/// There is at most one stable order.
pub proof fn lemma_stable_order_unique(
    order: Seq<usize>,
    n: nat,
    first: spec_fn(int, int) -> bool,
)
    requires
        weak_order(first),
        is_stable_order(order, n, first),
    ensures
        order == stable_order(n, first),
{
    let other = stable_order(n, first);
    assert(is_stable_order(other, n, first));
    lemma_in_order_unique(first, order, other);
}

/// The order of positions by the keys in a list.
pub open spec fn key_order<K: SortKey>(keys: Seq<K>) -> spec_fn(int, int) -> bool {
    |i: int, j: int| keys[i].precedes(&keys[j])
}

proof fn lemma_key_order<K: SortKey>(keys: Seq<K>)
    ensures
        weak_order(key_order(keys)),
{
    let first = key_order(keys);
    assert forall|a: int, b: int| !(#[trigger] first(a, b) && first(b, a)) by {
        K::precedes_asymmetric(&keys[a], &keys[b]);
    }
    assert forall|a: int, b: int, c: int| #[trigger]
        first(a, b) && #[trigger] first(b, c) implies first(a, c) by {
        K::precedes_transitive(&keys[a], &keys[b], &keys[c]);
    }
    assert forall|a: int, b: int, c: int|
        #![trigger first(a, c), first(a, b)]
        #![trigger first(a, c), first(b, c)]
        first(a, c) implies first(a, b) || first(b, c) by {
        K::precedes_splits(&keys[a], &keys[b], &keys[c]);
    }
}

/// Whether a list holds the positions of a range, in order.
spec fn sorts_range(
    first: spec_fn(int, int) -> bool,
    list: Seq<usize>,
    low: int,
    high: int,
) -> bool {
    &&& list.len() == high - low
    &&& forall|i: int| 0 <= i < list.len() ==> low <= (#[trigger] list[i]) < high
    &&& forall|k: usize| low <= k < high ==> #[trigger] list.contains(k)
    &&& in_order(first, list)
}

fn merge<K: SortKey>(
    keys: &Vec<K>,
    left: &Vec<usize>,
    right: &Vec<usize>,
    Ghost(low): Ghost<int>,
    Ghost(middle): Ghost<int>,
    Ghost(high): Ghost<int>,
) -> (r: Vec<usize>)
    requires
        0 <= low <= middle <= high <= keys@.len(),
        sorts_range(key_order(keys@), left@, low, middle),
        sorts_range(key_order(keys@), right@, middle, high),
    ensures
        sorts_range(key_order(keys@), r@, low, high),
{
    let ghost first = key_order(keys@);
    proof {
        lemma_key_order(keys@);
    }
    let mut r: Vec<usize> = Vec::new();
    let mut i: usize = 0;
    let mut j: usize = 0;
    while i < left.len() || j < right.len()
        invariant
            0 <= low <= middle <= high <= keys@.len(),
            first == key_order(keys@),
            weak_order(first),
            sorts_range(first, left@, low, middle),
            sorts_range(first, right@, middle, high),
            i <= left@.len(),
            j <= right@.len(),
            r@.len() == i + j,
            in_order(first, r@),
            forall|k: int| 0 <= k < r@.len() ==> low <= (#[trigger] r@[k]) < high,
            forall|k: int| 0 <= k < i ==> r@.contains(#[trigger] left@[k]),
            forall|k: int| 0 <= k < j ==> r@.contains(#[trigger] right@[k]),
            forall|k: int, m: int|
                #![trigger r@[k], left@[m]]
                0 <= k < r@.len() && i <= m < left@.len() ==> placed_before(
                    first,
                    r@[k],
                    left@[m],
                ),
            forall|k: int, m: int|
                #![trigger r@[k], right@[m]]
                0 <= k < r@.len() && j <= m < right@.len() ==> placed_before(
                    first,
                    r@[k],
                    right@[m],
                ),
        decreases left@.len() - i + right@.len() - j,
    {
        let take_left: bool = if i >= left.len() {
            false
        } else if j >= right.len() {
            true
        } else {
            !keys[right[j]].comes_first(&keys[left[i]])
        };
        let ghost before = r@;
        if take_left {
            let x: usize = left[i];
            proof {
                if j < right@.len() {
                    assert(!first(right@[j as int] as int, x as int));
                    assert(placed_before(first, x, right@[j as int]));
                    assert forall|m: int| j <= m < right@.len() implies placed_before(
                        first,
                        x,
                        #[trigger] right@[m],
                    ) by {
                        if m > j {
                            lemma_placed_transitive(first, x, right@[j as int], right@[m]);
                        }
                    }
                }
            }
            r.push(x);
            i += 1;
            assert(r@[before.len() as int] == left@[i - 1]);
        } else {
            let x: usize = right[j];
            proof {
                if i < left@.len() {
                    assert(first(x as int, left@[i as int] as int));
                    assert(placed_before(first, x, left@[i as int]));
                    assert forall|m: int| i <= m < left@.len() implies placed_before(
                        first,
                        x,
                        #[trigger] left@[m],
                    ) by {
                        if m > i {
                            lemma_placed_transitive(first, x, left@[i as int], left@[m]);
                        }
                    }
                }
            }
            r.push(x);
            j += 1;
            assert(r@[before.len() as int] == right@[j - 1]);
        }
        proof {
            assert forall|y: usize| #[trigger] before.contains(y) implies r@.contains(y) by {
                let k = choose|k: int| 0 <= k < before.len() && before[k] == y;
                assert(r@[k] == y);
            }
        }
    }
    proof {
        assert forall|k: usize| low <= k < high implies #[trigger] r@.contains(k) by {
            if k < middle {
                assert(left@.contains(k));
            } else {
                assert(right@.contains(k));
            }
        }
    }
    r
}

fn sort_range<K: SortKey>(keys: &Vec<K>, low: usize, high: usize) -> (r: Vec<usize>)
    requires
        low <= high <= keys@.len(),
    ensures
        sorts_range(key_order(keys@), r@, low as int, high as int),
    decreases high - low,
{
    if high - low == 0 {
        Vec::new()
    } else if high - low == 1 {
        let mut r: Vec<usize> = Vec::new();
        r.push(low);
        assert(r@[0] == low);
        r
    } else {
        let middle: usize = low + (high - low) / 2;
        let left = sort_range(keys, low, middle);
        let right = sort_range(keys, middle, high);
        merge(keys, &left, &right, Ghost(low as int), Ghost(middle as int), Ghost(high as int))
    }
}

/// Whether a list holds the positions below `n` once each.
pub open spec fn is_permutation(order: Seq<usize>, n: nat) -> bool {
    &&& order.len() == n
    &&& order.no_duplicates()
    &&& forall|i: int| 0 <= i < order.len() ==> (#[trigger] order[i]) < n
    &&& forall|k: usize| k < n ==> #[trigger] order.contains(k)
}

/// Items in the order of a permutation are the same items.
proof fn lemma_permutation<T>(items: Seq<T>, order: Seq<usize>)
    requires
        is_permutation(order, items.len()),
        items.len() <= usize::MAX,
    ensures
        order.map_values(|k: usize| items[k as int]).to_multiset() == items.to_multiset(),
    decreases items.len(),
{
    let placed = order.map_values(|k: usize| items[k as int]);
    if items.len() == 0 {
        assert(placed =~= items);
    } else {
        let n = (items.len() - 1) as nat;
        let rest = items.drop_last();
        assert(order.contains(n as usize));
        let p = choose|p: int| 0 <= p < order.len() && order[p] == n as usize;
        let fewer = order.remove(p);
        assert forall|i: int| 0 <= i < fewer.len() implies (#[trigger] fewer[i]) < n by {
            if i < p {
                assert(fewer[i] == order[i]);
            } else {
                assert(fewer[i] == order[i + 1]);
            }
        }
        assert forall|k: usize| k < n implies #[trigger] fewer.contains(k) by {
            assert(order.contains(k));
            let i = choose|i: int| 0 <= i < order.len() && order[i] == k;
            if i < p {
                assert(fewer[i] == k);
            } else {
                assert(fewer[i - 1] == k);
            }
        }
        assert(fewer.no_duplicates());
        lemma_permutation(rest, fewer);
        let shorter = fewer.map_values(|k: usize| rest[k as int]);
        assert(placed.remove(p) =~= shorter);
        assert(placed[p] == items.last());
        vstd::seq_lib::to_multiset_remove(placed, p);
        vstd::seq_lib::to_multiset_build(rest, items.last());
        assert(rest.push(items.last()) =~= items);
        placed.to_multiset_ensures();
        assert(placed.contains(placed[p]));
        assert(placed.to_multiset() =~= placed.to_multiset().remove(placed[p]).insert(placed[p]));
    }
}

/// Sorting by keys puts no item before one whose key precedes its own, keeps the order
/// of items whose keys are equal, and leaves the items the same.
pub proof fn law_sorting_by_keys<K: SortKey, T>(items: Seq<T>, keys: Seq<K>)
    requires
        items.len() == keys.len(),
        items.len() <= usize::MAX,
    ensures
        ({
            let order = stable_order(keys.len(), key_order(keys));
            &&& order.len() == keys.len()
            &&& order.map_values(|k: usize| items[k as int]).to_multiset() == items.to_multiset()
            &&& forall|i: int, j: int|
                #![trigger order[i], order[j]]
                0 <= i < j < order.len() ==> order[i] < keys.len() && order[j] < keys.len()
                    && !keys[order[j] as int].precedes(&keys[order[i] as int])
            &&& forall|i: int, j: int|
                #![trigger order[i], order[j]]
                0 <= i < j < order.len() && !keys[order[i] as int].precedes(
                    &keys[order[j] as int],
                ) ==> order[i] < order[j]
        }),
{
    let first = key_order(keys);
    let order = stable_order(keys.len(), first);
    lemma_key_order(keys);
    lemma_stable_order_exists(keys.len(), first);
    assert(order.no_duplicates()) by {
        assert forall|i: int, j: int|
            0 <= i < order.len() && 0 <= j < order.len() && i != j implies order[i]
            != order[j] by {
            let (a, b) = if i < j {
                (i, j)
            } else {
                (j, i)
            };
            assert(placed_before(first, order[a], order[b]));
            lemma_placed_strict(first, order[a], order[b]);
        }
    }
    lemma_permutation(items, order);
    assert forall|i: int, j: int|
        #![trigger order[i], order[j]]
        0 <= i < j < order.len() implies order[i] < keys.len() && order[j] < keys.len()
        && !keys[order[j] as int].precedes(&keys[order[i] as int]) by {
        assert(placed_before(first, order[i], order[j]));
        assert(first(order[j] as int, order[i] as int) == keys[order[j] as int].precedes(
            &keys[order[i] as int],
        ));
    }
    assert forall|i: int, j: int|
        #![trigger order[i], order[j]]
        0 <= i < j < order.len() && !keys[order[i] as int].precedes(
            &keys[order[j] as int],
        ) implies order[i] < order[j] by {
        assert(placed_before(first, order[i], order[j]));
        assert(first(order[i] as int, order[j] as int) == keys[order[i] as int].precedes(
            &keys[order[j] as int],
        ));
    }
}

/// Sorts the positions of the keys by the keys; equal keys keep their order.
pub fn sort_positions<K: SortKey>(keys: &Vec<K>) -> (order: Vec<usize>)
    ensures
        is_stable_order(order@, keys@.len(), key_order(keys@)),
        order@ == stable_order(keys@.len(), key_order(keys@)),
{
    let order = sort_range(keys, 0, keys.len());
    proof {
        lemma_key_order(keys@);
        lemma_stable_order_unique(order@, keys@.len(), key_order(keys@));
    }
    order
}

/// The order of positions by the texts in a list.
pub open spec fn text_first(list: Seq<Seq<char>>) -> spec_fn(int, int) -> bool {
    |i: int, j: int| text::text_before(list[i], list[j])
}

proof fn lemma_text_first(list: Seq<Seq<char>>)
    ensures
        weak_order(text_first(list)),
{
    let first = text_first(list);
    assert forall|a: int, b: int| !(#[trigger] first(a, b) && first(b, a)) by {
        text::lemma_text_order_strict(list[a], list[b]);
    }
    assert forall|a: int, b: int, c: int| #[trigger]
        first(a, b) && #[trigger] first(b, c) implies first(a, c) by {
        text::lemma_text_order_transitive(list[a], list[b], list[c]);
    }
    assert forall|a: int, b: int, c: int|
        #![trigger first(a, c), first(a, b)]
        #![trigger first(a, c), first(b, c)]
        first(a, c) implies first(a, b) || first(b, c) by {
        text::lemma_text_order_total(list[a], list[b]);
        if text::text_before(list[b], list[a]) {
            text::lemma_text_order_transitive(list[b], list[a], list[c]);
        }
    }
}

/// Places a position into a list that is in order.
proof fn lemma_insert_position(
    first: spec_fn(int, int) -> bool,
    list: Seq<usize>,
    n: nat,
) -> (r: Seq<usize>)
    requires
        weak_order(first),
        n < usize::MAX,
        is_stable_order(list, n, first),
    ensures
        is_stable_order(r, n + 1, first),
{
    let x = n as usize;
    let k = lemma_split_position(first, list, x, list.len());
    let r = list.insert(k, x);
    assert forall|i: int| 0 <= i < r.len() implies (#[trigger] r[i]) < n + 1 by {
        if i < k {
            assert(r[i] == list[i]);
        } else if i > k {
            assert(r[i] == list[i - 1]);
        }
    }
    assert forall|y: usize| y < n + 1 implies #[trigger] r.contains(y) by {
        if y == x {
            assert(r[k] == x);
        } else {
            assert(list.contains(y));
            let i = choose|i: int| 0 <= i < list.len() && list[i] == y;
            if i < k {
                assert(r[i] == y);
            } else {
                assert(r[i + 1] == y);
            }
        }
    }
    assert forall|i: int, j: int|
        #![trigger r[i], r[j]]
        0 <= i < j < r.len() implies placed_before(first, r[i], r[j]) by {
        let a = if i < k { i } else { i - 1 };
        let b = if j < k { j } else { j - 1 };
        if i == k {
            assert(r[j] == list[b]);
            assert(!placed_before(first, list[b], x));
            assert(list[b] < n);
        } else if j == k {
            assert(r[i] == list[a]);
        } else {
            assert(r[i] == list[a]);
            assert(r[j] == list[b]);
        }
    }
    r
}

/// Finds where the positions that stand before another end.
proof fn lemma_split_position(
    first: spec_fn(int, int) -> bool,
    list: Seq<usize>,
    x: usize,
    end: nat,
) -> (k: int)
    requires
        weak_order(first),
        in_order(first, list),
        end <= list.len(),
        forall|i: int| end <= i < list.len() ==> !placed_before(first, #[trigger] list[i], x),
    ensures
        0 <= k <= list.len(),
        forall|i: int| 0 <= i < k ==> placed_before(first, #[trigger] list[i], x),
        forall|i: int| k <= i < list.len() ==> !placed_before(first, #[trigger] list[i], x),
    decreases end,
{
    if end == 0 {
        0
    } else if placed_before(first, list[end - 1], x) {
        assert forall|i: int| 0 <= i < end implies placed_before(first, #[trigger] list[i], x) by {
            if i < end - 1 {
                lemma_placed_transitive(first, list[i], list[end - 1], x);
            }
        }
        end as int
    } else {
        lemma_split_position(first, list, x, (end - 1) as nat)
    }
}

/// There is a stable order.
pub proof fn lemma_stable_order_exists(n: nat, first: spec_fn(int, int) -> bool) -> (r: Seq<usize>)
    requires
        weak_order(first),
        n <= usize::MAX,
    ensures
        is_stable_order(r, n, first),
        is_stable_order(stable_order(n, first), n, first),
    decreases n,
{
    if n == 0 {
        let r = Seq::<usize>::empty();
        assert(is_stable_order(r, n, first));
        r
    } else {
        let shorter = lemma_stable_order_exists((n - 1) as nat, first);
        lemma_insert_position(first, shorter, (n - 1) as nat)
    }
}

/// The texts of a list have a stable order.
pub proof fn lemma_text_order_exists(list: Seq<Seq<char>>)
    requires
        list.len() <= usize::MAX,
    ensures
        is_stable_order(
            stable_order(list.len(), text_first(list)),
            list.len(),
            text_first(list),
        ),
{
    lemma_text_first(list);
    lemma_stable_order_exists(list.len(), text_first(list));
}

/// The texts of a list in lexicographic order.
pub open spec fn sorted_texts(list: Seq<Seq<char>>) -> Seq<Seq<char>> {
    stable_order(list.len(), text_first(list)).map_values(|k: usize| list[k as int])
}

/// Sorted texts are the same texts, in lexicographic order.
pub proof fn law_sorted_texts(list: Seq<Seq<char>>)
    requires
        list.len() <= usize::MAX,
    ensures
        sorted_texts(list).to_multiset() == list.to_multiset(),
        forall|i: int, j: int|
            #![trigger sorted_texts(list)[i], sorted_texts(list)[j]]
            0 <= i < j < sorted_texts(list).len() ==> !text::text_before(
                sorted_texts(list)[j],
                sorted_texts(list)[i],
            ),
{
    let first = text_first(list);
    let order = stable_order(list.len(), first);
    lemma_text_first(list);
    lemma_text_order_exists(list);
    assert(order.no_duplicates()) by {
        assert forall|i: int, j: int|
            0 <= i < order.len() && 0 <= j < order.len() && i != j implies order[i]
            != order[j] by {
            let (a, b) = if i < j {
                (i, j)
            } else {
                (j, i)
            };
            assert(placed_before(first, order[a], order[b]));
            lemma_placed_strict(first, order[a], order[b]);
        }
    }
    lemma_permutation(list, order);
    let sorted = sorted_texts(list);
    assert forall|i: int, j: int|
        #![trigger sorted[i], sorted[j]]
        0 <= i < j < sorted.len() implies !text::text_before(sorted[j], sorted[i]) by {
        assert(placed_before(first, order[i], order[j]));
        assert(sorted[i] == list[order[i] as int] && sorted[j] == list[order[j] as int]);
        assert(!first(order[j] as int, order[i] as int));
    }
}

/// Whether texts are in lexicographic order, each of them once.
pub open spec fn strictly_sorted(list: Seq<Seq<char>>) -> bool {
    forall|i: int, j: int|
        #![trigger list[i], list[j]]
        0 <= i < j < list.len() ==> text::text_before(list[i], list[j])
}

/// Sorting different texts leaves none of them out, and puts them in strict order.
pub proof fn law_sorting_different_texts(list: Seq<Seq<char>>)
    requires
        list.len() <= usize::MAX,
        list.no_duplicates(),
    ensures
        strictly_sorted(sorted_texts(list)),
        forall|x: Seq<char>| #[trigger] sorted_texts(list).contains(x) <==> list.contains(x),
{
    let sorted = sorted_texts(list);
    law_sorted_texts(list);
    list.to_multiset_ensures();
    sorted.to_multiset_ensures();
    assert forall|x: Seq<char>| #[trigger] sorted.contains(x) <==> list.contains(x) by {
        assert(sorted.to_multiset().count(x) == list.to_multiset().count(x));
    }
    list.lemma_multiset_has_no_duplicates();
    sorted.lemma_multiset_has_no_duplicates_conv();
    assert forall|i: int, j: int|
        #![trigger sorted[i], sorted[j]]
        0 <= i < j < sorted.len() implies text::text_before(sorted[i], sorted[j]) by {
        text::lemma_text_order_total(sorted[i], sorted[j]);
    }
}

/// Texts in strict order are determined by which texts they are.
pub proof fn law_strictly_sorted_texts_are_a_set(a: Seq<Seq<char>>, b: Seq<Seq<char>>)
    requires
        strictly_sorted(a),
        strictly_sorted(b),
        forall|x: Seq<char>| #[trigger] a.contains(x) <==> b.contains(x),
    ensures
        a == b,
    decreases a.len(),
{
    if a.len() == 0 {
        if b.len() > 0 {
            assert(b.contains(b[0]));
            assert(a.contains(b[0]));
        }
        assert(a =~= b);
    } else {
        let x = a.last();
        assert(a[a.len() - 1] == x);
        assert(a.contains(x));
        let j = choose|j: int| 0 <= j < b.len() && b[j] == x;
        let y = b.last();
        assert(b[b.len() - 1] == y);
        assert(b.contains(y));
        assert(a.contains(y));
        let i = choose|i: int| 0 <= i < a.len() && a[i] == y;
        text::lemma_text_order_strict(x, y);
        text::lemma_text_order_strict(x, x);
        if x != y {
            assert(text::text_before(a[i], a[a.len() - 1]));
            assert(text::text_before(b[j], b[b.len() - 1]));
        }
        let c = a.drop_last();
        let d = b.drop_last();
        assert forall|z: Seq<char>| #[trigger] c.contains(z) <==> d.contains(z) by {
            if c.contains(z) {
                let k = choose|k: int| 0 <= k < c.len() && c[k] == z;
                assert(a[k] == z);
                assert(text::text_before(a[k], a[a.len() - 1]));
                assert(a.contains(z));
                let l = choose|l: int| 0 <= l < b.len() && b[l] == z;
                assert(d[l] == z);
            }
            if d.contains(z) {
                let k = choose|k: int| 0 <= k < d.len() && d[k] == z;
                assert(b[k] == z);
                assert(text::text_before(b[k], b[b.len() - 1]));
                assert(b.contains(z));
                assert(a.contains(z));
                let l = choose|l: int| 0 <= l < a.len() && a[l] == z;
                assert(c[l] == z);
            }
        }
        assert forall|k: int, l: int|
            #![trigger c[k], c[l]]
            0 <= k < l < c.len() implies text::text_before(c[k], c[l]) by {
            assert(a[k] == c[k] && a[l] == c[l]);
        }
        assert forall|k: int, l: int|
            #![trigger d[k], d[l]]
            0 <= k < l < d.len() implies text::text_before(d[k], d[l]) by {
            assert(b[k] == d[k] && b[l] == d[l]);
        }
        law_strictly_sorted_texts_are_a_set(c, d);
        assert(a =~= c.push(x));
        assert(b =~= d.push(y));
    }
}

/// The texts behind a list of references.
pub open spec fn views(keys: Seq<&str>) -> Seq<Seq<char>> {
    keys.map_values(|key: &str| key@)
}

/// Sorts the positions of texts lexicographically; equal texts keep their order.
pub fn sort_texts(keys: &Vec<&str>) -> (order: Vec<usize>)
    ensures
        is_stable_order(order@, keys@.len(), text_first(views(keys@))),
        order@ == stable_order(keys@.len(), text_first(views(keys@))),
{
    let order = sort_positions(keys);
    proof {
        let f = key_order(keys@);
        let g = text_first(views(keys@));
        assert forall|i: int, j: int|
            #![trigger order@[i], order@[j]]
            0 <= i < j < order@.len() implies placed_before(g, order@[i], order@[j]) by {
            let x = order@[i];
            let y = order@[j];
            assert(placed_before(f, x, y));
            assert(x < keys@.len() && y < keys@.len());
            assert(f(x as int, y as int) == g(x as int, y as int));
            assert(f(y as int, x as int) == g(y as int, x as int));
        }
        lemma_text_first(views(keys@));
        lemma_stable_order_unique(order@, keys@.len(), g);
    }
    order
}

} // verus!
