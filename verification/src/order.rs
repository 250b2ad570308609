//! Stable sorting by key.

use vstd::prelude::*;

use crate::text::chars_of;

verus! {

/// A key to sort by: a total preorder with an executable comparison.
pub trait SortKey {
    /// Whether the key does not come after the other.
    spec fn key_le(&self, other: &Self) -> bool;

    /// Of two keys one does not come after the other.
    proof fn key_total(&self, other: &Self)
        ensures
            self.key_le(other) || other.key_le(self),
    ;

    /// The order of keys is transitive.
    proof fn key_transitive(&self, middle: &Self, other: &Self)
        requires
            self.key_le(middle),
            middle.key_le(other),
        ensures
            self.key_le(other),
    ;

    /// Whether the key does not come after the other.
    fn at_most(&self, other: &Self) -> (yes: bool)
        ensures
            yes == self.key_le(other),
    ;
}

impl SortKey for i64 {
    open spec fn key_le(&self, other: &i64) -> bool {
        *self <= *other
    }

    proof fn key_total(&self, other: &i64) {
    }

    proof fn key_transitive(&self, middle: &i64, other: &i64) {
    }

    fn at_most(&self, other: &i64) -> (yes: bool) {
        *self <= *other
    }
}

/// The lexicographic order over an order of the items: by the first items that
/// differ, and a sequence before its extensions.
pub open spec fn lex_le<T>(le: spec_fn(T, T) -> bool, a: Seq<T>, b: Seq<T>) -> bool
    decreases a.len(),
{
    if a.len() == 0 {
        true
    } else if b.len() == 0 {
        false
    } else if a[0] == b[0] {
        lex_le(le, a.skip(1), b.skip(1))
    } else {
        le(a[0], b[0])
    }
}

/// Whether a relation is a total order.
pub open spec fn is_total_order<T>(le: spec_fn(T, T) -> bool) -> bool {
    &&& forall|x: T, y: T| #[trigger] le(x, y) || le(y, x)
    &&& forall|x: T, y: T| #[trigger] le(x, y) && le(y, x) ==> x == y
    &&& forall|x: T, y: T, z: T| #[trigger] le(x, y) && #[trigger] le(y, z) ==> le(x, z)
}

/// Of two sequences one does not come after the other.
pub proof fn lemma_lex_total<T>(le: spec_fn(T, T) -> bool, a: Seq<T>, b: Seq<T>)
    requires
        is_total_order(le),
    ensures
        lex_le(le, a, b) || lex_le(le, b, a),
    decreases a.len(),
{
    if a.len() > 0 && b.len() > 0 {
        if a[0] == b[0] {
            lemma_lex_total(le, a.skip(1), b.skip(1));
        } else {
            assert(le(a[0], b[0]) || le(b[0], a[0]));
        }
    }
}

/// The lexicographic order is transitive.
pub proof fn lemma_lex_transitive<T>(
    le: spec_fn(T, T) -> bool,
    a: Seq<T>,
    b: Seq<T>,
    c: Seq<T>,
)
    requires
        is_total_order(le),
        lex_le(le, a, b),
        lex_le(le, b, c),
    ensures
        lex_le(le, a, c),
    decreases a.len(),
{
    if a.len() > 0 && b.len() > 0 && c.len() > 0 {
        if a[0] == b[0] && b[0] == c[0] {
            lemma_lex_transitive(le, a.skip(1), b.skip(1), c.skip(1));
        } else if a[0] != b[0] && b[0] != c[0] {
            assert(le(a[0], b[0]) && le(b[0], c[0]));
        }
    }
}

/// Sequences that do not come after one another are the same.
pub proof fn lemma_lex_antisymmetric<T>(le: spec_fn(T, T) -> bool, a: Seq<T>, b: Seq<T>)
    requires
        is_total_order(le),
        lex_le(le, a, b),
        lex_le(le, b, a),
    ensures
        a == b,
    decreases a.len(),
{
    if a.len() > 0 && b.len() > 0 {
        if a[0] == b[0] {
            lemma_lex_antisymmetric(le, a.skip(1), b.skip(1));
            assert(a =~= seq![a[0]] + a.skip(1));
            assert(b =~= seq![b[0]] + b.skip(1));
        } else {
            assert(le(a[0], b[0]) && le(b[0], a[0]));
        }
    } else {
        assert(a =~= b);
    }
}

/// The order of characters by their code points.
pub open spec fn char_le() -> spec_fn(char, char) -> bool {
    |x: char, y: char| x as int <= y as int
}

/// The order of texts, by their characters.
pub open spec fn text_le(a: Seq<char>, b: Seq<char>) -> bool {
    lex_le(char_le(), a, b)
}

/// Whether `a` does not come after `b`.
pub fn text_at_most(a: &str, b: &str) -> (yes: bool)
    ensures
        yes == text_le(a@, b@),
{
    let left = chars_of(a);
    let right = chars_of(b);
    let mut i: usize = 0;
    proof {
        assert(a@.skip(0) =~= a@);
        assert(b@.skip(0) =~= b@);
    }
    while i < left.len() && i < right.len()
        invariant
            left@ == a@,
            right@ == b@,
            i <= a@.len(),
            i <= b@.len(),
            text_le(a@, b@) == text_le(a@.skip(i as int), b@.skip(i as int)),
        decreases a@.len() - i,
    {
        proof {
            assert(a@.skip(i as int)[0] == a@[i as int]);
            assert(b@.skip(i as int)[0] == b@[i as int]);
            assert(a@.skip(i as int).skip(1) =~= a@.skip(i + 1));
            assert(b@.skip(i as int).skip(1) =~= b@.skip(i + 1));
        }
        let x: char = left[i];
        let y: char = right[i];
        if x != y {
            return x < y;
        }
        i += 1;
    }
    i == left.len()
}

impl SortKey for String {
    open spec fn key_le(&self, other: &String) -> bool {
        text_le(self@, other@)
    }

    proof fn key_total(&self, other: &String) {
        lemma_lex_total(char_le(), self@, other@);
    }

    proof fn key_transitive(&self, middle: &String, other: &String) {
        lemma_lex_transitive(char_le(), self@, middle@, other@);
    }

    fn at_most(&self, other: &String) -> (yes: bool) {
        text_at_most(self.as_str(), other.as_str())
    }
}

/// Whether the key at `i` does not come after the key at `j`.
pub open spec fn not_after<K: SortKey>(keys: Seq<K>, descending: bool, i: int, j: int) -> bool {
    if descending {
        keys[j].key_le(&keys[i])
    } else {
        keys[i].key_le(&keys[j])
    }
}

/// Whether `i` stands before `j` in a stable sort: by key, and by position
/// among equal keys.
pub open spec fn comes_before<K: SortKey>(keys: Seq<K>, descending: bool, i: int, j: int) -> bool {
    not_after(keys, descending, i, j) && (not_after(keys, descending, j, i) ==> i < j)
}

/// Whether a position is among those that `order` lists.
pub open spec fn lists(order: Seq<usize>, x: int) -> bool {
    exists|i: int| 0 <= i < order.len() && #[trigger] order[i] == x
}

/// Whether `order` lists the positions from `lo` to `hi`, each once, as a
/// stable sort by `keys` does.
pub open spec fn orders_range<K: SortKey>(
    keys: Seq<K>,
    descending: bool,
    lo: int,
    hi: int,
    order: Seq<usize>,
) -> bool {
    &&& order.len() == hi - lo
    &&& forall|i: int| 0 <= i < order.len() ==> lo <= #[trigger] order[i] < hi
    &&& forall|i: int, j: int|
        0 <= i < j < order.len() ==> comes_before(
            keys,
            descending,
            #[trigger] order[i] as int,
            #[trigger] order[j] as int,
        )
    &&& forall|x: int| lo <= x < hi ==> #[trigger] lists(order, x)
}

/// Whether `order` lists all positions as a stable sort by `keys` does.
pub open spec fn is_stable_order<K: SortKey>(
    keys: Seq<K>,
    descending: bool,
    order: Seq<usize>,
) -> bool {
    orders_range(keys, descending, 0, keys.len() as int, order)
}

/// The items of a sequence in another order.
pub open spec fn reordered<T>(items: Seq<T>, order: Seq<usize>) -> Seq<T> {
    Seq::new(order.len(), |i: int| items[order[i] as int])
}

proof fn lemma_before_transitive<K: SortKey>(
    keys: Seq<K>,
    descending: bool,
    a: int,
    b: int,
    c: int,
)
    requires
        comes_before(keys, descending, a, b),
        comes_before(keys, descending, b, c),
    ensures
        comes_before(keys, descending, a, c),
{
    if descending {
        keys[c].key_transitive(&keys[b], &keys[a]);
        if keys[a].key_le(&keys[c]) {
            keys[a].key_transitive(&keys[c], &keys[b]);
            keys[b].key_transitive(&keys[a], &keys[c]);
        }
    } else {
        keys[a].key_transitive(&keys[b], &keys[c]);
        if keys[c].key_le(&keys[a]) {
            keys[c].key_transitive(&keys[a], &keys[b]);
            keys[b].key_transitive(&keys[c], &keys[a]);
        }
    }
}

fn stays_first<K: SortKey>(keys: &Vec<K>, descending: bool, i: usize, j: usize) -> (yes: bool)
    requires
        i < keys@.len(),
        j < keys@.len(),
    ensures
        yes == not_after(keys@, descending, i as int, j as int),
{
    if descending {
        keys[j].at_most(&keys[i])
    } else {
        keys[i].at_most(&keys[j])
    }
}

/// Whether all of `done` come before `next`.
spec fn all_before<K: SortKey>(
    keys: Seq<K>,
    descending: bool,
    done: Seq<usize>,
    next: usize,
) -> bool {
    forall|o: int|
        0 <= o < done.len() ==> comes_before(
            keys,
            descending,
            #[trigger] done[o] as int,
            next as int,
        )
}

fn merge<K: SortKey>(
    keys: &Vec<K>,
    descending: bool,
    left: &Vec<usize>,
    right: &Vec<usize>,
    Ghost(lo): Ghost<int>,
    Ghost(mid): Ghost<int>,
    Ghost(hi): Ghost<int>,
) -> (out: Vec<usize>)
    requires
        0 <= lo <= mid <= hi <= keys@.len(),
        orders_range(keys@, descending, lo, mid, left@),
        orders_range(keys@, descending, mid, hi, right@),
    ensures
        orders_range(keys@, descending, lo, hi, out@),
{
    let mut out: Vec<usize> = Vec::new();
    let mut i: usize = 0;
    let mut j: usize = 0;
    while i < left.len() || j < right.len()
        invariant
            0 <= lo <= mid <= hi <= keys@.len(),
            orders_range(keys@, descending, lo, mid, left@),
            orders_range(keys@, descending, mid, hi, right@),
            i <= left@.len(),
            j <= right@.len(),
            out@.len() == i + j,
            forall|o: int| 0 <= o < out@.len() ==> lo <= #[trigger] out@[o] < hi,
            forall|a: int, b: int|
                0 <= a < b < out@.len() ==> comes_before(
                    keys@,
                    descending,
                    #[trigger] out@[a] as int,
                    #[trigger] out@[b] as int,
                ),
            forall|a: int|
                i <= a < left@.len() ==> all_before(
                    keys@,
                    descending,
                    out@,
                    #[trigger] left@[a],
                ),
            forall|b: int|
                j <= b < right@.len() ==> all_before(
                    keys@,
                    descending,
                    out@,
                    #[trigger] right@[b],
                ),
            forall|a: int| 0 <= a < i ==> lists(out@, #[trigger] left@[a] as int),
            forall|b: int| 0 <= b < j ==> lists(out@, #[trigger] right@[b] as int),
        decreases left@.len() - i + right@.len() - j,
    {
        let ghost before = out@;
        let take_left = if i < left.len() {
            if j < right.len() {
                stays_first(keys, descending, left[i], right[j])
            } else {
                true
            }
        } else {
            false
        };
        let next: usize = if take_left {
            left[i]
        } else {
            right[j]
        };
        proof {
            assert(all_before(keys@, descending, before, next));
            if i < left@.len() && j < right@.len() {
                let l = left@[i as int];
                let r = right@[j as int];
                if take_left {
                    assert(comes_before(keys@, descending, l as int, r as int));
                } else {
                    keys@[l as int].key_total(&keys@[r as int]);
                    assert(comes_before(keys@, descending, r as int, l as int));
                }
            }
            assert forall|a: int|
                (if take_left {
                    i + 1
                } else {
                    i as int
                }) <= a < left@.len() implies comes_before(
                keys@,
                descending,
                next as int,
                #[trigger] left@[a] as int,
            ) by {
                if !take_left && a > i {
                    lemma_before_transitive(
                        keys@,
                        descending,
                        next as int,
                        left@[i as int] as int,
                        left@[a] as int,
                    );
                }
            }
            assert forall|b: int|
                (if take_left {
                    j as int
                } else {
                    j + 1
                }) <= b < right@.len() implies comes_before(
                keys@,
                descending,
                next as int,
                #[trigger] right@[b] as int,
            ) by {
                if take_left && b > j {
                    lemma_before_transitive(
                        keys@,
                        descending,
                        next as int,
                        right@[j as int] as int,
                        right@[b] as int,
                    );
                }
            }
        }
        out.push(next);
        if take_left {
            i += 1;
        } else {
            j += 1;
        }
        proof {
            assert(out@[before.len() as int] == next);
            assert forall|x: int| #[trigger] lists(before, x) implies lists(out@, x) by {
                let k = choose|k: int| 0 <= k < before.len() && #[trigger] before[k] == x;
                assert(out@[k] == x);
            }
            assert forall|a: int| i <= a < left@.len() implies all_before(
                keys@,
                descending,
                out@,
                #[trigger] left@[a],
            ) by {
                assert(all_before(keys@, descending, before, left@[a]));
            }
            assert forall|b: int| j <= b < right@.len() implies all_before(
                keys@,
                descending,
                out@,
                #[trigger] right@[b],
            ) by {
                assert(all_before(keys@, descending, before, right@[b]));
            }
        }
    }
    proof {
        assert forall|x: int| lo <= x < hi implies #[trigger] lists(out@, x) by {
            if x < mid {
                assert(lists(left@, x));
                let a = choose|a: int| 0 <= a < left@.len() && #[trigger] left@[a] == x;
                assert(lists(out@, left@[a] as int));
            } else {
                assert(lists(right@, x));
                let b = choose|b: int| 0 <= b < right@.len() && #[trigger] right@[b] == x;
                assert(lists(out@, right@[b] as int));
            }
        }
    }
    out
}

fn order_range<K: SortKey>(keys: &Vec<K>, descending: bool, lo: usize, hi: usize) -> (order: Vec<
    usize,
>)
    requires
        lo <= hi <= keys@.len(),
    ensures
        orders_range(keys@, descending, lo as int, hi as int, order@),
    decreases hi - lo,
{
    if hi - lo == 0 {
        return Vec::new();
    }
    if hi - lo == 1 {
        let mut order: Vec<usize> = Vec::new();
        order.push(lo);
        proof {
            assert(order@[0] == lo);
        }
        return order;
    }
    let mid: usize = lo + (hi - lo) / 2;
    let left = order_range(keys, descending, lo, mid);
    let right = order_range(keys, descending, mid, hi);
    merge(
        keys,
        descending,
        &left,
        &right,
        Ghost(lo as int),
        Ghost(mid as int),
        Ghost(hi as int),
    )
}

/// The positions of `keys` in the order of a stable sort.
pub fn stable_order<K: SortKey>(keys: &Vec<K>, descending: bool) -> (order: Vec<usize>)
    ensures
        is_stable_order(keys@, descending, order@),
{
    order_range(keys, descending, 0, keys.len())
}

/// A stable order lists no position twice.
pub proof fn lemma_order_is_distinct<K: SortKey>(
    keys: Seq<K>,
    descending: bool,
    order: Seq<usize>,
    i: int,
    j: int,
)
    requires
        is_stable_order(keys, descending, order),
        0 <= i < j < order.len(),
    ensures
        order[i] != order[j],
{
    assert(comes_before(keys, descending, order[i] as int, order[j] as int));
}

/// Sorts items by their keys; items with equal keys keep their order.
pub fn sort_by_keys<T, K: SortKey>(items: Vec<T>, keys: &Vec<K>, descending: bool) -> (sorted: Vec<
    T,
>)
    requires
        items@.len() == keys@.len(),
    ensures
        exists|order: Seq<usize>|
            is_stable_order(keys@, descending, order) && sorted@ == reordered(items@, order),
{
    let order = stable_order(keys, descending);
    let ghost source = items@;
    let mut slots: Vec<Option<T>> = Vec::new();
    for item in it: items
        invariant
            it.seq() == source,
            slots@.len() == it.index(),
            forall|j: int| 0 <= j < slots@.len() ==> #[trigger] slots@[j] == Some(source[j]),
    {
        slots.push(Some(item));
    }
    let mut sorted: Vec<T> = Vec::new();
    let mut k: usize = 0;
    while k < order.len()
        invariant
            is_stable_order(keys@, descending, order@),
            source.len() == keys@.len(),
            slots@.len() == source.len(),
            k <= order@.len(),
            sorted@.len() == k,
            forall|j: int| 0 <= j < k ==> #[trigger] sorted@[j] == source[order@[j] as int],
            forall|j: int|
                k <= j < order@.len() ==> slots@[#[trigger] order@[j] as int] == Some(
                    source[order@[j] as int],
                ),
        decreases order@.len() - k,
    {
        let at: usize = order[k];
        proof {
            assert forall|j: int| k < j < order@.len() implies order@[j] != at by {
                lemma_order_is_distinct(keys@, descending, order@, k as int, j);
            }
            assert(slots@[order@[k as int] as int] == Some(source[order@[k as int] as int]));
        }
        let taken = slots[at].take();
        match taken {
            Some(item) => {
                sorted.push(item);
            },
            None => {
                proof {
                    assert(false);
                }
            },
        }
        k += 1;
    }
    proof {
        assert(sorted@ =~= reordered(source, order@));
    }
    sorted
}

proof fn lemma_orders_agree<K: SortKey>(
    keys: Seq<K>,
    descending: bool,
    a: Seq<usize>,
    b: Seq<usize>,
    n: int,
)
    requires
        is_stable_order(keys, descending, a),
        is_stable_order(keys, descending, b),
        0 <= n <= keys.len(),
    ensures
        forall|i: int| 0 <= i < n ==> #[trigger] a[i] == b[i],
    decreases n,
{
    if n > 0 {
        lemma_orders_agree(keys, descending, a, b, n - 1);
        if a[n - 1] != b[n - 1] {
            assert(lists(a, b[n - 1] as int));
            assert(lists(b, a[n - 1] as int));
            let i = choose|i: int| 0 <= i < a.len() && #[trigger] a[i] == b[n - 1];
            let j = choose|j: int| 0 <= j < b.len() && #[trigger] b[j] == a[n - 1];
            if i < n - 1 {
                lemma_order_is_distinct(keys, descending, b, i, n - 1);
            }
            if j < n - 1 {
                lemma_order_is_distinct(keys, descending, a, j, n - 1);
            }
            assert(comes_before(keys, descending, a[n - 1] as int, a[i] as int));
            assert(comes_before(keys, descending, b[n - 1] as int, b[j] as int));
        }
    }
}

/// A stable sort leaves no choice: there is one order that it can give.
pub proof fn law_stable_order_is_unique<K: SortKey>(
    keys: Seq<K>,
    descending: bool,
    a: Seq<usize>,
    b: Seq<usize>,
)
    requires
        is_stable_order(keys, descending, a),
        is_stable_order(keys, descending, b),
    ensures
        a == b,
{
    lemma_orders_agree(keys, descending, a, b, keys.len() as int);
    assert(a =~= b);
}

/// What is in order already is not moved by a stable sort.
pub proof fn law_sorted_items_stay<K: SortKey, T>(
    keys: Seq<K>,
    descending: bool,
    order: Seq<usize>,
    items: Seq<T>,
)
    requires
        items.len() == keys.len(),
        is_stable_order(keys, descending, order),
        forall|i: int, j: int|
            0 <= i < j < keys.len() ==> #[trigger] not_after(keys, descending, i, j),
    ensures
        reordered(items, order) == items,
{
    let n = keys.len() as int;
    let same = Seq::new(keys.len(), |i: int| i as usize);
    assert forall|i: int| 0 <= i < n implies #[trigger] same[i] == i by {
        assert(lists(order, i));
    }
    assert forall|i: int, j: int| 0 <= i < j < same.len() implies comes_before(
        keys,
        descending,
        #[trigger] same[i] as int,
        #[trigger] same[j] as int,
    ) by {
        assert(not_after(keys, descending, i, j));
    }
    assert forall|x: int| 0 <= x < n implies #[trigger] lists(same, x) by {
        assert(same[x] == x);
    }
    law_stable_order_is_unique(keys, descending, order, same);
    assert(reordered(items, order) =~= items);
}

} // verus!
