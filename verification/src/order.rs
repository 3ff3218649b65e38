//! Stable sorting by integer keys, and grouping of indices by key.

use vstd::prelude::*;

verus! {

/// A sort key: three integers, compared one after the other.
#[derive(Clone, Copy, Debug, PartialEq, Eq, Structural)]
pub struct SortKey {
    pub first: i64,
    pub second: i64,
    pub third: i64,
}

/// `a` comes before `b` or is the same key.
pub open spec fn key_le(a: SortKey, b: SortKey) -> bool {
    a.first < b.first || (a.first == b.first && (a.second < b.second || (a.second == b.second
        && a.third <= b.third)))
}

/// Whether `a` comes before `b` or is the same key.
pub fn key_at_most(a: SortKey, b: SortKey) -> (r: bool)
    ensures
        r == key_le(a, b),
{
    a.first < b.first || (a.first == b.first && (a.second < b.second || (a.second == b.second
        && a.third <= b.third)))
}

/// The key that holds a single integer.
pub open spec fn single_key(value: int) -> SortKey {
    SortKey { first: value as i64, second: 0, third: 0 }
}

/// `x` put into `s` behind every entry whose key is not greater, counted from the
/// back.
pub open spec fn insert_behind<T>(s: Seq<(SortKey, T)>, x: (SortKey, T)) -> Seq<(SortKey, T)>
    decreases s.len(),
{
    if s.len() == 0 {
        seq![x]
    } else if key_le(s.last().0, x.0) {
        s.push(x)
    } else {
        insert_behind(s.drop_last(), x).push(s.last())
    }
}

/// The entries of `s` by ascending key, entries of one key in the order they had.
pub open spec fn stable_order<T>(s: Seq<(SortKey, T)>) -> Seq<(SortKey, T)>
    decreases s.len(),
{
    if s.len() == 0 {
        s
    } else {
        insert_behind(stable_order(s.drop_last()), s.last())
    }
}

/// Two ordered runs taken together; of equal keys, those of `l` come first.
spec fn merged<T>(l: Seq<(SortKey, T)>, r: Seq<(SortKey, T)>) -> Seq<(SortKey, T)>
    decreases l.len() + r.len(),
{
    if r.len() == 0 {
        l
    } else if l.len() == 0 {
        r
    } else if key_le(l.last().0, r.last().0) {
        merged(l, r.drop_last()).push(r.last())
    } else {
        merged(l.drop_last(), r).push(l.last())
    }
}

proof fn lemma_insert_into_merged<T>(
    l: Seq<(SortKey, T)>,
    r: Seq<(SortKey, T)>,
    x: (SortKey, T),
)
    ensures
        insert_behind(merged(l, r), x) == merged(l, insert_behind(r, x)),
    decreases l.len() + r.len(),
{
    let joined = merged(l, r);
    if r.len() == 0 {
        let single = seq![x];
        assert(insert_behind(r, x) == single);
        assert(single.drop_last() =~= Seq::<(SortKey, T)>::empty());
        if l.len() > 0 {
            if !key_le(l.last().0, x.0) {
                lemma_insert_into_merged(l.drop_last(), r, x);
                assert(merged(l.drop_last(), r) == l.drop_last());
            } else {
                assert(merged(l, single.drop_last()) == l);
            }
        }
    } else if l.len() == 0 {
        assert(insert_behind(r, x).len() > 0);
    } else if key_le(r.last().0, x.0) {
        assert(insert_behind(r, x) == r.push(x));
        assert(r.push(x).drop_last() =~= r);
        assert(r.push(x).last() == x);
        if key_le(l.last().0, x.0) {
            assert(merged(l, r.push(x)) == merged(l, r).push(x));
        } else {
            assert(!key_le(l.last().0, r.last().0));
            lemma_insert_into_merged(l.drop_last(), r, x);
            assert(joined.drop_last() =~= merged(l.drop_last(), r));
        }
    } else {
        let placed = insert_behind(r.drop_last(), x);
        assert(insert_behind(r, x) == placed.push(r.last()));
        assert(placed.push(r.last()).drop_last() =~= placed);
        if key_le(l.last().0, r.last().0) {
            lemma_insert_into_merged(l, r.drop_last(), x);
            assert(joined.drop_last() =~= merged(l, r.drop_last()));
        } else {
            lemma_insert_into_merged(l.drop_last(), r, x);
            assert(joined.drop_last() =~= merged(l.drop_last(), r));
        }
    }
}

proof fn lemma_order_of_halves<T>(a: Seq<(SortKey, T)>, b: Seq<(SortKey, T)>)
    ensures
        stable_order(a + b) == merged(stable_order(a), stable_order(b)),
    decreases b.len(),
{
    if b.len() == 0 {
        assert(a + b =~= a);
    } else {
        lemma_order_of_halves(a, b.drop_last());
        assert((a + b).drop_last() =~= a + b.drop_last());
        lemma_insert_into_merged(stable_order(a), stable_order(b.drop_last()), b.last());
    }
}

/// The two runs taken together.
fn merge<T: Copy>(l: &[(SortKey, T)], r: &[(SortKey, T)]) -> (out: Vec<(SortKey, T)>)
    ensures
        out@ == merged(l@, r@),
{
    let mut i: usize = l.len();
    let mut j: usize = r.len();
    let mut back: Vec<(SortKey, T)> = Vec::new();
    assert(l@.take(i as int) =~= l@);
    assert(r@.take(j as int) =~= r@);
    while i > 0 || j > 0
        invariant
            i <= l.len(),
            j <= r.len(),
            merged(l@, r@) == merged(l@.take(i as int), r@.take(j as int)) + back@.reverse(),
        decreases i + j,
    {
        let ghost left = l@.take(i as int);
        let ghost right = r@.take(j as int);
        let ghost before = back@;
        let take_right: bool = if j == 0 {
            false
        } else if i == 0 {
            true
        } else {
            key_at_most(l[i - 1].0, r[j - 1].0)
        };
        if take_right {
            back.push(r[j - 1]);
            j = j - 1;
            assert(right.drop_last() =~= r@.take(j as int));
            proof {
                if left.len() == 0 {
                    assert(merged(left, right) =~= merged(left, right.drop_last()).push(
                        right.last(),
                    ));
                }
            }
        } else {
            back.push(l[i - 1]);
            i = i - 1;
            assert(left.drop_last() =~= l@.take(i as int));
            proof {
                if right.len() == 0 {
                    assert(merged(left, right) =~= merged(left.drop_last(), right).push(
                        left.last(),
                    ));
                }
            }
        }
        assert(back@.reverse() =~= seq![back@.last()] + before.reverse());
        assert(merged(l@, r@) =~= merged(l@.take(i as int), r@.take(j as int)) + back@.reverse());
    }
    let mut out: Vec<(SortKey, T)> = Vec::with_capacity(back.len());
    let mut k: usize = back.len();
    while k > 0
        invariant
            k <= back.len(),
            out@ == back@.skip(k as int).reverse(),
        decreases k,
    {
        k = k - 1;
        out.push(back[k]);
        assert(out@ =~= back@.skip(k as int).reverse());
    }
    assert(out@ =~= back@.reverse());
    assert(merged(l@, r@) =~= back@.reverse());
    out
}

fn order_range<T: Copy>(items: &[(SortKey, T)], lo: usize, hi: usize) -> (out: Vec<
    (SortKey, T),
>)
    requires
        lo <= hi <= items.len(),
    ensures
        out@ == stable_order(items@.subrange(lo as int, hi as int)),
    decreases hi - lo,
{
    let ghost part = items@.subrange(lo as int, hi as int);
    if hi - lo <= 1 {
        let mut out: Vec<(SortKey, T)> = Vec::new();
        if lo < hi {
            out.push(items[lo]);
            assert(part.drop_last() =~= Seq::<(SortKey, T)>::empty());
            assert(stable_order(part.drop_last()) == Seq::<(SortKey, T)>::empty());
            assert(out@ =~= seq![part.last()]);
        } else {
            assert(out@ =~= part);
        }
        return out;
    }
    let mid: usize = lo + (hi - lo) / 2;
    let left = order_range(items, lo, mid);
    let right = order_range(items, mid, hi);
    proof {
        let a = items@.subrange(lo as int, mid as int);
        let b = items@.subrange(mid as int, hi as int);
        lemma_order_of_halves(a, b);
        assert(a + b =~= part);
    }
    merge(&left, &right)
}

/// The items by ascending key, items of one key in the order they had.
pub fn stable_sort<T: Copy>(items: &[(SortKey, T)]) -> (out: Vec<(SortKey, T)>)
    ensures
        out@ == stable_order(items@),
{
    assert(items@.subrange(0, items.len() as int) =~= items@);
    order_range(items, 0, items.len())
}

/// The keys of `s` never decrease.
pub open spec fn ascending<T>(s: Seq<(SortKey, T)>) -> bool {
    forall|i: int, j: int| 0 <= i <= j < s.len() ==> key_le(s[i].0, s[j].0)
}

proof fn lemma_insert_keeps_order<T>(s: Seq<(SortKey, T)>, x: (SortKey, T))
    requires
        ascending(s),
    ensures
        ascending(insert_behind(s, x)),
        insert_behind(s, x).to_multiset() == s.to_multiset().insert(x),
        insert_behind(s, x).len() == s.len() + 1,
        forall|i: int| 0 <= i < insert_behind(s, x).len() ==> insert_behind(s, x)[i] == x
            || s.contains(#[trigger] insert_behind(s, x)[i]),
    decreases s.len(),
{
    broadcast use vstd::seq_lib::group_to_multiset_ensures;

    let out = insert_behind(s, x);
    if s.len() == 0 {
        assert(s =~= Seq::empty());
        assert(out =~= s.push(x));
    } else if key_le(s.last().0, x.0) {
        assert(forall|i: int| 0 <= i < s.len() ==> s.contains(#[trigger] s[i]));
        assert forall|i: int, j: int| 0 <= i <= j < out.len() implies key_le(
            out[i].0,
            out[j].0,
        ) by {
            if i < s.len() {
                assert(key_le(s[i].0, s[s.len() - 1].0));
            }
        }
    } else {
        let front = s.drop_last();
        lemma_insert_keeps_order(front, x);
        let inner = insert_behind(front, x);
        assert(front.push(s.last()) =~= s);
        assert forall|i: int| 0 <= i < out.len() implies out[i] == x || s.contains(
            #[trigger] out[i],
        ) by {
            if i < inner.len() {
                assert(out[i] == inner[i]);
                if inner[i] != x {
                    assert(front.contains(inner[i]));
                    let k = choose|k: int| 0 <= k < front.len() && front[k] == inner[i];
                    assert(s[k] == inner[i]);
                }
            } else {
                assert(out[i] == s[s.len() - 1]);
            }
        }
        assert forall|i: int, j: int| 0 <= i <= j < out.len() implies key_le(
            out[i].0,
            out[j].0,
        ) by {
            if j == inner.len() && i < j {
                assert(out[i] == inner[i]);
                if inner[i] != x {
                    assert(front.contains(inner[i]));
                    let k = choose|k: int| 0 <= k < front.len() && front[k] == inner[i];
                    assert(s[k] == inner[i]);
                }
            } else if j < inner.len() {
                assert(out[i] == inner[i] && out[j] == inner[j]);
            }
        }
        assert(inner.push(s.last()).to_multiset() =~= s.to_multiset().insert(x));
    }
}

/// Sorting puts the keys in order and neither adds nor loses an entry.
pub proof fn lemma_stable_order_sorts<T>(s: Seq<(SortKey, T)>)
    ensures
        ascending(stable_order(s)),
        stable_order(s).to_multiset() == s.to_multiset(),
        stable_order(s).len() == s.len(),
    decreases s.len(),
{
    broadcast use vstd::seq_lib::group_to_multiset_ensures;

    if s.len() > 0 {
        lemma_stable_order_sorts(s.drop_last());
        lemma_insert_keeps_order(stable_order(s.drop_last()), s.last());
        assert(s.drop_last().push(s.last()) =~= s);
    }
}

proof fn lemma_insert_keeps_class<T>(s: Seq<(SortKey, T)>, x: (SortKey, T), key: SortKey)
    requires
        ascending(s),
    ensures
        insert_behind(s, x).filter(|e: (SortKey, T)| e.0 == key) == if x.0 == key {
            s.filter(|e: (SortKey, T)| e.0 == key).push(x)
        } else {
            s.filter(|e: (SortKey, T)| e.0 == key)
        },
    decreases s.len(),
{
    let of_key = |e: (SortKey, T)| e.0 == key;
    if s.len() == 0 {
        let single = seq![x];
        assert(single.drop_last() =~= s);
        reveal_with_fuel(Seq::filter, 2);
    } else if key_le(s.last().0, x.0) {
        assert(s.push(x).drop_last() =~= s);
        reveal_with_fuel(Seq::filter, 1);
    } else {
        let front = s.drop_last();
        lemma_insert_keeps_class(front, x, key);
        let inner = insert_behind(front, x);
        assert(inner.push(s.last()).drop_last() =~= inner);
        reveal_with_fuel(Seq::filter, 1);
        if x.0 == key {
            assert(s.last().0 != key);
        }
    }
}

/// Sorting keeps the entries of one key in the order they had.
pub proof fn lemma_stable_order_keeps_classes<T>(s: Seq<(SortKey, T)>, key: SortKey)
    ensures
        stable_order(s).filter(|e: (SortKey, T)| e.0 == key) == s.filter(
            |e: (SortKey, T)| e.0 == key,
        ),
    decreases s.len(),
{
    reveal_with_fuel(Seq::filter, 1);
    if s.len() > 0 {
        lemma_stable_order_keeps_classes(s.drop_last(), key);
        lemma_stable_order_sorts(s.drop_last());
        lemma_insert_keeps_class(stable_order(s.drop_last()), s.last(), key);
    }
}

/// One entry of `s` that is `a` stands before one that is `b`.
pub open spec fn stands_before<T>(s: Seq<T>, a: T, b: T) -> bool {
    exists|i: int, j: int| 0 <= i < j < s.len() && #[trigger] s[i] == a && #[trigger] s[j] == b
}

proof fn lemma_push_keeps_places<T>(s: Seq<T>, x: T, a: T, b: T)
    ensures
        stands_before(s, a, b) ==> stands_before(s.push(x), a, b),
        s.contains(a) ==> stands_before(s.push(x), a, x),
{
    let out = s.push(x);
    assert(out[s.len() as int] == x);
    if stands_before(s, a, b) {
        let (i, j) = choose|i: int, j: int|
            0 <= i < j < s.len() && #[trigger] s[i] == a && #[trigger] s[j] == b;
        assert(out[i] == a && out[j] == b);
    }
    if s.contains(a) {
        let i = choose|i: int| 0 <= i < s.len() && s[i] == a;
        assert(out[i] == a);
    }
}

proof fn lemma_insert_places<T>(s: Seq<(SortKey, T)>, x: (SortKey, T), a: (SortKey, T), b: (SortKey, T))
    requires
        ascending(s),
    ensures
        stands_before(s, a, b) ==> stands_before(insert_behind(s, x), a, b),
        s.contains(a) && key_le(a.0, x.0) ==> stands_before(insert_behind(s, x), a, x),
        s.contains(b) && !key_le(b.0, x.0) ==> stands_before(insert_behind(s, x), x, b),
        insert_behind(s, x).contains(x),
        s.contains(a) ==> insert_behind(s, x).contains(a),
    decreases s.len(),
{
    let out = insert_behind(s, x);
    if s.len() == 0 {
        assert(out[0] == x);
    } else if key_le(s.last().0, x.0) {
        lemma_push_keeps_places(s, x, a, b);
        assert(out[s.len() as int] == x);
        if s.contains(b) {
            let k = choose|k: int| 0 <= k < s.len() && s[k] == b;
            assert(key_le(s[k].0, s[s.len() - 1].0));
        }
        if s.contains(a) {
            let k = choose|k: int| 0 <= k < s.len() && s[k] == a;
            assert(out[k] == a);
        }
    } else {
        let front = s.drop_last();
        let last = s.last();
        let inner = insert_behind(front, x);
        lemma_insert_places(front, x, a, b);
        lemma_push_keeps_places(inner, last, a, b);
        lemma_push_keeps_places(inner, last, a, x);
        lemma_push_keeps_places(inner, last, x, b);
        assert(out == inner.push(last));
        if stands_before(s, a, b) {
            let (i, j) = choose|i: int, j: int|
                0 <= i < j < s.len() && #[trigger] s[i] == a && #[trigger] s[j] == b;
            assert(front[i] == a);
            assert(front.contains(a));
            if j < front.len() {
                assert(front[j] == b);
                assert(stands_before(front, a, b));
            }
        }
        if s.contains(a) && key_le(a.0, x.0) {
            let k = choose|k: int| 0 <= k < s.len() && s[k] == a;
            assert(k < front.len());
            assert(front[k] == a);
        }
        if s.contains(b) && !key_le(b.0, x.0) {
            let k = choose|k: int| 0 <= k < s.len() && s[k] == b;
            if k < front.len() {
                assert(front[k] == b);
            }
        }
        if s.contains(a) {
            let k = choose|k: int| 0 <= k < s.len() && s[k] == a;
            if k < front.len() {
                assert(front[k] == a);
                let m = choose|m: int| 0 <= m < inner.len() && inner[m] == a;
                assert(out[m] == a);
            } else {
                assert(out[inner.len() as int] == a);
            }
        }
        let m = choose|m: int| 0 <= m < inner.len() && inner[m] == x;
        assert(out[m] == x);
    }
}

/// Sorting puts an entry before another where its first number is smaller, or else its second, or
/// else its third; and where all three are the same, where it stood before it.
pub proof fn lemma_stable_order_places<T>(s: Seq<(SortKey, T)>, a: int, b: int)
    requires
        0 <= a < s.len(),
        0 <= b < s.len(),
        ({
            let x = s[a].0;
            let y = s[b].0;
            ||| x.first < y.first
            ||| x.first == y.first && x.second < y.second
            ||| x.first == y.first && x.second == y.second && x.third < y.third
            ||| x == y && a < b
        }),
    ensures
        stands_before(stable_order(s), s[a], s[b]),
    decreases s.len(),
{
    broadcast use vstd::seq_lib::group_to_multiset_ensures;

    let front = s.drop_last();
    let last = s.len() - 1;
    lemma_stable_order_sorts(front);
    lemma_insert_places(stable_order(front), s.last(), s[a], s[b]);
    if a < last {
        assert(front[a] == s[a]);
        assert(front.to_multiset().count(s[a]) > 0);
        assert(stable_order(front).contains(s[a]));
    }
    if b < last {
        assert(front[b] == s[b]);
        assert(front.to_multiset().count(s[b]) > 0);
        assert(stable_order(front).contains(s[b]));
    }
    if a < last && b < last {
        lemma_stable_order_places(front, a, b);
    }
}

/// Entries of one key carry increasing numbers.
spec fn increasing_within_keys(s: Seq<(SortKey, usize)>) -> bool {
    forall|i: int, j: int| 0 <= i < j < s.len() && s[i].0 == s[j].0 ==> s[i].1 < s[j].1
}

proof fn lemma_insert_keeps_increase(s: Seq<(SortKey, usize)>, x: (SortKey, usize))
    requires
        ascending(s),
        increasing_within_keys(s),
        forall|i: int| 0 <= i < s.len() ==> s[i].1 < x.1,
    ensures
        increasing_within_keys(insert_behind(s, x)),
    decreases s.len(),
{
    if s.len() > 0 && !key_le(s.last().0, x.0) {
        let front = s.drop_last();
        lemma_insert_keeps_increase(front, x);
        lemma_insert_keeps_order(front, x);
        let inner = insert_behind(front, x);
        let out = insert_behind(s, x);
        assert(out == inner.push(s.last()));
        assert forall|i: int, j: int| 0 <= i < j < out.len() && out[i].0 == out[j].0 implies out[i].1
            < out[j].1 by {
            assert(out[i] == inner[i]);
            if j == inner.len() {
                assert(inner[i] != x);
                assert(front.contains(inner[i]));
                let k = choose|k: int| 0 <= k < front.len() && front[k] == inner[i];
                assert(s[k] == inner[i]);
            } else {
                assert(out[j] == inner[j]);
            }
        }
    }
}

/// What sorting makes of keys that carry their own positions.
proof fn lemma_order_of_positions(s: Seq<(SortKey, usize)>)
    requires
        forall|i: int| 0 <= i < s.len() ==> (#[trigger] s[i]).1 == i,
    ensures
        increasing_within_keys(stable_order(s)),
        forall|i: int| 0 <= i < s.len() ==> s.contains(#[trigger] stable_order(s)[i]),
        forall|i: int| 0 <= i < s.len() ==> stable_order(s).contains(#[trigger] s[i]),
    decreases s.len(),
{
    lemma_stable_order_sorts(s);
    if s.len() > 0 {
        let front = s.drop_last();
        lemma_order_of_positions(front);
        lemma_stable_order_sorts(front);
        let inner = stable_order(front);
        assert forall|i: int| 0 <= i < inner.len() implies inner[i].1 < s.last().1 by {
            assert(front.contains(inner[i]));
        }
        lemma_insert_keeps_increase(inner, s.last());
    }
    broadcast use vstd::seq_lib::group_to_multiset_ensures;

    let out = stable_order(s);
    assert forall|i: int| 0 <= i < s.len() implies s.contains(#[trigger] out[i]) by {
        assert(out.contains(out[i]));
        assert(out.to_multiset().count(out[i]) > 0);
    }
    assert forall|i: int| 0 <= i < s.len() implies out.contains(#[trigger] s[i]) by {
        assert(s.contains(s[i]));
        assert(s.to_multiset().count(s[i]) > 0);
    }
}

/// `groups` partitions the positions of `keys`: one group for each key that occurs,
/// groups by ascending key, the positions of a group in ascending order.
pub open spec fn groups_by_key(keys: Seq<SortKey>, groups: Seq<Vec<usize>>) -> bool {
    &&& forall|g: int| 0 <= g < groups.len() ==> (#[trigger] groups[g])@.len() > 0
    &&& forall|g: int, i: int|
        0 <= g < groups.len() && 0 <= i < groups[g]@.len() ==> (#[trigger] groups[g]@[i])
            < keys.len() && keys[groups[g]@[i] as int] == keys[groups[g]@[0] as int]
    &&& forall|g: int, i: int, j: int|
        0 <= g < groups.len() && 0 <= i < j < groups[g]@.len() ==> (#[trigger] groups[g]@[i]) < (
        #[trigger] groups[g]@[j])
    &&& forall|g: int, h: int|
        0 <= g < h < groups.len() ==> key_le(
            keys[(#[trigger] groups[g])@[0] as int],
            keys[(#[trigger] groups[h])@[0] as int],
        ) && keys[groups[g]@[0] as int] != keys[groups[h]@[0] as int]
    &&& forall|k: int| 0 <= k < keys.len() ==> #[trigger] grouped_at(groups, k)
}

/// Position `k` is in one of the groups.
pub open spec fn grouped_at(groups: Seq<Vec<usize>>, k: int) -> bool {
    exists|g: int, i: int|
        0 <= g < groups.len() && 0 <= i < groups[g]@.len() && (#[trigger] groups[g]@[i]) == k
}

/// The positions of `keys`, grouped by key.
pub fn group_by_key(keys: &[SortKey]) -> (groups: Vec<Vec<usize>>)
    ensures
        groups_by_key(keys@, groups@),
{
    let mut items: Vec<(SortKey, usize)> = Vec::with_capacity(keys.len());
    let mut n: usize = 0;
    while n < keys.len()
        invariant
            n <= keys.len(),
            items.len() == n,
            forall|i: int| 0 <= i < n ==> #[trigger] items@[i] == (keys@[i], i as usize),
        decreases keys.len() - n,
    {
        items.push((keys[n], n));
        n = n + 1;
    }
    let sorted = stable_sort(&items);
    proof {
        lemma_stable_order_sorts(items@);
        lemma_order_of_positions(items@);
        assert forall|i: int| 0 <= i < sorted.len() implies (#[trigger] sorted@[i]).1 < keys.len()
            && sorted@[i].0 == keys@[sorted@[i].1 as int] by {
            assert(items@.contains(sorted@[i]));
            let k = choose|k: int| 0 <= k < items.len() && items@[k] == sorted@[i];
            assert(items@[k] == (keys@[k], k as usize));
        }
    }
    let mut groups: Vec<Vec<usize>> = Vec::new();
    let mut current: Vec<usize> = Vec::new();
    let mut at: usize = 0;
    while at < sorted.len()
        invariant
            at <= sorted.len(),
            sorted.len() == keys.len(),
            ascending(sorted@),
            increasing_within_keys(sorted@),
            forall|i: int|
                0 <= i < sorted.len() ==> (#[trigger] sorted@[i]).1 < keys.len() && sorted@[i].0
                    == keys@[sorted@[i].1 as int],
            at > 0 ==> current.len() > 0,
            at == 0 ==> current.len() == 0 && groups.len() == 0,
            at > 0 ==> current@.last() == sorted@[at - 1].1,
            forall|i: int|
                0 <= i < current.len() ==> (#[trigger] current@[i]) < keys.len()
                    && keys@[current@[i] as int] == keys@[current@[0] as int],
            forall|i: int, j: int|
                0 <= i < j < current.len() ==> (#[trigger] current@[i]) < (#[trigger] current@[j]),
            forall|g: int| 0 <= g < groups.len() ==> (#[trigger] groups@[g])@.len() > 0,
            forall|g: int, i: int|
                0 <= g < groups.len() && 0 <= i < groups@[g]@.len() ==> (#[trigger] groups@[g]@[i])
                    < keys.len() && keys@[groups@[g]@[i] as int] == keys@[groups@[g]@[0] as int],
            forall|g: int, i: int, j: int|
                0 <= g < groups.len() && 0 <= i < j < groups@[g]@.len() ==> (
                #[trigger] groups@[g]@[i]) < (#[trigger] groups@[g]@[j]),
            forall|g: int, h: int|
                0 <= g < h < groups.len() ==> key_le(
                    keys@[(#[trigger] groups@[g])@[0] as int],
                    keys@[(#[trigger] groups@[h])@[0] as int],
                ) && keys@[groups@[g]@[0] as int] != keys@[groups@[h]@[0] as int],
            forall|g: int|
                0 <= g < groups.len() ==> key_le(
                    keys@[(#[trigger] groups@[g])@[0] as int],
                    keys@[current@[0] as int],
                ) && keys@[groups@[g]@[0] as int] != keys@[current@[0] as int],
            forall|p: int|
                0 <= p < at ==> #[trigger] grouped_at(groups@, sorted@[p].1 as int)
                    || current@.contains(sorted@[p].1),
        decreases sorted.len() - at,
    {
        let ghost old_groups = groups@;
        let ghost old_current = current@;
        let fresh: bool = if at == 0 {
            false
        } else {
            sorted[at].0 != sorted[at - 1].0
        };
        if fresh {
            groups.push(current);
            current = Vec::new();
            proof {
                assert forall|p: int| 0 <= p < at implies #[trigger] grouped_at(
                    groups@,
                    sorted@[p].1 as int,
                ) by {
                    if grouped_at(old_groups, sorted@[p].1 as int) {
                        let (g, i) = choose|g: int, i: int|
                            0 <= g < old_groups.len() && 0 <= i < old_groups[g]@.len() && (
                            #[trigger] old_groups[g]@[i]) == sorted@[p].1;
                        assert(groups@[g]@[i] == sorted@[p].1);
                    } else {
                        let i = choose|i: int|
                            0 <= i < old_current.len() && old_current[i] == sorted@[p].1;
                        assert(groups@[groups.len() - 1]@[i] == sorted@[p].1);
                    }
                }
            }
        }
        let ghost before = current@;
        current.push(sorted[at].1);
        proof {
            if at > 0 {
                assert(key_le(sorted@[at - 1].0, sorted@[at as int].0));
                assert(old_current[old_current.len() - 1] == sorted@[at - 1].1);
                assert(keys@[old_current[0] as int] == sorted@[at - 1].0);
            }
            assert forall|p: int| 0 <= p <= at implies #[trigger] grouped_at(
                groups@,
                sorted@[p].1 as int,
            ) || current@.contains(sorted@[p].1) by {
                if p == at {
                    assert(current@[current.len() - 1] == sorted@[p].1);
                } else if !grouped_at(groups@, sorted@[p].1 as int) {
                    let i = choose|i: int| 0 <= i < before.len() && before[i] == sorted@[p].1;
                    assert(current@[i] == sorted@[p].1);
                }
            }
        }
        at = at + 1;
    }
    let ghost old_groups = groups@;
    let ghost old_current = current@;
    if at > 0 {
        groups.push(current);
    }
    proof {
        assert forall|k: int| 0 <= k < keys.len() implies #[trigger] grouped_at(groups@, k) by {
            assert(sorted@.contains(items@[k]));
            let p = choose|p: int| 0 <= p < sorted.len() && sorted@[p] == items@[k];
            assert(items@[k] == (keys@[k], k as usize));
            assert(sorted@[p].1 == k);
            if grouped_at(old_groups, k) {
                let (g, i) = choose|g: int, i: int|
                    0 <= g < old_groups.len() && 0 <= i < old_groups[g]@.len() && (
                    #[trigger] old_groups[g]@[i]) == k;
                assert(groups@[g]@[i] == k);
            } else {
                assert(grouped_at(old_groups, sorted@[p].1 as int) || old_current.contains(
                    sorted@[p].1,
                ));
                let i = choose|i: int| 0 <= i < old_current.len() && old_current[i] == k;
                assert(groups@[groups.len() - 1]@[i] == k);
            }
        }
    }
    groups
}

/// The positions in one group have one key, those in a later group a larger one, and every position is
/// in a group.
pub proof fn lemma_groups_are_of_one_key_each(
    keys: Seq<SortKey>,
    groups: Seq<Vec<usize>>,
    g: int,
    i: int,
    h: int,
    j: int,
    k: int,
)
    requires
        groups_by_key(keys, groups),
        0 <= g <= h < groups.len(),
        0 <= i < groups[g]@.len(),
        0 <= j < groups[h]@.len(),
        0 <= k < keys.len(),
    ensures
        groups[g]@[i] < keys.len(),
        ({
            let a = keys[groups[g]@[i] as int];
            let b = keys[groups[h]@[j] as int];
            &&& g == h ==> a == b
            &&& g < h ==> a.first < b.first || (a.first == b.first && (a.second < b.second || (
            a.second == b.second && a.third < b.third)))
        }),
        g == h && i < j ==> groups[g]@[i] < groups[g]@[j],
        exists|c: int, d: int|
            0 <= c < groups.len() && 0 <= d < groups[c]@.len() && (#[trigger] groups[c]@[d]) == k,
{
    assert(grouped_at(groups, k));
    let a = groups[g]@[i];
    let b = groups[h]@[j];
    assert(keys[a as int] == keys[groups[g]@[0] as int]);
    assert(keys[b as int] == keys[groups[h]@[0] as int]);
    if g < h {
        assert(key_le(keys[groups[g]@[0] as int], keys[groups[h]@[0] as int]));
    }
}

} // verus!
