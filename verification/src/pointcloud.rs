//! Point clouds: cells, the k-d tree and its searches, and what ends a registration.

use crate::ieee::{
    at_most, at_most32, finite32, is_finite32, is_nan32, le, le32, less, less32, lt, lt32,
    numeric_key32, ordinal32, F32Bits, F64Bits,
};
use crate::order::{
    group_by_key, groups_by_key, insert_behind, key_le, lemma_stable_order_sorts, single_key,
    stable_order, stable_sort, SortKey,
};
use vstd::multiset::Multiset;
use vstd::prelude::*;

verus! {

// ---- k-d tree ----

/// A node of the tree: a point, the axis that it splits, and what lies on either side.
pub struct KdNode {
    pub point: usize,
    pub axis: usize,
    pub left: Option<Box<KdNode>>,
    pub right: Option<Box<KdNode>>,
}

/// The points of a subtree.
pub open spec fn contents(tree: Option<Box<KdNode>>) -> Multiset<usize>
    decreases tree,
{
    match tree {
        None => Multiset::empty(),
        Some(node) => contents(node.left).add(contents(node.right)).insert(node.point),
    }
}

/// Where a point stands on an axis.
pub open spec fn coordinate(points: Seq<[F32Bits; 3]>, point: usize, axis: usize) -> int {
    ordinal32(points[point as int]@[axis as int])
}

/// On each level the points on the left are not above the node's point on the axis of that
/// level, and those on the right not below; the axes take turns.
pub open spec fn splits(
    tree: Option<Box<KdNode>>,
    points: Seq<[F32Bits; 3]>,
    axis: usize,
) -> bool
    decreases tree,
{
    match tree {
        None => true,
        Some(node) => {
            let next = ((axis + 1) % 3) as usize;
            &&& node.axis == axis
            &&& forall|p: usize| #[trigger]
                contents(node.left).count(p) > 0 ==> coordinate(points, p, axis) <= coordinate(
                    points,
                    node.point,
                    axis,
                )
            &&& forall|p: usize| #[trigger]
                contents(node.right).count(p) > 0 ==> coordinate(points, node.point, axis)
                    <= coordinate(points, p, axis)
            &&& splits(node.left, points, next)
            &&& splits(node.right, points, next)
        },
    }
}

/// On each level half of the points, rounded down, lie on the left.
pub open spec fn halves(tree: Option<Box<KdNode>>) -> bool
    decreases tree,
{
    match tree {
        None => true,
        Some(node) => {
            &&& contents(node.left).len() == contents(tree).len() / 2
            &&& halves(node.left)
            &&& halves(node.right)
        },
    }
}

spec fn keyed_indices(
    points: Seq<[F32Bits; 3]>,
    indices: Seq<usize>,
    axis: usize,
) -> Seq<(SortKey, usize)> {
    indices.map_values(|p: usize| (single_key(coordinate(points, p, axis)), p))
}

spec fn payload(s: Seq<(SortKey, usize)>) -> Seq<usize> {
    s.map_values(|e: (SortKey, usize)| e.1)
}

proof fn lemma_insert_payload(s: Seq<(SortKey, usize)>, x: (SortKey, usize))
    ensures
        payload(insert_behind(s, x)).to_multiset() == payload(s).to_multiset().insert(x.1),
    decreases s.len(),
{
    broadcast use vstd::seq_lib::group_to_multiset_ensures;

    if s.len() == 0 {
        assert(payload(s) =~= Seq::empty());
        assert(payload(insert_behind(s, x)) =~= payload(s).push(x.1));
    } else if key_le(s.last().0, x.0) {
        assert(payload(s.push(x)) =~= payload(s).push(x.1));
    } else {
        lemma_insert_payload(s.drop_last(), x);
        let inner = insert_behind(s.drop_last(), x);
        assert(payload(inner.push(s.last())) =~= payload(inner).push(s.last().1));
        assert(payload(s) =~= payload(s.drop_last()).push(s.last().1));
        assert(payload(insert_behind(s, x)).to_multiset() =~= payload(s).to_multiset().insert(x.1));
    }
}

proof fn lemma_order_payload(s: Seq<(SortKey, usize)>)
    ensures
        payload(stable_order(s)).to_multiset() == payload(s).to_multiset(),
    decreases s.len(),
{
    broadcast use vstd::seq_lib::group_to_multiset_ensures;

    if s.len() > 0 {
        lemma_order_payload(s.drop_last());
        lemma_insert_payload(stable_order(s.drop_last()), s.last());
        assert(payload(s) =~= payload(s.drop_last()).push(s.last().1));
    }
}

/// The indices in the order of the points' coordinates on the axis.
fn sort_by_axis(points: &[[F32Bits; 3]], indices: &[usize], axis: usize) -> (out: Vec<usize>)
    requires
        axis < 3,
        forall|i: int| 0 <= i < indices@.len() ==> (#[trigger] indices@[i]) < points@.len(),
    ensures
        out@.len() == indices@.len(),
        out@.to_multiset() == indices@.to_multiset(),
        forall|i: int, j: int|
            0 <= i <= j < out@.len() ==> coordinate(points@, #[trigger] out@[i], axis)
                <= coordinate(points@, #[trigger] out@[j], axis),
        forall|i: int| 0 <= i < out@.len() ==> (#[trigger] out@[i]) < points@.len(),
{
    let ghost keyed_all = keyed_indices(points@, indices@, axis);
    let mut keyed: Vec<(SortKey, usize)> = Vec::with_capacity(indices.len());
    let mut i: usize = 0;
    assert(keyed@ =~= keyed_all.take(0));
    while i < indices.len()
        invariant
            i <= indices.len(),
            axis < 3,
            forall|k: int| 0 <= k < indices@.len() ==> (#[trigger] indices@[k]) < points@.len(),
            keyed_all == keyed_indices(points@, indices@, axis),
            keyed@ == keyed_all.take(i as int),
        decreases indices.len() - i,
    {
        let p: usize = indices[i];
        let key = SortKey { first: numeric_key32(points[p][axis]), second: 0, third: 0 };
        keyed.push((key, p));
        i = i + 1;
        assert(keyed@ =~= keyed_all.take(i as int));
    }
    assert(keyed@ =~= keyed_all);
    let sorted = stable_sort(&keyed);
    proof {
        lemma_stable_order_sorts(keyed_all);
        lemma_order_payload(keyed_all);
        assert(payload(keyed_all) =~= indices@);
        broadcast use vstd::seq_lib::group_to_multiset_ensures;

        assert forall|k: int| 0 <= k < sorted@.len() implies (#[trigger] sorted@[k]).0
            == single_key(coordinate(points@, sorted@[k].1, axis)) && sorted@[k].1
            < points@.len() by {
            assert(sorted@.contains(sorted@[k]));
            assert(sorted@.to_multiset().count(sorted@[k]) > 0);
            assert(keyed_all.contains(sorted@[k]));
            let m = choose|m: int| 0 <= m < keyed_all.len() && keyed_all[m] == sorted@[k];
            assert(indices@[m] < points@.len());
        }
    }
    let mut out: Vec<usize> = Vec::with_capacity(sorted.len());
    let mut k: usize = 0;
    assert(out@ =~= payload(sorted@).take(0));
    while k < sorted.len()
        invariant
            k <= sorted.len(),
            out@ == payload(sorted@).take(k as int),
        decreases sorted.len() - k,
    {
        out.push(sorted[k].1);
        k = k + 1;
        assert(out@ =~= payload(sorted@).take(k as int));
    }
    assert(out@ =~= payload(sorted@));
    proof {
        assert forall|a: int, b: int| 0 <= a <= b < out@.len() implies coordinate(
            points@,
            #[trigger] out@[a],
            axis,
        ) <= coordinate(points@, #[trigger] out@[b], axis) by {
            assert(out@[a] == sorted@[a].1 && out@[b] == sorted@[b].1);
            assert(key_le(sorted@[a].0, sorted@[b].0));
        }
        assert forall|a: int| 0 <= a < out@.len() implies (#[trigger] out@[a]) < points@.len() by {
            assert(out@[a] == sorted@[a].1);
        }
    }
    out
}

fn copy_range(items: &[usize], lo: usize, hi: usize) -> (out: Vec<usize>)
    requires
        lo <= hi <= items@.len(),
    ensures
        out@ == items@.subrange(lo as int, hi as int),
{
    let mut out: Vec<usize> = Vec::with_capacity(hi - lo);
    let mut i: usize = lo;
    assert(out@ =~= items@.subrange(lo as int, lo as int));
    while i < hi
        invariant
            lo <= i <= hi <= items@.len(),
            out@ == items@.subrange(lo as int, i as int),
        decreases hi - i,
    {
        out.push(items[i]);
        i = i + 1;
        assert(out@ =~= items@.subrange(lo as int, i as int));
    }
    out
}

/// A tree of the points with these indices, split at the middle on each level.
fn build_subtree(points: &[[F32Bits; 3]], indices: &[usize], axis: usize) -> (tree: Option<
    Box<KdNode>,
>)
    requires
        axis < 3,
        forall|i: int| 0 <= i < indices@.len() ==> (#[trigger] indices@[i]) < points@.len(),
    ensures
        contents(tree) == indices@.to_multiset(),
        splits(tree, points@, axis),
        halves(tree),
    decreases indices@.len(),
{
    broadcast use vstd::seq_lib::group_to_multiset_ensures;

    if indices.len() == 0 {
        assert(indices@ =~= Seq::empty());
        assert(contents(None) =~= indices@.to_multiset());
        return None;
    }
    let sorted = sort_by_axis(points, indices, axis);
    let mid: usize = sorted.len() / 2;
    let next: usize = (axis + 1) % 3;
    let before = copy_range(&sorted, 0, mid);
    let after = copy_range(&sorted, mid + 1, sorted.len());
    proof {
        assert forall|i: int| 0 <= i < before@.len() implies (#[trigger] before@[i])
            < points@.len() by {
            assert(before@[i] == sorted@[i]);
        }
        assert forall|i: int| 0 <= i < after@.len() implies (#[trigger] after@[i])
            < points@.len() by {
            assert(after@[i] == sorted@[mid + 1 + i]);
        }
    }
    let left = build_subtree(points, &before, next);
    let right = build_subtree(points, &after, next);
    let point: usize = sorted[mid];
    let ghost left_tree = left;
    let ghost right_tree = right;
    let tree = Some(Box::new(KdNode { point, axis, left, right }));
    proof {
        assert(sorted@ =~= before@ + seq![point] + after@);
        vstd::seq_lib::lemma_multiset_commutative(before@ + seq![point], after@);
        assert(before@ + seq![point] =~= before@.push(point));
        assert(contents(tree) =~= sorted@.to_multiset());
        assert(contents(left_tree).len() == mid);
        assert(contents(tree).len() == sorted@.len());
        assert forall|p: usize| #[trigger] contents(left_tree).count(p) > 0 implies coordinate(
            points@,
            p,
            axis,
        ) <= coordinate(points@, point, axis) by {
            assert(before@.contains(p));
            let i = choose|i: int| 0 <= i < before@.len() && before@[i] == p;
            assert(sorted@[i] == p);
        }
        assert forall|p: usize| #[trigger] contents(right_tree).count(p) > 0 implies coordinate(
            points@,
            point,
            axis,
        ) <= coordinate(points@, p, axis) by {
            assert(after@.contains(p));
            let i = choose|i: int| 0 <= i < after@.len() && after@[i] == p;
            assert(sorted@[mid + 1 + i] == p);
        }
    }
    tree
}

/// A k-d tree over a cloud.
pub struct KdTree {
    pub points: Vec<[F32Bits; 3]>,
    pub root: Option<Box<KdNode>>,
}

/// All indices below `n`, each once.
pub open spec fn all_indices(n: nat) -> Multiset<usize> {
    Seq::new(n, |i: int| i as usize).to_multiset()
}

impl KdTree {
    /// The tree of the cloud: every point once, split at the middle on each level.
    pub fn build(points: Vec<[F32Bits; 3]>) -> (tree: KdTree)
        ensures
            tree.points@ == points@,
            contents(tree.root) == all_indices(points@.len()),
            splits(tree.root, points@, 0),
            halves(tree.root),
    {
        let mut indices: Vec<usize> = Vec::with_capacity(points.len());
        let mut i: usize = 0;
        while i < points.len()
            invariant
                i <= points.len(),
                indices@.len() == i,
                forall|k: int| 0 <= k < i ==> #[trigger] indices@[k] == k,
            decreases points.len() - i,
        {
            indices.push(i);
            i = i + 1;
        }
        assert(indices@ =~= Seq::new(points@.len(), |k: int| k as usize));
        let root = build_subtree(&points, &indices, 0);
        KdTree { points, root }
    }

    /// Whether the tree has no points.
    pub fn is_empty(&self) -> (r: bool)
        ensures
            r == (self.points@.len() == 0),
    {
        self.points.len() == 0
    }

    /// The point nearest to a query and its squared distance; `None` where no distance is below
    /// the largest finite number. `probe` takes a point and an axis and answers for the query.
    pub fn nearest<F: Fn(usize, usize) -> Probe>(&self, probe: &F) -> (best: Option<
        (usize, F32Bits),
    >)
        requires
            forall|p: usize, axis: usize| call_requires(*probe, (p, axis)),
        ensures
            forall|oracle: spec_fn(usize, usize) -> Probe| #[trigger]
                speaks_for(*probe, oracle) ==> best == found(
                    nearest_from(self.root, oracle, (None, LARGEST32)),
                ),
    {
        let best = search_nearest(&self.root, probe, (None, LARGEST32));
        match best.0 {
            Some(point) => Some((point, best.1)),
            None => None,
        }
    }

    /// The `k` points nearest to a query with their squared distances, nearest first.
    pub fn knn<F: Fn(usize, usize) -> Probe>(&self, probe: &F, k: usize) -> (best: Vec<
        (usize, F32Bits),
    >)
        requires
            forall|p: usize, axis: usize| call_requires(*probe, (p, axis)),
        ensures
            forall|oracle: spec_fn(usize, usize) -> Probe| #[trigger]
                speaks_for(*probe, oracle) ==> best@ == knn_from(
                    self.root,
                    oracle,
                    k as nat,
                    Seq::empty(),
                ),
    {
        let mut best: Vec<(usize, F32Bits)> = Vec::new();
        if k == 0 {
            proof {
                assert forall|oracle: spec_fn(usize, usize) -> Probe| #[trigger]
                    speaks_for(*probe, oracle) implies best@ == knn_from(
                    self.root,
                    oracle,
                    k as nat,
                    Seq::empty(),
                ) by {
                    lemma_knn_bounded(self.root, oracle, 0, Seq::empty());
                }
            }
            return best;
        }
        search_knn(&self.root, probe, k, &mut best);
        best
    }

    /// Of the `k` points nearest to a query those within a radius, nearest first.
    pub fn knn_within<F: Fn(usize, usize) -> Probe>(
        &self,
        probe: &F,
        k: usize,
        radius_squared: F32Bits,
    ) -> (near: Vec<(usize, F32Bits)>)
        requires
            forall|p: usize, axis: usize| call_requires(*probe, (p, axis)),
        ensures
            forall|oracle: spec_fn(usize, usize) -> Probe| #[trigger]
                speaks_for(*probe, oracle) ==> near@ == within_radius(
                    knn_from(self.root, oracle, k as nat, Seq::empty()),
                    radius_squared,
                ),
    {
        let best = self.knn(probe, k);
        let mut near: Vec<(usize, F32Bits)> = Vec::new();
        let mut i: usize = 0;
        assert(best@.take(0) =~= Seq::empty());
        while i < best.len()
            invariant
                i <= best@.len(),
                near@ == within_radius(best@.take(i as int), radius_squared),
            decreases best.len() - i,
        {
            assert(best@.take(i + 1).drop_last() =~= best@.take(i as int));
            let entry = best[i];
            if at_most32(entry.1, radius_squared) {
                near.push(entry);
            }
            i = i + 1;
        }
        assert(best@.take(i as int) =~= best@);
        near
    }
}

/// The entries of a list that are within a radius.
pub open spec fn within_radius(
    best: Seq<(usize, F32Bits)>,
    radius_squared: F32Bits,
) -> Seq<(usize, F32Bits)>
    decreases best.len(),
{
    if best.len() == 0 {
        Seq::empty()
    } else {
        let front = within_radius(best.drop_last(), radius_squared);
        if le32(best.last().1, radius_squared) {
            front.push(best.last())
        } else {
            front
        }
    }
}

// ---- searching the tree ----

/// The largest finite single-precision number.
pub const LARGEST32: F32Bits = 0x7f7f_ffff;

/// What a query has to say of a point and an axis: the squared distance, the query's offset from
/// the point on the axis, and that offset squared.
#[derive(Clone, Copy)]
pub struct Probe {
    pub distance: F32Bits,
    pub offset: F32Bits,
    pub offset_squared: F32Bits,
}

/// Whether all that `probe` can answer is what `oracle` says.
pub open spec fn speaks_for<F: Fn(usize, usize) -> Probe>(
    probe: F,
    oracle: spec_fn(usize, usize) -> Probe,
) -> bool {
    forall|p: usize, axis: usize, answer: Probe| #[trigger]
        call_ensures(probe, (p, axis), answer) ==> answer == oracle(p, axis)
}

/// The better of what was found so far and a point at a distance.
pub open spec fn closer(
    best: (Option<usize>, F32Bits),
    point: usize,
    distance: F32Bits,
) -> (Option<usize>, F32Bits) {
    if lt32(distance, best.1) {
        (Some(point), distance)
    } else {
        best
    }
}

/// The nearest point of a subtree, or what was found before where nothing in it is nearer: the
/// node itself, then the side on which the query lies, then the other side unless the plane
/// between them is already too far away.
pub open spec fn nearest_from(
    tree: Option<Box<KdNode>>,
    oracle: spec_fn(usize, usize) -> Probe,
    best: (Option<usize>, F32Bits),
) -> (Option<usize>, F32Bits)
    decreases tree,
{
    match tree {
        None => best,
        Some(node) => {
            let answer = oracle(node.point, node.axis);
            let here = closer(best, node.point, answer.distance);
            if lt32(answer.offset, 0) {
                let near = nearest_from(node.left, oracle, here);
                if lt32(answer.offset_squared, near.1) {
                    nearest_from(node.right, oracle, near)
                } else {
                    near
                }
            } else {
                let near = nearest_from(node.right, oracle, here);
                if lt32(answer.offset_squared, near.1) {
                    nearest_from(node.left, oracle, near)
                } else {
                    near
                }
            }
        },
    }
}

/// A search result as a point with its distance.
pub open spec fn found(best: (Option<usize>, F32Bits)) -> Option<(usize, F32Bits)> {
    match best.0 {
        Some(point) => Some((point, best.1)),
        None => None,
    }
}

fn search_nearest<F: Fn(usize, usize) -> Probe>(
    tree: &Option<Box<KdNode>>,
    probe: &F,
    best: (Option<usize>, F32Bits),
) -> (out: (Option<usize>, F32Bits))
    requires
        forall|p: usize, axis: usize| call_requires(*probe, (p, axis)),
    ensures
        forall|oracle: spec_fn(usize, usize) -> Probe| #[trigger]
            speaks_for(*probe, oracle) ==> out == nearest_from(*tree, oracle, best),
    decreases tree,
{
    match tree {
        None => best,
        Some(node) => {
            let answer = probe(node.point, node.axis);
            let here = if less32(answer.distance, best.1) {
                (Some(node.point), answer.distance)
            } else {
                best
            };
            if less32(answer.offset, 0) {
                let near = search_nearest(&node.left, probe, here);
                if less32(answer.offset_squared, near.1) {
                    search_nearest(&node.right, probe, near)
                } else {
                    near
                }
            } else {
                let near = search_nearest(&node.right, probe, here);
                if less32(answer.offset_squared, near.1) {
                    search_nearest(&node.left, probe, near)
                } else {
                    near
                }
            }
        },
    }
}

/// How many leading entries are not farther than a distance.
pub open spec fn leading(best: Seq<(usize, F32Bits)>, distance: F32Bits) -> nat
    decreases best.len(),
{
    if best.len() > 0 && le32(best[0].1, distance) {
        1 + leading(best.drop_first(), distance)
    } else {
        0
    }
}

/// The list with a point entered behind those that are not farther, cut back to `k` entries. A
/// point that is not nearer than the last of `k` entries changes nothing.
pub open spec fn entered(
    best: Seq<(usize, F32Bits)>,
    k: nat,
    point: usize,
    distance: F32Bits,
) -> Seq<(usize, F32Bits)> {
    if best.len() < k || best.len() > 0 && lt32(distance, best.last().1) {
        let longer = best.insert(leading(best, distance) as int, (point, distance));
        if longer.len() > k {
            longer.take(k as int)
        } else {
            longer
        }
    } else {
        best
    }
}

/// Whether a plane at this squared distance can hide a point that belongs on the list.
pub open spec fn within_reach(best: Seq<(usize, F32Bits)>, k: nat, squared: F32Bits) -> bool {
    le32(
        squared,
        if best.len() < k {
            LARGEST32
        } else {
            best.last().1
        },
    )
}

/// The list after a search of a subtree: the node itself, then the side on which the query lies,
/// then the other side where the plane between them is within reach.
pub open spec fn knn_from(
    tree: Option<Box<KdNode>>,
    oracle: spec_fn(usize, usize) -> Probe,
    k: nat,
    best: Seq<(usize, F32Bits)>,
) -> Seq<(usize, F32Bits)>
    decreases tree,
{
    match tree {
        None => best,
        Some(node) => {
            let answer = oracle(node.point, node.axis);
            let here = entered(best, k, node.point, answer.distance);
            if lt32(answer.offset, 0) {
                let near = knn_from(node.left, oracle, k, here);
                if within_reach(near, k, answer.offset_squared) {
                    knn_from(node.right, oracle, k, near)
                } else {
                    near
                }
            } else {
                let near = knn_from(node.right, oracle, k, here);
                if within_reach(near, k, answer.offset_squared) {
                    knn_from(node.left, oracle, k, near)
                } else {
                    near
                }
            }
        },
    }
}

proof fn lemma_leading_bounded(best: Seq<(usize, F32Bits)>, distance: F32Bits)
    ensures
        leading(best, distance) <= best.len(),
    decreases best.len(),
{
    if best.len() > 0 && le32(best[0].1, distance) {
        lemma_leading_bounded(best.drop_first(), distance);
    }
}

proof fn lemma_leading_at(best: Seq<(usize, F32Bits)>, distance: F32Bits, i: nat)
    requires
        i <= best.len(),
        forall|j: int| 0 <= j < i ==> le32((#[trigger] best[j]).1, distance),
        i < best.len() ==> !le32(best[i as int].1, distance),
    ensures
        leading(best, distance) == i,
    decreases i,
{
    if i > 0 {
        let rest = best.drop_first();
        assert forall|j: int| 0 <= j < i - 1 implies le32((#[trigger] rest[j]).1, distance) by {
            assert(rest[j] == best[j + 1]);
        }
        lemma_leading_at(rest, distance, (i - 1) as nat);
    }
}

/// The list never grows beyond `k` entries.
proof fn lemma_knn_bounded(
    tree: Option<Box<KdNode>>,
    oracle: spec_fn(usize, usize) -> Probe,
    k: nat,
    best: Seq<(usize, F32Bits)>,
)
    requires
        best.len() <= k,
    ensures
        knn_from(tree, oracle, k, best).len() <= k,
        k == 0 ==> knn_from(tree, oracle, k, best) =~= best,
    decreases tree,
{
    match tree {
        None => {},
        Some(node) => {
            let answer = oracle(node.point, node.axis);
            let here = entered(best, k, node.point, answer.distance);
            lemma_leading_bounded(best, answer.distance);
            lemma_knn_bounded(node.left, oracle, k, here);
            lemma_knn_bounded(node.right, oracle, k, here);
            lemma_knn_bounded(node.right, oracle, k, knn_from(node.left, oracle, k, here));
            lemma_knn_bounded(node.left, oracle, k, knn_from(node.right, oracle, k, here));
        },
    }
}

fn enter(best: &mut Vec<(usize, F32Bits)>, k: usize, point: usize, distance: F32Bits)
    requires
        old(best)@.len() <= k,
    ensures
        final(best)@ == entered(old(best)@, k as nat, point, distance),
        final(best)@.len() <= k,
{
    if best.len() < k || best.len() > 0 && less32(distance, best[best.len() - 1].1) {
        let mut at: usize = 0;
        while at < best.len() && at_most32(best[at].1, distance)
            invariant
                at <= best@.len(),
                forall|j: int| 0 <= j < at ==> le32((#[trigger] best@[j]).1, distance),
            decreases best@.len() - at,
        {
            at = at + 1;
        }
        proof {
            lemma_leading_at(best@, distance, at as nat);
        }
        best.insert(at, (point, distance));
        if best.len() > k {
            best.truncate(k);
        }
    }
}

fn reaches(best: &[(usize, F32Bits)], k: usize, squared: F32Bits) -> (r: bool)
    requires
        0 < k,
        best@.len() <= k,
    ensures
        r == within_reach(best@, k as nat, squared),
{
    let worst: F32Bits = if best.len() < k {
        LARGEST32
    } else {
        best[best.len() - 1].1
    };
    at_most32(squared, worst)
}

fn search_knn<F: Fn(usize, usize) -> Probe>(
    tree: &Option<Box<KdNode>>,
    probe: &F,
    k: usize,
    best: &mut Vec<(usize, F32Bits)>,
)
    requires
        0 < k,
        old(best)@.len() <= k,
        forall|p: usize, axis: usize| call_requires(*probe, (p, axis)),
    ensures
        final(best)@.len() <= k,
        forall|oracle: spec_fn(usize, usize) -> Probe| #[trigger]
            speaks_for(*probe, oracle) ==> final(best)@ == knn_from(
                *tree,
                oracle,
                k as nat,
                old(best)@,
            ),
    decreases tree,
{
    match tree {
        None => {},
        Some(node) => {
            let answer = probe(node.point, node.axis);
            enter(best, k, node.point, answer.distance);
            if less32(answer.offset, 0) {
                search_knn(&node.left, probe, k, best);
                if reaches(best, k, answer.offset_squared) {
                    search_knn(&node.right, probe, k, best);
                }
            } else {
                search_knn(&node.right, probe, k, best);
                if reaches(best, k, answer.offset_squared) {
                    search_knn(&node.left, probe, k, best);
                }
            }
        },
    }
}

// ---- the searches are exact ----

/// The squared distance between the query and a point.
pub open spec fn distance_of(oracle: spec_fn(usize, usize) -> Probe, point: usize) -> F32Bits {
    oracle(point, 0).distance
}

/// The side of a node on which the query does not lie.
pub open spec fn far_side(
    node: KdNode,
    oracle: spec_fn(usize, usize) -> Probe,
) -> Option<Box<KdNode>> {
    if lt32(oracle(node.point, node.axis).offset, 0) {
        node.right
    } else {
        node.left
    }
}

/// Whether the answers are those of a distance: one number per point whatever the axis, and on
/// the far side of a splitting plane no point is nearer than the plane.
pub open spec fn measures(
    tree: Option<Box<KdNode>>,
    oracle: spec_fn(usize, usize) -> Probe,
) -> bool
    decreases tree,
{
    match tree {
        None => true,
        Some(node) => {
            let answer = oracle(node.point, node.axis);
            &&& answer.distance == distance_of(oracle, node.point)
            &&& !is_nan32(answer.distance)
            &&& forall|q: usize| #[trigger]
                contents(far_side(*node, oracle)).count(q) > 0 ==> le32(
                    answer.offset_squared,
                    distance_of(oracle, q),
                )
            &&& measures(node.left, oracle)
            &&& measures(node.right, oracle)
        },
    }
}

/// A search for the nearest point ends with a distance that no point of the tree undercuts, and
/// that is the distance of the point it names, or with what it started from.
pub proof fn lemma_nearest_exact(
    tree: Option<Box<KdNode>>,
    oracle: spec_fn(usize, usize) -> Probe,
    best: (Option<usize>, F32Bits),
)
    requires
        measures(tree, oracle),
        !is_nan32(best.1),
    ensures
        ({
            let out = nearest_from(tree, oracle, best);
            &&& le32(out.1, best.1)
            &&& forall|q: usize| #[trigger]
                contents(tree).count(q) > 0 ==> le32(out.1, distance_of(oracle, q))
            &&& out == best || (out.0 is Some && contents(tree).count(out.0->0) > 0 && out.1
                == distance_of(oracle, out.0->0))
        }),
    decreases tree,
{
    match tree {
        None => {},
        Some(node) => {
            let answer = oracle(node.point, node.axis);
            let here = closer(best, node.point, answer.distance);
            let near_tree = if lt32(answer.offset, 0) {
                node.left
            } else {
                node.right
            };
            let far_tree = far_side(*node, oracle);
            lemma_nearest_exact(near_tree, oracle, here);
            let near = nearest_from(near_tree, oracle, here);
            lemma_nearest_exact(far_tree, oracle, near);
            let out = nearest_from(tree, oracle, best);
            assert forall|q: usize| #[trigger] contents(tree).count(q) > 0 implies le32(
                out.1,
                distance_of(oracle, q),
            ) by {
                assert(q == node.point || contents(near_tree).count(q) > 0 || contents(
                    far_tree,
                ).count(q) > 0);
            }
        },
    }
}

/// The points on a list.
pub open spec fn listed(best: Seq<(usize, F32Bits)>) -> Seq<usize> {
    best.map_values(|e: (usize, F32Bits)| e.0)
}

/// A list is right for the points seen so far: nearest first, each with its distance, no point
/// more often than it was seen; and where one is left out the list is full and the point no
/// nearer than the last on it.
pub open spec fn holds_nearest(
    best: Seq<(usize, F32Bits)>,
    k: nat,
    seen: Multiset<usize>,
    oracle: spec_fn(usize, usize) -> Probe,
) -> bool {
    &&& best.len() <= k
    &&& forall|i: int, j: int|
        0 <= i <= j < best.len() ==> le32((#[trigger] best[i]).1, (#[trigger] best[j]).1)
    &&& forall|i: int|
        0 <= i < best.len() ==> (#[trigger] best[i]).1 == distance_of(oracle, best[i].0)
    &&& forall|q: usize| #[trigger]
        listed(best).to_multiset().count(q) <= seen.count(q)
    &&& forall|q: usize|
        (#[trigger] seen.count(q)) > listed(best).to_multiset().count(q) ==> best.len() == k
            && le32(best.last().1, distance_of(oracle, q))
}

proof fn lemma_leading_splits(best: Seq<(usize, F32Bits)>, distance: F32Bits)
    ensures
        leading(best, distance) <= best.len(),
        forall|j: int|
            0 <= j < leading(best, distance) ==> le32((#[trigger] best[j]).1, distance),
        leading(best, distance) < best.len() ==> !le32(
            best[leading(best, distance) as int].1,
            distance,
        ),
    decreases best.len(),
{
    if best.len() > 0 && le32(best[0].1, distance) {
        let rest = best.drop_first();
        lemma_leading_splits(rest, distance);
        assert forall|j: int| 0 <= j < leading(best, distance) implies le32(
            (#[trigger] best[j]).1,
            distance,
        ) by {
            if j > 0 {
                assert(best[j] == rest[j - 1]);
            }
        }
    }
}

proof fn lemma_entered_holds(
    best: Seq<(usize, F32Bits)>,
    k: nat,
    seen: Multiset<usize>,
    oracle: spec_fn(usize, usize) -> Probe,
    point: usize,
)
    requires
        0 < k,
        holds_nearest(best, k, seen, oracle),
        !is_nan32(distance_of(oracle, point)),
    ensures
        holds_nearest(
            entered(best, k, point, distance_of(oracle, point)),
            k,
            seen.insert(point),
            oracle,
        ),
{
    broadcast use vstd::seq_lib::group_to_multiset_ensures;

    let distance = distance_of(oracle, point);
    let out = entered(best, k, point, distance);
    let more = seen.insert(point);
    if best.len() < k || best.len() > 0 && lt32(distance, best.last().1) {
        lemma_leading_splits(best, distance);
        let at = leading(best, distance) as int;
        let longer = best.insert(at, (point, distance));
        assert(listed(longer) =~= listed(best).insert(at, point));
        vstd::seq_lib::to_multiset_insert(listed(best), at, point);
        assert forall|i: int, j: int| 0 <= i <= j < longer.len() implies le32(
            (#[trigger] longer[i]).1,
            (#[trigger] longer[j]).1,
        ) by {
            let before_i = if i < at { i } else { i - 1 };
            let before_j = if j < at { j } else { j - 1 };
            if i != at {
                assert(longer[i] == best[before_i]);
            }
            if j != at {
                assert(longer[j] == best[before_j]);
                if j > at {
                    assert(le32(best[at].1, best[before_j].1));
                }
            }
        }
        assert forall|i: int| 0 <= i < longer.len() implies (#[trigger] longer[i]).1 == distance_of(
            oracle,
            longer[i].0,
        ) by {
            let before = if i < at { i } else { i - 1 };
            if i != at {
                assert(longer[i] == best[before]);
            }
        }
        if longer.len() > k {
            let last = longer.last();
            assert(longer.len() == k + 1);
            assert(out == longer.take(k as int));
            assert(longer =~= out.push(last));
            assert(listed(longer) =~= listed(out).push(last.0));
            assert forall|q: usize| #[trigger] listed(out).to_multiset().count(q) + (if q == last.0 {
                1int
            } else {
                0
            }) == listed(best).to_multiset().count(q) + (if q == point {
                1int
            } else {
                0
            }) by {
                let whole = listed(longer).to_multiset();
                assert(whole == listed(out).to_multiset().insert(last.0));
                assert(whole == listed(best).to_multiset().insert(point));
                assert(whole.count(q) == listed(out).to_multiset().insert(last.0).count(q));
                assert(whole.count(q) == listed(best).to_multiset().insert(point).count(q));
            }
            assert(le32(longer[k - 1].1, longer[k as int].1));
            assert(out.last() == longer[k - 1]);
            assert forall|q: usize|
                (#[trigger] more.count(q)) > listed(out).to_multiset().count(q) implies out.len()
                == k && le32(out.last().1, distance_of(oracle, q)) by {
                if q == last.0 {
                    assert(last.1 == distance_of(oracle, q));
                } else {
                    assert(seen.count(q) > listed(best).to_multiset().count(q));
                    assert(le32(best.last().1, distance_of(oracle, q)));
                    // The entry before the dropped one is not above the old last entry.
                    if at < k {
                        assert(longer[k as int] == best[k - 1]);
                    }
                }
            }
            assert forall|q: usize| #[trigger]
                listed(out).to_multiset().count(q) <= more.count(q) by {
                assert(listed(best).to_multiset().count(q) <= seen.count(q));
            }
        } else {
            assert(out == longer);
            assert forall|q: usize|
                (#[trigger] more.count(q)) > listed(out).to_multiset().count(q) implies out.len()
                == k && le32(out.last().1, distance_of(oracle, q)) by {
                assert(seen.count(q) > listed(best).to_multiset().count(q));
            }
            assert forall|q: usize| #[trigger]
                listed(out).to_multiset().count(q) <= more.count(q) by {
                assert(listed(best).to_multiset().count(q) <= seen.count(q));
            }
        }
    } else {
        assert(le32(best[best.len() - 1].1, best[best.len() - 1].1));
        assert forall|q: usize|
            (#[trigger] more.count(q)) > listed(out).to_multiset().count(q) implies out.len() == k
            && le32(out.last().1, distance_of(oracle, q)) by {
            if seen.count(q) > listed(best).to_multiset().count(q) {
            }
        }
        assert forall|q: usize| #[trigger]
            listed(out).to_multiset().count(q) <= more.count(q) by {
            assert(listed(best).to_multiset().count(q) <= seen.count(q));
        }
    }
}

/// A search for the `k` nearest points ends with a list that is right for all points of the
/// tree, where it started from one that was right for the points seen before and every distance
/// is a finite number.
pub proof fn lemma_knn_exact(
    tree: Option<Box<KdNode>>,
    oracle: spec_fn(usize, usize) -> Probe,
    k: nat,
    best: Seq<(usize, F32Bits)>,
    seen: Multiset<usize>,
)
    requires
        0 < k,
        measures(tree, oracle),
        forall|q: usize| #[trigger]
            contents(tree).count(q) > 0 ==> le32(distance_of(oracle, q), LARGEST32),
        holds_nearest(best, k, seen, oracle),
    ensures
        holds_nearest(knn_from(tree, oracle, k, best), k, seen.add(contents(tree)), oracle),
    decreases tree,
{
    match tree {
        None => {
            assert(seen.add(contents(tree)) =~= seen);
        },
        Some(node) => {
            let answer = oracle(node.point, node.axis);
            let here = entered(best, k, node.point, answer.distance);
            let near_tree = if lt32(answer.offset, 0) {
                node.left
            } else {
                node.right
            };
            let far_tree = far_side(*node, oracle);
            lemma_entered_holds(best, k, seen, oracle, node.point);
            let after_node = seen.insert(node.point);
            assert forall|q: usize| #[trigger] contents(near_tree).count(q) > 0 implies le32(
                distance_of(oracle, q),
                LARGEST32,
            ) by {
                assert(contents(tree).count(q) > 0);
            }
            lemma_knn_exact(near_tree, oracle, k, here, after_node);
            let near = knn_from(near_tree, oracle, k, here);
            let after_near = after_node.add(contents(near_tree));
            let all = seen.add(contents(tree));
            assert(after_near.add(contents(far_tree)) =~= all);
            assert forall|q: usize| #[trigger] contents(far_tree).count(q) > 0 implies le32(
                distance_of(oracle, q),
                LARGEST32,
            ) by {
                assert(contents(tree).count(q) > 0);
            }
            if within_reach(near, k, answer.offset_squared) {
                lemma_knn_exact(far_tree, oracle, k, near, after_near);
            } else {
                assert forall|q: usize|
                    (#[trigger] all.count(q)) > listed(near).to_multiset().count(q) implies near.len()
                    == k && le32(near.last().1, distance_of(oracle, q)) by {
                    if contents(far_tree).count(q) > 0 {
                        assert(le32(answer.offset_squared, distance_of(oracle, q)));
                        if near.len() == k {
                            assert(le32(near[k - 1].1, near[k - 1].1));
                        }
                    } else {
                        assert(after_near.count(q) == all.count(q));
                    }
                }
                assert forall|q: usize| #[trigger]
                    listed(near).to_multiset().count(q) <= all.count(q) by {
                    assert(listed(near).to_multiset().count(q) <= after_near.count(q));
                }
            }
        },
    }
}

/// Whether the answers are those of one query on the points: each point has one distance, and a
/// point behind another, as seen from the query along an axis, is no nearer than the plane
/// through that other one.
pub open spec fn answers_query(
    points: Seq<[F32Bits; 3]>,
    oracle: spec_fn(usize, usize) -> Probe,
) -> bool {
    &&& forall|p: usize, axis: usize|
        p < points.len() && axis < 3 ==> (#[trigger] oracle(p, axis)).distance == distance_of(
            oracle,
            p,
        ) && !is_nan32(oracle(p, axis).distance)
    &&& forall|p: usize, q: usize, axis: usize|
        #![trigger oracle(p, axis), coordinate(points, q, axis)]
        p < points.len() && q < points.len() && axis < 3 && (if lt32(oracle(p, axis).offset, 0) {
            coordinate(points, p, axis) <= coordinate(points, q, axis)
        } else {
            coordinate(points, q, axis) <= coordinate(points, p, axis)
        }) ==> le32(oracle(p, axis).offset_squared, distance_of(oracle, q))
}

proof fn lemma_query_measures(
    tree: Option<Box<KdNode>>,
    points: Seq<[F32Bits; 3]>,
    axis: usize,
    oracle: spec_fn(usize, usize) -> Probe,
)
    requires
        axis < 3,
        splits(tree, points, axis),
        answers_query(points, oracle),
        forall|p: usize| #[trigger] contents(tree).count(p) > 0 ==> p < points.len(),
    ensures
        measures(tree, oracle),
    decreases tree,
{
    match tree {
        None => {},
        Some(node) => {
            let next = ((axis + 1) % 3) as usize;
            assert(contents(tree).count(node.point) > 0);
            assert forall|p: usize| #[trigger] contents(node.left).count(p) > 0 implies p
                < points.len() by {
                assert(contents(tree).count(p) > 0);
            }
            assert forall|p: usize| #[trigger] contents(node.right).count(p) > 0 implies p
                < points.len() by {
                assert(contents(tree).count(p) > 0);
            }
            lemma_query_measures(node.left, points, next, oracle);
            lemma_query_measures(node.right, points, next, oracle);
            let answer = oracle(node.point, node.axis);
            assert forall|q: usize| #[trigger]
                contents(far_side(*node, oracle)).count(q) > 0 implies le32(
                answer.offset_squared,
                distance_of(oracle, q),
            ) by {
                if lt32(answer.offset, 0) {
                    assert(contents(node.right).count(q) > 0);
                } else {
                    assert(contents(node.left).count(q) > 0);
                }
                assert(q < points.len());
                assert(coordinate(points, q, axis) == coordinate(points, q, node.axis));
            }
        },
    }
}

proof fn lemma_all_indices(n: nat)
    requires
        n <= usize::MAX,
    ensures
        forall|p: usize| (#[trigger] all_indices(n).count(p)) > 0 <==> p < n,
{
    broadcast use vstd::seq_lib::group_to_multiset_ensures;

    let indices = Seq::new(n, |i: int| i as usize);
    assert forall|p: usize| (#[trigger] all_indices(n).count(p)) > 0 <==> p < n by {
        if p < n {
            assert(indices[p as int] == p);
        }
        assert(indices.contains(p) <==> p < n);
    }
}

/// On a tree that was built from a cloud, the search for the nearest point finds it: no point of
/// the cloud is nearer to the query, and there is none exactly where no point is nearer than the
/// largest finite number.
pub proof fn lemma_nearest_is_nearest(tree: KdTree, oracle: spec_fn(usize, usize) -> Probe)
    requires
        tree.points@.len() <= usize::MAX,
        contents(tree.root) == all_indices(tree.points@.len()),
        splits(tree.root, tree.points@, 0),
        answers_query(tree.points@, oracle),
    ensures
        match found(nearest_from(tree.root, oracle, (None, LARGEST32))) {
            Some((point, distance)) => {
                &&& point < tree.points@.len()
                &&& distance == distance_of(oracle, point)
                &&& forall|q: usize|
                    q < tree.points@.len() ==> le32(distance, #[trigger] distance_of(oracle, q))
            },
            None => forall|q: usize|
                q < tree.points@.len() ==> !lt32(#[trigger] distance_of(oracle, q), LARGEST32),
        },
{
    let n = tree.points@.len();
    lemma_all_indices(n);
    lemma_query_measures(tree.root, tree.points@, 0, oracle);
    lemma_nearest_exact(tree.root, oracle, (None, LARGEST32));
    let out = nearest_from(tree.root, oracle, (None, LARGEST32));
    assert forall|q: usize| q < n implies le32(out.1, #[trigger] distance_of(oracle, q)) by {
        assert(contents(tree.root).count(q) > 0);
    }
}

/// A list without repetitions holds no more entries than a collection that holds all of them, and
/// as many where it leaves none out.
proof fn lemma_listed_count(best: Seq<(usize, F32Bits)>, n: nat)
    requires
        n <= usize::MAX,
        forall|q: usize| #[trigger]
            listed(best).to_multiset().count(q) <= all_indices(n).count(q),
    ensures
        best.len() <= n,
        listed(best).no_duplicates(),
        forall|i: int| 0 <= i < best.len() ==> (#[trigger] best[i]).0 < n,
        (forall|q: usize|
            (#[trigger] all_indices(n).count(q)) <= listed(best).to_multiset().count(q))
            ==> best.len() == n,
{
    broadcast use vstd::seq_lib::group_to_multiset_ensures;
    broadcast use vstd::multiset::group_multiset_axioms;

    let indices = Seq::new(n, |i: int| i as usize);
    let names = listed(best);
    lemma_all_indices(n);
    assert(indices.no_duplicates());
    indices.lemma_multiset_has_no_duplicates();
    assert(names.to_multiset().subset_of(all_indices(n)));
    assert(names.to_multiset().len() == best.len());
    assert(all_indices(n).len() == n);
    assert(all_indices(n).sub(names.to_multiset()).len() == n - best.len());
    assert forall|q: usize| #[trigger] names.to_multiset().contains(q) implies
        names.to_multiset().count(q) == 1 by {
        assert(all_indices(n).contains(q));
    }
    names.lemma_multiset_has_no_duplicates_conv();
    assert forall|i: int| 0 <= i < best.len() implies (#[trigger] best[i]).0 < n by {
        assert(names[i] == best[i].0);
        assert(names.contains(names[i]));
        assert(all_indices(n).count(best[i].0) > 0);
    }
    if forall|q: usize| (#[trigger] all_indices(n).count(q)) <= names.to_multiset().count(q) {
        assert(all_indices(n) =~= names.to_multiset());
    }
}

/// On a tree that was built from a cloud, the search for the `k` nearest points finds them, as far
/// as the distances are finite: as many as there are, up to `k`, none twice, each with its
/// distance, nearest first; and a point is left out only where no entry is farther.
pub proof fn lemma_knn_is_nearest(tree: KdTree, oracle: spec_fn(usize, usize) -> Probe, k: nat)
    requires
        0 < k,
        tree.points@.len() <= usize::MAX,
        contents(tree.root) == all_indices(tree.points@.len()),
        splits(tree.root, tree.points@, 0),
        answers_query(tree.points@, oracle),
        forall|q: usize|
            q < tree.points@.len() ==> le32(#[trigger] distance_of(oracle, q), LARGEST32),
    ensures
        ({
            let n = tree.points@.len();
            let best = knn_from(tree.root, oracle, k, Seq::empty());
            &&& best.len() == (if k < n {
                k
            } else {
                n
            })
            &&& listed(best).no_duplicates()
            &&& forall|i: int|
                0 <= i < best.len() ==> (#[trigger] best[i]).0 < n && best[i].1 == distance_of(
                    oracle,
                    best[i].0,
                )
            &&& forall|i: int, j: int|
                0 <= i <= j < best.len() ==> le32((#[trigger] best[i]).1, (#[trigger] best[j]).1)
            &&& forall|q: usize|
                q < n && !(#[trigger] listed(best).contains(q)) ==> le32(
                    best.last().1,
                    distance_of(oracle, q),
                )
        }),
{
    broadcast use vstd::seq_lib::group_to_multiset_ensures;

    let n = tree.points@.len();
    let best = knn_from(tree.root, oracle, k, Seq::empty());
    lemma_all_indices(n);
    lemma_query_measures(tree.root, tree.points@, 0, oracle);
    assert(listed(Seq::<(usize, F32Bits)>::empty()) =~= Seq::<usize>::empty());
    assert(holds_nearest(Seq::empty(), k, Multiset::empty(), oracle));
    lemma_knn_exact(tree.root, oracle, k, Seq::empty(), Multiset::empty());
    assert(Multiset::empty().add(contents(tree.root)) =~= contents(tree.root));
    assert(holds_nearest(best, k, all_indices(n), oracle));
    lemma_listed_count(best, n);
    assert forall|q: usize| q < n && !(#[trigger] listed(best).contains(q)) implies le32(
        best.last().1,
        distance_of(oracle, q),
    ) by {
        assert(all_indices(n).count(q) > 0);
        assert(listed(best).to_multiset().count(q) == 0);
    }
}

/// The nearest point and the first of the `k` nearest are equally far from the query.
pub proof fn lemma_nearest_leads_knn(tree: KdTree, oracle: spec_fn(usize, usize) -> Probe, k: nat)
    requires
        0 < k,
        0 < tree.points@.len() <= usize::MAX,
        contents(tree.root) == all_indices(tree.points@.len()),
        splits(tree.root, tree.points@, 0),
        answers_query(tree.points@, oracle),
        forall|q: usize|
            q < tree.points@.len() ==> lt32(#[trigger] distance_of(oracle, q), LARGEST32),
    ensures
        found(nearest_from(tree.root, oracle, (None, LARGEST32))) matches Some(nearest) && {
            let best = knn_from(tree.root, oracle, k, Seq::empty());
            &&& best.len() > 0
            &&& le32(nearest.1, best[0].1)
            &&& le32(best[0].1, nearest.1)
        },
{
    let n = tree.points@.len();
    let best = knn_from(tree.root, oracle, k, Seq::empty());
    assert forall|q: usize| q < n implies le32(#[trigger] distance_of(oracle, q), LARGEST32) by {
        assert(lt32(distance_of(oracle, q), LARGEST32));
    }
    lemma_nearest_is_nearest(tree, oracle);
    lemma_knn_is_nearest(tree, oracle, k);
    assert(0usize < n && lt32(distance_of(oracle, 0), LARGEST32));
    let nearest = found(nearest_from(tree.root, oracle, (None, LARGEST32)))->0;
    assert(le32(nearest.1, distance_of(oracle, best[0].0)));
    if listed(best).contains(nearest.0) {
        let i = choose|i: int| 0 <= i < listed(best).len() && listed(best)[i] == nearest.0;
        assert(le32(best[0].1, best[i].1));
    } else {
        assert(le32(best[0].1, best.last().1));
        assert(le32(best.last().1, distance_of(oracle, nearest.0)));
    }
}

// ---- voxel cells ----

/// Whether all three coordinates are finite numbers.
pub open spec fn is_finite_point(p: [F32Bits; 3]) -> bool {
    is_finite32(p@[0]) && is_finite32(p@[1]) && is_finite32(p@[2])
}

/// Whether all three coordinates are finite numbers.
pub fn finite_point(p: &[F32Bits; 3]) -> (r: bool)
    ensures
        r == is_finite_point(*p),
{
    finite32(p[0]) && finite32(p[1]) && finite32(p[2])
}

/// The rank of a cell: by z, then y, then x.
pub open spec fn cell_rank(cell: [i64; 3]) -> SortKey {
    SortKey { first: cell@[2], second: cell@[1], third: cell@[0] }
}

/// A point is in one of the groups.
pub open spec fn is_grouped(groups: Seq<Vec<usize>>, p: int) -> bool {
    exists|g: int, i: int|
        0 <= g < groups.len() && 0 <= i < groups[g]@.len() && (#[trigger] groups[g]@[i]) == p
}

/// `groups` are the occupied cells by ascending rank, each with its finite points in the order
/// of the cloud. `cells` gives the cell of every point.
pub open spec fn fills_cells(
    cloud: Seq<[F32Bits; 3]>,
    cells: Seq<[i64; 3]>,
    groups: Seq<Vec<usize>>,
) -> bool {
    &&& forall|g: int| 0 <= g < groups.len() ==> (#[trigger] groups[g])@.len() > 0
    &&& forall|g: int, i: int|
        0 <= g < groups.len() && 0 <= i < groups[g]@.len() ==> (#[trigger] groups[g]@[i])
            < cloud.len() && is_finite_point(cloud[groups[g]@[i] as int]) && cell_rank(
            cells[groups[g]@[i] as int],
        ) == cell_rank(cells[groups[g]@[0] as int])
    &&& forall|g: int, i: int, j: int|
        0 <= g < groups.len() && 0 <= i < j < groups[g]@.len() ==> (#[trigger] groups[g]@[i]) < (
        #[trigger] groups[g]@[j])
    &&& forall|g: int, h: int|
        0 <= g < h < groups.len() ==> key_le(
            cell_rank(cells[(#[trigger] groups[g])@[0] as int]),
            cell_rank(cells[(#[trigger] groups[h])@[0] as int]),
        ) && cell_rank(cells[groups[g]@[0] as int]) != cell_rank(cells[groups[h]@[0] as int])
    &&& forall|p: int|
        0 <= p < cloud.len() && is_finite_point(#[trigger] cloud[p]) ==> is_grouped(groups, p)
}

/// How a cloud is thinned: not at all, or to one point for each group of points.
pub enum VoxelPlan {
    AsItIs,
    Cells(Vec<Vec<usize>>),
}

/// Groups the finite points of a cloud by cell; without a positive leaf size the cloud stays as
/// it is. `cells` gives the cell of every point.
pub fn voxel_downsample(
    cloud: &[[F32Bits; 3]],
    leaf: F64Bits,
    cells: &[[i64; 3]],
) -> (plan: VoxelPlan)
    requires
        cells@.len() == cloud@.len(),
    ensures
        plan is AsItIs <==> le(leaf, 0) || cloud@.len() == 0,
        plan matches VoxelPlan::Cells(groups) ==> fills_cells(cloud@, cells@, groups@),
{
    if at_most(leaf, 0) || cloud.len() == 0 {
        return VoxelPlan::AsItIs;
    }
    let mut kept: Vec<usize> = Vec::new();
    let mut keys: Vec<SortKey> = Vec::new();
    let mut n: usize = 0;
    while n < cloud.len()
        invariant
            n <= cloud.len(),
            cells@.len() == cloud@.len(),
            keys@.len() == kept@.len(),
            forall|i: int|
                0 <= i < kept@.len() ==> (#[trigger] kept@[i]) < n && is_finite_point(
                    cloud@[kept@[i] as int],
                ) && keys@[i] == cell_rank(cells@[kept@[i] as int]),
            forall|i: int, j: int|
                0 <= i < j < kept@.len() ==> (#[trigger] kept@[i]) < (#[trigger] kept@[j]),
            forall|p: int|
                0 <= p < n && is_finite_point(#[trigger] cloud@[p]) ==> kept@.contains(p as usize),
        decreases cloud.len() - n,
    {
        let ghost before = kept@;
        if finite_point(&cloud[n]) {
            let cell = cells[n];
            kept.push(n);
            keys.push(SortKey { first: cell[2], second: cell[1], third: cell[0] });
        }
        proof {
            assert forall|p: int| 0 <= p <= n && is_finite_point(#[trigger] cloud@[p]) implies kept@.contains(
                p as usize,
            ) by {
                if p < n {
                    let i = choose|i: int| 0 <= i < before.len() && before[i] == p as usize;
                    assert(kept@[i] == p as usize);
                } else {
                    assert(kept@[kept@.len() - 1] == p as usize);
                }
            }
        }
        n = n + 1;
    }
    let places = group_by_key(&keys);
    let mut groups: Vec<Vec<usize>> = Vec::with_capacity(places.len());
    let mut g: usize = 0;
    while g < places.len()
        invariant
            g <= places.len(),
            groups@.len() == g,
            groups_by_key(keys@, places@),
            keys@.len() == kept@.len(),
            forall|h: int|
                0 <= h < g ==> (#[trigger] groups@[h])@.len() == places@[h]@.len(),
            forall|h: int, i: int|
                0 <= h < g && 0 <= i < places@[h]@.len() ==> (#[trigger] groups@[h]@[i])
                    == kept@[places@[h]@[i] as int],
        decreases places.len() - g,
    {
        let mut group: Vec<usize> = Vec::with_capacity(places[g].len());
        let mut i: usize = 0;
        while i < places[g].len()
            invariant
                g < places.len(),
                i <= places@[g as int]@.len(),
                groups_by_key(keys@, places@),
                keys@.len() == kept@.len(),
                group@.len() == i,
                forall|k: int| 0 <= k < i ==> (#[trigger] group@[k]) == kept@[places@[g as int]@[k] as int],
            decreases places@[g as int]@.len() - i,
        {
            assert(places@[g as int]@[i as int] < keys@.len());
            group.push(kept[places[g][i]]);
            i = i + 1;
        }
        groups.push(group);
        g = g + 1;
    }
    proof {
        lemma_cells_filled(cloud@, cells@, kept@, keys@, places@, groups@);
    }
    VoxelPlan::Cells(groups)
}

proof fn lemma_cells_filled(
    cloud: Seq<[F32Bits; 3]>,
    cells: Seq<[i64; 3]>,
    kept: Seq<usize>,
    keys: Seq<SortKey>,
    places: Seq<Vec<usize>>,
    groups: Seq<Vec<usize>>,
)
    requires
        cells.len() == cloud.len(),
        cloud.len() <= usize::MAX,
        keys.len() == kept.len(),
        forall|i: int|
            0 <= i < kept.len() ==> (#[trigger] kept[i]) < cloud.len() && is_finite_point(
                cloud[kept[i] as int],
            ) && keys[i] == cell_rank(cells[kept[i] as int]),
        forall|i: int, j: int|
            0 <= i < j < kept.len() ==> (#[trigger] kept[i]) < (#[trigger] kept[j]),
        forall|p: int|
            0 <= p < cloud.len() && is_finite_point(#[trigger] cloud[p]) ==> kept.contains(
                p as usize,
            ),
        groups_by_key(keys, places),
        groups.len() == places.len(),
        forall|h: int| 0 <= h < groups.len() ==> (#[trigger] groups[h])@.len() == places[h]@.len(),
        forall|h: int, i: int|
            0 <= h < groups.len() && 0 <= i < places[h]@.len() ==> (#[trigger] groups[h]@[i])
                == kept[places[h]@[i] as int],
    ensures
        fills_cells(cloud, cells, groups),
{
    assert forall|g: int| 0 <= g < groups.len() implies (#[trigger] groups[g])@.len() > 0 by {
        assert(places[g]@.len() > 0);
    }
    assert forall|g: int, i: int|
        0 <= g < groups.len() && 0 <= i < groups[g]@.len() implies (#[trigger] groups[g]@[i])
        < cloud.len() && is_finite_point(cloud[groups[g]@[i] as int]) && cell_rank(
        cells[groups[g]@[i] as int],
    ) == cell_rank(cells[groups[g]@[0] as int]) by {
        assert(groups[g]@[i] == kept[places[g]@[i] as int]);
        assert(groups[g]@[0] == kept[places[g]@[0] as int]);
        assert(places[g]@[i] < keys.len() && places[g]@[0] < keys.len());
    }
    assert forall|g: int, i: int, j: int|
        0 <= g < groups.len() && 0 <= i < j < groups[g]@.len() implies (#[trigger] groups[g]@[i])
        < (#[trigger] groups[g]@[j]) by {
        assert(places[g]@[i] < places[g]@[j]);
        assert(places[g]@[j] < keys.len());
    }
    assert forall|g: int, h: int| 0 <= g < h < groups.len() implies key_le(
        cell_rank(cells[(#[trigger] groups[g])@[0] as int]),
        cell_rank(cells[(#[trigger] groups[h])@[0] as int]),
    ) && cell_rank(cells[groups[g]@[0] as int]) != cell_rank(cells[groups[h]@[0] as int]) by {
        assert(places[g]@.len() > 0 && places[h]@.len() > 0);
        assert(groups[g]@[0] == kept[places[g]@[0] as int]);
        assert(groups[h]@[0] == kept[places[h]@[0] as int]);
        assert(places[g]@[0] < keys.len() && places[h]@[0] < keys.len());
    }
    assert forall|p: int| 0 <= p < cloud.len() && is_finite_point(#[trigger] cloud[p]) implies is_grouped(
        groups,
        p,
    ) by {
        let k = choose|k: int| 0 <= k < kept.len() && kept[k] == p as usize;
        assert(crate::order::grouped_at(places, k));
        let (g, i) = choose|g: int, i: int|
            0 <= g < places.len() && 0 <= i < places[g]@.len() && (#[trigger] places[g]@[i]) == k;
        assert(groups[g]@[i] == kept[places[g]@[i] as int]);
    }
}

// ---- point-to-point registration ----

/// When a point-to-point registration stops, and how far apart a pair may be.
pub struct IcpParams {
    pub max_iterations: usize,
    pub max_correspondence_distance: F64Bits,
    /// Bound on the squared length of an iteration's translation.
    pub transformation_epsilon: F64Bits,
    /// Bound on the cosine of an iteration's rotation angle.
    pub rotation_threshold: F64Bits,
    /// Bound on the absolute change of the mean squared error.
    pub mse_threshold_absolute: F64Bits,
    /// Bound on the relative change of the mean squared error.
    pub euclidean_fitness_epsilon: F64Bits,
}

impl Default for IcpParams {
    /// 50 iterations, 10 m, 1e-6, 0.99999, 1e-12, 1e-6.
    fn default() -> (r: IcpParams)
        ensures
            r.max_iterations == 50,
            r.max_correspondence_distance == 0x4024_0000_0000_0000,
            r.transformation_epsilon == 0x3eb0_c6f7_a0b5_ed8d,
            r.rotation_threshold == 0x3fef_ffeb_074a_771d,
            r.mse_threshold_absolute == 0x3d71_9799_812d_ea11,
            r.euclidean_fitness_epsilon == 0x3eb0_c6f7_a0b5_ed8d,
    {
        IcpParams {
            max_iterations: 50,
            max_correspondence_distance: 0x4024_0000_0000_0000,
            transformation_epsilon: 0x3eb0_c6f7_a0b5_ed8d,
            rotation_threshold: 0x3fef_ffeb_074a_771d,
            mse_threshold_absolute: 0x3d71_9799_812d_ea11,
            euclidean_fitness_epsilon: 0x3eb0_c6f7_a0b5_ed8d,
        }
    }
}

/// The pairs among the first `n` hits: a source point, its hit, no farther apart than the bound
/// on the squared distance.
pub open spec fn pairs_within(
    hits: Seq<Option<(usize, F64Bits)>>,
    max_squared: F64Bits,
    n: nat,
) -> Seq<(usize, usize)>
    decreases n,
{
    if n == 0 {
        Seq::empty()
    } else {
        let rest = pairs_within(hits, max_squared, (n - 1) as nat);
        match hits[n - 1] {
            Some(hit) => if lt(max_squared, hit.1) {
                rest
            } else {
                rest.push(((n - 1) as usize, hit.0))
            },
            None => rest,
        }
    }
}

/// The pairs of source points and their hits, in the order of the source, without the hits that
/// are too far away. A hit holds the target's index and the squared distance.
pub fn matched_pairs(hits: &[Option<(usize, F64Bits)>], max_squared: F64Bits) -> (pairs: Vec<
    (usize, usize),
>)
    ensures
        pairs@ == pairs_within(hits@, max_squared, hits@.len()),
{
    let mut pairs: Vec<(usize, usize)> = Vec::with_capacity(hits.len());
    let mut n: usize = 0;
    while n < hits.len()
        invariant
            n <= hits.len(),
            pairs@ == pairs_within(hits@, max_squared, n as nat),
        decreases hits.len() - n,
    {
        match hits[n] {
            Some(hit) => {
                if !less(max_squared, hit.1) {
                    pairs.push((n, hit.0));
                }
            },
            None => {},
        }
        n = n + 1;
    }
    pairs
}

/// The fewest pairs from which a rigid transform is estimated.
pub const MIN_PAIRS: usize = 3;

/// What an iteration did: how far it turned and moved the cloud, and how the mean squared error
/// of its pairs compares to that of the iteration before.
#[derive(Clone, Copy)]
pub struct IcpStep {
    pub cos_angle: F64Bits,
    pub translation_squared: F64Bits,
    pub mse_change: F64Bits,
    pub mse_ratio: F64Bits,
}

/// Whether an iteration changed so little that the registration has converged.
pub open spec fn settles(step: IcpStep, params: IcpParams) -> bool {
    ||| le(params.rotation_threshold, step.cos_angle) && le(
        step.translation_squared,
        params.transformation_epsilon,
    )
    ||| lt(step.mse_change, params.mse_threshold_absolute)
    ||| lt(step.mse_ratio, params.euclidean_fitness_epsilon)
}

/// The course of a point-to-point registration.
pub struct IcpLoop {
    pub iterations: usize,
    /// `None` while it runs; then whether it converged.
    pub outcome: Option<bool>,
}

/// A registration that has not begun. Between clouds of which one is empty it never does.
pub open spec fn icp_start(source_len: nat, target_len: nat) -> (nat, Option<bool>) {
    if source_len == 0 || target_len == 0 {
        (0, Some(false))
    } else {
        (0, None)
    }
}

/// The state once an iteration's pairs are known: with too few of them the registration ends
/// without convergence.
pub open spec fn icp_begun(state: (nat, Option<bool>), pairs: nat) -> (nat, Option<bool>) {
    if state.1 is None && pairs < MIN_PAIRS {
        (state.0, Some(false))
    } else {
        state
    }
}

/// The state after an iteration. The last one that is allowed counts as convergence.
pub open spec fn icp_finished(
    state: (nat, Option<bool>),
    step: IcpStep,
    params: IcpParams,
) -> (nat, Option<bool>) {
    if state.1 is Some {
        state
    } else if state.0 + 1 >= params.max_iterations || settles(step, params) {
        (state.0 + 1, Some(true))
    } else {
        (state.0 + 1, None)
    }
}

impl View for IcpLoop {
    type V = (nat, Option<bool>);

    open spec fn view(&self) -> (nat, Option<bool>) {
        (self.iterations as nat, self.outcome)
    }
}

impl IcpLoop {
    /// A registration between clouds of these sizes.
    pub fn new(source_len: usize, target_len: usize) -> (r: IcpLoop)
        ensures
            r@ == icp_start(source_len as nat, target_len as nat),
    {
        let outcome = if source_len == 0 || target_len == 0 {
            Some(false)
        } else {
            None
        };
        IcpLoop { iterations: 0, outcome }
    }

    /// Takes note of how many pairs an iteration starts from.
    pub fn begin(&mut self, pairs: usize)
        ensures
            final(self)@ == icp_begun(old(self)@, pairs as nat),
    {
        if self.outcome.is_none() && pairs < MIN_PAIRS {
            self.outcome = Some(false);
        }
    }

    /// Takes note of what an iteration did.
    pub fn finish(&mut self, step: IcpStep, params: &IcpParams)
        requires
            old(self).outcome is None ==> old(self).iterations < usize::MAX,
        ensures
            final(self)@ == icp_finished(old(self)@, step, *params),
    {
        if self.outcome.is_none() {
            self.iterations = self.iterations + 1;
            let small = at_most(params.rotation_threshold, step.cos_angle) && at_most(
                step.translation_squared,
                params.transformation_epsilon,
            );
            if self.iterations >= params.max_iterations || small || less(
                step.mse_change,
                params.mse_threshold_absolute,
            ) || less(step.mse_ratio, params.euclidean_fitness_epsilon) {
                self.outcome = Some(true);
            }
        }
    }
}

/// The state of a registration after a run of iterations, each with the number of its pairs and
/// what it did.
pub open spec fn icp_course(
    start: (nat, Option<bool>),
    steps: Seq<(nat, IcpStep)>,
    params: IcpParams,
) -> (nat, Option<bool>)
    decreases steps.len(),
{
    if steps.len() == 0 {
        start
    } else {
        icp_finished(
            icp_begun(icp_course(start, steps.drop_last(), params), steps.last().0),
            steps.last().1,
            params,
        )
    }
}

/// Whatever the iterations do, a registration ends within the allowed number of them, and once
/// it has ended it stays as it is.
pub proof fn lemma_registration_ends(
    source_len: nat,
    target_len: nat,
    steps: Seq<(nat, IcpStep)>,
    params: IcpParams,
)
    ensures
        ({
            let start = icp_start(source_len, target_len);
            let end = icp_course(start, steps, params);
            &&& steps.len() > 0 && steps.len() >= params.max_iterations ==> end.1 is Some
            &&& end.1 is None ==> end.0 == steps.len()
            &&& params.max_iterations > 0 ==> end.0 <= params.max_iterations
            &&& steps.len() > 0 && icp_course(start, steps.drop_last(), params).1 is Some ==> end
                == icp_course(start, steps.drop_last(), params)
        }),
    decreases steps.len(),
{
    if steps.len() > 0 {
        lemma_registration_ends(source_len, target_len, steps.drop_last(), params);
    }
}

// ---- the depth of a matrix product's panels ----

/// One answer of the CPUID instruction.
#[derive(Clone, Copy)]
pub struct CpuidLeaf {
    pub eax: u32,
    pub ebx: u32,
    pub ecx: u32,
    pub edx: u32,
}

/// What a processor says of itself: its vendor (leaf 0), the highest extended leaf (leaf
/// 0x80000000), the first-level caches of an AMD processor (leaf 0x80000005) and the caches one
/// by one (leaf 4).
pub struct Cpuid {
    pub vendor: CpuidLeaf,
    pub extended: CpuidLeaf,
    pub amd_caches: CpuidLeaf,
    pub caches: Vec<CpuidLeaf>,
}

/// Whether the vendor's name is `AuthenticAMD` or `AMDisbetter!`.
pub open spec fn is_amd(vendor: CpuidLeaf) -> bool {
    ||| vendor.ebx == 0x6874_7541 && vendor.edx == 0x6974_6e65 && vendor.ecx == 0x444d_4163
    ||| vendor.ebx == 0x6944_4d41 && vendor.edx == 0x7465_6273 && vendor.ecx == 0x2172_6574
}

/// The size that a leaf describes: ways, partitions, line length and sets, each stored less one.
pub open spec fn cache_bytes(leaf: CpuidLeaf) -> int {
    (leaf.ebx as int / 0x40_0000 + 1) * (leaf.ebx as int / 0x1000 % 0x400 + 1) * (leaf.ebx as int
        % 0x1000 + 1) * (leaf.ecx + 1)
}

/// Whether a leaf describes a data or unified cache of the first level.
pub open spec fn is_first_level(leaf: CpuidLeaf) -> bool {
    let sort = leaf.eax as int % 16;
    (sort == 1 || sort == 3) && leaf.eax as int / 32 % 8 == 1
}

/// The last first-level data cache among the leaves before the end of the list, which a leaf of
/// sort 0 marks; 0 where there is none.
pub open spec fn listed_l1(leaves: Seq<CpuidLeaf>) -> int
    decreases leaves.len(),
{
    if leaves.len() == 0 || leaves[0].eax as int % 16 == 0 {
        0
    } else {
        let rest = leaves.drop_first();
        if is_first_level(leaves[0]) && !has_first_level(rest) {
            cache_bytes(leaves[0])
        } else {
            listed_l1(rest)
        }
    }
}

/// Whether a first-level data cache stands before the end of the list.
pub open spec fn has_first_level(leaves: Seq<CpuidLeaf>) -> bool
    decreases leaves.len(),
{
    leaves.len() > 0 && leaves[0].eax as int % 16 != 0 && (is_first_level(leaves[0])
        || has_first_level(leaves.drop_first()))
}

/// The size of the first-level data cache in bytes, 0 where the processor does not say.
pub open spec fn l1_bytes(cpu: Cpuid) -> int {
    if is_amd(cpu.vendor) {
        if cpu.extended.eax >= 0x8000_0006 {
            (cpu.amd_caches.ecx as int / 0x100_0000) * 1024
        } else {
            0
        }
    } else if cpu.vendor.eax < 4 {
        0
    } else {
        listed_l1(cpu.caches@)
    }
}

/// Whether the sizes that the leaves describe can be counted.
pub open spec fn sizes_fit(leaves: Seq<CpuidLeaf>) -> bool {
    forall|i: int| 0 <= i < leaves.len() ==> cache_bytes(#[trigger] leaves[i]) <= i64::MAX
}

proof fn lemma_cache_bytes(ways: int, partitions: int, line: int, sets: int)
    requires
        1 <= ways <= 0x400,
        1 <= partitions <= 0x400,
        1 <= line <= 0x1000,
        1 <= sets <= 0x1_0000_0000,
    ensures
        1 <= ways * partitions <= 0x10_0000,
        1 <= ways * partitions * line <= 0x1_0000_0000,
        0 < ways * partitions * line * sets <= 0x1_0000_0000_0000_0000,
{
    assert(1 <= ways * partitions <= 0x10_0000) by (nonlinear_arith)
        requires
            1 <= ways <= 0x400,
            1 <= partitions <= 0x400,
    ;
    let a = ways * partitions;
    assert(1 <= a * line <= 0x1_0000_0000) by (nonlinear_arith)
        requires
            1 <= a <= 0x10_0000,
            1 <= line <= 0x1000,
    ;
    let b = a * line;
    assert(0 < b * sets <= 0x1_0000_0000_0000_0000) by (nonlinear_arith)
        requires
            1 <= b <= 0x1_0000_0000,
            1 <= sets <= 0x1_0000_0000,
    ;
}

fn bytes_of(leaf: &CpuidLeaf) -> (r: u128)
    ensures
        r == cache_bytes(*leaf),
{
    let ways: u128 = (leaf.ebx / 0x40_0000) as u128 + 1;
    let partitions: u128 = (leaf.ebx / 0x1000 % 0x400) as u128 + 1;
    let line: u128 = (leaf.ebx % 0x1000) as u128 + 1;
    let sets: u128 = leaf.ecx as u128 + 1;
    proof {
        lemma_cache_bytes(ways as int, partitions as int, line as int, sets as int);
    }
    ways * partitions * line * sets
}

/// Whether the sizes that the leaves describe can be counted.
pub fn cache_sizes_fit(leaves: &[CpuidLeaf]) -> (r: bool)
    ensures
        r == sizes_fit(leaves@),
{
    let mut i: usize = 0;
    while i < leaves.len()
        invariant
            i <= leaves.len(),
            forall|k: int| 0 <= k < i ==> cache_bytes(#[trigger] leaves@[k]) <= i64::MAX,
        decreases leaves.len() - i,
    {
        if bytes_of(&leaves[i]) > 0x7fff_ffff_ffff_ffff {
            assert(cache_bytes(leaves@[i as int]) > i64::MAX);
            return false;
        }
        i = i + 1;
    }
    true
}

proof fn lemma_none_listed(leaves: Seq<CpuidLeaf>)
    ensures
        !has_first_level(leaves) ==> listed_l1(leaves) == 0,
    decreases leaves.len(),
{
    if leaves.len() > 0 {
        lemma_none_listed(leaves.drop_first());
    }
}

/// The size of the first-level data cache in bytes, 0 where the processor does not say.
pub fn query_l1_cache_size(cpu: &Cpuid) -> (r: i64)
    requires
        sizes_fit(cpu.caches@),
    ensures
        r == l1_bytes(*cpu),
{
    let v = cpu.vendor;
    if (v.ebx == 0x6874_7541 && v.edx == 0x6974_6e65 && v.ecx == 0x444d_4163) || (v.ebx
        == 0x6944_4d41 && v.edx == 0x7465_6273 && v.ecx == 0x2172_6574) {
        if cpu.extended.eax >= 0x8000_0006 {
            return (cpu.amd_caches.ecx / 0x100_0000) as i64 * 1024;
        }
        return 0;
    }
    if v.eax < 4 {
        return 0;
    }
    let mut l1: i64 = 0;
    let mut i: usize = 0;
    assert(cpu.caches@.skip(0) =~= cpu.caches@);
    proof {
        lemma_none_listed(cpu.caches@);
    }
    while i < cpu.caches.len()
        invariant
            i <= cpu.caches@.len(),
            sizes_fit(cpu.caches@),
            !is_amd(cpu.vendor),
            cpu.vendor.eax >= 4,
            (if has_first_level(cpu.caches@.skip(i as int)) {
                listed_l1(cpu.caches@.skip(i as int))
            } else {
                l1 as int
            }) == listed_l1(cpu.caches@),
        decreases cpu.caches.len() - i,
    {
        let leaf = cpu.caches[i];
        let ghost here = cpu.caches@.skip(i as int);
        assert(here[0] == leaf);
        assert(here.drop_first() =~= cpu.caches@.skip(i + 1));
        let sort: u32 = leaf.eax % 16;
        if sort == 0 {
            return l1;
        }
        if (sort == 1 || sort == 3) && leaf.eax / 32 % 8 == 1 {
            assert(cache_bytes(cpu.caches@[i as int]) <= i64::MAX);
            l1 = bytes_of(&leaf) as i64;
        }
        i = i + 1;
    }
    l1
}

/// The first-level cache size assumed where the processor does not say.
pub const DEFAULT_L1_BYTES: usize = 32768;

/// The first-level cache size to work with.
pub fn eigen_l1_cache_size(queried: i64) -> (r: usize)
    requires
        queried <= usize::MAX,
    ensures
        r == (if queried > 0 {
            queried as int
        } else {
            DEFAULT_L1_BYTES as int
        }),
{
    if queried > 0 {
        queried as usize
    } else {
        DEFAULT_L1_BYTES
    }
}

/// The deepest panel that fits the cache: a multiple of 8 depths of 48 bytes each beside 128
/// bytes of results, at least 1.
pub open spec fn deepest_panel(l1: int) -> int {
    let fitting = (if l1 < 128 {
        0
    } else {
        l1 - 128
    }) / 48 / 8 * 8;
    if fitting < 1 {
        1
    } else {
        fitting
    }
}

/// The panel depth of a product: all of it where it is short or fits, else the deepest panel,
/// shortened in steps of 8 so that the panels come out even.
pub open spec fn panel_depth(depth: int, l1: int) -> int {
    let deepest = deepest_panel(l1);
    if depth < 48 || depth <= deepest {
        depth
    } else if depth % deepest == 0 {
        deepest
    } else {
        deepest - 8 * ((deepest - 1 - depth % deepest) / (8 * (depth / deepest + 1)))
    }
}

proof fn lemma_panel_shortening(depth: int, deepest: int)
    requires
        0 < depth,
        1 <= deepest,
        deepest == 1 || deepest % 8 == 0,
        depth % deepest != 0,
    ensures
        8 <= deepest,
        0 <= (deepest - 1 - depth % deepest) / (8 * (depth / deepest + 1)),
        8 * ((deepest - 1 - depth % deepest) / (8 * (depth / deepest + 1))) < deepest,
        8 * (depth / deepest + 1) <= depth + 8,
        0 <= depth / deepest,
{
    let r = depth % deepest;
    let q = depth / deepest;
    assert(deepest != 1) by {
        if deepest == 1 {
            assert(depth % 1 == 0);
        }
    }
    assert(0 <= r < deepest);
    assert(0 <= q && 8 * q <= depth) by (nonlinear_arith)
        requires
            0 < depth,
            8 <= deepest,
            q == depth / deepest,
    ;
    let top = deepest - 1 - r;
    let step = 8 * (q + 1);
    assert(0 <= top / step && step * (top / step) <= top) by (nonlinear_arith)
        requires
            0 <= top,
            8 <= step,
    ;
    let n = top / step;
    assert(8 * n <= step * n) by (nonlinear_arith)
        requires
            0 <= n,
            8 <= step,
    ;
}

/// The panel depth of a product of this depth on a processor with this first-level cache.
pub fn eigen_gemm_kc(depth: usize, l1: usize) -> (kc: usize)
    requires
        depth <= usize::MAX - 8,
    ensures
        kc == panel_depth(depth as int, l1 as int),
        0 < depth ==> 1 <= kc <= depth,
{
    if depth < 48 {
        return depth;
    }
    let room: usize = if l1 < 128 {
        0
    } else {
        l1 - 128
    };
    let fitting: usize = room / 48 / 8 * 8;
    let deepest: usize = if fitting < 1 {
        1
    } else {
        fitting
    };
    if depth > deepest {
        let rest: usize = depth % deepest;
        if rest == 0 {
            deepest
        } else {
            proof {
                lemma_panel_shortening(depth as int, deepest as int);
            }
            let shorter: usize = 8 * ((deepest - 1 - rest) / (8 * (depth / deepest + 1)));
            deepest - shorter
        }
    } else {
        depth
    }
}

/// The bounds of the panels: from 0 to `n`, each `kc` long but the last.
pub open spec fn panels(n: int, kc: int, from: int) -> Seq<(usize, usize)>
    decreases n - from,
{
    if from >= n || kc <= 0 {
        Seq::empty()
    } else if from + kc >= n {
        seq![(from as usize, n as usize)]
    } else {
        seq![(from as usize, (from + kc) as usize)] + panels(n, kc, from + kc)
    }
}

/// The bounds of the panels of a product: from 0 to `n`, each `kc` long but the last.
pub fn panel_bounds(n: usize, kc: usize) -> (out: Vec<(usize, usize)>)
    requires
        0 < kc,
    ensures
        out@ == panels(n as int, kc as int, 0),
{
    let mut out: Vec<(usize, usize)> = Vec::new();
    let mut from: usize = 0;
    while from < n
        invariant
            0 < kc,
            from <= n,
            out@ + panels(n as int, kc as int, from as int) == panels(n as int, kc as int, 0),
        decreases n - from,
    {
        let ghost before = out@;
        let ghost left = panels(n as int, kc as int, from as int);
        let to: usize = if n - from <= kc {
            n
        } else {
            from + kc
        };
        out.push((from, to));
        assert(before + left =~= out@ + panels(n as int, kc as int, to as int));
        from = to;
    }
    assert(panels(n as int, kc as int, from as int) =~= Seq::empty());
    assert(out@ + Seq::<(usize, usize)>::empty() =~= out@);
    out
}

/// The panels cover the depth without a gap and without overlap.
pub proof fn lemma_panels_cover(n: int, kc: int, from: int)
    requires
        0 < kc,
        0 <= from < n,
        n <= usize::MAX,
    ensures
        ({
            let all = panels(n, kc, from);
            &&& all.len() > 0
            &&& all[0].0 == from
            &&& all.last().1 == n
            &&& forall|i: int| 0 <= i < all.len() ==> (#[trigger] all[i]).0 < all[i].1
            &&& forall|i: int| 0 < i < all.len() ==> (#[trigger] all[i]).0 == all[i - 1].1
        }),
    decreases n - from,
{
    if from + kc < n {
        lemma_panels_cover(n, kc, from + kc);
        let rest = panels(n, kc, from + kc);
        let all = panels(n, kc, from);
        assert forall|i: int| 0 < i < all.len() implies (#[trigger] all[i]).0 == all[i - 1].1 by {
            assert(all[i] == rest[i - 1]);
            if i > 1 {
                assert(all[i - 1] == rest[i - 2]);
            }
        }
        assert(all.last() == rest.last());
    }
}

// ---- normals ----

/// The fewest neighbours from which a normal is estimated.
pub const MIN_NEIGHBORS: usize = 3;

/// How many neighbours a normal is estimated from.
pub const NORMAL_NEIGHBORS: usize = 10;

/// The fewest points, and the fewest usable normals, for which a cloud's shape is judged.
pub const MIN_NORMALS: usize = 20;

/// The positions below `n` whose normals are finite.
pub open spec fn usable(normals: Seq<[F32Bits; 3]>, n: nat) -> Seq<usize>
    decreases n,
{
    if n == 0 {
        Seq::empty()
    } else if is_finite_point(normals[n - 1]) {
        usable(normals, (n - 1) as nat).push((n - 1) as usize)
    } else {
        usable(normals, (n - 1) as nat)
    }
}

/// The normals from which a cloud's shape is judged, one normal per point handed in: the finite
/// ones, or none at all where there are too few.
pub fn usable_normals(normals: &[[F32Bits; 3]]) -> (out: Option<Vec<usize>>)
    ensures
        out is Some <==> usable(normals@, normals@.len()).len() >= MIN_NORMALS,
        out matches Some(kept) ==> kept@ == usable(normals@, normals@.len()),
{
    let mut kept: Vec<usize> = Vec::new();
    let mut n: usize = 0;
    while n < normals.len()
        invariant
            n <= normals.len(),
            kept@ == usable(normals@, n as nat),
        decreases normals.len() - n,
    {
        if finite_point(&normals[n]) {
            kept.push(n);
        }
        n = n + 1;
    }
    if kept.len() < MIN_NORMALS {
        None
    } else {
        Some(kept)
    }
}

// ---- what the results are, over all inputs ----

/// Of the neighbours found, those no further than the radius are kept, all of them and in their order.
pub proof fn lemma_neighbours_within_radius_are_kept(
    best: Seq<(usize, F32Bits)>,
    radius_squared: F32Bits,
)
    ensures
        within_radius(best, radius_squared) == best.filter(
            |e: (usize, F32Bits)| le32(e.1, radius_squared),
        ),
    decreases best.len(),
{
    reveal_with_fuel(Seq::filter, 1);
    if best.len() > 0 {
        lemma_neighbours_within_radius_are_kept(best.drop_last(), radius_squared);
    } else {
        assert(best =~= Seq::empty());
    }
}

/// A point is taken as the nearest only where it is strictly nearer than the one before.
pub proof fn lemma_nearer_point_replaces(
    best: (Option<usize>, F32Bits),
    point: usize,
    distance: F32Bits,
)
    ensures
        lt32(distance, best.1) ==> closer(best, point, distance) == (Some(point), distance),
        !lt32(distance, best.1) ==> closer(best, point, distance) == best,
{
}

/// A point enters the list of the nearest behind all that are as near as it and before all that are
/// further, and what no longer has room leaves at the end. A full list takes only what is strictly
/// nearer than its last.
pub proof fn lemma_neighbours_enter_behind_equals(
    best: Seq<(usize, F32Bits)>,
    k: nat,
    point: usize,
    distance: F32Bits,
)
    requires
        0 < k,
        best.len() <= k,
        !is_nan32(distance),
        forall|i: int| 0 <= i < best.len() ==> !is_nan32((#[trigger] best[i]).1),
        forall|i: int, j: int|
            0 <= i <= j < best.len() ==> le32((#[trigger] best[i]).1, (#[trigger] best[j]).1),
    ensures
        best.len() == k && le32(best.last().1, distance) ==> entered(best, k, point, distance)
            == best,
        best.len() < k || lt32(distance, best.last().1) ==> exists|p: int|
            0 <= p <= best.len() && (forall|i: int|
                0 <= i < p ==> le32((#[trigger] best[i]).1, distance)) && (forall|i: int|
                p <= i < best.len() ==> lt32(distance, (#[trigger] best[i]).1)) && entered(
                best,
                k,
                point,
                distance,
            ) == (if best.len() < k {
                #[trigger] best.insert(p, (point, distance))
            } else {
                best.insert(p, (point, distance)).drop_last()
            }),
{
    lemma_leading(best, distance);
    let p = leading(best, distance) as int;
    let longer = best.insert(p, (point, distance));
    assert(longer.len() == best.len() + 1);
    if best.len() == k {
        assert(longer.take(k as int) =~= longer.drop_last());
    }
    assert forall|i: int| p <= i < best.len() implies lt32(distance, (#[trigger] best[i]).1) by {
        assert(le32(best[p].1, best[i].1));
    }
}

proof fn lemma_leading(best: Seq<(usize, F32Bits)>, distance: F32Bits)
    ensures
        leading(best, distance) <= best.len(),
        forall|i: int| 0 <= i < leading(best, distance) ==> le32((#[trigger] best[i]).1, distance),
        leading(best, distance) < best.len() ==> !le32(
            best[leading(best, distance) as int].1,
            distance,
        ),
    decreases best.len(),
{
    if best.len() > 0 && le32(best[0].1, distance) {
        let rest = best.drop_first();
        lemma_leading(rest, distance);
        assert forall|i: int| 0 <= i < leading(best, distance) implies le32(
            (#[trigger] best[i]).1,
            distance,
        ) by {
            if i > 0 {
                assert(rest[i - 1] == best[i]);
            }
        }
    }
}

/// Cells come by height, those of one height by depth, those of one depth by width.
pub proof fn lemma_cells_come_by_height(
    cloud: Seq<[F32Bits; 3]>,
    cells: Seq<[i64; 3]>,
    groups: Seq<Vec<usize>>,
    g: int,
    h: int,
    i: int,
    j: int,
)
    requires
        fills_cells(cloud, cells, groups),
        0 <= g <= h < groups.len(),
        0 <= i < groups[g]@.len(),
        0 <= j < groups[h]@.len(),
    ensures
        ({
            let a = cells[groups[g]@[i] as int];
            let b = cells[groups[h]@[j] as int];
            &&& g == h ==> a@[0] == b@[0] && a@[1] == b@[1] && a@[2] == b@[2]
            &&& g < h ==> a@[2] < b@[2] || (a@[2] == b@[2] && (a@[1] < b@[1] || (a@[1] == b@[1]
                && a@[0] < b@[0])))
        }),
{
    let a = groups[g]@[i];
    let b = groups[h]@[j];
    assert(cell_rank(cells[a as int]) == cell_rank(cells[groups[g]@[0] as int]));
    assert(cell_rank(cells[b as int]) == cell_rank(cells[groups[h]@[0] as int]));
}

/// A point of the source is paired with the point found for it exactly where one was found and it is
/// not further than the limit; pairs come in the order of the source.
pub proof fn lemma_pairs_match_each_hit(
    hits: Seq<Option<(usize, F64Bits)>>,
    max_squared: F64Bits,
    n: nat,
)
    requires
        n <= hits.len() <= usize::MAX,
    ensures
        forall|source: usize, target: usize|
            #[trigger] pairs_within(hits, max_squared, n).contains((source, target)) <==> source < n
                && (hits[source as int] matches Some((found, distance)) && found == target && !lt(
                max_squared,
                distance,
            )),
        forall|a: int, b: int|
            0 <= a < b < pairs_within(hits, max_squared, n).len() ==> (#[trigger] pairs_within(
                hits,
                max_squared,
                n,
            )[a]).0 < (#[trigger] pairs_within(hits, max_squared, n)[b]).0,
    decreases n,
{
    let all = pairs_within(hits, max_squared, n);
    if n > 0 {
        let front = pairs_within(hits, max_squared, (n - 1) as nat);
        let last = (n - 1) as usize;
        lemma_pairs_match_each_hit(hits, max_squared, (n - 1) as nat);
        assert forall|a: int| 0 <= a < front.len() implies (#[trigger] front[a]).0 < last by {
            assert(front.contains((front[a].0, front[a].1)));
        }
        assert forall|source: usize, target: usize| #[trigger]
            all.contains((source, target)) <==> source < n && (hits[source as int] matches Some(
            (found, distance),
        ) && found == target && !lt(max_squared, distance)) by {
            assert(front.contains((source, target)) <==> source < last && (
            hits[source as int] matches Some((found, distance)) && found == target && !lt(
                max_squared,
                distance,
            )));
            if front.contains((source, target)) {
                let i = choose|i: int| 0 <= i < front.len() && front[i] == (source, target);
                assert(all[i] == (source, target));
            }
            if all.contains((source, target)) {
                let i = choose|i: int| 0 <= i < all.len() && all[i] == (source, target);
                if i < front.len() {
                    assert(front[i] == (source, target));
                }
            }
            if all.len() > front.len() {
                assert(all[front.len() as int].0 == last);
                assert(all.contains(all[front.len() as int]));
            }
        }
    }
}

/// A registration that goes on stops without a result where fewer than three pairs are left. It stops
/// with one after its last iteration, or where the step turned and moved the cloud no more than
/// allowed, or where the error changed less than either threshold; and it goes on otherwise.
pub proof fn lemma_registration_stops_when_still(
    iterations: nat,
    pairs: nat,
    step: IcpStep,
    params: IcpParams,
)
    ensures
        icp_begun((iterations, None), pairs) == (if pairs <= 2 {
            (iterations, Some(false))
        } else {
            (iterations, None::<bool>)
        }),
        ({
            let end = icp_finished((iterations, None), step, params);
            let still = !lt(step.cos_angle, params.rotation_threshold) && !lt(
                params.transformation_epsilon,
                step.translation_squared,
            );
            let known = !crate::ieee::is_nan(step.cos_angle) && !crate::ieee::is_nan(
                step.translation_squared,
            ) && !crate::ieee::is_nan(params.rotation_threshold) && !crate::ieee::is_nan(
                params.transformation_epsilon,
            );
            &&& end.0 == iterations + 1
            &&& end.1 != Some(false)
            &&& known ==> (end.1 is None <==> iterations + 1 < params.max_iterations && !still
                && !lt(step.mse_change, params.mse_threshold_absolute) && !lt(
                step.mse_ratio,
                params.euclidean_fitness_epsilon,
            ))
        }),
        forall|source_len: nat, target_len: nat| #[trigger]
            icp_start(source_len, target_len).1 == (if source_len == 0 || target_len == 0 {
                Some(false)
            } else {
                None
            }),
{
}

/// Every panel but the last is as deep as asked, and the last is no deeper.
pub proof fn lemma_panels_are_full(n: int, kc: int, from: int)
    requires
        0 < kc,
        0 <= from < n,
        n <= usize::MAX,
    ensures
        ({
            let all = panels(n, kc, from);
            &&& forall|i: int|
                0 <= i < all.len() - 1 ==> (#[trigger] all[i]).1 - all[i].0 == kc
            &&& 0 < all.last().1 - all.last().0 <= kc
        }),
    decreases n - from,
{
    if from + kc < n {
        lemma_panels_are_full(n, kc, from + kc);
        lemma_panels_cover(n, kc, from + kc);
        let rest = panels(n, kc, from + kc);
        let all = panels(n, kc, from);
        assert(all.last() == rest.last());
        assert forall|i: int| 0 <= i < all.len() - 1 implies (#[trigger] all[i]).1 - all[i].0
            == kc by {
            if i > 0 {
                assert(all[i] == rest[i - 1]);
            }
        }
    }
}

/// The deepest panel is the largest multiple of eight of which forty-eight bytes a row fit into the
/// cache beside the accumulators. A product deeper than that is cut into as few panels as the deepest
/// one allows, each as shallow as that number of panels allows in steps of eight.
pub proof fn lemma_panels_are_few_and_even(depth: int, l1: int)
    requires
        48 <= depth,
        512 <= l1,
    ensures
        ({
            let deepest = deepest_panel(l1);
            let kc = panel_depth(depth, l1);
            let fewest = depth / deepest + 1;
            &&& deepest % 8 == 0
            &&& 48 * deepest + 128 <= l1 < 48 * (deepest + 8) + 128
            &&& depth <= deepest ==> kc == depth
            &&& depth > deepest && depth % deepest == 0 ==> kc == deepest
            &&& depth > deepest && depth % deepest != 0 ==> kc % 8 == 0 && (kc - 8) * fewest <= depth
                < kc * fewest
        }),
{
    let deepest = deepest_panel(l1);
    let kc = panel_depth(depth, l1);
    assert(deepest == (l1 - 128) / 48 / 8 * 8);
    assert(deepest >= 8);
    if depth > deepest && depth % deepest != 0 {
        let q = depth / deepest;
        let r = depth % deepest;
        let step = 8 * (q + 1);
        let f = (deepest - 1 - r) / step;
        vstd::arithmetic::div_mod::lemma_fundamental_div_mod(depth, deepest);
        vstd::arithmetic::div_mod::lemma_div_pos_is_pos(depth, deepest);
        vstd::arithmetic::div_mod::lemma_fundamental_div_mod(deepest - 1 - r, step);
        vstd::arithmetic::div_mod::lemma_mod_bound(deepest - 1 - r, step);
        assert(0 <= deepest - 1 - r - step * f < step);
        assert(kc == deepest - 8 * f);
        assert(kc % 8 == 0);
        assert(deepest * (q + 1) == depth + deepest - r) by (nonlinear_arith)
            requires
                depth == deepest * q + r,
        ;
        assert(kc * (q + 1) == deepest * (q + 1) - step * f) by (nonlinear_arith)
            requires
                kc == deepest - 8 * f,
                step == 8 * (q + 1),
        ;
        assert((kc - 8) * (q + 1) == kc * (q + 1) - step) by (nonlinear_arith)
            requires
                step == 8 * (q + 1),
        ;
    }
}

/// The size of the first level is that of the last data or unified cache of the first level that is
/// listed before the end of the list: its ways, partitions, line and sets, each one more than noted.
pub proof fn lemma_first_level_is_the_last_listed(leaves: Seq<CpuidLeaf>, i: int)
    requires
        0 <= i < leaves.len(),
        forall|j: int| 0 <= j <= i ==> (#[trigger] leaves[j]).eax as int % 16 != 0,
        (leaves[i].eax as int % 16 == 1 || leaves[i].eax as int % 16 == 3) && leaves[i].eax as int
            / 32 % 8 == 1,
        i + 1 == leaves.len() || leaves[i + 1].eax as int % 16 == 0,
    ensures
        listed_l1(leaves) == (leaves[i].ebx as int / 0x40_0000 + 1) * (leaves[i].ebx as int / 0x1000
            % 0x400 + 1) * (leaves[i].ebx as int % 0x1000 + 1) * (leaves[i].ecx + 1),
    decreases leaves.len(),
{
    let rest = leaves.drop_first();
    if i > 0 {
        assert forall|j: int| 0 <= j <= i - 1 implies (#[trigger] rest[j]).eax as int % 16 != 0 by {
            assert(rest[j] == leaves[j + 1]);
        }
        assert(rest[i - 1] == leaves[i]);
        assert(i + 1 < leaves.len() ==> rest[i] == leaves[i + 1]);
        lemma_first_level_is_the_last_listed(rest, i - 1);
        lemma_lists_first_level(rest, i - 1);
        assert(leaves[0].eax as int % 16 != 0);
    } else {
        assert(leaves[0].eax as int % 16 != 0);
        if leaves.len() > 1 {
            assert(rest[0] == leaves[1]);
        }
    }
}

proof fn lemma_lists_first_level(leaves: Seq<CpuidLeaf>, i: int)
    requires
        0 <= i < leaves.len(),
        forall|j: int| 0 <= j <= i ==> (#[trigger] leaves[j]).eax as int % 16 != 0,
        is_first_level(leaves[i]),
    ensures
        has_first_level(leaves),
    decreases leaves.len(),
{
    assert(leaves[0].eax as int % 16 != 0);
    if i > 0 {
        let rest = leaves.drop_first();
        assert forall|j: int| 0 <= j <= i - 1 implies (#[trigger] rest[j]).eax as int % 16 != 0 by {
            assert(rest[j] == leaves[j + 1]);
        }
        assert(rest[i - 1] == leaves[i]);
        lemma_lists_first_level(rest, i - 1);
    }
}

/// A normal is used exactly where its three numbers are finite; those used come in their order.
pub proof fn lemma_finite_normals_are_used(normals: Seq<[F32Bits; 3]>, n: nat)
    requires
        n <= normals.len() <= usize::MAX,
    ensures
        forall|i: usize| #[trigger]
            usable(normals, n).contains(i) <==> i < n && is_finite32(normals[i as int]@[0])
                && is_finite32(normals[i as int]@[1]) && is_finite32(normals[i as int]@[2]),
        forall|a: int, b: int|
            0 <= a < b < usable(normals, n).len() ==> (#[trigger] usable(normals, n)[a]) < (
            #[trigger] usable(normals, n)[b]),
        MIN_NORMALS == 20,
    decreases n,
{
    let all = usable(normals, n);
    if n > 0 {
        let front = usable(normals, (n - 1) as nat);
        let last = (n - 1) as usize;
        lemma_finite_normals_are_used(normals, (n - 1) as nat);
        assert forall|a: int| 0 <= a < front.len() implies (#[trigger] front[a]) < last by {
            assert(front.contains(front[a]));
        }
        assert forall|i: usize| #[trigger]
            all.contains(i) <==> i < n && is_finite32(normals[i as int]@[0]) && is_finite32(
                normals[i as int]@[1],
            ) && is_finite32(normals[i as int]@[2]) by {
            assert(front.contains(i) <==> i < last && is_finite32(normals[i as int]@[0])
                && is_finite32(normals[i as int]@[1]) && is_finite32(normals[i as int]@[2]));
            if front.contains(i) {
                let k = choose|k: int| 0 <= k < front.len() && front[k] == i;
                assert(all[k] == i);
            }
            if all.contains(i) {
                let k = choose|k: int| 0 <= k < all.len() && all[k] == i;
                if k < front.len() {
                    assert(front[k] == i);
                }
            }
            if all.len() > front.len() {
                assert(all[front.len() as int] == last);
                assert(all.contains(all[front.len() as int]));
            }
        }
    }
}

/// Where the vendor's name is one of the two of the one maker, the size is that of the last number of
/// the list of kilobytes, if the list is that long; elsewhere it is what the leaves list, if there are
/// such leaves.
pub proof fn lemma_cache_size_is_by_vendor(cpu: Cpuid)
    ensures
        ({
            let name = (cpu.vendor.ebx, cpu.vendor.edx, cpu.vendor.ecx);
            let of_maker = name == (0x6874_7541u32, 0x6974_6e65u32, 0x444d_4163u32) || name == (
                0x6944_4d41u32,
                0x7465_6273u32,
                0x2172_6574u32,
            );
            &&& of_maker && cpu.extended.eax >= 0x8000_0006 ==> l1_bytes(cpu) == 1024 * (
            cpu.amd_caches.ecx as int / 0x100_0000)
            &&& of_maker && cpu.extended.eax < 0x8000_0006 ==> l1_bytes(cpu) == 0
            &&& !of_maker && cpu.vendor.eax >= 4 ==> l1_bytes(cpu) == listed_l1(cpu.caches@)
            &&& !of_maker && cpu.vendor.eax <= 3 ==> l1_bytes(cpu) == 0
        }),
{
}

/// Every finite point of a cloud is in one of the cells.
pub proof fn lemma_every_finite_point_is_in_a_cell(
    cloud: Seq<[F32Bits; 3]>,
    cells: Seq<[i64; 3]>,
    groups: Seq<Vec<usize>>,
    p: int,
)
    requires
        fills_cells(cloud, cells, groups),
        0 <= p < cloud.len(),
        is_finite32(cloud[p]@[0]) && is_finite32(cloud[p]@[1]) && is_finite32(cloud[p]@[2]),
    ensures
        exists|g: int, i: int|
            0 <= g < groups.len() && 0 <= i < groups[g]@.len() && (#[trigger] groups[g]@[i]) == p,
{
    assert(is_finite_point(cloud[p]));
    assert(is_grouped(groups, p));
}

} // verus!
