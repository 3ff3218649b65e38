//! Transform lookup over a whole recording: every edge of the transform tree is held with
//! all of its samples, a lookup takes from each edge the newest sample at or before the
//! query time, and frames that are not joined by one edge are joined by a breadth-first
//! search over the undirected frame graph.

use crate::ieee::{at_most, is_nan, le, nan, total_key, total_rank, F64Bits, SIGN64};
use crate::memory2::TfSample;
use crate::order::{lemma_stable_order_sorts, single_key, stable_order, stable_sort, SortKey};
use crate::text::{debug_text, join, joined, quoted, same, sort_texts, texts, texts_ascend};
use vstd::prelude::*;
use vstd::string::StringExecFns;

verus! {

/// A pose as position xyz and quaternion xyzw.
pub type Pose7 = [F64Bits; 7];

/// A pose with its time.
pub type Sample = (F64Bits, Pose7);

/// A directed edge by the names of its frames: parent, child.
pub type EdgeKey = (Seq<char>, Seq<char>);

// ---- samples of one edge ----

/// The newest sample at or before `ts`, where the samples stand in the order of time.
pub open spec fn newest_at(samples: Seq<Sample>, ts: F64Bits) -> Option<Pose7>
    decreases samples.len(),
{
    if samples.len() == 0 {
        None
    } else if le(samples.last().0, ts) {
        Some(samples.last().1)
    } else {
        newest_at(samples.drop_last(), ts)
    }
}

/// The samples with their times as sort keys.
pub open spec fn keyed_by_time(samples: Seq<Sample>) -> Seq<(SortKey, Sample)> {
    samples.map_values(|s: Sample| (single_key(total_rank(s.0)), s))
}

/// The samples in the order of time, samples of one time in the order they had.
pub open spec fn by_time(samples: Seq<Sample>) -> Seq<Sample> {
    stable_order(keyed_by_time(samples)).map_values(|e: (SortKey, Sample)| e.1)
}

/// The times never go back.
pub open spec fn in_time_order(samples: Seq<Sample>) -> bool {
    forall|i: int, j: int|
        0 <= i <= j < samples.len() ==> total_rank((#[trigger] samples[i]).0) <= total_rank(
            (#[trigger] samples[j]).0,
        )
}

proof fn lemma_newest_found(samples: Seq<Sample>, ts: F64Bits, i: int)
    requires
        -1 <= i < samples.len(),
        i >= 0 ==> le(samples[i].0, ts),
        forall|k: int| i < k < samples.len() ==> !le((#[trigger] samples[k]).0, ts),
    ensures
        newest_at(samples, ts) == if i >= 0 {
            Some(samples[i].1)
        } else {
            None
        },
    decreases samples.len(),
{
    if samples.len() > 0 && i < samples.len() - 1 {
        assert(!le(samples[samples.len() - 1].0, ts));
        lemma_newest_found(samples.drop_last(), ts, i);
    }
}

/// A lookup on one edge takes the newest sample at or before the query time, never a
/// later one, and finds one exactly when there is one.
pub proof fn lemma_newest_is_latest_past(samples: Seq<Sample>, ts: F64Bits)
    ensures
        match newest_at(samples, ts) {
            Some(pose) => exists|i: int|
                0 <= i < samples.len() && (#[trigger] samples[i]).1 == pose && le(samples[i].0, ts)
                    && forall|k: int| i < k < samples.len() ==> !le((#[trigger] samples[k]).0, ts),
            None => forall|k: int| 0 <= k < samples.len() ==> !le((#[trigger] samples[k]).0, ts),
        },
    decreases samples.len(),
{
    if samples.len() > 0 {
        let last = samples.len() - 1;
        if le(samples[last].0, ts) {
            assert(samples[last].1 == samples.last().1);
        } else {
            let front = samples.drop_last();
            lemma_newest_is_latest_past(front, ts);
            if newest_at(front, ts) is Some {
                let i = choose|i: int|
                    0 <= i < front.len() && (#[trigger] front[i]).1 == newest_at(front, ts)->0 && le(
                        front[i].0,
                        ts,
                    ) && forall|k: int| i < k < front.len() ==> !le((#[trigger] front[k]).0, ts);
                assert(samples[i] == front[i]);
                assert forall|k: int| i < k < samples.len() implies !le(
                    (#[trigger] samples[k]).0,
                    ts,
                ) by {
                    if k < last {
                        assert(samples[k] == front[k]);
                    }
                }
            } else {
                assert forall|k: int| 0 <= k < samples.len() implies !le(
                    (#[trigger] samples[k]).0,
                    ts,
                ) by {
                    if k < last {
                        assert(samples[k] == front[k]);
                    }
                }
            }
        }
    }
}

/// The newest sample at or before `ts`.
fn newest(samples: &[Sample], ts: F64Bits) -> (r: Option<Pose7>)
    requires
        in_time_order(samples@),
    ensures
        r == newest_at(samples@, ts),
{
    if nan(ts) {
        proof {
            lemma_newest_found(samples@, ts, -1);
        }
        return None;
    }
    let bound: i64 = if ts == SIGN64 {
        0
    } else {
        total_key(ts)
    };
    let mut lo: usize = 0;
    let mut hi: usize = samples.len();
    while lo < hi
        invariant
            lo <= hi <= samples.len(),
            in_time_order(samples@),
            forall|k: int| 0 <= k < lo ==> total_rank((#[trigger] samples@[k]).0) <= bound,
            forall|k: int|
                hi <= k < samples.len() ==> total_rank((#[trigger] samples@[k]).0) > bound,
        decreases hi - lo,
    {
        let mid: usize = lo + (hi - lo) / 2;
        if total_key(samples[mid].0) <= bound {
            lo = mid + 1;
        } else {
            hi = mid;
        }
    }
    if lo == 0 || nan(samples[lo - 1].0) {
        proof {
            assert forall|k: int| -1 < k < samples.len() implies !le(
                (#[trigger] samples@[k]).0,
                ts,
            ) by {
                if k < lo {
                    assert(total_rank(samples@[k].0) <= total_rank(samples@[lo - 1].0));
                }
            }
            lemma_newest_found(samples@, ts, -1);
        }
        return None;
    }
    proof {
        lemma_newest_found(samples@, ts, lo - 1);
    }
    Some(samples[lo - 1].1)
}

proof fn lemma_by_time_ordered(samples: Seq<Sample>)
    ensures
        in_time_order(by_time(samples)),
        by_time(samples).len() == samples.len(),
{
    let keyed = keyed_by_time(samples);
    let sorted = stable_order(keyed);
    lemma_stable_order_sorts(keyed);
    broadcast use vstd::seq_lib::group_to_multiset_ensures;

    assert forall|i: int| 0 <= i < sorted.len() implies (#[trigger] sorted[i]).0 == single_key(
        total_rank(sorted[i].1.0),
    ) by {
        assert(sorted.contains(sorted[i]));
        assert(sorted.to_multiset().count(sorted[i]) > 0);
        assert(keyed.contains(sorted[i]));
    }
    assert forall|i: int, j: int| 0 <= i <= j < by_time(samples).len() implies total_rank(
        (#[trigger] by_time(samples)[i]).0,
    ) <= total_rank((#[trigger] by_time(samples)[j]).0) by {
        assert(by_time(samples)[i] == sorted[i].1);
        assert(by_time(samples)[j] == sorted[j].1);
        assert(crate::order::key_le(sorted[i].0, sorted[j].0));
    }
}

/// The samples in the order of time.
fn sorted_by_time(samples: &[Sample]) -> (out: Vec<Sample>)
    ensures
        out@ == by_time(samples@),
        in_time_order(out@),
{
    let mut keyed: Vec<(SortKey, Sample)> = Vec::with_capacity(samples.len());
    let mut i: usize = 0;
    assert(keyed@ =~= keyed_by_time(samples@).take(0));
    while i < samples.len()
        invariant
            i <= samples.len(),
            keyed@ == keyed_by_time(samples@).take(i as int),
        decreases samples.len() - i,
    {
        let key = SortKey { first: total_key(samples[i].0), second: 0, third: 0 };
        keyed.push((key, samples[i]));
        i = i + 1;
        assert(keyed@ =~= keyed_by_time(samples@).take(i as int));
    }
    assert(keyed@ =~= keyed_by_time(samples@));
    let sorted = stable_sort(&keyed);
    let mut out: Vec<Sample> = Vec::with_capacity(sorted.len());
    let mut k: usize = 0;
    assert(out@ =~= by_time(samples@).take(0));
    while k < sorted.len()
        invariant
            k <= sorted.len(),
            sorted@ == stable_order(keyed_by_time(samples@)),
            out@ == by_time(samples@).take(k as int),
        decreases sorted.len() - k,
    {
        out.push(sorted[k].1);
        k = k + 1;
        assert(out@ =~= by_time(samples@).take(k as int));
    }
    assert(out@ =~= by_time(samples@));
    proof {
        lemma_by_time_ordered(samples@);
    }
    out
}

// ---- the tree ----

/// One edge with its samples.
#[derive(Debug)]
pub struct EdgeTrack {
    pub parent: String,
    pub child: String,
    pub samples: Vec<Sample>,
}

impl EdgeTrack {
    /// The names of the edge's frames.
    pub open spec fn key(&self) -> EdgeKey {
        (self.parent@, self.child@)
    }
}

/// No two tracks belong to one edge.
pub open spec fn distinct_keys(tracks: Seq<EdgeTrack>) -> bool {
    forall|i: int, j: int|
        0 <= i < j < tracks.len() ==> (#[trigger] tracks[i]).key() != (#[trigger] tracks[j]).key()
}

/// The track of the edge `key` is at `i`.
pub open spec fn track_at(tracks: Seq<EdgeTrack>, key: EdgeKey, i: int) -> bool {
    0 <= i < tracks.len() && tracks[i].key() == key
}

/// One of the tracks belongs to the edge `key`.
pub open spec fn has_track(tracks: Seq<EdgeTrack>, key: EdgeKey) -> bool {
    exists|i: int| track_at(tracks, key, i)
}

/// The samples of each edge.
pub open spec fn track_map(tracks: Seq<EdgeTrack>) -> Map<EdgeKey, Seq<Sample>> {
    Map::new(
        |key: EdgeKey| has_track(tracks, key),
        |key: EdgeKey| tracks[choose|i: int| track_at(tracks, key, i)].samples@,
    )
}

proof fn lemma_track_map(tracks: Seq<EdgeTrack>, i: int)
    requires
        distinct_keys(tracks),
        0 <= i < tracks.len(),
    ensures
        track_map(tracks).dom().contains(tracks[i].key()),
        track_map(tracks)[tracks[i].key()] == tracks[i].samples@,
{
    let key = tracks[i].key();
    assert(track_at(tracks, key, i));
    let k = choose|k: int| track_at(tracks, key, k);
    if k < i {
        assert(tracks[k].key() != tracks[i].key());
    } else if i < k {
        assert(tracks[i].key() != tracks[k].key());
    }
}

/// The edge that a sample belongs to.
pub open spec fn sample_key(sample: TfSample) -> EdgeKey {
    (sample.parent@, sample.child@)
}

/// A sample's pose with its time.
pub open spec fn timed_pose(sample: TfSample) -> Sample {
    let t = sample.translation;
    let q = sample.quaternion_xyzw;
    (sample.ts, [t[0], t[1], t[2], q[0], q[1], q[2], q[3]])
}

/// The poses of the edge `key`, in the order they came in.
pub open spec fn poses_of_edge(samples: Seq<TfSample>, key: EdgeKey) -> Seq<Sample>
    decreases samples.len(),
{
    if samples.len() == 0 {
        Seq::empty()
    } else {
        let front = poses_of_edge(samples.drop_last(), key);
        if sample_key(samples.last()) == key {
            front.push(timed_pose(samples.last()))
        } else {
            front
        }
    }
}

/// One of the samples belongs to the edge `key`.
pub open spec fn has_sample(samples: Seq<TfSample>, key: EdgeKey) -> bool {
    exists|i: int| 0 <= i < samples.len() && sample_key(#[trigger] samples[i]) == key
}

/// Each edge that occurs, with its samples in the order of time.
pub open spec fn recorded(samples: Seq<TfSample>) -> Map<EdgeKey, Seq<Sample>> {
    Map::new(
        |key: EdgeKey| has_sample(samples, key),
        |key: EdgeKey| by_time(poses_of_edge(samples, key)),
    )
}

/// The edge `key` is one whose flag is set.
pub open spec fn kept_edge(tracks: Seq<EdgeTrack>, flags: Seq<bool>, key: EdgeKey) -> bool {
    exists|i: int| #[trigger] track_at(tracks, key, i) && flags[i]
}

/// The tree in which the trajectory has taken the place of the edge `key`, and of the other
/// edges only those are left whose flag is set, each with the samples it had.
pub open spec fn overridden(
    tree: Map<EdgeKey, Seq<Sample>>,
    tracks: Seq<EdgeTrack>,
    flags: Seq<bool>,
    key: EdgeKey,
    trajectory: Seq<Sample>,
) -> Map<EdgeKey, Seq<Sample>> {
    Map::new(
        |k: EdgeKey| k == key || kept_edge(tracks, flags, k),
        |k: EdgeKey|
            if k == key {
                by_time(trajectory)
            } else {
                tree[k]
            },
    )
}

/// The tracks whose flag is set.
spec fn flagged(tracks: Seq<EdgeTrack>, flags: Seq<bool>) -> Seq<EdgeTrack>
    decreases tracks.len(),
{
    if tracks.len() == 0 || flags.len() != tracks.len() {
        Seq::empty()
    } else {
        let front = flagged(tracks.drop_last(), flags.drop_last());
        if flags.last() {
            front.push(tracks.last())
        } else {
            front
        }
    }
}

proof fn lemma_flagged(tracks: Seq<EdgeTrack>, flags: Seq<bool>)
    requires
        distinct_keys(tracks),
        flags.len() == tracks.len(),
        forall|i: int| 0 <= i < tracks.len() ==> in_time_order((#[trigger] tracks[i]).samples@),
    ensures
        distinct_keys(flagged(tracks, flags)),
        forall|i: int|
            0 <= i < flagged(tracks, flags).len() ==> in_time_order(
                (#[trigger] flagged(tracks, flags)[i]).samples@,
            ),
        forall|i: int|
            0 <= i < flagged(tracks, flags).len() ==> tracks.contains(
                #[trigger] flagged(tracks, flags)[i],
            ),
    decreases tracks.len(),
{
    if tracks.len() > 0 {
        let front = tracks.drop_last();
        assert forall|i: int| 0 <= i < front.len() implies in_time_order(
            (#[trigger] front[i]).samples@,
        ) by {
            assert(front[i] == tracks[i]);
        }
        assert forall|i: int, j: int| 0 <= i < j < front.len() implies (#[trigger] front[i]).key()
            != (#[trigger] front[j]).key() by {
            assert(front[i] == tracks[i] && front[j] == tracks[j]);
        }
        lemma_flagged(front, flags.drop_last());
        let inner = flagged(front, flags.drop_last());
        let out = flagged(tracks, flags);
        assert forall|i: int| 0 <= i < out.len() implies tracks.contains(#[trigger] out[i]) by {
            if i < inner.len() {
                assert(out[i] == inner[i]);
                let k = choose|k: int| 0 <= k < front.len() && front[k] == inner[i];
                assert(tracks[k] == out[i]);
            } else {
                assert(tracks[tracks.len() - 1] == out[i]);
            }
        }
        assert forall|i: int, j: int| 0 <= i < j < out.len() implies (#[trigger] out[i]).key() != (
        #[trigger] out[j]).key() by {
            assert(out[i] == inner[i]);
            if j == inner.len() {
                let k = choose|k: int| 0 <= k < front.len() && front[k] == inner[i];
                assert(tracks[k] == out[i]);
                assert(tracks[k].key() != tracks[tracks.len() - 1].key());
            } else {
                assert(out[j] == inner[j]);
            }
        }
        assert forall|i: int| 0 <= i < out.len() implies in_time_order(
            (#[trigger] out[i]).samples@,
        ) by {
            if i < inner.len() {
                assert(out[i] == inner[i]);
            } else {
                assert(tracks[tracks.len() - 1] == out[i]);
            }
        }
    }
}

proof fn lemma_flagged_of(tracks: Seq<EdgeTrack>, flags: Seq<bool>, key: EdgeKey)
    requires
        flags.len() == tracks.len(),
    ensures
        has_track(flagged(tracks, flags), key) <==> kept_edge(tracks, flags, key),
    decreases tracks.len(),
{
    let out = flagged(tracks, flags);
    if tracks.len() > 0 {
        let front = tracks.drop_last();
        let rest = flags.drop_last();
        lemma_flagged_of(front, rest, key);
        let inner = flagged(front, rest);
        let last = tracks.len() - 1;
        if has_track(out, key) {
            let i = choose|i: int| track_at(out, key, i);
            if i < inner.len() {
                assert(track_at(inner, key, i));
                let k = choose|k: int| #[trigger] track_at(front, key, k) && rest[k];
                assert(track_at(tracks, key, k) && flags[k]);
            } else {
                assert(track_at(tracks, key, last) && flags[last]);
            }
        }
        if kept_edge(tracks, flags, key) {
            let k = choose|k: int| #[trigger] track_at(tracks, key, k) && flags[k];
            if k < last {
                assert(track_at(front, key, k) && rest[k]);
                let i = choose|i: int| track_at(inner, key, i);
                assert(track_at(out, key, i));
            } else {
                assert(track_at(out, key, inner.len() as int));
            }
        }
    } else {
        assert(!has_track(out, key));
    }
}

proof fn lemma_overridden(
    tracks: Seq<EdgeTrack>,
    flags: Seq<bool>,
    key: EdgeKey,
    trajectory: Seq<Sample>,
)
    requires
        distinct_keys(tracks),
        flags.len() == tracks.len(),
        forall|i: int| 0 <= i < tracks.len() ==> in_time_order((#[trigger] tracks[i]).samples@),
    ensures
        track_map(flagged(tracks, flags)).insert(key, by_time(trajectory)) == overridden(
            track_map(tracks),
            tracks,
            flags,
            key,
            trajectory,
        ),
{
    let chosen = flagged(tracks, flags);
    let left = track_map(chosen).insert(key, by_time(trajectory));
    let right = overridden(track_map(tracks), tracks, flags, key, trajectory);
    lemma_flagged(tracks, flags);
    assert forall|k: EdgeKey| left.dom().contains(k) == right.dom().contains(k) by {
        lemma_flagged_of(tracks, flags, k);
    }
    assert forall|k: EdgeKey| left.dom().contains(k) implies left[k] == right[k] by {
        if k != key {
            let i = choose|i: int| track_at(chosen, k, i);
            lemma_track_map(chosen, i);
            let j = choose|j: int| 0 <= j < tracks.len() && tracks[j] == chosen[i];
            lemma_track_map(tracks, j);
        }
    }
    assert(left =~= right);
}

/// All edges of a recorded transform tree, each with its samples in the order of time.
pub struct RecordingTf {
    edges: Vec<EdgeTrack>,
}

impl RecordingTf {
    /// The tracks in the order in which they are held.
    pub closed spec fn tracks(&self) -> Seq<EdgeTrack> {
        self.edges@
    }

    /// The samples of each edge.
    pub open spec fn tree(&self) -> Map<EdgeKey, Seq<Sample>> {
        track_map(self.tracks())
    }

    #[verifier::type_invariant]
    spec fn wf(self) -> bool {
        &&& distinct_keys(self.edges@)
        &&& forall|i: int|
            0 <= i < self.edges@.len() ==> in_time_order((#[trigger] self.edges@[i]).samples@)
    }

    /// The tree of the samples: one edge for each pair of frames that occurs.
    pub fn from_samples(samples: &[TfSample]) -> (tf: RecordingTf)
        ensures
            tf.tree() == recorded(samples@),
    {
        let mut edges: Vec<EdgeTrack> = Vec::new();
        let mut n: usize = 0;
        while n < samples.len()
            invariant
                n <= samples.len(),
                distinct_keys(edges@),
                forall|i: int|
                    0 <= i < edges.len() ==> in_time_order((#[trigger] edges@[i]).samples@),
                forall|i: int|
                    0 <= i < edges.len() ==> has_sample(samples@, (#[trigger] edges@[i]).key())
                        && edges@[i].samples@ == by_time(
                        poses_of_edge(samples@, edges@[i].key()),
                    ),
                forall|k: int|
                    0 <= k < n ==> has_track(edges@, sample_key(#[trigger] samples@[k])),
            decreases samples.len() - n,
        {
            let ghost key = sample_key(samples@[n as int]);
            if find_track(&edges, &samples[n].parent, &samples[n].child).is_none() {
                let poses = collect_poses(samples, &samples[n].parent, &samples[n].child);
                let ghost before = edges@;
                edges.push(
                    EdgeTrack {
                        parent: samples[n].parent.clone(),
                        child: samples[n].child.clone(),
                        samples: sorted_by_time(&poses),
                    },
                );
                proof {
                    assert(edges@[edges.len() - 1].key() == key);
                    assert forall|i: int, j: int| 0 <= i < j < edges.len() implies (
                    #[trigger] edges@[i]).key() != (#[trigger] edges@[j]).key() by {
                        assert(edges@[i] == before[i]);
                        if j == before.len() {
                            assert(!track_at(before, key, i));
                        } else {
                            assert(edges@[j] == before[j]);
                        }
                    }
                    assert forall|k: int| 0 <= k < n implies has_track(
                        edges@,
                        sample_key(#[trigger] samples@[k]),
                    ) by {
                        let i = choose|i: int| track_at(before, sample_key(samples@[k]), i);
                        assert(track_at(edges@, sample_key(samples@[k]), i));
                    }
                    assert(track_at(edges@, key, edges.len() - 1));
                }
            }
            n = n + 1;
        }
        let tf = RecordingTf { edges };
        proof {
            assert forall|key: EdgeKey| tf.tree().dom().contains(key) == recorded(samples@).dom().contains(
                key,
            ) by {
                if has_track(edges@, key) {
                    let i = choose|i: int| track_at(edges@, key, i);
                    assert(has_sample(samples@, edges@[i].key()));
                }
                if has_sample(samples@, key) {
                    let k = choose|k: int|
                        0 <= k < samples.len() && sample_key(#[trigger] samples@[k]) == key;
                    assert(has_track(edges@, sample_key(samples@[k])));
                }
            }
            assert forall|key: EdgeKey| tf.tree().dom().contains(key) implies tf.tree()[key] == recorded(
                samples@,
            )[key] by {
                let i = choose|i: int| track_at(edges@, key, i);
                lemma_track_map(edges@, i);
                assert(edges@[i].samples@ == by_time(poses_of_edge(samples@, edges@[i].key())));
            }
            assert(tf.tree() =~= recorded(samples@));
        }
        tf
    }

    /// How many edges the tree has.
    pub fn edge_count(&self) -> (n: usize)
        ensures
            n == self.tracks().len(),
            distinct_keys(self.tracks()),
    {
        proof {
            use_type_invariant(self);
        }
        self.edges.len()
    }

    /// The `i`th edge.
    pub fn edge(&self, i: usize) -> (track: &EdgeTrack)
        requires
            i < self.tracks().len(),
        ensures
            *track == self.tracks()[i as int],
    {
        &self.edges[i]
    }

    /// Puts the trajectory in the place of the edge from `parent` to `child`, and drops
    /// every other edge whose flag in `is_static` is not set, so that the trajectory is
    /// the only thing that moves.
    pub fn override_edge(
        &mut self,
        parent: &str,
        child: &str,
        trajectory: &[Sample],
        is_static: &[bool],
    )
        requires
            is_static@.len() == old(self).tracks().len(),
        ensures
            final(self).tree() == overridden(
                old(self).tree(),
                old(self).tracks(),
                is_static@,
                (parent@, child@),
                trajectory@,
            ),
    {
        proof {
            use_type_invariant(&*self);
        }
        let ghost tracks = self.edges@;
        let ghost key: EdgeKey = (parent@, child@);
        let mut rest: Vec<EdgeTrack> = Vec::new();
        std::mem::swap(&mut self.edges, &mut rest);
        let parent_name = parent.to_owned();
        let child_name = child.to_owned();
        let mut kept: Vec<EdgeTrack> = Vec::new();
        let mut n: usize = 0;
        let ghost kept_all = flagged(tracks, is_static@);
        proof {
            lemma_flagged(tracks, is_static@);
            assert(tracks.take(0) =~= Seq::empty());
            assert(tracks.skip(0) =~= tracks);
        }
        while n < is_static.len()
            invariant
                n <= is_static.len(),
                is_static.len() == tracks.len(),
                rest@ == tracks.skip(n as int),
                key == (parent_name@, child_name@),
                without_edge(
                    flagged(tracks.take(n as int), is_static@.take(n as int)),
                    key,
                ) == kept@,
            decreases is_static.len() - n,
        {
            let track = rest.remove(0);
            proof {
                assert(track == tracks[n as int]);
                assert(rest@ =~= tracks.skip(n + 1));
                let front = tracks.take(n as int);
                let more = tracks.take(n + 1);
                assert(more.drop_last() =~= front);
                assert(is_static@.take(n + 1).drop_last() =~= is_static@.take(n as int));
                let chosen = flagged(front, is_static@.take(n as int));
                assert(chosen.push(track).drop_last() =~= chosen);
            }
            let same_edge = track.parent == parent_name && track.child == child_name;
            if is_static[n] && !same_edge {
                kept.push(track);
            }
            n = n + 1;
        }
        let ghost others = kept@;
        kept.push(
            EdgeTrack {
                parent: parent_name,
                child: child_name,
                samples: sorted_by_time(trajectory),
            },
        );
        proof {
            assert(tracks.take(n as int) =~= tracks);
            assert(is_static@.take(n as int) =~= is_static@);
            lemma_replace_track(kept_all, key, kept@[kept.len() - 1]);
            lemma_overridden(tracks, is_static@, key, trajectory@);
            assert(kept@ == without_edge(kept_all, key).push(kept@.last()));
        }
        self.edges = kept;
    }

    /// Whether the tree has an edge from `parent` to `child`.
    pub fn has_edge(&self, parent: &str, child: &str) -> (r: bool)
        ensures
            r == self.tree().dom().contains((parent@, child@)),
    {
        proof {
            use_type_invariant(self);
        }
        let found = find_track(&self.edges, &parent.to_owned(), &child.to_owned());
        found.is_some()
    }
}

/// The tracks of all edges but `key`.
spec fn without_edge(tracks: Seq<EdgeTrack>, key: EdgeKey) -> Seq<EdgeTrack>
    decreases tracks.len(),
{
    if tracks.len() == 0 {
        tracks
    } else {
        let front = without_edge(tracks.drop_last(), key);
        if tracks.last().key() == key {
            front
        } else {
            front.push(tracks.last())
        }
    }
}

proof fn lemma_without_edge(tracks: Seq<EdgeTrack>, key: EdgeKey)
    ensures
        forall|i: int|
            0 <= i < without_edge(tracks, key).len() ==> (#[trigger] without_edge(
                tracks,
                key,
            )[i]).key() != key && tracks.contains(without_edge(tracks, key)[i]),
        forall|i: int|
            0 <= i < tracks.len() && (#[trigger] tracks[i]).key() != key ==> without_edge(
                tracks,
                key,
            ).contains(tracks[i]),
        distinct_keys(tracks) ==> distinct_keys(without_edge(tracks, key)),
    decreases tracks.len(),
{
    let out = without_edge(tracks, key);
    if tracks.len() > 0 {
        let front = tracks.drop_last();
        lemma_without_edge(front, key);
        let inner = without_edge(front, key);
        assert forall|i: int| 0 <= i < out.len() implies (#[trigger] out[i]).key() != key
            && tracks.contains(out[i]) by {
            if i < inner.len() {
                assert(out[i] == inner[i]);
                assert(inner[i].key() != key);
                let k = choose|k: int| 0 <= k < front.len() && front[k] == inner[i];
                assert(tracks[k] == out[i]);
            } else {
                assert(tracks[tracks.len() - 1] == out[i]);
            }
        }
        assert forall|i: int|
            0 <= i < tracks.len() && (#[trigger] tracks[i]).key() != key implies out.contains(
            tracks[i],
        ) by {
            if i < front.len() {
                assert(front[i] == tracks[i]);
                let k = choose|k: int| 0 <= k < inner.len() && inner[k] == front[i];
                assert(out[k] == tracks[i]);
            } else {
                assert(out[out.len() - 1] == tracks[i]);
            }
        }
        if distinct_keys(tracks) {
            assert forall|i: int, j: int| 0 <= i < j < front.len() implies (
            #[trigger] front[i]).key() != (#[trigger] front[j]).key() by {
                assert(front[i] == tracks[i] && front[j] == tracks[j]);
            }
            assert forall|i: int, j: int| 0 <= i < j < out.len() implies (#[trigger] out[i]).key()
                != (#[trigger] out[j]).key() by {
                assert(out[i] == inner[i]);
                if j == inner.len() {
                    assert(front.contains(inner[i]));
                    let k = choose|k: int| 0 <= k < front.len() && front[k] == inner[i];
                    assert(tracks[k] == out[i]);
                    assert(tracks[k].key() != tracks[tracks.len() - 1].key());
                } else {
                    assert(out[j] == inner[j]);
                }
            }
        }
    }
}

proof fn lemma_replace_track(tracks: Seq<EdgeTrack>, key: EdgeKey, track: EdgeTrack)
    requires
        distinct_keys(tracks),
        track.key() == key,
    ensures
        ({
            let out = without_edge(tracks, key).push(track);
            &&& distinct_keys(out)
            &&& track_map(out) == track_map(tracks).insert(key, track.samples@)
            &&& forall|i: int|
                0 <= i < out.len() ==> out[i] == track || tracks.contains(#[trigger] out[i])
        }),
{
    let others = without_edge(tracks, key);
    let out = others.push(track);
    lemma_without_edge(tracks, key);
    assert forall|i: int, j: int| 0 <= i < j < out.len() implies (#[trigger] out[i]).key() != (
    #[trigger] out[j]).key() by {
        assert(out[i] == others[i]);
        if j < others.len() {
            assert(out[j] == others[j]);
        }
    }
    assert forall|i: int| 0 <= i < out.len() implies out[i] == track || tracks.contains(
        #[trigger] out[i],
    ) by {
        if i < others.len() {
            assert(out[i] == others[i]);
        }
    }
    let want = track_map(tracks).insert(key, track.samples@);
    assert forall|k: EdgeKey| track_map(out).dom().contains(k) == want.dom().contains(k) by {
        if has_track(out, k) {
            let i = choose|i: int| track_at(out, k, i);
            if i < others.len() {
                assert(others[i] == out[i]);
                let j = choose|j: int| 0 <= j < tracks.len() && tracks[j] == out[i];
                assert(track_at(tracks, k, j));
            }
        }
        if k == key {
            assert(track_at(out, k, others.len() as int));
        } else if has_track(tracks, k) {
            let i = choose|i: int| track_at(tracks, k, i);
            assert(others.contains(tracks[i]));
            let j = choose|j: int| 0 <= j < others.len() && others[j] == tracks[i];
            assert(track_at(out, k, j));
        }
    }
    assert forall|k: EdgeKey| track_map(out).dom().contains(k) implies track_map(out)[k]
        == want[k] by {
        let i = choose|i: int| track_at(out, k, i);
        lemma_track_map(out, i);
        if k == key {
            lemma_track_map(out, others.len() as int);
            assert(out[others.len() as int] == track);
        } else {
            assert(i < others.len());
            assert(others[i] == out[i]);
            let j = choose|j: int| 0 <= j < tracks.len() && tracks[j] == out[i];
            lemma_track_map(tracks, j);
        }
    }
    assert(track_map(out) =~= want);
}

/// Where the track of the edge from `parent` to `child` is.
fn find_track(edges: &Vec<EdgeTrack>, parent: &String, child: &String) -> (r: Option<usize>)
    ensures
        match r {
            Some(i) => track_at(edges@, (parent@, child@), i as int),
            None => !has_track(edges@, (parent@, child@)),
        },
{
    let mut i: usize = 0;
    while i < edges.len()
        invariant
            i <= edges.len(),
            forall|k: int| 0 <= k < i ==> !track_at(edges@, (parent@, child@), k),
        decreases edges.len() - i,
    {
        if edges[i].parent == *parent && edges[i].child == *child {
            return Some(i);
        }
        i = i + 1;
    }
    None
}

fn collect_poses(samples: &[TfSample], parent: &String, child: &String) -> (out: Vec<Sample>)
    ensures
        out@ == poses_of_edge(samples@, (parent@, child@)),
{
    let mut out: Vec<Sample> = Vec::new();
    let mut i: usize = 0;
    assert(samples@.take(0) =~= Seq::empty());
    while i < samples.len()
        invariant
            i <= samples.len(),
            out@ == poses_of_edge(samples@.take(i as int), (parent@, child@)),
        decreases samples.len() - i,
    {
        assert(samples@.take(i + 1).drop_last() =~= samples@.take(i as int));
        let sample = &samples[i];
        if sample.parent == *parent && sample.child == *child {
            let t = sample.translation;
            let q = sample.quaternion_xyzw;
            out.push((sample.ts, [t[0], t[1], t[2], q[0], q[1], q[2], q[3]]));
        }
        i = i + 1;
    }
    assert(samples@.take(i as int) =~= samples@);
    out
}

// ---- lookup ----

/// One step of a chain of frames: the pose of the edge that was taken, and whether it was
/// taken against its direction.
#[derive(Clone, Copy, Debug)]
pub struct TfStep {
    pub pose: Pose7,
    pub inverted: bool,
}

/// The newest pose of the edge at or before `ts`.
pub open spec fn latched(
    tree: Map<EdgeKey, Seq<Sample>>,
    parent: Seq<char>,
    child: Seq<char>,
    ts: F64Bits,
) -> Option<Pose7> {
    if tree.dom().contains((parent, child)) {
        newest_at(tree[(parent, child)], ts)
    } else {
        None
    }
}

/// The step from one frame to another by a single edge, along it where that is possible,
/// else against it.
pub open spec fn step_between(
    tree: Map<EdgeKey, Seq<Sample>>,
    from: Seq<char>,
    to: Seq<char>,
    ts: F64Bits,
) -> Option<TfStep> {
    match latched(tree, from, to, ts) {
        Some(pose) => Some(TfStep { pose, inverted: false }),
        None => match latched(tree, to, from, ts) {
            Some(pose) => Some(TfStep { pose, inverted: true }),
            None => None,
        },
    }
}

/// A single edge leads from one frame to the other at `ts`, along it or against it.
pub open spec fn linked(
    tree: Map<EdgeKey, Seq<Sample>>,
    ts: F64Bits,
    a: Seq<char>,
    b: Seq<char>,
) -> bool {
    step_between(tree, a, b, ts) is Some
}

/// `walk` goes from `parent` to `child`, at `ts`, each frame linked to the next.
pub open spec fn joins(
    tree: Map<EdgeKey, Seq<Sample>>,
    ts: F64Bits,
    parent: Seq<char>,
    child: Seq<char>,
    walk: Seq<Seq<char>>,
) -> bool {
    &&& walk.len() > 0
    &&& walk[0] == parent
    &&& walk.last() == child
    &&& forall|k: int| 0 <= k < walk.len() - 1 ==> linked(tree, ts, #[trigger] walk[k], walk[k + 1])
}

/// Some walk goes from `parent` to `child` at `ts`.
pub open spec fn joined_at(
    tree: Map<EdgeKey, Seq<Sample>>,
    parent: Seq<char>,
    child: Seq<char>,
    ts: F64Bits,
) -> bool {
    exists|walk: Seq<Seq<char>>| #[trigger] joins(tree, ts, parent, child, walk)
}

/// `frames` are the frames that the steps of `chain` lead through.
pub open spec fn leads_through(
    tree: Map<EdgeKey, Seq<Sample>>,
    ts: F64Bits,
    chain: Seq<TfStep>,
    frames: Seq<Seq<char>>,
) -> bool {
    frames.len() == chain.len() + 1 && forall|k: int|
        0 <= k < chain.len() ==> step_between(tree, #[trigger] frames[k], frames[k + 1], ts)
            == Some(chain[k])
}

/// The steps of `chain` lead from `parent` to `child` through `frames`.
pub open spec fn leads(
    tree: Map<EdgeKey, Seq<Sample>>,
    parent: Seq<char>,
    child: Seq<char>,
    ts: F64Bits,
    chain: Seq<TfStep>,
    frames: Seq<Seq<char>>,
) -> bool {
    leads_through(tree, ts, chain, frames) && frames[0] == parent && frames.last() == child
}

/// `chain` leads from `parent` to `child` at `ts`, by as few steps as any walk takes.
pub open spec fn resolves(
    tree: Map<EdgeKey, Seq<Sample>>,
    parent: Seq<char>,
    child: Seq<char>,
    ts: F64Bits,
    chain: Seq<TfStep>,
) -> bool {
    &&& exists|frames: Seq<Seq<char>>| #[trigger] leads(tree, parent, child, ts, chain, frames)
    &&& forall|walk: Seq<Seq<char>>| #[trigger]
        joins(tree, ts, parent, child, walk) ==> chain.len() < walk.len()
}

/// A frame as the search stepped to it: from which of the frames before it, and by which
/// step; none for the first.
#[derive(Debug)]
struct Visit {
    frame: String,
    from: usize,
    step: Option<TfStep>,
}

/// The search has stepped to the frame.
spec fn came_across(seen: Seq<Visit>, frame: Seq<char>) -> bool {
    exists|i: int| 0 <= i < seen.len() && (#[trigger] seen[i]).frame@ == frame
}

/// `seen` is a breadth-first search from `start`: no frame comes twice, and each but the
/// first comes from the first frame of the search that it is linked to.
spec fn is_search(
    tree: Map<EdgeKey, Seq<Sample>>,
    start: Seq<char>,
    ts: F64Bits,
    seen: Seq<Visit>,
) -> bool {
    &&& seen.len() > 0
    &&& seen[0].frame@ == start
    &&& forall|i: int, j: int|
        0 <= i < j < seen.len() ==> (#[trigger] seen[i]).frame@ != (#[trigger] seen[j]).frame@
    &&& forall|i: int|
        0 < i < seen.len() ==> (#[trigger] seen[i]).from < i && seen[i].step is Some
            && seen[i].step == step_between(
            tree,
            seen[seen[i].from as int].frame@,
            seen[i].frame@,
            ts,
        )
    &&& forall|i: int, j: int|
        0 < i < j < seen.len() ==> (#[trigger] seen[i]).from <= (#[trigger] seen[j]).from
    &&& forall|i: int, j: int|
        0 < i < seen.len() && 0 <= j < (#[trigger] seen[i]).from ==> !linked(
            tree,
            ts,
            (#[trigger] seen[j]).frame@,
            seen[i].frame@,
        )
}

/// The search has stepped to every frame that is linked to one of its first `n`.
spec fn explored(
    tree: Map<EdgeKey, Seq<Sample>>,
    ts: F64Bits,
    seen: Seq<Visit>,
    n: int,
) -> bool {
    forall|i: int, frame: Seq<char>|
        0 <= i < n && #[trigger] linked(tree, ts, seen[i].frame@, frame) ==> came_across(
            seen,
            frame,
        )
}

/// The steps by which the search came to its `i`th frame.
spec fn chain_to(seen: Seq<Visit>, i: int) -> Seq<TfStep>
    decreases i,
{
    if i <= 0 || seen[i].from >= i {
        Seq::empty()
    } else {
        chain_to(seen, seen[i].from as int).push(seen[i].step->0)
    }
}

/// A lookup that found no chain: the edges that were loaded, and what was asked for.
#[derive(Debug)]
pub struct TfLookupError {
    pub tree: Vec<String>,
    pub parent: String,
    pub child: String,
}

/// How an edge is shown.
pub open spec fn edge_text(key: EdgeKey) -> Seq<char> {
    key.0 + "->"@ + key.1
}

/// `names` shows every edge of the tree once, in lexicographic order.
pub open spec fn shows_tree(tree: Map<EdgeKey, Seq<Sample>>, names: Seq<Seq<char>>) -> bool {
    exists|keys: Seq<EdgeKey>|
        {
            &&& #[trigger] keys.no_duplicates()
            &&& keys.to_set() == tree.dom()
            &&& texts_ascend(names)
            &&& names.to_multiset() == keys.map_values(|k: EdgeKey| edge_text(k)).to_multiset()
        }
}

impl TfLookupError {
    /// What the error says, with the query time written as `timestamp`.
    pub open spec fn text(&self, timestamp: Seq<char>) -> Seq<char> {
        "tf lookup failed:\n  tree: "@ + (if self.tree@.len() == 0 {
            "<none>"@
        } else {
            joined(texts(self.tree@), ", "@)
        }) + "\n  timestamp: "@ + timestamp + "\n  failed query: "@ + debug_text(self.parent@)
            + " <- "@ + debug_text(self.child@)
    }

    /// What the error says, with the query time written as `timestamp`.
    pub fn message(&self, timestamp: &str) -> (out: String)
        ensures
            out@ == self.text(timestamp@),
    {
        let mut out = "tf lookup failed:\n  tree: ".to_owned();
        if self.tree.len() == 0 {
            out.append("<none>");
        } else {
            out.append(join(&self.tree, ", ").as_str());
        }
        out.append("\n  timestamp: ");
        out.append(timestamp);
        out.append("\n  failed query: ");
        out.append(quoted(self.parent.as_str()).as_str());
        out.append(" <- ");
        out.append(quoted(self.child.as_str()).as_str());
        out
    }
}

/// The frames that the tracks name.
spec fn endpoints(tracks: Seq<EdgeTrack>) -> Set<Seq<char>> {
    tracks.map_values(|t: EdgeTrack| t.parent@).to_set().union(
        tracks.map_values(|t: EdgeTrack| t.child@).to_set(),
    )
}

spec fn names_seen(seen: Seq<Visit>) -> Set<Seq<char>> {
    seen.map_values(|v: Visit| v.frame@).to_set()
}

/// A bound on how long the search can get.
spec fn budget(tracks: Seq<EdgeTrack>, seen: Seq<Visit>) -> nat {
    endpoints(tracks).difference(names_seen(seen)).len() + seen.len()
}

proof fn lemma_endpoint(tracks: Seq<EdgeTrack>, i: int)
    requires
        0 <= i < tracks.len(),
    ensures
        endpoints(tracks).contains(tracks[i].parent@),
        endpoints(tracks).contains(tracks[i].child@),
{
    let parents = tracks.map_values(|t: EdgeTrack| t.parent@);
    let children = tracks.map_values(|t: EdgeTrack| t.child@);
    assert(parents[i] == tracks[i].parent@);
    assert(parents.contains(tracks[i].parent@));
    assert(children[i] == tracks[i].child@);
    assert(children.contains(tracks[i].child@));
}

proof fn lemma_budget_kept(tracks: Seq<EdgeTrack>, seen: Seq<Visit>, visit: Visit)
    requires
        endpoints(tracks).contains(visit.frame@),
        !came_across(seen, visit.frame@),
    ensures
        budget(tracks, seen.push(visit)) == budget(tracks, seen),
{
    broadcast use vstd::seq_lib::group_seq_properties;

    let all = endpoints(tracks);
    let before = names_seen(seen);
    let after = names_seen(seen.push(visit));
    let names = seen.map_values(|v: Visit| v.frame@);
    assert(seen.push(visit).map_values(|v: Visit| v.frame@) =~= names.push(visit.frame@));
    assert(after =~= before.insert(visit.frame@));
    assert(!before.contains(visit.frame@)) by {
        if names.contains(visit.frame@) {
            let i = choose|i: int| 0 <= i < names.len() && names[i] == visit.frame@;
            assert(seen[i].frame@ == visit.frame@);
        }
    }
    assert(all.difference(after) =~= all.difference(before).remove(visit.frame@));
    assert(all.difference(before).contains(visit.frame@));
}

/// Whether the search has come across the frame.
fn already_seen(seen: &Vec<Visit>, frame: &String) -> (r: bool)
    ensures
        r == came_across(seen@, frame@),
{
    let mut i: usize = 0;
    while i < seen.len()
        invariant
            i <= seen.len(),
            forall|k: int| 0 <= k < i ==> (#[trigger] seen@[k]).frame@ != frame@,
        decreases seen.len() - i,
    {
        if seen[i].frame == *frame {
            return true;
        }
        i = i + 1;
    }
    false
}

fn collect_chain(seen: &Vec<Visit>, i: usize) -> (chain: Vec<TfStep>)
    requires
        i < seen.len(),
        forall|k: int|
            0 < k < seen.len() ==> (#[trigger] seen@[k]).from < k && seen@[k].step is Some,
    ensures
        chain@ == chain_to(seen@, i as int),
    decreases i,
{
    if i == 0 {
        return Vec::new();
    }
    let mut chain = collect_chain(seen, seen[i].from);
    if let Some(step) = seen[i].step {
        chain.push(step);
    }
    chain
}

impl RecordingTf {
    /// The newest pose of one edge at or before `ts`.
    fn latch(&self, parent: &String, child: &String, ts: F64Bits) -> (r: Option<Pose7>)
        ensures
            r == latched(self.tree(), parent@, child@, ts),
    {
        proof {
            use_type_invariant(self);
        }
        match find_track(&self.edges, parent, child) {
            None => None,
            Some(i) => {
                proof {
                    lemma_track_map(self.edges@, i as int);
                }
                newest(&self.edges[i].samples, ts)
            },
        }
    }

    /// The step from one frame to another by a single edge.
    fn step(&self, from: &String, to: &String, ts: F64Bits) -> (r: Option<TfStep>)
        ensures
            r == step_between(self.tree(), from@, to@, ts),
    {
        match self.latch(from, to, ts) {
            Some(pose) => Some(TfStep { pose, inverted: false }),
            None => match self.latch(to, from, ts) {
                Some(pose) => Some(TfStep { pose, inverted: true }),
                None => None,
            },
        }
    }

    /// Steps from the frame at `head` to the neighbor, where an edge leads there and the
    /// search has not come across it.
    fn note(&self, seen: &mut Vec<Visit>, head: usize, neighbor: &String, ts: F64Bits)
        requires
            head < old(seen)@.len(),
            is_search(self.tree(), old(seen)@[0].frame@, ts, old(seen)@),
            explored(self.tree(), ts, old(seen)@, head as int),
            forall|i: int| 0 < i < old(seen)@.len() ==> (#[trigger] old(seen)@[i]).from <= head,
            endpoints(self.tracks()).contains(neighbor@),
        ensures
            old(seen)@.len() <= final(seen)@.len(),
            final(seen)@.take(old(seen)@.len() as int) == old(seen)@,
            is_search(self.tree(), old(seen)@[0].frame@, ts, final(seen)@),
            forall|i: int| 0 < i < final(seen)@.len() ==> (#[trigger] final(seen)@[i]).from <= head,
            linked(self.tree(), ts, old(seen)@[head as int].frame@, neighbor@) ==> came_across(
                final(seen)@,
                neighbor@,
            ),
            forall|f: Seq<char>| #[trigger]
                came_across(old(seen)@, f) ==> came_across(final(seen)@, f),
            explored(self.tree(), ts, final(seen)@, head as int),
            budget(self.tracks(), final(seen)@) == budget(self.tracks(), old(seen)@),
    {
        let ghost before = seen@;
        assert(before.take(before.len() as int) =~= before);
        if already_seen(seen, neighbor) {
            return;
        }
        let step = self.step(&seen[head].frame, neighbor, ts);
        if step.is_none() {
            return;
        }
        let visit = Visit { frame: neighbor.clone(), from: head, step };
        proof {
            lemma_budget_kept(self.tracks(), before, visit);
        }
        seen.push(visit);
        proof {
            let after = seen@;
            assert(after.take(before.len() as int) =~= before);
            assert(after[before.len() as int].frame@ == neighbor@);
            lemma_explored_extends(self.tree(), ts, before, after, head as int);
            assert forall|f: Seq<char>| #[trigger] came_across(before, f) implies came_across(
                after,
                f,
            ) by {
                lemma_came_across_extends(before, after, f);
            }
            assert forall|i: int, j: int| 0 <= i < j < after.len() implies (
            #[trigger] after[i]).frame@ != (#[trigger] after[j]).frame@ by {
                assert(after[i] == before[i]);
                if j < before.len() {
                    assert(after[j] == before[j]);
                }
            }
            assert forall|i: int| 0 < i < after.len() implies (#[trigger] after[i]).from < i
                && after[i].step is Some && after[i].step == step_between(
                self.tree(),
                after[after[i].from as int].frame@,
                after[i].frame@,
                ts,
            ) by {
                if i < before.len() {
                    assert(after[i] == before[i]);
                    assert(after[after[i].from as int] == before[before[i].from as int]);
                } else {
                    assert(after[head as int] == before[head as int]);
                }
            }
            assert forall|i: int, j: int| 0 < i < j < after.len() implies (
            #[trigger] after[i]).from <= (#[trigger] after[j]).from by {
                assert(after[i] == before[i]);
                if j < before.len() {
                    assert(after[j] == before[j]);
                }
            }
            assert forall|i: int, j: int|
                0 < i < after.len() && 0 <= j < (#[trigger] after[i]).from implies !linked(
                self.tree(),
                ts,
                (#[trigger] after[j]).frame@,
                after[i].frame@,
            ) by {
                assert(after[j] == before[j]);
                if i < before.len() {
                    assert(after[i] == before[i]);
                } else if linked(self.tree(), ts, before[j].frame@, neighbor@) {
                    assert(came_across(before, neighbor@));
                }
            }
        }
    }

    /// Steps from the frame at `head` over the `n`th edge, where it is an edge of that frame.
    fn expand_edge(&self, seen: &mut Vec<Visit>, head: usize, n: usize, ts: F64Bits)
        requires
            n < self.tracks().len(),
            head < old(seen)@.len(),
            is_search(self.tree(), old(seen)@[0].frame@, ts, old(seen)@),
            explored(self.tree(), ts, old(seen)@, head as int),
            forall|i: int| 0 < i < old(seen)@.len() ==> (#[trigger] old(seen)@[i]).from <= head,
        ensures
            old(seen)@.len() <= final(seen)@.len(),
            final(seen)@.take(old(seen)@.len() as int) == old(seen)@,
            is_search(self.tree(), old(seen)@[0].frame@, ts, final(seen)@),
            forall|i: int| 0 < i < final(seen)@.len() ==> (#[trigger] final(seen)@[i]).from <= head,
            forall|f: Seq<char>|
                (self.tracks()[n as int].key() == (old(seen)@[head as int].frame@, f)
                    || self.tracks()[n as int].key() == (f, old(seen)@[head as int].frame@))
                    && #[trigger] linked(self.tree(), ts, old(seen)@[head as int].frame@, f)
                    ==> came_across(final(seen)@, f),
            forall|f: Seq<char>| #[trigger]
                came_across(old(seen)@, f) ==> came_across(final(seen)@, f),
            explored(self.tree(), ts, final(seen)@, head as int),
            budget(self.tracks(), final(seen)@) == budget(self.tracks(), old(seen)@),
    {
        proof {
            use_type_invariant(self);
            lemma_track_map(self.edges@, n as int);
            lemma_endpoint(self.edges@, n as int);
        }
        let ghost before = seen@;
        assert(before.take(before.len() as int) =~= before);
        if self.edges[n].parent == seen[head].frame {
            self.note(seen, head, &self.edges[n].child, ts);
            proof {
                lemma_explored_extends(self.tree(), ts, before, seen@, head as int);
                assert(seen@[head as int] == before[head as int]);
                assert(seen@[0] == before[0]);
            }
        }
        let ghost middle = seen@;
        if self.edges[n].child == seen[head].frame {
            self.note(seen, head, &self.edges[n].parent, ts);
            assert(seen@.take(before.len() as int) =~= middle.take(before.len() as int));
        }
    }

    /// Steps from the frame at `head` to every neighbor that an edge leads to.
    fn expand(&self, seen: &mut Vec<Visit>, head: usize, ts: F64Bits)
        requires
            head < old(seen)@.len(),
            is_search(self.tree(), old(seen)@[0].frame@, ts, old(seen)@),
            explored(self.tree(), ts, old(seen)@, head as int),
            forall|i: int| 0 < i < old(seen)@.len() ==> (#[trigger] old(seen)@[i]).from <= head,
        ensures
            old(seen)@.len() <= final(seen)@.len(),
            final(seen)@.take(old(seen)@.len() as int) == old(seen)@,
            is_search(self.tree(), old(seen)@[0].frame@, ts, final(seen)@),
            forall|i: int| 0 < i < final(seen)@.len() ==> (#[trigger] final(seen)@[i]).from <= head,
            explored(self.tree(), ts, final(seen)@, head + 1),
            budget(self.tracks(), final(seen)@) == budget(self.tracks(), old(seen)@),
    {
        let ghost before = seen@;
        let ghost tracks = self.tracks();
        let ghost center = before[head as int].frame@;
        let mut n: usize = 0;
        assert(before.take(before.len() as int) =~= before);
        while n < self.edges.len()
            invariant
                n <= self.edges.len(),
                tracks == self.edges@,
                tracks == self.tracks(),
                head < before.len(),
                before.len() <= seen@.len(),
                seen@.take(before.len() as int) == before,
                center == before[head as int].frame@,
                is_search(self.tree(), before[0].frame@, ts, seen@),
                explored(self.tree(), ts, seen@, head as int),
                seen@[head as int].frame@ == center,
                seen@[0].frame@ == before[0].frame@,
                forall|i: int| 0 < i < seen@.len() ==> (#[trigger] seen@[i]).from <= head,
                budget(tracks, seen@) == budget(tracks, before),
                forall|k: int, f: Seq<char>|
                    0 <= k < n && ((#[trigger] tracks[k]).key() == (center, f) || tracks[k].key()
                        == (f, center)) && #[trigger] linked(self.tree(), ts, center, f) ==> came_across(
                        seen@,
                        f,
                    ),
            decreases self.edges.len() - n,
        {
            let ghost earlier = seen@;
            self.expand_edge(seen, head, n, ts);
            proof {
                lemma_explored_extends(self.tree(), ts, earlier, seen@, head as int);
                assert(seen@.take(before.len() as int) =~= earlier.take(before.len() as int));
                assert(seen@[head as int] == earlier[head as int]);
                assert(seen@[0] == earlier[0]);
                assert forall|k: int, f: Seq<char>|
                    0 <= k < n + 1 && ((#[trigger] tracks[k]).key() == (center, f)
                        || tracks[k].key() == (f, center)) && #[trigger] linked(
                        self.tree(),
                        ts,
                        center,
                        f,
                    ) implies came_across(seen@, f) by {
                    if k < n {
                        assert(came_across(earlier, f));
                    }
                }
            }
            n = n + 1;
        }
        proof {
            assert forall|i: int, f: Seq<char>|
                0 <= i < head + 1 && #[trigger] linked(
                    self.tree(),
                    ts,
                    seen@[i].frame@,
                    f,
                ) implies came_across(seen@, f) by {
                if i == head {
                    if self.tree().dom().contains((center, f)) {
                        let k = choose|k: int| track_at(tracks, (center, f), k);
                        assert(tracks[k].key() == (center, f));
                    } else {
                        let k = choose|k: int| track_at(tracks, (f, center), k);
                        assert(tracks[k].key() == (f, center));
                    }
                }
            }
        }
    }

    /// The edges of the tree as texts, in lexicographic order.
    fn tree_texts(&self) -> (out: Vec<String>)
        ensures
            shows_tree(self.tree(), texts(out@)),
            out@.len() == 0 <==> self.tracks().len() == 0,
    {
        proof {
            use_type_invariant(self);
        }
        let ghost keys = self.edges@.map_values(|t: EdgeTrack| t.key());
        let mut names: Vec<String> = Vec::new();
        let mut i: usize = 0;
        while i < self.edges.len()
            invariant
                i <= self.edges.len(),
                keys == self.edges@.map_values(|t: EdgeTrack| t.key()),
                names.len() == i,
                forall|k: int| 0 <= k < i ==> (#[trigger] names@[k])@ == edge_text(keys[k]),
            decreases self.edges.len() - i,
        {
            let mut name = self.edges[i].parent.clone();
            name.append("->");
            name.append(self.edges[i].child.as_str());
            names.push(name);
            i = i + 1;
        }
        let out = sort_texts(&names);
        proof {
            let shown = keys.map_values(|k: EdgeKey| edge_text(k));
            assert(texts(names@) =~= shown);
            assert(keys.no_duplicates()) by {
                assert forall|a: int, b: int|
                    0 <= a < keys.len() && 0 <= b < keys.len() && a != b implies keys[a]
                    != keys[b] by {
                    if a < b {
                        assert(self.edges@[a].key() != self.edges@[b].key());
                    } else {
                        assert(self.edges@[b].key() != self.edges@[a].key());
                    }
                }
            }
            assert(keys.to_set() =~= self.tree().dom()) by {
                assert forall|k: EdgeKey| keys.to_set().contains(k) == self.tree().dom().contains(k) by {
                    if keys.contains(k) {
                        let a = choose|a: int| 0 <= a < keys.len() && keys[a] == k;
                        assert(track_at(self.edges@, k, a));
                    }
                    if has_track(self.edges@, k) {
                        let a = choose|a: int| track_at(self.edges@, k, a);
                        assert(keys[a] == k);
                    }
                }
            }
            broadcast use vstd::seq_lib::group_to_multiset_ensures;

            assert(texts(out@).to_multiset().len() == texts(out@).len());
            assert(texts(names@).to_multiset().len() == texts(names@).len());
        }
        out
    }

    /// The chain of steps that leads from `parent` to `child` at `ts`. A chain that cannot
    /// be resolved is an error.
    ///
    /// Each step takes the newest sample at or before `ts`. Frames that no single edge
    /// joins are joined by a breadth-first search over the edges that have such a sample.
    pub fn get(&self, parent: &str, child: &str, ts: F64Bits) -> (r: Result<
        Vec<TfStep>,
        TfLookupError,
    >)
        ensures
            r is Ok <==> joined_at(self.tree(), parent@, child@, ts),
            match r {
                Ok(chain) => resolves(self.tree(), parent@, child@, ts, chain@),
                Err(e) => {
                    &&& shows_tree(self.tree(), texts(e.tree@))
                    &&& e.parent@ == parent@
                    &&& e.child@ == child@
                },
            },
    {
        proof {
            use_type_invariant(self);
        }
        if same(parent, child) {
            proof {
                lemma_leads_resolves(self.tree(), parent@, child@, ts, Seq::empty(), seq![parent@]);
            }
            return Ok(Vec::new());
        }
        let start = parent.to_owned();
        let goal = child.to_owned();
        if let Some(step) = self.step(&start, &goal, ts) {
            let mut chain: Vec<TfStep> = Vec::new();
            chain.push(step);
            proof {
                lemma_leads_resolves(self.tree(), parent@, child@, ts, chain@, seq![parent@, child@]);
            }
            return Ok(chain);
        }
        let mut seen: Vec<Visit> = Vec::new();
        seen.push(Visit { frame: parent.to_owned(), from: 0, step: None });
        let mut head: usize = 0;
        while head < seen.len()
            invariant
                head <= seen.len(),
                parent@ != child@,
                goal@ == child@,
                start@ == parent@,
                is_search(self.tree(), parent@, ts, seen@),
                explored(self.tree(), ts, seen@, head as int),
                forall|i: int| 0 < i < seen@.len() ==> (#[trigger] seen@[i]).from < head || head == 0,
                head == 0 ==> seen@.len() == 1,
                forall|i: int| 0 <= i < head ==> (#[trigger] seen@[i]).frame@ != child@,
                head <= budget(self.tracks(), seen@),
                seen@.len() <= budget(self.tracks(), seen@),
            decreases budget(self.tracks(), seen@) - head,
        {
            if seen[head].frame == goal {
                let chain = collect_chain(&seen, head);
                proof {
                    lemma_found(self.tree(), parent@, child@, ts, seen@, head as int);
                }
                return Ok(chain);
            }
            let ghost before = seen@;
            self.expand(&mut seen, head, ts);
            proof {
                assert forall|i: int| 0 <= i < head + 1 implies (
                #[trigger] seen@[i]).frame@ != child@ by {
                    assert(seen@.take(before.len() as int)[i] == before[i]);
                }
            }
            head = head + 1;
        }
        proof {
            if joined_at(self.tree(), parent@, child@, ts) {
                let walk = choose|walk: Seq<Seq<char>>| #[trigger]
                    joins(self.tree(), ts, parent@, child@, walk);
                lemma_walk_seen(
                    self.tree(),
                    ts,
                    parent@,
                    child@,
                    walk,
                    seen@,
                    seen@.len() as int,
                    walk.len() - 1,
                );
            }
        }
        Err(TfLookupError { tree: self.tree_texts(), parent: start, child: goal })
    }

    /// The names of all frames, each once.
    pub fn frames(&self) -> (names: Vec<String>)
        ensures
            texts(names@).no_duplicates(),
            forall|frame: Seq<char>|
                texts(names@).contains(frame) <==> exists|key: EdgeKey| #[trigger]
                    self.tree().dom().contains(key) && (key.0 == frame || key.1 == frame),
    {
        proof {
            use_type_invariant(self);
        }
        let ghost tracks = self.edges@;
        let mut names: Vec<String> = Vec::new();
        let mut n: usize = 0;
        while n < self.edges.len()
            invariant
                n <= self.edges.len(),
                tracks == self.edges@,
                texts(names@).no_duplicates(),
                forall|k: int|
                    0 <= k < n ==> texts(names@).contains((#[trigger] tracks[k]).parent@) && texts(
                        names@,
                    ).contains(tracks[k].child@),
                forall|f: Seq<char>|
                    #[trigger] texts(names@).contains(f) ==> exists|k: int|
                        0 <= k < n && ((#[trigger] tracks[k]).parent@ == f || tracks[k].child@ == f),
            decreases self.edges.len() - n,
        {
            let ghost before = texts(names@);
            add_name(&mut names, &self.edges[n].parent);
            let ghost middle = texts(names@);
            add_name(&mut names, &self.edges[n].child);
            proof {
                assert forall|f: Seq<char>| #[trigger] texts(names@).contains(f) implies exists|k: int|
                    0 <= k < n + 1 && ((#[trigger] tracks[k]).parent@ == f || tracks[k].child@
                        == f) by {
                    if before.contains(f) {
                        let k = choose|k: int|
                            0 <= k < n && ((#[trigger] tracks[k]).parent@ == f || tracks[k].child@
                                == f);
                        assert(tracks[k].parent@ == f || tracks[k].child@ == f);
                    } else {
                        assert(tracks[n as int].parent@ == f || tracks[n as int].child@ == f);
                    }
                }
                assert forall|k: int| 0 <= k < n + 1 implies texts(names@).contains(
                    (#[trigger] tracks[k]).parent@,
                ) && texts(names@).contains(tracks[k].child@) by {
                    if k < n {
                        assert(before.contains(tracks[k].parent@));
                        assert(before.contains(tracks[k].child@));
                        assert(middle.contains(tracks[k].parent@));
                        assert(middle.contains(tracks[k].child@));
                    } else {
                        assert(middle.contains(tracks[k].parent@));
                    }
                }
            }
            n = n + 1;
        }
        proof {
            assert forall|frame: Seq<char>| texts(names@).contains(frame) <==> exists|key: EdgeKey|
                #[trigger]
                self.tree().dom().contains(key) && (key.0 == frame || key.1 == frame) by {
                if texts(names@).contains(frame) {
                    let k = choose|k: int|
                        0 <= k < tracks.len() && ((#[trigger] tracks[k]).parent@ == frame
                            || tracks[k].child@ == frame);
                    lemma_track_map(tracks, k);
                    assert(self.tree().dom().contains(tracks[k].key()));
                }
                if exists|key: EdgeKey| #[trigger]
                    self.tree().dom().contains(key) && (key.0 == frame || key.1 == frame) {
                    let key = choose|key: EdgeKey| #[trigger]
                        self.tree().dom().contains(key) && (key.0 == frame || key.1 == frame);
                    let k = choose|k: int| track_at(tracks, key, k);
                    assert(texts(names@).contains(tracks[k].parent@));
                }
            }
        }
        names
    }
}

/// Adds the name where it is not there yet.
fn add_name(names: &mut Vec<String>, name: &String)
    requires
        texts(old(names)@).no_duplicates(),
    ensures
        texts(final(names)@).no_duplicates(),
        forall|f: Seq<char>| #[trigger]
            texts(final(names)@).contains(f) <==> texts(old(names)@).contains(f) || f == name@,
{
    let ghost before = texts(names@);
    let mut i: usize = 0;
    while i < names.len()
        invariant
            i <= names.len(),
            before == texts(names@),
            names@ == old(names)@,
            before.no_duplicates(),
            forall|k: int| 0 <= k < i ==> before[k] != name@,
        decreases names.len() - i,
    {
        if names[i] == *name {
            assert(before[i as int] == name@);
            return;
        }
        i = i + 1;
    }
    names.push(name.clone());
    proof {
        let after = texts(names@);
        assert(after =~= before.push(name@));
        assert forall|f: Seq<char>| #[trigger] after.contains(f) <==> before.contains(f) || f
            == name@ by {
            if before.contains(f) {
                let k = choose|k: int| 0 <= k < before.len() && before[k] == f;
                assert(after[k] == f);
            }
            if f == name@ {
                assert(after[before.len() as int] == f);
            }
        }
    }
}

proof fn lemma_came_across_extends(before: Seq<Visit>, after: Seq<Visit>, frame: Seq<char>)
    requires
        before.len() <= after.len(),
        after.take(before.len() as int) == before,
        came_across(before, frame),
    ensures
        came_across(after, frame),
{
    let i = choose|i: int| 0 <= i < before.len() && (#[trigger] before[i]).frame@ == frame;
    assert(after[i] == after.take(before.len() as int)[i]);
}

proof fn lemma_explored_extends(
    tree: Map<EdgeKey, Seq<Sample>>,
    ts: F64Bits,
    before: Seq<Visit>,
    after: Seq<Visit>,
    n: int,
)
    requires
        0 <= n <= before.len() <= after.len(),
        after.take(before.len() as int) == before,
        explored(tree, ts, before, n),
    ensures
        explored(tree, ts, after, n),
        forall|i: int| 0 <= i < before.len() ==> #[trigger] after[i] == before[i],
{
    assert forall|i: int| 0 <= i < before.len() implies #[trigger] after[i] == before[i] by {
        assert(after[i] == after.take(before.len() as int)[i]);
    }
    assert forall|i: int, f: Seq<char>|
        0 <= i < n && #[trigger] linked(tree, ts, after[i].frame@, f) implies came_across(
        after,
        f,
    ) by {
        assert(after[i] == before[i]);
        assert(linked(tree, ts, before[i].frame@, f));
        lemma_came_across_extends(before, after, f);
    }
}

/// A search comes to its frames by chains that never get shorter.
proof fn lemma_chains_grow(
    tree: Map<EdgeKey, Seq<Sample>>,
    start: Seq<char>,
    ts: F64Bits,
    seen: Seq<Visit>,
    i: int,
    j: int,
)
    requires
        is_search(tree, start, ts, seen),
        0 <= i <= j < seen.len(),
    ensures
        chain_to(seen, i).len() <= chain_to(seen, j).len(),
    decreases j,
{
    if 0 < i < j {
        assert(seen[i].from < i && seen[j].from < j);
        assert(seen[i].from <= seen[j].from);
        lemma_chains_grow(tree, start, ts, seen, seen[i].from as int, seen[j].from as int);
    }
}

/// A search whose first `n` frames are explored has come to the `k`th frame of a walk by at
/// most `k` steps, or needs at most `k` steps to its frame at `n`.
proof fn lemma_walk_seen(
    tree: Map<EdgeKey, Seq<Sample>>,
    ts: F64Bits,
    parent: Seq<char>,
    child: Seq<char>,
    walk: Seq<Seq<char>>,
    seen: Seq<Visit>,
    n: int,
    k: int,
)
    requires
        joins(tree, ts, parent, child, walk),
        is_search(tree, parent, ts, seen),
        0 <= n <= seen.len(),
        explored(tree, ts, seen, n),
        0 <= k < walk.len(),
    ensures
        (exists|i: int|
            0 <= i < seen.len() && (#[trigger] seen[i]).frame@ == walk[k] && chain_to(seen, i).len()
                <= k) || (n < seen.len() && chain_to(seen, n).len() <= k),
    decreases k,
{
    if k == 0 {
        assert(seen[0].frame@ == walk[0]);
    } else {
        lemma_walk_seen(tree, ts, parent, child, walk, seen, n, k - 1);
        if !(n < seen.len() && chain_to(seen, n).len() <= k - 1) {
            let i = choose|i: int|
                0 <= i < seen.len() && (#[trigger] seen[i]).frame@ == walk[k - 1] && chain_to(
                    seen,
                    i,
                ).len() <= k - 1;
            if i >= n {
                lemma_chains_grow(tree, parent, ts, seen, n, i);
            } else {
                assert(linked(tree, ts, walk[k - 1], walk[k - 1 + 1]));
                assert(linked(tree, ts, seen[i].frame@, walk[k]));
                assert(came_across(seen, walk[k]));
                let j = choose|j: int|
                    0 <= j < seen.len() && (#[trigger] seen[j]).frame@ == walk[k];
                if j > 0 {
                    assert(seen[j].from < j);
                    if i < seen[j].from {
                        assert(!linked(tree, ts, seen[i].frame@, seen[j].frame@));
                    }
                    lemma_chains_grow(tree, parent, ts, seen, seen[j].from as int, i);
                }
                assert(chain_to(seen, j).len() <= k);
            }
        }
    }
}

proof fn lemma_chain_leads_through(
    tree: Map<EdgeKey, Seq<Sample>>,
    start: Seq<char>,
    ts: F64Bits,
    seen: Seq<Visit>,
    i: int,
) -> (frames: Seq<Seq<char>>)
    requires
        is_search(tree, start, ts, seen),
        0 <= i < seen.len(),
    ensures
        leads(tree, start, seen[i].frame@, ts, chain_to(seen, i), frames),
    decreases i,
{
    if i == 0 {
        seq![start]
    } else {
        let from = seen[i].from as int;
        let front = lemma_chain_leads_through(tree, start, ts, seen, from);
        let frames = front.push(seen[i].frame@);
        let chain = chain_to(seen, i);
        assert forall|k: int| 0 <= k < chain.len() implies step_between(
            tree,
            #[trigger] frames[k],
            frames[k + 1],
            ts,
        ) == Some(chain[k]) by {
            assert(frames[k] == front[k]);
            if k < chain.len() - 1 {
                assert(frames[k + 1] == front[k + 1]);
                assert(chain[k] == chain_to(seen, from)[k]);
            }
        }
        frames
    }
}

/// The frames that a chain leads through are a walk.
proof fn lemma_leads_joins(
    tree: Map<EdgeKey, Seq<Sample>>,
    parent: Seq<char>,
    child: Seq<char>,
    ts: F64Bits,
    chain: Seq<TfStep>,
    frames: Seq<Seq<char>>,
)
    requires
        leads(tree, parent, child, ts, chain, frames),
    ensures
        joins(tree, ts, parent, child, frames),
{
    assert forall|k: int| 0 <= k < frames.len() - 1 implies linked(
        tree,
        ts,
        #[trigger] frames[k],
        frames[k + 1],
    ) by {
        assert(step_between(tree, frames[k], frames[k + 1], ts) == Some(chain[k]));
    }
}

/// A chain of at most one step, or of none where the frames are the same, is a shortest one.
proof fn lemma_leads_resolves(
    tree: Map<EdgeKey, Seq<Sample>>,
    parent: Seq<char>,
    child: Seq<char>,
    ts: F64Bits,
    chain: Seq<TfStep>,
    frames: Seq<Seq<char>>,
)
    requires
        leads(tree, parent, child, ts, chain, frames),
        chain.len() <= 1,
        chain.len() == 1 ==> parent != child,
    ensures
        resolves(tree, parent, child, ts, chain),
        joined_at(tree, parent, child, ts),
{
    lemma_leads_joins(tree, parent, child, ts, chain, frames);
    assert forall|walk: Seq<Seq<char>>| #[trigger]
        joins(tree, ts, parent, child, walk) implies chain.len() < walk.len() by {
        if walk.len() == 1 {
            assert(walk[0] == walk.last());
        }
    }
}

/// The chain by which a search came to `child` first is a shortest one.
proof fn lemma_found(
    tree: Map<EdgeKey, Seq<Sample>>,
    parent: Seq<char>,
    child: Seq<char>,
    ts: F64Bits,
    seen: Seq<Visit>,
    n: int,
)
    requires
        is_search(tree, parent, ts, seen),
        0 <= n < seen.len(),
        explored(tree, ts, seen, n),
        seen[n].frame@ == child,
    ensures
        resolves(tree, parent, child, ts, chain_to(seen, n)),
        joined_at(tree, parent, child, ts),
{
    let chain = chain_to(seen, n);
    let frames = lemma_chain_leads_through(tree, parent, ts, seen, n);
    lemma_leads_joins(tree, parent, child, ts, chain, frames);
    assert forall|walk: Seq<Seq<char>>| #[trigger]
        joins(tree, ts, parent, child, walk) implies chain.len() < walk.len() by {
        let k = walk.len() - 1;
        lemma_walk_seen(tree, ts, parent, child, walk, seen, n, k);
        if !(chain.len() <= k) {
            let i = choose|i: int|
                0 <= i < seen.len() && (#[trigger] seen[i]).frame@ == walk[k] && chain_to(
                    seen,
                    i,
                ).len() <= k;
            if i < n {
                assert(seen[i].frame@ != seen[n].frame@);
            } else if n < i {
                assert(seen[n].frame@ != seen[i].frame@);
            }
        }
    }
}

// ---- what a lookup promises ----

/// Frames that a walk joins at `ts` find each other, whichever of the two asks.
pub proof fn lemma_joined_frames_resolve(
    tree: Map<EdgeKey, Seq<Sample>>,
    ts: F64Bits,
    walk: Seq<Seq<char>>,
)
    requires
        walk.len() > 0,
        forall|k: int|
            0 <= k < walk.len() - 1 ==> linked(tree, ts, #[trigger] walk[k], walk[k + 1]),
    ensures
        joined_at(tree, walk[0], walk.last(), ts),
        joined_at(tree, walk.last(), walk[0], ts),
{
    assert(joins(tree, ts, walk[0], walk.last(), walk));
    let back = walk.reverse();
    assert forall|k: int| 0 <= k < back.len() - 1 implies linked(
        tree,
        ts,
        #[trigger] back[k],
        back[k + 1],
    ) by {
        let n = walk.len() - 2 - k;
        assert(linked(tree, ts, walk[n], walk[n + 1]));
        lemma_steps_mirror(tree, walk[n], walk[n + 1], ts);
    }
    assert(joins(tree, ts, walk.last(), walk[0], back));
}

/// Two lookups between the same frames at one time take equally many steps.
pub proof fn lemma_shortest_chains(
    tree: Map<EdgeKey, Seq<Sample>>,
    parent: Seq<char>,
    child: Seq<char>,
    ts: F64Bits,
    one: Seq<TfStep>,
    other: Seq<TfStep>,
)
    requires
        resolves(tree, parent, child, ts, one),
        resolves(tree, parent, child, ts, other),
    ensures
        one.len() == other.len(),
{
    let a = choose|frames: Seq<Seq<char>>| #[trigger] leads(tree, parent, child, ts, one, frames);
    let b = choose|frames: Seq<Seq<char>>| #[trigger] leads(tree, parent, child, ts, other, frames);
    lemma_leads_joins(tree, parent, child, ts, one, a);
    lemma_leads_joins(tree, parent, child, ts, other, b);
}

/// Two frames find each other by a single edge or not at all, whichever of them asks; where
/// only one of the two edges between them has a past sample, both take its pose, in opposite
/// directions.
pub proof fn lemma_steps_mirror(
    tree: Map<EdgeKey, Seq<Sample>>,
    a: Seq<char>,
    b: Seq<char>,
    ts: F64Bits,
)
    ensures
        step_between(tree, a, b, ts) is Some <==> step_between(tree, b, a, ts) is Some,
        latched(tree, a, b, ts) is None || latched(tree, b, a, ts) is None ==> (step_between(
            tree,
            a,
            b,
            ts,
        ) matches Some(step) ==> step_between(tree, b, a, ts) == Some(
            TfStep { pose: step.pose, inverted: !step.inverted },
        )),
{
}

/// Once a trajectory has taken the place of an edge, a lookup along that edge gives the newest
/// pose of the trajectory, whatever else the tree holds.
pub proof fn lemma_override_localizes(
    tree: Map<EdgeKey, Seq<Sample>>,
    tracks: Seq<EdgeTrack>,
    flags: Seq<bool>,
    parent: Seq<char>,
    child: Seq<char>,
    trajectory: Seq<Sample>,
    ts: F64Bits,
    chain: Seq<TfStep>,
)
    requires
        parent != child,
        newest_at(by_time(trajectory), ts) is Some,
    ensures
        resolves(
            overridden(tree, tracks, flags, (parent, child), trajectory),
            parent,
            child,
            ts,
            chain,
        ) <==> chain == seq![
            TfStep { pose: newest_at(by_time(trajectory), ts)->0, inverted: false },
        ],
{
    let after = overridden(tree, tracks, flags, (parent, child), trajectory);
    assert(after[(parent, child)] == by_time(trajectory));
    let step = TfStep { pose: newest_at(by_time(trajectory), ts)->0, inverted: false };
    let direct = seq![parent, child];
    assert(leads(after, parent, child, ts, seq![step], direct));
    lemma_leads_resolves(after, parent, child, ts, seq![step], direct);
    if resolves(after, parent, child, ts, chain) {
        lemma_shortest_chains(after, parent, child, ts, chain, seq![step]);
        let frames = choose|frames: Seq<Seq<char>>| #[trigger]
            leads(after, parent, child, ts, chain, frames);
        assert(step_between(after, frames[0], frames[0int + 1], ts) == Some(chain[0]));
        assert(chain =~= seq![step]);
    }
}

/// When a trajectory takes the place of an edge, every other edge whose flag is set stays as it
/// was at every time, and every other edge is gone: only the trajectory moves.
pub proof fn lemma_override_keeps_mounts(
    tree: Map<EdgeKey, Seq<Sample>>,
    tracks: Seq<EdgeTrack>,
    flags: Seq<bool>,
    key: EdgeKey,
    trajectory: Seq<Sample>,
    a: Seq<char>,
    b: Seq<char>,
    ts: F64Bits,
)
    requires
        tree == track_map(tracks),
        flags.len() == tracks.len(),
        (a, b) != key,
    ensures
        latched(overridden(tree, tracks, flags, key, trajectory), a, b, ts) == if kept_edge(
            tracks,
            flags,
            (a, b),
        ) {
            latched(tree, a, b, ts)
        } else {
            None
        },
{
    if kept_edge(tracks, flags, (a, b)) {
        let i = choose|i: int| #[trigger] track_at(tracks, (a, b), i) && flags[i];
        assert(track_at(tracks, (a, b), i));
    }
}

// ---- static edges ----

/// How far the poses of a static edge may lie apart, in meters: 1e-6.
pub const STATIC_POSE_TOLERANCE: F64Bits = 0x3eb0_c6f7_a0b5_ed8d;

/// How far the entries of a static edge's rotation may lie apart: ten times as much.
pub const STATIC_ROTATION_TOLERANCE: F64Bits = 0x3ee4_f8b5_88e3_68f0;

/// How far one sample of an edge is from the first one: the distance of the positions,
/// and the absolute difference of each entry of the rotation matrices.
#[derive(Debug)]
pub struct Deviation {
    pub translation: F64Bits,
    pub rotation: [F64Bits; 9],
}

impl Deviation {
    /// The sample is where the first one is, within the tolerance; an entry that is no
    /// number does not count.
    pub open spec fn is_small(&self) -> bool {
        le(self.translation, STATIC_POSE_TOLERANCE) && forall|k: int|
            0 <= k < 9 ==> is_nan(#[trigger] self.rotation@[k]) || le(
                self.rotation@[k],
                STATIC_ROTATION_TOLERANCE,
            )
    }

    fn small(&self) -> (r: bool)
        ensures
            r == self.is_small(),
    {
        if !at_most(self.translation, STATIC_POSE_TOLERANCE) {
            return false;
        }
        let mut k: usize = 0;
        while k < 9
            invariant
                k <= 9,
                forall|j: int|
                    0 <= j < k ==> is_nan(#[trigger] self.rotation@[j]) || le(
                        self.rotation@[j],
                        STATIC_ROTATION_TOLERANCE,
                    ),
            decreases 9 - k,
        {
            if !nan(self.rotation[k]) && !at_most(self.rotation[k], STATIC_ROTATION_TOLERANCE) {
                return false;
            }
            k = k + 1;
        }
        true
    }
}

/// Whether an edge does not move: none of its samples is far from the first.
pub fn edge_is_static(deviations: &[Deviation]) -> (r: bool)
    ensures
        r == (forall|i: int|
            0 <= i < deviations@.len() ==> (#[trigger] deviations@[i]).is_small()),
{
    let mut i: usize = 0;
    while i < deviations.len()
        invariant
            i <= deviations.len(),
            forall|k: int| 0 <= k < i ==> (#[trigger] deviations@[k]).is_small(),
        decreases deviations.len() - i,
    {
        if !deviations[i].small() {
            return false;
        }
        i = i + 1;
    }
    true
}

// ---- what the results are, over all inputs ----

/// Samples are put in the order of their times, each of them once; of two with one time, the one that
/// came first stays first.
pub proof fn lemma_samples_are_put_in_order(samples: Seq<Sample>, i: int, j: int)
    requires
        0 <= i < j < samples.len(),
    ensures
        by_time(samples).to_multiset() == samples.to_multiset(),
        by_time(samples).len() == samples.len(),
        total_rank(by_time(samples)[i].0) <= total_rank(by_time(samples)[j].0),
        total_rank(samples[i].0) <= total_rank(samples[j].0) ==> crate::order::stands_before(
            by_time(samples),
            samples[i],
            samples[j],
        ),
{
    broadcast use vstd::seq_lib::group_to_multiset_ensures;

    let keyed = keyed_by_time(samples);
    let sorted = stable_order(keyed);
    let value = |e: (SortKey, Sample)| e.1;
    lemma_stable_order_sorts(keyed);
    crate::pgo::lemma_map_keeps_multiset(sorted, keyed, value);
    assert(keyed.map_values(value) =~= samples);
    assert(by_time(samples) =~= sorted.map_values(value));
    assert forall|k: int| 0 <= k < sorted.len() implies (#[trigger] sorted[k]).0.first == total_rank(
        sorted[k].1.0,
    ) by {
        assert(sorted.to_multiset().count(sorted[k]) > 0) by {
            assert(sorted.contains(sorted[k]));
        }
        assert(keyed.contains(sorted[k]));
    }
    assert(crate::order::key_le(sorted[i].0, sorted[j].0));
    if total_rank(samples[i].0) <= total_rank(samples[j].0) {
        crate::order::lemma_stable_order_places(keyed, i, j);
        assert(keyed[i].1 == samples[i] && keyed[j].1 == samples[j]);
        let (a, b) = choose|a: int, b: int|
            0 <= a < b < sorted.len() && sorted[a] == keyed[i] && sorted[b] == keyed[j];
        assert(by_time(samples)[a] == samples[i] && by_time(samples)[b] == samples[j]);
    }
}

/// An edge is held exactly where a sample is of it, with the poses of all its samples, each with its
/// time.
pub proof fn lemma_edge_holds_its_samples(samples: Seq<TfSample>, parent: Seq<char>, child: Seq<char>)
    ensures
        recorded(samples).contains_key((parent, child)) <==> exists|i: int|
            0 <= i < samples.len() && (#[trigger] samples[i]).parent@ == parent && samples[i].child@
                == child,
        recorded(samples).contains_key((parent, child)) ==> recorded(samples)[(parent, child)]
            == by_time(
            samples.filter(|s: TfSample| s.parent@ == parent && s.child@ == child).map_values(
                |s: TfSample|
                    (
                        s.ts,
                        [
                            s.translation@[0],
                            s.translation@[1],
                            s.translation@[2],
                            s.quaternion_xyzw@[0],
                            s.quaternion_xyzw@[1],
                            s.quaternion_xyzw@[2],
                            s.quaternion_xyzw@[3],
                        ],
                    ),
            ),
        ),
{
    lemma_poses_are_filtered(samples, parent, child);
    let key = (parent, child);
    if has_sample(samples, key) {
        let i = choose|i: int| 0 <= i < samples.len() && sample_key(#[trigger] samples[i]) == key;
        assert(samples[i].parent@ == parent && samples[i].child@ == child);
    }
    if exists|i: int|
        0 <= i < samples.len() && (#[trigger] samples[i]).parent@ == parent && samples[i].child@
            == child {
        let i = choose|i: int|
            0 <= i < samples.len() && (#[trigger] samples[i]).parent@ == parent && samples[i].child@
                == child;
        assert(sample_key(samples[i]) == key);
    }
}

proof fn lemma_poses_are_filtered(samples: Seq<TfSample>, parent: Seq<char>, child: Seq<char>)
    ensures
        poses_of_edge(samples, (parent, child)) == samples.filter(
            |s: TfSample| s.parent@ == parent && s.child@ == child,
        ).map_values(
            |s: TfSample|
                (
                    s.ts,
                    [
                        s.translation@[0],
                        s.translation@[1],
                        s.translation@[2],
                        s.quaternion_xyzw@[0],
                        s.quaternion_xyzw@[1],
                        s.quaternion_xyzw@[2],
                        s.quaternion_xyzw@[3],
                    ],
                ),
        ),
    decreases samples.len(),
{
    reveal_with_fuel(Seq::filter, 1);
    let of_edge = |s: TfSample| s.parent@ == parent && s.child@ == child;
    let noted = |s: TfSample|
        (
            s.ts,
            [
                s.translation@[0],
                s.translation@[1],
                s.translation@[2],
                s.quaternion_xyzw@[0],
                s.quaternion_xyzw@[1],
                s.quaternion_xyzw@[2],
                s.quaternion_xyzw@[3],
            ],
        );
    if samples.len() > 0 {
        lemma_poses_are_filtered(samples.drop_last(), parent, child);
        let front = samples.drop_last().filter(of_edge);
        let last = samples.last();
        if of_edge(last) {
            assert(front.push(last).map_values(noted) =~= front.map_values(noted).push(
                noted(last),
            ));
            assert(noted(last) == timed_pose(last));
        }
    } else {
        assert(samples.filter(of_edge).map_values(noted) =~= Seq::empty());
    }
}

/// Between two frames the edge in the asked direction is taken as it is; only where it has no sample
/// yet is the opposite one taken, turned round.
pub proof fn lemma_straight_edges_come_first(
    tree: Map<EdgeKey, Seq<Sample>>,
    a: Seq<char>,
    b: Seq<char>,
    ts: F64Bits,
    pose: Pose7,
)
    ensures
        tree.contains_key((a, b)) && newest_at(tree[(a, b)], ts) == Some(pose) ==> step_between(
            tree,
            a,
            b,
            ts,
        ) == Some(TfStep { pose, inverted: false }),
        (!tree.contains_key((a, b)) || newest_at(tree[(a, b)], ts) is None) && tree.contains_key(
            (b, a),
        ) && newest_at(tree[(b, a)], ts) == Some(pose) ==> step_between(tree, a, b, ts) == Some(
            TfStep { pose, inverted: true },
        ),
        (!tree.contains_key((a, b)) || newest_at(tree[(a, b)], ts) is None) && (!tree.contains_key(
            (b, a),
        ) || newest_at(tree[(b, a)], ts) is None) ==> step_between(tree, a, b, ts) is None,
{
}

/// Where an edge is replaced, the edges marked as fixed stay with their samples, and the others go.
pub proof fn lemma_fixed_edges_stay(
    tracks: Seq<EdgeTrack>,
    flags: Seq<bool>,
    key: EdgeKey,
    trajectory: Seq<Sample>,
    i: int,
)
    requires
        distinct_keys(tracks),
        flags.len() == tracks.len(),
        0 <= i < tracks.len(),
        tracks[i].key() != key,
    ensures
        ({
            let after = overridden(track_map(tracks), tracks, flags, key, trajectory);
            &&& after.contains_key(tracks[i].key()) <==> flags[i]
            &&& flags[i] ==> after[tracks[i].key()] == tracks[i].samples@
            &&& after.contains_key(key)
            &&& after[key] == by_time(trajectory)
            &&& forall|k: EdgeKey| #[trigger]
                after.contains_key(k) ==> k == key || exists|j: int|
                    0 <= j < tracks.len() && (#[trigger] tracks[j]).key() == k
        }),
{
    let k = tracks[i].key();
    assert(track_at(tracks, k, i));
    assert forall|j: int| track_at(tracks, k, j) implies j == i by {
        if j < i {
            assert(tracks[j].key() != tracks[i].key());
        } else if i < j {
            assert(tracks[i].key() != tracks[j].key());
        }
    }
    assert(has_track(tracks, k));
    let at = choose|j: int| track_at(tracks, k, j);
    assert(at == i);
    let after = overridden(track_map(tracks), tracks, flags, key, trajectory);
    assert forall|other: EdgeKey| #[trigger] after.contains_key(other) implies other == key
        || exists|j: int| 0 <= j < tracks.len() && (#[trigger] tracks[j]).key() == other by {
        if other != key {
            let j = choose|j: int| #[trigger] track_at(tracks, other, j) && flags[j];
            assert(tracks[j].key() == other);
        }
    }
}

/// An edge is fixed where no sample of it is further than a micrometre from the first, and no number
/// of its rotation differs by more than a hundred-thousandth; numbers of the rotation that are not
/// numbers do not count.
pub proof fn lemma_fixed_edges_hardly_move(deviation: Deviation, k: int)
    requires
        0 <= k < 9,
    ensures
        deviation.is_small() ==> le(deviation.translation, 0x3eb0_c6f7_a0b5_ed8d) && (is_nan(
            deviation.rotation@[k],
        ) || le(deviation.rotation@[k], 0x3ee4_f8b5_88e3_68f0)),
        !le(deviation.translation, 0x3eb0_c6f7_a0b5_ed8d) ==> !deviation.is_small(),
        le(deviation.translation, 0x3eb0_c6f7_a0b5_ed8d) && (forall|j: int|
            0 <= j < 9 ==> le(#[trigger] deviation.rotation@[j], 0x3ee4_f8b5_88e3_68f0))
            ==> deviation.is_small(),
{
}

/// In the list of a tree an edge is its parent, an arrow and its child.
pub proof fn lemma_edges_are_shown_with_an_arrow(parent: Seq<char>, child: Seq<char>)
    ensures
        edge_text((parent, child)) == parent.push('-').push('>') + child,
{
    reveal_strlit("->");
    assert(parent + "->"@ + child =~= parent.push('-').push('>') + child);
}

/// Frames are joined exactly where a walk leads from one to the other over edges that have a sample,
/// in either direction, by that time.
pub proof fn lemma_joined_frames_have_a_walk(
    tree: Map<EdgeKey, Seq<Sample>>,
    parent: Seq<char>,
    child: Seq<char>,
    ts: F64Bits,
)
    ensures
        joined_at(tree, parent, child, ts) ==> exists|walk: Seq<Seq<char>>|
            #[trigger] walk.len() > 0 && walk[0] == parent && walk.last() == child && forall|k: int|
                0 <= k < walk.len() - 1 ==> linked(tree, ts, #[trigger] walk[k], walk[k + 1]),
{
    if joined_at(tree, parent, child, ts) {
        let walk = choose|walk: Seq<Seq<char>>| #[trigger] joins(tree, ts, parent, child, walk);
        assert(walk.len() > 0);
    }
}

/// In the order of their times, no sample is later than one behind it.
pub proof fn lemma_ordered_samples_never_go_back(samples: Seq<Sample>, i: int, j: int)
    requires
        in_time_order(samples),
        0 <= i <= j < samples.len(),
    ensures
        total_rank(samples[i].0) <= total_rank(samples[j].0),
{
}

} // verus!
