//! The pose graph: keyframes, tag factors, loop closures, and what decides about them.

use crate::apriltags::Detection;
use crate::ieee::{
    at_most, at_most32, is_nan, le, le32, less, lt, total_key, total_rank, F32Bits, F64Bits, INFINITY64,
};
use crate::order::{
    group_by_key, grouped_at, groups_by_key, key_le, single_key, stable_order, stable_sort, stands_before,
    SortKey,
};
use crate::recording::OdomPoseRow;
use crate::text::{align_right, decimal, decimal_text, right_aligned, signed_decimal, signed_text};
use std::collections::HashSet;
use vstd::prelude::*;
use vstd::string::StringExecFns;

verus! {

// ---- tuning ----

/// Every knob of the solve.
#[derive(Clone, Copy, Debug)]
pub struct Tuning {
    pub keyframe_translation_m: F64Bits,
    pub keyframe_rotation_deg: F64Bits,
    pub lm_max_iterations: i32,
    /// Odometry is stiff in roll, pitch and z, and looser in yaw and xy, so that the graph
    /// takes up drift as an error of heading.
    pub odom_rot_roll_pitch_var: F64Bits,
    pub odom_rot_yaw_var: F64Bits,
    pub odom_trans_xy_var: F64Bits,
    pub odom_trans_z_var: F64Bits,
    /// Keyframes this near in space...
    pub icp_radius_m: F64Bits,
    /// ...and this far apart in time may be a revisit.
    pub icp_min_dt_s: F64Bits,
    pub icp_max_corr_m: F64Bits,
    pub icp_voxel_m: F64Bits,
    pub icp_fitness_min: F64Bits,
    pub icp_rmse_max_m: F64Bits,
    pub icp_huber_delta: F64Bits,
    pub icp_rot_var: F64Bits,
    pub icp_trans_var: F64Bits,
    /// Scans this near in time to a keyframe are part of its submap.
    pub submap_half_s: F64Bits,
}

impl Default for Tuning {
    fn default() -> (tuning: Tuning)
        ensures
            tuning.keyframe_translation_m == 0x3fe0_0000_0000_0000,
            tuning.keyframe_rotation_deg == 0x4024_0000_0000_0000,
            tuning.lm_max_iterations == 200,
            tuning.odom_rot_roll_pitch_var == 0x3e45_798e_e230_8c3a,
            tuning.odom_rot_yaw_var == 0x3ee4_f8b5_88e3_68f1,
            tuning.odom_trans_xy_var == 0x3f1a_36e2_eb1c_432d,
            tuning.odom_trans_z_var == 0x3eb0_c6f7_a0b5_ed8d,
            tuning.icp_radius_m == 0x4010_0000_0000_0000,
            tuning.icp_min_dt_s == 0x4039_0000_0000_0000,
            tuning.icp_max_corr_m == 0x3fe3_3333_3333_3333,
            tuning.icp_voxel_m == 0x3fc3_3333_3333_3333,
            tuning.icp_fitness_min == 0x3fdc_cccc_cccc_cccd,
            tuning.icp_rmse_max_m == 0x3fd0_0000_0000_0000,
            tuning.icp_huber_delta == 0x3ff5_851e_b851_eb85,
            tuning.icp_rot_var == 0x3f3a_36e2_eb1c_432d,
            tuning.icp_trans_var == 0x3f64_7ae1_47ae_147b,
            tuning.submap_half_s == 0x3ff0_0000_0000_0000,
    {
        Tuning {
            // 0.5
            keyframe_translation_m: 0x3fe0_0000_0000_0000,
            // 10
            keyframe_rotation_deg: 0x4024_0000_0000_0000,
            lm_max_iterations: 200,
            // 1e-08
            odom_rot_roll_pitch_var: 0x3e45_798e_e230_8c3a,
            // 1e-05
            odom_rot_yaw_var: 0x3ee4_f8b5_88e3_68f1,
            // 0.0001
            odom_trans_xy_var: 0x3f1a_36e2_eb1c_432d,
            // 1e-06
            odom_trans_z_var: 0x3eb0_c6f7_a0b5_ed8d,
            // 4
            icp_radius_m: 0x4010_0000_0000_0000,
            // 25
            icp_min_dt_s: 0x4039_0000_0000_0000,
            // 0.6
            icp_max_corr_m: 0x3fe3_3333_3333_3333,
            // 0.15
            icp_voxel_m: 0x3fc3_3333_3333_3333,
            // 0.45
            icp_fitness_min: 0x3fdc_cccc_cccc_cccd,
            // 0.25
            icp_rmse_max_m: 0x3fd0_0000_0000_0000,
            // 1.345
            icp_huber_delta: 0x3ff5_851e_b851_eb85,
            // 0.0004
            icp_rot_var: 0x3f3a_36e2_eb1c_432d,
            // 0.0025
            icp_trans_var: 0x3f64_7ae1_47ae_147b,
            // 1
            submap_half_s: 0x3ff0_0000_0000_0000,
        }
    }
}

impl Tuning {
    /// The variances of an odometry factor: roll, pitch, yaw, x, y, z.
    pub fn odom_noise(&self) -> (variances: [F64Bits; 6])
        ensures
            variances@ == seq![
                self.odom_rot_roll_pitch_var,
                self.odom_rot_roll_pitch_var,
                self.odom_rot_yaw_var,
                self.odom_trans_xy_var,
                self.odom_trans_xy_var,
                self.odom_trans_z_var,
            ],
    {
        let variances = [
            self.odom_rot_roll_pitch_var,
            self.odom_rot_roll_pitch_var,
            self.odom_rot_yaw_var,
            self.odom_trans_xy_var,
            self.odom_trans_xy_var,
            self.odom_trans_z_var,
        ];
        assert(variances@ =~= seq![
            self.odom_rot_roll_pitch_var,
            self.odom_rot_roll_pitch_var,
            self.odom_rot_yaw_var,
            self.odom_trans_xy_var,
            self.odom_trans_xy_var,
            self.odom_trans_z_var,
        ]);
        variances
    }

    /// The variances of a loop closure, and the width of its robust kernel.
    pub fn icp_noise(&self) -> (r: ([F64Bits; 6], F64Bits))
        ensures
            r.0@ == seq![
                self.icp_rot_var,
                self.icp_rot_var,
                self.icp_rot_var,
                self.icp_trans_var,
                self.icp_trans_var,
                self.icp_trans_var,
            ],
            r.1 == self.icp_huber_delta,
    {
        let variances = [
            self.icp_rot_var,
            self.icp_rot_var,
            self.icp_rot_var,
            self.icp_trans_var,
            self.icp_trans_var,
            self.icp_trans_var,
        ];
        assert(variances@ =~= seq![
            self.icp_rot_var,
            self.icp_rot_var,
            self.icp_rot_var,
            self.icp_trans_var,
            self.icp_trans_var,
            self.icp_trans_var,
        ]);
        (variances, self.icp_huber_delta)
    }
}

/// The variances of the first keyframe's anchor: 1e-8 but for the yaw, which has 1e-6.
pub fn gravity_anchor_noise() -> (variances: [F64Bits; 6])
    ensures
        variances@ == seq![
            0x3e45_798e_e230_8c3au64,
            0x3e45_798e_e230_8c3au64,
            0x3eb0_c6f7_a0b5_ed8du64,
            0x3e45_798e_e230_8c3au64,
            0x3e45_798e_e230_8c3au64,
            0x3e45_798e_e230_8c3au64,
        ],
{
    let variances: [F64Bits; 6] = [
        0x3e45_798e_e230_8c3au64,
        0x3e45_798e_e230_8c3au64,
        0x3eb0_c6f7_a0b5_ed8du64,
        0x3e45_798e_e230_8c3au64,
        0x3e45_798e_e230_8c3au64,
        0x3e45_798e_e230_8c3au64,
    ];
    assert(variances@ =~= seq![
        0x3e45_798e_e230_8c3au64,
        0x3e45_798e_e230_8c3au64,
        0x3eb0_c6f7_a0b5_ed8du64,
        0x3e45_798e_e230_8c3au64,
        0x3e45_798e_e230_8c3au64,
        0x3e45_798e_e230_8c3au64,
    ]);
    variances
}

// ---- keyframes ----

/// A row this far from the last keyframe, in meters and degrees, becomes a keyframe.
pub open spec fn is_far(moved: F64Bits, turned: F64Bits, tuning: Tuning) -> bool {
    lt(tuning.keyframe_translation_m, moved) || lt(tuning.keyframe_rotation_deg, turned)
}

/// Whether all that `measure` can answer is what `oracle` says.
pub open spec fn measures_as<F: Fn(usize, usize) -> (F64Bits, F64Bits)>(
    measure: F,
    oracle: spec_fn(usize, usize) -> (F64Bits, F64Bits),
) -> bool {
    forall|from: usize, to: usize, answer: (F64Bits, F64Bits)| #[trigger]
        call_ensures(measure, (from, to), answer) ==> answer == oracle(from, to)
}

/// The keyframes among the first `n` rows: row 0, and each row that is far from the keyframe
/// before it. `oracle` says how far a row is from another.
pub open spec fn keyframes_of(
    n: nat,
    oracle: spec_fn(usize, usize) -> (F64Bits, F64Bits),
    tuning: Tuning,
) -> Seq<usize>
    decreases n,
{
    if n <= 1 {
        seq![0usize]
    } else {
        let front = keyframes_of((n - 1) as nat, oracle, tuning);
        let gap = oracle(front.last(), (n - 1) as usize);
        if is_far(gap.0, gap.1, tuning) {
            front.push((n - 1) as usize)
        } else {
            front
        }
    }
}

/// The keyframes of a run of odometry: the rows, what they hold, and their times.
pub struct Keyframes {
    pub indices: Vec<usize>,
    pub rows: Vec<OdomPoseRow>,
    pub times: Vec<F64Bits>,
}

/// The keyframes of a run of odometry. `measure` tells how far the second row is from the first,
/// in meters and degrees.
pub fn select_keyframes<F: Fn(usize, usize) -> (F64Bits, F64Bits)>(
    odom_rows: &[OdomPoseRow],
    measure: &F,
    tuning: &Tuning,
) -> (keyframes: Keyframes)
    requires
        odom_rows@.len() > 0,
        forall|from: usize, to: usize| call_requires(*measure, (from, to)),
    ensures
        forall|oracle: spec_fn(usize, usize) -> (F64Bits, F64Bits)| #[trigger]
            measures_as(*measure, oracle) ==> keyframes.indices@ == keyframes_of(
                odom_rows@.len(),
                oracle,
                *tuning,
            ),
        keyframes.rows@.len() == keyframes.indices@.len(),
        keyframes.times@.len() == keyframes.indices@.len(),
        forall|i: int|
            0 <= i < keyframes.indices@.len() ==> (#[trigger] keyframes.indices@[i])
                < odom_rows@.len() && keyframes.rows@[i]
                == odom_rows@[keyframes.indices@[i] as int] && keyframes.times@[i]
                == odom_rows@[keyframes.indices@[i] as int]@[0],
{
    let mut indices: Vec<usize> = Vec::new();
    indices.push(0);
    let mut n: usize = 1;
    assert(indices@ =~= seq![0usize]);
    while n < odom_rows.len()
        invariant
            1 <= n <= odom_rows@.len(),
            forall|from: usize, to: usize| call_requires(*measure, (from, to)),
            indices@.len() > 0,
            forall|i: int| 0 <= i < indices@.len() ==> (#[trigger] indices@[i]) < n,
            forall|oracle: spec_fn(usize, usize) -> (F64Bits, F64Bits)| #[trigger]
                measures_as(*measure, oracle) ==> indices@ == keyframes_of(
                    n as nat,
                    oracle,
                    *tuning,
                ),
        decreases odom_rows.len() - n,
    {
        let gap = measure(indices[indices.len() - 1], n);
        if less(tuning.keyframe_translation_m, gap.0) || less(tuning.keyframe_rotation_deg, gap.1) {
            indices.push(n);
        }
        n = n + 1;
    }
    let mut rows: Vec<OdomPoseRow> = Vec::with_capacity(indices.len());
    let mut times: Vec<F64Bits> = Vec::with_capacity(indices.len());
    let mut k: usize = 0;
    while k < indices.len()
        invariant
            k <= indices@.len(),
            rows@.len() == k,
            times@.len() == k,
            forall|i: int| 0 <= i < indices@.len() ==> (#[trigger] indices@[i]) < odom_rows@.len(),
            forall|i: int|
                0 <= i < k ==> rows@[i] == odom_rows@[(#[trigger] indices@[i]) as int]
                    && times@[i] == odom_rows@[indices@[i] as int]@[0],
        decreases indices.len() - k,
    {
        let row = odom_rows[indices[k]];
        rows.push(row);
        times.push(row[0]);
        k = k + 1;
    }
    Keyframes { indices, rows, times }
}

/// The last keyframe before a row.
pub open spec fn keyframe_before(
    row: nat,
    oracle: spec_fn(usize, usize) -> (F64Bits, F64Bits),
    tuning: Tuning,
) -> usize {
    keyframes_of(row, oracle, tuning).last()
}

/// The first row is a keyframe, keyframes come in the order of their rows, and a row is one
/// exactly where it is far from the last keyframe before it.
pub proof fn lemma_keyframes_ascend(
    n: nat,
    oracle: spec_fn(usize, usize) -> (F64Bits, F64Bits),
    tuning: Tuning,
)
    requires
        1 <= n <= usize::MAX,
    ensures
        ({
            let all = keyframes_of(n, oracle, tuning);
            &&& all.len() > 0
            &&& all[0] == 0
            &&& forall|i: int| 0 <= i < all.len() ==> (#[trigger] all[i]) < n
            &&& forall|i: int, j: int|
                0 <= i < j < all.len() ==> (#[trigger] all[i]) < (#[trigger] all[j])
            &&& forall|row: usize|
                1 <= row < n ==> (#[trigger] all.contains(row) <==> {
                    let gap = oracle(keyframe_before(row as nat, oracle, tuning), row);
                    is_far(gap.0, gap.1, tuning)
                })
        }),
    decreases n,
{
    if n > 1 {
        lemma_keyframes_ascend((n - 1) as nat, oracle, tuning);
        let front = keyframes_of((n - 1) as nat, oracle, tuning);
        let all = keyframes_of(n, oracle, tuning);
        let last = (n - 1) as usize;
        assert forall|row: usize| 1 <= row < n implies (#[trigger] all.contains(row) <==> {
            let gap = oracle(keyframe_before(row as nat, oracle, tuning), row);
            is_far(gap.0, gap.1, tuning)
        }) by {
            if row == last {
                if all.len() > front.len() {
                    assert(all[front.len() as int] == row);
                } else if all.contains(row) {
                    let i = choose|i: int| 0 <= i < all.len() && all[i] == row;
                    assert(front[i] < n - 1);
                }
            } else {
                if front.contains(row) {
                    let i = choose|i: int| 0 <= i < front.len() && front[i] == row;
                    assert(all[i] == row);
                }
                if all.contains(row) {
                    let i = choose|i: int| 0 <= i < all.len() && all[i] == row;
                    assert(front[i] == row);
                }
            }
        }
    }
}

/// The first row is a keyframe. Of the rows behind it, those are keyframes that are moved or turned
/// further than the thresholds from the last keyframe before them, either being enough, and no
/// others.
pub proof fn lemma_keyframes_are_rows_past_a_threshold(
    n: nat,
    oracle: spec_fn(usize, usize) -> (F64Bits, F64Bits),
    tuning: Tuning,
    previous: usize,
    row: usize,
)
    requires
        previous < row < n <= usize::MAX,
        keyframes_of(n, oracle, tuning).contains(previous),
        forall|k: usize|
            previous < k < row ==> !(#[trigger] keyframes_of(n, oracle, tuning).contains(k)),
    ensures
        keyframes_of(n, oracle, tuning).contains(0),
        lt(tuning.keyframe_translation_m, oracle(previous, row).0) ==> keyframes_of(
            n,
            oracle,
            tuning,
        ).contains(row),
        lt(tuning.keyframe_rotation_deg, oracle(previous, row).1) ==> keyframes_of(
            n,
            oracle,
            tuning,
        ).contains(row),
        keyframes_of(n, oracle, tuning).contains(row) ==> lt(
            tuning.keyframe_translation_m,
            oracle(previous, row).0,
        ) || lt(tuning.keyframe_rotation_deg, oracle(previous, row).1),
{
    let all = keyframes_of(n, oracle, tuning);
    let front = keyframes_of(row as nat, oracle, tuning);
    lemma_keyframes_ascend(n, oracle, tuning);
    lemma_keyframes_ascend(row as nat, oracle, tuning);
    lemma_keyframes_below(n, oracle, tuning, row as nat);
    assert(all.contains(all[0]));
    assert(front.contains(previous)) by {
        assert(all.contains(previous));
    }
    let i = choose|i: int| 0 <= i < front.len() && front[i] == previous;
    assert(front.contains(front.last()));
    assert(all.contains(front.last()));
    if i < front.len() - 1 {
        assert(front[i] < front[front.len() - 1]);
        assert(!all.contains(front.last()));
    }
    assert(keyframe_before(row as nat, oracle, tuning) == previous);
    assert(all.contains(row) <==> {
        let gap = oracle(keyframe_before(row as nat, oracle, tuning), row);
        is_far(gap.0, gap.1, tuning)
    });
}

proof fn lemma_keyframes_below(
    n: nat,
    oracle: spec_fn(usize, usize) -> (F64Bits, F64Bits),
    tuning: Tuning,
    row: nat,
)
    requires
        1 <= row <= n <= usize::MAX,
    ensures
        forall|k: usize|
            k < row ==> (#[trigger] keyframes_of(n, oracle, tuning).contains(k) <==> keyframes_of(
                row,
                oracle,
                tuning,
            ).contains(k)),
    decreases n,
{
    if row < n {
        lemma_keyframes_below((n - 1) as nat, oracle, tuning, row);
        let front = keyframes_of((n - 1) as nat, oracle, tuning);
        let all = keyframes_of(n, oracle, tuning);
        assert forall|k: usize| k < row implies (#[trigger] all.contains(k) <==> keyframes_of(
            row,
            oracle,
            tuning,
        ).contains(k)) by {
            if all.contains(k) {
                let i = choose|i: int| 0 <= i < all.len() && all[i] == k;
                assert(front[i] == k);
                assert(front.contains(k));
            }
            if front.contains(k) {
                let i = choose|i: int| 0 <= i < front.len() && front[i] == k;
                assert(all[i] == k);
            }
        }
    }
}

/// The keyframe nearest in time is `index`: no gap is smaller, and no earlier keyframe has
/// the same gap. Where no gap is a number below infinity, it is the first keyframe.
pub open spec fn is_closest(gaps: Seq<F64Bits>, index: int) -> bool {
    if exists|i: int| 0 <= i < gaps.len() && lt(#[trigger] gaps[i], INFINITY64) {
        &&& 0 <= index < gaps.len()
        &&& lt(gaps[index], INFINITY64)
        &&& forall|i: int| 0 <= i < gaps.len() ==> !lt(#[trigger] gaps[i], gaps[index])
        &&& forall|i: int| 0 <= i < index ==> is_nan(#[trigger] gaps[i]) || lt(gaps[index], gaps[i])
    } else {
        index == 0
    }
}

/// The keyframe nearest in time, from how far each is away.
pub fn closest_keyframe(gaps: &[F64Bits]) -> (best: usize)
    ensures
        is_closest(gaps@, best as int),
        gaps@.len() > 0 ==> best < gaps@.len(),
{
    let mut best: usize = 0;
    let mut best_gap: F64Bits = INFINITY64;
    let mut i: usize = 0;
    while i < gaps.len()
        invariant
            i <= gaps.len(),
            !is_nan(best_gap),
            le(best_gap, INFINITY64),
            best_gap == INFINITY64 || lt(best_gap, INFINITY64),
            best_gap == INFINITY64 ==> best == 0 && forall|k: int|
                0 <= k < i ==> !lt(#[trigger] gaps@[k], INFINITY64),
            lt(best_gap, INFINITY64) ==> best < i && gaps@[best as int] == best_gap,
            forall|k: int| 0 <= k < i ==> !lt(#[trigger] gaps@[k], best_gap),
            lt(best_gap, INFINITY64) ==> forall|k: int|
                0 <= k < best ==> is_nan(#[trigger] gaps@[k]) || lt(best_gap, gaps@[k]),
        decreases gaps.len() - i,
    {
        let gap: F64Bits = gaps[i];
        if less(gap, best_gap) {
            best_gap = gap;
            best = i;
        }
        i = i + 1;
    }
    best
}

/// Where the gaps are finite, no keyframe is nearer in time than the closest one, and none before it
/// is as near.
pub proof fn lemma_closest_is_nearest(gaps: Seq<F64Bits>, index: int, other: int)
    requires
        is_closest(gaps, index),
        forall|i: int| 0 <= i < gaps.len() ==> lt(#[trigger] gaps[i], INFINITY64),
        0 <= other < gaps.len(),
    ensures
        0 <= index < gaps.len(),
        le(gaps[index], gaps[other]),
        other < index ==> lt(gaps[index], gaps[other]),
{
    assert(lt(gaps[other], INFINITY64));
}

// ---- tag factors ----

/// The detection that stands for a tag at a keyframe.
#[derive(Clone, Copy, Debug)]
pub struct BestFactor {
    pub keyframe: usize,
    pub marker_id: i64,
    pub detection: Detection,
}

/// The key by which factors are ordered: the keyframe, then the tag.
pub open spec fn factor_key(keyframe: usize, marker_id: i64) -> SortKey {
    SortKey { first: keyframe as i64, second: marker_id, third: 0 }
}

/// Of two detections the one with the lower reprojection error; the earlier one where the
/// later is not lower, the later one where they cannot be compared.
pub open spec fn better(earlier: Detection, later: Detection) -> Detection {
    if le(earlier.reproj_px, later.reproj_px) {
        earlier
    } else {
        later
    }
}

/// The best detection of a tag at a keyframe, where there is one; `keyframes[i]` is the
/// keyframe of the `i`th detection.
pub open spec fn best_of(
    detections: Seq<Detection>,
    keyframes: Seq<usize>,
    key: SortKey,
) -> Option<Detection>
    decreases detections.len(),
{
    if detections.len() == 0 {
        None
    } else {
        let last = detections.last();
        let front = best_of(detections.drop_last(), keyframes, key);
        if factor_key(keyframes[detections.len() - 1], last.marker_id) != key {
            front
        } else {
            match front {
                Some(earlier) => Some(better(earlier, last)),
                None => Some(last),
            }
        }
    }
}

proof fn lemma_best_skips(
    detections: Seq<Detection>,
    keyframes: Seq<usize>,
    key: SortKey,
    from: int,
    to: int,
)
    requires
        0 <= from <= to <= detections.len(),
        forall|i: int|
            from <= i < to ==> factor_key(keyframes[i], (#[trigger] detections[i]).marker_id)
                != key,
    ensures
        best_of(detections.take(to), keyframes, key) == best_of(
            detections.take(from),
            keyframes,
            key,
        ),
    decreases to - from,
{
    if from < to {
        lemma_best_skips(detections, keyframes, key, from, to - 1);
        assert(detections.take(to).drop_last() =~= detections.take(to - 1));
        assert(detections.take(to).last() == detections[to - 1]);
    }
}

/// The tag is detected at the keyframe.
pub open spec fn occurs(
    detections: Seq<Detection>,
    keyframes: Seq<usize>,
    keyframe: usize,
    marker_id: i64,
) -> bool {
    exists|i: int|
        0 <= i < detections.len() && (#[trigger] detections[i]).marker_id == marker_id
            && keyframes[i] == keyframe
}

/// `factors` holds the best detection for each keyframe and tag that occur together, by
/// ascending keyframe and tag.
pub open spec fn are_best_factors(
    detections: Seq<Detection>,
    keyframes: Seq<usize>,
    factors: Seq<BestFactor>,
) -> bool {
    &&& forall|a: int, b: int|
        0 <= a < b < factors.len() ==> {
            let x = #[trigger] factors[a];
            let y = #[trigger] factors[b];
            x.keyframe < y.keyframe || (x.keyframe == y.keyframe && x.marker_id < y.marker_id)
        }
    &&& forall|a: int|
        0 <= a < factors.len() ==> best_of(
            detections,
            keyframes,
            factor_key((#[trigger] factors[a]).keyframe, factors[a].marker_id),
        ) == Some(factors[a].detection)
    &&& forall|a: int|
        0 <= a < factors.len() ==> occurs(
            detections,
            keyframes,
            (#[trigger] factors[a]).keyframe,
            factors[a].marker_id,
        )
    &&& forall|i: int|
        0 <= i < detections.len() ==> #[trigger] has_factor(
            factors,
            keyframes[i],
            detections[i].marker_id,
        )
}

/// There is a factor for the tag at the keyframe.
pub open spec fn has_factor(factors: Seq<BestFactor>, keyframe: usize, marker_id: i64) -> bool {
    exists|a: int|
        0 <= a < factors.len() && (#[trigger] factors[a]).keyframe == keyframe
            && factors[a].marker_id == marker_id
}

proof fn lemma_group_members(keys: Seq<SortKey>, groups: Seq<Vec<usize>>, g: int, k: int)
    requires
        groups_by_key(keys, groups),
        0 <= g < groups.len(),
        0 <= k < keys.len(),
        keys[k] == keys[groups[g]@[0] as int],
    ensures
        exists|i: int| 0 <= i < groups[g]@.len() && groups[g]@[i] == k,
{
    assert(grouped_at(groups, k));
    let (h, i) = choose|h: int, i: int|
        0 <= h < groups.len() && 0 <= i < groups[h]@.len() && (#[trigger] groups[h]@[i]) == k;
    assert(keys[groups[h]@[i] as int] == keys[groups[h]@[0] as int]);
    if h < g {
        assert(keys[groups[h]@[0] as int] != keys[groups[g]@[0] as int]);
    } else if g < h {
        assert(keys[groups[g]@[0] as int] != keys[groups[h]@[0] as int]);
    }
}

/// The best detection among the members of a group.
fn best_in_group(
    detections: &[Detection],
    keyframes: &[usize],
    keys: &[SortKey],
    groups: &[Vec<usize>],
    g: usize,
) -> (r: Detection)
    requires
        keyframes@.len() == detections@.len(),
        keys@.len() == detections@.len(),
        forall|i: int|
            0 <= i < keys@.len() ==> #[trigger] keys@[i] == factor_key(
                keyframes@[i],
                detections@[i].marker_id,
            ),
        groups_by_key(keys@, groups@),
        g < groups@.len(),
    ensures
        best_of(detections@, keyframes@, keys@[groups@[g as int]@[0] as int]) == Some(r),
{
    let members = &groups[g];
    let ghost key = keys@[members@[0] as int];
    assert(groups@[g as int]@.len() > 0);
    assert(members@[0] < keys@.len());
    let first: usize = members[0];
    let mut best: Detection = detections[first];
    proof {
        assert forall|i: int| 0 <= i < first implies factor_key(
            keyframes@[i],
            (#[trigger] detections@[i]).marker_id,
        ) != key by {
            if keys@[i] == key {
                lemma_group_members(keys@, groups@, g as int, i);
                let m = choose|m: int| 0 <= m < members@.len() && groups@[g as int]@[m] == i;
                if m > 0 {
                    assert(groups@[g as int]@[0] < groups@[g as int]@[m]);
                }
            }
        }
        lemma_best_skips(detections@, keyframes@, key, 0, first as int);
        assert(detections@.take(0) =~= Seq::empty());
        assert(detections@.take(first + 1).drop_last() =~= detections@.take(first as int));
        assert(detections@.take(first + 1).last() == detections@[first as int]);
        assert(keys@[first as int] == key);
    }
    let mut n: usize = 1;
    while n < members.len()
        invariant
            1 <= n <= members.len(),
            g < groups@.len(),
            members@ == groups@[g as int]@,
            members@.len() > 0,
            keyframes@.len() == detections@.len(),
            keys@.len() == detections@.len(),
            forall|i: int|
                0 <= i < keys@.len() ==> #[trigger] keys@[i] == factor_key(
                    keyframes@[i],
                    detections@[i].marker_id,
                ),
            groups_by_key(keys@, groups@),
            key == keys@[members@[0] as int],
            members@[n - 1] < detections@.len(),
            best_of(detections@.take(members@[n - 1] + 1), keyframes@, key) == Some(best),
        decreases members.len() - n,
    {
        let at: usize = members[n];
        proof {
            assert(groups@[g as int]@[n as int] < keys@.len());
            assert(keys@[groups@[g as int]@[n as int] as int] == key);
            let from = members@[n - 1] + 1;
            assert(groups@[g as int]@[n - 1] < groups@[g as int]@[n as int]);
            assert forall|i: int| from <= i < at implies factor_key(
                keyframes@[i],
                (#[trigger] detections@[i]).marker_id,
            ) != key by {
                if keys@[i] == key {
                    lemma_group_members(keys@, groups@, g as int, i);
                    let m = choose|m: int| 0 <= m < members@.len() && groups@[g as int]@[m] == i;
                    if m < n - 1 {
                        assert(groups@[g as int]@[m] < groups@[g as int]@[n - 1]);
                    } else if m > n {
                        assert(groups@[g as int]@[n as int] < groups@[g as int]@[m]);
                    }
                }
            }
            lemma_best_skips(detections@, keyframes@, key, from, at as int);
            assert(detections@.take(at + 1).drop_last() =~= detections@.take(at as int));
            assert(detections@.take(at + 1).last() == detections@[at as int]);
        }
        if !at_most(best.reproj_px, detections[at].reproj_px) {
            best = detections[at];
        }
        n = n + 1;
    }
    proof {
        let last = members@[n - 1] as int;
        let total = detections@.len() as int;
        assert forall|i: int| last + 1 <= i < total implies factor_key(
            keyframes@[i],
            (#[trigger] detections@[i]).marker_id,
        ) != key by {
            if keys@[i] == key {
                lemma_group_members(keys@, groups@, g as int, i);
                let m = choose|m: int| 0 <= m < members@.len() && groups@[g as int]@[m] == i;
                if m < n - 1 {
                    assert(groups@[g as int]@[m] < groups@[g as int]@[n - 1]);
                }
            }
        }
        lemma_best_skips(detections@, keyframes@, key, last + 1, total);
        assert(detections@.take(total) =~= detections@);
    }
    best
}

/// One factor for each keyframe and tag that occur together: the detection with the lowest
/// reprojection error. `keyframes[i]` is the keyframe nearest in time to the `i`th
/// detection.
pub fn best_factor_per_keyframe_marker(
    detections: &[Detection],
    keyframes: &[usize],
) -> (factors: Vec<BestFactor>)
    requires
        keyframes@.len() == detections@.len(),
        forall|i: int| 0 <= i < keyframes@.len() ==> (#[trigger] keyframes@[i]) <= i64::MAX,
    ensures
        are_best_factors(detections@, keyframes@, factors@),
{
    let mut keys: Vec<SortKey> = Vec::new();
    let mut i: usize = 0;
    while i < detections.len()
        invariant
            i <= detections.len(),
            keyframes@.len() == detections@.len(),
            forall|k: int| 0 <= k < keyframes@.len() ==> (#[trigger] keyframes@[k]) <= i64::MAX,
            keys@.len() == i,
            forall|k: int|
                0 <= k < i ==> #[trigger] keys@[k] == factor_key(
                    keyframes@[k],
                    detections@[k].marker_id,
                ),
        decreases detections.len() - i,
    {
        keys.push(
            SortKey { first: keyframes[i] as i64, second: detections[i].marker_id, third: 0 },
        );
        i = i + 1;
    }
    let groups = group_by_key(&keys);
    let mut factors: Vec<BestFactor> = Vec::new();
    let mut g: usize = 0;
    while g < groups.len()
        invariant
            g <= groups.len(),
            keyframes@.len() == detections@.len(),
            forall|k: int| 0 <= k < keyframes@.len() ==> (#[trigger] keyframes@[k]) <= i64::MAX,
            keys@.len() == detections@.len(),
            forall|k: int|
                0 <= k < keys@.len() ==> #[trigger] keys@[k] == factor_key(
                    keyframes@[k],
                    detections@[k].marker_id,
                ),
            groups_by_key(keys@, groups@),
            factors@.len() == g,
            forall|a: int|
                0 <= a < g ==> {
                    let f = #[trigger] factors@[a];
                    &&& f.keyframe == keyframes@[groups@[a]@[0] as int]
                    &&& f.marker_id == detections@[groups@[a]@[0] as int].marker_id
                    &&& best_of(detections@, keyframes@, factor_key(f.keyframe, f.marker_id))
                        == Some(f.detection)
                },
        decreases groups.len() - g,
    {
        assert(groups@[g as int]@.len() > 0);
        assert(groups@[g as int]@[0] < keys@.len());
        let first: usize = groups[g][0];
        let detection = best_in_group(detections, keyframes, &keys, &groups, g);
        factors.push(
            BestFactor {
                keyframe: keyframes[first],
                marker_id: detections[first].marker_id,
                detection,
            },
        );
        g = g + 1;
    }
    proof {
        assert forall|a: int, b: int| 0 <= a < b < factors@.len() implies {
            let x = #[trigger] factors@[a];
            let y = #[trigger] factors@[b];
            x.keyframe < y.keyframe || (x.keyframe == y.keyframe && x.marker_id < y.marker_id)
        } by {
            let p = groups@[a]@[0] as int;
            let q = groups@[b]@[0] as int;
            assert(groups@[a]@.len() > 0 && groups@[b]@.len() > 0);
            assert(groups@[a]@[0] < keys@.len() && groups@[b]@[0] < keys@.len());
            assert(key_le(keys@[p], keys@[q]) && keys@[p] != keys@[q]);
            assert(keys@[p] == factor_key(keyframes@[p], detections@[p].marker_id));
            assert(keys@[q] == factor_key(keyframes@[q], detections@[q].marker_id));
            assert(keyframes@[p] <= i64::MAX && keyframes@[q] <= i64::MAX);
        }
        assert forall|a: int| 0 <= a < factors@.len() implies occurs(
            detections@,
            keyframes@,
            (#[trigger] factors@[a]).keyframe,
            factors@[a].marker_id,
        ) by {
            let p = groups@[a]@[0] as int;
            assert(groups@[a]@.len() > 0);
            assert(groups@[a]@[0] < keys@.len());
            assert(detections@[p].marker_id == factors@[a].marker_id);
        }
        assert forall|k: int| 0 <= k < detections@.len() implies #[trigger] has_factor(
            factors@,
            keyframes@[k],
            detections@[k].marker_id,
        ) by {
            assert(grouped_at(groups@, k));
            let (h, m) = choose|h: int, m: int|
                0 <= h < groups@.len() && 0 <= m < groups@[h]@.len() && (#[trigger] groups@[h]@[m])
                    == k;
            assert(keys@[groups@[h]@[m] as int] == keys@[groups@[h]@[0] as int]);
            let p = groups@[h]@[0] as int;
            assert(groups@[h]@[0] < keys@.len());
            assert(keys@[p] == factor_key(keyframes@[p], detections@[p].marker_id));
            assert(keys@[k] == factor_key(keyframes@[k], detections@[k].marker_id));
            assert(keyframes@[p] <= i64::MAX && keyframes@[k] <= i64::MAX);
            assert(factors@[h].keyframe == keyframes@[k]);
        }
    }
    factors
}

/// A factor's detection is of its keyframe and tag; no detection of that keyframe and tag has a lower
/// reprojection error, and none before it has the same. Stated for errors that are numbers.
pub proof fn lemma_best_factors_have_the_lowest_error(
    detections: Seq<Detection>,
    keyframes: Seq<usize>,
    factors: Seq<BestFactor>,
    a: int,
)
    requires
        keyframes.len() == detections.len(),
        forall|i: int| 0 <= i < keyframes.len() ==> (#[trigger] keyframes[i]) <= i64::MAX,
        forall|i: int| 0 <= i < detections.len() ==> !is_nan((#[trigger] detections[i]).reproj_px),
        are_best_factors(detections, keyframes, factors),
        0 <= a < factors.len(),
    ensures
        exists|i: int|
            {
                &&& 0 <= i < detections.len()
                &&& (#[trigger] detections[i]) == factors[a].detection
                &&& detections[i].marker_id == factors[a].marker_id
                &&& keyframes[i] == factors[a].keyframe
                &&& forall|j: int|
                    0 <= j < detections.len() && keyframes[j] == factors[a].keyframe && (
                    #[trigger] detections[j]).marker_id == factors[a].marker_id ==> !lt(
                        detections[j].reproj_px,
                        detections[i].reproj_px,
                    ) && (j < i ==> lt(detections[i].reproj_px, detections[j].reproj_px))
            },
{
    let f = factors[a];
    let key = factor_key(f.keyframe, f.marker_id);
    assert(occurs(detections, keyframes, f.keyframe, f.marker_id));
    let k = choose|k: int|
        0 <= k < detections.len() && (#[trigger] detections[k]).marker_id == f.marker_id
            && keyframes[k] == f.keyframe;
    assert(keyframes[k] <= i64::MAX);
    lemma_best_is_lowest(detections, keyframes, key);
    let i = choose|i: int|
        {
            &&& 0 <= i < detections.len()
            &&& (#[trigger] detections[i]) == f.detection
            &&& factor_key(keyframes[i], detections[i].marker_id) == key
            &&& forall|j: int|
                0 <= j < detections.len() && factor_key(
                    keyframes[j],
                    (#[trigger] detections[j]).marker_id,
                ) == key ==> !lt(detections[j].reproj_px, detections[i].reproj_px) && (j < i ==> lt(
                    detections[i].reproj_px,
                    detections[j].reproj_px,
                ))
        };
    assert(keyframes[i] <= i64::MAX);
    assert(detections[i] == f.detection);
}

proof fn lemma_best_is_lowest(detections: Seq<Detection>, keyframes: Seq<usize>, key: SortKey)
    requires
        forall|i: int| 0 <= i < detections.len() ==> !is_nan((#[trigger] detections[i]).reproj_px),
        best_of(detections, keyframes, key) is Some,
    ensures
        exists|i: int|
            {
                &&& 0 <= i < detections.len()
                &&& (#[trigger] detections[i]) == best_of(detections, keyframes, key)->0
                &&& factor_key(keyframes[i], detections[i].marker_id) == key
                &&& forall|j: int|
                    0 <= j < detections.len() && factor_key(
                        keyframes[j],
                        (#[trigger] detections[j]).marker_id,
                    ) == key ==> !lt(detections[j].reproj_px, detections[i].reproj_px) && (j < i
                        ==> lt(detections[i].reproj_px, detections[j].reproj_px))
            },
    decreases detections.len(),
{
    let front = detections.drop_last();
    let last = detections.len() - 1;
    let best = best_of(detections, keyframes, key)->0;
    assert forall|i: int| 0 <= i < front.len() implies !is_nan(
        (#[trigger] front[i]).reproj_px,
    ) by {
        assert(front[i] == detections[i]);
    }
    if best_of(front, keyframes, key) is Some {
        lemma_best_is_lowest(front, keyframes, key);
        let i = choose|i: int|
            {
                &&& 0 <= i < front.len()
                &&& (#[trigger] front[i]) == best_of(front, keyframes, key)->0
                &&& factor_key(keyframes[i], front[i].marker_id) == key
                &&& forall|j: int|
                    0 <= j < front.len() && factor_key(
                        keyframes[j],
                        (#[trigger] front[j]).marker_id,
                    ) == key ==> !lt(front[j].reproj_px, front[i].reproj_px) && (j < i ==> lt(
                        front[i].reproj_px,
                        front[j].reproj_px,
                    ))
            };
        assert(detections[i] == front[i]);
        assert(forall|j: int| 0 <= j < front.len() ==> #[trigger] detections[j] == front[j]);
        let of_key = factor_key(keyframes[last], detections[last].marker_id) == key;
        if of_key && !le(detections[i].reproj_px, detections[last].reproj_px) {
            assert(detections[last] == best);
            assert forall|j: int|
                0 <= j < detections.len() && factor_key(
                    keyframes[j],
                    (#[trigger] detections[j]).marker_id,
                ) == key implies !lt(detections[j].reproj_px, detections[last].reproj_px) && (j
                < last ==> lt(detections[last].reproj_px, detections[j].reproj_px)) by {
                if j < last {
                    assert(front[j] == detections[j]);
                }
            }
        } else {
            assert(detections[i] == best);
            assert forall|j: int|
                0 <= j < detections.len() && factor_key(
                    keyframes[j],
                    (#[trigger] detections[j]).marker_id,
                ) == key implies !lt(detections[j].reproj_px, detections[i].reproj_px) && (j < i
                ==> lt(detections[i].reproj_px, detections[j].reproj_px)) by {
                if j < last {
                    assert(front[j] == detections[j]);
                }
            }
        }
    } else {
        assert(detections[last] == best);
        assert forall|j: int|
            0 <= j < detections.len() && factor_key(
                keyframes[j],
                (#[trigger] detections[j]).marker_id,
            ) == key implies !lt(detections[j].reproj_px, detections[last].reproj_px) && (j < last
            ==> lt(detections[last].reproj_px, detections[j].reproj_px)) by {
            if j < last {
                lemma_none_of_key(front, keyframes, key, j);
            }
        }
    }
}

proof fn lemma_none_of_key(
    detections: Seq<Detection>,
    keyframes: Seq<usize>,
    key: SortKey,
    j: int,
)
    requires
        best_of(detections, keyframes, key) is None,
        0 <= j < detections.len(),
    ensures
        factor_key(keyframes[j], detections[j].marker_id) != key,
    decreases detections.len(),
{
    if j < detections.len() - 1 {
        lemma_none_of_key(detections.drop_last(), keyframes, key, j);
    }
}

// ---- revisits ----

/// Sightings further apart in time than this, in seconds, are separate visits: 30.
pub const VISIT_GAP_S: F64Bits = 0x403e_0000_0000_0000;

/// A tag closes a loop once it was visited so often.
pub const MIN_VISITS_FOR_LOOP: usize = 2;

/// The times with themselves as sort keys.
pub open spec fn keyed_times(times: Seq<F64Bits>) -> Seq<(SortKey, F64Bits)> {
    times.map_values(|t: F64Bits| (single_key(total_rank(t)), t))
}

/// The times in ascending order.
pub open spec fn times_in_order(times: Seq<F64Bits>) -> Seq<F64Bits> {
    stable_order(keyed_times(times)).map_values(|e: (SortKey, F64Bits)| e.1)
}

fn sorted_times(times: &[F64Bits]) -> (out: Vec<F64Bits>)
    ensures
        out@ == times_in_order(times@),
{
    let mut keyed: Vec<(SortKey, F64Bits)> = Vec::new();
    let mut i: usize = 0;
    assert(keyed@ =~= keyed_times(times@).take(0));
    while i < times.len()
        invariant
            i <= times.len(),
            keyed@ == keyed_times(times@).take(i as int),
        decreases times.len() - i,
    {
        keyed.push((SortKey { first: total_key(times[i]), second: 0, third: 0 }, times[i]));
        i = i + 1;
        assert(keyed@ =~= keyed_times(times@).take(i as int));
    }
    assert(keyed@ =~= keyed_times(times@));
    let sorted = stable_sort(&keyed);
    let mut out: Vec<F64Bits> = Vec::new();
    let mut k: usize = 0;
    assert(out@ =~= times_in_order(times@).take(0));
    while k < sorted.len()
        invariant
            k <= sorted.len(),
            sorted@ == stable_order(keyed_times(times@)),
            out@ == times_in_order(times@).take(k as int),
        decreases sorted.len() - k,
    {
        out.push(sorted[k].1);
        k = k + 1;
        assert(out@ =~= times_in_order(times@).take(k as int));
    }
    assert(out@ =~= times_in_order(times@));
    out
}

/// Whether all that `gap` can answer is what `oracle` says.
pub open spec fn spans_as<F: Fn(F64Bits, F64Bits) -> F64Bits>(
    gap: F,
    oracle: spec_fn(F64Bits, F64Bits) -> F64Bits,
) -> bool {
    forall|from: F64Bits, to: F64Bits, answer: F64Bits| #[trigger]
        call_ensures(gap, (from, to), answer) ==> answer == oracle(from, to)
}

/// How many visits the first `n` times, in ascending order, make up: one, and one more for each
/// time that is far behind the one before. `oracle` says how far one time is behind another.
pub open spec fn visits_of(
    times: Seq<F64Bits>,
    oracle: spec_fn(F64Bits, F64Bits) -> F64Bits,
    n: nat,
) -> nat
    decreases n,
{
    if n <= 1 {
        1
    } else {
        visits_of(times, oracle, (n - 1) as nat) + if lt(
            VISIT_GAP_S,
            oracle(times[n - 2], times[n - 1]),
        ) {
            1nat
        } else {
            0nat
        }
    }
}

/// The number of visits that the times of sightings make up. `gap` tells how far the second time
/// is behind the first.
pub fn count_visits<F: Fn(F64Bits, F64Bits) -> F64Bits>(times: &[F64Bits], gap: &F) -> (visits: usize)
    requires
        times@.len() > 0,
        forall|from: F64Bits, to: F64Bits| call_requires(*gap, (from, to)),
    ensures
        1 <= visits <= times@.len(),
        forall|oracle: spec_fn(F64Bits, F64Bits) -> F64Bits| #[trigger]
            spans_as(*gap, oracle) ==> visits == visits_of(
                times_in_order(times@),
                oracle,
                times@.len(),
            ),
{
    let sorted = sorted_times(times);
    proof {
        crate::order::lemma_stable_order_sorts(keyed_times(times@));
    }
    let mut visits: usize = 1;
    let mut n: usize = 1;
    while n < sorted.len()
        invariant
            1 <= n <= sorted@.len(),
            sorted@.len() == times@.len(),
            sorted@ == times_in_order(times@),
            forall|from: F64Bits, to: F64Bits| call_requires(*gap, (from, to)),
            1 <= visits <= n,
            forall|oracle: spec_fn(F64Bits, F64Bits) -> F64Bits| #[trigger]
                spans_as(*gap, oracle) ==> visits == visits_of(sorted@, oracle, n as nat),
        decreases sorted.len() - n,
    {
        if less(VISIT_GAP_S, gap(sorted[n - 1], sorted[n])) {
            visits = visits + 1;
        }
        n = n + 1;
    }
    visits
}

proof fn lemma_visit_gaps(
    times: Seq<F64Bits>,
    oracle: spec_fn(F64Bits, F64Bits) -> F64Bits,
    n: nat,
)
    requires
        1 <= n <= times.len(),
    ensures
        visits_of(times, oracle, n) == 1 + Set::new(
            |i: int| 1 <= i < n && lt(VISIT_GAP_S, oracle(times[i - 1], times[i])),
        ).len(),
        Set::new(
            |i: int| 1 <= i < n && lt(VISIT_GAP_S, oracle(times[i - 1], times[i])),
        ).finite(),
    decreases n,
{
    let gaps = Set::new(|i: int| 1 <= i < n && lt(VISIT_GAP_S, oracle(times[i - 1], times[i])));
    if n == 1 {
        assert(gaps =~= Set::empty());
    } else {
        lemma_visit_gaps(times, oracle, (n - 1) as nat);
        let before = Set::new(
            |i: int| 1 <= i < n - 1 && lt(VISIT_GAP_S, oracle(times[i - 1], times[i])),
        );
        if lt(VISIT_GAP_S, oracle(times[n - 2], times[n - 1])) {
            assert(gaps =~= before.insert(n - 1));
        } else {
            assert(gaps =~= before);
        }
    }
}

/// The visits are one more than the gaps of over thirty seconds between sightings that follow on each
/// other in time.
pub proof fn lemma_visits_are_split_by_gaps(
    times: Seq<F64Bits>,
    oracle: spec_fn(F64Bits, F64Bits) -> F64Bits,
)
    requires
        times.len() > 0,
    ensures
        visits_of(times, oracle, times.len()) == 1 + Set::new(
            |i: int|
                1 <= i < times.len() && lt(0x403e_0000_0000_0000, oracle(times[i - 1], times[i])),
        ).len(),
{
    lemma_visit_gaps(times, oracle, times.len());
    assert(Set::new(
        |i: int| 1 <= i < times.len() && lt(VISIT_GAP_S, oracle(times[i - 1], times[i])),
    ) =~= Set::new(
        |i: int|
            1 <= i < times.len() && lt(0x403e_0000_0000_0000, oracle(times[i - 1], times[i])),
    ));
}

/// Put in order, times never fall, and none is added or lost.
pub proof fn lemma_times_are_put_in_order(times: Seq<F64Bits>, i: int, j: int)
    requires
        0 <= i <= j < times.len(),
    ensures
        times_in_order(times).to_multiset() == times.to_multiset(),
        times_in_order(times).len() == times.len(),
        total_rank(times_in_order(times)[i]) <= total_rank(times_in_order(times)[j]),
{
    broadcast use vstd::seq_lib::group_to_multiset_ensures;

    let keyed = keyed_times(times);
    let sorted = stable_order(keyed);
    let time = |e: (SortKey, F64Bits)| e.1;
    crate::order::lemma_stable_order_sorts(keyed);
    lemma_map_keeps_multiset(sorted, keyed, time);
    assert(keyed.map_values(time) =~= times);
    assert forall|k: int| 0 <= k < sorted.len() implies (#[trigger] sorted[k]).0.first
        == total_rank(sorted[k].1) by {
        assert(sorted.to_multiset().count(sorted[k]) > 0) by {
            assert(sorted.contains(sorted[k]));
        }
        assert(keyed.contains(sorted[k]));
    }
    assert(key_le(sorted[i].0, sorted[j].0));
    assert(times_in_order(times)[i] == sorted[i].1 && times_in_order(times)[j] == sorted[j].1);
}

/// A tag was seen as often as it is among the markers.
pub proof fn lemma_sightings_are_counted(markers: Seq<i64>, marker_id: i64)
    ensures
        sightings(markers, marker_id) == markers.to_multiset().count(marker_id),
    decreases markers.len(),
{
    broadcast use vstd::seq_lib::group_to_multiset_ensures;
    broadcast use vstd::multiset::group_multiset_axioms;

    if markers.len() > 0 {
        lemma_sightings_are_counted(markers.drop_last(), marker_id);
        assert(markers.drop_last().push(markers.last()) =~= markers);
    }
}

/// How often the tag was seen.
pub open spec fn sightings(markers: Seq<i64>, marker_id: i64) -> nat
    decreases markers.len(),
{
    if markers.len() == 0 {
        0
    } else {
        sightings(markers.drop_last(), marker_id) + if markers.last() == marker_id {
            1nat
        } else {
            0nat
        }
    }
}

proof fn lemma_sightings_skip(markers: Seq<i64>, marker_id: i64, from: int, to: int)
    requires
        0 <= from <= to <= markers.len(),
        forall|i: int| from <= i < to ==> (#[trigger] markers[i]) != marker_id,
    ensures
        sightings(markers.take(to), marker_id) == sightings(markers.take(from), marker_id),
    decreases to - from,
{
    if from < to {
        lemma_sightings_skip(markers, marker_id, from, to - 1);
        assert(markers.take(to).drop_last() =~= markers.take(to - 1));
    }
}

spec fn marker_key(marker_id: i64) -> SortKey {
    SortKey { first: marker_id, second: 0, third: 0 }
}

proof fn lemma_group_counts(
    markers: Seq<i64>,
    keys: Seq<SortKey>,
    groups: Seq<Vec<usize>>,
    g: int,
    n: int,
)
    requires
        keys.len() == markers.len(),
        forall|i: int| 0 <= i < keys.len() ==> #[trigger] keys[i] == marker_key(markers[i]),
        groups_by_key(keys, groups),
        0 <= g < groups.len(),
        1 <= n <= groups[g]@.len(),
    ensures
        sightings(markers.take(groups[g]@[n - 1] + 1), markers[groups[g]@[0] as int]) == n,
    decreases n,
{
    let members = groups[g]@;
    let marker_id = markers[members[0] as int];
    let at = groups[g]@[n - 1] as int;
    assert(groups[g]@[0] < keys.len());
    assert(groups[g]@[n - 1] < keys.len() && keys[groups[g]@[n - 1] as int] == keys[groups[g]@[0] as int]);
    let from = if n == 1 {
        0
    } else {
        groups[g]@[n - 2] + 1
    };
    if n > 1 {
        lemma_group_counts(markers, keys, groups, g, n - 1);
        assert(groups[g]@[n - 2] < groups[g]@[n - 1]);
    } else {
        assert(markers.take(0) =~= Seq::empty());
    }
    assert forall|i: int| from <= i < at implies (#[trigger] markers[i]) != marker_id by {
        if markers[i] == marker_id {
            assert(keys[i] == marker_key(marker_id));
            assert(keys[members[0] as int] == marker_key(marker_id));
            lemma_group_members(keys, groups, g, i);
            let m = choose|m: int| 0 <= m < groups[g]@.len() && groups[g]@[m] == i;
            if m < n - 1 {
                if m < n - 2 {
                    assert(groups[g]@[m] < groups[g]@[n - 2]);
                }
            } else if m > n - 1 {
                assert(groups[g]@[n - 1] < groups[g]@[m]);
            }
        }
    }
    lemma_sightings_skip(markers, marker_id, from, at);
    assert(markers.take(at + 1).drop_last() =~= markers.take(at));
    assert(markers.take(at + 1).last() == markers[at]);
    assert(keys[at] == marker_key(markers[at]));
    assert(keys[members[0] as int] == marker_key(marker_id));
}

proof fn lemma_group_total(
    markers: Seq<i64>,
    keys: Seq<SortKey>,
    groups: Seq<Vec<usize>>,
    g: int,
)
    requires
        keys.len() == markers.len(),
        forall|i: int| 0 <= i < keys.len() ==> #[trigger] keys[i] == marker_key(markers[i]),
        groups_by_key(keys, groups),
        0 <= g < groups.len(),
    ensures
        sightings(markers, markers[groups[g]@[0] as int]) == groups[g]@.len(),
{
    let members = groups[g]@;
    assert(groups[g]@.len() > 0);
    let n = members.len() as int;
    let marker_id = markers[members[0] as int];
    let last = groups[g]@[n - 1] as int;
    lemma_group_counts(markers, keys, groups, g, n);
    assert(groups[g]@[0] < keys.len());
    assert(groups[g]@[n - 1] < keys.len());
    assert forall|i: int| last + 1 <= i < markers.len() implies (#[trigger] markers[i])
        != marker_id by {
        if markers[i] == marker_id {
            assert(keys[i] == marker_key(marker_id));
            assert(keys[members[0] as int] == marker_key(marker_id));
            lemma_group_members(keys, groups, g, i);
            let m = choose|m: int| 0 <= m < groups[g]@.len() && groups[g]@[m] == i;
            if m < n - 1 {
                assert(groups[g]@[m] < groups[g]@[n - 1]);
            }
        }
    }
    lemma_sightings_skip(markers, marker_id, last + 1, markers.len() as int);
    assert(markers.take(markers.len() as int) =~= markers);
}

/// The tag has an entry.
pub open spec fn is_counted(counts: Seq<(i64, usize)>, marker_id: i64) -> bool {
    exists|a: int| 0 <= a < counts.len() && (#[trigger] counts[a]).0 == marker_id
}

/// How often each tag was seen, by ascending tag.
pub fn marker_counts(markers: &[i64]) -> (counts: Vec<(i64, usize)>)
    ensures
        forall|a: int, b: int|
            0 <= a < b < counts@.len() ==> (#[trigger] counts@[a]).0 < (#[trigger] counts@[b]).0,
        forall|a: int|
            0 <= a < counts@.len() ==> (#[trigger] counts@[a]).1 > 0 && counts@[a].1 == sightings(
                markers@,
                counts@[a].0,
            ),
        forall|i: int| 0 <= i < markers@.len() ==> is_counted(counts@, #[trigger] markers@[i]),
{
    let mut keys: Vec<SortKey> = Vec::new();
    let mut i: usize = 0;
    while i < markers.len()
        invariant
            i <= markers.len(),
            keys@.len() == i,
            forall|k: int| 0 <= k < i ==> #[trigger] keys@[k] == marker_key(markers@[k]),
        decreases markers.len() - i,
    {
        keys.push(SortKey { first: markers[i], second: 0, third: 0 });
        i = i + 1;
    }
    let groups = group_by_key(&keys);
    let mut counts: Vec<(i64, usize)> = Vec::new();
    let mut g: usize = 0;
    while g < groups.len()
        invariant
            g <= groups.len(),
            keys@.len() == markers@.len(),
            forall|k: int| 0 <= k < keys@.len() ==> #[trigger] keys@[k] == marker_key(markers@[k]),
            groups_by_key(keys@, groups@),
            counts@.len() == g,
            forall|a: int|
                0 <= a < g ==> (#[trigger] counts@[a]).0 == markers@[groups@[a]@[0] as int]
                    && counts@[a].1 == groups@[a]@.len(),
        decreases groups.len() - g,
    {
        assert(groups@[g as int]@.len() > 0);
        assert(groups@[g as int]@[0] < keys@.len());
        counts.push((markers[groups[g][0]], groups[g].len()));
        g = g + 1;
    }
    proof {
        assert forall|a: int, b: int| 0 <= a < b < counts@.len() implies (#[trigger] counts@[a]).0
            < (#[trigger] counts@[b]).0 by {
            let p = groups@[a]@[0] as int;
            let q = groups@[b]@[0] as int;
            assert(groups@[a]@.len() > 0 && groups@[b]@.len() > 0);
            assert(groups@[a]@[0] < keys@.len() && groups@[b]@[0] < keys@.len());
            assert(key_le(keys@[p], keys@[q]) && keys@[p] != keys@[q]);
            assert(keys@[p] == marker_key(markers@[p]) && keys@[q] == marker_key(markers@[q]));
        }
        assert forall|a: int| 0 <= a < counts@.len() implies (#[trigger] counts@[a]).1 > 0
            && counts@[a].1 == sightings(markers@, counts@[a].0) by {
            assert(groups@[a]@.len() > 0);
            lemma_group_total(markers@, keys@, groups@, a);
        }
        assert forall|k: int| 0 <= k < markers@.len() implies is_counted(
            counts@,
            #[trigger] markers@[k],
        ) by {
            assert(grouped_at(groups@, k));
            let (h, m) = choose|h: int, m: int|
                0 <= h < groups@.len() && 0 <= m < groups@[h]@.len() && (#[trigger] groups@[h]@[m])
                    == k;
            assert(keys@[groups@[h]@[m] as int] == keys@[groups@[h]@[0] as int]);
            assert(groups@[h]@[0] < keys@.len());
            assert(keys@[k] == marker_key(markers@[k]));
            assert(keys@[groups@[h]@[0] as int] == marker_key(markers@[groups@[h]@[0] as int]));
            assert(counts@[h].0 == markers@[k]);
        }
    }
    counts
}

/// The times of the factors of a tag, in the order of the factors.
pub open spec fn factor_times(factors: Seq<BestFactor>, marker_id: i64) -> Seq<F64Bits>
    decreases factors.len(),
{
    if factors.len() == 0 {
        Seq::empty()
    } else if factors.last().marker_id == marker_id {
        factor_times(factors.drop_last(), marker_id).push(factors.last().detection.ts)
    } else {
        factor_times(factors.drop_last(), marker_id)
    }
}

/// The times of the factors of a tag, in the order of the factors.
pub fn visit_times(factors: &[BestFactor], marker_id: i64) -> (times: Vec<F64Bits>)
    ensures
        times@ == factor_times(factors@, marker_id),
{
    let mut times: Vec<F64Bits> = Vec::new();
    let mut i: usize = 0;
    assert(factors@.take(0) =~= Seq::empty());
    while i < factors.len()
        invariant
            i <= factors.len(),
            times@ == factor_times(factors@.take(i as int), marker_id),
        decreases factors.len() - i,
    {
        assert(factors@.take(i + 1).drop_last() =~= factors@.take(i as int));
        if factors[i].marker_id == marker_id {
            times.push(factors[i].detection.ts);
        }
        i = i + 1;
    }
    assert(factors@.take(i as int) =~= factors@);
    times
}

/// The times of a tag are those of its factors, all of them and in their order.
pub proof fn lemma_factor_times_are_of_the_tag(factors: Seq<BestFactor>, marker_id: i64)
    ensures
        factor_times(factors, marker_id) == factors.filter(
            |f: BestFactor| f.marker_id == marker_id,
        ).map_values(|f: BestFactor| f.detection.ts),
    decreases factors.len(),
{
    reveal_with_fuel(Seq::filter, 1);
    let of_tag = |f: BestFactor| f.marker_id == marker_id;
    let time = |f: BestFactor| f.detection.ts;
    if factors.len() > 0 {
        lemma_factor_times_are_of_the_tag(factors.drop_last(), marker_id);
        let front = factors.drop_last().filter(of_tag);
        if factors.last().marker_id == marker_id {
            assert(front.push(factors.last()).map_values(time) =~= front.map_values(time).push(
                time(factors.last()),
            ));
        }
    } else {
        assert(factors.filter(of_tag).map_values(time) =~= Seq::empty());
    }
}

/// What the report says of one tag.
#[derive(Clone, Copy, Debug)]
pub struct Revisit {
    pub marker_id: i64,
    pub raw_count: usize,
    pub visits: usize,
}

/// One line of the report.
pub open spec fn revisit_text(r: Revisit) -> Seq<char> {
    right_aligned(signed_text(r.marker_id as int), 4) + " | "@ + right_aligned(
        decimal_text(r.raw_count as nat),
        12,
    ) + " | "@ + right_aligned(decimal_text(r.visits as nat), 10) + " visit(s)"@ + (if r.visits
        >= MIN_VISITS_FOR_LOOP {
        ""@
    } else {
        "   <-- NOT REVISITED"@
    })
}

fn revisit_line(r: &Revisit) -> (line: String)
    ensures
        line@ == revisit_text(*r),
{
    let mut line = align_right(signed_decimal(r.marker_id).as_str(), 4);
    line.append(" | ");
    line.append(align_right(decimal(r.raw_count as u64).as_str(), 12).as_str());
    line.append(" | ");
    line.append(align_right(decimal(r.visits as u64).as_str(), 10).as_str());
    line.append(" visit(s)");
    if r.visits >= MIN_VISITS_FOR_LOOP {
        line.append("");
    } else {
        line.append("   <-- NOT REVISITED");
    }
    line
}

/// The tags that close no loop, in order.
pub open spec fn not_revisited(rows: Seq<Revisit>) -> Seq<Seq<char>>
    decreases rows.len(),
{
    if rows.len() == 0 {
        Seq::empty()
    } else if rows.last().visits < MIN_VISITS_FOR_LOOP {
        not_revisited(rows.drop_last()).push(signed_text(rows.last().marker_id as int))
    } else {
        not_revisited(rows.drop_last())
    }
}

/// Listed as closing no loop are the tags with fewer than two visits, all of them and in their order.
pub proof fn lemma_not_revisited_have_one_visit(rows: Seq<Revisit>)
    ensures
        not_revisited(rows) == rows.filter(|r: Revisit| r.visits < 2).map_values(
            |r: Revisit| signed_text(r.marker_id as int),
        ),
    decreases rows.len(),
{
    reveal_with_fuel(Seq::filter, 1);
    let once = |r: Revisit| r.visits < 2;
    let name = |r: Revisit| signed_text(r.marker_id as int);
    if rows.len() > 0 {
        lemma_not_revisited_have_one_visit(rows.drop_last());
        let front = rows.drop_last().filter(once);
        if rows.last().visits < 2 {
            assert(front.push(rows.last()).map_values(name) =~= front.map_values(name).push(
                name(rows.last()),
            ));
        }
    } else {
        assert(rows.filter(once).map_values(name) =~= Seq::empty());
    }
}

/// The last line of the report.
pub open spec fn unclosed_text(rows: Seq<Revisit>) -> Seq<char> {
    "\ntags with no loop-closure constraint: "@ + (if not_revisited(rows).len() == 0 {
        "none"@
    } else {
        "["@ + crate::text::joined(not_revisited(rows), ", "@) + "]"@
    }) + "\n"@
}

/// The report on how often tags were revisited: a heading, a line for each tag, and the tags
/// that close no loop.
pub fn report_revisits(rows: &[Revisit]) -> (lines: Vec<String>)
    ensures
        lines@.len() == rows@.len() + 2,
        lines@[0]@ == " tag | raw viewings | filtered revisits"@,
        forall|i: int|
            0 <= i < rows@.len() ==> (#[trigger] lines@[i + 1])@ == revisit_text(rows@[i]),
        lines@.last()@ == unclosed_text(rows@),
{
    let mut lines: Vec<String> = Vec::new();
    lines.push(" tag | raw viewings | filtered revisits".to_owned());
    let mut unclosed: Vec<String> = Vec::new();
    let mut i: usize = 0;
    assert(rows@.take(0) =~= Seq::empty());
    assert(crate::text::texts(unclosed@) =~= not_revisited(rows@.take(0)));
    while i < rows.len()
        invariant
            i <= rows.len(),
            lines@.len() == i + 1,
            lines@[0]@ == " tag | raw viewings | filtered revisits"@,
            forall|k: int| 1 <= k < i + 1 ==> (#[trigger] lines@[k])@ == revisit_text(rows@[k - 1]),
            crate::text::texts(unclosed@) == not_revisited(rows@.take(i as int)),
        decreases rows.len() - i,
    {
        lines.push(revisit_line(&rows[i]));
        assert(rows@.take(i + 1).drop_last() =~= rows@.take(i as int));
        if rows[i].visits < MIN_VISITS_FOR_LOOP {
            let ghost before = crate::text::texts(unclosed@);
            let name = signed_decimal(rows[i].marker_id);
            unclosed.push(name);
            assert(crate::text::texts(unclosed@) =~= before.push(name@));
        }
        i = i + 1;
    }
    assert(rows@.take(i as int) =~= rows@);
    let mut last = "\ntags with no loop-closure constraint: ".to_owned();
    assert(crate::text::texts(unclosed@).len() == unclosed@.len());
    if unclosed.len() == 0 {
        let mut tail = "none".to_owned();
        tail.append("\n");
        last.append(tail.as_str());
        assert(last@ =~= unclosed_text(rows@));
    } else {
        let mut tail = "[".to_owned();
        tail.append(crate::text::join(&unclosed, ", ").as_str());
        tail.append("]");
        tail.append("\n");
        last.append(tail.as_str());
        assert(last@ =~= unclosed_text(rows@));
    }
    lines.push(last);
    lines
}

// ---- the graph ----

/// One step of building the factor graph.
#[derive(Clone, Copy, Debug, PartialEq, Eq, Structural)]
pub enum GraphOp {
    /// The pose of a keyframe gets its first value.
    InsertPose { keyframe: usize },
    /// The first keyframe is anchored.
    Anchor,
    /// Two keyframes are joined by odometry.
    Odometry { from: usize, to: usize },
    /// The tag of a factor gets its first value.
    InsertLandmark { factor: usize },
    /// The keyframe and the tag of a factor are joined.
    Tag { factor: usize },
}

/// The steps for the first `n` keyframes.
pub open spec fn keyframe_ops(n: int) -> Seq<GraphOp>
    decreases n,
{
    if n <= 0 {
        Seq::empty()
    } else {
        keyframe_ops(n - 1).push(GraphOp::InsertPose { keyframe: (n - 1) as usize }).push(
            if n == 1 {
                GraphOp::Anchor
            } else {
                GraphOp::Odometry { from: (n - 2) as usize, to: (n - 1) as usize }
            },
        )
    }
}

/// The tags of the first `n` factors, each once, in the order in which they come.
pub open spec fn markers_of(factors: Seq<BestFactor>, n: int) -> Seq<i64>
    decreases n,
{
    if n <= 0 {
        Seq::empty()
    } else {
        let front = markers_of(factors, n - 1);
        if front.contains(factors[n - 1].marker_id) {
            front
        } else {
            front.push(factors[n - 1].marker_id)
        }
    }
}

/// The steps for the first `n` factors.
pub open spec fn factor_ops(factors: Seq<BestFactor>, n: int) -> Seq<GraphOp>
    decreases n,
{
    if n <= 0 {
        Seq::empty()
    } else {
        let front = factor_ops(factors, n - 1);
        let at = (n - 1) as usize;
        if markers_of(factors, n - 1).contains(factors[n - 1].marker_id) {
            front.push(GraphOp::Tag { factor: at })
        } else {
            front.push(GraphOp::InsertLandmark { factor: at }).push(GraphOp::Tag { factor: at })
        }
    }
}

/// The steps that build the graph: first the keyframes, each joined to the one before it,
/// then the factors, a tag's first value before its first factor. Also the tags, each once.
pub fn build_tag_graph(num_keyframes: usize, factors: &[BestFactor]) -> (r: (
    Vec<GraphOp>,
    Vec<i64>,
))
    ensures
        r.0@ == keyframe_ops(num_keyframes as int) + factor_ops(factors@, factors@.len() as int),
        r.1@ == markers_of(factors@, factors@.len() as int),
{
    let mut ops: Vec<GraphOp> = Vec::new();
    let mut index: usize = 0;
    while index < num_keyframes
        invariant
            index <= num_keyframes,
            ops@ == keyframe_ops(index as int),
        decreases num_keyframes - index,
    {
        ops.push(GraphOp::InsertPose { keyframe: index });
        if index == 0 {
            ops.push(GraphOp::Anchor);
        } else {
            ops.push(GraphOp::Odometry { from: index - 1, to: index });
        }
        index = index + 1;
    }
    let ghost head = ops@;
    let mut markers: Vec<i64> = Vec::new();
    let mut n: usize = 0;
    assert(ops@ =~= head + factor_ops(factors@, 0));
    while n < factors.len()
        invariant
            n <= factors.len(),
            ops@ == head + factor_ops(factors@, n as int),
            markers@ == markers_of(factors@, n as int),
        decreases factors.len() - n,
    {
        let marker_id: i64 = factors[n].marker_id;
        if !has_marker(&markers, marker_id) {
            markers.push(marker_id);
            ops.push(GraphOp::InsertLandmark { factor: n });
        }
        ops.push(GraphOp::Tag { factor: n });
        n = n + 1;
        assert(ops@ =~= head + factor_ops(factors@, n as int));
    }
    (ops, markers)
}

fn has_marker(markers: &[i64], marker_id: i64) -> (r: bool)
    ensures
        r == markers@.contains(marker_id),
{
    let mut i: usize = 0;
    while i < markers.len()
        invariant
            i <= markers.len(),
            forall|k: int| 0 <= k < i ==> markers@[k] != marker_id,
        decreases markers.len() - i,
    {
        if markers[i] == marker_id {
            return true;
        }
        i = i + 1;
    }
    false
}

/// How many of the steps add a factor.
pub open spec fn factor_count(ops: Seq<GraphOp>) -> nat
    decreases ops.len(),
{
    if ops.len() == 0 {
        0
    } else {
        factor_count(ops.drop_last()) + match ops.last() {
            GraphOp::InsertPose { .. } => 0nat,
            GraphOp::InsertLandmark { .. } => 0nat,
            _ => 1nat,
        }
    }
}

proof fn lemma_factor_count_push(ops: Seq<GraphOp>, op: GraphOp)
    ensures
        factor_count(ops.push(op)) == factor_count(ops) + match op {
            GraphOp::InsertPose { .. } => 0nat,
            GraphOp::InsertLandmark { .. } => 0nat,
            _ => 1nat,
        },
{
    assert(ops.push(op).drop_last() =~= ops);
}

proof fn lemma_factor_count_keyframes(n: int)
    requires
        0 <= n,
    ensures
        factor_count(keyframe_ops(n)) == n,
    decreases n,
{
    if n > 0 {
        lemma_factor_count_keyframes(n - 1);
        let front = keyframe_ops(n - 1);
        let pose = GraphOp::InsertPose { keyframe: (n - 1) as usize };
        lemma_factor_count_push(front, pose);
        lemma_factor_count_push(front.push(pose), keyframe_ops(n).last());
    }
}

/// The graph has one factor for each keyframe and one for each tag factor.
pub proof fn lemma_graph_size(num_keyframes: usize, factors: Seq<BestFactor>, n: int)
    requires
        0 <= n <= factors.len(),
    ensures
        factor_count(keyframe_ops(num_keyframes as int) + factor_ops(factors, n)) == num_keyframes
            + n,
    decreases n,
{
    let head = keyframe_ops(num_keyframes as int);
    if n == 0 {
        lemma_factor_count_keyframes(num_keyframes as int);
        assert(head + factor_ops(factors, 0) =~= head);
    } else {
        lemma_graph_size(num_keyframes, factors, n - 1);
        let front = factor_ops(factors, n - 1);
        let at = (n - 1) as usize;
        let tag = GraphOp::Tag { factor: at };
        let landmark = GraphOp::InsertLandmark { factor: at };
        if markers_of(factors, n - 1).contains(factors[n - 1].marker_id) {
            lemma_factor_count_push(head + front, tag);
            assert(head + front.push(tag) =~= (head + front).push(tag));
        } else {
            lemma_factor_count_push(head + front, landmark);
            lemma_factor_count_push((head + front).push(landmark), tag);
            assert(head + front.push(landmark).push(tag) =~= (head + front).push(landmark).push(
                tag,
            ));
        }
    }
}

proof fn lemma_keyframe_steps(n: int)
    requires
        0 <= n <= usize::MAX,
    ensures
        keyframe_ops(n).len() == 2 * n,
        forall|k: int|
            0 <= k < n ==> #[trigger] keyframe_ops(n)[2 * k] == (GraphOp::InsertPose {
                keyframe: k as usize,
            }),
        n > 0 ==> keyframe_ops(n)[1] == GraphOp::Anchor,
        forall|k: int|
            1 <= k < n ==> #[trigger] keyframe_ops(n)[2 * k + 1] == (GraphOp::Odometry {
                from: (k - 1) as usize,
                to: k as usize,
            }),
    decreases n,
{
    if n > 0 {
        lemma_keyframe_steps(n - 1);
        let front = keyframe_ops(n - 1);
        let all = keyframe_ops(n);
        assert forall|k: int| 0 <= k < n implies #[trigger] all[2 * k] == (GraphOp::InsertPose {
            keyframe: k as usize,
        }) by {
            if k < n - 1 {
                assert(front[2 * k] == all[2 * k]);
            }
        }
        assert forall|k: int| 1 <= k < n implies #[trigger] all[2 * k + 1] == (GraphOp::Odometry {
            from: (k - 1) as usize,
            to: k as usize,
        }) by {
            if k < n - 1 {
                assert(front[2 * k + 1] == all[2 * k + 1]);
            }
        }
        if n > 1 {
            assert(front[1] == all[1]);
        }
    }
}

/// The step is one for a keyframe.
spec fn is_keyframe_step(op: GraphOp) -> bool {
    op is InsertPose || op is Anchor || op is Odometry
}

/// The step behind a step.
pub open spec fn next_step(ops: Seq<GraphOp>, i: int) -> Option<GraphOp> {
    if i + 1 < ops.len() {
        Some(ops[i + 1])
    } else {
        None
    }
}

/// The factor is the first of its tag.
pub open spec fn is_first_of_tag(factors: Seq<BestFactor>, factor: int) -> bool {
    forall|earlier: int|
        0 <= earlier < factor ==> (#[trigger] factors[earlier]).marker_id
            != factors[factor].marker_id
}

/// The tags are those of the factors, each once, and in the order of their first factors.
pub proof fn lemma_tags_are_listed_once(factors: Seq<BestFactor>, n: int)
    requires
        0 <= n <= factors.len(),
    ensures
        forall|marker_id: i64|
            #[trigger] markers_of(factors, n).contains(marker_id) <==> exists|i: int|
                0 <= i < n && (#[trigger] factors[i]).marker_id == marker_id,
        markers_of(factors, n).no_duplicates(),
        forall|a: int, b: int, later: int|
            0 <= a < b < markers_of(factors, n).len() && 0 <= later < n && (
            #[trigger] factors[later]).marker_id == #[trigger] markers_of(factors, n)[b]
                ==> exists|i: int|
                0 <= i < later && (#[trigger] factors[i]).marker_id == #[trigger] markers_of(
                    factors,
                    n,
                )[a],
    decreases n,
{
    if n > 0 {
        lemma_tags_are_listed_once(factors, n - 1);
        let front = markers_of(factors, n - 1);
        let all = markers_of(factors, n);
        let last = factors[n - 1].marker_id;
        assert forall|marker_id: i64| #[trigger] all.contains(marker_id) <==> exists|i: int|
            0 <= i < n && (#[trigger] factors[i]).marker_id == marker_id by {
            assert(front.contains(marker_id) <==> exists|i: int|
                0 <= i < n - 1 && (#[trigger] factors[i]).marker_id == marker_id);
            if front.contains(marker_id) {
                let k = choose|k: int| 0 <= k < front.len() && front[k] == marker_id;
                assert(all[k] == marker_id);
            }
            if all.contains(marker_id) {
                let k = choose|k: int| 0 <= k < all.len() && all[k] == marker_id;
                if k < front.len() {
                    assert(front[k] == marker_id);
                } else {
                    assert(factors[n - 1].marker_id == marker_id);
                }
            }
            if exists|i: int| 0 <= i < n && (#[trigger] factors[i]).marker_id == marker_id {
                let i = choose|i: int| 0 <= i < n && (#[trigger] factors[i]).marker_id == marker_id;
                if i < n - 1 {
                    assert(front.contains(marker_id));
                } else if !front.contains(last) {
                    assert(all[front.len() as int] == last);
                }
            }
        }
        assert forall|a: int, b: int, later: int|
            0 <= a < b < all.len() && 0 <= later < n && (#[trigger] factors[later]).marker_id
                == #[trigger] all[b] implies exists|i: int|
            0 <= i < later && (#[trigger] factors[i]).marker_id == #[trigger] all[a] by {
            assert(all[a] == front[a]);
            if b < front.len() {
                assert(all[b] == front[b]);
                if later == n - 1 {
                    assert(front.contains(front[a]));
                }
            } else {
                if later < n - 1 {
                    assert(front.contains(last));
                }
                assert(front.contains(front[a]));
            }
        }
    }
}

proof fn lemma_factor_steps(factors: Seq<BestFactor>, n: int)
    requires
        0 <= n <= factors.len() <= usize::MAX,
    ensures
        ({
            let ops = factor_ops(factors, n);
            &&& forall|i: int| 0 <= i < ops.len() ==> !is_keyframe_step(#[trigger] ops[i])
            &&& forall|f: usize| #[trigger] ops.contains(GraphOp::Tag { factor: f }) <==> f < n
            &&& forall|f: usize| #[trigger]
                ops.contains(GraphOp::InsertLandmark { factor: f }) <==> f < n && is_first_of_tag(
                    factors,
                    f as int,
                )
            &&& forall|i: int|
                0 <= i < ops.len() && ops[i] is InsertLandmark ==> #[trigger] next_step(ops, i)
                    == Some(GraphOp::Tag { factor: ops[i]->InsertLandmark_factor })
            &&& forall|i: int, j: int|
                0 <= i < j < ops.len() && #[trigger] ops[i] is Tag && #[trigger] ops[j] is Tag
                    ==> ops[i]->Tag_factor < ops[j]->Tag_factor
        }),
    decreases n,
{
    if n > 0 {
        lemma_factor_steps(factors, n - 1);
        lemma_tags_are_listed_once(factors, n - 1);
        let front = factor_ops(factors, n - 1);
        let ops = factor_ops(factors, n);
        let at = (n - 1) as usize;
        let tag = GraphOp::Tag { factor: at };
        let landmark = GraphOp::InsertLandmark { factor: at };
        let known = markers_of(factors, n - 1).contains(factors[n - 1].marker_id);
        assert(known == !is_first_of_tag(factors, n - 1)) by {
            if known {
                let i = choose|i: int|
                    0 <= i < n - 1 && (#[trigger] factors[i]).marker_id
                        == factors[n - 1].marker_id;
                assert(factors[i].marker_id == factors[n - 1].marker_id);
            }
        }
        assert(ops.last() == tag);
        assert(ops[ops.len() - 1] == tag);
        if !known {
            assert(ops[front.len() as int] == landmark);
        }
        assert(forall|i: int| 0 <= i < front.len() ==> #[trigger] ops[i] == front[i]);
        assert forall|f: usize| #[trigger] ops.contains(GraphOp::Tag { factor: f }) <==> f < n by {
            let op = GraphOp::Tag { factor: f };
            assert(front.contains(op) <==> f < n - 1);
            if front.contains(op) {
                let i = choose|i: int| 0 <= i < front.len() && front[i] == op;
                assert(ops[i] == op);
            }
            if ops.contains(op) {
                let i = choose|i: int| 0 <= i < ops.len() && ops[i] == op;
                if i < front.len() {
                    assert(front[i] == op);
                }
            }
        }
        assert forall|f: usize| #[trigger]
            ops.contains(GraphOp::InsertLandmark { factor: f }) <==> f < n && is_first_of_tag(
                factors,
                f as int,
            ) by {
            let op = GraphOp::InsertLandmark { factor: f };
            assert(front.contains(op) <==> f < n - 1 && is_first_of_tag(factors, f as int));
            if front.contains(op) {
                let i = choose|i: int| 0 <= i < front.len() && front[i] == op;
                assert(ops[i] == op);
            }
            if ops.contains(op) {
                let i = choose|i: int| 0 <= i < ops.len() && ops[i] == op;
                if i < front.len() {
                    assert(front[i] == op);
                }
            }
        }
        assert forall|i: int, j: int|
            0 <= i < j < ops.len() && #[trigger] ops[i] is Tag && #[trigger] ops[j] is Tag implies
            ops[i]->Tag_factor < ops[j]->Tag_factor by {
            if i < front.len() {
                assert(front.contains(front[i]));
                assert(front.contains(GraphOp::Tag { factor: ops[i]->Tag_factor }));
            }
        }
        assert forall|i: int| 0 <= i < ops.len() && ops[i] is InsertLandmark implies
            #[trigger] next_step(ops, i) == Some(
            GraphOp::Tag { factor: ops[i]->InsertLandmark_factor },
        ) by {
            if i < front.len() {
                assert(front[i] == ops[i]);
                assert(next_step(front, i) is Some);
                assert(ops[i + 1] == front[i + 1]);
            }
        }
    }
}

/// The graph is a chain with tags hanging on it: each keyframe is joined by odometry to the one before
/// it and to no other, the first is anchored, each gets a first value before it is joined; each factor
/// joins its keyframe and tag once, and a tag gets its first value right before its first factor.
#[verifier::spinoff_prover]
#[verifier::rlimit(60)]
pub proof fn lemma_graph_is_a_chain_with_tags(num_keyframes: usize, factors: Seq<BestFactor>)
    requires
        factors.len() <= usize::MAX,
    ensures
        ({
            let n = num_keyframes;
            let ops = keyframe_ops(n as int) + factor_ops(factors, factors.len() as int);
            &&& forall|from: usize, to: usize| #[trigger]
                ops.contains(GraphOp::Odometry { from, to }) <==> from < n && to == from + 1 && to
                    < n
            &&& forall|k: usize| #[trigger]
                ops.contains(GraphOp::InsertPose { keyframe: k }) <==> k < n
            &&& ops.contains(GraphOp::Anchor) <==> n > 0
            &&& forall|i: int|
                0 <= i < ops.len() && ops[i] is InsertPose ==> #[trigger] next_step(ops, i) == Some(
                    if ops[i]->keyframe == 0 {
                        GraphOp::Anchor
                    } else {
                        GraphOp::Odometry {
                            from: (ops[i]->keyframe - 1) as usize,
                            to: ops[i]->keyframe,
                        }
                    },
                )
            &&& forall|f: usize| #[trigger]
                ops.contains(GraphOp::Tag { factor: f }) <==> f < factors.len()
            &&& forall|f: usize| #[trigger]
                ops.contains(GraphOp::InsertLandmark { factor: f }) <==> f < factors.len()
                    && is_first_of_tag(factors, f as int)
            &&& forall|i: int|
                0 <= i < ops.len() && ops[i] is InsertLandmark ==> #[trigger] next_step(ops, i)
                    == Some(GraphOp::Tag { factor: ops[i]->InsertLandmark_factor })
            &&& forall|i: int, j: int|
                0 <= i < j < ops.len() ==> #[trigger] ops[i] != #[trigger] ops[j]
        }),
{
    let n = num_keyframes as int;
    let head = keyframe_ops(n);
    let tail = factor_ops(factors, factors.len() as int);
    let ops = head + tail;
    lemma_keyframe_steps(n);
    lemma_factor_steps(factors, factors.len() as int);
    lemma_factor_steps_once(factors, factors.len() as int);
    assert(forall|i: int| 0 <= i < tail.len() ==> ops[head.len() + i] == #[trigger] tail[i]);
    assert forall|i: int| 0 <= i < head.len() implies is_keyframe_step(#[trigger] head[i]) && (if i
        % 2 == 0 {
        head[i] == (GraphOp::InsertPose { keyframe: (i / 2) as usize })
    } else if i == 1 {
        head[i] == GraphOp::Anchor
    } else {
        head[i] == (GraphOp::Odometry { from: (i / 2 - 1) as usize, to: (i / 2) as usize })
    }) by {
        let k = i / 2;
        if i % 2 == 0 {
            assert(head[2 * k] == head[i]);
        } else if i > 1 {
            assert(head[2 * k + 1] == head[i]);
        }
    }
    assert forall|from: usize, to: usize| #[trigger]
        ops.contains(GraphOp::Odometry { from, to }) <==> from < n && to == from + 1 && to < n by {
        let op = GraphOp::Odometry { from, to };
        if ops.contains(op) {
            let i = choose|i: int| 0 <= i < ops.len() && ops[i] == op;
            if i < head.len() {
                assert(head[i] == op);
            } else {
                assert(!is_keyframe_step(tail[i - head.len()]));
            }
        }
        if from < n && to == from + 1 && to < n {
            assert(head[2 * to + 1] == op);
            assert(ops[2 * to + 1] == op);
        }
    }
    assert forall|k: usize| #[trigger]
        ops.contains(GraphOp::InsertPose { keyframe: k }) <==> k < n by {
        let op = GraphOp::InsertPose { keyframe: k };
        if ops.contains(op) {
            let i = choose|i: int| 0 <= i < ops.len() && ops[i] == op;
            if i < head.len() {
                assert(head[i] == op);
            } else {
                assert(!is_keyframe_step(tail[i - head.len()]));
            }
        }
        if k < n {
            assert(head[2 * k] == op);
            assert(ops[2 * k] == op);
        }
    }
    assert(ops.contains(GraphOp::Anchor) <==> n > 0) by {
        if ops.contains(GraphOp::Anchor) {
            let i = choose|i: int| 0 <= i < ops.len() && ops[i] == GraphOp::Anchor;
            if i >= head.len() {
                assert(!is_keyframe_step(tail[i - head.len()]));
            }
        }
        if n > 0 {
            assert(ops[1] == GraphOp::Anchor);
        }
    }
    assert forall|i: int| 0 <= i < ops.len() && ops[i] is InsertPose implies
        #[trigger] next_step(ops, i) == Some(
        if ops[i]->keyframe == 0 {
            GraphOp::Anchor
        } else {
            GraphOp::Odometry { from: (ops[i]->keyframe - 1) as usize, to: ops[i]->keyframe }
        },
    ) by {
        if i < head.len() {
            assert(head[i] == ops[i]);
            assert(head[i + 1] == ops[i + 1]);
        } else {
            assert(!is_keyframe_step(tail[i - head.len()]));
        }
    }
    assert forall|f: usize| #[trigger]
        ops.contains(GraphOp::Tag { factor: f }) <==> f < factors.len() by {
        lemma_tail_contains(head, tail, GraphOp::Tag { factor: f });
    }
    assert forall|f: usize| #[trigger]
        ops.contains(GraphOp::InsertLandmark { factor: f }) <==> f < factors.len()
            && is_first_of_tag(factors, f as int) by {
        lemma_tail_contains(head, tail, GraphOp::InsertLandmark { factor: f });
    }
    assert forall|i: int| 0 <= i < ops.len() && ops[i] is InsertLandmark implies
        #[trigger] next_step(ops, i) == Some(
        GraphOp::Tag { factor: ops[i]->InsertLandmark_factor },
    ) by {
        if i < head.len() {
            assert(is_keyframe_step(head[i]));
        } else {
            assert(tail[i - head.len()] == ops[i]);
            assert(next_step(tail, i - head.len()) is Some);
            assert(ops[i + 1] == tail[i + 1 - head.len()]);
        }
    }
    assert forall|i: int, j: int| 0 <= i < j < ops.len() implies #[trigger] ops[i]
        != #[trigger] ops[j] by {
        if i < head.len() {
            assert(is_keyframe_step(head[i]));
            if j < head.len() {
                assert(is_keyframe_step(head[j]));
            } else {
                assert(!is_keyframe_step(tail[j - head.len()]));
            }
        } else {
            assert(tail[i - head.len()] != tail[j - head.len()]);
        }
    }
}

proof fn lemma_tail_contains(head: Seq<GraphOp>, tail: Seq<GraphOp>, op: GraphOp)
    requires
        forall|i: int| 0 <= i < head.len() ==> is_keyframe_step(#[trigger] head[i]),
        !is_keyframe_step(op),
    ensures
        (head + tail).contains(op) <==> tail.contains(op),
{
    let ops = head + tail;
    if ops.contains(op) {
        let i = choose|i: int| 0 <= i < ops.len() && ops[i] == op;
        if i < head.len() {
            assert(is_keyframe_step(head[i]));
        } else {
            assert(tail[i - head.len()] == op);
        }
    }
    if tail.contains(op) {
        let i = choose|i: int| 0 <= i < tail.len() && tail[i] == op;
        assert(ops[head.len() + i] == op);
    }
}

proof fn lemma_factor_steps_once(factors: Seq<BestFactor>, n: int)
    requires
        0 <= n <= factors.len() <= usize::MAX,
    ensures
        forall|i: int, j: int|
            0 <= i < j < factor_ops(factors, n).len() ==> #[trigger] factor_ops(factors, n)[i]
                != #[trigger] factor_ops(factors, n)[j],
    decreases n,
{
    if n > 0 {
        lemma_factor_steps_once(factors, n - 1);
        lemma_factor_steps(factors, n - 1);
        let front = factor_ops(factors, n - 1);
        let ops = factor_ops(factors, n);
        assert forall|i: int, j: int| 0 <= i < j < ops.len() implies #[trigger] ops[i]
            != #[trigger] ops[j] by {
            if i < front.len() {
                assert(front[i] == ops[i]);
                assert(front.contains(front[i]));
                if j < front.len() {
                    assert(front[j] == ops[j]);
                } else {
                    let at = (n - 1) as usize;
                    assert(!front.contains(GraphOp::Tag { factor: at }));
                    assert(!front.contains(GraphOp::InsertLandmark { factor: at }));
                }
            }
        }
    }
}

// ---- submaps and registration ----

/// A scan this far from the keyframe belongs to its submap.
pub open spec fn is_of_submap(
    keyframe: usize,
    gap: F64Bits,
    involved: Set<usize>,
    tuning: Tuning,
) -> bool {
    involved.contains(keyframe) && !lt(tuning.submap_half_s, gap)
}

/// Whether a scan is part of the submap of the keyframe nearest to it: the keyframe is one
/// of those involved, and `gap`, how far the scan is from it in time, is not too large.
pub fn joins_submap(
    keyframe: usize,
    gap: F64Bits,
    involved: &HashSet<usize>,
    tuning: &Tuning,
) -> (r: bool)
    ensures
        r == (involved@.contains(keyframe) && !lt(tuning.submap_half_s, gap)),
        r == is_of_submap(keyframe, gap, involved@, *tuning),
{
    broadcast use vstd::std_specs::hash::group_hash_axioms;

    involved.contains(&keyframe) && !less(tuning.submap_half_s, gap)
}

/// Whether all that `gap` can answer is what `oracle` says.
pub open spec fn lags_as<F: Fn(usize, usize) -> F64Bits>(
    gap: F,
    oracle: spec_fn(usize, usize) -> F64Bits,
) -> bool {
    forall|scan: usize, keyframe: usize, answer: F64Bits| #[trigger]
        call_ensures(gap, (scan, keyframe), answer) ==> answer == oracle(scan, keyframe)
}

/// How far a scan is from each of `n` keyframes in time.
pub open spec fn lags_of(
    scan: usize,
    n: nat,
    oracle: spec_fn(usize, usize) -> F64Bits,
) -> Seq<F64Bits> {
    Seq::new(n, |k: int| oracle(scan, k as usize))
}

/// The submap that a scan is part of is that of keyframe `submap`, or it is part of none: the
/// keyframe nearest in time takes it if it is involved in a pair and not too far away.
pub open spec fn is_submap_of(
    scan: usize,
    n: nat,
    oracle: spec_fn(usize, usize) -> F64Bits,
    involved: Set<usize>,
    half: F64Bits,
    submap: Option<usize>,
) -> bool {
    exists|k: usize|
        {
            &&& #[trigger] is_closest(lags_of(scan, n, oracle), k as int)
            &&& submap == (if involved.contains(k) && !lt(half, oracle(scan, k)) {
                Some(k)
            } else {
                None
            })
        }
}

/// For each scan the keyframe whose submap it is part of, if any. `gap` tells how far a scan is
/// from a keyframe in time.
pub fn assign_scans<F: Fn(usize, usize) -> F64Bits>(
    scans: usize,
    keyframes: usize,
    gap: &F,
    involved: &HashSet<usize>,
    tuning: &Tuning,
) -> (submaps: Vec<Option<usize>>)
    requires
        keyframes > 0,
        forall|scan: usize, keyframe: usize| call_requires(*gap, (scan, keyframe)),
    ensures
        submaps@.len() == scans,
        forall|oracle: spec_fn(usize, usize) -> F64Bits, i: usize|
            #![trigger lags_as(*gap, oracle), submaps@[i as int]]
            lags_as(*gap, oracle) && i < scans ==> is_submap_of(
                i,
                keyframes as nat,
                oracle,
                involved@,
                tuning.submap_half_s,
                submaps@[i as int],
            ),
{
    let mut submaps: Vec<Option<usize>> = Vec::with_capacity(scans);
    let mut i: usize = 0;
    while i < scans
        invariant
            i <= scans,
            keyframes > 0,
            forall|scan: usize, keyframe: usize| call_requires(*gap, (scan, keyframe)),
            submaps@.len() == i,
            forall|oracle: spec_fn(usize, usize) -> F64Bits, j: usize|
                #![trigger lags_as(*gap, oracle), submaps@[j as int]]
                lags_as(*gap, oracle) && j < i ==> is_submap_of(
                    j,
                    keyframes as nat,
                    oracle,
                    involved@,
                    tuning.submap_half_s,
                    submaps@[j as int],
                ),
        decreases scans - i,
    {
        let mut lags: Vec<F64Bits> = Vec::with_capacity(keyframes);
        let mut k: usize = 0;
        while k < keyframes
            invariant
                k <= keyframes,
                forall|scan: usize, keyframe: usize| call_requires(*gap, (scan, keyframe)),
                lags@.len() == k,
                forall|oracle: spec_fn(usize, usize) -> F64Bits| #[trigger]
                    lags_as(*gap, oracle) ==> lags@ == lags_of(i, k as nat, oracle),
            decreases keyframes - k,
        {
            let ghost earlier = lags@;
            lags.push(gap(i, k));
            proof {
                assert forall|oracle: spec_fn(usize, usize) -> F64Bits| #[trigger]
                    lags_as(*gap, oracle) implies lags@ =~= lags_of(i, (k + 1) as nat, oracle) by {
                    assert(earlier == lags_of(i, k as nat, oracle));
                }
            }
            k = k + 1;
        }
        let nearest: usize = closest_keyframe(&lags);
        let joins = joins_submap(nearest, lags[nearest], involved, tuning);
        submaps.push(
            if joins {
                Some(nearest)
            } else {
                None
            },
        );
        proof {
            assert forall|oracle: spec_fn(usize, usize) -> F64Bits| #[trigger]
                lags_as(*gap, oracle) implies is_submap_of(
                i,
                keyframes as nat,
                oracle,
                involved@,
                tuning.submap_half_s,
                submaps@[i as int],
            ) by {
                assert(lags@ == lags_of(i, keyframes as nat, oracle));
                assert(is_closest(lags_of(i, keyframes as nat, oracle), nearest as int));
                assert(oracle(i, nearest) == lags@[nearest as int]);
            }
        }
        i = i + 1;
    }
    submaps
}

/// The pairs of source and target points that are near enough; `hits[i]` is the target point
/// nearest to the `i`th source point, with its squared distance.
pub open spec fn near_pairs(hits: Seq<Option<(usize, F32Bits)>>, max_sq: F32Bits) -> Seq<
    (usize, usize),
>
    decreases hits.len(),
{
    if hits.len() == 0 {
        Seq::empty()
    } else {
        let front = near_pairs(hits.drop_last(), max_sq);
        match hits.last() {
            Some((target, dist_sq)) => if le32(dist_sq, max_sq) {
                front.push(((hits.len() - 1) as usize, target))
            } else {
                front
            },
            None => front,
        }
    }
}

/// The pairs of source and target points that are near enough.
pub fn correspondences(hits: &[Option<(usize, F32Bits)>], max_sq: F32Bits) -> (pairs: Vec<
    (usize, usize),
>)
    ensures
        pairs@ == near_pairs(hits@, max_sq),
{
    let mut pairs: Vec<(usize, usize)> = Vec::new();
    let mut i: usize = 0;
    assert(hits@.take(0) =~= Seq::empty());
    while i < hits.len()
        invariant
            i <= hits.len(),
            pairs@ == near_pairs(hits@.take(i as int), max_sq),
        decreases hits.len() - i,
    {
        assert(hits@.take(i + 1).drop_last() =~= hits@.take(i as int));
        assert(hits@.take(i + 1).last() == hits@[i as int]);
        if let Some((target, dist_sq)) = hits[i] {
            if at_most32(dist_sq, max_sq) {
                pairs.push((i, target));
            }
        }
        i = i + 1;
    }
    assert(hits@.take(i as int) =~= hits@);
    pairs
}

/// A source and a target point are paired exactly where the target was found for that source point
/// and is not too far from it; the pairs come in the order of the source points.
pub proof fn lemma_correspondences_pair_each_hit(
    hits: Seq<Option<(usize, F32Bits)>>,
    max_sq: F32Bits,
)
    requires
        hits.len() <= usize::MAX,
    ensures
        forall|source: usize, target: usize|
            #[trigger] near_pairs(hits, max_sq).contains((source, target)) <==> source < hits.len()
                && (hits[source as int] matches Some((found, dist_sq)) && found == target && le32(
                dist_sq,
                max_sq,
            )),
        forall|a: int, b: int|
            0 <= a < b < near_pairs(hits, max_sq).len() ==> (#[trigger] near_pairs(
                hits,
                max_sq,
            )[a]).0 < (#[trigger] near_pairs(hits, max_sq)[b]).0,
    decreases hits.len(),
{
    let all = near_pairs(hits, max_sq);
    if hits.len() > 0 {
        let front = near_pairs(hits.drop_last(), max_sq);
        let last = (hits.len() - 1) as usize;
        lemma_correspondences_pair_each_hit(hits.drop_last(), max_sq);
        assert forall|a: int| 0 <= a < front.len() implies (#[trigger] front[a]).0 < last by {
            assert(front.contains((front[a].0, front[a].1)));
        }
        assert forall|source: usize, target: usize| #[trigger]
            all.contains((source, target)) <==> source < hits.len() && (
        hits[source as int] matches Some((found, dist_sq)) && found == target && le32(
            dist_sq,
            max_sq,
        )) by {
            assert(front.contains((source, target)) <==> source < last && (
            hits[source as int] matches Some((found, dist_sq)) && found == target && le32(
                dist_sq,
                max_sq,
            )));
            if front.contains((source, target)) {
                let i = choose|i: int| 0 <= i < front.len() && front[i] == (source, target);
                assert(all[i] == (source, target));
            }
            if all.contains((source, target)) {
                let i = choose|i: int| 0 <= i < all.len() && all[i] == (source, target);
                if i < front.len() {
                    assert(front[i] == (source, target));
                }
            }
            if all.len() > front.len() {
                assert(all[front.len() as int].0 == last);
                assert(all.contains(all[front.len() as int]));
            }
        }
    }
}

/// At most so many steps are made.
pub const PLANE_MAX_ITERATIONS: usize = 30;

/// Below this change of fitness and error the registration has settled: 1e-6.
pub const PLANE_RELATIVE_CHANGE: F64Bits = 0x3eb0_c6f7_a0b5_ed8d;

/// What came of a step.
#[derive(Clone, Copy, Debug)]
pub enum PlaneOutcome {
    /// The equations had no solution.
    Singular,
    /// The transform was updated; fitness and error changed by so much.
    Moved { fitness_change: F64Bits, rmse_change: F64Bits },
}

/// After this outcome no further step is made.
pub open spec fn settles(outcome: PlaneOutcome) -> bool {
    match outcome {
        PlaneOutcome::Singular => true,
        PlaneOutcome::Moved { fitness_change, rmse_change } => lt(
            fitness_change,
            PLANE_RELATIVE_CHANGE,
        ) && lt(rmse_change, PLANE_RELATIVE_CHANGE),
    }
}

/// How far a point-to-plane registration has come.
#[derive(Clone, Copy, Debug)]
pub struct PlaneLoop {
    pub steps: usize,
    pub finished: bool,
}

impl PlaneLoop {
    /// A registration that has made no step.
    pub fn new() -> (r: PlaneLoop)
        ensures
            r.steps == 0,
            !r.finished,
    {
        PlaneLoop { steps: 0, finished: false }
    }

    /// Whether another step is made, with so many points matched.
    pub fn wants_step(&self, matched: usize) -> (r: bool)
        ensures
            r == (!self.finished && self.steps < PLANE_MAX_ITERATIONS && matched > 0),
    {
        !self.finished && self.steps < PLANE_MAX_ITERATIONS && matched > 0
    }

    /// Notes what came of a step.
    pub fn stepped(&mut self, outcome: PlaneOutcome)
        requires
            old(self).steps < PLANE_MAX_ITERATIONS,
        ensures
            final(self).steps == old(self).steps + 1,
            final(self).finished == settles(outcome),
    {
        self.steps = self.steps + 1;
        self.finished = match outcome {
            PlaneOutcome::Singular => true,
            PlaneOutcome::Moved { fitness_change, rmse_change } => less(
                fitness_change,
                PLANE_RELATIVE_CHANGE,
            ) && less(rmse_change, PLANE_RELATIVE_CHANGE),
        };
    }
}

/// A registration is good enough: enough of it fits, and closely.
pub open spec fn is_accepted(fitness: F64Bits, inlier_rmse: F64Bits, tuning: Tuning) -> bool {
    le(tuning.icp_fitness_min, fitness) && le(inlier_rmse, tuning.icp_rmse_max_m)
}

/// Whether a registration closes a loop.
pub fn accepts_closure(fitness: F64Bits, inlier_rmse: F64Bits, tuning: &Tuning) -> (r: bool)
    ensures
        r == (le(tuning.icp_fitness_min, fitness) && le(inlier_rmse, tuning.icp_rmse_max_m)),
        r == is_accepted(fitness, inlier_rmse, *tuning),
{
    at_most(tuning.icp_fitness_min, fitness) && at_most(inlier_rmse, tuning.icp_rmse_max_m)
}

// ---- loop closure candidates ----

/// How far apart two keyframes are: the squared distance, the distance, and the time.
#[derive(Clone, Copy, Debug)]
pub struct PairGap {
    pub dist_sq: F64Bits,
    pub distance: F64Bits,
    pub time_gap: F64Bits,
}

/// Two keyframes that may see the same place.
#[derive(Clone, Copy, Debug)]
pub struct Candidate {
    pub first: usize,
    pub second: usize,
    pub distance: F64Bits,
}

/// The keyframes are near in space and far apart in time.
pub open spec fn is_candidate(gap: PairGap, radius_sq: F64Bits, min_dt: F64Bits) -> bool {
    !lt(radius_sq, gap.dist_sq) && le(min_dt, gap.time_gap)
}

/// Whether all that `gap` can answer is what `oracle` says.
pub open spec fn pairs_as<F: Fn(usize, usize) -> PairGap>(
    gap: F,
    oracle: spec_fn(usize, usize) -> PairGap,
) -> bool {
    forall|first: usize, second: usize, answer: PairGap| #[trigger]
        call_ensures(gap, (first, second), answer) ==> answer == oracle(first, second)
}

/// The candidates that `first` makes with the keyframes behind it, up to keyframe `end`.
pub open spec fn candidates_with(
    first: usize,
    oracle: spec_fn(usize, usize) -> PairGap,
    radius_sq: F64Bits,
    min_dt: F64Bits,
    end: int,
) -> Seq<Candidate>
    decreases end - first,
{
    if end <= first + 1 {
        Seq::empty()
    } else {
        let front = candidates_with(first, oracle, radius_sq, min_dt, end - 1);
        let gap = oracle(first, (end - 1) as usize);
        if is_candidate(gap, radius_sq, min_dt) {
            front.push(Candidate { first, second: (end - 1) as usize, distance: gap.distance })
        } else {
            front
        }
    }
}

/// The candidates among the pairs of `n` keyframes whose first keyframe is below `firsts`.
pub open spec fn candidates_below(
    firsts: int,
    n: int,
    oracle: spec_fn(usize, usize) -> PairGap,
    radius_sq: F64Bits,
    min_dt: F64Bits,
) -> Seq<Candidate>
    decreases firsts,
{
    if firsts <= 0 {
        Seq::empty()
    } else {
        candidates_below(firsts - 1, n, oracle, radius_sq, min_dt) + candidates_with(
            (firsts - 1) as usize,
            oracle,
            radius_sq,
            min_dt,
            n,
        )
    }
}

/// The candidates among the pairs of `n` keyframes, in the order of the keyframes. `gap` tells
/// how far apart two keyframes are.
pub fn loop_candidates<F: Fn(usize, usize) -> PairGap>(
    n: usize,
    gap: &F,
    radius_sq: F64Bits,
    tuning: &Tuning,
) -> (out: Vec<Candidate>)
    requires
        forall|first: usize, second: usize| call_requires(*gap, (first, second)),
    ensures
        forall|oracle: spec_fn(usize, usize) -> PairGap| #[trigger]
            pairs_as(*gap, oracle) ==> out@ == candidates_below(
                n as int,
                n as int,
                oracle,
                radius_sq,
                tuning.icp_min_dt_s,
            ),
        forall|i: int|
            0 <= i < out@.len() ==> (#[trigger] out@[i]).first < out@[i].second < n,
{
    let mut out: Vec<Candidate> = Vec::new();
    let mut first: usize = 0;
    while first < n
        invariant
            first <= n,
            forall|a: usize, b: usize| call_requires(*gap, (a, b)),
            forall|i: int|
                0 <= i < out@.len() ==> (#[trigger] out@[i]).first < out@[i].second < n,
            forall|oracle: spec_fn(usize, usize) -> PairGap| #[trigger]
                pairs_as(*gap, oracle) ==> out@ == candidates_below(
                    first as int,
                    n as int,
                    oracle,
                    radius_sq,
                    tuning.icp_min_dt_s,
                ),
        decreases n - first,
    {
        let ghost before = out@;
        let mut second: usize = first + 1;
        proof {
            assert forall|oracle: spec_fn(usize, usize) -> PairGap| #[trigger]
                pairs_as(*gap, oracle) implies out@ =~= before + candidates_with(
                first,
                oracle,
                radius_sq,
                tuning.icp_min_dt_s,
                second as int,
            ) by {}
        }
        while second < n
            invariant
                first < n,
                first + 1 <= second <= n,
                forall|a: usize, b: usize| call_requires(*gap, (a, b)),
                forall|i: int|
                    0 <= i < out@.len() ==> (#[trigger] out@[i]).first < out@[i].second < n,
                forall|oracle: spec_fn(usize, usize) -> PairGap| #[trigger]
                    pairs_as(*gap, oracle) ==> out@ == before + candidates_with(
                        first,
                        oracle,
                        radius_sq,
                        tuning.icp_min_dt_s,
                        second as int,
                    ),
            decreases n - second,
        {
            let ghost earlier = out@;
            let between = gap(first, second);
            if !less(radius_sq, between.dist_sq) && at_most(tuning.icp_min_dt_s, between.time_gap) {
                out.push(Candidate { first, second, distance: between.distance });
            }
            proof {
                assert forall|oracle: spec_fn(usize, usize) -> PairGap| #[trigger]
                    pairs_as(*gap, oracle) implies out@ =~= before + candidates_with(
                    first,
                    oracle,
                    radius_sq,
                    tuning.icp_min_dt_s,
                    second + 1,
                ) by {
                    assert(earlier == before + candidates_with(
                        first,
                        oracle,
                        radius_sq,
                        tuning.icp_min_dt_s,
                        second as int,
                    ));
                }
            }
            second = second + 1;
        }
        first = first + 1;
    }
    out
}

proof fn lemma_candidates_with(
    first: usize,
    oracle: spec_fn(usize, usize) -> PairGap,
    radius_sq: F64Bits,
    min_dt: F64Bits,
    end: int,
)
    requires
        end <= usize::MAX,
    ensures
        ({
            let found = candidates_with(first, oracle, radius_sq, min_dt, end);
            &&& forall|c: Candidate| #[trigger]
                found.contains(c) <==> {
                    let gap = oracle(first, c.second);
                    &&& c.first == first
                    &&& first < c.second < end
                    &&& !lt(radius_sq, gap.dist_sq)
                    &&& le(min_dt, gap.time_gap)
                    &&& c.distance == gap.distance
                }
            &&& forall|i: int, j: int|
                0 <= i < j < found.len() ==> (#[trigger] found[i]).second < (
                #[trigger] found[j]).second
        }),
    decreases end - first,
{
    if end > first + 1 {
        lemma_candidates_with(first, oracle, radius_sq, min_dt, end - 1);
        let front = candidates_with(first, oracle, radius_sq, min_dt, end - 1);
        let found = candidates_with(first, oracle, radius_sq, min_dt, end);
        let last = (end - 1) as usize;
        assert forall|i: int| 0 <= i < front.len() implies (#[trigger] front[i]).second < last by {
            assert(front.contains(front[i]));
        }
        assert forall|c: Candidate| #[trigger] found.contains(c) <==> {
            let gap = oracle(first, c.second);
            &&& c.first == first
            &&& first < c.second < end
            &&& !lt(radius_sq, gap.dist_sq)
            &&& le(min_dt, gap.time_gap)
            &&& c.distance == gap.distance
        } by {
            if front.contains(c) {
                let i = choose|i: int| 0 <= i < front.len() && front[i] == c;
                assert(found[i] == c);
            }
            if found.contains(c) {
                let i = choose|i: int| 0 <= i < found.len() && found[i] == c;
                if i < front.len() {
                    assert(front[i] == c);
                    assert(front.contains(c));
                }
            }
            if found.len() > front.len() {
                assert(found[front.len() as int].second == last);
                if c == found[front.len() as int] {
                    assert(found.contains(c));
                }
            }
        }
    }
}

/// Two keyframes make a candidate exactly where they are not further apart than the radius and at
/// least as far apart in time as they have to be, whichever two they are; each two make one, with
/// their distance, and candidates come in the order of their keyframes.
pub proof fn lemma_candidates_are_near_and_apart(
    firsts: int,
    n: int,
    oracle: spec_fn(usize, usize) -> PairGap,
    radius_sq: F64Bits,
    min_dt: F64Bits,
)
    requires
        0 <= firsts <= n <= usize::MAX,
    ensures
        ({
            let found = candidates_below(firsts, n, oracle, radius_sq, min_dt);
            &&& forall|c: Candidate| #[trigger]
                found.contains(c) <==> {
                    let gap = oracle(c.first, c.second);
                    &&& c.first < firsts
                    &&& c.first < c.second < n
                    &&& !lt(radius_sq, gap.dist_sq)
                    &&& le(min_dt, gap.time_gap)
                    &&& c.distance == gap.distance
                }
            &&& forall|i: int, j: int|
                0 <= i < j < found.len() ==> {
                    let a = #[trigger] found[i];
                    let b = #[trigger] found[j];
                    a.first < b.first || (a.first == b.first && a.second < b.second)
                }
        }),
    decreases firsts,
{
    if firsts > 0 {
        let first = (firsts - 1) as usize;
        lemma_candidates_are_near_and_apart(firsts - 1, n, oracle, radius_sq, min_dt);
        lemma_candidates_with(first, oracle, radius_sq, min_dt, n);
        let front = candidates_below(firsts - 1, n, oracle, radius_sq, min_dt);
        let more = candidates_with(first, oracle, radius_sq, min_dt, n);
        let found = candidates_below(firsts, n, oracle, radius_sq, min_dt);
        assert forall|c: Candidate| #[trigger] found.contains(c) <==> front.contains(c)
            || more.contains(c) by {
            if found.contains(c) {
                let i = choose|i: int| 0 <= i < found.len() && found[i] == c;
                if i < front.len() {
                    assert(front[i] == c);
                } else {
                    assert(more[i - front.len()] == c);
                }
            }
            if front.contains(c) {
                let i = choose|i: int| 0 <= i < front.len() && front[i] == c;
                assert(found[i] == c);
            }
            if more.contains(c) {
                let i = choose|i: int| 0 <= i < more.len() && more[i] == c;
                assert(found[front.len() + i] == c);
            }
        }
        assert forall|i: int, j: int| 0 <= i < j < found.len() implies {
            let a = #[trigger] found[i];
            let b = #[trigger] found[j];
            a.first < b.first || (a.first == b.first && a.second < b.second)
        } by {
            if j < front.len() {
                assert(front[i] == found[i] && front[j] == found[j]);
            } else {
                assert(more[j - front.len()] == found[j]);
                assert(more.contains(found[j]));
                if i < front.len() {
                    assert(front[i] == found[i]);
                    assert(front.contains(found[i]));
                } else {
                    assert(more[i - front.len()] == found[i]);
                    assert(more.contains(found[i]));
                }
            }
        }
    }
}

/// The candidates with their distances as sort keys.
pub open spec fn keyed_candidates(candidates: Seq<Candidate>) -> Seq<(SortKey, (usize, usize))> {
    candidates.map_values(|c: Candidate| (single_key(total_rank(c.distance)), (c.first, c.second)))
}

/// The pairs of the candidates, nearest first, pairs of one distance in the order they had.
pub open spec fn nearest_first(candidates: Seq<Candidate>) -> Seq<(usize, usize)> {
    stable_order(keyed_candidates(candidates)).map_values(|e: (SortKey, (usize, usize))| e.1)
}

proof fn lemma_nearest_first_pairs(candidates: Seq<Candidate>, n: int)
    requires
        forall|i: int|
            0 <= i < candidates.len() ==> (#[trigger] candidates[i]).first < n
                && candidates[i].second < n,
    ensures
        forall|i: int|
            0 <= i < nearest_first(candidates).len() ==> (#[trigger] nearest_first(
                candidates,
            )[i]).0 < n && nearest_first(candidates)[i].1 < n,
{
    let keyed = keyed_candidates(candidates);
    let sorted = stable_order(keyed);
    crate::order::lemma_stable_order_sorts(keyed);
    keyed.to_multiset_ensures();
    sorted.to_multiset_ensures();
    assert forall|i: int| 0 <= i < nearest_first(candidates).len() implies (
    #[trigger] nearest_first(candidates)[i]).0 < n && nearest_first(candidates)[i].1 < n by {
        assert(sorted.contains(sorted[i]));
        assert(sorted.to_multiset().count(sorted[i]) > 0);
        assert(keyed.contains(sorted[i]));
        let k = choose|k: int| 0 <= k < keyed.len() && keyed[k] == sorted[i];
        assert(candidates[k].first < n);
    }
}

/// The pairs of the candidates, nearest first.
pub fn order_candidates(candidates: &[Candidate]) -> (pairs: Vec<(usize, usize)>)
    ensures
        pairs@ == nearest_first(candidates@),
{
    let mut keyed: Vec<(SortKey, (usize, usize))> = Vec::new();
    let mut i: usize = 0;
    assert(keyed@ =~= keyed_candidates(candidates@).take(0));
    while i < candidates.len()
        invariant
            i <= candidates.len(),
            keyed@ == keyed_candidates(candidates@).take(i as int),
        decreases candidates.len() - i,
    {
        let c = candidates[i];
        keyed.push(
            (SortKey { first: total_key(c.distance), second: 0, third: 0 }, (c.first, c.second)),
        );
        i = i + 1;
        assert(keyed@ =~= keyed_candidates(candidates@).take(i as int));
    }
    assert(keyed@ =~= keyed_candidates(candidates@));
    let sorted = stable_sort(&keyed);
    let mut pairs: Vec<(usize, usize)> = Vec::new();
    let mut k: usize = 0;
    assert(pairs@ =~= nearest_first(candidates@).take(0));
    while k < sorted.len()
        invariant
            k <= sorted.len(),
            sorted@ == stable_order(keyed_candidates(candidates@)),
            pairs@ == nearest_first(candidates@).take(k as int),
        decreases sorted.len() - k,
    {
        pairs.push(sorted[k].1);
        k = k + 1;
        assert(pairs@ =~= nearest_first(candidates@).take(k as int));
    }
    assert(pairs@ =~= nearest_first(candidates@));
    pairs
}

/// Candidates are neither added nor lost; one that is nearer comes before one that is further off, and
/// of two at one distance the one that came first.
pub proof fn lemma_nearest_candidates_come_first(candidates: Seq<Candidate>, a: int, b: int)
    requires
        0 <= a < candidates.len(),
        0 <= b < candidates.len(),
        total_rank(candidates[a].distance) < total_rank(candidates[b].distance) || (
        candidates[a].distance == candidates[b].distance && a < b),
    ensures
        nearest_first(candidates).to_multiset() == candidates.map_values(
            |c: Candidate| (c.first, c.second),
        ).to_multiset(),
        stands_before(
            nearest_first(candidates),
            (candidates[a].first, candidates[a].second),
            (candidates[b].first, candidates[b].second),
        ),
{
    let keyed = keyed_candidates(candidates);
    let sorted = stable_order(keyed);
    let pair = |e: (SortKey, (usize, usize))| e.1;
    crate::order::lemma_stable_order_sorts(keyed);
    crate::order::lemma_stable_order_places(keyed, a, b);
    let (i, j) = choose|i: int, j: int|
        0 <= i < j < sorted.len() && #[trigger] sorted[i] == keyed[a] && #[trigger] sorted[j]
            == keyed[b];
    assert(nearest_first(candidates)[i] == (candidates[a].first, candidates[a].second));
    assert(nearest_first(candidates)[j] == (candidates[b].first, candidates[b].second));
    lemma_map_keeps_multiset(sorted, keyed, pair);
    assert(keyed.map_values(pair) =~= candidates.map_values(|c: Candidate| (c.first, c.second)));
}

pub(crate) proof fn lemma_map_keeps_multiset<A, B>(a: Seq<A>, b: Seq<A>, f: spec_fn(A) -> B)
    requires
        a.to_multiset() == b.to_multiset(),
    ensures
        a.map_values(f).to_multiset() == b.map_values(f).to_multiset(),
    decreases a.len(),
{
    broadcast use vstd::seq_lib::group_to_multiset_ensures;
    broadcast use vstd::multiset::group_multiset_axioms;

    assert(a.len() == a.to_multiset().len());
    assert(b.len() == b.to_multiset().len());
    if a.len() > 0 {
        let x = a.last();
        assert(a.to_multiset().count(x) > 0) by {
            assert(a.contains(a[a.len() - 1]));
        }
        assert(b.contains(x));
        let k = choose|k: int| 0 <= k < b.len() && b[k] == x;
        let front = a.drop_last();
        let rest = b.remove(k);
        assert(front.push(x) =~= a);
        assert(a.to_multiset() =~= front.to_multiset().insert(x));
        assert(rest.to_multiset() =~= b.to_multiset().remove(x));
        assert(front.to_multiset() =~= rest.to_multiset());
        lemma_map_keeps_multiset(front, rest, f);
        assert(a.map_values(f) =~= front.map_values(f).push(f(x)));
        assert(b.map_values(f).remove(k) =~= rest.map_values(f));
        assert(b.map_values(f)[k] == f(x));
        assert(rest.map_values(f).to_multiset() =~= b.map_values(f).to_multiset().remove(f(x)));
        assert(b.map_values(f).to_multiset().count(f(x)) > 0) by {
            assert(b.map_values(f).contains(b.map_values(f)[k]));
        }
        assert(a.map_values(f).to_multiset() =~= front.map_values(f).to_multiset().insert(f(x)));
        assert(a.map_values(f).to_multiset() =~= b.map_values(f).to_multiset());
    } else {
        assert(a.map_values(f) =~= b.map_values(f));
    }
}

/// The pairs that stay when each section of the path may be used by one pair only, taken in
/// their order, and the sections that they use.
pub open spec fn thinned(pairs: Seq<(usize, usize)>, sections: Seq<i64>) -> (
    Seq<(usize, usize)>,
    Set<i64>,
)
    decreases pairs.len(),
{
    if pairs.len() == 0 {
        (Seq::empty(), Set::empty())
    } else {
        let (kept, used) = thinned(pairs.drop_last(), sections);
        let (first, second) = pairs.last();
        let a = sections[first as int];
        let b = sections[second as int];
        if used.contains(a) || used.contains(b) {
            (kept, used)
        } else {
            (kept.push(pairs.last()), used.insert(a).insert(b))
        }
    }
}

/// Keeps at most one pair for each section of the path, in the order of the pairs;
/// `sections[i]` is the section that keyframe `i` lies in. Where `section_length` is not
/// positive, all pairs stay.
pub fn thin_pairs_by_path_section(
    pairs: &[(usize, usize)],
    sections: &[i64],
    section_length: F64Bits,
) -> (kept: Vec<(usize, usize)>)
    requires
        !le(section_length, 0) ==> forall|i: int|
            0 <= i < pairs@.len() ==> (#[trigger] pairs@[i]).0 < sections@.len() && pairs@[i].1
                < sections@.len(),
    ensures
        kept@ == if le(section_length, 0) {
            pairs@
        } else {
            thinned(pairs@, sections@).0
        },
{
    broadcast use vstd::std_specs::hash::group_hash_axioms;

    let mut kept: Vec<(usize, usize)> = Vec::new();
    let keep_all: bool = at_most(section_length, 0);
    let mut used: HashSet<i64> = HashSet::new();
    let mut i: usize = 0;
    assert(pairs@.take(0) =~= Seq::empty());
    assert(used@ =~= Set::empty());
    while i < pairs.len()
        invariant
            i <= pairs.len(),
            keep_all == le(section_length, 0),
            !keep_all ==> forall|k: int|
                0 <= k < pairs@.len() ==> (#[trigger] pairs@[k]).0 < sections@.len() && pairs@[k].1
                    < sections@.len(),
            keep_all ==> kept@ == pairs@.take(i as int),
            !keep_all ==> kept@ == thinned(pairs@.take(i as int), sections@).0 && used@ == thinned(
                pairs@.take(i as int),
                sections@,
            ).1,
        decreases pairs.len() - i,
    {
        broadcast use vstd::std_specs::hash::group_hash_axioms;

        assert(pairs@.take(i + 1).drop_last() =~= pairs@.take(i as int));
        assert(pairs@.take(i + 1).last() == pairs@[i as int]);
        let pair = pairs[i];
        if keep_all {
            kept.push(pair);
            assert(kept@ =~= pairs@.take(i + 1));
        } else {
            let a: i64 = sections[pair.0];
            let b: i64 = sections[pair.1];
            if !used.contains(&a) && !used.contains(&b) {
                used.insert(a);
                used.insert(b);
                kept.push(pair);
            }
        }
        i = i + 1;
    }
    assert(pairs@.take(i as int) =~= pairs@);
    kept
}

/// The pairs to register: the candidates, nearest first, thinned to one for each section of the
/// path unless the sections have no length.
pub open spec fn chosen_pairs(
    n: int,
    oracle: spec_fn(usize, usize) -> PairGap,
    radius_sq: F64Bits,
    min_dt: F64Bits,
    sections: Seq<i64>,
    section_length: F64Bits,
) -> Seq<(usize, usize)> {
    let ordered = nearest_first(candidates_below(n, n, oracle, radius_sq, min_dt));
    if le(section_length, 0) {
        ordered
    } else {
        thinned(ordered, sections).0
    }
}

/// The pairs of keyframes to register, and how many candidates they were chosen from.
/// `sections[i]` is the section of the path that keyframe `i` lies in.
pub fn choose_pairs<F: Fn(usize, usize) -> PairGap>(
    gap: &F,
    radius_sq: F64Bits,
    sections: &[i64],
    section_length: F64Bits,
    tuning: &Tuning,
) -> (r: (Vec<(usize, usize)>, usize))
    requires
        forall|first: usize, second: usize| call_requires(*gap, (first, second)),
    ensures
        forall|oracle: spec_fn(usize, usize) -> PairGap| #[trigger]
            pairs_as(*gap, oracle) ==> r.0@ == chosen_pairs(
                sections@.len() as int,
                oracle,
                radius_sq,
                tuning.icp_min_dt_s,
                sections@,
                section_length,
            ) && r.1 == candidates_below(
                sections@.len() as int,
                sections@.len() as int,
                oracle,
                radius_sq,
                tuning.icp_min_dt_s,
            ).len(),
{
    let candidates = loop_candidates(sections.len(), gap, radius_sq, tuning);
    let ordered = order_candidates(&candidates);
    proof {
        assert forall|i: int| 0 <= i < candidates@.len() implies (#[trigger] candidates@[i]).first
            < sections@.len() && candidates@[i].second < sections@.len() by {}
        lemma_nearest_first_pairs(candidates@, sections@.len() as int);
    }
    (thin_pairs_by_path_section(&ordered, sections, section_length), candidates.len())
}

/// The section is one of the pair's.
pub open spec fn in_section(pair: (usize, usize), sections: Seq<i64>, section: i64) -> bool {
    sections[pair.0 as int] == section || sections[pair.1 as int] == section
}

proof fn lemma_thinned_uses(pairs: Seq<(usize, usize)>, sections: Seq<i64>)
    ensures
        forall|a: int, section: i64|
            0 <= a < thinned(pairs, sections).0.len() && #[trigger] in_section(
                thinned(pairs, sections).0[a],
                sections,
                section,
            ) ==> thinned(pairs, sections).1.contains(section),
    decreases pairs.len(),
{
    if pairs.len() > 0 {
        lemma_thinned_uses(pairs.drop_last(), sections);
        let front = thinned(pairs.drop_last(), sections);
        let all = thinned(pairs, sections);
        assert forall|a: int, section: i64|
            0 <= a < all.0.len() && #[trigger] in_section(
                all.0[a],
                sections,
                section,
            ) implies all.1.contains(section) by {
            if a < front.0.len() {
                assert(all.0[a] == front.0[a]);
                assert(in_section(front.0[a], sections, section));
            }
        }
    }
}

/// No two of the pairs that stay share a section.
pub proof fn lemma_thinned_sections_once(pairs: Seq<(usize, usize)>, sections: Seq<i64>)
    ensures
        forall|a: int, b: int, section: i64|
            0 <= a < b < thinned(pairs, sections).0.len() ==> !(#[trigger] in_section(
                thinned(pairs, sections).0[a],
                sections,
                section,
            ) && #[trigger] in_section(thinned(pairs, sections).0[b], sections, section)),
    decreases pairs.len(),
{
    if pairs.len() > 0 {
        lemma_thinned_sections_once(pairs.drop_last(), sections);
        lemma_thinned_uses(pairs.drop_last(), sections);
        let front = thinned(pairs.drop_last(), sections);
        let all = thinned(pairs, sections);
        assert forall|a: int, b: int, section: i64| 0 <= a < b < all.0.len() implies !(
        #[trigger] in_section(all.0[a], sections, section) && #[trigger] in_section(
            all.0[b],
            sections,
            section,
        )) by {
            assert(all.0[a] == front.0[a]);
            if b < front.0.len() {
                assert(all.0[b] == front.0[b]);
            } else if in_section(front.0[a], sections, section) {
                assert(front.1.contains(section));
            }
        }
    }
}

/// The section is used by one of the pairs that stay.
pub open spec fn is_used(kept: Seq<(usize, usize)>, sections: Seq<i64>, section: i64) -> bool {
    exists|a: int| 0 <= a < kept.len() && #[trigger] in_section(kept[a], sections, section)
}

proof fn lemma_thinned_used(pairs: Seq<(usize, usize)>, sections: Seq<i64>, section: i64)
    requires
        thinned(pairs, sections).1.contains(section),
    ensures
        is_used(thinned(pairs, sections).0, sections, section),
    decreases pairs.len(),
{
    if pairs.len() > 0 {
        let front = thinned(pairs.drop_last(), sections);
        let all = thinned(pairs, sections);
        if front.1.contains(section) {
            lemma_thinned_used(pairs.drop_last(), sections, section);
            let a = choose|a: int|
                0 <= a < front.0.len() && #[trigger] in_section(front.0[a], sections, section);
            assert(all.0[a] == front.0[a]);
            assert(in_section(all.0[a], sections, section));
        } else {
            assert(in_section(all.0[front.0.len() as int], sections, section));
        }
    }
}

proof fn lemma_thinned_grows(pairs: Seq<(usize, usize)>, sections: Seq<i64>, n: int)
    requires
        0 <= n <= pairs.len(),
    ensures
        thinned(pairs.take(n), sections).0.is_prefix_of(thinned(pairs, sections).0),
    decreases pairs.len(),
{
    let part = thinned(pairs.take(n), sections).0;
    if n == pairs.len() {
        assert(pairs.take(n) =~= pairs);
        assert(part.take(part.len() as int) =~= part);
    } else {
        let front = pairs.drop_last();
        lemma_thinned_grows(front, sections, n);
        assert(front.take(n) =~= pairs.take(n));
        let kept = thinned(front, sections).0;
        let all = thinned(pairs, sections).0;
        assert(all.take(part.len() as int) =~= kept.take(part.len() as int));
    }
}

/// Thinning is greedy: a pair stays exactly where none of the pairs that stand before it and stay
/// uses one of its sections, and what stays of the first pairs stays of all of them, in front.
pub proof fn lemma_thinned_is_greedy(pairs: Seq<(usize, usize)>, sections: Seq<i64>, i: int)
    requires
        0 <= i < pairs.len(),
    ensures
        ({
            let before = thinned(pairs.take(i), sections).0;
            let after = thinned(pairs.take(i + 1), sections).0;
            let taken = is_used(before, sections, sections[pairs[i].0 as int]) || is_used(
                before,
                sections,
                sections[pairs[i].1 as int],
            );
            &&& after == if taken {
                before
            } else {
                before.push(pairs[i])
            }
            &&& after.is_prefix_of(thinned(pairs, sections).0)
        }),
{
    let front = pairs.take(i);
    let more = pairs.take(i + 1);
    let x = sections[pairs[i].0 as int];
    let y = sections[pairs[i].1 as int];
    assert(more.drop_last() =~= front);
    assert(more.last() == pairs[i]);
    lemma_thinned_uses(front, sections);
    if thinned(front, sections).1.contains(x) {
        lemma_thinned_used(front, sections, x);
    }
    if thinned(front, sections).1.contains(y) {
        lemma_thinned_used(front, sections, y);
    }
    lemma_thinned_grows(pairs, sections, i + 1);
}

proof fn lemma_thinned_from(pairs: Seq<(usize, usize)>, sections: Seq<i64>, kept: (usize, usize))
    requires
        thinned(pairs, sections).0.contains(kept),
    ensures
        pairs.contains(kept),
    decreases pairs.len(),
{
    let all = thinned(pairs, sections).0;
    let i = choose|i: int| 0 <= i < all.len() && all[i] == kept;
    let front = thinned(pairs.drop_last(), sections).0;
    if i < front.len() {
        assert(front[i] == kept);
        lemma_thinned_from(pairs.drop_last(), sections, kept);
        let k = choose|k: int| 0 <= k < pairs.drop_last().len() && pairs.drop_last()[k] == kept;
        assert(pairs[k] == kept);
    } else {
        assert(pairs[pairs.len() - 1] == kept);
    }
}

proof fn lemma_ordered_pairs(
    n: int,
    oracle: spec_fn(usize, usize) -> PairGap,
    radius_sq: F64Bits,
    min_dt: F64Bits,
)
    requires
        0 <= n <= usize::MAX,
    ensures
        ({
            let ordered = nearest_first(candidates_below(n, n, oracle, radius_sq, min_dt));
            &&& forall|a: usize, b: usize| #[trigger]
                ordered.contains((a, b)) <==> a < b < n && !lt(radius_sq, oracle(a, b).dist_sq)
                    && le(min_dt, oracle(a, b).time_gap)
            &&& forall|i: int, j: int|
                0 <= i <= j < ordered.len() ==> total_rank(
                    oracle((#[trigger] ordered[i]).0, ordered[i].1).distance,
                ) <= total_rank(oracle((#[trigger] ordered[j]).0, ordered[j].1).distance)
        }),
{
    broadcast use vstd::seq_lib::group_to_multiset_ensures;

    let candidates = candidates_below(n, n, oracle, radius_sq, min_dt);
    let keyed = keyed_candidates(candidates);
    let sorted = stable_order(keyed);
    let ordered = nearest_first(candidates);
    lemma_candidates_are_near_and_apart(n, n, oracle, radius_sq, min_dt);
    crate::order::lemma_stable_order_sorts(keyed);
    assert forall|i: int| 0 <= i < sorted.len() implies (#[trigger] ordered[i]) == sorted[i].1
        && candidates.contains(
        Candidate {
            first: ordered[i].0,
            second: ordered[i].1,
            distance: oracle(ordered[i].0, ordered[i].1).distance,
        },
    ) && sorted[i].0.first == total_rank(oracle(ordered[i].0, ordered[i].1).distance) by {
        assert(sorted.contains(sorted[i]));
        assert(sorted.to_multiset().count(sorted[i]) > 0);
        assert(keyed.contains(sorted[i]));
        let k = choose|k: int| 0 <= k < keyed.len() && keyed[k] == sorted[i];
        assert(candidates.contains(candidates[k]));
    }
    assert forall|a: usize, b: usize| #[trigger] ordered.contains((a, b)) <==> a < b < n && !lt(
        radius_sq,
        oracle(a, b).dist_sq,
    ) && le(min_dt, oracle(a, b).time_gap) by {
        let c = Candidate { first: a, second: b, distance: oracle(a, b).distance };
        if ordered.contains((a, b)) {
            let i = choose|i: int| 0 <= i < ordered.len() && ordered[i] == (a, b);
            assert(candidates.contains(c));
        }
        if candidates.contains(c) {
            let k = choose|k: int| 0 <= k < candidates.len() && candidates[k] == c;
            assert(keyed.contains(keyed[k]));
            assert(keyed.to_multiset().count(keyed[k]) > 0);
            assert(sorted.contains(keyed[k]));
            let i = choose|i: int| 0 <= i < sorted.len() && sorted[i] == keyed[k];
            assert(ordered[i] == (a, b));
        }
    }
    assert forall|i: int, j: int| 0 <= i <= j < ordered.len() implies total_rank(
        oracle((#[trigger] ordered[i]).0, ordered[i].1).distance,
    ) <= total_rank(oracle((#[trigger] ordered[j]).0, ordered[j].1).distance) by {
        assert(key_le(sorted[i].0, sorted[j].0));
    }
}

/// The pairs to register are candidates, nearest first. Where sections have no length all candidates
/// are registered. Else no two pairs have a section in common, and a candidate is left out only where
/// a pair that is not further apart takes one of its sections.
#[verifier::spinoff_prover]
#[verifier::rlimit(60)]
pub proof fn lemma_chosen_pairs_cover_the_candidates(
    n: int,
    oracle: spec_fn(usize, usize) -> PairGap,
    radius_sq: F64Bits,
    min_dt: F64Bits,
    sections: Seq<i64>,
    section_length: F64Bits,
    a: usize,
    b: usize,
)
    requires
        0 <= n <= usize::MAX,
    ensures
        ({
            let chosen = chosen_pairs(n, oracle, radius_sq, min_dt, sections, section_length);
            let fits = a < b < n && !lt(radius_sq, oracle(a, b).dist_sq) && le(
                min_dt,
                oracle(a, b).time_gap,
            );
            &&& chosen.contains((a, b)) ==> fits
            &&& fits && le(section_length, 0) ==> chosen.contains((a, b))
            &&& fits && !chosen.contains((a, b)) ==> exists|k: int|
                0 <= k < chosen.len() && ({
                    let pair = #[trigger] chosen[k];
                    &&& total_rank(oracle(pair.0, pair.1).distance) <= total_rank(
                        oracle(a, b).distance,
                    )
                    &&& (sections[pair.0 as int] == sections[a as int] || sections[pair.0 as int]
                        == sections[b as int] || sections[pair.1 as int] == sections[a as int]
                        || sections[pair.1 as int] == sections[b as int])
                })
            &&& !le(section_length, 0) ==> forall|i: int, j: int|
                0 <= i < j < chosen.len() ==> {
                    let x = #[trigger] chosen[i];
                    let y = #[trigger] chosen[j];
                    &&& sections[x.0 as int] != sections[y.0 as int]
                    &&& sections[x.0 as int] != sections[y.1 as int]
                    &&& sections[x.1 as int] != sections[y.0 as int]
                    &&& sections[x.1 as int] != sections[y.1 as int]
                }
        }),
{
    let ordered = nearest_first(candidates_below(n, n, oracle, radius_sq, min_dt));
    let chosen = chosen_pairs(n, oracle, radius_sq, min_dt, sections, section_length);
    lemma_ordered_pairs(n, oracle, radius_sq, min_dt);
    let fits = a < b < n && !lt(radius_sq, oracle(a, b).dist_sq) && le(
        min_dt,
        oracle(a, b).time_gap,
    );
    assert(ordered.contains((a, b)) <==> fits);
    if !le(section_length, 0) {
        lemma_thinned_sections_once(ordered, sections);
        if chosen.contains((a, b)) {
            lemma_thinned_from(ordered, sections, (a, b));
        }
        assert forall|i: int, j: int| 0 <= i < j < chosen.len() implies {
            let x = #[trigger] chosen[i];
            let y = #[trigger] chosen[j];
            &&& sections[x.0 as int] != sections[y.0 as int]
            &&& sections[x.0 as int] != sections[y.1 as int]
            &&& sections[x.1 as int] != sections[y.0 as int]
            &&& sections[x.1 as int] != sections[y.1 as int]
        } by {
            let x = chosen[i];
            assert(in_section(chosen[i], sections, sections[x.0 as int]));
            assert(in_section(chosen[i], sections, sections[x.1 as int]));
            assert(!in_section(chosen[j], sections, sections[x.0 as int]));
            assert(!in_section(chosen[j], sections, sections[x.1 as int]));
        }
        if fits && !chosen.contains((a, b)) {
            let i = choose|i: int| 0 <= i < ordered.len() && ordered[i] == (a, b);
            lemma_thinned_is_greedy(ordered, sections, i);
            let kept = thinned(ordered.take(i), sections).0;
            let more = thinned(ordered.take(i + 1), sections).0;
            if more.len() > kept.len() {
                assert(more[kept.len() as int] == (a, b));
                assert(chosen[kept.len() as int] == (a, b));
            }
            let section = if is_used(kept, sections, sections[a as int]) {
                sections[a as int]
            } else {
                sections[b as int]
            };
            let k = choose|k: int|
                0 <= k < kept.len() && #[trigger] in_section(kept[k], sections, section);
            assert(more[k] == kept[k]);
            assert(chosen[k] == kept[k]);
            assert(kept.contains(kept[k]));
            lemma_thinned_from(ordered.take(i), sections, kept[k]);
            let m = choose|m: int| 0 <= m < ordered.take(i).len() && ordered.take(i)[m] == kept[k];
            assert(ordered[m] == chosen[k]);
        }
    }
}

/// The keyframe is part of a pair.
pub open spec fn is_involved(pairs: Seq<(usize, usize)>, keyframe: usize) -> bool {
    exists|i: int|
        0 <= i < pairs.len() && ((#[trigger] pairs[i]).0 == keyframe || pairs[i].1 == keyframe)
}

/// The keyframes that are part of a pair.
pub fn involved_keyframes(pairs: &[(usize, usize)]) -> (involved: HashSet<usize>)
    ensures
        forall|keyframe: usize|
            involved@.contains(keyframe) <==> #[trigger] is_involved(pairs@, keyframe),
{
    broadcast use vstd::std_specs::hash::group_hash_axioms;

    let mut involved: HashSet<usize> = HashSet::new();
    let mut i: usize = 0;
    while i < pairs.len()
        invariant
            i <= pairs.len(),
            forall|keyframe: usize|
                involved@.contains(keyframe) <==> #[trigger] is_involved(
                    pairs@.take(i as int),
                    keyframe,
                ),
        decreases pairs.len() - i,
    {
        broadcast use vstd::std_specs::hash::group_hash_axioms;

        let ghost before = involved@;
        let pair = pairs[i];
        involved.insert(pair.0);
        involved.insert(pair.1);
        proof {
            let front = pairs@.take(i as int);
            let more = pairs@.take(i + 1);
            assert forall|keyframe: usize|
                involved@.contains(keyframe) <==> #[trigger] is_involved(more, keyframe) by {
                if is_involved(front, keyframe) {
                    let k = choose|k: int|
                        0 <= k < front.len() && ((#[trigger] front[k]).0 == keyframe || front[k].1
                            == keyframe);
                    assert(more[k] == front[k]);
                }
                if is_involved(more, keyframe) {
                    let k = choose|k: int|
                        0 <= k < more.len() && ((#[trigger] more[k]).0 == keyframe || more[k].1
                            == keyframe);
                    if k < i {
                        assert(front[k] == more[k]);
                    }
                }
                if keyframe == pair.0 || keyframe == pair.1 {
                    assert(more[i as int] == pair);
                }
                assert(before.contains(keyframe) <==> is_involved(front, keyframe));
            }
        }
        i = i + 1;
    }
    assert(pairs@.take(i as int) =~= pairs@);
    involved
}

/// A scan joins the keyframe that is nearest to it in time, where a closure is tried of that keyframe
/// and the scan is no further from it than half a submap. It joins none where one that is as near, or
/// nearer, is not such a keyframe.
pub proof fn lemma_scans_join_the_nearest_keyframe(
    scan: usize,
    n: nat,
    oracle: spec_fn(usize, usize) -> F64Bits,
    involved: Set<usize>,
    half: F64Bits,
    submap: Option<usize>,
    other: usize,
)
    requires
        n <= usize::MAX,
        other < n,
        forall|k: usize| k < n ==> lt(#[trigger] oracle(scan, k), INFINITY64),
        is_submap_of(scan, n, oracle, involved, half, submap),
    ensures
        submap matches Some(k) ==> k < n && involved.contains(k) && !lt(half, oracle(scan, k)) && le(
            oracle(scan, k),
            oracle(scan, other),
        ) && (other < k ==> lt(oracle(scan, k), oracle(scan, other))),
        submap is None && involved.contains(other) && !lt(half, oracle(scan, other)) ==> exists|
            k: usize,
        |
            k < n && k != other && le(#[trigger] oracle(scan, k), oracle(scan, other)),
{
    let lags = lags_of(scan, n, oracle);
    let k = choose|k: usize|
        {
            &&& #[trigger] is_closest(lags, k as int)
            &&& submap == (if involved.contains(k) && !lt(half, oracle(scan, k)) {
                Some(k)
            } else {
                None
            })
        };
    assert forall|i: int| 0 <= i < lags.len() implies lt(#[trigger] lags[i], INFINITY64) by {
        assert(lags[i] == oracle(scan, i as usize));
    }
    lemma_closest_is_nearest(lags, k as int, other as int);
    assert(lags[k as int] == oracle(scan, k));
    assert(lags[other as int] == oracle(scan, other));
}

/// Fitting of planes ends where the step cannot be solved, or where neither the fitness nor the error
/// changed by a millionth; it takes thirty steps at most.
pub proof fn lemma_plane_fit_settles(fitness_change: F64Bits, rmse_change: F64Bits)
    ensures
        settles(PlaneOutcome::Singular),
        settles(PlaneOutcome::Moved { fitness_change, rmse_change }) <==> !(is_nan(fitness_change)
            || le(0x3eb0_c6f7_a0b5_ed8d, fitness_change) || is_nan(rmse_change) || le(
            0x3eb0_c6f7_a0b5_ed8d,
            rmse_change,
        )),
        PLANE_MAX_ITERATIONS == 30,
{
}

/// The keyframes involved are those of the pairs, either of each.
pub proof fn lemma_both_of_a_pair_are_involved(
    pairs: Seq<(usize, usize)>,
    pair: (usize, usize),
    keyframe: usize,
)
    ensures
        !is_involved(Seq::empty(), keyframe),
        is_involved(pairs.push(pair), keyframe) <==> is_involved(pairs, keyframe) || keyframe
            == pair.0 || keyframe == pair.1,
{
    let all = pairs.push(pair);
    if is_involved(pairs, keyframe) {
        let i = choose|i: int|
            0 <= i < pairs.len() && ((#[trigger] pairs[i]).0 == keyframe || pairs[i].1 == keyframe);
        assert(all[i] == pairs[i]);
    }
    assert(all[pairs.len() as int] == pair);
    if is_involved(all, keyframe) {
        let i = choose|i: int|
            0 <= i < all.len() && ((#[trigger] all[i]).0 == keyframe || all[i].1 == keyframe);
        if i < pairs.len() {
            assert(pairs[i] == all[i]);
        }
    }
}

/// A tag with two visits or more is reported without a warning, one with fewer with it; each number is
/// set to the right.
pub proof fn lemma_report_warns_of_single_visits(r: Revisit)
    ensures
        ({
            let head = right_aligned(signed_text(r.marker_id as int), 4) + " | "@ + right_aligned(
                decimal_text(r.raw_count as nat),
                12,
            ) + " | "@ + right_aligned(decimal_text(r.visits as nat), 10) + " visit(s)"@;
            &&& r.visits >= 2 ==> revisit_text(r) == head
            &&& r.visits <= 1 ==> revisit_text(r) == head + "   <-- NOT REVISITED"@
        }),
{
    reveal_strlit("");
    let head = right_aligned(signed_text(r.marker_id as int), 4) + " | "@ + right_aligned(
        decimal_text(r.raw_count as nat),
        12,
    ) + " | "@ + right_aligned(decimal_text(r.visits as nat), 10) + " visit(s)"@;
    assert(head + ""@ =~= head);
}

/// A registration closes a loop where neither is its fitness below the least allowed nor its error
/// above the largest; one that fits better is never worse, and one with a number missing never
/// closes.
pub proof fn lemma_better_registrations_are_accepted(
    fitness: F64Bits,
    inlier_rmse: F64Bits,
    other_fitness: F64Bits,
    other_rmse: F64Bits,
    tuning: Tuning,
)
    requires
        !is_nan(tuning.icp_fitness_min),
        !is_nan(tuning.icp_rmse_max_m),
    ensures
        is_accepted(tuning.icp_fitness_min, tuning.icp_rmse_max_m, tuning),
        is_nan(fitness) || is_nan(inlier_rmse) ==> !is_accepted(fitness, inlier_rmse, tuning),
        lt(fitness, tuning.icp_fitness_min) ==> !is_accepted(fitness, inlier_rmse, tuning),
        lt(tuning.icp_rmse_max_m, inlier_rmse) ==> !is_accepted(fitness, inlier_rmse, tuning),
        is_accepted(fitness, inlier_rmse, tuning) && le(fitness, other_fitness) && le(
            other_rmse,
            inlier_rmse,
        ) ==> is_accepted(other_fitness, other_rmse, tuning),
{
}

/// A scan belongs to the submap of a keyframe of which a closure is tried, up to half a submap from it.
pub proof fn lemma_submaps_reach_half_a_length(
    keyframe: usize,
    gap: F64Bits,
    involved: Set<usize>,
    tuning: Tuning,
)
    ensures
        is_of_submap(keyframe, tuning.submap_half_s, involved, tuning) <==> involved.contains(
            keyframe,
        ),
        lt(tuning.submap_half_s, gap) ==> !is_of_submap(keyframe, gap, involved, tuning),
        lt(gap, tuning.submap_half_s) ==> (is_of_submap(keyframe, gap, involved, tuning)
            <==> involved.contains(keyframe)),
{
}

/// Tags that close no loop are listed in brackets with commas between them, and where there are none
/// this is said.
pub proof fn lemma_unclosed_tags_are_listed(rows: Seq<Revisit>, r: Revisit)
    ensures
        rows.len() == 0 ==> unclosed_text(rows) == "\ntags with no loop-closure constraint: "@ + "none"@
            + "\n"@,
        r.visits >= 2 ==> unclosed_text(rows.push(r)) == unclosed_text(rows),
        not_revisited(rows).len() > 0 ==> unclosed_text(rows)
            == "\ntags with no loop-closure constraint: "@ + ("["@ + crate::text::joined(
            not_revisited(rows),
            ", "@,
        ) + "]"@) + "\n"@,
{
    assert(rows.push(r).drop_last() =~= rows);
}

/// The closest keyframe is nearer than every one whose gap is a number, whatever the others are; where
/// no gap is below infinity, the first is taken.
pub proof fn lemma_closest_passes_over_missing_gaps(gaps: Seq<F64Bits>, index: int, other: int)
    requires
        is_closest(gaps, index),
        0 <= other < gaps.len(),
    ensures
        (forall|i: int| 0 <= i < gaps.len() ==> !lt(#[trigger] gaps[i], INFINITY64)) ==> index == 0,
        lt(gaps[other], INFINITY64) ==> 0 <= index < gaps.len() && !is_nan(gaps[index]) && le(
            gaps[index],
            gaps[other],
        ) && (other < index ==> lt(gaps[index], gaps[other])),
{
}

/// Factors come by keyframe and, within one, by tag, each pair once; every sighting has one for its
/// keyframe and its tag.
pub proof fn lemma_factors_come_by_keyframe_and_tag(
    detections: Seq<Detection>,
    keyframes: Seq<usize>,
    factors: Seq<BestFactor>,
    a: int,
    b: int,
    i: int,
)
    requires
        keyframes.len() == detections.len(),
        are_best_factors(detections, keyframes, factors),
        0 <= a < b < factors.len(),
        0 <= i < detections.len(),
    ensures
        factors[a].keyframe <= factors[b].keyframe,
        factors[a].keyframe == factors[b].keyframe ==> factors[a].marker_id < factors[b].marker_id,
        exists|c: int|
            0 <= c < factors.len() && (#[trigger] factors[c]).keyframe == keyframes[i]
                && factors[c].marker_id == detections[i].marker_id,
{
    assert(has_factor(factors, keyframes[i], detections[i].marker_id));
    assert(factors[a].keyframe <= factors[b].keyframe);
}

/// A tag is counted where the list of counts has an entry of it.
pub proof fn lemma_counted_tags_are_listed(counts: Seq<(i64, usize)>, count: (i64, usize), marker_id: i64)
    ensures
        !is_counted(Seq::empty(), marker_id),
        is_counted(counts.push(count), marker_id) <==> is_counted(counts, marker_id) || count.0
            == marker_id,
{
    let all = counts.push(count);
    if is_counted(counts, marker_id) {
        let a = choose|a: int| 0 <= a < counts.len() && (#[trigger] counts[a]).0 == marker_id;
        assert(all[a] == counts[a]);
    }
    assert(all[counts.len() as int] == count);
    if is_counted(all, marker_id) {
        let a = choose|a: int| 0 <= a < all.len() && (#[trigger] all[a]).0 == marker_id;
        if a < counts.len() {
            assert(counts[a] == all[a]);
        }
    }
}

} // verus!
