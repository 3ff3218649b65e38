//! AprilTag glimpses and the gates that tell good ones from bad ones.

use crate::ieee::{le, less, lt, at_most, F64Bits};
use crate::tf::Pose7;
use std::collections::HashSet;
use vstd::prelude::*;

verus! {

/// One sighting of a tag.
#[derive(Clone, Copy, Debug)]
pub struct Detection {
    pub ts: F64Bits,
    pub marker_id: i64,
    /// camera<-marker pose: x, y, z, qx, qy, qz, qw
    pub t_cam_marker: Pose7,
    pub sharpness: F64Bits,
    pub reproj_px: F64Bits,
    pub tag_px: F64Bits,
    pub distance_m: F64Bits,
    pub view_angle_deg: F64Bits,
    /// negative where the motion of the camera is not known
    pub lin_speed: F64Bits,
    pub ang_speed: F64Bits,
}

/// What a glimpse has to meet.
#[derive(Clone, Copy, Debug)]
pub struct GlimpseGates {
    pub min_sharpness: F64Bits,
    pub max_reproj_px: F64Bits,
    pub min_tag_px: F64Bits,
    pub max_distance_m: F64Bits,
    pub max_view_angle_deg: F64Bits,
    pub max_linear_speed_mps: F64Bits,
    pub max_angular_speed_dps: F64Bits,
}

impl Default for GlimpseGates {
    /// The gates for glimpses that take part in the solve.
    fn default() -> (gates: GlimpseGates)
        ensures
            gates.min_sharpness == 0x404e_0000_0000_0000,
            gates.max_reproj_px == 0x4000_0000_0000_0000,
            gates.min_tag_px == 0x4038_0000_0000_0000,
            gates.max_distance_m == 0x3ff0_0000_0000_0000,
            gates.max_view_angle_deg == 0x4046_8000_0000_0000,
            gates.max_linear_speed_mps == 0x3fe0_0000_0000_0000,
            gates.max_angular_speed_dps == 0x4049_0000_0000_0000,
    {
        GlimpseGates {
            // 60
            min_sharpness: 0x404e_0000_0000_0000,
            // 2
            max_reproj_px: 0x4000_0000_0000_0000,
            // 24
            min_tag_px: 0x4038_0000_0000_0000,
            // 1
            max_distance_m: 0x3ff0_0000_0000_0000,
            // 45
            max_view_angle_deg: 0x4046_8000_0000_0000,
            // 0.5
            max_linear_speed_mps: 0x3fe0_0000_0000_0000,
            // 50
            max_angular_speed_dps: 0x4049_0000_0000_0000,
        }
    }
}

/// The gates for glimpses that are only shown: wider than those of the solve.
pub fn landmark_gates() -> (gates: GlimpseGates)
    ensures
        gates.min_sharpness == 0x4039_0000_0000_0000,
        gates.max_reproj_px == 0x400c_0000_0000_0000,
        gates.min_tag_px == 0x4028_0000_0000_0000,
        gates.max_distance_m == 0x3ff8_0000_0000_0000,
        gates.max_view_angle_deg == 0x4050_4000_0000_0000,
        gates.max_linear_speed_mps == 0x3ff8_0000_0000_0000,
        gates.max_angular_speed_dps == 0x4062_c000_0000_0000,
{
    GlimpseGates {
        // 25
        min_sharpness: 0x4039_0000_0000_0000,
        // 3.5
        max_reproj_px: 0x400c_0000_0000_0000,
        // 12
        min_tag_px: 0x4028_0000_0000_0000,
        // 1.5
        max_distance_m: 0x3ff8_0000_0000_0000,
        // 65
        max_view_angle_deg: 0x4050_4000_0000_0000,
        // 1.5
        max_linear_speed_mps: 0x3ff8_0000_0000_0000,
        // 150
        max_angular_speed_dps: 0x4062_c000_0000_0000,
    }
}

/// Why a glimpse is rejected, the first reason that applies; none where it passes.
/// `distance` and `view_angle` are those of its pose.
pub open spec fn rejection(
    detection: Detection,
    distance: F64Bits,
    view_angle: F64Bits,
    gates: GlimpseGates,
) -> Option<Seq<char>> {
    if lt(detection.sharpness, gates.min_sharpness) {
        Some("blur"@)
    } else if lt(gates.max_reproj_px, detection.reproj_px) {
        Some("reproj"@)
    } else if lt(detection.tag_px, gates.min_tag_px) {
        Some("small"@)
    } else if lt(gates.max_distance_m, distance) {
        Some("far"@)
    } else if lt(gates.max_view_angle_deg, view_angle) {
        Some("oblique"@)
    } else if le(0, detection.lin_speed) && (lt(gates.max_linear_speed_mps, detection.lin_speed)
        || lt(gates.max_angular_speed_dps, detection.ang_speed)) {
        Some("motion"@)
    } else {
        None
    }
}

/// Why a glimpse is rejected; none where it passes every gate. `distance` and
/// `view_angle` are those of its pose.
pub fn glimpse_passes(
    detection: &Detection,
    distance: F64Bits,
    view_angle: F64Bits,
    gates: &GlimpseGates,
) -> (r: Option<&'static str>)
    ensures
        match r {
            Some(reason) => rejection(*detection, distance, view_angle, *gates) == Some(reason@),
            None => rejection(*detection, distance, view_angle, *gates) is None,
        },
{
    if less(detection.sharpness, gates.min_sharpness) {
        return Some("blur");
    }
    if less(gates.max_reproj_px, detection.reproj_px) {
        return Some("reproj");
    }
    if less(detection.tag_px, gates.min_tag_px) {
        return Some("small");
    }
    if less(gates.max_distance_m, distance) {
        return Some("far");
    }
    if less(gates.max_view_angle_deg, view_angle) {
        return Some("oblique");
    }
    let speed_known: bool = at_most(0, detection.lin_speed);
    if speed_known && (less(gates.max_linear_speed_mps, detection.lin_speed) || less(
        gates.max_angular_speed_dps,
        detection.ang_speed,
    )) {
        return Some("motion");
    }
    None
}

/// The glimpse with the distance and view angle of its pose.
pub open spec fn annotated(detection: Detection, view: (F64Bits, F64Bits)) -> Detection {
    Detection { distance_m: view.0, view_angle_deg: view.1, ..detection }
}

/// The glimpses that pass, in their order, each with its view.
pub open spec fn passing(
    raw: Seq<Detection>,
    views: Seq<(F64Bits, F64Bits)>,
    excluded: Set<i64>,
    gates: GlimpseGates,
) -> Seq<Detection>
    decreases raw.len(),
{
    if raw.len() == 0 {
        Seq::empty()
    } else {
        let front = passing(raw.drop_last(), views, excluded, gates);
        let view = views[raw.len() - 1];
        if excluded.contains(raw.last().marker_id) || rejection(
            raw.last(),
            view.0,
            view.1,
            gates,
        ) is Some {
            front
        } else {
            front.push(annotated(raw.last(), view))
        }
    }
}

/// Every glimpse that passes the gates and whose tag is not excluded, with the distance and
/// view angle of its pose, which `views` gives.
pub fn filter_glimpses(
    raw_detections: &[Detection],
    views: &[(F64Bits, F64Bits)],
    exclude_tags: &HashSet<i64>,
    gates: &GlimpseGates,
) -> (kept: Vec<Detection>)
    requires
        views@.len() == raw_detections@.len(),
    ensures
        kept@ == passing(raw_detections@, views@, exclude_tags@, *gates),
{
    broadcast use vstd::std_specs::hash::group_hash_axioms;

    let mut kept: Vec<Detection> = Vec::new();
    let mut i: usize = 0;
    assert(raw_detections@.take(0) =~= Seq::empty());
    while i < raw_detections.len()
        invariant
            i <= raw_detections.len(),
            views@.len() == raw_detections@.len(),
            kept@ == passing(raw_detections@.take(i as int), views@, exclude_tags@, *gates),
        decreases raw_detections.len() - i,
    {
        broadcast use vstd::std_specs::hash::group_hash_axioms;

        assert(raw_detections@.take(i + 1).drop_last() =~= raw_detections@.take(i as int));
        let detection = raw_detections[i];
        let view = views[i];
        if !exclude_tags.contains(&detection.marker_id) {
            if glimpse_passes(&detection, view.0, view.1, gates).is_none() {
                let mut with_view = detection;
                with_view.distance_m = view.0;
                with_view.view_angle_deg = view.1;
                kept.push(with_view);
            }
        }
        i = i + 1;
    }
    assert(raw_detections@.take(i as int) =~= raw_detections@);
    kept
}

proof fn lemma_passing(
    raw: Seq<Detection>,
    views: Seq<(F64Bits, F64Bits)>,
    excluded: Set<i64>,
    gates: GlimpseGates,
    k: int,
)
    requires
        views.len() >= raw.len(),
        0 <= k < passing(raw, views, excluded, gates).len(),
    ensures
        ({
            let d = passing(raw, views, excluded, gates)[k];
            !excluded.contains(d.marker_id) && rejection(d, d.distance_m, d.view_angle_deg, gates)
                is None
        }),
    decreases raw.len(),
{
    let front = passing(raw.drop_last(), views, excluded, gates);
    if k < front.len() {
        lemma_passing(raw.drop_last(), views, excluded, gates, k);
    }
}

/// What the filter keeps belongs to no excluded tag and passes every gate with the view it
/// carries.
pub proof fn lemma_kept_glimpses_pass(
    raw: Seq<Detection>,
    views: Seq<(F64Bits, F64Bits)>,
    excluded: Set<i64>,
    gates: GlimpseGates,
)
    requires
        views.len() == raw.len(),
    ensures
        forall|k: int|
            0 <= k < passing(raw, views, excluded, gates).len() ==> {
                let d = #[trigger] passing(raw, views, excluded, gates)[k];
                !excluded.contains(d.marker_id) && rejection(
                    d,
                    d.distance_m,
                    d.view_angle_deg,
                    gates,
                ) is None
            },
{
    assert forall|k: int| 0 <= k < passing(raw, views, excluded, gates).len() implies {
        let d = #[trigger] passing(raw, views, excluded, gates)[k];
        !excluded.contains(d.marker_id) && rejection(d, d.distance_m, d.view_angle_deg, gates)
            is None
    } by {
        lemma_passing(raw, views, excluded, gates, k);
    }
}

/// The views that glimpses carry.
pub open spec fn carried_views(glimpses: Seq<Detection>) -> Seq<(F64Bits, F64Bits)> {
    glimpses.map_values(|d: Detection| (d.distance_m, d.view_angle_deg))
}

proof fn lemma_all_pass(
    glimpses: Seq<Detection>,
    views: Seq<(F64Bits, F64Bits)>,
    excluded: Set<i64>,
    gates: GlimpseGates,
)
    requires
        glimpses.len() <= views.len(),
        forall|k: int|
            0 <= k < glimpses.len() ==> {
                let d = #[trigger] glimpses[k];
                &&& views[k] == (d.distance_m, d.view_angle_deg)
                &&& !excluded.contains(d.marker_id)
                &&& rejection(d, d.distance_m, d.view_angle_deg, gates) is None
            },
    ensures
        passing(glimpses, views, excluded, gates) == glimpses,
    decreases glimpses.len(),
{
    if glimpses.len() > 0 {
        let front = glimpses.drop_last();
        assert forall|k: int| 0 <= k < front.len() implies {
            let d = #[trigger] front[k];
            &&& views[k] == (d.distance_m, d.view_angle_deg)
            &&& !excluded.contains(d.marker_id)
            &&& rejection(d, d.distance_m, d.view_angle_deg, gates) is None
        } by {
            assert(front[k] == glimpses[k]);
        }
        lemma_all_pass(front, views, excluded, gates);
        let last = glimpses[glimpses.len() - 1];
        assert(annotated(last, views[glimpses.len() - 1]) == last);
        assert(front.push(last) =~= glimpses);
    } else {
        assert(passing(glimpses, views, excluded, gates) =~= glimpses);
    }
}

/// To filter glimpses that were filtered changes nothing: each is seen from where it was.
pub proof fn lemma_filtering_twice_is_filtering_once(
    raw: Seq<Detection>,
    views: Seq<(F64Bits, F64Bits)>,
    excluded: Set<i64>,
    gates: GlimpseGates,
)
    requires
        views.len() == raw.len(),
    ensures
        ({
            let kept = passing(raw, views, excluded, gates);
            passing(kept, carried_views(kept), excluded, gates) == kept
        }),
{
    let kept = passing(raw, views, excluded, gates);
    lemma_kept_glimpses_pass(raw, views, excluded, gates);
    lemma_all_pass(kept, carried_views(kept), excluded, gates);
}

/// A glimpse passes where it is sharp, fits, is large, is near and is seen from the front, as far as
/// each can be told, and where the camera, if its speed is known, is not too fast either way. It is
/// refused for the first of these that does not hold.
pub proof fn lemma_glimpses_pass_all_gates(
    d: Detection,
    distance: F64Bits,
    view_angle: F64Bits,
    gates: GlimpseGates,
)
    ensures
        ({
            let blurred = lt(d.sharpness, gates.min_sharpness);
            let off = lt(gates.max_reproj_px, d.reproj_px);
            let small = lt(d.tag_px, gates.min_tag_px);
            let far = lt(gates.max_distance_m, distance);
            let oblique = lt(gates.max_view_angle_deg, view_angle);
            let fast = le(0, d.lin_speed) && lt(gates.max_linear_speed_mps, d.lin_speed);
            let turning = le(0, d.lin_speed) && lt(gates.max_angular_speed_dps, d.ang_speed);
            let r = rejection(d, distance, view_angle, gates);
            &&& r is None <==> !blurred && !off && !small && !far && !oblique && !fast && !turning
            &&& blurred ==> r == Some("blur"@)
            &&& off && !blurred ==> r == Some("reproj"@)
            &&& small && !off && !blurred ==> r == Some("small"@)
            &&& far && !small && !off && !blurred ==> r == Some("far"@)
            &&& oblique && !far && !small && !off && !blurred ==> r == Some("oblique"@)
            &&& (fast || turning) && !oblique && !far && !small && !off && !blurred ==> r == Some(
                "motion"@,
            )
        }),
{
}

/// Kept are the glimpses of tags that are not left out and that pass the gates, all of them and in
/// their order, with the distance and the angle that they were seen at.
pub proof fn lemma_kept_are_all_that_pass(
    raw: Seq<Detection>,
    views: Seq<(F64Bits, F64Bits)>,
    excluded: Set<i64>,
    gates: GlimpseGates,
)
    requires
        views.len() == raw.len(),
    ensures
        passing(raw, views, excluded, gates) == raw.zip_with(views).filter(
            |g: (Detection, (F64Bits, F64Bits))|
                !excluded.contains(g.0.marker_id) && rejection(g.0, g.1.0, g.1.1, gates) is None,
        ).map_values(
            |g: (Detection, (F64Bits, F64Bits))|
                Detection { distance_m: g.1.0, view_angle_deg: g.1.1, ..g.0 },
        ),
    decreases raw.len(),
{
    reveal_with_fuel(Seq::filter, 1);
    let zipped = raw.zip_with(views);
    let passes = |g: (Detection, (F64Bits, F64Bits))|
        !excluded.contains(g.0.marker_id) && rejection(g.0, g.1.0, g.1.1, gates) is None;
    let noted = |g: (Detection, (F64Bits, F64Bits))|
        Detection { distance_m: g.1.0, view_angle_deg: g.1.1, ..g.0 };
    if raw.len() == 0 {
        assert(zipped.filter(passes).map_values(noted) =~= Seq::empty());
    } else {
        let front = raw.drop_last();
        lemma_same_with_more_views(front, views, views.drop_last(), excluded, gates);
        lemma_kept_are_all_that_pass(front, views.drop_last(), excluded, gates);
        assert(zipped.drop_last() =~= front.zip_with(views.drop_last()));
        let kept = zipped.drop_last().filter(passes);
        if passes(zipped.last()) {
            assert(kept.push(zipped.last()).map_values(noted) =~= kept.map_values(noted).push(
                noted(zipped.last()),
            ));
        }
    }
}

proof fn lemma_same_with_more_views(
    raw: Seq<Detection>,
    views: Seq<(F64Bits, F64Bits)>,
    others: Seq<(F64Bits, F64Bits)>,
    excluded: Set<i64>,
    gates: GlimpseGates,
)
    requires
        raw.len() <= views.len(),
        raw.len() <= others.len(),
        forall|i: int| 0 <= i < raw.len() ==> #[trigger] views[i] == others[i],
    ensures
        passing(raw, views, excluded, gates) == passing(raw, others, excluded, gates),
    decreases raw.len(),
{
    if raw.len() > 0 {
        lemma_same_with_more_views(raw.drop_last(), views, others, excluded, gates);
        assert(views[raw.len() - 1] == others[raw.len() - 1]);
    }
}

} // verus!
