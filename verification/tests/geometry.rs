//! Clouds, corrections and the pose graph.

use icp_stitch::apriltags::Detection;
use icp_stitch::artifacts::{
    accumulated_name, flatten, format_thousands, inliers, interpolate_correction,
    latched_index, nearest_index, scans_to_accumulate, valid_distances, Bracket, ScanAggregator, LCM_CHUNK_SCANS,
};
use icp_stitch::ieee::{
    at_most, finite, finite32, less, nan, nan32, numeric_key, total_key, truncate,
};
use icp_stitch::memory2::ScanRow;
use icp_stitch::order::{group_by_key, stable_sort, SortKey};
use icp_stitch::pgo::{
    accepts_closure, assign_scans, best_factor_per_keyframe_marker, build_tag_graph, closest_keyframe,
    choose_pairs, correspondences, count_visits, gravity_anchor_noise, involved_keyframes,
    joins_submap, loop_candidates, marker_counts, order_candidates, report_revisits, select_keyframes,
    thin_pairs_by_path_section, visit_times, BestFactor, Candidate, GraphOp, PairGap, PlaneLoop,
    PlaneOutcome, Revisit, Tuning,
};
use icp_stitch::pointcloud::{
    cache_sizes_fit, eigen_gemm_kc, eigen_l1_cache_size, matched_pairs, panel_bounds,
    query_l1_cache_size, usable_normals, voxel_downsample, Cpuid, CpuidLeaf, IcpLoop, IcpParams,
    IcpStep, KdNode, KdTree, Probe, VoxelPlan,
};

fn bits(v: f64) -> u64 {
    v.to_bits()
}

fn number(b: u64) -> f64 {
    f64::from_bits(b)
}

fn point(p: [f32; 3]) -> [u32; 3] {
    p.map(f32::to_bits)
}

// ---- numbers ----

#[test]
fn bit_patterns_compare_like_their_numbers() {
    let values = [f64::NEG_INFINITY, -2.5, -0.0, 0.0, 1e-310, 1.0, f64::MAX, f64::INFINITY, f64::NAN];
    for a in values {
        for b in values {
            assert_eq!(less(bits(a), bits(b)), a < b);
            assert_eq!(at_most(bits(a), bits(b)), a <= b);
            assert_eq!(
                total_key(bits(a)) < total_key(bits(b)),
                a.total_cmp(&b) == std::cmp::Ordering::Less
            );
            if !a.is_nan() && !b.is_nan() {
                assert_eq!(numeric_key(bits(a)) < numeric_key(bits(b)), a < b);
            }
        }
        assert_eq!(nan(bits(a)), a.is_nan());
        assert_eq!(finite(bits(a)), a.is_finite());
        assert_eq!(truncate(bits(a)), a as i64);
    }
    for v in [0.99, -0.99, 1.5, -7.9, 3.0e9, 9.2e18, 1e19, -1e19, 4503599627370497.5] {
        assert_eq!(truncate(bits(v)), v as i64, "{v}");
    }
    assert!(nan32(f32::NAN.to_bits()));
    assert!(finite32(1.0f32.to_bits()));
    assert!(!finite32(f32::INFINITY.to_bits()));
}

fn key(first: i64, second: i64) -> SortKey {
    SortKey { first, second, third: 0 }
}

#[test]
fn equal_keys_keep_their_order() {
    let sorted = stable_sort(&[(key(2, 0), 'a'), (key(1, 5), 'b'), (key(2, 0), 'c'), (key(1, 4), 'd')]);
    let letters: Vec<char> = sorted.iter().map(|e| e.1).collect();
    assert_eq!(letters, vec!['d', 'b', 'a', 'c']);
    assert_eq!(
        group_by_key(&[key(2, 0), key(1, 0), key(2, 0)]),
        vec![vec![1], vec![0, 2]]
    );
}

// ---- corrections ----

fn corrected_x(times: &[u64], corrections: &[f64], ts: f64) -> f64 {
    match interpolate_correction(times, bits(ts)) {
        Bracket::First => corrections[0],
        Bracket::Last => corrections[corrections.len() - 1],
        Bracket::Between { before, after } => {
            let alpha = (ts - number(times[before])) / (number(times[after]) - number(times[before]));
            corrections[before] + alpha * (corrections[after] - corrections[before])
        }
    }
}

#[test]
fn interpolation_clamps_and_lerps() {
    let times = [0.0, 1.0].map(bits);
    let corrections = [0.0, 2.0];
    assert!(corrected_x(&times, &corrections, -1.0).abs() < 1e-12);
    assert!((corrected_x(&times, &corrections, 5.0) - 2.0).abs() < 1e-12);
    assert!((corrected_x(&times, &corrections, 0.5) - 1.0).abs() < 1e-9);
}

#[test]
fn nearest_index_steps_back() {
    let times = [0.0, 1.0, 2.0].map(bits);
    let nearest = |ts: f64| nearest_index(&times, bits(ts), &|i| bits((number(times[i]) - ts).abs()));
    assert_eq!(nearest(-5.0), 0);
    assert_eq!(nearest(0.4), 0);
    assert_eq!(nearest(0.6), 1);
    assert_eq!(nearest(99.0), 2);
    // a tie keeps the later one
    assert_eq!(nearest(0.5), 1);
}

#[test]
fn the_latest_past_time_is_held() {
    let times = [0.0, 1.0, 1.0, 2.0].map(bits);
    assert_eq!(latched_index(&times, bits(-1.0)), 0);
    assert_eq!(latched_index(&times, bits(1.0)), 2);
    assert_eq!(latched_index(&times, bits(9.0)), 3);
    // out of order, some answer is given
    let mixed = [3.0, 1.0, 2.0].map(bits);
    assert!(nearest_index(&mixed, bits(1.9), &|i| (number(mixed[i]) - 1.9).abs().to_bits()) < 3);
    assert!(latched_index(&mixed, bits(2.5)) < 3);
    match interpolate_correction(&mixed, bits(5.0)) {
        Bracket::Last => {}
        other => panic!("{other:?}"),
    }
}

#[test]
fn thousands_are_set_apart() {
    assert_eq!(format_thousands(0), "0");
    assert_eq!(format_thousands(999), "999");
    assert_eq!(format_thousands(1000), "1,000");
    assert_eq!(format_thousands(12345678), "12,345,678");
    assert_eq!(accumulated_name("lidar"), "lidar_accumulated");
}

#[test]
fn scans_are_collapsed_in_chunks() {
    let mut all = ScanAggregator::new();
    assert!(!all.has_buffered());
    for i in 0..LCM_CHUNK_SCANS {
        let full = all.add_scan(vec![point([i as f32, 0.0, 0.0])], Some(vec![0]));
        assert_eq!(full, i + 1 == LCM_CHUNK_SCANS);
    }
    assert!(all.carries_buffered());
    all.collapse(vec![point([1.0, 2.0, 3.0])], Some(vec![7]));
    assert!(!all.has_buffered());
    assert!(all.carries_aggregated());
    assert_eq!(all.aggregated_points, vec![vec![point([1.0, 2.0, 3.0])]]);
    assert_eq!(flatten(&[vec![1, 2], vec![], vec![3]]), vec![1, 2, 3]);
    let scan = |ts: f64, n: usize| ScanRow {
        ts: bits(ts),
        points: vec![[0; 3]; n],
        intensities: None,
        frame_id: String::new(),
    };
    let (kept, last) = scans_to_accumulate(&[scan(1.0, 2), scan(2.0, 0), scan(3.0, 1), scan(4.0, 0)]);
    assert_eq!((kept, last), (vec![0, 2], bits(3.0)));
    assert_eq!(scans_to_accumulate(&[scan(4.0, 0)]), (vec![], 0));
}

// ---- clouds ----

fn probe(points: &[[f32; 3]], query: [f32; 3]) -> impl Fn(usize, usize) -> Probe + '_ {
    move |p, axis| {
        let d: Vec<f32> = (0..3).map(|k| points[p][k] - query[k]).collect();
        let offset = query[axis] - points[p][axis];
        Probe {
            distance: (d[0] * d[0] + d[1] * d[1] + d[2] * d[2]).to_bits(),
            offset: offset.to_bits(),
            offset_squared: (offset * offset).to_bits(),
        }
    }
}

fn scattered(n: usize) -> Vec<[f32; 3]> {
    let mut state = 42u64;
    let mut next = move || {
        state = state
            .wrapping_mul(6364136223846793005)
            .wrapping_add(1442695040888963407);
        ((state >> 40) as f32) / (1u32 << 24) as f32
    };
    (0..n).map(|_| [next(), next(), next()]).collect()
}

#[test]
fn tree_searches_agree_with_looking_at_every_point() {
    let points = scattered(300);
    let tree = KdTree::build(points.iter().map(|p| point(*p)).collect());
    assert!(!tree.is_empty());
    for query in scattered(40) {
        let ask = probe(&points, query);
        let mut distances: Vec<f32> = (0..points.len())
            .map(|p| f32::from_bits(ask(p, 0).distance))
            .collect();
        let (nearest, distance) = tree.nearest(&ask).unwrap();
        assert_eq!(f32::from_bits(ask(nearest, 0).distance), f32::from_bits(distance));
        let found: Vec<f32> = tree.knn(&ask, 7).iter().map(|e| f32::from_bits(e.1)).collect();
        distances.sort_by(f32::total_cmp);
        assert_eq!(f32::from_bits(distance), distances[0]);
        assert_eq!(found, distances[..7].to_vec());
    }
    assert_eq!(tree.knn(&probe(&points, points[0]), 1000).len(), 300);
    let query = [0.3f32, -0.2, 0.1];
    let some = tree.knn(&probe(&points, query), 7);
    assert_eq!(some.len(), 7);
    let mut listed: Vec<usize> = some.iter().map(|e| e.0).collect();
    listed.sort_unstable();
    listed.dedup();
    assert_eq!(listed.len(), 7);
    assert_eq!(tree.nearest(&probe(&points, query)).unwrap().1, some[0].1);
    let near = tree.knn_within(&probe(&points, points[0]), 300, 0.01f32.to_bits());
    assert!(!near.is_empty() && near.len() < 300);
    assert!(near.iter().all(|e| f32::from_bits(e.1) <= 0.01));
    assert!(tree.knn(&probe(&points, points[0]), 0).is_empty());
    let empty = KdTree::build(vec![]);
    assert!(empty.is_empty());
    assert!(empty.nearest(&probe(&points, points[0])).is_none());
}

fn size(tree: &Option<Box<KdNode>>) -> usize {
    match tree {
        None => 0,
        Some(node) => 1 + size(&node.left) + size(&node.right),
    }
}

#[test]
fn half_of_a_cloud_lies_on_the_left() {
    let points = scattered(301);
    let tree = KdTree::build(points.iter().map(|p| point(*p)).collect());
    let root = tree.root.as_ref().unwrap();
    assert_eq!(size(&tree.root), 301);
    assert_eq!(size(&root.left), 150);
    assert_eq!(size(&root.right), 150);
    assert_eq!(size(&root.left.as_ref().unwrap().left), 75);
    assert_eq!(root.axis, 0);
    assert_eq!(root.left.as_ref().unwrap().axis, 1);
}

#[test]
fn a_point_at_no_distance_is_not_found() {
    let points = [[f32::NAN, 0.0, 0.0]];
    let tree = KdTree::build(vec![point(points[0])]);
    assert!(tree.nearest(&probe(&points, [0.0; 3])).is_none());
}

fn without_outliers(points: &[[f32; 3]], neighbors: usize, ratio: f64) -> Vec<[f32; 3]> {
    let tree = KdTree::build(points.iter().map(|p| point(*p)).collect());
    let means: Vec<u64> = points
        .iter()
        .map(|p| {
            let near = tree.knn(&probe(points, *p), neighbors);
            let total: f64 = near.iter().map(|e| (f32::from_bits(e.1) as f64).sqrt()).sum();
            bits(total / near.len() as f64)
        })
        .collect();
    let valid: Vec<f64> = valid_distances(&means).iter().map(|d| number(*d)).collect();
    let mean = valid.iter().sum::<f64>() / valid.len() as f64;
    let squares: f64 = valid.iter().map(|d| (d - mean) * (d - mean)).sum();
    let deviation = (squares / (valid.len() - 1) as f64).sqrt();
    inliers(&means, bits(mean + ratio * deviation))
        .iter()
        .map(|i| points[*i])
        .collect()
}

#[test]
fn outlier_removal_drops_the_far_point() {
    let mut points: Vec<[f32; 3]> = Vec::new();
    for i in 0..10 {
        for j in 0..10 {
            points.push([i as f32 * 0.1, j as f32 * 0.1, 0.0]);
        }
    }
    points.push([100.0, 100.0, 100.0]);
    let kept = without_outliers(&points, 5, 2.0);
    assert_eq!(kept.len(), 100);
    assert!(kept.iter().all(|p| p[0] < 50.0));
}

#[test]
fn voxel_downsample_averages_intensity() {
    let chunks = vec![vec![[0.0f32, 0.0, 0.0], [0.01, 0.01, 0.01], [1.0, 0.0, 0.0]]];
    let intensity = vec![vec![10.0f32, 20.0, 5.0]];
    let points = flatten(&chunks);
    let values = flatten(&intensity);
    let keys: Vec<SortKey> = points
        .iter()
        .map(|p| {
            let cell = p.map(|v| (v as f64 / 0.5).floor() as i64);
            SortKey { first: cell[0], second: cell[1], third: cell[2] }
        })
        .collect();
    let groups = group_by_key(&keys);
    let intensities: Vec<f32> = groups
        .iter()
        .map(|g| g.iter().map(|i| values[*i]).sum::<f32>() / g.len() as f32)
        .collect();
    assert_eq!(groups.len(), 2);
    assert!(intensities.contains(&15.0) && intensities.contains(&5.0));
}

#[test]
fn cells_come_by_height_first() {
    let cloud = [[0.1f32, 0.1, 5.0], [9.0, 0.1, 0.1], [f32::NAN, 0.0, 0.0], [0.2, 0.2, 5.1], [0.0, 3.0, 0.0]];
    let bit_cloud: Vec<[u32; 3]> = cloud.iter().map(|p| point(*p)).collect();
    let cells: Vec<[i64; 3]> = cloud.iter().map(|p| p.map(|v| v.floor() as i64)).collect();
    match voxel_downsample(&bit_cloud, bits(1.0), &cells) {
        VoxelPlan::Cells(groups) => assert_eq!(groups, vec![vec![1], vec![4], vec![0, 3]]),
        VoxelPlan::AsItIs => panic!("there is a leaf size"),
    }
    assert!(matches!(voxel_downsample(&bit_cloud, bits(0.0), &cells), VoxelPlan::AsItIs));
    assert!(matches!(voxel_downsample(&[], bits(1.0), &[]), VoxelPlan::AsItIs));
}

// ---- registration ----

#[test]
fn pairs_too_far_apart_are_left_out() {
    let hits = [Some((4, bits(1.0))), None, Some((5, bits(2.0))), Some((6, bits(100.0)))];
    assert_eq!(matched_pairs(&hits, bits(2.0)), vec![(0, 4), (2, 5)]);
    let hits32 = [Some((4, 1.0f32.to_bits())), None, Some((5, 9.0f32.to_bits()))];
    assert_eq!(correspondences(&hits32, 2.0f32.to_bits()), vec![(0, 4)]);
}

fn step(cos: f64, moved: f64, change: f64, ratio: f64) -> IcpStep {
    IcpStep {
        cos_angle: bits(cos),
        translation_squared: bits(moved),
        mse_change: bits(change),
        mse_ratio: bits(ratio),
    }
}

#[test]
fn a_registration_ends_for_one_of_its_reasons() {
    let params = IcpParams::default();
    let busy = step(0.5, 1.0, 1.0, 1.0);
    for (last, expected) in [
        (step(1.0, 0.0, 1.0, 1.0), true),
        (step(0.5, 1.0, 0.0, 1.0), true),
        (step(0.5, 1.0, 1.0, 1e-9), true),
        (step(1.0, 1.0, 1.0, 1.0), false),
    ] {
        let mut icp = IcpLoop::new(10, 10);
        icp.begin(3);
        icp.finish(last, &params);
        assert_eq!(icp.outcome, if expected { Some(true) } else { None });
    }
    let mut icp = IcpLoop::new(10, 10);
    for _ in 0..50 {
        assert_eq!(icp.outcome, None);
        icp.begin(10);
        icp.finish(busy, &params);
    }
    assert_eq!((icp.iterations, icp.outcome), (50, Some(true)));
    let mut starved = IcpLoop::new(10, 10);
    starved.begin(2);
    assert_eq!(starved.outcome, Some(false));
    starved.finish(busy, &params);
    assert_eq!(starved.iterations, 0);
    assert_eq!(IcpLoop::new(0, 10).outcome, Some(false));
    assert_eq!(IcpLoop::new(10, 0).outcome, Some(false));
}

#[test]
fn a_plane_registration_stops_once_nothing_changes() {
    let mut plane = PlaneLoop::new();
    assert!(plane.wants_step(1));
    assert!(!plane.wants_step(0));
    plane.stepped(PlaneOutcome::Moved { fitness_change: bits(0.5), rmse_change: bits(0.0) });
    assert!(plane.wants_step(1));
    plane.stepped(PlaneOutcome::Moved { fitness_change: bits(1e-9), rmse_change: bits(1e-9) });
    assert!(!plane.wants_step(1));
    let mut singular = PlaneLoop::new();
    singular.stepped(PlaneOutcome::Singular);
    assert!(!singular.wants_step(1));
    let mut long = PlaneLoop::new();
    for _ in 0..30 {
        assert!(long.wants_step(1));
        long.stepped(PlaneOutcome::Moved { fitness_change: bits(1.0), rmse_change: bits(1.0) });
    }
    assert!(!long.wants_step(1));
    let tuning = Tuning::default();
    assert!(accepts_closure(bits(0.45), bits(0.25), &tuning));
    assert!(!accepts_closure(bits(0.44), bits(0.25), &tuning));
    assert!(!accepts_closure(bits(0.45), bits(0.26), &tuning));
    assert!(!accepts_closure(bits(f64::NAN), bits(0.1), &tuning));
}

#[test]
fn panels_follow_the_cache() {
    // 32 KiB hold 680 - 0 depths, a multiple of 8
    assert_eq!(eigen_gemm_kc(47, 32768), 47);
    assert_eq!(eigen_gemm_kc(600, 32768), 600);
    assert_eq!(eigen_gemm_kc(1360, 32768), 680);
    assert_eq!(eigen_gemm_kc(1000, 32768), 680 - 8 * ((680 - 1 - 320) / 16));
    assert_eq!(eigen_gemm_kc(100, 0), 1);
    assert_eq!(panel_bounds(10, 4), vec![(0, 4), (4, 8), (8, 10)]);
    assert_eq!(panel_bounds(8, 4), vec![(0, 4), (4, 8)]);
    assert!(panel_bounds(0, 4).is_empty());
}

fn leaf(eax: u32, ebx: u32, ecx: u32, edx: u32) -> CpuidLeaf {
    CpuidLeaf { eax, ebx, ecx, edx }
}

#[test]
fn processors_tell_their_cache() {
    let none = leaf(0, 0, 0, 0);
    // 12 ways, 1 partition, lines of 64 bytes, 64 sets
    let data = leaf(1 | (1 << 5), (11 << 22) | 63, 63, 0);
    let code = leaf(2 | (1 << 5), (7 << 22) | 63, 63, 0);
    let second = leaf(3 | (2 << 5), (19 << 22) | 63, 2047, 0);
    let intel = Cpuid {
        vendor: leaf(27, 0x756e6547, 0x6c65746e, 0x49656e69),
        extended: none,
        amd_caches: none,
        caches: vec![data, code, second, none, data],
    };
    assert!(cache_sizes_fit(&intel.caches));
    assert_eq!(query_l1_cache_size(&intel), 48 * 1024);
    let old = Cpuid { vendor: leaf(3, 0, 0, 0), ..intel };
    assert_eq!(query_l1_cache_size(&old), 0);
    let amd = Cpuid {
        vendor: leaf(16, 0x68747541, 0x444d4163, 0x69746e65),
        extended: leaf(0x80000028, 0, 0, 0),
        amd_caches: leaf(0, 0, 32 << 24, 0),
        caches: vec![],
    };
    assert_eq!(query_l1_cache_size(&amd), 32 * 1024);
    let shy = Cpuid { extended: leaf(0x80000005, 0, 0, 0), ..amd };
    assert_eq!(query_l1_cache_size(&shy), 0);
    assert_eq!(eigen_l1_cache_size(-1), 32768);
    assert_eq!(eigen_l1_cache_size(49152), 49152);
    assert!(!cache_sizes_fit(&[leaf(33, u32::MAX, u32::MAX, 0)]));
}

#[test]
fn too_few_normals_are_none() {
    let good = point([0.0, 0.0, 1.0]);
    let bad = point([f32::NAN, 0.0, 0.0]);
    let mut normals = vec![good; 19];
    assert!(usable_normals(&normals).is_none());
    normals.push(bad);
    assert!(usable_normals(&normals).is_none());
    normals.push(good);
    let usable = usable_normals(&normals).unwrap();
    assert_eq!(usable.len(), 20);
    assert_eq!(usable[19], 20);
}

// ---- the pose graph ----

fn row(ts: f64, x: f64, y: f64) -> [u64; 8] {
    [ts, x, y, 0.0, 0.0, 0.0, 0.0, 1.0].map(bits)
}

#[test]
fn keyframes_by_translation() {
    let rows = vec![
        row(0.0, 0.0, 0.0),
        row(1.0, 0.2, 0.0),
        row(2.0, 0.6, 0.0),
        row(3.0, 0.7, 0.0),
        row(4.0, 1.3, 0.0),
    ];
    let measure = |from: usize, to: usize| {
        let x = number(rows[to][1]) - number(rows[from][1]);
        let y = number(rows[to][2]) - number(rows[from][2]);
        (bits(x.hypot(y)), bits(0.0))
    };
    let keyframes = select_keyframes(&rows, &measure, &Tuning::default());
    assert_eq!(keyframes.indices, vec![0, 2, 4]);
    assert_eq!(keyframes.rows.len(), 3);
    assert_eq!(keyframes.times, vec![bits(0.0), bits(2.0), bits(4.0)]);
    let turning = |_: usize, _: usize| (bits(0.0), bits(11.0));
    assert_eq!(select_keyframes(&rows, &turning, &Tuning::default()).indices.len(), 5);
}

#[test]
fn visits_split_on_gap() {
    let gap = |from: u64, to: u64| bits(number(to) - number(from));
    let count = |times: &[f64]| {
        let times: Vec<u64> = times.iter().map(|t| bits(*t)).collect();
        count_visits(&times, &gap)
    };
    assert_eq!(count(&[0.0, 1.0, 2.0]), 1);
    assert_eq!(count(&[0.0, 1.0, 100.0, 101.0, 300.0]), 3);
    assert_eq!(count(&[300.0, 0.0]), 2);
    assert_eq!(count(&[30.0, 0.0]), 1);
}

#[test]
fn thinning_keeps_one_pair_per_section() {
    let sections: Vec<i64> = (0..10).map(|i| (i as f64 / 2.0).floor() as i64).collect();
    let pairs = vec![(0, 9), (2, 5), (1, 8)];
    let kept = thin_pairs_by_path_section(&pairs, &sections, bits(2.0));
    assert_eq!(kept, vec![(0, 9), (2, 5)]);
    assert_eq!(thin_pairs_by_path_section(&pairs, &sections, bits(0.0)), pairs);
    // a pair that is dropped takes no place: only what is kept before a pair stands in its way
    let pairs = vec![(0, 9), (1, 2), (3, 5), (2, 7)];
    let kept = thin_pairs_by_path_section(&pairs, &sections, bits(2.0));
    assert_eq!(kept, vec![(0, 9), (3, 5)]);
}

fn seen(ts: f64, marker_id: i64, reproj: f64) -> Detection {
    Detection {
        ts: bits(ts),
        marker_id,
        t_cam_marker: [0.0, 0.0, 0.5, 0.0, 0.0, 0.0, 1.0].map(bits),
        sharpness: bits(100.0),
        reproj_px: bits(reproj),
        tag_px: bits(40.0),
        distance_m: bits(0.5),
        view_angle_deg: bits(0.0),
        lin_speed: bits(-1.0),
        ang_speed: bits(-1.0),
    }
}

fn factor(keyframe: usize, marker_id: i64, ts: f64) -> BestFactor {
    BestFactor { keyframe, marker_id, detection: seen(ts, marker_id, 0.5) }
}

#[test]
fn tag_graph_solves_and_pulls_revisit_together() {
    let best = [factor(0, 7, 0.0), factor(3, 7, 3.0)];
    let (ops, markers) = build_tag_graph(4, &best);
    assert_eq!(markers, vec![7]);
    let factors = ops
        .iter()
        .filter(|op| matches!(op, GraphOp::Anchor | GraphOp::Odometry { .. } | GraphOp::Tag { .. }))
        .count();
    assert_eq!(factors, 1 + 3 + 2);
    let poses = ops.iter().filter(|op| matches!(op, GraphOp::InsertPose { .. })).count();
    assert_eq!(poses, 4);
    let landmarks = ops.iter().filter(|op| matches!(op, GraphOp::InsertLandmark { .. })).count();
    assert_eq!(landmarks, 1);
    assert!(ops.contains(&GraphOp::Tag { factor: 1 }));
}

#[test]
fn the_best_sighting_stands_for_a_keyframe_and_marker() {
    let detections = [seen(0.1, 7, 0.9), seen(0.2, 7, 0.3), seen(5.0, 7, 0.5), seen(5.1, 3, 0.5)];
    let best = best_factor_per_keyframe_marker(&detections, &[0, 0, 1, 1]);
    let summary: Vec<(usize, i64, f64)> = best
        .iter()
        .map(|f| (f.keyframe, f.marker_id, number(f.detection.ts)))
        .collect();
    assert_eq!(summary, vec![(0, 7, 0.2), (1, 3, 5.1), (1, 7, 5.0)]);
    let gaps = [2.0, 0.5, 0.5, f64::NAN].map(bits);
    assert_eq!(closest_keyframe(&gaps), 1);
}

#[test]
fn revisits_are_reported_per_marker() {
    assert_eq!(marker_counts(&[7, 3, 7]), vec![(3, 1), (7, 2)]);
    let factors = [factor(0, 7, 1.0), factor(1, 3, 2.0), factor(2, 7, 3.0)];
    assert_eq!(visit_times(&factors, 7), vec![bits(1.0), bits(3.0)]);
    let lines = report_revisits(&[
        Revisit { marker_id: 3, raw_count: 1, visits: 0 },
        Revisit { marker_id: 7, raw_count: 20, visits: 2 },
    ]);
    assert_eq!(lines.len(), 4);
    assert_eq!(lines[0], " tag | raw viewings | filtered revisits");
    assert!(lines[1].contains('3'));
    assert!(lines[3].contains('3'));
    assert!(!lines[3].contains('7'));
}

#[test]
fn candidates_are_near_in_space_and_far_in_time() {
    let tuning = Tuning::default();
    let places: [(f64, f64); 5] = [(0.0, 0.0), (3.0, 30.0), (1.0, 60.0), (1.5, 62.0), (9.0, 90.0)];
    let gap = |first: usize, second: usize| {
        let distance = (places[first].0 - places[second].0).abs();
        PairGap {
            dist_sq: bits(distance * distance),
            distance: bits(distance),
            time_gap: bits((places[first].1 - places[second].1).abs()),
        }
    };
    let out: Vec<Candidate> = loop_candidates(5, &gap, bits(16.0), &tuning);
    let pairs: Vec<(usize, usize)> = out.iter().map(|c| (c.first, c.second)).collect();
    assert_eq!(pairs, vec![(0, 1), (0, 2), (0, 3), (1, 2), (1, 3)]);
    let ordered = order_candidates(&out);
    assert_eq!(ordered, vec![(0, 2), (0, 3), (1, 3), (1, 2), (0, 1)]);
    let (chosen, total) = choose_pairs(&gap, bits(16.0), &[0, 1, 2, 3, 4], bits(2.0), &tuning);
    assert_eq!((chosen, total), (vec![(0, 2), (1, 3)], 5));
    let (all, _) = choose_pairs(&gap, bits(16.0), &[0, 1, 2, 3, 4], bits(0.0), &tuning);
    assert_eq!(all, ordered);
    let involved = involved_keyframes(&[(0, 2)]);
    assert!(involved.contains(&2));
    assert_eq!(involved.len(), 2);
    assert!(joins_submap(2, bits(1.0), &involved, &tuning));
    assert!(!joins_submap(2, bits(1.1), &involved, &tuning));
    assert!(!joins_submap(1, bits(0.0), &involved, &tuning));
    let scan_times = [0.5, 2.0, 30.0, 60.5];
    let lag = |scan: usize, keyframe: usize| bits((scan_times[scan] - places[keyframe].1).abs());
    assert_eq!(
        assign_scans(4, 5, &lag, &involved, &tuning),
        vec![Some(0), None, None, Some(2)]
    );
}

#[test]
fn noise_is_stiff_where_gravity_helps() {
    let tuning = Tuning::default();
    let odom = tuning.odom_noise().map(number);
    assert_eq!(odom, [1e-8, 1e-8, 1e-5, 1e-4, 1e-4, 1e-6]);
    let (icp, delta) = tuning.icp_noise();
    assert_eq!(icp.map(number), [4e-4, 4e-4, 4e-4, 2.5e-3, 2.5e-3, 2.5e-3]);
    assert_eq!(number(delta), 1.345);
    assert!(gravity_anchor_noise().iter().all(|v| number(*v) > 0.0));
}
