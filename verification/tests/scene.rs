//! The comparison scene.

use icp_stitch::rrd::{
    cluster_medoid, corrected_clouds, corrected_odoms, draw_tag, first_in_cells, frame_query,
    group_by_marker, has_landmarks, no_points, path_segments, plan_scene, scan_frame, strided,
    tag_entity, tag_image, tag_label, view_entity, TagCode, TAG_36H11_COUNT,
};
use kornia_apriltag::family::TagFamily;

fn strings(names: &[&str]) -> Vec<String> {
    names.iter().map(|s| s.to_string()).collect()
}

#[test]
fn the_first_point_of_a_cell_is_kept() {
    let cells = [[0, 0, 0], [1, 0, 0], [0, 0, 0], [0, 0, -1], [1, 0, 0]];
    assert_eq!(first_in_cells(&cells), vec![0, 1, 3]);
    assert!(first_in_cells(&[]).is_empty());
}

#[test]
fn every_third_point_is_shown() {
    let points: Vec<[u32; 3]> = (0..8).map(|i| [i, 0, 0]).collect();
    let shown: Vec<u32> = strided(&points).iter().map(|p| p[0]).collect();
    assert_eq!(shown, vec![0, 3, 6]);
    assert!(strided(&[]).is_empty());
    assert_eq!(strided(&points[..1]).len(), 1);
    assert_eq!(strided(&points[..4]).len(), 2);
}

#[test]
fn the_picture_of_a_tag_shows_its_code() {
    let family = TagFamily::tag36_h11();
    assert_eq!(family.code_data.len(), TAG_36H11_COUNT);
    for id in [0usize, 1, 586] {
        let rgb = tag_image(id as i64);
        assert_eq!(rgb.len(), 200 * 200 * 3);
        for bit in 0..36 {
            let (x, y) = (family.bit_x[bit] as usize, family.bit_y[bit] as usize);
            let set = (family.code_data[id] >> (35 - bit)) & 1 == 1;
            let shade = if set { 255 } else { 0 };
            for (dx, dy) in [(0, 0), (24, 24)] {
                let base = ((y * 25 + dy) * 200 + x * 25 + dx) * 3;
                assert_eq!(&rgb[base..base + 3], &[shade, shade, shade]);
            }
        }
        // the border is black
        assert!(rgb[..200 * 25 * 3].iter().all(|&v| v == 0));
    }
}

#[test]
fn a_tag_is_drawn_from_its_bits() {
    let mut bit_x = vec![9i8; 36];
    let mut bit_y = vec![9i8; 36];
    bit_x[0] = 1;
    bit_y[0] = 2;
    let tag = TagCode { code: 1 << 35, bit_x, bit_y };
    let rgb = draw_tag(&tag);
    let white = rgb.iter().filter(|&&v| v == 255).count();
    assert_eq!(white, 25 * 25 * 3);
    assert_eq!(rgb[(50 * 200 + 25) * 3], 255);
}

#[test]
fn the_medoid_is_the_cheapest_sighting() {
    let costs: Vec<u64> = [3.0f64, 1.0, 1.0, f64::NAN].iter().map(|c| c.to_bits()).collect();
    assert_eq!(cluster_medoid(&costs), 1);
    assert_eq!(cluster_medoid(&[f64::NAN.to_bits()]), 0);
}

#[test]
fn sightings_are_grouped_by_marker() {
    assert_eq!(group_by_marker(&[7, -1, 7, 3]), vec![vec![1], vec![3], vec![0, 2]]);
    assert!(group_by_marker(&[]).is_empty());
    assert!(has_landmarks(&strings(&["tags"]), "tags", 1));
    assert!(!has_landmarks(&strings(&["tags"]), "tags", 0));
    assert!(!has_landmarks(&strings(&["tags"]), "other", 1));
}

#[test]
fn a_path_is_its_segments() {
    let p = |x: u32| [x, 0, 0];
    assert_eq!(path_segments(&[p(1), p(2), p(3)]), vec![(p(1), p(2)), (p(2), p(3))]);
    assert!(path_segments(&[p(1)]).is_empty());
    assert!(path_segments(&[]).is_empty());
}

#[test]
fn corrected_streams_are_found_by_name() {
    let streams = strings(&[
        "lidar_corrected_b_accumulated",
        "odom_corrected",
        "lidar_corrected_accumulated",
        "lidar_accumulated",
        "go2_odometry_corrected",
        "lidar_corrected",
    ]);
    assert_eq!(
        corrected_clouds(&streams),
        strings(&["lidar_corrected_accumulated", "lidar_corrected_b_accumulated"])
    );
    assert_eq!(
        corrected_odoms(&streams),
        strings(&["go2_odometry_corrected", "odom_corrected"])
    );
    let plan = plan_scene(&streams, "odom_corrected", "world:base", "map");
    assert_eq!(plan.body_frame, "base");
    assert!(!plan.reads_tf);
    assert_eq!(plan.odom_edge, Some(("world".to_string(), "base".to_string())));
    assert_eq!(plan.clouds[1], ("lidar_corrected_b_accumulated".to_string(), 1));
    assert_eq!(plan.path, Some("go2_odometry_corrected".to_string()));
    let bare = plan_scene(&strings(&["tf"]), "odom", "", "map");
    assert_eq!(bare.body_frame, "map");
    assert!(bare.reads_tf);
    assert_eq!(bare.odom_edge, None);
    assert!(bare.clouds.is_empty());
    assert_eq!(bare.path, None);
    assert_eq!(plan_scene(&[], "odom", "nocolon", "map").body_frame, "");
}

#[test]
fn gradients_take_turns() {
    let names: Vec<String> = (0..6).map(|i| format!("l{i}_corrected_accumulated")).collect();
    let plan = plan_scene(&names, "odom", "", "map");
    let turns: Vec<usize> = plan.clouds.iter().map(|c| c.1).collect();
    assert_eq!(turns, vec![0, 1, 2, 3, 0, 1]);
}

#[test]
fn entities_are_named_after_their_marker() {
    assert_eq!(tag_label(5), "tag5");
    assert_eq!(tag_entity(-5), "landmarks/tag-5");
    assert_eq!(view_entity(12), "landmarks/tag12/medoid_view");
    assert_eq!(scan_frame("", "base"), "base");
    assert_eq!(scan_frame("lidar", "base"), "lidar");
    assert_eq!(no_points("lidar", "/x.db"), "stream 'lidar' has no points in /x.db");
    assert_eq!(frame_query("a\"b"), None);
    assert_eq!(
        frame_query("color_image").unwrap(),
        "SELECT blob.data FROM \"color_image\" AS meta JOIN \"color_image_blob\" AS blob ON \
         meta.id = blob.id WHERE ABS(meta.ts - ?1) <= ?2 ORDER BY ABS(meta.ts - ?1) LIMIT 1"
    );
}
