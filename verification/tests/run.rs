//! The run as a whole, its options and what it says.

use icp_stitch::helpers::{
    add_go2_camera_info, empty_stream, first_image, missing_tf_note, not_images, wrote_camera_info,
};
use icp_stitch::pipeline::{
    blank, body_frame, camera_frame, corrected_name, derived_streams, extrinsic_words, has_median,
    median,
    missing_pose, next_stage, no_camera_info, not_a_file, odometry_error, output_names,
    parse_base_optical, parse_ignore_tags, streams_line, tag_free, unresolved_extrinsic, Middle,
    RunFacts, RunOptions, Stage,
};
use icp_stitch::recording::resolve_streams;
use icp_stitch::text::{
    align_right, ascii_lowercase, contains, ends_with, join, parse_integer, signed_decimal,
    sort_texts, split_once, starts_with, tokens,
};
use std::collections::HashSet;

fn bits(v: f64) -> u64 {
    v.to_bits()
}

fn strings(names: &[&str]) -> Vec<String> {
    names.iter().map(|s| s.to_string()).collect()
}

// ---- texts ----

#[test]
fn texts_are_taken_apart_and_put_together() {
    assert_eq!(tokens(" 1,2 \t3,,4 "), strings(&["1", "2", "3", "4"]));
    assert!(tokens(" , ").is_empty());
    assert_eq!(join(&strings(&["a", "b", "c"]), "', '"), "a', 'b', 'c");
    assert_eq!(join(&[], ","), "");
    assert_eq!(split_once("a:b:c", ':'), Some(("a".to_string(), "b:c".to_string())));
    assert_eq!(split_once("abc", ':'), None);
    assert!(contains("lidar_corrected", "_corr"));
    assert!(!contains("lidar", "odom"));
    assert!(contains("x", ""));
    assert!(starts_with("bgr8", "bgr"));
    assert!(ends_with("a_accumulated", "_accumulated"));
    assert!(!ends_with("accumulated", "_accumulated"));
    assert_eq!(ascii_lowercase("JPEG\u{c4}"), "jpeg\u{c4}");
    assert_eq!(align_right("7", 4), "   7");
    assert_eq!(align_right("12345", 4), "12345");
    assert_eq!(sort_texts(&strings(&["b", "a", "ab", ""])), strings(&["", "a", "ab", "b"]));
}

#[test]
fn integers_are_read_as_they_are_written() {
    for n in [0, 7, -7, 42, i64::MAX, i64::MIN] {
        assert_eq!(signed_decimal(n), n.to_string());
        assert_eq!(parse_integer(&signed_decimal(n)), Some(n));
    }
    assert_eq!(parse_integer("+5"), Some(5));
    assert_eq!(parse_integer("-0"), Some(0));
    for bad in ["", "-", "+", "1x", "9223372036854775808", " 1", "\u{0661}"] {
        assert_eq!(parse_integer(bad), None, "{bad:?}");
    }
}

// ---- options ----

#[test]
fn the_body_frame_is_the_child_of_the_edge() {
    assert_eq!(body_frame("", "world").unwrap(), "world");
    assert_eq!(body_frame("world:base", "w").unwrap(), "base");
    assert_eq!(body_frame("a:b:c", "w").unwrap(), "b:c");
    assert_eq!(
        body_frame("base", "w").unwrap_err(),
        "--odom-tf must be 'parent:child', got 'base'"
    );
}

#[test]
fn ignored_tags_are_integers() {
    assert_eq!(parse_ignore_tags("1, 2 3,3").unwrap(), HashSet::from([1, 2, 3]));
    assert!(parse_ignore_tags("").unwrap().is_empty());
    assert_eq!(
        parse_ignore_tags("1 two three").unwrap_err(),
        "--ignore-tags: not an integer: \"two\""
    );
}

fn extrinsic(spec: &str) -> Option<Result<[u64; 7], String>> {
    let words = extrinsic_words(spec)?;
    let numbers: Vec<Option<u64>> = words.iter().map(|w| w.parse::<f64>().ok().map(bits)).collect();
    Some(parse_base_optical(spec, &words, &numbers))
}

#[test]
fn an_extrinsic_has_seven_numbers() {
    assert!(extrinsic("  \t").is_none());
    assert!(blank("\u{2003} "));
    let pose = extrinsic("0.3 0 0, -0.5 0.5 -0.5 0.5").unwrap().unwrap();
    assert_eq!(pose, [0.3, 0.0, 0.0, -0.5, 0.5, -0.5, 0.5].map(bits));
    assert_eq!(
        extrinsic("1 2 x").unwrap().unwrap_err(),
        "--base-optical: not a number: \"x\""
    );
    assert_eq!(
        extrinsic("1 2").unwrap().unwrap_err(),
        "--base-optical needs 7 numbers 'x y z qx qy qz qw', got 2: '1 2'"
    );
    assert_eq!(
        extrinsic(",").unwrap().unwrap_err(),
        "--base-optical needs 7 numbers 'x y z qx qy qz qw', got 0: ','"
    );
    assert_eq!(
        unresolved_extrinsic("base", "lens", "none"),
        "cannot resolve the camera extrinsic 'base' <- 'lens' from the tf tree; pass \
         --base-optical 'x y z qx qy qz qw' for this rig. (none)"
    );
}

#[test]
fn the_camera_frame_falls_back() {
    assert_eq!(camera_frame(&None, "camera_optical"), "camera_optical");
    assert_eq!(camera_frame(&Some(String::new()), "camera_optical"), "camera_optical");
    assert_eq!(camera_frame(&Some("lens".to_string()), "camera_optical"), "lens");
}

#[test]
fn the_median_lies_in_the_middle() {
    let odd = [3.0, -1.0, 2.0].map(bits);
    assert!(has_median(&odd));
    assert_eq!(median(&odd), Middle::One(bits(2.0)));
    let even = [4.0, 1.0, 3.0, 2.0].map(bits);
    assert_eq!(median(&even), Middle::Two(bits(2.0), bits(3.0)));
    assert!(!has_median(&[]));
    assert!(!has_median(&[1.0, f64::NAN].map(bits)));
}

// ---- stages ----

fn stages(options: RunOptions, facts: RunFacts) -> Vec<Stage> {
    let mut out = vec![Stage::SolveTags];
    while out[out.len() - 1] != Stage::Done {
        let next = next_stage(out[out.len() - 1], options, facts);
        out.push(next);
    }
    out
}

#[test]
fn a_full_run_goes_through_every_stage() {
    let options = RunOptions {
        write_odom: true,
        write_lidar: true,
        icp: true,
        lcm: true,
        rrd: true,
        accum: true,
    };
    let facts = RunFacts { accepted: 2, corrected_odom: true };
    assert_eq!(
        stages(options, facts),
        vec![
            Stage::SolveTags,
            Stage::ReadScans,
            Stage::FindClosures,
            Stage::SolveAgain,
            Stage::WriteGraph,
            Stage::WriteOdom,
            Stage::WriteLidar,
            Stage::AccumulateRaw,
            Stage::AccumulateCorrected,
            Stage::Compare,
            Stage::Done,
        ]
    );
    let bare = RunOptions {
        write_odom: false,
        write_lidar: false,
        icp: false,
        ..options
    };
    assert_eq!(stages(bare, facts), vec![Stage::SolveTags, Stage::WriteGraph, Stage::Done]);
    let nothing = RunFacts { accepted: 0, corrected_odom: false };
    let run = stages(options, nothing);
    assert!(!run.contains(&Stage::SolveAgain));
    assert!(run.contains(&Stage::WarnUncorrected));
    assert!(!run.contains(&Stage::AccumulateCorrected));
}

#[test]
fn outputs_are_named_after_their_input() {
    let options = RunOptions {
        write_odom: true,
        write_lidar: true,
        icp: true,
        lcm: true,
        rrd: true,
        accum: true,
    };
    let out = output_names("odom", "lidar", "_corrected", "_x", options);
    assert_eq!(out.nodes, "tf_deformation_nodes_corrected_x");
    assert_eq!(out.graph, "pose_graph_x");
    assert_eq!(out.odom, "odom_corrected_x");
    assert_eq!(out.lidar, "lidar_corrected_x");
    assert_eq!(out.lcm_file, Some("lidar_corrected_x.pc2.lcm".to_string()));
    let quiet = output_names("odom", "lidar", "_corrected", "", RunOptions { lcm: false, ..options });
    assert_eq!(quiet.lcm_file, None);
    assert_ne!(corrected_name("odom", "", "_2"), "odom");
}

#[test]
fn the_run_says_what_it_does() {
    assert_eq!(not_a_file("/tmp"), "--db must be a .db file, not a directory: /tmp");
    assert!(no_camera_info(&strings(&["a", "b"])).starts_with(
        "WARNING: no CameraInfo stream among ['a', 'b'] -- AprilTag stage skipped"
    ));
    assert_eq!(
        tag_free("tags"),
        "no AprilTag data ('tags' absent) -- running tag-free (odom + ICP only)"
    );
    assert_eq!(
        streams_line("t", "o", "l", "_corrected", "_x"),
        "streams: tags=t odom=o lidar=l -> _corrected_x"
    );
    assert_eq!(
        odometry_error("decoded no odometry", "odom", "r.db"),
        "odom stream 'odom' is empty in r.db"
    );
    assert_eq!(odometry_error("disk", "odom", "r.db"), "disk");
    assert_eq!(missing_pose(12), "estimate missing keyframe pose 12");
}

// ---- fixups ----

#[test]
fn the_go2_calibration_needs_720p_and_a_frame() {
    let c = add_go2_camera_info("color_image", 1280, 720, "lens").unwrap();
    assert_eq!(c.frame_id, "lens");
    assert_eq!((c.width, c.height), (1280, 720));
    assert_eq!(c.distortion_model, "equidistant");
    assert_eq!(
        c.k.map(f64::from_bits),
        [797.4756164864929, 0.0, 643.5352167821186, 0.0, 796.4872112769983, 349.2783605343087, 0.0, 0.0, 1.0]
    );
    assert_eq!(
        c.d.map(f64::from_bits),
        [-0.07309428880537933, -0.02341140740909078, -0.0069305931780026956, 0.009238684474464793]
    );
    assert_eq!(c.r.map(f64::from_bits), [1.0, 0.0, 0.0, 0.0, 1.0, 0.0, 0.0, 0.0, 1.0]);
    assert_eq!(c.p.map(f64::from_bits)[5], 796.4872112769983);
    assert_eq!(c.p.map(f64::from_bits)[6], 349.2783605343087);
    assert_eq!(
        add_go2_camera_info("color_image", 640, 480, "lens").err().unwrap(),
        "'color_image' is 640x480, but the go2 calibration is for 1280x720 -- these intrinsics do not apply to it"
    );
    assert_eq!(
        add_go2_camera_info("color_image", 1280, 720, "").err().unwrap(),
        "'color_image' images carry no frame_id, so the CameraInfo would have no optical frame to hang the tag detections on"
    );
}

#[test]
fn the_first_image_has_to_be_there() {
    assert_eq!(
        first_image(&[], "img").unwrap_err(),
        "no 'img' stream in this recording"
    );
    assert_eq!(
        first_image(&strings(&["i\"mg"]), "i\"mg").unwrap_err(),
        "illegal stream name \"i\\\"mg\""
    );
    assert_eq!(
        first_image(&strings(&["img"]), "img").unwrap(),
        "SELECT meta.ts, blob.data FROM \"img\" AS meta JOIN \"img_blob\" AS blob ON meta.id = blob.id ORDER BY meta.ts LIMIT 1"
    );
    assert_eq!(empty_stream("img"), "'img' is empty");
    assert_eq!(
        not_images("img", "eof"),
        "'img' does not hold sensor_msgs.Image payloads (eof)"
    );
    assert_eq!(
        wrote_camera_info("lens"),
        "wrote camera_info: go2 front camera 720p (equidistant) in frame 'lens'"
    );
    assert_eq!(missing_tf_note(&strings(&["tf"]), "lens"), None);
    assert!(missing_tf_note(&[], "lens").unwrap().contains("base<-'lens'"));
}

#[test]
fn a_run_can_be_repeated() {
    for (recorded, converted) in [
        (strings(&["pointlio_odometry", "pointlio_lidar", "lidar", "tf"]), false),
        (strings(&["go2_odom", "lidar", "color_image"]), true),
        (strings(&["color_image"]), false),
    ] {
        let first = resolve_streams(&recorded, "", "");
        let (odom, lidar) = if converted { ("go2_odometry", "l1_cloud") } else { (first.0.as_str(), first.1.as_str()) };
        let written = derived_streams(odom, lidar, "raw_april_tags", "_corrected", "", converted);
        assert!(!written.contains(&first.0));
        assert!(!written.contains(&first.1));
        assert_eq!(written.contains(&"tf".to_string()), converted);
        let mut after = recorded.clone();
        after.extend(written);
        assert_eq!(resolve_streams(&after, "", ""), first);
    }
    assert_eq!(
        derived_streams("odom", "lidar", "tags", "_corrected", "_x", true),
        strings(&[
            "tf_deformation_nodes_corrected_x",
            "pose_graph_x",
            "odom_corrected_x",
            "lidar_corrected_x",
            "lidar_accumulated",
            "lidar_corrected_x_accumulated",
            "tags",
            "l1_cloud",
            "go2_odometry",
            "tf",
        ])
    );
}

#[test]
fn the_calibration_is_the_same_every_time() {
    let before = strings(&["color_image", "tf"]);
    let after = strings(&["color_image", "tf", "camera_info"]);
    assert_eq!(
        first_image(&before, "color_image").unwrap(),
        first_image(&after, "color_image").unwrap()
    );
    let first = add_go2_camera_info("color_image", 1280, 720, "lens").unwrap();
    let second = add_go2_camera_info("color_image", 1280, 720, "lens").unwrap();
    assert_eq!(first.frame_id, second.frame_id);
    assert_eq!((first.k, first.d, first.r, first.p), (second.k, second.d, second.r, second.p));
}
