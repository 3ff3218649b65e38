//! Recordings in a database: streams, rows, transforms.

use icp_stitch::artifacts::{
    encode_pointcloud2, write_deformation_nodes, write_pose_graph, ArtifactRow,
};
use icp_stitch::memory2::{
    append_statements, create_stream, delete_stream, extract_xyz, first_payload_query, has_stream,
    index_statement, keeps_row, payload_query, pose_columns, raw_query, read_odometry, read_scans,
    read_tf, rtree_bounds, stream_config_json, tags_json, OdomPayload, OdomRow, PointCloud2, PointField, RawRow, Tag, TfSample,
    TransformEntry,
};
use icp_stitch::recording::{
    default_odom_edge, is_go2_legacy, is_world_framed, normalize_go2_legacy, odom_override,
    odom_pose_rows, pose_rows, resolve_streams, sensor_edge, sensor_row, split_edge,
    strip_stale_edges, Normalization, TfRow,
};
use icp_stitch::tf::{edge_is_static, Deviation, Pose7, RecordingTf, Sample, TfStep};
use rusqlite::Connection;

fn bits(v: f64) -> u64 {
    v.to_bits()
}

fn number(b: u64) -> f64 {
    f64::from_bits(b)
}

fn strings(names: &[&str]) -> Vec<String> {
    names.iter().map(|s| s.to_string()).collect()
}

// ---- streams ----

#[test]
fn stream_pairs_pick_by_rig() {
    let available: Vec<String> = strings(&["fastlio_odometry", "fastlio_lidar", "lidar"]);
    assert_eq!(
        resolve_streams(&available, "", ""),
        ("fastlio_odometry".to_string(), "fastlio_lidar".to_string())
    );
    let go2: Vec<String> = strings(&["go2_odom", "lidar"]);
    assert_eq!(
        resolve_streams(&go2, "", ""),
        ("go2_odom".to_string(), "lidar".to_string())
    );
    assert_eq!(
        resolve_streams(&go2, "odom", ""),
        ("odom".to_string(), "lidar".to_string())
    );
    assert_eq!(
        resolve_streams(&[], "", ""),
        ("odom".to_string(), "lidar".to_string())
    );
}

#[test]
fn an_edge_needs_a_child_frame() {
    let header = Some(("world".to_string(), "base".to_string()));
    assert_eq!(default_odom_edge(&header), "world:base");
    assert_eq!(default_odom_edge(&Some(("world".to_string(), String::new()))), "");
    assert_eq!(default_odom_edge(&None), "");
    assert_eq!(split_edge("a:b:c"), ("a".to_string(), "b:c".to_string()));
    assert_eq!(split_edge("a"), ("a".to_string(), String::new()));
    let streams = strings(&["odom"]);
    assert_eq!(
        odom_override(&streams, "odom", "world:base"),
        Some(("world".to_string(), "base".to_string()))
    );
    assert_eq!(odom_override(&streams, "other", "world:base"), None);
    assert_eq!(odom_override(&streams, "odom", ""), None);
}

#[test]
fn strides_keep_every_nth_row() {
    assert!(keeps_row(0, 8));
    assert!(!keeps_row(7, 8));
    assert!(keeps_row(16, 8));
    assert!(keeps_row(3, 1));
    assert!(keeps_row(3, 0));
}

// ---- a database ----

fn registry(connection: &Connection) {
    connection
        .execute_batch("CREATE TABLE IF NOT EXISTS _streams (name TEXT PRIMARY KEY, config TEXT)")
        .unwrap();
}

fn make_stream(connection: &Connection, name: &str, module: &str) {
    registry(connection);
    for sql in delete_stream(name).unwrap() {
        connection.execute_batch(&sql).unwrap();
    }
    connection
        .execute_batch(&create_stream(name).unwrap())
        .unwrap();
    connection
        .execute(
            "INSERT OR REPLACE INTO _streams (name, config) VALUES (?, ?)",
            (name, stream_config_json(module)),
        )
        .unwrap();
}

fn append_row(
    connection: &Connection,
    name: &str,
    ts: u64,
    pose: Option<Pose7>,
    tags: &[Tag],
    blob: &[u8],
) {
    let sql = append_statements(name).unwrap();
    for tag in tags {
        connection
            .execute_batch(&index_statement(name, &tag.key).unwrap())
            .unwrap();
    }
    let columns = pose_columns(pose).map(|c| c.map(number));
    connection
        .execute(
            &sql.meta,
            (
                number(ts),
                None::<f64>,
                columns[0],
                columns[1],
                columns[2],
                columns[3],
                columns[4],
                columns[5],
                columns[6],
                tags_json(tags),
            ),
        )
        .unwrap();
    let id = connection.last_insert_rowid();
    connection.execute(&sql.blob, (id, blob)).unwrap();
    if let Some(pose) = pose {
        let r = rtree_bounds(pose).map(number);
        connection
            .execute(
                &sql.rtree,
                (id, r[0], r[1], r[2], r[3], r[4], r[5]),
            )
            .unwrap();
    }
}

const IDENTITY: [f64; 7] = [0.0, 0.0, 0.0, 0.0, 0.0, 0.0, 1.0];

fn moved(x: f64) -> Pose7 {
    let mut pose = IDENTITY;
    pose[0] = x;
    pose.map(bits)
}

#[test]
fn corrected_streams_round_trip_through_python_schema() {
    let connection = Connection::open_in_memory().unwrap();
    let times = [0.0, 10.0].map(bits);
    let raw = [moved(0.0), moved(1.0)];
    let optimized = [moved(0.0), moved(1.5)];
    make_stream(&connection, "tf_nodes_corrected", "dimos.DeformationNode");
    let nodes: Vec<ArtifactRow> = write_deformation_nodes(&times, &raw, &optimized, "world", "base");
    for row in &nodes {
        append_row(&connection, "tf_nodes_corrected", row.ts, None, &row.tags, &row.blob);
    }
    make_stream(&connection, "pose_graph", "dimos.Graph3D");
    let graph = write_pose_graph(&times, &optimized, "world");
    append_row(&connection, "pose_graph", graph.ts, None, &[], &graph.encode());

    let odom_rows: [Pose7; 2] = [moved(0.0), moved(1.5)];
    make_stream(&connection, "odom_corrected", "dimos.msgs.nav_msgs.Odometry.Odometry");
    for (ts, pose) in times.iter().zip(odom_rows) {
        append_row(&connection, "odom_corrected", *ts, Some(pose), &[], &[1]);
    }

    let mut statement = connection
        .prepare("SELECT name FROM _streams ORDER BY name")
        .unwrap();
    let streams: Vec<String> = statement
        .query_map([], |row| row.get(0))
        .unwrap()
        .map(|row| row.unwrap())
        .collect();
    assert_eq!(
        streams,
        vec!["odom_corrected", "pose_graph", "tf_nodes_corrected"]
    );
    let config: String = connection
        .query_row(
            "SELECT config FROM _streams WHERE name = 'odom_corrected'",
            [],
            |row| row.get(0),
        )
        .unwrap();
    assert!(config.contains("\"payload_module\": \"dimos.msgs.nav_msgs.Odometry.Odometry\""));
    assert!(config.contains("\"codec_id\": \"lcm\""));

    let tagged: i64 = connection
        .query_row(
            "SELECT COUNT(*) FROM \"tf_nodes_corrected\" \
             WHERE json_extract(tags, '$.id') = '1'",
            [],
            |row| row.get(0),
        )
        .unwrap();
    assert_eq!(tagged, 2);

    let payload = |x: f64| OdomPayload::Odometry {
        position: [x, 0.0, 0.0].map(bits),
        orientation: [0.0, 0.0, 0.0, 1.0].map(bits),
        frame_id: "world".to_string(),
        child_frame_id: "odom_corrected_frame".to_string(),
    };
    let payloads = [(bits(0.0), payload(0.0)), (bits(10.0), payload(1.5))];
    let rows = read_odometry("odom_corrected", &payloads).unwrap();
    assert_eq!(rows.len(), 2);
    assert!((number(rows[1].translation[0]) - 1.5).abs() < 1e-9);
    assert_eq!(rows[1].frame_id, "world");
    assert_eq!(rows[1].child_frame_id, "odom_corrected_frame");
    let rtree_rows: i64 = connection
        .query_row("SELECT COUNT(*) FROM \"odom_corrected_rtree\"", [], |row| {
            row.get(0)
        })
        .unwrap();
    assert_eq!(rtree_rows, 2);

    // a cloud with intensities comes back as it was written
    let points = [[1.0f32, 2.0, 3.0], [4.0, 5.0, 6.0]].map(|p| p.map(f32::to_bits));
    let intensities = Some([7.0f32, 8.0].map(f32::to_bits).to_vec());
    let message = encode_pointcloud2(&points, &intensities, "odom_corrected_frame");
    assert!(message.is_readable());
    let read = read_scans("lidar_corrected", &[(bits(5.0), Some(message))]).unwrap();
    assert_eq!(read.len(), 1);
    assert_eq!(read[0].points, points.to_vec());
    assert_eq!(read[0].intensities, intensities);
    assert_eq!(read[0].frame_id, "odom_corrected_frame");
    // an empty cloud still names its fields
    let empty = encode_pointcloud2(&[], &None, "world");
    assert_eq!(empty.frame_id, "world");
    assert_eq!(empty.width, 0);
    assert_eq!(empty.fields.len(), 4);
}

#[test]
fn odometry_that_cannot_be_read_is_left_out() {
    let payload = OdomPayload::Odometry {
        position: [1.5, 0.0, 0.0].map(bits),
        orientation: [0.0, 0.0, 0.0, 1.0].map(bits),
        frame_id: "world".to_string(),
        child_frame_id: "base".to_string(),
    };
    let rows = read_odometry(
        "odom",
        &[(bits(9.0), OdomPayload::Unknown), (bits(10.0), payload)],
    )
    .unwrap();
    assert_eq!(rows.len(), 1);
    assert_eq!(number(rows[0].ts), 10.0);
}

#[test]
fn odometry_without_a_readable_row_is_an_error() {
    let error = read_odometry("odom", &[(bits(1.0), OdomPayload::Unknown)]).unwrap_err();
    assert!(error.contains("decoded no"));
    assert!(error.contains("odom"));
}

#[test]
fn scans_without_coordinates_are_an_error() {
    let flat = PointCloud2 {
        frame_id: "lidar".to_string(),
        fields: vec![PointField {
            name: "intensity".to_string(),
            offset: 0,
            datatype: 7,
        }],
        width: 1,
        height: 1,
        point_step: 4,
        row_step: 4,
        data: vec![0, 0, 0, 0],
    };
    assert!(flat.is_readable());
    assert!(extract_xyz(&flat).is_none());
    assert!(read_scans("lidar", &[(bits(1.0), Some(flat)), (bits(2.0), None)]).is_err());
}

#[test]
fn a_truncated_cloud_ends_with_its_last_whole_point() {
    let points = [[1.0f32, 2.0, 3.0], [4.0, 5.0, 6.0]].map(|p| p.map(f32::to_bits));
    let mut cloud = encode_pointcloud2(&points, &None, "lidar");
    cloud.data.truncate(20);
    assert!(cloud.is_readable());
    assert_eq!(extract_xyz(&cloud).unwrap().0, vec![points[0]]);
    // a field that reaches beyond the data cannot be read
    cloud.fields[0].offset = 18;
    assert!(!cloud.is_readable());
}

// ---- go2 recordings ----

#[test]
fn normalize_untouched_for_non_legacy() {
    let module = Some("dimos.msgs.nav_msgs.Odometry.Odometry".to_string());
    let legacy = is_go2_legacy("pointlio_odometry", &module);
    assert!(!legacy);
    match normalize_go2_legacy(legacy, &[], "world:base", "pointlio_odometry", "pointlio_lidar") {
        Normalization::Unchanged {
            odom_tf,
            odom_stream,
            lidar_stream,
        } => assert_eq!(
            (odom_tf, odom_stream, lidar_stream),
            (
                "world:base".to_string(),
                "pointlio_odometry".to_string(),
                "pointlio_lidar".to_string()
            )
        ),
        Normalization::Convert { .. } => panic!("not a go2 recording"),
    }
}

fn legacy_row(ts: f64, x: f64) -> OdomRow {
    OdomRow {
        ts: bits(ts),
        translation: [x, 0.0, 0.0].map(bits),
        quaternion_xyzw: [0.0, 0.0, 0.0, 1.0].map(bits),
        frame_id: "world".to_string(),
        child_frame_id: String::new(),
    }
}

#[test]
fn normalize_derives_l1_streams() {
    let module = Some("dimos.msgs.geometry_msgs.PoseStamped.PoseStamped".to_string());
    let legacy = is_go2_legacy("odom", &module);
    assert!(legacy);
    let rows: Vec<OdomRow> = vec![
        legacy_row(0.0, 0.0),
        legacy_row(1.0, 1.0),
        legacy_row(2.0, 2.0),
    ];
    match normalize_go2_legacy(legacy, &rows, "", "odom", "lidar") {
        Normalization::Convert {
            world_frame,
            base_frame,
            odom_tf,
            odom_stream,
            lidar_stream,
        } => {
            assert_eq!(world_frame, "world");
            assert_eq!(base_frame, "base_link");
            assert_eq!(odom_tf, "world:l1_link");
            assert_eq!(odom_stream, "go2_odometry");
            assert_eq!(lidar_stream, "l1_cloud");
        }
        Normalization::Unchanged { .. } => panic!("a go2 recording"),
    }
    assert!(is_world_framed("world", "world"));
    assert!(!is_world_framed("l1_link", "world"));
    assert_eq!(odom_pose_rows(&rows).len(), 3);

    // the edge into the sensor frame is there exactly once, however often it is written
    let tf_row = |child: &str| TfRow {
        row: RawRow {
            ts: bits(0.0),
            pose: None,
            tags_json: "{}".to_string(),
            blob: child.as_bytes().to_vec(),
        },
        edges: vec![("base_link".to_string(), child.to_string())],
    };
    let (kept, removed) = strip_stale_edges(vec![tf_row("l1_link"), tf_row("camera"), tf_row("l1_link")]);
    assert_eq!(removed, 2);
    assert_eq!(kept.len(), 1);
    assert_eq!(kept[0].row.blob, b"camera".to_vec());
}

#[test]
fn conversions_leave_one_edge_to_the_sensor() {
    let edge = sensor_edge("base_link");
    assert_eq!((edge.parent.as_str(), edge.child.as_str()), ("base_link", "l1_link"));
    assert_eq!(edge.translation.map(number), [0.0; 3]);
    assert_eq!(edge.quaternion_xyzw.map(number), [0.0, 0.0, 0.0, 1.0]);

    let recorded = TfRow {
        row: RawRow {
            ts: bits(0.5),
            pose: Some(moved(3.0)),
            tags_json: "{\"a\": 1}".to_string(),
            blob: vec![7],
        },
        edges: vec![
            ("world".to_string(), "base_link".to_string()),
            ("base_link".to_string(), "camera".to_string()),
        ],
    };
    let mut rows = vec![recorded];
    for (n, base) in ["base_link", "trunk", "base"].iter().enumerate() {
        let (mut kept, stale) = strip_stale_edges(rows);
        assert_eq!(stale, if n == 0 { 0 } else { 1 });
        kept.push(sensor_row(bits(n as f64), base, vec![n as u8]));
        rows = kept;
    }
    assert_eq!(rows.len(), 2);
    assert_eq!(rows[0].row.ts, bits(0.5));
    assert_eq!(rows[0].row.pose, Some(moved(3.0)));
    assert_eq!(rows[0].row.tags_json, "{\"a\": 1}");
    assert_eq!(rows[0].row.blob, vec![7]);
    assert_eq!(rows[1].edges, vec![("base".to_string(), "l1_link".to_string())]);
    assert_eq!(rows[1].row.ts, bits(2.0));
    assert_eq!(rows[1].row.pose, None);
    assert_eq!(rows[1].row.tags_json, "{\"child_frame\": \"l1_link\"}");
    assert_eq!(rows[1].row.blob, vec![2]);
}

#[test]
fn poses_that_are_not_finite_are_dropped() {
    let rows = vec![legacy_row(0.0, f64::NAN), legacy_row(1.0, 1.0)];
    let kept = odom_pose_rows(&rows);
    assert_eq!(kept.len(), 1);
    assert_eq!(kept[0][0], bits(1.0));
    assert_eq!(kept[0][1], bits(1.0));
}

// ---- transforms ----

fn sample(ts: f64, parent: &str, child: &str, translation: [f64; 3]) -> TfSample {
    TfSample {
        ts: bits(ts),
        parent: parent.to_string(),
        child: child.to_string(),
        translation: translation.map(bits),
        quaternion_xyzw: [0.0, 0.0, 0.0, 1.0].map(bits),
    }
}

fn translation_of(chain: &[TfStep]) -> [f64; 3] {
    let mut out = [0.0; 3];
    for step in chain {
        for (axis, value) in out.iter_mut().enumerate() {
            let t = number(step.pose[axis]);
            *value += if step.inverted { -t } else { t };
        }
    }
    out
}

#[test]
fn chains_and_latches_past_only() {
    let tf = RecordingTf::from_samples(&[
        sample(0.0, "world", "odom", [1.0, 0.0, 0.0]),
        sample(0.0, "odom", "base", [0.0, 1.0, 0.0]),
        sample(5.0, "odom", "base", [0.0, 2.0, 0.0]),
    ]);
    let early = tf.get("world", "base", bits(1.0)).unwrap();
    assert_eq!(translation_of(&early), [1.0, 1.0, 0.0]);
    let late = tf.get("world", "base", bits(10.0)).unwrap();
    assert_eq!(translation_of(&late), [1.0, 2.0, 0.0]);
    assert!(tf.get("world", "base", bits(-1.0)).is_err());
    let inverse = tf.get("base", "world", bits(1.0)).unwrap();
    assert_eq!(translation_of(&inverse), [-1.0, -1.0, 0.0]);
}

fn deviation(x: f64) -> Deviation {
    Deviation {
        translation: bits(x),
        rotation: [0.0; 9].map(bits),
    }
}

fn static_flags(tf: &RecordingTf) -> Vec<bool> {
    (0..tf.edge_count())
        .map(|i| {
            let samples = &tf.edge(i).samples;
            let first = number(samples[0].1[0]);
            let deviations: Vec<Deviation> = samples[1..]
                .iter()
                .map(|s| deviation((number(s.1[0]) - first).abs()))
                .collect();
            edge_is_static(&deviations)
        })
        .collect()
}

#[test]
fn override_drops_dynamic_edges_only() {
    let mut tf = RecordingTf::from_samples(&[
        sample(0.0, "base", "sensor", [0.5, 0.0, 0.0]),
        sample(0.0, "world", "base", [0.0, 0.0, 0.0]),
        sample(1.0, "world", "base", [9.0, 0.0, 0.0]),
    ]);
    let flags = static_flags(&tf);
    let trajectory: Vec<Sample> = vec![(bits(0.0), moved(2.0))];
    tf.override_edge("world", "base", &trajectory, &flags);
    let pose = tf.get("world", "sensor", bits(3.0)).unwrap();
    assert_eq!(translation_of(&pose), [2.5, 0.0, 0.0]);
}

#[test]
fn a_failed_lookup_shows_the_tree() {
    let tf = RecordingTf::from_samples(&[sample(0.0, "world", "odom", [1.0, 0.0, 0.0])]);
    let error = tf.get("world", "camera", bits(1.0)).unwrap_err();
    assert_eq!(
        error.message("1"),
        "tf lookup failed:\n  tree: world->odom\n  timestamp: 1\n  failed query: \"world\" <- \"camera\""
    );
    let empty = RecordingTf::from_samples(&[]);
    let error = empty.get("a", "b", bits(0.0)).unwrap_err();
    assert!(error.message("0").contains("tree: <none>"));
    assert!(empty.get("a", "a", bits(0.0)).unwrap().is_empty());
}

#[test]
fn frames_are_listed_once() {
    let tf = RecordingTf::from_samples(&[
        sample(0.0, "world", "odom", [0.0; 3]),
        sample(0.0, "odom", "base", [0.0; 3]),
    ]);
    let mut frames = tf.frames();
    frames.sort();
    assert_eq!(frames, strings(&["base", "odom", "world"]));
    assert!(tf.has_edge("world", "odom"));
    assert!(!tf.has_edge("odom", "world"));
}

#[test]
fn an_edge_moves_beyond_the_tolerance() {
    assert!(edge_is_static(&[deviation(1e-7)]));
    assert!(!edge_is_static(&[deviation(1e-7), deviation(1e-5)]));
    let mut turned = deviation(0.0);
    turned.rotation[4] = bits(1e-4);
    assert!(!edge_is_static(&[turned]));
}

#[test]
fn transforms_without_a_stamp_take_the_time_of_their_row() {
    let entry = |stamp: f64, child: &str| TransformEntry {
        stamp: bits(stamp),
        parent: "world".to_string(),
        child: child.to_string(),
        translation: [0.0; 3].map(bits),
        quaternion_xyzw: [0.0, 0.0, 0.0, 1.0].map(bits),
    };
    let samples = read_tf(&[(bits(9.0), vec![entry(0.0, "a"), entry(4.0, "b")])]);
    assert_eq!(samples.len(), 2);
    assert_eq!(samples[0].ts, bits(9.0));
    assert_eq!(samples[1].ts, bits(4.0));
    assert!(has_stream(&strings(&["tf"]), "tf"));
    assert!(!has_stream(&strings(&["tf"]), "t"));
}

#[test]
fn frames_find_each_other_from_either_side() {
    let tf = RecordingTf::from_samples(&[sample(0.0, "odom", "base", [0.0, 1.0, 0.0])]);
    let along = tf.get("odom", "base", bits(1.0)).unwrap();
    let against = tf.get("base", "odom", bits(1.0)).unwrap();
    assert_eq!(along.len(), 1);
    assert_eq!(against.len(), 1);
    assert_eq!(along[0].pose, against[0].pose);
    assert!(!along[0].inverted);
    assert!(against[0].inverted);
    assert!(tf.get("odom", "base", bits(-1.0)).is_err());
    assert!(tf.get("base", "odom", bits(-1.0)).is_err());
}

#[test]
fn an_overridden_edge_follows_its_trajectory() {
    let mut tf = RecordingTf::from_samples(&[
        sample(0.0, "odom", "base", [9.0, 0.0, 0.0]),
        sample(0.0, "base", "odom", [7.0, 0.0, 0.0]),
    ]);
    let trajectory: [Sample; 2] = [(bits(2.0), moved(2.0)), (bits(1.0), moved(1.0))];
    tf.override_edge("odom", "base", &trajectory, &[true, true]);
    let first = tf.get("odom", "base", bits(1.5)).unwrap();
    assert_eq!(translation_of(&first), [1.0, 0.0, 0.0]);
    let second = tf.get("odom", "base", bits(3.0)).unwrap();
    assert_eq!(translation_of(&second), [2.0, 0.0, 0.0]);
}

#[test]
fn a_lookup_goes_round_an_edge_that_has_no_past() {
    let tf = RecordingTf::from_samples(&[
        sample(10.0, "a", "b", [9.0, 0.0, 0.0]),
        sample(0.0, "a", "c", [1.0, 0.0, 0.0]),
        sample(0.0, "c", "b", [0.0, 1.0, 0.0]),
    ]);
    let round = tf.get("a", "b", bits(5.0)).unwrap();
    assert_eq!(round.len(), 2);
    assert_eq!(translation_of(&round), [1.0, 1.0, 0.0]);
    let straight = tf.get("a", "b", bits(10.0)).unwrap();
    assert_eq!(straight.len(), 1);
    assert_eq!(translation_of(&straight), [9.0, 0.0, 0.0]);
    assert!(tf.get("a", "b", bits(-1.0)).is_err());

    // the edge without a past is met first, further along
    let deeper = RecordingTf::from_samples(&[
        sample(0.0, "w", "a", [0.0, 0.0, 1.0]),
        sample(10.0, "w", "b", [9.0, 0.0, 0.0]),
        sample(0.0, "a", "b", [0.0, 1.0, 0.0]),
        sample(0.0, "b", "goal", [1.0, 0.0, 0.0]),
    ]);
    let chain = deeper.get("w", "goal", bits(5.0)).unwrap();
    assert_eq!(translation_of(&chain), [1.0, 1.0, 1.0]);
    let back = deeper.get("goal", "w", bits(5.0)).unwrap();
    assert_eq!(translation_of(&back), [-1.0, -1.0, -1.0]);
}

#[test]
fn a_lookup_takes_as_few_steps_as_it_can() {
    let tf = RecordingTf::from_samples(&[
        sample(0.0, "a", "b", [1.0, 0.0, 0.0]),
        sample(0.0, "b", "c", [1.0, 0.0, 0.0]),
        sample(0.0, "c", "d", [1.0, 0.0, 0.0]),
        sample(0.0, "a", "e", [0.0, 4.0, 0.0]),
        sample(0.0, "d", "e", [0.0, 2.0, 0.0]),
    ]);
    let chain = tf.get("a", "d", bits(1.0)).unwrap();
    assert_eq!(chain.len(), 2);
    assert_eq!(translation_of(&chain), [0.0, 2.0, 0.0]);
    assert_eq!(tf.get("d", "a", bits(1.0)).unwrap().len(), 2);
}

#[test]
fn only_the_trajectory_moves_after_an_override() {
    let mut tf = RecordingTf::from_samples(&[
        sample(0.0, "base", "sensor", [0.5, 0.0, 0.0]),
        sample(0.0, "world", "base", [0.0, 0.0, 0.0]),
        sample(1.0, "world", "base", [9.0, 0.0, 0.0]),
        sample(0.0, "world", "door", [0.0, 0.0, 0.0]),
        sample(1.0, "world", "door", [3.0, 0.0, 0.0]),
    ]);
    let flags = static_flags(&tf);
    tf.override_edge("map", "base", &[(bits(0.0), moved(2.0))], &flags);
    assert_eq!(tf.edge_count(), 2);
    assert!(tf.has_edge("base", "sensor"));
    assert!(tf.has_edge("map", "base"));
    assert!(!tf.has_edge("world", "base"));
    assert!(!tf.has_edge("world", "door"));
    let pose = tf.get("map", "sensor", bits(3.0)).unwrap();
    assert_eq!(translation_of(&pose), [2.5, 0.0, 0.0]);
    let mount = tf.get("base", "sensor", bits(3.0)).unwrap();
    assert_eq!(translation_of(&mount), [0.5, 0.0, 0.0]);
}

// ---- queries ----

#[test]
fn stored_rows_come_back_by_time() {
    let connection = Connection::open_in_memory().unwrap();
    make_stream(&connection, "late", "dimos.Thing");
    append_row(&connection, "late", bits(2.0), Some(moved(5.0)), &[], &[2]);
    append_row(&connection, "late", bits(1.0), None, &[], &[1]);

    let mut statement = connection.prepare(&payload_query("late").unwrap()).unwrap();
    let rows: Vec<(f64, Vec<u8>)> = statement
        .query_map([], |row| Ok((row.get(0)?, row.get(1)?)))
        .unwrap()
        .map(|row| row.unwrap())
        .collect();
    assert_eq!(rows, vec![(1.0, vec![1]), (2.0, vec![2])]);

    let mut raw = connection.prepare(&raw_query("late").unwrap()).unwrap();
    let columns: Vec<(f64, Option<f64>, Option<f64>, String, Vec<u8>)> = raw
        .query_map([], |row| {
            Ok((row.get(0)?, row.get(1)?, row.get(7)?, row.get(8)?, row.get(9)?))
        })
        .unwrap()
        .map(|row| row.unwrap())
        .collect();
    assert_eq!(columns[0], (1.0, None, None, "{}".to_string(), vec![1]));
    assert_eq!(columns[1], (2.0, Some(5.0), Some(1.0), "{}".to_string(), vec![2]));

    let first: Vec<u8> = connection
        .query_row(&first_payload_query("blob.data", "late").unwrap(), [], |row| row.get(0))
        .unwrap();
    assert_eq!(first, vec![1]);
}

#[test]
fn a_name_with_a_quote_is_no_stream() {
    for outcome in [
        payload_query("a\"b"),
        raw_query("a\"b"),
        first_payload_query("blob.data", "a\"b"),
    ] {
        assert_eq!(outcome, Err("illegal stream name \"a\\\"b\"".to_string()));
    }
}

#[test]
fn every_pose_row_keeps_its_numbers() {
    let row = |x: f64| OdomRow {
        ts: bits(3.0),
        translation: [x, 2.0, 3.0].map(bits),
        quaternion_xyzw: [0.0, 0.0, 0.0, 1.0].map(bits),
        frame_id: "world".to_string(),
        child_frame_id: String::new(),
    };
    let rows = [row(1.0), row(f64::NAN)];
    let all = pose_rows(&rows);
    assert_eq!(all.len(), 2);
    assert_eq!(all[0].map(number), [3.0, 1.0, 2.0, 3.0, 0.0, 0.0, 0.0, 1.0]);
    assert!(number(all[1][1]).is_nan());
    assert_eq!(odom_pose_rows(&rows).len(), 1);
}
