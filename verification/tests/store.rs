//! What is changed in a recording, carried out on a database.

use icp_stitch::helpers::{add_go2_camera_info, camera_info_changes};
use icp_stitch::memory2::{
    append_statements, create_stream, delete_stream, pose_columns, stream_config_json, RawRow,
};
use icp_stitch::pipeline::{derived_streams, next_stage, stage_outputs, RunFacts, RunOptions, Stage};
use icp_stitch::recording::{conversion_changes, sensor_row, TfRow};
use icp_stitch::store::{Change, Writer};
use rusqlite::Connection;

fn bits(v: f64) -> u64 {
    v.to_bits()
}

fn strings(names: &[&str]) -> Vec<String> {
    names.iter().map(|s| s.to_string()).collect()
}

fn row(ts: f64, blob: &[u8]) -> RawRow {
    RawRow {
        ts: bits(ts),
        pose: None,
        tags_json: "{}".to_string(),
        blob: blob.to_vec(),
    }
}

/// A database with these streams, each with one row.
fn recording(names: &[&str]) -> Connection {
    let connection = Connection::open_in_memory().unwrap();
    connection
        .execute_batch("CREATE TABLE _streams (name TEXT PRIMARY KEY, config TEXT NOT NULL)")
        .unwrap();
    for (n, name) in names.iter().enumerate() {
        perform(&connection, &replace(name));
        perform(
            &connection,
            &Change::Append {
                stream: name.to_string(),
                row: row(n as f64, &[n as u8, 7]),
            },
        );
    }
    connection
}

fn replace(name: &str) -> Change {
    Change::Replace {
        stream: name.to_string(),
        module: "dimos.Thing".to_string(),
    }
}

fn perform(connection: &Connection, change: &Change) {
    match change {
        Change::Replace { stream, module } => {
            for sql in delete_stream(stream).unwrap() {
                connection.execute_batch(&sql).unwrap();
            }
            connection
                .execute(
                    "INSERT OR REPLACE INTO _streams (name, config) VALUES (?, ?)",
                    (stream, stream_config_json(module)),
                )
                .unwrap();
            connection
                .execute_batch(&create_stream(stream).unwrap())
                .unwrap();
        }
        Change::Append { stream, row } => {
            let sql = append_statements(stream).unwrap();
            let c = pose_columns(row.pose).map(|column| column.map(f64::from_bits));
            let ts = f64::from_bits(row.ts);
            let none = None::<f64>;
            let tags = &row.tags_json;
            connection
                .execute(
                    &sql.meta,
                    (ts, none, c[0], c[1], c[2], c[3], c[4], c[5], c[6], tags),
                )
                .unwrap();
            let id = connection.last_insert_rowid();
            connection.execute(&sql.blob, (id, &row.blob)).unwrap();
        }
    }
}

fn listing(connection: &Connection) -> Vec<String> {
    let mut statement = connection
        .prepare("SELECT name FROM _streams ORDER BY name")
        .unwrap();
    let names = statement.query_map([], |row| row.get(0)).unwrap();
    names.map(|name| name.unwrap()).collect()
}

fn rows(connection: &Connection, stream: &str) -> Vec<(f64, Vec<u8>)> {
    let query = icp_stitch::memory2::payload_query(stream).unwrap();
    let mut statement = connection.prepare(&query).unwrap();
    let rows = statement
        .query_map([], |row| Ok((row.get(0)?, row.get(1)?)))
        .unwrap();
    rows.map(|row| row.unwrap()).collect()
}

#[test]
fn a_writer_keeps_to_its_streams() {
    let mut writer = Writer::new(strings(&["out"]));
    assert!(writer.replace("odom", "dimos.Thing").is_none());
    assert!(writer.append("out", row(1.0, &[1])).is_none());
    assert!(!writer.has_begun(&strings(&["out"])));
    assert!(writer.has_begun(&[]));
    match writer.replace("out", "dimos.Thing") {
        Some(Change::Replace { stream, module }) => {
            assert_eq!((stream.as_str(), module.as_str()), ("out", "dimos.Thing"));
        }
        other => panic!("{other:?}"),
    }
    assert!(writer.has_begun(&strings(&["out"])));
    assert!(!writer.has_begun(&strings(&["out", "odom"])));
    assert!(writer.append("odom", row(1.0, &[1])).is_none());
    match writer.append("out", row(1.0, &[1, 2])) {
        Some(Change::Append { stream, row }) => {
            assert_eq!(stream, "out");
            assert_eq!(row.ts, bits(1.0));
            assert_eq!(row.blob, vec![1, 2]);
        }
        other => panic!("{other:?}"),
    }
}

const FULL: RunOptions = RunOptions {
    write_odom: true,
    write_lidar: true,
    icp: true,
    lcm: true,
    rrd: true,
    accum: true,
};

/// Carries out what a run writes, with one row in each stream.
fn run(connection: &Connection, options: RunOptions) {
    let derived = derived_streams("odom", "lidar", "raw_april_tags", "_corrected", "", false);
    let mut writer = Writer::new(derived);
    let mut facts = RunFacts {
        accepted: 0,
        corrected_odom: false,
    };
    let mut stage = Stage::SolveTags;
    while stage != Stage::Done {
        let outputs = stage_outputs(stage, "odom", "lidar", "_corrected", "");
        for name in &outputs {
            perform(connection, &writer.replace(name, "dimos.Thing").unwrap());
            perform(connection, &writer.append(name, row(5.0, &[9])).unwrap());
        }
        assert!(writer.has_begun(&outputs));
        if stage == Stage::AccumulateRaw {
            facts.corrected_odom = listing(connection).contains(&"odom_corrected".to_string());
        }
        stage = next_stage(stage, options, facts);
    }
}

#[test]
fn a_run_adds_what_it_derives_and_keeps_the_rest() {
    let recorded = ["camera_info", "color_image", "lidar", "odom", "tf"];
    let connection = recording(&recorded);
    let before: Vec<Vec<(f64, Vec<u8>)>> =
        recorded.iter().map(|name| rows(&connection, name)).collect();
    run(&connection, FULL);
    let after = listing(&connection);
    assert_eq!(
        after,
        strings(&[
            "camera_info",
            "color_image",
            "lidar",
            "lidar_accumulated",
            "lidar_corrected",
            "lidar_corrected_accumulated",
            "odom",
            "odom_corrected",
            "pose_graph",
            "tf",
            "tf_deformation_nodes_corrected",
        ])
    );
    let kept: Vec<Vec<(f64, Vec<u8>)>> =
        recorded.iter().map(|name| rows(&connection, name)).collect();
    assert_eq!(kept, before);
    // a second run leaves the same listing, and one row where there was one
    run(&connection, FULL);
    assert_eq!(listing(&connection), after);
    assert_eq!(rows(&connection, "odom_corrected"), vec![(5.0, vec![9])]);
}

#[test]
fn clouds_are_not_accumulated_along_odometry_that_is_not_there() {
    let connection = recording(&["lidar", "odom"]);
    let options = RunOptions {
        write_odom: false,
        ..FULL
    };
    run(&connection, options);
    let once = listing(&connection);
    assert!(once.contains(&"lidar_accumulated".to_string()));
    assert!(!once.contains(&"lidar_corrected_accumulated".to_string()));
    run(&connection, options);
    assert_eq!(listing(&connection), once);
    // the odometry of an earlier run will do
    run(&connection, FULL);
    run(&connection, options);
    assert!(listing(&connection).contains(&"lidar_corrected_accumulated".to_string()));
}

#[test]
fn every_output_is_derived() {
    for converted in [false, true] {
        let derived = derived_streams("a", "b", "tags", "_corrected", "_x", converted);
        let mut stage = Stage::SolveTags;
        let facts = RunFacts {
            accepted: 1,
            corrected_odom: true,
        };
        let mut count = 0;
        while stage != Stage::Done {
            for name in stage_outputs(stage, "a", "b", "_corrected", "_x") {
                assert!(derived.contains(&name));
                count += 1;
            }
            stage = next_stage(stage, FULL, facts);
        }
        assert_eq!(count, 6);
        // what is read is not written, under whatever name
        assert!(!derived.contains(&"a".to_string()));
        assert!(!derived.contains(&"b".to_string()));
    }
    // unless it is called as something that is
    let derived = derived_streams("pose_graph", "b", "tags", "_corrected", "", false);
    assert!(derived.contains(&"pose_graph".to_string()));
}

#[test]
fn the_fixup_writes_one_row_however_often_it_runs() {
    let connection = recording(&["color_image", "odom"]);
    let images = rows(&connection, "color_image");
    for _ in 0..2 {
        let calibration = add_go2_camera_info("color_image", 1280, 720, "camera").unwrap();
        assert_eq!((calibration.width, calibration.height), (1280, 720));
        assert_eq!(calibration.distortion_model, "equidistant");
        let (ts, _) = rows(&connection, "color_image")[0].clone();
        for change in &camera_info_changes(bits(ts), vec![3, 4]) {
            perform(&connection, change);
        }
        assert_eq!(rows(&connection, "camera_info"), vec![(ts, vec![3, 4])]);
        assert_eq!(rows(&connection, "color_image"), images);
        assert_eq!(listing(&connection), strings(&["camera_info", "color_image", "odom"]));
    }
    let config: String = connection
        .query_row("SELECT config FROM _streams WHERE name = 'camera_info'", [], |row| row.get(0))
        .unwrap();
    assert!(config.contains("dimos.msgs.sensor_msgs.CameraInfo.CameraInfo"));
}

fn tf_row(ts: f64, child: &str, blob: u8) -> TfRow {
    TfRow {
        row: row(ts, &[blob]),
        edges: vec![("world".to_string(), child.to_string())],
    }
}

#[test]
fn a_conversion_keeps_the_recorded_transforms() {
    let connection = recording(&["odom", "tf"]);
    let recorded = rows(&connection, "tf");
    // nothing is stale at first: the row is appended
    let added = sensor_row(bits(2.0), "base", vec![8]);
    let (changes, stale) = conversion_changes(vec![tf_row(1.0, "camera", 7)], added);
    assert_eq!(stale, 0);
    assert_eq!(changes.len(), 1);
    for change in &changes {
        perform(&connection, change);
    }
    let mut expected = recorded.clone();
    expected.push((2.0, vec![8]));
    assert_eq!(rows(&connection, "tf"), expected);
    // then it is, and its place is taken
    let mut before = tf_row(1.0, "camera", 7);
    before.row.blob = recorded[0].1.clone();
    let added = sensor_row(bits(3.0), "base", vec![9]);
    let (changes, stale) = conversion_changes(vec![before, tf_row(2.0, "l1_link", 8)], added);
    assert_eq!(stale, 1);
    for change in &changes {
        perform(&connection, change);
    }
    expected[1] = (3.0, vec![9]);
    assert_eq!(rows(&connection, "tf"), expected);
    assert_eq!(rows(&connection, "odom").len(), 1);
}
