//! Byte layouts of the messages and the registry.

use icp_stitch::memory2::{
    append_statements, create_stream, delete_stream, index_statement, quote_ident,
    stream_config_json, tags_json, text_tag, Tag,
};
use icp_stitch::msgs::{
    fnv1a_64, tf_id_for, write_f64_be, write_str, write_u32_be, write_u64_be, DecodeError,
    DeformationNode, DeltaTransform, Edge, Graph3D, GraphDelta3D, LocationConstraint, Node3D,
    PoseStamped, Reader,
};

fn bits(v: f64) -> u64 {
    v.to_bits()
}

#[test]
fn stream_config_matches_python_registry_bytes() {
    let expected = "{\"payload_module\": \"dimos.msgs.nav_msgs.Odometry.Odometry\", \
                    \"codec_id\": \"lcm\", \"eager_blobs\": false, \"page_size\": 256, \
                    \"blob_store\": {\"class\": \"dimos.memory2.blobstore.sqlite.SqliteBlobStore\", \"config\": {\"path\": null}}, \
                    \"vector_store\": {\"class\": \"dimos.memory2.vectorstore.sqlite.SqliteVectorStore\", \"config\": {\"path\": null}}, \
                    \"notifier\": {\"class\": \"dimos.memory2.notifier.subject.SubjectNotifier\", \"config\": {}}}";
    assert_eq!(
        stream_config_json("dimos.msgs.nav_msgs.Odometry.Odometry"),
        expected
    );
}

#[test]
fn fnv1a_matches_python_reference() {
    assert_eq!(tf_id_for("map", "odom"), 3863314957514174452);
}

#[test]
fn fnv1a_of_nothing_is_the_offset_basis() {
    assert_eq!(fnv1a_64(""), 0xCBF29CE484222325);
    assert_eq!(fnv1a_64("a"), 0xAF63DC4C8601EC8C);
}

fn constraint_payload() -> (Vec<u8>, usize) {
    let mut buf: Vec<u8> = Vec::new();
    write_f64_be(&mut buf, bits(123.5));
    for s in ["apriltag://36h11/40cm/5", "base_link", "inst-1"] {
        write_str(&mut buf, s);
    }
    for v in [1.0, 2.0, 3.0, 0.0, 0.0, 0.0, 1.0] {
        write_f64_be(&mut buf, bits(v));
    }
    for i in 0..36 {
        write_f64_be(&mut buf, bits(i as f64 * 0.5));
    }
    let head_len = buf.len();
    for s in ["map0", "apriltag"] {
        write_str(&mut buf, s);
    }
    (buf, head_len)
}

#[test]
fn location_constraint_round_trip_with_tail() {
    let (buf, head_len) = constraint_payload();
    let c = LocationConstraint::decode(&buf).unwrap();
    assert_eq!(c.ts, bits(123.5));
    assert_eq!(c.to_id, "apriltag://36h11/40cm/5");
    assert_eq!(c.frame_id, "base_link");
    assert_eq!(c.constraint_instance_id, "inst-1");
    assert_eq!(c.map_id, "map0");
    assert_eq!(c.kind, "apriltag");
    assert_eq!(c.position, [1.0, 2.0, 3.0].map(bits));
    assert_eq!(c.orientation, [0.0, 0.0, 0.0, 1.0].map(bits));
    assert_eq!(c.covariance[35], bits(17.5));

    let old = LocationConstraint::decode(&buf[..head_len]).unwrap();
    assert_eq!(old.map_id, "");
    assert_eq!(old.kind, "");
    assert_eq!(old.to_id, c.to_id);
}

#[test]
fn a_cut_off_constraint_says_what_is_missing() {
    let (buf, _) = constraint_payload();
    let error = LocationConstraint::decode(&buf[..5]).unwrap_err();
    assert_eq!(
        error,
        DecodeError::UnexpectedEof {
            needed: 8,
            available: 5
        }
    );
}

#[test]
fn a_constraint_with_half_a_tail_has_no_kind() {
    let (buf, head_len) = constraint_payload();
    let half = LocationConstraint::decode(&buf[..head_len + 8]).unwrap();
    assert_eq!(half.map_id, "map0");
    assert_eq!(half.kind, "");
}

#[test]
fn text_that_is_no_utf8_is_refused() {
    let mut buf: Vec<u8> = Vec::new();
    write_u32_be(&mut buf, 2);
    buf.push(0xff);
    buf.push(0xfe);
    let error = Reader::new(&buf).string().unwrap_err();
    assert!(matches!(error, DecodeError::InvalidUtf8 { .. }));
    assert!(error.message().contains("invalid utf-8"));
    let mut good: Vec<u8> = Vec::new();
    write_str(&mut good, "h\u{e4}");
    assert_eq!(Reader::new(&good).string().unwrap(), "h\u{e4}");
}

#[test]
fn numbers_are_big_endian() {
    let mut buf: Vec<u8> = Vec::new();
    write_u32_be(&mut buf, 0x0102_0304);
    write_u64_be(&mut buf, 0x0102_0304_0506_0708);
    write_f64_be(&mut buf, bits(1.0));
    assert_eq!(
        buf,
        vec![1, 2, 3, 4, 1, 2, 3, 4, 5, 6, 7, 8, 0x3f, 0xf0, 0, 0, 0, 0, 0, 0]
    );
    let mut reader = Reader::new(&buf);
    assert_eq!(reader.remaining(), 20);
    assert_eq!(reader.u32().unwrap(), 0x0102_0304);
    assert_eq!(reader.take(8).unwrap(), vec![1, 2, 3, 4, 5, 6, 7, 8]);
    assert_eq!(reader.f64_bits().unwrap(), bits(1.0));
    assert_eq!(reader.remaining(), 0);
}

fn node(id: u64) -> Node3D {
    Node3D {
        pose: PoseStamped {
            ts: bits(2.0),
            frame_id: "w".to_string(),
            position: [1.0, 2.0, 3.0].map(bits),
            orientation: [0.0, 0.0, 0.0, 1.0].map(bits),
        },
        id,
        metadata_id: 0,
    }
}

#[test]
fn a_graph_is_its_counts_nodes_and_edges() {
    let graph = Graph3D {
        ts: bits(2.0),
        nodes: vec![node(0), node(1)],
        edges: vec![Edge {
            start_id: 0,
            end_id: 1,
            timestamp: bits(2.0),
            metadata_id: 0,
        }],
    };
    let out = graph.encode();
    // a pose is 8 + 4 + 1 + 7 * 8 bytes here, a node 16 more, an edge 4 * 8
    assert_eq!(out.len(), 24 + 2 * (69 + 16) + 32);
    assert_eq!(&out[..8], &1u64.to_be_bytes());
    assert_eq!(&out[8..16], &2u64.to_be_bytes());
    assert_eq!(&out[16..24], &bits(2.0).to_be_bytes());
    let empty = Graph3D::default().encode();
    assert_eq!(empty, vec![0u8; 24]);
}

#[test]
fn a_graph_delta_pairs_nodes_with_transforms() {
    let delta = GraphDelta3D {
        ts: bits(1.0),
        nodes: vec![node(7)],
        transforms: vec![DeltaTransform {
            translation: [1.0, 0.0, 0.0].map(bits),
            rotation: [0.0, 0.0, 0.0, 1.0].map(bits),
        }],
    };
    let out = delta.encode();
    assert_eq!(out.len(), 16 + (69 + 16) + 56);
    assert_eq!(&out[..8], &1u64.to_be_bytes());
    assert_eq!(&out[8..16], &bits(1.0).to_be_bytes());
}

#[test]
fn a_deformation_node_starts_with_its_ids() {
    let out = DeformationNode {
        id: 3,
        tf_id: tf_id_for("world", "base"),
        pose: node(0).pose,
    }
    .encode();
    assert_eq!(out.len(), 16 + 69);
    assert_eq!(&out[..8], &3u64.to_be_bytes());
    assert_eq!(&out[8..16], &tf_id_for("world", "base").to_be_bytes());
}

#[test]
fn names_with_quotes_are_refused() {
    assert_eq!(quote_ident("odom").unwrap(), "\"odom\"");
    assert_eq!(
        quote_ident("o\"dom").unwrap_err(),
        "illegal stream name \"o\\\"dom\""
    );
    assert!(create_stream("a\"b").is_err());
    assert!(delete_stream("a\"b").is_err());
    assert!(append_statements("a\"b").is_err());
    assert!(index_statement("a\"b", "id").is_err());
    assert_eq!(
        index_statement("ok", "i'd").unwrap_err(),
        "illegal tag key \"i'd\""
    );
}

#[test]
fn tags_are_a_json_object_in_their_order() {
    assert_eq!(tags_json(&[]), "{}");
    let tags = vec![
        text_tag("id", "1"),
        Tag {
            key: "marker_id".to_string(),
            value: "7".to_string(),
        },
    ];
    assert_eq!(tags_json(&tags), "{\"id\": \"1\", \"marker_id\": 7}");
}
