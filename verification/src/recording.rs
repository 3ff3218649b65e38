//! Which streams and frames of a recording are used, and how a recording of the older go2
//! kind is brought into the common shape.
//!
//! Such a recording stores its lidar already registered in a world frame and its odometry
//! as bare poses. From it are derived sensor-frame scans (`l1_cloud`), a static transform
//! from the base to the sensor (`l1_link`), and a proper odometry stream (`go2_odometry`).

use crate::helpers::TF_STREAM;
use crate::ieee::{finite, is_finite, F64Bits};
use crate::memory2::{has_stream, OdomRow, RawRow};
use crate::store::{
    after_edits, appended, edits_of, entry_of, lemma_edits_join, lemma_rows_are_appended,
    lemma_stream_is_written, stream_edits, Change, Edit, Entry, Table,
};
use crate::text::{same, split_once, texts};
use vstd::prelude::*;
use vstd::string::StringExecFns;

verus! {

// ---- streams ----

/// The odometry streams that are known, in the order in which they are looked for.
pub open spec fn known_odometry() -> Seq<Seq<char>> {
    seq!["pointlio_odometry"@, "fastlio_odometry"@, "go2_odom"@, "odom"@]
}

/// The lidar streams that go with an odometry stream, in the order in which they are
/// looked for, so that one recording never mixes rigs.
pub open spec fn lidars_for(odom: Seq<char>) -> Seq<Seq<char>> {
    if odom == "pointlio_odometry"@ {
        seq!["pointlio_lidar"@]
    } else if odom == "fastlio_odometry"@ {
        seq!["fastlio_lidar"@]
    } else if odom == "go2_odom"@ {
        seq!["go2_lidar"@, "l1_lidar"@, "lidar"@]
    } else {
        seq!["lidar"@]
    }
}

/// The first of the names that is available, else the fallback.
pub open spec fn first_available(
    names: Seq<Seq<char>>,
    available: Seq<Seq<char>>,
    fallback: Seq<char>,
) -> Seq<char>
    decreases names.len(),
{
    if names.len() == 0 {
        fallback
    } else if available.contains(names[0]) {
        names[0]
    } else {
        first_available(names.skip(1), available, fallback)
    }
}

/// The odometry stream to use.
pub open spec fn resolved_odom(available: Seq<Seq<char>>, odom: Seq<char>) -> Seq<char> {
    if odom.len() > 0 {
        odom
    } else {
        first_available(known_odometry(), available, "odom"@)
    }
}

/// The lidar stream to use with the odometry stream.
pub open spec fn resolved_lidar(
    available: Seq<Seq<char>>,
    odom: Seq<char>,
    lidar: Seq<char>,
) -> Seq<char> {
    if lidar.len() > 0 {
        lidar
    } else {
        first_available(lidars_for(odom), available, lidars_for(odom)[0])
    }
}

fn odometry_names() -> (names: Vec<String>)
    ensures
        texts(names@) == known_odometry(),
{
    let mut names: Vec<String> = Vec::new();
    names.push("pointlio_odometry".to_owned());
    names.push("fastlio_odometry".to_owned());
    names.push("go2_odom".to_owned());
    names.push("odom".to_owned());
    assert(texts(names@) =~= known_odometry());
    names
}

fn lidar_names(odom: &str) -> (names: Vec<String>)
    ensures
        texts(names@) == lidars_for(odom@),
        names@.len() > 0,
{
    let mut names: Vec<String> = Vec::new();
    if same(odom, "pointlio_odometry") {
        names.push("pointlio_lidar".to_owned());
    } else if same(odom, "fastlio_odometry") {
        names.push("fastlio_lidar".to_owned());
    } else if same(odom, "go2_odom") {
        names.push("go2_lidar".to_owned());
        names.push("l1_lidar".to_owned());
        names.push("lidar".to_owned());
    } else {
        names.push("lidar".to_owned());
    }
    assert(texts(names@) =~= lidars_for(odom@));
    names
}

fn pick_available(names: &[String], available: &[String], fallback: &str) -> (r: String)
    ensures
        r@ == first_available(texts(names@), texts(available@), fallback@),
{
    let mut i: usize = 0;
    assert(texts(names@).skip(0) =~= texts(names@));
    while i < names.len()
        invariant
            i <= names.len(),
            first_available(texts(names@), texts(available@), fallback@) == first_available(
                texts(names@).skip(i as int),
                texts(available@),
                fallback@,
            ),
        decreases names.len() - i,
    {
        assert(texts(names@).skip(i as int)[0] == names@[i as int]@);
        if has_stream(available, names[i].as_str()) {
            return names[i].clone();
        }
        assert(texts(names@).skip(i as int).skip(1) =~= texts(names@).skip(i + 1));
        i = i + 1;
    }
    fallback.to_owned()
}

/// The odometry and the lidar stream to use: those that were asked for, else the first
/// known ones that the recording has.
pub fn resolve_streams(available: &[String], odom: &str, lidar: &str) -> (r: (String, String))
    ensures
        r.0@ == resolved_odom(texts(available@), odom@),
        r.1@ == resolved_lidar(texts(available@), r.0@, lidar@),
{
    let odom_stream = if odom.is_empty() {
        pick_available(&odometry_names(), available, "odom")
    } else {
        odom.to_owned()
    };
    let lidar_stream = if lidar.is_empty() {
        let candidates = lidar_names(odom_stream.as_str());
        assert(texts(candidates@)[0] == candidates@[0]@);
        pick_available(&candidates, available, candidates[0].as_str())
    } else {
        lidar.to_owned()
    };
    (odom_stream, lidar_stream)
}

proof fn lemma_first_available(
    names: Seq<Seq<char>>,
    available: Seq<Seq<char>>,
    fallback: Seq<char>,
)
    ensures
        ({
            let r = first_available(names, available, fallback);
            ||| names.contains(r) && available.contains(r)
            ||| r == fallback && forall|i: int|
                0 <= i < names.len() ==> !available.contains(#[trigger] names[i])
        }),
    decreases names.len(),
{
    if names.len() > 0 && !available.contains(names[0]) {
        let rest = names.skip(1);
        lemma_first_available(rest, available, fallback);
        let r = first_available(rest, available, fallback);
        if rest.contains(r) {
            let i = choose|i: int| 0 <= i < rest.len() && rest[i] == r;
            assert(names[i + 1] == r);
        }
        assert forall|i: int|
            0 <= i < names.len() && !(rest.contains(r) && available.contains(r)) implies !available.contains(
            #[trigger] names[i],
        ) by {
            if i > 0 {
                assert(rest[i - 1] == names[i]);
            }
        }
    } else if names.len() > 0 {
        assert(names.contains(names[0]));
    }
}

/// Streams that are not asked for come from one rig: the odometry is a known one, the lidar one of
/// those that go with it, and each is one that the recording has where it has any.
pub proof fn lemma_rigs_never_mix(available: Seq<Seq<char>>)
    ensures
        ({
            let odom = resolved_odom(available, Seq::empty());
            let lidar = resolved_lidar(available, odom, Seq::empty());
            &&& known_odometry().contains(odom)
            &&& lidars_for(odom).contains(lidar)
            &&& available.contains(odom) || forall|i: int|
                0 <= i < known_odometry().len() ==> !available.contains(
                    #[trigger] known_odometry()[i],
                )
            &&& available.contains(lidar) || forall|i: int|
                0 <= i < lidars_for(odom).len() ==> !available.contains(
                    #[trigger] lidars_for(odom)[i],
                )
        }),
{
    let odom = resolved_odom(available, Seq::empty());
    lemma_first_available(known_odometry(), available, "odom"@);
    assert(known_odometry()[3] == "odom"@);
    lemma_first_available(lidars_for(odom), available, lidars_for(odom)[0]);
    assert(lidars_for(odom).contains(lidars_for(odom)[0]));
}

/// The frames of an odometry header, `parent:child`, where there is a child.
pub open spec fn odom_edge(header: Option<(Seq<char>, Seq<char>)>) -> Seq<char> {
    match header {
        Some((parent, child)) => if child.len() == 0 {
            Seq::empty()
        } else {
            parent + ":"@ + child
        },
        None => Seq::empty(),
    }
}

/// The edge that an odometry stream moves, from the frames of its first message:
/// `parent:child`, or nothing where the stream is empty, holds no odometry, or names no
/// child frame.
pub fn default_odom_edge(header: &Option<(String, String)>) -> (edge: String)
    ensures
        edge@ == odom_edge(
            match *header {
                Some((parent, child)) => Some((parent@, child@)),
                None => None,
            },
        ),
{
    match header {
        Some((parent, child)) => {
            if child.as_str().is_empty() {
                assert(Seq::<char>::empty() =~= odom_edge(Some((parent@, child@))));
                return String::new();
            }
            let mut edge = parent.clone();
            edge.append(":");
            edge.append(child.as_str());
            edge
        },
        None => String::new(),
    }
}

// ---- odometry rows ----

/// One odometry row as the solver takes it: time, position xyz, quaternion xyzw.
pub type OdomPoseRow = [F64Bits; 8];

/// The time and pose of an odometry sample.
pub open spec fn pose_row(row: OdomRow) -> Seq<F64Bits> {
    seq![row.ts] + row.translation@ + row.quaternion_xyzw@
}

/// All eight numbers are finite.
pub open spec fn all_finite(values: Seq<F64Bits>) -> bool {
    forall|i: int| 0 <= i < values.len() ==> is_finite(#[trigger] values[i])
}

fn to_pose_row(row: &OdomRow) -> (out: OdomPoseRow)
    ensures
        out@ == pose_row(*row),
{
    let t = row.translation;
    let q = row.quaternion_xyzw;
    let out = [row.ts, t[0], t[1], t[2], q[0], q[1], q[2], q[3]];
    assert(out@ =~= pose_row(*row));
    out
}

fn is_all_finite(row: &OdomPoseRow) -> (r: bool)
    ensures
        r == all_finite(row@),
{
    let mut i: usize = 0;
    while i < 8
        invariant
            i <= 8,
            forall|k: int| 0 <= k < i ==> is_finite(#[trigger] row@[k]),
        decreases 8 - i,
    {
        if !finite(row[i]) {
            return false;
        }
        i = i + 1;
    }
    true
}

/// The times and poses of the samples.
pub fn pose_rows(rows: &[OdomRow]) -> (out: Vec<OdomPoseRow>)
    ensures
        out@.len() == rows@.len(),
        forall|i: int| 0 <= i < out@.len() ==> (#[trigger] out@[i])@ == pose_row(rows@[i]),
{
    let mut out: Vec<OdomPoseRow> = Vec::new();
    let mut i: usize = 0;
    while i < rows.len()
        invariant
            i <= rows.len(),
            out@.len() == i,
            forall|k: int| 0 <= k < i ==> (#[trigger] out@[k])@ == pose_row(rows@[k]),
        decreases rows.len() - i,
    {
        out.push(to_pose_row(&rows[i]));
        i = i + 1;
    }
    out
}

/// The times and poses of the samples, as sequences, those with a number that is not
/// finite left out.
pub open spec fn finite_pose_rows(rows: Seq<OdomRow>) -> Seq<Seq<F64Bits>>
    decreases rows.len(),
{
    if rows.len() == 0 {
        Seq::empty()
    } else {
        let front = finite_pose_rows(rows.drop_last());
        if all_finite(pose_row(rows.last())) {
            front.push(pose_row(rows.last()))
        } else {
            front
        }
    }
}

/// The times and poses of the samples, those with a number that is not finite left out.
pub fn odom_pose_rows(rows: &[OdomRow]) -> (out: Vec<OdomPoseRow>)
    ensures
        out@.map_values(|row: OdomPoseRow| row@) == finite_pose_rows(rows@),
{
    let mut out: Vec<OdomPoseRow> = Vec::new();
    let mut i: usize = 0;
    assert(rows@.take(0) =~= Seq::empty());
    assert(out@.map_values(|row: OdomPoseRow| row@) =~= Seq::empty());
    while i < rows.len()
        invariant
            i <= rows.len(),
            out@.map_values(|row: OdomPoseRow| row@) == finite_pose_rows(rows@.take(i as int)),
        decreases rows.len() - i,
    {
        assert(rows@.take(i + 1).drop_last() =~= rows@.take(i as int));
        let row = to_pose_row(&rows[i]);
        if is_all_finite(&row) {
            let ghost before = out@;
            out.push(row);
            assert(out@.map_values(|r: OdomPoseRow| r@) =~= before.map_values(
                |r: OdomPoseRow| r@,
            ).push(row@));
        }
        i = i + 1;
    }
    assert(rows@.take(i as int) =~= rows@);
    out
}

// ---- older go2 recordings ----

/// The stream is odometry of the robot itself and holds bare poses.
pub open spec fn is_bare_odometry(stream: Seq<char>, module: Option<Seq<char>>) -> bool {
    (stream == "odom"@ || stream == "go2_odom"@) && module
        == Some("dimos.msgs.geometry_msgs.PoseStamped.PoseStamped"@)
}

/// Whether the odometry of the stream is bare poses, as older go2 recordings have it:
/// `payload_module` is the type that the registry gives for the stream.
pub fn is_go2_legacy(odom_stream: &str, payload_module: &Option<String>) -> (r: bool)
    ensures
        r == ((odom_stream@ == "odom"@ || odom_stream@ == "go2_odom"@) && (match *payload_module {
            Some(module) => module@ == "dimos.msgs.geometry_msgs.PoseStamped.PoseStamped"@,
            None => false,
        })),
        r == is_bare_odometry(
            odom_stream@,
            match *payload_module {
                Some(module) => Some(module@),
                None => None,
            },
        ),
{
    if !same(odom_stream, "odom") && !same(odom_stream, "go2_odom") {
        return false;
    }
    match payload_module {
        Some(module) => same(
            module.as_str(),
            "dimos.msgs.geometry_msgs.PoseStamped.PoseStamped",
        ),
        None => false,
    }
}

/// What becomes of a recording.
#[derive(Debug)]
pub enum Normalization {
    /// It is used as it is.
    Unchanged { odom_tf: String, odom_stream: String, lidar_stream: String },
    /// It is converted; then these streams and this edge are used.
    Convert {
        world_frame: String,
        base_frame: String,
        odom_tf: String,
        odom_stream: String,
        lidar_stream: String,
    },
}

/// The frames before and behind the first colon; all of it is the first one where there is
/// no colon.
pub open spec fn edge_frames(edge: Seq<char>, parent: Seq<char>, child: Seq<char>) -> bool {
    if edge.contains(':') {
        edge == parent.push(':') + child && !parent.contains(':')
    } else {
        parent == edge && child.len() == 0
    }
}

/// The two frames of an edge `parent:child`; without a colon all of it is the parent.
pub fn split_edge(edge: &str) -> (r: (String, String))
    ensures
        edge_frames(edge@, r.0@, r.1@),
{
    match split_once(edge, ':') {
        Some((parent, child)) => {
            proof {
                let whole = parent@.push(':') + child@;
                assert(whole[parent@.len() as int] == ':');
            }
            (parent, child)
        },
        None => (edge.to_owned(), String::new()),
    }
}

/// The text, or the fallback where it is empty.
pub open spec fn non_empty_or(s: Seq<char>, fallback: Seq<char>) -> Seq<char> {
    if s.len() == 0 {
        fallback
    } else {
        s
    }
}

fn or_default(s: String, fallback: &str) -> (r: String)
    ensures
        r@ == non_empty_or(s@, fallback@),
{
    if s.as_str().is_empty() {
        fallback.to_owned()
    } else {
        s
    }
}

/// The frame that the first sample names, if any.
pub open spec fn header_frame(rows: Seq<OdomRow>) -> Seq<char> {
    if rows.len() == 0 {
        Seq::empty()
    } else {
        rows[0].frame_id@
    }
}

/// What becomes of a recording, from whether it is an older one and from its odometry
/// samples. An older one with odometry is converted: the world frame is the parent of
/// `odom_tf`, else the frame of the odometry, else `world`; the base frame is the child of
/// `odom_tf`, else `base_link`. Any other is used as it is.
pub fn normalize_go2_legacy(
    legacy: bool,
    rows: &[OdomRow],
    odom_tf: &str,
    odom_stream: &str,
    lidar_stream: &str,
) -> (r: Normalization)
    ensures
        match r {
            Normalization::Unchanged {
                odom_tf: tf,
                odom_stream: odom,
                lidar_stream: lidar,
            } => {
                &&& !legacy || finite_pose_rows(rows@).len() == 0
                &&& tf@ == odom_tf@
                &&& odom@ == odom_stream@
                &&& lidar@ == lidar_stream@
            },
            Normalization::Convert {
                world_frame,
                base_frame,
                odom_tf: tf,
                odom_stream: odom,
                lidar_stream: lidar,
            } => {
                &&& legacy && finite_pose_rows(rows@).len() > 0
                &&& exists|parent: Seq<char>, child: Seq<char>|
                    {
                        &&& #[trigger] edge_frames(odom_tf@, parent, child)
                        &&& world_frame@ == non_empty_or(
                            parent,
                            non_empty_or(header_frame(rows@), "world"@),
                        )
                        &&& base_frame@ == non_empty_or(child, "base_link"@)
                    }
                &&& tf@ == world_frame@ + ":l1_link"@
                &&& odom@ == "go2_odometry"@
                &&& lidar@ == "l1_cloud"@
            },
        },
{
    let finite_rows = odom_pose_rows(rows);
    proof {
        assert(finite_rows@.map_values(|row: OdomPoseRow| row@).len() == finite_rows@.len());
    }
    if !legacy || finite_rows.len() == 0 {
        return Normalization::Unchanged {
            odom_tf: odom_tf.to_owned(),
            odom_stream: odom_stream.to_owned(),
            lidar_stream: lidar_stream.to_owned(),
        };
    }
    let (parent, child) = split_edge(odom_tf);
    let ghost edge_parent = parent@;
    let ghost edge_child = child@;
    let world_frame = if parent.as_str().is_empty() {
        let header = if rows.len() == 0 {
            String::new()
        } else {
            rows[0].frame_id.clone()
        };
        assert(header@ =~= header_frame(rows@));
        or_default(header, "world")
    } else {
        parent
    };
    let base_frame = or_default(child, "base_link");
    assert(edge_frames(odom_tf@, edge_parent, edge_child));
    let mut tf = world_frame.clone();
    tf.append(":l1_link");
    Normalization::Convert {
        world_frame,
        base_frame,
        odom_tf: tf,
        odom_stream: "go2_odometry".to_owned(),
        lidar_stream: "l1_cloud".to_owned(),
    }
}

/// Whether a scan is registered in the world frame, so that it has to be brought back into
/// the sensor's.
pub fn is_world_framed(scan_frame: &str, world_frame: &str) -> (r: bool)
    ensures
        r == (scan_frame@ == world_frame@),
{
    same(scan_frame, world_frame)
}

/// The message type of transforms.
pub const TFMESSAGE_MODULE: &'static str = "dimos.msgs.tf2_msgs.TFMessage.TFMessage";

/// A row of the transform stream with its edges, each by the names of its frames, parent and
/// child; none where the payload could not be read.
#[derive(Debug)]
pub struct TfRow {
    pub row: RawRow,
    pub edges: Vec<(String, String)>,
}

/// One of the row's edges leads to the sensor frame.
pub open spec fn leads_to_sensor(row: TfRow) -> bool {
    exists|i: int| 0 <= i < row.edges@.len() && (#[trigger] row.edges@[i]).1@ == "l1_link"@
}

fn joins_sensor(edges: &Vec<(String, String)>) -> (r: bool)
    ensures
        r == exists|i: int| 0 <= i < edges@.len() && (#[trigger] edges@[i]).1@ == "l1_link"@,
{
    let mut i: usize = 0;
    while i < edges.len()
        invariant
            i <= edges.len(),
            forall|k: int| 0 <= k < i ==> (#[trigger] edges@[k]).1@ != "l1_link"@,
        decreases edges.len() - i,
    {
        if same(edges[i].1.as_str(), "l1_link") {
            return true;
        }
        i = i + 1;
    }
    false
}

/// The rows without an edge to the sensor frame, in their order and in full.
pub open spec fn rows_kept(rows: Seq<TfRow>) -> Seq<TfRow>
    decreases rows.len(),
{
    if rows.len() == 0 {
        rows
    } else if leads_to_sensor(rows.last()) {
        rows_kept(rows.drop_last())
    } else {
        rows_kept(rows.drop_last()).push(rows.last())
    }
}

/// The rows of the transform stream that stay, and how many are dropped because one of
/// their edges leads to the sensor frame: such an edge is only ever left over from an
/// earlier conversion.
pub fn strip_stale_edges(rows: Vec<TfRow>) -> (r: (Vec<TfRow>, usize))
    ensures
        r.0@ == rows_kept(rows@),
        r.0@.len() + r.1 == rows@.len(),
{
    let ghost all = rows@;
    let mut kept: Vec<TfRow> = Vec::new();
    let mut stale: usize = 0;
    let total: usize = rows.len();
    assert(all.take(0) =~= Seq::empty());
    for entry in it: rows
        invariant
            it.seq() == all,
            total == all.len(),
            kept@ == rows_kept(all.take(it.index())),
            kept@.len() + stale == it.index(),
    {
        assert(entry == all[it.index()]);
        assert(all.take(it.index() + 1).drop_last() =~= all.take(it.index()));
        if joins_sensor(&entry.edges) {
            stale = stale + 1;
        } else {
            kept.push(entry);
        }
    }
    assert(all.take(total as int) =~= all);
    (kept, stale)
}

/// A transform that does not change, from the parent's frame to the child's.
#[derive(Debug)]
pub struct StaticEdge {
    pub parent: String,
    pub child: String,
    pub translation: [F64Bits; 3],
    pub quaternion_xyzw: [F64Bits; 4],
}

/// The edge that joins the sensor to the base: the sensor is where the base is.
pub fn sensor_edge(base_frame: &str) -> (edge: StaticEdge)
    ensures
        edge.parent@ == base_frame@,
        edge.child@ == "l1_link"@,
        edge.translation@ == seq![0u64, 0u64, 0u64],
        edge.quaternion_xyzw@ == seq![0u64, 0u64, 0u64, 0x3ff0_0000_0000_0000u64],
{
    let edge = StaticEdge {
        parent: base_frame.to_owned(),
        child: "l1_link".to_owned(),
        translation: [0, 0, 0],
        quaternion_xyzw: [0, 0, 0, 0x3ff0_0000_0000_0000],
    };
    assert(edge.translation@ =~= seq![0u64, 0u64, 0u64]);
    assert(edge.quaternion_xyzw@ =~= seq![0u64, 0u64, 0u64, 0x3ff0_0000_0000_0000u64]);
    edge
}

/// The row holds one edge, from the base to the sensor, under the sensor's name.
pub open spec fn is_sensor_row(row: TfRow, base_frame: Seq<char>) -> bool {
    &&& row.edges@.len() == 1
    &&& row.edges@[0].0@ == base_frame
    &&& row.edges@[0].1@ == "l1_link"@
    &&& row.row.pose is None
    &&& row.row.tags_json@ == "{\"child_frame\": \"l1_link\"}"@
}

/// The row that joins the sensor to the base, with its payload.
pub fn sensor_row(ts: F64Bits, base_frame: &str, blob: Vec<u8>) -> (row: TfRow)
    ensures
        is_sensor_row(row, base_frame@),
        row.row.ts == ts,
        row.row.blob@ == blob@,
{
    let edge = sensor_edge(base_frame);
    let mut edges: Vec<(String, String)> = Vec::new();
    edges.push((edge.parent, edge.child));
    TfRow {
        row: RawRow {
            ts,
            pose: None,
            tags_json: "{\"child_frame\": \"l1_link\"}".to_owned(),
            blob,
        },
        edges,
    }
}

/// The number of rows with an edge to the sensor frame.
pub open spec fn sensor_edge_count(rows: Seq<TfRow>) -> int
    decreases rows.len(),
{
    if rows.len() == 0 {
        0
    } else {
        sensor_edge_count(rows.drop_last()) + if leads_to_sensor(rows.last()) {
            1int
        } else {
            0int
        }
    }
}

/// The stream after a conversion holds what stayed of the stream before, and the row that was
/// added, in the order in which they are read back.
pub open spec fn converts(before: Seq<TfRow>, added: TfRow, after: Seq<TfRow>) -> bool {
    after.to_multiset() == rows_kept(before).push(added).to_multiset()
}

proof fn lemma_rows_kept(rows: Seq<TfRow>)
    ensures
        sensor_edge_count(rows) + rows_kept(rows).len() == rows.len(),
        forall|row: TfRow| #[trigger]
            rows_kept(rows).to_multiset().count(row) == if leads_to_sensor(row) {
                0
            } else {
                rows.to_multiset().count(row)
            },
    decreases rows.len(),
{
    broadcast use vstd::seq_lib::group_to_multiset_ensures;
    broadcast use vstd::multiset::group_multiset_axioms;

    if rows.len() > 0 {
        let front = rows.drop_last();
        lemma_rows_kept(front);
        assert(front.push(rows.last()) =~= rows);
        assert(rows.to_multiset() =~= front.to_multiset().insert(rows.last()));
        if !leads_to_sensor(rows.last()) {
            assert(rows_kept(rows).to_multiset() =~= rows_kept(front).to_multiset().insert(
                rows.last(),
            ));
        }
    }
}

/// What stays, and how many edges lead to the sensor frame, do not depend on the order of the
/// rows.
proof fn lemma_kept_alike(a: Seq<TfRow>, b: Seq<TfRow>)
    requires
        a.to_multiset() == b.to_multiset(),
    ensures
        rows_kept(a).to_multiset() == rows_kept(b).to_multiset(),
        sensor_edge_count(a) == sensor_edge_count(b),
{
    broadcast use vstd::seq_lib::group_to_multiset_ensures;

    lemma_rows_kept(a);
    lemma_rows_kept(b);
    assert(rows_kept(a).to_multiset() =~= rows_kept(b).to_multiset());
    assert(a.len() == a.to_multiset().len());
    assert(rows_kept(a).len() == rows_kept(a).to_multiset().len());
    assert(rows_kept(b).len() == rows_kept(b).to_multiset().len());
}

proof fn lemma_kept_with(before: Seq<TfRow>, added: TfRow)
    requires
        leads_to_sensor(added),
    ensures
        rows_kept(rows_kept(before).push(added)).to_multiset() == rows_kept(before).to_multiset(),
        sensor_edge_count(rows_kept(before).push(added)) == 1,
{
    let kept = rows_kept(before);
    lemma_rows_kept(before);
    lemma_rows_kept(kept);
    assert(kept.push(added).drop_last() =~= kept);
    assert(rows_kept(kept).to_multiset() =~= kept.to_multiset());
    broadcast use vstd::seq_lib::group_to_multiset_ensures;

    assert(rows_kept(kept).len() == rows_kept(kept).to_multiset().len());
    assert(kept.len() == kept.to_multiset().len());
}

/// However often a recording is converted, its transform stream ends up with exactly one edge to
/// the sensor frame, that of the last conversion, from the base frame that it named; and every
/// row that has no such edge stays in full.
pub proof fn lemma_one_sensor_edge_after_conversions(
    states: Seq<Seq<TfRow>>,
    added: Seq<TfRow>,
    base_frames: Seq<Seq<char>>,
)
    requires
        added.len() > 0,
        states.len() == added.len() + 1,
        base_frames.len() == added.len(),
        forall|i: int|
            0 <= i < added.len() ==> is_sensor_row(#[trigger] added[i], base_frames[i])
                && converts(states[i], added[i], states[i + 1]),
    ensures
        states.last().to_multiset() == rows_kept(states[0]).push(added.last()).to_multiset(),
        sensor_edge_count(states.last()) == 1,
        is_sensor_row(added.last(), base_frames.last()),
    decreases added.len(),
{
    let n = added.len() - 1;
    assert(is_sensor_row(added[n], base_frames[n]));
    assert(added[n].edges@[0].1@ == "l1_link"@);
    lemma_kept_with(states[n], added[n]);
    lemma_kept_alike(states.last(), rows_kept(states[n]).push(added[n]));
    if n > 0 {
        let earlier = states.drop_last();
        let front = added.drop_last();
        let bases = base_frames.drop_last();
        assert forall|i: int| 0 <= i < front.len() implies is_sensor_row(
            #[trigger] front[i],
            bases[i],
        ) && converts(earlier[i], front[i], earlier[i + 1]) by {
            assert(is_sensor_row(added[i], base_frames[i]));
        }
        lemma_one_sensor_edge_after_conversions(earlier, front, bases);
        lemma_kept_alike(states[n], rows_kept(states[0]).push(front.last()));
        assert(front.last().edges@[0].1@ == "l1_link"@);
        lemma_kept_with(states[0], front.last());
        broadcast use vstd::seq_lib::group_to_multiset_ensures;

        assert(rows_kept(states[n]).to_multiset() == rows_kept(states[0]).to_multiset());
        assert(rows_kept(states[n]).push(added[n]).to_multiset() =~= rows_kept(
            states[0],
        ).push(added[n]).to_multiset());
    }
}

/// What the transform stream holds of these rows.
pub open spec fn tf_entries(rows: Seq<TfRow>) -> Seq<Entry> {
    rows.map_values(|row: TfRow| entry_of(row.row))
}

/// The changes that join the sensor to the base: the stream is made anew, with the rows that stay,
/// where some do not; and the row is appended.
pub open spec fn conversion_edits(rows: Seq<TfRow>, added: TfRow) -> Seq<Edit> {
    let kept = rows_kept(rows);
    let before = if kept.len() < rows.len() {
        stream_edits(TF_STREAM@, TFMESSAGE_MODULE@, tf_entries(kept))
    } else {
        Seq::empty()
    };
    before + appended(TF_STREAM@, seq![entry_of(added.row)])
}

/// The changes that join the sensor to the base in a recording whose transform stream has these
/// rows; and how many rows are dropped.
pub fn conversion_changes(rows: Vec<TfRow>, added: TfRow) -> (r: (Vec<Change>, usize))
    ensures
        edits_of(r.0@) == conversion_edits(rows@, added),
        rows_kept(rows@).len() + r.1 == rows@.len(),
{
    let ghost all = rows@;
    let (kept, stale) = strip_stale_edges(rows);
    let ghost left = kept@;
    let mut changes: Vec<Change> = Vec::new();
    let ghost made = if stale > 0 {
        seq![Edit::Replaced { stream: TF_STREAM@, module: TFMESSAGE_MODULE@ }]
    } else {
        Seq::empty()
    };
    if stale > 0 {
        changes.push(
            Change::Replace { stream: TF_STREAM.to_owned(), module: TFMESSAGE_MODULE.to_owned() },
        );
        assert(edits_of(changes@) =~= made + appended(TF_STREAM@, tf_entries(left.take(0))));
        for entry in it: kept
            invariant
                it.seq() == left,
                edits_of(changes@) == made + appended(
                    TF_STREAM@,
                    tf_entries(left.take(it.index())),
                ),
        {
            let ghost before = changes@;
            let ghost one = Edit::Appended { stream: TF_STREAM@, row: entry_of(entry.row) };
            assert(left.take(it.index() + 1) =~= left.take(it.index()).push(entry));
            changes.push(Change::Append { stream: TF_STREAM.to_owned(), row: entry.row });
            assert(edits_of(changes@) =~= edits_of(before).push(one));
            assert(appended(TF_STREAM@, tf_entries(left.take(it.index() + 1))) =~= appended(
                TF_STREAM@,
                tf_entries(left.take(it.index())),
            ).push(one));
        }
        assert(left.take(left.len() as int) =~= left);
        assert(edits_of(changes@) == stream_edits(TF_STREAM@, TFMESSAGE_MODULE@, tf_entries(left)));
    } else {
        assert(edits_of(changes@) =~= Seq::empty());
    }
    let ghost before = edits_of(changes@);
    let ghost last = entry_of(added.row);
    changes.push(Change::Append { stream: TF_STREAM.to_owned(), row: added.row });
    assert(edits_of(changes@) =~= before + appended(TF_STREAM@, seq![last]));
    (changes, stale)
}

proof fn lemma_all_kept(rows: Seq<TfRow>)
    ensures
        rows_kept(rows).len() <= rows.len(),
        rows_kept(rows).len() == rows.len() ==> rows_kept(rows) == rows,
    decreases rows.len(),
{
    if rows.len() > 0 {
        lemma_all_kept(rows.drop_last());
        assert(rows.drop_last().push(rows.last()) =~= rows);
    }
}

/// A conversion adds one row to the transforms and drops none but those with an edge to the sensor;
/// the others stay in full, and so do all rows of all other streams.
pub proof fn lemma_conversion_keeps_transforms(
    recording: Map<Seq<char>, Table>,
    rows: Seq<TfRow>,
    added: TfRow,
    name: Seq<char>,
)
    requires
        recording.contains_key(TF_STREAM@),
        tf_entries(rows).to_multiset() == recording[TF_STREAM@].rows.to_multiset(),
    ensures
        ({
            let after = after_edits(recording, conversion_edits(rows, added));
            &&& after.contains_key(TF_STREAM@)
            &&& after[TF_STREAM@].rows.to_multiset() == tf_entries(
                rows_kept(rows).push(added),
            ).to_multiset()
            &&& name != TF_STREAM@ ==> after.contains_key(name) == recording.contains_key(name)
                && after[name] == recording[name]
        }),
{
    broadcast use vstd::seq_lib::group_to_multiset_ensures;

    let kept = rows_kept(rows);
    let last = seq![entry_of(added.row)];
    lemma_all_kept(rows);
    assert(tf_entries(kept.push(added)) =~= tf_entries(kept) + last);
    assert(tf_entries(kept) + last =~= tf_entries(kept).push(last[0]));
    let first = if kept.len() < rows.len() {
        stream_edits(TF_STREAM@, TFMESSAGE_MODULE@, tf_entries(kept))
    } else {
        Seq::empty()
    };
    let middle = after_edits(recording, first);
    lemma_edits_join(recording, first, appended(TF_STREAM@, last));
    if kept.len() < rows.len() {
        lemma_stream_is_written(recording, TF_STREAM@, TFMESSAGE_MODULE@, tf_entries(kept));
        lemma_rows_are_appended(middle, TF_STREAM@, last);
    } else {
        lemma_rows_are_appended(recording, TF_STREAM@, last);
        let had = recording[TF_STREAM@].rows;
        assert(had + last =~= had.push(last[0]));
    }
}

/// The edge that the odometry takes the place of in the tf tree, parent and child: none where
/// none is named or the odometry is not there.
pub fn odom_override(streams: &[String], odom_stream: &str, odom_tf: &str) -> (edge: Option<
    (String, String),
>)
    ensures
        edge is Some <==> odom_tf@.len() > 0 && texts(streams@).contains(odom_stream@),
        edge matches Some(frames) ==> edge_frames(odom_tf@, frames.0@, frames.1@),
{
    if !odom_tf.is_empty() && has_stream(streams, odom_stream) {
        Some(split_edge(odom_tf))
    } else {
        None
    }
}

/// Streams that are named are taken. Else the odometry is the first of those of the point cloud
/// pipelines and the robot that is there, and the clouds are those of its rig, the first that is there;
/// `odom` and the first clouds of the rig where none is.
pub proof fn lemma_streams_by_precedence(available: Seq<Seq<char>>, odom: Seq<char>, lidar: Seq<char>)
    ensures
        odom.len() > 0 ==> resolved_odom(available, odom) == odom,
        odom.len() == 0 ==> resolved_odom(available, odom) == (if available.contains(
            "pointlio_odometry"@,
        ) {
            "pointlio_odometry"@
        } else if available.contains("fastlio_odometry"@) {
            "fastlio_odometry"@
        } else if available.contains("go2_odom"@) {
            "go2_odom"@
        } else {
            "odom"@
        }),
        lidar.len() > 0 ==> resolved_lidar(available, odom, lidar) == lidar,
        lidar.len() == 0 ==> resolved_lidar(available, odom, lidar) == (if odom
            == "pointlio_odometry"@ {
            "pointlio_lidar"@
        } else if odom == "fastlio_odometry"@ {
            "fastlio_lidar"@
        } else if odom == "go2_odom"@ && (available.contains("go2_lidar"@) || !available.contains(
            "l1_lidar"@,
        ) && !available.contains("lidar"@)) {
            "go2_lidar"@
        } else if odom == "go2_odom"@ && available.contains("l1_lidar"@) {
            "l1_lidar"@
        } else {
            "lidar"@
        }),
{
    reveal_with_fuel(first_available, 5);
    let names = known_odometry();
    assert(names.skip(1)[0] == "fastlio_odometry"@);
    assert(names.skip(1).skip(1)[0] == "go2_odom"@);
    assert(names.skip(1).skip(1).skip(1)[0] == "odom"@);
    assert(names.skip(1).skip(1).skip(1).skip(1).len() == 0);
    let clouds = lidars_for(odom);
    assert(clouds.skip(1).len() == clouds.len() - 1);
    if odom == "go2_odom"@ {
        reveal_strlit("go2_odom");
        reveal_strlit("pointlio_odometry");
        reveal_strlit("fastlio_odometry");
        assert(odom.len() == 8);
        assert(clouds[0] == "go2_lidar"@);
        assert(clouds.skip(1)[0] == "l1_lidar"@);
        assert(clouds.skip(1).skip(1)[0] == "lidar"@);
        assert(clouds.skip(1).skip(1).skip(1).len() == 0);
    } else if odom == "fastlio_odometry"@ {
        reveal_strlit("pointlio_odometry");
        reveal_strlit("fastlio_odometry");
        assert(odom.len() == 16);
    }
}

/// An edge that is taken from a header is taken apart into the frames of that header.
pub proof fn lemma_header_edge_splits_back(parent: Seq<char>, child: Seq<char>)
    ensures
        child.len() == 0 ==> odom_edge(Some((parent, child))) == Seq::<char>::empty(),
        odom_edge(None) == Seq::<char>::empty(),
        child.len() > 0 && !parent.contains(':') ==> edge_frames(
            odom_edge(Some((parent, child))),
            parent,
            child,
        ),
{
    reveal_strlit(":");
    let edge = parent + ":"@ + child;
    assert(edge[parent.len() as int] == ':');
    assert(edge =~= parent.push(':') + child);
}

/// The frames of an edge are what stands before its first colon and what stands behind it.
pub proof fn lemma_edge_splits_at_first_colon(edge: Seq<char>, parent: Seq<char>, child: Seq<char>)
    requires
        edge_frames(edge, parent, child),
    ensures
        forall|i: int| 0 <= i < parent.len() ==> #[trigger] parent[i] != ':' && parent[i] == edge[i],
        parent.len() < edge.len() ==> edge[parent.len() as int] == ':' && child == edge.skip(
            parent.len() as int + 1,
        ),
        !edge.contains(':') ==> parent == edge && child.len() == 0,
{
    assert forall|i: int| 0 <= i < parent.len() implies #[trigger] parent[i] != ':' && parent[i]
        == edge[i] by {
        assert(parent.contains(parent[i]));
    }
    if edge.contains(':') {
        assert(edge.skip(parent.len() as int + 1) =~= child);
    }
}

/// A pose row is the time, the place and the turn, in this order; kept are the rows of which every
/// number is finite, all of them and in their order.
pub proof fn lemma_finite_rows_are_kept(rows: Seq<OdomRow>)
    ensures
        finite_pose_rows(rows) == rows.map_values(
            |row: OdomRow|
                seq![
                    row.ts,
                    row.translation@[0],
                    row.translation@[1],
                    row.translation@[2],
                    row.quaternion_xyzw@[0],
                    row.quaternion_xyzw@[1],
                    row.quaternion_xyzw@[2],
                    row.quaternion_xyzw@[3],
                ],
        ).filter(
            |values: Seq<F64Bits>|
                forall|i: int| 0 <= i < values.len() ==> is_finite(#[trigger] values[i]),
        ),
    decreases rows.len(),
{
    reveal_with_fuel(Seq::filter, 1);
    let spelled = |row: OdomRow|
        seq![
            row.ts,
            row.translation@[0],
            row.translation@[1],
            row.translation@[2],
            row.quaternion_xyzw@[0],
            row.quaternion_xyzw@[1],
            row.quaternion_xyzw@[2],
            row.quaternion_xyzw@[3],
        ];
    if rows.len() > 0 {
        lemma_finite_rows_are_kept(rows.drop_last());
        let all = rows.map_values(spelled);
        assert(all.drop_last() =~= rows.drop_last().map_values(spelled));
        assert(all.last() =~= pose_row(rows.last()));
    }
}

/// The rows that stay are those without an edge to the sensor, all of them and in their order.
pub proof fn lemma_rows_without_sensor_stay(rows: Seq<TfRow>)
    ensures
        rows_kept(rows) == rows.filter(
            |row: TfRow|
                forall|i: int|
                    0 <= i < row.edges@.len() ==> (#[trigger] row.edges@[i]).1@ != "l1_link"@,
        ),
    decreases rows.len(),
{
    reveal_with_fuel(Seq::filter, 1);
    if rows.len() > 0 {
        lemma_rows_without_sensor_stay(rows.drop_last());
    } else {
        assert(rows =~= Seq::empty());
    }
}

/// The frame of the odometry is that of its first row, and empty where there is none; a name that is
/// empty gives way to the other.
pub proof fn lemma_header_is_of_the_first_row(
    row: OdomRow,
    rest: Seq<OdomRow>,
    name: Seq<char>,
    other: Seq<char>,
)
    ensures
        header_frame(seq![row] + rest) == row.frame_id@,
        header_frame(Seq::empty()) == Seq::<char>::empty(),
        name != Seq::<char>::empty() ==> non_empty_or(name, other) == name,
        non_empty_or(Seq::empty(), other) == other,
{
    if name.len() == 0 {
        assert(name =~= Seq::empty());
    }
    assert((seq![row] + rest)[0] == row);
}

/// The row added for the sensor holds one edge, from the body to the sensor, and no pose.
pub proof fn lemma_sensor_row_holds_one_edge(row: TfRow, base_frame: Seq<char>)
    requires
        is_sensor_row(row, base_frame),
    ensures
        row.edges@.len() == 1,
        row.edges@[0].0@ == base_frame,
        row.edges@[0].1@ == "l1_link"@,
        row.row.pose is None,
        leads_to_sensor(row),
        row.row.tags_json@ == "{\"child_frame\": \"l1_link\"}"@,
{
    assert(row.edges@[0].1@ == "l1_link"@);
}

/// Of the streams of odometry that are known, only those of the robot itself can hold bare poses, and
/// only where they are registered as such.
pub proof fn lemma_only_the_robot_has_bare_odometry(stream: Seq<char>, module: Option<Seq<char>>)
    ensures
        module is None ==> !is_bare_odometry(stream, module),
        is_bare_odometry(stream, module) ==> stream != "pointlio_odometry"@ && stream
            != "fastlio_odometry"@ && known_odometry().contains(stream),
        module == Some("dimos.msgs.geometry_msgs.PoseStamped.PoseStamped"@) && known_odometry().contains(
            stream,
        ) && stream != "pointlio_odometry"@ && stream != "fastlio_odometry"@ ==> is_bare_odometry(
            stream,
            module,
        ),
{
    reveal_strlit("odom");
    reveal_strlit("go2_odom");
    reveal_strlit("pointlio_odometry");
    reveal_strlit("fastlio_odometry");
    assert("odom"@.len() == 4 && "go2_odom"@.len() == 8 && "pointlio_odometry"@.len() == 17
        && "fastlio_odometry"@.len() == 16);
    assert(known_odometry()[2] == "go2_odom"@ && known_odometry()[3] == "odom"@);
}

} // verus!
