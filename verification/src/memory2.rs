//! Recordings: the rows of their streams, and the texts with which a stream is created,
//! read and written.
//!
//! A stream `S` is two tables, `"S"` with the metadata and `"S_blob"` with the payloads.

use crate::ieee::{less, lt, F32Bits, F64Bits};
use crate::text::{debug_text, join, joined, quoted, texts};
use vstd::prelude::*;
use vstd::string::StringExecFns;

verus! {

// ---- names ----

/// `name` as an SQL identifier.
pub open spec fn quoted_name(name: Seq<char>) -> Seq<char> {
    "\""@ + name + "\""@
}

/// What is said of a name that cannot be an identifier.
pub open spec fn illegal_name_text(name: Seq<char>) -> Seq<char> {
    "illegal stream name "@ + debug_text(name)
}

/// Whether the text has a double quote in it.
pub fn has_quote(s: &str) -> (r: bool)
    ensures
        r == s@.contains('"'),
{
    let chars = crate::text::chars_of(s);
    let mut i: usize = 0;
    while i < chars.len()
        invariant
            i <= chars.len(),
            chars@ == s@,
            forall|k: int| 0 <= k < i ==> s@[k] != '"',
        decreases chars.len() - i,
    {
        if chars[i] == '"' {
            return true;
        }
        i = i + 1;
    }
    false
}

/// What is said of a name that cannot be an identifier.
fn illegal_name(name: &str) -> (out: String)
    ensures
        out@ == illegal_name_text(name@),
{
    let mut out = "illegal stream name ".to_owned();
    out.append(quoted(name).as_str());
    out
}

/// `name` as an SQL identifier. A name with a double quote in it is refused.
pub fn quote_ident(name: &str) -> (r: Result<String, String>)
    ensures
        match r {
            Ok(out) => !name@.contains('"') && out@ == quoted_name(name@),
            Err(e) => name@.contains('"') && e@ == illegal_name_text(name@),
        },
{
    if has_quote(name) {
        return Err(illegal_name(name));
    }
    let mut out = "\"".to_owned();
    out.append(name);
    out.append("\"");
    Ok(out)
}

/// The two texts, one after the other.
fn plus(a: &str, b: &str) -> (out: String)
    ensures
        out@ == a@ + b@,
{
    let mut out = a.to_owned();
    out.append(b);
    out
}

proof fn lemma_no_quote_in_suffix(name: Seq<char>, suffix: Seq<char>)
    requires
        !suffix.contains('"'),
    ensures
        (name + suffix).contains('"') == name.contains('"'),
{
    let whole = name + suffix;
    if whole.contains('"') {
        let i = choose|i: int| 0 <= i < whole.len() && whole[i] == '"';
        if i < name.len() {
            assert(name[i] == '"');
        } else {
            assert(suffix[i - name.len()] == '"');
        }
    }
    if name.contains('"') {
        let i = choose|i: int| 0 <= i < name.len() && name[i] == '"';
        assert(whole[i] == '"');
    }
}

// ---- reading ----

/// The join of a stream's two tables in the order of time, with the given columns.
pub open spec fn stream_query_text(columns: Seq<char>, stream: Seq<char>) -> Seq<char> {
    "SELECT "@ + columns + " FROM "@ + quoted_name(stream) + " AS meta JOIN "@ + quoted_name(
        stream + "_blob"@,
    ) + " AS blob ON meta.id = blob.id ORDER BY meta.ts"@
}

/// The query for all rows of a stream, in the order of time, with the given columns of
/// `meta` and `blob`.
pub fn stream_query(columns: &str, stream: &str) -> (r: Result<String, String>)
    ensures
        match r {
            Ok(sql) => !stream@.contains('"') && sql@ == stream_query_text(columns@, stream@),
            Err(e) => stream@.contains('"') && e@ == illegal_name_text(stream@),
        },
{
    let table = match quote_ident(stream) {
        Ok(table) => table,
        Err(e) => return Err(e),
    };
    proof {
        reveal_strlit("_blob");
        lemma_no_quote_in_suffix(stream@, "_blob"@);
    }
    let blob_table = match quote_ident(plus(stream, "_blob").as_str()) {
        Ok(table) => table,
        Err(e) => return Err(e),
    };
    let mut sql = "SELECT ".to_owned();
    sql.append(columns);
    sql.append(" FROM ");
    sql.append(table.as_str());
    sql.append(" AS meta JOIN ");
    sql.append(blob_table.as_str());
    sql.append(" AS blob ON meta.id = blob.id ORDER BY meta.ts");
    Ok(sql)
}

/// The query for the times and payloads of a stream.
pub fn payload_query(stream: &str) -> (r: Result<String, String>)
    ensures
        match r {
            Ok(sql) => !stream@.contains('"') && sql@ == stream_query_text(
                "meta.ts, blob.data"@,
                stream@,
            ),
            Err(e) => stream@.contains('"') && e@ == illegal_name_text(stream@),
        },
{
    stream_query("meta.ts, blob.data", stream)
}

/// The query for everything that the rows of a stream hold.
pub fn raw_query(stream: &str) -> (r: Result<String, String>)
    ensures
        match r {
            Ok(sql) => !stream@.contains('"') && sql@ == stream_query_text(
                "meta.ts, meta.pose_x, meta.pose_y, meta.pose_z, meta.pose_qx, meta.pose_qy, meta.pose_qz, meta.pose_qw, json(meta.tags), blob.data"@,
                stream@,
            ),
            Err(e) => stream@.contains('"') && e@ == illegal_name_text(stream@),
        },
{
    stream_query(
        "meta.ts, meta.pose_x, meta.pose_y, meta.pose_z, meta.pose_qx, meta.pose_qy, meta.pose_qz, meta.pose_qw, json(meta.tags), blob.data",
        stream,
    )
}

/// The query for the first payload of a stream.
pub fn first_payload_query(columns: &str, stream: &str) -> (r: Result<String, String>)
    ensures
        match r {
            Ok(sql) => !stream@.contains('"') && sql@ == stream_query_text(columns@, stream@)
                + " LIMIT 1"@,
            Err(e) => stream@.contains('"') && e@ == illegal_name_text(stream@),
        },
{
    match stream_query(columns, stream) {
        Ok(mut sql) => {
            sql.append(" LIMIT 1");
            Ok(sql)
        },
        Err(e) => Err(e),
    }
}

/// Every `stride`th row is read, from the first one on; a stride of 0 counts as 1.
pub open spec fn is_kept(index: int, stride: int) -> bool {
    stride <= 1 || index % stride == 0
}

/// Whether the row is read.
pub fn keeps_row(index: usize, stride: usize) -> (r: bool)
    ensures
        r == is_kept(index as int, stride as int),
{
    stride <= 1 || index % stride == 0
}

// ---- odometry ----

/// One odometry sample: the pose of the body in the frame `frame_id`. The name of the
/// body frame is empty where the payload carries none.
#[derive(Debug)]
pub struct OdomRow {
    pub ts: F64Bits,
    pub translation: [F64Bits; 3],
    pub quaternion_xyzw: [F64Bits; 4],
    pub frame_id: String,
    pub child_frame_id: String,
}

/// The payload of an odometry row, as far as it could be read.
#[derive(Debug)]
pub enum OdomPayload {
    /// A `nav_msgs/Odometry`.
    Odometry {
        position: [F64Bits; 3],
        orientation: [F64Bits; 4],
        frame_id: String,
        child_frame_id: String,
    },
    /// A `geometry_msgs/PoseStamped`.
    PoseStamped { position: [F64Bits; 3], orientation: [F64Bits; 4], frame_id: String },
    /// Neither.
    Unknown,
}

/// `row` is what the payload says of the time `ts`.
pub open spec fn is_odom_row(ts: F64Bits, payload: OdomPayload, row: OdomRow) -> bool {
    row.ts == ts && match payload {
        OdomPayload::Odometry { position, orientation, frame_id, child_frame_id } => {
            &&& row.translation == position
            &&& row.quaternion_xyzw == orientation
            &&& row.frame_id@ == frame_id@
            &&& row.child_frame_id@ == child_frame_id@
        },
        OdomPayload::PoseStamped { position, orientation, frame_id } => {
            &&& row.translation == position
            &&& row.quaternion_xyzw == orientation
            &&& row.frame_id@ == frame_id@
            &&& row.child_frame_id@.len() == 0
        },
        OdomPayload::Unknown => false,
    }
}

/// The rows are what the payloads say, those that could not be read left out.
pub open spec fn are_odom_rows(payloads: Seq<(F64Bits, OdomPayload)>, rows: Seq<OdomRow>) -> bool
    decreases payloads.len(),
{
    if payloads.len() == 0 {
        rows.len() == 0
    } else if payloads.last().1 is Unknown {
        are_odom_rows(payloads.drop_last(), rows)
    } else {
        rows.len() > 0 && is_odom_row(payloads.last().0, payloads.last().1, rows.last())
            && are_odom_rows(payloads.drop_last(), rows.drop_last())
    }
}

/// The sample that one payload holds.
pub fn odom_from_payload(ts: F64Bits, payload: &OdomPayload) -> (r: Option<OdomRow>)
    ensures
        match r {
            Some(row) => is_odom_row(ts, *payload, row),
            None => *payload is Unknown,
        },
{
    match payload {
        OdomPayload::Odometry { position, orientation, frame_id, child_frame_id } => Some(
            OdomRow {
                ts,
                translation: *position,
                quaternion_xyzw: *orientation,
                frame_id: frame_id.clone(),
                child_frame_id: child_frame_id.clone(),
            },
        ),
        OdomPayload::PoseStamped { position, orientation, frame_id } => Some(
            OdomRow {
                ts,
                translation: *position,
                quaternion_xyzw: *orientation,
                frame_id: frame_id.clone(),
                child_frame_id: String::new(),
            },
        ),
        OdomPayload::Unknown => None,
    }
}

/// What is said of an odometry stream without a payload that could be read.
pub open spec fn no_odometry_text(stream: Seq<char>) -> Seq<char> {
    "odom stream "@ + debug_text(stream) + " decoded no Odometry/PoseStamped rows"@
}

/// The samples of an odometry stream. A stream without any is an error.
pub fn read_odometry(stream: &str, payloads: &[(F64Bits, OdomPayload)]) -> (r: Result<
    Vec<OdomRow>,
    String,
>)
    ensures
        match r {
            Ok(rows) => rows@.len() > 0 && are_odom_rows(payloads@, rows@),
            Err(e) => are_odom_rows(payloads@, Seq::empty()) && e@ == no_odometry_text(stream@),
        },
{
    let mut rows: Vec<OdomRow> = Vec::new();
    let mut i: usize = 0;
    assert(payloads@.take(0) =~= Seq::empty());
    while i < payloads.len()
        invariant
            i <= payloads.len(),
            are_odom_rows(payloads@.take(i as int), rows@),
        decreases payloads.len() - i,
    {
        assert(payloads@.take(i + 1).drop_last() =~= payloads@.take(i as int));
        let ghost before = rows@;
        if let Some(row) = odom_from_payload(payloads[i].0, &payloads[i].1) {
            rows.push(row);
            assert(rows@.drop_last() =~= before);
        }
        i = i + 1;
    }
    assert(payloads@.take(i as int) =~= payloads@);
    if rows.len() == 0 {
        assert(rows@ =~= Seq::empty());
        let mut message = "odom stream ".to_owned();
        message.append(quoted(stream).as_str());
        message.append(" decoded no Odometry/PoseStamped rows");
        return Err(message);
    }
    Ok(rows)
}

// ---- transforms ----

/// One sample of a transform edge.
#[derive(Debug)]
pub struct TfSample {
    pub ts: F64Bits,
    pub parent: String,
    pub child: String,
    pub translation: [F64Bits; 3],
    pub quaternion_xyzw: [F64Bits; 4],
}

/// One transform of a payload; `stamp` is the time of its header in seconds.
#[derive(Debug)]
pub struct TransformEntry {
    pub stamp: F64Bits,
    pub parent: String,
    pub child: String,
    pub translation: [F64Bits; 3],
    pub quaternion_xyzw: [F64Bits; 4],
}

/// `sample` is the transform at the time of its header, or at the row's where the header
/// has none.
pub open spec fn is_tf_sample(row_ts: F64Bits, entry: TransformEntry, sample: TfSample) -> bool {
    &&& sample.ts == if lt(0, entry.stamp) {
        entry.stamp
    } else {
        row_ts
    }
    &&& sample.parent@ == entry.parent@
    &&& sample.child@ == entry.child@
    &&& sample.translation == entry.translation
    &&& sample.quaternion_xyzw == entry.quaternion_xyzw
}

/// The transforms of all rows, one after the other, each with the time of its row.
pub open spec fn flattened(rows: Seq<(F64Bits, Vec<TransformEntry>)>) -> Seq<
    (F64Bits, TransformEntry),
>
    decreases rows.len(),
{
    if rows.len() == 0 {
        Seq::empty()
    } else {
        flattened(rows.drop_last()) + rows.last().1@.map_values(
            |entry: TransformEntry| (rows.last().0, entry),
        )
    }
}

/// The samples of a transform stream: those of all rows, in order.
pub fn read_tf(rows: &[(F64Bits, Vec<TransformEntry>)]) -> (samples: Vec<TfSample>)
    ensures
        samples@.len() == flattened(rows@).len(),
        forall|i: int|
            0 <= i < samples@.len() ==> is_tf_sample(
                flattened(rows@)[i].0,
                flattened(rows@)[i].1,
                #[trigger] samples@[i],
            ),
{
    let mut samples: Vec<TfSample> = Vec::new();
    let mut i: usize = 0;
    assert(rows@.take(0) =~= Seq::empty());
    while i < rows.len()
        invariant
            i <= rows.len(),
            samples@.len() == flattened(rows@.take(i as int)).len(),
            forall|k: int|
                0 <= k < samples@.len() ==> is_tf_sample(
                    flattened(rows@.take(i as int))[k].0,
                    flattened(rows@.take(i as int))[k].1,
                    #[trigger] samples@[k],
                ),
        decreases rows.len() - i,
    {
        let row_ts: F64Bits = rows[i].0;
        let entries = &rows[i].1;
        let ghost front = flattened(rows@.take(i as int));
        let ghost more = flattened(rows@.take(i + 1));
        let ghost before = samples@;
        proof {
            assert(rows@.take(i + 1).drop_last() =~= rows@.take(i as int));
            assert(more == front + entries@.map_values(|entry: TransformEntry| (row_ts, entry)));
        }
        let mut k: usize = 0;
        while k < entries.len()
            invariant
                k <= entries.len(),
                samples@.len() == front.len() + k,
                more == front + entries@.map_values(|entry: TransformEntry| (row_ts, entry)),
                forall|j: int|
                    0 <= j < samples@.len() ==> is_tf_sample(
                        more[j].0,
                        more[j].1,
                        #[trigger] samples@[j],
                    ),
            decreases entries.len() - k,
        {
            let entry = &entries[k];
            let ts: F64Bits = if less(0, entry.stamp) {
                entry.stamp
            } else {
                row_ts
            };
            assert(more[front.len() + k] == (row_ts, entries@[k as int]));
            samples.push(
                TfSample {
                    ts,
                    parent: entry.parent.clone(),
                    child: entry.child.clone(),
                    translation: entry.translation,
                    quaternion_xyzw: entry.quaternion_xyzw,
                },
            );
            k = k + 1;
        }
        i = i + 1;
    }
    assert(rows@.take(i as int) =~= rows@);
    samples
}

// ---- point clouds ----

/// The code of a binary32 field.
pub const POINT_FIELD_FLOAT32: u8 = 7;

/// A field of a point record.
#[derive(Debug)]
pub struct PointField {
    pub name: String,
    pub offset: usize,
    pub datatype: u8,
}

/// A point cloud message: `width * height` records of `point_step` bytes.
#[derive(Debug)]
pub struct PointCloud2 {
    pub frame_id: String,
    pub fields: Vec<PointField>,
    pub width: usize,
    pub height: usize,
    pub point_step: usize,
    pub row_step: usize,
    pub data: Vec<u8>,
}

/// The number whose four bytes, lowest first, stand at `at`.
pub open spec fn le_u32_at(data: Seq<u8>, at: int) -> u32 {
    (data[at] + data[at + 1] * 0x100 + data[at + 2] * 0x1_0000 + data[at + 3] * 0x100_0000) as u32
}

/// The offset of the last field with the name, where there is one; of the intensity only
/// a binary32 field counts.
pub open spec fn field_offset(fields: Seq<PointField>, name: Seq<char>) -> Option<usize>
    decreases fields.len(),
{
    if fields.len() == 0 {
        None
    } else if fields.last().name@ == name && (name != "intensity"@ || fields.last().datatype
        == POINT_FIELD_FLOAT32) {
        Some(fields.last().offset)
    } else {
        field_offset(fields.drop_last(), name)
    }
}

impl PointCloud2 {
    /// How many records the data holds whole, at most as many as there are points.
    pub open spec fn record_count(&self) -> int {
        let whole = self.data@.len() as int / self.point_step as int;
        if self.width * self.height <= whole {
            self.width * self.height
        } else {
            whole
        }
    }

    /// A field at `offset` lies in the data for each of the whole records.
    pub open spec fn covers(&self, offset: int) -> bool {
        forall|i: int|
            0 <= i < self.record_count() ==> (#[trigger] (i * self.point_step)) + offset + 4
                <= self.data@.len()
    }

    /// The offsets of x, y and z are known and the records are not empty.
    pub open spec fn has_xyz(&self) -> bool {
        &&& field_offset(self.fields@, "x"@) is Some
        &&& field_offset(self.fields@, "y"@) is Some
        &&& field_offset(self.fields@, "z"@) is Some
        &&& self.point_step != 0
    }

    /// Every field that is read lies in the data, and the sizes can be computed with.
    pub open spec fn readable(&self) -> bool {
        self.has_xyz() ==> {
            &&& self.width * self.height <= usize::MAX
            &&& self.data@.len() + self.point_step <= usize::MAX
            &&& self.covers(field_offset(self.fields@, "x"@)->0 as int)
            &&& self.covers(field_offset(self.fields@, "y"@)->0 as int)
            &&& self.covers(field_offset(self.fields@, "z"@)->0 as int)
            &&& field_offset(self.fields@, "intensity"@) matches Some(offset) ==> self.covers(
                offset as int,
            )
        }
    }

    /// The binary32 number of the `i`th record at `offset`.
    pub open spec fn value(&self, i: int, offset: int) -> F32Bits {
        le_u32_at(self.data@, i * self.point_step + offset)
    }
}

/// The offset of the last field with the name.
fn find_field(fields: &[PointField], name: &str) -> (r: Option<usize>)
    ensures
        r == field_offset(fields@, name@),
{
    let wanted = name.to_owned();
    let only_float: bool = wanted == "intensity".to_owned();
    let mut i: usize = fields.len();
    assert(fields@.take(i as int) =~= fields@);
    while i > 0
        invariant
            i <= fields.len(),
            wanted@ == name@,
            only_float == (name@ == "intensity"@),
            field_offset(fields@, name@) == field_offset(fields@.take(i as int), name@),
        decreases i,
    {
        let field = &fields[i - 1];
        assert(fields@.take(i as int).drop_last() =~= fields@.take(i - 1));
        assert(fields@.take(i as int).last() == *field);
        if field.name == wanted && (!only_float || field.datatype == POINT_FIELD_FLOAT32) {
            return Some(field.offset);
        }
        i = i - 1;
    }
    None
}

fn read_le_u32(data: &[u8], at: usize) -> (v: u32)
    requires
        at + 4 <= data.len(),
    ensures
        v == le_u32_at(data@, at as int),
{
    data[at] as u32 + data[at + 1] as u32 * 0x100 + data[at + 2] as u32 * 0x1_0000 + data[at
        + 3] as u32 * 0x100_0000
}

/// `i` whole records fit into `n` bytes and the next one does not.
proof fn lemma_whole_records(i: int, step: int, n: int)
    requires
        step > 0,
        i * step <= n < i * step + step,
        0 <= i,
    ensures
        n / step == i,
{
    assert(n / step == i) by (nonlinear_arith)
        requires
            step > 0,
            i * step <= n < i * step + step,
            0 <= i,
    ;
}

/// The points of a cloud and, where the records have them, the intensities. A cloud
/// without the fields x, y and z, or with empty records, has no points to read.
pub fn extract_xyz(message: &PointCloud2) -> (r: Option<
    (Vec<[F32Bits; 3]>, Option<Vec<F32Bits>>),
>)
    requires
        message.readable(),
    ensures
        match r {
            None => !message.has_xyz(),
            Some((points, intensities)) => {
                &&& message.has_xyz()
                &&& points@.len() == message.record_count()
                &&& forall|i: int|
                    0 <= i < points@.len() ==> (#[trigger] points@[i])@ == seq![
                        message.value(i, field_offset(message.fields@, "x"@)->0 as int),
                        message.value(i, field_offset(message.fields@, "y"@)->0 as int),
                        message.value(i, field_offset(message.fields@, "z"@)->0 as int),
                    ]
                &&& match field_offset(message.fields@, "intensity"@) {
                    None => intensities is None,
                    Some(offset) => intensities is Some && intensities->0@ == Seq::new(
                        points@.len(),
                        |i: int| message.value(i, offset as int),
                    ),
                }
            },
        },
{
    let offset_intensity = find_field(&message.fields, "intensity");
    let (offset_x, offset_y, offset_z) = match (
        find_field(&message.fields, "x"),
        find_field(&message.fields, "y"),
        find_field(&message.fields, "z"),
    ) {
        (Some(x), Some(y), Some(z)) => (x, y, z),
        _ => return None,
    };
    let step: usize = message.point_step;
    if step == 0 {
        return None;
    }
    assert(message.width * message.height >= 0) by (nonlinear_arith);
    let point_count: usize = message.width * message.height;
    let total: usize = message.data.len();
    let mut points: Vec<[F32Bits; 3]> = Vec::new();
    let mut intensities: Vec<F32Bits> = Vec::new();
    let mut index: usize = 0;
    let mut base: usize = 0;
    assert(message.record_count() >= 0) by {
        vstd::arithmetic::div_mod::lemma_div_pos_is_pos(total as int, step as int);
    }
    while index < point_count && base + step <= total
        invariant
            message.readable(),
            message.has_xyz(),
            step == message.point_step,
            step > 0,
            total == message.data@.len(),
            total + step <= usize::MAX,
            point_count == message.width * message.height,
            offset_x == field_offset(message.fields@, "x"@)->0,
            offset_y == field_offset(message.fields@, "y"@)->0,
            offset_z == field_offset(message.fields@, "z"@)->0,
            offset_intensity == field_offset(message.fields@, "intensity"@),
            index <= point_count,
            base == index * step,
            base <= total,
            index <= message.record_count(),
            points@.len() == index,
            forall|i: int|
                0 <= i < points@.len() ==> (#[trigger] points@[i])@ == seq![
                    message.value(i, offset_x as int),
                    message.value(i, offset_y as int),
                    message.value(i, offset_z as int),
                ],
            offset_intensity matches Some(offset) ==> intensities@ == Seq::new(
                index as nat,
                |i: int| message.value(i, offset as int),
            ),
        decreases point_count - index,
    {
        proof {
            let whole = total as int / step as int;
            if index >= whole {
                assert(index as int * step as int + step as int <= total);
                assert(whole >= index + 1) by (nonlinear_arith)
                    requires
                        whole == total as int / step as int,
                        index as int * step as int + step as int <= total,
                        step > 0,
                ;
            }
            assert(index < message.record_count());
            assert((index as int * message.point_step) + offset_x + 4 <= message.data@.len());
            assert((index as int * message.point_step) + offset_y + 4 <= message.data@.len());
            assert((index as int * message.point_step) + offset_z + 4 <= message.data@.len());
        }
        let point: [F32Bits; 3] = [
            read_le_u32(&message.data, base + offset_x),
            read_le_u32(&message.data, base + offset_y),
            read_le_u32(&message.data, base + offset_z),
        ];
        assert(point@ =~= seq![
            message.value(index as int, offset_x as int),
            message.value(index as int, offset_y as int),
            message.value(index as int, offset_z as int),
        ]);
        points.push(point);
        if let Some(offset) = offset_intensity {
            assert((index as int * message.point_step) + offset + 4 <= message.data@.len());
            let ghost before = intensities@;
            intensities.push(read_le_u32(&message.data, base + offset));
            assert(intensities@ =~= Seq::new(
                (index + 1) as nat,
                |i: int| message.value(i, offset as int),
            ));
        }
        assert((index + 1) * step == index * step + step) by (nonlinear_arith);
        base = base + step;
        index = index + 1;
    }
    proof {
        if index < point_count {
            lemma_whole_records(index as int, step as int, total as int);
        }
    }
    Some(
        (
            points,
            match offset_intensity {
                Some(_) => Some(intensities),
                None => None,
            },
        ),
    )
}

impl PointCloud2 {
    fn covered(&self, offset: usize) -> (r: bool)
        requires
            self.point_step != 0,
            self.width * self.height <= usize::MAX,
        ensures
            r == self.covers(offset as int),
    {
        let whole: usize = self.data.len() / self.point_step;
        let points: usize = self.width * self.height;
        let count: usize = if points <= whole {
            points
        } else {
            whole
        };
        assert(count == self.record_count());
        if count == 0 {
            return true;
        }
        let last: u128 = (count - 1) as u128;
        let step: u128 = self.point_step as u128;
        assert(0 <= last * step <= 0xffff_ffff_ffff_ffff * 0xffff_ffff_ffff_ffff) by (nonlinear_arith)
            requires
                0 <= last <= 0xffff_ffff_ffff_ffff,
                0 <= step <= 0xffff_ffff_ffff_ffff,
        ;
        let reach: u128 = last * step + offset as u128 + 4;
        let r: bool = reach <= self.data.len() as u128;
        proof {
            if r {
                assert forall|i: int| 0 <= i < self.record_count() implies (#[trigger] (i
                    * self.point_step)) + offset + 4 <= self.data@.len() by {
                    assert(i * self.point_step <= last * step) by (nonlinear_arith)
                        requires
                            0 <= i <= last,
                            step == self.point_step,
                    ;
                }
            } else {
                let i = self.record_count() - 1;
                assert((i * self.point_step) + offset + 4 > self.data@.len());
            }
        }
        r
    }

    /// Whether every field that is read lies in the data.
    pub fn is_readable(&self) -> (r: bool)
        ensures
            r == self.readable(),
    {
        let offset_intensity = find_field(&self.fields, "intensity");
        match (
            find_field(&self.fields, "x"),
            find_field(&self.fields, "y"),
            find_field(&self.fields, "z"),
        ) {
            (Some(x), Some(y), Some(z)) => {
                if self.point_step == 0 {
                    return true;
                }
                let points: u128 = area(self.width, self.height);
                if points > usize::MAX as u128 {
                    return false;
                }
                if self.data.len() as u128 + self.point_step as u128 > usize::MAX as u128 {
                    return false;
                }
                self.covered(x) && self.covered(y) && self.covered(z) && match offset_intensity {
                    Some(offset) => self.covered(offset),
                    None => true,
                }
            },
            _ => true,
        }
    }
}

fn area(width: usize, height: usize) -> (r: u128)
    ensures
        r == width * height,
{
    assert(0 <= width * height <= 0xffff_ffff_ffff_ffff * 0xffff_ffff_ffff_ffff) by (nonlinear_arith)
        requires
            0 <= width <= 0xffff_ffff_ffff_ffff,
            0 <= height <= 0xffff_ffff_ffff_ffff,
    ;
    width as u128 * height as u128
}

/// One lidar scan: its points and, where the cloud has them, the intensities.
#[derive(Debug)]
pub struct ScanRow {
    pub ts: F64Bits,
    pub points: Vec<[F32Bits; 3]>,
    pub intensities: Option<Vec<F32Bits>>,
    pub frame_id: String,
}

/// `row` is the scan that the cloud holds.
pub open spec fn is_scan_row(ts: F64Bits, cloud: PointCloud2, row: ScanRow) -> bool {
    &&& row.ts == ts
    &&& row.frame_id@ == cloud.frame_id@
    &&& row.points@.len() == cloud.record_count()
    &&& forall|i: int|
        0 <= i < row.points@.len() ==> (#[trigger] row.points@[i])@ == seq![
            cloud.value(i, field_offset(cloud.fields@, "x"@)->0 as int),
            cloud.value(i, field_offset(cloud.fields@, "y"@)->0 as int),
            cloud.value(i, field_offset(cloud.fields@, "z"@)->0 as int),
        ]
    &&& match field_offset(cloud.fields@, "intensity"@) {
        None => row.intensities is None,
        Some(offset) => row.intensities is Some && row.intensities->0@ == Seq::new(
            row.points@.len(),
            |i: int| cloud.value(i, offset as int),
        ),
    }
}

/// The payload is a cloud with points to read.
pub open spec fn holds_scan(cloud: Option<PointCloud2>) -> bool {
    cloud is Some && cloud->0.has_xyz()
}

/// The rows are the scans of the payloads, those without points to read left out.
pub open spec fn are_scan_rows(
    clouds: Seq<(F64Bits, Option<PointCloud2>)>,
    rows: Seq<ScanRow>,
) -> bool
    decreases clouds.len(),
{
    if clouds.len() == 0 {
        rows.len() == 0
    } else if !holds_scan(clouds.last().1) {
        are_scan_rows(clouds.drop_last(), rows)
    } else {
        rows.len() > 0 && is_scan_row(clouds.last().0, clouds.last().1->0, rows.last())
            && are_scan_rows(clouds.drop_last(), rows.drop_last())
    }
}

/// What is said of a lidar stream without a cloud that could be read.
pub open spec fn no_scans_text(stream: Seq<char>) -> Seq<char> {
    "lidar stream "@ + debug_text(stream) + " decoded no PointCloud2 rows"@
}

/// The scans of a lidar stream; a payload that is no cloud is `None`. A stream without
/// any scan is an error.
pub fn read_scans(stream: &str, clouds: &[(F64Bits, Option<PointCloud2>)]) -> (r: Result<
    Vec<ScanRow>,
    String,
>)
    requires
        forall|i: int|
            0 <= i < clouds@.len() && (#[trigger] clouds@[i]).1 is Some
                ==> clouds@[i].1->0.readable(),
    ensures
        match r {
            Ok(rows) => rows@.len() > 0 && are_scan_rows(clouds@, rows@),
            Err(e) => are_scan_rows(clouds@, Seq::empty()) && e@ == no_scans_text(stream@),
        },
{
    let mut rows: Vec<ScanRow> = Vec::new();
    let mut i: usize = 0;
    assert(clouds@.take(0) =~= Seq::empty());
    while i < clouds.len()
        invariant
            i <= clouds.len(),
            are_scan_rows(clouds@.take(i as int), rows@),
            forall|k: int|
                0 <= k < clouds@.len() && (#[trigger] clouds@[k]).1 is Some
                    ==> clouds@[k].1->0.readable(),
        decreases clouds.len() - i,
    {
        assert(clouds@.take(i + 1).drop_last() =~= clouds@.take(i as int));
        assert(clouds@.take(i + 1).last() == clouds@[i as int]);
        let ghost before = rows@;
        if let Some(cloud) = &clouds[i].1 {
            if let Some((points, intensities)) = extract_xyz(cloud) {
                rows.push(
                    ScanRow {
                        ts: clouds[i].0,
                        points,
                        intensities,
                        frame_id: cloud.frame_id.clone(),
                    },
                );
                assert(rows@.drop_last() =~= before);
            }
        }
        i = i + 1;
    }
    assert(clouds@.take(i as int) =~= clouds@);
    if rows.len() == 0 {
        assert(rows@ =~= Seq::empty());
        let mut message = "lidar stream ".to_owned();
        message.append(quoted(stream).as_str());
        message.append(" decoded no PointCloud2 rows");
        return Err(message);
    }
    Ok(rows)
}

// ---- writing ----

/// The registry entry of a stream whose payloads are of `payload_module`.
pub open spec fn stream_config_text(payload_module: Seq<char>) -> Seq<char> {
    "{\"payload_module\": \""@ + payload_module
        + "\", \"codec_id\": \"lcm\", \"eager_blobs\": false, \"page_size\": 256, \"blob_store\": {\"class\": \"dimos.memory2.blobstore.sqlite.SqliteBlobStore\", \"config\": {\"path\": null}}, \"vector_store\": {\"class\": \"dimos.memory2.vectorstore.sqlite.SqliteVectorStore\", \"config\": {\"path\": null}}, \"notifier\": {\"class\": \"dimos.memory2.notifier.subject.SubjectNotifier\", \"config\": {}}}"@
}

/// The registry entry of a stream whose payloads are of `payload_module`.
pub fn stream_config_json(payload_module: &str) -> (out: String)
    ensures
        out@ == stream_config_text(payload_module@),
{
    let mut out = "{\"payload_module\": \"".to_owned();
    out.append(payload_module);
    out.append(
        "\", \"codec_id\": \"lcm\", \"eager_blobs\": false, \"page_size\": 256, \"blob_store\": {\"class\": \"dimos.memory2.blobstore.sqlite.SqliteBlobStore\", \"config\": {\"path\": null}}, \"vector_store\": {\"class\": \"dimos.memory2.vectorstore.sqlite.SqliteVectorStore\", \"config\": {\"path\": null}}, \"notifier\": {\"class\": \"dimos.memory2.notifier.subject.SubjectNotifier\", \"config\": {}}}",
    );
    out
}

/// The table names of a stream begin with its name.
pub open spec fn table_suffixes() -> Seq<Seq<char>> {
    seq![""@, "_blob"@, "_vec"@, "_rtree"@]
}

/// The statement that drops one table of the stream.
pub open spec fn drop_text(name: Seq<char>, suffix: Seq<char>) -> Seq<char> {
    "DROP TABLE IF EXISTS "@ + quoted_name(name + suffix)
}

fn drop_statement(name: &str, suffix: &str) -> (r: Result<String, String>)
    requires
        !suffix@.contains('"'),
    ensures
        match r {
            Ok(sql) => !name@.contains('"') && sql@ == drop_text(name@, suffix@),
            Err(e) => name@.contains('"') && e@ == illegal_name_text(name@ + suffix@),
        },
{
    proof {
        lemma_no_quote_in_suffix(name@, suffix@);
    }
    match quote_ident(plus(name, suffix).as_str()) {
        Ok(table) => Ok(plus("DROP TABLE IF EXISTS ", table.as_str())),
        Err(e) => Err(e),
    }
}

/// The statements that drop the tables of a stream.
pub fn delete_stream(name: &str) -> (r: Result<Vec<String>, String>)
    ensures
        match r {
            Ok(sql) => !name@.contains('"') && texts(sql@) == table_suffixes().map_values(
                |suffix: Seq<char>| drop_text(name@, suffix),
            ),
            Err(e) => name@.contains('"') && e@ == illegal_name_text(name@),
        },
{
    proof {
        reveal_strlit("");
        reveal_strlit("_blob");
        reveal_strlit("_vec");
        reveal_strlit("_rtree");
        assert(name@ + ""@ =~= name@);
    }
    let own = match drop_statement(name, "") {
        Ok(sql) => sql,
        Err(e) => return Err(e),
    };
    match (
        drop_statement(name, "_blob"),
        drop_statement(name, "_vec"),
        drop_statement(name, "_rtree"),
    ) {
        (Ok(blob), Ok(vectors), Ok(rtree)) => {
            let mut sql: Vec<String> = Vec::new();
            sql.push(own);
            sql.push(blob);
            sql.push(vectors);
            sql.push(rtree);
            assert(texts(sql@) =~= table_suffixes().map_values(
                |suffix: Seq<char>| drop_text(name@, suffix),
            ));
            Ok(sql)
        },
        _ => {
            assert(false);
            Err(illegal_name(name))
        },
    }
}

/// The statements that create the tables of a stream.
pub open spec fn create_text(name: Seq<char>) -> Seq<char> {
    "CREATE TABLE IF NOT EXISTS "@ + quoted_name(name)
        + " (id INTEGER PRIMARY KEY AUTOINCREMENT, ts REAL NOT NULL, value NUMERIC, pose_x REAL, pose_y REAL, pose_z REAL, pose_qx REAL, pose_qy REAL, pose_qz REAL, pose_qw REAL, tags BLOB DEFAULT (jsonb('{}')));CREATE VIRTUAL TABLE IF NOT EXISTS "@
        + quoted_name(name + "_rtree"@)
        + " USING rtree(id, x_min, x_max, y_min, y_max, z_min, z_max);CREATE TABLE IF NOT EXISTS "@
        + quoted_name(name + "_blob"@) + " (id INTEGER PRIMARY KEY, data BLOB NOT NULL);"@
}

/// The statements that create the tables of a stream.
pub fn create_stream(name: &str) -> (r: Result<String, String>)
    ensures
        match r {
            Ok(sql) => !name@.contains('"') && sql@ == create_text(name@),
            Err(e) => name@.contains('"') && e@ == illegal_name_text(name@),
        },
{
    proof {
        reveal_strlit("_blob");
        reveal_strlit("_rtree");
        lemma_no_quote_in_suffix(name@, "_blob"@);
        lemma_no_quote_in_suffix(name@, "_rtree"@);
    }
    let table = match quote_ident(name) {
        Ok(table) => table,
        Err(e) => return Err(e),
    };
    match (quote_ident(plus(name, "_rtree").as_str()), quote_ident(plus(name, "_blob").as_str())) {
        (Ok(rtree), Ok(blob)) => {
            let mut sql = "CREATE TABLE IF NOT EXISTS ".to_owned();
            sql.append(table.as_str());
            sql.append(
                " (id INTEGER PRIMARY KEY AUTOINCREMENT, ts REAL NOT NULL, value NUMERIC, pose_x REAL, pose_y REAL, pose_z REAL, pose_qx REAL, pose_qy REAL, pose_qz REAL, pose_qw REAL, tags BLOB DEFAULT (jsonb('{}')));CREATE VIRTUAL TABLE IF NOT EXISTS ",
            );
            sql.append(rtree.as_str());
            sql.append(
                " USING rtree(id, x_min, x_max, y_min, y_max, z_min, z_max);CREATE TABLE IF NOT EXISTS ",
            );
            sql.append(blob.as_str());
            sql.append(" (id INTEGER PRIMARY KEY, data BLOB NOT NULL);");
            Ok(sql)
        },
        _ => {
            assert(false);
            Err(illegal_name(name))
        },
    }
}

/// A tag of a row: its key, and its value in JSON.
#[derive(Debug)]
pub struct Tag {
    pub key: String,
    pub value: String,
}

/// The key cannot be used in an index.
pub open spec fn illegal_key(key: Seq<char>) -> bool {
    key.contains('"') || key.contains('\'')
}

/// What is said of such a key.
pub open spec fn illegal_key_text(key: Seq<char>) -> Seq<char> {
    "illegal tag key "@ + debug_text(key)
}

/// The statement that creates the index of a tag.
pub open spec fn index_text(name: Seq<char>, key: Seq<char>) -> Seq<char> {
    "CREATE INDEX IF NOT EXISTS "@ + quoted_name(name + "_tag_"@ + key) + " ON "@ + quoted_name(
        name,
    ) + "(json_extract(tags, '$."@ + key + "'))"@
}

/// The statement that creates the index of the tag `key` on the stream `name`. A key with
/// a quote in it is refused.
pub fn index_statement(name: &str, key: &str) -> (r: Result<String, String>)
    ensures
        match r {
            Ok(sql) => !name@.contains('"') && !illegal_key(key@) && sql@ == index_text(
                name@,
                key@,
            ),
            Err(e) => if name@.contains('"') {
                e@ == illegal_name_text(name@)
            } else {
                illegal_key(key@) && e@ == illegal_key_text(key@)
            },
        },
{
    let table = match quote_ident(name) {
        Ok(table) => table,
        Err(e) => return Err(e),
    };
    if has_quote(key) || has_apostrophe(key) {
        return Err(plus("illegal tag key ", quoted(key).as_str()));
    }
    proof {
        reveal_strlit("_tag_");
        lemma_no_quote_in_suffix(name@, "_tag_"@);
        lemma_no_quote_in_suffix(name@ + "_tag_"@, key@);
    }
    let index = match quote_ident(plus(plus(name, "_tag_").as_str(), key).as_str()) {
        Ok(index) => index,
        Err(e) => {
            assert(false);
            return Err(e);
        },
    };
    let mut sql = "CREATE INDEX IF NOT EXISTS ".to_owned();
    sql.append(index.as_str());
    sql.append(" ON ");
    sql.append(table.as_str());
    sql.append("(json_extract(tags, '$.");
    sql.append(key);
    sql.append("'))");
    Ok(sql)
}

fn has_apostrophe(s: &str) -> (r: bool)
    ensures
        r == s@.contains('\''),
{
    let chars = crate::text::chars_of(s);
    let mut i: usize = 0;
    while i < chars.len()
        invariant
            i <= chars.len(),
            chars@ == s@,
            forall|k: int| 0 <= k < i ==> s@[k] != '\'',
        decreases chars.len() - i,
    {
        if chars[i] == '\'' {
            return true;
        }
        i = i + 1;
    }
    false
}

/// One entry of a JSON object.
pub open spec fn tag_text(tag: Tag) -> Seq<char> {
    "\""@ + tag.key@ + "\": "@ + tag.value@
}

/// The tags as a JSON object, in their order.
pub open spec fn tags_text(tags: Seq<Tag>) -> Seq<char> {
    if tags.len() == 0 {
        "{}"@
    } else {
        "{"@ + joined(tags.map_values(|tag: Tag| tag_text(tag)), ", "@) + "}"@
    }
}

/// The tags as a JSON object, in their order.
pub fn tags_json(tags: &[Tag]) -> (out: String)
    ensures
        out@ == tags_text(tags@),
{
    if tags.len() == 0 {
        return "{}".to_owned();
    }
    let mut body: Vec<String> = Vec::new();
    let mut i: usize = 0;
    while i < tags.len()
        invariant
            i <= tags.len(),
            body.len() == i,
            forall|k: int| 0 <= k < i ==> (#[trigger] body@[k])@ == tag_text(tags@[k]),
        decreases tags.len() - i,
    {
        let mut entry = "\"".to_owned();
        entry.append(tags[i].key.as_str());
        entry.append("\": ");
        entry.append(tags[i].value.as_str());
        body.push(entry);
        i = i + 1;
    }
    assert(texts(body@) =~= tags@.map_values(|tag: Tag| tag_text(tag)));
    let mut out = "{".to_owned();
    out.append(join(&body, ", ").as_str());
    out.append("}");
    out
}

/// A tag whose value is the text `value`, in quotes.
pub fn text_tag(key: &str, value: &str) -> (tag: Tag)
    ensures
        tag.key@ == key@,
        tag.value@ == "\""@ + value@ + "\""@,
{
    let mut quoted_value = "\"".to_owned();
    quoted_value.append(value);
    quoted_value.append("\"");
    Tag { key: key.to_owned(), value: quoted_value }
}

/// One row with everything that the tables hold of it.
#[derive(Debug)]
pub struct RawRow {
    pub ts: F64Bits,
    pub pose: Option<[F64Bits; 7]>,
    pub tags_json: String,
    pub blob: Vec<u8>,
}

/// The statements that append a row to the tables of a stream.
#[derive(Debug)]
pub struct AppendStatements {
    pub meta: String,
    pub blob: String,
    pub rtree: String,
}

/// The statements that append a row: into the metadata, the payloads, and, where the row
/// has a pose, the spatial index.
pub fn append_statements(name: &str) -> (r: Result<AppendStatements, String>)
    ensures
        match r {
            Ok(sql) => {
                &&& !name@.contains('"')
                &&& sql.meta@ == "INSERT INTO "@ + quoted_name(name@)
                    + " (ts, value, pose_x, pose_y, pose_z, pose_qx, pose_qy, pose_qz, pose_qw, tags) VALUES (?, ?, ?, ?, ?, ?, ?, ?, ?, jsonb(?))"@
                &&& sql.blob@ == "INSERT INTO "@ + quoted_name(name@ + "_blob"@)
                    + " (id, data) VALUES (?, ?)"@
                &&& sql.rtree@ == "INSERT INTO "@ + quoted_name(name@ + "_rtree"@)
                    + " (id, x_min, x_max, y_min, y_max, z_min, z_max) VALUES (?, ?, ?, ?, ?, ?, ?)"@
            },
            Err(e) => name@.contains('"') && e@ == illegal_name_text(name@),
        },
{
    proof {
        reveal_strlit("_blob");
        reveal_strlit("_rtree");
        lemma_no_quote_in_suffix(name@, "_blob"@);
        lemma_no_quote_in_suffix(name@, "_rtree"@);
    }
    let table = match quote_ident(name) {
        Ok(table) => table,
        Err(e) => return Err(e),
    };
    match (quote_ident(plus(name, "_blob").as_str()), quote_ident(plus(name, "_rtree").as_str())) {
        (Ok(blob_table), Ok(rtree_table)) => {
            let mut meta = "INSERT INTO ".to_owned();
            meta.append(table.as_str());
            meta.append(
                " (ts, value, pose_x, pose_y, pose_z, pose_qx, pose_qy, pose_qz, pose_qw, tags) VALUES (?, ?, ?, ?, ?, ?, ?, ?, ?, jsonb(?))",
            );
            let mut blob = "INSERT INTO ".to_owned();
            blob.append(blob_table.as_str());
            blob.append(" (id, data) VALUES (?, ?)");
            let mut rtree = "INSERT INTO ".to_owned();
            rtree.append(rtree_table.as_str());
            rtree.append(
                " (id, x_min, x_max, y_min, y_max, z_min, z_max) VALUES (?, ?, ?, ?, ?, ?, ?)",
            );
            Ok(AppendStatements { meta, blob, rtree })
        },
        _ => {
            assert(false);
            Err(illegal_name(name))
        },
    }
}

/// The pose columns of a row: all seven, or none.
pub fn pose_columns(pose: Option<[F64Bits; 7]>) -> (columns: [Option<F64Bits>; 7])
    ensures
        forall|i: int|
            0 <= i < 7 ==> #[trigger] columns@[i] == match pose {
                Some(p) => Some(p@[i]),
                None => None,
            },
{
    match pose {
        Some(p) => [
            Some(p[0]),
            Some(p[1]),
            Some(p[2]),
            Some(p[3]),
            Some(p[4]),
            Some(p[5]),
            Some(p[6]),
        ],
        None => [None, None, None, None, None, None, None],
    }
}

/// The bounds of a pose in the spatial index: a single point.
pub fn rtree_bounds(pose: [F64Bits; 7]) -> (bounds: [F64Bits; 6])
    ensures
        bounds@ == seq![pose@[0], pose@[0], pose@[1], pose@[1], pose@[2], pose@[2]],
{
    let bounds = [pose[0], pose[0], pose[1], pose[1], pose[2], pose[2]];
    assert(bounds@ =~= seq![pose@[0], pose@[0], pose@[1], pose@[1], pose@[2], pose@[2]]);
    bounds
}

/// Whether the registry lists the stream.
pub fn has_stream(streams: &[String], name: &str) -> (r: bool)
    ensures
        r == texts(streams@).contains(name@),
{
    let wanted = name.to_owned();
    let mut i: usize = 0;
    while i < streams.len()
        invariant
            i <= streams.len(),
            wanted@ == name@,
            forall|k: int| 0 <= k < i ==> texts(streams@)[k] != name@,
        decreases streams.len() - i,
    {
        if streams[i] == wanted {
            assert(texts(streams@)[i as int] == name@);
            return true;
        }
        i = i + 1;
    }
    false
}

// ---- what the results are, over all inputs ----

/// With a stride of one or less every row is kept, with a larger one those at its multiples.
pub proof fn lemma_rows_at_multiples_are_kept(index: int, stride: int, k: int)
    ensures
        stride == 0 || stride == 1 ==> is_kept(index, stride),
        stride > 1 ==> is_kept(k * stride, stride),
        stride > 1 && k * stride < index < (k + 1) * stride ==> !is_kept(index, stride),
{
    if stride > 1 {
        vstd::arithmetic::div_mod::lemma_mod_multiples_basic(k, stride);
        if k * stride < index < (k + 1) * stride {
            let r = index - k * stride;
            assert((k + 1) * stride == k * stride + stride) by (nonlinear_arith);
            assert(index == stride * k + r) by (nonlinear_arith)
                requires
                    r == index - k * stride,
            ;
            vstd::arithmetic::div_mod::lemma_mod_multiples_vanish(k, r, stride);
            vstd::arithmetic::div_mod::lemma_small_mod(r as nat, stride as nat);
        }
    }
}

/// The rows of odometry are those of the payloads that are odometry or poses, one for one and in
/// order, each with its time, place, turn and frames; a pose has no child frame.
pub proof fn lemma_odometry_rows_match(
    payloads: Seq<(F64Bits, OdomPayload)>,
    rows: Seq<OdomRow>,
)
    requires
        are_odom_rows(payloads, rows),
    ensures
        ({
            let known = payloads.filter(|p: (F64Bits, OdomPayload)| !(p.1 is Unknown));
            &&& rows.len() == known.len()
            &&& forall|i: int|
                0 <= i < rows.len() ==> (#[trigger] rows[i]).ts == known[i].0 && (
                known[i].1 matches OdomPayload::Odometry {
                    position,
                    orientation,
                    frame_id,
                    child_frame_id,
                } ==> rows[i].translation == position && rows[i].quaternion_xyzw == orientation
                    && rows[i].frame_id@ == frame_id@ && rows[i].child_frame_id@ == child_frame_id@)
                    && (known[i].1 matches OdomPayload::PoseStamped {
                    position,
                    orientation,
                    frame_id,
                } ==> rows[i].translation == position && rows[i].quaternion_xyzw == orientation
                    && rows[i].frame_id@ == frame_id@ && rows[i].child_frame_id@.len() == 0)
        }),
    decreases payloads.len(),
{
    reveal_with_fuel(Seq::filter, 1);
    let is_known = |p: (F64Bits, OdomPayload)| !(p.1 is Unknown);
    let known = payloads.filter(is_known);
    if payloads.len() > 0 {
        let before = payloads.drop_last().filter(is_known);
        if payloads.last().1 is Unknown {
            lemma_odometry_rows_match(payloads.drop_last(), rows);
        } else {
            let front = rows.drop_last();
            lemma_odometry_rows_match(payloads.drop_last(), front);
            assert(known == before.push(payloads.last()));
            assert forall|i: int| 0 <= i < rows.len() implies is_odom_row(
                known[i].0,
                known[i].1,
                #[trigger] rows[i],
            ) by {
                if i < front.len() {
                    assert(front[i] == rows[i]);
                    assert(known[i] == before[i]);
                }
            }
        }
    } else {
        assert(payloads =~= Seq::empty());
    }
}

/// The entries of the rows are taken one row behind the other, each with the time of its row.
pub proof fn lemma_entries_come_row_by_row(rows: Seq<(F64Bits, Vec<TransformEntry>)>)
    ensures
        flattened(rows) == rows.map_values(
            |row: (F64Bits, Vec<TransformEntry>)|
                row.1@.map_values(|entry: TransformEntry| (row.0, entry)),
        ).flatten(),
    decreases rows.len(),
{
    let timed = |row: (F64Bits, Vec<TransformEntry>)|
        row.1@.map_values(|entry: TransformEntry| (row.0, entry));
    let pieces = rows.map_values(timed);
    if rows.len() > 0 {
        lemma_entries_come_row_by_row(rows.drop_last());
        let front = rows.drop_last().map_values(timed);
        assert(pieces =~= front.push(timed(rows.last())));
        front.lemma_flatten_push(timed(rows.last()));
        assert(flattened(rows) =~= flattened(rows.drop_last()) + timed(rows.last()));
    } else {
        assert(pieces =~= Seq::empty());
    }
}

/// A sample has the stamp of its entry where that is above zero, and else the time of the row; all
/// else is the entry's.
pub proof fn lemma_sample_is_its_entry(row_ts: F64Bits, entry: TransformEntry, sample: TfSample)
    requires
        is_tf_sample(row_ts, entry, sample),
    ensures
        lt(0, entry.stamp) ==> sample.ts == entry.stamp,
        !lt(0, entry.stamp) ==> sample.ts == row_ts,
        sample.parent@ == entry.parent@,
        sample.child@ == entry.child@,
        sample.translation@ == entry.translation@,
        sample.quaternion_xyzw@ == entry.quaternion_xyzw@,
{
}

/// A field is found at the offset of the last one of its name; that of the intensity counts only
/// where it is a number of four bytes.
pub proof fn lemma_last_field_of_the_name_counts(fields: Seq<PointField>, name: Seq<char>, i: int)
    requires
        0 <= i < fields.len(),
    ensures
        fields[i].name@ == name && (name == "intensity"@ ==> fields[i].datatype == 7) && (forall|
            j: int,
        |
            i < j < fields.len() && (#[trigger] fields[j]).name@ == name ==> name == "intensity"@
                && fields[j].datatype != 7) ==> field_offset(fields, name) == Some(fields[i].offset),
        (forall|j: int|
            0 <= j < fields.len() && (#[trigger] fields[j]).name@ == name ==> name == "intensity"@
                && fields[j].datatype != 7) ==> field_offset(fields, name) is None,
    decreases fields.len(),
{
    let front = fields.drop_last();
    let last = fields.len() - 1;
    assert(fields[last] == fields.last());
    assert forall|j: int| 0 <= j < front.len() implies #[trigger] fields[j] == front[j] by {}
    if i < last {
        lemma_last_field_of_the_name_counts(front, name, i);
    } else if front.len() > 0 {
        lemma_last_field_of_the_name_counts(front, name, 0);
    }
}

/// As many records are read as the cloud says it has, or else as many as are whole in its data. A
/// number of a record is read from its four bytes, the first of which weighs least.
pub proof fn lemma_records_are_whole(message: PointCloud2, i: int, offset: int)
    requires
        message.point_step > 0,
    ensures
        ({
            let n = message.record_count();
            let at = i * message.point_step + offset;
            let data = message.data@;
            &&& n <= message.width * message.height
            &&& n * message.point_step <= data.len()
            &&& n == message.width * message.height || data.len() < (n + 1) * message.point_step
            &&& message.value(i, offset) == data[at] + data[at + 1] * 0x100 + data[at + 2]
                * 0x1_0000 + data[at + 3] * 0x100_0000
        }),
{
    let step = message.point_step as int;
    let len = message.data@.len() as int;
    let whole = len / step;
    let n = message.record_count();
    vstd::arithmetic::div_mod::lemma_fundamental_div_mod(len, step);
    assert(whole * step <= len < (whole + 1) * step) by (nonlinear_arith)
        requires
            len == step * whole + len % step,
            0 <= len % step < step,
    ;
    assert(n * step <= whole * step) by (nonlinear_arith)
        requires
            n <= whole,
            step > 0,
    ;
}

/// The scans are those of the clouds with places, one for one and in order, each with its time, its
/// frame, a point for each record and an intensity for each where the cloud has them.
pub proof fn lemma_scan_rows_match(
    clouds: Seq<(F64Bits, Option<PointCloud2>)>,
    rows: Seq<ScanRow>,
)
    requires
        are_scan_rows(clouds, rows),
    ensures
        ({
            let held = clouds.filter(
                |c: (F64Bits, Option<PointCloud2>)|
                    c.1 is Some && field_offset(c.1->0.fields@, "x"@) is Some && field_offset(
                        c.1->0.fields@,
                        "y"@,
                    ) is Some && field_offset(c.1->0.fields@, "z"@) is Some && c.1->0.point_step
                        > 0,
            );
            &&& rows.len() == held.len()
            &&& forall|i: int|
                0 <= i < rows.len() ==> {
                    let cloud = held[i].1->0;
                    &&& (#[trigger] rows[i]).ts == held[i].0
                    &&& rows[i].frame_id@ == cloud.frame_id@
                    &&& rows[i].points@.len() == cloud.record_count()
                    &&& forall|k: int|
                        0 <= k < rows[i].points@.len() ==> (#[trigger] rows[i].points@[k])@[0]
                            == cloud.value(k, field_offset(cloud.fields@, "x"@)->0 as int)
                            && rows[i].points@[k]@[1] == cloud.value(
                            k,
                            field_offset(cloud.fields@, "y"@)->0 as int,
                        ) && rows[i].points@[k]@[2] == cloud.value(
                            k,
                            field_offset(cloud.fields@, "z"@)->0 as int,
                        )
                    &&& rows[i].intensities is Some <==> field_offset(
                        cloud.fields@,
                        "intensity"@,
                    ) is Some
                    &&& rows[i].intensities matches Some(values) ==> values@.len()
                        == rows[i].points@.len() && forall|k: int|
                        0 <= k < values@.len() ==> #[trigger] values@[k] == cloud.value(
                            k,
                            field_offset(cloud.fields@, "intensity"@)->0 as int,
                        )
                }
        }),
    decreases clouds.len(),
{
    reveal_with_fuel(Seq::filter, 1);
    let is_held = |c: (F64Bits, Option<PointCloud2>)|
        c.1 is Some && field_offset(c.1->0.fields@, "x"@) is Some && field_offset(
            c.1->0.fields@,
            "y"@,
        ) is Some && field_offset(c.1->0.fields@, "z"@) is Some && c.1->0.point_step > 0;
    let held = clouds.filter(is_held);
    if clouds.len() > 0 {
        let before = clouds.drop_last().filter(is_held);
        if !holds_scan(clouds.last().1) {
            lemma_scan_rows_match(clouds.drop_last(), rows);
        } else {
            let front = rows.drop_last();
            lemma_scan_rows_match(clouds.drop_last(), front);
            assert(held == before.push(clouds.last()));
            assert forall|i: int| 0 <= i < front.len() implies #[trigger] rows[i] == front[i] by {}
            assert forall|i: int| 0 <= i < before.len() implies #[trigger] held[i] == before[i] by {}
        }
    } else {
        assert(clouds =~= Seq::empty());
    }
}

/// Tags are written between braces, each as its quoted key, a colon and its value, with a comma
/// between two of them.
pub proof fn lemma_tags_are_written_in_order(tags: Seq<Tag>, tag: Tag)
    ensures
        tags_text(Seq::empty()) == "{}"@,
        tags_text(seq![tag]) == "{\""@ + tag.key@ + "\": "@ + tag.value@ + "}"@,
        tags.len() > 0 ==> tags_text(tags.push(tag)) == tags_text(tags).drop_last() + ", \""@
            + tag.key@ + "\": "@ + tag.value@ + "}"@,
{
    reveal_strlit("{");
    reveal_strlit("}");
    reveal_strlit("\"");
    reveal_strlit("{\"");
    reveal_strlit(", ");
    reveal_strlit(", \"");
    let text = |t: Tag| tag_text(t);
    let one = seq![tag].map_values(text);
    assert(one =~= seq![tag_text(tag)]);
    reveal_with_fuel(joined, 2);
    assert(one.drop_last() =~= Seq::empty());
    assert(joined(one, ", "@) =~= tag_text(tag));
    assert(tags_text(seq![tag]) =~= "{\""@ + tag.key@ + "\": "@ + tag.value@ + "}"@);
    if tags.len() > 0 {
        let all = tags.push(tag).map_values(text);
        let front = tags.map_values(text);
        assert(all =~= front.push(tag_text(tag)));
        assert(all.drop_last() =~= front);
        assert(joined(all, ", "@) == joined(front, ", "@) + ", "@ + tag_text(tag));
        assert(tags_text(tags).drop_last() =~= "{"@ + joined(front, ", "@));
        assert(tags_text(tags.push(tag)) =~= tags_text(tags).drop_last() + ", \""@ + tag.key@
            + "\": "@ + tag.value@ + "}"@);
    }
}

/// A key of a tag is refused where it has a quote of either sort in it.
pub proof fn lemma_keys_have_no_quotes(key: Seq<char>, i: int)
    ensures
        0 <= i < key.len() && (key[i] == '"' || key[i] == '\'') ==> illegal_key(key),
        (forall|k: int| 0 <= k < key.len() ==> (#[trigger] key[k]) != '"' && key[k] != '\'')
            ==> !illegal_key(key),
{
    if 0 <= i < key.len() {
        assert(key.contains(key[i]));
    }
}

} // verus!
