//! One-shot fixups of a recording.

use crate::ieee::F64Bits;
use crate::memory2::{
    first_payload_query, has_stream, illegal_name_text, stream_query_text, RawRow,
};
use crate::store::{
    after_edits, edits_of, lemma_starting_over_twice, lemma_stream_is_written, stream_edits, Change,
    Edit, Entry, Table,
};
use crate::text::{signed_decimal, signed_text, texts};
use vstd::prelude::*;
use vstd::string::StringExecFns;

verus! {

/// The stream to which the intrinsics of a camera are written.
pub const CAMERA_INFO_STREAM: &'static str = "camera_info";

/// The type under which the intrinsics of a camera are registered.
pub const CAMERA_INFO_MODULE: &'static str = "dimos.msgs.sensor_msgs.CameraInfo.CameraInfo";

/// The stream of transforms.
pub const TF_STREAM: &'static str = "tf";

/// Width of the images for which the go2's front camera is calibrated.
pub const GO2_FRONT_720_WIDTH: i32 = 1280;

/// Height of the images for which the go2's front camera is calibrated.
pub const GO2_FRONT_720_HEIGHT: i32 = 720;

// ---- the first image ----

/// What is done to get at the first image of a stream, or why there is none: the query, or the
/// text of the error.
pub open spec fn first_image_outcome(streams: Seq<Seq<char>>, stream: Seq<char>) -> Result<
    Seq<char>,
    Seq<char>,
> {
    if !streams.contains(stream) {
        Err("no '"@ + stream + "' stream in this recording"@)
    } else if stream.contains('"') {
        Err(illegal_name_text(stream))
    } else {
        Ok(stream_query_text("meta.ts, blob.data"@, stream) + " LIMIT 1"@)
    }
}

/// Texts out of a result.
pub open spec fn text_outcome(r: Result<String, String>) -> Result<Seq<char>, Seq<char>> {
    match r {
        Ok(text) => Ok(text@),
        Err(text) => Err(text@),
    }
}

/// The query for the first image of a stream.
pub fn first_image(streams: &[String], stream: &str) -> (r: Result<String, String>)
    ensures
        text_outcome(r) == first_image_outcome(texts(streams@), stream@),
{
    if !has_stream(streams, stream) {
        let mut text = "no '".to_owned();
        text.append(stream);
        text.append("' stream in this recording");
        return Err(text);
    }
    first_payload_query("meta.ts, blob.data", stream)
}

/// The text for a stream without images.
pub fn empty_stream(stream: &str) -> (out: String)
    ensures
        out@ == "'"@ + stream@ + "' is empty"@,
{
    let mut out = "'".to_owned();
    out.append(stream);
    out.append("' is empty");
    out
}

/// The text for a stream whose payloads are no images.
pub fn not_images(stream: &str, error: &str) -> (out: String)
    ensures
        out@ == "'"@ + stream@ + "' does not hold sensor_msgs.Image payloads ("@ + error@ + ")"@,
{
    let mut out = "'".to_owned();
    out.append(stream);
    out.append("' does not hold sensor_msgs.Image payloads (");
    out.append(error);
    out.append(")");
    out
}

// ---- the go2's front camera ----

/// The intrinsics of a camera, as they are recorded.
pub struct CameraCalibration {
    pub frame_id: String,
    pub width: i32,
    pub height: i32,
    pub distortion_model: String,
    pub d: [F64Bits; 4],
    pub k: [F64Bits; 9],
    pub r: [F64Bits; 9],
    pub p: [F64Bits; 12],
}

/// The intrinsic matrix of the go2's front camera at 1280x720.
pub open spec fn go2_k() -> Seq<F64Bits> {
    seq![
        0x4088_ebce_1004_3767, 0, 0x4084_1c48_1fbc_7bc2,
        0, 0x4088_e3e5_cf06_a79a, 0x4075_d474_2a2c_f5a6,
        0, 0, 0x3ff0_0000_0000_0000,
    ]
}

/// The distortion of the go2's front camera at 1280x720.
pub open spec fn go2_d() -> Seq<F64Bits> {
    seq![
        0xbfb2_b64e_abf1_881c, 0xbf97_f928_f4b3_9607, 0xbf7c_6340_f0a9_9571, 0x3f82_ebbb_3d68_389d,
    ]
}

/// What a calibration says.
#[verifier::ext_equal]
pub struct Intrinsics {
    pub frame_id: Seq<char>,
    pub width: i32,
    pub height: i32,
    pub distortion_model: Seq<char>,
    pub d: Seq<F64Bits>,
    pub k: Seq<F64Bits>,
    pub r: Seq<F64Bits>,
    pub p: Seq<F64Bits>,
}

impl View for CameraCalibration {
    type V = Intrinsics;

    open spec fn view(&self) -> Intrinsics {
        Intrinsics {
            frame_id: self.frame_id@,
            width: self.width,
            height: self.height,
            distortion_model: self.distortion_model@,
            d: self.d@,
            k: self.k@,
            r: self.r@,
            p: self.p@,
        }
    }
}

/// The calibration of the go2's front camera, for images of a frame.
pub open spec fn go2_intrinsics(frame_id: Seq<char>) -> Intrinsics {
    let one = 0x3ff0_0000_0000_0000u64;
    let k = go2_k();
    Intrinsics {
        frame_id,
        width: GO2_FRONT_720_WIDTH,
        height: GO2_FRONT_720_HEIGHT,
        distortion_model: "equidistant"@,
        d: go2_d(),
        k,
        r: seq![one, 0, 0, 0, one, 0, 0, 0, one],
        p: seq![k[0], 0, k[2], 0, 0, k[4], k[5], 0, 0, 0, one, 0],
    }
}

/// The text for images of the wrong size.
pub open spec fn wrong_size_text(stream: Seq<char>, width: int, height: int) -> Seq<char> {
    "'"@ + stream + "' is "@ + signed_text(width) + "x"@ + signed_text(height)
        + ", but the go2 calibration is for 1280x720 -- these intrinsics do not apply to it"@
}

/// The text for images without a frame.
pub open spec fn no_frame_text(stream: Seq<char>) -> Seq<char> {
    "'"@ + stream
        + "' images carry no frame_id, so the CameraInfo would have no optical frame to hang the tag detections on"@
}

/// The calibration to write for a recording whose images have this size and frame: refused
/// unless they are 1280x720 and name their frame.
pub fn add_go2_camera_info(camera_stream: &str, width: i32, height: i32, frame_id: &str) -> (r: Result<
    CameraCalibration,
    String,
>)
    ensures
        match r {
            Ok(c) => width == GO2_FRONT_720_WIDTH && height == GO2_FRONT_720_HEIGHT
                && frame_id@.len() > 0 && c@ == go2_intrinsics(frame_id@),
            Err(text) => if width != GO2_FRONT_720_WIDTH || height != GO2_FRONT_720_HEIGHT {
                text@ == wrong_size_text(camera_stream@, width as int, height as int)
            } else {
                frame_id@.len() == 0 && text@ == no_frame_text(camera_stream@)
            },
        },
{
    if width != GO2_FRONT_720_WIDTH || height != GO2_FRONT_720_HEIGHT {
        let mut text = "'".to_owned();
        text.append(camera_stream);
        text.append("' is ");
        text.append(signed_decimal(width as i64).as_str());
        text.append("x");
        text.append(signed_decimal(height as i64).as_str());
        text.append(
            ", but the go2 calibration is for 1280x720 -- these intrinsics do not apply to it",
        );
        return Err(text);
    }
    if frame_id.is_empty() {
        let mut text = "'".to_owned();
        text.append(camera_stream);
        text.append(
            "' images carry no frame_id, so the CameraInfo would have no optical frame to hang the tag detections on",
        );
        return Err(text);
    }
    // 797.4756164864929, 643.5352167821186, 796.4872112769983 and 349.2783605343087
    let fx: F64Bits = 0x4088_ebce_1004_3767;
    let cx: F64Bits = 0x4084_1c48_1fbc_7bc2;
    let fy: F64Bits = 0x4088_e3e5_cf06_a79a;
    let cy: F64Bits = 0x4075_d474_2a2c_f5a6;
    let one: F64Bits = 0x3ff0_0000_0000_0000;
    let k: [F64Bits; 9] = [fx, 0, cx, 0, fy, cy, 0, 0, one];
    // -0.07309428880537933, -0.02341140740909078, -0.0069305931780026956 and 0.009238684474464793
    let d: [F64Bits; 4] = [
        0xbfb2_b64e_abf1_881c,
        0xbf97_f928_f4b3_9607,
        0xbf7c_6340_f0a9_9571,
        0x3f82_ebbb_3d68_389d,
    ];
    let r: [F64Bits; 9] = [one, 0, 0, 0, one, 0, 0, 0, one];
    let p: [F64Bits; 12] = [fx, 0, cx, 0, 0, fy, cy, 0, 0, 0, one, 0];
    assert(k@ =~= go2_k());
    assert(d@ =~= go2_d());
    let calibration = CameraCalibration {
        frame_id: frame_id.to_owned(),
        width: GO2_FRONT_720_WIDTH,
        height: GO2_FRONT_720_HEIGHT,
        distortion_model: "equidistant".to_owned(),
        d,
        k,
        r,
        p,
    };
    assert(calibration@ =~= go2_intrinsics(frame_id@));
    Ok(calibration)
}

/// What is said once the calibration is written.
pub fn wrote_camera_info(frame_id: &str) -> (out: String)
    ensures
        out@ == "wrote camera_info: go2 front camera 720p (equidistant) in frame '"@ + frame_id@
            + "'"@,
{
    let mut out = "wrote camera_info: go2 front camera 720p (equidistant) in frame '".to_owned();
    out.append(frame_id);
    out.append("'");
    out
}

/// What is said of a recording without transforms, where the extrinsics of the camera have to be
/// given by hand; nothing where it has them.
pub fn missing_tf_note(streams: &[String], frame_id: &str) -> (note: Option<String>)
    ensures
        note is Some <==> !texts(streams@).contains("tf"@),
        note matches Some(out) ==> out@
            == "NOTE: this recording has no 'tf' stream, so the base<-'"@ + frame_id@
            + "' extrinsic cannot be resolved -- the solve still needs --base-optical 'x y z qx qy qz qw'."@,
{
    if has_stream(streams, "tf") {
        return None;
    }
    let mut out = "NOTE: this recording has no 'tf' stream, so the base<-'".to_owned();
    out.append(frame_id);
    out.append(
        "' extrinsic cannot be resolved -- the solve still needs --base-optical 'x y z qx qy qz qw'.",
    );
    Some(out)
}

// ---- what the fixup leaves behind ----

/// The changes that write the intrinsics: their stream is made anew, with one row.
pub open spec fn camera_info_edits(ts: F64Bits, blob: Seq<u8>) -> Seq<Edit> {
    stream_edits(
        CAMERA_INFO_STREAM@,
        CAMERA_INFO_MODULE@,
        seq![Entry { ts, pose: None, tags: "{}"@, blob }],
    )
}

/// The changes that write the intrinsics, at the time of the first image and with the calibration
/// as it is laid out.
pub fn camera_info_changes(ts: F64Bits, blob: Vec<u8>) -> (changes: Vec<Change>)
    ensures
        edits_of(changes@) == camera_info_edits(ts, blob@),
{
    let ghost payload = blob@;
    let row = RawRow { ts, pose: None, tags_json: "{}".to_owned(), blob };
    let mut changes: Vec<Change> = Vec::new();
    changes.push(
        Change::Replace {
            stream: CAMERA_INFO_STREAM.to_owned(),
            module: CAMERA_INFO_MODULE.to_owned(),
        },
    );
    changes.push(Change::Append { stream: CAMERA_INFO_STREAM.to_owned(), row });
    assert(edits_of(changes@) =~= camera_info_edits(ts, payload));
    changes
}

/// What is read of an image.
#[verifier::ext_equal]
pub struct FirstImage {
    pub ts: F64Bits,
    pub width: i32,
    pub height: i32,
    pub frame_id: Seq<char>,
}

/// The images are those that the calibration is for.
pub open spec fn is_go2_image(image: FirstImage) -> bool {
    &&& image.width == GO2_FRONT_720_WIDTH
    &&& image.height == GO2_FRONT_720_HEIGHT
    &&& image.frame_id.len() > 0
}

/// A recording after the fixup, where `first` reads the first image off the rows of a stream and
/// `layout` lays out a calibration with its time: it is as it was unless there is such an image, under
/// a legal name, and it is one of the go2's.
pub open spec fn with_camera_info(
    recording: Map<Seq<char>, Table>,
    camera_stream: Seq<char>,
    first: spec_fn(Seq<Entry>) -> Option<FirstImage>,
    layout: spec_fn(F64Bits, Intrinsics) -> Seq<u8>,
) -> Map<Seq<char>, Table> {
    if recording.contains_key(camera_stream) && !camera_stream.contains('"') {
        match first(recording[camera_stream].rows) {
            Some(image) => if is_go2_image(image) {
                after_edits(
                    recording,
                    camera_info_edits(image.ts, layout(image.ts, go2_intrinsics(image.frame_id))),
                )
            } else {
                recording
            },
            None => recording,
        }
    } else {
        recording
    }
}

/// The fixup adds no stream but its own, takes none away, and leaves the rows of all others as they
/// were; its own holds one row, with the calibration of the go2, of the time and the frame of the
/// first image.
pub proof fn lemma_camera_info_is_additive(
    recording: Map<Seq<char>, Table>,
    camera_stream: Seq<char>,
    first: spec_fn(Seq<Entry>) -> Option<FirstImage>,
    layout: spec_fn(F64Bits, Intrinsics) -> Seq<u8>,
    name: Seq<char>,
)
    ensures
        ({
            let after = with_camera_info(recording, camera_stream, first, layout);
            let image = first(recording[camera_stream].rows);
            &&& name != CAMERA_INFO_STREAM@ ==> after.contains_key(name) == recording.contains_key(
                name,
            ) && after[name] == recording[name]
            &&& recording.contains_key(name) ==> after.contains_key(name)
            &&& recording.contains_key(camera_stream) && !camera_stream.contains('"') && image is Some
                && is_go2_image(image->0) ==> after.contains_key(CAMERA_INFO_STREAM@) && after[CAMERA_INFO_STREAM@] == (Table {
                module: CAMERA_INFO_MODULE@,
                rows: seq![
                    Entry {
                        ts: image->0.ts,
                        pose: None,
                        tags: "{}"@,
                        blob: layout(image->0.ts, go2_intrinsics(image->0.frame_id)),
                    },
                ],
            })
        }),
{
    match first(recording[camera_stream].rows) {
        Some(image) => {
            let blob = layout(image.ts, go2_intrinsics(image.frame_id));
            lemma_stream_is_written(
                recording,
                CAMERA_INFO_STREAM@,
                CAMERA_INFO_MODULE@,
                seq![Entry { ts: image.ts, pose: None, tags: "{}"@, blob }],
            );
        },
        None => {},
    }
}

/// Run again, the fixup finds the same first image and leaves the recording as it left it the first
/// time, row by row, where the images are not kept under the name of the intrinsics.
pub proof fn lemma_camera_info_is_idempotent(
    recording: Map<Seq<char>, Table>,
    camera_stream: Seq<char>,
    first: spec_fn(Seq<Entry>) -> Option<FirstImage>,
    layout: spec_fn(F64Bits, Intrinsics) -> Seq<u8>,
)
    requires
        camera_stream != CAMERA_INFO_STREAM@,
    ensures
        ({
            let once = with_camera_info(recording, camera_stream, first, layout);
            &&& once.contains_key(camera_stream) == recording.contains_key(camera_stream)
            &&& first(once[camera_stream].rows) == first(recording[camera_stream].rows)
            &&& with_camera_info(once, camera_stream, first, layout) == once
        }),
{
    let once = with_camera_info(recording, camera_stream, first, layout);
    lemma_camera_info_is_additive(recording, camera_stream, first, layout, camera_stream);
    match first(recording[camera_stream].rows) {
        Some(image) => {
            let blob = layout(image.ts, go2_intrinsics(image.frame_id));
            let edits = camera_info_edits(image.ts, blob);
            lemma_stream_is_written(
                recording,
                CAMERA_INFO_STREAM@,
                CAMERA_INFO_MODULE@,
                seq![Entry { ts: image.ts, pose: None, tags: "{}"@, blob }],
            );
            lemma_starting_over_twice(recording, edits);
        },
        None => {},
    }
}

/// The intrinsics of the front camera are of an image of 1280 by 720 pixels. Its images are not turned,
/// and projected by the camera's own matrix, with nothing added.
pub proof fn lemma_front_camera_projects_by_its_matrix(frame_id: Seq<char>, i: int, j: int)
    requires
        0 <= i < 3,
        0 <= j < 3,
    ensures
        ({
            let one: F64Bits = 0x3ff0_0000_0000_0000;
            let c = go2_intrinsics(frame_id);
            &&& c.frame_id == frame_id
            &&& c.width == 1280 && c.height == 720
            &&& c.distortion_model == "equidistant"@
            &&& c.d.len() == 4 && c.k.len() == 9 && c.r.len() == 9 && c.p.len() == 12
            &&& c.p[4 * i + j] == c.k[3 * i + j]
            &&& c.p[4 * i + 3] == 0
            &&& c.r[3 * i + j] == (if i == j {
                one
            } else {
                0
            })
            &&& i > j || (i == 0 && j == 1) ==> c.k[3 * i + j] == 0
            &&& c.k[8] == one
        }),
{
}

/// The first image is asked for exactly where the stream is recorded and can be named; only one row is
/// asked for.
pub proof fn lemma_first_image_needs_its_stream(streams: Seq<Seq<char>>, stream: Seq<char>)
    ensures
        first_image_outcome(streams, stream) is Ok <==> streams.contains(stream) && !stream.contains(
            '"',
        ),
        first_image_outcome(streams, stream) matches Ok(sql) ==> crate::text::closes_with(
            sql,
            " LIMIT 1"@,
        ),
        !streams.contains(stream) ==> first_image_outcome(streams, stream) == Err::<
            Seq<char>,
            Seq<char>,
        >("no '"@ + stream + "' stream in this recording"@),
{
    if let Ok(sql) = first_image_outcome(streams, stream) {
        let tail = " LIMIT 1"@;
        assert(sql.subrange(sql.len() - tail.len(), sql.len() as int) =~= tail);
    }
}

/// The calibration is of images of 1280 by 720 pixels whose frame is named.
pub proof fn lemma_calibrated_images(image: FirstImage)
    ensures
        is_go2_image(image) <==> image.width == 1280 && image.height == 720 && image.frame_id
            != Seq::<char>::empty(),
{
    if image.frame_id.len() == 0 {
        assert(image.frame_id =~= Seq::empty());
    }
}

} // verus!
