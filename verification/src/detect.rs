//! Tag detection: which decoder looks at which image, how fast the camera moved, and the stream
//! in which sightings are kept.

use crate::apriltags::Detection;
use crate::ieee::{at_most, le, less, lt, total_key, total_rank, truncate, truncated, F32Bits, F64Bits};
use crate::memory2::{
    has_stream, illegal_name_text, quote_ident, quoted_name, stream_query, stream_query_text, Tag,
};
use crate::order::{single_key, stable_order, stable_sort, SortKey};
use crate::text::{debug_text, quoted, same, signed_decimal, signed_text, texts};
use crate::tf::Pose7;
use kornia_apriltag::AprilTagDecoder;
use kornia_apriltag::DecodeTagsConfig;
use kornia_image::allocator::CpuAllocator;
use kornia_image::ImageSize;
use std::collections::HashMap;
use vstd::prelude::*;
use vstd::string::StringExecFns;

verus! {

// ---- families ----

/// The families of tags that can be looked for.
#[derive(Clone, Copy, PartialEq, Eq, Structural, Debug)]
pub enum TagFamilyKind {
    Tag36H11,
    Tag36H10,
    Tag25H9,
    Tag16H5,
}

/// The family that a dictionary's name stands for.
pub open spec fn family_named(dictionary: Seq<char>) -> Option<TagFamilyKind> {
    if dictionary == "DICT_APRILTAG_36h11"@ {
        Some(TagFamilyKind::Tag36H11)
    } else if dictionary == "DICT_APRILTAG_36h10"@ {
        Some(TagFamilyKind::Tag36H10)
    } else if dictionary == "DICT_APRILTAG_25h9"@ {
        Some(TagFamilyKind::Tag25H9)
    } else if dictionary == "DICT_APRILTAG_16h5"@ {
        Some(TagFamilyKind::Tag16H5)
    } else {
        None
    }
}

/// The family that a dictionary's name stands for.
pub fn family_kind(dictionary: &str) -> (r: Result<TagFamilyKind, String>)
    ensures
        match r {
            Ok(kind) => family_named(dictionary@) == Some(kind),
            Err(text) => family_named(dictionary@) is None && text@
                == "unsupported aruco dictionary "@ + debug_text(dictionary@),
        },
{
    if same(dictionary, "DICT_APRILTAG_36h11") {
        Ok(TagFamilyKind::Tag36H11)
    } else if same(dictionary, "DICT_APRILTAG_36h10") {
        Ok(TagFamilyKind::Tag36H10)
    } else if same(dictionary, "DICT_APRILTAG_25h9") {
        Ok(TagFamilyKind::Tag25H9)
    } else if same(dictionary, "DICT_APRILTAG_16h5") {
        Ok(TagFamilyKind::Tag16H5)
    } else {
        let mut text = "unsupported aruco dictionary ".to_owned();
        text.append(quoted(dictionary).as_str());
        Err(text)
    }
}

// ---- looking for tags ----

/// `kornia_apriltag::AprilTagDecoder`, of which nothing is known but through the functions
/// below.
#[verifier::external_type_specification]
#[verifier::external_body]
pub struct ExAprilTagDecoder(AprilTagDecoder);

/// A tag that a decoder found: its number, and the homography from tag coordinates, in which the
/// border is at -1 and 1, to pixels, row by row.
#[derive(Clone, Copy, Debug)]
pub struct TagHit {
    pub id: u16,
    pub homography: [F32Bits; 9],
}

/// A decoder with what it was made for, the image that it was last handed, the tags that it found
/// when it was last able to look, and whether it is clear of what it found in an image.
struct SizedDecoder {
    inner: AprilTagDecoder,
    kind: TagFamilyKind,
    width: usize,
    height: usize,
    last: Ghost<Option<Seq<u8>>>,
    found: Ghost<Option<Seq<TagHit>>>,
    clear: Ghost<bool>,
}

/// Whether a decoder can be made for images of this size: they can be halved, their pixels can be
/// counted, and single precision can tell their rows and columns apart.
pub open spec fn is_scannable(width: usize, height: usize) -> bool {
    &&& 2 <= width <= 0x100_0000
    &&& height <= 0x100_0000
    &&& width * height <= isize::MAX / 2
}

/// How many tags a family has.
pub open spec fn code_count(kind: TagFamilyKind) -> nat {
    match kind {
        TagFamilyKind::Tag36H11 => 587,
        TagFamilyKind::Tag36H10 => 2320,
        TagFamilyKind::Tag25H9 => 35,
        TagFamilyKind::Tag16H5 => 30,
    }
}

/// `kornia_apriltag::AprilTagDecoder::new`, with the default settings for one family: a decoder
/// of that family for images of that size. It only allocates buffers, the largest with eight bytes
/// for every fourth pixel, so that it does not fail.
#[verifier::external_body]
fn new_decoder(kind: TagFamilyKind, width: usize, height: usize) -> (r: Result<
    SizedDecoder,
    String,
>)
    requires
        is_scannable(width, height),
    ensures
        r is Ok,
        r matches Ok(d) ==> d.kind == kind && d.width == width && d.height == height,
        r matches Ok(d) ==> d.last@ is None && d.found@ is None && d.clear@,
{
    let family = match kind {
        TagFamilyKind::Tag36H11 => kornia_apriltag::family::TagFamilyKind::Tag36H11,
        TagFamilyKind::Tag36H10 => kornia_apriltag::family::TagFamilyKind::Tag36H10,
        TagFamilyKind::Tag25H9 => kornia_apriltag::family::TagFamilyKind::Tag25H9,
        TagFamilyKind::Tag16H5 => kornia_apriltag::family::TagFamilyKind::Tag16H5,
    };
    let config = DecodeTagsConfig::new(vec![family]);
    let made = AprilTagDecoder::new(config, ImageSize { width, height });
    let (last, found, clear) = (Ghost(None), Ghost(None), Ghost(true));
    made.map(|inner| SizedDecoder { inner, kind, width, height, last, found, clear })
        .map_err(|e| e.to_string())
}

/// `kornia_apriltag::AprilTagDecoder::decode` on a gray image of the decoder's size: the tags of
/// the decoder's family that it finds. It halves the image, which one of less than two columns
/// does not allow, counts rows and columns in single precision, and cuts what is left into tiles of four by four pixels, of which there must be
/// one; nothing else makes it fail. The number of a tag is its place among the codes of the
/// family. The decoder walks a hash map that each process seeds anew, so which tags are found, and
/// in what order, is not a function of the image, and no more is said of them.
#[verifier::external_body]
fn decode_with(decoder: &mut SizedDecoder, gray: &[u8]) -> (r: Result<Vec<TagHit>, String>)
    requires
        is_scannable(old(decoder).width, old(decoder).height),
        gray@.len() == old(decoder).width * old(decoder).height,
        old(decoder).clear@,
    ensures
        final(decoder).kind == old(decoder).kind,
        final(decoder).width == old(decoder).width,
        final(decoder).height == old(decoder).height,
        final(decoder).last@ == Some(gray@),
        r matches Ok(hits) ==> final(decoder).found@ == Some(hits@),
        r is Err ==> final(decoder).found@ == old(decoder).found@,
        final(decoder).clear@ == r is Err,
        r is Ok <==> old(decoder).width >= 8 && old(decoder).height >= 8,
        r matches Ok(hits) ==> forall|i: int|
            0 <= i < hits@.len() ==> (#[trigger] hits@[i]).id < code_count(old(decoder).kind),
{
    let size = ImageSize { width: decoder.width, height: decoder.height };
    let image = kornia_image::Image::<u8, 1, CpuAllocator>::new(size, gray.to_vec(), CpuAllocator)
        .map_err(|e| e.to_string())?;
    let found = decoder.inner.decode(&image).map_err(|e| e.to_string())?;
    let hits = found.iter().map(|tag| TagHit {
        id: tag.id,
        homography: tag.quad.homography.map(|v| v.to_bits()),
    });
    Ok(hits.collect())
}

/// `kornia_apriltag::AprilTagDecoder::clear`: the decoder forgets what it found in the image that
/// it was last handed, and can be handed another.
#[verifier::external_body]
fn clear_decoder(decoder: &mut SizedDecoder)
    ensures
        final(decoder).kind == old(decoder).kind,
        final(decoder).width == old(decoder).width,
        final(decoder).height == old(decoder).height,
        final(decoder).last@ == old(decoder).last@,
        final(decoder).found@ == old(decoder).found@,
        final(decoder).clear@,
{
    decoder.inner.clear();
}

/// Whether a decoder has to be made for an image: there is none, or it is for another size.
pub open spec fn needs_new(current: Option<(usize, usize)>, width: usize, height: usize) -> bool {
    match current {
        None => true,
        Some(size) => size.0 != width || size.1 != height,
    }
}

/// Looks for the tags of one family in one image after the other.
pub struct TagScanner {
    kind: TagFamilyKind,
    decoder: Option<SizedDecoder>,
}

impl TagScanner {
    /// The family that is looked for.
    pub closed spec fn family(&self) -> TagFamilyKind {
        self.kind
    }

    /// The size of the images for which there is a decoder.
    pub closed spec fn ready_for(&self) -> Option<(usize, usize)> {
        match self.decoder {
            Some(decoder) => Some((decoder.width, decoder.height)),
            None => None,
        }
    }

    /// What was last looked for, and in what: the family of the decoder, and the width, the height
    /// and the pixels of the image that it was handed.
    pub closed spec fn searched(&self) -> Option<(TagFamilyKind, usize, usize, Seq<u8>)> {
        match self.decoder {
            Some(decoder) => match decoder.last@ {
                Some(pixels) => Some((decoder.kind, decoder.width, decoder.height, pixels)),
                None => None,
            },
            None => None,
        }
    }

    /// The tags that the decoder found when it was last able to look.
    pub closed spec fn found(&self) -> Option<Seq<TagHit>> {
        match self.decoder {
            Some(decoder) => decoder.found@,
            None => None,
        }
    }

    #[verifier::type_invariant]
    spec fn wf(self) -> bool {
        self.decoder matches Some(decoder) ==> decoder.kind == self.kind && decoder.clear@
    }

    /// A scanner without a decoder.
    pub fn new(kind: TagFamilyKind) -> (scanner: TagScanner)
        ensures
            scanner.family() == kind,
            scanner.ready_for() is None,
            scanner.searched() is None,
            scanner.found() is None,
    {
        TagScanner { kind, decoder: None }
    }

    /// Whether a decoder has to be made for an image of this size.
    pub fn wants_decoder(&self, width: usize, height: usize) -> (r: bool)
        ensures
            r == needs_new(self.ready_for(), width, height),
    {
        match &self.decoder {
            None => true,
            Some(decoder) => decoder.width != width || decoder.height != height,
        }
    }

    /// Looks for tags in a gray image, with a new decoder where the one at hand is for another
    /// size. An image of less than eight rows or columns is refused. Which tags are found is left
    /// to the decoder.
    pub fn scan(&mut self, gray: &[u8], width: usize, height: usize) -> (r: Result<
        Vec<TagHit>,
        String,
    >)
        requires
            is_scannable(width, height),
            gray@.len() == width * height,
        ensures
            final(self).family() == old(self).family(),
            final(self).ready_for() == Some((width, height)),
            final(self).searched() == Some((old(self).family(), width, height, gray@)),
            r is Ok <==> width >= 8 && height >= 8,
            r matches Ok(hits) ==> final(self).found() == Some(hits@),
            r matches Ok(hits) ==> forall|i: int|
                0 <= i < hits@.len() ==> (#[trigger] hits@[i]).id < code_count(
                    old(self).family(),
                ),
    {
        proof {
            use_type_invariant(&*self);
        }
        let stale = self.wants_decoder(width, height);
        let mut slot: Option<SizedDecoder> = None;
        std::mem::swap(&mut self.decoder, &mut slot);
        let mut decoder = match slot {
            Some(decoder) if !stale => decoder,
            _ => match new_decoder(self.kind, width, height) {
                Ok(decoder) => decoder,
                Err(text) => {
                    return Err(text);
                },
            },
        };
        let found = decode_with(&mut decoder, gray);
        if found.is_ok() {
            clear_decoder(&mut decoder);
        }
        self.decoder = Some(decoder);
        found
    }
}

// ---- the camera ----

/// A pinhole camera with radial and tangential distortion.
#[derive(Clone, Copy, Debug)]
pub struct CameraModel {
    pub fx: F64Bits,
    pub fy: F64Bits,
    pub cx: F64Bits,
    pub cy: F64Bits,
    pub skew: F64Bits,
    /// k1, k2, p1, p2, k3, k4, k5, k6; 0 where the camera gives fewer
    pub dist: [F64Bits; 8],
}

impl CameraModel {
    /// The model of a camera with the intrinsic matrix `k`, row by row, and the distortion `d`.
    pub fn from_info(k: &[F64Bits; 9], d: &[F64Bits]) -> (camera: CameraModel)
        ensures
            camera.fx == k@[0],
            camera.skew == k@[1],
            camera.cx == k@[2],
            camera.fy == k@[4],
            camera.cy == k@[5],
            forall|i: int|
                0 <= i < 8 ==> #[trigger] camera.dist@[i] == (if i < d@.len() {
                    d@[i]
                } else {
                    0
                }),
    {
        let mut dist: [F64Bits; 8] = [0;8];
        let mut i: usize = 0;
        while i < 8 && i < d.len()
            invariant
                i <= 8,
                i <= d@.len(),
                forall|j: int| 0 <= j < i ==> #[trigger] dist@[j] == d@[j],
                forall|j: int| i <= j < 8 ==> #[trigger] dist@[j] == 0,
            decreases 8 - i,
        {
            dist[i] = d[i];
            i = i + 1;
        }
        CameraModel { fx: k[0], skew: k[1], cx: k[2], fy: k[4], cy: k[5], dist }
    }
}

/// The streams in which a camera's intrinsics may be, in the order in which they are tried: the
/// one that is asked for, else the one named after the camera's stream before the general one.
pub fn camera_info_streams(camera_stream: &str, override_stream: &str) -> (tried: Vec<String>)
    ensures
        texts(tried@) == (if override_stream@.len() == 0 {
            seq![camera_stream@ + "_camera_info"@, "camera_info"@]
        } else {
            seq![override_stream@]
        }),
{
    let mut tried: Vec<String> = Vec::new();
    if override_stream.is_empty() {
        let mut own = camera_stream.to_owned();
        own.append("_camera_info");
        tried.push(own);
        tried.push("camera_info".to_owned());
        assert(texts(tried@) =~= seq![camera_stream@ + "_camera_info"@, "camera_info"@]);
    } else {
        tried.push(override_stream.to_owned());
        assert(texts(tried@) =~= seq![override_stream@]);
    }
    tried
}

/// The optical frame of a camera whose intrinsics name the frame `frame_id`.
pub fn optical_frame(frame_id: &str) -> (frame: String)
    ensures
        frame@ == (if frame_id@.len() == 0 {
            "camera_optical"@
        } else {
            frame_id@
        }),
{
    if frame_id.is_empty() {
        "camera_optical".to_owned()
    } else {
        frame_id.to_owned()
    }
}

/// A candidate for the pose of a tag: how far it is in front of the camera, and how far its
/// corners come out from where they were seen.
#[derive(Clone, Copy, Debug)]
pub struct PoseCandidate {
    pub depth: F64Bits,
    pub rms: F64Bits,
}

/// The best of the first `n` candidates: of those in front of the camera the one that comes out
/// closest, the first of them where several do.
pub open spec fn best_pose(candidates: Seq<PoseCandidate>, n: nat) -> Option<usize>
    decreases n,
{
    if n == 0 {
        None
    } else {
        let before = best_pose(candidates, (n - 1) as nat);
        let c = candidates[n - 1];
        if le(c.depth, 0) {
            before
        } else if before is None || lt(c.rms, candidates[before->0 as int].rms) {
            Some((n - 1) as usize)
        } else {
            before
        }
    }
}

/// The candidate that is taken as the pose of a tag, if any is.
pub fn choose_pose(candidates: &[PoseCandidate]) -> (best: Option<usize>)
    ensures
        best == best_pose(candidates@, candidates@.len()),
        best matches Some(i) ==> i < candidates@.len(),
{
    let mut best: Option<usize> = None;
    let mut n: usize = 0;
    while n < candidates.len()
        invariant
            n <= candidates@.len(),
            best == best_pose(candidates@, n as nat),
            best matches Some(i) ==> i < n,
        decreases candidates.len() - n,
    {
        let c = candidates[n];
        if !at_most(c.depth, 0) {
            let better = match best {
                None => true,
                Some(i) => less(c.rms, candidates[i].rms),
            };
            if better {
                best = Some(n);
            }
        }
        n = n + 1;
    }
    best
}

/// The chosen pose lies in front of the camera, and no other that does comes out closer to where
/// the corners were seen, as far as the distances are numbers.
pub proof fn lemma_best_pose_is_best(candidates: Seq<PoseCandidate>, n: nat)
    requires
        n <= candidates.len() <= usize::MAX,
        forall|i: int|
            0 <= i < n ==> !crate::ieee::is_nan((#[trigger] candidates[i]).rms),
    ensures
        match best_pose(candidates, n) {
            None => forall|i: int| 0 <= i < n ==> le((#[trigger] candidates[i]).depth, 0),
            Some(best) => best < n && !le(candidates[best as int].depth, 0) && forall|i: int|
                0 <= i < n && !le((#[trigger] candidates[i]).depth, 0) ==> le(
                    candidates[best as int].rms,
                    candidates[i].rms,
                ),
        },
    decreases n,
{
    if n > 0 {
        lemma_best_pose_is_best(candidates, (n - 1) as nat);
    }
}

// ---- the motion of the camera ----

/// The query for the times and poses of an image stream.
pub open spec fn speed_query_text(stream: Seq<char>) -> Seq<char> {
    "SELECT ts, pose_x, pose_y, pose_z, pose_qx, pose_qy, pose_qz, pose_qw FROM "@ + quoted_name(
        stream,
    ) + " ORDER BY ts"@
}

/// The query for the times and poses of an image stream.
pub fn speed_query(stream: &str) -> (r: Result<String, String>)
    ensures
        match r {
            Ok(sql) => !stream@.contains('"') && sql@ == speed_query_text(stream@),
            Err(text) => stream@.contains('"') && text@ == illegal_name_text(stream@),
        },
{
    match quote_ident(stream) {
        Err(text) => Err(text),
        Ok(table) => {
            let mut sql =
                "SELECT ts, pose_x, pose_y, pose_z, pose_qx, pose_qy, pose_qz, pose_qw FROM ".to_owned();
            sql.append(table.as_str());
            sql.append(" ORDER BY ts");
            Ok(sql)
        },
    }
}

/// The time of an image and the pose of the camera, as far as the columns hold one.
#[derive(Clone, Copy, Debug)]
pub struct PosedImage {
    pub ts: F64Bits,
    pub pose: [Option<F64Bits>; 7],
}

/// Whether all seven columns hold a number.
pub open spec fn is_posed(image: PosedImage) -> bool {
    forall|i: int| 0 <= i < 7 ==> #[trigger] image.pose@[i] is Some
}

/// The pose of an image whose columns all hold a number.
pub open spec fn pose_of(image: PosedImage) -> Pose7 {
    [
        image.pose@[0]->0,
        image.pose@[1]->0,
        image.pose@[2]->0,
        image.pose@[3]->0,
        image.pose@[4]->0,
        image.pose@[5]->0,
        image.pose@[6]->0,
    ]
}

/// The first `n` images that have a pose, each with the rank of its time.
pub open spec fn posed_of(images: Seq<PosedImage>, n: nat) -> Seq<(SortKey, (F64Bits, Pose7))>
    decreases n,
{
    if n == 0 {
        Seq::empty()
    } else {
        let before = posed_of(images, (n - 1) as nat);
        let image = images[n - 1];
        if is_posed(image) {
            before.push((single_key(total_rank(image.ts)), (image.ts, pose_of(image))))
        } else {
            before
        }
    }
}

/// The images that have a pose, in the order of time.
pub open spec fn posed_in_order(images: Seq<PosedImage>) -> Seq<(F64Bits, Pose7)> {
    stable_order(posed_of(images, images.len())).map_values(
        |e: (SortKey, (F64Bits, Pose7))| e.1,
    )
}

fn complete_pose(pose: &[Option<F64Bits>; 7]) -> (r: Option<Pose7>)
    ensures
        match r {
            Some(p) => (forall|i: int| 0 <= i < 7 ==> #[trigger] pose@[i] is Some) && forall|i: int|
                0 <= i < 7 ==> #[trigger] p@[i] == pose@[i]->0,
            None => exists|i: int| 0 <= i < 7 && #[trigger] pose@[i] is None,
        },
{
    let mut out: Pose7 = [0;7];
    let mut i: usize = 0;
    while i < 7
        invariant
            i <= 7,
            forall|j: int| 0 <= j < i ==> #[trigger] pose@[j] is Some,
            forall|j: int| 0 <= j < i ==> #[trigger] out@[j] == pose@[j]->0,
        decreases 7 - i,
    {
        match pose[i] {
            Some(v) => {
                out[i] = v;
            },
            None => {
                assert(pose@[i as int] is None);
                return None;
            },
        }
        i = i + 1;
    }
    Some(out)
}

/// The images that have a pose, in the order of time.
pub fn posed_images(images: &[PosedImage]) -> (posed: Vec<(F64Bits, Pose7)>)
    ensures
        posed@ == posed_in_order(images@),
{
    let mut keyed: Vec<(SortKey, (F64Bits, Pose7))> = Vec::new();
    let mut n: usize = 0;
    while n < images.len()
        invariant
            n <= images@.len(),
            keyed@ == posed_of(images@, n as nat),
        decreases images.len() - n,
    {
        let image = images[n];
        match complete_pose(&image.pose) {
            Some(pose) => {
                assert(pose@ =~= pose_of(image)@);
                assert(pose == pose_of(image));
                let key = SortKey { first: total_key(image.ts), second: 0, third: 0 };
                keyed.push((key, (image.ts, pose)));
            },
            None => {},
        }
        n = n + 1;
    }
    let sorted = stable_sort(&keyed);
    let ghost all = posed_in_order(images@);
    let mut posed: Vec<(F64Bits, Pose7)> = Vec::with_capacity(sorted.len());
    let mut k: usize = 0;
    assert(posed@ =~= all.take(0));
    while k < sorted.len()
        invariant
            k <= sorted@.len(),
            sorted@ == stable_order(posed_of(images@, images@.len())),
            all == posed_in_order(images@),
            posed@ == all.take(k as int),
        decreases sorted.len() - k,
    {
        posed.push(sorted[k].1);
        k = k + 1;
        assert(posed@ =~= all.take(k as int));
    }
    assert(posed@ =~= all);
    posed
}

/// What a pair of neighbouring images tells: the time between them, and the linear and angular
/// speed of the camera.
#[derive(Clone, Copy, Debug)]
pub struct CameraMove {
    pub dt: F64Bits,
    pub linear: F64Bits,
    pub angular: F64Bits,
}

/// Minus one: a speed that is not known.
pub const UNKNOWN_SPEED: F64Bits = 0xbff0_0000_0000_0000;

/// The speeds by the time of the second image of a pair, over the first `n` pairs. A pair
/// without time between its images tells nothing.
pub open spec fn speeds_of(
    posed: Seq<(F64Bits, Pose7)>,
    moves: Seq<CameraMove>,
    n: nat,
) -> Map<F64Bits, (F64Bits, F64Bits)>
    decreases n,
{
    if n == 0 {
        Map::empty()
    } else {
        let before = speeds_of(posed, moves, (n - 1) as nat);
        let m = moves[n - 1];
        if le(m.dt, 0) {
            before
        } else {
            before.insert(posed[n as int].0, (m.linear, m.angular))
        }
    }
}

/// The camera's speeds at the times of its images.
pub struct CameraSpeeds {
    by_time: HashMap<F64Bits, (F64Bits, F64Bits)>,
    available: bool,
}

impl CameraSpeeds {
    /// Linear and angular speed at each time that tells them.
    pub closed spec fn told(&self) -> Map<F64Bits, (F64Bits, F64Bits)> {
        self.by_time@
    }

    /// Whether enough images have a pose to tell a speed at all.
    pub closed spec fn known(&self) -> bool {
        self.available
    }

    /// The speeds that the moves between neighbouring images tell.
    pub fn new(posed: &[(F64Bits, Pose7)], moves: &[CameraMove]) -> (r: CameraSpeeds)
        requires
            moves@.len() + 1 == posed@.len() || (posed@.len() == 0 && moves@.len() == 0),
        ensures
            r.told() == speeds_of(posed@, moves@, moves@.len()),
            r.known() == (posed@.len() >= 2),
    {
        broadcast use vstd::std_specs::hash::group_hash_axioms;

        let mut by_time: HashMap<F64Bits, (F64Bits, F64Bits)> = HashMap::new();
        let mut n: usize = 0;
        assert(by_time@ =~= Map::empty());
        while n < moves.len()
            invariant
                n <= moves@.len(),
                moves@.len() > 0 ==> moves@.len() + 1 == posed@.len(),
                by_time@ == speeds_of(posed@, moves@, n as nat),
            decreases moves.len() - n,
        {
            broadcast use vstd::std_specs::hash::group_hash_axioms;

            let m = moves[n];
            if !at_most(m.dt, 0) {
                by_time.insert(posed[n + 1].0, (m.linear, m.angular));
            }
            n = n + 1;
        }
        CameraSpeeds { by_time, available: posed.len() >= 2 }
    }

    /// Whether enough images have a pose to tell a speed at all.
    pub fn is_available(&self) -> (r: bool)
        ensures
            r == self.known(),
    {
        self.available
    }

    /// Linear and angular speed at a time; unknown where no image of that time tells.
    pub fn at(&self, ts: F64Bits) -> (r: (F64Bits, F64Bits))
        ensures
            r == (if self.told().contains_key(ts) {
                self.told()[ts]
            } else {
                (UNKNOWN_SPEED, UNKNOWN_SPEED)
            }),
    {
        broadcast use vstd::std_specs::hash::group_hash_axioms;

        match self.by_time.get(&ts) {
            Some(speeds) => *speeds,
            None => (UNKNOWN_SPEED, UNKNOWN_SPEED),
        }
    }
}

/// What was made out of a tag in an image.
#[derive(Clone, Copy, Debug)]
pub struct Sighting {
    pub id: u16,
    pub t_cam_marker: Pose7,
    pub sharpness: F64Bits,
    pub reproj_px: F64Bits,
    pub tag_px: F64Bits,
    pub distance_m: F64Bits,
    pub view_angle_deg: F64Bits,
}

/// The record of a sighting at a time, with the speed of the camera at that time.
pub open spec fn recorded_as(
    ts: F64Bits,
    seen: Sighting,
    speeds: Map<F64Bits, (F64Bits, F64Bits)>,
) -> Detection {
    let speed = if speeds.contains_key(ts) {
        speeds[ts]
    } else {
        (UNKNOWN_SPEED, UNKNOWN_SPEED)
    };
    Detection {
        ts,
        marker_id: seen.id as i64,
        t_cam_marker: seen.t_cam_marker,
        sharpness: seen.sharpness,
        reproj_px: seen.reproj_px,
        tag_px: seen.tag_px,
        distance_m: seen.distance_m,
        view_angle_deg: seen.view_angle_deg,
        lin_speed: speed.0,
        ang_speed: speed.1,
    }
}

/// The records of the first `n` tags of an image, as far as something was made out of them.
pub open spec fn all_recorded(
    ts: F64Bits,
    seen: Seq<Option<Sighting>>,
    speeds: Map<F64Bits, (F64Bits, F64Bits)>,
    n: nat,
) -> Seq<Detection>
    decreases n,
{
    if n == 0 {
        Seq::empty()
    } else {
        let before = all_recorded(ts, seen, speeds, (n - 1) as nat);
        match seen[n - 1] {
            Some(s) => before.push(recorded_as(ts, s, speeds)),
            None => before,
        }
    }
}

/// Adds the records of an image's tags, as far as something was made out of them, each with the
/// speed of the camera at the time of the image.
pub fn record_sightings(
    out: &mut Vec<Detection>,
    ts: F64Bits,
    seen: &[Option<Sighting>],
    speeds: &CameraSpeeds,
)
    ensures
        final(out)@ == old(out)@ + all_recorded(ts, seen@, speeds.told(), seen@.len()),
{
    let speed = speeds.at(ts);
    let ghost before = out@;
    let mut n: usize = 0;
    assert(before + all_recorded(ts, seen@, speeds.told(), 0) =~= before);
    while n < seen.len()
        invariant
            n <= seen@.len(),
            speed == (if speeds.told().contains_key(ts) {
                speeds.told()[ts]
            } else {
                (UNKNOWN_SPEED, UNKNOWN_SPEED)
            }),
            out@ == before + all_recorded(ts, seen@, speeds.told(), n as nat),
        decreases seen.len() - n,
    {
        if let Some(s) = seen[n] {
            out.push(
                Detection {
                    ts,
                    marker_id: s.id as i64,
                    t_cam_marker: s.t_cam_marker,
                    sharpness: s.sharpness,
                    reproj_px: s.reproj_px,
                    tag_px: s.tag_px,
                    distance_m: s.distance_m,
                    view_angle_deg: s.view_angle_deg,
                    lin_speed: speed.0,
                    ang_speed: speed.1,
                },
            );
        }
        n = n + 1;
        assert(out@ =~= before + all_recorded(ts, seen@, speeds.told(), n as nat));
    }
}

// ---- the stream of sightings ----

/// The type under which sightings are registered.
pub const POSE_STAMPED_MODULE: &'static str = "dimos.msgs.geometry_msgs.PoseStamped.PoseStamped";

/// The tags that hold how good a sighting is, in the order in which they are stored.
pub open spec fn diagnostic_keys() -> Seq<Seq<char>> {
    seq![
        "sharpness"@,
        "reproj_px"@,
        "tag_px"@,
        "distance_m"@,
        "view_angle_deg"@,
        "lin_speed"@,
        "ang_speed"@,
    ]
}

/// The speeds that are stored for a sighting: both unknown unless the linear one is known.
pub open spec fn stored_speeds(lin_speed: F64Bits, ang_speed: F64Bits) -> (F64Bits, F64Bits) {
    if le(0, lin_speed) {
        (lin_speed, ang_speed)
    } else {
        (UNKNOWN_SPEED, UNKNOWN_SPEED)
    }
}

/// The speeds that are stored for a sighting.
pub fn speeds_to_store(lin_speed: F64Bits, ang_speed: F64Bits) -> (r: (F64Bits, F64Bits))
    ensures
        r == stored_speeds(lin_speed, ang_speed),
{
    if at_most(0, lin_speed) {
        (lin_speed, ang_speed)
    } else {
        (UNKNOWN_SPEED, UNKNOWN_SPEED)
    }
}

fn number_tag(key: &str, number: &str) -> (tag: Tag)
    ensures
        tag.key@ == key@,
        tag.value@ == number@,
{
    Tag { key: key.to_owned(), value: number.to_owned() }
}

/// `tags` are those of a sighting: its marker and, where they are asked for, the numbers that
/// tell how good it is, each as text.
pub open spec fn are_sighting_tags(
    tags: Seq<Tag>,
    marker_id: int,
    diagnostics: Option<Vec<String>>,
) -> bool {
    &&& tags.len() == (if diagnostics is Some {
        8int
    } else {
        1
    })
    &&& tags[0].key@ == "marker_id"@
    &&& tags[0].value@ == signed_text(marker_id)
    &&& forall|i: int|
        1 <= i < tags.len() ==> (#[trigger] tags[i]).key@ == diagnostic_keys()[i - 1]
            && tags[i].value@ == (diagnostics->0)@[i - 1]@
}

fn sighting_tags(marker_id: i64, diagnostics: &Option<Vec<String>>) -> (tags: Vec<Tag>)
    requires
        diagnostics matches Some(numbers) ==> numbers@.len() == 7,
    ensures
        are_sighting_tags(tags@, marker_id as int, *diagnostics),
{
    let mut tags: Vec<Tag> = Vec::new();
    tags.push(number_tag("marker_id", signed_decimal(marker_id).as_str()));
    match diagnostics {
        Some(numbers) => {
            tags.push(number_tag("sharpness", numbers[0].as_str()));
            tags.push(number_tag("reproj_px", numbers[1].as_str()));
            tags.push(number_tag("tag_px", numbers[2].as_str()));
            tags.push(number_tag("distance_m", numbers[3].as_str()));
            tags.push(number_tag("view_angle_deg", numbers[4].as_str()));
            tags.push(number_tag("lin_speed", numbers[5].as_str()));
            tags.push(number_tag("ang_speed", numbers[6].as_str()));
        },
        None => {},
    }
    tags
}

/// A row of a stream of sightings, but for its payload.
pub struct SightingRow {
    pub ts: F64Bits,
    pub pose: Pose7,
    pub tags: Vec<Tag>,
}

/// The rows in which sightings are stored, in their order. `diagnostics` gives for each the texts
/// of the numbers that tell how good it is, or none where they are not to be stored.
pub fn write_tag_stream(
    detections: &[Detection],
    diagnostics: &[Option<Vec<String>>],
) -> (rows: Vec<SightingRow>)
    requires
        diagnostics@.len() == detections@.len(),
        forall|i: int|
            0 <= i < diagnostics@.len() ==> ((#[trigger] diagnostics@[i]) matches Some(numbers)
                ==> numbers@.len() == 7),
    ensures
        rows@.len() == detections@.len(),
        forall|i: int|
            0 <= i < rows@.len() ==> (#[trigger] rows@[i]).ts == detections@[i].ts && rows@[i].pose
                == detections@[i].t_cam_marker && are_sighting_tags(
                rows@[i].tags@,
                detections@[i].marker_id as int,
                diagnostics@[i],
            ),
{
    let mut rows: Vec<SightingRow> = Vec::with_capacity(detections.len());
    let mut i: usize = 0;
    while i < detections.len()
        invariant
            i <= detections@.len(),
            diagnostics@.len() == detections@.len(),
            forall|k: int|
                0 <= k < diagnostics@.len() ==> ((#[trigger] diagnostics@[k]) matches Some(numbers)
                    ==> numbers@.len() == 7),
            rows@.len() == i,
            forall|k: int|
                0 <= k < i ==> (#[trigger] rows@[k]).ts == detections@[k].ts && rows@[k].pose
                    == detections@[k].t_cam_marker && are_sighting_tags(
                    rows@[k].tags@,
                    detections@[k].marker_id as int,
                    diagnostics@[k],
                ),
        decreases detections.len() - i,
    {
        let d = detections[i];
        let tags = sighting_tags(d.marker_id, &diagnostics[i]);
        rows.push(SightingRow { ts: d.ts, pose: d.t_cam_marker, tags });
        i = i + 1;
    }
    rows
}

/// The columns of the query for sightings: time, payload and the six tags that are read.
pub open spec fn sighting_columns() -> Seq<char> {
    "meta.ts, blob.data, json_extract(meta.tags, '$.marker_id'), json_extract(meta.tags, '$.sharpness'), json_extract(meta.tags, '$.reproj_px'), json_extract(meta.tags, '$.tag_px'), json_extract(meta.tags, '$.lin_speed'), json_extract(meta.tags, '$.ang_speed')"@
}

/// The query for the sightings of a stream.
pub fn sighting_query(stream: &str) -> (r: Result<String, String>)
    ensures
        match r {
            Ok(sql) => !stream@.contains('"') && sql@ == stream_query_text(
                sighting_columns(),
                stream@,
            ),
            Err(text) => stream@.contains('"') && text@ == illegal_name_text(stream@),
        },
{
    stream_query(
        "meta.ts, blob.data, json_extract(meta.tags, '$.marker_id'), json_extract(meta.tags, '$.sharpness'), json_extract(meta.tags, '$.reproj_px'), json_extract(meta.tags, '$.tag_px'), json_extract(meta.tags, '$.lin_speed'), json_extract(meta.tags, '$.ang_speed')",
        stream,
    )
}

/// A stored value of a tag. A text comes with the number that it spells, if it spells one.
pub enum TagValue {
    Null,
    Number(F64Bits),
    Text(String, Option<F64Bits>),
    Blob,
}

/// The number that a value stands for: none where there is no value, an error where the value is
/// no number.
pub open spec fn number_of(value: TagValue, key: Seq<char>) -> Result<Option<F64Bits>, Seq<char>> {
    match value {
        TagValue::Null => Ok(None),
        TagValue::Number(number) => Ok(Some(number)),
        TagValue::Text(text, Some(number)) => Ok(Some(number)),
        TagValue::Text(text, None) => Err("non-numeric tag "@ + key + "="@ + debug_text(text@)),
        TagValue::Blob => Err("unexpected blob tag "@ + key),
    }
}

/// An error as text.
pub open spec fn number_result(r: Result<Option<F64Bits>, String>) -> Result<
    Option<F64Bits>,
    Seq<char>,
> {
    match r {
        Ok(number) => Ok(number),
        Err(text) => Err(text@),
    }
}

/// The number that a value stands for.
pub fn tag_number(value: &TagValue, key: &str) -> (r: Result<Option<F64Bits>, String>)
    ensures
        number_result(r) == number_of(*value, key@),
{
    match value {
        TagValue::Null => Ok(None),
        TagValue::Number(number) => Ok(Some(*number)),
        TagValue::Text(text, number) => match number {
            Some(number) => Ok(Some(*number)),
            None => {
                let mut out = "non-numeric tag ".to_owned();
                out.append(key);
                out.append("=");
                out.append(quoted(text.as_str()).as_str());
                Err(out)
            },
        },
        TagValue::Blob => {
            let mut out = "unexpected blob tag ".to_owned();
            out.append(key);
            Err(out)
        },
    }
}

/// The tags that are read, in the order in which they are read.
pub open spec fn read_keys() -> Seq<Seq<char>> {
    seq![
        "marker_id"@,
        "sharpness"@,
        "reproj_px"@,
        "tag_px"@,
        "lin_speed"@,
        "ang_speed"@,
    ]
}

/// The numbers of the first `n` tags, or the error of the first that is no number.
pub open spec fn numbers_of(values: Seq<TagValue>, n: nat) -> Result<
    Seq<Option<F64Bits>>,
    Seq<char>,
>
    decreases n,
{
    if n == 0 {
        Ok(Seq::empty())
    } else {
        match numbers_of(values, (n - 1) as nat) {
            Err(text) => Err(text),
            Ok(before) => match number_of(values[n - 1], read_keys()[n - 1]) {
                Err(text) => Err(text),
                Ok(number) => Ok(before.push(number)),
            },
        }
    }
}

/// The text for a sighting without a tag that it must have.
pub open spec fn missing_tag_text(stream: Seq<char>, key: Seq<char>) -> Seq<char> {
    stream + ": missing tag "@ + debug_text(key)
}

/// The sighting that a row of a stream holds: time, pose, the six tags, and the distance and view
/// angle that go with the pose. The first four tags must be there; without a linear speed, or with
/// a negative one, both speeds are unknown.
pub open spec fn sighting_of(
    stream: Seq<char>,
    ts: F64Bits,
    pose: Pose7,
    view: (F64Bits, F64Bits),
    values: Seq<TagValue>,
) -> Result<Detection, Seq<char>> {
    match numbers_of(values, 6) {
        Err(text) => Err(text),
        Ok(numbers) => if numbers[0] is None {
            Err(missing_tag_text(stream, read_keys()[0]))
        } else if numbers[1] is None {
            Err(missing_tag_text(stream, read_keys()[1]))
        } else if numbers[2] is None {
            Err(missing_tag_text(stream, read_keys()[2]))
        } else if numbers[3] is None {
            Err(missing_tag_text(stream, read_keys()[3]))
        } else {
            let lin = if numbers[4] is Some {
                numbers[4]->0
            } else {
                UNKNOWN_SPEED
            };
            let ang = if numbers[5] is Some {
                numbers[5]->0
            } else {
                UNKNOWN_SPEED
            };
            Ok(
                Detection {
                    ts,
                    marker_id: truncated(numbers[0]->0) as i64,
                    t_cam_marker: pose,
                    sharpness: numbers[1]->0,
                    reproj_px: numbers[2]->0,
                    tag_px: numbers[3]->0,
                    distance_m: view.0,
                    view_angle_deg: view.1,
                    lin_speed: if lt(lin, 0) {
                        UNKNOWN_SPEED
                    } else {
                        lin
                    },
                    ang_speed: if lt(lin, 0) {
                        UNKNOWN_SPEED
                    } else {
                        ang
                    },
                },
            )
        },
    }
}

/// An error as text.
pub open spec fn sighting_result(r: Result<Detection, String>) -> Result<Detection, Seq<char>> {
    match r {
        Ok(d) => Ok(d),
        Err(text) => Err(text@),
    }
}

fn missing_tag(stream: &str, key: &str) -> (out: String)
    ensures
        out@ == missing_tag_text(stream@, key@),
{
    let mut out = stream.to_owned();
    out.append(": missing tag ");
    out.append(quoted(key).as_str());
    out
}

fn number_or_unknown(number: Option<F64Bits>) -> (r: F64Bits)
    ensures
        r == (if number is Some {
            number->0
        } else {
            UNKNOWN_SPEED
        }),
{
    match number {
        Some(number) => number,
        None => UNKNOWN_SPEED,
    }
}

fn read_numbers(values: &[TagValue]) -> (r: Result<Vec<Option<F64Bits>>, String>)
    requires
        values@.len() == 6,
    ensures
        match r {
            Ok(numbers) => numbers@.len() == 6 && numbers_of(values@, 6) is Ok && numbers_of(
                values@,
                6,
            )->Ok_0 == numbers@,
            Err(text) => numbers_of(values@, 6) is Err && numbers_of(values@, 6)->Err_0 == text@,
        },
{
    let mut keys: Vec<String> = Vec::new();
    keys.push("marker_id".to_owned());
    keys.push("sharpness".to_owned());
    keys.push("reproj_px".to_owned());
    keys.push("tag_px".to_owned());
    keys.push("lin_speed".to_owned());
    keys.push("ang_speed".to_owned());
    let mut numbers: Vec<Option<F64Bits>> = Vec::new();
    let mut n: usize = 0;
    while n < 6
        invariant
            n <= 6,
            values@.len() == 6,
            keys@.len() == 6,
            forall|i: int| 0 <= i < 6 ==> (#[trigger] keys@[i])@ == read_keys()[i],
            numbers@.len() == n,
            numbers_of(values@, n as nat) is Ok,
            numbers_of(values@, n as nat)->Ok_0 == numbers@,
        decreases 6 - n,
    {
        match tag_number(&values[n], keys[n].as_str()) {
            Ok(number) => {
                numbers.push(number);
            },
            Err(text) => {
                proof {
                    lemma_error_stays(values@, (n + 1) as nat, 6);
                }
                return Err(text);
            },
        }
        n = n + 1;
    }
    Ok(numbers)
}

proof fn lemma_error_stays(values: Seq<TagValue>, n: nat, m: nat)
    requires
        n <= m,
        numbers_of(values, n) is Err,
    ensures
        numbers_of(values, m) is Err,
        numbers_of(values, m)->Err_0 == numbers_of(values, n)->Err_0,
    decreases m,
{
    if n < m {
        lemma_error_stays(values, n, (m - 1) as nat);
    }
}

/// A row of a stream of sightings as it is read: time, the pose in its payload, the distance and
/// view angle that go with that pose, and the six tags.
pub struct StoredSighting {
    pub ts: F64Bits,
    pub pose: Pose7,
    pub view: (F64Bits, F64Bits),
    pub values: Vec<TagValue>,
}

/// The sightings of the first `n` rows, or the error of the first that holds none.
pub open spec fn sightings_of(stream: Seq<char>, rows: Seq<StoredSighting>, n: nat) -> Result<
    Seq<Detection>,
    Seq<char>,
>
    decreases n,
{
    if n == 0 {
        Ok(Seq::empty())
    } else {
        match sightings_of(stream, rows, (n - 1) as nat) {
            Err(text) => Err(text),
            Ok(before) => {
                let row = rows[n - 1];
                match sighting_of(stream, row.ts, row.pose, row.view, row.values@) {
                    Err(text) => Err(text),
                    Ok(d) => Ok(before.push(d)),
                }
            },
        }
    }
}

proof fn lemma_failure_stays(stream: Seq<char>, rows: Seq<StoredSighting>, n: nat, m: nat)
    requires
        n <= m,
        sightings_of(stream, rows, n) is Err,
    ensures
        sightings_of(stream, rows, m) is Err,
        sightings_of(stream, rows, m)->Err_0 == sightings_of(stream, rows, n)->Err_0,
    decreases m,
{
    if n < m {
        lemma_failure_stays(stream, rows, n, (m - 1) as nat);
    }
}

/// The sightings that a stream holds, or the error of the first row that holds none.
pub fn read_raw_tag_stream(stream: &str, rows: &[StoredSighting]) -> (r: Result<
    Vec<Detection>,
    String,
>)
    requires
        forall|i: int| 0 <= i < rows@.len() ==> (#[trigger] rows@[i]).values@.len() == 6,
    ensures
        match r {
            Ok(detections) => sightings_of(stream@, rows@, rows@.len()) is Ok && sightings_of(
                stream@,
                rows@,
                rows@.len(),
            )->Ok_0 == detections@,
            Err(text) => sightings_of(stream@, rows@, rows@.len()) is Err && sightings_of(
                stream@,
                rows@,
                rows@.len(),
            )->Err_0 == text@,
        },
{
    let mut detections: Vec<Detection> = Vec::with_capacity(rows.len());
    let mut n: usize = 0;
    while n < rows.len()
        invariant
            n <= rows@.len(),
            forall|i: int| 0 <= i < rows@.len() ==> (#[trigger] rows@[i]).values@.len() == 6,
            sightings_of(stream@, rows@, n as nat) is Ok,
            sightings_of(stream@, rows@, n as nat)->Ok_0 == detections@,
        decreases rows.len() - n,
    {
        let row = &rows[n];
        match read_sighting(stream, row.ts, row.pose, row.view, &row.values) {
            Ok(d) => {
                detections.push(d);
            },
            Err(text) => {
                proof {
                    lemma_failure_stays(stream@, rows@, (n + 1) as nat, rows@.len());
                }
                return Err(text);
            },
        }
        n = n + 1;
    }
    Ok(detections)
}

/// The sighting that a row of a stream holds.
pub fn read_sighting(
    stream: &str,
    ts: F64Bits,
    pose: Pose7,
    view: (F64Bits, F64Bits),
    values: &[TagValue],
) -> (r: Result<Detection, String>)
    requires
        values@.len() == 6,
    ensures
        sighting_result(r) == sighting_of(stream@, ts, pose, view, values@),
{
    let numbers = match read_numbers(values) {
        Ok(numbers) => numbers,
        Err(text) => {
            return Err(text);
        },
    };
    let marker: F64Bits = match numbers[0] {
        Some(number) => number,
        None => {
            return Err(missing_tag(stream, "marker_id"));
        },
    };
    let sharpness: F64Bits = match numbers[1] {
        Some(number) => number,
        None => {
            return Err(missing_tag(stream, "sharpness"));
        },
    };
    let reproj_px: F64Bits = match numbers[2] {
        Some(number) => number,
        None => {
            return Err(missing_tag(stream, "reproj_px"));
        },
    };
    let tag_px: F64Bits = match numbers[3] {
        Some(number) => number,
        None => {
            return Err(missing_tag(stream, "tag_px"));
        },
    };
    let lin: F64Bits = number_or_unknown(numbers[4]);
    let ang: F64Bits = number_or_unknown(numbers[5]);
    let unknown = less(lin, 0);
    Ok(
        Detection {
            ts,
            marker_id: truncate(marker),
            t_cam_marker: pose,
            sharpness,
            reproj_px,
            tag_px,
            distance_m: view.0,
            view_angle_deg: view.1,
            lin_speed: if unknown {
                UNKNOWN_SPEED
            } else {
                lin
            },
            ang_speed: if unknown {
                UNKNOWN_SPEED
            } else {
                ang
            },
        },
    )
}

/// The values that are stored for a sighting, of those that are read back.
pub open spec fn stored_values(d: Detection, marker: F64Bits) -> Seq<TagValue> {
    let speeds = stored_speeds(d.lin_speed, d.ang_speed);
    seq![
        TagValue::Number(marker),
        TagValue::Number(d.sharpness),
        TagValue::Number(d.reproj_px),
        TagValue::Number(d.tag_px),
        TagValue::Number(speeds.0),
        TagValue::Number(speeds.1),
    ]
}

/// What is stored of a sighting reads back as that sighting, with both speeds unknown where the
/// linear one was not known. `marker` is the marker's number as it comes back from the table.
pub proof fn lemma_sighting_reads_back(stream: Seq<char>, d: Detection, marker: F64Bits)
    requires
        truncated(marker) == d.marker_id,
    ensures
        ({
            let speeds = stored_speeds(d.lin_speed, d.ang_speed);
            sighting_of(
                stream,
                d.ts,
                d.t_cam_marker,
                (d.distance_m, d.view_angle_deg),
                stored_values(d, marker),
            ) == Ok::<Detection, Seq<char>>(
                Detection { lin_speed: speeds.0, ang_speed: speeds.1, ..d },
            )
        }),
{
    let values = stored_values(d, marker);
    reveal_with_fuel(numbers_of, 7);
    assert(numbers_of(values, 6) is Ok);
    let numbers = numbers_of(values, 6)->Ok_0;
    let speeds = stored_speeds(d.lin_speed, d.ang_speed);
    assert(numbers[0] == Some(marker));
    assert(numbers[1] == Some(d.sharpness));
    assert(numbers[2] == Some(d.reproj_px));
    assert(numbers[3] == Some(d.tag_px));
    assert(numbers[4] == Some(speeds.0));
    assert(numbers[5] == Some(speeds.1));
    assert(lt(UNKNOWN_SPEED, 0));
}

/// What has to be done for a recording to have a stream of raw sightings.
#[derive(Clone, Copy, PartialEq, Eq, Structural, Debug)]
pub enum RawTagStep {
    /// The stream is there.
    Present,
    /// The stream is not there, nor are the images and the camera from which to make it.
    Impossible,
    /// The stream is to be made from the images.
    Detect,
}

/// What has to be done for a recording to have a stream of raw sightings, by what it has.
pub open spec fn tag_step(has_stream: bool, has_camera: bool, has_images: bool) -> RawTagStep {
    if has_stream {
        RawTagStep::Present
    } else if has_camera && has_images {
        RawTagStep::Detect
    } else {
        RawTagStep::Impossible
    }
}

/// What has to be done for a recording to have a stream of raw sightings.
pub fn ensure_raw_tag_stream(
    streams: &[String],
    has_camera: bool,
    raw_stream: &str,
    image_stream: &str,
) -> (step: RawTagStep)
    ensures
        step == tag_step(
            texts(streams@).contains(raw_stream@),
            has_camera,
            texts(streams@).contains(image_stream@),
        ),
{
    if has_stream(streams, raw_stream) {
        RawTagStep::Present
    } else if has_camera && has_stream(streams, image_stream) {
        RawTagStep::Detect
    } else {
        RawTagStep::Impossible
    }
}

// ---- what the results are, over all inputs ----

/// Of the poses in front of the camera that fit equally well, the first is taken.
pub proof fn lemma_first_of_equal_poses_is_taken(candidates: Seq<PoseCandidate>, n: nat)
    requires
        n <= candidates.len() <= usize::MAX,
        forall|i: int|
            0 <= i < n ==> !crate::ieee::is_nan((#[trigger] candidates[i]).rms),
    ensures
        best_pose(candidates, n) matches Some(best) ==> forall|i: int|
            0 <= i < best && lt(0, (#[trigger] candidates[i]).depth) ==> lt(
                candidates[best as int].rms,
                candidates[i].rms,
            ),
    decreases n,
{
    if n > 0 {
        lemma_first_of_equal_poses_is_taken(candidates, (n - 1) as nat);
        lemma_best_pose_is_best(candidates, (n - 1) as nat);
    }
}

/// The images with all seven numbers of a pose are taken, each once, in the order of their times.
pub proof fn lemma_posed_images_come_by_time(images: Seq<PosedImage>, i: int, j: int)
    requires
        0 <= i <= j < posed_in_order(images).len(),
    ensures
        posed_in_order(images).to_multiset() == images.filter(
            |image: PosedImage|
                image.pose@[0] is Some && image.pose@[1] is Some && image.pose@[2] is Some
                    && image.pose@[3] is Some && image.pose@[4] is Some && image.pose@[5] is Some
                    && image.pose@[6] is Some,
        ).map_values(
            |image: PosedImage|
                (
                    image.ts,
                    [
                        image.pose@[0]->0,
                        image.pose@[1]->0,
                        image.pose@[2]->0,
                        image.pose@[3]->0,
                        image.pose@[4]->0,
                        image.pose@[5]->0,
                        image.pose@[6]->0,
                    ],
                ),
        ).to_multiset(),
        total_rank(posed_in_order(images)[i].0) <= total_rank(posed_in_order(images)[j].0),
{
    broadcast use vstd::seq_lib::group_to_multiset_ensures;

    let keyed = posed_of(images, images.len());
    let sorted = stable_order(keyed);
    let value = |e: (SortKey, (F64Bits, Pose7))| e.1;
    crate::order::lemma_stable_order_sorts(keyed);
    crate::pgo::lemma_map_keeps_multiset(sorted, keyed, value);
    lemma_posed_are_filtered(images, images.len());
    assert(images.take(images.len() as int) =~= images);
    assert forall|k: int| 0 <= k < sorted.len() implies (#[trigger] sorted[k]).0.first == total_rank(
        sorted[k].1.0,
    ) by {
        assert(sorted.to_multiset().count(sorted[k]) > 0) by {
            assert(sorted.contains(sorted[k]));
        }
        assert(keyed.contains(sorted[k]));
    }
    assert(crate::order::key_le(sorted[i].0, sorted[j].0));
}

proof fn lemma_posed_are_filtered(images: Seq<PosedImage>, n: nat)
    requires
        n <= images.len(),
    ensures
        posed_of(images, n).map_values(|e: (SortKey, (F64Bits, Pose7))| e.1) == images.take(
            n as int,
        ).filter(
            |image: PosedImage|
                image.pose@[0] is Some && image.pose@[1] is Some && image.pose@[2] is Some
                    && image.pose@[3] is Some && image.pose@[4] is Some && image.pose@[5] is Some
                    && image.pose@[6] is Some,
        ).map_values(
            |image: PosedImage|
                (
                    image.ts,
                    [
                        image.pose@[0]->0,
                        image.pose@[1]->0,
                        image.pose@[2]->0,
                        image.pose@[3]->0,
                        image.pose@[4]->0,
                        image.pose@[5]->0,
                        image.pose@[6]->0,
                    ],
                ),
        ),
        forall|k: int|
            0 <= k < posed_of(images, n).len() ==> (#[trigger] posed_of(images, n)[k]).0.first
                == total_rank(posed_of(images, n)[k].1.0),
    decreases n,
{
    reveal_with_fuel(Seq::filter, 1);
    let value = |e: (SortKey, (F64Bits, Pose7))| e.1;
    let noted = |image: PosedImage|
        (
            image.ts,
            [
                image.pose@[0]->0,
                image.pose@[1]->0,
                image.pose@[2]->0,
                image.pose@[3]->0,
                image.pose@[4]->0,
                image.pose@[5]->0,
                image.pose@[6]->0,
            ],
        );
    let whole = |image: PosedImage|
        image.pose@[0] is Some && image.pose@[1] is Some && image.pose@[2] is Some
            && image.pose@[3] is Some && image.pose@[4] is Some && image.pose@[5] is Some
            && image.pose@[6] is Some;
    let taken = images.take(n as int);
    if n > 0 {
        lemma_posed_are_filtered(images, (n - 1) as nat);
        let before = posed_of(images, (n - 1) as nat);
        let image = images[n - 1];
        assert(taken.drop_last() =~= images.take(n - 1));
        assert(taken.last() == image);
        assert(is_posed(image) <==> whole(image)) by {
            if whole(image) {
                assert forall|i: int| 0 <= i < 7 implies #[trigger] image.pose@[i] is Some by {}
            }
        }
        let front = taken.drop_last().filter(whole);
        if whole(image) {
            let e = posed_of(images, n).last();
            assert(before.push(e).map_values(value) =~= before.map_values(value).push(value(e)));
            assert(front.push(image).map_values(noted) =~= front.map_values(noted).push(
                noted(image),
            ));
        }
    } else {
        assert(taken =~= Seq::empty());
        assert(posed_of(images, n).map_values(value) =~= taken.filter(whole).map_values(noted));
    }
}

/// The speed at a time is that of the last move that ended then and took any time at all. A time at
/// which no such move ended has none.
#[verifier::spinoff_prover]
#[verifier::rlimit(50)]
pub proof fn lemma_speed_is_of_the_last_move(
    posed: Seq<(F64Bits, Pose7)>,
    moves: Seq<CameraMove>,
    n: nat,
    ts: F64Bits,
)
    requires
        n <= moves.len(),
        n < posed.len(),
        forall|i: int| 0 <= i < n ==> !crate::ieee::is_nan((#[trigger] moves[i]).dt),
    ensures
        speeds_of(posed, moves, n).contains_key(ts) <==> exists|i: int|
            0 <= i < n && lt(0, (#[trigger] moves[i]).dt) && posed[i + 1].0 == ts,
        forall|i: int|
            0 <= i < n && lt(0, (#[trigger] moves[i]).dt) && posed[i + 1].0 == ts && (forall|j: int|
                i < j < n && posed[j + 1].0 == ts ==> !lt(0, (#[trigger] moves[j]).dt))
                ==> speeds_of(posed, moves, n)[ts] == (moves[i].linear, moves[i].angular),
    decreases n,
{
    if n > 0 {
        let before = speeds_of(posed, moves, (n - 1) as nat);
        let m = moves[n - 1];
        lemma_speed_is_of_the_last_move(posed, moves, (n - 1) as nat, ts);
        if before.contains_key(ts) {
            let i = choose|i: int|
                0 <= i < n - 1 && lt(0, (#[trigger] moves[i]).dt) && posed[i + 1].0 == ts;
            assert(lt(0, moves[i].dt) && posed[i + 1].0 == ts);
        }
        if lt(0, m.dt) && posed[n as int].0 == ts {
            assert(lt(0, moves[n - 1].dt) && posed[(n - 1) + 1].0 == ts);
        }
        assert forall|i: int|
            0 <= i < n && lt(0, (#[trigger] moves[i]).dt) && posed[i + 1].0 == ts && (forall|j: int|
                i < j < n && posed[j + 1].0 == ts ==> !lt(0, (#[trigger] moves[j]).dt)) implies
            speeds_of(posed, moves, n)[ts] == (moves[i].linear, moves[i].angular) by {
            if i < n - 1 {
                if posed[n as int].0 == ts {
                    assert(posed[(n - 1) + 1].0 == ts);
                    assert(!lt(0, moves[n - 1].dt));
                }
            }
        }
    }
}

/// Every sighting of an image is recorded, in order, with what was seen and with the speeds of the
/// image's time, minus one where none are known.
pub proof fn lemma_every_sighting_is_recorded(
    ts: F64Bits,
    seen: Seq<Option<Sighting>>,
    speeds: Map<F64Bits, (F64Bits, F64Bits)>,
    n: nat,
)
    requires
        n <= seen.len(),
    ensures
        all_recorded(ts, seen, speeds, n) == seen.take(n as int).filter(
            |s: Option<Sighting>| s is Some,
        ).map_values(|s: Option<Sighting>| recorded_as(ts, s->0, speeds)),
        forall|s: Sighting|
            ({
                let d = #[trigger] recorded_as(ts, s, speeds);
                &&& d.ts == ts
                &&& s.id <= i64::MAX ==> d.marker_id == s.id
                &&& d.t_cam_marker == s.t_cam_marker
                &&& d.sharpness == s.sharpness
                &&& d.reproj_px == s.reproj_px
                &&& d.tag_px == s.tag_px
                &&& d.distance_m == s.distance_m
                &&& d.view_angle_deg == s.view_angle_deg
                &&& speeds.contains_key(ts) ==> (d.lin_speed, d.ang_speed) == speeds[ts]
                &&& !speeds.contains_key(ts) ==> d.lin_speed == 0xbff0_0000_0000_0000
                    && d.ang_speed == 0xbff0_0000_0000_0000
            }),
    decreases n,
{
    reveal_with_fuel(Seq::filter, 1);
    let there = |s: Option<Sighting>| s is Some;
    let noted = |s: Option<Sighting>| recorded_as(ts, s->0, speeds);
    let taken = seen.take(n as int);
    if n > 0 {
        lemma_every_sighting_is_recorded(ts, seen, speeds, (n - 1) as nat);
        assert(taken.drop_last() =~= seen.take(n - 1));
        assert(taken.last() == seen[n - 1]);
        let front = taken.drop_last().filter(there);
        if seen[n - 1] is Some {
            assert(front.push(taken.last()).map_values(noted) =~= front.map_values(noted).push(
                noted(taken.last()),
            ));
        }
    } else {
        assert(taken =~= Seq::empty());
        assert(taken.filter(there).map_values(noted) =~= Seq::empty());
    }
}

/// A stream of sightings is read exactly where each of its rows is, and gives what each row gives, in
/// order; else it fails as the first row that cannot be read.
pub proof fn lemma_rows_are_read_one_by_one(stream: Seq<char>, rows: Seq<StoredSighting>, n: nat)
    requires
        n <= rows.len(),
    ensures
        sightings_of(stream, rows, n) is Ok <==> forall|i: int|
            0 <= i < n ==> sighting_of(
                stream,
                (#[trigger] rows[i]).ts,
                rows[i].pose,
                rows[i].view,
                rows[i].values@,
            ) is Ok,
        sightings_of(stream, rows, n) matches Ok(all) ==> all.len() == n && forall|i: int|
            0 <= i < n ==> sighting_of(
                stream,
                (#[trigger] rows[i]).ts,
                rows[i].pose,
                rows[i].view,
                rows[i].values@,
            ) == Ok::<Detection, Seq<char>>(all[i]),
        forall|i: int|
            0 <= i < n && sighting_of(
                stream,
                (#[trigger] rows[i]).ts,
                rows[i].pose,
                rows[i].view,
                rows[i].values@,
            ) is Err && (forall|j: int|
                0 <= j < i ==> sighting_of(
                    stream,
                    (#[trigger] rows[j]).ts,
                    rows[j].pose,
                    rows[j].view,
                    rows[j].values@,
                ) is Ok) ==> sightings_of(stream, rows, n) == Err::<Seq<Detection>, Seq<char>>(
                sighting_of(stream, rows[i].ts, rows[i].pose, rows[i].view, rows[i].values@)->Err_0,
            ),
    decreases n,
{
    if n > 0 {
        lemma_rows_are_read_one_by_one(stream, rows, (n - 1) as nat);
        let row = rows[n - 1];
        assert(sighting_of(stream, row.ts, row.pose, row.view, row.values@) is Ok
            || sighting_of(stream, row.ts, row.pose, row.view, row.values@) is Err);
    }
}

/// A row of which the first four tags are numbers gives a sighting of them, with the time, the pose
/// and the view of the row; a speed that is missing, or goes with a linear speed below zero, is
/// unknown. A row without one of the four names the first that is missing.
pub proof fn lemma_row_gives_its_tags(
    stream: Seq<char>,
    ts: F64Bits,
    pose: Pose7,
    view: (F64Bits, F64Bits),
    values: Seq<TagValue>,
    numbers: Seq<Option<F64Bits>>,
)
    requires
        values.len() == 6,
        numbers.len() == 6,
        forall|i: int|
            0 <= i < 6 ==> #[trigger] numbers[i] == (match values[i] {
                TagValue::Number(number) => Some(number),
                _ => None,
            }) && (values[i] is Number || values[i] is Null),
    ensures
        ({
            let unknown: F64Bits = 0xbff0_0000_0000_0000;
            let r = sighting_of(stream, ts, pose, view, values);
            &&& r is Ok <==> numbers[0] is Some && numbers[1] is Some && numbers[2] is Some
                && numbers[3] is Some
            &&& r matches Ok(d) ==> {
                &&& d.ts == ts && d.t_cam_marker == pose
                &&& d.marker_id == truncated(numbers[0]->0)
                &&& (d.sharpness, d.reproj_px, d.tag_px) == (
                    numbers[1]->0,
                    numbers[2]->0,
                    numbers[3]->0,
                )
                &&& (d.distance_m, d.view_angle_deg) == view
                &&& numbers[4] is None ==> (d.lin_speed, d.ang_speed) == (unknown, unknown)
                &&& numbers[4] is Some && lt(numbers[4]->0, 0) ==> (d.lin_speed, d.ang_speed) == (
                    unknown,
                    unknown,
                )
                &&& numbers[4] is Some && !lt(numbers[4]->0, 0) ==> d.lin_speed == numbers[4]->0 && d.ang_speed == (
                if numbers[5] is Some {
                    numbers[5]->0
                } else {
                    unknown
                })
            }
            &&& numbers[0] is None ==> r == Err::<Detection, Seq<char>>(
                stream + ": missing tag "@ + debug_text("marker_id"@),
            )
            &&& numbers[0] is Some && numbers[1] is None ==> r == Err::<Detection, Seq<char>>(
                stream + ": missing tag "@ + debug_text("sharpness"@),
            )
            &&& numbers[0] is Some && numbers[1] is Some && numbers[2] is None ==> r == Err::<
                Detection,
                Seq<char>,
            >(stream + ": missing tag "@ + debug_text("reproj_px"@))
            &&& numbers[0] is Some && numbers[1] is Some && numbers[2] is Some && numbers[3] is None
                ==> r == Err::<Detection, Seq<char>>(
                stream + ": missing tag "@ + debug_text("tag_px"@),
            )
        }),
{
    reveal_with_fuel(numbers_of, 7);
    assert(numbers[0] is Some == values[0] is Number && numbers[1] is Some == values[1] is Number
        && numbers[2] is Some == values[2] is Number && numbers[3] is Some == values[3] is Number
        && numbers[4] is Some == values[4] is Number && numbers[5] is Some == values[5] is Number);
    assert(numbers_of(values, 6) is Ok);
    let read = numbers_of(values, 6)->Ok_0;
    assert(read =~= numbers);
    crate::ieee::lemma_truncated_drops_the_fraction(numbers[0]->0);
    assert(lt(UNKNOWN_SPEED, 0));
}

/// Speeds are stored as they are where the linear one is known, and else both as minus one.
pub proof fn lemma_unknown_speeds_are_stored_as_minus_one(lin_speed: F64Bits, ang_speed: F64Bits)
    requires
        !crate::ieee::is_nan(lin_speed),
    ensures
        !lt(lin_speed, 0) ==> stored_speeds(lin_speed, ang_speed) == (lin_speed, ang_speed),
        lt(lin_speed, 0) ==> stored_speeds(lin_speed, ang_speed) == (
            0xbff0_0000_0000_0000u64,
            0xbff0_0000_0000_0000u64,
        ),
{
}

/// Tags are looked for exactly where they were not recorded and there are images of a known camera.
pub proof fn lemma_tags_are_looked_for_once(has_stream: bool, has_camera: bool, has_images: bool)
    ensures
        tag_step(has_stream, has_camera, has_images) is Present <==> has_stream,
        tag_step(has_stream, has_camera, has_images) is Detect <==> !has_stream && has_camera
            && has_images,
        tag_step(has_stream, has_camera, has_images) is Impossible <==> !has_stream && !(has_camera
            && has_images),
{
}

/// A value is the number that it holds or that its text was read as, and none where there is no value;
/// another text or bytes are an error that names the tag.
pub proof fn lemma_values_are_numbers_or_named(value: TagValue, key: Seq<char>)
    ensures
        number_of(value, key) is Err <==> value is Blob || (value is Text && value->Text_1 is None),
        value is Null ==> number_of(value, key) == Ok::<Option<F64Bits>, Seq<char>>(None),
        value is Number ==> number_of(value, key) == Ok::<Option<F64Bits>, Seq<char>>(
            Some(value->Number_0),
        ),
        value is Text && value->Text_1 is Some ==> number_of(value, key) == Ok::<
            Option<F64Bits>,
            Seq<char>,
        >(value->Text_1),
        value is Text && value->Text_1 is None ==> number_of(value, key) == Err::<
            Option<F64Bits>,
            Seq<char>,
        >("non-numeric tag "@ + key + "="@ + debug_text(value->Text_0@)),
        value is Blob ==> number_of(value, key) == Err::<Option<F64Bits>, Seq<char>>(
            "unexpected blob tag "@ + key,
        ),
{
}

/// The values of a row are read one by one; the first that is no number is the error of the row.
pub proof fn lemma_first_bad_value_is_named(values: Seq<TagValue>, n: nat)
    requires
        n <= values.len(),
        n <= 6,
    ensures
        numbers_of(values, n) is Ok <==> forall|i: int|
            0 <= i < n ==> number_of(#[trigger] values[i], read_keys()[i]) is Ok,
        numbers_of(values, n) matches Ok(numbers) ==> numbers.len() == n && forall|i: int|
            0 <= i < n ==> number_of(#[trigger] values[i], read_keys()[i]) == Ok::<
                Option<F64Bits>,
                Seq<char>,
            >(numbers[i]),
        forall|i: int|
            0 <= i < n && number_of(#[trigger] values[i], read_keys()[i]) is Err && (forall|j: int|
                0 <= j < i ==> number_of(#[trigger] values[j], read_keys()[j]) is Ok) ==> numbers_of(
                values,
                n,
            ) == Err::<Seq<Option<F64Bits>>, Seq<char>>(
                number_of(values[i], read_keys()[i])->Err_0,
            ),
        read_keys()[0] == "marker_id"@ && read_keys()[1] == "sharpness"@ && read_keys()[2]
            == "reproj_px"@ && read_keys()[3] == "tag_px"@ && read_keys()[4] == "lin_speed"@
            && read_keys()[5] == "ang_speed"@,
    decreases n,
{
    if n > 0 {
        lemma_first_bad_value_is_named(values, (n - 1) as nat);
        let last = number_of(values[n - 1], read_keys()[n - 1]);
        assert(last is Ok || last is Err);
    }
}

/// A sighting is stored with the number of its tag first, and with its seven diagnostics behind it
/// where there are any.
pub proof fn lemma_sighting_tags_are_in_order(
    tags: Seq<Tag>,
    marker_id: int,
    diagnostics: Option<Vec<String>>,
)
    requires
        are_sighting_tags(tags, marker_id, diagnostics),
    ensures
        tags[0].key@ == "marker_id"@ && tags[0].value@ == signed_text(marker_id),
        diagnostics is None ==> tags.len() == 1,
        diagnostics matches Some(numbers) ==> {
            &&& tags.len() == 8
            &&& tags[1].key@ == "sharpness"@ && tags[1].value@ == numbers@[0]@
            &&& tags[2].key@ == "reproj_px"@ && tags[2].value@ == numbers@[1]@
            &&& tags[3].key@ == "tag_px"@ && tags[3].value@ == numbers@[2]@
            &&& tags[4].key@ == "distance_m"@ && tags[4].value@ == numbers@[3]@
            &&& tags[5].key@ == "view_angle_deg"@ && tags[5].value@ == numbers@[4]@
            &&& tags[6].key@ == "lin_speed"@ && tags[6].value@ == numbers@[5]@
            &&& tags[7].key@ == "ang_speed"@ && tags[7].value@ == numbers@[6]@
        },
{
    if diagnostics is Some {
        assert(tags[1].key@ == diagnostic_keys()[0] && tags[2].key@ == diagnostic_keys()[1]
            && tags[3].key@ == diagnostic_keys()[2] && tags[4].key@ == diagnostic_keys()[3]
            && tags[5].key@ == diagnostic_keys()[4] && tags[6].key@ == diagnostic_keys()[5]
            && tags[7].key@ == diagnostic_keys()[6]);
    }
}

/// A decoder is made anew exactly where there is none for images of this size.
pub proof fn lemma_decoder_is_kept_for_its_size(width: usize, height: usize, other: (usize, usize))
    ensures
        needs_new(None, width, height),
        !needs_new(Some((width, height)), width, height),
        needs_new(Some(other), width, height) <==> other != (width, height),
{
}

} // verus!
