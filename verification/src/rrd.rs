//! The comparison scene: which clouds and paths it shows, how clouds are thinned, and the picture
//! of a tag.

use crate::ieee::{power_of_two, F32Bits, F64Bits};
use crate::memory2::{has_quote, has_stream};
use crate::order::{group_by_key, groups_by_key, single_key, SortKey};
use crate::pgo::{closest_keyframe, is_closest};
use crate::recording::{edge_frames, odom_override, split_edge};
use crate::text::{
    closes_with, contains, ends_with, occurs_in, signed_decimal, signed_text, sort_texts, texts,
    texts_ascend,
};
use ahash::AHashSet;
use kornia_apriltag::family::TagFamily;
use vstd::arithmetic::power2::pow2;
use vstd::prelude::*;
use vstd::string::StringExecFns;

verus! {

// ---- thinning clouds ----

/// Of every stream every this many scans are shown.
pub const SCAN_STRIDE: usize = 8;

/// Of every scan every this many points are shown.
pub const POINT_STRIDE: usize = 3;

/// The most points of a cloud that are shown.
pub const MAX_RENDER_POINTS: usize = 200_000;

/// Every third item, from the first on.
pub open spec fn every_third<T>(items: Seq<T>) -> Seq<T> {
    Seq::new((items.len() + 2) / 3, |i: int| items[3 * i])
}

/// The points of a scan that are shown.
pub fn strided(points: &[[F32Bits; 3]]) -> (out: Vec<[F32Bits; 3]>)
    ensures
        out@ == every_third(points@),
{
    let mut out: Vec<[F32Bits; 3]> = Vec::new();
    let mut i: usize = 0;
    while i < points.len()
        invariant
            i == 3 * out@.len(),
            i <= points@.len() + 2,
            forall|k: int| 0 <= k < out@.len() ==> #[trigger] out@[k] == points@[3 * k],
        decreases points.len() + 3 - i,
    {
        out.push(points[i]);
        if points.len() - i <= POINT_STRIDE {
            assert(out@ =~= every_third(points@));
            return out;
        }
        i = i + POINT_STRIDE;
    }
    assert(out@ =~= every_third(points@));
    out
}

/// `ahash::AHashSet`, of which nothing is known but through the functions below.
#[verifier::external_type_specification]
#[verifier::external_body]
#[verifier::reject_recursive_types(T)]
#[verifier::reject_recursive_types(S)]
pub struct ExAHashSet<T, S>(AHashSet<T, S>);

/// `ahash::RandomState`, with which such a set hashes what it holds.
#[verifier::external_type_specification]
#[verifier::external_body]
pub struct ExRandomState(ahash::RandomState);

/// The cells that a set holds.
pub uninterp spec fn cells_in(cells: AHashSet<[i64; 3]>) -> Set<Seq<i64>>;

/// `ahash::AHashSet::new`: a set that holds nothing.
#[verifier::external_body]
fn no_cells() -> (cells: AHashSet<[i64; 3]>)
    ensures
        cells_in(cells) == Set::<Seq<i64>>::empty(),
{
    AHashSet::new()
}

/// `std::collections::HashSet::insert`, to which `ahash::AHashSet` dereferences: the cell is in the
/// set afterwards, and the result says whether it was not there before.
#[verifier::external_body]
fn add_cell(cells: &mut AHashSet<[i64; 3]>, cell: [i64; 3]) -> (fresh: bool)
    ensures
        cells_in(*final(cells)) == cells_in(*old(cells)).insert(cell@),
        fresh == !cells_in(*old(cells)).contains(cell@),
{
    cells.insert(cell)
}

/// Whether cell `i` does not occur before.
pub open spec fn is_first(cells: Seq<[i64; 3]>, i: int) -> bool {
    forall|k: int| 0 <= k < i ==> (#[trigger] cells[k])@ != cells[i]@
}

/// The positions below `n` at which a cell occurs for the first time.
pub open spec fn first_places(cells: Seq<[i64; 3]>, n: nat) -> Seq<usize>
    decreases n,
{
    if n == 0 {
        Seq::empty()
    } else if is_first(cells, n - 1) {
        first_places(cells, (n - 1) as nat).push((n - 1) as usize)
    } else {
        first_places(cells, (n - 1) as nat)
    }
}

/// The points that are shown of a cloud, from the cell of each: the first of every cell.
pub fn first_in_cells(cells: &[[i64; 3]]) -> (kept: Vec<usize>)
    ensures
        kept@ == first_places(cells@, cells@.len()),
{
    let mut seen = no_cells();
    let mut kept: Vec<usize> = Vec::new();
    let mut n: usize = 0;
    while n < cells.len()
        invariant
            n <= cells@.len(),
            kept@ == first_places(cells@, n as nat),
            forall|k: int| 0 <= k < n ==> cells_in(seen).contains((#[trigger] cells@[k])@),
            forall|c: Seq<i64>|
                cells_in(seen).contains(c) ==> exists|k: int|
                    0 <= k < n && (#[trigger] cells@[k])@ == c,
        decreases cells.len() - n,
    {
        let ghost before = cells_in(seen);
        let cell = cells[n];
        let fresh = add_cell(&mut seen, cell);
        proof {
            if before.contains(cell@) {
                let k = choose|k: int| 0 <= k < n && (#[trigger] cells@[k])@ == cell@;
                assert(!is_first(cells@, n as int));
            } else {
                assert(is_first(cells@, n as int));
            }
            assert forall|c: Seq<i64>| cells_in(seen).contains(c) implies exists|k: int|
                0 <= k <= n && (#[trigger] cells@[k])@ == c by {
                if c == cell@ {
                    assert(cells@[n as int]@ == c);
                } else {
                    let k = choose|k: int| 0 <= k < n && (#[trigger] cells@[k])@ == c;
                    assert(cells@[k]@ == c);
                }
            }
        }
        if fresh {
            kept.push(n);
        }
        n = n + 1;
    }
    kept
}

/// A cell is kept at some place.
pub open spec fn is_kept(cells: Seq<[i64; 3]>, kept: Seq<usize>, cell: Seq<i64>) -> bool {
    exists|j: int| 0 <= j < kept.len() && cells[#[trigger] kept[j] as int]@ == cell
}

/// Every cell that occurs is shown, by one point only, in the order in which the cells first
/// occur.
pub proof fn lemma_one_point_per_cell(cells: Seq<[i64; 3]>, n: nat)
    requires
        n <= cells.len() <= usize::MAX,
    ensures
        ({
            let kept = first_places(cells, n);
            &&& forall|j: int| 0 <= j < kept.len() ==> (#[trigger] kept[j]) < n
            &&& forall|i: int, j: int|
                0 <= i < j < kept.len() ==> (#[trigger] kept[i]) < (#[trigger] kept[j])
                    && cells[kept[i] as int]@ != cells[kept[j] as int]@
            &&& forall|k: int| 0 <= k < n ==> is_kept(cells, kept, (#[trigger] cells[k])@)
        }),
    decreases n,
{
    if n > 0 {
        lemma_one_point_per_cell(cells, (n - 1) as nat);
        let before = first_places(cells, (n - 1) as nat);
        let kept = first_places(cells, n);
        assert forall|k: int| 0 <= k < n implies is_kept(cells, kept, (#[trigger] cells[k])@) by {
            if k < n - 1 {
                let j = choose|j: int|
                    0 <= j < before.len() && cells[#[trigger] before[j] as int]@ == cells[k]@;
                assert(kept[j] == before[j]);
            } else if is_first(cells, n - 1) {
                assert(kept[kept.len() - 1] == n - 1);
            } else {
                let m = choose|m: int| 0 <= m < n - 1 && (#[trigger] cells[m])@ == cells[n - 1]@;
                assert(is_kept(cells, before, cells[m]@));
                let j = choose|j: int|
                    0 <= j < before.len() && cells[#[trigger] before[j] as int]@ == cells[m]@;
                assert(kept[j] == before[j]);
            }
        }
    }
}

/// The text for a stream that has no points.
pub fn no_points(stream: &str, path: &str) -> (out: String)
    ensures
        out@ == "stream '"@ + stream@ + "' has no points in "@ + path@,
{
    let mut out = "stream '".to_owned();
    out.append(stream);
    out.append("' has no points in ");
    out.append(path);
    out
}

/// The frame of a scan: its own, or the fallback where it names none.
pub fn scan_frame(frame_id: &str, fallback: &str) -> (frame: String)
    ensures
        frame@ == (if frame_id@.len() == 0 {
            fallback@
        } else {
            frame_id@
        }),
{
    if frame_id.is_empty() {
        fallback.to_owned()
    } else {
        frame_id.to_owned()
    }
}

// ---- the picture of a tag ----

/// Side of a tag's picture in pixels.
pub const TAG_IMAGE_PX: usize = 200;

/// How many tags the 36h11 family has.
pub const TAG_36H11_COUNT: usize = 587;

/// The code of a tag of the 36h11 family.
pub uninterp spec fn tag36h11_code(id: nat) -> nat;

/// The columns of the bits of a tag's code, from the highest bit on.
pub open spec fn tag36h11_bit_x() -> Seq<i8> {
    seq![
        1, 2, 3, 4, 5, 2, 3, 4, 3, 6, 6, 6, 6, 6, 5, 5, 5, 4, 6, 5, 4, 3, 2, 5, 4, 3, 4, 1, 1, 1,
        1, 1, 2, 2, 2, 3,
    ]
}

/// The rows of the bits of a tag's code, from the highest bit on.
pub open spec fn tag36h11_bit_y() -> Seq<i8> {
    seq![
        1, 1, 1, 1, 1, 2, 2, 2, 3, 1, 2, 3, 4, 5, 2, 3, 4, 3, 6, 6, 6, 6, 6, 5, 5, 5, 4, 6, 5, 4,
        3, 2, 5, 4, 3, 4,
    ]
}

/// A tag: its code, and where the bits of the code stand among the cells, from the highest bit
/// on.
pub struct TagCode {
    pub code: u64,
    pub bit_x: Vec<i8>,
    pub bit_y: Vec<i8>,
}

/// `kornia_apriltag::family::TagFamily::tag36_h11`: the family's table of codes, and the places of
/// their bits. What the codes are is left to `tag36h11_code`.
#[verifier::external_body]
fn tag36h11(id: usize) -> (tag: TagCode)
    requires
        id < TAG_36H11_COUNT,
    ensures
        tag.code == tag36h11_code(id as nat),
        tag.bit_x@ == tag36h11_bit_x(),
        tag.bit_y@ == tag36h11_bit_y(),
{
    let family = TagFamily::tag36_h11();
    let code = family.code_data[id] as u64;
    TagCode { code, bit_x: family.bit_x, bit_y: family.bit_y }
}

/// The first bit from `from` on that stands in the cell, if any does.
pub open spec fn bit_at(bit_x: Seq<i8>, bit_y: Seq<i8>, x: int, y: int, from: nat) -> Option<nat>
    decreases bit_x.len() - from,
{
    if from >= bit_x.len() {
        None
    } else if bit_x[from as int] == x && bit_y[from as int] == y {
        Some(from)
    } else {
        bit_at(bit_x, bit_y, x, y, from + 1)
    }
}

/// The shade of a cell of a tag with eight by eight cells and a code of 36 bits: black on the
/// border; inside, white where the bit of the cell is set.
pub open spec fn cell_shade(code: nat, bit_x: Seq<i8>, bit_y: Seq<i8>, x: int, y: int) -> u8 {
    if x == 0 || y == 0 || x == 7 || y == 7 {
        0
    } else {
        match bit_at(bit_x, bit_y, x, y, 0) {
            Some(bit) => if code / pow2((35 - bit) as nat) % 2 == 1 {
                255
            } else {
                0
            },
            None => 0,
        }
    }
}

/// Red, green and blue of each pixel of a tag's picture, row by row, 25 pixels to a cell.
pub open spec fn tag_picture(code: nat, bit_x: Seq<i8>, bit_y: Seq<i8>) -> Seq<u8> {
    Seq::new(
        120_000,
        |i: int| cell_shade(code, bit_x, bit_y, i / 3 % 200 / 25, i / 3 / 200 / 25),
    )
}

fn shade_of(tag: &TagCode, x: usize, y: usize) -> (shade: u8)
    requires
        tag.bit_x@.len() == 36,
        tag.bit_y@.len() == 36,
        x < 8,
        y < 8,
    ensures
        shade == cell_shade(tag.code as nat, tag.bit_x@, tag.bit_y@, x as int, y as int),
{
    if x == 0 || y == 0 || x == 7 || y == 7 {
        return 0;
    }
    let mut bit: usize = 0;
    while bit < 36
        invariant
            bit <= 36,
            tag.bit_x@.len() == 36,
            tag.bit_y@.len() == 36,
            0 < x < 7,
            0 < y < 7,
            bit_at(tag.bit_x@, tag.bit_y@, x as int, y as int, 0) == bit_at(
                tag.bit_x@,
                tag.bit_y@,
                x as int,
                y as int,
                bit as nat,
            ),
        decreases 36 - bit,
    {
        if tag.bit_x[bit] == x as i8 && tag.bit_y[bit] == y as i8 {
            let power: u64 = power_of_two(35 - bit as u64);
            return if tag.code / power % 2 == 1 {
                255
            } else {
                0
            };
        }
        bit = bit + 1;
    }
    0
}

/// The picture of a tag from its code.
pub fn draw_tag(tag: &TagCode) -> (rgb: Vec<u8>)
    requires
        tag.bit_x@.len() == 36,
        tag.bit_y@.len() == 36,
    ensures
        rgb@ == tag_picture(tag.code as nat, tag.bit_x@, tag.bit_y@),
{
    let ghost all = tag_picture(tag.code as nat, tag.bit_x@, tag.bit_y@);
    let mut rgb: Vec<u8> = Vec::with_capacity(120_000);
    let mut pixel: usize = 0;
    while pixel < 40_000
        invariant
            pixel <= 40_000,
            tag.bit_x@.len() == 36,
            tag.bit_y@.len() == 36,
            all == tag_picture(tag.code as nat, tag.bit_x@, tag.bit_y@),
            rgb@.len() == 3 * pixel,
            forall|i: int| 0 <= i < rgb@.len() ==> (#[trigger] rgb@[i]) == all[i],
        decreases 40_000 - pixel,
    {
        let shade: u8 = shade_of(tag, pixel % 200 / 25, pixel / 200 / 25);
        proof {
            let p = 3 * pixel as int;
            assert(p / 3 == pixel && (p + 1) / 3 == pixel && (p + 2) / 3 == pixel);
            assert(all[p] == shade && all[p + 1] == shade && all[p + 2] == shade);
        }
        rgb.push(shade);
        rgb.push(shade);
        rgb.push(shade);
        pixel = pixel + 1;
    }
    assert(rgb@ =~= all);
    rgb
}

/// The picture of a tag of the 36h11 family.
pub fn tag_image(marker_id: i64) -> (rgb: Vec<u8>)
    requires
        0 <= marker_id < TAG_36H11_COUNT,
    ensures
        rgb@ == tag_picture(
            tag36h11_code(marker_id as nat),
            tag36h11_bit_x(),
            tag36h11_bit_y(),
        ),
{
    let tag = tag36h11(marker_id as usize);
    draw_tag(&tag)
}

// ---- landmarks ----

/// The most central of a cluster of sightings, from how far each is from the others in sum.
pub fn cluster_medoid(costs: &[F64Bits]) -> (best: usize)
    ensures
        is_closest(costs@, best as int),
        costs@.len() > 0 ==> best < costs@.len(),
{
    closest_keyframe(costs)
}

/// The rank of each sighting's marker.
pub open spec fn marker_keys(markers: Seq<i64>) -> Seq<SortKey> {
    markers.map_values(|m: i64| single_key(m as int))
}

/// The sightings by marker: markers ascending, the sightings of each in their order.
pub fn group_by_marker(markers: &[i64]) -> (groups: Vec<Vec<usize>>)
    ensures
        groups_by_key(marker_keys(markers@), groups@),
{
    let mut keys: Vec<SortKey> = Vec::with_capacity(markers.len());
    let mut i: usize = 0;
    assert(keys@ =~= marker_keys(markers@).take(0));
    while i < markers.len()
        invariant
            i <= markers@.len(),
            keys@ == marker_keys(markers@).take(i as int),
        decreases markers.len() - i,
    {
        keys.push(SortKey { first: markers[i], second: 0, third: 0 });
        i = i + 1;
        assert(keys@ =~= marker_keys(markers@).take(i as int));
    }
    assert(keys@ =~= marker_keys(markers@));
    group_by_key(&keys)
}

/// Whether landmarks can be placed: there is odometry, and the stream of sightings exists.
pub fn has_landmarks(streams: &[String], tag_stream: &str, odom_rows: usize) -> (r: bool)
    ensures
        r == (odom_rows > 0 && texts(streams@).contains(tag_stream@)),
{
    odom_rows > 0 && has_stream(streams, tag_stream)
}

/// The query for the camera image nearest to a time, `?1`, within a span, `?2`; none where the
/// stream's name cannot be quoted.
pub fn frame_query(camera_stream: &str) -> (r: Option<String>)
    ensures
        match r {
            Some(sql) => !camera_stream@.contains('"') && sql@ == "SELECT blob.data FROM \""@
                + camera_stream@ + "\" AS meta JOIN \""@ + camera_stream@
                + "_blob\" AS blob ON meta.id = blob.id WHERE ABS(meta.ts - ?1) <= ?2 ORDER BY ABS(meta.ts - ?1) LIMIT 1"@,
            None => camera_stream@.contains('"'),
        },
{
    if has_quote(camera_stream) {
        return None;
    }
    let mut sql = "SELECT blob.data FROM \"".to_owned();
    sql.append(camera_stream);
    sql.append("\" AS meta JOIN \"");
    sql.append(camera_stream);
    sql.append(
        "_blob\" AS blob ON meta.id = blob.id WHERE ABS(meta.ts - ?1) <= ?2 ORDER BY ABS(meta.ts - ?1) LIMIT 1",
    );
    Some(sql)
}

/// The label of a marker.
pub fn tag_label(marker_id: i64) -> (out: String)
    ensures
        out@ == "tag"@ + signed_text(marker_id as int),
{
    let mut out = "tag".to_owned();
    out.append(signed_decimal(marker_id).as_str());
    out
}

/// Where a marker stands in the scene.
pub fn tag_entity(marker_id: i64) -> (out: String)
    ensures
        out@ == "landmarks/tag"@ + signed_text(marker_id as int),
{
    let mut out = "landmarks/tag".to_owned();
    out.append(signed_decimal(marker_id).as_str());
    out
}

/// Where the camera's view of a marker stands in the scene.
pub fn view_entity(marker_id: i64) -> (out: String)
    ensures
        out@ == "landmarks/tag"@ + signed_text(marker_id as int) + "/medoid_view"@,
{
    let mut out = tag_entity(marker_id);
    out.append("/medoid_view");
    out
}

// ---- paths ----

/// The segments of a path: from each position to the next.
pub open spec fn segments_of<T>(positions: Seq<T>) -> Seq<(T, T)> {
    Seq::new(
        if positions.len() == 0 {
            0
        } else {
            (positions.len() - 1) as nat
        },
        |i: int| (positions[i], positions[i + 1]),
    )
}

/// The segments of a path: from each position to the next.
pub fn path_segments(positions: &[[F32Bits; 3]]) -> (segments: Vec<
    ([F32Bits; 3], [F32Bits; 3]),
>)
    ensures
        segments@ == segments_of(positions@),
{
    let mut segments: Vec<([F32Bits; 3], [F32Bits; 3])> = Vec::new();
    let mut i: usize = 1;
    while i < positions.len()
        invariant
            1 <= i,
            segments@.len() == i - 1,
            positions@.len() == 0 || i <= positions@.len(),
            positions@.len() == 0 ==> i == 1,
            forall|k: int|
                0 <= k < segments@.len() ==> #[trigger] segments@[k] == (
                    positions@[k],
                    positions@[k + 1],
                ),
        decreases positions.len() - i,
    {
        segments.push((positions[i - 1], positions[i]));
        i = i + 1;
    }
    assert(segments@ =~= segments_of(positions@));
    segments
}

// ---- the scene ----

/// Whether a stream is a corrected, accumulated cloud.
pub open spec fn is_corrected_cloud(name: Seq<char>) -> bool {
    occurs_in(name, "_corrected"@) && closes_with(name, "_accumulated"@)
}

/// Whether a stream is corrected odometry.
pub open spec fn is_corrected_odom(name: Seq<char>) -> bool {
    occurs_in(name, "_corrected"@) && occurs_in(name, "odom"@)
}

/// The names, as far as they are of corrected, accumulated clouds.
pub open spec fn cloud_names(names: Seq<Seq<char>>) -> Seq<Seq<char>>
    decreases names.len(),
{
    if names.len() == 0 {
        Seq::empty()
    } else if is_corrected_cloud(names.last()) {
        cloud_names(names.drop_last()).push(names.last())
    } else {
        cloud_names(names.drop_last())
    }
}

/// The names, as far as they are of corrected odometry.
pub open spec fn odom_names(names: Seq<Seq<char>>) -> Seq<Seq<char>>
    decreases names.len(),
{
    if names.len() == 0 {
        Seq::empty()
    } else if is_corrected_odom(names.last()) {
        odom_names(names.drop_last()).push(names.last())
    } else {
        odom_names(names.drop_last())
    }
}

/// The corrected, accumulated clouds among the streams, in lexicographic order.
pub fn corrected_clouds(streams: &[String]) -> (out: Vec<String>)
    ensures
        texts_ascend(texts(out@)),
        texts(out@).to_multiset() == cloud_names(texts(streams@)).to_multiset(),
{
    let mut found: Vec<String> = Vec::new();
    let mut i: usize = 0;
    assert(texts(streams@).take(0) =~= Seq::empty());
    assert(texts(found@) =~= Seq::empty());
    while i < streams.len()
        invariant
            i <= streams@.len(),
            texts(found@) == cloud_names(texts(streams@).take(i as int)),
        decreases streams.len() - i,
    {
        let ghost before = texts(streams@).take(i as int);
        let ghost after = texts(streams@).take(i + 1);
        proof {
            assert(after.drop_last() =~= before);
            assert(after.last() == streams@[i as int]@);
        }
        let name = streams[i].as_str();
        if contains(name, "_corrected") && ends_with(name, "_accumulated") {
            let ghost earlier = found@;
            found.push(streams[i].clone());
            assert(texts(found@) =~= texts(earlier).push(streams@[i as int]@));
        }
        i = i + 1;
    }
    assert(texts(streams@).take(i as int) =~= texts(streams@));
    sort_texts(&found)
}

/// The corrected odometry among the streams, in lexicographic order.
pub fn corrected_odoms(streams: &[String]) -> (out: Vec<String>)
    ensures
        texts_ascend(texts(out@)),
        texts(out@).to_multiset() == odom_names(texts(streams@)).to_multiset(),
{
    let mut found: Vec<String> = Vec::new();
    let mut i: usize = 0;
    assert(texts(streams@).take(0) =~= Seq::empty());
    assert(texts(found@) =~= Seq::empty());
    while i < streams.len()
        invariant
            i <= streams@.len(),
            texts(found@) == odom_names(texts(streams@).take(i as int)),
        decreases streams.len() - i,
    {
        let ghost before = texts(streams@).take(i as int);
        let ghost after = texts(streams@).take(i + 1);
        proof {
            assert(after.drop_last() =~= before);
            assert(after.last() == streams@[i as int]@);
        }
        let name = streams[i].as_str();
        if contains(name, "_corrected") && contains(name, "odom") {
            let ghost earlier = found@;
            found.push(streams[i].clone());
            assert(texts(found@) =~= texts(earlier).push(streams@[i as int]@));
        }
        i = i + 1;
    }
    assert(texts(streams@).take(i as int) =~= texts(streams@));
    sort_texts(&found)
}

/// How many color gradients there are for clouds.
pub const GRADIENTS: usize = 4;

/// What the comparison scene is made of.
pub struct ScenePlan {
    /// The frame of the robot's body, which is also that of the lidar.
    pub body_frame: String,
    /// Whether transforms are read from the recording.
    pub reads_tf: bool,
    /// The edge that the odometry takes the place of, parent and child.
    pub odom_edge: Option<(String, String)>,
    /// The corrected clouds, each with the color gradient that it is shown in.
    pub clouds: Vec<(String, usize)>,
    /// The corrected odometry that is shown and against which landmarks are placed.
    pub path: Option<String>,
}

/// The child of an edge `parent:child`: what follows the first colon, nothing without one.
pub open spec fn child_frame(edge: Seq<char>) -> Seq<char> {
    match edge.index_of_first(':') {
        Some(i) => edge.skip(i + 1),
        None => Seq::empty(),
    }
}

/// However an edge is taken apart at its first colon, its child is what follows that colon.
pub proof fn lemma_child_frame(edge: Seq<char>, parent: Seq<char>, child: Seq<char>)
    requires
        edge_frames(edge, parent, child),
    ensures
        child == child_frame(edge),
{
    edge.index_of_first_ensures(':');
    if edge.contains(':') {
        let at = parent.len() as int;
        let first = edge.index_of_first(':')->0;
        assert(edge[at] == ':');
        if first < at {
            assert(parent[first] == edge[first]);
            assert(parent.contains(':'));
        }
        assert(first == at);
        assert(edge.skip(at + 1) =~= child);
    } else {
        assert(child =~= Seq::empty());
    }
}

/// The names of the planned clouds.
pub open spec fn planned_names(clouds: Seq<(String, usize)>) -> Seq<Seq<char>> {
    clouds.map_values(|c: (String, usize)| c.0@)
}

/// What the comparison scene of a recording is made of, given its streams, the edge `odom_tf` in
/// which its odometry is expressed, and the world frame.
pub fn plan_scene(streams: &[String], odom_stream: &str, odom_tf: &str, world_frame: &str) -> (plan:
    ScenePlan)
    ensures
        odom_tf@.len() == 0 ==> plan.body_frame@ == world_frame@,
        odom_tf@.len() > 0 ==> plan.body_frame@ == child_frame(odom_tf@),
        plan.reads_tf == texts(streams@).contains("tf"@),
        plan.odom_edge is Some <==> odom_tf@.len() > 0 && texts(streams@).contains(odom_stream@),
        plan.odom_edge matches Some(edge) ==> edge_frames(odom_tf@, edge.0@, edge.1@),
        texts_ascend(planned_names(plan.clouds@)),
        planned_names(plan.clouds@).to_multiset() == cloud_names(texts(streams@)).to_multiset(),
        forall|i: int|
            0 <= i < plan.clouds@.len() ==> (#[trigger] plan.clouds@[i]).1 == i % (GRADIENTS as int),
        plan.path is None <==> odom_names(texts(streams@)).len() == 0,
        plan.path matches Some(path) ==> odom_names(texts(streams@)).contains(path@) && forall|
            i: int,
        |
            0 <= i < odom_names(texts(streams@)).len() ==> crate::text::text_le(
                path@,
                #[trigger] odom_names(texts(streams@))[i],
            ),
{
    let edge = split_edge(odom_tf);
    proof {
        lemma_child_frame(odom_tf@, edge.0@, edge.1@);
    }
    let body_frame = if !odom_tf.is_empty() {
        edge.1
    } else {
        world_frame.to_owned()
    };
    let odom_edge = odom_override(streams, odom_stream, odom_tf);
    let names = corrected_clouds(streams);
    let mut clouds: Vec<(String, usize)> = Vec::with_capacity(names.len());
    let mut i: usize = 0;
    assert(planned_names(clouds@) =~= texts(names@).take(0));
    while i < names.len()
        invariant
            i <= names@.len(),
            clouds@.len() == i,
            planned_names(clouds@) == texts(names@).take(i as int),
            forall|k: int|
                0 <= k < i ==> (#[trigger] clouds@[k]).1 == k % (GRADIENTS as int),
        decreases names.len() - i,
    {
        clouds.push((names[i].clone(), i % GRADIENTS));
        i = i + 1;
        assert(planned_names(clouds@) =~= texts(names@).take(i as int));
    }
    assert(planned_names(clouds@) =~= texts(names@));
    let odoms = corrected_odoms(streams);
    let ghost wanted = odom_names(texts(streams@));
    proof {
        texts(odoms@).to_multiset_ensures();
        wanted.to_multiset_ensures();
        assert(texts(odoms@).len() == wanted.len());
        if odoms@.len() > 0 {
            assert(texts(odoms@).contains(texts(odoms@)[0]));
            assert(texts(odoms@).to_multiset().count(texts(odoms@)[0]) > 0);
            assert forall|k: int| 0 <= k < wanted.len() implies crate::text::text_le(
                odoms@[0]@,
                #[trigger] wanted[k],
            ) by {
                assert(wanted.contains(wanted[k]));
                assert(wanted.to_multiset().count(wanted[k]) > 0);
                assert(texts(odoms@).contains(wanted[k]));
                let j = choose|j: int| 0 <= j < texts(odoms@).len() && texts(odoms@)[j] == wanted[k];
                assert(crate::text::text_le(texts(odoms@)[0], texts(odoms@)[j]));
            }
        }
    }
    let path = if odoms.len() > 0 {
        Some(odoms[0].clone())
    } else {
        None
    };
    ScenePlan { body_frame, reads_tf: has_stream(streams, "tf"), odom_edge, clouds, path }
}

// ---- what the results are, over all inputs ----

/// Of the points the first is kept and then every third, up to the end.
pub proof fn lemma_one_of_three_is_kept<T>(items: Seq<T>, i: int)
    ensures
        3 * every_third(items).len() >= items.len(),
        3 * every_third(items).len() < items.len() + 3,
        0 <= i < every_third(items).len() ==> 3 * i < items.len() && every_third(items)[i] == items[
            i + i + i],
{
}

/// A path of `n` places has `n - 1` segments; each starts where the one before it ends.
pub proof fn lemma_segments_follow_the_path<T>(positions: Seq<T>, i: int)
    ensures
        positions.len() > 0 ==> segments_of(positions).len() + 1 == positions.len(),
        positions.len() == 0 ==> segments_of(positions).len() == 0,
        0 <= i < segments_of(positions).len() ==> segments_of(positions)[i].0 == positions[i]
            && segments_of(positions)[i].1 == positions[i + 1],
{
}

/// The bit of a code that is listed at a place inside the border tells whether the cell is white; the
/// first bit listed weighs most. The border is black.
pub proof fn lemma_bits_tell_the_cells(
    code: nat,
    bit_x: Seq<i8>,
    bit_y: Seq<i8>,
    k: int,
    above: nat,
    below: nat,
)
    requires
        bit_x.len() == 36,
        bit_y.len() == 36,
        0 <= k < 36,
        1 <= bit_x[k] <= 6,
        1 <= bit_y[k] <= 6,
        forall|j: int| 0 <= j < k ==> (#[trigger] bit_x[j], bit_y[j]) != (bit_x[k], bit_y[k]),
        below < pow2((35 - k) as nat),
    ensures
        code == (2 * above + 1) * pow2((35 - k) as nat) + below ==> cell_shade(
            code,
            bit_x,
            bit_y,
            bit_x[k] as int,
            bit_y[k] as int,
        ) == 255,
        code == 2 * above * pow2((35 - k) as nat) + below ==> cell_shade(
            code,
            bit_x,
            bit_y,
            bit_x[k] as int,
            bit_y[k] as int,
        ) == 0,
        forall|v: int|
            0 <= v < 8 ==> #[trigger] cell_shade(code, bit_x, bit_y, 0, v) == 0 && cell_shade(
                code,
                bit_x,
                bit_y,
                v,
                0,
            ) == 0 && cell_shade(code, bit_x, bit_y, 7, v) == 0 && cell_shade(
                code,
                bit_x,
                bit_y,
                v,
                7,
            ) == 0,
{
    let p = pow2((35 - k) as nat);
    vstd::arithmetic::power2::lemma_pow2_pos((35 - k) as nat);
    lemma_bit_is_found(bit_x, bit_y, k, 0);
    if code == (2 * above + 1) * p + below {
        assert(code as int / p as int == 2 * above + 1) by {
            vstd::arithmetic::div_mod::lemma_fundamental_div_mod_converse(
                code as int,
                p as int,
                2 * above as int + 1,
                below as int,
            );
        }
    }
    if code == 2 * above * p + below {
        assert(code as int / p as int == 2 * above) by {
            vstd::arithmetic::div_mod::lemma_fundamental_div_mod_converse(
                code as int,
                p as int,
                2 * above as int,
                below as int,
            );
        }
    }
}

proof fn lemma_bit_is_found(bit_x: Seq<i8>, bit_y: Seq<i8>, k: int, from: nat)
    requires
        bit_x.len() == 36,
        bit_y.len() == 36,
        from <= k < 36,
        forall|j: int| 0 <= j < k ==> (#[trigger] bit_x[j], bit_y[j]) != (bit_x[k], bit_y[k]),
    ensures
        bit_at(bit_x, bit_y, bit_x[k] as int, bit_y[k] as int, from) == Some(k as nat),
    decreases k - from,
{
    if from < k {
        assert((bit_x[from as int], bit_y[from as int]) != (bit_x[k], bit_y[k]));
        lemma_bit_is_found(bit_x, bit_y, k, from + 1);
    }
}

/// A picture has 200 rows of 200 pixels; those of a cell are the 25 by 25 behind its corner, and all
/// three of their numbers are its shade.
pub proof fn lemma_picture_shows_each_cell(
    code: nat,
    bit_x: Seq<i8>,
    bit_y: Seq<i8>,
    cell_x: int,
    cell_y: int,
    dx: int,
    dy: int,
    channel: int,
)
    requires
        0 <= cell_x < 8,
        0 <= cell_y < 8,
        0 <= dx < 25,
        0 <= dy < 25,
        0 <= channel < 3,
    ensures
        tag_picture(code, bit_x, bit_y).len() == 200 * 200 * 3,
        tag_picture(code, bit_x, bit_y)[((25 * cell_y + dy) * 200 + 25 * cell_x + dx) * 3 + channel]
            == cell_shade(code, bit_x, bit_y, cell_x, cell_y),
{
    let x = 25 * cell_x + dx;
    let y = 25 * cell_y + dy;
    let i = (y * 200 + x) * 3 + channel;
    assert(i / 3 == y * 200 + x);
    assert((y * 200 + x) % 200 == x);
    assert((y * 200 + x) / 200 == y);
    assert(x / 25 == cell_x);
    assert(y / 25 == cell_y);
}

/// The clouds shown are the streams with `_corrected` in their names and `_accumulated` at the end,
/// all of them and no others; the paths those with `_corrected` and `odom` in their names.
pub proof fn lemma_corrected_streams_are_shown(names: Seq<Seq<char>>)
    ensures
        cloud_names(names) == names.filter(
            |name: Seq<char>| occurs_in(name, "_corrected"@) && closes_with(name, "_accumulated"@),
        ),
        odom_names(names) == names.filter(
            |name: Seq<char>| occurs_in(name, "_corrected"@) && occurs_in(name, "odom"@),
        ),
    decreases names.len(),
{
    reveal_with_fuel(Seq::filter, 1);
    if names.len() > 0 {
        lemma_corrected_streams_are_shown(names.drop_last());
    } else {
        assert(names =~= Seq::empty());
    }
}

/// Two sightings are in one group exactly where they are of one tag, and the groups come by the
/// numbers of their tags.
pub proof fn lemma_sightings_are_grouped_by_tag(
    markers: Seq<i64>,
    groups: Seq<Vec<usize>>,
    g: int,
    i: int,
    h: int,
    j: int,
)
    requires
        groups_by_key(marker_keys(markers), groups),
        0 <= g <= h < groups.len(),
        0 <= i < groups[g]@.len(),
        0 <= j < groups[h]@.len(),
    ensures
        groups[g]@[i] < markers.len(),
        g == h ==> markers[groups[g]@[i] as int] == markers[groups[h]@[j] as int],
        g < h ==> markers[groups[g]@[i] as int] < markers[groups[h]@[j] as int],
        g == h && i < j ==> groups[g]@[i] < groups[h]@[j],
        forall|k: int| 0 <= k < markers.len() ==> #[trigger] crate::order::grouped_at(groups, k),
{
    let keys = marker_keys(markers);
    let a = groups[g]@[i];
    let b = groups[h]@[j];
    assert(keys[a as int] == keys[groups[g]@[0] as int]);
    assert(keys[b as int] == keys[groups[h]@[0] as int]);
}

/// The frame of the child is what stands behind the first colon of an edge.
pub proof fn lemma_child_stands_behind_the_colon(parent: Seq<char>, child: Seq<char>)
    requires
        !parent.contains(':'),
    ensures
        child_frame(parent.push(':') + child) == child,
        child_frame(parent).len() == 0,
{
    let edge = parent.push(':') + child;
    assert(edge[parent.len() as int] == ':');
    assert(edge.contains(':'));
    edge.index_of_first_ensures(':');
    parent.index_of_first_ensures(':');
    let at = edge.index_of_first(':')->0;
    if at < parent.len() {
        assert(parent[at] == ':');
        assert(parent.contains(parent[at]));
    }
    assert(edge.skip(parent.len() as int + 1) =~= child);
}

} // verus!
