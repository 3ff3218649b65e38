//! What is written back into a recording: corrected clouds, deformation nodes, the pose
//! graph, and the aggregated cloud.

use crate::ieee::{at_most, is_nan, le, less, lt, F32Bits, F64Bits};
use crate::memory2::{POINT_FIELD_FLOAT32, PointCloud2, PointField, ScanRow, Tag, field_offset, le_u32_at, text_tag};
use crate::msgs::{
    be_u64, edge_name, fnv1a, pose_layout, tf_id_for, DeformationNode, Edge, Graph3D, Node3D,
    PoseStamped,
};
use crate::text::{chars_of, decimal, decimal_text, push_char};
use crate::tf::Pose7;
use vstd::prelude::*;
use vstd::string::StringExecFns;
use vstd::utf8::encode_utf8;

verus! {

// ---- numbers in print ----

/// The digits with a comma before each group of three, counted from the back.
pub open spec fn in_thousands(digits: Seq<char>) -> Seq<char>
    decreases digits.len(),
{
    if digits.len() <= 3 {
        digits
    } else {
        in_thousands(digits.take(digits.len() - 3)).push(',') + digits.skip(digits.len() - 3)
    }
}

/// The first `n` of the digits as `in_thousands` shows them among all.
spec fn shown_part(digits: Seq<char>, n: int) -> Seq<char>
    decreases n,
{
    if n <= 0 {
        Seq::empty()
    } else {
        let front = shown_part(digits, n - 1);
        if n - 1 > 0 && (digits.len() - (n - 1)) % 3 == 0 {
            front.push(',').push(digits[n - 1])
        } else {
            front.push(digits[n - 1])
        }
    }
}

proof fn lemma_shown_prefix(digits: Seq<char>, n: int)
    requires
        digits.len() > 3,
        0 <= n <= digits.len() - 3,
    ensures
        shown_part(digits, n) == shown_part(digits.take(digits.len() - 3), n),
    decreases n,
{
    if n > 0 {
        lemma_shown_prefix(digits, n - 1);
    }
}

proof fn lemma_shown_all(digits: Seq<char>)
    ensures
        shown_part(digits, digits.len() as int) == in_thousands(digits),
    decreases digits.len(),
{
    reveal_with_fuel(shown_part, 4);
    let n = digits.len() as int;
    if n <= 3 {
        assert(shown_part(digits, n) =~= digits);
    } else {
        let head = digits.take(n - 3);
        lemma_shown_all(head);
        lemma_shown_prefix(digits, n - 3);
        assert(shown_part(digits, n) =~= in_thousands(head).push(',') + digits.skip(n - 3));
    }
}

/// `value` in decimal, with a comma before each group of three digits.
pub fn format_thousands(value: usize) -> (out: String)
    ensures
        out@ == in_thousands(decimal_text(value as nat)),
{
    let digits = chars_of(decimal(value as u64).as_str());
    let mut out = String::new();
    let mut index: usize = 0;
    while index < digits.len()
        invariant
            index <= digits.len(),
            out@ == shown_part(digits@, index as int),
        decreases digits.len() - index,
    {
        if index > 0 && (digits.len() - index) % 3 == 0 {
            push_char(&mut out, ',');
        }
        push_char(&mut out, digits[index]);
        index = index + 1;
    }
    proof {
        lemma_shown_all(digits@);
    }
    out
}

// ---- places in time ----

/// The times are numbers and never go back.
pub open spec fn times_ascend(times: Seq<F64Bits>) -> bool {
    forall|i: int, j: int|
        0 <= i <= j < times.len() ==> le(#[trigger] times[i], #[trigger] times[j])
}

/// The first `n` of the times lie before `ts`, and no other.
spec fn parts_before(times: Seq<F64Bits>, ts: F64Bits, n: int) -> bool {
    &&& forall|i: int| 0 <= i < n ==> lt(#[trigger] times[i], ts)
    &&& forall|i: int| n <= i < times.len() ==> !lt(#[trigger] times[i], ts)
}

/// How many of the times lie before `ts`, where they are in order.
fn count_before(times: &[F64Bits], ts: F64Bits) -> (n: usize)
    ensures
        n <= times@.len(),
        times_ascend(times@) ==> parts_before(times@, ts, n as int),
{
    let mut lo: usize = 0;
    let mut hi: usize = times.len();
    while lo < hi
        invariant
            lo <= hi <= times.len(),
            times_ascend(times@) ==> forall|i: int| 0 <= i < lo ==> lt(#[trigger] times@[i], ts),
            times_ascend(times@) ==> forall|i: int|
                hi <= i < times@.len() ==> !lt(#[trigger] times@[i], ts),
        decreases hi - lo,
    {
        let mid: usize = lo + (hi - lo) / 2;
        if less(times[mid], ts) {
            assert forall|i: int| times_ascend(times@) && 0 <= i < mid + 1 implies lt(
                #[trigger] times@[i],
                ts,
            ) by {
                assert(le(times@[i], times@[mid as int]));
            }
            lo = mid + 1;
        } else {
            assert forall|i: int| times_ascend(times@) && mid <= i < times@.len() implies !lt(
                #[trigger] times@[i],
                ts,
            ) by {
                assert(le(times@[mid as int], times@[i]));
            }
            hi = mid;
        }
    }
    lo
}

/// Between which keyframes a time lies.
#[derive(Debug, Clone, Copy, PartialEq, Eq, Structural)]
pub enum Bracket {
    /// At or before the first keyframe.
    First,
    /// At or behind the last keyframe.
    Last,
    /// Behind the keyframe `before` and at or before the next one, `after`.
    Between { before: usize, after: usize },
}

/// `r` tells where `ts` lies among the times, which are in order.
pub open spec fn is_bracket(times: Seq<F64Bits>, ts: F64Bits, r: Bracket) -> bool {
    match r {
        Bracket::First => le(ts, times[0]),
        Bracket::Last => !le(ts, times[0]) && le(times.last(), ts),
        Bracket::Between { before, after } => {
            &&& lt(times[0], ts)
            &&& lt(ts, times.last())
            &&& lt(times[before as int], ts)
            &&& le(ts, times[after as int])
        },
    }
}

/// The keyframes whose corrections are interpolated at `ts`: the first or last one alone
/// outside of their range, else the two around `ts`. Where the times are out of order, some two
/// neighbours, or the first or the last.
pub fn interpolate_correction(keyframe_times: &[F64Bits], ts: F64Bits) -> (r: Bracket)
    requires
        keyframe_times@.len() > 0,
        !is_nan(ts),
    ensures
        times_ascend(keyframe_times@) ==> is_bracket(keyframe_times@, ts, r),
        r matches Bracket::Between { before, after } ==> after == before + 1 && after
            < keyframe_times@.len(),
        r is First <==> le(ts, keyframe_times@[0]),
{
    let last: usize = keyframe_times.len() - 1;
    if at_most(ts, keyframe_times[0]) {
        return Bracket::First;
    }
    if at_most(keyframe_times[last], ts) {
        return Bracket::Last;
    }
    let after: usize = count_before(keyframe_times, ts);
    proof {
        if times_ascend(keyframe_times@) {
            assert(le(keyframe_times@[0], keyframe_times@[0]));
            assert(le(keyframe_times@[last as int], keyframe_times@[last as int]));
            assert(lt(keyframe_times@[0], ts));
            assert(!lt(keyframe_times@[last as int], ts));
            assert(le(keyframe_times@[after as int], keyframe_times@[after as int]));
        }
    }
    if after == 0 || after > last {
        return Bracket::Last;
    }
    Bracket::Between { before: after - 1, after }
}

/// How many of the first `n` times lie before `ts`.
pub open spec fn passed(times: Seq<F64Bits>, ts: F64Bits, n: nat) -> nat
    decreases n,
{
    if n == 0 {
        0
    } else if lt(times[n - 1], ts) {
        passed(times, ts, (n - 1) as nat) + 1
    } else {
        passed(times, ts, (n - 1) as nat)
    }
}

proof fn lemma_passed(times: Seq<F64Bits>, ts: F64Bits, n: nat, split: nat)
    requires
        n <= times.len(),
        forall|i: int| 0 <= i < split && i < times.len() ==> lt(#[trigger] times[i], ts),
        forall|i: int| split <= i < times.len() ==> !lt(#[trigger] times[i], ts),
    ensures
        passed(times, ts, n) == (if n < split {
            n
        } else {
            split
        }),
    decreases n,
{
    if n > 0 {
        lemma_passed(times, ts, (n - 1) as nat, split);
    }
}

/// The first time at or behind `ts`, or the last time of all.
pub open spec fn candidate(times: Seq<F64Bits>, ts: F64Bits) -> int {
    let before = passed(times, ts, times.len());
    if before < times.len() {
        before as int
    } else {
        times.len() - 1
    }
}

/// Whether all that `gap` can answer is what `oracle` says.
pub open spec fn gaps_as<F: Fn(usize) -> F64Bits>(
    gap: F,
    oracle: spec_fn(usize) -> F64Bits,
) -> bool {
    forall|i: usize, answer: F64Bits| #[trigger]
        call_ensures(gap, (i,), answer) ==> answer == oracle(i)
}

/// The time nearest to `ts`: the first at or behind it, unless the one before is strictly nearer.
/// `oracle` says how far each is from `ts`.
pub open spec fn nearest_of(
    times: Seq<F64Bits>,
    ts: F64Bits,
    oracle: spec_fn(usize) -> F64Bits,
) -> int {
    let at = candidate(times, ts);
    if at > 0 && lt(oracle((at - 1) as usize), oracle(at as usize)) {
        at - 1
    } else {
        at
    }
}

/// The time nearest to `ts`, where the times are in order, else some time. `gap` tells how far a
/// time is from `ts`.
pub fn nearest_index<F: Fn(usize) -> F64Bits>(times: &[F64Bits], ts: F64Bits, gap: &F) -> (index: usize)
    requires
        times@.len() > 0,
        forall|i: usize| call_requires(*gap, (i,)),
    ensures
        index < times@.len(),
        forall|oracle: spec_fn(usize) -> F64Bits| #[trigger]
            gaps_as(*gap, oracle) && times_ascend(times@) ==> index == nearest_of(
                times@,
                ts,
                oracle,
            ),
{
    let before: usize = count_before(times, ts);
    proof {
        if times_ascend(times@) {
            lemma_passed(times@, ts, times@.len(), before as nat);
        }
    }
    let at: usize = if before >= times.len() {
        times.len() - 1
    } else {
        before
    };
    if at > 0 && less(gap(at - 1), gap(at)) {
        at - 1
    } else {
        at
    }
}

/// Where the gaps grow with the distance from `ts` on either side, no time is nearer than the
/// one that is chosen.
pub proof fn lemma_nearest_of_is_nearest(
    times: Seq<F64Bits>,
    ts: F64Bits,
    oracle: spec_fn(usize) -> F64Bits,
)
    requires
        0 < times.len() <= usize::MAX,
        forall|i: usize| i < times.len() ==> !is_nan(#[trigger] oracle(i)),
        forall|i: usize, j: usize|
            i <= j < passed(times, ts, times.len()) && j < times.len() ==> le(
                #[trigger] oracle(j),
                #[trigger] oracle(i),
            ),
        forall|i: usize, j: usize|
            passed(times, ts, times.len()) <= i <= j < times.len() ==> le(
                #[trigger] oracle(i),
                #[trigger] oracle(j),
            ),
    ensures
        ({
            let best = nearest_of(times, ts, oracle) as usize;
            forall|i: usize|
                i < times.len() ==> le(oracle(best), #[trigger] oracle(i))
        }),
{
    lemma_passed_bounded(times, ts, times.len());
    let at = candidate(times, ts);
    let best = nearest_of(times, ts, oracle) as usize;
    let before = passed(times, ts, times.len()) as int;
    assert forall|i: usize| i < times.len() implies le(oracle(best), #[trigger] oracle(i)) by {
        if i < before {
            let last = (if before < times.len() {
                before - 1
            } else {
                times.len() - 1
            }) as usize;
            assert(le(oracle(last), oracle(i)));
        } else {
            assert(le(oracle(at as usize), oracle(i)));
        }
        if before == times.len() && at > 0 {
            assert(le(oracle(at as usize), oracle((at - 1) as usize)));
        }
    }
}

proof fn lemma_passed_bounded(times: Seq<F64Bits>, ts: F64Bits, n: nat)
    ensures
        passed(times, ts, n) <= n,
    decreases n,
{
    if n > 0 {
        lemma_passed_bounded(times, ts, (n - 1) as nat);
    }
}

/// How many of the times lie at or before `ts`, less one, but at least zero: the pose that
/// is held at `ts`. Where the times are out of order, some index.
pub fn latched_index(times: &[F64Bits], ts: F64Bits) -> (index: usize)
    ensures
        times@.len() > 0 ==> index < times@.len(),
        times@.len() == 0 ==> index == 0,
        index > 0 && times_ascend(times@) ==> le(times@[index as int], ts),
        times_ascend(times@) ==> forall|i: int|
            index < i < times@.len() ==> !le(#[trigger] times@[i], ts),
{
    let mut lo: usize = 0;
    let mut hi: usize = times.len();
    while lo < hi
        invariant
            lo <= hi <= times.len(),
            times_ascend(times@) ==> forall|i: int| 0 <= i < lo ==> le(#[trigger] times@[i], ts),
            times_ascend(times@) ==> forall|i: int|
                hi <= i < times@.len() ==> !le(#[trigger] times@[i], ts),
        decreases hi - lo,
    {
        let mid: usize = lo + (hi - lo) / 2;
        if at_most(times[mid], ts) {
            assert forall|i: int| times_ascend(times@) && 0 <= i < mid + 1 implies le(
                #[trigger] times@[i],
                ts,
            ) by {
                assert(le(times@[i], times@[mid as int]));
            }
            lo = mid + 1;
        } else {
            assert forall|i: int| times_ascend(times@) && mid <= i < times@.len() implies !le(
                #[trigger] times@[i],
                ts,
            ) by {
                assert(le(times@[mid as int], times@[i]));
            }
            hi = mid;
        }
    }
    if lo == 0 {
        0
    } else {
        lo - 1
    }
}

// ---- clouds ----

/// The number of bytes of a point record: x, y, z and intensity.
pub const POINT_STEP: usize = 16;

/// The most points whose bytes can be counted in 31 bits.
pub const MAX_POINTS: usize = 134_217_727;

/// The four bytes of `v`, lowest first.
pub open spec fn le_u32(v: u32) -> Seq<u8> {
    seq![
        (v % 0x100) as u8,
        (v / 0x100 % 0x100) as u8,
        (v / 0x1_0000 % 0x100) as u8,
        (v / 0x100_0000) as u8,
    ]
}

/// One point record.
pub open spec fn record_bytes(point: Seq<F32Bits>, intensity: F32Bits) -> Seq<u8> {
    le_u32(point[0]) + le_u32(point[1]) + le_u32(point[2]) + le_u32(intensity)
}

/// The intensity of the `i`th point, 0 where the cloud has none.
pub open spec fn intensity_of(intensities: Option<Vec<F32Bits>>, i: int) -> F32Bits {
    match intensities {
        Some(values) => values@[i],
        None => 0,
    }
}

/// The records of the first `n` points.
pub open spec fn cloud_bytes(
    points: Seq<[F32Bits; 3]>,
    intensities: Option<Vec<F32Bits>>,
    n: int,
) -> Seq<u8>
    decreases n,
{
    if n <= 0 {
        Seq::empty()
    } else {
        cloud_bytes(points, intensities, n - 1) + record_bytes(
            points[n - 1]@,
            intensity_of(intensities, n - 1),
        )
    }
}

/// The fields of a point record: four binary32 numbers, one behind the other.
pub open spec fn are_xyz_fields(fields: Seq<PointField>) -> bool {
    &&& fields.len() == 4
    &&& fields[0].name@ == "x"@
    &&& fields[1].name@ == "y"@
    &&& fields[2].name@ == "z"@
    &&& fields[3].name@ == "intensity"@
    &&& forall|i: int|
        0 <= i < 4 ==> (#[trigger] fields[i]).offset == 4 * i && fields[i].datatype
            == POINT_FIELD_FLOAT32
}

/// The fields of a point record.
pub fn xyz_fields() -> (fields: Vec<PointField>)
    ensures
        are_xyz_fields(fields@),
{
    let mut fields: Vec<PointField> = Vec::new();
    fields.push(PointField { name: "x".to_owned(), offset: 0, datatype: POINT_FIELD_FLOAT32 });
    fields.push(PointField { name: "y".to_owned(), offset: 4, datatype: POINT_FIELD_FLOAT32 });
    fields.push(PointField { name: "z".to_owned(), offset: 8, datatype: POINT_FIELD_FLOAT32 });
    fields.push(
        PointField { name: "intensity".to_owned(), offset: 12, datatype: POINT_FIELD_FLOAT32 },
    );
    fields
}

fn write_le_u32(out: &mut Vec<u8>, v: u32)
    ensures
        final(out)@ == old(out)@ + le_u32(v),
{
    let ghost before = out@;
    out.push((v % 0x100) as u8);
    out.push((v / 0x100 % 0x100) as u8);
    out.push((v / 0x1_0000 % 0x100) as u8);
    out.push((v / 0x100_0000) as u8);
    assert(out@ =~= before + le_u32(v));
}

/// The points as a cloud message of one row; intensities are 0 where there are none. A
/// cloud without points has neither rows nor columns.
pub fn encode_pointcloud2(
    points: &[[F32Bits; 3]],
    intensities: &Option<Vec<F32Bits>>,
    frame_id: &str,
) -> (message: PointCloud2)
    requires
        points@.len() <= MAX_POINTS,
        *intensities matches Some(values) ==> values@.len() >= points@.len(),
    ensures
        message.frame_id@ == frame_id@,
        are_xyz_fields(message.fields@),
        message.point_step == POINT_STEP,
        message.width == points@.len(),
        message.height == if points@.len() == 0 {
            0int
        } else {
            1int
        },
        message.row_step == 16 * points@.len(),
        message.data@ == cloud_bytes(points@, *intensities, points@.len() as int),
{
    let mut data: Vec<u8> = Vec::new();
    let mut i: usize = 0;
    while i < points.len()
        invariant
            i <= points.len(),
            *intensities matches Some(values) ==> values@.len() >= points@.len(),
            data@ == cloud_bytes(points@, *intensities, i as int),
        decreases points.len() - i,
    {
        let ghost before = data@;
        let point = points[i];
        write_le_u32(&mut data, point[0]);
        write_le_u32(&mut data, point[1]);
        write_le_u32(&mut data, point[2]);
        let intensity: F32Bits = match intensities {
            Some(values) => values[i],
            None => 0,
        };
        write_le_u32(&mut data, intensity);
        assert(data@ =~= before + record_bytes(
            points@[i as int]@,
            intensity_of(*intensities, i as int),
        ));
        i = i + 1;
    }
    PointCloud2 {
        frame_id: frame_id.to_owned(),
        fields: xyz_fields(),
        width: points.len(),
        height: if points.len() == 0 {
            0
        } else {
            1
        },
        point_step: POINT_STEP,
        row_step: 16 * points.len(),
        data,
    }
}

proof fn lemma_cloud_bytes_len(
    points: Seq<[F32Bits; 3]>,
    intensities: Option<Vec<F32Bits>>,
    n: int,
)
    requires
        0 <= n,
    ensures
        cloud_bytes(points, intensities, n).len() == 16 * n,
    decreases n,
{
    if n > 0 {
        lemma_cloud_bytes_len(points, intensities, n - 1);
    }
}

proof fn lemma_le_u32_at(data: Seq<u8>, at: int, v: u32)
    requires
        0 <= at,
        at + 4 <= data.len(),
        data[at] == le_u32(v)[0],
        data[at + 1] == le_u32(v)[1],
        data[at + 2] == le_u32(v)[2],
        data[at + 3] == le_u32(v)[3],
    ensures
        le_u32_at(data, at) == v,
{
}

proof fn lemma_record_reads_back(
    points: Seq<[F32Bits; 3]>,
    intensities: Option<Vec<F32Bits>>,
    n: int,
    i: int,
)
    requires
        0 <= i < n,
    ensures
        le_u32_at(cloud_bytes(points, intensities, n), 16 * i) == points[i]@[0],
        le_u32_at(cloud_bytes(points, intensities, n), 16 * i + 4) == points[i]@[1],
        le_u32_at(cloud_bytes(points, intensities, n), 16 * i + 8) == points[i]@[2],
        le_u32_at(cloud_bytes(points, intensities, n), 16 * i + 12) == intensity_of(intensities, i),
    decreases n,
{
    let data = cloud_bytes(points, intensities, n);
    let front = cloud_bytes(points, intensities, n - 1);
    lemma_cloud_bytes_len(points, intensities, n - 1);
    let record = record_bytes(points[n - 1]@, intensity_of(intensities, n - 1));
    assert(data == front + record);
    if i < n - 1 {
        lemma_record_reads_back(points, intensities, n - 1, i);
        assert forall|k: int| 0 <= k < front.len() implies data[k] == front[k] by {}
    } else {
        let p = points[i]@;
        assert forall|k: int| 0 <= k < 16 implies #[trigger] data[16 * i + k] == record[k] by {}
        assert(record[0] == le_u32(p[0])[0] && record[1] == le_u32(p[0])[1] && record[2]
            == le_u32(p[0])[2] && record[3] == le_u32(p[0])[3]);
        assert(record[4] == le_u32(p[1])[0] && record[5] == le_u32(p[1])[1] && record[6]
            == le_u32(p[1])[2] && record[7] == le_u32(p[1])[3]);
        assert(record[8] == le_u32(p[2])[0] && record[9] == le_u32(p[2])[1] && record[10]
            == le_u32(p[2])[2] && record[11] == le_u32(p[2])[3]);
        let v = intensity_of(intensities, i);
        assert(record[12] == le_u32(v)[0] && record[13] == le_u32(v)[1] && record[14]
            == le_u32(v)[2] && record[15] == le_u32(v)[3]);
        assert(data[16 * i + 0] == record[0] && data[16 * i + 1] == record[1] && data[16 * i + 2]
            == record[2] && data[16 * i + 3] == record[3]);
        assert(data[16 * i + 4] == record[4] && data[16 * i + 5] == record[5] && data[16 * i + 6]
            == record[6] && data[16 * i + 7] == record[7]);
        assert(data[16 * i + 8] == record[8] && data[16 * i + 9] == record[9] && data[16 * i + 10]
            == record[10] && data[16 * i + 11] == record[11]);
        assert(data[16 * i + 12] == record[12] && data[16 * i + 13] == record[13] && data[16 * i
            + 14] == record[14] && data[16 * i + 15] == record[15]);
        lemma_le_u32_at(data, 16 * i, p[0]);
        lemma_le_u32_at(data, 16 * i + 4, p[1]);
        lemma_le_u32_at(data, 16 * i + 8, p[2]);
        lemma_le_u32_at(data, 16 * i + 12, v);
    }
}

proof fn lemma_xyz_offsets(fields: Seq<PointField>)
    requires
        are_xyz_fields(fields),
    ensures
        field_offset(fields, "x"@) == Some(0usize),
        field_offset(fields, "y"@) == Some(4usize),
        field_offset(fields, "z"@) == Some(8usize),
        field_offset(fields, "intensity"@) == Some(12usize),
{
    reveal_strlit("x");
    reveal_strlit("y");
    reveal_strlit("z");
    reveal_strlit("intensity");
    assert("x"@.len() == 1 && "x"@[0] == 'x');
    assert("y"@.len() == 1 && "y"@[0] == 'y');
    assert("z"@.len() == 1 && "z"@[0] == 'z');
    assert("intensity"@.len() == 9);
    reveal_with_fuel(field_offset, 5);
    let three = fields.drop_last();
    let two = three.drop_last();
    let one = two.drop_last();
    assert(three.last() == fields[2] && two.last() == fields[1] && one.last() == fields[0]);
    assert(fields.last() == fields[3]);
    assert(fields[0].offset == 0 && fields[1].offset == 4 && fields[2].offset == 8
        && fields[3].offset == 12);
}

/// A cloud that was written as a message reads back as it was: its points, and the
/// intensities, which are 0 where it had none.
pub proof fn lemma_cloud_reads_back(
    points: Seq<[F32Bits; 3]>,
    intensities: Option<Vec<F32Bits>>,
    message: PointCloud2,
)
    requires
        points.len() <= MAX_POINTS,
        are_xyz_fields(message.fields@),
        message.point_step == POINT_STEP,
        message.width == points.len(),
        message.height == if points.len() == 0 {
            0int
        } else {
            1int
        },
        message.data@ == cloud_bytes(points, intensities, points.len() as int),
    ensures
        message.readable(),
        message.has_xyz(),
        message.record_count() == points.len(),
        forall|i: int|
            0 <= i < points.len() ==> {
                &&& #[trigger] message.value(i, 0) == points[i]@[0]
                &&& message.value(i, 4) == points[i]@[1]
                &&& message.value(i, 8) == points[i]@[2]
                &&& message.value(i, 12) == intensity_of(intensities, i)
            },
        field_offset(message.fields@, "x"@) == Some(0usize),
        field_offset(message.fields@, "y"@) == Some(4usize),
        field_offset(message.fields@, "z"@) == Some(8usize),
        field_offset(message.fields@, "intensity"@) == Some(12usize),
{
    let n = points.len() as int;
    lemma_cloud_bytes_len(points, intensities, n);
    lemma_xyz_offsets(message.fields@);
    assert(message.record_count() == n);
    assert forall|i: int| 0 <= i < n implies {
        &&& #[trigger] message.value(i, 0) == points[i]@[0]
        &&& message.value(i, 4) == points[i]@[1]
        &&& message.value(i, 8) == points[i]@[2]
        &&& message.value(i, 12) == intensity_of(intensities, i)
    } by {
        lemma_record_reads_back(points, intensities, n, i);
    }
    assert(message.covers(0));
    assert(message.covers(4));
    assert(message.covers(8));
    assert(message.covers(12));
}

// ---- keyframes ----

/// A row that is to be appended to a stream.
#[derive(Debug)]
pub struct ArtifactRow {
    pub ts: F64Bits,
    pub tags: Vec<Tag>,
    pub blob: Vec<u8>,
}

/// The id of the edge between the frames.
pub open spec fn edge_id(world_frame: Seq<char>, body_frame: Seq<char>) -> u64 {
    fnv1a(encode_utf8(edge_name(world_frame, body_frame)))
}

/// The value of a tag that holds a number as text.
pub open spec fn number_value(n: nat) -> Seq<char> {
    "\""@ + decimal_text(n) + "\""@
}

/// `row` holds the pose of the keyframe `index`.
pub open spec fn is_node_row(
    row: ArtifactRow,
    index: int,
    ts: F64Bits,
    pose: Pose7,
    world_frame: Seq<char>,
    tf_id: u64,
) -> bool {
    &&& row.ts == ts
    &&& row.tags@.len() == 2
    &&& row.tags@[0].key@ == "tf_id"@
    &&& row.tags@[0].value@ == number_value(tf_id as nat)
    &&& row.tags@[1].key@ == "id"@
    &&& row.tags@[1].value@ == number_value(index as nat)
    &&& row.blob@ == be_u64(index as u64) + be_u64(tf_id) + pose_layout(
        ts,
        world_frame,
        pose@.subrange(0, 3),
        pose@.subrange(3, 7),
    )
}

fn stamped(ts: F64Bits, frame_id: &str, pose: Pose7) -> (out: PoseStamped)
    ensures
        out.ts == ts,
        out.frame_id@ == frame_id@,
        out.position@ == pose@.subrange(0, 3),
        out.orientation@ == pose@.subrange(3, 7),
{
    let position = [pose[0], pose[1], pose[2]];
    let orientation = [pose[3], pose[4], pose[5], pose[6]];
    assert(position@ =~= pose@.subrange(0, 3));
    assert(orientation@ =~= pose@.subrange(3, 7));
    PoseStamped { ts, frame_id: frame_id.to_owned(), position, orientation }
}

fn node_row(index: usize, ts: F64Bits, pose: Pose7, world_frame: &str, tf_id: u64) -> (row:
    ArtifactRow)
    ensures
        is_node_row(row, index as int, ts, pose, world_frame@, tf_id),
{
    let node = DeformationNode {
        id: index as u64,
        tf_id,
        pose: stamped(ts, world_frame, pose),
    };
    let mut tags: Vec<Tag> = Vec::new();
    tags.push(text_tag("tf_id", decimal(tf_id).as_str()));
    tags.push(text_tag("id", decimal(index as u64).as_str()));
    ArtifactRow { ts, tags, blob: node.encode() }
}

/// Two rows for each keyframe: its raw pose, then its optimized one.
pub fn write_deformation_nodes(
    keyframe_times: &[F64Bits],
    raw_poses: &[Pose7],
    optimized: &[Pose7],
    world_frame: &str,
    body_frame: &str,
) -> (rows: Vec<ArtifactRow>)
    requires
        raw_poses@.len() >= keyframe_times@.len(),
        optimized@.len() >= keyframe_times@.len(),
    ensures
        rows@.len() == 2 * keyframe_times@.len(),
        forall|i: int|
            #![trigger keyframe_times@[i]]
            0 <= i < keyframe_times@.len() ==> is_node_row(
                rows@[2 * i],
                i,
                keyframe_times@[i],
                raw_poses@[i],
                world_frame@,
                edge_id(world_frame@, body_frame@),
            ) && is_node_row(
                rows@[2 * i + 1],
                i,
                keyframe_times@[i],
                optimized@[i],
                world_frame@,
                edge_id(world_frame@, body_frame@),
            ),
{
    let tf_id: u64 = tf_id_for(world_frame, body_frame);
    let mut rows: Vec<ArtifactRow> = Vec::new();
    let mut index: usize = 0;
    while index < keyframe_times.len()
        invariant
            index <= keyframe_times.len(),
            raw_poses@.len() >= keyframe_times@.len(),
            optimized@.len() >= keyframe_times@.len(),
            tf_id == edge_id(world_frame@, body_frame@),
            rows@.len() == 2 * index,
            forall|i: int|
                #![trigger keyframe_times@[i]]
                0 <= i < index ==> is_node_row(
                    rows@[2 * i],
                    i,
                    keyframe_times@[i],
                    raw_poses@[i],
                    world_frame@,
                    tf_id,
                ) && is_node_row(
                    rows@[2 * i + 1],
                    i,
                    keyframe_times@[i],
                    optimized@[i],
                    world_frame@,
                    tf_id,
                ),
        decreases keyframe_times.len() - index,
    {
        let node_ts: F64Bits = keyframe_times[index];
        rows.push(node_row(index, node_ts, raw_poses[index], world_frame, tf_id));
        rows.push(node_row(index, node_ts, optimized[index], world_frame, tf_id));
        index = index + 1;
    }
    rows
}

/// The graph is that of the keyframes: a node for each, and an edge from each to the next.
pub open spec fn is_pose_graph(
    graph: Graph3D,
    times: Seq<F64Bits>,
    optimized: Seq<Pose7>,
    world_frame: Seq<char>,
) -> bool {
    &&& graph.ts == times.last()
    &&& graph.nodes@.len() == times.len()
    &&& forall|i: int|
        0 <= i < graph.nodes@.len() ==> {
            let node = #[trigger] graph.nodes@[i];
            &&& node.id == i
            &&& node.metadata_id == 0
            &&& node.pose.ts == times[i]
            &&& node.pose.frame_id@ == world_frame
            &&& node.pose.position@ == optimized[i]@.subrange(0, 3)
            &&& node.pose.orientation@ == optimized[i]@.subrange(3, 7)
        }
    &&& graph.edges@.len() == times.len() - 1
    &&& forall|i: int|
        0 <= i < graph.edges@.len() ==> (#[trigger] graph.edges@[i]) == (Edge {
            start_id: i as u64,
            end_id: (i + 1) as u64,
            timestamp: times[i + 1],
            metadata_id: 0,
        })
}

/// The optimized keyframes as nodes, joined by edges in their order.
pub fn write_pose_graph(
    keyframe_times: &[F64Bits],
    optimized: &[Pose7],
    world_frame: &str,
) -> (graph: Graph3D)
    requires
        keyframe_times@.len() > 0,
        optimized@.len() >= keyframe_times@.len(),
    ensures
        graph.ts == keyframe_times@.last(),
        graph.nodes@.len() == keyframe_times@.len(),
        forall|i: int|
            0 <= i < graph.nodes@.len() ==> {
                let node = #[trigger] graph.nodes@[i];
                &&& node.id == i
                &&& node.metadata_id == 0
                &&& node.pose.ts == keyframe_times@[i]
                &&& node.pose.frame_id@ == world_frame@
                &&& node.pose.position@ == optimized@[i]@.subrange(0, 3)
                &&& node.pose.orientation@ == optimized@[i]@.subrange(3, 7)
            },
        graph.edges@.len() == keyframe_times@.len() - 1,
        forall|i: int|
            0 <= i < graph.edges@.len() ==> (#[trigger] graph.edges@[i]) == (Edge {
                start_id: i as u64,
                end_id: (i + 1) as u64,
                timestamp: keyframe_times@[i + 1],
                metadata_id: 0,
            }),
        is_pose_graph(graph, keyframe_times@, optimized@, world_frame@),
{
    let count: usize = keyframe_times.len();
    let mut nodes: Vec<Node3D> = Vec::new();
    let mut edges: Vec<Edge> = Vec::new();
    let mut index: usize = 0;
    while index < count
        invariant
            index <= count,
            count == keyframe_times.len(),
            optimized@.len() >= keyframe_times@.len(),
            nodes@.len() == index,
            forall|i: int|
                0 <= i < nodes@.len() ==> {
                    let node = #[trigger] nodes@[i];
                    &&& node.id == i
                    &&& node.metadata_id == 0
                    &&& node.pose.ts == keyframe_times@[i]
                    &&& node.pose.frame_id@ == world_frame@
                    &&& node.pose.position@ == optimized@[i]@.subrange(0, 3)
                    &&& node.pose.orientation@ == optimized@[i]@.subrange(3, 7)
                },
            edges@.len() == if index == 0 {
                0int
            } else {
                index - 1
            },
            forall|i: int|
                0 <= i < edges@.len() ==> (#[trigger] edges@[i]) == (Edge {
                    start_id: i as u64,
                    end_id: (i + 1) as u64,
                    timestamp: keyframe_times@[i + 1],
                    metadata_id: 0,
                }),
        decreases count - index,
    {
        nodes.push(
            Node3D {
                pose: stamped(keyframe_times[index], world_frame, optimized[index]),
                id: index as u64,
                metadata_id: 0,
            },
        );
        if index > 0 {
            edges.push(
                Edge {
                    start_id: (index - 1) as u64,
                    end_id: index as u64,
                    timestamp: keyframe_times[index],
                    metadata_id: 0,
                },
            );
        }
        index = index + 1;
    }
    Graph3D { ts: keyframe_times[count - 1], nodes, edges }
}

// ---- aggregated cloud ----

/// After so many scans the buffered ones are collapsed.
pub const LCM_CHUNK_SCANS: usize = 1000;

/// The chunks, one after the other.
pub open spec fn flat<T>(chunks: Seq<Vec<T>>) -> Seq<T>
    decreases chunks.len(),
{
    if chunks.len() == 0 {
        Seq::empty()
    } else {
        flat(chunks.drop_last()) + chunks.last()@
    }
}

/// The chunks, one after the other.
pub fn flatten<T: Copy>(chunks: &[Vec<T>]) -> (out: Vec<T>)
    ensures
        out@ == flat(chunks@),
{
    let mut out: Vec<T> = Vec::new();
    let mut i: usize = 0;
    assert(chunks@.take(0) =~= Seq::empty());
    while i < chunks.len()
        invariant
            i <= chunks.len(),
            out@ == flat(chunks@.take(i as int)),
        decreases chunks.len() - i,
    {
        let chunk = &chunks[i];
        let ghost before = out@;
        let mut k: usize = 0;
        while k < chunk.len()
            invariant
                k <= chunk.len(),
                out@ == before + chunk@.take(k as int),
            decreases chunk.len() - k,
        {
            out.push(chunk[k]);
            k = k + 1;
            assert(out@ =~= before + chunk@.take(k as int));
        }
        assert(chunk@.take(k as int) =~= chunk@);
        assert(chunks@.take(i + 1).drop_last() =~= chunks@.take(i as int));
        i = i + 1;
    }
    assert(chunks@.take(i as int) =~= chunks@);
    out
}

/// The aggregated cloud while it is collected: the chunks that are already collapsed, and
/// the scans that are not yet.
#[derive(Debug)]
pub struct ScanAggregator {
    pub aggregated_points: Vec<Vec<[F32Bits; 3]>>,
    pub aggregated_intensities: Vec<Vec<F32Bits>>,
    pub buffered_points: Vec<Vec<[F32Bits; 3]>>,
    pub buffered_intensities: Vec<Vec<F32Bits>>,
    pub have_intensities: bool,
}

impl ScanAggregator {
    /// Between scans the buffer is not full, and intensities that are held were noted.
    pub open spec fn wf(&self) -> bool {
        &&& self.buffered_points@.len() < LCM_CHUNK_SCANS
        &&& self.has_room()
    }

    /// No scan has intensities without points, and intensities that are held were noted.
    pub open spec fn has_room(&self) -> bool {
        &&& self.buffered_intensities@.len() <= self.buffered_points@.len()
        &&& self.aggregated_intensities@.len() <= self.aggregated_points@.len()
        &&& self.buffered_intensities@.len() > 0 ==> self.have_intensities
        &&& self.aggregated_intensities@.len() > 0 ==> self.have_intensities
    }

    /// An aggregator that has seen no scan.
    pub fn new() -> (r: ScanAggregator)
        ensures
            r.wf(),
            r.aggregated_points@.len() == 0,
            r.aggregated_intensities@.len() == 0,
            r.buffered_points@.len() == 0,
            r.buffered_intensities@.len() == 0,
            !r.have_intensities,
    {
        ScanAggregator {
            aggregated_points: Vec::new(),
            aggregated_intensities: Vec::new(),
            buffered_points: Vec::new(),
            buffered_intensities: Vec::new(),
            have_intensities: false,
        }
    }

    /// Buffers a scan; tells whether the buffer is to be collapsed now.
    pub fn add_scan(
        &mut self,
        points: Vec<[F32Bits; 3]>,
        intensities: Option<Vec<F32Bits>>,
    ) -> (full: bool)
        requires
            old(self).wf(),
        ensures
            final(self).has_room(),
            !full ==> final(self).wf(),
            full == (old(self).buffered_points@.len() + 1 == LCM_CHUNK_SCANS),
            final(self).buffered_points@ == old(self).buffered_points@.push(points),
            final(self).buffered_intensities@ == match intensities {
                Some(values) => old(self).buffered_intensities@.push(values),
                None => old(self).buffered_intensities@,
            },
            final(self).have_intensities == (old(self).have_intensities || intensities is Some),
            final(self).aggregated_points == old(self).aggregated_points,
            final(self).aggregated_intensities == old(self).aggregated_intensities,
    {
        self.buffered_points.push(points);
        if let Some(values) = intensities {
            self.have_intensities = true;
            self.buffered_intensities.push(values);
        }
        self.buffered_points.len() >= LCM_CHUNK_SCANS
    }

    /// Whether the buffered scans carry intensities.
    pub fn carries_buffered(&self) -> (r: bool)
        requires
            self.has_room(),
        ensures
            r == (self.have_intensities && self.buffered_intensities@.len() > 0),
    {
        self.buffered_intensities.len() > 0
    }

    /// Whether the aggregated chunks carry intensities.
    pub fn carries_aggregated(&self) -> (r: bool)
        requires
            self.has_room(),
        ensures
            r == (self.have_intensities && self.aggregated_intensities@.len() > 0),
    {
        self.aggregated_intensities.len() > 0
    }

    /// Whether scans are left that are not collapsed.
    pub fn has_buffered(&self) -> (r: bool)
        ensures
            r == (self.buffered_points@.len() > 0),
    {
        self.buffered_points.len() > 0
    }

    /// Takes the chunk that the buffered scans were collapsed into, and empties the buffer.
    /// The chunk has intensities exactly where the buffered scans carry them.
    pub fn collapse(&mut self, points: Vec<[F32Bits; 3]>, intensities: Option<Vec<F32Bits>>)
        requires
            old(self).has_room(),
            intensities is Some ==> old(self).buffered_intensities@.len() > 0,
        ensures
            final(self).wf(),
            final(self).aggregated_points@ == old(self).aggregated_points@.push(points),
            final(self).aggregated_intensities@ == match intensities {
                Some(values) => old(self).aggregated_intensities@.push(values),
                None => old(self).aggregated_intensities@,
            },
            final(self).buffered_points@.len() == 0,
            final(self).buffered_intensities@.len() == 0,
            final(self).have_intensities == old(self).have_intensities,
    {
        self.aggregated_points.push(points);
        if let Some(values) = intensities {
            self.aggregated_intensities.push(values);
        }
        self.buffered_points = Vec::new();
        self.buffered_intensities = Vec::new();
    }
}

// ---- outliers ----

/// The distances that are positive, in their order.
pub open spec fn positive(distances: Seq<F64Bits>) -> Seq<F64Bits>
    decreases distances.len(),
{
    if distances.len() == 0 {
        Seq::empty()
    } else if lt(0, distances.last()) {
        positive(distances.drop_last()).push(distances.last())
    } else {
        positive(distances.drop_last())
    }
}

/// The distances that count toward the mean and deviation of a cloud.
pub fn valid_distances(mean_distances: &[F64Bits]) -> (valid: Vec<F64Bits>)
    ensures
        valid@ == positive(mean_distances@),
{
    let mut valid: Vec<F64Bits> = Vec::new();
    let mut i: usize = 0;
    assert(mean_distances@.take(0) =~= Seq::empty());
    while i < mean_distances.len()
        invariant
            i <= mean_distances.len(),
            valid@ == positive(mean_distances@.take(i as int)),
        decreases mean_distances.len() - i,
    {
        assert(mean_distances@.take(i + 1).drop_last() =~= mean_distances@.take(i as int));
        if less(0, mean_distances[i]) {
            valid.push(mean_distances[i]);
        }
        i = i + 1;
    }
    assert(mean_distances@.take(i as int) =~= mean_distances@);
    valid
}

/// A point with this mean distance to its neighbors stays.
pub open spec fn is_inlier(distance: F64Bits, threshold: F64Bits) -> bool {
    lt(0, distance) && lt(distance, threshold)
}

/// The positions of the points that stay, in ascending order: those whose mean distance to
/// their neighbors is positive and below the threshold.
pub fn inliers(mean_distances: &[F64Bits], threshold: F64Bits) -> (kept: Vec<usize>)
    ensures
        forall|a: int, b: int|
            0 <= a < b < kept@.len() ==> (#[trigger] kept@[a]) < (#[trigger] kept@[b]),
        forall|i: int|
            0 <= i < mean_distances@.len() ==> (is_inlier(#[trigger] mean_distances@[i], threshold)
                <==> kept@.contains(i as usize)),
        forall|a: int| 0 <= a < kept@.len() ==> (#[trigger] kept@[a]) < mean_distances@.len(),
{
    let mut kept: Vec<usize> = Vec::new();
    let mut i: usize = 0;
    while i < mean_distances.len()
        invariant
            i <= mean_distances.len(),
            forall|a: int, b: int|
                0 <= a < b < kept@.len() ==> (#[trigger] kept@[a]) < (#[trigger] kept@[b]),
            forall|k: int|
                0 <= k < i ==> (is_inlier(#[trigger] mean_distances@[k], threshold)
                    <==> kept@.contains(k as usize)),
            forall|a: int| 0 <= a < kept@.len() ==> (#[trigger] kept@[a]) < i,
        decreases mean_distances.len() - i,
    {
        let ghost before = kept@;
        let inside: bool = less(0, mean_distances[i]) && less(mean_distances[i], threshold);
        if inside {
            kept.push(i);
        }
        proof {
            assert forall|k: int| 0 <= k < i + 1 implies (is_inlier(
                #[trigger] mean_distances@[k],
                threshold,
            ) <==> kept@.contains(k as usize)) by {
                if k < i {
                    if before.contains(k as usize) {
                        let a = choose|a: int| 0 <= a < before.len() && before[a] == k as usize;
                        assert(kept@[a] == k as usize);
                    }
                    if kept@.contains(k as usize) {
                        let a = choose|a: int| 0 <= a < kept@.len() && kept@[a] == k as usize;
                        assert(a < before.len());
                        assert(before[a] == k as usize);
                    }
                } else if inside {
                    assert(kept@[kept@.len() - 1] == i);
                }
            }
        }
        i = i + 1;
    }
    kept
}

/// The stream that a lidar stream is accumulated into.
pub fn accumulated_name(in_stream: &str) -> (out: String)
    ensures
        out@ == in_stream@ + "_accumulated"@,
{
    let mut out = in_stream.to_owned();
    out.append("_accumulated");
    out
}

/// The first `n` scans that have points.
pub open spec fn scans_with_points(scans: Seq<ScanRow>, n: nat) -> Seq<usize>
    decreases n,
{
    if n == 0 {
        Seq::empty()
    } else if scans[n - 1].points@.len() > 0 {
        scans_with_points(scans, (n - 1) as nat).push((n - 1) as usize)
    } else {
        scans_with_points(scans, (n - 1) as nat)
    }
}

/// The scans that go into an accumulated cloud, and the time of that cloud: the scans that have
/// points, and the time of the last of them, 0 where there is none.
pub fn scans_to_accumulate(scans: &[ScanRow]) -> (r: (Vec<usize>, F64Bits))
    ensures
        r.0@ == scans_with_points(scans@, scans@.len()),
        r.1 == (if r.0@.len() > 0 {
            scans@[r.0@.last() as int].ts
        } else {
            0
        }),
{
    let mut kept: Vec<usize> = Vec::new();
    let mut last: F64Bits = 0;
    let mut n: usize = 0;
    while n < scans.len()
        invariant
            n <= scans@.len(),
            kept@ == scans_with_points(scans@, n as nat),
            kept@.len() == 0 ==> last == 0,
            kept@.len() > 0 ==> kept@.last() < n && last == scans@[kept@.last() as int].ts,
        decreases scans.len() - n,
    {
        if scans[n].points.len() > 0 {
            kept.push(n);
            last = scans[n].ts;
        }
        n = n + 1;
    }
    (kept, last)
}

// ---- what the results are, over all inputs ----

/// Counted from the back, every fourth character is a comma and every other one a digit; without the
/// commas the digits are as they were.
pub proof fn lemma_commas_stand_every_fourth(digits: Seq<char>, i: int)
    requires
        0 <= i < in_thousands(digits).len(),
        !digits.contains(','),
    ensures
        in_thousands(digits)[i] == ',' <==> (in_thousands(digits).len() - i) % 4 == 0,
        in_thousands(digits).filter(|c: char| c != ',') == digits,
        digits.len() > 0 ==> in_thousands(digits)[0] == digits[0],
    decreases digits.len(),
{
    lemma_without_commas(digits);
    lemma_comma_places(digits);
}

proof fn lemma_comma_places(digits: Seq<char>)
    requires
        !digits.contains(','),
    ensures
        forall|i: int|
            0 <= i < in_thousands(digits).len() ==> (#[trigger] in_thousands(digits)[i] == ',' <==> (
            in_thousands(digits).len() - i) % 4 == 0),
        digits.len() > 0 ==> in_thousands(digits).len() > 0 && in_thousands(digits)[0] == digits[0],
        digits.len() <= 3 ==> in_thousands(digits).len() == digits.len(),
    decreases digits.len(),
{
    let shown = in_thousands(digits);
    if digits.len() <= 3 {
        assert forall|i: int| 0 <= i < shown.len() implies (#[trigger] shown[i] == ',' <==> (
        shown.len() - i) % 4 == 0) by {
            assert(digits.contains(digits[i]));
        }
    } else {
        let head = digits.take(digits.len() - 3);
        let tail = digits.skip(digits.len() - 3);
        assert forall|c: char| #[trigger] head.contains(c) implies digits.contains(c) by {
            let k = choose|k: int| 0 <= k < head.len() && head[k] == c;
            assert(digits[k] == c);
        }
        lemma_comma_places(head);
        let front = in_thousands(head);
        assert(shown == front.push(',') + tail);
        assert forall|i: int| 0 <= i < shown.len() implies (#[trigger] shown[i] == ',' <==> (
        shown.len() - i) % 4 == 0) by {
            if i < front.len() {
                assert(shown[i] == front[i]);
                assert((shown.len() - i) == (front.len() - i) + 4);
            } else if i > front.len() {
                assert(shown[i] == tail[i - front.len() - 1]);
                assert(digits.contains(digits[digits.len() - 3 + (i - front.len() - 1)]));
            }
        }
    }
}

proof fn lemma_without_commas(digits: Seq<char>)
    requires
        !digits.contains(','),
    ensures
        in_thousands(digits).filter(|c: char| c != ',') == digits,
    decreases digits.len(),
{
    let plain = |c: char| c != ',';
    if digits.len() <= 3 {
        lemma_all_stay(digits);
    } else {
        let head = digits.take(digits.len() - 3);
        let tail = digits.skip(digits.len() - 3);
        assert forall|c: char| #[trigger] head.contains(c) implies digits.contains(c) by {
            let k = choose|k: int| 0 <= k < head.len() && head[k] == c;
            assert(digits[k] == c);
        }
        assert forall|c: char| #[trigger] tail.contains(c) implies digits.contains(c) by {
            let k = choose|k: int| 0 <= k < tail.len() && tail[k] == c;
            assert(digits[digits.len() - 3 + k] == c);
        }
        lemma_without_commas(head);
        lemma_all_stay(tail);
        let front = in_thousands(head).push(',');
        Seq::filter_distributes_over_add(front, tail, plain);
        assert(front.filter(plain) =~= in_thousands(head).filter(plain)) by {
            reveal_with_fuel(Seq::filter, 1);
            assert(front.drop_last() =~= in_thousands(head));
        }
        assert(head + tail =~= digits);
    }
}

proof fn lemma_all_stay(digits: Seq<char>)
    requires
        !digits.contains(','),
    ensures
        digits.filter(|c: char| c != ',') == digits,
    decreases digits.len(),
{
    reveal_with_fuel(Seq::filter, 1);
    if digits.len() > 0 {
        assert(digits.contains(digits.last()));
        assert forall|c: char| #[trigger] digits.drop_last().contains(c) implies digits.contains(
            c,
        ) by {
            let k = choose|k: int| 0 <= k < digits.drop_last().len() && digits.drop_last()[k] == c;
            assert(digits[k] == c);
        }
        lemma_all_stay(digits.drop_last());
        assert(digits.drop_last().push(digits.last()) =~= digits);
    } else {
        assert(digits =~= Seq::empty());
    }
}

/// A time is between the last keyframe before it and the first that is not, or at one end: no keyframe
/// comes before it at the first, and none behind it at the last.
pub proof fn lemma_bracket_encloses_the_time(
    times: Seq<F64Bits>,
    ts: F64Bits,
    r: Bracket,
    i: int,
)
    requires
        !is_nan(ts),
        times_ascend(times),
        is_bracket(times, ts, r),
        r matches Bracket::Between { before, after } ==> after == before + 1 && after < times.len(),
        0 <= i < times.len(),
    ensures
        r is First ==> le(ts, times[i]),
        r is Last ==> le(times[i], ts) && lt(times[0], ts),
        r matches Bracket::Between { before, after } ==> (i <= before ==> lt(times[i], ts)) && (i
            >= after ==> le(ts, times[i])) && lt(ts, times.last()),
{
    assert(le(times[0], times[i]));
    assert(le(times[i], times[times.len() - 1]));
    if let Bracket::Between { before, after } = r {
        if i <= before {
            assert(le(times[i], times[before as int]));
        } else {
            assert(le(times[after as int], times[i]));
        }
    }
}

/// Among ascending times the one at or behind the time asked for is taken, unless the one before it is
/// strictly nearer, or there is none behind and the last one is.
pub proof fn lemma_nearest_of_two_neighbours(
    times: Seq<F64Bits>,
    ts: F64Bits,
    oracle: spec_fn(usize) -> F64Bits,
    k: int,
)
    requires
        times.len() <= usize::MAX,
        0 <= k <= times.len(),
        forall|i: int| 0 <= i < k ==> lt(#[trigger] times[i], ts),
        forall|i: int| k <= i < times.len() ==> !lt(#[trigger] times[i], ts),
    ensures
        0 < k < times.len() && lt(oracle((k - 1) as usize), oracle(k as usize)) ==> nearest_of(
            times,
            ts,
            oracle,
        ) == k - 1,
        0 < k < times.len() && !lt(oracle((k - 1) as usize), oracle(k as usize)) ==> nearest_of(
            times,
            ts,
            oracle,
        ) == k,
        k == 0 && times.len() > 0 ==> nearest_of(times, ts, oracle) == 0,
        k == times.len() && k > 1 && !lt(
            oracle((k - 2) as usize),
            oracle((k - 1) as usize),
        ) ==> nearest_of(times, ts, oracle) == k - 1,
        k == times.len() && k == 1 ==> nearest_of(times, ts, oracle) == 0,
{
    lemma_counts_those_before(times, ts, k, times.len());
}

proof fn lemma_counts_those_before(times: Seq<F64Bits>, ts: F64Bits, k: int, n: nat)
    requires
        0 <= k <= times.len(),
        n <= times.len(),
        forall|i: int| 0 <= i < k ==> lt(#[trigger] times[i], ts),
        forall|i: int| k <= i < times.len() ==> !lt(#[trigger] times[i], ts),
    ensures
        passed(times, ts, n) == (if n <= k {
            n as int
        } else {
            k
        }),
    decreases n,
{
    if n > 0 {
        lemma_counts_those_before(times, ts, k, (n - 1) as nat);
    }
}

/// A number of four bytes is written with the byte that weighs least in front.
pub proof fn lemma_last_byte_weighs_most(v: u32)
    ensures
        le_u32(v).len() == 4,
        v == le_u32(v)[0] + le_u32(v)[1] * 0x100 + le_u32(v)[2] * 0x1_0000 + le_u32(v)[3]
            * 0x100_0000,
{
}

/// Every point of a cloud takes sixteen bytes, in the order of the points.
pub proof fn lemma_points_take_sixteen_bytes(
    points: Seq<[F32Bits; 3]>,
    intensities: Option<Vec<F32Bits>>,
    n: int,
    i: int,
)
    requires
        0 <= i < n <= points.len(),
    ensures
        cloud_bytes(points, intensities, n).len() == 16 * n,
        cloud_bytes(points, intensities, n).subrange(16 * i, 16 * i + 16) == le_u32(points[i]@[0])
            + le_u32(points[i]@[1]) + le_u32(points[i]@[2]) + le_u32(
            if intensities is Some {
                intensities->0@[i]
            } else {
                0
            },
        ),
    decreases n,
{
    let all = cloud_bytes(points, intensities, n);
    let front = cloud_bytes(points, intensities, n - 1);
    lemma_clouds_len(points, intensities, n - 1);
    if i < n - 1 {
        lemma_points_take_sixteen_bytes(points, intensities, n - 1, i);
        assert(all.subrange(16 * i, 16 * i + 16) =~= front.subrange(16 * i, 16 * i + 16));
    } else {
        assert(all.subrange(16 * i, 16 * i + 16) =~= record_bytes(
            points[i]@,
            intensity_of(intensities, i),
        ));
    }
}

proof fn lemma_clouds_len(points: Seq<[F32Bits; 3]>, intensities: Option<Vec<F32Bits>>, n: int)
    requires
        0 <= n,
    ensures
        cloud_bytes(points, intensities, n).len() == 16 * n,
    decreases n,
{
    if n > 0 {
        lemma_clouds_len(points, intensities, n - 1);
    }
}

/// A row of a deformation has the time of its keyframe, names the edge and the keyframe in its tags as
/// quoted numbers, and holds both, the time, the frame and the pose in its payload.
#[verifier::spinoff_prover]
#[verifier::rlimit(50)]
pub proof fn lemma_deformation_row_names_its_keyframe(
    row: ArtifactRow,
    index: int,
    ts: F64Bits,
    pose: Pose7,
    world_frame: Seq<char>,
    tf_id: u64,
)
    requires
        0 <= index <= u64::MAX,
        is_node_row(row, index, ts, pose, world_frame, tf_id),
    ensures
        row.ts == ts,
        row.tags@.len() == 2,
        row.tags@[0].key@ == "tf_id"@,
        row.tags@[0].value@ == "\""@ + decimal_text(tf_id as nat) + "\""@,
        row.tags@[1].key@ == "id"@,
        row.tags@[1].value@ == "\""@ + decimal_text(index as nat) + "\""@,
        row.blob@.take(8) == be_u64(index as u64),
        row.blob@.subrange(8, 16) == be_u64(tf_id),
        row.blob@.subrange(16, 24) == be_u64(ts),
        row.blob@.skip(24) == crate::msgs::str_bytes(world_frame) + crate::msgs::f64s_bytes(
            seq![pose@[0], pose@[1], pose@[2]],
        ) + crate::msgs::f64s_bytes(seq![pose@[3], pose@[4], pose@[5], pose@[6]]),
{
    assert(pose@.subrange(0, 3) =~= seq![pose@[0], pose@[1], pose@[2]]);
    assert(pose@.subrange(3, 7) =~= seq![pose@[3], pose@[4], pose@[5], pose@[6]]);
    crate::msgs::lemma_first_byte_weighs_most(index as u64);
    crate::msgs::lemma_first_byte_weighs_most(tf_id);
    crate::msgs::lemma_first_byte_weighs_most(ts);
    let a = be_u64(index as u64);
    let b = be_u64(tf_id);
    let c = be_u64(ts);
    let name = crate::msgs::str_bytes(world_frame);
    let position = crate::msgs::f64s_bytes(pose@.subrange(0, 3));
    let orientation = crate::msgs::f64s_bytes(pose@.subrange(3, 7));
    lemma_parts_of_a_node(a, b, c, name, position, orientation);
}

proof fn lemma_parts_of_a_node(
    a: Seq<u8>,
    b: Seq<u8>,
    c: Seq<u8>,
    name: Seq<u8>,
    position: Seq<u8>,
    orientation: Seq<u8>,
)
    requires
        a.len() == 8,
        b.len() == 8,
        c.len() == 8,
    ensures
        ({
            let all = a + b + (c + name + position + orientation);
            &&& all.take(8) == a
            &&& all.subrange(8, 16) == b
            &&& all.subrange(16, 24) == c
            &&& all.skip(24) == name + position + orientation
        }),
{
    let all = a + b + (c + name + position + orientation);
    assert(all.take(8) =~= a);
    assert(all.subrange(8, 16) =~= b);
    assert(all.subrange(16, 24) =~= c);
    assert(all.skip(24) =~= name + position + orientation);
}

/// The number of an edge is the digest of the names of its frames with a bar between them.
pub proof fn lemma_edge_number_is_of_both_frames(world_frame: Seq<char>, body_frame: Seq<char>)
    ensures
        edge_id(world_frame, body_frame) == fnv1a(
            encode_utf8(world_frame.push('|') + body_frame),
        ),
{
    reveal_strlit("|");
    assert(world_frame + "|"@ + body_frame =~= world_frame.push('|') + body_frame);
}

/// The chunks are put one behind the other, in their order.
pub proof fn lemma_chunks_are_put_together<T>(chunks: Seq<Vec<T>>)
    ensures
        flat(chunks) == chunks.map_values(|chunk: Vec<T>| chunk@).flatten(),
    decreases chunks.len(),
{
    let items = |chunk: Vec<T>| chunk@;
    let pieces = chunks.map_values(items);
    if chunks.len() > 0 {
        lemma_chunks_are_put_together(chunks.drop_last());
        let front = chunks.drop_last().map_values(items);
        assert(pieces =~= front.push(items(chunks.last())));
        front.lemma_flatten_push(items(chunks.last()));
    } else {
        assert(pieces =~= Seq::empty());
    }
}

/// The distances above zero count, all of them and in their order. A point stays where its own is one
/// of them and below the threshold.
pub proof fn lemma_positive_distances_count(distances: Seq<F64Bits>)
    ensures
        positive(distances) == distances.filter(|d: F64Bits| lt(0, d)),
        forall|d: F64Bits, threshold: F64Bits|
            !is_nan(d) && !is_nan(threshold) ==> (#[trigger] is_inlier(d, threshold) <==> !le(d, 0)
                && !le(threshold, d)),
        forall|d: F64Bits, threshold: F64Bits|
            is_nan(d) || is_nan(threshold) ==> !#[trigger] is_inlier(d, threshold),
    decreases distances.len(),
{
    reveal_with_fuel(Seq::filter, 1);
    if distances.len() > 0 {
        lemma_positive_distances_count(distances.drop_last());
    } else {
        assert(distances =~= Seq::empty());
    }
}

/// A scan is accumulated exactly where it has a point; those accumulated come in their order.
pub proof fn lemma_scans_with_points_are_taken(scans: Seq<ScanRow>, n: nat)
    requires
        n <= scans.len() <= usize::MAX,
    ensures
        forall|i: usize| #[trigger]
            scans_with_points(scans, n).contains(i) <==> i < n && scans[i as int].points@.len() != 0,
        forall|a: int, b: int|
            0 <= a < b < scans_with_points(scans, n).len() ==> (#[trigger] scans_with_points(
                scans,
                n,
            )[a]) < (#[trigger] scans_with_points(scans, n)[b]),
    decreases n,
{
    let all = scans_with_points(scans, n);
    if n > 0 {
        let front = scans_with_points(scans, (n - 1) as nat);
        let last = (n - 1) as usize;
        lemma_scans_with_points_are_taken(scans, (n - 1) as nat);
        assert forall|a: int| 0 <= a < front.len() implies (#[trigger] front[a]) < last by {
            assert(front.contains(front[a]));
        }
        assert forall|i: usize| #[trigger]
            all.contains(i) <==> i < n && scans[i as int].points@.len() != 0 by {
            assert(front.contains(i) <==> i < last && scans[i as int].points@.len() != 0);
            if front.contains(i) {
                let k = choose|k: int| 0 <= k < front.len() && front[k] == i;
                assert(all[k] == i);
            }
            if all.contains(i) {
                let k = choose|k: int| 0 <= k < all.len() && all[k] == i;
                if k < front.len() {
                    assert(front[k] == i);
                }
            }
            if all.len() > front.len() {
                assert(all[front.len() as int] == last);
                assert(all.contains(all[front.len() as int]));
            }
        }
    }
}

/// The nodes of a pose graph are numbered in the order of the keyframes and hold their times and
/// poses. Every node but the last is left by one edge, which leads to the node behind it and has that
/// node's time, so that the edges lead through all nodes; the graph has the time of the last.
pub proof fn lemma_pose_graph_is_a_chain(
    graph: Graph3D,
    times: Seq<F64Bits>,
    optimized: Seq<Pose7>,
    world_frame: Seq<char>,
    i: int,
    k: int,
)
    requires
        0 < times.len() <= usize::MAX,
        is_pose_graph(graph, times, optimized, world_frame),
        0 <= i < graph.edges@.len(),
        0 <= k < 7,
    ensures
        graph.nodes@.len() == graph.edges@.len() + 1,
        graph.edges@[i].start_id == graph.nodes@[i].id,
        graph.edges@[i].end_id == graph.nodes@[i + 1].id,
        graph.edges@[i].timestamp == graph.nodes@[i + 1].pose.ts,
        i + 1 < graph.edges@.len() ==> graph.edges@[i + 1].start_id == graph.edges@[i].end_id,
        graph.edges@[0].start_id == 0,
        graph.edges@.last().end_id == times.len() - 1,
        graph.ts == graph.nodes@.last().pose.ts,
        graph.nodes@[i].id == i,
        graph.nodes@[i].pose.ts == times[i],
        graph.nodes@[i].pose.frame_id@ == world_frame,
        optimized[i]@[k] == (if k < 3 {
            graph.nodes@[i].pose.position@[k]
        } else {
            graph.nodes@[i].pose.orientation@[k - 3]
        }),
{
    assert(graph.nodes@[i].id == i);
    assert(graph.nodes@[i + 1].id == i + 1);
    assert(graph.edges@[i].start_id == i);
    assert(graph.nodes@[graph.nodes@.len() - 1].pose.ts == times[times.len() - 1]);
    assert(graph.edges@[0].start_id == 0);
    assert(graph.edges@[graph.edges@.len() - 1].end_id == graph.edges@.len());
    if i + 1 < graph.edges@.len() {
        assert(graph.edges@[i + 1].start_id == i + 1);
    }
}

} // verus!
