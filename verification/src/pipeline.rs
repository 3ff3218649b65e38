//! The run as a whole: its options, the order of its stages, and what it says.

use crate::artifacts::accumulated_name;
use crate::detect::{tag_step, RawTagStep};
use crate::ieee::{is_nan, nan, numeric_key, ordinal, F64Bits};
use crate::order::{lemma_stable_order_sorts, single_key, stable_order, stable_sort, SortKey};
use crate::recording::{
    first_available, known_odometry, lidars_for, resolved_lidar, resolved_odom,
};
use crate::rrd::child_frame;
use crate::store::{
    after_edits, are_replaced, edited, is_confined, is_replaced, lemma_edits_join, lemma_listing_after_edits,
    lemma_other_streams_keep_their_rows, replaces, Edit, Table,
};
use crate::text::{
    chars_of, contains, debug_text, decimal, decimal_text, integer_value, is_space, join, joined,
    occurs_in, parse_integer, quoted, space, split_once, texts, tokens, tokens_of,
};
use crate::tf::Pose7;
use std::collections::HashSet;
use vstd::prelude::*;
use vstd::string::StringExecFns;

verus! {

// ---- options ----

/// The frame of the robot's body: the world frame where no edge is named, else the child of the
/// edge; an error where the edge has no colon.
pub fn body_frame(odom_tf: &str, world_frame: &str) -> (r: Result<String, String>)
    ensures
        match r {
            Ok(frame) => if odom_tf@.len() == 0 {
                frame@ == world_frame@
            } else {
                odom_tf@.contains(':') && frame@ == child_frame(odom_tf@)
            },
            Err(text) => odom_tf@.len() > 0 && !odom_tf@.contains(':') && text@
                == "--odom-tf must be 'parent:child', got '"@ + odom_tf@ + "'"@,
        },
{
    if odom_tf.is_empty() {
        return Ok(world_frame.to_owned());
    }
    match split_once(odom_tf, ':') {
        Some((parent, child)) => {
            proof {
                let whole = parent@.push(':') + child@;
                assert(whole[parent@.len() as int] == ':');
                crate::rrd::lemma_child_frame(odom_tf@, parent@, child@);
            }
            Ok(child)
        },
        None => {
            let mut text = "--odom-tf must be 'parent:child', got '".to_owned();
            text.append(odom_tf);
            text.append("'");
            Err(text)
        },
    }
}

/// The numbers that the first `n` words spell, or the first word that spells none.
pub open spec fn integers_of(words: Seq<Seq<char>>, n: nat) -> Result<Set<i64>, Seq<char>>
    decreases n,
{
    if n == 0 {
        Ok(Set::empty())
    } else {
        match integers_of(words, (n - 1) as nat) {
            Err(word) => Err(word),
            Ok(before) => match integer_value(words[n - 1]) {
                Some(number) => Ok(before.insert(number)),
                None => Err(words[n - 1]),
            },
        }
    }
}

proof fn lemma_bad_word_stays(words: Seq<Seq<char>>, n: nat, m: nat)
    requires
        n <= m,
        integers_of(words, n) is Err,
    ensures
        integers_of(words, m) == integers_of(words, n),
    decreases m,
{
    if n < m {
        lemma_bad_word_stays(words, n, (m - 1) as nat);
    }
}

/// The numbers of the markers to ignore, from a text in which white space and commas separate
/// them.
pub fn parse_ignore_tags(spec: &str) -> (r: Result<HashSet<i64>, String>)
    ensures
        match r {
            Ok(ids) => integers_of(tokens_of(spec@), tokens_of(spec@).len()) == Ok::<_, Seq<char>>(
                ids@,
            ),
            Err(text) => {
                let outcome = integers_of(tokens_of(spec@), tokens_of(spec@).len());
                outcome is Err && text@ == "--ignore-tags: not an integer: "@ + debug_text(
                    outcome->Err_0,
                )
            },
        },
{
    broadcast use vstd::std_specs::hash::group_hash_axioms;

    let words = tokens(spec);
    let ghost all = tokens_of(spec@);
    let mut ids: HashSet<i64> = HashSet::new();
    let mut n: usize = 0;
    assert(ids@ =~= Set::empty());
    while n < words.len()
        invariant
            n <= words@.len(),
            all == tokens_of(spec@),
            texts(words@) == all,
            integers_of(all, n as nat) == Ok::<_, Seq<char>>(ids@),
        decreases words.len() - n,
    {
        broadcast use vstd::std_specs::hash::group_hash_axioms;

        assert(all[n as int] == words@[n as int]@);
        match parse_integer(words[n].as_str()) {
            Some(number) => {
                ids.insert(number);
            },
            None => {
                proof {
                    lemma_bad_word_stays(all, (n + 1) as nat, all.len());
                }
                let mut text = "--ignore-tags: not an integer: ".to_owned();
                text.append(quoted(words[n].as_str()).as_str());
                return Err(text);
            },
        }
        n = n + 1;
    }
    Ok(ids)
}

/// Whether a text holds nothing but white space.
pub open spec fn is_blank(s: Seq<char>) -> bool {
    forall|i: int| 0 <= i < s.len() ==> is_space(#[trigger] s[i])
}

/// Whether a text holds nothing but white space.
pub fn blank(s: &str) -> (r: bool)
    ensures
        r == is_blank(s@),
{
    let chars = chars_of(s);
    let mut i: usize = 0;
    while i < chars.len()
        invariant
            i <= chars@.len(),
            chars@ == s@,
            forall|k: int| 0 <= k < i ==> is_space(#[trigger] chars@[k]),
        decreases chars.len() - i,
    {
        if !space(chars[i]) {
            assert(!is_space(s@[i as int]));
            return false;
        }
        i = i + 1;
    }
    true
}

/// The words of an extrinsic: none where it is left out.
pub fn extrinsic_words(spec: &str) -> (words: Option<Vec<String>>)
    ensures
        words is None <==> is_blank(spec@),
        words matches Some(w) ==> texts(w@) == tokens_of(spec@),
{
    if blank(spec) {
        None
    } else {
        Some(tokens(spec))
    }
}

/// The first word that is no number, if any is not.
pub open spec fn first_bad(words: Seq<Seq<char>>, numbers: Seq<Option<F64Bits>>, n: nat) -> Option<
    Seq<char>,
>
    decreases n,
{
    if n == 0 {
        None
    } else if first_bad(words, numbers, (n - 1) as nat) is Some {
        first_bad(words, numbers, (n - 1) as nat)
    } else if numbers[n - 1] is None {
        Some(words[n - 1])
    } else {
        None
    }
}

proof fn lemma_bad_number_stays(
    words: Seq<Seq<char>>,
    numbers: Seq<Option<F64Bits>>,
    n: nat,
    m: nat,
)
    requires
        n <= m,
        first_bad(words, numbers, n) is Some,
    ensures
        first_bad(words, numbers, m) == first_bad(words, numbers, n),
    decreases m,
{
    if n < m {
        lemma_bad_number_stays(words, numbers, n, (m - 1) as nat);
    }
}

/// The text for a word that is no number.
pub open spec fn not_a_number_text(word: Seq<char>) -> Seq<char> {
    "--base-optical: not a number: "@ + debug_text(word)
}

/// The text for an extrinsic without seven numbers.
pub open spec fn seven_numbers_text(spec: Seq<char>, count: nat) -> Seq<char> {
    "--base-optical needs 7 numbers 'x y z qx qy qz qw', got "@ + decimal_text(count) + ": '"@
        + spec + "'"@
}

/// The extrinsic that seven words spell, given the number of each word that spells one: position,
/// then quaternion.
pub fn parse_base_optical(spec: &str, words: &[String], numbers: &[Option<F64Bits>]) -> (r:
    Result<Pose7, String>)
    requires
        numbers@.len() == words@.len(),
    ensures
        ({
            let bad = first_bad(texts(words@), numbers@, numbers@.len());
            match r {
                Ok(pose) => bad is None && numbers@.len() == 7 && forall|i: int|
                    0 <= i < 7 ==> Some(#[trigger] pose@[i]) == numbers@[i],
                Err(text) => if bad is Some {
                    text@ == not_a_number_text(bad->0)
                } else {
                    numbers@.len() != 7 && text@ == seven_numbers_text(spec@, numbers@.len())
                },
            }
        }),
{
    let mut values: Vec<F64Bits> = Vec::new();
    let mut n: usize = 0;
    while n < numbers.len()
        invariant
            n <= numbers@.len(),
            numbers@.len() == words@.len(),
            first_bad(texts(words@), numbers@, n as nat) is None,
            values@.len() == n,
            forall|i: int| 0 <= i < n ==> Some(#[trigger] values@[i]) == numbers@[i],
        decreases numbers.len() - n,
    {
        match numbers[n] {
            Some(v) => {
                values.push(v);
            },
            None => {
                proof {
                    assert(texts(words@)[n as int] == words@[n as int]@);
                    lemma_bad_number_stays(
                        texts(words@),
                        numbers@,
                        (n + 1) as nat,
                        numbers@.len(),
                    );
                }
                let mut text = "--base-optical: not a number: ".to_owned();
                text.append(quoted(words[n].as_str()).as_str());
                return Err(text);
            },
        }
        n = n + 1;
    }
    if values.len() != 7 {
        let mut text = "--base-optical needs 7 numbers 'x y z qx qy qz qw', got ".to_owned();
        text.append(decimal(values.len() as u64).as_str());
        text.append(": '");
        text.append(spec);
        text.append("'");
        return Err(text);
    }
    Ok([values[0], values[1], values[2], values[3], values[4], values[5], values[6]])
}

/// The text for an extrinsic that the tf tree does not give.
pub fn unresolved_extrinsic(body_frame: &str, optical_frame: &str, error: &str) -> (out: String)
    ensures
        out@ == "cannot resolve the camera extrinsic '"@ + body_frame@ + "' <- '"@ + optical_frame@
            + "' from the tf tree; pass --base-optical 'x y z qx qy qz qw' for this rig. ("@
            + error@ + ")"@,
{
    let mut out = "cannot resolve the camera extrinsic '".to_owned();
    out.append(body_frame);
    out.append("' <- '");
    out.append(optical_frame);
    out.append("' from the tf tree; pass --base-optical 'x y z qx qy qz qw' for this rig. (");
    out.append(error);
    out.append(")");
    out
}

/// The optical frame in which tags are seen: that of the camera's intrinsics, or the one asked
/// for where there are none or they name none.
pub fn camera_frame(info_frame: &Option<String>, tag_frame: &str) -> (frame: String)
    ensures
        frame@ == (match info_frame {
            Some(f) => if f@.len() > 0 {
                f@
            } else {
                tag_frame@
            },
            None => tag_frame@,
        }),
{
    match info_frame {
        Some(f) => {
            if f.as_str().is_empty() {
                tag_frame.to_owned()
            } else {
                f.clone()
            }
        },
        None => tag_frame.to_owned(),
    }
}

// ---- the middle of a run ----

/// The values by size.
pub open spec fn sorted_values(values: Seq<F64Bits>) -> Seq<(SortKey, F64Bits)> {
    stable_order(values.map_values(|v: F64Bits| (single_key(ordinal(v)), v)))
}

/// The value in the middle, or the two values next to the middle.
#[derive(Clone, Copy, PartialEq, Eq, Structural, Debug)]
pub enum Middle {
    One(F64Bits),
    Two(F64Bits, F64Bits),
}

/// The middle of the values by size.
pub open spec fn middle_of(values: Seq<F64Bits>) -> Middle {
    let sorted = sorted_values(values);
    let half = values.len() / 2;
    if values.len() % 2 == 1 {
        Middle::One(sorted[half as int].1)
    } else {
        Middle::Two(sorted[half - 1].1, sorted[half as int].1)
    }
}

/// What the median of the values is computed from.
pub fn median(values: &[F64Bits]) -> (r: Middle)
    requires
        values@.len() > 0,
        forall|i: int| 0 <= i < values@.len() ==> !is_nan(#[trigger] values@[i]),
    ensures
        r == middle_of(values@),
{
    let ghost all = values@.map_values(|v: F64Bits| (single_key(ordinal(v)), v));
    let mut keyed: Vec<(SortKey, F64Bits)> = Vec::with_capacity(values.len());
    let mut i: usize = 0;
    assert(keyed@ =~= all.take(0));
    while i < values.len()
        invariant
            i <= values@.len(),
            all == values@.map_values(|v: F64Bits| (single_key(ordinal(v)), v)),
            keyed@ == all.take(i as int),
        decreases values.len() - i,
    {
        let v: F64Bits = values[i];
        keyed.push((SortKey { first: numeric_key(v), second: 0, third: 0 }, v));
        i = i + 1;
        assert(keyed@ =~= all.take(i as int));
    }
    assert(keyed@ =~= all);
    let sorted = stable_sort(&keyed);
    proof {
        lemma_stable_order_sorts(all);
    }
    let half: usize = values.len() / 2;
    if values.len() % 2 == 1 {
        Middle::One(sorted[half].1)
    } else {
        Middle::Two(sorted[half - 1].1, sorted[half].1)
    }
}

/// Whether there is a value and all are numbers.
pub fn has_median(values: &[F64Bits]) -> (r: bool)
    ensures
        r == (values@.len() > 0 && forall|i: int|
            0 <= i < values@.len() ==> !is_nan(#[trigger] values@[i])),
{
    let mut i: usize = 0;
    while i < values.len()
        invariant
            i <= values@.len(),
            forall|k: int| 0 <= k < i ==> !is_nan(#[trigger] values@[k]),
        decreases values.len() - i,
    {
        if nan(values[i]) {
            assert(is_nan(values@[i as int]));
            return false;
        }
        i = i + 1;
    }
    values.len() > 0
}

// ---- the stages ----

/// What a run is asked to do.
#[derive(Clone, Copy, PartialEq, Eq, Structural, Debug)]
pub struct RunOptions {
    pub write_odom: bool,
    pub write_lidar: bool,
    pub icp: bool,
    pub lcm: bool,
    pub rrd: bool,
    pub accum: bool,
}

/// What a run has found out: how many loop closures were accepted, and whether the recording has
/// corrected odometry once the clouds are written.
#[derive(Clone, Copy, PartialEq, Eq, Structural, Debug)]
pub struct RunFacts {
    pub accepted: usize,
    pub corrected_odom: bool,
}

/// The stages of a run from the first solve on.
#[derive(Clone, Copy, PartialEq, Eq, Structural, Debug)]
pub enum Stage {
    /// Solve the graph of odometry and tags.
    SolveTags,
    /// Read the scans.
    ReadScans,
    /// Look for loop closures.
    FindClosures,
    /// Solve the graph again, with the closures.
    SolveAgain,
    /// Write the corrections and the pose graph.
    WriteGraph,
    /// Write the corrected odometry.
    WriteOdom,
    /// Write the corrected clouds.
    WriteLidar,
    /// Accumulate the scans as they were recorded.
    AccumulateRaw,
    /// Accumulate the corrected clouds.
    AccumulateCorrected,
    /// Say that there is no corrected odometry to accumulate with.
    WarnUncorrected,
    /// Build the comparison scene.
    Compare,
    /// There is nothing left to do.
    Done,
}

/// How far a run has come.
pub open spec fn stage_rank(stage: Stage) -> nat {
    match stage {
        Stage::SolveTags => 0,
        Stage::ReadScans => 1,
        Stage::FindClosures => 2,
        Stage::SolveAgain => 3,
        Stage::WriteGraph => 4,
        Stage::WriteOdom => 5,
        Stage::WriteLidar => 6,
        Stage::AccumulateRaw => 7,
        Stage::AccumulateCorrected => 8,
        Stage::WarnUncorrected => 8,
        Stage::Compare => 9,
        Stage::Done => 10,
    }
}

/// The stage after the clouds have been dealt with.
pub open spec fn after_clouds(options: RunOptions) -> Stage {
    if options.rrd {
        Stage::Compare
    } else {
        Stage::Done
    }
}

/// The stage after the odometry has been dealt with.
pub open spec fn after_odom(options: RunOptions) -> Stage {
    if options.write_lidar {
        Stage::WriteLidar
    } else {
        Stage::Done
    }
}

/// The stage that follows another.
pub open spec fn stage_after(stage: Stage, options: RunOptions, facts: RunFacts) -> Stage {
    match stage {
        Stage::SolveTags => if options.icp || options.write_lidar {
            Stage::ReadScans
        } else {
            Stage::WriteGraph
        },
        Stage::ReadScans => if options.icp {
            Stage::FindClosures
        } else {
            Stage::WriteGraph
        },
        Stage::FindClosures => if facts.accepted > 0 {
            Stage::SolveAgain
        } else {
            Stage::WriteGraph
        },
        Stage::SolveAgain => Stage::WriteGraph,
        Stage::WriteGraph => if options.write_odom {
            Stage::WriteOdom
        } else {
            after_odom(options)
        },
        Stage::WriteOdom => after_odom(options),
        Stage::WriteLidar => if options.accum {
            Stage::AccumulateRaw
        } else {
            after_clouds(options)
        },
        Stage::AccumulateRaw => if facts.corrected_odom {
            Stage::AccumulateCorrected
        } else {
            Stage::WarnUncorrected
        },
        Stage::AccumulateCorrected => after_clouds(options),
        Stage::WarnUncorrected => after_clouds(options),
        Stage::Compare => Stage::Done,
        Stage::Done => Stage::Done,
    }
}

/// The stage that follows another.
pub fn next_stage(stage: Stage, options: RunOptions, facts: RunFacts) -> (next: Stage)
    ensures
        next == stage_after(stage, options, facts),
{
    let behind_clouds = if options.rrd {
        Stage::Compare
    } else {
        Stage::Done
    };
    let behind_odom = if options.write_lidar {
        Stage::WriteLidar
    } else {
        Stage::Done
    };
    match stage {
        Stage::SolveTags => if options.icp || options.write_lidar {
            Stage::ReadScans
        } else {
            Stage::WriteGraph
        },
        Stage::ReadScans => if options.icp {
            Stage::FindClosures
        } else {
            Stage::WriteGraph
        },
        Stage::FindClosures => if facts.accepted > 0 {
            Stage::SolveAgain
        } else {
            Stage::WriteGraph
        },
        Stage::SolveAgain => Stage::WriteGraph,
        Stage::WriteGraph => if options.write_odom {
            Stage::WriteOdom
        } else {
            behind_odom
        },
        Stage::WriteOdom => behind_odom,
        Stage::WriteLidar => if options.accum {
            Stage::AccumulateRaw
        } else {
            behind_clouds
        },
        Stage::AccumulateRaw => if facts.corrected_odom {
            Stage::AccumulateCorrected
        } else {
            Stage::WarnUncorrected
        },
        Stage::AccumulateCorrected => behind_clouds,
        Stage::WarnUncorrected => behind_clouds,
        Stage::Compare => Stage::Done,
        Stage::Done => Stage::Done,
    }
}

/// The stages that a run goes through from a stage on.
pub open spec fn stages_from(stage: Stage, options: RunOptions, facts: RunFacts) -> Seq<Stage>
    decreases 10 - stage_rank(stage),
{
    if stage == Stage::Done {
        seq![Stage::Done]
    } else {
        seq![stage] + stages_from(stage_after(stage, options, facts), options, facts)
    }
}

/// A run ends, goes through no stage twice, and does what it is asked to: closures are looked for
/// unless they are switched off, and the graph is solved again only where some were accepted; odometry,
/// clouds, accumulated clouds and the comparison are written exactly where they are asked for, and
/// what builds on the clouds only where the clouds are written.
pub proof fn lemma_run_does_what_is_asked(options: RunOptions, facts: RunFacts)
    ensures
        ({
            let run = stages_from(Stage::SolveTags, options, facts);
            let scans = options.write_lidar && options.accum;
            &&& run.last() == Stage::Done
            &&& forall|i: int, j: int|
                0 <= i < j < run.len() ==> stage_rank(#[trigger] run[i]) < stage_rank(
                    #[trigger] run[j],
                )
            &&& run.contains(Stage::WriteGraph)
            &&& run.contains(Stage::ReadScans) == (options.icp || options.write_lidar)
            &&& run.contains(Stage::FindClosures) == options.icp
            &&& run.contains(Stage::SolveAgain) == (options.icp && facts.accepted > 0)
            &&& run.contains(Stage::WriteOdom) == options.write_odom
            &&& run.contains(Stage::WriteLidar) == options.write_lidar
            &&& run.contains(Stage::AccumulateRaw) == scans
            &&& run.contains(Stage::AccumulateCorrected) == (scans && facts.corrected_odom)
            &&& run.contains(Stage::WarnUncorrected) == (scans && !facts.corrected_odom)
            &&& run.contains(Stage::Compare) == (options.write_lidar && options.rrd)
        }),
{
    lemma_stages_from(Stage::SolveTags, options, facts);
    lemma_visits(Stage::SolveTags, Stage::WriteGraph, options, facts);
    lemma_visits(Stage::SolveTags, Stage::ReadScans, options, facts);
    lemma_visits(Stage::SolveTags, Stage::FindClosures, options, facts);
    lemma_visits(Stage::SolveTags, Stage::SolveAgain, options, facts);
    lemma_visits(Stage::SolveTags, Stage::WriteOdom, options, facts);
    lemma_visits(Stage::SolveTags, Stage::WriteLidar, options, facts);
    lemma_visits(Stage::SolveTags, Stage::AccumulateRaw, options, facts);
    lemma_visits(Stage::SolveTags, Stage::AccumulateCorrected, options, facts);
    lemma_visits(Stage::SolveTags, Stage::WarnUncorrected, options, facts);
    lemma_visits(Stage::SolveTags, Stage::Compare, options, facts);
}

/// Whether a run that is at a stage goes, from there on, through the stage `goal`.
pub open spec fn leads_to(stage: Stage, goal: Stage, options: RunOptions, facts: RunFacts) -> bool {
    let clouds = options.write_lidar || stage_rank(stage) > stage_rank(Stage::WriteOdom);
    let scans = clouds && options.accum;
    if stage == goal {
        true
    } else if stage_rank(goal) <= stage_rank(stage) {
        false
    } else {
        match goal {
            Stage::SolveTags => false,
            Stage::ReadScans => options.icp || options.write_lidar,
            Stage::FindClosures => options.icp,
            Stage::SolveAgain => (options.icp || stage == Stage::FindClosures) && facts.accepted
                > 0,
            Stage::WriteGraph => true,
            Stage::WriteOdom => options.write_odom,
            Stage::WriteLidar => options.write_lidar,
            Stage::AccumulateRaw => scans,
            Stage::AccumulateCorrected => (scans || stage == Stage::AccumulateRaw)
                && facts.corrected_odom,
            Stage::WarnUncorrected => (scans || stage == Stage::AccumulateRaw)
                && !facts.corrected_odom,
            Stage::Compare => clouds && options.rrd,
            Stage::Done => true,
        }
    }
}

proof fn lemma_visits(stage: Stage, goal: Stage, options: RunOptions, facts: RunFacts)
    ensures
        stages_from(stage, options, facts).contains(goal) == leads_to(stage, goal, options, facts),
    decreases 10 - stage_rank(stage),
{
    let run = stages_from(stage, options, facts);
    if stage == Stage::Done {
        assert(run[0] == Stage::Done);
    } else {
        let next = stage_after(stage, options, facts);
        lemma_visits(next, goal, options, facts);
        let rest = stages_from(next, options, facts);
        assert(run[0] == stage);
        if rest.contains(goal) {
            let i = choose|i: int| 0 <= i < rest.len() && rest[i] == goal;
            assert(run[i + 1] == goal);
        }
        if run.contains(goal) && goal != stage {
            let i = choose|i: int| 0 <= i < run.len() && run[i] == goal;
            assert(rest[i - 1] == goal);
        }
    }
}

proof fn lemma_stages_from(stage: Stage, options: RunOptions, facts: RunFacts)
    ensures
        ({
            let run = stages_from(stage, options, facts);
            &&& run.len() > 0
            &&& run[0] == stage
            &&& run.last() == Stage::Done
            &&& forall|i: int, j: int|
                0 <= i < j < run.len() ==> stage_rank(#[trigger] run[i]) < stage_rank(
                    #[trigger] run[j],
                )
        }),
    decreases 10 - stage_rank(stage),
{
    if stage != Stage::Done {
        let next = stage_after(stage, options, facts);
        lemma_stages_from(next, options, facts);
        let rest = stages_from(next, options, facts);
        let run = stages_from(stage, options, facts);
        assert forall|i: int, j: int| 0 <= i < j < run.len() implies stage_rank(#[trigger] run[i])
            < stage_rank(#[trigger] run[j]) by {
            assert(run[j] == rest[j - 1]);
            if i > 0 {
                assert(run[i] == rest[i - 1]);
            } else if j > 1 {
                assert(stage_rank(rest[0]) < stage_rank(rest[j - 1]));
            }
        }
    }
}

// ---- what is written ----

/// The name of a corrected stream.
pub open spec fn corrected_text(
    stream: Seq<char>,
    corrected_suffix: Seq<char>,
    suffix: Seq<char>,
) -> Seq<char> {
    stream + corrected_suffix + suffix
}

/// The name of a corrected stream.
pub fn corrected_name(stream: &str, corrected_suffix: &str, suffix: &str) -> (out: String)
    ensures
        out@ == corrected_text(stream@, corrected_suffix@, suffix@),
{
    let mut out = stream.to_owned();
    out.append(corrected_suffix);
    out.append(suffix);
    out
}

/// Unless both suffixes are empty, a corrected stream has another name than the stream that it
/// was made from, which is not written to.
pub proof fn lemma_corrected_name_is_new(
    stream: Seq<char>,
    corrected_suffix: Seq<char>,
    suffix: Seq<char>,
)
    requires
        corrected_suffix.len() + suffix.len() > 0,
    ensures
        corrected_text(stream, corrected_suffix, suffix) != stream,
{
    assert(corrected_text(stream, corrected_suffix, suffix).len() > stream.len());
}

/// What a run writes, by name.
pub struct Outputs {
    pub nodes: String,
    pub graph: String,
    pub odom: String,
    pub lidar: String,
    /// The file beside the recording with the clouds in one, where it is asked for.
    pub lcm_file: Option<String>,
}

/// What a run writes, by name.
pub fn output_names(
    odom_stream: &str,
    lidar_stream: &str,
    corrected_suffix: &str,
    suffix: &str,
    options: RunOptions,
) -> (out: Outputs)
    ensures
        out.nodes@ == corrected_text("tf_deformation_nodes"@, corrected_suffix@, suffix@),
        out.graph@ == "pose_graph"@ + suffix@,
        out.odom@ == corrected_text(odom_stream@, corrected_suffix@, suffix@),
        out.lidar@ == corrected_text(lidar_stream@, corrected_suffix@, suffix@),
        out.lcm_file is Some <==> options.lcm,
        out.lcm_file matches Some(file) ==> file@ == out.lidar@ + ".pc2.lcm"@,
{
    let mut graph = "pose_graph".to_owned();
    graph.append(suffix);
    let lidar = corrected_name(lidar_stream, corrected_suffix, suffix);
    let lcm_file = if options.lcm {
        let mut file = lidar.clone();
        file.append(".pc2.lcm");
        Some(file)
    } else {
        None
    };
    Outputs {
        nodes: corrected_name("tf_deformation_nodes", corrected_suffix, suffix),
        graph,
        odom: corrected_name(odom_stream, corrected_suffix, suffix),
        lidar,
        lcm_file,
    }
}

/// The streams that a run writes: the corrected ones, the graph, the accumulated clouds, the tags,
/// and those that a recording is converted into.
pub open spec fn derived_names(
    odom_stream: Seq<char>,
    lidar_stream: Seq<char>,
    tags: Seq<char>,
    corrected_suffix: Seq<char>,
    suffix: Seq<char>,
    converted: bool,
) -> Seq<Seq<char>> {
    let lidar = corrected_text(lidar_stream, corrected_suffix, suffix);
    seq![
        corrected_text("tf_deformation_nodes"@, corrected_suffix, suffix),
        "pose_graph"@ + suffix,
        corrected_text(odom_stream, corrected_suffix, suffix),
        lidar,
        lidar_stream + "_accumulated"@,
        lidar + "_accumulated"@,
        tags,
    ] + if converted {
        seq!["l1_cloud"@, "go2_odometry"@, "tf"@]
    } else {
        Seq::empty()
    }
}

/// The streams that a run writes. It drops and creates no other.
pub fn derived_streams(
    odom_stream: &str,
    lidar_stream: &str,
    tags: &str,
    corrected_suffix: &str,
    suffix: &str,
    converted: bool,
) -> (names: Vec<String>)
    ensures
        texts(names@) == derived_names(
            odom_stream@,
            lidar_stream@,
            tags@,
            corrected_suffix@,
            suffix@,
            converted,
        ),
{
    let mut graph = "pose_graph".to_owned();
    graph.append(suffix);
    let lidar = corrected_name(lidar_stream, corrected_suffix, suffix);
    let mut names: Vec<String> = Vec::new();
    names.push(corrected_name("tf_deformation_nodes", corrected_suffix, suffix));
    names.push(graph);
    names.push(corrected_name(odom_stream, corrected_suffix, suffix));
    names.push(lidar.clone());
    names.push(accumulated_name(lidar_stream));
    names.push(accumulated_name(lidar.as_str()));
    names.push(tags.to_owned());
    if converted {
        names.push("l1_cloud".to_owned());
        names.push("go2_odometry".to_owned());
        names.push("tf".to_owned());
    }
    assert(texts(names@) =~= derived_names(
        odom_stream@,
        lidar_stream@,
        tags@,
        corrected_suffix@,
        suffix@,
        converted,
    ));
    names
}

/// The streams that a stage writes.
pub open spec fn stage_names(
    stage: Stage,
    odom_stream: Seq<char>,
    lidar_stream: Seq<char>,
    corrected_suffix: Seq<char>,
    suffix: Seq<char>,
) -> Seq<Seq<char>> {
    let lidar = corrected_text(lidar_stream, corrected_suffix, suffix);
    match stage {
        Stage::WriteGraph => seq![
            corrected_text("tf_deformation_nodes"@, corrected_suffix, suffix),
            "pose_graph"@ + suffix,
        ],
        Stage::WriteOdom => seq![corrected_text(odom_stream, corrected_suffix, suffix)],
        Stage::WriteLidar => seq![lidar],
        Stage::AccumulateRaw => seq![lidar_stream + "_accumulated"@],
        Stage::AccumulateCorrected => seq![lidar + "_accumulated"@],
        _ => Seq::empty(),
    }
}

/// The streams that a stage writes.
pub fn stage_outputs(
    stage: Stage,
    odom_stream: &str,
    lidar_stream: &str,
    corrected_suffix: &str,
    suffix: &str,
) -> (names: Vec<String>)
    ensures
        texts(names@) == stage_names(
            stage,
            odom_stream@,
            lidar_stream@,
            corrected_suffix@,
            suffix@,
        ),
{
    let mut names: Vec<String> = Vec::new();
    match stage {
        Stage::WriteGraph => {
            let mut graph = "pose_graph".to_owned();
            graph.append(suffix);
            names.push(corrected_name("tf_deformation_nodes", corrected_suffix, suffix));
            names.push(graph);
        },
        Stage::WriteOdom => {
            names.push(corrected_name(odom_stream, corrected_suffix, suffix));
        },
        Stage::WriteLidar => {
            names.push(corrected_name(lidar_stream, corrected_suffix, suffix));
        },
        Stage::AccumulateRaw => {
            names.push(accumulated_name(lidar_stream));
        },
        Stage::AccumulateCorrected => {
            let lidar = corrected_name(lidar_stream, corrected_suffix, suffix);
            names.push(accumulated_name(lidar.as_str()));
        },
        _ => {},
    }
    assert(texts(names@) =~= stage_names(
        stage,
        odom_stream@,
        lidar_stream@,
        corrected_suffix@,
        suffix@,
    ));
    names
}

/// Whatever a stage writes is among the streams that a run derives.
pub proof fn lemma_stages_write_derived_streams(
    stage: Stage,
    odom_stream: Seq<char>,
    lidar_stream: Seq<char>,
    tags: Seq<char>,
    corrected_suffix: Seq<char>,
    suffix: Seq<char>,
    converted: bool,
    name: Seq<char>,
)
    requires
        stage_names(stage, odom_stream, lidar_stream, corrected_suffix, suffix).contains(name),
    ensures
        derived_names(
            odom_stream,
            lidar_stream,
            tags,
            corrected_suffix,
            suffix,
            converted,
        ).contains(name),
{
    let all = derived_names(odom_stream, lidar_stream, tags, corrected_suffix, suffix, converted);
    let some = stage_names(stage, odom_stream, lidar_stream, corrected_suffix, suffix);
    let i = choose|i: int| 0 <= i < some.len() && some[i] == name;
    assert(all[0] == name || all[1] == name || all[2] == name || all[3] == name || all[4] == name
        || all[5] == name);
}

/// The streams that a run reads stay as they are, whatever they are called, unless one has the very
/// name of another stream that the run writes.
pub proof fn lemma_chosen_streams_are_not_written(
    odom_stream: Seq<char>,
    lidar_stream: Seq<char>,
    tags: Seq<char>,
    corrected_suffix: Seq<char>,
    suffix: Seq<char>,
)
    requires
        corrected_suffix.len() + suffix.len() > 0,
    ensures
        ({
            let written = derived_names(
                odom_stream,
                lidar_stream,
                tags,
                corrected_suffix,
                suffix,
                false,
            );
            let nodes = corrected_text("tf_deformation_nodes"@, corrected_suffix, suffix);
            let graph = "pose_graph"@ + suffix;
            let odom = corrected_text(odom_stream, corrected_suffix, suffix);
            let lidar = corrected_text(lidar_stream, corrected_suffix, suffix);
            &&& written.contains(odom_stream) <==> odom_stream == nodes || odom_stream == graph
                || odom_stream == lidar || odom_stream == lidar_stream + "_accumulated"@
                || odom_stream == lidar + "_accumulated"@ || odom_stream == tags
            &&& written.contains(lidar_stream) <==> lidar_stream == nodes || lidar_stream == graph
                || lidar_stream == odom || lidar_stream == tags
        }),
{
    let all = derived_names(odom_stream, lidar_stream, tags, corrected_suffix, suffix, false);
    let lidar = corrected_text(lidar_stream, corrected_suffix, suffix);
    reveal_strlit("_accumulated");
    lemma_corrected_name_is_new(odom_stream, corrected_suffix, suffix);
    lemma_corrected_name_is_new(lidar_stream, corrected_suffix, suffix);
    assert(all.len() == 7);
    assert(all[2] != odom_stream && all[3] != lidar_stream);
    assert((lidar_stream + "_accumulated"@).len() > lidar_stream.len());
    assert((lidar + "_accumulated"@).len() > lidar_stream.len());
    if all.contains(odom_stream) {
        let i = choose|i: int| 0 <= i < all.len() && all[i] == odom_stream;
        assert(i == 0 || i == 1 || i == 2 || i == 3 || i == 4 || i == 5 || i == 6);
    }
    if all.contains(lidar_stream) {
        let i = choose|i: int| 0 <= i < all.len() && all[i] == lidar_stream;
        assert(i == 0 || i == 1 || i == 2 || i == 3 || i == 4 || i == 5 || i == 6);
    }
    assert(all[0] == odom_stream || all[1] == odom_stream || all[3] == odom_stream || all[4]
        == odom_stream || all[5] == odom_stream || all[6] == odom_stream ==> all.contains(
        odom_stream,
    ));
    assert(all[0] == lidar_stream || all[1] == lidar_stream || all[2] == lidar_stream || all[6]
        == lidar_stream ==> all.contains(lidar_stream));
}

/// A name under which recordings keep odometry or clouds.
pub open spec fn is_recorded_name(name: Seq<char>) -> bool {
    known_odometry().contains(name) || exists|odom: Seq<char>| #[trigger]
        lidars_for(odom).contains(name)
}

/// The suffixes start with an underscore and another letter than `o` and `l`, as `_corrected`
/// does.
pub open spec fn sets_apart(corrected_suffix: Seq<char>, suffix: Seq<char>) -> bool {
    let ending = corrected_suffix + suffix;
    ending.len() >= 2 && ending[0] == '_' && ending[1] != 'o' && ending[1] != 'l'
}

spec fn before_o_or_l(name: Seq<char>, i: int) -> bool {
    i + 1 < name.len() && (name[i + 1] == 'o' || name[i + 1] == 'l')
}

/// Every underscore of the name stands before an `o` or an `l`.
spec fn is_plain_name(name: Seq<char>) -> bool {
    forall|i: int|
        0 <= i < name.len() && #[trigger] name[i] == '_' ==> before_o_or_l(name, i)
}

proof fn lemma_plain_names()
    ensures
        is_plain_name("pointlio_odometry"@),
        is_plain_name("fastlio_odometry"@),
        is_plain_name("go2_odom"@),
        is_plain_name("odom"@),
        is_plain_name("pointlio_lidar"@),
        is_plain_name("fastlio_lidar"@),
        is_plain_name("go2_lidar"@),
        is_plain_name("l1_lidar"@),
        is_plain_name("lidar"@),
{
    reveal_strlit("pointlio_odometry");
    assert forall|i: int|
        0 <= i < "pointlio_odometry"@.len() && "pointlio_odometry"@[i] == '_' implies before_o_or_l("pointlio_odometry"@, i) by {
        assert(i == 0 || i == 1 || i == 2 || i == 3 || i == 4 || i == 5 || i == 6 || i == 7 || i == 8 || i == 9 || i == 10 || i == 11 || i == 12 || i == 13 || i == 14 || i == 15 || i == 16);
    }
    reveal_strlit("fastlio_odometry");
    assert forall|i: int|
        0 <= i < "fastlio_odometry"@.len() && "fastlio_odometry"@[i] == '_' implies before_o_or_l("fastlio_odometry"@, i) by {
        assert(i == 0 || i == 1 || i == 2 || i == 3 || i == 4 || i == 5 || i == 6 || i == 7 || i == 8 || i == 9 || i == 10 || i == 11 || i == 12 || i == 13 || i == 14 || i == 15);
    }
    reveal_strlit("go2_odom");
    assert forall|i: int|
        0 <= i < "go2_odom"@.len() && "go2_odom"@[i] == '_' implies before_o_or_l("go2_odom"@, i) by {
        assert(i == 0 || i == 1 || i == 2 || i == 3 || i == 4 || i == 5 || i == 6 || i == 7);
    }
    reveal_strlit("odom");
    assert forall|i: int|
        0 <= i < "odom"@.len() && "odom"@[i] == '_' implies before_o_or_l("odom"@, i) by {
        assert(i == 0 || i == 1 || i == 2 || i == 3);
    }
    reveal_strlit("pointlio_lidar");
    assert forall|i: int|
        0 <= i < "pointlio_lidar"@.len() && "pointlio_lidar"@[i] == '_' implies before_o_or_l("pointlio_lidar"@, i) by {
        assert(i == 0 || i == 1 || i == 2 || i == 3 || i == 4 || i == 5 || i == 6 || i == 7 || i == 8 || i == 9 || i == 10 || i == 11 || i == 12 || i == 13);
    }
    reveal_strlit("fastlio_lidar");
    assert forall|i: int|
        0 <= i < "fastlio_lidar"@.len() && "fastlio_lidar"@[i] == '_' implies before_o_or_l("fastlio_lidar"@, i) by {
        assert(i == 0 || i == 1 || i == 2 || i == 3 || i == 4 || i == 5 || i == 6 || i == 7 || i == 8 || i == 9 || i == 10 || i == 11 || i == 12);
    }
    reveal_strlit("go2_lidar");
    assert forall|i: int|
        0 <= i < "go2_lidar"@.len() && "go2_lidar"@[i] == '_' implies before_o_or_l("go2_lidar"@, i) by {
        assert(i == 0 || i == 1 || i == 2 || i == 3 || i == 4 || i == 5 || i == 6 || i == 7 || i == 8);
    }
    reveal_strlit("l1_lidar");
    assert forall|i: int|
        0 <= i < "l1_lidar"@.len() && "l1_lidar"@[i] == '_' implies before_o_or_l("l1_lidar"@, i) by {
        assert(i == 0 || i == 1 || i == 2 || i == 3 || i == 4 || i == 5 || i == 6 || i == 7);
    }
    reveal_strlit("lidar");
    assert forall|i: int|
        0 <= i < "lidar"@.len() && "lidar"@[i] == '_' implies before_o_or_l("lidar"@, i) by {
        assert(i == 0 || i == 1 || i == 2 || i == 3 || i == 4);
    }
}

proof fn lemma_recorded_name(name: Seq<char>)
    requires
        is_recorded_name(name),
    ensures
        is_plain_name(name),
        name.len() != 12,
        name.len() != 2,
{
    lemma_plain_names();
    reveal_strlit("pointlio_odometry");
    reveal_strlit("fastlio_odometry");
    reveal_strlit("go2_odom");
    reveal_strlit("odom");
    reveal_strlit("pointlio_lidar");
    reveal_strlit("fastlio_lidar");
    reveal_strlit("go2_lidar");
    reveal_strlit("l1_lidar");
    reveal_strlit("lidar");
    if known_odometry().contains(name) {
        let i = choose|i: int| 0 <= i < known_odometry().len() && known_odometry()[i] == name;
        assert(i == 0 || i == 1 || i == 2 || i == 3);
    } else {
        let odom = choose|odom: Seq<char>| #[trigger] lidars_for(odom).contains(name);
        let i = choose|i: int| 0 <= i < lidars_for(odom).len() && lidars_for(odom)[i] == name;
        assert(i == 0 || i == 1 || i == 2);
    }
}

proof fn lemma_set_apart(name: Seq<char>, stem: Seq<char>, ending: Seq<char>)
    requires
        is_plain_name(name),
        ending.len() >= 2,
        ending[0] == '_',
        ending[1] != 'o',
        ending[1] != 'l',
    ensures
        name != stem + ending,
{
    if name == stem + ending {
        let i = stem.len() as int;
        assert(name[i] == '_');
        assert(before_o_or_l(name, i));
        assert(name[i + 1] == ending[1]);
    }
}

/// The recording itself is not written: whatever a run writes has another name than the streams
/// in which recordings keep odometry and clouds, where the tags do not take one of those names;
/// and the transforms stay as they are unless the recording is converted.
pub proof fn lemma_only_derived_streams_are_written(
    odom_stream: Seq<char>,
    lidar_stream: Seq<char>,
    tags: Seq<char>,
    corrected_suffix: Seq<char>,
    suffix: Seq<char>,
    converted: bool,
    name: Seq<char>,
)
    requires
        sets_apart(corrected_suffix, suffix),
        tags != "tf"@,
        !is_recorded_name(tags),
        is_recorded_name(name) || name == "tf"@ && !converted,
    ensures
        !derived_names(
            odom_stream,
            lidar_stream,
            tags,
            corrected_suffix,
            suffix,
            converted,
        ).contains(name),
{
    let all = derived_names(odom_stream, lidar_stream, tags, corrected_suffix, suffix, converted);
    let ending = corrected_suffix + suffix;
    reveal_strlit("tf");
    reveal_strlit("pose_graph");
    reveal_strlit("_accumulated");
    reveal_strlit("l1_cloud");
    reveal_strlit("go2_odometry");
    if is_recorded_name(name) {
        lemma_recorded_name(name);
    } else {
        assert forall|i: int|
            0 <= i < name.len() && #[trigger] name[i] == '_' implies before_o_or_l(name, i) by {
            assert(i == 0 || i == 1);
        }
    }
    if all.contains(name) {
        let i = choose|i: int| 0 <= i < all.len() && all[i] == name;
        let lidar = corrected_text(lidar_stream, corrected_suffix, suffix);
        assert("pose_graph"@ + suffix =~= "pose_graph"@.take(4) + ("pose_graph"@.skip(4) + suffix));
        assert("l1_cloud"@ =~= "l1_cloud"@.take(2) + "l1_cloud"@.skip(2));
        assert(corrected_text("tf_deformation_nodes"@, corrected_suffix, suffix)
            =~= "tf_deformation_nodes"@ + ending);
        assert(corrected_text(odom_stream, corrected_suffix, suffix) =~= odom_stream + ending);
        assert(lidar =~= lidar_stream + ending);
        lemma_set_apart(name, "tf_deformation_nodes"@, ending);
        lemma_set_apart(name, "pose_graph"@.take(4), "pose_graph"@.skip(4) + suffix);
        lemma_set_apart(name, odom_stream, ending);
        lemma_set_apart(name, lidar_stream, ending);
        lemma_set_apart(name, lidar_stream, "_accumulated"@);
        lemma_set_apart(name, lidar, "_accumulated"@);
        lemma_set_apart(name, "l1_cloud"@.take(2), "l1_cloud"@.skip(2));
        assert(i == 0 || i == 1 || i == 2 || i == 3 || i == 4 || i == 5 || i == 6 || i == 7 || i
            == 8 || i == 9);
    }
}

proof fn lemma_same_choice(
    names: Seq<Seq<char>>,
    available: Seq<Seq<char>>,
    after: Seq<Seq<char>>,
    fallback: Seq<char>,
)
    requires
        forall|i: int|
            0 <= i < names.len() ==> available.contains(#[trigger] names[i]) == after.contains(
                names[i],
            ),
    ensures
        first_available(names, after, fallback) == first_available(names, available, fallback),
    decreases names.len(),
{
    if names.len() > 0 {
        let rest = names.skip(1);
        assert(available.contains(names[0]) == after.contains(names[0]));
        assert forall|i: int| 0 <= i < rest.len() implies available.contains(#[trigger] rest[i])
            == after.contains(rest[i]) by {
            assert(rest[i] == names[i + 1]);
        }
        lemma_same_choice(rest, available, after, fallback);
    }
}

/// A run can be repeated: once what it derives, or some of it, is listed too, the same odometry and
/// the same clouds are chosen again.
pub proof fn lemma_run_is_repeatable(
    available: Seq<Seq<char>>,
    after: Seq<Seq<char>>,
    odom: Seq<char>,
    lidar: Seq<char>,
    odom_stream: Seq<char>,
    lidar_stream: Seq<char>,
    tags: Seq<char>,
    corrected_suffix: Seq<char>,
    suffix: Seq<char>,
    converted: bool,
)
    requires
        sets_apart(corrected_suffix, suffix),
        tags != "tf"@,
        !is_recorded_name(tags),
        forall|name: Seq<char>| #[trigger] available.contains(name) ==> after.contains(name),
        forall|name: Seq<char>| #[trigger]
            after.contains(name) ==> available.contains(name) || derived_names(
                odom_stream,
                lidar_stream,
                tags,
                corrected_suffix,
                suffix,
                converted,
            ).contains(name),
    ensures
        ({
            let chosen = resolved_odom(available, odom);
            &&& resolved_odom(after, odom) == chosen
            &&& resolved_lidar(after, chosen, lidar) == resolved_lidar(available, chosen, lidar)
        }),
{
    let chosen = resolved_odom(available, odom);
    let clouds = lidars_for(chosen);
    assert forall|i: int| 0 <= i < known_odometry().len() implies available.contains(
        #[trigger] known_odometry()[i],
    ) == after.contains(known_odometry()[i]) by {
        assert(known_odometry().contains(known_odometry()[i]));
        lemma_only_derived_streams_are_written(
            odom_stream,
            lidar_stream,
            tags,
            corrected_suffix,
            suffix,
            converted,
            known_odometry()[i],
        );
    }
    assert forall|i: int| 0 <= i < clouds.len() implies available.contains(#[trigger] clouds[i])
        == after.contains(clouds[i]) by {
        assert(lidars_for(chosen).contains(clouds[i]));
        lemma_only_derived_streams_are_written(
            odom_stream,
            lidar_stream,
            tags,
            corrected_suffix,
            suffix,
            converted,
            clouds[i],
        );
    }
    lemma_same_choice(known_odometry(), available, after, "odom"@);
    lemma_same_choice(clouds, available, after, clouds[0]);
}

// ---- the recording after a run ----

/// A run leaves the rows of every recorded stream as they are: those of odometry and clouds, whichever
/// of them it reads, and those of the transforms unless the recording is converted.
pub proof fn lemma_run_keeps_recorded_rows(
    recording: Map<Seq<char>, Table>,
    edits: Seq<Edit>,
    odom_stream: Seq<char>,
    lidar_stream: Seq<char>,
    tags: Seq<char>,
    corrected_suffix: Seq<char>,
    suffix: Seq<char>,
    converted: bool,
    name: Seq<char>,
)
    requires
        sets_apart(corrected_suffix, suffix),
        tags != "tf"@,
        !is_recorded_name(tags),
        is_recorded_name(name) || name == "tf"@ && !converted,
        is_confined(
            edits,
            derived_names(
                odom_stream,
                lidar_stream,
                tags,
                corrected_suffix,
                suffix,
                converted,
            ),
        ),
    ensures
        after_edits(recording, edits).contains_key(name) == recording.contains_key(name),
        after_edits(recording, edits)[name] == recording[name],
{
    let all = derived_names(odom_stream, lidar_stream, tags, corrected_suffix, suffix, converted);
    lemma_only_derived_streams_are_written(
        odom_stream,
        lidar_stream,
        tags,
        corrected_suffix,
        suffix,
        converted,
        name,
    );
    lemma_other_streams_keep_their_rows(recording, edits, all, name);
}

/// A run leaves the rows of every stream as they are that it does not derive, whatever the stream is
/// called: of the camera, of the transforms, and of the odometry and the clouds that it was told to
/// read.
pub proof fn lemma_run_keeps_other_rows(
    recording: Map<Seq<char>, Table>,
    edits: Seq<Edit>,
    odom_stream: Seq<char>,
    lidar_stream: Seq<char>,
    tags: Seq<char>,
    corrected_suffix: Seq<char>,
    suffix: Seq<char>,
    converted: bool,
    name: Seq<char>,
)
    requires
        is_confined(
            edits,
            derived_names(
                odom_stream,
                lidar_stream,
                tags,
                corrected_suffix,
                suffix,
                converted,
            ),
        ),
        !derived_names(
            odom_stream,
            lidar_stream,
            tags,
            corrected_suffix,
            suffix,
            converted,
        ).contains(name),
    ensures
        after_edits(recording, edits).contains_key(name) == recording.contains_key(name),
        after_edits(recording, edits)[name] == recording[name],
{
    let all = derived_names(odom_stream, lidar_stream, tags, corrected_suffix, suffix, converted);
    lemma_other_streams_keep_their_rows(recording, edits, all, name);
}

/// The streams that some stages write, in turn.
pub open spec fn run_names(
    stages: Seq<Stage>,
    odom_stream: Seq<char>,
    lidar_stream: Seq<char>,
    corrected_suffix: Seq<char>,
    suffix: Seq<char>,
) -> Seq<Seq<char>>
    decreases stages.len(),
{
    if stages.len() == 0 {
        Seq::empty()
    } else {
        run_names(stages.drop_last(), odom_stream, lidar_stream, corrected_suffix, suffix)
            + stage_names(stages.last(), odom_stream, lidar_stream, corrected_suffix, suffix)
    }
}

/// The changes of a run: each of its stages makes its streams anew, and none changes another.
pub open spec fn is_run(
    edits: Seq<Edit>,
    options: RunOptions,
    facts: RunFacts,
    odom_stream: Seq<char>,
    lidar_stream: Seq<char>,
    corrected_suffix: Seq<char>,
    suffix: Seq<char>,
) -> bool {
    let names = run_names(
        stages_from(Stage::SolveTags, options, facts),
        odom_stream,
        lidar_stream,
        corrected_suffix,
        suffix,
    );
    is_confined(edits, names) && are_replaced(edits, names)
}

/// The facts tell whether the recording has corrected odometry once the recorded clouds are
/// accumulated: whether it had it before or the run has written it by then.
pub open spec fn tells_corrected(
    facts: RunFacts,
    recording: Map<Seq<char>, Table>,
    options: RunOptions,
    odom_stream: Seq<char>,
    lidar_stream: Seq<char>,
    corrected_suffix: Seq<char>,
    suffix: Seq<char>,
) -> bool {
    let odom = corrected_text(odom_stream, corrected_suffix, suffix);
    facts.corrected_odom == (recording.contains_key(odom) || options.write_odom || odom
        == corrected_text("tf_deformation_nodes"@, corrected_suffix, suffix) || odom
        == "pose_graph"@ + suffix || odom == corrected_text(lidar_stream, corrected_suffix, suffix)
        || odom == lidar_stream + "_accumulated"@)
}

/// The streams that a run makes anew, by what it is asked to do.
pub open spec fn run_writes(
    name: Seq<char>,
    options: RunOptions,
    facts: RunFacts,
    odom_stream: Seq<char>,
    lidar_stream: Seq<char>,
    corrected_suffix: Seq<char>,
    suffix: Seq<char>,
) -> bool {
    let lidar = corrected_text(lidar_stream, corrected_suffix, suffix);
    let scans = options.write_lidar && options.accum;
    ||| name == corrected_text("tf_deformation_nodes"@, corrected_suffix, suffix)
    ||| name == "pose_graph"@ + suffix
    ||| options.write_odom && name == corrected_text(odom_stream, corrected_suffix, suffix)
    ||| options.write_lidar && name == lidar
    ||| scans && name == lidar_stream + "_accumulated"@
    ||| scans && facts.corrected_odom && name == lidar + "_accumulated"@
}

proof fn lemma_run_names(
    stages: Seq<Stage>,
    odom_stream: Seq<char>,
    lidar_stream: Seq<char>,
    corrected_suffix: Seq<char>,
    suffix: Seq<char>,
    name: Seq<char>,
)
    ensures
        run_names(stages, odom_stream, lidar_stream, corrected_suffix, suffix).contains(name)
            <==> exists|i: int|
            0 <= i < stages.len() && #[trigger] stage_names(
                stages[i],
                odom_stream,
                lidar_stream,
                corrected_suffix,
                suffix,
            ).contains(name),
    decreases stages.len(),
{
    let all = run_names(stages, odom_stream, lidar_stream, corrected_suffix, suffix);
    if stages.len() > 0 {
        let rest = stages.drop_last();
        let before = run_names(rest, odom_stream, lidar_stream, corrected_suffix, suffix);
        let last = stage_names(
            stages.last(),
            odom_stream,
            lidar_stream,
            corrected_suffix,
            suffix,
        );
        lemma_run_names(rest, odom_stream, lidar_stream, corrected_suffix, suffix, name);
        if all.contains(name) {
            let k = choose|k: int| 0 <= k < all.len() && all[k] == name;
            if k < before.len() {
                assert(before[k] == name);
                let i = choose|i: int|
                    0 <= i < rest.len() && #[trigger] stage_names(
                        rest[i],
                        odom_stream,
                        lidar_stream,
                        corrected_suffix,
                        suffix,
                    ).contains(name);
                assert(stage_names(
                    stages[i],
                    odom_stream,
                    lidar_stream,
                    corrected_suffix,
                    suffix,
                ).contains(name));
            } else {
                assert(last[k - before.len()] == name);
                assert(stage_names(
                    stages[stages.len() - 1],
                    odom_stream,
                    lidar_stream,
                    corrected_suffix,
                    suffix,
                ).contains(name));
            }
        }
        if exists|i: int|
            0 <= i < stages.len() && #[trigger] stage_names(
                stages[i],
                odom_stream,
                lidar_stream,
                corrected_suffix,
                suffix,
            ).contains(name) {
            let i = choose|i: int|
                0 <= i < stages.len() && #[trigger] stage_names(
                    stages[i],
                    odom_stream,
                    lidar_stream,
                    corrected_suffix,
                    suffix,
                ).contains(name);
            if i < rest.len() {
                assert(stage_names(
                    rest[i],
                    odom_stream,
                    lidar_stream,
                    corrected_suffix,
                    suffix,
                ).contains(name));
                let k = choose|k: int| 0 <= k < before.len() && before[k] == name;
                assert(all[k] == name);
            } else {
                let k = choose|k: int| 0 <= k < last.len() && last[k] == name;
                assert(all[before.len() + k] == name);
            }
        }
    }
}

proof fn lemma_run_writes(
    name: Seq<char>,
    options: RunOptions,
    facts: RunFacts,
    odom_stream: Seq<char>,
    lidar_stream: Seq<char>,
    corrected_suffix: Seq<char>,
    suffix: Seq<char>,
)
    ensures
        run_names(
            stages_from(Stage::SolveTags, options, facts),
            odom_stream,
            lidar_stream,
            corrected_suffix,
            suffix,
        ).contains(name) <==> run_writes(
            name,
            options,
            facts,
            odom_stream,
            lidar_stream,
            corrected_suffix,
            suffix,
        ),
{
    let stages = stages_from(Stage::SolveTags, options, facts);
    let nodes = corrected_text("tf_deformation_nodes"@, corrected_suffix, suffix);
    lemma_run_does_what_is_asked(options, facts);
    lemma_run_names(stages, odom_stream, lidar_stream, corrected_suffix, suffix, name);
    let of = |stage: Stage|
        stage_names(stage, odom_stream, lidar_stream, corrected_suffix, suffix);
    assert(of(Stage::WriteGraph)[0] == nodes && of(Stage::WriteGraph)[1] == "pose_graph"@ + suffix);
    assert(of(Stage::WriteOdom)[0] == corrected_text(odom_stream, corrected_suffix, suffix));
    assert(of(Stage::WriteLidar)[0] == corrected_text(lidar_stream, corrected_suffix, suffix));
    assert(of(Stage::AccumulateRaw)[0] == lidar_stream + "_accumulated"@);
    assert(of(Stage::AccumulateCorrected)[0] == corrected_text(
        lidar_stream,
        corrected_suffix,
        suffix,
    ) + "_accumulated"@);
    if run_writes(name, options, facts, odom_stream, lidar_stream, corrected_suffix, suffix) {
        let stage = if name == nodes || name == "pose_graph"@ + suffix {
            Stage::WriteGraph
        } else if options.write_odom && name == of(Stage::WriteOdom)[0] {
            Stage::WriteOdom
        } else if options.write_lidar && name == of(Stage::WriteLidar)[0] {
            Stage::WriteLidar
        } else if options.write_lidar && options.accum && name == of(Stage::AccumulateRaw)[0] {
            Stage::AccumulateRaw
        } else {
            Stage::AccumulateCorrected
        };
        assert(of(stage).contains(name));
        let i = choose|i: int| 0 <= i < stages.len() && stages[i] == stage;
        assert(stage_names(
            stages[i],
            odom_stream,
            lidar_stream,
            corrected_suffix,
            suffix,
        ).contains(name));
    }
    if exists|i: int|
        0 <= i < stages.len() && #[trigger] stage_names(
            stages[i],
            odom_stream,
            lidar_stream,
            corrected_suffix,
            suffix,
        ).contains(name) {
        let i = choose|i: int|
            0 <= i < stages.len() && #[trigger] stage_names(
                stages[i],
                odom_stream,
                lidar_stream,
                corrected_suffix,
                suffix,
            ).contains(name);
        let stage = stages[i];
        assert(stages.contains(stage));
        let some = of(stage);
        let k = choose|k: int| 0 <= k < some.len() && some[k] == name;
        assert(k == 0 || k == 1);
    }
}

/// After a run the listing holds what it held, and what the run was asked to write. With nothing
/// switched off that is corrected odometry and clouds, the corrections, the graph, and the
/// accumulated clouds, recorded and corrected.
pub proof fn lemma_listing_after_run(
    recording: Map<Seq<char>, Table>,
    edits: Seq<Edit>,
    options: RunOptions,
    facts: RunFacts,
    odom_stream: Seq<char>,
    lidar_stream: Seq<char>,
    corrected_suffix: Seq<char>,
    suffix: Seq<char>,
)
    requires
        is_run(edits, options, facts, odom_stream, lidar_stream, corrected_suffix, suffix),
        tells_corrected(
            facts,
            recording,
            options,
            odom_stream,
            lidar_stream,
            corrected_suffix,
            suffix,
        ),
    ensures
        ({
            let after = after_edits(recording, edits);
            let lidar = corrected_text(lidar_stream, corrected_suffix, suffix);
            &&& forall|name: Seq<char>| #[trigger]
                after.contains_key(name) <==> recording.contains_key(name) || run_writes(
                    name,
                    options,
                    facts,
                    odom_stream,
                    lidar_stream,
                    corrected_suffix,
                    suffix,
                )
            &&& options.write_odom && options.write_lidar && options.accum ==> {
                &&& after.contains_key(corrected_text(odom_stream, corrected_suffix, suffix))
                &&& after.contains_key(lidar)
                &&& after.contains_key(
                    corrected_text("tf_deformation_nodes"@, corrected_suffix, suffix),
                )
                &&& after.contains_key("pose_graph"@ + suffix)
                &&& after.contains_key(lidar_stream + "_accumulated"@)
                &&& after.contains_key(lidar + "_accumulated"@)
            }
        }),
{
    let after = after_edits(recording, edits);
    let names = run_names(
        stages_from(Stage::SolveTags, options, facts),
        odom_stream,
        lidar_stream,
        corrected_suffix,
        suffix,
    );
    assert forall|name: Seq<char>| #[trigger] after.contains_key(name) <==> recording.contains_key(
        name,
    ) || run_writes(
        name,
        options,
        facts,
        odom_stream,
        lidar_stream,
        corrected_suffix,
        suffix,
    ) by {
        lemma_listing_after_edits(recording, edits, name);
        lemma_run_writes(
            name,
            options,
            facts,
            odom_stream,
            lidar_stream,
            corrected_suffix,
            suffix,
        );
        if is_replaced(edits, name) {
            let i = choose|i: int| 0 <= i < edits.len() && #[trigger] replaces(edits[i], name);
            assert(names.contains(edited(edits[i])));
        }
        if names.contains(name) {
            let k = choose|k: int| 0 <= k < names.len() && names[k] == name;
            assert(is_replaced(edits, names[k]));
        }
    }
}

/// A second run, with the same streams and options, leaves the listing as the first one left it.
pub proof fn lemma_listing_after_second_run(
    recording: Map<Seq<char>, Table>,
    edits: Seq<Edit>,
    more: Seq<Edit>,
    options: RunOptions,
    facts: RunFacts,
    later: RunFacts,
    odom_stream: Seq<char>,
    lidar_stream: Seq<char>,
    corrected_suffix: Seq<char>,
    suffix: Seq<char>,
)
    requires
        is_run(edits, options, facts, odom_stream, lidar_stream, corrected_suffix, suffix),
        tells_corrected(
            facts,
            recording,
            options,
            odom_stream,
            lidar_stream,
            corrected_suffix,
            suffix,
        ),
        is_run(more, options, later, odom_stream, lidar_stream, corrected_suffix, suffix),
        tells_corrected(
            later,
            after_edits(recording, edits),
            options,
            odom_stream,
            lidar_stream,
            corrected_suffix,
            suffix,
        ),
    ensures
        after_edits(after_edits(recording, edits), more).dom() == after_edits(
            recording,
            edits,
        ).dom(),
{
    let once = after_edits(recording, edits);
    let twice = after_edits(once, more);
    lemma_listing_after_run(
        recording,
        edits,
        options,
        facts,
        odom_stream,
        lidar_stream,
        corrected_suffix,
        suffix,
    );
    lemma_listing_after_run(
        once,
        more,
        options,
        later,
        odom_stream,
        lidar_stream,
        corrected_suffix,
        suffix,
    );
    let odom = corrected_text(odom_stream, corrected_suffix, suffix);
    assert(once.contains_key(odom) <==> recording.contains_key(odom) || run_writes(
        odom,
        options,
        facts,
        odom_stream,
        lidar_stream,
        corrected_suffix,
        suffix,
    ));
    assert(later.corrected_odom ==> facts.corrected_odom);
    assert forall|name: Seq<char>| #[trigger] twice.dom().contains(name) == once.dom().contains(
        name,
    ) by {
        assert(twice.contains_key(name) == twice.dom().contains(name));
        assert(once.contains_key(name) == once.dom().contains(name));
    }
    assert(twice.dom() =~= once.dom());
}

/// The changes that come before the first stage: the stream of sightings is made where it is not
/// there and there are images and a camera to make it from, and nothing else is changed.
pub open spec fn makes_tags(
    made: Seq<Edit>,
    recording: Map<Seq<char>, Table>,
    tags: Seq<char>,
    images: Seq<char>,
    has_camera: bool,
) -> bool {
    let step = tag_step(
        recording.contains_key(tags),
        has_camera,
        recording.contains_key(images),
    );
    if step == RawTagStep::Detect {
        is_confined(made, seq![tags]) && is_replaced(made, tags)
    } else {
        made.len() == 0
    }
}

/// A run, from its tags on, changes no other streams than those that it derives.
pub proof fn lemma_run_is_confined(
    recording: Map<Seq<char>, Table>,
    made: Seq<Edit>,
    edits: Seq<Edit>,
    options: RunOptions,
    facts: RunFacts,
    odom_stream: Seq<char>,
    lidar_stream: Seq<char>,
    tags: Seq<char>,
    images: Seq<char>,
    has_camera: bool,
    corrected_suffix: Seq<char>,
    suffix: Seq<char>,
)
    requires
        makes_tags(made, recording, tags, images, has_camera),
        is_run(edits, options, facts, odom_stream, lidar_stream, corrected_suffix, suffix),
    ensures
        is_confined(
            made + edits,
            derived_names(odom_stream, lidar_stream, tags, corrected_suffix, suffix, false),
        ),
{
    let all = derived_names(odom_stream, lidar_stream, tags, corrected_suffix, suffix, false);
    let stages = stages_from(Stage::SolveTags, options, facts);
    let both = made + edits;
    assert forall|i: int| 0 <= i < both.len() implies all.contains(#[trigger] edited(both[i])) by {
        let name = edited(both[i]);
        if i < made.len() {
            assert(seq![tags].contains(edited(made[i])));
            assert(all[6] == tags);
        } else {
            assert(both[i] == edits[i - made.len()]);
            assert(run_names(
                stages,
                odom_stream,
                lidar_stream,
                corrected_suffix,
                suffix,
            ).contains(edited(edits[i - made.len()])));
            lemma_run_names(stages, odom_stream, lidar_stream, corrected_suffix, suffix, name);
            let k = choose|k: int|
                0 <= k < stages.len() && #[trigger] stage_names(
                    stages[k],
                    odom_stream,
                    lidar_stream,
                    corrected_suffix,
                    suffix,
                ).contains(name);
            lemma_stages_write_derived_streams(
                stages[k],
                odom_stream,
                lidar_stream,
                tags,
                corrected_suffix,
                suffix,
                false,
                name,
            );
        }
    }
}

/// Run a second time, with the same options on what the first time left, a run finds its tags as it
/// left them and leaves the same listing, where the images are not kept under the name of something
/// that it derives.
pub proof fn lemma_second_run_adds_nothing(
    recording: Map<Seq<char>, Table>,
    made: Seq<Edit>,
    edits: Seq<Edit>,
    made_later: Seq<Edit>,
    more: Seq<Edit>,
    options: RunOptions,
    facts: RunFacts,
    later: RunFacts,
    odom_stream: Seq<char>,
    lidar_stream: Seq<char>,
    tags: Seq<char>,
    images: Seq<char>,
    has_camera: bool,
    corrected_suffix: Seq<char>,
    suffix: Seq<char>,
)
    requires
        !derived_names(
            odom_stream,
            lidar_stream,
            tags,
            corrected_suffix,
            suffix,
            false,
        ).contains(images),
        makes_tags(made, recording, tags, images, has_camera),
        is_run(edits, options, facts, odom_stream, lidar_stream, corrected_suffix, suffix),
        tells_corrected(
            facts,
            after_edits(recording, made),
            options,
            odom_stream,
            lidar_stream,
            corrected_suffix,
            suffix,
        ),
        makes_tags(made_later, after_edits(recording, made + edits), tags, images, has_camera),
        is_run(more, options, later, odom_stream, lidar_stream, corrected_suffix, suffix),
        tells_corrected(
            later,
            after_edits(recording, made + edits + made_later),
            options,
            odom_stream,
            lidar_stream,
            corrected_suffix,
            suffix,
        ),
    ensures
        after_edits(recording, made + edits + made_later + more).dom() == after_edits(
            recording,
            made + edits,
        ).dom(),
{
    let all = derived_names(odom_stream, lidar_stream, tags, corrected_suffix, suffix, false);
    let tagged = after_edits(recording, made);
    let once = after_edits(recording, made + edits);
    lemma_edits_join(recording, made, edits);
    lemma_run_is_confined(
        recording,
        made,
        edits,
        options,
        facts,
        odom_stream,
        lidar_stream,
        tags,
        images,
        has_camera,
        corrected_suffix,
        suffix,
    );
    lemma_other_streams_keep_their_rows(recording, made + edits, all, images);
    lemma_listing_after_edits(recording, made, tags);
    lemma_listing_after_edits(tagged, edits, tags);
    assert(made_later.len() == 0);
    assert(made + edits + made_later =~= made + edits);
    lemma_edits_join(recording, made + edits, more);
    lemma_listing_after_second_run(
        tagged,
        edits,
        more,
        options,
        facts,
        later,
        odom_stream,
        lidar_stream,
        corrected_suffix,
        suffix,
    );
}

// ---- what is said ----

/// The text for a recording that is a directory.
pub fn not_a_file(path: &str) -> (out: String)
    ensures
        out@ == "--db must be a .db file, not a directory: "@ + path@,
{
    let mut out = "--db must be a .db file, not a directory: ".to_owned();
    out.append(path);
    out
}

/// What is said where no stream holds the camera's intrinsics.
pub fn no_camera_info(tried: &[String]) -> (out: String)
    ensures
        out@ == "WARNING: no CameraInfo stream among ['"@ + joined(texts(tried@), "', '"@)
            + "'] -- AprilTag stage skipped; ICP + odom only. If this is a go2 recording, add the static front-camera intrinsics first with --helper add_go2_camera_info, then re-run."@,
{
    let mut out = "WARNING: no CameraInfo stream among ['".to_owned();
    out.append(join(tried, "', '").as_str());
    out.append(
        "'] -- AprilTag stage skipped; ICP + odom only. If this is a go2 recording, add the static front-camera intrinsics first with --helper add_go2_camera_info, then re-run.",
    );
    out
}

/// What is said where there are no sightings of tags.
pub fn tag_free(tags: &str) -> (out: String)
    ensures
        out@ == "no AprilTag data ('"@ + tags@
            + "' absent) -- running tag-free (odom + ICP only)"@,
{
    let mut out = "no AprilTag data ('".to_owned();
    out.append(tags);
    out.append("' absent) -- running tag-free (odom + ICP only)");
    out
}

/// What is said of the streams that a run uses.
pub fn streams_line(
    tags: &str,
    odom_stream: &str,
    lidar_stream: &str,
    corrected_suffix: &str,
    suffix: &str,
) -> (out: String)
    ensures
        out@ == "streams: tags="@ + tags@ + " odom="@ + odom_stream@ + " lidar="@ + lidar_stream@
            + " -> "@ + corrected_suffix@ + suffix@,
{
    let mut out = "streams: tags=".to_owned();
    out.append(tags);
    out.append(" odom=");
    out.append(odom_stream);
    out.append(" lidar=");
    out.append(lidar_stream);
    out.append(" -> ");
    out.append(corrected_suffix);
    out.append(suffix);
    out
}

/// The error with which a run stops where its odometry cannot be read: that the stream is empty
/// is said in terms of the recording.
pub fn odometry_error(error: &str, odom_stream: &str, path: &str) -> (out: String)
    ensures
        out@ == (if occurs_in(error@, "decoded no"@) {
            "odom stream '"@ + odom_stream@ + "' is empty in "@ + path@
        } else {
            error@
        }),
{
    if contains(error, "decoded no") {
        let mut out = "odom stream '".to_owned();
        out.append(odom_stream);
        out.append("' is empty in ");
        out.append(path);
        out
    } else {
        error.to_owned()
    }
}

/// The text for a keyframe that the solver gave no pose.
pub fn missing_pose(index: usize) -> (out: String)
    ensures
        out@ == "estimate missing keyframe pose "@ + decimal_text(index as nat),
{
    let mut out = "estimate missing keyframe pose ".to_owned();
    out.append(decimal(index as u64).as_str());
    out
}

// ---- what the results are, over all inputs ----

/// A list of numbers is read exactly where every word of it is one, and holds what the words say; else
/// the first word that is none is named.
pub proof fn lemma_listed_numbers_are_read(words: Seq<Seq<char>>, n: nat)
    requires
        n <= words.len(),
    ensures
        integers_of(words, n) is Ok <==> forall|i: int|
            0 <= i < n ==> integer_value(#[trigger] words[i]) is Some,
        integers_of(words, n) matches Ok(ids) ==> forall|id: i64| #[trigger]
            ids.contains(id) <==> exists|i: int|
                0 <= i < n && integer_value(#[trigger] words[i]) == Some(id),
        integers_of(words, n) matches Err(word) ==> exists|i: int|
            0 <= i < n && #[trigger] words[i] == word && integer_value(word) is None && forall|
                j: int,
            |
                0 <= j < i ==> integer_value(#[trigger] words[j]) is Some,
    decreases n,
{
    if n > 0 {
        let last = words[n - 1];
        lemma_listed_numbers_are_read(words, (n - 1) as nat);
        if integers_of(words, (n - 1) as nat) is Ok {
            let before = integers_of(words, (n - 1) as nat)->Ok_0;
            if integer_value(last) is Some {
                let ids = before.insert(integer_value(last)->0);
                assert forall|id: i64| #[trigger] ids.contains(id) <==> exists|i: int|
                    0 <= i < n && integer_value(#[trigger] words[i]) == Some(id) by {
                    if before.contains(id) {
                        let i = choose|i: int|
                            0 <= i < n - 1 && integer_value(#[trigger] words[i]) == Some(id);
                        assert(integer_value(words[i]) == Some(id));
                    }
                    if integer_value(last) == Some(id) {
                        assert(integer_value(words[n - 1]) == Some(id));
                    }
                    if exists|i: int| 0 <= i < n && integer_value(#[trigger] words[i]) == Some(id) {
                        let i = choose|i: int|
                            0 <= i < n && integer_value(#[trigger] words[i]) == Some(id);
                        if i < n - 1 {
                            assert(before.contains(id));
                        }
                    }
                }
            } else {
                assert(words[n - 1] == last);
            }
        } else {
            let word = integers_of(words, (n - 1) as nat)->Err_0;
            let i = choose|i: int|
                0 <= i < n - 1 && #[trigger] words[i] == word && integer_value(word) is None
                    && forall|j: int| 0 <= j < i ==> integer_value(#[trigger] words[j]) is Some;
            assert(integer_value(words[i]) is None);
        }
    }
}

/// The word named as no number is the first that is none; where there is no such word, none is named.
pub proof fn lemma_first_bad_word_is_named(
    words: Seq<Seq<char>>,
    numbers: Seq<Option<F64Bits>>,
    n: nat,
)
    requires
        n <= words.len(),
        n <= numbers.len(),
    ensures
        first_bad(words, numbers, n) is None <==> forall|i: int|
            0 <= i < n ==> #[trigger] numbers[i] is Some,
        first_bad(words, numbers, n) matches Some(word) ==> exists|i: int|
            0 <= i < n && #[trigger] numbers[i] is None && words[i] == word && forall|j: int|
                0 <= j < i ==> #[trigger] numbers[j] is Some,
    decreases n,
{
    if n > 0 {
        lemma_first_bad_word_is_named(words, numbers, (n - 1) as nat);
        assert(numbers[n - 1] is Some || numbers[n - 1] is None);
    }
}

/// With the values put in order, the middle is the one with as many before it as behind it, or the two
/// with as many before them as behind them.
pub proof fn lemma_middle_halves_the_values(values: Seq<F64Bits>)
    requires
        values.len() > 0,
        forall|i: int| 0 <= i < values.len() ==> !is_nan(#[trigger] values[i]),
    ensures
        exists|s: Seq<F64Bits>|
            #[trigger] s.to_multiset() == values.to_multiset() && s.len() == values.len() && (forall|
                i: int,
                j: int,
            |
                0 <= i <= j < s.len() ==> crate::ieee::le(#[trigger] s[i], #[trigger] s[j]))
                && match middle_of(values) {
                Middle::One(m) => exists|k: int| s.len() == k + 1 + k && m == #[trigger] s[k],
                Middle::Two(a, b) => exists|k: int|
                    s.len() == k + 2 + k && a == #[trigger] s[k] && b == s[k + 1],
            },
{
    broadcast use vstd::seq_lib::group_to_multiset_ensures;

    let keyed = values.map_values(|v: F64Bits| (single_key(ordinal(v)), v));
    let sorted = stable_order(keyed);
    let value = |e: (SortKey, F64Bits)| e.1;
    crate::order::lemma_stable_order_sorts(keyed);
    crate::pgo::lemma_map_keeps_multiset(sorted, keyed, value);
    assert(keyed.map_values(value) =~= values);
    let s = sorted.map_values(value);
    assert(s.to_multiset() == values.to_multiset());
    assert(s.len() == s.to_multiset().len());
    assert(values.len() == values.to_multiset().len());
    assert forall|k: int| 0 <= k < sorted.len() implies (#[trigger] sorted[k]).0 == single_key(
        ordinal(sorted[k].1),
    ) && !is_nan(sorted[k].1) by {
        assert(sorted.to_multiset().count(sorted[k]) > 0) by {
            assert(sorted.contains(sorted[k]));
        }
        assert(keyed.contains(sorted[k]));
        let i = choose|i: int| 0 <= i < keyed.len() && keyed[i] == sorted[k];
        assert(keyed[i] == (single_key(ordinal(values[i])), values[i]));
        assert(!is_nan(values[i]));
    }
    assert forall|i: int, j: int| 0 <= i <= j < s.len() implies crate::ieee::le(
        #[trigger] s[i],
        #[trigger] s[j],
    ) by {
        assert(crate::order::key_le(sorted[i].0, sorted[j].0));
        assert(s[i] == sorted[i].1 && s[j] == sorted[j].1);
    }
    let half = (values.len() / 2) as int;
    if values.len() % 2 == 1 {
        assert(s.len() == half + 1 + half);
        assert(middle_of(values) == Middle::One(s[half]));
    } else {
        assert(s.len() == (half - 1) + 2 + (half - 1));
        assert(middle_of(values) == Middle::Two(s[half - 1], s[(half - 1) + 1]));
    }
}

/// A run solves the tags first, and then, as far as asked, reads the scans, looks for closures and
/// solves again; it writes the graph, the odometry and the clouds, adds up the raw and then the
/// corrected scans, and compares, in this order.
pub proof fn lemma_stages_come_in_order(options: RunOptions, facts: RunFacts, i: int, j: int, a: int, b: int)
    requires
        ({
            let run = stages_from(Stage::SolveTags, options, facts);
            0 <= i < j < run.len() && 0 <= a < 12 && 0 <= b < 12 && run[i] == all_stages()[a]
                && run[j] == all_stages()[b]
        }),
    ensures
        a < b,
{
    lemma_run_does_what_is_asked(options, facts);
    let run = stages_from(Stage::SolveTags, options, facts);
    assert(stage_rank(run[i]) < stage_rank(run[j]));
    let all = all_stages();
    assert(all[0] == Stage::SolveTags && all[1] == Stage::ReadScans && all[2]
        == Stage::FindClosures && all[3] == Stage::SolveAgain && all[4] == Stage::WriteGraph
        && all[5] == Stage::WriteOdom && all[6] == Stage::WriteLidar && all[7]
        == Stage::AccumulateRaw && all[8] == Stage::AccumulateCorrected && all[9]
        == Stage::WarnUncorrected && all[10] == Stage::Compare && all[11] == Stage::Done);
}

/// The stages as they come; of the two behind the raw scans a run has one.
pub open spec fn all_stages() -> Seq<Stage> {
    seq![
        Stage::SolveTags,
        Stage::ReadScans,
        Stage::FindClosures,
        Stage::SolveAgain,
        Stage::WriteGraph,
        Stage::WriteOdom,
        Stage::WriteLidar,
        Stage::AccumulateRaw,
        Stage::AccumulateCorrected,
        Stage::WarnUncorrected,
        Stage::Compare,
        Stage::Done,
    ]
}

/// A corrected stream has the name of the stream, then what marks it as corrected, then what marks
/// the run.
pub proof fn lemma_corrected_name_has_three_parts(
    stream: Seq<char>,
    corrected_suffix: Seq<char>,
    suffix: Seq<char>,
)
    ensures
        ({
            let name = corrected_text(stream, corrected_suffix, suffix);
            &&& name.len() == stream.len() + corrected_suffix.len() + suffix.len()
            &&& name.take(stream.len() as int) == stream
            &&& name.skip(name.len() - suffix.len()) == suffix
            &&& name.subrange(stream.len() as int, name.len() - suffix.len()) == corrected_suffix
        }),
{
    let name = corrected_text(stream, corrected_suffix, suffix);
    assert(name.take(stream.len() as int) =~= stream);
    assert(name.skip(name.len() - suffix.len()) =~= suffix);
    assert(name.subrange(stream.len() as int, name.len() - suffix.len()) =~= corrected_suffix);
}

/// A text is blank where every part of it is: one character where it is a space, and an empty text
/// always.
pub proof fn lemma_blank_texts_are_spaces(a: Seq<char>, b: Seq<char>, c: char)
    ensures
        is_blank(Seq::empty()),
        is_blank(seq![c]) <==> is_space(c),
        is_blank(a + b) <==> is_blank(a) && is_blank(b),
{
    assert(seq![c][0] == c);
    let both = a + b;
    if is_blank(both) {
        assert forall|i: int| 0 <= i < a.len() implies is_space(#[trigger] a[i]) by {
            assert(both[i] == a[i]);
        }
        assert forall|i: int| 0 <= i < b.len() implies is_space(#[trigger] b[i]) by {
            assert(both[a.len() + i] == b[i]);
        }
    }
}

} // verus!
