//! Per-pass GPU timestamps: which query slots a stage writes, which frames
//! have results to read, and the tick counts measured for each stage.
use vstd::prelude::*;

verus! {

/// Number of timed stages.
pub const STAGE_COUNT: usize = 7;

/// Number of timestamp queries of one frame: a begin and an end per stage.
pub const QUERY_COUNT: u32 = 14;

/// A timed stage of the frame.
#[derive(Debug, Clone, Copy, PartialEq, Eq, Structural)]
pub enum GpuStage {
    Shadow,
    Geometry,
    Lighting,
    PostProcess,
    FsrEasu,
    FsrRcas,
    Ui,
}

/// Position of a stage in the frame, from 0 to `STAGE_COUNT - 1`.
pub open spec fn stage_index(stage: GpuStage) -> nat {
    match stage {
        GpuStage::Shadow => 0,
        GpuStage::Geometry => 1,
        GpuStage::Lighting => 2,
        GpuStage::PostProcess => 3,
        GpuStage::FsrEasu => 4,
        GpuStage::FsrRcas => 5,
        GpuStage::Ui => 6,
    }
}

/// The display name of a stage.
pub open spec fn stage_name(stage: GpuStage) -> Seq<char> {
    match stage {
        GpuStage::Shadow => "Shadow"@,
        GpuStage::Geometry => "Geometry"@,
        GpuStage::Lighting => "Lighting"@,
        GpuStage::PostProcess => "PostProcess"@,
        GpuStage::FsrEasu => "FSR EASU"@,
        GpuStage::FsrRcas => "FSR RCAS"@,
        GpuStage::Ui => "UI"@,
    }
}

/// The stages in frame order.
pub open spec fn all_stages() -> Seq<GpuStage> {
    seq![
        GpuStage::Shadow,
        GpuStage::Geometry,
        GpuStage::Lighting,
        GpuStage::PostProcess,
        GpuStage::FsrEasu,
        GpuStage::FsrRcas,
        GpuStage::Ui,
    ]
}

impl GpuStage {
    /// Every stage, in frame order.
    pub fn all() -> (v: Vec<GpuStage>)
        ensures
            v@ == all_stages(),
    {
        vec![
            GpuStage::Shadow,
            GpuStage::Geometry,
            GpuStage::Lighting,
            GpuStage::PostProcess,
            GpuStage::FsrEasu,
            GpuStage::FsrRcas,
            GpuStage::Ui,
        ]
    }

    /// The stage's position in the frame.
    pub fn index(self) -> (i: usize)
        ensures
            i == stage_index(self),
            i < STAGE_COUNT,
    {
        match self {
            GpuStage::Shadow => 0,
            GpuStage::Geometry => 1,
            GpuStage::Lighting => 2,
            GpuStage::PostProcess => 3,
            GpuStage::FsrEasu => 4,
            GpuStage::FsrRcas => 5,
            GpuStage::Ui => 6,
        }
    }

    /// The name the stage is reported under.
    pub fn name(self) -> (s: &'static str)
        ensures
            s@ == stage_name(self),
    {
        match self {
            GpuStage::Shadow => "Shadow",
            GpuStage::Geometry => "Geometry",
            GpuStage::Lighting => "Lighting",
            GpuStage::PostProcess => "PostProcess",
            GpuStage::FsrEasu => "FSR EASU",
            GpuStage::FsrRcas => "FSR RCAS",
            GpuStage::Ui => "UI",
        }
    }

    /// The query written when the stage begins.
    pub fn begin_query(self) -> (q: u32)
        ensures
            q == 2 * stage_index(self),
            q < QUERY_COUNT,
    {
        (self.index() as u32) * 2
    }

    /// The query written when the stage ends.
    pub fn end_query(self) -> (q: u32)
        ensures
            q == 2 * stage_index(self) + 1,
            q < QUERY_COUNT,
    {
        (self.index() as u32) * 2 + 1
    }
}

/// Ticks elapsed between a begin and an end timestamp; a pair that did not
/// advance (the end not after the begin) counts as zero.
pub open spec fn elapsed_ticks(begin: u64, end: u64) -> u64 {
    if end > begin {
        (end - begin) as u64
    } else {
        0
    }
}

/// The ticks measured for each stage, in frame order, from the raw query
/// results of one frame (begin and end of stage `i` at `2 * i` and `2 * i + 1`).
pub fn stage_ticks(raw: &[u64]) -> (ticks: Vec<u64>)
    requires
        raw@.len() == QUERY_COUNT,
    ensures
        ticks@.len() == STAGE_COUNT,
        forall|i: int|
            0 <= i < STAGE_COUNT ==> #[trigger] ticks@[i] == elapsed_ticks(raw@[2 * i], raw@[2 * i + 1]),
{
    let mut ticks: Vec<u64> = Vec::new();
    let mut i: usize = 0;
    while i < STAGE_COUNT
        invariant
            raw@.len() == QUERY_COUNT,
            i <= STAGE_COUNT,
            ticks@.len() == i,
            forall|j: int| 0 <= j < i ==> #[trigger] ticks@[j] == elapsed_ticks(raw@[2 * j], raw@[2 * j + 1]),
        decreases STAGE_COUNT - i,
    {
        let begin = raw[2 * i];
        let end = raw[2 * i + 1];
        let t = if end > begin {
            end - begin
        } else {
            0
        };
        ticks.push(t);
        i = i + 1;
    }
    ticks
}

/// How many times the query set of each frame in flight has been submitted.
/// Results of a frame can be read once its queries have been submitted at
/// least once (its fence has passed by the time the frame comes round again).
pub struct SubmitCounts {
    counts: Vec<u32>,
}

impl SubmitCounts {
    /// Submission count of each frame in flight.
    pub closed spec fn view(&self) -> Seq<u32> {
        self.counts@
    }

    /// No frame submitted yet, for `frames_in_flight` frames.
    pub fn new(frames_in_flight: u32) -> (s: Self)
        ensures
            s@.len() == frames_in_flight,
            forall|i: int| 0 <= i < frames_in_flight ==> #[trigger] s@[i] == 0,
    {
        let mut counts: Vec<u32> = Vec::new();
        let mut i: u32 = 0;
        while i < frames_in_flight
            invariant
                i <= frames_in_flight,
                counts@.len() == i,
                forall|j: int| 0 <= j < i ==> #[trigger] counts@[j] == 0,
            decreases frames_in_flight - i,
        {
            counts.push(0);
            i = i + 1;
        }
        SubmitCounts { counts }
    }

    /// Number of frames in flight.
    pub fn frames(&self) -> (n: usize)
        ensures
            n == self@.len(),
    {
        self.counts.len()
    }

    /// Whether frame `frame_index` has results to read: its queries were
    /// submitted before.
    pub fn has_results(&self, frame_index: usize) -> (b: bool)
        requires
            frame_index < self@.len(),
        ensures
            b == (self@[frame_index as int] > 0),
    {
        self.counts[frame_index] > 0
    }

    /// How many times the queries of frame `frame_index` were submitted.
    pub fn submitted(&self, frame_index: usize) -> (c: u32)
        requires
            frame_index < self@.len(),
        ensures
            c == self@[frame_index as int],
    {
        self.counts[frame_index]
    }

    /// Record that the queries of frame `frame_index` were submitted.
    pub fn mark_submitted(&mut self, frame_index: usize)
        requires
            frame_index < old(self)@.len(),
            old(self)@[frame_index as int] < u32::MAX,
        ensures
            final(self)@ == old(self)@.update(frame_index as int, (old(self)@[frame_index as int] + 1) as u32),
    {
        let c = self.counts[frame_index];
        self.counts.set(frame_index, c + 1);
    }
}

/// The begin and end queries of distinct stages never share a slot, and
/// every query lies in the frame's query pool.
pub proof fn law_stage_queries_distinct(a: GpuStage, b: GpuStage)
    ensures
        2 * stage_index(a) + 1 < QUERY_COUNT,
        2 * stage_index(a) != 2 * stage_index(b) + 1,
        a != b ==> 2 * stage_index(a) != 2 * stage_index(b),
        a != b ==> 2 * stage_index(a) + 1 != 2 * stage_index(b) + 1,
{
}

} // verus!
