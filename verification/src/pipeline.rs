use vstd::prelude::*;

verus! {

// The hashing pipeline runs one worker per stage, connected by rendezvous
// channels: every channel has capacity zero except the reader-to-decoder
// channel, which buffers one item. A send blocks until the receiver is
// ready, so work items can sit only in the stages themselves and in that
// one buffer slot. This module is the transition-system model of that
// arrangement; the backpressure law at the bottom bounds the in-flight
// count by the pipeline depth, however many records were ingested.

/// How many places of the pipeline can hold a work item at once: the six
/// stage workers after ingestion, the reader itself, and the one buffered
/// channel slot.
pub const PIPELINE_DEPTH: u8 = 8;

/// Occupancy of each place that can hold a work item. `ingested` counts
/// every record ever taken in; it grows without bound.
pub ghost struct PipelineState {
    /// The reader holds the record it is currently dispatching.
    pub reader: int,
    /// The content-hash stage.
    pub sha: int,
    /// The single buffered slot of the reader-to-decoder channel.
    pub buf: int,
    /// The raster-decode stage.
    pub decoder: int,
    /// The mean-hash stage.
    pub ahash: int,
    /// The gradient-hash stage.
    pub dhash: int,
    /// The frequency-hash stage.
    pub phash: int,
    /// The aggregator, processing one stage message.
    pub agg: int,
    /// Total records ingested so far.
    pub ingested: int,
}

/// One scheduling step of the pipeline.
pub ghost enum PipelineEvent {
    /// The reader reads the next file and creates its record.
    Ingest,
    /// The reader hands the record to the content-hash stage (rendezvous)
    /// and into the decoder's one-slot buffer, then moves on.
    Dispatch,
    /// The decoder takes the buffered record.
    DecodeTake,
    /// The decode fails; the record's decode branch is dropped.
    DecodeFail,
    /// The decoder hands the raster to the three perceptual-hash stages.
    DecodeDispatch,
    /// The content-hash stage finishes and its message reaches the
    /// aggregator.
    ShaDone,
    /// A perceptual-hash stage finishes and its message reaches the
    /// aggregator.
    AHashDone,
    DHashDone,
    PHashDone,
    /// The aggregator finishes one message (discard or reclaim).
    AggDone,
}

/// The empty pipeline.
pub open spec fn init() -> PipelineState {
    PipelineState {
        reader: 0,
        sha: 0,
        buf: 0,
        decoder: 0,
        ahash: 0,
        dhash: 0,
        phash: 0,
        agg: 0,
        ingested: 0,
    }
}

/// One step of the pipeline: `None` where the event is blocked, waiting on
/// a busy receiver. Every send requires its destination free — that is the
/// rendezvous discipline, and the only thing that bounds the pipeline.
pub open spec fn step(s: PipelineState, ev: PipelineEvent) -> Option<PipelineState> {
    match ev {
        PipelineEvent::Ingest => if s.reader == 0 {
            Some(PipelineState { reader: 1, ingested: s.ingested + 1, ..s })
        } else {
            None
        },
        PipelineEvent::Dispatch => if s.reader == 1 && s.sha == 0 && s.buf == 0 {
            Some(PipelineState { reader: 0, sha: 1, buf: 1, ..s })
        } else {
            None
        },
        PipelineEvent::DecodeTake => if s.buf == 1 && s.decoder == 0 {
            Some(PipelineState { buf: 0, decoder: 1, ..s })
        } else {
            None
        },
        PipelineEvent::DecodeFail => if s.decoder == 1 {
            Some(PipelineState { decoder: 0, ..s })
        } else {
            None
        },
        PipelineEvent::DecodeDispatch => if s.decoder == 1 && s.ahash == 0 && s.dhash == 0
            && s.phash == 0 {
            Some(PipelineState { decoder: 0, ahash: 1, dhash: 1, phash: 1, ..s })
        } else {
            None
        },
        PipelineEvent::ShaDone => if s.sha == 1 && s.agg == 0 {
            Some(PipelineState { sha: 0, agg: 1, ..s })
        } else {
            None
        },
        PipelineEvent::AHashDone => if s.ahash == 1 && s.agg == 0 {
            Some(PipelineState { ahash: 0, agg: 1, ..s })
        } else {
            None
        },
        PipelineEvent::DHashDone => if s.dhash == 1 && s.agg == 0 {
            Some(PipelineState { dhash: 0, agg: 1, ..s })
        } else {
            None
        },
        PipelineEvent::PHashDone => if s.phash == 1 && s.agg == 0 {
            Some(PipelineState { phash: 0, agg: 1, ..s })
        } else {
            None
        },
        PipelineEvent::AggDone => if s.agg == 1 {
            Some(PipelineState { agg: 0, ..s })
        } else {
            None
        },
    }
}

/// Work items currently held anywhere in the pipeline. Every in-flight,
/// un-forwarded record occupies at least one of these places, so the number
/// of distinct in-flight records is at most this sum.
pub open spec fn in_flight(s: PipelineState) -> int {
    s.reader + s.sha + s.buf + s.decoder + s.ahash + s.dhash + s.phash + s.agg
}

/// Each place holds at most one item.
pub open spec fn wf(s: PipelineState) -> bool {
    &&& 0 <= s.reader <= 1
    &&& 0 <= s.sha <= 1
    &&& 0 <= s.buf <= 1
    &&& 0 <= s.decoder <= 1
    &&& 0 <= s.ahash <= 1
    &&& 0 <= s.dhash <= 1
    &&& 0 <= s.phash <= 1
    &&& 0 <= s.agg <= 1
}

/// The state after running `events` from the empty pipeline; `None` where
/// some event was taken while blocked.
pub open spec fn run(events: Seq<PipelineEvent>) -> Option<PipelineState>
    decreases events.len(),
{
    if events.len() == 0 {
        Some(init())
    } else {
        match run(events.drop_last()) {
            Some(s) => step(s, events.last()),
            None => None,
        }
    }
}

/// Every blocking step keeps every place at its capacity.
proof fn lemma_step_wf(s: PipelineState, ev: PipelineEvent)
    requires
        wf(s),
        step(s, ev) is Some,
    ensures
        wf(step(s, ev)->0),
{
}

/// Backpressure law: under any scheduling — in particular under an
/// arbitrarily slow downstream consumer — the number of in-flight,
/// un-forwarded records never exceeds the pipeline depth, a constant
/// independent of how many records were ingested.
pub proof fn lemma_backpressure_bound(events: Seq<PipelineEvent>)
    ensures
        run(events) matches Some(s) ==> wf(s) && in_flight(s) <= PIPELINE_DEPTH,
    decreases events.len(),
{
    if events.len() > 0 {
        lemma_backpressure_bound(events.drop_last());
        if run(events.drop_last()) is Some && run(events) is Some {
            lemma_step_wf(run(events.drop_last())->0, events.last());
        }
    }
}

} // verus!
