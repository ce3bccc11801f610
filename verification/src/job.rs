use vstd::prelude::*;

verus! {

use crate::chunks::ChunkRange;
use crate::chunks::is_partition;
use crate::chunks::partition;
use crate::error::TrainError;

/// How a probed resource is to be downloaded: one bounded-concurrency ranged
/// fetch per chunk when the size is known, a single sequential streaming copy
/// when it is not.
pub enum DownloadPlan {
    Chunked(Vec<ChunkRange>),
    Sequential,
}

/// The branch a job takes after probing: ranged fetches over the partition of
/// `[0, size)` exactly when the probe produced a size, the sequential
/// fallback otherwise.
pub fn plan_download(size: Option<usize>, chunk: usize) -> (r: DownloadPlan)
    requires
        chunk > 0,
    ensures
        r is Sequential <==> size is None,
        size matches Some(n) ==> r matches DownloadPlan::Chunked(ranges) && is_partition(
            ranges@,
            n as int,
            chunk as int,
        ),
{
    match size {
        Some(n) => DownloadPlan::Chunked(partition(n, chunk)),
        None => DownloadPlan::Sequential,
    }
}

/// One thing the scheduler or the assembler observes while a chunked job
/// runs: a chunk is handed to a worker, or one worker's fetch finishes, well
/// or badly.
pub enum JobEvent {
    /// The next chunk is handed to a worker; its fetch is now in flight.
    Dispatch,
    /// An in-flight fetch finished and its chunk was consumed.
    ChunkOk,
    /// An in-flight fetch failed with the given error.
    ChunkFailed(TrainError),
}

/// The run-time aggregate of one chunked `download` invocation: how far
/// dispatch has come, how many fetches run right now, and the job's
/// first-error-wins status.
pub struct DownloadJob {
    /// The concurrency bound: how many workers may fetch at once.
    pub threads: usize,
    /// How many chunks the partition produced.
    pub total: usize,
    /// How many chunks have been handed to a worker so far.
    pub dispatched: usize,
    /// How many fetches run right now.
    pub in_flight: usize,
    /// How many chunks finished and were consumed by the assembler.
    pub completed: usize,
    /// The first error any fetch reported; set once, never replaced.
    pub error: Option<TrainError>,
}

impl DownloadJob {
    /// The job's bookkeeping is consistent; in particular, no more fetches
    /// run at once than the job has workers.
    pub open spec fn wf(self) -> bool {
        &&& self.threads >= 1
        &&& self.in_flight <= self.threads
        &&& self.dispatched <= self.total
        &&& self.completed + self.in_flight <= self.dispatched
    }

    /// A fresh job: nothing dispatched, nothing in flight, no error.
    pub fn new(threads: usize, total: usize) -> (r: DownloadJob)
        requires
            threads >= 1,
        ensures
            r.wf(),
            r.threads == threads,
            r.total == total,
            r.dispatched == 0,
            r.in_flight == 0,
            r.completed == 0,
            r.error is None,
    {
        DownloadJob { threads, total, dispatched: 0, in_flight: 0, completed: 0, error: None }
    }

    /// Another chunk may be handed out: a worker is free and chunks remain.
    pub fn can_dispatch(&self) -> (r: bool)
        ensures
            r == (self.in_flight < self.threads && self.dispatched < self.total),
    {
        self.in_flight < self.threads && self.dispatched < self.total
    }

    /// Hands the next chunk to a worker and returns its index: dispatch
    /// follows ascending chunk order.
    pub fn dispatch(&mut self) -> (idx: usize)
        requires
            old(self).wf(),
            old(self).in_flight < old(self).threads,
            old(self).dispatched < old(self).total,
        ensures
            final(self).wf(),
            *final(self) == job_step(*old(self), JobEvent::Dispatch),
            idx == old(self).dispatched,
    {
        let idx = self.dispatched;
        self.dispatched = self.dispatched + 1;
        self.in_flight = self.in_flight + 1;
        idx
    }

    /// Consumes one successfully fetched chunk.
    pub fn on_chunk_ok(&mut self)
        requires
            old(self).wf(),
            old(self).in_flight > 0,
        ensures
            final(self).wf(),
            *final(self) == job_step(*old(self), JobEvent::ChunkOk),
    {
        self.in_flight = self.in_flight - 1;
        self.completed = self.completed + 1;
    }

    /// Records one failed fetch. The first error sticks: a later one never
    /// replaces it.
    pub fn on_chunk_failed(&mut self, e: TrainError)
        requires
            old(self).wf(),
            old(self).in_flight > 0,
        ensures
            final(self).wf(),
            *final(self) == job_step(*old(self), JobEvent::ChunkFailed(e)),
    {
        self.in_flight = self.in_flight - 1;
        if self.error.is_none() {
            self.error = Some(e);
        }
    }

    /// Every dispatched fetch has been consumed and no chunk remains: the
    /// channel is exhausted and the assembler may sync and finish.
    pub fn is_drained(&self) -> (r: bool)
        ensures
            r == (self.dispatched == self.total && self.in_flight == 0),
    {
        self.dispatched == self.total && self.in_flight == 0
    }

    /// The drained job's verdict before the durability sync: a job that
    /// recorded an error propagates that first error and never reaches the
    /// sync; one with no error goes on to it.
    pub fn into_result(self) -> (r: Result<(), TrainError>)
        ensures
            self.error matches Some(e) ==> r == Err::<(), TrainError>(e),
            self.error is None ==> r is Ok,
    {
        match self.error {
            Some(e) => Err(e),
            None => Ok(()),
        }
    }
}

/// The completion gate: a job completes only on a successful durability
/// sync; a failed sync fails the job with `FileSyncError` carrying the cause.
pub fn finish_sync(sync_result: Result<(), std::io::Error>) -> (r: Result<(), TrainError>)
    ensures
        sync_result is Ok <==> r is Ok,
        sync_result matches Err(cause) ==> r == Err::<(), TrainError>(
            TrainError::FileSyncError(cause),
        ),
{
    match sync_result {
        Ok(()) => Ok(()),
        Err(cause) => Err(TrainError::FileSyncError(cause)),
    }
}

/// The job after observing one event. An event that the state cannot take
/// (a dispatch with no free worker or no chunk left, a fetch outcome with
/// nothing in flight) changes nothing.
pub open spec fn job_step(j: DownloadJob, e: JobEvent) -> DownloadJob {
    match e {
        JobEvent::Dispatch => {
            if j.in_flight < j.threads && j.dispatched < j.total {
                DownloadJob { dispatched: (j.dispatched + 1) as usize, in_flight: (j.in_flight + 1) as usize, ..j }
            } else {
                j
            }
        },
        JobEvent::ChunkOk => {
            if j.in_flight > 0 {
                DownloadJob { in_flight: (j.in_flight - 1) as usize, completed: (j.completed + 1) as usize, ..j }
            } else {
                j
            }
        },
        JobEvent::ChunkFailed(e) => {
            if j.in_flight > 0 {
                DownloadJob {
                    in_flight: (j.in_flight - 1) as usize,
                    error: if j.error is None {
                        Some(e)
                    } else {
                        j.error
                    },
                    ..j
                }
            } else {
                DownloadJob {
                    error: if j.error is None {
                        Some(e)
                    } else {
                        j.error
                    },
                    ..j
                }
            }
        },
    }
}

/// The job after observing every event of `evs`, in order.
pub open spec fn job_run(j: DownloadJob, evs: Seq<JobEvent>) -> DownloadJob
    decreases evs.len(),
{
    if evs.len() == 0 {
        j
    } else {
        job_step(job_run(j, evs.drop_last()), evs.last())
    }
}

/// The error of the first failed fetch in `evs`, if any.
pub open spec fn first_failure(evs: Seq<JobEvent>) -> Option<TrainError>
    decreases evs.len(),
{
    if evs.len() == 0 {
        None
    } else {
        match evs.first() {
            JobEvent::ChunkFailed(e) => Some(e),
            _ => first_failure(evs.drop_first()),
        }
    }
}

/// Appending an event changes the first failure only when there was none and
/// the new event is itself a failure.
proof fn lemma_first_failure_push(evs: Seq<JobEvent>, e: JobEvent)
    ensures
        first_failure(evs.push(e)) == (if first_failure(evs) is Some {
            first_failure(evs)
        } else {
            match e {
                JobEvent::ChunkFailed(err) => Some(err),
                _ => None,
            }
        }),
    decreases evs.len(),
{
    if evs.len() == 0 {
        assert(evs.push(e).first() == e);
        assert(evs.push(e).drop_first() =~= Seq::<JobEvent>::empty());
    } else {
        assert(evs.push(e).first() == evs.first());
        assert(evs.push(e).drop_first() =~= evs.drop_first().push(e));
        lemma_first_failure_push(evs.drop_first(), e);
    }
}

/// The concurrency bound holds throughout a job: however the dispatches and
/// fetch outcomes interleave, a well-formed job stays well-formed, keeps its
/// worker count, and never has more fetches in flight than workers.
pub proof fn lemma_concurrency_bounded(j: DownloadJob, evs: Seq<JobEvent>)
    requires
        j.wf(),
    ensures
        job_run(j, evs).wf(),
        job_run(j, evs).threads == j.threads,
        job_run(j, evs).in_flight <= j.threads,
    decreases evs.len(),
{
    if evs.len() > 0 {
        lemma_concurrency_bounded(j, evs.drop_last());
    }
}

/// Failure propagation, first error wins: a job that has not failed yet ends
/// up with exactly the error of the first failed fetch among the events it
/// observes, no matter how many chunks had already completed and no matter
/// what happens afterwards; with no failure it ends with no error.
pub proof fn lemma_first_error_wins(j: DownloadJob, evs: Seq<JobEvent>)
    requires
        j.error is None,
    ensures
        job_run(j, evs).error == first_failure(evs),
    decreases evs.len(),
{
    if evs.len() > 0 {
        let pre = evs.drop_last();
        lemma_first_error_wins(j, pre);
        assert(pre.push(evs.last()) =~= evs);
        lemma_first_failure_push(pre, evs.last());
    }
}

} // verus!
