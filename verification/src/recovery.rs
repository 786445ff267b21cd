//! Recovery of missing shreds: the jobs handed to worker threads, what they
//! hand back, and the queues in between.
use crossbeam_channel::{Receiver, Sender, TrySendError};
use vstd::prelude::*;

use crate::fec_set::views_of;
use crate::shred::{Shred, ShredView};

verus! {

/// An erasure set to recover, with the shreds of it that are here.
#[derive(Debug)]
pub struct RecoveryJob {
    pub slot: u64,
    pub fec_set_index: u32,
    pub shreds: Vec<Shred>,
}

/// The value of a [`RecoveryJob`].
#[verifier::ext_equal]
pub struct JobView {
    pub slot: u64,
    pub fec_set_index: u32,
    pub shreds: Seq<ShredView>,
}

impl View for RecoveryJob {
    type V = JobView;

    open spec fn view(&self) -> JobView {
        JobView {
            slot: self.slot,
            fec_set_index: self.fec_set_index,
            shreds: views_of(self.shreds@),
        }
    }
}

/// The shreds that a recovery of an erasure set brought back; none where it
/// failed.
#[derive(Debug)]
pub struct RecoveryResult {
    pub slot: u64,
    pub fec_set_index: u32,
    pub recovered: Vec<Shred>,
}

/// The value of a [`RecoveryResult`].
#[verifier::ext_equal]
pub struct ResultView {
    pub slot: u64,
    pub fec_set_index: u32,
    pub recovered: Seq<ShredView>,
}

impl View for RecoveryResult {
    type V = ResultView;

    open spec fn view(&self) -> ResultView {
        ResultView {
            slot: self.slot,
            fec_set_index: self.fec_set_index,
            recovered: views_of(self.recovered@),
        }
    }
}

/// The sending end of a channel of `crossbeam_channel`.
#[verifier::external_type_specification]
#[verifier::external_body]
#[verifier::reject_recursive_types(T)]
pub struct ExSender<T>(Sender<T>);

/// The receiving end of a channel of `crossbeam_channel`.
#[verifier::external_type_specification]
#[verifier::external_body]
#[verifier::reject_recursive_types(T)]
pub struct ExReceiver<T>(Receiver<T>);

/// How many jobs the channel behind `jobs` was made to hold.
pub uninterp spec fn job_capacity(jobs: Sender<RecoveryJob>) -> nat;

/// How many results the channel behind `results` was made to hold.
pub uninterp spec fn result_capacity(results: Receiver<RecoveryResult>) -> nat;

/// The jobs that the channel behind `jobs` takes in the course of its life.
pub uninterp spec fn jobs_taken(jobs: Sender<RecoveryJob>) -> Set<JobView>;

/// The jobs that the channel behind `jobs` hands out in the course of its
/// life.
pub uninterp spec fn jobs_given(jobs: Receiver<RecoveryJob>) -> Set<JobView>;

/// The results that the channel behind `results` takes in the course of its
/// life.
pub uninterp spec fn results_taken(results: Sender<RecoveryResult>) -> Set<ResultView>;

/// The results that the channel behind `results` hands out in the course of
/// its life.
pub uninterp spec fn results_given(results: Receiver<RecoveryResult>) -> Set<ResultView>;

/// The attempts to send that were made through this end, in order: the job,
/// and whether the channel took it.
pub uninterp spec fn sends(jobs: Sender<RecoveryJob>) -> Seq<(JobView, bool)>;

/// The attempts to receive without waiting that were made through this end,
/// in order: what came, or that nothing waited.
pub uninterp spec fn receives(results: Receiver<RecoveryResult>) -> Seq<Option<ResultView>>;

/// The most messages that a queue is made for, so that its buffer can be
/// allocated.
pub const MAX_QUEUE_DEPTH: usize = 0xff_ffff;

/// Calls `crossbeam_channel::bounded` for the jobs and for the results: each
/// channel is made to hold `depth` messages, what comes out at its receiving
/// end went in at its sending end, and nothing has been sent or received yet.
#[verifier::external_body]
fn open_channels(depth: usize) -> (ends: (
    Sender<RecoveryJob>,
    Receiver<RecoveryJob>,
    Sender<RecoveryResult>,
    Receiver<RecoveryResult>,
))
    requires
        0 < depth <= MAX_QUEUE_DEPTH,
    ensures
        job_capacity(ends.0) == depth,
        result_capacity(ends.3) == depth,
        jobs_given(ends.1).subset_of(jobs_taken(ends.0)),
        results_given(ends.3).subset_of(results_taken(ends.2)),
        sends(ends.0).len() == 0,
        receives(ends.3).len() == 0,
{
    let (job_tx, job_rx) = crossbeam_channel::bounded(depth);
    let (result_tx, result_rx) = crossbeam_channel::bounded(depth);
    (job_tx, job_rx, result_tx, result_rx)
}

/// What came of an attempt to send.
pub enum SendOutcome<T> {
    Sent,
    Full(T),
    Disconnected(T),
}

/// Calls `crossbeam_channel::Sender::try_send`: one more attempt to send was
/// made, with this job. A job that was sent is one that the channel takes, and
/// one that was not sent comes back. Whether it was rests on the other
/// threads.
#[verifier::external_body]
fn try_send(channel: &mut Sender<RecoveryJob>, job: RecoveryJob) -> (outcome: SendOutcome<
    RecoveryJob,
>)
    ensures
        match outcome {
            SendOutcome::Sent => jobs_taken(*old(channel)).contains(job@),
            SendOutcome::Full(back) => back == job,
            SendOutcome::Disconnected(back) => back == job,
        },
        sends(*final(channel)) == sends(*old(channel)).push((job@, outcome is Sent)),
        job_capacity(*final(channel)) == job_capacity(*old(channel)),
        jobs_taken(*final(channel)) == jobs_taken(*old(channel)),
{
    match channel.try_send(job) {
        Ok(()) => SendOutcome::Sent,
        Err(TrySendError::Full(back)) => SendOutcome::Full(back),
        Err(TrySendError::Disconnected(back)) => SendOutcome::Disconnected(back),
    }
}

/// What to tell of an attempt to send: the message comes back unless it was
/// sent, whether the queue was full or nobody takes messages any more.
pub fn send_result(outcome: SendOutcome<RecoveryJob>) -> (r: Result<(), RecoveryJob>)
    ensures
        r == match outcome {
            SendOutcome::Sent => Ok::<(), RecoveryJob>(()),
            SendOutcome::Full(back) => Err(back),
            SendOutcome::Disconnected(back) => Err(back),
        },
{
    match outcome {
        SendOutcome::Sent => Ok(()),
        SendOutcome::Full(back) => Err(back),
        SendOutcome::Disconnected(back) => Err(back),
    }
}

/// The value of what may have been received.
pub open spec fn received_view(received: Option<RecoveryResult>) -> Option<ResultView> {
    match received {
        Some(result) => Some(result@),
        None => None,
    }
}

/// Calls `crossbeam_channel::Receiver::try_recv`: one more attempt to receive
/// was made, and gave this. A result that came is one that the channel hands
/// out. Whether one waits, and which, rests on the other threads.
#[verifier::external_body]
fn try_receive(channel: &mut Receiver<RecoveryResult>) -> (received: Option<RecoveryResult>)
    ensures
        received matches Some(result) ==> results_given(*old(channel)).contains(result@),
        receives(*final(channel)) == receives(*old(channel)).push(received_view(received)),
        result_capacity(*final(channel)) == result_capacity(*old(channel)),
        results_given(*final(channel)) == results_given(*old(channel)),
{
    channel.try_recv().ok()
}

/// The ingest thread's ends of the queues to and from the recovery workers.
pub struct RecoveryPool {
    job_tx: Sender<RecoveryJob>,
    result_rx: Receiver<RecoveryResult>,
}

/// The workers' ends of the queues; each worker takes a copy.
pub struct WorkerChannels {
    pub job_rx: Receiver<RecoveryJob>,
    pub result_tx: Sender<RecoveryResult>,
}

/// How many workers run when `workers` are asked for: at least one.
pub open spec fn worker_count(workers: nat) -> nat {
    if workers == 0 {
        1
    } else {
        workers
    }
}

/// How many messages the queues hold for that many workers: four for each.
pub open spec fn queue_depth(workers: nat) -> nat {
    worker_count(workers) * 4
}

impl RecoveryPool {
    /// How many jobs can wait for a worker.
    pub closed spec fn job_capacity(self) -> nat {
        job_capacity(self.job_tx)
    }

    /// How many results can wait to be applied.
    pub closed spec fn result_capacity(self) -> nat {
        result_capacity(self.result_rx)
    }

    /// The jobs that the workers' queue takes.
    pub closed spec fn jobs_taken(self) -> Set<JobView> {
        jobs_taken(self.job_tx)
    }

    /// The results that come from the workers.
    pub closed spec fn results_given(self) -> Set<ResultView> {
        results_given(self.result_rx)
    }

    /// The attempts to hand a job to the workers that were made, in order: the
    /// job, and whether their queue took it.
    pub closed spec fn sends(self) -> Seq<(JobView, bool)> {
        sends(self.job_tx)
    }

    /// The attempts to take a result without waiting that were made, in
    /// order: what came, or that nothing waited.
    pub closed spec fn receives(self) -> Seq<Option<ResultView>> {
        receives(self.result_rx)
    }

    /// The queues behind two values are the same, whatever was sent and
    /// received meanwhile.
    pub open spec fn same_queues(self, other: RecoveryPool) -> bool {
        &&& self.job_capacity() == other.job_capacity()
        &&& self.result_capacity() == other.result_capacity()
        &&& self.jobs_taken() == other.jobs_taken()
        &&& self.results_given() == other.results_given()
    }

    /// The receiving end of the results.
    pub closed spec fn results(self) -> Receiver<RecoveryResult> {
        self.result_rx
    }

    /// Makes the queues. Returns the ends of the ingest thread, those of the
    /// workers, and how many workers to start.
    pub fn new(workers: usize) -> (r: (RecoveryPool, WorkerChannels, usize))
        requires
            queue_depth(workers as nat) <= MAX_QUEUE_DEPTH,
        ensures
            r.0.job_capacity() == queue_depth(workers as nat),
            r.0.result_capacity() == queue_depth(workers as nat),
            jobs_given(r.1.job_rx).subset_of(r.0.jobs_taken()),
            r.0.results_given().subset_of(results_taken(r.1.result_tx)),
            r.0.sends() == Seq::<(JobView, bool)>::empty(),
            r.0.receives() == Seq::<Option<ResultView>>::empty(),
            r.2 == worker_count(workers as nat),
    {
        let workers: usize = if workers == 0 {
            1
        } else {
            workers
        };
        let (job_tx, job_rx, result_tx, result_rx) = open_channels(workers * 4);
        (RecoveryPool { job_tx, result_rx }, WorkerChannels { job_rx, result_tx }, workers)
    }

    /// Hands a job to the workers without waiting: it is in their queue
    /// afterwards, or comes back unchanged, so that it can be tried again.
    pub fn try_dispatch(&mut self, job: RecoveryJob) -> (r: Result<(), RecoveryJob>)
        ensures
            match r {
                Ok(()) => old(self).jobs_taken().contains(job@),
                Err(back) => back == job,
            },
            final(self).sends() == old(self).sends().push((job@, r is Ok)),
            final(self).receives() == old(self).receives(),
            final(self).same_queues(*old(self)),
    {
        send_result(try_send(&mut self.job_tx, job))
    }

    /// Takes a result that a worker has finished, if there is one.
    pub fn try_recv(&mut self) -> (received: Option<RecoveryResult>)
        ensures
            received matches Some(result) ==> old(self).results_given().contains(result@),
            final(self).receives() == old(self).receives().push(received_view(received)),
            final(self).sends() == old(self).sends(),
            final(self).same_queues(*old(self)),
    {
        try_receive(&mut self.result_rx)
    }

    /// The receiving end of the results, to wait on together with others.
    pub fn result_receiver(&self) -> (results: &Receiver<RecoveryResult>)
        ensures
            *results == self.results(),
            result_capacity(*results) == self.result_capacity(),
            results_given(*results) == self.results_given(),
    {
        &self.result_rx
    }
}

/// The shreds among what a recovery yielded, in order.
pub open spec fn recovered_shreds(items: Seq<Result<Shred, String>>) -> Seq<ShredView>
    decreases items.len(),
{
    if items.len() == 0 {
        Seq::empty()
    } else {
        match items.last() {
            Ok(s) => recovered_shreds(items.drop_last()).push(s@),
            Err(_) => recovered_shreds(items.drop_last()),
        }
    }
}

/// Keeps what a recovery brought back: of a set that could be decoded the
/// shreds that came out sound, of any other nothing.
pub fn run_recovery(outcome: Result<Vec<Result<Shred, String>>, String>) -> (recovered: Vec<Shred>)
    ensures
        views_of(recovered@) == match outcome {
            Ok(items) => recovered_shreds(items@),
            Err(_) => Seq::empty(),
        },
{
    let mut recovered: Vec<Shred> = Vec::new();
    assert(views_of(recovered@) =~= Seq::empty());
    let items = match outcome {
        Ok(items) => items,
        Err(_) => return recovered,
    };
    let ghost all = items@;
    assert(all.take(0) =~= Seq::empty());
    for item in walk: items
        invariant
            walk.seq() == all,
            views_of(recovered@) == recovered_shreds(all.take(walk.index())),
    {
        let ghost n = walk.index();
        let ghost kept = recovered@;
        assert(all.take(n + 1).drop_last() =~= all.take(n));
        assert(all.take(n + 1).last() == item);
        if let Ok(shred) = item {
            recovered.push(shred);
            assert(views_of(recovered@) =~= views_of(kept).push(shred@));
        }
    }
    assert(all.take(all.len() as int) =~= all);
    recovered
}

/// What a worker thread has just learnt.
pub enum WorkerEvent {
    /// The decoder is shutting down.
    ExitRequested,
    /// The worker is idle and the decoder runs.
    Ready,
    /// No job came in time.
    TimedOut,
    /// No job will come any more.
    JobsClosed,
    /// A job came.
    Job(RecoveryJob),
    /// A result was handed over.
    ResultSent,
    /// Nobody takes results any more.
    ResultsClosed,
}

/// What a worker thread does next.
pub enum WorkerAction {
    /// Look whether the decoder is shutting down.
    CheckExit,
    /// Wait for a job.
    AwaitJob,
    /// Recover the set and hand over the result.
    Recover(RecoveryJob),
    /// End the thread.
    Stop,
}

/// What a worker thread does after an event: it works off jobs until it is
/// told to stop or either queue is closed.
pub fn next_worker_action(event: WorkerEvent) -> (action: WorkerAction)
    ensures
        action == match event {
            WorkerEvent::ExitRequested => WorkerAction::Stop,
            WorkerEvent::Ready => WorkerAction::AwaitJob,
            WorkerEvent::TimedOut => WorkerAction::CheckExit,
            WorkerEvent::JobsClosed => WorkerAction::Stop,
            WorkerEvent::Job(job) => WorkerAction::Recover(job),
            WorkerEvent::ResultSent => WorkerAction::CheckExit,
            WorkerEvent::ResultsClosed => WorkerAction::Stop,
        },
{
    match event {
        WorkerEvent::ExitRequested => WorkerAction::Stop,
        WorkerEvent::Ready => WorkerAction::AwaitJob,
        WorkerEvent::TimedOut => WorkerAction::CheckExit,
        WorkerEvent::JobsClosed => WorkerAction::Stop,
        WorkerEvent::Job(job) => WorkerAction::Recover(job),
        WorkerEvent::ResultSent => WorkerAction::CheckExit,
        WorkerEvent::ResultsClosed => WorkerAction::Stop,
    }
}

/// The result of a job, given what its recovery brought back.
pub fn job_result(
    slot: u64,
    fec_set_index: u32,
    outcome: Result<Vec<Result<Shred, String>>, String>,
) -> (result: RecoveryResult)
    ensures
        result@ == (ResultView {
            slot,
            fec_set_index,
            recovered: match outcome {
                Ok(items) => recovered_shreds(items@),
                Err(_) => Seq::empty(),
            },
        }),
{
    let recovered = run_recovery(outcome);
    RecoveryResult { slot, fec_set_index, recovered }
}

} // verus!
