//! The hash workers and the writer, as dialogues. Each is told what came of the
//! last thing it asked for and says what to do next; whoever drives them owns the
//! queues, the files and the database.

use vstd::prelude::*;

use crate::config::Config;
use crate::rows::{copy_bytes, FileRow, StageEntry};
use crate::stage::{
    after_batch, batch_effects, batch_views, floor_bytes, flush, hash, hash_counted, hash_messages,
    is_problem, message_views, stage, staging_counted, staging_of, AfterBatch, BatchView, Flush,
    HashAttempt, Staging, StagingView, WriteMsg, WriteMsgView,
};
use crate::walk::{no_counts, Counters, MsgView, Observed, ObservedView, WalkMsg};

verus! {

/// What a hash worker waits for.
#[derive(Debug, Clone, Copy, PartialEq, Eq, Structural)]
pub enum WorkerPhase {
    Idle,
    Receiving,
    /// The rows at the path of an observed file are being looked up.
    Looking,
    Hashing,
    Sending,
    Done,
}

/// What came of a worker's last action.
#[derive(Debug)]
pub enum WorkerEvent {
    Start,
    Message(WalkMsg),
    /// No message will come any more.
    Closed,
    /// The staging entry and the baseline row at the path, where there are any.
    Found { staged: Option<StageEntry>, prior: Option<FileRow> },
    Hashed(HashAttempt),
    /// Whether the message was taken.
    Sent(bool),
}

/// What a worker wants done.
#[derive(Debug)]
pub enum WorkerAction {
    Receive,
    /// Look up the rows at this relative path.
    LookUp(Vec<u8>),
    /// Read the file at this path.
    Hash(Vec<u8>),
    Send(WriteMsg),
    Stop,
}

pub enum WorkerActionView {
    Receive,
    LookUp(Seq<u8>),
    Hash(Seq<u8>),
    Send(WriteMsgView),
    Stop,
}

impl View for WorkerAction {
    type V = WorkerActionView;

    open spec fn view(&self) -> WorkerActionView {
        match *self {
            WorkerAction::Receive => WorkerActionView::Receive,
            WorkerAction::LookUp(rel) => WorkerActionView::LookUp(rel@),
            WorkerAction::Hash(path) => WorkerActionView::Hash(path@),
            WorkerAction::Send(m) => WorkerActionView::Send(m@),
            WorkerAction::Stop => WorkerActionView::Stop,
        }
    }
}

/// Where a worker stands.
#[verifier::ext_equal]
pub struct WorkerState {
    pub phase: WorkerPhase,
    /// The file at hand.
    pub item: Option<ObservedView>,
    /// Messages to be sent after the one being sent.
    pub queue: Seq<WriteMsgView>,
    pub counts: Counters,
}

pub open spec fn worker_stopped(s: WorkerState) -> (WorkerState, WorkerActionView) {
    (WorkerState { phase: WorkerPhase::Done, ..s }, WorkerActionView::Stop)
}

/// Goes on to the next message, unless the scan was cancelled.
pub open spec fn worker_receives(s: WorkerState, cancelled: bool) -> (
    WorkerState,
    WorkerActionView,
) {
    if cancelled {
        worker_stopped(s)
    } else {
        (WorkerState { phase: WorkerPhase::Receiving, ..s }, WorkerActionView::Receive)
    }
}

/// Sends the first of these, then the rest.
pub open spec fn worker_sends(s: WorkerState, msgs: Seq<WriteMsgView>) -> (
    WorkerState,
    WorkerActionView,
) {
    (
        WorkerState { phase: WorkerPhase::Sending, queue: msgs.skip(1), ..s },
        WorkerActionView::Send(msgs[0]),
    )
}

/// What follows from one answer. A message that is not taken means that the far
/// end is gone: going on would hash the rest of the tree for nobody.
pub open spec fn worker_step(s: WorkerState, e: WorkerEvent, cancelled: bool) -> (
    WorkerState,
    WorkerActionView,
) {
    match (s.phase, e) {
        (WorkerPhase::Idle, WorkerEvent::Start) => worker_receives(s, cancelled),
        (WorkerPhase::Receiving, WorkerEvent::Message(msg)) => match msg@ {
            MsgView::Error { rel, code, message } => worker_sends(
                s,
                seq![WriteMsgView::Error { rel, stage: "walk"@, code, message }],
            ),
            MsgView::Item(item) => (
                WorkerState { phase: WorkerPhase::Looking, item: Some(item), ..s },
                WorkerActionView::LookUp(item.rel),
            ),
        },
        (WorkerPhase::Looking, WorkerEvent::Found { staged, prior }) => match s.item {
            Some(item) => {
                let counted = WorkerState {
                    counts: staging_counted(s.counts, item, staged, prior),
                    ..s
                };
                match staging_of(item, staged, prior) {
                    StagingView::Send(m) => worker_sends(
                        WorkerState { item: None, ..counted },
                        seq![m],
                    ),
                    StagingView::Hash(o) => (
                        WorkerState { phase: WorkerPhase::Hashing, ..counted },
                        WorkerActionView::Hash(o.path),
                    ),
                }
            },
            None => worker_stopped(s),
        },
        (WorkerPhase::Hashing, WorkerEvent::Hashed(attempt)) => match s.item {
            Some(item) => worker_sends(
                WorkerState { item: None, counts: hash_counted(s.counts, item, attempt), ..s },
                hash_messages(item, attempt),
            ),
            None => worker_stopped(s),
        },
        (WorkerPhase::Sending, WorkerEvent::Sent(taken)) => if !taken {
            worker_stopped(s)
        } else if s.queue.len() > 0 {
            worker_sends(s, s.queue)
        } else {
            worker_receives(s, cancelled)
        },
        _ => worker_stopped(s),
    }
}

/// One hash worker.
pub struct Worker {
    phase: WorkerPhase,
    item: Option<Observed>,
    queue: Vec<WriteMsg>,
    counts: Counters,
}

pub open spec fn observed_view(item: Option<Observed>) -> Option<ObservedView> {
    match item {
        Some(o) => Some(o@),
        None => None,
    }
}

impl View for Worker {
    type V = WorkerState;

    closed spec fn view(&self) -> WorkerState {
        WorkerState {
            phase: self.phase,
            item: observed_view(self.item),
            queue: message_views(self.queue@),
            counts: self.counts,
        }
    }
}

impl Worker {
    pub fn new() -> (r: Worker)
        ensures
            r@ == (WorkerState {
                phase: WorkerPhase::Idle,
                item: None,
                queue: Seq::empty(),
                counts: no_counts(),
            }),
    {
        let r = Worker {
            phase: WorkerPhase::Idle,
            item: None,
            queue: Vec::new(),
            counts: Counters::default(),
        };
        assert(message_views(r.queue@) =~= Seq::<WriteMsgView>::empty());
        r
    }

    pub fn counts(&self) -> (r: Counters)
        ensures
            r == self@.counts,
    {
        self.counts
    }

    fn stop(&mut self) -> (r: WorkerAction)
        ensures
            (final(self)@, r@) == worker_stopped(old(self)@),
    {
        self.phase = WorkerPhase::Done;
        WorkerAction::Stop
    }

    fn receive(&mut self, cancelled: bool) -> (r: WorkerAction)
        ensures
            (final(self)@, r@) == worker_receives(old(self)@, cancelled),
    {
        if cancelled {
            return self.stop();
        }
        self.phase = WorkerPhase::Receiving;
        WorkerAction::Receive
    }

    fn send(&mut self, msgs: Vec<WriteMsg>) -> (r: WorkerAction)
        requires
            msgs@.len() > 0,
        ensures
            (final(self)@, r@) == worker_sends(old(self)@, message_views(msgs@)),
    {
        let mut rest = msgs;
        let first = rest.remove(0);
        assert(message_views(rest@) =~= message_views(msgs@).skip(1));
        self.queue = rest;
        self.phase = WorkerPhase::Sending;
        WorkerAction::Send(first)
    }

    /// Takes in what came of the last action and says what to do next.
    pub fn run(&mut self, event: WorkerEvent, cancelled: bool) -> (r: WorkerAction)
        ensures
            (final(self)@, r@) == worker_step(old(self)@, event, cancelled),
    {
        match (self.phase, event) {
            (WorkerPhase::Idle, WorkerEvent::Start) => self.receive(cancelled),
            (WorkerPhase::Receiving, WorkerEvent::Message(msg)) => match msg {
                WalkMsg::Error { rel, code, message } => {
                    let mut msgs: Vec<WriteMsg> = Vec::new();
                    msgs.push(WriteMsg::Error { rel, stage: "walk", code, message });
                    assert(message_views(msgs@) =~= seq![msgs@[0]@]);
                    self.send(msgs)
                },
                WalkMsg::Item(item) => {
                    let rel = copy_bytes(item.rel.as_slice());
                    self.item = Some(item);
                    self.phase = WorkerPhase::Looking;
                    WorkerAction::LookUp(rel)
                },
            },
            (WorkerPhase::Looking, WorkerEvent::Found { staged, prior }) => match self.item.take() {
                Some(item) => {
                    let mut counts: Counters = self.counts;
                    let decision = stage(item, staged.as_ref(), prior.as_ref(), &mut counts);
                    self.counts = counts;
                    match decision {
                        Staging::Send(m) => {
                            let mut msgs: Vec<WriteMsg> = Vec::new();
                            msgs.push(m);
                            assert(message_views(msgs@) =~= seq![m@]);
                            self.send(msgs)
                        },
                        Staging::Hash(o) => {
                            let path = copy_bytes(o.path.as_slice());
                            self.item = Some(o);
                            self.phase = WorkerPhase::Hashing;
                            WorkerAction::Hash(path)
                        },
                    }
                },
                None => self.stop(),
            },
            (WorkerPhase::Hashing, WorkerEvent::Hashed(attempt)) => match self.item.take() {
                Some(item) => {
                    let mut counts: Counters = self.counts;
                    let ghost seen = item@;
                    let msgs = hash(item, attempt, &mut counts);
                    self.counts = counts;
                    assert(msgs@.len() == hash_messages(seen, attempt).len());
                    self.send(msgs)
                },
                None => self.stop(),
            },
            (WorkerPhase::Sending, WorkerEvent::Sent(taken)) => {
                if !taken {
                    self.stop()
                } else if self.queue.len() > 0 {
                    let mut msgs: Vec<WriteMsg> = Vec::new();
                    std::mem::swap(&mut msgs, &mut self.queue);
                    self.send(msgs)
                } else {
                    self.receive(cancelled)
                }
            },
            _ => self.stop(),
        }
    }
}

/// What the writer waits for.
#[derive(Debug, Clone, Copy, PartialEq, Eq, Structural)]
pub enum WriterPhase {
    Idle,
    /// Nothing is at hand; a message is waited for.
    Waiting,
    /// A batch is begun; what is there already is added to it.
    Filling,
    Writing,
    Measuring,
    Pausing,
    Done,
}

/// What came of the writer's last action.
#[derive(Debug)]
pub enum WriterEvent {
    Start,
    Message(WriteMsg),
    /// No message is there right now.
    Empty,
    /// No message will come any more.
    Closed,
    /// The batch is durable.
    Written,
    /// The bytes that are free.
    Free(u64),
    Resumed,
}

/// What the writer wants done.
#[derive(Debug)]
pub enum WriterAction {
    /// Wait for a message.
    Receive,
    /// Take a message if one is there.
    TryReceive,
    /// Make these effects durable, in one transaction.
    Write(Flush),
    /// Measure the free space.
    Measure,
    /// Show progress, then pause for this many milliseconds.
    Pause(u64),
    /// Nothing more is written. `low_space` means that the floor was crossed, and
    /// that the scan is to be stopped.
    Finish { low_space: bool },
}

pub enum WriterActionView {
    Receive,
    TryReceive,
    /// With how many problems and how many files are among them.
    Write { effects: Seq<BatchView>, errors: nat, files: nat },
    Measure,
    Pause(u64),
    Finish { low_space: bool },
}

impl View for WriterAction {
    type V = WriterActionView;

    open spec fn view(&self) -> WriterActionView {
        match *self {
            WriterAction::Receive => WriterActionView::Receive,
            WriterAction::TryReceive => WriterActionView::TryReceive,
            WriterAction::Write(f) => WriterActionView::Write {
                effects: batch_views(f.writes@),
                errors: f.errors as nat,
                files: f.files as nat,
            },
            WriterAction::Measure => WriterActionView::Measure,
            WriterAction::Pause(ms) => WriterActionView::Pause(ms),
            WriterAction::Finish { low_space } => WriterActionView::Finish { low_space },
        }
    }
}

/// Where the writer stands. A count past the largest value wraps.
#[verifier::ext_equal]
pub struct WriterState {
    pub phase: WriterPhase,
    pub batch: Seq<WriteMsgView>,
    /// Problems written so far.
    pub errors: usize,
    /// Files written so far.
    pub processed: u64,
}

/// How many of these are problems.
pub open spec fn problems_in(batch: Seq<WriteMsgView>) -> nat {
    batch.filter(|m: WriteMsgView| is_problem(m)).len()
}

/// Hands the whole batch over to be written.
pub open spec fn writer_writes(s: WriterState) -> (WriterState, WriterActionView) {
    (
        WriterState {
            phase: WriterPhase::Writing,
            batch: Seq::empty(),
            errors: s.errors.wrapping_add(problems_in(s.batch) as usize),
            processed: s.processed.wrapping_add(
                (s.batch.len() - problems_in(s.batch)) as u64,
            ),
        },
        WriterActionView::Write {
            effects: batch_effects(s.batch),
            errors: problems_in(s.batch),
            files: (s.batch.len() - problems_in(s.batch)) as nat,
        },
    )
}

/// Goes on filling a batch, or writes it once it is full.
pub open spec fn writer_adds(s: WriterState, m: WriteMsgView, rows: usize) -> (
    WriterState,
    WriterActionView,
) {
    let more = WriterState { phase: WriterPhase::Filling, batch: s.batch.push(m), ..s };
    if more.batch.len() < rows {
        (more, WriterActionView::TryReceive)
    } else {
        writer_writes(more)
    }
}

pub open spec fn writer_finishes(s: WriterState, low_space: bool) -> (
    WriterState,
    WriterActionView,
) {
    (WriterState { phase: WriterPhase::Done, ..s }, WriterActionView::Finish { low_space })
}

/// What follows from one answer. The batch just made durable is the last thing
/// written before the space is measured, so that the scan stops with room left.
pub open spec fn writer_step(s: WriterState, e: WriterEvent, c: Config) -> (
    WriterState,
    WriterActionView,
) {
    match (s.phase, e) {
        (WriterPhase::Idle, WriterEvent::Start) => (
            WriterState { phase: WriterPhase::Waiting, ..s },
            WriterActionView::Receive,
        ),
        (WriterPhase::Waiting, WriterEvent::Message(m)) => writer_adds(s, m@, c.writer_batch_rows),
        (WriterPhase::Filling, WriterEvent::Message(m)) => writer_adds(s, m@, c.writer_batch_rows),
        (WriterPhase::Filling, WriterEvent::Empty) => writer_writes(s),
        (WriterPhase::Filling, WriterEvent::Closed) => writer_writes(s),
        (WriterPhase::Writing, WriterEvent::Written) => (
            WriterState { phase: WriterPhase::Measuring, ..s },
            WriterActionView::Measure,
        ),
        (WriterPhase::Measuring, WriterEvent::Free(bytes)) => if bytes < floor_bytes(
            c.minimum_free_space_mib,
        ) {
            writer_finishes(s, true)
        } else {
            (
                WriterState { phase: WriterPhase::Pausing, ..s },
                WriterActionView::Pause(c.throttle_ms_after_batch),
            )
        },
        (WriterPhase::Pausing, WriterEvent::Resumed) => (
            WriterState { phase: WriterPhase::Waiting, ..s },
            WriterActionView::Receive,
        ),
        _ => writer_finishes(s, false),
    }
}

/// The single staging writer. It commits in batches, so that an interrupted scan
/// keeps everything already durable, and pauses only between batches.
pub struct Writer {
    phase: WriterPhase,
    batch: Vec<WriteMsg>,
    errors: usize,
    processed: u64,
}

impl View for Writer {
    type V = WriterState;

    closed spec fn view(&self) -> WriterState {
        WriterState {
            phase: self.phase,
            batch: message_views(self.batch@),
            errors: self.errors,
            processed: self.processed,
        }
    }
}

impl Writer {
    pub fn new() -> (r: Writer)
        ensures
            r@ == (WriterState {
                phase: WriterPhase::Idle,
                batch: Seq::empty(),
                errors: 0,
                processed: 0,
            }),
    {
        let r = Writer { phase: WriterPhase::Idle, batch: Vec::new(), errors: 0, processed: 0 };
        assert(message_views(r.batch@) =~= Seq::<WriteMsgView>::empty());
        r
    }

    pub fn errors(&self) -> (r: usize)
        ensures
            r == self@.errors,
    {
        self.errors
    }

    pub fn processed(&self) -> (r: u64)
        ensures
            r == self@.processed,
    {
        self.processed
    }

    fn finish(&mut self, low_space: bool) -> (r: WriterAction)
        ensures
            (final(self)@, r@) == writer_finishes(old(self)@, low_space),
    {
        self.phase = WriterPhase::Done;
        WriterAction::Finish { low_space }
    }

    fn write(&mut self) -> (r: WriterAction)
        ensures
            (final(self)@, r@) == writer_writes(old(self)@),
    {
        let mut batch: Vec<WriteMsg> = Vec::new();
        std::mem::swap(&mut batch, &mut self.batch);
        assert(message_views(self.batch@) =~= Seq::<WriteMsgView>::empty());
        let flushed = flush(batch);
        self.errors = self.errors.wrapping_add(flushed.errors);
        self.processed = self.processed.wrapping_add(flushed.files as u64);
        self.phase = WriterPhase::Writing;
        WriterAction::Write(flushed)
    }

    fn take_in(&mut self, m: WriteMsg, rows: usize) -> (r: WriterAction)
        ensures
            (final(self)@, r@) == writer_adds(old(self)@, m@, rows),
    {
        self.batch.push(m);
        assert(message_views(self.batch@) =~= old(self)@.batch.push(m@));
        self.phase = WriterPhase::Filling;
        if self.batch.len() < rows {
            WriterAction::TryReceive
        } else {
            self.write()
        }
    }

    /// Takes in what came of the last action and says what to do next.
    pub fn run(&mut self, event: WriterEvent, config: &Config) -> (r: WriterAction)
        ensures
            (final(self)@, r@) == writer_step(old(self)@, event, *config),
    {
        match (self.phase, event) {
            (WriterPhase::Idle, WriterEvent::Start) => {
                self.phase = WriterPhase::Waiting;
                WriterAction::Receive
            },
            (WriterPhase::Waiting, WriterEvent::Message(m)) => {
                self.take_in(m, config.writer_batch_rows)
            },
            (WriterPhase::Filling, WriterEvent::Message(m)) => {
                self.take_in(m, config.writer_batch_rows)
            },
            (WriterPhase::Filling, WriterEvent::Empty) => self.write(),
            (WriterPhase::Filling, WriterEvent::Closed) => self.write(),
            (WriterPhase::Writing, WriterEvent::Written) => {
                self.phase = WriterPhase::Measuring;
                WriterAction::Measure
            },
            (WriterPhase::Measuring, WriterEvent::Free(bytes)) => match after_batch(bytes, config) {
                AfterBatch::LowSpace => self.finish(true),
                AfterBatch::Continue { pause_ms } => {
                    self.phase = WriterPhase::Pausing;
                    WriterAction::Pause(pause_ms)
                },
            },
            (WriterPhase::Pausing, WriterEvent::Resumed) => {
                self.phase = WriterPhase::Waiting;
                WriterAction::Receive
            },
            _ => self.finish(false),
        }
    }
}

/// The writer loses nothing and writes nothing twice: while it listens, what it has
/// at hand is either written whole, after which nothing is at hand, or kept whole.
pub proof fn law_writer_loses_nothing(s: WriterState, e: WriterEvent, c: Config)
    requires
        s.phase == WriterPhase::Waiting || s.phase == WriterPhase::Filling,
        e is Message || (s.phase == WriterPhase::Filling && (e is Empty || e is Closed)),
    ensures
        match writer_step(s, e, c).1 {
            WriterActionView::Write { effects, .. } => effects == batch_effects(
                match e {
                    WriterEvent::Message(m) => s.batch.push(m@),
                    _ => s.batch,
                },
            ) && writer_step(s, e, c).0.batch.len() == 0,
            _ => writer_step(s, e, c).0.batch == s.batch.push(e->Message_0@),
        },
{
}

/// No batch is begun before the space left by the last one has been measured and
/// found to be above the floor.
pub proof fn law_space_is_measured_after_every_batch(s: WriterState, e: WriterEvent, c: Config)
    ensures
        s.phase == WriterPhase::Writing && e is Written ==> writer_step(s, e, c).1 is Measure,
        writer_step(s, e, c).0.phase == WriterPhase::Waiting ==> s.phase == WriterPhase::Idle
            || s.phase == WriterPhase::Pausing,
        writer_step(s, e, c).0.phase == WriterPhase::Pausing ==> s.phase == WriterPhase::Measuring
            && (e matches WriterEvent::Free(bytes) && bytes >= floor_bytes(
            c.minimum_free_space_mib,
        )),
{
}

/// A worker whose message is not taken, or whose scan is cancelled, takes no
/// further message.
pub proof fn law_worker_stops_when_nobody_listens(s: WorkerState, e: WorkerEvent, cancelled: bool)
    ensures
        s.phase == WorkerPhase::Sending && e == WorkerEvent::Sent(false) ==> worker_step(
            s,
            e,
            cancelled,
        ).1 is Stop,
        cancelled ==> !(worker_step(s, e, cancelled).1 is Receive),
{
}

/// A worker takes messages one by one until it is cancelled. It hands on a problem of
/// the walk as it is, under the walk's name, and looks up the path of a file.
pub proof fn law_worker_takes_messages(s: WorkerState, msg: WalkMsg, cancelled: bool)
    ensures
        s.phase == WorkerPhase::Idle ==> worker_step(s, WorkerEvent::Start, cancelled) == (
            if cancelled {
                (WorkerState { phase: WorkerPhase::Done, ..s }, WorkerActionView::Stop)
            } else {
                (WorkerState { phase: WorkerPhase::Receiving, ..s }, WorkerActionView::Receive)
            }),
        s.phase == WorkerPhase::Receiving ==> ({
            let n = worker_step(s, WorkerEvent::Message(msg), cancelled);
            &&& msg@ matches MsgView::Error { rel, code, message } ==> n.1
                == WorkerActionView::Send(
                WriteMsgView::Error { rel, stage: "walk"@, code, message },
            ) && n.0.phase == WorkerPhase::Sending && n.0.queue.len() == 0 && n.0.counts == s.counts
            &&& msg@ matches MsgView::Item(o) ==> n == (
                WorkerState { phase: WorkerPhase::Looking, item: Some(o), ..s },
                WorkerActionView::LookUp(o.rel),
            )
        }),
        s.phase == WorkerPhase::Receiving ==> worker_step(s, WorkerEvent::Closed, cancelled).1 is Stop,
{
}

/// With the rows at its path looked up, a file is handed on or read, as staging
/// decides; it stays at hand while it is read.
pub proof fn law_worker_does_what_staging_decides(
    s: WorkerState,
    staged: Option<StageEntry>,
    prior: Option<FileRow>,
    o: ObservedView,
    cancelled: bool,
)
    requires
        s.phase == WorkerPhase::Looking,
        s.item == Some(o),
    ensures
        ({
            let n = worker_step(s, WorkerEvent::Found { staged, prior }, cancelled);
            &&& n.0.counts == staging_counted(s.counts, o, staged, prior)
            &&& staging_of(o, staged, prior) matches StagingView::Send(m) ==> n.1
                == WorkerActionView::Send(m) && n.0.phase == WorkerPhase::Sending
                && n.0.queue.len() == 0
            &&& staging_of(o, staged, prior) is Hash ==> n.1 == WorkerActionView::Hash(o.path)
                && n.0.phase == WorkerPhase::Hashing && n.0.item == Some(o)
        }),
{
}

/// Once a file has been read, or could not be, everything there is to say of it is
/// sent, in order.
pub proof fn law_worker_sends_what_reading_gave(
    s: WorkerState,
    attempt: HashAttempt,
    o: ObservedView,
    cancelled: bool,
)
    requires
        s.phase == WorkerPhase::Hashing,
        s.item == Some(o),
    ensures
        ({
            let n = worker_step(s, WorkerEvent::Hashed(attempt), cancelled);
            &&& n.0.phase == WorkerPhase::Sending
            &&& n.0.counts == hash_counted(s.counts, o, attempt)
            &&& n.1 matches WorkerActionView::Send(m) && seq![m] + n.0.queue == hash_messages(
                o,
                attempt,
            )
        }),
{
    let all = hash_messages(o, attempt);
    assert(seq![all[0]] + all.skip(1) =~= all);
}

/// A message that was taken is followed by the next one of the same file, and after
/// the last by the next message of the walk, unless the scan was cancelled.
pub proof fn law_worker_sends_one_after_the_other(s: WorkerState, cancelled: bool)
    requires
        s.phase == WorkerPhase::Sending,
    ensures
        ({
            let n = worker_step(s, WorkerEvent::Sent(true), cancelled);
            &&& n.0.counts == s.counts
            &&& s.queue.len() > 0 ==> (n.1 matches WorkerActionView::Send(m) && seq![m] + n.0.queue
                == s.queue) && n.0.phase == WorkerPhase::Sending
            &&& s.queue.len() == 0 && !cancelled ==> n.1 is Receive && n.0.phase
                == WorkerPhase::Receiving
            &&& s.queue.len() == 0 && cancelled ==> n.1 is Stop
        }),
{
    if s.queue.len() > 0 {
        assert(seq![s.queue[0]] + s.queue.skip(1) =~= s.queue);
    }
}

/// The writer begins by waiting, adds each message to the batch at hand, and writes
/// the batch when it holds the configured number of messages, when no other is there,
/// or when none will come any more. What it writes are the effects of the batch, and
/// it counts the problems and the files in it.
pub proof fn law_writer_writes_full_batches(s: WriterState, e: WriterEvent, c: Config)
    ensures
        s.phase == WriterPhase::Idle && e is Start ==> writer_step(s, e, c) == (
            WriterState { phase: WriterPhase::Waiting, ..s },
            WriterActionView::Receive,
        ),
        (s.phase == WriterPhase::Waiting || s.phase == WriterPhase::Filling)
            && (e matches WriterEvent::Message(m) && s.batch.len() + 1 < c.writer_batch_rows)
            ==> writer_step(s, e, c) == (
            WriterState {
                phase: WriterPhase::Filling,
                batch: s.batch.push(e->Message_0@),
                ..s
            },
            WriterActionView::TryReceive,
        ),
        (s.phase == WriterPhase::Waiting || s.phase == WriterPhase::Filling)
            && (e matches WriterEvent::Message(m) && s.batch.len() + 1 >= c.writer_batch_rows)
            ==> writes_all(s, s.batch.push(e->Message_0@), writer_step(s, e, c)),
        s.phase == WriterPhase::Filling && (e is Empty || e is Closed) ==> writes_all(
            s,
            s.batch,
            writer_step(s, e, c),
        ),
        s.phase == WriterPhase::Waiting && e is Closed ==> writer_step(s, e, c).1
            == (WriterActionView::Finish { low_space: false }),
{
    let problem = |m: WriteMsgView| is_problem(m);
    assert(problem =~= (|m: WriteMsgView| m is Error));
    lemma_problems_are_messages(s.batch);
    if let WriterEvent::Message(m) = e {
        lemma_problems_are_messages(s.batch.push(m@));
    }
}

proof fn lemma_problems_are_messages(batch: Seq<WriteMsgView>)
    ensures
        problems_in(batch) <= batch.len(),
    decreases batch.len(),
{
    reveal(Seq::filter);
    if batch.len() > 0 {
        lemma_problems_are_messages(batch.drop_last());
    }
}

/// The writer, standing at `s`, writes this batch and has nothing at hand afterwards.
pub open spec fn writes_all(
    s: WriterState,
    batch: Seq<WriteMsgView>,
    n: (WriterState, WriterActionView),
) -> bool {
    let problems = batch.filter(|m: WriteMsgView| m is Error).len();
    &&& n.1 matches WriterActionView::Write { effects, errors, files } && effects == batch_effects(
        batch,
    ) && errors == problems && files == batch.len() - problems
    &&& n.0.phase == WriterPhase::Writing
    &&& n.0.batch.len() == 0
    &&& n.0.errors == s.errors.wrapping_add(problems as usize)
    &&& n.0.processed == s.processed.wrapping_add((batch.len() - problems) as u64)
}

/// After a batch the free space is measured. Below the floor the writer ends, and says
/// why; above, it pauses as configured and waits for the next message.
pub proof fn law_writer_stops_at_the_floor(s: WriterState, free: u64, c: Config)
    ensures
        s.phase == WriterPhase::Writing ==> writer_step(s, WriterEvent::Written, c) == (
            WriterState { phase: WriterPhase::Measuring, ..s },
            WriterActionView::Measure,
        ),
        s.phase == WriterPhase::Measuring && free < c.minimum_free_space_mib * 1048576
            && c.minimum_free_space_mib * 1048576 <= u64::MAX ==> writer_step(
            s,
            WriterEvent::Free(free),
            c,
        ).1 == (WriterActionView::Finish { low_space: true }),
        s.phase == WriterPhase::Measuring && free >= c.minimum_free_space_mib * 1048576
            ==> writer_step(s, WriterEvent::Free(free), c) == (
            WriterState { phase: WriterPhase::Pausing, ..s },
            WriterActionView::Pause(c.throttle_ms_after_batch),
        ),
        s.phase == WriterPhase::Pausing ==> writer_step(s, WriterEvent::Resumed, c) == (
            WriterState { phase: WriterPhase::Waiting, ..s },
            WriterActionView::Receive,
        ),
{
}

/// What a worker and the writer want done shows in full.
pub proof fn law_wishes_show_in_full(p: Vec<u8>, m: WriteMsg, f: Flush, ms: u64, low_space: bool)
    ensures
        WorkerAction::Receive@ == WorkerActionView::Receive,
        WorkerAction::LookUp(p)@ == WorkerActionView::LookUp(p@),
        WorkerAction::Hash(p)@ == WorkerActionView::Hash(p@),
        WorkerAction::Send(m)@ == WorkerActionView::Send(m@),
        WorkerAction::Stop@ == WorkerActionView::Stop,
        WriterAction::Receive@ == WriterActionView::Receive,
        WriterAction::TryReceive@ == WriterActionView::TryReceive,
        WriterAction::Write(f)@ == (WriterActionView::Write {
            effects: batch_views(f.writes@),
            errors: f.errors as nat,
            files: f.files as nat,
        }),
        WriterAction::Measure@ == WriterActionView::Measure,
        WriterAction::Pause(ms)@ == WriterActionView::Pause(ms),
        (WriterAction::Finish { low_space })@ == (WriterActionView::Finish { low_space }),
{
}

} // verus!
