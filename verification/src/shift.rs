//! What the hash workers and the writer amount to over a whole scan, when every
//! question they ask is answered from fixed tables and a fixed tree.

use vstd::prelude::*;

use crate::config::Config;
use crate::pipeline::{
    problems_in, worker_step, writer_step, WorkerActionView, WorkerEvent, WorkerPhase, WorkerState,
    WriterActionView, WriterEvent, WriterPhase, WriterState,
};
use crate::rows::{FileRow, StageEntry};
use crate::stage::{
    baseline_hit, batch_effects, effects, hash_counted, hash_messages, is_problem, staged_hit,
    staging_counted, staging_of, BatchView, HashAttempt, StagingView, WriteMsgView,
};
use crate::tour::files_in;
use crate::walk::{no_counts, summed, Counters, MsgView, ObservedView, WalkMsg};

verus! {

/// What a worker finds where it looks: the staging entry and the baseline row at a
/// path, and what comes of reading a file.
pub struct Desk {
    pub staged: spec_fn(Seq<u8>) -> Option<StageEntry>,
    pub prior: spec_fn(Seq<u8>) -> Option<FileRow>,
    pub read: spec_fn(Seq<u8>) -> HashAttempt,
}

/// What becomes of an observed file.
pub enum Fate {
    /// An entry staged earlier is kept.
    Staged,
    /// The baseline's hash is used.
    Baseline,
    /// It is read.
    Hashed,
    /// It cannot be read.
    Failed,
}

impl Desk {
    pub open spec fn fate(self, o: ObservedView) -> Fate {
        if staged_hit(o, (self.staged)(o.rel)) {
            Fate::Staged
        } else if baseline_hit(o, (self.prior)(o.rel)) {
            Fate::Baseline
        } else if (self.read)(o.path) is Read {
            Fate::Hashed
        } else {
            Fate::Failed
        }
    }

    /// What the writer is handed for a walk message.
    pub open spec fn handled(self, m: MsgView) -> Seq<WriteMsgView> {
        match m {
            MsgView::Error { rel, code, message } => seq![
                WriteMsgView::Error { rel, stage: "walk"@, code, message },
            ],
            MsgView::Item(o) => match staging_of(o, (self.staged)(o.rel), (self.prior)(o.rel)) {
                StagingView::Send(msg) => seq![msg],
                StagingView::Hash(_) => hash_messages(o, (self.read)(o.path)),
            },
        }
    }

    /// The counts after a walk message.
    pub open spec fn counted(self, c: Counters, m: MsgView) -> Counters {
        match m {
            MsgView::Error { .. } => c,
            MsgView::Item(o) => {
                let looked = staging_counted(c, o, (self.staged)(o.rel), (self.prior)(o.rel));
                match staging_of(o, (self.staged)(o.rel), (self.prior)(o.rel)) {
                    StagingView::Send(_) => looked,
                    StagingView::Hash(_) => hash_counted(looked, o, (self.read)(o.path)),
                }
            },
        }
    }

    /// What the writer is handed for several, in order.
    pub open spec fn all_handled(self, queue: Seq<MsgView>) -> Seq<WriteMsgView>
        decreases queue.len(),
    {
        if queue.len() == 0 {
            Seq::empty()
        } else {
            self.all_handled(queue.drop_last()) + self.handled(queue.last())
        }
    }

    pub open spec fn all_counted(self, queue: Seq<MsgView>) -> Counters
        decreases queue.len(),
    {
        if queue.len() == 0 {
            no_counts()
        } else {
            self.counted(self.all_counted(queue.drop_last()), queue.last())
        }
    }

    /// How many of these messages are files with this fate.
    pub open spec fn tally(self, queue: Seq<MsgView>, fate: Fate) -> nat
        decreases queue.len(),
    {
        if queue.len() == 0 {
            0
        } else {
            self.tally(queue.drop_last(), fate) + (match queue.last() {
                MsgView::Item(o) => if self.fate(o) == fate {
                    1
                } else {
                    0nat
                },
                _ => 0,
            })
        }
    }
}

pub open spec fn walk_views(queue: Seq<WalkMsg>) -> Seq<MsgView> {
    queue.map_values(|m: WalkMsg| m@)
}

/// A worker at its desk.
pub struct Shift {
    pub state: WorkerState,
    pub action: WorkerActionView,
    /// How many messages of its queue it has taken.
    pub taken: nat,
    /// The messages it has sent.
    pub sent: Seq<WriteMsgView>,
}

/// The answer to what a worker asks for.
pub open spec fn worker_answer(d: Desk, queue: Seq<WalkMsg>, t: Shift) -> WorkerEvent {
    match t.action {
        WorkerActionView::Receive => if t.taken < queue.len() {
            WorkerEvent::Message(queue[t.taken as int])
        } else {
            WorkerEvent::Closed
        },
        WorkerActionView::LookUp(rel) => WorkerEvent::Found {
            staged: (d.staged)(rel),
            prior: (d.prior)(rel),
        },
        WorkerActionView::Hash(path) => WorkerEvent::Hashed((d.read)(path)),
        WorkerActionView::Send(_) => WorkerEvent::Sent(true),
        WorkerActionView::Stop => WorkerEvent::Closed,
    }
}

/// A worker's shift over its queue, after `n` answers.
pub open spec fn shift(d: Desk, queue: Seq<WalkMsg>, n: nat) -> Shift
    decreases n,
{
    if n == 0 {
        let idle = WorkerState {
            phase: WorkerPhase::Idle,
            item: None,
            queue: Seq::empty(),
            counts: no_counts(),
        };
        let first = worker_step(idle, WorkerEvent::Start, false);
        Shift { state: first.0, action: first.1, taken: 0, sent: Seq::empty() }
    } else {
        let t = shift(d, queue, (n - 1) as nat);
        if t.action is Stop {
            t
        } else {
            let next = worker_step(t.state, worker_answer(d, queue, t), false);
            Shift {
                state: next.0,
                action: next.1,
                taken: if t.action is Receive && t.taken < queue.len() {
                    t.taken + 1
                } else {
                    t.taken
                },
                sent: match t.action {
                    WorkerActionView::Send(m) => t.sent.push(m),
                    _ => t.sent,
                },
            }
        }
    }
}

/// The messages taken before the one at hand.
spec fn done(queue: Seq<WalkMsg>, t: Shift) -> Seq<MsgView> {
    walk_views(queue).take(t.taken - 1)
}

spec fn at_desk(d: Desk, queue: Seq<WalkMsg>, t: Shift) -> bool {
    let s = t.state;
    let all = walk_views(queue);
    let now = all.take(t.taken as int);
    let before = done(queue, t);
    &&& t.taken <= queue.len()
    &&& match t.action {
        WorkerActionView::Receive => {
            &&& s.phase == WorkerPhase::Receiving
            &&& s.queue.len() == 0
            &&& t.sent == d.all_handled(now)
            &&& s.counts == d.all_counted(now)
        },
        WorkerActionView::LookUp(rel) => {
            &&& s.phase == WorkerPhase::Looking
            &&& t.taken > 0
            &&& s.item matches Some(o) && o.rel == rel && all[t.taken - 1] == MsgView::Item(o)
            &&& t.sent == d.all_handled(before)
            &&& s.counts == d.all_counted(before)
        },
        WorkerActionView::Hash(path) => {
            &&& s.phase == WorkerPhase::Hashing
            &&& t.taken > 0
            &&& s.item matches Some(o) && o.path == path && all[t.taken - 1] == MsgView::Item(o)
                && staging_of(o, (d.staged)(o.rel), (d.prior)(o.rel)) is Hash
            &&& t.sent == d.all_handled(before)
            &&& s.counts == d.all_counted(before)
        },
        WorkerActionView::Send(m) => {
            &&& s.phase == WorkerPhase::Sending
            &&& t.sent + (seq![m] + s.queue) == d.all_handled(now)
            &&& s.counts == d.all_counted(now)
        },
        WorkerActionView::Stop => {
            &&& t.taken == queue.len()
            &&& t.sent == d.all_handled(all)
            &&& s.counts == d.all_counted(all)
        },
    }
}

proof fn lemma_at_desk(d: Desk, queue: Seq<WalkMsg>, n: nat)
    ensures
        at_desk(d, queue, shift(d, queue, n)),
    decreases n,
{
    let all = walk_views(queue);
    if n == 0 {
        assert(all.take(0) =~= Seq::<MsgView>::empty());
    } else {
        let t = shift(d, queue, (n - 1) as nat);
        let next = shift(d, queue, n);
        lemma_at_desk(d, queue, (n - 1) as nat);
        match t.action {
            WorkerActionView::Receive => {
                if t.taken < queue.len() {
                    let m = all[t.taken as int];
                    assert(m == queue[t.taken as int]@);
                    assert(all.take(next.taken as int).drop_last() =~= all.take(t.taken as int));
                    assert(done(queue, next) == all.take(t.taken as int));
                    if let MsgView::Error { rel, code, message } = m {
                        let out = d.handled(m);
                        assert(out.skip(1) =~= Seq::<WriteMsgView>::empty());
                        assert(seq![out[0]] + next.state.queue =~= out);
                    }
                } else {
                    assert(all.take(t.taken as int) =~= all);
                }
            },
            WorkerActionView::LookUp(rel) => {
                let o = t.state.item->0;
                let m = all[t.taken - 1];
                assert(all.take(t.taken as int).drop_last() =~= done(queue, t));
                assert(all.take(t.taken as int).last() == m);
                let out = d.handled(m);
                if staging_of(o, (d.staged)(o.rel), (d.prior)(o.rel)) is Send {
                    assert(out.skip(1) =~= Seq::<WriteMsgView>::empty());
                    assert(seq![out[0]] + next.state.queue =~= out);
                }
            },
            WorkerActionView::Hash(path) => {
                let m = all[t.taken - 1];
                assert(all.take(t.taken as int).drop_last() =~= done(queue, t));
                assert(all.take(t.taken as int).last() == m);
                let out = d.handled(m);
                assert(seq![out[0]] + next.state.queue =~= out);
            },
            WorkerActionView::Send(m) => {
                if t.state.queue.len() > 0 {
                    let rest = t.state.queue;
                    assert(seq![rest[0]] + next.state.queue =~= rest);
                    assert(next.sent + rest =~= t.sent + (seq![m] + rest));
                } else {
                    assert(t.sent + (seq![m] + t.state.queue) =~= next.sent);
                }
            },
            WorkerActionView::Stop => {},
        }
    }
}

/// A worker that has come to the end of its queue has handed the writer exactly what
/// its messages call for, in order, and counted exactly that.
pub proof fn law_worker_handles_its_queue(d: Desk, queue: Seq<WalkMsg>, n: nat)
    requires
        shift(d, queue, n).action is Stop,
    ensures
        shift(d, queue, n).sent == d.all_handled(walk_views(queue)),
        shift(d, queue, n).state.counts == d.all_counted(walk_views(queue)),
{
    lemma_at_desk(d, queue, n);
}

/// How much a worker still has to do.
spec fn chores(queue: Seq<WalkMsg>, t: Shift) -> nat {
    let left = queue.len() - t.taken;
    match t.action {
        WorkerActionView::Receive => (6 * left + 1) as nat,
        WorkerActionView::LookUp(_) => (6 * left + 6) as nat,
        WorkerActionView::Hash(_) => (6 * left + 5) as nat,
        WorkerActionView::Send(_) => (6 * left + 2 + t.state.queue.len()) as nat,
        WorkerActionView::Stop => 0,
    }
}

proof fn lemma_shift_ends(d: Desk, queue: Seq<WalkMsg>, n: nat)
    requires
        shift(d, queue, n).action matches WorkerActionView::Send(_) ==> shift(
            d,
            queue,
            n,
        ).state.queue.len() <= 1,
    ensures
        exists|m: nat| (#[trigger] shift(d, queue, m)).action is Stop,
    decreases chores(queue, shift(d, queue, n)),
{
    let t = shift(d, queue, n);
    lemma_at_desk(d, queue, n);
    if !(t.action is Stop) {
        lemma_at_desk(d, queue, n + 1);
        assert(chores(queue, shift(d, queue, n + 1)) < chores(queue, t));
        lemma_shift_ends(d, queue, n + 1);
    }
}

/// Every worker comes to the end of its queue.
pub proof fn law_every_shift_ends(d: Desk, queue: Seq<WalkMsg>)
    ensures
        exists|n: nat| (#[trigger] shift(d, queue, n)).action is Stop,
{
    lemma_shift_ends(d, queue, 0);
}

/// The counts of a worker say what became of its files, and every file has one
/// fate: reused from staging, reused from the baseline, read, or failed to be read.
/// Counts are kept in 64 bits.
pub proof fn law_counts_tell_the_fates(d: Desk, queue: Seq<MsgView>)
    ensures
        d.all_counted(queue).reused_stage == d.tally(queue, Fate::Staged)
            % 0x1_0000_0000_0000_0000,
        d.all_counted(queue).reused_baseline == d.tally(queue, Fate::Baseline)
            % 0x1_0000_0000_0000_0000,
        d.all_counted(queue).hashed == d.tally(queue, Fate::Hashed) % 0x1_0000_0000_0000_0000,
        d.tally(queue, Fate::Staged) + d.tally(queue, Fate::Baseline) + d.tally(
            queue,
            Fate::Hashed,
        ) + d.tally(queue, Fate::Failed) == files_in(queue),
    decreases queue.len(),
{
    if queue.len() > 0 {
        law_counts_tell_the_fates(d, queue.drop_last());
    }
}

/// The messages that several workers took, one worker after the other.
pub open spec fn pooled(queues: Seq<Seq<WalkMsg>>) -> Seq<MsgView>
    decreases queues.len(),
{
    if queues.len() == 0 {
        Seq::empty()
    } else {
        pooled(queues.drop_last()) + walk_views(queues.last())
    }
}

/// The counts of several workers, taken together.
pub open spec fn crew_counted(d: Desk, queues: Seq<Seq<WalkMsg>>) -> Counters
    decreases queues.len(),
{
    if queues.len() == 0 {
        no_counts()
    } else {
        summed(crew_counted(d, queues.drop_last()), d.all_counted(walk_views(queues.last())))
    }
}

/// What several workers send, one worker after the other.
pub open spec fn crew_sent(d: Desk, queues: Seq<Seq<WalkMsg>>) -> Seq<WriteMsgView>
    decreases queues.len(),
{
    if queues.len() == 0 {
        Seq::empty()
    } else {
        crew_sent(d, queues.drop_last()) + d.all_handled(walk_views(queues.last()))
    }
}

proof fn lemma_handled_sum(d: Desk, a: Seq<MsgView>, b: Seq<MsgView>)
    ensures
        d.all_handled(a + b) == d.all_handled(a) + d.all_handled(b),
    decreases b.len(),
{
    if b.len() == 0 {
        assert(a + b =~= a);
        assert(d.all_handled(a) + d.all_handled(b) =~= d.all_handled(a));
    } else {
        let rest = b.drop_last();
        let last = d.handled(b.last());
        assert((a + b).drop_last() =~= a + rest);
        lemma_handled_sum(d, a, rest);
        assert(d.all_handled(a) + d.all_handled(rest) + last =~= d.all_handled(a) + (
        d.all_handled(rest) + last));
    }
}

/// However the messages are shared out among the workers, together they send what
/// all the messages call for.
pub proof fn law_crew_sends_what_is_called_for(d: Desk, queues: Seq<Seq<WalkMsg>>)
    ensures
        crew_sent(d, queues) == d.all_handled(pooled(queues)),
    decreases queues.len(),
{
    if queues.len() > 0 {
        law_crew_sends_what_is_called_for(d, queues.drop_last());
        lemma_handled_sum(d, pooled(queues.drop_last()), walk_views(queues.last()));
    }
}

/// Each message sent is called for by some message taken.
pub proof fn lemma_handled_contains(d: Desk, queue: Seq<MsgView>, m: WriteMsgView)
    ensures
        d.all_handled(queue).contains(m) <==> exists|i: int|
            0 <= i < queue.len() && #[trigger] d.handled(queue[i]).contains(m),
    decreases queue.len(),
{
    if queue.len() > 0 {
        let rest = queue.drop_last();
        let before = d.all_handled(rest);
        let last = d.handled(queue.last());
        lemma_handled_contains(d, rest, m);
        if before.contains(m) {
            let k = before.index_of(m);
            assert((before + last)[k] == m);
            let i = choose|i: int| 0 <= i < rest.len() && #[trigger] d.handled(rest[i]).contains(m);
            assert(d.handled(queue[i]).contains(m));
        }
        if last.contains(m) {
            let k = last.index_of(m);
            assert((before + last)[before.len() + k] == m);
            assert(d.handled(queue[queue.len() - 1]).contains(m));
        }
        if (before + last).contains(m) {
            let k = (before + last).index_of(m);
            if k < before.len() {
                assert(before[k] == m);
            } else {
                assert(last[k - before.len()] == m);
            }
        }
        if exists|i: int| 0 <= i < queue.len() && #[trigger] d.handled(queue[i]).contains(m) {
            let i = choose|i: int|
                0 <= i < queue.len() && #[trigger] d.handled(queue[i]).contains(m);
            if i < rest.len() {
                assert(d.handled(rest[i]).contains(m));
            }
        }
    }
}

proof fn lemma_tally_sum(d: Desk, a: Seq<MsgView>, b: Seq<MsgView>, fate: Fate)
    ensures
        d.tally(a + b, fate) == d.tally(a, fate) + d.tally(b, fate),
    decreases b.len(),
{
    if b.len() == 0 {
        assert(a + b =~= a);
    } else {
        assert((a + b).drop_last() =~= a + b.drop_last());
        lemma_tally_sum(d, a, b.drop_last(), fate);
    }
}

proof fn lemma_wrapped_sum(a: u64, x: nat, b: u64, y: nat)
    requires
        a == x % 0x1_0000_0000_0000_0000,
        b == y % 0x1_0000_0000_0000_0000,
    ensures
        a.wrapping_add(b) == (x + y) % 0x1_0000_0000_0000_0000,
{
}

/// However the messages are shared out among the workers, their counts together say
/// what became of all the files.
pub proof fn law_crew_counts_tell_the_fates(d: Desk, queues: Seq<Seq<WalkMsg>>)
    ensures
        crew_counted(d, queues).reused_stage == d.tally(pooled(queues), Fate::Staged)
            % 0x1_0000_0000_0000_0000,
        crew_counted(d, queues).reused_baseline == d.tally(pooled(queues), Fate::Baseline)
            % 0x1_0000_0000_0000_0000,
        crew_counted(d, queues).hashed == d.tally(pooled(queues), Fate::Hashed)
            % 0x1_0000_0000_0000_0000,
    decreases queues.len(),
{
    if queues.len() > 0 {
        let rest = pooled(queues.drop_last());
        let last = walk_views(queues.last());
        law_crew_counts_tell_the_fates(d, queues.drop_last());
        law_counts_tell_the_fates(d, last);
        lemma_tally_sum(d, rest, last, Fate::Staged);
        lemma_tally_sum(d, rest, last, Fate::Baseline);
        lemma_tally_sum(d, rest, last, Fate::Hashed);
        let a = crew_counted(d, queues.drop_last());
        let b = d.all_counted(last);
        lemma_wrapped_sum(
            a.reused_stage,
            d.tally(rest, Fate::Staged),
            b.reused_stage,
            d.tally(last, Fate::Staged),
        );
        lemma_wrapped_sum(
            a.reused_baseline,
            d.tally(rest, Fate::Baseline),
            b.reused_baseline,
            d.tally(last, Fate::Baseline),
        );
        lemma_wrapped_sum(
            a.hashed,
            d.tally(rest, Fate::Hashed),
            b.hashed,
            d.tally(last, Fate::Hashed),
        );
    }
}

/// The writer at work.
pub struct Writing {
    pub state: WriterState,
    pub action: WriterActionView,
    /// The messages it was given.
    pub heard: Seq<WriteMsgView>,
    /// The effects it has asked to be made durable.
    pub written: Seq<BatchView>,
}

/// An answer to what the writer asked for.
pub open spec fn answers(action: WriterActionView, e: WriterEvent) -> bool {
    match action {
        WriterActionView::Receive => e is Message || e is Closed,
        WriterActionView::TryReceive => e is Message || e is Empty || e is Closed,
        WriterActionView::Write { .. } => e is Written,
        WriterActionView::Measure => e is Free,
        WriterActionView::Pause(_) => e is Resumed,
        WriterActionView::Finish { .. } => false,
    }
}

/// The writer after these answers.
pub open spec fn writing(c: Config, events: Seq<WriterEvent>) -> Writing
    decreases events.len(),
{
    if events.len() == 0 {
        let idle = WriterState {
            phase: WriterPhase::Idle,
            batch: Seq::empty(),
            errors: 0,
            processed: 0,
        };
        let first = writer_step(idle, WriterEvent::Start, c);
        Writing { state: first.0, action: first.1, heard: Seq::empty(), written: Seq::empty() }
    } else {
        let t = writing(c, events.drop_last());
        let next = writer_step(t.state, events.last(), c);
        Writing {
            state: next.0,
            action: next.1,
            heard: match events.last() {
                WriterEvent::Message(m) => t.heard.push(m@),
                _ => t.heard,
            },
            written: match next.1 {
                WriterActionView::Write { effects: more, .. } => t.written + more,
                _ => t.written,
            },
        }
    }
}

/// Each of these answers what was asked for before it.
pub open spec fn in_turn(c: Config, events: Seq<WriterEvent>) -> bool
    decreases events.len(),
{
    events.len() == 0 || (in_turn(c, events.drop_last()) && answers(
        writing(c, events.drop_last()).action,
        events.last(),
    ))
}

spec fn keeping_up(t: Writing) -> bool {
    let s = t.state;
    &&& t.written + batch_effects(s.batch) == batch_effects(t.heard)
    &&& problems_in(s.batch) <= s.batch.len()
    &&& problems_in(s.batch) <= problems_in(t.heard) <= t.heard.len()
    &&& s.batch.len() - problems_in(s.batch) <= t.heard.len() - problems_in(t.heard)
    &&& t.heard.len() <= usize::MAX ==> s.errors == problems_in(t.heard) - problems_in(s.batch)
    &&& t.heard.len() <= usize::MAX ==> s.processed == t.heard.len() - problems_in(t.heard) - (
    s.batch.len() - problems_in(s.batch))
    &&& match t.action {
        WriterActionView::Receive => s.phase == WriterPhase::Waiting && s.batch.len() == 0,
        WriterActionView::TryReceive => s.phase == WriterPhase::Filling,
        WriterActionView::Write { .. } => s.phase == WriterPhase::Writing && s.batch.len() == 0,
        WriterActionView::Measure => s.phase == WriterPhase::Measuring && s.batch.len() == 0,
        WriterActionView::Pause(_) => s.phase == WriterPhase::Pausing && s.batch.len() == 0,
        WriterActionView::Finish { .. } => s.phase == WriterPhase::Done && s.batch.len() == 0,
    }
}

proof fn lemma_batch_push(batch: Seq<WriteMsgView>, m: WriteMsgView)
    ensures
        batch_effects(batch.push(m)) == batch_effects(batch) + effects(m),
        problems_in(batch.push(m)) == problems_in(batch) + (if is_problem(m) {
            1
        } else {
            0nat
        }),
{
    let each = |x: WriteMsgView| effects(x);
    let problem = |x: WriteMsgView| is_problem(x);
    batch.lemma_flat_map_push(each, m);
    Seq::lemma_filter_len_push(batch, problem, m);
}

proof fn lemma_no_batch()
    ensures
        batch_effects(Seq::<WriteMsgView>::empty()) == Seq::<BatchView>::empty(),
        problems_in(Seq::<WriteMsgView>::empty()) == 0,
{
    reveal(Seq::filter);
    assert(batch_effects(Seq::<WriteMsgView>::empty()) =~= Seq::<BatchView>::empty());
}

/// What one answer does to the effects written and the effects at hand.
proof fn lemma_effects_kept(t: Writing, e: WriterEvent, c: Config)
    requires
        keeping_up(t),
        answers(t.action, e),
    ensures
        ({
            let n = writer_step(t.state, e, c);
            let heard = match e {
                WriterEvent::Message(m) => t.heard.push(m@),
                _ => t.heard,
            };
            let written = match n.1 {
                WriterActionView::Write { effects: more, .. } => t.written + more,
                _ => t.written,
            };
            written + batch_effects(n.0.batch) == batch_effects(heard)
        }),
{
    lemma_no_batch();
    let n = writer_step(t.state, e, c);
    assert(t.state.batch.len() == 0 ==> t.state.batch =~= Seq::empty());
    match e {
        WriterEvent::Message(m) => {
            lemma_batch_push(t.heard, m@);
            lemma_batch_push(t.state.batch, m@);
            let full = t.state.batch.push(m@);
            assert(t.written + batch_effects(full) =~= batch_effects(t.heard) + effects(m@));
            if n.1 is Write {
                assert(n.0.batch =~= Seq::empty());
                assert((t.written + batch_effects(full)) + batch_effects(n.0.batch) =~= t.written
                    + batch_effects(full));
            }
        },
        _ => {
            if n.1 is Write {
                assert(n.0.batch =~= Seq::empty());
                let all = t.written + batch_effects(t.state.batch);
                assert(all + batch_effects(n.0.batch) =~= all);
            }
        },
    }
}

proof fn lemma_keeping_up(c: Config, events: Seq<WriterEvent>)
    requires
        in_turn(c, events),
    ensures
        keeping_up(writing(c, events)),
    decreases events.len(),
{
    lemma_no_batch();
    if events.len() == 0 {
        let t = writing(c, events);
        assert(t.written + batch_effects(t.state.batch) =~= batch_effects(t.heard));
    } else {
        let t = writing(c, events.drop_last());
        lemma_keeping_up(c, events.drop_last());
        lemma_effects_kept(t, events.last(), c);
        if let WriterEvent::Message(m) = events.last() {
            lemma_batch_push(t.heard, m@);
            lemma_batch_push(t.state.batch, m@);
        }
    }
}

/// Once the writer has finished, whether for want of messages or of space, what it
/// has written is exactly what the messages it was given call for, in order, and it
/// has counted exactly the problems and the files among them.
pub proof fn law_writer_writes_what_it_hears(c: Config, events: Seq<WriterEvent>)
    requires
        in_turn(c, events),
        writing(c, events).action is Finish,
    ensures
        writing(c, events).written == batch_effects(writing(c, events).heard),
        writing(c, events).heard.len() <= usize::MAX ==> {
            &&& writing(c, events).state.errors == problems_in(writing(c, events).heard)
            &&& writing(c, events).state.processed == writing(c, events).heard.len() - problems_in(
                writing(c, events).heard,
            )
        },
{
    lemma_keeping_up(c, events);
    lemma_no_batch();
    let t = writing(c, events);
    assert(t.state.batch =~= Seq::empty());
    assert(t.written + batch_effects(t.state.batch) =~= t.written);
}

} // verus!
