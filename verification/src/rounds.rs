//! Whole scans, from the files a walk met to the baseline: what a rerun of an
//! unchanged tree does, and what a resumed scan does.

use vstd::multiset::Multiset;
use vstd::prelude::*;

use crate::hash::sha256;
use crate::ledger::{
    after_messages, lemma_problem_is_kept, lemma_problems, lemma_staged, lemma_walked, names,
    records, EntryView, Ledger,
};
use crate::names::{extension_of, lossy_text, mime_of, name_of};
use crate::promote::{
    baseline, change_views, law_a_problem_shields_what_lies_below, law_baseline_after_promotion,
    law_deleted_means_it_could_have_been_seen, law_present_is_what_was_seen, lemma_count_paths,
    present_paths, shielded_by, write_views, Evidence, Promotion,
};
use crate::rows::{error_views, ChangeKind, ErrorView, FactsView, FileRow, Presence};
use crate::scan::{law_an_attempt_saw_what_it_met_and_staged, Attempt};
use crate::shift::{
    crew_counted, crew_sent, law_counts_tell_the_fates, law_crew_counts_tell_the_fates,
    law_crew_sends_what_is_called_for, lemma_handled_contains, pooled, walk_views,
    Desk, Fate,
};
use crate::stage::{
    baseline_hit, facts_for, hash_messages, is_problem, law_failed_reads_are_told, staged_hit,
    stale, HashAttempt, StagedView, WriteMsgView,
};
use crate::tour::{
    files_in, law_files_are_counted, law_nothing_is_met_twice, law_walk_invents_nothing, tidy,
    tour, unstarted, warranted, World,
};
use crate::walk::{
    law_failures_have_codes, no_counts, summed, Counters, FailureKind, IoFailure, MsgView,
    ObservedView, WalkMsg, WalkState,
};

verus! {

/// One scan of a base, after its walk.
pub struct Round {
    /// The baseline the scan starts from.
    pub files: Map<Seq<u8>, FileRow>,
    /// What had been written down before this attempt.
    pub before: Ledger,
    /// What the workers find where they look.
    pub desk: Desk,
    /// The walk messages that each worker took.
    pub queues: Seq<Seq<WalkMsg>>,
    /// The counts of the walk.
    pub walked: Counters,
    /// The messages that reached the writer, in the order they did.
    pub arrived: Seq<WriteMsgView>,
    /// What the attempt left behind.
    pub attempt: Attempt,
    pub scan_id: i64,
}

impl Round {
    /// Everything the walk passed on, in the order the workers took it.
    pub open spec fn met(self) -> Seq<MsgView> {
        pooled(self.queues)
    }

    /// The counts of the scan.
    pub open spec fn counts(self) -> Counters {
        summed(self.walked, crew_counted(self.desk, self.queues))
    }

    /// What promotion decides from.
    pub open spec fn evidence(self) -> Evidence {
        self.attempt.evidence(self.files, self.scan_id)
    }

    /// The parts belong together: the workers look into the baseline and into what
    /// was staged before, the writer is given what they send, and the attempt leaves
    /// behind what the writer wrote down. Nothing had been met yet, and no problem
    /// of an earlier attempt is kept.
    pub open spec fn coherent(self) -> bool {
        &&& forall|p: Seq<u8>| #[trigger]
            (self.desk.prior)(p) == (if self.files.contains_key(p) {
                Some(self.files[p])
            } else {
                None
            })
        &&& forall|p: Seq<u8>|
            match #[trigger] (self.desk.staged)(p) {
                Some(s) => self.before.staged.contains_key(p) && s.facts@
                    == self.before.staged[p].facts && s.complete == self.before.staged[p].complete,
                None => !self.before.staged.contains_key(p),
            }
        &&& self.before.walked == Set::<Seq<u8>>::empty()
        &&& self.before.errors == Seq::<ErrorView>::empty()
        &&& forall|m: WriteMsgView| #[trigger]
            self.arrived.contains(m) <==> crew_sent(self.desk, self.queues).contains(m)
        &&& records(after_messages(self.before, self.arrived), self.attempt)
        &&& self.walked.hashed == 0
        &&& self.walked.reused_stage == 0
        &&& self.walked.reused_baseline == 0
    }

    /// No two files that the walk passed on have one path.
    pub open spec fn distinct_files(self) -> bool {
        forall|i: int, j: int|
            0 <= i < j < self.met().len() && (#[trigger] self.met()[i]) is Item && (
            #[trigger] self.met()[j]) is Item ==> self.met()[i]->Item_0.rel
                != self.met()[j]->Item_0.rel
    }

    /// Nothing that the walk passed on is about the base itself.
    pub open spec fn base_read(self) -> bool {
        forall|i: int|
            0 <= i < self.met().len() ==> (match #[trigger] self.met()[i] {
                MsgView::Item(o) => o.rel.len() > 0,
                MsgView::Error { rel, .. } => rel != Some(Seq::<u8>::empty()),
            })
    }

    /// The walk met no problem, and every file that had to be read could be, and did
    /// not change meanwhile.
    pub open spec fn smooth(self) -> bool {
        forall|i: int|
            0 <= i < self.met().len() ==> ((#[trigger] self.met()[i]) matches MsgView::Item(o)
                && reads_well(self.desk, o))
    }

    /// How many files the walk passed on.
    pub open spec fn files_met(self) -> nat {
        files_in(self.met())
    }

    /// How many of them had to be read and could not be.
    pub open spec fn files_failed(self) -> nat {
        self.desk.tally(self.met(), Fate::Failed)
    }
}

/// If this file has to be read, it can be, and does not change meanwhile.
pub open spec fn reads_well(d: Desk, o: ObservedView) -> bool {
    match d.fate(o) {
        Fate::Failed => false,
        Fate::Hashed => !stale(o, (d.read)(o.path)->after),
        _ => true,
    }
}

/// The hash that a file is staged with.
spec fn hash_for(d: Desk, o: ObservedView) -> Seq<u8> {
    match d.fate(o) {
        Fate::Baseline => (d.prior)(o.rel)->0.facts.content_hash@,
        _ => sha256((d.read)(o.path)->contents@),
    }
}

/// The row written for a file, whether its hash can be trusted or not.
spec fn row_written(d: Desk, o: ObservedView) -> StagedView {
    StagedView {
        rel: o.rel,
        size_bytes: o.size_bytes,
        mtime_ns: o.mtime_ns,
        created_ns: o.created_ns,
        content_hash: hash_for(d, o),
        hash_status: if d.fate(o) is Hashed && stale(o, (d.read)(o.path)->after) {
            "changed_during_hash"@
        } else {
            "complete"@
        },
    }
}

/// The message that names a file as met.
spec fn message_for(d: Desk, o: ObservedView) -> WriteMsgView {
    match d.fate(o) {
        Fate::Staged => WriteMsgView::Reused(o.rel),
        _ => WriteMsgView::Row(row_written(d, o)),
    }
}

/// What a worker sends for a file: one message that names it as met, unless it could
/// not be read; and only problems of its own.
proof fn lemma_handled_file(d: Desk, o: ObservedView, m: WriteMsgView)
    ensures
        !is_problem(m) ==> (d.handled(MsgView::Item(o)).contains(m) <==> !(d.fate(o) is Failed) && m
            == message_for(d, o)),
        is_problem(m) && d.handled(MsgView::Item(o)).contains(m) ==> !reads_well(d, o) && (
        m matches WriteMsgView::Error { rel, .. } && rel == Some(o.rel)),
{
    let out = d.handled(MsgView::Item(o));
    if out.contains(m) {
        let k = out.index_of(m);
        assert(out[k] == m);
    }
    if !(d.fate(o) is Failed) {
        assert(out.last() == message_for(d, o));
        assert(out[out.len() - 1] == message_for(d, o));
    }
}

/// This file was met, could be read if it had to be, and `m` names it.
spec fn named_by(r: Round, i: int, m: WriteMsgView) -> bool {
    &&& 0 <= i < r.met().len()
    &&& r.met()[i] matches MsgView::Item(o) && !(r.desk.fate(o) is Failed) && m == message_for(
        r.desk,
        o,
    )
}

/// Apart from problems, what arrives is one message for each file.
proof fn lemma_arrived(r: Round, m: WriteMsgView)
    requires
        r.coherent(),
        !is_problem(m),
    ensures
        r.arrived.contains(m) <==> exists|i: int| #[trigger] named_by(r, i, m),
{
    let d = r.desk;
    law_crew_sends_what_is_called_for(d, r.queues);
    lemma_handled_contains(d, r.met(), m);
    assert forall|i: int| 0 <= i < r.met().len() implies (#[trigger] d.handled(
        r.met()[i],
    )).contains(m) == named_by(r, i, m) by {
        match r.met()[i] {
            MsgView::Item(o) => {
                lemma_handled_file(d, o, m);
            },
            MsgView::Error { .. } => {
                let out = d.handled(r.met()[i]);
                if out.contains(m) {
                    let k = out.index_of(m);
                    assert(out[k] == m);
                }
            },
        }
    }
    if exists|i: int| #[trigger] named_by(r, i, m) {
        let i = choose|i: int| #[trigger] named_by(r, i, m);
        assert(d.handled(r.met()[i]).contains(m));
    }
    if r.arrived.contains(m) {
        let i = choose|i: int|
            0 <= i < r.met().len() && #[trigger] d.handled(r.met()[i]).contains(m);
        assert(named_by(r, i, m));
    }
}

/// A problem that arrives is the walk's, or that of a file which was not read well.
proof fn lemma_problem_arrived(r: Round, m: WriteMsgView) -> (i: int)
    requires
        r.coherent(),
        is_problem(m),
        r.arrived.contains(m),
    ensures
        0 <= i < r.met().len(),
        match r.met()[i] {
            MsgView::Item(o) => !reads_well(r.desk, o) && m->Error_rel == Some(o.rel),
            MsgView::Error { rel, .. } => m->Error_rel == rel,
        },
{
    let d = r.desk;
    law_crew_sends_what_is_called_for(d, r.queues);
    lemma_handled_contains(d, r.met(), m);
    let i = choose|i: int| 0 <= i < r.met().len() && #[trigger] d.handled(r.met()[i]).contains(m);
    match r.met()[i] {
        MsgView::Item(o) => {
            lemma_handled_file(d, o, m);
        },
        MsgView::Error { .. } => {
            let out = d.handled(r.met()[i]);
            let k = out.index_of(m);
            assert(out[k] == m);
        },
    }
    i
}

/// The facts that a scan ends up with about a file.
spec fn facts_known(r: Round, o: ObservedView) -> FactsView {
    match r.desk.fate(o) {
        Fate::Staged => r.before.staged[o.rel].facts,
        _ => facts_for(row_written(r.desk, o)),
    }
}

/// A scan that has not written anything yet.
pub open spec fn nothing_written() -> Ledger {
    Ledger { staged: Map::empty(), walked: Set::empty(), errors: Seq::empty() }
}

/// The paths of the files among these messages, in order.
pub open spec fn paths_in(msgs: Seq<MsgView>) -> Seq<Seq<u8>>
    decreases msgs.len(),
{
    if msgs.len() == 0 {
        Seq::empty()
    } else {
        match msgs.last() {
            MsgView::Item(o) => paths_in(msgs.drop_last()).push(o.rel),
            MsgView::Error { .. } => paths_in(msgs.drop_last()),
        }
    }
}

/// The paths of the files met.
pub open spec fn paths_met(r: Round) -> Seq<Seq<u8>> {
    paths_in(r.met())
}

/// The message at this place is a file at this path.
spec fn file_at(msgs: Seq<MsgView>, i: int, p: Seq<u8>) -> bool {
    0 <= i < msgs.len() && (msgs[i] matches MsgView::Item(o) && o.rel == p)
}

proof fn lemma_paths(msgs: Seq<MsgView>, p: Seq<u8>)
    ensures
        paths_in(msgs).contains(p) <==> exists|i: int| #[trigger] file_at(msgs, i, p),
    decreases msgs.len(),
{
    if msgs.len() > 0 {
        let rest = msgs.drop_last();
        let before = paths_in(rest);
        lemma_paths(rest, p);
        if paths_in(msgs).contains(p) {
            let k = paths_in(msgs).index_of(p);
            if k < before.len() {
                assert(before[k] == p);
                let i = choose|i: int| #[trigger] file_at(rest, i, p);
                assert(file_at(msgs, i, p));
            } else {
                assert(file_at(msgs, msgs.len() - 1, p));
            }
        }
        if exists|i: int| #[trigger] file_at(msgs, i, p) {
            let i = choose|i: int| #[trigger] file_at(msgs, i, p);
            if i < rest.len() {
                assert(file_at(rest, i, p));
                let k = before.index_of(p);
                assert(paths_in(msgs)[k] == p);
            } else {
                assert(paths_in(msgs).last() == p);
            }
        }
    }
}

proof fn lemma_paths_distinct(msgs: Seq<MsgView>)
    requires
        forall|i: int, j: int|
            0 <= i < j < msgs.len() && (#[trigger] msgs[i]) is Item && (#[trigger] msgs[j]) is Item
                ==> msgs[i]->Item_0.rel != msgs[j]->Item_0.rel,
    ensures
        paths_in(msgs).no_duplicates(),
        paths_in(msgs).len() == files_in(msgs),
    decreases msgs.len(),
{
    if msgs.len() > 0 {
        let rest = msgs.drop_last();
        assert forall|i: int, j: int|
            0 <= i < j < rest.len() && (#[trigger] rest[i]) is Item && (
            #[trigger] rest[j]) is Item implies rest[i]->Item_0.rel != rest[j]->Item_0.rel by {
            assert(rest[i] == msgs[i] && rest[j] == msgs[j]);
        }
        lemma_paths_distinct(rest);
        if let MsgView::Item(o) = msgs.last() {
            lemma_paths(rest, o.rel);
            if paths_in(rest).contains(o.rel) {
                let i = choose|i: int| #[trigger] file_at(rest, i, o.rel);
                assert(msgs[i]->Item_0.rel != msgs[msgs.len() - 1]->Item_0.rel);
            }
        }
    }
}

/// Two files met at one path are one.
proof fn lemma_same_place(r: Round, i: int, j: int)
    requires
        r.distinct_files(),
        0 <= i < r.met().len(),
        0 <= j < r.met().len(),
        r.met()[i] is Item,
        r.met()[j] is Item,
        r.met()[i]->Item_0.rel == r.met()[j]->Item_0.rel,
    ensures
        i == j,
{
    if i < j {
        assert(r.met()[i]->Item_0.rel != r.met()[j]->Item_0.rel);
    }
    if j < i {
        assert(r.met()[j]->Item_0.rel != r.met()[i]->Item_0.rel);
    }
}

/// What a file met leaves in the ledger.
proof fn lemma_file_settled(r: Round, i: int)
    requires
        r.coherent(),
        r.distinct_files(),
        0 <= i < r.met().len(),
        r.met()[i] is Item,
        !(r.desk.fate(r.met()[i]->Item_0) is Failed),
    ensures
        ({
            let o = r.met()[i]->Item_0;
            let l = after_messages(r.before, r.arrived);
            &&& l.walked.contains(o.rel)
            &&& l.staged.contains_key(o.rel)
            &&& l.staged[o.rel].complete
            &&& l.staged[o.rel].facts == facts_known(r, o)
        }),
{
    let d = r.desk;
    let o = r.met()[i]->Item_0;
    let msgs = r.arrived;
    let m = message_for(d, o);
    let row = row_written(d, o);
    lemma_arrived(r, m);
    assert(named_by(r, i, m));
    let at = msgs.index_of(m);
    assert(names(msgs[at], o.rel));
    lemma_walked(r.before, msgs, o.rel);
    assert forall|k: int| 0 <= k < msgs.len() implies ((#[trigger] msgs[k]) matches WriteMsgView::Row(
        other,
    ) ==> other.rel == o.rel ==> (other == row && !(d.fate(o) is Staged))) by {
        if let WriteMsgView::Row(other) = msgs[k] {
            if other.rel == o.rel {
                lemma_arrived(r, msgs[k]);
                assert(msgs.contains(msgs[k]));
                let j = choose|j: int| #[trigger] named_by(r, j, msgs[k]);
                lemma_same_place(r, i, j);
            }
        }
    }
    lemma_staged(r.before, msgs, o.rel, row);
    if d.fate(o) is Staged {
        assert(staged_hit(o, (d.staged)(o.rel)));
        if msgs.contains(WriteMsgView::Row(row)) {
            let k = msgs.index_of(WriteMsgView::Row(row));
            assert(msgs[k] == WriteMsgView::Row(row));
        }
    }
}

/// The paths of the files that had to be read and could not be.
pub open spec fn failed_paths(r: Round) -> Set<Seq<u8>> {
    Set::new(
        |p: Seq<u8>|
            exists|i: int|
                0 <= i < r.met().len() && ((#[trigger] r.met()[i]) matches MsgView::Item(o)
                    && o.rel == p && r.desk.fate(o) is Failed),
    )
}

/// What a scan shows is exactly the files met, but for those that could not be read.
#[verifier::rlimit(40)]
proof fn lemma_seen(r: Round)
    requires
        r.coherent(),
        r.distinct_files(),
    ensures
        forall|p: Seq<u8>|
            #![trigger r.evidence().seen.dom().contains(p)]
            r.evidence().seen.dom().contains(p) <==> paths_met(r).contains(p)
                && !failed_paths(r).contains(p),
        forall|i: int|
            0 <= i < r.met().len() ==> ((#[trigger] r.met()[i]) matches MsgView::Item(o)
                ==> !(r.desk.fate(o) is Failed) ==> r.evidence().seen.dom().contains(o.rel)
                && r.evidence().seen[o.rel] == facts_known(r, o)),
        paths_met(r).no_duplicates(),
        paths_met(r).len() == r.files_met(),
        r.evidence().seen.dom().finite(),
        r.evidence().seen.dom().len() == r.files_met() - r.files_failed(),
{
    let d = r.desk;
    let e = r.evidence();
    let l = after_messages(r.before, r.arrived);
    let a = r.attempt;
    let paths = paths_met(r);
    let good = |p: Seq<u8>| !failed_paths(r).contains(p);
    lemma_paths_distinct(r.met());
    assert forall|p: Seq<u8>| #[trigger] e.seen.dom().contains(p) <==> paths.contains(p) && good(
        p,
    ) by {
        lemma_paths(r.met(), p);
        assert(a.walked@.contains_key(p) <==> l.walked.contains(p)) by {
            assert(a.walked@.dom().contains(p) <==> l.walked.contains(p));
        }
        assert(a.staged@.contains_key(p) <==> l.staged.contains_key(p)) by {
            assert(a.staged@.dom().contains(p) <==> l.staged.dom().contains(p));
        }
        if paths.contains(p) && good(p) {
            let i = choose|i: int| #[trigger] file_at(r.met(), i, p);
            lemma_file_settled(r, i);
        }
        if e.seen.contains_key(p) {
            lemma_walked(r.before, r.arrived, p);
            let k = choose|k: int| 0 <= k < r.arrived.len() && names(#[trigger] r.arrived[k], p);
            lemma_arrived(r, r.arrived[k]);
            assert(r.arrived.contains(r.arrived[k]));
            let i = choose|i: int| #[trigger] named_by(r, i, r.arrived[k]);
            assert(file_at(r.met(), i, p));
            if !good(p) {
                let j = choose|j: int|
                    0 <= j < r.met().len() && ((#[trigger] r.met()[j]) matches MsgView::Item(o)
                        && o.rel == p && r.desk.fate(o) is Failed);
                lemma_same_place(r, i, j);
            }
        }
    }
    assert forall|i: int| 0 <= i < r.met().len() implies ((
    #[trigger] r.met()[i]) matches MsgView::Item(o) ==> !(d.fate(o) is Failed)
        ==> e.seen.dom().contains(o.rel) && e.seen[o.rel] == facts_known(r, o)) by {
        if let MsgView::Item(o) = r.met()[i] {
            if !(d.fate(o) is Failed) {
                lemma_file_settled(r, i);
                lemma_paths(r.met(), o.rel);
                assert(file_at(r.met(), i, o.rel));
                if !good(o.rel) {
                    let j = choose|j: int|
                        0 <= j < r.met().len() && ((#[trigger] r.met()[j]) matches MsgView::Item(x)
                            && x.rel == o.rel && r.desk.fate(x) is Failed);
                    lemma_same_place(r, i, j);
                }
                assert(e.seen.dom().contains(o.rel));
                assert(l.staged.contains_key(o.rel));
            }
        }
    }
    lemma_failed_by_path(r);
    lemma_count_paths(paths, good);
    assert(e.seen.dom() =~= Set::new(|p: Seq<u8>| paths.contains(p) && good(p)));
}

/// The files that could not be read are the ones at the failed paths.
proof fn lemma_failed_by_path(r: Round)
    requires
        r.distinct_files(),
    ensures
        paths_met(r).filter(|p: Seq<u8>| !failed_paths(r).contains(p)).len() == r.files_met()
            - r.files_failed(),
{
    let good = |p: Seq<u8>| !failed_paths(r).contains(p);
    let bad = |p: Seq<u8>| failed_paths(r).contains(p);
    assert forall|i: int| 0 <= i < r.met().len() implies ((
    #[trigger] r.met()[i]) matches MsgView::Item(o) ==> (r.desk.fate(o) == Fate::Failed <==> bad(
        o.rel,
    ))) by {
        if let MsgView::Item(o) = r.met()[i] {
            if bad(o.rel) {
                let j = choose|j: int|
                    0 <= j < r.met().len() && ((#[trigger] r.met()[j]) matches MsgView::Item(x)
                        && x.rel == o.rel && r.desk.fate(x) is Failed);
                lemma_same_place(r, i, j);
            }
        }
    }
    lemma_tally_by_path(r.desk, r.met(), Fate::Failed, bad);
    assert(good =~= (|p: Seq<u8>| !bad(p)));
}

/// A scan that read its base shows something; one without any problem has none to
/// tell of, and shows every file it met.
proof fn lemma_conclusive(r: Round)
    requires
        r.coherent(),
        r.distinct_files(),
    ensures
        r.base_read() ==> !r.attempt.inconclusive(false),
        r.smooth() ==> {
            &&& r.evidence().errors == Seq::<ErrorView>::empty()
            &&& r.attempt.errors@.len() == 0
            &&& !r.attempt.inconclusive(false)
            &&& r.evidence().seen.dom() == paths_met(r).to_set()
            &&& r.files_met() == r.met().len()
            &&& r.files_failed() == 0
        },
{
    let e = r.evidence();
    let errors = error_views(r.attempt.errors@);
    let l = after_messages(r.before, r.arrived);
    assert forall|k: int| 0 <= k < errors.len() implies !r.smooth() && (r.base_read() ==> (
    #[trigger] errors[k]).rel != Some(Seq::<u8>::empty())) by {
        assert(l.errors.contains(errors[k]));
        lemma_problems(r.before, r.arrived, errors[k]);
        let at = choose|at: int|
            0 <= at < r.arrived.len() && ((
            #[trigger] r.arrived[at]) matches WriteMsgView::Error { rel, .. } && rel
                == errors[k].rel);
        assert(r.arrived.contains(r.arrived[at]));
        let i = lemma_problem_arrived(r, r.arrived[at]);
        assert(0 <= i < r.met().len());
        if let MsgView::Item(o) = r.met()[i] {
            if r.base_read() {
                assert(o.rel.len() > 0);
            }
        }
    }
    if r.smooth() {
        lemma_seen(r);
        if errors.len() > 0 {
            assert(errors[0] == errors[0]);
            assert(false);
        }
        assert(errors =~= Seq::<ErrorView>::empty());
        assert(errors.len() == r.attempt.errors@.len());
        assert forall|i: int| 0 <= i < r.met().len() implies (#[trigger] r.met()[i]) is Item by {}
        lemma_all_files(r.met());
        lemma_no_such_fate(r.desk, r.met(), Fate::Failed);
        assert forall|p: Seq<u8>| #[trigger]
            e.seen.dom().contains(p) == paths_met(r).to_set().contains(p) by {}
        assert(e.seen.dom() =~= paths_met(r).to_set());
    }
}

/// Where every file has this fate, that is how many there are.
proof fn lemma_all_one_fate(d: Desk, queue: Seq<MsgView>, fate: Fate)
    requires
        forall|i: int|
            0 <= i < queue.len() ==> ((#[trigger] queue[i]) matches MsgView::Item(o) ==> d.fate(o)
                == fate),
    ensures
        d.tally(queue, fate) == files_in(queue),
    decreases queue.len(),
{
    if queue.len() > 0 {
        let rest = queue.drop_last();
        assert forall|i: int| 0 <= i < rest.len() implies ((
        #[trigger] rest[i]) matches MsgView::Item(o) ==> d.fate(o) == fate) by {
            assert(rest[i] == queue[i]);
        }
        lemma_all_one_fate(d, rest, fate);
        assert(queue[queue.len() - 1] == queue.last());
    }
}

/// Where no file has this fate, none is counted.
proof fn lemma_no_such_fate(d: Desk, queue: Seq<MsgView>, fate: Fate)
    requires
        forall|i: int|
            0 <= i < queue.len() ==> ((#[trigger] queue[i]) matches MsgView::Item(o) ==> d.fate(o)
                != fate),
    ensures
        d.tally(queue, fate) == 0,
    decreases queue.len(),
{
    if queue.len() > 0 {
        let rest = queue.drop_last();
        assert forall|i: int| 0 <= i < rest.len() implies ((
        #[trigger] rest[i]) matches MsgView::Item(o) ==> d.fate(o) != fate) by {
            assert(rest[i] == queue[i]);
        }
        lemma_no_such_fate(d, rest, fate);
        assert(queue[queue.len() - 1] == queue.last());
    }
}

/// The files with this fate are the ones whose paths satisfy a condition.
proof fn lemma_tally_by_path(
    d: Desk,
    queue: Seq<MsgView>,
    fate: Fate,
    pred: spec_fn(Seq<u8>) -> bool,
)
    requires
        forall|i: int|
            0 <= i < queue.len() ==> ((#[trigger] queue[i]) matches MsgView::Item(o) ==> (d.fate(o)
                == fate <==> pred(o.rel))),
    ensures
        d.tally(queue, fate) == paths_in(queue).filter(pred).len(),
        files_in(queue) - d.tally(queue, fate) == paths_in(queue).filter(
            |p: Seq<u8>| !pred(p),
        ).len(),
    decreases queue.len(),
{
    let others = |p: Seq<u8>| !pred(p);
    reveal(Seq::filter);
    if queue.len() > 0 {
        let rest = queue.drop_last();
        assert forall|i: int| 0 <= i < rest.len() implies ((
        #[trigger] rest[i]) matches MsgView::Item(o) ==> (d.fate(o) == fate <==> pred(
            o.rel,
        ))) by {
            assert(rest[i] == queue[i]);
        }
        lemma_tally_by_path(d, rest, fate, pred);
        assert(queue[queue.len() - 1] == queue.last());
        if let MsgView::Item(o) = queue.last() {
            Seq::lemma_filter_len_push(paths_in(rest), pred, o.rel);
            Seq::lemma_filter_len_push(paths_in(rest), others, o.rel);
        }
    }
}

/// A whole scan: every file met is reused from staging, reused from the baseline or
/// read, unless it could not be read. Those that could not are not staged; all the
/// others are staged and present, and nothing else is. A scan that read its base is
/// conclusive.
#[verifier::rlimit(40)]
pub proof fn law_every_file_has_its_due(r: Round)
    requires
        r.coherent(),
        r.distinct_files(),
        r.files_met() <= u64::MAX,
    ensures
        r.counts().reused_stage + r.counts().reused_baseline + r.counts().hashed == r.files_met()
            - r.files_failed(),
        r.base_read() ==> !r.attempt.inconclusive(false),
        r.evidence().seen.dom().len() == r.files_met() - r.files_failed(),
        present_paths(r.evidence().after()) == paths_met(r).to_set().difference(failed_paths(r)),
        present_paths(r.evidence().after()).len() == r.files_met() - r.files_failed(),
{
    let d = r.desk;
    lemma_seen(r);
    lemma_conclusive(r);
    law_present_is_what_was_seen(r.evidence());
    law_crew_counts_tell_the_fates(d, r.queues);
    law_counts_tell_the_fates(d, r.met());
    assert(r.evidence().seen.dom() =~= paths_met(r).to_set().difference(failed_paths(r)));
}

/// The files met again for which an earlier attempt staged a complete entry that
/// still fits.
pub open spec fn kept_paths(r: Round) -> Set<Seq<u8>> {
    Set::new(
        |p: Seq<u8>|
            exists|i: int|
                0 <= i < r.met().len() && ((#[trigger] r.met()[i]) matches MsgView::Item(o)
                    && o.rel == p && staged_hit(o, (r.desk.staged)(p))),
    )
}

/// A scan that continues one that was stopped takes from staging exactly the files
/// that still fit a complete entry. Where the baseline holds nothing, it reads all
/// the others that can be read. Where every entry staged before fits a file met
/// again, as after a scan was killed over a tree that has not changed since, those
/// are all the entries. In the end every file met is staged and present, but for
/// those that could not be read.
#[verifier::rlimit(40)]
pub proof fn law_resume_reads_only_the_rest(r: Round)
    requires
        r.coherent(),
        r.distinct_files(),
        r.files_met() <= u64::MAX,
    ensures
        kept_paths(r).finite(),
        r.counts().reused_stage == kept_paths(r).len(),
        r.files == Map::<Seq<u8>, FileRow>::empty() ==> {
            &&& r.counts().reused_baseline == 0
            &&& r.counts().hashed == r.files_met() - r.files_failed() - kept_paths(r).len()
        },
        (forall|p: Seq<u8>| #[trigger]
            r.before.staged.contains_key(p) ==> kept_paths(r).contains(p)) ==> kept_paths(r)
            == r.before.staged.dom(),
        r.base_read() ==> !r.attempt.inconclusive(false),
        r.evidence().seen.dom().len() == r.files_met() - r.files_failed(),
        present_paths(r.evidence().after()).len() == r.files_met() - r.files_failed(),
{
    let d = r.desk;
    let paths = paths_met(r);
    let kept = |p: Seq<u8>| kept_paths(r).contains(p);
    law_every_file_has_its_due(r);
    lemma_seen(r);
    law_crew_counts_tell_the_fates(d, r.queues);
    law_counts_tell_the_fates(d, r.met());
    assert forall|i: int| 0 <= i < r.met().len() implies ((
    #[trigger] r.met()[i]) matches MsgView::Item(o) ==> (d.fate(o) == Fate::Staged <==> kept(
        o.rel,
    ))) by {
        if let MsgView::Item(o) = r.met()[i] {
            if kept(o.rel) {
                let j = choose|j: int|
                    0 <= j < r.met().len() && ((#[trigger] r.met()[j]) matches MsgView::Item(x)
                        && x.rel == o.rel && staged_hit(x, (r.desk.staged)(o.rel)));
                lemma_same_place(r, i, j);
            }
        }
    }
    lemma_tally_by_path(d, r.met(), Fate::Staged, kept);
    lemma_count_paths(paths, kept);
    assert(Set::new(|p: Seq<u8>| paths.contains(p) && kept(p)) =~= kept_paths(r)) by {
        assert forall|p: Seq<u8>| kept(p) implies paths.contains(p) by {
            let j = choose|j: int|
                0 <= j < r.met().len() && ((#[trigger] r.met()[j]) matches MsgView::Item(o)
                    && o.rel == p && staged_hit(o, (r.desk.staged)(p)));
            lemma_paths(r.met(), p);
            assert(file_at(r.met(), j, p));
        }
    }
    if r.files == Map::<Seq<u8>, FileRow>::empty() {
        assert forall|i: int| 0 <= i < r.met().len() implies ((
        #[trigger] r.met()[i]) matches MsgView::Item(o) ==> d.fate(o) != Fate::Baseline) by {
            if let MsgView::Item(o) = r.met()[i] {
                assert((d.prior)(o.rel) is None);
            }
        }
        lemma_no_such_fate(d, r.met(), Fate::Baseline);
    }
    if forall|p: Seq<u8>| #[trigger]
        r.before.staged.contains_key(p) ==> kept_paths(r).contains(p) {
        assert forall|p: Seq<u8>| kept_paths(r).contains(p) == r.before.staged.dom().contains(p) by {
            assert(r.before.staged.contains_key(p) == r.before.staged.dom().contains(p));
            if kept_paths(r).contains(p) {
                assert((d.staged)(p) is Some);
            }
        }
        assert(kept_paths(r) =~= r.before.staged.dom());
    }
}

/// A row written by a scan that was stopped, over files that are met again.
proof fn lemma_row_source(
    d: Desk,
    queues: Seq<Seq<WalkMsg>>,
    again: Round,
    row: StagedView,
) -> (i: int)
    requires
        forall|m: MsgView| #[trigger]
            pooled(queues).contains(m) && m is Item ==> again.met().contains(m),
        crew_sent(d, queues).contains(WriteMsgView::Row(row)),
    ensures
        0 <= i < again.met().len(),
        again.met()[i] is Item,
        row == row_written(d, again.met()[i]->Item_0),
{
    let taken = pooled(queues);
    let msg = WriteMsgView::Row(row);
    law_crew_sends_what_is_called_for(d, queues);
    lemma_handled_contains(d, taken, msg);
    let j = choose|j: int| 0 <= j < taken.len() && #[trigger] d.handled(taken[j]).contains(msg);
    assert(taken.contains(taken[j]));
    match taken[j] {
        MsgView::Item(o) => {
            lemma_handled_file(d, o, msg);
        },
        MsgView::Error { .. } => {
            let out = d.handled(taken[j]);
            let k = out.index_of(msg);
            assert(out[k] == msg);
        },
    }
    again.met().index_of(taken[j])
}

/// A scan that was killed, and the one that continues it over a tree that has not
/// changed since. The first found no staging; `committed` is what its writer had
/// written down by then of what the workers sent for the messages in `queues`. Every
/// entry staged by it is kept and none of its files is read again; over an empty
/// baseline all the other files are read that can be. In the end every file is
/// staged and present, but for those that could not be read.
pub proof fn law_killed_scan_is_continued(
    d: Desk,
    queues: Seq<Seq<WalkMsg>>,
    committed: Seq<WriteMsgView>,
    again: Round,
)
    requires
        forall|m: WriteMsgView| #[trigger] committed.contains(m) ==> crew_sent(d, queues).contains(m),
        forall|m: MsgView| #[trigger]
            pooled(queues).contains(m) && m is Item ==> again.met().contains(m),
        again.coherent(),
        again.distinct_files(),
        again.files_met() <= u64::MAX,
        again.before.staged == after_messages(nothing_written(), committed).staged,
    ensures
        again.before.staged.dom().finite(),
        again.counts().reused_stage == again.before.staged.dom().len(),
        again.files == Map::<Seq<u8>, FileRow>::empty() ==> {
            &&& again.counts().reused_baseline == 0
            &&& again.counts().hashed == again.files_met() - again.files_failed()
                - again.before.staged.dom().len()
        },
        again.base_read() ==> !again.attempt.inconclusive(false),
        again.evidence().seen.dom().len() == again.files_met() - again.files_failed(),
        present_paths(again.evidence().after()).len() == again.files_met() - again.files_failed(),
{
    let l = nothing_written();
    assert forall|p: Seq<u8>| #[trigger] again.before.staged.contains_key(p) implies kept_paths(
        again,
    ).contains(p) by {
        let any = StagedView {
            rel: p,
            size_bytes: 0,
            mtime_ns: 0,
            created_ns: None,
            content_hash: Seq::empty(),
            hash_status: Seq::empty(),
        };
        if forall|k: int|
            0 <= k < committed.len() ==> ((#[trigger] committed[k]) matches WriteMsgView::Row(
                other,
            ) ==> other.rel != p) {
            lemma_staged(l, committed, p, any);
            if committed.contains(WriteMsgView::Row(any)) {
                let k = committed.index_of(WriteMsgView::Row(any));
                assert(committed[k] == WriteMsgView::Row(any));
            }
            assert(false);
        }
        let k = choose|k: int|
            0 <= k < committed.len() && ((#[trigger] committed[k]) matches WriteMsgView::Row(other)
                && other.rel == p);
        let row = committed[k]->Row_0;
        assert(committed.contains(committed[k]));
        let i = lemma_row_source(d, queues, again, row);
        assert forall|h: int| 0 <= h < committed.len() implies ((
        #[trigger] committed[h]) matches WriteMsgView::Row(other) ==> other.rel == p ==> other
            == row) by {
            if let WriteMsgView::Row(other) = committed[h] {
                if other.rel == p {
                    assert(committed.contains(committed[h]));
                    let j = lemma_row_source(d, queues, again, other);
                    lemma_same_place(again, i, j);
                }
            }
        }
        lemma_staged(l, committed, p, row);
        let s = (again.desk.staged)(p);
        assert(s is Some);
        assert(s->0.facts@ == facts_for(row));
        assert(s->0.facts@.size_bytes == row.size_bytes);
        assert(s->0.facts@.mtime_ns == row.mtime_ns);
        assert(staged_hit(again.met()[i]->Item_0, s));
    }
    law_resume_reads_only_the_rest(again);
}

proof fn lemma_workers_discover_nothing(d: Desk, queue: Seq<MsgView>)
    ensures
        d.all_counted(queue).discovered_files == 0,
    decreases queue.len(),
{
    if queue.len() > 0 {
        lemma_workers_discover_nothing(d, queue.drop_last());
    }
}

proof fn lemma_crew_discovers_nothing(d: Desk, queues: Seq<Seq<WalkMsg>>)
    ensures
        crew_counted(d, queues).discovered_files == 0,
    decreases queues.len(),
{
    if queues.len() > 0 {
        lemma_crew_discovers_nothing(d, queues.drop_last());
        lemma_workers_discover_nothing(d, walk_views(queues.last()));
    }
}

proof fn lemma_all_files(msgs: Seq<MsgView>)
    requires
        forall|i: int| 0 <= i < msgs.len() ==> (#[trigger] msgs[i]) is Item,
    ensures
        files_in(msgs) == msgs.len(),
    decreases msgs.len(),
{
    if msgs.len() > 0 {
        let rest = msgs.drop_last();
        assert forall|i: int| 0 <= i < rest.len() implies (#[trigger] rest[i]) is Item by {
            assert(rest[i] == msgs[i]);
        }
        lemma_all_files(rest);
        assert(msgs[msgs.len() - 1] == msgs.last());
    }
}

/// Files are counted alike in whatever order.
proof fn lemma_files_unordered(msgs: Seq<MsgView>)
    ensures
        files_in(msgs) == msgs.to_multiset().filter(|m: MsgView| m is Item).len(),
    decreases msgs.len(),
{
    broadcast use vstd::multiset::group_multiset_axioms;

    let file = |m: MsgView| m is Item;
    msgs.to_multiset_ensures();
    if msgs.len() == 0 {
        assert(msgs.to_multiset().filter(file) =~= Multiset::empty());
    } else {
        let rest = msgs.drop_last();
        let last = msgs.last();
        lemma_files_unordered(rest);
        rest.to_multiset_ensures();
        assert(rest.push(last) =~= msgs);
        if file(last) {
            assert(msgs.to_multiset().filter(file) =~= rest.to_multiset().filter(file).insert(last));
        } else {
            assert(msgs.to_multiset().filter(file) =~= rest.to_multiset().filter(file));
        }
    }
}

/// A message counted twice stands at two places.
proof fn lemma_counted_twice(msgs: Seq<MsgView>, m: MsgView)
    ensures
        msgs.to_multiset().count(m) >= 2 <==> exists|i: int, j: int|
            0 <= i < j < msgs.len() && #[trigger] msgs[i] == m && #[trigger] msgs[j] == m,
    decreases msgs.len(),
{
    broadcast use vstd::multiset::group_multiset_axioms;

    msgs.to_multiset_ensures();
    if msgs.len() > 0 {
        let rest = msgs.drop_last();
        let last = msgs.last();
        lemma_counted_twice(rest, m);
        rest.to_multiset_ensures();
        assert(rest.push(last) =~= msgs);
        assert(forall|i: int| 0 <= i < rest.len() ==> #[trigger] rest[i] == msgs[i]);
        assert(msgs[msgs.len() - 1] == last);
        if msgs.to_multiset().count(m) >= 2 {
            if last == m {
                assert(rest.contains(m));
                let i = rest.index_of(m);
                assert(msgs[i] == m);
            } else {
                let (i, j) = choose|i: int, j: int|
                    0 <= i < j < rest.len() && #[trigger] rest[i] == m && #[trigger] rest[j] == m;
                assert(msgs[i] == m && msgs[j] == m);
            }
        }
        if exists|i: int, j: int|
            0 <= i < j < msgs.len() && #[trigger] msgs[i] == m && #[trigger] msgs[j] == m {
            let (i, j) = choose|i: int, j: int|
                0 <= i < j < msgs.len() && #[trigger] msgs[i] == m && #[trigger] msgs[j] == m;
            assert(rest[i] == m);
            assert(rest.contains(m));
            if j < rest.len() {
                assert(rest[j] == m);
            }
        }
    }
}

/// A walk that finished, over a tree whose listings show each name once, gives the
/// workers distinct files, however they share them out, and none at the base. The
/// number of files discovered is the number of files the workers met.
pub proof fn law_walk_feeds_the_workers(w: World, start: WalkState, n: nat, r: Round)
    requires
        unstarted(start),
        start.counts == no_counts(),
        tidy(w),
        tour(w, start, n).action is Finish,
        files_in(tour(w, start, n).sent) <= u64::MAX,
        r.met().to_multiset() == tour(w, start, n).sent.to_multiset(),
        r.walked == tour(w, start, n).state.counts,
    ensures
        r.distinct_files(),
        forall|i: int|
            0 <= i < r.met().len() ==> ((#[trigger] r.met()[i]) matches MsgView::Item(o)
                ==> o.rel.len() > 0),
        r.files_met() == files_in(tour(w, start, n).sent),
        r.counts().discovered_files == r.files_met(),
        r.walked.hashed == 0,
        r.walked.reused_stage == 0,
        r.walked.reused_baseline == 0,
{
    let t = tour(w, start, n);
    let sent = t.sent;
    let met = r.met();
    law_files_are_counted(w, start, n);
    law_nothing_is_met_twice(w, start, n);
    law_walk_invents_nothing(w, start, n);
    lemma_files_unordered(sent);
    lemma_files_unordered(met);
    lemma_crew_discovers_nothing(r.desk, r.queues);
    met.to_multiset_ensures();
    sent.to_multiset_ensures();
    assert forall|i: int| 0 <= i < met.len() implies sent.contains(#[trigger] met[i]) by {
        assert(met.contains(met[i]));
        assert(met.to_multiset().count(met[i]) > 0);
    }
    assert forall|i: int| 0 <= i < met.len() implies ((
    #[trigger] met[i]) matches MsgView::Item(o) ==> o.rel.len() > 0) by {
        if let MsgView::Item(o) = met[i] {
            assert(sent.contains(met[i]));
            assert(warranted(w, start, t.opened, met[i]));
            let k = choose|k: int|
                0 <= k < t.opened.len() && #[trigger] w.shows(start.policy, t.opened[k], o.rel);
            let at = choose|at: int| #[trigger] w.shows_at(start.policy, t.opened[k], o.rel, at);
            assert(w.name_at(t.opened[k], at) is Some);
        }
    }
    assert forall|i: int, j: int|
        0 <= i < j < met.len() && (#[trigger] met[i]) is Item && (
        #[trigger] met[j]) is Item implies met[i]->Item_0.rel != met[j]->Item_0.rel by {
        assert(sent.contains(met[i]) && sent.contains(met[j]));
        if met[i] == met[j] {
            lemma_counted_twice(met, met[i]);
            lemma_counted_twice(sent, met[i]);
            let (a, b) = choose|a: int, b: int|
                0 <= a < b < sent.len() && #[trigger] sent[a] == met[i] && #[trigger] sent[b]
                    == met[i];
            assert(sent[a] is Item && sent[b] is Item);
        } else {
            let a = sent.index_of(met[i]);
            let b = sent.index_of(met[j]);
            assert(sent[a] == met[i] && sent[b] == met[j]);
            if a < b {
                assert(sent[a] is Item && sent[b] is Item);
            } else {
                assert(sent[b] is Item && sent[a] is Item);
            }
        }
    }
}

proof fn lemma_nothing_picked<A, B>(s: Seq<A>, f: spec_fn(A) -> Option<B>)
    requires
        forall|x: A| (#[trigger] f(x)) is None,
    ensures
        s.filter_map(f).len() == 0,
    decreases s.len(),
{
    if s.len() > 0 {
        lemma_nothing_picked(s.drop_last(), f);
    }
}

/// Where the baseline neither changes nor is written to, promotion does nothing.
proof fn lemma_idle_promotion(
    e: Evidence,
    staged: Seq<Seq<u8>>,
    prior: Seq<Seq<u8>>,
    p: Promotion,
)
    requires
        forall|q: Seq<u8>| (#[trigger] e.change(q)) is None,
        forall|q: Seq<u8>| (#[trigger] e.write(q)) is None,
        e.decided(staged, prior, p),
    ensures
        p.added@.len() == 0,
        p.updated@.len() == 0,
        p.deleted@.len() == 0,
        p.writes@.len() == 0,
        p.unchanged == e.seen.dom().len(),
        p.present == e.seen.dom().len(),
{
    lemma_nothing_picked(staged, e.change_of(ChangeKind::Added));
    lemma_nothing_picked(staged, e.change_of(ChangeKind::Updated));
    lemma_nothing_picked(prior, e.change_of(ChangeKind::Deleted));
    lemma_nothing_picked(staged, e.write_seen());
    lemma_nothing_picked(prior, e.write_unseen());
    assert(change_views(p.added@).len() == p.added@.len());
    assert(change_views(p.updated@).len() == p.updated@.len());
    assert(change_views(p.deleted@).len() == p.deleted@.len());
    assert(write_views(p.writes@).len() == p.writes@.len());
    law_present_is_what_was_seen(e);
}

/// The type that a path's name gives it.
pub open spec fn type_by_name(p: Seq<u8>) -> Option<Seq<char>> {
    mime_of(extension_of(name_of(lossy_text(p))))
}

/// The baseline holds the file as it was observed: present, with a trustworthy hash
/// and the type its name gives it.
pub open spec fn as_catalogued(files: Map<Seq<u8>, FileRow>, o: ObservedView) -> bool {
    &&& files.contains_key(o.rel)
    &&& baseline_hit(o, Some(files[o.rel]))
    &&& files[o.rel].facts@.mime_type == type_by_name(o.rel)
}

/// A scan of files that the baseline all holds as they are: none is read, each is
/// reused from the baseline, and each is staged and unchanged.
pub proof fn law_catalogued_files_are_not_read(r: Round)
    requires
        r.coherent(),
        r.distinct_files(),
        r.before.staged == Map::<Seq<u8>, EntryView>::empty(),
        r.files_met() <= u64::MAX,
        forall|i: int|
            0 <= i < r.met().len() ==> ((#[trigger] r.met()[i]) matches MsgView::Item(o)
                ==> as_catalogued(r.files, o)),
    ensures
        r.counts().hashed == 0,
        r.counts().reused_stage == 0,
        r.counts().reused_baseline == r.files_met(),
        r.base_read() ==> !r.attempt.inconclusive(false),
        (forall|i: int| 0 <= i < r.met().len() ==> (#[trigger] r.met()[i]) is Item) ==> {
            &&& r.attempt.errors@.len() == 0
            &&& !r.attempt.inconclusive(false)
        },
        r.evidence().seen.dom() == paths_met(r).to_set(),
        r.evidence().seen.dom().len() == r.files_met(),
        forall|p: Seq<u8>| #[trigger]
            r.evidence().seen.contains_key(p) ==> r.evidence().change(p) is None
                && r.evidence().write(p) is None,
{
    let d = r.desk;
    let e = r.evidence();
    assert forall|i: int| 0 <= i < r.met().len() implies ((
    #[trigger] r.met()[i]) matches MsgView::Item(o) ==> d.fate(o) == Fate::Baseline) by {
        if let MsgView::Item(o) = r.met()[i] {
            assert((d.prior)(o.rel) == Some(r.files[o.rel]));
            assert((d.staged)(o.rel) is None);
        }
    }
    lemma_seen(r);
    lemma_conclusive(r);
    law_crew_counts_tell_the_fates(d, r.queues);
    law_counts_tell_the_fates(d, r.met());
    lemma_all_one_fate(d, r.met(), Fate::Baseline);
    if forall|i: int| 0 <= i < r.met().len() ==> (#[trigger] r.met()[i]) is Item {
        assert(r.smooth());
    }
    assert(e.seen.dom() =~= paths_met(r).to_set());
    assert forall|p: Seq<u8>| #[trigger] e.seen.contains_key(p) implies e.change(p) is None
        && e.write(p) is None by {
        assert(e.seen.dom().contains(p));
        lemma_paths(r.met(), p);
        let i = choose|i: int| #[trigger] file_at(r.met(), i, p);
        let o = r.met()[i]->Item_0;
        let old = r.files[p];
        assert(e.prior[p] == old@);
        assert((d.prior)(p) == Some(old));
        assert(e.seen[p] == facts_known(r, o));
        assert(e.seen[p].fingerprint() =~= old@.facts.fingerprint());
    }
}

/// The same files were met, in whatever order.
pub open spec fn same_files(a: Round, b: Round) -> bool {
    forall|m: MsgView| #[trigger] a.met().contains(m) <==> b.met().contains(m)
}

impl Round {
    /// What was staged before this attempt, if anything, has hashes that can be
    /// trusted and the types that the names give.
    pub open spec fn trusts_staging(self) -> bool {
        forall|p: Seq<u8>| #[trigger]
            self.before.staged.contains_key(p) ==> self.before.staged[p].facts.hash_status
                == "complete"@ && self.before.staged[p].facts.mime_type == type_by_name(p)
    }

    /// The scan meets this file, and leaves its row as it was although its hash
    /// cannot be trusted: nothing that is compared differs.
    pub open spec fn leaves_untrusted(self, p: Seq<u8>) -> bool {
        &&& self.evidence().seen.contains_key(p)
        &&& self.files.contains_key(p)
        &&& self.files[p].presence == Presence::Present
        &&& self.files[p].facts.hash_status@ != "complete"@
        &&& self.files[p].facts@.fingerprint() == self.evidence().seen[p].fingerprint()
    }
}

/// What a scan without problems leaves in the baseline for a file: a present row, as
/// the file was observed.
proof fn lemma_catalogued(first: Round, i: int)
    requires
        first.coherent(),
        first.distinct_files(),
        first.smooth(),
        first.trusts_staging(),
        forall|p: Seq<u8>| !(#[trigger] first.leaves_untrusted(p)),
        0 <= i < first.met().len(),
    ensures
        ({
            let o = first.met()[i]->Item_0;
            let after = first.evidence().after();
            &&& after.contains_key(o.rel)
            &&& after[o.rel].presence == Presence::Present
            &&& after[o.rel].facts.hash_status == "complete"@
            &&& after[o.rel].facts.size_bytes == o.size_bytes
            &&& after[o.rel].facts.mtime_ns == o.mtime_ns
            &&& after[o.rel].facts.mime_type == type_by_name(o.rel)
        }),
{
    let e = first.evidence();
    assert(first.met()[i] is Item);
    let o = first.met()[i]->Item_0;
    lemma_seen(first);
    assert(e.seen.contains_key(o.rel));
    let new = e.seen[o.rel];
    assert(new == facts_known(first, o));
    if first.desk.fate(o) is Staged {
        let s = (first.desk.staged)(o.rel);
        assert(staged_hit(o, s));
        assert(first.before.staged.contains_key(o.rel));
        assert(s->0.facts@ == new);
        assert(new.size_bytes == s->0.facts.size_bytes && new.mtime_ns == s->0.facts.mtime_ns);
    }
    if e.write(o.rel) is None {
        let old = e.prior[o.rel];
        assert(first.files.contains_key(o.rel));
        assert(old == first.files[o.rel]@);
        assert(old.facts.fingerprint() == new.fingerprint());
        assert(!first.leaves_untrusted(o.rel));
    }
}

/// A rerun over a tree that has not changed, after a scan that met no problems. It
/// reads nothing, reuses every hash from the baseline, meets no problem itself, and
/// is promoted: every file is staged, unchanged and present. Nothing is added,
/// updated or deleted, no row is written, and the baseline stays as it was, down to
/// the scan that supplied each row.
///
/// A present row with a hash that is not trusted stays as it is where a scan finds
/// the same size, time, type and hash, and its file is then read again by every
/// scan; so the first scan may not have met such a file, nor taken such a hash from
/// staging.
#[verifier::rlimit(40)]
pub proof fn law_rerun_of_an_unchanged_tree(first: Round, again: Round)
    requires
        first.coherent(),
        first.distinct_files(),
        first.smooth(),
        first.trusts_staging(),
        forall|p: Seq<u8>| !(#[trigger] first.leaves_untrusted(p)),
        again.coherent(),
        again.distinct_files(),
        again.before.staged == Map::<Seq<u8>, EntryView>::empty(),
        again.met().len() <= u64::MAX,
        baseline(again.files) == first.evidence().after(),
        same_files(first, again),
    ensures
        again.counts().hashed == 0,
        again.counts().reused_stage == 0,
        again.counts().reused_baseline == again.met().len(),
        again.attempt.errors@.len() == 0,
        !again.attempt.inconclusive(false),
        again.evidence().seen.dom() == first.evidence().seen.dom(),
        again.evidence().seen.dom().len() == again.met().len(),
        forall|p: Seq<u8>| (#[trigger] again.evidence().change(p)) is None,
        again.evidence().after() == first.evidence().after(),
        forall|staged: Seq<Seq<u8>>, prior: Seq<Seq<u8>>, p: Promotion| #[trigger]
            again.evidence().decided(staged, prior, p) ==> {
                &&& p.added@.len() == 0
                &&& p.updated@.len() == 0
                &&& p.deleted@.len() == 0
                &&& p.writes@.len() == 0
                &&& p.unchanged == again.met().len()
                &&& p.present == again.met().len()
            },
{
    let one = first.evidence();
    let two = again.evidence();
    lemma_conclusive(first);
    assert forall|i: int| 0 <= i < again.met().len() implies ((
    #[trigger] again.met()[i]) matches MsgView::Item(o) && as_catalogued(again.files, o)) by {
        let m = again.met()[i];
        assert(again.met().contains(m));
        assert(first.met().contains(m));
        let k = first.met().index_of(m);
        assert(first.met()[k] is Item);
        lemma_catalogued(first, k);
        let rel = m->Item_0.rel;
        assert(baseline(again.files).contains_key(rel));
        assert(baseline(again.files)[rel] == again.files[rel]@);
    }
    assert forall|i: int| 0 <= i < again.met().len() implies (#[trigger] again.met()[i]) is Item by {
        assert(again.met()[i] matches MsgView::Item(o) && as_catalogued(again.files, o));
    }
    lemma_all_files(again.met());
    law_catalogued_files_are_not_read(again);
    assert(two.seen.dom() =~= one.seen.dom()) by {
        lemma_same_paths(first, again);
    }
    assert forall|p: Seq<u8>| (#[trigger] two.change(p)) is None && two.write(p) is None by {
        assert(two.seen.dom().contains(p) == one.seen.dom().contains(p));
        if !two.seen.contains_key(p) && two.prior.contains_key(p) {
            assert(one.after().contains_key(p));
            assert(!one.seen.contains_key(p));
            assert(!shielded_by(one.errors, p));
            assert(one.after()[p].presence == Presence::Deleted);
        }
    }
    assert forall|p: Seq<u8>| (#[trigger] two.write(p)) is None by {
        assert(two.change(p) is None);
    }
    assert(two.after() =~= two.prior) by {
        assert forall|p: Seq<u8>| two.after().contains_key(p) == two.prior.contains_key(p) by {
            if two.seen.contains_key(p) {
                assert(two.change(p) is None);
            }
        }
    }
    assert forall|staged: Seq<Seq<u8>>, prior: Seq<Seq<u8>>, p: Promotion| #[trigger]
        two.decided(staged, prior, p) implies {
        &&& p.added@.len() == 0
        &&& p.updated@.len() == 0
        &&& p.deleted@.len() == 0
        &&& p.writes@.len() == 0
        &&& p.unchanged == again.met().len()
        &&& p.present == again.met().len()
    } by {
        lemma_idle_promotion(two, staged, prior, p);
    }
}

proof fn lemma_same_paths(a: Round, b: Round)
    requires
        same_files(a, b),
    ensures
        paths_met(a).to_set() == paths_met(b).to_set(),
{
    assert forall|p: Seq<u8>| paths_met(a).contains(p) == paths_met(b).contains(p) by {
        lemma_paths(a.met(), p);
        lemma_paths(b.met(), p);
        if paths_met(a).contains(p) {
            let i = choose|i: int| #[trigger] file_at(a.met(), i, p);
            assert(a.met().contains(a.met()[i]));
            assert(file_at(b.met(), b.met().index_of(a.met()[i]), p));
        }
        if paths_met(b).contains(p) {
            let i = choose|i: int| #[trigger] file_at(b.met(), i, p);
            assert(b.met().contains(b.met()[i]));
            assert(a.met().contains(b.met()[i]));
            assert(file_at(a.met(), a.met().index_of(b.met()[i]), p));
        }
    }
    assert(paths_met(a).to_set() =~= paths_met(b).to_set());
}

/// A file of the baseline that a scan met, had to read, and could not, for any reason
/// but that it was gone: no change is recorded of it, and it ends as unreadable, with
/// every fact that was known of it. It is never taken for deleted.
pub proof fn law_unread_file_ends_as_unreadable(r: Round, i: int, e: IoFailure)
    requires
        r.coherent(),
        r.distinct_files(),
        0 <= i < r.met().len(),
        r.met()[i] is Item,
        r.met()[i]->Item_0.rel.len() > 0,
        r.desk.fate(r.met()[i]->Item_0) is Failed,
        (r.desk.read)(r.met()[i]->Item_0.path) == HashAttempt::Failed(e),
        e.kind != FailureKind::NotFound,
        r.files.contains_key(r.met()[i]->Item_0.rel),
        r.files[r.met()[i]->Item_0.rel].presence != Presence::Deleted,
    ensures
        ({
            let p = r.met()[i]->Item_0.rel;
            let row = r.evidence().after()[p];
            &&& !r.evidence().seen.contains_key(p)
            &&& r.evidence().change(p) is None
            &&& r.evidence().after().contains_key(p)
            &&& row.presence == Presence::Unreadable
            &&& row.facts == r.files[p].facts@
            &&& row.metadata_from_scan_id == r.files[p].metadata_from_scan_id
        }),
{
    let d = r.desk;
    let o = r.met()[i]->Item_0;
    let p = o.rel;
    let ev = r.evidence();
    let l = after_messages(r.before, r.arrived);
    let out = d.handled(r.met()[i]);
    law_failed_reads_are_told(r.walked, o, e);
    law_failures_have_codes(e@);
    assert(out == hash_messages(o, HashAttempt::Failed(e)));
    let m = out[0];
    assert(out.contains(m));
    law_crew_sends_what_is_called_for(d, r.queues);
    lemma_handled_contains(d, r.met(), m);
    assert(r.arrived.contains(m));
    let k = r.arrived.index_of(m);
    lemma_problem_is_kept(r.before, r.arrived, k);
    let at = choose|at: int|
        0 <= at < l.errors.len() && (#[trigger] l.errors[at]).rel == m->Error_rel
            && l.errors[at].code == m->Error_code;
    let rows = r.attempt.errors@;
    assert(error_views(rows)[at] == rows[at]@);
    assert(rows[at].rel is Some);
    law_a_problem_shields_what_lies_below(rows, p);
    lemma_seen(r);
    assert(failed_paths(r).contains(p));
    assert(!ev.seen.dom().contains(p));
    law_an_attempt_saw_what_it_met_and_staged(r.attempt, r.files, r.scan_id, p);
    law_deleted_means_it_could_have_been_seen(ev, p);
    law_baseline_after_promotion(ev, p);
}

} // verus!
