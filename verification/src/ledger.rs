//! From the writer to the baseline: what the batches of a scan leave behind, and
//! what becomes of it.

use vstd::prelude::*;

use crate::promote::{law_present_is_what_was_seen, present_paths};
use crate::rows::{error_views, ErrorView, FactsView, FileRow};
use crate::scan::Attempt;
use crate::stage::{batch_effects, effects, facts_for, BatchView, StagedView, WriteMsgView};

verus! {

/// A staging entry, as the writer leaves it.
pub struct EntryView {
    pub facts: FactsView,
    pub complete: bool,
}

/// Everything a scan has written down so far.
pub struct Ledger {
    pub staged: Map<Seq<u8>, EntryView>,
    pub walked: Set<Seq<u8>>,
    pub errors: Seq<ErrorView>,
}

/// The ledger after one durable effect.
pub open spec fn entered(l: Ledger, b: BatchView) -> Ledger {
    match b {
        BatchView::Stage { path, facts, complete } => Ledger {
            staged: l.staged.insert(path, EntryView { facts, complete }),
            ..l
        },
        BatchView::Walked(path) => Ledger { walked: l.walked.insert(path), ..l },
        BatchView::Problem(e) => Ledger { errors: l.errors.push(e), ..l },
    }
}

/// The ledger after several, in order.
pub open spec fn all_entered(l: Ledger, effects: Seq<BatchView>) -> Ledger
    decreases effects.len(),
{
    if effects.len() == 0 {
        l
    } else {
        entered(all_entered(l, effects.drop_last()), effects.last())
    }
}

/// The ledger after a batch.
pub open spec fn after_messages(l: Ledger, msgs: Seq<WriteMsgView>) -> Ledger {
    all_entered(l, batch_effects(msgs))
}

/// What a scan left behind is what the ledger says.
pub open spec fn records(l: Ledger, a: Attempt) -> bool {
    &&& a.walked@.dom() == l.walked
    &&& a.staged@.dom() == l.staged.dom()
    &&& forall|p: Seq<u8>| #[trigger]
        l.staged.contains_key(p) ==> a.staged@[p].facts@ == l.staged[p].facts
            && a.staged@[p].complete == l.staged[p].complete
    &&& error_views(a.errors@) == l.errors
}

/// The path is staged completely, and was met.
pub open spec fn settled(l: Ledger, p: Seq<u8>) -> bool {
    l.walked.contains(p) && l.staged.contains_key(p) && l.staged[p].complete
}

proof fn lemma_entered_split(l: Ledger, a: Seq<BatchView>, b: Seq<BatchView>)
    ensures
        all_entered(l, a + b) == all_entered(all_entered(l, a), b),
    decreases b.len(),
{
    if b.len() == 0 {
        assert(a + b =~= a);
    } else {
        assert((a + b).drop_last() =~= a + b.drop_last());
        lemma_entered_split(l, a, b.drop_last());
    }
}

/// A batch is its first messages, then its last.
proof fn lemma_last_message(l: Ledger, msgs: Seq<WriteMsgView>)
    requires
        msgs.len() > 0,
    ensures
        after_messages(l, msgs) == all_entered(
            after_messages(l, msgs.drop_last()),
            effects(msgs.last()),
        ),
{
    let each = |m: WriteMsgView| effects(m);
    let rest = msgs.drop_last();
    rest.lemma_flat_map_push(each, msgs.last());
    assert(rest.push(msgs.last()) =~= msgs);
    lemma_entered_split(l, batch_effects(rest), effects(msgs.last()));
}

/// The ledger after one message.
proof fn lemma_one_message(l: Ledger, m: WriteMsgView)
    ensures
        all_entered(l, effects(m)) == (match m {
            WriteMsgView::Row(row) => Ledger {
                staged: l.staged.insert(
                    row.rel,
                    EntryView { facts: facts_for(row), complete: true },
                ),
                walked: l.walked.insert(row.rel),
                ..l
            },
            WriteMsgView::Reused(rel) => Ledger { walked: l.walked.insert(rel), ..l },
            WriteMsgView::Error { rel, stage, code, message } => Ledger {
                errors: l.errors.push(effects(m)[0]->Problem_0),
                ..l
            },
        }),
{
    reveal_with_fuel(all_entered, 3);
    let all = effects(m);
    match m {
        WriteMsgView::Row(row) => {
            assert(all.drop_last() =~= seq![all[0]]);
            assert(all.drop_last().drop_last() =~= Seq::<BatchView>::empty());
        },
        _ => {
            assert(all.drop_last() =~= Seq::<BatchView>::empty());
        },
    }
}

/// What is settled stays settled, whatever is written after it.
pub proof fn law_settled_stays_settled(l: Ledger, msgs: Seq<WriteMsgView>, p: Seq<u8>)
    requires
        settled(l, p),
    ensures
        settled(after_messages(l, msgs), p),
    decreases msgs.len(),
{
    if msgs.len() > 0 {
        law_settled_stays_settled(l, msgs.drop_last(), p);
        lemma_last_message(l, msgs);
        lemma_one_message(after_messages(l, msgs.drop_last()), msgs.last());
    } else {
        assert(batch_effects(msgs) =~= Seq::<BatchView>::empty());
    }
}

/// An entry that is staged completely stays so.
proof fn lemma_complete_stays(l: Ledger, msgs: Seq<WriteMsgView>, p: Seq<u8>)
    requires
        l.staged.contains_key(p),
        l.staged[p].complete,
    ensures
        after_messages(l, msgs).staged.contains_key(p),
        after_messages(l, msgs).staged[p].complete,
    decreases msgs.len(),
{
    if msgs.len() > 0 {
        lemma_complete_stays(l, msgs.drop_last(), p);
        lemma_last_message(l, msgs);
        lemma_one_message(after_messages(l, msgs.drop_last()), msgs.last());
    } else {
        assert(batch_effects(msgs) =~= Seq::<BatchView>::empty());
    }
}

/// Every file handed to the writer is settled once the batch is written, and so is
/// every file that an earlier attempt had staged completely and this one met again.
pub proof fn law_written_files_are_settled(l: Ledger, msgs: Seq<WriteMsgView>, k: int)
    requires
        0 <= k < msgs.len(),
    ensures
        msgs[k] matches WriteMsgView::Row(row) ==> settled(after_messages(l, msgs), row.rel),
        msgs[k] matches WriteMsgView::Reused(rel) ==> (l.staged.contains_key(rel)
            && l.staged[rel].complete ==> settled(after_messages(l, msgs), rel)),
    decreases msgs.len(),
{
    let rest = msgs.drop_last();
    let before = after_messages(l, rest);
    lemma_last_message(l, msgs);
    lemma_one_message(before, msgs.last());
    if k < msgs.len() - 1 {
        law_written_files_are_settled(l, rest, k);
        assert(rest[k] == msgs[k]);
    } else if let WriteMsgView::Reused(rel) = msgs[k] {
        if l.staged.contains_key(rel) && l.staged[rel].complete {
            lemma_complete_stays(l, rest, rel);
        }
    }
}

/// This message names this path as met.
pub open spec fn names(m: WriteMsgView, p: Seq<u8>) -> bool {
    match m {
        WriteMsgView::Row(row) => row.rel == p,
        WriteMsgView::Reused(rel) => rel == p,
        WriteMsgView::Error { .. } => false,
    }
}

/// The paths met are the ones that messages name.
pub proof fn lemma_walked(l: Ledger, msgs: Seq<WriteMsgView>, p: Seq<u8>)
    ensures
        after_messages(l, msgs).walked.contains(p) <==> l.walked.contains(p) || exists|k: int|
            0 <= k < msgs.len() && names(#[trigger] msgs[k], p),
    decreases msgs.len(),
{
    if msgs.len() > 0 {
        let rest = msgs.drop_last();
        lemma_walked(l, rest, p);
        lemma_last_message(l, msgs);
        lemma_one_message(after_messages(l, rest), msgs.last());
        assert(forall|k: int| 0 <= k < rest.len() ==> #[trigger] rest[k] == msgs[k]);
        if exists|k: int| 0 <= k < rest.len() && names(#[trigger] rest[k], p) {
            let k = choose|k: int| 0 <= k < rest.len() && names(#[trigger] rest[k], p);
            assert(names(msgs[k], p));
        }
        if exists|k: int| 0 <= k < msgs.len() && names(#[trigger] msgs[k], p) {
            let k = choose|k: int| 0 <= k < msgs.len() && names(#[trigger] msgs[k], p);
            if k < rest.len() {
                assert(names(rest[k], p));
            }
        }
    } else {
        assert(batch_effects(msgs) =~= Seq::<BatchView>::empty());
    }
}

/// Every problem written down is one that a message told of.
pub proof fn lemma_problems(l: Ledger, msgs: Seq<WriteMsgView>, e: ErrorView)
    requires
        after_messages(l, msgs).errors.contains(e),
    ensures
        l.errors.contains(e) || exists|k: int|
            0 <= k < msgs.len() && ((#[trigger] msgs[k]) matches WriteMsgView::Error { rel, .. }
                && rel == e.rel),
    decreases msgs.len(),
{
    if msgs.len() > 0 {
        let rest = msgs.drop_last();
        let before = after_messages(l, rest);
        lemma_last_message(l, msgs);
        lemma_one_message(before, msgs.last());
        let at = after_messages(l, msgs).errors.index_of(e);
        if at < before.errors.len() {
            assert(before.errors[at] == e);
            lemma_problems(l, rest, e);
            if !l.errors.contains(e) {
                let k = choose|k: int|
                    0 <= k < rest.len() && ((#[trigger] rest[k]) matches WriteMsgView::Error {
                        rel,
                        ..
                    } && rel == e.rel);
                assert(msgs[k] == rest[k]);
            }
        } else {
            assert(msgs[msgs.len() - 1] == msgs.last());
        }
    } else {
        assert(batch_effects(msgs) =~= Seq::<BatchView>::empty());
    }
}

/// The entry at a path is the one last written there, if any.
pub proof fn lemma_staged(l: Ledger, msgs: Seq<WriteMsgView>, p: Seq<u8>, row: StagedView)
    requires
        row.rel == p,
        forall|k: int|
            0 <= k < msgs.len() ==> ((#[trigger] msgs[k]) matches WriteMsgView::Row(other)
                ==> other.rel == p ==> other == row),
    ensures
        msgs.contains(WriteMsgView::Row(row)) ==> {
            &&& after_messages(l, msgs).staged.contains_key(p)
            &&& after_messages(l, msgs).staged[p] == (EntryView {
                facts: facts_for(row),
                complete: true,
            })
        },
        !msgs.contains(WriteMsgView::Row(row)) ==> {
            &&& after_messages(l, msgs).staged.contains_key(p) == l.staged.contains_key(p)
            &&& after_messages(l, msgs).staged[p] == l.staged[p]
        },
    decreases msgs.len(),
{
    let target = WriteMsgView::Row(row);
    if msgs.len() > 0 {
        let rest = msgs.drop_last();
        assert forall|k: int| 0 <= k < rest.len() implies ((
        #[trigger] rest[k]) matches WriteMsgView::Row(other) ==> other.rel == p ==> other
            == row) by {
            assert(rest[k] == msgs[k]);
        }
        lemma_staged(l, rest, p, row);
        lemma_last_message(l, msgs);
        lemma_one_message(after_messages(l, rest), msgs.last());
        assert(msgs[msgs.len() - 1] == msgs.last());
        if rest.contains(target) {
            let k = rest.index_of(target);
            assert(msgs[k] == target);
        }
        if msgs.contains(target) && msgs.last() != target {
            let k = msgs.index_of(target);
            assert(rest[k] == target);
        }
    } else {
        assert(batch_effects(msgs) =~= Seq::<BatchView>::empty());
    }
}

/// After a promotion the present files are exactly the settled ones: every file the
/// scan wrote is catalogued, and nothing else is.
pub proof fn law_settled_files_are_present(
    l: Ledger,
    a: Attempt,
    files: Map<Seq<u8>, FileRow>,
    scan_id: i64,
    p: Seq<u8>,
)
    requires
        records(l, a),
    ensures
        present_paths(a.evidence(files, scan_id).after()).contains(p) <==> settled(l, p),
{
    let e = a.evidence(files, scan_id);
    law_present_is_what_was_seen(e);
    assert(e.seen.dom().contains(p) <==> settled(l, p)) by {
        assert(a.walked@.contains_key(p) <==> a.walked@.dom().contains(p));
        assert(a.staged@.contains_key(p) <==> a.staged@.dom().contains(p));
        assert(l.staged.contains_key(p) <==> l.staged.dom().contains(p));
    }
}

/// A problem that a message told of is written down, at the same path and under the
/// same code.
pub proof fn lemma_problem_is_kept(l: Ledger, msgs: Seq<WriteMsgView>, k: int)
    requires
        0 <= k < msgs.len(),
        msgs[k] is Error,
    ensures
        exists|i: int|
            0 <= i < after_messages(l, msgs).errors.len() && (#[trigger] after_messages(
                l,
                msgs,
            ).errors[i]).rel == msgs[k]->Error_rel && after_messages(l, msgs).errors[i].code
                == msgs[k]->Error_code,
    decreases msgs.len(),
{
    let rest = msgs.drop_last();
    let before = after_messages(l, rest);
    let after = after_messages(l, msgs);
    lemma_last_message(l, msgs);
    lemma_one_message(before, msgs.last());
    if k < rest.len() {
        assert(rest[k] == msgs[k]);
        lemma_problem_is_kept(l, rest, k);
        let i = choose|i: int|
            0 <= i < before.errors.len() && (#[trigger] before.errors[i]).rel == msgs[k]->Error_rel
                && before.errors[i].code == msgs[k]->Error_code;
        assert(after.errors[i] == before.errors[i]);
    } else {
        assert(msgs[k] == msgs.last());
        assert(after.errors.last().rel == msgs[k]->Error_rel);
        assert(after.errors[after.errors.len() - 1].code == msgs[k]->Error_code);
    }
}

} // verus!
