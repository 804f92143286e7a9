//! What holds of the catalogue as a whole, across scans.

use vstd::prelude::*;

use crate::config::{
    described, file_over, history_over, nothing_set, or_else, over, scan_of, scan_over,
    storage_over, RawFile, RawScan,
};
use crate::promote::{at_or_below, difference, shielded_by, Evidence};
use crate::rows::{ChangeKind, FileRow, FileView, FingerprintView, Presence, StageEntry};
use crate::stage::{baseline_hit, row_for, staging_of, StagingView};
use crate::walk::ObservedView;

verus! {

/// Scanning the same tree again records nothing: no path gets a change row, and
/// every row stays as it was, down to the scan that supplied it.
pub proof fn law_rerun_records_nothing(first: Evidence, again: Evidence)
    requires
        again.prior == first.after(),
        again.errors == first.errors,
        again.seen.dom() == first.seen.dom(),
        forall|p: Seq<u8>| #[trigger]
            first.seen.contains_key(p) ==> again.seen[p].fingerprint()
                == first.seen[p].fingerprint(),
    ensures
        forall|p: Seq<u8>| again.change(p) is None,
        again.after() == again.prior,
{
    assert forall|p: Seq<u8>| again.change(p) is None && (again.prior.contains_key(p)
        ==> #[trigger] again.after()[p] == again.prior[p]) by {
        assert(again.seen.contains_key(p) == first.seen.contains_key(p));
        if first.seen.contains_key(p) {
            assert(again.prior.contains_key(p));
        }
    }
    assert(again.after() =~= again.prior) by {
        assert forall|p: Seq<u8>| again.after().contains_key(p) == again.prior.contains_key(
            p,
        ) by {
            assert(again.seen.contains_key(p) == first.seen.contains_key(p));
        }
    }
}

/// A path that was not seen below one that could not be read is not deleted: no
/// change row is written for it, and its row keeps every fact it had.
pub proof fn law_unreadable_is_no_evidence(e: Evidence, p: Seq<u8>)
    requires
        e.held(p),
    ensures
        e.change(p) is None,
        e.after()[p] == (FileView { presence: Presence::Unreadable, ..e.prior[p] }),
{
}

/// A path of the baseline that was not seen, where it could have been, is
/// recorded as deleted by this scan.
pub proof fn law_absence_is_deletion(e: Evidence, p: Seq<u8>)
    requires
        e.prior.contains_key(p),
        e.prior[p].presence != Presence::Deleted,
        !e.seen.contains_key(p),
        !shielded_by(e.errors, p),
    ensures
        e.change(p) matches Some(c) && c.kind == ChangeKind::Deleted,
        e.after()[p].presence == Presence::Deleted,
        e.after()[p].deleted_in_scan_id == Some(e.scan_id),
{
}

/// Once a path that could not be read can be read again, the next scan lands where
/// a scan that could always read it would have: the same change is recorded, and
/// the row, if there is one, ends with the same presence and the same compared
/// fields. This holds of files that the baseline knew, of deleted ones, and of new
/// ones.
pub proof fn law_recovery(blind: Evidence, clear: Evidence, direct: Evidence, p: Seq<u8>)
    requires
        !blind.seen.contains_key(p),
        shielded_by(blind.errors, p),
        clear.prior == blind.after(),
        direct.prior == blind.prior,
        clear.seen == direct.seen,
        !shielded_by(clear.errors, p),
        !shielded_by(direct.errors, p),
    ensures
        clear.change(p) == direct.change(p),
        clear.after().contains_key(p) == direct.after().contains_key(p),
        clear.after().contains_key(p) ==> {
            &&& clear.after()[p].presence == direct.after()[p].presence
            &&& clear.after()[p].facts.fingerprint() == direct.after()[p].facts.fingerprint()
        },
{
}

/// A file that moved is one deletion and one addition, whatever its contents.
pub proof fn law_rename_is_delete_and_add(e: Evidence, from: Seq<u8>, to: Seq<u8>)
    requires
        e.prior.contains_key(from),
        e.prior[from].presence == Presence::Present,
        !e.seen.contains_key(from),
        !shielded_by(e.errors, from),
        !e.prior.contains_key(to),
        e.seen.contains_key(to),
    ensures
        e.change(from) matches Some(c) && c.kind == ChangeKind::Deleted,
        e.change(to) matches Some(c) && c.kind == ChangeKind::Added,
{
}

/// Shielding goes by whole segments: a longer path is below `top` exactly when
/// the byte that follows `top` in it is the separator.
pub proof fn law_shield_stops_at_segments(top: Seq<u8>, next: u8, rest: Seq<u8>)
    ensures
        at_or_below(top.push(next) + rest, top) <==> next == 0x2f,
{
    let path = top.push(next) + rest;
    assert(path.take(top.len() as int) =~= top);
    assert(path[top.len() as int] == next);
    assert(path.len() > top.len());
}

/// When every problem of a scan leaves nothing unknown, the baseline ends with
/// no unreadable row.
pub proof fn law_readable_scan_leaves_nothing_unreadable(e: Evidence)
    requires
        forall|p: Seq<u8>| !shielded_by(e.errors, p),
    ensures
        forall|p: Seq<u8>| #[trigger]
            e.after().contains_key(p) ==> e.after()[p].presence != Presence::Unreadable,
{
}

/// The mask of an update says which fields moved, one bit each, and is never
/// empty.
pub proof fn law_mask_names_the_fields(old: FingerprintView, new: FingerprintView)
    ensures
        0 <= difference(old, new) < 16,
        difference(old, new) == 0 <==> old == new,
        difference(old, new) % 2 == 1 <==> old.size_bytes != new.size_bytes,
        difference(old, new) / 2 % 2 == 1 <==> old.mtime_ns != new.mtime_ns,
        difference(old, new) / 4 % 2 == 1 <==> old.mime_type != new.mime_type,
        difference(old, new) / 8 == 1 <==> old.content_hash != new.content_hash,
{
}

/// A hash is reused only for exactly the size and modification time it was taken
/// with. Everything else is read.
pub proof fn law_reuse_needs_an_exact_match(
    item: ObservedView,
    staged: Option<StageEntry>,
    prior: Option<FileRow>,
)
    ensures
        staging_of(item, staged, prior) is Send ==> {
            ||| staged matches Some(s) && s.facts.size_bytes == item.size_bytes && s.facts.mtime_ns
                == item.mtime_ns
            ||| prior matches Some(f) && f.facts.size_bytes == item.size_bytes && f.facts.mtime_ns
                == item.mtime_ns
        },
{
}

/// A digest taken while the file was changing is never reused from the baseline.
pub proof fn law_untrusted_hash_is_not_reused(item: ObservedView, prior: FileRow)
    requires
        prior.facts.hash_status@ == "changed_during_hash"@,
    ensures
        staging_of(item, None, Some(prior)) == StagingView::Hash(item),
{
    reveal_strlit("changed_during_hash");
    reveal_strlit("complete");
    assert("changed_during_hash"@.len() != "complete"@.len());
}

/// What the baseline holds as present with a trusted hash, and the walk met again
/// unchanged, is staged with that very hash and gives no change.
pub proof fn law_unchanged_file_is_not_read(
    e: Evidence,
    item: ObservedView,
    prior: FileRow,
    p: Seq<u8>,
)
    requires
        item.rel == p,
        e.prior_at(p) == Some(prior@),
        baseline_hit(item, Some(prior)),
        e.seen.contains_key(p),
        e.seen[p].size_bytes == item.size_bytes,
        e.seen[p].mtime_ns == item.mtime_ns,
        e.seen[p].mime_type == prior@.facts.mime_type,
        e.seen[p].content_hash == prior@.facts.content_hash,
    ensures
        staging_of(item, None, Some(prior)) == StagingView::Send(
            row_for(item, prior@.facts.content_hash, "complete"@),
        ),
        e.change(p) is None,
        e.write(p) is None,
{
}

/// Configuration is laid over key by key: a setting is what the higher file says,
/// where it says anything, else what the lower one says, else the default.
pub proof fn law_higher_file_wins_key_by_key(
    low: RawFile,
    high: RawFile,
    cpus: u64,
    home: Option<Seq<char>>,
)
    ensures
        described(file_over(low, high), cpus, home) matches Ok(c) ==> {
            let l = scan_of(low);
            let h = scan_of(high);
            &&& c.policy.skip_hidden == or_else(over(l.skip_hidden, h.skip_hidden), true)
            &&& c.policy.skip_mount_boundaries == or_else(
                over(l.skip_mount_boundaries, h.skip_mount_boundaries),
                true,
            )
            &&& c.policy.follow_symlinks == or_else(
                over(l.follow_symlinks, h.follow_symlinks),
                false,
            )
            &&& c.throttle_ms_after_batch == or_else(
                over(l.throttle_ms_after_batch, h.throttle_ms_after_batch),
                0,
            )
        },
{
}

/// A file that sets nothing changes nothing, above or below another.
pub proof fn law_empty_file_changes_nothing(file: RawFile)
    ensures
        file_over(file, nothing_set()) == file,
        file_over(nothing_set(), file) == file,
{
}

proof fn lemma_scan_associative(a: RawScan, b: RawScan, c: RawScan)
    ensures
        scan_over(scan_over(Some(a), Some(b)), Some(c)) == scan_over(
            Some(a),
            scan_over(Some(b), Some(c)),
        ),
{
    let left = scan_over(scan_over(Some(a), Some(b)), Some(c))->0;
    let right = scan_over(Some(a), scan_over(Some(b), Some(c)))->0;
    assert(left.workers == right.workers);
    assert(left.writer_batch_rows == right.writer_batch_rows);
    assert(left.throttle_ms_after_batch == right.throttle_ms_after_batch);
    assert(left.hash_policy == right.hash_policy);
    assert(left.skip_hidden == right.skip_hidden);
    assert(left.skip_mount_boundaries == right.skip_mount_boundaries);
    assert(left.follow_symlinks == right.follow_symlinks);
}

/// It makes no difference which two of three files are laid over each other first.
pub proof fn law_merging_is_associative(a: RawFile, b: RawFile, c: RawFile)
    ensures
        file_over(file_over(a, b), c) == file_over(a, file_over(b, c)),
{
    assert(scan_over(scan_over(a.scan, b.scan), c.scan) == scan_over(
        a.scan,
        scan_over(b.scan, c.scan),
    )) by {
        if a.scan is Some && b.scan is Some && c.scan is Some {
            lemma_scan_associative(a.scan->0, b.scan->0, c.scan->0);
        }
    }
    assert(storage_over(storage_over(a.storage, b.storage), c.storage) == storage_over(
        a.storage,
        storage_over(b.storage, c.storage),
    ));
    assert(history_over(history_over(a.history, b.history), c.history) == history_over(
        a.history,
        history_over(b.history, c.history),
    ));
}

} // verus!
