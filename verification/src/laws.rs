//! What holds of whole runs: laws that relate the phases to each other and to
//! the ledger, proved from the definitions that the phases' contracts use.

use crate::store::ExistsInOldTargetResult;
use crate::store::Row;
use crate::store::stored_time;
use crate::store::StoreError;
use crate::store::StoreView;
use crate::store::WasTransferredFromSourceResult;
use crate::sync::Candidate;
use crate::sync::detected;
use crate::sync::Detecting;
use crate::sync::FileOutcome;
use crate::sync::HashedFile;
use crate::sync::hashing_plan;
use crate::sync::index_file;
use crate::sync::indexed;
use crate::sync::IndexError;
use crate::sync::IndexFault;
use crate::sync::Indexing;
use crate::sync::ScanError;
use crate::sync::ScannedFile;
use crate::sync::transfer_file;
use crate::sync::transferred;
use vstd::prelude::*;

verus! {

/// No two of the hashed files have the same path.
pub open spec fn hashed_paths_distinct(files: Seq<HashedFile>) -> bool {
    forall|i: int, j: int|
        0 <= i < j < files.len() ==> (#[trigger] files[i]).file.path@ != (
        #[trigger] files[j]).file.path@
}

/// Indexing one file touches no path but its own, leaves the transfer table
/// alone, and leaves the file recorded with its present metadata.
pub proof fn lemma_index_file_effect(view: StoreView, hashed: HashedFile)
    requires
        index_file(view, hashed) is Ok,
    ensures
        ({
            let after = index_file(view, hashed)->Ok_0;
            &&& after.source_files == view.source_files
            &&& after.exists_in_old_target(
                hashed.file.path@,
                hashed.file.last_modified,
                hashed.file.size,
            ) == Ok::<ExistsInOldTargetResult, StoreError>(ExistsInOldTargetResult::Current)
            &&& forall|p: Seq<char>|
                p != hashed.file.path@ ==> after.old_target_files.contains_key(p)
                    == view.old_target_files.contains_key(p) && after.old_target_files[p]
                    == view.old_target_files[p]
        }),
{
}

/// After a run of indexing that did not stop, every file of the run is held
/// by the ledger with its present metadata, provided no path occurs twice.
pub proof fn lemma_indexed_files_are_current(
    view: StoreView,
    files: Seq<HashedFile>,
    n: nat,
    i: int,
)
    requires
        hashed_paths_distinct(files),
        0 <= i < n <= files.len(),
        indexed(view, files, n).halted is None,
    ensures
        indexed(view, files, n).view.exists_in_old_target(
            files[i].file.path@,
            files[i].file.last_modified,
            files[i].file.size,
        ) == Ok::<ExistsInOldTargetResult, StoreError>(ExistsInOldTargetResult::Current),
    decreases n,
{
    let before = indexed(view, files, (n - 1) as nat);
    lemma_index_file_effect(before.view, files[n - 1]);
    if i < n - 1 {
        lemma_indexed_files_are_current(view, files, (n - 1) as nat, i);
    }
}

/// The files that a list of hashed files was made from.
pub open spec fn scanned(files: Seq<HashedFile>) -> Seq<ScannedFile> {
    files.map_values(|hashed: HashedFile| hashed.file)
}

/// Idempotence of phase one, for the files seen so far. See
/// `lemma_indexing_twice`.
proof fn lemma_indexing_again(view: StoreView, files: Seq<HashedFile>, n: nat)
    requires
        hashed_paths_distinct(files),
        n <= files.len(),
        indexed(view, files, files.len()).halted is None,
    ensures
        indexed(indexed(view, files, files.len()).view, files, n) == (Indexing {
            view: indexed(view, files, files.len()).view,
            halted: None,
        }),
        hashing_plan(indexed(view, files, files.len()).view, scanned(files), n) == Ok::<
            Seq<usize>,
            ScanError,
        >(Seq::empty()),
    decreases n,
{
    if n > 0 {
        lemma_indexing_again(view, files, (n - 1) as nat);
        lemma_indexed_files_are_current(view, files, files.len(), n - 1);
    }
}

/// Idempotence of phase one. If indexing a list of files with distinct paths
/// went through, then on the ledger that this run left no file of the list
/// needs hashing, and indexing the same list again goes through as well and
/// changes nothing in the ledger.
pub proof fn lemma_indexing_twice(view: StoreView, files: Seq<HashedFile>)
    requires
        hashed_paths_distinct(files),
        indexed(view, files, files.len()).halted is None,
    ensures
        hashing_plan(indexed(view, files, files.len()).view, scanned(files), files.len()) == Ok::<
            Seq<usize>,
            ScanError,
        >(Seq::empty()),
        indexed(indexed(view, files, files.len()).view, files, files.len()) == (Indexing {
            view: indexed(view, files, files.len()).view,
            halted: None,
        }),
{
    lemma_indexing_again(view, files, files.len());
}

/// The integrity guard, for one file. Where the ledger holds a path with
/// other metadata than the file now has, a file whose content digest differs
/// from the recorded one is a fault, and a file whose digest is the recorded
/// one has its new metadata recorded with the same digest.
pub proof fn lemma_integrity_guard(view: StoreView, hashed: HashedFile)
    requires
        stored_time(hashed.file.last_modified) is Ok,
        view.old_target_files.contains_key(hashed.file.path@),
        view.old_target_files[hashed.file.path@].mtime != stored_time(
            hashed.file.last_modified,
        )->Ok_0 || view.old_target_files[hashed.file.path@].size != hashed.file.size,
    ensures
        view.old_target_files[hashed.file.path@].digest != hashed.digest ==> index_file(
            view,
            hashed,
        ) == Err::<StoreView, IndexFault>(IndexFault::Rewritten),
        view.old_target_files[hashed.file.path@].digest == hashed.digest ==> index_file(
            view,
            hashed,
        ) == Ok::<StoreView, IndexFault>(
            StoreView {
                old_target_files: view.old_target_files.insert(
                    hashed.file.path@,
                    Row {
                        mtime: stored_time(hashed.file.last_modified)->Ok_0,
                        size: hashed.file.size,
                        digest: hashed.digest,
                    },
                ),
                source_files: view.source_files,
            },
        ),
{
}

/// The integrity guard, for a run. A fault at one file stops the run there:
/// however many files follow, the ledger stays as the files before the fault
/// made it, and the run reports that file and that fault.
pub proof fn lemma_fault_stops_run(view: StoreView, files: Seq<HashedFile>, at: nat, n: nat)
    requires
        at < n <= files.len(),
        indexed(view, files, at).halted is None,
        index_file(indexed(view, files, at).view, files[at as int]) is Err,
    ensures
        indexed(view, files, n) == (Indexing {
            view: indexed(view, files, at).view,
            halted: Some(
                IndexError {
                    index: at as usize,
                    fault: index_file(indexed(view, files, at).view, files[at as int])->Err_0,
                },
            ),
        }),
    decreases n,
{
    if n > at + 1 {
        lemma_fault_stops_run(view, files, at, (n - 1) as nat);
    }
}

/// No two of the first `n` candidates have the same path.
pub open spec fn candidate_paths_distinct(files: Seq<Candidate>, n: nat) -> bool {
    forall|i: int, j: int|
        0 <= i < j < n ==> (#[trigger] files[i]).path@ != (#[trigger] files[j]).path@
}

/// The row that the ledger keeps for a candidate that was copied.
pub open spec fn transfer_row(candidate: Candidate) -> Row
    recommends
        candidate.staged is Copied,
{
    Row {
        mtime: stored_time(candidate.staged->last_modified)->Ok_0,
        size: candidate.staged->size,
        digest: candidate.staged->digest,
    }
}

/// A transfer that has not stopped after `n` candidates had not stopped
/// after fewer, and has one outcome for each candidate: the one that was
/// decided when the candidate's turn came.
pub proof fn lemma_transfer_outcomes(view: StoreView, files: Seq<Candidate>, n: nat, k: int)
    requires
        0 <= k < n <= files.len(),
        transferred(view, files, n).halted is None,
    ensures
        transferred(view, files, k as nat).halted is None,
        transferred(view, files, n).outcomes.len() == n,
        transfer_file(transferred(view, files, k as nat).view, files[k]) is Ok,
        transferred(view, files, n).outcomes[k] == transfer_file(
            transferred(view, files, k as nat).view,
            files[k],
        )->Ok_0.1,
        transferred(view, files, (k + 1) as nat).view == transfer_file(
            transferred(view, files, k as nat).view,
            files[k],
        )->Ok_0.0,
    decreases n,
{
    if k < n - 1 {
        lemma_transfer_outcomes(view, files, (n - 1) as nat, k);
    } else if n > 1 {
        lemma_transfer_outcomes(view, files, (n - 1) as nat, k - 1);
    }
}

/// A transfer never touches the index of the old archive, and in the
/// transfer table it touches only the paths of candidates that were copied.
pub proof fn lemma_transfer_leaves_others(
    view: StoreView,
    files: Seq<Candidate>,
    n: nat,
    path: Seq<char>,
)
    requires
        n <= files.len(),
        transferred(view, files, n).halted is None,
        forall|k: int| 0 <= k < n && (#[trigger] files[k]).staged is Copied ==> files[k].path@ != path,
    ensures
        transferred(view, files, n).view.old_target_files == view.old_target_files,
        transferred(view, files, n).view.source_files.contains_key(path)
            == view.source_files.contains_key(path),
        transferred(view, files, n).view.source_files[path] == view.source_files[path],
    decreases n,
{
    if n > 0 {
        lemma_transfer_outcomes(view, files, n, n - 1);
        lemma_transfer_leaves_others(view, files, (n - 1) as nat, path);
        let _ = files[n - 1];
        lemma_transfer_keeps_old_target(view, files, n);
    }
}

/// A transfer never touches the index of the old archive.
pub proof fn lemma_transfer_keeps_old_target(view: StoreView, files: Seq<Candidate>, n: nat)
    requires
        n <= files.len(),
        transferred(view, files, n).halted is None,
    ensures
        transferred(view, files, n).view.old_target_files == view.old_target_files,
    decreases n,
{
    if n > 0 {
        lemma_transfer_outcomes(view, files, n, n - 1);
        lemma_transfer_keeps_old_target(view, files, (n - 1) as nat);
    }
}

/// Every candidate that was copied has its transfer in the ledger at the end
/// of the run, with its digest and metadata, provided no later candidate of
/// the run has the same path.
pub proof fn lemma_transfer_is_recorded(view: StoreView, files: Seq<Candidate>, n: nat, k: int)
    requires
        0 <= k < n <= files.len(),
        transferred(view, files, n).halted is None,
        files[k].staged is Copied,
        forall|j: int| k < j < n ==> (#[trigger] files[j]).path@ != files[k].path@,
    ensures
        stored_time(files[k].staged->last_modified) is Ok,
        transferred(view, files, n).view.source_files.contains_key(files[k].path@),
        transferred(view, files, n).view.source_files[files[k].path@] == transfer_row(files[k]),
    decreases n,
{
    lemma_transfer_outcomes(view, files, n, n - 1);
    if k < n - 1 {
        lemma_transfer_is_recorded(view, files, (n - 1) as nat, k);
        let _ = files[n - 1];
    }
}

/// Deduplication. In a run over candidates with distinct paths that did not
/// stop, of two candidates with the same content digest the later one is
/// discarded, so at most one copy of the content is published; and both have
/// their transfer in the ledger at the end.
pub proof fn lemma_duplicate_is_published_once(
    view: StoreView,
    files: Seq<Candidate>,
    i: int,
    j: int,
)
    requires
        candidate_paths_distinct(files, files.len()),
        transferred(view, files, files.len()).halted is None,
        0 <= i < j < files.len(),
        files[i].staged is Copied,
        files[j].staged is Copied,
        files[i].staged->digest == files[j].staged->digest,
    ensures
        transferred(view, files, files.len()).outcomes[j] == FileOutcome::Discard,
        !(transferred(view, files, files.len()).outcomes[i] == FileOutcome::Publish
            && transferred(view, files, files.len()).outcomes[j] == FileOutcome::Publish),
        transferred(view, files, files.len()).view.source_files.contains_key(files[i].path@),
        transferred(view, files, files.len()).view.source_files.contains_key(files[j].path@),
{
    let n = files.len();
    lemma_transfer_outcomes(view, files, n, j);
    lemma_transfer_is_recorded(view, files, j as nat, i);
    lemma_transfer_is_recorded(view, files, n, i);
    lemma_transfer_is_recorded(view, files, n, j);
    let at_j = transferred(view, files, j as nat).view;
    assert(at_j.source_files.contains_key(files[i].path@) && at_j.source_files[files[i].path@].digest
        == files[j].staged->digest);
}

/// No two of the scanned files have the same path.
pub open spec fn scanned_paths_distinct(files: Seq<ScannedFile>) -> bool {
    forall|i: int, j: int|
        0 <= i < j < files.len() ==> (#[trigger] files[i]).path@ != (#[trigger] files[j]).path@
}

/// The candidate was copied in full, and from the file as the scan saw it:
/// with the same modification time and size.
pub open spec fn staged_as_scanned(candidate: Candidate, file: ScannedFile) -> bool {
    &&& candidate.staged is Copied
    &&& candidate.staged->last_modified == file.last_modified
    &&& candidate.staged->size == file.size
}

/// Detection only ever appends: what it had found after fewer files is the
/// beginning of what it has found after more.
pub proof fn lemma_detected_prefix(view: StoreView, files: Seq<ScannedFile>, m: nat, n: nat)
    requires
        m <= n <= files.len(),
        detected(view, files, n).halted is None,
    ensures
        detected(view, files, m).halted is None,
        detected(view, files, m).new_files.len() <= detected(view, files, n).new_files.len(),
        forall|k: int|
            0 <= k < detected(view, files, m).new_files.len() ==> detected(
                view,
                files,
                n,
            ).new_files[k] == detected(view, files, m).new_files[k],
    decreases n,
{
    if m < n {
        lemma_detected_prefix(view, files, m, (n - 1) as nat);
    }
}

/// Every path that detection selected is the path of one scanned file, which
/// the ledger has never seen transferred; `k` paths were selected before it.
pub proof fn lemma_new_file_origin(view: StoreView, files: Seq<ScannedFile>, n: nat, k: int) -> (i:
    int)
    requires
        n <= files.len(),
        detected(view, files, n).halted is None,
        0 <= k < detected(view, files, n).new_files.len(),
    ensures
        0 <= i < n,
        files[i].path@ == detected(view, files, n).new_files[k],
        detected(view, files, i as nat).halted is None,
        detected(view, files, i as nat).new_files.len() == k,
        view.was_transferred_from_source(files[i].path@, files[i].last_modified, files[i].size)
            == Ok::<WasTransferredFromSourceResult, StoreError>(
            WasTransferredFromSourceResult::New,
        ),
    decreases n,
{
    let before = detected(view, files, (n - 1) as nat);
    if k < before.new_files.len() {
        lemma_new_file_origin(view, files, (n - 1) as nat, k)
    } else {
        n - 1
    }
}

/// What a resumed run assumes of the candidates that an earlier, interrupted
/// run got through: they are the first `done` paths that detection selected,
/// each copied from its file as the scan saw it.
pub open spec fn first_candidates_staged(
    view: StoreView,
    files: Seq<ScannedFile>,
    staged: Seq<Candidate>,
    done: nat,
) -> bool {
    &&& done <= staged.len()
    &&& done <= detected(view, files, files.len()).new_files.len()
    &&& forall|k: int|
        0 <= k < done ==> (#[trigger] staged[k]).path@ == detected(
            view,
            files,
            files.len(),
        ).new_files[k]
    &&& forall|k: int, i: int|
        0 <= k < done && 0 <= i < files.len() && (#[trigger] files[i]).path@ == (
        #[trigger] staged[k]).path@ ==> staged_as_scanned(staged[k], files[i])
}

/// The candidates that detection selected from files with distinct paths
/// have distinct paths themselves, none of which the ledger held before.
proof fn lemma_staged_paths(
    view: StoreView,
    files: Seq<ScannedFile>,
    staged: Seq<Candidate>,
    done: nat,
)
    requires
        scanned_paths_distinct(files),
        detected(view, files, files.len()).halted is None,
        first_candidates_staged(view, files, staged, done),
    ensures
        candidate_paths_distinct(staged, done),
        forall|k: int|
            0 <= k < done ==> !view.source_files.contains_key((#[trigger] staged[k]).path@),
        forall|k: int|
            0 <= k < done ==> (#[trigger] staged[k]).staged is Copied && stored_time(
                staged[k].staged->last_modified,
            ) is Ok,
{
    let n = files.len();
    assert forall|a: int, b: int| 0 <= a < b < done implies (#[trigger] staged[a]).path@ != (
    #[trigger] staged[b]).path@ by {
        let ia = lemma_new_file_origin(view, files, n, a);
        let ib = lemma_new_file_origin(view, files, n, b);
        assert(ia != ib);
        assert(files[ia].path@ != files[ib].path@);
    }
    assert forall|k: int| 0 <= k < done implies !view.source_files.contains_key(
        (#[trigger] staged[k]).path@,
    ) && staged[k].staged is Copied && stored_time(staged[k].staged->last_modified) is Ok by {
        let i = lemma_new_file_origin(view, files, n, k);
        assert(staged_as_scanned(staged[k], files[i]));
    }
}

/// The candidates that an interrupted run got through were all recorded:
/// the ledger refused none of them.
proof fn lemma_staged_transfer_goes_through(
    view: StoreView,
    staged: Seq<Candidate>,
    done: nat,
    m: nat,
)
    requires
        m <= done <= staged.len(),
        forall|k: int|
            0 <= k < done ==> (#[trigger] staged[k]).staged is Copied && stored_time(
                staged[k].staged->last_modified,
            ) is Ok,
    ensures
        transferred(view, staged, m).halted is None,
    decreases m,
{
    if m > 0 {
        lemma_staged_transfer_goes_through(view, staged, done, (m - 1) as nat);
        let _ = staged[m - 1];
    }
}

/// Resumability, for the files seen so far. See `lemma_resumed_run`.
proof fn lemma_resumed_detection(
    view: StoreView,
    files: Seq<ScannedFile>,
    staged: Seq<Candidate>,
    done: nat,
    n: nat,
)
    requires
        scanned_paths_distinct(files),
        n <= files.len(),
        detected(view, files, files.len()).halted is None,
        first_candidates_staged(view, files, staged, done),
    ensures
        transferred(view, staged, done).halted is None,
        detected(transferred(view, staged, done).view, files, n) == (Detecting {
            new_files: if detected(view, files, n).new_files.len() >= done {
                detected(view, files, n).new_files.skip(done as int)
            } else {
                Seq::empty()
            },
            changed: detected(view, files, n).changed,
            halted: None,
        }),
    decreases n,
{
    let all = detected(view, files, files.len());
    lemma_staged_paths(view, files, staged, done);
    lemma_staged_transfer_goes_through(view, staged, done, done);
    lemma_detected_prefix(view, files, n, files.len());
    let resumed = transferred(view, staged, done).view;
    if n > 0 {
        let i = n - 1;
        let file = files[i];
        let now = detected(view, files, n);
        let before = detected(view, files, (n - 1) as nat);
        lemma_detected_prefix(view, files, (n - 1) as nat, files.len());
        lemma_resumed_detection(view, files, staged, done, (n - 1) as nat);
        let rank = before.new_files.len() as int;
        if view.source_files.contains_key(file.path@) {
            assert forall|k: int|
                0 <= k < done && (#[trigger] staged[k]).staged is Copied implies staged[k].path@
                != file.path@ by {}
            lemma_transfer_leaves_others(view, staged, done, file.path@);
        } else if rank < done {
            assert(now.new_files[rank] == file.path@);
            assert(staged[rank].path@ == file.path@);
            assert(staged_as_scanned(staged[rank], files[i]));
            lemma_transfer_is_recorded(view, staged, done, rank);
            assert(now.new_files.len() == rank + 1);
            if rank + 1 == done {
                assert(now.new_files.skip(done as int) =~= Seq::<Seq<char>>::empty());
            }
        } else {
            assert forall|k: int|
                0 <= k < done && (#[trigger] staged[k]).staged is Copied implies staged[k].path@
                != file.path@ by {
                let origin = lemma_new_file_origin(view, files, (n - 1) as nat, k);
                assert(files[origin].path@ == before.new_files[k]);
                assert(all.new_files[k] == before.new_files[k]);
                assert(files[origin].path@ != files[i].path@);
            }
            lemma_transfer_leaves_others(view, staged, done, file.path@);
            assert(now.new_files.skip(done as int) =~= before.new_files.skip(done as int).push(
                file.path@,
            ));
        }
    } else if done == 0 {
        assert(detected(view, files, 0).new_files.skip(0) =~= Seq::<Seq<char>>::empty());
    }
}

/// Resumability. Let a scan of files with distinct paths select its
/// candidates, and let a run be interrupted after it got through the first
/// `done` of them, each copied from its file as the scan saw it. Then a new
/// detection over the same scan, on the ledger that the interrupted run
/// left, selects exactly the remaining candidates, in the same order: the
/// first `done` are found transferred, and the files that had changed since
/// an earlier transfer are reported as before.
pub proof fn lemma_resumed_run(
    view: StoreView,
    files: Seq<ScannedFile>,
    staged: Seq<Candidate>,
    done: nat,
)
    requires
        scanned_paths_distinct(files),
        detected(view, files, files.len()).halted is None,
        first_candidates_staged(view, files, staged, done),
    ensures
        transferred(view, staged, done).halted is None,
        detected(transferred(view, staged, done).view, files, files.len()) == (Detecting {
            new_files: detected(view, files, files.len()).new_files.skip(done as int),
            changed: detected(view, files, files.len()).changed,
            halted: None,
        }),
{
    lemma_resumed_detection(view, files, staged, done, files.len());
}

} // verus!
