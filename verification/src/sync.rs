//! The three phases of a synchronisation run, as decisions over the ledger.
//!
//! Each phase takes what a walk of the file system has observed, as plain
//! values, decides what is to be done, and updates the ledger accordingly.
//! Reading, hashing, copying and publishing files is the caller's part.

use crate::digest::Sha256Hash;
use crate::store::ExistsInOldTargetResult;
use crate::store::FileTime;
use crate::store::PhotoSyncStore;
use crate::store::StoreError;
use crate::store::StoreView;
use crate::store::WasTransferredFromSourceResult;
use vstd::prelude::*;

verus! {

/// A file as a walk of a tree reports it: its path relative to the root of
/// the walk, its modification time and its size in bytes.
#[derive(Debug)]
pub struct ScannedFile {
    pub path: String,
    pub last_modified: FileTime,
    pub size: u64,
}

/// A scanned file together with the digest of its present content.
#[derive(Debug)]
pub struct HashedFile {
    pub file: ScannedFile,
    pub digest: Sha256Hash,
}

/// Why indexing the old archive stopped.
#[derive(Clone, Copy, Debug, PartialEq, Eq, Structural)]
pub enum IndexFault {
    /// The ledger refused the file's metadata.
    Store(StoreError),
    /// The content under an already indexed path has changed.
    Rewritten,
}

/// Indexing the old archive stopped at the file with this position in the
/// list, which was not processed, nor was any file after it.
#[derive(Clone, Copy, Debug, PartialEq, Eq, Structural)]
pub struct IndexError {
    pub index: usize,
    pub fault: IndexFault,
}

/// The ledger refused the metadata of the scanned file with this position in
/// the list. Files after it were not looked at.
#[derive(Clone, Copy, Debug, PartialEq, Eq, Structural)]
pub struct ScanError {
    pub index: usize,
    pub error: StoreError,
}

/// Whether a file of the old archive has to be hashed: it has unless the
/// ledger holds it with its present modification time and size.
pub open spec fn needs_hashing(view: StoreView, file: ScannedFile) -> Result<bool, StoreError> {
    match view.exists_in_old_target(file.path@, file.last_modified, file.size) {
        Err(e) => Err(e),
        Ok(found) => Ok(!(found is Current)),
    }
}

/// What hashing is still to do after the first `n` files have been looked at:
/// the positions of those that need it, in order, or the first refusal.
pub open spec fn hashing_plan(view: StoreView, files: Seq<ScannedFile>, n: nat) -> Result<
    Seq<usize>,
    ScanError,
>
    decreases n,
{
    if n == 0 {
        Ok(Seq::empty())
    } else {
        match hashing_plan(view, files, (n - 1) as nat) {
            Err(e) => Err(e),
            Ok(plan) => match needs_hashing(view, files[n - 1]) {
                Err(error) => Err(ScanError { index: (n - 1) as usize, error }),
                Ok(true) => Ok(plan.push((n - 1) as usize)),
                Ok(false) => Ok(plan),
            },
        }
    }
}

/// The positions of the files of the old archive that have to be hashed, in
/// the order of the list. Stops at the first file that the ledger refuses.
pub fn old_files_to_hash(store: &PhotoSyncStore, files: &Vec<ScannedFile>) -> (plan: Result<
    Vec<usize>,
    ScanError,
>)
    ensures
        match plan {
            Ok(p) => Ok::<Seq<usize>, ScanError>(p@) == hashing_plan(store@, files@, files@.len()),
            Err(e) => Err::<Seq<usize>, ScanError>(e) == hashing_plan(store@, files@, files@.len()),
        },
{
    let mut plan: Vec<usize> = Vec::new();
    let mut i: usize = 0;
    while i < files.len()
        invariant
            i <= files@.len(),
            Ok::<Seq<usize>, ScanError>(plan@) == hashing_plan(store@, files@, i as nat),
        decreases files@.len() - i,
    {
        let file = &files[i];
        match store.exists_in_old_target(file.path.as_str(), file.last_modified, file.size) {
            Err(error) => {
                proof {
                    lemma_plan_refusal_stays(store@, files@, (i + 1) as nat, files@.len());
                }
                return Err(ScanError { index: i, error });
            },
            Ok(ExistsInOldTargetResult::Current) => {},
            Ok(_) => {
                plan.push(i);
            },
        }
        i += 1;
    }
    Ok(plan)
}

/// Once a refusal has occurred, looking at more files does not change it.
proof fn lemma_plan_refusal_stays(view: StoreView, files: Seq<ScannedFile>, n: nat, m: nat)
    requires
        n <= m,
        hashing_plan(view, files, n) is Err,
    ensures
        hashing_plan(view, files, m) == hashing_plan(view, files, n),
    decreases m,
{
    if n < m {
        lemma_plan_refusal_stays(view, files, n, (m - 1) as nat);
    }
}

/// The ledger after one hashed file of the old archive has been indexed.
///
/// An unknown path is recorded. A path recorded with the file's present
/// modification time and size is left alone. A path recorded with other
/// metadata must still have the recorded digest: then the new metadata is
/// recorded, otherwise the content was rewritten and indexing must stop.
pub open spec fn index_file(view: StoreView, hashed: HashedFile) -> Result<StoreView, IndexFault> {
    let file = hashed.file;
    match view.exists_in_old_target(file.path@, file.last_modified, file.size) {
        Err(e) => Err(IndexFault::Store(e)),
        Ok(ExistsInOldTargetResult::Current) => Ok(view),
        Ok(ExistsInOldTargetResult::Stale { digest, .. }) if digest != hashed.digest => Err(
            IndexFault::Rewritten,
        ),
        Ok(_) => match view.mark_exists_in_old_target(
            file.path@,
            file.last_modified,
            file.size,
            hashed.digest,
        ) {
            Ok(after) => Ok(after),
            Err(e) => Err(IndexFault::Store(e)),
        },
    }
}

/// The state of indexing after the first `n` files of a list.
#[verifier::ext_equal]
pub struct Indexing {
    /// The ledger as it stands.
    pub view: StoreView,
    /// Where and why indexing stopped, if it did.
    pub halted: Option<IndexError>,
}

/// Indexes the first `n` files in order and stops at the first fault.
pub open spec fn indexed(view: StoreView, files: Seq<HashedFile>, n: nat) -> Indexing
    decreases n,
{
    if n == 0 {
        Indexing { view, halted: None }
    } else {
        let before = indexed(view, files, (n - 1) as nat);
        if before.halted is Some {
            before
        } else {
            match index_file(before.view, files[n - 1]) {
                Ok(after) => Indexing { view: after, halted: None },
                Err(fault) => Indexing {
                    view: before.view,
                    halted: Some(IndexError { index: (n - 1) as usize, fault }),
                },
            }
        }
    }
}

/// Indexes one hashed file of the old archive. On a fault the ledger is
/// left as it was.
pub fn index_old_file(store: &mut PhotoSyncStore, hashed: &HashedFile) -> (done: Result<
    (),
    IndexFault,
>)
    ensures
        match done {
            Ok(_) => Ok::<StoreView, IndexFault>(final(store)@) == index_file(old(store)@, *hashed),
            Err(fault) => final(store)@ == old(store)@ && Err::<StoreView, IndexFault>(fault)
                == index_file(old(store)@, *hashed),
        },
{
    let file = &hashed.file;
    let found = match store.exists_in_old_target(
        file.path.as_str(),
        file.last_modified,
        file.size,
    ) {
        Ok(found) => found,
        Err(e) => { return Err(IndexFault::Store(e)); },
    };
    match found {
        ExistsInOldTargetResult::Current => { return Ok(()); },
        ExistsInOldTargetResult::Stale { digest, .. } => {
            if digest != hashed.digest {
                return Err(IndexFault::Rewritten);
            }
        },
        ExistsInOldTargetResult::Unknown => {},
    }
    match store.mark_exists_in_old_target(
        file.path.as_str(),
        file.last_modified,
        file.size,
        &hashed.digest,
    ) {
        Ok(_) => Ok(()),
        Err(e) => Err(IndexFault::Store(e)),
    }
}

/// Phase one: brings the ledger's index of the old archive up to date with
/// the hashed files, in order, and stops at the first fault, leaving the
/// ledger as the files before it made it.
pub fn ensure_old_out_dir_properly_indexed(
    store: &mut PhotoSyncStore,
    files: &Vec<HashedFile>,
) -> (done: Result<(), IndexError>)
    ensures
        final(store)@ == indexed(old(store)@, files@, files@.len()).view,
        done == match indexed(old(store)@, files@, files@.len()).halted {
            None => Ok::<(), IndexError>(()),
            Some(e) => Err::<(), IndexError>(e),
        },
{
    let mut i: usize = 0;
    while i < files.len()
        invariant
            i <= files@.len(),
            indexed(old(store)@, files@, i as nat) == (Indexing { view: store@, halted: None }),
        decreases files@.len() - i,
    {
        match index_old_file(store, &files[i]) {
            Ok(_) => {},
            Err(fault) => {
                proof {
                    lemma_indexing_halt_stays(old(store)@, files@, (i + 1) as nat, files@.len());
                }
                return Err(IndexError { index: i, fault });
            },
        }
        i += 1;
    }
    Ok(())
}

/// Once indexing has stopped, the files after the fault change nothing.
proof fn lemma_indexing_halt_stays(view: StoreView, files: Seq<HashedFile>, n: nat, m: nat)
    requires
        n <= m,
        indexed(view, files, n).halted is Some,
    ensures
        indexed(view, files, m) == indexed(view, files, n),
    decreases m,
{
    if n < m {
        lemma_indexing_halt_stays(view, files, n, (m - 1) as nat);
    }
}

/// The text of each path of a list.
pub open spec fn texts(paths: Seq<String>) -> Seq<Seq<char>> {
    paths.map_values(|p: String| p@)
}

/// What phase two hands on: the paths to transfer, and the paths that were
/// transferred before and have changed since, which are left for a human to
/// look at. Both are in the order in which the files were seen.
#[derive(Debug)]
pub struct Detection {
    pub new_files: Vec<String>,
    pub changed: Vec<String>,
}

/// The state of detection after the first `n` files of a list.
#[verifier::ext_equal]
pub struct Detecting {
    /// Paths that the ledger has never seen transferred.
    pub new_files: Seq<Seq<char>>,
    /// Paths that were transferred with other metadata.
    pub changed: Seq<Seq<char>>,
    /// Where and why detection stopped, if it did.
    pub halted: Option<ScanError>,
}

/// Sorts the first `n` files, in order, into those never transferred, those
/// transferred as they are (which are dropped) and those changed since their
/// transfer. Stops at the first file whose metadata the ledger refuses.
pub open spec fn detected(view: StoreView, files: Seq<ScannedFile>, n: nat) -> Detecting
    decreases n,
{
    if n == 0 {
        Detecting { new_files: Seq::empty(), changed: Seq::empty(), halted: None }
    } else {
        let before = detected(view, files, (n - 1) as nat);
        let file = files[n - 1];
        if before.halted is Some {
            before
        } else {
            match view.was_transferred_from_source(file.path@, file.last_modified, file.size) {
                Err(error) => Detecting {
                    halted: Some(ScanError { index: (n - 1) as usize, error }),
                    ..before
                },
                Ok(WasTransferredFromSourceResult::New) => Detecting {
                    new_files: before.new_files.push(file.path@),
                    ..before
                },
                Ok(WasTransferredFromSourceResult::Transferred) => before,
                Ok(WasTransferredFromSourceResult::NewMetadata { .. }) => Detecting {
                    changed: before.changed.push(file.path@),
                    ..before
                },
            }
        }
    }
}

/// Once detection has stopped, the files after the refusal change nothing.
proof fn lemma_detection_halt_stays(view: StoreView, files: Seq<ScannedFile>, n: nat, m: nat)
    requires
        n <= m,
        detected(view, files, n).halted is Some,
    ensures
        detected(view, files, m) == detected(view, files, n),
    decreases m,
{
    if n < m {
        lemma_detection_halt_stays(view, files, n, (m - 1) as nat);
    }
}

/// Phase two: finds the source files that are to be transferred. The ledger
/// is only read.
pub fn detect_new_files(store: &PhotoSyncStore, files: &Vec<ScannedFile>) -> (found: Result<
    Detection,
    ScanError,
>)
    ensures
        match found {
            Ok(d) => detected(store@, files@, files@.len()) == (Detecting {
                new_files: texts(d.new_files@),
                changed: texts(d.changed@),
                halted: None,
            }),
            Err(e) => detected(store@, files@, files@.len()).halted == Some(e),
        },
{
    let mut new_files: Vec<String> = Vec::new();
    let mut changed: Vec<String> = Vec::new();
    let mut i: usize = 0;
    while i < files.len()
        invariant
            i <= files@.len(),
            detected(store@, files@, i as nat) == (Detecting {
                new_files: texts(new_files@),
                changed: texts(changed@),
                halted: None,
            }),
        decreases files@.len() - i,
    {
        let file = &files[i];
        match store.was_transferred_from_source(
            file.path.as_str(),
            file.last_modified,
            file.size,
        ) {
            Err(error) => {
                proof {
                    lemma_detection_halt_stays(store@, files@, (i + 1) as nat, files@.len());
                }
                return Err(ScanError { index: i, error });
            },
            Ok(WasTransferredFromSourceResult::New) => {
                let ghost before = new_files@;
                new_files.push(file.path.clone());
                assert(texts(new_files@) =~= texts(before).push(file.path@));
            },
            Ok(WasTransferredFromSourceResult::Transferred) => {},
            Ok(WasTransferredFromSourceResult::NewMetadata { .. }) => {
                let ghost before = changed@;
                changed.push(file.path.clone());
                assert(texts(changed@) =~= texts(before).push(file.path@));
            },
        }
        i += 1;
    }
    Ok(Detection { new_files, changed })
}

/// How staging one candidate went: the source could not be opened, the copy
/// broke off, or the whole content was copied and has this digest, with the
/// source's modification time and size.
#[derive(Clone, Copy, Debug)]
pub enum Staged {
    FailedToOpen,
    FailedToCopy,
    Copied { digest: Sha256Hash, last_modified: FileTime, size: u64 },
}

/// A path that phase two selected, with the result of staging it.
#[derive(Debug)]
pub struct Candidate {
    pub path: String,
    pub staged: Staged,
}

/// The permission bits that a published file is given: read and write for
/// its owner, read for everybody else.
pub const PUBLISHED_MODE: u32 = 0o644;

/// What becomes of one candidate.
#[derive(Clone, Copy, Debug, PartialEq, Eq, Structural)]
pub enum FileOutcome {
    /// The content is new to the target: the staged copy is to be published
    /// under the candidate's path, where it must not replace a file that is
    /// there already, with `PUBLISHED_MODE`. The transfer is recorded.
    Publish,
    /// The target holds the content already: the staged copy is to be
    /// discarded. The transfer is recorded all the same.
    Discard,
    /// The source could not be opened. Nothing is recorded.
    FailedToOpen,
    /// The source could not be copied in full. Nothing is recorded.
    FailedToCopy,
}

/// Transferring stopped at the candidate with this position in the list,
/// because the ledger refused its metadata.
#[derive(Clone, Copy, Debug, PartialEq, Eq, Structural)]
pub struct TransferError {
    pub index: usize,
    pub error: StoreError,
}

/// The ledger after one candidate, and what becomes of the candidate.
///
/// A candidate that was copied is published unless the target, old archive
/// included, already holds its digest. Either way its transfer is recorded
/// with the digest and the source's metadata. A candidate that could not be
/// staged leaves the ledger alone.
pub open spec fn transfer_file(view: StoreView, candidate: Candidate) -> Result<
    (StoreView, FileOutcome),
    StoreError,
> {
    match candidate.staged {
        Staged::FailedToOpen => Ok((view, FileOutcome::FailedToOpen)),
        Staged::FailedToCopy => Ok((view, FileOutcome::FailedToCopy)),
        Staged::Copied { digest, last_modified, size } => match view.mark_transferred_from_source(
            candidate.path@,
            digest,
            last_modified,
            size,
        ) {
            Err(e) => Err(e),
            Ok(after) => Ok(
                (
                    after,
                    if view.exists_in_target(digest) {
                        FileOutcome::Discard
                    } else {
                        FileOutcome::Publish
                    },
                ),
            ),
        },
    }
}

/// The state of a transfer after the first `n` candidates of a list.
#[verifier::ext_equal]
pub struct Transferring {
    /// The ledger as it stands.
    pub view: StoreView,
    /// What became of each candidate so far.
    pub outcomes: Seq<FileOutcome>,
    /// Where and why the transfer stopped, if it did.
    pub halted: Option<TransferError>,
}

/// Takes the first `n` candidates in order and stops at the first one whose
/// metadata the ledger refuses.
pub open spec fn transferred(view: StoreView, files: Seq<Candidate>, n: nat) -> Transferring
    decreases n,
{
    if n == 0 {
        Transferring { view, outcomes: Seq::empty(), halted: None }
    } else {
        let before = transferred(view, files, (n - 1) as nat);
        if before.halted is Some {
            before
        } else {
            match transfer_file(before.view, files[n - 1]) {
                Ok((after, outcome)) => Transferring {
                    view: after,
                    outcomes: before.outcomes.push(outcome),
                    halted: None,
                },
                Err(error) => Transferring {
                    halted: Some(TransferError { index: (n - 1) as usize, error }),
                    ..before
                },
            }
        }
    }
}

/// Once a transfer has stopped, the candidates after the refusal change
/// nothing.
proof fn lemma_transfer_halt_stays(view: StoreView, files: Seq<Candidate>, n: nat, m: nat)
    requires
        n <= m,
        transferred(view, files, n).halted is Some,
    ensures
        transferred(view, files, m) == transferred(view, files, n),
    decreases m,
{
    if n < m {
        lemma_transfer_halt_stays(view, files, n, (m - 1) as nat);
    }
}

/// Decides what becomes of one candidate and records its transfer. When the
/// ledger refuses the candidate's metadata it is left as it was.
pub fn transfer_new_file(store: &mut PhotoSyncStore, candidate: &Candidate) -> (done: Result<
    FileOutcome,
    StoreError,
>)
    ensures
        match done {
            Ok(outcome) => Ok::<(StoreView, FileOutcome), StoreError>((final(store)@, outcome))
                == transfer_file(old(store)@, *candidate),
            Err(e) => final(store)@ == old(store)@ && Err::<(StoreView, FileOutcome), StoreError>(
                e,
            ) == transfer_file(old(store)@, *candidate),
        },
{
    match candidate.staged {
        Staged::FailedToOpen => Ok(FileOutcome::FailedToOpen),
        Staged::FailedToCopy => Ok(FileOutcome::FailedToCopy),
        Staged::Copied { digest, last_modified, size } => {
            let already_exists = store.exists_in_target(&digest);
            match store.mark_transferred_from_source(
                candidate.path.as_str(),
                &digest,
                last_modified,
                size,
            ) {
                Err(e) => Err(e),
                Ok(_) => Ok(
                    if already_exists {
                        FileOutcome::Discard
                    } else {
                        FileOutcome::Publish
                    },
                ),
            }
        },
    }
}

/// Phase three: decides, candidate by candidate and in order, which staged
/// copies are published and which are discarded as duplicates, and records
/// every transfer. Stops at the first candidate that the ledger refuses,
/// leaving the ledger as the candidates before it made it.
pub fn transfer_new_files(store: &mut PhotoSyncStore, files: &Vec<Candidate>) -> (done: Result<
    Vec<FileOutcome>,
    TransferError,
>)
    ensures
        final(store)@ == transferred(old(store)@, files@, files@.len()).view,
        match done {
            Ok(outcomes) => transferred(old(store)@, files@, files@.len()).halted is None
                && outcomes@ == transferred(old(store)@, files@, files@.len()).outcomes,
            Err(e) => transferred(old(store)@, files@, files@.len()).halted == Some(e),
        },
{
    let mut outcomes: Vec<FileOutcome> = Vec::new();
    let mut i: usize = 0;
    while i < files.len()
        invariant
            i <= files@.len(),
            transferred(old(store)@, files@, i as nat) == (Transferring {
                view: store@,
                outcomes: outcomes@,
                halted: None,
            }),
        decreases files@.len() - i,
    {
        match transfer_new_file(store, &files[i]) {
            Ok(outcome) => {
                outcomes.push(outcome);
            },
            Err(error) => {
                proof {
                    lemma_transfer_halt_stays(old(store)@, files@, (i + 1) as nat, files@.len());
                }
                return Err(TransferError { index: i, error });
            },
        }
        i += 1;
    }
    Ok(outcomes)
}

/// The paths of the candidates that could not be staged, in order.
pub open spec fn failed_paths(files: Seq<Candidate>, n: nat) -> Seq<Seq<char>>
    decreases n,
{
    if n == 0 {
        Seq::empty()
    } else {
        let before = failed_paths(files, (n - 1) as nat);
        match files[n - 1].staged {
            Staged::Copied { .. } => before,
            _ => before.push(files[n - 1].path@),
        }
    }
}

/// The end-of-phase report: the paths that could not be transferred, in the
/// order in which the candidates were given.
pub fn could_not_transfer(files: &Vec<Candidate>) -> (failed: Vec<String>)
    ensures
        texts(failed@) == failed_paths(files@, files@.len()),
{
    let mut failed: Vec<String> = Vec::new();
    let mut i: usize = 0;
    while i < files.len()
        invariant
            i <= files@.len(),
            texts(failed@) == failed_paths(files@, i as nat),
        decreases files@.len() - i,
    {
        match files[i].staged {
            Staged::Copied { .. } => {},
            _ => {
                let ghost before = failed@;
                failed.push(files[i].path.clone());
                assert(texts(failed@) =~= texts(before).push(files@[i as int].path@));
            },
        }
        i += 1;
    }
    failed
}

/// How much a transfer has moved: the bytes of all candidates that were
/// copied, and the bytes of those among them that are published, which
/// leaves the duplicates out. Both counts wrap around at 2^64.
#[derive(Clone, Copy, Debug, PartialEq, Eq, Structural)]
pub struct TransferVolume {
    pub bytes_considered: u64,
    pub bytes_stored: u64,
}

/// The sum of a count and a size, wrapped around at 2^64.
pub open spec fn wrapped_sum(count: u64, size: u64) -> u64 {
    ((count + size) % 0x1_0000_0000_0000_0000) as u64
}

/// The bytes of a candidate that was copied; none for one that was not.
pub open spec fn copied_bytes(candidate: Candidate) -> u64 {
    match candidate.staged {
        Staged::Copied { size, .. } => size,
        _ => 0,
    }
}

/// The volume of the first `n` candidates with their outcomes.
pub open spec fn tallied(files: Seq<Candidate>, outcomes: Seq<FileOutcome>, n: nat) -> TransferVolume
    decreases n,
{
    if n == 0 {
        TransferVolume { bytes_considered: 0, bytes_stored: 0 }
    } else {
        let before = tallied(files, outcomes, (n - 1) as nat);
        let size = copied_bytes(files[n - 1]);
        TransferVolume {
            bytes_considered: wrapped_sum(before.bytes_considered, size),
            bytes_stored: if outcomes[n - 1] == FileOutcome::Publish {
                wrapped_sum(before.bytes_stored, size)
            } else {
                before.bytes_stored
            },
        }
    }
}

fn add_wrapping(count: u64, size: u64) -> (sum: u64)
    ensures
        sum == wrapped_sum(count, size),
{
    if size <= u64::MAX - count {
        count + size
    } else {
        size - (u64::MAX - count) - 1
    }
}

/// The volume of a transfer, for the progress line: over the candidates that
/// have an outcome.
pub fn transfer_volume(files: &Vec<Candidate>, outcomes: &Vec<FileOutcome>) -> (volume:
    TransferVolume)
    ensures
        volume == tallied(
            files@,
            outcomes@,
            if files@.len() <= outcomes@.len() {
                files@.len()
            } else {
                outcomes@.len()
            },
        ),
{
    let n: usize = if files.len() <= outcomes.len() {
        files.len()
    } else {
        outcomes.len()
    };
    let mut volume = TransferVolume { bytes_considered: 0, bytes_stored: 0 };
    let mut i: usize = 0;
    while i < n
        invariant
            i <= n,
            n <= files@.len(),
            n <= outcomes@.len(),
            volume == tallied(files@, outcomes@, i as nat),
        decreases n - i,
    {
        let size: u64 = match files[i].staged {
            Staged::Copied { size, .. } => size,
            _ => 0,
        };
        volume.bytes_considered = add_wrapping(volume.bytes_considered, size);
        if outcomes[i] == FileOutcome::Publish {
            volume.bytes_stored = add_wrapping(volume.bytes_stored, size);
        }
        i += 1;
    }
    volume
}

} // verus!
