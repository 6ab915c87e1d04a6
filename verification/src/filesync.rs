//! Deciding what to do for one file from what is known of its two copies.
//!
//! Each copy of a file, the plaintext one and the encrypted one, is either
//! missing or present with a modification time. Comparing what was recorded
//! at the last run with what is found now gives a change for each side, and
//! the two changes together give the action to take.

use vstd::prelude::*;
use crate::tree::Mtime;

verus! {

/// Whether a file exists, and when it was last changed.
#[derive(Clone, Copy, Debug, PartialEq, Eq, Structural)]
pub enum FileStatus {
    Nonexistent,
    Existent(Mtime),
}

/// What happened to a file between two looks at it.
#[derive(Clone, Copy, Debug, PartialEq, Eq, Structural)]
pub enum FileChange {
    /// Nothing changed; the file is in the given state.
    NoChange(FileStatus),
    /// The file appeared.
    Add,
    /// The file is still there, with another modification time.
    Mod,
    /// The file is gone.
    Del,
}

/// What to do for a file.
#[derive(Clone, Copy, Debug, PartialEq, Eq, Structural)]
pub enum SyncAction {
    /// Nothing.
    Nothing,
    /// Both copies changed: compare them, and report a conflict where they
    /// differ.
    PossibleConflict,
    /// Encrypt the plaintext copy over the encrypted one.
    PushPlain,
    /// Delete the plaintext copy.
    DeletePlain,
    /// Decrypt the encrypted copy over the plaintext one.
    PushGpg,
    /// Delete the encrypted copy.
    DeleteGpg,
}

/// The change that leads from the state `prev` to the state `cur`. Two
/// modification times are compared for equality only.
pub open spec fn file_change(prev: FileStatus, cur: FileStatus) -> FileChange {
    match (prev, cur) {
        (FileStatus::Nonexistent, FileStatus::Nonexistent) => FileChange::NoChange(FileStatus::Nonexistent),
        (FileStatus::Nonexistent, FileStatus::Existent(_)) => FileChange::Add,
        (FileStatus::Existent(_), FileStatus::Nonexistent) => FileChange::Del,
        (FileStatus::Existent(t1), FileStatus::Existent(t2)) => if t1 != t2 {
            FileChange::Mod
        } else {
            FileChange::NoChange(FileStatus::Existent(t1))
        },
    }
}

/// The action for the change `plain` of the plaintext copy and the change
/// `gpg` of the encrypted copy.
///
/// Where neither side changed, or the file is gone or missing on both sides,
/// there is nothing to do. A change on one side only is carried to the other
/// side, but a file that appears where the other side holds one already may be a
/// conflict. Where both sides added or modified the file there may be a
/// conflict. A file that is deleted on one side and added or modified on the
/// other is pushed from the side that has it, except that a deletion of the
/// plaintext copy next to a modification of the encrypted one pushes the
/// plaintext copy.
pub open spec fn sync_action(plain: FileChange, gpg: FileChange) -> SyncAction {
    match (plain, gpg) {
        (FileChange::NoChange(_), FileChange::NoChange(_)) => SyncAction::Nothing,
        (FileChange::NoChange(FileStatus::Nonexistent), FileChange::Add) => SyncAction::PushGpg,
        (FileChange::NoChange(FileStatus::Nonexistent), FileChange::Mod) => SyncAction::PushGpg,
        (FileChange::NoChange(FileStatus::Nonexistent), FileChange::Del) => SyncAction::Nothing,
        (FileChange::NoChange(FileStatus::Existent(_)), FileChange::Add) => SyncAction::PossibleConflict,
        (FileChange::NoChange(FileStatus::Existent(_)), FileChange::Mod) => SyncAction::PushGpg,
        (FileChange::NoChange(FileStatus::Existent(_)), FileChange::Del) => SyncAction::DeletePlain,
        (FileChange::Add, FileChange::NoChange(FileStatus::Nonexistent)) => SyncAction::PushPlain,
        (FileChange::Add, FileChange::NoChange(FileStatus::Existent(_))) => SyncAction::PossibleConflict,
        (FileChange::Add, FileChange::Add) => SyncAction::PossibleConflict,
        (FileChange::Add, FileChange::Mod) => SyncAction::PossibleConflict,
        (FileChange::Add, FileChange::Del) => SyncAction::PushPlain,
        (FileChange::Mod, FileChange::NoChange(_)) => SyncAction::PushPlain,
        (FileChange::Mod, FileChange::Add) => SyncAction::PossibleConflict,
        (FileChange::Mod, FileChange::Mod) => SyncAction::PossibleConflict,
        (FileChange::Mod, FileChange::Del) => SyncAction::PushPlain,
        (FileChange::Del, FileChange::NoChange(FileStatus::Nonexistent)) => SyncAction::Nothing,
        (FileChange::Del, FileChange::NoChange(FileStatus::Existent(_))) => SyncAction::DeleteGpg,
        (FileChange::Del, FileChange::Add) => SyncAction::PushGpg,
        (FileChange::Del, FileChange::Mod) => SyncAction::PushPlain,
        (FileChange::Del, FileChange::Del) => SyncAction::Nothing,
    }
}

/// The change that leads from the state `prev` to the state `cur`.
pub fn determine_file_change(prev: FileStatus, cur: FileStatus) -> (r: FileChange)
    ensures
        r == file_change(prev, cur),
{
    match (prev, cur) {
        (FileStatus::Nonexistent, FileStatus::Nonexistent) => FileChange::NoChange(FileStatus::Nonexistent),
        (FileStatus::Nonexistent, FileStatus::Existent(_)) => FileChange::Add,
        (FileStatus::Existent(_), FileStatus::Nonexistent) => FileChange::Del,
        (FileStatus::Existent(t1), FileStatus::Existent(t2)) => {
            if t1.secs != t2.secs || t1.nanos != t2.nanos {
                FileChange::Mod
            } else {
                FileChange::NoChange(FileStatus::Existent(t1))
            }
        },
    }
}

/// The action for the change `plain` of the plaintext copy and the change
/// `gpg` of the encrypted copy.
pub fn determine_sync_action(plain: FileChange, gpg: FileChange) -> (r: SyncAction)
    ensures
        r == sync_action(plain, gpg),
{
    match gpg {
        FileChange::NoChange(gpg_status) => match plain {
            FileChange::NoChange(_) => SyncAction::Nothing,
            FileChange::Add => match gpg_status {
                FileStatus::Nonexistent => SyncAction::PushPlain,
                FileStatus::Existent(_) => SyncAction::PossibleConflict,
            },
            FileChange::Mod => SyncAction::PushPlain,
            FileChange::Del => match gpg_status {
                FileStatus::Nonexistent => SyncAction::Nothing,
                FileStatus::Existent(_) => SyncAction::DeleteGpg,
            },
        },
        FileChange::Add => match plain {
            FileChange::NoChange(FileStatus::Nonexistent) => SyncAction::PushGpg,
            FileChange::Del => SyncAction::PushGpg,
            _ => SyncAction::PossibleConflict,
        },
        FileChange::Mod => match plain {
            FileChange::NoChange(_) => SyncAction::PushGpg,
            FileChange::Del => SyncAction::PushPlain,
            _ => SyncAction::PossibleConflict,
        },
        FileChange::Del => match plain {
            FileChange::NoChange(FileStatus::Nonexistent) => SyncAction::Nothing,
            FileChange::NoChange(FileStatus::Existent(_)) => SyncAction::DeletePlain,
            FileChange::Del => SyncAction::Nothing,
            _ => SyncAction::PushPlain,
        },
    }
}

/// Where neither side changed there is nothing to do.
pub proof fn lemma_no_change_no_action(plain: FileStatus, gpg: FileStatus)
    ensures
        sync_action(file_change(plain, plain), file_change(gpg, gpg)) == SyncAction::Nothing,
{
}

} // verus!
