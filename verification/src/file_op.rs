//! The operations that bring the two directory trees back in step.

use vstd::prelude::*;
use crate::path::{PathView, SyncPath};

verus! {

/// The side that a tree mirrors.
#[derive(Clone, Copy, Debug, PartialEq, Eq, Structural)]
pub enum TreeType {
    /// The directory of encrypted files.
    Encrypted,
    /// The directory of plaintext files.
    Plain,
}

/// One change to the filesystem. Every path is relative: to the root of the
/// encrypted directory in the `Enc` operations, to the root of the plaintext
/// directory in the `Plain` operations.
#[derive(Debug, PartialEq, Eq)]
pub enum FileOperation {
    /// Delete the file or directory in the encrypted directory.
    DeleteEnc(SyncPath),
    /// Delete the file or directory in the plaintext directory.
    DeletePlain(SyncPath),
    /// Encrypt the plaintext file or directory into the encrypted directory.
    EncryptPlain(SyncPath),
    /// Decrypt the encrypted file or directory into the plaintext directory.
    DecryptEnc(SyncPath),
    /// Copy a file or directory within the encrypted directory, from the
    /// first path to the second.
    ConflictCopyEnc(SyncPath, SyncPath),
    /// Copy a file or directory within the plaintext directory, from the
    /// first path to the second.
    ConflictCopyPlain(SyncPath, SyncPath),
}

/// The mathematical value of a [`FileOperation`].
pub ghost enum FileOpView {
    DeleteEnc(PathView),
    DeletePlain(PathView),
    EncryptPlain(PathView),
    DecryptEnc(PathView),
    ConflictCopyEnc(PathView, PathView),
    ConflictCopyPlain(PathView, PathView),
}

impl View for FileOperation {
    type V = FileOpView;

    open spec fn view(&self) -> FileOpView {
        match self {
            FileOperation::DeleteEnc(p) => FileOpView::DeleteEnc(p@),
            FileOperation::DeletePlain(p) => FileOpView::DeletePlain(p@),
            FileOperation::EncryptPlain(p) => FileOpView::EncryptPlain(p@),
            FileOperation::DecryptEnc(p) => FileOpView::DecryptEnc(p@),
            FileOperation::ConflictCopyEnc(p, q) => FileOpView::ConflictCopyEnc(p@, q@),
            FileOperation::ConflictCopyPlain(p, q) => FileOpView::ConflictCopyPlain(p@, q@),
        }
    }
}

impl FileOpView {
    /// Every path of the operation is relative.
    pub open spec fn is_relative(self) -> bool {
        match self {
            FileOpView::DeleteEnc(p) => !p.absolute,
            FileOpView::DeletePlain(p) => !p.absolute,
            FileOpView::EncryptPlain(p) => !p.absolute,
            FileOpView::DecryptEnc(p) => !p.absolute,
            FileOpView::ConflictCopyEnc(p, q) => !p.absolute && !q.absolute,
            FileOpView::ConflictCopyPlain(p, q) => !p.absolute && !q.absolute,
        }
    }
}

impl FileOpView {
    /// The side and the path at which the operation finds what it works on.
    pub open spec fn source(self) -> (TreeType, PathView) {
        match self {
            FileOpView::DeleteEnc(p) => (TreeType::Encrypted, p),
            FileOpView::DeletePlain(p) => (TreeType::Plain, p),
            FileOpView::EncryptPlain(p) => (TreeType::Plain, p),
            FileOpView::DecryptEnc(p) => (TreeType::Encrypted, p),
            FileOpView::ConflictCopyEnc(p, _) => (TreeType::Encrypted, p),
            FileOpView::ConflictCopyPlain(p, _) => (TreeType::Plain, p),
        }
    }
}

/// The values of a list of operations, in the same order.
pub open spec fn ops_view(ops: Seq<FileOperation>) -> Seq<FileOpView> {
    Seq::new(ops.len(), |i: int| ops[i]@)
}

/// Every operation of the list has relative paths only.
pub open spec fn all_relative(ops: Seq<FileOpView>) -> bool {
    forall|i: int| 0 <= i < ops.len() ==> (#[trigger] ops[i]).is_relative()
}

impl FileOperation {
    /// Whether every path of the operation is relative.
    pub fn is_relative(&self) -> (r: bool)
        ensures
            r == self@.is_relative(),
    {
        match self {
            FileOperation::DeleteEnc(p) => p.is_relative(),
            FileOperation::DeletePlain(p) => p.is_relative(),
            FileOperation::EncryptPlain(p) => p.is_relative(),
            FileOperation::DecryptEnc(p) => p.is_relative(),
            FileOperation::ConflictCopyEnc(p, q) => p.is_relative() && q.is_relative(),
            FileOperation::ConflictCopyPlain(p, q) => p.is_relative() && q.is_relative(),
        }
    }

    /// The side and the path at which the operation finds what it works on.
    pub fn source(&self) -> (r: (TreeType, &SyncPath))
        ensures
            (r.0, r.1@) == self@.source(),
    {
        match self {
            FileOperation::DeleteEnc(p) => (TreeType::Encrypted, p),
            FileOperation::DeletePlain(p) => (TreeType::Plain, p),
            FileOperation::EncryptPlain(p) => (TreeType::Plain, p),
            FileOperation::DecryptEnc(p) => (TreeType::Encrypted, p),
            FileOperation::ConflictCopyEnc(p, _) => (TreeType::Encrypted, p),
            FileOperation::ConflictCopyPlain(p, _) => (TreeType::Plain, p),
        }
    }

    /// A copy of the operation.
    pub fn clone_op(&self) -> (r: FileOperation)
        ensures
            r@ == self@,
    {
        match self {
            FileOperation::DeleteEnc(p) => FileOperation::DeleteEnc(p.clone_path()),
            FileOperation::DeletePlain(p) => FileOperation::DeletePlain(p.clone_path()),
            FileOperation::EncryptPlain(p) => FileOperation::EncryptPlain(p.clone_path()),
            FileOperation::DecryptEnc(p) => FileOperation::DecryptEnc(p.clone_path()),
            FileOperation::ConflictCopyEnc(p, q) => FileOperation::ConflictCopyEnc(
                p.clone_path(),
                q.clone_path(),
            ),
            FileOperation::ConflictCopyPlain(p, q) => FileOperation::ConflictCopyPlain(
                p.clone_path(),
                q.clone_path(),
            ),
        }
    }
}

impl Clone for FileOperation {
    fn clone(&self) -> (r: FileOperation)
        ensures
            r@ == self@,
    {
        self.clone_op()
    }
}

} // verus!
