//! Turning file operations into steps on the filesystem.
//!
//! A [`FileOperation`] names what is to be done to a file or to a whole
//! directory. What it comes to on disk depends on what stands at its source:
//! the caller looks, hands the answer over as a [`Source`], and gets back the
//! single steps to take, each on one file or one directory.

use vstd::prelude::*;
use crate::file_op::{FileOpView, FileOperation, TreeType};
use crate::path::{add_gpg_suffix, ends_with_gpg, has_gpg_suffix, remove_gpg_suffix, PathView, SyncPath};
use crate::path_aggregator::paths_view;

verus! {

/// What stands on disk at the source of an operation.
#[derive(Debug, PartialEq, Eq)]
pub enum Source {
    /// A regular file.
    File,
    /// A directory. The paths are those of the regular files below it, at
    /// any depth, relative to the directory.
    Dir(Vec<SyncPath>),
}

/// The mathematical value of a [`Source`].
pub ghost enum SourceView {
    File,
    Dir(Seq<PathView>),
}

impl View for Source {
    type V = SourceView;

    open spec fn view(&self) -> SourceView {
        match self {
            Source::File => SourceView::File,
            Source::Dir(files) => SourceView::Dir(paths_view(files@)),
        }
    }
}

/// One step on the filesystem. Every path is relative to the root of the
/// side that the step names or implies. Where a step creates a file, the
/// directories above the file are created with it.
#[derive(Debug, PartialEq, Eq)]
pub enum FsAction {
    /// Remove the file at the path on the given side.
    RemoveFile(TreeType, SyncPath),
    /// Remove the directory at the path on the given side, with all that is
    /// in it.
    RemoveDirAll(TreeType, SyncPath),
    /// Create the directory at the path on the given side, with all
    /// directories above it.
    CreateDirAll(TreeType, SyncPath),
    /// Encrypt the plaintext file at the first path to the second path of
    /// the encrypted side.
    Encrypt(SyncPath, SyncPath),
    /// Decrypt the encrypted file at the first path to the second path of
    /// the plaintext side.
    Decrypt(SyncPath, SyncPath),
    /// Copy the file at the first path to the second path, both on the given
    /// side.
    Copy(TreeType, SyncPath, SyncPath),
}

/// The mathematical value of an [`FsAction`].
pub ghost enum FsActionView {
    RemoveFile(TreeType, PathView),
    RemoveDirAll(TreeType, PathView),
    CreateDirAll(TreeType, PathView),
    Encrypt(PathView, PathView),
    Decrypt(PathView, PathView),
    Copy(TreeType, PathView, PathView),
}

impl View for FsAction {
    type V = FsActionView;

    open spec fn view(&self) -> FsActionView {
        match self {
            FsAction::RemoveFile(side, p) => FsActionView::RemoveFile(*side, p@),
            FsAction::RemoveDirAll(side, p) => FsActionView::RemoveDirAll(*side, p@),
            FsAction::CreateDirAll(side, p) => FsActionView::CreateDirAll(*side, p@),
            FsAction::Encrypt(p, q) => FsActionView::Encrypt(p@, q@),
            FsAction::Decrypt(p, q) => FsActionView::Decrypt(p@, q@),
            FsAction::Copy(side, p, q) => FsActionView::Copy(*side, p@, q@),
        }
    }
}

impl FsActionView {
    /// Every path of the step is relative.
    pub open spec fn is_relative(self) -> bool {
        match self {
            FsActionView::RemoveFile(_, p) => !p.absolute,
            FsActionView::RemoveDirAll(_, p) => !p.absolute,
            FsActionView::CreateDirAll(_, p) => !p.absolute,
            FsActionView::Encrypt(p, q) => !p.absolute && !q.absolute,
            FsActionView::Decrypt(p, q) => !p.absolute && !q.absolute,
            FsActionView::Copy(_, p, q) => !p.absolute && !q.absolute,
        }
    }
}

/// The values of a list of steps, in the same order.
pub open spec fn actions_view(actions: Seq<FsAction>) -> Seq<FsActionView> {
    Seq::new(actions.len(), |i: int| actions[i]@)
}

/// The step that removes what stands at `p` on `side`.
pub open spec fn removal_of(side: TreeType, p: PathView, source: SourceView) -> Seq<FsActionView> {
    match source {
        SourceView::File => seq![FsActionView::RemoveFile(side, p)],
        SourceView::Dir(_) => seq![FsActionView::RemoveDirAll(side, p)],
    }
}

/// The steps that encrypt the files `files` of the directory at `p`, each to
/// the same place on the encrypted side, with `.gpg` added to its name.
pub open spec fn encrypt_each(p: PathView, files: Seq<PathView>) -> Seq<FsActionView>
    decreases files.len(),
{
    if files.len() == 0 {
        Seq::empty()
    } else {
        encrypt_each(p, files.drop_last()).push(
            FsActionView::Encrypt(p.join(files.last()), p.join(files.last()).with_gpg_suffix()),
        )
    }
}

/// The steps that decrypt those of the files `files` of the directory at `p`
/// whose names end in `.gpg`, each to the same place on the plaintext side,
/// without the `.gpg`.
pub open spec fn decrypt_each(p: PathView, files: Seq<PathView>) -> Seq<FsActionView>
    decreases files.len(),
{
    if files.len() == 0 {
        Seq::empty()
    } else if ends_with_gpg(files.last().segments.last()) {
        decrypt_each(p, files.drop_last()).push(
            FsActionView::Decrypt(p.join(files.last()), p.join(files.last()).without_gpg_suffix()),
        )
    } else {
        decrypt_each(p, files.drop_last())
    }
}

/// The steps that copy the files `files` of the directory at `p` to the same
/// places below `q`.
pub open spec fn copy_each(side: TreeType, p: PathView, q: PathView, files: Seq<PathView>) -> Seq<
    FsActionView,
>
    decreases files.len(),
{
    if files.len() == 0 {
        Seq::empty()
    } else {
        copy_each(side, p, q, files.drop_last()).push(
            FsActionView::Copy(side, p.join(files.last()), q.join(files.last())),
        )
    }
}

/// The steps that copy what stands at `p` to `q` on `side`.
pub open spec fn copy_of(side: TreeType, p: PathView, q: PathView, source: SourceView) -> Seq<FsActionView> {
    match source {
        SourceView::File => seq![FsActionView::Copy(side, p, q)],
        SourceView::Dir(files) => copy_each(side, p, q, files),
    }
}

/// The steps that carry out `op`, where `source` is what stands at the
/// source of `op`.
///
/// A file is removed, encrypted, decrypted or copied as it is. A directory
/// is removed with all that is in it. To encrypt or decrypt an empty
/// directory is to create it on the other side; for any other directory each
/// file below it is encrypted or decrypted. To copy a directory is to copy
/// each file below it.
pub open spec fn plan(op: FileOpView, source: SourceView) -> Seq<FsActionView> {
    match op {
        FileOpView::DeleteEnc(p) => removal_of(TreeType::Encrypted, p, source),
        FileOpView::DeletePlain(p) => removal_of(TreeType::Plain, p, source),
        FileOpView::EncryptPlain(p) => match source {
            SourceView::File => seq![FsActionView::Encrypt(p, p.with_gpg_suffix())],
            SourceView::Dir(files) => if files.len() == 0 {
                seq![FsActionView::CreateDirAll(TreeType::Encrypted, p)]
            } else {
                encrypt_each(p, files)
            },
        },
        FileOpView::DecryptEnc(p) => match source {
            SourceView::File => seq![FsActionView::Decrypt(p, p.without_gpg_suffix())],
            SourceView::Dir(files) => if files.len() == 0 {
                seq![FsActionView::CreateDirAll(TreeType::Plain, p)]
            } else {
                decrypt_each(p, files)
            },
        },
        FileOpView::ConflictCopyEnc(p, q) => copy_of(TreeType::Encrypted, p, q, source),
        FileOpView::ConflictCopyPlain(p, q) => copy_of(TreeType::Plain, p, q, source),
    }
}

/// The files below a directory are given by relative paths that are not
/// empty.
pub open spec fn files_below(files: Seq<PathView>) -> bool {
    forall|i: int| 0 <= i < files.len() ==> !(#[trigger] files[i]).absolute && files[i].segments.len() > 0
}

/// `op` can be planned for `source`: its paths are relative, the files below
/// a directory are given by relative paths, and a file that is encrypted or
/// decrypted has a name, which for decryption ends in `.gpg`.
pub open spec fn plannable(op: FileOpView, source: SourceView) -> bool {
    &&& op.is_relative()
    &&& source matches SourceView::Dir(files) ==> files_below(files)
    &&& source is File ==> match op {
        FileOpView::EncryptPlain(p) => p.segments.len() > 0,
        FileOpView::DecryptEnc(p) => p.segments.len() > 0 && ends_with_gpg(p.segments.last()),
        _ => true,
    }
}

/// Every step of the list has relative paths only.
pub open spec fn all_steps_relative(actions: Seq<FsActionView>) -> bool {
    forall|i: int| 0 <= i < actions.len() ==> (#[trigger] actions[i]).is_relative()
}

/// A list of steps grows by one.
proof fn lemma_actions_push(actions: Seq<FsAction>, a: FsAction)
    ensures
        actions_view(actions.push(a)) == actions_view(actions).push(a@),
{
    assert(actions_view(actions.push(a)) =~= actions_view(actions).push(a@));
}

/// Whether the files below a directory are given by relative paths that are
/// not empty.
fn check_files(files: &Vec<SyncPath>) -> (r: bool)
    ensures
        r == files_below(paths_view(files@)),
{
    let mut i: usize = 0;
    while i < files.len()
        invariant
            i <= files@.len(),
            forall|k: int|
                0 <= k < i ==> !(#[trigger] paths_view(files@)[k]).absolute && paths_view(
                    files@,
                )[k].segments.len() > 0,
        decreases files@.len() - i,
    {
        if !files[i].is_relative() || files[i].len() == 0 {
            assert(paths_view(files@)[i as int] == files@[i as int]@);
            return false;
        }
        i += 1;
    }
    true
}

/// Whether `op` can be planned for `source`.
pub fn can_plan(op: &FileOperation, source: &Source) -> (r: bool)
    ensures
        r == plannable(op@, source@),
{
    if !op.is_relative() {
        return false;
    }
    match source {
        Source::Dir(files) => check_files(files),
        Source::File => match op {
            FileOperation::EncryptPlain(p) => p.len() > 0,
            FileOperation::DecryptEnc(p) => match p.file_name() {
                Some(name) => has_gpg_suffix(name.as_slice()),
                None => false,
            },
            _ => true,
        },
    }
}

/// The steps that carry out `op`, where `source` is what stands at the
/// source of `op`. Every path in them is relative.
pub fn plan_file_op(op: &FileOperation, source: &Source) -> (r: Vec<FsAction>)
    requires
        plannable(op@, source@),
    ensures
        actions_view(r@) == plan(op@, source@),
        all_steps_relative(actions_view(r@)),
{
    let mut out: Vec<FsAction> = Vec::new();
    proof {
        assert(actions_view(out@) =~= Seq::<FsActionView>::empty());
    }
    match op {
        FileOperation::DeleteEnc(p) => {
            let a = match source {
                Source::File => FsAction::RemoveFile(TreeType::Encrypted, p.clone_path()),
                Source::Dir(_) => FsAction::RemoveDirAll(TreeType::Encrypted, p.clone_path()),
            };
            proof {
                lemma_actions_push(out@, a);
            }
            out.push(a);
            assert(actions_view(out@) =~= plan(op@, source@));
        },
        FileOperation::DeletePlain(p) => {
            let a = match source {
                Source::File => FsAction::RemoveFile(TreeType::Plain, p.clone_path()),
                Source::Dir(_) => FsAction::RemoveDirAll(TreeType::Plain, p.clone_path()),
            };
            proof {
                lemma_actions_push(out@, a);
            }
            out.push(a);
            assert(actions_view(out@) =~= plan(op@, source@));
        },
        FileOperation::EncryptPlain(p) => match source {
            Source::File => {
                let a = FsAction::Encrypt(p.clone_path(), add_gpg_suffix(p));
                proof {
                    lemma_actions_push(out@, a);
                }
                out.push(a);
                assert(actions_view(out@) =~= plan(op@, source@));
            },
            Source::Dir(files) => {
                if files.len() == 0 {
                    let a = FsAction::CreateDirAll(TreeType::Encrypted, p.clone_path());
                    proof {
                        lemma_actions_push(out@, a);
                    }
                    out.push(a);
                    assert(actions_view(out@) =~= plan(op@, source@));
                } else {
                    let ghost fv = paths_view(files@);
                    let mut i: usize = 0;
                    proof {
                        assert(fv.take(0) =~= Seq::<PathView>::empty());
                    }
                    while i < files.len()
                        invariant
                            i <= files@.len(),
                            fv == paths_view(files@),
                            files_below(fv),
                            !p@.absolute,
                            actions_view(out@) == encrypt_each(p@, fv.take(i as int)),
                            all_steps_relative(actions_view(out@)),
                        decreases files@.len() - i,
                    {
                        let from = p.join(&files[i]);
                        proof {
                            assert(fv[i as int] == files@[i as int]@);
                            assert(fv.take(i + 1).drop_last() =~= fv.take(i as int));
                            assert(fv.take(i + 1).last() == fv[i as int]);
                        }
                        let to = add_gpg_suffix(&from);
                        let a = FsAction::Encrypt(from, to);
                        proof {
                            lemma_actions_push(out@, a);
                        }
                        out.push(a);
                        i += 1;
                    }
                    proof {
                        assert(fv.take(fv.len() as int) =~= fv);
                    }
                }
            },
        },
        FileOperation::DecryptEnc(p) => match source {
            Source::File => {
                let a = FsAction::Decrypt(p.clone_path(), remove_gpg_suffix(p));
                proof {
                    lemma_actions_push(out@, a);
                }
                out.push(a);
                assert(actions_view(out@) =~= plan(op@, source@));
            },
            Source::Dir(files) => {
                if files.len() == 0 {
                    let a = FsAction::CreateDirAll(TreeType::Plain, p.clone_path());
                    proof {
                        lemma_actions_push(out@, a);
                    }
                    out.push(a);
                    assert(actions_view(out@) =~= plan(op@, source@));
                } else {
                    let ghost fv = paths_view(files@);
                    let mut i: usize = 0;
                    proof {
                        assert(fv.take(0) =~= Seq::<PathView>::empty());
                    }
                    while i < files.len()
                        invariant
                            i <= files@.len(),
                            fv == paths_view(files@),
                            files_below(fv),
                            !p@.absolute,
                            actions_view(out@) == decrypt_each(p@, fv.take(i as int)),
                            all_steps_relative(actions_view(out@)),
                        decreases files@.len() - i,
                    {
                        proof {
                            assert(fv[i as int] == files@[i as int]@);
                            assert(fv.take(i + 1).drop_last() =~= fv.take(i as int));
                            assert(fv.take(i + 1).last() == fv[i as int]);
                        }
                        let named = match files[i].file_name() {
                            Some(name) => has_gpg_suffix(name.as_slice()),
                            None => false,
                        };
                        if named {
                            let from = p.join(&files[i]);
                            proof {
                                assert(from@.segments.last() == fv[i as int].segments.last());
                            }
                            let to = remove_gpg_suffix(&from);
                            let a = FsAction::Decrypt(from, to);
                            proof {
                                lemma_actions_push(out@, a);
                            }
                            out.push(a);
                        }
                        i += 1;
                    }
                    proof {
                        assert(fv.take(fv.len() as int) =~= fv);
                    }
                }
            },
        },
        FileOperation::ConflictCopyEnc(p, q) => {
            copy_steps(TreeType::Encrypted, p, q, source, &mut out);
        },
        FileOperation::ConflictCopyPlain(p, q) => {
            copy_steps(TreeType::Plain, p, q, source, &mut out);
        },
    }
    out
}

/// Appends the steps that copy what stands at `p` to `q` on `side`.
fn copy_steps(side: TreeType, p: &SyncPath, q: &SyncPath, source: &Source, out: &mut Vec<FsAction>)
    requires
        old(out)@.len() == 0,
        !p@.absolute,
        !q@.absolute,
        source@ matches SourceView::Dir(files) ==> files_below(files),
    ensures
        actions_view(final(out)@) == copy_of(side, p@, q@, source@),
        all_steps_relative(actions_view(final(out)@)),
{
    proof {
        assert(actions_view(out@) =~= Seq::<FsActionView>::empty());
    }
    match source {
        Source::File => {
            let a = FsAction::Copy(side, p.clone_path(), q.clone_path());
            proof {
                lemma_actions_push(out@, a);
            }
            out.push(a);
            assert(actions_view(out@) =~= copy_of(side, p@, q@, source@));
        },
        Source::Dir(files) => {
            let ghost fv = paths_view(files@);
            let mut i: usize = 0;
            proof {
                assert(fv.take(0) =~= Seq::<PathView>::empty());
            }
            while i < files.len()
                invariant
                    i <= files@.len(),
                    fv == paths_view(files@),
                    files_below(fv),
                    !p@.absolute,
                    !q@.absolute,
                    actions_view(out@) == copy_each(side, p@, q@, fv.take(i as int)),
                    all_steps_relative(actions_view(out@)),
                decreases files@.len() - i,
            {
                proof {
                    assert(fv[i as int] == files@[i as int]@);
                    assert(fv.take(i + 1).drop_last() =~= fv.take(i as int));
                    assert(fv.take(i + 1).last() == fv[i as int]);
                }
                let a = FsAction::Copy(side, p.join(&files[i]), q.join(&files[i]));
                proof {
                    lemma_actions_push(out@, a);
                }
                out.push(a);
                i += 1;
            }
            proof {
                assert(fv.take(fv.len() as int) =~= fv);
            }
        },
    }
}

} // verus!
