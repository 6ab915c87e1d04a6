//! One file as it stands on both sides.

use vstd::prelude::*;
use crate::path::{add_gpg_suffix, ends_with_gpg, remove_gpg_suffix, PathView, SyncPath};

verus! {

/// Up to two files under one relative path: the plaintext file below the
/// plaintext root, and the encrypted file, with `.gpg` added to its name,
/// below the encrypted root.
#[derive(Debug, PartialEq, Eq)]
pub struct SyncEntity {
    pub rel_path_without_gpg: SyncPath,
    pub plain_root: SyncPath,
    pub gpg_root: SyncPath,
}

/// The mathematical value of a [`SyncEntity`].
pub ghost struct EntityView {
    pub rel: PathView,
    pub plain_root: PathView,
    pub gpg_root: PathView,
}

impl View for SyncEntity {
    type V = EntityView;

    open spec fn view(&self) -> EntityView {
        EntityView { rel: self.rel_path_without_gpg@, plain_root: self.plain_root@, gpg_root: self.gpg_root@ }
    }
}

/// What follows `root` in `p`, as a relative path.
pub open spec fn below(root: PathView, p: PathView) -> PathView {
    PathView { absolute: false, segments: p.segments.skip(root.segments.len() as int) }
}

impl SyncEntity {
    /// The entity of the plaintext file at `plain_path`, which lies at or
    /// below the plaintext root.
    pub fn from_plain(plain_path: &SyncPath, plain_root: &SyncPath, gpg_root: &SyncPath) -> (r: SyncEntity)
        requires
            plain_path@.starts_with(plain_root@),
        ensures
            r@ == (EntityView {
                rel: below(plain_root@, plain_path@),
                plain_root: plain_root@,
                gpg_root: gpg_root@,
            }),
    {
        let rel = match plain_path.strip_prefix(plain_root) {
            Some(rel) => rel,
            None => SyncPath::new(),
        };
        SyncEntity {
            rel_path_without_gpg: rel,
            plain_root: plain_root.clone_path(),
            gpg_root: gpg_root.clone_path(),
        }
    }

    /// The entity of the encrypted file at `gpg_path`, which lies at or
    /// below the encrypted root and has a name that ends in `.gpg`.
    pub fn from_gpg(gpg_path: &SyncPath, plain_root: &SyncPath, gpg_root: &SyncPath) -> (r: SyncEntity)
        requires
            gpg_path@.segments.len() > 0,
            ends_with_gpg(gpg_path@.segments.last()),
            gpg_path@.without_gpg_suffix().starts_with(gpg_root@),
        ensures
            r@ == (EntityView {
                rel: below(gpg_root@, gpg_path@.without_gpg_suffix()),
                plain_root: plain_root@,
                gpg_root: gpg_root@,
            }),
    {
        let stripped = remove_gpg_suffix(gpg_path);
        let rel = match stripped.strip_prefix(gpg_root) {
            Some(rel) => rel,
            None => SyncPath::new(),
        };
        SyncEntity {
            rel_path_without_gpg: rel,
            plain_root: plain_root.clone_path(),
            gpg_root: gpg_root.clone_path(),
        }
    }

    /// The path of the plaintext file.
    pub fn as_plain(&self) -> (r: SyncPath)
        ensures
            r@ == self@.plain_root.join(self@.rel),
    {
        self.plain_root.join(&self.rel_path_without_gpg)
    }

    /// The path of the encrypted file.
    pub fn as_gpg(&self) -> (r: SyncPath)
        requires
            self@.gpg_root.join(self@.rel).segments.len() > 0,
        ensures
            r@ == self@.gpg_root.join(self@.rel).with_gpg_suffix(),
    {
        let joined = self.gpg_root.join(&self.rel_path_without_gpg);
        add_gpg_suffix(&joined)
    }

    /// The path of the file relative to either root, without `.gpg`.
    pub fn rel_without_gpg(&self) -> (r: &SyncPath)
        ensures
            r@ == self@.rel,
    {
        &self.rel_path_without_gpg
    }
}

/// The path of the plaintext file of an entity that was made from a file
/// below the plaintext root is the path of that file.
pub proof fn lemma_plain_round_trip(plain_path: PathView, plain_root: PathView)
    requires
        plain_path.starts_with(plain_root),
    ensures
        plain_root.join(below(plain_root, plain_path)) == plain_path,
{
    let n = plain_root.segments.len() as int;
    assert(plain_path.segments =~= plain_path.segments.take(n) + plain_path.segments.skip(n));
}

} // verus!
