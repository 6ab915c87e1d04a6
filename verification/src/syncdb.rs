//! What was last seen of each file.
//!
//! The database holds, for each relative path, the state in which the
//! plaintext copy and the encrypted copy of the file were found at the end
//! of the last run. A path that was never recorded counts as missing on both
//! sides.

use vstd::prelude::*;
use crate::filesync::{
    determine_file_change, determine_sync_action, file_change, sync_action, FileStatus, SyncAction,
};
use crate::order::Order;
use crate::path::{PathView, SyncPath};
use crate::syncentity::SyncEntity;

verus! {

/// The version of the layout of the database.
pub const DB_VERSION: u32 = 1;

/// The record of one file.
#[derive(Debug, PartialEq, Eq)]
pub struct DbEntry {
    pub path: SyncPath,
    pub plain: FileStatus,
    pub gpg: FileStatus,
}

/// The database.
#[derive(Debug, PartialEq, Eq)]
pub struct SyncDb {
    gpg_root: SyncPath,
    db: Vec<DbEntry>,
    db_version: u32,
}

/// The state of a file that was never recorded.
pub open spec fn unknown() -> (FileStatus, FileStatus) {
    (FileStatus::Nonexistent, FileStatus::Nonexistent)
}

/// The record that the first of `entries` with the path `key` holds.
pub open spec fn lookup(entries: Seq<DbEntry>, key: PathView) -> (FileStatus, FileStatus)
    decreases entries.len(),
{
    if entries.len() == 0 {
        unknown()
    } else if entries[0].path@ == key {
        (entries[0].plain, entries[0].gpg)
    } else {
        lookup(entries.skip(1), key)
    }
}

/// No entry of `entries` before `upto` has the path `key`.
pub open spec fn absent_before(entries: Seq<DbEntry>, key: PathView, upto: int) -> bool {
    forall|k: int| 0 <= k < upto ==> (#[trigger] entries[k]).path@ != key
}

/// Where the first `i` entries do not have the path `key`, the record is
/// that of the rest.
proof fn lemma_lookup_skip(entries: Seq<DbEntry>, key: PathView, i: int)
    requires
        0 <= i <= entries.len(),
        absent_before(entries, key, i),
    ensures
        lookup(entries, key) == lookup(entries.skip(i), key),
    decreases i,
{
    if i == 0 {
        assert(entries.skip(0) =~= entries);
    } else {
        lemma_lookup_skip(entries, key, i - 1);
        let rest = entries.skip(i - 1);
        assert(rest[0] == entries[i - 1]);
        assert(rest.skip(1) =~= entries.skip(i));
    }
}

/// What replacing the entry at `i` does to the record of a path: it changes
/// the record of the path of that entry, where no earlier entry has it, and
/// no other.
proof fn lemma_lookup_update(entries: Seq<DbEntry>, i: int, e: DbEntry, key: PathView)
    requires
        0 <= i < entries.len(),
        e.path@ == entries[i].path@,
        absent_before(entries, e.path@, i),
    ensures
        lookup(entries.update(i, e), key) == if key == e.path@ {
            (e.plain, e.gpg)
        } else {
            lookup(entries, key)
        },
    decreases i,
{
    let out = entries.update(i, e);
    if i == 0 {
        assert(out.skip(1) =~= entries.skip(1));
    } else {
        assert(out[0] == entries[0]);
        assert(out.skip(1) =~= entries.skip(1).update(i - 1, e));
        assert(entries.skip(1)[i - 1] == entries[i]);
        assert(absent_before(entries.skip(1), e.path@, i - 1)) by {
            assert forall|k: int| 0 <= k < i - 1 implies (#[trigger] entries.skip(1)[k]).path@ != e.path@ by {
                assert(entries.skip(1)[k] == entries[k + 1]);
            }
        }
        assert(entries[0].path@ != e.path@);
        lemma_lookup_update(entries.skip(1), i - 1, e, key);
    }
}

/// What adding an entry for a path that no entry has does to the record of
/// a path.
proof fn lemma_lookup_push(entries: Seq<DbEntry>, e: DbEntry, key: PathView)
    requires
        absent_before(entries, e.path@, entries.len() as int),
    ensures
        lookup(entries.push(e), key) == if key == e.path@ {
            (e.plain, e.gpg)
        } else {
            lookup(entries, key)
        },
    decreases entries.len(),
{
    let out = entries.push(e);
    if entries.len() == 0 {
        reveal_with_fuel(lookup, 2);
        assert(out[0] == e);
        assert(out.skip(1) =~= Seq::<DbEntry>::empty());
    } else {
        assert(out[0] == entries[0]);
        assert(out.skip(1) =~= entries.skip(1).push(e));
        assert(absent_before(entries.skip(1), e.path@, entries.len() - 1)) by {
            assert forall|k: int| 0 <= k < entries.len() - 1 implies (#[trigger] entries.skip(1)[k]).path@
                != e.path@ by {
                assert(entries.skip(1)[k] == entries[k + 1]);
            }
        }
        assert(entries[0].path@ != e.path@);
        lemma_lookup_push(entries.skip(1), e, key);
    }
}

impl SyncDb {
    /// The state in which the file at `key` was recorded: that of its
    /// plaintext copy and that of its encrypted copy.
    pub closed spec fn status(&self, key: PathView) -> (FileStatus, FileStatus) {
        lookup(self.db@, key)
    }

    /// The encrypted root that the database belongs to.
    pub closed spec fn root(&self) -> PathView {
        self.gpg_root@
    }

    /// The version of the layout.
    pub closed spec fn version(&self) -> u32 {
        self.db_version
    }

    /// An empty database for the encrypted root `gpg_root`.
    pub fn new(gpg_root: &SyncPath) -> (r: SyncDb)
        ensures
            r.root() == gpg_root@,
            r.version() == DB_VERSION,
            forall|key: PathView| r.status(key) == unknown(),
    {
        SyncDb { gpg_root: gpg_root.clone_path(), db: Vec::new(), db_version: DB_VERSION }
    }

    /// A database with the given records, as it was saved. Of two records
    /// for one path the first one counts. There is no result where the
    /// version is not [`DB_VERSION`].
    pub fn restore(gpg_root: SyncPath, db_version: u32, entries: Vec<DbEntry>) -> (r: Option<SyncDb>)
        ensures
            r is Some <==> db_version == DB_VERSION,
            r matches Some(db) ==> {
                &&& db.root() == gpg_root@
                &&& db.version() == DB_VERSION
                &&& forall|key: PathView| db.status(key) == lookup(entries@, key)
            },
    {
        if db_version == DB_VERSION {
            Some(SyncDb { gpg_root, db: entries, db_version })
        } else {
            None
        }
    }

    /// The records, for saving.
    pub fn entries(&self) -> (r: &Vec<DbEntry>)
        ensures
            forall|key: PathView| self.status(key) == lookup(r@, key),
    {
        &self.db
    }

    /// The version of the layout.
    pub fn db_version(&self) -> (r: u32)
        ensures
            r == self.version(),
    {
        self.db_version
    }

    /// The position of the first record for `key`.
    fn find(&self, key: &SyncPath) -> (r: Option<usize>)
        ensures
            match r {
                Some(i) => i < self.db@.len() && self.db@[i as int].path@ == key@ && absent_before(
                    self.db@,
                    key@,
                    i as int,
                ),
                None => absent_before(self.db@, key@, self.db@.len() as int),
            },
    {
        let mut i: usize = 0;
        while i < self.db.len()
            invariant
                i <= self.db@.len(),
                absent_before(self.db@, key@, i as int),
            decreases self.db@.len() - i,
        {
            match self.db[i].path.compare(key) {
                Order::Equal => {
                    return Some(i);
                },
                _ => {},
            }
            i += 1;
        }
        None
    }

    /// The state in which the file of `se` was recorded, or missing on both
    /// sides where it was never recorded.
    pub fn get_file_status(&self, se: &SyncEntity) -> (r: (FileStatus, FileStatus))
        ensures
            r == self.status(se@.rel),
    {
        match self.find(se.rel_without_gpg()) {
            Some(i) => {
                proof {
                    lemma_lookup_skip(self.db@, se@.rel, i as int);
                    assert(self.db@.skip(i as int)[0] == self.db@[i as int]);
                }
                (self.db[i].plain, self.db[i].gpg)
            },
            None => {
                proof {
                    lemma_lookup_skip(self.db@, se@.rel, self.db@.len() as int);
                }
                (FileStatus::Nonexistent, FileStatus::Nonexistent)
            },
        }
    }

    /// Records the state of the file of `se`.
    pub fn set_file_status(&mut self, se: &SyncEntity, plain_status: FileStatus, gpg_status: FileStatus)
        ensures
            final(self).root() == old(self).root(),
            final(self).version() == old(self).version(),
            forall|key: PathView|
                final(self).status(key) == if key == se@.rel {
                    (plain_status, gpg_status)
                } else {
                    old(self).status(key)
                },
    {
        let entry = DbEntry { path: se.rel_without_gpg().clone_path(), plain: plain_status, gpg: gpg_status };
        match self.find(se.rel_without_gpg()) {
            Some(i) => {
                proof {
                    assert forall|key: PathView|
                        lookup(self.db@.update(i as int, entry), key) == if key == se@.rel {
                            (plain_status, gpg_status)
                        } else {
                            lookup(self.db@, key)
                        } by {
                        lemma_lookup_update(self.db@, i as int, entry, key);
                    }
                }
                self.db[i] = entry;
            },
            None => {
                proof {
                    assert forall|key: PathView|
                        lookup(self.db@.push(entry), key) == if key == se@.rel {
                            (plain_status, gpg_status)
                        } else {
                            lookup(self.db@, key)
                        } by {
                        lemma_lookup_push(self.db@, entry, key);
                    }
                }
                self.db.push(entry);
            },
        }
    }

    /// The encrypted root that the database belongs to.
    pub fn gpg_root(&self) -> (r: &SyncPath)
        ensures
            r@ == self.root(),
    {
        &self.gpg_root
    }
}

/// Decides what to do for the file of `se`, which was found in the state
/// `plain_status_cur` on the plaintext side and `gpg_status_cur` on the
/// encrypted side, and records that state.
pub fn analyze_file_and_update_db(
    db: &mut SyncDb,
    se: &SyncEntity,
    plain_status_cur: FileStatus,
    gpg_status_cur: FileStatus,
) -> (r: SyncAction)
    ensures
        r == sync_action(
            file_change(old(db).status(se@.rel).0, plain_status_cur),
            file_change(old(db).status(se@.rel).1, gpg_status_cur),
        ),
        final(db).root() == old(db).root(),
        final(db).version() == old(db).version(),
        forall|key: PathView|
            final(db).status(key) == if key == se@.rel {
                (plain_status_cur, gpg_status_cur)
            } else {
                old(db).status(key)
            },
{
    let (plain_status_prev, gpg_status_prev) = db.get_file_status(se);
    let action = determine_sync_action(
        determine_file_change(plain_status_prev, plain_status_cur),
        determine_file_change(gpg_status_prev, gpg_status_cur),
    );
    db.set_file_status(se, plain_status_cur, gpg_status_cur);
    action
}

} // verus!
