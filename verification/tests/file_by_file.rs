use gpgsync::filesync::{FileStatus, SyncAction};
use gpgsync::path::SyncPath;
use gpgsync::syncdb::{analyze_file_and_update_db, SyncDb};
use gpgsync::syncentity::SyncEntity;
use gpgsync::tree::Mtime;

fn path(s: &str) -> SyncPath {
    SyncPath::from_str(s)
}

fn here(secs: u64) -> FileStatus {
    FileStatus::Existent(Mtime::new(secs, 0))
}

#[test]
fn gpgsync_test_basic() {
    let pr = path("/plain_root/test_basic");
    let gr = path("/gpg_root/test_basic");

    // PD/notes.txt -> GD/notes.txt.gpg
    {
        let mut db = SyncDb::new(&gr);
        let se = SyncEntity::from_plain(&pr.join(&path("notes.txt")), &pr, &gr);
        assert_eq!(se.as_gpg(), gr.join(&path("notes.txt.gpg")));
        assert_eq!(
            analyze_file_and_update_db(&mut db, &se, here(1), FileStatus::Nonexistent),
            SyncAction::PushPlain
        );
    }

    // GD/notes.txt.gpg -> PD/notes.txt
    {
        let mut db = SyncDb::new(&gr);
        let se = SyncEntity::from_gpg(&gr.join(&path("notes.txt.gpg")), &pr, &gr);
        assert_eq!(se.as_plain(), pr.join(&path("notes.txt")));
        assert_eq!(
            analyze_file_and_update_db(&mut db, &se, FileStatus::Nonexistent, here(1)),
            SyncAction::PushGpg
        );
    }
}

#[test]
fn gpgsync_test_rename() {
    let pr = path("/plain_root/test_rename");
    let gr = path("/gpg_root/test_rename");
    let mut db = SyncDb::new(&gr);

    let old = SyncEntity::from_plain(&pr.join(&path("notes.txt")), &pr, &gr);
    assert_eq!(
        analyze_file_and_update_db(&mut db, &old, here(1), FileStatus::Nonexistent),
        SyncAction::PushPlain
    );
    // After the push both copies are there.
    db.set_file_status(&old, here(1), here(2));

    // The rename is a removal of the one path and an addition of the other.
    let new = SyncEntity::from_plain(&pr.join(&path("notes_renamed.txt")), &pr, &gr);
    assert_eq!(
        analyze_file_and_update_db(&mut db, &old, FileStatus::Nonexistent, here(2)),
        SyncAction::DeleteGpg
    );
    assert_eq!(
        analyze_file_and_update_db(&mut db, &new, here(1), FileStatus::Nonexistent),
        SyncAction::PushPlain
    );
    assert_eq!(new.as_gpg(), gr.join(&path("notes_renamed.txt.gpg")));
}

#[test]
fn gpgsync_test_running_sync() {
    let pr = path("/plain_root/test_running_sync");
    let gr = path("/gpg_root/test_running_sync");
    let mut db = SyncDb::new(&gr);
    let se = SyncEntity::from_plain(&pr.join(&path("notes.txt")), &pr, &gr);

    // Nothing is there at first, then the file appears, then nothing changes.
    assert_eq!(
        analyze_file_and_update_db(&mut db, &se, FileStatus::Nonexistent, FileStatus::Nonexistent),
        SyncAction::Nothing
    );
    assert_eq!(
        analyze_file_and_update_db(&mut db, &se, here(1), FileStatus::Nonexistent),
        SyncAction::PushPlain
    );
    db.set_file_status(&se, here(1), here(2));
    assert_eq!(analyze_file_and_update_db(&mut db, &se, here(1), here(2)), SyncAction::Nothing);
}
