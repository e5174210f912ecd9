//! How files are taken, opened and let go.

use inillucent_engine::locks::{
    a_fold_is_due, any_attached_is_dirty, holds_what_the_file_does_not, journal_for, reload_after,
    take, taken, the_log_moved, the_meta_moved, Account, FileLock, FileState, JournalChange,
    JournalMode, LogEnd, Release, Take, Taken,
};
use inillucent_engine::open::{
    first_free_root, frames_given, gives_back_the_tail, header_accounts_for_every_object, reclaims,
    settle_a_hot_journal, settle_journal, target_name, temp_path, HotJournal,
};
use inillucent_engine::refusals::{refused, Fault, FaultKind, Refusal};
use inillucent_engine::schema::{ObjectKind, Recorded, SchemaEntry, TreeStats};
use inillucent_engine::transactions::Writing;

fn file() -> FileState {
    FileState {
        kept: true,
        lock: FileLock::Exclusive,
        dirty: 0,
        hot: false,
        logged: 0,
    }
}

fn rooted(root: u64) -> Recorded {
    Recorded {
        rowid: 1,
        root: 5,
        entry: SchemaEntry {
            kind: ObjectKind::Table,
            name: b"t".to_vec(),
            table: b"t".to_vec(),
            root,
            sql: Vec::new(),
            stats: TreeStats {
                first_leaf: 0,
                leaf_count: 0,
                row_count: 0,
            },
            tree_id: 5,
        },
    }
}

#[test]
fn a_fold_is_due_when_any_log_is_long() {
    let long = FileState {
        logged: 100,
        ..file()
    };
    assert!(a_fold_is_due(long, &[], 100));
    assert!(!a_fold_is_due(file(), &[], 100));
    assert!(a_fold_is_due(file(), &[long], 100));
    assert!(!a_fold_is_due(
        file(),
        &[FileState {
            kept: false,
            ..long
        }],
        100
    ));
}

#[test]
fn a_file_is_dirty_where_it_was_written() {
    let dirty = FileState { dirty: 1, ..file() };
    assert!(any_attached_is_dirty(&[file(), dirty]));
    assert!(!any_attached_is_dirty(&[FileState {
        lock: FileLock::Shared,
        ..dirty
    }]));
    assert!(holds_what_the_file_does_not(dirty));
    assert!(holds_what_the_file_does_not(FileState {
        hot: true,
        ..file()
    }));
    assert!(!holds_what_the_file_does_not(file()));
}

#[test]
fn entering_and_leaving_cancel_out() {
    let mut writing = Writing::starting_at(1);
    assert!(!writing.inside());
    writing.enter();
    writing.enter();
    assert!(writing.inside());
    writing.leave();
    writing.leave();
    assert!(!writing.inside());
    writing.leave();
    assert_eq!(writing.running, 0);
}

#[test]
fn a_file_is_let_go_when_nothing_needs_it() {
    let mut writing = Writing::starting_at(1);
    let dirty = FileState { dirty: 3, ..file() };
    assert_eq!(
        writing.release_if_idle(false, dirty, &[], 100),
        Release::SyncAndLetGo(false, false)
    );
    assert_eq!(
        writing.release_if_idle(true, dirty, &[], 100),
        Release::Keep
    );
    let idle = FileState {
        lock: FileLock::Unlocked,
        ..file()
    };
    assert_eq!(
        writing.release_if_idle(false, idle, &[], 100),
        Release::LetGo
    );
    writing.enter();
    assert_eq!(
        writing.release_if_idle(false, dirty, &[], 100),
        Release::Keep
    );
    writing.leave();
    writing.begin_batch();
    assert_eq!(
        writing.release_if_idle(false, dirty, &[], 100),
        Release::Keep
    );
}

#[test]
fn a_file_is_folded_on_close_where_it_lacks_something() {
    let mut writing = Writing::starting_at(1);
    let dirty = FileState { dirty: 3, ..file() };
    assert!(writing.folds_on_close(false, dirty, &[]));
    assert!(!writing.folds_on_close(true, dirty, &[]));
    assert!(!writing.folds_on_close(false, file(), &[]));
    assert!(writing.folds_on_close(false, file(), &[dirty]));
    writing.begin_batch();
    assert!(!writing.folds_on_close(false, dirty, &[]));
}

#[test]
fn a_statement_takes_a_file_as_far_as_it_may() {
    assert_eq!(
        take(false, true, true, false),
        Take {
            write: false,
            fresh: true,
            taking: true
        }
    );
    assert_eq!(
        take(true, true, false, true),
        Take {
            write: true,
            fresh: false,
            taking: false
        }
    );
}

#[test]
fn a_file_has_moved_where_its_own_account_says_so() {
    assert!(!the_meta_moved(true, Account::AsLastRead));
    assert!(the_meta_moved(true, Account::Found(false)));
    assert!(!the_meta_moved(true, Account::Found(true)));
    assert!(the_meta_moved(true, Account::Gone));
    assert!(!the_meta_moved(false, Account::Gone));
    let here = LogEnd {
        sequence: 1,
        lsn: 9,
    };
    let there = LogEnd {
        sequence: 1,
        lsn: 10,
    };
    assert!(the_log_moved(true, there, here));
    assert!(!the_log_moved(true, here, here));
    assert!(!the_log_moved(false, there, here));
}

#[test]
fn a_file_that_moved_is_read_again() {
    let how = take(false, false, false, false);
    let moved = taken(how, false, true, false);
    assert_eq!(
        moved,
        Taken {
            moved: true,
            resync: true,
            trust: true
        }
    );
    let inside = take(true, false, false, false);
    assert_eq!(
        taken(inside, false, true, true),
        Taken {
            moved: false,
            resync: false,
            trust: false
        }
    );
    let still = taken(how, false, false, false);
    assert!(reload_after(moved, &[], true));
    assert!(!reload_after(moved, &[], false));
    assert!(reload_after(still, &[moved], true));
    assert!(!reload_after(still, &[still], true));
}

#[test]
fn a_journal_protects_every_mode_but_none() {
    assert_eq!(journal_for(JournalMode::Off), None);
    assert_eq!(journal_for(JournalMode::Wal), Some(JournalMode::Delete));
    assert_eq!(
        journal_for(JournalMode::Truncate),
        Some(JournalMode::Truncate)
    );
}

#[test]
fn a_journal_mode_changes_outside_a_transaction() {
    let mut writing = Writing::starting_at(1);
    assert!(matches!(
        writing.set_journal_mode(JournalMode::Delete, JournalMode::Delete),
        Ok(JournalChange::Nothing)
    ));
    assert!(matches!(
        writing.set_journal_mode(JournalMode::Delete, JournalMode::Wal),
        Ok(JournalChange::Change(Some(JournalMode::Delete), true))
    ));
    assert!(matches!(
        writing.set_journal_mode(JournalMode::Delete, JournalMode::Off),
        Ok(JournalChange::Change(None, false))
    ));
    writing.begin_batch();
    assert!(matches!(
        writing.set_journal_mode(JournalMode::Delete, JournalMode::Wal),
        Err(Refusal::JournalInTransaction)
    ));
    assert!(matches!(
        writing.set_journal_mode(JournalMode::Wal, JournalMode::Wal),
        Ok(JournalChange::Nothing)
    ));
}

#[test]
fn a_file_is_named_after_how_it_was_built() {
    assert_eq!(
        target_name(Some(b"chinook"), 4096, 256),
        b"chinook-p4096-f256.rdb".to_vec()
    );
    assert_eq!(
        target_name(None, 512, 64),
        b"fixture-p512-f64.rdb".to_vec()
    );
    assert_eq!(temp_path(3), b"/temp/3.db".to_vec());
    assert_eq!(frames_given(1), 64);
    assert_eq!(frames_given(65), 65);
}

#[test]
fn a_tail_is_cut_only_past_every_object() {
    assert!(header_accounts_for_every_object(&[rooted(4)], 5));
    assert!(!header_accounts_for_every_object(&[rooted(5)], 5));
    assert!(gives_back_the_tail(false, &[rooted(4)], 5));
    assert!(!gives_back_the_tail(true, &[rooted(4)], 5));
}

#[test]
fn an_interrupted_write_is_replayed_or_refused() {
    assert!(matches!(
        settle_a_hot_journal(false, None),
        Ok(HotJournal::Replay)
    ));
    assert!(matches!(
        settle_a_hot_journal(true, Some(true)),
        Err(Refusal::HotJournal)
    ));
    assert!(matches!(
        settle_a_hot_journal(true, Some(false)),
        Ok(HotJournal::Nothing)
    ));
    assert!(matches!(
        settle_a_hot_journal(true, None),
        Ok(HotJournal::Nothing)
    ));
    assert_eq!(settle_journal(true, JournalMode::Delete), JournalMode::Wal);
    assert_eq!(
        settle_journal(false, JournalMode::Persist),
        JournalMode::Persist
    );
}

#[test]
fn a_created_tree_takes_a_free_root() {
    assert_eq!(first_free_root(7), 0x8000_0000);
    assert_eq!(first_free_root(0x8000_0003), 0x8000_0004);
    assert_eq!(first_free_root(u32::MAX), u32::MAX);
    assert!(reclaims(4, 4));
    assert!(!reclaims(3, 4));
    assert!(!reclaims(0, 0));
}

#[test]
fn a_refusal_says_what_it_refused() {
    let said = |refusal: Refusal| String::from_utf8(refusal.message()).unwrap();
    assert_eq!(
        said(Refusal::NoSuchSavepoint(b"s".to_vec())),
        "no such savepoint: s"
    );
    assert_eq!(
        said(Refusal::FixedNumber(
            b"threads".to_vec(),
            -1,
            b"8".to_vec()
        )),
        "this engine's threads is -1 and cannot be set to 8"
    );
    assert_eq!(
        said(Refusal::PragmaNotBuilt(b"x".to_vec())),
        "PRAGMA x is not implemented by this engine"
    );
    assert_eq!(
        said(Refusal::NotReadOnly(b"DELETE".to_vec())),
        "DELETE is not a read-only statement"
    );
    assert_eq!(
        said(Refusal::ReadOnly),
        "attempt to write a readonly database"
    );
    assert_eq!(
        said(Refusal::ForeignKeyFailed),
        "FOREIGN KEY constraint failed"
    );
    assert_eq!(
        said(Refusal::RowsUnreadable(b"t".to_vec())),
        "the rows of t could not be read from the source database"
    );
    assert_eq!(
        said(Refusal::NoSuchIndex(b"i".to_vec())),
        "no such index: i"
    );
    assert_eq!(
        said(Refusal::NoSuchTable(b"t".to_vec())),
        "no such table: t"
    );
    assert!(
        said(Refusal::RollbackLost(vec![b"a".to_vec(), b"b".to_vec()]))
            .starts_with("rolling back left a, b in the schema with no tree attached;")
    );
    for (refusal, message) in [
        (
            Refusal::TooManyObjects,
            "this database holds too many objects for one connection to name them all",
        ),
        (
            Refusal::TooManyAttached,
            "this connection holds too many attached objects to name them all",
        ),
        (
            Refusal::StatementNotAttached,
            "a statement names a database that is not attached",
        ),
        (
            Refusal::WriteNotAttached,
            "a write names a database that is not attached",
        ),
        (
            Refusal::RollbackNotAttached,
            "a rollback names a database that is not attached",
        ),
        (
            Refusal::CatalogReadBack,
            "the catalog read back from the file is not the one written to it",
        ),
        (
            Refusal::JournalInTransaction,
            "cannot change PRAGMA journal_mode from within a transaction",
        ),
        (
            Refusal::NoLayout,
            "no layout imported for the table being written",
        ),
        (
            Refusal::SchemaNotWritable,
            "writing to sqlite_schema needs PRAGMA writable_schema = ON",
        ),
        (
            Refusal::SchemaInsertOnly,
            "only an INSERT into sqlite_schema is built, not an UPDATE or a DELETE",
        ),
        (
            Refusal::PragmaNotAttached,
            "that pragma names a database that is not attached",
        ),
        (
            Refusal::ViewDeleteWithoutQuery,
            "a view delete with no query",
        ),
        (
            Refusal::TreeNotAttached,
            "a tree names a database that is not attached",
        ),
    ] {
        assert_eq!(said(refusal), message);
    }
}

#[test]
fn a_fault_is_told_with_its_place() {
    let told = refused(Fault {
        kind: FaultKind::Unsupported(b"this".to_vec()),
        code: 1,
        message: b"no".to_vec(),
        start: 3,
        end: 5,
        offset: 3,
    });
    assert_eq!(told.offset, Some(3));
    assert_eq!(told.unsupported, Some(b"this".to_vec()));
    assert_eq!(told.detail, b"no".to_vec());
    let placeless = refused(Fault {
        kind: FaultKind::Refused,
        code: 1,
        message: b"no".to_vec(),
        start: 0,
        end: 0,
        offset: 0,
    });
    assert_eq!(placeless.offset, None);
    assert_eq!(placeless.unsupported, None);
}
