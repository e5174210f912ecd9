//! What a connection is in the middle of writing, and how it takes it back.

use std::collections::HashMap;

use inillucent_engine::counters::{Counted, Counters};
use inillucent_engine::handles::Numbering;
use inillucent_engine::logs::{undo_route, write_route, Logs, WalLog, NOTHING_UNCOMMITTED};
use inillucent_engine::refusals::Refusal;
use inillucent_engine::sessions::{
    schema_bit, schemas_in, Attached, SchemaSlot, SessionState, MAIN, TEMP,
};
use inillucent_engine::statement_run::{
    after_follow, after_sync, AfterApply, AfterFollow, AfterUndo, Blame, Undoing, Unwind,
};
use inillucent_engine::transactions::{before_change, Writing};
use inillucent_engine::values::{Datum, OwnedDatum};

fn attached(name: &str, path: Option<&str>) -> Attached {
    Attached {
        name: name.as_bytes().to_vec(),
        path: path.map(|path| path.as_bytes().to_vec()),
        in_doubt: false,
        entries: Vec::new(),
        next_root: 2,
        handles: HashMap::new(),
        catalog_handle: 0xC000_0000,
        session: None,
    }
}

fn with_attached() -> SessionState {
    let mut state = SessionState::fresh();
    let mut held = attached("aux", Some("/aux"));
    held.handles.insert(5, 0xC000_0001);
    state.attached.push(held);
    state.owner.insert(0xC000_0001, 2);
    state
}

fn change(writing: &mut Writing, number: i64) {
    writing
        .undo
        .push(before_change(MAIN, 5, &[Datum::Int(number)], None));
}

fn keys(writing: &Writing) -> Vec<i64> {
    writing
        .undo
        .iter()
        .map(|held| match held.key[0] {
            OwnedDatum::Int(number) => number,
            _ => 0,
        })
        .collect()
}

#[test]
fn a_change_remembers_its_row_or_its_key() {
    let fresh = before_change(2, 5, &[Datum::Int(1)], None);
    assert_eq!((fresh.schema, fresh.tree), (2, 5));
    assert_eq!(fresh.key.len(), 1);
    assert!(fresh.row.is_none());
    let replaced = before_change(2, 5, &[Datum::Int(1)], Some(vec![OwnedDatum::Int(1)]));
    assert!(replaced.key.is_empty());
    assert_eq!(replaced.row.map(|row| row.len()), Some(1));
}

#[test]
fn a_batch_is_one_transaction() {
    let mut writing = Writing::starting_at(7);
    assert!(writing.autocommit());
    assert_eq!(writing.current_txn(), 7);
    assert!(writing.begin_batch());
    assert!(!writing.begin_batch());
    assert!(!writing.autocommit());
    assert_eq!(writing.current_txn(), 7);
    writing.touched = 0b101;
    assert_eq!(writing.seal_batch(), Some((7, 0b101)));
    assert!(writing.autocommit());
    assert_eq!(writing.touched, 0);
    assert_eq!(writing.seal_batch(), None);
}

#[test]
fn no_transaction_is_numbered_twice() {
    let mut writing = Writing::starting_at(3);
    writing.raise_transactions_past(9);
    assert_eq!(writing.next_txn, 10);
    writing.raise_transactions_past(4);
    assert_eq!(writing.next_txn, 10);
    writing.raise_transactions_past(u64::MAX);
    assert_eq!(writing.next_txn, u64::MAX);
}

#[test]
fn undoing_goes_back_to_the_mark_newest_first() {
    let mut writing = Writing::starting_at(1);
    writing.begin_batch();
    change(&mut writing, 1);
    writing.savepoint(b"Half");
    change(&mut writing, 2);
    change(&mut writing, 3);
    let floor = writing.floor_of(Some(b"HALF")).ok().unwrap();
    assert_eq!(floor, 1);
    let mut undone = Vec::new();
    while let Some(entry) = writing.undo_step(floor) {
        undone.push(match entry.key[0] {
            OwnedDatum::Int(number) => number,
            _ => 0,
        });
    }
    assert_eq!(undone, vec![3, 2]);
    assert_eq!(keys(&writing), vec![1]);
    assert_eq!(writing.mark_position(b"half"), Some(0));
}

#[test]
fn a_savepoint_that_is_not_there_is_refused() {
    let mut writing = Writing::starting_at(1);
    assert!(matches!(
        writing.floor_of(Some(b"gone")),
        Err(Refusal::NoSuchSavepoint(name)) if name == b"gone".to_vec()
    ));
    assert!(matches!(
        writing.release(b"gone"),
        Err(Refusal::NoSuchSavepoint(_))
    ));
    assert_eq!(writing.rolled_back_to(b"gone"), None);
    assert!(matches!(writing.floor_of(None), Ok(0)));
}

#[test]
fn the_newest_savepoint_of_a_name_is_meant() {
    let mut writing = Writing::starting_at(1);
    writing.savepoint(b"a");
    writing.savepoint(b"b");
    writing.savepoint(b"A");
    assert_eq!(writing.mark_position(b"a"), Some(2));
    assert_eq!(writing.next_level(), 3);
    assert_eq!(writing.level_of(b"b"), Some(1));
    assert_eq!(writing.level_of(b"c"), None);
    assert!(matches!(writing.release(b"b"), Ok(1)));
    assert_eq!(writing.mark_position(b"a"), Some(0));
}

#[test]
fn rolling_back_to_a_savepoint_keeps_it_and_ends_those_inside() {
    let mut writing = Writing::starting_at(1);
    writing.savepoint(b"outer");
    writing.savepoint(b"inner");
    assert_eq!(writing.rolled_back_to(b"outer"), Some(0));
    assert_eq!(writing.mark_position(b"outer"), Some(0));
    assert_eq!(writing.mark_position(b"inner"), None);
}

#[test]
fn marks_past_what_stands_are_forgotten() {
    let mut writing = Writing::starting_at(1);
    writing.savepoint(b"a");
    change(&mut writing, 1);
    writing.savepoint(b"b");
    writing.undo_step(0);
    writing.forget_late_marks();
    assert_eq!(writing.mark_position(b"a"), Some(0));
    assert_eq!(writing.mark_position(b"b"), None);
}

#[test]
fn a_rollback_leaves_nothing_open() {
    let mut writing = Writing::starting_at(1);
    writing.begin_batch();
    writing.savepoint(b"a");
    writing.implicit_transaction = true;
    writing.touched = 0b110;
    assert_eq!(writing.rolled_back(), vec![1, 2]);
    assert!(writing.autocommit());
    assert!(!writing.implicit_transaction);
    assert!(writing.marks.is_empty());
    assert_eq!(writing.touched, 0);
}

#[test]
fn a_connection_takes_over_anothers_work() {
    let mut writing = Writing::starting_at(1);
    let mut fresh = Writing::starting_at(8);
    change(&mut fresh, 4);
    writing.adopt(&mut fresh);
    assert_eq!(writing.next_txn, 8);
    assert_eq!(keys(&writing), vec![4]);
    assert!(fresh.undo.is_empty());
    assert_eq!(writing.decided_over(), 0);
}

#[test]
fn a_statement_of_its_own_commits_what_it_touched() {
    let mut writing = Writing::starting_at(4);
    let mut counters = Counters::starting_from(0);
    let opened = writing.open_statement();
    assert_eq!((opened.txn, opened.autocommit, opened.mark), (4, true, 0));
    assert_eq!(writing.current_txn(), 4);
    let counted = Counted {
        own: 2,
        all: 3,
        rowid: Some(9),
    };
    assert!(matches!(
        writing.statement_applied(&mut counters, opened, 0b1, counted, Ok(())),
        AfterApply::Follow
    ));
    assert!(matches!(after_follow(opened, Ok(true)), AfterFollow::Sync));
    assert!(matches!(after_follow(opened, Ok(false)), AfterFollow::Seal));
    assert!(matches!(after_sync(opened, Ok(())), AfterFollow::Seal));
    assert_eq!(
        writing.seal_statement(&mut counters, opened, Some(9), counted),
        Some((4, 0b1))
    );
    writing.close_statement();
    assert_eq!(writing.statement_txn, None);
    assert_eq!(counters.changes(), 2);
    assert_eq!(counters.total_changes(0), 3);
    assert_eq!(counters.last_insert_rowid(), 9);
}

#[test]
fn a_statement_inside_a_batch_leaves_the_commit_to_it() {
    let mut writing = Writing::starting_at(4);
    let mut counters = Counters::starting_from(0);
    writing.begin_batch();
    let opened = writing.open_statement();
    assert!(!opened.autocommit);
    writing.statement_applied(&mut counters, opened, 0b100, Counted::nothing(), Ok(()));
    assert!(matches!(after_follow(opened, Ok(true)), AfterFollow::Seal));
    assert_eq!(
        writing.seal_statement(&mut counters, opened, None, Counted::nothing()),
        None
    );
    assert_eq!(writing.touched, 0b100);
}

#[test]
fn a_statement_that_fails_is_taken_back() {
    let mut writing = Writing::starting_at(4);
    let mut counters = Counters::starting_from(0);
    writing.begin_batch();
    change(&mut writing, 1);
    let opened = writing.open_statement();
    let counted = Counted {
        own: 5,
        all: 5,
        rowid: None,
    };
    let next =
        writing.statement_applied(&mut counters, opened, 0b1, counted, Err(Unwind::Statement));
    assert!(matches!(
        next,
        AfterApply::Abandon(Undoing::ToFloor(1, 4))
    ));
    assert_eq!(counters.changes(), 0);
    assert!(matches!(
        writing.abandoned(opened, Unwind::Statement, 0b1, true),
        AfterUndo::Nothing
    ));
    assert_eq!(writing.touched, 0);
    assert!(matches!(
        writing.report_abandoned(true, None),
        Blame::Statement
    ));
}

#[test]
fn a_statement_that_keeps_its_rows_counts_and_commits_them() {
    let mut writing = Writing::starting_at(4);
    let mut counters = Counters::starting_from(0);
    let opened = writing.open_statement();
    let counted = Counted {
        own: 5,
        all: 6,
        rowid: None,
    };
    let next =
        writing.statement_applied(&mut counters, opened, 0b1, counted, Err(Unwind::Nothing));
    assert!(matches!(next, AfterApply::Abandon(Undoing::Nothing)));
    assert_eq!(counters.changes(), 5);
    assert_eq!(counters.total_changes(0), 6);
    assert!(matches!(
        writing.abandoned(opened, Unwind::Nothing, 0b11, true),
        AfterUndo::Commit(4, 0b11)
    ));
    assert!(matches!(
        writing.report_abandoned(true, Some(false)),
        Blame::Commit
    ));
    assert_eq!(writing.statement_txn, None);
}

#[test]
fn a_statement_may_ask_for_the_whole_transaction_back() {
    let mut writing = Writing::starting_at(4);
    writing.begin_batch();
    let opened = writing.open_statement();
    assert!(matches!(
        after_follow(opened, Err(Unwind::Transaction)),
        AfterFollow::Abandon(Undoing::Rollback)
    ));
    assert!(matches!(
        after_sync(opened, Err(Unwind::Transaction)),
        AfterFollow::Abandon(Undoing::Rollback)
    ));
    assert!(matches!(writing.report_abandoned(false, None), Blame::Undo));
}

#[test]
fn a_failed_statement_of_its_own_forgets_the_schemas_it_wrote() {
    let mut writing = Writing::starting_at(4);
    let opened = writing.open_statement();
    assert!(matches!(
        writing.abandoned(opened, Unwind::Statement, 0b101, true),
        AfterUndo::Forget(schemas) if schemas == vec![0, 2]
    ));
}

#[test]
fn a_set_of_schemas_is_a_bit_each() {
    assert_eq!(schema_bit(MAIN), 1);
    assert_eq!(schema_bit(3), 8);
    assert_eq!(schema_bit(16), 0);
    assert_eq!(schemas_in(0b1000_0000_0000_0101), vec![0, 2, 15]);
    assert_eq!(schemas_in(0), Vec::<usize>::new());
}

#[test]
fn a_connection_numbers_its_schemas() {
    let mut state = with_attached();
    assert!(matches!(state.slot_of(MAIN), Some(SchemaSlot::Main)));
    assert!(state.slot_of(TEMP).is_none());
    assert!(matches!(state.slot_of(2), Some(SchemaSlot::Attached(0))));
    assert!(state.slot_of(3).is_none());
    assert_eq!(state.schema_numbers(), vec![0, 2]);
    let mut temp = attached("temp", None);
    temp.session = Some(0);
    state.temps.push(temp);
    assert!(matches!(state.slot_of(TEMP), Some(SchemaSlot::Temp(0))));
    assert_eq!(state.schema_numbers(), vec![0, 1, 2]);
    state.session = 4;
    assert!(state.slot_of(TEMP).is_none());
}

#[test]
fn a_handle_leads_to_its_schema_and_back() {
    let state = with_attached();
    assert_eq!(state.schema_of(0xC000_0001), 2);
    assert_eq!(state.schema_of(7), MAIN);
    assert_eq!(state.handle_of(2, 5), Some(0xC000_0001));
    assert_eq!(state.handle_of(2, 6), None);
    assert_eq!(state.handle_of(MAIN, 7), Some(7));
    assert_eq!(state.local_of(2, 0xC000_0001), 5);
    assert_eq!(state.local_of(MAIN, 7), 7);
    assert_eq!(state.catalog_handle_of(2), 0xC000_0000);
    assert_eq!(state.catalog_handle_of(MAIN), 0xFFFF_FFFF);
    assert_eq!(
        state.schema_at(2).map(|held| held.name.clone()),
        Some(b"aux".to_vec())
    );
}

#[test]
fn a_new_tree_has_an_identifier_and_a_handle() {
    let mut state = with_attached();
    let mut numbering = Numbering {
        next_root: 0x8000_0000,
        next_handle: 0xC000_0002,
    };
    assert!(matches!(
        state.allocate_in(&mut numbering, MAIN),
        Ok((0x8000_0000, 0x8000_0000))
    ));
    assert!(matches!(
        state.allocate_in(&mut numbering, 2),
        Ok((2, 0xC000_0002))
    ));
    assert_eq!(state.handle_of(2, 2), Some(0xC000_0002));
    assert_eq!(state.schema_of(0xC000_0002), 2);
    assert!(matches!(
        state.allocate_in(&mut numbering, 9),
        Err(Refusal::StatementNotAttached)
    ));
    numbering.next_root = 0xC000_0000;
    assert!(matches!(
        state.allocate_in(&mut numbering, MAIN),
        Err(Refusal::TooManyObjects)
    ));
    numbering.next_handle = u32::MAX;
    assert!(matches!(
        state.allocate_in(&mut numbering, 2),
        Err(Refusal::TooManyAttached)
    ));
}

#[test]
fn a_log_is_armed_by_its_first_record() {
    let mut log = WalLog {
        txn: 1,
        schema: 0,
        wrote: false,
        keeps_undo: true,
    };
    assert_eq!(log.log(NOTHING_UNCOMMITTED, 40), 40);
    assert!(log.wrote);
    assert_eq!(log.log(40, 90), 40);
}

#[test]
fn a_statement_writes_through_one_log_for_each_schema() {
    let alone = SessionState::fresh();
    assert!(matches!(Logs::opened(&alone, 3), Logs::One(_)));
    let state = with_attached();
    let mut logs = Logs::opened(&state, 3);
    assert_eq!(logs.wrote(), 0);
    logs.get_mut(2).unwrap().log(NOTHING_UNCOMMITTED, 1);
    assert_eq!(logs.wrote(), 0b100);
    assert!(logs.get_mut(3).is_none());
    assert!(matches!(
        write_route(&state, &logs, 0xC000_0001),
        Ok(2)
    ));
    assert!(matches!(write_route(&state, &logs, 7), Ok(0)));
    assert!(matches!(
        write_route(&state, &Logs::opened(&alone, 3), 0xC000_0001),
        Err(Refusal::WriteNotAttached)
    ));
}

#[test]
fn a_change_is_put_back_where_it_was_made() {
    let state = with_attached();
    let there = before_change(2, 5, &[], None);
    assert!(matches!(undo_route(&state, &there, 1), Ok(0xC000_0001)));
    let catalog = before_change(2, 1, &[], None);
    assert!(matches!(undo_route(&state, &catalog, 1), Ok(0xC000_0000)));
    let nowhere = before_change(5, 5, &[], None);
    assert!(matches!(
        undo_route(&state, &nowhere, 1),
        Err(Refusal::RollbackNotAttached)
    ));
}
