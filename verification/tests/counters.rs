//! What a connection counts.

use inillucent_engine::counters::{fresh_seed, Counted, Counters};

#[test]
fn a_statement_counts_its_own_rows_and_all_of_them() {
    let mut counted = Counted::nothing();
    counted.count_row(true);
    counted.count_row(false);
    counted.count_rowid(9);
    assert_eq!(
        counted,
        Counted {
            own: 1,
            all: 2,
            rowid: Some(9)
        }
    );
}

#[test]
fn a_count_stops_at_the_greatest_number() {
    let mut counted = Counted {
        own: i64::MAX,
        all: i64::MAX,
        rowid: None,
    };
    counted.count_row(true);
    assert_eq!(counted.own, i64::MAX);
    assert_eq!(counted.all, i64::MAX);
}

#[test]
fn a_session_is_told_what_changed_since_it_opened() {
    let mut counters = Counters::starting_from(5);
    counters.record_changes(3, 4);
    counters.record_open_once(1);
    counters.record_changes(2, 2);
    counters.record_open_once(1);
    assert_eq!(counters.changes(), 2);
    assert_eq!(counters.total_changes(1), 2);
    assert_eq!(counters.total_changes(7), 6);
}

#[test]
fn the_total_of_changes_does_not_fall() {
    let mut counters = Counters::starting_from(0);
    counters.record_changes(1, i64::MAX);
    counters.record_changes(1, 5);
    assert_eq!(counters.total_changes(0), i64::MAX);
}

#[test]
fn a_rowid_is_remembered_until_another_is_assigned() {
    let mut counters = Counters::starting_from(0);
    counters.remember_rowid(Some(12));
    counters.remember_rowid(None);
    assert_eq!(counters.last_insert_rowid(), 12);
}

#[test]
fn a_function_is_told_the_counts_and_a_new_seed() {
    let mut counters = Counters::starting_from(5);
    counters.record_changes(3, 4);
    counters.remember_rowid(Some(8));
    let context = counters.scalar_context(0, 77, true);
    assert_eq!(context.changes, 3);
    assert_eq!(context.total_changes, 4);
    assert_eq!(context.last_insert_rowid, 8);
    assert_eq!(context.seed, 77);
    assert!(context.like_case_sensitive);
    assert_eq!(counters.seed, 77);
}

#[test]
fn two_processes_of_one_moment_start_apart() {
    assert_eq!(fresh_seed(9, 0), 9);
    assert_eq!(fresh_seed(0, 1), 0x9E37_79B9_7F4A_7C15);
    assert_ne!(fresh_seed(123, 1), fresh_seed(123, 2));
}

#[test]
fn a_module_keeps_the_rows_it_took() {
    let mut counters = Counters::starting_from(0);
    counters.record_changes(9, 9);
    counters.record_module_rows(2);
    assert_eq!(counters.changes(), 2);
    assert_eq!(counters.total_changes(0), 11);
}
