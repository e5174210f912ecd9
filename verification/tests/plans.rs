//! What is compiled once and run many times.

use inillucent_engine::plans::{
    after_compiling, column_names, plan_key, query_run, Compiled, Lookup, QueryRun, Slot,
    StageTimings, DEFAULT_STATEMENT_CACHE,
};

#[test]
fn a_plan_is_held_under_its_session_and_its_levers() {
    assert_eq!(plan_key(0, 0), 0);
    assert_eq!(plan_key(3, 5), (3 << 32) + 5);
    assert_ne!(plan_key(1, 0), plan_key(0, 1));
}

#[test]
fn a_held_plan_is_found_again() {
    let mut compiled = Compiled::fresh();
    assert_eq!(compiled.limit(), DEFAULT_STATEMENT_CACHE);
    assert_eq!(compiled.lookup(false, true, 1, b"SELECT 1"), Lookup::Keep);
    compiled.keep(1, b"SELECT 1", 40);
    assert_eq!(
        compiled.lookup(false, true, 1, b"SELECT 1"),
        Lookup::Held(40)
    );
    assert_eq!(compiled.lookup(false, true, 2, b"SELECT 1"), Lookup::Keep);
    assert_eq!(compiled.held(), 1);
}

#[test]
fn an_authorizer_that_may_refuse_is_asked_every_time() {
    let mut compiled = Compiled::fresh();
    compiled.keep(1, b"SELECT 1", 40);
    assert_eq!(compiled.lookup(true, true, 1, b"SELECT 1"), Lookup::Fresh);
    assert_eq!(compiled.lookup(false, false, 1, b"SELECT 1"), Lookup::Fresh);
}

#[test]
fn a_full_key_is_emptied_and_the_others_are_not() {
    let mut compiled = Compiled::fresh();
    compiled.set_limit(2);
    compiled.keep(9, b"other", 1);
    compiled.keep(1, b"a", 2);
    compiled.keep(1, b"b", 3);
    compiled.keep(1, b"c", 4);
    assert_eq!(compiled.lookup(false, true, 1, b"a"), Lookup::Keep);
    assert_eq!(compiled.lookup(false, true, 1, b"c"), Lookup::Held(4));
    assert_eq!(compiled.lookup(false, true, 9, b"other"), Lookup::Held(1));
    assert_eq!(compiled.held(), 2);
}

#[test]
fn nothing_is_held_where_nothing_may_be() {
    let mut compiled = Compiled::fresh();
    compiled.keep(1, b"a", 2);
    compiled.set_limit(0);
    assert_eq!(compiled.held(), 0);
    compiled.keep(1, b"a", 2);
    assert_eq!(compiled.lookup(false, true, 1, b"a"), Lookup::Keep);
}

#[test]
fn what_is_compiled_is_counted_apart_from_what_is_held() {
    let mut compiled = Compiled::fresh();
    compiled.count_compile();
    compiled.count_compile();
    compiled.keep(1, b"a", 2);
    compiled.forget_all();
    assert_eq!(compiled.held(), 0);
    assert_eq!(compiled.compiles(), 2);
    let mut other = Compiled::fresh();
    other.adopt(&mut compiled);
    assert_eq!(other.compiles(), 2);
}

#[test]
fn an_index_build_has_taken_no_time_at_first() {
    let timings = StageTimings::default();
    assert_eq!(timings.scan + timings.sort + timings.seal, 0);
}

#[test]
fn a_chain_is_tried_once_and_the_answer_is_remembered() {
    assert_eq!(query_run(Slot::Untried, false), QueryRun::Compile);
    assert_eq!(query_run(Slot::Reusable, false), QueryRun::Reuse);
    assert_eq!(query_run(Slot::Never, false), QueryRun::Build);
    assert_eq!(query_run(Slot::Reusable, true), QueryRun::Build);
    assert_eq!(after_compiling(Some(true)), (Slot::Reusable, None));
    assert_eq!(after_compiling(Some(false)), (Slot::Never, None));
    assert_eq!(
        after_compiling(None),
        (Slot::Never, Some(QueryRun::Build))
    );
}

#[test]
fn keeping_a_statement_again_holds_no_more() {
    let mut compiled = Compiled::fresh();
    compiled.set_limit(2);
    compiled.keep(1, b"a", 1);
    compiled.keep(1, b"a", 2);
    assert_eq!(compiled.held(), 1);
    compiled.keep(1, b"b", 3);
    assert_eq!(compiled.held(), 2);
    compiled.keep(1, b"b", 4);
    assert_eq!(compiled.held(), 1);
    assert_eq!(compiled.lookup(false, true, 1, b"b"), Lookup::Held(4));
}

#[test]
fn columns_are_called_by_names_that_are_text() {
    assert_eq!(
        column_names(&[b"a".to_vec(), b"\xff".to_vec()]),
        vec![b"a".to_vec(), "\u{fffd}".as_bytes().to_vec()]
    );
}
