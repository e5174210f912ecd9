//! What is done with each pragma.

use inillucent_engine::pragma::{
    action_name, collation_name, file_of, is_sqlite_pragma, list_of, listed_pragmas, module_list,
    named_integer, pragma, pragma_fixed_number, pragma_function_list, registered_flags,
    reported_value, rows_pragma, setting, word_row, Disposition, FunctionEntry, FunctionKind,
    ReferentialAction, RowsPragma, Setting, Spelling, PRAGMA_FUNCTIONS, SQLITE_PRAGMAS,
};
use inillucent_engine::refusals::Refusal;
use inillucent_engine::sessions::{SessionState, MAIN};
use inillucent_engine::values::{same_row, OwnedDatum};

fn text(word: &str) -> OwnedDatum {
    OwnedDatum::Text(word.as_bytes().to_vec())
}

fn number(value: i64) -> OwnedDatum {
    OwnedDatum::Int(value)
}

#[test]
fn every_known_pragma_is_answered_and_the_rest_are_silent() {
    assert_eq!(SQLITE_PRAGMAS.len(), 67);
    for name in SQLITE_PRAGMAS {
        assert!(is_sqlite_pragma(name.as_bytes()));
        assert!(
            !matches!(
                pragma(name.as_bytes()),
                Disposition::Refused | Disposition::Unknown
            ),
            "{}",
            name
        );
    }
    assert!(matches!(pragma(b"nonesuch"), Disposition::Unknown));
    assert!(is_sqlite_pragma(b"TABLE_INFO"));
    assert!(!is_sqlite_pragma(b"nonesuch"));
}

#[test]
fn a_pragma_is_rows_a_directive_or_one_value() {
    assert!(matches!(
        pragma(b"table_info"),
        Disposition::Rows(RowsPragma::TableInfo)
    ));
    assert!(matches!(
        pragma(b"default_cache_size"),
        Disposition::Directive(Setting::CacheSize)
    ));
    assert!(matches!(
        pragma(b"short_column_names"),
        Disposition::Reported(1, Spelling::On)
    ));
    assert!(matches!(rows_pragma(b"user_version"), None));
    assert!(matches!(
        setting(b"optimize"),
        Some(Setting::Silent)
    ));
    assert!(matches!(
        reported_value(b"journal_size_limit"),
        Some((-1, Spelling::Unlimited))
    ));
    for name in PRAGMA_FUNCTIONS {
        assert!(rows_pragma(&name.as_bytes()["pragma_".len()..]).is_some());
    }
}

#[test]
fn one_machine_lists_one_pragma_more() {
    assert_eq!(listed_pragmas(true).len(), 67);
    let fewer = listed_pragmas(false);
    assert_eq!(fewer.len(), 66);
    assert!(!fewer.contains(&"data_store_directory"));
}

#[test]
fn an_answer_is_named_after_its_pragma() {
    let word = word_row(b"journal_mode", b"delete");
    assert_eq!(word.names, vec![b"journal_mode".to_vec()]);
    assert!(same_row(&word.rows[0], &[text("delete")]));
    let named = named_integer(b"page_size", 4096);
    assert_eq!(named.names, vec![b"page_size".to_vec()]);
    assert!(same_row(&named.rows[0], &[number(4096)]));
    let list = list_of(b"name", &[b"a".to_vec(), b"b".to_vec()]);
    assert_eq!(list.rows.len(), 2);
    assert!(same_row(&list.rows[1], &[text("b")]));
}

#[test]
fn a_pragma_of_one_value_takes_no_other() {
    let read = pragma_fixed_number(None, b"threads", 0, Spelling::Off)
        .ok()
        .unwrap();
    assert!(same_row(&read.rows[0], &[number(0)]));
    for same in ["0", " OFF ", "false", "No"] {
        let set = pragma_fixed_number(Some(same), b"threads", 0, Spelling::Off)
            .ok()
            .unwrap();
        assert!(set.rows.is_empty());
    }
    assert!(pragma_fixed_number(Some("yes"), b"x", 1, Spelling::On).is_ok());
    assert!(pragma_fixed_number(Some("-1"), b"x", -1, Spelling::Unlimited).is_ok());
    assert!(matches!(
        pragma_fixed_number(Some(" EIGHT "), b"threads", 0, Spelling::Off),
        Err(Refusal::FixedNumber(name, 0, given))
            if name == b"threads".to_vec() && given == b"eight".to_vec()
    ));
}

#[test]
fn a_pragma_is_about_the_file_it_names() {
    let state = SessionState::fresh();
    assert!(matches!(file_of(&state, None), Ok(MAIN)));
    assert!(matches!(
        file_of(&state, Some(2)),
        Err(Refusal::PragmaNotAttached)
    ));
}

#[test]
fn actions_and_collations_have_their_spellings() {
    assert_eq!(action_name(ReferentialAction::NoAction), "NO ACTION");
    assert_eq!(action_name(ReferentialAction::Restrict), "RESTRICT");
    assert_eq!(action_name(ReferentialAction::SetNull), "SET NULL");
    assert_eq!(action_name(ReferentialAction::SetDefault), "SET DEFAULT");
    assert_eq!(action_name(ReferentialAction::Cascade), "CASCADE");
    assert_eq!(collation_name(b""), b"BINARY".to_vec());
    assert_eq!(collation_name(b"nocase"), b"NOCASE".to_vec());
    assert_eq!(collation_name(b"rtrim"), b"RTRIM".to_vec());
    assert_eq!(collation_name(b"german"), b"german".to_vec());
}

fn function(name: &str, kind: FunctionKind, arity: i64, flags: i64) -> FunctionEntry {
    FunctionEntry {
        name: name.as_bytes().to_vec(),
        builtin: true,
        kind,
        arity,
        flags,
    }
}

#[test]
fn a_registered_function_takes_its_namesakes_place() {
    let outcome = pragma_function_list(
        vec![
            function("Abs", FunctionKind::Scalar, 1, 8),
            function("sum", FunctionKind::Aggregate, 1, 8),
        ],
        &[
            function("ABS", FunctionKind::Scalar, 1, 2),
            function("abs", FunctionKind::Scalar, 2, 0),
        ],
    );
    assert_eq!(outcome.names[1], b"builtin".to_vec());
    assert_eq!(outcome.rows.len(), 3);
    assert!(same_row(
        &outcome.rows[0],
        &[text("abs"), number(0), text("s"), text("utf8"), number(1), number(2)]
    ));
    assert!(same_row(
        &outcome.rows[1],
        &[text("sum"), number(1), text("a"), text("utf8"), number(1), number(8)]
    ));
    assert!(same_row(
        &outcome.rows[2],
        &[text("abs"), number(0), text("s"), text("utf8"), number(2), number(0)]
    ));
    assert_eq!(registered_flags(true, false, 4, 8), 4);
    assert_eq!(registered_flags(true, true, 4, 8), 12);
    assert_eq!(registered_flags(false, false, 4, 8), 0);
}

#[test]
fn modules_are_listed_in_order_and_once() {
    let names = module_list(&[b"fts5".to_vec(), b"dbstat".to_vec(), b"aaa".to_vec()]);
    let words: Vec<&str> = names
        .iter()
        .map(|name| std::str::from_utf8(name).unwrap())
        .collect();
    assert_eq!(
        words,
        vec![
            "aaa",
            "bytecode",
            "completion",
            "dbstat",
            "fts5",
            "sqlite_dbpage",
            "sqlite_stmt",
            "tables_used",
        ]
    );
}
