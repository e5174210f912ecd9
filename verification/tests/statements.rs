//! What statements are compiled to, and how they are described.

use std::collections::HashMap;

use inillucent_engine::explain::{
    first_word, join, opcode_name, program_of, program_rows, query_plan_rows, step_of,
};
use inillucent_engine::inspect::{
    dbpage_row, dbstat_row, dbstat_rows, next_leaf, Chain, LeafFacts, DBPAGE_COLUMNS,
    DBSTAT_COLUMNS,
};
use inillucent_engine::introspect::{
    bytecode_rows, completion_rows, every_column, every_object, scan_inside, statement_texts,
    stmt_row, tables_used_rows, BYTECODE_COLUMNS, COMPLETION_COLUMNS, COMPLETION_HIDDEN,
    STMT_COLUMNS, TABLES_USED_COLUMNS,
};
use inillucent_engine::plans::Compiled;
use inillucent_engine::refusals::Refusal;
use inillucent_engine::schema::{
    Affinity, ColumnInfo, ObjectKind, Recorded, SchemaEntry, TableInfo, TableKind, TreeStats,
};
use inillucent_engine::sessions::{Attached, SessionState};
use inillucent_engine::statements::{
    apply_compiled, collect_sources, compile, delete_from_module, describe_cached,
    describe_statement, explained, is_the_schema_table, keys_plan, plan, refuse_schema_write,
    scan_instead, shadow_write, source_word, statement_shape, statement_tables, timed_parts,
    writes_of, writes_something, AccessPath, Action, Bound, BoundKind, Explained, Folding, Form,
    KeysQuery, Outcome, Query, SourceWord, Statement,
};
use inillucent_engine::transactions::Writing;
use inillucent_engine::values::{same_row, OwnedDatum};

fn bound(kind: BoundKind, table: &str) -> Bound {
    Bound {
        kind,
        table: table.as_bytes().to_vec(),
        folded: table.to_ascii_lowercase().into_bytes(),
        table_kind: TableKind::Table,
        from_query: false,
        holds_query: false,
        view_rows: false,
        joined: false,
        returning: false,
    }
}

fn number(value: i64) -> OwnedDatum {
    OwnedDatum::Int(value)
}

fn text(word: &str) -> OwnedDatum {
    OwnedDatum::Text(word.as_bytes().to_vec())
}

fn entry(name: &str, root: u32) -> Recorded {
    Recorded {
        rowid: 1,
        root,
        entry: SchemaEntry {
            kind: ObjectKind::Table,
            name: name.as_bytes().to_vec(),
            table: name.as_bytes().to_vec(),
            root: 1,
            sql: Vec::new(),
            stats: TreeStats {
                first_leaf: 0,
                leaf_count: 0,
                row_count: 0,
            },
            tree_id: 1,
        },
    }
}

#[test]
fn an_outcome_starts_with_nothing() {
    assert!(Outcome::empty().rows.is_empty());
    assert_eq!(Outcome::changed(4).changes, 4);
}

#[test]
fn a_statement_is_compiled_by_what_it_is() {
    assert_eq!(compile(&bound(BoundKind::Select, "")), Form::Select);
    assert_eq!(compile(&bound(BoundKind::Directive, "")), Form::Ddl);
    assert_eq!(compile(&bound(BoundKind::Empty, "")), Form::Nothing);
    assert_eq!(
        compile(&bound(BoundKind::Insert, "t")),
        Form::Insert(false, false)
    );
    assert_eq!(
        compile(&bound(BoundKind::Insert, "sqlite_schema")),
        Form::SchemaInsert
    );
    let module = |kind| Bound {
        table_kind: TableKind::Virtual,
        ..bound(kind, "docs")
    };
    assert_eq!(
        compile(&module(BoundKind::Insert)),
        Form::VirtualInsert
    );
    assert_eq!(
        compile(&module(BoundKind::Update)),
        Form::VirtualUpdate
    );
    assert_eq!(
        compile(&module(BoundKind::Delete)),
        Form::VirtualDelete
    );
    let source = Bound {
        from_query: true,
        holds_query: true,
        ..bound(BoundKind::Insert, "t")
    };
    assert_eq!(compile(&source), Form::Insert(true, false));
    let joined = Bound {
        joined: true,
        returning: true,
        ..bound(BoundKind::Update, "t")
    };
    assert_eq!(
        compile(&joined),
        Form::Update(KeysQuery::Joined, false, true)
    );
    let view = Bound {
        view_rows: true,
        ..bound(BoundKind::Delete, "v")
    };
    assert_eq!(compile(&view), Form::Delete(KeysQuery::ViewRows));
}

#[test]
fn a_keys_query_needs_its_tables_layout() {
    assert!(keys_plan(KeysQuery::Table, true).is_ok());
    assert!(matches!(
        keys_plan(KeysQuery::Table, false),
        Err(Refusal::NoLayout)
    ));
    assert!(matches!(
        keys_plan(KeysQuery::Joined, false),
        Err(Refusal::NoLayout)
    ));
    assert!(keys_plan(KeysQuery::ViewRows, false).is_ok());
}

#[test]
fn a_write_scans_where_it_may_not_use_an_index() {
    let mut paths = vec![AccessPath::Planned(7), AccessPath::Planned(8)];
    assert!(!scan_instead(&mut paths, 5, true));
    assert_eq!(paths[0], AccessPath::Planned(7));
    assert!(scan_instead(&mut paths, 5, false));
    assert_eq!(
        paths,
        vec![AccessPath::TableScan(5), AccessPath::TableScan(5)]
    );
}

#[test]
fn statements_are_called_what_they_are() {
    assert_eq!(explained(BoundKind::Select), Explained::Plan);
    assert_eq!(explained(BoundKind::Delete), Explained::Keys);
    assert_eq!(explained(BoundKind::Insert), Explained::Words);
    assert_eq!(describe_statement(BoundKind::Update), "an update");
    assert_eq!(describe_cached(Form::Select), None);
    assert_eq!(
        describe_cached(Form::SchemaInsert),
        Some("an insert into sqlite_schema")
    );
    assert_eq!(describe_cached(Form::Program), Some("a program listing"));
}

#[test]
fn a_connection_that_only_reads_refuses_what_writes() {
    assert!(writes_of(Form::Ddl));
    assert!(!writes_of(Form::Select));
    assert!(writes_something(Form::VirtualDelete, "DELETE FROM docs"));
    assert!(writes_something(Form::Ddl, "  create table t(a)"));
    assert!(!writes_something(Form::Ddl, "PRAGMA user_version"));
    assert!(!writes_something(Form::Select, "SELECT 1"));
    assert!(matches!(
        apply_compiled(Form::Delete(KeysQuery::Table), "DELETE FROM t", true),
        Err(Refusal::ReadOnly)
    ));
    assert!(matches!(
        apply_compiled(Form::Delete(KeysQuery::Table), "DELETE FROM t", false),
        Ok(Action::Write(true, Folding::Returning))
    ));
    assert!(matches!(
        apply_compiled(Form::Select, "SELECT 1", true),
        Ok(Action::Query)
    ));
    assert!(matches!(
        apply_compiled(Form::Update(KeysQuery::Table, false, true), "UPDATE", false),
        Ok(Action::Write(true, Folding::Assignments))
    ));
}

#[test]
fn a_timed_run_has_a_query_and_a_write() {
    assert_eq!(timed_parts(Form::Select), (false, Action::Query));
    assert_eq!(
        timed_parts(Form::Insert(true, false)),
        (true, Action::Write(true, Folding::Nothing))
    );
    assert_eq!(timed_parts(Form::QueryPlan), (false, Action::Nothing));
}

#[test]
fn the_catalog_is_written_only_when_it_may_be() {
    assert!(is_the_schema_table(b"sqlite_master"));
    assert!(!is_the_schema_table(b"t"));
    let insert = bound(BoundKind::Insert, "sqlite_schema");
    let delete = bound(BoundKind::Delete, "sqlite_schema");
    assert!(matches!(
        refuse_schema_write(&insert, false),
        Err(Refusal::SchemaNotWritable)
    ));
    assert!(refuse_schema_write(&insert, true).is_ok());
    assert!(matches!(
        refuse_schema_write(&delete, true),
        Err(Refusal::SchemaInsertOnly)
    ));
    assert!(refuse_schema_write(&bound(BoundKind::Delete, "t"), false).is_ok());
    assert!(shadow_write(&insert, true, true));
    assert!(!shadow_write(&insert, false, true));
    assert!(!shadow_write(&bound(BoundKind::Select, "t"), true, true));
}

fn query(sources: &[(&str, TableKind)], inner: Vec<Query>) -> Query {
    Query {
        sources: sources
            .iter()
            .map(|(name, kind)| (*kind, name.as_bytes().to_vec()))
            .collect(),
        inner,
    }
}

#[test]
fn a_statement_uses_every_table_once() {
    let inner = query(
        &[("t", TableKind::Table), ("u", TableKind::Table)],
        Vec::new(),
    );
    let outer = query(
        &[("v", TableKind::View), ("t", TableKind::Table)],
        vec![inner],
    );
    let mut into = Vec::new();
    collect_sources(&outer, &mut into);
    assert_eq!(into.len(), 4);
    assert_eq!(
        statement_tables(&[outer], Some(b"w")),
        vec![
            (SourceWord::Table, b"w".to_vec()),
            (SourceWord::View, b"v".to_vec()),
            (SourceWord::Table, b"t".to_vec()),
            (SourceWord::Table, b"u".to_vec()),
        ]
    );
    assert_eq!(source_word(TableKind::Virtual), SourceWord::Table);
}

#[test]
fn only_a_query_is_planned() {
    assert!(plan(BoundKind::Select, b"SELECT 1").is_ok());
    assert!(matches!(
        plan(BoundKind::Insert, b"INSERT"),
        Err(Refusal::NotReadOnly(sql)) if sql == b"INSERT".to_vec()
    ));
    assert_eq!(statement_shape(Some(3), Some(false)), (3, true));
    assert_eq!(statement_shape(None, Some(true)), (0, false));
    assert_eq!(statement_shape(None, None), (0, true));
}

#[test]
fn a_statement_is_stale_once_the_schema_moved() {
    let mut statement = Statement {
        plan: 1,
        generation: 4,
    };
    assert!(!statement.is_stale(4));
    assert!(statement.is_stale(5));
    statement.refresh(2, 5);
    assert!(!statement.is_stale(5));
    assert_eq!(statement.plan, 2);
}

#[test]
fn a_module_is_told_the_rowids_that_were_found() {
    let rowids = delete_from_module(&[vec![number(4), number(9)], Vec::new(), vec![number(5)]]);
    assert!(same_row(&rowids, &[number(4), number(5)]));
}

#[test]
fn keys_are_settled_once_at_a_time() {
    let mut writing = Writing::starting_at(1);
    assert!(writing.start_settling());
    assert!(!writing.start_settling());
    writing.end_settling();
    assert!(writing.start_settling());
}

#[test]
fn an_opcode_is_a_word_with_a_capital() {
    assert_eq!(opcode_name("SCAN"), "Scan");
    assert_eq!(opcode_name("use"), "Use");
    assert_eq!(opcode_name(""), "");
    assert_eq!(opcode_name("ßÄ"), "SSä");
    assert_eq!(join(&["a".to_string(), "bc".to_string()]), "abc");
}

#[test]
fn a_listing_has_a_step_for_each_line() {
    assert_eq!(first_word("|--SCAN t"), (3, 7));
    let step = step_of("`--SEARCH t USING i", 1, "Search".to_string());
    assert_eq!(step.argument, "t USING i");
    assert_eq!(step.comment, "SEARCH t USING i");
    assert_eq!((step.p1, step.p2), (1, 3));
    let program = program_of(&["|--SCAN t".to_string(), "`--USE".to_string()]);
    let steps: Vec<(&str, i64, i64, &str, &str)> = program
        .iter()
        .map(|step| {
            (
                step.opcode.as_str(),
                step.p1,
                step.p2,
                step.argument.as_str(),
                step.comment.as_str(),
            )
        })
        .collect();
    assert_eq!(
        steps,
        vec![
            ("Init", 0, 1, "", "Start at 1"),
            ("Scan", 0, 2, "t", "SCAN t"),
            ("Use", 1, 3, "", "USE"),
            ("Halt", 0, 0, "", ""),
        ]
    );
    let outcome = program_rows(&program);
    assert_eq!(outcome.names[5], b"p4".to_vec());
    assert!(same_row(
        &outcome.rows[1],
        &[
            number(1),
            text("Scan"),
            number(0),
            number(2),
            number(0),
            text("t"),
            number(0),
            text("SCAN t"),
        ]
    ));
    let read = bytecode_rows(&program);
    assert_eq!(read[3].len(), BYTECODE_COLUMNS.len());
    assert!(matches!(read[3][8], OwnedDatum::Null));
}

#[test]
fn a_plan_is_described_line_by_line() {
    let outcome = query_plan_rows(&["SCAN t".to_string()]);
    assert_eq!(outcome.names[3], b"detail".to_vec());
    assert!(same_row(
        &outcome.rows[0],
        &[number(0), number(0), number(0), text("SCAN t")]
    ));
}

#[test]
fn the_tables_a_statement_uses_are_rows() {
    let rows = tables_used_rows(
        &[
            (SourceWord::Table, b"t".to_vec()),
            (SourceWord::View, b"v".to_vec()),
        ],
        Some(b"t"),
    );
    assert_eq!(rows[0].len(), TABLES_USED_COLUMNS.len());
    assert!(same_row(
        &rows[0],
        &[
            text("table"),
            text("main"),
            text("t"),
            number(1),
            OwnedDatum::Null
        ]
    ));
    assert!(same_row(
        &rows[1],
        &[
            text("view"),
            text("main"),
            text("v"),
            number(0),
            OwnedDatum::Null
        ]
    ));
}

#[test]
fn held_statements_are_listed_in_order() {
    let mut compiled = Compiled::fresh();
    compiled.keep(2, b"b", 1);
    compiled.keep(1, b"c", 2);
    compiled.keep(1, b"a", 3);
    assert_eq!(
        statement_texts(&compiled),
        vec![b"a".to_vec(), b"b".to_vec(), b"c".to_vec()]
    );
    let row = stmt_row(b"a", 2, true);
    assert_eq!(row.len(), STMT_COLUMNS.len());
    assert!(same_row(&row[..4], &[text("a"), number(2), number(1), number(0)]));
}

#[test]
fn a_word_is_completed_in_four_phases() {
    let names = |words: &[&str]| -> Vec<Vec<u8>> {
        words.iter().map(|word| word.as_bytes().to_vec()).collect()
    };
    let rows = completion_rows(
        &names(&["SELECT", "TABLE"]),
        &names(&["main"]),
        &names(&["Seen"]),
        &names(&["second"]),
        b"Se",
    );
    assert_eq!(rows.len(), 3);
    assert_eq!(
        rows[0].len(),
        COMPLETION_COLUMNS.len() + COMPLETION_HIDDEN.len()
    );
    assert!(same_row(
        &rows[0],
        &[text("SELECT"), text("Se"), OwnedDatum::Null, number(1)]
    ));
    assert!(same_row(
        &rows[1],
        &[text("Seen"), text("Se"), OwnedDatum::Null, number(8)]
    ));
    assert!(same_row(
        &rows[2],
        &[text("second"), text("Se"), OwnedDatum::Null, number(9)]
    ));
    let all = completion_rows(
        &names(&["SELECT"]),
        &names(&["main"]),
        &names(&["t"]),
        &[],
        b"",
    );
    assert_eq!(all.len(), 3);
    assert!(matches!(all[1][3], OwnedDatum::Int(7)));
}

#[test]
fn every_object_of_every_schema_is_offered() {
    let mut state = SessionState::fresh();
    state.attached.push(Attached {
        name: b"aux".to_vec(),
        path: None,
        in_doubt: false,
        entries: vec![entry("far", 7)],
        next_root: 2,
        handles: HashMap::new(),
        catalog_handle: 0xC000_0000,
        session: None,
    });
    let objects = every_object(&state, &[entry("near", 5)]);
    assert_eq!(objects, vec![b"near".to_vec(), b"far".to_vec()]);
    let table = TableInfo {
        name: b"Near".to_vec(),
        folded: b"near".to_vec(),
        kind: TableKind::Table,
        root: 5,
        without_rowid: false,
        rowid_alias: None,
        columns: vec![ColumnInfo {
            name: b"a".to_vec(),
            affinity: Affinity::Text,
            collation: Vec::new(),
            primary_key_position: None,
            generated: false,
            stored: false,
        }],
        indexes: Vec::new(),
        foreign_keys: Vec::new(),
        triggers: Vec::new(),
        create_sql: Vec::new(),
    };
    assert_eq!(every_column(&[table], &objects), vec![b"a".to_vec()]);
}

#[test]
fn the_connections_own_tables_are_not_read_inside_a_write() {
    assert!(scan_inside(b"docs", b"docs").is_ok());
    for name in ["pragma_table_info", "bytecode", "tables_used", "sqlite_stmt"] {
        assert!(matches!(
            scan_inside(b"Named", name.as_bytes()),
            Err(Refusal::InsideWrite(told)) if told == b"Named".to_vec()
        ));
    }
    assert!(scan_inside(b"completion", b"completion").is_err());
}

fn leaf(page: u64, next: u64) -> LeafFacts {
    LeafFacts {
        page,
        rows: 6,
        deltas: 4,
        heap_start: 96,
        next,
    }
}

#[test]
fn a_leaf_is_described_by_how_full_it_is() {
    let row = dbstat_row(b"t", 12, leaf(7, 0), 4096);
    assert_eq!(row.len(), DBSTAT_COLUMNS.len());
    assert!(same_row(
        &row,
        &[
            text("t"),
            text("/0012/"),
            number(7),
            text("leaf"),
            number(10),
            number(4000),
            number(96),
            number(400),
            number(7 * 4096),
            number(4096),
        ]
    ));
    let empty = LeafFacts {
        rows: 0,
        deltas: 0,
        heap_start: 5000,
        ..leaf(1, 0)
    };
    let none = dbstat_row(b"t", 12345, empty, 4096);
    assert!(same_row(&none[1..2], &[text("/12345/")]));
    assert!(same_row(
        &none[4..8],
        &[number(0), number(0), number(4096), number(0)]
    ));
}

#[test]
fn a_walk_ends_though_the_chain_does_not() {
    assert_eq!(next_leaf(leaf(7, 8), 0, 9), Some((8, 1)));
    assert_eq!(next_leaf(leaf(7, 0), 0, 9), None);
    assert_eq!(next_leaf(leaf(7, 7), 0, 9), None);
    assert_eq!(next_leaf(leaf(7, 8), 9, 9), None);
    let mut at = (7u64, 0u64);
    while let Some(next) = next_leaf(leaf(at.0, 15 - at.0), at.1, 9) {
        at = next;
    }
    assert_eq!(at.1, 9);
}

#[test]
fn the_leaves_of_one_object_stand_together() {
    let chain = |root: u32, pages: &[u64]| Chain {
        root,
        page_size: 4096,
        leaves: pages.iter().map(|page| leaf(*page, 0)).collect(),
    };
    let rows = dbstat_rows(
        &[entry("b", 6), entry("v", 0), entry("gone", 9), entry("a", 5)],
        &[chain(5, &[1]), chain(6, &[2, 3])],
    );
    let named: Vec<String> = rows
        .iter()
        .map(|row| format!("{:?}", &row[0..3]))
        .collect();
    let expected: Vec<String> = [("b", "/0000/", 2), ("b", "/0001/", 3), ("a", "/0000/", 1)]
        .iter()
        .map(|(name, path, page)| format!("{:?}", [text(name), text(path), number(*page)]))
        .collect();
    assert_eq!(named, expected);
}

#[test]
fn a_page_is_its_number_and_its_bytes() {
    let row = dbpage_row(3, &[1, 2]);
    assert_eq!(row.len(), DBPAGE_COLUMNS.len());
    assert!(same_row(&row, &[number(3), OwnedDatum::Blob(vec![1, 2])]));
}
