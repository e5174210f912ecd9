//! A connection as a whole.

use std::collections::HashMap;

use inillucent_engine::database::{catalog_name, ImportedDatabase, RolledBack, Schema, Storage};
use inillucent_engine::import::schema_view_layout;
use inillucent_engine::integrity::{CheckDepth, CheckStep};
use inillucent_engine::loading::LoadedSchema;
use inillucent_engine::locks::JournalMode;
use inillucent_engine::plans::Lookup;
use inillucent_engine::schema::{
    ObjectKind, Recorded, SchemaEntry, TableInfo, TableKind, TreeStats,
};
use inillucent_engine::sessions::{MAIN, TEMP};
use inillucent_engine::statements::{Bound, BoundKind};

fn table(name: &str, root: u32) -> TableInfo {
    TableInfo {
        name: name.as_bytes().to_vec(),
        folded: name.to_ascii_lowercase().into_bytes(),
        kind: TableKind::Table,
        root,
        without_rowid: false,
        rowid_alias: None,
        columns: Vec::new(),
        indexes: Vec::new(),
        foreign_keys: Vec::new(),
        triggers: Vec::new(),
        create_sql: Vec::new(),
    }
}

fn entry(name: &str, tree_id: u64) -> Recorded {
    Recorded {
        rowid: 1,
        root: tree_id as u32,
        entry: SchemaEntry {
            kind: ObjectKind::Table,
            name: name.as_bytes().to_vec(),
            table: name.as_bytes().to_vec(),
            root: 1,
            sql: Vec::new(),
            stats: TreeStats {
                first_leaf: 0,
                leaf_count: 0,
                row_count: 0,
            },
            tree_id,
        },
    }
}

fn storage() -> Storage {
    Storage {
        page_size: 4096,
        frames: 64,
        path: b"/db".to_vec(),
        in_doubt: false,
        read_only: false,
    }
}

fn database() -> ImportedDatabase {
    let mut trees = HashMap::new();
    trees.insert(9u32, 40u64);
    trees.insert(5u32, 30u64);
    let mut covering = HashMap::new();
    covering.insert(5u32, vec![9u32]);
    let mut layouts = HashMap::new();
    layouts.insert(5u32, schema_view_layout(5));
    let schema = Schema::imported(
        vec![entry("T", 5)],
        vec![table("T", 5)],
        layouts,
        covering,
        trees,
        vec![b"lost".to_vec()],
    );
    ImportedDatabase::starting(storage(), schema, 6, false, 11)
}

#[test]
fn a_connection_knows_its_file_and_its_trees() {
    let db = database();
    assert_eq!(db.file(), &b"/db".to_vec());
    assert_eq!(db.page_size(), 4096);
    assert_eq!(db.frames(), 64);
    assert_eq!(db.skipped(), &vec![b"lost".to_vec()]);
    assert_eq!(db.schema_generation(), 0);
    assert_eq!(db.session(), 0);
    assert_eq!(db.tree_identifiers(), vec![(b"T".to_vec(), 5)]);
    assert_eq!(db.roots(), vec![5, 9]);
    assert_eq!(db.table_root(b"T"), Some(5));
    assert_eq!(db.table_root(b"u"), None);
    assert_eq!(db.candidates(5), vec![9]);
    assert_eq!(db.candidates(6), Vec::<u32>::new());
    assert_eq!(db.entries_of(MAIN).len(), 1);
    assert_eq!(db.entries_of(2).len(), 0);
    assert_eq!(db.path_of(MAIN), Some(&b"/db".to_vec()));
    assert_eq!(db.path_of(TEMP), None);
    assert_eq!(db.build_stage_nanos().sort, 0);
    assert_eq!(
        catalog_name(&db.schema.tables, 5),
        Some(b"T".to_vec())
    );
    assert_eq!(catalog_name(&db.schema.tables, 6), None);
}

#[test]
fn names_that_are_not_text_are_shown_with_a_replacement() {
    let mut db = database();
    db.schema.tables[0].name = b"caf\xe9".to_vec();
    db.schema.entries[0].entry.name = b"caf\xe9".to_vec();
    let shown = "caf\u{fffd}".as_bytes().to_vec();
    assert_eq!(catalog_name(&db.schema.tables, 5), Some(shown.clone()));
    assert_eq!(db.table_root(&shown), Some(5));
    assert_eq!(db.table_root(b"caf\xe9"), None);
    assert_eq!(db.tree_identifiers(), vec![(shown, 5)]);
}

#[test]
fn a_file_left_with_a_log_keeps_one() {
    let schema = Schema::loaded(
        LoadedSchema {
            entries: Vec::new(),
            skipped: Vec::new(),
            attach: Vec::new(),
            covering: HashMap::new(),
            highest_identifier: 0x8000_0004,
        },
        HashMap::new(),
        HashMap::new(),
    );
    assert_eq!(schema.numbering.next_root, 0x8000_0005);
    let db = ImportedDatabase::starting(storage(), schema, 6, true, 11);
    assert_eq!(db.pragmas.journal_mode, JournalMode::Wal);
    assert_eq!(db.writing.next_txn, 7);
    assert_eq!(
        database().pragmas.journal_mode,
        JournalMode::Delete
    );
}

#[test]
fn a_check_reads_every_tree() {
    let db = database();
    let quick = db.check_trees_to(CheckDepth::Quick);
    assert_eq!(quick.len(), 4);
    assert_eq!(quick[0], CheckStep::PageCount(0));
    assert!(quick.contains(&CheckStep::Tree(5)));
    assert!(quick.contains(&CheckStep::Tree(9)));
    assert_eq!(quick[3], CheckStep::Pages);
    assert_eq!(db.check_trees().last(), Some(&CheckStep::Indexes));
}

#[test]
fn a_session_has_its_own_temporary_database() {
    let mut db = database();
    assert_eq!(db.temp_wanted(), Some(b"/temp/0.db".to_vec()));
    assert!(db.use_session(3));
    assert!(!db.use_session(3));
    assert_eq!(db.session(), 3);
    assert_eq!(db.temp_wanted(), Some(b"/temp/3.db".to_vec()));
    assert_eq!(db.total_changes(), 0);
    db.counters.record_changes(2, 2);
    assert_eq!(db.changes(), 2);
    assert_eq!(db.total_changes(), 2);
    assert!(db.use_session(4));
    assert_eq!(db.total_changes(), 0);
    assert_eq!(db.last_insert_rowid(), 0);
}

#[test]
fn a_batch_ends_in_a_commit_or_a_rollback() {
    let mut db = database();
    assert!(db.autocommit());
    assert!(db.begin_batch());
    assert!(!db.autocommit());
    db.writing.touched = 0b1;
    db.pragmas.defer_foreign_keys = true;
    db.session_state.modules_begun = true;
    assert_eq!(db.commit_batch(), Some((7, 0b1)));
    assert!(!db.pragmas.defer_foreign_keys);
    assert!(!db.session_state.modules_begun);
    assert_eq!(db.commit_across(0b1), vec![0]);
    assert_eq!(db.decided_over(), 1);
    assert!(db.begin_batch());
    db.writing.touched = 0b1;
    db.start_rollback();
    let (schemas, ended) = db.rollback(true, true);
    assert_eq!(schemas, vec![0]);
    assert!(matches!(ended, RolledBack::Done));
    assert!(matches!(db.rollback(false, false).1, RolledBack::NotUndone));
    assert!(matches!(db.rollback(true, false).1, RolledBack::NotTold));
}

#[test]
fn what_could_change_a_plan_forgets_them() {
    let kept = || {
        let mut db = database();
        let key = db.plan_key();
        db.compiled.keep(key, b"SELECT 1", 1);
        assert_eq!(db.cached_statements(), 1);
        assert_eq!(db.cached_plan_count(), 1);
        db
    };
    let mut db = kept();
    db.register_function();
    assert_eq!(db.cached_statements(), 0);
    let mut db = kept();
    assert!(!db.remove_function(false));
    assert_eq!(db.cached_statements(), 1);
    assert!(db.remove_function(true));
    assert_eq!(db.cached_statements(), 0);
    let mut db = kept();
    db.create_collation(b"german");
    assert_eq!(db.cached_statements(), 0);
    assert_eq!(db.session_state.collations, vec![b"GERMAN".to_vec()]);
    let mut db = kept();
    db.set_authorizer(true);
    assert_eq!(db.cached_statements(), 0);
    assert!(db.session_state.restricted);
    let mut db = kept();
    db.clear_statement_cache();
    assert_eq!(db.cached_statements(), 0);
    let mut db = kept();
    db.set_statement_cache_limit(0);
    assert_eq!(db.statement_cache_limit(), 0);
    assert_eq!(db.cached_statements(), 0);
    assert_eq!(db.compiled_statement_count(), 0);
}

#[test]
fn two_settings_of_the_levers_have_two_plans() {
    let mut db = database();
    let key = db.plan_key();
    db.compiled.keep(key, b"SELECT 1", 1);
    db.disable_optimizations(4);
    assert_eq!(db.levers(), 4);
    let other = db.plan_key();
    assert_eq!(
        db.compiled.lookup(false, true, other, b"SELECT 1"),
        Lookup::Keep
    );
    db.disable_optimizations(0);
    let again = db.plan_key();
    assert_eq!(
        db.compiled.lookup(false, true, again, b"SELECT 1"),
        Lookup::Held(1)
    );
}

#[test]
fn a_defensive_connection_guards_its_modules_tables() {
    let mut db = database();
    let bound = Bound {
        kind: BoundKind::Delete,
        table: b"docs_data".to_vec(),
        folded: b"docs_data".to_vec(),
        table_kind: TableKind::Table,
        from_query: false,
        holds_query: false,
        view_rows: false,
        joined: false,
        returning: false,
    };
    assert!(!db.guards(&bound, true));
    db.set_defensive(true);
    assert!(db.guards(&bound, true));
    assert!(!db.guards(&bound, false));
}
