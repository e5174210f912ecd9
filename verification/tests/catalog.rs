//! Carrying a catalog into a file, and reading one out of it.

use std::collections::{HashMap, HashSet};

use inillucent_engine::import::{
    import_index, import_keyed_table, import_table, index_fields, schema_view_layout, table_fields,
    trees_to_carry, Carried, Declaration,
};
use inillucent_engine::keys::{
    after_pass, check_deferred, check_deferred_foreign_keys, deferred_detail,
    has_cyclic_foreign_keys, has_deferred_foreign_keys, reported_key, sweeps, violation_queries,
    KeyPlace, Sweep,
};
use inillucent_engine::loading::{
    duplicate_entry, give_index, give_trigger, is_kept, is_passed_over, load_schema,
    loaded_tables, tables_by_name, Declared, Stored,
};
use inillucent_engine::reattach::{
    note_missing, offer, offered, reattach_entries, recorded_rows, rejoin_covering, root_of_named,
    shape_of_entry, table_declared, tree_wanted, with_restored, Declares,
};
use inillucent_engine::refusals::{Class, Refusal};
use inillucent_engine::rowshape::{logical_row, source_layout_of, ShapeRefusal};
use inillucent_engine::schema::{
    same_entry, Affinity, ColumnInfo, ColumnSpec, ForeignKeyInfo, IndexColumn, IndexInfo,
    ObjectKind, PhysicalType, Recorded, SchemaEntry, SourceLayout, TableInfo, TableKind,
    TreeShape, TreeStats,
};
use inillucent_engine::sessions::{SessionState, MAIN, TEMP};
use inillucent_engine::values::{same_row, Collation, OwnedDatum};

fn column(name: &str, key: Option<u16>) -> ColumnInfo {
    ColumnInfo {
        name: name.as_bytes().to_vec(),
        affinity: Affinity::Integer,
        collation: Vec::new(),
        primary_key_position: key,
        generated: false,
        stored: false,
    }
}

fn table(name: &str, root: u32) -> TableInfo {
    TableInfo {
        name: name.as_bytes().to_vec(),
        folded: name.to_ascii_lowercase().into_bytes(),
        kind: TableKind::Table,
        root,
        without_rowid: false,
        rowid_alias: None,
        columns: vec![column("a", None)],
        indexes: Vec::new(),
        foreign_keys: Vec::new(),
        triggers: Vec::new(),
        create_sql: format!("CREATE TABLE {}(a)", name).into_bytes(),
    }
}

fn index(name: &str, root: u32) -> IndexInfo {
    IndexInfo {
        name: name.as_bytes().to_vec(),
        folded: name.to_ascii_lowercase().into_bytes(),
        root,
        unique: false,
        columns: vec![IndexColumn {
            column: Some(0),
            collation: Vec::new(),
            descending: false,
            expr_sql: None,
        }],
        partial_sql: None,
    }
}

fn entry(kind: ObjectKind, name: &str, table: &str, tree_id: u64) -> SchemaEntry {
    SchemaEntry {
        kind,
        name: name.as_bytes().to_vec(),
        table: table.as_bytes().to_vec(),
        root: 1,
        sql: b"CREATE".to_vec(),
        stats: TreeStats {
            first_leaf: 0,
            leaf_count: 0,
            row_count: 0,
        },
        tree_id,
    }
}

fn stored(rowid: i64, entry: SchemaEntry, declared: Declared, local: Option<u32>) -> Stored {
    Stored {
        rowid,
        entry,
        declared,
        local,
    }
}

fn built(root: u64) -> (TreeShape, SourceLayout) {
    (
        TreeShape {
            root,
            columns: Vec::new(),
            key_columns: 1,
            first_leaf: root + 1,
            leaf_count: 2,
            row_count: 3,
        },
        schema_view_layout(9),
    )
}

fn number(value: i64) -> OwnedDatum {
    OwnedDatum::Int(value)
}

fn key(id: u64, parent: &str, deferred: bool, cyclic: bool) -> ForeignKeyInfo {
    ForeignKeyInfo {
        id,
        parent_folded: parent.as_bytes().to_vec(),
        deferred,
        cyclic,
    }
}

#[test]
fn a_table_is_built_as_its_records_come() {
    let mut info = table("t", 5);
    info.columns.push(column("b", None));
    assert_eq!(table_fields(&info), 2);
    let tree = import_table(&info, &[vec![number(1), number(10), number(11)]]);
    assert_eq!(tree.tree_id, 5);
    assert_eq!(tree.key_columns, 1);
    assert_eq!(tree.rows.len(), 1);
    assert!(same_row(&tree.rows[0], &[number(1), number(10), number(11)]));
}

#[test]
fn a_keyed_table_is_built_in_key_order() {
    let mut info = table("t", 5);
    info.without_rowid = true;
    info.columns = vec![column("a", Some(1))];
    let tree = import_keyed_table(&info, vec![vec![number(2)], vec![number(1)]])
        .ok()
        .unwrap();
    assert!(same_row(&tree.rows[0], &[number(1)]));
    info.columns = vec![column("a", None)];
    assert!(matches!(
        import_keyed_table(&info, Vec::new()),
        Err(ShapeRefusal::NoPrimaryKey)
    ));
}

#[test]
fn an_imported_table_reads_as_its_source() {
    let mut info = table("t", 5);
    info.without_rowid = true;
    info.columns = vec![column("a", None), column("k", Some(1))];
    let stored = vec![
        vec![number(3), number(30)],
        vec![number(1), number(10)],
        vec![number(2), number(20)],
    ];
    let layout = source_layout_of(&info).ok().unwrap();
    let mut expected: Vec<Vec<i64>> = stored
        .iter()
        .map(|row| integers(&logical_row(&info, &layout, row)))
        .collect();
    let tree = import_keyed_table(&info, stored).ok().unwrap();
    let mut read: Vec<Vec<i64>> = tree
        .rows
        .iter()
        .map(|row| integers(&logical_row(&info, &tree.layout, row)))
        .collect();
    assert_eq!(read, vec![vec![10, 1], vec![20, 2], vec![30, 3]]);
    expected.sort();
    read.sort();
    assert_eq!(read, expected);
}

fn integers(row: &[OwnedDatum]) -> Vec<i64> {
    row.iter()
        .map(|value| match value {
            OwnedDatum::Int(number) => *number,
            _ => 0,
        })
        .collect()
}

#[test]
fn names_that_are_not_text_are_reported_as_they_are_shown() {
    let shown = "\u{fffd}".as_bytes().to_vec();
    let mut unread = entry(ObjectKind::Table, "x", "x", 7);
    unread.name = b"\xff".to_vec();
    let loaded = load_schema(&[stored(1, unread, Declared::Unreadable, Some(7))])
        .ok()
        .unwrap();
    assert_eq!(loaded.skipped, vec![shown.clone()]);
    assert_eq!(
        Refusal::NoSuchSavepoint(b"\xff".to_vec()).message(),
        "no such savepoint: \u{fffd}".as_bytes().to_vec()
    );
    let mut carried = Carried::new();
    let mut info = table("t", 5);
    info.triggers = vec![b"\xff".to_vec()];
    carried.carry_treeless(&[info], &[]);
    assert_eq!(carried.skipped, vec![shown]);
}

#[test]
fn an_index_is_built_in_its_own_order() {
    let info = table("t", 5);
    let mut made = index("i", 6);
    made.columns[0].descending = true;
    let tree = import_index(
        &info,
        &made,
        6,
        vec![vec![number(1), number(1)], vec![number(2), number(2)]],
    );
    assert_eq!(tree.key_columns, 2);
    assert!(same_row(&tree.rows[0], &[number(2), number(2)]));
    assert!(tree.columns[0].descending);
}

#[test]
fn an_index_of_a_keyed_table_ends_in_its_whole_key() {
    let mut info = table("t", 5);
    info.without_rowid = true;
    info.columns = vec![column("a", None), column("k", Some(1)), column("l", Some(2))];
    let made = index("i", 6);
    assert_eq!(index_fields(&info, &made), 3);
    let entries = vec![
        vec![number(1), number(7), number(9)],
        vec![number(1), number(7), number(8)],
        vec![number(1), number(6), number(9)],
    ];
    let tree = import_index(&info, &made, 6, entries);
    assert_eq!(tree.key_columns, 3);
    assert_eq!(tree.columns.len(), 3);
    assert!(same_row(&tree.rows[0], &[number(1), number(6), number(9)]));
    assert!(same_row(&tree.rows[1], &[number(1), number(7), number(8)]));
    assert!(same_row(&tree.rows[2], &[number(1), number(7), number(9)]));
    assert_eq!(index_fields(&table("r", 7), &made), 2);
}

#[test]
fn a_refusal_says_what_is_not_built_and_what_kind_it_is() {
    assert_eq!(
        Refusal::SchemaInsertOnly.unsupported(),
        Some(b"changing a row of sqlite_schema".to_vec())
    );
    assert_eq!(
        Refusal::InsideWrite(b"completion".to_vec()).unsupported(),
        Some(b"reading completion inside a write".to_vec())
    );
    assert_eq!(Refusal::SchemaNotWritable.unsupported(), None);
    assert_eq!(Refusal::CatalogReadBack.class(), Class::Corrupt);
    assert_eq!(Refusal::ReadOnly.class(), Class::ReadOnly);
    assert_eq!(Refusal::ForeignKeyFailed.class(), Class::Constraint);
    assert_eq!(Refusal::RowsUnreadable(Vec::new()).class(), Class::Source);
    assert_eq!(Refusal::SchemaInsertOnly.class(), Class::Misuse);
}

#[test]
fn a_table_is_carried_before_its_indexes_and_what_is_derived_is_not() {
    let mut first = table("t", 5);
    first.indexes = vec![index("i", 6), index("none", 0)];
    let mut module = table("docs", 0);
    module.kind = TableKind::Virtual;
    let shadow = table("docs_data", 7);
    let internal = table("sqlite_other", 8);
    let sequence = table("sqlite_sequence", 9);
    let mut keyed = table("k", 10);
    keyed.without_rowid = true;
    keyed.indexes = vec![index("sqlite_autoindex_k_1", 10)];
    assert_eq!(
        trees_to_carry(&[first, module, shadow, internal, sequence, keyed]),
        vec![(0, None), (0, Some(0)), (4, None), (5, None)]
    );
}

#[test]
fn a_source_is_carried_whole() {
    let mut info = table("T", 5);
    info.indexes = vec![index("I", 6)];
    info.triggers = vec![b"Told".to_vec(), b"Untold".to_vec()];
    let mut view = table("V", 0);
    view.kind = TableKind::View;
    let tables = vec![info, view];
    let declarations = vec![
        Declaration {
            kind: ObjectKind::Index,
            folded: b"i".to_vec(),
            sql: b"CREATE INDEX I".to_vec(),
        },
        Declaration {
            kind: ObjectKind::Trigger,
            folded: b"told".to_vec(),
            sql: b"CREATE TRIGGER Told".to_vec(),
        },
    ];
    let mut carried = Carried::new();
    carried.carry_tables(&tables, &declarations, vec![built(20), built(30)]);
    carried.carry_treeless(&tables, &declarations);
    let names: Vec<Vec<u8>> = carried.entries.iter().map(|held| held.name.clone()).collect();
    assert_eq!(
        names,
        vec![
            b"T".to_vec(),
            b"I".to_vec(),
            b"V".to_vec(),
            b"Told".to_vec()
        ]
    );
    assert_eq!(carried.identifiers, vec![5, 6, 0, 0]);
    assert_eq!(carried.skipped, vec![b"Untold".to_vec()]);
    assert_eq!(carried.covering.get(&5), Some(&vec![6]));
    assert_eq!(carried.entries[1].sql, b"CREATE INDEX I".to_vec());
    assert_eq!(carried.entries[1].root, 30);
    assert_eq!(carried.entries[0].stats.row_count, 3);
    let read_back: Vec<SchemaEntry> = carried.entries.iter().map(duplicate_entry).collect();
    assert!(carried.verify(&read_back).is_ok());
    assert!(matches!(
        carried.verify(&read_back[1..]),
        Err(Refusal::CatalogReadBack)
    ));
    let rows = carried.recorded();
    let numbered: Vec<(i64, u32)> = rows.iter().map(|row| (row.rowid, row.root)).collect();
    assert_eq!(numbered, vec![(1, 5), (2, 6), (3, 0), (4, 0)]);
}

#[test]
fn the_smallest_index_is_offered_first() {
    let mut carried = Carried::new();
    carried.covering.insert(5, vec![6, 7, 8]);
    let mut sizes = HashMap::new();
    sizes.insert(6u32, 90usize);
    sizes.insert(7u32, 10usize);
    carried.smallest_first(&sizes);
    assert_eq!(carried.covering.get(&5), Some(&vec![7, 6, 8]));
}

#[test]
fn the_catalog_is_read_through_its_own_layout() {
    let layout = schema_view_layout(0xFFFF_FFFF);
    assert_eq!(
        layout.slots,
        vec![Some(1), Some(2), Some(3), Some(4), Some(5)]
    );
    assert_eq!(layout.width, 6);
}

#[test]
fn a_catalog_is_loaded_in_passes() {
    let rows = vec![
        stored(
            1,
            entry(ObjectKind::Index, "i", "t", 6),
            Declared::Index(index("i", 0)),
            Some(6),
        ),
        stored(
            2,
            entry(ObjectKind::Table, "t", "t", 5),
            Declared::Table(table("t", 0)),
            Some(5),
        ),
        stored(
            3,
            entry(ObjectKind::Table, "broken", "broken", 7),
            Declared::Unreadable,
            Some(7),
        ),
        stored(
            4,
            entry(ObjectKind::View, "v", "v", 0),
            Declared::Unreadable,
            None,
        ),
        stored(
            5,
            entry(ObjectKind::Trigger, "on_v", "v", 0),
            Declared::Trigger(b"on_v".to_vec()),
            None,
        ),
        stored(
            6,
            entry(ObjectKind::Trigger, "orphan", "gone", 0),
            Declared::Trigger(b"orphan".to_vec()),
            None,
        ),
    ];
    let loaded = load_schema(&rows).ok().unwrap();
    let kept: Vec<(i64, u32)> = loaded
        .entries
        .iter()
        .map(|held| (held.rowid, held.root))
        .collect();
    assert_eq!(kept, vec![(2, 5), (1, 6), (4, 0), (5, 0)]);
    assert_eq!(
        loaded.skipped,
        vec![b"broken".to_vec(), b"orphan".to_vec()]
    );
    assert_eq!(loaded.attach, vec![1, 0]);
    assert_eq!(loaded.covering.get(&5), Some(&vec![6]));
    assert_eq!(loaded.highest_identifier, 7);
    for at in 0..rows.len() {
        assert!(is_kept(&rows, at) || is_passed_over(&rows, at));
    }
    assert_eq!(tables_by_name(&rows), vec![1]);
}

#[test]
fn loaded_tables_have_their_indexes_and_triggers() {
    let mut declared = table("t", 0);
    declared.indexes = vec![index("auto", 0)];
    let mut automatic = entry(ObjectKind::Index, "AUTO", "T", 6);
    automatic.sql = Vec::new();
    let mut written = entry(ObjectKind::Index, "w", "t", 7);
    written.sql = b"CREATE INDEX w".to_vec();
    let rows = vec![
        stored(1, automatic, Declared::Unreadable, Some(6)),
        stored(
            2,
            entry(ObjectKind::Table, "t", "t", 5),
            Declared::Table(declared),
            Some(5),
        ),
        stored(3, written, Declared::Index(index("w", 0)), Some(7)),
        stored(
            4,
            entry(ObjectKind::Table, "a", "a", 8),
            Declared::Table(table("a", 0)),
            Some(8),
        ),
        stored(
            5,
            entry(ObjectKind::Trigger, "first", "t", 0),
            Declared::Trigger(b"first".to_vec()),
            None,
        ),
        stored(
            6,
            entry(ObjectKind::Trigger, "second", "t", 0),
            Declared::Trigger(b"second".to_vec()),
            None,
        ),
    ];
    let tables = loaded_tables(rows);
    assert_eq!(tables.len(), 2);
    assert_eq!(tables[0].name, b"a".to_vec());
    assert_eq!(tables[0].root, 8);
    assert_eq!(tables[1].name, b"t".to_vec());
    assert_eq!(tables[1].root, 5);
    let held: Vec<(Vec<u8>, u32)> = tables[1]
        .indexes
        .iter()
        .map(|held| (held.name.clone(), held.root))
        .collect();
    assert_eq!(held, vec![(b"auto".to_vec(), 6), (b"w".to_vec(), 7)]);
    assert_eq!(
        tables[1].triggers,
        vec![b"second".to_vec(), b"first".to_vec()]
    );
}

#[test]
fn a_row_that_names_no_tree_stops_the_load() {
    let rows = vec![stored(
        1,
        entry(ObjectKind::Table, "t", "t", 0),
        Declared::Table(table("t", 0)),
        None,
    )];
    assert_eq!(load_schema(&rows).err(), Some(0));
}

#[test]
fn a_table_is_told_its_index_and_its_trigger() {
    let mut info = table("t", 5);
    info.indexes = vec![index("i", 0)];
    give_index(&mut info, b"i", Some(index("I", 0)), 6);
    give_index(&mut info, b"j", Some(index("j", 8)), 7);
    give_index(&mut info, b"k", None, 8);
    assert_eq!(info.indexes.len(), 2);
    assert_eq!(info.indexes[0].root, 6);
    assert_eq!(info.indexes[0].name, b"i".to_vec());
    assert_eq!(info.indexes[1].root, 7);
    assert_eq!(info.indexes[1].name, b"j".to_vec());
    info.triggers = vec![b"old".to_vec()];
    give_trigger(&mut info, b"new".to_vec());
    assert_eq!(info.triggers, vec![b"new".to_vec(), b"old".to_vec()]);
}

#[test]
fn a_catalog_row_is_copied_whole() {
    let made = entry(ObjectKind::View, "v", "v", 3);
    assert!(same_entry(&made, &duplicate_entry(&made)));
}

fn recorded(rowid: i64, root: u32, entry: SchemaEntry) -> Recorded {
    Recorded { rowid, root, entry }
}

#[test]
fn rows_read_again_find_their_trees() {
    let state = SessionState::fresh();
    let rows = recorded_rows(
        &state,
        MAIN,
        vec![(4, entry(ObjectKind::Table, "t", "t", 5))],
    );
    assert_eq!((rows[0].rowid, rows[0].root), (4, 5));
    let lost = recorded_rows(
        &state,
        TEMP,
        vec![(4, entry(ObjectKind::Table, "t", "t", 5))],
    );
    assert_eq!(lost[0].root, 0);
}

#[test]
fn a_tree_is_wanted_when_it_is_not_attached() {
    let state = SessionState::fresh();
    let mut trees: HashSet<u32> = HashSet::new();
    let made = entry(ObjectKind::Table, "t", "t", 5);
    assert_eq!(tree_wanted(&state, &trees, MAIN, &made), Some(5));
    trees.insert(5);
    assert_eq!(tree_wanted(&state, &trees, MAIN, &made), None);
}

#[test]
fn a_table_is_found_by_its_name_in_either_case() {
    let entries = vec![
        recorded(1, 6, entry(ObjectKind::Index, "t", "t", 6)),
        recorded(2, 5, entry(ObjectKind::Table, "T", "T", 5)),
    ];
    assert_eq!(table_declared(&entries, b"t"), Some(1));
    assert_eq!(table_declared(&entries, b"u"), None);
    let state = SessionState::fresh();
    assert_eq!(root_of_named(&state, &entries, MAIN, b"t"), Some(5));
    assert_eq!(root_of_named(&state, &entries, TEMP, b"t"), None);
}

#[test]
fn a_row_has_the_shape_of_what_it_declares() {
    let info = table("t", 5);
    let made = index("i", 6);
    let of_table = shape_of_entry(
        &entry(ObjectKind::Table, "t", "t", 5),
        Some(&info),
        None,
        5,
    )
    .unwrap();
    assert_eq!(of_table.1, 1);
    let of_index = shape_of_entry(
        &entry(ObjectKind::Index, "i", "t", 6),
        Some(&info),
        Some(&made),
        6,
    )
    .unwrap();
    assert_eq!(of_index.1, 2);
    assert_eq!(
        of_index.0[0],
        ColumnSpec {
            physical: PhysicalType::Int64,
            key: true,
            collation: Collation::Binary,
            descending: false,
        }
    );
    assert!(shape_of_entry(&entry(ObjectKind::Table, "t", "t", 5), None, None, 5).is_none());
}

#[test]
fn trees_attached_again_are_written_beside_their_rows() {
    let mut restored = HashMap::new();
    restored.insert(2i64, 9u32);
    let given = with_restored(
        vec![
            recorded(1, 0, entry(ObjectKind::Table, "a", "a", 5)),
            recorded(2, 0, entry(ObjectKind::Table, "b", "b", 6)),
        ],
        &restored,
    );
    assert_eq!(given[0].root, 0);
    assert_eq!(given[1].root, 9);
    let mut trees = HashSet::new();
    trees.insert(9u32);
    let mut missing = Vec::new();
    note_missing(&given, &trees, &mut missing);
    assert_eq!(missing, vec![b"a".to_vec()]);
    trees.clear();
    note_missing(&given[1..], &trees, &mut missing);
    assert_eq!(missing, vec![b"a".to_vec(), b"b".to_vec()]);
}

#[test]
fn an_index_over_every_row_is_offered_once() {
    let whole = index("i", 6);
    let mut part = index("p", 7);
    part.partial_sql = Some(b"a > 0".to_vec());
    let row = entry(ObjectKind::Index, "i", "t", 6);
    assert_eq!(
        offered(&row, Some(6), Some(5), Some(&whole)),
        Some((5, 6))
    );
    assert_eq!(offered(&row, Some(6), Some(5), Some(&part)), None);
    assert_eq!(offered(&row, None, Some(5), Some(&whole)), None);
    let mut candidates = vec![6];
    offer(&mut candidates, 6);
    offer(&mut candidates, 7);
    assert_eq!(candidates, vec![6, 7]);
}

#[test]
fn trees_that_went_are_attached_once() {
    let state = SessionState::fresh();
    let entries = vec![
        recorded(1, 5, entry(ObjectKind::Table, "t", "t", 5)),
        recorded(2, 6, entry(ObjectKind::Index, "i", "t", 6)),
        recorded(3, 6, entry(ObjectKind::Index, "again", "t", 6)),
        recorded(4, 7, entry(ObjectKind::Index, "unread", "t", 7)),
        recorded(5, 0, entry(ObjectKind::View, "v", "v", 0)),
    ];
    let declares = |index: Option<IndexInfo>| Declares {
        table: Some(table("t", 5)),
        index,
    };
    let declared = vec![
        declares(None),
        declares(Some(index("i", 6))),
        declares(Some(index("again", 6))),
        declares(None),
        declares(None),
    ];
    let mut trees: HashSet<u32> = HashSet::new();
    let attached = reattach_entries(&state, &mut trees, MAIN, &entries, &declared);
    let places: Vec<(usize, u32, usize)> = attached
        .iter()
        .map(|tree| (tree.row, tree.root, tree.key_columns))
        .collect();
    assert_eq!(places, vec![(0, 5, 1), (1, 6, 2)]);
    assert!(trees.contains(&5) && trees.contains(&6) && trees.len() == 2);
    assert!(reattach_entries(&state, &mut trees, MAIN, &entries, &declared).is_empty());
    let mut covering: HashMap<u32, Vec<u32>> = HashMap::new();
    covering.insert(5, vec![9]);
    rejoin_covering(&mut covering, &state, MAIN, &entries, &declared, &attached);
    assert_eq!(covering.get(&5), Some(&vec![9, 6]));
    rejoin_covering(&mut covering, &state, MAIN, &entries, &declared, &attached);
    assert_eq!(covering.get(&5), Some(&vec![9, 6]));
}

fn family() -> Vec<TableInfo> {
    let parent = table("parent", 5);
    let mut child = table("child", 6);
    child.foreign_keys = vec![
        key(0, "parent", false, false),
        key(1, "child", false, true),
        key(2, "parent", true, false),
        key(3, "gone", true, true),
    ];
    vec![parent, child]
}

fn place(child: usize, key: usize, parent: usize) -> KeyPlace {
    KeyPlace { child, key, parent }
}

#[test]
fn keys_that_turn_on_themselves_are_swept() {
    let tables = family();
    assert!(has_cyclic_foreign_keys(&tables));
    assert!(!has_cyclic_foreign_keys(&tables[..1]));
    assert_eq!(sweeps(&tables, true), vec![place(1, 1, 1)]);
    assert_eq!(sweeps(&tables, false), Vec::new());
}

#[test]
fn every_key_is_asked_about_or_one_tables() {
    let tables = family();
    assert_eq!(
        violation_queries(&tables, None),
        vec![place(1, 0, 0), place(1, 1, 1), place(1, 2, 0)]
    );
    assert_eq!(violation_queries(&tables, Some(b"parent")), Vec::new());
}

#[test]
fn keys_left_until_the_commit_are_checked_there() {
    let tables = family();
    assert!(has_deferred_foreign_keys(&tables, false));
    assert!(has_deferred_foreign_keys(&tables[..1], true));
    assert!(!has_deferred_foreign_keys(&tables[..1], false));
    assert_eq!(
        check_deferred_foreign_keys(&tables, true, false),
        vec![place(1, 2, 0)]
    );
    assert_eq!(
        check_deferred_foreign_keys(&tables, true, true).len(),
        3
    );
    assert_eq!(
        check_deferred_foreign_keys(&tables, false, true),
        Vec::new()
    );
}

#[test]
fn a_missing_parent_fails_the_commit() {
    assert_eq!(check_deferred(&[false, false]), Ok(()));
    assert_eq!(check_deferred(&[false, true, true]), Err(1));
    assert_eq!(reported_key(&key(3, "p", false, false)), 3);
    assert_eq!(reported_key(&key(70_000, "p", false, false)), 0);
    assert_eq!(
        deferred_detail(3, b"child"),
        b"deferred key 3 of child".to_vec()
    );
}

#[test]
fn a_sweep_goes_on_until_nothing_changes() {
    assert_eq!(after_pass(0, 4, 4), Sweep::Settled);
    assert_eq!(after_pass(0, 4, 5), Sweep::Again);
    assert_eq!(after_pass(999_999, 4, 5), Sweep::Unsettled);
}

#[test]
fn a_schema_that_defers_nothing_has_nothing_checked_at_the_commit() {
    let mut tables = family();
    for key in &mut tables[1].foreign_keys {
        key.deferred = false;
    }
    assert!(!has_deferred_foreign_keys(&tables, false));
    assert_eq!(
        check_deferred_foreign_keys(&tables, true, false),
        Vec::new()
    );
}
