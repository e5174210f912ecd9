//! The shapes trees have, and the rows that are put in them.

use inillucent_engine::rowshape::{
    collation_of, covers_every_row, identity_columns, index_shape, keyed_table_shape,
    logical_row, physical_for, plain_index_entry, rowid_table_row, rowid_table_rows,
    source_layout_of, stored_as, table_shape, ShapeRefusal,
};
use inillucent_engine::schema::{
    same_entries, same_entry, stats_of, Affinity, ColumnInfo, ColumnSpec, IndexColumn, IndexInfo,
    ObjectKind, PhysicalType, SchemaEntry, StaticType, TableInfo, TableKind, TreeShape, TreeStats,
};
use inillucent_engine::tables::{
    argument_of, is_shadow_of, is_virtual_column, schema_alias_of, schema_named, stored_positions,
};
use inillucent_engine::values::{same_row, Collation, OwnedDatum, Real};
use inillucent_engine::write::in_key_order;

fn column(name: &str, affinity: Affinity) -> ColumnInfo {
    ColumnInfo {
        name: name.as_bytes().to_vec(),
        affinity,
        collation: Vec::new(),
        primary_key_position: None,
        generated: false,
        stored: false,
    }
}

fn keyed(name: &str, affinity: Affinity, position: u16) -> ColumnInfo {
    ColumnInfo {
        primary_key_position: Some(position),
        ..column(name, affinity)
    }
}

fn table(columns: Vec<ColumnInfo>) -> TableInfo {
    TableInfo {
        name: b"T".to_vec(),
        folded: b"t".to_vec(),
        kind: TableKind::Table,
        root: 7,
        without_rowid: false,
        rowid_alias: None,
        columns,
        indexes: Vec::new(),
        foreign_keys: Vec::new(),
        triggers: Vec::new(),
        create_sql: Vec::new(),
    }
}

fn index_on(columns: &[u16]) -> IndexInfo {
    IndexInfo {
        name: b"I".to_vec(),
        folded: b"i".to_vec(),
        root: 9,
        unique: false,
        columns: columns
            .iter()
            .map(|at| IndexColumn {
                column: Some(*at),
                collation: Vec::new(),
                descending: false,
                expr_sql: None,
            })
            .collect(),
        partial_sql: None,
    }
}

fn spec(physical: PhysicalType, key: bool) -> ColumnSpec {
    ColumnSpec {
        physical,
        key,
        collation: Collation::Binary,
        descending: false,
    }
}

fn number(value: i64) -> OwnedDatum {
    OwnedDatum::Int(value)
}

fn text(word: &str) -> OwnedDatum {
    OwnedDatum::Text(word.as_bytes().to_vec())
}

fn one() -> OwnedDatum {
    OwnedDatum::Real(Real {
        place: 0x4000_0000_0000_0000,
        bits: 1.0f64.to_bits(),
    })
}

#[test]
fn a_collation_is_known_by_its_name_in_either_case() {
    assert_eq!(collation_of(b"nocase"), Collation::NoCase);
    assert_eq!(collation_of(b"RTrim"), Collation::RTrim);
    assert_eq!(collation_of(b""), Collation::Binary);
    assert_eq!(collation_of(b"german"), Collation::Binary);
}

#[test]
fn an_affinity_decides_how_a_column_is_stored() {
    assert_eq!(
        physical_for(Affinity::Integer),
        (PhysicalType::Int64, StaticType::Int)
    );
    assert_eq!(
        physical_for(Affinity::Real),
        (PhysicalType::Float64, StaticType::Real)
    );
    assert_eq!(
        physical_for(Affinity::Text),
        (PhysicalType::Text, StaticType::Text)
    );
    for any in [Affinity::Blob, Affinity::Numeric, Affinity::FlexNum] {
        assert_eq!(physical_for(any), (PhysicalType::Any, StaticType::Unknown));
    }
}

#[test]
fn a_rowid_table_carries_its_rowid_first() {
    let mut info = table(vec![
        column("id", Affinity::Integer),
        column("name", Affinity::Text),
        ColumnInfo {
            generated: true,
            ..column("twice", Affinity::Integer)
        },
        column("rate", Affinity::Real),
    ]);
    info.rowid_alias = Some(0);
    let (columns, layout) = table_shape(&info);
    assert_eq!(
        columns,
        vec![
            spec(PhysicalType::Int64, true),
            spec(PhysicalType::Text, false),
            spec(PhysicalType::Float64, false),
        ]
    );
    assert_eq!(layout.slots, vec![Some(0), Some(1), None, Some(2)]);
    assert_eq!(layout.width, 3);
    assert_eq!(layout.rowid, Some(0));
    assert_eq!(layout.tree_key, 7);
    assert_eq!(layout.identity, vec![0]);
    assert_eq!(layout.key_columns, vec![0]);
    assert!(is_virtual_column(&info, 2));
    assert!(!is_virtual_column(&info, 1));
}

#[test]
fn a_keyed_table_carries_its_key_first_in_key_order() {
    let mut info = table(vec![
        column("a", Affinity::Integer),
        keyed("b", Affinity::Text, 2),
        keyed("c", Affinity::Integer, 1),
    ]);
    info.without_rowid = true;
    let (columns, key, layout) = keyed_table_shape(&info).ok().unwrap();
    assert_eq!(key, 2);
    assert_eq!(
        columns,
        vec![
            spec(PhysicalType::Int64, true),
            spec(PhysicalType::Text, true),
            spec(PhysicalType::Int64, false),
        ]
    );
    assert_eq!(layout.slots, vec![Some(2), Some(1), Some(0)]);
    assert_eq!(layout.rowid, None);
    assert_eq!(layout.identity, vec![0, 1]);
    assert_eq!(layout.key_columns, vec![0, 1]);
    assert_eq!(identity_columns(&info), vec![2, 1]);
}

#[test]
fn a_keyed_table_without_a_key_is_refused() {
    let mut info = table(vec![column("a", Affinity::Integer)]);
    info.without_rowid = true;
    assert!(matches!(
        keyed_table_shape(&info),
        Err(ShapeRefusal::NoPrimaryKey)
    ));
    assert!(matches!(
        source_layout_of(&info),
        Err(ShapeRefusal::NoPrimaryKey)
    ));
}

#[test]
fn a_key_under_a_collation_is_no_order() {
    let mut info = table(vec![ColumnInfo {
        collation: b"NOCASE".to_vec(),
        ..keyed("a", Affinity::Text, 1)
    }]);
    info.without_rowid = true;
    let (columns, _, layout) = keyed_table_shape(&info).ok().unwrap();
    assert_eq!(columns[0].collation, Collation::NoCase);
    assert!(layout.key_columns.is_empty());
}

#[test]
fn an_index_ends_in_the_rowid() {
    let mut info = table(vec![
        column("id", Affinity::Integer),
        column("name", Affinity::Text),
    ]);
    info.rowid_alias = Some(0);
    let (columns, layout) = index_shape(&info, &index_on(&[1]), 9);
    assert_eq!(
        columns,
        vec![
            spec(PhysicalType::Text, true),
            spec(PhysicalType::Int64, true)
        ]
    );
    assert_eq!(layout.slots, vec![Some(1), Some(0)]);
    assert_eq!(layout.rowid, Some(1));
    assert_eq!(layout.identity, vec![1]);
    assert_eq!(layout.key_columns, vec![0, 1]);
    assert_eq!(layout.tree_key, 9);
}

#[test]
fn an_index_of_a_keyed_table_ends_in_its_key() {
    let mut info = table(vec![
        keyed("a", Affinity::Text, 1),
        column("b", Affinity::Integer),
    ]);
    info.without_rowid = true;
    let (columns, layout) = index_shape(&info, &index_on(&[1]), 9);
    assert_eq!(
        columns,
        vec![
            spec(PhysicalType::Int64, true),
            spec(PhysicalType::Text, true)
        ]
    );
    assert_eq!(layout.slots, vec![Some(1), Some(0)]);
    assert_eq!(layout.rowid, None);
    assert_eq!(layout.width, 2);
}

#[test]
fn only_a_plain_walk_of_an_index_is_an_order() {
    let info = table(vec![column("a", Affinity::Text)]);
    let mut descending = index_on(&[0]);
    descending.columns[0].descending = true;
    let mut collated = index_on(&[0]);
    collated.columns[0].collation = b"german".to_vec();
    let mut binary = index_on(&[0]);
    binary.columns[0].collation = b"binary".to_vec();
    assert!(index_shape(&info, &descending, 1).1.key_columns.is_empty());
    assert!(index_shape(&info, &collated, 1).1.key_columns.is_empty());
    assert_eq!(index_shape(&info, &binary, 1).1.key_columns, vec![0, 1]);
    assert!(index_shape(&info, &descending, 1).0[0].descending);
}

#[test]
fn an_indexed_expression_stands_for_no_column() {
    let info = table(vec![column("a", Affinity::Text)]);
    let mut index = index_on(&[0]);
    index.columns[0].column = None;
    index.columns[0].expr_sql = Some(b"a || a".to_vec());
    let (columns, layout) = index_shape(&info, &index, 1);
    assert_eq!(columns[0], spec(PhysicalType::Any, true));
    assert_eq!(layout.slots, vec![None]);
    assert_eq!(layout.types[0], StaticType::Unknown);
}

#[test]
fn a_partial_index_covers_some_rows() {
    let mut index = index_on(&[0]);
    assert!(covers_every_row(&index));
    index.partial_sql = Some(b"a > 1".to_vec());
    assert!(!covers_every_row(&index));
}

#[test]
fn an_integer_in_a_column_of_reals_is_stored_as_one() {
    assert!(same_row(
        &[stored_as(PhysicalType::Float64, number(1))],
        &[one()]
    ));
    assert!(same_row(&[stored_as(PhysicalType::Any, number(1))], &[number(1)]));
    assert!(same_row(
        &[stored_as(PhysicalType::Float64, text("x"))],
        &[text("x")]
    ));
}

#[test]
fn a_record_becomes_a_row_of_the_tree() {
    let mut info = table(vec![
        column("id", Affinity::Integer),
        column("name", Affinity::Text),
        column("rate", Affinity::Real),
    ]);
    info.rowid_alias = Some(0);
    let stored = vec![number(12), OwnedDatum::Null, text("x"), number(1)];
    let row = rowid_table_row(&info, &stored);
    assert!(same_row(&row, &[number(12), text("x"), number(1)]));
    let rows = rowid_table_rows(&info, &[stored]);
    assert_eq!(rows.len(), 1);
    assert!(same_row(&rows[0], &row));
}

#[test]
fn a_stored_row_is_read_column_by_column() {
    let mut info = table(vec![
        column("id", Affinity::Integer),
        column("name", Affinity::Text),
        column("rate", Affinity::Real),
    ]);
    info.rowid_alias = Some(0);
    let layout = table_shape(&info).1;
    let stored = vec![number(12), OwnedDatum::Null, text("x"), number(1)];
    assert!(same_row(
        &logical_row(&info, &layout, &stored),
        &[number(12), text("x"), one()]
    ));
}

#[test]
fn an_index_entry_is_its_columns_and_the_identity() {
    let mut info = table(vec![
        column("id", Affinity::Integer),
        column("name", Affinity::Text),
    ]);
    info.rowid_alias = Some(0);
    let layout = table_shape(&info).1;
    let entry = plain_index_entry(&index_on(&[1]), &layout, &[number(12), text("x")]);
    assert!(same_row(&entry, &[text("x"), number(12)]));
}

#[test]
fn rows_are_put_in_the_order_of_their_tree() {
    let rows = vec![
        vec![number(1), text("b")],
        vec![number(2), text("a")],
        vec![number(1), text("a")],
    ];
    let columns = vec![spec(PhysicalType::Int64, true)];
    let sorted = in_key_order(rows, &columns, 1);
    assert!(same_row(&sorted[0], &[number(1), text("b")]));
    assert!(same_row(&sorted[1], &[number(1), text("a")]));
    assert!(same_row(&sorted[2], &[number(2), text("a")]));
    let descending = vec![ColumnSpec {
        descending: true,
        ..spec(PhysicalType::Int64, true)
    }];
    let turned = in_key_order(vec![vec![number(1)], vec![number(2)]], &descending, 1);
    assert!(same_row(&turned[0], &[number(2)]));
    let uneven = in_key_order(vec![vec![number(2), text("b")], vec![number(1)]], &columns, 1);
    assert!(same_row(&uneven[0], &[number(1)]));
    assert!(same_row(&uneven[1], &[number(2), text("b")]));
}

#[test]
fn an_argument_is_found_by_its_name() {
    let arguments = vec![
        b"tokenize = porter".to_vec(),
        b"Content=  ".to_vec(),
        b"plain".to_vec(),
        b"odd = \xff".to_vec(),
    ];
    assert_eq!(
        argument_of(&arguments, b"TOKENIZE"),
        Some(b"porter".to_vec())
    );
    assert_eq!(argument_of(&arguments, b"content"), None);
    assert_eq!(argument_of(&arguments, b"plain"), None);
    assert_eq!(
        argument_of(&arguments, b"odd"),
        Some("\u{fffd}".as_bytes().to_vec())
    );
}

#[test]
fn a_module_owns_the_tables_named_after_its_own() {
    let owners = vec![b"docs".to_vec()];
    assert!(is_shadow_of(&owners, b"docs_content"));
    assert!(!is_shadow_of(&owners, b"docs"));
    assert!(!is_shadow_of(&owners, b"documents"));
}

#[test]
fn a_record_holds_what_is_stored_of_a_table() {
    let info = table(vec![
        column("a", Affinity::Integer),
        ColumnInfo {
            generated: true,
            ..column("b", Affinity::Integer)
        },
        ColumnInfo {
            generated: true,
            stored: true,
            ..column("c", Affinity::Integer)
        },
    ]);
    assert_eq!(stored_positions(&info), vec![0, 2]);
}

#[test]
fn the_catalog_answers_to_its_other_names() {
    let alias = schema_alias_of(table(vec![column("type", Affinity::Text)]));
    assert_eq!(alias.name, b"sqlite_master".to_vec());
    assert_eq!(alias.folded, b"sqlite_master".to_vec());
    assert_eq!(alias.root, 7);
    let other = schema_named(table(Vec::new()), b"sqlite_temp_master");
    assert_eq!(other.name, b"sqlite_temp_master".to_vec());
}

#[test]
fn catalog_rows_are_compared_whole() {
    let made = |name: &str| SchemaEntry {
        kind: ObjectKind::Table,
        name: name.as_bytes().to_vec(),
        table: name.as_bytes().to_vec(),
        root: 2,
        sql: Vec::new(),
        stats: TreeStats {
            first_leaf: 1,
            leaf_count: 2,
            row_count: 3,
        },
        tree_id: 4,
    };
    assert!(same_entry(&made("a"), &made("a")));
    assert!(!same_entry(&made("a"), &made("b")));
    assert!(same_entries(&[made("a")], &[made("a")]));
    assert!(!same_entries(&[made("a")], &[]));
}

#[test]
fn a_tree_tells_its_statistics() {
    let shape = TreeShape {
        root: 1,
        columns: Vec::new(),
        key_columns: 0,
        first_leaf: 5,
        leaf_count: 6,
        row_count: 7,
    };
    let stats = stats_of(&shape);
    assert_eq!(
        (stats.first_leaf, stats.leaf_count, stats.row_count),
        (5, 6, 7)
    );
}
