//! The checks of a file's trees, pages and indexes.

use std::collections::HashMap;

use inillucent_engine::integrity::{
    check_indexes_agree, check_trees_to, compare_entries, entry_identity_text, entry_named,
    index_report, index_root, point_table_at, root_page_of, CheckDepth, CheckStep, Disagreement,
    Walked,
};
use inillucent_engine::pages::{
    ascending_handles, claim, compare_against_the_free_map, file_report, hold_every_page,
    name_every_tree, name_of_tree, trees_by_schema, walk_every_page, FilePages, Holder, PageShare,
    TreeName, TreePages,
};
use inillucent_engine::refusals::Refusal;
use inillucent_engine::rowshape::table_shape;
use inillucent_engine::schema::{
    Affinity, ColumnInfo, IndexColumn, IndexInfo, ObjectKind, Recorded, SchemaEntry, TableInfo,
    TableKind, TreeStats,
};
use inillucent_engine::sessions::{Attached, SessionState};
use inillucent_engine::values::OwnedDatum;

fn table(name: &str, root: u32) -> TableInfo {
    TableInfo {
        name: name.as_bytes().to_vec(),
        folded: name.to_ascii_lowercase().into_bytes(),
        kind: TableKind::Table,
        root,
        without_rowid: false,
        rowid_alias: None,
        columns: vec![ColumnInfo {
            name: b"a".to_vec(),
            affinity: Affinity::Integer,
            collation: Vec::new(),
            primary_key_position: None,
            generated: false,
            stored: false,
        }],
        indexes: Vec::new(),
        foreign_keys: Vec::new(),
        triggers: Vec::new(),
        create_sql: Vec::new(),
    }
}

fn index(name: &str, root: u32) -> IndexInfo {
    IndexInfo {
        name: name.as_bytes().to_vec(),
        folded: name.to_ascii_lowercase().into_bytes(),
        root,
        unique: false,
        columns: vec![IndexColumn {
            column: Some(0),
            collation: Vec::new(),
            descending: false,
            expr_sql: None,
        }],
        partial_sql: None,
    }
}

fn entry(rowid: i64, name: &str, root: u64) -> Recorded {
    Recorded {
        rowid,
        root: 5,
        entry: SchemaEntry {
            kind: ObjectKind::Table,
            name: name.as_bytes().to_vec(),
            table: name.as_bytes().to_vec(),
            root,
            sql: Vec::new(),
            stats: TreeStats {
                first_leaf: root + 1,
                leaf_count: 1,
                row_count: 2,
            },
            tree_id: 5,
        },
    }
}

fn pair(one: i64, two: i64) -> Vec<OwnedDatum> {
    vec![OwnedDatum::Int(one), OwnedDatum::Int(two)]
}

fn said(outcome: Result<(), Vec<u8>>) -> String {
    match outcome {
        Ok(()) => "ok".to_string(),
        Err(said) => String::from_utf8(said).unwrap(),
    }
}

#[test]
fn an_index_agrees_where_it_holds_what_its_table_implies() {
    let plain = index("i", 6);
    assert!(compare_entries(&plain, &[pair(1, 1), pair(2, 2)], &[pair(1, 1), pair(2, 2)]).is_none());
    assert!(matches!(
        compare_entries(&plain, &[pair(1, 1), pair(2, 2)], &[pair(1, 1), pair(3, 2)]),
        Some(Disagreement::Missing(1))
    ));
    assert!(matches!(
        compare_entries(&plain, &[pair(1, 1)], &[pair(1, 1), pair(2, 2)]),
        Some(Disagreement::Surplus)
    ));
    let unique = IndexInfo {
        unique: true,
        ..index("u", 6)
    };
    assert!(matches!(
        compare_entries(&unique, &[pair(1, 1), pair(1, 2)], &[pair(1, 1), pair(1, 2)]),
        Some(Disagreement::Repeated)
    ));
    let part = IndexInfo {
        partial_sql: Some(b"a > 1".to_vec()),
        ..index("p", 6)
    };
    assert!(compare_entries(&part, &[pair(1, 1)], &[]).is_none());
}

#[test]
fn a_row_is_named_by_what_identifies_it() {
    assert_eq!(entry_identity_text(&pair(7, -3), 1), b"-3".to_vec());
    let keyed = vec![
        OwnedDatum::Int(1),
        OwnedDatum::Text(b"k".to_vec()),
        OwnedDatum::Null,
    ];
    assert_eq!(entry_identity_text(&keyed, 1), b"k,?".to_vec());
    assert_eq!(entry_identity_text(&keyed, 3), b"?".to_vec());
    assert_eq!(
        entry_identity_text(&[OwnedDatum::Text(b"\xff".to_vec())], 0),
        "\u{fffd}".as_bytes().to_vec()
    );
}

fn walked(info: &TableInfo, entries: Vec<Vec<OwnedDatum>>) -> Walked {
    Walked {
        layout: table_shape(info).1,
        rows: vec![pair(1, 20), pair(2, 10)],
        entries: vec![Some(entries)],
    }
}

#[test]
fn the_first_index_that_disagrees_is_reported() {
    let mut info = table("t", 5);
    info.indexes = vec![index("i", 6)];
    let sound = walked(&info, vec![pair(10, 2), pair(20, 1)]);
    assert_eq!(index_report(&info, &sound, 0), None);
    assert_eq!(
        said(check_indexes_agree(&[info], &[Some(sound)])),
        "ok"
    );
    let mut broken_info = table("t", 5);
    broken_info.indexes = vec![index("i", 6)];
    let broken = walked(&broken_info, vec![pair(10, 2)]);
    assert_eq!(
        said(check_indexes_agree(&[broken_info], &[Some(broken)])),
        "row 1 missing from index i"
    );
    let mut long_info = table("t", 5);
    long_info.indexes = vec![index("i", 6)];
    let long = walked(&long_info, vec![pair(10, 2), pair(20, 1), pair(30, 3)]);
    assert_eq!(
        said(check_indexes_agree(&[long_info], &[Some(long)])),
        "wrong # of entries in index i"
    );
    let mut unique_info = table("t", 5);
    unique_info.indexes = vec![IndexInfo {
        unique: true,
        ..index("u", 6)
    }];
    let shared = walked(&unique_info, vec![pair(10, 1), pair(10, 2)]);
    assert_eq!(
        said(check_indexes_agree(&[unique_info], &[Some(shared)])),
        "non-unique entry in index u"
    );
}

#[test]
fn a_table_that_could_not_be_walked_is_not_compared() {
    let mut info = table("t", 5);
    info.indexes = vec![index("i", 6)];
    assert_eq!(said(check_indexes_agree(&[info], &[None])), "ok");
}

fn with_attached() -> SessionState {
    let mut state = SessionState::fresh();
    state.attached.push(Attached {
        name: b"aux".to_vec(),
        path: None,
        in_doubt: false,
        entries: Vec::new(),
        next_root: 2,
        handles: HashMap::new(),
        catalog_handle: 0xC000_0000,
        session: None,
    });
    state.owner.insert(0xC000_0001, 2);
    state.owner.insert(0xC000_0002, 5);
    state
}

#[test]
fn a_full_check_is_a_quick_one_and_more() {
    let state = with_attached();
    let quick = check_trees_to(&state, &[5, 0xC000_0001], CheckDepth::Quick);
    assert_eq!(
        quick,
        vec![
            CheckStep::PageCount(0),
            CheckStep::PageCount(2),
            CheckStep::Tree(5),
            CheckStep::Tree(0xC000_0001),
            CheckStep::Pages,
        ]
    );
    let full = check_trees_to(&state, &[5, 0xC000_0001], CheckDepth::Full);
    assert_eq!(full[..quick.len()], quick[..]);
    assert_eq!(full.last(), Some(&CheckStep::Indexes));
    let lost = check_trees_to(&state, &[0xC000_0002], CheckDepth::Full);
    assert_eq!(lost.last(), Some(&CheckStep::NotAttached));
}

#[test]
fn objects_are_found_by_their_names() {
    let mut info = table("t", 5);
    info.indexes = vec![index("I", 6)];
    let tables = vec![info];
    assert!(matches!(index_root(&tables, b"i"), Ok(6)));
    assert!(matches!(
        index_root(&tables, b"j"),
        Err(Refusal::NoSuchIndex(name)) if name == b"j".to_vec()
    ));
    let entries = vec![entry(1, "a", 10), entry(2, "B", 20)];
    assert!(matches!(entry_named(&entries, b"b"), Ok(1)));
    assert!(matches!(root_page_of(&entries, b"B"), Ok(20)));
    assert!(matches!(
        root_page_of(&entries, b"c"),
        Err(Refusal::NoSuchTable(_))
    ));
    let moved = point_table_at(&entries, b"a", b"b").ok().unwrap();
    assert_eq!((moved.rowid, moved.at, moved.root), (1, 0, 20));
    assert_eq!(moved.stats.first_leaf, 21);
    assert!(matches!(
        point_table_at(&entries, b"a", b"gone"),
        Err(Refusal::NoSuchTable(name)) if name == b"gone".to_vec()
    ));
}

fn names() -> Vec<TreeName> {
    vec![TreeName {
        handle: 5,
        name: b"table t".to_vec(),
    }]
}

fn tree(handle: u32, pages: &[u64]) -> TreePages {
    TreePages {
        handle,
        pages: pages
            .iter()
            .map(|page| (*page, PageShare::Owned))
            .collect(),
    }
}

#[test]
fn a_page_has_one_holder() {
    let mut held: HashMap<u64, Holder> = HashMap::new();
    assert_eq!(
        said(claim(&mut held, 9, Holder::Tree(5), &names())),
        "ok"
    );
    assert_eq!(
        said(claim(&mut held, 9, Holder::Tree(6), &names())),
        "page 9 is used by table t and also by a tree this connection reads as 6"
    );
    assert_eq!(
        said(claim(&mut held, 10, Holder::SharedExtent, &names())),
        "ok"
    );
    assert_eq!(
        said(claim(&mut held, 10, Holder::SharedExtent, &names())),
        "ok"
    );
    assert_eq!(Holder::Meta.describe(&[]), b"the meta record".to_vec());
    assert_eq!(Holder::FreeMap.describe(&[]), b"the free map".to_vec());
}

#[test]
fn every_page_of_a_file_is_held() {
    let held = hold_every_page(2, &[2], &[tree(5, &[3, 4])], &names())
        .ok()
        .unwrap();
    assert_eq!(held.get(&0), Some(&Holder::Meta));
    assert_eq!(held.get(&2), Some(&Holder::FreeMap));
    assert_eq!(held.get(&4), Some(&Holder::Tree(5)));
    assert_eq!(held.get(&5), None);
    assert!(hold_every_page(2, &[2], &[tree(5, &[2])], &names()).is_err());
}

#[test]
fn a_page_is_free_or_it_is_held() {
    let held = hold_every_page(1, &[1], &[tree(5, &[2])], &names())
        .ok()
        .unwrap();
    let compare = |allocated: &[bool], complete: bool| {
        said(compare_against_the_free_map(
            1,
            allocated,
            &held,
            &names(),
            complete,
        ))
    };
    assert_eq!(compare(&[true, true, true, false], true), "ok");
    assert_eq!(
        compare(&[true, true, false, false], true),
        "page 2 is used by table t but the free map says it is free"
    );
    assert_eq!(
        compare(&[true, true, true, true], true),
        "Page 3: never used"
    );
    assert_eq!(compare(&[true, true, true, true], false), "ok");
}

fn file(pages: &[u64], allocated: &[bool]) -> FilePages {
    FilePages {
        first_data_page: 1,
        free_map: vec![1],
        trees: vec![tree(5, pages)],
        names: names(),
        allocated: allocated.to_vec(),
    }
}

#[test]
fn each_file_is_walked_on_its_own() {
    let sound = file(&[2], &[true, true, true]);
    assert_eq!(file_report(&sound, true), None);
    assert_eq!(
        said(walk_every_page(&[file(&[2], &[true, true, true])], true)),
        "ok"
    );
    assert_eq!(
        said(walk_every_page(
            &[sound, file(&[2, 2], &[true, true, true])],
            true
        )),
        "page 2 is used by table t and also by table t"
    );
}

#[test]
fn a_tree_is_called_what_the_catalog_calls_it() {
    let mut info = table("t", 5);
    info.indexes = vec![index("i", 6)];
    let tables = vec![info];
    assert_eq!(name_of_tree(&tables, 5, 9), b"table t".to_vec());
    assert_eq!(name_of_tree(&tables, 6, 9), b"index i".to_vec());
    assert_eq!(
        name_of_tree(&tables, 7, 9),
        b"the tree rooted at page 9".to_vec()
    );
    let mut roots = HashMap::new();
    roots.insert(5u32, 9u64);
    let named = name_every_tree(&tables, &roots, &[5, 6]);
    assert_eq!(named.len(), 1);
    assert_eq!(named[0].name, b"table t".to_vec());
}

#[test]
fn trees_are_grouped_by_their_files() {
    let state = with_attached();
    assert_eq!(ascending_handles(&[9, 3, 5]), vec![3, 5, 9]);
    let groups = trees_by_schema(&state, &[9, 0xC000_0001, 3, 7], &[7]);
    let mut sorted = groups.clone();
    sorted.sort();
    assert_eq!(
        sorted,
        vec![(0, vec![3, 9]), (2, vec![0xC000_0001])]
    );
}
