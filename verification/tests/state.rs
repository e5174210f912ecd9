//! What a connection is set to.

use inillucent_engine::locks::JournalMode;
use inillucent_engine::state::{create_collation, Pragmas, VectorIndex};

#[test]
fn a_connection_begins_with_the_defaults() {
    let pragmas = Pragmas::fresh();
    assert!(!pragmas.locking_exclusive);
    assert_eq!(pragmas.journal_mode, JournalMode::Delete);
    assert_eq!(pragmas.max_page_count, 4_294_967_294);
    assert!(!pragmas.foreign_keys);
    assert!(!pragmas.query_only);
}

#[test]
fn one_optimization_is_switched_without_the_others() {
    let mut pragmas = Pragmas::fresh();
    pragmas.levers = 0b0110;
    pragmas.set_automatic_index(0b0001, false);
    assert_eq!(pragmas.levers, 0b0111);
    pragmas.set_automatic_index(0b0010, true);
    assert_eq!(pragmas.levers, 0b0101);
}

#[test]
fn an_index_is_made_over_the_columns_it_is_told() {
    let index = VectorIndex::at(b"v".to_vec(), 2, 0);
    assert_eq!(index.name, b"v".to_vec());
    assert_eq!((index.column, index.rowid, index.declared), (2, 0, 0));
}

#[test]
fn a_collation_replaces_its_namesake() {
    let mut collations = vec![b"A".to_vec(), b"B".to_vec()];
    create_collation(&mut collations, b"a");
    assert_eq!(collations, vec![b"B".to_vec(), b"A".to_vec()]);
    create_collation(&mut collations, b"c");
    assert_eq!(
        collations,
        vec![b"B".to_vec(), b"A".to_vec(), b"C".to_vec()]
    );
}
