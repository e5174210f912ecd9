//! The arena an index is sorted in: what it holds, and the order it gives.

use inillucent_engine::codes::KeyEncoding;
use inillucent_engine::entries::{clip, encode_prefix, EntrySet};
use inillucent_engine::values::{Collation, Datum, Order};

/// The order two entries compare in, as a sort wants it.
fn ordering(order: Order) -> std::cmp::Ordering {
    match order {
        Order::Less => std::cmp::Ordering::Less,
        Order::Equal => std::cmp::Ordering::Equal,
        Order::Greater => std::cmp::Ordering::Greater,
    }
}

/// The entries of a set in the order its own comparison gives.
fn compared(set: &EntrySet) -> Vec<u32> {
    let mut expected: Vec<u32> = (0..set.len() as u32).collect();
    expected.sort_by(|left, right| ordering(set.compare(*left, *right)));
    expected
}

/// The integers of one column, in an order.
fn integers(set: &EntrySet, order: &[u32], column: usize) -> Vec<i64> {
    order
        .iter()
        .map(|entry| match set.datum(*entry as usize, column) {
            Datum::Int(number) => number,
            _ => 0,
        })
        .collect()
}

/// A set of tuples of `(text, rowid)`, which is an index entry.
fn set_of(rows: &[(&str, i64)]) -> EntrySet {
    set_under(rows, Collation::Binary)
}

/// The same, under a named collation.
fn set_under(rows: &[(&str, i64)], collation: Collation) -> EntrySet {
    let collations = [collation, Collation::Binary];
    let mut set = EntrySet::with_capacity(2, rows.len(), KeyEncoding::General, &collations, &[]);
    for (text, rowid) in rows {
        set.push(&[Datum::Text(text.as_bytes()), Datum::Int(*rowid)]);
    }
    set
}

#[test]
fn radix_order_matches_the_trees_comparison() {
    let rows: Vec<(String, i64)> = (0..3000)
        .map(|number| {
            (
                format!("row {} lorem ipsum dolor sit amet", (number * 7919) % 3000),
                number as i64,
            )
        })
        .collect();
    let borrowed: Vec<(&str, i64)> = rows
        .iter()
        .map(|(text, rowid)| (text.as_str(), *rowid))
        .collect();
    let set = set_of(&borrowed);
    assert_eq!(set.order(), compared(&set));
}

#[test]
fn a_shared_prefix_is_resolved_by_the_whole_value() {
    let set = set_of(&[
        ("aaaaaaaaaaaaaaaaaaaa-z", 1),
        ("aaaaaaaaaaaaaaaaaaaa-a", 2),
        ("aaaaaaaaaaaaaaaaaaaa-m", 3),
    ]);
    assert_eq!(set.order(), vec![1, 2, 0]);
}

#[test]
fn nocase_orders_by_the_folded_prefix() {
    let set = set_under(&[("ZED", 3), ("zed", 1), ("Zed", 2)], Collation::NoCase);
    let order = set.order();
    assert_eq!(integers(&set, &order, 1), vec![1, 2, 3]);
}

#[test]
fn a_nocase_prefix_stops_at_a_nul_as_the_comparison_does() {
    let rows: Vec<(&str, i64)> = vec![
        ("\0\0y", 1),
        ("\0a", 2),
        ("\0B", 3),
        ("A\0zzzzzzzzzzzzzzzzzzzz", 4),
        ("a\0b", 5),
        ("a", 6),
        ("ab", 7),
        ("abcdefghijklmnopq\0x", 8),
        ("ABCDEFGHIJKLMNOPQ\0", 9),
        ("\0", 10),
        ("", 11),
    ];
    let set = set_under(&rows, Collation::NoCase);
    assert_eq!(set.order(), compared(&set));
    // `"\0a"` and `"\0B"` are one value, so the rowid orders them, and both come
    // before `"\0\0y"` because they are shorter.
    assert_eq!(
        integers(&set, &set.order(), 1),
        vec![11, 10, 2, 3, 1, 6, 5, 4, 7, 9, 8]
    );
}

#[test]
fn rtrim_trims_before_the_prefix_is_clipped() {
    let set = set_under(
        &[("a                    x", 2), ("a", 1), ("a       ", 1)],
        Collation::RTrim,
    );
    assert_eq!(set.order(), compared(&set));
}

#[test]
fn the_arena_round_trips_its_values() {
    let set = set_of(&[("b", 2), ("a", 1)]);
    let order = set.order();
    let flat = set.to_datums(&order);
    let described: Vec<String> = flat.iter().map(|value| format!("{value:?}")).collect();
    assert_eq!(
        described,
        vec![
            format!("{:?}", Datum::Text(b"a")),
            format!("{:?}", Datum::Int(1)),
            format!("{:?}", Datum::Text(b"b")),
            format!("{:?}", Datum::Int(2)),
        ]
    );
}

#[test]
fn nulls_do_not_share_a_key_prefix() {
    let collations = [Collation::Binary; 2];
    let mut set = EntrySet::with_capacity(2, 2, KeyEncoding::General, &collations, &[]);
    set.push(&[Datum::Null, Datum::Int(1)]);
    set.push(&[Datum::Null, Datum::Int(2)]);
    let order = set.order();
    assert!(!set.shares_key_prefix(&order, 0, 1));
}

#[test]
fn equal_indexed_columns_share_a_key_prefix() {
    let set = set_of(&[("same", 1), ("same", 2)]);
    let order = set.order();
    assert!(set.shares_key_prefix(&order, 0, 1));
}

#[test]
fn an_empty_set_has_an_empty_order() {
    let set = set_of(&[]);
    assert!(set.order().is_empty());
    assert!(set.to_datums(&[]).is_empty());
}

#[test]
fn a_rowid_key_is_its_own_prefix() {
    let collations = [Collation::Binary];
    let mut set = EntrySet::with_capacity(1, 3, KeyEncoding::Rowid, &collations, &[]);
    for rowid in [7i64, -1, 3] {
        set.push(&[Datum::Int(rowid)]);
    }
    let order = set.order();
    assert_eq!(integers(&set, &order, 0), vec![-1, 3, 7]);
}

#[test]
fn a_descending_column_turns_the_order_round() {
    let collations = [Collation::Binary; 2];
    let mut set =
        EntrySet::with_capacity(2, 3, KeyEncoding::General, &collations, &[true, false]);
    for (number, rowid) in [(1i64, 1i64), (3, 2), (1, 3)] {
        set.push(&[Datum::Int(number), Datum::Int(rowid)]);
    }
    assert_eq!(integers(&set, &set.order(), 1), vec![2, 1, 3]);
}

#[test]
fn numbers_come_before_text_and_text_before_blobs() {
    let collations = [Collation::Binary];
    let mut set = EntrySet::with_capacity(1, 4, KeyEncoding::General, &collations, &[]);
    set.push(&[Datum::Blob(b"a")]);
    set.push(&[Datum::Text(b"a")]);
    set.push(&[Datum::Int(9)]);
    set.push(&[Datum::Null]);
    assert_eq!(set.order(), vec![3, 2, 1, 0]);
}

#[test]
fn a_short_entry_is_filled_with_nulls() {
    let collations = [Collation::Binary; 2];
    let mut set = EntrySet::with_capacity(2, 2, KeyEncoding::General, &collations, &[]);
    set.push(&[Datum::Int(5)]);
    set.push(&[Datum::Int(6), Datum::Int(7), Datum::Int(8)]);
    assert_eq!(set.len(), 2);
    assert!(matches!(set.datum(0, 0), Datum::Int(5)));
    assert!(matches!(set.datum(0, 1), Datum::Null));
    assert!(matches!(set.datum(1, 1), Datum::Int(7)));
    assert!(matches!(set.datum(9, 0), Datum::Null));
}

#[test]
fn a_set_read_in_order_lends_its_values() {
    let set = set_of(&[("b", 2), ("a", 1)]);
    let order = set.order();
    let rows = set.in_order(&order);
    assert_eq!(rows.len(), 2);
    assert!(matches!(rows.value(0, 0), Datum::Text(b"a")));
    assert!(matches!(rows.value(1, 1), Datum::Int(2)));
    assert!(matches!(rows.value(2, 0), Datum::Null));
}

#[test]
fn giving_back_the_scratch_keeps_the_rows() {
    let mut set = set_of(&[("b", 2), ("a", 1), ("c", 3)]);
    let order = set.order();
    set.release_sort_scratch();
    assert_eq!(set.len(), 3);
    assert_eq!(integers(&set, &order, 1), vec![1, 2, 3]);
    assert_eq!(set.order(), vec![1, 0, 2]);
}

#[test]
fn entries_go_on_being_pushed_once_the_scratch_is_given_back() {
    let mut set = set_of(&[("b", 2), ("a", 1)]);
    set.release_sort_scratch();
    set.push(&[Datum::Text(b"aa"), Datum::Int(9)]);
    set.push(&[Datum::Text(b"0")]);
    assert_eq!(set.len(), 4);
    assert!(matches!(set.datum(3, 1), Datum::Null));
    assert_eq!(set.order(), vec![3, 1, 2, 0]);
}

#[test]
fn a_rowid_set_holds_what_is_no_integer() {
    let mut set = EntrySet::with_capacity(1, 3, KeyEncoding::Rowid, &[Collation::Binary], &[]);
    set.push(&[Datum::Int(7)]);
    set.push(&[Datum::Text(b"x")]);
    set.push(&[Datum::Null]);
    set.push(&[Datum::Int(-1)]);
    assert_eq!(set.len(), 4);
    assert!(matches!(set.datum(1, 0), Datum::Text(b"x")));
    assert_eq!(set.order(), vec![2, 3, 0, 1]);
}

#[test]
fn a_short_key_is_its_own_prefix() {
    let mut short = Vec::new();
    let binary = [Collation::Binary];
    encode_prefix(KeyEncoding::General, &[Datum::Null], 1, &binary, &[], &mut short);
    assert_eq!(short, vec![1]);
    let mut turned = Vec::new();
    encode_prefix(KeyEncoding::General, &[Datum::Null], 1, &binary, &[true], &mut turned);
    assert_eq!(turned, vec![254]);
    let mut key = Vec::new();
    let three = [Datum::Int(1), Datum::Int(2), Datum::Int(-1)];
    encode_prefix(KeyEncoding::Rowid, &three, 3, &binary, &[], &mut key);
    assert_eq!(key.len(), 24);
    assert_eq!(key[..8], [128, 0, 0, 0, 0, 0, 0, 1]);
    assert_eq!(key[16..], [127, 255, 255, 255, 255, 255, 255, 255]);
}

#[test]
fn a_prefix_is_of_what_the_collation_compares() {
    assert_eq!(clip(b"Abc", Collation::Binary), b"Abc".to_vec());
    assert_eq!(
        clip(b"abcdefghijklmnopqrs", Collation::Binary),
        b"abcdefghijklmnop".to_vec()
    );
    assert_eq!(
        clip(b"ABCDEFGHIJKLMNOPQRS", Collation::NoCase),
        b"abcdefghijklmnop".to_vec()
    );
    assert_eq!(
        clip(b"a   ", Collation::RTrim),
        clip(b"a", Collation::RTrim)
    );
}

#[test]
fn every_entry_is_placed_once() {
    let rows: Vec<(String, i64)> = (0..100)
        .map(|number| (format!("{:03}", (number * 37) % 50), number as i64))
        .collect();
    let borrowed: Vec<(&str, i64)> = rows
        .iter()
        .map(|(text, rowid)| (text.as_str(), *rowid))
        .collect();
    let set = set_of(&borrowed);
    let mut placed = set.order();
    placed.sort();
    assert_eq!(placed, (0..100u32).collect::<Vec<u32>>());
}
