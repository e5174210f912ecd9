//! What values are, and how two of them compare.

use inillucent_engine::numbers::real_from_int;
use inillucent_engine::text::{
    begins_with, capital_byte, fold, raise, same, same_folded, same_folded_text, small_byte,
    trim_text, write_decimal, write_signed,
};
use inillucent_engine::values::{
    compare_bytes, compare_text, compare_under, duplicate_row, find_nul, find_trim, head, place,
    same_row, same_value, Collation, Datum, Order, OwnedDatum, Real, STEP,
};

#[test]
fn an_order_turned_round_twice_is_itself() {
    assert_eq!(Order::Less.reverse(), Order::Greater);
    assert_eq!(Order::Equal.reverse(), Order::Equal);
    assert_eq!(Order::Greater.reverse().reverse(), Order::Greater);
}

#[test]
fn bytes_compare_as_numbers_and_a_prefix_comes_first() {
    assert_eq!(compare_bytes(b"ab", b"abc"), Order::Less);
    assert_eq!(compare_bytes(b"b", b"abc"), Order::Greater);
    assert_eq!(compare_bytes(&[0xFF], &[0x7F]), Order::Greater);
    assert_eq!(compare_bytes(b"", b""), Order::Equal);
}

#[test]
fn nocase_reads_up_to_a_nul_and_then_the_length() {
    assert_eq!(find_nul(b"ab\0c"), 2);
    assert_eq!(find_nul(b"abc"), 3);
    assert_eq!(compare_text(b"ABC", b"abc", Collation::NoCase), Order::Equal);
    assert_eq!(compare_text(b"a\0x", b"A\0y", Collation::NoCase), Order::Equal);
    assert_eq!(compare_text(b"a\0x", b"A\0yy", Collation::NoCase), Order::Less);
}

#[test]
fn rtrim_passes_over_the_spaces_at_the_end() {
    assert_eq!(find_trim(b"a b  "), 3);
    assert_eq!(compare_text(b"a  ", b"a", Collation::RTrim), Order::Equal);
    assert_eq!(compare_text(b"a  ", b"a", Collation::Binary), Order::Greater);
}

#[test]
fn a_head_is_the_first_bytes() {
    assert_eq!(head(b"abcdef", 4), b"abcd");
}

#[test]
fn kinds_of_values_compare_null_number_text_blob() {
    let row = [
        Datum::Null,
        Datum::Int(7),
        Datum::Text(b"a"),
        Datum::Blob(b"a"),
    ];
    for left in 0..4 {
        for right in 0..4 {
            let expected = if left < right {
                Order::Less
            } else if left == right {
                Order::Equal
            } else {
                Order::Greater
            };
            assert_eq!(
                compare_under(&row[left], &row[right], Collation::Binary),
                expected
            );
        }
    }
}

#[test]
fn a_real_compares_with_an_integer_by_where_it_stands() {
    let half = Real {
        place: STEP / 2,
        bits: 0.5f64.to_bits(),
    };
    assert_eq!(
        compare_under(&Datum::Real(half), &Datum::Int(1), Collation::Binary),
        Order::Less
    );
    assert_eq!(
        compare_under(&Datum::Real(half), &Datum::Int(0), Collation::Binary),
        Order::Greater
    );
    assert_eq!(place(&Datum::Int(-3)), -3 * STEP);
}

#[test]
fn an_integer_becomes_the_nearest_real() {
    for number in [
        0i64,
        1,
        -1,
        1 << 53,
        (1 << 53) + 1,
        (1 << 53) + 3,
        -(1 << 53) - 1,
        i64::MAX,
        i64::MIN,
        123_456_789_012_345_678,
    ] {
        let made = real_from_int(number);
        assert_eq!(made.bits, (number as f64).to_bits(), "{}", number);
        assert_eq!(made.place, (number as f64) as i128 * STEP, "{}", number);
    }
}

#[test]
fn values_are_copied_and_lent_as_they_are() {
    let held = OwnedDatum::Text(b"abc".to_vec());
    assert!(matches!(held.borrow(), Datum::Text(b"abc")));
    assert!(same_value(&held, &held.duplicate()));
    assert!(same_value(&held, &OwnedDatum::from_datum(&held.borrow())));
    assert!(!same_value(&held, &OwnedDatum::Blob(b"abc".to_vec())));
    let row = vec![OwnedDatum::Null, OwnedDatum::Int(4)];
    assert!(same_row(&row, &duplicate_row(&row)));
    assert!(!same_row(&row, &row[..1]));
}

#[test]
fn letters_change_case_and_nothing_else_does() {
    assert_eq!(small_byte(b'Q'), b'q');
    assert_eq!(small_byte(b'['), b'[');
    assert_eq!(capital_byte(b'z'), b'Z');
    assert_eq!(fold(b"MiXed_9\xC3"), b"mixed_9\xC3".to_vec());
    assert_eq!(raise(b"MiXed_9"), b"MIXED_9".to_vec());
}

#[test]
fn names_are_compared_whole_or_without_case() {
    assert!(same(b"abc", b"abc"));
    assert!(!same(b"abc", b"ABC"));
    assert!(same_folded(b"abc", b"ABC"));
    assert!(!same_folded(b"abc", b"abcd"));
    assert!(begins_with(b"sqlite_master", b"sqlite_"));
    assert!(!begins_with(b"sql", b"sqlite_"));
    assert!(same_folded_text("ABC", "abc"));
    assert!(!same_folded_text("ABC", "abd"));
}

#[test]
fn text_is_trimmed_of_white_space_at_both_ends() {
    assert_eq!(trim_text(" \t a b \n"), "a b");
    assert_eq!(trim_text("\u{2003}x\u{3000}"), "x");
    assert_eq!(trim_text("   "), "");
}

#[test]
fn numbers_are_written_in_digits() {
    let mut out = b"n=".to_vec();
    write_decimal(18_446_744_073_709_551_615, &mut out);
    assert_eq!(out, b"n=18446744073709551615".to_vec());
    let mut signed = Vec::new();
    write_signed(-9_223_372_036_854_775_808, &mut signed);
    write_signed(0, &mut signed);
    write_signed(42, &mut signed);
    assert_eq!(signed, b"-9223372036854775808042".to_vec());
}
