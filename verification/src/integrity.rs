//! Whether each index agrees with the table it is on.
//!
//! A check reads and never repairs. What it reports is worded as the dialect
//! words it, because an application matching on the answer is matching on the
//! text.

use vstd::prelude::*;

use crate::rowshape::{entry_width, index_shape, plain_entry, plain_index_entry, shapes_index};
use crate::refusals::Refusal;
use crate::schema::{ColumnSpec, IndexInfo, Recorded, SourceLayout, TableInfo, TreeStats};
use crate::sessions::{numbers_of, SessionState, MAIN};
use crate::text::{
    append, append_shown, ascii, copied, fold, folded, same, same_folded, shown, signed_decimal,
    write_signed,
};
use crate::values::{owned_row, owned_rows, OwnedDatum, Value};
use crate::write::{arranged, evenly_keyed, in_key_order};

verus! {

/// How much of a file a check reads.
#[derive(Clone, Copy, Debug, PartialEq, Eq, Structural)]
pub enum CheckDepth {
    /// Every tree's own shape, and who holds every page: `PRAGMA quick_check`.
    Quick,
    /// That, and every index against the table it is on:
    /// `PRAGMA integrity_check`.
    Full,
}

/// Whether two values of one class are one value: two numbers of the same kind
/// by where they stand, anything else by what it is.
pub open spec fn matches_value(left: Value, right: Value) -> bool {
    match (left, right) {
        (Value::Real(one), Value::Real(two)) => one.place == two.place,
        _ => left == right,
    }
}

/// Whether two rows hold matching values.
pub open spec fn matches_row(left: Seq<Value>, right: Seq<Value>) -> bool {
    &&& left.len() == right.len()
    &&& forall|i: int| 0 <= i < left.len() ==> matches_value(#[trigger] left[i], right[i])
}

/// Reports whether two values are one value.
fn value_matches(left: &OwnedDatum, right: &OwnedDatum) -> (answer: bool)
    ensures
        answer == matches_value(left@, right@),
        answer <==> left@ == right@ || (left@ is Real && right@ is Real && left@->Real_0.place
            == right@->Real_0.place),
{
    match (left, right) {
        (OwnedDatum::Real(one), OwnedDatum::Real(two)) => one.place == two.place,
        _ => crate::values::same_value(left, right),
    }
}

/// Reports whether two rows hold matching values.
fn row_matches(left: &[OwnedDatum], right: &[OwnedDatum]) -> (answer: bool)
    ensures
        answer == matches_row(owned_row(left@), owned_row(right@)),
        answer <==> left@.len() == right@.len() && (forall|i: int|
            0 <= i < left@.len() ==> (#[trigger] left@[i])@ == right@[i]@ || (left@[i]@ is Real
                && right@[i]@ is Real && left@[i]@->Real_0.place == right@[i]@->Real_0.place)),
{
    if left.len() != right.len() {
        return false;
    }
    for at in 0..left.len()
        invariant
            left@.len() == right@.len(),
            forall|i: int|
                0 <= i < at ==> matches_value(
                    #[trigger] owned_row(left@)[i],
                    owned_row(right@)[i],
                ),
            forall|i: int|
                0 <= i < at ==> (#[trigger] left@[i])@ == right@[i]@ || (left@[i]@ is Real
                    && right@[i]@ is Real && left@[i]@->Real_0.place == right@[i]@->Real_0.place),
    {
        if !value_matches(&left[at], &right[at]) {
            assert(!matches_value(owned_row(left@)[at as int], owned_row(right@)[at as int]));
            return false;
        }
    }
    true
}

/// The indexed columns of an entry, none when it has too few.
pub open spec fn key_part(entry: Seq<Value>, width: int) -> Seq<Value> {
    if width <= entry.len() {
        entry.take(width)
    } else {
        Seq::empty()
    }
}

/// Whether a row holds a NULL.
pub open spec fn holds_null(row: Seq<Value>) -> bool {
    exists|i: int| 0 <= i < row.len() && (#[trigger] row[i]) is Null
}

/// Whether an entry has the key of the one before it. Every NULL is distinct, so
/// a key holding one is nothing's duplicate.
pub open spec fn repeats(entries: Seq<Seq<Value>>, width: int, at: int) -> bool {
    let here = key_part(entries[at], width);
    let before = key_part(entries[at - 1], width);
    0 < at && !holds_null(here) && !holds_null(before) && matches_row(before, here)
}

/// Whether an entry the table implies is not where the index should hold it.
pub open spec fn absent(implied: Seq<Seq<Value>>, entries: Seq<Seq<Value>>, at: int) -> bool {
    at >= entries.len() || !matches_row(implied[at], entries[at])
}

/// Whether an index's entries need an expression evaluated to be known.
pub open spec fn is_computed(index: IndexInfo) -> bool {
    index.partial_sql is Some || exists|i: int|
        0 <= i < index.columns@.len() && (#[trigger] index.columns@[i]).expr_sql is Some
}

/// How an index disagrees with its table.
#[derive(Clone, Copy, Debug, PartialEq, Eq, Structural)]
pub enum Disagreement {
    /// Two entries share a key of a `UNIQUE` index.
    Repeated,
    /// The entry the table implies at a place, in key order, is not there.
    Missing(usize),
    /// There are entries the table does not imply.
    Surplus,
}

/// Whether an index disagrees with its table, and how.
///
/// A shared key is named first; then the first row whose entry is not there,
/// before the count, because a row whose entry was taken away is both. An index
/// whose entries would have to be computed is checked for shared keys only.
pub open spec fn disagrees(
    index: IndexInfo,
    implied: Seq<Seq<Value>>,
    entries: Seq<Seq<Value>>,
    found: Option<Disagreement>,
) -> bool {
    let width = index.columns@.len() as int;
    let shared = index.unique && exists|i: int|
        0 < i < entries.len() && #[trigger] repeats(entries, width, i);
    match found {
        Some(Disagreement::Repeated) => shared,
        Some(Disagreement::Missing(at)) => {
            &&& !shared
            &&& !is_computed(index)
            &&& at < implied.len()
            &&& absent(implied, entries, at as int)
            &&& forall|i: int| 0 <= i < at ==> !#[trigger] absent(implied, entries, i)
        },
        Some(Disagreement::Surplus) => {
            &&& !shared
            &&& !is_computed(index)
            &&& forall|i: int| 0 <= i < implied.len() ==> !#[trigger] absent(implied, entries, i)
            &&& implied.len() != entries.len()
        },
        None => {
            &&& !shared
            &&& is_computed(index) || (implied.len() == entries.len() && forall|i: int|
                0 <= i < implied.len() ==> !#[trigger] absent(implied, entries, i))
        },
    }
}

/// Reports whether an index's entries would have to be computed.
fn computed(index: &IndexInfo) -> (answer: bool)
    ensures
        answer == is_computed(*index),
        answer <==> index.partial_sql is Some || exists|i: int|
            0 <= i < index.columns@.len() && (#[trigger] index.columns@[i]).expr_sql is Some,
{
    if index.partial_sql.is_some() {
        return true;
    }
    for at in 0..index.columns.len()
        invariant
            index.partial_sql is None,
            forall|i: int| 0 <= i < at ==> (#[trigger] index.columns@[i]).expr_sql is None,
    {
        if index.columns[at].expr_sql.is_some() {
            return true;
        }
    }
    false
}

/// Reports whether a row holds a NULL.
fn has_null(row: &[OwnedDatum]) -> (answer: bool)
    ensures
        answer == holds_null(owned_row(row@)),
        answer <==> exists|i: int| 0 <= i < row@.len() && (#[trigger] row@[i])@ is Null,
{
    for at in 0..row.len()
        invariant
            forall|i: int| 0 <= i < at ==> !((#[trigger] owned_row(row@)[i]) is Null),
            forall|i: int| 0 <= i < at ==> !((#[trigger] row@[i])@ is Null),
    {
        if matches!(row[at], OwnedDatum::Null) {
            assert(owned_row(row@)[at as int] is Null);
            return true;
        }
    }
    false
}

/// Returns the indexed columns of an entry, none when it has too few.
fn key_of_entry(entry: &[OwnedDatum], width: usize) -> (key: &[OwnedDatum])
    ensures
        owned_row(key@) == key_part(owned_row(entry@), width as int),
        width <= entry@.len() ==> key@ == entry@.take(width as int),
        width > entry@.len() ==> key@.len() == 0,
{
    if width <= entry.len() {
        let key = &entry[0..width];
        assert(owned_row(key@) =~= owned_row(entry@).take(width as int));
        key
    } else {
        let key = &entry[0..0];
        assert(owned_row(key@) =~= Seq::<Value>::empty());
        key
    }
}

/// Reports whether an index's entries are the ones its table implies.
///
/// Both lists are in the index's own key order, so this is two walks and a merge
/// with no search between them.
pub fn compare_entries(
    index: &IndexInfo,
    implied: &[Vec<OwnedDatum>],
    entries: &[Vec<OwnedDatum>],
) -> (found: Option<Disagreement>)
    ensures
        disagrees(*index, owned_rows(implied@), owned_rows(entries@), found),
{
    let width: usize = index.columns.len();
    let ghost held = owned_rows(entries@);
    let ghost wanted = owned_rows(implied@);
    if index.unique {
        for at in 0..entries.len()
            invariant
                width == index.columns@.len(),
                held == owned_rows(entries@),
                index.unique,
                forall|i: int| 0 < i < at ==> !#[trigger] repeats(held, width as int, i),
        {
            if at > 0 {
                let here = key_of_entry(&entries[at], width);
                let before = key_of_entry(&entries[at - 1], width);
                assert(held[at as int] == owned_row(entries@[at as int]@));
                assert(held[at - 1] == owned_row(entries@[at - 1]@));
                if !has_null(here) && !has_null(before) && row_matches(before, here) {
                    assert(repeats(held, width as int, at as int));
                    return Some(Disagreement::Repeated);
                }
                assert(!repeats(held, width as int, at as int));
            }
        }
    }
    if computed(index) {
        return None;
    }
    for at in 0..implied.len()
        invariant
            held == owned_rows(entries@),
            wanted == owned_rows(implied@),
            !is_computed(*index),
            !(index.unique && exists|i: int|
                0 < i < held.len() && #[trigger] repeats(held, index.columns@.len() as int, i)),
            forall|i: int| 0 <= i < at ==> !#[trigger] absent(wanted, held, i),
    {
        assert(wanted[at as int] == owned_row(implied@[at as int]@));
        if at >= entries.len() {
            assert(absent(wanted, held, at as int));
            return Some(Disagreement::Missing(at));
        }
        assert(held[at as int] == owned_row(entries@[at as int]@));
        if !row_matches(&implied[at], &entries[at]) {
            assert(absent(wanted, held, at as int));
            return Some(Disagreement::Missing(at));
        }
    }
    if entries.len() != implied.len() {
        return Some(Disagreement::Surplus);
    }
    None
}

/// An index with nothing to compute agrees with its table exactly when it holds
/// the entries the table implies, in their order, and repeats no key it must
/// keep unique.
pub proof fn agreement_is_equality(
    index: IndexInfo,
    implied: Seq<Seq<Value>>,
    entries: Seq<Seq<Value>>,
)
    requires
        !is_computed(index),
        disagrees(index, implied, entries, None),
    ensures
        implied.len() == entries.len(),
        forall|i: int| 0 <= i < implied.len() ==> matches_row(#[trigger] implied[i], entries[i]),
        index.unique ==> forall|i: int|
            0 < i < entries.len() ==> !#[trigger] repeats(
                entries,
                index.columns@.len() as int,
                i,
            ),
{
    assert forall|i: int| 0 <= i < implied.len() implies matches_row(
        #[trigger] implied[i],
        entries[i],
    ) by {
        assert(!absent(implied, entries, i));
    }
}

/// A shared key is found only where there is one: two neighbouring entries of a
/// `UNIQUE` index that are one value in every indexed column, none of them NULL.
///
/// Two values are one where they are of one class and say the same: the same integer,
/// the same bytes, or a number that stands at the same place.
pub proof fn a_shared_key_is_there(
    index: IndexInfo,
    implied: Seq<Seq<Value>>,
    entries: Seq<Seq<Value>>,
) -> (at: int)
    requires
        disagrees(index, implied, entries, Some(Disagreement::Repeated)),
        forall|i: int|
            0 <= i < entries.len() ==> (#[trigger] entries[i]).len() >= index.columns@.len(),
    ensures
        index.unique,
        0 < at < entries.len(),
        forall|c: int|
            #![trigger entries[at][c]]
            0 <= c < index.columns@.len() ==> !(entries[at][c] is Null) && !(entries[at - 1][c]
                is Null) && (entries[at - 1][c] == entries[at][c] || (entries[at - 1][c] is Real
                && entries[at][c] is Real && entries[at - 1][c]->Real_0.place
                == entries[at][c]->Real_0.place)),
{
    let width = index.columns@.len() as int;
    let at = choose|i: int| 0 < i < entries.len() && #[trigger] repeats(entries, width, i);
    assert(repeats(entries, width, at));
    assert forall|c: int|
        #![trigger entries[at][c]]
        0 <= c < index.columns@.len() implies !(entries[at][c] is Null) && !(entries[at - 1][c]
        is Null) && (entries[at - 1][c] == entries[at][c] || (entries[at - 1][c] is Real
        && entries[at][c] is Real && entries[at - 1][c]->Real_0.place
        == entries[at][c]->Real_0.place)) by {
        assert(entries[at].take(width)[c] == entries[at][c]);
        assert(entries[at - 1].take(width)[c] == entries[at - 1][c]);
    }
    at
}

/// A shared key is found wherever there is one: an index found to share none has, of
/// every two neighbouring entries, a NULL or a difference in some indexed column.
pub proof fn no_shared_key_is_passed_over(
    index: IndexInfo,
    implied: Seq<Seq<Value>>,
    entries: Seq<Seq<Value>>,
    found: Option<Disagreement>,
    at: int,
) -> (column: int)
    requires
        disagrees(index, implied, entries, found),
        found != Some(Disagreement::Repeated),
        index.unique,
        forall|i: int|
            0 <= i < entries.len() ==> (#[trigger] entries[i]).len() >= index.columns@.len(),
        0 < at < entries.len(),
    ensures
        0 <= column < index.columns@.len(),
        entries[at][column] is Null || entries[at - 1][column] is Null || (entries[at - 1][column]
            != entries[at][column] && !(entries[at - 1][column] is Real && entries[at][column]
            is Real && entries[at - 1][column]->Real_0.place
            == entries[at][column]->Real_0.place)),
{
    let width = index.columns@.len() as int;
    assert(!repeats(entries, width, at));
    let here = entries[at].take(width);
    let before = entries[at - 1].take(width);
    if holds_null(here) {
        choose|c: int| 0 <= c < here.len() && (#[trigger] here[c]) is Null
    } else if holds_null(before) {
        choose|c: int| 0 <= c < before.len() && (#[trigger] before[c]) is Null
    } else {
        assert(!matches_row(before, here));
        choose|c: int| 0 <= c < before.len() && !matches_value(#[trigger] before[c], here[c])
    }
}

/// An entry that is not there is found, and so is one too many: the first entry the
/// table implies that the index does not hold in its place is the one named, and an
/// index nothing is found of holds the very entries its table implies, value by value.
pub proof fn a_check_finds_what_is_missing(
    index: IndexInfo,
    implied: Seq<Seq<Value>>,
    entries: Seq<Seq<Value>>,
    found: Option<Disagreement>,
)
    requires
        disagrees(index, implied, entries, found),
    ensures
        found matches Some(Disagreement::Missing(at)) ==> {
            &&& index.partial_sql is None
            &&& forall|c: int|
                0 <= c < index.columns@.len() ==> (#[trigger] index.columns@[c]).expr_sql is None
            &&& at < implied.len()
            &&& at < entries.len() && entries[at as int].len() == implied[at as int].len()
                ==> exists|c: int|
                #![trigger entries[at as int][c]]
                0 <= c < implied[at as int].len() && implied[at as int][c]
                    != entries[at as int][c] && !(implied[at as int][c] is Real
                    && entries[at as int][c] is Real && implied[at as int][c]->Real_0.place
                    == entries[at as int][c]->Real_0.place)
            &&& at <= entries.len()
            &&& forall|i: int, c: int|
                #![trigger implied[i][c]]
                0 <= i < at && 0 <= c < implied[i].len() ==> entries[i].len() == implied[i].len()
                    && (implied[i][c] == entries[i][c] || (implied[i][c] is Real && entries[i][c]
                    is Real && implied[i][c]->Real_0.place == entries[i][c]->Real_0.place))
        },
        found == Some(Disagreement::Surplus) ==> entries.len() > implied.len(),
        (found == Some(Disagreement::Surplus) || (found is None && index.partial_sql is None && (
        forall|c: int|
            0 <= c < index.columns@.len() ==> (#[trigger] index.columns@[c]).expr_sql is None)))
            ==> implied.len() <= entries.len() && forall|i: int, c: int|
            #![trigger implied[i][c]]
            0 <= i < implied.len() && 0 <= c < implied[i].len() ==> entries[i].len()
                == implied[i].len() && (implied[i][c] == entries[i][c] || (implied[i][c] is Real
                && entries[i][c] is Real && implied[i][c]->Real_0.place
                == entries[i][c]->Real_0.place)),
        found is None && index.partial_sql is None && (forall|c: int|
            0 <= c < index.columns@.len() ==> (#[trigger] index.columns@[c]).expr_sql is None)
            ==> implied.len() == entries.len(),
{
    if let Some(Disagreement::Missing(at)) = found {
        assert(at <= entries.len()) by {
            if at > entries.len() {
                assert(!absent(implied, entries, entries.len() as int));
            }
        }
        if at < entries.len() && entries[at as int].len() == implied[at as int].len() {
            let c = choose|c: int|
                0 <= c < implied[at as int].len() && !matches_value(
                    #[trigger] implied[at as int][c],
                    entries[at as int][c],
                );
            assert(implied[at as int][c] != entries[at as int][c]);
        }
    }
    let upto = match found {
        Some(Disagreement::Missing(at)) => at as int,
        Some(Disagreement::Repeated) => 0,
        Some(Disagreement::Surplus) => implied.len() as int,
        None => if is_computed(index) {
            0
        } else {
            implied.len() as int
        },
    };
    assert forall|i: int| 0 <= i < upto implies i < entries.len() && matches_row(
        #[trigger] implied[i],
        entries[i],
    ) by {
        assert(!absent(implied, entries, i));
    }
    if upto > 0 {
        assert(implied[upto - 1].len() >= 0);
        assert(!absent(implied, entries, upto - 1));
    }
}

/// There is one answer to whether an index disagrees, and how.
pub proof fn one_disagreement(
    index: IndexInfo,
    implied: Seq<Seq<Value>>,
    entries: Seq<Seq<Value>>,
    one: Option<Disagreement>,
    two: Option<Disagreement>,
)
    requires
        disagrees(index, implied, entries, one),
        disagrees(index, implied, entries, two),
    ensures
        one == two,
{
    if let (Some(Disagreement::Missing(a)), Some(Disagreement::Missing(b))) = (one, two) {
        if a < b {
            assert(!absent(implied, entries, a as int));
        }
        if b < a {
            assert(!absent(implied, entries, b as int));
        }
    }
    if let Some(Disagreement::Missing(a)) = one {
        if two is None || two == Some(Disagreement::Surplus) {
            assert(!absent(implied, entries, a as int));
        }
    }
    if let Some(Disagreement::Missing(b)) = two {
        if one is None || one == Some(Disagreement::Surplus) {
            assert(!absent(implied, entries, b as int));
        }
    }
}

/// How one identifying value is written in a report.
pub open spec fn identity_word(value: Value) -> Seq<u8> {
    match value {
        Value::Int(number) => signed_decimal(number as int),
        Value::Text(bytes) => shown(bytes),
        _ => seq![63u8],
    }
}

/// How the first identifying values are written, with commas between.
pub open spec fn identity_words(values: Seq<Value>, upto: int) -> Seq<u8>
    decreases upto,
{
    if upto <= 0 {
        Seq::empty()
    } else if upto == 1 {
        identity_word(values[0])
    } else {
        identity_words(values, upto - 1) + seq![44u8] + identity_word(values[upto - 1])
    }
}

/// How a row is named from its index entry: by what follows the indexed columns.
pub open spec fn identity_text(entry: Seq<Value>, width: int) -> Seq<u8> {
    if width >= entry.len() {
        seq![63u8]
    } else {
        identity_words(
            entry.subrange(width, entry.len() as int),
            entry.len() - width,
        )
    }
}

/// Names a row the way a report does, from its index entry.
///
/// A rowid or text is written out; anything else is a question mark.
pub fn entry_identity_text(entry: &[OwnedDatum], width: usize) -> (said: Vec<u8>)
    ensures
        said@ == identity_text(owned_row(entry@), width as int),
{
    let mut said: Vec<u8> = Vec::new();
    if width >= entry.len() {
        said.push(63);
        assert(said@ =~= seq![63u8]);
        return said;
    }
    let ghost values = owned_row(entry@).subrange(width as int, entry@.len() as int);
    for at in width..entry.len()
        invariant
            width < entry@.len(),
            values == owned_row(entry@).subrange(width as int, entry@.len() as int),
            said@ =~= identity_words(values, at - width),
    {
        if at > width {
            said.push(44);
        }
        let ghost before = said@;
        assert(values[at - width] == owned_row(entry@)[at as int]);
        match &entry[at] {
            OwnedDatum::Int(number) => {
                write_signed(*number, &mut said);
            },
            OwnedDatum::Text(bytes) => {
                append_shown(&mut said, bytes);
            },
            _ => {
                said.push(63);
            },
        }
        assert(said@ =~= before + identity_word(values[at - width]));
    }
    said
}

/// What a report says of a disagreement.
pub open spec fn report(
    index: IndexInfo,
    implied: Seq<Seq<Value>>,
    found: Disagreement,
) -> Seq<u8> {
    match found {
        Disagreement::Repeated => ascii("non-unique entry in index ") + shown(index.name@),
        Disagreement::Missing(at) => ascii("row ") + identity_text(
            implied[at as int],
            index.columns@.len() as int,
        ) + ascii(" missing from index ") + shown(index.name@),
        Disagreement::Surplus => ascii("wrong # of entries in index ") + shown(index.name@),
    }
}

/// Returns what a report says of a disagreement.
fn write_report(
    index: &IndexInfo,
    implied: &[Vec<OwnedDatum>],
    found: Disagreement,
) -> (said: Vec<u8>)
    requires
        found matches Disagreement::Missing(at) ==> at < implied@.len(),
    ensures
        said@ == report(*index, owned_rows(implied@), found),
        found is Repeated ==> said@ == ascii("non-unique entry in index ") + shown(index.name@),
        found is Surplus ==> said@ == ascii("wrong # of entries in index ") + shown(index.name@),
        found matches Disagreement::Missing(at) ==> said@ == ascii("row ") + identity_text(
            owned_row(implied@[at as int]@),
            index.columns@.len() as int,
        ) + ascii(" missing from index ") + shown(index.name@),
{
    let mut said: Vec<u8> = Vec::new();
    match found {
        Disagreement::Repeated => {
            append(&mut said, "non-unique entry in index ".as_bytes());
        },
        Disagreement::Missing(at) => {
            append(&mut said, "row ".as_bytes());
            let named = entry_identity_text(&implied[at], index.columns.len());
            append(&mut said, &named);
            append(&mut said, " missing from index ".as_bytes());
        },
        Disagreement::Surplus => {
            append(&mut said, "wrong # of entries in index ".as_bytes());
        },
    }
    append_shown(&mut said, &index.name);
    assert(said@ =~= report(*index, owned_rows(implied@), found));
    said
}

/// One table as a check walked it.
pub struct Walked {
    /// The table's layout.
    pub layout: SourceLayout,
    /// Its rows, in tree-column order.
    pub rows: Vec<Vec<OwnedDatum>>,
    /// The entries of each of its indexes, in key order; none where the index
    /// has no tree to walk.
    pub entries: Vec<Option<Vec<Vec<OwnedDatum>>>>,
}

/// The entries a table's rows imply, in the order the rows came in.
pub open spec fn implied_entries(
    index: IndexInfo,
    layout: SourceLayout,
    rows: Seq<Seq<Value>>,
) -> Seq<Seq<Value>> {
    rows.map_values(|row: Seq<Value>| plain_entry(index, layout, row))
}

/// Whether an index has a tree of its own to be checked.
pub open spec fn has_own_tree(table: TableInfo, index: IndexInfo) -> bool {
    index.root != 0 && index.root != table.root
}

/// Whether an index is checked against its table.
pub open spec fn is_checked(table: TableInfo, walked: Option<Walked>, at: int) -> bool {
    &&& walked is Some
    &&& 0 <= at < table.indexes@.len()
    &&& at < walked->Some_0.entries@.len()
    &&& has_own_tree(table, table.indexes@[at])
    &&& walked->Some_0.entries@[at] is Some
}

/// Whether a report on one index follows from its shape, the entries its table
/// implies in key order, and how they disagree with the ones it holds.
pub open spec fn follows(
    table: TableInfo,
    walked: Walked,
    at: int,
    columns: Seq<ColumnSpec>,
    layout: SourceLayout,
    implied: Seq<Seq<Value>>,
    places: Seq<usize>,
    found: Option<Disagreement>,
    said: Option<Seq<u8>>,
) -> bool {
    let index = table.indexes@[at];
    let entries = owned_rows(walked.entries@[at]->Some_0@);
    &&& shapes_index(table, index, index.root, columns, layout)
    &&& is_computed(index) || arranged(
        implied_entries(index, walked.layout, owned_rows(walked.rows@)),
        implied,
        columns,
        columns.len() as int,
        places,
    )
    &&& disagrees(index, implied, entries, found)
    &&& said == match found {
        Some(one) => Some(report(index, implied, one)),
        None => None,
    }
}

/// Whether a report on one index of a walked table is right.
pub open spec fn reports(
    table: TableInfo,
    walked: Walked,
    at: int,
    said: Option<Seq<u8>>,
) -> bool {
    exists|
        columns: Seq<ColumnSpec>,
        layout: SourceLayout,
        implied: Seq<Seq<Value>>,
        places: Seq<usize>,
        found: Option<Disagreement>,
    | #[trigger]
        follows(table, walked, at, columns, layout, implied, places, found, said)
}

/// Returns what a report says of one index of a walked table, when it says
/// anything.
///
/// The entries the rows imply are put into the index's own key order, under the
/// index's own collations and directions, before they are compared, so there is
/// no second opinion about the order to drift from the first.
pub fn index_report(table: &TableInfo, walked: &Walked, at: usize) -> (said: Option<Vec<u8>>)
    requires
        is_checked(*table, Some(*walked), at as int),
        table.indexes@[at as int].columns@.len() + table.columns@.len() < usize::MAX,
    ensures
        reports(
            *table,
            *walked,
            at as int,
            match said {
                Some(text) => Some(text@),
                None => None,
            },
        ),
{
    let index = &table.indexes[at];
    let (columns, layout) = index_shape(table, index, index.root);
    let entries: &Vec<Vec<OwnedDatum>> = match &walked.entries[at] {
        Some(entries) => entries,
        None => {
            return None;
        },
    };
    let mut implied: Vec<Vec<OwnedDatum>> = Vec::new();
    let ghost whole = implied_entries(*index, walked.layout, owned_rows(walked.rows@));
    let ghost mut places: Seq<usize> = Seq::empty();
    if !computed(index) {
        for row in 0..walked.rows.len()
            invariant
                *index == table.indexes@[at as int],
                whole == implied_entries(*index, walked.layout, owned_rows(walked.rows@)),
                owned_rows(implied@) =~= whole.take(row as int),
        {
            let ghost before = implied@;
            let entry = plain_index_entry(index, &walked.layout, &walked.rows[row]);
            implied.push(entry);
            assert(owned_rows(implied@) =~= owned_rows(before).push(whole[row as int]));
        }
        assert(whole.take(walked.rows@.len() as int) =~= whole);
        let width: usize = columns.len();
        assert(evenly_keyed(owned_rows(implied@), width as int)) by {
            assert forall|i: int, j: int|
                0 <= i < whole.len() && 0 <= j < whole.len() implies (#[trigger] whole[i]).len()
                == (#[trigger] whole[j]).len() by {
                entry_width(*index, walked.layout, owned_rows(walked.rows@)[i]);
                entry_width(*index, walked.layout, owned_rows(walked.rows@)[j]);
            }
        }
        implied = in_key_order(implied, &columns, width);
        proof {
            places = choose|places: Seq<usize>| #[trigger]
                arranged(whole, owned_rows(implied@), columns@, width as int, places);
        }
    }
    let found = compare_entries(index, &implied, entries);
    let said = match found {
        Some(one) => Some(write_report(index, &implied, one)),
        None => None,
    };
    proof {
        assert(follows(
            *table,
            *walked,
            at as int,
            columns@,
            layout,
            owned_rows(implied@),
            places,
            found,
            match said {
                Some(text) => Some(text@),
                None => None,
            },
        ));
    }
    said
}

/// Whether an index of some table is checked before another.
pub open spec fn checked_before(one: (int, int), two: (int, int)) -> bool {
    one.0 < two.0 || (one.0 == two.0 && one.1 < two.1)
}

/// Whether every declaration is short enough to be given a shape.
pub open spec fn shapeable(tables: Seq<TableInfo>) -> bool {
    forall|t: int, i: int|
        #![trigger tables[t].indexes@[i]]
        0 <= t < tables.len() && 0 <= i < tables[t].indexes@.len()
            ==> tables[t].indexes@[i].columns@.len() + tables[t].columns@.len() < usize::MAX
}

/// Reports the first disagreement between an index and the table it is on.
///
/// Tables and indexes are taken in the order they are listed. A table that was
/// not walked, and an index with no tree of its own, are passed over: an index
/// at its table's own root is the table.
pub fn check_indexes_agree(tables: &[TableInfo], walked: &[Option<Walked>]) -> (outcome: Result<
    (),
    Vec<u8>,
>)
    requires
        tables@.len() == walked@.len(),
        shapeable(tables@),
    ensures
        match outcome {
            Ok(_) => forall|t: int, i: int|
                #![trigger is_checked(tables@[t], walked@[t], i)]
                0 <= t < tables@.len() && is_checked(tables@[t], walked@[t], i) ==> reports(
                    tables@[t],
                    walked@[t]->Some_0,
                    i,
                    None,
                ),
            Err(said) => exists|t: int, i: int|
                #![trigger is_checked(tables@[t], walked@[t], i)]
                {
                    &&& 0 <= t < tables@.len()
                    &&& is_checked(tables@[t], walked@[t], i)
                    &&& reports(tables@[t], walked@[t]->Some_0, i, Some(said@))
                    &&& forall|u: int, j: int|
                        #![trigger is_checked(tables@[u], walked@[u], j)]
                        0 <= u < tables@.len() && is_checked(tables@[u], walked@[u], j)
                            && checked_before((u, j), (t, i)) ==> reports(
                            tables@[u],
                            walked@[u]->Some_0,
                            j,
                            None,
                        )
                },
        },
{
    for t in 0..tables.len()
        invariant
            tables@.len() == walked@.len(),
            shapeable(tables@),
            forall|u: int, j: int|
                #![trigger is_checked(tables@[u], walked@[u], j)]
                0 <= u < t && is_checked(tables@[u], walked@[u], j) ==> reports(
                    tables@[u],
                    walked@[u]->Some_0,
                    j,
                    None,
                ),
    {
        let table = &tables[t];
        match &walked[t] {
            None => {},
            Some(seen) => {
                for at in 0..table.indexes.len()
                    invariant
                        t < tables@.len(),
                        tables@.len() == walked@.len(),
                        shapeable(tables@),
                        *table == tables@[t as int],
                        walked@[t as int] == Some(*seen),
                        forall|u: int, j: int|
                            #![trigger is_checked(tables@[u], walked@[u], j)]
                            0 <= u < t && is_checked(tables@[u], walked@[u], j) ==> reports(
                                tables@[u],
                                walked@[u]->Some_0,
                                j,
                                None,
                            ),
                        forall|j: int|
                            #![trigger is_checked(tables@[t as int], walked@[t as int], j)]
                            0 <= j < at && is_checked(tables@[t as int], walked@[t as int], j)
                                ==> reports(*table, *seen, j, None),
                {
                    let index = &table.indexes[at];
                    if index.root != 0 && index.root != table.root && at < seen.entries.len()
                        && seen.entries[at].is_some() {
                        assert(is_checked(tables@[t as int], walked@[t as int], at as int));
                        assert(tables@[t as int].indexes@[at as int].columns@.len()
                            + tables@[t as int].columns@.len() < usize::MAX);
                        match index_report(table, seen, at) {
                            Some(said) => {
                                return Err(said);
                            },
                            None => {},
                        }
                    }
                }
            },
        }
    }
    Ok(())
}

/// One thing a check does.
#[derive(Clone, Copy, Debug, PartialEq, Eq, Structural)]
pub enum CheckStep {
    /// A file's page count is held against what a file can have.
    PageCount(usize),
    /// A tree belongs to a database that is not attached: the check is refused.
    NotAttached,
    /// A tree's own shape is checked.
    Tree(u32),
    /// Who holds every page is checked.
    Pages,
    /// Every index is held against the table it is on.
    Indexes,
}

/// The files of trees, each once, in the order they are come across.
pub open spec fn files_seen(state: SessionState, handles: Seq<u32>) -> Seq<int>
    decreases handles.len(),
{
    if handles.len() == 0 {
        seq![]
    } else {
        let before = files_seen(state, handles.drop_last());
        let at = state.owned_by(handles.last());
        if before.contains(at) {
            before
        } else {
            before.push(at)
        }
    }
}

/// Whether a database is there to be read.
pub open spec fn is_open(state: SessionState, at: int) -> bool {
    at == MAIN || state.beside_main(at) is Some
}

/// How many of some databases come before the first that is not there.
pub open spec fn open_before(state: SessionState, files: Seq<int>) -> int
    decreases files.len(),
{
    if files.len() == 0 {
        0
    } else {
        let before = open_before(state, files.drop_last());
        if before == files.len() - 1 && is_open(state, files.last()) {
            before + 1
        } else {
            before
        }
    }
}

/// Everything a check does, in order.
///
/// The page counts come first: every check after them follows pointers, which a
/// page count that describes no file cannot bound. The indexes come last,
/// because holding each against its table is what costs the most.
pub open spec fn steps_of(state: SessionState, handles: Seq<u32>, depth: CheckDepth) -> Seq<
    CheckStep,
> {
    let files = files_seen(state, handles);
    let opened = open_before(state, files);
    let counts = Seq::new(opened as nat, |i: int| CheckStep::PageCount(files[i] as usize));
    if opened < files.len() {
        counts.push(CheckStep::NotAttached)
    } else {
        let all = counts + Seq::new(handles.len(), |i: int| CheckStep::Tree(handles[i]))
            + seq![CheckStep::Pages];
        match depth {
            CheckDepth::Quick => all,
            CheckDepth::Full => all.push(CheckStep::Indexes),
        }
    }
}

/// The first of more databases that is not there is the first of fewer.
proof fn a_closed_file_stays_first(state: SessionState, files: Seq<int>, upto: int)
    requires
        0 <= upto <= files.len(),
        open_before(state, files.take(upto)) < upto,
    ensures
        open_before(state, files) == open_before(state, files.take(upto)),
    decreases files.len() - upto,
{
    if upto < files.len() {
        assert(files.take(upto + 1).drop_last() =~= files.take(upto));
        a_closed_file_stays_first(state, files, upto + 1);
    } else {
        assert(files.take(upto) =~= files);
    }
}

/// Returns the files of trees, each once, in the order they are come across.
fn files_of(state: &SessionState, handles: &[u32]) -> (files: Vec<usize>)
    ensures
        numbers_of(files@) == files_seen(*state, handles@),
{
    let mut files: Vec<usize> = Vec::new();
    assert(handles@.take(0) =~= seq![]);
    assert(numbers_of(files@) =~= seq![]);
    for nth in 0..handles.len()
        invariant
            numbers_of(files@) == files_seen(*state, handles@.take(nth as int)),
    {
        assert(handles@.take(nth + 1).drop_last() =~= handles@.take(nth as int));
        let at: usize = state.schema_of(handles[nth]);
        let ghost before = files@;
        let mut seen = false;
        for other in 0..files.len()
            invariant
                files@ == before,
                seen == exists|i: int| 0 <= i < other && #[trigger] files@[i] == at,
        {
            if files[other] == at {
                seen = true;
            }
        }
        proof {
            if seen {
                let i = choose|i: int| 0 <= i < files@.len() && #[trigger] files@[i] == at;
                assert(numbers_of(before)[i] == at);
            } else if numbers_of(before).contains(at as int) {
                let i = choose|i: int| 0 <= i < before.len() && numbers_of(before)[i] == at;
                assert(before[i] == at);
            }
        }
        if !seen {
            files.push(at);
            assert(numbers_of(files@) =~= numbers_of(before).push(at as int));
        }
    }
    assert(handles@.take(handles@.len() as int) =~= handles@);
    files
}

/// Returns everything a check of some trees does, in order.
///
/// Whatever does the steps stops at the first that fails.
pub fn check_trees_to(state: &SessionState, handles: &[u32], depth: CheckDepth) -> (steps: Vec<
    CheckStep,
>)
    ensures
        steps@ == steps_of(*state, handles@, depth),
{
    let files = files_of(state, handles);
    let ghost all = numbers_of(files@);
    let mut steps: Vec<CheckStep> = Vec::new();
    for nth in 0..files.len()
        invariant
            all == numbers_of(files@),
            all == files_seen(*state, handles@),
            steps@ == Seq::new(nth as nat, |i: int| CheckStep::PageCount(all[i] as usize)),
            open_before(*state, all.take(nth as int)) == nth,
    {
        let at: usize = files[nth];
        assert(all[nth as int] == at);
        assert(all.take(nth + 1).drop_last() =~= all.take(nth as int));
        assert(all.take(nth + 1).last() == at);
        let there = at == MAIN || state.schema_at(at).is_some();
        if !there {
            proof {
                assert(open_before(*state, all.take(nth + 1)) == nth);
                a_closed_file_stays_first(*state, all, nth + 1);
            }
            steps.push(CheckStep::NotAttached);
            return steps;
        }
        steps.push(CheckStep::PageCount(at));
        assert(steps@ =~= Seq::new(
            (nth + 1) as nat,
            |i: int| CheckStep::PageCount(all[i] as usize),
        ));
    }
    assert(all.take(all.len() as int) =~= all);
    let ghost counts = steps@;
    for nth in 0..handles.len()
        invariant
            steps@ == counts + Seq::new(nth as nat, |i: int| CheckStep::Tree(handles@[i])),
    {
        steps.push(CheckStep::Tree(handles[nth]));
        assert(steps@ =~= counts + Seq::new(
            (nth + 1) as nat,
            |i: int| CheckStep::Tree(handles@[i]),
        ));
    }
    steps.push(CheckStep::Pages);
    match depth {
        CheckDepth::Quick => {},
        CheckDepth::Full => {
            steps.push(CheckStep::Indexes);
        },
    }
    steps
}

/// A deeper check does everything a shallower one does, first.
pub proof fn a_full_check_begins_with_a_quick_one(state: SessionState, handles: Seq<u32>)
    ensures
        steps_of(state, handles, CheckDepth::Quick).is_prefix_of(
            steps_of(state, handles, CheckDepth::Full),
        ),
{
    let quick = steps_of(state, handles, CheckDepth::Quick);
    let full = steps_of(state, handles, CheckDepth::Full);
    assert(full.take(quick.len() as int) =~= quick);
}

/// Whether an index is the first of a name, in the order of the tables.
pub open spec fn first_index_named(
    tables: Seq<TableInfo>,
    name: Seq<u8>,
    table: int,
    at: int,
) -> bool {
    &&& is_index_named(tables, name, table, at)
    &&& forall|other: int, which: int| #[trigger]
        is_index_named(tables, name, other, which) ==> table < other || (table == other && at
            <= which)
}

/// Whether an index has a name, whatever the case of its letters.
pub open spec fn is_index_named(tables: Seq<TableInfo>, name: Seq<u8>, table: int, at: int) -> bool {
    &&& 0 <= table < tables.len()
    &&& 0 <= at < tables[table].indexes@.len()
    &&& tables[table].indexes@[at].folded@ == folded(name)
}

/// Returns the handle of the tree behind the first index of a name.
pub fn index_root(tables: &[TableInfo], name: &[u8]) -> (root: Result<u32, Refusal>)
    ensures
        match root {
            Ok(root) => exists|table: int, at: int|
                first_index_named(tables@, name@, table, at) && root
                    == tables@[table].indexes@[at].root,
            Err(refusal) => {
                &&& refusal matches Refusal::NoSuchIndex(said)
                &&& said@ == name@
                &&& forall|table: int, at: int| !(#[trigger]
                    is_index_named(tables@, name@, table, at))
            },
        },
        match root {
            Ok(root) => exists|table: int, at: int|
                0 <= table < tables@.len() && 0 <= at < tables@[table].indexes@.len() && (
                #[trigger] tables@[table].indexes@[at]).folded@ == folded(name@) && root
                    == tables@[table].indexes@[at].root && (forall|other: int, which: int|
                    0 <= other < tables@.len() && 0 <= which < tables@[other].indexes@.len() && (
                    other < table || (other == table && which < at)) ==> (
                    #[trigger] tables@[other].indexes@[which]).folded@ != folded(name@)),
            Err(_) => forall|other: int, which: int|
                0 <= other < tables@.len() && 0 <= which < tables@[other].indexes@.len() ==> (
                #[trigger] tables@[other].indexes@[which]).folded@ != folded(name@),
        },
{
    let wanted = fold(name);
    for table in 0..tables.len()
        invariant
            wanted@ == folded(name@),
            forall|other: int, which: int| #[trigger]
                is_index_named(tables@, name@, other, which) ==> table <= other,
    {
        let many: usize = tables[table].indexes.len();
        for at in 0..many
            invariant
                table < tables@.len(),
                many == tables@[table as int].indexes@.len(),
                wanted@ == folded(name@),
                forall|other: int, which: int| #[trigger]
                    is_index_named(tables@, name@, other, which) ==> table < other || (table
                        == other && at <= which),
        {
            let index = &tables[table].indexes[at];
            if same(&index.folded, &wanted) {
                assert(first_index_named(tables@, name@, table as int, at as int));
                assert forall|other: int, which: int|
                    0 <= other < tables@.len() && 0 <= which < tables@[other].indexes@.len() && (
                    other < table || (other == table && which < at)) implies (
                #[trigger] tables@[other].indexes@[which]).folded@ != folded(name@) by {
                    assert(is_index_named(tables@, name@, other, which) ==> table < other || (table
                        == other && at <= which));
                }
                assert(tables@[table as int].indexes@[at as int].folded@ == folded(name@));
                return Ok(index.root);
            }
        }
    }
    assert forall|other: int, which: int|
        0 <= other < tables@.len() && 0 <= which < tables@[other].indexes@.len() implies (
    #[trigger] tables@[other].indexes@[which]).folded@ != folded(name@) by {
        assert(!is_index_named(tables@, name@, other, which));
    }
    Err(Refusal::NoSuchIndex(copied(name)))
}

/// Whether a catalog row is the first of a name, whatever the case of its
/// letters.
pub open spec fn first_entry_named(entries: Seq<Recorded>, name: Seq<u8>, at: int) -> bool {
    &&& 0 <= at < entries.len()
    &&& folded(entries[at].entry.name@) == folded(name)
    &&& forall|i: int|
        0 <= i < at ==> folded((#[trigger] entries[i]).entry.name@) != folded(name)
}

/// Returns the place of the first catalog row of a name.
pub fn entry_named(entries: &[Recorded], name: &[u8]) -> (found: Result<usize, Refusal>)
    ensures
        match found {
            Ok(at) => first_entry_named(entries@, name@, at as int) && at < entries@.len() && folded(
                entries@[at as int].entry.name@,
            ) == folded(name@) && forall|i: int|
                0 <= i < at ==> folded((#[trigger] entries@[i]).entry.name@) != folded(name@),
            Err(refusal) => {
                &&& refusal matches Refusal::NoSuchTable(said)
                &&& said@ == name@
                &&& forall|i: int|
                    0 <= i < entries@.len() ==> folded((#[trigger] entries@[i]).entry.name@)
                        != folded(name@)
            },
        },
{
    for at in 0..entries.len()
        invariant
            forall|i: int|
                0 <= i < at ==> folded((#[trigger] entries@[i]).entry.name@) != folded(name@),
    {
        if same_folded(&entries[at].entry.name, name) {
            return Ok(at);
        }
    }
    Err(Refusal::NoSuchTable(copied(name)))
}

/// Returns the page a table's tree is rooted at.
pub fn root_page_of(entries: &[Recorded], table: &[u8]) -> (page: Result<u64, Refusal>)
    ensures
        match page {
            Ok(page) => exists|at: int|
                first_entry_named(entries@, table@, at) && page == entries@[at].entry.root,
            Err(refusal) => {
                &&& refusal matches Refusal::NoSuchTable(said)
                &&& said@ == table@
                &&& forall|i: int|
                    0 <= i < entries@.len() ==> folded((#[trigger] entries@[i]).entry.name@)
                        != folded(table@)
            },
        },
{
    match entry_named(entries, table) {
        Ok(at) => {
            assert(first_entry_named(entries@, table@, at as int));
            Ok(entries[at].entry.root)
        },
        Err(refusal) => Err(refusal),
    }
}

/// Where a table's catalog row is made to point.
#[derive(Clone, Copy, Debug, PartialEq, Eq, Structural)]
pub struct Pointed {
    /// The rowid of the row that is moved.
    pub rowid: i64,
    /// Its place.
    pub at: usize,
    /// The page its tree is then rooted at.
    pub root: u64,
    /// What that tree looks like.
    pub stats: TreeStats,
}

/// Returns how a table's catalog row is made to name another table's tree.
///
/// The identifier of its own tree stays: what moves is the row's idea of where
/// its tree is, not which tree the log's records belong to. The table to point at
/// is looked for first.
pub fn point_table_at(entries: &[Recorded], table: &[u8], onto: &[u8]) -> (moved: Result<
    Pointed,
    Refusal,
>)
    ensures
        match moved {
            Ok(moved) => {
                &&& first_entry_named(entries@, table@, moved.at as int)
                &&& moved.rowid == entries@[moved.at as int].rowid
                &&& exists|other: int|
                    first_entry_named(entries@, onto@, other) && moved.root
                        == entries@[other].entry.root && moved.stats == entries@[other].entry.stats
            },
            Err(refusal) => {
                &&& refusal matches Refusal::NoSuchTable(said)
                &&& said@ == onto@ || said@ == table@
                &&& forall|i: int|
                    0 <= i < entries@.len() ==> folded((#[trigger] entries@[i]).entry.name@)
                        != folded(said@)
                &&& said@ != onto@ ==> exists|other: int|
                    first_entry_named(entries@, onto@, other)
            },
        },
{
    let other: usize = match entry_named(entries, onto) {
        Ok(at) => at,
        Err(refusal) => {
            return Err(refusal);
        },
    };
    assert(first_entry_named(entries@, onto@, other as int));
    match entry_named(entries, table) {
        Ok(at) => Ok(
            Pointed {
                rowid: entries[at].rowid,
                at,
                root: entries[other].entry.root,
                stats: entries[other].entry.stats,
            },
        ),
        Err(refusal) => Err(refusal),
    }
}

/// An index that nothing is said of holds the entries its table's rows give, each once:
/// every entry is that of a row, value by value, no two of the same row.
pub proof fn a_sound_index_holds_its_rows_entries(
    table: TableInfo,
    walked: Walked,
    at: int,
) -> (places: Seq<usize>)
    requires
        is_checked(table, Some(walked), at),
        reports(table, walked, at, None),
        table.indexes@[at].partial_sql is None,
        forall|i: int|
            0 <= i < table.indexes@[at].columns@.len() ==> (
            #[trigger] table.indexes@[at].columns@[i]).expr_sql is None,
    ensures
        ({
            let index = table.indexes@[at];
            let entries = owned_rows(walked.entries@[at]->Some_0@);
            let rows = owned_rows(walked.rows@);
            &&& entries.len() == rows.len()
            &&& places.len() == rows.len()
            &&& places.no_duplicates()
            &&& forall|i: int|
                0 <= i < entries.len() ==> {
                    let entry = plain_entry(index, walked.layout, rows[places[i] as int]);
                    &&& places[i] < rows.len()
                    &&& (#[trigger] entries[i]).len() == entry.len()
                    &&& forall|column: int|
                        0 <= column < entry.len() ==> (#[trigger] entries[i][column])
                            == entry[column] || (entries[i][column] is Real && entry[column] is Real
                            && entries[i][column]->Real_0.place == entry[column]->Real_0.place)
                }
        }),
{
    let index = table.indexes@[at];
    let entries = owned_rows(walked.entries@[at]->Some_0@);
    let rows = owned_rows(walked.rows@);
    let whole = implied_entries(index, walked.layout, rows);
    let (columns, layout, implied, places, found) = choose|
        columns: Seq<ColumnSpec>,
        layout: SourceLayout,
        implied: Seq<Seq<Value>>,
        places: Seq<usize>,
        found: Option<Disagreement>,
    | #[trigger]
        follows(table, walked, at, columns, layout, implied, places, found, None);
    assert(found is None);
    assert(!is_computed(index));
    agreement_is_equality(index, implied, entries);
    assert(arranged(whole, implied, columns, columns.len() as int, places));
    assert forall|i: int| 0 <= i < entries.len() implies {
        let entry = plain_entry(index, walked.layout, rows[places[i] as int]);
        &&& places[i] < rows.len()
        &&& (#[trigger] entries[i]).len() == entry.len()
        &&& forall|column: int|
            0 <= column < entry.len() ==> (#[trigger] entries[i][column]) == entry[column] || (
            entries[i][column] is Real && entry[column] is Real
                && entries[i][column]->Real_0.place == entry[column]->Real_0.place)
    } by {
        assert(places[i] < whole.len());
        assert(implied[i] == whole[places[i] as int]);
        assert(matches_row(implied[i], entries[i]));
        let entry = whole[places[i] as int];
        assert forall|column: int| 0 <= column < entry.len() implies (#[trigger] entries[i][column])
            == entry[column] || (entries[i][column] is Real && entry[column] is Real
            && entries[i][column]->Real_0.place == entry[column]->Real_0.place) by {
            assert(matches_value(implied[i][column], entries[i][column]));
        }
    }
    places
}

/// An index is checked where it has a tree of its own that could be read, of a table that
/// could be.
pub proof fn an_index_is_checked_where_it_has_a_tree(
    table: TableInfo,
    walked: Option<Walked>,
    at: int,
)
    ensures
        is_checked(table, walked, at) <==> walked is Some && 0 <= at < table.indexes@.len() && at
            < walked->Some_0.entries@.len() && table.indexes@[at].root != 0
            && table.indexes@[at].root != table.root && walked->Some_0.entries@[at] is Some,
{
}

/// What identifies a row is told value by value with commas between: a number in digits, a
/// text as it is shown, and a mark for anything else, or for nothing at all.
pub proof fn an_identity_is_told_value_by_value(
    key: Seq<Value>,
    values: Seq<Value>,
    value: Value,
    number: i64,
    bytes: Seq<u8>,
)
    ensures
        identity_word(Value::Int(number)) == signed_decimal(number as int),
        identity_word(Value::Text(bytes)) == shown(bytes),
        !(value is Int) && !(value is Text) ==> identity_word(value) == seq![63u8],
        identity_text(key, key.len() as int) == seq![63u8],
        identity_text(key + seq![value], key.len() as int) == identity_word(value),
        values.len() > 0 ==> identity_text(key + values.push(value), key.len() as int)
            == identity_text(key + values, key.len() as int) + seq![44u8] + identity_word(value),
{
    let one = key + seq![value];
    assert(one.subrange(key.len() as int, one.len() as int) =~= seq![value]);
    if values.len() > 0 {
        let few = key + values;
        let more = key + values.push(value);
        let many = values.len() as int;
        assert(few.subrange(key.len() as int, few.len() as int) =~= values);
        assert(more.subrange(key.len() as int, more.len() as int) =~= values.push(value));
        words_rest_on_the_first(values, value, many);
    }
}

/// The words of the first values rest on those alone.
proof fn words_rest_on_the_first(values: Seq<Value>, value: Value, upto: int)
    requires
        0 <= upto <= values.len(),
    ensures
        identity_words(values.push(value), upto) == identity_words(values, upto),
    decreases upto,
{
    if upto > 1 {
        words_rest_on_the_first(values, value, upto - 1);
    }
}

/// The files of a check are those its trees are in, each once and as it is first met.
pub proof fn a_file_is_seen_once(state: SessionState, handles: Seq<u32>, handle: u32)
    ensures
        files_seen(state, Seq::empty()).len() == 0,
        files_seen(state, handles).contains(state.owned_by(handle)) ==> files_seen(
            state,
            handles.push(handle),
        ) == files_seen(state, handles),
        !files_seen(state, handles).contains(state.owned_by(handle)) ==> files_seen(
            state,
            handles.push(handle),
        ) == files_seen(state, handles) + seq![state.owned_by(handle)],
        files_seen(state, handles.push(handle)).contains(state.owned_by(handle)),
{
    let files = files_seen(state, handles);
    let at = state.owned_by(handle);
    assert(handles.push(handle).drop_last() =~= handles);
    assert(handles.push(handle).last() == handle);
    if !files.contains(at) {
        assert(files.push(at) =~= files + seq![at]);
        assert(files.push(at)[files.len() as int] == at);
    }
}

/// As many files are counted as are open before the first that is not.
proof fn files_open_before(state: SessionState, files: Seq<int>, at: int)
    requires
        0 <= at <= files.len(),
        forall|i: int| 0 <= i < at ==> is_open(state, #[trigger] files[i]),
        at < files.len() ==> !is_open(state, files[at]),
    ensures
        open_before(state, files) == at,
    decreases files.len(),
{
    if files.len() > 0 {
        let fewer = files.drop_last();
        if at == files.len() {
            assert(is_open(state, files[at - 1]));
            assert forall|i: int| 0 <= i < at - 1 implies is_open(state, #[trigger] fewer[i]) by {
                assert(fewer[i] == files[i]);
            }
            files_open_before(state, fewer, at - 1);
        } else if at == files.len() - 1 {
            assert forall|i: int| 0 <= i < at implies is_open(state, #[trigger] fewer[i]) by {
                assert(fewer[i] == files[i]);
            }
            files_open_before(state, fewer, at);
        } else {
            assert forall|i: int| 0 <= i < at implies is_open(state, #[trigger] fewer[i]) by {
                assert(fewer[i] == files[i]);
            }
            assert(fewer[at] == files[at]);
            files_open_before(state, fewer, at);
        }
    }
}

/// A check goes over the pages of each file, then over every tree as it is asked for, then
/// over the pages once more, and a full one over the indexes. It stops at a file that is
/// not open.
pub proof fn a_check_goes_over_everything(
    state: SessionState,
    handles: Seq<u32>,
    depth: CheckDepth,
    opened: int,
    at: int,
)
    requires
        0 <= opened <= files_seen(state, handles).len(),
        forall|i: int|
            0 <= i < opened ==> #[trigger] files_seen(state, handles)[i] == 0 || state.beside_main(
                files_seen(state, handles)[i],
            ) is Some,
        opened < files_seen(state, handles).len() ==> files_seen(state, handles)[opened] != 0
            && state.beside_main(files_seen(state, handles)[opened]) is None,
    ensures
        ({
            let files = files_seen(state, handles);
            let steps = steps_of(state, handles, depth);
            &&& 0 <= at < opened ==> steps[at] == CheckStep::PageCount(files[at] as usize)
            &&& opened < files.len() ==> steps.len() == opened + 1 && steps[opened] is NotAttached
            &&& opened == files.len() ==> {
                &&& 0 <= at < handles.len() ==> steps[opened + at] == CheckStep::Tree(handles[at])
                &&& steps[opened + handles.len()] is Pages
                &&& depth is Quick ==> steps.len() == opened + handles.len() + 1
                &&& depth is Full ==> steps.len() == opened + handles.len() + 2 && steps.last()
                    is Indexes
            }
        }),
{
    let files = files_seen(state, handles);
    assert forall|i: int| 0 <= i < opened implies is_open(state, #[trigger] files[i]) by {}
    files_open_before(state, files, opened);
}

} // verus!
